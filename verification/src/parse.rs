//! Packet captures of the classic pcap format, and the link, IP and TCP headers
//! of their frames.

use vstd::prelude::*;
use vstd::slice::slice_subrange;
use crate::bytes::{
    be16, be16_bytes, be32, copy_range, le32, push_all, push_be16, read_be16, read_be32, read_le32,
};
use crate::capture::{
    lemma_packet_at, lemma_packet_stands, lemma_pcap_header, packet_bytes, pcap_file, Packet,
};
use crate::text::{cat_dec, dec, push_text};
use crate::types::Ip;
use crate::wire::{read_v4, read_v6, v4_at, v6_at};

verus! {

pub const TCP_FIN: u8 = 0x01;

pub const TCP_SYN: u8 = 0x02;

pub const TCP_RST: u8 = 0x04;

pub const TCP_PSH: u8 = 0x08;

pub const TCP_ACK: u8 = 0x10;

pub const TCP_URG: u8 = 0x20;

#[derive(Debug, Clone)]
pub struct RawFrame {
    pub index: u64,
    pub ts_micros: i64,
    pub data: Vec<u8>,
}

/// What a frame is.
pub struct RawModel {
    pub index: u64,
    pub ts_micros: i64,
    pub data: Seq<u8>,
}

impl View for RawFrame {
    type V = RawModel;

    open spec fn view(&self) -> RawModel {
        RawModel { index: self.index, ts_micros: self.ts_micros, data: self.data@ }
    }
}

/// What frames are.
pub open spec fn raws(v: Seq<RawFrame>) -> Seq<RawModel> {
    v.map_values(|f: RawFrame| f@)
}

#[derive(Debug, Clone)]
pub enum NetPacket {
    Ipv4(Ipv4Packet),
    Ipv6(Ipv6Packet),
    Other { ethertype: u16 },
    Malformed { reason: String },
}

#[derive(Debug, Clone)]
pub struct Ipv4Packet {
    pub src: Ip,
    pub dst: Ip,
    pub protocol: u8,
    pub ident: u16,
    pub frag_offset_bytes: u16,
    pub more_fragments: bool,
    pub dont_fragment: bool,
    pub ttl: u8,
    pub payload: Vec<u8>,
}

impl Ipv4Packet {
    /// Whether the packet is part of a datagram.
    pub fn is_fragment(&self) -> (r: bool)
        ensures
            r == (self.more_fragments || self.frag_offset_bytes > 0),
    {
        self.more_fragments || self.frag_offset_bytes > 0
    }
}

#[derive(Debug, Clone)]
pub struct Ipv6Packet {
    pub src: Ip,
    pub dst: Ip,
    pub next_header: u8,
    pub payload: Vec<u8>,
    /// Whether the packet has a fragment header. Such packets are set apart, not
    /// reassembled.
    pub fragmented: bool,
}

#[derive(Debug, Clone)]
pub struct TcpSegment {
    pub src_port: u16,
    pub dst_port: u16,
    pub seq: u32,
    pub ack: u32,
    pub flags: u8,
    pub window: u16,
    pub payload: Vec<u8>,
}

/// What a packet is.
pub enum PacketModel {
    Ipv4 {
        src: Ip,
        dst: Ip,
        protocol: u8,
        ident: int,
        offset: int,
        more: bool,
        dont: bool,
        ttl: u8,
        payload: Seq<u8>,
    },
    Ipv6 { src: Ip, dst: Ip, next_header: u8, payload: Seq<u8>, fragmented: bool },
    Other(int),
    Malformed(Seq<char>),
}

impl NetPacket {
    /// The packet is the modelled one.
    pub open spec fn is(self, m: PacketModel) -> bool {
        match (self, m) {
            (
                NetPacket::Ipv4(p),
                PacketModel::Ipv4 { src, dst, protocol, ident, offset, more, dont, ttl, payload },
            ) => {
                &&& p.src == src
                &&& p.dst == dst
                &&& p.protocol == protocol
                &&& p.ident == ident
                &&& p.frag_offset_bytes == offset
                &&& p.more_fragments == more
                &&& p.dont_fragment == dont
                &&& p.ttl == ttl
                &&& p.payload@ == payload
            },
            (
                NetPacket::Ipv6(p),
                PacketModel::Ipv6 { src, dst, next_header, payload, fragmented },
            ) => {
                &&& p.src == src
                &&& p.dst == dst
                &&& p.next_header == next_header
                &&& p.payload@ == payload
                &&& p.fragmented == fragmented
            },
            (NetPacket::Other { ethertype }, PacketModel::Other(e)) => ethertype == e,
            (NetPacket::Malformed { reason }, PacketModel::Malformed(t)) => reason@ == t,
            _ => false,
        }
    }
}

/// The name behind `s` where the flag is set, joined by `+`.
pub open spec fn joined(s: Seq<char>, on: bool, name: Seq<char>) -> Seq<char> {
    if !on {
        s
    } else if s.len() == 0 {
        name
    } else {
        s + "+"@ + name
    }
}

/// The names of the flags that are set.
pub open spec fn flag_names(flags: u8) -> Seq<char> {
    let s = joined(seq![], flags & TCP_SYN != 0, "SYN"@);
    let s = joined(s, flags & TCP_FIN != 0, "FIN"@);
    let s = joined(s, flags & TCP_RST != 0, "RST"@);
    let s = joined(s, flags & TCP_PSH != 0, "PSH"@);
    let s = joined(s, flags & TCP_ACK != 0, "ACK"@);
    joined(s, flags & TCP_URG != 0, "URG"@)
}

fn join_name(s: &mut String, on: bool, name: &str)
    ensures
        final(s)@ == joined(old(s)@, on, name@),
{
    if on {
        if !s.as_str().is_empty() {
            push_text(s, "+");
        }
        push_text(s, name);
    }
    assert(on && old(s)@.len() == 0 ==> s@ =~= name@);
}

/// The names of the flags that are set, joined by `+`.
pub fn flags_to_string(flags: u8) -> (r: String)
    ensures
        r@ == if flag_names(flags).len() == 0 {
            "NONE"@
        } else {
            flag_names(flags)
        },
{
    let mut s = String::new();
    assert(s@ =~= seq![]);
    join_name(&mut s, flags & TCP_SYN != 0, "SYN");
    join_name(&mut s, flags & TCP_FIN != 0, "FIN");
    join_name(&mut s, flags & TCP_RST != 0, "RST");
    join_name(&mut s, flags & TCP_PSH != 0, "PSH");
    join_name(&mut s, flags & TCP_ACK != 0, "ACK");
    join_name(&mut s, flags & TCP_URG != 0, "URG");
    if s.as_str().is_empty() {
        "NONE".to_string()
    } else {
        s
    }
}

/// How the numbers of a capture are written: little-endian or not, nanoseconds or
/// not.
pub open spec fn layout(b: Seq<u8>) -> Option<(bool, bool)> {
    let magic = be32(b, 0);
    if magic == 0xd4c3b2a1 {
        Some((true, false))
    } else if magic == 0xa1b2c3d4 {
        Some((false, false))
    } else if magic == 0x4d3cb2a1 {
        Some((true, true))
    } else if magic == 0xa1b23c4d {
        Some((false, true))
    } else {
        None
    }
}

pub open spec fn u32_at(b: Seq<u8>, i: int, le: bool) -> int {
    if le {
        le32(b, i)
    } else {
        be32(b, i)
    }
}

pub const RAW_IP_ETHERTYPE_MARKER: u16 = 0xffff;

/// A raw IP packet behind an Ethernet header of zeros with its EtherType.
pub open spec fn wrapped(ip: Seq<u8>) -> Seq<u8> {
    let et = if ip.len() > 0 && ip[0] as int / 16 == 4 {
        0x0800int
    } else if ip.len() > 0 && ip[0] as int / 16 == 6 {
        0x86dd
    } else {
        RAW_IP_ETHERTYPE_MARKER as int
    };
    Seq::new(12, |i: int| 0u8) + be16_bytes(et) + ip
}

/// The frame of the record at `off`, which has number `index`.
pub open spec fn record(
    b: Seq<u8>,
    off: int,
    index: int,
    le: bool,
    nano: bool,
    raw_ip: bool,
) -> RawModel {
    let frac = u32_at(b, off + 4, le);
    let data = b.subrange(off + 16, off + 16 + u32_at(b, off + 8, le));
    RawModel {
        index: index as u64,
        ts_micros: (u32_at(b, off, le) * 1_000_000 + (if nano {
            frac / 1000
        } else {
            frac
        })) as i64,
        data: if raw_ip {
            wrapped(data)
        } else {
            data
        },
    }
}

/// The frames of the records from `off` on, the first of which has number
/// `index`.
pub open spec fn records(
    b: Seq<u8>,
    off: int,
    index: int,
    le: bool,
    nano: bool,
    raw_ip: bool,
) -> Result<Seq<RawModel>, Seq<char>>
    decreases b.len() - off,
{
    let incl = u32_at(b, off + 8, le);
    if off + 16 > b.len() {
        Ok(seq![])
    } else if incl < 0 || off + 16 + incl > b.len() {
        Err("pcap: truncated frame "@ + dec(index as nat))
    } else {
        match records(b, off + 16 + incl, index + 1, le, nano, raw_ip) {
            Err(e) => Err(e),
            Ok(rest) => Ok(seq![record(b, off, index, le, nano, raw_ip)] + rest),
        }
    }
}

/// The frames of a capture. Link type 1 is Ethernet, link type 101 raw IP, and
/// nanoseconds become microseconds.
pub open spec fn capture(b: Seq<u8>) -> Result<Seq<RawModel>, Seq<char>> {
    if b.len() < 24 {
        Err("pcap: file too short for global header"@)
    } else {
        match layout(b) {
            None => Err("pcap: unknown magic"@),
            Some((le, nano)) => {
                let link = u32_at(b, 20, le) % 0x10000;
                if link != 1 && link != 101 {
                    Err("pcap: unsupported linktype "@ + dec(link as nat))
                } else {
                    records(b, 24, 0, le, nano, link == 101)
                }
            },
        }
    }
}

fn read_u32(b: &[u8], i: usize, le: bool) -> (r: u32)
    requires
        i + 4 <= b@.len(),
    ensures
        r == u32_at(b@, i as int, le),
{
    if le {
        read_le32(b, i)
    } else {
        read_be32(b, i)
    }
}

fn wrap_raw_ip(ip: &[u8]) -> (r: Vec<u8>)
    ensures
        r@ == wrapped(ip@),
{
    let et: u16 = if ip.len() > 0 && ip[0] / 16 == 4 {
        0x0800
    } else if ip.len() > 0 && ip[0] / 16 == 6 {
        0x86dd
    } else {
        RAW_IP_ETHERTYPE_MARKER
    };
    let mut out: Vec<u8> = Vec::new();
    let mut i: usize = 0;
    while i < 12
        invariant
            i <= 12,
            out@ == Seq::new(i as nat, |j: int| 0u8),
        decreases 12 - i,
    {
        out.push(0);
        i += 1;
        assert(out@ =~= Seq::new(i as nat, |j: int| 0u8));
    }
    push_be16(&mut out, et);
    push_all(&mut out, ip);
    out
}

/// `head` followed by what `rest` gives.
pub open spec fn after(head: Seq<RawModel>, rest: Result<Seq<RawModel>, Seq<char>>) -> Result<
    Seq<RawModel>,
    Seq<char>,
> {
    match rest {
        Err(e) => Err(e),
        Ok(r) => Ok(head + r),
    }
}

fn read_record(
    bytes: &[u8],
    off: usize,
    incl: usize,
    index: u64,
    le: bool,
    nano: bool,
    raw_ip: bool,
) -> (f: RawFrame)
    requires
        off + 16 + incl <= bytes@.len(),
        incl == u32_at(bytes@, off + 8, le),
    ensures
        f@ == record(bytes@, off as int, index as int, le, nano, raw_ip),
{
    assert(bytes@.len() == bytes.len());
    let sec: u32 = read_u32(bytes, off, le);
    let frac: u32 = read_u32(bytes, off + 4, le);
    let start: usize = off + 16;
    let data = if raw_ip {
        wrap_raw_ip(slice_subrange(bytes, start, start + incl))
    } else {
        copy_range(bytes, start, start + incl)
    };
    let ts_micros: i64 = if nano {
        sec as i64 * 1_000_000 + (frac / 1000) as i64
    } else {
        sec as i64 * 1_000_000 + frac as i64
    };
    RawFrame { index, ts_micros, data }
}

/// Parses a capture of the classic pcap format into frames.
pub fn parse_pcap(bytes: &[u8]) -> (r: Result<Vec<RawFrame>, String>)
    ensures
        match r {
            Ok(v) => capture(bytes@) == Ok::<Seq<RawModel>, Seq<char>>(raws(v@)),
            Err(e) => capture(bytes@) == Err::<Seq<RawModel>, Seq<char>>(e@),
        },
{
    if bytes.len() < 24 {
        return Err("pcap: file too short for global header".to_string());
    }
    let magic: u32 = read_be32(bytes, 0);
    let (le, nano) = if magic == 0xd4c3b2a1 {
        (true, false)
    } else if magic == 0xa1b2c3d4 {
        (false, false)
    } else if magic == 0x4d3cb2a1 {
        (true, true)
    } else if magic == 0xa1b23c4d {
        (false, true)
    } else {
        return Err("pcap: unknown magic".to_string());
    };
    let link: u32 = read_u32(bytes, 20, le) % 0x10000;
    if link != 1 && link != 101 {
        return Err(cat_dec("pcap: unsupported linktype ", link as u64));
    }
    let raw_ip = link == 101;
    let mut frames: Vec<RawFrame> = Vec::new();
    let n: usize = bytes.len();
    let mut off: usize = 24;
    let mut index: u64 = 0;
    proof {
        let whole = records(bytes@, 24, 0, le, nano, raw_ip);
        assert(raws(frames@) =~= seq![]);
        if whole is Ok {
            assert(raws(frames@) + whole->Ok_0 =~= whole->Ok_0);
        }
    }
    while n - off >= 16
        invariant
            n == bytes@.len(),
            24 <= off <= n,
            index <= off,
            capture(bytes@) == after(
                raws(frames@),
                records(bytes@, off as int, index as int, le, nano, raw_ip),
            ),
        decreases n - off,
    {
        let ghost o0 = off as int;
        let ghost before = raws(frames@);
        let incl: usize = read_u32(bytes, off + 8, le) as usize;
        if n - off - 16 < incl {
            return Err(cat_dec("pcap: truncated frame ", index));
        }
        let f = read_record(bytes, off, incl, index, le, nano, raw_ip);
        off = off + 16 + incl;
        let ghost fm = f@;
        frames.push(f);
        proof {
            assert(raws(frames@) =~= before.push(fm));
            let rest = records(bytes@, off as int, index + 1, le, nano, raw_ip);
            let here = records(bytes@, o0, index as int, le, nano, raw_ip);
            if rest is Ok {
                assert(here == Ok::<Seq<RawModel>, Seq<char>>(seq![fm] + rest->Ok_0));
                assert(before + (seq![fm] + rest->Ok_0) =~= raws(frames@) + rest->Ok_0);
            }
        }
        index = index + 1;
    }
    proof {
        assert(raws(frames@) + Seq::<RawModel>::empty() =~= raws(frames@));
    }
    Ok(frames)
}

/// What an IPv4 packet is.
pub open spec fn ipv4_packet(b: Seq<u8>) -> PacketModel {
    let ihl = b[0] as int % 16 * 4;
    let total = be16(b, 2);
    let ff = be16(b, 6);
    if b.len() < 20 {
        PacketModel::Malformed("ipv4: header too short"@)
    } else if ihl < 20 || b.len() < ihl {
        PacketModel::Malformed("ipv4: bad IHL"@)
    } else if total < ihl || b.len() < total {
        PacketModel::Malformed("ipv4: bad total length"@)
    } else {
        PacketModel::Ipv4 {
            src: v4_at(b, 12),
            dst: v4_at(b, 16),
            protocol: b[9],
            ident: be16(b, 4),
            offset: ff % 0x2000 * 8,
            more: ff / 0x2000 % 2 == 1,
            dont: ff / 0x4000 % 2 == 1,
            ttl: b[8],
            payload: b.subrange(ihl, total),
        }
    }
}

/// What the headers of an IPv6 packet from `off` on lead to.
pub open spec fn ipv6_rest(b: Seq<u8>, next: u8, off: int, end: int) -> PacketModel
    decreases end - off,
{
    if next == 0 || next == 43 || next == 60 || next == 51 {
        let length = if next == 51 {
            (b[off + 1] + 2) * 4
        } else {
            (b[off + 1] + 1) * 8
        };
        if off + 2 > end {
            PacketModel::Malformed(
                if next == 51 {
                    "ipv6: truncated AH header"@
                } else {
                    "ipv6: truncated ext header"@
                },
            )
        } else if off + length > end {
            PacketModel::Malformed(
                if next == 51 {
                    "ipv6: AH overrun"@
                } else {
                    "ipv6: ext header overrun"@
                },
            )
        } else {
            ipv6_rest(b, b[off], off + length, end)
        }
    } else if next == 44 {
        if off + 8 > end {
            PacketModel::Malformed("ipv6: truncated fragment header"@)
        } else {
            PacketModel::Ipv6 {
                src: v6_at(b, 8),
                dst: v6_at(b, 24),
                next_header: b[off],
                payload: b.subrange(off + 8, end),
                fragmented: true,
            }
        }
    } else {
        PacketModel::Ipv6 {
            src: v6_at(b, 8),
            dst: v6_at(b, 24),
            next_header: next,
            payload: b.subrange(off, end),
            fragmented: false,
        }
    }
}

/// What an IPv6 packet is.
pub open spec fn ipv6_packet(b: Seq<u8>) -> PacketModel {
    if b.len() < 40 {
        PacketModel::Malformed("ipv6: header too short"@)
    } else if b.len() < 40 + be16(b, 4) {
        PacketModel::Malformed("ipv6: truncated payload"@)
    } else {
        ipv6_rest(b, b[6], 40, 40 + be16(b, 4))
    }
}

/// What stands behind an EtherType and at most `tags` VLAN tags.
pub open spec fn tagged(d: Seq<u8>, et: int, off: int, tags: nat) -> PacketModel
    decreases tags,
{
    if tags > 0 && (et == 0x8100 || et == 0x88a8) {
        if d.len() < off + 4 {
            PacketModel::Malformed("truncated VLAN tag"@)
        } else {
            tagged(d, be16(d, off + 2), off + 4, (tags - 1) as nat)
        }
    } else if et == 0x0800 {
        ipv4_packet(d.skip(off))
    } else if et == 0x86dd {
        ipv6_packet(d.skip(off))
    } else {
        PacketModel::Other(et)
    }
}

/// What the packet of a frame is.
pub open spec fn link_packet(d: Seq<u8>) -> PacketModel {
    if d.len() < 14 {
        PacketModel::Malformed("frame shorter than ethernet header"@)
    } else {
        tagged(d, be16(d, 12), 14, 2)
    }
}

fn malformed(reason: &str) -> (r: NetPacket)
    ensures
        r.is(PacketModel::Malformed(reason@)),
{
    NetPacket::Malformed { reason: reason.to_string() }
}

/// Parses the packet of a frame behind up to two VLAN tags.
pub fn parse_link(frame: &RawFrame) -> (r: NetPacket)
    ensures
        r.is(link_packet(frame.data@)),
{
    let data = frame.data.as_slice();
    if data.len() < 14 {
        return malformed("frame shorter than ethernet header");
    }
    let mut et: u16 = read_be16(data, 12);
    let mut off: usize = 14;
    let mut tags: usize = 2;
    while tags > 0 && (et == 0x8100 || et == 0x88a8)
        invariant
            14 <= off <= data@.len(),
            data@ == frame.data@,
            link_packet(frame.data@) == tagged(data@, et as int, off as int, tags as nat),
        decreases tags,
    {
        if data.len() - off < 4 {
            return malformed("truncated VLAN tag");
        }
        et = read_be16(data, off + 2);
        off = off + 4;
        tags = tags - 1;
    }
    let rest = slice_subrange(data, off, data.len());
    assert(rest@ =~= data@.skip(off as int));
    if et == 0x0800 {
        parse_ipv4(rest)
    } else if et == 0x86dd {
        parse_ipv6(rest)
    } else {
        NetPacket::Other { ethertype: et }
    }
}

fn parse_ipv4(data: &[u8]) -> (r: NetPacket)
    ensures
        r.is(ipv4_packet(data@)),
{
    if data.len() < 20 {
        return malformed("ipv4: header too short");
    }
    let ihl: usize = (data[0] % 16) as usize * 4;
    if ihl < 20 || data.len() < ihl {
        return malformed("ipv4: bad IHL");
    }
    let total: usize = read_be16(data, 2) as usize;
    if total < ihl || data.len() < total {
        return malformed("ipv4: bad total length");
    }
    let ff: u16 = read_be16(data, 6);
    NetPacket::Ipv4(
        Ipv4Packet {
            src: read_v4(data, 12),
            dst: read_v4(data, 16),
            protocol: data[9],
            ident: read_be16(data, 4),
            frag_offset_bytes: ff % 0x2000 * 8,
            more_fragments: ff / 0x2000 % 2 == 1,
            dont_fragment: ff / 0x4000 % 2 == 1,
            ttl: data[8],
            payload: copy_range(data, ihl, total),
        },
    )
}

fn parse_ipv6(data: &[u8]) -> (r: NetPacket)
    ensures
        r.is(ipv6_packet(data@)),
{
    if data.len() < 40 {
        return malformed("ipv6: header too short");
    }
    let payload_len: usize = read_be16(data, 4) as usize;
    if data.len() < 40 + payload_len {
        return malformed("ipv6: truncated payload");
    }
    let src = read_v6(data, 8);
    let dst = read_v6(data, 24);
    let mut next: u8 = data[6];
    let mut off: usize = 40;
    let end: usize = 40 + payload_len;
    while next == 0 || next == 43 || next == 60 || next == 51
        invariant
            40 <= off <= end <= data@.len(),
            end <= 40 + 0xffff,
            src == v6_at(data@, 8),
            dst == v6_at(data@, 24),
            ipv6_packet(data@) == ipv6_rest(data@, next, off as int, end as int),
        decreases end - off,
    {
        if off + 2 > end {
            if next == 51 {
                return malformed("ipv6: truncated AH header");
            }
            return malformed("ipv6: truncated ext header");
        }
        let length: usize = if next == 51 {
            (data[off + 1] as usize + 2) * 4
        } else {
            (data[off + 1] as usize + 1) * 8
        };
        if off + length > end {
            if next == 51 {
                return malformed("ipv6: AH overrun");
            }
            return malformed("ipv6: ext header overrun");
        }
        next = data[off];
        off = off + length;
    }
    if next == 44 {
        if off + 8 > end {
            return malformed("ipv6: truncated fragment header");
        }
        return NetPacket::Ipv6(
            Ipv6Packet {
                src,
                dst,
                next_header: data[off],
                payload: copy_range(data, off + 8, end),
                fragmented: true,
            },
        );
    }
    NetPacket::Ipv6(
        Ipv6Packet {
            src,
            dst,
            next_header: next,
            payload: copy_range(data, off, end),
            fragmented: false,
        },
    )
}

/// Where the data of the TCP segment in `b` starts.
pub open spec fn tcp_data(b: Seq<u8>) -> Result<int, Seq<char>> {
    let at = b[12] as int / 16 * 4;
    if b.len() < 20 {
        Err("tcp: header too short"@)
    } else if at < 20 || b.len() < at {
        Err("tcp: bad data offset"@)
    } else {
        Ok(at)
    }
}

/// What the TCP segment in `b` is.
pub struct SegmentModel {
    pub src_port: int,
    pub dst_port: int,
    pub seq: int,
    pub ack: int,
    pub flags: u8,
    pub window: int,
    pub payload: Seq<u8>,
}

/// The TCP segment in `b`.
pub open spec fn segment_in(b: Seq<u8>) -> Result<SegmentModel, Seq<char>> {
    match tcp_data(b) {
        Err(e) => Err(e),
        Ok(at) => Ok(
            SegmentModel {
                src_port: be16(b, 0),
                dst_port: be16(b, 2),
                seq: be32(b, 4),
                ack: be32(b, 8),
                flags: b[13],
                window: be16(b, 14),
                payload: b.skip(at),
            },
        ),
    }
}

/// Parses a TCP segment.
pub fn parse_tcp(data: &[u8]) -> (r: Result<TcpSegment, String>)
    ensures
        match r {
            Ok(s) => {
                &&& tcp_data(data@) is Ok
                &&& s.src_port == be16(data@, 0)
                &&& s.dst_port == be16(data@, 2)
                &&& s.seq == be32(data@, 4)
                &&& s.ack == be32(data@, 8)
                &&& s.flags == data@[13]
                &&& s.window == be16(data@, 14)
                &&& s.payload@ == data@.skip(tcp_data(data@)->Ok_0)
                &&& segment_in(data@) == Ok::<SegmentModel, Seq<char>>(
                    SegmentModel {
                        src_port: s.src_port as int,
                        dst_port: s.dst_port as int,
                        seq: s.seq as int,
                        ack: s.ack as int,
                        flags: s.flags,
                        window: s.window as int,
                        payload: s.payload@,
                    },
                )
            },
            Err(e) => tcp_data(data@) == Err::<int, Seq<char>>(e@),
        },
{
    if data.len() < 20 {
        return Err("tcp: header too short".to_string());
    }
    let at: usize = (data[12] / 16) as usize * 4;
    if at < 20 || data.len() < at {
        return Err("tcp: bad data offset".to_string());
    }
    let payload = copy_range(data, at, data.len());
    assert(payload@ =~= data@.skip(at as int));
    Ok(
        TcpSegment {
            src_port: read_be16(data, 0),
            dst_port: read_be16(data, 2),
            seq: read_be32(data, 4),
            ack: read_be32(data, 8),
            flags: data[13],
            window: read_be16(data, 14),
            payload,
        },
    )
}

pub fn ip_addr_of_v4(a: [u8; 4]) -> (r: Ip)
    ensures
        r == Ip::V4(a),
{
    Ip::V4(a)
}

pub fn ip_addr_of_v6(a: [u8; 16]) -> (r: Ip)
    ensures
        r == Ip::V6(a),
{
    Ip::V6(a)
}

/// A VLAN tag put into a frame with at most one tag changes nothing of what its packet is.
pub proof fn law_vlan_tag_is_transparent(d: Seq<u8>, put: Seq<u8>)
    requires
        d.len() >= 14,
        put.len() == 4,
        be16(put, 0) == 0x8100 || be16(put, 0) == 0x88a8,
        (be16(d, 12) == 0x8100 || be16(d, 12) == 0x88a8) && d.len() >= 18 ==> be16(d, 16) != 0x8100
            && be16(d, 16) != 0x88a8,
    ensures
        link_packet(d.take(12) + put + d.skip(12)) == link_packet(d),
{
    let t = d.take(12) + put + d.skip(12);
    reveal_with_fuel(tagged, 4);
    assert(t[12] == put[0] && t[13] == put[1]);
    assert(be16(t, 12) == be16(put, 0));
    assert(t[16] == d[12] && t[17] == d[13]);
    assert(be16(t, 16) == be16(d, 12));
    assert(t.skip(18) =~= d.skip(14));
    if d.len() >= 18 {
        assert(t[20] == d[16] && t[21] == d[17]);
        assert(be16(t, 20) == be16(d, 16));
        assert(t.skip(22) =~= d.skip(18));
    }
}

/// The frame that record `i` of a file stands for.
pub open spec fn packet_raw(p: Packet, i: int, nano: bool, raw_ip: bool) -> RawModel {
    RawModel {
        index: i as u64,
        ts_micros: (p.sec * 1_000_000 + (if nano {
            p.frac as int / 1000
        } else {
            p.frac as int
        })) as i64,
        data: if raw_ip {
            wrapped(p.data)
        } else {
            p.data
        },
    }
}

proof fn lemma_packets_read(
    b: Seq<u8>,
    ps: Seq<Packet>,
    nano: bool,
    raw_ip: bool,
    big: bool,
    k: int,
)
    requires
        0 <= k <= ps.len(),
        forall|i: int| 0 <= i < ps.len() ==> (#[trigger] ps[i]).data.len() <= u32::MAX,
        b.len() == 24 + packet_bytes(ps, big, ps.len() as int).len(),
        b.skip(24) == packet_bytes(ps, big, ps.len() as int),
    ensures
        records(b, 24 + packet_bytes(ps, big, k).len() as int, k, !big, nano, raw_ip) == Ok::<
            Seq<RawModel>,
            Seq<char>,
        >(Seq::new((ps.len() - k) as nat, |i: int| packet_raw(ps[k + i], k + i, nano, raw_ip))),
    decreases ps.len() - k,
{
    let n = ps.len() as int;
    let want = Seq::new((n - k) as nat, |i: int| packet_raw(ps[k + i], k + i, nano, raw_ip));
    if k < n {
        let a = packet_bytes(ps, big, k).len() as int;
        let e = packet_bytes(ps, big, k + 1).len() as int;
        lemma_packet_stands(ps, big, n, k);
        assert(b.subrange(24 + a, 24 + e) =~= b.skip(24).subrange(a, e));
        assert(ps[k].data.len() <= u32::MAX);
        lemma_packet_at(b, 24 + a, ps[k], nano, big);
        lemma_packets_read(b, ps, nano, raw_ip, big, k + 1);
        let rest = Seq::new(
            (n - k - 1) as nat,
            |i: int| packet_raw(ps[k + 1 + i], k + 1 + i, nano, raw_ip),
        );
        assert(want =~= seq![packet_raw(ps[k], k, nano, raw_ip)] + rest);
    } else {
        assert(want =~= seq![]);
    }
}

/// A pcap file of Ethernet frames or of raw IP packets reads as its records in either
/// byte order and in either resolution.
pub proof fn law_pcap_reads_in_both_orders(
    ps: Seq<Packet>,
    nano: bool,
    rest: Seq<u8>,
    raw_ip: bool,
    big: bool,
)
    requires
        rest.len() == 16,
        forall|i: int| 0 <= i < ps.len() ==> (#[trigger] ps[i]).data.len() <= u32::MAX,
    ensures
        capture(
            pcap_file(
                ps,
                if raw_ip {
                    101
                } else {
                    1
                },
                nano,
                rest,
                big,
            ),
        ) == Ok::<Seq<RawModel>, Seq<char>>(
            Seq::new(ps.len(), |i: int| packet_raw(ps[i], i, nano, raw_ip)),
        ),
{
    let link: u32 = if raw_ip {
        101
    } else {
        1
    };
    let b = pcap_file(ps, link, nano, rest, big);
    lemma_file_head(ps, link, nano, rest, big);
    lemma_packets_read(b, ps, nano, raw_ip, big, 0);
    assert(packet_bytes(ps, big, 0).len() == 0);
    assert(capture(b) == records(b, 24, 0, !big, nano, raw_ip));
    assert(Seq::new((ps.len() - 0) as nat, |i: int| packet_raw(ps[0 + i], 0 + i, nano, raw_ip))
        =~= Seq::new(ps.len(), |i: int| packet_raw(ps[i], i, nano, raw_ip)));
}

proof fn lemma_file_head(ps: Seq<Packet>, link: u32, nano: bool, rest: Seq<u8>, big: bool)
    requires
        rest.len() == 16,
        link == 1 || link == 101,
    ensures
        ({
            let b = pcap_file(ps, link, nano, rest, big);
            &&& b.len() == 24 + packet_bytes(ps, big, ps.len() as int).len()
            &&& b.skip(24) == packet_bytes(ps, big, ps.len() as int)
            &&& layout(b) == Some((!big, nano))
            &&& u32_at(b, 20, !big) % 0x10000 == link
        }),
{
    let b = pcap_file(ps, link, nano, rest, big);
    assert(b.len() >= 24) by {
        reveal(crate::bytes::le32_bytes);
    }
    lemma_pcap_header(ps, link, nano, rest, big, b.len() as int);
    assert(b.take(b.len() as int) =~= b);
}

} // verus!
