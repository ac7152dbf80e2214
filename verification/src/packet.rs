//! Ethernet, IPv4, IPv6 and TCP views into one frame.

use vstd::prelude::*;
use vstd::slice::slice_subrange;
use crate::bytes::{be16, be32, read_be16, read_be32};
use crate::types::Ip;
use crate::wire::{read_v4, read_v6, v4_at, v6_at};

verus! {

pub const TCP_FIN: u8 = 0x01;

pub const TCP_SYN: u8 = 0x02;

pub const TCP_RST: u8 = 0x04;

pub const TCP_PSH: u8 = 0x08;

pub const TCP_ACK: u8 = 0x10;

pub const PROTO_TCP: u8 = 6;

#[derive(Clone, Copy, Debug)]
pub struct FragRef<'a> {
    pub src: Ip,
    pub dst: Ip,
    pub proto: u8,
    pub ident: u32,
    /// Fragment offset in bytes.
    pub offset_bytes: usize,
    pub more_fragments: bool,
    pub payload: &'a [u8],
}

#[derive(Clone, Copy, Debug)]
pub enum NetPacket<'a> {
    /// The payload of an unfragmented datagram.
    Direct { src: Ip, dst: Ip, proto: u8, payload: &'a [u8] },
    /// One fragment of a datagram.
    Fragment(FragRef<'a>),
}

#[derive(Clone, Copy, Debug)]
pub struct TcpSegment<'a> {
    pub src_port: u16,
    pub dst_port: u16,
    pub seq: u32,
    pub ack: u32,
    pub flags: u8,
    pub payload: &'a [u8],
}

/// What a fragment is.
pub struct FragModel {
    pub src: Ip,
    pub dst: Ip,
    pub proto: u8,
    pub ident: u32,
    pub offset: int,
    pub more: bool,
    pub payload: Seq<u8>,
}

/// What a frame carries.
pub enum PacketModel {
    Direct { src: Ip, dst: Ip, proto: u8, payload: Seq<u8> },
    Fragment(FragModel),
}

/// What a TCP segment is.
pub struct SegmentModel {
    pub src_port: u16,
    pub dst_port: u16,
    pub seq: u32,
    pub ack: u32,
    pub flags: u8,
    pub payload: Seq<u8>,
}

impl<'a> View for FragRef<'a> {
    type V = FragModel;

    open spec fn view(&self) -> FragModel {
        FragModel {
            src: self.src,
            dst: self.dst,
            proto: self.proto,
            ident: self.ident,
            offset: self.offset_bytes as int,
            more: self.more_fragments,
            payload: self.payload@,
        }
    }
}

impl<'a> View for NetPacket<'a> {
    type V = PacketModel;

    open spec fn view(&self) -> PacketModel {
        match *self {
            NetPacket::Direct { src, dst, proto, payload } => PacketModel::Direct {
                src,
                dst,
                proto,
                payload: payload@,
            },
            NetPacket::Fragment(f) => PacketModel::Fragment(f@),
        }
    }
}

impl<'a> View for TcpSegment<'a> {
    type V = SegmentModel;

    open spec fn view(&self) -> SegmentModel {
        SegmentModel {
            src_port: self.src_port,
            dst_port: self.dst_port,
            seq: self.seq,
            ack: self.ack,
            flags: self.flags,
            payload: self.payload@,
        }
    }
}

/// A VLAN or QinQ tag.
pub open spec fn is_tag(ethertype: int) -> bool {
    ethertype == 0x8100 || ethertype == 0x88a8 || ethertype == 0x9100
}

/// The EtherType behind up to `tags` tags, and where the packet starts.
pub open spec fn untagged(data: Seq<u8>, ethertype: int, off: int, tags: int) -> Option<(int, int)>
    decreases tags,
{
    if tags <= 0 || !is_tag(ethertype) {
        Some((ethertype, off))
    } else if data.len() < off + 4 {
        None
    } else {
        untagged(data, be16(data, off + 2), off + 4, tags - 1)
    }
}

/// What an Ethernet frame with up to two tags carries.
pub open spec fn frame_packet(data: Seq<u8>) -> Option<PacketModel> {
    if data.len() < 14 {
        None
    } else {
        match untagged(data, be16(data, 12), 14, 2) {
            None => None,
            Some((et, off)) => if et == 0x0800 {
                ipv4_packet(data.skip(off))
            } else if et == 0x86dd {
                ipv6_packet(data.skip(off))
            } else {
                None
            },
        }
    }
}

/// What an IPv4 packet carries.
pub open spec fn ipv4_packet(b: Seq<u8>) -> Option<PacketModel> {
    let ihl = b[0] as int % 16 * 4;
    let total = be16(b, 2);
    let ff = be16(b, 6);
    if b.len() < 20 || b[0] as int / 16 != 4 || ihl < 20 || b.len() < ihl || total < ihl || b.len()
        < total {
        None
    } else if ff / 0x2000 % 2 == 1 || ff % 0x2000 > 0 {
        Some(
            PacketModel::Fragment(
                FragModel {
                    src: v4_at(b, 12),
                    dst: v4_at(b, 16),
                    proto: b[9],
                    ident: be16(b, 4) as u32,
                    offset: ff % 0x2000 * 8,
                    more: ff / 0x2000 % 2 == 1,
                    payload: b.subrange(ihl, total),
                },
            ),
        )
    } else {
        Some(
            PacketModel::Direct {
                src: v4_at(b, 12),
                dst: v4_at(b, 16),
                proto: b[9],
                payload: b.subrange(ihl, total),
            },
        )
    }
}

/// What the headers of an IPv6 packet from `off` on lead to.
pub open spec fn ipv6_rest(b: Seq<u8>, next: u8, off: int, end: int) -> Option<PacketModel>
    decreases end - off,
{
    if next == 0 || next == 43 || next == 60 {
        if end < off + 2 || end < off + (b[off + 1] + 1) * 8 {
            None
        } else {
            ipv6_rest(b, b[off], off + (b[off + 1] + 1) * 8, end)
        }
    } else if next == 44 {
        if end < off + 8 {
            None
        } else {
            Some(
                PacketModel::Fragment(
                    FragModel {
                        src: v6_at(b, 8),
                        dst: v6_at(b, 24),
                        proto: b[off],
                        ident: be32(b, off + 4) as u32,
                        offset: be16(b, off + 2) / 8 * 8,
                        more: be16(b, off + 2) % 2 == 1,
                        payload: b.subrange(off + 8, end),
                    },
                ),
            )
        }
    } else {
        Some(
            PacketModel::Direct {
                src: v6_at(b, 8),
                dst: v6_at(b, 24),
                proto: next,
                payload: b.subrange(off, end),
            },
        )
    }
}

/// What an IPv6 packet carries.
pub open spec fn ipv6_packet(b: Seq<u8>) -> Option<PacketModel> {
    if b.len() < 40 || b[0] as int / 16 != 6 || b.len() < 40 + be16(b, 4) {
        None
    } else {
        ipv6_rest(b, b[6], 40, 40 + be16(b, 4))
    }
}

/// The TCP segment in a transport layer payload.
pub open spec fn tcp_segment(b: Seq<u8>) -> Option<SegmentModel> {
    let data_off = b[12] as int / 16 * 4;
    if b.len() < 20 || data_off < 20 || b.len() < data_off {
        None
    } else {
        Some(
            SegmentModel {
                src_port: be16(b, 0) as u16,
                dst_port: be16(b, 2) as u16,
                seq: be32(b, 4) as u32,
                ack: be32(b, 8) as u32,
                flags: b[13],
                payload: b.skip(data_off),
            },
        )
    }
}

/// Views an Ethernet frame, with up to two VLAN tags, as an IP packet.
pub fn parse_frame(data: &[u8]) -> (r: Option<NetPacket<'_>>)
    ensures
        match r {
            Some(p) => frame_packet(data@) == Some(p@),
            None => frame_packet(data@) is None,
        },
        r matches Some(NetPacket::Fragment(f)) ==> f.offset_bytes <= 0xffff && f.payload@.len()
            <= 0xffff,
        r matches Some(NetPacket::Direct { payload, .. }) ==> payload@.len() <= 0xffff,
{
    if data.len() < 14 {
        return None;
    }
    let mut ethertype: u16 = read_be16(data, 12);
    let mut off: usize = 14;
    let mut tags: u8 = 2;
    while tags > 0 && (ethertype == 0x8100 || ethertype == 0x88a8 || ethertype == 0x9100)
        invariant
            tags <= 2,
            off == 14 + 4 * (2 - tags),
            14 <= off <= data@.len(),
            untagged(data@, be16(data@, 12), 14, 2) == untagged(
                data@,
                ethertype as int,
                off as int,
                tags as int,
            ),
            data@.len() >= 14,
        decreases tags,
    {
        if data.len() < off + 4 {
            return None;
        }
        ethertype = read_be16(data, off + 2);
        off = off + 4;
        tags = tags - 1;
    }
    let rest = slice_subrange(data, off, data.len());
    assert(rest@ =~= data@.skip(off as int));
    if ethertype == 0x0800 {
        parse_ipv4(rest)
    } else if ethertype == 0x86dd {
        parse_ipv6(rest)
    } else {
        None
    }
}

fn parse_ipv4(b: &[u8]) -> (r: Option<NetPacket<'_>>)
    ensures
        match r {
            Some(p) => ipv4_packet(b@) == Some(p@),
            None => ipv4_packet(b@) is None,
        },
        r matches Some(NetPacket::Fragment(f)) ==> f.offset_bytes <= 0xffff && f.payload@.len()
            <= 0xffff,
        r matches Some(NetPacket::Direct { payload, .. }) ==> payload@.len() <= 0xffff,
{
    if b.len() < 20 || b[0] / 16 != 4 {
        return None;
    }
    let ihl: usize = (b[0] % 16) as usize * 4;
    if ihl < 20 || b.len() < ihl {
        return None;
    }
    let total: usize = read_be16(b, 2) as usize;
    if total < ihl || b.len() < total {
        return None;
    }
    let ident: u32 = read_be16(b, 4) as u32;
    let ff: u16 = read_be16(b, 6);
    let more_fragments = ff / 0x2000 % 2 == 1;
    let offset_bytes: usize = (ff % 0x2000) as usize * 8;
    let proto: u8 = b[9];
    let src = read_v4(b, 12);
    let dst = read_v4(b, 16);
    let payload = slice_subrange(b, ihl, total);
    if more_fragments || offset_bytes > 0 {
        Some(
            NetPacket::Fragment(
                FragRef { src, dst, proto, ident, offset_bytes, more_fragments, payload },
            ),
        )
    } else {
        Some(NetPacket::Direct { src, dst, proto, payload })
    }
}

fn parse_ipv6(b: &[u8]) -> (r: Option<NetPacket<'_>>)
    ensures
        match r {
            Some(p) => ipv6_packet(b@) == Some(p@),
            None => ipv6_packet(b@) is None,
        },
        r matches Some(NetPacket::Fragment(f)) ==> f.offset_bytes <= 0xffff && f.payload@.len()
            <= 0xffff,
        r matches Some(NetPacket::Direct { payload, .. }) ==> payload@.len() <= 0xffff,
{
    if b.len() < 40 || b[0] / 16 != 6 {
        return None;
    }
    let payload_len: usize = read_be16(b, 4) as usize;
    if b.len() < 40 + payload_len {
        return None;
    }
    let mut next: u8 = b[6];
    let src = read_v6(b, 8);
    let dst = read_v6(b, 24);
    let mut off: usize = 40;
    let end: usize = 40 + payload_len;
    loop
        invariant
            40 <= off <= end <= b@.len(),
            end <= 40 + 0xffff,
            src == v6_at(b@, 8),
            dst == v6_at(b@, 24),
            ipv6_packet(b@) == ipv6_rest(b@, next, off as int, end as int),
        decreases end - off,
    {
        if next == 0 || next == 43 || next == 60 {
            if end < off + 2 {
                return None;
            }
            let hdr_len: usize = (b[off + 1] as usize + 1) * 8;
            if end < off + hdr_len {
                return None;
            }
            next = b[off];
            off = off + hdr_len;
        } else if next == 44 {
            if end < off + 8 {
                return None;
            }
            let ff: u16 = read_be16(b, off + 2);
            return Some(
                NetPacket::Fragment(
                    FragRef {
                        src,
                        dst,
                        proto: b[off],
                        ident: read_be32(b, off + 4),
                        offset_bytes: (ff / 8) as usize * 8,
                        more_fragments: ff % 2 == 1,
                        payload: slice_subrange(b, off + 8, end),
                    },
                ),
            );
        } else {
            return Some(
                NetPacket::Direct { src, dst, proto: next, payload: slice_subrange(b, off, end) },
            );
        }
    }
}

/// Views a transport layer payload as a TCP segment.
pub fn parse_tcp(b: &[u8]) -> (r: Option<TcpSegment<'_>>)
    ensures
        match r {
            Some(s) => tcp_segment(b@) == Some(s@),
            None => tcp_segment(b@) is None,
        },
{
    if b.len() < 20 {
        return None;
    }
    let data_off: usize = (b[12] / 16) as usize * 4;
    if data_off < 20 || b.len() < data_off {
        return None;
    }
    let payload = slice_subrange(b, data_off, b.len());
    assert(payload@ =~= b@.skip(data_off as int));
    Some(
        TcpSegment {
            src_port: read_be16(b, 0),
            dst_port: read_be16(b, 2),
            seq: read_be32(b, 4),
            ack: read_be32(b, 8),
            flags: b[13],
            payload,
        },
    )
}

/// The signed distance from `base` to `seq` in the 32-bit wrapping space.
pub open spec fn distance(seq: u32, base: u32) -> int {
    let d = (seq - base) % 0x1_0000_0000;
    if d < 0x8000_0000 {
        d
    } else {
        d - 0x1_0000_0000
    }
}

/// Whether `a` lies before `b` in the 32-bit wrapping space.
pub fn seq_lt(a: u32, b: u32) -> (r: bool)
    ensures
        r == (distance(a, b) < 0),
{
    a.wrapping_sub(b) >= 0x8000_0000
}

/// The signed distance from `base` to `seq`.
pub fn seq_offset(seq: u32, base: u32) -> (r: i64)
    ensures
        r == distance(seq, base),
        -0x8000_0000 <= r < 0x8000_0000,
{
    let d: u32 = seq.wrapping_sub(base);
    if d < 0x8000_0000 {
        d as i64
    } else {
        d as i64 - 0x1_0000_0000
    }
}

/// Distances are antisymmetric but for numbers exactly half the space apart.
pub proof fn law_distance_antisymmetric(a: u32, b: u32)
    ensures
        distance(a, b) == -distance(b, a) || (distance(a, b) == -0x8000_0000 && distance(b, a)
            == -0x8000_0000),
{
}

/// A number is its base moved by the distance.
pub proof fn law_distance_adds_up(seq: u32, base: u32)
    ensures
        (base + distance(seq, base)) % 0x1_0000_0000 == seq,
{
}

/// A VLAN tag put into an Ethernet frame with at most one tag changes nothing of what the
/// frame carries.
pub proof fn law_vlan_tag_is_transparent(data: Seq<u8>, put: Seq<u8>)
    requires
        data.len() >= 14,
        put.len() == 4,
        is_tag(be16(put, 0)),
        is_tag(be16(data, 12)) && data.len() >= 18 ==> !is_tag(be16(data, 16)),
    ensures
        frame_packet(data.take(12) + put + data.skip(12)) == frame_packet(data),
{
    let t = data.take(12) + put + data.skip(12);
    reveal_with_fuel(untagged, 4);
    assert(t[12] == put[0] && t[13] == put[1]);
    assert(be16(t, 12) == be16(put, 0));
    assert(t[16] == data[12] && t[17] == data[13]);
    assert(be16(t, 16) == be16(data, 12));
    assert(t.skip(18) =~= data.skip(14));
    if data.len() >= 18 {
        assert(t[20] == data[16] && t[21] == data[17]);
        assert(be16(t, 20) == be16(data, 16));
        assert(t.skip(22) =~= data.skip(18));
    }
}

} // verus!
