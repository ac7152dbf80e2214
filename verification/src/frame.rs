//! Link, IP and TCP parsing. Only TCP datagrams matter for sessions; everything
//! else is reported and ignored.

use vstd::prelude::*;
use vstd::slice::slice_subrange;
use crate::bytes::{be16, be32, copy_range, le32, read_be16, read_be32, read_le32};
use crate::text::{cat_dec, dec, hex4, push_hex4};
use crate::types::{Ip, LinkKind};
use crate::wire::{read_v4, read_v6, v4_at, v6_at};

verus! {

#[derive(Clone, Debug)]
pub struct TcpSegment {
    pub src_port: u16,
    pub dst_port: u16,
    pub seq: u32,
    pub ack: u32,
    pub flags: u8,
    pub window: u16,
    pub data_offset: u8,
    pub payload: Vec<u8>,
}

pub const TCP_FIN: u8 = 0x01;

pub const TCP_SYN: u8 = 0x02;

pub const TCP_RST: u8 = 0x04;

pub const TCP_PSH: u8 = 0x08;

pub const TCP_ACK: u8 = 0x10;

pub const TCP_URG: u8 = 0x20;

/// What a TCP segment is.
pub struct SegmentModel {
    pub src_port: u16,
    pub dst_port: u16,
    pub seq: u32,
    pub ack: u32,
    pub flags: u8,
    pub window: u16,
    pub data_offset: u8,
    pub payload: Seq<u8>,
}

impl View for TcpSegment {
    type V = SegmentModel;

    open spec fn view(&self) -> SegmentModel {
        SegmentModel {
            src_port: self.src_port,
            dst_port: self.dst_port,
            seq: self.seq,
            ack: self.ack,
            flags: self.flags,
            window: self.window,
            data_offset: self.data_offset,
            payload: self.payload@,
        }
    }
}

impl SegmentModel {
    pub open spec fn has_syn(self) -> bool {
        self.flags & TCP_SYN != 0
    }

    pub open spec fn has_fin(self) -> bool {
        self.flags & TCP_FIN != 0
    }

    pub open spec fn has_rst(self) -> bool {
        self.flags & TCP_RST != 0
    }

    pub open spec fn has_ack(self) -> bool {
        self.flags & TCP_ACK != 0
    }

    /// The sequence space that the segment takes up, SYN and FIN included.
    pub open spec fn space(self) -> int {
        self.payload.len() + (if self.has_syn() {
            1int
        } else {
            0
        }) + (if self.has_fin() {
            1int
        } else {
            0
        })
    }
}

impl TcpSegment {
    pub fn syn(&self) -> (r: bool)
        ensures
            r == self@.has_syn(),
    {
        self.flags & TCP_SYN != 0
    }

    pub fn fin(&self) -> (r: bool)
        ensures
            r == self@.has_fin(),
    {
        self.flags & TCP_FIN != 0
    }

    pub fn rst(&self) -> (r: bool)
        ensures
            r == self@.has_rst(),
    {
        self.flags & TCP_RST != 0
    }

    pub fn ack_flag(&self) -> (r: bool)
        ensures
            r == self@.has_ack(),
    {
        self.flags & TCP_ACK != 0
    }

    /// The sequence space that the segment takes up, SYN and FIN included.
    pub fn seq_len(&self) -> (r: u32)
        requires
            self@.space() <= u32::MAX,
        ensures
            r == self@.space(),
    {
        let mut n: u32 = self.payload.len() as u32;
        if self.syn() {
            n = n + 1;
        }
        if self.fin() {
            n = n + 1;
        }
        n
    }
}

/// A whole IP datagram.
#[derive(Clone, Debug)]
pub struct IpInfo {
    pub src: Ip,
    pub dst: Ip,
    pub protocol: u8,
    /// 0, as the datagram came in one piece.
    pub frag_id: u32,
    pub payload: Vec<u8>,
}

/// A frame carries a whole IP datagram or one fragment.
#[derive(Clone, Debug)]
pub enum IpFrame {
    Complete(IpInfo),
    Fragment {
        src: Ip,
        dst: Ip,
        protocol: u8,
        frag_id: u32,
        offset: usize,
        more: bool,
        data: Vec<u8>,
    },
}

#[derive(Clone, Debug)]
pub enum ParsedKind {
    Ip(IpFrame),
    NonTcp(String),
    Ignored(String),
}

#[derive(Clone, Debug)]
pub struct ParsedFrame {
    pub kind: ParsedKind,
}

/// What a frame turned out to be.
pub enum ParsedModel {
    Complete { src: Ip, dst: Ip, protocol: u8, payload: Seq<u8> },
    Fragment {
        src: Ip,
        dst: Ip,
        protocol: u8,
        frag_id: u32,
        offset: int,
        more: bool,
        data: Seq<u8>,
    },
    Ignored(Seq<char>),
}

impl ParsedFrame {
    /// The frame is the modelled one.
    pub open spec fn is(self, m: ParsedModel) -> bool {
        match (self.kind, m) {
            (
                ParsedKind::Ip(IpFrame::Complete(i)),
                ParsedModel::Complete { src, dst, protocol, payload },
            ) => {
                &&& i.src == src
                &&& i.dst == dst
                &&& i.protocol == protocol
                &&& i.frag_id == 0
                &&& i.payload@ == payload
            },
            (
                ParsedKind::Ip(
                    IpFrame::Fragment { src, dst, protocol, frag_id, offset, more, data },
                ),
                ParsedModel::Fragment {
                    src: s,
                    dst: d,
                    protocol: p,
                    frag_id: i,
                    offset: o,
                    more: m,
                    data: b,
                },
            ) => {
                &&& src == s
                &&& dst == d
                &&& protocol == p
                &&& frag_id == i
                &&& offset == o
                &&& more == m
                &&& data@ == b
            },
            (ParsedKind::Ignored(t), ParsedModel::Ignored(s)) => t@ == s,
            _ => false,
        }
    }
}

/// A VLAN or QinQ tag.
pub open spec fn is_tag(ethertype: int) -> bool {
    ethertype == 0x8100 || ethertype == 0x88a8 || ethertype == 0x9100
}

/// The EtherType behind any tags, and where the packet starts.
pub open spec fn untagged(data: Seq<u8>, ethertype: int, off: int) -> Result<(int, int), Seq<char>>
    decreases data.len() - off,
{
    if !is_tag(ethertype) {
        Ok((ethertype, off))
    } else if data.len() - off < 4 {
        Err("truncated VLAN tag"@)
    } else {
        untagged(data, be16(data, off + 2), off + 4)
    }
}

/// The EtherType of a frame and where its packet starts.
pub open spec fn link_payload(frame: Seq<u8>, link: LinkKind) -> Result<(int, int), Seq<char>> {
    match link {
        LinkKind::Ethernet => if frame.len() < 14 {
            Err("ethernet frame too short"@)
        } else {
            untagged(frame, be16(frame, 12), 14)
        },
        LinkKind::Ipv4Raw => Ok((0x0800, 0)),
        LinkKind::Ipv6Raw => Ok((0x86dd, 0)),
        LinkKind::Null => if frame.len() < 4 {
            Err("null loopback frame too short"@)
        } else if le32(frame, 0) == 2 || be32(frame, 0) == 2 {
            Ok((0x0800, 4))
        } else if le32(frame, 0) == 30 || be32(frame, 0) == 30 || le32(frame, 0) == 28 || be32(
            frame,
            0,
        ) == 28 {
            Ok((0x86dd, 4))
        } else {
            Err("unsupported null loopback address family"@)
        },
        LinkKind::LinuxSll => if frame.len() < 16 {
            Err("linux cooked frame too short"@)
        } else {
            Ok((be16(frame, 14), 16))
        },
        LinkKind::Raw => if frame.len() > 0 && frame[0] as int / 16 == 6 {
            Ok((0x86dd, 0))
        } else {
            Ok((0x0800, 0))
        },
    }
}

/// Where an IPv4 packet ends: at its total length where that is given and fits.
pub open spec fn ipv4_end(b: Seq<u8>) -> int {
    let total = be16(b, 2);
    if total != 0 && total <= b.len() {
        total
    } else {
        b.len() as int
    }
}

/// What an IPv4 packet turns out to be.
pub open spec fn ipv4_parsed(b: Seq<u8>) -> Result<ParsedModel, Seq<char>> {
    let header = b[0] as int % 16 * 4;
    let ff = be16(b, 6);
    if b.len() < 20 {
        Err("IPv4 header too short"@)
    } else if b[0] as int / 16 != 4 {
        Err("IPv4 version field is "@ + dec((b[0] as int / 16) as nat))
    } else if header < 20 {
        Err("IPv4 IHL too small"@)
    } else if b.len() < header {
        Err("IPv4 packet shorter than IHL"@)
    } else if ff % 0x2000 == 0 && ff / 0x2000 % 2 == 0 {
        Ok(
            ParsedModel::Complete {
                src: v4_at(b, 12),
                dst: v4_at(b, 16),
                protocol: b[9],
                payload: b.subrange(header, ipv4_end(b)),
            },
        )
    } else {
        Ok(
            ParsedModel::Fragment {
                src: v4_at(b, 12),
                dst: v4_at(b, 16),
                protocol: b[9],
                frag_id: be16(b, 4) as u32,
                offset: ff % 0x2000 * 8,
                more: ff / 0x2000 % 2 == 1,
                data: b.subrange(header, ipv4_end(b)),
            },
        )
    }
}

/// An IPv4 packet whose total length, where it is used, is at least its header.
pub open spec fn ipv4_readable(b: Seq<u8>) -> bool {
    b.len() >= 20 && b.len() >= b[0] as int % 16 * 4 ==> b[0] as int % 16 * 4 <= ipv4_end(b)
}

/// A header that is followed by another one.
pub open spec fn is_ext(nh: u8) -> bool {
    nh == 0 || nh == 43 || nh == 44 || nh == 60 || nh == 135 || nh == 139 || nh == 140 || nh == 41
}

/// What the headers of an IPv6 packet from `cursor` on lead to.
pub open spec fn ipv6_rest(b: Seq<u8>, next: u8, cursor: int, end: int) -> Result<
    ParsedModel,
    Seq<char>,
>
    decreases end - cursor,
{
    if !is_ext(next) {
        Ok(
            ParsedModel::Complete {
                src: v6_at(b, 8),
                dst: v6_at(b, 24),
                protocol: next,
                payload: b.subrange(cursor, end),
            },
        )
    } else if next == 44 {
        if cursor + 8 > end {
            Err("truncated IPv6 fragment header"@)
        } else {
            Ok(
                ParsedModel::Fragment {
                    src: v6_at(b, 8),
                    dst: v6_at(b, 24),
                    protocol: b[cursor],
                    frag_id: be32(b, cursor + 4) as u32,
                    offset: be16(b, cursor + 2) / 8 * 8,
                    more: be16(b, cursor + 2) % 2 == 1,
                    data: b.subrange(cursor + 8, end),
                },
            )
        }
    } else if cursor + 2 > end {
        Err("truncated IPv6 extension header"@)
    } else if cursor + (b[cursor + 1] + 1) * 8 > end {
        Err("invalid IPv6 extension header length"@)
    } else {
        ipv6_rest(b, b[cursor], cursor + (b[cursor + 1] + 1) * 8, end)
    }
}

/// What an IPv6 packet turns out to be.
pub open spec fn ipv6_parsed(b: Seq<u8>) -> Result<ParsedModel, Seq<char>> {
    if b.len() < 40 {
        Err("IPv6 header too short"@)
    } else if b[0] as int / 16 != 6 {
        Err("IPv6 version field is "@ + dec((b[0] as int / 16) as nat))
    } else {
        let end = if 40 + be16(b, 4) <= b.len() {
            40 + be16(b, 4)
        } else {
            b.len() as int
        };
        ipv6_rest(b, b[6], 40, end)
    }
}

/// What a frame turns out to be.
pub open spec fn frame_parsed(frame: Seq<u8>, link: LinkKind) -> Result<ParsedModel, Seq<char>> {
    match link_payload(frame, link) {
        Err(e) => Err(e),
        Ok((et, at)) => if et == 0x0800 {
            ipv4_parsed(frame.skip(at))
        } else if et == 0x86dd {
            ipv6_parsed(frame.skip(at))
        } else {
            Ok(ParsedModel::Ignored("non-IP ethertype 0x"@ + hex4(et)))
        },
    }
}

/// A frame whose IPv4 packet, if it has one, can be read.
pub open spec fn frame_readable(frame: Seq<u8>, link: LinkKind) -> bool {
    link_payload(frame, link) matches Ok((et, at)) ==> et == 0x0800 ==> ipv4_readable(frame.skip(at))
}

fn parse_ethernet(frame: &[u8]) -> (r: Result<(u16, usize), String>)
    ensures
        match r {
            Ok((et, at)) => link_payload(frame@, LinkKind::Ethernet) == Ok::<(int, int), Seq<char>>(
                (et as int, at as int),
            ) && at <= frame@.len(),
            Err(e) => link_payload(frame@, LinkKind::Ethernet) == Err::<(int, int), Seq<char>>(e@),
        },
{
    if frame.len() < 14 {
        return Err("ethernet frame too short".to_string());
    }
    let mut et: u16 = read_be16(frame, 12);
    let mut at: usize = 14;
    while et == 0x8100 || et == 0x88a8 || et == 0x9100
        invariant
            14 <= at <= frame@.len(),
            link_payload(frame@, LinkKind::Ethernet) == untagged(frame@, et as int, at as int),
        decreases frame@.len() - at,
    {
        if frame.len() - at < 4 {
            return Err("truncated VLAN tag".to_string());
        }
        et = read_be16(frame, at + 2);
        at = at + 4;
    }
    Ok((et, at))
}

fn parse_null(frame: &[u8]) -> (r: Result<(u16, usize), String>)
    ensures
        match r {
            Ok((et, at)) => link_payload(frame@, LinkKind::Null) == Ok::<(int, int), Seq<char>>(
                (et as int, at as int),
            ) && at <= frame@.len(),
            Err(e) => link_payload(frame@, LinkKind::Null) == Err::<(int, int), Seq<char>>(e@),
        },
{
    if frame.len() < 4 {
        return Err("null loopback frame too short".to_string());
    }
    let le: u32 = read_le32(frame, 0);
    let be: u32 = read_be32(frame, 0);
    if le == 2 || be == 2 {
        Ok((0x0800, 4))
    } else if le == 30 || be == 30 || le == 28 || be == 28 {
        Ok((0x86dd, 4))
    } else {
        Err("unsupported null loopback address family".to_string())
    }
}

fn parse_linux_sll(frame: &[u8]) -> (r: Result<(u16, usize), String>)
    ensures
        match r {
            Ok((et, at)) => link_payload(frame@, LinkKind::LinuxSll) == Ok::<(int, int), Seq<char>>(
                (et as int, at as int),
            ) && at <= frame@.len(),
            Err(e) => link_payload(frame@, LinkKind::LinuxSll) == Err::<(int, int), Seq<char>>(e@),
        },
{
    if frame.len() < 16 {
        return Err("linux cooked frame too short".to_string());
    }
    Ok((read_be16(frame, 14), 16))
}

fn strip(frame: &[u8], link: LinkKind) -> (r: Result<(u16, usize), String>)
    ensures
        match r {
            Ok((et, at)) => link_payload(frame@, link) == Ok::<(int, int), Seq<char>>(
                (et as int, at as int),
            ) && at <= frame@.len(),
            Err(e) => link_payload(frame@, link) == Err::<(int, int), Seq<char>>(e@),
        },
{
    match link {
        LinkKind::Ethernet => parse_ethernet(frame),
        LinkKind::Ipv4Raw => Ok((0x0800, 0)),
        LinkKind::Ipv6Raw => Ok((0x86dd, 0)),
        LinkKind::Null => parse_null(frame),
        LinkKind::LinuxSll => parse_linux_sll(frame),
        LinkKind::Raw => if frame.len() > 0 && frame[0] / 16 == 6 {
            Ok((0x86dd, 0))
        } else {
            Ok((0x0800, 0))
        },
    }
}

fn has_readable_ipv4(b: &[u8]) -> (r: bool)
    ensures
        r == ipv4_readable(b@),
{
    if b.len() < 20 {
        return true;
    }
    let header: usize = (b[0] % 16) as usize * 4;
    if b.len() < header {
        return true;
    }
    let total: usize = read_be16(b, 2) as usize;
    if total != 0 && total <= b.len() {
        header <= total
    } else {
        true
    }
}

/// Parses a frame of the given link kind. Nothing comes back where the total length of an
/// IPv4 packet is less than its header.
pub fn try_parse_frame(frame: &[u8], link: LinkKind) -> (r: Option<Result<ParsedFrame, String>>)
    ensures
        match r {
            Some(Ok(p)) => frame_readable(frame@, link) && frame_parsed(frame@, link) is Ok && p.is(
                frame_parsed(frame@, link)->Ok_0,
            ),
            Some(Err(e)) => frame_readable(frame@, link) && frame_parsed(frame@, link) == Err::<
                ParsedModel,
                Seq<char>,
            >(e@),
            None => !frame_readable(frame@, link),
        },
{
    if let Ok((et, at)) = strip(frame, link) {
        let rest = slice_subrange(frame, at, frame.len());
        assert(rest@ =~= frame@.skip(at as int));
        if et == 0x0800 && !has_readable_ipv4(rest) {
            return None;
        }
    }
    Some(parse_frame(frame, link))
}

proof fn lemma_untagged_shift(frame: Seq<u8>, put: Seq<u8>, et: int, off: int)
    requires
        put.len() == 4,
        14 <= off <= frame.len(),
    ensures
        untagged(frame.take(12) + put + frame.skip(12), et, off + 4) == (match untagged(
            frame,
            et,
            off,
        ) {
            Ok((e, at)) => Ok::<(int, int), Seq<char>>((e, at + 4)),
            Err(e) => Err(e),
        }),
        untagged(frame, et, off) matches Ok((e, at)) ==> 14 <= at <= frame.len(),
    decreases frame.len() - off,
{
    let t = frame.take(12) + put + frame.skip(12);
    if is_tag(et) && frame.len() - off >= 4 {
        assert(t[off + 6] == frame[off + 2]);
        assert(t[off + 7] == frame[off + 3]);
        assert(be16(t, off + 6) == be16(frame, off + 2));
        lemma_untagged_shift(frame, put, be16(frame, off + 2), off + 4);
    }
}

/// A VLAN tag put into an Ethernet frame changes nothing of what the frame is parsed as,
/// however many tags there are.
pub proof fn law_vlan_tag_is_transparent(frame: Seq<u8>, put: Seq<u8>)
    requires
        frame.len() >= 14,
        put.len() == 4,
        is_tag(be16(put, 0)),
    ensures
        ({
            let tagged = frame.take(12) + put + frame.skip(12);
            &&& frame_parsed(tagged, LinkKind::Ethernet) == frame_parsed(frame, LinkKind::Ethernet)
            &&& frame_readable(tagged, LinkKind::Ethernet) == frame_readable(
                frame,
                LinkKind::Ethernet,
            )
        }),
{
    let t = frame.take(12) + put + frame.skip(12);
    assert(t[12] == put[0] && t[13] == put[1]);
    assert(be16(t, 12) == be16(put, 0));
    assert(t[16] == frame[12] && t[17] == frame[13]);
    assert(be16(t, 16) == be16(frame, 12));
    lemma_untagged_shift(frame, put, be16(frame, 12), 14);
    if let Ok((_, at)) = link_payload(frame, LinkKind::Ethernet) {
        assert(t.skip(at + 4) =~= frame.skip(at));
    }
}

/// Parses a frame of the given link kind.
pub fn parse_frame(frame: &[u8], link: LinkKind) -> (r: Result<ParsedFrame, String>)
    requires
        frame_readable(frame@, link),
    ensures
        match r {
            Ok(p) => frame_parsed(frame@, link) is Ok && p.is(frame_parsed(frame@, link)->Ok_0),
            Err(e) => frame_parsed(frame@, link) == Err::<ParsedModel, Seq<char>>(e@),
        },
{
    match strip(frame, link) {
        Err(e) => Err(e),
        Ok((et, at)) => {
            let rest = slice_subrange(frame, at, frame.len());
            assert(rest@ =~= frame@.skip(at as int));
            parse_ip(et, rest)
        },
    }
}

fn parse_ip(ethertype: u16, bytes: &[u8]) -> (r: Result<ParsedFrame, String>)
    requires
        ethertype == 0x0800 ==> ipv4_readable(bytes@),
    ensures
        ({
            let want = if ethertype == 0x0800 {
                ipv4_parsed(bytes@)
            } else if ethertype == 0x86dd {
                ipv6_parsed(bytes@)
            } else {
                Ok(ParsedModel::Ignored("non-IP ethertype 0x"@ + hex4(ethertype as int)))
            };
            match r {
                Ok(p) => want is Ok && p.is(want->Ok_0),
                Err(e) => want == Err::<ParsedModel, Seq<char>>(e@),
            }
        }),
{
    if ethertype == 0x0800 {
        parse_ipv4(bytes)
    } else if ethertype == 0x86dd {
        parse_ipv6(bytes)
    } else {
        let mut t = "non-IP ethertype 0x".to_string();
        push_hex4(&mut t, ethertype);
        Ok(ParsedFrame { kind: ParsedKind::Ignored(t) })
    }
}

fn parse_ipv4(bytes: &[u8]) -> (r: Result<ParsedFrame, String>)
    requires
        ipv4_readable(bytes@),
    ensures
        match r {
            Ok(p) => ipv4_parsed(bytes@) is Ok && p.is(ipv4_parsed(bytes@)->Ok_0),
            Err(e) => ipv4_parsed(bytes@) == Err::<ParsedModel, Seq<char>>(e@),
        },
{
    if bytes.len() < 20 {
        return Err("IPv4 header too short".to_string());
    }
    let version: u8 = bytes[0] / 16;
    if version != 4 {
        return Err(cat_dec("IPv4 version field is ", version as u64));
    }
    let header: usize = (bytes[0] % 16) as usize * 4;
    if header < 20 {
        return Err("IPv4 IHL too small".to_string());
    }
    if bytes.len() < header {
        return Err("IPv4 packet shorter than IHL".to_string());
    }
    let total: usize = read_be16(bytes, 2) as usize;
    let ident: u16 = read_be16(bytes, 4);
    let ff: u16 = read_be16(bytes, 6);
    let more = ff / 0x2000 % 2 == 1;
    let offset: usize = (ff % 0x2000) as usize * 8;
    let protocol: u8 = bytes[9];
    let src = read_v4(bytes, 12);
    let dst = read_v4(bytes, 16);
    let end: usize = if total != 0 && total <= bytes.len() {
        total
    } else {
        bytes.len()
    };
    let l4 = copy_range(bytes, header, end);
    if offset == 0 && !more {
        Ok(
            ParsedFrame {
                kind: ParsedKind::Ip(
                    IpFrame::Complete(IpInfo { src, dst, protocol, frag_id: 0, payload: l4 }),
                ),
            },
        )
    } else {
        Ok(
            ParsedFrame {
                kind: ParsedKind::Ip(
                    IpFrame::Fragment {
                        src,
                        dst,
                        protocol,
                        frag_id: ident as u32,
                        offset,
                        more,
                        data: l4,
                    },
                ),
            },
        )
    }
}

fn is_v6_extension(nh: u8) -> (r: bool)
    ensures
        r == is_ext(nh),
{
    nh == 0 || nh == 43 || nh == 44 || nh == 60 || nh == 135 || nh == 139 || nh == 140 || nh == 41
}

fn parse_ipv6(bytes: &[u8]) -> (r: Result<ParsedFrame, String>)
    ensures
        match r {
            Ok(p) => ipv6_parsed(bytes@) is Ok && p.is(ipv6_parsed(bytes@)->Ok_0),
            Err(e) => ipv6_parsed(bytes@) == Err::<ParsedModel, Seq<char>>(e@),
        },
{
    if bytes.len() < 40 {
        return Err("IPv6 header too short".to_string());
    }
    let version: u8 = bytes[0] / 16;
    if version != 6 {
        return Err(cat_dec("IPv6 version field is ", version as u64));
    }
    let payload_len: usize = read_be16(bytes, 4) as usize;
    let mut next: u8 = bytes[6];
    let src = read_v6(bytes, 8);
    let dst = read_v6(bytes, 24);
    let end: usize = if 40 + payload_len <= bytes.len() {
        40 + payload_len
    } else {
        bytes.len()
    };
    let mut cursor: usize = 40;
    while is_v6_extension(next)
        invariant
            40 <= cursor <= end <= bytes@.len(),
            end <= 40 + 0xffff,
            src == v6_at(bytes@, 8),
            dst == v6_at(bytes@, 24),
            ipv6_parsed(bytes@) == ipv6_rest(bytes@, next, cursor as int, end as int),
        decreases end - cursor,
    {
        if next == 44 {
            if cursor + 8 > end {
                return Err("truncated IPv6 fragment header".to_string());
            }
            let ff: u16 = read_be16(bytes, cursor + 2);
            return Ok(
                ParsedFrame {
                    kind: ParsedKind::Ip(
                        IpFrame::Fragment {
                            src,
                            dst,
                            protocol: bytes[cursor],
                            frag_id: read_be32(bytes, cursor + 4),
                            offset: (ff / 8) as usize * 8,
                            more: ff % 2 == 1,
                            data: copy_range(bytes, cursor + 8, end),
                        },
                    ),
                },
            );
        }
        if cursor + 2 > end {
            return Err("truncated IPv6 extension header".to_string());
        }
        let hdr_len: usize = (bytes[cursor + 1] as usize + 1) * 8;
        if cursor + hdr_len > end {
            return Err("invalid IPv6 extension header length".to_string());
        }
        next = bytes[cursor];
        cursor = cursor + hdr_len;
    }
    Ok(
        ParsedFrame {
            kind: ParsedKind::Ip(
                IpFrame::Complete(
                    IpInfo {
                        src,
                        dst,
                        protocol: next,
                        frag_id: 0,
                        payload: copy_range(bytes, cursor, end),
                    },
                ),
            ),
        },
    )
}

/// The TCP segment in a transport layer payload.
pub open spec fn tcp_parsed(b: Seq<u8>) -> Result<SegmentModel, Seq<char>> {
    let at = b[12] as int / 16 * 4;
    if b.len() < 20 {
        Err("TCP header too short"@)
    } else if at < 20 || at > b.len() {
        Err("invalid TCP data offset"@)
    } else {
        Ok(
            SegmentModel {
                src_port: be16(b, 0) as u16,
                dst_port: be16(b, 2) as u16,
                seq: be32(b, 4) as u32,
                ack: be32(b, 8) as u32,
                flags: (b[13] as int % 64) as u8,
                window: be16(b, 14) as u16,
                data_offset: at as u8,
                payload: b.skip(at),
            },
        )
    }
}

pub fn parse_tcp(data: &[u8]) -> (r: Result<TcpSegment, String>)
    ensures
        match r {
            Ok(s) => tcp_parsed(data@) == Ok::<SegmentModel, Seq<char>>(s@),
            Err(e) => tcp_parsed(data@) == Err::<SegmentModel, Seq<char>>(e@),
        },
{
    if data.len() < 20 {
        return Err("TCP header too short".to_string());
    }
    let at: u8 = data[12] / 16 * 4;
    if at < 20 || at as usize > data.len() {
        return Err("invalid TCP data offset".to_string());
    }
    let payload = copy_range(data, at as usize, data.len());
    assert(payload@ =~= data@.skip(at as int));
    Ok(
        TcpSegment {
            src_port: read_be16(data, 0),
            dst_port: read_be16(data, 2),
            seq: read_be32(data, 4),
            ack: read_be32(data, 8),
            flags: data[13] % 64,
            window: read_be16(data, 14),
            data_offset: at,
            payload,
        },
    )
}

} // verus!
