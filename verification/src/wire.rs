//! Link layer, IPv4, IPv6 and TCP metadata of a single frame. A frame yields a
//! fragment for [`crate::frag`], a complete datagram, or nothing of interest.

use vstd::prelude::*;
use crate::bytes::{be16, be32, copy_range, read_be16, read_be32};
use crate::checksum::{complement, fold, folded, law_short_sums_fit, ones_complement, raw_sum16, word_sum};
use crate::text::{cat_dec, dec, hex4, push_hex4};
use crate::types::Ip;

verus! {

pub const IPPROTO_TCP: u8 = 6;

pub const IPPROTO_IPV6: u8 = 41;

pub const IP_PROTO_FRAGMENT: u8 = 44;

/// pcap link type: Ethernet.
pub const LINK_ETHERNET: u32 = 1;

/// pcap link type: IPv4 or IPv6 without a link header.
pub const LINK_RAW: u32 = 101;

/// pcap link type: Linux cooked capture, version 1.
pub const LINK_LINUX_SLL: u32 = 113;

#[derive(Debug, Clone, Copy, PartialEq, Eq, Structural)]
pub enum IpVersion {
    V4,
    V6,
}

#[derive(Debug, Clone, Copy)]
pub struct IpMeta {
    pub version: IpVersion,
    pub src: Ip,
    pub dst: Ip,
    pub protocol: u8,
    pub id: u32,
    pub fragment: FragInfo,
    /// Whether the IPv4 header checksum holds (IPv6 has none).
    pub header_checksum_ok: bool,
}

#[derive(Debug, Clone, Copy, PartialEq, Eq, Structural)]
pub struct FragInfo {
    pub more_fragments: bool,
    /// Fragment offset in bytes.
    pub offset: u16,
}

impl Default for FragInfo {
    fn default() -> (r: Self)
        ensures
            r == (FragInfo { more_fragments: false, offset: 0 }),
    {
        FragInfo { more_fragments: false, offset: 0 }
    }
}

impl FragInfo {
    /// Part of a fragmented datagram.
    pub open spec fn fragmented(self) -> bool {
        self.more_fragments || self.offset != 0
    }

    pub fn is_fragment(&self) -> (r: bool)
        ensures
            r == self.fragmented(),
    {
        self.more_fragments || self.offset != 0
    }
}

#[derive(Debug, Clone, Copy, PartialEq, Eq, Structural)]
pub struct TcpFlags {
    pub syn: bool,
    pub ack: bool,
    pub fin: bool,
    pub rst: bool,
    pub psh: bool,
}

impl Default for TcpFlags {
    fn default() -> (r: Self)
        ensures
            r == (TcpFlags { syn: false, ack: false, fin: false, rst: false, psh: false }),
    {
        TcpFlags { syn: false, ack: false, fin: false, rst: false, psh: false }
    }
}

impl TcpFlags {
    /// The flags of a flag byte.
    pub open spec fn of_byte(b: u8) -> TcpFlags {
        TcpFlags {
            syn: b & 0x02 != 0,
            ack: b & 0x10 != 0,
            fin: b & 0x01 != 0,
            rst: b & 0x04 != 0,
            psh: b & 0x08 != 0,
        }
    }

    pub fn from_byte(b: u8) -> (r: TcpFlags)
        ensures
            r == Self::of_byte(b),
    {
        TcpFlags {
            syn: b & 0x02 != 0,
            ack: b & 0x10 != 0,
            fin: b & 0x01 != 0,
            rst: b & 0x04 != 0,
            psh: b & 0x08 != 0,
        }
    }
}

#[derive(Debug, Clone, Copy)]
pub struct TcpMeta {
    pub src_port: u16,
    pub dst_port: u16,
    pub seq: u32,
    pub ack: u32,
    pub data_offset: u8,
    pub flags: TcpFlags,
    pub window: u16,
    pub checksum_ok: bool,
}

#[derive(Debug, Clone)]
pub struct CompleteDatagram {
    pub ip: IpMeta,
    pub tcp: Option<TcpMeta>,
    /// The data of the TCP segment.
    pub payload: Vec<u8>,
}

#[derive(Debug, Clone)]
pub struct FragmentPiece {
    pub ip: IpMeta,
    pub data: Vec<u8>,
}

#[derive(Debug, Clone)]
pub enum FrameOutcome {
    /// Neither a fragment nor TCP.
    Ignored,
    /// The frame carries a whole datagram.
    Complete(CompleteDatagram),
    /// One fragment of a datagram.
    Fragment(FragmentPiece),
}

#[derive(Debug, Clone)]
pub struct ParseNote {
    pub frame_index: usize,
    pub kind: String,
    pub detail: String,
}

/// What a frame yields.
pub enum FrameModel {
    Ignored,
    Complete { ip: IpMeta, tcp: Option<TcpMeta>, payload: Seq<u8> },
    Fragment { ip: IpMeta, data: Seq<u8> },
}

impl View for FrameOutcome {
    type V = FrameModel;

    open spec fn view(&self) -> FrameModel {
        match *self {
            FrameOutcome::Ignored => FrameModel::Ignored,
            FrameOutcome::Complete(d) => FrameModel::Complete {
                ip: d.ip,
                tcp: d.tcp,
                payload: d.payload@,
            },
            FrameOutcome::Fragment(p) => FrameModel::Fragment { ip: p.ip, data: p.data@ },
        }
    }
}

/// Where the IP packet starts in a frame, and its version.
pub open spec fn ip_start(frame: Seq<u8>, link: u32) -> Result<(int, IpVersion), Seq<char>> {
    if link == LINK_ETHERNET {
        if frame.len() < 14 {
            Err("ethernet: 帧短于 14 字节"@)
        } else if be16(frame, 12) == 0x8100 {
            if frame.len() < 18 {
                Err("vlan: 帧被截断"@)
            } else if be16(frame, 16) == 0x8100 {
                if frame.len() < 22 {
                    Err("vlan: QinQ 帧被截断"@)
                } else {
                    by_ethertype(be16(frame, 20), 22, "ethernet: 非 IP 以太类型 0x"@)
                }
            } else {
                by_ethertype(be16(frame, 16), 18, "ethernet: 非 IP 以太类型 0x"@)
            }
        } else {
            by_ethertype(be16(frame, 12), 14, "ethernet: 非 IP 以太类型 0x"@)
        }
    } else if link == LINK_RAW {
        if frame.len() == 0 {
            Err("raw: 空帧"@)
        } else if frame[0] as int / 16 == 4 {
            Ok((0, IpVersion::V4))
        } else if frame[0] as int / 16 == 6 {
            Ok((0, IpVersion::V6))
        } else {
            Err("raw: 未知 IP 版本 "@ + dec((frame[0] as int / 16) as nat))
        }
    } else if link == LINK_LINUX_SLL {
        if frame.len() < 16 {
            Err("sll: 帧短于 16 字节"@)
        } else {
            by_ethertype(be16(frame, 14), 16, "sll: 非 IP 以太类型 0x"@)
        }
    } else {
        Err("link: 不支持的 pcap 链路类型 "@ + dec(link as nat))
    }
}

/// The IP version of an EtherType, with the packet at `at`.
pub open spec fn by_ethertype(et: int, at: int, what: Seq<char>) -> Result<
    (int, IpVersion),
    Seq<char>,
> {
    if et == 0x0800 {
        Ok((at, IpVersion::V4))
    } else if et == 0x86dd {
        Ok((at, IpVersion::V6))
    } else {
        Err(what + hex4(et))
    }
}

fn pick(et: u16, at: usize, what: &str) -> (r: Result<(usize, IpVersion), String>)
    ensures
        match r {
            Ok((a, v)) => by_ethertype(et as int, at as int, what@) == Ok::<
                (int, IpVersion),
                Seq<char>,
            >((a as int, v)) && a == at,
            Err(e) => by_ethertype(et as int, at as int, what@) == Err::<
                (int, IpVersion),
                Seq<char>,
            >(e@),
        },
{
    if et == 0x0800 {
        Ok((at, IpVersion::V4))
    } else if et == 0x86dd {
        Ok((at, IpVersion::V6))
    } else {
        let mut e = what.to_string();
        push_hex4(&mut e, et);
        Err(e)
    }
}

/// Finds the IP packet in a frame.
fn strip_link(frame: &[u8], link: u32) -> (r: Result<(usize, IpVersion), String>)
    ensures
        match r {
            Ok((a, v)) => ip_start(frame@, link) == Ok::<(int, IpVersion), Seq<char>>((a as int, v))
                && a <= frame@.len(),
            Err(e) => ip_start(frame@, link) == Err::<(int, IpVersion), Seq<char>>(e@),
        },
{
    if link == LINK_ETHERNET {
        if frame.len() < 14 {
            return Err("ethernet: 帧短于 14 字节".to_string());
        }
        let et: u16 = read_be16(frame, 12);
        if et == 0x8100 {
            if frame.len() < 18 {
                return Err("vlan: 帧被截断".to_string());
            }
            let inner: u16 = read_be16(frame, 16);
            if inner == 0x8100 {
                if frame.len() < 22 {
                    return Err("vlan: QinQ 帧被截断".to_string());
                }
                return pick(read_be16(frame, 20), 22, "ethernet: 非 IP 以太类型 0x");
            }
            return pick(inner, 18, "ethernet: 非 IP 以太类型 0x");
        }
        pick(et, 14, "ethernet: 非 IP 以太类型 0x")
    } else if link == LINK_RAW {
        if frame.len() == 0 {
            return Err("raw: 空帧".to_string());
        }
        let v: u8 = frame[0] / 16;
        if v == 4 {
            Ok((0, IpVersion::V4))
        } else if v == 6 {
            Ok((0, IpVersion::V6))
        } else {
            Err(cat_dec("raw: 未知 IP 版本 ", v as u64))
        }
    } else if link == LINK_LINUX_SLL {
        if frame.len() < 16 {
            return Err("sll: 帧短于 16 字节".to_string());
        }
        pick(read_be16(frame, 14), 16, "sll: 非 IP 以太类型 0x")
    } else {
        Err(cat_dec("link: 不支持的 pcap 链路类型 ", link as u64))
    }
}

/// The sum of the pseudo header words of a TCP segment of `len` bytes; none
/// where the addresses are of different versions.
pub open spec fn pseudo_sum(src: Ip, dst: Ip, len: int) -> int {
    match (src, dst) {
        (Ip::V4(s), Ip::V4(d)) => word_sum(s@) + word_sum(d@) + IPPROTO_TCP + len % 0x1_0000,
        (Ip::V6(s), Ip::V6(d)) => word_sum(s@) + word_sum(d@) + len / 0x1_0000 % 0x1_0000 + len
            % 0x1_0000 + IPPROTO_TCP,
        _ => 0,
    }
}

/// Sums of a segment and its pseudo header fit into 32 bits.
pub open spec fn checksum_fits(ip: IpMeta, segment: Seq<u8>) -> bool {
    pseudo_sum(ip.src, ip.dst, segment.len() as int) + word_sum(segment) <= u32::MAX
}

/// The checksum over a segment and its pseudo header holds.
pub open spec fn checksum_holds(ip: IpMeta, segment: Seq<u8>) -> bool {
    &&& segment.len() >= 20
    &&& folded(
        (pseudo_sum(ip.src, ip.dst, segment.len() as int) + word_sum(segment)) as nat,
    ) == 0xffff
}

fn pseudo_header_sum(ip: &IpMeta, l4_len: usize) -> (r: u32)
    ensures
        r == pseudo_sum(ip.src, ip.dst, l4_len as int),
        r <= 0x20_0000,
{
    let low: u32 = (l4_len % 0x1_0000) as u32;
    let high: u32 = (l4_len / 0x1_0000 % 0x1_0000) as u32;
    match (&ip.src, &ip.dst) {
        (Ip::V4(s), Ip::V4(d)) => {
            proof {
                lemma_small_sum(s@);
                lemma_small_sum(d@);
            }
            raw_sum16(s) + raw_sum16(d) + IPPROTO_TCP as u32 + low
        },
        (Ip::V6(s), Ip::V6(d)) => {
            proof {
                lemma_small_sum(s@);
                lemma_small_sum(d@);
            }
            raw_sum16(s) + raw_sum16(d) + high + low + IPPROTO_TCP as u32
        },
        _ => 0,
    }
}

proof fn lemma_small_sum(s: Seq<u8>)
    requires
        s.len() <= 16,
    ensures
        word_sum(s) <= 8 * 0xffff,
{
    crate::checksum::law_sum_bound(s);
}

/// Whether the checksum over a segment and its pseudo header holds.
pub fn verify_tcp_checksum(ip: &IpMeta, segment: &[u8]) -> (r: bool)
    requires
        checksum_fits(*ip, segment@),
    ensures
        r == checksum_holds(*ip, segment@),
{
    if segment.len() < 20 {
        return false;
    }
    let sum: u32 = pseudo_header_sum(ip, segment.len()) + raw_sum16(segment);
    fold(sum) == 0xffff
}

/// The TCP header at the start of a segment.
pub open spec fn tcp_meta(l4: Seq<u8>, ip: IpMeta) -> Result<TcpMeta, Seq<char>> {
    if l4.len() < 20 {
        Err("tcp: 首部短于 20 字节"@)
    } else {
        let words = l4[12] as int / 16;
        if words * 4 > l4.len() || words < 5 {
            Err("tcp: 非法数据偏移"@)
        } else {
            Ok(
                TcpMeta {
                    src_port: be16(l4, 0) as u16,
                    dst_port: be16(l4, 2) as u16,
                    seq: be32(l4, 4) as u32,
                    ack: be32(l4, 8) as u32,
                    data_offset: words as u8,
                    flags: TcpFlags::of_byte(l4[13]),
                    window: be16(l4, 14) as u16,
                    checksum_ok: checksum_holds(ip, l4),
                },
            )
        }
    }
}

fn parse_tcp(l4: &[u8], ip: &IpMeta) -> (r: Result<TcpMeta, String>)
    requires
        l4@.len() <= 0xffff,
    ensures
        match r {
            Ok(t) => tcp_meta(l4@, *ip) == Ok::<TcpMeta, Seq<char>>(t),
            Err(e) => tcp_meta(l4@, *ip) == Err::<TcpMeta, Seq<char>>(e@),
        },
{
    if l4.len() < 20 {
        return Err("tcp: 首部短于 20 字节".to_string());
    }
    let words: u8 = l4[12] / 16;
    if words as usize * 4 > l4.len() || words < 5 {
        return Err("tcp: 非法数据偏移".to_string());
    }
    proof {
        law_short_sums_fit(l4@);
        crate::checksum::law_sum_bound(l4@);
        lemma_pseudo_bound(ip.src, ip.dst, l4@.len() as int);
    }
    Ok(
        TcpMeta {
            src_port: read_be16(l4, 0),
            dst_port: read_be16(l4, 2),
            seq: read_be32(l4, 4),
            ack: read_be32(l4, 8),
            data_offset: words,
            flags: TcpFlags::from_byte(l4[13]),
            window: read_be16(l4, 14),
            checksum_ok: verify_tcp_checksum(ip, l4),
        },
    )
}

proof fn lemma_pseudo_bound(src: Ip, dst: Ip, len: int)
    requires
        0 <= len,
    ensures
        0 <= pseudo_sum(src, dst, len) <= 0x20_0000,
{
    match (src, dst) {
        (Ip::V4(s), Ip::V4(d)) => {
            lemma_small_sum(s@);
            lemma_small_sum(d@);
        },
        (Ip::V6(s), Ip::V6(d)) => {
            lemma_small_sum(s@);
            lemma_small_sum(d@);
        },
        _ => {},
    }
}

/// What an IP payload yields: a fragment, the TCP segment, or nothing.
pub open spec fn payload_model(ip: IpMeta, l4: Seq<u8>) -> Result<FrameModel, Seq<char>> {
    if ip.fragment.fragmented() {
        Ok(FrameModel::Fragment { ip, data: l4 })
    } else if ip.protocol != IPPROTO_TCP {
        Ok(FrameModel::Ignored)
    } else {
        match tcp_meta(l4, ip) {
            Err(e) => Err(e),
            Ok(t) => Ok(
                FrameModel::Complete { ip, tcp: Some(t), payload: l4.skip(t.data_offset * 4) },
            ),
        }
    }
}

fn finish_ip(ip: IpMeta, l4: &[u8]) -> (r: Result<FrameOutcome, String>)
    requires
        l4@.len() <= 0xffff,
    ensures
        match r {
            Ok(o) => payload_model(ip, l4@) == Ok::<FrameModel, Seq<char>>(o@),
            Err(e) => payload_model(ip, l4@) == Err::<FrameModel, Seq<char>>(e@),
        },
{
    if ip.fragment.is_fragment() {
        let data = copy_range(l4, 0, l4.len());
        assert(data@ =~= l4@);
        return Ok(FrameOutcome::Fragment(FragmentPiece { ip, data }));
    }
    if ip.protocol != IPPROTO_TCP {
        return Ok(FrameOutcome::Ignored);
    }
    match parse_tcp(l4, &ip) {
        Err(e) => Err(e),
        Ok(tcp) => {
            let at: usize = tcp.data_offset as usize * 4;
            let payload = copy_range(l4, at, l4.len());
            assert(payload@ =~= l4@.skip(at as int));
            Ok(FrameOutcome::Complete(CompleteDatagram { ip, tcp: Some(tcp), payload }))
        },
    }
}

/// The four address bytes at `i`.
pub open spec fn is_v4_at(ip: Ip, b: Seq<u8>, i: int) -> bool {
    ip matches Ip::V4(a) && a@ == b.subrange(i, i + 4)
}

/// The sixteen address bytes at `i`.
pub open spec fn is_v6_at(ip: Ip, b: Seq<u8>, i: int) -> bool {
    ip matches Ip::V6(a) && a@ == b.subrange(i, i + 16)
}

/// The IPv4 address at `i`.
pub open spec fn v4_at(b: Seq<u8>, i: int) -> Ip {
    choose|ip: Ip| is_v4_at(ip, b, i)
}

/// The IPv6 address at `i`.
pub open spec fn v6_at(b: Seq<u8>, i: int) -> Ip {
    choose|ip: Ip| is_v6_at(ip, b, i)
}

pub fn read_v4(b: &[u8], i: usize) -> (r: Ip)
    requires
        i + 4 <= b@.len(),
    ensures
        is_v4_at(r, b@, i as int),
        r == v4_at(b@, i as int),
{
    let first: u8 = b[i];
    let a: [u8; 4] = [first, b[i + 1], b[i + 2], b[i + 3]];
    assert(a@ =~= b@.subrange(i as int, i + 4));
    let r = Ip::V4(a);
    proof {
        assert(is_v4_at(r, b@, i as int));
        let c = v4_at(b@, i as int);
        assert(c matches Ip::V4(x) && x@ == a@);
        if let Ip::V4(x) = c {
            assert(x =~= a);
        }
    }
    r
}

pub fn read_v6(b: &[u8], i: usize) -> (r: Ip)
    requires
        i + 16 <= b@.len(),
    ensures
        is_v6_at(r, b@, i as int),
        r == v6_at(b@, i as int),
{
    let first: u8 = b[i];
    let a: [u8; 16] = [
        first,
        b[i + 1],
        b[i + 2],
        b[i + 3],
        b[i + 4],
        b[i + 5],
        b[i + 6],
        b[i + 7],
        b[i + 8],
        b[i + 9],
        b[i + 10],
        b[i + 11],
        b[i + 12],
        b[i + 13],
        b[i + 14],
        b[i + 15],
    ];
    assert(a@ =~= b@.subrange(i as int, i + 16));
    let r = Ip::V6(a);
    proof {
        assert(is_v6_at(r, b@, i as int));
        let c = v6_at(b@, i as int);
        assert(c matches Ip::V6(x) && x@ == a@);
        if let Ip::V6(x) = c {
            assert(x =~= a);
        }
    }
    r
}

/// What an IPv4 packet yields.
pub open spec fn ipv4_model(p: Seq<u8>) -> Result<FrameModel, Seq<char>> {
    if p.len() < 20 {
        Err("ipv4: 首部短于 20 字节"@)
    } else if p[0] as int / 16 != 4 {
        Err("ipv4: 版本字段不是 4"@)
    } else {
        let ihl = p[0] as int % 16 * 4;
        let total = be16(p, 2);
        if ihl < 20 || ihl > p.len() {
            Err("ipv4: 非法首部长度"@)
        } else if total < ihl || total > p.len() {
            Err("ipv4: 总长度越界（可能被 snaplen 截断）"@)
        } else {
            payload_model(
                IpMeta {
                    version: IpVersion::V4,
                    src: v4_at(p, 12),
                    dst: v4_at(p, 16),
                    protocol: p[9],
                    id: be16(p, 4) as u32,
                    fragment: FragInfo {
                        more_fragments: be16(p, 6) / 0x2000 % 2 == 1,
                        offset: (be16(p, 6) % 0x2000 * 8) as u16,
                    },
                    header_checksum_ok: complement(word_sum(p.take(ihl))) == 0,
                },
                p.subrange(ihl, total),
            )
        }
    }
}

fn parse_ipv4(packet: &[u8]) -> (r: Result<FrameOutcome, String>)
    ensures
        match r {
            Ok(o) => ipv4_model(packet@) == Ok::<FrameModel, Seq<char>>(o@),
            Err(e) => ipv4_model(packet@) == Err::<FrameModel, Seq<char>>(e@),
        },
{
    if packet.len() < 20 {
        return Err("ipv4: 首部短于 20 字节".to_string());
    }
    if packet[0] / 16 != 4 {
        return Err("ipv4: 版本字段不是 4".to_string());
    }
    let ihl: usize = (packet[0] % 16) as usize * 4;
    if ihl < 20 || ihl > packet.len() {
        return Err("ipv4: 非法首部长度".to_string());
    }
    let total: usize = read_be16(packet, 2) as usize;
    if total < ihl || total > packet.len() {
        return Err("ipv4: 总长度越界（可能被 snaplen 截断）".to_string());
    }
    let ff: u16 = read_be16(packet, 6);
    let header = vstd::slice::slice_subrange(packet, 0, ihl);
    assert(header@ =~= packet@.take(ihl as int));
    proof {
        law_short_sums_fit(header@);
    }
    let header_ok = ones_complement(header) == 0;
    let ip = IpMeta {
        version: IpVersion::V4,
        src: read_v4(packet, 12),
        dst: read_v4(packet, 16),
        protocol: packet[9],
        id: read_be16(packet, 4) as u32,
        fragment: FragInfo {
            more_fragments: ff / 0x2000 % 2 == 1,
            offset: ff % 0x2000 * 8,
        },
        header_checksum_ok: header_ok,
    };
    finish_ip(ip, vstd::slice::slice_subrange(packet, ihl, total))
}

/// The metadata of an IPv6 packet.
pub open spec fn ipv6_meta(p: Seq<u8>, protocol: u8, id: u32, fragment: FragInfo) -> IpMeta {
    IpMeta {
        version: IpVersion::V6,
        src: v6_at(p, 8),
        dst: v6_at(p, 24),
        protocol,
        id,
        fragment,
        header_checksum_ok: true,
    }
}

/// The length of an extension header at `cursor`.
pub open spec fn ext_len(p: Seq<u8>, next: u8, cursor: int) -> int {
    if next == 51 {
        (p[cursor + 1] + 2) * 4
    } else {
        (p[cursor + 1] + 1) * 8
    }
}

/// What the headers from `cursor` on yield, in a packet that ends at `end`.
pub open spec fn ipv6_from(p: Seq<u8>, next: u8, cursor: int, end: int) -> Result<
    FrameModel,
    Seq<char>,
>
    decreases end - cursor,
{
    if next == IPPROTO_TCP {
        payload_model(
            ipv6_meta(p, IPPROTO_TCP, 0, FragInfo { more_fragments: false, offset: 0 }),
            p.subrange(cursor, end),
        )
    } else if next == IP_PROTO_FRAGMENT {
        if cursor + 8 > end {
            Err("ipv6-frag: 扩展首部被截断"@)
        } else {
            payload_model(
                ipv6_meta(
                    p,
                    p[cursor],
                    be32(p, cursor + 4) as u32,
                    FragInfo {
                        more_fragments: be16(p, cursor + 2) % 2 == 1,
                        offset: (be16(p, cursor + 2) / 8 * 8) as u16,
                    },
                ),
                p.subrange(cursor + 8, end),
            )
        }
    } else if next == 0 || next == 43 || next == 60 || next == 51 {
        if cursor >= end {
            Err("ipv6-ext: 扩展首部越界"@)
        } else if cursor + ext_len(p, next, cursor) > end {
            Err("ipv6-ext: 扩展首部长度非法"@)
        } else {
            ipv6_from(p, p[cursor], cursor + ext_len(p, next, cursor), end)
        }
    } else {
        Ok(FrameModel::Ignored)
    }
}

/// The headers from `cursor` on never end in a lone first byte of an extension
/// header at the very end of the packet.
pub open spec fn ext_readable(p: Seq<u8>, next: u8, cursor: int, end: int) -> bool
    decreases end - cursor,
{
    (next == 0 || next == 43 || next == 60 || next == 51) && cursor < end ==> {
        &&& cursor + 1 < p.len()
        &&& cursor + ext_len(p, next, cursor) <= end ==> ext_readable(
            p,
            p[cursor],
            cursor + ext_len(p, next, cursor),
            end,
        )
    }
}

/// What an IPv6 packet yields.
pub open spec fn ipv6_model(p: Seq<u8>) -> Result<FrameModel, Seq<char>> {
    if p.len() < 40 {
        Err("ipv6: 首部短于 40 字节"@)
    } else if p[0] as int / 16 != 6 {
        Err("ipv6: 版本字段不是 6"@)
    } else if 40 + be16(p, 4) > p.len() {
        Err("ipv6: 负载长度越界（可能被 snaplen 截断）"@)
    } else {
        ipv6_from(p, p[6], 40, 40 + be16(p, 4))
    }
}

/// An IPv6 packet whose extension headers can be read.
pub open spec fn ipv6_readable(p: Seq<u8>) -> bool {
    p.len() >= 40 && 40 + be16(p, 4) <= p.len() ==> ext_readable(p, p[6], 40, 40 + be16(p, 4))
}

fn parse_ipv6(packet: &[u8]) -> (r: Result<FrameOutcome, String>)
    requires
        ipv6_readable(packet@),
    ensures
        match r {
            Ok(o) => ipv6_model(packet@) == Ok::<FrameModel, Seq<char>>(o@),
            Err(e) => ipv6_model(packet@) == Err::<FrameModel, Seq<char>>(e@),
        },
{
    if packet.len() < 40 {
        return Err("ipv6: 首部短于 40 字节".to_string());
    }
    if packet[0] / 16 != 6 {
        return Err("ipv6: 版本字段不是 6".to_string());
    }
    let payload_length: usize = read_be16(packet, 4) as usize;
    if 40 + payload_length > packet.len() {
        return Err("ipv6: 负载长度越界（可能被 snaplen 截断）".to_string());
    }
    let src = read_v6(packet, 8);
    let dst = read_v6(packet, 24);
    let end: usize = 40 + payload_length;
    let mut next: u8 = packet[6];
    let mut cursor: usize = 40;
    loop
        invariant
            40 <= cursor <= end <= packet@.len(),
            end <= 40 + 0xffff,
            src == v6_at(packet@, 8),
            dst == v6_at(packet@, 24),
            ext_readable(packet@, next, cursor as int, end as int),
            ipv6_model(packet@) == ipv6_from(packet@, next, cursor as int, end as int),
        decreases end - cursor,
    {
        if next == IPPROTO_TCP {
            let ip = IpMeta {
                version: IpVersion::V6,
                src,
                dst,
                protocol: IPPROTO_TCP,
                id: 0,
                fragment: FragInfo { more_fragments: false, offset: 0 },
                header_checksum_ok: true,
            };
            return finish_ip(ip, vstd::slice::slice_subrange(packet, cursor, end));
        } else if next == IP_PROTO_FRAGMENT {
            if cursor + 8 > end {
                return Err("ipv6-frag: 扩展首部被截断".to_string());
            }
            let off_flags: u16 = read_be16(packet, cursor + 2);
            let ip = IpMeta {
                version: IpVersion::V6,
                src,
                dst,
                protocol: packet[cursor],
                id: read_be32(packet, cursor + 4),
                fragment: FragInfo {
                    more_fragments: off_flags % 2 == 1,
                    offset: off_flags / 8 * 8,
                },
                header_checksum_ok: true,
            };
            return finish_ip(ip, vstd::slice::slice_subrange(packet, cursor + 8, end));
        } else if next == 0 || next == 43 || next == 60 || next == 51 {
            if cursor >= end {
                return Err("ipv6-ext: 扩展首部越界".to_string());
            }
            let units: usize = packet[cursor + 1] as usize;
            let hdr_len: usize = if next == 51 {
                (units + 2) * 4
            } else {
                (units + 1) * 8
            };
            if cursor + hdr_len > end {
                return Err("ipv6-ext: 扩展首部长度非法".to_string());
            }
            next = packet[cursor];
            cursor = cursor + hdr_len;
        } else {
            return Ok(FrameOutcome::Ignored);
        }
    }
}

/// What a frame yields.
pub open spec fn frame_model(frame: Seq<u8>, link: u32) -> Result<FrameModel, Seq<char>> {
    match ip_start(frame, link) {
        Err(e) => Err(e),
        Ok((at, IpVersion::V4)) => ipv4_model(frame.skip(at)),
        Ok((at, IpVersion::V6)) => ipv6_model(frame.skip(at)),
    }
}

/// A frame whose IPv6 extension headers, if it has any, can be read.
pub open spec fn frame_readable(frame: Seq<u8>, link: u32) -> bool {
    ip_start(frame, link) matches Ok((at, IpVersion::V6)) ==> ipv6_readable(frame.skip(at))
}

fn has_readable_ipv6(p: &[u8]) -> (r: bool)
    ensures
        r == ipv6_readable(p@),
{
    if p.len() < 40 {
        return true;
    }
    let end: usize = 40 + read_be16(p, 4) as usize;
    if end > p.len() {
        return true;
    }
    let mut next: u8 = p[6];
    let mut cursor: usize = 40;
    while (next == 0 || next == 43 || next == 60 || next == 51) && cursor < end
        invariant
            40 <= cursor <= end <= p@.len(),
            end <= 40 + 0xffff,
            ipv6_readable(p@) == ext_readable(p@, next, cursor as int, end as int),
        decreases end - cursor,
    {
        if cursor + 1 >= p.len() {
            return false;
        }
        let units: usize = p[cursor + 1] as usize;
        let len: usize = if next == 51 {
            (units + 2) * 4
        } else {
            (units + 1) * 8
        };
        if cursor + len > end {
            return true;
        }
        next = p[cursor];
        cursor = cursor + len;
    }
    true
}

/// Parses one frame. Nothing comes back where the extension headers of an IPv6 packet end
/// in a lone first byte at the very end of the frame.
pub fn try_parse_frame(frame: &[u8], link: u32, frame_index: usize) -> (r: Option<
    Result<FrameOutcome, String>,
>)
    ensures
        match r {
            Some(Ok(o)) => frame_readable(frame@, link) && frame_model(frame@, link) == Ok::<
                FrameModel,
                Seq<char>,
            >(o@),
            Some(Err(e)) => frame_readable(frame@, link) && frame_model(frame@, link) == Err::<
                FrameModel,
                Seq<char>,
            >(e@),
            None => !frame_readable(frame@, link),
        },
{
    if let Ok((at, IpVersion::V6)) = strip_link(frame, link) {
        let packet = vstd::slice::slice_subrange(frame, at, frame.len());
        assert(packet@ =~= frame@.skip(at as int));
        if !has_readable_ipv6(packet) {
            return None;
        }
    }
    Some(parse_frame(frame, link, frame_index))
}

/// Parses one frame.
pub fn parse_frame(frame: &[u8], link: u32, frame_index: usize) -> (r: Result<FrameOutcome, String>)
    requires
        frame_readable(frame@, link),
    ensures
        match r {
            Ok(o) => frame_model(frame@, link) == Ok::<FrameModel, Seq<char>>(o@),
            Err(e) => frame_model(frame@, link) == Err::<FrameModel, Seq<char>>(e@),
        },
{
    match strip_link(frame, link) {
        Err(e) => Err(e),
        Ok((at, version)) => {
            let packet = vstd::slice::slice_subrange(frame, at, frame.len());
            assert(packet@ =~= frame@.skip(at as int));
            match version {
                IpVersion::V4 => parse_ipv4(packet),
                IpVersion::V6 => parse_ipv6(packet),
            }
        },
    }
}

/// A VLAN tag put into an Ethernet frame with at most one tag, which is whole, changes
/// nothing of what the frame is parsed as.
pub proof fn law_vlan_tag_is_transparent(frame: Seq<u8>, put: Seq<u8>)
    requires
        frame.len() >= 14,
        put.len() == 4,
        be16(put, 0) == 0x8100,
        be16(frame, 12) == 0x8100 ==> frame.len() >= 18 && be16(frame, 16) != 0x8100,
    ensures
        frame_model(frame.take(12) + put + frame.skip(12), LINK_ETHERNET) == frame_model(
            frame,
            LINK_ETHERNET,
        ),
{
    let t = frame.take(12) + put + frame.skip(12);
    assert(t[12] == put[0] && t[13] == put[1]);
    assert(be16(t, 12) == be16(put, 0));
    assert(t[16] == frame[12] && t[17] == frame[13]);
    assert(be16(t, 16) == be16(frame, 12));
    assert(t.skip(18) =~= frame.skip(14));
    if frame.len() >= 18 {
        assert(t[20] == frame[16] && t[21] == frame[17]);
        assert(be16(t, 20) == be16(frame, 16));
        assert(t.skip(22) =~= frame.skip(18));
    }
}

} // verus!
