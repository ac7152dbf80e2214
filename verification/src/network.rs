//! Link layer, IP and TCP parsing with strict length checks.

use vstd::prelude::*;
use vstd::slice::slice_subrange;
use crate::bytes::{be16, be32, copy_range, le32, read_be16, read_be32, read_le32};
use crate::text::{cat_dec, dec, hex4, push_hex4};
use crate::types::Ip;
use crate::wire::{read_v4, read_v6, v4_at, v6_at};

verus! {

pub const TCP: u8 = 6;

#[derive(Debug, Clone)]
pub struct IpDatagram {
    pub source: Ip,
    pub destination: Ip,
    pub protocol: u8,
    pub payload: Vec<u8>,
    pub fragment: Option<FragmentInfo>,
}

#[derive(Debug, Clone, Copy, PartialEq, Eq, Structural)]
pub struct FragmentInfo {
    pub identification: u32,
    pub offset: usize,
    pub more_fragments: bool,
}

#[derive(Debug, Clone, Copy)]
pub struct TcpSegment<'a> {
    pub source: Ip,
    pub destination: Ip,
    pub source_port: u16,
    pub destination_port: u16,
    pub sequence: u32,
    pub acknowledgment: u32,
    pub data_offset: usize,
    pub flags: u8,
    pub window: u16,
    pub payload: &'a [u8],
}

pub const TCP_FIN: u8 = 0x01;

pub const TCP_SYN: u8 = 0x02;

pub const TCP_RST: u8 = 0x04;

pub const TCP_ACK: u8 = 0x10;

/// What a datagram is.
pub struct DatagramModel {
    pub source: Ip,
    pub destination: Ip,
    pub protocol: u8,
    pub payload: Seq<u8>,
    pub fragment: Option<FragmentInfo>,
}

impl View for IpDatagram {
    type V = DatagramModel;

    open spec fn view(&self) -> DatagramModel {
        DatagramModel {
            source: self.source,
            destination: self.destination,
            protocol: self.protocol,
            payload: self.payload@,
            fragment: self.fragment,
        }
    }
}

pub type Parsed = Result<DatagramModel, Seq<char>>;

/// A result is the modelled one.
pub open spec fn agrees(r: Result<IpDatagram, String>, m: Parsed) -> bool {
    match r {
        Ok(d) => m == Ok::<DatagramModel, Seq<char>>(d@),
        Err(e) => m == Err::<DatagramModel, Seq<char>>(e@),
    }
}

/// The IPv4 datagram in `b`.
pub open spec fn ipv4_datagram(b: Seq<u8>) -> Parsed {
    let header = b[0] as int % 16 * 4;
    let total = be16(b, 2);
    let ff = be16(b, 6);
    if b.len() < 20 {
        Err("IPv4 header is shorter than 20 bytes"@)
    } else if b[0] as int / 16 != 4 || header < 20 || b.len() < header {
        Err("IPv4 header length is invalid"@)
    } else if total < header || total > b.len() {
        Err("IPv4 total length is invalid"@)
    } else {
        Ok(
            DatagramModel {
                source: v4_at(b, 12),
                destination: v4_at(b, 16),
                protocol: b[9],
                payload: b.subrange(header, total),
                fragment: if ff / 0x2000 % 2 == 1 || ff % 0x2000 > 0 {
                    Some(
                        FragmentInfo {
                            identification: be16(b, 4) as u32,
                            offset: (ff % 0x2000 * 8) as usize,
                            more_fragments: ff / 0x2000 % 2 == 1,
                        },
                    )
                } else {
                    None
                },
            },
        )
    }
}

/// A header that is followed by another one.
pub open spec fn is_extension(h: u8) -> bool {
    h == 0 || h == 43 || h == 44 || h == 60 || h == 51
}

/// What the headers of an IPv6 packet from `cursor` on lead to.
pub open spec fn ipv6_rest(b: Seq<u8>, next: u8, cursor: int, end: int) -> Parsed
    decreases end - cursor,
{
    let whole = DatagramModel {
        source: v6_at(b, 8),
        destination: v6_at(b, 24),
        protocol: next,
        payload: b.subrange(cursor, end),
        fragment: None,
    };
    if !is_extension(next) {
        Ok(whole)
    } else if cursor >= end {
        Err("truncated IPv6 extension header"@)
    } else if next == 44 {
        let ff = be16(b, cursor + 2);
        if cursor + 8 > end {
            Err("truncated IPv6 Fragment header"@)
        } else {
            Ok(
                DatagramModel {
                    protocol: b[cursor],
                    payload: b.subrange(cursor + 8, end),
                    fragment: if ff % 2 == 1 || ff / 8 > 0 {
                        Some(
                            FragmentInfo {
                                identification: be32(b, cursor + 4) as u32,
                                offset: (ff / 8 * 8) as usize,
                                more_fragments: ff % 2 == 1,
                            },
                        )
                    } else {
                        None
                    },
                    ..whole
                },
            )
        }
    } else if cursor + 2 > end {
        if next == 51 {
            Err("truncated IPv6 AH header"@)
        } else {
            Err("truncated IPv6 extension header"@)
        }
    } else {
        let length = if next == 51 {
            b[cursor + 1] * 4 + 2
        } else {
            (b[cursor + 1] + 1) * 8
        };
        if cursor + length > end {
            Err("IPv6 extension header length is invalid"@)
        } else {
            ipv6_rest(b, b[cursor], cursor + length, end)
        }
    }
}

/// The IPv6 datagram in `b`.
pub open spec fn ipv6_datagram(b: Seq<u8>) -> Parsed {
    if b.len() < 40 {
        Err("IPv6 header is shorter than 40 bytes"@)
    } else if b[0] as int / 16 != 6 {
        Err("IPv6 version is invalid"@)
    } else if 40 + be16(b, 4) > b.len() {
        Err("IPv6 payload length exceeds frame"@)
    } else {
        ipv6_rest(b, b[6], 40, 40 + be16(b, 4))
    }
}

/// The datagram behind an EtherType.
pub open spec fn ip_payload(b: Seq<u8>, ether_type: int) -> Parsed {
    if ether_type == 0x0800 {
        ipv4_datagram(b)
    } else if ether_type == 0x86dd {
        ipv6_datagram(b)
    } else {
        Err("non-IP datagram was ignored"@)
    }
}

/// The datagram behind an EtherType and any VLAN tags.
pub open spec fn ethernet_rest(b: Seq<u8>, ether_type: int) -> Parsed
    decreases b.len(),
{
    if ether_type == 0x8100 || ether_type == 0x88a8 || ether_type == 0x9100 {
        if b.len() < 4 {
            Err("truncated VLAN tag"@)
        } else {
            ethernet_rest(b.skip(4), be16(b, 2))
        }
    } else if ether_type == 0x0800 || ether_type == 0x86dd {
        ip_payload(b, ether_type)
    } else {
        Err("ignored Ethernet ether_type 0x"@ + hex4(ether_type))
    }
}

/// The datagram in a frame of a link type.
pub open spec fn link_datagram(f: Seq<u8>, link_type: u16) -> Parsed {
    if link_type == 1 {
        if f.len() < 14 {
            Err("Ethernet frame is shorter than 14 bytes"@)
        } else {
            ethernet_rest(f.skip(14), be16(f, 12))
        }
    } else if link_type == 101 {
        if f.len() > 0 && f[0] as int / 16 == 4 {
            ip_payload(f, 0x0800)
        } else if f.len() > 0 && f[0] as int / 16 == 6 {
            ip_payload(f, 0x86dd)
        } else {
            Err("raw IP frame has an unknown IP version"@)
        }
    } else if link_type == 113 {
        if f.len() < 16 {
            Err("Linux cooked capture header is truncated"@)
        } else {
            ip_payload(f.skip(16), be16(f, 14))
        }
    } else if link_type == 0 {
        if f.len() < 4 {
            Err("null/Loopback frame is truncated"@)
        } else if le32(f, 0) == 2 || be32(f, 0) == 2 {
            ip_payload(f.skip(4), 0x0800)
        } else if le32(f, 0) == 30 || be32(f, 0) == 30 || le32(f, 0) == 10 || be32(f, 0) == 10 {
            ip_payload(f.skip(4), 0x86dd)
        } else {
            Err("unsupported null/Loopback address family"@)
        }
    } else {
        Err("unsupported link type "@ + dec(link_type as nat))
    }
}

fn rest_of(b: &[u8], i: usize) -> (r: &[u8])
    requires
        i <= b@.len(),
    ensures
        r@ == b@.skip(i as int),
{
    let r = slice_subrange(b, i, b.len());
    assert(r@ =~= b@.skip(i as int));
    r
}

/// Parses a frame of a link type.
pub fn parse_link(frame: &[u8], link_type: u16) -> (r: Result<IpDatagram, String>)
    ensures
        agrees(r, link_datagram(frame@, link_type)),
{
    if link_type == 1 {
        parse_ethernet(frame)
    } else if link_type == 101 {
        parse_ip(frame)
    } else if link_type == 113 {
        parse_linux_cooked(frame)
    } else if link_type == 0 {
        parse_null(frame)
    } else {
        Err(cat_dec("unsupported link type ", link_type as u64))
    }
}

fn parse_ethernet(frame: &[u8]) -> (r: Result<IpDatagram, String>)
    ensures
        agrees(r, link_datagram(frame@, 1)),
{
    if frame.len() < 14 {
        return Err("Ethernet frame is shorter than 14 bytes".to_string());
    }
    let mut ether_type: u16 = read_be16(frame, 12);
    let mut at: usize = 14;
    while ether_type == 0x8100 || ether_type == 0x88a8 || ether_type == 0x9100
        invariant
            14 <= at <= frame@.len(),
            link_datagram(frame@, 1) == ethernet_rest(frame@.skip(at as int), ether_type as int),
        decreases frame@.len() - at,
    {
        if frame.len() - at < 4 {
            return Err("truncated VLAN tag".to_string());
        }
        proof {
            let b = frame@.skip(at as int);
            assert(b.skip(4) =~= frame@.skip(at + 4));
            assert(be16(b, 2) == be16(frame@, at + 2));
        }
        ether_type = read_be16(frame, at + 2);
        at = at + 4;
    }
    if ether_type == 0x0800 || ether_type == 0x86dd {
        parse_ip_payload(rest_of(frame, at), ether_type)
    } else {
        let mut t = "ignored Ethernet ether_type 0x".to_string();
        push_hex4(&mut t, ether_type);
        Err(t)
    }
}

fn parse_linux_cooked(frame: &[u8]) -> (r: Result<IpDatagram, String>)
    ensures
        agrees(r, link_datagram(frame@, 113)),
{
    if frame.len() < 16 {
        return Err("Linux cooked capture header is truncated".to_string());
    }
    let ether_type: u16 = read_be16(frame, 14);
    parse_ip_payload(rest_of(frame, 16), ether_type)
}

fn parse_null(frame: &[u8]) -> (r: Result<IpDatagram, String>)
    ensures
        agrees(r, link_datagram(frame@, 0)),
{
    if frame.len() < 4 {
        return Err("null/Loopback frame is truncated".to_string());
    }
    let le: u32 = read_le32(frame, 0);
    let be: u32 = read_be32(frame, 0);
    if le == 2 || be == 2 {
        parse_ip_payload(rest_of(frame, 4), 0x0800)
    } else if le == 30 || be == 30 || le == 10 || be == 10 {
        parse_ip_payload(rest_of(frame, 4), 0x86dd)
    } else {
        Err("unsupported null/Loopback address family".to_string())
    }
}

fn parse_ip(frame: &[u8]) -> (r: Result<IpDatagram, String>)
    ensures
        agrees(r, link_datagram(frame@, 101)),
{
    if frame.len() > 0 && frame[0] / 16 == 4 {
        parse_ip_payload(frame, 0x0800)
    } else if frame.len() > 0 && frame[0] / 16 == 6 {
        parse_ip_payload(frame, 0x86dd)
    } else {
        Err("raw IP frame has an unknown IP version".to_string())
    }
}

fn parse_ip_payload(frame: &[u8], ether_type: u16) -> (r: Result<IpDatagram, String>)
    ensures
        agrees(r, ip_payload(frame@, ether_type as int)),
{
    if ether_type == 0x0800 {
        parse_ipv4_datagram(frame)
    } else if ether_type == 0x86dd {
        parse_ipv6_datagram(frame)
    } else {
        Err("non-IP datagram was ignored".to_string())
    }
}

fn parse_ipv4_datagram(frame: &[u8]) -> (r: Result<IpDatagram, String>)
    ensures
        agrees(r, ipv4_datagram(frame@)),
{
    if frame.len() < 20 {
        return Err("IPv4 header is shorter than 20 bytes".to_string());
    }
    let header: usize = (frame[0] % 16) as usize * 4;
    if frame[0] / 16 != 4 || header < 20 || frame.len() < header {
        return Err("IPv4 header length is invalid".to_string());
    }
    let total: usize = read_be16(frame, 2) as usize;
    if total < header || total > frame.len() {
        return Err("IPv4 total length is invalid".to_string());
    }
    let identification: u32 = read_be16(frame, 4) as u32;
    let ff: u16 = read_be16(frame, 6);
    let more_fragments = ff / 0x2000 % 2 == 1;
    let offset: usize = (ff % 0x2000) as usize * 8;
    let fragment = if more_fragments || offset > 0 {
        Some(FragmentInfo { identification, offset, more_fragments })
    } else {
        None
    };
    Ok(
        IpDatagram {
            source: read_v4(frame, 12),
            destination: read_v4(frame, 16),
            protocol: frame[9],
            payload: copy_range(frame, header, total),
            fragment,
        },
    )
}

fn parse_ipv6_datagram(frame: &[u8]) -> (r: Result<IpDatagram, String>)
    ensures
        agrees(r, ipv6_datagram(frame@)),
{
    if frame.len() < 40 {
        return Err("IPv6 header is shorter than 40 bytes".to_string());
    }
    if frame[0] / 16 != 6 {
        return Err("IPv6 version is invalid".to_string());
    }
    let payload_length: usize = read_be16(frame, 4) as usize;
    if 40 + payload_length > frame.len() {
        return Err("IPv6 payload length exceeds frame".to_string());
    }
    let source = read_v6(frame, 8);
    let destination = read_v6(frame, 24);
    let mut next: u8 = frame[6];
    let mut cursor: usize = 40;
    let end: usize = 40 + payload_length;
    while next == 0 || next == 43 || next == 44 || next == 60 || next == 51
        invariant
            40 <= cursor <= end <= frame@.len(),
            end <= 40 + 0xffff,
            source == v6_at(frame@, 8),
            destination == v6_at(frame@, 24),
            ipv6_datagram(frame@) == ipv6_rest(frame@, next, cursor as int, end as int),
        decreases end - cursor,
    {
        if cursor >= end {
            return Err("truncated IPv6 extension header".to_string());
        }
        if next == 44 {
            if cursor + 8 > end {
                return Err("truncated IPv6 Fragment header".to_string());
            }
            let ff: u16 = read_be16(frame, cursor + 2);
            let offset: usize = (ff / 8) as usize * 8;
            let more_fragments = ff % 2 == 1;
            let identification: u32 = read_be32(frame, cursor + 4);
            let fragment = if more_fragments || offset > 0 {
                Some(FragmentInfo { identification, offset, more_fragments })
            } else {
                None
            };
            return Ok(
                IpDatagram {
                    source,
                    destination,
                    protocol: frame[cursor],
                    payload: copy_range(frame, cursor + 8, end),
                    fragment,
                },
            );
        }
        if cursor + 2 > end {
            if next == 51 {
                return Err("truncated IPv6 AH header".to_string());
            }
            return Err("truncated IPv6 extension header".to_string());
        }
        let length: usize = if next == 51 {
            frame[cursor + 1] as usize * 4 + 2
        } else {
            (frame[cursor + 1] as usize + 1) * 8
        };
        if cursor + length > end {
            return Err("IPv6 extension header length is invalid".to_string());
        }
        next = frame[cursor];
        cursor = cursor + length;
    }
    Ok(
        IpDatagram {
            source,
            destination,
            protocol: next,
            payload: copy_range(frame, cursor, end),
            fragment: None,
        },
    )
}

/// Where the data of the TCP segment in `b` starts.
pub open spec fn tcp_data(b: Seq<u8>) -> Result<int, Seq<char>> {
    let at = b[12] as int / 16 * 4;
    if b.len() < 20 {
        Err("TCP header is shorter than 20 bytes"@)
    } else if at < 20 || at > b.len() {
        Err("TCP data offset is invalid"@)
    } else {
        Ok(at)
    }
}

/// What the TCP segment in `b` is.
pub struct SegmentModel {
    pub source_port: int,
    pub destination_port: int,
    pub sequence: int,
    pub acknowledgment: int,
    pub flags: u8,
    pub window: int,
    pub payload: Seq<u8>,
}

/// The TCP segment in `b`.
pub open spec fn segment_in(b: Seq<u8>) -> Result<SegmentModel, Seq<char>> {
    match tcp_data(b) {
        Err(e) => Err(e),
        Ok(at) => Ok(
            SegmentModel {
                source_port: be16(b, 0),
                destination_port: be16(b, 2),
                sequence: be32(b, 4),
                acknowledgment: be32(b, 8),
                flags: b[13],
                window: be16(b, 14),
                payload: b.skip(at),
            },
        ),
    }
}

/// Parses the TCP segment that a datagram carries.
pub fn parse_tcp(datagram: &IpDatagram) -> (r: Result<TcpSegment<'_>, String>)
    ensures
        match r {
            Ok(s) => {
                let b = datagram.payload@;
                &&& tcp_data(b) == Ok::<int, Seq<char>>(s.data_offset as int)
                &&& s.source == datagram.source
                &&& s.destination == datagram.destination
                &&& s.source_port == be16(b, 0)
                &&& s.destination_port == be16(b, 2)
                &&& s.sequence == be32(b, 4)
                &&& s.acknowledgment == be32(b, 8)
                &&& s.flags == b[13]
                &&& s.window == be16(b, 14)
                &&& s.payload@ == b.skip(s.data_offset as int)
                &&& segment_in(b) == Ok::<SegmentModel, Seq<char>>(
                    SegmentModel {
                        source_port: s.source_port as int,
                        destination_port: s.destination_port as int,
                        sequence: s.sequence as int,
                        acknowledgment: s.acknowledgment as int,
                        flags: s.flags,
                        window: s.window as int,
                        payload: s.payload@,
                    },
                )
            },
            Err(e) => tcp_data(datagram.payload@) == Err::<int, Seq<char>>(e@),
        },
{
    let payload = datagram.payload.as_slice();
    if payload.len() < 20 {
        return Err("TCP header is shorter than 20 bytes".to_string());
    }
    let data_offset: usize = (payload[12] / 16) as usize * 4;
    if data_offset < 20 || data_offset > payload.len() {
        return Err("TCP data offset is invalid".to_string());
    }
    Ok(
        TcpSegment {
            source: datagram.source,
            destination: datagram.destination,
            source_port: read_be16(payload, 0),
            destination_port: read_be16(payload, 2),
            sequence: read_be32(payload, 4),
            acknowledgment: read_be32(payload, 8),
            data_offset,
            flags: payload[13],
            window: read_be16(payload, 14),
            payload: rest_of(payload, data_offset),
        },
    )
}

/// A VLAN tag put into an Ethernet frame changes nothing of what is read from it, however
/// many tags there are.
pub proof fn law_vlan_tag_is_transparent(f: Seq<u8>, put: Seq<u8>)
    requires
        f.len() >= 14,
        put.len() == 4,
        be16(put, 0) == 0x8100 || be16(put, 0) == 0x88a8 || be16(put, 0) == 0x9100,
    ensures
        link_datagram(f.take(12) + put + f.skip(12), 1) == link_datagram(f, 1),
{
    let t = f.take(12) + put + f.skip(12);
    assert(t[12] == put[0] && t[13] == put[1]);
    assert(be16(t, 12) == be16(put, 0));
    let b = t.skip(14);
    assert(b[2] == f[12] && b[3] == f[13]);
    assert(be16(b, 2) == be16(f, 12));
    assert(b.skip(4) =~= f.skip(14));
}

} // verus!
