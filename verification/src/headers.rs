//! Frames written out byte by byte, as the protocols lay them down, and what parsing them
//! gives back, whichever part of the library parses them.

use vstd::prelude::*;
use crate::builder;
use crate::bytes::{be16, be16_bytes, be32, be32_bytes, le32};
use crate::frame;
use crate::network;
use crate::packet;
use crate::parse;
use crate::types::{Ip, LinkKind};
use crate::wire::{self, is_v4_at, is_v6_at, v4_at, v6_at};

verus! {

/// The fields of a TCP header.
pub struct TcpHead {
    pub sport: u16,
    pub dport: u16,
    pub seq: u32,
    pub ack: u32,
    /// The reserved bits beside the length of the header.
    pub low: u8,
    pub flags: u8,
    pub window: u16,
    pub check: u16,
    pub urgent: u16,
}

/// A byte of a number: that which `shift` divides down to.
pub open spec fn byte_of(v: int, shift: int) -> u8 {
    (v / shift % 256) as u8
}

/// A TCP segment: the header with the options, whose length it states in words of four
/// bytes, and the data.
pub open spec fn tcp_bytes(h: TcpHead, options: Seq<u8>, data: Seq<u8>) -> Seq<u8> {
    seq![
        byte_of(h.sport as int, 256),
        byte_of(h.sport as int, 1),
        byte_of(h.dport as int, 256),
        byte_of(h.dport as int, 1),
        byte_of(h.seq as int, 0x1000000),
        byte_of(h.seq as int, 0x10000),
        byte_of(h.seq as int, 0x100),
        byte_of(h.seq as int, 1),
        byte_of(h.ack as int, 0x1000000),
        byte_of(h.ack as int, 0x10000),
        byte_of(h.ack as int, 0x100),
        byte_of(h.ack as int, 1),
        ((5 + options.len() / 4) * 16 + h.low % 16) as u8,
        h.flags,
        byte_of(h.window as int, 256),
        byte_of(h.window as int, 1),
        byte_of(h.check as int, 256),
        byte_of(h.check as int, 1),
        byte_of(h.urgent as int, 256),
        byte_of(h.urgent as int, 1),
    ] + options + data
}

/// Options as a header can hold them: whole words, at most ten.
pub open spec fn fit_options(options: Seq<u8>) -> bool {
    options.len() % 4 == 0 && options.len() <= 40
}

#[verifier::spinoff_prover]
#[verifier::rlimit(40)]
pub(crate) proof fn lemma_tcp_bytes(h: TcpHead, options: Seq<u8>, data: Seq<u8>)
    requires
        fit_options(options),
    ensures
        ({
            let b = tcp_bytes(h, options, data);
            &&& b.len() == 20 + options.len() + data.len()
            &&& be16(b, 0) == h.sport
            &&& be16(b, 2) == h.dport
            &&& be32(b, 4) == h.seq
            &&& be32(b, 8) == h.ack
            &&& b[12] as int / 16 * 4 == 20 + options.len()
            &&& b[12] as int / 16 == 5 + options.len() / 4
            &&& b[13] == h.flags
            &&& be16(b, 14) == h.window
            &&& b.skip(20 + options.len() as int) == data
        }),
{
    let b = tcp_bytes(h, options, data);
    assert(b.skip(20 + options.len() as int) =~= data);
    let w = 5 + options.len() / 4;
    assert(5 <= w <= 15);
    assert(b[12] == (w * 16 + h.low % 16) as u8);
    lemma_two(b, 0, h.sport);
    lemma_two(b, 2, h.dport);
    lemma_four(b, 4, h.seq);
    lemma_four(b, 8, h.ack);
    lemma_two(b, 14, h.window);
}

proof fn lemma_two(b: Seq<u8>, i: int, v: u16)
    requires
        b[i] == byte_of(v as int, 256),
        b[i + 1] == byte_of(v as int, 1),
    ensures
        be16(b, i) == v,
{
}

#[verifier::spinoff_prover]
proof fn lemma_four(b: Seq<u8>, i: int, v: u32)
    requires
        b[i] == byte_of(v as int, 0x1000000),
        b[i + 1] == byte_of(v as int, 0x10000),
        b[i + 2] == byte_of(v as int, 0x100),
        b[i + 3] == byte_of(v as int, 1),
    ensures
        be32(b, i) == v,
{
    let n = v as int;
    let (one, two, three) = (n / 0x100, n / 0x10000, n / 0x1000000);
    assert(one / 256 == two);
    assert(two / 256 == three);
    assert(0 <= three < 256);
    assert(b[i] == three);
    assert(b[i + 1] == two % 256);
    assert(b[i + 2] == one % 256);
    assert(b[i + 3] == n % 256);
    assert(n == 256 * one + n % 256);
    assert(one == 256 * two + one % 256);
    assert(two == 256 * three + two % 256);
}

/// The fields of an IPv4 header.
pub struct V4Head {
    pub tos: u8,
    pub ident: u16,
    pub reserved: bool,
    pub dont: bool,
    pub more: bool,
    /// The place of the data in the datagram, in units of eight bytes.
    pub units: u16,
    pub ttl: u8,
    pub proto: u8,
    pub check: u16,
    pub src: [u8; 4],
    pub dst: [u8; 4],
}

/// An IPv4 packet: the header with the options, whose length it states, and the data.
pub open spec fn v4_bytes(h: V4Head, options: Seq<u8>, data: Seq<u8>) -> Seq<u8> {
    let total = (20 + options.len() + data.len()) as int;
    let bits = (if h.reserved {
        128int
    } else {
        0
    }) + (if h.dont {
        64int
    } else {
        0
    }) + (if h.more {
        32int
    } else {
        0
    });
    seq![
        (64 + 5 + options.len() / 4) as u8,
        h.tos,
        byte_of(total, 256),
        byte_of(total, 1),
        byte_of(h.ident as int, 256),
        byte_of(h.ident as int, 1),
        (bits + h.units / 256) as u8,
        byte_of(h.units as int, 1),
        h.ttl,
        h.proto,
        byte_of(h.check as int, 256),
        byte_of(h.check as int, 1),
    ] + h.src@ + h.dst@ + options + data
}

/// A packet whose length and place fit into its header.
pub open spec fn fit_v4(h: V4Head, options: Seq<u8>, data: Seq<u8>) -> bool {
    fit_options(options) && 20 + options.len() + data.len() <= 0xffff && h.units < 0x2000
}

proof fn lemma_v4_at(b: Seq<u8>, i: int, a: [u8; 4])
    requires
        b.subrange(i, i + 4) == a@,
    ensures
        v4_at(b, i) == Ip::V4(a),
{
    assert(is_v4_at(Ip::V4(a), b, i));
    let c = v4_at(b, i);
    assert(c matches Ip::V4(x) && x@ == a@);
    if let Ip::V4(x) = c {
        assert(x =~= a);
    }
}

proof fn lemma_v6_at(b: Seq<u8>, i: int, a: [u8; 16])
    requires
        b.subrange(i, i + 16) == a@,
    ensures
        v6_at(b, i) == Ip::V6(a),
{
    assert(is_v6_at(Ip::V6(a), b, i));
    let c = v6_at(b, i);
    assert(c matches Ip::V6(x) && x@ == a@);
    if let Ip::V6(x) = c {
        assert(x =~= a);
    }
}

#[verifier::spinoff_prover]
#[verifier::rlimit(40)]
pub(crate) proof fn lemma_v4_bytes(h: V4Head, options: Seq<u8>, data: Seq<u8>, pad: Seq<u8>)
    requires
        fit_v4(h, options, data),
    ensures
        ({
            let b = v4_bytes(h, options, data) + pad;
            let at = 20 + options.len() as int;
            &&& b.len() == at + data.len() + pad.len()
            &&& b[0] as int / 16 == 4
            &&& b[0] as int % 16 * 4 == at
            &&& be16(b, 2) == at + data.len()
            &&& be16(b, 4) == h.ident
            &&& be16(b, 6) % 0x2000 == h.units
            &&& be16(b, 6) / 0x2000 % 2 == 1 <==> h.more
            &&& be16(b, 6) / 0x4000 % 2 == 1 <==> h.dont
            &&& b[8] == h.ttl
            &&& b[9] == h.proto
            &&& v4_at(b, 12) == Ip::V4(h.src)
            &&& v4_at(b, 16) == Ip::V4(h.dst)
            &&& b.subrange(at, at + data.len()) == data
        }),
{
    let b = v4_bytes(h, options, data) + pad;
    let at = 20 + options.len() as int;
    assert(h.src@.len() == 4 && h.dst@.len() == 4);
    assert(b.subrange(12, 16) =~= h.src@);
    assert(b.subrange(16, 20) =~= h.dst@);
    lemma_v4_at(b, 12, h.src);
    lemma_v4_at(b, 16, h.dst);
    assert(b.subrange(at, at + data.len()) =~= data);
    let bits = (if h.reserved {
        128int
    } else {
        0
    }) + (if h.dont {
        64int
    } else {
        0
    }) + (if h.more {
        32int
    } else {
        0
    });
    assert(b[6] == (bits + h.units / 256) as u8);
    assert(h.units / 256 < 32);
    assert(b[6] == bits + h.units / 256);
    assert(b[7] == h.units % 256);
    assert(be16(b, 6) == bits * 256 + h.units);
    assert(b[0] == 64 + 5 + options.len() / 4);
}

/// The fields of an IPv6 header.
pub struct V6Head {
    /// The traffic class and the flow label beside the version.
    pub class: u8,
    pub flow: [u8; 3],
    pub hops: u8,
    pub src: [u8; 16],
    pub dst: [u8; 16],
}

/// An IPv6 packet: the header and what follows, of which it states the first header and
/// the length.
pub open spec fn v6_bytes(h: V6Head, next: u8, rest: Seq<u8>) -> Seq<u8> {
    seq![
        (96 + h.class % 16) as u8,
        h.flow@[0],
        h.flow@[1],
        h.flow@[2],
        byte_of(rest.len() as int, 256),
        byte_of(rest.len() as int, 1),
        next,
        h.hops,
    ] + h.src@ + h.dst@ + rest
}

/// An IPv6 fragment header and the data of the fragment.
pub open spec fn v6_fragment(
    next: u8,
    spare: u8,
    units: u16,
    bits: u8,
    more: bool,
    ident: u32,
    data: Seq<u8>,
) -> Seq<u8> {
    seq![
        next,
        spare,
        byte_of(units * 8, 256),
        (units % 32 * 8 + bits % 4 * 2 + (if more {
            1int
        } else {
            0
        })) as u8,
        byte_of(ident as int, 0x1000000),
        byte_of(ident as int, 0x10000),
        byte_of(ident as int, 0x100),
        byte_of(ident as int, 1),
    ] + data
}

/// An IPv6 extension header that states its length in units of eight bytes beyond the
/// first, and what follows it.
pub open spec fn v6_extension(next: u8, body: Seq<u8>, rest: Seq<u8>) -> Seq<u8> {
    seq![next, ((body.len() + 2) / 8 - 1) as u8] + body + rest
}

/// The body of an extension header fills whole units.
pub open spec fn fit_body(body: Seq<u8>) -> bool {
    (body.len() + 2) % 8 == 0 && body.len() + 2 <= 2048
}

#[verifier::spinoff_prover]
#[verifier::rlimit(40)]
pub(crate) proof fn lemma_v6_bytes(h: V6Head, next: u8, rest: Seq<u8>, pad: Seq<u8>)
    requires
        rest.len() <= 0xffff,
    ensures
        ({
            let b = v6_bytes(h, next, rest) + pad;
            &&& b.len() == 40 + rest.len() + pad.len()
            &&& b[0] as int / 16 == 6
            &&& be16(b, 4) == rest.len()
            &&& b[6] == next
            &&& v6_at(b, 8) == Ip::V6(h.src)
            &&& v6_at(b, 24) == Ip::V6(h.dst)
            &&& b.subrange(40, 40 + rest.len() as int) == rest
        }),
{
    let b = v6_bytes(h, next, rest) + pad;
    assert(h.src@.len() == 16 && h.dst@.len() == 16);
    assert(b.subrange(8, 24) =~= h.src@);
    assert(b.subrange(24, 40) =~= h.dst@);
    lemma_v6_at(b, 8, h.src);
    lemma_v6_at(b, 24, h.dst);
    assert(b.subrange(40, 40 + rest.len() as int) =~= rest);
    assert(b[0] == (96 + h.class % 16) as u8);
}

#[verifier::spinoff_prover]
#[verifier::rlimit(40)]
pub(crate) proof fn lemma_v6_fragment(
    next: u8,
    spare: u8,
    units: u16,
    bits: u8,
    more: bool,
    ident: u32,
    data: Seq<u8>,
)
    requires
        units < 0x2000,
    ensures
        ({
            let b = v6_fragment(next, spare, units, bits, more, ident, data);
            &&& b.len() == 8 + data.len()
            &&& b[0] == next
            &&& be16(b, 2) / 8 == units
            &&& be16(b, 2) % 2 == 1 <==> more
            &&& be32(b, 4) == ident
            &&& b.skip(8) == data
        }),
{
    let b = v6_fragment(next, spare, units, bits, more, ident, data);
    assert(b.skip(8) =~= data);
    let m = if more {
        1int
    } else {
        0
    };
    let low = bits as int % 4 * 2 + m;
    assert(0 <= low < 8 && low % 2 == m);
    assert(units * 8 / 256 == units / 32);
    assert(b[2] == units / 32);
    assert(b[3] == units % 32 * 8 + low);
    assert(be16(b, 2) == units * 8 + low);
    assert((units * 8 + low) / 8 == units);
    assert((units * 8 + low) % 2 == m);
    lemma_four(b, 4, ident);
}

pub(crate) proof fn lemma_v6_extension(next: u8, body: Seq<u8>, rest: Seq<u8>)
    requires
        fit_body(body),
    ensures
        ({
            let b = v6_extension(next, body, rest);
            &&& b.len() == 2 + body.len() + rest.len()
            &&& b[0] == next
            &&& (b[1] + 1) * 8 == 2 + body.len()
            &&& b.skip(2 + body.len() as int) == rest
        }),
{
    let b = v6_extension(next, body, rest);
    assert(b.skip(2 + body.len() as int) =~= rest);
    assert(b[1] == (body.len() + 2) / 8 - 1);
}

/// An Ethernet frame: two addresses, the type, and the packet.
pub open spec fn eth_bytes(addresses: Seq<u8>, ethertype: int, packet: Seq<u8>) -> Seq<u8> {
    addresses + seq![byte_of(ethertype, 256), byte_of(ethertype, 1)] + packet
}

pub(crate) proof fn lemma_eth_bytes(addresses: Seq<u8>, ethertype: int, packet: Seq<u8>)
    requires
        addresses.len() == 12,
        0 <= ethertype <= 0xffff,
    ensures
        ({
            let b = eth_bytes(addresses, ethertype, packet);
            &&& b.len() == 14 + packet.len()
            &&& be16(b, 12) == ethertype
            &&& b.skip(14) == packet
        }),
{
    assert(eth_bytes(addresses, ethertype, packet).skip(14) =~= packet);
}

/// The TCP segment of a transport payload is what was written: its numbers, its flags and
/// its data, which no option is part of.
pub proof fn law_tcp_read_back(h: TcpHead, options: Seq<u8>, data: Seq<u8>)
    requires
        fit_options(options),
    ensures
        packet::tcp_segment(tcp_bytes(h, options, data)) == Some(
            packet::SegmentModel {
                src_port: h.sport,
                dst_port: h.dport,
                seq: h.seq,
                ack: h.ack,
                flags: h.flags,
                payload: data,
            },
        ),
{
    lemma_tcp_bytes(h, options, data);
}

/// The parser of captured frames reads the TCP segment that was written, with the six
/// flags that it knows.
pub proof fn law_frame_tcp_read_back(h: TcpHead, options: Seq<u8>, data: Seq<u8>)
    requires
        fit_options(options),
    ensures
        frame::tcp_parsed(tcp_bytes(h, options, data)) == Ok::<frame::SegmentModel, Seq<char>>(
            frame::SegmentModel {
                src_port: h.sport,
                dst_port: h.dport,
                seq: h.seq,
                ack: h.ack,
                flags: (h.flags % 64) as u8,
                window: h.window,
                data_offset: (20 + options.len()) as u8,
                payload: data,
            },
        ),
{
    lemma_tcp_bytes(h, options, data);
}

/// The parser of links finds the data of a TCP segment behind its options.
pub proof fn law_network_tcp_read_back(h: TcpHead, options: Seq<u8>, data: Seq<u8>)
    requires
        fit_options(options),
    ensures
        network::segment_in(tcp_bytes(h, options, data)) == Ok::<network::SegmentModel, Seq<char>>(
            network::SegmentModel {
                source_port: h.sport as int,
                destination_port: h.dport as int,
                sequence: h.seq as int,
                acknowledgment: h.ack as int,
                flags: h.flags,
                window: h.window as int,
                payload: data,
            },
        ),
{
    lemma_tcp_bytes(h, options, data);
}

/// The parser of packet captures finds the data of a TCP segment behind its options.
pub proof fn law_capture_tcp_read_back(h: TcpHead, options: Seq<u8>, data: Seq<u8>)
    requires
        fit_options(options),
    ensures
        parse::segment_in(tcp_bytes(h, options, data)) == Ok::<parse::SegmentModel, Seq<char>>(
            parse::SegmentModel {
                src_port: h.sport as int,
                dst_port: h.dport as int,
                seq: h.seq as int,
                ack: h.ack as int,
                flags: h.flags,
                window: h.window as int,
                payload: data,
            },
        ),
{
    lemma_tcp_bytes(h, options, data);
}

/// What is shorter than a TCP header, or than the header says it is, is no segment, and
/// nothing else is refused.
pub proof fn law_short_segment(b: Seq<u8>)
    ensures
        packet::tcp_segment(b) is None <==> b.len() < 20 || b[12] / 16 < 5 || b.len() < b[12] / 16 * 4,
{
}

/// What is shorter than a TCP header, or than the header says it is, is no segment, and
/// nothing else is refused.
pub proof fn law_frame_short_segment(b: Seq<u8>)
    ensures
        frame::tcp_parsed(b) is Err <==> b.len() < 20 || b[12] / 16 < 5 || b.len() < b[12] / 16 * 4,
{
}

/// What is shorter than a TCP header, or than the header says it is, is no segment, and
/// nothing else is refused.
pub proof fn law_network_short_segment(b: Seq<u8>)
    ensures
        network::segment_in(b) is Err <==> b.len() < 20 || b[12] / 16 < 5 || b.len() < b[12] / 16 * 4,
{
}

/// What is shorter than a TCP header, or than the header says it is, is no segment, and
/// nothing else is refused.
pub proof fn law_capture_short_segment(b: Seq<u8>)
    ensures
        parse::segment_in(b) is Err <==> b.len() < 20 || b[12] / 16 < 5 || b.len() < b[12] / 16 * 4,
{
}

/// An IPv4 packet is what was written: its addresses, its protocol and its data, without
/// options and without what pads the frame. Where it is a fragment, its place is counted
/// in bytes.
pub proof fn law_v4_read_back(h: V4Head, options: Seq<u8>, data: Seq<u8>, pad: Seq<u8>)
    requires
        fit_v4(h, options, data),
    ensures
        !h.more && h.units == 0 ==> packet::ipv4_packet(v4_bytes(h, options, data) + pad) == Some(
            packet::PacketModel::Direct {
                src: Ip::V4(h.src),
                dst: Ip::V4(h.dst),
                proto: h.proto,
                payload: data,
            },
        ),
        h.more || h.units > 0 ==> packet::ipv4_packet(v4_bytes(h, options, data) + pad) == Some(
            packet::PacketModel::Fragment(
                packet::FragModel {
                    src: Ip::V4(h.src),
                    dst: Ip::V4(h.dst),
                    proto: h.proto,
                    ident: h.ident as u32,
                    offset: h.units * 8,
                    more: h.more,
                    payload: data,
                },
            ),
        ),
{
    lemma_v4_bytes(h, options, data, pad);
}

/// To the parser of captured frames an IPv4 packet is what was written: its addresses, its protocol and its data, without
/// options and without what pads the frame. Where it is a fragment, its place is counted
/// in bytes.
pub proof fn law_frame_v4_read_back(h: V4Head, options: Seq<u8>, data: Seq<u8>, pad: Seq<u8>)
    requires
        fit_v4(h, options, data),
    ensures
        !h.more && h.units == 0 ==> frame::ipv4_parsed(v4_bytes(h, options, data) + pad) == Ok::<frame::ParsedModel, Seq<char>>(
            frame::ParsedModel::Complete {
                src: Ip::V4(h.src),
                dst: Ip::V4(h.dst),
                protocol: h.proto,
                payload: data,
            },
        ),
        h.more || h.units > 0 ==> frame::ipv4_parsed(v4_bytes(h, options, data) + pad) == Ok::<frame::ParsedModel, Seq<char>>(
            frame::ParsedModel::Fragment {
                src: Ip::V4(h.src),
                dst: Ip::V4(h.dst),
                protocol: h.proto,
                frag_id: h.ident as u32,
                offset: h.units * 8,
                more: h.more,
                data,
            },
        ),
{
    lemma_v4_bytes(h, options, data, pad);
}

/// To the parser of links an IPv4 packet is what was written: its addresses, its protocol and its data, without
/// options and without what pads the frame. Where it is a fragment, its place is counted
/// in bytes.
pub proof fn law_network_v4_read_back(h: V4Head, options: Seq<u8>, data: Seq<u8>, pad: Seq<u8>)
    requires
        fit_v4(h, options, data),
    ensures
        !h.more && h.units == 0 ==> network::ipv4_datagram(v4_bytes(h, options, data) + pad) == Ok::<network::DatagramModel, Seq<char>>(
            network::DatagramModel {
                source: Ip::V4(h.src),
                destination: Ip::V4(h.dst),
                protocol: h.proto,
                payload: data,
                fragment: None,
            },
        ),
        h.more || h.units > 0 ==> network::ipv4_datagram(v4_bytes(h, options, data) + pad) == Ok::<network::DatagramModel, Seq<char>>(
            network::DatagramModel {
                source: Ip::V4(h.src),
                destination: Ip::V4(h.dst),
                protocol: h.proto,
                payload: data,
                fragment: Some(
                    network::FragmentInfo {
                        identification: h.ident as u32,
                        offset: (h.units * 8) as usize,
                        more_fragments: h.more,
                    },
                ),
            },
        ),
{
    lemma_v4_bytes(h, options, data, pad);
}

/// To the parser of packet captures an IPv4 packet is what was written, without options
/// and without what pads the frame.
pub proof fn law_capture_v4_read_back(h: V4Head, options: Seq<u8>, data: Seq<u8>, pad: Seq<u8>)
    requires
        fit_v4(h, options, data),
    ensures
        parse::ipv4_packet(v4_bytes(h, options, data) + pad) == (parse::PacketModel::Ipv4 {
            src: Ip::V4(h.src),
            dst: Ip::V4(h.dst),
            protocol: h.proto,
            ident: h.ident as int,
            offset: h.units * 8,
            more: h.more,
            dont: h.dont,
            ttl: h.ttl,
            payload: data,
        }),
{
    lemma_v4_bytes(h, options, data, pad);
}

/// To the parser of wire frames an IPv4 packet is what was written: a fragment with its
/// place, a TCP segment with its data, or nothing of interest.
pub proof fn law_wire_v4_read_back(h: V4Head, options: Seq<u8>, data: Seq<u8>, pad: Seq<u8>)
    requires
        fit_v4(h, options, data),
        h.more || h.units > 0 || h.proto != 6,
    ensures
        h.more || h.units > 0 ==> (wire::ipv4_model(v4_bytes(h, options, data) + pad) matches Ok(
            wire::FrameModel::Fragment { ip, data: d },
        ) && {
            &&& d == data
            &&& ip.version == wire::IpVersion::V4
            &&& ip.src == Ip::V4(h.src)
            &&& ip.dst == Ip::V4(h.dst)
            &&& ip.protocol == h.proto
            &&& ip.id == h.ident
            &&& ip.fragment.offset == h.units * 8
            &&& ip.fragment.more_fragments == h.more
        }),
        !h.more && h.units == 0 ==> wire::ipv4_model(v4_bytes(h, options, data) + pad) == Ok::<
            wire::FrameModel,
            Seq<char>,
        >(wire::FrameModel::Ignored),
{
    lemma_v4_bytes(h, options, data, pad);
}

/// To the parser of wire frames a TCP segment in an IPv4 packet is what was written, and
/// no option of either header is part of its data.
pub proof fn law_wire_segment_read_back(
    h: V4Head,
    options: Seq<u8>,
    t: TcpHead,
    topts: Seq<u8>,
    data: Seq<u8>,
    pad: Seq<u8>,
)
    requires
        fit_options(topts),
        fit_v4(h, options, tcp_bytes(t, topts, data)),
        !h.more,
        h.units == 0,
        h.proto == 6,
    ensures
        wire::ipv4_model(v4_bytes(h, options, tcp_bytes(t, topts, data)) + pad) matches Ok(
            wire::FrameModel::Complete { ip, tcp: Some(m), payload },
        ) && {
            &&& payload == data
            &&& ip.src == Ip::V4(h.src)
            &&& ip.dst == Ip::V4(h.dst)
            &&& ip.protocol == 6
            &&& m.src_port == t.sport
            &&& m.dst_port == t.dport
            &&& m.seq == t.seq
            &&& m.ack == t.ack
            &&& m.window == t.window
            &&& m.flags.syn == (t.flags & 0x02 != 0)
            &&& m.flags.ack == (t.flags & 0x10 != 0)
            &&& m.flags.fin == (t.flags & 0x01 != 0)
            &&& m.flags.rst == (t.flags & 0x04 != 0)
            &&& m.flags.psh == (t.flags & 0x08 != 0)
        },
{
    lemma_v4_bytes(h, options, tcp_bytes(t, topts, data), pad);
    lemma_tcp_bytes(t, topts, data);
}

/// An IPv6 packet is what was written: its addresses, the protocol of what
/// follows, and the data, without what pads the frame.
pub proof fn law_v6_read_back(h: V6Head, next: u8, data: Seq<u8>, pad: Seq<u8>)
    requires
        data.len() <= 0xffff,
        next != 0 && next != 43 && next != 60 && next != 44,
    ensures
        packet::ipv6_packet(v6_bytes(h, next, data) + pad) == Some(
            packet::PacketModel::Direct {
                src: Ip::V6(h.src),
                dst: Ip::V6(h.dst),
                proto: next,
                payload: data,
            },
        ),
{
    lemma_v6_bytes(h, next, data, pad);
}

/// An IPv6 fragment is what was written, its place counted in bytes.
pub proof fn law_v6_fragment_read_back(
    h: V6Head,
    next: u8,
    spare: u8,
    units: u16,
    bits: u8,
    more: bool,
    ident: u32,
    data: Seq<u8>,
    pad: Seq<u8>,
)
    requires
        data.len() + 8 <= 0xffff,
        units < 0x2000,
    ensures
        ({
            let f = v6_fragment(next, spare, units, bits, more, ident, data);
            packet::ipv6_packet(v6_bytes(h, 44, f) + pad) == Some(
                packet::PacketModel::Fragment(
                    packet::FragModel {
                        src: Ip::V6(h.src),
                        dst: Ip::V6(h.dst),
                        proto: next,
                        ident,
                        offset: units * 8,
                        more,
                        payload: data,
                    },
                ),
            )
        }),
{
    let f = v6_fragment(next, spare, units, bits, more, ident, data);
    let b = v6_bytes(h, 44, f) + pad;
    lemma_v6_bytes(h, 44, f, pad);
    lemma_v6_fragment(next, spare, units, bits, more, ident, data);
    assert(f == b.subrange(40, 40 + f.len() as int));
    assert(b[40] == f[0] && b[42] == f[2] && b[43] == f[3]);
    assert(b[44] == f[4] && b[45] == f[5] && b[46] == f[6] && b[47] == f[7]);
    assert(b.subrange(48, 40 + f.len() as int) =~= f.skip(8));
}

proof fn lemma_shift(a: Seq<u8>, b: Seq<u8>, next: u8, oa: int, ob: int, ea: int, eb: int)
    requires
        0 <= oa <= ea <= a.len(),
        0 <= ob <= eb <= b.len(),
        a.subrange(oa, ea) == b.subrange(ob, eb),
        v6_at(a, 8) == v6_at(b, 8),
        v6_at(a, 24) == v6_at(b, 24),
    ensures
        packet::ipv6_rest(a, next, oa, ea) == packet::ipv6_rest(b, next, ob, eb),
    decreases ea - oa,
{
    let (x, y) = (a.subrange(oa, ea), b.subrange(ob, eb));
    assert(x.len() == ea - oa && y.len() == eb - ob);
    if oa + 2 <= ea {
        assert(x[0] == a[oa] && y[0] == b[ob]);
        assert(x[1] == a[oa + 1] && y[1] == b[ob + 1]);
        let l = (a[oa + 1] + 1) * 8;
        if 0 < l && oa + l <= ea {
            assert(x.subrange(l, ea - oa) =~= a.subrange(oa + l, ea));
            assert(y.subrange(l, eb - ob) =~= b.subrange(ob + l, eb));
            lemma_shift(a, b, a[oa], oa + l, ob + l, ea, eb);
        }
    }
    if oa + 8 <= ea {
        assert(x[2] == a[oa + 2] && y[2] == b[ob + 2]);
        assert(x[3] == a[oa + 3] && y[3] == b[ob + 3]);
        assert(x[4] == a[oa + 4] && y[4] == b[ob + 4]);
        assert(x[5] == a[oa + 5] && y[5] == b[ob + 5]);
        assert(x[6] == a[oa + 6] && y[6] == b[ob + 6]);
        assert(x[7] == a[oa + 7] && y[7] == b[ob + 7]);
        assert(x.subrange(8, ea - oa) =~= a.subrange(oa + 8, ea));
        assert(y.subrange(8, eb - ob) =~= b.subrange(ob + 8, eb));
    }
}

/// An extension header changes nothing of an IPv6 packet: the packet with one in front
/// of what follows is the packet without it.
#[verifier::spinoff_prover]
#[verifier::rlimit(40)]
pub proof fn law_v6_extension_is_passed(
    h: V6Head,
    kind: u8,
    next: u8,
    body: Seq<u8>,
    rest: Seq<u8>,
    pad: Seq<u8>,
)
    requires
        kind == 0 || kind == 43 || kind == 60,
        fit_body(body),
        2 + body.len() + rest.len() <= 0xffff,
    ensures
        packet::ipv6_packet(v6_bytes(h, kind, v6_extension(next, body, rest)) + pad) == packet::ipv6_packet(
            v6_bytes(h, next, rest) + pad,
        ),
{
    let x = v6_extension(next, body, rest);
    let a = v6_bytes(h, kind, x) + pad;
    let b = v6_bytes(h, next, rest) + pad;
    lemma_v6_bytes(h, kind, x, pad);
    lemma_v6_bytes(h, next, rest, pad);
    lemma_v6_extension(next, body, rest);
    let l = 2 + body.len() as int;
    let ea = 40 + x.len() as int;
    let eb = 40 + rest.len() as int;
    assert(x == a.subrange(40, ea));
    assert(a[40] == x[0] && a[41] == x[1]);
    assert(a.subrange(40 + l, ea) =~= x.skip(l));
    lemma_shift(a, b, next, 40 + l, 40, ea, eb);
}

/// To the parser of captured frames an IPv6 packet is what was written: its addresses, the protocol of what
/// follows, and the data, without what pads the frame.
pub proof fn law_frame_v6_read_back(h: V6Head, next: u8, data: Seq<u8>, pad: Seq<u8>)
    requires
        data.len() <= 0xffff,
        next != 0 && next != 41 && next != 43 && next != 44 && next != 60 && next != 135 && next
            != 139 && next != 140,
    ensures
        frame::ipv6_parsed(v6_bytes(h, next, data) + pad) == Ok::<frame::ParsedModel, Seq<char>>(
            frame::ParsedModel::Complete {
                src: Ip::V6(h.src),
                dst: Ip::V6(h.dst),
                protocol: next,
                payload: data,
            },
        ),
{
    lemma_v6_bytes(h, next, data, pad);
}

/// To the parser of captured frames an IPv6 fragment is what was written, its place counted in bytes.
pub proof fn law_frame_v6_fragment_read_back(
    h: V6Head,
    next: u8,
    spare: u8,
    units: u16,
    bits: u8,
    more: bool,
    ident: u32,
    data: Seq<u8>,
    pad: Seq<u8>,
)
    requires
        data.len() + 8 <= 0xffff,
        units < 0x2000,
    ensures
        ({
            let f = v6_fragment(next, spare, units, bits, more, ident, data);
            frame::ipv6_parsed(v6_bytes(h, 44, f) + pad) == Ok::<frame::ParsedModel, Seq<char>>(
                frame::ParsedModel::Fragment {
                    src: Ip::V6(h.src),
                    dst: Ip::V6(h.dst),
                    protocol: next,
                    frag_id: ident,
                    offset: units * 8,
                    more,
                    data,
                },
            )
        }),
{
    let f = v6_fragment(next, spare, units, bits, more, ident, data);
    let b = v6_bytes(h, 44, f) + pad;
    lemma_v6_bytes(h, 44, f, pad);
    lemma_v6_fragment(next, spare, units, bits, more, ident, data);
    assert(f == b.subrange(40, 40 + f.len() as int));
    assert(b[40] == f[0] && b[42] == f[2] && b[43] == f[3]);
    assert(b[44] == f[4] && b[45] == f[5] && b[46] == f[6] && b[47] == f[7]);
    assert(b.subrange(48, 40 + f.len() as int) =~= f.skip(8));
}

proof fn lemma_frame_shift(a: Seq<u8>, b: Seq<u8>, next: u8, oa: int, ob: int, ea: int, eb: int)
    requires
        0 <= oa <= ea <= a.len(),
        0 <= ob <= eb <= b.len(),
        a.subrange(oa, ea) == b.subrange(ob, eb),
        v6_at(a, 8) == v6_at(b, 8),
        v6_at(a, 24) == v6_at(b, 24),
    ensures
        frame::ipv6_rest(a, next, oa, ea) == frame::ipv6_rest(b, next, ob, eb),
    decreases ea - oa,
{
    let (x, y) = (a.subrange(oa, ea), b.subrange(ob, eb));
    assert(x.len() == ea - oa && y.len() == eb - ob);
    if oa + 2 <= ea {
        assert(x[0] == a[oa] && y[0] == b[ob]);
        assert(x[1] == a[oa + 1] && y[1] == b[ob + 1]);
        let l = (a[oa + 1] + 1) * 8;
        if 0 < l && oa + l <= ea {
            assert(x.subrange(l, ea - oa) =~= a.subrange(oa + l, ea));
            assert(y.subrange(l, eb - ob) =~= b.subrange(ob + l, eb));
            lemma_frame_shift(a, b, a[oa], oa + l, ob + l, ea, eb);
        }
    }
    if oa + 8 <= ea {
        assert(x[2] == a[oa + 2] && y[2] == b[ob + 2]);
        assert(x[3] == a[oa + 3] && y[3] == b[ob + 3]);
        assert(x[4] == a[oa + 4] && y[4] == b[ob + 4]);
        assert(x[5] == a[oa + 5] && y[5] == b[ob + 5]);
        assert(x[6] == a[oa + 6] && y[6] == b[ob + 6]);
        assert(x[7] == a[oa + 7] && y[7] == b[ob + 7]);
        assert(x.subrange(8, ea - oa) =~= a.subrange(oa + 8, ea));
        assert(y.subrange(8, eb - ob) =~= b.subrange(ob + 8, eb));
    }
}

/// To the parser of captured frames an extension header changes nothing of an IPv6 packet: the packet with one in front
/// of what follows is the packet without it.
#[verifier::spinoff_prover]
#[verifier::rlimit(40)]
pub proof fn law_frame_v6_extension_is_passed(
    h: V6Head,
    kind: u8,
    next: u8,
    body: Seq<u8>,
    rest: Seq<u8>,
    pad: Seq<u8>,
)
    requires
        kind == 0 || kind == 43 || kind == 60,
        fit_body(body),
        2 + body.len() + rest.len() <= 0xffff,
    ensures
        frame::ipv6_parsed(v6_bytes(h, kind, v6_extension(next, body, rest)) + pad) == frame::ipv6_parsed(
            v6_bytes(h, next, rest) + pad,
        ),
{
    let x = v6_extension(next, body, rest);
    let a = v6_bytes(h, kind, x) + pad;
    let b = v6_bytes(h, next, rest) + pad;
    lemma_v6_bytes(h, kind, x, pad);
    lemma_v6_bytes(h, next, rest, pad);
    lemma_v6_extension(next, body, rest);
    let l = 2 + body.len() as int;
    let ea = 40 + x.len() as int;
    let eb = 40 + rest.len() as int;
    assert(x == a.subrange(40, ea));
    assert(a[40] == x[0] && a[41] == x[1]);
    assert(a.subrange(40 + l, ea) =~= x.skip(l));
    lemma_frame_shift(a, b, next, 40 + l, 40, ea, eb);
}

/// To the parser of links an IPv6 packet is what was written: its addresses, the protocol of what
/// follows, and the data, without what pads the frame.
pub proof fn law_network_v6_read_back(h: V6Head, next: u8, data: Seq<u8>, pad: Seq<u8>)
    requires
        data.len() <= 0xffff,
        next != 0 && next != 43 && next != 60 && next != 44 && next != 51,
    ensures
        network::ipv6_datagram(v6_bytes(h, next, data) + pad) == Ok::<network::DatagramModel, Seq<char>>(
            network::DatagramModel {
                source: Ip::V6(h.src),
                destination: Ip::V6(h.dst),
                protocol: next,
                payload: data,
                fragment: None,
            },
        ),
{
    lemma_v6_bytes(h, next, data, pad);
}

/// To the parser of links an IPv6 fragment is what was written, its place counted in bytes.
pub proof fn law_network_v6_fragment_read_back(
    h: V6Head,
    next: u8,
    spare: u8,
    units: u16,
    bits: u8,
    more: bool,
    ident: u32,
    data: Seq<u8>,
    pad: Seq<u8>,
)
    requires
        data.len() + 8 <= 0xffff,
        units < 0x2000,
    ensures
        ({
            let f = v6_fragment(next, spare, units, bits, more, ident, data);
            network::ipv6_datagram(v6_bytes(h, 44, f) + pad) == Ok::<network::DatagramModel, Seq<char>>(
            network::DatagramModel {
                source: Ip::V6(h.src),
                destination: Ip::V6(h.dst),
                protocol: next,
                payload: data,
                fragment: if more || units > 0 {
                    Some(
                        network::FragmentInfo {
                            identification: ident,
                            offset: (units * 8) as usize,
                            more_fragments: more,
                        },
                    )
                } else {
                    None
                },
            },
        )
        }),
{
    let f = v6_fragment(next, spare, units, bits, more, ident, data);
    let b = v6_bytes(h, 44, f) + pad;
    lemma_v6_bytes(h, 44, f, pad);
    lemma_v6_fragment(next, spare, units, bits, more, ident, data);
    assert(f == b.subrange(40, 40 + f.len() as int));
    assert(b[40] == f[0] && b[42] == f[2] && b[43] == f[3]);
    assert(b[44] == f[4] && b[45] == f[5] && b[46] == f[6] && b[47] == f[7]);
    assert(b.subrange(48, 40 + f.len() as int) =~= f.skip(8));
}

proof fn lemma_network_shift(a: Seq<u8>, b: Seq<u8>, next: u8, oa: int, ob: int, ea: int, eb: int)
    requires
        0 <= oa <= ea <= a.len(),
        0 <= ob <= eb <= b.len(),
        a.subrange(oa, ea) == b.subrange(ob, eb),
        v6_at(a, 8) == v6_at(b, 8),
        v6_at(a, 24) == v6_at(b, 24),
    ensures
        network::ipv6_rest(a, next, oa, ea) == network::ipv6_rest(b, next, ob, eb),
    decreases ea - oa,
{
    let (x, y) = (a.subrange(oa, ea), b.subrange(ob, eb));
    assert(x.len() == ea - oa && y.len() == eb - ob);
    if oa + 2 <= ea {
        assert(x[0] == a[oa] && y[0] == b[ob]);
        assert(x[1] == a[oa + 1] && y[1] == b[ob + 1]);
        let l = if next == 51 {
            a[oa + 1] * 4 + 2
        } else {
            (a[oa + 1] + 1) * 8
        };
        if 0 < l && oa + l <= ea {
            assert(x.subrange(l, ea - oa) =~= a.subrange(oa + l, ea));
            assert(y.subrange(l, eb - ob) =~= b.subrange(ob + l, eb));
            lemma_network_shift(a, b, a[oa], oa + l, ob + l, ea, eb);
        }
    }
    if oa + 8 <= ea {
        assert(x[2] == a[oa + 2] && y[2] == b[ob + 2]);
        assert(x[3] == a[oa + 3] && y[3] == b[ob + 3]);
        assert(x[4] == a[oa + 4] && y[4] == b[ob + 4]);
        assert(x[5] == a[oa + 5] && y[5] == b[ob + 5]);
        assert(x[6] == a[oa + 6] && y[6] == b[ob + 6]);
        assert(x[7] == a[oa + 7] && y[7] == b[ob + 7]);
        assert(x.subrange(8, ea - oa) =~= a.subrange(oa + 8, ea));
        assert(y.subrange(8, eb - ob) =~= b.subrange(ob + 8, eb));
    }
}

/// To the parser of links an extension header changes nothing of an IPv6 packet: the packet with one in front
/// of what follows is the packet without it.
#[verifier::spinoff_prover]
#[verifier::rlimit(40)]
pub proof fn law_network_v6_extension_is_passed(
    h: V6Head,
    kind: u8,
    next: u8,
    body: Seq<u8>,
    rest: Seq<u8>,
    pad: Seq<u8>,
)
    requires
        kind == 0 || kind == 43 || kind == 60,
        fit_body(body),
        2 + body.len() + rest.len() <= 0xffff,
    ensures
        network::ipv6_datagram(v6_bytes(h, kind, v6_extension(next, body, rest)) + pad) == network::ipv6_datagram(
            v6_bytes(h, next, rest) + pad,
        ),
{
    let x = v6_extension(next, body, rest);
    let a = v6_bytes(h, kind, x) + pad;
    let b = v6_bytes(h, next, rest) + pad;
    lemma_v6_bytes(h, kind, x, pad);
    lemma_v6_bytes(h, next, rest, pad);
    lemma_v6_extension(next, body, rest);
    let l = 2 + body.len() as int;
    let ea = 40 + x.len() as int;
    let eb = 40 + rest.len() as int;
    assert(x == a.subrange(40, ea));
    assert(a[40] == x[0] && a[41] == x[1]);
    assert(a.subrange(40 + l, ea) =~= x.skip(l));
    lemma_network_shift(a, b, next, 40 + l, 40, ea, eb);
}

/// To the parser of packet captures an IPv6 packet is what was written: its addresses, the protocol of what
/// follows, and the data, without what pads the frame.
pub proof fn law_capture_v6_read_back(h: V6Head, next: u8, data: Seq<u8>, pad: Seq<u8>)
    requires
        data.len() <= 0xffff,
        next != 0 && next != 43 && next != 60 && next != 44 && next != 51,
    ensures
        parse::ipv6_packet(v6_bytes(h, next, data) + pad) == (
            parse::PacketModel::Ipv6 {
                src: Ip::V6(h.src),
                dst: Ip::V6(h.dst),
                next_header: next,
                payload: data,
                fragmented: false,
            }
        ),
{
    lemma_v6_bytes(h, next, data, pad);
}

/// To the parser of packet captures an IPv6 fragment is what was written, its place counted in bytes.
pub proof fn law_capture_v6_fragment_read_back(
    h: V6Head,
    next: u8,
    spare: u8,
    units: u16,
    bits: u8,
    more: bool,
    ident: u32,
    data: Seq<u8>,
    pad: Seq<u8>,
)
    requires
        data.len() + 8 <= 0xffff,
        units < 0x2000,
    ensures
        ({
            let f = v6_fragment(next, spare, units, bits, more, ident, data);
            parse::ipv6_packet(v6_bytes(h, 44, f) + pad) == (parse::PacketModel::Ipv6 {
                src: Ip::V6(h.src),
                dst: Ip::V6(h.dst),
                next_header: next,
                payload: data,
                fragmented: true,
            })
        }),
{
    let f = v6_fragment(next, spare, units, bits, more, ident, data);
    let b = v6_bytes(h, 44, f) + pad;
    lemma_v6_bytes(h, 44, f, pad);
    lemma_v6_fragment(next, spare, units, bits, more, ident, data);
    assert(f == b.subrange(40, 40 + f.len() as int));
    assert(b[40] == f[0] && b[42] == f[2] && b[43] == f[3]);
    assert(b[44] == f[4] && b[45] == f[5] && b[46] == f[6] && b[47] == f[7]);
    assert(b.subrange(48, 40 + f.len() as int) =~= f.skip(8));
}

proof fn lemma_capture_shift(a: Seq<u8>, b: Seq<u8>, next: u8, oa: int, ob: int, ea: int, eb: int)
    requires
        0 <= oa <= ea <= a.len(),
        0 <= ob <= eb <= b.len(),
        a.subrange(oa, ea) == b.subrange(ob, eb),
        v6_at(a, 8) == v6_at(b, 8),
        v6_at(a, 24) == v6_at(b, 24),
    ensures
        parse::ipv6_rest(a, next, oa, ea) == parse::ipv6_rest(b, next, ob, eb),
    decreases ea - oa,
{
    let (x, y) = (a.subrange(oa, ea), b.subrange(ob, eb));
    assert(x.len() == ea - oa && y.len() == eb - ob);
    if oa + 2 <= ea {
        assert(x[0] == a[oa] && y[0] == b[ob]);
        assert(x[1] == a[oa + 1] && y[1] == b[ob + 1]);
        let l = if next == 51 {
            (a[oa + 1] + 2) * 4
        } else {
            (a[oa + 1] + 1) * 8
        };
        if 0 < l && oa + l <= ea {
            assert(x.subrange(l, ea - oa) =~= a.subrange(oa + l, ea));
            assert(y.subrange(l, eb - ob) =~= b.subrange(ob + l, eb));
            lemma_capture_shift(a, b, a[oa], oa + l, ob + l, ea, eb);
        }
    }
    if oa + 8 <= ea {
        assert(x[2] == a[oa + 2] && y[2] == b[ob + 2]);
        assert(x[3] == a[oa + 3] && y[3] == b[ob + 3]);
        assert(x[4] == a[oa + 4] && y[4] == b[ob + 4]);
        assert(x[5] == a[oa + 5] && y[5] == b[ob + 5]);
        assert(x[6] == a[oa + 6] && y[6] == b[ob + 6]);
        assert(x[7] == a[oa + 7] && y[7] == b[ob + 7]);
        assert(x.subrange(8, ea - oa) =~= a.subrange(oa + 8, ea));
        assert(y.subrange(8, eb - ob) =~= b.subrange(ob + 8, eb));
    }
}

/// To the parser of packet captures an extension header changes nothing of an IPv6 packet: the packet with one in front
/// of what follows is the packet without it.
#[verifier::spinoff_prover]
#[verifier::rlimit(40)]
pub proof fn law_capture_v6_extension_is_passed(
    h: V6Head,
    kind: u8,
    next: u8,
    body: Seq<u8>,
    rest: Seq<u8>,
    pad: Seq<u8>,
)
    requires
        kind == 0 || kind == 43 || kind == 60,
        fit_body(body),
        2 + body.len() + rest.len() <= 0xffff,
    ensures
        parse::ipv6_packet(v6_bytes(h, kind, v6_extension(next, body, rest)) + pad) == parse::ipv6_packet(
            v6_bytes(h, next, rest) + pad,
        ),
{
    let x = v6_extension(next, body, rest);
    let a = v6_bytes(h, kind, x) + pad;
    let b = v6_bytes(h, next, rest) + pad;
    lemma_v6_bytes(h, kind, x, pad);
    lemma_v6_bytes(h, next, rest, pad);
    lemma_v6_extension(next, body, rest);
    let l = 2 + body.len() as int;
    let ea = 40 + x.len() as int;
    let eb = 40 + rest.len() as int;
    assert(x == a.subrange(40, ea));
    assert(a[40] == x[0] && a[41] == x[1]);
    assert(a.subrange(40 + l, ea) =~= x.skip(l));
    lemma_capture_shift(a, b, next, 40 + l, 40, ea, eb);
}

/// An Ethernet frame of either protocol is the packet that it carries.
pub proof fn law_ethernet_carries(addresses: Seq<u8>, packet: Seq<u8>)
    requires
        addresses.len() == 12,
    ensures
        packet::frame_packet(eth_bytes(addresses, 0x0800, packet)) == packet::ipv4_packet(packet),
        packet::frame_packet(eth_bytes(addresses, 0x86dd, packet)) == packet::ipv6_packet(packet),
        frame::frame_parsed(eth_bytes(addresses, 0x0800, packet), LinkKind::Ethernet)
            == frame::ipv4_parsed(packet),
        frame::frame_parsed(eth_bytes(addresses, 0x86dd, packet), LinkKind::Ethernet)
            == frame::ipv6_parsed(packet),
        network::link_datagram(eth_bytes(addresses, 0x0800, packet), 1) == network::ipv4_datagram(
            packet,
        ),
        network::link_datagram(eth_bytes(addresses, 0x86dd, packet), 1) == network::ipv6_datagram(
            packet,
        ),
        wire::frame_model(eth_bytes(addresses, 0x0800, packet), 1) == wire::ipv4_model(packet),
        wire::frame_model(eth_bytes(addresses, 0x86dd, packet), 1) == wire::ipv6_model(packet),
        parse::link_packet(eth_bytes(addresses, 0x0800, packet)) == parse::ipv4_packet(packet),
        parse::link_packet(eth_bytes(addresses, 0x86dd, packet)) == parse::ipv6_packet(packet),
{
    lemma_eth_bytes(addresses, 0x0800, packet);
    lemma_eth_bytes(addresses, 0x86dd, packet);
}

/// A frame of any other type carries no packet.
pub proof fn law_other_types_carry_none(addresses: Seq<u8>, ethertype: int, packet: Seq<u8>)
    requires
        addresses.len() == 12,
        0 <= ethertype <= 0xffff,
        ethertype != 0x0800,
        ethertype != 0x86dd,
        ethertype != 0x8100,
        ethertype != 0x88a8,
        ethertype != 0x9100,
    ensures
        packet::frame_packet(eth_bytes(addresses, ethertype, packet)) is None,
        frame::frame_parsed(eth_bytes(addresses, ethertype, packet), LinkKind::Ethernet) matches Ok(
            frame::ParsedModel::Ignored(_),
        ),
        network::link_datagram(eth_bytes(addresses, ethertype, packet), 1) is Err,
        wire::frame_model(eth_bytes(addresses, ethertype, packet), 1) is Err,
        parse::link_packet(eth_bytes(addresses, ethertype, packet)) == parse::PacketModel::Other(
            ethertype,
        ),
{
    lemma_eth_bytes(addresses, ethertype, packet);
}

/// A packet without a link header is told by its version.
pub proof fn law_raw_link_carries(packet: Seq<u8>)
    ensures
        frame::frame_parsed(packet, LinkKind::Ipv4Raw) == frame::ipv4_parsed(packet),
        frame::frame_parsed(packet, LinkKind::Ipv6Raw) == frame::ipv6_parsed(packet),
        packet.len() > 0 && packet[0] / 16 == 4 ==> {
            &&& frame::frame_parsed(packet, LinkKind::Raw) == frame::ipv4_parsed(packet)
            &&& network::link_datagram(packet, 101) == network::ipv4_datagram(packet)
            &&& wire::frame_model(packet, 101) == wire::ipv4_model(packet)
        },
        packet.len() > 0 && packet[0] / 16 == 6 ==> {
            &&& frame::frame_parsed(packet, LinkKind::Raw) == frame::ipv6_parsed(packet)
            &&& network::link_datagram(packet, 101) == network::ipv6_datagram(packet)
            &&& wire::frame_model(packet, 101) == wire::ipv6_model(packet)
        },
{
    assert(packet.skip(0) =~= packet);
}

/// The header of a cooked capture carries the packet that its protocol names.
pub proof fn law_cooked_link_carries(head: Seq<u8>, packet: Seq<u8>)
    requires
        head.len() == 14,
    ensures
        ({
            let four = head + seq![8u8, 0u8] + packet;
            let six = head + seq![0x86u8, 0xddu8] + packet;
            &&& frame::frame_parsed(four, LinkKind::LinuxSll) == frame::ipv4_parsed(packet)
            &&& frame::frame_parsed(six, LinkKind::LinuxSll) == frame::ipv6_parsed(packet)
            &&& network::link_datagram(four, 113) == network::ipv4_datagram(packet)
            &&& network::link_datagram(six, 113) == network::ipv6_datagram(packet)
            &&& wire::frame_model(four, 113) == wire::ipv4_model(packet)
            &&& wire::frame_model(six, 113) == wire::ipv6_model(packet)
        }),
{
    let four = head + seq![8u8, 0u8] + packet;
    let six = head + seq![0x86u8, 0xddu8] + packet;
    assert(four.skip(16) =~= packet);
    assert(six.skip(16) =~= packet);
    assert(four[14] == 8 && four[15] == 0);
    assert(six[14] == 0x86 && six[15] == 0xdd);
}

/// The header of a loopback capture names the family of the packet in the byte order of
/// the machine that made it, whichever that is.
pub proof fn law_loopback_link_carries(family: u8, packet: Seq<u8>)
    ensures
        ({
            let one = seq![0u8, 0u8, 0u8, family] + packet;
            let other = seq![family, 0u8, 0u8, 0u8] + packet;
            &&& family == 2 ==> {
                &&& frame::frame_parsed(one, LinkKind::Null) == frame::ipv4_parsed(packet)
                &&& frame::frame_parsed(other, LinkKind::Null) == frame::ipv4_parsed(packet)
                &&& network::link_datagram(one, 0) == network::ipv4_datagram(packet)
                &&& network::link_datagram(other, 0) == network::ipv4_datagram(packet)
            }
            &&& family == 30 ==> {
                &&& frame::frame_parsed(one, LinkKind::Null) == frame::ipv6_parsed(packet)
                &&& frame::frame_parsed(other, LinkKind::Null) == frame::ipv6_parsed(packet)
                &&& network::link_datagram(one, 0) == network::ipv6_datagram(packet)
                &&& network::link_datagram(other, 0) == network::ipv6_datagram(packet)
            }
            &&& family == 28 ==> {
                &&& frame::frame_parsed(one, LinkKind::Null) == frame::ipv6_parsed(packet)
                &&& frame::frame_parsed(other, LinkKind::Null) == frame::ipv6_parsed(packet)
            }
            &&& family == 10 ==> {
                &&& network::link_datagram(one, 0) == network::ipv6_datagram(packet)
                &&& network::link_datagram(other, 0) == network::ipv6_datagram(packet)
            }
            &&& family != 2 && family != 30 && family != 28 ==> frame::frame_parsed(
                one,
                LinkKind::Null,
            ) is Err && frame::frame_parsed(other, LinkKind::Null) is Err
            &&& family != 2 && family != 30 && family != 10 ==> network::link_datagram(one, 0) is Err
                && network::link_datagram(other, 0) is Err
        }),
{
    let one = seq![0u8, 0u8, 0u8, family] + packet;
    let other = seq![family, 0u8, 0u8, 0u8] + packet;
    assert(one.skip(4) =~= packet);
    assert(other.skip(4) =~= packet);
    assert(be32(one, 0) == family && le32(other, 0) == family);
    assert(le32(one, 0) == family * 0x1000000 && be32(other, 0) == family * 0x1000000);
}

/// A frame of an EtherType behind one VLAN tag.
pub open spec fn tagged_bytes(
    addresses: Seq<u8>,
    tag: int,
    control: u16,
    ethertype: int,
    packet: Seq<u8>,
) -> Seq<u8> {
    eth_bytes(
        addresses,
        tag,
        seq![
            byte_of(control as int, 256),
            byte_of(control as int, 1),
            byte_of(ethertype, 256),
            byte_of(ethertype, 1),
        ] + packet,
    )
}

/// A tagged frame is the packet that it carries, whatever the tag says.
pub proof fn law_tagged_carries(addresses: Seq<u8>, tag: int, control: u16, packet: Seq<u8>)
    requires
        addresses.len() == 12,
        tag == 0x8100 || tag == 0x88a8 || tag == 0x9100,
    ensures
        ({
            let four = tagged_bytes(addresses, tag, control, 0x0800, packet);
            let six = tagged_bytes(addresses, tag, control, 0x86dd, packet);
            &&& packet::frame_packet(four) == packet::ipv4_packet(packet)
            &&& packet::frame_packet(six) == packet::ipv6_packet(packet)
            &&& frame::frame_parsed(four, LinkKind::Ethernet) == frame::ipv4_parsed(packet)
            &&& frame::frame_parsed(six, LinkKind::Ethernet) == frame::ipv6_parsed(packet)
            &&& network::link_datagram(four, 1) == network::ipv4_datagram(packet)
            &&& network::link_datagram(six, 1) == network::ipv6_datagram(packet)
            &&& tag != 0x9100 ==> {
                &&& parse::link_packet(four) == parse::ipv4_packet(packet)
                &&& parse::link_packet(six) == parse::ipv6_packet(packet)
            }
            &&& tag == 0x8100 ==> {
                &&& wire::frame_model(four, 1) == wire::ipv4_model(packet)
                &&& wire::frame_model(six, 1) == wire::ipv6_model(packet)
            }
        }),
{
    lemma_packet_tagged(addresses, tag, control, packet);
    lemma_frame_tagged(addresses, tag, control, packet);
    lemma_network_tagged(addresses, tag, control, packet);
    if tag != 0x9100 {
        lemma_capture_tagged(addresses, tag, control, packet);
    }
    if tag == 0x8100 {
        lemma_wire_tagged(addresses, tag, control, packet);
    }
}

proof fn lemma_tagged(addresses: Seq<u8>, tag: int, control: u16, ethertype: int, packet: Seq<u8>)
    requires
        addresses.len() == 12,
        0 <= tag <= 0xffff,
        ethertype == 0x0800 || ethertype == 0x86dd,
    ensures
        ({
            let f = tagged_bytes(addresses, tag, control, ethertype, packet);
            &&& f.len() == 18 + packet.len()
            &&& be16(f, 12) == tag
            &&& be16(f, 16) == ethertype
            &&& f.skip(18) == packet
            &&& f.skip(14).len() == 4 + packet.len()
            &&& be16(f.skip(14), 2) == ethertype
            &&& f.skip(14).skip(4) == packet
        }),
{
    let inner = seq![
        byte_of(control as int, 256),
        byte_of(control as int, 1),
        byte_of(ethertype, 256),
        byte_of(ethertype, 1),
    ] + packet;
    let f = tagged_bytes(addresses, tag, control, ethertype, packet);
    lemma_eth_bytes(addresses, tag, inner);
    assert(f.skip(14) == inner);
    assert(inner.skip(4) =~= packet);
    assert(f.skip(18) =~= packet);
    assert(f[16] == byte_of(ethertype, 256) && f[17] == byte_of(ethertype, 1));
    assert(inner[2] == byte_of(ethertype, 256) && inner[3] == byte_of(ethertype, 1));
}

proof fn lemma_packet_tagged(addresses: Seq<u8>, tag: int, control: u16, packet: Seq<u8>)
    requires
        addresses.len() == 12,
        tag == 0x8100 || tag == 0x88a8 || tag == 0x9100,
    ensures
        packet::frame_packet(tagged_bytes(addresses, tag, control, 0x0800, packet)) == packet::ipv4_packet(packet),
        packet::frame_packet(tagged_bytes(addresses, tag, control, 0x86dd, packet)) == packet::ipv6_packet(packet),
{
    reveal_with_fuel(packet::untagged, 3);
    lemma_tagged(addresses, tag, control, 0x0800, packet);
    lemma_tagged(addresses, tag, control, 0x86dd, packet);
}

proof fn lemma_frame_tagged(addresses: Seq<u8>, tag: int, control: u16, packet: Seq<u8>)
    requires
        addresses.len() == 12,
        tag == 0x8100 || tag == 0x88a8 || tag == 0x9100,
    ensures
        frame::frame_parsed(tagged_bytes(addresses, tag, control, 0x0800, packet), LinkKind::Ethernet) == frame::ipv4_parsed(packet),
        frame::frame_parsed(tagged_bytes(addresses, tag, control, 0x86dd, packet), LinkKind::Ethernet) == frame::ipv6_parsed(packet),
{
    reveal_with_fuel(frame::untagged, 3);
    lemma_tagged(addresses, tag, control, 0x0800, packet);
    lemma_tagged(addresses, tag, control, 0x86dd, packet);
}

proof fn lemma_network_tagged(addresses: Seq<u8>, tag: int, control: u16, packet: Seq<u8>)
    requires
        addresses.len() == 12,
        tag == 0x8100 || tag == 0x88a8 || tag == 0x9100,
    ensures
        network::link_datagram(tagged_bytes(addresses, tag, control, 0x0800, packet), 1) == network::ipv4_datagram(packet),
        network::link_datagram(tagged_bytes(addresses, tag, control, 0x86dd, packet), 1) == network::ipv6_datagram(packet),
{
    reveal_with_fuel(network::ethernet_rest, 3);
    lemma_tagged(addresses, tag, control, 0x0800, packet);
    lemma_tagged(addresses, tag, control, 0x86dd, packet);
}

proof fn lemma_capture_tagged(addresses: Seq<u8>, tag: int, control: u16, packet: Seq<u8>)
    requires
        addresses.len() == 12,
        tag != 0x9100,
        tag == 0x8100 || tag == 0x88a8 || tag == 0x9100,
    ensures
        parse::link_packet(tagged_bytes(addresses, tag, control, 0x0800, packet)) == parse::ipv4_packet(packet),
        parse::link_packet(tagged_bytes(addresses, tag, control, 0x86dd, packet)) == parse::ipv6_packet(packet),
{
    reveal_with_fuel(parse::tagged, 3);
    lemma_tagged(addresses, tag, control, 0x0800, packet);
    lemma_tagged(addresses, tag, control, 0x86dd, packet);
}

proof fn lemma_wire_tagged(addresses: Seq<u8>, tag: int, control: u16, packet: Seq<u8>)
    requires
        addresses.len() == 12,
        tag == 0x8100,
    ensures
        wire::frame_model(tagged_bytes(addresses, tag, control, 0x0800, packet), 1) == wire::ipv4_model(packet),
        wire::frame_model(tagged_bytes(addresses, tag, control, 0x86dd, packet), 1) == wire::ipv6_model(packet),
{
    lemma_tagged(addresses, tag, control, 0x0800, packet);
    lemma_tagged(addresses, tag, control, 0x86dd, packet);
}

/// To the parser of wire frames a TCP segment in an IPv6 packet is what was written, and
/// no option is part of its data.
pub proof fn law_wire_v6_segment_read_back(
    h: V6Head,
    t: TcpHead,
    topts: Seq<u8>,
    data: Seq<u8>,
    pad: Seq<u8>,
)
    requires
        fit_options(topts),
        tcp_bytes(t, topts, data).len() <= 0xffff,
    ensures
        wire::ipv6_model(v6_bytes(h, 6, tcp_bytes(t, topts, data)) + pad) matches Ok(
            wire::FrameModel::Complete { ip, tcp: Some(m), payload },
        ) && {
            &&& payload == data
            &&& ip.version == wire::IpVersion::V6
            &&& ip.src == Ip::V6(h.src)
            &&& ip.dst == Ip::V6(h.dst)
            &&& ip.protocol == 6
            &&& m.src_port == t.sport
            &&& m.dst_port == t.dport
            &&& m.seq == t.seq
            &&& m.ack == t.ack
            &&& m.window == t.window
        },
{
    let b = tcp_bytes(t, topts, data);
    lemma_v6_bytes(h, 6, b, pad);
    lemma_tcp_bytes(t, topts, data);
}

/// To the parser of wire frames an IPv6 fragment is what was written, its place counted in
/// bytes.
pub proof fn law_wire_v6_fragment_read_back(
    h: V6Head,
    next: u8,
    spare: u8,
    units: u16,
    bits: u8,
    more: bool,
    ident: u32,
    data: Seq<u8>,
    pad: Seq<u8>,
)
    requires
        data.len() + 8 <= 0xffff,
        units < 0x2000,
        more || units > 0,
    ensures
        wire::ipv6_model(
            v6_bytes(h, 44, v6_fragment(next, spare, units, bits, more, ident, data)) + pad,
        ) matches Ok(wire::FrameModel::Fragment { ip, data: d }) && {
            &&& d == data
            &&& ip.version == wire::IpVersion::V6
            &&& ip.src == Ip::V6(h.src)
            &&& ip.dst == Ip::V6(h.dst)
            &&& ip.protocol == next
            &&& ip.id == ident
            &&& ip.fragment.offset == units * 8
            &&& ip.fragment.more_fragments == more
        },
{
    let f = v6_fragment(next, spare, units, bits, more, ident, data);
    let b = v6_bytes(h, 44, f) + pad;
    lemma_v6_bytes(h, 44, f, pad);
    lemma_v6_fragment(next, spare, units, bits, more, ident, data);
    assert(f == b.subrange(40, 40 + f.len() as int));
    assert(b[40] == f[0] && b[42] == f[2] && b[43] == f[3]);
    assert(b[44] == f[4] && b[45] == f[5] && b[46] == f[6] && b[47] == f[7]);
    assert(b.subrange(48, 40 + f.len() as int) =~= f.skip(8));
}

proof fn lemma_wire_shift(a: Seq<u8>, b: Seq<u8>, next: u8, oa: int, ob: int, ea: int, eb: int)
    requires
        0 <= oa <= ea <= a.len(),
        0 <= ob <= eb <= b.len(),
        a.subrange(oa, ea) == b.subrange(ob, eb),
        v6_at(a, 8) == v6_at(b, 8),
        v6_at(a, 24) == v6_at(b, 24),
    ensures
        wire::ipv6_from(a, next, oa, ea) == wire::ipv6_from(b, next, ob, eb),
    decreases ea - oa,
{
    let (x, y) = (a.subrange(oa, ea), b.subrange(ob, eb));
    assert(x.len() == ea - oa && y.len() == eb - ob);
    if oa + 2 <= ea {
        assert(x[0] == a[oa] && y[0] == b[ob]);
        assert(x[1] == a[oa + 1] && y[1] == b[ob + 1]);
        let l = if next == 51 {
            (a[oa + 1] + 2) * 4
        } else {
            (a[oa + 1] + 1) * 8
        };
        if (next == 0 || next == 43 || next == 60 || next == 51) && oa + l <= ea {
            assert(x.subrange(l, ea - oa) =~= a.subrange(oa + l, ea));
            assert(y.subrange(l, eb - ob) =~= b.subrange(ob + l, eb));
            lemma_wire_shift(a, b, a[oa], oa + l, ob + l, ea, eb);
        }
    }
    if oa + 8 <= ea {
        assert(x[2] == a[oa + 2] && y[2] == b[ob + 2]);
        assert(x[3] == a[oa + 3] && y[3] == b[ob + 3]);
        assert(x[4] == a[oa + 4] && y[4] == b[ob + 4]);
        assert(x[5] == a[oa + 5] && y[5] == b[ob + 5]);
        assert(x[6] == a[oa + 6] && y[6] == b[ob + 6]);
        assert(x[7] == a[oa + 7] && y[7] == b[ob + 7]);
        assert(x.subrange(8, ea - oa) =~= a.subrange(oa + 8, ea));
        assert(y.subrange(8, eb - ob) =~= b.subrange(ob + 8, eb));
    }
}

/// To the parser of wire frames an extension header changes nothing of an IPv6 packet: the packet with one in front
/// of what follows is the packet without it.
#[verifier::spinoff_prover]
#[verifier::rlimit(40)]
pub proof fn law_wire_v6_extension_is_passed(
    h: V6Head,
    kind: u8,
    next: u8,
    body: Seq<u8>,
    rest: Seq<u8>,
    pad: Seq<u8>,
)
    requires
        kind == 0 || kind == 43 || kind == 60,
        fit_body(body),
        2 + body.len() + rest.len() <= 0xffff,
    ensures
        wire::ipv6_model(v6_bytes(h, kind, v6_extension(next, body, rest)) + pad) == wire::ipv6_model(
            v6_bytes(h, next, rest) + pad,
        ),
{
    let x = v6_extension(next, body, rest);
    let a = v6_bytes(h, kind, x) + pad;
    let b = v6_bytes(h, next, rest) + pad;
    lemma_v6_bytes(h, kind, x, pad);
    lemma_v6_bytes(h, next, rest, pad);
    lemma_v6_extension(next, body, rest);
    let l = 2 + body.len() as int;
    let ea = 40 + x.len() as int;
    let eb = 40 + rest.len() as int;
    assert(x == a.subrange(40, ea));
    assert(a[40] == x[0] && a[41] == x[1]);
    assert(a.subrange(40 + l, ea) =~= x.skip(l));
    lemma_wire_shift(a, b, next, 40 + l, 40, ea, eb);
}

/// A raw packet that was put behind an Ethernet header is that packet, told by its
/// version; any other bytes carry none.
pub proof fn law_wrapped_packet_is_the_packet(packet: Seq<u8>)
    ensures
        packet.len() > 0 && packet[0] / 16 == 4 ==> parse::link_packet(parse::wrapped(packet))
            == parse::ipv4_packet(packet),
        packet.len() > 0 && packet[0] / 16 == 6 ==> parse::link_packet(parse::wrapped(packet))
            == parse::ipv6_packet(packet),
        packet.len() == 0 || (packet[0] / 16 != 4 && packet[0] / 16 != 6) ==> parse::link_packet(
            parse::wrapped(packet),
        ) is Other,
{
    let w = parse::wrapped(packet);
    assert(w.skip(14) =~= packet);
    assert(w.len() == 14 + packet.len());
    if packet.len() > 0 && packet[0] / 16 == 4 {
        assert(be16(w, 12) == 0x0800);
    } else if packet.len() > 0 && packet[0] / 16 == 6 {
        assert(be16(w, 12) == 0x86dd);
    } else {
        assert(be16(w, 12) == 0xffff);
    }
}

/// The TCP header of a built frame: the usual window, no urgent data.
pub open spec fn built_head(h: builder::Head, check: int) -> TcpHead {
    TcpHead {
        sport: h.sport,
        dport: h.dport,
        seq: h.seq,
        ack: h.ack,
        low: 0,
        flags: h.flags,
        window: 64240,
        check: check as u16,
        urgent: 0,
    }
}

#[verifier::spinoff_prover]
#[verifier::rlimit(40)]
proof fn lemma_built_tcp(h: builder::Head, check: int, data: Seq<u8>)
    requires
        0 <= check <= 0xffff,
    ensures
        builder::tcp_bytes(h, check, data) == tcp_bytes(built_head(h, check), seq![], data),
{
    let t = built_head(h, check);
    let b = tcp_bytes(t, seq![], data);
    let front = b.take(20);
    let made = builder::tcp_front(h) + be16_bytes(check) + be16_bytes(0);
    lemma_byte(h.seq);
    lemma_byte(h.ack);
    assert(made.len() == 20);
    assert(made[0] == front[0] && made[1] == front[1] && made[2] == front[2] && made[3]
        == front[3]);
    assert(made[4] == front[4] && made[5] == front[5] && made[6] == front[6] && made[7]
        == front[7]);
    assert(made[8] == front[8] && made[9] == front[9] && made[10] == front[10] && made[11]
        == front[11]);
    assert(made[12] == front[12] && made[13] == front[13] && made[14] == front[14] && made[15]
        == front[15]);
    assert(made[16] == front[16] && made[17] == front[17] && made[18] == front[18] && made[19]
        == front[19]);
    assert(made =~= front);
    assert(b =~= front + data);
}

proof fn lemma_byte(v: u32)
    ensures
        byte_of(v as int, 0x1000000) == (v as int / 0x1000000) as u8,
{
}

/// The addresses of the two ends of every built frame.
pub open spec fn built_addresses() -> Seq<u8> {
    seq![2u8, 0u8, 0u8, 0u8, 0u8, 2u8, 2u8, 0u8, 0u8, 0u8, 0u8, 1u8]
}

/// A built frame with a whole IPv4 packet is its headers and its data, with checksums that
/// stand where they belong.
pub proof fn law_built_v4_frame(
    src: [u8; 4],
    dst: [u8; 4],
    h: builder::Head,
    data: Seq<u8>,
    id: u16,
    frag: Option<(u16, bool)>,
)
    requires
        40 + data.len() <= 0xffff,
        frag matches Some((off, more)) ==> off % 8 == 0,
        0 <= builder::sum_v4(src@, dst@, h, data) <= 0xffff,
        0 <= builder::ip_sum(
            src@,
            dst@,
            40 + data.len() as int,
            id,
            builder::frag_word(frag),
        ) <= 0xffff,
    ensures
        ({
            let (off, more) = match frag {
                Some(f) => f,
                None => (0u16, false),
            };
            let sum = builder::sum_v4(src@, dst@, h, data);
            let check = builder::ip_sum(
                src@,
                dst@,
                40 + data.len() as int,
                id,
                builder::frag_word(frag),
            );
            builder::frame_v4(src@, dst@, h, data, id, frag) == eth_bytes(
                built_addresses(),
                0x0800,
                v4_bytes(
                    V4Head {
                        tos: 0,
                        ident: id,
                        reserved: false,
                        dont: false,
                        more,
                        units: (off / 8) as u16,
                        ttl: 64,
                        proto: 6,
                        check: check as u16,
                        src,
                        dst,
                    },
                    seq![],
                    tcp_bytes(built_head(h, sum), seq![], data),
                ),
            )
        }),
{
    let sum = builder::sum_v4(src@, dst@, h, data);
    lemma_built_tcp(h, sum, data);
    let t = builder::tcp_bytes(h, sum, data);
    let (off, more) = match frag {
        Some(f) => f,
        None => (0u16, false),
    };
    let w = builder::frag_word(frag);
    let check = builder::ip_sum(src@, dst@, 40 + data.len() as int, id, w);
    let head = V4Head {
        tos: 0,
        ident: id,
        reserved: false,
        dont: false,
        more,
        units: (off / 8) as u16,
        ttl: 64,
        proto: 6,
        check: check as u16,
        src,
        dst,
    };
    lemma_built_v4(head, w, check, t);
    lemma_built_frame(0x0800, v4_bytes(head, seq![], t));
    assert(builder::frame_v4(src@, dst@, h, data, id, frag) =~= builder::ether_bytes(0x0800) + (
    builder::ip_bytes(src@, dst@, 40 + data.len() as int, id, w, check) + t));
}

proof fn lemma_built_frame(ethertype: int, packet: Seq<u8>)
    requires
        ethertype == 0x0800 || ethertype == 0x86dd,
    ensures
        builder::ether_bytes(ethertype) + packet == eth_bytes(built_addresses(), ethertype, packet),
{
    assert(builder::ether_bytes(ethertype) =~= built_addresses() + seq![
        byte_of(ethertype, 256),
        byte_of(ethertype, 1),
    ]);
}

#[verifier::spinoff_prover]
#[verifier::rlimit(40)]
proof fn lemma_built_v4(h: V4Head, w: int, check: int, rest: Seq<u8>)
    requires
        h.tos == 0 && h.ttl == 64 && h.proto == 6 && !h.reserved && !h.dont,
        h.units < 0x2000,
        w == h.units + (if h.more {
            0x2000int
        } else {
            0
        }),
        0 <= check <= 0xffff,
        h.check == check,
        20 + rest.len() <= 0xffff,
    ensures
        builder::ip_bytes(h.src@, h.dst@, 20 + rest.len() as int, h.ident, w, check) + rest
            == v4_bytes(h, seq![], rest),
{
    let total = 20 + rest.len() as int;
    let front = seq![0x45u8, 0u8] + be16_bytes(total % 0x1_0000) + be16_bytes(h.ident as int)
        + be16_bytes(w) + seq![64u8, 6u8] + be16_bytes(check);
    let b = v4_bytes(h, seq![], rest);
    let made = b.take(12);
    assert(w / 256 == h.units / 256 + (if h.more {
        32int
    } else {
        0
    }));
    assert(w % 256 == h.units % 256);
    assert(front.len() == 12);
    assert(front[0] == made[0] && front[1] == made[1] && front[2] == made[2] && front[3] == made[3]);
    assert(front[4] == made[4] && front[5] == made[5] && front[6] == made[6] && front[7] == made[7]);
    assert(front[8] == made[8] && front[9] == made[9] && front[10] == made[10] && front[11]
        == made[11]);
    assert(front =~= made);
    assert(b =~= made + h.src@ + h.dst@ + rest);
}

#[verifier::spinoff_prover]
#[verifier::rlimit(40)]
proof fn lemma_built_v6(h: V6Head, next: u8, rest: Seq<u8>)
    requires
        h.class == 0 && h.hops == 64,
        h.flow@[0] == 0 && h.flow@[1] == 0 && h.flow@[2] == 0,
        rest.len() <= 0xffff,
    ensures
        builder::ip6_bytes(h.src@, h.dst@, rest.len() as int, next) + rest == v6_bytes(h, next, rest),
{
    let front = be32_bytes(0x6000_0000) + be16_bytes(rest.len() as int % 0x1_0000) + seq![
        next,
        64u8,
    ];
    let b = v6_bytes(h, next, rest);
    let made = b.take(8);
    assert(front.len() == 8);
    assert(front[0] == made[0] && front[1] == made[1] && front[2] == made[2] && front[3] == made[3]);
    assert(front[4] == made[4] && front[5] == made[5] && front[6] == made[6] && front[7] == made[7]);
    assert(front =~= made);
    assert(b =~= made + h.src@ + h.dst@ + rest);
}

/// A built frame with an IPv6 packet is its headers and its data.
pub proof fn law_built_v6_frame(src: [u8; 16], dst: [u8; 16], h: builder::Head, data: Seq<u8>)
    requires
        20 + data.len() <= 0xffff,
        0 <= builder::sum_v6(src@, dst@, h, data) <= 0xffff,
    ensures
        builder::frame_v6(src@, dst@, h, data) == eth_bytes(
            built_addresses(),
            0x86dd,
            v6_bytes(
                V6Head { class: 0, flow: [0u8, 0u8, 0u8], hops: 64, src, dst },
                6,
                tcp_bytes(
                    built_head(h, builder::sum_v6(src@, dst@, h, data)),
                    seq![],
                    data,
                ),
            ),
        ),
{
    let sum = builder::sum_v6(src@, dst@, h, data);
    lemma_built_tcp(h, sum, data);
    let t = builder::tcp_bytes(h, sum, data);
    let head = V6Head { class: 0, flow: [0u8, 0u8, 0u8], hops: 64, src, dst };
    lemma_built_v6(head, 6, t);
    lemma_built_frame(0x86dd, v6_bytes(head, 6, t));
    assert(builder::frame_v6(src@, dst@, h, data) =~= builder::ether_bytes(0x86dd) + (
    builder::ip6_bytes(src@, dst@, 20 + data.len() as int, 6) + t));
}

/// An IPv4 packet that was cut off is refused, wherever it was cut.
pub proof fn law_cut_v4_is_refused(h: V4Head, options: Seq<u8>, data: Seq<u8>, cut: int)
    requires
        fit_v4(h, options, data),
        0 <= cut < v4_bytes(h, options, data).len(),
    ensures
        ({
            let b = v4_bytes(h, options, data).take(cut);
            &&& packet::ipv4_packet(b) is None
            &&& network::ipv4_datagram(b) is Err
            &&& wire::ipv4_model(b) is Err
            &&& parse::ipv4_packet(b) is Malformed
        }),
{
    let f = v4_bytes(h, options, data);
    let b = f.take(cut);
    lemma_v4_bytes(h, options, data, seq![]);
    assert(f + seq![] =~= f);
    if cut >= 20 {
        assert(b[0] == f[0] && b[2] == f[2] && b[3] == f[3]);
    }
}

/// An IPv6 packet that was cut off is refused, wherever it was cut.
pub proof fn law_cut_v6_is_refused(h: V6Head, next: u8, rest: Seq<u8>, cut: int)
    requires
        rest.len() <= 0xffff,
        0 <= cut < v6_bytes(h, next, rest).len(),
    ensures
        ({
            let b = v6_bytes(h, next, rest).take(cut);
            &&& packet::ipv6_packet(b) is None
            &&& network::ipv6_datagram(b) is Err
            &&& wire::ipv6_model(b) is Err
            &&& parse::ipv6_packet(b) is Malformed
        }),
{
    let f = v6_bytes(h, next, rest);
    let b = f.take(cut);
    lemma_v6_bytes(h, next, rest, seq![]);
    assert(f + seq![] =~= f);
    if cut >= 40 {
        assert(b[0] == f[0] && b[4] == f[4] && b[5] == f[5]);
    }
}

/// The parser of captured frames takes of a packet that was cut off what is there.
#[verifier::spinoff_prover]
#[verifier::rlimit(40)]
pub proof fn law_frame_cut_packet_is_what_is_there(
    h: V4Head,
    options: Seq<u8>,
    g: V6Head,
    next: u8,
    data: Seq<u8>,
    cut: int,
)
    requires
        fit_v4(h, options, data),
        !h.more && h.units == 0,
        data.len() <= 0xffff,
        0 <= cut <= data.len(),
        next == 6,
    ensures
        frame::ipv4_parsed(v4_bytes(h, options, data).take(20 + options.len() + cut)) == Ok::<
            frame::ParsedModel,
            Seq<char>,
        >(
            frame::ParsedModel::Complete {
                src: Ip::V4(h.src),
                dst: Ip::V4(h.dst),
                protocol: h.proto,
                payload: data.take(cut),
            },
        ),
        frame::ipv6_parsed(v6_bytes(g, next, data).take(40 + cut)) == Ok::<
            frame::ParsedModel,
            Seq<char>,
        >(
            frame::ParsedModel::Complete {
                src: Ip::V6(g.src),
                dst: Ip::V6(g.dst),
                protocol: next,
                payload: data.take(cut),
            },
        ),
{
    let e = Seq::<u8>::empty();
    let x = v4_bytes(h, options, data);
    let y = v6_bytes(g, next, data);
    lemma_v4_bytes(h, options, data, e);
    lemma_v6_bytes(g, next, data, e);
    assert(x + e =~= x);
    assert(y + e =~= y);
    let n = 20 + options.len() as int;
    let a = x.take(n + cut);
    let b = y.take(40 + cut);
    assert(a[0] == x[0] && a[2] == x[2] && a[3] == x[3] && a[6] == x[6] && a[7] == x[7] && a[9]
        == x[9]);
    assert(a.subrange(12, 16) =~= h.src@);
    assert(a.subrange(16, 20) =~= h.dst@);
    lemma_v4_at(a, 12, h.src);
    lemma_v4_at(a, 16, h.dst);
    assert(a.subrange(n, n + cut) =~= data.take(cut));
    assert(b[0] == y[0] && b[4] == y[4] && b[5] == y[5] && b[6] == y[6]);
    assert(b.subrange(8, 24) =~= g.src@);
    assert(b.subrange(24, 40) =~= g.dst@);
    lemma_v6_at(b, 8, g.src);
    lemma_v6_at(b, 24, g.dst);
    assert(b.subrange(40, 40 + cut) =~= data.take(cut));
}

/// A packet of another version is refused.
pub proof fn law_other_version_is_refused(b: Seq<u8>)
    ensures
        b.len() > 0 && b[0] / 16 != 4 ==> {
            &&& packet::ipv4_packet(b) is None
            &&& frame::ipv4_parsed(b) is Err
            &&& network::ipv4_datagram(b) is Err
            &&& wire::ipv4_model(b) is Err
        },
        b.len() > 0 && b[0] / 16 != 6 ==> {
            &&& packet::ipv6_packet(b) is None
            &&& frame::ipv6_parsed(b) is Err
            &&& network::ipv6_datagram(b) is Err
            &&& wire::ipv6_model(b) is Err
        },
{
}

/// A header that says that it is shorter than a header can be is refused.
pub proof fn law_short_header_is_refused(b: Seq<u8>)
    requires
        b.len() > 0,
        b[0] % 16 < 5,
    ensures
        packet::ipv4_packet(b) is None,
        frame::ipv4_parsed(b) is Err,
        network::ipv4_datagram(b) is Err,
        wire::ipv4_model(b) is Err,
        parse::ipv4_packet(b) is Malformed,
{
}

/// A frame that ends before its packet carries none.
pub proof fn law_short_frame_carries_none(f: Seq<u8>)
    requires
        f.len() < 14,
    ensures
        packet::frame_packet(f) is None,
        frame::frame_parsed(f, LinkKind::Ethernet) is Err,
        network::link_datagram(f, 1) is Err,
        wire::frame_model(f, 1) is Err,
        parse::link_packet(f) is Malformed,
{
}

} // verus!
