//! Byte streams of one direction, from built frames.

use reasm::builder::{segment_v4, Head};
use reasm::frame::{parse_frame, parse_tcp, IpFrame, ParsedKind, TcpSegment, TCP_ACK, TCP_SYN};
use reasm::ipfrag::{FragOutcome, IpReassembler};
use reasm::pcap::{parse_pcap, write_pcap, Frame};
use reasm::reasm::{Direction, DirectionReport, OverlapPolicy};
use reasm::types::{decode_hex, LinkKind};

const CLIENT: [u8; 4] = [10, 0, 0, 1];
const SERVER: [u8; 4] = [10, 0, 0, 2];
const CP: u16 = 40000;
const SP: u16 = 80;

fn frame(seq: u32, ack: u32, flags: u8, payload: &[u8]) -> Vec<u8> {
    let h = Head { sport: CP, dport: SP, seq, ack, flags };
    segment_v4(&CLIENT, &SERVER, h, payload, 1, None)
}

fn segment(bytes: &[u8]) -> TcpSegment {
    match parse_frame(bytes, LinkKind::Ethernet).unwrap().kind {
        ParsedKind::Ip(IpFrame::Complete(i)) => parse_tcp(&i.payload).unwrap(),
        _ => panic!("whole datagram expected"),
    }
}

/// The client's direction: its SYN is frame 0, its acknowledgement frame 2, and data
/// follows from frame 3 on.
fn run(isn_c: u32, isn_s: u32, data: &[(u32, &[u8])], policy: OverlapPolicy) -> DirectionReport {
    let ack = isn_s.wrapping_add(1);
    let mut d = Direction::new("10.0.0.1:40000".to_string());
    d.add_syn(0, &segment(&frame(isn_c, 0, TCP_SYN, &[])));
    d.add_data(2, &segment(&frame(isn_c, ack, TCP_ACK, &[])), policy);
    for (i, (seq, payload)) in data.iter().enumerate() {
        d.add_data(3 + i, &segment(&frame(*seq, ack, TCP_ACK, payload)), policy);
    }
    d.finalize()
}

fn delivered(r: &DirectionReport) -> Vec<u8> {
    decode_hex(&r.delivered_hex).unwrap()
}

#[test]
fn sequence_wraparound_reassembles_contiguous_stream() {
    let isn_c = u32::MAX - 3;
    let payload: Vec<u8> = (0..8u8).collect();
    let r = run(isn_c, 500, &[(isn_c.wrapping_add(1), &payload)], OverlapPolicy::FirstSeen);
    assert_eq!(delivered(&r), payload);
}

#[test]
fn retransmission_is_flagged_and_bytes_stable() {
    let text: &[u8] = b"hello world";
    let r = run(1000, 2000, &[(1001, text), (1001, text)], OverlapPolicy::FirstSeen);
    assert_eq!(r.retransmit_segments, 1);
    assert_eq!(delivered(&r), text);
}

#[test]
fn conflicting_overlap_first_seen_keeps_earlier_byte() {
    let r = run(100, 200, &[(101, b"AAAA"), (103, b"ZZ")], OverlapPolicy::FirstSeen);
    assert_eq!(delivered(&r), b"AAAA");
    assert_eq!(r.overwrite_evidence.len(), 2);
    assert_eq!(r.conflict_segments, 1);
}

#[test]
fn conflicting_overlap_last_seen_adopts_later_byte() {
    let r = run(100, 200, &[(101, b"AAAA"), (103, b"ZZ")], OverlapPolicy::LastSeen);
    assert_eq!(delivered(&r), b"AAZZ");
    assert!(r.overwrite_evidence.iter().any(|e| e.kept_frame == 4 && e.offered_hex == "41"));
}

#[test]
fn out_of_order_then_gap_fill_reassembles() {
    let late: (u32, &[u8]) = (9011, b"KLMNOPQRST");
    let r = run(9000, 8000, &[late], OverlapPolicy::FirstSeen);
    assert_eq!(r.gaps.len(), 1);
    assert_eq!(r.out_of_order_segments, 1);
    assert_eq!(r.delivered_length, 0);

    let r = run(9000, 8000, &[late, (9001, b"ABCDEFGHIJ")], OverlapPolicy::FirstSeen);
    assert_eq!(delivered(&r), b"ABCDEFGHIJKLMNOPQRST");
    assert!(r.gaps.is_empty());
}

#[test]
fn missing_gap_is_reported_not_fabricated() {
    let r = run(1, 2, &[(2, b"ABC"), (8, b"GHI")], OverlapPolicy::FirstSeen);
    assert_eq!(r.gaps.len(), 1);
    assert_eq!(r.gaps[0].start, 3);
    assert_eq!(r.gaps[0].end, 6);
    assert_eq!(r.delivered_length, 3);
}

#[test]
fn identical_timestamps_keep_original_frame_order() {
    let r = run(100, 500, &[(101, b"first-"), (107, b"second")], OverlapPolicy::FirstSeen);
    assert!(r.segments.windows(2).all(|w| w[0].frame_index < w[1].frame_index));
    assert_eq!(delivered(&r), b"first-second");
}

#[test]
fn pcap_round_trip_yields_same_fingerprint() {
    let raw = vec![frame(100, 0, TCP_SYN, &[]), frame(101, 501, TCP_ACK, b"pcap-roundtrip")];
    let frames: Vec<Frame> = raw
        .iter()
        .enumerate()
        .map(|(i, d)| Frame { index: i as u64, ts_ns: i as u64 * 10_000_000, data: d.clone() })
        .collect();
    let again = parse_pcap(&write_pcap(&frames)).expect("pcap parses");
    let stream = |bytes: Vec<&[u8]>| {
        let mut d = Direction::new("c".to_string());
        d.add_syn(0, &segment(bytes[0]));
        d.add_data(1, &segment(bytes[1]), OverlapPolicy::FirstSeen);
        d.finalize().delivered_hex
    };
    let b1 = stream(raw.iter().map(|d| d.as_slice()).collect());
    let b2 = stream(again.iter().map(|f| f.data.as_slice()).collect());
    assert_eq!(b1, b2);
    assert_eq!(decode_hex(&b2).unwrap(), b"pcap-roundtrip");
}

/// An IPv4 packet with a part of a datagram.
fn fragment(src: [u8; 4], dst: [u8; 4], part: &[u8], id: u16, offset: usize, more: bool) -> IpFrame {
    let mut p = vec![0x45u8, 0];
    p.extend_from_slice(&((20 + part.len()) as u16).to_be_bytes());
    p.extend_from_slice(&id.to_be_bytes());
    let word = (offset / 8) as u16 | if more { 0x2000 } else { 0 };
    p.extend_from_slice(&word.to_be_bytes());
    p.extend_from_slice(&[64, 6, 0, 0]);
    p.extend_from_slice(&src);
    p.extend_from_slice(&dst);
    p.extend_from_slice(part);
    match parse_frame(&p, LinkKind::Raw).unwrap().kind {
        ParsedKind::Ip(f) => f,
        _ => panic!("fragment expected"),
    }
}

fn tcp_part(seq: u32, ack: u32, sport: u16, dport: u16, payload: &[u8]) -> Vec<u8> {
    let h = Head { sport, dport, seq, ack, flags: TCP_ACK };
    segment_v4(&CLIENT, &SERVER, h, payload, 1, None)[34..].to_vec()
}

#[test]
fn ip_fragments_overlapping_ipv4_fragments_quarantine_datagram_only() {
    let (src, dst) = ([10, 1, 1, 1], [10, 1, 1, 2]);
    let tcp = tcp_part(42, 99, 5000, 6000, b"abcdefghijklmnop");
    let mut table = IpReassembler::new();
    let first = table.add(1, &fragment(src, dst, &tcp[..16], 777, 0, true));
    assert!(matches!(first, FragOutcome::Pending));
    match table.add(3, &fragment(src, dst, &tcp[8..16], 777, 8, false)) {
        FragOutcome::Isolated(q) => assert!(q.reason.to_lowercase().contains("overlap")),
        _ => panic!("overlapping fragment datagram must be isolated"),
    }
    let r = run(100, 500, &[(101, b"healthy-session")], OverlapPolicy::FirstSeen);
    assert_eq!(delivered(&r), b"healthy-session");
}

#[test]
fn benign_ipv4_fragmentation_reassembles_tcp() {
    let tcp = tcp_part(101, 501, CP, SP, b"fragmented-payload-123456");
    assert!(tcp.len() > 20);
    let mut table = IpReassembler::new();
    let mut whole = Vec::new();
    let count = (tcp.len() + 23) / 24;
    for i in 0..count {
        let end = (24 * i + 24).min(tcp.len());
        let f = fragment(CLIENT, SERVER, &tcp[24 * i..end], 4242, 24 * i, i + 1 < count);
        match table.add(3 + i, &f) {
            FragOutcome::Complete(a) => whole.push(a.bytes),
            FragOutcome::Pending => assert!(i + 1 < count),
            FragOutcome::Isolated(q) => panic!("{}", q.reason),
        }
    }
    assert_eq!(whole.len(), 1);
    assert_eq!(whole[0], tcp);
    let mut d = Direction::new("c".to_string());
    d.add_syn(0, &segment(&frame(100, 0, TCP_SYN, &[])));
    d.add_data(3, &parse_tcp(&whole[0]).unwrap(), OverlapPolicy::FirstSeen);
    assert_eq!(delivered(&d.finalize()), b"fragmented-payload-123456");
}

#[test]
fn leftovers_and_first_numbers() {
    let tcp = tcp_part(42, 99, 5000, 6000, b"abcdefghijklmnop");
    let mut table = IpReassembler::new();
    assert!(table.leftovers().is_empty());
    table.add(1, &fragment([10, 1, 1, 1], [10, 1, 1, 2], &tcp[..16], 777, 0, true));
    let left = table.leftovers();
    assert_eq!(left.len(), 1);
    assert!(left[0].contains("10.1.1.1"));
    let mut d = Direction::new("c".to_string());
    assert_eq!(d.isn_raw(), None);
    d.add_syn(0, &segment(&frame(100, 0, TCP_SYN, &[])));
    assert_eq!(d.isn_raw(), Some(100));
    assert!(reasm::parse::ip_addr_of_v4([1, 2, 3, 4]) == reasm::types::Ip::V4([1, 2, 3, 4]));
    assert!(reasm::parse::ip_addr_of_v6([9; 16]) == reasm::types::Ip::V6([9; 16]));
}
