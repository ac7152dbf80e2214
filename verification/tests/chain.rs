//! Analyses of whole captures, and the other fragment stores and parsers.

use reasm::analyze::{analyze, Analysis, Config};
use reasm::builder::{segment_v4, tcp_packet_frag, Head};
use reasm::defrag;
use reasm::fragment::{Frag, FragKey, FragResult, FragmentReassembler};
use reasm::ipdefrag::{DefragConfig, DefragOutcome, Defragmenter};
use reasm::network;
use reasm::packet::{parse_frame, parse_tcp, seq_lt, seq_offset, FragRef, NetPacket};
use reasm::parse;
use reasm::pcap::{export_fixture, parse_capture, parse_fixture, parse_pcap, write_pcap, Frame};
use reasm::session::{Endpoint, OverlapPolicy, SessionConfig, SessionEngine};
use reasm::types::Ip;

const A: [u8; 4] = [10, 0, 0, 1];
const B: [u8; 4] = [10, 0, 0, 2];

const SYN: u8 = 0x02;
const ACK: u8 = 0x10;
const FIN: u8 = 0x01;
const RST: u8 = 0x04;

fn to_b(seq: u32, ack: u32, flags: u8, payload: &[u8]) -> Vec<u8> {
    let h = Head { sport: 1000, dport: 80, seq, ack, flags };
    segment_v4(&A, &B, h, payload, 1, None)
}

fn to_a(seq: u32, ack: u32, flags: u8, payload: &[u8]) -> Vec<u8> {
    let h = Head { sport: 80, dport: 1000, seq, ack, flags };
    segment_v4(&B, &A, h, payload, 1, None)
}

fn frames(list: Vec<(u64, Vec<u8>)>) -> Vec<Frame> {
    list.into_iter()
        .enumerate()
        .map(|(i, (ts_ns, data))| Frame { index: i as u64, ts_ns, data })
        .collect()
}

fn stream(a: &Analysis, session: usize, dir: usize) -> Vec<u8> {
    let file = &a.result.sessions[session].directions[dir].payload_file;
    a.payloads.iter().find(|p| &p.file == file).map(|p| p.data.clone()).unwrap_or_default()
}

#[test]
fn a_connection_is_reassembled() {
    let f = frames(vec![
        (1, to_b(u32::MAX - 1, 0, SYN, b"")),
        (2, to_a(500, u32::MAX, SYN | ACK, b"")),
        (3, to_b(u32::MAX, 501, ACK, b"")),
        (5, to_b(3, 501, ACK, b"efg")),
        (4, to_b(u32::MAX, 501, ACK, b"abcd")),
        (6, to_b(u32::MAX, 501, ACK, b"abcd")),
        (7, to_a(501, 6, ACK, b"reply")),
    ]);
    let a = analyze(&f, &Config::default());
    assert_eq!(a.result.sessions.len(), 1);
    let s = &a.result.sessions[0];
    assert!(!s.partial);
    assert_eq!(s.generation, 0);
    let streams = [stream(&a, 0, 0), stream(&a, 0, 1)];
    assert!(streams.contains(&b"abcdefg".to_vec()));
    assert!(streams.contains(&b"reply".to_vec()));
    let retrans: usize = s.directions.iter().map(|d| d.retransmissions.len()).sum();
    assert_eq!(retrans, 1);
    assert_eq!(a.result.frame_count, 7);
    let again = analyze(&f, &Config::default());
    assert_eq!(format!("{:?}", a.result), format!("{:?}", again.result));
    assert_eq!(a.result.fingerprint, again.result.fingerprint);
    assert_eq!(a.result.fingerprint.len(), 64);
}

#[test]
fn policies_choose_between_overlapping_bytes() {
    let f = frames(vec![
        (1, to_b(100, 0, SYN, b"")),
        (2, to_b(101, 1, ACK, b"AAAA")),
        (3, to_b(103, 1, ACK, b"ZZ")),
    ]);
    let first = analyze(&f, &Config::default());
    let last = analyze(&f, &Config::default().with_overlap(OverlapPolicy::LastSeen));
    let find = |a: &Analysis, t: &[u8]| (0..2).any(|d| stream(a, 0, d) == t);
    assert!(find(&first, b"AAAA"));
    assert!(find(&last, b"AAZZ"));
    let lost: Vec<String> = first.result.sessions[0]
        .directions
        .iter()
        .flat_map(|d| d.overlaps.iter().map(|o| o.dropped_bytes_hex.clone()))
        .collect();
    assert_eq!(lost, vec!["5a5a".to_string()]);
}

#[test]
fn generations_begin_anew() {
    let f = frames(vec![
        (1, to_b(100, 0, SYN, b"")),
        (2, to_a(500, 101, SYN | ACK, b"")),
        (3, to_b(101, 501, ACK, b"one")),
        (4, to_b(104, 501, RST, b"")),
        (5, to_b(9000, 0, SYN, b"")),
        (6, to_b(9001, 1, ACK, b"two")),
    ]);
    let a = analyze(&f, &Config::default());
    assert_eq!(a.result.sessions.len(), 2);
    assert_eq!(a.result.sessions[0].close_reason, "rst");
    let mut gens: Vec<u32> = a.result.sessions.iter().map(|s| s.generation).collect();
    gens.sort();
    assert_eq!(gens, vec![0, 1]);
    let mid = analyze(&frames(vec![(1, to_b(7, 9, ACK, b"middle"))]), &Config::default());
    assert!(mid.result.sessions[0].partial);
    let closed = frames(vec![
        (1, to_b(1, 0, SYN, b"")),
        (2, to_b(2, 0, FIN | ACK, b"")),
        (3, to_a(1, 3, FIN | ACK, b"")),
    ]);
    let c = analyze(&closed, &Config::default());
    assert_eq!(c.result.sessions[0].close_reason, "fin");
}

#[test]
fn overlapping_fragments_leave_other_connections_alone() {
    let part = |off, more, p: &[u8]| {
        tcp_packet_frag("10.9.0.1", 1, "10.9.0.2", 2, 3, 4, ACK, p, 77, Some((off, more)))
    };
    let f = frames(vec![
        (1, part(0, true, b"aaaa")),
        (2, part(8, false, b"bbbb")),
        (3, to_b(5, 5, ACK, b"clean")),
    ]);
    let a = analyze(&f, &Config::default());
    assert_eq!(a.result.sessions.len(), 1);
    assert!((0..2).any(|d| stream(&a, 0, d) == b"clean"));
    assert_eq!(a.evidence.ip_datagrams.len(), 1);
    assert_eq!(a.evidence.ip_datagrams[0].status, "isolated");
}

#[test]
fn sessions_one_by_one() {
    let mut e = SessionEngine::new(SessionConfig::default());
    let a = Endpoint { ip: Ip::V4(A), port: 1000 };
    let b = Endpoint { ip: Ip::V4(B), port: 80 };
    assert_eq!(a.label(), "10.0.0.1:1000");
    let raw = to_b(7, 0, SYN, b"");
    match parse_frame(&raw).unwrap() {
        NetPacket::Direct { payload, .. } => {
            e.process(a, b, &parse_tcp(payload).unwrap(), 1, 0);
        }
        _ => panic!("whole datagram expected"),
    }
    assert_eq!(e.finish().len(), 1);
    assert!(seq_lt(u32::MAX, 0));
    assert_eq!(seq_offset(2, u32::MAX), 3);
    assert_eq!(seq_offset(u32::MAX, 2), -3);
}

#[test]
fn datagrams_from_fragments() {
    let mut d = Defragmenter::new(DefragConfig {
        max_datagram_bytes: 100,
        max_fragments: 4,
        timeout_ns: 10,
    });
    let part = |ident, offset_bytes, more_fragments, payload| FragRef {
        src: Ip::V4(A),
        dst: Ip::V4(B),
        proto: 6,
        ident,
        offset_bytes,
        more_fragments,
        payload,
    };
    assert!(matches!(d.handle(&part(1, 8, false, b"tail"), 0, 1), DefragOutcome::Buffered));
    match d.handle(&part(1, 0, true, b"01234567"), 1, 2) {
        DefragOutcome::Complete(o) => {
            assert_eq!(o.payload, b"01234567tail".to_vec());
            assert_eq!(o.frames, vec![0, 1]);
        }
        _ => panic!("whole datagram expected"),
    }
    assert!(matches!(d.handle(&part(2, 0, true, b"01234567"), 2, 3), DefragOutcome::Buffered));
    assert!(matches!(d.handle(&part(2, 4, false, b"0123"), 3, 4), DefragOutcome::Isolated(_)));
    assert!(matches!(d.handle(&part(3, 96, true, b"01234567"), 4, 5), DefragOutcome::Isolated(_)));
}

#[test]
fn datagrams_within_a_budget() {
    let key = |ident| FragKey { src: "a".to_string(), dst: "b".to_string(), ident, protocol: 6 };
    let frag = |offset, more, data: &[u8]| Frag { offset, more, data: data.to_vec(), frame: 0, ts: 0 };
    let mut r = FragmentReassembler::with_limits(16, 12, 5);
    assert!(matches!(r.add(key(1), frag(0, true, b"01234567")), FragResult::Pending));
    match r.add(key(1), frag(8, false, b"89")) {
        FragResult::Complete(b) => assert_eq!(b, b"0123456789".to_vec()),
        _ => panic!("whole datagram expected"),
    }
    assert!(matches!(r.add(key(2), frag(8, true, b"89012345")), FragResult::Isolated(_)));
    assert!(matches!(r.add(key(3), frag(0, true, b"01234567")), FragResult::Pending));
    assert!(matches!(r.add(key(3), frag(4, true, b"45")), FragResult::Isolated(_)));
    assert!(matches!(r.add(key(4), frag(0, true, b"01234567")), FragResult::Pending));
    assert_eq!(r.expire(5).len(), 0);
    let gone = r.expire(6);
    assert_eq!(gone.len(), 1);
    assert_eq!(gone[0].0.ident, 4);
}

#[test]
fn poisoned_datagrams_stay_poisoned() {
    let key = |ident| defrag::FragKey {
        src: "a".to_string(),
        dst: "b".to_string(),
        ident,
        ip_version: 4,
    };
    let mut d = defrag::Defragmenter::new(64, 8);
    let o = |r: defrag::DefragOutcome| format!("{:?}", r);
    assert_eq!(o(d.add_fragment(key(1), 0, true, b"01234567", 0)), "Buffered");
    assert_eq!(o(d.add_fragment(key(1), 4, true, b"x", 1)), "Quarantined");
    assert_eq!(o(d.add_fragment(key(1), 8, false, b"x", 2)), "Poisoned");
    assert_eq!(o(d.add_fragment(key(2), 0, true, b"01234567", 3)), "Buffered");
    assert_eq!(o(d.add_fragment(key(2), 8, false, b"8", 4)), format!("Completed({:?})", b"012345678"));
    assert_eq!(o(d.add_fragment(key(3), 0, true, b"01234567", 5)), "Buffered");
    d.finish();
    assert_eq!(d.events().len(), 3);
}

#[test]
fn link_layers() {
    let raw = to_b(7, 8, ACK, b"xy");
    let d = network::parse_link(&raw, 1).unwrap();
    assert_eq!(d.source, Ip::V4(A));
    let t = network::parse_tcp(&d).unwrap();
    assert_eq!((t.sequence, t.payload), (7, &b"xy"[..]));
    assert!(network::parse_link(&raw[..10], 1).is_err());
    assert!(network::parse_link(&raw, 999).is_err());
    let frame = parse::RawFrame { index: 0, ts_micros: 0, data: raw };
    match parse::parse_link(&frame) {
        parse::NetPacket::Ipv4(p) => {
            assert!(!p.is_fragment());
            assert_eq!(parse::parse_tcp(&p.payload).unwrap().payload, b"xy".to_vec());
        }
        _ => panic!("IPv4 expected"),
    }
    assert_eq!(parse::flags_to_string(SYN | ACK), "SYN+ACK");
    assert_eq!(parse::flags_to_string(0), "NONE");
}

#[test]
fn capture_files() {
    let f = frames(vec![(1_500_000_123_000, vec![1, 2]), (2_000_000_000_000, vec![])]);
    let back = parse_pcap(&write_pcap(&f)).unwrap();
    assert_eq!(format!("{:?}", back), format!("{:?}", f));
    let again = parse_fixture(&export_fixture(&f)).unwrap();
    assert_eq!(format!("{:?}", again), format!("{:?}", f));
    assert!(parse_pcap(b"short").is_err());
    assert!(parse_capture(&write_pcap(&f)).is_ok());
}
