//! Captures built frame by frame and run through the whole chain: fixture text,
//! capture, packets, datagrams, sessions.

use reasm::builder::{
    data, flags, handshake, tcp_packet, tcp_packet_frag, tcp_packet_v6, tcp_packet_v6_frag, Builder,
};
use reasm::capture;
use reasm::ipreasm::FragNote;
use reasm::json::{hex_encode, Json};
use reasm::model::{ACK, FIN, PSH, RST, SYN};
use reasm::storage::frame_ids;
use reasm::tcp::{Engine, OverlapPolicy, Session};
use reasm::workbench::{self, AnalysisOptions};

const C: &str = "10.0.0.1";
const S: &str = "10.0.0.2";
const CP: u16 = 40000;
const SP: u16 = 80;

struct Run {
    kind: String,
    engine: Engine,
    notes: Vec<FragNote>,
    result: Json,
    core: Json,
}

fn options(policy: OverlapPolicy) -> AnalysisOptions {
    AnalysisOptions { policy, timeout_us: 2_000_000 }
}

fn analyze(bytes: &[u8], policy: OverlapPolicy) -> Run {
    let cap = capture::load(bytes).expect("load");
    let report = workbench::run(&cap, options(policy));
    let hashes = frame_ids(&cap);
    let result = workbench::render(&report, &cap.kind, options(policy), &hashes, true);
    let core = workbench::render(&report, &cap.kind, options(policy), &hashes, false);
    Run { kind: cap.kind, engine: report.engine, notes: report.notes, result, core }
}

fn fixture(b: &Builder) -> Vec<u8> {
    b.to_json_string().into_bytes()
}

fn first_seen(b: &Builder) -> Run {
    analyze(&fixture(b), OverlapPolicy::FirstSeen)
}

fn sess(r: &Run, i: usize) -> &Session {
    &r.engine.sessions[i]
}

fn data_hex(s: &Session, d: usize) -> String {
    hex_encode(&s.dirs[d].bytes)
}

fn conflicts(s: &Session) -> usize {
    s.segments.iter().filter(|x| x.conflict).count()
}

fn digest(r: &Run) -> String {
    workbench::fingerprint(&r.result)
}

fn hs(b: &mut Builder, t: i128, isn_c: u32, isn_s: u32) -> i128 {
    handshake(b, t, C, CP, S, SP, isn_c, isn_s)
}

fn c2s(seq: u32, ack: u32, pl: &[u8], id: u16) -> Vec<u8> {
    tcp_packet(C, CP, S, SP, seq, ack, ACK | PSH, pl, id)
}

#[test]
fn sequence_wrap_reassembles_in_order() {
    let mut b = Builder::new(1);
    let isn = u32::MAX - 4;
    hs(&mut b, 0, isn, 1000);
    b.add(1000, c2s(isn.wrapping_add(1), 1001, b"0123456789ABCDEF", 200));
    let r = first_seen(&b);
    assert_eq!(r.engine.sessions.len(), 1);
    let s = sess(&r, 0);
    assert_eq!(s.dirs[0].bytes.len(), 16);
    assert_eq!(data_hex(s, 0), hex_encode(b"0123456789ABCDEF"));
    let segs: Vec<_> = s.segments.iter().filter(|x| x.len > 0).collect();
    assert_eq!(segs[0].begin, 0);
    assert_eq!(segs[0].end, 16);
}

#[test]
fn retransmission_detected_and_conflict_keeps_evidence() {
    let mut b = Builder::new(1);
    hs(&mut b, 0, 100, 500);
    b.add(1000, c2s(101, 501, b"HELLO", 300));
    b.add(1100, c2s(101, 501, b"HELLO", 301));
    b.add(1200, c2s(101, 501, b"XELLO", 302));
    let r1 = first_seen(&b);
    let s1 = sess(&r1, 0);
    assert_eq!(conflicts(s1), 1);
    assert_eq!(data_hex(s1, 0), hex_encode(b"HELLO"));
    assert!(s1.segments.iter().any(|x| x.relation.contains("retransmission")));
    let payloads: Vec<&Vec<u8>> =
        s1.segments.iter().filter(|x| x.len == 5).map(|x| &x.data).collect();
    assert_eq!(payloads.len(), 3);
    assert!(payloads.contains(&&b"XELLO".to_vec()));

    let r2 = analyze(&fixture(&b), OverlapPolicy::LastSeen);
    let s2 = sess(&r2, 0);
    assert_eq!(data_hex(s2, 0), hex_encode(b"XELLO"));
    assert_eq!(conflicts(s2), 1);
    assert_ne!(digest(&r1), digest(&r2));
}

#[test]
fn out_of_order_segments_fill_gap() {
    let mut b = Builder::new(1);
    hs(&mut b, 0, 100, 500);
    b.add(1000, c2s(111, 501, b"KLMNOPQRST", 400));
    b.add(1100, c2s(121, 501, b"UVWXYZabcd", 401));
    b.add(1200, c2s(101, 501, b"ABCDEFGHIJ", 402));
    let r = first_seen(&b);
    let s = sess(&r, 0);
    assert_eq!(data_hex(s, 0), hex_encode(b"ABCDEFGHIJKLMNOPQRSTUVWXYZabcd"));
    assert_eq!(s.dirs[0].out_of_order, 2);
    assert_eq!(r.engine.gaps(0).len(), 0);
}

#[test]
fn missing_middle_is_a_gap() {
    let mut b = Builder::new(1);
    hs(&mut b, 0, 100, 500);
    b.add(1000, c2s(101, 501, b"AAAAA", 500));
    b.add(1100, c2s(121, 501, b"BBBBB", 501));
    let r = first_seen(&b);
    assert_eq!(r.engine.gaps(0), vec![(0, 5, 20)]);
    assert_eq!(sess(&r, 0).dirs[0].bytes.len(), 5);
}

#[test]
fn four_tuple_reuse_creates_two_generations() {
    let mut b = Builder::new(1);
    let mut t = hs(&mut b, 0, 100, 500);
    t = data(&mut b, t, C, CP, S, SP, 101, 501, b"first", 600);
    t = flags(&mut b, t, C, CP, S, SP, 106, 501, FIN | ACK, 601);
    t = flags(&mut b, t, S, SP, C, CP, 501, 107, FIN | ACK, 602);
    b.add(t + 1000, tcp_packet(C, CP, S, SP, 900, 0, SYN, &[], 700));
    b.add(t + 1100, tcp_packet(S, SP, C, CP, 9000, 901, SYN | ACK, &[], 701));
    b.add(t + 1200, c2s(901, 9001, b"second-conn", 702));
    let r = first_seen(&b);
    assert_eq!(r.engine.sessions.len(), 2);
    assert_eq!(sess(&r, 0).gen, 1);
    assert_eq!(sess(&r, 1).gen, 2);
    assert_eq!(sess(&r, 0).state, "fin-closed");
    assert_eq!(data_hex(sess(&r, 1), 0), hex_encode(b"second-conn"));
    assert_eq!(sess(&r, 0).key, sess(&r, 1).key);
}

#[test]
fn mid_capture_partial_without_fake_handshake() {
    let mut b = Builder::new(1);
    b.add(1000, c2s(777, 10, b"mid-stream-data", 800));
    b.add(1100, tcp_packet(S, SP, C, CP, 10, 792, ACK | PSH, b"reply", 801));
    let r = first_seen(&b);
    let s = sess(&r, 0);
    assert_eq!(s.handshake, "missing");
    assert!(s.mid_capture);
    assert_eq!(s.state, "partial");
    assert!(s.syn_frames.is_empty());
    assert_eq!(data_hex(s, 0), hex_encode(b"mid-stream-data"));
    assert!(!s.dirs[0].base_syn);
    assert_eq!(data_hex(s, 1), hex_encode(b"reply"));
}

#[test]
fn fin_rst_race_rst_wins() {
    let mut b = Builder::new(1);
    let mut t = hs(&mut b, 0, 100, 500);
    t = data(&mut b, t, C, CP, S, SP, 101, 501, b"bye", 900);
    flags(&mut b, t, C, CP, S, SP, 104, 501, FIN | ACK, 901);
    flags(&mut b, t + 50, C, CP, S, SP, 104, 501, RST | ACK, 902);
    let r = first_seen(&b);
    let s = sess(&r, 0);
    assert_eq!(s.state, "rst-closed");
    assert!(s.dirs[0].fin);
    assert!(s.dirs[0].rst);
    assert_eq!(data_hex(s, 0), hex_encode(b"bye"));
}

#[test]
fn scenarios_overlapping_ipv4_fragments_quarantine_datagram_only() {
    let mut b = Builder::new(1);
    hs(&mut b, 0, 100, 500);
    let part = |seq, ack, fl, pl: &[u8], off, more| {
        tcp_packet_frag(C, CP, S, SP, seq, ack, fl, pl, 950, Some((off, more)))
    };
    b.add(2000, part(101, 501, ACK | PSH, b"FRAG0001", 0, true));
    b.add(2100, part(0, 0, 0, b"NEXTNEXT", 8, true));
    b.add(2200, part(0, 0, 0, b"XX", 14, false));
    b.add(
        2300,
        tcp_packet("10.0.0.3", 5000, "10.0.0.4", 81, 1, 1, ACK | PSH, b"clean", 960),
    );
    let r = first_seen(&b);
    assert_eq!(r.engine.sessions.len(), 2);
    assert_eq!(sess(&r, 0).dirs[0].bytes.len(), 0);
    assert_eq!(data_hex(sess(&r, 1), 0), hex_encode(b"clean"));
    assert!(r.notes.iter().any(|n| n.reason.contains("quarantined")));
}

#[test]
fn equal_timestamps_use_frame_index_order() {
    let mut b = Builder::new(1);
    b.add(0, tcp_packet(C, CP, S, SP, 100, 0, SYN, &[], 1000));
    b.add(0, tcp_packet(S, SP, C, CP, 500, 101, SYN | ACK, &[], 1001));
    b.add(0, tcp_packet(C, CP, S, SP, 101, 501, ACK, &[], 1002));
    b.add(0, c2s(101, 501, b"AAA", 1003));
    b.add(0, c2s(104, 501, b"BBB", 1004));
    let r = first_seen(&b);
    let s = sess(&r, 0);
    assert_eq!(data_hex(s, 0), hex_encode(b"AAABBB"));
    assert_eq!(s.state, "open");
}

#[test]
fn export_import_fingerprint_is_stable() {
    let mut b = Builder::new(1);
    let mut t = hs(&mut b, 0, 100, 500);
    t = data(&mut b, t, C, CP, S, SP, 101, 501, b"abc", 1);
    b.add(t + 300, c2s(111, 501, b"z", 3));
    b.add(t + 400, c2s(104, 501, b"def", 2));
    let bytes = fixture(&b);
    let r1 = analyze(&bytes, OverlapPolicy::FirstSeen);
    let f1 = digest(&r1);
    let exported = r1.result.to_pretty();
    let reparsed = Json::parse(&exported).unwrap();
    assert_eq!(f1, workbench::fingerprint(&reparsed));
    assert_eq!(f1, workbench::fingerprint(&r1.core));
    let kept = workbench::make_version(&bytes, options(OverlapPolicy::FirstSeen), 9);
    assert_eq!(f1, kept.unwrap().unwrap().artifact.fingerprint);
    let r2 = analyze(&bytes, OverlapPolicy::FirstSeen);
    assert_eq!(f1, digest(&r2));
    let r3 = analyze(&bytes, OverlapPolicy::LastSeen);
    assert_ne!(f1, digest(&r3));
    let r4 = analyze(&bytes, OverlapPolicy::LastSeen);
    assert_eq!(digest(&r3), digest(&r4));
}

#[test]
fn pcap_format_roundtrip() {
    let mut b = Builder::new(1);
    hs(&mut b, 0, 100, 500);
    b.add(1000, c2s(101, 501, b"pcap-data", 200));
    let frames = b.into_frames();
    let mut pcap = Vec::new();
    pcap.extend_from_slice(&0xa1b2c3d4u32.to_le_bytes());
    pcap.extend_from_slice(&2u16.to_le_bytes());
    pcap.extend_from_slice(&4u16.to_le_bytes());
    pcap.extend_from_slice(&0i32.to_le_bytes());
    pcap.extend_from_slice(&0u32.to_le_bytes());
    pcap.extend_from_slice(&65535u32.to_le_bytes());
    pcap.extend_from_slice(&1u32.to_le_bytes());
    for (i, f) in frames.iter().enumerate() {
        pcap.extend_from_slice(&(i as u32).to_le_bytes());
        pcap.extend_from_slice(&0u32.to_le_bytes());
        pcap.extend_from_slice(&(f.bytes.len() as u32).to_le_bytes());
        pcap.extend_from_slice(&(f.bytes.len() as u32).to_le_bytes());
        pcap.extend_from_slice(&f.bytes);
    }
    let r = analyze(&pcap, OverlapPolicy::FirstSeen);
    assert_eq!(r.kind, "pcap");
    assert_eq!(data_hex(sess(&r, 0), 0), hex_encode(b"pcap-data"));
}

#[test]
fn idle_timeout_ends_generation_before_reuse_syn() {
    let mut b = Builder::new(1);
    let mut t = hs(&mut b, 0, 100, 500);
    t = data(&mut b, t, C, CP, S, SP, 101, 501, b"old", 1);
    let later = t + 5_000_000;
    b.add(later, tcp_packet(C, CP, S, SP, 7000, 0, SYN, &[], 2));
    b.add(later + 100, tcp_packet(S, SP, C, CP, 8000, 7001, SYN | ACK, &[], 3));
    b.add(later + 200, c2s(7001, 8001, b"new", 4));
    let r = first_seen(&b);
    assert_eq!(r.engine.sessions.len(), 2);
    assert_eq!(sess(&r, 0).state, "timed-out");
    assert_eq!(data_hex(sess(&r, 1), 0), hex_encode(b"new"));
}

#[test]
fn scenarios_ipv6_session_reassembles() {
    let mut b = Builder::new(1);
    let c6 = "2001:db8::1";
    let s6 = "2001:db8::2";
    b.add(0, tcp_packet_v6(c6, CP, s6, SP, 100, 0, SYN, &[]));
    b.add(100, tcp_packet_v6(s6, SP, c6, CP, 500, 101, SYN | ACK, &[]));
    b.add(200, tcp_packet_v6(c6, CP, s6, SP, 101, 501, ACK | PSH, b"ipv6-data"));
    let r = first_seen(&b);
    assert_eq!(r.engine.sessions.len(), 1);
    let s = sess(&r, 0);
    assert_eq!(s.ip_version, 6);
    assert_eq!(data_hex(s, 0), hex_encode(b"ipv6-data"));
    assert!(s.key.contains("2001:db8::1"));
}

#[test]
fn first_segment_late_creates_prefix_gap_then_fills() {
    let mut b = Builder::new(1);
    hs(&mut b, 0, 100, 500);
    b.add(1000, c2s(106, 501, b"ZZZZZ", 1));
    let r0 = first_seen(&b);
    assert_eq!(r0.engine.gaps(0), vec![(0, 0, 5)]);
    assert_eq!(sess(&r0, 0).dirs[0].bytes.len(), 0);
    b.add(1100, c2s(101, 501, b"AAAAA", 2));
    let r1 = first_seen(&b);
    assert_eq!(data_hex(sess(&r1, 0), 0), hex_encode(b"AAAAAZZZZZ"));
    assert_eq!(r1.engine.gaps(0).len(), 0);
}

#[test]
fn ipv6_fragments_reassemble_and_overlap_quarantines() {
    let c6 = "2001:db8::1";
    let s6 = "2001:db8::2";
    let mut b = Builder::new(1);
    b.add(0, tcp_packet_v6_frag(c6, CP, s6, SP, 101, 1, ACK | PSH, b"AAAA", 0, true, 77));
    b.add(100, tcp_packet_v6_frag(c6, CP, s6, SP, 0, 0, 0, b"BBBB", 24, false, 77));
    let r = first_seen(&b);
    assert_eq!(data_hex(sess(&r, 0), 0), hex_encode(b"AAAABBBB"));

    let mut b2 = Builder::new(1);
    b2.add(0, tcp_packet_v6_frag(c6, CP, s6, SP, 201, 1, ACK | PSH, b"XXXX", 0, true, 88));
    b2.add(100, tcp_packet_v6_frag(c6, CP, s6, SP, 0, 0, 0, b"YYYY", 24, true, 88));
    b2.add(200, tcp_packet_v6_frag(c6, CP, s6, SP, 0, 0, 0, b"ZZ", 28, false, 88));
    let r2 = first_seen(&b2);
    assert_eq!(r2.engine.sessions.len(), 0);
    assert!(r2.notes.iter().any(|n| n.reason.contains("quarantined")));
}

#[test]
fn syn_retransmission_does_not_open_new_generation() {
    let mut b = Builder::new(1);
    b.add(0, tcp_packet(C, CP, S, SP, 100, 0, SYN, &[], 1));
    b.add(100, tcp_packet(C, CP, S, SP, 100, 0, SYN, &[], 2));
    b.add(200, tcp_packet(S, SP, C, CP, 500, 101, SYN | ACK, &[], 3));
    b.add(300, tcp_packet(C, CP, S, SP, 101, 501, ACK, &[], 4));
    b.add(400, c2s(101, 501, b"data", 5));
    let r = first_seen(&b);
    assert_eq!(r.engine.sessions.len(), 1);
    assert_eq!(sess(&r, 0).gen, 1);
    assert_eq!(data_hex(sess(&r, 0), 0), hex_encode(b"data"));
}
