//! Streams out of whole captures: order, gaps, fragments, and what identifies a result.

use reasm::analyze::{analyze, Analysis, Config};
use reasm::builder::{segment_v4, Builder, Head};
use reasm::capture::{self, Capture};
use reasm::json::Json;
use reasm::model::{ACK, FIN, PSH, RST, SYN};
use reasm::pcap::{export_fixture, parse_fixture, parse_pcap, write_pcap, Frame};
use reasm::sample;
use reasm::session;
use reasm::storage::{frame_ids, Store};
use reasm::tcp::{OverlapPolicy, Session};
use reasm::types::LinkKind;
use reasm::workbench::{self, AnalysisOptions, Report};

const C: [u8; 4] = [192, 168, 1, 10];
const S: [u8; 4] = [192, 168, 1, 1];
const CP: u16 = 50000;
const SP: u16 = 443;

fn options(policy: OverlapPolicy) -> AnalysisOptions {
    AnalysisOptions { policy, timeout_us: 120_000_000 }
}

fn from_c(seq: u32, ack: u32, flags: u8, payload: &[u8]) -> Vec<u8> {
    let h = Head { sport: CP, dport: SP, seq, ack, flags };
    segment_v4(&C, &S, h, payload, 1, None)
}

fn from_s(seq: u32, ack: u32, flags: u8, payload: &[u8]) -> Vec<u8> {
    let h = Head { sport: SP, dport: CP, seq, ack, flags };
    segment_v4(&S, &C, h, payload, 1, None)
}

fn shake(b: &mut Builder, step: i128, isn_c: u32, isn_s: u32) {
    b.add(0, from_c(isn_c, 0, SYN, b""));
    b.add(step, from_s(isn_s, isn_c.wrapping_add(1), SYN | ACK, b""));
    b.add(2 * step, from_c(isn_c.wrapping_add(1), isn_s.wrapping_add(1), ACK, b""));
}

fn load(b: &Builder) -> Capture {
    capture::load(b.to_json_string().as_bytes()).expect("load")
}

fn report(cap: &Capture, policy: OverlapPolicy) -> Report {
    workbench::try_run(cap, options(policy)).expect("ordinary times")
}

fn gist(cap: &Capture, policy: OverlapPolicy) -> Json {
    let r = report(cap, policy);
    workbench::render(&r, &cap.kind, options(policy), &frame_ids(cap), false)
}

fn run(b: &Builder) -> Report {
    report(&load(b), OverlapPolicy::FirstSeen)
}

fn only(r: &Report) -> &Session {
    assert_eq!(r.engine.sessions.len(), 1);
    &r.engine.sessions[0]
}

/// The frames of a TCP segment that is cut into parts of `part` bytes.
fn fragments(seq: u32, ack: u32, payload: &[u8], part: usize, id: u16) -> Vec<Vec<u8>> {
    let whole = from_c(seq, ack, PSH | ACK, payload);
    let tcp = &whole[34..];
    let count = (tcp.len() + part - 1) / part;
    (0..count)
        .map(|i| {
            let end = (part * i + part).min(tcp.len());
            let more = i + 1 < count;
            ip_fragment(&C, &S, id, part * i, more, &tcp[part * i..end])
        })
        .collect()
}

fn ip_fragment(src: &[u8; 4], dst: &[u8; 4], id: u16, off: usize, more: bool, part: &[u8]) -> Vec<u8> {
    let mut p = vec![2u8, 0, 0, 0, 0, 2, 2, 0, 0, 0, 0, 1, 8, 0, 0x45, 0];
    p.extend_from_slice(&((20 + part.len()) as u16).to_be_bytes());
    p.extend_from_slice(&id.to_be_bytes());
    let word = (off / 8) as u16 | if more { 0x2000 } else { 0 };
    p.extend_from_slice(&word.to_be_bytes());
    p.extend_from_slice(&[64, 6, 0, 0]);
    p.extend_from_slice(src);
    p.extend_from_slice(dst);
    p.extend_from_slice(part);
    p
}

#[test]
fn out_of_order_and_gap_then_fill() {
    let mut b = Builder::new(1);
    shake(&mut b, 1000, 1000, 5000);
    b.add(10_000, from_c(1011, 5001, ACK, b"KK"));
    b.add(11_000, from_c(1001, 5001, PSH | ACK, b"0123456789"));
    let r = run(&b);
    assert_eq!(only(&r).dirs[0].bytes.len(), 12);
    assert!(r.engine.gaps(0).is_empty());
    assert!(only(&r).dirs[0].out_of_order >= 1);
}

#[test]
fn persistent_gap_remains_and_prefix_stops() {
    let mut b = Builder::new(1);
    shake(&mut b, 1000, 1000, 5000);
    b.add(10_000, from_c(1001, 5001, ACK, b"ab"));
    b.add(11_000, from_c(1007, 5001, ACK, b"yz"));
    let r = run(&b);
    let d = &only(&r).dirs[0];
    assert_eq!(d.bytes.len(), 2);
    assert_eq!(r.engine.gaps(0), vec![(0, 2, 6)]);
    assert_eq!(d.bytes.len() + d.pending.len(), 4);
}

#[test]
fn overlap_policies_first_vs_last() {
    let mut b = Builder::new(1);
    shake(&mut b, 1000, 1000, 5000);
    b.add(10_000, from_c(1001, 5001, ACK, b"AAAA"));
    b.add(11_000, from_c(1003, 5001, ACK, b"XX"));
    let cap = load(&b);
    let f = gist(&cap, OverlapPolicy::FirstSeen).to_canonical();
    let l = gist(&cap, OverlapPolicy::LastSeen).to_canonical();
    assert_ne!(f, l);
    assert!(f.contains("false"));
    assert!(l.contains("true"));
    assert_eq!(report(&cap, OverlapPolicy::FirstSeen).engine.sessions[0].dirs[0].bytes, b"AAAA");
    assert_eq!(report(&cap, OverlapPolicy::LastSeen).engine.sessions[0].dirs[0].bytes, b"AAXX");
}

#[test]
fn ipv4_fragments_reassemble() {
    let mut b = Builder::new(1);
    shake(&mut b, 1000, 1000, 5000);
    let big: Vec<u8> = (0..40).map(|i| b'A' + (i % 26)).collect();
    for (i, f) in fragments(1001, 5001, &big, 24, 0x4242).into_iter().enumerate() {
        b.add(10_000 + i as i128, f);
    }
    let r = run(&b);
    assert_eq!(only(&r).dirs[0].bytes.len(), 40);
    assert_eq!(only(&r).dirs[0].bytes, big);
    assert!(r.notes.is_empty());
}

#[test]
fn same_timestamp_fragments_ordered_by_frame_index() {
    let mut b = Builder::new(1);
    shake(&mut b, 0, 7000, 300);
    for f in fragments(7001, 301, &[b'Z'; 24], 16, 0x7777) {
        b.add(5000, f);
    }
    assert_eq!(only(&run(&b)).dirs[0].bytes.len(), 24);
}

#[test]
fn equal_timestamps_ordered_by_frame_index() {
    let mut b = Builder::new(1);
    shake(&mut b, 0, 1000, 5000);
    b.add(0, from_c(1006, 5001, ACK, b"56789"));
    b.add(0, from_c(1001, 5001, PSH | ACK, b"01234"));
    let r = run(&b);
    assert_eq!(only(&r).dirs[0].bytes, b"0123456789");
    let data: Vec<usize> =
        only(&r).segments.iter().filter(|s| s.len == 5).map(|s| s.frame_idx).collect();
    assert_eq!(data, vec![3, 4]);
}

#[test]
fn pcap_reader_parses_own_output() {
    let raw = [
        from_c(7, 0, SYN, b""),
        from_s(8, 8, SYN | ACK, b""),
        from_c(8, 9, ACK, b""),
        from_c(8, 9, PSH | ACK, b"xx"),
    ];
    let frames: Vec<Frame> = raw
        .iter()
        .enumerate()
        .map(|(i, d)| Frame { index: i as u64, ts_ns: (1234 + i as u64) * 1000, data: d.clone() })
        .collect();
    let bytes = write_pcap(&frames);
    let again = parse_pcap(&bytes).unwrap();
    assert_eq!(again.len(), 4);
    assert_eq!(again[0].ts_ns / 1000, 1234);
    assert!(capture::load(&bytes).unwrap().link == LinkKind::Ethernet);
}

#[test]
fn pcap_roundtrip_and_fixture_import_share_fingerprint() {
    let mut b = Builder::new(1);
    shake(&mut b, 1000, 100, 200);
    b.add(3000, from_c(101, 201, PSH | ACK, b"round-trip"));
    let fixture = load(&b);
    let frames: Vec<Frame> = fixture
        .frames
        .iter()
        .enumerate()
        .map(|(i, d)| Frame {
            index: i as u64,
            ts_ns: fixture.ts_us[i] as u64 * 1000,
            data: d.clone(),
        })
        .collect();
    let pcap = capture::load(&write_pcap(&frames)).unwrap();
    assert_eq!(pcap.frames, fixture.frames);
    assert_eq!(pcap.ts_us, fixture.ts_us);
    assert_eq!(frame_ids(&pcap), frame_ids(&fixture));
    let a = report(&pcap, OverlapPolicy::FirstSeen);
    let f = report(&fixture, OverlapPolicy::FirstSeen);
    let tell = |r: &Report, c: &Capture| {
        let o = options(OverlapPolicy::FirstSeen);
        workbench::fingerprint(&workbench::render(r, "capture", o, &frame_ids(c), false))
    };
    assert_eq!(tell(&a, &pcap), tell(&f, &fixture));
}

#[test]
fn policy_change_creates_new_version_without_overwriting() {
    let text = sample::fixture_json_string();
    let mut b = Builder::new(1);
    for f in sample::raw_frames() {
        b.add(f.ts_us, f.bytes);
    }
    let cap = load(&b);
    let make = |policy: OverlapPolicy, now: i128| {
        let told = gist(&cap, policy);
        let fp = workbench::fingerprint(&told);
        let input = reasm::hash::sha256_hex(text.as_bytes());
        Store::analyze_version(told, &fp, &input, policy, 120_000_000, now)
    };
    let (a1, t1) = make(OverlapPolicy::FirstSeen, 1);
    let (a2, t2) = make(OverlapPolicy::LastSeen, 2);
    assert_ne!(a1.id, a2.id);
    assert_ne!(a1.fingerprint, a2.fingerprint);
    let kept = vec![t1.into_bytes(), t2.into_bytes()];
    let ids: Vec<String> = Store::list_versions(&kept).into_iter().map(|a| a.id).collect();
    assert!(ids.contains(&a1.id) && ids.contains(&a2.id));
    let (again, _) = make(OverlapPolicy::FirstSeen, 3);
    assert_eq!(again.id, a1.id);
}

#[test]
fn fingerprint_is_canonical_and_stable_across_parse() {
    let mut b = Builder::new(1);
    for f in sample::raw_frames() {
        b.add(f.ts_us, f.bytes);
    }
    let v = gist(&load(&b), OverlapPolicy::FirstSeen);
    let reparsed = Json::parse(&v.to_pretty()).unwrap();
    assert_eq!(v.to_canonical(), reparsed.to_canonical());
}

#[test]
fn sources_name_the_frame_of_each_byte() {
    let mut b = Builder::new(1);
    shake(&mut b, 1000, 100, 500);
    b.add(3000, from_c(101, 501, ACK, b"abcd"));
    b.add(4000, from_c(103, 501, ACK, b"cdef"));
    let cap = load(&b);
    let ids = frame_ids(&cap);
    let v = gist(&cap, OverlapPolicy::FirstSeen);
    let s = &v.arr_at("sessions").unwrap()[0];
    let d = &s.arr_at("directions").unwrap()[0];
    assert!(d.get("data_hex").is_none());
    let runs: Vec<(i128, i128, i128, String)> = d
        .arr_at("sources")
        .unwrap()
        .iter()
        .map(|r| {
            (
                r.num_at("begin").unwrap(),
                r.num_at("end").unwrap(),
                r.num_at("frame").unwrap(),
                r.str_at("frame_sha256").unwrap().to_string(),
            )
        })
        .collect();
    assert_eq!(runs, vec![(0, 4, 3, ids[3].clone()), (4, 6, 4, ids[4].clone())]);
}

#[test]
fn times_too_far_apart_are_refused() {
    let mut b = Builder::new(1);
    b.add(i128::MAX, from_c(1, 0, SYN, b""));
    let cap = load(&b);
    assert!(workbench::try_run(&cap, options(OverlapPolicy::FirstSeen)).is_none());
}

const A1: [u8; 4] = [10, 0, 0, 1];
const A2: [u8; 4] = [10, 0, 0, 2];

fn to_b(seq: u32, ack: u32, flags: u8, payload: &[u8]) -> Vec<u8> {
    let h = Head { sport: 1000, dport: 80, seq, ack, flags };
    segment_v4(&A1, &A2, h, payload, 1, None)
}

fn to_a(seq: u32, ack: u32, flags: u8, payload: &[u8]) -> Vec<u8> {
    let h = Head { sport: 80, dport: 1000, seq, ack, flags };
    segment_v4(&A2, &A1, h, payload, 1, None)
}

fn frames(list: Vec<(u64, Vec<u8>)>) -> Vec<Frame> {
    list.into_iter()
        .enumerate()
        .map(|(i, (ts_ns, data))| Frame { index: i as u64, ts_ns, data })
        .collect()
}

fn first_seen(list: Vec<(u64, Vec<u8>)>) -> Analysis {
    analyze(&frames(list), &Config::default())
}

fn stream(a: &Analysis, i: usize, dir: usize) -> Vec<u8> {
    let file = &a.result.sessions[i].directions[dir].payload_file;
    a.payloads.iter().find(|p| &p.file == file).map(|p| p.data.clone()).unwrap_or_default()
}

#[test]
fn seq_wraparound_reassembles() {
    let a = first_seen(vec![
        (1_000, to_b(0xffff_fff8, 0, SYN, b"")),
        (2_000, to_a(0x0777, 0xffff_fff9, SYN | ACK, b"")),
        (3_000, to_b(0xffff_fff9, 0x0778, ACK, b"")),
        (4_000, to_b(0xffff_fff9, 0x0778, PSH | ACK, b"ABCDEFGH")),
        (5_000, to_b(1, 0x0778, PSH | ACK, b"IJ")),
    ]);
    assert_eq!(a.result.sessions.len(), 1);
    assert_eq!(stream(&a, 0, 0), b"ABCDEFGHIJ");
    let d = &a.result.sessions[0].directions[0];
    assert_eq!(d.intervals.len(), 1);
    assert_eq!(d.intervals[0].len, 10);
    assert_eq!(d.gaps.len(), 0);
}

#[test]
fn retransmission_first_seen_keeps_original() {
    let a = first_seen(vec![
        (1_000, to_b(1, 1, PSH | ACK, b"hello")),
        (2_000, to_b(1, 1, PSH | ACK, b"hello")),
    ]);
    assert_eq!(stream(&a, 0, 0), b"hello");
    assert_eq!(a.result.sessions[0].directions[0].retransmissions.len(), 1);
}

#[test]
fn out_of_order_is_flagged_and_reassembled() {
    let a = first_seen(vec![
        (1_000, to_b(7, 1, PSH | ACK, b"GHIJ")),
        (2_000, to_b(1, 1, PSH | ACK, b"ABCDEF")),
    ]);
    assert_eq!(stream(&a, 0, 0), b"ABCDEFGHIJ");
    let d = &a.result.sessions[0].directions[0];
    assert_eq!(d.out_of_order.len(), 1);
    assert_eq!(d.gaps.len(), 0);
}

#[test]
fn clean_ipv4_fragments_reassemble() {
    let whole = to_b(7, 1, PSH | ACK, b"fragments-joined-ok");
    let datagram = &whole[34..];
    let a = first_seen(vec![
        (1_000, ip_fragment(&A1, &A2, 0x1111, 0, true, &datagram[0..24])),
        (2_000, ip_fragment(&A1, &A2, 0x1111, 24, false, &datagram[24..])),
    ]);
    assert_eq!(a.result.sessions.len(), 1);
    assert!(a.evidence.ip_datagrams.iter().all(|d| d.status != "isolated"));
    assert_eq!(stream(&a, 0, 0), b"fragments-joined-ok");
}

#[test]
fn overlapping_ipv4_fragments_isolate_datagram_only() {
    let whole = to_b(1, 1, PSH | ACK, b"frag-overlap-data");
    let datagram = &whole[34..];
    assert_eq!(datagram.len(), 20 + 17);
    let (x, y) = ([10, 1, 0, 1], [10, 1, 0, 2]);
    let there = |seq, ack, flags, p: &[u8]| {
        segment_v4(&x, &y, Head { sport: 2000, dport: 81, seq, ack, flags }, p, 1, None)
    };
    let back = Head { sport: 81, dport: 2000, seq: 56, ack: 56, flags: SYN | ACK };
    let a = first_seen(vec![
        (1_000, there(55, 0, SYN, b"")),
        (2_000, segment_v4(&y, &x, back, b"", 1, None)),
        (3_000, there(56, 81, PSH | ACK, b"clean")),
        (4_000, ip_fragment(&A1, &A2, 0xABCD, 0, true, &datagram[0..30])),
        (5_000, ip_fragment(&A1, &A2, 0xABCD, 16, false, &datagram[16..])),
    ]);
    assert_eq!(a.result.sessions.len(), 1);
    let isolated: Vec<_> =
        a.evidence.ip_datagrams.iter().filter(|d| d.status == "isolated").collect();
    assert_eq!(isolated.len(), 1);
    assert!(isolated[0].reason.contains("overlapping fragments"));
}

#[test]
fn equal_timestamps_follow_original_frame_index() {
    let a = first_seen(vec![
        (1_000, to_b(1, 1, PSH | ACK, b"AB")),
        (1_000, to_b(3, 1, PSH | ACK, b"CD")),
        (1_000, to_b(5, 1, PSH | ACK, b"EF")),
    ]);
    assert_eq!(stream(&a, 0, 0), b"ABCDEF");
    assert_eq!(a.result.sessions[0].directions[0].out_of_order.len(), 0);
}

#[test]
fn fixture_roundtrip_keeps_fingerprint_stable() {
    let list = frames(vec![
        (1_000, to_b(42, 0, SYN, b"")),
        (2_000, to_a(77, 43, SYN | ACK, b"")),
        (3_000, to_b(43, 78, ACK, b"")),
        (4_000, to_b(43, 78, PSH | ACK, b"fingerprint-me")),
        (5_000, to_b(43, 78, PSH | ACK, b"fingerprint-me")),
        (6_000, to_b(43 + 15, 78, PSH | ACK, b"!!")),
    ]);
    let again = parse_fixture(&export_fixture(&list)).expect("fixture parses");
    let print = |a: Analysis| a.result.fingerprint;
    let f1 = print(analyze(&list, &Config::default()));
    let f2 = print(analyze(&again, &Config::default()));
    assert_eq!(f1, f2);
    let last = Config::default().with_overlap(session::OverlapPolicy::LastSeen);
    assert_ne!(f1, print(analyze(&again, &last)));
}

fn ended(t: u64, isn_c: u32, isn_s: u32, data: &[u8]) -> Vec<(u64, Vec<u8>)> {
    vec![
        (t, to_b(isn_c, 0, SYN, b"")),
        (t + 1000, to_a(isn_s, isn_c + 1, SYN | ACK, b"")),
        (t + 2000, to_b(isn_c + 1, isn_s + 1, ACK, b"")),
        (t + 3000, to_b(isn_c + 1, isn_s + 1, PSH | ACK, data)),
    ]
}

#[test]
fn reset_after_fin_allows_reuse() {
    let mut list = ended(1_000, 100, 900, b"race");
    list.push((5_000, to_b(105, 901, FIN | ACK, b"")));
    list.push((6_000, to_a(901, 106, RST, b"")));
    list.push((7_000, to_b(7_777, 0, SYN, b"")));
    list.push((8_000, to_a(8_888, 7_778, SYN | ACK, b"")));
    list.push((9_000, to_b(7_778, 8_889, ACK, b"")));
    let a = first_seen(list);
    assert_eq!(a.result.sessions.len(), 2);
    assert_eq!(a.result.sessions[0].close_reason, "rst");
    assert_eq!(a.result.sessions[0].generation, 0);
    assert_eq!(a.result.sessions[1].generation, 1);
}

#[test]
fn timeout_splits_generations_even_without_fin_or_rst() {
    let a = first_seen(vec![
        (1_000, to_b(10, 1, PSH | ACK, b"first-era")),
        (200_000_000_000, to_b(999, 1, PSH | ACK, b"second-era")),
    ]);
    assert_eq!(a.result.sessions.len(), 2);
    assert_eq!(a.result.sessions[0].close_reason, "timeout");
    assert!(a.result.sessions[1].partial);
}

#[test]
fn reuse_after_fin_starts_anew() {
    let mut list = ended(1_000, 1000, 5000, b"old-connection");
    list.push((5_000, to_b(1015, 5001, FIN | ACK, b"")));
    list.push((6_000, to_a(5001, 1016, ACK, b"")));
    list.push((7_000, to_a(5001, 1016, FIN | ACK, b"")));
    list.push((8_000, to_b(1016, 5002, ACK, b"")));
    list.extend(ended(9_000, 900_000, 700_000, b"new-connection"));
    let a = first_seen(list);
    let of = |g: &[u8]| (0..a.result.sessions.len()).find(|i| stream(&a, *i, 0) == g).unwrap();
    let (old, new) = (of(b"old-connection"), of(b"new-connection"));
    assert_eq!(a.result.sessions[old].close_reason, "fin");
    assert_eq!(a.result.sessions.len(), 3);
    let numbers: Vec<u32> = a.result.sessions.iter().map(|s| s.generation).collect();
    assert_eq!(numbers, vec![0, 1, 2]);
    assert_eq!((old, new), (0, 2));
    assert!(!a.result.sessions[new].partial);
}

#[test]
fn pcap_roundtrip_import() {
    let list = [to_b(99, 0, SYN, b""), to_b(100, 1, PSH | ACK, b"pcap-data")];
    let mut bytes = Vec::new();
    bytes.extend_from_slice(&0xa1b2_c3d4u32.to_le_bytes());
    bytes.extend_from_slice(&2u16.to_le_bytes());
    bytes.extend_from_slice(&4u16.to_le_bytes());
    bytes.extend_from_slice(&0i32.to_le_bytes());
    bytes.extend_from_slice(&0u32.to_le_bytes());
    bytes.extend_from_slice(&65535u32.to_le_bytes());
    bytes.extend_from_slice(&1u32.to_le_bytes());
    for (i, p) in list.iter().enumerate() {
        bytes.extend_from_slice(&(100u32 + i as u32).to_le_bytes());
        bytes.extend_from_slice(&500u32.to_le_bytes());
        bytes.extend_from_slice(&(p.len() as u32).to_le_bytes());
        bytes.extend_from_slice(&(p.len() as u32).to_le_bytes());
        bytes.extend_from_slice(p);
    }
    let got = parse_pcap(&bytes).unwrap();
    assert_eq!(got.len(), 2);
    assert_eq!(got[0].ts_ns, 100_000_500_000);
    let a = analyze(&got, &Config::default());
    assert_eq!(stream(&a, 0, 0), b"pcap-data");
}

#[test]
fn versions_of_uploads() {
    let mut b = Builder::new(1);
    shake(&mut b, 1000, 100, 500);
    b.add(3000, from_c(101, 501, ACK, b"abcd"));
    let data = b.to_json_string().into_bytes();
    let o = options(OverlapPolicy::FirstSeen);
    let make = |now| workbench::make_version(&data, o, now).unwrap().unwrap();
    let v = make(1);
    assert_eq!(v.capture.frames.len(), 4);
    assert_eq!(v.artifact.input_sha, reasm::hash::sha256_hex(&data));
    let kept = Json::parse(&v.text).unwrap();
    let a = kept.get("analysis").unwrap();
    assert_eq!(a.str_at("version_id"), Some(v.artifact.id.as_str()));
    assert_eq!(make(2).artifact.id, v.artifact.id);
    let last = workbench::make_version(&data, options(OverlapPolicy::LastSeen), 1);
    assert_ne!(last.unwrap().unwrap().artifact.id, v.artifact.id);
    match workbench::make_version(&[0xff, 0xfe], o, 1) {
        Some(Err(e)) => assert_eq!(e, "input is neither pcap nor UTF-8 JSON"),
        _ => panic!("an error was expected"),
    }
    let mut far = Builder::new(1);
    far.add(i128::MAX, from_c(1, 0, SYN, b""));
    assert!(workbench::make_version(far.to_json_string().as_bytes(), o, 1).is_none());
}
