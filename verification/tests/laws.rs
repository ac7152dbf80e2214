//! Promises that speak of several calls or of every input, on chosen values.

use reasm::builder::{ipv4, parse_ipv4, segment_v4, Builder, Head};
use reasm::capture;
use reasm::frag::{FragConfig, FragEmit, FragTable, QuarantineReason};
use reasm::fragment::{Frag, FragKey, FragResult, FragmentReassembler};
use reasm::frame::{self, IpFrame, ParsedKind, TcpSegment, TCP_ACK, TCP_SYN};
use reasm::ipfrag::{FragOutcome, IpReassembler};
use reasm::ipreasm::reassemble;
use reasm::json::Json;
use reasm::model::{IpPacket, ACK, FIN, PSH, SYN};
use reasm::pcap::{parse_pcap, write_pcap, Frame};
use reasm::reasm::{Direction, OverlapPolicy};
use reasm::seq::SeqSpace;
use reasm::tcp;
use reasm::types::{decode_hex, encode_hex, try_decode_hex, Ip, LinkKind};
use reasm::wire::{self, FragInfo, FragmentPiece, IpMeta, IpVersion, LINK_ETHERNET};
use reasm::workbench::{self, AnalysisOptions};

const C: [u8; 4] = [10, 0, 0, 1];
const S: [u8; 4] = [10, 0, 0, 2];

fn from_c(seq: u32, ack: u32, flags: u8, payload: &[u8]) -> Vec<u8> {
    let h = Head { sport: 40000, dport: 80, seq, ack, flags };
    segment_v4(&C, &S, h, payload, 1, None)
}

fn from_s(seq: u32, ack: u32, flags: u8, payload: &[u8]) -> Vec<u8> {
    let h = Head { sport: 80, dport: 40000, seq, ack, flags };
    segment_v4(&S, &C, h, payload, 1, None)
}

fn segment(seq: u32, flags: u8, payload: &[u8]) -> TcpSegment {
    match frame::parse_frame(&from_c(seq, 1, flags, payload), LinkKind::Ethernet).unwrap().kind {
        ParsedKind::Ip(IpFrame::Complete(i)) => frame::parse_tcp(&i.payload).unwrap(),
        _ => panic!("whole datagram expected"),
    }
}

#[test]
fn gaps_lie_between_held_offsets() {
    let mut s = SeqSpace::new();
    s.insert(5, b"x", 0, reasm::seq::OverlapPolicy::FirstSeen);
    assert_eq!((s.min(), s.max()), (Some(5), Some(5)));
    assert!(s.gaps().is_empty());
    s.insert(9, b"yz", 1, reasm::seq::OverlapPolicy::FirstSeen);
    assert_eq!(s.gaps(), vec![(6, 9)]);
    assert!(SeqSpace::new().gaps().is_empty());
}

fn ip_fragment(id: u32, offset: usize, more: bool, data: &[u8]) -> IpFrame {
    IpFrame::Fragment {
        src: Ip::V4(C),
        dst: Ip::V4(S),
        protocol: 6,
        frag_id: id,
        offset,
        more,
        data: data.to_vec(),
    }
}

#[test]
fn an_isolated_datagram_is_never_completed() {
    let mut t = IpReassembler::new();
    assert!(matches!(t.add(0, &ip_fragment(1, 0, true, &[1; 16])), FragOutcome::Pending));
    assert_eq!(t.leftovers().len(), 1);
    match t.add(1, &ip_fragment(1, 8, true, &[2; 16])) {
        FragOutcome::Isolated(q) => assert_eq!(q.fragment_indices, vec![0usize, 1]),
        _ => panic!("the datagram is isolated"),
    }
    assert!(t.leftovers().is_empty());
    assert!(matches!(t.add(2, &ip_fragment(1, 0, true, &[1; 16])), FragOutcome::Pending));
    assert!(matches!(t.add(3, &ip_fragment(1, 16, false, &[3; 8])), FragOutcome::Pending));
    assert!(t.leftovers().is_empty());
    assert!(matches!(t.add(4, &ip_fragment(2, 0, true, &[1; 8])), FragOutcome::Pending));
    match t.add(5, &ip_fragment(2, 8, false, &[2; 8])) {
        FragOutcome::Complete(a) => {
            assert_eq!(a.bytes, [[1u8; 8], [2u8; 8]].concat());
            assert_eq!(a.frame_indices, vec![4usize, 5]);
        }
        _ => panic!("the other datagram completes"),
    }
}

#[test]
fn what_cannot_be_fed_is_told() {
    let mut t = IpReassembler::new();
    let whole = match frame::parse_frame(&from_c(1, 1, ACK, b"x"), LinkKind::Ethernet).unwrap().kind {
        ParsedKind::Ip(f) => f,
        _ => panic!("IP expected"),
    };
    assert!(t.try_add(0, &whole).is_none());
    assert!(matches!(
        t.try_add(1, &ip_fragment(1, 0, true, &[1; 8])),
        Some(FragOutcome::Pending)
    ));
    let key = || FragKey { src: "a".into(), dst: "b".into(), ident: 1, protocol: 6 };
    let part = |offset, more, frame| Frag { offset, more, data: vec![7; 8], frame, ts: 0 };
    let mut r = FragmentReassembler::with_limits(1000, 1000, 1000);
    assert!(matches!(r.try_add(key(), part(8, true, 0)), Some(FragResult::Pending)));
    assert!(r.try_add(key(), part(0, false, 1)).is_none());
    let mut short = vec![0x46u8, 0, 0, 20];
    short.resize(24, 0);
    assert!(frame::try_parse_frame(&short, LinkKind::Raw).is_none());
    assert!(frame::try_parse_frame(&from_c(1, 1, ACK, b"x"), LinkKind::Ethernet).unwrap().is_ok());
    assert!(frame::try_parse_frame(&[1, 2, 3], LinkKind::Ethernet).unwrap().is_err());
    let mut v6 = vec![0u8; 12];
    v6.extend_from_slice(&[0x86, 0xdd, 0x60, 0, 0, 0, 0, 1, 0, 64]);
    v6.resize(14 + 41, 0);
    assert!(wire::try_parse_frame(&v6, LINK_ETHERNET, 0).is_none());
    assert!(wire::try_parse_frame(&from_c(1, 1, ACK, b"x"), LINK_ETHERNET, 0).unwrap().is_ok());
    assert!(wire::try_parse_frame(&[1, 2, 3], LINK_ETHERNET, 0).unwrap().is_err());
    assert!(try_decode_hex("aé1").is_none());
    assert_eq!(try_decode_hex("4 1").unwrap().unwrap(), b"A");
    assert!(try_decode_hex("4").unwrap().is_err());
}

#[test]
fn an_ipv6_fragment_offset_counts_eight_bytes() {
    let mut p = vec![0x60u8, 0, 0, 0, 0, 16, 44, 64];
    p.resize(40, 1);
    p.extend_from_slice(&[6, 0, 0, 9, 0, 0, 0, 5]);
    p.extend_from_slice(&[7; 8]);
    match frame::parse_frame(&p, LinkKind::Raw).unwrap().kind {
        ParsedKind::Ip(IpFrame::Fragment { offset, more, frag_id, data, .. }) => {
            assert_eq!((offset, more, frag_id), (8, true, 5));
            assert_eq!(data, [7; 8]);
        }
        _ => panic!("fragment expected"),
    }
}

fn piece(id: u32, offset: u16, more: bool, data: &[u8]) -> FragmentPiece {
    FragmentPiece {
        ip: IpMeta {
            version: IpVersion::V4,
            src: Ip::V4(C),
            dst: Ip::V4(S),
            protocol: 6,
            id,
            fragment: FragInfo { more_fragments: more, offset },
            header_checksum_ok: true,
        },
        data: data.to_vec(),
    }
}

#[test]
fn a_datagram_over_the_budget_stays_quarantined() {
    let mut t = FragTable::new();
    let small = FragConfig { max_bytes: 32, max_pieces: 8 };
    assert!(matches!(t.add(piece(1, 0, true, &[1; 16]), 0, &small), FragEmit::Pending));
    match t.add(piece(1, 48, false, &[2; 8]), 1, &small) {
        FragEmit::Quarantined(q) => assert_eq!(q.reason, QuarantineReason::Oversize),
        _ => panic!("the datagram must be quarantined"),
    }
    assert!(t.incomplete_groups().is_empty());
    assert!(matches!(t.add(piece(1, 0, true, &[1; 8]), 2, &small), FragEmit::Pending));
    assert!(matches!(t.add(piece(1, 8, false, &[1; 8]), 3, &small), FragEmit::Pending));
    let mut t = FragTable::new();
    let cfg = FragConfig::default();
    assert!(matches!(t.add(piece(1, 16, true, &[1; 8]), 0, &cfg), FragEmit::Pending));
    assert!(matches!(t.add(piece(1, 8, false, &[1; 8]), 1, &cfg), FragEmit::Quarantined(_)));
    assert!(matches!(t.add(piece(1, 0, true, &[1; 8]), 2, &cfg), FragEmit::Pending));
    assert!(t.incomplete_groups().is_empty());
}

#[test]
fn pieces_complete_a_datagram_in_any_order() {
    let whole: Vec<u8> = (0..20).collect();
    let cut = [(0usize, 8usize), (8, 16), (16, 20)];
    for order in [[0, 1, 2], [0, 2, 1], [1, 0, 2], [1, 2, 0], [2, 0, 1], [2, 1, 0]] {
        let mut t = FragTable::new();
        let cfg = FragConfig::default();
        for (n, k) in order.iter().enumerate() {
            let (a, b) = cut[*k];
            match t.add(piece(3, a as u16, b < 20, &whole[a..b]), 10 + n, &cfg) {
                FragEmit::Pending => {
                    assert!(n < 2);
                    let left = t.incomplete_groups();
                    assert_eq!(left.len(), 1);
                    assert_eq!(left[0].piece_count, n + 1);
                    assert_eq!(left[0].frames, (10..11 + n).collect::<Vec<usize>>());
                }
                FragEmit::Complete(d) => {
                    assert_eq!(n, 2);
                    assert_eq!(d.segment, whole);
                    assert_eq!(d.piece_frames, vec![10, 11, 12]);
                }
                FragEmit::Quarantined(_) => panic!("nothing overlaps"),
            }
        }
        assert!(t.incomplete_groups().is_empty());
    }
}

#[test]
fn a_covered_segment_with_other_bytes_is_a_conflict_and_a_retransmission() {
    let mut d = Direction::new("c".to_string());
    d.add_syn(0, &segment(100, TCP_SYN, &[]));
    d.add_data(1, &segment(101, TCP_ACK, b"AAAA"), OverlapPolicy::FirstSeen);
    d.add_data(2, &segment(103, TCP_ACK, b"ZZ"), OverlapPolicy::FirstSeen);
    let r = d.finalize();
    assert_eq!(r.conflict_segments, 1);
    assert_eq!(r.retransmit_segments, 1);
    assert_eq!(r.segments.last().unwrap().classifications, vec!["retransmission"]);
}

#[test]
fn the_anchor_of_a_direction_stays() {
    let mut d = Direction::new("c".to_string());
    d.add_data(0, &segment(500, TCP_ACK, b"mid"), OverlapPolicy::FirstSeen);
    assert_eq!(d.isn_raw(), Some(499));
    d.add_syn(1, &segment(300, TCP_SYN, &[]));
    d.add_data(2, &segment(510, TCP_ACK, b"late"), OverlapPolicy::FirstSeen);
    assert_eq!(d.isn_raw(), Some(499));
    let r = d.finalize();
    assert!(!r.anchored_by_syn);
    let ranges = |v: &Vec<reasm::reasm::Interval>| -> Vec<(i64, i64)> {
        v.iter().map(|x| (x.start, x.end)).collect()
    };
    assert_eq!(ranges(&r.gaps), vec![(3, 10)]);
    assert_eq!(ranges(&r.covered_intervals), vec![(0, 3), (10, 14)]);
    assert_eq!(r.data_rel_range.end, 14);
    assert_eq!(r.delivered_length, 3);
    assert_eq!(r.delivered_hex.len(), 6);
}

#[test]
fn octets_written_with_dots_read_back() {
    for a in [[0, 0, 0, 0], [255, 255, 255, 255], [10, 0, 200, 7]] {
        assert_eq!(parse_ipv4(&ipv4(a)), a);
    }
}

#[test]
fn hexadecimal_text_reads_back_with_white_space_anywhere() {
    let data: Vec<u8> = (0..=255).collect();
    let spaced: String = encode_hex(&data).chars().flat_map(|c| [' ', c, '\n']).collect();
    assert_eq!(decode_hex(&spaced).unwrap(), data);
    assert!(decode_hex("abc").is_err());
    assert!(decode_hex("a b c").is_err());
}

#[test]
fn a_vlan_tag_changes_nothing() {
    let plain = from_c(7, 8, PSH | ACK, b"tagged");
    let want = format!("{:?}", frame::parse_frame(&plain, LinkKind::Ethernet));
    let mut tagged = plain.clone();
    for tag in [[0x81, 0x00, 0, 5], [0x88, 0xa8, 1, 2], [0x91, 0x00, 0xff, 0xff]] {
        tagged.splice(12..12, tag);
        if tag[0] == 0x81 {
            let a = format!("{:?}", wire::parse_frame(&plain, LINK_ETHERNET, 0));
            assert_eq!(format!("{:?}", wire::parse_frame(&tagged, LINK_ETHERNET, 0)), a);
        }
        assert_eq!(format!("{:?}", frame::parse_frame(&tagged, LinkKind::Ethernet)), want);
    }
}

fn pcap(frames: &[Vec<u8>], nano: bool, big: bool) -> Vec<u8> {
    let w = |v: u32| if big { v.to_be_bytes() } else { v.to_le_bytes() };
    let mut out = Vec::new();
    out.extend_from_slice(&w(if nano { 0xa1b2_3c4d } else { 0xa1b2_c3d4 }));
    out.extend_from_slice(&if big { [0, 2, 0, 4] } else { [2, 0, 4, 0] });
    out.extend_from_slice(&[0; 8]);
    out.extend_from_slice(&w(65535));
    out.extend_from_slice(&w(1));
    for (i, f) in frames.iter().enumerate() {
        out.extend_from_slice(&w(i as u32));
        out.extend_from_slice(&w(5000));
        out.extend_from_slice(&w(f.len() as u32));
        out.extend_from_slice(&w(f.len() as u32 + 3));
        out.extend_from_slice(f);
    }
    out
}

#[test]
fn a_pcap_loads_alike_in_both_byte_orders() {
    let frames = vec![from_c(1, 0, SYN, b""), from_c(2, 1, ACK, b"data")];
    for nano in [false, true] {
        let files = [pcap(&frames, nano, false), pcap(&frames, nano, true)];
        for file in &files {
            let c = capture::load(file).unwrap();
            assert_eq!(c.kind, "pcap");
            assert_eq!(c.frames, frames);
            let step = if nano { 5 } else { 5000 };
            assert_eq!(c.ts_us, vec![step, 1_000_000 + step]);
            let long: Vec<usize> = frames.iter().map(|f| f.len() + 3).collect();
            assert_eq!(c.orig_len, long);
            assert!(capture::load(&file[..file.len() - 1]).is_err());
            let ns = if nano { 5_000 } else { 5_000_000 };
            let read = parse_pcap(file).unwrap();
            assert_eq!(read.iter().map(|f| f.data.clone()).collect::<Vec<_>>(), frames);
            assert_eq!((read[0].ts_ns, read[1].ts_ns), (ns, 1_000_000_000 + ns));
            let raw = reasm::parse::parse_pcap(file).unwrap();
            assert_eq!(raw.iter().map(|f| f.data.clone()).collect::<Vec<_>>(), frames);
            assert_eq!((raw[0].ts_micros, raw[1].ts_micros), (step as i64, 1_000_000 + step as i64));
        }
    }
}

fn packet(frame_idx: usize, id: u32, frag_off: usize, mf: bool, l4: &[u8]) -> IpPacket {
    IpPacket {
        frame_idx,
        ip_version: 4,
        src: "10.0.0.1".to_string(),
        dst: "10.0.0.2".to_string(),
        ip_id: id,
        proto: 17,
        frag_off,
        mf,
        l4: l4.to_vec(),
        tcp: None,
    }
}

#[test]
fn one_datagram_of_fragments_leaves_the_others_alone() {
    let all = || {
        vec![
            packet(0, 0, 0, false, b"whole"),
            packet(1, 1, 0, true, &[1; 8]),
            packet(2, 2, 0, true, &[3; 8]),
            packet(3, 1, 4, true, &[9; 8]),
            packet(4, 2, 8, false, &[4; 8]),
            packet(5, 1, 8, false, &[2; 8]),
        ]
    };
    let told = |v: Vec<IpPacket>| -> Vec<(usize, Vec<u8>)> {
        let r = reassemble(v, &[]);
        assert!(r.datagrams.iter().all(|p| !p.mf && p.frag_off == 0));
        r.datagrams.into_iter().map(|p| (p.frame_idx, p.l4)).collect()
    };
    let want = vec![(0, b"whole".to_vec()), (2, [[3u8; 8], [4u8; 8]].concat())];
    assert_eq!(told(all()), want);
    assert_eq!(told(all().into_iter().filter(|p| p.ip_id != 1).collect()), want);
    let less = told(all().into_iter().filter(|p| p.ip_id != 2).collect());
    assert_eq!(less, vec![(0, b"whole".to_vec())]);
}

fn options(policy: tcp::OverlapPolicy) -> AnalysisOptions {
    AnalysisOptions { policy, timeout_us: 2_000_000 }
}

#[test]
fn the_fingerprint_of_an_exported_version_is_the_recorded_one() {
    let mut b = Builder::new(1);
    b.add(0, from_c(100, 0, SYN, b""));
    b.add(10, from_c(101, 1, PSH | ACK, b"AAAA"));
    b.add(20, from_c(103, 1, PSH | ACK, b"ZZ"));
    let data = b.to_json_string().into_bytes();
    let make = |p| workbench::make_version(&data, options(p), 77).unwrap().unwrap();
    let first = make(tcp::OverlapPolicy::FirstSeen);
    assert!(first.text.contains("data_hex"));
    let kept = Json::parse(&first.text).unwrap();
    assert_eq!(workbench::fingerprint(&kept), first.artifact.fingerprint);
    let again = Json::parse(&kept.to_canonical()).unwrap();
    assert_eq!(workbench::fingerprint(&again), first.artifact.fingerprint);
    let last = make(tcp::OverlapPolicy::LastSeen);
    assert_ne!(first.text, last.text);
    assert_ne!(first.artifact.fingerprint, last.artifact.fingerprint);
    assert_ne!(first.artifact.result_sha, last.artifact.result_sha);
}

#[test]
fn volatile_keys_are_stripped_at_any_depth() {
    let v = Json::parse("{\"a\":[{\"data_hex\":\"00\",\"b\":1}],\"analysis\":2,\"c\":null}").unwrap();
    assert_eq!(reasm::bare::strip(&v).to_canonical(), "{\"a\":[{\"b\":1}],\"c\":null}");
}

#[test]
fn a_closed_session_stays_and_a_reuse_opens_one_more() {
    let mut b = Builder::new(1);
    b.add(0, from_c(1000, 0, SYN, b""));
    b.add(10, from_s(5000, 1001, SYN | ACK, b""));
    b.add(20, from_c(1001, 5001, PSH | ACK, b"old-connection"));
    b.add(30, from_c(1015, 5001, FIN | ACK, b""));
    b.add(40, from_s(5001, 1016, FIN | ACK, b""));
    let shut = |b: &Builder| {
        let cap = capture::load(b.to_json_string().as_bytes()).unwrap();
        workbench::run(&cap, options(tcp::OverlapPolicy::FirstSeen)).engine
    };
    let before = shut(&b);
    assert_eq!(before.sessions.len(), 1);
    assert_eq!(before.sessions[0].state, "fin-closed");
    b.add(50, from_c(900_000, 0, SYN, b""));
    b.add(60, from_s(700_000, 900_001, SYN | ACK, b""));
    b.add(70, from_c(900_001, 700_001, PSH | ACK, b"new-connection"));
    let after = shut(&b);
    assert_eq!(after.sessions.len(), 2);
    assert_eq!((after.sessions[0].gen, after.sessions[1].gen), (1, 2));
    assert_eq!(after.sessions[0].state, "fin-closed");
    assert_eq!(after.sessions[0].dirs[0].bytes, b"old-connection");
    assert_eq!(after.sessions[0].segments.len(), before.sessions[0].segments.len());
    assert_eq!(after.sessions[1].dirs[0].bytes, b"new-connection");
    assert!(!after.sessions[1].mid_capture);
}

#[test]
fn a_capture_written_as_pcap_keeps_its_analysis() {
    let list: Vec<Frame> = [from_c(100, 0, SYN, b""), from_c(101, 501, ACK, b"pcap-roundtrip")]
        .into_iter()
        .enumerate()
        .map(|(i, data)| Frame { index: i as u64, ts_ns: i as u64 * 10_000_000, data })
        .collect();
    let again = parse_pcap(&write_pcap(&list)).unwrap();
    let print = |v: &Vec<Frame>| {
        let a = reasm::analyze::analyze(v, &reasm::analyze::Config::default());
        a.result.fingerprint
    };
    assert_eq!(print(&list), print(&again));
}
