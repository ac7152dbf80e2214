//! Captures, analysis records, versions, and what is kept of them.

use reasm::analysis::{
    analyze, fingerprint, frame_order, input_hash, Frame, Policy, SegKind, TrackedDirection,
    TrackedSegment, TrackedSession,
};
use reasm::analyze::Config;
use reasm::builder::{
    segment_v4, tcp_packet, tcp_packet_frag, tcp_packet_v6, Builder, Head,
};
use reasm::capture::{load, try_load};
use reasm::demo::demo_fixture;
use reasm::engine::{
    evidence_json, list_json, parse_persisted_config, AnalysisConfig, AnalysisEngine,
    ContentStore,
};
use reasm::frame::{parse_frame, parse_tcp, IpFrame, ParsedKind};
use reasm::hash::sha256_hex;
use reasm::json::Json;
use reasm::model::{self, LinkType, Stamp};
use reasm::pcap;
use reasm::sample::{fixture_json_string, raw_frames};
use reasm::seq::OverlapPolicy;
use reasm::session;
use reasm::storage::{frame_ids, input_id, Store};
use reasm::store;
use reasm::tcp;
use reasm::types::{Ip, LinkKind};
use reasm::wire;

#[test]
fn built_frames_read_back() {
    let f = tcp_packet("10.0.0.1", 5, "10.0.0.2", 6, 7, 8, 0x18, b"abc", 9);
    match wire::parse_frame(&f, wire::LINK_ETHERNET, 0).unwrap() {
        wire::FrameOutcome::Complete(c) => {
            assert!(c.ip.header_checksum_ok);
            let t = c.tcp.unwrap();
            assert!(t.checksum_ok);
            assert_eq!((t.src_port, t.dst_port, t.seq, t.ack), (5, 6, 7, 8));
            assert_eq!(c.payload, b"abc".to_vec());
        }
        _ => panic!("whole datagram expected"),
    }
    match parse_frame(&f, LinkKind::Ethernet).unwrap().kind {
        ParsedKind::Ip(IpFrame::Complete(i)) => {
            assert_eq!((i.src, i.dst), (Ip::V4([10, 0, 0, 1]), Ip::V4([10, 0, 0, 2])));
            assert_eq!(parse_tcp(&i.payload).unwrap().window, 64240);
        }
        _ => panic!("whole datagram expected"),
    }
    let g = tcp_packet_frag("10.0.0.1", 5, "10.0.0.2", 6, 7, 8, 0, b"", 9, Some((17, true)));
    match parse_frame(&g, LinkKind::Ethernet).unwrap().kind {
        ParsedKind::Ip(IpFrame::Fragment { offset, more, frag_id, .. }) => {
            assert_eq!((offset, more, frag_id), (16, true, 9));
        }
        _ => panic!("fragment expected"),
    }
    let v6 = tcp_packet_v6("2001:db8::1", 1, "::2", 2, 3, 4, 2, b"x");
    match wire::parse_frame(&v6, wire::LINK_ETHERNET, 0).unwrap() {
        wire::FrameOutcome::Complete(c) => {
            assert!(c.tcp.unwrap().checksum_ok);
            assert_eq!(c.ip.dst.to_text(), "::2");
        }
        _ => panic!("whole datagram expected"),
    }
}

#[test]
fn fixtures_load_back() {
    let mut b = Builder::new(1);
    b.add(-5, vec![1, 2, 3]);
    b.add(7, vec![]);
    assert_eq!(b.frame_count(), 2);
    assert_eq!(
        b.to_json_string(),
        "{\"frames\":[{\"data\":\"010203\",\"ts_us\":-5},{\"data\":\"\",\"ts_us\":7}],\"linktype\":1}"
    );
    let c = load(b.to_json_string().as_bytes()).unwrap();
    assert_eq!(c.len(), 2);
    assert_eq!(c.link, LinkKind::Ethernet);
    assert_eq!(c.kind, "fixture");
    assert_eq!(c.frames, vec![vec![1, 2, 3], vec![]]);
    assert_eq!(c.ts_us, vec![-5, 7]);
    assert_eq!(c.orig_len, vec![3, 0]);
    for name in ["wrap", "retrans", "outoforder", "gap", "reuse", "midcap", "finrst", "frag_overlap", "same_ts", "mixed"] {
        assert!(load(demo_fixture(name).as_bytes()).unwrap().len() >= 2);
    }
    assert_eq!(demo_fixture("mixed"), demo_fixture("anything"));
}

#[test]
fn fixtures_with_other_keys() {
    let c = load(b"{\"linktype\":113,\"frames\":[{\"hex\":\"0a\",\"ts\":4,\"orig_len\":9},{\"data\":\"0b\"}]}").unwrap();
    assert_eq!(c.link, LinkKind::LinuxSll);
    assert_eq!(c.ts_us, vec![4, 1]);
    assert_eq!(c.orig_len, vec![9, 1]);
    assert_eq!(load(b"{\"linktype\":228,\"frames\":[]}").unwrap().link, LinkKind::Ipv4Raw);
    assert_eq!(load(b"{\"linktype\":31,\"frames\":[]}").unwrap().link, LinkKind::Ipv6Raw);
    let e = |t: &[u8]| load(t).err().unwrap();
    assert_eq!(e(b"{\"linktype\":2,\"frames\":[]}"), "unsupported linktype 2");
    assert_eq!(e(b"{}"), "fixture needs a frames array");
    assert_eq!(e(b"{\"frames\":[{}]}"), "frame 0 missing data");
    assert_eq!(e(b"{\"frames\":[{\"data\":\"0\"}]}"), "frame 0 bad hex");
    assert_eq!(e(&[0xff, 0xfe]), "input is neither pcap nor UTF-8 JSON");
    assert_eq!(e(b"<<<"), "invalid number '' at byte 0");
    assert!(try_load(b"\"\\ud800\\u0000\"").is_none());
}

fn pcap_bytes(magic: u32, link: u32, swapped: bool) -> Vec<u8> {
    let put = |v: u32| if swapped { v.to_be_bytes() } else { v.to_le_bytes() };
    let mut b = put(magic).to_vec();
    b.extend_from_slice(&[0; 16]);
    b.extend_from_slice(&put(link));
    for v in [3u32, 5000, 2, 9] {
        b.extend_from_slice(&put(v));
    }
    b.extend_from_slice(&[0xaa, 0xbb]);
    b
}

#[test]
fn pcap_files_in_both_orders() {
    for swapped in [false, true] {
        let c = load(&pcap_bytes(0xa1b2c3d4, 1, swapped)).unwrap();
        assert_eq!((c.ts_us[0], c.orig_len[0]), (3_005_000, 9));
        let n = load(&pcap_bytes(0xa1b23c4d, 228, swapped)).unwrap();
        assert_eq!((n.ts_us[0], n.link), (3_000_005, LinkKind::Ipv4Raw));
        assert_eq!(n.frames, vec![vec![0xaa, 0xbb]]);
    }
    let whole = pcap_bytes(0xa1b2c3d4, 1, false);
    assert_eq!(load(&whole[..20]).err().unwrap(), "pcap too short");
    assert_eq!(load(&whole[..41]).err().unwrap(), "truncated pcap record");
    assert_eq!(load(&whole[..30]).unwrap().len(), 0);
    assert_eq!(load(&pcap_bytes(0xa1b2c3d4, 7, false)).err().unwrap(), "unsupported linktype 7");
}

#[test]
fn frames_of_captures() {
    let whole = pcap_bytes(0xa1b2c3d4, 0x1_0065, false);
    let f = model::parse_pcap(&whole).unwrap();
    assert_eq!(f[0].link, LinkType::RawIp);
    assert!(matches!(f[0].ts, Stamp::Parts { sec: 3, frac: 5000, nano: false }));
    assert_eq!(f[0].hash, sha256_hex(&[0xaa, 0xbb]));
    let e = |b: &[u8]| model::parse_pcap(b).err().unwrap();
    assert_eq!(e(&whole[..23]), "pcap: truncated global header");
    assert_eq!(e(&whole[..41]), "pcap: truncated record 0 (need 2 bytes)");
    assert_eq!(e(&whole[..30]), "pcap: trailing garbage after last record");
    assert_eq!(e(&pcap_bytes(0xa1b2c3d4, 9, true)), "pcap: unsupported linktype 9");
    assert_eq!(e(&[0; 24]), "pcap: bad magic");
}

#[test]
fn exported_fixtures_read_back() {
    let text = "{\"frames\":[{\"ts\":1.25,\"link\":\"ethernet\",\"data\":\"0a\"},{\"ts\":2,\"link\":\"ip\",\"data\":\"\"}]}";
    let frames = model::parse_capture(text.as_bytes()).unwrap().unwrap();
    assert_eq!(frames.len(), 2);
    assert_eq!(frames[1].link.name(), "raw");
    let times: Vec<Json> = frames
        .iter()
        .map(|f| match &f.ts {
            Stamp::Seconds(n) => n.copy(),
            _ => panic!("number expected"),
        })
        .collect();
    let out = model::export_fixture(&frames, &times);
    assert_eq!(
        out,
        "{\"format\":\"pairwise-fixture-v1\",\"frames\":[{\"data\":\"0a\",\"link\":\"eth\",\"ts\":1.25},{\"data\":\"\",\"link\":\"raw\",\"ts\":2}]}"
    );
    let again = model::parse_capture(out.as_bytes()).unwrap().unwrap();
    assert_eq!(format!("{:?}", again), format!("{:?}", frames));
    let e = |t: &str| model::parse_fixture(&Json::parse(t).unwrap()).err().unwrap();
    assert_eq!(e("{}"), "fixture: missing \"frames\" array");
    assert_eq!(e("{\"frames\":[{}]}"), "fixture: frame 0 missing ts");
    assert_eq!(e("{\"frames\":[{\"ts\":1,\"link\":\"x\"}]}"), "fixture: frame 0 bad link");
    assert_eq!(e("{\"frames\":[{\"ts\":1,\"link\":\"eth\"}]}"), "fixture: frame 0 missing data");
    assert_eq!(
        e("{\"frames\":[{\"ts\":1,\"link\":\"eth\",\"data\":\"0\"}]}"),
        "fixture: frame 0 data: odd-length hex string"
    );
}

fn config(policy: OverlapPolicy) -> AnalysisConfig {
    AnalysisConfig {
        overlap_policy: policy,
        tcp_timeout_ns: -1,
        max_ipv4_datagram: 2,
        max_ipv6_datagram: 3,
        fin_rst_race_ns: 4,
    }
}

#[test]
fn records_are_kept_once() {
    let mut e = AnalysisEngine::new();
    let mut store = ContentStore::new();
    let c = config(OverlapPolicy::FirstSeen);
    let a = e.analyze(b"in", c, None, Ok(Json::num(1)), &mut store).unwrap();
    let b = e.analyze(b"in", c, None, Ok(Json::num(1)), &mut store).unwrap();
    assert_eq!(a.id, b.id);
    assert_eq!(a.id.len(), 32);
    assert!(a.fingerprint.starts_with(&a.id));
    assert_eq!(a.input_sha256, sha256_hex(b"in"));
    let l = e.analyze(b"in", c, Some(OverlapPolicy::LastSeen), Ok(Json::num(1)), &mut store).unwrap();
    assert_ne!(l.id, a.id);
    assert_eq!(store.contents, vec![b"in".to_vec(), b"in".to_vec(), b"in".to_vec()]);
    let failed = e.analyze(b"out", c, None, Err("no".to_string()), &mut store);
    assert_eq!(failed.err().unwrap(), "no");
    assert_eq!(store.contents.len(), 3);
    let list = e.list();
    assert_eq!(list.len(), 2);
    assert_eq!(list[1].overlap_policy, "last-seen");
    assert_eq!(list_json(&list).as_arr().unwrap().len(), 2);
    assert_eq!(e.get(&a.id).unwrap().fingerprint, a.fingerprint);
    assert!(e.get("none").is_none());
    let material = format!(
        "{{\"config\":{{\"fin_rst_race_ns\":4,\"max_ipv4_datagram\":2,\"max_ipv6_datagram\":3,\"overlap_policy\":\"first-seen\",\"tcp_timeout_ns\":-1}},\"evidence\":1,\"input_sha256\":\"{}\",\"schema_version\":1}}",
        a.input_sha256
    );
    assert_eq!(a.fingerprint, sha256_hex(material.as_bytes()));

    let kept = Json::parse(&evidence_json(&a).to_canonical()).unwrap();
    let mut again = AnalysisEngine::new();
    again.restore(&kept, config(OverlapPolicy::LastSeen)).unwrap();
    let r = again.get(&a.id).unwrap();
    assert_eq!(r.config, c);
    assert_eq!(r.evidence.as_num(), Some(1));
    let err = |t: &str| again_err(t);
    assert_eq!(err("{}"), "missing id");
    assert_eq!(err("{\"analysis_id\":\"a\"}"), "missing fingerprint");
    assert_eq!(err("{\"analysis_id\":\"a\",\"fingerprint\":\"f\"}"), "missing input hash");
    assert_eq!(
        err("{\"analysis_id\":\"a\",\"fingerprint\":\"f\",\"input_sha256\":\"i\"}"),
        "missing evidence"
    );
    let bad = Json::parse("{\"overlap_policy\":\"odd\"}").unwrap();
    assert_eq!(parse_persisted_config(Some(&bad), c), Err("odd".to_string()));
    assert_eq!(parse_persisted_config(None, c), Ok(c));
}

fn again_err(t: &str) -> String {
    let mut e = AnalysisEngine::new();
    e.restore(&Json::parse(t).unwrap(), config(OverlapPolicy::FirstSeen)).err().unwrap()
}

#[test]
fn versions_are_listed() {
    let mut result = Json::obj();
    result.set("sessions", Json::arr(vec![]));
    let sha = sha256_hex(b"{\"sessions\":[]}");
    let fp = "0123456789abcdef0123";
    let (a, kept) =
        Store::analyze_version(result, fp, "input", tcp::OverlapPolicy::LastSeen, 5, 20);
    assert_eq!(a.id, format!("0123456789abcdef-{}", &sha[..8]));
    assert_eq!(a.result_sha, sha);
    let mut older = Json::obj();
    older.set("sessions", Json::Null);
    let (b, kept_b) =
        Store::analyze_version(older, fp, "input", tcp::OverlapPolicy::FirstSeen, 6, 10);
    assert_ne!(a.id, b.id);
    let read = vec![
        Json::parse(&kept).unwrap(),
        Json::parse("{}").unwrap(),
        Json::parse(&kept_b).unwrap(),
    ];
    let list = Store::order_versions(&read);
    let files = vec![kept.into_bytes(), b"{}".to_vec(), b"no result".to_vec(), kept_b.into_bytes()];
    let from_files = Store::list_versions(&files);
    assert_eq!(format!("{:?}", from_files), format!("{:?}", list));
    assert_eq!(format!("{:?}", list), format!("{:?}", vec![b, a]));
    assert_eq!(input_id(b"abc"), sha256_hex(b"abc"));
    let cap = load(b"{\"frames\":[{\"data\":\"0a\"},{\"data\":\"0a\"}]}").unwrap();
    assert_eq!(frame_ids(&cap), vec![sha256_hex(&[10]), sha256_hex(&[10])]);
}

#[test]
fn kept_analyses() {
    let frames = vec![
        pcap::Frame { index: 0, ts_ns: 7, data: vec![1] },
        pcap::Frame { index: 1, ts_ns: 8, data: vec![2] },
    ];
    let hashes = store::frame_hashes(&frames);
    assert_eq!(hashes, vec![sha256_hex(&[1]), sha256_hex(&[2])]);
    let (dir, file) = store::frame_path(&hashes[0]);
    assert_eq!(dir, &hashes[0][..2]);
    assert_eq!(file, format!("{}.bin", hashes[0]));
    let back = store::Store::load_frames(&vec![vec![1], vec![2]], &vec![7]);
    assert_eq!((back[0].ts_ns, back[1].ts_ns, back[1].index), (7, 0, 1));
    let named = format!(
        "{{\"frames\":[\"{}\",\"{}\"],\"config\":{{\"overlap\":\"first_seen\",\"session_timeout_ns\":120000000000,\"frag_max_datagram_bytes\":262144,\"frag_max_fragments\":64,\"frag_timeout_ns\":30000000000}}}}",
        hashes[0], hashes[1]
    );
    let id = store::Store::analysis_id(&hashes, &Config::default());
    assert_eq!(id, &sha256_hex(named.as_bytes())[..16]);
    let last = Config::default().with_overlap(session::OverlapPolicy::LastSeen);
    assert_ne!(store::Store::analysis_id(&hashes, &last), id);
    assert_eq!(store::sanitize("../a-B_9\u{e9}"), "aB9");
    assert_eq!(store::sanitize(&"x".repeat(70)).len(), 64);
    let meta = store::new_meta("id", "name", &Config::default(), &hashes, &frames, 5);
    assert_eq!(meta.frame_ts_ns, vec![7, 8]);
    let s = store::summarize_kept(&meta, b"{\"sessions\":[1,2],\"fingerprint\":\"f\"}").unwrap();
    let odd = store::summarize_kept(&meta, b"{\"sessions\":7,\"fingerprint\":[]}").unwrap();
    assert_eq!((odd.session_count, odd.fingerprint.as_str()), (0, ""));
    assert_eq!(store::summarize_kept(&meta, b"[]").unwrap().session_count, 0);
    assert_eq!(
        store::summarize_kept(&meta, b"").err().unwrap(),
        "EOF while parsing a value at line 1 column 0"
    );
    let told = store::summarize(&meta, Some("p".to_string()), Some(3));
    assert_eq!((told.session_count, told.fingerprint.as_str()), (3, "p"));
    assert_eq!((s.session_count, s.frame_count, s.fingerprint.as_str()), (2, 2, "f"));
    let other = store::new_meta("a", "n", &Config::default(), &hashes, &frames, 5);
    let first = store::new_meta("z", "n", &Config::default(), &hashes, &frames, 4);
    let list = store::Store::list(vec![
        s,
        store::summarize(&other, None, None),
        store::summarize(&first, None, None),
    ]);
    let ids: Vec<&str> = list.iter().map(|s| s.id.as_str()).collect();
    assert_eq!(ids, vec!["z", "a", "id"]);
}

#[test]
fn evidence_of_tracked_sessions() {
    let frames = vec![
        Frame { index: 0, ts_ns: 5, data: vec![1] },
        Frame { index: 1, ts_ns: -5, data: vec![2] },
        Frame { index: 2, ts_ns: 5, data: vec![] },
    ];
    assert_eq!(frame_order(&frames), vec![1, 0, 2]);
    let lines = format!(
        "0:5:{}\n1:-5:{}\n2:5:{}\n",
        sha256_hex(&[1]),
        sha256_hex(&[2]),
        sha256_hex(&[])
    );
    assert_eq!(input_hash(&frames), sha256_hex(lines.as_bytes()));

    let seg = |frame: u32, start: i64| TrackedSegment {
        frame,
        ts_ns: 0,
        seq: 9,
        start,
        len: 3,
        flags: "ACK".to_string(),
    };
    let d = TrackedDirection {
        isn: Some(8),
        base: Some(9),
        segments: vec![seg(4, 0), seg(5, 3)],
        events: vec![(4, SegKind::Normal), (5, SegKind::Overlap), (5, SegKind::Retransmit)],
        coverage: vec![(0, 6)],
        gaps: vec![],
        overwritten: vec![],
        bytes: b"abcdef".to_vec(),
    };
    let end = session::Endpoint { ip: Ip::V4([1, 2, 3, 4]), port: 5 };
    let s = TrackedSession {
        id: 3,
        generation: 1,
        partial: false,
        closed: Some("fin".to_string()),
        endpoints: (end, end),
        first_ts_ns: 1,
        last_ts_ns: 2,
        dirs: vec![d],
        post_close: vec![],
    };
    let a = analyze(vec![s], "hash", Policy::default(), vec![Json::Null]);
    let e = &a.evidence.sessions[0];
    assert_eq!(e.state, "closed:fin");
    let dir = &e.directions[0];
    assert_eq!(dir.name, "a->b");
    assert_eq!((dir.retransmissions, dir.out_of_order, dir.overlaps), (1, 0, 1));
    assert_eq!(dir.segments[1].kind, Some(SegKind::Overlap));
    assert_eq!(dir.segments[1].end, 6);
    assert_eq!(dir.reassembled_sha256, sha256_hex(b"abcdef"));
    assert_eq!((a.reassembled[0].session, a.reassembled[0].dir), (3, 0));
    assert_eq!(a.evidence.isolated_datagrams.len(), 1);
    assert_eq!(a.evidence.policy.frag_total_budget, 4 * 1024 * 1024);
    let text = format!(
        "{{\"input_hash\":\"hash\",\"policy\":{{\"overlap\":\"first_seen\",\"timeout_ns\":120000000000,\"frag_per_datagram_budget\":65536,\"frag_total_budget\":4194304}},\"sessions\":[{{\"id\":3,\"generation\":1,\"partial\":false,\"state\":\"closed:fin\",\"endpoints\":[{{\"ip\":\"1.2.3.4\",\"port\":5}},{{\"ip\":\"1.2.3.4\",\"port\":5}}],\"first_ts_ns\":1,\"last_ts_ns\":2,\"directions\":[{{\"name\":\"a->b\",\"isn\":8,\"base\":9,\"segments\":[{{\"frame\":4,\"ts_ns\":0,\"seq\":9,\"start\":0,\"end\":3,\"len\":3,\"flags\":\"ACK\",\"kind\":\"normal\"}},{{\"frame\":5,\"ts_ns\":0,\"seq\":9,\"start\":3,\"end\":6,\"len\":3,\"flags\":\"ACK\",\"kind\":\"overlap\"}}],\"coverage\":[[0,6]],\"gaps\":[],\"overwritten\":[],\"retransmissions\":1,\"out_of_order\":0,\"overlaps\":1,\"reassembled_len\":6,\"reassembled_sha256\":\"{}\"}}],\"post_close\":[]}}],\"isolated_datagrams\":[null]}}",
        sha256_hex(b"abcdef")
    );
    assert_eq!(reasm::serial::to_serial(&reasm::document::Document::to_document(&a.evidence)), text);
    assert_eq!(a.fingerprint, sha256_hex(text.as_bytes()));
    assert_eq!(fingerprint(&a.evidence), a.fingerprint);
}

#[test]
fn sample_capture() {
    let frames = raw_frames();
    assert_eq!(frames.len(), 12);
    assert_eq!(frames[0].ts_us, 1_000_000);
    let h = Head { sport: 40001, dport: 80, seq: 0xffff_fff4, ack: 1001, flags: 0x10 };
    assert_eq!(
        frames[7].bytes,
        segment_v4(&[10, 0, 0, 1], &[10, 0, 0, 2], h, b"XX", 7, None)
    );
    let v = Json::parse(&fixture_json_string()).unwrap();
    assert_eq!(v.get("format").unwrap().as_str(), Some("reasm-fixture/1"));
    assert_eq!(v.get("frames").unwrap().as_arr().unwrap().len(), 12);
}

#[test]
fn stores_name_their_files() {
    let s = Store::at("data");
    assert_eq!(s.root(), "data");
    assert_eq!(s.input_path("ab"), "data/inputs/ab.bin");
    assert_eq!(s.frame_path("cd"), "data/frames/cd.bin");
    assert_eq!(s.result_path("v1"), "data/results/v1.json");
    assert_ne!(s.result_path("v2"), s.result_path("v1"));
    assert_eq!(store::Store::at("d").analysis_dir("../x/1"), "d/analyses/x1");
}
