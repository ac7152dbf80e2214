//! Numbers as they are read, documents as they are digested, versions as they are kept.

use reasm::analyze::{analyze, Config};
use reasm::builder::{segment_v4, Builder, Head};
use reasm::hash::sha256_hex;
use reasm::json::Json;
use reasm::pcap::Frame;
use reasm::serial::to_serial;
use reasm::session;
use reasm::storage::{Results, Store};
use reasm::tcp::OverlapPolicy;
use reasm::workbench::{keep_version, AnalysisOptions};

fn read(t: &str) -> String {
    Json::parse(t).unwrap().to_canonical()
}

#[test]
fn numbers_are_read_by_value() {
    assert_eq!(read("1.0"), "1");
    assert_eq!(Json::parse("1.0").unwrap().as_num(), Some(1));
    assert_eq!(read("1e3"), "1000");
    assert_eq!(Json::parse("1E+3").unwrap().as_num(), Some(1000));
    assert_eq!(read("1500e-2"), "15");
    assert_eq!(read("12.50e1"), "125");
    assert_eq!(read("1.50"), "1.5");
    assert_eq!(read("-2.5e-3"), "-0.0025");
    assert_eq!(read("0.1"), "0.1");
    assert_eq!(read("100e-1"), "10");
    assert_eq!(read("0e9"), "0");
    assert_eq!(read("-0.0"), "0");
    assert_eq!(read("-0"), "0");
    assert_eq!(read("-7.00"), "-7");
    assert_eq!(read("12345678901234567890123"), "12345678901234567890123");
    for text in ["1.5", "0.25", "123456.789", "1e-7", "5e-324"] {
        let value: f64 = text.parse().unwrap();
        assert_eq!(read(text), format!("{}", value));
    }
}

#[test]
fn numbers_beyond_the_range_are_told_so() {
    assert_eq!(read("1e400"), "null");
    assert_eq!(read("-1e400"), "null");
    assert_eq!(read("1e-400"), "0");
    assert_eq!(read("1e999999999999"), "null");
    assert_eq!(read("1e-999999999999"), "0");
}

#[test]
fn compact_texts_keep_the_order_and_quote_as_documented() {
    let mut o = Json::obj();
    o.set("b", Json::str("\u{8}\u{c}\n\r\t\"\\/\u{1}\u{1f}\u{7f}\u{7f51}".to_string()));
    o.set("a", Json::arr(vec![Json::num(-1), Json::Null, Json::Bool(false)]));
    let mut inner = Json::obj();
    inner.set("k\n", Json::obj());
    o.set("c", inner);
    assert_eq!(
        to_serial(&o),
        "{\"b\":\"\\b\\f\\n\\r\\t\\\"\\\\/\\u0001\\u001f\u{7f}\u{7f51}\",\"a\":[-1,null,false],\"c\":{\"k\\n\":{}}}"
    );
    assert_eq!(read(&to_serial(&o)), o.to_canonical());
}

const CONFIG: &str = "{\"overlap\":\"first_seen\",\"session_timeout_ns\":120000000000,\"frag_max_datagram_bytes\":262144,\"frag_max_fragments\":64,\"frag_timeout_ns\":30000000000}";

fn segment(seq: u32, flags: u8, data: &[u8]) -> Vec<u8> {
    let h = Head { sport: 1000, dport: 80, seq, ack: 0, flags };
    segment_v4(&[10, 0, 0, 1], &[10, 0, 0, 2], h, data, 1, None)
}

#[test]
fn the_fingerprint_is_the_digest_of_the_document() {
    let none = analyze(&vec![], &Config::default());
    let text = format!("{{\"config\":{},\"frames\":[],\"sessions\":[]}}", CONFIG);
    assert_eq!(none.result.fingerprint, sha256_hex(text.as_bytes()));

    let list = vec![
        Frame { index: 0, ts_ns: 5, data: segment(7, 2, b"") },
        Frame { index: 1, ts_ns: 6, data: segment(8, 0x10, b"ab") },
    ];
    let a = analyze(&list, &Config::default());
    let s = &a.result.sessions[0];
    let dirs: Vec<String> = s
        .directions
        .iter()
        .map(|d| {
            let number = |n: Option<u32>| n.map_or("null".to_string(), |x| x.to_string());
            let spans = |v: &Vec<reasm::session::Interval>| {
                let all: Vec<String> = v
                    .iter()
                    .map(|i| {
                        format!(
                            "{{\"start_seq\":{},\"end_seq\":{},\"offset\":{},\"len\":{}}}",
                            i.start_seq, i.end_seq, i.offset, i.len
                        )
                    })
                    .collect();
                all.join(",")
            };
            let segments: Vec<String> = d
                .segments
                .iter()
                .map(|g| {
                    format!(
                        "{{\"seq\":{},\"end_seq\":{},\"offset\":{},\"len\":{},\"frame\":{},\"ts_ns\":{}}}",
                        g.seq, g.end_seq, g.offset, g.len, g.frame, g.ts_ns
                    )
                })
                .collect();
            assert!(d.retransmissions.is_empty() && d.out_of_order.is_empty() && d.overlaps.is_empty());
            format!(
                "{{\"isn\":{},\"anchor_seq\":{},\"byte_count\":{},\"payload_sha256\":\"{}\",\"payload_file\":\"{}\",\"intervals\":[{}],\"gaps\":[{}],\"retransmissions\":[],\"out_of_order\":[],\"overlaps\":[],\"segments\":[{}]}}",
                number(d.isn),
                number(d.anchor_seq),
                d.byte_count,
                d.payload_sha256,
                d.payload_file,
                spans(&d.intervals),
                spans(&d.gaps),
                segments.join(",")
            )
        })
        .collect();
    let text = format!(
        "{{\"config\":{},\"frames\":[\"{}\",\"{}\"],\"sessions\":[{{\"id\":0,\"endpoint_a\":\"10.0.0.1:1000\",\"endpoint_b\":\"10.0.0.2:80\",\"generation\":{},\"partial\":false,\"close_reason\":\"{}\",\"first_ts_ns\":5,\"last_ts_ns\":6,\"frames\":[0,1],\"directions\":[{}]}}]}}",
        CONFIG,
        sha256_hex(&list[0].data),
        sha256_hex(&list[1].data),
        s.generation,
        s.close_reason,
        dirs.join(",")
    );
    assert_eq!(a.result.fingerprint, sha256_hex(text.as_bytes()));
    assert_eq!(
        reasm::analyze::fingerprint(&a.result.config, &a.frame_hashes, &a.result.sessions),
        a.result.fingerprint
    );
}

#[test]
fn fingerprints_and_names_tell_inputs_apart() {
    let list = vec![Frame { index: 0, ts_ns: 5, data: segment(7, 0x10, b"ab") }];
    let c = Config::default;
    let print = |l: &Vec<Frame>, c: Config| analyze(l, &c).result.fingerprint;
    let first = print(&list, c());
    assert_eq!(print(&list, c()), first);
    assert_ne!(print(&list, c().with_overlap(session::OverlapPolicy::LastSeen)), first);
    assert_ne!(print(&list, Config { frag_timeout_ns: 1, ..c() }), first);
    assert_ne!(print(&vec![], c()), first);
    let texts = [
        Json::str("1".to_string()),
        Json::num(1),
        Json::Bool(true),
        Json::str("true".to_string()),
        Json::arr(vec![]),
        Json::arr(vec![Json::arr(vec![])]),
        Json::obj(),
        Json::arr(vec![Json::str("a\",\"b".to_string())]),
        Json::arr(vec![Json::str("a".to_string()), Json::str("b".to_string())]),
    ];
    for (i, a) in texts.iter().enumerate() {
        for b in &texts[..i] {
            assert_ne!(to_serial(a), to_serial(b));
        }
    }
}

#[test]
fn kept_versions_are_never_written_again() {
    let mut b = Builder::new(1);
    b.add(0, segment(100, 2, b""));
    b.add(10, segment(101, 0x10, b"AAAA"));
    b.add(20, segment(103, 0x10, b"ZZ"));
    let data = b.to_json_string().into_bytes();
    let o = |policy| AnalysisOptions { policy, timeout_us: 2_000_000 };
    let store = Store::at("root");
    let mut results = Results::new();
    let first =
        keep_version(&data, o(OverlapPolicy::FirstSeen), 1, &store, &mut results).unwrap().unwrap();
    let path = store.result_path(&first.artifact.id);
    assert_eq!(results.get(&path).unwrap(), first.text.as_bytes());
    let again =
        keep_version(&data, o(OverlapPolicy::FirstSeen), 2, &store, &mut results).unwrap().unwrap();
    assert_eq!(again.artifact.id, first.artifact.id);
    assert_ne!(again.text, first.text);
    assert_eq!(results.get(&path).unwrap(), first.text.as_bytes());
    let last =
        keep_version(&data, o(OverlapPolicy::LastSeen), 3, &store, &mut results).unwrap().unwrap();
    assert_ne!(last.artifact.id, first.artifact.id);
    assert_eq!(results.get(&path).unwrap(), first.text.as_bytes());
    let other = store.result_path(&last.artifact.id);
    assert_eq!(results.get(&other).unwrap(), last.text.as_bytes());
    let bad = keep_version(b"{", o(OverlapPolicy::LastSeen), 4, &store, &mut results);
    assert!(bad.unwrap().is_err());
    assert!(results.get("root/results/none.json").is_none());
    results.keep(&other, b"changed");
    assert_eq!(results.get(&other).unwrap(), last.text.as_bytes());
}
