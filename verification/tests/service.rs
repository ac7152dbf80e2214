//! Requests and answers of the local services.

use reasm::engine::{config_from_query, percent_decode_bytes};
use reasm::http;
use reasm::json::Json;
use reasm::lines::{
    cut_at, decode, find_head_end, query_get, read_length_field, read_length_line, split_lines,
    strip, two_words, unescape_bytes,
};
use reasm::server::{
    analyze_response, demo_list_response, demo_response, err_json, frame_response, health_response,
    limit_body, page_response, parse_head, read_head, reason, response_head, route,
    version_response, versions_response, Action, Outcome, Response,
};
use reasm::storage::Artifact;
use reasm::tcp::OverlapPolicy;

fn text(r: &Response) -> String {
    String::from_utf8(r.body.clone()).unwrap()
}

#[test]
fn lines_and_words() {
    assert_eq!(split_lines("a\r\nb\rc\n\r\n"), vec!["a", "b\rc\n", ""]);
    assert_eq!(split_lines(""), vec![""]);
    assert_eq!(two_words("  GET\t/x  y"), (Some("GET".to_string()), Some("/x".to_string())));
    assert_eq!(two_words("one"), (Some("one".to_string()), None));
    assert_eq!(two_words(" "), (None, None));
    assert_eq!(cut_at("a=b=c", '='), ("a".to_string(), Some("b=c".to_string())));
    assert_eq!(cut_at("abc", '='), ("abc".to_string(), None));
    assert_eq!(strip("policy=x", "policy="), Some("x".to_string()));
    assert_eq!(strip("polic", "policy="), None);
    assert_eq!(find_head_end(b"ab\r\n\r\ncd"), Some(2));
    assert_eq!(find_head_end(b"ab\r\n\r"), None);
}

#[test]
fn body_sizes() {
    assert_eq!(read_length_line("Content-Length: 42 "), Some(42));
    assert_eq!(read_length_line("content-length:x"), Some(0));
    assert_eq!(read_length_line("content-length : 42"), None);
    assert_eq!(read_length_field("CONTENT-LENGTH : 42"), Some(42));
    assert_eq!(read_length_field("content-lengths: 42"), None);
    assert_eq!(limit_body(b"abcdef", 3), b"abc".to_vec());
    assert_eq!(limit_body(b"ab", 3), b"ab".to_vec());
}

#[test]
fn query_values() {
    assert_eq!(unescape_bytes(b"a+b%41%4"), b"a bA%4".to_vec());
    assert_eq!(unescape_bytes(b"%zz%+f!"), vec![0, 15, b'!']);
    assert_eq!(percent_decode_bytes(b"a+b%41%4"), b"a bA%4".to_vec());
    assert_eq!(percent_decode_bytes(b"%zz%+f!"), b"%zz% f!".to_vec());
    assert_eq!(decode("%e7%bd%91"), "\u{7f51}");
    assert_eq!(decode("%ff!"), "\u{fffd}!");
    assert_eq!(query_get("a=1&b=2&b=3", "b"), Some("2".to_string()));
    assert_eq!(query_get("a=1&b", "b"), Some(String::new()));
    assert_eq!(query_get("a=1", "c"), None);
}

#[test]
fn heads_of_requests() {
    let raw = b"POST /api/analyze?policy=last-seen HTTP/1.1\r\nHost: x\r\nCONTENT-LENGTH: 3\r\n\r\nabcd";
    let (h, at) = read_head(raw).unwrap();
    assert_eq!(h.method, "POST");
    assert_eq!(h.path, "/api/analyze");
    assert_eq!(h.query, "policy=last-seen");
    assert_eq!(h.content_length, 3);
    assert_eq!(&raw[at..], b"abcd");
    assert!(read_head(b"GET / HTTP/1.1\r\n").is_none());
    let h = parse_head("");
    assert_eq!((h.method.as_str(), h.path.as_str(), h.query.as_str()), ("GET", "/", ""));
    let (h, _) = read_head(b"GET /\xff HTTP/1.0\r\n\r\n").unwrap();
    assert_eq!(h.path, "/\u{fffd}");
}

#[test]
fn requests_are_routed() {
    assert!(matches!(route("GET", "/", ""), Action::Page));
    assert!(matches!(route("GET", "/api/health", ""), Action::Health));
    assert!(matches!(route("GET", "/api/versions", ""), Action::Versions));
    assert!(matches!(route("GET", "/api/demo-list", ""), Action::DemoList));
    assert!(matches!(route("GET", "/api/demo", ""), Action::Demo(n) if n == "wrap"));
    assert!(matches!(route("GET", "/api/demo", "scenario=gap"), Action::Demo(n) if n == "gap"));
    assert!(matches!(route("GET", "/api/version", "id=ab-1"), Action::Version(n) if n == "ab-1"));
    let refused = |a: Action| match a {
        Action::Refuse { status, message } => (status, message),
        _ => panic!("refusal expected"),
    };
    assert_eq!(refused(route("GET", "/api/version", "id=../x")), (400, "missing id".to_string()));
    assert_eq!(refused(route("GET", "/api/version", "id=a/b")), (400, "missing id".to_string()));
    assert_eq!(refused(route("GET", "/api/version", "")), (400, "missing id".to_string()));
    assert_eq!(refused(route("GET", "/api/frame", "sha256=12")), (400, "bad sha256".to_string()));
    let sha = "0f".repeat(32);
    let q = format!("sha256={}", sha);
    assert!(matches!(route("GET", "/api/frame", &q), Action::Frame(s) if s == sha));
    assert_eq!(refused(route("PUT", "/", "")), (404, "not found".to_string()));
    assert_eq!(refused(route("POST", "/", "")), (404, "not found".to_string()));
    match route("POST", "/api/analyze", "policy=last-seen&timeout_us=-5") {
        Action::Analyze { policy, timeout_us } => {
            assert_eq!(policy, OverlapPolicy::LastSeen);
            assert_eq!(timeout_us, -5);
        }
        _ => panic!("analysis expected"),
    }
    match route("POST", "/api/analyze", "timeout_us=x") {
        Action::Analyze { policy, timeout_us } => {
            assert_eq!(policy, OverlapPolicy::FirstSeen);
            assert_eq!(timeout_us, 2_000_000);
        }
        _ => panic!("analysis expected"),
    }
}

#[test]
fn answers() {
    let e = err_json(404, "no \"x\"");
    assert_eq!(e.status, 404);
    assert_eq!(text(&e), "{\"error\":\"no \\\"x\\\"\"}");
    assert_eq!(
        response_head(&e),
        "HTTP/1.1 404 Not Found\r\nContent-Type: application/json; charset=utf-8\r\nContent-Length: 20\r\nConnection: close\r\nAccess-Control-Allow-Origin: *\r\n\r\n"
    );
    assert_eq!(reason(200), "OK");
    assert_eq!(reason(405), "Method Not Allowed");
    assert_eq!(reason(500), "Internal Server Error");
    assert_eq!(text(&health_response()), "{\"name\":\"网络会话重组台\",\"ok\":true}");
    assert_eq!(page_response("<p>").content_type, "text/html; charset=utf-8");
    assert_eq!(version_response(None).status, 404);
    assert_eq!(text(&version_response(Some(b"{}".to_vec()))), "{}");
    assert_eq!(frame_response(None).status, 404);
    assert_eq!(frame_response(Some(vec![1])).content_type, "application/octet-stream");
    assert_eq!(analyze_response(Outcome::Rejected("bad".to_string())).status, 400);
    assert_eq!(analyze_response(Outcome::Unsaved("full".to_string())).status, 500);
    assert_eq!(analyze_response(Outcome::Kept(vec![])).status, 200);
    let names = Json::parse(&text(&demo_list_response())).unwrap();
    assert_eq!(names.as_arr().unwrap().len(), 10);
    assert!(text(&demo_response("gap")).starts_with("{\"frames\":[{\"data\":\"02"));
    let a = Artifact {
        id: "v".to_string(),
        created_ts_us: 7,
        input_sha: "i".to_string(),
        policy: "first-seen".to_string(),
        timeout_us: 9,
        result_sha: "r".to_string(),
        fingerprint: "f".to_string(),
    };
    assert_eq!(
        text(&versions_response(&vec![a])),
        "[{\"created_ts_us\":7,\"fingerprint\":\"f\",\"input_sha256\":\"i\",\"overlap_policy\":\"first-seen\",\"result_sha256\":\"r\",\"timeout_us\":9,\"version_id\":\"v\"}]"
    );
}

#[test]
fn policies_in_queries() {
    assert_eq!(config_from_query(None), Ok(None));
    assert_eq!(config_from_query(Some("a=b")), Ok(None));
    assert_eq!(config_from_query(Some("policy=last-seen")), Ok(Some(reasm::seq::OverlapPolicy::LastSeen)));
    assert_eq!(
        config_from_query(Some("x&overlap_policy=first%2dseen")),
        Ok(Some(reasm::seq::OverlapPolicy::FirstSeen))
    );
    assert_eq!(config_from_query(Some("policy=wh%61t")), Err("what".to_string()));
}

#[test]
fn corpus_requests_are_routed() {
    assert!(matches!(http::route("GET", "/"), http::Action::Page));
    assert!(matches!(http::route("GET", "/api/corpora"), http::Action::Corpora));
    assert!(matches!(http::route("POST", "/api/import"), http::Action::Import));
    assert!(matches!(http::route("POST", "/api/analyze"), http::Action::Analyze));
    assert!(matches!(http::route("GET", "/api/analyses"), http::Action::Analyses));
    assert!(matches!(http::route("GET", "/api/analysis/ab"), http::Action::Analysis(i) if i == "ab"));
    assert!(matches!(
        http::route("GET", "//api/analysis/ab/evidence.json"),
        http::Action::Evidence(i) if i == "ab"
    ));
    match http::route("GET", "/api/analysis/ab/stream/3/1") {
        http::Action::Stream { id, session, dir } => {
            assert_eq!((id.as_str(), session, dir), ("ab", 3, 1));
        }
        _ => panic!("stream expected"),
    }
    let refused = |a: http::Action| match a {
        http::Action::Refuse { status, message } => (status, message),
        _ => panic!("refusal expected"),
    };
    assert_eq!(
        refused(http::route("GET", "/api/analysis/ab/stream/x/1")),
        (400, "bad session id".to_string())
    );
    assert_eq!(
        refused(http::route("GET", "/api/analysis/ab/stream/1/x")),
        (400, "bad direction".to_string())
    );
    assert_eq!(refused(http::route("GET", "/api/other")), (404, "not found".to_string()));
    assert_eq!(refused(http::route("POST", "/api/analysis/ab")), (404, "not found".to_string()));
}

#[test]
fn corpus_answers() {
    let (h, at) =
        http::read_head(b"POST /api/import?x=1 HTTP/1.1\r\ncontent-Length : 2\r\n\r\nhi").unwrap();
    assert_eq!((h.target.as_str(), h.path.as_str()), ("/api/import?x=1", "/api/import"));
    assert_eq!((h.content_length, at), (2, 53));
    let e = http::failure(400, "import failed", "no frames");
    assert_eq!(e.body, b"import failed: no frames".to_vec());
    let s = http::stream_response(2, 1, vec![9]);
    assert_eq!(s.download.as_deref(), Some("stream_2_dir1.bin"));
    assert!(http::response_head(&s)
        .contains("\r\nContent-Disposition: attachment; filename=\"stream_2_dir1.bin\"\r\n"));
    let v = http::evidence_response("0123456789abcdef", &Json::Null);
    assert_eq!(v.download.as_deref(), Some("evidence_0123456789ab.json"));
    assert_eq!(v.body, b"null".to_vec());
    assert_eq!(
        http::corpora_response(&vec![("c".to_string(), 2)]).body,
        b"[{\"frame_count\":2,\"id\":\"c\"}]".to_vec()
    );
    assert_eq!(
        http::import_response("c", 2).body,
        b"{\"corpus_id\":\"c\",\"frame_count\":2}".to_vec()
    );
    assert_eq!(http::health_response().status, 200);
}

#[test]
fn analyses_that_are_asked_for() {
    let ask = |b: &[u8]| http::read_analyze_request(b).unwrap();
    let a = ask(b"{\"corpus_id\":\"c\",\"policy\":\"last\",\"timeout_ns\":5}").ok().unwrap();
    assert_eq!(a.corpus_id, "c");
    assert_eq!(a.policy.as_deref(), Some("last"));
    assert_eq!(a.timeout_ns, 5);
    let d = ask(b"{\"corpus_id\":\"c\",\"timeout_ns\":-5}").ok().unwrap();
    assert!(d.policy.is_none());
    assert_eq!(d.timeout_ns, 120_000_000_000);
    assert_eq!(ask(b"{}").err().unwrap(), "missing corpus_id");
    assert_eq!(ask(b"{").err().unwrap(), "unexpected end of input");
    assert_eq!(
        ask(&[b'{', 0xff]).err().unwrap(),
        std::str::from_utf8(&[b'{', 0xff]).unwrap_err().to_string()
    );
    assert!(http::read_analyze_request(b"\"\\ud800\\u0000\"").is_none());
}
