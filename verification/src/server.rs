//! The requests of the local service: how they are read, what they ask for, and what
//! they are answered.

use vstd::prelude::*;
use vstd::utf8::encode_utf8;
use crate::bytes::{copy_bytes, copy_range};
use crate::demo::{demo_fixture, demo_frames};
use crate::hex::digit_value;
use crate::json::{integer, read_integer, written, Json, JsonModel};
use crate::lines::{
    cut, cut_at, find_head_end, first_word, head_end, length_line, lines, query_get,
    query_value, read_length_line, second_word, split_lines, two_words,
};
use crate::storage::{artifact_views, Artifact, ArtifactModel};
use crate::tcp::OverlapPolicy;
use crate::text::{chars_of, dec, lossy, push_dec, push_text, same, utf8_lossy, views};

verus! {

/// The head of a request.
pub struct RequestHead {
    pub method: String,
    pub path: String,
    pub query: String,
    pub content_length: usize,
}

/// What the head of a request says.
pub struct HeadModel {
    pub method: Seq<char>,
    pub path: Seq<char>,
    pub query: Seq<char>,
    pub content_length: int,
}

impl View for RequestHead {
    type V = HeadModel;

    open spec fn view(&self) -> HeadModel {
        HeadModel {
            method: self.method@,
            path: self.path@,
            query: self.query@,
            content_length: self.content_length as int,
        }
    }
}

/// The size of the body that the first `n` lines give; the last line that gives one
/// counts.
pub open spec fn body_size(ls: Seq<Seq<char>>, n: int) -> int
    decreases n,
{
    if n <= 1 {
        0
    } else {
        match length_line(ls[n - 1]) {
            Some(v) => v,
            None => body_size(ls, n - 1),
        }
    }
}

/// What the head of a request says. A line without words asks for the start page.
pub open spec fn head_model(head: Seq<char>) -> HeadModel {
    let ls = lines(head);
    let target = match second_word(ls[0]) {
        Some(t) => t,
        None => "/"@,
    };
    HeadModel {
        method: match first_word(ls[0]) {
            Some(m) => m,
            None => "GET"@,
        },
        path: cut(target, '?').0,
        query: match cut(target, '?').1 {
            Some(q) => q,
            None => seq![],
        },
        content_length: body_size(ls, ls.len() as int),
    }
}

/// Reads the text of the head of a request.
pub fn parse_head(head: &str) -> (r: RequestHead)
    ensures
        r@ == head_model(head@),
{
    let ls = split_lines(head);
    let ghost vs = views(ls@);
    assert(vs[0] == ls@[0]@);
    let (first, second) = two_words(ls[0].as_str());
    let method = match first {
        Some(m) => m,
        None => "GET".to_string(),
    };
    let target = match second {
        Some(t) => t,
        None => "/".to_string(),
    };
    let (path, q) = cut_at(target.as_str(), '?');
    let query = match q {
        Some(q) => q,
        None => {
            let e = String::new();
            assert(e@ =~= seq![]);
            e
        },
    };
    let mut content_length: usize = 0;
    let mut i: usize = 1;
    while i < ls.len()
        invariant
            1 <= i <= ls@.len(),
            vs == views(ls@),
            content_length == body_size(vs, i as int),
        decreases ls@.len() - i,
    {
        assert(vs[i as int] == ls@[i as int]@);
        if let Some(n) = read_length_line(ls[i].as_str()) {
            content_length = n;
        }
        i += 1;
    }
    RequestHead { method, path, query, content_length }
}

/// Reads the head of a request off the bytes that came in so far, and where its body
/// starts. Nothing comes back while the blank line behind the head is missing.
pub fn read_head(all: &[u8]) -> (r: Option<(RequestHead, usize)>)
    ensures
        match r {
            Some((h, at)) => head_end(all@, 0) == Some(at - 4) && at <= all@.len() && h@
                == head_model(utf8_lossy(all@.take(at - 4))),
            None => head_end(all@, 0) is None,
        },
{
    match find_head_end(all) {
        None => None,
        Some(e) => {
            let n: usize = all.len();
            assert(e + 4 <= n);
            let part = copy_range(all, 0, e);
            assert(part@ =~= all@.take(e as int));
            let text = lossy(part.as_slice());
            Some((parse_head(text.as_str()), e + 4))
        },
    }
}

/// Limits a body to its announced size.
pub fn limit_body(body: &[u8], content_length: usize) -> (r: Vec<u8>)
    ensures
        r@ == (if content_length <= body@.len() {
            body@.take(content_length as int)
        } else {
            body@
        }),
{
    if content_length <= body.len() {
        let r = copy_range(body, 0, content_length);
        assert(r@ =~= body@.take(content_length as int));
        r
    } else {
        copy_bytes(body)
    }
}

/// The words of a status.
pub open spec fn reason_spec(code: u16) -> Seq<char> {
    if code == 400 {
        "Bad Request"@
    } else if code == 404 {
        "Not Found"@
    } else if code == 405 {
        "Method Not Allowed"@
    } else if code == 500 {
        "Internal Server Error"@
    } else {
        "OK"@
    }
}

/// The words of a status.
pub fn reason(code: u16) -> (r: &'static str)
    ensures
        r@ == reason_spec(code),
{
    if code == 400 {
        "Bad Request"
    } else if code == 404 {
        "Not Found"
    } else if code == 405 {
        "Method Not Allowed"
    } else if code == 500 {
        "Internal Server Error"
    } else {
        "OK"
    }
}

/// An answer.
pub struct Response {
    pub status: u16,
    pub content_type: String,
    pub body: Vec<u8>,
}

/// What an answer is.
pub struct ResponseModel {
    pub status: u16,
    pub content_type: Seq<char>,
    pub body: Seq<u8>,
}

impl View for Response {
    type V = ResponseModel;

    open spec fn view(&self) -> ResponseModel {
        ResponseModel {
            status: self.status,
            content_type: self.content_type@,
            body: self.body@,
        }
    }
}

/// The head of an answer.
pub open spec fn answer_head(m: ResponseModel) -> Seq<char> {
    "HTTP/1.1 "@ + dec(m.status as nat) + " "@ + reason_spec(m.status) + "\r\nContent-Type: "@
        + m.content_type + "\r\nContent-Length: "@ + dec(m.body.len())
        + "\r\nConnection: close\r\nAccess-Control-Allow-Origin: *\r\n\r\n"@
}

/// The head of an answer.
pub fn response_head(r: &Response) -> (t: String)
    ensures
        t@ == answer_head(r@),
{
    let mut t = "HTTP/1.1 ".to_string();
    push_dec(&mut t, r.status as u64);
    push_text(&mut t, " ");
    push_text(&mut t, reason(r.status));
    push_text(&mut t, "\r\nContent-Type: ");
    push_text(&mut t, r.content_type.as_str());
    push_text(&mut t, "\r\nContent-Length: ");
    push_dec(&mut t, r.body.len() as u64);
    push_text(&mut t, "\r\nConnection: close\r\nAccess-Control-Allow-Origin: *\r\n\r\n");
    t
}

/// An answer with JSON text.
pub open spec fn json_answer(status: u16, text: Seq<char>) -> ResponseModel {
    ResponseModel {
        status,
        content_type: "application/json; charset=utf-8"@,
        body: encode_utf8(text),
    }
}

/// What an error is told as.
pub open spec fn error_json(msg: Seq<char>) -> JsonModel {
    JsonModel::Obj(seq![("error"@, JsonModel::Str(msg))])
}

/// The answer of an error.
pub open spec fn error_answer(status: u16, msg: Seq<char>) -> ResponseModel {
    json_answer(status, written(error_json(msg), None))
}

fn json_text(status: u16, text: &str) -> (r: Response)
    ensures
        r@ == json_answer(status, text@),
{
    Response {
        status,
        content_type: "application/json; charset=utf-8".to_string(),
        body: copy_bytes(text.as_bytes()),
    }
}

/// The answer with a value.
pub fn json_response(v: &Json) -> (r: Response)
    ensures
        r@ == json_answer(200, written(v@, None)),
{
    let t = v.to_canonical();
    json_text(200, t.as_str())
}

/// The answer of an error.
pub fn err_json(status: u16, msg: &str) -> (r: Response)
    ensures
        r@ == error_answer(status, msg@),
{
    let mut o = Json::obj();
    o.set("error", Json::Str(msg.to_string()));
    assert(o@->Obj_0 =~= error_json(msg@)->Obj_0);
    let t = o.to_canonical();
    json_text(status, t.as_str())
}

/// What a request asks for.
pub enum Action {
    /// The page.
    Page,
    Health,
    /// The list of versions.
    Versions,
    /// The kept result of a version.
    Version(String),
    /// The frame of a content address.
    Frame(String),
    /// The fixture of a scenario.
    Demo(String),
    /// The names of the scenarios.
    DemoList,
    /// An analysis of the body.
    Analyze { policy: OverlapPolicy, timeout_us: i128 },
    /// An error to answer at once.
    Refuse { status: u16, message: String },
}

/// What a request asks for.
pub enum ActionModel {
    Page,
    Health,
    Versions,
    Version(Seq<char>),
    Frame(Seq<char>),
    Demo(Seq<char>),
    DemoList,
    Analyze { policy: OverlapPolicy, timeout_us: int },
    Refuse { status: u16, message: Seq<char> },
}

impl View for Action {
    type V = ActionModel;

    open spec fn view(&self) -> ActionModel {
        match *self {
            Action::Page => ActionModel::Page,
            Action::Health => ActionModel::Health,
            Action::Versions => ActionModel::Versions,
            Action::Version(id) => ActionModel::Version(id@),
            Action::Frame(sha) => ActionModel::Frame(sha@),
            Action::Demo(name) => ActionModel::Demo(name@),
            Action::DemoList => ActionModel::DemoList,
            Action::Analyze { policy, timeout_us } => ActionModel::Analyze {
                policy,
                timeout_us: timeout_us as int,
            },
            Action::Refuse { status, message } => ActionModel::Refuse { status, message: message@ },
        }
    }
}

/// A name without a slash and without two dots in a row.
pub open spec fn safe_name(s: Seq<char>) -> bool {
    forall|i: int|
        0 <= i < s.len() ==> (#[trigger] s[i]) != '/' && !(s[i] == '.' && i + 1 < s.len() && s[i + 1]
            == '.')
}

fn is_safe(s: &str) -> (r: bool)
    ensures
        r == safe_name(s@),
{
    let v = chars_of(s);
    let mut i: usize = 0;
    while i < v.len()
        invariant
            i <= v@.len(),
            v@ == s@,
            forall|j: int|
                0 <= j < i ==> (#[trigger] s@[j]) != '/' && !(s@[j] == '.' && j + 1 < s@.len()
                    && s@[j + 1] == '.'),
        decreases v@.len() - i,
    {
        if v[i] == '/' {
            assert(s@[i as int] == '/');
            return false;
        }
        if v[i] == '.' && v.len() - i > 1 && v[i + 1] == '.' {
            assert(s@[i as int] == '.');
            return false;
        }
        i += 1;
    }
    true
}

/// 64 hexadecimal digits.
pub open spec fn is_address(s: Seq<char>) -> bool {
    let b = encode_utf8(s);
    b.len() == 64 && crate::hex::all_digits(b)
}

fn looks_like_address(s: &str) -> (r: bool)
    ensures
        r == is_address(s@),
{
    let b = s.as_bytes();
    if b.len() != 64 {
        return false;
    }
    let mut i: usize = 0;
    while i < 64
        invariant
            i <= 64,
            b@.len() == 64,
            b@ == encode_utf8(s@),
            forall|j: int| 0 <= j < i ==> (#[trigger] digit_value(b@[j])) is Some,
        decreases 64 - i,
    {
        let c: u8 = b[i];
        if !((48 <= c && c <= 57) || (97 <= c && c <= 102) || (65 <= c && c <= 70)) {
            assert(digit_value(b@[i as int]) is None);
            return false;
        }
        i += 1;
    }
    true
}

/// The timeout that a query asks for, two seconds unless it is a number.
pub open spec fn asked_timeout(q: Seq<char>) -> int {
    match query_value(q, "timeout_us"@) {
        Some(t) => match integer(t) {
            Some(n) => n,
            None => 2_000_000,
        },
        None => 2_000_000,
    }
}

/// The policy that a query asks for, first seen unless it is the other one.
pub open spec fn asked_policy(q: Seq<char>) -> OverlapPolicy {
    if query_value(q, "policy"@) == Some("last-seen"@) {
        OverlapPolicy::LastSeen
    } else {
        OverlapPolicy::FirstSeen
    }
}

/// What a request asks for.
pub open spec fn routed(method: Seq<char>, path: Seq<char>, q: Seq<char>) -> ActionModel {
    let get = method == "GET"@;
    if get && path == "/"@ {
        ActionModel::Page
    } else if get && path == "/api/health"@ {
        ActionModel::Health
    } else if get && path == "/api/versions"@ {
        ActionModel::Versions
    } else if get && path == "/api/version"@ {
        match query_value(q, "id"@) {
            Some(id) if safe_name(id) => ActionModel::Version(id),
            _ => ActionModel::Refuse { status: 400, message: "missing id"@ },
        }
    } else if get && path == "/api/frame"@ {
        match query_value(q, "sha256"@) {
            Some(sha) if is_address(sha) => ActionModel::Frame(sha),
            _ => ActionModel::Refuse { status: 400, message: "bad sha256"@ },
        }
    } else if get && path == "/api/demo"@ {
        match query_value(q, "scenario"@) {
            Some(name) => ActionModel::Demo(name),
            None => ActionModel::Demo("wrap"@),
        }
    } else if get && path == "/api/demo-list"@ {
        ActionModel::DemoList
    } else if method == "POST"@ && path == "/api/analyze"@ {
        ActionModel::Analyze { policy: asked_policy(q), timeout_us: asked_timeout(q) }
    } else {
        ActionModel::Refuse { status: 404, message: "not found"@ }
    }
}

fn refuse(status: u16, message: &str) -> (r: Action)
    ensures
        r@ == (ActionModel::Refuse { status, message: message@ }),
{
    Action::Refuse { status, message: message.to_string() }
}

fn timeout_of(q: &str) -> (r: i128)
    ensures
        r == asked_timeout(q@),
{
    match query_get(q, "timeout_us") {
        Some(t) => match read_integer(&chars_of(t.as_str())) {
            Some(n) => n,
            None => 2_000_000,
        },
        None => 2_000_000,
    }
}

fn policy_of(q: &str) -> (r: OverlapPolicy)
    ensures
        r == asked_policy(q@),
{
    match query_get(q, "policy") {
        Some(t) => OverlapPolicy::parse(t.as_str()),
        None => OverlapPolicy::FirstSeen,
    }
}

/// What a request asks for.
pub fn route(method: &str, path: &str, query: &str) -> (r: Action)
    ensures
        r@ == routed(method@, path@, query@),
{
    let get = same(method, "GET");
    if get && same(path, "/") {
        Action::Page
    } else if get && same(path, "/api/health") {
        Action::Health
    } else if get && same(path, "/api/versions") {
        Action::Versions
    } else if get && same(path, "/api/version") {
        match query_get(query, "id") {
            Some(id) => if is_safe(id.as_str()) {
                Action::Version(id)
            } else {
                refuse(400, "missing id")
            },
            None => refuse(400, "missing id"),
        }
    } else if get && same(path, "/api/frame") {
        match query_get(query, "sha256") {
            Some(sha) => if looks_like_address(sha.as_str()) {
                Action::Frame(sha)
            } else {
                refuse(400, "bad sha256")
            },
            None => refuse(400, "bad sha256"),
        }
    } else if get && same(path, "/api/demo") {
        match query_get(query, "scenario") {
            Some(name) => Action::Demo(name),
            None => Action::Demo("wrap".to_string()),
        }
    } else if get && same(path, "/api/demo-list") {
        Action::DemoList
    } else if same(method, "POST") && same(path, "/api/analyze") {
        Action::Analyze { policy: policy_of(query), timeout_us: timeout_of(query) }
    } else {
        refuse(404, "not found")
    }
}

/// That the service is up.
pub open spec fn health_json() -> JsonModel {
    JsonModel::Obj(
        seq![("ok"@, JsonModel::Bool(true)), ("name"@, JsonModel::Str("网络会话重组台"@))],
    )
}

/// The answer that the service is up.
pub fn health_response() -> (r: Response)
    ensures
        r@ == json_answer(200, written(health_json(), None)),
{
    let mut o = Json::obj();
    o.set("ok", Json::Bool(true));
    o.set("name", Json::Str("网络会话重组台".to_string()));
    assert(o@->Obj_0 =~= health_json()->Obj_0);
    json_response(&o)
}

/// An entry of the list of versions.
pub open spec fn version_json(a: ArtifactModel) -> JsonModel {
    JsonModel::Obj(
        seq![
            ("version_id"@, JsonModel::Str(a.id)),
            ("created_ts_us"@, JsonModel::Num(a.created_ts_us)),
            ("input_sha256"@, JsonModel::Str(a.input_sha)),
            ("overlap_policy"@, JsonModel::Str(a.policy)),
            ("timeout_us"@, JsonModel::Num(a.timeout_us)),
            ("result_sha256"@, JsonModel::Str(a.result_sha)),
            ("fingerprint"@, JsonModel::Str(a.fingerprint)),
        ],
    )
}

fn version_entry(a: &Artifact) -> (r: Json)
    ensures
        r@ == version_json(a@),
{
    let mut o = Json::obj();
    o.set("version_id", Json::Str(a.id.clone()));
    o.set("created_ts_us", Json::num(a.created_ts_us));
    o.set("input_sha256", Json::Str(a.input_sha.clone()));
    o.set("overlap_policy", Json::Str(a.policy.clone()));
    o.set("timeout_us", Json::num(a.timeout_us));
    o.set("result_sha256", Json::Str(a.result_sha.clone()));
    o.set("fingerprint", Json::Str(a.fingerprint.clone()));
    assert(o@->Obj_0 =~= version_json(a@)->Obj_0);
    o
}

/// The list of versions.
pub open spec fn versions_json(v: Seq<ArtifactModel>) -> JsonModel {
    JsonModel::Arr(v.map_values(|a: ArtifactModel| version_json(a)))
}

/// The answer with the list of versions.
pub fn versions_response(list: &Vec<Artifact>) -> (r: Response)
    ensures
        r@ == json_answer(200, written(versions_json(artifact_views(list@)), None)),
{
    let ghost vs = artifact_views(list@);
    let ghost g = |a: ArtifactModel| version_json(a);
    let mut arr: Vec<Json> = Vec::new();
    let mut i: usize = 0;
    while i < list.len()
        invariant
            i <= list@.len(),
            vs == artifact_views(list@),
            g == (|a: ArtifactModel| version_json(a)),
            crate::json::items_of(arr@) == vs.map_values(g).take(i as int),
        decreases list@.len() - i,
    {
        let ghost before = arr@;
        let o = version_entry(&list[i]);
        let ghost om = o@;
        arr.push(o);
        i += 1;
        assert(crate::json::items_of(arr@) =~= crate::json::items_of(before).push(om));
        assert(crate::json::items_of(arr@) =~= vs.map_values(g).take(i as int));
    }
    assert(vs.map_values(g).take(i as int) =~= vs.map_values(g));
    json_response(&Json::arr(arr))
}

/// The answer with a kept result, if it was there.
pub fn version_response(kept: Option<Vec<u8>>) -> (r: Response)
    ensures
        r@ == (match kept {
            Some(b) => ResponseModel {
                status: 200,
                content_type: "application/json; charset=utf-8"@,
                body: b@,
            },
            None => error_answer(404, "version not found"@),
        }),
{
    match kept {
        Some(body) => Response {
            status: 200,
            content_type: "application/json; charset=utf-8".to_string(),
            body,
        },
        None => err_json(404, "version not found"),
    }
}

/// The answer with a frame, if it was there.
pub fn frame_response(kept: Option<Vec<u8>>) -> (r: Response)
    ensures
        r@ == (match kept {
            Some(b) => ResponseModel {
                status: 200,
                content_type: "application/octet-stream"@,
                body: b@,
            },
            None => error_answer(404, "frame not found"@),
        }),
{
    match kept {
        Some(body) => Response {
            status: 200,
            content_type: "application/octet-stream".to_string(),
            body,
        },
        None => err_json(404, "frame not found"),
    }
}

/// The answer with the page.
pub fn page_response(html: &str) -> (r: Response)
    ensures
        r@ == (ResponseModel {
            status: 200,
            content_type: "text/html; charset=utf-8"@,
            body: encode_utf8(html@),
        }),
{
    Response {
        status: 200,
        content_type: "text/html; charset=utf-8".to_string(),
        body: copy_bytes(html.as_bytes()),
    }
}

/// The answer with the fixture of a scenario.
pub fn demo_response(name: &str) -> (r: Response)
    ensures
        r@ == json_answer(
            200,
            written(
                crate::builder::fixture_json(
                    crate::builder::BuilderModel { linktype: 1, frames: demo_frames(name@) },
                ),
                None,
            ),
        ),
{
    let t = demo_fixture(name);
    json_text(200, t.as_str())
}

/// The names of the scenarios.
pub open spec fn demo_names() -> Seq<Seq<char>> {
    seq![
        "wrap"@,
        "retrans"@,
        "outoforder"@,
        "gap"@,
        "reuse"@,
        "midcap"@,
        "finrst"@,
        "frag_overlap"@,
        "same_ts"@,
        "mixed"@,
    ]
}

/// The list of the scenarios.
pub open spec fn demo_list_json() -> JsonModel {
    JsonModel::Arr(demo_names().map_values(|n: Seq<char>| JsonModel::Str(n)))
}

/// The answer with the names of the scenarios.
pub fn demo_list_response() -> (r: Response)
    ensures
        r@ == json_answer(200, written(demo_list_json(), None)),
{
    let mut arr: Vec<Json> = Vec::new();
    arr.push(Json::Str("wrap".to_string()));
    arr.push(Json::Str("retrans".to_string()));
    arr.push(Json::Str("outoforder".to_string()));
    arr.push(Json::Str("gap".to_string()));
    arr.push(Json::Str("reuse".to_string()));
    arr.push(Json::Str("midcap".to_string()));
    arr.push(Json::Str("finrst".to_string()));
    arr.push(Json::Str("frag_overlap".to_string()));
    arr.push(Json::Str("same_ts".to_string()));
    arr.push(Json::Str("mixed".to_string()));
    assert(crate::json::items_of(arr@) =~= demo_list_json()->Arr_0);
    json_response(&Json::arr(arr))
}

/// How an analysis of a body went.
pub enum Outcome {
    /// The kept result.
    Kept(Vec<u8>),
    /// The body could not be analysed.
    Rejected(String),
    /// The input could not be saved.
    Unsaved(String),
}

/// The answer of an analysis.
pub fn analyze_response(o: Outcome) -> (r: Response)
    ensures
        r@ == (match o {
            Outcome::Kept(b) => ResponseModel {
                status: 200,
                content_type: "application/json; charset=utf-8"@,
                body: b@,
            },
            Outcome::Rejected(e) => error_answer(400, e@),
            Outcome::Unsaved(e) => error_answer(500, e@),
        }),
{
    match o {
        Outcome::Kept(body) => Response {
            status: 200,
            content_type: "application/json; charset=utf-8".to_string(),
            body,
        },
        Outcome::Rejected(e) => err_json(400, e.as_str()),
        Outcome::Unsaved(e) => err_json(500, e.as_str()),
    }
}

/// A result is only ever looked up by a name that leads out of no directory.
pub proof fn law_version_names_are_safe(method: Seq<char>, path: Seq<char>, q: Seq<char>)
    ensures
        routed(method, path, q) matches ActionModel::Version(id) ==> safe_name(id),
        routed(method, path, q) matches ActionModel::Frame(sha) ==> is_address(sha),
{
}

/// A request that is none of the known ones is answered with status 404.
pub proof fn law_unknown_is_not_found(method: Seq<char>, path: Seq<char>, q: Seq<char>)
    requires
        method != "GET"@,
        method != "POST"@,
    ensures
        routed(method, path, q) == (ActionModel::Refuse { status: 404, message: "not found"@ }),
{
}

} // verus!
