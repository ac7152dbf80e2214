//! The requests of the corpus service: how they are read, what they ask for, and what
//! they are answered.

use vstd::prelude::*;
use vstd::string::StringSliceAdditionalSpecFns;
use vstd::utf8::{
    decode_utf8, encode_utf8, encode_utf8_decode_utf8, is_char_boundary, valid_utf8,
};
use crate::bytes::{copy_bytes, copy_range};
use crate::json::{items_of, parsed, written, Json, JsonModel, Step};
use crate::lines::{
    cut, cut_at, find_head_end, first_word, head_end, length_field, lines, read_length_field,
    second_word, split_lines, two_words,
};
use crate::server::reason_spec;
use crate::text::{
    cat, chars_of, dec, fields, lossy, number, parse_number, push_dec, push_text, read_utf8, same,
    split_fields, sub_string, utf8_error, utf8_lossy, views,
};

verus! {

/// The head of a request.
pub struct RequestHead {
    pub method: String,
    pub target: String,
    pub path: String,
    pub content_length: usize,
}

/// What the head of a request says.
pub struct HeadModel {
    pub method: Seq<char>,
    pub target: Seq<char>,
    pub path: Seq<char>,
    pub content_length: int,
}

impl View for RequestHead {
    type V = HeadModel;

    open spec fn view(&self) -> HeadModel {
        HeadModel {
            method: self.method@,
            target: self.target@,
            path: self.path@,
            content_length: self.content_length as int,
        }
    }
}

/// The size of the body that the first `n` lines give; the last line that gives one
/// counts.
pub open spec fn body_size(ls: Seq<Seq<char>>, n: int) -> int
    decreases n,
{
    if n <= 1 {
        0
    } else {
        match length_field(ls[n - 1]) {
            Some(v) => v,
            None => body_size(ls, n - 1),
        }
    }
}

/// What the head of a request says.
pub open spec fn head_model(head: Seq<char>) -> HeadModel {
    let ls = lines(head);
    let target = match second_word(ls[0]) {
        Some(t) => t,
        None => "/"@,
    };
    HeadModel {
        method: match first_word(ls[0]) {
            Some(m) => m,
            None => seq![],
        },
        target,
        path: cut(target, '?').0,
        content_length: body_size(ls, ls.len() as int),
    }
}

/// Reads the text of the head of a request.
pub fn parse_head(head: &str) -> (r: RequestHead)
    ensures
        r@ == head_model(head@),
{
    let ls = split_lines(head);
    let ghost vs = views(ls@);
    assert(vs[0] == ls@[0]@);
    let (first, second) = two_words(ls[0].as_str());
    let method = match first {
        Some(m) => m,
        None => {
            let e = String::new();
            assert(e@ =~= seq![]);
            e
        },
    };
    let target = match second {
        Some(t) => t,
        None => "/".to_string(),
    };
    let (path, _) = cut_at(target.as_str(), '?');
    let mut content_length: usize = 0;
    let mut i: usize = 1;
    while i < ls.len()
        invariant
            1 <= i <= ls@.len(),
            vs == views(ls@),
            content_length == body_size(vs, i as int),
        decreases ls@.len() - i,
    {
        assert(vs[i as int] == ls@[i as int]@);
        if let Some(n) = read_length_field(ls[i].as_str()) {
            content_length = n;
        }
        i += 1;
    }
    RequestHead { method, target, path, content_length }
}

/// Reads the head of a request off the bytes that came in so far, and where its body
/// starts. Nothing comes back while the blank line behind the head is missing.
pub fn read_head(buf: &[u8]) -> (r: Option<(RequestHead, usize)>)
    ensures
        match r {
            Some((h, at)) => head_end(buf@, 0) == Some(at - 4) && at <= buf@.len() && h@
                == head_model(utf8_lossy(buf@.take(at - 4))),
            None => head_end(buf@, 0) is None,
        },
{
    match find_head_end(buf) {
        None => None,
        Some(e) => {
            let n: usize = buf.len();
            assert(e + 4 <= n);
            let part = copy_range(buf, 0, e);
            assert(part@ =~= buf@.take(e as int));
            let text = lossy(part.as_slice());
            Some((parse_head(text.as_str()), e + 4))
        },
    }
}

/// An answer, which may be meant to be saved as a file.
pub struct Response {
    pub status: u16,
    pub content_type: String,
    pub body: Vec<u8>,
    pub download: Option<String>,
}

/// What an answer is.
pub struct ResponseModel {
    pub status: u16,
    pub content_type: Seq<char>,
    pub body: Seq<u8>,
    pub download: Option<Seq<char>>,
}

impl View for Response {
    type V = ResponseModel;

    open spec fn view(&self) -> ResponseModel {
        ResponseModel {
            status: self.status,
            content_type: self.content_type@,
            body: self.body@,
            download: match self.download {
                Some(n) => Some(n@),
                None => None,
            },
        }
    }
}

/// The head of an answer.
pub open spec fn answer_head(m: ResponseModel) -> Seq<char> {
    "HTTP/1.1 "@ + dec(m.status as nat) + " "@ + reason_spec(m.status) + "\r\nContent-Type: "@
        + m.content_type + "\r\nContent-Length: "@ + dec(m.body.len())
        + "\r\nConnection: close\r\n"@ + (match m.download {
        Some(n) => "Content-Disposition: attachment; filename=\""@ + n + "\"\r\n"@,
        None => seq![],
    }) + "Access-Control-Allow-Origin: *\r\n\r\n"@
}

/// The head of an answer.
pub fn response_head(r: &Response) -> (t: String)
    ensures
        t@ == answer_head(r@),
{
    let mut t = "HTTP/1.1 ".to_string();
    push_dec(&mut t, r.status as u64);
    push_text(&mut t, " ");
    push_text(&mut t, crate::server::reason(r.status));
    push_text(&mut t, "\r\nContent-Type: ");
    push_text(&mut t, r.content_type.as_str());
    push_text(&mut t, "\r\nContent-Length: ");
    push_dec(&mut t, r.body.len() as u64);
    push_text(&mut t, "\r\nConnection: close\r\n");
    let ghost front = t@;
    if let Some(n) = &r.download {
        push_text(&mut t, "Content-Disposition: attachment; filename=\"");
        push_text(&mut t, n.as_str());
        push_text(&mut t, "\"\r\n");
        assert(t@ =~= front + ("Content-Disposition: attachment; filename=\""@ + n@ + "\"\r\n"@));
    } else {
        assert(t@ =~= front + seq![]);
    }
    push_text(&mut t, "Access-Control-Allow-Origin: *\r\n\r\n");
    t
}

/// The answer with a value.
pub open spec fn json_answer(m: JsonModel) -> ResponseModel {
    ResponseModel {
        status: 200,
        content_type: "application/json; charset=utf-8"@,
        body: encode_utf8(written(m, None)),
        download: None,
    }
}

/// The answer with a value.
pub fn ok_json(v: &Json) -> (r: Response)
    ensures
        r@ == json_answer(v@),
{
    let t = v.to_canonical();
    Response {
        status: 200,
        content_type: "application/json; charset=utf-8".to_string(),
        body: copy_bytes(t.as_str().as_bytes()),
        download: None,
    }
}

/// The answer of an error.
pub open spec fn error_answer(status: u16, message: Seq<char>) -> ResponseModel {
    ResponseModel {
        status,
        content_type: "text/plain; charset=utf-8"@,
        body: encode_utf8(message),
        download: None,
    }
}

/// The answer of an error.
pub fn error_response(status: u16, message: &str) -> (r: Response)
    ensures
        r@ == error_answer(status, message@),
{
    Response {
        status,
        content_type: "text/plain; charset=utf-8".to_string(),
        body: copy_bytes(message.as_bytes()),
        download: None,
    }
}

/// An error with the words of its cause.
pub fn failure(status: u16, what: &str, cause: &str) -> (r: Response)
    ensures
        r@ == error_answer(status, what@ + ": "@ + cause@),
{
    let mut t = cat(what, ": ");
    push_text(&mut t, cause);
    error_response(status, t.as_str())
}

/// What a request asks for.
pub enum Action {
    /// The page.
    Page,
    Health,
    Corpora,
    /// To import the body.
    Import,
    /// To analyse what the body tells.
    Analyze,
    Analyses,
    /// The evidence of an analysis, to be saved.
    Evidence(String),
    /// The evidence of an analysis.
    Analysis(String),
    /// One direction of a session.
    Stream { id: String, session: usize, dir: usize },
    /// An error to answer at once.
    Refuse { status: u16, message: String },
}

/// What a request asks for.
pub enum ActionModel {
    Page,
    Health,
    Corpora,
    Import,
    Analyze,
    Analyses,
    Evidence(Seq<char>),
    Analysis(Seq<char>),
    Stream { id: Seq<char>, session: int, dir: int },
    Refuse { status: u16, message: Seq<char> },
}

impl View for Action {
    type V = ActionModel;

    open spec fn view(&self) -> ActionModel {
        match *self {
            Action::Page => ActionModel::Page,
            Action::Health => ActionModel::Health,
            Action::Corpora => ActionModel::Corpora,
            Action::Import => ActionModel::Import,
            Action::Analyze => ActionModel::Analyze,
            Action::Analyses => ActionModel::Analyses,
            Action::Evidence(id) => ActionModel::Evidence(id@),
            Action::Analysis(id) => ActionModel::Analysis(id@),
            Action::Stream { id, session, dir } => ActionModel::Stream {
                id: id@,
                session: session as int,
                dir: dir as int,
            },
            Action::Refuse { status, message } => ActionModel::Refuse { status, message: message@ },
        }
    }
}

/// The text without the slashes at its start.
pub open spec fn bare(s: Seq<char>) -> Seq<char>
    decreases s.len(),
{
    if s.len() > 0 && s[0] == '/' {
        bare(s.skip(1))
    } else {
        s
    }
}

fn without_slashes(s: &str) -> (r: String)
    ensures
        r@ == bare(s@),
{
    let v = chars_of(s);
    let n: usize = v.len();
    let mut i: usize = 0;
    assert(v@.skip(0) =~= v@);
    while i < n && v[i] == '/'
        invariant
            i <= n,
            n == v@.len(),
            v@ == s@,
            bare(v@.skip(i as int)) == bare(s@),
        decreases n - i,
    {
        assert(v@.skip(i as int).skip(1) =~= v@.skip(i + 1));
        i += 1;
    }
    let r = sub_string(&v, i, n);
    assert(r@ =~= v@.skip(i as int));
    r
}

/// What the parts of a path ask for.
pub open spec fn nested(p: Seq<Seq<char>>) -> ActionModel {
    let analysis = p.len() >= 3 && p[0] == "api"@ && p[1] == "analysis"@;
    if analysis && p.len() == 4 && p[3] == "evidence.json"@ {
        ActionModel::Evidence(p[2])
    } else if analysis && p.len() == 6 && p[3] == "stream"@ {
        match number(p[4], 10, usize::MAX as int) {
            None => ActionModel::Refuse { status: 400, message: "bad session id"@ },
            Some(session) => match number(p[5], 10, usize::MAX as int) {
                None => ActionModel::Refuse { status: 400, message: "bad direction"@ },
                Some(dir) => ActionModel::Stream { id: p[2], session, dir },
            },
        }
    } else if analysis && p.len() == 3 {
        ActionModel::Analysis(p[2])
    } else {
        ActionModel::Refuse { status: 404, message: "not found"@ }
    }
}

/// What a request asks for.
pub open spec fn routed(method: Seq<char>, path: Seq<char>) -> ActionModel {
    let get = method == "GET"@;
    let post = method == "POST"@;
    if get && path == "/"@ {
        ActionModel::Page
    } else if get && path == "/api/health"@ {
        ActionModel::Health
    } else if get && path == "/api/corpora"@ {
        ActionModel::Corpora
    } else if post && path == "/api/import"@ {
        ActionModel::Import
    } else if post && path == "/api/analyze"@ {
        ActionModel::Analyze
    } else if get && path == "/api/analyses"@ {
        ActionModel::Analyses
    } else if get {
        nested(fields(bare(path), '/'))
    } else {
        ActionModel::Refuse { status: 404, message: "not found"@ }
    }
}

fn refuse(status: u16, message: &str) -> (r: Action)
    ensures
        r@ == (ActionModel::Refuse { status, message: message@ }),
{
    Action::Refuse { status, message: message.to_string() }
}

fn route_nested(path: &str) -> (r: Action)
    ensures
        r@ == nested(fields(bare(path@), '/')),
{
    let p = without_slashes(path);
    let parts = split_fields(p.as_str(), '/');
    let n: usize = parts.len();
    let ghost ps = views(parts@);
    assert(ps.len() == n);
    assert forall|i: int| 0 <= i < n implies ps[i] == (#[trigger] parts@[i])@ by {}
    if n < 3 {
        return refuse(404, "not found");
    }
    if !same(parts[0].as_str(), "api") || !same(parts[1].as_str(), "analysis") {
        return refuse(404, "not found");
    }
    if n == 4 && same(parts[3].as_str(), "evidence.json") {
        return Action::Evidence(parts[2].clone());
    }
    if n == 6 && same(parts[3].as_str(), "stream") {
        return match parse_number(parts[4].as_str(), 10, usize::MAX as u64) {
            None => refuse(400, "bad session id"),
            Some(session) => match parse_number(parts[5].as_str(), 10, usize::MAX as u64) {
                None => refuse(400, "bad direction"),
                Some(dir) => Action::Stream {
                    id: parts[2].clone(),
                    session: session as usize,
                    dir: dir as usize,
                },
            },
        };
    }
    if n == 3 {
        return Action::Analysis(parts[2].clone());
    }
    refuse(404, "not found")
}

/// What a request asks for.
pub fn route(method: &str, path: &str) -> (r: Action)
    ensures
        r@ == routed(method@, path@),
{
    let get = same(method, "GET");
    let post = same(method, "POST");
    if get && same(path, "/") {
        Action::Page
    } else if get && same(path, "/api/health") {
        Action::Health
    } else if get && same(path, "/api/corpora") {
        Action::Corpora
    } else if post && same(path, "/api/import") {
        Action::Import
    } else if post && same(path, "/api/analyze") {
        Action::Analyze
    } else if get && same(path, "/api/analyses") {
        Action::Analyses
    } else if get {
        route_nested(path)
    } else {
        refuse(404, "not found")
    }
}

/// What an analysis is asked for with.
pub struct AnalyzeRequest {
    pub corpus_id: String,
    pub policy: Option<String>,
    pub timeout_ns: u64,
}

/// What an analysis is asked for with.
pub struct AnalyzeModel {
    pub corpus_id: Seq<char>,
    pub policy: Option<Seq<char>>,
    pub timeout_ns: int,
}

impl View for AnalyzeRequest {
    type V = AnalyzeModel;

    open spec fn view(&self) -> AnalyzeModel {
        AnalyzeModel {
            corpus_id: self.corpus_id@,
            policy: match self.policy {
                Some(p) => Some(p@),
                None => None,
            },
            timeout_ns: self.timeout_ns as int,
        }
    }
}

/// What a value asks for. The timeout is two minutes unless it is given.
pub open spec fn asked(v: JsonModel) -> Result<AnalyzeModel, Seq<char>> {
    match v.str_field("corpus_id"@) {
        None => Err("missing corpus_id"@),
        Some(corpus_id) => Ok(
            AnalyzeModel {
                corpus_id,
                policy: v.str_field("policy"@),
                timeout_ns: match v.u64_field("timeout_ns"@) {
                    Some(n) => n,
                    None => 120_000_000_000,
                },
            },
        ),
    }
}

/// What the body of a request asks for. Nothing comes of a JSON text that cannot be
/// told.
pub open spec fn asked_by(body: Seq<u8>) -> Option<Result<AnalyzeModel, Seq<char>>> {
    if !valid_utf8(body) {
        Some(Err(utf8_error(body)))
    } else {
        match parsed(decode_utf8(body)) {
            Step::Stuck => None,
            Step::Bad(e) => Some(Err(e)),
            Step::Got(v, _) => Some(asked(v)),
        }
    }
}

/// Reads what a value asks for. An error is answered with status 400.
pub fn analyze_request(v: &Json) -> (r: Result<AnalyzeRequest, String>)
    ensures
        match r {
            Ok(a) => asked(v@) == Ok::<AnalyzeModel, Seq<char>>(a@),
            Err(e) => asked(v@) == Err::<AnalyzeModel, Seq<char>>(e@),
        },
{
    let corpus_id = match v.str_at("corpus_id") {
        Some(t) => t.to_string(),
        None => {
            return Err("missing corpus_id".to_string());
        },
    };
    let policy = match v.str_at("policy") {
        Some(t) => Some(t.to_string()),
        None => None,
    };
    let timeout_ns: u64 = match v.u64_at("timeout_ns") {
        Some(n) => n,
        None => 120_000_000_000,
    };
    Ok(AnalyzeRequest { corpus_id, policy, timeout_ns })
}

/// Reads what the body of a request asks for. An error is answered with status 400.
pub fn read_analyze_request(body: &[u8]) -> (r: Option<Result<AnalyzeRequest, String>>)
    ensures
        match r {
            Some(Ok(a)) => asked_by(body@) == Some(Ok::<AnalyzeModel, Seq<char>>(a@)),
            Some(Err(e)) => asked_by(body@) == Some(Err::<AnalyzeModel, Seq<char>>(e@)),
            None => asked_by(body@) is None,
        },
{
    let text = match read_utf8(body) {
        Ok(t) => t,
        Err(e) => {
            return Some(Err(e));
        },
    };
    match Json::try_parse(text.as_str()) {
        None => None,
        Some(Err(e)) => Some(Err(e)),
        Some(Ok(v)) => Some(analyze_request(&v)),
    }
}

/// That the service is up.
pub open spec fn health_json() -> JsonModel {
    JsonModel::Obj(
        seq![("ok"@, JsonModel::Bool(true)), ("title"@, JsonModel::Str("网络会话重组台"@))],
    )
}

/// The answer that the service is up.
pub fn health_response() -> (r: Response)
    ensures
        r@ == json_answer(health_json()),
{
    let mut o = Json::obj();
    o.set("ok", Json::Bool(true));
    o.set("title", Json::Str("网络会话重组台".to_string()));
    assert(o@->Obj_0 =~= health_json()->Obj_0);
    ok_json(&o)
}

/// A corpus: its name and how many frames it holds.
pub open spec fn corpus_json(key: Seq<char>, c: (Seq<char>, int)) -> JsonModel {
    JsonModel::Obj(seq![(key, JsonModel::Str(c.0)), ("frame_count"@, JsonModel::Num(c.1))])
}

fn corpus_value(key: &str, id: &str, frame_count: usize) -> (r: Json)
    ensures
        r@ == corpus_json(key@, (id@, frame_count as int)),
{
    let mut o = Json::obj();
    o.set(key, Json::Str(id.to_string()));
    o.set("frame_count", Json::num(frame_count as i128));
    assert(o@->Obj_0 =~= corpus_json(key@, (id@, frame_count as int))->Obj_0);
    o
}

/// The answer of an import.
pub fn import_response(id: &str, frame_count: usize) -> (r: Response)
    ensures
        r@ == json_answer(corpus_json("corpus_id"@, (id@, frame_count as int))),
{
    ok_json(&corpus_value("corpus_id", id, frame_count))
}

/// The corpora of a list.
pub open spec fn corpus_views(v: Seq<(String, usize)>) -> Seq<(Seq<char>, int)> {
    v.map_values(|c: (String, usize)| (c.0@, c.1 as int))
}

/// The answer with the corpora.
pub fn corpora_response(list: &Vec<(String, usize)>) -> (r: Response)
    ensures
        r@ == json_answer(
            JsonModel::Arr(
                corpus_views(list@).map_values(|c: (Seq<char>, int)| corpus_json("id"@, c)),
            ),
        ),
{
    let ghost vs = corpus_views(list@);
    let ghost g = |c: (Seq<char>, int)| corpus_json("id"@, c);
    let mut arr: Vec<Json> = Vec::new();
    let mut i: usize = 0;
    while i < list.len()
        invariant
            i <= list@.len(),
            vs == corpus_views(list@),
            g == (|c: (Seq<char>, int)| corpus_json("id"@, c)),
            items_of(arr@) == vs.map_values(g).take(i as int),
        decreases list@.len() - i,
    {
        let ghost before = arr@;
        let o = corpus_value("id", list[i].0.as_str(), list[i].1);
        let ghost om = o@;
        arr.push(o);
        i += 1;
        assert(items_of(arr@) =~= items_of(before).push(om));
        assert(items_of(arr@) =~= vs.map_values(g).take(i as int));
    }
    assert(vs.map_values(g).take(i as int) =~= vs.map_values(g));
    ok_json(&Json::arr(arr))
}

/// An analysis in the list of analyses.
pub struct AnalysisMeta {
    pub id: String,
    pub corpus_id: String,
    pub fingerprint: String,
    pub created_at_ns: u128,
    pub policy: String,
    pub session_count: usize,
}

/// What an analysis in the list of analyses is.
pub struct AnalysisModel {
    pub id: Seq<char>,
    pub corpus_id: Seq<char>,
    pub fingerprint: Seq<char>,
    pub created_at_ns: int,
    pub policy: Seq<char>,
    pub session_count: int,
}

impl View for AnalysisMeta {
    type V = AnalysisModel;

    open spec fn view(&self) -> AnalysisModel {
        AnalysisModel {
            id: self.id@,
            corpus_id: self.corpus_id@,
            fingerprint: self.fingerprint@,
            created_at_ns: self.created_at_ns as int,
            policy: self.policy@,
            session_count: self.session_count as int,
        }
    }
}

/// What an analysis is answered with.
pub open spec fn made_json(a: AnalysisModel) -> JsonModel {
    JsonModel::Obj(
        seq![
            ("analysis_id"@, JsonModel::Str(a.id)),
            ("corpus_id"@, JsonModel::Str(a.corpus_id)),
            ("fingerprint"@, JsonModel::Str(a.fingerprint)),
            ("session_count"@, JsonModel::Num(a.session_count)),
        ],
    )
}

/// The answer of an analysis.
pub fn analyze_response(a: &AnalysisMeta) -> (r: Response)
    ensures
        r@ == json_answer(made_json(a@)),
{
    let mut o = Json::obj();
    o.set("analysis_id", Json::Str(a.id.clone()));
    o.set("corpus_id", Json::Str(a.corpus_id.clone()));
    o.set("fingerprint", Json::Str(a.fingerprint.clone()));
    o.set("session_count", Json::num(a.session_count as i128));
    assert(o@->Obj_0 =~= made_json(a@)->Obj_0);
    ok_json(&o)
}

/// An entry of the list of analyses.
pub open spec fn listed_json(a: AnalysisModel) -> JsonModel {
    JsonModel::Obj(
        seq![
            ("id"@, JsonModel::Str(a.id)),
            ("corpus_id"@, JsonModel::Str(a.corpus_id)),
            ("fingerprint"@, JsonModel::Str(a.fingerprint)),
            ("created_at_ns"@, JsonModel::Num(a.created_at_ns)),
            ("policy"@, JsonModel::Str(a.policy)),
            ("session_count"@, JsonModel::Num(a.session_count)),
        ],
    )
}

fn listed_value(a: &AnalysisMeta) -> (r: Json)
    requires
        a.created_at_ns <= i128::MAX,
    ensures
        r@ == listed_json(a@),
{
    let mut o = Json::obj();
    o.set("id", Json::Str(a.id.clone()));
    o.set("corpus_id", Json::Str(a.corpus_id.clone()));
    o.set("fingerprint", Json::Str(a.fingerprint.clone()));
    o.set("created_at_ns", Json::num(a.created_at_ns as i128));
    o.set("policy", Json::Str(a.policy.clone()));
    o.set("session_count", Json::num(a.session_count as i128));
    assert(o@->Obj_0 =~= listed_json(a@)->Obj_0);
    o
}

/// The analyses of a list.
pub open spec fn analysis_views(v: Seq<AnalysisMeta>) -> Seq<AnalysisModel> {
    v.map_values(|a: AnalysisMeta| a@)
}

/// The answer with the analyses.
pub fn analyses_response(list: &Vec<AnalysisMeta>) -> (r: Response)
    requires
        forall|i: int| 0 <= i < list@.len() ==> (#[trigger] list@[i]).created_at_ns <= i128::MAX,
    ensures
        r@ == json_answer(
            JsonModel::Arr(
                analysis_views(list@).map_values(|a: AnalysisModel| listed_json(a)),
            ),
        ),
{
    let ghost vs = analysis_views(list@);
    let ghost g = |a: AnalysisModel| listed_json(a);
    let mut arr: Vec<Json> = Vec::new();
    let mut i: usize = 0;
    while i < list.len()
        invariant
            i <= list@.len(),
            vs == analysis_views(list@),
            g == (|a: AnalysisModel| listed_json(a)),
            items_of(arr@) == vs.map_values(g).take(i as int),
            forall|i: int|
                0 <= i < list@.len() ==> (#[trigger] list@[i]).created_at_ns <= i128::MAX,
        decreases list@.len() - i,
    {
        let ghost before = arr@;
        let o = listed_value(&list[i]);
        let ghost om = o@;
        arr.push(o);
        i += 1;
        assert(items_of(arr@) =~= items_of(before).push(om));
        assert(items_of(arr@) =~= vs.map_values(g).take(i as int));
    }
    assert(vs.map_values(g).take(i as int) =~= vs.map_values(g));
    ok_json(&Json::arr(arr))
}

/// The file name under which the evidence of an analysis is saved, which has the
/// first twelve bytes of the analysis' name in it.
pub open spec fn evidence_name(id: Seq<char>) -> Seq<char> {
    "evidence_"@ + decode_utf8(encode_utf8(id).take(12)) + ".json"@
}

/// The answer with the evidence of an analysis, to be saved as a file.
pub fn evidence_response(id: &str, evidence: &Json) -> (r: Response)
    requires
        encode_utf8(id@).len() >= 12,
        is_char_boundary(encode_utf8(id@), 12),
    ensures
        r@ == (ResponseModel {
            download: Some(evidence_name(id@)),
            ..json_answer(evidence@)
        }),
{
    let (front, _) = id.split_at(12);
    proof {
        let b = encode_utf8(id@);
        assert(b.subrange(0, 12) =~= b.take(12));
        encode_utf8_decode_utf8(front@);
    }
    let mut name = cat("evidence_", front);
    push_text(&mut name, ".json");
    let a = ok_json(evidence);
    Response {
        status: a.status,
        content_type: a.content_type,
        body: a.body,
        download: Some(name),
    }
}

/// The file name under which one direction of a session is saved.
pub open spec fn stream_name(session: int, dir: int) -> Seq<char> {
    "stream_"@ + dec(session as nat) + "_dir"@ + dec(dir as nat) + ".bin"@
}

/// The answer with one direction of a session, to be saved as a file.
pub fn stream_response(session: usize, dir: usize, data: Vec<u8>) -> (r: Response)
    ensures
        r@ == (ResponseModel {
            status: 200,
            content_type: "application/octet-stream"@,
            body: data@,
            download: Some(stream_name(session as int, dir as int)),
        }),
{
    let mut name = "stream_".to_string();
    push_dec(&mut name, session as u64);
    push_text(&mut name, "_dir");
    push_dec(&mut name, dir as u64);
    push_text(&mut name, ".bin");
    Response {
        status: 200,
        content_type: "application/octet-stream".to_string(),
        body: data,
        download: Some(name),
    }
}

/// The answer with the page.
pub fn page_response(html: &str) -> (r: Response)
    ensures
        r@ == (ResponseModel {
            status: 200,
            content_type: "text/html; charset=utf-8"@,
            body: encode_utf8(html@),
            download: None,
        }),
{
    Response {
        status: 200,
        content_type: "text/html; charset=utf-8".to_string(),
        body: copy_bytes(html.as_bytes()),
        download: None,
    }
}

} // verus!
