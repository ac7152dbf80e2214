//! Content addresses of inputs and frames, and immutable analysis versions.

use vstd::prelude::*;
use vstd::utf8::encode_utf8;
use crate::bytes::copy_bytes;
use crate::capture::Capture;
use crate::hash::{sha256_hex, sha256_of};
use crate::json::{
    canonical, entry_at, items_of, law_canonical_field, parsed, written, Json, JsonModel, Step,
};
use crate::sorting::{goes_before, law_order, order_of, stable_order};
use crate::tcp::OverlapPolicy;
use crate::text::{cat, chars_of, hex_of, lossy, push_text, sub_string, utf8_lossy, views};
use crate::textmap::TextMap;

verus! {

#[derive(Debug)]
pub struct Artifact {
    pub id: String,
    pub created_ts_us: i128,
    pub input_sha: String,
    pub policy: String,
    pub timeout_us: i128,
    pub result_sha: String,
    pub fingerprint: String,
}

/// What an analysis version is.
pub struct ArtifactModel {
    pub id: Seq<char>,
    pub created_ts_us: int,
    pub input_sha: Seq<char>,
    pub policy: Seq<char>,
    pub timeout_us: int,
    pub result_sha: Seq<char>,
    pub fingerprint: Seq<char>,
}

impl View for Artifact {
    type V = ArtifactModel;

    open spec fn view(&self) -> ArtifactModel {
        ArtifactModel {
            id: self.id@,
            created_ts_us: self.created_ts_us as int,
            input_sha: self.input_sha@,
            policy: self.policy@,
            timeout_us: self.timeout_us as int,
            result_sha: self.result_sha@,
            fingerprint: self.fingerprint@,
        }
    }
}

impl Artifact {
    /// The same version once more.
    pub fn copy(&self) -> (r: Artifact)
        ensures
            r@ == self@,
    {
        Artifact {
            id: self.id.clone(),
            created_ts_us: self.created_ts_us,
            input_sha: self.input_sha.clone(),
            policy: self.policy.clone(),
            timeout_us: self.timeout_us,
            result_sha: self.result_sha.clone(),
            fingerprint: self.fingerprint.clone(),
        }
    }
}

/// The content address of a byte string.
pub open spec fn address(data: Seq<u8>) -> Seq<char> {
    hex_of(sha256_of(data))
}

/// The content address under which an input is saved.
pub fn input_id(data: &[u8]) -> (r: String)
    ensures
        r@ == address(data@),
{
    sha256_hex(data)
}

/// The content addresses of the frames of a capture, in their order.
pub fn frame_ids(cap: &Capture) -> (r: Vec<String>)
    ensures
        views(r@) == Seq::new(cap.frames@.len(), |i: int| address(cap.frames@[i]@)),
{
    let mut r: Vec<String> = Vec::new();
    let mut i: usize = 0;
    while i < cap.frames.len()
        invariant
            i <= cap.frames@.len(),
            views(r@) == Seq::new(i as nat, |j: int| address(cap.frames@[j]@)),
        decreases cap.frames@.len() - i,
    {
        let ghost before = r@;
        let id = input_id(cap.frames[i].as_slice());
        let ghost v = id@;
        r.push(id);
        i += 1;
        assert(views(r@) =~= views(before).push(v));
        assert(views(r@) =~= Seq::new(i as nat, |j: int| address(cap.frames@[j]@)));
    }
    r
}

/// What a result says of its own analysis.
pub open spec fn meta_json(a: ArtifactModel) -> JsonModel {
    JsonModel::Obj(
        seq![
            ("version_id"@, JsonModel::Str(a.id)),
            ("created_ts_us"@, JsonModel::Num(a.created_ts_us)),
            ("input_sha256"@, JsonModel::Str(a.input_sha)),
            ("result_sha256"@, JsonModel::Str(a.result_sha)),
            ("fingerprint"@, JsonModel::Str(a.fingerprint)),
            (
                "config"@,
                JsonModel::Obj(
                    seq![
                        ("overlap_policy"@, JsonModel::Str(a.policy)),
                        ("timeout_us"@, JsonModel::Num(a.timeout_us)),
                    ],
                ),
            ),
        ],
    )
}

/// A result with what it says of its own analysis.
pub open spec fn with_meta(result: JsonModel, a: ArtifactModel) -> JsonModel {
    match result {
        JsonModel::Obj(o) => JsonModel::Obj(o.push(("analysis"@, meta_json(a)))),
        other => other,
    }
}

/// The version that an analysis makes. Its name is made of the start of the
/// fingerprint and that of the content address of the result.
pub open spec fn version(
    result: JsonModel,
    fingerprint: Seq<char>,
    input: Seq<char>,
    policy: OverlapPolicy,
    timeout_us: int,
    now_us: int,
) -> ArtifactModel {
    let sha = address(encode_utf8(written(result, None)));
    ArtifactModel {
        id: fingerprint.take(16) + "-"@ + sha.take(8),
        created_ts_us: now_us,
        input_sha: input,
        policy: policy.text(),
        timeout_us,
        result_sha: sha,
        fingerprint,
    }
}

fn meta(a: &Artifact) -> (r: Json)
    ensures
        r@ == meta_json(a@),
{
    let mut c = Json::obj();
    c.set("overlap_policy", Json::Str(a.policy.clone()));
    c.set("timeout_us", Json::num(a.timeout_us));
    let ghost config = c@;
    assert(config->Obj_0 =~= seq![
        ("overlap_policy"@, JsonModel::Str(a.policy@)),
        ("timeout_us"@, JsonModel::Num(a.timeout_us as int)),
    ]);
    let mut m = Json::obj();
    m.set("version_id", Json::Str(a.id.clone()));
    m.set("created_ts_us", Json::num(a.created_ts_us));
    m.set("input_sha256", Json::Str(a.input_sha.clone()));
    m.set("result_sha256", Json::Str(a.result_sha.clone()));
    m.set("fingerprint", Json::Str(a.fingerprint.clone()));
    m.set("config", c);
    assert(m@->Obj_0 =~= meta_json(a@)->Obj_0);
    m
}

/// A text, or nothing.
pub open spec fn or_empty(t: Option<Seq<char>>) -> Seq<char> {
    match t {
        Some(t) => t,
        None => seq![],
    }
}

/// A number, or nought.
pub open spec fn or_zero(n: Option<int>) -> int {
    match n {
        Some(n) => n,
        None => 0,
    }
}

/// The version that the parts of a kept result tell of.
pub open spec fn listed_version(a: JsonModel) -> ArtifactModel {
    let config = match a.field("config"@) {
        Some(c) => c,
        None => JsonModel::Null,
    };
    ArtifactModel {
        id: or_empty(a.str_field("version_id"@)),
        created_ts_us: or_zero(a.u64_field("created_ts_us"@)),
        input_sha: or_empty(a.str_field("input_sha256"@)),
        policy: or_empty(config.str_field("overlap_policy"@)),
        timeout_us: or_zero(config.u64_field("timeout_us"@)),
        result_sha: or_empty(a.str_field("result_sha256"@)),
        fingerprint: or_empty(a.str_field("fingerprint"@)),
    }
}

/// The versions that the first `n` kept results tell of.
pub open spec fn versions_upto(v: Seq<JsonModel>, n: int) -> Seq<ArtifactModel>
    decreases n,
{
    if n <= 0 {
        seq![]
    } else {
        match v[n - 1].field("analysis"@) {
            Some(a) => versions_upto(v, n - 1).push(listed_version(a)),
            None => versions_upto(v, n - 1),
        }
    }
}

/// The values of the first `n` files; a file that does not parse has none.
pub open spec fn kept_values(files: Seq<Seq<u8>>, n: int) -> Seq<JsonModel>
    decreases n,
{
    if n <= 0 {
        seq![]
    } else {
        match parsed(utf8_lossy(files[n - 1])) {
            Step::Got(m, _) => kept_values(files, n - 1).push(m),
            _ => kept_values(files, n - 1),
        }
    }
}

/// The keys by which versions are listed.
pub open spec fn times(a: Seq<ArtifactModel>) -> Seq<(u64, u64)> {
    Seq::new(a.len(), |i: int| (a[i].created_ts_us as u64, 0u64))
}

/// The versions of kept results, in the order of their times.
pub open spec fn versions(v: Seq<JsonModel>) -> Seq<ArtifactModel> {
    let a = versions_upto(v, v.len() as int);
    order_of(times(a)).map_values(|i: usize| a[i as int])
}

fn text_or_empty(v: &Json, key: &str) -> (r: String)
    ensures
        r@ == or_empty(v@.str_field(key@)),
{
    match v.str_at(key) {
        Some(t) => t.to_string(),
        None => {
            let r = String::new();
            assert(r@ =~= seq![]);
            r
        },
    }
}

fn number_or_zero(v: &Json, key: &str) -> (r: u64)
    ensures
        r == or_zero(v@.u64_field(key@)),
{
    match v.u64_at(key) {
        Some(n) => n,
        None => 0,
    }
}

fn list_version(a: &Json) -> (r: Artifact)
    ensures
        r@ == listed_version(a@),
        0 <= r.created_ts_us <= u64::MAX,
{
    let none = Json::Null;
    let config = match a.get("config") {
        Some(c) => c,
        None => &none,
    };
    Artifact {
        id: text_or_empty(a, "version_id"),
        created_ts_us: number_or_zero(a, "created_ts_us") as i128,
        input_sha: text_or_empty(a, "input_sha256"),
        policy: text_or_empty(config, "overlap_policy"),
        timeout_us: number_or_zero(config, "timeout_us") as i128,
        result_sha: text_or_empty(a, "result_sha256"),
        fingerprint: text_or_empty(a, "fingerprint"),
    }
}

/// What versions are.
pub open spec fn artifact_views(v: Seq<Artifact>) -> Seq<ArtifactModel> {
    v.map_values(|a: Artifact| a@)
}

/// Where uploads, frames and results are kept.
pub struct Store {
    root: String,
}

impl View for Store {
    type V = Seq<char>;

    closed spec fn view(&self) -> Seq<char> {
        self.root@
    }
}

/// The file of a name in a directory of the store.
pub open spec fn kept_at(root: Seq<char>, dir: Seq<char>, id: Seq<char>, end: Seq<char>) -> Seq<char> {
    root + dir + id + end
}

impl Store {
    /// The store below a directory.
    pub fn at(root: &str) -> (r: Store)
        ensures
            r@ == root@,
    {
        Store { root: root.to_string() }
    }

    pub fn root(&self) -> (r: &str)
        ensures
            r@ == self@,
    {
        self.root.as_str()
    }

    fn path(&self, dir: &str, id: &str, end: &str) -> (r: String)
        ensures
            r@ == kept_at(self@, dir@, id@, end@),
    {
        let mut p = cat(self.root.as_str(), dir);
        push_text(&mut p, id);
        push_text(&mut p, end);
        p
    }

    /// The file of an upload.
    pub fn input_path(&self, id: &str) -> (r: String)
        ensures
            r@ == kept_at(self@, "/inputs/"@, id@, ".bin"@),
    {
        self.path("/inputs/", id, ".bin")
    }

    /// The file of a frame.
    pub fn frame_path(&self, id: &str) -> (r: String)
        ensures
            r@ == kept_at(self@, "/frames/"@, id@, ".bin"@),
    {
        self.path("/frames/", id, ".bin")
    }

    /// The file of a result.
    pub fn result_path(&self, id: &str) -> (r: String)
        ensures
            r@ == kept_at(self@, "/results/"@, id@, ".json"@),
    {
        self.path("/results/", id, ".json")
    }

    /// Makes a version of a result: its entry in the list of versions, and the text that
    /// is kept of it. The fingerprint is hexadecimal text.
    pub fn analyze_version(
        result: Json,
        fingerprint: &str,
        input_id: &str,
        policy: OverlapPolicy,
        timeout_us: i128,
        now_us: i128,
    ) -> (r: (Artifact, String))
        requires
            fingerprint@.len() >= 16,
            forall|i: int| 0 <= i < 16 ==> (#[trigger] fingerprint@[i]) < '\u{80}',
        ensures
            ({
                let a = version(
                    result@,
                    fingerprint@,
                    input_id@,
                    policy,
                    timeout_us as int,
                    now_us as int,
                );
                &&& r.0@ == a
                &&& r.1@ == written(with_meta(result@, a), Some(seq![]))
            }),
    {
        let mut result = result;
        let ghost bare = result@;
        let text = result.to_canonical();
        let sha = sha256_hex(text.as_str().as_bytes());
        let f = chars_of(fingerprint);
        let s = chars_of(sha.as_str());
        let mut id = sub_string(&f, 0, 16);
        push_text(&mut id, "-");
        let tail = sub_string(&s, 0, 8);
        push_text(&mut id, tail.as_str());
        assert(id@ =~= fingerprint@.take(16) + "-"@ + sha@.take(8));
        let a = Artifact {
            id,
            created_ts_us: now_us,
            input_sha: input_id.to_string(),
            policy: policy.name().to_string(),
            timeout_us,
            result_sha: sha,
            fingerprint: fingerprint.to_string(),
        };
        result.set("analysis", meta(&a));
        assert(result@ == with_meta(bare, a@));
        let pretty = result.to_pretty();
        (a, pretty)
    }

    /// The versions of the files that are kept, in the order of their times. A file that
    /// does not parse, or that tells of no version, is left out.
    pub fn list_versions(files: &Vec<Vec<u8>>) -> (r: Vec<Artifact>)
        ensures
            artifact_views(r@) == versions(
                kept_values(files@.map_values(|f: Vec<u8>| f@), files@.len() as int),
            ),
    {
        let ghost fs = files@.map_values(|f: Vec<u8>| f@);
        let mut kept: Vec<Json> = Vec::new();
        let mut i: usize = 0;
        assert(items_of(kept@) =~= kept_values(fs, 0));
        while i < files.len()
            invariant
                i <= files@.len(),
                fs == files@.map_values(|f: Vec<u8>| f@),
                items_of(kept@) == kept_values(fs, i as int),
            decreases files@.len() - i,
        {
            assert(fs[i as int] == files@[i as int]@);
            let text = lossy(files[i].as_slice());
            if let Some(Ok(v)) = Json::try_parse(text.as_str()) {
                let ghost before = kept@;
                let ghost m = v@;
                kept.push(v);
                assert(items_of(kept@) =~= items_of(before).push(m));
            }
            i += 1;
        }
        Store::order_versions(&kept)
    }

    /// The versions of kept results, in the order of their times. Results that tell of no
    /// version are left out.
    pub fn order_versions(results: &Vec<Json>) -> (r: Vec<Artifact>)
        ensures
            artifact_views(r@) == versions(items_of(results@)),
    {
        let ghost ms = items_of(results@);
        let mut found: Vec<Artifact> = Vec::new();
        let mut keys: Vec<(u64, u64)> = Vec::new();
        let mut i: usize = 0;
        assert(artifact_views(found@) =~= versions_upto(ms, 0));
        assert(keys@ =~= times(artifact_views(found@)));
        while i < results.len()
            invariant
                i <= results@.len(),
                ms == items_of(results@),
                artifact_views(found@) == versions_upto(ms, i as int),
                keys@ == times(artifact_views(found@)),
            decreases results@.len() - i,
        {
            assert(ms[i as int] == results@[i as int]@);
            if let Some(a) = results[i].get("analysis") {
                let ghost before = found@;
                let x = list_version(a);
                let ghost xm = x@;
                keys.push((x.created_ts_us as u64, 0));
                found.push(x);
                assert(artifact_views(found@) =~= artifact_views(before).push(xm));
                assert(keys@ =~= times(artifact_views(found@)));
            }
            i += 1;
        }
        let ghost all = artifact_views(found@);
        let ghost g = |i: usize| all[i as int];
        let order = stable_order(&keys);
        let mut r: Vec<Artifact> = Vec::new();
        let mut k: usize = 0;
        assert(artifact_views(r@) =~= order@.take(0).map_values(g));
        while k < order.len()
            invariant
                k <= order@.len(),
                all == artifact_views(found@),
                g == (|i: usize| all[i as int]),
                order@.len() == found@.len(),
                crate::sorting::is_order(keys@, keys@.len() as int, order@),
                keys@.len() == found@.len(),
                artifact_views(r@) == order@.take(k as int).map_values(g),
            decreases order@.len() - k,
        {
            let ghost before = r@;
            let j: usize = order[k];
            assert(j < found@.len());
            let x = found[j].copy();
            let ghost xm = x@;
            r.push(x);
            k += 1;
            assert(artifact_views(r@) =~= artifact_views(before).push(xm));
            assert(order@.take(k as int).map_values(g) =~= order@.take(k - 1).map_values(g).push(
                g(order@[k - 1]),
            ));
        }
        assert(order@.take(k as int) =~= order@);
        r
    }
}

/// Files with one more, unless there is one of its name: what is kept is never written
/// again.
pub open spec fn kept_once(
    files: Map<Seq<char>, Seq<u8>>,
    path: Seq<char>,
    content: Seq<u8>,
) -> Map<Seq<char>, Seq<u8>> {
    if files.contains_key(path) {
        files
    } else {
        files.insert(path, content)
    }
}

/// The files of kept results by their paths.
pub struct Results {
    files: TextMap<Vec<u8>>,
}

impl View for Results {
    type V = Map<Seq<char>, Seq<u8>>;

    closed spec fn view(&self) -> Map<Seq<char>, Seq<u8>> {
        self.files@.map_values(|f: Vec<u8>| f@)
    }
}

impl Results {
    pub fn new() -> (r: Results)
        ensures
            r@ == Map::<Seq<char>, Seq<u8>>::empty(),
    {
        let r = Results { files: TextMap::new() };
        assert(r@ =~= Map::<Seq<char>, Seq<u8>>::empty());
        r
    }

    /// Keeps a file unless there is one of its name.
    pub fn keep(&mut self, path: &str, content: &[u8])
        ensures
            final(self)@ == kept_once(old(self)@, path@, content@),
    {
        let ghost before = self@;
        if self.files.get(path).is_none() {
            self.files.insert(path.to_string(), copy_bytes(content));
            assert(self@ =~= before.insert(path@, content@));
        }
    }

    /// The content of a file.
    pub fn get(&self, path: &str) -> (r: Option<&Vec<u8>>)
        ensures
            match r {
                Some(f) => self@.contains_key(path@) && f@ == self@[path@],
                None => !self@.contains_key(path@),
            },
    {
        self.files.get(path)
    }
}

/// Keeping a file leaves every kept file as it is and adds at most the one of its name.
pub proof fn law_kept_files_stay(
    files: Map<Seq<char>, Seq<u8>>,
    path: Seq<char>,
    content: Seq<u8>,
    other: Seq<char>,
)
    ensures
        files.contains_key(other) ==> kept_once(files, path, content).contains_key(other)
            && kept_once(files, path, content)[other] == files[other],
        other != path ==> kept_once(files, path, content).contains_key(other)
            == files.contains_key(other),
        kept_once(files, path, content).contains_key(path),
{
}

/// Versions of different names are kept in different files: none is written over
/// another.
pub proof fn law_versions_keep_apart(root: Seq<char>, a: Seq<char>, b: Seq<char>)
    requires
        a != b,
    ensures
        kept_at(root, "/results/"@, a, ".json"@) != kept_at(root, "/results/"@, b, ".json"@),
{
    let d = root + "/results/"@;
    let x = kept_at(root, "/results/"@, a, ".json"@);
    let y = kept_at(root, "/results/"@, b, ".json"@);
    if x == y {
        assert(x.len() == d.len() + a.len() + ".json"@.len());
        assert(y.len() == d.len() + b.len() + ".json"@.len());
        assert forall|i: int| 0 <= i < a.len() implies a[i] == b[i] by {
            assert(x[d.len() + i] == a[i]);
            assert(y[d.len() + i] == b[i]);
        }
        assert(a =~= b);
    }
}

/// Versions are listed in the order of their times.
pub proof fn law_versions_in_order(v: Seq<JsonModel>, i: int, j: int)
    requires
        v.len() <= usize::MAX,
        0 <= i < j < versions(v).len(),
    ensures
        versions(v)[i].created_ts_us <= versions(v)[j].created_ts_us,
{
    let a = versions_upto(v, v.len() as int);
    let keys = times(a);
    lemma_times_fit(v, v.len() as int);
    law_order(keys, keys.len() as int);
    let o = order_of(keys);
    assert(goes_before(keys, o[i], o[j]));
    assert(o[i] < a.len() && o[j] < a.len());
    assert(keys[o[i] as int] == (a[o[i] as int].created_ts_us as u64, 0u64));
    assert(keys[o[j] as int] == (a[o[j] as int].created_ts_us as u64, 0u64));
}

proof fn lemma_times_fit(v: Seq<JsonModel>, n: int)
    requires
        n >= 0,
    ensures
        versions_upto(v, n).len() <= n,
        forall|i: int|
            0 <= i < versions_upto(v, n).len() ==> 0 <= (#[trigger] versions_upto(
                v,
                n,
            )[i]).created_ts_us <= u64::MAX,
    decreases n,
{
    if n > 0 {
        lemma_times_fit(v, n - 1);
        let p = versions_upto(v, n - 1);
        let q = versions_upto(v, n);
        assert forall|i: int| 0 <= i < q.len() implies 0 <= (#[trigger] q[i]).created_ts_us
            <= u64::MAX by {
            if i < p.len() {
                assert(q[i] == p[i]);
            } else {
                let a = v[n - 1].field("analysis"@)->0;
                assert(q[i] == listed_version(a));
            }
        }
    }
}

proof fn lemma_meta_fields(a: ArtifactModel)
    ensures
        meta_json(a).field("version_id"@) == Some(JsonModel::Str(a.id)),
        meta_json(a).field("created_ts_us"@) == Some(JsonModel::Num(a.created_ts_us)),
        meta_json(a).field("input_sha256"@) == Some(JsonModel::Str(a.input_sha)),
        meta_json(a).field("result_sha256"@) == Some(JsonModel::Str(a.result_sha)),
        meta_json(a).field("fingerprint"@) == Some(JsonModel::Str(a.fingerprint)),
        meta_json(a).field("config"@) matches Some(c) && c.field("overlap_policy"@) == Some(
            JsonModel::Str(a.policy),
        ) && c.field("timeout_us"@) == Some(JsonModel::Num(a.timeout_us)),
{
    reveal_strlit("version_id");
    reveal_strlit("created_ts_us");
    reveal_strlit("input_sha256");
    reveal_strlit("result_sha256");
    reveal_strlit("fingerprint");
    reveal_strlit("config");
    reveal_strlit("overlap_policy");
    reveal_strlit("timeout_us");
    assert("created_ts_us"@[0] == 'c' && "result_sha256"@[0] == 'r');
    assert("version_id"@.len() == 10 && "created_ts_us"@.len() == 13 && "input_sha256"@.len() == 12
        && "result_sha256"@.len() == 13 && "fingerprint"@.len() == 11 && "config"@.len() == 6);
    assert("overlap_policy"@.len() == 14 && "timeout_us"@.len() == 10);
    reveal_with_fuel(entry_at, 7);
}

/// A version that was kept is listed as what it is: the list gives back the name,
/// the time, the input, the policy, the timeout and both digests.
pub proof fn law_kept_version_is_listed(result: JsonModel, a: ArtifactModel)
    requires
        result is Obj,
        result.field("analysis"@) is None,
        0 <= a.created_ts_us <= u64::MAX,
        0 <= a.timeout_us <= u64::MAX,
    ensures
        versions(seq![canonical(with_meta(result, a))]) == seq![a],
{
    let o = result->Obj_0;
    let kept = with_meta(result, a);
    let c = canonical(kept);
    lemma_pushed_field(o, "analysis"@, meta_json(a), 0);
    assert(kept.field("analysis"@) == Some(meta_json(a)));
    law_canonical_field(kept, "analysis"@);
    let m = canonical(meta_json(a));
    assert(c.field("analysis"@) == Some(m));
    lemma_meta_fields(a);
    law_canonical_field(meta_json(a), "version_id"@);
    law_canonical_field(meta_json(a), "created_ts_us"@);
    law_canonical_field(meta_json(a), "input_sha256"@);
    law_canonical_field(meta_json(a), "result_sha256"@);
    law_canonical_field(meta_json(a), "fingerprint"@);
    law_canonical_field(meta_json(a), "config"@);
    let config = meta_json(a).field("config"@)->0;
    law_canonical_field(config, "overlap_policy"@);
    law_canonical_field(config, "timeout_us"@);
    assert(listed_version(m) == a);
    let v = seq![c];
    assert(versions_upto(v, 0) =~= seq![]);
    assert(versions_upto(v, 1) =~= seq![a]);
    let all = versions_upto(v, 1);
    let keys = times(all);
    law_order(keys, 1);
    let order = order_of(keys);
    assert(order.len() == 1 && order[0] == 0);
    assert(versions(v) =~= seq![a]);
}

proof fn lemma_pushed_field(o: Seq<(Seq<char>, JsonModel)>, key: Seq<char>, v: JsonModel, i: int)
    requires
        0 <= i <= o.len(),
        entry_at(o, key, i) is None,
    ensures
        entry_at(o.push((key, v)), key, i) == Some(o.len() as int),
    decreases o.len() - i,
{
    if i < o.len() {
        lemma_pushed_field(o, key, v, i + 1);
    }
}

} // verus!
