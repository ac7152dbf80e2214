//! The names under which frames and analyses are kept, and the list of analyses.

use vstd::prelude::*;
use crate::analyze::{digest_of, settings_of, Config};
use crate::bytes::copy_bytes;
use crate::document::{lemma_config_plain, lemma_texts_plain, list, listed, Document};
use crate::hash::{sha256_hex, sha256_of};
use crate::json::{Json, JsonModel};
use crate::pcap::{Frame, FrameModel};
use crate::serial::{law_serial_apart, serial, to_serial};
use crate::text::{at_most, cat, chars_of, hex_of, push_text, sub_string, text_le, views};
use crate::textmap::lemma_text_le_trans;

verus! {

#[derive(Debug)]
pub struct AnalysisMeta {
    pub id: String,
    pub name: String,
    pub config: Config,
    pub frame_hashes: Vec<String>,
    pub frame_ts_ns: Vec<u64>,
    pub created_unix: u64,
}

#[derive(Debug)]
pub struct AnalysisSummary {
    pub id: String,
    pub name: String,
    pub policy: String,
    pub frame_count: usize,
    pub session_count: usize,
    pub fingerprint: String,
    pub created_unix: u64,
}

/// What is told of an analysis in a list.
pub struct SummaryModel {
    pub id: Seq<char>,
    pub name: Seq<char>,
    pub policy: Seq<char>,
    pub frame_count: int,
    pub session_count: int,
    pub fingerprint: Seq<char>,
    pub created_unix: u64,
}

impl View for AnalysisSummary {
    type V = SummaryModel;

    open spec fn view(&self) -> SummaryModel {
        SummaryModel {
            id: self.id@,
            name: self.name@,
            policy: self.policy@,
            frame_count: self.frame_count as int,
            session_count: self.session_count as int,
            fingerprint: self.fingerprint@,
            created_unix: self.created_unix,
        }
    }
}

/// What summaries are.
pub open spec fn summary_views(v: Seq<AnalysisSummary>) -> Seq<SummaryModel> {
    v.map_values(|s: AnalysisSummary| s@)
}

/// The digest of a frame's bytes, which names it.
pub open spec fn frame_name(data: Seq<u8>) -> Seq<char> {
    hex_of(sha256_of(data))
}

/// The digests of frames, in their order.
pub fn frame_hashes(frames: &Vec<Frame>) -> (r: Vec<String>)
    ensures
        views(r@) == Seq::new(frames@.len(), |i: int| frame_name(frames@[i].data@)),
{
    let mut r: Vec<String> = Vec::new();
    let mut i: usize = 0;
    assert(views(r@) =~= Seq::new(0, |j: int| frame_name(frames@[j].data@)));
    while i < frames.len()
        invariant
            i <= frames@.len(),
            views(r@) == Seq::new(i as nat, |j: int| frame_name(frames@[j].data@)),
        decreases frames@.len() - i,
    {
        let ghost before = r@;
        let h = sha256_hex(frames[i].data.as_slice());
        let ghost v = h@;
        r.push(h);
        i += 1;
        assert(views(r@) =~= views(before).push(v));
        assert(views(r@) =~= Seq::new(i as nat, |j: int| frame_name(frames@[j].data@)));
    }
    r
}

/// The directory and the file under which a frame is kept. The digest is ASCII text of
/// at least two characters.
pub fn frame_path(hash: &str) -> (r: (String, String))
    requires
        hash@.len() >= 2,
        hash@[0] < '\u{80}',
        hash@[1] < '\u{80}',
    ensures
        r.0@ == hash@.take(2),
        r.1@ == hash@ + ".bin"@,
{
    let v = chars_of(hash);
    let dir = sub_string(&v, 0, 2);
    assert(dir@ =~= hash@.take(2));
    (dir, cat(hash, ".bin"))
}

/// The frame of a place, with the time that is known of it or nought.
pub open spec fn loaded_frame(data: Seq<u8>, ts_ns: Seq<u64>, i: int) -> FrameModel {
    FrameModel {
        index: i as u64,
        ts_ns: if i < ts_ns.len() {
            ts_ns[i]
        } else {
            0
        },
        data,
    }
}

/// What is kept of an analysis beside its result.
pub open spec fn is_meta(
    m: AnalysisMeta,
    id: Seq<char>,
    name: Seq<char>,
    config: Config,
    hashes: Seq<String>,
    frames: Seq<Frame>,
    created: u64,
) -> bool {
    &&& m.id@ == id
    &&& m.name@ == name
    &&& m.config.agrees(config)
    &&& views(m.frame_hashes@) == views(hashes)
    &&& m.frame_ts_ns@ == Seq::new(frames.len(), |i: int| frames[i].ts_ns)
    &&& m.created_unix == created
}

/// What is kept of an analysis beside its result.
pub fn new_meta(
    id: &str,
    name: &str,
    config: &Config,
    hashes: &Vec<String>,
    frames: &Vec<Frame>,
    created_unix: u64,
) -> (r: AnalysisMeta)
    ensures
        is_meta(r, id@, name@, *config, hashes@, frames@, created_unix),
{
    let mut frame_hashes: Vec<String> = Vec::new();
    let mut i: usize = 0;
    while i < hashes.len()
        invariant
            i <= hashes@.len(),
            views(frame_hashes@) == views(hashes@).take(i as int),
        decreases hashes@.len() - i,
    {
        let ghost before = frame_hashes@;
        let h = hashes[i].clone();
        let ghost v = h@;
        frame_hashes.push(h);
        i += 1;
        assert(views(frame_hashes@) =~= views(before).push(v));
        assert(views(frame_hashes@) =~= views(hashes@).take(i as int));
    }
    assert(views(hashes@).take(i as int) =~= views(hashes@));
    let mut frame_ts_ns: Vec<u64> = Vec::new();
    let mut k: usize = 0;
    while k < frames.len()
        invariant
            k <= frames@.len(),
            frame_ts_ns@ == Seq::new(k as nat, |j: int| frames@[j].ts_ns),
        decreases frames@.len() - k,
    {
        frame_ts_ns.push(frames[k].ts_ns);
        k += 1;
        assert(frame_ts_ns@ =~= Seq::new(k as nat, |j: int| frames@[j].ts_ns));
    }
    AnalysisMeta {
        id: id.to_string(),
        name: name.to_string(),
        config: config.copy(),
        frame_hashes,
        frame_ts_ns,
        created_unix,
    }
}

/// What `serde_json` reads of a JSON text: the text of the member under the first key and
/// the length of the list under the second, where there are such, or its error.
pub uninterp spec fn members_of(data: Seq<u8>, text_key: Seq<char>, list_key: Seq<char>) -> Result<
    (Option<Seq<char>>, Option<nat>),
    Seq<char>,
>;

/// A text that was read, by its view.
pub open spec fn text_view(t: Option<String>) -> Option<Seq<char>> {
    match t {
        Some(t) => Some(t@),
        None => None,
    }
}

/// A length that was read, as a number.
pub open spec fn length_view(n: Option<usize>) -> Option<nat> {
    match n {
        Some(n) => Some(n as nat),
        None => None,
    }
}

/// Calls `serde_json::from_slice` for a `serde_json::Value`, and hands out the text of one
/// member and the length of another. What comes back, the text of the error included,
/// depends on the bytes and the two keys alone.
#[verifier::external_body]
fn read_members(data: &[u8], text_key: &str, list_key: &str) -> (r: Result<
    (Option<String>, Option<usize>),
    String,
>)
    ensures
        match r {
            Ok((t, n)) => members_of(data@, text_key@, list_key@) == Ok::<
                (Option<Seq<char>>, Option<nat>),
                Seq<char>,
            >((text_view(t), length_view(n))),
            Err(e) => members_of(data@, text_key@, list_key@) == Err::<
                (Option<Seq<char>>, Option<nat>),
                Seq<char>,
            >(e@),
        },
{
    match serde_json::from_slice::<serde_json::Value>(data) {
        Ok(v) => Ok((
            v[text_key].as_str().map(|t| t.to_string()),
            v[list_key].as_array().map(|a| a.len()),
        )),
        Err(e) => Err(e.to_string()),
    }
}

/// What is told of an analysis in a list, from what was kept of it and the fingerprint
/// and the number of sessions in its result, where it has them.
pub open spec fn summarized(
    m: AnalysisMeta,
    fingerprint: Option<Seq<char>>,
    sessions: Option<nat>,
) -> SummaryModel {
    SummaryModel {
        id: m.id@,
        name: m.name@,
        policy: m.config.overlap@,
        frame_count: m.frame_hashes@.len() as int,
        session_count: match sessions {
            Some(n) => n as int,
            None => 0,
        },
        fingerprint: match fingerprint {
            Some(t) => t,
            None => seq![],
        },
        created_unix: m.created_unix,
    }
}

/// Tells of an analysis in a list, from what was kept of it and what was read of its
/// result.
pub fn summarize(m: &AnalysisMeta, fingerprint: Option<String>, sessions: Option<usize>) -> (r:
    AnalysisSummary)
    ensures
        r@ == summarized(*m, text_view(fingerprint), length_view(sessions)),
{
    let session_count: usize = match sessions {
        Some(n) => n,
        None => 0,
    };
    let fingerprint = match fingerprint {
        Some(t) => t,
        None => {
            let e = String::new();
            assert(e@ =~= seq![]);
            e
        },
    };
    AnalysisSummary {
        id: m.id.clone(),
        name: m.name.clone(),
        policy: m.config.overlap.clone(),
        frame_count: m.frame_hashes.len(),
        session_count,
        fingerprint,
        created_unix: m.created_unix,
    }
}

/// Tells of an analysis in a list, from what was kept of it and the bytes of its result.
pub fn summarize_kept(m: &AnalysisMeta, result: &[u8]) -> (r: Result<AnalysisSummary, String>)
    ensures
        match (r, members_of(result@, "fingerprint"@, "sessions"@)) {
            (Ok(s), Ok((t, n))) => s@ == summarized(*m, t, n),
            (Err(e), Err(f)) => e@ == f,
            _ => false,
        },
{
    match read_members(result, "fingerprint", "sessions") {
        Ok((t, n)) => Ok(summarize(m, t, n)),
        Err(e) => Err(e),
    }
}

/// One analysis goes before another: by time, and by name where the times are equal.
pub open spec fn before(a: SummaryModel, b: SummaryModel) -> bool {
    a.created_unix < b.created_unix || (a.created_unix == b.created_unix && text_le(a.id, b.id))
}

/// A list with one more at its place, behind those that it does not go before.
pub open spec fn inserted(s: Seq<SummaryModel>, x: SummaryModel) -> Seq<SummaryModel>
    decreases s.len(),
{
    if s.len() == 0 || before(s.last(), x) {
        s.push(x)
    } else {
        inserted(s.drop_last(), x).push(s.last())
    }
}

/// The first `n` of a list in order.
pub open spec fn sorted_upto(s: Seq<SummaryModel>, n: int) -> Seq<SummaryModel>
    decreases n,
{
    if n <= 0 {
        seq![]
    } else {
        inserted(sorted_upto(s, n - 1), s[n - 1])
    }
}

/// A list in order.
pub open spec fn sorted(s: Seq<SummaryModel>) -> Seq<SummaryModel> {
    sorted_upto(s, s.len() as int)
}

proof fn lemma_inserted_at(s: Seq<SummaryModel>, x: SummaryModel, p: int)
    requires
        0 <= p <= s.len(),
        p == 0 || before(s[p - 1], x),
        forall|j: int| p <= j < s.len() ==> !before(#[trigger] s[j], x),
    ensures
        inserted(s, x) == s.insert(p, x),
    decreases s.len(),
{
    if p < s.len() {
        let t = s.drop_last();
        assert(!before(s[s.len() - 1], x));
        assert forall|j: int| p <= j < t.len() implies !before(#[trigger] t[j], x) by {
            assert(t[j] == s[j]);
        }
        lemma_inserted_at(t, x, p);
    }
    assert(inserted(s, x) =~= s.insert(p, x));
}

fn goes_before(a: &AnalysisSummary, b: &AnalysisSummary) -> (r: bool)
    ensures
        r == before(a@, b@),
{
    a.created_unix < b.created_unix || (a.created_unix == b.created_unix && at_most(
        a.id.as_str(),
        b.id.as_str(),
    ))
}

/// A list that is in order.
pub open spec fn in_order(s: Seq<SummaryModel>) -> bool {
    forall|i: int, j: int| 0 <= i < j < s.len() ==> before(#[trigger] s[i], #[trigger] s[j])
}

proof fn lemma_before_trans(a: SummaryModel, b: SummaryModel, c: SummaryModel)
    requires
        before(a, b),
        before(b, c),
    ensures
        before(a, c),
{
    if a.created_unix == c.created_unix {
        lemma_text_le_trans(a.id, b.id, c.id);
    }
}

proof fn lemma_inserted_in_order(s: Seq<SummaryModel>, x: SummaryModel)
    requires
        in_order(s),
    ensures
        in_order(inserted(s, x)),
        forall|i: int|
            0 <= i < inserted(s, x).len() ==> (#[trigger] inserted(s, x)[i]) == x || exists|j: int|
                0 <= j < s.len() && inserted(s, x)[i] == s[j],
    decreases s.len(),
{
    let q = inserted(s, x);
    if s.len() == 0 || before(s.last(), x) {
        assert forall|i: int, j: int| 0 <= i < j < q.len() implies before(
            #[trigger] q[i],
            #[trigger] q[j],
        ) by {
            assert(q[i] == s[i]);
            if j < s.len() {
                assert(q[j] == s[j]);
            } else if i < s.len() - 1 {
                assert(before(s[i], s[s.len() - 1]));
                lemma_before_trans(s[i], s.last(), x);
            }
        }
        assert forall|i: int| 0 <= i < q.len() implies (#[trigger] q[i]) == x || exists|j: int|
            0 <= j < s.len() && q[i] == s[j] by {
            if i < s.len() {
                assert(q[i] == s[i]);
            }
        }
    } else {
        let t = s.drop_last();
        let z = s.last();
        assert forall|i: int, j: int| 0 <= i < j < t.len() implies before(
            #[trigger] t[i],
            #[trigger] t[j],
        ) by {
            assert(t[i] == s[i] && t[j] == s[j]);
        }
        lemma_inserted_in_order(t, x);
        let u = inserted(t, x);
        crate::text::law_text_order_total(z.id, x.id);
        assert(before(x, z));
        assert forall|i: int| 0 <= i < u.len() implies before(#[trigger] u[i], z) by {
            if u[i] != x {
                let j = choose|j: int| 0 <= j < t.len() && u[i] == t[j];
                assert(t[j] == s[j]);
                assert(before(s[j], s[s.len() - 1]));
            }
        }
        assert forall|i: int, j: int| 0 <= i < j < q.len() implies before(
            #[trigger] q[i],
            #[trigger] q[j],
        ) by {
            assert(q[i] == u[i]);
            if j < u.len() {
                assert(q[j] == u[j]);
            }
        }
        assert forall|i: int| 0 <= i < q.len() implies (#[trigger] q[i]) == x || exists|j: int|
            0 <= j < s.len() && q[i] == s[j] by {
            if i < u.len() {
                assert(q[i] == u[i]);
                if u[i] != x {
                    let j = choose|j: int| 0 <= j < t.len() && u[i] == t[j];
                    assert(q[i] == s[j]);
                }
            } else {
                assert(q[i] == s[s.len() - 1]);
            }
        }
    }
}

proof fn lemma_sorted_upto(s: Seq<SummaryModel>, n: int)
    requires
        0 <= n <= s.len(),
    ensures
        in_order(sorted_upto(s, n)),
    decreases n,
{
    if n > 0 {
        lemma_sorted_upto(s, n - 1);
        lemma_inserted_in_order(sorted_upto(s, n - 1), s[n - 1]);
    }
}

proof fn lemma_inserted_multiset(s: Seq<SummaryModel>, x: SummaryModel)
    ensures
        inserted(s, x).to_multiset() == s.to_multiset().insert(x),
    decreases s.len(),
{
    broadcast use vstd::seq_lib::group_to_multiset_ensures;

    if s.len() == 0 || before(s.last(), x) {
    } else {
        let t = s.drop_last();
        lemma_inserted_multiset(t, x);
        assert(s =~= t.push(s.last()));
        assert(inserted(t, x).push(s.last()).to_multiset() =~= s.to_multiset().insert(x));
    }
}

proof fn lemma_sorted_multiset(s: Seq<SummaryModel>, n: int)
    requires
        0 <= n <= s.len(),
    ensures
        sorted_upto(s, n).to_multiset() == s.take(n).to_multiset(),
    decreases n,
{
    broadcast use vstd::seq_lib::group_to_multiset_ensures;

    if n > 0 {
        lemma_sorted_multiset(s, n - 1);
        lemma_inserted_multiset(sorted_upto(s, n - 1), s[n - 1]);
        assert(s.take(n) =~= s.take(n - 1).push(s[n - 1]));
    } else {
        assert(s.take(n) =~= seq![]);
    }
}

/// The list of analyses is in order and holds each of them.
pub proof fn law_list_in_order(s: Seq<SummaryModel>)
    ensures
        in_order(sorted(s)),
        sorted(s).to_multiset() == s.to_multiset(),
{
    lemma_sorted_upto(s, s.len() as int);
    lemma_sorted_multiset(s, s.len() as int);
    assert(s.take(s.len() as int) =~= s);
}

/// A letter of the English alphabet or a decimal digit.
pub open spec fn is_plain(c: char) -> bool {
    ('0' <= c <= '9') || ('A' <= c <= 'Z') || ('a' <= c <= 'z')
}

/// The first `n` plain characters from `i` on.
pub open spec fn plain_from(s: Seq<char>, i: int, n: nat) -> Seq<char>
    decreases s.len() - i,
{
    if i < 0 || i >= s.len() || n == 0 {
        seq![]
    } else if is_plain(s[i]) {
        seq![s[i]] + plain_from(s, i + 1, (n - 1) as nat)
    } else {
        plain_from(s, i + 1, n)
    }
}

/// The directory name of an analysis: at most 64 letters and digits of what was asked
/// for.
pub fn sanitize(id: &str) -> (r: String)
    ensures
        r@ == plain_from(id@, 0, 64),
{
    let v = chars_of(id);
    let mut r = String::new();
    let mut left: u64 = 64;
    let mut i: usize = 0;
    assert(r@ + plain_from(v@, 0, 64) =~= plain_from(id@, 0, 64));
    while i < v.len() && left > 0
        invariant
            i <= v@.len(),
            v@ == id@,
            r@ + plain_from(v@, i as int, left as nat) == plain_from(id@, 0, 64),
        decreases v@.len() - i,
    {
        let c: char = v[i];
        if ('0' <= c && c <= '9') || ('A' <= c && c <= 'Z') || ('a' <= c && c <= 'z') {
            let ghost before = r@;
            r.push(c);
            left -= 1;
            assert(r@ + plain_from(v@, i + 1, left as nat) =~= before + plain_from(
                v@,
                i as int,
                (left + 1) as nat,
            ));
        }
        i += 1;
    }
    assert(plain_from(v@, i as int, left as nat) =~= seq![]);
    assert(r@ + seq![] =~= r@);
    r
}

/// What the name of an analysis is taken of.
pub open spec fn name_document(hashes: Seq<String>, config: Config) -> JsonModel {
    JsonModel::Obj(seq![("frames"@, listed(hashes)), ("config"@, config.document())])
}

/// Where frames and analyses are kept.
pub struct Store {
    root: String,
}

impl View for Store {
    type V = Seq<char>;

    closed spec fn view(&self) -> Seq<char> {
        self.root@
    }
}

impl Store {
    /// The store below a directory.
    pub fn at(root: &str) -> (r: Store)
        ensures
            r@ == root@,
    {
        Store { root: root.to_string() }
    }

    /// The directory of an analysis.
    pub fn analysis_dir(&self, id: &str) -> (r: String)
        ensures
            r@ == self@ + "/analyses/"@ + plain_from(id@, 0, 64),
    {
        let mut p = cat(self.root.as_str(), "/analyses/");
        push_text(&mut p, sanitize(id).as_str());
        p
    }

    /// Frames from their bytes and times, numbered in their order.
    pub fn load_frames(data: &Vec<Vec<u8>>, ts_ns: &Vec<u64>) -> (r: Vec<Frame>)
        ensures
            r@.len() == data@.len(),
            forall|i: int|
                0 <= i < r@.len() ==> (#[trigger] r@[i])@ == loaded_frame(data@[i]@, ts_ns@, i),
    {
        let mut r: Vec<Frame> = Vec::new();
        let mut i: usize = 0;
        while i < data.len()
            invariant
                i <= data@.len(),
                r@.len() == i,
                forall|j: int|
                    0 <= j < r@.len() ==> (#[trigger] r@[j])@ == loaded_frame(data@[j]@, ts_ns@, j),
            decreases data@.len() - i,
        {
            let t: u64 = if i < ts_ns.len() {
                ts_ns[i]
            } else {
                0
            };
            r.push(Frame { index: i as u64, ts_ns: t, data: copy_bytes(data[i].as_slice()) });
            i += 1;
        }
        r
    }

    /// The name of an analysis: the first sixteen characters of the digest of its frames
    /// and its configuration.
    pub fn analysis_id(frame_hashes: &Vec<String>, config: &Config) -> (r: String)
        ensures
            r@ == digest_of(name_document(frame_hashes@, *config)).take(16),
    {
        let mut o = Json::obj();
        o.set("frames", list(frame_hashes));
        o.set("config", config.to_document());
        assert(o@->Obj_0 =~= name_document(frame_hashes@, *config)->Obj_0);
        let h = sha256_hex(to_serial(&o).as_str().as_bytes());
        let v = chars_of(h.as_str());
        let r = sub_string(&v, 0, 16);
        assert(r@ =~= h@.take(16));
        r
    }

    /// The analyses of a list in order: by time, and by name where the times are equal.
    pub fn list(items: Vec<AnalysisSummary>) -> (r: Vec<AnalysisSummary>)
        ensures
            summary_views(r@) == sorted(summary_views(items@)),
    {
        let ghost all = summary_views(items@);
        let ghost raw = items@;
        let mut r: Vec<AnalysisSummary> = Vec::new();
        assert(summary_views(r@) =~= sorted_upto(all, 0));
        for x in it: items
            invariant
                it.seq() == raw,
                all == summary_views(raw),
                summary_views(r@) == sorted_upto(all, it.index() as int),
        {
            let ghost i = it.index() as int;
            let ghost s = summary_views(r@);
            let ghost xm = x@;
            assert(xm == all[i]);
            let mut p: usize = r.len();
            while p > 0 && !goes_before(&r[p - 1], &x)
                invariant
                    p <= r@.len(),
                    s == summary_views(r@),
                    forall|j: int| p <= j < s.len() ==> !before(#[trigger] s[j], x@),
                decreases p,
            {
                p -= 1;
            }
            proof {
                lemma_inserted_at(s, xm, p as int);
            }
            r.insert(p, x);
            assert(summary_views(r@) =~= s.insert(p as int, xm));
        }
        r
    }
}

/// A directory name is made of at most 64 letters and digits, whatever was asked for.
pub proof fn law_sanitized(s: Seq<char>, i: int, n: nat)
    ensures
        plain_from(s, i, n).len() <= n,
        forall|j: int|
            0 <= j < plain_from(s, i, n).len() ==> is_plain(#[trigger] plain_from(s, i, n)[j]),
    decreases s.len() - i,
{
    if 0 <= i < s.len() && n > 0 {
        if is_plain(s[i]) {
            law_sanitized(s, i + 1, (n - 1) as nat);
        } else {
            law_sanitized(s, i + 1, n);
        }
    }
}

/// A name that is made of at most `n` letters and digits stays as it is.
pub proof fn law_plain_name_stays(s: Seq<char>, i: int, n: nat)
    requires
        0 <= i <= s.len(),
        s.len() - i <= n,
        forall|j: int| 0 <= j < s.len() ==> is_plain(#[trigger] s[j]),
    ensures
        plain_from(s, i, n) == s.skip(i),
    decreases s.len() - i,
{
    if i < s.len() {
        law_plain_name_stays(s, i + 1, (n - 1) as nat);
        assert(s.skip(i) =~= seq![s[i]] + s.skip(i + 1));
    } else {
        assert(s.skip(i) =~= seq![]);
    }
}

/// What names an analysis tells inputs apart: the texts of two differ where the digest of
/// a frame, the overlap policy or another setting differs. Two analyses have one name
/// only where the digests of two different texts start with the same sixteen characters.
pub proof fn law_other_input_other_name(
    first: (Seq<String>, Config),
    second: (Seq<String>, Config),
)
    requires
        settings_of(first.1) != settings_of(second.1) || views(first.0) != views(second.0),
    ensures
        serial(name_document(first.0, first.1)) != serial(name_document(second.0, second.1)),
{
    let a = name_document(first.0, first.1);
    let b = name_document(second.0, second.1);
    lemma_config_plain(first.1, second.1);
    lemma_config_plain(second.1, first.1);
    lemma_texts_plain(first.0, second.0);
    lemma_texts_plain(second.0, first.0);
    if serial(a) == serial(b) {
        law_serial_apart(a, b);
        let (x, y) = (a->Obj_0, b->Obj_0);
        assert(x[0] == y[0] && x[1] == y[1]);
    }
}

} // verus!
