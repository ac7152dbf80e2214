//! Analyses by name: their records, what is told of them, and how they are kept.

use vstd::prelude::*;
use vstd::utf8::encode_utf8;
use crate::bytes::copy_bytes;
use crate::hash::{sha256_hex, sha256_of};
use crate::hex::digit_value;
use crate::json::{
    canonical, entry_at, items_of, law_canonical_field, written, Json, JsonModel,
};
use crate::lines::{behind, digit, strip};
use crate::seq::OverlapPolicy;
use crate::text::{chars_of, fields, hex_of, lossy, same, split_fields, sub_string, utf8_lossy, views};

verus! {

/// How a capture is analysed.
#[derive(Debug, Clone, Copy, PartialEq, Eq, Structural)]
pub struct AnalysisConfig {
    pub overlap_policy: OverlapPolicy,
    pub tcp_timeout_ns: i64,
    pub max_ipv4_datagram: usize,
    pub max_ipv6_datagram: usize,
    pub fin_rst_race_ns: i64,
}

/// What is told of a configuration.
pub open spec fn config_json(c: AnalysisConfig) -> JsonModel {
    JsonModel::Obj(
        seq![
            ("fin_rst_race_ns"@, JsonModel::Num(c.fin_rst_race_ns as int)),
            ("max_ipv4_datagram"@, JsonModel::Num(c.max_ipv4_datagram as int)),
            ("max_ipv6_datagram"@, JsonModel::Num(c.max_ipv6_datagram as int)),
            ("overlap_policy"@, JsonModel::Str(c.overlap_policy.name())),
            ("tcp_timeout_ns"@, JsonModel::Num(c.tcp_timeout_ns as int)),
        ],
    )
}

impl AnalysisConfig {
    /// What is told of a configuration.
    pub fn to_json(&self) -> (r: Json)
        ensures
            r@ == config_json(*self),
    {
        let mut o = Json::obj();
        o.set("fin_rst_race_ns", Json::num(self.fin_rst_race_ns as i128));
        o.set("max_ipv4_datagram", Json::num(self.max_ipv4_datagram as i128));
        o.set("max_ipv6_datagram", Json::num(self.max_ipv6_datagram as i128));
        o.set("overlap_policy", Json::Str(self.overlap_policy.as_str().to_string()));
        o.set("tcp_timeout_ns", Json::num(self.tcp_timeout_ns as i128));
        assert(o@->Obj_0 =~= config_json(*self)->Obj_0);
        o
    }
}

#[derive(Debug)]
pub struct AnalysisRecord {
    pub id: String,
    pub input_sha256: String,
    pub fingerprint: String,
    pub config: AnalysisConfig,
    pub evidence: Json,
}

/// What the record of an analysis is.
pub struct RecordModel {
    pub id: Seq<char>,
    pub input_sha256: Seq<char>,
    pub fingerprint: Seq<char>,
    pub config: AnalysisConfig,
    pub evidence: JsonModel,
}

impl View for AnalysisRecord {
    type V = RecordModel;

    open spec fn view(&self) -> RecordModel {
        RecordModel {
            id: self.id@,
            input_sha256: self.input_sha256@,
            fingerprint: self.fingerprint@,
            config: self.config,
            evidence: self.evidence@,
        }
    }
}

impl AnalysisRecord {
    /// The same record once more.
    pub fn copy(&self) -> (r: AnalysisRecord)
        ensures
            r@ == self@,
    {
        AnalysisRecord {
            id: self.id.clone(),
            input_sha256: self.input_sha256.clone(),
            fingerprint: self.fingerprint.clone(),
            config: self.config,
            evidence: self.evidence.copy(),
        }
    }
}

/// What the records of a list are.
pub open spec fn record_views(v: Seq<AnalysisRecord>) -> Seq<RecordModel> {
    v.map_values(|r: AnalysisRecord| r@)
}

/// What a fingerprint is made of.
pub open spec fn material(input: Seq<char>, c: AnalysisConfig, evidence: JsonModel) -> JsonModel {
    JsonModel::Obj(
        seq![
            ("config"@, config_json(c)),
            ("evidence"@, evidence),
            ("input_sha256"@, JsonModel::Str(input)),
            ("schema_version"@, JsonModel::Num(1)),
        ],
    )
}

/// The fingerprint of an analysis: the digest of the canonical text of the input's
/// address, the configuration and the evidence.
pub open spec fn fingerprint_of(
    input: Seq<char>,
    c: AnalysisConfig,
    evidence: JsonModel,
) -> Seq<char> {
    hex_of(sha256_of(encode_utf8(written(material(input, c, evidence), None))))
}

/// The record of an analysis. Its name is the start of its fingerprint.
pub open spec fn recorded(input: Seq<u8>, c: AnalysisConfig, evidence: JsonModel) -> RecordModel {
    let address = hex_of(sha256_of(input));
    let f = fingerprint_of(address, c, evidence);
    RecordModel {
        id: f.take(32),
        input_sha256: address,
        fingerprint: f,
        config: c,
        evidence,
    }
}

fn fingerprint_material(input_hash: &str, config: &AnalysisConfig, evidence: &Json) -> (r: String)
    ensures
        r@ == written(material(input_hash@, *config, evidence@), None),
{
    let mut o = Json::obj();
    o.set("config", config.to_json());
    o.set("evidence", evidence.copy());
    o.set("input_sha256", Json::Str(input_hash.to_string()));
    o.set("schema_version", Json::num(1));
    assert(o@->Obj_0 =~= material(input_hash@, *config, evidence@)->Obj_0);
    o.to_canonical()
}

/// A configuration with another policy, where one is asked for.
pub open spec fn adjusted(c: AnalysisConfig, policy: Option<OverlapPolicy>) -> AnalysisConfig {
    match policy {
        Some(p) => AnalysisConfig { overlap_policy: p, ..c },
        None => c,
    }
}

/// A configuration with another policy, where one is asked for.
pub fn adjust(config: AnalysisConfig, policy: Option<OverlapPolicy>) -> (r: AnalysisConfig)
    ensures
        r == adjusted(config, policy),
{
    match policy {
        Some(p) => AnalysisConfig {
            overlap_policy: p,
            tcp_timeout_ns: config.tcp_timeout_ns,
            max_ipv4_datagram: config.max_ipv4_datagram,
            max_ipv6_datagram: config.max_ipv6_datagram,
            fin_rst_race_ns: config.fin_rst_race_ns,
        },
        None => config,
    }
}

/// Contents that were handed over to be kept, in order.
pub struct ContentStore {
    pub contents: Vec<Vec<u8>>,
}

impl View for ContentStore {
    type V = Seq<Seq<u8>>;

    open spec fn view(&self) -> Seq<Seq<u8>> {
        self.contents@.map_values(|c: Vec<u8>| c@)
    }
}

impl ContentStore {
    pub fn new() -> (r: ContentStore)
        ensures
            r@ == Seq::<Seq<u8>>::empty(),
    {
        let r = ContentStore { contents: Vec::new() };
        assert(r@ =~= Seq::<Seq<u8>>::empty());
        r
    }

    /// Takes a content over; its address comes back.
    pub fn put(&mut self, content: &[u8]) -> (address: String)
        ensures
            final(self)@ == old(self)@.push(content@),
            address@ == hex_of(sha256_of(content@)),
    {
        let ghost before = self@;
        self.contents.push(copy_bytes(content));
        assert(self@ =~= before.push(content@));
        sha256_hex(content)
    }
}

/// The records of analyses.
pub struct AnalysisEngine {
    records: Vec<AnalysisRecord>,
}

impl View for AnalysisEngine {
    type V = Seq<RecordModel>;

    closed spec fn view(&self) -> Seq<RecordModel> {
        record_views(self.records@)
    }
}

/// Where a record of that name first stands from `i` on.
pub open spec fn place(rs: Seq<RecordModel>, id: Seq<char>, i: int) -> Option<int>
    decreases rs.len() - i,
{
    if i < 0 || i >= rs.len() {
        None
    } else if rs[i].id == id {
        Some(i)
    } else {
        place(rs, id, i + 1)
    }
}

/// The records with one more, unless there is one of its name.
pub open spec fn kept(rs: Seq<RecordModel>, r: RecordModel) -> Seq<RecordModel> {
    if place(rs, r.id, 0) is Some {
        rs
    } else {
        rs.push(r)
    }
}

impl AnalysisEngine {
    pub fn new() -> (r: AnalysisEngine)
        ensures
            r@ == Seq::<RecordModel>::empty(),
    {
        let r = AnalysisEngine { records: Vec::new() };
        assert(r@ =~= Seq::<RecordModel>::empty());
        r
    }

    fn find(&self, id: &str) -> (r: Option<usize>)
        ensures
            match r {
                Some(k) => place(self@, id@, 0) == Some(k as int) && k < self.records@.len(),
                None => place(self@, id@, 0) is None,
            },
    {
        let ghost rs = self@;
        let mut i: usize = 0;
        while i < self.records.len()
            invariant
                i <= self.records@.len(),
                rs == self@,
                place(rs, id@, 0) == place(rs, id@, i as int),
            decreases self.records@.len() - i,
        {
            assert(rs[i as int] == self.records@[i as int]@);
            if same(self.records[i].id.as_str(), id) {
                return Some(i);
            }
            i += 1;
        }
        None
    }

    /// Records an analysis of `input`, whose evidence under the adjusted
    /// configuration is given, and hands the input to the store. A failed analysis is
    /// not recorded, and nothing of it goes to the store.
    pub fn analyze(
        &mut self,
        input: &[u8],
        config: AnalysisConfig,
        overlap_policy: Option<OverlapPolicy>,
        evidence: Result<Json, String>,
        store: &mut ContentStore,
    ) -> (r: Result<AnalysisRecord, String>)
        ensures
            match (evidence, r) {
                (Ok(e), Ok(x)) => {
                    &&& x@ == recorded(input@, adjusted(config, overlap_policy), e@)
                    &&& final(self)@ == kept(old(self)@, x@)
                    &&& final(store)@ == old(store)@.push(input@)
                },
                (Err(e), Err(f)) => {
                    &&& e == f
                    &&& final(self)@ == old(self)@
                    &&& final(store)@ == old(store)@
                },
                _ => false,
            },
    {
        let config = adjust(config, overlap_policy);
        let evidence = match evidence {
            Ok(e) => e,
            Err(e) => {
                return Err(e);
            },
        };
        let input_sha256 = store.put(input);
        let text = fingerprint_material(input_sha256.as_str(), &config, &evidence);
        let fingerprint = sha256_hex(text.as_str().as_bytes());
        let f = chars_of(fingerprint.as_str());
        let id = sub_string(&f, 0, 32);
        assert(id@ =~= fingerprint@.take(32));
        let record = AnalysisRecord { id, input_sha256, fingerprint, config, evidence };
        if self.find(record.id.as_str()).is_none() {
            let ghost before = self.records@;
            let c = record.copy();
            let ghost cm = c@;
            self.records.push(c);
            assert(record_views(self.records@) =~= record_views(before).push(cm));
        }
        Ok(record)
    }

    /// The first record of that name.
    pub fn get(&self, id: &str) -> (r: Option<AnalysisRecord>)
        ensures
            match r {
                Some(x) => place(self@, id@, 0) matches Some(k) && x@ == self@[k],
                None => place(self@, id@, 0) is None,
            },
    {
        match self.find(id) {
            Some(k) => Some(self.records[k].copy()),
            None => None,
        }
    }

    /// What is told of the records in a list.
    pub fn list(&self) -> (r: Vec<AnalysisSummary>)
        ensures
            summary_views(r@) == self@.map_values(|x: RecordModel| summarized(x)),
    {
        let ghost rs = self@;
        let ghost g = |x: RecordModel| summarized(x);
        let mut r: Vec<AnalysisSummary> = Vec::new();
        let mut i: usize = 0;
        assert(summary_views(r@) =~= rs.map_values(g).take(0));
        while i < self.records.len()
            invariant
                i <= self.records@.len(),
                rs == self@,
                rs.len() == self.records@.len(),
                g == (|x: RecordModel| summarized(x)),
                summary_views(r@) == rs.map_values(g).take(i as int),
            decreases self.records@.len() - i,
        {
            let ghost before = r@;
            assert(rs[i as int] == self.records@[i as int]@);
            let s = AnalysisSummary::of(&self.records[i]);
            let ghost sm = s@;
            r.push(s);
            i += 1;
            assert(summary_views(r@) =~= summary_views(before).push(sm));
            assert(summary_views(r@) =~= rs.map_values(g).take(i as int));
        }
        assert(rs.map_values(g).take(i as int) =~= rs.map_values(g));
        r
    }

    /// Adds the record that was kept as a value.
    pub fn restore(&mut self, wrapper: &Json, default: AnalysisConfig) -> (r: Result<(), String>)
        ensures
            match r {
                Ok(_) => kept_record(wrapper@, default) matches Ok(x) && final(self)@ == old(
                    self,
                )@.push(x),
                Err(e) => kept_record(wrapper@, default) == Err::<RecordModel, Seq<char>>(e@)
                    && final(self)@ == old(self)@,
            },
    {
        let x = match read_record(wrapper, default) {
            Ok(x) => x,
            Err(e) => {
                return Err(e);
            },
        };
        let ghost before = self.records@;
        let ghost xm = x@;
        self.records.push(x);
        assert(record_views(self.records@) =~= record_views(before).push(xm));
        Ok(())
    }
}

#[derive(Debug)]
pub struct AnalysisSummary {
    pub id: String,
    pub input_sha256: String,
    pub fingerprint: String,
    pub overlap_policy: String,
}

/// What is told of a record in a list.
pub struct SummaryModel {
    pub id: Seq<char>,
    pub input_sha256: Seq<char>,
    pub fingerprint: Seq<char>,
    pub overlap_policy: Seq<char>,
}

impl View for AnalysisSummary {
    type V = SummaryModel;

    open spec fn view(&self) -> SummaryModel {
        SummaryModel {
            id: self.id@,
            input_sha256: self.input_sha256@,
            fingerprint: self.fingerprint@,
            overlap_policy: self.overlap_policy@,
        }
    }
}

/// What is told of a record in a list.
pub open spec fn summarized(r: RecordModel) -> SummaryModel {
    SummaryModel {
        id: r.id,
        input_sha256: r.input_sha256,
        fingerprint: r.fingerprint,
        overlap_policy: r.config.overlap_policy.name(),
    }
}

/// What summaries are.
pub open spec fn summary_views(v: Seq<AnalysisSummary>) -> Seq<SummaryModel> {
    v.map_values(|s: AnalysisSummary| s@)
}

impl AnalysisSummary {
    /// What is told of a record in a list.
    pub fn of(record: &AnalysisRecord) -> (r: AnalysisSummary)
        ensures
            r@ == summarized(record@),
    {
        AnalysisSummary {
            id: record.id.clone(),
            input_sha256: record.input_sha256.clone(),
            fingerprint: record.fingerprint.clone(),
            overlap_policy: record.config.overlap_policy.as_str().to_string(),
        }
    }
}

/// The bytes from `i` on with plus signs as blanks and escapes read, behind those
/// read before. A percent sign that no two digits follow stands for itself.
pub open spec fn percent_decoded(b: Seq<u8>, i: int, acc: Seq<u8>) -> Seq<u8>
    decreases b.len() - i,
{
    if i < 0 || i >= b.len() {
        acc
    } else if b[i] == 37 && i + 2 < b.len() && digit_value(b[i + 1]) is Some && digit_value(
        b[i + 2],
    ) is Some {
        percent_decoded(
            b,
            i + 3,
            acc.push((digit_value(b[i + 1])->0 * 16 + digit_value(b[i + 2])->0) as u8),
        )
    } else if b[i] == 43 {
        percent_decoded(b, i + 1, acc.push(32))
    } else {
        percent_decoded(b, i + 1, acc.push(b[i]))
    }
}

/// The bytes with plus signs as blanks and escapes read.
pub fn percent_decode_bytes(b: &[u8]) -> (r: Vec<u8>)
    ensures
        r@ == percent_decoded(b@, 0, seq![]),
{
    let n: usize = b.len();
    let mut r: Vec<u8> = Vec::new();
    let mut i: usize = 0;
    assert(r@ =~= seq![]);
    while i < n
        invariant
            i <= n,
            n == b@.len(),
            percent_decoded(b@, i as int, r@) == percent_decoded(b@, 0, seq![]),
        decreases n - i,
    {
        if b[i] == 37 && n - i > 2 {
            if let (Some(h), Some(l)) = (digit(b[i + 1]), digit(b[i + 2])) {
                r.push(h * 16 + l);
                i += 3;
                continue;
            }
        } else if b[i] == 43 {
            r.push(32);
            i += 1;
            continue;
        }
        r.push(b[i]);
        i += 1;
    }
    r
}

/// The text of a query value.
pub open spec fn query_text(s: Seq<char>) -> Seq<char> {
    utf8_lossy(percent_decoded(encode_utf8(s), 0, seq![]))
}

fn percent_decode(s: &str) -> (r: String)
    ensures
        r@ == query_text(s@),
{
    let b = percent_decode_bytes(s.as_bytes());
    lossy(b.as_slice())
}

/// What a pair of a query says of the policy, if it does.
pub open spec fn policy_pair(pair: Seq<char>) -> Option<Seq<char>> {
    match behind(pair, "policy="@) {
        Some(raw) => Some(raw),
        None => behind(pair, "overlap_policy="@),
    }
}

/// The policy of a name, or the name itself as an error.
pub open spec fn policy_named(name: Seq<char>) -> Result<Option<OverlapPolicy>, Seq<char>> {
    match OverlapPolicy::named(name) {
        Some(p) => Ok(Some(p)),
        None => Err(name),
    }
}

/// The policy that the pairs from `i` on ask for; the first pair that names one
/// counts.
pub open spec fn asked_policy(pairs: Seq<Seq<char>>, i: int) -> Result<
    Option<OverlapPolicy>,
    Seq<char>,
>
    decreases pairs.len() - i,
{
    if i < 0 || i >= pairs.len() {
        Ok(None)
    } else {
        match policy_pair(pairs[i]) {
            Some(raw) => policy_named(query_text(raw)),
            None => asked_policy(pairs, i + 1),
        }
    }
}

/// The policy that a query asks for, if it does; the error is the name of an unknown
/// one.
pub fn config_from_query(query: Option<&str>) -> (r: Result<Option<OverlapPolicy>, String>)
    ensures
        match query {
            None => r == Ok::<Option<OverlapPolicy>, String>(None),
            Some(q) => match r {
                Ok(p) => asked_policy(fields(q@, '&'), 0) == Ok::<
                    Option<OverlapPolicy>,
                    Seq<char>,
                >(p),
                Err(e) => asked_policy(fields(q@, '&'), 0) == Err::<
                    Option<OverlapPolicy>,
                    Seq<char>,
                >(e@),
            },
        },
{
    let q = match query {
        Some(q) => q,
        None => {
            return Ok(None);
        },
    };
    let pairs = split_fields(q, '&');
    let ghost ps = views(pairs@);
    let mut i: usize = 0;
    while i < pairs.len()
        invariant
            i <= pairs@.len(),
            query == Some(q),
            ps == views(pairs@),
            ps == fields(q@, '&'),
            asked_policy(ps, 0) == asked_policy(ps, i as int),
        decreases pairs@.len() - i,
    {
        assert(ps[i as int] == pairs@[i as int]@);
        let pair = pairs[i].as_str();
        let raw = match strip(pair, "policy=") {
            Some(t) => Some(t),
            None => strip(pair, "overlap_policy="),
        };
        if let Some(t) = raw {
            let name = percent_decode(t.as_str());
            return match OverlapPolicy::parse(name.as_str()) {
                Some(p) => Ok(Some(p)),
                None => Err(name),
            };
        }
        i += 1;
    }
    Ok(None)
}

/// What is told of a record.
pub open spec fn told(r: RecordModel) -> JsonModel {
    JsonModel::Obj(
        seq![
            ("analysis_id"@, JsonModel::Str(r.id)),
            ("config"@, config_json(r.config)),
            ("evidence"@, r.evidence),
            ("fingerprint"@, JsonModel::Str(r.fingerprint)),
            ("input_sha256"@, JsonModel::Str(r.input_sha256)),
            ("schema_version"@, JsonModel::Num(1)),
        ],
    )
}

/// What is told of a record.
pub fn evidence_json(record: &AnalysisRecord) -> (r: Json)
    ensures
        r@ == told(record@),
{
    let mut o = Json::obj();
    o.set("analysis_id", Json::Str(record.id.clone()));
    o.set("config", record.config.to_json());
    o.set("evidence", record.evidence.copy());
    o.set("fingerprint", Json::Str(record.fingerprint.clone()));
    o.set("input_sha256", Json::Str(record.input_sha256.clone()));
    o.set("schema_version", Json::num(1));
    assert(o@->Obj_0 =~= told(record@)->Obj_0);
    o
}

/// An entry of a list of analyses.
pub open spec fn listed(s: SummaryModel) -> JsonModel {
    JsonModel::Obj(
        seq![
            ("analysis_id"@, JsonModel::Str(s.id)),
            ("fingerprint"@, JsonModel::Str(s.fingerprint)),
            ("input_sha256"@, JsonModel::Str(s.input_sha256)),
            ("overlap_policy"@, JsonModel::Str(s.overlap_policy)),
        ],
    )
}

/// A list of analyses.
pub fn list_json(summaries: &Vec<AnalysisSummary>) -> (r: Json)
    ensures
        r@ == JsonModel::Arr(
            summary_views(summaries@).map_values(|s: SummaryModel| listed(s)),
        ),
{
    let ghost vs = summary_views(summaries@);
    let ghost g = |s: SummaryModel| listed(s);
    let mut arr: Vec<Json> = Vec::new();
    let mut i: usize = 0;
    assert(items_of(arr@) =~= vs.map_values(g).take(0));
    while i < summaries.len()
        invariant
            i <= summaries@.len(),
            vs == summary_views(summaries@),
            g == (|s: SummaryModel| listed(s)),
            items_of(arr@) == vs.map_values(g).take(i as int),
        decreases summaries@.len() - i,
    {
        let ghost before = arr@;
        let s = &summaries[i];
        let mut o = Json::obj();
        o.set("analysis_id", Json::Str(s.id.clone()));
        o.set("fingerprint", Json::Str(s.fingerprint.clone()));
        o.set("input_sha256", Json::Str(s.input_sha256.clone()));
        o.set("overlap_policy", Json::Str(s.overlap_policy.clone()));
        assert(o@->Obj_0 =~= listed(s@)->Obj_0);
        let ghost om = o@;
        arr.push(o);
        i += 1;
        assert(items_of(arr@) =~= items_of(before).push(om));
        assert(items_of(arr@) =~= vs.map_values(g).take(i as int));
    }
    assert(vs.map_values(g).take(i as int) =~= vs.map_values(g));
    Json::arr(arr)
}

/// The number of a key, if it has at most 64 bits with its sign.
pub open spec fn i64_field(v: JsonModel, key: Seq<char>) -> Option<int> {
    match v.num_field(key) {
        Some(n) => if i64::MIN <= n <= i64::MAX {
            Some(n)
        } else {
            None
        },
        None => None,
    }
}

/// A number in place of another, where there is one.
pub open spec fn or_else(n: Option<int>, d: int) -> int {
    match n {
        Some(n) => n,
        None => d,
    }
}

/// The size of a key, as far as a size can hold it, or another one.
pub open spec fn size_field(v: JsonModel, key: Seq<char>, d: usize) -> usize {
    match v.u64_field(key) {
        Some(n) => n as u64 as usize,
        None => d,
    }
}

/// The configuration that was kept as a value; what is missing is as in `d`.
pub open spec fn kept_config(value: Option<JsonModel>, d: AnalysisConfig) -> Result<
    AnalysisConfig,
    Seq<char>,
> {
    match value {
        None => Ok(d),
        Some(v) => {
            let rest = AnalysisConfig {
                overlap_policy: d.overlap_policy,
                tcp_timeout_ns: or_else(
                    i64_field(v, "tcp_timeout_ns"@),
                    d.tcp_timeout_ns as int,
                ) as i64,
                max_ipv4_datagram: size_field(v, "max_ipv4_datagram"@, d.max_ipv4_datagram),
                max_ipv6_datagram: size_field(v, "max_ipv6_datagram"@, d.max_ipv6_datagram),
                fin_rst_race_ns: or_else(
                    i64_field(v, "fin_rst_race_ns"@),
                    d.fin_rst_race_ns as int,
                ) as i64,
            };
            match v.str_field("overlap_policy"@) {
                None => Ok(rest),
                Some(name) => match OverlapPolicy::named(name) {
                    None => Err(name),
                    Some(p) => Ok(AnalysisConfig { overlap_policy: p, ..rest }),
                },
            }
        },
    }
}

fn i64_at(v: &Json, key: &str, d: i64) -> (r: i64)
    ensures
        r == or_else(i64_field(v@, key@), d as int),
{
    match v.num_at(key) {
        Some(n) => if n >= i64::MIN as i128 && n <= i64::MAX as i128 {
            n as i64
        } else {
            d
        },
        None => d,
    }
}

fn size_at(v: &Json, key: &str, d: usize) -> (r: usize)
    ensures
        r == size_field(v@, key@, d),
{
    match v.u64_at(key) {
        Some(n) => n as usize,
        None => d,
    }
}

/// Reads a configuration that was kept as a value; what is missing is as in
/// `default`. The error is the name of an unknown policy.
pub fn parse_persisted_config(value: Option<&Json>, default: AnalysisConfig) -> (r: Result<
    AnalysisConfig,
    String,
>)
    ensures
        ({
            let v = match value {
                Some(v) => Some(v@),
                None => None,
            };
            match r {
                Ok(c) => kept_config(v, default) == Ok::<AnalysisConfig, Seq<char>>(c),
                Err(e) => kept_config(v, default) == Err::<AnalysisConfig, Seq<char>>(e@),
            }
        }),
{
    let v = match value {
        Some(v) => v,
        None => {
            return Ok(default);
        },
    };
    let policy = match v.str_at("overlap_policy") {
        Some(name) => match OverlapPolicy::parse(name) {
            Some(p) => p,
            None => {
                return Err(name.to_string());
            },
        },
        None => default.overlap_policy,
    };
    Ok(
        AnalysisConfig {
            overlap_policy: policy,
            tcp_timeout_ns: i64_at(v, "tcp_timeout_ns", default.tcp_timeout_ns),
            max_ipv4_datagram: size_at(v, "max_ipv4_datagram", default.max_ipv4_datagram),
            max_ipv6_datagram: size_at(v, "max_ipv6_datagram", default.max_ipv6_datagram),
            fin_rst_race_ns: i64_at(v, "fin_rst_race_ns", default.fin_rst_race_ns),
        },
    )
}

/// The record that was kept as a value.
pub open spec fn kept_record(w: JsonModel, d: AnalysisConfig) -> Result<RecordModel, Seq<char>> {
    match w.str_field("analysis_id"@) {
        None => Err("missing id"@),
        Some(id) => match w.str_field("fingerprint"@) {
            None => Err("missing fingerprint"@),
            Some(fingerprint) => match w.str_field("input_sha256"@) {
                None => Err("missing input hash"@),
                Some(input_sha256) => match kept_config(w.field("config"@), d) {
                    Err(e) => Err(e),
                    Ok(config) => match w.field("evidence"@) {
                        None => Err("missing evidence"@),
                        Some(evidence) => Ok(
                            RecordModel { id, input_sha256, fingerprint, config, evidence },
                        ),
                    },
                },
            },
        },
    }
}

fn read_record(w: &Json, default: AnalysisConfig) -> (r: Result<AnalysisRecord, String>)
    ensures
        match r {
            Ok(x) => kept_record(w@, default) == Ok::<RecordModel, Seq<char>>(x@),
            Err(e) => kept_record(w@, default) == Err::<RecordModel, Seq<char>>(e@),
        },
{
    let id = match w.str_at("analysis_id") {
        Some(t) => t.to_string(),
        None => {
            return Err("missing id".to_string());
        },
    };
    let fingerprint = match w.str_at("fingerprint") {
        Some(t) => t.to_string(),
        None => {
            return Err("missing fingerprint".to_string());
        },
    };
    let input_sha256 = match w.str_at("input_sha256") {
        Some(t) => t.to_string(),
        None => {
            return Err("missing input hash".to_string());
        },
    };
    let config = match parse_persisted_config(w.get("config"), default) {
        Ok(c) => c,
        Err(e) => {
            return Err(e);
        },
    };
    let evidence = match w.get("evidence") {
        Some(e) => e.copy(),
        None => {
            return Err("missing evidence".to_string());
        },
    };
    Ok(AnalysisRecord { id, input_sha256, fingerprint, config, evidence })
}

/// No two records have the same name.
pub open spec fn distinct(rs: Seq<RecordModel>) -> bool {
    forall|i: int, j: int| 0 <= i < j < rs.len() ==> (#[trigger] rs[i]).id != (#[trigger] rs[j]).id
}

proof fn lemma_place(rs: Seq<RecordModel>, id: Seq<char>, i: int)
    requires
        0 <= i,
    ensures
        match place(rs, id, i) {
            Some(k) => i <= k < rs.len() && rs[k].id == id,
            None => forall|j: int| i <= j < rs.len() ==> (#[trigger] rs[j]).id != id,
        },
    decreases rs.len() - i,
{
    if i < rs.len() && rs[i].id != id {
        lemma_place(rs, id, i + 1);
    }
}

proof fn lemma_place_pushed(rs: Seq<RecordModel>, r: RecordModel, i: int)
    requires
        0 <= i <= rs.len(),
        place(rs, r.id, i) is None,
    ensures
        place(rs.push(r), r.id, i) == Some(rs.len() as int),
    decreases rs.len() - i,
{
    if i < rs.len() {
        lemma_place_pushed(rs, r, i + 1);
    }
}

/// Recording an analysis keeps the names of the records distinct.
pub proof fn law_names_stay_distinct(rs: Seq<RecordModel>, r: RecordModel)
    requires
        distinct(rs),
    ensures
        distinct(kept(rs, r)),
{
    lemma_place(rs, r.id, 0);
}

/// An analysis that is recorded can be looked up by its name, and no record that was
/// there before changes or moves.
pub proof fn law_recorded_is_found(rs: Seq<RecordModel>, r: RecordModel)
    ensures
        place(kept(rs, r), r.id, 0) is Some,
        place(rs, r.id, 0) is None ==> kept(rs, r)[place(kept(rs, r), r.id, 0)->0] == r,
        rs.is_prefix_of(kept(rs, r)),
{
    if place(rs, r.id, 0) is None {
        lemma_place_pushed(rs, r, 0);
    }
    assert(rs =~= kept(rs, r).subrange(0, rs.len() as int));
}

/// Recording the same analysis again adds nothing.
pub proof fn law_recording_again(rs: Seq<RecordModel>, r: RecordModel)
    ensures
        kept(kept(rs, r), r) == kept(rs, r),
{
    law_recorded_is_found(rs, r);
}

proof fn lemma_config_fields(c: AnalysisConfig)
    ensures
        config_json(c).field("fin_rst_race_ns"@) == Some(JsonModel::Num(c.fin_rst_race_ns as int)),
        config_json(c).field("max_ipv4_datagram"@) == Some(
            JsonModel::Num(c.max_ipv4_datagram as int),
        ),
        config_json(c).field("max_ipv6_datagram"@) == Some(
            JsonModel::Num(c.max_ipv6_datagram as int),
        ),
        config_json(c).field("overlap_policy"@) == Some(JsonModel::Str(c.overlap_policy.name())),
        config_json(c).field("tcp_timeout_ns"@) == Some(JsonModel::Num(c.tcp_timeout_ns as int)),
{
    reveal_strlit("fin_rst_race_ns");
    reveal_strlit("max_ipv4_datagram");
    reveal_strlit("max_ipv6_datagram");
    reveal_strlit("overlap_policy");
    reveal_strlit("tcp_timeout_ns");
    assert("fin_rst_race_ns"@.len() == 15 && "max_ipv4_datagram"@.len() == 17
        && "max_ipv6_datagram"@.len() == 17 && "overlap_policy"@.len() == 14
        && "tcp_timeout_ns"@.len() == 14);
    assert("max_ipv4_datagram"@[7] == '4' && "max_ipv6_datagram"@[7] == '6');
    assert("overlap_policy"@[0] == 'o' && "tcp_timeout_ns"@[0] == 't');
    reveal_with_fuel(entry_at, 6);
}

/// A configuration that was kept reads back whatever the defaults are.
pub proof fn law_config_reads_back(c: AnalysisConfig, d: AnalysisConfig)
    ensures
        kept_config(Some(canonical(config_json(c))), d) == Ok::<AnalysisConfig, Seq<char>>(c),
{
    let j = config_json(c);
    lemma_config_fields(c);
    law_canonical_field(j, "fin_rst_race_ns"@);
    law_canonical_field(j, "max_ipv4_datagram"@);
    law_canonical_field(j, "max_ipv6_datagram"@);
    law_canonical_field(j, "overlap_policy"@);
    law_canonical_field(j, "tcp_timeout_ns"@);
    reveal_strlit("first-seen");
    reveal_strlit("last-seen");
    reveal_strlit("first");
    reveal_strlit("last");
    assert("first-seen"@.len() == 10 && "last-seen"@.len() == 9 && "first"@.len() == 5
        && "last"@.len() == 4);
}

proof fn lemma_told_fields(r: RecordModel)
    ensures
        told(r).field("analysis_id"@) == Some(JsonModel::Str(r.id)),
        told(r).field("config"@) == Some(config_json(r.config)),
        told(r).field("evidence"@) == Some(r.evidence),
        told(r).field("fingerprint"@) == Some(JsonModel::Str(r.fingerprint)),
        told(r).field("input_sha256"@) == Some(JsonModel::Str(r.input_sha256)),
{
    reveal_strlit("analysis_id");
    reveal_strlit("config");
    reveal_strlit("evidence");
    reveal_strlit("fingerprint");
    reveal_strlit("input_sha256");
    assert("analysis_id"@.len() == 11 && "config"@.len() == 6 && "evidence"@.len() == 8
        && "fingerprint"@.len() == 11 && "input_sha256"@.len() == 12);
    assert("analysis_id"@[0] == 'a' && "fingerprint"@[0] == 'f');
    reveal_with_fuel(entry_at, 7);
}

/// A record that was kept reads back, with the entries of its evidence in order.
pub proof fn law_record_reads_back(r: RecordModel, d: AnalysisConfig)
    ensures
        kept_record(canonical(told(r)), d) == Ok::<RecordModel, Seq<char>>(
            RecordModel { evidence: canonical(r.evidence), ..r },
        ),
{
    let j = told(r);
    lemma_told_fields(r);
    law_canonical_field(j, "analysis_id"@);
    law_canonical_field(j, "config"@);
    law_canonical_field(j, "evidence"@);
    law_canonical_field(j, "fingerprint"@);
    law_canonical_field(j, "input_sha256"@);
    law_config_reads_back(r.config, d);
}

} // verus!
