//! Results and evidence as documents: every value by the names of its fields, in their
//! order.

use vstd::prelude::*;
use crate::analysis::{DirEvidence, Evidence, Policy, SegEvidence, SegKind, SessionEvidence};
use crate::analyze::{settings_of, Config};
use crate::json::{items_of, plain, Json, JsonModel};
use crate::session::{
    DirectionResult, Endpoint, FrameEv, Interval, OverlapEv, SegInfo, SessionResult,
};
use crate::text::views;

verus! {

/// A value that can be written down.
pub trait Document {
    /// The value as a document.
    spec fn document(&self) -> JsonModel;

    /// The value as a document.
    fn to_document(&self) -> (r: Json)
        ensures
            r@ == self.document(),
    ;
}

/// Values as documents, in their order.
pub open spec fn listed<T: Document>(v: Seq<T>) -> JsonModel {
    JsonModel::Arr(Seq::new(v.len(), |i: int| v[i].document()))
}

/// Values as documents, in their order.
pub fn list<T: Document>(v: &Vec<T>) -> (r: Json)
    ensures
        r@ == listed(v@),
{
    let mut arr: Vec<Json> = Vec::new();
    let mut i: usize = 0;
    assert(items_of(arr@) =~= Seq::new(0, |k: int| v@[k].document()));
    while i < v.len()
        invariant
            i <= v@.len(),
            items_of(arr@) == Seq::new(i as nat, |k: int| v@[k].document()),
        decreases v@.len() - i,
    {
        let ghost before = arr@;
        let x = v[i].to_document();
        let ghost m = x@;
        arr.push(x);
        i += 1;
        assert(items_of(arr@) =~= items_of(before).push(m));
        assert(items_of(arr@) =~= Seq::new(i as nat, |k: int| v@[k].document()));
    }
    Json::arr(arr)
}

fn pair<T: Document>(a: &T, b: &T) -> (r: Json)
    ensures
        r@ == JsonModel::Arr(seq![a.document(), b.document()]),
{
    let mut arr: Vec<Json> = Vec::new();
    arr.push(a.to_document());
    arr.push(b.to_document());
    assert(items_of(arr@) =~= seq![a.document(), b.document()]);
    Json::arr(arr)
}

/// A number, or null.
pub open spec fn maybe_number(n: Option<u32>) -> JsonModel {
    match n {
        Some(n) => JsonModel::Num(n as int),
        None => JsonModel::Null,
    }
}

fn number_or_null(n: Option<u32>) -> (r: Json)
    ensures
        r@ == maybe_number(n),
{
    match n {
        Some(n) => Json::num(n as i128),
        None => Json::Null,
    }
}

/// The name of how a payload lies.
pub open spec fn kind_name(k: SegKind) -> Seq<char> {
    match k {
        SegKind::Normal => "normal"@,
        SegKind::Retransmit => "retransmit"@,
        SegKind::OutOfOrder => "out_of_order"@,
        SegKind::Overlap => "overlap"@,
    }
}

/// The name of how a payload lies, or null.
pub open spec fn maybe_kind(k: Option<SegKind>) -> JsonModel {
    match k {
        Some(k) => JsonModel::Str(kind_name(k)),
        None => JsonModel::Null,
    }
}

fn kind_or_null(k: Option<SegKind>) -> (r: Json)
    ensures
        r@ == maybe_kind(k),
{
    match k {
        Some(SegKind::Normal) => Json::Str("normal".to_string()),
        Some(SegKind::Retransmit) => Json::Str("retransmit".to_string()),
        Some(SegKind::OutOfOrder) => Json::Str("out_of_order".to_string()),
        Some(SegKind::Overlap) => Json::Str("overlap".to_string()),
        None => Json::Null,
    }
}

impl Document for u64 {
    open spec fn document(&self) -> JsonModel {
        JsonModel::Num(*self as int)
    }

    fn to_document(&self) -> (r: Json) {
        Json::num(*self as i128)
    }
}

impl Document for String {
    open spec fn document(&self) -> JsonModel {
        JsonModel::Str(self@)
    }

    fn to_document(&self) -> (r: Json) {
        Json::Str(self.clone())
    }
}

impl Document for Json {
    open spec fn document(&self) -> JsonModel {
        self@
    }

    fn to_document(&self) -> (r: Json) {
        self.copy()
    }
}

impl Document for (i64, i64) {
    open spec fn document(&self) -> JsonModel {
        JsonModel::Arr(seq![JsonModel::Num(self.0 as int), JsonModel::Num(self.1 as int)])
    }

    fn to_document(&self) -> (r: Json) {
        let mut arr: Vec<Json> = Vec::new();
        arr.push(Json::num(self.0 as i128));
        arr.push(Json::num(self.1 as i128));
        assert(items_of(arr@) =~= seq![
            JsonModel::Num(self.0 as int),
            JsonModel::Num(self.1 as int),
        ]);
        Json::arr(arr)
    }
}

impl Document for Config {
    open spec fn document(&self) -> JsonModel {
        JsonModel::Obj(
            seq![
                ("overlap"@, JsonModel::Str(self.overlap@)),
                ("session_timeout_ns"@, JsonModel::Num(self.session_timeout_ns as int)),
                ("frag_max_datagram_bytes"@, JsonModel::Num(self.frag_max_datagram_bytes as int)),
                ("frag_max_fragments"@, JsonModel::Num(self.frag_max_fragments as int)),
                ("frag_timeout_ns"@, JsonModel::Num(self.frag_timeout_ns as int)),
            ],
        )
    }

    fn to_document(&self) -> (r: Json) {
        let mut o = Json::obj();
        o.set("overlap", Json::Str(self.overlap.clone()));
        o.set("session_timeout_ns", Json::num(self.session_timeout_ns as i128));
        o.set("frag_max_datagram_bytes", Json::num(self.frag_max_datagram_bytes as i128));
        o.set("frag_max_fragments", Json::num(self.frag_max_fragments as i128));
        o.set("frag_timeout_ns", Json::num(self.frag_timeout_ns as i128));
        assert(o@->Obj_0 =~= self.document()->Obj_0);
        o
    }
}

impl Document for Interval {
    open spec fn document(&self) -> JsonModel {
        JsonModel::Obj(
            seq![
                ("start_seq"@, JsonModel::Num(self.start_seq as int)),
                ("end_seq"@, JsonModel::Num(self.end_seq as int)),
                ("offset"@, JsonModel::Num(self.offset as int)),
                ("len"@, JsonModel::Num(self.len as int)),
            ],
        )
    }

    fn to_document(&self) -> (r: Json) {
        let mut o = Json::obj();
        o.set("start_seq", Json::num(self.start_seq as i128));
        o.set("end_seq", Json::num(self.end_seq as i128));
        o.set("offset", Json::num(self.offset as i128));
        o.set("len", Json::num(self.len as i128));
        assert(o@->Obj_0 =~= self.document()->Obj_0);
        o
    }
}

impl Document for SegInfo {
    open spec fn document(&self) -> JsonModel {
        JsonModel::Obj(
            seq![
                ("seq"@, JsonModel::Num(self.seq as int)),
                ("end_seq"@, JsonModel::Num(self.end_seq as int)),
                ("offset"@, JsonModel::Num(self.offset as int)),
                ("len"@, JsonModel::Num(self.len as int)),
                ("frame"@, JsonModel::Num(self.frame as int)),
                ("ts_ns"@, JsonModel::Num(self.ts_ns as int)),
            ],
        )
    }

    fn to_document(&self) -> (r: Json) {
        let mut o = Json::obj();
        o.set("seq", Json::num(self.seq as i128));
        o.set("end_seq", Json::num(self.end_seq as i128));
        o.set("offset", Json::num(self.offset as i128));
        o.set("len", Json::num(self.len as i128));
        o.set("frame", Json::num(self.frame as i128));
        o.set("ts_ns", Json::num(self.ts_ns as i128));
        assert(o@->Obj_0 =~= self.document()->Obj_0);
        o
    }
}

impl Document for FrameEv {
    open spec fn document(&self) -> JsonModel {
        JsonModel::Obj(
            seq![
                ("seq"@, JsonModel::Num(self.seq as int)),
                ("len"@, JsonModel::Num(self.len as int)),
                ("frame"@, JsonModel::Num(self.frame as int)),
            ],
        )
    }

    fn to_document(&self) -> (r: Json) {
        let mut o = Json::obj();
        o.set("seq", Json::num(self.seq as i128));
        o.set("len", Json::num(self.len as i128));
        o.set("frame", Json::num(self.frame as i128));
        assert(o@->Obj_0 =~= self.document()->Obj_0);
        o
    }
}

impl Document for OverlapEv {
    open spec fn document(&self) -> JsonModel {
        JsonModel::Obj(
            seq![
                ("offset"@, JsonModel::Num(self.offset as int)),
                ("start_seq"@, JsonModel::Num(self.start_seq as int)),
                ("len"@, JsonModel::Num(self.len as int)),
                ("kept_frame"@, JsonModel::Num(self.kept_frame as int)),
                ("dropped_frame"@, JsonModel::Num(self.dropped_frame as int)),
                ("policy"@, JsonModel::Str(self.policy@)),
                ("dropped_bytes_hex"@, JsonModel::Str(self.dropped_bytes_hex@)),
            ],
        )
    }

    fn to_document(&self) -> (r: Json) {
        let mut o = Json::obj();
        o.set("offset", Json::num(self.offset as i128));
        o.set("start_seq", Json::num(self.start_seq as i128));
        o.set("len", Json::num(self.len as i128));
        o.set("kept_frame", Json::num(self.kept_frame as i128));
        o.set("dropped_frame", Json::num(self.dropped_frame as i128));
        o.set("policy", Json::Str(self.policy.clone()));
        o.set("dropped_bytes_hex", Json::Str(self.dropped_bytes_hex.clone()));
        assert(o@->Obj_0 =~= self.document()->Obj_0);
        o
    }
}

impl Document for DirectionResult {
    open spec fn document(&self) -> JsonModel {
        JsonModel::Obj(
            seq![
                ("isn"@, maybe_number(self.isn)),
                ("anchor_seq"@, maybe_number(self.anchor_seq)),
                ("byte_count"@, JsonModel::Num(self.byte_count as int)),
                ("payload_sha256"@, JsonModel::Str(self.payload_sha256@)),
                ("payload_file"@, JsonModel::Str(self.payload_file@)),
                ("intervals"@, listed(self.intervals@)),
                ("gaps"@, listed(self.gaps@)),
                ("retransmissions"@, listed(self.retransmissions@)),
                ("out_of_order"@, listed(self.out_of_order@)),
                ("overlaps"@, listed(self.overlaps@)),
                ("segments"@, listed(self.segments@)),
            ],
        )
    }

    fn to_document(&self) -> (r: Json) {
        let mut o = Json::obj();
        o.set("isn", number_or_null(self.isn));
        o.set("anchor_seq", number_or_null(self.anchor_seq));
        o.set("byte_count", Json::num(self.byte_count as i128));
        o.set("payload_sha256", Json::Str(self.payload_sha256.clone()));
        o.set("payload_file", Json::Str(self.payload_file.clone()));
        o.set("intervals", list(&self.intervals));
        o.set("gaps", list(&self.gaps));
        o.set("retransmissions", list(&self.retransmissions));
        o.set("out_of_order", list(&self.out_of_order));
        o.set("overlaps", list(&self.overlaps));
        o.set("segments", list(&self.segments));
        assert(o@->Obj_0 =~= self.document()->Obj_0);
        o
    }
}

impl Document for SessionResult {
    open spec fn document(&self) -> JsonModel {
        JsonModel::Obj(
            seq![
                ("id"@, JsonModel::Num(self.id as int)),
                ("endpoint_a"@, JsonModel::Str(self.endpoint_a@)),
                ("endpoint_b"@, JsonModel::Str(self.endpoint_b@)),
                ("generation"@, JsonModel::Num(self.generation as int)),
                ("partial"@, JsonModel::Bool(self.partial)),
                ("close_reason"@, JsonModel::Str(self.close_reason@)),
                ("first_ts_ns"@, JsonModel::Num(self.first_ts_ns as int)),
                ("last_ts_ns"@, JsonModel::Num(self.last_ts_ns as int)),
                ("frames"@, listed(self.frames@)),
                ("directions"@, listed(self.directions@)),
            ],
        )
    }

    fn to_document(&self) -> (r: Json) {
        let mut o = Json::obj();
        o.set("id", Json::num(self.id as i128));
        o.set("endpoint_a", Json::Str(self.endpoint_a.clone()));
        o.set("endpoint_b", Json::Str(self.endpoint_b.clone()));
        o.set("generation", Json::num(self.generation as i128));
        o.set("partial", Json::Bool(self.partial));
        o.set("close_reason", Json::Str(self.close_reason.clone()));
        o.set("first_ts_ns", Json::num(self.first_ts_ns as i128));
        o.set("last_ts_ns", Json::num(self.last_ts_ns as i128));
        o.set("frames", list(&self.frames));
        o.set("directions", list(&self.directions));
        assert(o@->Obj_0 =~= self.document()->Obj_0);
        o
    }
}

impl Document for SegEvidence {
    open spec fn document(&self) -> JsonModel {
        JsonModel::Obj(
            seq![
                ("frame"@, JsonModel::Num(self.frame as int)),
                ("ts_ns"@, JsonModel::Num(self.ts_ns as int)),
                ("seq"@, JsonModel::Num(self.seq as int)),
                ("start"@, JsonModel::Num(self.start as int)),
                ("end"@, JsonModel::Num(self.end as int)),
                ("len"@, JsonModel::Num(self.len as int)),
                ("flags"@, JsonModel::Str(self.flags@)),
                ("kind"@, maybe_kind(self.kind)),
            ],
        )
    }

    fn to_document(&self) -> (r: Json) {
        let mut o = Json::obj();
        o.set("frame", Json::num(self.frame as i128));
        o.set("ts_ns", Json::num(self.ts_ns as i128));
        o.set("seq", Json::num(self.seq as i128));
        o.set("start", Json::num(self.start as i128));
        o.set("end", Json::num(self.end as i128));
        o.set("len", Json::num(self.len as i128));
        o.set("flags", Json::Str(self.flags.clone()));
        o.set("kind", kind_or_null(self.kind));
        assert(o@->Obj_0 =~= self.document()->Obj_0);
        o
    }
}

impl Document for DirEvidence {
    open spec fn document(&self) -> JsonModel {
        JsonModel::Obj(
            seq![
                ("name"@, JsonModel::Str(self.name@)),
                ("isn"@, maybe_number(self.isn)),
                ("base"@, maybe_number(self.base)),
                ("segments"@, listed(self.segments@)),
                ("coverage"@, listed(self.coverage@)),
                ("gaps"@, listed(self.gaps@)),
                ("overwritten"@, listed(self.overwritten@)),
                ("retransmissions"@, JsonModel::Num(self.retransmissions as int)),
                ("out_of_order"@, JsonModel::Num(self.out_of_order as int)),
                ("overlaps"@, JsonModel::Num(self.overlaps as int)),
                ("reassembled_len"@, JsonModel::Num(self.reassembled_len as int)),
                ("reassembled_sha256"@, JsonModel::Str(self.reassembled_sha256@)),
            ],
        )
    }

    fn to_document(&self) -> (r: Json) {
        let mut o = Json::obj();
        o.set("name", Json::Str(self.name.clone()));
        o.set("isn", number_or_null(self.isn));
        o.set("base", number_or_null(self.base));
        o.set("segments", list(&self.segments));
        o.set("coverage", list(&self.coverage));
        o.set("gaps", list(&self.gaps));
        o.set("overwritten", list(&self.overwritten));
        o.set("retransmissions", Json::num(self.retransmissions as i128));
        o.set("out_of_order", Json::num(self.out_of_order as i128));
        o.set("overlaps", Json::num(self.overlaps as i128));
        o.set("reassembled_len", Json::num(self.reassembled_len as i128));
        o.set("reassembled_sha256", Json::Str(self.reassembled_sha256.clone()));
        assert(o@->Obj_0 =~= self.document()->Obj_0);
        o
    }
}

impl Document for Endpoint {
    open spec fn document(&self) -> JsonModel {
        JsonModel::Obj(
            seq![
                ("ip"@, JsonModel::Str(self.ip.mixed_text())),
                ("port"@, JsonModel::Num(self.port as int)),
            ],
        )
    }

    fn to_document(&self) -> (r: Json) {
        let mut o = Json::obj();
        o.set("ip", Json::Str(self.ip.to_mixed_text()));
        o.set("port", Json::num(self.port as i128));
        assert(o@->Obj_0 =~= self.document()->Obj_0);
        o
    }
}

impl Document for SessionEvidence {
    open spec fn document(&self) -> JsonModel {
        JsonModel::Obj(
            seq![
                ("id"@, JsonModel::Num(self.id as int)),
                ("generation"@, JsonModel::Num(self.generation as int)),
                ("partial"@, JsonModel::Bool(self.partial)),
                ("state"@, JsonModel::Str(self.state@)),
                ("endpoints"@, JsonModel::Arr(seq![self.endpoints.0.document(), self.endpoints.1.document()])),
                ("first_ts_ns"@, JsonModel::Num(self.first_ts_ns as int)),
                ("last_ts_ns"@, JsonModel::Num(self.last_ts_ns as int)),
                ("directions"@, listed(self.directions@)),
                ("post_close"@, listed(self.post_close@)),
            ],
        )
    }

    fn to_document(&self) -> (r: Json) {
        let mut o = Json::obj();
        o.set("id", Json::num(self.id as i128));
        o.set("generation", Json::num(self.generation as i128));
        o.set("partial", Json::Bool(self.partial));
        o.set("state", Json::Str(self.state.clone()));
        o.set("endpoints", pair(&self.endpoints.0, &self.endpoints.1));
        o.set("first_ts_ns", Json::num(self.first_ts_ns as i128));
        o.set("last_ts_ns", Json::num(self.last_ts_ns as i128));
        o.set("directions", list(&self.directions));
        o.set("post_close", list(&self.post_close));
        assert(o@->Obj_0 =~= self.document()->Obj_0);
        o
    }
}

impl Document for Policy {
    open spec fn document(&self) -> JsonModel {
        JsonModel::Obj(
            seq![
                ("overlap"@, JsonModel::Str(self.overlap.name())),
                ("timeout_ns"@, JsonModel::Num(self.timeout_ns as int)),
                ("frag_per_datagram_budget"@, JsonModel::Num(self.frag_per_datagram_budget as int)),
                ("frag_total_budget"@, JsonModel::Num(self.frag_total_budget as int)),
            ],
        )
    }

    fn to_document(&self) -> (r: Json) {
        let mut o = Json::obj();
        o.set("overlap", Json::Str(self.overlap.as_str().to_string()));
        o.set("timeout_ns", Json::num(self.timeout_ns as i128));
        o.set("frag_per_datagram_budget", Json::num(self.frag_per_datagram_budget as i128));
        o.set("frag_total_budget", Json::num(self.frag_total_budget as i128));
        assert(o@->Obj_0 =~= self.document()->Obj_0);
        o
    }
}

impl Document for Evidence {
    open spec fn document(&self) -> JsonModel {
        JsonModel::Obj(
            seq![
                ("input_hash"@, JsonModel::Str(self.input_hash@)),
                ("policy"@, self.policy.document()),
                ("sessions"@, listed(self.sessions@)),
                ("isolated_datagrams"@, listed(self.isolated_datagrams@)),
            ],
        )
    }

    fn to_document(&self) -> (r: Json) {
        let mut o = Json::obj();
        o.set("input_hash", Json::Str(self.input_hash.clone()));
        o.set("policy", self.policy.to_document());
        o.set("sessions", list(&self.sessions));
        o.set("isolated_datagrams", list(&self.isolated_datagrams));
        assert(o@->Obj_0 =~= self.document()->Obj_0);
        o
    }
}

pub(crate) proof fn lemma_listed_plain<T: Document>(v: Seq<T>)
    requires
        forall|i: int| 0 <= i < v.len() ==> plain((#[trigger] v[i]).document()),
    ensures
        plain(listed(v)),
{
    let a = listed(v)->Arr_0;
    assert forall|i: int| 0 <= i < a.len() implies plain(#[trigger] a[i]) by {
        assert(plain(v[i].document()));
    }
}

/// Texts as documents tell their characters.
pub(crate) proof fn lemma_texts_plain(v: Seq<String>, w: Seq<String>)
    ensures
        plain(listed(v)),
        listed(v) == listed(w) ==> views(v) == views(w),
{
    lemma_listed_plain(v);
    if listed(v) == listed(w) {
        let a = listed(v)->Arr_0;
        let b = listed(w)->Arr_0;
        assert(a.len() == b.len());
        assert forall|i: int| 0 <= i < v.len() implies v[i]@ == w[i]@ by {
            assert(a[i] == JsonModel::Str(v[i]@));
            assert(b[i] == JsonModel::Str(w[i]@));
        }
        assert(views(v) =~= views(w));
    }
}

/// A configuration as a document tells its settings.
pub(crate) proof fn lemma_config_plain(a: Config, b: Config)
    ensures
        plain(a.document()),
        a.document() == b.document() ==> settings_of(a) == settings_of(b),
{
    let x = a.document()->Obj_0;
    let y = b.document()->Obj_0;
    assert forall|i: int| 0 <= i < x.len() implies plain((#[trigger] x[i]).1) by {
        assert(x.len() == 5);
    }
    if a.document() == b.document() {
        assert(x[0] == y[0] && x[1] == y[1] && x[2] == y[2] && x[3] == y[3] && x[4] == y[4]);
    }
}

proof fn lemma_direction_plain(d: DirectionResult)
    ensures
        plain(d.document()),
{
    let x = d.document()->Obj_0;
    assert forall|i: int| 0 <= i < d.intervals@.len() implies plain(
        (#[trigger] d.intervals@[i]).document(),
    ) by {
        lemma_interval_plain(d.intervals@[i]);
    }
    assert forall|i: int| 0 <= i < d.gaps@.len() implies plain(
        (#[trigger] d.gaps@[i]).document(),
    ) by {
        lemma_interval_plain(d.gaps@[i]);
    }
    assert forall|i: int| 0 <= i < d.retransmissions@.len() implies plain(
        (#[trigger] d.retransmissions@[i]).document(),
    ) by {
        lemma_frame_plain(d.retransmissions@[i]);
    }
    assert forall|i: int| 0 <= i < d.out_of_order@.len() implies plain(
        (#[trigger] d.out_of_order@[i]).document(),
    ) by {
        lemma_frame_plain(d.out_of_order@[i]);
    }
    assert forall|i: int| 0 <= i < d.overlaps@.len() implies plain(
        (#[trigger] d.overlaps@[i]).document(),
    ) by {
        lemma_overlap_plain(d.overlaps@[i]);
    }
    assert forall|i: int| 0 <= i < d.segments@.len() implies plain(
        (#[trigger] d.segments@[i]).document(),
    ) by {
        lemma_segment_plain(d.segments@[i]);
    }
    lemma_listed_plain(d.intervals@);
    lemma_listed_plain(d.gaps@);
    lemma_listed_plain(d.retransmissions@);
    lemma_listed_plain(d.out_of_order@);
    lemma_listed_plain(d.overlaps@);
    lemma_listed_plain(d.segments@);
    assert forall|i: int| 0 <= i < x.len() implies plain((#[trigger] x[i]).1) by {
        assert(x.len() == 11);
    }
}

proof fn lemma_interval_plain(d: Interval)
    ensures
        plain(d.document()),
{
    let x = d.document()->Obj_0;
    assert forall|i: int| 0 <= i < x.len() implies plain((#[trigger] x[i]).1) by {
        assert(x.len() == 4);
    }
}

proof fn lemma_frame_plain(d: FrameEv)
    ensures
        plain(d.document()),
{
    let x = d.document()->Obj_0;
    assert forall|i: int| 0 <= i < x.len() implies plain((#[trigger] x[i]).1) by {
        assert(x.len() == 3);
    }
}

proof fn lemma_overlap_plain(d: OverlapEv)
    ensures
        plain(d.document()),
{
    let x = d.document()->Obj_0;
    assert forall|i: int| 0 <= i < x.len() implies plain((#[trigger] x[i]).1) by {
        assert(x.len() == 7);
    }
}

proof fn lemma_segment_plain(d: SegInfo)
    ensures
        plain(d.document()),
{
    let x = d.document()->Obj_0;
    assert forall|i: int| 0 <= i < x.len() implies plain((#[trigger] x[i]).1) by {
        assert(x.len() == 6);
    }
}

proof fn lemma_session_plain(s: SessionResult)
    ensures
        plain(s.document()),
{
    let x = s.document()->Obj_0;
    assert forall|i: int| 0 <= i < s.directions@.len() implies plain(
        (#[trigger] s.directions@[i]).document(),
    ) by {
        lemma_direction_plain(s.directions@[i]);
    }
    lemma_listed_plain(s.directions@);
    lemma_listed_plain(s.frames@);
    assert forall|i: int| 0 <= i < x.len() implies plain((#[trigger] x[i]).1) by {
        assert(x.len() == 10);
    }
}

pub(crate) proof fn lemma_sessions_plain(v: Seq<SessionResult>)
    ensures
        plain(listed(v)),
{
    assert forall|i: int| 0 <= i < v.len() implies plain((#[trigger] v[i]).document()) by {
        lemma_session_plain(v[i]);
    }
    lemma_listed_plain(v);
}

} // verus!
