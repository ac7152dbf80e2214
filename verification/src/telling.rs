//! What documents tell: each value stands under its name.

use vstd::prelude::*;
use vstd::utf8::encode_utf8;
use crate::analysis::{
    count, tells_direction, tells_segment, tells_session, DirEvidence, Evidence, Policy, SegEvidence,
    SegKind, SessionEvidence, TrackedDirection, TrackedSession,
};
use crate::analyze::Config;
use crate::builder::{lemma_fields_cut, lemma_fields_go_on};
use crate::capture::item_loaded;
use crate::document::{listed, Document};
use crate::engine::{asked_policy, policy_pair, query_text};
use crate::http::{self, listed_json, made_json, AnalysisModel};
use crate::ipreasm::NoteModel;
use crate::json::{hex_decoded, written, JsonModel};
use crate::model::LinkType;
use crate::parse::{flag_names, joined};
use crate::seq::OverlapPolicy as TablePolicy;
use crate::server::{self, version_json};
use crate::session::{
    self, DirectionResult, FrameEv, Interval, OverlapEv, SegInfo, SessionResult,
};
use crate::storage::ArtifactModel;
use crate::store::{summarized, AnalysisMeta};
use crate::tcp::{DirModel, SegModel, SessionModel};
use crate::text::{fields, hex_of};
use crate::workbench::{
    direction_json, gap_json, note_json, run_json, segment_json, session_json, Run,
};

verus! {

/// A document tells a value under a name.
pub open spec fn says(m: JsonModel, name: Seq<char>, value: JsonModel) -> bool {
    m matches JsonModel::Obj(o) && o.contains((name, value))
}

/// A number, or nothing.
pub open spec fn number_or_none(n: Option<u32>) -> JsonModel {
    if n is Some {
        JsonModel::Num(n->0 as int)
    } else {
        JsonModel::Null
    }
}

/// A list tells its values one by one.
pub proof fn law_list_tells_each<T: Document>(v: Seq<T>, i: int)
    requires
        0 <= i < v.len(),
    ensures
        listed(v) matches JsonModel::Arr(a) && a.len() == v.len() && a[i] == v[i].document(),
{
}

/// An interval is told with each of its values under its name.
pub proof fn law_interval_is_told(x: Interval)
    ensures
        says(x.document(), "start_seq"@, JsonModel::Num(x.start_seq as int)),
        says(x.document(), "end_seq"@, JsonModel::Num(x.end_seq as int)),
        says(x.document(), "offset"@, JsonModel::Num(x.offset as int)),
        says(x.document(), "len"@, JsonModel::Num(x.len as int)),
{
    let o = x.document()->Obj_0;
    assert(o[0] == ("start_seq"@, JsonModel::Num(x.start_seq as int)));
    assert(o[1] == ("end_seq"@, JsonModel::Num(x.end_seq as int)));
    assert(o[2] == ("offset"@, JsonModel::Num(x.offset as int)));
    assert(o[3] == ("len"@, JsonModel::Num(x.len as int)));
}

/// A segment is told with each of its values under its name.
pub proof fn law_seg_info_is_told(x: SegInfo)
    ensures
        says(x.document(), "seq"@, JsonModel::Num(x.seq as int)),
        says(x.document(), "end_seq"@, JsonModel::Num(x.end_seq as int)),
        says(x.document(), "offset"@, JsonModel::Num(x.offset as int)),
        says(x.document(), "len"@, JsonModel::Num(x.len as int)),
        says(x.document(), "frame"@, JsonModel::Num(x.frame as int)),
        says(x.document(), "ts_ns"@, JsonModel::Num(x.ts_ns as int)),
{
    let o = x.document()->Obj_0;
    assert(o[0] == ("seq"@, JsonModel::Num(x.seq as int)));
    assert(o[1] == ("end_seq"@, JsonModel::Num(x.end_seq as int)));
    assert(o[2] == ("offset"@, JsonModel::Num(x.offset as int)));
    assert(o[3] == ("len"@, JsonModel::Num(x.len as int)));
    assert(o[4] == ("frame"@, JsonModel::Num(x.frame as int)));
    assert(o[5] == ("ts_ns"@, JsonModel::Num(x.ts_ns as int)));
}

/// A segment that came late or again is told with each of its values under its name.
pub proof fn law_frame_event_is_told(x: FrameEv)
    ensures
        says(x.document(), "seq"@, JsonModel::Num(x.seq as int)),
        says(x.document(), "len"@, JsonModel::Num(x.len as int)),
        says(x.document(), "frame"@, JsonModel::Num(x.frame as int)),
{
    let o = x.document()->Obj_0;
    assert(o[0] == ("seq"@, JsonModel::Num(x.seq as int)));
    assert(o[1] == ("len"@, JsonModel::Num(x.len as int)));
    assert(o[2] == ("frame"@, JsonModel::Num(x.frame as int)));
}

/// An overlap is told with each of its values under its name.
pub proof fn law_overlap_is_told(x: OverlapEv)
    ensures
        says(x.document(), "offset"@, JsonModel::Num(x.offset as int)),
        says(x.document(), "start_seq"@, JsonModel::Num(x.start_seq as int)),
        says(x.document(), "len"@, JsonModel::Num(x.len as int)),
        says(x.document(), "kept_frame"@, JsonModel::Num(x.kept_frame as int)),
        says(x.document(), "dropped_frame"@, JsonModel::Num(x.dropped_frame as int)),
        says(x.document(), "policy"@, JsonModel::Str(x.policy@)),
        says(x.document(), "dropped_bytes_hex"@, JsonModel::Str(x.dropped_bytes_hex@)),
{
    let o = x.document()->Obj_0;
    assert(o[0] == ("offset"@, JsonModel::Num(x.offset as int)));
    assert(o[1] == ("start_seq"@, JsonModel::Num(x.start_seq as int)));
    assert(o[2] == ("len"@, JsonModel::Num(x.len as int)));
    assert(o[3] == ("kept_frame"@, JsonModel::Num(x.kept_frame as int)));
    assert(o[4] == ("dropped_frame"@, JsonModel::Num(x.dropped_frame as int)));
    assert(o[5] == ("policy"@, JsonModel::Str(x.policy@)));
    assert(o[6] == ("dropped_bytes_hex"@, JsonModel::Str(x.dropped_bytes_hex@)));
}

/// A direction is told with each of its values under its name.
pub proof fn law_direction_is_told(x: DirectionResult)
    ensures
        says(x.document(), "isn"@, number_or_none(x.isn)),
        says(x.document(), "anchor_seq"@, number_or_none(x.anchor_seq)),
        says(x.document(), "byte_count"@, JsonModel::Num(x.byte_count as int)),
        says(x.document(), "payload_sha256"@, JsonModel::Str(x.payload_sha256@)),
        says(x.document(), "payload_file"@, JsonModel::Str(x.payload_file@)),
        says(x.document(), "intervals"@, listed(x.intervals@)),
        says(x.document(), "gaps"@, listed(x.gaps@)),
        says(x.document(), "retransmissions"@, listed(x.retransmissions@)),
        says(x.document(), "out_of_order"@, listed(x.out_of_order@)),
        says(x.document(), "overlaps"@, listed(x.overlaps@)),
        says(x.document(), "segments"@, listed(x.segments@)),
{
    let o = x.document()->Obj_0;
    assert(o[0] == ("isn"@, number_or_none(x.isn)));
    assert(o[1] == ("anchor_seq"@, number_or_none(x.anchor_seq)));
    assert(o[2] == ("byte_count"@, JsonModel::Num(x.byte_count as int)));
    assert(o[3] == ("payload_sha256"@, JsonModel::Str(x.payload_sha256@)));
    assert(o[4] == ("payload_file"@, JsonModel::Str(x.payload_file@)));
    assert(o[5] == ("intervals"@, listed(x.intervals@)));
    assert(o[6] == ("gaps"@, listed(x.gaps@)));
    assert(o[7] == ("retransmissions"@, listed(x.retransmissions@)));
    assert(o[8] == ("out_of_order"@, listed(x.out_of_order@)));
    assert(o[9] == ("overlaps"@, listed(x.overlaps@)));
    assert(o[10] == ("segments"@, listed(x.segments@)));
}

/// A session is told with each of its values under its name.
pub proof fn law_session_is_told(x: SessionResult)
    ensures
        says(x.document(), "id"@, JsonModel::Num(x.id as int)),
        says(x.document(), "endpoint_a"@, JsonModel::Str(x.endpoint_a@)),
        says(x.document(), "endpoint_b"@, JsonModel::Str(x.endpoint_b@)),
        says(x.document(), "generation"@, JsonModel::Num(x.generation as int)),
        says(x.document(), "partial"@, JsonModel::Bool(x.partial)),
        says(x.document(), "close_reason"@, JsonModel::Str(x.close_reason@)),
        says(x.document(), "first_ts_ns"@, JsonModel::Num(x.first_ts_ns as int)),
        says(x.document(), "last_ts_ns"@, JsonModel::Num(x.last_ts_ns as int)),
        says(x.document(), "frames"@, listed(x.frames@)),
        says(x.document(), "directions"@, listed(x.directions@)),
{
    let o = x.document()->Obj_0;
    assert(o[0] == ("id"@, JsonModel::Num(x.id as int)));
    assert(o[1] == ("endpoint_a"@, JsonModel::Str(x.endpoint_a@)));
    assert(o[2] == ("endpoint_b"@, JsonModel::Str(x.endpoint_b@)));
    assert(o[3] == ("generation"@, JsonModel::Num(x.generation as int)));
    assert(o[4] == ("partial"@, JsonModel::Bool(x.partial)));
    assert(o[5] == ("close_reason"@, JsonModel::Str(x.close_reason@)));
    assert(o[6] == ("first_ts_ns"@, JsonModel::Num(x.first_ts_ns as int)));
    assert(o[7] == ("last_ts_ns"@, JsonModel::Num(x.last_ts_ns as int)));
    assert(o[8] == ("frames"@, listed(x.frames@)));
    assert(o[9] == ("directions"@, listed(x.directions@)));
}

/// A configuration is told with each of its values under its name.
pub proof fn law_config_is_told(x: Config)
    ensures
        says(x.document(), "overlap"@, JsonModel::Str(x.overlap@)),
        says(x.document(), "session_timeout_ns"@, JsonModel::Num(x.session_timeout_ns as int)),
        says(x.document(), "frag_max_datagram_bytes"@, JsonModel::Num(x.frag_max_datagram_bytes as int)),
        says(x.document(), "frag_max_fragments"@, JsonModel::Num(x.frag_max_fragments as int)),
        says(x.document(), "frag_timeout_ns"@, JsonModel::Num(x.frag_timeout_ns as int)),
{
    let o = x.document()->Obj_0;
    assert(o[0] == ("overlap"@, JsonModel::Str(x.overlap@)));
    assert(o[1] == ("session_timeout_ns"@, JsonModel::Num(x.session_timeout_ns as int)));
    assert(o[2] == ("frag_max_datagram_bytes"@, JsonModel::Num(x.frag_max_datagram_bytes as int)));
    assert(o[3] == ("frag_max_fragments"@, JsonModel::Num(x.frag_max_fragments as int)));
    assert(o[4] == ("frag_timeout_ns"@, JsonModel::Num(x.frag_timeout_ns as int)));
}

/// The evidence on a segment is told with each of its values under its name.
pub proof fn law_seg_evidence_is_told(x: SegEvidence)
    ensures
        says(x.document(), "frame"@, JsonModel::Num(x.frame as int)),
        says(x.document(), "ts_ns"@, JsonModel::Num(x.ts_ns as int)),
        says(x.document(), "seq"@, JsonModel::Num(x.seq as int)),
        says(x.document(), "start"@, JsonModel::Num(x.start as int)),
        says(x.document(), "end"@, JsonModel::Num(x.end as int)),
        says(x.document(), "len"@, JsonModel::Num(x.len as int)),
        says(x.document(), "flags"@, JsonModel::Str(x.flags@)),
{
    let o = x.document()->Obj_0;
    assert(o[0] == ("frame"@, JsonModel::Num(x.frame as int)));
    assert(o[1] == ("ts_ns"@, JsonModel::Num(x.ts_ns as int)));
    assert(o[2] == ("seq"@, JsonModel::Num(x.seq as int)));
    assert(o[3] == ("start"@, JsonModel::Num(x.start as int)));
    assert(o[4] == ("end"@, JsonModel::Num(x.end as int)));
    assert(o[5] == ("len"@, JsonModel::Num(x.len as int)));
    assert(o[6] == ("flags"@, JsonModel::Str(x.flags@)));
}

/// The evidence on a direction is told with each of its values under its name.
pub proof fn law_dir_evidence_is_told(x: DirEvidence)
    ensures
        says(x.document(), "name"@, JsonModel::Str(x.name@)),
        says(x.document(), "isn"@, number_or_none(x.isn)),
        says(x.document(), "base"@, number_or_none(x.base)),
        says(x.document(), "segments"@, listed(x.segments@)),
        says(x.document(), "coverage"@, listed(x.coverage@)),
        says(x.document(), "gaps"@, listed(x.gaps@)),
        says(x.document(), "overwritten"@, listed(x.overwritten@)),
        says(x.document(), "retransmissions"@, JsonModel::Num(x.retransmissions as int)),
        says(x.document(), "out_of_order"@, JsonModel::Num(x.out_of_order as int)),
        says(x.document(), "overlaps"@, JsonModel::Num(x.overlaps as int)),
        says(x.document(), "reassembled_len"@, JsonModel::Num(x.reassembled_len as int)),
        says(x.document(), "reassembled_sha256"@, JsonModel::Str(x.reassembled_sha256@)),
{
    let o = x.document()->Obj_0;
    assert(o[0] == ("name"@, JsonModel::Str(x.name@)));
    assert(o[1] == ("isn"@, number_or_none(x.isn)));
    assert(o[2] == ("base"@, number_or_none(x.base)));
    assert(o[3] == ("segments"@, listed(x.segments@)));
    assert(o[4] == ("coverage"@, listed(x.coverage@)));
    assert(o[5] == ("gaps"@, listed(x.gaps@)));
    assert(o[6] == ("overwritten"@, listed(x.overwritten@)));
    assert(o[7] == ("retransmissions"@, JsonModel::Num(x.retransmissions as int)));
    assert(o[8] == ("out_of_order"@, JsonModel::Num(x.out_of_order as int)));
    assert(o[9] == ("overlaps"@, JsonModel::Num(x.overlaps as int)));
    assert(o[10] == ("reassembled_len"@, JsonModel::Num(x.reassembled_len as int)));
    assert(o[11] == ("reassembled_sha256"@, JsonModel::Str(x.reassembled_sha256@)));
}

/// The evidence on a session is told with each of its values under its name.
pub proof fn law_session_evidence_is_told(x: SessionEvidence)
    ensures
        says(x.document(), "id"@, JsonModel::Num(x.id as int)),
        says(x.document(), "generation"@, JsonModel::Num(x.generation as int)),
        says(x.document(), "partial"@, JsonModel::Bool(x.partial)),
        says(x.document(), "state"@, JsonModel::Str(x.state@)),
        says(x.document(), "first_ts_ns"@, JsonModel::Num(x.first_ts_ns as int)),
        says(x.document(), "last_ts_ns"@, JsonModel::Num(x.last_ts_ns as int)),
        says(x.document(), "directions"@, listed(x.directions@)),
        says(x.document(), "post_close"@, listed(x.post_close@)),
{
    let o = x.document()->Obj_0;
    assert(o[0] == ("id"@, JsonModel::Num(x.id as int)));
    assert(o[1] == ("generation"@, JsonModel::Num(x.generation as int)));
    assert(o[2] == ("partial"@, JsonModel::Bool(x.partial)));
    assert(o[3] == ("state"@, JsonModel::Str(x.state@)));
    assert(o[5] == ("first_ts_ns"@, JsonModel::Num(x.first_ts_ns as int)));
    assert(o[6] == ("last_ts_ns"@, JsonModel::Num(x.last_ts_ns as int)));
    assert(o[7] == ("directions"@, listed(x.directions@)));
    assert(o[8] == ("post_close"@, listed(x.post_close@)));
}

/// A policy is told with each of its values under its name.
pub proof fn law_policy_is_told(x: Policy)
    ensures
        says(x.document(), "overlap"@, JsonModel::Str(x.overlap.name())),
        says(x.document(), "timeout_ns"@, JsonModel::Num(x.timeout_ns as int)),
        says(x.document(), "frag_per_datagram_budget"@, JsonModel::Num(x.frag_per_datagram_budget as int)),
        says(x.document(), "frag_total_budget"@, JsonModel::Num(x.frag_total_budget as int)),
{
    let o = x.document()->Obj_0;
    assert(o[0] == ("overlap"@, JsonModel::Str(x.overlap.name())));
    assert(o[1] == ("timeout_ns"@, JsonModel::Num(x.timeout_ns as int)));
    assert(o[2] == ("frag_per_datagram_budget"@, JsonModel::Num(x.frag_per_datagram_budget as int)));
    assert(o[3] == ("frag_total_budget"@, JsonModel::Num(x.frag_total_budget as int)));
}

/// The evidence of an analysis is told with each of its values under its name.
pub proof fn law_evidence_is_told(x: Evidence)
    ensures
        says(x.document(), "input_hash"@, JsonModel::Str(x.input_hash@)),
        says(x.document(), "policy"@, x.policy.document()),
        says(x.document(), "sessions"@, listed(x.sessions@)),
        says(x.document(), "isolated_datagrams"@, listed(x.isolated_datagrams@)),
{
    let o = x.document()->Obj_0;
    assert(o[0] == ("input_hash"@, JsonModel::Str(x.input_hash@)));
    assert(o[1] == ("policy"@, x.policy.document()));
    assert(o[2] == ("sessions"@, listed(x.sessions@)));
    assert(o[3] == ("isolated_datagrams"@, listed(x.isolated_datagrams@)));
}

/// A run of bytes of one frame is told with each of its values under its name.
pub proof fn law_run_is_told(x: Run, hashes: Seq<Seq<char>>)
    ensures
        says(run_json(x, hashes), "begin"@, JsonModel::Num(x.begin as int)),
        says(run_json(x, hashes), "end"@, JsonModel::Num(x.end as int)),
        says(run_json(x, hashes), "frame"@, JsonModel::Num(x.frame as int)),
{
    let o = run_json(x, hashes)->Obj_0;
    assert(o[0] == ("begin"@, JsonModel::Num(x.begin as int)));
    assert(o[1] == ("end"@, JsonModel::Num(x.end as int)));
    assert(o[2] == ("frame"@, JsonModel::Num(x.frame as int)));
}

/// A gap is told with each of its values under its name.
pub proof fn law_gap_is_told(x: (u8, i64, i64))
    ensures
        says(gap_json(x), "direction"@, JsonModel::Num(x.0 as int)),
        says(gap_json(x), "begin"@, JsonModel::Num(x.1 as int)),
        says(gap_json(x), "end"@, JsonModel::Num(x.2 as int)),
{
    let o = gap_json(x)->Obj_0;
    assert(o[0] == ("direction"@, JsonModel::Num(x.0 as int)));
    assert(o[1] == ("begin"@, JsonModel::Num(x.1 as int)));
    assert(o[2] == ("end"@, JsonModel::Num(x.2 as int)));
}

/// A note on fragments is told with each of its values under its name.
pub proof fn law_note_is_told(x: NoteModel)
    ensures
        says(note_json(x), "reason"@, JsonModel::Str(x.reason)),
        says(note_json(x), "frame"@, JsonModel::Num(x.frame_idx as int)),
        says(note_json(x), "datagram"@, JsonModel::Str(x.key)),
{
    let o = note_json(x)->Obj_0;
    assert(o[0] == ("reason"@, JsonModel::Str(x.reason)));
    assert(o[1] == ("frame"@, JsonModel::Num(x.frame_idx as int)));
    assert(o[2] == ("datagram"@, JsonModel::Str(x.key)));
}

/// A segment of a session is told with each of its values under its name.
pub proof fn law_tracked_segment_is_told(x: SegModel, hashes: Seq<Seq<char>>, bytes: bool)
    ensures
        says(segment_json(x, hashes, bytes), "frame"@, JsonModel::Num(x.frame_idx as int)),
        says(segment_json(x, hashes, bytes), "direction"@, JsonModel::Num(x.dir as int)),
        says(segment_json(x, hashes, bytes), "seq"@, JsonModel::Num(x.seq_abs as int)),
        says(segment_json(x, hashes, bytes), "begin"@, JsonModel::Num(x.begin as int)),
        says(segment_json(x, hashes, bytes), "end"@, JsonModel::Num(x.end as int)),
        says(segment_json(x, hashes, bytes), "length"@, JsonModel::Num(x.len as int)),
        says(segment_json(x, hashes, bytes), "flags"@, JsonModel::Num(x.flags as int)),
        says(segment_json(x, hashes, bytes), "ts_us"@, JsonModel::Num(x.ts_us as int)),
        says(segment_json(x, hashes, bytes), "relation"@, JsonModel::Str(x.relation)),
        says(segment_json(x, hashes, bytes), "overwritten"@, JsonModel::Num(x.overwritten as int)),
        says(segment_json(x, hashes, bytes), "conflict"@, JsonModel::Bool(x.conflict)),
{
    let o = segment_json(x, hashes, bytes)->Obj_0;
    assert(o[0] == ("frame"@, JsonModel::Num(x.frame_idx as int)));
    assert(o[2] == ("direction"@, JsonModel::Num(x.dir as int)));
    assert(o[3] == ("seq"@, JsonModel::Num(x.seq_abs as int)));
    assert(o[4] == ("begin"@, JsonModel::Num(x.begin as int)));
    assert(o[5] == ("end"@, JsonModel::Num(x.end as int)));
    assert(o[6] == ("length"@, JsonModel::Num(x.len as int)));
    assert(o[7] == ("flags"@, JsonModel::Num(x.flags as int)));
    assert(o[8] == ("ts_us"@, JsonModel::Num(x.ts_us as int)));
    assert(o[9] == ("relation"@, JsonModel::Str(x.relation)));
    assert(o[10] == ("overwritten"@, JsonModel::Num(x.overwritten as int)));
    assert(o[11] == ("conflict"@, JsonModel::Bool(x.conflict)));
}

/// A session of an analysis is told with each of its values under its name.
pub proof fn law_tracked_session_is_told(x: SessionModel, gaps: Seq<(u8, i64, i64)>, hashes: Seq<Seq<char>>, bytes: bool)
    ensures
        says(session_json(x, gaps, hashes, bytes), "id"@, JsonModel::Str(x.id)),
        says(session_json(x, gaps, hashes, bytes), "generation"@, JsonModel::Num(x.gen as int)),
        says(session_json(x, gaps, hashes, bytes), "four_tuple"@, JsonModel::Str(x.key)),
        says(session_json(x, gaps, hashes, bytes), "ip_version"@, JsonModel::Num(x.ip_version as int)),
        says(session_json(x, gaps, hashes, bytes), "state"@, JsonModel::Str(x.state)),
        says(session_json(x, gaps, hashes, bytes), "close_reason"@, JsonModel::Str(x.close_reason)),
        says(session_json(x, gaps, hashes, bytes), "handshake"@, JsonModel::Str(x.handshake)),
        says(session_json(x, gaps, hashes, bytes), "started_mid_capture"@, JsonModel::Bool(x.mid_capture)),
        says(session_json(x, gaps, hashes, bytes), "start_frame"@, JsonModel::Num(x.start_frame as int)),
        says(session_json(x, gaps, hashes, bytes), "end_frame"@, JsonModel::Num(x.end_frame as int)),
{
    let o = session_json(x, gaps, hashes, bytes)->Obj_0;
    assert(o[0] == ("id"@, JsonModel::Str(x.id)));
    assert(o[1] == ("generation"@, JsonModel::Num(x.gen as int)));
    assert(o[2] == ("four_tuple"@, JsonModel::Str(x.key)));
    assert(o[3] == ("ip_version"@, JsonModel::Num(x.ip_version as int)));
    assert(o[4] == ("state"@, JsonModel::Str(x.state)));
    assert(o[5] == ("close_reason"@, JsonModel::Str(x.close_reason)));
    assert(o[6] == ("handshake"@, JsonModel::Str(x.handshake)));
    assert(o[7] == ("started_mid_capture"@, JsonModel::Bool(x.mid_capture)));
    assert(o[8] == ("start_frame"@, JsonModel::Num(x.start_frame as int)));
    assert(o[9] == ("end_frame"@, JsonModel::Num(x.end_frame as int)));
}

/// A direction of an analysis is told with each of its values under its name.
pub proof fn law_tracked_direction_is_told(x: DirModel, hashes: Seq<Seq<char>>, bytes: bool)
    ensures
        says(direction_json(x, hashes, bytes), "base_from_syn"@, JsonModel::Bool(x.base_syn)),
        says(direction_json(x, hashes, bytes), "frontier"@, JsonModel::Num(x.frontier() as int)),
        says(direction_json(x, hashes, bytes), "max_end"@, JsonModel::Num(x.max_end as int)),
        says(direction_json(x, hashes, bytes), "fin_seen"@, JsonModel::Bool(x.fin)),
        says(direction_json(x, hashes, bytes), "rst_seen"@, JsonModel::Bool(x.rst)),
        says(direction_json(x, hashes, bytes), "retransmissions"@, JsonModel::Num(x.retrans as int)),
        says(direction_json(x, hashes, bytes), "out_of_order_segments"@, JsonModel::Num(x.out_of_order as int)),
        says(direction_json(x, hashes, bytes), "overlaps"@, JsonModel::Num(x.overlap_events as int)),
{
    let o = direction_json(x, hashes, bytes)->Obj_0;
    assert(o[2] == ("base_from_syn"@, JsonModel::Bool(x.base_syn)));
    assert(o[3] == ("frontier"@, JsonModel::Num(x.frontier() as int)));
    assert(o[4] == ("max_end"@, JsonModel::Num(x.max_end as int)));
    assert(o[5] == ("fin_seen"@, JsonModel::Bool(x.fin)));
    assert(o[6] == ("rst_seen"@, JsonModel::Bool(x.rst)));
    assert(o[7] == ("retransmissions"@, JsonModel::Num(x.retrans as int)));
    assert(o[8] == ("out_of_order_segments"@, JsonModel::Num(x.out_of_order as int)));
    assert(o[9] == ("overlaps"@, JsonModel::Num(x.overlap_events as int)));
}

/// An analysis that was made is told with each of its values under its name.
pub proof fn law_made_analysis_is_told(x: AnalysisModel)
    ensures
        says(made_json(x), "analysis_id"@, JsonModel::Str(x.id)),
        says(made_json(x), "corpus_id"@, JsonModel::Str(x.corpus_id)),
        says(made_json(x), "fingerprint"@, JsonModel::Str(x.fingerprint)),
        says(made_json(x), "session_count"@, JsonModel::Num(x.session_count as int)),
{
    let o = made_json(x)->Obj_0;
    assert(o[0] == ("analysis_id"@, JsonModel::Str(x.id)));
    assert(o[1] == ("corpus_id"@, JsonModel::Str(x.corpus_id)));
    assert(o[2] == ("fingerprint"@, JsonModel::Str(x.fingerprint)));
    assert(o[3] == ("session_count"@, JsonModel::Num(x.session_count as int)));
}

/// An analysis in a list is told with each of its values under its name.
pub proof fn law_listed_analysis_is_told(x: AnalysisModel)
    ensures
        says(listed_json(x), "id"@, JsonModel::Str(x.id)),
        says(listed_json(x), "corpus_id"@, JsonModel::Str(x.corpus_id)),
        says(listed_json(x), "fingerprint"@, JsonModel::Str(x.fingerprint)),
        says(listed_json(x), "created_at_ns"@, JsonModel::Num(x.created_at_ns as int)),
        says(listed_json(x), "policy"@, JsonModel::Str(x.policy)),
        says(listed_json(x), "session_count"@, JsonModel::Num(x.session_count as int)),
{
    let o = listed_json(x)->Obj_0;
    assert(o[0] == ("id"@, JsonModel::Str(x.id)));
    assert(o[1] == ("corpus_id"@, JsonModel::Str(x.corpus_id)));
    assert(o[2] == ("fingerprint"@, JsonModel::Str(x.fingerprint)));
    assert(o[3] == ("created_at_ns"@, JsonModel::Num(x.created_at_ns as int)));
    assert(o[4] == ("policy"@, JsonModel::Str(x.policy)));
    assert(o[5] == ("session_count"@, JsonModel::Num(x.session_count as int)));
}

/// A version is told with each of its values under its name.
pub proof fn law_version_is_told(x: ArtifactModel)
    ensures
        says(version_json(x), "version_id"@, JsonModel::Str(x.id)),
        says(version_json(x), "created_ts_us"@, JsonModel::Num(x.created_ts_us as int)),
        says(version_json(x), "input_sha256"@, JsonModel::Str(x.input_sha)),
        says(version_json(x), "overlap_policy"@, JsonModel::Str(x.policy)),
        says(version_json(x), "timeout_us"@, JsonModel::Num(x.timeout_us as int)),
        says(version_json(x), "result_sha256"@, JsonModel::Str(x.result_sha)),
        says(version_json(x), "fingerprint"@, JsonModel::Str(x.fingerprint)),
{
    let o = version_json(x)->Obj_0;
    assert(o[0] == ("version_id"@, JsonModel::Str(x.id)));
    assert(o[1] == ("created_ts_us"@, JsonModel::Num(x.created_ts_us as int)));
    assert(o[2] == ("input_sha256"@, JsonModel::Str(x.input_sha)));
    assert(o[3] == ("overlap_policy"@, JsonModel::Str(x.policy)));
    assert(o[4] == ("timeout_us"@, JsonModel::Num(x.timeout_us as int)));
    assert(o[5] == ("result_sha256"@, JsonModel::Str(x.result_sha)));
    assert(o[6] == ("fingerprint"@, JsonModel::Str(x.fingerprint)));
}

/// A name stands among the names of flags.
pub open spec fn named(s: Seq<char>, name: Seq<char>) -> bool {
    s.len() > 0 && fields(s, '+').contains(name)
}

proof fn lemma_joined(s: Seq<char>, on: bool, name: Seq<char>, w: Seq<char>)
    requires
        name.len() > 0,
        forall|i: int| 0 <= i < name.len() ==> #[trigger] name[i] != '+',
    ensures
        named(joined(s, on, name), w) == (named(s, w) || (on && w == name)),
{
    reveal_strlit("+");
    if on {
        let e = Seq::<char>::empty();
        if s.len() == 0 {
            lemma_fields_go_on(e, name, '+');
            assert(e + name =~= name);
            assert(fields(e, '+') =~= seq![e]);
            assert(fields(name, '+') =~= seq![name]);
            assert(seq![name][0] == name);
        } else {
            lemma_fields_cut(s, name, '+');
            assert(s + "+"@ + name =~= s + seq!['+'] + name);
            let f = fields(s, '+');
            let g = f.push(name);
            assert(g[f.len() as int] == name);
            if f.contains(w) {
                let i = choose|i: int| 0 <= i < f.len() && f[i] == w;
                assert(g[i] == w);
            }
            if g.contains(w) && w != name {
                let i = choose|i: int| 0 <= i < g.len() && g[i] == w;
                assert(f[i] == w);
            }
        }
    }
}

/// The names of the flags of a segment are those of the bits that are set.
pub proof fn law_flag_names_tell_the_bits(flags: u8)
    ensures
        named(flag_names(flags), "SYN"@) == (flags & 0x02 != 0),
        named(flag_names(flags), "FIN"@) == (flags & 0x01 != 0),
        named(flag_names(flags), "RST"@) == (flags & 0x04 != 0),
        named(flag_names(flags), "PSH"@) == (flags & 0x08 != 0),
        named(flag_names(flags), "ACK"@) == (flags & 0x10 != 0),
        named(flag_names(flags), "URG"@) == (flags & 0x20 != 0),
{
    reveal_strlit("SYN");
    reveal_strlit("FIN");
    reveal_strlit("RST");
    reveal_strlit("PSH");
    reveal_strlit("ACK");
    reveal_strlit("URG");
    assert("SYN"@[0] == 'S' && "FIN"@[0] == 'F' && "RST"@[0] == 'R');
    assert("PSH"@[0] == 'P' && "ACK"@[0] == 'A' && "URG"@[0] == 'U');
    lemma_flag(flags, "SYN"@);
    lemma_flag(flags, "FIN"@);
    lemma_flag(flags, "RST"@);
    lemma_flag(flags, "PSH"@);
    lemma_flag(flags, "ACK"@);
    lemma_flag(flags, "URG"@);
}

proof fn lemma_flag(flags: u8, w: Seq<char>)
    ensures
        named(flag_names(flags), w) == {
            ||| flags & 0x02 != 0 && w == "SYN"@
            ||| flags & 0x01 != 0 && w == "FIN"@
            ||| flags & 0x04 != 0 && w == "RST"@
            ||| flags & 0x08 != 0 && w == "PSH"@
            ||| flags & 0x10 != 0 && w == "ACK"@
            ||| flags & 0x20 != 0 && w == "URG"@
        },
{
    reveal_strlit("SYN");
    reveal_strlit("FIN");
    reveal_strlit("RST");
    reveal_strlit("PSH");
    reveal_strlit("ACK");
    reveal_strlit("URG");
    let s0 = Seq::<char>::empty();
    let s1 = joined(s0, flags & 0x02 != 0, "SYN"@);
    let s2 = joined(s1, flags & 0x01 != 0, "FIN"@);
    let s3 = joined(s2, flags & 0x04 != 0, "RST"@);
    let s4 = joined(s3, flags & 0x08 != 0, "PSH"@);
    let s5 = joined(s4, flags & 0x10 != 0, "ACK"@);
    lemma_joined(s0, flags & 0x02 != 0, "SYN"@, w);
    lemma_joined(s1, flags & 0x01 != 0, "FIN"@, w);
    lemma_joined(s2, flags & 0x04 != 0, "RST"@, w);
    lemma_joined(s3, flags & 0x08 != 0, "PSH"@, w);
    lemma_joined(s4, flags & 0x10 != 0, "ACK"@, w);
    lemma_joined(s5, flags & 0x20 != 0, "URG"@, w);
}

/// A listed analysis tells what is kept of it, and how many frames and sessions it has.
pub proof fn law_summary_tells_the_analysis(
    m: AnalysisMeta,
    fingerprint: Option<Seq<char>>,
    sessions: Option<nat>,
)
    ensures
        ({
            let s = summarized(m, fingerprint, sessions);
            &&& s.id == m.id@
            &&& s.name == m.name@
            &&& s.policy == m.config.overlap@
            &&& s.frame_count == m.frame_hashes@.len()
            &&& s.created_unix == m.created_unix
            &&& sessions matches Some(n) ==> s.session_count == n
            &&& sessions is None ==> s.session_count == 0
            &&& fingerprint matches Some(t) ==> s.fingerprint == t
            &&& fingerprint is None ==> s.fingerprint.len() == 0
        }),
{
}

/// A frame of a fixture is its bytes with the time that it states; one without a time has
/// its number for one, and one without a length on the wire that of its bytes.
pub proof fn law_item_is_loaded(f: JsonModel, i: int, text: Seq<char>, bytes: Seq<u8>)
    requires
        f.field("data"@) == Some(JsonModel::Str(text)),
        hex_decoded(text) == Ok::<Seq<u8>, Seq<char>>(bytes),
    ensures
        item_loaded(f, i) matches Ok(s) && {
            &&& s.bytes == bytes
            &&& s.orig_len >= bytes.len()
            &&& f.u64_field("orig_len"@) is None ==> s.orig_len == bytes.len()
            &&& f.field("ts_us"@) matches Some(JsonModel::Num(n)) ==> s.ts_us == n
            &&& f.field("ts_us"@) is None && f.field("ts"@) is None ==> s.ts_us == i
        },
{
}

/// An answer carries the text that it is made of, with the status that goes with it.
pub proof fn law_answers_carry_their_text(status: u16, message: Seq<char>, m: JsonModel)
    ensures
        http::error_answer(status, message).status == status,
        http::error_answer(status, message).body == encode_utf8(message),
        http::error_answer(status, message).download is None,
        http::json_answer(m).status == 200,
        http::json_answer(m).body == encode_utf8(written(m, None)),
        server::json_answer(status, message).status == status,
        server::json_answer(status, message).body == encode_utf8(message),
        server::error_answer(status, message).status == status,
        says(server::error_json(message), "error"@, JsonModel::Str(message)),
{
    assert(server::error_json(message)->Obj_0[0] == ("error"@, JsonModel::Str(message)));
}

/// The result on a direction tells what was found of it.
pub proof fn law_direction_tells_what_was_found(
    r: DirectionResult,
    m: session::DirModel,
    file: Seq<char>,
    i: int,
)
    requires
        r.says(m, file),
    ensures
        r.isn == m.isn,
        r.anchor_seq == m.anchor,
        r.payload_file@ == file,
        r.segments@ == m.segments,
        r.overlaps@.len() == m.overlaps.len(),
        0 <= i < m.overlaps.len() ==> {
            let x = r.overlaps@[i];
            &&& x.offset == m.overlaps[i].offset
            &&& x.start_seq == m.overlaps[i].start_seq
            &&& x.len == m.overlaps[i].len
            &&& x.kept_frame == m.overlaps[i].kept_frame
            &&& x.dropped_frame == m.overlaps[i].dropped_frame
            &&& x.dropped_bytes_hex@ == hex_of(m.overlaps[i].dropped)
        },
{
    if 0 <= i < m.overlaps.len() {
        assert(r.overlaps@[i].says(m.overlaps[i]));
    }
}

/// A finished session tells its endpoints, its end and its events, one by one.
pub proof fn law_session_tells_what_was_found(
    f: session::FinishedSession,
    id: int,
    m: session::DoneModel,
    i: int,
)
    requires
        f.says(id, m),
    ensures
        f.result.id == id,
        f.result.endpoint_a@ == m.key.a.text(),
        f.result.endpoint_b@ == m.key.b.text(),
        f.result.close_reason@ == m.close_reason,
        f.result.first_ts_ns == m.first_ts,
        f.result.last_ts_ns == m.last_ts,
        f.events@.len() == m.events.len(),
        0 <= i < m.events.len() ==> {
            let e = f.events@[i];
            &&& e.session == id
            &&& e.generation == m.generation
            &&& e.frame == m.events[i].frame
            &&& m.events[i].detail matches session::DetailModel::Closed { reason } ==> (
            e.detail matches session::EventDetail::Closed { reason: r } && r@ == reason)
            &&& m.events[i].detail matches session::DetailModel::Opened { partial } ==> (
            e.detail matches session::EventDetail::Opened { partial: p } && p == partial)
            &&& m.events[i].detail matches session::DetailModel::SynRetransmission {
                direction,
                seq,
            } ==> (e.detail matches session::EventDetail::SynRetransmission {
                direction: d,
                seq: q,
            } && d == direction && q == seq)
        },
{
    if 0 <= i < m.events.len() {
        assert(f.events@[i].says(id, m.generation, m.events[i]));
    }
}

/// The evidence on a direction tells each of its segments, with where it starts and ends,
/// and counts its events.
pub proof fn law_evidence_tells_the_direction(
    e: DirEvidence,
    d: TrackedDirection,
    n: int,
    i: int,
)
    requires
        tells_direction(e, d, n),
    ensures
        n == 0 ==> e.name@ == "a->b"@,
        n == 1 ==> e.name@ == "b->a"@,
        e.isn == d.isn,
        e.base == d.base,
        e.coverage == d.coverage,
        e.gaps == d.gaps,
        e.overwritten == d.overwritten,
        e.retransmissions == count(d.events@, SegKind::Retransmit),
        e.out_of_order == count(d.events@, SegKind::OutOfOrder),
        e.overlaps == count(d.events@, SegKind::Overlap),
        e.segments@.len() == d.segments@.len(),
        0 <= i < d.segments@.len() ==> {
            let (x, s) = (e.segments@[i], d.segments@[i]);
            &&& x.frame == s.frame
            &&& x.ts_ns == s.ts_ns
            &&& x.seq == s.seq
            &&& x.start == s.start
            &&& x.end - x.start == s.len
            &&& x.len == s.len
            &&& x.flags@ == s.flags@
        },
{
    if 0 <= i < d.segments@.len() {
        assert(tells_segment(e.segments@[i], d.segments@[i], d.events@));
    }
}

/// The evidence on a session tells its number, its times and whether it is closed, and why.
pub proof fn law_evidence_tells_the_session(e: SessionEvidence, s: TrackedSession)
    requires
        tells_session(e, s),
    ensures
        e.id == s.id,
        e.generation == s.generation,
        e.partial == s.partial,
        e.endpoints == s.endpoints,
        e.first_ts_ns == s.first_ts_ns,
        e.last_ts_ns == s.last_ts_ns,
        e.post_close == s.post_close,
        e.directions@.len() == s.dirs@.len(),
        s.closed is None ==> e.state@ == "open"@,
        s.closed matches Some(r) ==> e.state@ == "closed:"@ + r@,
{
}

/// The name of a policy stands for that policy, wherever it is read.
pub proof fn law_policy_names_read_back(p: session::OverlapPolicy, q: TablePolicy, l: LinkType)
    ensures
        session::OverlapPolicy::named(p.name()) == Some(p),
        TablePolicy::named(q.name()) == Some(q),
        LinkType::named(l.text()) == Some(l),
{
    reveal_strlit("first_seen");
    reveal_strlit("last_seen");
    reveal_strlit("first-seen");
    reveal_strlit("last-seen");
    reveal_strlit("first");
    reveal_strlit("last");
    reveal_strlit("eth");
    reveal_strlit("raw");
    reveal_strlit("ethernet");
    assert("ethernet"@[0] == 'e');
    assert("first_seen"@[0] == 'f' && "first-seen"@[0] == 'f' && "first"@[0] == 'f');
    assert("last_seen"@[0] == 'l' && "last-seen"@[0] == 'l' && "last"@[0] == 'l');
    assert("eth"@[0] == 'e' && "raw"@[0] == 'r');
}

/// The policy that a query asks for is that of its first pair that names one.
pub proof fn law_first_policy_counts(pairs: Seq<Seq<char>>, raw: Seq<char>, i: int)
    requires
        0 <= i < pairs.len(),
        pairs[i] == "policy="@ + raw || pairs[i] == "overlap_policy="@ + raw,
        forall|j: int| 0 <= j < i ==> policy_pair(#[trigger] pairs[j]) is None,
    ensures
        query_text(raw) == "last-seen"@ ==> asked_policy(pairs, 0) == Ok::<
            Option<TablePolicy>,
            Seq<char>,
        >(Some(TablePolicy::LastSeen)),
        query_text(raw) == "first-seen"@ ==> asked_policy(pairs, 0) == Ok::<
            Option<TablePolicy>,
            Seq<char>,
        >(Some(TablePolicy::FirstSeen)),
        TablePolicy::named(query_text(raw)) is None ==> asked_policy(pairs, 0) == Err::<
            Option<TablePolicy>,
            Seq<char>,
        >(query_text(raw)),
{
    reveal_strlit("policy=");
    reveal_strlit("overlap_policy=");
    reveal_strlit("first-seen");
    reveal_strlit("last-seen");
    reveal_strlit("first");
    reveal_strlit("last");
    assert("first-seen"@[0] == 'f' && "first"@[0] == 'f' && "last-seen"@[0] == 'l' && "last"@[0]
        == 'l');
    let p = pairs[i];
    if p == "policy="@ + raw {
        assert(p.take("policy="@.len() as int) =~= "policy="@);
        assert(p.skip("policy="@.len() as int) =~= raw);
    } else {
        assert(p[0] == 'o');
        assert(p.take("policy="@.len() as int)[0] == 'o');
        assert("policy="@[0] == 'p');
        assert(p.take("overlap_policy="@.len() as int) =~= "overlap_policy="@);
        assert(p.skip("overlap_policy="@.len() as int) =~= raw);
    }
    assert(policy_pair(p) == Some(raw));
    lemma_asked(pairs, 0, i);
}

proof fn lemma_asked(pairs: Seq<Seq<char>>, a: int, i: int)
    requires
        0 <= a <= i <= pairs.len(),
        forall|j: int| 0 <= j < i ==> policy_pair(#[trigger] pairs[j]) is None,
    ensures
        asked_policy(pairs, a) == asked_policy(pairs, i),
    decreases i - a,
{
    if a < i {
        assert(policy_pair(pairs[a]) is None);
        lemma_asked(pairs, a + 1, i);
    }
}

} // verus!
