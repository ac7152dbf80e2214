//! Reassembly of one direction of a TCP connection in its sequence space.
//!
//! The first data byte after the initial sequence number has offset 0, the SYN
//! offset -1, and a FIN the first offset past the data. 32-bit sequence numbers
//! are expanded into signed distances, so wrap-around needs no special case.

use std::collections::BTreeMap;
use vstd::prelude::*;
use crate::frame::{SegmentModel, TcpSegment};
use crate::hash::hex;
use crate::offsets::{
    frontier_of, held_ranges, holds, holes, is_frontier, is_held_range, is_hole, lemma_frontier,
    lists_held, lists_holes, ranges_ascend,
};
use crate::packet::distance;
use crate::text::{hex_of, views};

verus! {

#[derive(Clone, Copy, Debug, PartialEq, Eq, Structural)]
pub enum OverlapPolicy {
    FirstSeen,
    LastSeen,
}

impl Default for OverlapPolicy {
    fn default() -> (r: Self)
        ensures
            r == OverlapPolicy::FirstSeen,
    {
        OverlapPolicy::FirstSeen
    }
}

#[derive(Clone, Copy, Debug, PartialEq, Eq, Structural)]
pub struct Interval {
    pub start: i64,
    pub end: i64,
}

/// A byte that two segments gave differently.
#[derive(Clone, Debug)]
pub struct OverwriteEvidence {
    pub offset: i64,
    pub kept_frame: usize,
    pub superseded_frame: usize,
    /// The byte that stayed.
    pub kept_hex: String,
    /// The byte of the losing segment.
    pub offered_hex: String,
    pub policy: OverlapPolicy,
}

#[derive(Clone, Debug)]
pub struct SegmentRecord {
    pub frame_index: usize,
    pub seq: u32,
    pub end_seq: u32,
    pub rel_start: i64,
    pub rel_end: i64,
    pub data_len: usize,
    pub syn: bool,
    pub fin: bool,
    pub rst: bool,
    pub ack: bool,
    pub classifications: Vec<String>,
}

#[derive(Clone, Debug)]
pub struct DirectionReport {
    pub endpoint: String,
    pub anchored_by_syn: bool,
    pub isn: Option<u32>,
    pub syn: bool,
    pub fin: bool,
    pub fin_rel: Option<i64>,
    pub rst: bool,
    pub rst_seq: Option<u32>,
    pub first_seq: Option<u32>,
    pub last_seq: Option<u32>,
    pub data_rel_range: Interval,
    pub delivered_length: i64,
    pub delivered_hex: String,
    pub gaps: Vec<Interval>,
    pub covered_intervals: Vec<Interval>,
    pub segments: Vec<SegmentRecord>,
    pub retransmit_segments: usize,
    pub conflict_segments: usize,
    pub out_of_order_segments: usize,
    pub overwrite_evidence: Vec<OverwriteEvidence>,
}

/// A byte and the frame that it came from.
#[derive(Clone, Copy, Debug)]
pub struct Cell {
    pub owner: usize,
    pub byte: u8,
}

/// What an [`OverwriteEvidence`] says.
pub struct EvidenceModel {
    pub offset: i64,
    pub kept_frame: usize,
    pub superseded_frame: usize,
    pub kept_hex: Seq<char>,
    pub offered_hex: Seq<char>,
    pub policy: OverlapPolicy,
}

impl View for OverwriteEvidence {
    type V = EvidenceModel;

    open spec fn view(&self) -> EvidenceModel {
        EvidenceModel {
            offset: self.offset,
            kept_frame: self.kept_frame,
            superseded_frame: self.superseded_frame,
            kept_hex: self.kept_hex@,
            offered_hex: self.offered_hex@,
            policy: self.policy,
        }
    }
}

/// What a [`SegmentRecord`] says.
pub struct RecordModel {
    pub frame_index: usize,
    pub seq: u32,
    pub end_seq: u32,
    pub rel_start: int,
    pub rel_end: int,
    pub data_len: nat,
    pub syn: bool,
    pub fin: bool,
    pub rst: bool,
    pub ack: bool,
    pub classifications: Seq<Seq<char>>,
}

impl View for SegmentRecord {
    type V = RecordModel;

    open spec fn view(&self) -> RecordModel {
        RecordModel {
            frame_index: self.frame_index,
            seq: self.seq,
            end_seq: self.end_seq,
            rel_start: self.rel_start as int,
            rel_end: self.rel_end as int,
            data_len: self.data_len as nat,
            syn: self.syn,
            fin: self.fin,
            rst: self.rst,
            ack: self.ack,
            classifications: views(self.classifications@),
        }
    }
}

/// The state of one direction.
pub struct StreamModel {
    pub endpoint: Seq<char>,
    pub isn: Option<u32>,
    pub anchored_by_syn: bool,
    pub syn: bool,
    pub fin: bool,
    pub fin_rel: Option<i64>,
    pub rst: bool,
    pub rst_seq: Option<u32>,
    pub first_seq: Option<u32>,
    pub last_seq: Option<u32>,
    pub cells: Map<i64, Cell>,
    pub observed_end: int,
    pub segments: Seq<RecordModel>,
    pub evidence: Seq<EvidenceModel>,
    pub retransmits: int,
    pub conflicts: int,
    pub out_of_order: int,
}

/// The sequence number `n` places on.
pub open spec fn seq_plus(seq: u32, n: int) -> u32 {
    ((seq + n) % 0x1_0000_0000) as u32
}

/// What one offset holds after a segment carried `byte` there.
pub open spec fn settled(held: Option<Cell>, byte: u8, frame: usize, policy: OverlapPolicy) -> Cell {
    match held {
        Some(c) if c.byte == byte || policy == OverlapPolicy::FirstSeen => c,
        _ => Cell { owner: frame, byte },
    }
}

pub open spec fn cell_at(cells: Map<i64, Cell>, k: i64) -> Option<Cell> {
    if cells.contains_key(k) {
        Some(cells[k])
    } else {
        None
    }
}

/// The bytes after the first `n` bytes of `data` were carried at `start`.
#[verifier::opaque]
pub open spec fn merged(
    cells: Map<i64, Cell>,
    start: int,
    data: Seq<u8>,
    n: int,
    frame: usize,
    policy: OverlapPolicy,
) -> Map<i64, Cell> {
    Map::new(
        |k: i64| cells.contains_key(k) || start <= k < start + n,
        |k: i64|
            if start <= k < start + n {
                settled(cell_at(cells, k), data[k - start], frame, policy)
            } else {
                cells[k]
            },
    )
}

/// Whether some byte of `data` at `start` is already held.
#[verifier::opaque]
pub open spec fn some_held(cells: Map<i64, Cell>, start: int, data: Seq<u8>) -> bool {
    exists|x: int| start <= x < start + data.len() && #[trigger] holds(cells.dom(), x)
}

/// Whether every byte of `data` at `start` is already held.
#[verifier::opaque]
pub open spec fn all_held(cells: Map<i64, Cell>, start: int, data: Seq<u8>) -> bool {
    forall|x: int| start <= x < start + data.len() ==> #[trigger] holds(cells.dom(), x)
}

/// Whether some byte of `data` at `start` differs from what is held there.
#[verifier::opaque]
pub open spec fn some_differ(cells: Map<i64, Cell>, start: int, data: Seq<u8>) -> bool {
    exists|x: int|
        start <= x < start + data.len() && #[trigger] holds(cells.dom(), x) && cells[x as i64].byte
            != data[x - start]
}

/// The evidence that the first `n` bytes of `data` at `start` leave: one entry
/// for each byte that differs, in order.
pub open spec fn evidence_of(
    cells: Map<i64, Cell>,
    start: int,
    data: Seq<u8>,
    n: int,
    frame: usize,
    policy: OverlapPolicy,
) -> Seq<EvidenceModel>
    decreases n,
{
    if n <= 0 {
        seq![]
    } else {
        let rest = evidence_of(cells, start, data, n - 1, frame, policy);
        let k = (start + n - 1) as i64;
        let byte = data[n - 1];
        if cells.contains_key(k) && cells[k].byte != byte {
            let old_hex = hex_of(seq![cells[k].byte]);
            let new_hex = hex_of(seq![byte]);
            if policy == OverlapPolicy::FirstSeen {
                rest.push(
                    EvidenceModel {
                        offset: k,
                        kept_frame: cells[k].owner,
                        superseded_frame: frame,
                        kept_hex: old_hex,
                        offered_hex: new_hex,
                        policy,
                    },
                )
            } else {
                rest.push(
                    EvidenceModel {
                        offset: k,
                        kept_frame: frame,
                        superseded_frame: cells[k].owner,
                        kept_hex: new_hex,
                        offered_hex: old_hex,
                        policy,
                    },
                )
            }
        } else {
            rest
        }
    }
}

/// The word, where the condition holds.
pub open spec fn tag(on: bool, word: Seq<char>) -> Seq<Seq<char>> {
    if on {
        seq![word]
    } else {
        seq![]
    }
}

/// What a segment can be.
#[derive(Clone, Copy)]
pub struct Labels {
    pub extends: bool,
    pub fin: bool,
    pub ahead: bool,
    pub overlap: bool,
    pub conflict: bool,
    pub again: bool,
    pub rst: bool,
    pub syn: bool,
}

/// The words for what a segment is, in alphabetical order.
#[verifier::opaque]
pub open spec fn labels_of(l: Labels) -> Seq<Seq<char>> {
    tag(l.extends, "extends-delivered"@) + tag(l.fin, "fin"@) + tag(l.ahead, "out-of-order"@) + tag(
        l.overlap,
        "overlap"@,
    ) + tag(l.conflict, "overlap-conflict"@) + tag(l.again, "retransmission"@) + tag(l.rst, "rst"@)
        + tag(l.syn, "syn"@)
}

impl StreamModel {
    pub open spec fn wf(self) -> bool {
        &&& 0 <= self.observed_end <= 0x2_0000_0000
        &&& forall|k: i64| #[trigger]
            self.cells.contains_key(k) ==> -0x8000_0000 <= k < self.observed_end
        &&& exists|f: int| #[trigger] is_frontier(self.cells.dom(), f)
        &&& 0 <= self.retransmits <= self.segments.len()
        &&& 0 <= self.conflicts <= self.segments.len()
        &&& 0 <= self.out_of_order <= self.segments.len()
    }

    /// Nothing seen yet.
    pub open spec fn fresh(endpoint: Seq<char>) -> StreamModel {
        StreamModel {
            endpoint,
            isn: None,
            anchored_by_syn: false,
            syn: false,
            fin: false,
            fin_rel: None,
            rst: false,
            rst_seq: None,
            first_seq: None,
            last_seq: None,
            cells: Map::empty(),
            observed_end: 0,
            segments: seq![],
            evidence: seq![],
            retransmits: 0,
            conflicts: 0,
            out_of_order: 0,
        }
    }

    /// How many bytes from offset 0 on are held without a gap.
    pub open spec fn frontier(self) -> int {
        frontier_of(self.cells.dom())
    }

    /// The initial sequence number once `seg` was seen. Without a SYN the first
    /// observed byte becomes offset 0.
    pub open spec fn anchor(self, seg: SegmentModel) -> u32 {
        match self.isn {
            Some(i) => i,
            None => if seg.has_syn() {
                seg.seq
            } else {
                seq_plus(seg.seq, -1)
            },
        }
    }

    /// The offset of the first data byte of `seg`.
    pub open spec fn start_of(self, seg: SegmentModel) -> int {
        let data_seq = if seg.has_syn() {
            seq_plus(seg.seq, 1)
        } else {
            seg.seq
        };
        distance(data_seq, seq_plus(self.anchor(seg), 1))
    }

    /// The state after a SYN.
    pub open spec fn syn_added(self, frame: usize, seg: SegmentModel) -> StreamModel {
        StreamModel {
            isn: match self.isn {
                Some(i) => Some(i),
                None => Some(seg.seq),
            },
            anchored_by_syn: self.anchored_by_syn || self.isn is None,
            syn: true,
            first_seq: match self.first_seq {
                Some(q) => Some(q),
                None => Some(seg.seq),
            },
            last_seq: Some(seg.seq),
            segments: self.segments.push(
                RecordModel {
                    frame_index: frame,
                    seq: seg.seq,
                    end_seq: seq_plus(seg.seq, 1),
                    rel_start: -1,
                    rel_end: 0,
                    data_len: 0,
                    syn: true,
                    fin: seg.has_fin(),
                    rst: seg.has_rst(),
                    ack: seg.has_ack(),
                    classifications: seq!["syn"@],
                },
            ),
            ..self
        }
    }

    /// A bare acknowledgement takes no sequence space.
    pub open spec fn bare(seg: SegmentModel) -> bool {
        seg.payload.len() == 0 && !seg.has_syn() && !seg.has_fin() && !seg.has_rst()
    }

    /// The state after a segment.
    pub open spec fn data_added(
        self,
        frame: usize,
        seg: SegmentModel,
        policy: OverlapPolicy,
    ) -> StreamModel {
        let start = self.start_of(seg);
        let after = carried(self, frame, seg, start, policy);
        if StreamModel::bare(seg) {
            self
        } else {
            StreamModel {
                isn: Some(self.anchor(seg)),
                anchored_by_syn: if self.isn is None {
                    seg.has_syn()
                } else {
                    self.anchored_by_syn
                },
                syn: self.syn || seg.has_syn(),
                rst: self.rst || seg.has_rst(),
                rst_seq: if seg.has_rst() {
                    Some(seg.seq)
                } else {
                    self.rst_seq
                },
                first_seq: match self.first_seq {
                    Some(q) => Some(q),
                    None => Some(seg.seq),
                },
                last_seq: Some(seq_plus(seg.seq, seg.space())),
                segments: self.segments.push(
                    RecordModel {
                        frame_index: frame,
                        seq: seg.seq,
                        end_seq: seq_plus(seg.seq, seg.space()),
                        rel_start: start,
                        rel_end: start + seg.payload.len(),
                        data_len: seg.payload.len(),
                        syn: seg.has_syn(),
                        fin: seg.has_fin(),
                        rst: seg.has_rst(),
                        ack: seg.has_ack(),
                        classifications: labels_of(seen_as(self, seg, start, after.frontier())),
                    },
                ),
                ..after
            }
        }
    }

    /// The bytes from offset 0 up to the first gap.
    pub open spec fn delivered(self) -> Seq<u8> {
        Seq::new(self.frontier() as nat, |i: int| self.cells[i as i64].byte)
    }
}

/// What a segment at `start` is, where the frontier moves to `frontier`.
pub open spec fn seen_as(s: StreamModel, seg: SegmentModel, start: int, frontier: int) -> Labels {
    let differs = some_differ(s.cells, start, seg.payload);
    let some = some_held(s.cells, start, seg.payload);
    Labels {
        extends: start <= s.frontier() && frontier > s.frontier(),
        fin: seg.has_fin(),
        ahead: start > s.frontier(),
        overlap: some && !all_held(s.cells, start, seg.payload),
        conflict: differs && !all_held(s.cells, start, seg.payload),
        again: some && (all_held(s.cells, start, seg.payload) || !differs),
        rst: seg.has_rst(),
        syn: seg.has_syn(),
    }
}

/// One more where the condition holds.
pub open spec fn plus_if(n: int, on: bool) -> int {
    if on {
        n + 1
    } else {
        n
    }
}

/// The state after the bytes and the FIN of a segment were carried at `start`.
pub open spec fn carried(
    s: StreamModel,
    frame: usize,
    seg: SegmentModel,
    start: int,
    policy: OverlapPolicy,
) -> StreamModel {
    let n = seg.payload.len() as int;
    let end = start + n;
    let differs = some_differ(s.cells, start, seg.payload);
    StreamModel {
        fin: s.fin || seg.has_fin(),
        fin_rel: if seg.has_fin() {
            Some(end as i64)
        } else {
            s.fin_rel
        },
        cells: merged(s.cells, start, seg.payload, n, frame, policy),
        observed_end: if end > s.observed_end {
            end
        } else {
            s.observed_end
        },
        evidence: s.evidence + evidence_of(s.cells, start, seg.payload, n, frame, policy),
        retransmits: plus_if(
            s.retransmits,
            some_held(s.cells, start, seg.payload) && (all_held(s.cells, start, seg.payload)
                || !differs),
        ),
        conflicts: plus_if(s.conflicts, differs),
        out_of_order: plus_if(s.out_of_order, start > s.frontier()),
        ..s
    }
}

pub struct Direction {
    endpoint: String,
    isn: Option<u32>,
    anchored_by_syn: bool,
    syn_seen: bool,
    fin_seen: bool,
    fin_rel: Option<i64>,
    rst_seen: bool,
    rst_seq: Option<u32>,
    first_seq: Option<u32>,
    last_seq: Option<u32>,
    cells: BTreeMap<i64, Cell>,
    frontier: i64,
    observed_end: i64,
    segments: Vec<SegmentRecord>,
    overwrite_evidence: Vec<OverwriteEvidence>,
    retransmit_segments: usize,
    conflict_segments: usize,
    out_of_order_segments: usize,
}

/// What segment records say.
pub open spec fn records(s: Seq<SegmentRecord>) -> Seq<RecordModel> {
    s.map_values(|r: SegmentRecord| r@)
}

/// What evidence entries say.
pub open spec fn evidences(s: Seq<OverwriteEvidence>) -> Seq<EvidenceModel> {
    s.map_values(|r: OverwriteEvidence| r@)
}

/// The ranges as pairs.
pub open spec fn pairs(s: Seq<Interval>) -> Seq<(i64, i64)> {
    s.map_values(|i: Interval| (i.start, i.end))
}

impl View for Direction {
    type V = StreamModel;

    closed spec fn view(&self) -> StreamModel {
        StreamModel {
            endpoint: self.endpoint@,
            isn: self.isn,
            anchored_by_syn: self.anchored_by_syn,
            syn: self.syn_seen,
            fin: self.fin_seen,
            fin_rel: self.fin_rel,
            rst: self.rst_seen,
            rst_seq: self.rst_seq,
            first_seq: self.first_seq,
            last_seq: self.last_seq,
            cells: self.cells@,
            observed_end: self.observed_end as int,
            segments: records(self.segments@),
            evidence: evidences(self.overwrite_evidence@),
            retransmits: self.retransmit_segments as int,
            conflicts: self.conflict_segments as int,
            out_of_order: self.out_of_order_segments as int,
        }
    }
}

impl DirectionReport {
    /// The report says what the state is.
    pub open spec fn tells(self, m: StreamModel) -> bool {
        &&& self.endpoint@ == m.endpoint
        &&& self.anchored_by_syn == m.anchored_by_syn
        &&& self.isn == m.isn
        &&& self.syn == m.syn
        &&& self.fin == m.fin
        &&& self.fin_rel == m.fin_rel
        &&& self.rst == m.rst
        &&& self.rst_seq == m.rst_seq
        &&& self.first_seq == m.first_seq
        &&& self.last_seq == m.last_seq
        &&& self.data_rel_range.start == 0
        &&& self.data_rel_range.end == m.observed_end
        &&& self.delivered_length == m.frontier()
        &&& self.delivered_hex@ == hex_of(m.delivered())
        &&& lists_holes(pairs(self.gaps@), m.cells.dom(), 0, m.observed_end)
        &&& lists_held(pairs(self.covered_intervals@), m.cells.dom())
        &&& records(self.segments@) == m.segments
        &&& self.retransmit_segments == m.retransmits
        &&& self.conflict_segments == m.conflicts
        &&& self.out_of_order_segments == m.out_of_order
        &&& evidences(self.overwrite_evidence@) == m.evidence
    }
}

/// Carrying bytes adds just their offsets.
proof fn lemma_merged(
    cells: Map<i64, Cell>,
    start: int,
    data: Seq<u8>,
    n: int,
    frame: usize,
    policy: OverlapPolicy,
)
    ensures
        forall|k: i64| #[trigger]
            merged(cells, start, data, n, frame, policy).contains_key(k) <==> (cells.contains_key(k)
                || start <= k < start + n),
{
    reveal(merged);
}

/// A segment keeps the state well-formed.
proof fn lemma_data_added(
    s: StreamModel,
    frame: usize,
    seg: SegmentModel,
    policy: OverlapPolicy,
    f: int,
)
    requires
        s.wf(),
        seg.space() <= u32::MAX,
        is_frontier(s.data_added(frame, seg, policy).cells.dom(), f),
    ensures
        s.data_added(frame, seg, policy).wf(),
{
    lemma_merged(s.cells, s.start_of(seg), seg.payload, seg.payload.len() as int, frame, policy);
}

fn byte_hex(b: u8) -> (s: String)
    ensures
        s@ == hex_of(seq![b]),
{
    let v: Vec<u8> = vec![b];
    assert(v@ =~= seq![b]);
    hex(v.as_slice())
}

fn put(out: &mut Vec<String>, on: bool, word: &str)
    ensures
        views(final(out)@) == views(old(out)@) + tag(on, word@),
{
    if on {
        out.push(word.to_string());
    }
    assert(views(out@) =~= views(old(out)@) + tag(on, word@));
}

fn label_words(l: Labels) -> (r: Vec<String>)
    ensures
        views(r@) == labels_of(l),
{
    let mut out: Vec<String> = Vec::new();
    assert(views(out@) =~= seq![]);
    put(&mut out, l.extends, "extends-delivered");
    put(&mut out, l.fin, "fin");
    put(&mut out, l.ahead, "out-of-order");
    put(&mut out, l.overlap, "overlap");
    put(&mut out, l.conflict, "overlap-conflict");
    put(&mut out, l.again, "retransmission");
    put(&mut out, l.rst, "rst");
    put(&mut out, l.syn, "syn");
    reveal(labels_of);
    assert(views(out@) =~= labels_of(l));
    out
}

fn intervals(v: Vec<(i64, i64)>) -> (r: Vec<Interval>)
    ensures
        pairs(r@) == v@,
{
    let mut out: Vec<Interval> = Vec::new();
    let mut i: usize = 0;
    while i < v.len()
        invariant
            i <= v@.len(),
            pairs(out@) == v@.take(i as int),
        decreases v@.len() - i,
    {
        let ghost before = out@;
        out.push(Interval { start: v[i].0, end: v[i].1 });
        i += 1;
        assert(pairs(out@) =~= pairs(before).push(v@[i - 1]));
        assert(v@.take(i as int) =~= v@.take(i - 1).push(v@[i - 1]));
    }
    assert(v@.take(i as int) =~= v@);
    out
}

impl Direction {
    pub closed spec fn wf(&self) -> bool {
        &&& self@.wf()
        &&& is_frontier(self.cells@.dom(), self.frontier as int)
    }

    pub fn new(endpoint: String) -> (r: Self)
        ensures
            r.wf(),
            r@.wf(),
            r@ == StreamModel::fresh(endpoint@),
    {
        let r = Direction {
            endpoint,
            isn: None,
            anchored_by_syn: false,
            syn_seen: false,
            fin_seen: false,
            fin_rel: None,
            rst_seen: false,
            rst_seq: None,
            first_seq: None,
            last_seq: None,
            cells: BTreeMap::new(),
            frontier: 0,
            observed_end: 0,
            segments: Vec::new(),
            overwrite_evidence: Vec::new(),
            retransmit_segments: 0,
            conflict_segments: 0,
            out_of_order_segments: 0,
        };
        proof {
            assert(r@.cells =~= Map::<i64, Cell>::empty());
            assert(r@.segments =~= seq![]);
            assert(r@.evidence =~= seq![]);
            assert(is_frontier(r.cells@.dom(), 0));
        }
        r
    }

    /// The initial sequence number, or what stands for it.
    pub fn isn_raw(&self) -> (r: Option<u32>)
        ensures
            r == self@.isn,
    {
        self.isn
    }

    /// Records a SYN.
    pub fn add_syn(&mut self, frame_index: usize, seg: &TcpSegment)
        requires
            old(self).wf(),
        ensures
            final(self).wf(),
            final(self)@.wf(),
            final(self)@ == old(self)@.syn_added(frame_index, seg@),
    {
        if self.isn.is_none() {
            self.isn = Some(seg.seq);
            self.anchored_by_syn = true;
        }
        self.syn_seen = true;
        if self.first_seq.is_none() {
            self.first_seq = Some(seg.seq);
        }
        self.last_seq = Some(seg.seq);
        let mut classifications: Vec<String> = Vec::new();
        assert(views(classifications@) =~= seq![]);
        put(&mut classifications, true, "syn");
        assert(views(classifications@) =~= seq!["syn"@]);
        self.segments.push(
            SegmentRecord {
                frame_index,
                seq: seg.seq,
                end_seq: seg.seq.wrapping_add(1),
                rel_start: -1,
                rel_end: 0,
                data_len: 0,
                syn: true,
                fin: seg.fin(),
                rst: seg.rst(),
                ack: seg.ack_flag(),
                classifications,
            },
        );
        proof {
            let want = old(self)@.syn_added(frame_index, seg@);
            assert(self@.segments =~= want.segments);
            assert(is_frontier(self@.cells.dom(), self.frontier as int));
        }
    }

    /// Whether bytes are already held: some of them, all of them, and whether some
    /// differ.
    fn examine(&self, start: i64, data: &Vec<u8>) -> (r: (bool, bool, bool))
        requires
            -0x8000_0000 <= start < 0x8000_0000,
            data@.len() <= u32::MAX,
        ensures
            r.0 == some_held(self@.cells, start as int, data@),
            r.1 == all_held(self@.cells, start as int, data@),
            r.2 == some_differ(self@.cells, start as int, data@),
    {
        reveal(some_held);
        reveal(all_held);
        reveal(some_differ);
        let mut some = false;
        let mut all = true;
        let mut differ = false;
        let mut i: usize = 0;
        while i < data.len()
            invariant
                i <= data@.len(),
                -0x8000_0000 <= start < 0x8000_0000,
                data@.len() <= u32::MAX,
                some <==> exists|x: int|
                    start <= x < start + i && #[trigger] holds(self@.cells.dom(), x),
                all <==> forall|x: int|
                    start <= x < start + i ==> #[trigger] holds(self@.cells.dom(), x),
                differ <==> exists|x: int|
                    start <= x < start + i && #[trigger] holds(self@.cells.dom(), x)
                        && self@.cells[x as i64].byte != data@[x - start],
            decreases data@.len() - i,
        {
            let pos: i64 = start + i as i64;
            let ghost h = holds(self@.cells.dom(), pos as int);
            match self.cells.get(&pos) {
                Some(cell) => {
                    assert(h);
                    some = true;
                    if cell.byte != data[i] {
                        differ = true;
                    }
                },
                None => {
                    assert(!h);
                    all = false;
                },
            }
            i += 1;
            proof {
                assert(holds(self@.cells.dom(), start + i - 1) == h);
            }
        }
        (some, all, differ)
    }

    /// Carries bytes at an offset: the policy decides on those that are held.
    fn merge(&mut self, start: i64, data: &Vec<u8>, frame_index: usize, policy: OverlapPolicy)
        requires
            -0x8000_0000 <= start < 0x8000_0000,
            data@.len() <= u32::MAX,
        ensures
            final(self)@ == (StreamModel {
                cells: merged(
                    old(self)@.cells,
                    start as int,
                    data@,
                    data@.len() as int,
                    frame_index,
                    policy,
                ),
                evidence: old(self)@.evidence + evidence_of(
                    old(self)@.cells,
                    start as int,
                    data@,
                    data@.len() as int,
                    frame_index,
                    policy,
                ),
                ..old(self)@
            }),
            final(self).frontier == old(self).frontier,
    {
        reveal(merged);
        let ghost c0 = self@.cells;
        let ghost e0 = self@.evidence;
        let ghost s0 = self@;
        assert(merged(c0, start as int, data@, 0, frame_index, policy) =~= c0);
        assert(e0 + evidence_of(c0, start as int, data@, 0, frame_index, policy) =~= e0);
        let mut i: usize = 0;
        while i < data.len()
            invariant
                i <= data@.len(),
                -0x8000_0000 <= start < 0x8000_0000,
                data@.len() <= u32::MAX,
                s0 == old(self)@,
                c0 == s0.cells,
                e0 == s0.evidence,
                self.frontier == old(self).frontier,
                self@.cells == merged(c0, start as int, data@, i as int, frame_index, policy),
                self@ == (StreamModel {
                    cells: self@.cells,
                    evidence: e0 + evidence_of(
                        c0,
                        start as int,
                        data@,
                        i as int,
                        frame_index,
                        policy,
                    ),
                    ..s0
                }),
            decreases data@.len() - i,
        {
            reveal(merged);
            let pos: i64 = start + i as i64;
            let b: u8 = data[i];
            let ghost ev0 = self.overwrite_evidence@;
            let held: Option<Cell> = match self.cells.get(&pos) {
                Some(c) => Some(*c),
                None => None,
            };
            assert(held == cell_at(c0, pos));
            match held {
                Some(c) => {
                    if c.byte != b {
                        if policy == OverlapPolicy::FirstSeen {
                            self.overwrite_evidence.push(
                                OverwriteEvidence {
                                    offset: pos,
                                    kept_frame: c.owner,
                                    superseded_frame: frame_index,
                                    kept_hex: byte_hex(c.byte),
                                    offered_hex: byte_hex(b),
                                    policy,
                                },
                            );
                        } else {
                            self.overwrite_evidence.push(
                                OverwriteEvidence {
                                    offset: pos,
                                    kept_frame: frame_index,
                                    superseded_frame: c.owner,
                                    kept_hex: byte_hex(b),
                                    offered_hex: byte_hex(c.byte),
                                    policy,
                                },
                            );
                            self.cells.insert(pos, Cell { owner: frame_index, byte: b });
                        }
                    }
                },
                None => {
                    self.cells.insert(pos, Cell { owner: frame_index, byte: b });
                },
            }
            i += 1;
            proof {
                let want = merged(c0, start as int, data@, i as int, frame_index, policy);
                assert(self@.cells =~= want);
                let ev = e0 + evidence_of(c0, start as int, data@, i as int, frame_index, policy);
                assert((start + i - 1) as i64 == pos);
                if self.overwrite_evidence@.len() > ev0.len() {
                    assert(self@.evidence =~= evidences(ev0).push(self.overwrite_evidence@.last()@));
                } else {
                    assert(self.overwrite_evidence@ == ev0);
                }
                assert(self@.evidence =~= ev);
            }
        }
    }

    /// Moves the frontier on.
    fn advance(&mut self)
        requires
            0 <= old(self).frontier <= old(self)@.observed_end,
            old(self)@.observed_end < i64::MAX,
            forall|k: i64| #[trigger]
                old(self)@.cells.contains_key(k) ==> k < old(self)@.observed_end,
            forall|x: int|
                0 <= x < old(self).frontier ==> #[trigger] holds(old(self)@.cells.dom(), x),
        ensures
            final(self)@ == old(self)@,
            is_frontier(final(self).cells@.dom(), final(self).frontier as int),
    {
        while self.cells.contains_key(&self.frontier)
            invariant
                self@ == old(self)@,
                0 <= self.frontier <= self@.observed_end,
                self@.observed_end < i64::MAX,
                forall|k: i64| #[trigger] self@.cells.contains_key(k) ==> k < self@.observed_end,
                forall|x: int| 0 <= x < self.frontier ==> #[trigger] holds(self@.cells.dom(), x),
            decreases self@.observed_end - self.frontier,
        {
            assert(self@.cells.contains_key(self.frontier));
            self.frontier = self.frontier + 1;
        }
        proof {
            assert(!holds(self.cells@.dom(), self.frontier as int));
            assert forall|x: int| 0 <= x < self.frontier implies #[trigger] holds(
                self.cells@.dom(),
                x,
            ) by {
                assert(holds(self@.cells.dom(), x));
            }
        }
    }

    /// Notes the anchor, the flags and the sequence numbers of a segment, and
    /// returns the offset of its first data byte.
    #[verifier::spinoff_prover]
    #[verifier::rlimit(60)]
    fn note(&mut self, seg: &TcpSegment) -> (start: i64)
        requires
            seg@.space() <= u32::MAX,
        ensures
            final(self).frontier == old(self).frontier,
            final(self)@ == (StreamModel {
                isn: Some(old(self)@.anchor(seg@)),
                anchored_by_syn: if old(self)@.isn is None {
                    seg@.has_syn()
                } else {
                    old(self)@.anchored_by_syn
                },
                syn: old(self)@.syn || seg@.has_syn(),
                rst: old(self)@.rst || seg@.has_rst(),
                rst_seq: if seg@.has_rst() {
                    Some(seg@.seq)
                } else {
                    old(self)@.rst_seq
                },
                first_seq: match old(self)@.first_seq {
                    Some(q) => Some(q),
                    None => Some(seg@.seq),
                },
                last_seq: Some(seq_plus(seg@.seq, seg@.space())),
                ..old(self)@
            }),
            start == old(self)@.start_of(seg@),
            -0x8000_0000 <= start < 0x8000_0000,
    {
        let isn: u32 = match self.isn {
            Some(i) => i,
            None => if seg.syn() {
                seg.seq
            } else {
                seg.seq.wrapping_sub(1)
            },
        };
        if self.isn.is_none() {
            self.anchored_by_syn = seg.syn();
        }
        self.isn = Some(isn);
        if seg.syn() {
            self.syn_seen = true;
        }
        if self.first_seq.is_none() {
            self.first_seq = Some(seg.seq);
        }
        self.last_seq = Some(seg.seq.wrapping_add(seg.seq_len()));
        if seg.rst() {
            self.rst_seen = true;
            self.rst_seq = Some(seg.seq);
        }
        let data_seq: u32 = if seg.syn() {
            seg.seq.wrapping_add(1)
        } else {
            seg.seq
        };
        expand_delta(isn.wrapping_add(1), data_seq)
    }

    /// Counts a segment.
    fn count(&mut self, again: bool, differ: bool, ahead: bool)
        requires
            old(self)@.retransmits < usize::MAX,
            old(self)@.conflicts < usize::MAX,
            old(self)@.out_of_order < usize::MAX,
        ensures
            final(self).frontier == old(self).frontier,
            final(self)@ == (StreamModel {
                retransmits: plus_if(old(self)@.retransmits, again),
                conflicts: plus_if(old(self)@.conflicts, differ),
                out_of_order: plus_if(old(self)@.out_of_order, ahead),
                ..old(self)@
            }),
    {
        if again {
            self.retransmit_segments = self.retransmit_segments + 1;
        }
        if differ {
            self.conflict_segments = self.conflict_segments + 1;
        }
        if ahead {
            self.out_of_order_segments = self.out_of_order_segments + 1;
        }
    }

    /// Carries the bytes and the FIN of a segment from `start` on.
    fn take_in(&mut self, frame_index: usize, seg: &TcpSegment, start: i64, policy: OverlapPolicy)
        requires
            is_frontier(old(self)@.cells.dom(), old(self).frontier as int),
            0 <= old(self)@.observed_end <= 0x2_0000_0000,
            forall|k: i64| #[trigger]
                old(self)@.cells.contains_key(k) ==> k < old(self)@.observed_end,
            -0x8000_0000 <= start < 0x8000_0000,
            seg@.payload.len() <= u32::MAX,
        ensures
            final(self)@ == (StreamModel {
                retransmits: old(self)@.retransmits,
                conflicts: old(self)@.conflicts,
                out_of_order: old(self)@.out_of_order,
                ..carried(old(self)@, frame_index, seg@, start as int, policy)
            }),
            is_frontier(final(self)@.cells.dom(), final(self).frontier as int),
    {
        let ghost s0 = self@;
        let n: usize = seg.payload.len();
        let end: i64 = start + n as i64;
        let before: i64 = self.frontier;
        proof {
            if before > 0 {
                assert(holds(s0.cells.dom(), before - 1));
                assert(s0.cells.contains_key((before - 1) as i64));
            }
        }
        self.merge(start, &seg.payload, frame_index, policy);
        if end > self.observed_end {
            self.observed_end = end;
        }
        if seg.fin() {
            self.fin_seen = true;
            self.fin_rel = Some(end);
        }
        proof {
            lemma_merged(s0.cells, start as int, seg@.payload, n as int, frame_index, policy);
            assert forall|x: int| 0 <= x < before implies #[trigger] holds(self@.cells.dom(), x) by {
                assert(holds(s0.cells.dom(), x));
            }
        }
        self.advance();
    }

    /// Carries the bytes and the FIN of a segment from `start` on, and says what
    /// the segment is.
    fn carry(&mut self, frame_index: usize, seg: &TcpSegment, start: i64, policy: OverlapPolicy) -> (r:
        Labels)
        requires
            is_frontier(old(self)@.cells.dom(), old(self).frontier as int),
            0 <= old(self)@.observed_end <= 0x2_0000_0000,
            forall|k: i64| #[trigger]
                old(self)@.cells.contains_key(k) ==> k < old(self)@.observed_end,
            old(self)@.retransmits < usize::MAX,
            old(self)@.conflicts < usize::MAX,
            old(self)@.out_of_order < usize::MAX,
            -0x8000_0000 <= start < 0x8000_0000,
            seg@.payload.len() <= u32::MAX,
        ensures
            final(self)@ == carried(old(self)@, frame_index, seg@, start as int, policy),
            is_frontier(final(self)@.cells.dom(), final(self).frontier as int),
            r == seen_as(old(self)@, seg@, start as int, final(self).frontier as int),
    {
        let (some, all, differ) = self.examine(start, &seg.payload);
        let before: i64 = self.frontier;
        proof {
            lemma_frontier(self@.cells.dom(), before as int);
        }
        let ahead = start > before;
        let again = some && (all || !differ);
        self.count(again, differ, ahead);
        self.take_in(frame_index, seg, start, policy);
        Labels {
            extends: !ahead && self.frontier > before,
            fin: seg.fin(),
            ahead,
            overlap: some && !all,
            conflict: differ && !all,
            again,
            rst: seg.rst(),
            syn: seg.syn(),
        }
    }

    /// Carries one segment.
    #[verifier::spinoff_prover]
    #[verifier::rlimit(60)]
    pub fn add_data(&mut self, frame_index: usize, seg: &TcpSegment, policy: OverlapPolicy)
        requires
            old(self).wf(),
            seg@.space() <= u32::MAX,
            old(self)@.segments.len() < usize::MAX,
        ensures
            final(self).wf(),
            final(self)@.wf(),
            final(self)@ == old(self)@.data_added(frame_index, seg@, policy),
    {
        if seg.payload.is_empty() && !seg.syn() && !seg.fin() && !seg.rst() {
            return;
        }
        let ghost s0 = self@;
        let start: i64 = self.note(seg);
        let l = self.carry(frame_index, seg, start, policy);
        let ghost f = self.frontier as int;
        let classifications = label_words(l);
        let n: usize = seg.payload.len();
        self.segments.push(
            SegmentRecord {
                frame_index,
                seq: seg.seq,
                end_seq: seg.seq.wrapping_add(seg.seq_len()),
                rel_start: start,
                rel_end: start + n as i64,
                data_len: n,
                syn: seg.syn(),
                fin: seg.fin(),
                rst: seg.rst(),
                ack: seg.ack_flag(),
                classifications,
            },
        );
        proof {
            let want = s0.data_added(frame_index, seg@, policy);
            lemma_frontier(self@.cells.dom(), f);
            assert(self@.segments =~= want.segments);
            assert(self@ == want);
            lemma_data_added(s0, frame_index, seg@, policy, f);
        }
    }

    /// The report on everything seen.
    pub fn finalize(self) -> (r: DirectionReport)
        requires
            self.wf(),
        ensures
            r.tells(self@),
    {
        let ghost m = self@;
        proof {
            lemma_frontier(m.cells.dom(), self.frontier as int);
        }
        let mut delivered: Vec<u8> = Vec::new();
        let mut pos: i64 = 0;
        while pos < self.frontier
            invariant
                0 <= pos <= self.frontier,
                is_frontier(self.cells@.dom(), self.frontier as int),
                delivered@ == Seq::new(pos as nat, |i: int| self.cells@[i as i64].byte),
            decreases self.frontier - pos,
        {
            assert(holds(self.cells@.dom(), pos as int));
            if let Some(c) = self.cells.get(&pos) {
                delivered.push(c.byte);
            }
            pos = pos + 1;
            assert(delivered@ =~= Seq::new(pos as nat, |i: int| self.cells@[i as i64].byte));
        }
        assert(delivered@ =~= m.delivered());
        let gaps = intervals(holes(&self.cells, 0, self.observed_end));
        let covered_intervals = intervals(held_ranges(&self.cells));
        DirectionReport {
            endpoint: self.endpoint,
            anchored_by_syn: self.anchored_by_syn,
            isn: self.isn,
            syn: self.syn_seen,
            fin: self.fin_seen,
            fin_rel: self.fin_rel,
            rst: self.rst_seen,
            rst_seq: self.rst_seq,
            first_seq: self.first_seq,
            last_seq: self.last_seq,
            data_rel_range: Interval { start: 0, end: self.observed_end },
            delivered_length: self.frontier,
            delivered_hex: hex(delivered.as_slice()),
            gaps,
            covered_intervals,
            segments: self.segments,
            retransmit_segments: self.retransmit_segments,
            conflict_segments: self.conflict_segments,
            out_of_order_segments: self.out_of_order_segments,
            overwrite_evidence: self.overwrite_evidence,
        }
    }
}

/// The signed distance from `base` to `raw`: the nearest of the numbers that
/// agree with it modulo the sequence space.
pub fn expand_delta(base: u32, raw: u32) -> (r: i64)
    ensures
        r == distance(raw, base),
        -0x8000_0000 <= r < 0x8000_0000,
{
    crate::packet::seq_offset(raw, base)
}

/// Under the first-seen policy no byte that is held ever changes, and neither
/// does the frame that it came from.
pub proof fn law_first_seen_keeps(s: StreamModel, frame: usize, seg: SegmentModel, k: i64)
    requires
        s.cells.contains_key(k),
    ensures
        s.data_added(frame, seg, OverlapPolicy::FirstSeen).cells.contains_key(k),
        s.data_added(frame, seg, OverlapPolicy::FirstSeen).cells[k] == s.cells[k],
{
    reveal(merged);
}

/// Under the last-seen policy a segment's bytes are held afterwards.
pub proof fn law_last_seen_adopts(s: StreamModel, frame: usize, seg: SegmentModel, k: i64)
    requires
        s.start_of(seg) <= k < s.start_of(seg) + seg.payload.len(),
    ensures
        s.data_added(frame, seg, OverlapPolicy::LastSeen).cells.contains_key(k),
        s.data_added(frame, seg, OverlapPolicy::LastSeen).cells[k].byte == seg.payload[k
            - s.start_of(seg)],
{
    reveal(merged);
}

/// A segment's bytes are held afterwards or were held before, and no byte is
/// made up: what is held comes from a segment.
pub proof fn law_no_byte_made_up(
    s: StreamModel,
    frame: usize,
    seg: SegmentModel,
    policy: OverlapPolicy,
    k: i64,
)
    ensures
        s.data_added(frame, seg, policy).cells.contains_key(k) <==> s.cells.contains_key(k)
            || s.start_of(seg) <= k < s.start_of(seg) + seg.payload.len(),
        s.data_added(frame, seg, policy).cells.contains_key(k) ==> {
            let c = s.data_added(frame, seg, policy).cells[k];
            ||| s.cells.contains_key(k) && c == s.cells[k]
            ||| c == Cell { owner: frame, byte: seg.payload[k - s.start_of(seg)] }
        },
{
    reveal(merged);
}

/// The policy decides on values, never on coverage: both hold the same offsets
/// and deliver the same number of bytes.
pub proof fn law_policies_cover_alike(s: StreamModel, frame: usize, seg: SegmentModel)
    ensures
        s.data_added(frame, seg, OverlapPolicy::FirstSeen).cells.dom() == s.data_added(
            frame,
            seg,
            OverlapPolicy::LastSeen,
        ).cells.dom(),
        s.data_added(frame, seg, OverlapPolicy::FirstSeen).frontier() == s.data_added(
            frame,
            seg,
            OverlapPolicy::LastSeen,
        ).frontier(),
{
    reveal(merged);
    assert(s.data_added(frame, seg, OverlapPolicy::FirstSeen).cells.dom() =~= s.data_added(
        frame,
        seg,
        OverlapPolicy::LastSeen,
    ).cells.dom());
}

proof fn lemma_no_evidence(
    cells: Map<i64, Cell>,
    start: int,
    data: Seq<u8>,
    n: int,
    frame: usize,
    policy: OverlapPolicy,
)
    requires
        !some_differ(cells, start, data),
        0 <= n <= data.len(),
        i64::MIN <= start,
        start + data.len() <= i64::MAX,
    ensures
        evidence_of(cells, start, data, n, frame, policy) == Seq::<EvidenceModel>::empty(),
    decreases n,
{
    if n > 0 {
        reveal(some_differ);
        lemma_no_evidence(cells, start, data, n - 1, frame, policy);
        assert(holds(cells.dom(), start + n - 1) ==> cells[(start + n - 1) as i64].byte == data[n
            - 1]);
    }
}

/// An exact retransmission changes no byte, leaves no evidence of a conflict and
/// counts as a retransmission.
pub proof fn law_retransmission(
    s: StreamModel,
    frame: usize,
    seg: SegmentModel,
    policy: OverlapPolicy,
)
    requires
        0 < seg.payload.len() <= u32::MAX,
        all_held(s.cells, s.start_of(seg), seg.payload),
        !some_differ(s.cells, s.start_of(seg), seg.payload),
    ensures
        s.data_added(frame, seg, policy).cells == s.cells,
        s.data_added(frame, seg, policy).evidence == s.evidence,
        s.data_added(frame, seg, policy).retransmits == s.retransmits + 1,
        s.data_added(frame, seg, policy).conflicts == s.conflicts,
{
    reveal(merged);
    reveal(some_held);
    reveal(all_held);
    reveal(some_differ);
    let start = s.start_of(seg);
    assert(holds(s.cells.dom(), start));
    let after = s.data_added(frame, seg, policy);
    assert forall|k: i64| start <= k < start + seg.payload.len() implies #[trigger]
        after.cells.contains_key(k) && s.cells.contains_key(k) && after.cells[k] == s.cells[k] by {
        assert(holds(s.cells.dom(), k as int));
    }
    assert(after.cells =~= s.cells);
    lemma_no_evidence(s.cells, start, seg.payload, seg.payload.len() as int, frame, policy);
    assert(after.evidence =~= s.evidence);
}

proof fn lemma_some_evidence(
    cells: Map<i64, Cell>,
    start: int,
    data: Seq<u8>,
    n: int,
    frame: usize,
    policy: OverlapPolicy,
    k: i64,
) -> (i: int)
    requires
        start <= k < start + n,
        n <= data.len(),
        cells.contains_key(k),
        cells[k].byte != data[k - start],
        i64::MIN <= start,
        start + data.len() <= i64::MAX,
    ensures
        0 <= i < evidence_of(cells, start, data, n, frame, policy).len(),
        evidence_of(cells, start, data, n, frame, policy)[i].offset == k,
    decreases n,
{
    if k == start + n - 1 {
        evidence_of(cells, start, data, n, frame, policy).len() - 1
    } else {
        lemma_some_evidence(cells, start, data, n - 1, frame, policy, k)
    }
}

/// A byte that is given differently leaves evidence, whichever policy holds.
pub proof fn law_conflict_leaves_evidence(
    s: StreamModel,
    frame: usize,
    seg: SegmentModel,
    policy: OverlapPolicy,
    k: i64,
)
    requires
        seg.payload.len() <= u32::MAX,
        s.start_of(seg) <= k < s.start_of(seg) + seg.payload.len(),
        s.cells.contains_key(k),
        s.cells[k].byte != seg.payload[k - s.start_of(seg)],
    ensures
        s.data_added(frame, seg, policy).conflicts == s.conflicts + 1,
        exists|i: int|
            s.evidence.len() <= i < s.data_added(frame, seg, policy).evidence.len() && (
            #[trigger] s.data_added(frame, seg, policy).evidence[i]).offset == k,
{
    reveal(some_differ);
    let start = s.start_of(seg);
    assert(holds(s.cells.dom(), k as int));
    let n = seg.payload.len() as int;
    let i = lemma_some_evidence(s.cells, start, seg.payload, n, frame, policy, k);
    let after = s.data_added(frame, seg, policy);
    assert(after.evidence[s.evidence.len() + i].offset == k);
}

/// What was delivered stays delivered: the frontier never moves back, and under
/// the first-seen policy the delivered bytes stay as they are.
pub proof fn law_delivered_grows(
    s: StreamModel,
    frame: usize,
    seg: SegmentModel,
    policy: OverlapPolicy,
)
    requires
        s.wf(),
        s.data_added(frame, seg, policy).wf(),
    ensures
        s.data_added(frame, seg, policy).frontier() >= s.frontier(),
        policy == OverlapPolicy::FirstSeen ==> s.data_added(frame, seg, policy).delivered().take(
            s.frontier(),
        ) == s.delivered(),
{
    reveal(merged);
    let after = s.data_added(frame, seg, policy);
    let f = choose|f: int| is_frontier(s.cells.dom(), f);
    let g = choose|g: int| is_frontier(after.cells.dom(), g);
    lemma_frontier(s.cells.dom(), f);
    lemma_frontier(after.cells.dom(), g);
    if g < f {
        assert(holds(s.cells.dom(), g));
        assert(holds(after.cells.dom(), g));
    }
    if policy == OverlapPolicy::FirstSeen {
        assert forall|i: int| 0 <= i < f implies after.cells[i as i64].byte
            == #[trigger] s.cells[i as i64].byte by {
            assert(holds(s.cells.dom(), i));
        }
        assert(after.delivered().take(f) =~= s.delivered());
    }
}

/// Without a SYN the first segment's data starts at offset 0, and no handshake is
/// claimed.
pub proof fn law_mid_capture_anchor(
    endpoint: Seq<char>,
    frame: usize,
    seg: SegmentModel,
    policy: OverlapPolicy,
)
    requires
        !seg.has_syn(),
        !StreamModel::bare(seg),
    ensures
        StreamModel::fresh(endpoint).start_of(seg) == 0,
        StreamModel::fresh(endpoint).data_added(frame, seg, policy).isn == Some(
            seq_plus(seg.seq, -1),
        ),
        !StreamModel::fresh(endpoint).data_added(frame, seg, policy).syn,
        !StreamModel::fresh(endpoint).data_added(frame, seg, policy).anchored_by_syn,
{
}

/// A call that adds to a direction.
pub enum Call {
    Syn { frame: usize, seg: SegmentModel },
    Data { frame: usize, seg: SegmentModel, policy: OverlapPolicy },
}

impl StreamModel {
    /// The state after one call.
    pub open spec fn called(self, c: Call) -> StreamModel {
        match c {
            Call::Syn { frame, seg } => self.syn_added(frame, seg),
            Call::Data { frame, seg, policy } => self.data_added(frame, seg, policy),
        }
    }

    /// The state after the first `n` calls.
    pub open spec fn called_all(self, cs: Seq<Call>, n: int) -> StreamModel
        decreases n,
    {
        if n <= 0 {
            self
        } else {
            self.called_all(cs, n - 1).called(cs[n - 1])
        }
    }
}

/// The anchor of a direction, once set, stays through every later call, and so does
/// whether a SYN set it: no handshake is made up afterwards.
pub proof fn law_anchor_stays(s: StreamModel, cs: Seq<Call>, n: int)
    requires
        s.isn is Some,
        0 <= n <= cs.len(),
    ensures
        s.called_all(cs, n).isn == s.isn,
        s.called_all(cs, n).anchored_by_syn == s.anchored_by_syn,
    decreases n,
{
    if n > 0 {
        law_anchor_stays(s, cs, n - 1);
    }
}

/// Where the first segment that contributes to a new direction is no SYN, the anchor is
/// one below its number, after that segment and after every later call.
pub proof fn law_mid_capture_anchor_stays(
    endpoint: Seq<char>,
    frame: usize,
    seg: SegmentModel,
    policy: OverlapPolicy,
    cs: Seq<Call>,
    n: int,
)
    requires
        !seg.has_syn(),
        !StreamModel::bare(seg),
        0 <= n <= cs.len(),
    ensures
        ({
            let s = StreamModel::fresh(endpoint).data_added(frame, seg, policy);
            s.called_all(cs, n).isn == Some(seq_plus(seg.seq, -1)) && !s.called_all(
                cs,
                n,
            ).anchored_by_syn
        }),
{
    law_mid_capture_anchor(endpoint, frame, seg, policy);
    law_anchor_stays(StreamModel::fresh(endpoint).data_added(frame, seg, policy), cs, n);
}

/// An offset lies in one of some ranges.
pub open spec fn in_some(r: Seq<(i64, i64)>, o: int) -> bool {
    exists|a: i64, b: i64| #[trigger] r.contains((a, b)) && a <= o < b
}

proof fn lemma_down(dom: Set<i64>, lo: int, o: int, held: bool) -> (a: int)
    requires
        lo <= o,
        holds(dom, o) == held,
    ensures
        lo <= a <= o,
        a == lo || holds(dom, a - 1) != held,
        forall|x: int| a <= x <= o ==> #[trigger] holds(dom, x) == held,
    decreases o - lo,
{
    if o == lo || holds(dom, o - 1) != held {
        o
    } else {
        lemma_down(dom, lo, o - 1, held)
    }
}

proof fn lemma_up(dom: Set<i64>, o: int, hi: int, held: bool) -> (b: int)
    requires
        o < hi,
        holds(dom, o) == held,
    ensures
        o < b <= hi,
        b == hi || holds(dom, b) != held,
        forall|x: int| o <= x < b ==> #[trigger] holds(dom, x) == held,
    decreases hi - o,
{
    if o + 1 == hi || holds(dom, o + 1) != held {
        o + 1
    } else {
        lemma_up(dom, o + 1, hi, held)
    }
}

/// The gaps and the covered ranges of a report split the range of its data: every offset
/// of it lies in a gap or in a covered range, and never in both. Both lists are in order,
/// their ranges are not empty, and none touches the next.
pub proof fn law_gaps_and_coverage_split(r: DirectionReport, m: StreamModel, o: int)
    requires
        m.wf(),
        r.tells(m),
        0 <= o < r.data_rel_range.end,
    ensures
        in_some(pairs(r.gaps@), o) != in_some(pairs(r.covered_intervals@), o),
        ranges_ascend(pairs(r.gaps@)),
        ranges_ascend(pairs(r.covered_intervals@)),
        forall|i: int| 0 <= i < r.gaps@.len() ==> (#[trigger] r.gaps@[i]).start < r.gaps@[i].end,
{
    let dom = m.cells.dom();
    let gs = pairs(r.gaps@);
    let cs = pairs(r.covered_intervals@);
    let end = m.observed_end;
    assert forall|i: int| 0 <= i < r.gaps@.len() implies (#[trigger] r.gaps@[i]).start
        < r.gaps@[i].end by {
        assert(gs[i] == (r.gaps@[i].start, r.gaps@[i].end));
        assert(gs.contains((r.gaps@[i].start, r.gaps@[i].end)));
    }
    if holds(dom, o) {
        let a = lemma_down(dom, i64::MIN as int, o, true);
        let b = lemma_up(dom, o, end, true);
        assert(!holds(dom, a - 1));
        if holds(dom, end) {
            assert(m.cells.contains_key(end as i64));
        }
        assert(is_held_range(dom, a, b));
        assert(cs.contains((a as i64, b as i64)));
        if in_some(gs, o) {
            let (x, y) = choose|x: i64, y: i64| #[trigger] gs.contains((x, y)) && x <= o < y;
            assert(is_hole(dom, 0, end, x as int, y as int));
            assert(!holds(dom, o));
        }
    } else {
        let a = lemma_down(dom, 0, o, false);
        let b = lemma_up(dom, o, end, false);
        assert(is_hole(dom, 0, end, a, b));
        assert(gs.contains((a as i64, b as i64)));
        if in_some(cs, o) {
            let (x, y) = choose|x: i64, y: i64| #[trigger] cs.contains((x, y)) && x <= o < y;
            assert(is_held_range(dom, x as int, y as int));
            assert(holds(dom, o));
        }
    }
}

/// What is delivered ends where the first gap starts, or where the data ends, and two
/// digits stand for each byte of it.
pub proof fn law_delivered_up_to_first_gap(r: DirectionReport, m: StreamModel)
    requires
        m.wf(),
        r.tells(m),
    ensures
        r.gaps@.len() > 0 ==> r.delivered_length == r.gaps@[0].start,
        r.gaps@.len() == 0 ==> r.delivered_length == r.data_rel_range.end,
        r.delivered_hex@.len() == 2 * r.delivered_length,
{
    let dom = m.cells.dom();
    let gs = pairs(r.gaps@);
    let end = m.observed_end;
    let f = choose|f: int| is_frontier(dom, f);
    lemma_frontier(dom, f);
    if f > 0 {
        assert(holds(dom, f - 1));
        assert(m.cells.contains_key((f - 1) as i64));
    }
    if f < end {
        let b = lemma_up(dom, f, end, false);
        assert(is_hole(dom, 0, end, f, b));
        assert(gs.contains((f as i64, b as i64)));
        let i = choose|i: int| 0 <= i < gs.len() && gs[i] == (f as i64, b as i64);
        if i > 0 {
            assert(gs[0].1 < gs[i].0);
        }
        assert(gs.contains((gs[0].0, gs[0].1)));
        assert(is_hole(dom, 0, end, gs[0].0 as int, gs[0].1 as int));
        assert(!holds(dom, gs[0].0 as int));
        if gs[0].0 < f {
            assert(holds(dom, gs[0].0 as int));
        }
        if i > 0 {
            assert(gs[0].0 >= f);
        }
        assert(gs[0] == (r.gaps@[0].start, r.gaps@[0].end));
    } else if r.gaps@.len() > 0 {
        assert(gs.contains((gs[0].0, gs[0].1)));
        assert(is_hole(dom, 0, end, gs[0].0 as int, gs[0].1 as int));
        assert(holds(dom, gs[0].0 as int));
    }
}

} // verus!
