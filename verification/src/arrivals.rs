//! What the arrival of one segment does to a direction, said byte by byte.

use vstd::prelude::*;
use crate::frame::SegmentModel;
use crate::offsets::{holds, is_frontier, lemma_frontier};
use crate::reasm::{
    self, all_held, evidence_of, labels_of, merged, some_differ, some_held, tag, EvidenceModel,
    Labels, StreamModel,
};
use crate::seq::{
    collisions_of, fresh_offsets, held_offsets, insert_all, Cell, Collision,
    OverlapPolicy as TablePolicy,
};
use crate::text::hex_of;

verus! {

/// Whether a segment has a flag.
pub open spec fn flagged(seg: SegmentModel, bit: u8) -> bool {
    seg.flags & bit != 0
}

/// How many places of the sequence space the flags of a segment take.
pub open spec fn flag_places(seg: SegmentModel) -> int {
    (if flagged(seg, 0x02) {
        1int
    } else {
        0
    }) + (if flagged(seg, 0x01) {
        1int
    } else {
        0
    })
}

/// Whether a segment brings nothing: no byte, no SYN, no FIN and no RST.
pub open spec fn empty(seg: SegmentModel) -> bool {
    seg.payload.len() == 0 && !flagged(seg, 0x01) && !flagged(seg, 0x02) && !flagged(seg, 0x04)
}

/// The offset of the first byte of a segment, where the byte after the number `isn` has
/// offset 0: the nearest offset that agrees with the number of the byte.
pub open spec fn is_place(isn: u32, seg: SegmentModel, at: int) -> bool {
    &&& -0x8000_0000 <= at < 0x8000_0000
    &&& (isn + 1 + at - seg.seq - (if flagged(seg, 0x02) {
        1int
    } else {
        0
    })) % 0x1_0000_0000 == 0
}

/// A segment that brings nothing changes nothing.
pub proof fn law_bare_acknowledgement(
    s: StreamModel,
    frame: usize,
    seg: SegmentModel,
    policy: reasm::OverlapPolicy,
)
    requires
        empty(seg),
    ensures
        s.data_added(frame, seg, policy) == s,
{
}

/// Once there is an initial number, each segment is placed by its own number.
pub proof fn law_placed_by_number(s: StreamModel, seg: SegmentModel, isn: u32)
    requires
        s.isn == Some(isn),
    ensures
        is_place(isn, seg, s.start_of(seg)),
{
}

/// A SYN is the initial number of a direction that has none: its data starts at offset 0.
pub proof fn law_syn_is_the_anchor(
    s: StreamModel,
    frame: usize,
    seg: SegmentModel,
    policy: reasm::OverlapPolicy,
)
    requires
        s.isn is None,
        flagged(seg, 0x02),
    ensures
        s.start_of(seg) == 0,
        s.data_added(frame, seg, policy).isn == Some(seg.seq),
        s.data_added(frame, seg, policy).anchored_by_syn,
        s.syn_added(frame, seg).isn == Some(seg.seq),
        s.syn_added(frame, seg).anchored_by_syn,
        s.syn_added(frame, seg).syn,
        s.syn_added(frame, seg).cells == s.cells,
{
}

/// Every byte of a segment is held afterwards, whatever the flags of the segment: the
/// byte that was held before where the policy is to keep it, and its own otherwise.
/// Nothing else changes.
pub proof fn law_data_is_held(
    s: StreamModel,
    frame: usize,
    seg: SegmentModel,
    policy: reasm::OverlapPolicy,
    k: i64,
)
    ensures
        ({
            let a = s.data_added(frame, seg, policy);
            let i = k - s.start_of(seg);
            &&& 0 <= i < seg.payload.len() ==> {
                &&& a.cells.contains_key(k)
                &&& a.cells[k].byte == if s.cells.contains_key(k) && policy
                    == reasm::OverlapPolicy::FirstSeen {
                    s.cells[k].byte
                } else {
                    seg.payload[i]
                }
                &&& a.cells[k].owner == if s.cells.contains_key(k) && s.cells[k].byte
                    == a.cells[k].byte {
                    s.cells[k].owner
                } else {
                    frame
                }
            }
            &&& !(0 <= i < seg.payload.len()) ==> {
                &&& a.cells.contains_key(k) == s.cells.contains_key(k)
                &&& s.cells.contains_key(k) ==> a.cells[k] == s.cells[k]
            }
        }),
{
    reveal(merged);
}

/// The range of the data reaches to the end of the farthest segment.
pub proof fn law_range_reaches_the_farthest(
    s: StreamModel,
    frame: usize,
    seg: SegmentModel,
    policy: reasm::OverlapPolicy,
)
    requires
        !empty(seg),
    ensures
        ({
            let a = s.data_added(frame, seg, policy);
            let end = s.start_of(seg) + seg.payload.len();
            &&& a.observed_end >= s.observed_end
            &&& a.observed_end >= end
            &&& a.observed_end == s.observed_end || a.observed_end == end
        }),
{
}

/// A FIN stands behind the data of its segment, a RST is remembered with its number, and
/// neither is ever taken back.
pub proof fn law_ends_are_remembered(
    s: StreamModel,
    frame: usize,
    seg: SegmentModel,
    policy: reasm::OverlapPolicy,
)
    requires
        seg.payload.len() <= u32::MAX,
    ensures
        ({
            let a = s.data_added(frame, seg, policy);
            &&& a.fin == (s.fin || flagged(seg, 0x01))
            &&& a.rst == (s.rst || flagged(seg, 0x04))
            &&& a.syn == (s.syn || flagged(seg, 0x02))
            &&& flagged(seg, 0x01) ==> (a.fin_rel matches Some(at) && at == s.start_of(seg)
                + seg.payload.len())
            &&& !flagged(seg, 0x01) ==> a.fin_rel == s.fin_rel
            &&& flagged(seg, 0x04) ==> a.rst_seq == Some(seg.seq)
            &&& !flagged(seg, 0x04) ==> a.rst_seq == s.rst_seq
        }),
{
}

/// Each segment that brings something leaves one record behind those that are there: where
/// it stands and how long it is.
pub proof fn law_segment_is_recorded(
    s: StreamModel,
    frame: usize,
    seg: SegmentModel,
    policy: reasm::OverlapPolicy,
)
    requires
        !empty(seg),
    ensures
        ({
            let a = s.data_added(frame, seg, policy);
            let r = a.segments.last();
            &&& a.segments.len() == s.segments.len() + 1
            &&& a.segments.drop_last() == s.segments
            &&& r.frame_index == frame
            &&& r.seq == seg.seq
            &&& (r.end_seq - r.seq - r.data_len - flag_places(seg)) % 0x1_0000_0000 == 0
            &&& r.rel_start == s.start_of(seg)
            &&& r.rel_end - r.rel_start == r.data_len
            &&& r.data_len == seg.payload.len()
            &&& r.syn == flagged(seg, 0x02)
            &&& r.fin == flagged(seg, 0x01)
            &&& r.rst == flagged(seg, 0x04)
            &&& r.ack == flagged(seg, 0x10)
            &&& a.first_seq == if s.first_seq is Some {
                s.first_seq
            } else {
                Some(seg.seq)
            }
            &&& a.last_seq == Some(r.end_seq)
        }),
{
    let a = s.data_added(frame, seg, policy);
    assert(a.segments.drop_last() =~= s.segments);
    assert(a.segments.last().data_len == seg.payload.len());
}

/// What is said of a segment beside its place.
pub open spec fn called(a: StreamModel, word: Seq<char>) -> bool {
    a.segments.last().classifications.contains(word)
}

/// A byte of a segment finds its offset held.
pub open spec fn met(s: StreamModel, seg: SegmentModel, i: int) -> bool {
    0 <= i < seg.payload.len() && holds(s.cells.dom(), s.start_of(seg) + i)
}

/// A byte of a segment finds another byte at its offset.
pub open spec fn contradicted(s: StreamModel, seg: SegmentModel, i: int) -> bool {
    met(s, seg, i) && s.cells[(s.start_of(seg) + i) as i64].byte != seg.payload[i]
}

proof fn lemma_met(s: StreamModel, seg: SegmentModel)
    ensures
        some_held(s.cells, s.start_of(seg), seg.payload) == exists|i: int|
            #[trigger] met(s, seg, i),
        all_held(s.cells, s.start_of(seg), seg.payload) == forall|i: int|
            0 <= i < seg.payload.len() ==> #[trigger] met(s, seg, i),
        some_differ(s.cells, s.start_of(seg), seg.payload) == exists|i: int|
            #[trigger] contradicted(s, seg, i),
{
    reveal(some_held);
    reveal(all_held);
    reveal(some_differ);
    let start = s.start_of(seg);
    let n = seg.payload.len();
    if some_held(s.cells, start, seg.payload) {
        let x = choose|x: int| start <= x < start + n && #[trigger] holds(s.cells.dom(), x);
        assert(met(s, seg, x - start));
    }
    if exists|i: int| #[trigger] met(s, seg, i) {
        let i = choose|i: int| #[trigger] met(s, seg, i);
        assert(holds(s.cells.dom(), start + i));
    }
    if all_held(s.cells, start, seg.payload) {
        assert forall|i: int| 0 <= i < n implies #[trigger] met(s, seg, i) by {
            assert(holds(s.cells.dom(), start + i));
        }
    }
    if forall|i: int| 0 <= i < n ==> #[trigger] met(s, seg, i) {
        assert forall|x: int| start <= x < start + n implies #[trigger] holds(s.cells.dom(), x) by {
            assert(met(s, seg, x - start));
        }
    }
    if some_differ(s.cells, start, seg.payload) {
        let x = choose|x: int|
            start <= x < start + n && #[trigger] holds(s.cells.dom(), x) && s.cells[x as i64].byte
                != seg.payload[x - start];
        assert(contradicted(s, seg, x - start));
    }
    if exists|i: int| #[trigger] contradicted(s, seg, i) {
        let i = choose|i: int| #[trigger] contradicted(s, seg, i);
        assert(holds(s.cells.dom(), start + i));
    }
}

/// The counts tell the segments apart: a conflict is counted where a byte was held with
/// another value, a retransmission where all bytes were held or some were and none
/// differed, and a segment out of order where it starts behind a missing byte.
pub proof fn law_counts_tell_apart(
    s: StreamModel,
    frame: usize,
    seg: SegmentModel,
    policy: reasm::OverlapPolicy,
    f: int,
)
    requires
        !empty(seg),
        is_frontier(s.cells.dom(), f),
    ensures
        ({
            let a = s.data_added(frame, seg, policy);
            let some = exists|i: int| #[trigger] met(s, seg, i);
            let all = forall|i: int| 0 <= i < seg.payload.len() ==> #[trigger] met(s, seg, i);
            let differs = exists|i: int| #[trigger] contradicted(s, seg, i);
            &&& a.conflicts - s.conflicts == if differs {
                1int
            } else {
                0
            }
            &&& a.retransmits - s.retransmits == if some && (all || !differs) {
                1int
            } else {
                0
            }
            &&& a.out_of_order - s.out_of_order == if s.start_of(seg) > f {
                1int
            } else {
                0
            }
        }),
{
    lemma_met(s, seg);
    lemma_frontier(s.cells.dom(), f);
}

proof fn lemma_words(l: Labels)
    ensures
        labels_of(l).contains("extends-delivered"@) == l.extends,
        labels_of(l).contains("fin"@) == l.fin,
        labels_of(l).contains("out-of-order"@) == l.ahead,
        labels_of(l).contains("overlap"@) == l.overlap,
        labels_of(l).contains("overlap-conflict"@) == l.conflict,
        labels_of(l).contains("retransmission"@) == l.again,
        labels_of(l).contains("rst"@) == l.rst,
        labels_of(l).contains("syn"@) == l.syn,
{
    reveal(labels_of);
    reveal_strlit("extends-delivered");
    reveal_strlit("fin");
    reveal_strlit("out-of-order");
    reveal_strlit("overlap");
    reveal_strlit("overlap-conflict");
    reveal_strlit("retransmission");
    reveal_strlit("rst");
    reveal_strlit("syn");
    assert("extends-delivered"@.len() == 17 && "out-of-order"@.len() == 12);
    assert("overlap"@.len() == 7 && "overlap-conflict"@.len() == 16);
    assert("retransmission"@.len() == 14);
    assert("fin"@.len() == 3 && "rst"@.len() == 3 && "syn"@.len() == 3);
    assert("fin"@[0] == 'f');
    assert("rst"@[0] == 'r');
    assert("syn"@[0] == 's');
    let t1 = tag(l.extends, "extends-delivered"@);
    let t2 = t1 + tag(l.fin, "fin"@);
    let t3 = t2 + tag(l.ahead, "out-of-order"@);
    let t4 = t3 + tag(l.overlap, "overlap"@);
    let t5 = t4 + tag(l.conflict, "overlap-conflict"@);
    let t6 = t5 + tag(l.again, "retransmission"@);
    let t7 = t6 + tag(l.rst, "rst"@);
    lemma_tag(seq![], l.extends, "extends-delivered"@);
    assert(seq![] + tag(l.extends, "extends-delivered"@) =~= t1);
    lemma_tag(t1, l.fin, "fin"@);
    lemma_tag(t2, l.ahead, "out-of-order"@);
    lemma_tag(t3, l.overlap, "overlap"@);
    lemma_tag(t4, l.conflict, "overlap-conflict"@);
    lemma_tag(t5, l.again, "retransmission"@);
    lemma_tag(t6, l.rst, "rst"@);
    lemma_tag(t7, l.syn, "syn"@);
    let all = labels_of(l);
    assert(all == t7 + tag(l.syn, "syn"@));
    assert(all.contains("extends-delivered"@) == t1.contains("extends-delivered"@));
    assert(all.contains("overlap"@) == t4.contains("overlap"@));
}

proof fn lemma_tag(s: Seq<Seq<char>>, on: bool, word: Seq<char>)
    ensures
        forall|w: Seq<char>| #[trigger]
            (s + tag(on, word)).contains(w) <==> s.contains(w) || on && w == word,
{
    let t = s + tag(on, word);
    assert forall|w: Seq<char>| #[trigger] t.contains(w) <==> s.contains(w) || on && w == word by {
        if s.contains(w) {
            let i = choose|i: int| 0 <= i < s.len() && s[i] == w;
            assert(t[i] == w);
        }
        if on && w == word {
            assert(t[s.len() as int] == w);
        }
        if t.contains(w) {
            let i = choose|i: int| 0 <= i < t.len() && t[i] == w;
            if i < s.len() {
                assert(s[i] == w);
            }
        }
    }
}

/// The words of a record say what the segment was: each word stands there if and only if
/// what it says is so.
pub proof fn law_words_tell_apart(
    s: StreamModel,
    frame: usize,
    seg: SegmentModel,
    policy: reasm::OverlapPolicy,
    f: int,
    g: int,
)
    requires
        !empty(seg),
        is_frontier(s.cells.dom(), f),
        is_frontier(s.data_added(frame, seg, policy).cells.dom(), g),
    ensures
        ({
            let a = s.data_added(frame, seg, policy);
            let some = exists|i: int| #[trigger] met(s, seg, i);
            let all = forall|i: int| 0 <= i < seg.payload.len() ==> #[trigger] met(s, seg, i);
            let differs = exists|i: int| #[trigger] contradicted(s, seg, i);
            &&& called(a, "syn"@) == flagged(seg, 0x02)
            &&& called(a, "fin"@) == flagged(seg, 0x01)
            &&& called(a, "rst"@) == flagged(seg, 0x04)
            &&& called(a, "out-of-order"@) == (s.start_of(seg) > f)
            &&& called(a, "extends-delivered"@) == (s.start_of(seg) <= f < g)
            &&& called(a, "overlap"@) == (some && !all)
            &&& called(a, "overlap-conflict"@) == (differs && !all)
            &&& called(a, "retransmission"@) == (some && (all || !differs))
        }),
{
    let a = s.data_added(frame, seg, policy);
    lemma_met(s, seg);
    lemma_frontier(s.cells.dom(), f);
    lemma_frontier(a.cells.dom(), g);
    let after = reasm::carried(s, frame, seg, s.start_of(seg), policy);
    assert(after.cells == a.cells);
    let l = reasm::seen_as(s, seg, s.start_of(seg), after.frontier());
    lemma_words(l);
    assert(a.segments.last().classifications == labels_of(l));
}

proof fn lemma_evidence(s: StreamModel, frame: usize, seg: SegmentModel, policy: reasm::OverlapPolicy, n: int)
    requires
        0 <= n <= seg.payload.len() <= u32::MAX,
    ensures
        ({
            let start = s.start_of(seg);
            let es = evidence_of(s.cells, start, seg.payload, n, frame, policy);
            &&& forall|j: int|
                0 <= j < es.len() ==> 0 <= (#[trigger] es[j]).offset - start < n && tells(
                    s,
                    frame,
                    seg,
                    policy,
                    es[j],
                )
            &&& forall|j: int, l: int|
                0 <= j < l < es.len() ==> (#[trigger] es[j]).offset < (#[trigger] es[l]).offset
            &&& forall|i: int| 0 <= i < n && #[trigger] contradicted(s, seg, i) ==> told(es, start + i)
        }),
    decreases n,
{
    if n > 0 {
        lemma_evidence(s, frame, seg, policy, n - 1);
        let start = s.start_of(seg);
        let rest = evidence_of(s.cells, start, seg.payload, n - 1, frame, policy);
        let es = evidence_of(s.cells, start, seg.payload, n, frame, policy);
        let k = (start + n - 1) as i64;
        assert(k == start + n - 1);
        assert(holds(s.cells.dom(), start + n - 1) == s.cells.contains_key(k));
        assert(contradicted(s, seg, n - 1) == (s.cells.contains_key(k) && s.cells[k].byte
            != seg.payload[n - 1]));
        assert forall|i: int| 0 <= i < n && #[trigger] contradicted(s, seg, i) implies told(
            es,
            start + i,
        ) by {
            if i < n - 1 {
                let j = choose|j: int| 0 <= j < rest.len() && (#[trigger] rest[j]).offset == start + i;
                assert(es[j].offset == start + i);
            } else {
                assert(es[rest.len() as int].offset == start + i);
            }
        }
    }
}

/// Some evidence is about an offset.
pub open spec fn told(es: Seq<EvidenceModel>, o: int) -> bool {
    exists|j: int| 0 <= j < es.len() && (#[trigger] es[j]).offset == o
}

/// Evidence says what happened at its offset: which of the two bytes stayed, which did
/// not, and which frames they came from.
pub open spec fn tells(
    s: StreamModel,
    frame: usize,
    seg: SegmentModel,
    policy: reasm::OverlapPolicy,
    e: EvidenceModel,
) -> bool {
    let i = e.offset - s.start_of(seg);
    let held = s.cells[e.offset];
    &&& contradicted(s, seg, i)
    &&& e.policy == policy
    &&& policy == reasm::OverlapPolicy::FirstSeen ==> {
        &&& e.kept_frame == held.owner
        &&& e.superseded_frame == frame
        &&& e.kept_hex == hex_of(seq![held.byte])
        &&& e.offered_hex == hex_of(seq![seg.payload[i]])
    }
    &&& policy == reasm::OverlapPolicy::LastSeen ==> {
        &&& e.kept_frame == frame
        &&& e.superseded_frame == held.owner
        &&& e.kept_hex == hex_of(seq![seg.payload[i]])
        &&& e.offered_hex == hex_of(seq![held.byte])
    }
}

/// The evidence that a segment adds is one entry for each of its bytes that was held with
/// another value, in the order of the bytes, and nothing else.
pub proof fn law_evidence_tells_all(
    s: StreamModel,
    frame: usize,
    seg: SegmentModel,
    policy: reasm::OverlapPolicy,
)
    requires
        seg.payload.len() <= u32::MAX,
    ensures
        ({
            let before = s.evidence;
            let after = s.data_added(frame, seg, policy).evidence;
            let added = after.skip(before.len() as int);
            &&& after == before + added
            &&& forall|j: int|
                0 <= j < added.len() ==> tells(s, frame, seg, policy, #[trigger] added[j])
            &&& forall|j: int, l: int|
                0 <= j < l < added.len() ==> (#[trigger] added[j]).offset < (#[trigger] added[l]).offset
            &&& forall|i: int| #[trigger]
                contradicted(s, seg, i) ==> told(added, s.start_of(seg) + i)
        }),
{
    let n = seg.payload.len() as int;
    lemma_evidence(s, frame, seg, policy, n);
    let es = evidence_of(s.cells, s.start_of(seg), seg.payload, n, frame, policy);
    let after = s.data_added(frame, seg, policy).evidence;
    if StreamModel::bare(seg) {
        assert(after.skip(s.evidence.len() as int) =~= seq![]);
        assert(after =~= s.evidence + after.skip(s.evidence.len() as int));
    } else {
        assert(after == s.evidence + es);
        assert(after.skip(s.evidence.len() as int) =~= es);
    }
}

/// Carrying bytes into a table leaves at each of their offsets the byte that the policy
/// picks, with the frame that first brought one and the frame that last did. Nothing else
/// changes.
pub proof fn law_table_holds_what_came(
    m: Map<u64, Cell>,
    start: int,
    data: Seq<u8>,
    frame: usize,
    policy: TablePolicy,
    k: u64,
)
    ensures
        ({
            let a = insert_all(m, start, data, frame, policy);
            let i = k - start;
            &&& 0 <= i < data.len() ==> {
                &&& a.contains_key(k)
                &&& a[k].byte == if m.contains_key(k) && policy == TablePolicy::FirstSeen {
                    m[k].byte
                } else {
                    data[i]
                }
                &&& a[k].first_frame == if m.contains_key(k) {
                    m[k].first_frame
                } else {
                    frame
                }
                &&& a[k].last_frame == frame
            }
            &&& !(0 <= i < data.len()) ==> {
                &&& a.contains_key(k) == m.contains_key(k)
                &&& m.contains_key(k) ==> a[k] == m[k]
            }
        }),
{
}

/// A differing byte of a report says which bytes met, whose they are, and which stayed.
pub open spec fn collided(
    m: Map<u64, Cell>,
    start: int,
    data: Seq<u8>,
    frame: usize,
    policy: TablePolicy,
    c: Collision,
) -> bool {
    let i = c.offset - start;
    &&& 0 <= i < data.len()
    &&& m.contains_key(c.offset)
    &&& m[c.offset].byte != data[i]
    &&& c.old_byte == m[c.offset].byte
    &&& c.new_byte == data[i]
    &&& c.old_frame == m[c.offset].first_frame
    &&& c.new_frame == frame
    &&& c.replaced == (insert_all(m, start, data, frame, policy)[c.offset].byte == c.new_byte)
}

/// Some collision is at an offset.
pub open spec fn collides(cs: Seq<Collision>, k: u64) -> bool {
    exists|j: int| 0 <= j < cs.len() && (#[trigger] cs[j]).offset == k
}

proof fn lemma_split(m: Map<u64, Cell>, start: int, n: nat)
    requires
        0 <= start,
        start + n <= u64::MAX,
    ensures
        forall|k: u64| #[trigger]
            fresh_offsets(m, start, n).contains(k) <==> start <= k < start + n
                && !m.contains_key(k),
        forall|k: u64| #[trigger]
            held_offsets(m, start, n).contains(k) <==> start <= k < start + n
                && m.contains_key(k),
        rises(fresh_offsets(m, start, n)),
        rises(held_offsets(m, start, n)),
    decreases n,
{
    if n > 0 {
        lemma_split(m, start, (n - 1) as nat);
        let off = (start + n - 1) as u64;
        let f = fresh_offsets(m, start, (n - 1) as nat);
        let h = held_offsets(m, start, (n - 1) as nat);
        lemma_pushed(f, off);
        lemma_pushed(h, off);
        assert forall|j: int| 0 <= j < f.len() implies #[trigger] f[j] < off by {
            assert(f.contains(f[j]));
        }
        assert forall|j: int| 0 <= j < h.len() implies #[trigger] h[j] < off by {
            assert(h.contains(h[j]));
        }
    }
}

proof fn lemma_pushed(s: Seq<u64>, x: u64)
    ensures
        forall|k: u64| #[trigger] s.push(x).contains(k) <==> s.contains(k) || k == x,
{
    assert forall|k: u64| #[trigger] s.push(x).contains(k) <==> s.contains(k) || k == x by {
        if s.contains(k) {
            let i = choose|i: int| 0 <= i < s.len() && s[i] == k;
            assert(s.push(x)[i] == k);
        }
        assert(s.push(x)[s.len() as int] == x);
        if s.push(x).contains(k) && k != x {
            let i = choose|i: int| 0 <= i < s.push(x).len() && s.push(x)[i] == k;
            assert(s[i] == k);
        }
    }
}

/// Numbers in strictly increasing order.
pub open spec fn rises(s: Seq<u64>) -> bool {
    forall|i: int, j: int| 0 <= i < j < s.len() ==> s[i] < s[j]
}

/// A report splits the offsets of the bytes that came: those that held nothing are new,
/// the others overlap, each once and in order.
pub proof fn law_report_splits_the_offsets(m: Map<u64, Cell>, start: int, data: Seq<u8>, k: u64)
    requires
        0 <= start,
        start + data.len() <= u64::MAX,
    ensures
        ({
            let fresh = fresh_offsets(m, start, data.len());
            let held = held_offsets(m, start, data.len());
            &&& fresh.contains(k) == (start <= k < start + data.len() && !m.contains_key(k))
            &&& held.contains(k) == (start <= k < start + data.len() && m.contains_key(k))
            &&& rises(fresh)
            &&& rises(held)
        }),
{
    lemma_split(m, start, data.len());
}

proof fn lemma_collisions(
    m: Map<u64, Cell>,
    start: int,
    data: Seq<u8>,
    frame: usize,
    policy: TablePolicy,
    n: nat,
)
    requires
        n <= data.len(),
        0 <= start,
        start + data.len() <= u64::MAX,
    ensures
        ({
            let cs = collisions_of(m, start, data, frame, policy, n);
            &&& forall|j: int|
                0 <= j < cs.len() ==> (#[trigger] cs[j]).offset < start + n && collided(
                    m,
                    start,
                    data,
                    frame,
                    policy,
                    cs[j],
                )
            &&& forall|j: int, l: int|
                0 <= j < l < cs.len() ==> (#[trigger] cs[j]).offset < (#[trigger] cs[l]).offset
            &&& forall|k: u64|
                start <= k < start + n && m.contains_key(k) && m[k].byte != data[k - start]
                    ==> #[trigger] collides(cs, k)
        }),
    decreases n,
{
    if n > 0 {
        lemma_collisions(m, start, data, frame, policy, (n - 1) as nat);
        let off = (start + n - 1) as u64;
        let rest = collisions_of(m, start, data, frame, policy, (n - 1) as nat);
        let cs = collisions_of(m, start, data, frame, policy, n);
        assert forall|k: u64|
            start <= k < start + n && m.contains_key(k) && m[k].byte != data[k
                - start] implies #[trigger] collides(cs, k) by {
            if k < off {
                assert(collides(rest, k));
                let j = choose|j: int| 0 <= j < rest.len() && (#[trigger] rest[j]).offset == k;
                assert(cs[j].offset == k);
            } else {
                assert(cs[rest.len() as int].offset == k);
            }
        }
    }
}

/// The collisions of a report are the bytes that were held with another value, each once
/// and in order.
pub proof fn law_report_tells_collisions(
    m: Map<u64, Cell>,
    start: int,
    data: Seq<u8>,
    frame: usize,
    policy: TablePolicy,
)
    requires
        0 <= start,
        start + data.len() <= u64::MAX,
    ensures
        ({
            let cs = collisions_of(m, start, data, frame, policy, data.len());
            &&& forall|j: int|
                0 <= j < cs.len() ==> collided(m, start, data, frame, policy, #[trigger] cs[j])
            &&& forall|j: int, l: int|
                0 <= j < l < cs.len() ==> (#[trigger] cs[j]).offset < (#[trigger] cs[l]).offset
            &&& forall|k: u64|
                start <= k < start + data.len() && m.contains_key(k) && m[k].byte != data[k - start]
                    ==> #[trigger] collides(cs, k)
        }),
{
    lemma_collisions(m, start, data, frame, policy, data.len());
}

/// A SYN leaves one record in front of the data, and is remembered.
pub proof fn law_syn_is_recorded(s: StreamModel, frame: usize, seg: SegmentModel)
    ensures
        ({
            let a = s.syn_added(frame, seg);
            let r = a.segments.last();
            &&& a.segments.len() == s.segments.len() + 1
            &&& a.segments.drop_last() == s.segments
            &&& r.frame_index == frame
            &&& r.seq == seg.seq
            &&& (r.end_seq - r.seq - 1) % 0x1_0000_0000 == 0
            &&& r.rel_start == -1
            &&& r.rel_end == 0
            &&& r.data_len == 0
            &&& r.syn
            &&& r.fin == flagged(seg, 0x01)
            &&& r.rst == flagged(seg, 0x04)
            &&& r.ack == flagged(seg, 0x10)
            &&& r.classifications == seq!["syn"@]
            &&& a.syn
            &&& a.isn == if s.isn is Some {
                s.isn
            } else {
                Some(seg.seq)
            }
            &&& a.first_seq == if s.first_seq is Some {
                s.first_seq
            } else {
                Some(seg.seq)
            }
            &&& a.last_seq == Some(seg.seq)
            &&& a.cells == s.cells
            &&& a.observed_end == s.observed_end
            &&& a.evidence == s.evidence
        }),
{
    assert(s.syn_added(frame, seg).segments.drop_last() =~= s.segments);
}

} // verus!
