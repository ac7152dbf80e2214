//! What the generations of connections tell of the datagrams that were taken in: each
//! datagram goes to one session and counts as its activity, and each direction holds the
//! bytes that came.

use vstd::prelude::*;
use crate::offsets::{holds, is_frontier, lemma_frontier, is_hole, lists_holes};
use crate::streams::{law_offset, offset_of};
use crate::tcp::{
    canon_of, differing, is_extent, keyed, laid, last_place, lemma_closed_words, lemma_last_place,
    law_one_open, law_sessions_stay_keyed, law_timeout_splits, lemma_target, lists_gaps,
    meets_held, one_open, pair_key, DatagramModel, DirModel, DirState,
    EngineModel, OverlapPolicy, SessionModel,
};

verus! {

/// The direction after the first `n` of some datagrams.
pub open spec fn taken(
    dm: DirModel,
    ds: Seq<DatagramModel>,
    policy: OverlapPolicy,
    n: int,
) -> DirModel
    decreases n,
{
    if n <= 0 {
        dm
    } else {
        taken(dm, ds, policy, n - 1).after(ds[n - 1], policy)
    }
}

/// Where the data of a datagram starts, in a direction that the datagram `first` opened.
/// The number of a SYN stands for no byte.
pub open spec fn start_of(first: DatagramModel, d: DatagramModel) -> int {
    offset_of(d.seq, first.seq) - (if first.flags & 0x02 != 0 {
        1int
    } else {
        0
    })
}

/// The datagram brings the byte at offset `x`; a reset brings none.
pub open spec fn brings(first: DatagramModel, d: DatagramModel, x: int) -> bool {
    &&& d.flags & 0x04 == 0
    &&& 0 <= x
    &&& start_of(first, d) <= x < start_of(first, d) + d.payload.len()
}

/// The byte at `x` that counts under a policy is that of datagram `i`.
pub open spec fn counts(ds: Seq<DatagramModel>, policy: OverlapPolicy, i: int, x: int) -> bool {
    &&& 0 <= i < ds.len()
    &&& brings(ds[0], ds[i], x)
    &&& policy == OverlapPolicy::FirstSeen ==> forall|j: int|
        0 <= j < i ==> !brings(ds[0], #[trigger] ds[j], x)
    &&& policy == OverlapPolicy::LastSeen ==> forall|j: int|
        i < j < ds.len() ==> !brings(ds[0], #[trigger] ds[j], x)
}

proof fn lemma_base(ds: Seq<DatagramModel>, policy: OverlapPolicy, n: int)
    requires
        1 <= n <= ds.len(),
    ensures
        taken(DirModel::fresh(), ds, policy, n).base == Some(ds[0].seq),
        taken(DirModel::fresh(), ds, policy, n).base_syn == (ds[0].flags & 0x02 != 0),
    decreases n,
{
    if n > 1 {
        lemma_base(ds, policy, n - 1);
    } else {
        assert(taken(DirModel::fresh(), ds, policy, 0) == DirModel::fresh());
    }
}

proof fn lemma_cells(ds: Seq<DatagramModel>, policy: OverlapPolicy, n: int, k: i64)
    requires
        0 <= n <= ds.len(),
    ensures
        ({
            let dm = taken(DirModel::fresh(), ds, policy, n);
            &&& dm.cells.contains_key(k) <==> exists|i: int|
                0 <= i < n && brings(ds[0], #[trigger] ds[i], k as int)
            &&& dm.cells.contains_key(k) ==> exists|i: int|
                0 <= i < n && brings(ds[0], #[trigger] ds[i], k as int) && dm.cells[k] == (
                    ds[i].payload[k - start_of(ds[0], ds[i])],
                    ds[i].frame_idx,
                )
        }),
    decreases n,
{
    reveal(laid);
    if n > 0 {
        lemma_cells(ds, policy, n - 1, k);
        let a = taken(DirModel::fresh(), ds, policy, n - 1);
        let b = taken(DirModel::fresh(), ds, policy, n);
        let d = ds[n - 1];
        lemma_base(ds, policy, n);
        law_offset(d.seq, ds[0].seq);
        if n > 1 {
            lemma_base(ds, policy, n - 1);
        }
        assert(a.anchored(d).data_off(d) == start_of(ds[0], d));
        if b.cells.contains_key(k) {
            if a.cells.contains_key(k) && b.cells[k] == a.cells[k] {
                let i = choose|i: int|
                    0 <= i < n - 1 && brings(ds[0], #[trigger] ds[i], k as int) && a.cells[k] == (
                        ds[i].payload[k - start_of(ds[0], ds[i])],
                        ds[i].frame_idx,
                    );
                assert(brings(ds[0], ds[i], k as int));
            } else {
                assert(brings(ds[0], ds[n - 1], k as int));
            }
        }
    }
}

proof fn lemma_counted(ds: Seq<DatagramModel>, policy: OverlapPolicy, n: int, i: int, k: i64)
    requires
        0 <= i < n <= ds.len(),
        counts(ds.take(n), policy, i, k as int),
    ensures
        ({
            let dm = taken(DirModel::fresh(), ds, policy, n);
            &&& dm.cells.contains_key(k)
            &&& dm.cells[k].0 == ds[i].payload[k - start_of(ds[0], ds[i])]
            &&& policy == OverlapPolicy::FirstSeen ==> dm.cells[k].1 == ds[i].frame_idx
        }),
    decreases n,
{
    reveal(laid);
    let a = taken(DirModel::fresh(), ds, policy, n - 1);
    let d = ds[n - 1];
    let t = ds.take(n);
    let s = ds.take(n - 1);
    assert(t[i] == ds[i] && t[0] == ds[0] && t[n - 1] == d);
    lemma_base(ds, policy, n);
    law_offset(d.seq, ds[0].seq);
    if n > 1 {
        lemma_base(ds, policy, n - 1);
    }
    assert(a.anchored(d).data_off(d) == start_of(ds[0], d));
    if i < n - 1 {
        assert(counts(s, policy, i, k as int)) by {
            assert(s[i] == t[i] && s[0] == t[0]);
            assert forall|j: int| 0 <= j < i && policy == OverlapPolicy::FirstSeen implies !brings(
                s[0],
                #[trigger] s[j],
                k as int,
            ) by {
                assert(s[j] == t[j]);
            }
            assert forall|j: int| i < j < s.len() && policy == OverlapPolicy::LastSeen implies !brings(
                s[0],
                #[trigger] s[j],
                k as int,
            ) by {
                assert(s[j] == t[j]);
            }
        }
        lemma_counted(ds, policy, n - 1, i, k);
        if policy == OverlapPolicy::LastSeen {
            assert(!brings(t[0], t[n - 1], k as int));
        }
    } else {
        lemma_cells(ds, policy, n - 1, k);
        if policy == OverlapPolicy::FirstSeen && a.cells.contains_key(k) {
            let j = choose|j: int| 0 <= j < n - 1 && brings(ds[0], #[trigger] ds[j], k as int);
            assert(t[j] == ds[j]);
        }
    }
}

/// A direction holds what came: an offset is held exactly where some datagram brought it,
/// its byte is that of the first or, last seen, the last that did, and the frame that it
/// is credited to brought that very byte there.
pub proof fn law_direction_holds_what_came(
    ds: Seq<DatagramModel>,
    policy: OverlapPolicy,
    i: int,
    k: i64,
)
    requires
        ds.len() > 0,
    ensures
        ({
            let dm = taken(DirModel::fresh(), ds, policy, ds.len() as int);
            &&& dm.base == Some(ds[0].seq)
            &&& dm.cells.contains_key(k) <==> exists|j: int|
                0 <= j < ds.len() && brings(ds[0], #[trigger] ds[j], k as int)
            &&& dm.cells.contains_key(k) ==> exists|j: int|
                0 <= j < ds.len() && brings(ds[0], #[trigger] ds[j], k as int) && dm.cells[k] == (
                    ds[j].payload[k - start_of(ds[0], ds[j])],
                    ds[j].frame_idx,
                )
            &&& counts(ds, policy, i, k as int) ==> dm.cells[k].0 == ds[i].payload[k - start_of(
                ds[0],
                ds[i],
            )]
            &&& counts(ds, policy, i, k as int) && policy == OverlapPolicy::FirstSeen
                ==> dm.cells[k].1 == ds[i].frame_idx
        }),
{
    let n = ds.len() as int;
    lemma_base(ds, policy, n);
    lemma_cells(ds, policy, n, k);
    assert(ds.take(n) =~= ds);
    if counts(ds, policy, i, k as int) {
        lemma_counted(ds, policy, n, i, k);
    }
}

/// The delivered bytes are those from offset 0 on up to the first that is missing, and
/// what waits lies behind that one.
pub proof fn law_delivered_stops_at_the_first_gap(st: DirState)
    requires
        st.sound(),
    ensures
        st.frontier == st.bytes@.len(),
        forall|k: i64|
            0 <= k < st.bytes@.len() ==> #[trigger] st@.cells.contains_key(k) && st@.cells[k]
                == (st.bytes@[k as int], st.owner@[k as int]),
        !st@.cells.contains_key(st.frontier),
        forall|k: i64| #[trigger]
            st.pending@.contains_key(k) ==> k > st.frontier && st@.cells.contains_key(k)
                && st@.cells[k] == st.pending@[k],
        forall|k: i64| #[trigger]
            st@.cells.contains_key(k) ==> 0 <= k < st.bytes@.len() || st.pending@.contains_key(k),
{
}

/// Offset `x` lies in one of some ranges.
pub open spec fn in_range(r: Seq<(i64, i64)>, x: int) -> bool {
    exists|i: int| 0 <= i < r.len() && (#[trigger] r[i]).0 <= x < r[i].1
}

proof fn lemma_hole_left(dom: Set<i64>, lo: int, x: int) -> (a: int)
    requires
        lo <= x,
        !holds(dom, x),
    ensures
        lo <= a <= x,
        a == lo || holds(dom, a - 1),
        forall|y: int| a <= y <= x ==> !#[trigger] holds(dom, y),
    decreases x - lo,
{
    if x == lo || holds(dom, x - 1) {
        x
    } else {
        lemma_hole_left(dom, lo, x - 1)
    }
}

proof fn lemma_hole_right(dom: Set<i64>, hi: int, x: int) -> (b: int)
    requires
        x < hi,
        !holds(dom, x),
    ensures
        x < b <= hi,
        b == hi || holds(dom, b),
        forall|y: int| x <= y < b ==> !#[trigger] holds(dom, y),
    decreases hi - x,
{
    if x + 1 == hi || holds(dom, x + 1) {
        x + 1
    } else {
        lemma_hole_right(dom, hi, x + 1)
    }
}

/// The gaps of a direction are what is missing below the last byte that is held: an
/// offset lies in a gap exactly where it is not held and a later one is. Gaps come in
/// order, none empty and none touching the next.
pub proof fn law_gaps_are_what_is_missing(r: Seq<(i64, i64)>, dm: DirModel, x: int)
    requires
        lists_gaps(r, dm),
        forall|k: i64| #[trigger] dm.cells.contains_key(k) ==> 0 <= k,
    ensures
        in_range(r, x) <==> {
            &&& 0 <= x
            &&& !(x <= i64::MAX && dm.cells.contains_key(x as i64))
            &&& exists|k: i64| x < k && #[trigger] dm.cells.contains_key(k)
        },
        forall|i: int| 0 <= i < r.len() ==> 0 <= (#[trigger] r[i]).0 < r[i].1,
        forall|i: int, j: int|
            0 <= i < j < r.len() ==> (#[trigger] r[i]).1 < (#[trigger] r[j]).0,
{
    let dom = dm.cells.dom();
    let hi = choose|hi: int| #[trigger] is_extent(dom, hi) && lists_holes(r, dom, 0, hi);
    assert forall|i: int| 0 <= i < r.len() implies is_hole(
        dom,
        0,
        hi,
        (#[trigger] r[i]).0 as int,
        r[i].1 as int,
    ) by {
        assert(r.contains((r[i].0, r[i].1)));
    }
    if in_range(r, x) {
        let i = choose|i: int| 0 <= i < r.len() && (#[trigger] r[i]).0 <= x < r[i].1;
        assert(!holds(dom, x));
        assert(holds(dom, hi - 1));
        let k = (hi - 1) as i64;
        assert(dm.cells.contains_key(k));
        assert(x != hi - 1);
    }
    if 0 <= x && !(x <= i64::MAX && dm.cells.contains_key(x as i64)) && exists|k: i64|
        x < k && #[trigger] dm.cells.contains_key(k) {
        let k = choose|k: i64| x < k && #[trigger] dm.cells.contains_key(k);
        assert(dom.contains(k));
        assert(!holds(dom, x));
        let a = lemma_hole_left(dom, 0, x);
        let b = lemma_hole_right(dom, hi, x);
        assert(is_hole(dom, 0, hi, a, b));
        assert(r.contains((a as i64, b as i64)));
        let i = choose|i: int| 0 <= i < r.len() && r[i] == (a as i64, b as i64);
        assert(r[i].0 <= x < r[i].1);
    }
}

/// Where the data of a datagram starts in a direction that has a base.
pub open spec fn start_in(dm: DirModel, d: DatagramModel) -> int {
    offset_of(d.seq, dm.base->0) - (if dm.base_syn {
        1int
    } else {
        0
    })
}

/// A held byte that a datagram brings with another value.
pub open spec fn conflicts(dm: DirModel, d: DatagramModel) -> bool {
    exists|k: i64|
        0 <= k && start_in(dm, d) <= k < start_in(dm, d) + d.payload.len()
            && #[trigger] dm.cells.contains_key(k) && dm.cells[k].0 != d.payload[k - start_in(dm, d)]
}

/// A held byte that a datagram brings again.
pub open spec fn repeats(dm: DirModel, d: DatagramModel) -> bool {
    exists|k: i64|
        0 <= k && start_in(dm, d) <= k < start_in(dm, d) + d.payload.len()
            && #[trigger] dm.cells.contains_key(k)
}

/// All bytes below `x` are held.
pub open spec fn all_below(dm: DirModel, x: int) -> bool {
    forall|k: i64| 0 <= k < x ==> #[trigger] dm.cells.contains_key(k)
}

proof fn lemma_differing(dm: DirModel, off: int, data: Seq<u8>, n: int)
    requires
        0 <= n <= data.len(),
        -0x1_0000_0000 <= off,
        off + n <= 0x2_0000_0000,
    ensures
        differing(dm.cells, off, data, n) > 0 <==> exists|k: i64|
            0 <= k && off <= k < off + n && #[trigger] dm.cells.contains_key(k) && dm.cells[k].0
                != data[k - off],
    decreases n,
{
    if n > 0 {
        lemma_differing(dm, off, data, n - 1);
        let x = off + n - 1;
        if 0 <= x && holds(dm.cells.dom(), x) && dm.cells[x as i64].0 != data[n - 1] {
            let k = x as i64;
            assert(dm.cells.contains_key(k));
        }
    }
}

/// How a datagram with data is told: as an overlap where it brings a held byte with
/// another value; else as a retransmission where it brings a held byte again, and it is
/// nothing but that where nothing below it is missing; else as out of order where
/// something below it is missing; else as in order. The counts count just these.
pub proof fn law_datagram_is_told_apart(
    dm: DirModel,
    d: DatagramModel,
    policy: OverlapPolicy,
    dir: int,
    n: nat,
)
    requires
        dm.base is Some,
        dm.wf(n),
        d.flags & 0x04 == 0,
        0 < d.payload.len() <= 0xffff_ffff,
    ensures
        ({
            let r = dm.record(dir, d, policy);
            let after = dm.after(d, policy);
            let off = start_in(dm, d);
            &&& r.conflict == conflicts(dm, d)
            &&& r.begin == off
            &&& r.end == off + d.payload.len()
            &&& r.len == d.payload.len()
            &&& r.data == d.payload
            &&& r.frame_idx == d.frame_idx
            &&& r.seq_abs == d.seq
            &&& r.flags == d.flags
            &&& r.ts_us == d.ts_us
            &&& after.overlap_events - dm.overlap_events == if conflicts(dm, d) {
                1int
            } else {
                0
            }
            &&& after.retrans - dm.retrans == if !conflicts(dm, d) && repeats(dm, d) {
                1int
            } else {
                0
            }
            &&& after.out_of_order - dm.out_of_order == if !repeats(dm, d) && !all_below(dm, off) {
                1int
            } else {
                0
            }
            &&& r.relation == if conflicts(dm, d) {
                if all_below(dm, off + 1) {
                    "overlap"@
                } else {
                    "overlap(out-of-order)"@
                }
            } else if repeats(dm, d) {
                if all_below(dm, off) {
                    "retransmission"@
                } else {
                    "retransmission+in-order"@
                }
            } else if all_below(dm, off) {
                "in-order"@
            } else {
                "out-of-order"@
            }
        }),
{
    reveal(laid);
    reveal(meets_held);
    let off = start_in(dm, d);
    law_offset(d.seq, dm.base->0);
    assert(dm.data_off(d) == off);
    let st = dm.noted(d);
    assert(st.data_off(d) == off);
    assert(st.cells == dm.cells);
    let len = d.payload.len() as int;
    lemma_differing(dm, off, d.payload, len);
    let dom = dm.cells.dom();
    assert(meets_held(dm.cells, off, len) == repeats(dm, d)) by {
        if repeats(dm, d) {
            let k = choose|k: i64|
                0 <= k && off <= k < off + len && #[trigger] dm.cells.contains_key(k);
            assert(holds(dom, k as int));
        }
        if meets_held(dm.cells, off, len) {
            let x = choose|x: int| 0 <= x && off <= x < off + len && #[trigger] holds(dom, x);
            assert(dm.cells.contains_key(x as i64));
        }
    }
    let f = choose|f: int| #[trigger] is_frontier(dom, f);
    lemma_frontier(dom, f);
    assert(st.frontier() == f);
    lemma_frontier_tells(dm, f, off);
    lemma_frontier_tells(dm, f, off + 1);
    let after = dm.after(d, policy);
    let adom = laid(dm.cells, off, d.payload, len, d.frame_idx, policy).dom();
    let g = lemma_frontier_after(dm, f, off, len, adom);
    lemma_frontier(adom, g);
    assert(st.frontier_after(d, policy) == g);
    if repeats(dm, d) {
        assert(off + len > 0);
        assert(all_below(dm, off) == (off + len <= g)) by {
            if all_below(dm, off) && off + len > g {
                assert(!holds(adom, g));
                let k = g as i64;
                if g < off {
                    assert(dm.cells.contains_key(k));
                    assert(adom.contains(k));
                }
                assert(adom.contains(k));
                assert(false);
            }
            if off + len <= g {
                assert forall|k: i64| 0 <= k < off implies #[trigger] dm.cells.contains_key(k) by {
                    assert(holds(adom, k as int));
                }
            }
        }
    }
}

proof fn lemma_frontier_tells(dm: DirModel, f: int, x: int)
    requires
        is_frontier(dm.cells.dom(), f),
        x <= i64::MAX,
    ensures
        all_below(dm, x) <==> x <= f,
{
    if x <= f {
        assert forall|k: i64| 0 <= k < x implies #[trigger] dm.cells.contains_key(k) by {
            assert(holds(dm.cells.dom(), k as int));
        }
    } else {
        assert(!holds(dm.cells.dom(), f));
        assert(!dm.cells.contains_key(f as i64));
    }
}

proof fn lemma_frontier_after(dm: DirModel, f: int, off: int, len: int, adom: Set<i64>) -> (g: int)
    requires
        is_frontier(dm.cells.dom(), f),
        -0x1_0000_0000 <= off,
        0 <= len,
        off + len <= 0x2_0000_0000,
        forall|k: i64| #[trigger] dm.cells.contains_key(k) ==> 0 <= k < 0x2_0000_0000,
        forall|k: i64| #[trigger]
            adom.contains(k) <==> dm.cells.contains_key(k) || (0 <= k && off <= k < off + len),
    ensures
        is_frontier(adom, g),
{
    lemma_first_missing(adom, 0)
}

proof fn lemma_first_missing(dom: Set<i64>, x: int) -> (g: int)
    requires
        0 <= x <= 0x2_0000_0000,
        forall|k: i64| #[trigger] dom.contains(k) ==> 0 <= k < 0x2_0000_0000,
        forall|y: int| 0 <= y < x ==> #[trigger] holds(dom, y),
    ensures
        is_frontier(dom, g),
    decreases 0x2_0000_0000 - x,
{
    if holds(dom, x) {
        assert(dom.contains(x as i64));
        lemma_first_missing(dom, x + 1)
    } else {
        x
    }
}

/// The endpoints of a datagram are those of a session, from client to server or back.
pub open spec fn between(s: SessionModel, d: DatagramModel, back: bool) -> bool {
    if back {
        d.src == s.s_ip && d.sport == s.s_port && d.dst == s.c_ip && d.dport == s.c_port
    } else {
        d.src == s.c_ip && d.sport == s.c_port && d.dst == s.s_ip && d.dport == s.s_port
    }
}

/// The session took the datagram in: it is its last record, its frame and its time.
pub open spec fn took(s: SessionModel, d: DatagramModel) -> bool {
    &&& s.last_ts == d.ts_us
    &&& s.end_frame == d.frame_idx
    &&& s.segments.len() > 0
    &&& s.segments.last().frame_idx == d.frame_idx
    &&& s.segments.last().seq_abs == d.seq
    &&& s.segments.last().flags == d.flags
    &&& s.segments.last().ts_us == d.ts_us
    &&& d.flags & 0x04 == 0 ==> s.segments.last().data == d.payload
}

/// A session as it was but for being ended.
pub open spec fn only_ended(a: SessionModel, b: SessionModel) -> bool {
    &&& a == b || (a.state == "open"@ && b.state != "open"@)
    &&& a.segments == b.segments
    &&& a.dirs == b.dirs
    &&& a.handshake == b.handshake
    &&& a.gen == b.gen
    &&& a.id == b.id
    &&& a.start_ts == b.start_ts
}

/// Every datagram goes to exactly one session, which is open, lies between its endpoints
/// or is new, and has its time as its last activity, whatever the datagram carries. Only
/// the direction of the datagram changes. No other session changes but by being ended.
#[verifier::rlimit(60)]
pub proof fn law_datagram_goes_to_one_session(e: EngineModel, d: DatagramModel) -> (k: int)
    requires
        e.wf(),
    ensures
        ({
            let t = e.ingested(d);
            let s = t.sessions[k];
            &&& t.canons.len() == t.sessions.len()
            &&& e.sessions.len() <= t.sessions.len() <= e.sessions.len() + 1
            &&& 0 <= k < t.sessions.len()
            &&& t.sessions.len() > e.sessions.len() ==> k == e.sessions.len()
            &&& took(s, d)
            &&& between(s, d, false) || between(s, d, true)
            &&& k < e.sessions.len() ==> {
                let o = e.sessions[k];
                let w = if between(o, d, false) {
                    0int
                } else {
                    1
                };
                &&& o.state == "open"@
                &&& d.ts_us - o.last_ts <= e.timeout_us || last_place(
                    e.canons,
                    canon_of(d),
                    e.canons.len() as int,
                ) != Some(k)
                &&& s.segments == o.segments.push(s.segments.last())
                &&& s.dirs[w] == o.dirs[w].after(d, e.policy)
                &&& s.dirs[1 - w] == o.dirs[1 - w]
                &&& s.gen == o.gen && s.id == o.id && s.start_ts == o.start_ts
                &&& s.start_frame == o.start_frame && s.mid_capture == o.mid_capture
            }
            &&& k == e.sessions.len() ==> {
                &&& s.segments.len() == 1
                &&& between(s, d, false)
                &&& s.start_ts == d.ts_us
                &&& s.start_frame == d.frame_idx
                &&& s.mid_capture == (d.flags & 0x02 == 0)
                &&& s.dirs[0] == DirModel::fresh().after(d, e.policy)
                &&& s.dirs[1] == DirModel::fresh()
            }
            &&& forall|i: int|
                0 <= i < e.sessions.len() && i != k ==> only_ended(
                    #[trigger] e.sessions[i],
                    t.sessions[i],
                )
        }),
{
    lemma_closed_words();
    let c = canon_of(d);
    lemma_last_place(e.canons, c, e.canons.len() as int);
    let t1 = e.timed(d);
    lemma_last_place(t1.canons, c, t1.canons.len() as int);
    lemma_target(t1, d, t1.sessions.len() as int);
    let f = e.ingested(d);
    let k = if t1.opens(d) {
        t1.sessions.len() as int
    } else {
        t1.target(d, t1.sessions.len() as int)->0
    };
    if d.payload.len() == 0 {
        assert(d.payload =~= seq![]);
    }
    assert forall|i: int| 0 <= i < e.sessions.len() && i != k implies only_ended(
        #[trigger] e.sessions[i],
        f.sessions[i],
    ) by {
        assert(only_ended(e.sessions[i], t1.sessions[i]));
    }
    k
}

proof fn lemma_same_key(e: EngineModel, d: DatagramModel, i: int, back: bool)
    requires
        e.wf(),
        keyed(e),
        0 <= i < e.sessions.len(),
        between(e.sessions[i], d, back),
    ensures
        e.canons[i] == canon_of(d),
{
    let s = e.sessions[i];
    assert(e.canons[i] == pair_key(s.client(), s.server()));
    crate::text::law_text_order_total(s.client(), s.server());
}

proof fn lemma_newest(e: EngineModel, d: DatagramModel, i: int)
    requires
        e.wf(),
        one_open(e),
        0 <= i < e.sessions.len(),
        e.canons[i] == canon_of(d),
        e.sessions[i].state == "open"@,
    ensures
        e.newest(canon_of(d)) == Some(i),
{
    let c = canon_of(d);
    lemma_last_place(e.canons, c, e.canons.len() as int);
    let l = e.newest(c);
    if l is None {
        assert(e.canons[i] != c);
    } else if i < l->0 {
        assert(e.canons[i] == e.canons[l->0]);
        assert(!e.sessions[i].is_open());
    } else if i > l->0 {
        assert(e.canons[i] != c);
    }
}

proof fn lemma_no_other(e: EngineModel, d: DatagramModel, i: int)
    requires
        e.wf(),
        one_open(e),
        0 <= i < e.sessions.len(),
        e.newest(canon_of(d)) == Some(i),
    ensures
        e.target(d, e.sessions.len() as int) == if e.fits(i, d) {
            Some(i)
        } else {
            None
        },
{
    let n = e.sessions.len() as int;
    lemma_last_place(e.canons, canon_of(d), e.canons.len() as int);
    lemma_target(e, d, n);
    let g = e.target(d, n);
    if g is Some {
        let k = g->0;
        if k < i {
            assert(e.canons[k] == e.canons[i]);
            assert(!e.sessions[k].is_open());
        } else if k > i {
            assert(e.canons[k] != canon_of(d));
        }
    } else {
        assert(!e.fits(i, d));
    }
}

/// The numbers of a datagram lie near those of its direction: it is a reset, nothing of
/// the direction has come, or it lies within two million numbers of what has come.
pub open spec fn near_numbers(dm: DirModel, d: DatagramModel) -> bool {
    d.flags & 0x04 != 0 || dm.base is None || (offset_of(d.seq, dm.base->0) + d.payload.len()
        >= -2_000_000 && offset_of(d.seq, dm.base->0) <= dm.max_end + 2_000_000)
}

/// Activity keeps a session open: a datagram between the endpoints of an open session,
/// not later than the timeout after the session's last datagram, whose numbers lie near
/// and which opens no connection, goes to that session and opens none.
pub proof fn law_activity_keeps_open(e: EngineModel, d: DatagramModel, i: int, back: bool)
    requires
        e.wf(),
        keyed(e),
        one_open(e),
        0 <= i < e.sessions.len(),
        e.sessions[i].state == "open"@,
        between(e.sessions[i], d, back),
        !between(e.sessions[i], d, !back),
        d.ts_us - e.sessions[i].last_ts <= e.timeout_us,
        d.flags & 0x02 == 0 || (back && d.flags & 0x10 != 0),
        near_numbers(
            e.sessions[i].dirs[if back {
                1
            } else {
                0
            }],
            d,
        ),
    ensures
        ({
            let t = e.ingested(d);
            &&& t.sessions.len() == e.sessions.len()
            &&& took(t.sessions[i], d)
            &&& t.sessions[i].segments.len() == e.sessions[i].segments.len() + 1
            &&& t.sessions[i].gen == e.sessions[i].gen
        }),
{
    lemma_same_key(e, d, i, back);
    lemma_newest(e, d, i);
    assert(e.timed(d) == e);
    let w = if back {
        1int
    } else {
        0
    };
    if e.sessions[i].dirs[w].base is Some {
        law_offset(d.seq, e.sessions[i].dirs[w].base->0);
    }
    assert(e.fits(i, d));
    lemma_no_other(e, d, i);
    if d.payload.len() == 0 {
        assert(d.payload =~= seq![]);
    }
}

/// Idle time is counted from the datagram before: of two datagrams of an open session,
/// each in time after the one before it, neither opens a session, however long ago the
/// session started.
pub proof fn law_idle_time_starts_anew(
    e: EngineModel,
    a: DatagramModel,
    b: DatagramModel,
    i: int,
    back_a: bool,
    back_b: bool,
)
    requires
        e.wf(),
        keyed(e),
        one_open(e),
        0 <= i < e.sessions.len(),
        e.sessions[i].state == "open"@,
        between(e.sessions[i], a, back_a),
        !between(e.sessions[i], a, !back_a),
        between(e.sessions[i], b, back_b),
        !between(e.sessions[i], b, !back_b),
        a.ts_us - e.sessions[i].last_ts <= e.timeout_us,
        b.ts_us - a.ts_us <= e.timeout_us,
        a.flags & 0x02 == 0,
        b.flags & 0x02 == 0,
        near_numbers(
            e.sessions[i].dirs[if back_a {
                1
            } else {
                0
            }],
            a,
        ),
        e.ingested(a).wf(),
        e.ingested(a).sessions[i].state == "open"@,
        near_numbers(
            e.ingested(a).sessions[i].dirs[if back_b {
                1
            } else {
                0
            }],
            b,
        ),
    ensures
        e.ingested(a).ingested(b).sessions.len() == e.sessions.len(),
        took(e.ingested(a).ingested(b).sessions[i], b),
        e.ingested(a).ingested(b).sessions[i].segments.len() == e.sessions[i].segments.len() + 2,
{
    law_activity_keeps_open(e, a, i, back_a);
    law_sessions_stay_keyed(e, a);
    law_one_open(e, a);
    let f = e.ingested(a);
    lemma_same_key(e, a, i, back_a);
    lemma_newest(e, a, i);
    assert(f.sessions[i].c_ip == e.sessions[i].c_ip && f.sessions[i].s_ip == e.sessions[i].s_ip
        && f.sessions[i].c_port == e.sessions[i].c_port && f.sessions[i].s_port
        == e.sessions[i].s_port) by {
        lemma_target(e, a, e.sessions.len() as int);
        lemma_last_place(e.canons, canon_of(a), e.canons.len() as int);
    }
    assert(f.timeout_us == e.timeout_us);
    law_activity_keeps_open(f, b, i, back_b);
}

/// A session ends where it has been idle for longer than the timeout: the next datagram
/// of its connection goes to a new one, and the old one keeps what it had.
pub proof fn law_idle_session_is_over(e: EngineModel, d: DatagramModel, i: int, back: bool)
    requires
        e.wf(),
        keyed(e),
        one_open(e),
        0 <= i < e.sessions.len(),
        e.sessions[i].state == "open"@,
        between(e.sessions[i], d, back),
        d.ts_us - e.sessions[i].last_ts > e.timeout_us,
    ensures
        ({
            let t = e.ingested(d);
            &&& t.sessions.len() == e.sessions.len() + 1
            &&& t.sessions[i].state == "timed-out"@
            &&& t.sessions[i].segments == e.sessions[i].segments
            &&& t.sessions[i].dirs == e.sessions[i].dirs
            &&& took(t.sessions.last(), d)
        }),
{
    lemma_same_key(e, d, i, back);
    lemma_newest(e, d, i);
    law_timeout_splits(e, d, i);
    let k = law_datagram_goes_to_one_session(e, d);
    lemma_closed_words();
    assert(only_ended(e.sessions[i], e.ingested(d).sessions[i]));
}

/// A SYN from the client whose number is neither that of the SYN that opened the session
/// nor the one behind it opens another generation: the old session is superseded with
/// what it had, and the new one starts with the SYN.
pub proof fn law_reused_connection(e: EngineModel, d: DatagramModel, i: int)
    requires
        e.wf(),
        keyed(e),
        one_open(e),
        0 <= i < e.sessions.len(),
        e.sessions[i].state == "open"@,
        between(e.sessions[i], d, false),
        d.ts_us - e.sessions[i].last_ts <= e.timeout_us,
        d.flags & 0x02 != 0,
        d.flags & 0x04 == 0,
        e.sessions[i].dirs[0].base is Some,
        offset_of(d.seq, e.sessions[i].dirs[0].base->0) != 0,
        offset_of(d.seq, e.sessions[i].dirs[0].base->0) != 1,
    ensures
        ({
            let t = e.ingested(d);
            &&& t.sessions.len() == e.sessions.len() + 1
            &&& t.sessions[i].state == "superseded"@
            &&& t.sessions[i].segments == e.sessions[i].segments
            &&& t.sessions[i].dirs == e.sessions[i].dirs
            &&& took(t.sessions.last(), d)
            &&& t.sessions.last().handshake == "seen"@
            &&& !t.sessions.last().mid_capture
            &&& t.sessions.last().dirs[0].base == Some(d.seq)
        }),
{
    lemma_same_key(e, d, i, false);
    lemma_newest(e, d, i);
    assert(e.timed(d) == e);
    law_offset(d.seq, e.sessions[i].dirs[0].base->0);
    lemma_no_other(e, d, i);
    let k = law_datagram_goes_to_one_session(e, d);
}

/// A SYN from the client that repeats the one that opened the session opens none.
pub proof fn law_repeated_syn(e: EngineModel, d: DatagramModel, i: int)
    requires
        e.wf(),
        keyed(e),
        one_open(e),
        0 <= i < e.sessions.len(),
        e.sessions[i].state == "open"@,
        between(e.sessions[i], d, false),
        d.ts_us - e.sessions[i].last_ts <= e.timeout_us,
        d.flags & 0x04 == 0,
        e.sessions[i].dirs[0].base == Some(d.seq),
    ensures
        e.ingested(d).sessions.len() == e.sessions.len(),
        took(e.ingested(d).sessions[i], d),
{
    lemma_same_key(e, d, i, false);
    lemma_newest(e, d, i);
    assert(e.timed(d) == e);
    law_offset(d.seq, d.seq);
    assert(e.sessions[i].wf());
    assert(e.fits(i, d));
    lemma_no_other(e, d, i);
    if d.payload.len() == 0 {
        assert(d.payload =~= seq![]);
    }
}

/// Where no session of a connection is open, the next datagram of it opens one.
pub proof fn law_closed_connection_opens_anew(e: EngineModel, d: DatagramModel)
    requires
        e.wf(),
        keyed(e),
        forall|i: int|
            0 <= i < e.sessions.len() && (between(#[trigger] e.sessions[i], d, false) || between(
                e.sessions[i],
                d,
                true,
            )) ==> e.sessions[i].state != "open"@,
    ensures
        e.ingested(d).sessions.len() == e.sessions.len() + 1,
        took(e.ingested(d).sessions.last(), d),
{
    let k = law_datagram_goes_to_one_session(e, d);
    if k < e.sessions.len() {
        let s = e.ingested(d).sessions[k];
        let c = canon_of(d);
        lemma_last_place(e.canons, c, e.canons.len() as int);
        lemma_target(e.timed(d), d, e.sessions.len() as int);
        assert(s.c_ip == e.sessions[k].c_ip && s.s_ip == e.sessions[k].s_ip && s.c_port
            == e.sessions[k].c_port && s.s_port == e.sessions[k].s_port) by {
            if k < e.sessions.len() {
                let o = e.sessions[k];
                assert(o.state == "open"@);
            }
        }
        assert(between(e.sessions[k], d, false) || between(e.sessions[k], d, true));
        assert(false);
    }
}

/// What ends a session that a datagram goes to: a reset that it or an earlier datagram
/// was, else that both directions have seen a FIN; nothing else does.
pub proof fn law_only_these_close(e: EngineModel, d: DatagramModel, i: int, back: bool)
    requires
        e.wf(),
        keyed(e),
        one_open(e),
        0 <= i < e.sessions.len(),
        e.sessions[i].state == "open"@,
        between(e.sessions[i], d, back),
        !between(e.sessions[i], d, !back),
        d.ts_us - e.sessions[i].last_ts <= e.timeout_us,
        d.flags & 0x02 == 0,
        near_numbers(
            e.sessions[i].dirs[if back {
                1
            } else {
                0
            }],
            d,
        ),
        !e.sessions[i].dirs[0].rst,
        !e.sessions[i].dirs[1].rst,
    ensures
        ({
            let o = e.sessions[i];
            let s = e.ingested(d).sessions[i];
            let (w, v) = if back {
                (1int, 0int)
            } else {
                (0, 1)
            };
            let ended = (o.dirs[w].fin || d.flags & 0x01 != 0) && o.dirs[v].fin;
            &&& s.state == if d.flags & 0x04 != 0 {
                "rst-closed"@
            } else if ended {
                "fin-closed"@
            } else {
                "open"@
            }
            &&& d.flags & 0x04 == 0 ==> s.dirs[w].fin == (o.dirs[w].fin || d.flags & 0x01 != 0)
            &&& d.flags & 0x04 == 0 && d.flags & 0x01 != 0 && o.dirs[w].base is Some
                ==> s.dirs[w].fin_off == Some((start_in(o.dirs[w], d) + d.payload.len()) as i64)
                && s.dirs[w].fin_seq == Some(((d.seq + d.payload.len()) % 0x1_0000_0000) as u32)
        }),
{
    law_activity_keeps_open(e, d, i, back);
    lemma_same_key(e, d, i, back);
    lemma_newest(e, d, i);
    assert(e.timed(d) == e);
    let w = if back {
        1int
    } else {
        0
    };
    if e.sessions[i].dirs[w].base is Some {
        law_offset(d.seq, e.sessions[i].dirs[w].base->0);
    }
    lemma_no_other(e, d, i);
    lemma_closed_words();
}

/// The first datagram of a direction is its base, whether a SYN or not.
pub proof fn law_first_datagram_is_the_base(dm: DirModel, d: DatagramModel, policy: OverlapPolicy)
    ensures
        dm.base is None ==> {
            &&& dm.after(d, policy).base == Some(d.seq)
            &&& dm.after(d, policy).base_frame == Some(d.frame_idx)
            &&& dm.after(d, policy).base_syn == (d.flags & 0x02 != 0)
        },
        dm.base is Some ==> {
            &&& dm.after(d, policy).base == dm.base
            &&& dm.after(d, policy).base_frame == dm.base_frame
            &&& dm.after(d, policy).base_syn == dm.base_syn
        },
{
}

/// The extent of a direction reaches to the end of the farthest datagram, its SYN and its
/// FIN counted. A reset is remembered with its frame and changes nothing else.
pub proof fn law_extent_reaches_the_farthest(dm: DirModel, d: DatagramModel, policy: OverlapPolicy)
    requires
        dm.base is Some,
    ensures
        ({
            let a = dm.after(d, policy);
            let end = start_in(dm, d) + d.payload.len() + (if d.flags & 0x02 != 0 {
                1int
            } else {
                0
            }) + (if d.flags & 0x01 != 0 {
                1int
            } else {
                0
            });
            &&& d.flags & 0x04 == 0 ==> {
                &&& a.max_end >= dm.max_end
                &&& a.max_end >= end
                &&& a.max_end == dm.max_end || a.max_end == end
                &&& a.rst == dm.rst
                &&& a.rst_frame == dm.rst_frame
                &&& a.fin == (dm.fin || d.flags & 0x01 != 0)
            }
            &&& d.flags & 0x04 != 0 ==> a == (DirModel {
                rst: true,
                rst_frame: Some(d.frame_idx),
                ..dm
            })
        }),
{
    law_offset(d.seq, dm.base->0);
}

/// The offsets at which the first `n` bytes of a datagram find another byte.
pub open spec fn contested(dm: DirModel, d: DatagramModel, n: int) -> Set<int> {
    Set::new(
        |x: int|
            0 <= x && start_in(dm, d) <= x < start_in(dm, d) + n && holds(dm.cells.dom(), x)
                && dm.cells[x as i64].0 != d.payload[x - start_in(dm, d)],
    )
}

proof fn lemma_contested(dm: DirModel, d: DatagramModel, n: int)
    requires
        0 <= n <= d.payload.len(),
    ensures
        contested(dm, d, n).finite(),
        contested(dm, d, n).len() == differing(dm.cells, start_in(dm, d), d.payload, n),
    decreases n,
{
    if n <= 0 {
        assert(contested(dm, d, n) =~= Set::<int>::empty());
    } else {
        lemma_contested(dm, d, n - 1);
        let x = start_in(dm, d) + n - 1;
        let before = contested(dm, d, n - 1);
        if 0 <= x && holds(dm.cells.dom(), x) && dm.cells[x as i64].0 != d.payload[n - 1] {
            assert(contested(dm, d, n) =~= before.insert(x));
            assert(!before.contains(x));
        } else {
            assert(contested(dm, d, n) =~= before);
        }
    }
}

/// The count of overwritten bytes is that of the bytes that were held with another value,
/// where the last one seen counts; where the first does, none is overwritten.
pub proof fn law_overwritten_bytes_are_counted(
    dm: DirModel,
    d: DatagramModel,
    policy: OverlapPolicy,
    dir: int,
)
    requires
        dm.base is Some,
        d.flags & 0x04 == 0,
        d.payload.len() > 0,
    ensures
        contested(dm, d, d.payload.len() as int).finite(),
        dm.record(dir, d, policy).overwritten == if policy == OverlapPolicy::LastSeen {
            contested(dm, d, d.payload.len() as int).len()
        } else {
            0
        },
        dm.record(dir, d, policy).kept == d.payload.len(),
        0 <= dir < 256 ==> dm.record(dir, d, policy).dir == dir,
{
    law_offset(d.seq, dm.base->0);
    lemma_contested(dm, d, d.payload.len() as int);
}

/// A datagram without data is told by its flags, and brings nothing.
pub proof fn law_empty_datagram_is_told(
    dm: DirModel,
    d: DatagramModel,
    policy: OverlapPolicy,
    dir: int,
)
    requires
        d.payload.len() == 0 || d.flags & 0x04 != 0,
    ensures
        ({
            let r = dm.record(dir, d, policy);
            &&& dm.after(d, policy).cells == dm.cells
            &&& r.len == 0
            &&& r.data.len() == 0
            &&& !r.conflict
            &&& r.overwritten == 0
            &&& r.relation == if d.flags & 0x04 != 0 {
                "rst"@
            } else if d.flags & 0x02 != 0 {
                "syn"@
            } else if d.flags & 0x01 != 0 {
                "fin"@
            } else {
                "pure-ack"@
            }
        }),
{
}

/// A SYN of the client with the number behind that of the SYN that opened the session
/// opens none either.
pub proof fn law_syn_one_behind(e: EngineModel, d: DatagramModel, i: int)
    requires
        e.wf(),
        keyed(e),
        one_open(e),
        0 <= i < e.sessions.len(),
        e.sessions[i].state == "open"@,
        between(e.sessions[i], d, false),
        d.ts_us - e.sessions[i].last_ts <= e.timeout_us,
        d.flags & 0x04 == 0,
        e.sessions[i].dirs[0].base is Some,
        offset_of(d.seq, e.sessions[i].dirs[0].base->0) == 1,
    ensures
        e.ingested(d).sessions.len() == e.sessions.len(),
        took(e.ingested(d).sessions[i], d),
{
    lemma_same_key(e, d, i, false);
    lemma_newest(e, d, i);
    assert(e.timed(d) == e);
    law_offset(d.seq, e.sessions[i].dirs[0].base->0);
    assert(e.sessions[i].wf());
    assert(e.fits(i, d));
    lemma_no_other(e, d, i);
    if d.payload.len() == 0 {
        assert(d.payload =~= seq![]);
    }
}

/// A direction of which nothing has come holds nothing and has counted nothing.
pub proof fn law_new_direction_is_empty(k: i64)
    ensures
        ({
            let d = DirModel::fresh();
            &&& d.base is None && d.base_frame is None && !d.base_syn
            &&& d.max_end == 0
            &&& !d.fin && d.fin_seq is None && d.fin_off is None
            &&& !d.rst && d.rst_frame is None
            &&& !d.cells.contains_key(k)
            &&& d.out_of_order == 0 && d.retrans == 0 && d.overlap_events == 0
        }),
{
}

} // verus!
