//! What the report on a direction of a session tells of the segments that were captured:
//! every byte that came is there, what did not come is a gap, and what came twice is
//! told.

use vstd::prelude::*;
use crate::hash::sha256_of;
use crate::packet::{distance, SegmentModel};
use crate::session::{
    above, anchor_of, base_offset, below, carries, cov_wf, covered, dir_run, dir_step,
    direction_of, gaps_of, gathered, gen_after, inside, intervals_of, law_key_is_symmetric,
    law_merged_covers, law_retransmission, lemma_run, merged, normalized, overlaps_of, processed,
    recovered, run, short_segs, Cover, DirModel, DoneModel, Endpoint, EngineState,
    FinishedSession, FrameEv, GenModel, Interval, OverlapModel, OverlapPolicy, SegModel,
    SessionConfig, SideModel,
};
use crate::text::hex_of;

verus! {

/// How far a sequence number lies behind another, at most half the numbers away.
pub open spec fn offset_of(seq: u32, anchor: u32) -> int {
    if seq - anchor >= 0x8000_0000 {
        seq - anchor - 0x1_0000_0000
    } else if seq - anchor < -0x8000_0000 {
        seq - anchor + 0x1_0000_0000
    } else {
        seq - anchor
    }
}

/// The segment brings the byte at offset `x`.
pub open spec fn brings(seg: SegModel, anchor: u32, x: int) -> bool {
    offset_of(seg.seq, anchor) <= x < offset_of(seg.seq, anchor) + seg.payload.len()
}

/// The byte that a segment brings at offset `x`.
pub open spec fn brought(seg: SegModel, anchor: u32, x: int) -> u8 {
    seg.payload[x - offset_of(seg.seq, anchor)]
}

/// Some segment brings the byte at offset `x`.
pub open spec fn came(segs: Seq<SegModel>, anchor: u32, x: int) -> bool {
    exists|i: int| 0 <= i < segs.len() && brings(#[trigger] segs[i], anchor, x)
}

/// Offset `x` lies in one of some intervals.
pub open spec fn within(v: Seq<Interval>, x: int) -> bool {
    exists|i: int| 0 <= i < v.len() && (#[trigger] v[i]).offset <= x < v[i].offset + v[i].len
}

/// How many bytes the first `k` intervals hold.
pub open spec fn size_upto(v: Seq<Interval>, k: int) -> int
    decreases k,
{
    if k <= 0 {
        0
    } else {
        size_upto(v, k - 1) + v[k - 1].len
    }
}

/// Segments with data, as directions hold them.
pub open spec fn data_segs(segs: Seq<SegModel>) -> bool {
    forall|i: int| 0 <= i < segs.len() ==> 0 < (#[trigger] segs[i]).payload.len() <= 0xffff_ffff
}

/// The number of the first byte: that behind the initial number, or the first that came.
pub open spec fn first_number(isn: Option<u32>, segs: Seq<SegModel>) -> u32 {
    match isn {
        Some(i) => if i == 0xffff_ffff {
            0
        } else {
            (i + 1) as u32
        },
        None => segs[0].seq,
    }
}

/// The offset of a number is within half the space, and leads back to the number.
pub proof fn law_offset(seq: u32, anchor: u32)
    ensures
        distance(seq, anchor) == offset_of(seq, anchor),
        -0x8000_0000 <= distance(seq, anchor) < 0x8000_0000,
        distance(anchor, anchor) == 0,
{
}

proof fn lemma_bytes(segs: Seq<SegModel>, anchor: u32, policy: OverlapPolicy, n: int)
    requires
        0 <= n <= segs.len(),
    ensures
        forall|x: int| #[trigger]
            dir_run(segs, anchor, policy, n).bytes.contains_key(x) <==> came(
                segs.take(n),
                anchor,
                x,
            ),
    decreases n,
{
    let d = dir_run(segs, anchor, policy, n);
    assert forall|x: int| #[trigger] d.bytes.contains_key(x) <==> came(segs.take(n), anchor, x) by {
        if n > 0 {
            lemma_bytes(segs, anchor, policy, n - 1);
            let e = dir_run(segs, anchor, policy, n - 1);
            let s = segs.take(n - 1);
            let t = segs.take(n);
            law_offset(segs[n - 1].seq, anchor);
            assert(e.bytes.contains_key(x) <==> came(s, anchor, x));
            assert(t[n - 1] == segs[n - 1]);
            if came(s, anchor, x) {
                let i = choose|i: int| 0 <= i < s.len() && brings(#[trigger] s[i], anchor, x);
                assert(t[i] == s[i]);
            }
            if came(t, anchor, x) {
                let i = choose|i: int| 0 <= i < t.len() && brings(#[trigger] t[i], anchor, x);
                if i < n - 1 {
                    assert(s[i] == t[i]);
                }
            }
        }
    }
}

proof fn lemma_cov(segs: Seq<SegModel>, anchor: u32, policy: OverlapPolicy)
    requires
        data_segs(segs),
    ensures
        ({
            let cov = dir_run(segs, anchor, policy, segs.len() as int).cov;
            &&& cov_wf(cov)
            &&& forall|x: int| #[trigger] covered(cov, x) <==> came(segs, anchor, x)
            &&& forall|i: int|
                0 <= i < cov.len() ==> -0x8000_0000 <= (#[trigger] cov[i]).0 && cov[i].1
                    <= 0x1_8000_0000
        }),
{
    let n = segs.len() as int;
    let d = dir_run(segs, anchor, policy, n);
    assert(short_segs(segs));
    lemma_run(segs, anchor, policy, n);
    lemma_bytes(segs, anchor, policy, n);
    assert(segs.take(n) =~= segs);
    assert forall|x: int| #[trigger] covered(d.cov, x) <==> came(segs, anchor, x) by {
        assert(d.bytes.contains_key(x) <==> covered(d.cov, x));
    }
    assert forall|i: int| 0 <= i < d.cov.len() implies -0x8000_0000 <= (#[trigger] d.cov[i]).0
        && d.cov[i].1 <= 0x1_8000_0000 by {
        let c = d.cov[i];
        assert(c.0 < c.1);
        assert(c.0 <= c.0 as int && (c.0 as int) < c.1);
        assert(covered(d.cov, c.0 as int));
        assert(covered(d.cov, c.1 - 1));
        assert(came(segs, anchor, c.0 as int));
        assert(came(segs, anchor, c.1 - 1));
    }
}

/// Joined ranges stand apart.
spec fn apart(m: Seq<(i64, i64)>) -> bool {
    &&& forall|i: int| 0 <= i < m.len() ==> (#[trigger] m[i]).0 < m[i].1
    &&& forall|i: int, j: int|
        0 <= i < j < m.len() ==> (#[trigger] m[i]).1 < (#[trigger] m[j]).0
}

proof fn lemma_merged(cov: Seq<Cover>, n: int)
    requires
        cov_wf(cov),
        0 <= n <= cov.len(),
    ensures
        apart(merged(cov, n)),
        n > 0 ==> merged(cov, n).len() > 0 && merged(cov, n).last().1 == cov[n - 1].1,
        n > 0 ==> merged(cov, n)[0].0 == cov[0].0,
        forall|x: int|
            (exists|i: int|
                0 <= i < merged(cov, n).len() && (#[trigger] merged(cov, n)[i]).0 <= x < merged(
                    cov,
                    n,
                )[i].1) <==> #[trigger] covered(cov.take(n), x),
    decreases n,
{
    let m = merged(cov, n);
    if n > 0 {
        lemma_merged(cov, n - 1);
        let m0 = merged(cov, n - 1);
        let c = cov[n - 1];
        assert(c.0 < c.1);
        if n > 1 {
            assert(cov[n - 2].1 <= cov[n - 1].0);
            assert(m0.last().1 <= c.0);
        }
        assert forall|i: int| 0 <= i < m.len() implies (#[trigger] m[i]).0 < m[i].1 by {
            if i < m0.len() {
                assert(m0[i].0 < m0[i].1);
            }
        }
        assert forall|i: int, j: int| 0 <= i < j < m.len() implies (#[trigger] m[i]).1 < (
        #[trigger] m[j]).0 by {
            let l = m0.len() - 1;
            if j < m0.len() {
                assert(m0[i].1 < m0[j].0);
            } else {
                if i < l {
                    assert(m0[i].1 < m0[l].0);
                    assert(m0[l].0 < m0[l].1);
                }
            }
        }
    }
    assert forall|x: int|
        (exists|i: int| 0 <= i < m.len() && (#[trigger] m[i]).0 <= x < m[i].1) <==> #[trigger] covered(
            cov.take(n),
            x,
        ) by {
        law_merged_covers(cov, n, x);
    }
}

proof fn lemma_intervals(m: Seq<(i64, i64)>, anchor: u32, x: int)
    requires
        apart(m),
        forall|i: int|
            0 <= i < m.len() ==> -0x8000_0000 <= (#[trigger] m[i]).0 && m[i].1 <= 0x1_8000_0000,
    ensures
        within(intervals_of(m, anchor, m.len() as int), x) <==> exists|i: int|
            0 <= i < m.len() && (#[trigger] m[i]).0 <= x < m[i].1,
{
    let v = intervals_of(m, anchor, m.len() as int);
    assert forall|i: int| 0 <= i < m.len() implies (#[trigger] v[i]).offset == m[i].0 && v[i].len
        == m[i].1 - m[i].0 by {
        assert(m[i].0 < m[i].1);
    }
    if within(v, x) {
        let i = choose|i: int|
            0 <= i < v.len() && (#[trigger] v[i]).offset <= x < v[i].offset + v[i].len;
        assert(m[i].0 <= x < m[i].1);
    }
    if exists|i: int| 0 <= i < m.len() && (#[trigger] m[i]).0 <= x < m[i].1 {
        let i = choose|i: int| 0 <= i < m.len() && (#[trigger] m[i]).0 <= x < m[i].1;
        assert(v[i].offset <= x < v[i].offset + v[i].len);
    }
}

proof fn lemma_first_number(isn: Option<u32>, segs: Seq<SegModel>)
    requires
        segs.len() > 0 || isn is Some,
    ensures
        anchor_of(isn, segs) == Some(first_number(isn, segs)),
{
}

proof fn lemma_joined_ranges(isn: Option<u32>, segs: Seq<SegModel>, policy: OverlapPolicy) -> (m: Seq<
    (i64, i64),
>)
    requires
        data_segs(segs),
        segs.len() > 0,
    ensures
        ({
            let anchor = first_number(isn, segs);
            let cov = dir_run(segs, anchor, policy, segs.len() as int).cov;
            &&& m == merged(cov, cov.len() as int)
            &&& apart(m)
            &&& m.len() > 0
            &&& forall|i: int|
                0 <= i < m.len() ==> -0x8000_0000 <= (#[trigger] m[i]).0 && m[i].1 <= 0x1_8000_0000
            &&& forall|x: int|
                (exists|i: int| 0 <= i < m.len() && (#[trigger] m[i]).0 <= x < m[i].1)
                    <==> #[trigger] came(segs, anchor, x)
            &&& direction_of(isn, segs, policy).intervals == intervals_of(m, anchor, m.len() as int)
            &&& direction_of(isn, segs, policy).gaps == gaps_of(
                m,
                anchor,
                base_offset(segs, anchor, segs.len() as int),
                m.len() as int,
            )
            &&& direction_of(isn, segs, policy).anchor == Some(anchor)
        }),
{
    let anchor = first_number(isn, segs);
    let cov = dir_run(segs, anchor, policy, segs.len() as int).cov;
    let n = cov.len() as int;
    let m = merged(cov, n);
    lemma_first_number(isn, segs);
    lemma_cov(segs, anchor, policy);
    lemma_merged(cov, n);
    assert(cov.take(n) =~= cov);
    assert forall|x: int|
        (exists|i: int| 0 <= i < m.len() && (#[trigger] m[i]).0 <= x < m[i].1) <==> #[trigger] came(
            segs,
            anchor,
            x,
        ) by {
        assert(covered(cov.take(n), x) <==> covered(cov, x));
    }
    let x = offset_of(segs[0].seq, anchor);
    assert(brings(segs[0], anchor, x));
    assert(came(segs, anchor, x));
    assert(m.len() > 0);
    assert forall|i: int| 0 <= i < m.len() implies -0x8000_0000 <= (#[trigger] m[i]).0 && m[i].1
        <= 0x1_8000_0000 by {
        assert(m[i].0 < m[i].1);
        let (a, b) = (m[i].0 as int, m[i].1 - 1);
        assert(m[i].0 <= a < m[i].1 && m[i].0 <= b < m[i].1);
        assert(came(segs, anchor, a));
        assert(came(segs, anchor, b));
    }
    m
}

/// The intervals of a direction are the runs of bytes that came: an offset lies in one
/// exactly where some segment brought it, whatever the flags of the segment and the
/// policy. They come in order, none empty and none touching the next, and their sequence
/// numbers are those of their ends.
pub proof fn law_intervals_are_what_came(
    isn: Option<u32>,
    segs: Seq<SegModel>,
    policy: OverlapPolicy,
)
    requires
        data_segs(segs),
        segs.len() > 0,
    ensures
        ({
            let d = direction_of(isn, segs, policy);
            let anchor = first_number(isn, segs);
            &&& d.anchor == Some(anchor)
            &&& forall|x: int| #[trigger] within(d.intervals, x) <==> came(segs, anchor, x)
            &&& forall|i: int| 0 <= i < d.intervals.len() ==> (#[trigger] d.intervals[i]).len > 0
            &&& forall|i: int, j: int|
                0 <= i < j < d.intervals.len() ==> (#[trigger] d.intervals[i]).offset
                    + d.intervals[i].len < (#[trigger] d.intervals[j]).offset
            &&& forall|i: int|
                0 <= i < d.intervals.len() ==> {
                    &&& (#[trigger] d.intervals[i]).start_seq == (anchor + d.intervals[i].offset)
                        % 0x1_0000_0000
                    &&& d.intervals[i].end_seq == (anchor + d.intervals[i].offset
                        + d.intervals[i].len) % 0x1_0000_0000
                }
        }),
{
    let d = direction_of(isn, segs, policy);
    let anchor = first_number(isn, segs);
    let m = lemma_joined_ranges(isn, segs, policy);
    assert forall|x: int| #[trigger] within(d.intervals, x) <==> came(segs, anchor, x) by {
        lemma_intervals(m, anchor, x);
    }
    assert forall|i: int| 0 <= i < m.len() implies (#[trigger] d.intervals[i]).offset == m[i].0
        && d.intervals[i].len == m[i].1 - m[i].0 && d.intervals[i].len > 0 by {
        assert(m[i].0 < m[i].1);
    }
    assert forall|i: int, j: int| 0 <= i < j < d.intervals.len() implies (
    #[trigger] d.intervals[i]).offset + d.intervals[i].len < (#[trigger] d.intervals[j]).offset by {
        assert(m[i].1 < m[j].0);
    }
}

proof fn lemma_base(segs: Seq<SegModel>, anchor: u32, n: int)
    requires
        0 <= n <= segs.len(),
    ensures
        base_offset(segs, anchor, n) <= 0,
        -0x8000_0000 <= base_offset(segs, anchor, n),
        forall|i: int|
            0 <= i < n ==> base_offset(segs, anchor, n) <= offset_of(
                (#[trigger] segs[i]).seq,
                anchor,
            ),
        base_offset(segs, anchor, n) < 0 ==> exists|i: int|
            0 <= i < n && base_offset(segs, anchor, n) == offset_of(
                (#[trigger] segs[i]).seq,
                anchor,
            ),
    decreases n,
{
    if n > 0 {
        lemma_base(segs, anchor, n - 1);
        law_offset(segs[n - 1].seq, anchor);
        let b = base_offset(segs, anchor, n);
        let c = base_offset(segs, anchor, n - 1);
        if b < 0 && b == c {
            let i = choose|i: int| 0 <= i < n - 1 && c == offset_of((#[trigger] segs[i]).seq, anchor);
            assert(b == offset_of(segs[i].seq, anchor));
        } else if b < 0 {
            assert(b == offset_of(segs[n - 1].seq, anchor));
        }
    }
}

proof fn lemma_gaps(m: Seq<(i64, i64)>, anchor: u32, base: int, n: int)
    requires
        apart(m),
        0 <= n <= m.len(),
        -0x8000_0000 <= base <= 0,
        forall|i: int|
            0 <= i < m.len() ==> -0x8000_0000 <= (#[trigger] m[i]).0 && m[i].1 <= 0x1_8000_0000,
        m.len() > 0 ==> base <= m[0].0,
    ensures
        ({
            let g = gaps_of(m, anchor, base, n);
            &&& forall|i: int|
                0 <= i < g.len() ==> {
                    &&& (#[trigger] g[i]).len > 0
                    &&& n > 0 && g[i].offset + g[i].len <= m[n - 1].0
                    &&& g[i].start_seq == (anchor + g[i].offset) % 0x1_0000_0000
                    &&& g[i].end_seq == (anchor + g[i].offset + g[i].len) % 0x1_0000_0000
                }
            &&& forall|i: int, j: int|
                0 <= i < j < g.len() ==> (#[trigger] g[i]).offset + g[i].len < (
                #[trigger] g[j]).offset
            &&& forall|x: int| #[trigger]
                within(g, x) <==> (n > 0 && base <= x < m[n - 1].0 && !exists|i: int|
                    0 <= i < n && (#[trigger] m[i]).0 <= x < m[i].1)
        }),
    decreases n,
{
    let g = gaps_of(m, anchor, base, n);
    if n > 0 {
        lemma_gaps(m, anchor, base, n - 1);
        let rest = gaps_of(m, anchor, base, n - 1);
        let from = if n == 1 {
            base
        } else {
            m[n - 2].1 as int
        };
        if n > 1 {
            assert(m[n - 2].1 < m[n - 1].0);
            assert(m[n - 2].0 < m[n - 2].1);
        }
        assert forall|i: int| 0 <= i < g.len() implies (#[trigger] g[i]).len > 0 && g[i].offset
            + g[i].len <= m[n - 1].0 && g[i].start_seq == (anchor + g[i].offset) % 0x1_0000_0000
            && g[i].end_seq == (anchor + g[i].offset + g[i].len) % 0x1_0000_0000 by {
            if i < rest.len() {
                assert(g[i] == rest[i]);
                assert(rest[i].offset + rest[i].len <= m[n - 2].0);
            }
        }
        assert forall|i: int, j: int| 0 <= i < j < g.len() implies (#[trigger] g[i]).offset
            + g[i].len < (#[trigger] g[j]).offset by {
            assert(g[i] == rest[i]);
            if j < rest.len() {
                assert(g[j] == rest[j]);
            } else {
                assert(rest[i].offset + rest[i].len <= m[n - 2].0);
            }
        }
        assert forall|x: int| #[trigger]
            within(g, x) <==> (base <= x < m[n - 1].0 && !exists|i: int|
                0 <= i < n && (#[trigger] m[i]).0 <= x < m[i].1) by {
            assert(within(rest, x) <==> (n > 1 && base <= x < m[n - 2].0 && !exists|i: int|
                0 <= i < n - 1 && (#[trigger] m[i]).0 <= x < m[i].1));
            assert(within(g, x) <==> within(rest, x) || from <= x < m[n - 1].0) by {
                if within(rest, x) {
                    let i = choose|i: int|
                        0 <= i < rest.len() && (#[trigger] rest[i]).offset <= x < rest[i].offset
                            + rest[i].len;
                    assert(g[i] == rest[i]);
                }
                if from <= x < m[n - 1].0 {
                    let l = rest.len() as int;
                    assert(g[l].offset == from && g[l].len == m[n - 1].0 - from);
                }
                if within(g, x) {
                    let i = choose|i: int|
                        0 <= i < g.len() && (#[trigger] g[i]).offset <= x < g[i].offset + g[i].len;
                    if i < rest.len() {
                        assert(g[i] == rest[i]);
                    }
                }
            }
            if from <= x < m[n - 1].0 {
                assert forall|i: int| 0 <= i < n implies !((#[trigger] m[i]).0 <= x < m[i].1) by {
                    if i < n - 2 {
                        assert(m[i].1 < m[n - 2].0);
                    }
                }
            } else if base <= x < m[n - 1].0 && n > 1 {
                if x >= m[n - 2].0 {
                    assert(m[n - 2].0 <= x < m[n - 2].1);
                }
                if exists|i: int| 0 <= i < n && (#[trigger] m[i]).0 <= x < m[i].1 {
                    let i = choose|i: int| 0 <= i < n && (#[trigger] m[i]).0 <= x < m[i].1;
                    assert(i < n - 1);
                }
            }
        }
    } else {
        assert forall|x: int| !#[trigger] within(g, x) by {}
    }
}

/// The gaps of a direction are what is missing below the last byte that came: an offset
/// lies in a gap exactly where no segment brought it, a later one came, and it belongs to
/// the stream, as it is not below the first byte or an earlier one came. Gaps come in
/// order, none empty, and their sequence numbers are those of their ends.
pub proof fn law_gaps_are_what_is_missing(
    isn: Option<u32>,
    segs: Seq<SegModel>,
    policy: OverlapPolicy,
)
    requires
        data_segs(segs),
        segs.len() > 0,
    ensures
        ({
            let d = direction_of(isn, segs, policy);
            let anchor = first_number(isn, segs);
            &&& forall|x: int| #[trigger]
                within(d.gaps, x) <==> {
                    &&& !came(segs, anchor, x)
                    &&& exists|y: int| x < y && #[trigger] came(segs, anchor, y)
                    &&& 0 <= x || exists|y: int| y < x && #[trigger] came(segs, anchor, y)
                }
            &&& forall|x: int| !(#[trigger] within(d.gaps, x) && within(d.intervals, x))
            &&& forall|i: int|
                0 <= i < d.gaps.len() ==> {
                    &&& (#[trigger] d.gaps[i]).len > 0
                    &&& d.gaps[i].start_seq == (anchor + d.gaps[i].offset) % 0x1_0000_0000
                    &&& d.gaps[i].end_seq == (anchor + d.gaps[i].offset + d.gaps[i].len)
                        % 0x1_0000_0000
                }
            &&& forall|i: int, j: int|
                0 <= i < j < d.gaps.len() ==> (#[trigger] d.gaps[i]).offset + d.gaps[i].len < (
                #[trigger] d.gaps[j]).offset
        }),
{
    let d = direction_of(isn, segs, policy);
    let anchor = first_number(isn, segs);
    let m = lemma_joined_ranges(isn, segs, policy);
    law_intervals_are_what_came(isn, segs, policy);
    let n = segs.len() as int;
    let base = base_offset(segs, anchor, n);
    lemma_base(segs, anchor, n);
    let l = m.len() as int;
    assert(m[0].0 < m[0].1 && m[l - 1].0 < m[l - 1].1);
    let lo = m[0].0 as int;
    let hi = m[l - 1].1 - 1;
    assert(m[0].0 <= lo < m[0].1);
    assert(m[l - 1].0 <= hi < m[l - 1].1);
    assert(came(segs, anchor, lo));
    assert(came(segs, anchor, hi));
    assert forall|y: int| #[trigger] came(segs, anchor, y) implies lo <= y <= hi && base <= y by {
        let i = choose|i: int| 0 <= i < m.len() && (#[trigger] m[i]).0 <= y < m[i].1;
        if i > 0 {
            assert(m[0].1 < m[i].0);
        }
        if i < l - 1 {
            assert(m[i].1 < m[l - 1].0);
        }
        let k = choose|k: int| 0 <= k < segs.len() && brings(#[trigger] segs[k], anchor, y);
        assert(base <= offset_of(segs[k].seq, anchor));
    }
    lemma_gaps(m, anchor, base, l);
    assert forall|x: int| #[trigger]
        within(d.gaps, x) <==> {
            &&& !came(segs, anchor, x)
            &&& exists|y: int| x < y && #[trigger] came(segs, anchor, y)
            &&& 0 <= x || exists|y: int| y < x && #[trigger] came(segs, anchor, y)
        } by {
        if within(d.gaps, x) {
            assert(came(segs, anchor, hi));
            if x < 0 {
                let i = choose|i: int| 0 <= i < n && base == offset_of((#[trigger] segs[i]).seq, anchor);
                assert(brings(segs[i], anchor, base));
                assert(came(segs, anchor, base));
                assert(base < x);
            }
        } else if !came(segs, anchor, x) && (exists|y: int| x < y && #[trigger] came(segs, anchor, y))
            && (0 <= x || exists|y: int| y < x && #[trigger] came(segs, anchor, y)) {
            let y = choose|y: int| x < y && #[trigger] came(segs, anchor, y);
            if x < 0 {
                let z = choose|z: int| z < x && #[trigger] came(segs, anchor, z);
            }
            assert(base <= x);
            if x >= m[l - 1].0 {
                assert(m[l - 1].0 <= x < m[l - 1].1);
                assert(came(segs, anchor, x));
            }
            assert(false);
        }
    }
}

spec fn start_of(m: Seq<(i64, i64)>, k: int) -> int
    decreases k,
{
    if k <= 0 {
        0
    } else {
        start_of(m, k - 1) + m[k - 1].1 - m[k - 1].0
    }
}

spec fn place_of(m: Seq<(i64, i64)>, k: int, x: int) -> int {
    start_of(m, k) + x - m[k].0
}

proof fn lemma_start_prefix(a: Seq<(i64, i64)>, b: Seq<(i64, i64)>, k: int)
    requires
        forall|i: int| 0 <= i < k ==> a[i] == b[i],
    ensures
        start_of(a, k) == start_of(b, k),
    decreases k,
{
    if k > 0 {
        lemma_start_prefix(a, b, k - 1);
        assert(a[k - 1] == b[k - 1]);
    }
}

proof fn lemma_gathered(bytes: Map<int, u8>, cov: Seq<Cover>, n: int)
    requires
        cov_wf(cov),
        0 <= n <= cov.len(),
    ensures
        ({
            let m = merged(cov, n);
            let g = gathered(bytes, cov, n);
            &&& g.len() == start_of(m, m.len() as int)
            &&& forall|k: int, x: int|
                0 <= k < m.len() && m[k].0 <= x < m[k].1 ==> 0 <= #[trigger] place_of(m, k, x)
                    < g.len() && g[place_of(m, k, x)] == bytes[x]
        }),
    decreases n,
{
    let m = merged(cov, n);
    let g = gathered(bytes, cov, n);
    lemma_merged(cov, n);
    if n > 0 {
        lemma_gathered(bytes, cov, n - 1);
        lemma_merged(cov, n - 1);
        let m0 = merged(cov, n - 1);
        let g0 = gathered(bytes, cov, n - 1);
        let c = cov[n - 1];
        assert(c.0 < c.1);
        let l = m0.len() as int;
        let r = run(bytes, c.0 as int, c.1 as int);
        if l > 0 && m0.last().1 == c.0 {
            lemma_start_prefix(m, m0, l - 1);
            assert(start_of(m, l) == start_of(m0, l) + c.1 - c.0);
            assert(g.len() == start_of(m, l));
        } else {
            lemma_start_prefix(m, m0, l);
            assert(start_of(m, l + 1) == start_of(m0, l) + c.1 - c.0);
        }
        assert forall|k: int, x: int| 0 <= k < m.len() && m[k].0 <= x < m[k].1 implies 0
            <= #[trigger] place_of(m, k, x) < g.len() && g[place_of(m, k, x)] == bytes[x] by {
            if l > 0 && m0.last().1 == c.0 {
                lemma_start_prefix(m, m0, k);
                if k < l - 1 {
                    assert(m[k] == m0[k]);
                    assert(g0[place_of(m0, k, x)] == bytes[x]);
                } else if x < c.0 {
                    assert(g0[place_of(m0, k, x)] == bytes[x]);
                } else {
                    let j = place_of(m, k, x);
                    assert(j == g0.len() + x - c.0);
                    assert(r[x - c.0] == bytes[x]);
                }
            } else {
                lemma_start_prefix(m, m0, k);
                if k < l {
                    assert(m[k] == m0[k]);
                    assert(g0[place_of(m0, k, x)] == bytes[x]);
                } else {
                    assert(r[x - c.0] == bytes[x]);
                }
            }
        }
    }
}

proof fn lemma_sizes(m: Seq<(i64, i64)>, anchor: u32, k: int)
    requires
        apart(m),
        0 <= k <= m.len(),
        forall|i: int|
            0 <= i < m.len() ==> -0x8000_0000 <= (#[trigger] m[i]).0 && m[i].1 <= 0x1_8000_0000,
    ensures
        size_upto(intervals_of(m, anchor, m.len() as int), k) == start_of(m, k),
    decreases k,
{
    if k > 0 {
        lemma_sizes(m, anchor, k - 1);
        assert(m[k - 1].0 < m[k - 1].1);
    }
}

/// The byte at offset `x` that counts under a policy: that of the first segment that
/// brought it, or of the last.
pub open spec fn counts(
    segs: Seq<SegModel>,
    anchor: u32,
    policy: OverlapPolicy,
    i: int,
    x: int,
) -> bool {
    &&& 0 <= i < segs.len()
    &&& brings(segs[i], anchor, x)
    &&& policy == OverlapPolicy::FirstSeen ==> forall|j: int|
        0 <= j < i ==> !brings(#[trigger] segs[j], anchor, x)
    &&& policy == OverlapPolicy::LastSeen ==> forall|j: int|
        i < j < segs.len() ==> !brings(#[trigger] segs[j], anchor, x)
}

proof fn lemma_counted(segs: Seq<SegModel>, anchor: u32, policy: OverlapPolicy, n: int, i: int, x: int)
    requires
        0 <= i < n <= segs.len(),
        counts(segs.take(n), anchor, policy, i, x),
    ensures
        dir_run(segs, anchor, policy, n).bytes.contains_key(x),
        dir_run(segs, anchor, policy, n).bytes[x] == brought(segs[i], anchor, x),
    decreases n,
{
    let t = segs.take(n);
    let s = segs.take(n - 1);
    law_offset(segs[n - 1].seq, anchor);
    law_offset(segs[i].seq, anchor);
    assert(t[i] == segs[i]);
    if i < n - 1 {
        assert(counts(s, anchor, policy, i, x)) by {
            assert(s[i] == t[i]);
            assert forall|j: int| 0 <= j < i && policy == OverlapPolicy::FirstSeen implies !brings(
                #[trigger] s[j],
                anchor,
                x,
            ) by {
                assert(t[j] == s[j]);
            }
            assert forall|j: int| i < j < s.len() && policy == OverlapPolicy::LastSeen implies !brings(
                #[trigger] s[j],
                anchor,
                x,
            ) by {
                assert(t[j] == s[j]);
            }
        }
        lemma_counted(segs, anchor, policy, n - 1, i, x);
        if policy == OverlapPolicy::LastSeen {
            assert(t[n - 1] == segs[n - 1]);
            assert(!brings(t[n - 1], anchor, x));
        }
    } else {
        lemma_bytes(segs, anchor, policy, n - 1);
        let e = dir_run(segs, anchor, policy, n - 1);
        if policy == OverlapPolicy::FirstSeen {
            if came(s, anchor, x) {
                let j = choose|j: int| 0 <= j < s.len() && brings(#[trigger] s[j], anchor, x);
                assert(t[j] == s[j]);
            }
            assert(!e.bytes.contains_key(x));
        }
    }
}

/// The payload of a direction is the bytes of its intervals, one after the other: each
/// byte is the one that the first or, last seen, the last segment brought to its offset,
/// and there are no others.
pub proof fn law_payload_is_what_came(
    isn: Option<u32>,
    segs: Seq<SegModel>,
    policy: OverlapPolicy,
    k: int,
    x: int,
    i: int,
)
    requires
        data_segs(segs),
        segs.len() > 0,
        0 <= k < direction_of(isn, segs, policy).intervals.len(),
        ({
            let v = direction_of(isn, segs, policy).intervals[k];
            v.offset <= x < v.offset + v.len
        }),
        counts(segs, first_number(isn, segs), policy, i, x),
    ensures
        ({
            let d = direction_of(isn, segs, policy);
            let at = size_upto(d.intervals, k) + x - d.intervals[k].offset;
            &&& d.payload.len() == size_upto(d.intervals, d.intervals.len() as int)
            &&& 0 <= at < d.payload.len()
            &&& d.payload[at] == brought(segs[i], first_number(isn, segs), x)
        }),
{
    let d = direction_of(isn, segs, policy);
    let anchor = first_number(isn, segs);
    let m = lemma_joined_ranges(isn, segs, policy);
    let n = segs.len() as int;
    let r = dir_run(segs, anchor, policy, n);
    lemma_cov(segs, anchor, policy);
    lemma_gathered(r.bytes, r.cov, r.cov.len() as int);
    lemma_sizes(m, anchor, k);
    lemma_sizes(m, anchor, m.len() as int);
    assert(m[k].0 < m[k].1);
    assert(segs.take(n) =~= segs);
    lemma_counted(segs, anchor, policy, n, i, x);
    assert(d.payload[place_of(m, k, x)] == r.bytes[x]);
}

/// A direction without data reports none.
pub proof fn law_no_segments_no_bytes(isn: Option<u32>, policy: OverlapPolicy)
    ensures
        ({
            let d = direction_of(isn, seq![], policy);
            &&& d.isn == isn
            &&& d.payload.len() == 0
            &&& d.intervals.len() == 0
            &&& d.gaps.len() == 0
            &&& d.segments.len() == 0
            &&& d.retransmissions.len() == 0
            &&& d.out_of_order.len() == 0
            &&& d.overlaps.len() == 0
        }),
{
}

/// A range that covers `x` belongs to `frame`.
spec fn owned(cov: Seq<Cover>, x: int, frame: u64) -> bool {
    exists|k: int| 0 <= k < cov.len() && (#[trigger] cov[k]).0 <= x < cov[k].1 && cov[k].2 == frame
}

proof fn lemma_below_owned(cov: Seq<Cover>, off: int, n: int, x: int, f: u64)
    requires
        0 <= n <= cov.len(),
        i64::MIN <= off <= i64::MAX,
        owned(below(cov, off, n), x, f),
    ensures
        x < off,
        owned(cov, x, f),
    decreases n,
{
    if n > 0 {
        let r = below(cov, off, n);
        let rest = below(cov, off, n - 1);
        let k = choose|k: int| 0 <= k < r.len() && (#[trigger] r[k]).0 <= x < r[k].1 && r[k].2 == f;
        if k < rest.len() {
            assert(rest[k] == r[k]);
            lemma_below_owned(cov, off, n - 1, x, f);
        } else {
            assert(cov[n - 1].0 <= x < cov[n - 1].1);
        }
    }
}

proof fn lemma_above_owned(cov: Seq<Cover>, end: int, n: int, x: int, f: u64)
    requires
        0 <= n <= cov.len(),
        i64::MIN <= end <= i64::MAX,
        owned(above(cov, end, n), x, f),
    ensures
        x >= end,
        owned(cov, x, f),
    decreases n,
{
    if n > 0 {
        let r = above(cov, end, n);
        let rest = above(cov, end, n - 1);
        let k = choose|k: int| 0 <= k < r.len() && (#[trigger] r[k]).0 <= x < r[k].1 && r[k].2 == f;
        if k < rest.len() {
            assert(rest[k] == r[k]);
            lemma_above_owned(cov, end, n - 1, x, f);
        } else {
            assert(cov[n - 1].0 <= x < cov[n - 1].1);
        }
    }
}

proof fn lemma_inside_owned(
    cov: Seq<Cover>,
    i: int,
    cur: int,
    end: int,
    frame: u64,
    policy: OverlapPolicy,
    x: int,
    f: u64,
)
    requires
        cov_wf(cov),
        0 <= i <= cov.len(),
        i64::MIN <= cur <= end <= i64::MAX,
        forall|k: int| 0 <= k < i ==> (#[trigger] cov[k]).1 <= cur,
        owned(inside(cov, i, cur, end, frame, policy), x, f),
    ensures
        cur <= x < end,
        policy == OverlapPolicy::LastSeen || !covered(cov, x) ==> f == frame,
        policy == OverlapPolicy::FirstSeen && covered(cov, x) ==> owned(cov, x, f),
    decreases cov.len() - i,
{
    let r = inside(cov, i, cur, end, frame, policy);
    let k = choose|k: int| 0 <= k < r.len() && (#[trigger] r[k]).0 <= x < r[k].1 && r[k].2 == f;
    if i >= cov.len() || cov[i].0 >= end || cur >= end {
        if covered(cov, x) {
            let j = choose|j: int| 0 <= j < cov.len() && (#[trigger] cov[j]).0 <= x < cov[j].1;
            if j > i {
                assert(cov[i].1 <= cov[j].0);
                assert(cov[i].0 < cov[i].1);
            }
        }
    } else if cov[i].1 <= cur {
        lemma_inside_owned(cov, i + 1, cur, end, frame, policy, x, f);
    } else {
        let s = if cov[i].0 > cur {
            cov[i].0 as int
        } else {
            cur
        };
        let e = if cov[i].1 < end {
            cov[i].1 as int
        } else {
            end
        };
        let gap = if cur < s {
            1int
        } else {
            0
        };
        let rest = inside(cov, i + 1, e, end, frame, policy);
        if k > gap {
            assert(rest[k - gap - 1] == r[k]);
            assert forall|j: int| 0 <= j < i + 1 implies (#[trigger] cov[j]).1 <= e by {
                if j < i {
                    assert(cov[j].1 <= cur);
                } else if cov[i].1 > end {
                    lemma_inside_end(cov, i + 1, e, end, frame, policy);
                }
            }
            lemma_inside_owned(cov, i + 1, e, end, frame, policy, x, f);
        } else if k == gap {
            assert(cov[i].0 <= x < cov[i].1);
        } else {
            if covered(cov, x) {
                let j = choose|j: int| 0 <= j < cov.len() && (#[trigger] cov[j]).0 <= x < cov[j].1;
                if j > i {
                    assert(cov[i].1 <= cov[j].0);
                }
            }
        }
    }
}

proof fn lemma_inside_end(
    cov: Seq<Cover>,
    i: int,
    cur: int,
    end: int,
    frame: u64,
    policy: OverlapPolicy,
)
    requires
        cur >= end,
    ensures
        inside(cov, i, cur, end, frame, policy).len() == 0,
{
}

proof fn lemma_recovered_owned(
    cov: Seq<Cover>,
    off: int,
    end: int,
    frame: u64,
    policy: OverlapPolicy,
    x: int,
    f: u64,
)
    requires
        cov_wf(cov),
        i64::MIN <= off <= end <= i64::MAX,
        owned(recovered(cov, off, end, frame, policy), x, f),
    ensures
        off <= x < end && (policy == OverlapPolicy::LastSeen || !covered(cov, x)) ==> f == frame,
        !(off <= x < end) || (policy == OverlapPolicy::FirstSeen && covered(cov, x)) ==> owned(
            cov,
            x,
            f,
        ),
{
    let a = below(cov, off, cov.len() as int);
    let b = inside(cov, 0, off, end, frame, policy);
    let c = above(cov, end, cov.len() as int);
    let r = recovered(cov, off, end, frame, policy);
    let k = choose|k: int| 0 <= k < r.len() && (#[trigger] r[k]).0 <= x < r[k].1 && r[k].2 == f;
    if k < a.len() {
        assert(a[k] == r[k]);
        assert(owned(a, x, f));
        lemma_below_owned(cov, off, cov.len() as int, x, f);
    } else if k < a.len() + b.len() {
        assert(b[k - a.len()] == r[k]);
        assert(owned(b, x, f));
        lemma_inside_owned(cov, 0, off, end, frame, policy, x, f);
    } else {
        assert(c[k - a.len() - b.len()] == r[k]);
        assert(owned(c, x, f));
        lemma_above_owned(cov, end, cov.len() as int, x, f);
    }
}

proof fn lemma_owner(
    segs: Seq<SegModel>,
    anchor: u32,
    policy: OverlapPolicy,
    n: int,
    x: int,
    f: u64,
) -> (j: int)
    requires
        0 <= n <= segs.len(),
        data_segs(segs),
        owned(dir_run(segs, anchor, policy, n).cov, x, f),
    ensures
        counts(segs.take(n), anchor, policy, j, x),
        segs[j].frame == f,
    decreases n,
{
    let d = dir_run(segs, anchor, policy, n);
    if n <= 0 {
        0
    } else {
        let e = dir_run(segs, anchor, policy, n - 1);
        let seg = segs[n - 1];
        let s = segs.take(n - 1);
        let t = segs.take(n);
        law_offset(seg.seq, anchor);
        let off = offset_of(seg.seq, anchor);
        let end = off + seg.payload.len();
        assert(short_segs(segs));
        lemma_run(segs, anchor, policy, n - 1);
        lemma_bytes(segs, anchor, policy, n - 1);
        lemma_recovered_owned(e.cov, off, end, seg.frame, policy, x, f);
        assert(e.bytes.contains_key(x) <==> covered(e.cov, x));
        assert(t[n - 1] == seg);
        if off <= x < end && (policy == OverlapPolicy::LastSeen || !covered(e.cov, x)) {
            assert forall|j: int| 0 <= j < n - 1 && policy == OverlapPolicy::FirstSeen implies !brings(
                #[trigger] t[j],
                anchor,
                x,
            ) by {
                assert(s[j] == t[j]);
                assert(!came(s, anchor, x));
            }
            n - 1
        } else {
            let j = lemma_owner(segs, anchor, policy, n - 1, x, f);
            assert(s[j] == t[j]);
            assert forall|i: int| 0 <= i < j && policy == OverlapPolicy::FirstSeen implies !brings(
                #[trigger] t[i],
                anchor,
                x,
            ) by {
                assert(s[i] == t[i]);
            }
            assert forall|i: int| j < i < t.len() && policy == OverlapPolicy::LastSeen implies !brings(
                #[trigger] t[i],
                anchor,
                x,
            ) by {
                if i < n - 1 {
                    assert(s[i] == t[i]);
                }
            }
            j
        }
    }
}

proof fn lemma_run_prefix(a: Seq<SegModel>, b: Seq<SegModel>, anchor: u32, policy: OverlapPolicy, n: int)
    requires
        0 <= n <= a.len(),
        n <= b.len(),
        forall|i: int| 0 <= i < n ==> a[i] == b[i],
    ensures
        dir_run(a, anchor, policy, n) == dir_run(b, anchor, policy, n),
    decreases n,
{
    if n > 0 {
        lemma_run_prefix(a, b, anchor, policy, n - 1);
        assert(a[n - 1] == b[n - 1]);
    }
}

proof fn lemma_top(segs: Seq<SegModel>, anchor: u32, policy: OverlapPolicy, n: int)
    requires
        0 <= n <= segs.len(),
        data_segs(segs),
    ensures
        ({
            let top = dir_run(segs, anchor, policy, n).top;
            &&& top is Some <==> n > 0
            &&& n > 0 ==> came(segs.take(n), anchor, top->0 - 1)
            &&& forall|x: int| n > 0 && #[trigger] came(segs.take(n), anchor, x) ==> x < top->0
        }),
    decreases n,
{
    if n > 0 {
        lemma_top(segs, anchor, policy, n - 1);
        let s = segs.take(n - 1);
        let t = segs.take(n);
        let seg = segs[n - 1];
        law_offset(seg.seq, anchor);
        let top = dir_run(segs, anchor, policy, n).top->0;
        let end = offset_of(seg.seq, anchor) + seg.payload.len();
        assert(t[n - 1] == seg);
        if top == end {
            assert(brings(t[n - 1], anchor, top - 1));
        } else {
            let i = choose|i: int| 0 <= i < s.len() && brings(#[trigger] s[i], anchor, top - 1);
            assert(t[i] == s[i]);
        }
        assert forall|x: int| #[trigger] came(t, anchor, x) implies x < top by {
            let i = choose|i: int| 0 <= i < t.len() && brings(#[trigger] t[i], anchor, x);
            if i < n - 1 {
                assert(s[i] == t[i]);
                assert(came(s, anchor, x));
            }
        }
    }
}

/// An overlap tells who won `x` and what the other had brought there.
pub open spec fn tells_loser(
    e: OverlapModel,
    segs: Seq<SegModel>,
    seg: SegModel,
    anchor: u32,
    policy: OverlapPolicy,
    x: int,
) -> bool {
    exists|j: int| #[trigger]
        counts(segs, anchor, policy, j, x) && match policy {
            OverlapPolicy::FirstSeen => {
                &&& e.kept_frame == segs[j].frame
                &&& e.dropped_frame == seg.frame
                &&& e.dropped[x - e.offset] == brought(seg, anchor, x)
            },
            OverlapPolicy::LastSeen => {
                &&& e.kept_frame == seg.frame
                &&& e.dropped_frame == segs[j].frame
                &&& e.dropped[x - e.offset] == brought(segs[j], anchor, x)
            },
        }
}

/// Offset `x` lies in one of some overlaps.
pub open spec fn in_overlap(v: Seq<OverlapModel>, x: int) -> bool {
    exists|i: int| 0 <= i < v.len() && (#[trigger] v[i]).offset <= x < v[i].offset + v[i].len
}

proof fn lemma_overlaps(
    segs: Seq<SegModel>,
    seg: SegModel,
    anchor: u32,
    policy: OverlapPolicy,
    n: int,
)
    requires
        data_segs(segs),
        0 < seg.payload.len() <= 0xffff_ffff,
        0 <= n <= dir_run(segs, anchor, policy, segs.len() as int).cov.len(),
    ensures
        ({
            let d = dir_run(segs, anchor, policy, segs.len() as int);
            let off = offset_of(seg.seq, anchor);
            let v = overlaps_of(d, anchor, policy, seg, off, n);
            &&& forall|x: int| #[trigger]
                in_overlap(v, x) <==> brings(seg, anchor, x) && covered(d.cov.take(n), x)
            &&& forall|i: int|
                0 <= i < v.len() ==> {
                    &&& (#[trigger] v[i]).len > 0
                    &&& v[i].policy == policy
                    &&& v[i].start_seq == (anchor + v[i].offset) % 0x1_0000_0000
                    &&& v[i].dropped.len() == v[i].len
                    &&& n > 0 && v[i].offset + v[i].len <= d.cov[n - 1].1
                }
            &&& forall|i: int, j: int|
                0 <= i < j < v.len() ==> (#[trigger] v[i]).offset + v[i].len <= (
                #[trigger] v[j]).offset
        }),
    decreases n,
{
    let d = dir_run(segs, anchor, policy, segs.len() as int);
    let off = offset_of(seg.seq, anchor);
    let v = overlaps_of(d, anchor, policy, seg, off, n);
    lemma_cov(segs, anchor, policy);
    if n > 0 {
        lemma_overlaps(segs, seg, anchor, policy, n - 1);
        let rest = overlaps_of(d, anchor, policy, seg, off, n - 1);
        let c = d.cov[n - 1];
        assert(c.0 < c.1 && -0x8000_0000 <= c.0 && c.1 <= 0x1_8000_0000);
        if n > 1 {
            assert(d.cov[n - 2].1 <= c.0);
        }
        let s = if off > c.0 {
            off
        } else {
            c.0 as int
        };
        let end = off + seg.payload.len();
        let e = if end < c.1 {
            end
        } else {
            c.1 as int
        };
        let l = rest.len() as int;
        let t0 = d.cov.take(n - 1);
        let t = d.cov.take(n);
        assert(t[n - 1] == c);
        assert forall|x: int| #[trigger] in_overlap(v, x) <==> brings(seg, anchor, x) && covered(t, x) by {
            assert(in_overlap(rest, x) <==> brings(seg, anchor, x) && covered(t0, x));
            assert(covered(t, x) <==> covered(t0, x) || c.0 <= x < c.1) by {
                if covered(t0, x) {
                    let i = choose|i: int| 0 <= i < t0.len() && (#[trigger] t0[i]).0 <= x < t0[i].1;
                    assert(t[i] == t0[i]);
                }
                if covered(t, x) {
                    let i = choose|i: int| 0 <= i < t.len() && (#[trigger] t[i]).0 <= x < t[i].1;
                    if i < n - 1 {
                        assert(t0[i] == t[i]);
                    }
                }
            }
            assert(in_overlap(v, x) <==> in_overlap(rest, x) || s <= x < e) by {
                if in_overlap(rest, x) {
                    let i = choose|i: int|
                        0 <= i < rest.len() && (#[trigger] rest[i]).offset <= x < rest[i].offset
                            + rest[i].len;
                    assert(v[i] == rest[i]);
                }
                if s <= x < e {
                    assert(v[l].offset == s && v[l].len == e - s);
                }
                if in_overlap(v, x) {
                    let i = choose|i: int|
                        0 <= i < v.len() && (#[trigger] v[i]).offset <= x < v[i].offset + v[i].len;
                    if i < l {
                        assert(v[i] == rest[i]);
                    }
                }
            }
        }
        assert forall|i: int| 0 <= i < v.len() implies (#[trigger] v[i]).len > 0 && v[i].policy
            == policy && v[i].start_seq == (anchor + v[i].offset) % 0x1_0000_0000
            && v[i].dropped.len() == v[i].len && v[i].offset + v[i].len <= c.1 by {
            if i < l {
                assert(v[i] == rest[i]);
            }
        }
        assert forall|i: int, j: int| 0 <= i < j < v.len() implies (#[trigger] v[i]).offset
            + v[i].len <= (#[trigger] v[j]).offset by {
            assert(v[i] == rest[i]);
            if j < l {
                assert(v[j] == rest[j]);
            } else {
                assert(rest[i].offset + rest[i].len <= d.cov[n - 2].1);
            }
        }
    } else {
        assert forall|x: int| !#[trigger] in_overlap(v, x) by {}
    }
}

proof fn lemma_overlap_tells(
    segs: Seq<SegModel>,
    seg: SegModel,
    anchor: u32,
    policy: OverlapPolicy,
    n: int,
    i: int,
    x: int,
)
    requires
        data_segs(segs),
        0 < seg.payload.len() <= 0xffff_ffff,
        0 <= n <= dir_run(segs, anchor, policy, segs.len() as int).cov.len(),
        ({
            let d = dir_run(segs, anchor, policy, segs.len() as int);
            let v = overlaps_of(d, anchor, policy, seg, offset_of(seg.seq, anchor), n);
            0 <= i < v.len() && v[i].offset <= x < v[i].offset + v[i].len
        }),
    ensures
        ({
            let d = dir_run(segs, anchor, policy, segs.len() as int);
            let v = overlaps_of(d, anchor, policy, seg, offset_of(seg.seq, anchor), n);
            tells_loser(v[i], segs, seg, anchor, policy, x)
        }),
    decreases n,
{
    let d = dir_run(segs, anchor, policy, segs.len() as int);
    let off = offset_of(seg.seq, anchor);
    let v = overlaps_of(d, anchor, policy, seg, off, n);
    lemma_cov(segs, anchor, policy);
    if n > 0 {
        let rest = overlaps_of(d, anchor, policy, seg, off, n - 1);
        let l = rest.len() as int;
        if i < l {
            assert(v[i] == rest[i]);
            lemma_overlap_tells(segs, seg, anchor, policy, n - 1, i, x);
        } else {
            let c = d.cov[n - 1];
            assert(c.0 < c.1 && -0x8000_0000 <= c.0 && c.1 <= 0x1_8000_0000);
            let s = if off > c.0 {
                off
            } else {
                c.0 as int
            };
            let end = off + seg.payload.len();
            let e = if end < c.1 {
                end
            } else {
                c.1 as int
            };
            assert(s < e);
            assert(v[l].offset == s && v[l].len == e - s);
            assert(d.cov[n - 1].0 <= x < d.cov[n - 1].1);
            assert(owned(d.cov, x, c.2));
            let k = segs.len() as int;
            let j = lemma_owner(segs, anchor, policy, k, x, c.2);
            assert(segs.take(k) =~= segs);
            lemma_counted(segs, anchor, policy, k, j, x);
            assert(counts(segs, anchor, policy, j, x));
            assert(run(d.bytes, s, e)[x - s] == d.bytes[x]);
        }
    }
}

proof fn lemma_step(isn: Option<u32>, segs: Seq<SegModel>, seg: SegModel, policy: OverlapPolicy)
    requires
        data_segs(segs),
        0 < seg.payload.len() <= 0xffff_ffff,
    ensures
        ({
            let t = segs.push(seg);
            let anchor = first_number(isn, t);
            let n = segs.len() as int;
            let d = dir_run(segs, anchor, policy, n);
            let a = direction_of(isn, segs, policy);
            let b = direction_of(isn, t, policy);
            let e = dir_step(d, anchor, policy, seg);
            &&& b.segments == e.segments && a.segments == d.segments
            &&& b.retransmissions == e.retransmissions && a.retransmissions == d.retransmissions
            &&& b.out_of_order == e.out_of_order && a.out_of_order == d.out_of_order
            &&& b.overlaps == e.overlaps && a.overlaps == d.overlaps
        }),
{
    let t = segs.push(seg);
    let anchor = first_number(isn, t);
    let n = segs.len() as int;
    lemma_first_number(isn, t);
    lemma_run_prefix(t, segs, anchor, policy, n);
    assert(dir_run(t, anchor, policy, n + 1) == dir_step(
        dir_run(t, anchor, policy, n),
        anchor,
        policy,
        t[n],
    ));
    if n > 0 || isn is Some {
        lemma_first_number(isn, segs);
        assert(first_number(isn, segs) == anchor);
    }
}

/// What one more segment adds to a report: it is listed with its offset; it counts as a
/// retransmission exactly where all that it brings had come before; and as out of order
/// exactly where it brings something new while a byte at or behind its first one had come.
pub proof fn law_one_segment_more(
    isn: Option<u32>,
    segs: Seq<SegModel>,
    seg: SegModel,
    policy: OverlapPolicy,
)
    requires
        data_segs(segs),
        0 < seg.payload.len() <= 0xffff_ffff,
    ensures
        ({
            let a = direction_of(isn, segs, policy);
            let b = direction_of(isn, segs.push(seg), policy);
            let anchor = first_number(isn, segs.push(seg));
            let off = offset_of(seg.seq, anchor);
            let repeated = forall|x: int| #[trigger]
                brings(seg, anchor, x) ==> came(segs, anchor, x);
            let passed = exists|x: int| off <= x && #[trigger] came(segs, anchor, x);
            let ev = FrameEv {
                seq: seg.seq,
                len: seg.payload.len() as u64,
                frame: seg.frame,
            };
            &&& b.segments.len() == a.segments.len() + 1
            &&& b.segments.drop_last() == a.segments
            &&& b.segments.last().seq == seg.seq
            &&& b.segments.last().end_seq == (seg.seq + seg.payload.len()) % 0x1_0000_0000
            &&& b.segments.last().offset == off
            &&& b.segments.last().len == seg.payload.len()
            &&& b.segments.last().frame == seg.frame
            &&& b.segments.last().ts_ns == seg.ts_ns
            &&& b.retransmissions == if repeated {
                a.retransmissions.push(ev)
            } else {
                a.retransmissions
            }
            &&& b.out_of_order == if !repeated && passed {
                a.out_of_order.push(ev)
            } else {
                a.out_of_order
            }
        }),
{
    let t = segs.push(seg);
    let anchor = first_number(isn, t);
    let n = segs.len() as int;
    let a = direction_of(isn, segs, policy);
    let b = direction_of(isn, t, policy);
    lemma_step(isn, segs, seg, policy);
    law_offset(seg.seq, anchor);
    let off = offset_of(seg.seq, anchor);
    let d = dir_run(segs, anchor, policy, n);
    assert(b.segments.drop_last() =~= a.segments);
    lemma_bytes(segs, anchor, policy, n);
    assert(segs.take(n) =~= segs);
    lemma_run_prefix(t, segs, anchor, policy, n);
    assert(t[n] == seg);
    assert(short_segs(t)) by {
        assert forall|i: int| 0 <= i < t.len() implies (#[trigger] t[i]).payload.len() <= 0xffff_ffff by {
            if i < n {
                assert(t[i] == segs[i]);
            }
        }
    }
    law_retransmission(t, anchor, policy, n);
    let e = dir_step(d, anchor, policy, seg);
    assert(dir_run(t, anchor, policy, n + 1) == e);
    let repeated = forall|x: int| #[trigger] brings(seg, anchor, x) ==> came(segs, anchor, x);
    assert(repeated == (e.retransmissions.len() == d.retransmissions.len() + 1)) by {
        if repeated {
            assert forall|x: int| #[trigger] carries(seg, anchor, x) implies d.bytes.contains_key(x) by {
                assert(brings(seg, anchor, x));
            }
        }
        if forall|x: int| #[trigger] carries(seg, anchor, x) ==> d.bytes.contains_key(x) {
            assert forall|x: int| #[trigger] brings(seg, anchor, x) implies came(segs, anchor, x) by {
                assert(carries(seg, anchor, x));
                assert(d.bytes.contains_key(x));
            }
        }
    }
    lemma_top(segs, anchor, policy, n);
    let passed = exists|x: int| off <= x && #[trigger] came(segs, anchor, x);
    assert(passed == (d.top is Some && off < d.top->0)) by {
        if d.top is Some && off < d.top->0 {
            assert(came(segs, anchor, d.top->0 - 1));
        }
        if passed {
            let x = choose|x: int| off <= x && #[trigger] came(segs, anchor, x);
            assert(n > 0);
        }
    }
}

/// What came twice is told: the overlaps that one more segment adds cover exactly what it
/// brings that had come before, in order and apart, and each tells of each of its bytes
/// the frame that is kept, the frame that lost, and the byte that the loser had.
pub proof fn law_overlaps_tell_all(
    isn: Option<u32>,
    segs: Seq<SegModel>,
    seg: SegModel,
    policy: OverlapPolicy,
)
    requires
        data_segs(segs),
        0 < seg.payload.len() <= 0xffff_ffff,
    ensures
        ({
            let a = direction_of(isn, segs, policy).overlaps;
            let b = direction_of(isn, segs.push(seg), policy).overlaps;
            let anchor = first_number(isn, segs.push(seg));
            let v = b.skip(a.len() as int);
            &&& a.is_prefix_of(b)
            &&& forall|x: int| #[trigger]
                in_overlap(v, x) <==> brings(seg, anchor, x) && came(segs, anchor, x)
            &&& forall|i: int|
                0 <= i < v.len() ==> {
                    &&& (#[trigger] v[i]).len > 0
                    &&& v[i].policy == policy
                    &&& v[i].start_seq == (anchor + v[i].offset) % 0x1_0000_0000
                    &&& v[i].dropped.len() == v[i].len
                }
            &&& forall|i: int, j: int|
                0 <= i < j < v.len() ==> (#[trigger] v[i]).offset + v[i].len <= (
                #[trigger] v[j]).offset
            &&& forall|i: int, x: int|
                0 <= i < v.len() && v[i].offset <= x < v[i].offset + v[i].len
                    ==> #[trigger] tells_loser(v[i], segs, seg, anchor, policy, x)
        }),
{
    let a = direction_of(isn, segs, policy).overlaps;
    let b = direction_of(isn, segs.push(seg), policy).overlaps;
    let anchor = first_number(isn, segs.push(seg));
    let n = segs.len() as int;
    let d = dir_run(segs, anchor, policy, n);
    lemma_step(isn, segs, seg, policy);
    law_offset(seg.seq, anchor);
    let off = offset_of(seg.seq, anchor);
    let k = d.cov.len() as int;
    let w = overlaps_of(d, anchor, policy, seg, off, k);
    let v = b.skip(a.len() as int);
    assert(b == a + w);
    assert(v =~= w);
    lemma_overlaps(segs, seg, anchor, policy, k);
    lemma_cov(segs, anchor, policy);
    assert(d.cov.take(k) =~= d.cov);
    assert forall|x: int| #[trigger]
        in_overlap(v, x) <==> brings(seg, anchor, x) && came(segs, anchor, x) by {
        assert(covered(d.cov, x) <==> came(segs, anchor, x));
    }
    assert forall|i: int, x: int| 0 <= i < v.len() && v[i].offset <= x < v[i].offset
        + v[i].len implies #[trigger] tells_loser(v[i], segs, seg, anchor, policy, x) by {
        lemma_overlap_tells(segs, seg, anchor, policy, k, i, x);
    }
}

/// A segment of a direction that carries these.
pub open spec fn segment_of(seg: SegmentModel, ts: u64, frame: u64) -> SegModel {
    SegModel { seq: seg.seq, frame, ts_ns: ts, payload: seg.payload }
}

/// The open generation of a four-tuple.
pub open spec fn open_of(s: EngineState, src: Endpoint, dst: Endpoint) -> Option<GenModel> {
    let key = normalized(src, dst).0;
    if s.trackers.contains_key(key) {
        s.trackers[key].current
    } else {
        None
    }
}

/// The direction of a generation that leads from `src` to `dst`.
pub open spec fn way(g: GenModel, src: Endpoint, dst: Endpoint) -> SideModel {
    if normalized(src, dst).1 == 0 {
        g.a
    } else {
        g.b
    }
}

/// The direction of a report that leads from `src` to `dst`.
pub open spec fn told_way(d: DoneModel, src: Endpoint, dst: Endpoint) -> DirModel {
    if normalized(src, dst).1 == 0 {
        d.a
    } else {
        d.b
    }
}

/// The key of a connection holds its two endpoints, and the two directions differ.
pub proof fn law_key_holds_the_endpoints(src: Endpoint, dst: Endpoint)
    requires
        src != dst,
    ensures
        ({
            let (k, w) = normalized(src, dst);
            let (l, v) = normalized(dst, src);
            &&& k == l
            &&& w == 0 || w == 1
            &&& v == 1 - w
            &&& (w == 0 ==> k.a == src && k.b == dst)
            &&& (w == 1 ==> k.a == dst && k.b == src)
        }),
{
    law_key_is_symmetric(src, dst);
}

/// No data is lost: a segment with data that comes on an open connection in time, and is
/// no SYN that opens one, joins its generation. Its direction has grown by exactly that
/// segment, whatever other flags it has, and the other direction is as it was. Where the
/// segment closes the generation, the report is on the directions with that segment.
pub proof fn law_data_joins(
    s: EngineState,
    cfg: SessionConfig,
    src: Endpoint,
    dst: Endpoint,
    seg: SegmentModel,
    ts: u64,
    frame: u64,
)
    requires
        s.wf(),
        src != dst,
        open_of(s, src, dst) is Some,
        ts - open_of(s, src, dst)->0.last_ts <= cfg.timeout_ns,
        seg.flags & 0x02 == 0 || seg.flags & 0x10 != 0,
        seg.payload.len() > 0,
    ensures
        ({
            let g = open_of(s, src, dst)->0;
            let t = processed(s, cfg, src, dst, seg, ts, frame);
            let mine = way(g, src, dst).segs.push(segment_of(seg, ts, frame));
            let other = way(g, dst, src).segs;
            match open_of(t, src, dst) {
                Some(h) => {
                    &&& h.id == g.id
                    &&& h.partial == g.partial
                    &&& h.first_ts == g.first_ts
                    &&& h.last_ts == ts
                    &&& h.frames == g.frames.push(frame)
                    &&& way(h, src, dst).segs == mine
                    &&& way(h, dst, src) == way(g, dst, src)
                    &&& t.done == s.done
                },
                None => {
                    &&& t.done.len() == s.done.len() + 1
                    &&& t.done.last().generation == g.id
                    &&& t.done.last().frames == g.frames.push(frame)
                    &&& exists|isn: Option<u32>|
                        told_way(t.done.last(), src, dst) == #[trigger] direction_of(
                            isn,
                            mine,
                            cfg.overlap,
                        ) && (way(g, src, dst).isn is Some ==> isn == way(g, src, dst).isn)
                    &&& told_way(t.done.last(), dst, src) == direction_of(
                        way(g, dst, src).isn,
                        other,
                        cfg.overlap,
                    )
                },
            }
        }),
{
    law_key_holds_the_endpoints(src, dst);
    let (key, dir) = normalized(src, dst);
    let g = open_of(s, src, dst)->0;
    assert(s.tracker(key).current == Some(g));
    let t = processed(s, cfg, src, dst, seg, ts, frame);
    let h = gen_after(g, dir, seg, ts, frame);
    let mine = way(g, src, dst).segs.push(segment_of(seg, ts, frame));
    assert(way(h, src, dst).segs == mine);
    if open_of(t, src, dst) is None {
        assert(told_way(t.done.last(), src, dst) == direction_of(
            way(h, src, dst).isn,
            mine,
            cfg.overlap,
        ));
    }
}

/// A segment without data changes no stream: it adds no segment to either direction.
pub proof fn law_no_data_no_segment(
    s: EngineState,
    cfg: SessionConfig,
    src: Endpoint,
    dst: Endpoint,
    seg: SegmentModel,
    ts: u64,
    frame: u64,
)
    requires
        s.wf(),
        src != dst,
        open_of(s, src, dst) is Some,
        ts - open_of(s, src, dst)->0.last_ts <= cfg.timeout_ns,
        seg.flags & 0x02 == 0 || seg.flags & 0x10 != 0,
        seg.payload.len() == 0,
    ensures
        ({
            let g = open_of(s, src, dst)->0;
            let t = processed(s, cfg, src, dst, seg, ts, frame);
            open_of(t, src, dst) matches Some(h) ==> {
                &&& h.id == g.id
                &&& h.last_ts == ts
                &&& h.a.segs == g.a.segs
                &&& h.b.segs == g.b.segs
            }
        }),
{
    let (key, dir) = normalized(src, dst);
    assert(s.tracker(key).current == open_of(s, src, dst));
}

/// A connection that was not open is opened by the first segment that is no late reset:
/// the new generation holds that segment and nothing else, and is whole exactly where
/// the segment is a SYN that opens a connection.
pub proof fn law_first_segment_opens(
    s: EngineState,
    cfg: SessionConfig,
    src: Endpoint,
    dst: Endpoint,
    seg: SegmentModel,
    ts: u64,
    frame: u64,
)
    requires
        s.wf(),
        src != dst,
        open_of(s, src, dst) is None,
        seg.flags & 0x04 == 0,
    ensures
        ({
            let t = processed(s, cfg, src, dst, seg, ts, frame);
            let none = Seq::<SegModel>::empty();
            &&& t.done == s.done
            &&& open_of(t, src, dst) matches Some(h) && {
                &&& h.partial == !(seg.flags & 0x02 != 0 && seg.flags & 0x10 == 0)
                &&& h.first_ts == ts
                &&& h.last_ts == ts
                &&& h.frames == seq![frame]
                &&& way(h, src, dst).isn == if seg.flags & 0x02 != 0 {
                    Some(seg.seq)
                } else {
                    None::<u32>
                }
                &&& way(h, src, dst).fin == (seg.flags & 0x01 != 0)
                &&& way(h, src, dst).segs == if seg.payload.len() > 0 {
                    seq![segment_of(seg, ts, frame)]
                } else {
                    none
                }
                &&& way(h, dst, src).isn is None
                &&& !way(h, dst, src).fin
                &&& way(h, dst, src).segs == none
            }
        }),
{
    law_key_holds_the_endpoints(src, dst);
    let (key, dir) = normalized(src, dst);
    assert(s.tracker(key).current is None);
    let t = processed(s, cfg, src, dst, seg, ts, frame);
    let h = open_of(t, src, dst)->0;
    assert(h.frames =~= seq![frame]);
    if seg.payload.len() > 0 {
        assert(way(h, src, dst).segs =~= seq![segment_of(seg, ts, frame)]);
    }
}

/// A reset ends an open connection in time, and so does the FIN that makes both sides
/// have one; nothing else that is no SYN does.
pub proof fn law_only_these_close(
    s: EngineState,
    cfg: SessionConfig,
    src: Endpoint,
    dst: Endpoint,
    seg: SegmentModel,
    ts: u64,
    frame: u64,
)
    requires
        s.wf(),
        src != dst,
        open_of(s, src, dst) is Some,
        ts - open_of(s, src, dst)->0.last_ts <= cfg.timeout_ns,
        seg.flags & 0x02 == 0 || seg.flags & 0x10 != 0,
    ensures
        ({
            let g = open_of(s, src, dst)->0;
            let t = processed(s, cfg, src, dst, seg, ts, frame);
            let ended = (way(g, src, dst).fin || seg.flags & 0x01 != 0) && way(g, dst, src).fin;
            &&& open_of(t, src, dst) is None <==> seg.flags & 0x04 != 0 || ended
            &&& open_of(t, src, dst) is None ==> {
                &&& t.done.len() == s.done.len() + 1
                &&& t.done.last().close_reason == if seg.flags & 0x04 != 0 {
                    "rst"@
                } else {
                    "fin"@
                }
                &&& t.done.last().generation == g.id
                &&& t.done.last().partial == g.partial
                &&& t.done.last().first_ts == g.first_ts
                &&& t.done.last().last_ts == ts
            }
            &&& open_of(t, src, dst) matches Some(h) ==> h.id == g.id && way(h, src, dst).fin == (
            way(g, src, dst).fin || seg.flags & 0x01 != 0) && way(h, dst, src).fin == way(
                g,
                dst,
                src,
            ).fin
        }),
{
    law_key_holds_the_endpoints(src, dst);
    let (key, dir) = normalized(src, dst);
    assert(s.tracker(key).current == open_of(s, src, dst));
}

/// Only idle time counts against a connection: of two segments of an open connection of
/// which the second follows the first within the timeout, neither a SYN that opens a
/// connection nor one that ends it, the second opens nothing and joins where the first
/// did, however long the connection has lasted.
pub proof fn law_activity_keeps_open(
    s: EngineState,
    cfg: SessionConfig,
    ends: (Endpoint, Endpoint),
    first: (SegmentModel, u64, u64),
    second: (SegmentModel, u64, u64),
    back: bool,
)
    requires
        s.wf(),
        ends.0 != ends.1,
        open_of(s, ends.0, ends.1) is Some,
        first.1 - open_of(s, ends.0, ends.1)->0.last_ts <= cfg.timeout_ns,
        second.1 - first.1 <= cfg.timeout_ns,
        first.0.flags & 0x02 == 0 || first.0.flags & 0x10 != 0,
        second.0.flags & 0x02 == 0 || second.0.flags & 0x10 != 0,
        first.0.payload.len() <= 0xffff_ffff,
        open_of(
            processed(s, cfg, ends.0, ends.1, first.0, first.1, first.2),
            ends.0,
            ends.1,
        ) is Some,
    ensures
        ({
            let t = processed(s, cfg, ends.0, ends.1, first.0, first.1, first.2);
            let (x, y) = if back {
                (ends.1, ends.0)
            } else {
                ends
            };
            let u = processed(t, cfg, x, y, second.0, second.1, second.2);
            let g = open_of(s, ends.0, ends.1)->0;
            match open_of(u, ends.0, ends.1) {
                Some(h) => h.id == g.id && h.first_ts == g.first_ts && u.done == s.done,
                None => u.done.len() == s.done.len() + 1 && u.done.last().generation == g.id,
            }
        }),
{
    law_key_holds_the_endpoints(ends.0, ends.1);
    let (key, dir) = normalized(ends.0, ends.1);
    assert(s.tracker(key).current == open_of(s, ends.0, ends.1));
    let t = processed(s, cfg, ends.0, ends.1, first.0, first.1, first.2);
    assert(t.tracker(key).current is Some);
    assert(t.tracker(key).current->0.last_ts == first.1);
}

/// A connection that has been idle for longer than the timeout is over: what comes then
/// belongs to another generation, and the report on the old one is on what it had.
pub proof fn law_idle_connection_is_over(
    s: EngineState,
    cfg: SessionConfig,
    src: Endpoint,
    dst: Endpoint,
    seg: SegmentModel,
    ts: u64,
    frame: u64,
)
    requires
        s.wf(),
        src != dst,
        open_of(s, src, dst) is Some,
        ts - open_of(s, src, dst)->0.last_ts > cfg.timeout_ns,
        seg.flags & 0x04 == 0,
        s.trackers[normalized(src, dst).0].next_gen < u32::MAX,
    ensures
        ({
            let g = open_of(s, src, dst)->0;
            let t = processed(s, cfg, src, dst, seg, ts, frame);
            let d = t.done.last();
            &&& t.done.len() == s.done.len() + 1
            &&& d.close_reason == "timeout"@
            &&& d.generation == g.id
            &&& d.frames == g.frames
            &&& d.a == direction_of(g.a.isn, g.a.segs, cfg.overlap)
            &&& d.b == direction_of(g.b.isn, g.b.segs, cfg.overlap)
            &&& open_of(t, src, dst) matches Some(h) && h.frames == seq![frame] && h.id
                == s.trackers[normalized(src, dst).0].next_gen
        }),
{
    law_key_holds_the_endpoints(src, dst);
    let (key, dir) = normalized(src, dst);
    assert(s.tracker(key).current == open_of(s, src, dst));
    let t = processed(s, cfg, src, dst, seg, ts, frame);
    let h = open_of(t, src, dst)->0;
    assert(h.frames =~= seq![frame]);
}

/// A finished session tells what its report tells: the counts, the digests and the files
/// are those of the bytes that it hands out.
pub proof fn law_finished_session_adds_up(f: FinishedSession, id: int, m: DoneModel)
    requires
        f.says(id, m),
    ensures
        f.result.directions@[0].byte_count == f.payloads@[0]@.len(),
        f.result.directions@[1].byte_count == f.payloads@[1]@.len(),
        f.payloads@[0]@ == m.a.payload,
        f.payloads@[1]@ == m.b.payload,
        f.result.directions@[0].payload_sha256@ == hex_of(sha256_of(f.payloads@[0]@)),
        f.result.directions@[1].payload_sha256@ == hex_of(sha256_of(f.payloads@[1]@)),
        f.result.directions@[0].intervals@ == m.a.intervals,
        f.result.directions@[1].intervals@ == m.b.intervals,
        f.result.directions@[0].gaps@ == m.a.gaps,
        f.result.directions@[1].gaps@ == m.b.gaps,
        f.result.directions@[0].overlaps@.len() == m.a.overlaps.len(),
        f.result.directions@[1].overlaps@.len() == m.b.overlaps.len(),
        f.result.directions@[0].retransmissions@ == m.a.retransmissions,
        f.result.directions@[1].retransmissions@ == m.b.retransmissions,
        f.result.directions@[0].out_of_order@ == m.a.out_of_order,
        f.result.directions@[1].out_of_order@ == m.b.out_of_order,
        f.result.frames@ == m.frames,
        f.result.generation == m.generation,
        f.result.partial == m.partial,
{
}

} // verus!
