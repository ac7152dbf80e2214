//! Sparse bytes at signed stream offsets: the order of the offsets, maximal held
//! ranges and maximal missing ranges.

use std::collections::BTreeMap;
use vstd::prelude::*;

verus! {

/// Strictly increasing.
pub open spec fn ascending(s: Seq<i64>) -> bool {
    forall|i: int, j: int| 0 <= i < j < s.len() ==> s[i] < s[j]
}

/// `s` lists the members of `dom` in increasing order.
pub open spec fn enumerates(s: Seq<i64>, dom: Set<i64>) -> bool {
    &&& ascending(s)
    &&& forall|k: i64| #[trigger] s.contains(k) <==> dom.contains(k)
}

/// The keys of a map in increasing order.
pub fn offsets_of<V>(m: &BTreeMap<i64, V>) -> (r: Vec<i64>)
    ensures
        enumerates(r@, m@.dom()),
{
    let mut r: Vec<i64> = Vec::new();
    let ghost s = vstd::std_specs::iter::IteratorSpec::remaining(
        &vstd::std_specs::btree::spec_btree_map_iter(m),
    );
    for kv in it: m.iter()
        invariant
            it.seq() == s,
            r@.len() == it.index(),
            forall|i: int| 0 <= i < r@.len() ==> r@[i] == *it.seq()[i].0,
    {
        r.push(*kv.0);
    }
    proof {
        let keys = s.map_values(|kv: (&i64, &V)| *kv.0);
        assert(r@ =~= keys);
        assert forall|i: int, j: int| 0 <= i < j < r@.len() implies r@[i] < r@[j] by {
            assert(vstd::std_specs::cmp::OrdSpec::cmp_spec(&keys[i], &keys[j]) is Less);
        }
        assert forall|k: i64| #[trigger] r@.contains(k) <==> m@.dom().contains(k) by {
            if r@.contains(k) {
                let i = choose|i: int| 0 <= i < r@.len() && r@[i] == k;
                assert(m@.contains_key(*s[i].0));
            }
            if m@.contains_key(k) {
                assert(s.contains((&k, &m@[k])));
                let i = choose|i: int| 0 <= i < s.len() && s[i] == (&k, &m@[k]);
                assert(r@[i] == k);
            }
        }
    }
    r
}

/// Whether an offset is held.
pub open spec fn holds(dom: Set<i64>, x: int) -> bool {
    i64::MIN <= x <= i64::MAX && dom.contains(x as i64)
}

/// `f` is the first offset from 0 on that is not held.
pub open spec fn is_frontier(dom: Set<i64>, f: int) -> bool {
    &&& 0 <= f
    &&& !holds(dom, f)
    &&& forall|x: int| 0 <= x < f ==> #[trigger] holds(dom, x)
}

/// The first offset from 0 on that is not held.
pub open spec fn frontier_of(dom: Set<i64>) -> int {
    choose|f: int| is_frontier(dom, f)
}

/// There is one frontier.
pub proof fn lemma_frontier(dom: Set<i64>, f: int)
    requires
        is_frontier(dom, f),
    ensures
        frontier_of(dom) == f,
{
    let g = frontier_of(dom);
    assert(is_frontier(dom, g));
    if f < g {
        assert(holds(dom, f));
    } else if g < f {
        assert(holds(dom, g));
    }
}

/// `a..b` is a maximal held range.
pub open spec fn is_held_range(dom: Set<i64>, a: int, b: int) -> bool {
    &&& a < b
    &&& !holds(dom, a - 1)
    &&& !holds(dom, b)
    &&& forall|x: int| a <= x < b ==> #[trigger] holds(dom, x)
}

/// `a..b` is a maximal missing range of `lo..hi`.
pub open spec fn is_hole(dom: Set<i64>, lo: int, hi: int, a: int, b: int) -> bool {
    &&& lo <= a < b <= hi
    &&& a == lo || holds(dom, a - 1)
    &&& b == hi || holds(dom, b)
    &&& forall|x: int| a <= x < b ==> !#[trigger] holds(dom, x)
}

/// Ranges in increasing order, none touching the next.
pub open spec fn ranges_ascend(r: Seq<(i64, i64)>) -> bool {
    forall|i: int, j: int| 0 <= i < j < r.len() ==> (#[trigger] r[i]).1 < (#[trigger] r[j]).0
}

/// `r` lists the maximal held ranges.
pub open spec fn lists_held(r: Seq<(i64, i64)>, dom: Set<i64>) -> bool {
    &&& ranges_ascend(r)
    &&& forall|a: i64, b: i64| #[trigger]
        r.contains((a, b)) <==> is_held_range(dom, a as int, b as int)
}

/// `r` lists the maximal missing ranges of `lo..hi`.
pub open spec fn lists_holes(r: Seq<(i64, i64)>, dom: Set<i64>, lo: int, hi: int) -> bool {
    &&& ranges_ascend(r)
    &&& forall|a: i64, b: i64| #[trigger]
        r.contains((a, b)) <==> is_hole(dom, lo, hi, a as int, b as int)
}

/// The maximal held ranges.
pub fn held_ranges<V>(m: &BTreeMap<i64, V>) -> (r: Vec<(i64, i64)>)
    requires
        forall|k: i64| #[trigger] m@.contains_key(k) ==> k < i64::MAX,
    ensures
        lists_held(r@, m@.dom()),
{
    let keys = offsets_of(m);
    let ghost dom = m@.dom();
    let mut out: Vec<(i64, i64)> = Vec::new();
    let n: usize = keys.len();
    let mut i: usize = 0;
    while i < n
        invariant
            enumerates(keys@, dom),
            forall|k: i64| #[trigger] dom.contains(k) ==> k < i64::MAX,
            n == keys@.len(),
            i <= n,
            ranges_ascend(out@),
            0 < i < n ==> keys@[i - 1] + 1 < keys@[i as int],
            forall|j: int|
                0 <= j < out@.len() ==> i > 0 && (#[trigger] out@[j]).1 <= keys@[i - 1] + 1,
            forall|a: i64, b: i64| #[trigger]
                out@.contains((a, b)) <==> is_held_range(dom, a as int, b as int) && i > 0 && b
                    <= keys@[i - 1] + 1,
        decreases n - i,
    {
        let start: i64 = keys[i];
        let ghost i0 = i;
        proof {
            if holds(dom, start - 1) {
                let q = (start - 1) as i64;
                assert(keys@.contains(q));
                let j = choose|j: int| 0 <= j < keys@.len() && keys@[j] == q;
                assert(j < i0);
                assert(keys@[j] <= keys@[i0 - 1]);
            }
        }
        let mut end: i64 = start;
        while i < n && keys[i] == end
            invariant
                enumerates(keys@, dom),
                forall|k: i64| #[trigger] dom.contains(k) ==> k < i64::MAX,
                n == keys@.len(),
                i0 <= i <= n,
                i0 < n,
                start == keys@[i0 as int],
                end == start + (i - i0),
                i > i0 ==> keys@[i - 1] + 1 == end,
                forall|x: int| start <= x < end ==> #[trigger] holds(dom, x),
            decreases n - i,
        {
            assert(keys@.contains(end));
            assert(holds(dom, end as int));
            end = end + 1;
            i += 1;
        }
        proof {
            assert(i > i0);
            if holds(dom, end as int) {
                assert(keys@.contains(end));
                let j = choose|j: int| 0 <= j < keys@.len() && keys@[j] == end;
                assert(j > i - 1);
                assert(j > i);
                assert(keys@[i as int] < keys@[j]);
            }
            assert(is_held_range(dom, start as int, end as int));
        }
        let ghost before = out@;
        out.push((start, end));
        proof {
            assert forall|a: i64, b: i64| #[trigger]
                out@.contains((a, b)) <==> is_held_range(dom, a as int, b as int) && b <= keys@[i
                - 1] + 1 by {
                if before.contains((a, b)) {
                    let j = choose|j: int| 0 <= j < before.len() && before[j] == (a, b);
                    assert(out@[j] == (a, b));
                    assert(keys@[i0 - 1] < keys@[i - 1]);
                }
                if out@.contains((a, b)) && !before.contains((a, b)) {
                    let j = choose|j: int| 0 <= j < out@.len() && out@[j] == (a, b);
                    if j < before.len() {
                        assert(before[j] == (a, b));
                    }
                }
                if is_held_range(dom, a as int, b as int) && b <= keys@[i - 1] + 1
                    && !before.contains((a, b)) {
                    assert(holds(dom, b - 1));
                    let q = (b - 1) as i64;
                    assert(keys@.contains(q));
                    let j = choose|j: int| 0 <= j < keys@.len() && keys@[j] == q;
                    if i0 > 0 {
                        assert(b > keys@[i0 - 1] + 1);
                        if j <= i0 - 1 {
                            assert(keys@[j] <= keys@[i0 - 1]);
                        }
                    }
                    assert(j >= i0);
                    assert(keys@[j] >= start);
                    if b < end {
                        assert(holds(dom, b as int));
                    }
                    assert(b == end);
                    if a > start {
                        assert(holds(dom, a - 1));
                    }
                    if a < start {
                        assert(holds(dom, start - 1));
                    }
                    assert(out@[out@.len() - 1] == (a, b));
                }
            }
            assert forall|j: int| 0 <= j < out@.len() implies (#[trigger] out@[j]).1 <= keys@[i - 1]
                + 1 by {
                if j < before.len() {
                    assert(before[j].1 <= keys@[i0 - 1] + 1);
                }
            }
        }
    }
    proof {
        assert forall|a: i64, b: i64| #[trigger]
            out@.contains((a, b)) <==> is_held_range(dom, a as int, b as int) by {
            if is_held_range(dom, a as int, b as int) {
                assert(holds(dom, b - 1));
                let q = (b - 1) as i64;
                assert(keys@.contains(q));
                let j = choose|j: int| 0 <= j < keys@.len() && keys@[j] == q;
                assert(keys@[j] <= keys@[n - 1]);
            }
        }
    }
    out
}

/// The maximal missing ranges of `lo..hi`.
pub fn holes<V>(m: &BTreeMap<i64, V>, lo: i64, hi: i64) -> (r: Vec<(i64, i64)>)
    requires
        lo <= hi,
    ensures
        lists_holes(r@, m@.dom(), lo as int, hi as int),
{
    let ghost dom = m@.dom();
    let mut out: Vec<(i64, i64)> = Vec::new();
    let mut pos: i64 = lo;
    while pos < hi
        invariant
            dom == m@.dom(),
            lo <= pos <= hi,
            pos == lo || pos == hi || holds(dom, pos as int) || holds(dom, pos - 1),
            ranges_ascend(out@),
            forall|j: int|
                0 <= j < out@.len() ==> (#[trigger] out@[j]).1 <= pos && (out@[j].1 == pos ==> pos
                    == hi || holds(dom, pos as int)),
            forall|a: i64, b: i64| #[trigger]
                out@.contains((a, b)) <==> is_hole(dom, lo as int, hi as int, a as int, b as int)
                    && b <= pos,
        decreases hi - pos,
    {
        let ghost before = out@;
        let start: i64 = pos;
        if m.contains_key(&pos) {
            assert(holds(dom, pos as int));
            pos = pos + 1;
            proof {
                assert forall|a: i64, b: i64| #[trigger]
                    out@.contains((a, b)) <==> is_hole(dom, lo as int, hi as int, a as int, b as int)
                        && b <= pos by {
                    if is_hole(dom, lo as int, hi as int, a as int, b as int) && b == pos {
                        assert(!holds(dom, b - 1));
                    }
                }
            }
        } else {
            while pos < hi && !m.contains_key(&pos)
                invariant
                    dom == m@.dom(),
                    lo <= start <= pos <= hi,
                    forall|x: int| start <= x < pos ==> !#[trigger] holds(dom, x),
                decreases hi - pos,
            {
                pos = pos + 1;
            }
            proof {
                assert(start < pos);
                assert(pos == hi || holds(dom, pos as int));
                assert(is_hole(dom, lo as int, hi as int, start as int, pos as int));
            }
            out.push((start, pos));
            proof {
                assert forall|a: i64, b: i64| #[trigger]
                    out@.contains((a, b)) <==> is_hole(dom, lo as int, hi as int, a as int, b as int)
                        && b <= pos by {
                    if before.contains((a, b)) {
                        let j = choose|j: int| 0 <= j < before.len() && before[j] == (a, b);
                        assert(out@[j] == (a, b));
                    }
                    if out@.contains((a, b)) && !before.contains((a, b)) {
                        let j = choose|j: int| 0 <= j < out@.len() && out@[j] == (a, b);
                        if j < before.len() {
                            assert(before[j] == (a, b));
                        }
                    }
                    if is_hole(dom, lo as int, hi as int, a as int, b as int) && b <= pos
                        && !before.contains((a, b)) {
                        assert(b > start);
                        if b < pos {
                            assert(!holds(dom, b as int));
                        }
                        if a < start {
                            assert(start == lo || holds(dom, start - 1));
                            assert(!holds(dom, start - 1));
                        }
                        if a > start {
                            assert(!holds(dom, a - 1));
                        }
                        assert(out@[out@.len() - 1] == (a, b));
                    }
                }
            }
        }
    }
    out
}

} // verus!
