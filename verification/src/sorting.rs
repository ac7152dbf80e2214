//! Stable ordering by a pair of numbers.

use vstd::prelude::*;

verus! {

/// `a` is at most `b`, first components first.
pub open spec fn pair_le(a: (u64, u64), b: (u64, u64)) -> bool {
    a.0 < b.0 || (a.0 == b.0 && a.1 <= b.1)
}

/// `order` with `x` put behind every index whose key is at most that of `x`,
/// and before the rest of a sorted list.
pub open spec fn placed(order: Seq<usize>, keys: Seq<(u64, u64)>, x: usize) -> Seq<usize>
    decreases order.len(),
{
    if order.len() == 0 || pair_le(keys[order.last() as int], keys[x as int]) {
        order.push(x)
    } else {
        placed(order.drop_last(), keys, x).push(order.last())
    }
}

/// The first `n` indices in the order of their keys; equal keys keep the order
/// of their indices.
pub open spec fn order_upto(keys: Seq<(u64, u64)>, n: int) -> Seq<usize>
    decreases n,
{
    if n <= 0 {
        seq![]
    } else {
        placed(order_upto(keys, n - 1), keys, (n - 1) as usize)
    }
}

/// All indices in the order of their keys.
pub open spec fn order_of(keys: Seq<(u64, u64)>) -> Seq<usize> {
    order_upto(keys, keys.len() as int)
}

/// `a` comes strictly before `b`: by key, then by index.
pub open spec fn goes_before(keys: Seq<(u64, u64)>, a: usize, b: usize) -> bool {
    pair_le(keys[a as int], keys[b as int]) && (keys[a as int] != keys[b as int] || a < b)
}

/// Every index below `n` once, each before the later ones.
pub open spec fn is_order(keys: Seq<(u64, u64)>, n: int, order: Seq<usize>) -> bool {
    &&& order.len() == n
    &&& forall|i: int| 0 <= i < order.len() ==> (#[trigger] order[i]) < n
    &&& forall|i: int, j: int|
        0 <= i < j < order.len() ==> goes_before(keys, #[trigger] order[i], #[trigger] order[j])
    &&& forall|k: usize| k < n ==> #[trigger] order.contains(k)
}

proof fn lemma_placed(order: Seq<usize>, keys: Seq<(u64, u64)>, x: usize)
    requires
        forall|i: int| 0 <= i < order.len() ==> (#[trigger] order[i]) < x,
        forall|i: int, j: int|
            0 <= i < j < order.len() ==> goes_before(keys, #[trigger] order[i], #[trigger] order[j]),
    ensures
        placed(order, keys, x).len() == order.len() + 1,
        forall|i: int|
            0 <= i < placed(order, keys, x).len() ==> (#[trigger] placed(order, keys, x)[i]) <= x,
        forall|i: int, j: int|
            0 <= i < j < placed(order, keys, x).len() ==> goes_before(
                keys,
                #[trigger] placed(order, keys, x)[i],
                #[trigger] placed(order, keys, x)[j],
            ),
        forall|k: usize| #[trigger]
            placed(order, keys, x).contains(k) <==> k == x || order.contains(k),
    decreases order.len(),
{
    let r = placed(order, keys, x);
    if order.len() == 0 || pair_le(keys[order.last() as int], keys[x as int]) {
        assert forall|i: int, j: int| 0 <= i < j < r.len() implies goes_before(
            keys,
            #[trigger] r[i],
            #[trigger] r[j],
        ) by {
            if j == order.len() {
                if i < order.len() - 1 {
                    assert(goes_before(keys, order[i], order[order.len() - 1]));
                }
            }
        }
        assert forall|k: usize| #[trigger] r.contains(k) <==> k == x || order.contains(k) by {
            if order.contains(k) {
                let i = order.index_of(k);
                assert(r[i] == k);
            }
            assert(r[order.len() as int] == x);
            if r.contains(k) {
                let i = r.index_of(k);
                if i < order.len() {
                    assert(order[i] == k);
                }
            }
        }
    } else {
        let t = order.drop_last();
        lemma_placed(t, keys, x);
        let p = placed(t, keys, x);
        assert forall|i: int, j: int| 0 <= i < j < r.len() implies goes_before(
            keys,
            #[trigger] r[i],
            #[trigger] r[j],
        ) by {
            if j == r.len() - 1 {
                assert(p.contains(p[i]));
                if p[i] != x {
                    let k = t.index_of(p[i]);
                    assert(order[k] == p[i]);
                    assert(goes_before(keys, order[k], order[order.len() - 1]));
                }
            } else {
                assert(goes_before(keys, p[i], p[j]));
            }
        }
        assert forall|i: int| 0 <= i < r.len() implies (#[trigger] r[i]) <= x by {
            if i < p.len() {
                assert(p[i] <= x);
            } else {
                assert(order[order.len() - 1] < x);
            }
        }
        assert forall|k: usize| #[trigger] r.contains(k) <==> k == x || order.contains(k) by {
            if order.contains(k) {
                let i = order.index_of(k);
                if i < order.len() - 1 {
                    assert(t[i] == k);
                    assert(p.contains(k));
                    assert(r[p.index_of(k)] == k);
                } else {
                    assert(r[r.len() - 1] == k);
                }
            }
            if k == x {
                assert(p.contains(x));
                assert(r[p.index_of(k)] == k);
            }
            if r.contains(k) {
                let i = r.index_of(k);
                if i < p.len() {
                    assert(p[i] == k);
                    assert(p.contains(k));
                    if k != x {
                        assert(order[t.index_of(k)] == k);
                    }
                } else {
                    assert(order[order.len() - 1] == k);
                }
            }
        }
    }
}

/// The order lists every index once, by key and then by index.
pub proof fn law_order(keys: Seq<(u64, u64)>, n: int)
    requires
        0 <= n <= keys.len(),
        n <= usize::MAX + 1,
    ensures
        is_order(keys, n, order_upto(keys, n)),
    decreases n,
{
    if n > 0 {
        law_order(keys, n - 1);
        lemma_placed(order_upto(keys, n - 1), keys, (n - 1) as usize);
        let r = order_upto(keys, n);
        assert forall|k: usize| k < n implies #[trigger] r.contains(k) by {
            if k < n - 1 {
                assert(order_upto(keys, n - 1).contains(k));
            }
        }
    }
}

proof fn lemma_placed_at(order: Seq<usize>, keys: Seq<(u64, u64)>, x: usize, p: int)
    requires
        0 <= p <= order.len(),
        p == 0 || pair_le(keys[order[p - 1] as int], keys[x as int]),
        forall|i: int|
            p <= i < order.len() ==> !pair_le(keys[(#[trigger] order[i]) as int], keys[x as int]),
    ensures
        placed(order, keys, x) == order.insert(p, x),
    decreases order.len(),
{
    if p == order.len() {
        assert(order.insert(p, x) =~= order.push(x));
    } else {
        lemma_placed_at(order.drop_last(), keys, x, p);
        assert(order.drop_last().insert(p, x).push(order.last()) =~= order.insert(p, x));
    }
}

/// All indices in the order of their keys; equal keys keep their order.
pub fn stable_order(keys: &Vec<(u64, u64)>) -> (r: Vec<usize>)
    ensures
        r@ == order_of(keys@),
        is_order(keys@, keys@.len() as int, r@),
{
    let mut r: Vec<usize> = Vec::new();
    let mut i: usize = 0;
    while i < keys.len()
        invariant
            i <= keys@.len(),
            r@ == order_upto(keys@, i as int),
        decreases keys@.len() - i,
    {
        proof {
            law_order(keys@, i as int);
        }
        let k: (u64, u64) = keys[i];
        let mut p: usize = r.len();
        while p > 0 && !(keys[r[p - 1]].0 < k.0 || (keys[r[p - 1]].0 == k.0 && keys[r[p - 1]].1 <= k.1))
            invariant
                p <= r@.len(),
                i < keys@.len(),
                k == keys@[i as int],
                forall|j: int| 0 <= j < r@.len() ==> (#[trigger] r@[j]) < i,
                forall|j: int|
                    p <= j < r@.len() ==> !pair_le(
                        keys@[(#[trigger] r@[j]) as int],
                        keys@[i as int],
                    ),
            decreases p,
        {
            p -= 1;
        }
        proof {
            lemma_placed_at(r@, keys@, i, p as int);
        }
        r.insert(p, i);
        i += 1;
    }
    proof {
        law_order(keys@, keys@.len() as int);
    }
    r
}

/// The keys of plain numbers.
pub open spec fn plain_keys(s: Seq<u64>) -> Seq<(u64, u64)> {
    Seq::new(s.len(), |i: int| (s[i], 0u64))
}

/// Numbers in increasing order.
pub open spec fn sorted(s: Seq<u64>) -> Seq<u64> {
    let o = order_of(plain_keys(s));
    Seq::new(o.len(), |i: int| s[o[i] as int])
}

/// A sorted copy.
pub fn sort(v: &Vec<u64>) -> (r: Vec<u64>)
    ensures
        r@ == sorted(v@),
{
    let mut keys: Vec<(u64, u64)> = Vec::new();
    let mut i: usize = 0;
    while i < v.len()
        invariant
            i <= v@.len(),
            keys@ == plain_keys(v@.take(i as int)),
        decreases v@.len() - i,
    {
        keys.push((v[i], 0));
        i += 1;
        assert(keys@ =~= plain_keys(v@.take(i as int)));
    }
    assert(v@.take(i as int) =~= v@);
    let o = stable_order(&keys);
    let mut r: Vec<u64> = Vec::new();
    let mut j: usize = 0;
    while j < o.len()
        invariant
            j <= o@.len(),
            is_order(keys@, v@.len() as int, o@),
            r@ == Seq::new(j as nat, |i: int| v@[o@[i] as int]),
        decreases o@.len() - j,
    {
        assert(o@[j as int] < v@.len());
        r.push(v[o[j]]);
        j += 1;
        assert(r@ =~= Seq::new(j as nat, |i: int| v@[o@[i] as int]));
    }
    assert(r@ =~= sorted(v@));
    r
}

/// Every member of a sorted list is a member of the list it was made of.
pub proof fn law_sorted_members(s: Seq<u64>)
    requires
        s.len() <= usize::MAX + 1,
    ensures
        forall|i: int| 0 <= i < sorted(s).len() ==> s.contains(#[trigger] sorted(s)[i]),
{
    let keys = plain_keys(s);
    law_order(keys, keys.len() as int);
    let o = order_of(keys);
    assert forall|i: int| 0 <= i < sorted(s).len() implies s.contains(#[trigger] sorted(s)[i]) by {
        assert(o[i] < s.len());
        assert(s[o[i] as int] == sorted(s)[i]);
    }
}

/// A sorted list is in increasing order and as long as the list it was made of.
pub proof fn law_sorted(s: Seq<u64>)
    requires
        s.len() <= usize::MAX + 1,
    ensures
        sorted(s).len() == s.len(),
        forall|i: int, j: int| 0 <= i < j < s.len() ==> sorted(s)[i] <= sorted(s)[j],
{
    let keys = plain_keys(s);
    law_order(keys, keys.len() as int);
    let o = order_of(keys);
    assert forall|i: int, j: int| 0 <= i < j < s.len() implies sorted(s)[i] <= sorted(s)[j] by {
        assert(goes_before(keys, o[i], o[j]));
        assert(o[i] < s.len() && o[j] < s.len());
    }
}

/// Sorting keeps the numbers: what is in the list is in the sorted one, at as many places
/// as there are.
pub proof fn law_sorted_keeps(s: Seq<u64>, x: u64)
    requires
        s.len() <= usize::MAX + 1,
    ensures
        sorted(s).len() == s.len(),
        s.contains(x) <==> sorted(s).contains(x),
{
    let keys = plain_keys(s);
    law_order(keys, keys.len() as int);
    let o = order_of(keys);
    law_sorted(s);
    if s.contains(x) {
        let i = choose|i: int| 0 <= i < s.len() && s[i] == x;
        assert(o.contains(i as usize));
        let j = choose|j: int| 0 <= j < o.len() && o[j] == i as usize;
        assert(sorted(s)[j] == x);
    }
    if sorted(s).contains(x) {
        law_sorted_members(s);
        let j = choose|j: int| 0 <= j < sorted(s).len() && sorted(s)[j] == x;
        assert(s.contains(sorted(s)[j]));
    }
}

} // verus!
