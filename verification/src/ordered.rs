//! Key order of ordered maps, and maximal runs of integers.

use std::collections::BTreeMap;
use vstd::prelude::*;

verus! {

/// Strictly increasing.
pub open spec fn increasing(s: Seq<u64>) -> bool {
    forall|i: int, j: int| 0 <= i < j < s.len() ==> s[i] < s[j]
}

/// `s` lists the members of `dom` in increasing order.
pub open spec fn lists(s: Seq<u64>, dom: Set<u64>) -> bool {
    &&& increasing(s)
    &&& forall|k: u64| #[trigger] s.contains(k) <==> dom.contains(k)
}

/// The keys of a map in increasing order.
pub fn sorted_keys<V>(m: &BTreeMap<u64, V>) -> (r: Vec<u64>)
    ensures
        lists(r@, m@.dom()),
        r@.len() == m@.dom().len(),
{
    let mut r: Vec<u64> = Vec::new();
    let ghost s = vstd::std_specs::iter::IteratorSpec::remaining(
        &vstd::std_specs::btree::spec_btree_map_iter(m),
    );
    for kv in it: m.iter()
        invariant
            it.seq() == s,
            r@.len() == it.index(),
            forall|i: int| 0 <= i < r@.len() ==> r@[i] == *it.seq()[i].0,
    {
        r.push(*kv.0);
    }
    proof {
        let keys = s.map_values(|kv: (&u64, &V)| *kv.0);
        assert(r@ =~= keys);
        assert forall|i: int, j: int| 0 <= i < j < r@.len() implies r@[i] < r@[j] by {
            assert(vstd::std_specs::cmp::OrdSpec::cmp_spec(&keys[i], &keys[j]) is Less);
        }
        assert forall|k: u64| #[trigger] r@.contains(k) <==> m@.dom().contains(k) by {
            if r@.contains(k) {
                let i = choose|i: int| 0 <= i < r@.len() && r@[i] == k;
                assert(m@.contains_key(*s[i].0));
            }
            if m@.contains_key(k) {
                assert(s.contains((&k, &m@[k])));
                let i = choose|i: int| 0 <= i < s.len() && s[i] == (&k, &m@[k]);
                assert(r@[i] == k);
            }
        }
    }
    r
}

} // verus!
