//! A small map over keys that are compared by their fields.

use vstd::prelude::*;

verus! {

/// A key that can be copied and compared.
pub trait Key: Sized + Copy {
    fn same(&self, other: &Self) -> (r: bool)
        ensures
            r == (*self == *other),
    ;
}

/// A map from keys to values; no key occurs twice.
pub struct Table<K: Key, V> {
    items: Vec<(K, V)>,
}

/// What a list of pairs without repeated keys maps.
pub open spec fn pairs_map<K, V>(s: Seq<(K, V)>) -> Map<K, V>
    decreases s.len(),
{
    if s.len() == 0 {
        Map::empty()
    } else {
        pairs_map(s.drop_last()).insert(s.last().0, s.last().1)
    }
}

/// The keys of a list of pairs differ.
pub open spec fn distinct_keys<K, V>(s: Seq<(K, V)>) -> bool {
    forall|i: int, j: int| 0 <= i < j < s.len() ==> (#[trigger] s[i]).0 != (#[trigger] s[j]).0
}

proof fn lemma_pairs<K, V>(s: Seq<(K, V)>)
    requires
        distinct_keys(s),
    ensures
        forall|i: int|
            0 <= i < s.len() ==> pairs_map(s).contains_key((#[trigger] s[i]).0) && pairs_map(
                s,
            )[s[i].0] == s[i].1,
        forall|k: K| #[trigger]
            pairs_map(s).contains_key(k) ==> exists|i: int| 0 <= i < s.len() && (#[trigger] s[i]).0 == k,
    decreases s.len(),
{
    if s.len() > 0 {
        let t = s.drop_last();
        lemma_pairs(t);
        assert forall|i: int| 0 <= i < s.len() implies pairs_map(s).contains_key((#[trigger] s[i]).0)
            && pairs_map(s)[s[i].0] == s[i].1 by {
            if i < s.len() - 1 {
                assert(t[i] == s[i]);
                assert(s[i].0 != s[s.len() - 1].0);
            }
        }
        assert forall|k: K| #[trigger] pairs_map(s).contains_key(k) implies exists|i: int|
            0 <= i < s.len() && (#[trigger] s[i]).0 == k by {
            if k == s.last().0 {
                assert(s[s.len() - 1].0 == k);
            } else {
                assert(pairs_map(t).contains_key(k));
                let i = choose|i: int| 0 <= i < t.len() && (#[trigger] t[i]).0 == k;
                assert(s[i].0 == k);
            }
        }
    }
}

/// Two lists with distinct keys and the same pairs give one map.
proof fn lemma_pairs_same<K, V>(a: Seq<(K, V)>, b: Map<K, V>)
    requires
        distinct_keys(a),
        forall|i: int|
            0 <= i < a.len() ==> b.contains_key((#[trigger] a[i]).0) && b[a[i].0] == a[i].1,
        forall|k: K| #[trigger]
            b.contains_key(k) ==> exists|i: int| 0 <= i < a.len() && (#[trigger] a[i]).0 == k,
    ensures
        pairs_map(a) == b,
{
    lemma_pairs(a);
    assert forall|k: K| pairs_map(a).contains_key(k) <==> b.contains_key(k) by {
        if pairs_map(a).contains_key(k) {
            let i = choose|i: int| 0 <= i < a.len() && (#[trigger] a[i]).0 == k;
            assert(b.contains_key(a[i].0));
        }
        if b.contains_key(k) {
            let i = choose|i: int| 0 <= i < a.len() && (#[trigger] a[i]).0 == k;
            assert(pairs_map(a).contains_key(a[i].0));
        }
    }
    assert forall|k: K| pairs_map(a).contains_key(k) implies pairs_map(a)[k] == b[k] by {
        let i = choose|i: int| 0 <= i < a.len() && (#[trigger] a[i]).0 == k;
        assert(b[a[i].0] == a[i].1);
    }
    assert(pairs_map(a) =~= b);
}

impl<K: Key, V> View for Table<K, V> {
    type V = Map<K, V>;

    closed spec fn view(&self) -> Map<K, V> {
        pairs_map(self.items@)
    }
}

impl<K: Key, V> Table<K, V> {
    #[verifier::type_invariant]
    spec fn inv(self) -> bool {
        distinct_keys(self.items@)
    }

    pub fn new() -> (r: Self)
        ensures
            r@ == Map::<K, V>::empty(),
    {
        Table { items: Vec::new() }
    }

    fn find(&self, k: &K) -> (r: Option<usize>)
        ensures
            match r {
                Some(i) => i < self.items@.len() && self.items@[i as int].0 == *k
                    && self@.contains_key(*k) && self@[*k] == self.items@[i as int].1,
                None => !self@.contains_key(*k) && forall|i: int|
                    0 <= i < self.items@.len() ==> (#[trigger] self.items@[i]).0 != *k,
            },
    {
        proof {
            use_type_invariant(self);
            lemma_pairs(self.items@);
        }
        let mut i: usize = 0;
        while i < self.items.len()
            invariant
                i <= self.items@.len(),
                forall|j: int| 0 <= j < i ==> (#[trigger] self.items@[j]).0 != *k,
            decreases self.items@.len() - i,
        {
            if self.items[i].0.same(k) {
                proof {
                    use_type_invariant(self);
                    lemma_pairs(self.items@);
                }
                return Some(i);
            }
            i += 1;
        }
        None
    }

    pub fn get(&self, k: &K) -> (r: Option<&V>)
        ensures
            match r {
                Some(v) => self@.contains_key(*k) && *v == self@[*k],
                None => !self@.contains_key(*k),
            },
    {
        match self.find(k) {
            Some(i) => Some(&self.items[i].1),
            None => None,
        }
    }

    pub fn contains(&self, k: &K) -> (r: bool)
        ensures
            r == self@.contains_key(*k),
    {
        match self.find(k) {
            Some(_) => true,
            None => false,
        }
    }

    /// Takes the value of a key out.
    pub fn remove(&mut self, k: &K) -> (r: Option<V>)
        ensures
            final(self)@ == old(self)@.remove(*k),
            match r {
                Some(v) => old(self)@.contains_key(*k) && v == old(self)@[*k],
                None => !old(self)@.contains_key(*k),
            },
    {
        proof {
            use_type_invariant(&*self);
            lemma_pairs(self.items@);
        }
        match self.find(k) {
            Some(i) => {
                let ghost before = self.items@;
                let ghost m = self@;
                let mut items = Vec::new();
                std::mem::swap(&mut items, &mut self.items);
                let (_, v) = items.remove(i);
                proof {
                    let after = items@;
                    assert forall|a: int, b: int| 0 <= a < b < after.len() implies (#[trigger] after[a]).0
                        != (#[trigger] after[b]).0 by {
                        let a0 = if a < i {
                            a
                        } else {
                            a + 1
                        };
                        let b0 = if b < i {
                            b
                        } else {
                            b + 1
                        };
                        assert(after[a] == before[a0]);
                        assert(after[b] == before[b0]);
                    }
                    assert forall|a: int| 0 <= a < after.len() implies m.remove(*k).contains_key(
                        (#[trigger] after[a]).0,
                    ) && m.remove(*k)[after[a].0] == after[a].1 by {
                        let a0 = if a < i {
                            a
                        } else {
                            a + 1
                        };
                        assert(after[a] == before[a0]);
                        assert(m.contains_key(before[a0].0));
                        assert(before[a0].0 != before[i as int].0);
                    }
                    assert forall|q: K| #[trigger] m.remove(*k).contains_key(q) implies exists|a: int|
                        0 <= a < after.len() && (#[trigger] after[a]).0 == q by {
                        assert(m.contains_key(q));
                        let a0 = choose|a: int| 0 <= a < before.len() && (#[trigger] before[a]).0 == q;
                        assert(a0 != i);
                        let a = if a0 < i {
                            a0
                        } else {
                            a0 - 1
                        };
                        assert(after[a] == before[a0]);
                    }
                    lemma_pairs_same(after, m.remove(*k));
                }
                self.items = items;
                Some(v)
            },
            None => {
                assert(self@.remove(*k) =~= self@);
                None
            },
        }
    }

    /// Sets the value of a key.
    pub fn insert(&mut self, k: K, v: V)
        ensures
            final(self)@ == old(self)@.insert(k, v),
    {
        let _ = self.remove(&k);
        proof {
            use_type_invariant(&*self);
            lemma_pairs(self.items@);
        }
        let ghost m = self@;
        let mut items = Vec::new();
        std::mem::swap(&mut items, &mut self.items);
        let ghost before = items@;
        items.push((k, v));
        proof {
            assert(!m.contains_key(k));
            assert forall|a: int, b: int| 0 <= a < b < items@.len() implies (#[trigger] items@[a]).0
                != (#[trigger] items@[b]).0 by {
                assert(items@[a] == before[a]);
                if b < before.len() {
                    assert(items@[b] == before[b]);
                } else {
                    assert(m.contains_key(before[a].0));
                }
            }
            assert(items@.drop_last() =~= before);
            assert(old(self)@.remove(k).insert(k, v) =~= old(self)@.insert(k, v));
        }
        self.items = items;
    }

    /// The keys, each once, in no particular order.
    pub fn keys(&self) -> (r: Vec<K>)
        ensures
            r@.no_duplicates(),
            r@.to_set() == self@.dom(),
    {
        proof {
            use_type_invariant(self);
            lemma_pairs(self.items@);
        }
        let mut r: Vec<K> = Vec::new();
        let mut i: usize = 0;
        while i < self.items.len()
            invariant
                i <= self.items@.len(),
                r@.len() == i,
                forall|j: int| 0 <= j < i ==> r@[j] == (#[trigger] self.items@[j]).0,
            decreases self.items@.len() - i,
        {
            r.push(self.items[i].0);
            i += 1;
        }
        proof {
            use_type_invariant(self);
            lemma_pairs(self.items@);
            assert forall|a: int, b: int| 0 <= a < r@.len() && 0 <= b < r@.len() && a != b implies r@[a]
                != r@[b] by {
                assert(r@[a] == self.items@[a].0);
                assert(r@[b] == self.items@[b].0);
            }
            assert forall|k: K| r@.to_set().contains(k) <==> self@.dom().contains(k) by {
                if r@.contains(k) {
                    let a = choose|a: int| 0 <= a < r@.len() && r@[a] == k;
                    assert(self@.contains_key(self.items@[a].0));
                }
                if self@.contains_key(k) {
                    let a = choose|a: int|
                        0 <= a < self.items@.len() && (#[trigger] self.items@[a]).0 == k;
                    assert(r@[a] == k);
                }
            }
            assert(r@.to_set() =~= self@.dom());
        }
        r
    }
}

} // verus!
