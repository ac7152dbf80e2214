//! A map from texts to values that keeps its keys in order.

use vstd::prelude::*;
use crate::text::{at_most, law_text_order_total, same, text_le};

verus! {

/// `a` comes before `b`.
pub open spec fn text_lt(a: Seq<char>, b: Seq<char>) -> bool {
    text_le(a, b) && a != b
}

/// The order of texts is antisymmetric.
pub proof fn lemma_text_le_both(a: Seq<char>, b: Seq<char>)
    requires
        text_le(a, b),
        text_le(b, a),
    ensures
        a == b,
    decreases a.len(),
{
    if a.len() > 0 && b.len() > 0 {
        lemma_text_le_both(a.skip(1), b.skip(1));
        assert(a =~= seq![a[0]] + a.skip(1));
        assert(b =~= seq![b[0]] + b.skip(1));
    } else {
        assert(a =~= b);
    }
}

/// The order of texts is transitive.
pub proof fn lemma_text_le_trans(a: Seq<char>, b: Seq<char>, c: Seq<char>)
    requires
        text_le(a, b),
        text_le(b, c),
    ensures
        text_le(a, c),
    decreases a.len(),
{
    if a.len() > 0 && b.len() > 0 && c.len() > 0 {
        if a[0] == b[0] && b[0] == c[0] {
            lemma_text_le_trans(a.skip(1), b.skip(1), c.skip(1));
        }
    }
}

/// A strict step and a step make a strict one.
pub proof fn lemma_text_lt_trans(a: Seq<char>, b: Seq<char>, c: Seq<char>)
    requires
        text_le(a, b),
        text_le(b, c),
        a != b || b != c,
    ensures
        text_lt(a, c),
{
    lemma_text_le_trans(a, b, c);
    if a == c {
        law_text_order_total(a, b);
    }
}

/// The keys of a list of pairs come in order.
pub open spec fn keys_ascend<V>(s: Seq<(String, V)>) -> bool {
    forall|i: int, j: int|
        0 <= i < j < s.len() ==> text_lt((#[trigger] s[i]).0@, (#[trigger] s[j]).0@)
}

/// `k` stands at place `i`.
pub open spec fn key_at<V>(s: Seq<(String, V)>, i: int, k: Seq<char>) -> bool {
    0 <= i < s.len() && s[i].0@ == k
}

/// The list holds `k`.
pub open spec fn has_key<V>(s: Seq<(String, V)>, k: Seq<char>) -> bool {
    exists|i: int| #[trigger] key_at(s, i, k)
}

/// What a list of pairs maps.
pub open spec fn listed<V>(s: Seq<(String, V)>) -> Map<Seq<char>, V> {
    Map::new(
        |k: Seq<char>| has_key(s, k),
        |k: Seq<char>| s[choose|i: int| #[trigger] key_at(s, i, k)].1,
    )
}

pub proof fn lemma_listed<V>(s: Seq<(String, V)>, i: int)
    requires
        keys_ascend(s),
        0 <= i < s.len(),
    ensures
        listed(s).contains_key(s[i].0@),
        listed(s)[s[i].0@] == s[i].1,
{
    let k = s[i].0@;
    assert(key_at(s, i, k));
    let j = choose|j: int| #[trigger] key_at(s, j, k);
    if i < j {
        assert(text_lt(s[i].0@, s[j].0@));
    } else if j < i {
        assert(text_lt(s[j].0@, s[i].0@));
    }
}

/// A map from texts to values.
pub struct TextMap<V> {
    items: Vec<(String, V)>,
}

impl<V> View for TextMap<V> {
    type V = Map<Seq<char>, V>;

    closed spec fn view(&self) -> Map<Seq<char>, V> {
        listed(self.items@)
    }
}

impl<V> TextMap<V> {
    #[verifier::type_invariant]
    spec fn inv(self) -> bool {
        keys_ascend(self.items@)
    }

    pub fn new() -> (r: Self)
        ensures
            r@ == Map::<Seq<char>, V>::empty(),
    {
        let r = TextMap { items: Vec::new() };
        assert(r@ =~= Map::<Seq<char>, V>::empty());
        r
    }

    /// The first place whose key is not before `k`.
    fn place(&self, k: &str) -> (r: usize)
        ensures
            r <= self.items@.len(),
            forall|i: int| 0 <= i < r ==> text_lt((#[trigger] self.items@[i]).0@, k@),
            r < self.items@.len() ==> text_le(k@, self.items@[r as int].0@),
    {
        let mut i: usize = 0;
        while i < self.items.len() && !at_most(k, self.items[i].0.as_str())
            invariant
                i <= self.items@.len(),
                forall|j: int| 0 <= j < i ==> text_lt((#[trigger] self.items@[j]).0@, k@),
            decreases self.items@.len() - i,
        {
            proof {
                law_text_order_total(k@, self.items@[i as int].0@);
            }
            i += 1;
        }
        i
    }

    proof fn lemma_absent(s: Seq<(String, V)>, r: int, k: Seq<char>)
        requires
            keys_ascend(s),
            0 <= r <= s.len(),
            forall|i: int| 0 <= i < r ==> text_lt((#[trigger] s[i]).0@, k),
            r < s.len() ==> text_lt(k, s[r].0@),
        ensures
            !has_key(s, k),
            forall|i: int| r <= i < s.len() ==> text_lt(k, (#[trigger] s[i]).0@),
    {
        assert forall|i: int| r <= i < s.len() implies text_lt(k, (#[trigger] s[i]).0@) by {
            if i > r {
                assert(text_lt(s[r].0@, s[i].0@));
                lemma_text_lt_trans(k, s[r].0@, s[i].0@);
            }
        }
        if has_key(s, k) {
            let i = choose|i: int| #[trigger] key_at(s, i, k);
            if i < r {
                assert(text_lt(s[i].0@, k));
            } else {
                assert(text_lt(k, s[i].0@));
            }
        }
    }

    pub fn get(&self, k: &str) -> (r: Option<&V>)
        ensures
            match r {
                Some(v) => self@.contains_key(k@) && *v == self@[k@],
                None => !self@.contains_key(k@),
            },
    {
        proof {
            use_type_invariant(self);
        }
        let p: usize = self.place(k);
        if p < self.items.len() && same(self.items[p].0.as_str(), k) {
            proof {
                lemma_listed(self.items@, p as int);
            }
            Some(&self.items[p].1)
        } else {
            proof {
                TextMap::<V>::lemma_absent(self.items@, p as int, k@);
            }
            None
        }
    }

    pub fn remove(&mut self, k: &str) -> (r: Option<V>)
        ensures
            final(self)@ == old(self)@.remove(k@),
            match r {
                Some(v) => old(self)@.contains_key(k@) && v == old(self)@[k@],
                None => !old(self)@.contains_key(k@),
            },
    {
        proof {
            use_type_invariant(&*self);
        }
        let ghost m = self@;
        let ghost s = self.items@;
        let p: usize = self.place(k);
        if p < self.items.len() && same(self.items[p].0.as_str(), k) {
            proof {
                lemma_listed(s, p as int);
            }
            let mut items: Vec<(String, V)> = Vec::new();
            std::mem::swap(&mut items, &mut self.items);
            let (_, v) = items.remove(p);
            let ghost t = items@;
            proof {
                assert(t =~= s.remove(p as int));
                assert forall|i: int, j: int| 0 <= i < j < t.len() implies text_lt(
                    (#[trigger] t[i]).0@,
                    (#[trigger] t[j]).0@,
                ) by {
                    let a = if i < p {
                        i
                    } else {
                        i + 1
                    };
                    let b = if j < p {
                        j
                    } else {
                        j + 1
                    };
                    assert(text_lt(s[a].0@, s[b].0@));
                }
                assert forall|q: Seq<char>| #[trigger] listed(t).contains_key(q) <==> m.remove(
                    k@,
                ).contains_key(q) by {
                    if listed(t).contains_key(q) {
                        let i = choose|i: int| #[trigger] key_at(t, i, q);
                        let a = if i < p {
                            i
                        } else {
                            i + 1
                        };
                        assert(key_at(s, a, q));
                        if a < p {
                            assert(text_lt(s[a].0@, s[p as int].0@));
                        } else {
                            assert(text_lt(s[p as int].0@, s[a].0@));
                        }
                    }
                    if m.remove(k@).contains_key(q) {
                        let a = choose|a: int| #[trigger] key_at(s, a, q);
                        let i = if a < p {
                            a
                        } else {
                            a - 1
                        };
                        assert(a != p);
                        assert(key_at(t, i, q));
                    }
                }
                assert forall|q: Seq<char>| #[trigger]
                    listed(t).contains_key(q) implies listed(t)[q] == m[q] by {
                    let i = choose|i: int| #[trigger] key_at(t, i, q);
                    let a = if i < p {
                        i
                    } else {
                        i + 1
                    };
                    lemma_listed(t, i);
                    lemma_listed(s, a);
                }
                assert(listed(t) =~= m.remove(k@));
            }
            self.items = items;
            Some(v)
        } else {
            proof {
                TextMap::<V>::lemma_absent(s, p as int, k@);
                assert(m.remove(k@) =~= m);
            }
            None
        }
    }

    pub fn insert(&mut self, k: String, v: V)
        ensures
            final(self)@ == old(self)@.insert(k@, v),
    {
        let ghost m = self@;
        let _ = self.remove(k.as_str());
        let ghost r = self@;
        proof {
            use_type_invariant(&*self);
        }
        let ghost s = self.items@;
        let p: usize = self.place(k.as_str());
        proof {
            if p < s.len() && s[p as int].0@ == k@ {
                lemma_listed(s, p as int);
                assert(r.contains_key(k@));
            }
            TextMap::<V>::lemma_absent(s, p as int, k@);
        }
        let ghost kk = k@;
        let mut items: Vec<(String, V)> = Vec::new();
        std::mem::swap(&mut items, &mut self.items);
        items.insert(p, (k, v));
        let ghost t = items@;
        proof {
            assert(t =~= s.insert(p as int, (k, v)));
            assert forall|i: int, j: int| 0 <= i < j < t.len() implies text_lt(
                (#[trigger] t[i]).0@,
                (#[trigger] t[j]).0@,
            ) by {
                if j < p {
                    assert(text_lt(s[i].0@, s[j].0@));
                } else if j == p {
                    assert(text_lt(s[i].0@, kk));
                } else if i == p {
                    assert(text_lt(kk, s[j - 1].0@));
                } else if i < p {
                    assert(text_lt(s[i].0@, s[j - 1].0@));
                } else {
                    assert(text_lt(s[i - 1].0@, s[j - 1].0@));
                }
            }
            let want = r.insert(kk, v);
            assert forall|q: Seq<char>| #[trigger] listed(t).contains_key(q) <==> want.contains_key(
                q,
            ) by {
                if listed(t).contains_key(q) {
                    let i = choose|i: int| #[trigger] key_at(t, i, q);
                    if i < p {
                        assert(key_at(s, i, q));
                    } else if i > p {
                        assert(key_at(s, i - 1, q));
                    }
                }
                if want.contains_key(q) {
                    if q == kk {
                        assert(key_at(t, p as int, q));
                    } else {
                        let a = choose|a: int| #[trigger] key_at(s, a, q);
                        if a < p {
                            assert(key_at(t, a, q));
                        } else {
                            assert(key_at(t, a + 1, q));
                        }
                    }
                }
            }
            assert forall|q: Seq<char>| #[trigger] listed(t).contains_key(q) implies listed(t)[q]
                == want[q] by {
                let i = choose|i: int| #[trigger] key_at(t, i, q);
                lemma_listed(t, i);
                if i < p {
                    lemma_listed(s, i);
                    assert(text_lt(s[i].0@, kk));
                } else if i > p {
                    lemma_listed(s, i - 1);
                    assert(text_lt(kk, s[i - 1].0@));
                }
            }
            assert(listed(t) =~= want);
            assert(want =~= m.insert(kk, v));
        }
        self.items = items;
    }

    /// The entries in the order of their keys.
    pub fn entries(self) -> (r: Vec<(String, V)>)
        ensures
            keys_ascend(r@),
            listed(r@) == self@,
    {
        proof {
            use_type_invariant(&self);
        }
        self.items
    }

    /// The keys in order.
    pub fn keys(&self) -> (r: Vec<String>)
        ensures
            forall|i: int, j: int|
                0 <= i < j < r@.len() ==> text_lt((#[trigger] r@[i])@, (#[trigger] r@[j])@),
            forall|k: Seq<char>| #[trigger]
                self@.contains_key(k) <==> exists|i: int|
                    0 <= i < r@.len() && (#[trigger] r@[i])@ == k,
    {
        proof {
            use_type_invariant(self);
        }
        let mut r: Vec<String> = Vec::new();
        let mut i: usize = 0;
        while i < self.items.len()
            invariant
                i <= self.items@.len(),
                r@.len() == i,
                forall|j: int| 0 <= j < i ==> (#[trigger] r@[j])@ == self.items@[j].0@,
            decreases self.items@.len() - i,
        {
            r.push(self.items[i].0.clone());
            i += 1;
        }
        proof {
            let s = self.items@;
            assert forall|a: int, b: int| 0 <= a < b < r@.len() implies text_lt(
                (#[trigger] r@[a])@,
                (#[trigger] r@[b])@,
            ) by {
                assert(text_lt(s[a].0@, s[b].0@));
            }
            assert forall|k: Seq<char>| #[trigger] self@.contains_key(k) <==> exists|i: int|
                0 <= i < r@.len() && (#[trigger] r@[i])@ == k by {
                if self@.contains_key(k) {
                    let i = choose|i: int| #[trigger] key_at(s, i, k);
                    assert(r@[i]@ == k);
                }
                if exists|i: int| 0 <= i < r@.len() && (#[trigger] r@[i])@ == k {
                    let i = choose|i: int| 0 <= i < r@.len() && (#[trigger] r@[i])@ == k;
                    assert(key_at(s, i, k));
                }
            }
        }
        r
    }
}

} // verus!
