//! What a fingerprint is made of: a result without what it says of its own analysis and
//! without the bytes of streams and payloads.

use vstd::prelude::*;
use crate::json::{
    canonical, entries_of, items_of, key_order, key_placed, law_key_order, lemma_model, plain, Json,
    JsonModel,
};
use crate::text::{law_text_order_total, same, text_le};
use crate::textmap::lemma_text_le_trans;

verus! {

/// A key that a fingerprint leaves out.
pub open spec fn volatile(key: Seq<char>) -> bool {
    key == "analysis"@ || key == "data_hex"@ || key == "data_utf8_lossy"@ || key == "payload_hex"@
}

/// A value without the entries of volatile keys, at any depth.
pub open spec fn bare(m: JsonModel) -> JsonModel
    decreases m, 0nat,
{
    match m {
        JsonModel::Arr(v) => JsonModel::Arr(
            Seq::new(
                v.len(),
                |i: int|
                    if 0 <= i < v.len() {
                        bare(v[i])
                    } else {
                        JsonModel::Null
                    },
            ),
        ),
        JsonModel::Obj(o) => JsonModel::Obj(bare_entries(o, o.len())),
        other => other,
    }
}

/// What stays of the first `n` entries of an object.
pub open spec fn bare_entries(o: Seq<(Seq<char>, JsonModel)>, n: nat) -> Seq<(Seq<char>, JsonModel)>
    decreases o, n,
{
    if n == 0 || n > o.len() {
        seq![]
    } else if volatile(o[n - 1].0) {
        bare_entries(o, (n - 1) as nat)
    } else {
        bare_entries(o, (n - 1) as nat).push((o[n - 1].0, bare(o[n - 1].1)))
    }
}

fn is_volatile(key: &str) -> (r: bool)
    ensures
        r == volatile(key@),
{
    same(key, "analysis") || same(key, "data_hex") || same(key, "data_utf8_lossy") || same(
        key,
        "payload_hex",
    )
}

/// A value without the entries of volatile keys.
pub fn strip(j: &Json) -> (r: Json)
    ensures
        r@ == bare(j@),
    decreases j,
{
    proof {
        lemma_model(*j);
    }
    match j {
        Json::Arr(v) => {
            let mut out: Vec<Json> = Vec::new();
            let mut i: usize = 0;
            let ghost all = bare(j@)->Arr_0;
            assert(items_of(out@) =~= all.take(0));
            while i < v.len()
                invariant
                    i <= v@.len(),
                    j == Json::Arr(*v),
                    j@ == JsonModel::Arr(items_of(v@)),
                    all == bare(j@)->Arr_0,
                    all.len() == v@.len(),
                    items_of(out@) == all.take(i as int),
                decreases v@.len() - i,
            {
                let ghost before = out@;
                proof {
                    assert(decreases_to!(j => j->Arr_0));
                    assert(decreases_to!(j->Arr_0 => j->Arr_0[i as int]));
                    assert(all[i as int] == bare(items_of(v@)[i as int]));
                }
                let x = strip(&v[i]);
                let ghost xm = x@;
                out.push(x);
                i += 1;
                assert(items_of(out@) =~= items_of(before).push(xm));
                assert(items_of(out@) =~= all.take(i as int));
            }
            let r = Json::Arr(out);
            proof {
                lemma_model(r);
                assert(all.take(i as int) =~= all);
            }
            r
        },
        Json::Obj(m) => {
            let mut out: Vec<(String, Json)> = Vec::new();
            let mut i: usize = 0;
            assert(entries_of(out@) =~= bare_entries(entries_of(m@), 0));
            while i < m.len()
                invariant
                    i <= m@.len(),
                    j == Json::Obj(*m),
                    entries_of(out@) == bare_entries(entries_of(m@), i as nat),
                decreases m@.len() - i,
            {
                let ghost before = out@;
                proof {
                    assert(decreases_to!(j => j->Obj_0));
                    assert(decreases_to!(j->Obj_0 => j->Obj_0[i as int]));
                    assert(decreases_to!(j->Obj_0[i as int] => j->Obj_0[i as int].1));
                    assert(entries_of(m@)[i as int] == (m@[i as int].0@, m@[i as int].1@));
                }
                if !is_volatile(m[i].0.as_str()) {
                    let k = m[i].0.clone();
                    let x = strip(&m[i].1);
                    let ghost xm = x@;
                    let ghost km = k@;
                    out.push((k, x));
                    assert(entries_of(out@) =~= entries_of(before).push((km, xm)));
                }
                i += 1;
            }
            let r = Json::Obj(out);
            proof {
                lemma_model(r);
            }
            r
        },
        _ => j.copy(),
    }
}

proof fn lemma_bare_prefix(
    a: Seq<(Seq<char>, JsonModel)>,
    b: Seq<(Seq<char>, JsonModel)>,
    n: nat,
)
    requires
        n <= a.len(),
        n <= b.len(),
        forall|i: int| 0 <= i < n ==> a[i] == b[i],
    ensures
        bare_entries(a, n) == bare_entries(b, n),
    decreases n,
{
    if n > 0 {
        assert(a[n - 1] == b[n - 1]);
        lemma_bare_prefix(a, b, (n - 1) as nat);
    }
}

/// What stays of a list of entries.
pub open spec fn sift(o: Seq<(Seq<char>, JsonModel)>) -> Seq<(Seq<char>, JsonModel)> {
    bare_entries(o, o.len())
}

/// One more entry stays if its key is not volatile.
pub proof fn law_sift_push(o: Seq<(Seq<char>, JsonModel)>, e: (Seq<char>, JsonModel))
    ensures
        sift(o.push(e)) == (if volatile(e.0) {
            sift(o)
        } else {
            sift(o).push((e.0, bare(e.1)))
        }),
{
    let p = o.push(e);
    lemma_bare_prefix(p, o, o.len());
    assert(p[p.len() - 1] == e);
}

/// A list of entries in which no key is volatile stays, with its values stripped.
pub proof fn law_sift_keeps(o: Seq<(Seq<char>, JsonModel)>)
    requires
        forall|i: int| 0 <= i < o.len() ==> !volatile((#[trigger] o[i]).0),
    ensures
        sift(o) == Seq::new(o.len(), |i: int| (o[i].0, bare(o[i].1))),
    decreases o.len(),
{
    if o.len() > 0 {
        let t = o.drop_last();
        assert forall|i: int| 0 <= i < t.len() implies !volatile((#[trigger] t[i]).0) by {
            assert(t[i] == o[i]);
        }
        law_sift_keeps(t);
        law_sift_push(t, o.last());
        assert(t.push(o.last()) =~= o);
        assert(!volatile(o[o.len() - 1].0));
    }
    assert(sift(o) =~= Seq::new(o.len(), |i: int| (o[i].0, bare(o[i].1))));
}

/// An entry put behind every entry whose key is not after its own.
spec fn put(s: Seq<(Seq<char>, JsonModel)>, e: (Seq<char>, JsonModel)) -> Seq<
    (Seq<char>, JsonModel),
>
    decreases s.len(),
{
    if s.len() == 0 || text_le(s.last().0, e.0) {
        s.push(e)
    } else {
        put(s.drop_last(), e).push(s.last())
    }
}

/// The first `n` entries, each put in its place.
spec fn put_all(o: Seq<(Seq<char>, JsonModel)>, n: int) -> Seq<(Seq<char>, JsonModel)>
    decreases n,
{
    if n <= 0 {
        seq![]
    } else {
        put(put_all(o, n - 1), o[n - 1])
    }
}

/// The entries along an order.
spec fn along(order: Seq<int>, o: Seq<(Seq<char>, JsonModel)>) -> Seq<(Seq<char>, JsonModel)> {
    Seq::new(order.len(), |i: int| o[order[i]])
}

proof fn lemma_along_placed(
    order: Seq<int>,
    o: Seq<(Seq<char>, JsonModel)>,
    c: Seq<(Seq<char>, JsonModel)>,
    x: int,
)
    requires
        o.len() == c.len(),
        forall|i: int| 0 <= i < o.len() ==> (#[trigger] o[i]).0 == c[i].0,
        forall|i: int| 0 <= i < order.len() ==> 0 <= (#[trigger] order[i]) < o.len(),
        0 <= x < o.len(),
    ensures
        along(key_placed(order, o, x), c) == put(along(order, c), c[x]),
    decreases order.len(),
{
    let s = along(order, c);
    if order.len() > 0 {
        let z = order.last();
        assert(order[order.len() - 1] == z);
        assert(o[z].0 == c[z].0 && o[x].0 == c[x].0);
        assert(s.last() == c[z]);
        if !text_le(o[z].0, o[x].0) {
            let t = order.drop_last();
            assert forall|i: int| 0 <= i < t.len() implies 0 <= (#[trigger] t[i]) < o.len() by {
                assert(t[i] == order[i]);
            }
            lemma_along_placed(t, o, c, x);
            assert(s.drop_last() =~= along(t, c));
            assert(along(key_placed(order, o, x), c) =~= along(key_placed(t, o, x), c).push(c[z]));
        } else {
            assert(along(key_placed(order, o, x), c) =~= s.push(c[x]));
        }
    } else {
        assert(along(key_placed(order, o, x), c) =~= s.push(c[x]));
    }
}

proof fn lemma_along_order(
    o: Seq<(Seq<char>, JsonModel)>,
    c: Seq<(Seq<char>, JsonModel)>,
    n: int,
)
    requires
        o.len() == c.len(),
        forall|i: int| 0 <= i < o.len() ==> (#[trigger] o[i]).0 == c[i].0,
        0 <= n <= o.len(),
    ensures
        along(key_order(o, n), c) == put_all(c, n),
    decreases n,
{
    if n > 0 {
        lemma_along_order(o, c, n - 1);
        law_key_order(o, n - 1);
        let order = key_order(o, n - 1);
        assert forall|i: int| 0 <= i < order.len() implies 0 <= (#[trigger] order[i]) < o.len() by {
            assert(0 <= key_order(o, n - 1)[i] < n - 1);
        }
        lemma_along_placed(order, o, c, n - 1);
    } else {
        assert(along(key_order(o, n), c) =~= seq![]);
    }
}

/// The keys of a list are in order.
spec fn ascending(s: Seq<(Seq<char>, JsonModel)>) -> bool {
    forall|i: int, j: int|
        0 <= i < j < s.len() ==> text_le((#[trigger] s[i]).0, (#[trigger] s[j]).0)
}

proof fn lemma_put_all_ascends(c: Seq<(Seq<char>, JsonModel)>, n: int)
    requires
        0 <= n <= c.len(),
    ensures
        ascending(put_all(c, n)),
{
    lemma_along_order(c, c, n);
    law_key_order(c, n);
    let s = along(key_order(c, n), c);
    assert forall|i: int, j: int| 0 <= i < j < s.len() implies text_le(
        (#[trigger] s[i]).0,
        (#[trigger] s[j]).0,
    ) by {
        assert(text_le(c[key_order(c, n)[i]].0, c[key_order(c, n)[j]].0));
    }
}

/// The last key that stays of an ordered list is not after the list's last.
proof fn lemma_sift_last(s: Seq<(Seq<char>, JsonModel)>, key: Seq<char>)
    requires
        ascending(s),
        s.len() > 0 ==> text_le(s.last().0, key),
        sift(s).len() > 0,
    ensures
        text_le(sift(s).last().0, key),
    decreases s.len(),
{
    let t = s.drop_last();
    assert(s =~= t.push(s.last()));
    law_sift_push(t, s.last());
    if volatile(s.last().0) {
        assert(ascending(t)) by {
            assert forall|i: int, j: int| 0 <= i < j < t.len() implies text_le(
                (#[trigger] t[i]).0,
                (#[trigger] t[j]).0,
            ) by {
                assert(t[i] == s[i] && t[j] == s[j]);
            }
        }
        if t.len() > 0 {
            assert(text_le(s[t.len() - 1].0, s[s.len() - 1].0));
            lemma_text_le_trans(t.last().0, s.last().0, key);
        }
        lemma_sift_last(t, key);
    }
}

proof fn lemma_sift_put(s: Seq<(Seq<char>, JsonModel)>, e: (Seq<char>, JsonModel))
    requires
        ascending(s),
    ensures
        sift(put(s, e)) == (if volatile(e.0) {
            sift(s)
        } else {
            put(sift(s), (e.0, bare(e.1)))
        }),
    decreases s.len(),
{
    if s.len() == 0 || text_le(s.last().0, e.0) {
        law_sift_push(s, e);
        if sift(s).len() > 0 {
            lemma_sift_last(s, e.0);
        }
    } else {
        let t = s.drop_last();
        let z = s.last();
        assert(s =~= t.push(z));
        assert(ascending(t)) by {
            assert forall|i: int, j: int| 0 <= i < j < t.len() implies text_le(
                (#[trigger] t[i]).0,
                (#[trigger] t[j]).0,
            ) by {
                assert(t[i] == s[i] && t[j] == s[j]);
            }
        }
        lemma_sift_put(t, e);
        law_sift_push(t, z);
        law_sift_push(put(t, e), z);
        if !volatile(z.0) && !volatile(e.0) {
            let b = sift(s);
            assert(b.drop_last() =~= sift(t));
            assert(b.last() == (z.0, bare(z.1)));
        }
    }
}

proof fn lemma_put_all_prefix(
    a: Seq<(Seq<char>, JsonModel)>,
    b: Seq<(Seq<char>, JsonModel)>,
    n: int,
)
    requires
        n <= a.len(),
        n <= b.len(),
        forall|i: int| 0 <= i < n ==> a[i] == b[i],
    ensures
        put_all(a, n) == put_all(b, n),
    decreases n,
{
    if n > 0 {
        assert(a[n - 1] == b[n - 1]);
        lemma_put_all_prefix(a, b, n - 1);
    }
}

proof fn lemma_sift_put_all(c: Seq<(Seq<char>, JsonModel)>, n: int)
    requires
        0 <= n <= c.len(),
    ensures
        sift(put_all(c, n)) == put_all(
            bare_entries(c, n as nat),
            bare_entries(c, n as nat).len() as int,
        ),
    decreases n,
{
    if n > 0 {
        lemma_sift_put_all(c, n - 1);
        lemma_put_all_ascends(c, n - 1);
        lemma_sift_put(put_all(c, n - 1), c[n - 1]);
        let b = bare_entries(c, (n - 1) as nat);
        let d = bare_entries(c, n as nat);
        if !volatile(c[n - 1].0) {
            lemma_put_all_prefix(d, b, b.len() as int);
        }
    }
}

/// The entries with canonical values.
spec fn neat(o: Seq<(Seq<char>, JsonModel)>) -> Seq<(Seq<char>, JsonModel)> {
    Seq::new(o.len(), |i: int| (o[i].0, canonical(o[i].1)))
}

proof fn lemma_canonical_object(o: Seq<(Seq<char>, JsonModel)>)
    ensures
        canonical(JsonModel::Obj(o)) == JsonModel::Obj(put_all(neat(o), o.len() as int)),
{
    let n = o.len() as int;
    let c = neat(o);
    assert forall|i: int| 0 <= i < o.len() implies (#[trigger] o[i]).0 == c[i].0 by {}
    lemma_along_order(o, c, n);
    law_key_order(o, n);
    let order = key_order(o, n);
    let k = canonical(JsonModel::Obj(o))->Obj_0;
    assert forall|i: int| 0 <= i < n implies #[trigger] k[i] == along(order, c)[i] by {
        assert(0 <= order[i] < n);
    }
    assert(k =~= along(order, c));
}

proof fn lemma_sift_neat(o: Seq<(Seq<char>, JsonModel)>, n: nat)
    requires
        n <= o.len(),
        forall|i: int|
            0 <= i < o.len() ==> bare(canonical((#[trigger] o[i]).1)) == canonical(bare(o[i].1)),
    ensures
        bare_entries(neat(o), n) == neat(bare_entries(o, n)),
    decreases n,
{
    if n > 0 {
        lemma_sift_neat(o, (n - 1) as nat);
        let e = o[n - 1];
        assert(bare(canonical(e.1)) == canonical(bare(e.1)));
        assert(neat(o)[n - 1] == (e.0, canonical(e.1)));
        let b = bare_entries(o, (n - 1) as nat);
        if !volatile(e.0) {
            assert(neat(b.push((e.0, bare(e.1)))) =~= neat(b).push((e.0, canonical(bare(e.1)))));
        }
    } else {
        assert(bare_entries(neat(o), n) =~= neat(bare_entries(o, n)));
    }
}

/// Whether the entries are ordered first or stripped first makes no difference.
pub proof fn law_bare_of_canonical(m: JsonModel)
    ensures
        bare(canonical(m)) == canonical(bare(m)),
    decreases m,
{
    match m {
        JsonModel::Arr(v) => {
            assert forall|i: int| 0 <= i < v.len() implies bare(canonical(#[trigger] v[i]))
                == canonical(bare(v[i])) by {
                law_bare_of_canonical(v[i]);
            }
            assert(bare(canonical(m))->Arr_0 =~= canonical(bare(m))->Arr_0);
        },
        JsonModel::Obj(o) => {
            assert forall|i: int| 0 <= i < o.len() implies bare(canonical((#[trigger] o[i]).1))
                == canonical(bare(o[i].1)) by {
                law_bare_of_canonical(o[i].1);
            }
            lemma_canonical_object(o);
            lemma_canonical_object(sift(o));
            lemma_sift_put_all(neat(o), o.len() as int);
            lemma_sift_neat(o, o.len());
        },
        _ => {},
    }
}

proof fn lemma_bare_plain_entries(o: Seq<(Seq<char>, JsonModel)>, n: nat)
    requires
        n <= o.len(),
        forall|i: int| 0 <= i < o.len() ==> plain(bare((#[trigger] o[i]).1)),
    ensures
        forall|i: int| 0 <= i < bare_entries(o, n).len() ==> plain((#[trigger] bare_entries(o, n)[i]).1),
    decreases n,
{
    if n > 0 {
        lemma_bare_plain_entries(o, (n - 1) as nat);
        assert(plain(bare(o[n - 1].1)));
        let b = bare_entries(o, (n - 1) as nat);
        let c = bare_entries(o, n);
        assert forall|i: int| 0 <= i < c.len() implies plain((#[trigger] c[i]).1) by {
            if i < b.len() {
                assert(c[i] == b[i]);
            }
        }
    }
}

proof fn lemma_plain_object(o: Seq<(Seq<char>, JsonModel)>)
    requires
        forall|i: int| 0 <= i < o.len() ==> plain((#[trigger] o[i]).1),
    ensures
        plain(JsonModel::Obj(o)),
{
}

/// What stays of a value has a text that reads back if the value has.
pub proof fn law_bare_is_plain(m: JsonModel)
    requires
        plain(m),
    ensures
        plain(bare(m)),
    decreases m,
{
    match m {
        JsonModel::Arr(v) => {
            let b = Seq::new(v.len(), |i: int| bare(v[i]));
            assert forall|i: int| 0 <= i < b.len() implies plain(#[trigger] b[i]) by {
                law_bare_is_plain(v[i]);
            }
            assert(bare(m)->Arr_0 =~= b);
        },
        JsonModel::Obj(o) => {
            assert forall|i: int| 0 <= i < o.len() implies plain(bare((#[trigger] o[i]).1)) by {
                law_bare_is_plain(o[i].1);
            }
            lemma_bare_plain_entries(o, o.len());
            lemma_plain_object(sift(o));
        },
        _ => {},
    }
}

} // verus!
