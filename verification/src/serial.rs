//! Compact JSON text with the entries of objects in the order in which they were set, as
//! documents that are digested are written down.

use vstd::prelude::*;
use crate::json::{
    comma, entries_of, escaped_char, items_of, lemma_model, lemma_number_text, number_char,
    number_text, plain, Json, JsonModel,
};
use crate::text::{dec_int, hex4, push_dec_i128, push_text};

verus! {

/// The text that stands for a character in quotes; a backspace and a form feed have
/// short escapes.
pub open spec fn inked_char(c: char) -> Seq<char> {
    if c == '\u{8}' {
        seq!['\\', 'b']
    } else if c == '\u{c}' {
        seq!['\\', 'f']
    } else {
        escaped_char(c)
    }
}

/// The text that stands for characters in quotes.
pub open spec fn inked(s: Seq<char>) -> Seq<char>
    decreases s.len(),
{
    if s.len() == 0 {
        seq![]
    } else {
        inked(s.drop_last()) + inked_char(s.last())
    }
}

/// Calls `serde_json::to_string` on a text: the text in double quotes, with a quote, a
/// backslash and the control characters below the blank escaped, those that have one by
/// their short escape and the others by `\u` and four lower-case hexadecimal digits, and
/// every other character as it is. A text is always serialised.
#[verifier::external_body]
fn quote(s: &str) -> (r: String)
    ensures
        r@ == seq!['"'] + inked(s@) + seq!['"'],
{
    serde_json::to_string(s).expect("a text is serialised")
}

/// The compact text of a value, with the entries of objects in their order.
pub open spec fn serial(m: JsonModel) -> Seq<char>
    decreases m, 0nat,
{
    match m {
        JsonModel::Null => "null"@,
        JsonModel::Bool(b) => if b {
            "true"@
        } else {
            "false"@
        },
        JsonModel::Num(n) => dec_int(n),
        JsonModel::Real(t) => t,
        JsonModel::Str(t) => seq!['"'] + inked(t) + seq!['"'],
        JsonModel::Arr(v) => seq!['['] + serial_items(v, v.len()) + seq![']'],
        JsonModel::Obj(o) => seq!['{'] + serial_entries(o, o.len()) + seq!['}'],
    }
}

/// The text of the first `n` items of an array.
pub open spec fn serial_items(v: Seq<JsonModel>, n: nat) -> Seq<char>
    decreases v, n,
{
    if n == 0 || n > v.len() {
        seq![]
    } else {
        serial_items(v, (n - 1) as nat) + comma(n) + serial(v[n - 1])
    }
}

/// The text of the first `n` entries of an object.
pub open spec fn serial_entries(o: Seq<(Seq<char>, JsonModel)>, n: nat) -> Seq<char>
    decreases o, n,
{
    if n == 0 || n > o.len() {
        seq![]
    } else {
        serial_entries(o, (n - 1) as nat) + comma(n) + (seq!['"'] + inked(o[n - 1].0) + seq!['"'])
            + seq![':'] + serial(o[n - 1].1)
    }
}

fn write_entries(m: &Vec<(String, Json)>, out: &mut String)
    ensures
        final(out)@ == old(out)@ + serial_entries(entries_of(m@), m@.len()),
    decreases m,
{
    let ghost o = out@;
    let ghost es = entries_of(m@);
    assert(o + serial_entries(es, 0) =~= o);
    let mut i: usize = 0;
    while i < m.len()
        invariant
            i <= m@.len(),
            es == entries_of(m@),
            out@ == o + serial_entries(es, i as nat),
        decreases m@.len() - i,
    {
        assert(es[i as int] == (m@[i as int].0@, m@[i as int].1@));
        if i > 0 {
            out.push(',');
        }
        let key = quote(m[i].0.as_str());
        push_text(out, key.as_str());
        out.push(':');
        proof {
            assert(decreases_to!(m => m[i as int]));
            assert(decreases_to!(m[i as int] => m[i as int].1));
        }
        write(&m[i].1, out);
        i += 1;
        assert(out@ =~= o + serial_entries(es, i as nat));
    }
}

fn write(j: &Json, out: &mut String)
    ensures
        final(out)@ == old(out)@ + serial(j@),
    decreases j,
{
    let ghost o = out@;
    proof {
        lemma_model(*j);
    }
    match j {
        Json::Null => {
            push_text(out, "null");
        },
        Json::Bool(b) => {
            if *b {
                push_text(out, "true");
            } else {
                push_text(out, "false");
            }
        },
        Json::Num(n) => {
            push_dec_i128(out, *n);
        },
        Json::Real(t) => {
            push_text(out, t.as_str());
        },
        Json::Str(t) => {
            let q = quote(t.as_str());
            push_text(out, q.as_str());
        },
        Json::Arr(v) => {
            let ghost ms = items_of(v@);
            out.push('[');
            let ghost head = o + seq!['['];
            assert(head + serial_items(ms, 0) =~= head);
            let mut i: usize = 0;
            while i < v.len()
                invariant
                    i <= v@.len(),
                    ms == items_of(v@),
                    j == Json::Arr(*v),
                    out@ == head + serial_items(ms, i as nat),
                decreases v@.len() - i,
            {
                assert(ms[i as int] == v@[i as int]@);
                if i > 0 {
                    out.push(',');
                }
                proof {
                    assert(decreases_to!(j => j->Arr_0));
                    assert(decreases_to!(j->Arr_0 => j->Arr_0[i as int]));
                }
                write(&v[i], out);
                i += 1;
                assert(out@ =~= head + serial_items(ms, i as nat));
            }
            out.push(']');
        },
        Json::Obj(m) => {
            assert(decreases_to!(j => j->Obj_0));
            out.push('{');
            write_entries(m, out);
            out.push('}');
        },
    }
    assert(out@ =~= o + serial(j@));
}

/// The compact text of a value, with the entries of objects in their order.
pub fn to_serial(j: &Json) -> (r: String)
    ensures
        r@ == serial(j@),
{
    let mut out = String::new();
    write(j, &mut out);
    assert(out@ =~= serial(j@));
    out
}

/// A text before which a value ends.
pub open spec fn ends(s: Seq<char>) -> bool {
    s.len() == 0 || s[0] == ',' || s[0] == ']' || s[0] == '}'
}

proof fn lemma_char_apart(c: char, d: char, s: Seq<char>, t: Seq<char>)
    requires
        inked_char(c) + s == inked_char(d) + t,
    ensures
        c == d,
        s == t,
        inked_char(c)[0] != '"',
{
    let x = inked_char(c) + s;
    let y = inked_char(d) + t;
    let n = inked_char(c).len() as int;
    let k = inked_char(d).len() as int;
    assert(n > 0 && k > 0);
    assert(x[0] == inked_char(c)[0] && y[0] == inked_char(d)[0]);
    if n > 1 && k > 1 {
        assert(x[1] == inked_char(c)[1] && y[1] == inked_char(d)[1]);
        if n == 6 && k == 6 {
            assert(inked_char(c)[4] == hex4(c as int)[2] && inked_char(c)[5] == hex4(c as int)[3]);
            assert(inked_char(d)[4] == hex4(d as int)[2] && inked_char(d)[5] == hex4(d as int)[3]);
            assert(x[4] == inked_char(c)[4] && y[4] == inked_char(d)[4]);
            assert(x[5] == inked_char(c)[5] && y[5] == inked_char(d)[5]);
        }
    }
    assert(c == d);
    assert(s =~= x.skip(n));
    assert(t =~= y.skip(k));
}

proof fn lemma_inked_front(t: Seq<char>)
    requires
        t.len() > 0,
    ensures
        inked(t) == inked_char(t[0]) + inked(t.skip(1)),
    decreases t.len(),
{
    let d = t.drop_last();
    if t.len() == 1 {
        assert(d =~= seq![]);
        assert(t.skip(1) =~= seq![]);
        assert(inked(t) =~= inked_char(t[0]) + inked(t.skip(1)));
    } else {
        lemma_inked_front(d);
        assert(t.skip(1).drop_last() =~= d.skip(1));
        assert(t.skip(1).last() == t.last());
        assert(inked(t) =~= inked_char(t[0]) + inked(t.skip(1)));
    }
}

proof fn lemma_text_apart(a: Seq<char>, b: Seq<char>, s: Seq<char>, t: Seq<char>)
    requires
        inked(a) + seq!['"'] + s == inked(b) + seq!['"'] + t,
    ensures
        a == b,
        s == t,
    decreases a.len(),
{
    let x = inked(a) + seq!['"'] + s;
    let y = inked(b) + seq!['"'] + t;
    if a.len() > 0 {
        lemma_inked_front(a);
        lemma_char_apart(a[0], a[0], s, s);
        assert(x[0] == inked_char(a[0])[0]);
    } else {
        assert(x[0] == '"');
    }
    if b.len() > 0 {
        lemma_inked_front(b);
        lemma_char_apart(b[0], b[0], s, s);
        assert(y[0] == inked_char(b[0])[0]);
    } else {
        assert(y[0] == '"');
    }
    if a.len() > 0 {
        let u = inked(a.skip(1)) + seq!['"'] + s;
        let v = inked(b.skip(1)) + seq!['"'] + t;
        assert(x =~= inked_char(a[0]) + u);
        assert(y =~= inked_char(b[0]) + v);
        lemma_char_apart(a[0], b[0], u, v);
        lemma_text_apart(a.skip(1), b.skip(1), s, t);
        assert(a =~= seq![a[0]] + a.skip(1));
        assert(b =~= seq![b[0]] + b.skip(1));
    } else {
        assert(a =~= b);
        assert(s =~= x.skip(1));
        assert(t =~= y.skip(1));
    }
}

proof fn lemma_number_apart(a: JsonModel, b: JsonModel, s: Seq<char>, t: Seq<char>)
    requires
        plain(a),
        plain(b),
        a is Num || a is Real,
        b is Num || b is Real,
        ends(s),
        ends(t),
        number_text(a) + s == number_text(b) + t,
    ensures
        a == b,
        s == t,
{
    lemma_number_text(a);
    lemma_number_text(b);
    let p = number_text(a);
    let q = number_text(b);
    let x = p + s;
    let y = q + t;
    if p.len() < q.len() {
        assert(number_char(q[p.len() as int]));
        assert(y[p.len() as int] == q[p.len() as int]);
        assert(x[p.len() as int] == s[0]);
        assert(false);
    }
    if q.len() < p.len() {
        assert(number_char(p[q.len() as int]));
        assert(x[q.len() as int] == p[q.len() as int]);
        assert(y[q.len() as int] == t[0]);
        assert(false);
    }
    assert(p =~= x.take(p.len() as int));
    assert(q =~= y.take(q.len() as int));
    assert(s =~= x.skip(p.len() as int));
    assert(t =~= y.skip(q.len() as int));
}

/// Which of the seven shapes a text starts: that of its first character.
spec fn shape(c: char) -> int {
    if c == 'n' {
        0
    } else if c == 't' || c == 'f' {
        1
    } else if number_char(c) {
        2
    } else if c == '"' {
        3
    } else if c == '[' {
        4
    } else if c == '{' {
        5
    } else {
        6
    }
}

proof fn lemma_first(m: JsonModel)
    requires
        plain(m),
    ensures
        serial(m).len() > 0,
        shape(serial(m)[0]) == match m {
            JsonModel::Null => 0int,
            JsonModel::Bool(_) => 1,
            JsonModel::Num(_) => 2,
            JsonModel::Real(_) => 2,
            JsonModel::Str(_) => 3,
            JsonModel::Arr(_) => 4,
            JsonModel::Obj(_) => 5,
        },
        m matches JsonModel::Bool(b) ==> serial(m)[0] == if b {
            't'
        } else {
            'f'
        },
{
    reveal_strlit("null");
    reveal_strlit("true");
    reveal_strlit("false");
    if m is Num || m is Real {
        lemma_number_text(m);
        assert(number_char(number_text(m)[0]));
    }
}

spec fn items_from(v: Seq<JsonModel>, k: nat) -> Seq<char>
    decreases v.len() - k,
{
    if k >= v.len() {
        seq![]
    } else {
        comma(k + 1) + serial(v[k as int]) + items_from(v, k + 1)
    }
}

spec fn entries_from(o: Seq<(Seq<char>, JsonModel)>, k: nat) -> Seq<char>
    decreases o.len() - k,
{
    if k >= o.len() {
        seq![]
    } else {
        comma(k + 1) + (seq!['"'] + inked(o[k as int].0) + seq!['"']) + seq![':'] + serial(
            o[k as int].1,
        ) + entries_from(o, k + 1)
    }
}

proof fn lemma_items_split(v: Seq<JsonModel>, k: nat)
    requires
        k <= v.len(),
    ensures
        serial_items(v, v.len()) == serial_items(v, k) + items_from(v, k),
    decreases v.len() - k,
{
    if k == v.len() {
        assert(serial_items(v, k) + seq![] =~= serial_items(v, k));
    } else {
        lemma_items_split(v, k + 1);
        assert(serial_items(v, k + 1) + items_from(v, k + 1) =~= serial_items(v, k) + items_from(
            v,
            k,
        ));
    }
}

proof fn lemma_entries_split(o: Seq<(Seq<char>, JsonModel)>, k: nat)
    requires
        k <= o.len(),
    ensures
        serial_entries(o, o.len()) == serial_entries(o, k) + entries_from(o, k),
    decreases o.len() - k,
{
    if k == o.len() {
        assert(serial_entries(o, k) + seq![] =~= serial_entries(o, k));
    } else {
        lemma_entries_split(o, k + 1);
        assert(serial_entries(o, k + 1) + entries_from(o, k + 1) =~= serial_entries(o, k)
            + entries_from(o, k));
    }
}

proof fn lemma_item_front(v: Seq<JsonModel>, k: nat, s: Seq<char>)
    requires
        k < v.len(),
        plain(v[k as int]),
    ensures
        (items_from(v, k) + seq![']'] + s).skip(comma(k + 1).len() as int) == serial(v[k as int])
            + (items_from(v, k + 1) + seq![']'] + s),
        (items_from(v, k) + seq![']'] + s)[0] != ']',
        ends(items_from(v, k + 1) + seq![']'] + s),
{
    let c = comma(k + 1);
    let z = serial(v[k as int]) + (items_from(v, k + 1) + seq![']'] + s);
    let x = items_from(v, k) + seq![']'] + s;
    lemma_first(v[k as int]);
    assert(x =~= c + z);
    assert(z[0] == serial(v[k as int])[0]);
    assert(x.skip(c.len() as int) =~= z);
}

proof fn lemma_items_apart(
    v: Seq<JsonModel>,
    w: Seq<JsonModel>,
    k: nat,
    s: Seq<char>,
    t: Seq<char>,
)
    requires
        k <= v.len(),
        k <= w.len(),
        v.take(k as int) == w.take(k as int),
        forall|i: int| 0 <= i < v.len() ==> plain(#[trigger] v[i]),
        forall|i: int| 0 <= i < w.len() ==> plain(#[trigger] w[i]),
        items_from(v, k) + seq![']'] + s == items_from(w, k) + seq![']'] + t,
    ensures
        v == w,
        s == t,
    decreases v, v.len() - k,
{
    let x = items_from(v, k) + seq![']'] + s;
    let y = items_from(w, k) + seq![']'] + t;
    if k < v.len() {
        lemma_item_front(v, k, s);
    } else {
        assert(x[0] == ']');
    }
    if k < w.len() {
        lemma_item_front(w, k, t);
    } else {
        assert(y[0] == ']');
    }
    if k == v.len() {
        assert(k == w.len());
        assert(v =~= v.take(k as int));
        assert(w =~= w.take(k as int));
        assert(s =~= x.skip(1));
        assert(t =~= y.skip(1));
    } else {
        assert(k < w.len());
        assert(decreases_to!(v => v[k as int]));
        lemma_apart(
            v[k as int],
            w[k as int],
            items_from(v, k + 1) + seq![']'] + s,
            items_from(w, k + 1) + seq![']'] + t,
        );
        assert(v.take(k as int + 1) =~= v.take(k as int).push(v[k as int]));
        assert(w.take(k as int + 1) =~= w.take(k as int).push(w[k as int]));
        lemma_items_apart(v, w, k + 1, s, t);
    }
}

/// What stands behind the key of an entry, up to the end.
spec fn past_key(o: Seq<(Seq<char>, JsonModel)>, k: nat, s: Seq<char>) -> Seq<char> {
    seq![':'] + (serial(o[k as int].1) + (entries_from(o, k + 1) + seq!['}'] + s))
}

proof fn lemma_entry_front(o: Seq<(Seq<char>, JsonModel)>, k: nat, s: Seq<char>)
    requires
        k < o.len(),
    ensures
        (entries_from(o, k) + seq!['}'] + s).skip(comma(k + 1).len() as int + 1) == inked(
            o[k as int].0,
        ) + seq!['"'] + past_key(o, k, s),
        (entries_from(o, k) + seq!['}'] + s)[0] == if k > 0 {
            ','
        } else {
            '"'
        },
        past_key(o, k, s).skip(1) == serial(o[k as int].1) + (entries_from(o, k + 1) + seq!['}']
            + s),
        ends(entries_from(o, k + 1) + seq!['}'] + s),
{
    let c = comma(k + 1);
    let f = o[k as int];
    let p = entries_from(o, k + 1) + seq!['}'] + s;
    let x = entries_from(o, k) + seq!['}'] + s;
    let z = inked(f.0) + seq!['"'] + past_key(o, k, s);
    assert(past_key(o, k, s).skip(1) =~= serial(f.1) + p);
    assert(x =~= c + seq!['"'] + z);
    assert(x.skip(c.len() as int + 1) =~= z);
}

proof fn lemma_entries_apart(
    v: Seq<(Seq<char>, JsonModel)>,
    w: Seq<(Seq<char>, JsonModel)>,
    k: nat,
    s: Seq<char>,
    t: Seq<char>,
)
    requires
        k <= v.len(),
        k <= w.len(),
        v.take(k as int) == w.take(k as int),
        forall|i: int| 0 <= i < v.len() ==> plain((#[trigger] v[i]).1),
        forall|i: int| 0 <= i < w.len() ==> plain((#[trigger] w[i]).1),
        entries_from(v, k) + seq!['}'] + s == entries_from(w, k) + seq!['}'] + t,
    ensures
        v == w,
        s == t,
    decreases v, v.len() - k,
{
    let x = entries_from(v, k) + seq!['}'] + s;
    let y = entries_from(w, k) + seq!['}'] + t;
    if k < v.len() {
        lemma_entry_front(v, k, s);
    } else {
        assert(x[0] == '}');
    }
    if k < w.len() {
        lemma_entry_front(w, k, t);
    } else {
        assert(y[0] == '}');
    }
    if k == v.len() {
        assert(k == w.len());
        assert(v =~= v.take(k as int));
        assert(w =~= w.take(k as int));
        assert(s =~= x.skip(1));
        assert(t =~= y.skip(1));
    } else {
        assert(k < w.len());
        let (f, g) = (v[k as int], w[k as int]);
        lemma_text_apart(f.0, g.0, past_key(v, k, s), past_key(w, k, t));
        assert(decreases_to!(v => v[k as int]));
        assert(decreases_to!(v[k as int] => v[k as int].1));
        lemma_apart(
            f.1,
            g.1,
            entries_from(v, k + 1) + seq!['}'] + s,
            entries_from(w, k + 1) + seq!['}'] + t,
        );
        assert(f == g);
        assert(v.take(k as int + 1) =~= v.take(k as int).push(f));
        assert(w.take(k as int + 1) =~= w.take(k as int).push(g));
        lemma_entries_apart(v, w, k + 1, s, t);
    }
}

proof fn lemma_apart(a: JsonModel, b: JsonModel, s: Seq<char>, t: Seq<char>)
    requires
        plain(a),
        plain(b),
        ends(s),
        ends(t),
        serial(a) + s == serial(b) + t,
    ensures
        a == b,
        s == t,
    decreases a, 0nat,
{
    let x = serial(a) + s;
    let y = serial(b) + t;
    lemma_first(a);
    lemma_first(b);
    assert(x[0] == serial(a)[0]);
    assert(y[0] == serial(b)[0]);
    match a {
        JsonModel::Num(_) => {
            lemma_number_apart(a, b, s, t);
        },
        JsonModel::Real(_) => {
            lemma_number_apart(a, b, s, t);
        },
        JsonModel::Str(p) => {
            let q = b->Str_0;
            assert(x.skip(1) =~= inked(p) + seq!['"'] + s);
            assert(y.skip(1) =~= inked(q) + seq!['"'] + t);
            lemma_text_apart(p, q, s, t);
        },
        JsonModel::Arr(v) => {
            let w = b->Arr_0;
            lemma_items_split(v, 0);
            lemma_items_split(w, 0);
            assert(x.skip(1) =~= items_from(v, 0) + seq![']'] + s);
            assert(y.skip(1) =~= items_from(w, 0) + seq![']'] + t);
            assert(v.take(0) =~= w.take(0));
            assert(decreases_to!(a => a->Arr_0));
            lemma_items_apart(v, w, 0, s, t);
        },
        JsonModel::Obj(v) => {
            let w = b->Obj_0;
            lemma_entries_split(v, 0);
            lemma_entries_split(w, 0);
            assert(x.skip(1) =~= entries_from(v, 0) + seq!['}'] + s);
            assert(y.skip(1) =~= entries_from(w, 0) + seq!['}'] + t);
            assert(v.take(0) =~= w.take(0));
            assert(decreases_to!(a => a->Obj_0));
            lemma_entries_apart(v, w, 0, s, t);
        },
        _ => {
            assert(a == b);
            assert(s =~= x.skip(serial(a).len() as int));
            assert(t =~= y.skip(serial(b).len() as int));
        },
    }
}

/// Different values have different texts, where every number is in the form in which it
/// is read.
pub proof fn law_serial_apart(a: JsonModel, b: JsonModel)
    requires
        plain(a),
        plain(b),
        serial(a) == serial(b),
    ensures
        a == b,
{
    assert(serial(a) + seq![] == serial(b) + seq![]);
    lemma_apart(a, b, seq![], seq![]);
}

} // verus!
