//! JSON values, their canonical text, and a parser.

use vstd::prelude::*;
use vstd::string::StringSliceAdditionalSpecFns;
use vstd::utf8::{encode_scalar, encode_utf8, valid_utf8};
use crate::decimal::{decimal_text, to_decimal_text};
use crate::hex::{all_digits, decode_pairs, digit_value, pair_values};
use crate::text::{
    at_most, cat, cat_dec, chars_of, dec, dec_int, digits_from, digits_value, hex4, hex_of,
    hex_string, number, parse_number, push_dec, push_dec_i128, push_hex4, push_text,
    read_utf8, same, sub_string, text_le, trim, trimmed, utf8_error,
};

verus! {

/// A JSON value.
#[derive(Debug)]
pub enum Json {
    Null,
    Bool(bool),
    /// An integer.
    Num(i128),
    /// A number that is no integer of 128 bits, as a decimal without an exponent.
    Real(String),
    Str(String),
    Arr(Vec<Json>),
    Obj(Vec<(String, Json)>),
}

/// What a JSON value is.
pub enum JsonModel {
    Null,
    Bool(bool),
    Num(int),
    Real(Seq<char>),
    Str(Seq<char>),
    Arr(Seq<JsonModel>),
    Obj(Seq<(Seq<char>, JsonModel)>),
}

/// What a value is.
pub open spec fn model(j: Json) -> JsonModel
    decreases j,
{
    match j {
        Json::Null => JsonModel::Null,
        Json::Bool(b) => JsonModel::Bool(b),
        Json::Num(n) => JsonModel::Num(n as int),
        Json::Real(t) => JsonModel::Real(t@),
        Json::Str(t) => JsonModel::Str(t@),
        Json::Arr(v) => JsonModel::Arr(
            Seq::new(
                v@.len(),
                |i: int|
                    if 0 <= i < v@.len() {
                        model(v@[i])
                    } else {
                        JsonModel::Null
                    },
            ),
        ),
        Json::Obj(v) => JsonModel::Obj(
            Seq::new(
                v@.len(),
                |i: int|
                    if 0 <= i < v@.len() {
                        (v@[i].0@, model(v@[i].1))
                    } else {
                        (seq![], JsonModel::Null)
                    },
            ),
        ),
    }
}

impl View for Json {
    type V = JsonModel;

    open spec fn view(&self) -> JsonModel {
        model(*self)
    }
}

/// What the items of an array are.
pub open spec fn items_of(v: Seq<Json>) -> Seq<JsonModel> {
    Seq::new(v.len(), |i: int| v[i]@)
}

/// What the entries of an object are.
pub open spec fn entries_of(v: Seq<(String, Json)>) -> Seq<(Seq<char>, JsonModel)> {
    Seq::new(v.len(), |i: int| (v[i].0@, v[i].1@))
}

pub(crate) proof fn lemma_model(j: Json)
    ensures
        j matches Json::Arr(v) ==> j@ == JsonModel::Arr(items_of(v@)),
        j matches Json::Obj(v) ==> j@ == JsonModel::Obj(entries_of(v@)),
{
    match j {
        Json::Arr(v) => {
            assert(j@->Arr_0 =~= items_of(v@));
        },
        Json::Obj(v) => {
            assert(j@->Obj_0 =~= entries_of(v@));
        },
        _ => {},
    }
}

/// The place of the first entry of a key from `i` on.
pub open spec fn entry_at(o: Seq<(Seq<char>, JsonModel)>, key: Seq<char>, i: int) -> Option<int>
    decreases o.len() - i,
{
    if i < 0 || i >= o.len() {
        None
    } else if o[i].0 == key {
        Some(i)
    } else {
        entry_at(o, key, i + 1)
    }
}

impl JsonModel {
    /// The value of a key: that of its first entry.
    pub open spec fn field(self, key: Seq<char>) -> Option<JsonModel> {
        match self {
            JsonModel::Obj(o) => match entry_at(o, key, 0) {
                Some(i) => Some(o[i].1),
                None => None,
            },
            _ => None,
        }
    }
}

/// The text that stands for a character in quotes.
pub open spec fn escaped_char(c: char) -> Seq<char> {
    if c == '"' {
        seq!['\\', '"']
    } else if c == '\\' {
        seq!['\\', '\\']
    } else if c == '\n' {
        seq!['\\', 'n']
    } else if c == '\r' {
        seq!['\\', 'r']
    } else if c == '\t' {
        seq!['\\', 't']
    } else if ' ' > c {
        seq!['\\', 'u'] + hex4(c as int)
    } else {
        seq![c]
    }
}

/// The text that stands for characters in quotes.
pub open spec fn escaped(s: Seq<char>) -> Seq<char>
    decreases s.len(),
{
    if s.len() == 0 {
        seq![]
    } else {
        escaped(s.drop_last()) + escaped_char(s.last())
    }
}

/// The text of a string.
pub open spec fn written_str(s: Seq<char>) -> Seq<char> {
    seq!['"'] + escaped(s) + seq!['"']
}

/// `order` with `x` put behind every index whose key is not after that of `x`.
pub open spec fn key_placed(order: Seq<int>, o: Seq<(Seq<char>, JsonModel)>, x: int) -> Seq<int>
    decreases order.len(),
{
    if order.len() == 0 || text_le(o[order.last()].0, o[x].0) {
        order.push(x)
    } else {
        key_placed(order.drop_last(), o, x).push(order.last())
    }
}

/// The first `n` entries of an object in the order of their keys; entries of one
/// key keep their order.
pub open spec fn key_order(o: Seq<(Seq<char>, JsonModel)>, n: int) -> Seq<int>
    decreases n,
{
    if n <= 0 {
        seq![]
    } else {
        key_placed(key_order(o, n - 1), o, n - 1)
    }
}

/// A line break and an indentation, where the text has lines.
pub open spec fn line(pad: Option<Seq<char>>) -> Seq<char> {
    match pad {
        None => seq![],
        Some(p) => seq!['\n'] + p,
    }
}

/// A deeper indentation.
pub open spec fn deeper(pad: Option<Seq<char>>) -> Option<Seq<char>> {
    match pad {
        None => None,
        Some(p) => Some(p + "  "@),
    }
}

/// A comma before all but the first item.
pub open spec fn comma(n: nat) -> Seq<char> {
    if n > 1 {
        seq![',']
    } else {
        seq![]
    }
}

/// What stands between a key and its value.
pub open spec fn colon(pad: Option<Seq<char>>) -> Seq<char> {
    if pad is None {
        seq![':']
    } else {
        seq![':', ' ']
    }
}

/// The text of a value: compact, or in lines with an indentation.
pub open spec fn written(m: JsonModel, pad: Option<Seq<char>>) -> Seq<char>
    decreases m, 0nat,
{
    match m {
        JsonModel::Null => "null"@,
        JsonModel::Bool(b) => if b {
            "true"@
        } else {
            "false"@
        },
        JsonModel::Num(n) => dec_int(n),
        JsonModel::Real(t) => t,
        JsonModel::Str(t) => written_str(t),
        JsonModel::Arr(v) => seq!['['] + written_items(v, pad, v.len()) + (if v.len() > 0 {
            line(pad)
        } else {
            seq![]
        }) + seq![']'],
        JsonModel::Obj(o) => seq!['{'] + written_entries(
            o,
            key_order(o, o.len() as int),
            pad,
            o.len(),
        ) + (if o.len() > 0 {
            line(pad)
        } else {
            seq![]
        }) + seq!['}'],
    }
}

/// The text of the first `n` items of an array.
pub open spec fn written_items(v: Seq<JsonModel>, pad: Option<Seq<char>>, n: nat) -> Seq<char>
    decreases v, n,
{
    if n == 0 || n > v.len() {
        seq![]
    } else {
        written_items(v, pad, (n - 1) as nat) + comma(n) + line(deeper(pad)) + written(
            v[n - 1],
            deeper(pad),
        )
    }
}

/// The text of the first `n` entries of an object in a given order.
pub open spec fn written_entries(
    o: Seq<(Seq<char>, JsonModel)>,
    order: Seq<int>,
    pad: Option<Seq<char>>,
    n: nat,
) -> Seq<char>
    decreases o, n,
{
    if n == 0 || n > order.len() {
        seq![]
    } else {
        let k = order[n - 1];
        written_entries(o, order, pad, (n - 1) as nat) + comma(n) + line(deeper(pad)) + (if 0 <= k
            < o.len() {
            written_str(o[k].0) + colon(pad) + written(o[k].1, deeper(pad))
        } else {
            seq![]
        })
    }
}

fn push_char_escaped(out: &mut String, c: char)
    ensures
        final(out)@ == old(out)@ + escaped_char(c),
{
    let ghost o = out@;
    if c == '"' {
        out.push('\\');
        out.push('"');
    } else if c == '\\' {
        out.push('\\');
        out.push('\\');
    } else if c == '\n' {
        out.push('\\');
        out.push('n');
    } else if c == '\r' {
        out.push('\\');
        out.push('r');
    } else if c == '\t' {
        out.push('\\');
        out.push('t');
    } else if ' ' > c {
        out.push('\\');
        out.push('u');
        let n: u32 = c as u32;
        push_hex4(out, n as u16);
        assert(out@ =~= o + (seq!['\\', 'u'] + hex4(c as int)));
    } else {
        out.push(c);
    }
    assert(out@ =~= o + escaped_char(c));
}

/// Appends a string in quotes.
pub fn write_str(s: &str, out: &mut String)
    ensures
        final(out)@ == old(out)@ + written_str(s@),
{
    let ghost o = out@;
    let v = chars_of(s);
    out.push('"');
    let mut i: usize = 0;
    assert(v@.take(0) =~= seq![]);
    assert(out@ =~= o + (seq!['"'] + escaped(v@.take(0))));
    while i < v.len()
        invariant
            i <= v@.len(),
            out@ == o + (seq!['"'] + escaped(v@.take(i as int))),
        decreases v@.len() - i,
    {
        push_char_escaped(out, v[i]);
        i += 1;
        proof {
            assert(v@.take(i as int).drop_last() =~= v@.take(i - 1));
            assert(out@ =~= o + (seq!['"'] + escaped(v@.take(i as int))));
        }
    }
    assert(v@.take(i as int) =~= s@);
    out.push('"');
    assert(out@ =~= o + written_str(s@));
}

impl JsonModel {
    /// The text of a key.
    pub open spec fn str_field(self, key: Seq<char>) -> Option<Seq<char>> {
        match self.field(key) {
            Some(JsonModel::Str(t)) => Some(t),
            _ => None,
        }
    }

    /// The integer of a key.
    pub open spec fn num_field(self, key: Seq<char>) -> Option<int> {
        match self.field(key) {
            Some(JsonModel::Num(n)) => Some(n),
            _ => None,
        }
    }

    /// The integer of a key, if it is not negative and has at most 64 bits.
    pub open spec fn u64_field(self, key: Seq<char>) -> Option<int> {
        match self.field(key) {
            Some(JsonModel::Num(n)) => if 0 <= n <= u64::MAX {
                Some(n)
            } else {
                None
            },
            _ => None,
        }
    }

    /// The items of a key.
    pub open spec fn arr_field(self, key: Seq<char>) -> Option<Seq<JsonModel>> {
        match self.field(key) {
            Some(JsonModel::Arr(v)) => Some(v),
            _ => None,
        }
    }
}

impl Json {
    /// The text of a key.
    pub fn str_at(&self, key: &str) -> (r: Option<&str>)
        ensures
            match r {
                Some(t) => self@.str_field(key@) == Some(t@),
                None => self@.str_field(key@) is None,
            },
    {
        match self.get(key) {
            Some(v) => v.as_str(),
            None => None,
        }
    }

    /// The integer of a key.
    pub fn num_at(&self, key: &str) -> (r: Option<i128>)
        ensures
            match r {
                Some(n) => self@.num_field(key@) == Some(n as int),
                None => self@.num_field(key@) is None,
            },
    {
        match self.get(key) {
            Some(v) => v.as_num(),
            None => None,
        }
    }

    /// The integer of a key, if it is not negative and has at most 64 bits.
    pub fn u64_at(&self, key: &str) -> (r: Option<u64>)
        ensures
            match r {
                Some(n) => self@.u64_field(key@) == Some(n as int),
                None => self@.u64_field(key@) is None,
            },
    {
        match self.get(key) {
            Some(v) => v.as_u64(),
            None => None,
        }
    }

    /// The items of a key.
    pub fn arr_at(&self, key: &str) -> (r: Option<&Vec<Json>>)
        ensures
            match r {
                Some(v) => self@.arr_field(key@) == Some(items_of(v@)),
                None => self@.arr_field(key@) is None,
            },
    {
        match self.get(key) {
            Some(v) => v.as_arr(),
            None => None,
        }
    }
}

/// The order of an object's entries.
fn order_keys(v: &Vec<(String, Json)>) -> (r: Vec<usize>)
    ensures
        r@.map_values(|k: usize| k as int) == key_order(entries_of(v@), v@.len() as int),
        r@.len() == v@.len(),
        forall|i: int| 0 <= i < r@.len() ==> (#[trigger] r@[i]) < v@.len(),
{
    let ghost o = entries_of(v@);
    let ghost f = |k: usize| k as int;
    let mut r: Vec<usize> = Vec::new();
    let mut i: usize = 0;
    assert(r@.map_values(f) =~= key_order(o, 0));
    while i < v.len()
        invariant
            i <= v@.len(),
            o == entries_of(v@),
            f == (|k: usize| k as int),
            r@.len() == i,
            r@.map_values(f) == key_order(o, i as int),
            forall|j: int| 0 <= j < r@.len() ==> (#[trigger] r@[j]) < i,
        decreases v@.len() - i,
    {
        let mut p: usize = r.len();
        while p > 0 && !at_most(v[r[p - 1]].0.as_str(), v[i].0.as_str())
            invariant
                p <= r@.len(),
                i < v@.len(),
                o == entries_of(v@),
                forall|j: int| 0 <= j < r@.len() ==> (#[trigger] r@[j]) < i,
                forall|j: int|
                    p <= j < r@.len() ==> !text_le(o[(#[trigger] r@[j]) as int].0, o[i as int].0),
            decreases p,
        {
            assert(o[r@[p - 1] as int].0 == v@[r@[p - 1] as int].0@);
            p -= 1;
        }
        let ghost before = r@.map_values(f);
        proof {
            if p > 0 {
                assert(o[r@[p - 1] as int].0 == v@[r@[p - 1] as int].0@);
                assert(before[p - 1] == r@[p - 1]);
            }
            assert forall|j: int| p <= j < before.len() implies !text_le(
                o[#[trigger] before[j]].0,
                o[i as int].0,
            ) by {
                assert(before[j] == r@[j]);
            }
            lemma_key_placed(before, o, i as int, p as int);
        }
        r.insert(p, i);
        i += 1;
        assert(r@.map_values(f) =~= before.insert(p as int, i - 1));
    }
    r
}

proof fn lemma_key_placed(order: Seq<int>, o: Seq<(Seq<char>, JsonModel)>, x: int, p: int)
    requires
        0 <= p <= order.len(),
        p == 0 || text_le(o[order[p - 1]].0, o[x].0),
        forall|j: int| p <= j < order.len() ==> !text_le(o[#[trigger] order[j]].0, o[x].0),
    ensures
        key_placed(order, o, x) == order.insert(p, x),
    decreases order.len(),
{
    if p == order.len() {
        assert(order.insert(p, x) =~= order.push(x));
    } else {
        let t = order.drop_last();
        assert(!text_le(o[order[order.len() - 1]].0, o[x].0));
        assert forall|j: int| p <= j < t.len() implies !text_le(
            o[#[trigger] t[j]].0,
            o[x].0,
        ) by {
            assert(t[j] == order[j]);
        }
        lemma_key_placed(t, o, x, p);
        assert(t.insert(p, x).push(order.last()) =~= order.insert(p, x));
    }
}

/// An indentation that may be given.
pub open spec fn pad_of(pad: Option<String>) -> Option<Seq<char>> {
    match pad {
        Some(p) => Some(p@),
        None => None,
    }
}

fn push_line(out: &mut String, pad: &Option<String>)
    ensures
        final(out)@ == old(out)@ + line(pad_of(*pad)),
{
    let ghost o = out@;
    if let Some(p) = pad {
        out.push('\n');
        push_text(out, p.as_str());
    }
    assert(out@ =~= o + line(pad_of(*pad)));
}

proof fn lemma_six(h: Seq<char>, p: Seq<char>, a: Seq<char>, b: Seq<char>, c: Seq<char>)
    ensures
        h + p + a + b + c == h + (p + a + b + c),
{
    assert(h + p + a + b + c =~= h + (p + a + b + c));
}

/// The text of an object with given entries.
pub open spec fn object_text(o: Seq<(Seq<char>, JsonModel)>, pad: Option<Seq<char>>) -> Seq<char> {
    written(JsonModel::Obj(o), pad)
}

fn write_object(m: &Vec<(String, Json)>, out: &mut String, pad: &Option<String>)
    ensures
        final(out)@ == old(out)@ + object_text(entries_of(m@), pad_of(*pad)),
    decreases m,
{
    let ghost o = out@;
    let ghost pd = pad_of(*pad);
    let ghost es = entries_of(m@);
    let order = order_keys(m);
    let ghost ord = key_order(es, es.len() as int);
    let inner: Option<String> = match pad {
        Some(p) => Some(cat(p.as_str(), "  ")),
        None => None,
    };
    out.push('{');
    let ghost head = o + seq!['{'];
    assert(head + written_entries(es, ord, pd, 0) =~= head);
    let mut i: usize = 0;
    while i < order.len()
        invariant
            i <= order@.len(),
            order@.len() == m@.len(),
            es == entries_of(m@),
            ord == order@.map_values(|k: usize| k as int),
            forall|j: int| 0 <= j < order@.len() ==> (#[trigger] order@[j]) < m@.len(),
            pad_of(inner) == deeper(pd),
            pad_of(*pad) == pd,
            out@ == head + written_entries(es, ord, pd, i as nat),
        decreases order@.len() - i,
    {
        let k: usize = order[i];
        let ghost before = out@;
        let ghost prev = written_entries(es, ord, pd, i as nat);
        assert(ord[i as int] == k);
        assert(es[k as int] == (m@[k as int].0@, m@[k as int].1@));
        if i > 0 {
            out.push(',');
        }
        assert(out@ =~= before + comma((i + 1) as nat));
        push_line(out, &inner);
        let ghost start = out@;
        write_str(m[k].0.as_str(), out);
        out.push(':');
        if pad.is_some() {
            out.push(' ');
        }
        assert(out@ =~= start + (written_str(es[k as int].0) + colon(pd)));
        proof {
            assert(decreases_to!(m => m[k as int]));
            assert(decreases_to!(m[k as int] => m[k as int].1));
        }
        m[k].1.write(out, &inner);
        proof {
            let e = written_str(es[k as int].0) + colon(pd) + written(
                es[k as int].1,
                deeper(pd),
            );
            assert(out@ =~= start + e);
            lemma_six(head, prev, comma((i + 1) as nat), line(deeper(pd)), e);
            assert(out@ == head + written_entries(es, ord, pd, (i + 1) as nat));
        }
        i += 1;
    }
    if m.len() > 0 {
        push_line(out, pad);
    }
    out.push('}');
    assert(out@ =~= o + object_text(es, pd));
}

impl Json {
    /// An empty object.
    pub fn obj() -> (r: Json)
        ensures
            r@ == JsonModel::Obj(seq![]),
    {
        let r = Json::Obj(Vec::new());
        proof {
            lemma_model(r);
            assert(r@->Obj_0 =~= seq![]);
        }
        r
    }

    /// Adds an entry to an object; other values stay as they are.
    pub fn set(&mut self, key: &str, val: Json)
        ensures
            final(self)@ == match old(self)@ {
                JsonModel::Obj(o) => JsonModel::Obj(o.push((key@, val@))),
                other => other,
            },
    {
        let ghost before = *self;
        let mut taken = Json::Null;
        std::mem::swap(&mut taken, self);
        match taken {
            Json::Obj(m) => {
                let mut m = m;
                let ghost es = m@;
                let ghost vm = val@;
                m.push((key.to_string(), val));
                *self = Json::Obj(m);
                proof {
                    lemma_model(before);
                    lemma_model(*self);
                    assert(entries_of(m@) =~= entries_of(es).push((key@, vm)));
                }
            },
            other => {
                *self = other;
            },
        }
    }

    /// The value of a key: that of its first entry.
    pub fn get(&self, key: &str) -> (r: Option<&Json>)
        ensures
            match r {
                Some(v) => self@.field(key@) == Some(v@),
                None => self@.field(key@) is None,
            },
    {
        proof {
            lemma_model(*self);
        }
        if let Json::Obj(m) = self {
            let ghost o = entries_of(m@);
            let mut i: usize = 0;
            while i < m.len()
                invariant
                    i <= m@.len(),
                    o == entries_of(m@),
                    self@ == JsonModel::Obj(o),
                    entry_at(o, key@, 0) == entry_at(o, key@, i as int),
                decreases m@.len() - i,
            {
                assert(o[i as int] == (m@[i as int].0@, m@[i as int].1@));
                if same(m[i].0.as_str(), key) {
                    return Some(&m[i].1);
                }
                i += 1;
            }
            None
        } else {
            None
        }
    }

    pub fn as_str(&self) -> (r: Option<&str>)
        ensures
            match r {
                Some(s) => self@ == JsonModel::Str(s@),
                None => !(self@ is Str),
            },
    {
        match self {
            Json::Str(s) => Some(s.as_str()),
            _ => None,
        }
    }

    /// The value of an integer.
    pub fn as_num(&self) -> (r: Option<i128>)
        ensures
            match r {
                Some(n) => self@ == JsonModel::Num(n as int),
                None => !(self@ is Num),
            },
    {
        match self {
            Json::Num(n) => Some(*n),
            _ => None,
        }
    }

    /// The value of an integer that is not negative and has at most 64 bits.
    pub fn as_u64(&self) -> (r: Option<u64>)
        ensures
            match r {
                Some(n) => self@ == JsonModel::Num(n as int),
                None => !(self@ matches JsonModel::Num(n) && 0 <= n <= u64::MAX),
            },
    {
        match self {
            Json::Num(n) => if *n >= 0 && *n <= u64::MAX as i128 {
                Some(*n as u64)
            } else {
                None
            },
            _ => None,
        }
    }

    pub fn as_arr(&self) -> (r: Option<&Vec<Json>>)
        ensures
            match r {
                Some(v) => self@ == JsonModel::Arr(items_of(v@)),
                None => !(self@ is Arr),
            },
    {
        proof {
            lemma_model(*self);
        }
        match self {
            Json::Arr(a) => Some(a),
            _ => None,
        }
    }

    /// A string.
    pub fn str(s: String) -> (r: Json)
        ensures
            r@ == JsonModel::Str(s@),
    {
        Json::Str(s)
    }

    /// An integer.
    pub fn num(n: i128) -> (r: Json)
        ensures
            r@ == JsonModel::Num(n as int),
    {
        Json::Num(n)
    }

    /// The canonical text: compact, with the keys of objects in order.
    pub fn to_canonical(&self) -> (r: String)
        ensures
            r@ == written(self@, None),
    {
        let mut out = String::new();
        self.write(&mut out, &None);
        assert(out@ =~= written(self@, None));
        out
    }

    /// The text in lines, with the keys of objects in order.
    pub fn to_pretty(&self) -> (r: String)
        ensures
            r@ == written(self@, Some(seq![])),
    {
        let mut out = String::new();
        let pad: Option<String> = Some(String::new());
        assert(pad->0@ =~= seq![]);
        self.write(&mut out, &pad);
        assert(out@ =~= written(self@, Some(seq![])));
        out
    }

    fn write(&self, out: &mut String, pad: &Option<String>)
        ensures
            final(out)@ == old(out)@ + written(self@, pad_of(*pad)),
        decreases self,
    {
        let ghost o = out@;
        let ghost pd = pad_of(*pad);
        proof {
            lemma_model(*self);
        }
        match self {
            Json::Null => {
                push_text(out, "null");
            },
            Json::Bool(b) => {
                if *b {
                    push_text(out, "true");
                } else {
                    push_text(out, "false");
                }
            },
            Json::Num(n) => {
                push_dec_i128(out, *n);
            },
            Json::Real(t) => {
                push_text(out, t.as_str());
            },
            Json::Str(t) => {
                write_str(t.as_str(), out);
            },
            Json::Arr(v) => {
                let ghost ms = items_of(v@);
                let inner: Option<String> = match pad {
                    Some(p) => Some(cat(p.as_str(), "  ")),
                    None => None,
                };
                out.push('[');
                let ghost head = o + seq!['['];
                assert(head + written_items(ms, pd, 0) =~= head);
                let mut i: usize = 0;
                while i < v.len()
                    invariant
                        i <= v@.len(),
                        ms == items_of(v@),
                        self == Json::Arr(*v),
                        pad_of(inner) == deeper(pd),
                        out@ == head + written_items(ms, pd, i as nat),
                    decreases v@.len() - i,
                {
                    assert(ms[i as int] == v@[i as int]@);
                    if i > 0 {
                        out.push(',');
                    }
                    push_line(out, &inner);
                    proof {
                        assert(decreases_to!(self => self->Arr_0));
                        assert(decreases_to!(self->Arr_0 => self->Arr_0[i as int]));
                    }
                    v[i].write(out, &inner);
                    i += 1;
                    assert(out@ =~= head + written_items(ms, pd, i as nat));
                }
                if v.len() > 0 {
                    push_line(out, pad);
                }
                out.push(']');
                assert(out@ =~= o + written(self@, pd));
            },
            Json::Obj(m) => {
                assert(decreases_to!(self => self->Obj_0));
                write_object(m, out, pad);
                assert(out@ =~= o + written(self@, pd));
            },
        }
        assert(out@ =~= o + written(self@, pd));
    }
}

/// What reading from a place gives: a value and the place behind it, a complaint,
/// or nothing at all where a high surrogate stands before an escape that is no low
/// one.
pub enum Step<T> {
    Got(T, int),
    Bad(Seq<char>),
    Stuck,
}

/// How many bytes the UTF-8 encoding of a text has.
pub open spec fn span(s: Seq<char>) -> nat
    decreases s.len(),
{
    if s.len() == 0 {
        0
    } else {
        encode_scalar(s[0] as u32).len() + span(s.drop_first())
    }
}

/// How many bytes stand before a place.
pub open spec fn byte_pos(s: Seq<char>, i: int) -> int {
    span(s) - span(s.skip(i))
}

proof fn lemma_span(s: Seq<char>)
    ensures
        span(s) == encode_utf8(s).len(),
    decreases s.len(),
{
    if s.len() > 0 {
        lemma_span(s.drop_first());
    }
}

proof fn lemma_span_step(s: Seq<char>, i: int)
    requires
        0 <= i < s.len(),
    ensures
        span(s.skip(i)) == encode_scalar(s[i] as u32).len() + span(s.skip(i + 1)),
        byte_pos(s, i + 1) == byte_pos(s, i) + encode_scalar(s[i] as u32).len(),
{
    assert(s.skip(i).drop_first() =~= s.skip(i + 1));
    assert(s.skip(i)[0] == s[i]);
}

proof fn lemma_span_bound(s: Seq<char>, i: int)
    requires
        0 <= i <= s.len(),
    ensures
        span(s.skip(i)) + i <= span(s),
        0 <= byte_pos(s, i) <= span(s),
        i < s.len() ==> byte_pos(s, i) < span(s),
    decreases i,
{
    if i > 0 {
        lemma_span_bound(s, i - 1);
        lemma_span_step(s, i - 1);
    } else {
        assert(s.skip(0) =~= s);
    }
    if i < s.len() {
        lemma_span_step(s, i);
    }
}

pub open spec fn blank(c: char) -> bool {
    c == ' ' || c == '\t' || c == '\n' || c == '\r'
}

/// The first place from `i` on that is not blank.
pub open spec fn skip_blank(s: Seq<char>, i: int) -> int
    decreases s.len() - i,
{
    if 0 <= i < s.len() && blank(s[i]) {
        skip_blank(s, i + 1)
    } else {
        i
    }
}

pub proof fn lemma_skip(s: Seq<char>, i: int)
    ensures
        i <= skip_blank(s, i),
        0 <= i <= s.len() ==> skip_blank(s, i) <= s.len(),
        0 <= i <= s.len() && skip_blank(s, i) < s.len() ==> !blank(s[skip_blank(s, i)]),
    decreases s.len() - i,
{
    if 0 <= i < s.len() && blank(s[i]) {
        lemma_skip(s, i + 1);
    }
}

pub open spec fn ended() -> Seq<char> {
    "unexpected end of input"@
}

/// `what` and the number of bytes before place `i`.
pub open spec fn complaint(what: Seq<char>, s: Seq<char>, i: int) -> Seq<char> {
    what + dec(byte_pos(s, i) as nat)
}

/// The byte at place `i` as a character of its own.
pub open spec fn byte_char(s: Seq<char>, i: int) -> char {
    encode_utf8(s)[byte_pos(s, i)] as char
}

/// A number that is the code of a character.
pub open spec fn is_scalar_value(n: int) -> bool {
    0 <= n < 0xd800 || 0xe000 <= n <= 0x10ffff
}

/// `char::from_u32` gives the character of a number, where there is one.
pub assume_specification[ char::from_u32 ](i: u32) -> (r: Option<char>)
    ensures
        r == if is_scalar_value(i as int) {
            Some(i as char)
        } else {
            None
        },
;

/// The character of a number, or the replacement character.
pub open spec fn scalar(n: int) -> char {
    if is_scalar_value(n) {
        (n as u32) as char
    } else {
        '\u{fffd}'
    }
}

pub open spec fn bad_escape() -> Seq<char> {
    "bad \\u escape"@
}

/// The number of the four bytes from place `k` on, which are hexadecimal digits.
pub open spec fn quad(s: Seq<char>, k: int) -> Step<int> {
    let b = encode_utf8(s);
    let p = byte_pos(s, k);
    if p + 4 > b.len() {
        Step::Bad(bad_escape())
    } else if k + 4 <= s.len() && forall|j: int|
        k <= j < k + 4 ==> encode_scalar(#[trigger] s[j] as u32).len() == 1 {
        match number(s.subrange(k, k + 4), 16, 0xffff_ffff) {
            Some(v) => Step::Got(v, k + 4),
            None => Step::Bad(bad_escape()),
        }
    } else {
        let four = b.subrange(p, p + 4);
        if valid_utf8(four) {
            Step::Bad(bad_escape())
        } else {
            Step::Bad(utf8_error(four))
        }
    }
}

/// The character of an escape with a number, whose digits start at place `k`. Two
/// surrogates make one character.
pub open spec fn unicode(s: Seq<char>, k: int) -> Step<char> {
    match quad(s, k) {
        Step::Bad(e) => Step::Bad(e),
        Step::Stuck => Step::Stuck,
        Step::Got(cp, n) => if 0xd800 <= cp < 0xdc00 {
            if n + 1 < s.len() && s[n] == '\\' && s[n + 1] == 'u' {
                if byte_pos(s, n + 2) + 4 > encode_utf8(s).len() {
                    Step::Stuck
                } else {
                    match quad(s, n + 2) {
                        Step::Bad(e) => Step::Bad(e),
                        Step::Stuck => Step::Stuck,
                        Step::Got(lo, m) => if lo < 0xdc00 {
                            Step::Stuck
                        } else {
                            Step::Got(
                                scalar(0x10000 + (cp - 0xd800) * 1024 + (lo - 0xdc00)),
                                m,
                            )
                        },
                    }
                }
            } else {
                Step::Got('\u{fffd}', n)
            }
        } else {
            Step::Got(scalar(cp), n)
        },
    }
}

/// The character of a short escape.
pub open spec fn short_escape(e: char) -> Option<char> {
    if e == '"' {
        Some('"')
    } else if e == '\\' {
        Some('\\')
    } else if e == '/' {
        Some('/')
    } else if e == 'n' {
        Some('\n')
    } else if e == 'r' {
        Some('\r')
    } else if e == 't' {
        Some('\t')
    } else if e == 'b' {
        Some('\u{8}')
    } else if e == 'f' {
        Some('\u{c}')
    } else {
        None
    }
}

/// The rest of a string from place `i` on, behind what was read of it.
pub open spec fn chars_from(s: Seq<char>, i: int, acc: Seq<char>) -> Step<Seq<char>>
    decreases s.len() - i,
{
    if i < 0 || i >= s.len() {
        Step::Bad(ended())
    } else if s[i] == '"' {
        Step::Got(acc, i + 1)
    } else if s[i] == '\\' {
        if i + 1 >= s.len() {
            Step::Bad(ended())
        } else if s[i + 1] == 'u' {
            match unicode(s, i + 2) {
                Step::Got(c, n) if n > i => chars_from(s, n, acc.push(c)),
                Step::Bad(e) => Step::Bad(e),
                _ => Step::Stuck,
            }
        } else {
            match short_escape(s[i + 1]) {
                Some(c) => chars_from(s, i + 2, acc.push(c)),
                None => Step::Bad(
                    "bad escape at byte "@ + dec((byte_pos(s, i + 1) + 1) as nat),
                ),
            }
        }
    } else {
        chars_from(s, i + 1, acc.push(s[i]))
    }
}

/// The string at place `i`.
pub open spec fn string_at(s: Seq<char>, i: int) -> Step<Seq<char>> {
    if i < 0 || i >= s.len() {
        Step::Bad(ended())
    } else if s[i] != '"' {
        Step::Bad(complaint("expected string at byte "@, s, i))
    } else {
        chars_from(s, i + 1, seq![])
    }
}

pub open spec fn digit(c: char) -> bool {
    '0' <= c <= '9'
}

pub open spec fn number_char(c: char) -> bool {
    digit(c) || c == '.' || c == 'e' || c == 'E' || c == '+' || c == '-'
}

/// The first place from `i` on that holds no character of a number.
pub open spec fn number_end(s: Seq<char>, i: int) -> int
    decreases s.len() - i,
{
    if 0 <= i < s.len() && number_char(s[i]) {
        number_end(s, i + 1)
    } else {
        i
    }
}

/// The first place from `i` on that holds no digit.
pub open spec fn digits_end(s: Seq<char>, i: int) -> int
    decreases s.len() - i,
{
    if 0 <= i < s.len() && digit(s[i]) {
        digits_end(s, i + 1)
    } else {
        i
    }
}

/// The place behind a sign.
pub open spec fn sign_end(t: Seq<char>, i: int) -> int {
    if 0 <= i < t.len() && (t[i] == '+' || t[i] == '-') {
        i + 1
    } else {
        i
    }
}

/// A sign, digits with a point before, between or behind them, and an exponent.
pub open spec fn is_decimal(t: Seq<char>) -> bool {
    let a = sign_end(t, 0);
    let b = digits_end(t, a);
    let dot = b < t.len() && t[b] == '.';
    let c = if dot {
        b + 1
    } else {
        b
    };
    let d = if dot {
        digits_end(t, c)
    } else {
        c
    };
    let e = sign_end(t, d + 1);
    (b - a) + (d - c) >= 1 && (d == t.len() || ((t[d] == 'e' || t[d] == 'E') && e < t.len()
        && digits_end(t, e) == t.len()))
}

/// The integer that a text stands for, where it is one of 128 bits.
pub open spec fn integer(t: Seq<char>) -> Option<int> {
    let a = sign_end(t, 0);
    let minus = t.len() > 0 && t[0] == '-';
    if a >= t.len() {
        None
    } else {
        match digits_value(t.skip(a), 10) {
            Some(v) => if minus && v <= 0x8000_0000_0000_0000_0000_0000_0000_0000 {
                Some(-v)
            } else if !minus && v < 0x8000_0000_0000_0000_0000_0000_0000_0000 {
                Some(v)
            } else {
                None
            },
            None => None,
        }
    }
}

/// What a text of a number is: an integer where its value is one of 128 bits, and else
/// the decimal without an exponent.
pub open spec fn number_of(t: Seq<char>) -> Option<JsonModel> {
    match integer(t) {
        Some(n) => Some(JsonModel::Num(n)),
        None => if is_decimal(t) {
            match integer(decimal_text(t)) {
                Some(n) => Some(JsonModel::Num(n)),
                None => Some(JsonModel::Real(decimal_text(t))),
            }
        } else {
            None
        },
    }
}

/// The number at place `i`.
pub open spec fn number_at(s: Seq<char>, i: int) -> Step<JsonModel> {
    let e = number_end(s, i);
    let t = s.subrange(i, e);
    match number_of(t) {
        Some(m) => Step::Got(m, e),
        None => Step::Bad(complaint("invalid number '"@ + t + "' at byte "@, s, i)),
    }
}

/// A word at place `i`.
pub open spec fn word_at(s: Seq<char>, i: int, word: Seq<char>, m: JsonModel) -> Step<JsonModel> {
    if i + word.len() <= s.len() && s.subrange(i, i + word.len()) == word {
        Step::Got(m, i + word.len())
    } else {
        Step::Bad(complaint("invalid literal at byte "@, s, i))
    }
}

/// The value at place `i`, behind blanks.
pub open spec fn value_at(s: Seq<char>, i: int) -> Step<JsonModel>
    decreases s.len() - i, 0nat,
{
    let j = skip_blank(s, i);
    proof {
        lemma_skip(s, i);
    }
    if i < 0 || j >= s.len() {
        Step::Bad(ended())
    } else if s[j] == '{' {
        object_at(s, j + 1)
    } else if s[j] == '[' {
        array_at(s, j + 1)
    } else if s[j] == '"' {
        match string_at(s, j) {
            Step::Got(t, n) => Step::Got(JsonModel::Str(t), n),
            Step::Bad(e) => Step::Bad(e),
            Step::Stuck => Step::Stuck,
        }
    } else if s[j] == 't' {
        word_at(s, j, "true"@, JsonModel::Bool(true))
    } else if s[j] == 'f' {
        word_at(s, j, "false"@, JsonModel::Bool(false))
    } else if s[j] == 'n' {
        word_at(s, j, "null"@, JsonModel::Null)
    } else {
        number_at(s, j)
    }
}

/// The array whose opening bracket stands before place `i`.
pub open spec fn array_at(s: Seq<char>, i: int) -> Step<JsonModel>
    decreases s.len() - i, 2nat,
{
    let j = skip_blank(s, i);
    proof {
        lemma_skip(s, i);
    }
    if j >= s.len() {
        Step::Bad(ended())
    } else if s[j] == ']' {
        Step::Got(JsonModel::Arr(seq![]), j + 1)
    } else {
        items_from(s, j, seq![])
    }
}

/// The rest of an array from place `k` on, behind its first items.
pub open spec fn items_from(s: Seq<char>, k: int, acc: Seq<JsonModel>) -> Step<JsonModel>
    decreases s.len() - k, 1nat,
{
    match value_at(s, k) {
        Step::Bad(e) => Step::Bad(e),
        Step::Stuck => Step::Stuck,
        Step::Got(v, n) => {
            let m = skip_blank(s, n);
            proof {
                lemma_skip(s, n);
            }
            if n <= k {
                Step::Stuck
            } else if m >= s.len() {
                Step::Bad(ended())
            } else if s[m] == ',' {
                items_from(s, m + 1, acc.push(v))
            } else if s[m] == ']' {
                Step::Got(JsonModel::Arr(acc.push(v)), m + 1)
            } else {
                Step::Bad(
                    complaint(
                        "unexpected '"@ + seq![byte_char(s, m)] + "' in array at byte "@,
                        s,
                        m,
                    ),
                )
            }
        },
    }
}

/// The object whose opening bracket stands before place `i`.
pub open spec fn object_at(s: Seq<char>, i: int) -> Step<JsonModel>
    decreases s.len() - i, 2nat,
{
    let j = skip_blank(s, i);
    proof {
        lemma_skip(s, i);
    }
    if j >= s.len() {
        Step::Bad(ended())
    } else if s[j] == '}' {
        Step::Got(JsonModel::Obj(seq![]), j + 1)
    } else {
        entries_from(s, j, seq![])
    }
}

/// The rest of an object from place `k` on, behind its first entries.
pub open spec fn entries_from(
    s: Seq<char>,
    k: int,
    acc: Seq<(Seq<char>, JsonModel)>,
) -> Step<JsonModel>
    decreases s.len() - k, 1nat,
{
    let j = skip_blank(s, k);
    proof {
        lemma_skip(s, k);
    }
    match string_at(s, j) {
        Step::Bad(e) => Step::Bad(e),
        Step::Stuck => Step::Stuck,
        Step::Got(key, n) => {
            let c = skip_blank(s, n);
            proof {
                lemma_skip(s, n);
            }
            if n <= j {
                Step::Stuck
            } else if c >= s.len() {
                Step::Bad(ended())
            } else if s[c] != ':' {
                Step::Bad(complaint("expected ':' at byte "@, s, c))
            } else {
                match value_at(s, c + 1) {
                    Step::Bad(e) => Step::Bad(e),
                    Step::Stuck => Step::Stuck,
                    Step::Got(v, e) => {
                        let m = skip_blank(s, e);
                        proof {
                            lemma_skip(s, e);
                        }
                        if e <= c {
                            Step::Stuck
                        } else if m >= s.len() {
                            Step::Bad(ended())
                        } else if s[m] == ',' {
                            entries_from(s, m + 1, acc.push((key, v)))
                        } else if s[m] == '}' {
                            Step::Got(JsonModel::Obj(acc.push((key, v))), m + 1)
                        } else {
                            Step::Bad(
                                complaint(
                                    "unexpected '"@ + seq![byte_char(s, m)]
                                        + "' in object at byte "@,
                                    s,
                                    m,
                                ),
                            )
                        }
                    },
                }
            }
        },
    }
}

/// The value of a whole text.
pub open spec fn parsed(s: Seq<char>) -> Step<JsonModel> {
    match value_at(s, 0) {
        Step::Got(m, n) => {
            let e = skip_blank(s, n);
            if e == s.len() {
                Step::Got(m, e)
            } else {
                Step::Bad(complaint("trailing data at byte "@, s, e))
            }
        },
        other => other,
    }
}

proof fn lemma_chars_advance(s: Seq<char>, i: int, acc: Seq<char>)
    ensures
        chars_from(s, i, acc) matches Step::Got(_, n) ==> n > i,
    decreases s.len() - i,
{
    if 0 <= i < s.len() && s[i] != '"' {
        if s[i] == '\\' {
            if i + 1 < s.len() {
                if s[i + 1] == 'u' {
                    if let Step::Got(c, n) = unicode(s, i + 2) {
                        if n > i {
                            lemma_chars_advance(s, n, acc.push(c));
                        }
                    }
                } else if let Some(c) = short_escape(s[i + 1]) {
                    lemma_chars_advance(s, i + 2, acc.push(c));
                }
            }
        } else {
            lemma_chars_advance(s, i + 1, acc.push(s[i]));
        }
    }
}

proof fn lemma_items_advance(s: Seq<char>, k: int, acc: Seq<JsonModel>)
    ensures
        items_from(s, k, acc) matches Step::Got(_, n) ==> n > k,
    decreases s.len() - k,
{
    if let Step::Got(v, n) = value_at(s, k) {
        lemma_skip(s, n);
        let m = skip_blank(s, n);
        if n > k && m < s.len() && s[m] == ',' {
            lemma_items_advance(s, m + 1, acc.push(v));
        }
    }
}

proof fn lemma_entries_advance(s: Seq<char>, k: int, acc: Seq<(Seq<char>, JsonModel)>)
    ensures
        entries_from(s, k, acc) matches Step::Got(_, n) ==> n > k,
    decreases s.len() - k,
{
    let j = skip_blank(s, k);
    lemma_skip(s, k);
    if let Step::Got(key, n) = string_at(s, j) {
        let c = skip_blank(s, n);
        lemma_skip(s, n);
        if n > j && c < s.len() && s[c] == ':' {
            if let Step::Got(v, e) = value_at(s, c + 1) {
                let m = skip_blank(s, e);
                lemma_skip(s, e);
                if e > c && m < s.len() && s[m] == ',' {
                    lemma_entries_advance(s, m + 1, acc.push((key, v)));
                }
            }
        }
    }
}

proof fn lemma_number_reach(s: Seq<char>, i: int)
    ensures
        number_end(s, i) >= i,
    decreases s.len() - i,
{
    if number_end(s, i) != i {
        lemma_number_reach(s, i + 1);
    }
}

proof fn lemma_number_advances(s: Seq<char>, i: int)
    requires
        0 <= i < s.len(),
    ensures
        number_at(s, i) matches Step::Got(_, n) ==> n > i,
{
    let e = number_end(s, i);
    lemma_number_reach(s, i);
    if e <= i {
        let t = s.subrange(i, e);
        assert(t.len() == 0);
        assert(integer(t) is None);
        assert(!is_decimal(t));
    }
}

/// Reading a value moves on.
proof fn lemma_advances(s: Seq<char>, i: int)
    ensures
        value_at(s, i) matches Step::Got(_, n) ==> n > i,
{
    let j = skip_blank(s, i);
    lemma_skip(s, i);
    if 0 <= i && j < s.len() {
        lemma_skip(s, j + 1);
        let k = skip_blank(s, j + 1);
        lemma_items_advance(s, k, seq![]);
        lemma_entries_advance(s, k, seq![]);
        lemma_chars_advance(s, j + 1, seq![]);
        lemma_number_advances(s, j);
        reveal_strlit("true");
        reveal_strlit("false");
        reveal_strlit("null");
    }
}

struct Parser {
    chars: Vec<char>,
    raw: Vec<u8>,
    i: usize,
    b: usize,
}

fn width(c: char) -> (r: usize)
    ensures
        r == encode_scalar(c as u32).len(),
        1 <= r <= 4,
{
    let n: u32 = c as u32;
    if n <= 0x7f {
        1
    } else if n <= 0x7ff {
        2
    } else if n <= 0xffff {
        3
    } else {
        4
    }
}

pub(crate) fn digits_run(t: &Vec<char>, i: usize) -> (r: usize)
    requires
        i <= t@.len(),
    ensures
        r == digits_end(t@, i as int),
        i <= r <= t@.len(),
{
    let mut k: usize = i;
    while k < t.len() && '0' <= t[k] && t[k] <= '9'
        invariant
            i <= k <= t@.len(),
            digits_end(t@, i as int) == digits_end(t@, k as int),
        decreases t@.len() - k,
    {
        k += 1;
    }
    k
}

pub(crate) fn sign_run(t: &Vec<char>, i: usize) -> (r: usize)
    requires
        i <= t@.len(),
    ensures
        r == sign_end(t@, i as int),
        i <= r <= t@.len(),
{
    if i < t.len() && (t[i] == '+' || t[i] == '-') {
        i + 1
    } else {
        i
    }
}

fn decimal(t: &Vec<char>) -> (r: bool)
    ensures
        r == is_decimal(t@),
{
    let a: usize = sign_run(t, 0);
    let b: usize = digits_run(t, a);
    let dot = b < t.len() && t[b] == '.';
    let c: usize = if dot {
        b + 1
    } else {
        b
    };
    let d: usize = if dot {
        digits_run(t, c)
    } else {
        c
    };
    if b == a && d == c {
        return false;
    }
    if d == t.len() {
        return true;
    }
    if t[d] != 'e' && t[d] != 'E' {
        return false;
    }
    let e: usize = sign_run(t, d + 1);
    e < t.len() && digits_run(t, e) == t.len()
}

/// The integer that a text stands for, where it is one of 128 bits.
pub(crate) fn read_integer(t: &Vec<char>) -> (r: Option<i128>)
    ensures
        match r {
            Some(n) => integer(t@) == Some(n as int),
            None => integer(t@) is None,
        },
{
    let a: usize = sign_run(t, 0);
    if a >= t.len() {
        return None;
    }
    let minus = t[0] == '-';
    let half: u128 = 0x8000_0000_0000_0000_0000_0000_0000_0000;
    match digits_from(t, a, half) {
        None => None,
        Some(v) => if minus {
            if v == half {
                Some(i128::MIN)
            } else {
                Some(0 - v as i128)
            }
        } else if v < half {
            Some(v as i128)
        } else {
            None
        },
    }
}

impl Parser {
    spec fn wf(&self) -> bool {
        &&& self.i <= self.chars@.len()
        &&& self.raw@ == encode_utf8(self.chars@)
        &&& self.b == byte_pos(self.chars@, self.i as int)
    }

    /// Passes one character.
    fn step(&mut self)
        requires
            old(self).wf(),
            old(self).i < old(self).chars@.len(),
        ensures
            final(self).wf(),
            final(self).chars == old(self).chars,
            final(self).i == old(self).i + 1,
    {
        proof {
            lemma_span(self.chars@);
            lemma_span_step(self.chars@, self.i as int);
            lemma_span_bound(self.chars@, self.i + 1);
        }
        let n: usize = self.raw.len();
        let w: usize = width(self.chars[self.i]);
        assert(self.b + w <= n);
        self.b = self.b + w;
        self.i = self.i + 1;
    }

    fn skip(&mut self)
        requires
            old(self).wf(),
        ensures
            final(self).wf(),
            final(self).chars == old(self).chars,
            final(self).i == skip_blank(old(self).chars@, old(self).i as int),
    {
        while self.i < self.chars.len() && (self.chars[self.i] == ' ' || self.chars[self.i] == '\t'
            || self.chars[self.i] == '\n' || self.chars[self.i] == '\r')
            invariant
                self.wf(),
                self.chars == old(self).chars,
                skip_blank(self.chars@, self.i as int) == skip_blank(
                    old(self).chars@,
                    old(self).i as int,
                ),
            decreases self.chars@.len() - self.i,
        {
            self.step();
        }
    }

    /// `what` and the number of bytes before the place.
    fn complain(&self, what: &str) -> (r: String)
        requires
            self.wf(),
        ensures
            r@ == complaint(what@, self.chars@, self.i as int),
    {
        cat_dec(what, self.b as u64)
    }

    /// A complaint about the byte at the place.
    fn unexpected(&self, inside: &str) -> (r: String)
        requires
            self.wf(),
            self.i < self.chars@.len(),
        ensures
            r@ == complaint(
                "unexpected '"@ + seq![byte_char(self.chars@, self.i as int)] + inside@,
                self.chars@,
                self.i as int,
            ),
    {
        proof {
            lemma_span(self.chars@);
            lemma_span_bound(self.chars@, self.i as int);
        }
        let mut t = "unexpected '".to_string();
        let byte: u8 = self.raw[self.b];
        t.push(byte as char);
        push_text(&mut t, inside);
        assert(t@ =~= "unexpected '"@ + seq![byte_char(self.chars@, self.i as int)] + inside@);
        push_dec(&mut t, self.b as u64);
        t
    }

    fn quad(&mut self) -> (r: Result<u32, String>)
        requires
            old(self).wf(),
        ensures
            final(self).wf(),
            final(self).chars == old(self).chars,
            match r {
                Ok(v) => quad(old(self).chars@, old(self).i as int) == Step::Got(
                    v as int,
                    final(self).i as int,
                ),
                Err(e) => quad(old(self).chars@, old(self).i as int) == Step::<int>::Bad(e@),
            },
    {
        let ghost s = self.chars@;
        let ghost k = self.i as int;
        proof {
            lemma_span(s);
            lemma_span_bound(s, k);
        }
        let n: usize = self.raw.len();
        if n - self.b < 4 {
            return Err("bad \\u escape".to_string());
        }
        let start: usize = self.i;
        let mut ascii = self.chars.len() - self.i >= 4;
        if ascii {
            ascii = width(self.chars[start]) == 1 && width(self.chars[start + 1]) == 1 && width(
                self.chars[start + 2],
            ) == 1 && width(self.chars[start + 3]) == 1;
        }
        if ascii {
            let t = sub_string(&self.chars, start, start + 4);
            match parse_number(t.as_str(), 16, 0xffff_ffff) {
                Some(v) => {
                    self.step();
                    self.step();
                    self.step();
                    self.step();
                    Ok(v as u32)
                },
                None => Err("bad \\u escape".to_string()),
            }
        } else {
            proof {
                if k + 4 <= s.len() && (forall|j: int|
                    k <= j < k + 4 ==> encode_scalar(#[trigger] s[j] as u32).len() == 1) {
                    assert(encode_scalar(s[k] as u32).len() == 1);
                    assert(encode_scalar(s[k + 1] as u32).len() == 1);
                    assert(encode_scalar(s[k + 2] as u32).len() == 1);
                    assert(encode_scalar(s[k + 3] as u32).len() == 1);
                }
            }
            let four = vstd::slice::slice_subrange(self.raw.as_slice(), self.b, self.b + 4);
            match read_utf8(four) {
                Err(e) => Err(e),
                Ok(_) => Err("bad \\u escape".to_string()),
            }
        }
    }

    fn unicode(&mut self) -> (r: Result<char, Option<String>>)
        requires
            old(self).wf(),
        ensures
            final(self).wf(),
            final(self).chars == old(self).chars,
            match r {
                Ok(c) => unicode(old(self).chars@, old(self).i as int) == Step::Got(
                    c,
                    final(self).i as int,
                ),
                Err(Some(e)) => unicode(old(self).chars@, old(self).i as int) == Step::<char>::Bad(e@),
                Err(None) => unicode(old(self).chars@, old(self).i as int) is Stuck,
            },
    {
        let cp: u32 = match self.quad() {
            Ok(v) => v,
            Err(e) => {
                return Err(Some(e));
            },
        };
        if !(0xd800 <= cp && cp < 0xdc00) {
            return Ok(
                match char::from_u32(cp) {
                    Some(c) => c,
                    None => '\u{fffd}',
                },
            );
        }
        if self.chars.len() - self.i >= 2 && self.chars[self.i] == '\\' && self.chars[self.i + 1]
            == 'u' {
            self.step();
            self.step();
            proof {
                lemma_span(self.chars@);
                lemma_span_bound(self.chars@, self.i as int);
            }
            if self.raw.len() - self.b < 4 {
                return Err(None);
            }
            let lo: u32 = match self.quad() {
                Ok(v) => v,
                Err(e) => {
                    return Err(Some(e));
                },
            };
            if lo < 0xdc00 {
                return Err(None);
            }
            let low: u64 = (lo - 0xdc00) as u64;
            let n: u64 = 0x10000 + (cp - 0xd800) as u64 * 1024 + low;
            if n > 0x10ffff {
                return Ok('\u{fffd}');
            }
            return Ok(
                match char::from_u32(n as u32) {
                    Some(c) => c,
                    None => '\u{fffd}',
                },
            );
        }
        Ok('\u{fffd}')
    }

    fn string(&mut self) -> (r: Result<String, Option<String>>)
        requires
            old(self).wf(),
        ensures
            final(self).wf(),
            final(self).chars == old(self).chars,
            match r {
                Ok(t) => string_at(old(self).chars@, old(self).i as int) == Step::Got(
                    t@,
                    final(self).i as int,
                ),
                Err(Some(e)) => string_at(old(self).chars@, old(self).i as int) == Step::<Seq<char>>::Bad(e@),
                Err(None) => string_at(old(self).chars@, old(self).i as int) is Stuck,
            },
    {
        if self.i >= self.chars.len() {
            return Err(Some("unexpected end of input".to_string()));
        }
        if self.chars[self.i] != '"' {
            return Err(Some(self.complain("expected string at byte ")));
        }
        let ghost whole = string_at(self.chars@, self.i as int);
        self.step();
        let mut out = String::new();
        assert(out@ =~= seq![]);
        while self.i < self.chars.len()
            invariant
                self.wf(),
                self.chars == old(self).chars,
                whole == string_at(old(self).chars@, old(self).i as int),
                whole == chars_from(self.chars@, self.i as int, out@),
            decreases self.chars@.len() - self.i,
        {
            let c: char = self.chars[self.i];
            self.step();
            if c == '"' {
                return Ok(out);
            }
            if c == '\\' {
                if self.i >= self.chars.len() {
                    return Err(Some("unexpected end of input".to_string()));
                }
                let e: char = self.chars[self.i];
                if e == 'u' {
                    self.step();
                    match self.unicode() {
                        Ok(x) => {
                            out.push(x);
                        },
                        Err(m) => {
                            return Err(m);
                        },
                    }
                } else {
                    let x: char = if e == '"' {
                        '"'
                    } else if e == '\\' {
                        '\\'
                    } else if e == '/' {
                        '/'
                    } else if e == 'n' {
                        '\n'
                    } else if e == 'r' {
                        '\r'
                    } else if e == 't' {
                        '\t'
                    } else if e == 'b' {
                        '\u{8}'
                    } else if e == 'f' {
                        '\u{c}'
                    } else {
                        proof {
                            lemma_span(self.chars@);
                            lemma_span_bound(self.chars@, self.i as int);
                        }
                        let n: usize = self.raw.len();
                        assert(self.b < n);
                        return Err(Some(cat_dec("bad escape at byte ", (self.b + 1) as u64)));
                    };
                    self.step();
                    out.push(x);
                }
            } else {
                out.push(c);
            }
        }
        Err(Some("unexpected end of input".to_string()))
    }

    fn number(&mut self) -> (r: Result<Json, String>)
        requires
            old(self).wf(),
        ensures
            final(self).wf(),
            final(self).chars == old(self).chars,
            match r {
                Ok(j) => number_at(old(self).chars@, old(self).i as int) == Step::Got(
                    j@,
                    final(self).i as int,
                ),
                Err(e) => number_at(old(self).chars@, old(self).i as int) == Step::<JsonModel>::Bad(
                    e@,
                ),
            },
    {
        let ghost s = self.chars@;
        let start: usize = self.i;
        let first: usize = self.b;
        let mut t: Vec<char> = Vec::new();
        assert(t@ =~= s.subrange(start as int, start as int));
        while self.i < self.chars.len() && is_number_char(self.chars[self.i])
            invariant
                self.wf(),
                s == self.chars@,
                self.chars == old(self).chars,
                start <= self.i,
                number_end(s, start as int) == number_end(s, self.i as int),
                t@ == s.subrange(start as int, self.i as int),
            decreases self.chars@.len() - self.i,
        {
            t.push(self.chars[self.i]);
            self.step();
            assert(t@ =~= s.subrange(start as int, self.i as int));
        }
        match read_integer(&t) {
            Some(n) => Ok(Json::Num(n)),
            None => {
                if decimal(&t) {
                    let d = to_decimal_text(&t);
                    match read_integer(&d) {
                        Some(n) => Ok(Json::Num(n)),
                        None => {
                            let text = sub_string(&d, 0, d.len());
                            assert(text@ =~= d@);
                            Ok(Json::Real(text))
                        },
                    }
                } else {
                    let text = sub_string(&t, 0, t.len());
                    assert(text@ =~= t@);
                    let mut e = cat("invalid number '", text.as_str());
                    push_text(&mut e, "' at byte ");
                    push_dec(&mut e, first as u64);
                    Err(e)
                }
            },
        }
    }

    fn word(&mut self, word: &str, v: Json) -> (r: Result<Json, String>)
        requires
            old(self).wf(),
        ensures
            final(self).wf(),
            final(self).chars == old(self).chars,
            match r {
                Ok(j) => word_at(old(self).chars@, old(self).i as int, word@, v@) == Step::Got(
                    j@,
                    final(self).i as int,
                ),
                Err(e) => word_at(old(self).chars@, old(self).i as int, word@, v@) == Step::<
                    JsonModel,
                >::Bad(e@),
            },
    {
        let w = chars_of(word);
        let n: usize = w.len();
        let start: usize = self.i;
        let ghost s = self.chars@;
        let len: usize = self.chars.len();
        if len - start < n {
            return Err(self.complain("invalid literal at byte "));
        }
        let mut k: usize = 0;
        while k < n
            invariant
                k <= n,
                n == w@.len(),
                w@ == word@,
                s == self.chars@,
                self.wf(),
                self.i == start,
                *self == *old(self),
                start + n <= len,
                len == s.len(),
                forall|j: int| 0 <= j < k ==> s[start + j] == #[trigger] w@[j],
            decreases n - k,
        {
            if self.chars[start + k] != w[k] {
                proof {
                    let cut = s.subrange(start as int, start + n);
                    assert(cut[k as int] != w@[k as int]);
                }
                return Err(self.complain("invalid literal at byte "));
            }
            k += 1;
        }
        assert(s.subrange(start as int, start + n) =~= w@);
        let mut m: usize = 0;
        while m < n
            invariant
                m <= n,
                self.wf(),
                self.chars == old(self).chars,
                s == self.chars@,
                self.i == start + m,
                start + n <= s.len(),
            decreases n - m,
        {
            self.step();
            m += 1;
        }
        Ok(v)
    }

    fn value(&mut self) -> (r: Result<Json, Option<String>>)
        requires
            old(self).wf(),
        ensures
            final(self).wf(),
            final(self).chars == old(self).chars,
            match r {
                Ok(j) => value_at(old(self).chars@, old(self).i as int) == Step::Got(
                    j@,
                    final(self).i as int,
                ),
                Err(Some(e)) => value_at(old(self).chars@, old(self).i as int) == Step::<JsonModel>::Bad(e@),
                Err(None) => value_at(old(self).chars@, old(self).i as int) is Stuck,
            },
        decreases old(self).chars@.len() - old(self).i, 0nat,
    {
        proof {
            lemma_skip(self.chars@, self.i as int);
        }
        self.skip();
        if self.i >= self.chars.len() {
            return Err(Some("unexpected end of input".to_string()));
        }
        let c: char = self.chars[self.i];
        if c == '{' {
            self.step();
            self.object()
        } else if c == '[' {
            self.step();
            self.array()
        } else if c == '"' {
            match self.string() {
                Ok(t) => Ok(Json::Str(t)),
                Err(e) => Err(e),
            }
        } else if c == 't' {
            match self.word("true", Json::Bool(true)) {
                Ok(j) => Ok(j),
                Err(e) => Err(Some(e)),
            }
        } else if c == 'f' {
            match self.word("false", Json::Bool(false)) {
                Ok(j) => Ok(j),
                Err(e) => Err(Some(e)),
            }
        } else if c == 'n' {
            match self.word("null", Json::Null) {
                Ok(j) => Ok(j),
                Err(e) => Err(Some(e)),
            }
        } else {
            match self.number() {
                Ok(j) => Ok(j),
                Err(e) => Err(Some(e)),
            }
        }
    }

    fn array(&mut self) -> (r: Result<Json, Option<String>>)
        requires
            old(self).wf(),
        ensures
            final(self).wf(),
            final(self).chars == old(self).chars,
            match r {
                Ok(j) => array_at(old(self).chars@, old(self).i as int) == Step::Got(
                    j@,
                    final(self).i as int,
                ),
                Err(Some(e)) => array_at(old(self).chars@, old(self).i as int) == Step::<JsonModel>::Bad(e@),
                Err(None) => array_at(old(self).chars@, old(self).i as int) is Stuck,
            },
        decreases old(self).chars@.len() - old(self).i, 1nat,
    {
        let ghost s = self.chars@;
        let ghost whole = array_at(s, self.i as int);
        proof {
            lemma_skip(s, self.i as int);
        }
        self.skip();
        if self.i >= self.chars.len() {
            return Err(Some("unexpected end of input".to_string()));
        }
        let mut items: Vec<Json> = Vec::new();
        if self.chars[self.i] == ']' {
            self.step();
            let r = Json::Arr(items);
            proof {
                lemma_model(r);
                assert(r@->Arr_0 =~= seq![]);
            }
            return Ok(r);
        }
        assert(items_of(items@) =~= seq![]);
        loop
            invariant
                self.wf(),
                s == self.chars@,
                self.chars == old(self).chars,
                old(self).i <= self.i,
                whole == array_at(old(self).chars@, old(self).i as int),
                whole == items_from(s, self.i as int, items_of(items@)),
            decreases s.len() - self.i,
        {
            let ghost k = self.i as int;
            let ghost before = items@;
            let v = match self.value() {
                Ok(v) => v,
                Err(e) => {
                    return Err(e);
                },
            };
            proof {
                lemma_advances(s, k);
                lemma_skip(s, self.i as int);
            }
            let ghost vm = v@;
            items.push(v);
            assert(items_of(items@) =~= items_of(before).push(vm));
            self.skip();
            if self.i >= self.chars.len() {
                return Err(Some("unexpected end of input".to_string()));
            }
            let c: char = self.chars[self.i];
            if c == ',' {
                self.step();
            } else if c == ']' {
                self.step();
                let r = Json::Arr(items);
                proof {
                    lemma_model(r);
                }
                return Ok(r);
            } else {
                return Err(Some(self.unexpected("' in array at byte ")));
            }
        }
    }

    fn object(&mut self) -> (r: Result<Json, Option<String>>)
        requires
            old(self).wf(),
        ensures
            final(self).wf(),
            final(self).chars == old(self).chars,
            match r {
                Ok(j) => object_at(old(self).chars@, old(self).i as int) == Step::Got(
                    j@,
                    final(self).i as int,
                ),
                Err(Some(e)) => object_at(old(self).chars@, old(self).i as int) == Step::<JsonModel>::Bad(e@),
                Err(None) => object_at(old(self).chars@, old(self).i as int) is Stuck,
            },
        decreases old(self).chars@.len() - old(self).i, 1nat,
    {
        let ghost s = self.chars@;
        let ghost whole = object_at(s, self.i as int);
        proof {
            lemma_skip(s, self.i as int);
        }
        self.skip();
        if self.i >= self.chars.len() {
            return Err(Some("unexpected end of input".to_string()));
        }
        let mut m: Vec<(String, Json)> = Vec::new();
        if self.chars[self.i] == '}' {
            self.step();
            let r = Json::Obj(m);
            proof {
                lemma_model(r);
                assert(r@->Obj_0 =~= seq![]);
            }
            return Ok(r);
        }
        assert(entries_of(m@) =~= seq![]);
        loop
            invariant
                self.wf(),
                s == self.chars@,
                self.chars == old(self).chars,
                old(self).i <= self.i,
                whole == object_at(old(self).chars@, old(self).i as int),
                whole == entries_from(s, self.i as int, entries_of(m@)),
            decreases s.len() - self.i,
        {
            let ghost before = m@;
            proof {
                lemma_skip(s, self.i as int);
            }
            self.skip();
            let ghost j = self.i as int;
            let key = match self.string() {
                Ok(t) => t,
                Err(e) => {
                    return Err(e);
                },
            };
            proof {
                lemma_chars_advance(s, j + 1, seq![]);
                lemma_skip(s, self.i as int);
            }
            self.skip();
            if self.i >= self.chars.len() {
                return Err(Some("unexpected end of input".to_string()));
            }
            if self.chars[self.i] != ':' {
                return Err(Some(self.complain("expected ':' at byte ")));
            }
            let ghost c0 = self.i as int;
            self.step();
            let v = match self.value() {
                Ok(v) => v,
                Err(e) => {
                    return Err(e);
                },
            };
            proof {
                lemma_advances(s, c0 + 1);
                lemma_skip(s, self.i as int);
            }
            let ghost vm = v@;
            let ghost km = key@;
            m.push((key, v));
            assert(entries_of(m@) =~= entries_of(before).push((km, vm)));
            self.skip();
            if self.i >= self.chars.len() {
                return Err(Some("unexpected end of input".to_string()));
            }
            let c: char = self.chars[self.i];
            if c == ',' {
                self.step();
            } else if c == '}' {
                self.step();
                let r = Json::Obj(m);
                proof {
                    lemma_model(r);
                }
                return Ok(r);
            } else {
                return Err(Some(self.unexpected("' in object at byte ")));
            }
        }
    }
}

fn is_number_char(c: char) -> (r: bool)
    ensures
        r == number_char(c),
{
    ('0' <= c && c <= '9') || c == '.' || c == 'e' || c == 'E' || c == '+' || c == '-'
}

impl Json {
    /// Parses a text that holds one value. Nothing comes back for a text with a high
    /// surrogate before an escape that is no low one.
    pub fn try_parse(input: &str) -> (r: Option<Result<Json, String>>)
        ensures
            match r {
                Some(Ok(j)) => parsed(input@) == Step::Got(j@, input@.len() as int),
                Some(Err(e)) => parsed(input@) == Step::<JsonModel>::Bad(e@),
                None => parsed(input@) is Stuck,
            },
    {
        let raw = crate::bytes::copy_bytes(input.as_bytes());
        let mut p = Parser { chars: chars_of(input), raw, i: 0, b: 0 };
        let ghost s = input@;
        assert(s.skip(0) =~= s);
        let v = match p.value() {
            Ok(v) => v,
            Err(Some(e)) => {
                return Some(Err(e));
            },
            Err(None) => {
                return None;
            },
        };
        p.skip();
        if p.i != p.chars.len() {
            return Some(Err(p.complain("trailing data at byte ")));
        }
        Some(Ok(v))
    }

    /// Parses a text that holds one value.
    pub fn parse(input: &str) -> (r: Result<Json, String>)
        requires
            !(parsed(input@) is Stuck),
        ensures
            match r {
                Ok(j) => parsed(input@) == Step::Got(j@, input@.len() as int),
                Err(e) => parsed(input@) == Step::<JsonModel>::Bad(e@),
            },
    {
        match Json::try_parse(input) {
            Some(r) => r,
            None => Ok(Json::Null),
        }
    }
}

/// The text `t` stands in `s` at place `i`.
pub open spec fn stands(s: Seq<char>, i: int, t: Seq<char>) -> bool {
    0 <= i && i + t.len() <= s.len() && s.subrange(i, i + t.len()) == t
}

proof fn lemma_stands_split(s: Seq<char>, i: int, a: Seq<char>, b: Seq<char>)
    requires
        stands(s, i, a + b),
    ensures
        stands(s, i, a),
        stands(s, i + a.len(), b),
{
    let w = s.subrange(i, i + (a + b).len());
    assert(s.subrange(i, i + a.len()) =~= a) by {
        assert forall|j: int| 0 <= j < a.len() implies s[i + j] == a[j] by {
            assert(w[j] == (a + b)[j]);
        }
    }
    assert(s.subrange(i + a.len(), i + a.len() + b.len()) =~= b) by {
        assert forall|j: int| 0 <= j < b.len() implies s[i + a.len() + j] == b[j] by {
            assert(w[a.len() + j] == (a + b)[a.len() + j]);
        }
    }
}

proof fn lemma_stands_char(s: Seq<char>, i: int, t: Seq<char>, j: int)
    requires
        stands(s, i, t),
        0 <= j < t.len(),
    ensures
        s[i + j] == t[j],
{
    assert(s.subrange(i, i + t.len())[j] == t[j]);
}

/// A value whose numbers have texts of their own.
pub open spec fn plain(m: JsonModel) -> bool
    decreases m,
{
    match m {
        JsonModel::Num(n) => i128::MIN <= n <= i128::MAX,
        JsonModel::Real(t) => number_of(t) == Some(JsonModel::Real(t)) && forall|j: int|
            0 <= j < t.len() ==> number_char(#[trigger] t[j]),
        JsonModel::Arr(v) => forall|i: int| 0 <= i < v.len() ==> plain(#[trigger] v[i]),
        JsonModel::Obj(o) => forall|i: int| 0 <= i < o.len() ==> plain((#[trigger] o[i]).1),
        _ => true,
    }
}

/// A value in which every number is an integer.
pub open spec fn whole(m: JsonModel) -> bool
    decreases m,
{
    match m {
        JsonModel::Real(_) => false,
        JsonModel::Arr(v) => forall|i: int| 0 <= i < v.len() ==> whole(#[trigger] v[i]),
        JsonModel::Obj(o) => forall|i: int| 0 <= i < o.len() ==> whole((#[trigger] o[i]).1),
        _ => true,
    }
}

/// A value whose numbers are integers has a text that reads back.
pub proof fn law_whole_is_plain(j: Json)
    requires
        whole(j@),
    ensures
        plain(j@),
    decreases j,
{
    lemma_model(j);
    match j {
        Json::Arr(v) => {
            let xs = j@->Arr_0;
            assert(xs == items_of(v@));
            assert forall|i: int| 0 <= i < xs.len() implies plain(#[trigger] xs[i]) by {
                assert(whole(xs[i]));
                assert(decreases_to!(j => j->Arr_0));
                assert(decreases_to!(j->Arr_0 => j->Arr_0[i]));
                law_whole_is_plain(v@[i]);
            }
        },
        Json::Obj(v) => {
            let xs = j@->Obj_0;
            assert(xs == entries_of(v@));
            assert forall|i: int| 0 <= i < xs.len() implies plain((#[trigger] xs[i]).1) by {
                assert(whole(xs[i].1));
                assert(decreases_to!(j => j->Obj_0));
                assert(decreases_to!(j->Obj_0 => j->Obj_0[i]));
                assert(decreases_to!(j->Obj_0[i] => j->Obj_0[i].1));
                law_whole_is_plain(v@[i].1);
            }
        },
        _ => {},
    }
}

/// A value with the entries of its objects in the order of their keys.
pub open spec fn canonical(m: JsonModel) -> JsonModel
    decreases m,
{
    match m {
        JsonModel::Arr(v) => JsonModel::Arr(
            Seq::new(
                v.len(),
                |i: int|
                    if 0 <= i < v.len() {
                        canonical(v[i])
                    } else {
                        JsonModel::Null
                    },
            ),
        ),
        JsonModel::Obj(o) => JsonModel::Obj(
            Seq::new(
                o.len(),
                |i: int|
                    {
                        let k = key_order(o, o.len() as int)[i];
                        if 0 <= k < o.len() {
                            (o[k].0, canonical(o[k].1))
                        } else {
                            (seq![], JsonModel::Null)
                        }
                    },
            ),
        ),
        other => other,
    }
}

proof fn lemma_key_placed_members(order: Seq<int>, o: Seq<(Seq<char>, JsonModel)>, x: int, n: int)
    requires
        forall|j: int| 0 <= j < order.len() ==> 0 <= (#[trigger] order[j]) < n,
        0 <= x < n,
    ensures
        key_placed(order, o, x).len() == order.len() + 1,
        forall|j: int|
            0 <= j < key_placed(order, o, x).len() ==> 0 <= (#[trigger] key_placed(
                order,
                o,
                x,
            )[j]) < n,
    decreases order.len(),
{
    if order.len() > 0 && !text_le(o[order.last()].0, o[x].0) {
        let t = order.drop_last();
        assert forall|j: int| 0 <= j < t.len() implies 0 <= (#[trigger] t[j]) < n by {
            assert(t[j] == order[j]);
        }
        lemma_key_placed_members(t, o, x, n);
        let q = key_placed(order, o, x);
        assert forall|j: int| 0 <= j < q.len() implies 0 <= (#[trigger] q[j]) < n by {
            if j < q.len() - 1 {
                assert(q[j] == key_placed(t, o, x)[j]);
            } else {
                assert(q[j] == order[order.len() - 1]);
            }
        }
    }
}

proof fn lemma_key_order_members(o: Seq<(Seq<char>, JsonModel)>, n: int)
    requires
        0 <= n <= o.len(),
    ensures
        key_order(o, n).len() == n,
        forall|j: int| 0 <= j < n ==> 0 <= (#[trigger] key_order(o, n)[j]) < n,
    decreases n,
{
    if n > 0 {
        lemma_key_order_members(o, n - 1);
        let order = key_order(o, n - 1);
        assert forall|j: int| 0 <= j < order.len() implies 0 <= (#[trigger] order[j]) < n by {}
        lemma_key_placed_members(order, o, n - 1, n);
    }
}

proof fn lemma_escaped_prefix(t: Seq<char>, k: int)
    requires
        0 <= k < t.len(),
    ensures
        escaped(t) == escaped(t.take(k)) + escaped_char(t[k]) + escaped_tail(t, k + 1),
    decreases t.len() - k,
{
    let u = t.take(k + 1);
    assert(u.drop_last() =~= t.take(k));
    assert(u.last() == t[k]);
    if k + 1 == t.len() {
        assert(u =~= t);
        assert(escaped(t) =~= escaped(t.take(k)) + escaped_char(t[k]) + escaped_tail(t, k + 1));
    } else {
        lemma_escaped_prefix(t, k + 1);
        assert(escaped(t) =~= escaped(t.take(k)) + escaped_char(t[k]) + escaped_tail(t, k + 1));
    }
}

spec fn escaped_tail(t: Seq<char>, k: int) -> Seq<char>
    decreases t.len() - k,
{
    if k < 0 || k >= t.len() {
        seq![]
    } else {
        escaped_char(t[k]) + escaped_tail(t, k + 1)
    }
}

proof fn lemma_hex4(c: char)
    requires
        ' ' > c,
    ensures
        hex4(c as int).len() == 4,
        number(hex4(c as int), 16, 0xffff_ffff) == Some(c as int),
        forall|j: int| 0 <= j < 4 ==> encode_scalar(#[trigger] hex4(c as int)[j] as u32).len() == 1,
        scalar(c as int) == c,
{
    let h = hex4(c as int);
    let n = c as int;
    assert(n / 4096 % 16 == 0 && n / 256 % 16 == 0);
    reveal_with_fuel(digits_value, 6);
    assert(h.drop_last().drop_last().drop_last().drop_last() =~= seq![]);
    assert(h.len() == 4);
    assert(h[0] != '+');
    assert(h.drop_last().drop_last().drop_last().last() == h[0]);
    assert(h.drop_last().drop_last().last() == h[1]);
    assert(h.drop_last().last() == h[2]);
    assert(h.last() == h[3]);
    assert(digits_value(h, 16) == Some(n));
    let u: u32 = c as u32;
    assert(u as char == c);
    assert(n as u32 == u);
}

proof fn lemma_unicode(s: Seq<char>, k: int, c: char)
    requires
        ' ' > c,
        stands(s, k, hex4(c as int)),
    ensures
        unicode(s, k) == Step::Got(c, k + 4),
{
    let h = hex4(c as int);
    lemma_hex4(c);
    assert forall|j: int| k <= j < k + 4 implies encode_scalar(#[trigger] s[j] as u32).len()
        == 1 by {
        lemma_stands_char(s, k, h, j - k);
        assert(h[j - k] == s[j]);
    }
    lemma_span(s);
    lemma_span_step(s, k);
    lemma_span_step(s, k + 1);
    lemma_span_step(s, k + 2);
    lemma_span_step(s, k + 3);
    assert(encode_scalar(s[k] as u32).len() == 1);
    assert(encode_scalar(s[k + 1] as u32).len() == 1);
    assert(encode_scalar(s[k + 2] as u32).len() == 1);
    assert(encode_scalar(s[k + 3] as u32).len() == 1);
    lemma_span_bound(s, k + 4);
    assert(s.subrange(k, k + 4) == h);
}

proof fn lemma_chars(s: Seq<char>, i: int, t: Seq<char>, k: int)
    requires
        0 <= k <= t.len(),
        stands(s, i, written_str(t)),
    ensures
        chars_from(s, i + 1 + escaped(t.take(k)).len(), t.take(k)) == Step::Got(
            t,
            i + written_str(t).len(),
        ),
    decreases t.len() - k,
{
    let p = i + 1 + escaped(t.take(k)).len();
    lemma_stands_split(s, i, seq!['"'] + escaped(t), seq!['"']);
    lemma_stands_split(s, i, seq!['"'], escaped(t));
    if k == t.len() {
        assert(t.take(k) =~= t);
        lemma_stands_char(s, i + (seq!['"'] + escaped(t)).len(), seq!['"'], 0);
    } else {
        let c = t[k];
        let e = escaped_char(c);
        lemma_escaped_prefix(t, k);
        lemma_stands_split(s, i + 1, escaped(t.take(k)) + e, escaped_tail(t, k + 1));
        lemma_stands_split(s, i + 1, escaped(t.take(k)), e);
        assert(t.take(k + 1).drop_last() =~= t.take(k));
        assert(t.take(k + 1) =~= t.take(k).push(c));
        assert(escaped(t.take(k + 1)).len() == escaped(t.take(k)).len() + e.len());
        lemma_chars(s, i, t, k + 1);
        lemma_stands_char(s, p, e, 0);
        if e.len() > 1 {
            lemma_stands_char(s, p, e, 1);
        }
        if ' ' > c && c != '\n' && c != '\r' && c != '\t' {
            lemma_stands_split(s, p, seq!['\\', 'u'], hex4(c as int));
            lemma_unicode(s, p + 2, c);
            lemma_hex4(c);
        }
    }
}

/// A string reads back from its text.
pub proof fn law_string_read_back(s: Seq<char>, i: int, t: Seq<char>)
    requires
        stands(s, i, written_str(t)),
    ensures
        string_at(s, i) == Step::Got(t, i + written_str(t).len()),
{
    lemma_stands_char(s, i, written_str(t), 0);
    assert(t.take(0) =~= seq![]);
    lemma_chars(s, i, t, 0);
}

pub(crate) proof fn lemma_dec(n: nat)
    ensures
        dec(n).len() > 0,
        forall|j: int| 0 <= j < dec(n).len() ==> digit(#[trigger] dec(n)[j]),
        digits_value(dec(n), 10) == Some(n as int),
    decreases n,
{
    if n < 10 {
        assert(dec(n).drop_last() =~= seq![]);
        reveal_with_fuel(digits_value, 2);
    } else {
        lemma_dec(n / 10);
        assert(dec(n).drop_last() =~= dec(n / 10));
    }
}

proof fn lemma_dec_int(n: int)
    requires
        i128::MIN <= n <= i128::MAX,
    ensures
        dec_int(n).len() > 0,
        forall|j: int| 0 <= j < dec_int(n).len() ==> number_char(#[trigger] dec_int(n)[j]),
        dec_int(n)[0] == '-' || digit(dec_int(n)[0]),
        integer(dec_int(n)) == Some(n),
{
    let t = dec_int(n);
    if n < 0 {
        lemma_dec((-n) as nat);
        assert(t.skip(1) =~= dec((-n) as nat));
        assert forall|j: int| 0 <= j < t.len() implies number_char(#[trigger] t[j]) by {
            if j > 0 {
                assert(t[j] == dec((-n) as nat)[j - 1]);
            }
        }
    } else {
        lemma_dec(n as nat);
        assert(t.skip(0) =~= t);
        assert(digit(t[0]));
    }
}

proof fn lemma_number_end(s: Seq<char>, i: int, e: int)
    requires
        0 <= i <= e <= s.len(),
        forall|j: int| i <= j < e ==> number_char(#[trigger] s[j]),
        e == s.len() || !number_char(s[e]),
    ensures
        number_end(s, i) == e,
    decreases e - i,
{
    if i < e {
        assert(number_char(s[i]));
        lemma_number_end(s, i + 1, e);
    }
}

proof fn lemma_number(s: Seq<char>, i: int, t: Seq<char>, m: JsonModel)
    requires
        stands(s, i, t),
        t.len() > 0,
        forall|j: int| 0 <= j < t.len() ==> number_char(#[trigger] t[j]),
        number_of(t) == Some(m),
        i + t.len() == s.len() || !number_char(s[i + t.len()]),
    ensures
        value_at(s, i) == Step::Got(m, i + t.len()),
{
    assert forall|j: int| i <= j < i + t.len() implies number_char(#[trigger] s[j]) by {
        lemma_stands_char(s, i, t, j - i);
        assert(number_char(t[j - i]));
    }
    lemma_number_end(s, i, i + t.len());
    assert(number_char(s[i]));
    assert(!blank(s[i]));
    assert(skip_blank(s, i) == i);
}

/// An indentation of blanks.
pub open spec fn airy(pad: Option<Seq<char>>) -> bool {
    pad matches Some(p) ==> forall|j: int| 0 <= j < p.len() ==> blank(#[trigger] p[j])
}

proof fn lemma_airy(pad: Option<Seq<char>>)
    requires
        airy(pad),
    ensures
        airy(deeper(pad)),
        forall|j: int| 0 <= j < line(pad).len() ==> blank(#[trigger] line(pad)[j]),
{
    reveal_strlit("  ");
    if let Some(p) = pad {
        let d = p + "  "@;
        assert forall|j: int| 0 <= j < d.len() implies blank(#[trigger] d[j]) by {
            if j < p.len() {
                assert(d[j] == p[j]);
            }
        }
        let l = line(pad);
        assert forall|j: int| 0 <= j < l.len() implies blank(#[trigger] l[j]) by {
            if j > 0 {
                assert(l[j] == p[j - 1]);
            }
        }
    }
}

proof fn lemma_skip_on(s: Seq<char>, a: int, t: Seq<char>)
    requires
        stands(s, a, t),
        forall|j: int| 0 <= j < t.len() ==> blank(#[trigger] t[j]),
    ensures
        skip_blank(s, a) == skip_blank(s, a + t.len()),
    decreases t.len(),
{
    if t.len() > 0 {
        lemma_stands_char(s, a, t, 0);
        assert(blank(t[0]));
        let u = t.skip(1);
        assert(t =~= t.take(1) + u);
        lemma_stands_split(s, a, t.take(1), u);
        assert forall|j: int| 0 <= j < u.len() implies blank(#[trigger] u[j]) by {
            assert(u[j] == t[j + 1]);
        }
        lemma_skip_on(s, a + 1, u);
    }
}

proof fn lemma_value_on(s: Seq<char>, a: int, t: Seq<char>)
    requires
        stands(s, a, t),
        forall|j: int| 0 <= j < t.len() ==> blank(#[trigger] t[j]),
    ensures
        value_at(s, a) == value_at(s, a + t.len()),
{
    lemma_skip_on(s, a, t);
}

proof fn lemma_items_on(s: Seq<char>, a: int, t: Seq<char>, acc: Seq<JsonModel>)
    requires
        stands(s, a, t),
        forall|j: int| 0 <= j < t.len() ==> blank(#[trigger] t[j]),
        items_from(s, a + t.len(), acc) is Got,
    ensures
        items_from(s, a, acc) == items_from(s, a + t.len(), acc),
{
    lemma_value_on(s, a, t);
}

proof fn lemma_first(m: JsonModel, pad: Option<Seq<char>>)
    requires
        plain(m),
    ensures
        written(m, pad).len() > 0,
        !blank(written(m, pad)[0]),
        written(m, pad)[0] != ']',
        written(m, pad)[0] != '}',
{
    reveal_strlit("null");
    reveal_strlit("true");
    reveal_strlit("false");
    match m {
        JsonModel::Num(n) => {
            lemma_dec_int(n);
        },
        JsonModel::Real(t) => {
            if t.len() == 0 {
                assert(!is_decimal(t));
            }
            assert(number_char(t[0]));
        },
        _ => {},
    }
}

/// The text of a number.
pub open spec fn number_text(m: JsonModel) -> Seq<char> {
    match m {
        JsonModel::Num(n) => dec_int(n),
        JsonModel::Real(t) => t,
        _ => seq![],
    }
}

pub(crate) proof fn lemma_number_text(m: JsonModel)
    requires
        plain(m),
        m is Num || m is Real,
    ensures
        number_text(m).len() > 0,
        forall|j: int| 0 <= j < number_text(m).len() ==> number_char(#[trigger] number_text(m)[j]),
        number_of(number_text(m)) == Some(m),
{
    match m {
        JsonModel::Num(n) => {
            lemma_dec_int(n);
        },
        JsonModel::Real(t) => {
            if t.len() == 0 {
                assert(!is_decimal(t));
            }
        },
        _ => {},
    }
}

proof fn lemma_items_prefix(v: Seq<JsonModel>, pad: Option<Seq<char>>, k: nat, n: nat)
    requires
        k < n <= v.len(),
    ensures
        written_items(v, pad, k + 1) == written_items(v, pad, k) + comma(k + 1) + line(deeper(pad))
            + written(v[k as int], deeper(pad)),
        exists|rest: Seq<char>| #[trigger]
            (written_items(v, pad, k + 1) + rest) == written_items(v, pad, n) && (k + 1 < n
                ==> rest.len() > 0 && rest[0] == ','),
    decreases n - k,
{
    let one = written_items(v, pad, k + 1);
    if k + 1 == n {
        assert(one + Seq::<char>::empty() =~= written_items(v, pad, n));
    } else {
        lemma_items_prefix(v, pad, k + 1, n);
        let r = choose|r: Seq<char>| #[trigger]
            (written_items(v, pad, k + 2) + r) == written_items(v, pad, n);
        let rest = comma(k + 2) + line(deeper(pad)) + written(v[k as int + 1], deeper(pad)) + r;
        assert(rest[0] == ',');
        assert(one + rest =~= written_items(v, pad, n));
    }
}

proof fn lemma_items_step(s: Seq<char>, q: int, acc: Seq<JsonModel>, c: JsonModel, p: int)
    requires
        value_at(s, q) == Step::Got(c, p),
        q < p,
        0 <= skip_blank(s, p) < s.len(),
    ensures
        s[skip_blank(s, p)] == ',' ==> items_from(s, q, acc) == items_from(
            s,
            skip_blank(s, p) + 1,
            acc.push(c),
        ),
        s[skip_blank(s, p)] == ']' ==> items_from(s, q, acc) == Step::Got(
            JsonModel::Arr(acc.push(c)),
            skip_blank(s, p) + 1,
        ),
{
}

/// Where the text of item `k` stands, and what stands behind it.
proof fn lemma_item_placed(s: Seq<char>, i: int, v: Seq<JsonModel>, pad: Option<Seq<char>>, k: nat)
    requires
        k < v.len(),
        airy(pad),
        stands(s, i, written_items(v, pad, v.len()) + line(pad) + seq![']']),
    ensures
        ({
            let deep = deeper(pad);
            let q = i + (written_items(v, pad, k) + comma(k + 1) + line(deep)).len();
            let p = i + written_items(v, pad, k + 1).len();
            let b = i + written_items(v, pad, v.len()).len() + line(pad).len();
            &&& i <= q
            &&& stands(s, q, written(v[k as int], deep))
            &&& p == q + written(v[k as int], deep).len()
            &&& 0 <= p < s.len()
            &&& !number_char(s[p])
            &&& 0 <= b < s.len()
            &&& s[b] == ']'
            &&& k + 1 < v.len() ==> {
                &&& s[p] == ','
                &&& stands(s, p + 1, line(deep))
                &&& p + 1 + line(deep).len() == i + (written_items(v, pad, k + 1) + comma(k + 2)
                    + line(deep)).len()
            }
            &&& k + 1 == v.len() ==> stands(s, p, line(pad)) && b == p + line(pad).len()
        }),
{
    let n = v.len();
    let deep = deeper(pad);
    let all = written_items(v, pad, n);
    let head = written_items(v, pad, k) + comma(k + 1) + line(deep);
    let w = written(v[k as int], deep);
    let one = written_items(v, pad, k + 1);
    let q = i + head.len();
    let p = q + w.len();
    lemma_airy(pad);
    lemma_items_prefix(v, pad, k, n);
    let rest = choose|rest: Seq<char>| #[trigger]
        (one + rest) == all && (k + 1 < n ==> rest.len() > 0 && rest[0] == ',');
    lemma_stands_split(s, i, all + line(pad), seq![']']);
    lemma_stands_split(s, i, all, line(pad));
    lemma_stands_split(s, i, one, rest);
    lemma_stands_split(s, i, head, w);
    let b = i + all.len() + line(pad).len();
    lemma_stands_char(s, b, seq![']'], 0);
    if k + 1 < n {
        lemma_stands_char(s, p, rest, 0);
        lemma_items_prefix(v, pad, k + 1, n);
        let two = written_items(v, pad, k + 2);
        let more = choose|r: Seq<char>| #[trigger] (two + r) == all;
        let next = written(v[k as int + 1], deep);
        assert(all =~= (one + comma(k + 2)) + (line(deep) + (next + more)));
        lemma_stands_split(s, i, one + comma(k + 2), line(deep) + (next + more));
        lemma_stands_split(s, p + 1, line(deep), next + more);
    } else if line(pad).len() > 0 {
        lemma_stands_char(s, p, line(pad), 0);
        assert(blank(s[p]));
    }
}

/// The text of an array behind its opening bracket, from item `k` on.
#[verifier::spinoff_prover]
#[verifier::rlimit(40)]
proof fn lemma_items(s: Seq<char>, i: int, v: Seq<JsonModel>, pad: Option<Seq<char>>, k: nat)
    requires
        k < v.len(),
        airy(pad),
        stands(s, i, written_items(v, pad, v.len()) + line(pad) + seq![']']),
        forall|j: int| 0 <= j < v.len() ==> plain(#[trigger] v[j]),
    ensures
        items_from(
            s,
            i + (written_items(v, pad, k) + comma(k + 1) + line(deeper(pad))).len(),
            canonical(JsonModel::Arr(v))->Arr_0.take(k as int),
        ) == Step::Got(
            canonical(JsonModel::Arr(v)),
            i + written_items(v, pad, v.len()).len() + line(pad).len() + 1,
        ),
    decreases v, v.len() - k,
{
    let deep = deeper(pad);
    let cs = canonical(JsonModel::Arr(v))->Arr_0;
    let q = i + (written_items(v, pad, k) + comma(k + 1) + line(deep)).len();
    let p = i + written_items(v, pad, k + 1).len();
    let b = i + written_items(v, pad, v.len()).len() + line(pad).len();
    let c = canonical(v[k as int]);
    lemma_airy(pad);
    lemma_airy(deep);
    lemma_item_placed(s, i, v, pad, k);
    assert(plain(v[k as int]));
    lemma_value(s, q, v[k as int], deep);
    lemma_first(v[k as int], deep);
    assert(cs.take(k as int).push(c) =~= cs.take(k as int + 1));
    if k + 1 < v.len() {
        assert(skip_blank(s, p) == p);
        lemma_items_step(s, q, cs.take(k as int), c, p);
        lemma_items(s, i, v, pad, k + 1);
        lemma_items_on(s, p + 1, line(deep), cs.take(k as int + 1));
    } else {
        lemma_skip_on(s, p, line(pad));
        assert(skip_blank(s, b) == b);
        lemma_items_step(s, q, cs.take(k as int), c, p);
        assert(cs.take(k as int + 1) =~= cs);
    }
}

spec fn entry_text(e: (Seq<char>, JsonModel), pad: Option<Seq<char>>) -> Seq<char> {
    written_str(e.0) + colon(pad) + written(e.1, deeper(pad))
}

proof fn lemma_entries_prefix(
    o: Seq<(Seq<char>, JsonModel)>,
    order: Seq<int>,
    pad: Option<Seq<char>>,
    k: nat,
    n: nat,
)
    requires
        k < n <= order.len(),
        forall|j: int| 0 <= j < order.len() ==> 0 <= (#[trigger] order[j]) < o.len(),
    ensures
        written_entries(o, order, pad, k + 1) == written_entries(o, order, pad, k) + comma(k + 1)
            + line(deeper(pad)) + entry_text(o[order[k as int]], pad),
        exists|rest: Seq<char>| #[trigger]
            (written_entries(o, order, pad, k + 1) + rest) == written_entries(o, order, pad, n)
                && (k + 1 < n ==> rest.len() > 0 && rest[0] == ','),
    decreases n - k,
{
    let one = written_entries(o, order, pad, k + 1);
    assert(0 <= order[k as int] < o.len());
    assert(one =~= written_entries(o, order, pad, k) + comma(k + 1) + line(deeper(pad))
        + entry_text(o[order[k as int]], pad));
    if k + 1 == n {
        assert(one + Seq::<char>::empty() =~= written_entries(o, order, pad, n));
    } else {
        lemma_entries_prefix(o, order, pad, k + 1, n);
        let r = choose|r: Seq<char>| #[trigger]
            (written_entries(o, order, pad, k + 2) + r) == written_entries(o, order, pad, n);
        let rest = comma(k + 2) + line(deeper(pad)) + entry_text(o[order[k as int + 1]], pad) + r;
        assert(rest[0] == ',');
        assert(one + rest =~= written_entries(o, order, pad, n));
    }
}

proof fn lemma_entries_on(
    s: Seq<char>,
    a: int,
    t: Seq<char>,
    acc: Seq<(Seq<char>, JsonModel)>,
)
    requires
        stands(s, a, t),
        forall|j: int| 0 <= j < t.len() ==> blank(#[trigger] t[j]),
    ensures
        entries_from(s, a, acc) == entries_from(s, a + t.len(), acc),
{
    lemma_skip_on(s, a, t);
}

/// Where the key, the colon and the value of an entry stand.
proof fn lemma_entry_placed(s: Seq<char>, q: int, e: (Seq<char>, JsonModel), pad: Option<Seq<char>>)
    requires
        stands(s, q, entry_text(e, pad)),
    ensures
        ({
            let c = q + written_str(e.0).len();
            let a = c + colon(pad).len();
            let w = written(e.1, deeper(pad));
            &&& stands(s, q, written_str(e.0))
            &&& q < c < s.len()
            &&& s[q] == '"'
            &&& s[c] == ':'
            &&& stands(s, c + 1, colon(pad).skip(1))
            &&& stands(s, a, w)
            &&& a + w.len() == q + entry_text(e, pad).len()
        }),
{
    let ks = written_str(e.0);
    let w = written(e.1, deeper(pad));
    let c = q + ks.len();
    assert(entry_text(e, pad) =~= ks + (colon(pad) + w));
    lemma_stands_split(s, q, ks, colon(pad) + w);
    lemma_stands_split(s, c, colon(pad), w);
    lemma_stands_char(s, q, ks, 0);
    lemma_stands_char(s, c, colon(pad), 0);
    assert(colon(pad) =~= colon(pad).take(1) + colon(pad).skip(1));
    lemma_stands_split(s, c, colon(pad).take(1), colon(pad).skip(1));
}

#[verifier::spinoff_prover]
#[verifier::rlimit(40)]
proof fn lemma_entry_read(
    s: Seq<char>,
    q: int,
    e: (Seq<char>, JsonModel),
    pad: Option<Seq<char>>,
    v: JsonModel,
    p: int,
)
    requires
        stands(s, q, entry_text(e, pad)),
        value_at(s, q + written_str(e.0).len() + colon(pad).len()) == Step::Got(v, p),
    ensures
        ({
            let c = q + written_str(e.0).len();
            &&& 0 <= q < c < s.len()
            &&& skip_blank(s, q) == q
            &&& string_at(s, q) == Step::Got(e.0, c)
            &&& skip_blank(s, c) == c
            &&& s[c] == ':'
            &&& value_at(s, c + 1) == Step::Got(v, p)
        }),
{
    lemma_entry_placed(s, q, e, pad);
    let c = q + written_str(e.0).len();
    let t = colon(pad).skip(1);
    law_string_read_back(s, q, e.0);
    assert(c + 1 + t.len() == c + colon(pad).len());
    assert forall|j: int| 0 <= j < t.len() implies blank(#[trigger] t[j]) by {
        assert(t[j] == colon(pad)[j + 1]);
    }
    lemma_value_on(s, c + 1, t);
}

proof fn lemma_entries_step(
    s: Seq<char>,
    q: int,
    acc: Seq<(Seq<char>, JsonModel)>,
    key: Seq<char>,
    c: int,
    v: JsonModel,
    p: int,
)
    requires
        skip_blank(s, q) == q,
        string_at(s, q) == Step::Got(key, c),
        0 <= q < c < p,
        c < s.len(),
        skip_blank(s, c) == c,
        s[c] == ':',
        value_at(s, c + 1) == Step::Got(v, p),
        0 <= skip_blank(s, p) < s.len(),
    ensures
        s[skip_blank(s, p)] == ',' ==> entries_from(s, q, acc) == entries_from(
            s,
            skip_blank(s, p) + 1,
            acc.push((key, v)),
        ),
        s[skip_blank(s, p)] == '}' ==> entries_from(s, q, acc) == Step::Got(
            JsonModel::Obj(acc.push((key, v))),
            skip_blank(s, p) + 1,
        ),
{
    lemma_skip(s, p);
    assert(skip_blank(s, p) >= p);
}

/// Where the text of the entry that comes at place `k` stands, and what stands behind it.
proof fn lemma_entries_placed(
    s: Seq<char>,
    i: int,
    o: Seq<(Seq<char>, JsonModel)>,
    order: Seq<int>,
    pad: Option<Seq<char>>,
    k: nat,
)
    requires
        k < order.len(),
        airy(pad),
        stands(s, i, written_entries(o, order, pad, order.len()) + line(pad) + seq!['}']),
        forall|j: int| 0 <= j < order.len() ==> 0 <= (#[trigger] order[j]) < o.len(),
    ensures
        ({
            let deep = deeper(pad);
            let q = i + (written_entries(o, order, pad, k) + comma(k + 1) + line(deep)).len();
            let p = i + written_entries(o, order, pad, k + 1).len();
            let b = i + written_entries(o, order, pad, order.len()).len() + line(pad).len();
            &&& i <= q
            &&& stands(s, q, entry_text(o[order[k as int]], pad))
            &&& p == q + entry_text(o[order[k as int]], pad).len()
            &&& 0 <= p < s.len()
            &&& !number_char(s[p])
            &&& 0 <= b < s.len()
            &&& s[b] == '}'
            &&& k + 1 < order.len() ==> {
                &&& s[p] == ','
                &&& stands(s, p + 1, line(deep))
                &&& p + 1 + line(deep).len() == i + (written_entries(o, order, pad, k + 1) + comma(
                    k + 2,
                ) + line(deep)).len()
            }
            &&& k + 1 == order.len() ==> stands(s, p, line(pad)) && b == p + line(pad).len()
        }),
{
    let n = order.len();
    let deep = deeper(pad);
    let all = written_entries(o, order, pad, n);
    let head = written_entries(o, order, pad, k) + comma(k + 1) + line(deep);
    let w = entry_text(o[order[k as int]], pad);
    let one = written_entries(o, order, pad, k + 1);
    let q = i + head.len();
    let p = q + w.len();
    lemma_airy(pad);
    lemma_entries_prefix(o, order, pad, k, n);
    let rest = choose|rest: Seq<char>| #[trigger]
        (one + rest) == all && (k + 1 < n ==> rest.len() > 0 && rest[0] == ',');
    lemma_stands_split(s, i, all + line(pad), seq!['}']);
    lemma_stands_split(s, i, all, line(pad));
    lemma_stands_split(s, i, one, rest);
    lemma_stands_split(s, i, head, w);
    let b = i + all.len() + line(pad).len();
    lemma_stands_char(s, b, seq!['}'], 0);
    if k + 1 < n {
        lemma_stands_char(s, p, rest, 0);
        lemma_entries_prefix(o, order, pad, k + 1, n);
        let two = written_entries(o, order, pad, k + 2);
        let more = choose|r: Seq<char>| #[trigger] (two + r) == all;
        let next = entry_text(o[order[k as int + 1]], pad);
        assert(all =~= (one + comma(k + 2)) + (line(deep) + (next + more)));
        lemma_stands_split(s, i, one + comma(k + 2), line(deep) + (next + more));
        lemma_stands_split(s, p + 1, line(deep), next + more);
    } else if line(pad).len() > 0 {
        lemma_stands_char(s, p, line(pad), 0);
        assert(blank(s[p]));
    }
}

/// The text of an object behind its opening bracket, from entry `k` on.
#[verifier::spinoff_prover]
#[verifier::rlimit(40)]
proof fn lemma_entries(
    s: Seq<char>,
    i: int,
    o: Seq<(Seq<char>, JsonModel)>,
    pad: Option<Seq<char>>,
    k: nat,
)
    requires
        k < o.len(),
        airy(pad),
        stands(
            s,
            i,
            written_entries(o, key_order(o, o.len() as int), pad, o.len()) + line(pad) + seq!['}'],
        ),
        forall|j: int| 0 <= j < o.len() ==> plain((#[trigger] o[j]).1),
    ensures
        entries_from(
            s,
            i + (written_entries(o, key_order(o, o.len() as int), pad, k) + comma(k + 1) + line(
                deeper(pad),
            )).len(),
            canonical(JsonModel::Obj(o))->Obj_0.take(k as int),
        ) == Step::Got(
            canonical(JsonModel::Obj(o)),
            i + written_entries(o, key_order(o, o.len() as int), pad, o.len()).len() + line(
                pad,
            ).len() + 1,
        ),
    decreases o, o.len() - k,
{
    let n = o.len();
    let deep = deeper(pad);
    let order = key_order(o, n as int);
    lemma_key_order_members(o, n as int);
    let cs = canonical(JsonModel::Obj(o))->Obj_0;
    let x = order[k as int];
    assert(0 <= x < n);
    let q = i + (written_entries(o, order, pad, k) + comma(k + 1) + line(deep)).len();
    let p = i + written_entries(o, order, pad, k + 1).len();
    let b = i + written_entries(o, order, pad, n).len() + line(pad).len();
    lemma_airy(pad);
    lemma_airy(deep);
    lemma_entries_placed(s, i, o, order, pad, k);
    lemma_entry_placed(s, q, o[x], pad);
    let c = q + written_str(o[x].0).len();
    let a = c + colon(pad).len();
    let v = canonical(o[x].1);
    assert(plain(o[x].1));
    lemma_value(s, a, o[x].1, deep);
    lemma_first(o[x].1, deep);
    lemma_entry_read(s, q, o[x], pad, v, p);
    assert(cs[k as int] == (o[x].0, v));
    assert(cs.take(k as int).push(cs[k as int]) =~= cs.take(k as int + 1));
    if k + 1 < n {
        assert(skip_blank(s, p) == p);
        lemma_entries_step(s, q, cs.take(k as int), o[x].0, c, v, p);
        lemma_entries(s, i, o, pad, k + 1);
        lemma_entries_on(s, p + 1, line(deep), cs.take(k as int + 1));
    } else {
        lemma_skip_on(s, p, line(pad));
        assert(skip_blank(s, b) == b);
        lemma_entries_step(s, q, cs.take(k as int), o[x].0, c, v, p);
        assert(cs.take(k as int + 1) =~= cs);
    }
}

#[verifier::spinoff_prover]
#[verifier::rlimit(40)]
proof fn lemma_array(s: Seq<char>, i: int, m: JsonModel, pad: Option<Seq<char>>)
    requires
        m is Arr,
        plain(m),
        airy(pad),
        stands(s, i, written(m, pad)),
        skip_blank(s, i) == i,
    ensures
        value_at(s, i) == Step::Got(canonical(m), i + written(m, pad).len()),
    decreases m, 0nat,
{
    let v = m->Arr_0;
    let w = written(m, pad);
    let deep = deeper(pad);
    lemma_stands_char(s, i, w, 0);
    let inner = written_items(v, pad, v.len());
    if v.len() == 0 {
        assert(w =~= seq!['[', ']']);
        lemma_stands_char(s, i, w, 1);
        assert(skip_blank(s, i + 1) == i + 1);
        assert(canonical(m)->Arr_0 =~= seq![]);
    } else {
        let body = inner + line(pad) + seq![']'];
        assert(w =~= seq!['['] + body);
        lemma_stands_split(s, i, seq!['['], body);
        lemma_airy(pad);
        lemma_airy(deep);
        let first = written(v[0], deep);
        assert(plain(v[0]));
        lemma_first(v[0], deep);
        lemma_items_prefix(v, pad, 0, v.len());
        let one = written_items(v, pad, 1);
        let rest = choose|rest: Seq<char>| #[trigger] (one + rest) == inner;
        let head = written_items(v, pad, 0) + comma(1) + line(deep);
        assert(head =~= line(deep));
        let tail = rest + line(pad) + seq![']'];
        assert(body =~= line(deep) + (first + tail));
        lemma_stands_split(s, i + 1, line(deep), first + tail);
        lemma_skip_on(s, i + 1, line(deep));
        let j = i + 1 + line(deep).len();
        lemma_stands_char(s, j, first + tail, 0);
        assert(s[j] == first[0]);
        assert(skip_blank(s, j) == j);
        lemma_items(s, i + 1, v, pad, 0);
        assert(canonical(m)->Arr_0.take(0) =~= seq![]);
    }
}

#[verifier::spinoff_prover]
#[verifier::rlimit(40)]
proof fn lemma_object(s: Seq<char>, i: int, m: JsonModel, pad: Option<Seq<char>>)
    requires
        m is Obj,
        plain(m),
        airy(pad),
        stands(s, i, written(m, pad)),
        skip_blank(s, i) == i,
    ensures
        value_at(s, i) == Step::Got(canonical(m), i + written(m, pad).len()),
    decreases m, 0nat,
{
    let o = m->Obj_0;
    let w = written(m, pad);
    let deep = deeper(pad);
    lemma_stands_char(s, i, w, 0);
    let order = key_order(o, o.len() as int);
    let inner = written_entries(o, order, pad, o.len());
    lemma_key_order_members(o, o.len() as int);
    if o.len() == 0 {
        assert(w =~= seq!['{', '}']);
        lemma_stands_char(s, i, w, 1);
        assert(skip_blank(s, i + 1) == i + 1);
        assert(canonical(m)->Obj_0 =~= seq![]);
    } else {
        let body = inner + line(pad) + seq!['}'];
        assert(w =~= seq!['{'] + body);
        lemma_stands_split(s, i, seq!['{'], body);
        lemma_airy(pad);
        lemma_airy(deep);
        lemma_entries_prefix(o, order, pad, 0, o.len());
        let one = written_entries(o, order, pad, 1);
        let rest = choose|rest: Seq<char>| #[trigger] (one + rest) == inner;
        let head = written_entries(o, order, pad, 0) + comma(1) + line(deep);
        assert(head =~= line(deep));
        let first = entry_text(o[order[0]], pad);
        assert(first[0] == '"');
        let tail = rest + line(pad) + seq!['}'];
        assert(body =~= line(deep) + (first + tail));
        lemma_stands_split(s, i + 1, line(deep), first + tail);
        lemma_skip_on(s, i + 1, line(deep));
        let j = i + 1 + line(deep).len();
        lemma_stands_char(s, j, first + tail, 0);
        assert(s[j] == '"');
        assert(skip_blank(s, j) == j);
        lemma_entries(s, i + 1, o, pad, 0);
        assert(canonical(m)->Obj_0.take(0) =~= seq![]);
    }
}

/// A value reads back from its text, wherever that stands; a number must not go on
/// behind it.
#[verifier::spinoff_prover]
#[verifier::rlimit(40)]
proof fn lemma_value(s: Seq<char>, i: int, m: JsonModel, pad: Option<Seq<char>>)
    requires
        plain(m),
        airy(pad),
        stands(s, i, written(m, pad)),
        i + written(m, pad).len() == s.len() || !number_char(s[i + written(m, pad).len()]),
    ensures
        value_at(s, i) == Step::Got(canonical(m), i + written(m, pad).len()),
    decreases m, 1nat,
{
    let w = written(m, pad);
    lemma_first(m, pad);
    lemma_stands_char(s, i, w, 0);
    assert(skip_blank(s, i) == i);
    match m {
        JsonModel::Null => {
            reveal_strlit("null");
        },
        JsonModel::Bool(b) => {
            reveal_strlit("true");
            reveal_strlit("false");
        },
        JsonModel::Num(n) => {
            lemma_dec_int(n);
            lemma_number(s, i, w, m);
        },
        JsonModel::Real(t) => {
            lemma_number(s, i, t, m);
        },
        JsonModel::Str(t) => {
            law_string_read_back(s, i, t);
        },
        JsonModel::Arr(_) => {
            lemma_array(s, i, m, pad);
        },
        JsonModel::Obj(_) => {
            lemma_object(s, i, m, pad);
        },
    }
}

/// Parsing the text of a value gives the value back, with the entries of its objects in
/// the order of their keys: the compact text, and the one in lines with any indentation
/// of blanks.
pub proof fn law_parse_written(m: JsonModel, pad: Option<Seq<char>>)
    requires
        plain(m),
        airy(pad),
    ensures
        parsed(written(m, pad)) == Step::Got(canonical(m), written(m, pad).len() as int),
{
    let s = written(m, pad);
    assert(s.subrange(0, s.len() as int) =~= s);
    lemma_value(s, 0, m, pad);
}

/// Parsing the canonical text of a value gives the value back, with the entries of
/// its objects in the order of their keys.
pub proof fn law_parse_canonical(m: JsonModel)
    requires
        plain(m),
    ensures
        parsed(written(m, None)) == Step::Got(canonical(m), written(m, None).len() as int),
{
    law_parse_written(m, None);
}

spec fn in_order(order: Seq<int>, o: Seq<(Seq<char>, JsonModel)>) -> bool {
    forall|i: int, j: int|
        0 <= i < j < order.len() ==> text_le(o[#[trigger] order[i]].0, o[#[trigger] order[j]].0)
}

proof fn lemma_placed_in_order(order: Seq<int>, o: Seq<(Seq<char>, JsonModel)>, x: int)
    requires
        in_order(order, o),
    ensures
        in_order(key_placed(order, o, x), o),
        key_placed(order, o, x).len() == order.len() + 1,
        forall|i: int|
            0 <= i < key_placed(order, o, x).len() ==> text_le(
                o[#[trigger] key_placed(order, o, x)[i]].0,
                if order.len() > 0 && !text_le(o[order.last()].0, o[x].0) {
                    o[order.last()].0
                } else {
                    o[x].0
                },
            ),
    decreases order.len(),
{
    let q = key_placed(order, o, x);
    crate::text::law_text_order_total(o[x].0, o[x].0);
    if order.len() == 0 || text_le(o[order.last()].0, o[x].0) {
        assert forall|i: int| 0 <= i < q.len() implies text_le(o[#[trigger] q[i]].0, o[x].0) by {
            if i < order.len() {
                assert(q[i] == order[i]);
                if i < order.len() - 1 {
                    assert(text_le(o[order[i]].0, o[order[order.len() - 1]].0));
                    crate::textmap::lemma_text_le_trans(
                        o[order[i]].0,
                        o[order.last()].0,
                        o[x].0,
                    );
                }
            }
        }
        assert forall|i: int, j: int| 0 <= i < j < q.len() implies text_le(
            o[#[trigger] q[i]].0,
            o[#[trigger] q[j]].0,
        ) by {
            assert(q[i] == order[i]);
            if j < order.len() {
                assert(q[j] == order[j]);
            }
        }
    } else {
        let t = order.drop_last();
        let z = order.last();
        assert(in_order(t, o)) by {
            assert forall|i: int, j: int| 0 <= i < j < t.len() implies text_le(
                o[#[trigger] t[i]].0,
                o[#[trigger] t[j]].0,
            ) by {
                assert(t[i] == order[i] && t[j] == order[j]);
            }
        }
        lemma_placed_in_order(t, o, x);
        let u = key_placed(t, o, x);
        crate::text::law_text_order_total(o[z].0, o[x].0);
        crate::text::law_text_order_total(o[z].0, o[z].0);
        assert forall|i: int| 0 <= i < u.len() implies text_le(o[#[trigger] u[i]].0, o[z].0) by {
            if t.len() > 0 && !text_le(o[t.last()].0, o[x].0) {
                assert(text_le(o[order[t.len() - 1]].0, o[order[order.len() - 1]].0));
                crate::textmap::lemma_text_le_trans(o[u[i]].0, o[t.last()].0, o[z].0);
            } else {
                crate::textmap::lemma_text_le_trans(o[u[i]].0, o[x].0, o[z].0);
            }
        }
        assert forall|i: int| 0 <= i < q.len() implies text_le(o[#[trigger] q[i]].0, o[z].0) by {
            if i < u.len() {
                assert(q[i] == u[i]);
            }
        }
        assert forall|i: int, j: int| 0 <= i < j < q.len() implies text_le(
            o[#[trigger] q[i]].0,
            o[#[trigger] q[j]].0,
        ) by {
            assert(q[i] == u[i]);
            if j < u.len() {
                assert(q[j] == u[j]);
            }
        }
    }
}

proof fn lemma_order_in_order(o: Seq<(Seq<char>, JsonModel)>, n: int)
    requires
        0 <= n <= o.len(),
    ensures
        in_order(key_order(o, n), o),
    decreases n,
{
    if n > 0 {
        lemma_order_in_order(o, n - 1);
        lemma_placed_in_order(key_order(o, n - 1), o, n - 1);
    }
}

/// The entries of an object are ordered by their keys, and each is listed.
pub proof fn law_key_order(o: Seq<(Seq<char>, JsonModel)>, n: int)
    requires
        0 <= n <= o.len(),
    ensures
        key_order(o, n).len() == n,
        forall|i: int| 0 <= i < n ==> 0 <= (#[trigger] key_order(o, n)[i]) < n,
        forall|i: int, j: int|
            0 <= i < j < n ==> text_le(
                o[#[trigger] key_order(o, n)[i]].0,
                o[#[trigger] key_order(o, n)[j]].0,
            ),
{
    lemma_key_order_members(o, n);
    lemma_order_in_order(o, n);
}

/// Entries whose keys are in order stay where they are.
proof fn lemma_order_identity(o: Seq<(Seq<char>, JsonModel)>, n: int)
    requires
        0 <= n <= o.len(),
        forall|i: int, j: int|
            0 <= i < j < o.len() ==> text_le((#[trigger] o[i]).0, (#[trigger] o[j]).0),
    ensures
        key_order(o, n) == Seq::new(n as nat, |i: int| i),
    decreases n,
{
    if n > 0 {
        lemma_order_identity(o, n - 1);
        assert(key_order(o, n) =~= Seq::new(n as nat, |i: int| i));
    } else {
        assert(key_order(o, n) =~= Seq::new(n as nat, |i: int| i));
    }
}

proof fn lemma_items_alike(a: Seq<JsonModel>, b: Seq<JsonModel>, n: nat)
    requires
        n <= a.len(),
        a.len() == b.len(),
        forall|i: int|
            0 <= i < a.len() ==> written(#[trigger] a[i], None) == written(b[i], None),
    ensures
        written_items(a, None, n) == written_items(b, None, n),
    decreases n,
{
    if n > 0 {
        lemma_items_alike(a, b, (n - 1) as nat);
        assert(written(a[n - 1], None) == written(b[n - 1], None));
    }
}

proof fn lemma_entries_alike(
    a: Seq<(Seq<char>, JsonModel)>,
    x: Seq<int>,
    b: Seq<(Seq<char>, JsonModel)>,
    y: Seq<int>,
    n: nat,
)
    requires
        n <= x.len(),
        x.len() == y.len(),
        forall|i: int|
            #![trigger x[i]]
            #![trigger y[i]]
            0 <= i < x.len() ==> 0 <= x[i] < a.len() && 0 <= y[i] < b.len() && a[x[i]].0
                == b[y[i]].0 && written(a[x[i]].1, None) == written(b[y[i]].1, None),
    ensures
        written_entries(a, x, None, n) == written_entries(b, y, None, n),
    decreases n,
{
    if n > 0 {
        lemma_entries_alike(a, x, b, y, (n - 1) as nat);
        assert(0 <= x[n - 1] < a.len());
        assert(0 <= y[n - 1] < b.len());
    }
}

/// The canonical text does not depend on the order in which entries were added: a
/// value and the one that reads back from its text have the same text.
pub proof fn law_canonical_text_stable(m: JsonModel)
    ensures
        written(canonical(m), None) == written(m, None),
    decreases m,
{
    match m {
        JsonModel::Arr(v) => {
            let c = canonical(m)->Arr_0;
            assert forall|i: int| 0 <= i < c.len() implies written(#[trigger] c[i], None)
                == written(v[i], None) by {
                law_canonical_text_stable(v[i]);
            }
            lemma_items_alike(c, v, v.len());
        },
        JsonModel::Obj(o) => {
            let n = o.len() as int;
            let c = canonical(m)->Obj_0;
            let order = key_order(o, n);
            lemma_key_order_members(o, n);
            lemma_order_in_order(o, n);
            assert forall|i: int, j: int| 0 <= i < j < c.len() implies text_le(
                (#[trigger] c[i]).0,
                (#[trigger] c[j]).0,
            ) by {
                assert(c[i].0 == o[order[i]].0);
                assert(c[j].0 == o[order[j]].0);
            }
            lemma_order_identity(c, n);
            let id = key_order(c, n);
            assert forall|i: int|
                #![trigger id[i]]
                #![trigger order[i]]
                0 <= i < id.len() implies 0 <= id[i] < c.len() && 0 <= order[i] < o.len()
                && c[id[i]].0 == o[order[i]].0 && written(c[id[i]].1, None) == written(
                o[order[i]].1,
                None,
            ) by {
                assert(id[i] == i);
                assert(0 <= order[i] < o.len());
                law_canonical_text_stable(o[order[i]].1);
            }
            lemma_entries_alike(c, id, o, order, o.len());
        },
        _ => {},
    }
}

/// Lower-case hexadecimal text of a byte string.
pub fn hex_encode(data: &[u8]) -> (s: String)
    ensures
        s@ == hex_of(data@),
{
    hex_string(data)
}

/// What decoding hexadecimal text gives, white space around it aside.
pub open spec fn hex_decoded(s: Seq<char>) -> Result<Seq<u8>, Seq<char>> {
    let b = encode_utf8(trim(s));
    if b.len() % 2 != 0 {
        Err("odd-length hex string"@)
    } else if !all_digits(b) {
        Err("bad hex digit"@)
    } else {
        Ok(pair_values(b))
    }
}

/// Decodes hexadecimal text.
pub fn hex_decode(s: &str) -> (r: Result<Vec<u8>, String>)
    ensures
        match r {
            Ok(v) => hex_decoded(s@) == Ok::<Seq<u8>, Seq<char>>(v@),
            Err(e) => hex_decoded(s@) == Err::<Seq<u8>, Seq<char>>(e@),
        },
{
    let t = trimmed(s);
    let b = t.as_str().as_bytes();
    if b.len() % 2 != 0 {
        return Err("odd-length hex string".to_string());
    }
    match decode_pairs(b) {
        Ok(v) => Ok(v),
        Err(i) => {
            assert(digit_value(b@[i as int]) is None);
            Err("bad hex digit".to_string())
        },
    }
}

/// Hexadecimal text reads back as the bytes that it was written for.
pub proof fn law_hex_read_back(data: Seq<u8>)
    ensures
        hex_decoded(hex_of(data)) == Ok::<Seq<u8>, Seq<char>>(data),
{
    crate::hex::law_decode_encode(data);
}

impl Json {
    /// The same value once more.
    pub fn copy(&self) -> (r: Json)
        ensures
            r@ == self@,
        decreases self,
    {
        proof {
            lemma_model(*self);
        }
        match self {
            Json::Null => Json::Null,
            Json::Bool(b) => Json::Bool(*b),
            Json::Num(n) => Json::Num(*n),
            Json::Real(t) => Json::Real(t.clone()),
            Json::Str(t) => Json::Str(t.clone()),
            Json::Arr(v) => {
                let mut out: Vec<Json> = Vec::new();
                let mut i: usize = 0;
                while i < v.len()
                    invariant
                        i <= v@.len(),
                        self == Json::Arr(*v),
                        items_of(out@) == items_of(v@).take(i as int),
                    decreases v@.len() - i,
                {
                    let ghost before = out@;
                    proof {
                        assert(decreases_to!(self => self->Arr_0));
                        assert(decreases_to!(self->Arr_0 => self->Arr_0[i as int]));
                    }
                    let x = v[i].copy();
                    let ghost xm = x@;
                    out.push(x);
                    i += 1;
                    assert(items_of(out@) =~= items_of(before).push(xm));
                    assert(items_of(out@) =~= items_of(v@).take(i as int));
                }
                let r = Json::Arr(out);
                proof {
                    lemma_model(r);
                    assert(items_of(v@).take(i as int) =~= items_of(v@));
                }
                r
            },
            Json::Obj(m) => {
                let mut out: Vec<(String, Json)> = Vec::new();
                let mut i: usize = 0;
                while i < m.len()
                    invariant
                        i <= m@.len(),
                        self == Json::Obj(*m),
                        entries_of(out@) == entries_of(m@).take(i as int),
                    decreases m@.len() - i,
                {
                    let ghost before = out@;
                    proof {
                        assert(decreases_to!(self => self->Obj_0));
                        assert(decreases_to!(self->Obj_0 => self->Obj_0[i as int]));
                        assert(decreases_to!(self->Obj_0[i as int] => self->Obj_0[i as int].1));
                    }
                    let k = m[i].0.clone();
                    let x = m[i].1.copy();
                    let ghost xm = x@;
                    let ghost km = k@;
                    out.push((k, x));
                    i += 1;
                    assert(entries_of(out@) =~= entries_of(before).push((km, xm)));
                    assert(entries_of(out@) =~= entries_of(m@).take(i as int));
                }
                let r = Json::Obj(out);
                proof {
                    lemma_model(r);
                    assert(entries_of(m@).take(i as int) =~= entries_of(m@));
                }
                r
            },
        }
    }

    /// An array.
    pub fn arr(items: Vec<Json>) -> (r: Json)
        ensures
            r@ == JsonModel::Arr(items_of(items@)),
    {
        let r = Json::Arr(items);
        proof {
            lemma_model(r);
        }
        r
    }
}

/// The first of the first `n` entries that has the key.
spec fn upto(o: Seq<(Seq<char>, JsonModel)>, key: Seq<char>, n: int) -> Option<int>
    decreases n,
{
    if n <= 0 {
        None
    } else {
        match upto(o, key, n - 1) {
            Some(k) => Some(k),
            None => if o[n - 1].0 == key {
                Some(n - 1)
            } else {
                None
            },
        }
    }
}

/// The first entry with the key in an order of entries.
spec fn hit(order: Seq<int>, o: Seq<(Seq<char>, JsonModel)>, key: Seq<char>) -> Option<int>
    decreases order.len(),
{
    if order.len() == 0 {
        None
    } else {
        match hit(order.drop_last(), o, key) {
            Some(k) => Some(k),
            None => if o[order.last()].0 == key {
                Some(order.last())
            } else {
                None
            },
        }
    }
}

proof fn lemma_upto_stays(o: Seq<(Seq<char>, JsonModel)>, key: Seq<char>, i: int, n: int)
    requires
        upto(o, key, i) is Some,
        i <= n,
    ensures
        upto(o, key, n) == upto(o, key, i),
    decreases n - i,
{
    if i < n {
        lemma_upto_stays(o, key, i, n - 1);
    }
}

proof fn lemma_entry_upto(o: Seq<(Seq<char>, JsonModel)>, key: Seq<char>, i: int)
    requires
        0 <= i <= o.len(),
        upto(o, key, i) is None,
    ensures
        entry_at(o, key, i) == upto(o, key, o.len() as int),
    decreases o.len() - i,
{
    if i < o.len() {
        if o[i].0 == key {
            assert(upto(o, key, i + 1) == Some(i));
            lemma_upto_stays(o, key, i + 1, o.len() as int);
        } else {
            lemma_entry_upto(o, key, i + 1);
        }
    }
}

proof fn lemma_hit_placed(
    order: Seq<int>,
    o: Seq<(Seq<char>, JsonModel)>,
    x: int,
    key: Seq<char>,
)
    ensures
        hit(key_placed(order, o, x), o, key) == (match hit(order, o, key) {
            Some(k) => Some(k),
            None => if o[x].0 == key {
                Some(x)
            } else {
                None
            },
        }),
    decreases order.len(),
{
    let q = key_placed(order, o, x);
    if order.len() == 0 || text_le(o[order.last()].0, o[x].0) {
        assert(q.drop_last() =~= order);
    } else {
        let t = order.drop_last();
        lemma_hit_placed(t, o, x, key);
        assert(q.drop_last() =~= key_placed(t, o, x));
        crate::text::law_text_order_total(o[x].0, o[x].0);
    }
}

proof fn lemma_hit_order(o: Seq<(Seq<char>, JsonModel)>, key: Seq<char>, n: int)
    requires
        0 <= n <= o.len(),
    ensures
        hit(key_order(o, n), o, key) == upto(o, key, n),
    decreases n,
{
    if n > 0 {
        lemma_hit_order(o, key, n - 1);
        lemma_hit_placed(key_order(o, n - 1), o, n - 1, key);
    }
}

proof fn lemma_hit_entries(
    c: Seq<(Seq<char>, JsonModel)>,
    order: Seq<int>,
    o: Seq<(Seq<char>, JsonModel)>,
    key: Seq<char>,
    n: int,
)
    requires
        0 <= n <= order.len(),
        order.len() == c.len(),
        forall|i: int| 0 <= i < c.len() ==> (#[trigger] c[i]).0 == o[order[i]].0,
    ensures
        match upto(c, key, n) {
            Some(i) => 0 <= i < n && hit(order.take(n), o, key) == Some(order[i]),
            None => hit(order.take(n), o, key) is None,
        },
    decreases n,
{
    if n > 0 {
        lemma_hit_entries(c, order, o, key, n - 1);
        assert(order.take(n).drop_last() =~= order.take(n - 1));
        assert(c[n - 1].0 == o[order[n - 1]].0);
    }
}

/// Ordering the entries of objects changes no lookup.
pub proof fn law_canonical_field(m: JsonModel, key: Seq<char>)
    ensures
        canonical(m).field(key) == (match m.field(key) {
            Some(v) => Some(canonical(v)),
            None => None,
        }),
{
    if let JsonModel::Obj(o) = m {
        let order = key_order(o, o.len() as int);
        let c = canonical(m)->Obj_0;
        lemma_key_order_members(o, o.len() as int);
        assert(order.len() == o.len());
        assert forall|i: int| 0 <= i < c.len() implies (#[trigger] c[i]).0 == o[order[i]].0 by {
            assert(0 <= order[i] < o.len());
        }
        lemma_hit_entries(c, order, o, key, o.len() as int);
        assert(order.take(o.len() as int) =~= order);
        lemma_hit_order(o, key, o.len() as int);
        lemma_entry_upto(o, key, 0);
        lemma_entry_upto(c, key, 0);
        if let Some(i) = upto(c, key, c.len() as int) {
            assert(0 <= order[i] < o.len());
        }
    }
}

} // verus!
