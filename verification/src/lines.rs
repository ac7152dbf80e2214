//! Lines, words and queries of request text.

use vstd::prelude::*;
use vstd::utf8::encode_utf8;
use crate::hex::digit_value;
use crate::text::{
    chars_of, fields, lossy, number, parse_number, same, space, split_fields, sub_string, trim,
    trimmed, utf8_lossy, views,
};

verus! {

/// Where the next line break from `i` on stands, or the end of the text.
pub open spec fn break_from(s: Seq<char>, i: int) -> int
    decreases s.len() - i,
{
    if i >= s.len() {
        s.len() as int
    } else if i + 1 < s.len() && s[i] == '\r' && s[i + 1] == '\n' {
        i
    } else {
        break_from(s, i + 1)
    }
}

/// The lines from `i` on; a carriage return and a line feed break a line.
pub open spec fn lines_from(s: Seq<char>, i: int) -> Seq<Seq<char>>
    decreases s.len() - i,
{
    let e = break_from(s, i);
    if e < i || e + 2 > s.len() {
        seq![s.subrange(i, s.len() as int)]
    } else {
        seq![s.subrange(i, e)] + lines_from(s, e + 2)
    }
}

/// The lines of a text, of which there is at least one.
pub open spec fn lines(s: Seq<char>) -> Seq<Seq<char>> {
    lines_from(s, 0)
}

fn find_break(v: &Vec<char>, i: usize) -> (r: usize)
    requires
        i <= v@.len(),
    ensures
        r == break_from(v@, i as int),
        i <= r <= v@.len(),
        r < v@.len() ==> r + 2 <= v@.len(),
{
    let mut k: usize = i;
    while k < v.len()
        invariant
            i <= k <= v@.len(),
            break_from(v@, i as int) == break_from(v@, k as int),
        decreases v@.len() - k,
    {
        if v.len() - k >= 2 && v[k] == '\r' && v[k + 1] == '\n' {
            return k;
        }
        k += 1;
    }
    k
}

/// The lines of a text.
pub fn split_lines(s: &str) -> (r: Vec<String>)
    ensures
        views(r@) == lines(s@),
        r@.len() >= 1,
{
    let v = chars_of(s);
    let mut r: Vec<String> = Vec::new();
    let mut i: usize = 0;
    assert(views(r@) + lines_from(v@, 0) =~= lines(s@));
    loop
        invariant
            i <= v@.len(),
            v@ == s@,
            views(r@) + lines_from(v@, i as int) == lines(s@),
        decreases v@.len() - i,
    {
        let ghost before = r@;
        let e: usize = find_break(&v, i);
        let line = sub_string(&v, i, e);
        let ghost lv = line@;
        r.push(line);
        assert(views(r@) =~= views(before).push(lv));
        if e >= v.len() {
            assert(views(r@) =~= views(before) + lines_from(v@, i as int));
            return r;
        }
        assert(views(r@) + lines_from(v@, e + 2) =~= views(before) + lines_from(v@, i as int));
        i = e + 2;
    }
}

/// Where the next word from `i` on starts, or the end of the text.
pub open spec fn word_start(s: Seq<char>, i: int) -> int
    decreases s.len() - i,
{
    if 0 <= i < s.len() && crate::text::is_space(s[i]) {
        word_start(s, i + 1)
    } else {
        i
    }
}

/// Where the word at `i` ends.
pub open spec fn word_end(s: Seq<char>, i: int) -> int
    decreases s.len() - i,
{
    if 0 <= i < s.len() && !crate::text::is_space(s[i]) {
        word_end(s, i + 1)
    } else {
        i
    }
}

/// The next word from `i` on: where it starts and ends.
pub open spec fn next_word(s: Seq<char>, i: int) -> Option<(int, int)> {
    let a = word_start(s, i);
    if a >= s.len() {
        None
    } else {
        Some((a, word_end(s, a)))
    }
}

fn find_word(v: &Vec<char>, i: usize) -> (r: Option<(usize, usize)>)
    requires
        i <= v@.len(),
    ensures
        match r {
            Some((a, b)) => next_word(v@, i as int) == Some((a as int, b as int)) && i <= a <= b
                <= v@.len(),
            None => next_word(v@, i as int) is None,
        },
{
    let mut a: usize = i;
    while a < v.len() && space(v[a])
        invariant
            i <= a <= v@.len(),
            word_start(v@, i as int) == word_start(v@, a as int),
        decreases v@.len() - a,
    {
        a += 1;
    }
    if a >= v.len() {
        return None;
    }
    let mut b: usize = a;
    while b < v.len() && !space(v[b])
        invariant
            a <= b <= v@.len(),
            word_end(v@, a as int) == word_end(v@, b as int),
        decreases v@.len() - b,
    {
        b += 1;
    }
    Some((a, b))
}

/// The first word of a text, if it has one.
pub open spec fn first_word(s: Seq<char>) -> Option<Seq<char>> {
    match next_word(s, 0) {
        Some((a, b)) => Some(s.subrange(a, b)),
        None => None,
    }
}

/// The second word of a text, if it has one.
pub open spec fn second_word(s: Seq<char>) -> Option<Seq<char>> {
    match next_word(s, 0) {
        Some((_, e)) => match next_word(s, e) {
            Some((a, b)) => Some(s.subrange(a, b)),
            None => None,
        },
        None => None,
    }
}

/// The first two words of a text, as far as it has them.
pub fn two_words(s: &str) -> (r: (Option<String>, Option<String>))
    ensures
        match r.0 {
            Some(t) => first_word(s@) == Some(t@),
            None => first_word(s@) is None,
        },
        match r.1 {
            Some(t) => second_word(s@) == Some(t@),
            None => second_word(s@) is None,
        },
{
    let v = chars_of(s);
    match find_word(&v, 0) {
        None => (None, None),
        Some((a, b)) => {
            let first = sub_string(&v, a, b);
            match find_word(&v, b) {
                None => (Some(first), None),
                Some((c, d)) => (Some(first), Some(sub_string(&v, c, d))),
            }
        },
    }
}

/// Where a character first stands from `i` on, if it does.
pub open spec fn position(s: Seq<char>, c: char, i: int) -> Option<int>
    decreases s.len() - i,
{
    if i < 0 || i >= s.len() {
        None
    } else if s[i] == c {
        Some(i)
    } else {
        position(s, c, i + 1)
    }
}

fn find(v: &Vec<char>, c: char) -> (r: Option<usize>)
    ensures
        match r {
            Some(k) => position(v@, c, 0) == Some(k as int) && k < v@.len(),
            None => position(v@, c, 0) is None,
        },
{
    let mut k: usize = 0;
    while k < v.len()
        invariant
            k <= v@.len(),
            position(v@, c, 0) == position(v@, c, k as int),
        decreases v@.len() - k,
    {
        if v[k] == c {
            return Some(k);
        }
        k += 1;
    }
    None
}

/// The text before the first `c`, and that behind it if there is one.
pub open spec fn cut(s: Seq<char>, c: char) -> (Seq<char>, Option<Seq<char>>) {
    match position(s, c, 0) {
        Some(k) => (s.subrange(0, k), Some(s.subrange(k + 1, s.len() as int))),
        None => (s, None),
    }
}

/// The text before the first `c`, and that behind it if there is one.
pub fn cut_at(s: &str, c: char) -> (r: (String, Option<String>))
    ensures
        r.0@ == cut(s@, c).0,
        match r.1 {
            Some(t) => cut(s@, c).1 == Some(t@),
            None => cut(s@, c).1 is None,
        },
{
    let v = chars_of(s);
    let n: usize = v.len();
    match find(&v, c) {
        Some(k) => (sub_string(&v, 0, k), Some(sub_string(&v, k + 1, n))),
        None => (s.to_string(), None),
    }
}

/// A letter of the English alphabet in lower case, any other character as it is.
pub open spec fn lower(c: char) -> char {
    if 'A' <= c <= 'Z' {
        (c as u32 + 32) as char
    } else {
        c
    }
}

fn lowered(c: char) -> (r: char)
    ensures
        r == lower(c),
{
    if 'A' <= c && c <= 'Z' {
        let b: u8 = c as u8;
        (b + 32) as char
    } else {
        c
    }
}

/// The text starts with `p`, whichever case its English letters are in.
pub open spec fn starts_alike(s: Seq<char>, p: Seq<char>) -> bool {
    p.len() <= s.len() && forall|i: int| 0 <= i < p.len() ==> lower(s[i]) == lower(#[trigger] p[i])
}

fn is_start(v: &Vec<char>, p: &str) -> (r: bool)
    ensures
        r == starts_alike(v@, p@),
{
    let w = chars_of(p);
    let n: usize = w.len();
    if v.len() < n {
        return false;
    }
    let mut k: usize = 0;
    while k < n
        invariant
            k <= n,
            n == w@.len(),
            n <= v@.len(),
            w@ == p@,
            forall|i: int| 0 <= i < k ==> lower(v@[i]) == lower(#[trigger] p@[i]),
        decreases n - k,
    {
        if lowered(v[k]) != lowered(w[k]) {
            assert(lower(v@[k as int]) != lower(p@[k as int]));
            return false;
        }
        k += 1;
    }
    true
}

/// The number that a text stands for, or nought.
pub open spec fn size(s: Seq<char>) -> int {
    match number(trim(s), 10, usize::MAX as int) {
        Some(n) => n,
        None => 0,
    }
}

fn read_size(s: &str) -> (r: usize)
    ensures
        r == size(s@),
{
    let t = trimmed(s);
    match parse_number(t.as_str(), 10, usize::MAX as u64) {
        Some(n) => n as usize,
        None => 0,
    }
}

/// The size that a header line gives to the body, if it is the line for that.
pub open spec fn length_line(line: Seq<char>) -> Option<int> {
    if starts_alike(line, "content-length:"@) {
        Some(size(line.skip("content-length:"@.len() as int)))
    } else {
        None
    }
}

/// The size that a header line gives to the body, if it is the line for that.
pub fn read_length_line(line: &str) -> (r: Option<usize>)
    ensures
        match r {
            Some(n) => length_line(line@) == Some(n as int),
            None => length_line(line@) is None,
        },
{
    let v = chars_of(line);
    let n: usize = v.len();
    if is_start(&v, "content-length:") {
        proof {
            reveal_strlit("content-length:");
            assert("content-length:"@.len() == 15);
        }
        let rest = sub_string(&v, 15, n);
        assert(rest@ =~= line@.skip(15));
        Some(read_size(rest.as_str()))
    } else {
        None
    }
}

/// The same text, whichever case its English letters are in.
pub open spec fn alike(s: Seq<char>, p: Seq<char>) -> bool {
    s.len() == p.len() && starts_alike(s, p)
}

/// The size that a header line gives to the body, if its name is the one for that
/// between white space.
pub open spec fn length_field(line: Seq<char>) -> Option<int> {
    match cut(line, ':') {
        (k, Some(v)) => if alike(trim(k), "content-length"@) {
            Some(size(v))
        } else {
            None
        },
        _ => None,
    }
}

/// The size that a header line gives to the body, if its name is the one for that
/// between white space.
pub fn read_length_field(line: &str) -> (r: Option<usize>)
    ensures
        match r {
            Some(n) => length_field(line@) == Some(n as int),
            None => length_field(line@) is None,
        },
{
    let (k, v) = cut_at(line, ':');
    match v {
        None => None,
        Some(v) => {
            let name = trimmed(k.as_str());
            let c = chars_of(name.as_str());
            proof {
                reveal_strlit("content-length");
                assert("content-length"@.len() == 14);
            }
            if c.len() == 14 && is_start(&c, "content-length") {
                Some(read_size(v.as_str()))
            } else {
                None
            }
        },
    }
}

/// Where the blank line behind a head starts, from `i` on.
pub open spec fn head_end(b: Seq<u8>, i: int) -> Option<int>
    decreases b.len() - i,
{
    if i < 0 || i + 4 > b.len() {
        None
    } else if b[i] == 13 && b[i + 1] == 10 && b[i + 2] == 13 && b[i + 3] == 10 {
        Some(i)
    } else {
        head_end(b, i + 1)
    }
}

/// Where the blank line behind a head starts.
pub fn find_head_end(b: &[u8]) -> (r: Option<usize>)
    ensures
        match r {
            Some(k) => head_end(b@, 0) == Some(k as int) && k + 4 <= b@.len(),
            None => head_end(b@, 0) is None,
        },
{
    let n: usize = b.len();
    let mut k: usize = 0;
    while k < n && n - k >= 4
        invariant
            k <= n,
            n == b@.len(),
            head_end(b@, 0) == head_end(b@, k as int),
        decreases n - k,
    {
        if b[k] == 13 && b[k + 1] == 10 && b[k + 2] == 13 && b[k + 3] == 10 {
            return Some(k);
        }
        k += 1;
    }
    None
}

/// The byte of an escape: two digits, or one behind a plus sign, or nought.
pub open spec fn escape_byte(a: u8, b: u8) -> u8 {
    match (digit_value(a), digit_value(b)) {
        (Some(x), Some(y)) => (x * 16 + y) as u8,
        (None, Some(y)) => if a == 43 {
            y as u8
        } else {
            0
        },
        _ => 0,
    }
}

pub(crate) fn digit(c: u8) -> (r: Option<u8>)
    ensures
        match r {
            Some(d) => digit_value(c) == Some(d as int) && d < 16,
            None => digit_value(c) is None,
        },
{
    if 48 <= c && c <= 57 {
        Some(c - 48)
    } else if 97 <= c && c <= 102 {
        Some(c - 87)
    } else if 65 <= c && c <= 70 {
        Some(c - 55)
    } else {
        None
    }
}

fn unescape(a: u8, b: u8) -> (r: u8)
    ensures
        r == escape_byte(a, b),
{
    match (digit(a), digit(b)) {
        (Some(x), Some(y)) => x * 16 + y,
        (None, Some(y)) => if a == 43 {
            y
        } else {
            0
        },
        _ => 0,
    }
}

/// The bytes from `i` on with plus signs as blanks and escapes read, behind those
/// read before. A percent sign that fewer than two bytes follow stands for itself.
pub open spec fn unescaped(b: Seq<u8>, i: int, acc: Seq<u8>) -> Seq<u8>
    decreases b.len() - i,
{
    if i < 0 || i >= b.len() {
        acc
    } else if b[i] == 43 {
        unescaped(b, i + 1, acc.push(32))
    } else if b[i] == 37 && i + 2 < b.len() {
        unescaped(b, i + 3, acc.push(escape_byte(b[i + 1], b[i + 2])))
    } else {
        unescaped(b, i + 1, acc.push(b[i]))
    }
}

/// The bytes with plus signs as blanks and escapes read.
pub fn unescape_bytes(b: &[u8]) -> (r: Vec<u8>)
    ensures
        r@ == unescaped(b@, 0, seq![]),
{
    let n: usize = b.len();
    let mut r: Vec<u8> = Vec::new();
    let mut i: usize = 0;
    assert(r@ =~= seq![]);
    while i < n
        invariant
            i <= n,
            n == b@.len(),
            unescaped(b@, i as int, r@) == unescaped(b@, 0, seq![]),
        decreases n - i,
    {
        if b[i] == 43 {
            r.push(32);
            i += 1;
        } else if b[i] == 37 && n - i > 2 {
            r.push(unescape(b[i + 1], b[i + 2]));
            i += 3;
        } else {
            r.push(b[i]);
            i += 1;
        }
    }
    r
}

/// The text of a query value.
pub open spec fn decoded(s: Seq<char>) -> Seq<char> {
    utf8_lossy(unescaped(encode_utf8(s), 0, seq![]))
}

/// The text of a query value.
pub fn decode(s: &str) -> (r: String)
    ensures
        r@ == decoded(s@),
{
    let b = unescape_bytes(s.as_bytes());
    lossy(b.as_slice())
}

/// The value of the first of the pairs from `i` on that has the key, as it was
/// written.
pub open spec fn raw_value(pairs: Seq<Seq<char>>, key: Seq<char>, i: int) -> Option<Seq<char>>
    decreases pairs.len() - i,
{
    if i < 0 || i >= pairs.len() {
        None
    } else if cut(pairs[i], '=').0 == key {
        Some(
            match cut(pairs[i], '=').1 {
                Some(v) => v,
                None => seq![],
            },
        )
    } else {
        raw_value(pairs, key, i + 1)
    }
}

/// The value of a key in a query.
pub open spec fn query_value(q: Seq<char>, key: Seq<char>) -> Option<Seq<char>> {
    match raw_value(fields(q, '&'), key, 0) {
        Some(v) => Some(decoded(v)),
        None => None,
    }
}

/// The value of a key in a query.
pub fn query_get(q: &str, key: &str) -> (r: Option<String>)
    ensures
        match r {
            Some(v) => query_value(q@, key@) == Some(v@),
            None => query_value(q@, key@) is None,
        },
{
    let pairs = split_fields(q, '&');
    let ghost ps = views(pairs@);
    let mut i: usize = 0;
    while i < pairs.len()
        invariant
            i <= pairs@.len(),
            ps == views(pairs@),
            ps == fields(q@, '&'),
            raw_value(ps, key@, 0) == raw_value(ps, key@, i as int),
        decreases pairs@.len() - i,
    {
        assert(ps[i as int] == pairs@[i as int]@);
        let (k, v) = cut_at(pairs[i].as_str(), '=');
        if same(k.as_str(), key) {
            let text = match v {
                Some(v) => v,
                None => String::new(),
            };
            assert(v is None ==> text@ =~= seq![]);
            return Some(decode(text.as_str()));
        }
        i += 1;
    }
    None
}

/// The text behind a prefix, if it has that prefix.
pub open spec fn behind(s: Seq<char>, p: Seq<char>) -> Option<Seq<char>> {
    if p.len() <= s.len() && s.take(p.len() as int) == p {
        Some(s.skip(p.len() as int))
    } else {
        None
    }
}

/// The text behind a prefix, if it has that prefix.
pub fn strip(s: &str, p: &str) -> (r: Option<String>)
    ensures
        match r {
            Some(t) => behind(s@, p@) == Some(t@),
            None => behind(s@, p@) is None,
        },
{
    let v = chars_of(s);
    let w = chars_of(p);
    let n: usize = v.len();
    let m: usize = w.len();
    if n < m {
        return None;
    }
    let front = sub_string(&v, 0, m);
    assert(front@ =~= s@.take(m as int));
    if !same(front.as_str(), p) {
        return None;
    }
    let rest = sub_string(&v, m, n);
    assert(rest@ =~= s@.skip(m as int));
    Some(rest)
}

} // verus!
