//! Text building: decimal and hexadecimal digits, and the few `String`
//! operations that the rest of the library is written with.

use vstd::prelude::*;
use vstd::utf8::{decode_utf8, valid_utf8};

verus! {

/// `String::push` of the standard library: appends one character.
pub assume_specification[ String::push ](s: &mut String, c: char)
    ensures
        final(s)@ == old(s)@.push(c),
;

/// The character of a digit in 0..=9.
pub open spec fn digit_char(d: int) -> char {
    (48 + d) as char
}

/// Decimal notation without leading zeros.
pub open spec fn dec(n: nat) -> Seq<char>
    decreases n,
{
    if n < 10 {
        seq![digit_char(n as int)]
    } else {
        dec(n / 10).push(digit_char((n % 10) as int))
    }
}

/// Decimal notation of a signed number.
pub open spec fn dec_int(n: int) -> Seq<char> {
    if n < 0 {
        seq!['-'] + dec((-n) as nat)
    } else {
        dec(n as nat)
    }
}

/// The lower-case character of a nibble.
pub open spec fn hex_char(d: int) -> char {
    if d < 10 {
        (48 + d) as char
    } else {
        (87 + d) as char
    }
}

/// Lower-case hexadecimal notation, two characters per byte.
pub open spec fn hex_of(data: Seq<u8>) -> Seq<char> {
    Seq::new(
        2 * data.len(),
        |i: int|
            if i % 2 == 0 {
                hex_char(data[i / 2] as int / 16)
            } else {
                hex_char(data[i / 2] as int % 16)
            },
    )
}

/// Hexadecimal notation without leading zeros.
pub open spec fn hex_min(n: nat) -> Seq<char>
    decreases n,
{
    if n < 16 {
        seq![hex_char(n as int)]
    } else {
        hex_min(n / 16).push(hex_char((n % 16) as int))
    }
}

pub fn push_dec(s: &mut String, n: u64)
    ensures
        final(s)@ == old(s)@ + dec(n as nat),
    decreases n,
{
    if n >= 10 {
        push_dec(s, n / 10);
    }
    let d: u8 = (n % 10) as u8;
    s.push((48u8 + d) as char);
}

pub fn push_dec_i64(s: &mut String, n: i64)
    ensures
        final(s)@ == old(s)@ + dec_int(n as int),
{
    if n < 0 {
        s.push('-');
        let m: u64 = (0i128 - n as i128) as u64;
        push_dec(s, m);
    } else {
        push_dec(s, n as u64);
    }
}

fn nibble_char(d: u8) -> (c: char)
    requires
        d < 16,
    ensures
        c == hex_char(d as int),
{
    if d < 10 {
        (48u8 + d) as char
    } else {
        (87u8 + d) as char
    }
}

pub fn push_hex_min(s: &mut String, n: u16)
    ensures
        final(s)@ == old(s)@ + hex_min(n as nat),
    decreases n,
{
    if n >= 16 {
        push_hex_min(s, n / 16);
    }
    let d: u8 = (n % 16) as u8;
    s.push(nibble_char(d));
}

pub fn push_hex_byte(s: &mut String, b: u8)
    ensures
        final(s)@ == old(s)@.push(hex_char(b as int / 16)).push(hex_char(b as int % 16)),
{
    s.push(nibble_char(b / 16));
    s.push(nibble_char(b % 16));
}

/// A 16-bit number as four hexadecimal characters.
pub open spec fn hex4(n: int) -> Seq<char> {
    seq![
        hex_char(n / 4096),
        hex_char(n / 256 % 16),
        hex_char(n / 16 % 16),
        hex_char(n % 16),
    ]
}

pub fn push_hex4(s: &mut String, n: u16)
    ensures
        final(s)@ == old(s)@ + hex4(n as int),
{
    s.push(nibble_char((n / 4096) as u8));
    s.push(nibble_char((n / 256 % 16) as u8));
    s.push(nibble_char((n / 16 % 16) as u8));
    s.push(nibble_char((n % 16) as u8));
    assert(s@ =~= old(s)@ + hex4(n as int));
}

/// `a` followed by a decimal number.
pub fn cat_dec(a: &str, n: u64) -> (s: String)
    ensures
        s@ == a@ + dec(n as nat),
{
    let mut s = a.to_string();
    push_dec(&mut s, n);
    s
}

pub proof fn lemma_hex_of_push(data: Seq<u8>, b: u8)
    ensures
        hex_of(data.push(b)) == hex_of(data).push(hex_char(b as int / 16)).push(
            hex_char(b as int % 16),
        ),
{
    let l = hex_of(data.push(b));
    let r = hex_of(data).push(hex_char(b as int / 16)).push(hex_char(b as int % 16));
    assert forall|i: int| 0 <= i < l.len() implies l[i] == r[i] by {
        if i < 2 * data.len() {
            assert(i / 2 < data.len());
        }
    }
    assert(l =~= r);
}

/// Lower-case hexadecimal text of a byte string.
pub fn hex_string(data: &[u8]) -> (s: String)
    ensures
        s@ == hex_of(data@),
{
    let mut s = String::new();
    let mut i: usize = 0;
    assert(s@ =~= hex_of(data@.take(0)));
    while i < data.len()
        invariant
            i <= data.len(),
            s@ == hex_of(data@.take(i as int)),
        decreases data.len() - i,
    {
        proof {
            lemma_hex_of_push(data@.take(i as int), data[i as int]);
            assert(data@.take(i as int).push(data[i as int]) =~= data@.take(i + 1));
        }
        push_hex_byte(&mut s, data[i]);
        i += 1;
    }
    assert(data@.take(i as int) =~= data@);
    s
}

/// Unicode's `White_Space` property.
pub open spec fn is_space(c: char) -> bool {
    ||| '\u{9}' <= c <= '\u{d}'
    ||| c == ' '
    ||| c == '\u{85}'
    ||| c == '\u{a0}'
    ||| c == '\u{1680}'
    ||| '\u{2000}' <= c <= '\u{200a}'
    ||| c == '\u{2028}'
    ||| c == '\u{2029}'
    ||| c == '\u{202f}'
    ||| c == '\u{205f}'
    ||| c == '\u{3000}'
}

pub fn space(c: char) -> (r: bool)
    ensures
        r == is_space(c),
{
    ('\u{9}' <= c && c <= '\u{d}') || c == ' ' || c == '\u{85}' || c == '\u{a0}' || c == '\u{1680}' || (
    '\u{2000}' <= c && c <= '\u{200a}') || c == '\u{2028}' || c == '\u{2029}' || c == '\u{202f}' || c
        == '\u{205f}' || c == '\u{3000}'
}

/// Drops leading white space.
pub open spec fn trim_start(s: Seq<char>) -> Seq<char>
    decreases s.len(),
{
    if s.len() > 0 && is_space(s[0]) {
        trim_start(s.skip(1))
    } else {
        s
    }
}

/// Drops trailing white space.
pub open spec fn trim_end(s: Seq<char>) -> Seq<char>
    decreases s.len(),
{
    if s.len() > 0 && is_space(s.last()) {
        trim_end(s.drop_last())
    } else {
        s
    }
}

/// Drops white space at both ends.
pub open spec fn trim(s: Seq<char>) -> Seq<char> {
    trim_end(trim_start(s))
}

/// The text without white space at both ends.
pub fn trimmed(s: &str) -> (r: String)
    ensures
        r@ == trim(s@),
{
    let v = chars_of(s);
    let n: usize = v.len();
    let mut i: usize = 0;
    assert(s@.skip(0) =~= s@);
    while i < n && space(v[i])
        invariant
            i <= n,
            n == v.len(),
            v@ == s@,
            trim_start(s@) == trim_start(s@.skip(i as int)),
        decreases n - i,
    {
        assert(s@.skip(i as int).skip(1) =~= s@.skip(i + 1));
        i += 1;
    }
    let mut j: usize = n;
    assert(s@.subrange(i as int, n as int) =~= s@.skip(i as int));
    while j > i && space(v[j - 1])
        invariant
            i <= j <= n,
            n == v.len(),
            v@ == s@,
            trim(s@) == trim_end(s@.subrange(i as int, j as int)),
        decreases j,
    {
        assert(s@.subrange(i as int, j as int).drop_last() =~= s@.subrange(i as int, j - 1));
        j -= 1;
    }
    let mut out = String::new();
    let ghost from = i as int;
    while i < j
        invariant
            0 <= from <= i <= j <= v.len(),
            v@ == s@,
            out@ == s@.subrange(from, i as int),
        decreases j - i,
    {
        out.push(v[i]);
        i += 1;
        assert(out@ =~= s@.subrange(from, i as int));
    }
    out
}

/// The characters of a string, in order.
pub fn chars_of(s: &str) -> (v: Vec<char>)
    ensures
        v@ == s@,
{
    let mut v: Vec<char> = Vec::new();
    for c in it: s.chars()
        invariant
            it.seq() == s@,
            v@ == s@.take(it.index() as int),
    {
        v.push(c);
        assert(s@.take(it.index() as int).push(c) =~= s@.take(it.index() + 1));
    }
    assert(s@.take(s@.len() as int) =~= s@);
    v
}

/// The parts of `s` between occurrences of `c`: one more than there are
/// occurrences.
pub open spec fn fields(s: Seq<char>, c: char) -> Seq<Seq<char>>
    decreases s.len(),
{
    if s.len() == 0 {
        seq![Seq::<char>::empty()]
    } else {
        let r = fields(s.drop_last(), c);
        if s.last() == c {
            r.push(Seq::<char>::empty())
        } else {
            r.drop_last().push(r.last().push(s.last()))
        }
    }
}

/// The views of strings.
pub open spec fn views(v: Seq<String>) -> Seq<Seq<char>> {
    Seq::new(v.len(), |i: int| v[i]@)
}

/// Splits a text at every `c`.
pub fn split_fields(s: &str, c: char) -> (r: Vec<String>)
    ensures
        views(r@) == fields(s@, c),
        r@.len() >= 1,
{
    let v = chars_of(s);
    let mut r: Vec<String> = Vec::new();
    let mut cur = String::new();
    let mut i: usize = 0;
    assert(views(r@).push(cur@) =~= fields(s@.take(0), c));
    while i < v.len()
        invariant
            i <= v@.len(),
            v@ == s@,
            views(r@).push(cur@) == fields(s@.take(i as int), c),
        decreases v@.len() - i,
    {
        let ghost before = views(r@).push(cur@);
        proof {
            assert(s@.take(i + 1).drop_last() =~= s@.take(i as int));
            assert(s@.take(i + 1).last() == s@[i as int]);
            assert(before.drop_last() =~= views(r@));
            assert(before.last() == cur@);
        }
        if v[i] == c {
            let ghost r0 = r@;
            let ghost done = cur@;
            r.push(cur);
            cur = String::new();
            assert(views(r@) =~= views(r0).push(done));
        } else {
            cur.push(v[i]);
        }
        i += 1;
    }
    assert(s@.take(i as int) =~= s@);
    let ghost r0 = r@;
    let ghost done = cur@;
    r.push(cur);
    assert(views(r@) =~= views(r0).push(done));
    r
}

/// The value of a digit of a base up to 36, in either case.
pub open spec fn char_digit(c: char, radix: int) -> Option<int> {
    let v = if '0' <= c <= '9' {
        c as int - 48
    } else if 'a' <= c <= 'z' {
        c as int - 87
    } else if 'A' <= c <= 'Z' {
        c as int - 55
    } else {
        99
    };
    if v < radix {
        Some(v)
    } else {
        None
    }
}

/// The number that digits stand for.
pub open spec fn digits_value(s: Seq<char>, radix: int) -> Option<int>
    decreases s.len(),
{
    if s.len() == 0 {
        Some(0)
    } else {
        match (digits_value(s.drop_last(), radix), char_digit(s.last(), radix)) {
            (Some(v), Some(d)) => Some(v * radix + d),
            _ => None,
        }
    }
}

/// The number of an optional `+` and at least one digit, where it is at most
/// `max`.
pub open spec fn number(s: Seq<char>, radix: int, max: int) -> Option<int> {
    let t = if s.len() > 0 && s[0] == '+' {
        s.skip(1)
    } else {
        s
    };
    if t.len() == 0 {
        None
    } else {
        match digits_value(t, radix) {
            Some(v) if v <= max => Some(v),
            _ => None,
        }
    }
}

fn digit_of(c: char, radix: u32) -> (r: Option<u32>)
    requires
        radix <= 36,
    ensures
        match r {
            Some(d) => char_digit(c, radix as int) == Some(d as int),
            None => char_digit(c, radix as int) is None,
        },
{
    let n: u32 = c as u32;
    let v: u32 = if '0' <= c && c <= '9' {
        n - 48
    } else if 'a' <= c && c <= 'z' {
        n - 87
    } else if 'A' <= c && c <= 'Z' {
        n - 55
    } else {
        99
    };
    if v < radix {
        Some(v)
    } else {
        None
    }
}

proof fn lemma_digits_grow(s: Seq<char>, i: int, radix: int)
    requires
        0 <= i <= s.len(),
        radix >= 1,
    ensures
        digits_value(s, radix) is Some ==> digits_value(s.take(i), radix) is Some
            && digits_value(s.take(i), radix)->0 <= digits_value(s, radix)->0
            && digits_value(s.take(i), radix)->0 >= 0,
    decreases s.len(),
{
    if i == s.len() {
        assert(s.take(i) =~= s);
        if s.len() > 0 {
            lemma_digits_grow(s.drop_last(), i - 1, radix);
            assert(s.drop_last().take(i - 1) =~= s.drop_last());
            if digits_value(s, radix) is Some {
                let v = digits_value(s.drop_last(), radix)->0;
                assert(v * radix >= 0) by (nonlinear_arith)
                    requires
                        v >= 0,
                        radix >= 1,
                ;
            }
        }
    } else {
        lemma_digits_grow(s.drop_last(), i, radix);
        assert(s.drop_last().take(i) =~= s.take(i));
        if digits_value(s, radix) is Some {
            let v = digits_value(s.drop_last(), radix)->0;
            lemma_digits_grow(s.drop_last(), (s.len() - 1) as int, radix);
            assert(s.drop_last().take((s.len() - 1) as int) =~= s.drop_last());
            assert(v * radix >= v) by (nonlinear_arith)
                requires
                    v >= 0,
                    radix >= 1,
            ;
        }
    }
}

/// Reads a number as `u64::from_str_radix` and its kin do: an optional `+`,
/// then digits, of a value up to `max`.
pub fn parse_number(s: &str, radix: u32, max: u64) -> (r: Option<u64>)
    requires
        2 <= radix <= 36,
    ensures
        match r {
            Some(v) => number(s@, radix as int, max as int) == Some(v as int),
            None => number(s@, radix as int, max as int) is None,
        },
{
    let v = chars_of(s);
    let start: usize = if v.len() > 0 && v[0] == '+' {
        1
    } else {
        0
    };
    let ghost t = if s@.len() > 0 && s@[0] == '+' {
        s@.skip(1)
    } else {
        s@
    };
    assert(t =~= s@.skip(start as int));
    if start == v.len() {
        return None;
    }
    let mut acc: u64 = 0;
    let mut i: usize = start;
    assert(t.take(0) =~= Seq::<char>::empty());
    while i < v.len()
        invariant
            start <= i <= v@.len(),
            v@ == s@,
            t == s@.skip(start as int),
            2 <= radix <= 36,
            t.len() > 0,
            number(s@, radix as int, max as int) == match digits_value(t, radix as int) {
                Some(v) if v <= max => Some(v),
                _ => None,
            },
            digits_value(t.take(i - start), radix as int) == Some(acc as int),
            acc <= max,
        decreases v@.len() - i,
    {
        proof {
            assert(t.take(i - start + 1).drop_last() =~= t.take(i - start));
            assert(t.take(i - start + 1).last() == s@[i as int]);
            lemma_digits_grow(t, i - start + 1, radix as int);
        }
        match digit_of(v[i], radix) {
            None => {
                return None;
            },
            Some(d) => {
                assert(0 <= acc * radix <= 0xffff_ffff_ffff_ffff * 36) by (nonlinear_arith)
                    requires
                        0 <= acc <= 0xffff_ffff_ffff_ffff,
                        0 <= radix <= 36,
                ;
                let next: u128 = acc as u128 * radix as u128 + d as u128;
                if next > max as u128 {
                    return None;
                }
                acc = next as u64;
            },
        }
        i += 1;
    }
    assert(t.take(i - start) =~= t);
    Some(acc)
}

/// Whether two texts are the same.
pub fn same(a: &str, b: &str) -> (r: bool)
    ensures
        r == (a@ == b@),
{
    a.to_string() == b.to_string()
}

/// The text of `chars[i..j]`.
pub fn sub_string(chars: &Vec<char>, i: usize, j: usize) -> (s: String)
    requires
        i <= j <= chars@.len(),
    ensures
        s@ == chars@.subrange(i as int, j as int),
{
    let mut s = String::new();
    let mut k: usize = i;
    while k < j
        invariant
            i <= k <= j <= chars@.len(),
            s@ == chars@.subrange(i as int, k as int),
        decreases j - k,
    {
        s.push(chars[k]);
        k += 1;
        assert(s@ =~= chars@.subrange(i as int, k as int));
    }
    s
}

/// Appends a text.
pub fn push_text(s: &mut String, t: &str)
    ensures
        final(s)@ == old(s)@ + t@,
{
    vstd::string::StringExecFns::append(s, t);
}

/// `a` followed by `b`.
pub fn cat(a: &str, b: &str) -> (s: String)
    ensures
        s@ == a@ + b@,
{
    let mut s = a.to_string();
    push_text(&mut s, b);
    s
}

/// Appends a decimal number of any width.
pub fn push_dec_wide(s: &mut String, n: u128)
    ensures
        final(s)@ == old(s)@ + dec(n as nat),
    decreases n,
{
    if n >= 10 {
        push_dec_wide(s, n / 10);
    }
    let d: u8 = (n % 10) as u8;
    s.push((48u8 + d) as char);
}

/// Appends a signed decimal number of any width.
pub fn push_dec_i128(s: &mut String, n: i128)
    ensures
        final(s)@ == old(s)@ + dec_int(n as int),
{
    if n < 0 {
        s.push('-');
        let m: u128 = (-(n + 1)) as u128 + 1;
        push_dec_wide(s, m);
    } else {
        push_dec_wide(s, n as u128);
    }
}

/// `a` is `b` or comes before it, by the numbers of their characters.
pub open spec fn text_le(a: Seq<char>, b: Seq<char>) -> bool
    decreases a.len(),
{
    if a.len() == 0 {
        true
    } else if b.len() == 0 {
        false
    } else if a[0] != b[0] {
        a[0] < b[0]
    } else {
        text_le(a.skip(1), b.skip(1))
    }
}

/// Whether `a` is `b` or comes before it.
pub fn at_most(a: &str, b: &str) -> (r: bool)
    ensures
        r == text_le(a@, b@),
{
    let x = chars_of(a);
    let y = chars_of(b);
    let mut i: usize = 0;
    assert(x@.skip(0) =~= x@);
    assert(y@.skip(0) =~= y@);
    while i < x.len() && i < y.len() && x[i] == y[i]
        invariant
            i <= x@.len(),
            i <= y@.len(),
            text_le(x@, y@) == text_le(x@.skip(i as int), y@.skip(i as int)),
        decreases x@.len() - i,
    {
        assert(x@.skip(i as int).skip(1) =~= x@.skip(i + 1));
        assert(y@.skip(i as int).skip(1) =~= y@.skip(i + 1));
        i += 1;
    }
    proof {
        if i < x@.len() {
            assert(x@.skip(i as int)[0] == x@[i as int]);
        }
        if i < y@.len() {
            assert(y@.skip(i as int)[0] == y@[i as int]);
        }
    }
    if i >= x.len() {
        return true;
    }
    if i >= y.len() {
        return false;
    }
    x[i] < y[i]
}

/// Any two texts are in order one way or the other.
pub proof fn law_text_order_total(a: Seq<char>, b: Seq<char>)
    ensures
        text_le(a, b) || text_le(b, a),
        text_le(a, b) && text_le(b, a) ==> a == b,
    decreases a.len(),
{
    if a.len() > 0 && b.len() > 0 {
        law_text_order_total(a.skip(1), b.skip(1));
        if a[0] == b[0] && a.skip(1) == b.skip(1) {
            assert forall|i: int| 0 <= i < a.len() implies a[i] == b[i] by {
                if i > 0 {
                    assert(a.skip(1)[i - 1] == b.skip(1)[i - 1]);
                }
            }
            assert(a.len() == a.skip(1).len() + 1);
            assert(b.len() == b.skip(1).len() + 1);
            assert(a =~= b);
        }
    } else {
        if a.len() == 0 && b.len() == 0 {
            assert(a =~= b);
        }
    }
}

/// A text in quotes, with its special characters escaped.
pub uninterp spec fn quoted(s: Seq<char>) -> Seq<char>;

/// Calls the `Debug` formatting of `str` through `format!`: the text in quotes,
/// with special characters escaped, which depends on the text alone.
#[verifier::external_body]
fn debug_text(s: &str) -> (r: String)
    ensures
        r@ == quoted(s@),
{
    format!("{:?}", s)
}

/// Appends a text in quotes.
pub fn push_quoted(s: &mut String, t: &str)
    ensures
        final(s)@ == old(s)@ + quoted(t@),
{
    push_text(s, debug_text(t).as_str());
}

/// The number that the digits from place `i` on stand for, where it is at most
/// `max` and there is at least one digit.
pub fn digits_from(v: &Vec<char>, i: usize, max: u128) -> (r: Option<u128>)
    requires
        i <= v@.len(),
    ensures
        match r {
            Some(n) => i < v@.len() && digits_value(v@.skip(i as int), 10) == Some(n as int) && n
                <= max,
            None => i == v@.len() || (digits_value(v@.skip(i as int), 10) matches Some(n) ==> n
                > max),
        },
{
    if i == v.len() {
        return None;
    }
    let ghost t = v@.skip(i as int);
    let mut acc: u128 = 0;
    let mut k: usize = i;
    assert(t.take(0) =~= Seq::<char>::empty());
    while k < v.len()
        invariant
            i <= k <= v@.len(),
            t == v@.skip(i as int),
            digits_value(t.take(k - i), 10) == Some(acc as int),
            acc <= max,
        decreases v@.len() - k,
    {
        proof {
            assert(t.take(k - i + 1).drop_last() =~= t.take(k - i));
            assert(t.take(k - i + 1).last() == v@[k as int]);
            lemma_digits_grow(t, k - i + 1, 10);
        }
        match digit_of(v[k], 10) {
            None => {
                return None;
            },
            Some(d) => {
                if acc > max / 10 {
                    return None;
                }
                if max - acc * 10 < d as u128 {
                    return None;
                }
                acc = acc * 10 + d as u128;
            },
        }
        k += 1;
    }
    assert(t.take(k - i) =~= t);
    Some(acc)
}

/// What makes a byte string no UTF-8.
pub uninterp spec fn utf8_error(b: Seq<u8>) -> Seq<char>;

/// Calls `std::str::from_utf8`: the text of a byte string that is UTF-8, and the
/// text of the error for another, which depends on the bytes alone.
#[verifier::external_body]
pub(crate) fn read_utf8(b: &[u8]) -> (r: Result<String, String>)
    ensures
        match r {
            Ok(t) => valid_utf8(b@) && t@ == decode_utf8(b@),
            Err(e) => !valid_utf8(b@) && e@ == utf8_error(b@),
        },
{
    match std::str::from_utf8(b) {
        Ok(t) => Ok(t.to_string()),
        Err(e) => Err(e.to_string()),
    }
}

/// The text of a byte string in which replacement characters stand for what is no
/// UTF-8.
pub uninterp spec fn utf8_lossy(b: Seq<u8>) -> Seq<char>;

/// Calls `String::from_utf8_lossy`, whose result depends on the bytes alone and is
/// the decoded text where they are UTF-8.
#[verifier::external_body]
pub(crate) fn lossy(b: &[u8]) -> (t: String)
    ensures
        t@ == utf8_lossy(b@),
        valid_utf8(b@) ==> t@ == decode_utf8(b@),
{
    String::from_utf8_lossy(b).into_owned()
}

} // verus!
