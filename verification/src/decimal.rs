//! Decimal numbers as they are written: the digits that count, where the point stands
//! among them, and the text without an exponent and without needless zeros.

use vstd::prelude::*;
use crate::json::{
    digit, digits_end, digits_run, integer, is_decimal, number_char, number_of, plain, sign_end,
    sign_run, JsonModel,
};
use crate::text::{at_most, digits_from, digits_value, sub_string, text_le};

verus! {

/// The digits of 2^1024 - 2^970, the least magnitude that double precision cannot hold.
pub const BEYOND: &'static str = "179769313486231580793728971405303415079934132710037826936173778980444968292764750946649017977587207096330286416692887910946555547851940402630657488671505820681908902000708383676273854845817711531764475730270069855571366959622842914819860834936475292719074168444365510704342711559699508093042880177904174497792";

/// Where the digits before the point end.
pub open spec fn whole_end(t: Seq<char>) -> int {
    digits_end(t, sign_end(t, 0))
}

/// Where the digits behind the point start.
pub open spec fn part_start(t: Seq<char>) -> int {
    let b = whole_end(t);
    if b < t.len() && t[b] == '.' {
        b + 1
    } else {
        b
    }
}

/// Where the digits behind the point end.
pub open spec fn part_end(t: Seq<char>) -> int {
    let c = part_start(t);
    if c > whole_end(t) {
        digits_end(t, c)
    } else {
        c
    }
}

/// The digits before and behind the point.
pub open spec fn all_digits_of(t: Seq<char>) -> Seq<char> {
    t.subrange(sign_end(t, 0), whole_end(t)) + t.subrange(part_start(t), part_end(t))
}

/// The exponent.
pub open spec fn power_of(t: Seq<char>) -> int {
    let d = part_end(t);
    if d >= t.len() {
        0
    } else {
        match digits_value(t.skip(sign_end(t, d + 1)), 10) {
            Some(v) => if t[d + 1] == '-' {
                -v
            } else {
                v
            },
            None => 0,
        }
    }
}

/// The first place from `i` on that holds no zero.
pub open spec fn zeros_end(s: Seq<char>, i: int) -> int
    decreases s.len() - i,
{
    if 0 <= i < s.len() && s[i] == '0' {
        zeros_end(s, i + 1)
    } else {
        i
    }
}

/// The first `n` digits without zeros at their end.
pub open spec fn kept_end(s: Seq<char>, n: int) -> int
    decreases n,
{
    if n > 0 && s[n - 1] == '0' {
        kept_end(s, n - 1)
    } else {
        n
    }
}

/// The digits that count: without zeros before and behind them.
pub open spec fn significant(t: Seq<char>) -> Seq<char> {
    let ds = all_digits_of(t);
    let z = zeros_end(ds, 0);
    if z >= ds.len() {
        seq![]
    } else {
        ds.subrange(z, kept_end(ds, ds.len() as int))
    }
}

/// How many of the digits that count stand before the point; zeros stand between where
/// the number is negative or exceeds that of the digits.
pub open spec fn point(t: Seq<char>) -> int {
    whole_end(t) - sign_end(t, 0) + power_of(t) - zeros_end(all_digits_of(t), 0)
}

/// So many zeros.
pub open spec fn zeros(n: int) -> Seq<char> {
    Seq::new(n as nat, |i: int| '0')
}

/// Digits with the point in its place.
pub open spec fn placed(s: Seq<char>, p: int) -> Seq<char> {
    if p >= s.len() {
        s + zeros(p - s.len())
    } else if p > 0 {
        s.take(p) + seq!['.'] + s.skip(p)
    } else {
        seq!['0', '.'] + zeros(-p) + s
    }
}

/// The text of a decimal without an exponent. A magnitude that double precision cannot
/// hold is told as null, and one below 10^-324 as nought.
pub open spec fn decimal_text(t: Seq<char>) -> Seq<char> {
    let s = significant(t);
    let p = point(t);
    if s.len() == 0 || p <= -324 {
        "0"@
    } else if p > 309 || (p == 309 && text_le(BEYOND@, s)) {
        "null"@
    } else if t[0] == '-' {
        seq!['-'] + placed(s, p)
    } else {
        placed(s, p)
    }
}

proof fn lemma_digits_end(t: Seq<char>, i: int)
    requires
        0 <= i <= t.len(),
    ensures
        i <= digits_end(t, i) <= t.len(),
        forall|j: int| i <= j < digits_end(t, i) ==> digit(#[trigger] t[j]),
    decreases t.len() - i,
{
    if i < t.len() && digit(t[i]) {
        lemma_digits_end(t, i + 1);
    }
}

proof fn lemma_digits_value(s: Seq<char>)
    requires
        forall|j: int| 0 <= j < s.len() ==> digit(#[trigger] s[j]),
    ensures
        digits_value(s, 10) matches Some(v) && v >= 0,
    decreases s.len(),
{
    if s.len() > 0 {
        let t = s.drop_last();
        assert forall|j: int| 0 <= j < t.len() implies digit(#[trigger] t[j]) by {
            assert(t[j] == s[j]);
        }
        lemma_digits_value(t);
        assert(digit(s[s.len() - 1]));
    }
}

proof fn lemma_kept_end(s: Seq<char>, n: int, z: int)
    requires
        0 <= z < n <= s.len(),
        s[z] != '0',
    ensures
        z < kept_end(s, n) <= n,
        s[kept_end(s, n) - 1] != '0',
    decreases n,
{
    if s[n - 1] == '0' {
        lemma_kept_end(s, n - 1, z);
    }
}

/// The exponent, or one that is as good where it is very large.
fn read_power(t: &Vec<char>, d: usize) -> (r: i128)
    requires
        is_decimal(t@),
        d == part_end(t@),
    ensures
        -0x1_0000_0000_0000_0000_0000_0000 <= r <= 0x1_0000_0000_0000_0000_0000_0000,
        r == power_of(t@) || (r == 0x1_0000_0000_0000_0000_0000_0000 && power_of(t@) > r) || (r
            == -0x1_0000_0000_0000_0000_0000_0000 && power_of(t@) < r),
{
    if d >= t.len() {
        return 0;
    }
    let e: usize = sign_run(t, d + 1);
    proof {
        lemma_digits_end(t@, e as int);
        let u = t@.skip(e as int);
        assert forall|j: int| 0 <= j < u.len() implies digit(#[trigger] u[j]) by {
            assert(u[j] == t@[e + j]);
        }
        lemma_digits_value(u);
    }
    let top: u128 = 0x1_0000_0000_0000_0000_0000_0000;
    let v: i128 = match digits_from(t, e, top) {
        Some(v) => v as i128,
        None => 0x1_0000_0000_0000_0000_0000_0000,
    };
    if t[d + 1] == '-' {
        0 - v
    } else {
        v
    }
}

fn push_zeros(out: &mut Vec<char>, n: usize)
    ensures
        final(out)@ == old(out)@ + zeros(n as int),
{
    let ghost o = out@;
    let mut i: usize = 0;
    assert(out@ =~= o + zeros(0));
    while i < n
        invariant
            i <= n,
            out@ == o + zeros(i as int),
        decreases n - i,
    {
        out.push('0');
        i += 1;
        assert(out@ =~= o + zeros(i as int));
    }
}

fn push_range(out: &mut Vec<char>, s: &Vec<char>, i: usize, j: usize)
    requires
        i <= j <= s@.len(),
    ensures
        final(out)@ == old(out)@ + s@.subrange(i as int, j as int),
{
    let ghost o = out@;
    let mut k: usize = i;
    assert(out@ =~= o + s@.subrange(i as int, i as int));
    while k < j
        invariant
            i <= k <= j <= s@.len(),
            out@ == o + s@.subrange(i as int, k as int),
        decreases j - k,
    {
        out.push(s[k]);
        k += 1;
        assert(out@ =~= o + s@.subrange(i as int, k as int));
    }
}

fn place(s: &Vec<char>, p: i128, minus: bool) -> (r: Vec<char>)
    requires
        s@.len() > 0,
        -324 <= p <= 309,
    ensures
        r@ == (if minus {
            seq!['-'] + placed(s@, p as int)
        } else {
            placed(s@, p as int)
        }),
{
    let mut out: Vec<char> = Vec::new();
    if minus {
        out.push('-');
    }
    let ghost head = out@;
    let n: usize = s.len();
    if p >= n as i128 {
        push_range(&mut out, s, 0, n);
        push_zeros(&mut out, (p - n as i128) as usize);
        assert(out@ =~= head + placed(s@, p as int));
    } else if p > 0 {
        let k: usize = p as usize;
        push_range(&mut out, s, 0, k);
        out.push('.');
        push_range(&mut out, s, k, n);
        assert(out@ =~= head + placed(s@, p as int));
    } else {
        out.push('0');
        out.push('.');
        push_zeros(&mut out, (0 - p) as usize);
        push_range(&mut out, s, 0, n);
        assert(out@ =~= head + placed(s@, p as int));
    }
    assert(head + placed(s@, p as int) =~= (if minus {
        seq!['-'] + placed(s@, p as int)
    } else {
        placed(s@, p as int)
    }));
    out
}

/// The digits that count, and how many zeros stand before them.
fn read_significant(ds: &Vec<char>) -> (r: (Vec<char>, usize))
    ensures
        r.1 == zeros_end(ds@, 0),
        r.1 <= ds@.len(),
        r.0@ == (if zeros_end(ds@, 0) >= ds@.len() {
            seq![]
        } else {
            ds@.subrange(zeros_end(ds@, 0), kept_end(ds@, ds@.len() as int))
        }),
{
    let mut z: usize = 0;
    while z < ds.len() && ds[z] == '0'
        invariant
            z <= ds@.len(),
            zeros_end(ds@, 0) == zeros_end(ds@, z as int),
        decreases ds@.len() - z,
    {
        z += 1;
    }
    let mut out: Vec<char> = Vec::new();
    if z == ds.len() {
        assert(out@ =~= seq![]);
        return (out, z);
    }
    let mut n: usize = ds.len();
    while ds[n - 1] == '0'
        invariant
            z < n <= ds@.len(),
            ds@[z as int] != '0',
            kept_end(ds@, ds@.len() as int) == kept_end(ds@, n as int),
        decreases n,
    {
        n -= 1;
    }
    push_range(&mut out, ds, z, n);
    assert(out@ =~= ds@.subrange(z as int, n as int));
    (out, z)
}

/// The text of a decimal without an exponent.
pub fn to_decimal_text(t: &Vec<char>) -> (r: Vec<char>)
    requires
        is_decimal(t@),
    ensures
        r@ == decimal_text(t@),
{
    let a: usize = sign_run(t, 0);
    let b: usize = digits_run(t, a);
    let c: usize = if b < t.len() && t[b] == '.' {
        b + 1
    } else {
        b
    };
    let d: usize = if c > b {
        digits_run(t, c)
    } else {
        c
    };
    let mut ds: Vec<char> = Vec::new();
    push_range(&mut ds, t, a, b);
    push_range(&mut ds, t, c, d);
    assert(ds@ =~= all_digits_of(t@));
    let (s, z) = read_significant(&ds);
    let power: i128 = read_power(t, d);
    let p: i128 = (b - a) as i128 + power - z as i128;
    proof {
        reveal_strlit("0");
        reveal_strlit("null");
    }
    if s.len() == 0 || p <= -324 {
        let r: Vec<char> = vec!['0'];
        assert(r@ =~= "0"@);
        return r;
    }
    let beyond = p > 309 || (p == 309 && {
        let digits = sub_string(&s, 0, s.len());
        assert(digits@ =~= s@);
        at_most(BEYOND, digits.as_str())
    });
    if beyond {
        let r: Vec<char> = vec!['n', 'u', 'l', 'l'];
        assert(r@ =~= "null"@);
        return r;
    }
    place(&s, p, t[0] == '-')
}

proof fn lemma_digits_run(t: Seq<char>, i: int, e: int)
    requires
        0 <= i <= e <= t.len(),
        forall|j: int| i <= j < e ==> digit(#[trigger] t[j]),
        e == t.len() || !digit(t[e]),
    ensures
        digits_end(t, i) == e,
    decreases e - i,
{
    if i < e {
        assert(digit(t[i]));
        lemma_digits_run(t, i + 1, e);
    }
}

proof fn lemma_zeros_run(s: Seq<char>, i: int, e: int)
    requires
        0 <= i <= e < s.len(),
        forall|j: int| i <= j < e ==> #[trigger] s[j] == '0',
        s[e] != '0',
    ensures
        zeros_end(s, i) == e,
    decreases e - i,
{
    if i < e {
        assert(s[i] == '0');
        lemma_zeros_run(s, i + 1, e);
    }
}

proof fn lemma_kept_run(s: Seq<char>, n: int, e: int)
    requires
        0 < e <= n <= s.len(),
        forall|j: int| e <= j < n ==> #[trigger] s[j] == '0',
        s[e - 1] != '0',
    ensures
        kept_end(s, n) == e,
    decreases n - e,
{
    if e < n {
        assert(s[n - 1] == '0');
        lemma_kept_run(s, n - 1, e);
    }
}

proof fn lemma_zeros_end(s: Seq<char>, i: int)
    requires
        0 <= i <= s.len(),
    ensures
        i <= zeros_end(s, i) <= s.len(),
        zeros_end(s, i) < s.len() ==> s[zeros_end(s, i)] != '0',
    decreases s.len() - i,
{
    if i < s.len() && s[i] == '0' {
        lemma_zeros_end(s, i + 1);
    }
}

/// Digits that start and end with none that is a zero.
spec fn tight(s: Seq<char>) -> bool {
    &&& s.len() > 0
    &&& forall|j: int| 0 <= j < s.len() ==> digit(#[trigger] s[j])
    &&& s[0] != '0'
    &&& s.last() != '0'
}

proof fn lemma_significant(t: Seq<char>)
    requires
        is_decimal(t),
        significant(t).len() > 0,
    ensures
        tight(significant(t)),
{
    let a = sign_end(t, 0);
    let b = whole_end(t);
    let c = part_start(t);
    let d = part_end(t);
    lemma_digits_end(t, a);
    lemma_digits_end(t, c);
    let ds = all_digits_of(t);
    assert forall|j: int| 0 <= j < ds.len() implies digit(#[trigger] ds[j]) by {
        if j < b - a {
            assert(ds[j] == t[a + j]);
        } else {
            assert(ds[j] == t[c + j - (b - a)]);
        }
    }
    let z = zeros_end(ds, 0);
    lemma_zeros_end(ds, 0);
    lemma_kept_end(ds, ds.len() as int, z);
    let s = significant(t);
    assert forall|j: int| 0 <= j < s.len() implies digit(#[trigger] s[j]) by {
        assert(s[j] == ds[z + j]);
    }
}

/// What the parts of a placed text with a sign are.
proof fn lemma_placed(s: Seq<char>, p: int, sign: Seq<char>)
    requires
        tight(s),
        sign == seq!['-'] || sign == Seq::<char>::empty(),
    ensures
        ({
            let u = sign + placed(s, p);
            &&& is_decimal(u)
            &&& u.len() > 0
            &&& (u[0] == '-') == (sign.len() > 0)
            &&& significant(u) == s
            &&& point(u) == p
            &&& forall|j: int| 0 <= j < u.len() ==> number_char(#[trigger] u[j])
        }),
{
    let u = sign + placed(s, p);
    let a = sign.len() as int;
    let n = s.len() as int;
    assert(digit(s[0]) && digit(s[n - 1]));
    if p >= n {
        let w = s + zeros(p - n);
        assert(u =~= sign + w);
        assert forall|j: int| a <= j < u.len() implies digit(#[trigger] u[j]) by {
            if j - a < n {
                assert(u[j] == s[j - a]);
                assert(digit(s[j - a]));
            }
        }
        assert(u[a] == s[0]);
        assert(sign_end(u, 0) == a);
        lemma_digits_run(u, a, u.len() as int);
        assert(all_digits_of(u) =~= w);
        assert(w[0] == s[0]);
        lemma_zeros_run(w, 0, 0);
        assert(w[n - 1] == s[n - 1]);
        lemma_kept_run(w, w.len() as int, n);
        assert(w.subrange(0, n) =~= s);
    } else if p > 0 {
        assert(u =~= sign + (s.take(p) + seq!['.'] + s.skip(p)));
        assert(u[a] == s[0]);
        assert(sign_end(u, 0) == a);
        assert forall|j: int| a <= j < a + p implies digit(#[trigger] u[j]) by {
            assert(u[j] == s[j - a]);
            assert(digit(s[j - a]));
        }
        assert(u[a + p] == '.');
        lemma_digits_run(u, a, a + p);
        assert forall|j: int| a + p + 1 <= j < u.len() implies digit(#[trigger] u[j]) by {
            assert(u[j] == s[j - a - 1]);
            assert(digit(s[j - a - 1]));
        }
        lemma_digits_run(u, a + p + 1, u.len() as int);
        assert(all_digits_of(u) =~= s);
        lemma_zeros_run(s, 0, 0);
        lemma_kept_run(s, n, n);
        assert(s.subrange(0, n) =~= s);
    } else {
        let w = seq!['0'] + zeros(-p) + s;
        assert(u =~= sign + (seq!['0', '.'] + zeros(-p) + s));
        assert(u[a] == '0');
        assert(u[a + 1] == '.');
        assert(sign_end(u, 0) == a);
        lemma_digits_run(u, a, a + 1);
        assert forall|j: int| a + 2 <= j < u.len() implies digit(#[trigger] u[j]) by {
            if j >= a + 2 - p {
                assert(u[j] == s[j - (a + 2 - p)]);
                assert(digit(s[j - (a + 2 - p)]));
            } else {
                assert(u[j] == '0');
            }
        }
        lemma_digits_run(u, a + 2, u.len() as int);
        assert(all_digits_of(u) =~= w);
        let z = 1 - p;
        assert(w[z] == s[0]);
        assert forall|j: int| 0 <= j < z implies #[trigger] w[j] == '0' by {}
        lemma_zeros_run(w, 0, z);
        assert(w[w.len() - 1] == s[n - 1]);
        lemma_kept_run(w, w.len() as int, w.len() as int);
        assert(w.subrange(z, w.len() as int) =~= s);
    }
    assert forall|j: int| 0 <= j < u.len() implies number_char(#[trigger] u[j]) by {
        if p >= n {
            assert(j < a || digit(u[j]));
        } else if p > 0 {
            assert(j < a || (a <= j < a + p) || j == a + p || digit(u[j]));
        } else {
            assert(j < a || j == a || j == a + 1 || digit(u[j]));
        }
    }
}

/// The text of a number that was read is settled: read again, it is the same number. One
/// that was told as null is left out.
pub proof fn law_number_text_settled(t: Seq<char>)
    requires
        number_of(t) matches Some(JsonModel::Real(u)) && u != "null"@,
    ensures
        plain(number_of(t)->0),
{
    let u = number_of(t)->0->Real_0;
    let s = significant(t);
    let p = point(t);
    reveal_strlit("0");
    reveal_strlit("null");
    if s.len() == 0 || p <= -324 {
        assert(u =~= seq!['0']);
        reveal_with_fuel(digits_value, 2);
        assert(u.skip(0) =~= u);
        assert(u.drop_last() =~= seq![]);
        assert(integer(u) == Some(0int));
    } else {
        lemma_significant(t);
        let sign: Seq<char> = if t[0] == '-' {
            seq!['-']
        } else {
            seq![]
        };
        assert(u =~= sign + placed(s, p));
        lemma_placed(s, p, sign);
        assert(decimal_text(u) =~= u);
    }
}

} // verus!
