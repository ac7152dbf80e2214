//! The texts of addresses: every address reads back from its text, and the text of an IPv6
//! address leaves out its longest run of zero groups.

use vstd::prelude::*;
use crate::builder::{is_v6, lemma_fields_cut, lemma_fields_go_on, v6_bytes};
use crate::text::{dec, digits_value, fields, hex_min, number};
use crate::types::{
    best_run, double_colon, group_bytes, groups_of, groups_text, part_numbers, side_groups, v4_of,
    v4_text, v6_groups, words, zero_run, Ip,
};

verus! {

/// A character of a group: a digit or a lower-case letter.
pub open spec fn group_char(c: char) -> bool {
    '0' <= c <= '9' || 'a' <= c <= 'f'
}

proof fn lemma_hex_min(n: nat)
    requires
        n < 0x1_0000,
    ensures
        hex_min(n).len() > 0,
        forall|i: int| 0 <= i < hex_min(n).len() ==> group_char(#[trigger] hex_min(n)[i]),
        digits_value(hex_min(n), 16) == Some(n as int),
    decreases n,
{
    if n < 16 {
        assert(hex_min(n).drop_last() =~= seq![]);
        reveal_with_fuel(digits_value, 2);
    } else {
        lemma_hex_min(n / 16);
        assert(hex_min(n).drop_last() =~= hex_min(n / 16));
        assert forall|i: int| 0 <= i < hex_min(n).len() implies group_char(
            #[trigger] hex_min(n)[i],
        ) by {
            if i < hex_min(n).len() - 1 {
                assert(hex_min(n)[i] == hex_min(n / 16)[i]);
            }
        }
    }
}

/// The groups of an address are numbers of sixteen bits.
pub open spec fn is_groups(w: Seq<int>) -> bool {
    w.len() == 8 && forall|i: int| 0 <= i < 8 ==> 0 <= #[trigger] w[i] < 0x1_0000
}

/// The texts of the groups `a..b`.
pub open spec fn group_texts(w: Seq<int>, a: int, b: int) -> Seq<Seq<char>> {
    Seq::new((b - a) as nat, |i: int| hex_min(w[a + i] as nat))
}

/// No two colons stand side by side, and none at either end.
pub open spec fn tidy(s: Seq<char>) -> bool {
    &&& s.len() > 0 ==> s[0] != ':' && s.last() != ':'
    &&& forall|i: int| 0 <= i && i + 1 < s.len() ==> !(#[trigger] s[i] == ':' && s[i + 1] == ':')
}

proof fn lemma_groups_text(w: Seq<int>, a: int, b: int)
    requires
        is_groups(w),
        0 <= a <= b <= 8,
    ensures
        tidy(groups_text(w, a, b)),
        a < b ==> groups_text(w, a, b).len() > 0,
        a == b ==> groups_text(w, a, b).len() == 0,
        a < b ==> fields(groups_text(w, a, b), ':') == group_texts(w, a, b),
        a + 1 < b ==> groups_text(w, a, b).contains(':'),
    decreases b - a,
{
    if a < b {
        let last = hex_min(w[b - 1] as nat);
        lemma_hex_min(w[b - 1] as nat);
        assert forall|i: int| 0 <= i < last.len() implies #[trigger] last[i] != ':' by {
            assert(group_char(last[i]));
        }
        let s = groups_text(w, a, b);
        if a + 1 == b {
            let e = Seq::<char>::empty();
            lemma_fields_go_on(e, last, ':');
            assert(e + last =~= last);
            assert(fields(e, ':') =~= seq![e]);
            assert(fields(last, ':') =~= seq![last]);
            assert(group_texts(w, a, b) =~= seq![last]);
            assert(last[0] != ':' && last[last.len() - 1] != ':');
        } else {
            lemma_groups_text(w, a, b - 1);
            let t = groups_text(w, a, b - 1);
            lemma_fields_cut(t, last, ':');
            assert(s =~= t + seq![':'] + last);
            assert(group_texts(w, a, b) =~= group_texts(w, a, b - 1).push(last));
            assert(s[t.len() as int] == ':');
            assert(s[0] == t[0]);
            assert(s.last() == last[last.len() - 1]);
            assert forall|i: int| 0 <= i && i + 1 < s.len() implies !(#[trigger] s[i] == ':' && s[i
                + 1] == ':') by {
                if i + 1 < t.len() {
                    assert(s[i] == t[i] && s[i + 1] == t[i + 1]);
                } else if i + 1 == t.len() {
                    assert(s[i] == t.last());
                } else {
                    assert(s[i + 1] == last[i - t.len()]);
                }
            }
        }
    }
}

proof fn lemma_numbers(w: Seq<int>, a: int, b: int, n: int)
    requires
        is_groups(w),
        0 <= a <= b <= 8,
        0 <= n <= b - a,
    ensures
        part_numbers(
            group_texts(w, a, b),
            16,
            65535,
            "invalid IPv6 group: "@,
            Some("empty IPv6 group"@),
            n,
        ) == Ok::<Seq<int>, Seq<char>>(w.subrange(a, a + n)),
    decreases n,
{
    if n > 0 {
        lemma_numbers(w, a, b, n - 1);
        let p = group_texts(w, a, b)[n - 1];
        lemma_hex_min(w[a + n - 1] as nat);
        assert(p == hex_min(w[a + n - 1] as nat));
        assert(group_char(p[0]));
        assert(number(p, 16, 65535) == Some(w[a + n - 1]));
        assert(w.subrange(a, a + n - 1).push(w[a + n - 1]) =~= w.subrange(a, a + n));
    } else {
        assert(w.subrange(a, a) =~= seq![]);
    }
}

proof fn lemma_side(w: Seq<int>, a: int, b: int)
    requires
        is_groups(w),
        0 <= a <= b <= 8,
    ensures
        side_groups(groups_text(w, a, b)) == Ok::<Seq<int>, Seq<char>>(w.subrange(a, b)),
        a < b ==> groups_of(groups_text(w, a, b)) == Ok::<Seq<int>, Seq<char>>(w.subrange(a, b)),
{
    lemma_groups_text(w, a, b);
    if a < b {
        lemma_numbers(w, a, b, b - a);
    } else {
        assert(w.subrange(a, b) =~= seq![]);
    }
}

proof fn lemma_no_double(s: Seq<char>, i: int)
    requires
        0 <= i,
        forall|k: int|
            i <= k && k + 1 < s.len() ==> !(#[trigger] s[k] == ':' && s[k + 1] == ':'),
    ensures
        double_colon(s, i) is None,
    decreases s.len() - i,
{
    if i + 1 < s.len() {
        assert(!(s[i] == ':' && s[i + 1] == ':'));
        lemma_no_double(s, i + 1);
    }
}

proof fn lemma_double(s: Seq<char>, i: int, p: int)
    requires
        0 <= i <= p,
        p + 1 < s.len(),
        s[p] == ':' && s[p + 1] == ':',
        forall|k: int| i <= k < p ==> !(#[trigger] s[k] == ':' && s[k + 1] == ':'),
    ensures
        double_colon(s, i) == Some(p),
    decreases p - i,
{
    if i < p {
        assert(!(s[i] == ':' && s[i + 1] == ':'));
        lemma_double(s, i + 1, p);
    }
}

proof fn lemma_zero_run(w: Seq<int>, i: int)
    requires
        0 <= i <= w.len(),
    ensures
        0 <= zero_run(w, i),
        i + zero_run(w, i) <= w.len(),
        forall|k: int| i <= k < i + zero_run(w, i) ==> #[trigger] w[k] == 0,
        i + zero_run(w, i) < w.len() ==> w[i + zero_run(w, i)] != 0,
    decreases w.len() - i,
{
    if i < w.len() && w[i] == 0 {
        lemma_zero_run(w, i + 1);
    }
}

proof fn lemma_best_run(w: Seq<int>, i: int)
    requires
        0 <= i <= w.len(),
    ensures
        match best_run(w, i) {
            Some((s, n)) => {
                &&& i <= s
                &&& n >= 2
                &&& n == zero_run(w, s)
                &&& s + n <= w.len()
                &&& forall|k: int| i <= k < w.len() ==> #[trigger] zero_run(w, k) <= n
                &&& forall|k: int| i <= k < s ==> #[trigger] zero_run(w, k) < n
            },
            None => forall|k: int| i <= k < w.len() ==> #[trigger] zero_run(w, k) < 2,
        },
    decreases w.len() - i,
{
    if i < w.len() {
        lemma_best_run(w, i + 1);
        lemma_zero_run(w, i);
    }
}

/// The groups `s..s + n` are zero.
pub open spec fn zeros(w: Seq<int>, s: int, n: int) -> bool {
    &&& 0 <= s && s + n <= w.len()
    &&& forall|k: int| s <= k < s + n ==> #[trigger] w[k] == 0
}

/// What the text of an IPv6 address leaves out is a run of zero groups such that none is
/// longer, and none before it as long; nothing is left out where no two zero groups stand
/// side by side.
pub proof fn law_longest_run_is_left_out(w: Seq<int>, a: int, l: int)
    requires
        w.len() == 8,
        zeros(w, a, l),
        l >= 2,
    ensures
        best_run(w, 0) matches Some((s, n)) && zeros(w, s, n) && n >= 2 && l <= n && (a < s ==> l
            < n),
{
    lemma_best_run(w, 0);
    lemma_at_least(w, a, l);
    match best_run(w, 0) {
        Some((s, n)) => {
            lemma_zero_run(w, s);
        },
        None => {},
    }
}

proof fn lemma_at_least(w: Seq<int>, a: int, l: int)
    requires
        zeros(w, a, l),
    ensures
        zero_run(w, a) >= l,
    decreases l,
{
    if l > 0 {
        assert(w[a] == 0);
        lemma_at_least(w, a + 1, l - 1);
    } else if 0 <= a <= w.len() {
        lemma_zero_run(w, a);
    }
}

proof fn lemma_v6_groups(w: Seq<int>)
    requires
        is_groups(w),
    ensures
        ({
            let t = match best_run(w, 0) {
                None => groups_text(w, 0, 8),
                Some((s, n)) => groups_text(w, 0, s).push(':').push(':') + groups_text(w, s + n, 8),
            };
            &&& v6_groups(t) == Ok::<Seq<int>, Seq<char>>(w)
            &&& t.contains(':')
            &&& is_v6(t)
            &&& v6_bytes(t) == group_bytes(w)
        }),
{
    lemma_best_run(w, 0);
    match best_run(w, 0) {
        None => {
            let t = groups_text(w, 0, 8);
            lemma_groups_text(w, 0, 8);
            lemma_side(w, 0, 8);
            lemma_no_double(t, 0);
            assert(w.subrange(0, 8) =~= w);
            assert(side_groups(seq![]) == Ok::<Seq<int>, Seq<char>>(seq![]));
            assert(w + Seq::new(0, |i: int| 0int) + seq![] =~= w);
        },
        Some((s, n)) => {
            let x = groups_text(w, 0, s);
            let y = groups_text(w, s + n, 8);
            let t = x.push(':').push(':') + y;
            let p = x.len() as int;
            lemma_zero_run(w, s);
            lemma_groups_text(w, 0, s);
            lemma_groups_text(w, s + n, 8);
            lemma_side(w, 0, s);
            lemma_side(w, s + n, 8);
            assert(t[p] == ':' && t[p + 1] == ':');
            assert(t.take(p) =~= x);
            assert(t.skip(p + 2) =~= y);
            assert forall|k: int| 0 <= k < p implies !(#[trigger] t[k] == ':' && t[k + 1] == ':') by {
                assert(t[k] == x[k]);
                if k + 1 < p {
                    assert(t[k + 1] == x[k + 1]);
                } else {
                    assert(t[k] == x.last());
                }
            }
            lemma_double(t, 0, p);
            assert forall|k: int| p + 2 <= k && k + 1 < t.len() implies !(#[trigger] t[k] == ':'
                && t[k + 1] == ':') by {
                assert(t[k] == y[k - p - 2] && t[k + 1] == y[k - p - 1]);
            }
            lemma_no_double(t, p + 2);
            let head = w.subrange(0, s);
            let tail = w.subrange(s + n, 8);
            assert(head + Seq::new((8 - head.len() - tail.len()) as nat, |i: int| 0int) + tail
                =~= w);
        },
    }
}

proof fn lemma_words(a: Seq<u8>)
    requires
        a.len() == 16,
    ensures
        is_groups(words(a)),
        group_bytes(words(a)) == a,
{
    let w = words(a);
    assert forall|i: int| 0 <= i < 16 implies group_bytes(w)[i] == a[i] by {
        let j = i / 2;
        assert(w[j] == a[2 * j] * 256 + a[2 * j + 1]);
    }
    assert(group_bytes(w) =~= a);
}

/// The text of an IPv6 address stands for its bytes where frames are built.
pub proof fn law_built_address_is_the_address(a: [u8; 16])
    ensures
        is_v6(Ip::V6(a).text()),
        v6_bytes(Ip::V6(a).text()) == a@,
{
    assert(a@.len() == 16);
    lemma_words(a@);
    lemma_v6_groups(words(a@));
}

/// The text of an address reads back as that address.
pub proof fn law_address_reads_back(ip: Ip)
    ensures
        Ip::parsed(ip.text(), Ok(ip)),
{
    match ip {
        Ip::V6(a) => {
            assert(a@.len() == 16);
            lemma_words(a@);
            lemma_v6_groups(words(a@));
        },
        Ip::V4(a) => {
            assert(a@.len() == 4);
            lemma_v4(a@);
        },
    }
}

proof fn lemma_v4(a: Seq<u8>)
    requires
        a.len() == 4,
    ensures
        v4_of(v4_text(a)) == Ok::<Seq<u8>, Seq<char>>(a),
        !v4_text(a).contains(':'),
{
    let d = Seq::new(4, |i: int| dec(a[i] as nat));
    lemma_octet(a[0]);
    lemma_octet(a[1]);
    lemma_octet(a[2]);
    lemma_octet(a[3]);
    let e = Seq::<char>::empty();
    lemma_fields_go_on(e, d[0], '.');
    assert(e + d[0] =~= d[0]);
    assert(fields(e, '.') =~= seq![e]);
    assert(fields(d[0], '.') =~= seq![d[0]]);
    lemma_fields_cut(d[0], d[1], '.');
    let s1 = d[0] + seq!['.'] + d[1];
    lemma_fields_cut(s1, d[2], '.');
    let s2 = s1 + seq!['.'] + d[2];
    lemma_fields_cut(s2, d[3], '.');
    let s3 = s2 + seq!['.'] + d[3];
    assert(s3 =~= v4_text(a));
    assert(fields(s3, '.') =~= d);
    reveal_with_fuel(part_numbers, 5);
    let v = part_numbers(d, 10, 255, "invalid IPv4 octet: "@, None, 4)->Ok_0;
    assert(v =~= seq![a[0] as int, a[1] as int, a[2] as int, a[3] as int]);
    assert(Seq::new(4, |i: int| v[i] as u8) =~= a);
    if s3.contains(':') {
        let k = choose|k: int| 0 <= k < s3.len() && s3[k] == ':';
        let (p, q) = (d[0].len() as int, s1.len() as int);
        let r = s2.len() as int;
        if k < p {
            assert(s3[k] == d[0][k]);
        } else if k == p {
            assert(s3[k] == '.');
        } else if k < q {
            assert(s3[k] == d[1][k - p - 1]);
        } else if k == q {
            assert(s3[k] == '.');
        } else if k < r {
            assert(s3[k] == d[2][k - q - 1]);
        } else if k == r {
            assert(s3[k] == '.');
        } else {
            assert(s3[k] == d[3][k - r - 1]);
        }
    }
}

proof fn lemma_octet(b: u8)
    ensures
        number(dec(b as nat), 10, 255) == Some(b as int),
        dec(b as nat).len() > 0,
        forall|i: int|
            0 <= i < dec(b as nat).len() ==> #[trigger] dec(b as nat)[i] != '.' && dec(b as nat)[i]
                != ':',
{
    crate::json::lemma_dec(b as nat);
    let t = dec(b as nat);
    assert(crate::json::digit(t[0]));
    assert forall|i: int| 0 <= i < t.len() implies #[trigger] t[i] != '.' && t[i] != ':' by {
        assert(crate::json::digit(t[i]));
    }
}

/// The mixed text of an IPv6 address that holds an IPv4 address is that address behind a
/// fixed prefix; that of any other address is its text.
pub proof fn law_mixed_text_holds_the_address(a: [u8; 16], b: [u8; 4])
    requires
        a@.skip(12) == b@,
    ensures
        (forall|i: int| 0 <= i < 10 ==> a@[i] == 0) && a@[10] == 0xff && a@[11] == 0xff ==> Ip::V6(
            a,
        ).mixed_text() == "::ffff:"@ + Ip::V4(b).text(),
        !((forall|i: int| 0 <= i < 10 ==> a@[i] == 0) && a@[10] == 0xff && a@[11] == 0xff)
            ==> Ip::V6(a).mixed_text() == Ip::V6(a).text(),
        Ip::V4(b).mixed_text() == Ip::V4(b).text(),
{
}

} // verus!
