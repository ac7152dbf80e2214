//! What the pieces of a request are: lines, words, pairs and escapes go back together to
//! the text that they were taken from.

use vstd::prelude::*;
use crate::engine::percent_decoded;
use crate::lines::{
    break_from, cut, first_word, head_end, length_field, length_line, lines, lines_from, position,
    raw_value, second_word, starts_alike, unescaped, word_end, word_start,
};
use crate::text::{dec, digits_value, fields, is_space, number, trim, trim_start};
use crate::{http, server};

verus! {

/// Lines one after the other, each but the last with its break.
pub open spec fn joined_lines(ls: Seq<Seq<char>>) -> Seq<char>
    decreases ls.len(),
{
    if ls.len() <= 1 {
        ls[0]
    } else {
        ls[0] + seq!['\r', '\n'] + joined_lines(ls.skip(1))
    }
}

/// A line break stands somewhere in a text.
pub open spec fn has_break(s: Seq<char>) -> bool {
    exists|i: int| 0 <= i && i + 1 < s.len() && #[trigger] s[i] == '\r' && s[i + 1] == '\n'
}

proof fn lemma_break(s: Seq<char>, i: int)
    requires
        0 <= i <= s.len(),
    ensures
        ({
            let e = break_from(s, i);
            &&& i <= e <= s.len()
            &&& e < s.len() ==> e + 1 < s.len() && s[e] == '\r' && s[e + 1] == '\n'
            &&& forall|k: int|
                i <= k < e && k + 1 < s.len() ==> !(#[trigger] s[k] == '\r' && s[k + 1] == '\n')
        }),
    decreases s.len() - i,
{
    if i < s.len() && !(i + 1 < s.len() && s[i] == '\r' && s[i + 1] == '\n') {
        lemma_break(s, i + 1);
    }
}

proof fn lemma_lines(s: Seq<char>, i: int)
    requires
        0 <= i <= s.len(),
    ensures
        lines_from(s, i).len() >= 1,
        joined_lines(lines_from(s, i)) == s.skip(i),
        forall|k: int| 0 <= k < lines_from(s, i).len() ==> !has_break(#[trigger] lines_from(s, i)[k]),
    decreases s.len() - i,
{
    lemma_break(s, i);
    let e = break_from(s, i);
    let ls = lines_from(s, i);
    if e + 2 > s.len() {
        assert(ls[0] =~= s.skip(i));
    } else {
        lemma_lines(s, e + 2);
        let rest = lines_from(s, e + 2);
        assert(ls.skip(1) =~= rest);
        assert(s.skip(i) =~= ls[0] + seq!['\r', '\n'] + s.skip(e + 2));
        assert forall|k: int| 0 <= k < ls.len() implies !has_break(#[trigger] ls[k]) by {
            if k > 0 {
                assert(ls[k] == rest[k - 1]);
            } else if has_break(ls[0]) {
                let q = choose|q: int|
                    0 <= q && q + 1 < ls[0].len() && #[trigger] ls[0][q] == '\r' && ls[0][q + 1]
                        == '\n';
                assert(s[i + q] == '\r' && s[i + q + 1] == '\n');
            }
        }
    }
    if e + 2 > s.len() {
        assert(!has_break(ls[0])) by {
            if has_break(ls[0]) {
                let q = choose|q: int|
                    0 <= q && q + 1 < ls[0].len() && #[trigger] ls[0][q] == '\r' && ls[0][q + 1]
                        == '\n';
                assert(s[i + q] == '\r' && s[i + q + 1] == '\n');
            }
        }
    }
}

/// The lines of a text, put together with their breaks, are the text, and no break is left
/// in a line.
pub proof fn law_lines_make_up_the_text(s: Seq<char>)
    ensures
        joined_lines(lines(s)) == s,
        lines(s).len() >= 1,
        forall|k: int| 0 <= k < lines(s).len() ==> !has_break(#[trigger] lines(s)[k]),
{
    lemma_lines(s, 0);
    assert(s.skip(0) =~= s);
}

proof fn lemma_position(s: Seq<char>, c: char, i: int)
    requires
        0 <= i <= s.len(),
    ensures
        match position(s, c, i) {
            Some(k) => i <= k < s.len() && s[k] == c && forall|j: int|
                i <= j < k ==> #[trigger] s[j] != c,
            None => forall|j: int| i <= j < s.len() ==> #[trigger] s[j] != c,
        },
    decreases s.len() - i,
{
    if i < s.len() && s[i] != c {
        lemma_position(s, c, i + 1);
    }
}

/// A text is cut at the first mark: what stands before it has none, and the parts with the
/// mark between them are the text.
pub proof fn law_cut_at_the_first_mark(s: Seq<char>, c: char)
    ensures
        !cut(s, c).0.contains(c),
        match cut(s, c).1 {
            Some(b) => cut(s, c).0 + seq![c] + b == s,
            None => cut(s, c).0 == s,
        },
{
    lemma_position(s, c, 0);
    match position(s, c, 0) {
        Some(k) => {
            assert(s.subrange(0, k) + seq![c] + s.subrange(k + 1, s.len() as int) =~= s);
        },
        None => {},
    }
}

/// Parts with a mark between each two.
pub open spec fn joined_fields(fs: Seq<Seq<char>>, c: char) -> Seq<char>
    decreases fs.len(),
{
    if fs.len() <= 1 {
        fs[0]
    } else {
        joined_fields(fs.drop_last(), c) + seq![c] + fs.last()
    }
}

/// The fields of a text, put together with the mark between them, are the text, and no
/// field holds the mark.
pub proof fn law_fields_make_up_the_text(s: Seq<char>, c: char)
    ensures
        fields(s, c).len() >= 1,
        joined_fields(fields(s, c), c) == s,
        forall|k: int| 0 <= k < fields(s, c).len() ==> !(#[trigger] fields(s, c)[k]).contains(c),
    decreases s.len(),
{
    if s.len() == 0 {
        assert(joined_fields(fields(s, c), c) =~= s);
    } else {
        let t = s.drop_last();
        law_fields_make_up_the_text(t, c);
        let r = fields(t, c);
        let fs = fields(s, c);
        if s.last() == c {
            assert(fs.drop_last() =~= r);
            assert(joined_fields(fs, c) =~= t + seq![c]);
            assert(s =~= t + seq![c]);
        } else {
            assert(s =~= t + seq![s.last()]);
            let l = r.last();
            assert(!r[r.len() - 1].contains(c));
            assert(fs.last() == l.push(s.last()));
            if r.len() == 1 {
                assert(joined_fields(r, c) == r[0]);
                assert(joined_fields(fs, c) =~= s);
            } else {
                assert(fs.drop_last() =~= r.drop_last());
                assert(joined_fields(fs, c) =~= joined_fields(r.drop_last(), c) + seq![c] + l.push(
                    s.last(),
                ));
                assert(joined_fields(fs, c) =~= t.push(s.last()));
            }
            assert forall|k: int| 0 <= k < fs.len() implies !(#[trigger] fs[k]).contains(c) by {
                if k < r.len() - 1 {
                    assert(fs[k] == r[k]);
                } else {
                    assert(fs[k] == l.push(s.last()));
                    if fs[k].contains(c) {
                        let q = choose|q: int| 0 <= q < fs[k].len() && fs[k][q] == c;
                        assert(l[q] == c);
                    }
                }
            }
        }
    }
}

/// A text without white space, and not empty.
pub open spec fn is_word(s: Seq<char>) -> bool {
    s.len() > 0 && forall|i: int| 0 <= i < s.len() ==> !is_space(#[trigger] s[i])
}

proof fn lemma_word_end(s: Seq<char>, i: int, e: int)
    requires
        0 <= i <= e <= s.len(),
        forall|k: int| i <= k < e ==> !is_space(#[trigger] s[k]),
        e < s.len() ==> is_space(s[e]),
    ensures
        word_end(s, i) == e,
    decreases e - i,
{
    if i < e {
        assert(!is_space(s[i]));
        lemma_word_end(s, i + 1, e);
    }
}

/// The first line of a request gives its method and its target, whatever stands behind
/// them.
pub proof fn law_request_line_is_read(method: Seq<char>, target: Seq<char>, rest: Seq<char>)
    requires
        is_word(method),
        is_word(target),
        rest.len() > 0 ==> rest[0] == ' ',
    ensures
        first_word(method + seq![' '] + target + rest) == Some(method),
        second_word(method + seq![' '] + target + rest) == Some(target),
{
    let s = method + seq![' '] + target + rest;
    let m = method.len() as int;
    let t = target.len() as int;
    assert forall|k: int| 0 <= k < m implies !is_space(#[trigger] s[k]) by {
        assert(s[k] == method[k]);
    }
    assert(s[m] == ' ');
    assert forall|k: int| m + 1 <= k < m + 1 + t implies !is_space(#[trigger] s[k]) by {
        assert(s[k] == target[k - m - 1]);
    }
    if rest.len() > 0 {
        assert(s[m + 1 + t] == rest[0]);
    }
    assert(!is_space(s[0]));
    assert(!is_space(s[m + 1]));
    lemma_word_end(s, 0, m);
    assert(word_start(s, 0) == 0);
    assert(word_start(s, m + 1) == m + 1);
    assert(word_start(s, m) == m + 1);
    lemma_word_end(s, m + 1, m + 1 + t);
    assert(s.subrange(0, m) =~= method);
    assert(s.subrange(m + 1, m + 1 + t) =~= target);
}

/// The head of a request ends at the first blank line.
pub open spec fn blank_at(b: Seq<u8>, k: int) -> bool {
    k + 4 <= b.len() && b[k] == 13 && b[k + 1] == 10 && b[k + 2] == 13 && b[k + 3] == 10
}

proof fn lemma_head_end(b: Seq<u8>, i: int)
    requires
        0 <= i,
    ensures
        match head_end(b, i) {
            Some(k) => i <= k && blank_at(b, k) && forall|j: int|
                i <= j < k ==> !#[trigger] blank_at(b, j),
            None => forall|j: int| i <= j ==> !#[trigger] blank_at(b, j),
        },
    decreases b.len() - i,
{
    if i + 4 <= b.len() && !blank_at(b, i) {
        lemma_head_end(b, i + 1);
    }
}

/// The head of a request ends at the first blank line, and is not there before one is.
pub proof fn law_head_ends_at_the_blank_line(b: Seq<u8>)
    ensures
        match head_end(b, 0) {
            Some(k) => 0 <= k && blank_at(b, k) && forall|j: int|
                0 <= j < k ==> !#[trigger] blank_at(b, j),
            None => forall|j: int| 0 <= j ==> !#[trigger] blank_at(b, j),
        },
{
    lemma_head_end(b, 0);
}

/// The digit of four bits.
pub open spec fn nibble(d: int) -> u8 {
    if d < 10 {
        (48 + d) as u8
    } else {
        (55 + d) as u8
    }
}

/// Bytes in the form of a query: each as an escape, or as it is where it is neither of the
/// two signs with a meaning of their own.
pub open spec fn escaped(bs: Seq<u8>, plain: Seq<bool>, n: int) -> Seq<u8>
    decreases n,
{
    if n <= 0 {
        seq![]
    } else {
        let b = bs[n - 1];
        escaped(bs, plain, n - 1) + if plain[n - 1] {
            seq![b]
        } else {
            seq![37u8, nibble(b as int / 16), nibble(b as int % 16)]
        }
    }
}

proof fn lemma_escaped(bs: Seq<u8>, plain: Seq<bool>, n: int, k: int)
    requires
        0 <= k <= n <= bs.len(),
        plain.len() == bs.len(),
    ensures
        escaped(bs, plain, k).len() <= escaped(bs, plain, n).len(),
        escaped(bs, plain, n).take(escaped(bs, plain, k).len() as int) == escaped(bs, plain, k),
    decreases n - k,
{
    let a = escaped(bs, plain, k);
    let b = escaped(bs, plain, n);
    if k < n {
        lemma_escaped(bs, plain, n - 1, k);
        let c = escaped(bs, plain, n - 1);
        assert(b.take(a.len() as int) =~= c.take(a.len() as int));
    } else {
        assert(b.take(a.len() as int) =~= a);
    }
}

proof fn lemma_unescaped(bs: Seq<u8>, plain: Seq<bool>, k: int)
    requires
        0 <= k <= bs.len(),
        plain.len() == bs.len(),
        forall|i: int|
            0 <= i < bs.len() && #[trigger] plain[i] ==> bs[i] != 37 && bs[i] != 43,
    ensures
        ({
            let t = escaped(bs, plain, bs.len() as int);
            let at = escaped(bs, plain, k).len() as int;
            &&& unescaped(t, at, bs.take(k)) == bs
            &&& percent_decoded(t, at, bs.take(k)) == bs
        }),
    decreases bs.len() - k,
{
    let n = bs.len() as int;
    let t = escaped(bs, plain, n);
    let at = escaped(bs, plain, k).len() as int;
    lemma_escaped(bs, plain, n, k);
    if k < n {
        lemma_escaped(bs, plain, n, k + 1);
        lemma_unescaped(bs, plain, k + 1);
        let next = escaped(bs, plain, k + 1);
        let b = bs[k];
        assert(bs.take(k).push(b) =~= bs.take(k + 1));
        assert(t.take(next.len() as int)[at] == t[at]);
        if plain[k] {
            assert(next[at] == b);
        } else {
            assert(next[at] == 37 && next[at + 1] == nibble(b as int / 16) && next[at + 2]
                == nibble(b as int % 16));
            assert(t.take(next.len() as int)[at + 1] == t[at + 1]);
            assert(t.take(next.len() as int)[at + 2] == t[at + 2]);
        }
    } else {
        assert(bs.take(k) =~= bs);
    }
}

/// Escapes are undone: what was written with escapes, as much of it as one likes, reads
/// back as the bytes.
pub proof fn law_escapes_read_back(bs: Seq<u8>, plain: Seq<bool>)
    requires
        plain.len() == bs.len(),
        forall|i: int|
            0 <= i < bs.len() && #[trigger] plain[i] ==> bs[i] != 37 && bs[i] != 43,
    ensures
        unescaped(escaped(bs, plain, bs.len() as int), 0, seq![]) == bs,
        percent_decoded(escaped(bs, plain, bs.len() as int), 0, seq![]) == bs,
{
    lemma_unescaped(bs, plain, 0);
    assert(bs.take(0) =~= seq![]);
}

/// The value of a key is that of the first pair with the key, up to its end.
pub proof fn law_first_pair_counts(pairs: Seq<Seq<char>>, key: Seq<char>, value: Seq<char>, i: int)
    requires
        0 <= i < pairs.len(),
        pairs[i] == key + seq!['='] + value,
        !key.contains('='),
        forall|j: int| 0 <= j < i ==> cut(#[trigger] pairs[j], '=').0 != key,
    ensures
        raw_value(pairs, key, 0) == Some(value),
{
    let p = pairs[i];
    lemma_position(p, '=', 0);
    assert(p[key.len() as int] == '=');
    let k = position(p, '=', 0)->0;
    if k < key.len() {
        assert(key[k] == '=');
    }
    assert(cut(p, '=').0 =~= key);
    assert(cut(p, '=').1->0 =~= value);
    lemma_raw(pairs, key, 0, i);
}

proof fn lemma_raw(pairs: Seq<Seq<char>>, key: Seq<char>, a: int, i: int)
    requires
        0 <= a <= i <= pairs.len(),
        forall|j: int| 0 <= j < i ==> cut(#[trigger] pairs[j], '=').0 != key,
    ensures
        raw_value(pairs, key, a) == raw_value(pairs, key, i),
    decreases i - a,
{
    if a < i {
        assert(cut(pairs[a], '=').0 != key);
        lemma_raw(pairs, key, a + 1, i);
    }
}

proof fn lemma_trim(s: Seq<char>)
    requires
        is_word(s),
    ensures
        trim(s) == s,
        trim(seq![' '] + s) == s,
{
    assert(!is_space(s[0]));
    assert(!is_space(s[s.len() - 1]));
    assert((seq![' '] + s).skip(1) =~= s);
    assert((seq![' '] + s)[0] == ' ');
    assert(trim_start(seq![' '] + s) == trim_start(s));
}

proof fn lemma_dec_word(n: nat)
    ensures
        is_word(dec(n)),
        dec(n)[0] != '+',
    decreases n,
{
    if n >= 10 {
        lemma_dec_word(n / 10);
        assert(dec(n)[0] == dec(n / 10)[0]);
    }
}

/// A number in decimal notation reads back, with or without a plus sign, where it is not
/// too great.
pub proof fn law_number_reads_back(n: nat, max: int)
    ensures
        number(dec(n), 10, max) == if n <= max {
            Some(n as int)
        } else {
            None
        },
        number(seq!['+'] + dec(n), 10, max) == number(dec(n), 10, max),
{
    lemma_dec_word(n);
    crate::json::lemma_dec(n);
    assert((seq!['+'] + dec(n)).skip(1) =~= dec(n));
}

/// The line with the length of the body gives it, in whichever case its name is written.
pub proof fn law_length_is_read(n: nat)
    requires
        n <= usize::MAX,
    ensures
        length_line("content-length: "@ + dec(n)) == Some(n as int),
        length_line("Content-Length: "@ + dec(n)) == Some(n as int),
        length_field("content-length: "@ + dec(n)) == Some(n as int),
        length_field("Content-Length: "@ + dec(n)) == Some(n as int),
{
    reveal_strlit("content-length:");
    reveal_strlit("content-length");
    reveal_strlit("content-length: ");
    reveal_strlit("Content-Length: ");
    lemma_length("content-length: "@, n);
    lemma_length("Content-Length: "@, n);
}

proof fn lemma_length(name: Seq<char>, n: nat)
    requires
        n <= usize::MAX,
        name.len() == 16,
        "content-length:"@.len() == 15,
        "content-length"@.len() == 14,
        forall|i: int|
            0 <= i < 15 ==> crate::lines::lower(#[trigger] name[i]) == "content-length:"@[i],
        forall|i: int|
            0 <= i < 15 ==> crate::lines::lower(#[trigger] "content-length:"@[i])
                == "content-length:"@[i],
        forall|i: int| 0 <= i < 14 ==> #[trigger] "content-length"@[i] == "content-length:"@[i],
        forall|i: int| 0 <= i < 14 ==> #[trigger] name[i] != ':' && !is_space(name[i]),
        name[14] == ':',
        name[15] == ' ',
    ensures
        length_line(name + dec(n)) == Some(n as int),
        length_field(name + dec(n)) == Some(n as int),
{
    let line = name + dec(n);
    lemma_dec_word(n);
    law_number_reads_back(n, usize::MAX as int);
    lemma_trim(dec(n));
    assert(line.skip(15) =~= seq![' '] + dec(n));
    assert forall|i: int| 0 <= i < 15 implies crate::lines::lower(line[i]) == crate::lines::lower(
        #[trigger] "content-length:"@[i],
    ) by {
        assert(line[i] == name[i]);
    }
    assert(starts_alike(line, "content-length:"@));
    lemma_position(line, ':', 0);
    let k = position(line, ':', 0)->0;
    assert(line[14] == ':');
    if k < 14 {
        assert(line[k] == name[k]);
    }
    assert(k == 14);
    let key = cut(line, ':').0;
    assert(key =~= name.take(14));
    assert(cut(line, ':').1->0 =~= line.skip(15));
    assert(is_word(key)) by {
        assert forall|i: int| 0 <= i < key.len() implies !is_space(#[trigger] key[i]) by {
            assert(key[i] == name[i]);
        }
    }
    lemma_trim(key);
    assert forall|i: int| 0 <= i < 14 implies crate::lines::lower(key[i]) == crate::lines::lower(
        #[trigger] "content-length"@[i],
    ) by {
        assert(key[i] == name[i]);
        assert("content-length:"@[i] == "content-length"@[i]);
    }
}

/// The last line that gives the length of the body counts, and without one there is no
/// body.
pub proof fn law_last_length_counts(ls: Seq<Seq<char>>, n: int, i: int)
    requires
        1 <= i < n <= ls.len(),
        forall|j: int| i < j < n ==> length_field(#[trigger] ls[j]) is None,
        forall|j: int| i < j < n ==> length_line(#[trigger] ls[j]) is None,
    ensures
        length_field(ls[i]) matches Some(v) ==> http::body_size(ls, n) == v,
        length_line(ls[i]) matches Some(v) ==> server::body_size(ls, n) == v,
        i == 1 && length_field(ls[1]) is None ==> http::body_size(ls, n) == 0,
        i == 1 && length_line(ls[1]) is None ==> server::body_size(ls, n) == 0,
    decreases n - i,
{
    if i < n - 1 {
        assert(length_field(ls[n - 1]) is None);
        assert(length_line(ls[n - 1]) is None);
        law_last_length_counts(ls, n - 1, i);
    } else {
        reveal_with_fuel(http::body_size, 2);
        reveal_with_fuel(server::body_size, 2);
    }
}

proof fn lemma_no_value(s: Seq<char>, i: int)
    requires
        0 <= i < s.len(),
        !('0' <= s[i] <= '9'),
    ensures
        digits_value(s, 10) is None,
    decreases s.len(),
{
    if i < s.len() - 1 {
        assert(s.drop_last()[i] == s[i]);
        lemma_no_value(s.drop_last(), i);
    }
}

/// A length that is no number counts as none.
pub proof fn law_bad_length_counts_as_none(w: Seq<char>, i: int)
    requires
        is_word(w),
        0 <= i < w.len(),
        !('0' <= w[i] <= '9'),
        w[0] != '+',
    ensures
        length_line("content-length:"@ + w) == Some(0int),
        length_field("content-length:"@ + w) == Some(0int),
{
    reveal_strlit("content-length:");
    reveal_strlit("content-length");
    let name = "content-length:"@;
    let line = name + w;
    lemma_no_value(w, i);
    lemma_trim(w);
    assert(name.len() == 15);
    assert(line.skip(15) =~= w);
    assert forall|k: int| 0 <= k < 15 implies crate::lines::lower(line[k]) == crate::lines::lower(
        #[trigger] name[k],
    ) by {
        assert(line[k] == name[k]);
    }
    assert(starts_alike(line, name));
    lemma_position(line, ':', 0);
    let k = position(line, ':', 0)->0;
    assert(line[14] == ':');
    if k < 14 {
        assert(line[k] == name[k]);
    }
    assert(k == 14);
    let key = cut(line, ':').0;
    assert(key =~= name.take(14));
    assert(cut(line, ':').1->0 =~= w);
    assert(is_word(key)) by {
        assert forall|q: int| 0 <= q < key.len() implies !is_space(#[trigger] key[q]) by {
            assert(key[q] == name[q]);
        }
    }
    lemma_trim(key);
    assert(key =~= "content-length"@);
}

} // verus!
