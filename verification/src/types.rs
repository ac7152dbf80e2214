//! Addresses, endpoints and the link layer kinds of captured frames.

use vstd::prelude::*;
use vstd::string::StringSliceAdditionalSpecFns;
use vstd::utf8::encode_utf8;
use crate::bytes::be16;
use crate::text::{
    cat, char_digit, chars_of, dec, digits_value, fields, hex_char, hex_min, hex_of, is_space,
    number, parse_number, push_dec, push_hex_min, push_text, split_fields, sub_string, views,
};

verus! {

/// An IPv4 or IPv6 address. IPv4 sorts before IPv6, and each by its bytes.
#[derive(Clone, Copy, Debug, PartialEq, Eq, Hash, PartialOrd, Ord)]
pub enum Ip {
    V4([u8; 4]),
    V6([u8; 16]),
}

/// The number that big-endian bytes stand for.
pub open spec fn be_value(s: Seq<u8>) -> nat
    decreases s.len(),
{
    if s.len() == 0 {
        0
    } else {
        be_value(s.drop_last()) * 256 + s.last() as nat
    }
}

/// 256 to the power `n`.
pub open spec fn pow256(n: nat) -> nat
    decreases n,
{
    if n == 0 {
        1
    } else {
        256 * pow256((n - 1) as nat)
    }
}

proof fn lemma_pow256_le(a: nat, b: nat)
    requires
        a <= b,
    ensures
        1 <= pow256(a) <= pow256(b),
    decreases b,
{
    if b > 0 {
        if a == b {
            lemma_pow256_le((a - 1) as nat, (b - 1) as nat);
        } else {
            lemma_pow256_le(a, (b - 1) as nat);
        }
    }
}

proof fn lemma_be_value_bound(s: Seq<u8>)
    ensures
        be_value(s) < pow256(s.len()),
    decreases s.len(),
{
    if s.len() > 0 {
        lemma_be_value_bound(s.drop_last());
    }
}

proof fn lemma_be_value_injective(a: Seq<u8>, b: Seq<u8>)
    requires
        a.len() == b.len(),
        be_value(a) == be_value(b),
    ensures
        a == b,
    decreases a.len(),
{
    if a.len() > 0 {
        lemma_be_value_injective(a.drop_last(), b.drop_last());
        assert(a =~= a.drop_last().push(a.last()));
        assert(b =~= b.drop_last().push(b.last()));
    } else {
        assert(a =~= b);
    }
}

fn value_of(b: &[u8]) -> (v: u128)
    requires
        b@.len() <= 16,
    ensures
        v == be_value(b@),
{
    let mut v: u128 = 0;
    let mut i: usize = 0;
    assert(b@.take(0) =~= Seq::<u8>::empty());
    while i < b.len()
        invariant
            i <= b@.len() <= 16,
            v == be_value(b@.take(i as int)),
        decreases b@.len() - i,
    {
        proof {
            assert(b@.take(i + 1).drop_last() =~= b@.take(i as int));
            lemma_be_value_bound(b@.take(i + 1));
            lemma_pow256_le((i + 1) as nat, 16);
            assert(pow256(16) == 0x1_0000_0000_0000_0000_0000_0000_0000_0000) by {
                reveal_with_fuel(pow256, 17);
            }
        }
        v = v * 256 + b[i] as u128;
        i += 1;
    }
    assert(b@.take(i as int) =~= b@);
    v
}

/// The eight 16-bit groups of an IPv6 address.
pub open spec fn words(a: Seq<u8>) -> Seq<int> {
    Seq::new(8, |i: int| be16(a, 2 * i))
}

/// The number of zero groups from group `i` on, without a break.
pub open spec fn zero_run(w: Seq<int>, i: int) -> int
    decreases w.len() - i,
{
    if 0 <= i < w.len() && w[i] == 0 {
        1 + zero_run(w, i + 1)
    } else {
        0
    }
}

/// The start and length of the longest run of at least two zero groups that
/// starts at or after `i`, the first one of several.
pub open spec fn best_run(w: Seq<int>, i: int) -> Option<(int, int)>
    decreases w.len() - i,
{
    if i >= w.len() {
        None
    } else {
        let l = zero_run(w, i);
        match best_run(w, i + 1) {
            Some((s, n)) => if l >= n {
                Some((i, l))
            } else {
                Some((s, n))
            },
            None => if l >= 2 {
                Some((i, l))
            } else {
                None
            },
        }
    }
}

/// Groups `a..b` in lower-case hexadecimal with `:` between them.
pub open spec fn groups_text(w: Seq<int>, a: int, b: int) -> Seq<char>
    decreases b - a,
{
    if a >= b {
        Seq::empty()
    } else if a + 1 == b {
        hex_min(w[a] as nat)
    } else {
        groups_text(w, a, b - 1).push(':') + hex_min(w[b - 1] as nat)
    }
}

/// Dotted decimal text of four bytes.
pub open spec fn v4_text(a: Seq<u8>) -> Seq<char> {
    (((dec(a[0] as nat).push('.') + dec(a[1] as nat)).push('.') + dec(a[2] as nat)).push('.') + dec(
        a[3] as nat,
    ))
}

/// Text of an IPv6 address as RFC 5952 has it.
pub open spec fn v6_text(a: Seq<u8>) -> Seq<char> {
    let w = words(a);
    match best_run(w, 0) {
        None => groups_text(w, 0, 8),
        Some((s, n)) => groups_text(w, 0, s).push(':').push(':') + groups_text(w, s + n, 8),
    }
}

/// An IPv6 address that holds an IPv4 address (`::ffff:0:0/96`).
pub open spec fn v4_mapped(a: Seq<u8>) -> bool {
    &&& forall|i: int| 0 <= i < 10 ==> a[i] == 0
    &&& a[10] == 0xff
    &&& a[11] == 0xff
}

impl Ip {
    /// The bytes of the address.
    pub open spec fn octets(self) -> Seq<u8> {
        match self {
            Ip::V4(a) => a@,
            Ip::V6(a) => a@,
        }
    }

    /// The place of an address in the order.
    pub open spec fn rank(self) -> int {
        match self {
            Ip::V4(a) => be_value(a@) as int,
            Ip::V6(a) => 0x1_0000_0000 + be_value(a@) as int,
        }
    }

    /// The canonical text.
    pub open spec fn text(self) -> Seq<char> {
        match self {
            Ip::V4(a) => v4_text(a@),
            Ip::V6(a) => v6_text(a@),
        }
    }

    /// The canonical text, with an embedded IPv4 address in dotted decimals.
    pub open spec fn mixed_text(self) -> Seq<char> {
        match self {
            Ip::V4(a) => v4_text(a@),
            Ip::V6(a) => if v4_mapped(a@) {
                "::ffff:"@ + v4_text(a@.skip(12))
            } else {
                v6_text(a@)
            },
        }
    }

    /// Whether two addresses are the same.
    pub fn same(&self, other: &Ip) -> (r: bool)
        ensures
            r == (*self == *other),
    {
        match (self, other) {
            (Ip::V4(a), Ip::V4(b)) => {
                let r = same_bytes(a, b);
                assert(a@ == b@ ==> *a =~= *b);
                r
            },
            (Ip::V6(a), Ip::V6(b)) => {
                let r = same_bytes(a, b);
                assert(a@ == b@ ==> *a =~= *b);
                r
            },
            _ => false,
        }
    }

    /// Whether `self` sorts before `other`.
    pub fn precedes(&self, other: &Ip) -> (r: bool)
        ensures
            r == (self.rank() < other.rank()),
    {
        match (self, other) {
            (Ip::V4(a), Ip::V4(b)) => value_of(a) < value_of(b),
            (Ip::V6(a), Ip::V6(b)) => value_of(a) < value_of(b),
            (Ip::V4(a), Ip::V6(b)) => {
                proof {
                    lemma_be_value_bound(a@);
                    assert(pow256(4) == 0x1_0000_0000) by {
                        reveal_with_fuel(pow256, 5);
                    }
                }
                true
            },
            (Ip::V6(a), Ip::V4(b)) => {
                proof {
                    lemma_be_value_bound(b@);
                    assert(pow256(4) == 0x1_0000_0000) by {
                        reveal_with_fuel(pow256, 5);
                    }
                }
                false
            },
        }
    }

    /// The canonical text of the address.
    pub fn to_text(&self) -> (s: String)
        ensures
            s@ == self.text(),
    {
        let mut s = String::new();
        match self {
            Ip::V4(a) => push_v4(&mut s, a),
            Ip::V6(a) => push_v6(&mut s, a),
        }
        assert(s@ =~= self.text());
        s
    }

    /// The canonical text, with an embedded IPv4 address in dotted decimals.
    pub fn to_mixed_text(&self) -> (s: String)
        ensures
            s@ == self.mixed_text(),
    {
        let mut s = String::new();
        match self {
            Ip::V4(a) => push_v4(&mut s, a),
            Ip::V6(a) => {
                let mut mapped = a[10] == 0xff && a[11] == 0xff;
                let mut i: usize = 0;
                while i < 10
                    invariant
                        i <= 10,
                        mapped == (a@[10] == 0xff && a@[11] == 0xff && forall|k: int|
                            0 <= k < i ==> a@[k] == 0),
                    decreases 10 - i,
                {
                    if a[i] != 0 {
                        mapped = false;
                    }
                    i += 1;
                }
                if mapped {
                    push_text(&mut s, "::ffff:");
                    let v4 = [a[12], a[13], a[14], a[15]];
                    assert(v4@ =~= a@.skip(12));
                    push_v4(&mut s, &v4);
                } else {
                    push_v6(&mut s, a);
                }
            },
        }
        assert(s@ =~= self.mixed_text());
        s
    }
}

fn same_bytes(a: &[u8], b: &[u8]) -> (r: bool)
    requires
        a@.len() == b@.len(),
    ensures
        r == (a@ == b@),
{
    let mut i: usize = 0;
    while i < a.len()
        invariant
            i <= a@.len(),
            a@.len() == b@.len(),
            forall|k: int| 0 <= k < i ==> a@[k] == b@[k],
        decreases a@.len() - i,
    {
        if a[i] != b[i] {
            return false;
        }
        i += 1;
    }
    assert(a@ =~= b@);
    true
}

fn push_v4(s: &mut String, a: &[u8; 4])
    ensures
        final(s)@ == old(s)@ + v4_text(a@),
{
    push_dec(s, a[0] as u64);
    s.push('.');
    push_dec(s, a[1] as u64);
    s.push('.');
    push_dec(s, a[2] as u64);
    s.push('.');
    push_dec(s, a[3] as u64);
    assert(s@ =~= old(s)@ + v4_text(a@));
}

fn push_groups(s: &mut String, a: &[u8; 16], from: usize, to: usize)
    requires
        from <= 8,
        to <= 8,
    ensures
        final(s)@ == old(s)@ + groups_text(words(a@), from as int, to as int),
{
    let ghost w = words(a@);
    let mut i: usize = from;
    assert(s@ =~= old(s)@ + groups_text(w, from as int, from as int));
    while i < to
        invariant
            from <= i,
            i <= to || i == from,
            to <= 8,
            w == words(a@),
            s@ == old(s)@ + groups_text(w, from as int, i as int),
        decreases to - i,
    {
        if i > from {
            s.push(':');
        }
        let g: u16 = a[2 * i] as u16 * 256 + a[2 * i + 1] as u16;
        assert(w[i as int] == g);
        push_hex_min(s, g);
        i += 1;
        assert(s@ =~= old(s)@ + groups_text(w, from as int, i as int));
    }
    assert(from >= to ==> groups_text(w, from as int, to as int) =~= Seq::<char>::empty());
}

fn push_v6(s: &mut String, a: &[u8; 16])
    ensures
        final(s)@ == old(s)@ + v6_text(a@),
{
    let ghost w = words(a@);
    let mut i: usize = 8;
    let mut run: usize = 0;
    let mut best: Option<(usize, usize)> = None;
    while i > 0
        invariant
            i <= 8,
            w == words(a@),
            run == zero_run(w, i as int),
            run <= 8 - i,
            match best {
                None => best_run(w, i as int) is None,
                Some((s, n)) => best_run(w, i as int) == Some((s as int, n as int)) && s + n <= 8,
            },
        decreases i,
    {
        i -= 1;
        assert(w[i as int] == be16(a@, 2 * i));
        if a[2 * i] == 0 && a[2 * i + 1] == 0 {
            run += 1;
        } else {
            run = 0;
        }
        assert(run == zero_run(w, i as int));
        match best {
            Some((_, n)) => {
                if run >= n {
                    best = Some((i, run));
                }
            },
            None => {
                if run >= 2 {
                    best = Some((i, run));
                }
            },
        }
    }
    match best {
        None => push_groups(s, a, 0, 8),
        Some((start, n)) => {
            push_groups(s, a, 0, start);
            s.push(':');
            s.push(':');
            push_groups(s, a, start + n, 8);
        },
    }
    assert(s@ =~= old(s)@ + v6_text(a@));
}

/// The numbers of the first `n` parts, or the message for the first part that
/// is none: `empty` where the part is empty and there is such a message, else
/// `what` and the part.
pub open spec fn part_numbers(
    parts: Seq<Seq<char>>,
    radix: int,
    max: int,
    what: Seq<char>,
    empty: Option<Seq<char>>,
    n: int,
) -> Result<Seq<int>, Seq<char>>
    decreases n,
{
    if n <= 0 {
        Ok(seq![])
    } else {
        match part_numbers(parts, radix, max, what, empty, n - 1) {
            Err(e) => Err(e),
            Ok(v) => {
                let p = parts[n - 1];
                if p.len() == 0 && empty is Some {
                    Err(empty->0)
                } else {
                    match number(p, radix, max) {
                        Some(x) => Ok(v.push(x)),
                        None => Err(what + p),
                    }
                }
            },
        }
    }
}

/// The numbers of an executable vector.
pub open spec fn ints(v: Seq<u64>) -> Seq<int> {
    Seq::new(v.len(), |i: int| v[i] as int)
}

pub(crate) fn parse_parts(parts: &Vec<String>, radix: u32, max: u64, what: &str, empty: Option<&str>) -> (r: Result<
    Vec<u64>,
    String,
>)
    requires
        2 <= radix <= 36,
    ensures
        ({
            let want = part_numbers(
                views(parts@),
                radix as int,
                max as int,
                what@,
                match empty {
                    Some(e) => Some(e@),
                    None => None,
                },
                parts@.len() as int,
            );
            match r {
                Ok(v) => want == Ok::<Seq<int>, Seq<char>>(ints(v@)) && v@.len() == parts@.len()
                    && forall|i: int| 0 <= i < v@.len() ==> v@[i] <= max,
                Err(e) => want == Err::<Seq<int>, Seq<char>>(e@),
            }
        }),
{
    let ghost em: Option<Seq<char>> = match empty {
        Some(e) => Some(e@),
        None => None,
    };
    let ghost ps = views(parts@);
    let mut out: Vec<u64> = Vec::new();
    let mut i: usize = 0;
    assert(ints(out@) =~= seq![]);
    while i < parts.len()
        invariant
            i <= parts@.len(),
            2 <= radix <= 36,
            ps == views(parts@),
            em == (match empty {
                Some(e) => Some(e@),
                None => None::<Seq<char>>,
            }),
            out@.len() == i,
            forall|k: int| 0 <= k < i ==> out@[k] <= max,
            part_numbers(ps, radix as int, max as int, what@, em, i as int) == Ok::<
                Seq<int>,
                Seq<char>,
            >(ints(out@)),
        decreases parts@.len() - i,
    {
        let p = parts[i].as_str();
        assert(ps[i as int] == p@);
        proof {
            if part_numbers(ps, radix as int, max as int, what@, em, i + 1) is Err {
                lemma_part_error_stays(
                    ps,
                    radix as int,
                    max as int,
                    what@,
                    em,
                    i + 1,
                    parts@.len() as int,
                );
            }
        }
        if p.is_empty() {
            if let Some(e) = empty {
                return Err(e.to_string());
            }
        }
        match parse_number(p, radix, max) {
            None => {
                return Err(cat(what, p));
            },
            Some(x) => {
                let ghost before = out@;
                out.push(x);
                assert(ints(out@) =~= ints(before).push(x as int));
            },
        }
        i += 1;
    }
    Ok(out)
}

proof fn lemma_part_error_stays(
    parts: Seq<Seq<char>>,
    radix: int,
    max: int,
    what: Seq<char>,
    empty: Option<Seq<char>>,
    i: int,
    n: int,
)
    requires
        0 <= i <= n,
        part_numbers(parts, radix, max, what, empty, i) is Err,
    ensures
        part_numbers(parts, radix, max, what, empty, n) == part_numbers(
            parts,
            radix,
            max,
            what,
            empty,
            i,
        ),
    decreases n,
{
    if i < n {
        lemma_part_error_stays(parts, radix, max, what, empty, i, n - 1);
    }
}

/// What the text of an IPv4 address gives.
pub open spec fn v4_of(s: Seq<char>) -> Result<Seq<u8>, Seq<char>> {
    let parts = fields(s, '.');
    if parts.len() != 4 {
        Err("invalid IPv4 address: "@ + s)
    } else {
        match part_numbers(parts, 10, 255, "invalid IPv4 octet: "@, None, 4) {
            Ok(v) => Ok(Seq::new(4, |i: int| v[i] as u8)),
            Err(e) => Err(e),
        }
    }
}

/// The first `::` at or after `i`.
pub open spec fn double_colon(s: Seq<char>, i: int) -> Option<int>
    decreases s.len() - i,
{
    if i + 1 >= s.len() {
        None
    } else if s[i] == ':' && s[i + 1] == ':' {
        Some(i)
    } else {
        double_colon(s, i + 1)
    }
}

/// The groups of colon-separated text.
pub open spec fn groups_of(s: Seq<char>) -> Result<Seq<int>, Seq<char>> {
    let parts = fields(s, ':');
    part_numbers(
        parts,
        16,
        65535,
        "invalid IPv6 group: "@,
        Some("empty IPv6 group"@),
        parts.len() as int,
    )
}

/// The groups of text that may be empty.
pub open spec fn side_groups(s: Seq<char>) -> Result<Seq<int>, Seq<char>> {
    if s.len() == 0 {
        Ok(seq![])
    } else {
        groups_of(s)
    }
}

/// The eight groups that the text of an IPv6 address gives.
pub open spec fn v6_groups(s: Seq<char>) -> Result<Seq<int>, Seq<char>> {
    match double_colon(s, 0) {
        Some(p) => if double_colon(s, p + 2) is Some {
            Err("multiple :: in IPv6 address: "@ + s)
        } else {
            match side_groups(s.take(p)) {
                Err(e) => Err(e),
                Ok(head) => match side_groups(s.skip(p + 2)) {
                    Err(e) => Err(e),
                    Ok(tail) => if head.len() + tail.len() > 6 {
                        Err("too many IPv6 groups: "@ + s)
                    } else {
                        Ok(
                            head + Seq::new((8 - head.len() - tail.len()) as nat, |i: int| 0int)
                                + tail,
                        )
                    },
                },
            }
        },
        None => match groups_of(s) {
            Err(e) => Err(e),
            Ok(v) => if v.len() != 8 {
                Err("invalid IPv6 address: "@ + s)
            } else {
                Ok(v)
            },
        },
    }
}

/// The bytes of eight groups.
pub open spec fn group_bytes(g: Seq<int>) -> Seq<u8> {
    Seq::new(
        16,
        |i: int|
            if i % 2 == 0 {
                (g[i / 2] / 256) as u8
            } else {
                (g[i / 2] % 256) as u8
            },
    )
}

pub(crate) fn find_double_colon(v: &Vec<char>, from: usize) -> (r: Option<usize>)
    ensures
        match r {
            Some(p) => double_colon(v@, from as int) == Some(p as int) && p + 2 <= v@.len(),
            None => double_colon(v@, from as int) is None,
        },
{
    let mut i: usize = from;
    if v.len() < 2 {
        return None;
    }
    let n: usize = v.len() - 1;
    while i < n
        invariant
            n == v@.len() - 1,
            from <= i,
            double_colon(v@, from as int) == double_colon(v@, i as int),
        decreases n - i,
    {
        if v[i] == ':' && v[i + 1] == ':' {
            return Some(i);
        }
        i += 1;
    }
    None
}

fn parse_v6_groups(s: &str) -> (r: Result<Vec<u64>, String>)
    ensures
        match r {
            Ok(v) => groups_of(s@) == Ok::<Seq<int>, Seq<char>>(ints(v@)) && forall|i: int|
                0 <= i < v@.len() ==> v@[i] <= 65535,
            Err(e) => groups_of(s@) == Err::<Seq<int>, Seq<char>>(e@),
        },
{
    let parts = split_fields(s, ':');
    parse_parts(&parts, 16, 65535, "invalid IPv6 group: ", Some("empty IPv6 group"))
}

pub(crate) fn parse_side(s: &str) -> (r: Result<Vec<u64>, String>)
    ensures
        match r {
            Ok(v) => side_groups(s@) == Ok::<Seq<int>, Seq<char>>(ints(v@)) && forall|i: int|
                0 <= i < v@.len() ==> v@[i] <= 65535,
            Err(e) => side_groups(s@) == Err::<Seq<int>, Seq<char>>(e@),
        },
{
    if s.is_empty() {
        let v: Vec<u64> = Vec::new();
        assert(ints(v@) =~= seq![]);
        Ok(v)
    } else {
        parse_v6_groups(s)
    }
}

fn parse_v4(s: &str) -> (r: Result<Ip, String>)
    ensures
        match r {
            Ok(Ip::V4(a)) => v4_of(s@) == Ok::<Seq<u8>, Seq<char>>(a@),
            Ok(_) => false,
            Err(e) => v4_of(s@) == Err::<Seq<u8>, Seq<char>>(e@),
        },
{
    let parts = split_fields(s, '.');
    assert(views(parts@).len() == parts@.len());
    if parts.len() != 4 {
        return Err(cat("invalid IPv4 address: ", s));
    }
    match parse_parts(&parts, 10, 255, "invalid IPv4 octet: ", None) {
        Err(e) => Err(e),
        Ok(v) => {
            let a: [u8; 4] = [v[0] as u8, v[1] as u8, v[2] as u8, v[3] as u8];
            assert(a@ =~= Seq::new(4, |i: int| ints(v@)[i] as u8));
            Ok(Ip::V4(a))
        },
    }
}

fn parse_v6(s: &str) -> (r: Result<Ip, String>)
    ensures
        match r {
            Ok(Ip::V6(a)) => v6_groups(s@) is Ok && a@ == group_bytes(v6_groups(s@)->Ok_0),
            Ok(_) => false,
            Err(e) => v6_groups(s@) == Err::<Seq<int>, Seq<char>>(e@),
        },
{
    let v = chars_of(s);
    let mut groups: Vec<u64> = Vec::new();
    match find_double_colon(&v, 0) {
        Some(p) => {
            let n: usize = v.len();
            assert(p + 2 <= n);
            if find_double_colon(&v, p + 2).is_some() {
                return Err(cat("multiple :: in IPv6 address: ", s));
            }
            let head = sub_string(&v, 0, p);
            let tail = sub_string(&v, p + 2, v.len());
            assert(head@ =~= s@.take(p as int));
            assert(tail@ =~= s@.skip(p + 2));
            let h = match parse_side(head.as_str()) {
                Ok(h) => h,
                Err(e) => {
                    return Err(e);
                },
            };
            let t = match parse_side(tail.as_str()) {
                Ok(t) => t,
                Err(e) => {
                    return Err(e);
                },
            };
            if h.len() > 6 || t.len() > 6 || h.len() + t.len() > 6 {
                return Err(cat("too many IPv6 groups: ", s));
            }
            groups = pad_groups(h, t);
        },
        None => {
            groups = match parse_v6_groups(s) {
                Ok(g) => g,
                Err(e) => {
                    return Err(e);
                },
            };
            if groups.len() != 8 {
                return Err(cat("invalid IPv6 address: ", s));
            }
        },
    }
    Ok(Ip::V6(groups_array(&groups)))
}

/// Groups with zeros between them, eight in all.
pub(crate) fn pad_groups(h: Vec<u64>, t: Vec<u64>) -> (r: Vec<u64>)
    requires
        h@.len() + t@.len() <= 8,
        forall|i: int| 0 <= i < h@.len() ==> h@[i] <= 65535,
        forall|i: int| 0 <= i < t@.len() ==> t@[i] <= 65535,
    ensures
        r@.len() == 8,
        forall|i: int| 0 <= i < r@.len() ==> r@[i] <= 65535,
        ints(r@) == ints(h@) + Seq::new((8 - h@.len() - t@.len()) as nat, |i: int| 0int) + ints(t@),
{
    let ghost h0 = h@;
    let ghost t0 = t@;
    let zeros: usize = 8 - h.len() - t.len();
    let mut out = h;
    let mut rest = t;
    let mut k: usize = 0;
    while k < zeros
        invariant
            k <= zeros <= 8,
            out@ == h0 + Seq::new(k as nat, |i: int| 0u64),
        decreases zeros - k,
    {
        out.push(0);
        k += 1;
        assert(out@ =~= h0 + Seq::new(k as nat, |i: int| 0u64));
    }
    out.append(&mut rest);
    assert(ints(out@) =~= ints(h0) + Seq::new(
        (8 - h0.len() - t0.len()) as nat,
        |i: int| 0int,
    ) + ints(t0));
    out
}

/// The bytes of eight groups.
pub(crate) fn groups_array(g: &Vec<u64>) -> (a: [u8; 16])
    requires
        g@.len() == 8,
        forall|i: int| 0 <= i < g@.len() ==> g@[i] <= 65535,
    ensures
        a@ == group_bytes(ints(g@)),
{
    let a: [u8; 16] = [
        (g[0] / 256) as u8,
        (g[0] % 256) as u8,
        (g[1] / 256) as u8,
        (g[1] % 256) as u8,
        (g[2] / 256) as u8,
        (g[2] % 256) as u8,
        (g[3] / 256) as u8,
        (g[3] % 256) as u8,
        (g[4] / 256) as u8,
        (g[4] % 256) as u8,
        (g[5] / 256) as u8,
        (g[5] % 256) as u8,
        (g[6] / 256) as u8,
        (g[6] % 256) as u8,
        (g[7] / 256) as u8,
        (g[7] % 256) as u8,
    ];
    assert(a@ =~= group_bytes(ints(g@)));
    a
}

impl Ip {
    /// What the text of an address gives: an IPv6 address where it holds a
    /// colon, else an IPv4 address.
    pub open spec fn parsed(s: Seq<char>, r: Result<Ip, Seq<char>>) -> bool {
        if s.contains(':') {
            match (v6_groups(s), r) {
                (Ok(g), Ok(Ip::V6(a))) => a@ == group_bytes(g),
                (Err(e), Err(f)) => e == f,
                _ => false,
            }
        } else {
            match (v4_of(s), r) {
                (Ok(b), Ok(Ip::V4(a))) => a@ == b,
                (Err(e), Err(f)) => e == f,
                _ => false,
            }
        }
    }

    /// Reads the text of an address.
    pub fn parse(s: &str) -> (r: Result<Ip, String>)
        ensures
            match r {
                Ok(ip) => Self::parsed(s@, Ok(ip)),
                Err(e) => Self::parsed(s@, Err(e@)),
            },
    {
        let v = chars_of(s);
        let mut colon = false;
        let mut i: usize = 0;
        while i < v.len()
            invariant
                i <= v@.len(),
                v@ == s@,
                colon <==> s@.take(i as int).contains(':'),
            decreases v@.len() - i,
        {
            proof {
                let t = s@.take(i + 1);
                assert(t =~= s@.take(i as int).push(s@[i as int]));
                if s@.take(i as int).contains(':') {
                    let k = s@.take(i as int).index_of(':');
                    assert(t[k] == ':');
                }
                if s@[i as int] == ':' {
                    assert(t[i as int] == ':');
                }
            }
            if v[i] == ':' {
                colon = true;
            }
            i += 1;
        }
        assert(s@.take(i as int) =~= s@);
        if colon {
            parse_v6(s)
        } else {
            parse_v4(s)
        }
    }
}

impl std::str::FromStr for Ip {
    type Err = String;

    fn from_str(s: &str) -> Result<Self, String> {
        Ip::parse(s)
    }
}

/// One endpoint: an address and a port.
#[derive(Clone, Copy, Debug, PartialEq, Eq, Hash, PartialOrd, Ord)]
pub struct Endpoint {
    pub ip: Ip,
    pub port: u16,
}

impl Endpoint {
    pub fn new(ip: Ip, port: u16) -> (r: Self)
        ensures
            r.ip == ip,
            r.port == port,
    {
        Endpoint { ip, port }
    }

    /// The text of an endpoint; an IPv6 address stands in brackets.
    pub open spec fn text(self) -> Seq<char> {
        match self.ip {
            Ip::V4(_) => self.ip.text().push(':') + dec(self.port as nat),
            Ip::V6(_) => ((seq!['['] + self.ip.text()).push(']')).push(':') + dec(self.port as nat),
        }
    }

    pub fn to_text(&self) -> (s: String)
        ensures
            s@ == self.text(),
    {
        let ip = self.ip.to_text();
        let mut s = String::new();
        match self.ip {
            Ip::V4(_) => {
                push_text(&mut s, ip.as_str());
                s.push(':');
            },
            Ip::V6(_) => {
                s.push('[');
                push_text(&mut s, ip.as_str());
                s.push(']');
                s.push(':');
            },
        }
        push_dec(&mut s, self.port as u64);
        assert(s@ =~= self.text());
        s
    }
}

/// The link layer that a frame starts with.
#[derive(Clone, Copy, Debug, PartialEq, Eq, Structural)]
pub enum LinkKind {
    Ethernet,
    Ipv4Raw,
    Ipv6Raw,
    Null,
    LinuxSll,
    /// The frame starts with an IPv4 or IPv6 header.
    Raw,
}

impl Default for LinkKind {
    fn default() -> (r: Self)
        ensures
            r == LinkKind::Ethernet,
    {
        LinkKind::Ethernet
    }
}

/// The text without white space.
pub open spec fn without_space(s: Seq<char>) -> Seq<char>
    decreases s.len(),
{
    if s.len() == 0 {
        s
    } else if is_space(s.last()) {
        without_space(s.drop_last())
    } else {
        without_space(s.drop_last()).push(s.last())
    }
}

/// The number that two characters of hexadecimal text stand for; a leading
/// `+` counts as a sign.
pub open spec fn pair_number(b: Seq<u8>, i: int) -> Option<int> {
    if b[i] < 128 && b[i + 1] < 128 {
        number(seq![b[i] as char, b[i + 1] as char], 16, 255)
    } else {
        None
    }
}

/// The first `n` pairs are numbers.
pub open spec fn pairs_ok(b: Seq<u8>, n: int) -> bool {
    forall|k: int| 0 <= k < n ==> (#[trigger] pair_number(b, 2 * k)) is Some
}

/// No character past valid pairs straddles two pairs.
pub open spec fn sliceable(b: Seq<u8>) -> bool {
    b.len() % 2 == 0 ==> forall|k: int|
        #![trigger pairs_ok(b, k)]
        0 <= k && 2 * k + 2 <= b.len() && pairs_ok(b, k) ==> vstd::utf8::is_char_boundary(
            b,
            2 * k + 2,
        )
}

/// What hexadecimal text stands for.
pub open spec fn hex_read(s: Seq<char>) -> Result<Seq<u8>, Seq<char>> {
    let b = encode_utf8(without_space(s));
    if b.len() % 2 != 0 {
        Err("hex input has odd length"@)
    } else if pairs_ok(b, b.len() as int / 2) {
        Ok(Seq::new(b.len() / 2, |i: int| pair_number(b, 2 * i)->0 as u8))
    } else {
        Err("invalid hex digit"@)
    }
}

/// Bytes of hexadecimal text, ignoring white space anywhere. The text must not
/// reach, past valid pairs, a character that straddles two pairs.
pub fn decode_hex(s: &str) -> (r: Result<Vec<u8>, String>)
    requires
        sliceable(encode_utf8(without_space(s@))),
    ensures
        match r {
            Ok(v) => hex_read(s@) == Ok::<Seq<u8>, Seq<char>>(v@),
            Err(e) => hex_read(s@) == Err::<Seq<u8>, Seq<char>>(e@),
        },
{
    match try_decode_hex(s) {
        Some(r) => r,
        None => Ok(Vec::new()),
    }
}

/// Bytes of hexadecimal text, ignoring white space anywhere. Nothing comes back where
/// the text reaches, past valid pairs, a character that straddles two pairs.
pub fn try_decode_hex(s: &str) -> (r: Option<Result<Vec<u8>, String>>)
    ensures
        match r {
            Some(Ok(v)) => sliceable(encode_utf8(without_space(s@))) && hex_read(s@) == Ok::<
                Seq<u8>,
                Seq<char>,
            >(v@),
            Some(Err(e)) => sliceable(encode_utf8(without_space(s@))) && hex_read(s@) == Err::<
                Seq<u8>,
                Seq<char>,
            >(e@),
            None => !sliceable(encode_utf8(without_space(s@))),
        },
{
    let v = chars_of(s);
    let mut clean = String::new();
    let mut i: usize = 0;
    assert(s@.take(0) =~= Seq::<char>::empty());
    while i < v.len()
        invariant
            i <= v@.len(),
            v@ == s@,
            clean@ == without_space(s@.take(i as int)),
        decreases v@.len() - i,
    {
        assert(s@.take(i + 1).drop_last() =~= s@.take(i as int));
        assert(s@.take(i + 1).last() == s@[i as int]);
        if !crate::text::space(v[i]) {
            clean.push(v[i]);
        }
        i += 1;
    }
    assert(s@.take(i as int) =~= s@);
    let text = clean.as_str();
    let b = text.as_bytes();
    if b.len() % 2 != 0 {
        return Some(Err("hex input has odd length".to_string()));
    }
    let mut out: Vec<u8> = Vec::new();
    let mut k: usize = 0;
    while k < b.len() / 2
        invariant
            k <= b@.len() / 2,
            b@.len() % 2 == 0,
            text@ == without_space(s@),
            b@ == encode_utf8(text@),
            pairs_ok(b@, k as int),
            forall|j: int| 0 <= j < k ==> #[trigger] vstd::utf8::is_char_boundary(b@, 2 * j + 2),
            out@ == Seq::new(k as nat, |i: int| pair_number(b@, 2 * i)->0 as u8),
        decreases b@.len() / 2 - k,
    {
        if !text.is_char_boundary(2 * k + 2) {
            assert(pairs_ok(b@, k as int));
            return None;
        }
        let hi: u8 = b[2 * k];
        let lo: u8 = b[2 * k + 1];
        let x: Option<u64> = if hi < 128 && lo < 128 {
            let mut pair = String::new();
            pair.push(hi as char);
            pair.push(lo as char);
            assert(pair@ =~= seq![hi as char, lo as char]);
            parse_number(pair.as_str(), 16, 255)
        } else {
            None
        };
        match x {
            None => {
                proof {
                    assert(pair_number(b@, 2 * (k as int)) is None);
                    assert(!pairs_ok(b@, b@.len() as int / 2));
                    assert forall|j: int|
                        #![trigger pairs_ok(b@, j)]
                        0 <= j && 2 * j + 2 <= b@.len() && pairs_ok(
                            b@,
                            j,
                        ) implies vstd::utf8::is_char_boundary(b@, 2 * j + 2) by {
                        if j > k {
                            assert(pair_number(b@, 2 * (k as int)) is Some);
                        }
                    }
                }
                return Some(Err("invalid hex digit".to_string()));
            },
            Some(x) => {
                out.push(x as u8);
            },
        }
        k += 1;
        assert(out@ =~= Seq::new(k as nat, |i: int| pair_number(b@, 2 * i)->0 as u8));
    }
    Some(Ok(out))
}

/// White space may stand anywhere in hexadecimal text.
pub proof fn law_space_is_ignored(s: Seq<char>, c: char, t: Seq<char>)
    requires
        is_space(c),
    ensures
        without_space(s + seq![c] + t) == without_space(s + t),
    decreases t.len(),
{
    let u = s + seq![c] + t;
    if t.len() == 0 {
        assert(u.drop_last() =~= s + t);
    } else {
        law_space_is_ignored(s, c, t.drop_last());
        assert(u.drop_last() =~= s + seq![c] + t.drop_last());
        assert((s + t).drop_last() =~= s + t.drop_last());
    }
}

proof fn lemma_ascii_boundary(b: Seq<u8>, i: int)
    requires
        vstd::utf8::valid_utf8(b),
        forall|j: int| 0 <= j < b.len() ==> #[trigger] b[j] < 128,
        0 <= i <= b.len(),
    ensures
        vstd::utf8::is_char_boundary(b, i),
    decreases b.len(),
{
    if i > 0 {
        let t = vstd::utf8::pop_first_scalar(b);
        let x: u8 = b[0];
        assert(x < 128 ==> x & 0x80u8 == 0) by (bit_vector);
        assert(vstd::utf8::length_of_first_scalar(b) == 1);
        assert(t =~= b.subrange(1, b.len() as int));
        assert forall|j: int| 0 <= j < t.len() implies #[trigger] t[j] < 128 by {
            assert(t[j] == b[j + 1]);
        }
        lemma_ascii_boundary(t, i - 1);
    }
}

proof fn lemma_spaceless(s: Seq<char>)
    requires
        forall|i: int| 0 <= i < s.len() ==> !is_space(#[trigger] s[i]),
    ensures
        without_space(s) == s,
    decreases s.len(),
{
    if s.len() > 0 {
        let t = s.drop_last();
        assert forall|i: int| 0 <= i < t.len() implies !is_space(#[trigger] t[i]) by {
            assert(t[i] == s[i]);
        }
        lemma_spaceless(t);
        assert(t.push(s.last()) =~= s);
    }
}

/// Encoded bytes decode to the bytes, wherever white space was put between the digits.
pub proof fn law_hex_with_space_reads_back(h: Seq<char>, data: Seq<u8>)
    requires
        without_space(h) == without_space(hex_of(data)),
    ensures
        sliceable(encode_utf8(without_space(h))),
        hex_read(h) == Ok::<Seq<u8>, Seq<char>>(data),
{
    let s = hex_of(data);
    assert forall|i: int| 0 <= i < s.len() implies !is_space(#[trigger] s[i]) && (s[i] as int) < 128
        && char_digit(s[i], 16) is Some && s[i] != '+' by {
        assert(0 <= i / 2 < data.len());
    }
    lemma_spaceless(s);
    vstd::utf8::is_ascii_chars_encode_utf8(s);
    let b = encode_utf8(s);
    vstd::utf8::encode_utf8_valid_utf8(s);
    assert forall|i: int| 0 <= i < b.len() implies #[trigger] b[i] < 128 && b[i] as char == s[i] by {
        assert(b[i] == s[i] as u8);
    }
    assert forall|k: int| 0 <= k < data.len() implies (#[trigger] pair_number(b, 2 * k)) == Some(
        data[k] as int,
    ) by {
        let p = seq![b[2 * k] as char, b[2 * k + 1] as char];
        assert(p[0] == s[2 * k] && p[1] == s[2 * k + 1]);
        assert(s[2 * k] == hex_char(data[k] as int / 16));
        assert(s[2 * k + 1] == hex_char(data[k] as int % 16));
        reveal_with_fuel(digits_value, 3);
        assert(p.drop_last() =~= seq![p[0]]);
        assert(p.drop_last().drop_last() =~= seq![]);
    }
    assert(b.len() == 2 * data.len());
    assert(Seq::new(b.len() / 2, |i: int| pair_number(b, 2 * i)->0 as u8) =~= data);
    assert forall|k: int|
        #![trigger pairs_ok(b, k)]
        0 <= k && 2 * k + 2 <= b.len() && pairs_ok(b, k) implies vstd::utf8::is_char_boundary(
        b,
        2 * k + 2,
    ) by {
        lemma_ascii_boundary(b, 2 * k + 2);
    }
}

/// An odd number of ASCII characters other than white space is refused.
pub proof fn law_odd_hex_is_refused(h: Seq<char>)
    requires
        without_space(h).len() % 2 == 1,
        vstd::utf8::is_ascii_chars(without_space(h)),
    ensures
        hex_read(h) == Err::<Seq<u8>, Seq<char>>("hex input has odd length"@),
{
    vstd::utf8::is_ascii_chars_encode_utf8(without_space(h));
}

pub fn encode_hex(bytes: &[u8]) -> (s: String)
    ensures
        s@ == hex_of(bytes@),
{
    crate::hash::hex(bytes)
}

/// Two addresses have one rank only where they are the same.
pub proof fn law_rank_injective(a: Ip, b: Ip)
    requires
        a.rank() == b.rank(),
    ensures
        a == b,
{
    assert(pow256(4) == 0x1_0000_0000) by {
        reveal_with_fuel(pow256, 5);
    }
    lemma_be_value_bound(a.octets());
    lemma_be_value_bound(b.octets());
    match (a, b) {
        (Ip::V4(x), Ip::V4(y)) => {
            lemma_be_value_injective(x@, y@);
            assert(x =~= y);
        },
        (Ip::V6(x), Ip::V6(y)) => {
            lemma_be_value_injective(x@, y@);
            assert(x =~= y);
        },
        _ => {},
    }
}

} // verus!
