//! The Internet checksum: one's complement sums of 16-bit words.

use vstd::prelude::*;
use crate::bytes::be16;

verus! {

/// The sum of the big-endian words of `s`; an odd last byte counts as the high
/// half of a word.
pub open spec fn word_sum(s: Seq<u8>) -> nat
    decreases s.len(),
{
    if s.len() == 0 {
        0
    } else if s.len() == 1 {
        s[0] as nat * 256
    } else {
        (be16(s, 0) + word_sum(s.skip(2))) as nat
    }
}

/// Carries added back in until 16 bits are left.
pub open spec fn folded(n: nat) -> nat
    decreases n,
{
    if n < 0x1_0000 {
        n
    } else {
        folded(n % 0x1_0000 + n / 0x1_0000)
    }
}

/// The checksum of a sum: its complement.
pub open spec fn complement(n: nat) -> int {
    0xffff - folded(n)
}

/// Folding keeps the remainder modulo 2^16 - 1, and gives zero only for zero.
pub proof fn law_folded(n: nat)
    ensures
        folded(n) <= 0xffff,
        folded(n) % 0xffff == n % 0xffff,
        folded(n) == 0 <==> n == 0,
    decreases n,
{
    if n >= 0x1_0000 {
        law_folded(n % 0x1_0000 + n / 0x1_0000);
        assert(n == 0x1_0000 * (n / 0x1_0000) + n % 0x1_0000);
        assert((0xffff * (n / 0x1_0000) + (n % 0x1_0000 + n / 0x1_0000)) % 0xffff == (n % 0x1_0000 + n
            / 0x1_0000) % 0xffff) by {
            vstd::arithmetic::div_mod::lemma_mod_multiples_vanish(
                (n / 0x1_0000) as int,
                (n % 0x1_0000 + n / 0x1_0000) as int,
                0xffff,
            );
        }
    }
}

/// A sum to which its own complement is added folds to all ones.
pub proof fn law_complement_verifies(n: nat)
    ensures
        folded((n + complement(n)) as nat) == 0xffff,
{
    law_folded(n);
    law_folded((n + complement(n)) as nat);
    let f = folded(n) as int;
    assert((n + (0xffff - f)) % 0xffff == (f + (0xffff - f)) % 0xffff) by {
        vstd::arithmetic::div_mod::lemma_add_mod_noop(n as int, 0xffff - f, 0xffff);
        vstd::arithmetic::div_mod::lemma_add_mod_noop(f, 0xffff - f, 0xffff);
    }
    let g = folded((n + complement(n)) as nat) as int;
    assert(g % 0xffff == 0);
    assert(n + complement(n) > 0) by {
        if n == 0 {
            assert(f == 0);
        }
    }
    assert(g == 0 || g == 0xffff);
}

/// A sum is at most 2^16 - 1 for every word.
pub proof fn law_sum_bound(s: Seq<u8>)
    ensures
        word_sum(s) <= 0xffff * ((s.len() + 1) / 2),
    decreases s.len(),
{
    if s.len() >= 2 {
        law_sum_bound(s.skip(2));
    }
}

/// How long a byte string may be for its sum to fit into 32 bits whatever it
/// holds.
pub open spec fn sum_fits(s: Seq<u8>) -> bool {
    word_sum(s) <= u32::MAX
}

/// A byte string of up to 2^17 bytes has a sum that fits.
pub proof fn law_short_sums_fit(s: Seq<u8>)
    requires
        s.len() <= 0x2_0000,
    ensures
        word_sum(s) <= 0xffff_0000,
{
    law_sum_bound(s);
}

/// The sum of the words.
pub fn raw_sum16(data: &[u8]) -> (r: u32)
    requires
        sum_fits(data@),
    ensures
        r == word_sum(data@),
{
    let mut sum: u32 = 0;
    let mut i: usize = 0;
    assert(data@.skip(0) =~= data@);
    while i < data.len() && data.len() - i >= 2
        invariant
            i <= data@.len(),
            i % 2 == 0,
            sum + word_sum(data@.skip(i as int)) == word_sum(data@),
            word_sum(data@) <= u32::MAX,
        decreases data@.len() - i,
    {
        assert(data@.skip(i as int).skip(2) =~= data@.skip(i + 2));
        assert(be16(data@.skip(i as int), 0) == be16(data@, i as int));
        sum = sum + (data[i] as u32 * 256 + data[i + 1] as u32);
        i += 2;
    }
    if i < data.len() {
        assert(data@.skip(i as int).len() == 1);
        sum = sum + data[i] as u32 * 256;
    }
    sum
}

/// Adds carries back in.
pub fn fold(sum: u32) -> (r: u16)
    ensures
        r == folded(sum as nat),
{
    let mut s: u32 = sum;
    while s >= 0x1_0000
        invariant
            folded(s as nat) == folded(sum as nat),
        decreases s,
    {
        s = s % 0x1_0000 + s / 0x1_0000;
    }
    s as u16
}

/// The one's complement checksum of a byte string.
pub fn ones_complement(data: &[u8]) -> (r: u16)
    requires
        sum_fits(data@),
    ensures
        r == complement(word_sum(data@)),
{
    let f = fold(raw_sum16(data));
    0xffff - f
}

} // verus!
