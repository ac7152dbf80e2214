//! Fixed-width integers in byte strings.

use vstd::prelude::*;

verus! {

/// The big-endian 16-bit number at `i`.
pub open spec fn be16(s: Seq<u8>, i: int) -> int {
    s[i] * 256 + s[i + 1]
}

/// The big-endian 32-bit number at `i`.
pub open spec fn be32(s: Seq<u8>, i: int) -> int {
    s[i] * 0x1000000 + s[i + 1] * 0x10000 + s[i + 2] * 0x100 + s[i + 3]
}

/// The little-endian 16-bit number at `i`.
pub open spec fn le16(s: Seq<u8>, i: int) -> int {
    s[i + 1] * 256 + s[i]
}

/// The little-endian 32-bit number at `i`.
pub open spec fn le32(s: Seq<u8>, i: int) -> int {
    s[i + 3] * 0x1000000 + s[i + 2] * 0x10000 + s[i + 1] * 0x100 + s[i]
}

/// The two big-endian bytes of a number below 2^16.
pub open spec fn be16_bytes(v: int) -> Seq<u8> {
    seq![(v / 256) as u8, (v % 256) as u8]
}

/// The four big-endian bytes of a number below 2^32.
pub open spec fn be32_bytes(v: int) -> Seq<u8> {
    seq![
        (v / 0x1000000) as u8,
        (v / 0x10000 % 256) as u8,
        (v / 0x100 % 256) as u8,
        (v % 256) as u8,
    ]
}

/// The two little-endian bytes of a number below 2^16.
pub open spec fn le16_bytes(v: int) -> Seq<u8> {
    seq![(v % 256) as u8, (v / 256) as u8]
}

/// The four little-endian bytes of a number below 2^32.
#[verifier::opaque]
pub open spec fn le32_bytes(v: int) -> Seq<u8> {
    seq![
        (v % 256) as u8,
        (v / 0x100 % 256) as u8,
        (v / 0x10000 % 256) as u8,
        (v / 0x1000000) as u8,
    ]
}

pub fn read_be16(b: &[u8], i: usize) -> (v: u16)
    requires
        i + 2 <= b@.len(),
    ensures
        v == be16(b@, i as int),
{
    b[i] as u16 * 256 + b[i + 1] as u16
}

pub fn read_be32(b: &[u8], i: usize) -> (v: u32)
    requires
        i + 4 <= b@.len(),
    ensures
        v == be32(b@, i as int),
{
    b[i] as u32 * 0x1000000 + b[i + 1] as u32 * 0x10000 + b[i + 2] as u32 * 0x100 + b[i + 3] as u32
}

pub fn read_le16(b: &[u8], i: usize) -> (v: u16)
    requires
        i + 2 <= b@.len(),
    ensures
        v == le16(b@, i as int),
{
    let lo: u16 = b[i] as u16;
    b[i + 1] as u16 * 256 + lo
}

pub fn read_le32(b: &[u8], i: usize) -> (v: u32)
    requires
        i + 4 <= b@.len(),
    ensures
        v == le32(b@, i as int),
{
    let lo: u32 = b[i] as u32;
    b[i + 3] as u32 * 0x1000000 + b[i + 2] as u32 * 0x10000 + b[i + 1] as u32 * 0x100 + lo
}

pub fn push_be16(out: &mut Vec<u8>, v: u16)
    ensures
        final(out)@ == old(out)@ + be16_bytes(v as int),
{
    out.push((v / 256) as u8);
    out.push((v % 256) as u8);
}

pub fn push_be32(out: &mut Vec<u8>, v: u32)
    ensures
        final(out)@ == old(out)@ + be32_bytes(v as int),
{
    out.push((v / 0x1000000) as u8);
    out.push((v / 0x10000 % 256) as u8);
    out.push((v / 0x100 % 256) as u8);
    out.push((v % 256) as u8);
}

pub fn push_le16(out: &mut Vec<u8>, v: u16)
    ensures
        final(out)@ == old(out)@ + le16_bytes(v as int),
{
    out.push((v % 256) as u8);
    out.push((v / 256) as u8);
}

pub fn push_le32(out: &mut Vec<u8>, v: u32)
    ensures
        final(out)@ == old(out)@ + le32_bytes(v as int),
{
    reveal(le32_bytes);
    out.push((v % 256) as u8);
    out.push((v / 0x100 % 256) as u8);
    out.push((v / 0x10000 % 256) as u8);
    out.push((v / 0x1000000) as u8);
}

pub fn push_all(out: &mut Vec<u8>, data: &[u8])
    ensures
        final(out)@ == old(out)@ + data@,
{
    out.extend_from_slice(data);
    assert(out@ =~= old(out)@ + data@);
}

/// A copy of `b[i..j]`.
pub fn copy_range(b: &[u8], i: usize, j: usize) -> (out: Vec<u8>)
    requires
        i <= j <= b@.len(),
    ensures
        out@ == b@.subrange(i as int, j as int),
{
    let mut out: Vec<u8> = Vec::new();
    push_all(&mut out, vstd::slice::slice_subrange(b, i, j));
    assert(out@ =~= b@.subrange(i as int, j as int));
    out
}

/// A copy of a list of numbers.
pub fn copy_numbers(v: &Vec<u64>) -> (r: Vec<u64>)
    ensures
        r@ == v@,
{
    let mut r: Vec<u64> = Vec::new();
    let mut i: usize = 0;
    while i < v.len()
        invariant
            i <= v@.len(),
            r@ == v@.take(i as int),
        decreases v@.len() - i,
    {
        r.push(v[i]);
        i += 1;
        assert(r@ =~= v@.take(i as int));
    }
    assert(v@.take(i as int) =~= v@);
    r
}

/// A copy of a byte string.
pub fn copy_bytes(b: &[u8]) -> (out: Vec<u8>)
    ensures
        out@ == b@,
{
    let out = copy_range(b, 0, b.len());
    assert(out@ =~= b@);
    out
}

/// Reading back what was written, little-endian.
pub proof fn law_le32_read_back(v: int)
    requires
        0 <= v < 0x1_0000_0000,
    ensures
        le32(le32_bytes(v), 0) == v,
        le32_bytes(v).len() == 4,
{
    reveal(le32_bytes);
}

/// Reading back what was written, big-endian.
pub proof fn law_be32_read_back(v: int)
    requires
        0 <= v < 0x1_0000_0000,
    ensures
        be32(be32_bytes(v), 0) == v,
{
}

} // verus!
