//! SHA-256 digests.

use sha2::Digest;
use vstd::prelude::*;
use crate::text::{hex_of, hex_string};

verus! {

/// The SHA-256 digest of a byte string.
pub uninterp spec fn sha256_of(data: Seq<u8>) -> Seq<u8>;

/// Calls `sha2::Sha256::digest`: the digest of the whole input, 32 bytes that
/// depend on the input alone.
#[verifier::external_body]
fn digest(data: &[u8]) -> (d: Vec<u8>)
    ensures
        d@ == sha256_of(data@),
        d@.len() == 32,
{
    sha2::Sha256::digest(data).to_vec()
}

/// The digest as bytes.
pub fn sha256(data: &[u8]) -> (d: Vec<u8>)
    ensures
        d@ == sha256_of(data@),
        d@.len() == 32,
{
    digest(data)
}

/// Lower-case hexadecimal text of a byte string.
pub fn hex(data: &[u8]) -> (s: String)
    ensures
        s@ == hex_of(data@),
{
    hex_string(data)
}

/// The digest as 64 lower-case hexadecimal characters.
pub fn sha256_hex(data: &[u8]) -> (s: String)
    ensures
        s@ == hex_of(sha256_of(data@)),
        s@.len() == 64,
{
    let d = digest(data);
    hex_string(&d)
}

} // verus!
