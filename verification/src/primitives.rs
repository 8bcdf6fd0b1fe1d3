//! Trusted boundary to the base hash primitives.
//!
//! Both composition engines treat their base hash as an opaque function of
//! the bytes fed to it.  The two spec names below stand for those functions;
//! the wrappers call the outside crates and are the only items whose
//! contracts are taken on trust.

use vstd::prelude::*;
use md4::Digest;

verus! {

/// Number of bytes in one block of either base primitive (MD4 and Tiger
/// share the same block size).
pub const BLOCK_SIZE: usize = 64;

/// The MD4 digest (16 bytes) of a byte sequence.
pub uninterp spec fn md4_of(bytes: Seq<u8>) -> Seq<u8>;

/// The Tiger digest (24 bytes) of a byte sequence.
pub uninterp spec fn tiger_of(bytes: Seq<u8>) -> Seq<u8>;

/// Relies on md4::Md4::digest: the result depends on the input bytes alone
/// and is always 16 bytes long.
#[verifier::external_body]
pub(crate) fn md4_digest(data: &[u8]) -> (r: Vec<u8>)
    ensures
        r@ == md4_of(data@),
        r@.len() == 16,
{
    md4::Md4::digest(data).to_vec()
}

/// Relies on tiger::Tiger::digest: the result depends on the input bytes
/// alone and is always 24 bytes long.
#[verifier::external_body]
pub(crate) fn tiger_digest(data: &[u8]) -> (r: Vec<u8>)
    ensures
        r@ == tiger_of(data@),
        r@.len() == 24,
{
    tiger::Tiger::digest(data).to_vec()
}

} // verus!
