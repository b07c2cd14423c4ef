//! SHA-1 and SHA-256 digests of byte strings.
//!
//! The digests themselves are computed by the `sha1` and `sha2` crates; the
//! contracts here give each digest a name so that the rest of the library can
//! say exactly which bytes were hashed.

use sha1::{Digest, Sha1};
use sha2::Sha256;
use vstd::prelude::*;

verus! {

/// Length in bytes of a SHA-1 digest.
pub const SHA1_LEN: usize = 20;

/// Length in bytes of a SHA-256 digest.
pub const SHA256_LEN: usize = 32;

/// The SHA-1 digest of `data`, as computed by `sha1::Sha1`.
pub uninterp spec fn sha1_digest(data: Seq<u8>) -> Seq<u8>;

/// The SHA-256 digest of `data`, as computed by `sha2::Sha256`.
pub uninterp spec fn sha256_digest(data: Seq<u8>) -> Seq<u8>;

/// Calls `sha1::Sha1::digest` (the one-shot form of `digest::Digest`) on
/// `data`. Trusted: the result is the SHA-1 digest of exactly these bytes,
/// and it is 20 bytes long (`Sha1Core::OutputSize` is `U20`).
#[verifier::external_body]
pub(crate) fn sha1(data: &[u8]) -> (out: Vec<u8>)
    ensures
        out@ == sha1_digest(data@),
        out@.len() == SHA1_LEN,
{
    Sha1::digest(data).to_vec()
}

/// Calls `sha2::Sha256::digest` (the one-shot form of `digest::Digest`) on
/// `data`. Trusted: the result is the SHA-256 digest of exactly these bytes,
/// and it is 32 bytes long (the output size of `Sha256` is `U32`).
#[verifier::external_body]
pub(crate) fn sha256(data: &[u8]) -> (out: Vec<u8>)
    ensures
        out@ == sha256_digest(data@),
        out@.len() == SHA256_LEN,
{
    Sha256::digest(data).to_vec()
}

} // verus!
