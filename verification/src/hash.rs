//! Hashing through the SHA-256 of the `sha2` crate.
use sha2::{Digest, Sha256};
use vstd::prelude::*;

verus! {

/// The SHA-256 digest of a message.
pub uninterp spec fn sha256_of(message: Seq<u8>) -> Seq<u8>;

/// Hashes a byte string with `sha2::Sha256`: its `digest` gives the digest of the message, a
/// function of the bytes alone.
#[verifier::external_body]
pub(crate) fn sha256(message: &[u8]) -> (r: [u8; 32])
    ensures
        r@ == sha256_of(message@),
{
    Sha256::digest(message).into()
}

} // verus!
