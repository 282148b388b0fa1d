//! The one-way hash behind the password gate: SHA-256, computed by the
//! `ring` crate.  The digest value itself is left abstract: the codec only
//! needs that equal passwords give equal digests and that a digest is 32
//! bytes long.

use vstd::prelude::*;

verus! {

/// The SHA-256 digest of a byte sequence: a function of the bytes alone.
pub uninterp spec fn sha256_of(input: Seq<u8>) -> Seq<u8>;

/// Relies on ring::digest::digest with the ring::digest::SHA256 algorithm:
/// the digest depends on the input bytes alone, and ring documents its
/// output length (SHA256_OUTPUT_LEN) as 32 bytes.
#[verifier::external_body]
pub(crate) fn sha256(input: &[u8]) -> (r: Vec<u8>)
    ensures
        r@ == sha256_of(input@),
        r@.len() == 32,
{
    ring::digest::digest(&ring::digest::SHA256, input).as_ref().to_vec()
}

} // verus!
