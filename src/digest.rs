//! SHA-1 digests, computed by the `sha1` crate.
use vstd::prelude::*;

use sha1::Digest;

verus! {

/// The SHA-1 digest of a byte string.
pub uninterp spec fn sha1_of(data: Seq<u8>) -> Seq<u8>;

/// Relies on `sha1::Sha1::digest` (through `digest::Digest`): the 20-byte
/// SHA-1 digest of `data`, which depends on `data` alone.
#[verifier::external_body]
pub(crate) fn sha1_digest(data: &[u8]) -> (r: [u8; 20])
    ensures
        r@ == sha1_of(data@),
{
    sha1::Sha1::digest(data).into()
}

} // verus!
