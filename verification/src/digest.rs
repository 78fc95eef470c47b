//! SHA-1, by the `sha1` crate.

use sha1::{Digest, Sha1};
use vstd::prelude::*;

verus! {

/// Length of a SHA-1 digest in bytes.
pub const DIGEST_SIZE: usize = 20;

/// The SHA-1 digest of a byte string.
pub uninterp spec fn sha1_of(data: Seq<u8>) -> Seq<u8>;

/// `Sha1::new`, `update` with all of `data`, then `finalize`: the digest of
/// `data`, which depends on nothing else.
#[verifier::external_body]
pub(crate) fn sha1(data: &[u8]) -> (digest: [u8; DIGEST_SIZE])
    ensures
        digest@ == sha1_of(data@),
{
    let mut hasher = Sha1::new();
    hasher.update(data);
    hasher.finalize().into()
}

} // verus!
