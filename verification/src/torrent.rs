//! The metainfo descriptor, as far as the engine reads it.

use crate::digest::{sha1, sha1_of, DIGEST_SIZE};
use vstd::prelude::*;

verus! {

/// The `info` dictionary of a descriptor.
#[derive(Debug, PartialEq)]
pub struct Info {
    /// The nominal length of a piece.
    pub piece_length: usize,
    /// The digests of the pieces, one after the other.
    pub pieces: Vec<u8>,
    /// The name of the file.
    pub name: String,
    /// The length of the file.
    pub length: usize,
}

/// A descriptor.
#[derive(Debug, PartialEq)]
pub struct MetaInfo {
    /// The URL of the tracker.
    pub announce: String,
    pub info: Info,
}

/// The digests that `pieces` holds: twenty bytes each, in order. Bytes
/// after the last whole digest are passed over.
pub open spec fn hashes_of(pieces: Seq<u8>) -> Seq<Seq<u8>> {
    Seq::new(
        (pieces.len() / DIGEST_SIZE as nat) as nat,
        |k: int| pieces.subrange(k * DIGEST_SIZE as int, (k + 1) * DIGEST_SIZE as int),
    )
}

/// The digests as byte strings.
pub open spec fn digest_views(hashes: Seq<[u8; DIGEST_SIZE]>) -> Seq<Seq<u8>> {
    Seq::new(hashes.len(), |i: int| hashes[i]@)
}

fn digest_at(pieces: &[u8], at: usize) -> (r: [u8; DIGEST_SIZE])
    requires
        at + DIGEST_SIZE <= pieces@.len(),
    ensures
        r@ == pieces@.subrange(at as int, at + DIGEST_SIZE as int),
{
    let mut out: [u8; DIGEST_SIZE] = [0u8; 20];
    let len = pieces.len();
    let mut i: usize = 0;
    while i < DIGEST_SIZE
        invariant
            i <= DIGEST_SIZE,
            len == pieces@.len(),
            at + DIGEST_SIZE <= len,
            forall|j: int| 0 <= j < i ==> out@[j] == pieces@[at + j],
        decreases DIGEST_SIZE - i,
    {
        out[i] = pieces[at + i];
        i += 1;
    }
    assert(out@ =~= pieces@.subrange(at as int, at + DIGEST_SIZE as int));
    out
}

impl Info {
    /// The number of pieces.
    pub fn piece_count(&self) -> (r: usize)
        ensures
            r == hashes_of(self.pieces@).len(),
    {
        self.pieces.len() / DIGEST_SIZE
    }

    /// The declared digest of each piece.
    pub fn hashes(&self) -> (r: Vec<[u8; DIGEST_SIZE]>)
        ensures
            digest_views(r@) == hashes_of(self.pieces@),
    {
        let len = self.pieces.len();
        let mut out: Vec<[u8; DIGEST_SIZE]> = Vec::new();
        let mut at: usize = 0;
        let ghost mut k: int = 0;
        assert(digest_views(out@) =~= hashes_of(self.pieces@).take(0));
        while len - at >= DIGEST_SIZE
            invariant
                len == self.pieces@.len(),
                at <= len,
                at == k * 20,
                0 <= k <= len as int / 20,
                out@.len() == k,
                digest_views(out@) == hashes_of(self.pieces@).take(k),
            decreases len - at,
        {
            let digest = digest_at(self.pieces.as_slice(), at);
            let ghost before = digest_views(out@);
            out.push(digest);
            at += DIGEST_SIZE;
            proof {
                assert((k + 1) * 20 == k * 20 + 20) by (nonlinear_arith);
                k = k + 1;
                assert(digest_views(out@) =~= before.push(digest@));
                assert(digest_views(out@) =~= hashes_of(self.pieces@).take(k));
            }
        }
        proof {
            assert(k == len as int / 20);
            assert(hashes_of(self.pieces@).take(k) =~= hashes_of(self.pieces@));
        }
        out
    }
}

/// The info-hash of a torrent: the SHA-1 digest of its `info` dictionary
/// in bencoded form.
pub fn info_hash(encoded_info: &[u8]) -> (r: [u8; DIGEST_SIZE])
    ensures
        r@ == sha1_of(encoded_info@),
{
    sha1(encoded_info)
}

} // verus!
