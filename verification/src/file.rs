//! The piece store: which blocks of which pieces are still missing, which
//! pieces are verified, and where each block lives in the backing file.
//!
//! The store decides; it does not touch the file. A block is handled in two
//! steps: [`DownloadFile::plan_block`] says whether the block is wanted and
//! where its bytes go, and, once they are written and (for the last block of
//! a piece) the piece is read back, [`DownloadFile::process_block`] records
//! the block and checks the piece's digest.

use crate::bits::Bitfield;
use crate::digest::{sha1, sha1_of, DIGEST_SIZE};
use crate::wire::same_bytes;
use core::ops::Range;
use vstd::arithmetic::div_mod::lemma_fundamental_div_mod_converse;
use vstd::prelude::*;

verus! {

/// Size of the blocks that a piece is requested in.
pub const BLOCK_SIZE: usize = 16384;

/// Identity of a block: its piece and its byte range within the piece.
#[derive(Debug, PartialEq)]
pub struct BlockInfo {
    pub piece: usize,
    pub range: Range<usize>,
}

impl Clone for BlockInfo {
    fn clone(&self) -> (r: Self)
        ensures
            r == *self,
    {
        BlockInfo { piece: self.piece, range: self.range.start..self.range.end }
    }
}

/// A block as it arrives: its piece, its offset within the piece, its bytes.
#[derive(Clone, Eq, PartialEq, Debug)]
pub struct Block {
    piece: usize,
    offset: usize,
    data: Vec<u8>,
}

/// Why the store turned a request down.
#[derive(Clone, Copy, Debug, PartialEq, Eq, Structural)]
pub enum StoreError {
    /// No digest, or a total length shorter than the full pieces before the
    /// last, or more pieces than a bitfield can index.
    BadLayout,
    /// The piece index is past the last piece.
    PieceOutOfRange,
    /// The piece is not verified yet.
    PieceIncomplete,
    /// The byte range does not lie within the piece.
    RangeInvalid,
}

/// A stretch of the backing file.
#[derive(Clone, Copy, Debug, PartialEq, Eq, Structural)]
pub struct FileSpan {
    pub position: usize,
    pub length: usize,
}

/// What to do with a wanted block: write it at `position`, and, if it is
/// the last one missing from its piece, read the piece back from `verify`.
#[derive(Clone, Copy, Debug, PartialEq, Eq, Structural)]
pub struct Placement {
    pub position: usize,
    pub verify: Option<FileSpan>,
}

/// What never changes about a piece.
#[verifier::ext_equal]
pub struct PieceLayout {
    /// Offset of the piece in the file.
    pub offset: int,
    /// Length of the piece.
    pub length: int,
    /// The declared digest of the piece.
    pub hash: Seq<u8>,
    /// The blocks that partition the piece.
    pub blocks: Seq<Range<usize>>,
}

/// The store as a mathematical value.
#[verifier::ext_equal]
pub struct StoreView {
    pub layout: Seq<PieceLayout>,
    /// For each piece, the blocks not yet received.
    pub unfilled: Seq<Seq<Range<usize>>>,
    /// For each piece, whether it is verified.
    pub bits: Seq<bool>,
    /// Bytes of verified pieces.
    pub verified: int,
    /// Length of the file.
    pub total: int,
}

/// Number of blocks of `size` bytes, the last one maybe shorter, that
/// cover `start .. end`.
pub open spec fn block_count(start: int, end: int, size: int) -> int {
    if start < end {
        (end - start + size - 1) / size
    } else {
        0
    }
}

/// The `k`-th block of `start .. end` cut into blocks of `size` bytes.
pub open spec fn nth_block(start: int, end: int, size: int, k: int) -> Range<usize> {
    Range {
        start: (start + k * size) as usize,
        end: (if start + (k + 1) * size < end {
            start + (k + 1) * size
        } else {
            end
        }) as usize,
    }
}

/// `start .. end` cut into successive blocks of `size` bytes and a shorter
/// last one for what is left.
pub open spec fn block_ranges(start: int, end: int, size: int) -> Seq<Range<usize>> {
    Seq::new(block_count(start, end, size) as nat, |k: int| nth_block(start, end, size, k))
}

/// Total length of the first `n` pieces.
pub open spec fn span(layout: Seq<PieceLayout>, n: int) -> int
    decreases n,
{
    if n <= 0 {
        0
    } else {
        span(layout, n - 1) + layout[n - 1].length
    }
}

/// Total length of those of the first `n` pieces whose bit is set.
pub open spec fn verified_span(layout: Seq<PieceLayout>, bits: Seq<bool>, n: int) -> int
    decreases n,
{
    if n <= 0 {
        0
    } else {
        verified_span(layout, bits, n - 1) + if bits[n - 1] {
            layout[n - 1].length
        } else {
            0
        }
    }
}

/// Whether `ranges` holds the range `start .. end`.
pub open spec fn has_range(ranges: Seq<Range<usize>>, start: int, end: int) -> bool {
    exists|k: int| 0 <= k < ranges.len() && (#[trigger] ranges[k]).start == start && ranges[k].end == end
}

/// The place of `start .. end` in `ranges`.
pub open spec fn range_index(ranges: Seq<Range<usize>>, start: int, end: int) -> int {
    choose|k: int| 0 <= k < ranges.len() && (#[trigger] ranges[k]).start == start && ranges[k].end == end
}

/// Whether the ranges come in ascending order of their starts.
pub open spec fn ascending(ranges: Seq<Range<usize>>) -> bool {
    forall|a: int, b: int| 0 <= a < b < ranges.len() ==> (#[trigger] ranges[a]).start < (#[trigger] ranges[b]).start
}

impl StoreView {
    /// The number of pieces.
    pub open spec fn len(self) -> int {
        self.layout.len() as int
    }

    /// Whether the store wants the block `start .. end` of `piece`: the
    /// piece exists and the range is one of its missing blocks.
    pub open spec fn wants(self, piece: int, start: int, end: int) -> bool {
        0 <= piece < self.len() && has_range(self.unfilled[piece], start, end)
    }

    /// Whether the block `start .. end` is the only one missing from `piece`.
    pub open spec fn completes(self, piece: int, start: int, end: int) -> bool {
        self.wants(piece, start, end) && self.unfilled[piece].len() == 1
    }

    /// Whether delivering the block with bytes of this digest sends the
    /// piece back to be fetched again.
    pub open spec fn reopens(self, piece: int, start: int, end: int, digest: Seq<u8>) -> bool {
        self.completes(piece, start, end) && digest != self.layout[piece].hash
    }

    /// The store's invariant.
    pub open spec fn wf(self) -> bool {
        &&& 1 <= self.len() <= Bitfield::max_len()
        &&& self.total <= usize::MAX
        &&& self.unfilled.len() == self.len()
        &&& self.bits.len() == self.len()
        &&& self.total == span(self.layout, self.len())
        &&& self.verified == verified_span(self.layout, self.bits, self.len())
        &&& forall|i: int|
            0 <= i < self.len() ==> {
                &&& (#[trigger] self.layout[i]).length >= 0
                &&& self.layout[i].offset == span(self.layout, i)
                &&& self.layout[i].blocks == block_ranges(0, self.layout[i].length, BLOCK_SIZE as int)
            }
        &&& forall|i: int|
            0 <= i < self.len() ==> {
                &&& ascending(#[trigger] self.unfilled[i])
                &&& forall|k: int|
                    0 <= k < self.unfilled[i].len() ==> self.layout[i].blocks.contains(
                        #[trigger] self.unfilled[i][k],
                    )
            }
        &&& forall|i: int|
            0 <= i < self.len() ==> (#[trigger] self.bits[i] ==> self.unfilled[i].len() == 0)
        &&& forall|i: int|
            0 <= i < self.len() && self.layout[i].length > 0 && self.unfilled[i].len() == 0
                ==> #[trigger] self.bits[i]
    }

    /// The store after the block `start .. end` of `piece` was delivered
    /// and, if that filled the piece, the piece's bytes hashed to `digest`.
    ///
    /// A block that is not wanted changes nothing. A wanted block leaves the
    /// missing ones. If none is left, the piece is verified when `digest` is
    /// its declared digest, and all its blocks are missing again when not.
    pub open spec fn after_block(self, piece: int, start: int, end: int, digest: Seq<u8>) -> StoreView {
        if !self.wants(piece, start, end) {
            self
        } else if self.unfilled[piece].len() > 1 {
            StoreView {
                unfilled: self.unfilled.update(
                    piece,
                    self.unfilled[piece].remove(range_index(self.unfilled[piece], start, end)),
                ),
                ..self
            }
        } else if digest == self.layout[piece].hash {
            StoreView {
                unfilled: self.unfilled.update(piece, Seq::empty()),
                bits: self.bits.update(piece, true),
                verified: self.verified + self.layout[piece].length,
                ..self
            }
        } else {
            StoreView { unfilled: self.unfilled.update(piece, self.layout[piece].blocks), ..self }
        }
    }

    /// The store with every piece verified.
    pub open spec fn seeded(self) -> StoreView {
        StoreView {
            unfilled: Seq::new(self.len() as nat, |i: int| Seq::empty()),
            bits: Seq::new(self.len() as nat, |i: int| true),
            verified: self.total,
            ..self
        }
    }
}

impl StoreView {
    /// Where the bytes `start .. end` of `piece` are in the file, if they
    /// may be served.
    pub open spec fn locate(self, piece: int, start: int, end: int) -> Result<FileSpan, StoreError> {
        if !(0 <= piece < self.len()) {
            Err(StoreError::PieceOutOfRange)
        } else if !self.bits[piece] {
            Err(StoreError::PieceIncomplete)
        } else if start > end || end > self.layout[piece].length {
            Err(StoreError::RangeInvalid)
        } else {
            Ok(
                FileSpan {
                    position: (self.layout[piece].offset + start) as usize,
                    length: (end - start) as usize,
                },
            )
        }
    }

    /// What is to be done with the block `start .. end` of `piece`.
    pub open spec fn plan(self, piece: int, start: int, end: int) -> Result<Option<Placement>, StoreError> {
        if !(0 <= piece < self.len()) {
            Err(StoreError::PieceOutOfRange)
        } else if !self.wants(piece, start, end) {
            Ok(None)
        } else {
            Ok(
                Some(
                    Placement {
                        position: (self.layout[piece].offset + start) as usize,
                        verify: if self.unfilled[piece].len() == 1 {
                            Some(
                                FileSpan {
                                    position: self.layout[piece].offset as usize,
                                    length: self.layout[piece].length as usize,
                                },
                            )
                        } else {
                            None
                        },
                    },
                ),
            )
        }
    }
}

/// Whether a file of `total` bytes can hold `n` pieces, all but the last of
/// `piece_size` bytes.
pub open spec fn valid_layout(n: int, piece_size: int, total: int) -> bool {
    n >= 1 && (n - 1) * piece_size <= total && n <= Bitfield::max_len()
}

/// The store at the start of a download: nothing received.
pub open spec fn fresh_store(hashes: Seq<[u8; DIGEST_SIZE]>, piece_size: int, total: int) -> StoreView {
    let n = hashes.len() as int;
    StoreView {
        layout: Seq::new(
            n as nat,
            |i: int|
                {
                    let length = if i < n - 1 {
                        piece_size
                    } else {
                        total - (n - 1) * piece_size
                    };
                    PieceLayout {
                        offset: i * piece_size,
                        length,
                        hash: hashes[i]@,
                        blocks: block_ranges(0, length, BLOCK_SIZE as int),
                    }
                },
        ),
        unfilled: Seq::new(
            n as nat,
            |i: int|
                block_ranges(
                    0,
                    if i < n - 1 {
                        piece_size
                    } else {
                        total - (n - 1) * piece_size
                    },
                    BLOCK_SIZE as int,
                ),
        ),
        bits: Seq::new(n as nat, |i: int| false),
        verified: 0,
        total,
    }
}


/// A block of `start .. end` cut by `size`: where it starts and ends.
pub proof fn lemma_nth_block(start: int, end: int, size: int, k: int)
    requires
        0 <= start,
        end <= usize::MAX,
        size > 0,
        0 <= k < block_count(start, end, size),
    ensures
        nth_block(start, end, size, k).start == start + k * size,
        nth_block(start, end, size, k).start < nth_block(start, end, size, k).end <= end,
        nth_block(start, end, size, k).end <= start + (k + 1) * size,
        block_ranges(start, end, size)[k] == nth_block(start, end, size, k),
{
    let x = end - start + size - 1;
    assert(x == size * (x / size) + x % size && 0 <= x % size < size) by {
        vstd::arithmetic::div_mod::lemma_fundamental_div_mod(x, size);
        vstd::arithmetic::div_mod::lemma_mod_bound(x, size);
    }
    assert(k * size + size <= (x / size) * size) by (nonlinear_arith)
        requires
            0 <= k < x / size,
            size > 0,
    ;
    assert((x / size) * size == size * (x / size)) by (nonlinear_arith);
    assert((k + 1) * size == k * size + size) by (nonlinear_arith);
    assert(0 <= k * size) by (nonlinear_arith)
        requires
            0 <= k,
            size > 0,
    ;
}

/// The blocks of a range come in ascending order, and a range that is not
/// empty has at least one.
pub proof fn lemma_block_ranges(start: int, end: int, size: int)
    requires
        0 <= start,
        end <= usize::MAX,
        size > 0,
    ensures
        ascending(block_ranges(start, end, size)),
        start < end ==> block_ranges(start, end, size).len() >= 1,
        start >= end ==> block_ranges(start, end, size).len() == 0,
{
    let s = block_ranges(start, end, size);
    assert forall|i: int, j: int| 0 <= i < j < s.len() implies (#[trigger] s[i]).start < (#[trigger] s[j]).start by {
        lemma_nth_block(start, end, size, i);
        lemma_nth_block(start, end, size, j);
        assert(i * size < j * size) by (nonlinear_arith)
            requires
                i < j,
                size > 0,
        ;
    }
    if start < end {
        let x = end - start + size - 1;
        assert(x / size >= 1) by {
            vstd::arithmetic::div_mod::lemma_div_is_ordered(size, x, size);
            vstd::arithmetic::div_mod::lemma_div_basics(size);
        }
    }
}

proof fn lemma_span_monotone(layout: Seq<PieceLayout>, i: int, j: int)
    requires
        0 <= i <= j <= layout.len(),
        forall|k: int| 0 <= k < layout.len() ==> layout[k].length >= 0,
    ensures
        0 <= span(layout, i) <= span(layout, j),
    decreases j,
{
    if j > 0 {
        if i < j {
            lemma_span_monotone(layout, i, j - 1);
        } else {
            lemma_span_monotone(layout, i - 1, j - 1);
        }
    }
}

proof fn lemma_verified_bounds(layout: Seq<PieceLayout>, bits: Seq<bool>, n: int)
    requires
        0 <= n <= layout.len(),
        n <= bits.len(),
        forall|k: int| 0 <= k < layout.len() ==> layout[k].length >= 0,
    ensures
        0 <= verified_span(layout, bits, n) <= span(layout, n),
        (forall|k: int| 0 <= k < n ==> !bits[k]) ==> verified_span(layout, bits, n) == 0,
        (forall|k: int| 0 <= k < n ==> bits[k]) ==> verified_span(layout, bits, n) == span(layout, n),
    decreases n,
{
    if n > 0 {
        lemma_verified_bounds(layout, bits, n - 1);
    }
}

proof fn lemma_verified_set(layout: Seq<PieceLayout>, bits: Seq<bool>, at: int, n: int)
    requires
        0 <= n <= layout.len(),
        n <= bits.len(),
        0 <= at < bits.len(),
        !bits[at],
        forall|k: int| 0 <= k < layout.len() ==> layout[k].length >= 0,
    ensures
        verified_span(layout, bits.update(at, true), n) == verified_span(layout, bits, n) + if at < n {
            layout[at].length
        } else {
            0
        },
        at < n ==> verified_span(layout, bits, n) + layout[at].length <= span(layout, n),
    decreases n,
{
    if n > 0 {
        lemma_verified_set(layout, bits, at, n - 1);
        if at == n - 1 {
            lemma_verified_bounds(layout, bits, n - 1);
        }
    }
}

/// A store that has received nothing meets the invariant.
pub proof fn lemma_fresh_store_wf(hashes: Seq<[u8; DIGEST_SIZE]>, piece_size: int, total: int)
    requires
        valid_layout(hashes.len() as int, piece_size, total),
        0 <= piece_size,
        total <= usize::MAX,
    ensures
        fresh_store(hashes, piece_size, total).wf(),
{
    let v = fresh_store(hashes, piece_size, total);
    let n = hashes.len() as int;
    assert forall|i: int| 0 <= i <= n - 1 implies span(v.layout, i) == i * piece_size by {
        lemma_fresh_span(hashes, piece_size, total, i);
    }
    assert(piece_size <= total || n == 1) by (nonlinear_arith)
        requires
            (n - 1) * piece_size <= total,
            n >= 1,
            piece_size >= 0,
    ;
    lemma_verified_bounds(v.layout, v.bits, n);
    assert(span(v.layout, n) == span(v.layout, n - 1) + v.layout[n - 1].length);
    assert(v.total == span(v.layout, n));
    assert forall|i: int| 0 <= i < n implies {
        &&& (#[trigger] v.layout[i]).length >= 0
        &&& v.layout[i].length <= total
        &&& v.layout[i].offset == span(v.layout, i)
        &&& v.unfilled[i] == v.layout[i].blocks
    } by {}
    assert forall|i: int| 0 <= i < n implies {
        &&& ascending(#[trigger] v.unfilled[i])
        &&& forall|k: int| 0 <= k < v.unfilled[i].len() ==> v.layout[i].blocks.contains(#[trigger] v.unfilled[i][k])
        &&& (v.layout[i].length > 0 ==> v.unfilled[i].len() > 0)
    } by {
        lemma_block_ranges(0, v.layout[i].length, BLOCK_SIZE as int);
    }
}

proof fn lemma_fresh_span(hashes: Seq<[u8; DIGEST_SIZE]>, piece_size: int, total: int, i: int)
    requires
        0 <= i <= hashes.len() - 1,
    ensures
        span(fresh_store(hashes, piece_size, total).layout, i) == i * piece_size,
    decreases i,
{
    if i > 0 {
        lemma_fresh_span(hashes, piece_size, total, i - 1);
        let v = fresh_store(hashes, piece_size, total);
        assert(v.layout[i - 1].length == piece_size);
        assert(span(v.layout, i) == span(v.layout, i - 1) + v.layout[i - 1].length);
        assert(i * piece_size == (i - 1) * piece_size + piece_size) by (nonlinear_arith);
    } else {
        assert(i * piece_size == 0) by (nonlinear_arith)
            requires
                i == 0,
        ;
    }
}

/// Every piece lies within the file.
pub proof fn lemma_piece_within(v: StoreView, i: int)
    requires
        v.wf(),
        0 <= i < v.len(),
    ensures
        0 <= v.layout[i].offset,
        0 <= v.layout[i].length,
        v.layout[i].offset + v.layout[i].length <= v.total,
        v.total <= usize::MAX,
{
    lemma_span_monotone(v.layout, i, i);
    lemma_span_monotone(v.layout, i + 1, v.len());
    assert(span(v.layout, i + 1) == span(v.layout, i) + v.layout[i].length);
}

/// Every block of a piece lies within the piece.
pub proof fn lemma_block_within(v: StoreView, i: int, k: int)
    requires
        v.wf(),
        0 <= i < v.len(),
        0 <= k < v.unfilled[i].len(),
    ensures
        v.unfilled[i][k].start < v.unfilled[i][k].end <= v.layout[i].length,
{
    lemma_piece_within(v, i);
    let blocks = v.layout[i].blocks;
    let r = v.unfilled[i][k];
    assert(blocks.contains(r));
    let j = choose|j: int| 0 <= j < blocks.len() && blocks[j] == r;
    lemma_nth_block(0, v.layout[i].length, BLOCK_SIZE as int, j);
}

/// Delivering a block keeps the invariant.
pub proof fn lemma_after_block_wf(v: StoreView, piece: int, start: int, end: int, digest: Seq<u8>)
    requires
        v.wf(),
    ensures
        v.after_block(piece, start, end, digest).wf(),
{
    let w = v.after_block(piece, start, end, digest);
    if v.wants(piece, start, end) {
        let old_u = v.unfilled[piece];
        let k = range_index(old_u, start, end);
        if old_u.len() > 1 {
            let new_u = old_u.remove(k);
            assert forall|a: int| 0 <= a < new_u.len() implies v.layout[piece].blocks.contains(#[trigger] new_u[a]) by {
                let a0 = if a < k { a } else { a + 1 };
                assert(new_u[a] == old_u[a0]);
            }
            assert forall|a: int, b: int| 0 <= a < b < new_u.len() implies (#[trigger] new_u[a]).start < (
            #[trigger] new_u[b]).start by {
                let a0 = if a < k { a } else { a + 1 };
                let b0 = if b < k { b } else { b + 1 };
                assert(new_u[a] == old_u[a0] && new_u[b] == old_u[b0]);
            }
            assert(!v.bits[piece]);
        } else if digest == v.layout[piece].hash {
            assert(!v.bits[piece]);
            lemma_verified_set(v.layout, v.bits, piece, v.len());
            assert(ascending(w.unfilled[piece]));
        } else {
            assert(!v.bits[piece]);
            lemma_piece_within(v, piece);
            lemma_block_ranges(0, v.layout[piece].length, BLOCK_SIZE as int);
            assert(v.layout[piece].blocks.contains(old_u[k]));
        }
        assert forall|i: int| 0 <= i < w.len() implies {
            &&& ascending(#[trigger] w.unfilled[i])
            &&& forall|a: int| 0 <= a < w.unfilled[i].len() ==> w.layout[i].blocks.contains(#[trigger] w.unfilled[i][a])
        } by {
            if i != piece {
                assert(w.unfilled[i] == v.unfilled[i]);
            }
        }
    }
}

/// Unless the block is the last one missing from its piece, the digest that
/// comes with its delivery does not matter.
pub proof fn lemma_digest_unused(v: StoreView, piece: int, start: int, end: int, a: Seq<u8>, b: Seq<u8>)
    requires
        !v.completes(piece, start, end),
    ensures
        v.after_block(piece, start, end, a) == v.after_block(piece, start, end, b),
{
}

/// A verified piece has no missing block, and a piece of non-zero length
/// with no missing block is verified.
pub proof fn lemma_bit_iff_filled(v: StoreView, i: int)
    requires
        v.wf(),
        0 <= i < v.len(),
        v.layout[i].length > 0,
    ensures
        v.unfilled[i].len() == 0 <==> v.bits[i],
{
}

/// A piece becomes verified only through a block of its own whose delivery
/// came with the piece's declared digest.
pub proof fn lemma_verified_means_digest(v: StoreView, piece: int, start: int, end: int, digest: Seq<u8>, i: int)
    requires
        v.wf(),
        0 <= i < v.len(),
        !v.bits[i],
        v.after_block(piece, start, end, digest).bits[i],
    ensures
        i == piece,
        digest == v.layout[i].hash,
        v.completes(piece, start, end),
{
}

/// The verified bytes never go down, and never pass the file's length.
pub proof fn lemma_left_monotone(v: StoreView, piece: int, start: int, end: int, digest: Seq<u8>)
    requires
        v.wf(),
    ensures
        0 <= v.verified <= v.after_block(piece, start, end, digest).verified <= v.total,
{
    lemma_after_block_wf(v, piece, start, end, digest);
    let w = v.after_block(piece, start, end, digest);
    lemma_verified_bounds(v.layout, v.bits, v.len());
    lemma_verified_bounds(w.layout, w.bits, w.len());
}

/// Delivering the same block a second time changes nothing, unless the
/// first delivery sent the piece back to be fetched again.
pub proof fn lemma_block_twice(v: StoreView, piece: int, start: int, end: int, digest: Seq<u8>)
    requires
        v.wf(),
        !v.reopens(piece, start, end, digest),
    ensures
        v.after_block(piece, start, end, digest).after_block(piece, start, end, digest) == v.after_block(
            piece,
            start,
            end,
            digest,
        ),
{
    let w = v.after_block(piece, start, end, digest);
    if v.wants(piece, start, end) {
        let old_u = v.unfilled[piece];
        let k = range_index(old_u, start, end);
        if old_u.len() > 1 {
            let new_u = old_u.remove(k);
            if has_range(new_u, start, end) {
                let a = range_index(new_u, start, end);
                let a0 = if a < k { a } else { a + 1 };
                assert(new_u[a] == old_u[a0]);
                assert(old_u[a0].start == old_u[k].start);
            }
            assert(!w.wants(piece, start, end));
        } else {
            assert(w.unfilled[piece].len() == 0);
            assert(!w.wants(piece, start, end));
        }
    }
}

/// One piece, as the store keeps it.
struct Piece {
    unfilled: Vec<Range<usize>>,
    all_blocks: Vec<Range<usize>>,
    offset: usize,
    length: usize,
    hash: [u8; DIGEST_SIZE],
}

impl Piece {
    closed spec fn layout(self) -> PieceLayout {
        PieceLayout {
            offset: self.offset as int,
            length: self.length as int,
            hash: self.hash@,
            blocks: self.all_blocks@,
        }
    }

    fn is_complete(&self) -> (r: bool)
        ensures
            r == (self.unfilled@.len() == 0),
    {
        self.unfilled.len() == 0
    }
}

/// The download: the pieces with their missing blocks, the bitfield of
/// verified pieces, and the count of verified bytes.
pub struct DownloadFile {
    pieces: Vec<Piece>,
    bitfield: Bitfield,
    downloaded: usize,
    total_size: usize,
}

impl View for DownloadFile {
    type V = StoreView;

    closed spec fn view(&self) -> StoreView {
        StoreView {
            layout: Seq::new(self.pieces@.len(), |i: int| self.pieces@[i].layout()),
            unfilled: Seq::new(self.pieces@.len(), |i: int| self.pieces@[i].unfilled@),
            bits: self.bitfield@,
            verified: self.downloaded as int,
            total: self.total_size as int,
        }
    }
}

impl Block {
    /// The piece that the block belongs to.
    pub closed spec fn piece(self) -> int {
        self.piece as int
    }

    /// Where the block starts in its piece.
    pub closed spec fn offset(self) -> int {
        self.offset as int
    }

    /// The block's bytes.
    pub closed spec fn data(self) -> Seq<u8> {
        self.data@
    }

    /// The end of the block's byte range.
    pub open spec fn end(self) -> int {
        self.offset() + self.data().len()
    }

    /// A block of `piece` that starts at `offset` and holds a copy of `data`.
    pub fn new(piece: usize, offset: usize, data: &[u8]) -> (r: Self)
        ensures
            r.piece() == piece,
            r.offset() == offset,
            r.data() == data@,
    {
        Block { piece, offset, data: vstd::slice::slice_to_vec(data) }
    }

    /// The block's identity. Its range must end within `usize`.
    pub fn info(&self) -> (r: BlockInfo)
        requires
            self.end() <= usize::MAX,
        ensures
            r.piece == self.piece(),
            r.range.start == self.offset(),
            r.range.end == self.end(),
    {
        BlockInfo { piece: self.piece, range: self.offset..(self.offset + self.data.len()) }
    }

    /// The block's identity, or `None` if its range would end past `usize`.
    pub fn try_info(&self) -> (r: Option<BlockInfo>)
        ensures
            self.end() <= usize::MAX ==> r is Some && r->Some_0.piece == self.piece() && r->Some_0.range.start
                == self.offset() && r->Some_0.range.end == self.end(),
            self.end() > usize::MAX ==> r is None,
    {
        match self.offset.checked_add(self.data.len()) {
            Some(end) => Some(BlockInfo { piece: self.piece, range: self.offset..end }),
            None => None,
        }
    }

    /// The block's bytes.
    pub fn bytes(&self) -> (r: &[u8])
        ensures
            r@ == self.data(),
    {
        self.data.as_slice()
    }
}

/// Cuts `start .. end` into blocks of `size` bytes; the last one is shorter
/// when `size` does not divide the length.
pub fn get_block_ranges(start: usize, end: usize, size: usize) -> (ranges: Vec<Range<usize>>)
    requires
        size > 0,
    ensures
        ranges@ == block_ranges(start as int, end as int, size as int),
{
    let mut ranges: Vec<Range<usize>> = Vec::new();
    let mut current = start;
    let ghost mut k: int = 0;
    assert(k * (size as int) == 0) by (nonlinear_arith)
        requires
            k == 0,
    ;
    while current < end && end - current > size
        invariant
            size > 0,
            start <= current,
            start < end ==> current < end,
            start >= end ==> k == 0,
            k == ranges@.len(),
            current == start + k * (size as int),
            forall|j: int| 0 <= j < ranges@.len() ==> ranges@[j] == nth_block(start as int, end as int, size as int, j),
        decreases end - current,
    {
        proof {
            assert((k + 1) * (size as int) == k * (size as int) + size) by (nonlinear_arith);
        }
        ranges.push(current..current + size);
        current += size;
        proof {
            k = k + 1;
        }
    }
    if current < end {
        proof {
            assert((k + 1) * (size as int) == k * (size as int) + size) by (nonlinear_arith);
            let x = end - start + size - 1;
            let r = end - current - 1;
            assert(x == (k + 1) * (size as int) + r);
            lemma_fundamental_div_mod_converse(x, size as int, k + 1, r);
            assert(block_count(start as int, end as int, size as int) == k + 1);
        }
        ranges.push(current..end);
        assert(ranges@[k] == nth_block(start as int, end as int, size as int, k));
    } else {
        assert(block_count(start as int, end as int, size as int) == 0);
    }
    assert(ranges@ =~= block_ranges(start as int, end as int, size as int));
    ranges
}

fn copy_ranges(ranges: &Vec<Range<usize>>) -> (r: Vec<Range<usize>>)
    ensures
        r@ == ranges@,
{
    let mut r: Vec<Range<usize>> = Vec::new();
    let mut i: usize = 0;
    while i < ranges.len()
        invariant
            i <= ranges@.len(),
            r@ == ranges@.subrange(0, i as int),
        decreases ranges@.len() - i,
    {
        r.push(ranges[i].start..ranges[i].end);
        i += 1;
        assert(r@ =~= ranges@.subrange(0, i as int));
    }
    assert(ranges@.subrange(0, i as int) =~= ranges@);
    r
}

fn find_range(ranges: &Vec<Range<usize>>, start: usize, end: usize) -> (r: Option<usize>)
    ensures
        r is Some <==> has_range(ranges@, start as int, end as int),
        r matches Some(k) ==> k < ranges@.len() && ranges@[k as int].start == start && ranges@[k as int].end == end,
{
    let mut i: usize = 0;
    while i < ranges.len()
        invariant
            i <= ranges@.len(),
            forall|k: int| 0 <= k < i ==> !((#[trigger] ranges@[k]).start == start && ranges@[k].end == end),
        decreases ranges@.len() - i,
    {
        if ranges[i].start == start && ranges[i].end == end {
            return Some(i);
        }
        i += 1;
    }
    None
}


/// A store with every piece verified meets the invariant.
pub proof fn lemma_seeded_wf(v: StoreView)
    requires
        v.wf(),
    ensures
        v.seeded().wf(),
{
    let w = v.seeded();
    lemma_verified_bounds(w.layout, w.bits, w.len());
    assert forall|i: int| 0 <= i < w.len() implies ascending(#[trigger] w.unfilled[i]) by {}
}

impl DownloadFile {
    /// The store's invariant: that of its view, and a bitfield in packed form.
    pub closed spec fn wf(&self) -> bool {
        &&& self@.wf()
        &&& self.bitfield.wf()
    }

    /// A store that meets its invariant has a view that meets its own.
    pub proof fn lemma_view_wf(&self)
        requires
            self.wf(),
        ensures
            self@.wf(),
    {
    }

    /// A store for a download that starts from nothing.
    ///
    /// `hashes` holds the declared digest of each piece. All pieces have
    /// `piece_size` bytes but the last, which has what is left of
    /// `total_size`. Fails when there is no piece, when the pieces before
    /// the last do not fit in `total_size`, or when there are more pieces
    /// than a bitfield can index.
    pub fn new(hashes: &[[u8; DIGEST_SIZE]], piece_size: usize, total_size: usize) -> (r: Result<
        DownloadFile,
        StoreError,
    >)
        ensures
            valid_layout(hashes@.len() as int, piece_size as int, total_size as int) ==> r is Ok
                && r->Ok_0.wf() && r->Ok_0@ == fresh_store(hashes@, piece_size as int, total_size as int),
            !valid_layout(hashes@.len() as int, piece_size as int, total_size as int) ==> r is Err
                && r->Err_0 == StoreError::BadLayout,
    {
        let n = hashes.len();
        if n == 0 || !Bitfield::fits(n) {
            return Err(StoreError::BadLayout);
        }
        let ghost ps = piece_size as int;
        let ghost fresh = fresh_store(hashes@, piece_size as int, total_size as int);
        let mut pieces: Vec<Piece> = Vec::new();
        let mut offset: usize = 0;
        let mut i: usize = 0;
        assert(i * ps == 0) by (nonlinear_arith)
            requires
                i == 0,
        ;
        while i < n - 1
            invariant
                n == hashes@.len(),
                1 <= n <= Bitfield::max_len(),
                i <= n - 1,
                ps == piece_size,
                offset == i * ps,
                offset <= total_size,
                pieces@.len() == i,
                fresh == fresh_store(hashes@, piece_size as int, total_size as int),
                forall|j: int|
                    0 <= j < i ==> (#[trigger] pieces@[j]).layout() == fresh.layout[j] && pieces@[j].unfilled@
                        == fresh.unfilled[j],
            decreases n - 1 - i,
        {
            proof {
                assert((i + 1) * ps == i * ps + ps) by (nonlinear_arith);
            }
            if piece_size > total_size - offset {
                proof {
                    assert((n - 1) * ps >= (i + 1) * ps) by (nonlinear_arith)
                        requires
                            n - 1 >= i + 1,
                            ps >= 0,
                    ;
                }
                return Err(StoreError::BadLayout);
            }
            let all_blocks = get_block_ranges(0, piece_size, BLOCK_SIZE);
            let unfilled = copy_ranges(&all_blocks);
            pieces.push(Piece { unfilled, all_blocks, offset, length: piece_size, hash: hashes[i] });
            offset += piece_size;
            i += 1;
        }
        let last = total_size - offset;
        let all_blocks = get_block_ranges(0, last, BLOCK_SIZE);
        let unfilled = copy_ranges(&all_blocks);
        pieces.push(Piece { unfilled, all_blocks, offset, length: last, hash: hashes[n - 1] });
        let bitfield = Bitfield::new(n);
        let file = DownloadFile { pieces, bitfield, downloaded: 0, total_size };
        proof {
            lemma_fresh_store_wf(hashes@, piece_size as int, total_size as int);
            assert(file@.layout =~= fresh.layout);
            assert(file@.unfilled =~= fresh.unfilled);
            assert(file@.bits =~= fresh.bits);
        }
        Ok(file)
    }

    /// A store for a file that is already complete: every piece counts as
    /// verified, and nothing is hashed. Fails as [`DownloadFile::new`] does.
    pub fn new_seeding(hashes: &[[u8; DIGEST_SIZE]], piece_size: usize, total_size: usize) -> (r: Result<
        DownloadFile,
        StoreError,
    >)
        ensures
            valid_layout(hashes@.len() as int, piece_size as int, total_size as int) ==> r is Ok
                && r->Ok_0.wf() && r->Ok_0@ == fresh_store(
                hashes@,
                piece_size as int,
                total_size as int,
            ).seeded(),
            !valid_layout(hashes@.len() as int, piece_size as int, total_size as int) ==> r is Err
                && r->Err_0 == StoreError::BadLayout,
    {
        let mut file = match Self::new(hashes, piece_size, total_size) {
            Ok(file) => file,
            Err(e) => {
                return Err(e);
            },
        };
        let ghost fresh = file@;
        let n = file.pieces.len();
        let mut i: usize = 0;
        while i < n
            invariant
                n == file.pieces@.len(),
                i <= n,
                file.bitfield.wf(),
                file.bitfield@.len() == n,
                file.total_size == total_size,
                fresh.wf(),
                fresh.len() == n,
                fresh.total == total_size,
                forall|j: int| 0 <= j < i ==> file.bitfield@[j],
                forall|j: int| 0 <= j < i ==> (#[trigger] file.pieces@[j]).unfilled@.len() == 0,
                forall|j: int| 0 <= j < n ==> (#[trigger] file.pieces@[j]).layout() == fresh.layout[j],
            decreases n - i,
        {
            file.bitfield.set(i, true);
            file.pieces[i].unfilled.clear();
            i += 1;
        }
        file.downloaded = file.total_size;
        proof {
            lemma_seeded_wf(fresh);
            assert(file@.layout =~= fresh.seeded().layout);
            assert forall|j: int| 0 <= j < n implies #[trigger] file@.unfilled[j] == fresh.seeded().unfilled[j] by {
                assert(file.pieces@[j].unfilled@ =~= Seq::<Range<usize>>::empty());
            }
            assert(file@.unfilled =~= fresh.seeded().unfilled);
            assert(file@.bits =~= fresh.seeded().bits);
        }
        Ok(file)
    }

    /// Whether every piece is verified.
    pub fn is_complete(&self) -> (r: bool)
        ensures
            r == (forall|i: int| 0 <= i < self@.bits.len() ==> self@.bits[i]),
    {
        let r = self.bitfield.all();
        proof {
            let bits = self.bitfield@;
            assert(self@.bits == bits);
            if r {
                assert forall|i: int| 0 <= i < self@.bits.len() implies self@.bits[i] by {
                    assert(bits[i]);
                }
            } else {
                let i = choose|i: int| 0 <= i < bits.len() && !bits[i];
                assert(!self@.bits[i]);
            }
        }
        r
    }

    /// The bitfield of verified pieces in packed form: piece `i` is bit
    /// `7 - i % 8` of byte `i / 8`, and the bits after the last piece are
    /// zero.
    pub fn bitfield(&self) -> (r: &[u8])
        requires
            self.wf(),
        ensures
            r@ == crate::bits::packed(self@.bits),
    {
        self.bitfield.as_raw_slice()
    }

    /// The bitfield of verified pieces.
    pub fn bitvec(&self) -> (r: &Bitfield)
        ensures
            r@ == self@.bits,
            self.wf() ==> r.wf(),
    {
        &self.bitfield
    }

    /// The blocks still missing from `piece`, or `None` if there is no
    /// such piece.
    pub fn get_unfilled(&self, piece: usize) -> (r: Option<&[Range<usize>]>)
        ensures
            piece < self@.len() ==> r is Some && r->Some_0@ == self@.unfilled[piece as int],
            piece >= self@.len() ==> r is None,
    {
        if piece < self.pieces.len() {
            Some(self.pieces[piece].unfilled.as_slice())
        } else {
            None
        }
    }

    /// The number of pieces.
    pub fn num_pieces(&self) -> (r: usize)
        ensures
            r == self@.len(),
    {
        self.pieces.len()
    }

    /// Whether `piece` is verified. Fails if there is no such piece.
    pub fn piece_is_complete(&self, piece: usize) -> (r: Result<bool, StoreError>)
        requires
            self.wf(),
        ensures
            piece < self@.len() ==> r == Ok::<bool, StoreError>(self@.bits[piece as int]),
            piece >= self@.len() ==> r == Err::<bool, StoreError>(StoreError::PieceOutOfRange),
    {
        match self.bitfield.get(piece) {
            Some(bit) => Ok(bit),
            None => Err(StoreError::PieceOutOfRange),
        }
    }

    /// The number of bytes still to be verified. It goes down by a whole
    /// piece at a time.
    pub fn left(&self) -> (r: usize)
        requires
            self.wf(),
        ensures
            r == self@.total - self@.verified,
    {
        proof {
            lemma_verified_bounds(self@.layout, self@.bits, self@.len());
        }
        self.total_size - self.downloaded
    }

    /// Where in the file the bytes of `block` are, for a block that may be
    /// served: its piece exists and is verified, and its range lies within
    /// the piece.
    pub fn get_block(&self, block: BlockInfo) -> (r: Result<FileSpan, StoreError>)
        requires
            self.wf(),
        ensures
            r == self@.locate(block.piece as int, block.range.start as int, block.range.end as int),
    {
        if block.piece >= self.pieces.len() {
            return Err(StoreError::PieceOutOfRange);
        }
        match self.bitfield.get(block.piece) {
            Some(true) => {},
            _ => {
                return Err(StoreError::PieceIncomplete);
            },
        }
        let piece = &self.pieces[block.piece];
        if block.range.start > block.range.end || block.range.end > piece.length {
            return Err(StoreError::RangeInvalid);
        }
        proof {
            lemma_piece_within(self@, block.piece as int);
        }
        Ok(FileSpan { position: piece.offset + block.range.start, length: block.range.end - block.range.start })
    }

    /// Whether `block` is wanted and, if so, where its bytes go and whether
    /// the piece is to be read back once they are written. Fails if there
    /// is no such piece. The store is not changed.
    pub fn plan_block(&self, block: &Block) -> (r: Result<Option<Placement>, StoreError>)
        requires
            self.wf(),
        ensures
            r == self@.plan(block.piece(), block.offset(), block.end()),
            r matches Ok(Some(p)) ==> p.position + block.data().len() <= self@.total,
    {
        if block.piece >= self.pieces.len() {
            return Err(StoreError::PieceOutOfRange);
        }
        match block.offset.checked_add(block.data.len()) {
            Some(end) => self.plan_range(block.piece, block.offset, end),
            None => Ok(None),
        }
    }

    /// As [`DownloadFile::plan_block`], for the bytes `start .. end` of
    /// `piece`.
    pub fn plan_range(&self, piece: usize, start: usize, end: usize) -> (r: Result<Option<Placement>, StoreError>)
        requires
            self.wf(),
        ensures
            r == self@.plan(piece as int, start as int, end as int),
            r matches Ok(Some(p)) ==> p.position + (end - start) <= self@.total,
    {
        if piece >= self.pieces.len() {
            return Err(StoreError::PieceOutOfRange);
        }
        let entry = &self.pieces[piece];
        match find_range(&entry.unfilled, start, end) {
            None => Ok(None),
            Some(k) => {
                proof {
                    lemma_piece_within(self@, piece as int);
                    lemma_block_within(self@, piece as int, k as int);
                }
                let verify = if entry.unfilled.len() == 1 {
                    Some(FileSpan { position: entry.offset, length: entry.length })
                } else {
                    None
                };
                Ok(Some(Placement { position: entry.offset + start, verify }))
            },
        }
    }

    /// Records that the block `info` was written and, if it was the last
    /// one missing from its piece, that the piece's bytes hash to `digest`.
    /// Fails, changing nothing, if there is no such piece.
    pub fn record_block(&mut self, info: &BlockInfo, digest: &[u8; DIGEST_SIZE]) -> (r: Result<(), StoreError>)
        requires
            old(self).wf(),
        ensures
            final(self).wf(),
            info.piece < old(self)@.len() ==> r is Ok && final(self)@ == old(self)@.after_block(
                info.piece as int,
                info.range.start as int,
                info.range.end as int,
                digest@,
            ),
            info.piece >= old(self)@.len() ==> r == Err::<(), StoreError>(StoreError::PieceOutOfRange)
                && final(self)@ == old(self)@,
    {
        let p = info.piece;
        if p >= self.pieces.len() {
            return Err(StoreError::PieceOutOfRange);
        }
        let ghost before = self@;
        let ghost after = before.after_block(p as int, info.range.start as int, info.range.end as int, digest@);
        proof {
            lemma_after_block_wf(before, p as int, info.range.start as int, info.range.end as int, digest@);
            lemma_piece_within(before, p as int);
            lemma_verified_bounds(after.layout, after.bits, after.len());
        }
        let found = find_range(&self.pieces[p].unfilled, info.range.start, info.range.end);
        let k = match found {
            None => {
                return Ok(());
            },
            Some(k) => k,
        };
        proof {
            let u = before.unfilled[p as int];
            let c = range_index(u, info.range.start as int, info.range.end as int);
            assert(u[c] == u[k as int]);
            assert(c == k);
        }
        self.pieces[p].unfilled.remove(k);
        if self.pieces[p].is_complete() {
            if same_bytes(digest.as_slice(), self.pieces[p].hash.as_slice()) {
                self.bitfield.set(p, true);
                self.downloaded += self.pieces[p].length;
            } else {
                let all = copy_ranges(&self.pieces[p].all_blocks);
                self.pieces[p].unfilled = all;
            }
        }
        proof {
            assert(self@.layout =~= after.layout);
            assert forall|j: int| 0 <= j < before.len() implies #[trigger] self@.unfilled[j] == after.unfilled[j] by {
                if j == p {
                    assert(self.pieces@[j].unfilled@ =~= after.unfilled[j]);
                } else {
                    assert(self.pieces@[j].unfilled@ == before.unfilled[j]);
                }
            }
            assert(self@.unfilled =~= after.unfilled);
            assert(self@.bits =~= after.bits);
        }
        Ok(())
    }

    /// Takes in a block whose bytes were written where
    /// [`DownloadFile::plan_block`] said. `stored` holds the piece as read
    /// back from the file when the plan asked for that; otherwise it is not
    /// looked at.
    ///
    /// A block that is not wanted (a duplicate, or one that matches no
    /// missing block exactly) changes nothing. A wanted block is no longer
    /// missing. When none is left, the piece is verified if `stored` has
    /// the piece's declared SHA-1 digest; if not, all its blocks are
    /// missing again. Fails, changing nothing, if there is no such piece.
    pub fn process_block(&mut self, block: Block, stored: &[u8]) -> (r: Result<(), StoreError>)
        requires
            old(self).wf(),
        ensures
            final(self).wf(),
            block.piece() < old(self)@.len() ==> r is Ok && final(self)@ == old(self)@.after_block(
                block.piece(),
                block.offset(),
                block.end(),
                sha1_of(stored@),
            ),
            block.piece() >= old(self)@.len() ==> r == Err::<(), StoreError>(StoreError::PieceOutOfRange)
                && final(self)@ == old(self)@,
    {
        if block.piece >= self.pieces.len() {
            return Err(StoreError::PieceOutOfRange);
        }
        let info = match block.try_info() {
            Some(info) => info,
            None => {
                proof {
                    let u = self@.unfilled[block.piece()];
                    assert(!has_range(u, block.offset(), block.end()));
                }
                return Ok(());
            },
        };
        let digest = if self.pieces[block.piece].unfilled.len() == 1 {
            sha1(stored)
        } else {
            self.pieces[block.piece].hash
        };
        self.record_block(&info, &digest)
    }
}

} // verus!
