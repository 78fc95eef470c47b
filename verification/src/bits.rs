//! Packed bit arrays, most significant bit first, kept in a `bitvec` vector.

use bitvec::order::Msb0;
use bitvec::vec::BitVec;
use vstd::prelude::*;

verus! {

/// One bit per piece, packed eight to a byte with the first bit in the top
/// position of the first byte.
///
/// The bits live in a `bitvec::vec::BitVec<u8, Msb0>`. Every value of this
/// type is made by [`Bitfield::new`] or [`Bitfield::from_bytes`], so its
/// first bit sits at the top of its first backing byte.
#[verifier::external_body]
pub struct Bitfield {
    bits: BitVec<u8, Msb0>,
}

/// The bytes that back a bitfield, the unused low bits of the last byte
/// included.
pub uninterp spec fn stored_bytes(b: Bitfield) -> Seq<u8>;

/// The number of bits a bitfield holds.
pub uninterp spec fn bit_count(b: Bitfield) -> nat;

/// Bit `i` of a packed byte sequence: byte `i / 8`, counted from the top bit.
pub open spec fn bit_at(bytes: Seq<u8>, i: int) -> bool {
    bit_of(bytes[i / 8], (i % 8) as u8)
}

/// Bit `pos` of a byte, counted from the top bit.
pub open spec fn bit_of(byte: u8, pos: u8) -> bool {
    byte & (0x80u8 >> pos) != 0
}

/// `byte` with bit `pos`, counted from the top bit, replaced by `value`.
pub open spec fn with_bit(byte: u8, pos: u8, value: bool) -> u8 {
    if value {
        byte | (0x80u8 >> pos)
    } else {
        byte & !(0x80u8 >> pos)
    }
}

/// Bytes needed to hold `n` bits.
pub open spec fn byte_len(n: int) -> int {
    (n + 7) / 8
}

/// The bits that `bytes` packs, eight per byte.
pub open spec fn unpack(bytes: Seq<u8>) -> Seq<bool> {
    Seq::new(8 * bytes.len(), |i: int| bit_at(bytes, i))
}

/// Whether `bytes` is the packed form of `bits`: the right number of bytes,
/// each bit in its place, and zeros after the last bit.
pub open spec fn packs(bytes: Seq<u8>, bits: Seq<bool>) -> bool {
    &&& bytes.len() == byte_len(bits.len() as int)
    &&& forall|i: int| 0 <= i < bits.len() ==> #[trigger] bit_at(bytes, i) == bits[i]
    &&& forall|i: int| bits.len() <= i < 8 * bytes.len() ==> !#[trigger] bit_at(bytes, i)
}

/// The bit at `i`, or a cleared bit past the end.
pub open spec fn bit_or_zero(bits: Seq<bool>, i: int) -> bool {
    0 <= i < bits.len() && bits[i]
}

/// The byte with the given bits, the first of them on top.
pub open spec fn byte_of(b0: bool, b1: bool, b2: bool, b3: bool, b4: bool, b5: bool, b6: bool, b7: bool) -> u8 {
    (if b0 { 0x80u8 } else { 0u8 }) | (if b1 { 0x40u8 } else { 0u8 }) | (if b2 { 0x20u8 } else { 0u8 }) | (if b3 {
        0x10u8
    } else {
        0u8
    }) | (if b4 { 0x08u8 } else { 0u8 }) | (if b5 { 0x04u8 } else { 0u8 }) | (if b6 { 0x02u8 } else { 0u8 }) | (if b7 {
        0x01u8
    } else {
        0u8
    })
}

/// Byte `k` of the packed form of `bits`.
pub open spec fn pack_byte(bits: Seq<bool>, k: int) -> u8 {
    byte_of(
        bit_or_zero(bits, 8 * k),
        bit_or_zero(bits, 8 * k + 1),
        bit_or_zero(bits, 8 * k + 2),
        bit_or_zero(bits, 8 * k + 3),
        bit_or_zero(bits, 8 * k + 4),
        bit_or_zero(bits, 8 * k + 5),
        bit_or_zero(bits, 8 * k + 6),
        bit_or_zero(bits, 8 * k + 7),
    )
}

/// The packed form of `bits`: bit `i` is bit `7 - i % 8` of byte `i / 8`,
/// and the bits after the last are zero.
pub open spec fn packed(bits: Seq<bool>) -> Seq<u8> {
    Seq::new(byte_len(bits.len() as int) as nat, |k: int| pack_byte(bits, k))
}

proof fn lemma_byte_of_bits(x: u8)
    ensures
        x == byte_of(
            bit_of(x, 0),
            bit_of(x, 1),
            bit_of(x, 2),
            bit_of(x, 3),
            bit_of(x, 4),
            bit_of(x, 5),
            bit_of(x, 6),
            bit_of(x, 7),
        ),
{
    assert(x == (if x & (0x80u8 >> 0u8) != 0 { 0x80u8 } else { 0u8 }) | (if x & (0x80u8 >> 1u8) != 0 {
        0x40u8
    } else {
        0u8
    }) | (if x & (0x80u8 >> 2u8) != 0 { 0x20u8 } else { 0u8 }) | (if x & (0x80u8 >> 3u8) != 0 {
        0x10u8
    } else {
        0u8
    }) | (if x & (0x80u8 >> 4u8) != 0 { 0x08u8 } else { 0u8 }) | (if x & (0x80u8 >> 5u8) != 0 {
        0x04u8
    } else {
        0u8
    }) | (if x & (0x80u8 >> 6u8) != 0 { 0x02u8 } else { 0u8 }) | (if x & (0x80u8 >> 7u8) != 0 {
        0x01u8
    } else {
        0u8
    })) by (bit_vector);
}

proof fn lemma_packed_bit(bytes: Seq<u8>, bits: Seq<bool>, k: int, j: int)
    requires
        packs(bytes, bits),
        0 <= k < bytes.len(),
        0 <= j < 8,
    ensures
        bit_of(bytes[k], j as u8) == bit_or_zero(bits, 8 * k + j),
{
    assert((8 * k + j) / 8 == k && (8 * k + j) % 8 == j);
    assert(bit_at(bytes, 8 * k + j) == bit_of(bytes[k], j as u8));
}

/// Only one byte string is the packed form of given bits.
pub proof fn lemma_packs_unique(bytes: Seq<u8>, bits: Seq<bool>)
    requires
        packs(bytes, bits),
    ensures
        bytes == packed(bits),
{
    assert forall|k: int| 0 <= k < bytes.len() implies bytes[k] == pack_byte(bits, k) by {
        lemma_byte_of_bits(bytes[k]);
        lemma_packed_bit(bytes, bits, k, 0);
        lemma_packed_bit(bytes, bits, k, 1);
        lemma_packed_bit(bytes, bits, k, 2);
        lemma_packed_bit(bytes, bits, k, 3);
        lemma_packed_bit(bytes, bits, k, 4);
        lemma_packed_bit(bytes, bits, k, 5);
        lemma_packed_bit(bytes, bits, k, 6);
        lemma_packed_bit(bytes, bits, k, 7);
        assert(bit_of(bytes[k], 0u8) == bit_or_zero(bits, 8 * k + 0));
        assert(bit_of(bytes[k], 1u8) == bit_or_zero(bits, 8 * k + 1));
        assert(bit_of(bytes[k], 2u8) == bit_or_zero(bits, 8 * k + 2));
        assert(bit_of(bytes[k], 3u8) == bit_or_zero(bits, 8 * k + 3));
        assert(bit_of(bytes[k], 4u8) == bit_or_zero(bits, 8 * k + 4));
        assert(bit_of(bytes[k], 5u8) == bit_or_zero(bits, 8 * k + 5));
        assert(bit_of(bytes[k], 6u8) == bit_or_zero(bits, 8 * k + 6));
        assert(bit_of(bytes[k], 7u8) == bit_or_zero(bits, 8 * k + 7));
    }
    assert(bytes =~= packed(bits));
}

/// Unpacking bytes gives bits of which they are the packed form.
pub proof fn lemma_unpack_packs(bytes: Seq<u8>)
    ensures
        packs(bytes, unpack(bytes)),
        packed(unpack(bytes)) == bytes,
{
    assert(byte_len(8 * bytes.len() as int) == bytes.len());
    lemma_packs_unique(bytes, unpack(bytes));
}

proof fn lemma_bit_of_zero(pos: u8)
    requires
        pos < 8,
    ensures
        !bit_of(0u8, pos),
{
    assert(0u8 & (0x80u8 >> pos) == 0) by (bit_vector);
}

proof fn lemma_with_bit(byte: u8, pos: u8, value: bool, at: u8)
    requires
        pos < 8,
        at < 8,
    ensures
        bit_of(with_bit(byte, pos, value), at) == (if at == pos { value } else { bit_of(byte, at) }),
{
    assert(pos < 8 && at < 8 ==> ((byte | (0x80u8 >> pos)) & (0x80u8 >> at) != 0) == (if at == pos {
        true
    } else {
        byte & (0x80u8 >> at) != 0
    })) by (bit_vector);
    assert(pos < 8 && at < 8 ==> ((byte & !(0x80u8 >> pos)) & (0x80u8 >> at) != 0) == (if at == pos {
        false
    } else {
        byte & (0x80u8 >> at) != 0
    })) by (bit_vector);
}

impl View for Bitfield {
    type V = Seq<bool>;

    /// The bits, in order.
    open spec fn view(&self) -> Seq<bool> {
        Seq::new(bit_count(*self), |i: int| bit_at(stored_bytes(*self), i))
    }
}

impl Bitfield {
    /// The packed bytes, as they go on the wire.
    pub open spec fn bytes(self) -> Seq<u8> {
        stored_bytes(self)
    }

    /// The backing bytes are exactly the packed form of the bits.
    pub open spec fn wf(self) -> bool {
        packs(stored_bytes(self), self@)
    }

    /// `BitVec::repeat(false, len)`: `len` cleared bits over zeroed bytes.
    /// `len` must be one that a bit vector can address.
    #[verifier::external_body]
    fn raw_zeros(len: usize) -> (r: Bitfield)
        requires
            len <= usize::MAX / 8,
        ensures
            bit_count(r) == len,
            stored_bytes(r) == Seq::new(byte_len(len as int) as nat, |i: int| 0u8),
    {
        Bitfield { bits: BitVec::repeat(false, len) }
    }

    /// `BitVec::from_slice`: a copy of `bytes`, spanning all of their bits.
    /// The slice must be short enough for a bit vector to address.
    #[verifier::external_body]
    fn raw_from_slice(bytes: &[u8]) -> (r: Bitfield)
        requires
            bytes@.len() <= usize::MAX / 64,
        ensures
            bit_count(r) == 8 * bytes@.len(),
            stored_bytes(r) == bytes@,
    {
        Bitfield { bits: BitVec::from_slice(bytes) }
    }

    /// `BitVec::len`: the number of bits.
    #[verifier::external_body]
    fn raw_len(&self) -> (r: usize)
        ensures
            r == bit_count(*self),
    {
        self.bits.len()
    }

    /// `BitSlice::get` with one index: the bit there, or nothing past the end.
    #[verifier::external_body]
    fn raw_get(&self, index: usize) -> (r: Option<bool>)
        ensures
            r == (if index < bit_count(*self) {
                Some(bit_at(stored_bytes(*self), index as int))
            } else {
                None
            }),
    {
        self.bits.get(index).as_deref().copied()
    }

    /// `BitSlice::set`: writes one bit of one backing byte and nothing else.
    /// It panics past the end, so the index must be in range.
    #[verifier::external_body]
    fn raw_set(&mut self, index: usize, value: bool)
        requires
            index < bit_count(*old(self)),
        ensures
            bit_count(*final(self)) == bit_count(*old(self)),
            stored_bytes(*final(self)) == stored_bytes(*old(self)).update(
                index as int / 8,
                with_bit(stored_bytes(*old(self))[index as int / 8], (index % 8) as u8, value),
            ),
    {
        self.bits.set(index, value);
    }

    /// `BitSlice::all`: whether no bit is cleared.
    #[verifier::external_body]
    fn raw_all(&self) -> (r: bool)
        ensures
            r == (forall|i: int| 0 <= i < bit_count(*self) ==> bit_at(stored_bytes(*self), i)),
    {
        self.bits.all()
    }

    /// `BitVec::as_raw_slice`: the backing bytes.
    #[verifier::external_body]
    fn raw_bytes(&self) -> (r: &[u8])
        ensures
            r@ == stored_bytes(*self),
    {
        self.bits.as_raw_slice()
    }

    /// `BitSlice::iter_ones`, collected: the indices of the set bits, ascending.
    #[verifier::external_body]
    fn raw_ones(&self) -> (r: Vec<usize>)
        ensures
            forall|k: int| 0 <= k < r@.len() ==> r@[k] < bit_count(*self) && bit_at(stored_bytes(*self), #[trigger] r@[k] as int),
            forall|j: int, k: int| 0 <= j < k < r@.len() ==> r@[j] < r@[k],
            forall|i: int| 0 <= i < bit_count(*self) && bit_at(stored_bytes(*self), i) ==> r@.contains(i as usize),
    {
        self.bits.iter_ones().collect()
    }

    /// The largest number of bits a bitfield can hold, such that its packed
    /// bytes can be made into a bitfield again.
    pub open spec fn max_len() -> int {
        usize::MAX as int / 64 * 8
    }

    /// Whether a bitfield can hold `len` bits.
    pub fn fits(len: usize) -> (r: bool)
        ensures
            r == (len <= Self::max_len()),
    {
        len / 8 < usize::MAX / 64 || (len / 8 == usize::MAX / 64 && len % 8 == 0)
    }

    /// A bitfield of `len` cleared bits.
    pub fn new(len: usize) -> (r: Bitfield)
        requires
            len <= Self::max_len(),
        ensures
            r.wf(),
            r@ == Seq::new(len as nat, |i: int| false),
    {
        let r = Self::raw_zeros(len);
        proof {
            assert forall|i: int| 0 <= i < 8 * stored_bytes(r).len() implies !#[trigger] bit_at(stored_bytes(r), i) by {
                lemma_bit_of_zero((i % 8) as u8);
            }
            assert(r@ =~= Seq::new(len as nat, |i: int| false));
        }
        r
    }

    /// The bitfield that `bytes` packs: eight bits for each byte.
    pub fn from_bytes(bytes: &[u8]) -> (r: Bitfield)
        requires
            bytes@.len() <= usize::MAX / 64,
        ensures
            r.wf(),
            r@ == unpack(bytes@),
            r.bytes() == bytes@,
    {
        let r = Self::raw_from_slice(bytes);
        proof {
            assert(r@ =~= unpack(bytes@));
            lemma_unpack_packs(bytes@);
        }
        r
    }

    /// The number of bits.
    pub fn len(&self) -> (r: usize)
        ensures
            r == self@.len(),
    {
        self.raw_len()
    }

    /// The bit at `index`, or `None` past the end.
    pub fn get(&self, index: usize) -> (r: Option<bool>)
        ensures
            r == (if index < self@.len() { Some(self@[index as int]) } else { None::<bool> }),
    {
        self.raw_get(index)
    }

    /// Writes the bit at `index`.
    pub fn set(&mut self, index: usize, value: bool)
        requires
            old(self).wf(),
            index < old(self)@.len(),
        ensures
            final(self).wf(),
            final(self)@ == old(self)@.update(index as int, value),
    {
        self.raw_set(index, value);
        proof {
            let before = stored_bytes(*old(self));
            let after = stored_bytes(*self);
            let at = index as int / 8;
            assert forall|i: int| 0 <= i < 8 * before.len() implies #[trigger] bit_at(after, i) == (if i == index {
                value
            } else {
                bit_at(before, i)
            }) by {
                if i / 8 == at {
                    lemma_with_bit(before[at], (index % 8) as u8, value, (i % 8) as u8);
                }
            }
            assert(self@ =~= old(self)@.update(index as int, value));
        }
    }

    /// Whether every bit is set.
    pub fn all(&self) -> (r: bool)
        ensures
            r == (forall|i: int| 0 <= i < self@.len() ==> self@[i]),
    {
        let r = self.raw_all();
        proof {
            if r {
                assert forall|i: int| 0 <= i < self@.len() implies self@[i] by {
                    assert(bit_at(stored_bytes(*self), i));
                }
            } else {
                let i = choose|i: int| 0 <= i < bit_count(*self) && !bit_at(stored_bytes(*self), i);
                assert(!self@[i]);
            }
        }
        r
    }

    /// The packed bytes.
    pub fn as_raw_slice(&self) -> (r: &[u8])
        ensures
            r@ == self.bytes(),
            self.wf() ==> r@ == packed(self@),
    {
        proof {
            if self.wf() {
                lemma_packs_unique(stored_bytes(*self), self@);
            }
        }
        self.raw_bytes()
    }

    /// The indices of the set bits, ascending.
    pub fn ones(&self) -> (r: Vec<usize>)
        ensures
            forall|k: int| 0 <= k < r@.len() ==> (#[trigger] r@[k]) < self@.len() && self@[r@[k] as int],
            forall|j: int, k: int| 0 <= j < k < r@.len() ==> r@[j] < r@[k],
            forall|i: int| 0 <= i < self@.len() && self@[i] ==> r@.contains(i as usize),
    {
        let r = self.raw_ones();
        proof {
            assert forall|i: int| 0 <= i < self@.len() && self@[i] implies r@.contains(i as usize) by {
                assert(bit_at(stored_bytes(*self), i));
            }
        }
        r
    }
}

} // verus!
