use vstd::prelude::*;
use crate::bits::{byte_bits, bytes_to_bits};

verus! {

// The archive is a bit stream, not a byte stream. The executable bit buffer
// wraps bitvec's `BitVec<u8, Msb0>`; Verus cannot take that type's own generic
// bounds, so the buffer lives in a hidden field and this module names its
// contents `bits_of` and exposes each operation through a contract over
// `Seq<bool>`.

/// A growable bit buffer, most-significant-bit-first within each byte.
#[verifier::external_body]
pub struct BitBuf {
    inner: bitvec::vec::BitVec<u8, bitvec::order::Msb0>,
}

/// The sequence of bits a buffer holds, index 0 first.
pub uninterp spec fn bits_of(v: BitBuf) -> Seq<bool>;

/// The largest bit count a bitvec buffer can hold (`BitSlice::MAX_BITS`,
/// which is `usize::MAX` shifted right by three, i.e. divided by eight).
pub const MAX_BITS: usize = usize::MAX / 8;

impl BitBuf {
    /// Relies on `BitVec::new`: a freshly created bit-vector is empty.
    #[verifier::external_body]
    pub fn new() -> (r: BitBuf)
        ensures
            bits_of(r) == Seq::<bool>::empty(),
    {
        BitBuf { inner: bitvec::vec::BitVec::new() }
    }

    /// Relies on `BitVec::len`: the number of bits the buffer holds.
    #[verifier::external_body]
    pub fn len(&self) -> (n: usize)
        ensures
            n == bits_of(*self).len(),
    {
        self.inner.len()
    }

    /// Relies on `BitVec::push`: appends one bit at the end; panics only past
    /// `BitSlice::MAX_BITS`, which the precondition rules out.
    #[verifier::external_body]
    pub fn push(&mut self, b: bool)
        requires
            bits_of(*old(self)).len() + 1 <= MAX_BITS,
        ensures
            bits_of(*final(self)) == bits_of(*old(self)).push(b),
    {
        self.inner.push(b)
    }

    /// Relies on `BitVec::pop`: removes and returns the last bit, `None` when empty.
    #[verifier::external_body]
    pub fn pop(&mut self) -> (r: Option<bool>)
        ensures
            bits_of(*old(self)).len() == 0 ==> r is None
                && bits_of(*final(self)) == bits_of(*old(self)),
            bits_of(*old(self)).len() > 0 ==> r == Some(bits_of(*old(self)).last())
                && bits_of(*final(self)) == bits_of(*old(self)).drop_last(),
    {
        self.inner.pop()
    }

    /// Relies on `BitSlice::index`: reads the bit at position `i`.
    #[verifier::external_body]
    pub fn get(&self, i: usize) -> (b: bool)
        requires
            i < bits_of(*self).len(),
        ensures
            b == bits_of(*self)[i as int],
    {
        self.inner[i]
    }

    /// Relies on `u8::view_bits::<Msb0>` and `BitVec::extend_from_bitslice`:
    /// appends the eight bits of a byte, most significant first.
    #[verifier::external_body]
    pub fn push_byte(&mut self, b: u8)
        requires
            bits_of(*old(self)).len() + 8 <= MAX_BITS,
        ensures
            bits_of(*final(self)) == bits_of(*old(self)) + byte_bits(b),
    {
        self.inner.extend_from_bitslice(bitvec::view::BitView::view_bits::<
            bitvec::order::Msb0,
        >(&b))
    }

    /// Relies on `BitVec::extend_from_bitslice`: appends another buffer's bits.
    #[verifier::external_body]
    pub fn extend(&mut self, other: &BitBuf)
        requires
            bits_of(*old(self)).len() + bits_of(*other).len() <= MAX_BITS,
        ensures
            bits_of(*final(self)) == bits_of(*old(self)) + bits_of(*other),
    {
        self.inner.extend_from_bitslice(other.inner.as_bitslice())
    }

    /// Relies on `BitVec::clone`: the copy holds the same bits.
    #[verifier::external_body]
    pub fn duplicate(&self) -> (r: BitBuf)
        ensures
            bits_of(r) == bits_of(*self),
    {
        BitBuf { inner: self.inner.clone() }
    }

    /// Relies on `BitVec::from_slice`: the buffer spans the slice entirely,
    /// each byte seen most significant bit first.
    #[verifier::external_body]
    pub fn from_bytes(data: &[u8]) -> (r: BitBuf)
        requires
            8 * data@.len() <= MAX_BITS,
        ensures
            bits_of(r) == bytes_to_bits(data@),
    {
        BitBuf { inner: bitvec::vec::BitVec::from_slice(data) }
    }

    /// Relies on `BitVec::as_raw_slice`: on a byte-aligned buffer the storage
    /// holds exactly the bits, packed most significant first.
    #[verifier::external_body]
    pub fn to_bytes(&self) -> (r: Vec<u8>)
        requires
            bits_of(*self).len() % 8 == 0,
        ensures
            r@.len() == bits_of(*self).len() / 8,
            bytes_to_bits(r@) == bits_of(*self),
    {
        self.inner.as_raw_slice().to_vec()
    }
}

} // verus!
