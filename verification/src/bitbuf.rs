//! The packed bit buffer that evaluation works on.
//!
//! The buffer wraps `bitvec`'s `BitVec<u8, Msb0>`. `bit_seq` names the bits a
//! buffer holds, and the trusted wrappers below state how each `bitvec` call
//! relates to that name. Everything else in the crate reads and writes the
//! buffer through these wrappers alone.

use vstd::prelude::*;

use bitvec::order::Msb0;
use bitvec::vec::BitVec;

verus! {

/// A packed buffer of bits, batch images first, then one stripe per layer.
#[verifier::external_body]
pub struct BitBuf {
    bits: BitVec<u8, Msb0>,
}

/// The bits a buffer holds, most significant bit of each byte first.
pub uninterp spec fn bit_seq(b: BitBuf) -> Seq<bool>;

impl View for BitBuf {
    type V = Seq<bool>;

    open spec fn view(&self) -> Seq<bool> {
        bit_seq(*self)
    }
}

impl BitBuf {
    /// Relies on bitvec's `BitVec::repeat`: a vector of `len` copies of `bit`.
    #[verifier::external_body]
    pub fn repeat(bit: bool, len: usize) -> (r: BitBuf)
        ensures
            bit_seq(r) == Seq::new(len as nat, |i: int| bit),
    {
        BitBuf { bits: BitVec::repeat(bit, len) }
    }

    /// Relies on bitvec's `BitSlice::len`: the number of bits the buffer holds.
    #[verifier::external_body]
    pub fn len(&self) -> (r: usize)
        ensures
            r == self@.len(),
    {
        self.bits.len()
    }

    /// Relies on bitvec's `Index<usize>` for bit slices: the bit at `index`.
    #[verifier::external_body]
    pub fn get(&self, index: usize) -> (r: bool)
        requires
            index < self@.len(),
        ensures
            r == self@[index as int],
    {
        self.bits[index]
    }

    /// Relies on bitvec's `BitSlice::set`: writes one bit, leaving the rest.
    #[verifier::external_body]
    pub fn set(&mut self, index: usize, value: bool)
        requires
            index < old(self)@.len(),
        ensures
            final(self)@ == old(self)@.update(index as int, value),
    {
        self.bits.set(index, value);
    }
}

/// A bit-for-bit copy of a buffer, built through the wrappers above.
#[verifier::loop_isolation(false)]
pub fn copy_bits(src: &BitBuf) -> (r: BitBuf)
    ensures
        r@ == src@,
{
    let n: usize = src.len();
    let mut out = BitBuf::repeat(false, n);
    let mut i: usize = 0;
    while i < n
        invariant
            i <= n,
            out@.len() == n,
            forall|j: int| 0 <= j < i ==> out@[j] == src@[j],
        decreases n - i,
    {
        out.set(i, src.get(i));
        i = i + 1;
    }
    proof {
        assert(out@ =~= src@);
    }
    out
}

} // verus!
