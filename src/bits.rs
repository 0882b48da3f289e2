//! Packed sets of box indices, kept in a `bitvec` bit vector.

use bitvec::order::Lsb0;
use bitvec::vec::BitVec;
use vstd::prelude::*;

verus! {

/// A fixed-length vector of bits, packed into 64-bit words.
#[verifier::external_body]
pub struct BitSet {
    bits: BitVec<u64, Lsb0>,
}

/// The bits of a set, lowest index first.
pub uninterp spec fn bits_of(b: BitSet) -> Seq<bool>;

/// The largest number of bits a set may hold.
pub open spec fn max_bits() -> nat {
    (usize::MAX / 8) as nat
}

/// Relies on `BitVec::repeat(false, len)`: `len` bits, all clear. It panics
/// above the crate's region limit of `usize::MAX >> 3` bits.
#[verifier::external_body]
pub(crate) fn zeros(len: usize) -> (r: BitSet)
    requires
        len <= max_bits(),
    ensures
        bits_of(r) == Seq::new(len as nat, |i: int| false),
{
    BitSet { bits: BitVec::repeat(false, len) }
}

/// Relies on `BitSlice::len`: the number of bits.
#[verifier::external_body]
pub(crate) fn bit_len(b: &BitSet) -> (r: usize)
    ensures
        r == bits_of(*b).len(),
{
    b.bits.len()
}

/// Relies on indexing a `BitSlice`: the bit at `i`, which must be in bounds.
#[verifier::external_body]
pub(crate) fn get_bit(b: &BitSet, i: usize) -> (r: bool)
    requires
        i < bits_of(*b).len(),
    ensures
        r == bits_of(*b)[i as int],
{
    b.bits[i]
}

/// Relies on `BitSlice::set`: writes one in-bounds bit and leaves the others.
#[verifier::external_body]
pub(crate) fn set_bit(b: &mut BitSet, i: usize, v: bool)
    requires
        i < bits_of(*old(b)).len(),
    ensures
        bits_of(*final(b)) == bits_of(*old(b)).update(i as int, v),
{
    b.bits.set(i, v)
}

impl BitSet {
    /// A set of `len` bits, all clear.
    pub fn new(len: usize) -> (r: Self)
        requires
            len <= max_bits(),
        ensures
            bits_of(r) == Seq::new(len as nat, |i: int| false),
    {
        zeros(len)
    }

    /// The bits as booleans, lowest index first.
    pub fn to_vec(&self) -> (r: Vec<bool>)
        ensures
            r@ == bits_of(*self),
    {
        let n = bit_len(self);
        let mut r: Vec<bool> = Vec::new();
        let mut i: usize = 0;
        while i < n
            invariant
                n == bits_of(*self).len(),
                i <= n,
                r@ == bits_of(*self).subrange(0, i as int),
            decreases n - i,
        {
            r.push(get_bit(self, i));
            i += 1;
        }
        assert(r@ == bits_of(*self));
        r
    }
}

} // verus!
