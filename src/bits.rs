//! Bit sequences, held in `bitvec`'s `BitVec`, seen through `bits_of`.
use bitvec::order::Lsb0;
use bitvec::vec::BitVec;
use vstd::prelude::*;

verus! {

/// A sequence of bits: a path in the tree, a tree shape, or a payload.
/// It holds a `bitvec` bit-vector, which Verus sees only through `bits_of`.
#[verifier::external_body]
#[derive(Debug, PartialEq, Eq, Hash)]
pub struct Codeword {
    inner: BitVec<u8, Lsb0>,
}

/// The bits that a bit-vector holds, first bit first.
pub uninterp spec fn bits_of(b: Codeword) -> Seq<bool>;

/// The most bits a bit-vector can hold (`bitvec` reserves three bits of the length).
pub const MAX_BITS: usize = usize::MAX / 8;

/// Relies on `BitVec::new`: the new bit-vector is empty.
#[verifier::external_body]
pub fn new_bits() -> (r: Codeword)
    ensures
        bits_of(r) == Seq::<bool>::empty(),
{
    Codeword { inner: BitVec::new() }
}

/// Relies on `BitVec::len`: the number of bits held, which the bit-span stores
/// shifted left by three bits, so it never exceeds `MAX_BITS`.
#[verifier::external_body]
pub fn bits_len(b: &Codeword) -> (r: usize)
    ensures
        r as int == bits_of(*b).len(),
        r <= MAX_BITS,
{
    b.inner.len()
}

/// Relies on indexing a `BitSlice` by position: the bit at `i`.
#[verifier::external_body]
pub fn bit_at(b: &Codeword, i: usize) -> (r: bool)
    requires
        i < bits_of(*b).len(),
    ensures
        r == bits_of(*b)[i as int],
{
    b.inner[i]
}

/// Relies on `BitVec::push`: appends one bit; it panics only past `MAX_BITS` bits.
#[verifier::external_body]
pub fn push_bit(b: &mut Codeword, v: bool)
    requires
        bits_of(*old(b)).len() < MAX_BITS,
    ensures
        bits_of(*final(b)) == bits_of(*old(b)).push(v),
{
    b.inner.push(v)
}

/// Relies on `BitVec::extend_from_bitslice`: appends all bits of `other`.
#[verifier::external_body]
pub fn append_bits(b: &mut Codeword, other: &Codeword)
    requires
        bits_of(*old(b)).len() + bits_of(*other).len() <= MAX_BITS,
    ensures
        bits_of(*final(b)) == bits_of(*old(b)) + bits_of(*other),
{
    b.inner.extend_from_bitslice(&other.inner)
}

/// Relies on `BitVec::clone`: the copy holds the same bits.
#[verifier::external_body]
pub fn clone_bits(b: &Codeword) -> (r: Codeword)
    ensures
        bits_of(r) == bits_of(*b),
{
    Codeword { inner: b.inner.clone() }
}

} // verus!
