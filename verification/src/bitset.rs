//! Fixed-size bitsets from the `fixedbitset` crate, seen by the proofs as
//! a sequence of booleans whose length is the bitset's length.

use vstd::prelude::*;
use fixedbitset::FixedBitSet;

verus! {

#[verifier::external_type_specification]
#[verifier::external_body]
pub struct ExFixedBitSet(FixedBitSet);

/// The bits held by a `FixedBitSet`, one boolean per position below its length.
pub uninterp spec fn bits_of(b: FixedBitSet) -> Seq<bool>;

/// Calls `FixedBitSet::with_capacity`: a bitset of length `n` with every bit clear.
#[verifier::external_body]
pub fn bitset_with_capacity(n: usize) -> (b: FixedBitSet)
    ensures
        bits_of(b) == Seq::new(n as nat, |i: int| false),
{
    FixedBitSet::with_capacity(n)
}

/// Calls `FixedBitSet::new`: a bitset of length zero.
#[verifier::external_body]
pub fn bitset_new() -> (b: FixedBitSet)
    ensures
        bits_of(b) == Seq::<bool>::empty(),
{
    FixedBitSet::new()
}

/// Calls `FixedBitSet::len`: the number of bits.
#[verifier::external_body]
pub fn bitset_len(b: &FixedBitSet) -> (n: usize)
    ensures
        n == bits_of(*b).len(),
{
    b.len()
}

/// Calls `FixedBitSet::contains`: false for a position at or beyond the length,
/// the bit otherwise.
#[verifier::external_body]
pub fn bitset_contains(b: &FixedBitSet, i: usize) -> (r: bool)
    ensures
        r == (i < bits_of(*b).len() && bits_of(*b)[i as int]),
{
    b.contains(i)
}

/// Calls `FixedBitSet::set`, which panics at a position at or beyond the
/// length; below it the bit at `i` becomes `value` and no other bit changes.
#[verifier::external_body]
pub fn bitset_set(b: &mut FixedBitSet, i: usize, value: bool)
    requires
        i < bits_of(*old(b)).len(),
    ensures
        bits_of(*final(b)) == bits_of(*old(b)).update(i as int, value),
{
    b.set(i, value)
}

/// Calls `FixedBitSet::ones` and collects it: the positions of the set bits,
/// in increasing order.
#[verifier::external_body]
pub fn bitset_ones(b: &FixedBitSet) -> (v: Vec<usize>)
    ensures
        forall|k: int, l: int| 0 <= k < l < v@.len() ==> v@[k] < v@[l],
        forall|k: int| 0 <= k < v@.len() ==> v@[k] < bits_of(*b).len() && bits_of(*b)[v@[k] as int],
        forall|i: int|
            0 <= i < bits_of(*b).len() && bits_of(*b)[i] ==> exists|k: int|
                0 <= k < v@.len() && v@[k] as int == i,
{
    b.ones().collect()
}

/// Calls `FixedBitSet::clone`: a bitset with the same bits.
#[verifier::external_body]
pub fn bitset_clone(b: &FixedBitSet) -> (c: FixedBitSet)
    ensures
        bits_of(c) == bits_of(*b),
{
    b.clone()
}

/// Calls `FixedBitSet::grow`: a bitset shorter than `bits` is extended to
/// `bits` bits with the new ones clear; a longer one is left as it is.
#[verifier::external_body]
pub fn bitset_grow(b: &mut FixedBitSet, bits: usize)
    ensures
        bits_of(*final(b)) == if bits > bits_of(*old(b)).len() {
            bits_of(*old(b)) + Seq::new((bits - bits_of(*old(b)).len()) as nat, |i: int| false)
        } else {
            bits_of(*old(b))
        },
{
    b.grow(bits)
}

} // verus!
