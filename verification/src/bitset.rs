//! The fixed-size bit set that records which nodes of the audio graph were
//! reached.  The set itself is `fixedbitset::FixedBitSet`; the items below
//! are the only calls the library makes into it.

use fixedbitset::FixedBitSet;
use vstd::prelude::*;

verus! {

/// `fixedbitset::FixedBitSet`, carried through the library as an opaque value.
#[verifier::external_type_specification]
#[verifier::external_body]
pub struct ExFixedBitSet(FixedBitSet);

/// The indices whose bit is enabled in a `FixedBitSet`.
pub uninterp spec fn bitset_ones(set: FixedBitSet) -> Set<usize>;

/// The number of bits a `FixedBitSet` was created with (`FixedBitSet::len`).
pub uninterp spec fn bitset_len(set: FixedBitSet) -> nat;

/// Calls `FixedBitSet::with_capacity(bits)`.  Its documentation and source
/// show a set of `bits` bits, all initially clear; the contract claims
/// exactly that.
#[verifier::external_body]
pub(crate) fn bitset_with_capacity(bits: usize) -> (set: FixedBitSet)
    ensures
        bitset_ones(set) == Set::<usize>::empty(),
        bitset_len(set) == bits,
{
    FixedBitSet::with_capacity(bits)
}

/// Calls `FixedBitSet::contains(bit)`, which the source shows returns whether
/// the bit is enabled (and `false` for any bit outside the set's length).
#[verifier::external_body]
pub(crate) fn bitset_contains(set: &FixedBitSet, bit: usize) -> (enabled: bool)
    ensures
        enabled == bitset_ones(*set).contains(bit),
{
    set.contains(bit)
}

/// Calls `FixedBitSet::put(bit)`, which enables the bit and returns its
/// previous value.  It panics when `bit` is not below the length, so the
/// contract demands that it is.
#[verifier::external_body]
pub(crate) fn bitset_put(set: &mut FixedBitSet, bit: usize) -> (was_enabled: bool)
    requires
        bit < bitset_len(*old(set)),
    ensures
        bitset_ones(*final(set)) == bitset_ones(*old(set)).insert(bit),
        bitset_len(*final(set)) == bitset_len(*old(set)),
        was_enabled == bitset_ones(*old(set)).contains(bit),
{
    set.put(bit)
}

/// Collects `FixedBitSet::ones()`.  The source walks the blocks from the
/// lowest one and each block from its lowest set bit, so the enabled bits
/// come out once each, in ascending order; the contract claims that.
#[verifier::external_body]
pub(crate) fn bitset_ones_ascending(set: &FixedBitSet) -> (ones: Vec<usize>)
    ensures
        ones@.to_set() == bitset_ones(*set),
        forall|i: int, j: int| 0 <= i < j < ones@.len() ==> ones@[i] < ones@[j],
{
    set.ones().collect()
}

} // verus!
