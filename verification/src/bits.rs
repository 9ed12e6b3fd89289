//! Sets of small ids, held in `hibitset::BitSet`.

use hibitset::BitSet;

use vstd::prelude::*;

verus! {

#[verifier::external_type_specification]
#[verifier::external_body]
pub struct ExBitSet(BitSet);

/// The ids a bit set holds.
pub uninterp spec fn bitset_ids(b: BitSet) -> Set<u32>;

/// Every bit set takes the ids below this bound: `hibitset` panics on ids
/// above `MAX_EID`, which is 2^20 where `usize` has 32 bits and 2^24 where it
/// has 64.
pub const MAX_ID: u32 = 1048576;

/// `BitSet::new`: an empty set.
#[verifier::external_body]
pub(crate) fn bitset_new() -> (b: BitSet)
    ensures
        bitset_ids(b) == Set::<u32>::empty(),
{
    BitSet::new()
}

/// `BitSet::add`: puts `id` in the set; tells whether it was there already.
#[verifier::external_body]
pub(crate) fn bitset_add(b: &mut BitSet, id: u32) -> (was: bool)
    requires
        id < MAX_ID,
    ensures
        bitset_ids(*final(b)) == bitset_ids(*old(b)).insert(id),
        was == bitset_ids(*old(b)).contains(id),
{
    b.add(id)
}

/// `BitSet::contains`: whether `id` is in the set.
#[verifier::external_body]
pub(crate) fn bitset_contains(b: &BitSet, id: u32) -> (r: bool)
    ensures
        r == bitset_ids(*b).contains(id),
{
    b.contains(id)
}

} // verus!
