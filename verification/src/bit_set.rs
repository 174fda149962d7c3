//! The fixed-size bit sets of the `fixedbitset` crate, as this library uses them.
use vstd::prelude::*;
use fixedbitset::FixedBitSet;

verus! {

/// The outside type `fixedbitset::FixedBitSet`; its contents are described by [`bits_of`]
/// and [`capacity_of`].
#[verifier::external_type_specification]
#[verifier::external_body]
pub struct ExFixedBitSet(FixedBitSet);

/// The indices of the enabled bits of a bit set.
pub uninterp spec fn bits_of(s: FixedBitSet) -> Set<usize>;

/// The length in bits that a bit set was made with or grown to.
pub uninterp spec fn capacity_of(s: FixedBitSet) -> nat;

/// Whether every enabled bit of `s` lies below its length, as `fixedbitset` keeps it.
pub open spec fn bits_within(s: FixedBitSet) -> bool {
    forall|i: usize| #[trigger] bits_of(s).contains(i) ==> i < capacity_of(s)
}

/// `FixedBitSet::with_capacity`: a set of `bits` bits, all disabled.
#[verifier::external_body]
pub fn bitset_with_capacity(bits: usize) -> (r: FixedBitSet)
    ensures
        bits_of(r) == Set::<usize>::empty(),
        capacity_of(r) == bits,
        bits_within(r),
{
    FixedBitSet::with_capacity(bits)
}

/// `FixedBitSet::contains`: whether bit `bit` is enabled (bits past the length never are).
#[verifier::external_body]
pub fn bitset_contains(s: &FixedBitSet, bit: usize) -> (r: bool)
    ensures
        r == bits_of(*s).contains(bit),
{
    s.contains(bit)
}

/// `FixedBitSet::insert`: enables bit `bit`; the crate panics when `bit` is not below the length.
#[verifier::external_body]
pub fn bitset_insert(s: &mut FixedBitSet, bit: usize)
    requires
        bit < capacity_of(*old(s)),
    ensures
        bits_of(*final(s)) == bits_of(*old(s)).insert(bit),
        capacity_of(*final(s)) == capacity_of(*old(s)),
        bits_within(*old(s)) ==> bits_within(*final(s)),
{
    s.insert(bit)
}

/// `FixedBitSet::set`: enables or disables bit `bit`; the crate panics when `bit` is not
/// below the length.
#[verifier::external_body]
pub fn bitset_set(s: &mut FixedBitSet, bit: usize, enabled: bool)
    requires
        bit < capacity_of(*old(s)),
    ensures
        bits_of(*final(s)) == (if enabled {
            bits_of(*old(s)).insert(bit)
        } else {
            bits_of(*old(s)).remove(bit)
        }),
        capacity_of(*final(s)) == capacity_of(*old(s)),
        bits_within(*old(s)) ==> bits_within(*final(s)),
{
    s.set(bit, enabled)
}

/// `FixedBitSet::clear`: disables every bit, keeping the length.
#[verifier::external_body]
pub fn bitset_clear(s: &mut FixedBitSet)
    ensures
        bits_of(*final(s)) == Set::<usize>::empty(),
        capacity_of(*final(s)) == capacity_of(*old(s)),
        bits_within(*final(s)),
{
    s.clear()
}

/// `FixedBitSet::grow`: raises the length to `bits` if it is smaller, keeping every bit.
#[verifier::external_body]
pub fn bitset_grow(s: &mut FixedBitSet, bits: usize)
    ensures
        bits_of(*final(s)) == bits_of(*old(s)),
        capacity_of(*final(s)) == (if bits > capacity_of(*old(s)) {
            bits as nat
        } else {
            capacity_of(*old(s))
        }),
        bits_within(*old(s)) ==> bits_within(*final(s)),
{
    s.grow(bits)
}

/// `FixedBitSet::is_disjoint`: whether the two sets have no enabled bit in common.
#[verifier::external_body]
pub fn bitset_is_disjoint(a: &FixedBitSet, b: &FixedBitSet) -> (r: bool)
    ensures
        r == bits_of(*a).disjoint(bits_of(*b)),
{
    a.is_disjoint(b)
}

} // verus!
