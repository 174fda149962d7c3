//! Borrows of a system by type, and the same borrows condensed into bit sets over all the
//! types an executor knows of.
use vstd::prelude::*;
use fixedbitset::FixedBitSet;
use crate::access_set::{compatible, positions_in, Access, BorrowBits, pair_within};
use crate::bit_set::{
    bits_of, capacity_of, bitset_clear, bitset_grow, bitset_insert, bitset_is_disjoint,
    bitset_set, bitset_with_capacity,
};
use crate::type_set::{TypeKey, TypeSet};

verus! {

/// The resource and component types a system borrows, immutably and mutably.
pub struct SystemBorrows {
    pub resources_immutable: TypeSet,
    pub resources_mutable: TypeSet,
    pub components_immutable: TypeSet,
    pub components_mutable: TypeSet,
}

impl SystemBorrows {
    /// Borrows nothing.
    pub fn new() -> (r: Self)
        ensures
            r.resources_immutable@ == Set::<TypeKey>::empty(),
            r.resources_mutable@ == Set::<TypeKey>::empty(),
            r.components_immutable@ == Set::<TypeKey>::empty(),
            r.components_mutable@ == Set::<TypeKey>::empty(),
    {
        SystemBorrows {
            resources_immutable: TypeSet::new(),
            resources_mutable: TypeSet::new(),
            components_immutable: TypeSet::new(),
            components_mutable: TypeSet::new(),
        }
    }
}

/// A system's borrows as bit sets: bit `i` of a resource set stands for the `i`-th of all
/// resources, bit `i` of a component set for the `i`-th of all component types.
pub struct CondensedBorrows {
    pub resources_immutable: FixedBitSet,
    pub resources_mutable: FixedBitSet,
    pub components_immutable: FixedBitSet,
    pub components_mutable: FixedBitSet,
}

impl CondensedBorrows {
    /// The resource bits.
    pub open spec fn resources(&self) -> BorrowBits {
        BorrowBits { immutable: bits_of(self.resources_immutable), mutable: bits_of(self.resources_mutable) }
    }

    /// The component bits.
    pub open spec fn components(&self) -> BorrowBits {
        BorrowBits { immutable: bits_of(self.components_immutable), mutable: bits_of(self.components_mutable) }
    }

    /// Whether every bit set holds only bits below its length.
    pub open spec fn within(&self) -> bool {
        pair_within(self.resources_immutable, self.resources_mutable) && pair_within(self.components_immutable, self.components_mutable)
    }

    /// Empty bit sets of the given lengths.
    pub fn with_capacity(resources: usize, components: usize) -> (r: Self)
        ensures
            r.resources().immutable == Set::<usize>::empty(),
            r.resources().mutable == Set::<usize>::empty(),
            r.components().immutable == Set::<usize>::empty(),
            r.components().mutable == Set::<usize>::empty(),
            capacity_of(r.resources_immutable) == resources,
            capacity_of(r.resources_mutable) == resources,
            capacity_of(r.components_immutable) == components,
            capacity_of(r.components_mutable) == components,
            r.within(),
    {
        CondensedBorrows {
            resources_immutable: bitset_with_capacity(resources),
            resources_mutable: bitset_with_capacity(resources),
            components_immutable: bitset_with_capacity(components),
            components_mutable: bitset_with_capacity(components),
        }
    }

    /// Sets the bits of the types that `borrows` borrows: bit `i` of a resource set for
    /// `all_resources[i]`, bit `i` of a component set for `all_components[i]`. The bit sets
    /// must be long enough.
    pub fn fill(&mut self, borrows: &SystemBorrows, all_resources: &[TypeKey], all_components: &[TypeKey])
        requires
            capacity_of(old(self).resources_immutable) >= all_resources@.len(),
            capacity_of(old(self).resources_mutable) >= all_resources@.len(),
            capacity_of(old(self).components_immutable) >= all_components@.len(),
            capacity_of(old(self).components_mutable) >= all_components@.len(),
        ensures
            final(self).resources().immutable == old(self).resources().immutable.union(
                positions_in(all_resources@, borrows.resources_immutable@, all_resources@.len() as int)),
            final(self).resources().mutable == old(self).resources().mutable.union(
                positions_in(all_resources@, borrows.resources_mutable@, all_resources@.len() as int)),
            final(self).components().immutable == old(self).components().immutable.union(
                positions_in(all_components@, borrows.components_immutable@, all_components@.len() as int)),
            final(self).components().mutable == old(self).components().mutable.union(
                positions_in(all_components@, borrows.components_mutable@, all_components@.len() as int)),
            capacity_of(final(self).resources_immutable) == capacity_of(old(self).resources_immutable),
            capacity_of(final(self).resources_mutable) == capacity_of(old(self).resources_mutable),
            capacity_of(final(self).components_immutable) == capacity_of(old(self).components_immutable),
            capacity_of(final(self).components_mutable) == capacity_of(old(self).components_mutable),
            old(self).within() ==> final(self).within(),
    {
        fill_pair(&mut self.resources_immutable, &mut self.resources_mutable, &borrows.resources_immutable, &borrows.resources_mutable, all_resources);
        fill_pair(&mut self.components_immutable, &mut self.components_mutable, &borrows.components_immutable, &borrows.components_mutable, all_components);
    }

    /// Whether the resource borrows of the two systems are compatible.
    pub fn are_resources_compatible(&self, other: &CondensedBorrows) -> (r: bool)
        ensures
            r == compatible(self.resources(), other.resources()),
    {
        bitset_is_disjoint(&self.resources_mutable, &other.resources_mutable)
            && bitset_is_disjoint(&self.resources_mutable, &other.resources_immutable)
            && bitset_is_disjoint(&self.resources_immutable, &other.resources_mutable)
    }

    /// Whether the component borrows of the two systems are compatible.
    pub fn are_components_compatible(&self, other: &CondensedBorrows) -> (r: bool)
        ensures
            r == compatible(self.components(), other.components()),
    {
        bitset_is_disjoint(&self.components_mutable, &other.components_mutable)
            && bitset_is_disjoint(&self.components_mutable, &other.components_immutable)
            && bitset_is_disjoint(&self.components_immutable, &other.components_mutable)
    }

    /// Disables every bit, keeping the lengths.
    pub fn clear(&mut self)
        ensures
            final(self).resources().immutable == Set::<usize>::empty(),
            final(self).resources().mutable == Set::<usize>::empty(),
            final(self).components().immutable == Set::<usize>::empty(),
            final(self).components().mutable == Set::<usize>::empty(),
            capacity_of(final(self).resources_immutable) == capacity_of(old(self).resources_immutable),
            capacity_of(final(self).resources_mutable) == capacity_of(old(self).resources_mutable),
            capacity_of(final(self).components_immutable) == capacity_of(old(self).components_immutable),
            capacity_of(final(self).components_mutable) == capacity_of(old(self).components_mutable),
            final(self).within(),
    {
        bitset_clear(&mut self.resources_immutable);
        bitset_clear(&mut self.resources_mutable);
        bitset_clear(&mut self.components_immutable);
        bitset_clear(&mut self.components_mutable);
    }

    /// Grows the resource sets to `resources` bits and the component sets to `components`
    /// bits, keeping every bit.
    pub fn grow(&mut self, resources: usize, components: usize)
        ensures
            final(self).resources() == old(self).resources(),
            final(self).components() == old(self).components(),
            capacity_of(final(self).resources_immutable) >= resources,
            capacity_of(final(self).resources_mutable) >= resources,
            capacity_of(final(self).components_immutable) >= components,
            capacity_of(final(self).components_mutable) >= components,
            capacity_of(final(self).resources_immutable) >= capacity_of(old(self).resources_immutable),
            capacity_of(final(self).resources_mutable) >= capacity_of(old(self).resources_mutable),
            capacity_of(final(self).components_immutable) >= capacity_of(old(self).components_immutable),
            capacity_of(final(self).components_mutable) >= capacity_of(old(self).components_mutable),
            old(self).within() ==> final(self).within(),
    {
        bitset_grow(&mut self.resources_immutable, resources);
        bitset_grow(&mut self.resources_mutable, resources);
        bitset_grow(&mut self.components_immutable, components);
        bitset_grow(&mut self.components_mutable, components);
    }
}

/// Sets bit `i` of `immutable` (or `mutable`) for each `all[i]` in `types_immutable` (or
/// `types_mutable`).
fn fill_pair(
    immutable: &mut FixedBitSet,
    mutable: &mut FixedBitSet,
    types_immutable: &TypeSet,
    types_mutable: &TypeSet,
    all: &[TypeKey],
)
    requires
        capacity_of(*old(immutable)) >= all@.len(),
        capacity_of(*old(mutable)) >= all@.len(),
    ensures
        bits_of(*final(immutable)) == bits_of(*old(immutable)).union(positions_in(all@, types_immutable@, all@.len() as int)),
        bits_of(*final(mutable)) == bits_of(*old(mutable)).union(positions_in(all@, types_mutable@, all@.len() as int)),
        capacity_of(*final(immutable)) == capacity_of(*old(immutable)),
        capacity_of(*final(mutable)) == capacity_of(*old(mutable)),
        pair_within(*old(immutable), *old(mutable)) ==> pair_within(*final(immutable), *final(mutable)),
{
    let ghost i0 = bits_of(*immutable);
    let ghost m0 = bits_of(*mutable);
    let mut index: usize = 0;
    while index < all.len()
        invariant
            0 <= index <= all@.len(),
            capacity_of(*immutable) == capacity_of(*old(immutable)),
            capacity_of(*mutable) == capacity_of(*old(mutable)),
            capacity_of(*old(immutable)) >= all@.len(),
            capacity_of(*old(mutable)) >= all@.len(),
            i0 == bits_of(*old(immutable)),
            m0 == bits_of(*old(mutable)),
            bits_of(*immutable) == i0.union(positions_in(all@, types_immutable@, index as int)),
            bits_of(*mutable) == m0.union(positions_in(all@, types_mutable@, index as int)),
            pair_within(*old(immutable), *old(mutable)) ==> pair_within(*immutable, *mutable),
        decreases all@.len() - index,
    {
        let t = all[index];
        if types_mutable.contains(t) {
            bitset_insert(mutable, index);
        }
        if types_immutable.contains(t) {
            bitset_insert(immutable, index);
        }
        proof {
            assert(bits_of(*immutable) =~= i0.union(positions_in(all@, types_immutable@, index + 1)));
            assert(bits_of(*mutable) =~= m0.union(positions_in(all@, types_mutable@, index + 1)));
        }
        index = index + 1;
    }
}

/// Archetypes (by index) whose components a system reads and writes.
pub struct ArchetypeAccess {
    pub immutable: FixedBitSet,
    pub mutable: FixedBitSet,
}

impl ArchetypeAccess {
    pub open spec fn bits(&self) -> BorrowBits {
        BorrowBits { immutable: bits_of(self.immutable), mutable: bits_of(self.mutable) }
    }

    /// No archetypes, with bit sets of length zero.
    pub fn new() -> (r: Self)
        ensures
            r.bits().immutable == Set::<usize>::empty(),
            r.bits().mutable == Set::<usize>::empty(),
            capacity_of(r.immutable) == 0,
            capacity_of(r.mutable) == 0,
            pair_within(r.immutable, r.mutable),
    {
        ArchetypeAccess { immutable: bitset_with_capacity(0), mutable: bitset_with_capacity(0) }
    }

    /// Whether the two archetype accesses are compatible.
    pub fn is_compatible(&self, other: &ArchetypeAccess) -> (r: bool)
        ensures
            r == compatible(self.bits(), other.bits()),
    {
        bitset_is_disjoint(&self.mutable, &other.mutable) && bitset_is_disjoint(&self.mutable, &other.immutable)
            && bitset_is_disjoint(&self.immutable, &other.mutable)
    }

    /// Forgets every archetype, keeping the lengths.
    pub fn clear(&mut self)
        ensures
            final(self).bits().immutable == Set::<usize>::empty(),
            final(self).bits().mutable == Set::<usize>::empty(),
            capacity_of(final(self).immutable) == capacity_of(old(self).immutable),
            capacity_of(final(self).mutable) == capacity_of(old(self).mutable),
            pair_within(final(self).immutable, final(self).mutable),
    {
        bitset_clear(&mut self.immutable);
        bitset_clear(&mut self.mutable);
    }

    /// Grows both bit sets to `bits` bits, keeping every bit.
    pub fn grow(&mut self, bits: usize)
        ensures
            final(self).bits() == old(self).bits(),
            capacity_of(final(self).immutable) >= bits,
            capacity_of(final(self).mutable) >= bits,
            capacity_of(final(self).immutable) >= capacity_of(old(self).immutable),
            capacity_of(final(self).mutable) >= capacity_of(old(self).mutable),
            pair_within(old(self).immutable, old(self).mutable) ==> pair_within(final(self).immutable, final(self).mutable),
    {
        bitset_grow(&mut self.immutable, bits);
        bitset_grow(&mut self.mutable, bits);
    }

    /// Marks each archetype by its access: `Read` as read, `Write` as written, `Iterate`
    /// leaves it as it is. Every index must be below the lengths.
    pub fn extend(&mut self, accesses: &Vec<(usize, Access)>)
        requires
            forall|k: int| 0 <= k < accesses@.len() ==> (#[trigger] accesses@[k]).0 < capacity_of(old(self).immutable)
                && accesses@[k].0 < capacity_of(old(self).mutable),
        ensures
            final(self).bits().immutable == old(self).bits().immutable.union(
                Set::new(|i: usize| exists|k: int| 0 <= k < accesses@.len() && accesses@[k] == (i, Access::Read))),
            final(self).bits().mutable == old(self).bits().mutable.union(
                Set::new(|i: usize| exists|k: int| 0 <= k < accesses@.len() && accesses@[k] == (i, Access::Write))),
            capacity_of(final(self).immutable) == capacity_of(old(self).immutable),
            capacity_of(final(self).mutable) == capacity_of(old(self).mutable),
            pair_within(old(self).immutable, old(self).mutable) ==> pair_within(final(self).immutable, final(self).mutable),
    {
        let ghost i0 = self.bits().immutable;
        let ghost m0 = self.bits().mutable;
        let mut k: usize = 0;
        while k < accesses.len()
            invariant
                0 <= k <= accesses@.len(),
                forall|j: int| 0 <= j < accesses@.len() ==> (#[trigger] accesses@[j]).0 < capacity_of(self.immutable)
                    && accesses@[j].0 < capacity_of(self.mutable),
                capacity_of(self.immutable) == capacity_of(old(self).immutable),
                capacity_of(self.mutable) == capacity_of(old(self).mutable),
                i0 == old(self).bits().immutable,
                m0 == old(self).bits().mutable,
                self.bits().immutable == i0.union(Set::new(|i: usize| exists|j: int| 0 <= j < k && accesses@[j] == (i, Access::Read))),
                self.bits().mutable == m0.union(Set::new(|i: usize| exists|j: int| 0 <= j < k && accesses@[j] == (i, Access::Write))),
                pair_within(old(self).immutable, old(self).mutable) ==> pair_within(self.immutable, self.mutable),
            decreases accesses@.len() - k,
        {
            let (archetype, access) = accesses[k];
            match access {
                Access::Read => bitset_set(&mut self.immutable, archetype, true),
                Access::Write => bitset_set(&mut self.mutable, archetype, true),
                Access::Iterate => {},
            }
            proof {
                let ni = Set::new(|i: usize| exists|j: int| 0 <= j < k + 1 && accesses@[j] == (i, Access::Read));
                let pi = Set::new(|i: usize| exists|j: int| 0 <= j < k && accesses@[j] == (i, Access::Read));
                let nm = Set::new(|i: usize| exists|j: int| 0 <= j < k + 1 && accesses@[j] == (i, Access::Write));
                let pm = Set::new(|i: usize| exists|j: int| 0 <= j < k && accesses@[j] == (i, Access::Write));
                assert forall|i: usize| ni.contains(i) <==> (pi.contains(i) || accesses@[k as int] == (i, Access::Read)) by {
                    if ni.contains(i) {
                        let j = choose|j: int| 0 <= j < k + 1 && accesses@[j] == (i, Access::Read);
                        if j < k {
                            assert(pi.contains(i));
                        }
                    }
                    if pi.contains(i) {
                        let j = choose|j: int| 0 <= j < k && accesses@[j] == (i, Access::Read);
                        assert(ni.contains(i));
                    }
                    if accesses@[k as int] == (i, Access::Read) {
                        assert(ni.contains(i));
                    }
                }
                assert forall|i: usize| nm.contains(i) <==> (pm.contains(i) || accesses@[k as int] == (i, Access::Write)) by {
                    if nm.contains(i) {
                        let j = choose|j: int| 0 <= j < k + 1 && accesses@[j] == (i, Access::Write);
                        if j < k {
                            assert(pm.contains(i));
                        }
                    }
                    if pm.contains(i) {
                        let j = choose|j: int| 0 <= j < k && accesses@[j] == (i, Access::Write);
                        assert(nm.contains(i));
                    }
                    if accesses@[k as int] == (i, Access::Write) {
                        assert(nm.contains(i));
                    }
                }
                assert(self.bits().immutable =~= i0.union(ni));
                assert(self.bits().mutable =~= m0.union(nm));
            }
            k = k + 1;
        }
    }
}

/// A system's borrows by type, condensed, and by archetype.
pub struct BorrowsContainer {
    pub borrows: SystemBorrows,
    pub condensed: CondensedBorrows,
    pub archetypes: ArchetypeAccess,
}

impl BorrowsContainer {
    /// Holds the given borrows; nothing is condensed and no archetype is known yet.
    pub fn new(borrows: SystemBorrows) -> (r: Self)
        ensures
            r.borrows == borrows,
            r.condensed.resources().immutable == Set::<usize>::empty(),
            r.condensed.resources().mutable == Set::<usize>::empty(),
            r.condensed.components().immutable == Set::<usize>::empty(),
            r.condensed.components().mutable == Set::<usize>::empty(),
            r.condensed.within(),
            r.archetypes.bits().immutable == Set::<usize>::empty(),
            r.archetypes.bits().mutable == Set::<usize>::empty(),
    {
        BorrowsContainer {
            borrows,
            condensed: CondensedBorrows::with_capacity(0, 0),
            archetypes: ArchetypeAccess::new(),
        }
    }
}

} // verus!
