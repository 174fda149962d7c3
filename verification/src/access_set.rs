//! Borrow sets: which resources, component types and archetypes a system reads and writes,
//! and when two systems may run at the same time.
use vstd::prelude::*;
use fixedbitset::FixedBitSet;
use crate::bit_set::{
    bits_of, bits_within, capacity_of, bitset_clear, bitset_grow, bitset_insert, bitset_is_disjoint,
    bitset_set, bitset_with_capacity,
};
use crate::type_set::{TypeKey, TypeSet};

verus! {

/// The indices a system reads and the indices it writes.
pub ghost struct BorrowBits {
    pub immutable: Set<usize>,
    pub mutable: Set<usize>,
}

/// Two borrow sets are compatible when neither writes an index the other reads or writes.
pub open spec fn compatible(a: BorrowBits, b: BorrowBits) -> bool {
    &&& a.mutable.disjoint(b.mutable)
    &&& a.mutable.disjoint(b.immutable)
    &&& a.immutable.disjoint(b.mutable)
}

/// Compatibility does not depend on the order of the two sets.
pub proof fn lemma_compatible_symmetric(a: BorrowBits, b: BorrowBits)
    ensures
        compatible(a, b) == compatible(b, a),
{
}

/// Compatibility means no index is written by one set and touched by the other.
pub proof fn lemma_compatible_means_no_conflict(a: BorrowBits, b: BorrowBits)
    ensures
        compatible(a, b) <==> (forall|i: usize|
            !((a.mutable.contains(i) && (b.mutable.contains(i) || b.immutable.contains(i))) || (
            b.mutable.contains(i) && a.immutable.contains(i)))),
{
    if !compatible(a, b) {
        if !a.mutable.disjoint(b.mutable) {
            let i = choose|i: usize| a.mutable.contains(i) && b.mutable.contains(i);
        } else if !a.mutable.disjoint(b.immutable) {
            let i = choose|i: usize| a.mutable.contains(i) && b.immutable.contains(i);
        } else {
            let i = choose|i: usize| a.immutable.contains(i) && b.mutable.contains(i);
        }
    }
}

/// Sets that only read are compatible with each other.
pub proof fn lemma_readers_compatible(a: BorrowBits, b: BorrowBits)
    requires
        a.mutable == Set::<usize>::empty(),
        b.mutable == Set::<usize>::empty(),
    ensures
        compatible(a, b),
{
}

/// Whether a pair of bit sets holds only bits below their lengths.
pub open spec fn pair_within(immutable: FixedBitSet, mutable: FixedBitSet) -> bool {
    bits_within(immutable) && bits_within(mutable)
}

/// Resources or component types (by index) that a system borrows immutably and mutably.
pub struct BorrowSet {
    pub immutable: FixedBitSet,
    pub mutable: FixedBitSet,
}

impl View for BorrowSet {
    type V = BorrowBits;

    open spec fn view(&self) -> BorrowBits {
        BorrowBits { immutable: bits_of(self.immutable), mutable: bits_of(self.mutable) }
    }
}

impl BorrowSet {
    /// Both bit sets of the given length, empty.
    pub fn with_capacity(bits: usize) -> (r: Self)
        ensures
            r@.immutable == Set::<usize>::empty(),
            r@.mutable == Set::<usize>::empty(),
            capacity_of(r.immutable) == bits,
            capacity_of(r.mutable) == bits,
            pair_within(r.immutable, r.mutable),
    {
        BorrowSet { immutable: bitset_with_capacity(bits), mutable: bitset_with_capacity(bits) }
    }

    /// Marks `index` as borrowed immutably.
    pub fn insert_immutable(&mut self, index: usize)
        requires
            index < capacity_of(old(self).immutable),
        ensures
            final(self)@ == (BorrowBits { immutable: old(self)@.immutable.insert(index), mutable: old(self)@.mutable }),
            capacity_of(final(self).immutable) == capacity_of(old(self).immutable),
            capacity_of(final(self).mutable) == capacity_of(old(self).mutable),
            pair_within(old(self).immutable, old(self).mutable) ==> pair_within(final(self).immutable, final(self).mutable),
    {
        bitset_insert(&mut self.immutable, index);
    }

    /// Marks `index` as borrowed mutably.
    pub fn insert_mutable(&mut self, index: usize)
        requires
            index < capacity_of(old(self).mutable),
        ensures
            final(self)@ == (BorrowBits { immutable: old(self)@.immutable, mutable: old(self)@.mutable.insert(index) }),
            capacity_of(final(self).immutable) == capacity_of(old(self).immutable),
            capacity_of(final(self).mutable) == capacity_of(old(self).mutable),
            pair_within(old(self).immutable, old(self).mutable) ==> pair_within(final(self).immutable, final(self).mutable),
    {
        bitset_insert(&mut self.mutable, index);
    }

    /// Whether a system with this set may run alongside one with `other`.
    pub fn is_compatible(&self, other: &BorrowSet) -> (r: bool)
        ensures
            r == compatible(self@, other@),
    {
        bitset_is_disjoint(&self.mutable, &other.mutable) && bitset_is_disjoint(
            &self.mutable,
            &other.immutable,
        ) && bitset_is_disjoint(&self.immutable, &other.mutable)
    }
}

/// How a query may touch the components of one archetype.
#[derive(Clone, Copy, Debug, PartialEq, Eq, Structural)]
pub enum Access {
    /// Reads at least one component of the archetype.
    Read,
    /// Writes at least one component of the archetype.
    Write,
    /// Visits the archetype's entities without touching components.
    Iterate,
}

/// The archetype indices, below `n`, whose access is `Some(wanted)`.
pub open spec fn indices_with(accesses: Seq<Option<Access>>, wanted: Access, n: int) -> Set<usize> {
    Set::new(|i: usize| i < n && i < accesses.len() && accesses[i as int] == Some(wanted))
}

/// Archetypes (by index in the world) whose components a system reads and writes.
pub struct ArchetypeSet {
    pub immutable: FixedBitSet,
    pub mutable: FixedBitSet,
}

impl View for ArchetypeSet {
    type V = BorrowBits;

    open spec fn view(&self) -> BorrowBits {
        BorrowBits { immutable: bits_of(self.immutable), mutable: bits_of(self.mutable) }
    }
}

impl ArchetypeSet {
    /// No archetype, with bit sets of length zero.
    pub fn new() -> (r: Self)
        ensures
            r@.immutable == Set::<usize>::empty(),
            r@.mutable == Set::<usize>::empty(),
            capacity_of(r.immutable) == 0,
            capacity_of(r.mutable) == 0,
            pair_within(r.immutable, r.mutable),
    {
        ArchetypeSet { immutable: bitset_with_capacity(0), mutable: bitset_with_capacity(0) }
    }

    /// Whether a system touching these archetypes may run alongside one touching `other`.
    pub fn is_compatible(&self, other: &ArchetypeSet) -> (r: bool)
        ensures
            r == compatible(self@, other@),
    {
        bitset_is_disjoint(&self.mutable, &other.mutable) && bitset_is_disjoint(
            &self.mutable,
            &other.immutable,
        ) && bitset_is_disjoint(&self.immutable, &other.mutable)
    }

    /// Rebuilds the set from a query's access to each archetype of the world, in the world's
    /// order: `Read` marks the archetype read, `Write` marks it written, and `Iterate` or no
    /// access leaves it unmarked.
    pub fn set_bits_for_query(&mut self, accesses: &Vec<Option<Access>>)
        ensures
            final(self)@.immutable == indices_with(accesses@, Access::Read, accesses@.len() as int),
            final(self)@.mutable == indices_with(accesses@, Access::Write, accesses@.len() as int),
            capacity_of(final(self).immutable) >= accesses@.len(),
            capacity_of(final(self).mutable) >= accesses@.len(),
            pair_within(final(self).immutable, final(self).mutable),
    {
        bitset_clear(&mut self.immutable);
        bitset_clear(&mut self.mutable);
        let bits = accesses.len();
        bitset_grow(&mut self.immutable, bits);
        bitset_grow(&mut self.mutable, bits);
        let mut index: usize = 0;
        while index < bits
            invariant
                bits == accesses@.len(),
                0 <= index <= bits,
                capacity_of(self.immutable) >= bits,
                capacity_of(self.mutable) >= bits,
                pair_within(self.immutable, self.mutable),
                bits_of(self.immutable) == indices_with(accesses@, Access::Read, index as int),
                bits_of(self.mutable) == indices_with(accesses@, Access::Write, index as int),
            decreases bits - index,
        {
            match accesses[index] {
                Some(Access::Read) => bitset_set(&mut self.immutable, index, true),
                Some(Access::Write) => bitset_set(&mut self.mutable, index, true),
                _ => {},
            }
            proof {
                assert(bits_of(self.immutable) =~= indices_with(accesses@, Access::Read, index + 1));
                assert(bits_of(self.mutable) =~= indices_with(accesses@, Access::Write, index + 1));
            }
            index = index + 1;
        }
    }
}

/// The positions `i < n` of `all_types` whose key is in `types`.
pub open spec fn positions_in(all_types: Seq<TypeKey>, types: Set<TypeKey>, n: int) -> Set<usize> {
    Set::new(|i: usize| i < n && i < all_types.len() && types.contains(all_types[i as int]))
}

/// Component or resource types that a system borrows immutably and mutably.
pub struct BorrowTypeSet {
    pub immutable: TypeSet,
    pub mutable: TypeSet,
}

impl BorrowTypeSet {
    /// Borrows nothing.
    pub fn new() -> (r: Self)
        ensures
            r.immutable@ == Set::<TypeKey>::empty(),
            r.mutable@ == Set::<TypeKey>::empty(),
    {
        BorrowTypeSet { immutable: TypeSet::new(), mutable: TypeSet::new() }
    }

    /// Turns the type sets into bit sets over `all_types`: bit `i` is set when
    /// `all_types[i]` is borrowed that way.
    pub fn condense(self, all_types: &[TypeKey]) -> (r: BorrowSet)
        ensures
            r@.immutable == positions_in(all_types@, self.immutable@, all_types@.len() as int),
            r@.mutable == positions_in(all_types@, self.mutable@, all_types@.len() as int),
            capacity_of(r.immutable) == all_types@.len(),
            capacity_of(r.mutable) == all_types@.len(),
            pair_within(r.immutable, r.mutable),
    {
        let mut set = BorrowSet::with_capacity(all_types.len());
        let mut index: usize = 0;
        while index < all_types.len()
            invariant
                0 <= index <= all_types@.len(),
                capacity_of(set.immutable) == all_types@.len(),
                capacity_of(set.mutable) == all_types@.len(),
                pair_within(set.immutable, set.mutable),
                set@.immutable == positions_in(all_types@, self.immutable@, index as int),
                set@.mutable == positions_in(all_types@, self.mutable@, index as int),
            decreases all_types@.len() - index,
        {
            let element = all_types[index];
            if self.immutable.contains(element) {
                bitset_insert(&mut set.immutable, index);
            }
            if self.mutable.contains(element) {
                bitset_insert(&mut set.mutable, index);
            }
            proof {
                assert(set@.immutable =~= positions_in(all_types@, self.immutable@, index + 1));
                assert(set@.mutable =~= positions_in(all_types@, self.mutable@, index + 1));
            }
            index = index + 1;
        }
        proof {
            assert(set@.immutable =~= positions_in(all_types@, self.immutable@, index as int));
        }
        set
    }
}

} // verus!
