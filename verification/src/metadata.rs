//! What a system borrows, by type, and whether that fits with the borrows of a group of
//! systems.
use vstd::prelude::*;
use crate::type_set::{TypeKey, TypeSet};

verus! {

/// Whether borrows (`immutable`, `mutable`) fit with the borrows (`other_immutable`,
/// `other_mutable`) of others: no type is written by one side and read or written by the
/// other.
pub open spec fn borrows_compatible(
    immutable: Set<TypeKey>,
    mutable: Set<TypeKey>,
    other_immutable: Set<TypeKey>,
    other_mutable: Set<TypeKey>,
) -> bool {
    &&& mutable.disjoint(other_mutable)
    &&& immutable.disjoint(other_mutable)
    &&& mutable.disjoint(other_immutable)
}

/// The resource and component types a system borrows, immutably and mutably.
pub struct SystemMetadata {
    pub resources_immutable: TypeSet,
    pub resources_mutable: TypeSet,
    pub components_immutable: TypeSet,
    pub components_mutable: TypeSet,
}

impl SystemMetadata {
    /// Borrows nothing.
    pub fn new() -> (r: Self)
        ensures
            r.resources_immutable@ == Set::<TypeKey>::empty(),
            r.resources_mutable@ == Set::<TypeKey>::empty(),
            r.components_immutable@ == Set::<TypeKey>::empty(),
            r.components_mutable@ == Set::<TypeKey>::empty(),
    {
        SystemMetadata {
            resources_immutable: TypeSet::new(),
            resources_mutable: TypeSet::new(),
            components_immutable: TypeSet::new(),
            components_mutable: TypeSet::new(),
        }
    }

    /// Whether the system's resource borrows fit with the given immutable and mutable
    /// resource borrows of other systems.
    pub fn are_resource_borrows_compatible(&self, immutable: &TypeSet, mutable: &TypeSet) -> (r: bool)
        ensures
            r == borrows_compatible(self.resources_immutable@, self.resources_mutable@, immutable@, mutable@),
    {
        self.resources_mutable.is_disjoint(mutable) && self.resources_immutable.is_disjoint(mutable)
            && self.resources_mutable.is_disjoint(immutable)
    }

    /// Whether the system's component borrows fit with the given immutable and mutable
    /// component borrows of other systems.
    pub fn are_component_borrows_compatible(&self, immutable: &TypeSet, mutable: &TypeSet) -> (r: bool)
        ensures
            r == borrows_compatible(self.components_immutable@, self.components_mutable@, immutable@, mutable@),
    {
        self.components_mutable.is_disjoint(mutable) && self.components_immutable.is_disjoint(mutable)
            && self.components_mutable.is_disjoint(immutable)
    }
}

/// A system together with what it borrows.
pub struct SystemWithMetadata<S> {
    pub system: S,
    pub metadata: SystemMetadata,
}

impl<S> SystemWithMetadata<S> {
    /// Pairs a system with the borrows it declares.
    pub fn new(system: S, metadata: SystemMetadata) -> (r: Self)
        ensures
            r.system == system,
            r.metadata == metadata,
    {
        SystemWithMetadata { system, metadata }
    }
}

/// Readers never conflict: borrows without writes fit with any borrows without writes.
pub proof fn lemma_readers_fit(immutable: Set<TypeKey>, other_immutable: Set<TypeKey>)
    ensures
        borrows_compatible(immutable, Set::empty(), other_immutable, Set::empty()),
{
}

/// Borrows fit with those of others exactly when no type is written by one side and read
/// or written by the other.
pub proof fn lemma_borrows_compatible_means_no_clash(
    immutable: Set<TypeKey>,
    mutable: Set<TypeKey>,
    other_immutable: Set<TypeKey>,
    other_mutable: Set<TypeKey>,
)
    ensures
        borrows_compatible(immutable, mutable, other_immutable, other_mutable) <==> (forall|t: TypeKey|
            !(mutable.contains(t) && (other_mutable.contains(t) || other_immutable.contains(t)))
                && !(immutable.contains(t) && other_mutable.contains(t))),
{
    if !borrows_compatible(immutable, mutable, other_immutable, other_mutable) {
        if !mutable.disjoint(other_mutable) {
            let t = choose|t: TypeKey| mutable.contains(t) && other_mutable.contains(t);
        } else if !immutable.disjoint(other_mutable) {
            let t = choose|t: TypeKey| immutable.contains(t) && other_mutable.contains(t);
        } else {
            let t = choose|t: TypeKey| mutable.contains(t) && other_immutable.contains(t);
        }
    }
}

/// Whether two systems' borrows fit does not depend on which is asked about which.
pub proof fn lemma_borrows_compatible_symmetric(
    immutable: Set<TypeKey>,
    mutable: Set<TypeKey>,
    other_immutable: Set<TypeKey>,
    other_mutable: Set<TypeKey>,
)
    ensures
        borrows_compatible(immutable, mutable, other_immutable, other_mutable)
            == borrows_compatible(other_immutable, other_mutable, immutable, mutable),
{
    assert(mutable.disjoint(other_mutable) == other_mutable.disjoint(mutable));
    assert(immutable.disjoint(other_mutable) == other_mutable.disjoint(immutable));
    assert(mutable.disjoint(other_immutable) == other_immutable.disjoint(mutable));
}

} // verus!
