//! Marker types that name how a system takes its resources and components, and the
//! tuples of resources an executor is built over.
use vstd::prelude::*;
use core::marker::PhantomData;
use crate::atomic_borrow::{AtomicBorrow, free_state};

verus! {

/// Marker: the executor borrows the resource type `Resource` immutably.
pub struct Ref<Resource>(pub PhantomData<Resource>);

/// Marker: the executor borrows the resource type `Resource` mutably.
pub struct Mut<Resource>(pub PhantomData<Resource>);

/// Marker: a borrow for reading.
pub struct Immutable;

/// Marker: a borrow for writing.
pub struct Mutable;

/// How a resource or component is borrowed.
pub trait Mutability {}

impl Mutability for Immutable {}

impl Mutability for Mutable {}

/// Marker: a query needs the component on every entity it visits.
pub struct Mandatory;

/// Marker: a query takes the component where an entity has it.
pub struct Optional;

/// Whether a queried component must be present.
pub trait Optionality {}

impl Optionality for Mandatory {}

impl Optionality for Optional {}

/// Marker: a system takes a single resource.
pub struct SingleMarker;

/// Marker: a system takes a tuple of resources.
pub struct TupleMarker;

/// A single resource marker, [`Ref`] or [`Mut`].
pub trait ResourceSingle {}

impl<R0> ResourceSingle for Ref<R0> {}

impl<R0> ResourceSingle for Mut<R0> {}

/// A tuple of resource markers that an executor is built over: how many resources it
/// names, and a fresh borrow tracker for each of them.
pub trait ResourceTuple {
    /// One [`AtomicBorrow`] per resource of the tuple.
    type BorrowTuple;

    /// The number of resources of the tuple.
    const LENGTH: usize;

    /// Whether every tracker of `borrows` is free.
    spec fn all_free(borrows: Self::BorrowTuple) -> bool;

    /// A tracker per resource, nothing borrowed.
    fn instantiate_borrows() -> (r: Self::BorrowTuple)
        ensures
            Self::all_free(r),
    ;
}

impl<R0> ResourceTuple for Ref<R0> {
    type BorrowTuple = (AtomicBorrow,);

    const LENGTH: usize = 1;

    open spec fn all_free(borrows: Self::BorrowTuple) -> bool {
        borrows.0@ == free_state()
    }

    fn instantiate_borrows() -> (r: Self::BorrowTuple) {
        (AtomicBorrow::new(),)
    }
}

impl<R0> ResourceTuple for Mut<R0> {
    type BorrowTuple = (AtomicBorrow,);

    const LENGTH: usize = 1;

    open spec fn all_free(borrows: Self::BorrowTuple) -> bool {
        borrows.0@ == free_state()
    }

    fn instantiate_borrows() -> (r: Self::BorrowTuple) {
        (AtomicBorrow::new(),)
    }
}

impl ResourceTuple for () {
    type BorrowTuple = ();

    const LENGTH: usize = 0;

    open spec fn all_free(borrows: Self::BorrowTuple) -> bool {
        true
    }

    fn instantiate_borrows() -> (r: Self::BorrowTuple) {
    }
}

impl<R0> ResourceTuple for (R0,)
where
    R0: ResourceSingle,
{
    type BorrowTuple = (AtomicBorrow,);

    const LENGTH: usize = 1;

    open spec fn all_free(borrows: Self::BorrowTuple) -> bool {
        borrows.0@ == free_state()
    }

    fn instantiate_borrows() -> (r: Self::BorrowTuple) {
        (AtomicBorrow::new(),)
    }
}

impl<R0, R1> ResourceTuple for (R0, R1)
where
    R0: ResourceSingle,
    R1: ResourceSingle,
{
    type BorrowTuple = (AtomicBorrow, AtomicBorrow);

    const LENGTH: usize = 2;

    open spec fn all_free(borrows: Self::BorrowTuple) -> bool {
        borrows.0@ == free_state() && borrows.1@ == free_state()
    }

    fn instantiate_borrows() -> (r: Self::BorrowTuple) {
        (AtomicBorrow::new(), AtomicBorrow::new())
    }
}

impl<R0, R1, R2> ResourceTuple for (R0, R1, R2)
where
    R0: ResourceSingle,
    R1: ResourceSingle,
    R2: ResourceSingle,
{
    type BorrowTuple = (AtomicBorrow, AtomicBorrow, AtomicBorrow);

    const LENGTH: usize = 3;

    open spec fn all_free(borrows: Self::BorrowTuple) -> bool {
        borrows.0@ == free_state() && borrows.1@ == free_state() && borrows.2@ == free_state()
    }

    fn instantiate_borrows() -> (r: Self::BorrowTuple) {
        (AtomicBorrow::new(), AtomicBorrow::new(), AtomicBorrow::new())
    }
}

impl<R0, R1, R2, R3> ResourceTuple for (R0, R1, R2, R3)
where
    R0: ResourceSingle,
    R1: ResourceSingle,
    R2: ResourceSingle,
    R3: ResourceSingle,
{
    type BorrowTuple = (AtomicBorrow, AtomicBorrow, AtomicBorrow, AtomicBorrow);

    const LENGTH: usize = 4;

    open spec fn all_free(borrows: Self::BorrowTuple) -> bool {
        borrows.0@ == free_state() && borrows.1@ == free_state() && borrows.2@ == free_state() && borrows.3@ == free_state()
    }

    fn instantiate_borrows() -> (r: Self::BorrowTuple) {
        (AtomicBorrow::new(), AtomicBorrow::new(), AtomicBorrow::new(), AtomicBorrow::new())
    }
}

impl<R0, R1, R2, R3, R4> ResourceTuple for (R0, R1, R2, R3, R4)
where
    R0: ResourceSingle,
    R1: ResourceSingle,
    R2: ResourceSingle,
    R3: ResourceSingle,
    R4: ResourceSingle,
{
    type BorrowTuple = (AtomicBorrow, AtomicBorrow, AtomicBorrow, AtomicBorrow, AtomicBorrow);

    const LENGTH: usize = 5;

    open spec fn all_free(borrows: Self::BorrowTuple) -> bool {
        borrows.0@ == free_state() && borrows.1@ == free_state() && borrows.2@ == free_state() && borrows.3@ == free_state() && borrows.4@ == free_state()
    }

    fn instantiate_borrows() -> (r: Self::BorrowTuple) {
        (AtomicBorrow::new(), AtomicBorrow::new(), AtomicBorrow::new(), AtomicBorrow::new(), AtomicBorrow::new())
    }
}

impl<R0, R1, R2, R3, R4, R5> ResourceTuple for (R0, R1, R2, R3, R4, R5)
where
    R0: ResourceSingle,
    R1: ResourceSingle,
    R2: ResourceSingle,
    R3: ResourceSingle,
    R4: ResourceSingle,
    R5: ResourceSingle,
{
    type BorrowTuple = (AtomicBorrow, AtomicBorrow, AtomicBorrow, AtomicBorrow, AtomicBorrow, AtomicBorrow);

    const LENGTH: usize = 6;

    open spec fn all_free(borrows: Self::BorrowTuple) -> bool {
        borrows.0@ == free_state() && borrows.1@ == free_state() && borrows.2@ == free_state() && borrows.3@ == free_state() && borrows.4@ == free_state() && borrows.5@ == free_state()
    }

    fn instantiate_borrows() -> (r: Self::BorrowTuple) {
        (AtomicBorrow::new(), AtomicBorrow::new(), AtomicBorrow::new(), AtomicBorrow::new(), AtomicBorrow::new(), AtomicBorrow::new())
    }
}

impl<R0, R1, R2, R3, R4, R5, R6> ResourceTuple for (R0, R1, R2, R3, R4, R5, R6)
where
    R0: ResourceSingle,
    R1: ResourceSingle,
    R2: ResourceSingle,
    R3: ResourceSingle,
    R4: ResourceSingle,
    R5: ResourceSingle,
    R6: ResourceSingle,
{
    type BorrowTuple = (AtomicBorrow, AtomicBorrow, AtomicBorrow, AtomicBorrow, AtomicBorrow, AtomicBorrow, AtomicBorrow);

    const LENGTH: usize = 7;

    open spec fn all_free(borrows: Self::BorrowTuple) -> bool {
        borrows.0@ == free_state() && borrows.1@ == free_state() && borrows.2@ == free_state() && borrows.3@ == free_state() && borrows.4@ == free_state() && borrows.5@ == free_state() && borrows.6@ == free_state()
    }

    fn instantiate_borrows() -> (r: Self::BorrowTuple) {
        (AtomicBorrow::new(), AtomicBorrow::new(), AtomicBorrow::new(), AtomicBorrow::new(), AtomicBorrow::new(), AtomicBorrow::new(), AtomicBorrow::new())
    }
}

impl<R0, R1, R2, R3, R4, R5, R6, R7> ResourceTuple for (R0, R1, R2, R3, R4, R5, R6, R7)
where
    R0: ResourceSingle,
    R1: ResourceSingle,
    R2: ResourceSingle,
    R3: ResourceSingle,
    R4: ResourceSingle,
    R5: ResourceSingle,
    R6: ResourceSingle,
    R7: ResourceSingle,
{
    type BorrowTuple = (AtomicBorrow, AtomicBorrow, AtomicBorrow, AtomicBorrow, AtomicBorrow, AtomicBorrow, AtomicBorrow, AtomicBorrow);

    const LENGTH: usize = 8;

    open spec fn all_free(borrows: Self::BorrowTuple) -> bool {
        borrows.0@ == free_state() && borrows.1@ == free_state() && borrows.2@ == free_state() && borrows.3@ == free_state() && borrows.4@ == free_state() && borrows.5@ == free_state() && borrows.6@ == free_state() && borrows.7@ == free_state()
    }

    fn instantiate_borrows() -> (r: Self::BorrowTuple) {
        (AtomicBorrow::new(), AtomicBorrow::new(), AtomicBorrow::new(), AtomicBorrow::new(), AtomicBorrow::new(), AtomicBorrow::new(), AtomicBorrow::new(), AtomicBorrow::new())
    }
}

impl<R0, R1, R2, R3, R4, R5, R6, R7, R8> ResourceTuple for (R0, R1, R2, R3, R4, R5, R6, R7, R8)
where
    R0: ResourceSingle,
    R1: ResourceSingle,
    R2: ResourceSingle,
    R3: ResourceSingle,
    R4: ResourceSingle,
    R5: ResourceSingle,
    R6: ResourceSingle,
    R7: ResourceSingle,
    R8: ResourceSingle,
{
    type BorrowTuple = (AtomicBorrow, AtomicBorrow, AtomicBorrow, AtomicBorrow, AtomicBorrow, AtomicBorrow, AtomicBorrow, AtomicBorrow, AtomicBorrow);

    const LENGTH: usize = 9;

    open spec fn all_free(borrows: Self::BorrowTuple) -> bool {
        borrows.0@ == free_state() && borrows.1@ == free_state() && borrows.2@ == free_state() && borrows.3@ == free_state() && borrows.4@ == free_state() && borrows.5@ == free_state() && borrows.6@ == free_state() && borrows.7@ == free_state() && borrows.8@ == free_state()
    }

    fn instantiate_borrows() -> (r: Self::BorrowTuple) {
        (AtomicBorrow::new(), AtomicBorrow::new(), AtomicBorrow::new(), AtomicBorrow::new(), AtomicBorrow::new(), AtomicBorrow::new(), AtomicBorrow::new(), AtomicBorrow::new(), AtomicBorrow::new())
    }
}

impl<R0, R1, R2, R3, R4, R5, R6, R7, R8, R9> ResourceTuple for (R0, R1, R2, R3, R4, R5, R6, R7, R8, R9)
where
    R0: ResourceSingle,
    R1: ResourceSingle,
    R2: ResourceSingle,
    R3: ResourceSingle,
    R4: ResourceSingle,
    R5: ResourceSingle,
    R6: ResourceSingle,
    R7: ResourceSingle,
    R8: ResourceSingle,
    R9: ResourceSingle,
{
    type BorrowTuple = (AtomicBorrow, AtomicBorrow, AtomicBorrow, AtomicBorrow, AtomicBorrow, AtomicBorrow, AtomicBorrow, AtomicBorrow, AtomicBorrow, AtomicBorrow);

    const LENGTH: usize = 10;

    open spec fn all_free(borrows: Self::BorrowTuple) -> bool {
        borrows.0@ == free_state() && borrows.1@ == free_state() && borrows.2@ == free_state() && borrows.3@ == free_state() && borrows.4@ == free_state() && borrows.5@ == free_state() && borrows.6@ == free_state() && borrows.7@ == free_state() && borrows.8@ == free_state() && borrows.9@ == free_state()
    }

    fn instantiate_borrows() -> (r: Self::BorrowTuple) {
        (AtomicBorrow::new(), AtomicBorrow::new(), AtomicBorrow::new(), AtomicBorrow::new(), AtomicBorrow::new(), AtomicBorrow::new(), AtomicBorrow::new(), AtomicBorrow::new(), AtomicBorrow::new(), AtomicBorrow::new())
    }
}

impl<R0, R1, R2, R3, R4, R5, R6, R7, R8, R9, R10> ResourceTuple for (R0, R1, R2, R3, R4, R5, R6, R7, R8, R9, R10)
where
    R0: ResourceSingle,
    R1: ResourceSingle,
    R2: ResourceSingle,
    R3: ResourceSingle,
    R4: ResourceSingle,
    R5: ResourceSingle,
    R6: ResourceSingle,
    R7: ResourceSingle,
    R8: ResourceSingle,
    R9: ResourceSingle,
    R10: ResourceSingle,
{
    type BorrowTuple = (AtomicBorrow, AtomicBorrow, AtomicBorrow, AtomicBorrow, AtomicBorrow, AtomicBorrow, AtomicBorrow, AtomicBorrow, AtomicBorrow, AtomicBorrow, AtomicBorrow);

    const LENGTH: usize = 11;

    open spec fn all_free(borrows: Self::BorrowTuple) -> bool {
        borrows.0@ == free_state() && borrows.1@ == free_state() && borrows.2@ == free_state() && borrows.3@ == free_state() && borrows.4@ == free_state() && borrows.5@ == free_state() && borrows.6@ == free_state() && borrows.7@ == free_state() && borrows.8@ == free_state() && borrows.9@ == free_state() && borrows.10@ == free_state()
    }

    fn instantiate_borrows() -> (r: Self::BorrowTuple) {
        (AtomicBorrow::new(), AtomicBorrow::new(), AtomicBorrow::new(), AtomicBorrow::new(), AtomicBorrow::new(), AtomicBorrow::new(), AtomicBorrow::new(), AtomicBorrow::new(), AtomicBorrow::new(), AtomicBorrow::new(), AtomicBorrow::new())
    }
}

impl<R0, R1, R2, R3, R4, R5, R6, R7, R8, R9, R10, R11> ResourceTuple for (R0, R1, R2, R3, R4, R5, R6, R7, R8, R9, R10, R11)
where
    R0: ResourceSingle,
    R1: ResourceSingle,
    R2: ResourceSingle,
    R3: ResourceSingle,
    R4: ResourceSingle,
    R5: ResourceSingle,
    R6: ResourceSingle,
    R7: ResourceSingle,
    R8: ResourceSingle,
    R9: ResourceSingle,
    R10: ResourceSingle,
    R11: ResourceSingle,
{
    type BorrowTuple = (AtomicBorrow, AtomicBorrow, AtomicBorrow, AtomicBorrow, AtomicBorrow, AtomicBorrow, AtomicBorrow, AtomicBorrow, AtomicBorrow, AtomicBorrow, AtomicBorrow, AtomicBorrow);

    const LENGTH: usize = 12;

    open spec fn all_free(borrows: Self::BorrowTuple) -> bool {
        borrows.0@ == free_state() && borrows.1@ == free_state() && borrows.2@ == free_state() && borrows.3@ == free_state() && borrows.4@ == free_state() && borrows.5@ == free_state() && borrows.6@ == free_state() && borrows.7@ == free_state() && borrows.8@ == free_state() && borrows.9@ == free_state() && borrows.10@ == free_state() && borrows.11@ == free_state()
    }

    fn instantiate_borrows() -> (r: Self::BorrowTuple) {
        (AtomicBorrow::new(), AtomicBorrow::new(), AtomicBorrow::new(), AtomicBorrow::new(), AtomicBorrow::new(), AtomicBorrow::new(), AtomicBorrow::new(), AtomicBorrow::new(), AtomicBorrow::new(), AtomicBorrow::new(), AtomicBorrow::new(), AtomicBorrow::new())
    }
}

impl<R0, R1, R2, R3, R4, R5, R6, R7, R8, R9, R10, R11, R12> ResourceTuple for (R0, R1, R2, R3, R4, R5, R6, R7, R8, R9, R10, R11, R12)
where
    R0: ResourceSingle,
    R1: ResourceSingle,
    R2: ResourceSingle,
    R3: ResourceSingle,
    R4: ResourceSingle,
    R5: ResourceSingle,
    R6: ResourceSingle,
    R7: ResourceSingle,
    R8: ResourceSingle,
    R9: ResourceSingle,
    R10: ResourceSingle,
    R11: ResourceSingle,
    R12: ResourceSingle,
{
    type BorrowTuple = (AtomicBorrow, AtomicBorrow, AtomicBorrow, AtomicBorrow, AtomicBorrow, AtomicBorrow, AtomicBorrow, AtomicBorrow, AtomicBorrow, AtomicBorrow, AtomicBorrow, AtomicBorrow, AtomicBorrow);

    const LENGTH: usize = 13;

    open spec fn all_free(borrows: Self::BorrowTuple) -> bool {
        borrows.0@ == free_state() && borrows.1@ == free_state() && borrows.2@ == free_state() && borrows.3@ == free_state() && borrows.4@ == free_state() && borrows.5@ == free_state() && borrows.6@ == free_state() && borrows.7@ == free_state() && borrows.8@ == free_state() && borrows.9@ == free_state() && borrows.10@ == free_state() && borrows.11@ == free_state() && borrows.12@ == free_state()
    }

    fn instantiate_borrows() -> (r: Self::BorrowTuple) {
        (AtomicBorrow::new(), AtomicBorrow::new(), AtomicBorrow::new(), AtomicBorrow::new(), AtomicBorrow::new(), AtomicBorrow::new(), AtomicBorrow::new(), AtomicBorrow::new(), AtomicBorrow::new(), AtomicBorrow::new(), AtomicBorrow::new(), AtomicBorrow::new(), AtomicBorrow::new())
    }
}

impl<R0, R1, R2, R3, R4, R5, R6, R7, R8, R9, R10, R11, R12, R13> ResourceTuple for (R0, R1, R2, R3, R4, R5, R6, R7, R8, R9, R10, R11, R12, R13)
where
    R0: ResourceSingle,
    R1: ResourceSingle,
    R2: ResourceSingle,
    R3: ResourceSingle,
    R4: ResourceSingle,
    R5: ResourceSingle,
    R6: ResourceSingle,
    R7: ResourceSingle,
    R8: ResourceSingle,
    R9: ResourceSingle,
    R10: ResourceSingle,
    R11: ResourceSingle,
    R12: ResourceSingle,
    R13: ResourceSingle,
{
    type BorrowTuple = (AtomicBorrow, AtomicBorrow, AtomicBorrow, AtomicBorrow, AtomicBorrow, AtomicBorrow, AtomicBorrow, AtomicBorrow, AtomicBorrow, AtomicBorrow, AtomicBorrow, AtomicBorrow, AtomicBorrow, AtomicBorrow);

    const LENGTH: usize = 14;

    open spec fn all_free(borrows: Self::BorrowTuple) -> bool {
        borrows.0@ == free_state() && borrows.1@ == free_state() && borrows.2@ == free_state() && borrows.3@ == free_state() && borrows.4@ == free_state() && borrows.5@ == free_state() && borrows.6@ == free_state() && borrows.7@ == free_state() && borrows.8@ == free_state() && borrows.9@ == free_state() && borrows.10@ == free_state() && borrows.11@ == free_state() && borrows.12@ == free_state() && borrows.13@ == free_state()
    }

    fn instantiate_borrows() -> (r: Self::BorrowTuple) {
        (AtomicBorrow::new(), AtomicBorrow::new(), AtomicBorrow::new(), AtomicBorrow::new(), AtomicBorrow::new(), AtomicBorrow::new(), AtomicBorrow::new(), AtomicBorrow::new(), AtomicBorrow::new(), AtomicBorrow::new(), AtomicBorrow::new(), AtomicBorrow::new(), AtomicBorrow::new(), AtomicBorrow::new())
    }
}

impl<R0, R1, R2, R3, R4, R5, R6, R7, R8, R9, R10, R11, R12, R13, R14> ResourceTuple for (R0, R1, R2, R3, R4, R5, R6, R7, R8, R9, R10, R11, R12, R13, R14)
where
    R0: ResourceSingle,
    R1: ResourceSingle,
    R2: ResourceSingle,
    R3: ResourceSingle,
    R4: ResourceSingle,
    R5: ResourceSingle,
    R6: ResourceSingle,
    R7: ResourceSingle,
    R8: ResourceSingle,
    R9: ResourceSingle,
    R10: ResourceSingle,
    R11: ResourceSingle,
    R12: ResourceSingle,
    R13: ResourceSingle,
    R14: ResourceSingle,
{
    type BorrowTuple = (AtomicBorrow, AtomicBorrow, AtomicBorrow, AtomicBorrow, AtomicBorrow, AtomicBorrow, AtomicBorrow, AtomicBorrow, AtomicBorrow, AtomicBorrow, AtomicBorrow, AtomicBorrow, AtomicBorrow, AtomicBorrow, AtomicBorrow);

    const LENGTH: usize = 15;

    open spec fn all_free(borrows: Self::BorrowTuple) -> bool {
        borrows.0@ == free_state() && borrows.1@ == free_state() && borrows.2@ == free_state() && borrows.3@ == free_state() && borrows.4@ == free_state() && borrows.5@ == free_state() && borrows.6@ == free_state() && borrows.7@ == free_state() && borrows.8@ == free_state() && borrows.9@ == free_state() && borrows.10@ == free_state() && borrows.11@ == free_state() && borrows.12@ == free_state() && borrows.13@ == free_state() && borrows.14@ == free_state()
    }

    fn instantiate_borrows() -> (r: Self::BorrowTuple) {
        (AtomicBorrow::new(), AtomicBorrow::new(), AtomicBorrow::new(), AtomicBorrow::new(), AtomicBorrow::new(), AtomicBorrow::new(), AtomicBorrow::new(), AtomicBorrow::new(), AtomicBorrow::new(), AtomicBorrow::new(), AtomicBorrow::new(), AtomicBorrow::new(), AtomicBorrow::new(), AtomicBorrow::new(), AtomicBorrow::new())
    }
}

impl<R0, R1, R2, R3, R4, R5, R6, R7, R8, R9, R10, R11, R12, R13, R14, R15> ResourceTuple for (R0, R1, R2, R3, R4, R5, R6, R7, R8, R9, R10, R11, R12, R13, R14, R15)
where
    R0: ResourceSingle,
    R1: ResourceSingle,
    R2: ResourceSingle,
    R3: ResourceSingle,
    R4: ResourceSingle,
    R5: ResourceSingle,
    R6: ResourceSingle,
    R7: ResourceSingle,
    R8: ResourceSingle,
    R9: ResourceSingle,
    R10: ResourceSingle,
    R11: ResourceSingle,
    R12: ResourceSingle,
    R13: ResourceSingle,
    R14: ResourceSingle,
    R15: ResourceSingle,
{
    type BorrowTuple = (AtomicBorrow, AtomicBorrow, AtomicBorrow, AtomicBorrow, AtomicBorrow, AtomicBorrow, AtomicBorrow, AtomicBorrow, AtomicBorrow, AtomicBorrow, AtomicBorrow, AtomicBorrow, AtomicBorrow, AtomicBorrow, AtomicBorrow, AtomicBorrow);

    const LENGTH: usize = 16;

    open spec fn all_free(borrows: Self::BorrowTuple) -> bool {
        borrows.0@ == free_state() && borrows.1@ == free_state() && borrows.2@ == free_state() && borrows.3@ == free_state() && borrows.4@ == free_state() && borrows.5@ == free_state() && borrows.6@ == free_state() && borrows.7@ == free_state() && borrows.8@ == free_state() && borrows.9@ == free_state() && borrows.10@ == free_state() && borrows.11@ == free_state() && borrows.12@ == free_state() && borrows.13@ == free_state() && borrows.14@ == free_state() && borrows.15@ == free_state()
    }

    fn instantiate_borrows() -> (r: Self::BorrowTuple) {
        (AtomicBorrow::new(), AtomicBorrow::new(), AtomicBorrow::new(), AtomicBorrow::new(), AtomicBorrow::new(), AtomicBorrow::new(), AtomicBorrow::new(), AtomicBorrow::new(), AtomicBorrow::new(), AtomicBorrow::new(), AtomicBorrow::new(), AtomicBorrow::new(), AtomicBorrow::new(), AtomicBorrow::new(), AtomicBorrow::new(), AtomicBorrow::new())
    }
}

} // verus!
