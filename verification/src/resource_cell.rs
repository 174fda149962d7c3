//! Cells that hand out a resource only as the borrow rules of an [`AtomicBorrow`] allow.
//!
//! A cell pairs a reference to a resource with the tracker of that resource's borrows.
//! Every borrow a cell hands out is first recorded in the tracker, and a borrow the
//! tracker would refuse is never handed out.
use vstd::prelude::*;
use crate::atomic_borrow::{AtomicBorrow, borrow_step, borrow_mut_step, release_step, release_mut_step};

verus! {

/// A resource that systems may only read, with the tracker of its borrows.
pub struct ResourceRefCell<'a, R> {
    pub resource: &'a R,
    pub borrow: &'a mut AtomicBorrow,
}

impl<'a, R> ResourceRefCell<'a, R> {
    /// A cell over `resource` whose borrows are recorded in `borrow`.
    pub fn new(resource: &'a R, borrow: &'a mut AtomicBorrow) -> (r: Self)
        ensures
            *r.resource == *resource,
            r.borrow@ == old(borrow)@,
            final(r.borrow)@ == final(borrow)@,
    {
        ResourceRefCell { resource, borrow }
    }

    /// Records a shared borrow and hands out the resource.
    pub fn cell_borrow_ref(&mut self) -> (r: &'a R)
        requires
            borrow_step(old(self).borrow@).1,
        ensures
            *r == *old(self).resource,
            final(self).resource == old(self).resource,
            final(self).borrow@ == borrow_step(old(self).borrow@).0,
            final(final(self).borrow)@ == final(old(self).borrow)@,
    {
        self.borrow.borrow();
        self.resource
    }

    /// Records that a shared borrow handed out by this cell has ended.
    pub fn cell_release_ref(&mut self)
        requires
            old(self).borrow@.shared > 0,
            !old(self).borrow@.unique,
        ensures
            final(self).resource == old(self).resource,
            final(self).borrow@ == release_step(old(self).borrow@),
            final(final(self).borrow)@ == final(old(self).borrow)@,
    {
        self.borrow.release();
    }
}

/// A resource that systems may read or write, with the tracker of its borrows.
pub struct ResourceMutCell<'a, R> {
    pub resource: &'a mut R,
    pub borrow: &'a mut AtomicBorrow,
}

impl<'a, R> ResourceMutCell<'a, R> {
    /// A cell over `resource` whose borrows are recorded in `borrow`.
    pub fn new(resource: &'a mut R, borrow: &'a mut AtomicBorrow) -> (r: Self)
        ensures
            *r.resource == *old(resource),
            *final(r.resource) == *final(resource),
            r.borrow@ == old(borrow)@,
            final(r.borrow)@ == final(borrow)@,
    {
        ResourceMutCell { resource, borrow }
    }

    /// Records a shared borrow and hands out the resource for reading.
    pub fn cell_borrow_ref(&mut self) -> (r: &R)
        requires
            borrow_step(old(self).borrow@).1,
        ensures
            *r == *old(self).resource,
            *final(self).resource == *old(self).resource,
            *final(final(self).resource) == *final(old(self).resource),
            final(self).borrow@ == borrow_step(old(self).borrow@).0,
            final(final(self).borrow)@ == final(old(self).borrow)@,
    {
        self.borrow.borrow();
        &*self.resource
    }

    /// Records the unique borrow and hands out the resource for writing.
    pub fn cell_borrow_mut(&mut self) -> (r: &mut R)
        requires
            borrow_mut_step(old(self).borrow@).1,
        ensures
            *r == *old(self).resource,
            *final(self).resource == *final(r),
            *final(final(self).resource) == *final(old(self).resource),
            final(self).borrow@ == borrow_mut_step(old(self).borrow@).0,
            final(final(self).borrow)@ == final(old(self).borrow)@,
    {
        self.borrow.borrow_mut();
        &mut *self.resource
    }

    /// Records that a shared borrow handed out by this cell has ended.
    pub fn cell_release_ref(&mut self)
        requires
            old(self).borrow@.shared > 0,
            !old(self).borrow@.unique,
        ensures
            *final(self).resource == *old(self).resource,
            *final(final(self).resource) == *final(old(self).resource),
            final(self).borrow@ == release_step(old(self).borrow@),
            final(final(self).borrow)@ == final(old(self).borrow)@,
    {
        self.borrow.release();
    }

    /// Records that the unique borrow handed out by this cell has ended.
    pub fn cell_release_mut(&mut self)
        ensures
            *final(self).resource == *old(self).resource,
            *final(final(self).resource) == *final(old(self).resource),
            final(self).borrow@ == release_mut_step(old(self).borrow@),
            final(final(self).borrow)@ == final(old(self).borrow)@,
    {
        self.borrow.release_mut();
    }
}

/// A resource with the tracker of its borrows, handing it out for reading or writing.
pub struct ResourceCell<'a, R0> {
    pub resource: &'a mut R0,
    pub borrow: &'a mut AtomicBorrow,
}

impl<'a, R0> ResourceCell<'a, R0> {
    /// A cell over `resource` whose borrows are recorded in `borrow`.
    pub fn new(resource: &'a mut R0, borrow: &'a mut AtomicBorrow) -> (r: Self)
        ensures
            *r.resource == *old(resource),
            *final(r.resource) == *final(resource),
            r.borrow@ == old(borrow)@,
            final(r.borrow)@ == final(borrow)@,
    {
        ResourceCell { resource, borrow }
    }

    /// Records a shared borrow and hands out the resource for reading.
    pub fn borrow(&mut self) -> (r: &R0)
        requires
            borrow_step(old(self).borrow@).1,
        ensures
            *r == *old(self).resource,
            *final(self).resource == *old(self).resource,
            *final(final(self).resource) == *final(old(self).resource),
            final(self).borrow@ == borrow_step(old(self).borrow@).0,
            final(final(self).borrow)@ == final(old(self).borrow)@,
    {
        self.borrow.borrow();
        &*self.resource
    }

    /// Records the unique borrow and hands out the resource for writing.
    pub fn borrow_mut(&mut self) -> (r: &mut R0)
        requires
            borrow_mut_step(old(self).borrow@).1,
        ensures
            *r == *old(self).resource,
            *final(self).resource == *final(r),
            *final(final(self).resource) == *final(old(self).resource),
            final(self).borrow@ == borrow_mut_step(old(self).borrow@).0,
            final(final(self).borrow)@ == final(old(self).borrow)@,
    {
        self.borrow.borrow_mut();
        &mut *self.resource
    }

    /// Records that a shared borrow handed out by this cell has ended.
    pub fn release(&mut self)
        requires
            old(self).borrow@.shared > 0,
            !old(self).borrow@.unique,
        ensures
            *final(self).resource == *old(self).resource,
            *final(final(self).resource) == *final(old(self).resource),
            final(self).borrow@ == release_step(old(self).borrow@),
            final(final(self).borrow)@ == final(old(self).borrow)@,
    {
        self.borrow.release();
    }

    /// Records that the unique borrow handed out by this cell has ended.
    pub fn release_mut(&mut self)
        ensures
            *final(self).resource == *old(self).resource,
            *final(final(self).resource) == *final(old(self).resource),
            final(self).borrow@ == release_mut_step(old(self).borrow@),
            final(final(self).borrow)@ == final(old(self).borrow)@,
    {
        self.borrow.release_mut();
    }
}

} // verus!
