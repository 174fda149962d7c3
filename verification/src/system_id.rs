//! Identifiers of systems within an executor.
use vstd::prelude::*;

verus! {

/// Identifier of a system in an executor; the number is the system's position in the order
/// of insertion into the builder.
#[derive(Clone, Copy, Debug, PartialEq, Eq, PartialOrd, Ord, Hash, Structural)]
pub struct SystemId(pub usize);

/// The number of dependants a system has, cached next to its identifier so that queued
/// systems can be ordered without looking the system up.
#[derive(Clone, Copy, Debug, PartialEq, Eq, PartialOrd, Ord, Hash, Structural)]
pub struct DependantsLength(pub usize);

} // verus!
