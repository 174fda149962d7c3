//! Verified core of a systems framework for `hecs`: runtime borrow tracking of
//! resources, borrow sets and their compatibility, and the planning and scheduling
//! decisions of the executor.
use vstd::prelude::*;

pub mod atomic_borrow;
pub mod bit_set;
pub mod type_set;
pub mod access_set;
pub mod system_id;
pub mod dependency;
pub mod queue_order;
pub mod run_queue;
pub mod scheduler;
pub mod disjoint_scheduler;
pub mod plan;
pub mod builder;
pub mod borrows;
pub mod parallel_executor;
pub mod resource_cell;
pub mod fetch;
pub mod markers;
pub mod error;
pub mod mod_queue;
pub mod metadata;
pub mod staged;
pub mod arch_staged;
pub mod sequential;

verus! {

} // verus!
