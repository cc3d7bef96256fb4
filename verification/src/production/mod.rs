//! Production processes, the planner that shares demand among them, and the
//! laws that hold of both.

pub mod apportion;
pub mod laws;
pub mod planner;
pub mod processes;

use vstd::prelude::*;
pub use planner::Priority;
use processes::Process;

verus! {

/// How much one process is to produce in a step.
#[derive(Debug)]
pub struct ProductionOrder<'a> {
    /// The process that is to produce.
    pub process: &'a Process,
    /// The quantity of its output that falls to it.
    pub amount: u64,
}

} // verus!
