//! Shared resources and the critical sections that tasks hold on them.

use vstd::prelude::*;

verus! {

/// A shared resource. Its access time is the same for every task.
#[derive(Clone, Debug)]
#[allow(non_snake_case)]
pub struct Resource {
    pub name: String,
    /// Ceiling priority, for priority ceiling protocols.
    pub P: Option<u32>,
    /// Access time; taken as zero when absent.
    pub A: Option<u32>,
}

/// A critical section of a task: the resource it holds and for how many time
/// units it holds it.
#[derive(Clone, Debug)]
pub struct CriticalSection(pub Resource, pub u32);

} // verus!
