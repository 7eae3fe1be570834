//! The task model shared by every analysis.

use vstd::prelude::*;
use vstd::std_specs::cmp::PartialEqSpecImpl;
use crate::resource::CriticalSection;

verus! {

/// A periodic or sporadic task. All times are whole numbers of ticks.
#[derive(Clone, Debug)]
#[allow(non_snake_case)]
pub struct Task {
    /// Identifier, unique within a task set.
    pub name: String,
    /// Period: the least time between two activations.
    pub T: u64,
    /// Relative deadline.
    pub D: u64,
    /// Worst-case computation time of one activation.
    pub C: u64,
    /// Priority; a larger number is a higher priority, and zero means that
    /// none has been assigned yet.
    pub P: u32,
    /// Critical sections of the task, carried along but not analysed.
    pub critical_sections: Option<Vec<CriticalSection>>,
}

impl Task {
    /// A task that makes sense on its own: positive period, deadline and
    /// computation time, and a computation time that fits in the deadline.
    pub open spec fn well_formed(&self) -> bool {
        &&& self.T > 0
        &&& self.D > 0
        &&& self.C > 0
        &&& self.C <= self.D
    }

    /// Whether `self` is well formed.
    pub fn is_well_formed(&self) -> (ok: bool)
        ensures
            ok == self.well_formed(),
    {
        self.T > 0 && self.D > 0 && self.C > 0 && self.C <= self.D
    }

    /// Whether `self` takes precedence over `other` under fixed-priority
    /// scheduling.
    pub open spec fn outranks_spec(&self, other: &Task) -> bool {
        self.P > other.P
    }

    /// Whether `self` has the higher priority of the two. Priorities order
    /// tasks; names tell them apart.
    #[verifier::when_used_as_spec(outranks_spec)]
    pub fn outranks(&self, other: &Task) -> (higher: bool)
        ensures
            higher == self.outranks_spec(other),
    {
        self.P > other.P
    }
}

/// Two tasks are the same task when they carry the same name.
impl PartialEq for Task {
    fn eq(&self, other: &Self) -> (same: bool) {
        self.name == other.name
    }
}

impl PartialEqSpecImpl for Task {
    open spec fn obeys_eq_spec() -> bool {
        true
    }

    open spec fn eq_spec(&self, other: &Self) -> bool {
        self.name@ == other.name@
    }
}

impl Eq for Task {}

/// The critical sections described by `path`. Resource descriptions are not
/// read yet, so no task has any.
pub fn get_resources(path: &str) -> (sections: Vec<CriticalSection>)
    ensures
        sections@ == Seq::<CriticalSection>::empty(),
{
    Vec::new()
}

} // verus!
