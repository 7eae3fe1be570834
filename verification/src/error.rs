//! The ways in which ingestion and analysis can fail.

use vstd::prelude::*;

verus! {

/// Why a task set could not be read or a result could not be given.
#[derive(Clone, Copy, Debug, PartialEq, Eq, Structural)]
pub enum AnalysisError {
    /// A required field is missing or is not a number.
    MalformedInput,
    /// A formula was handed a value outside its domain: a family count of
    /// zero, or a task that is not well formed.
    DomainError,
    /// The response-time recurrence reached no fixed point within the
    /// iteration policy.
    NonConvergence,
    /// Two tasks of one set carry the same priority.
    PriorityCollision,
}

} // verus!
