//! Static schedulability analysis for fixed-priority preemptive task sets on
//! one processor, over an exact integer time base: every time is a whole
//! number of ticks, as fine as the task file asks.
//!
//! A task set is read from text (`input`), given priorities (`priority`) and
//! then judged by two independent analyses: response-time analysis
//! (`response`) and the utilisation bound test (`utilisation`). `driver`
//! strings these together for one run.

pub mod driver;
pub mod error;
pub mod input;
pub mod natural;
pub mod priority;
pub mod resource;
pub mod response;
pub mod task;
pub mod text;
pub mod utilisation;
