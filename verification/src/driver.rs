//! One run of the analyser: from the text of a task file and the analyses
//! asked for to the verdicts to show.

use vstd::prelude::*;
use crate::error::AnalysisError;
use crate::input::{consistent, get_inp, ingestion, places_of, resolution};
use crate::response::{analysed, test_response_time, ResponseVerdict};
use crate::task::Task;
use crate::utilisation::{test_utilisation, tested, UtilisationVerdict};

verus! {

/// What a run is asked to do.
#[derive(Clone, Copy, Debug)]
pub struct Options {
    /// Take every deadline to be the task's period.
    pub implicit: bool,
    /// Run response-time analysis.
    pub response_time: bool,
    /// Run the utilisation bound test.
    pub utilisation: bool,
    /// Take the utilisation bound for the number of task families.
    pub families: bool,
}

/// What a run found.
#[derive(Debug)]
pub struct Report {
    /// The task set as it was analysed.
    pub task_set: Vec<Task>,
    /// The resolution of its times: one unit of time, as the file writes
    /// them, is ten to this power in ticks.
    pub places: usize,
    /// The outcome of the utilisation bound test, if it was asked for.
    pub utilisation: Option<Result<UtilisationVerdict, AnalysisError>>,
    /// The verdict on each task by response-time analysis, if it was asked for.
    pub response_times: Option<Vec<ResponseVerdict>>,
}

/// `report` is what a run with `options` finds on the task set `tasks` read
/// from `text`.
pub open spec fn reported(text: Seq<char>, tasks: Seq<Task>, options: Options, report: Report) -> bool {
    &&& report.task_set@ == tasks
    &&& report.places == places_of(text)
    &&& match report.utilisation {
        Some(outcome) => options.utilisation && tested(tasks, tasks.len(), outcome),
        None => !options.utilisation,
    }
    &&& match report.response_times {
        Some(verdicts) => options.response_time && analysed(
            tasks,
            Ok::<Vec<ResponseVerdict>, AnalysisError>(verdicts),
        ),
        None => !options.response_time,
    }
}

/// Reads the task set from `text` and runs the analyses that `options` asks
/// for, the utilisation test first.
///
/// Fails where the text cannot be read as a task set, with the error of
/// `get_inp`. A utilisation test that cannot be made is reported in its place
/// and does not end the run.
pub fn command_line(text: &str, options: Options) -> (res: Result<Report, AnalysisError>)
    ensures
        match res {
            Ok(report) => {
                &&& ingestion(
                    text@,
                    options.implicit,
                    Ok::<Vec<Task>, AnalysisError>(report.task_set),
                )
                &&& consistent(report.task_set@)
                &&& reported(text@, report.task_set@, options, report)
            },
            Err(e) => ingestion(text@, options.implicit, Err::<Vec<Task>, AnalysisError>(e)),
        },
{
    let task_set = match get_inp(text, options.implicit) {
        Ok(task_set) => task_set,
        Err(e) => {
            return Err(e);
        },
    };
    let utilisation = if options.utilisation {
        Some(test_utilisation(&task_set, options.families))
    } else {
        None
    };
    let response_times = if options.response_time {
        match test_response_time(&task_set) {
            Ok(verdicts) => Some(verdicts),
            // Never taken: a set that was read has distinct priorities.
            Err(e) => {
                return Err(e);
            },
        }
    } else {
        None
    };
    Ok(Report { task_set, places: resolution(text), utilisation, response_times })
}

} // verus!
