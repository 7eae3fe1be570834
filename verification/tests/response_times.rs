use scheduling::error::AnalysisError;
use scheduling::response::{all_pass, response_time, test_response_time, HORIZON_FACTOR};
use scheduling::task::Task;

fn task(name: &str, c: u64, t: u64, d: u64, p: u32) -> Task {
    Task { name: name.to_string(), T: t, D: d, C: c, P: p, critical_sections: None }
}

#[test]
fn single_task_responds_in_its_computation_time() {
    let set = vec![task("only", 2, 10, 10, 1)];
    assert_eq!(response_time(&set[0], &set), Ok(2));
    let verdicts = test_response_time(&set).unwrap();
    assert_eq!(verdicts.len(), 1);
    assert_eq!(verdicts[0].name, "only");
    assert_eq!(verdicts[0].response, Ok(2));
    assert_eq!(verdicts[0].deadline, 10);
    assert!(verdicts[0].pass);
    assert!(all_pass(&verdicts));
}

#[test]
fn two_task_classic_example() {
    let set = vec![task("t1", 1, 4, 4, 2), task("t2", 2, 6, 6, 1)];
    assert_eq!(response_time(&set[0], &set), Ok(1));
    assert_eq!(response_time(&set[1], &set), Ok(3));
    let verdicts = test_response_time(&set).unwrap();
    assert!(verdicts[0].pass && verdicts[1].pass);
}

#[test]
fn overload_is_reported_as_non_convergence() {
    let set = vec![task("high", 5, 5, 5, 2), task("low", 5, 5, 5, 1)];
    assert_eq!(response_time(&set[0], &set), Ok(5));
    assert_eq!(response_time(&set[1], &set), Err(AnalysisError::NonConvergence));
    let verdicts = test_response_time(&set).unwrap();
    assert!(verdicts[0].pass);
    assert!(!verdicts[1].pass);
    assert!(!all_pass(&verdicts));
}

#[test]
fn three_task_set_iterates_to_its_least_fixed_point() {
    // R(c): 5 -> 5+1*1+1*2 = 8 -> 5+2*1+2*2 = 11 -> 5+3*1+2*2 = 12 -> 5+3*1+3*2 = 14
    //       -> 5+4*1+3*2 = 15 -> 15
    let set = vec![task("a", 1, 4, 4, 3), task("b", 2, 5, 5, 2), task("c", 5, 20, 20, 1)];
    assert_eq!(response_time(&set[0], &set), Ok(1));
    assert_eq!(response_time(&set[1], &set), Ok(3));
    assert_eq!(response_time(&set[2], &set), Ok(15));
}

#[test]
fn converged_but_late_is_a_plain_fail() {
    // R(low) = 3 + 2*ceil(R/4): 3 -> 5 -> 7 -> 7, later than the deadline of 6.
    let set = vec![task("high", 2, 4, 4, 2), task("low", 3, 20, 6, 1)];
    assert_eq!(response_time(&set[1], &set), Ok(7));
    let verdicts = test_response_time(&set).unwrap();
    assert_eq!(verdicts[1].response, Ok(7));
    assert_eq!(verdicts[1].deadline, 6);
    assert!(!verdicts[1].pass);
    assert!(verdicts[0].pass);
    assert!(!all_pass(&verdicts));
}

#[test]
fn removing_a_higher_priority_task_never_lengthens_a_response_time() {
    let full = vec![
        task("a", 1, 4, 4, 4),
        task("b", 2, 7, 7, 3),
        task("c", 3, 15, 15, 2),
        task("d", 4, 60, 60, 1),
    ];
    for analysed in 0..full.len() {
        let with = response_time(&full[analysed], &full).unwrap();
        for removed in 0..full.len() {
            if removed == analysed {
                continue;
            }
            let mut fewer = full.clone();
            fewer.remove(removed);
            let without = response_time(&full[analysed], &fewer).unwrap();
            assert!(without <= with);
            if full[removed].P < full[analysed].P {
                assert_eq!(without, with);
            }
        }
    }
    // R(d): 4 -> 10 -> 14 -> 15 -> 17 -> 21 -> 22 -> 24 -> 24
    assert_eq!(response_time(&full[3], &full), Ok(24));
}

#[test]
fn analysis_is_repeatable_and_leaves_the_set_alone() {
    let set = vec![task("a", 1, 4, 4, 3), task("b", 2, 5, 5, 2), task("c", 5, 20, 20, 1)];
    let first: Vec<Result<u64, AnalysisError>> =
        test_response_time(&set).unwrap().into_iter().map(|v| v.response).collect();
    let second: Vec<Result<u64, AnalysisError>> =
        test_response_time(&set).unwrap().into_iter().map(|v| v.response).collect();
    assert_eq!(first, second);
    assert_eq!(first, vec![Ok(1), Ok(3), Ok(15)]);
    assert_eq!(set.iter().map(|t| t.P).collect::<Vec<u32>>(), vec![3, 2, 1]);
}

#[test]
fn tasks_that_are_not_well_formed_are_domain_errors() {
    let late = task("late", 5, 10, 4, 1);
    let good = task("good", 1, 10, 10, 2);
    let set = vec![late.clone(), good.clone()];
    assert_eq!(response_time(&late, &set), Err(AnalysisError::DomainError));
    assert_eq!(response_time(&good, &set), Ok(1));
    // A higher-priority task without a period spoils the analysis of those below it only.
    let broken = task("broken", 1, 0, 5, 3);
    let set = vec![broken.clone(), good.clone(), task("low", 1, 10, 10, 1)];
    assert_eq!(response_time(&good, &set), Err(AnalysisError::DomainError));
    assert_eq!(response_time(&broken, &set), Err(AnalysisError::DomainError));
    let verdicts = test_response_time(&set).unwrap();
    assert_eq!(verdicts[2].response, Err(AnalysisError::DomainError));
    assert!(!verdicts[2].pass);
    // A lower-priority one does not.
    let set = vec![good.clone(), task("broken", 1, 0, 5, 1)];
    assert_eq!(response_time(&good, &set), Ok(1));
}

#[test]
fn equal_priorities_collide() {
    let set = vec![task("a", 1, 4, 4, 2), task("b", 1, 5, 5, 2)];
    assert_eq!(test_response_time(&set).map(|v| v.len()), Err(AnalysisError::PriorityCollision));
    let unassigned = vec![task("a", 1, 4, 4, 0), task("b", 1, 5, 5, 0)];
    assert_eq!(test_response_time(&unassigned).map(|v| v.len()), Err(AnalysisError::PriorityCollision));
    assert_eq!(test_response_time(&Vec::new()).map(|v| v.len()), Ok(0));
}

#[test]
fn equal_priority_tasks_do_not_interfere() {
    let set = vec![task("a", 3, 10, 10, 1), task("b", 4, 10, 10, 1)];
    assert_eq!(response_time(&set[0], &set), Ok(3));
    assert_eq!(response_time(&set[1], &set), Ok(4));
}

#[test]
fn full_load_from_above_never_converges() {
    // Two tasks above fill the processor between them: 1/2 + 2/4.
    let set = vec![task("a", 1, 2, 2, 3), task("b", 2, 4, 4, 2), task("c", 1, 100, 100, 1)];
    assert_eq!(response_time(&set[2], &set), Err(AnalysisError::NonConvergence));
    // Full load in total, but not from above, converges.
    let set = vec![task("a", 5, 10, 10, 2), task("b", 5, 10, 10, 1)];
    assert_eq!(response_time(&set[1], &set), Ok(10));
}

#[test]
fn slow_convergence_within_the_deadline_is_followed_to_the_end() {
    // R = 1000 + 999 * ceil(R / 1000) settles at 1_000_000 after 1000 evaluations.
    let set = vec![task("high", 999, 1000, 1000, 2), task("low", 1000, 2_000_000, 2_000_000, 1)];
    assert_eq!(response_time(&set[1], &set), Ok(1_000_000));
}

#[test]
fn response_times_beyond_the_range_do_not_converge() {
    let big = u64::MAX;
    let set = vec![task("high", big - 1, big, big, 2), task("low", big, big, big, 1)];
    assert_eq!(response_time(&set[1], &set), Err(AnalysisError::NonConvergence));
    assert_eq!(response_time(&set[0], &set), Ok(big - 1));
}

#[test]
fn a_fault_in_a_task_above_that_the_recurrence_never_reads_is_its_own() {
    // The task above misses its own deadline; the one below is served after it: 1 + 2 = 3.
    let set = vec![task("h", 2, 10, 1, 2), task("low", 1, 10, 10, 1)];
    assert_eq!(response_time(&set[0], &set), Err(AnalysisError::DomainError));
    assert_eq!(response_time(&set[1], &set), Ok(3));
    let verdicts = test_response_time(&set).unwrap();
    assert_eq!(verdicts[0].response, Err(AnalysisError::DomainError));
    assert!(!verdicts[0].pass);
    assert_eq!(verdicts[1].response, Ok(3));
    assert!(verdicts[1].pass);
    // Neither a missing deadline nor a missing computation time above is read.
    let set = vec![task("h", 2, 10, 0, 2), task("idle", 0, 10, 10, 3), task("low", 1, 10, 10, 1)];
    assert_eq!(response_time(&set[2], &set), Ok(3));
}

#[test]
fn response_times_are_followed_up_to_the_horizon() {
    assert_eq!(HORIZON_FACTOR, 1000);
    // R = 1 + 999 * ceil(R / 1000) settles at 1000, a thousand deadlines.
    let set = vec![task("high", 999, 1000, 1000, 2), task("low", 1, 5000, 1, 1)];
    assert_eq!(response_time(&set[1], &set), Ok(1000));
    let verdicts = test_response_time(&set).unwrap();
    assert_eq!(verdicts[1].response, Ok(1000));
    assert!(!verdicts[1].pass);
    // R = 1 + 9999 * ceil(R / 10000) settles at 10000, beyond them.
    let set = vec![task("high", 9999, 10000, 10000, 2), task("low", 1, 50000, 1, 1)];
    assert_eq!(response_time(&set[1], &set), Err(AnalysisError::NonConvergence));
    // With a deadline of ten it is within them again.
    let set = vec![task("high", 9999, 10000, 10000, 2), task("low", 1, 50000, 10, 1)];
    assert_eq!(response_time(&set[1], &set), Ok(10000));
}

#[test]
fn removing_a_task_keeps_convergence() {
    let full = vec![task("a", 2, 5, 5, 3), task("b", 2, 6, 6, 2), task("c", 2, 40, 40, 1)];
    // R(c): 2 -> 6 -> 8 -> 10 -> 10
    assert_eq!(response_time(&full[2], &full), Ok(10));
    let without_a = vec![full[1].clone(), full[2].clone()];
    assert_eq!(response_time(&full[2], &without_a), Ok(4));
    let without_b = vec![full[0].clone(), full[2].clone()];
    assert_eq!(response_time(&full[2], &without_b), Ok(4));
}
