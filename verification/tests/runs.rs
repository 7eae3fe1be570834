use scheduling::driver::{command_line, Options};
use scheduling::error::AnalysisError;

const CLASSIC: &str = "N,T,D,C,P\nt1,4,4,1,2\nt2,6,6,2,1\n";

fn options(response_time: bool, utilisation: bool) -> Options {
    Options { implicit: false, response_time, utilisation, families: false }
}

#[test]
fn run_reports_only_what_was_asked_for() {
    let report = command_line(CLASSIC, options(false, false)).unwrap();
    assert_eq!(report.task_set.len(), 2);
    assert!(report.utilisation.is_none());
    assert!(report.response_times.is_none());
    let report = command_line(CLASSIC, options(true, false)).unwrap();
    assert!(report.utilisation.is_none());
    assert_eq!(report.response_times.map(|v| v.len()), Some(2));
    let report = command_line(CLASSIC, options(false, true)).unwrap();
    assert!(report.utilisation.is_some());
    assert!(report.response_times.is_none());
}

#[test]
fn run_on_the_classic_pair_passes_both_analyses() {
    let report = command_line(CLASSIC, options(true, true)).unwrap();
    let utilisation = report.utilisation.unwrap().unwrap();
    assert!(utilisation.pass);
    assert_eq!(utilisation.families, 2);
    assert_eq!(utilisation.numerator.to_u64(), Some(1 * 6 + 2 * 4));
    assert_eq!(utilisation.denominator.to_u64(), Some(4 * 6));
    assert_eq!(report.places, 0);
    let verdicts = report.response_times.unwrap();
    assert_eq!(verdicts[0].name, "t1");
    assert_eq!(verdicts[0].response, Ok(1));
    assert_eq!(verdicts[1].name, "t2");
    assert_eq!(verdicts[1].response, Ok(3));
    assert!(verdicts[0].pass && verdicts[1].pass);
}

#[test]
fn run_assigns_missing_priorities_before_it_analyses() {
    let report = command_line("N,T,C\nslow,6,2\nfast,4,1\n", options(true, false)).unwrap();
    let names: Vec<&str> = report.task_set.iter().map(|t| t.name.as_str()).collect();
    assert_eq!(names, vec!["fast", "slow"]);
    let verdicts = report.response_times.unwrap();
    assert_eq!(verdicts[0].response, Ok(1));
    assert_eq!(verdicts[1].response, Ok(3));
}

#[test]
fn run_reports_overload_for_the_task_it_strikes() {
    let report = command_line("N,T,C,P\nhigh,5,5,2\nlow,5,5,1\n", options(true, true)).unwrap();
    let verdicts = report.response_times.unwrap();
    assert_eq!(verdicts[0].response, Ok(5));
    assert!(verdicts[0].pass);
    assert_eq!(verdicts[1].response, Err(AnalysisError::NonConvergence));
    assert!(!verdicts[1].pass);
    assert!(!report.utilisation.unwrap().unwrap().pass);
}

#[test]
fn run_on_an_empty_set_cannot_test_its_utilisation() {
    let report = command_line("N,T,C\n", options(true, true)).unwrap();
    assert_eq!(report.utilisation.unwrap().map(|v| v.pass), Err(AnalysisError::DomainError));
    assert_eq!(report.response_times.map(|v| v.len()), Some(0));
}

#[test]
fn run_fails_where_the_file_cannot_be_read() {
    assert_eq!(
        command_line("N,T,C\na,b,c\n", options(true, true)).map(|r| r.task_set.len()),
        Err(AnalysisError::MalformedInput)
    );
    assert_eq!(
        command_line("N,T,C,P\na,4,1,1\nb,5,1,1\n", options(true, true)).map(|r| r.task_set.len()),
        Err(AnalysisError::PriorityCollision)
    );
}

#[test]
fn run_with_implicit_deadlines_ignores_the_deadline_column() {
    let mut asked = options(true, false);
    asked.implicit = true;
    let report = command_line("N,T,D,C,P\na,10,1,2,1\n", asked).unwrap();
    assert_eq!(report.task_set[0].D, 10);
    assert!(report.response_times.unwrap()[0].pass);
    let report = command_line("N,T,D,C,P\na,10,1,2,1\n", options(true, false)).unwrap();
    assert_eq!(report.task_set[0].D, 1);
    assert_eq!(report.response_times.unwrap()[0].response, Err(AnalysisError::DomainError));
}

#[test]
fn run_reports_the_resolution_of_its_times() {
    let report = command_line("N,T,C,P\nt1,0.4,0.1,2\nt2,0.6,0.25,1\n", options(true, true)).unwrap();
    assert_eq!(report.places, 2);
    let verdicts = report.response_times.unwrap();
    assert_eq!(verdicts[0].response, Ok(10));
    // 25 + 10 = 35 -> 35 fits one period of t1
    assert_eq!(verdicts[1].response, Ok(35));
    assert_eq!(verdicts[1].deadline, 60);
    let utilisation = report.utilisation.unwrap().unwrap();
    assert_eq!(utilisation.numerator.to_u64(), Some(10 * 60 + 25 * 40));
    assert_eq!(utilisation.denominator.to_u64(), Some(40 * 60));
}
