use scheduling::error::AnalysisError;
use scheduling::input::{get_inp, resolution, set_column_order, Column};
use scheduling::text::{count_decimals, find, read_number, read_ticks, trim_bounds};

fn chars(s: &str) -> Vec<char> {
    s.chars().collect()
}

#[test]
fn header_names_the_columns_in_order() {
    assert_eq!(
        set_column_order("N, T ,D,C,P,CS".to_string()),
        Ok(vec![
            Column::Name,
            Column::Period,
            Column::Deadline,
            Column::ComputationTime,
            Column::Priority,
            Column::CriticalSections,
        ])
    );
    assert_eq!(set_column_order("C,T".to_string()), Ok(vec![Column::ComputationTime, Column::Period]));
}

#[test]
fn header_with_unknown_heading_is_malformed() {
    assert_eq!(set_column_order("N,T,X".to_string()), Err(AnalysisError::MalformedInput));
    assert_eq!(set_column_order("".to_string()), Err(AnalysisError::MalformedInput));
    assert_eq!(set_column_order("N,,T".to_string()), Err(AnalysisError::MalformedInput));
    assert_eq!(set_column_order("n".to_string()), Err(AnalysisError::MalformedInput));
}

#[test]
fn times_are_read_in_ticks() {
    let text = chars("12 2.5 0.125 7. 1.2345 .5 x 18446744073709551.615 18446744073709551.616 +3.25 +");
    assert_eq!(read_ticks(&text, 0, 2, 3), Some(12_000));
    assert_eq!(read_ticks(&text, 0, 2, 0), Some(12));
    assert_eq!(read_ticks(&text, 3, 6, 3), Some(2500));
    assert_eq!(read_ticks(&text, 3, 6, 1), Some(25));
    assert_eq!(read_ticks(&text, 3, 6, 0), None);
    assert_eq!(read_ticks(&text, 7, 12, 3), Some(125));
    assert_eq!(read_ticks(&text, 7, 12, 6), Some(125_000));
    assert_eq!(read_ticks(&text, 13, 15, 3), Some(7000));
    assert_eq!(read_ticks(&text, 16, 22, 3), None);
    assert_eq!(read_ticks(&text, 16, 22, 4), Some(12_345));
    assert_eq!(read_ticks(&text, 23, 25, 3), Some(500));
    assert_eq!(read_ticks(&text, 26, 27, 3), None);
    assert_eq!(read_ticks(&text, 28, 49, 3), Some(u64::MAX));
    assert_eq!(read_ticks(&text, 50, 71, 3), None);
    assert_eq!(read_ticks(&text, 72, 77, 2), Some(325));
    assert_eq!(read_ticks(&text, 78, 79, 2), None);
    assert_eq!(read_ticks(&text, 3, 3, 3), None);
    assert_eq!(read_ticks(&text, 4, 5, 3), None);
}

#[test]
fn decimal_places_are_counted_behind_the_point() {
    let text = chars("12 2.5 0.125 7. +3.25 .5");
    assert_eq!(count_decimals(&text, 0, 2), 0);
    assert_eq!(count_decimals(&text, 3, 6), 1);
    assert_eq!(count_decimals(&text, 7, 12), 3);
    assert_eq!(count_decimals(&text, 13, 15), 0);
    assert_eq!(count_decimals(&text, 16, 21), 2);
    assert_eq!(count_decimals(&text, 22, 24), 1);
    assert_eq!(count_decimals(&text, 5, 5), 0);
}

#[test]
fn a_file_is_read_at_the_resolution_of_its_finest_time() {
    let text = "N,T,C,P\na,10,2.5,1\nb, 0.125 ,+.0625,2\n";
    assert_eq!(resolution(text), 4);
    let tasks = get_inp(text, false).unwrap();
    assert_eq!((tasks[0].T, tasks[0].D, tasks[0].C), (100_000, 100_000, 25_000));
    assert_eq!((tasks[1].T, tasks[1].D, tasks[1].C), (1250, 1250, 625));
    // Priorities and names do not count, and whole numbers ask for nothing.
    assert_eq!(resolution("N,T,C,P\n1.5,10,2,7\n"), 0);
    assert_eq!(resolution("N,T,C\n"), 0);
    assert_eq!(resolution("Q\na,1.5\n"), 0);
    assert_eq!(resolution("T,D,C\n1,2.50,3\n4,5,6.125000\n"), 6);
    let fine = get_inp("N,T,C\na,10,1.0001\n", false).unwrap();
    assert_eq!((fine[0].T, fine[0].C), (100_000, 10_001));
}

#[test]
fn numbers_respect_their_limit() {
    let text = chars("4294967295 4294967296 007 1a");
    assert_eq!(read_number(&text, 0, 10, u32::MAX as u64), Some(4294967295));
    assert_eq!(read_number(&text, 11, 21, u32::MAX as u64), None);
    assert_eq!(read_number(&text, 11, 21, u64::MAX), Some(4294967296));
    assert_eq!(read_number(&text, 22, 25, 7), Some(7));
    assert_eq!(read_number(&text, 22, 25, 6), None);
    assert_eq!(read_number(&text, 26, 28, 100), None);
    assert_eq!(read_number(&text, 5, 5, 100), None);
}

#[test]
fn find_and_trim_give_places_in_the_whole_text() {
    let text = chars("ab, \tcd \r,e");
    assert_eq!(find(&text, 0, text.len(), ','), 2);
    assert_eq!(find(&text, 3, text.len(), ','), 9);
    assert_eq!(find(&text, 10, text.len(), ','), 11);
    assert_eq!(trim_bounds(&text, 3, 9), (5, 7));
    assert_eq!(trim_bounds(&text, 3, 5), (5, 5));
    assert_eq!(trim_bounds(&text, 0, 2), (0, 2));
}

#[test]
fn tasks_with_priorities_keep_them_and_their_order() {
    let tasks = get_inp("N,T,D,C,P\nlow, 6, 6, 2, 1\nhigh,4,4,1,2\n", false).unwrap();
    assert_eq!(tasks.len(), 2);
    assert_eq!(tasks[0].name, "low");
    assert_eq!((tasks[0].T, tasks[0].D, tasks[0].C, tasks[0].P), (6, 6, 2, 1));
    assert_eq!(tasks[1].name, "high");
    assert_eq!((tasks[1].T, tasks[1].D, tasks[1].C, tasks[1].P), (4, 4, 1, 2));
    assert!(tasks[0].critical_sections.is_none());
}

#[test]
fn missing_priorities_are_assigned_by_deadline() {
    let text = "N,T,D,C\na,10,9,1\nb,5,,1\nc,20,9,2\nd,8,0,1";
    let tasks = get_inp(text, false).unwrap();
    let seen: Vec<(String, u64, u32)> = tasks.iter().map(|t| (t.name.clone(), t.D, t.P)).collect();
    assert_eq!(
        seen,
        vec![
            ("b".to_string(), 5, 4),
            ("d".to_string(), 8, 3),
            ("a".to_string(), 9, 2),
            ("c".to_string(), 9, 1),
        ]
    );
}

#[test]
fn one_blank_priority_reassigns_all() {
    let tasks = get_inp("N,T,C,P\na,10,1,7\nb,5,1,\n", false).unwrap();
    assert_eq!((tasks[0].name.as_str(), tasks[0].P), ("b", 2));
    assert_eq!((tasks[1].name.as_str(), tasks[1].P), ("a", 1));
}

#[test]
fn implicit_deadlines_override_the_column() {
    let tasks = get_inp("N,T,D,C,P\na,10,3,1,1\r\nb,5,2,1,2\r\n", true).unwrap();
    assert_eq!(tasks[0].D, 10);
    assert_eq!(tasks[1].D, 5);
    assert_eq!(tasks[1].P, 2);
}

#[test]
fn critical_sections_are_carried_but_empty() {
    let tasks = get_inp("N,T,C,P,CS\na,10,1,1,r1:2\nb,5,1,2,\n", false).unwrap();
    assert_eq!(tasks[0].critical_sections.as_ref().map(|v| v.len()), Some(0));
    assert!(tasks[1].critical_sections.is_none());
}

#[test]
fn malformed_files_are_rejected() {
    let malformed = Err(AnalysisError::MalformedInput);
    assert_eq!(get_inp("", false).map(|v| v.len()), malformed);
    assert_eq!(get_inp("N,T,Q\n", false).map(|v| v.len()), malformed);
    assert_eq!(get_inp("N,T,C\na,ten,1\n", false).map(|v| v.len()), malformed);
    assert_eq!(get_inp("N,T,C\na,10\n", false).map(|v| v.len()), malformed);
    assert_eq!(get_inp("N,T,C\na,10,\n", false).map(|v| v.len()), malformed);
    assert_eq!(get_inp("N,T,C\na,0,1\n", false).map(|v| v.len()), malformed);
    assert_eq!(get_inp("N,T,C\na,10,0\n", false).map(|v| v.len()), malformed);
    assert_eq!(get_inp("N,C\na,1\n", false).map(|v| v.len()), malformed);
    assert_eq!(get_inp("N,T,C\na,10,1\n\nb,5,1\n", false).map(|v| v.len()), malformed);
    assert_eq!(get_inp("N,T,C,P\na,10,1,-1\n", false).map(|v| v.len()), malformed);
    assert_eq!(get_inp("N,T,C,D\na,10,1,x\n", false).map(|v| v.len()), malformed);
    assert_eq!(get_inp("N,T,C\na,10,1\na,5,1\n", false).map(|v| v.len()), malformed);
    assert_eq!(get_inp("N,T,C\na,1e,1\n", false).map(|v| v.len()), malformed);
    assert_eq!(get_inp("N,T,C\na,1e-,1\n", false).map(|v| v.len()), malformed);
    assert_eq!(get_inp("N,T,C\na,1e1000,1\n", false).map(|v| v.len()), malformed);
    assert_eq!(get_inp("N,T,C\na,1ee2,1\n", false).map(|v| v.len()), malformed);
    assert_eq!(get_inp("N,T,C\na,e2,1\n", false).map(|v| v.len()), malformed);
    assert_eq!(get_inp("N,T,C\na,1e20,1\n", false).map(|v| v.len()), malformed);
    assert_eq!(get_inp("N,T,C\na,inf,1\n", false).map(|v| v.len()), malformed);
    assert_eq!(get_inp("N,T,C\na,-10,1\n", false).map(|v| v.len()), malformed);
    assert_eq!(get_inp("N,T,C\na,1.2.3,1\n", false).map(|v| v.len()), malformed);
    assert_eq!(get_inp("N,T,C\na,.,1\n", false).map(|v| v.len()), malformed);
    assert_eq!(get_inp("N,T,C\na,++1,1\n", false).map(|v| v.len()), malformed);
    assert_eq!(get_inp("N,T,C\na,99999999999999999999,1\n", false).map(|v| v.len()), malformed);
}

#[test]
fn equal_given_priorities_collide() {
    assert_eq!(
        get_inp("N,T,C,P\na,10,1,3\nb,5,1,3\n", false).map(|v| v.len()),
        Err(AnalysisError::PriorityCollision)
    );
}

#[test]
fn header_alone_is_an_empty_set() {
    assert_eq!(get_inp("N,T,C", false).map(|v| v.len()), Ok(0));
    assert_eq!(get_inp("N,T,C\n", false).map(|v| v.len()), Ok(0));
}

#[test]
fn extra_fields_are_ignored_and_names_may_hold_any_text() {
    let tasks = get_inp("T,C,N\n10,1, tâche une ,extra,more\n", false).unwrap();
    assert_eq!(tasks.len(), 1);
    assert_eq!(tasks[0].name, "tâche une");
    assert_eq!(tasks[0].P, 1);
}

#[test]
fn times_may_carry_a_power_of_ten() {
    let text = chars("1e3 2.5e-1 1.5E+2 12.5e1 1e-2 0e5 +.5e1 1.25e1");
    assert_eq!(read_ticks(&text, 0, 3, 0), Some(1000));
    assert_eq!(read_ticks(&text, 0, 3, 2), Some(100_000));
    assert_eq!(count_decimals(&text, 0, 3), 0);
    assert_eq!(read_ticks(&text, 4, 10, 2), Some(25));
    assert_eq!(read_ticks(&text, 4, 10, 1), None);
    assert_eq!(count_decimals(&text, 4, 10), 2);
    assert_eq!(read_ticks(&text, 11, 17, 0), Some(150));
    assert_eq!(count_decimals(&text, 11, 17), 0);
    assert_eq!(read_ticks(&text, 18, 24, 0), Some(125));
    assert_eq!(read_ticks(&text, 18, 24, 1), Some(1250));
    assert_eq!(read_ticks(&text, 25, 29, 2), Some(1));
    assert_eq!(read_ticks(&text, 25, 29, 1), None);
    assert_eq!(count_decimals(&text, 25, 29), 2);
    assert_eq!(read_ticks(&text, 30, 33, 0), Some(0));
    assert_eq!(read_ticks(&text, 34, 39, 0), Some(5));
    assert_eq!(read_ticks(&text, 40, 46, 0), None);
    assert_eq!(read_ticks(&text, 40, 46, 1), Some(125));
    assert_eq!(count_decimals(&text, 40, 46), 1);
}

#[test]
fn a_file_may_mix_the_ways_of_writing_a_time() {
    let text = "N,T,D,C,P\na,1e1,+8.5,25e-1,1\nb,2E2,,.125e2,2\n";
    assert_eq!(resolution(text), 1);
    let tasks = get_inp(text, false).unwrap();
    assert_eq!((tasks[0].T, tasks[0].D, tasks[0].C), (100, 85, 25));
    assert_eq!((tasks[1].T, tasks[1].D, tasks[1].C), (2000, 2000, 125));
}
