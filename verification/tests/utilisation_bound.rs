use scheduling::error::AnalysisError;
use scheduling::natural::Natural;
use scheduling::task::Task;
use scheduling::utilisation::{
    test_utilisation, total_utilisation, utilisation_bound, LL_utilissation, BOUND_PARTS,
};

fn task(name: &str, c: u64, t: u64) -> Task {
    Task { name: name.to_string(), T: t, D: t, C: c, P: 0, critical_sections: None }
}

/// The bound for `n` families in floating point.
fn bound(n: f64) -> f64 {
    n * (2f64.powf(1.0 / n) - 1.0)
}

#[test]
fn single_task_passes_the_utilisation_test() {
    let set = vec![task("only", 2, 10)];
    let verdict = test_utilisation(&set, false).unwrap();
    assert_eq!(verdict.numerator.to_u64(), Some(2));
    assert_eq!(verdict.denominator.to_u64(), Some(10));
    assert_eq!(verdict.families, 1);
    assert_eq!(verdict.bound, 1_000_000);
    assert!(verdict.pass);
    assert!(0.2 <= bound(1.0));
}

#[test]
fn two_task_classic_example_passes_the_utilisation_test() {
    let set = vec![task("t1", 1, 4), task("t2", 2, 6)];
    let verdict = LL_utilissation(&set, None).unwrap();
    assert_eq!(verdict.numerator.to_u64(), Some(14));
    assert_eq!(verdict.denominator.to_u64(), Some(24));
    assert_eq!(verdict.families, 2);
    assert_eq!(verdict.bound, 828_427);
    assert!(verdict.pass);
    assert!((bound(2.0) - 0.828).abs() < 1e-3);
    assert!(14.0 / 24.0 <= bound(2.0));
}

#[test]
fn bound_for_one_family_is_one() {
    assert!(LL_utilissation(&vec![task("full", 10, 10)], Some(1)).unwrap().pass);
    assert!(!LL_utilissation(&vec![task("over", 11, 10)], Some(1)).unwrap().pass);
    assert!(LL_utilissation(&vec![task("a", 1, 2), task("b", 1, 2)], Some(1)).unwrap().pass);
    assert!(!LL_utilissation(&vec![task("a", 1, 2), task("b", 2, 3)], Some(1)).unwrap().pass);
    assert_eq!(bound(1.0), 1.0);
}

#[test]
fn verdict_agrees_with_the_formula_on_both_sides_of_the_bound() {
    // n = 2: 0.8284..; n = 3: 0.7797..; n = 4: 0.7568..
    let cases: [(u64, u32, bool); 8] = [
        (828, 2, true),
        (829, 2, false),
        (779, 3, true),
        (780, 3, false),
        (756, 4, true),
        (757, 4, false),
        (693, 1000, true),
        (694, 1000, false),
    ];
    for (permille, families, expected) in cases {
        let set = vec![task("load", permille, 1000)];
        let verdict = LL_utilissation(&set, Some(families)).unwrap();
        assert_eq!(verdict.pass, expected, "{} per mille against {} families", permille, families);
        assert_eq!(permille as f64 / 1000.0 <= bound(families as f64), expected);
    }
}

#[test]
fn bound_falls_with_the_number_of_families_towards_ln_two() {
    let mut last = bound(1.0);
    for n in 2..200 {
        let next = bound(n as f64);
        assert!(next < last);
        last = next;
    }
    assert!((bound(1000.0) - 0.6934).abs() < 1e-3);
    assert!((bound(1000.0) - std::f64::consts::LN_2).abs() < 1e-3);
    // A load that passes for many families passes for fewer.
    let set = vec![task("a", 1, 3), task("b", 1, 3)];
    for n in 1..=12 {
        assert!(LL_utilissation(&set, Some(n)).unwrap().pass);
    }
    let set = vec![task("a", 3, 8), task("b", 3, 8)];
    let passes: Vec<bool> = (1..=6).map(|n| LL_utilissation(&set, Some(n)).unwrap().pass).collect();
    // 0.75 lies between the bounds for four and for five families.
    assert!(bound(5.0) < 0.75 && 0.75 < bound(4.0));
    assert_eq!(passes, vec![true, true, true, true, false, false]);
}

#[test]
fn zero_families_is_a_domain_error() {
    let set = vec![task("a", 1, 4)];
    assert_eq!(LL_utilissation(&set, Some(0)).map(|v| v.pass), Err(AnalysisError::DomainError));
    assert_eq!(LL_utilissation(&vec![], None).map(|v| v.pass), Err(AnalysisError::DomainError));
    assert_eq!(test_utilisation(&vec![], true).map(|v| v.pass), Err(AnalysisError::DomainError));
    assert_eq!(LL_utilissation(&vec![], Some(3)).map(|v| v.pass), Ok(true));
}

#[test]
fn task_without_period_is_a_domain_error() {
    let set = vec![task("a", 1, 4), task("b", 1, 0)];
    assert_eq!(LL_utilissation(&set, None).map(|v| v.pass), Err(AnalysisError::DomainError));
    assert_eq!(test_utilisation(&set, false).map(|v| v.pass), Err(AnalysisError::DomainError));
}

#[test]
fn families_flag_counts_every_task_as_a_family() {
    let set = vec![task("t1", 1, 4), task("t2", 2, 6), task("t3", 1, 10)];
    let with = test_utilisation(&set, true).unwrap();
    let without = test_utilisation(&set, false).unwrap();
    assert_eq!(with.families, 3);
    assert_eq!(without.families, 3);
    assert_eq!(with.pass, without.pass);
    assert!(with.pass);
}

#[test]
fn total_utilisation_is_exact_for_large_periods() {
    let big = u64::MAX;
    let set = vec![task("a", 1, big), task("b", 1, big), task("c", 1, big)];
    let (numerator, denominator) = total_utilisation(&set);
    // 3 * big^2 over big^3
    let square = Natural::from_u64(big).times(&Natural::from_u64(big));
    let expected_numerator = Natural::from_u64(3).times(&square);
    let expected_denominator = square.times(&Natural::from_u64(big));
    assert!(numerator.at_most(&expected_numerator) && expected_numerator.at_most(&numerator));
    assert!(denominator.at_most(&expected_denominator) && expected_denominator.at_most(&denominator));
    assert_eq!(numerator.to_u64(), None);
    assert!(test_utilisation(&set, false).unwrap().pass);
}

#[test]
fn naturals_add_multiply_and_compare() {
    let a = Natural::from_u64(u64::MAX);
    let one = Natural::from_u64(1);
    let sum = a.plus(&one);
    assert_eq!(sum.to_u64(), None);
    assert!(a.at_most(&sum));
    assert!(!sum.at_most(&a));
    assert!(a.at_most(&a));
    assert_eq!(Natural::from_u64(0).to_u64(), Some(0));
    assert_eq!(Natural::from_u64(u64::MAX).to_u64(), Some(u64::MAX));
    assert_eq!(Natural::from_u64(123_456_789).times(&Natural::from_u64(1_000_000_007)).to_u64(),
        Some(123_456_789 * 1_000_000_007));
    assert_eq!(Natural::from_u64(1 << 40).plus(&Natural::from_u64(1 << 40)).to_u64(), Some(1 << 41));
    assert_eq!(sum.times(&Natural::from_u64(0)).to_u64(), Some(0));
    // (2^64)^2 = 2^128 > (2^64 - 1) * (2^64 + 1)
    let square = sum.times(&sum);
    let product = a.times(&sum.plus(&one));
    assert!(product.at_most(&square));
    assert!(!square.at_most(&product));
    assert!(product.plus(&one).at_most(&square) && square.at_most(&product.plus(&one)));
}

#[test]
fn bound_in_millionths_matches_the_formula() {
    assert_eq!(BOUND_PARTS, 1_000_000);
    assert_eq!(utilisation_bound(1), Ok(1_000_000));
    assert_eq!(utilisation_bound(2), Ok(828_427));
    assert_eq!(utilisation_bound(3), Ok(779_763));
    assert_eq!(utilisation_bound(4), Ok(756_828));
    for n in 1..=40u64 {
        let expected = (bound(n as f64) * BOUND_PARTS as f64).floor() as u64;
        assert_eq!(utilisation_bound(n), Ok(expected), "{} families", n);
    }
    assert_eq!(utilisation_bound(0), Err(AnalysisError::DomainError));
}

#[test]
fn bound_in_millionths_falls_towards_ln_two() {
    let mut last = utilisation_bound(1).unwrap();
    for n in 2..=60u64 {
        let next = utilisation_bound(n).unwrap();
        assert!(next < last, "{} families", n);
        last = next;
    }
    let far = utilisation_bound(1000).unwrap();
    assert_eq!(far, 693_387);
    assert!(far < last);
    assert!((far as f64 / BOUND_PARTS as f64 - 0.6934).abs() < 1e-3);
    assert!((far as f64 / BOUND_PARTS as f64 - std::f64::consts::LN_2).abs() < 1e-3);
}

#[test]
fn half_the_processor_passes_for_any_number_of_families() {
    let set = vec![task("a", 1, 4), task("b", 1, 4)];
    for n in 1..=64 {
        assert!(LL_utilissation(&set, Some(n)).unwrap().pass, "{} families", n);
    }
    assert!(utilisation_bound(500).unwrap() >= BOUND_PARTS / 2);
    assert!(LL_utilissation(&vec![task("a", 1, 2)], Some(1000)).unwrap().pass);
}

#[test]
fn between_two_family_counts_some_load_passes_one_and_fails_the_next() {
    // 0.8 lies between the bounds for two and three families, 0.77 between three and four.
    let set = vec![task("a", 4, 5)];
    assert!(LL_utilissation(&set, Some(2)).unwrap().pass);
    assert!(!LL_utilissation(&set, Some(3)).unwrap().pass);
    let set = vec![task("a", 77, 100)];
    assert!(LL_utilissation(&set, Some(3)).unwrap().pass);
    assert!(!LL_utilissation(&set, Some(4)).unwrap().pass);
    // 0.6933874 lies between the bounds for 999 and 1000 families, though both round to 693387.
    let set = vec![task("a", 6_933_877, 10_000_000)];
    assert_eq!(utilisation_bound(999), utilisation_bound(1000));
    assert!(LL_utilissation(&set, Some(999)).unwrap().pass);
    assert!(!LL_utilissation(&set, Some(1000)).unwrap().pass);
}
