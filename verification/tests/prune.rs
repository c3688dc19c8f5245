use cifras_core::prunable_length;
use cifras_core::prunable_upper_value;
use cifras_core::Operation;
use cifras_core::SolutionStep;
use cifras_core::SolutionStepStack;

fn step(a: u64, op: Operation, b: u64, result: u64) -> SolutionStep {
    SolutionStep { result, a, b, op }
}

fn trail_of(steps: &[SolutionStep]) -> SolutionStepStack {
    let mut trail = SolutionStepStack::new();
    for s in steps {
        trail.push(s).unwrap();
    }
    trail
}

#[test]
fn length_cutoff_needs_a_best_trail() {
    let current = trail_of(&[step(1, Operation::Add, 1, 2)]);
    let best = SolutionStepStack::new();
    assert!(!prunable_length(&current, &best, 2));
    assert!(!prunable_length(&best, &best, 2));
}

#[test]
fn length_cutoff_needs_an_exact_best() {
    let current = trail_of(&[step(1, Operation::Add, 1, 2), step(2, Operation::Add, 3, 5)]);
    let best = trail_of(&[step(50, Operation::Mul, 2, 100)]);
    assert!(!prunable_length(&current, &best, 101));
    assert!(prunable_length(&current, &best, 100));
}

#[test]
fn length_cutoff_spares_shorter_trails() {
    let best = trail_of(&[step(25, Operation::Add, 25, 50), step(50, Operation::Add, 50, 100)]);
    let shorter = trail_of(&[step(3, Operation::Add, 4, 7)]);
    let as_long = trail_of(&[step(3, Operation::Add, 4, 7), step(7, Operation::Add, 1, 8)]);
    let empty = SolutionStepStack::new();
    assert!(!prunable_length(&empty, &best, 100));
    assert!(!prunable_length(&shorter, &best, 100));
    assert!(prunable_length(&as_long, &best, 100));
}

#[test]
fn upper_bound_cutoff_needs_a_best_trail() {
    let best = SolutionStepStack::new();
    assert!(!prunable_upper_value(&[1, 1, 1, 0, 0, 0], 3, 999, &best));
}

#[test]
fn upper_bound_cutoff_counts_ones_as_twos() {
    // bound of 1, 1, 2 is 2 * 2 * 2 = 8; 999 - 8 = 991
    let numbers = [1, 1, 2, 0, 0, 0];
    let at_990 = trail_of(&[step(3, Operation::Mul, 3, 9)]);
    assert!(prunable_upper_value(&numbers, 3, 999, &at_990));
    let at_991 = trail_of(&[step(4, Operation::Mul, 2, 8)]);
    assert!(!prunable_upper_value(&numbers, 3, 999, &at_991));
    let at_992 = trail_of(&[step(5, Operation::Add, 2, 7)]);
    assert!(!prunable_upper_value(&numbers, 3, 999, &at_992));
}

#[test]
fn upper_bound_cutoff_looks_at_the_pending_numbers_only() {
    let best = trail_of(&[step(100, Operation::Add, 1, 101)]);
    // 3 * 4 = 12, far below 200; the 100 behind the count is not pending
    assert!(prunable_upper_value(&[3, 4, 100, 0, 0, 0], 2, 200, &best));
    // 3 * 4 * 100 = 1200 exceeds 200
    assert!(!prunable_upper_value(&[3, 4, 100, 0, 0, 0], 3, 200, &best));
}

#[test]
fn upper_bound_cutoff_does_not_fire_when_the_bound_exceeds_the_target() {
    let best = trail_of(&[step(100, Operation::Add, 1, 101)]);
    assert!(!prunable_upper_value(&[100, 75, 50, 25, 6, 3], 6, 952, &best));
    assert!(!prunable_upper_value(&[10, 10, 10, 0, 0, 0], 3, 999, &best));
}

#[test]
fn upper_bound_cutoff_at_the_target_itself() {
    // bound 10 * 10 = 100 equals the target: distance 0 is never farther
    let best = trail_of(&[step(50, Operation::Add, 49, 99)]);
    assert!(!prunable_upper_value(&[10, 10, 0, 0, 0, 0], 2, 100, &best));
}

#[test]
fn upper_bound_cutoff_survives_a_product_beyond_the_machine() {
    let best = trail_of(&[step(1, Operation::Add, 1, 2)]);
    let huge = u64::MAX / 2;
    assert!(!prunable_upper_value(&[huge, huge, huge, 0, 0, 0], 3, u64::MAX, &best));
}
