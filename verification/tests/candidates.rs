use cifras_core::build_candidates_stack;
use cifras_core::Operation;
use cifras_core::SolutionStep;
use cifras_core::SolutionStepStack;

fn step(a: u64, op: Operation, b: u64, result: u64) -> SolutionStep {
    SolutionStep { result, a, b, op }
}

fn popped(mut stack: SolutionStepStack) -> Vec<SolutionStep> {
    let mut out = Vec::new();
    while let Ok(s) = stack.pop() {
        out.push(s);
    }
    out
}

#[test]
fn all_four_operations_in_pop_order() {
    let tried = popped(build_candidates_stack(12, 4));
    assert_eq!(
        tried,
        vec![
            step(12, Operation::Div, 4, 3),
            step(12, Operation::Mul, 4, 48),
            step(12, Operation::Sub, 4, 8),
            step(12, Operation::Add, 4, 16),
        ]
    );
}

#[test]
fn larger_operand_comes_first_in_subtraction_and_division() {
    let tried = popped(build_candidates_stack(4, 12));
    assert_eq!(
        tried,
        vec![
            step(12, Operation::Div, 4, 3),
            step(4, Operation::Mul, 12, 48),
            step(12, Operation::Sub, 4, 8),
            step(4, Operation::Add, 12, 16),
        ]
    );
}

#[test]
fn division_only_when_exact() {
    let tried = popped(build_candidates_stack(7, 3));
    assert_eq!(
        tried,
        vec![
            step(7, Operation::Mul, 3, 21),
            step(7, Operation::Sub, 3, 4),
            step(7, Operation::Add, 3, 10),
        ]
    );
}

#[test]
fn equal_operands_have_no_subtraction_and_divide_to_one() {
    let tried = popped(build_candidates_stack(25, 25));
    assert_eq!(
        tried,
        vec![
            step(25, Operation::Div, 25, 1),
            step(25, Operation::Mul, 25, 625),
            step(25, Operation::Add, 25, 50),
        ]
    );
    assert!(tried.iter().all(|s| s.op != Operation::Sub));
}

#[test]
fn an_operand_of_one_has_no_multiplication_and_no_division() {
    for (x, y) in [(1u64, 9u64), (9, 1), (1, 100), (100, 1)] {
        let tried = popped(build_candidates_stack(x, y));
        let hi = x.max(y);
        assert_eq!(
            tried,
            vec![step(hi, Operation::Sub, 1, hi - 1), step(x, Operation::Add, y, hi + 1)]
        );
    }
}

#[test]
fn two_ones_have_the_addition_only() {
    let tried = popped(build_candidates_stack(1, 1));
    assert_eq!(tried, vec![step(1, Operation::Add, 1, 2)]);
}

#[test]
fn addition_is_always_tried() {
    for x in 1u64..=30 {
        for y in 1u64..=30 {
            let tried = popped(build_candidates_stack(x, y));
            assert_eq!(*tried.last().unwrap(), step(x, Operation::Add, y, x + y));
            assert!(tried.iter().all(|s| s.result >= 1));
            for s in tried.iter() {
                match s.op {
                    Operation::Add => assert_eq!(s.result, s.a + s.b),
                    Operation::Sub => assert_eq!(s.result, s.a - s.b),
                    Operation::Mul => assert_eq!(s.result, s.a * s.b),
                    Operation::Div => assert_eq!(s.result * s.b, s.a),
                }
            }
        }
    }
}
