//! The steps worth trying on a pair of numbers.

use crate::step::Operation;
use crate::step::SolutionStep;
use crate::trail::SolutionStepStack;
use vstd::prelude::*;

verus! {

/// The larger of two operands.
pub open spec fn larger(x: u64, y: u64) -> u64 {
    if x >= y {
        x
    } else {
        y
    }
}

/// The smaller of two operands.
pub open spec fn smaller(x: u64, y: u64) -> u64 {
    if x >= y {
        y
    } else {
        x
    }
}

/// The addition of the two operands, in the order given.
pub open spec fn sum_step(x: u64, y: u64) -> SolutionStep {
    SolutionStep { result: (x + y) as u64, a: x, b: y, op: Operation::Add }
}

/// The subtraction of the smaller operand from the larger one; none for equal
/// operands, whose difference is no number of the puzzle.
pub open spec fn difference_steps(x: u64, y: u64) -> Seq<SolutionStep> {
    if x == y {
        seq![]
    } else {
        seq![
            SolutionStep {
                result: (larger(x, y) - smaller(x, y)) as u64,
                a: larger(x, y),
                b: smaller(x, y),
                op: Operation::Sub,
            },
        ]
    }
}

/// The multiplication of the two operands, in the order given; none where one
/// of them is 1.
pub open spec fn product_steps(x: u64, y: u64) -> Seq<SolutionStep> {
    if x == 1 || y == 1 {
        seq![]
    } else {
        seq![SolutionStep { result: (x * y) as u64, a: x, b: y, op: Operation::Mul }]
    }
}

/// The division of the larger operand by the smaller one; none where one of
/// them is 1 or where the division leaves a remainder.
pub open spec fn quotient_steps(x: u64, y: u64) -> Seq<SolutionStep> {
    if x == 1 || y == 1 || smaller(x, y) == 0 || larger(x, y) % smaller(x, y) != 0 {
        seq![]
    } else {
        seq![
            SolutionStep {
                result: larger(x, y) / smaller(x, y),
                a: larger(x, y),
                b: smaller(x, y),
                op: Operation::Div,
            },
        ]
    }
}

/// The steps that combine `x` and `y`, in the order in which they are stacked:
/// the addition, then the subtraction, the multiplication and the division,
/// as far as each applies. They are taken off the stack in the reverse order.
pub open spec fn candidates(x: u64, y: u64) -> Seq<SolutionStep> {
    seq![sum_step(x, y)] + difference_steps(x, y) + product_steps(x, y) + quotient_steps(x, y)
}

/// Whether `step` is one of the steps that combine `x` and `y`.
pub open spec fn is_candidate(x: u64, y: u64, step: SolutionStep) -> bool {
    candidates(x, y).contains(step)
}

/// The operands are numbers of the puzzle and their sum and, where it is
/// computed, their product fit the machine's integers.
pub open spec fn combinable(x: u64, y: u64) -> bool {
    &&& x >= 1
    &&& y >= 1
    &&& x + y <= u64::MAX
    &&& (x != 1 && y != 1 ==> x * y <= u64::MAX)
}

/// Stacks the steps that combine `op1` and `op2`.
pub fn build_candidates_stack(op1: u64, op2: u64) -> (stack: SolutionStepStack)
    requires
        combinable(op1, op2),
    ensures
        stack@ == candidates(op1, op2),
{
    let mut stack: SolutionStepStack = SolutionStepStack::new();

    stack.push(&SolutionStep { a: op1, b: op2, result: op1 + op2, op: Operation::Add }).unwrap();

    if op1 > op2 {
        stack.push(
            &SolutionStep { a: op1, b: op2, result: op1 - op2, op: Operation::Sub },
        ).unwrap();
    } else if op1 < op2 {
        stack.push(
            &SolutionStep { a: op2, b: op1, result: op2 - op1, op: Operation::Sub },
        ).unwrap();
    }
    assert(stack@ == seq![sum_step(op1, op2)] + difference_steps(op1, op2));

    if op1 == 1 || op2 == 1 {
        assert(stack@ == candidates(op1, op2));
        return stack;
    }
    stack.push(&SolutionStep { a: op1, b: op2, result: op1 * op2, op: Operation::Mul }).unwrap();
    assert(stack@ == seq![sum_step(op1, op2)] + difference_steps(op1, op2) + product_steps(
        op1,
        op2,
    ));

    if op1 == op2 {
        assert(op1 % op1 == 0 && op1 / op1 == 1) by (nonlinear_arith)
            requires
                op1 >= 1,
        ;
        stack.push(&SolutionStep { a: op1, b: op2, result: 1, op: Operation::Div }).unwrap();
    } else if op1 > op2 && op1 % op2 == 0 {
        stack.push(
            &SolutionStep { a: op1, b: op2, result: op1 / op2, op: Operation::Div },
        ).unwrap();
    } else if op2 > op1 && op2 % op1 == 0 {
        stack.push(
            &SolutionStep { a: op2, b: op1, result: op2 / op1, op: Operation::Div },
        ).unwrap();
    }
    assert(stack@ == candidates(op1, op2));
    stack
}

/// The addition is always tried, and it is tried first.
pub proof fn lemma_addition_always_tried(x: u64, y: u64)
    ensures
        is_candidate(x, y, sum_step(x, y)),
        candidates(x, y)[0] == sum_step(x, y),
        1 <= candidates(x, y).len() <= 4,
{
    assert(candidates(x, y)[0] == sum_step(x, y));
}

/// On equal operands no subtraction is tried, and the division that is tried
/// has the result 1.
pub proof fn lemma_candidates_of_equal_operands(x: u64, step: SolutionStep)
    requires
        is_candidate(x, x, step),
    ensures
        step.op != Operation::Sub,
        step.op == Operation::Div ==> step.result == 1,
{
    if x >= 1 {
        assert(x / x == 1) by (nonlinear_arith)
            requires
                x >= 1,
        ;
    }
}

/// Where one of the operands is 1, neither a multiplication nor a division is
/// tried.
pub proof fn lemma_candidates_with_one(x: u64, y: u64, step: SolutionStep)
    requires
        x == 1 || y == 1,
        is_candidate(x, y, step),
    ensures
        step.op != Operation::Mul,
        step.op != Operation::Div,
{
}

/// Of each operation at most one step is tried, and a subtraction and a
/// division have the larger operand first.
pub proof fn lemma_candidates_are_canonical(x: u64, y: u64, step: SolutionStep, other: SolutionStep)
    requires
        is_candidate(x, y, step),
        is_candidate(x, y, other),
    ensures
        step.op == other.op ==> step == other,
        step.op == Operation::Sub ==> step.a > step.b,
        step.op == Operation::Div ==> step.a >= step.b,
{
}

} // verus!
