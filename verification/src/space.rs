//! The search space: the trails that can be walked from a set of numbers.

use crate::bound::factor;
use crate::bound::lemma_reduce_within_bound;
use crate::bound::upper_bound;
use crate::candidates::is_candidate;
use crate::numbers::all_positive;
use crate::numbers::reduce;
use crate::step::SolutionStep;
use vstd::prelude::*;

verus! {

/// Whether `steps` can be walked from `numbers`: each step combines two of
/// the numbers that are left when it is taken, and is one of the steps that
/// are tried on them. The empty walk is always possible.
pub open spec fn reachable(numbers: Seq<u64>, steps: Seq<SolutionStep>) -> bool
    decreases steps.len(),
{
    steps.len() == 0 || exists|i: int, j: int|
        0 <= i < j < numbers.len() && is_candidate(numbers[i], numbers[j], steps[0])
            && reachable(
            #[trigger] reduce(numbers, i, j, steps[0].result),
            steps.drop_first(),
        )
}

/// A walk that starts with `step` on the numbers at `i` and `j` and goes on
/// with `rest` is a walk.
pub proof fn lemma_reachable_cons(
    numbers: Seq<u64>,
    i: int,
    j: int,
    step: SolutionStep,
    rest: Seq<SolutionStep>,
)
    requires
        0 <= i < j < numbers.len(),
        is_candidate(numbers[i], numbers[j], step),
        reachable(reduce(numbers, i, j, step.result), rest),
    ensures
        reachable(numbers, seq![step] + rest),
{
    let steps = seq![step] + rest;
    assert(steps[0] == step);
    assert(steps.drop_first() =~= rest);
    assert(reachable(reduce(numbers, i, j, steps[0].result), steps.drop_first()));
}

/// A walk takes one step for each number it uses up: from `m` numbers at most
/// `m - 1` steps, and none from a single number.
pub proof fn lemma_reachable_length(numbers: Seq<u64>, steps: Seq<SolutionStep>)
    requires
        reachable(numbers, steps),
    ensures
        steps.len() == 0 || steps.len() < numbers.len(),
    decreases steps.len(),
{
    if steps.len() > 0 {
        let (i, j) = choose|i: int, j: int|
            0 <= i < j < numbers.len() && is_candidate(numbers[i], numbers[j], steps[0])
                && reachable(
                #[trigger] reduce(numbers, i, j, steps[0].result),
                steps.drop_first(),
            );
        lemma_reachable_length(reduce(numbers, i, j, steps[0].result), steps.drop_first());
    }
}

/// Along a walk from positive numbers whose bound is a machine integer, every
/// step computes what its operation says, and no result exceeds the bound of
/// the numbers that the walk started from.
pub proof fn lemma_reachable_within_bound(numbers: Seq<u64>, steps: Seq<SolutionStep>)
    requires
        all_positive(numbers),
        upper_bound(numbers) <= u64::MAX,
        reachable(numbers, steps),
    ensures
        forall|k: int|
            0 <= k < steps.len() ==> (#[trigger] steps[k]).is_sound() && steps[k].result
                <= upper_bound(numbers),
    decreases steps.len(),
{
    if steps.len() > 0 {
        let (i, j) = choose|i: int, j: int|
            0 <= i < j < numbers.len() && is_candidate(numbers[i], numbers[j], steps[0])
                && reachable(
                #[trigger] reduce(numbers, i, j, steps[0].result),
                steps.drop_first(),
            );
        let left = reduce(numbers, i, j, steps[0].result);
        lemma_reduce_within_bound(numbers, i, j, steps[0]);
        lemma_reachable_within_bound(left, steps.drop_first());
        assert(steps[0].result <= factor(steps[0].result));
        assert forall|k: int| 0 <= k < steps.len() implies (#[trigger] steps[k]).is_sound()
            && steps[k].result <= upper_bound(numbers) by {
            if k > 0 {
                assert(steps[k] == steps.drop_first()[k - 1]);
            }
        }
    }
}

} // verus!
