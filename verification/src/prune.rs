//! The two cutoffs that end a branch of the search before it is walked, and
//! why nothing is lost where they fire.

use crate::bound::factor;
use crate::bound::lemma_upper_bound_prefix;
use crate::bound::upper_bound;
use crate::explore::dominates;
use crate::numbers::all_positive;
use crate::space::lemma_reachable_length;
use crate::space::lemma_reachable_within_bound;
use crate::space::reachable;
use crate::step::SolutionStep;
use crate::trail::better;
use crate::trail::distance;
use crate::trail::distance_to;
use crate::trail::SolutionStepStack;
use crate::trail::NUM_COUNT;
use vstd::prelude::*;

verus! {

/// The length cutoff: the best trail reaches the target exactly, and the
/// current trail is already as long as it.
pub open spec fn length_cutoff(
    current: Seq<SolutionStep>,
    best: Seq<SolutionStep>,
    target: u64,
) -> bool {
    &&& best.len() > 0
    &&& best.last().result == target
    &&& current.len() >= best.len()
}

/// The bound stays at or below `target` while the numbers are multiplied
/// into it one after the other.
pub open spec fn never_exceeds(numbers: Seq<u64>, target: u64) -> bool {
    forall|k: int| 1 <= k <= numbers.len() ==> upper_bound(#[trigger] numbers.take(k)) <= target
}

/// The upper-bound cutoff: there is a best trail, the bound of the pending
/// numbers never exceeds the target, and it stays farther below the target
/// than the best trail's result is away from it.
pub open spec fn upper_value_cutoff(
    numbers: Seq<u64>,
    target: u64,
    best: Seq<SolutionStep>,
) -> bool {
    &&& best.len() > 0
    &&& never_exceeds(numbers, target)
    &&& target - upper_bound(numbers) > distance(best.last().result, target)
}

/// Of positive numbers the bound only grows as they are multiplied into it:
/// it never exceeds the target where the bound of them all does not.
pub proof fn lemma_never_exceeds_of_positive(numbers: Seq<u64>, target: u64)
    requires
        all_positive(numbers),
        numbers.len() >= 1,
    ensures
        never_exceeds(numbers, target) <==> upper_bound(numbers) <= target,
{
    assert(numbers.take(numbers.len() as int) =~= numbers);
    if upper_bound(numbers) <= target {
        assert forall|k: int| 1 <= k <= numbers.len() implies upper_bound(
            #[trigger] numbers.take(k),
        ) <= target by {
            lemma_upper_bound_prefix(numbers, k);
        }
    }
}

/// The length cutoff is safe: where it fires, and the current trail itself
/// is no better than the best, nothing that goes on from the current trail
/// is.
pub proof fn lemma_length_cutoff_is_safe(
    numbers: Seq<u64>,
    current: Seq<SolutionStep>,
    best: Seq<SolutionStep>,
    target: u64,
)
    requires
        !better(current, best, target),
        length_cutoff(current, best, target),
    ensures
        dominates(best, numbers, current, target),
{
    assert forall|rest: Seq<SolutionStep>| #[trigger] reachable(numbers, rest) implies !better(
        current + rest,
        best,
        target,
    ) by {
        if rest.len() == 0 {
            assert(current + rest =~= current);
        }
    }
}

/// The upper-bound cutoff is safe: where it fires on positive numbers whose
/// bound is a machine integer, and the current trail itself is no better
/// than the best, nothing that goes on from the current trail is. Counting a
/// 1 as a 2 in the bound cuts off no branch that holds a better trail.
pub proof fn lemma_upper_value_cutoff_is_safe(
    numbers: Seq<u64>,
    current: Seq<SolutionStep>,
    best: Seq<SolutionStep>,
    target: u64,
)
    requires
        all_positive(numbers),
        upper_bound(numbers) <= u64::MAX,
        !better(current, best, target),
        upper_value_cutoff(numbers, target, best),
    ensures
        dominates(best, numbers, current, target),
{
    assert forall|rest: Seq<SolutionStep>| #[trigger] reachable(numbers, rest) implies !better(
        current + rest,
        best,
        target,
    ) by {
        if rest.len() == 0 {
            assert(current + rest =~= current);
        } else {
            lemma_reachable_length(numbers, rest);
            assert(numbers.take(numbers.len() as int) =~= numbers);
            lemma_reachable_within_bound(numbers, rest);
            assert((current + rest).last() == rest[rest.len() - 1]);
        }
    }
}

/// Whether the length cutoff fires: an exact solution is known, and the
/// current trail is not shorter than it.
pub fn prunable_length(
    current_steps: &SolutionStepStack,
    best_steps: &SolutionStepStack,
    target: u64,
) -> (fires: bool)
    ensures
        fires == length_cutoff(current_steps@, best_steps@, target),
{
    match best_steps.result() {
        None => false,
        Some(value) => value == target && current_steps.count() >= best_steps.count(),
    }
}

/// Whether the upper-bound cutoff fires on the first `numbers_count` numbers:
/// all that they can still be combined into lies below the target, farther
/// from it than the best result.
pub fn prunable_upper_value(
    numbers: &[u64; NUM_COUNT],
    numbers_count: usize,
    target: u64,
    best_steps: &SolutionStepStack,
) -> (fires: bool)
    requires
        1 <= numbers_count <= NUM_COUNT,
    ensures
        fires == upper_value_cutoff(numbers@.take(numbers_count as int), target, best_steps@),
{
    let best_value: u64 = match best_steps.result() {
        None => {
            return false;
        },
        Some(value) => value,
    };
    let ghost pending = numbers@.take(numbers_count as int);
    let mut upper_value: u64 = 1;
    for i in 0..numbers_count
        invariant
            1 <= numbers_count <= NUM_COUNT,
            pending == numbers@.take(numbers_count as int),
            upper_value == upper_bound(pending.take(i as int)),
            forall|k: int| 1 <= k <= i ==> upper_bound(#[trigger] pending.take(k)) <= target,
    {
        let contribution: u64 = if numbers[i] == 1 {
            2
        } else {
            numbers[i]
        };
        proof {
            let next = pending.take(i + 1);
            assert(next.drop_last() =~= pending.take(i as int));
            assert(next.last() == numbers@[i as int]);
            assert(upper_bound(next) == upper_value * factor(numbers@[i as int]));
        }
        match upper_value.checked_mul(contribution) {
            None => {
                return false;
            },
            Some(product) => {
                upper_value = product;
            },
        }
        if upper_value > target {
            return false;
        }
    }
    assert(pending.take(numbers_count as int) =~= pending);
    let upper_value_diff: u64 = target - upper_value;
    let best_diff: u64 = distance_to(best_value, target);
    upper_value_diff > best_diff
}

} // verus!
