//! The backtracking search, and what it is proved to find.

use crate::bound::factor;
use crate::bound::lemma_reduce_within_bound;
use crate::bound::lemma_upper_bound_prefix;
use crate::bound::upper_bound;
use crate::candidates::build_candidates_stack;
use crate::candidates::candidates;
use crate::candidates::is_candidate;
use crate::derivation::derivable;
use crate::derivation::lemma_derivation_is_walked;
use crate::explore::explore;
use crate::explore::explore_pairs;
use crate::explore::explore_steps;
use crate::explore::lemma_explore_keeps_best;
use crate::explore::lemma_pairs_dominated;
use crate::input::valid_numbers;
use crate::numbers::all_positive;
use crate::numbers::build_next_numbers;
use crate::numbers::reduce;
use crate::prune::lemma_length_cutoff_is_safe;
use crate::prune::lemma_upper_value_cutoff_is_safe;
use crate::prune::prunable_length;
use crate::prune::prunable_upper_value;
use crate::space::lemma_reachable_cons;
use crate::space::lemma_reachable_length;
use crate::space::lemma_reachable_within_bound;
use crate::space::reachable;
use crate::step::SolutionStep;
use crate::trail::better;
use crate::trail::distance;
use crate::trail::SolutionStepStack;
use crate::trail::NUM_COUNT;
use vstd::prelude::*;

verus! {

/// What the search needs of the numbers it starts from: they are positive,
/// and their bound, which no result of a step exceeds, is a machine integer.
pub open spec fn searchable(numbers: Seq<u64>) -> bool {
    all_positive(numbers) && upper_bound(numbers) <= u64::MAX
}

/// The numbers of a puzzle can be searched: their bound is at most a hundred
/// to the power of their count.
pub proof fn lemma_valid_numbers_searchable(numbers: Seq<u64>)
    requires
        valid_numbers(numbers),
    ensures
        searchable(numbers),
        upper_bound(numbers) <= 1_000_000_000_000,
{
    assert(numbers.take(0).len() == 0);
    lemma_next_bound(numbers, 0, 1);
    lemma_next_bound(numbers, 1, 100);
    lemma_next_bound(numbers, 2, 10_000);
    lemma_next_bound(numbers, 3, 1_000_000);
    lemma_next_bound(numbers, 4, 100_000_000);
    lemma_next_bound(numbers, 5, 10_000_000_000);
    assert(numbers.take(6) =~= numbers);
}

proof fn lemma_next_bound(numbers: Seq<u64>, k: int, limit: nat)
    requires
        valid_numbers(numbers),
        0 <= k < numbers.len(),
        upper_bound(numbers.take(k)) <= limit,
    ensures
        upper_bound(numbers.take(k + 1)) <= limit * 100,
{
    let longer = numbers.take(k + 1);
    assert(longer.drop_last() =~= numbers.take(k));
    assert(longer.last() == numbers[k]);
    let rest = upper_bound(numbers.take(k));
    let last = factor(numbers[k]);
    assert(rest * last <= limit * 100) by (nonlinear_arith)
        requires
            rest <= limit,
            last <= 100,
    ;
}

/// Whether the numbers can be searched.
pub fn can_search(numbers: &[u64; NUM_COUNT]) -> (yes: bool)
    ensures
        yes == searchable(numbers@),
{
    let mut bound: u64 = 1;
    for i in 0..NUM_COUNT
        invariant
            all_positive(numbers@.take(i as int)),
            bound == upper_bound(numbers@.take(i as int)),
    {
        if numbers[i] == 0 {
            return false;
        }
        let contribution: u64 = if numbers[i] == 1 {
            2
        } else {
            numbers[i]
        };
        proof {
            let longer = numbers@.take(i + 1);
            assert(longer.drop_last() =~= numbers@.take(i as int));
            assert(longer.last() == numbers@[i as int]);
            if all_positive(numbers@) {
                lemma_upper_bound_prefix(numbers@, i + 1);
            }
        }
        bound = match bound.checked_mul(contribution) {
            None => {
                return false;
            },
            Some(product) => product,
        };
    }
    assert(numbers@.take(NUM_COUNT as int) =~= numbers@);
    true
}

/// The solution of a puzzle: the trail that the exhaustive walk from
/// `numbers` keeps, starting with nothing.
pub open spec fn solution(numbers: Seq<u64>, target: u64) -> Seq<SolutionStep> {
    explore(numbers, Seq::<SolutionStep>::empty(), Seq::<SolutionStep>::empty(), target)
}

/// `best` is a best solution that `numbers` have for `target`: a walk from
/// them, and no walk from them is strictly better.
pub open spec fn is_best(best: Seq<SolutionStep>, numbers: Seq<u64>, target: u64) -> bool {
    &&& reachable(numbers, best)
    &&& forall|other: Seq<SolutionStep>| #[trigger]
        reachable(numbers, other) ==> !better(other, best, target)
}

/// Walks every trail that goes on from `current_steps` by combining the
/// first `numbers_count` of `numbers`, but for the branches that a cutoff
/// shows to hold nothing better, and leaves in `best_steps` what the
/// exhaustive walk keeps: the trail held before, unless a strictly better
/// one is met, and then the first such that nothing met later beats.
pub fn cifras_bt(
    numbers: &[u64; NUM_COUNT],
    numbers_count: usize,
    target: u64,
    current_steps: &SolutionStepStack,
    best_steps: &mut SolutionStepStack,
)
    requires
        1 <= numbers_count <= NUM_COUNT,
        current_steps@.len() + numbers_count <= NUM_COUNT,
        searchable(numbers@.take(numbers_count as int)),
    ensures
        final(best_steps)@ == explore(
            numbers@.take(numbers_count as int),
            current_steps@,
            old(best_steps)@,
            target,
        ),
    decreases numbers_count,
{
    let ghost pending = numbers@.take(numbers_count as int);
    let ghost current = current_steps@;
    let ghost goal = explore(pending, current, best_steps@, target);

    if current_steps.is_better_than(best_steps, target) {
        *best_steps = *current_steps;
    }
    assert(goal == explore_pairs(pending, current, best_steps@, target, 0, 1));
    if numbers_count == 1 {
        return ;
    }
    if prunable_length(current_steps, best_steps, target) {
        proof {
            lemma_length_cutoff_is_safe(pending, current, best_steps@, target);
            lemma_pairs_dominated(pending, current, best_steps@, target, 0, 1);
        }
        return ;
    }
    if prunable_upper_value(numbers, numbers_count, target, best_steps) {
        proof {
            lemma_upper_value_cutoff_is_safe(pending, current, best_steps@, target);
            lemma_pairs_dominated(pending, current, best_steps@, target, 0, 1);
        }
        return ;
    }
    for i in 0..numbers_count
        invariant
            2 <= numbers_count <= NUM_COUNT,
            current_steps@.len() + numbers_count <= NUM_COUNT,
            pending == numbers@.take(numbers_count as int),
            current == current_steps@,
            searchable(pending),
            goal == explore_pairs(pending, current, best_steps@, target, i as int, i + 1),
    {
        for j in (i + 1)..numbers_count
            invariant
                2 <= numbers_count <= NUM_COUNT,
                i < numbers_count,
                current_steps@.len() + numbers_count <= NUM_COUNT,
                pending == numbers@.take(numbers_count as int),
                current == current_steps@,
                searchable(pending),
                goal == explore_pairs(pending, current, best_steps@, target, i as int, j as int),
        {
            let ghost tried = candidates(pending[i as int], pending[j as int]);
            proof {
                assert(is_candidate(pending[i as int], pending[j as int], tried[0]));
                lemma_reduce_within_bound(pending, i as int, j as int, tried[0]);
            }
            let mut candidate_steps: SolutionStepStack = build_candidates_stack(
                numbers[i],
                numbers[j],
            );
            let mut next_steps: SolutionStepStack = *current_steps;

            while !candidate_steps.is_empty()
                invariant
                    2 <= numbers_count <= NUM_COUNT,
                    i < j < numbers_count,
                    current_steps@.len() + numbers_count <= NUM_COUNT,
                    pending == numbers@.take(numbers_count as int),
                    current == current_steps@,
                    next_steps@ == current,
                    searchable(pending),
                    tried == candidates(pending[i as int], pending[j as int]),
                    candidate_steps@ == tried.take(candidate_steps@.len() as int),
                    candidate_steps@.len() <= tried.len(),
                    goal == explore_pairs(
                        pending,
                        current,
                        explore_steps(
                            pending,
                            current,
                            best_steps@,
                            target,
                            i as int,
                            j as int,
                            candidate_steps@.len() as int,
                        ),
                        target,
                        i as int,
                        j + 1,
                    ),
                decreases candidate_steps@.len(),
            {
                let ghost left = candidate_steps@.len() - 1;
                let candidate: SolutionStep = candidate_steps.pop().unwrap();
                assert(candidate == tried[left]);
                assert(candidate_steps@ =~= tried.take(left));
                next_steps.push(&candidate).unwrap();

                let next_numbers: [u64; NUM_COUNT] = build_next_numbers(
                    numbers,
                    i,
                    j,
                    candidate.result,
                );
                proof {
                    assert(is_candidate(pending[i as int], pending[j as int], candidate));
                    lemma_reduce_within_bound(pending, i as int, j as int, candidate);
                    assert(next_numbers@.take(numbers_count - 1) == reduce(
                        pending,
                        i as int,
                        j as int,
                        candidate.result,
                    ));
                }

                cifras_bt(&next_numbers, numbers_count - 1, target, &next_steps, best_steps);

                next_steps.pop().unwrap();
                assert(next_steps@ =~= current);
            }
        }
    }
}

/// Solves the puzzle: returns the solution that `numbers` have for `target`,
/// the trail that the exhaustive walk keeps. It is a walk from `numbers` of
/// at least one step, and no walk from `numbers` comes nearer to `target`,
/// nor as near in fewer steps.
pub fn resolve_cifras(numbers: &[u64; NUM_COUNT], target: u64) -> (best_steps: SolutionStepStack)
    requires
        searchable(numbers@),
    ensures
        best_steps@ == solution(numbers@, target),
        is_best(best_steps@, numbers@, target),
        1 <= best_steps@.len() < NUM_COUNT,
        forall|k: int| 0 <= k < best_steps@.len() ==> (#[trigger] best_steps@[k]).is_sound(),
{
    let current_steps: SolutionStepStack = SolutionStepStack::new();
    let mut best_steps: SolutionStepStack = SolutionStepStack::new();
    assert(numbers@.take(NUM_COUNT as int) =~= numbers@);
    cifras_bt(numbers, NUM_COUNT, target, &current_steps, &mut best_steps);
    proof {
        lemma_solution_is_best(numbers@, target);
        lemma_solution_is_sound(numbers@, target);
    }
    best_steps
}

/// The solution of a puzzle with at least two numbers is a best solution: it
/// is a walk from the numbers, it holds a step, and no walk from the numbers
/// is strictly better.
pub proof fn lemma_solution_is_best(numbers: Seq<u64>, target: u64)
    requires
        numbers.len() >= 2,
    ensures
        is_best(solution(numbers, target), numbers, target),
        1 <= solution(numbers, target).len() < numbers.len(),
{
    let empty = Seq::<SolutionStep>::empty();
    let best = solution(numbers, target);
    lemma_explore_keeps_best(numbers, empty, empty, target);
    assert forall|other: Seq<SolutionStep>| #[trigger] reachable(numbers, other) implies !better(
        other,
        best,
        target,
    ) by {
        assert(empty + other =~= other);
    }
    let first = candidates(numbers[0], numbers[1])[0];
    assert(is_candidate(numbers[0], numbers[1], first));
    assert(reachable(reduce(numbers, 0, 1, first.result), empty));
    lemma_reachable_cons(numbers, 0, 1, first, empty);
    assert(!better(seq![first] + empty, best, target));
    assert(best.len() > 0);
    let walk = choose|rest: Seq<SolutionStep>| #[trigger]
        reachable(numbers, rest) && best == empty + rest;
    assert(empty + walk =~= walk);
    lemma_reachable_length(numbers, best);
}

/// Every step of the solution computes what its operation says, in the
/// integers: its result is positive, and a division is exact.
pub proof fn lemma_solution_is_sound(numbers: Seq<u64>, target: u64)
    requires
        searchable(numbers),
        numbers.len() >= 2,
    ensures
        forall|k: int|
            0 <= k < solution(numbers, target).len() ==> (#[trigger] solution(
                numbers,
                target,
            )[k]).is_sound(),
{
    lemma_solution_is_best(numbers, target);
    lemma_reachable_within_bound(numbers, solution(numbers, target));
}

/// Exactness comes first: where any walk from the numbers reaches the target
/// exactly, so does the solution.
pub proof fn lemma_exactness_priority(numbers: Seq<u64>, target: u64, other: Seq<SolutionStep>)
    requires
        reachable(numbers, other),
        other.len() > 0,
        other.last().result == target,
    ensures
        solution(numbers, target).len() > 0,
        solution(numbers, target).last().result == target,
{
    lemma_reachable_length(numbers, other);
    lemma_solution_is_best(numbers, target);
    assert(!better(other, solution(numbers, target), target));
}

/// No walk from the numbers comes nearer to the target than the solution, and
/// none that comes as near is shorter.
pub proof fn lemma_nearest_in_fewest_steps(
    numbers: Seq<u64>,
    target: u64,
    other: Seq<SolutionStep>,
)
    requires
        reachable(numbers, other),
        other.len() > 0,
    ensures
        solution(numbers, target).len() > 0,
        distance(solution(numbers, target).last().result, target) <= distance(
            other.last().result,
            target,
        ),
        distance(solution(numbers, target).last().result, target) == distance(
            other.last().result,
            target,
        ) ==> solution(numbers, target).len() <= other.len(),
{
    lemma_reachable_length(numbers, other);
    lemma_solution_is_best(numbers, target);
    assert(!better(other, solution(numbers, target), target));
}

/// Whether a walk from the numbers has `value` as its result.
pub open spec fn walked(numbers: Seq<u64>, value: u64) -> bool {
    exists|trail: Seq<SolutionStep>| #[trigger]
        reachable(numbers, trail) && trail.len() > 0 && trail.last().result == value
}

/// Where the target can be made from the numbers, by any of the four
/// operations in any order, the solution reaches it. This is stated of every
/// puzzle but those whose target stands among the numbers and is the result
/// of no walk: there the target is made by multiplying it by a 1, a step that
/// the search does not try, and in no other way.
pub proof fn lemma_target_made_is_reached(numbers: Seq<u64>, target: u64, values: Seq<u64>)
    requires
        searchable(numbers),
        derivable(numbers, values),
        values.len() > 0,
        values.last() == target,
        numbers.contains(target) ==> walked(numbers, target),
    ensures
        solution(numbers, target).len() > 0,
        solution(numbers, target).last().result == target,
{
    let made = lemma_derivation_is_walked(numbers, values);
    if walked(numbers, target) {
        let trail = choose|trail: Seq<SolutionStep>| #[trigger]
            reachable(numbers, trail) && trail.len() > 0 && trail.last().result == target;
        lemma_exactness_priority(numbers, target, trail);
    } else {
        lemma_exactness_priority(numbers, target, made);
    }
}

/// No value that can be made from the numbers, by any of the four operations
/// in any order, lies nearer the target than the solution does, and none that
/// lies as near is made in fewer steps than the solution takes. This is
/// stated of every value but those that stand among the numbers themselves:
/// such a value is made in one step by multiplying it by a 1.
pub proof fn lemma_nothing_made_is_nearer(numbers: Seq<u64>, target: u64, values: Seq<u64>)
    requires
        searchable(numbers),
        derivable(numbers, values),
        values.len() > 0,
        !numbers.contains(values.last()),
    ensures
        solution(numbers, target).len() > 0,
        distance(solution(numbers, target).last().result, target) <= distance(
            values.last(),
            target,
        ),
        distance(solution(numbers, target).last().result, target) == distance(
            values.last(),
            target,
        ) ==> solution(numbers, target).len() <= values.len(),
{
    let trail = lemma_derivation_is_walked(numbers, values);
    lemma_nearest_in_fewest_steps(numbers, target, trail);
}

} // verus!
