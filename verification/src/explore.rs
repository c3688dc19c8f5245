//! The exhaustive walk of the search space, as a mathematical function, and
//! what holds of the trail it keeps.

use crate::candidates::candidates;
use crate::candidates::is_candidate;
use crate::numbers::reduce;
use crate::space::lemma_reachable_cons;
use crate::space::reachable;
use crate::step::SolutionStep;
use crate::trail::better;
use vstd::prelude::*;

verus! {

/// The trail to keep when `trail` is met while `best` is held: `trail` where
/// it is strictly better, else `best`.
pub open spec fn keep_better(
    best: Seq<SolutionStep>,
    trail: Seq<SolutionStep>,
    target: u64,
) -> Seq<SolutionStep> {
    if better(trail, best, target) {
        trail
    } else {
        best
    }
}

/// The trail that is held after `current` and every trail that goes on from
/// it by a walk from `numbers` were met, in the order of the search, starting
/// with `best` held: first `current` itself, then pair by pair of numbers
/// what goes on with a step on that pair.
pub open spec fn explore(
    numbers: Seq<u64>,
    current: Seq<SolutionStep>,
    best: Seq<SolutionStep>,
    target: u64,
) -> Seq<SolutionStep>
    decreases numbers.len(), 2int, 0int, 0int,
{
    explore_pairs(numbers, current, keep_better(best, current, target), target, 0, 1)
}

/// The trail that is held after the pairs of numbers from the one at `i` and
/// `j` on were explored: the pairs come by ascending `i`, and for one `i` by
/// ascending `j`.
pub open spec fn explore_pairs(
    numbers: Seq<u64>,
    current: Seq<SolutionStep>,
    best: Seq<SolutionStep>,
    target: u64,
    i: int,
    j: int,
) -> Seq<SolutionStep>
    decreases numbers.len(), 1int, numbers.len() - i, numbers.len() - j,
{
    if i < 0 || j <= i || i + 1 >= numbers.len() {
        best
    } else if j >= numbers.len() {
        explore_pairs(numbers, current, best, target, i + 1, i + 2)
    } else {
        let tried = explore_steps(
            numbers,
            current,
            best,
            target,
            i,
            j,
            candidates(numbers[i], numbers[j]).len() as int,
        );
        explore_pairs(numbers, current, tried, target, i, j + 1)
    }
}

/// The trail that is held after the first `left` steps that combine the
/// numbers at `i` and `j` were explored, the last of them first: each is
/// appended to `current`, and the walk goes on from the numbers it leaves.
pub open spec fn explore_steps(
    numbers: Seq<u64>,
    current: Seq<SolutionStep>,
    best: Seq<SolutionStep>,
    target: u64,
    i: int,
    j: int,
    left: int,
) -> Seq<SolutionStep>
    decreases numbers.len(), 0int, left, 0int,
{
    if left <= 0 || !(0 <= i < j < numbers.len()) {
        best
    } else {
        let step = candidates(numbers[i], numbers[j])[left - 1];
        let below = explore(reduce(numbers, i, j, step.result), current.push(step), best, target);
        explore_steps(numbers, current, below, target, i, j, left - 1)
    }
}

/// `best` is at least as good as every trail that goes on from `current` by a
/// walk from `numbers`, `current` itself among them.
pub open spec fn dominates(
    best: Seq<SolutionStep>,
    numbers: Seq<u64>,
    current: Seq<SolutionStep>,
    target: u64,
) -> bool {
    forall|rest: Seq<SolutionStep>| #[trigger]
        reachable(numbers, rest) ==> !better(current + rest, best, target)
}

/// `found` is `before`, or a trail that goes on from `current` by a walk from
/// `numbers`.
pub open spec fn found_from(
    found: Seq<SolutionStep>,
    before: Seq<SolutionStep>,
    numbers: Seq<u64>,
    current: Seq<SolutionStep>,
) -> bool {
    found == before || exists|rest: Seq<SolutionStep>| #[trigger]
        reachable(numbers, rest) && found == current + rest
}

// `best` dominates every trail that goes on from `current` with the `k`-th
// step tried on the numbers at `i` and `j`, for `k` from `from` on.
spec fn tried_from(
    best: Seq<SolutionStep>,
    numbers: Seq<u64>,
    current: Seq<SolutionStep>,
    target: u64,
    i: int,
    j: int,
    from: int,
) -> bool {
    forall|k: int|
        from <= k < candidates(numbers[i], numbers[j]).len() ==> dominates(
            best,
            reduce(numbers, i, j, (#[trigger] candidates(numbers[i], numbers[j])[k]).result),
            current.push(candidates(numbers[i], numbers[j])[k]),
            target,
        )
}

// `best` dominates every trail that goes on from `current` with a step on a
// pair of numbers that comes before the pair at `i` and `j`.
spec fn explored_before(
    best: Seq<SolutionStep>,
    numbers: Seq<u64>,
    current: Seq<SolutionStep>,
    target: u64,
    i: int,
    j: int,
) -> bool {
    forall|p: int, q: int|
        0 <= p < q < numbers.len() && (p < i || (p == i && q < j)) ==> #[trigger] tried_from(
            best,
            numbers,
            current,
            target,
            p,
            q,
            0,
        )
}

proof fn lemma_dominates_improved(
    best: Seq<SolutionStep>,
    improved: Seq<SolutionStep>,
    numbers: Seq<u64>,
    current: Seq<SolutionStep>,
    target: u64,
)
    requires
        dominates(best, numbers, current, target),
        !better(best, improved, target),
    ensures
        dominates(improved, numbers, current, target),
{
    assert forall|rest: Seq<SolutionStep>| #[trigger] reachable(numbers, rest) implies !better(
        current + rest,
        improved,
        target,
    ) by {
        assert(!better(current + rest, best, target));
    }
}

proof fn lemma_tried_improved(
    best: Seq<SolutionStep>,
    improved: Seq<SolutionStep>,
    numbers: Seq<u64>,
    current: Seq<SolutionStep>,
    target: u64,
    i: int,
    j: int,
    from: int,
)
    requires
        tried_from(best, numbers, current, target, i, j, from),
        !better(best, improved, target),
    ensures
        tried_from(improved, numbers, current, target, i, j, from),
{
    let steps = candidates(numbers[i], numbers[j]);
    assert forall|k: int| from <= k < steps.len() implies dominates(
        improved,
        reduce(numbers, i, j, (#[trigger] steps[k]).result),
        current.push(steps[k]),
        target,
    ) by {
        lemma_dominates_improved(
            best,
            improved,
            reduce(numbers, i, j, steps[k].result),
            current.push(steps[k]),
            target,
        );
    }
}

proof fn lemma_explored_improved(
    best: Seq<SolutionStep>,
    improved: Seq<SolutionStep>,
    numbers: Seq<u64>,
    current: Seq<SolutionStep>,
    target: u64,
    i: int,
    j: int,
)
    requires
        explored_before(best, numbers, current, target, i, j),
        !better(best, improved, target),
    ensures
        explored_before(improved, numbers, current, target, i, j),
{
    assert forall|p: int, q: int|
        0 <= p < q < numbers.len() && (p < i || (p == i && q < j)) implies #[trigger] tried_from(
        improved,
        numbers,
        current,
        target,
        p,
        q,
        0,
    ) by {
        assert(tried_from(best, numbers, current, target, p, q, 0));
        lemma_tried_improved(best, improved, numbers, current, target, p, q, 0);
    }
}

// Once every pair of numbers has been explored, `best` dominates all that
// goes on from `current`.
proof fn lemma_all_explored(
    best: Seq<SolutionStep>,
    numbers: Seq<u64>,
    current: Seq<SolutionStep>,
    target: u64,
)
    requires
        !better(current, best, target),
        explored_before(best, numbers, current, target, numbers.len() as int, 0),
    ensures
        dominates(best, numbers, current, target),
{
    assert forall|rest: Seq<SolutionStep>| #[trigger] reachable(numbers, rest) implies !better(
        current + rest,
        best,
        target,
    ) by {
        if rest.len() == 0 {
            assert(current + rest =~= current);
        } else {
            let (p, q) = choose|p: int, q: int|
                0 <= p < q < numbers.len() && is_candidate(numbers[p], numbers[q], rest[0])
                    && reachable(
                    #[trigger] reduce(numbers, p, q, rest[0].result),
                    rest.drop_first(),
                );
            assert(tried_from(best, numbers, current, target, p, q, 0));
            let steps = candidates(numbers[p], numbers[q]);
            let k = choose|k: int| 0 <= k < steps.len() && steps[k] == rest[0];
            assert(dominates(
                best,
                reduce(numbers, p, q, steps[k].result),
                current.push(steps[k]),
                target,
            ));
            assert(current.push(rest[0]) + rest.drop_first() =~= current + rest);
        }
    }
}

// A trail found below a step is a trail found from here.
proof fn lemma_found_below(
    found: Seq<SolutionStep>,
    before: Seq<SolutionStep>,
    numbers: Seq<u64>,
    current: Seq<SolutionStep>,
    i: int,
    j: int,
    step: SolutionStep,
)
    requires
        0 <= i < j < numbers.len(),
        is_candidate(numbers[i], numbers[j], step),
        found_from(found, before, reduce(numbers, i, j, step.result), current.push(step)),
    ensures
        found_from(found, before, numbers, current),
{
    if found != before {
        let below = choose|rest: Seq<SolutionStep>| #[trigger]
            reachable(reduce(numbers, i, j, step.result), rest) && found == current.push(step)
                + rest;
        lemma_reachable_cons(numbers, i, j, step, below);
        assert(current + (seq![step] + below) =~= current.push(step) + below);
    }
}

// What dominates all that goes on from `current` dominates all that goes on
// below one step from it.
proof fn lemma_dominates_below(
    best: Seq<SolutionStep>,
    numbers: Seq<u64>,
    current: Seq<SolutionStep>,
    target: u64,
    i: int,
    j: int,
    step: SolutionStep,
)
    requires
        0 <= i < j < numbers.len(),
        is_candidate(numbers[i], numbers[j], step),
        dominates(best, numbers, current, target),
    ensures
        dominates(best, reduce(numbers, i, j, step.result), current.push(step), target),
{
    assert forall|rest: Seq<SolutionStep>| #[trigger]
        reachable(reduce(numbers, i, j, step.result), rest) implies !better(
        current.push(step) + rest,
        best,
        target,
    ) by {
        lemma_reachable_cons(numbers, i, j, step, rest);
        assert(current + (seq![step] + rest) =~= current.push(step) + rest);
    }
}

/// What the exhaustive walk keeps is the trail held before or a trail of the
/// subtree, it is at least as good as the trail held before, and it is at
/// least as good as every trail of the subtree.
pub proof fn lemma_explore_keeps_best(
    numbers: Seq<u64>,
    current: Seq<SolutionStep>,
    best: Seq<SolutionStep>,
    target: u64,
)
    ensures
        found_from(explore(numbers, current, best, target), best, numbers, current),
        !better(best, explore(numbers, current, best, target), target),
        dominates(explore(numbers, current, best, target), numbers, current, target),
    decreases numbers.len(), 2int, 0int, 0int,
{
    let kept = keep_better(best, current, target);
    let found = explore(numbers, current, best, target);
    assert(reachable(numbers, Seq::<SolutionStep>::empty()));
    assert(current + Seq::<SolutionStep>::empty() =~= current);
    lemma_pairs_keep_best(numbers, current, kept, target, 0, 1);
    lemma_all_explored(found, numbers, current, target);
}

proof fn lemma_pairs_keep_best(
    numbers: Seq<u64>,
    current: Seq<SolutionStep>,
    best: Seq<SolutionStep>,
    target: u64,
    i: int,
    j: int,
)
    requires
        0 <= i < j,
        explored_before(best, numbers, current, target, i, j),
    ensures
        found_from(explore_pairs(numbers, current, best, target, i, j), best, numbers, current),
        !better(best, explore_pairs(numbers, current, best, target, i, j), target),
        explored_before(
            explore_pairs(numbers, current, best, target, i, j),
            numbers,
            current,
            target,
            numbers.len() as int,
            0,
        ),
    decreases numbers.len(), 1int, numbers.len() - i, numbers.len() - j,
{
    if i + 1 >= numbers.len() {
    } else if j >= numbers.len() {
        lemma_pairs_keep_best(numbers, current, best, target, i + 1, i + 2);
    } else {
        let steps = candidates(numbers[i], numbers[j]);
        let tried = explore_steps(numbers, current, best, target, i, j, steps.len() as int);
        lemma_steps_keep_best(numbers, current, best, target, i, j, steps.len() as int);
        lemma_explored_improved(best, tried, numbers, current, target, i, j);
        lemma_pairs_keep_best(numbers, current, tried, target, i, j + 1);
    }
}

proof fn lemma_steps_keep_best(
    numbers: Seq<u64>,
    current: Seq<SolutionStep>,
    best: Seq<SolutionStep>,
    target: u64,
    i: int,
    j: int,
    left: int,
)
    requires
        0 <= i < j < numbers.len(),
        0 <= left <= candidates(numbers[i], numbers[j]).len(),
        tried_from(best, numbers, current, target, i, j, left),
    ensures
        found_from(
            explore_steps(numbers, current, best, target, i, j, left),
            best,
            numbers,
            current,
        ),
        !better(best, explore_steps(numbers, current, best, target, i, j, left), target),
        tried_from(
            explore_steps(numbers, current, best, target, i, j, left),
            numbers,
            current,
            target,
            i,
            j,
            0,
        ),
    decreases numbers.len(), 0int, left, 0int,
{
    if left > 0 {
        let step = candidates(numbers[i], numbers[j])[left - 1];
        let fewer = reduce(numbers, i, j, step.result);
        let below = explore(fewer, current.push(step), best, target);
        assert(is_candidate(numbers[i], numbers[j], step));
        lemma_explore_keeps_best(fewer, current.push(step), best, target);
        lemma_found_below(below, best, numbers, current, i, j, step);
        lemma_tried_improved(best, below, numbers, current, target, i, j, left);
        lemma_steps_keep_best(numbers, current, below, target, i, j, left - 1);
    }
}

/// Where the trail held is already at least as good as every trail of the
/// subtree, the exhaustive walk keeps it: such a subtree need not be walked.
pub proof fn lemma_explore_dominated(
    numbers: Seq<u64>,
    current: Seq<SolutionStep>,
    best: Seq<SolutionStep>,
    target: u64,
)
    requires
        dominates(best, numbers, current, target),
    ensures
        explore(numbers, current, best, target) == best,
    decreases numbers.len(), 2int, 0int, 0int,
{
    assert(reachable(numbers, Seq::<SolutionStep>::empty()));
    assert(current + Seq::<SolutionStep>::empty() =~= current);
    lemma_pairs_dominated(numbers, current, best, target, 0, 1);
}

/// Where the trail held is at least as good as every trail of the subtree,
/// exploring its pairs from any pair on keeps it.
pub proof fn lemma_pairs_dominated(
    numbers: Seq<u64>,
    current: Seq<SolutionStep>,
    best: Seq<SolutionStep>,
    target: u64,
    i: int,
    j: int,
)
    requires
        dominates(best, numbers, current, target),
    ensures
        explore_pairs(numbers, current, best, target, i, j) == best,
    decreases numbers.len(), 1int, numbers.len() - i, numbers.len() - j,
{
    if i < 0 || j <= i || i + 1 >= numbers.len() {
    } else if j >= numbers.len() {
        lemma_pairs_dominated(numbers, current, best, target, i + 1, i + 2);
    } else {
        let steps = candidates(numbers[i], numbers[j]);
        lemma_steps_dominated(numbers, current, best, target, i, j, steps.len() as int);
        lemma_pairs_dominated(numbers, current, best, target, i, j + 1);
    }
}

proof fn lemma_steps_dominated(
    numbers: Seq<u64>,
    current: Seq<SolutionStep>,
    best: Seq<SolutionStep>,
    target: u64,
    i: int,
    j: int,
    left: int,
)
    requires
        dominates(best, numbers, current, target),
        0 <= i < j < numbers.len(),
        left <= candidates(numbers[i], numbers[j]).len(),
    ensures
        explore_steps(numbers, current, best, target, i, j, left) == best,
    decreases numbers.len(), 0int, left, 0int,
{
    if left > 0 {
        let step = candidates(numbers[i], numbers[j])[left - 1];
        let fewer = reduce(numbers, i, j, step.result);
        assert(is_candidate(numbers[i], numbers[j], step));
        lemma_dominates_below(best, numbers, current, target, i, j, step);
        lemma_explore_dominated(fewer, current.push(step), best, target);
        lemma_steps_dominated(numbers, current, best, target, i, j, left - 1);
    }
}

} // verus!
