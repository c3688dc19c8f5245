//! The largest value that a set of numbers can still be combined into.

use crate::candidates::combinable;
use crate::candidates::is_candidate;
use crate::candidates::larger;
use crate::candidates::smaller;
use crate::numbers::all_positive;
use crate::numbers::reduce;
use crate::step::Operation;
use crate::step::SolutionStep;
use vstd::prelude::*;

verus! {

/// What a number contributes to the bound: itself, but 2 where it is 1, since
/// adding 1 to a number can raise it more than multiplying by 1 does.
pub open spec fn factor(number: u64) -> nat {
    if number == 1 {
        2
    } else {
        number as nat
    }
}

/// The bound on what a set of numbers can be combined into: the product of
/// what each contributes.
pub open spec fn upper_bound(numbers: Seq<u64>) -> nat
    decreases numbers.len(),
{
    if numbers.len() == 0 {
        1
    } else {
        upper_bound(numbers.drop_last()) * factor(numbers.last())
    }
}

/// The bound of a set of positive numbers is positive.
pub proof fn lemma_upper_bound_positive(numbers: Seq<u64>)
    requires
        all_positive(numbers),
    ensures
        upper_bound(numbers) >= 1,
    decreases numbers.len(),
{
    if numbers.len() > 0 {
        lemma_upper_bound_positive(numbers.drop_last());
        let rest = upper_bound(numbers.drop_last());
        let last = factor(numbers.last());
        assert(rest * last >= 1) by (nonlinear_arith)
            requires
                rest >= 1,
                last >= 1,
        ;
    }
}

/// The bound of the first `k` numbers of a set of positive numbers is at most
/// the bound of the whole set.
pub proof fn lemma_upper_bound_prefix(numbers: Seq<u64>, k: int)
    requires
        all_positive(numbers),
        0 <= k <= numbers.len(),
    ensures
        upper_bound(numbers.take(k)) <= upper_bound(numbers),
    decreases numbers.len() - k,
{
    if k < numbers.len() {
        lemma_upper_bound_prefix(numbers, k + 1);
        let longer = numbers.take(k + 1);
        assert(longer.drop_last() =~= numbers.take(k));
        lemma_upper_bound_positive(numbers.take(k));
        let rest = upper_bound(numbers.take(k));
        let last = factor(longer.last());
        assert(rest <= rest * last) by (nonlinear_arith)
            requires
                rest >= 1,
                last >= 1,
        ;
    } else {
        assert(numbers.take(k) =~= numbers);
    }
}

/// Taking one number out divides the bound by what that number contributes.
pub proof fn lemma_upper_bound_remove(numbers: Seq<u64>, i: int)
    requires
        0 <= i < numbers.len(),
    ensures
        upper_bound(numbers) == factor(numbers[i]) * upper_bound(numbers.remove(i)),
    decreases numbers.len(),
{
    let front = numbers.drop_last();
    let last = factor(numbers.last());
    if i == numbers.len() - 1 {
        assert(numbers.remove(i) =~= front);
        let rest = upper_bound(front);
        assert(rest * last == last * rest) by (nonlinear_arith);
    } else {
        lemma_upper_bound_remove(front, i);
        let without = numbers.remove(i);
        assert(without.drop_last() =~= front.remove(i));
        assert(without.last() == numbers.last());
        let mine = factor(numbers[i]);
        let rest = upper_bound(front.remove(i));
        assert((mine * rest) * last == mine * (rest * last)) by (nonlinear_arith);
    }
}

/// The steps that combine two positive numbers whose contributions multiply
/// to a machine integer: each of them computes what its operation says, in
/// the integers, and its result is positive and contributes no more to the
/// bound than the two numbers did together.
pub proof fn lemma_candidate_within_bound(x: u64, y: u64, step: SolutionStep)
    requires
        x >= 1,
        y >= 1,
        factor(x) * factor(y) <= u64::MAX,
        is_candidate(x, y, step),
    ensures
        combinable(x, y),
        step.is_sound(),
        factor(step.result) <= factor(x) * factor(y),
{
    let fx = factor(x);
    let fy = factor(y);
    assert(fx + fy <= fx * fy && fx <= fx * fy && fy <= fx * fy && 4 <= fx * fy)
        by (nonlinear_arith)
        requires
            fx >= 2,
            fy >= 2,
    ;
    assert(x != 1 && y != 1 ==> x * y == fx * fy);
    let hi = larger(x, y);
    let lo = smaller(x, y);
    if step.op == Operation::Div {
        assert(hi / lo >= 1 && hi / lo <= hi && hi == lo * (hi / lo)) by (nonlinear_arith)
            requires
                hi >= lo >= 1,
                hi % lo == 0,
        ;
    }
}

/// Combining two numbers of a set never raises its bound, and leaves a set of
/// positive numbers.
pub proof fn lemma_reduce_within_bound(numbers: Seq<u64>, i: int, j: int, step: SolutionStep)
    requires
        all_positive(numbers),
        upper_bound(numbers) <= u64::MAX,
        0 <= i < j < numbers.len(),
        is_candidate(numbers[i], numbers[j], step),
    ensures
        combinable(numbers[i], numbers[j]),
        step.is_sound(),
        all_positive(reduce(numbers, i, j, step.result)),
        factor(step.result) <= upper_bound(reduce(numbers, i, j, step.result)),
        upper_bound(reduce(numbers, i, j, step.result)) <= upper_bound(numbers),
{
    let without_j = numbers.remove(j);
    let rest = without_j.remove(i);
    let left = reduce(numbers, i, j, step.result);
    lemma_upper_bound_remove(numbers, j);
    lemma_upper_bound_remove(without_j, i);
    assert(without_j[i] == numbers[i]);
    assert(all_positive(rest));
    lemma_upper_bound_positive(rest);
    let fi = factor(numbers[i]);
    let fj = factor(numbers[j]);
    let r = upper_bound(rest);
    assert(fi * fj <= fj * (fi * r) && fj * (fi * r) == (fi * fj) * r) by (nonlinear_arith)
        requires
            r >= 1,
            fi >= 0,
            fj >= 0,
    ;
    lemma_candidate_within_bound(numbers[i], numbers[j], step);
    assert(all_positive(left));
    lemma_upper_bound_remove(left, 0);
    assert(left.remove(0) =~= rest);
    let fs = factor(step.result);
    assert(fs <= fs * r && fs * r <= (fi * fj) * r) by (nonlinear_arith)
        requires
            r >= 1,
            fs <= fi * fj,
            fs >= 0,
    ;
}

} // verus!
