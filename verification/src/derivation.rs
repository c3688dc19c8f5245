//! Every way of combining the numbers with the four operations, and why the
//! search space misses none of the values that can be made.

use crate::bound::factor;
use crate::bound::lemma_upper_bound_positive;
use crate::bound::lemma_upper_bound_remove;
use crate::bound::upper_bound;
use crate::candidates::candidates;
use crate::candidates::difference_steps;
use crate::candidates::is_candidate;
use crate::candidates::larger;
use crate::candidates::product_steps;
use crate::candidates::quotient_steps;
use crate::candidates::smaller;
use crate::candidates::sum_step;
use crate::numbers::all_positive;
use crate::numbers::lemma_reduce_multiset;
use crate::numbers::reduce;
use crate::space::lemma_reachable_cons;
use crate::space::reachable;
use crate::step::SolutionStep;
use vstd::prelude::*;

verus! {

/// Whether one of the four operations makes `value` of `x` and `y`: it is
/// their sum, their difference where that is positive, their product, or the
/// quotient of the larger by the smaller where that division is exact.
pub open spec fn combines(x: u64, y: u64, value: u64) -> bool {
    ||| value == x + y
    ||| (x != y && value == larger(x, y) - smaller(x, y))
    ||| value == x * y
    ||| (smaller(x, y) >= 1 && larger(x, y) == smaller(x, y) * value)
}

/// Whether `values` can be made one after the other from `numbers`: each is
/// what one of the four operations makes of two of the numbers that are left
/// when it is made, and takes their place.
pub open spec fn derivable(numbers: Seq<u64>, values: Seq<u64>) -> bool
    decreases values.len(),
{
    values.len() == 0 || exists|i: int, j: int|
        0 <= i < j < numbers.len() && combines(numbers[i], numbers[j], values[0]) && derivable(
            #[trigger] reduce(numbers, i, j, values[0]),
            values.drop_first(),
        )
}

/// Every number occurs in `numbers` at least as often as in `fewer`.
pub open spec fn contained(fewer: Seq<u64>, numbers: Seq<u64>) -> bool {
    forall|e: u64| #[trigger] fewer.to_multiset().count(e) <= numbers.to_multiset().count(e)
}

/// Two trails are as long as each other and end on the same result.
pub open spec fn same_end(one: Seq<SolutionStep>, other: Seq<SolutionStep>) -> bool {
    one.len() == other.len() && (one.len() > 0 ==> one.last().result == other.last().result)
}

// The steps that are tried on a pair, each where it applies.
proof fn lemma_candidate_members(x: u64, y: u64)
    ensures
        is_candidate(x, y, sum_step(x, y)),
        x != y ==> is_candidate(x, y, difference_steps(x, y)[0]),
        x != 1 && y != 1 ==> is_candidate(x, y, product_steps(x, y)[0]),
        quotient_steps(x, y).len() > 0 ==> is_candidate(x, y, quotient_steps(x, y)[0]),
{
    let all = candidates(x, y);
    let d = difference_steps(x, y).len() as int;
    let p = product_steps(x, y).len() as int;
    assert(all[0] == sum_step(x, y));
    if x != y {
        assert(all[1] == difference_steps(x, y)[0]);
    }
    if x != 1 && y != 1 {
        assert(all[1 + d] == product_steps(x, y)[0]);
    }
    if quotient_steps(x, y).len() > 0 {
        assert(all[1 + d + p] == quotient_steps(x, y)[0]);
    }
}

// What is tried on a pair is tried on the pair the other way round, with the
// same results.
proof fn lemma_candidates_either_way(x: u64, y: u64, step: SolutionStep)
    requires
        is_candidate(x, y, step),
    ensures
        exists|other: SolutionStep| #[trigger]
            is_candidate(y, x, other) && other.result == step.result,
{
    lemma_candidate_members(y, x);
    assert(x * y == y * x) by (nonlinear_arith);
    if step == sum_step(x, y) {
        assert(is_candidate(y, x, sum_step(y, x)) && sum_step(y, x).result == step.result);
    } else if x != y && step == difference_steps(x, y)[0] {
        assert(is_candidate(y, x, difference_steps(y, x)[0]));
    } else if x != 1 && y != 1 && step == product_steps(x, y)[0] {
        assert(is_candidate(y, x, product_steps(y, x)[0]) && product_steps(y, x)[0].result
            == step.result);
    } else {
        assert(quotient_steps(x, y).len() > 0 && step == quotient_steps(x, y)[0]);
        assert(is_candidate(y, x, quotient_steps(y, x)[0]));
    }
}

// Two numbers that stand at two places of `fewer` stand at two places of
// `numbers`.
proof fn lemma_find_pair(fewer: Seq<u64>, numbers: Seq<u64>, a: int, b: int) -> (at: (int, int))
    requires
        contained(fewer, numbers),
        0 <= a < b < fewer.len(),
    ensures
        0 <= at.0 < numbers.len(),
        0 <= at.1 < numbers.len(),
        at.0 != at.1,
        numbers[at.0] == fewer[a],
        numbers[at.1] == fewer[b],
{
    broadcast use vstd::multiset::group_multiset_axioms;

    let x = fewer[a];
    let y = fewer[b];
    vstd::seq_lib::to_multiset_contains(fewer, x);
    vstd::seq_lib::to_multiset_contains(numbers, x);
    assert(fewer.contains(x));
    assert(fewer.to_multiset().count(x) <= numbers.to_multiset().count(x));
    let p = choose|p: int| 0 <= p < numbers.len() && numbers[p] == x;
    let fewer_left = fewer.remove(a);
    let numbers_left = numbers.remove(p);
    vstd::seq_lib::to_multiset_remove(fewer, a);
    vstd::seq_lib::to_multiset_remove(numbers, p);
    assert(fewer_left[b - 1] == y);
    assert(fewer_left.contains(y));
    vstd::seq_lib::to_multiset_contains(fewer_left, y);
    vstd::seq_lib::to_multiset_contains(numbers_left, y);
    assert(fewer.to_multiset().count(y) <= numbers.to_multiset().count(y));
    assert(fewer_left.to_multiset().count(y) <= numbers_left.to_multiset().count(y));
    let q = choose|q: int| 0 <= q < numbers_left.len() && numbers_left[q] == y;
    if q < p {
        (p, q)
    } else {
        (p, q + 1)
    }
}

// Combining the same two numbers into the same value keeps one set contained
// in the other.
proof fn lemma_reduce_contained(
    fewer: Seq<u64>,
    a: int,
    b: int,
    numbers: Seq<u64>,
    i: int,
    j: int,
    value: u64,
)
    requires
        contained(fewer, numbers),
        0 <= a < b < fewer.len(),
        0 <= i < j < numbers.len(),
        (fewer[a] == numbers[i] && fewer[b] == numbers[j]) || (fewer[a] == numbers[j] && fewer[b]
            == numbers[i]),
    ensures
        contained(reduce(fewer, a, b, value), reduce(numbers, i, j, value)),
{
    broadcast use vstd::multiset::group_multiset_axioms;

    lemma_reduce_multiset(fewer, a, b, value);
    lemma_reduce_multiset(numbers, i, j, value);
    let x = fewer[a];
    let y = fewer[b];
    let small = reduce(fewer, a, b, value).to_multiset();
    let large = reduce(numbers, i, j, value).to_multiset();
    assert(small.insert(x).insert(y) == fewer.to_multiset().insert(value));
    assert(large.insert(x).insert(y) =~= numbers.to_multiset().insert(value));
    assert forall|e: u64| #[trigger] small.count(e) <= large.count(e) by {
        assert(small.insert(x).insert(y).count(e) == fewer.to_multiset().insert(value).count(e));
        assert(large.insert(x).insert(y).count(e) == numbers.to_multiset().insert(value).count(
            e,
        ));
        assert(fewer.to_multiset().count(e) <= numbers.to_multiset().count(e));
    }
}

/// A walk from a set of numbers can be taken from any set that holds those
/// numbers, and more: step by step with the same results.
pub proof fn lemma_walk_from_more(
    fewer: Seq<u64>,
    numbers: Seq<u64>,
    trail: Seq<SolutionStep>,
) -> (other: Seq<SolutionStep>)
    requires
        contained(fewer, numbers),
        reachable(fewer, trail),
    ensures
        reachable(numbers, other),
        same_end(other, trail),
    decreases trail.len(),
{
    if trail.len() == 0 {
        trail
    } else {
        let (a, b) = choose|a: int, b: int|
            0 <= a < b < fewer.len() && is_candidate(fewer[a], fewer[b], trail[0]) && reachable(
                #[trigger] reduce(fewer, a, b, trail[0].result),
                trail.drop_first(),
            );
        let (p, q) = lemma_find_pair(fewer, numbers, a, b);
        let value = trail[0].result;
        if p < q {
            lemma_reduce_contained(fewer, a, b, numbers, p, q, value);
            let rest = lemma_walk_from_more(
                reduce(fewer, a, b, value),
                reduce(numbers, p, q, value),
                trail.drop_first(),
            );
            lemma_reachable_cons(numbers, p, q, trail[0], rest);
            seq![trail[0]] + rest
        } else {
            lemma_candidates_either_way(fewer[a], fewer[b], trail[0]);
            let turned = choose|turned: SolutionStep| #[trigger]
                is_candidate(fewer[b], fewer[a], turned) && turned.result == value;
            lemma_reduce_contained(fewer, a, b, numbers, q, p, value);
            let rest = lemma_walk_from_more(
                reduce(fewer, a, b, value),
                reduce(numbers, q, p, value),
                trail.drop_first(),
            );
            lemma_reachable_cons(numbers, q, p, turned, rest);
            seq![turned] + rest
        }
    }
}

// Two numbers of a set contribute to its bound no more than the bound.
proof fn lemma_pair_within_bound(numbers: Seq<u64>, i: int, j: int)
    requires
        all_positive(numbers),
        0 <= i < j < numbers.len(),
    ensures
        factor(numbers[i]) * factor(numbers[j]) <= upper_bound(numbers),
        upper_bound(numbers) == factor(numbers[i]) * factor(numbers[j]) * upper_bound(
            numbers.remove(j).remove(i),
        ),
{
    let without_j = numbers.remove(j);
    let rest = without_j.remove(i);
    lemma_upper_bound_remove(numbers, j);
    lemma_upper_bound_remove(without_j, i);
    assert(without_j[i] == numbers[i]);
    assert(all_positive(rest));
    lemma_upper_bound_positive(rest);
    let fi = factor(numbers[i]);
    let fj = factor(numbers[j]);
    let r = upper_bound(rest);
    assert(fi * fj <= fj * (fi * r) && fj * (fi * r) == fi * fj * r) by (nonlinear_arith)
        requires
            r >= 1,
            fi >= 0,
            fj >= 0,
    ;
}

/// Whatever value can be made from positive numbers whose bound is a machine
/// integer, by any of the four operations in any order, either stands among
/// the numbers already, or is the result of a walk of the search space that
/// takes no more steps than the value took to make.
pub proof fn lemma_derivation_is_walked(numbers: Seq<u64>, values: Seq<u64>) -> (trail: Seq<
    SolutionStep,
>)
    requires
        all_positive(numbers),
        upper_bound(numbers) <= u64::MAX,
        derivable(numbers, values),
        values.len() > 0,
    ensures
        numbers.contains(values.last()) || (reachable(numbers, trail) && 0 < trail.len()
            <= values.len() && trail.last().result == values.last()),
    decreases values.len(),
{
    broadcast use vstd::multiset::group_multiset_axioms;

    let (i, j) = choose|i: int, j: int|
        0 <= i < j < numbers.len() && combines(numbers[i], numbers[j], values[0]) && derivable(
            #[trigger] reduce(numbers, i, j, values[0]),
            values.drop_first(),
        );
    let x = numbers[i];
    let y = numbers[j];
    let value = values[0];
    let rest = values.drop_first();
    let fewer = reduce(numbers, i, j, value);
    let none = Seq::<SolutionStep>::empty();
    let hi = larger(x, y);
    let lo = smaller(x, y);
    let fx = factor(x);
    let fy = factor(y);
    let others = upper_bound(numbers.remove(j).remove(i));
    lemma_pair_within_bound(numbers, i, j);
    lemma_candidate_members(x, y);
    assert(fx + fy <= fx * fy && fx <= fx * fy && fy <= fx * fy && 4 <= fx * fy)
        by (nonlinear_arith)
        requires
            fx >= 2,
            fy >= 2,
    ;
    assert(x != 1 && y != 1 ==> x * y == fx * fy);
    assert(x == 1 ==> x * y == y) by (nonlinear_arith);
    assert(y == 1 ==> x * y == x) by (nonlinear_arith);
    if hi == lo * value {
        assert(hi % lo == 0 && hi / lo == value && value >= 1 && value <= hi)
            by (nonlinear_arith)
            requires
                hi == lo * value,
                hi >= lo >= 1,
        ;
    }
    // the value is positive, and it contributes no more than the pair did
    assert(value >= 1);
    assert(factor(value) <= fx * fy);
    assert(all_positive(fewer));
    lemma_upper_bound_remove(fewer, 0);
    assert(fewer.remove(0) =~= numbers.remove(j).remove(i));
    assert(all_positive(numbers.remove(j).remove(i)));
    lemma_upper_bound_positive(numbers.remove(j).remove(i));
    let fv = factor(value);
    assert(fv * others <= fx * fy * others) by (nonlinear_arith)
        requires
            fv <= fx * fy,
            others >= 1,
    ;
    let tried = exists|step: SolutionStep| #[trigger]
        is_candidate(x, y, step) && step.result == value;
    if tried {
        let step = choose|step: SolutionStep| #[trigger]
            is_candidate(x, y, step) && step.result == value;
        assert(reachable(fewer, none));
        lemma_reachable_cons(numbers, i, j, step, none);
        assert(seq![step] + none =~= seq![step]);
        if rest.len() == 0 {
            seq![step]
        } else {
            let below = lemma_derivation_is_walked(fewer, rest);
            assert(rest.last() == values.last());
            if fewer.contains(rest.last()) {
                let k = choose|k: int| 0 <= k < fewer.len() && fewer[k] == rest.last();
                if k == 0 {
                    seq![step]
                } else {
                    assert(numbers.remove(j).remove(i)[k - 1] == rest.last());
                    assert(numbers.contains(rest.last()));
                    none
                }
            } else {
                lemma_reachable_cons(numbers, i, j, step, below);
                seq![step] + below
            }
        }
    } else {
        // a multiplication by 1 or a division by 1: the value is the larger
        // of the two numbers, and takes its place
        assert(x == 1 || y == 1);
        assert(value == hi);
        lemma_reduce_multiset(numbers, i, j, value);
        assert forall|e: u64| #[trigger]
            fewer.to_multiset().count(e) <= numbers.to_multiset().count(e) by {
            assert(fewer.to_multiset().insert(x).insert(y).count(e) == numbers.to_multiset().insert(
                value,
            ).count(e));
        }
        assert(numbers.contains(value));
        if rest.len() == 0 {
            none
        } else {
            let below = lemma_derivation_is_walked(fewer, rest);
            assert(rest.last() == values.last());
            if fewer.contains(rest.last()) {
                vstd::seq_lib::to_multiset_contains(fewer, rest.last());
                vstd::seq_lib::to_multiset_contains(numbers, rest.last());
                assert(fewer.to_multiset().count(rest.last()) <= numbers.to_multiset().count(
                    rest.last(),
                ));
                none
            } else {
                lemma_walk_from_more(fewer, numbers, below)
            }
        }
    }
}

} // verus!
