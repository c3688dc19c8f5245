//! The solver for a host that holds its numbers in a slice of any length.

use crate::numbers::fit_numbers;
use crate::numbers::fitted;
use crate::search::is_best;
use crate::search::searchable;
use crate::search::solution;
use crate::trail::SolutionStepStack;
use crate::trail::NUM_COUNT;
use vstd::prelude::*;

verus! {

/// Solves the puzzle of the first `NUM_COUNT` numbers of `numbers_slice`.
/// Numbers that are missing count as zeros, which cannot be searched: so the
/// slice must hold `NUM_COUNT` numbers at least.
pub fn resolve_cifras(numbers_slice: &[u64], target: u64) -> (best_steps: SolutionStepStack)
    requires
        searchable(fitted(numbers_slice@)),
    ensures
        numbers_slice@.len() >= NUM_COUNT,
        best_steps@ == solution(fitted(numbers_slice@), target),
        is_best(best_steps@, fitted(numbers_slice@), target),
        1 <= best_steps@.len() < NUM_COUNT,
{
    let numbers: [u64; NUM_COUNT] = fit_numbers(numbers_slice);
    proof {
        if numbers_slice@.len() < NUM_COUNT {
            assert(fitted(numbers_slice@)[NUM_COUNT - 1] == 0);
        }
    }
    crate::search::resolve_cifras(&numbers, target)
}

} // verus!
