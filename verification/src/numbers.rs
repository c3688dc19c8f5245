//! The working set of numbers, and the set that is left after two of them
//! were combined.

use crate::trail::NUM_COUNT;
use vstd::prelude::*;

verus! {

/// Every number of the set is a positive integer.
pub open spec fn all_positive(numbers: Seq<u64>) -> bool {
    forall|k: int| 0 <= k < numbers.len() ==> numbers[k] >= 1
}

/// The set that is left when the numbers at `pos1` and `pos2` are combined
/// into `value`: `value` first, then the other numbers in their old order.
pub open spec fn reduce(numbers: Seq<u64>, pos1: int, pos2: int, value: u64) -> Seq<u64> {
    seq![value] + numbers.remove(pos2).remove(pos1)
}

/// Where the number that stands at `k` among the untouched ones stood before
/// the numbers at `pos1` and `pos2` were taken out.
pub open spec fn origin(k: int, pos1: int, pos2: int) -> int {
    if k < pos1 {
        k
    } else if k + 1 < pos2 {
        k + 1
    } else {
        k + 2
    }
}

/// Builds the set that is left when the numbers at `pos1` and `pos2` are
/// combined into `new`. The result has `new` in its first slot, then the
/// untouched numbers in their old order, and a zero in the slot that fell
/// free; so of a set of `m` numbers it holds the `m - 1` that are left.
pub fn build_next_numbers(
    former_numbers: &[u64; NUM_COUNT],
    pos1: usize,
    pos2: usize,
    new: u64,
) -> (next_numbers: [u64; NUM_COUNT])
    requires
        pos1 < pos2 < NUM_COUNT,
    ensures
        next_numbers@ == reduce(former_numbers@, pos1 as int, pos2 as int, new).push(0),
        forall|m: int|
            pos2 < m <= NUM_COUNT ==> next_numbers@.take(m - 1) == reduce(
                #[trigger] former_numbers@.take(m),
                pos1 as int,
                pos2 as int,
                new,
            ),
{
    let mut next_numbers: [u64; NUM_COUNT] = [0;NUM_COUNT];
    next_numbers[0] = new;

    let mut j: usize = 1;
    for i in 0..NUM_COUNT
        invariant
            pos1 < pos2 < NUM_COUNT,
            j == 1 + i - (if i > pos1 { 1int } else { 0 }) - (if i > pos2 { 1int } else { 0 }),
            next_numbers@[0] == new,
            forall|k: int|
                1 <= k < j ==> next_numbers@[k] == former_numbers@[origin(
                    k - 1,
                    pos1 as int,
                    pos2 as int,
                )],
            forall|k: int| j <= k < NUM_COUNT ==> next_numbers@[k] == 0,
    {
        if i != pos1 && i != pos2 {
            next_numbers[j] = former_numbers[i];
            j += 1;
        }
    }
    proof {
        let left = reduce(former_numbers@, pos1 as int, pos2 as int, new);
        assert(next_numbers@ =~= left.push(0));
        assert forall|m: int| pos2 < m <= NUM_COUNT implies next_numbers@.take(m - 1) == reduce(
            #[trigger] former_numbers@.take(m),
            pos1 as int,
            pos2 as int,
            new,
        ) by {
            assert(next_numbers@.take(m - 1) =~= reduce(
                former_numbers@.take(m),
                pos1 as int,
                pos2 as int,
                new,
            ));
        }
    }
    next_numbers
}

/// The first numbers of `numbers`, as many as a puzzle holds, with zeros
/// behind them where they are fewer.
pub open spec fn fitted(numbers: Seq<u64>) -> Seq<u64> {
    Seq::new(
        NUM_COUNT as nat,
        |k: int|
            if k < numbers.len() {
                numbers[k]
            } else {
                0
            },
    )
}

/// Brings numbers of any count to the count of a puzzle: what is too many is
/// left out, what is missing is zero.
pub fn fit_numbers(numbers_slice: &[u64]) -> (numbers: [u64; NUM_COUNT])
    ensures
        numbers@ == fitted(numbers_slice@),
{
    let mut numbers: [u64; NUM_COUNT] = [0;NUM_COUNT];
    for i in 0..NUM_COUNT
        invariant
            forall|k: int| 0 <= k < i ==> numbers@[k] == fitted(numbers_slice@)[k],
            forall|k: int| i <= k < NUM_COUNT ==> numbers@[k] == 0,
    {
        if i < numbers_slice.len() {
            numbers[i] = numbers_slice[i];
        }
    }
    assert(numbers@ =~= fitted(numbers_slice@));
    numbers
}

/// The slots of a reduced set: the new value stands first, and behind it the
/// untouched numbers keep their relative order.
pub proof fn lemma_reduce_slots(numbers: Seq<u64>, pos1: int, pos2: int, value: u64)
    requires
        0 <= pos1 < pos2 < numbers.len(),
    ensures
        reduce(numbers, pos1, pos2, value).len() == numbers.len() - 1,
        reduce(numbers, pos1, pos2, value)[0] == value,
        forall|k: int|
            0 <= k < numbers.len() - 2 ==> #[trigger] reduce(numbers, pos1, pos2, value)[k + 1]
                == numbers[origin(k, pos1, pos2)],
        forall|k: int, l: int|
            0 <= k < l < numbers.len() - 2 ==> 0 <= #[trigger] origin(k, pos1, pos2)
                < #[trigger] origin(l, pos1, pos2) < numbers.len(),
        forall|k: int|
            0 <= k < numbers.len() - 2 ==> #[trigger] origin(k, pos1, pos2) != pos1 && origin(
                k,
                pos1,
                pos2,
            ) != pos2,
{
}

/// A reduced set holds the untouched numbers as often as the old set did:
/// put the two numbers that were combined back, and take the new value out,
/// and the two sets hold the same numbers.
pub proof fn lemma_reduce_multiset(numbers: Seq<u64>, pos1: int, pos2: int, value: u64)
    requires
        0 <= pos1 < pos2 < numbers.len(),
    ensures
        reduce(numbers, pos1, pos2, value).to_multiset().insert(numbers[pos1]).insert(
            numbers[pos2],
        ) == numbers.to_multiset().insert(value),
{
    broadcast use vstd::multiset::group_multiset_axioms;

    let without2 = numbers.remove(pos2);
    let without = without2.remove(pos1);
    vstd::seq_lib::to_multiset_remove(numbers, pos2);
    vstd::seq_lib::to_multiset_remove(without2, pos1);
    vstd::seq_lib::to_multiset_insert(without, 0, value);
    vstd::seq_lib::to_multiset_contains(numbers, numbers[pos2]);
    vstd::seq_lib::to_multiset_contains(without2, numbers[pos1]);
    assert(without2[pos1] == numbers[pos1]);
    assert(without.insert(0, value) =~= reduce(numbers, pos1, pos2, value));
    assert(reduce(numbers, pos1, pos2, value).to_multiset().insert(numbers[pos1]).insert(
        numbers[pos2],
    ) =~= numbers.to_multiset().insert(value));
}

} // verus!
