//! Making up a puzzle at random.

use crate::input::valid_numbers;
use crate::input::valid_target;
use crate::input::MAX_TARGET;
use crate::input::MIN_TARGET;
use crate::trail::NUM_COUNT;
use rand::rngs::ThreadRng;
use rand::Rng;
use vstd::prelude::*;

verus! {

/// The random number generator of the `rand` crate that each thread has for
/// itself. Nothing is known of what it holds.
#[verifier::external_type_specification]
#[verifier::external_body]
pub struct ExThreadRng(rand::rngs::ThreadRng);

/// Of 101 equally likely draws, from 0 to 100, those up to this one ask for a
/// big number.
pub const RANDOM_BIG_NUMBER_PROBABILITY: u64 = 28;

/// The big numbers of the game.
pub open spec fn big_numbers() -> Seq<u64> {
    seq![10, 25, 50, 75, 100]
}

/// The number that two draws make: where the first draw is at most
/// `RANDOM_BIG_NUMBER_PROBABILITY`, the big number that the second draw
/// points at; else the second draw itself, a digit.
pub open spec fn number_of_draws(probability: u64, choice: u64) -> u64 {
    if probability <= RANDOM_BIG_NUMBER_PROBABILITY {
        big_numbers()[choice as int]
    } else {
        choice
    }
}

/// A number as the generator makes them: one of the big numbers, or a digit
/// from 1 to 9.
pub open spec fn is_generated(number: u64) -> bool {
    big_numbers().contains(number) || 1 <= number <= 9
}

/// `rand::thread_rng`: hands out the calling thread's generator. Nothing is
/// claimed of it. It takes no input; it fails only on a system that has no
/// source of randomness to seed it from.
#[verifier::external_body]
fn thread_generator() -> ThreadRng {
    rand::thread_rng()
}

/// `Rng::gen_range` on the inclusive range from `low` to `high`: the number
/// drawn lies in that range. The range must not be empty. Which number is
/// drawn is left open.
#[verifier::external_body]
fn draw(rng: &mut ThreadRng, low: u64, high: u64) -> (drawn: u64)
    requires
        low <= high,
    ensures
        low <= drawn <= high,
{
    rng.gen_range(low..=high)
}

/// Whether a draw from 0 to 100 asks for a big number.
pub fn wants_big_number(probability: u64) -> (big: bool)
    ensures
        big == (probability <= RANDOM_BIG_NUMBER_PROBABILITY),
{
    probability <= RANDOM_BIG_NUMBER_PROBABILITY
}

/// The number that two draws make.
pub fn number_from_draws(probability: u64, choice: u64) -> (number: u64)
    requires
        probability <= RANDOM_BIG_NUMBER_PROBABILITY ==> choice < big_numbers().len(),
    ensures
        number == number_of_draws(probability, choice),
{
    if wants_big_number(probability) {
        if choice == 0 {
            10
        } else if choice == 1 {
            25
        } else if choice == 2 {
            50
        } else if choice == 3 {
            75
        } else {
            100
        }
    } else {
        choice
    }
}

/// Draws the numbers of a puzzle: for each a draw from 0 to 100 decides
/// whether it is one of the big numbers or a digit from 1 to 9, and a second
/// draw decides which. Whatever is drawn, the numbers are those of a puzzle.
pub fn generate_numbers(rng: &mut ThreadRng) -> (numbers: [u64; NUM_COUNT])
    ensures
        valid_numbers(numbers@),
        forall|k: int| 0 <= k < NUM_COUNT ==> is_generated(#[trigger] numbers@[k]),
{
    let mut numbers: [u64; NUM_COUNT] = [0;NUM_COUNT];
    for i in 0..NUM_COUNT
        invariant
            forall|k: int| 0 <= k < i ==> is_generated(#[trigger] numbers@[k]),
    {
        let probability: u64 = draw(rng, 0, 100);
        let choice: u64 = if wants_big_number(probability) {
            draw(rng, 0, 4)
        } else {
            draw(rng, 1, 9)
        };
        let number = number_from_draws(probability, choice);
        proof {
            let big = big_numbers();
            assert(big[0] == 10 && big[1] == 25 && big[2] == 50 && big[3] == 75 && big[4] == 100);
            if probability <= RANDOM_BIG_NUMBER_PROBABILITY {
                assert(big.contains(big[choice as int]));
            }
        }
        numbers[i] = number;
    }
    proof {
        assert forall|k: int| 0 <= k < NUM_COUNT implies 1 <= #[trigger] numbers@[k] <= 100 by {
            let number = numbers@[k];
            assert(is_generated(number));
            if big_numbers().contains(number) {
                let at = choose|at: int| 0 <= at < big_numbers().len() && big_numbers()[at] == number;
                assert(0 <= at < 5);
            }
        }
    }
    numbers
}

/// Makes up a puzzle: numbers as `generate_numbers` draws them, and a target
/// drawn from the targets allowed.
pub fn generate_data() -> (data: ([u64; NUM_COUNT], u64))
    ensures
        valid_numbers(data.0@),
        forall|k: int| 0 <= k < NUM_COUNT ==> is_generated(#[trigger] data.0@[k]),
        valid_target(data.1),
{
    let mut rng = thread_generator();
    let numbers: [u64; NUM_COUNT] = generate_numbers(&mut rng);
    let target: u64 = draw(&mut rng, MIN_TARGET, MAX_TARGET);
    (numbers, target)
}

} // verus!
