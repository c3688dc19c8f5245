//! The bounded trail of steps, and the order that says which of two trails is
//! the better solution.

use crate::step::Operation;
use crate::step::SolutionStep;
use std::cmp::Ordering;
use vstd::prelude::*;
use vstd::slice::slice_subrange;

verus! {

/// How many numbers a puzzle holds.
pub const NUM_COUNT: usize = 6;

/// The most steps a trail can hold: what it takes to combine `NUM_COUNT`
/// numbers down to one.
pub const MAX_SOLUTION_STEPS: usize = 5;

/// What `push` answers on a full trail.
pub const OVERFLOW_MESSAGE: &'static str = "Error in SolutionStepStack push: stack full. Overflow\n";

/// What `pop` answers on an empty trail.
pub const UNDERFLOW_MESSAGE: &'static str = "Error in SolutionStepStack pop: stack empty\n";

/// How far `value` is from `target`.
pub open spec fn distance(value: u64, target: u64) -> nat {
    if value >= target {
        (value - target) as nat
    } else {
        (target - value) as nat
    }
}

/// Whether trail `a` is a strictly better solution than trail `b`: a trail
/// with steps beats the empty one, a result nearer the target beats one
/// farther away, and at the same distance the shorter trail wins.
pub open spec fn better(a: Seq<SolutionStep>, b: Seq<SolutionStep>, target: u64) -> bool {
    if a.len() == 0 {
        false
    } else if b.len() == 0 {
        true
    } else {
        let da = distance(a.last().result, target);
        let db = distance(b.last().result, target);
        da < db || (da == db && a.len() < b.len())
    }
}

/// The order of two trails as solutions: `Less` where `a` is the better one.
pub open spec fn trail_order(a: Seq<SolutionStep>, b: Seq<SolutionStep>, target: u64) -> Ordering {
    if better(a, b, target) {
        Ordering::Less
    } else if better(b, a, target) {
        Ordering::Greater
    } else {
        Ordering::Equal
    }
}

/// The rules of the order: two empty trails are equal; the empty trail is
/// worse than any other; of two trails with steps the one whose result is
/// nearer the target is better; and at the same distance the one with fewer
/// steps is better.
pub proof fn lemma_order_rules(a: Seq<SolutionStep>, b: Seq<SolutionStep>, target: u64)
    ensures
        a.len() == 0 && b.len() == 0 ==> trail_order(a, b, target) == Ordering::Equal,
        a.len() == 0 && b.len() > 0 ==> trail_order(a, b, target) == Ordering::Greater,
        a.len() > 0 && b.len() == 0 ==> trail_order(a, b, target) == Ordering::Less,
        a.len() > 0 && b.len() > 0 && distance(a.last().result, target) < distance(
            b.last().result,
            target,
        ) ==> trail_order(a, b, target) == Ordering::Less,
        a.len() > 0 && b.len() > 0 && distance(a.last().result, target) == distance(
            b.last().result,
            target,
        ) && a.len() < b.len() ==> trail_order(a, b, target) == Ordering::Less,
        a.len() > 0 && b.len() > 0 && distance(a.last().result, target) == distance(
            b.last().result,
            target,
        ) && a.len() == b.len() ==> trail_order(a, b, target) == Ordering::Equal,
{
}

/// The order is a total one on what it looks at: a trail is equal to itself,
/// swapping the two trails swaps `Less` and `Greater`, and both `Less` and
/// `Equal` carry over a trail in the middle.
pub proof fn lemma_order_is_total(
    a: Seq<SolutionStep>,
    b: Seq<SolutionStep>,
    c: Seq<SolutionStep>,
    target: u64,
)
    ensures
        trail_order(a, a, target) == Ordering::Equal,
        trail_order(a, b, target) == Ordering::Less <==> trail_order(b, a, target)
            == Ordering::Greater,
        trail_order(a, b, target) == Ordering::Equal <==> trail_order(b, a, target)
            == Ordering::Equal,
        trail_order(a, b, target) == Ordering::Less && trail_order(b, c, target) != Ordering::Greater
            ==> trail_order(a, c, target) == Ordering::Less,
        trail_order(a, b, target) != Ordering::Greater && trail_order(b, c, target)
            == Ordering::Less ==> trail_order(a, c, target) == Ordering::Less,
        trail_order(a, b, target) == Ordering::Equal && trail_order(b, c, target)
            == Ordering::Equal ==> trail_order(a, c, target) == Ordering::Equal,
{
}

/// How far `value` is from `target`.
pub fn distance_to(value: u64, target: u64) -> (d: u64)
    ensures
        d == distance(value, target),
{
    if value >= target {
        value - target
    } else {
        target - value
    }
}

/// A trail: the steps applied so far, oldest first, at most
/// `MAX_SOLUTION_STEPS` of them. Its view is the sequence of those steps.
#[derive(Debug, Copy, Clone, PartialEq)]
pub struct SolutionStepStack {
    steps: [SolutionStep; MAX_SOLUTION_STEPS],
    count: usize,
}

impl View for SolutionStepStack {
    type V = Seq<SolutionStep>;

    closed spec fn view(&self) -> Seq<SolutionStep> {
        self.steps@.take(self.count as int)
    }
}

impl SolutionStepStack {
    #[verifier::type_invariant]
    spec fn within_capacity(self) -> bool {
        self.count <= MAX_SOLUTION_STEPS
    }

    /// The empty trail.
    pub fn new() -> (stack: SolutionStepStack)
        ensures
            stack@ == Seq::<SolutionStep>::empty(),
    {
        let unused = SolutionStep { result: 0, a: 0, b: 0, op: Operation::Add };
        SolutionStepStack { steps: [unused; MAX_SOLUTION_STEPS], count: 0 }
    }

    /// Whether the trail holds no step.
    pub fn is_empty(&self) -> (empty: bool)
        ensures
            empty == (self@.len() == 0),
    {
        proof {
            use_type_invariant(self);
        }
        self.count == 0
    }

    /// The number of steps held.
    pub fn count(&self) -> (n: usize)
        ensures
            n == self@.len(),
            n <= MAX_SOLUTION_STEPS,
    {
        proof {
            use_type_invariant(self);
        }
        self.count
    }

    /// The value reached so far: the result of the last step, if there is one.
    pub fn result(&self) -> (value: Option<u64>)
        ensures
            value == (if self@.len() == 0 {
                None
            } else {
                Some(self@.last().result)
            }),
    {
        proof {
            use_type_invariant(self);
        }
        if self.count == 0 {
            return None;
        }
        Some(self.steps[self.count - 1].result)
    }

    /// Appends `step`, unless the trail is full: then it answers
    /// `OVERFLOW_MESSAGE` and leaves the trail as it was.
    pub fn push(&mut self, step: &SolutionStep) -> (outcome: Result<(), &'static str>)
        ensures
            final(self)@.len() <= MAX_SOLUTION_STEPS,
            old(self)@.len() < MAX_SOLUTION_STEPS ==> outcome == Ok::<(), &'static str>(())
                && final(self)@ == old(self)@.push(*step),
            old(self)@.len() >= MAX_SOLUTION_STEPS ==> outcome == Err::<(), &'static str>(
                OVERFLOW_MESSAGE,
            ) && final(self)@ == old(self)@,
    {
        proof {
            use_type_invariant(&*self);
        }
        if self.count >= MAX_SOLUTION_STEPS {
            return Err(OVERFLOW_MESSAGE);
        }
        self.steps[self.count] = *step;
        self.count += 1;
        Ok(())
    }

    /// Removes the last step and returns it, unless the trail is empty: then
    /// it answers `UNDERFLOW_MESSAGE`.
    pub fn pop(&mut self) -> (outcome: Result<SolutionStep, &'static str>)
        ensures
            final(self)@.len() <= MAX_SOLUTION_STEPS,
            old(self)@.len() > 0 ==> outcome == Ok::<SolutionStep, &'static str>(old(self)@.last())
                && final(self)@ == old(self)@.drop_last(),
            old(self)@.len() == 0 ==> outcome == Err::<SolutionStep, &'static str>(
                UNDERFLOW_MESSAGE,
            ) && final(self)@ == old(self)@,
    {
        proof {
            use_type_invariant(&*self);
        }
        if self.count == 0 {
            return Err(UNDERFLOW_MESSAGE);
        }
        self.count -= 1;
        Ok(self.steps[self.count])
    }

    /// The steps held, oldest first; nothing for the empty trail.
    pub fn get_steps(&self) -> (steps: Option<&[SolutionStep]>)
        ensures
            match steps {
                None => self@.len() == 0,
                Some(held) => self@.len() > 0 && held@ == self@,
            },
    {
        proof {
            use_type_invariant(self);
        }
        if self.count == 0 {
            None
        } else {
            Some(slice_subrange(self.steps.as_slice(), 0, self.count))
        }
    }

    /// Whether `self` is a strictly better solution for `target` than `other`.
    pub fn is_better_than(&self, other: &SolutionStepStack, target: u64) -> (wins: bool)
        ensures
            wins == better(self@, other@, target),
    {
        match self.compare(other, target) {
            Ordering::Less => true,
            _ => false,
        }
    }

    /// Orders two trails as solutions for `target`: `Less` where `self` is the
    /// better one. The empty trail is worse than any other; otherwise the
    /// result nearer to `target` is better, and at the same distance the
    /// trail with fewer steps.
    pub fn compare(&self, other: &SolutionStepStack, target: u64) -> (order: Ordering)
        ensures
            order == trail_order(self@, other@, target),
    {
        match (self.result(), other.result()) {
            (None, None) => Ordering::Equal,
            (None, Some(_)) => Ordering::Greater,
            (Some(_), None) => Ordering::Less,
            (Some(mine), Some(theirs)) => {
                let diff_self: u64 = distance_to(mine, target);
                let diff_other: u64 = distance_to(theirs, target);
                if diff_self < diff_other {
                    Ordering::Less
                } else if diff_self > diff_other {
                    Ordering::Greater
                } else if self.count() < other.count() {
                    Ordering::Less
                } else if self.count() > other.count() {
                    Ordering::Greater
                } else {
                    Ordering::Equal
                }
            },
        }
    }
}

} // verus!
