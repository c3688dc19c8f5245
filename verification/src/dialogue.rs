//! The dialogue that asks for a puzzle: what to do with each line that comes
//! in.

use crate::input::parse_numbers;
use crate::input::parse_target;
use crate::input::parsed_numbers;
use crate::input::parsed_target;
use crate::input::valid_numbers;
use crate::input::valid_target;
use crate::input::InputError;
use crate::trail::NUM_COUNT;
use vstd::prelude::*;

verus! {

/// What the dialogue waits for.
#[derive(Debug, Copy, Clone, PartialEq, Eq)]
pub enum Awaiting {
    /// The numbers of the puzzle.
    Numbers,
    /// The target, the numbers being known.
    Target { numbers: [u64; NUM_COUNT] },
}

/// What a line that came in calls for.
#[derive(Debug, Clone, PartialEq, Eq)]
pub enum Reaction {
    /// No numbers were given: make up a puzzle.
    MakeUp,
    /// The numbers are accepted: ask for the target.
    AskTarget { numbers: [u64; NUM_COUNT] },
    /// The line is not accepted: say why, and ask again.
    Complain { why: InputError },
    /// The puzzle is complete: solve it.
    Solve { numbers: [u64; NUM_COUNT], target: u64 },
}

impl Reaction {
    /// What the dialogue waits for after this reaction, having waited for
    /// `before`; nothing where the dialogue is over.
    pub open spec fn leads_to(self, before: Awaiting) -> Option<Awaiting> {
        match self {
            Reaction::MakeUp => None,
            Reaction::AskTarget { numbers } => Some(Awaiting::Target { numbers }),
            Reaction::Complain { why } => Some(before),
            Reaction::Solve { numbers, target } => None,
        }
    }

    /// What the dialogue waits for after this reaction, having waited for
    /// `before`; nothing where the dialogue is over.
    pub fn next(&self, before: Awaiting) -> (after: Option<Awaiting>)
        ensures
            after == self.leads_to(before),
    {
        match self {
            Reaction::MakeUp => None,
            Reaction::AskTarget { numbers } => Some(Awaiting::Target { numbers: *numbers }),
            Reaction::Complain { why } => Some(before),
            Reaction::Solve { numbers, target } => None,
        }
    }
}

/// What a line calls for, by what the dialogue waits for: an empty line in
/// place of the numbers asks for a puzzle made up; any other line is read as
/// the numbers or as the target, and is complained of where it is not
/// accepted.
pub open spec fn reaction_fits(reaction: Reaction, waiting: Awaiting, line: Seq<char>) -> bool {
    match waiting {
        Awaiting::Numbers => if line.len() == 0 {
            reaction is MakeUp
        } else {
            match parsed_numbers(line) {
                Ok(accepted) => reaction matches Reaction::AskTarget { numbers } && numbers@
                    == accepted,
                Err(rejected) => reaction matches Reaction::Complain { why } && why@ == rejected,
            }
        },
        Awaiting::Target { numbers: known } => match parsed_target(line) {
            Ok(accepted) => reaction matches Reaction::Solve { numbers, target } && numbers
                == known && target == accepted,
            Err(rejected) => reaction matches Reaction::Complain { why } && why@ == rejected,
        },
    }
}

/// What the dialogue asks when it waits for the numbers.
pub const NUMBERS_PROMPT: &'static str = "Introduce numbers (ENTER for randomly generated):\n";

/// What the dialogue asks when it waits for the target.
pub const TARGET_PROMPT: &'static str = "Target: ";

/// What to ask for.
pub fn prompt(waiting: &Awaiting) -> (text: &'static str)
    ensures
        text == (match waiting {
            Awaiting::Numbers => NUMBERS_PROMPT,
            Awaiting::Target { numbers } => TARGET_PROMPT,
        }),
{
    match waiting {
        Awaiting::Numbers => NUMBERS_PROMPT,
        Awaiting::Target { numbers } => TARGET_PROMPT,
    }
}

/// Decides what a line that came in calls for. The line is taken as it is:
/// blanks around it are the caller's to take off.
pub fn react(waiting: &Awaiting, line: &str) -> (reaction: Reaction)
    ensures
        reaction_fits(reaction, *waiting, line@),
        reaction matches Reaction::AskTarget { numbers } ==> valid_numbers(numbers@),
        reaction matches Reaction::Solve { numbers, target } ==> valid_target(target),
{
    match waiting {
        Awaiting::Numbers => {
            if line.is_empty() {
                return Reaction::MakeUp;
            }
            match parse_numbers(line) {
                Ok(numbers) => Reaction::AskTarget { numbers },
                Err(why) => Reaction::Complain { why },
            }
        },
        Awaiting::Target { numbers } => {
            match parse_target(line) {
                Ok(target) => Reaction::Solve { numbers: *numbers, target },
                Err(why) => Reaction::Complain { why },
            }
        },
    }
}

} // verus!
