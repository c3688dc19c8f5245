//! Solver for the "Cifras" numbers puzzle: combine a fixed count of positive
//! integers with addition, subtraction, multiplication and exact division to
//! come as close as possible to a target, in as few steps as possible.
//!
//! The search is an exhaustive backtracking over every pair of numbers and
//! every operation that applies to it, cut short by two cutoffs. Its result
//! is proved to be the trail that the walk without cutoffs would keep, and a
//! best one among all the trails of the search space.
//!
//! - `step`, `trail`: a step, and the bounded trail of steps with its order.
//! - `candidates`: the steps that are tried on a pair of numbers.
//! - `numbers`: the set of numbers that a step leaves.
//! - `bound`, `prune`: the bound on what numbers can be combined into, and
//!   the two cutoffs.
//! - `space`, `explore`, `derivation`: the search space, the exhaustive walk
//!   through it, and how it relates to all that arithmetic can make.
//! - `search`: the search itself, and what it finds.
//! - `input`, `dialogue`, `generate`, `text`, `web`: reading a puzzle, asking
//!   for it, making one up, writing the solution out, and the solver on a
//!   slice of numbers.

pub mod bound;
pub mod candidates;
pub mod derivation;
pub mod dialogue;
pub mod explore;
pub mod generate;
pub mod input;
pub mod numbers;
pub mod prune;
pub mod search;
pub mod space;
pub mod step;
pub mod text;
pub mod trail;
pub mod web;

pub use crate::candidates::build_candidates_stack;
pub use crate::numbers::build_next_numbers;
pub use crate::prune::prunable_length;
pub use crate::prune::prunable_upper_value;
pub use crate::search::cifras_bt;
pub use crate::search::resolve_cifras;
pub use crate::step::Operation;
pub use crate::step::SolutionStep;
pub use crate::trail::SolutionStepStack;
pub use crate::trail::MAX_SOLUTION_STEPS;
pub use crate::trail::NUM_COUNT;
