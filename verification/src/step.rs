//! The elementary step of a solution: one operation applied to two numbers.

use vstd::prelude::*;

verus! {

/// One of the four arithmetic operations that combine two numbers.
#[derive(Debug, Copy, Clone, PartialEq, Eq, Structural)]
pub enum Operation {
    Add,
    Sub,
    Mul,
    Div,
}

impl Operation {
    /// The character that stands for the operation in a rendered step.
    pub open spec fn symbol_of(self) -> char {
        match self {
            Operation::Add => '+',
            Operation::Sub => '-',
            Operation::Mul => '*',
            Operation::Div => '/',
        }
    }

    /// The character that stands for the operation in a rendered step.
    pub fn symbol(&self) -> (c: char)
        ensures
            c == self.symbol_of(),
    {
        match self {
            Operation::Add => '+',
            Operation::Sub => '-',
            Operation::Mul => '*',
            Operation::Div => '/',
        }
    }
}

/// One applied operation, `a op b = result`. For a subtraction and a division
/// `a` is the larger operand.
#[derive(Debug, Copy, Clone, PartialEq, Eq, Structural)]
pub struct SolutionStep {
    pub result: u64,
    pub a: u64,
    pub b: u64,
    pub op: Operation,
}

impl SolutionStep {
    /// The step says what its operation computes, in the integers: the result
    /// is the sum, the positive difference, the product or the exact quotient
    /// of its two positive operands.
    pub open spec fn is_sound(self) -> bool {
        &&& self.a >= 1
        &&& self.b >= 1
        &&& self.result >= 1
        &&& match self.op {
            Operation::Add => self.result == self.a + self.b,
            Operation::Sub => self.result == self.a - self.b,
            Operation::Mul => self.result == self.a * self.b,
            Operation::Div => self.a == self.b * self.result,
        }
    }
}

} // verus!
