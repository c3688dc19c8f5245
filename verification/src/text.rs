//! How numbers, steps and deviations are written out.

use crate::step::Operation;
use crate::step::SolutionStep;
use vstd::prelude::*;

verus! {

/// The character of a decimal digit.
pub open spec fn digit_char(digit: nat) -> char {
    if digit == 0 {
        '0'
    } else if digit == 1 {
        '1'
    } else if digit == 2 {
        '2'
    } else if digit == 3 {
        '3'
    } else if digit == 4 {
        '4'
    } else if digit == 5 {
        '5'
    } else if digit == 6 {
        '6'
    } else if digit == 7 {
        '7'
    } else if digit == 8 {
        '8'
    } else {
        '9'
    }
}

/// A number in decimal digits, without leading zeros.
pub open spec fn decimal_text(number: nat) -> Seq<char>
    decreases number,
{
    if number < 10 {
        seq![digit_char(number)]
    } else {
        decimal_text(number / 10).push(digit_char(number % 10))
    }
}

/// A step as text: the operands around the symbol of the operation, then the
/// result, as in `12 / 4 = 3`.
pub open spec fn step_text(step: SolutionStep) -> Seq<char> {
    decimal_text(step.a as nat) + seq![' ', step.op.symbol_of(), ' '] + decimal_text(
        step.b as nat,
    ) + seq![' ', '=', ' '] + decimal_text(step.result as nat)
}

/// How far a result lies from the target, as a signed number: `+` and the
/// excess where the result is at or above the target, `-` and what is
/// missing where it is below.
pub open spec fn deviation_text(result: u64, target: u64) -> Seq<char> {
    if result >= target {
        seq!['+'] + decimal_text((result - target) as nat)
    } else {
        seq!['-'] + decimal_text((target - result) as nat)
    }
}

fn digit_str(digit: u64) -> (text: &'static str)
    requires
        digit < 10,
    ensures
        text@ == seq![digit_char(digit as nat)],
{
    proof {
        reveal_strlit("0");
        reveal_strlit("1");
        reveal_strlit("2");
        reveal_strlit("3");
        reveal_strlit("4");
        reveal_strlit("5");
        reveal_strlit("6");
        reveal_strlit("7");
        reveal_strlit("8");
        reveal_strlit("9");
    }
    let text = if digit == 0 {
        "0"
    } else if digit == 1 {
        "1"
    } else if digit == 2 {
        "2"
    } else if digit == 3 {
        "3"
    } else if digit == 4 {
        "4"
    } else if digit == 5 {
        "5"
    } else if digit == 6 {
        "6"
    } else if digit == 7 {
        "7"
    } else if digit == 8 {
        "8"
    } else {
        "9"
    };
    assert(text@ =~= seq![digit_char(digit as nat)]);
    text
}

fn symbol_str(op: Operation) -> (text: &'static str)
    ensures
        text@ == seq![' ', op.symbol_of(), ' '],
{
    proof {
        reveal_strlit(" + ");
        reveal_strlit(" - ");
        reveal_strlit(" * ");
        reveal_strlit(" / ");
    }
    let text = match op {
        Operation::Add => " + ",
        Operation::Sub => " - ",
        Operation::Mul => " * ",
        Operation::Div => " / ",
    };
    assert(text@ =~= seq![' ', op.symbol_of(), ' ']);
    text
}

/// Writes a number in decimal digits.
pub fn decimal(number: u64) -> (text: String)
    ensures
        text@ == decimal_text(number as nat),
    decreases number,
{
    if number < 10 {
        String::from_str(digit_str(number))
    } else {
        let mut text = decimal(number / 10);
        text.append(digit_str(number % 10));
        text
    }
}

impl SolutionStep {
    /// Writes the step as `a op b = result`.
    pub fn to_string(&self) -> (text: String)
        ensures
            text@ == step_text(*self),
    {
        proof {
            reveal_strlit(" = ");
        }
        let mut text = decimal(self.a);
        text.append(symbol_str(self.op));
        text.append(decimal(self.b).as_str());
        text.append(" = ");
        text.append(decimal(self.result).as_str());
        assert(" = "@ =~= seq![' ', '=', ' ']);
        text
    }
}

/// Writes how far `result` lies from `target`, with its sign.
pub fn deviation(result: u64, target: u64) -> (text: String)
    ensures
        text@ == deviation_text(result, target),
{
    proof {
        reveal_strlit("+");
        reveal_strlit("-");
    }
    if result >= target {
        let mut text = String::from_str("+");
        text.append(decimal(result - target).as_str());
        assert("+"@ =~= seq!['+']);
        text
    } else {
        let mut text = String::from_str("-");
        text.append(decimal(target - result).as_str());
        assert("-"@ =~= seq!['-']);
        text
    }
}

} // verus!
