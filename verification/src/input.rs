//! Reading a puzzle from text: the numbers as tokens between commas and
//! spaces, the target as one number, each held to its bounds.

use crate::text::decimal;
use crate::text::decimal_text;
use crate::trail::NUM_COUNT;
use vstd::prelude::*;

verus! {

/// The smallest number a puzzle may hold.
pub const MIN_NUMBER: u64 = 1;

/// The largest number a puzzle may hold.
pub const MAX_NUMBER: u64 = 100;

/// The smallest target a puzzle may have.
pub const MIN_TARGET: u64 = 100;

/// The largest target a puzzle may have.
pub const MAX_TARGET: u64 = 999;

/// Why a text was not accepted.
#[derive(Debug, Clone, PartialEq, Eq)]
pub enum InputError {
    /// The text holds another count of tokens than a puzzle has numbers.
    WrongCount { received: usize },
    /// A token does not write a number.
    NotANumber { token: String },
    /// A number lies outside the bounds.
    NumberOutOfRange { number: u64 },
    /// The text does not write a number.
    NotATarget { input: String },
    /// The target lies outside the bounds.
    TargetOutOfRange { target: u64 },
}

/// Why a text was not accepted, with texts as sequences of characters.
pub enum Rejection {
    WrongCount { received: nat },
    NotANumber { token: Seq<char> },
    NumberOutOfRange { number: u64 },
    NotATarget { input: Seq<char> },
    TargetOutOfRange { target: u64 },
}

impl View for InputError {
    type V = Rejection;

    open spec fn view(&self) -> Rejection {
        match self {
            InputError::WrongCount { received } => Rejection::WrongCount {
                received: *received as nat,
            },
            InputError::NotANumber { token } => Rejection::NotANumber { token: token@ },
            InputError::NumberOutOfRange { number } => Rejection::NumberOutOfRange {
                number: *number,
            },
            InputError::NotATarget { input } => Rejection::NotATarget { input: input@ },
            InputError::TargetOutOfRange { target } => Rejection::TargetOutOfRange {
                target: *target,
            },
        }
    }
}

/// The numbers of a puzzle: as many as a puzzle holds, each within the bounds.
pub open spec fn valid_numbers(numbers: Seq<u64>) -> bool {
    &&& numbers.len() == NUM_COUNT
    &&& forall|k: int| 0 <= k < numbers.len() ==> MIN_NUMBER <= #[trigger] numbers[k] <= MAX_NUMBER
}

/// A target within the bounds.
pub open spec fn valid_target(target: u64) -> bool {
    MIN_TARGET <= target <= MAX_TARGET
}

/// A character that parts two tokens: a comma or a space.
pub open spec fn is_separator(c: char) -> bool {
    c == ',' || c == ' '
}

/// The tokens that are complete when `text` has been read, and the token
/// that its last characters have begun.
pub open spec fn scan(text: Seq<char>) -> (Seq<Seq<char>>, Seq<char>)
    decreases text.len(),
{
    if text.len() == 0 {
        (seq![], seq![])
    } else {
        let (complete, begun) = scan(text.drop_last());
        if !is_separator(text.last()) {
            (complete, begun.push(text.last()))
        } else if begun.len() > 0 {
            (complete.push(begun), seq![])
        } else {
            (complete, begun)
        }
    }
}

/// The tokens of a text: its longest runs of characters that are neither
/// commas nor spaces, in their order.
pub open spec fn tokens(text: Seq<char>) -> Seq<Seq<char>> {
    let (complete, begun) = scan(text);
    if begun.len() > 0 {
        complete.push(begun)
    } else {
        complete
    }
}

/// A decimal digit.
pub open spec fn is_digit(c: char) -> bool {
    '0' <= c <= '9'
}

/// What a decimal digit counts.
pub open spec fn digit_value(c: char) -> nat {
    (c as nat - '0' as nat) as nat
}

/// What a run of decimal digits counts.
pub open spec fn digits_value(digits: Seq<char>) -> nat
    decreases digits.len(),
{
    if digits.len() == 0 {
        0
    } else {
        digits_value(digits.drop_last()) * 10 + digit_value(digits.last())
    }
}

/// The digits of a token: the token without a plus sign in front.
pub open spec fn digits_of(token: Seq<char>) -> Seq<char> {
    if token.len() > 0 && token[0] == '+' {
        token.drop_first()
    } else {
        token
    }
}

/// The number that a token writes: an optional plus sign, then decimal digits,
/// at least one, that count no more than the machine's integers hold.
pub open spec fn number_of(token: Seq<char>) -> Option<u64> {
    let digits = digits_of(token);
    if digits.len() > 0 && (forall|k: int| 0 <= k < digits.len() ==> is_digit(#[trigger] digits[k]))
        && digits_value(digits) <= u64::MAX {
        Some(digits_value(digits) as u64)
    } else {
        None
    }
}

/// What one token of the numbers comes to.
pub open spec fn number_verdict(token: Seq<char>) -> Result<u64, Rejection> {
    match number_of(token) {
        None => Err(Rejection::NotANumber { token }),
        Some(number) => if MIN_NUMBER <= number <= MAX_NUMBER {
            Ok(number)
        } else {
            Err(Rejection::NumberOutOfRange { number })
        },
    }
}

/// What the first `count` tokens come to: their numbers, or why the first
/// token that is not accepted is not.
pub open spec fn numbers_verdict(tokens: Seq<Seq<char>>, count: int) -> Result<
    Seq<u64>,
    Rejection,
>
    decreases count,
{
    if count <= 0 {
        Ok(seq![])
    } else {
        match numbers_verdict(tokens, count - 1) {
            Err(why) => Err(why),
            Ok(numbers) => match number_verdict(tokens[count - 1]) {
                Err(why) => Err(why),
                Ok(number) => Ok(numbers.push(number)),
            },
        }
    }
}

/// What a text of numbers comes to: the count of its tokens is held against
/// the count of a puzzle's numbers first, then the tokens one by one.
pub open spec fn parsed_numbers(text: Seq<char>) -> Result<Seq<u64>, Rejection> {
    if tokens(text).len() != NUM_COUNT {
        Err(Rejection::WrongCount { received: tokens(text).len() })
    } else {
        numbers_verdict(tokens(text), NUM_COUNT as int)
    }
}

/// What a text comes to as a target.
pub open spec fn parsed_target(text: Seq<char>) -> Result<u64, Rejection> {
    match number_of(text) {
        None => Err(Rejection::NotATarget { input: text }),
        Some(target) => if MIN_TARGET <= target <= MAX_TARGET {
            Ok(target)
        } else {
            Err(Rejection::TargetOutOfRange { target })
        },
    }
}

/// The characters of a text.
pub fn characters(text: &str) -> (chars: Vec<char>)
    ensures
        chars@ == text@,
{
    let mut chars: Vec<char> = Vec::new();
    for c in it: text.chars()
        invariant
            chars@ == it.seq().take(it.index() as int),
            it.seq() == text@,
    {
        chars.push(c);
    }
    chars
}

/// Where the tokens of a text lie: for each token the position of its first
/// character and the position behind its last.
pub fn token_bounds(chars: &Vec<char>) -> (bounds: Vec<(usize, usize)>)
    ensures
        bounds@.len() == tokens(chars@).len(),
        forall|k: int|
            0 <= k < bounds@.len() ==> (#[trigger] bounds@[k]).0 < bounds@[k].1 <= chars@.len()
                && chars@.subrange(bounds@[k].0 as int, bounds@[k].1 as int) == tokens(chars@)[k],
{
    let mut bounds: Vec<(usize, usize)> = Vec::new();
    let mut start: usize = 0;
    for i in 0..chars.len()
        invariant
            start <= i,
            bounds@.len() == scan(chars@.take(i as int)).0.len(),
            forall|k: int|
                0 <= k < bounds@.len() ==> (#[trigger] bounds@[k]).0 < bounds@[k].1 <= i
                    && chars@.subrange(bounds@[k].0 as int, bounds@[k].1 as int) == scan(
                    chars@.take(i as int),
                ).0[k],
            chars@.subrange(start as int, i as int) == scan(chars@.take(i as int)).1,
    {
        let c = chars[i];
        proof {
            let read = chars@.take(i + 1);
            assert(read.drop_last() =~= chars@.take(i as int));
            assert(read.last() == c);
            assert(chars@.subrange(start as int, i + 1) =~= chars@.subrange(
                start as int,
                i as int,
            ).push(c));
        }
        if c == ',' || c == ' ' {
            if start < i {
                bounds.push((start, i));
            }
            start = i + 1;
            assert(chars@.subrange(start as int, i + 1) =~= Seq::<char>::empty());
        }
    }
    assert(chars@.take(chars.len() as int) =~= chars@);
    if start < chars.len() {
        bounds.push((start, chars.len()));
    }
    bounds
}

proof fn lemma_digits_value_grows(digits: Seq<char>, k: int)
    requires
        0 <= k <= digits.len(),
    ensures
        digits_value(digits.take(k)) <= digits_value(digits),
    decreases digits.len() - k,
{
    if k < digits.len() {
        lemma_digits_value_grows(digits, k + 1);
        assert(digits.take(k + 1).drop_last() =~= digits.take(k));
    } else {
        assert(digits.take(k) =~= digits);
    }
}

/// Reads the token that lies between the positions `from` and `to` as a
/// number.
pub fn parse_number(chars: &Vec<char>, from: usize, to: usize) -> (number: Option<u64>)
    requires
        from <= to <= chars@.len(),
    ensures
        number == number_of(chars@.subrange(from as int, to as int)),
{
    let ghost token = chars@.subrange(from as int, to as int);
    let first: usize = if from < to && chars[from] == '+' {
        from + 1
    } else {
        from
    };
    let ghost digits = chars@.subrange(first as int, to as int);
    assert(digits =~= digits_of(token));
    if first == to {
        return None;
    }
    let mut value: u64 = 0;
    for i in first..to
        invariant
            from <= first <= to <= chars@.len(),
            token == chars@.subrange(from as int, to as int),
            digits == chars@.subrange(first as int, to as int),
            digits == digits_of(token),
            forall|k: int| 0 <= k < i - first ==> is_digit(#[trigger] digits[k]),
            value == digits_value(digits.take(i - first)),
    {
        let c = chars[i];
        assert(c == digits[i - first]);
        if c < '0' || c > '9' {
            assert(!is_digit(digits[i - first]));
            return None;
        }
        let digit: u64 = (c as u64) - ('0' as u64);
        proof {
            assert(digits.take(i - first + 1).drop_last() =~= digits.take(i - first));
            lemma_digits_value_grows(digits, i - first + 1);
        }
        let tenfold = match value.checked_mul(10) {
            None => {
                return None;
            },
            Some(tenfold) => tenfold,
        };
        value = match tenfold.checked_add(digit) {
            None => {
                return None;
            },
            Some(sum) => sum,
        };
    }
    assert(digits.take(to - first) =~= digits);
    Some(value)
}

proof fn lemma_first_rejection_stands(tokens: Seq<Seq<char>>, count: int, more: int)
    requires
        0 <= count <= more,
        numbers_verdict(tokens, count) is Err,
    ensures
        numbers_verdict(tokens, more) == numbers_verdict(tokens, count),
    decreases more - count,
{
    if count < more {
        lemma_first_rejection_stands(tokens, count, more - 1);
    }
}

/// Reads the numbers of a puzzle from a text in which commas and spaces part
/// them. The text must hold as many tokens as a puzzle has numbers, and each
/// must write a number within the bounds; else the answer says what is wrong
/// with the count, or with the first token that is not accepted.
pub fn parse_numbers(input: &str) -> (outcome: Result<[u64; NUM_COUNT], InputError>)
    ensures
        match outcome {
            Ok(numbers) => parsed_numbers(input@) == Ok::<Seq<u64>, Rejection>(numbers@)
                && valid_numbers(numbers@),
            Err(why) => parsed_numbers(input@) == Err::<Seq<u64>, Rejection>(why@),
        },
{
    let chars = characters(input);
    let bounds = token_bounds(&chars);
    if bounds.len() != NUM_COUNT {
        return Err(InputError::WrongCount { received: bounds.len() });
    }
    let mut numbers: [u64; NUM_COUNT] = [0;NUM_COUNT];
    for i in 0..NUM_COUNT
        invariant
            chars@ == input@,
            bounds@.len() == NUM_COUNT == tokens(chars@).len(),
            forall|k: int|
                0 <= k < bounds@.len() ==> (#[trigger] bounds@[k]).0 < bounds@[k].1 <= chars@.len()
                    && chars@.subrange(bounds@[k].0 as int, bounds@[k].1 as int) == tokens(
                    chars@,
                )[k],
            numbers_verdict(tokens(chars@), i as int) is Ok,
            numbers_verdict(tokens(chars@), i as int)->Ok_0 =~= numbers@.take(i as int),
            forall|k: int| 0 <= k < i ==> MIN_NUMBER <= #[trigger] numbers@[k] <= MAX_NUMBER,
    {
        let (from, to) = bounds[i];
        assert(bounds@[i as int].0 == from && bounds@[i as int].1 == to);
        proof {
            if numbers_verdict(tokens(chars@), i + 1) is Err {
                lemma_first_rejection_stands(tokens(chars@), i + 1, NUM_COUNT as int);
            }
        }
        match parse_number(&chars, from, to) {
            None => {
                return Err(
                    InputError::NotANumber { token: input.substring_char(from, to).to_owned() },
                );
            },
            Some(number) => {
                if number < MIN_NUMBER || number > MAX_NUMBER {
                    return Err(InputError::NumberOutOfRange { number });
                }
                numbers[i] = number;
                assert(numbers@.take(i + 1) =~= numbers@.take(i as int).push(number));
            },
        }
    }
    assert(numbers@.take(NUM_COUNT as int) =~= numbers@);
    assert(numbers_verdict(tokens(chars@), NUM_COUNT as int)->Ok_0 == numbers@);
    Ok(numbers)
}

/// Reads the target of a puzzle from a text, which must write a number within
/// the bounds and nothing else.
pub fn parse_target(input: &str) -> (outcome: Result<u64, InputError>)
    ensures
        match outcome {
            Ok(target) => parsed_target(input@) == Ok::<u64, Rejection>(target) && valid_target(
                target,
            ),
            Err(why) => parsed_target(input@) == Err::<u64, Rejection>(why@),
        },
{
    let chars = characters(input);
    assert(chars@.subrange(0, chars@.len() as int) =~= chars@);
    match parse_number(&chars, 0, chars.len()) {
        None => Err(InputError::NotATarget { input: input.to_owned() }),
        Some(target) => {
            if target < MIN_TARGET || target > MAX_TARGET {
                Err(InputError::TargetOutOfRange { target })
            } else {
                Ok(target)
            }
        },
    }
}

/// What is said of a text that was not accepted.
pub open spec fn message_text(why: Rejection) -> Seq<char> {
    match why {
        Rejection::WrongCount { received } => "❌ Error: "@ + decimal_text(NUM_COUNT as nat)
            + " numbers expected. Received: "@ + decimal_text(received) + "."@,
        Rejection::NotANumber { token } => "❌ Error: '"@ + token + "' is not a valid number"@,
        Rejection::NumberOutOfRange { number } => "❌ Error: number "@ + decimal_text(
            number as nat,
        ) + " not between "@ + decimal_text(MIN_NUMBER as nat) + " and "@ + decimal_text(
            MAX_NUMBER as nat,
        ),
        Rejection::NotATarget { input } => "❌ Error: '"@ + input
            + "' is not a valid target number"@,
        Rejection::TargetOutOfRange { target } => "❌ Error: target "@ + decimal_text(
            target as nat,
        ) + " not between "@ + decimal_text(MIN_TARGET as nat) + " and "@ + decimal_text(
            MAX_TARGET as nat,
        ),
    }
}

impl InputError {
    /// Says what was expected and what was received.
    pub fn message(&self) -> (text: String)
        ensures
            text@ == message_text(self@),
    {
        match self {
            InputError::WrongCount { received } => {
                let mut text = String::from_str("❌ Error: ");
                text.append(decimal(NUM_COUNT as u64).as_str());
                text.append(" numbers expected. Received: ");
                text.append(decimal(*received as u64).as_str());
                text.append(".");
                text
            },
            InputError::NotANumber { token } => {
                let mut text = String::from_str("❌ Error: '");
                text.append(token.as_str());
                text.append("' is not a valid number");
                text
            },
            InputError::NumberOutOfRange { number } => {
                let mut text = String::from_str("❌ Error: number ");
                text.append(decimal(*number).as_str());
                text.append(" not between ");
                text.append(decimal(MIN_NUMBER).as_str());
                text.append(" and ");
                text.append(decimal(MAX_NUMBER).as_str());
                text
            },
            InputError::NotATarget { input } => {
                let mut text = String::from_str("❌ Error: '");
                text.append(input.as_str());
                text.append("' is not a valid target number");
                text
            },
            InputError::TargetOutOfRange { target } => {
                let mut text = String::from_str("❌ Error: target ");
                text.append(decimal(*target).as_str());
                text.append(" not between ");
                text.append(decimal(MIN_TARGET).as_str());
                text.append(" and ");
                text.append(decimal(MAX_TARGET).as_str());
                text
            },
        }
    }
}

} // verus!
