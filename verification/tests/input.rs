use cifras_core::input::characters;
use cifras_core::input::parse_number;
use cifras_core::input::parse_numbers;
use cifras_core::input::parse_target;
use cifras_core::input::token_bounds;
use cifras_core::input::InputError;

fn number_of(token: &str) -> Option<u64> {
    let chars = characters(token);
    parse_number(&chars, 0, chars.len())
}

#[test]
fn numbers_parted_by_commas() {
    assert_eq!(parse_numbers("100,75,50,25,6,3").unwrap(), [100, 75, 50, 25, 6, 3]);
}

#[test]
fn numbers_parted_by_spaces() {
    assert_eq!(parse_numbers("1 2 3 4 5 6").unwrap(), [1, 2, 3, 4, 5, 6]);
}

#[test]
fn numbers_parted_by_runs_of_commas_and_spaces() {
    assert_eq!(parse_numbers("10 , 20,,30   40 ,50, 60").unwrap(), [10, 20, 30, 40, 50, 60]);
    assert_eq!(parse_numbers(" ,1,2,3,4,5,6, ").unwrap(), [1, 2, 3, 4, 5, 6]);
}

#[test]
fn numbers_at_the_bounds() {
    assert_eq!(parse_numbers("1 100 1 100 1 100").unwrap(), [1, 100, 1, 100, 1, 100]);
}

#[test]
fn numbers_with_a_plus_sign_or_leading_zeros() {
    assert_eq!(parse_numbers("+1 007 +010 4 5 6").unwrap(), [1, 7, 10, 4, 5, 6]);
}

#[test]
fn too_few_numbers() {
    match parse_numbers("1 2 3 4 5") {
        Err(InputError::WrongCount { received }) => assert_eq!(received, 5),
        other => panic!("{:?}", other),
    }
    assert_eq!(
        parse_numbers("1 2 3 4 5").unwrap_err().message(),
        "❌ Error: 6 numbers expected. Received: 5."
    );
}

#[test]
fn too_many_numbers() {
    match parse_numbers("1,2,3,4,5,6,7") {
        Err(InputError::WrongCount { received }) => assert_eq!(received, 7),
        other => panic!("{:?}", other),
    }
}

#[test]
fn no_numbers_at_all() {
    match parse_numbers("") {
        Err(InputError::WrongCount { received }) => assert_eq!(received, 0),
        other => panic!("{:?}", other),
    }
    match parse_numbers(" , ,, ") {
        Err(InputError::WrongCount { received }) => assert_eq!(received, 0),
        other => panic!("{:?}", other),
    }
    assert_eq!(
        parse_numbers("").unwrap_err().message(),
        "❌ Error: 6 numbers expected. Received: 0."
    );
}

#[test]
fn the_count_is_held_before_the_tokens() {
    match parse_numbers("a b c") {
        Err(InputError::WrongCount { received }) => assert_eq!(received, 3),
        other => panic!("{:?}", other),
    }
}

#[test]
fn a_token_that_is_no_number() {
    match parse_numbers("1 2 x3 4 5 6") {
        Err(InputError::NotANumber { token }) => assert_eq!(token, "x3"),
        other => panic!("{:?}", other),
    }
    assert_eq!(
        parse_numbers("1 2 x3 4 5 6").unwrap_err().message(),
        "❌ Error: 'x3' is not a valid number"
    );
}

#[test]
fn a_token_that_is_no_number_beyond_ascii() {
    match parse_numbers("1 2 3 4 5 sí") {
        Err(InputError::NotANumber { token }) => assert_eq!(token, "sí"),
        other => panic!("{:?}", other),
    }
    match parse_numbers("ñ1 2 3 4 5 6") {
        Err(InputError::NotANumber { token }) => assert_eq!(token, "ñ1"),
        other => panic!("{:?}", other),
    }
}

#[test]
fn a_tab_does_not_part_tokens() {
    match parse_numbers("1\t2 3 4 5 6 7") {
        Err(InputError::NotANumber { token }) => assert_eq!(token, "1\t2"),
        other => panic!("{:?}", other),
    }
}

#[test]
fn a_number_out_of_range() {
    match parse_numbers("1 2 3 101 5 6") {
        Err(InputError::NumberOutOfRange { number }) => assert_eq!(number, 101),
        other => panic!("{:?}", other),
    }
    match parse_numbers("0 2 3 4 5 6") {
        Err(InputError::NumberOutOfRange { number }) => assert_eq!(number, 0),
        other => panic!("{:?}", other),
    }
    assert_eq!(
        parse_numbers("1 2 3 101 5 6").unwrap_err().message(),
        "❌ Error: number 101 not between 1 and 100"
    );
}

#[test]
fn the_first_token_that_is_not_accepted_is_reported() {
    match parse_numbers("1 200 x 4 5 6") {
        Err(InputError::NumberOutOfRange { number }) => assert_eq!(number, 200),
        other => panic!("{:?}", other),
    }
    match parse_numbers("1 x 200 4 5 6") {
        Err(InputError::NotANumber { token }) => assert_eq!(token, "x"),
        other => panic!("{:?}", other),
    }
}

#[test]
fn a_negative_number_is_no_number() {
    match parse_numbers("1 -2 3 4 5 6") {
        Err(InputError::NotANumber { token }) => assert_eq!(token, "-2"),
        other => panic!("{:?}", other),
    }
}

#[test]
fn a_number_beyond_the_machine_is_no_number() {
    match parse_numbers("1 2 3 4 5 18446744073709551616") {
        Err(InputError::NotANumber { token }) => assert_eq!(token, "18446744073709551616"),
        other => panic!("{:?}", other),
    }
    match parse_numbers("1 2 3 4 5 18446744073709551615") {
        Err(InputError::NumberOutOfRange { number }) => assert_eq!(number, u64::MAX),
        other => panic!("{:?}", other),
    }
}

#[test]
fn target_within_the_bounds() {
    assert_eq!(parse_target("100").unwrap(), 100);
    assert_eq!(parse_target("952").unwrap(), 952);
    assert_eq!(parse_target("999").unwrap(), 999);
    assert_eq!(parse_target("+500").unwrap(), 500);
}

#[test]
fn target_out_of_range() {
    match parse_target("99") {
        Err(InputError::TargetOutOfRange { target }) => assert_eq!(target, 99),
        other => panic!("{:?}", other),
    }
    match parse_target("1000") {
        Err(InputError::TargetOutOfRange { target }) => assert_eq!(target, 1000),
        other => panic!("{:?}", other),
    }
    assert_eq!(
        parse_target("1000").unwrap_err().message(),
        "❌ Error: target 1000 not between 100 and 999"
    );
}

#[test]
fn target_that_is_no_number() {
    for text in ["", "abc", "12a", " 500", "500 ", "5 00", "-500", "+", "5,00"] {
        match parse_target(text) {
            Err(InputError::NotATarget { input }) => assert_eq!(input, text),
            other => panic!("{:?}", other),
        }
    }
    assert_eq!(
        parse_target("abc").unwrap_err().message(),
        "❌ Error: 'abc' is not a valid target number"
    );
}

#[test]
fn tokens_are_the_runs_between_separators() {
    let chars = characters("ab, c ,,def");
    assert_eq!(chars, vec!['a', 'b', ',', ' ', 'c', ' ', ',', ',', 'd', 'e', 'f']);
    assert_eq!(token_bounds(&chars), vec![(0, 2), (4, 5), (8, 11)]);
    assert_eq!(token_bounds(&characters("")), vec![]);
    assert_eq!(token_bounds(&characters(",, ")), vec![]);
    assert_eq!(token_bounds(&characters("x")), vec![(0, 1)]);
}

#[test]
fn a_token_reads_as_the_standard_library_reads_it() {
    let tokens = [
        "0", "7", "42", "007", "+7", "+", "-7", "++7", "+-7", "7+", "", "a", "1a", "a1", "1.0",
        "1e3", "0x10", "18446744073709551615", "18446744073709551616", "99999999999999999999",
        "+18446744073709551615", "000000000000000000000000018446744073709551615", "１２", "٣",
        "1_000", " 1", "1 ",
    ];
    for token in tokens {
        assert_eq!(number_of(token), token.parse::<u64>().ok(), "{:?}", token);
    }
}
