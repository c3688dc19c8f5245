use cifras_core::text::decimal;
use cifras_core::text::deviation;
use cifras_core::Operation;
use cifras_core::SolutionStep;

#[test]
fn decimal_writes_numbers_as_the_standard_library_does() {
    for n in [0u64, 1, 9, 10, 11, 99, 100, 101, 952, 1000, 123456789, u64::MAX - 1, u64::MAX] {
        assert_eq!(decimal(n), format!("{}", n));
    }
    assert_eq!(decimal(0), "0");
    assert_eq!(decimal(1203), "1203");
    assert_eq!(decimal(u64::MAX), "18446744073709551615");
}

#[test]
fn a_step_is_written_with_its_symbol() {
    let cases = [
        (SolutionStep { result: 103, a: 100, b: 3, op: Operation::Add }, "100 + 3 = 103"),
        (SolutionStep { result: 69, a: 75, b: 6, op: Operation::Sub }, "75 - 6 = 69"),
        (SolutionStep { result: 7725, a: 103, b: 75, op: Operation::Mul }, "103 * 75 = 7725"),
        (SolutionStep { result: 2, a: 50, b: 25, op: Operation::Div }, "50 / 25 = 2"),
    ];
    for (step, text) in cases {
        assert_eq!(step.to_string(), text);
    }
}

#[test]
fn deviation_carries_its_sign() {
    assert_eq!(deviation(955, 952), "+3");
    assert_eq!(deviation(940, 952), "-12");
    assert_eq!(deviation(952, 952), "+0");
    assert_eq!(deviation(12, 999), "-987");
    assert_eq!(deviation(u64::MAX, 0), "+18446744073709551615");
    assert_eq!(deviation(0, u64::MAX), "-18446744073709551615");
}
