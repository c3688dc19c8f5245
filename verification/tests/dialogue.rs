use cifras_core::dialogue::prompt;
use cifras_core::dialogue::react;
use cifras_core::dialogue::Awaiting;
use cifras_core::dialogue::Reaction;
use cifras_core::input::InputError;

#[test]
fn an_empty_line_for_the_numbers_asks_for_a_made_up_puzzle() {
    let reaction = react(&Awaiting::Numbers, "");
    assert!(matches!(reaction, Reaction::MakeUp));
    assert!(reaction.next(Awaiting::Numbers).is_none());
}

#[test]
fn accepted_numbers_lead_to_the_target() {
    let reaction = react(&Awaiting::Numbers, "100, 75, 50, 25, 6, 3");
    match reaction {
        Reaction::AskTarget { numbers } => assert_eq!(numbers, [100, 75, 50, 25, 6, 3]),
        ref other => panic!("{:?}", other),
    }
    match reaction.next(Awaiting::Numbers) {
        Some(Awaiting::Target { numbers }) => assert_eq!(numbers, [100, 75, 50, 25, 6, 3]),
        other => panic!("{:?}", other),
    }
}

#[test]
fn numbers_that_are_not_accepted_are_asked_again() {
    let reaction = react(&Awaiting::Numbers, "100, 75, 50");
    match reaction {
        Reaction::Complain { why: InputError::WrongCount { received } } => assert_eq!(received, 3),
        ref other => panic!("{:?}", other),
    }
    assert!(matches!(reaction.next(Awaiting::Numbers), Some(Awaiting::Numbers)));
    // blanks alone are a line, and hold no numbers
    let reaction = react(&Awaiting::Numbers, "   ");
    match reaction {
        Reaction::Complain { why: InputError::WrongCount { received } } => assert_eq!(received, 0),
        ref other => panic!("{:?}", other),
    }
}

#[test]
fn an_accepted_target_completes_the_puzzle() {
    let waiting = Awaiting::Target { numbers: [1, 2, 3, 4, 5, 6] };
    let reaction = react(&waiting, "721");
    match reaction {
        Reaction::Solve { numbers, target } => {
            assert_eq!(numbers, [1, 2, 3, 4, 5, 6]);
            assert_eq!(target, 721);
        }
        ref other => panic!("{:?}", other),
    }
    assert!(reaction.next(waiting).is_none());
}

#[test]
fn a_target_that_is_not_accepted_is_asked_again() {
    let waiting = Awaiting::Target { numbers: [1, 2, 3, 4, 5, 6] };
    let reaction = react(&waiting, "");
    match reaction {
        Reaction::Complain { why: InputError::NotATarget { ref input } } => assert_eq!(input, ""),
        ref other => panic!("{:?}", other),
    }
    match reaction.next(waiting) {
        Some(Awaiting::Target { numbers }) => assert_eq!(numbers, [1, 2, 3, 4, 5, 6]),
        other => panic!("{:?}", other),
    }
    let reaction = react(&waiting, "5000");
    match reaction {
        Reaction::Complain { why: InputError::TargetOutOfRange { target } } => {
            assert_eq!(target, 5000)
        }
        ref other => panic!("{:?}", other),
    }
}

#[test]
fn prompts() {
    assert_eq!(prompt(&Awaiting::Numbers), "Introduce numbers (ENTER for randomly generated):\n");
    assert_eq!(prompt(&Awaiting::Target { numbers: [1, 1, 1, 1, 1, 1] }), "Target: ");
}
