use cifras_core::build_next_numbers;
use cifras_core::numbers::fit_numbers;

#[test]
fn new_value_comes_first_and_the_rest_keep_their_order() {
    let numbers = [100, 75, 50, 25, 6, 3];
    assert_eq!(build_next_numbers(&numbers, 1, 4, 81), [81, 100, 50, 25, 3, 0]);
}

#[test]
fn first_and_last_positions() {
    let numbers = [100, 75, 50, 25, 6, 3];
    assert_eq!(build_next_numbers(&numbers, 0, 5, 103), [103, 75, 50, 25, 6, 0]);
}

#[test]
fn adjacent_positions() {
    let numbers = [100, 75, 50, 25, 6, 3];
    assert_eq!(build_next_numbers(&numbers, 0, 1, 175), [175, 50, 25, 6, 3, 0]);
    assert_eq!(build_next_numbers(&numbers, 4, 5, 18), [18, 100, 75, 50, 25, 0]);
    assert_eq!(build_next_numbers(&numbers, 2, 3, 2), [2, 100, 75, 6, 3, 0]);
}

#[test]
fn a_smaller_set_in_the_same_storage() {
    let numbers = [18, 100, 75, 0, 0, 0];
    assert_eq!(build_next_numbers(&numbers, 0, 2, 93), [93, 100, 0, 0, 0, 0]);
    let numbers = [93, 100, 0, 0, 0, 0];
    assert_eq!(build_next_numbers(&numbers, 0, 1, 193), [193, 0, 0, 0, 0, 0]);
}

#[test]
fn input_is_not_changed() {
    let numbers = [9, 8, 7, 6, 5, 4];
    let _ = build_next_numbers(&numbers, 2, 3, 13);
    assert_eq!(numbers, [9, 8, 7, 6, 5, 4]);
}

#[test]
fn untouched_numbers_keep_multiset_and_order_for_every_pair() {
    let numbers = [11u64, 22, 33, 44, 55, 66];
    for pos1 in 0..6 {
        for pos2 in (pos1 + 1)..6 {
            let next = build_next_numbers(&numbers, pos1, pos2, 7);
            assert_eq!(next[0], 7);
            let mut expected: Vec<u64> = Vec::new();
            for (k, n) in numbers.iter().enumerate() {
                if k != pos1 && k != pos2 {
                    expected.push(*n);
                }
            }
            assert_eq!(&next[1..5], expected.as_slice());
            assert_eq!(next[5], 0);
        }
    }
}

#[test]
fn numbers_are_cut_or_filled_to_the_count_of_a_puzzle() {
    assert_eq!(fit_numbers(&[1, 2, 3, 4, 5, 6]), [1, 2, 3, 4, 5, 6]);
    assert_eq!(fit_numbers(&[1, 2, 3, 4, 5, 6, 7, 8]), [1, 2, 3, 4, 5, 6]);
    assert_eq!(fit_numbers(&[9, 8, 7]), [9, 8, 7, 0, 0, 0]);
    assert_eq!(fit_numbers(&[]), [0, 0, 0, 0, 0, 0]);
}
