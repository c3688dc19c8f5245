use cifras_core::generate::generate_data;
use cifras_core::generate::generate_numbers;
use cifras_core::generate::number_from_draws;
use cifras_core::generate::wants_big_number;
use cifras_core::resolve_cifras;
use cifras_core::search::can_search;

const BIG: [u64; 5] = [10, 25, 50, 75, 100];

#[test]
fn a_draw_up_to_28_asks_for_a_big_number() {
    assert!(wants_big_number(0));
    assert!(wants_big_number(28));
    assert!(!wants_big_number(29));
    assert!(!wants_big_number(100));
}

#[test]
fn two_draws_make_a_number() {
    for (choice, big) in BIG.iter().enumerate() {
        assert_eq!(number_from_draws(0, choice as u64), *big);
        assert_eq!(number_from_draws(28, choice as u64), *big);
    }
    for digit in 1u64..=9 {
        assert_eq!(number_from_draws(29, digit), digit);
        assert_eq!(number_from_draws(100, digit), digit);
    }
}

#[test]
fn generated_numbers_are_big_numbers_or_digits() {
    let mut rng = rand::thread_rng();
    for _ in 0..300 {
        let numbers = generate_numbers(&mut rng);
        for n in numbers {
            assert!(BIG.contains(&n) || (1..=9).contains(&n));
        }
        assert!(can_search(&numbers));
    }
}

#[test]
fn generated_numbers_vary() {
    let mut rng = rand::thread_rng();
    let mut seen = [false; 101];
    for _ in 0..500 {
        for n in generate_numbers(&mut rng) {
            seen[n as usize] = true;
        }
    }
    // 3000 draws: every big number and every digit turns up
    for n in BIG {
        assert!(seen[n as usize]);
    }
    for n in 1..=9 {
        assert!(seen[n]);
    }
}

#[test]
fn generated_data_is_a_puzzle() {
    let mut targets = Vec::new();
    for _ in 0..200 {
        let (numbers, target) = generate_data();
        assert!((100..=999).contains(&target));
        for n in numbers {
            assert!((1..=100).contains(&n));
        }
        targets.push(target);
    }
    targets.sort();
    targets.dedup();
    assert!(targets.len() > 20);
}

#[test]
fn a_generated_puzzle_is_solved() {
    let (numbers, target) = generate_data();
    let best = resolve_cifras(&numbers, target);
    assert!(best.count() >= 1);
    assert!(best.result().is_some());
}

#[test]
fn numbers_that_cannot_be_searched() {
    assert!(can_search(&[100, 75, 50, 25, 6, 3]));
    assert!(can_search(&[1, 1, 1, 1, 1, 1]));
    assert!(!can_search(&[100, 75, 0, 25, 6, 3]));
    assert!(!can_search(&[5, 0, 0, 0, 0, 0]));
    // 2^11 to the sixth power is 2^66
    assert!(!can_search(&[2048, 2048, 2048, 2048, 2048, 2048]));
    // 2^10 to the sixth power is 2^60
    assert!(can_search(&[1024, 1024, 1024, 1024, 1024, 1024]));
    // the ones count as twos: 2^63 * 2 is 2^64
    assert!(!can_search(&[1 << 63, 1, 3, 3, 3, 3]));
}
