use std::collections::HashSet;

use bingo_cards::card::{Card, CARD_CELLS, NUM_COLUMNS, NUM_ROWS};
use bingo_cards::generation::{cards_from_flat, flatten_cards, generate_cards, try_admit_card};

#[test]
fn no_duplicate_rows_in_a_large_batch() {
    let n = 2000;
    let cards = generate_cards(n, 2024);
    let mut all_keys = HashSet::new();
    for card in &cards {
        for key in card.row_keys() {
            assert!(all_keys.insert(key), "duplicate row detected");
        }
    }
    assert_eq!(all_keys.len(), (n as usize) * 3);
}

#[test]
fn generation_is_deterministic_given_a_seed() {
    let a = generate_cards(50, 555);
    let b = generate_cards(50, 555);
    for (ca, cb) in a.iter().zip(b.iter()) {
        assert_eq!(ca.grid, cb.grid);
    }
}

#[test]
fn different_seeds_produce_different_output() {
    let a = generate_cards(50, 1);
    let b = generate_cards(50, 2);
    let any_different = a.iter().zip(b.iter()).any(|(ca, cb)| ca.grid != cb.grid);
    assert!(any_different);
}

#[test]
fn batch_has_the_requested_size() {
    assert_eq!(generate_cards(0, 3).len(), 0);
    assert_eq!(generate_cards(17, 3).len(), 17);
    assert_eq!(generate_cards(4, bingo_cards::rng::fallback_seed(1_700_000_000_000_000_000, 0)).len(), 4);
}

fn card_with_rows(a: [u16; NUM_COLUMNS], b: [u16; NUM_COLUMNS], c: [u16; NUM_COLUMNS]) -> Card {
    Card { grid: [a, b, c] }
}

#[test]
fn admission_refuses_a_taken_row() {
    let first = card_with_rows(
        [1, 0, 21, 0, 41, 0, 61, 0, 81],
        [0, 12, 0, 33, 0, 55, 0, 77, 0],
        [5, 0, 29, 0, 0, 58, 0, 79, 90],
    );
    let clash = card_with_rows(
        [2, 0, 22, 0, 42, 0, 62, 0, 82],
        [0, 12, 0, 33, 0, 55, 0, 77, 0],
        [6, 0, 28, 0, 0, 57, 0, 78, 89],
    );
    let fresh = card_with_rows(
        [3, 0, 23, 0, 43, 0, 63, 0, 83],
        [0, 13, 0, 34, 0, 56, 0, 76, 0],
        [7, 0, 27, 0, 0, 59, 0, 75, 88],
    );
    let mut used = HashSet::new();
    let mut cards = Vec::new();
    assert!(try_admit_card(&mut used, &mut cards, first));
    assert_eq!(used.len(), 3);
    assert!(!try_admit_card(&mut used, &mut cards, clash));
    assert_eq!(cards.len(), 1);
    assert_eq!(used.len(), 3);
    assert!(try_admit_card(&mut used, &mut cards, fresh));
    assert_eq!(cards.len(), 2);
    assert_eq!(used.len(), 6);
}

#[test]
fn flatten_cards_concatenates_row_major_cards() {
    let cards = generate_cards(3, 9);
    let flat = flatten_cards(&cards);
    assert_eq!(flat.len(), 3 * CARD_CELLS);
    for (i, card) in cards.iter().enumerate() {
        for r in 0..NUM_ROWS {
            for c in 0..NUM_COLUMNS {
                assert_eq!(flat[i * CARD_CELLS + r * NUM_COLUMNS + c], card.grid[r][c]);
            }
        }
    }
    assert!(flatten_cards(&[]).is_empty());
}

#[test]
fn decoding_the_flat_batch_gives_back_the_cards() {
    let cards = generate_cards(5, 11);
    let decoded = cards_from_flat(&flatten_cards(&cards)).expect("whole cards");
    assert_eq!(decoded.len(), cards.len());
    for (a, b) in decoded.iter().zip(cards.iter()) {
        assert_eq!(a.grid, b.grid);
    }
}

#[test]
fn decoding_refuses_a_partial_card() {
    let flat = vec![0u16; CARD_CELLS + 1];
    assert!(cards_from_flat(&flat).is_none());
    assert_eq!(cards_from_flat(&[]).map(|v| v.len()), Some(0));
}

#[test]
fn smaller_batch_is_the_start_of_a_larger_one() {
    let small = generate_cards(7, 909);
    let large = generate_cards(30, 909);
    assert_eq!(small.len(), 7);
    assert_eq!(large.len(), 30);
    for i in 0..7 {
        assert_eq!(small[i].grid, large[i].grid);
    }
}

#[test]
fn flat_batch_has_twenty_seven_cells_per_card() {
    let cards = generate_cards(9, 12);
    let flat = flatten_cards(&cards);
    assert_eq!(flat.len(), 27 * 9);
    assert!(flat.iter().all(|&n| n <= 90));
    let mut keys = std::collections::HashSet::new();
    for card in &cards {
        for k in card.row_keys() {
            assert!(keys.insert(k));
        }
    }
    assert_eq!(keys.len(), 3 * 9);
}
