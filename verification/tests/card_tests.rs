use std::collections::HashSet;

use bingo_cards::card::{
    column_sizes, generate_card, generate_fill_pattern, Card, CARD_CELLS, COLUMN_RANGES,
    MAX_PER_COLUMN, NUMBERS_PER_CARD, NUMBERS_PER_ROW, NUM_COLUMNS, NUM_ROWS,
};
use bingo_cards::rng::make_rng;

fn sample_card() -> Card {
    Card {
        grid: [
            [1, 0, 21, 0, 41, 0, 61, 0, 81],
            [0, 12, 0, 33, 0, 55, 0, 77, 0],
            [5, 0, 29, 0, 0, 58, 0, 79, 90],
        ],
    }
}

#[test]
fn generated_cards_are_structurally_valid() {
    let mut rng = make_rng(123);
    for _ in 0..500 {
        let card = generate_card(&mut rng);

        // Each row has exactly NUMBERS_PER_ROW filled cells.
        for row in &card.grid {
            let filled = row.iter().filter(|&&n| n != 0).count();
            assert_eq!(filled, NUMBERS_PER_ROW);
        }

        let mut seen = HashSet::new();
        for col in 0..NUM_COLUMNS {
            let (start, end) = COLUMN_RANGES[col];
            let mut prev = 0u16;
            let mut count = 0usize;
            for row in 0..NUM_ROWS {
                let n = card.grid[row][col];
                if n == 0 {
                    continue;
                }
                count += 1;
                assert!(n >= start && n <= end, "number {n} out of range for column {col}");
                assert!(n > prev, "column {col} not strictly ascending");
                prev = n;
                assert!(seen.insert(n), "number {n} repeated within the same card");
            }
            assert!((1..=MAX_PER_COLUMN).contains(&count), "column {col} has {count} numbers");
        }

        assert_eq!(seen.len(), NUMBERS_PER_CARD);
    }
}

#[test]
fn column_sizes_are_the_range_widths() {
    assert_eq!(column_sizes(), [9, 10, 10, 10, 10, 10, 10, 10, 11]);
}

#[test]
fn fill_patterns_have_five_per_row_and_one_to_three_per_column() {
    let mut rng = make_rng(7);
    for _ in 0..200 {
        let p = generate_fill_pattern(&mut rng);
        for row in &p {
            assert_eq!(row.iter().filter(|&&b| b).count(), NUMBERS_PER_ROW);
        }
        for col in 0..NUM_COLUMNS {
            let n = (0..NUM_ROWS).filter(|&r| p[r][col]).count();
            assert!((1..=MAX_PER_COLUMN).contains(&n));
        }
    }
}

#[test]
fn flatten_is_row_major() {
    let card = sample_card();
    let flat = card.flatten();
    assert_eq!(flat.len(), CARD_CELLS);
    assert_eq!(&flat[0..9], &[1, 0, 21, 0, 41, 0, 61, 0, 81]);
    assert_eq!(&flat[9..18], &[0, 12, 0, 33, 0, 55, 0, 77, 0]);
    assert_eq!(flat[26], 90);
}

#[test]
fn from_flat_inverts_flatten() {
    let card = sample_card();
    let rebuilt = Card::from_flat(&card.flatten());
    assert_eq!(rebuilt.grid, card.grid);
}

#[test]
fn from_flat_reads_only_the_first_cells() {
    let mut flat: Vec<u16> = (1..=30).collect();
    flat[0] = 0;
    let card = Card::from_flat(&flat);
    assert_eq!(card.grid[0][0], 0);
    assert_eq!(card.grid[1][0], 10);
    assert_eq!(card.grid[2][8], 27);
}

#[test]
fn row_key_sets_one_bit_per_number() {
    let card = sample_card();
    let expected: u128 = (1u128 << 0) | (1u128 << 20) | (1u128 << 40) | (1u128 << 60) | (1u128 << 80);
    assert_eq!(card.row_key(0), expected);
    let keys = card.row_keys();
    assert_eq!(keys[0], expected);
    assert_eq!(keys[2], (1u128 << 4) | (1u128 << 28) | (1u128 << 57) | (1u128 << 78) | (1u128 << 89));
    assert_ne!(keys[0], keys[1]);
}

#[test]
fn row_key_of_an_empty_row_is_zero() {
    let card = Card { grid: [[0; NUM_COLUMNS]; NUM_ROWS] };
    assert_eq!(card.row_key(1), 0);
}

#[test]
fn row_and_card_numbers_skip_blanks() {
    let card = sample_card();
    assert_eq!(card.row_numbers(1), vec![12, 33, 55, 77]);
    assert_eq!(card.row_numbers(2), vec![5, 29, 58, 79, 90]);
    assert_eq!(
        card.all_numbers(),
        vec![1, 21, 41, 61, 81, 12, 33, 55, 77, 5, 29, 58, 79, 90]
    );
}

#[test]
fn column_numbers_are_drawn_from_the_whole_range() {
    let mut rng = make_rng(31);
    let mut above_three = false;
    for _ in 0..20 {
        let card = generate_card(&mut rng);
        if (0..NUM_ROWS).any(|r| card.grid[r][0] > 3) {
            above_three = true;
        }
    }
    assert!(above_three);
}

#[test]
fn fill_pattern_slots_are_chosen_at_random() {
    let mut rng = make_rng(8);
    let leftmost = [true, true, true, true, true, false, false, false, false];
    let mut other = false;
    for _ in 0..50 {
        let p = generate_fill_pattern(&mut rng);
        if p[2] != leftmost {
            other = true;
        }
    }
    assert!(other);
}

#[test]
fn same_generator_state_gives_the_same_card() {
    let mut a = make_rng(2718);
    let mut b = make_rng(2718);
    for _ in 0..10 {
        assert_eq!(generate_card(&mut a).grid, generate_card(&mut b).grid);
    }
}

#[test]
fn same_generator_state_gives_the_same_pattern() {
    let mut a = make_rng(55);
    let mut b = make_rng(55);
    for _ in 0..10 {
        assert_eq!(generate_fill_pattern(&mut a), generate_fill_pattern(&mut b));
    }
}

#[test]
fn card_columns_ascend_and_follow_the_pattern_counts() {
    let mut rng = make_rng(1234);
    for _ in 0..50 {
        let card = generate_card(&mut rng);
        for c in 0..NUM_COLUMNS {
            let column: Vec<u16> = (0..NUM_ROWS).map(|r| card.grid[r][c]).filter(|&n| n != 0).collect();
            assert!(!column.is_empty() && column.len() <= MAX_PER_COLUMN);
            assert!(column.windows(2).all(|w| w[0] < w[1]));
        }
    }
}

#[test]
fn rows_with_the_same_numbers_have_the_same_key() {
    let a = Card { grid: [[7, 0, 25, 0, 0, 0, 0, 0, 0], [0; NUM_COLUMNS], [0; NUM_COLUMNS]] };
    let b = Card { grid: [[0, 25, 0, 0, 7, 0, 0, 0, 0], [0; NUM_COLUMNS], [0; NUM_COLUMNS]] };
    let c = Card { grid: [[0, 26, 0, 0, 7, 0, 0, 0, 0], [0; NUM_COLUMNS], [0; NUM_COLUMNS]] };
    assert_eq!(a.row_key(0), b.row_key(0));
    assert_ne!(a.row_key(0), c.row_key(0));
}
