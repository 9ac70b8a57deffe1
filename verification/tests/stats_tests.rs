use bingo_cards::card::column_sizes;
use bingo_cards::rng::fallback_seed;
use bingo_cards::simulation::default_iterations;
use bingo_cards::stats::{combinatorial_stats, elementary_symmetric_k};

#[test]
fn total_rows_possible_matches_known_value() {
    let sizes = column_sizes();
    assert_eq!(elementary_symmetric_k(&sizes, 5), 12_565_000);
}

#[test]
fn max_theoretical_n_matches_known_value() {
    let sizes = column_sizes();
    let r = elementary_symmetric_k(&sizes, 5);
    assert_eq!(r / 3, 4_188_333);
}

#[test]
fn elementary_symmetric_small_cases() {
    assert_eq!(elementary_symmetric_k(&[1, 2, 3], 0), 1);
    assert_eq!(elementary_symmetric_k(&[1, 2, 3], 1), 6);
    assert_eq!(elementary_symmetric_k(&[1, 2, 3], 2), 11);
    assert_eq!(elementary_symmetric_k(&[1, 2, 3], 3), 6);
    assert_eq!(elementary_symmetric_k(&[1, 2, 3], 4), 0);
    assert_eq!(elementary_symmetric_k(&[], 0), 1);
    assert_eq!(elementary_symmetric_k(&[], 2), 0);
}

#[test]
fn combinatorial_counts_for_ten_cards() {
    let s = combinatorial_stats(10);
    assert_eq!(s.n, 10);
    assert_eq!(s.total_rows_possible, 12_565_000);
    assert_eq!(s.rows_used, 30);
    assert_eq!(s.max_theoretical_n, 4_188_333);
    assert_eq!(combinatorial_stats(0).rows_used, 0);
}

#[test]
fn default_iterations_scale_inversely() {
    assert_eq!(default_iterations(0), 500);
    assert_eq!(default_iterations(1), 8_000);
    assert_eq!(default_iterations(250), 8_000);
    assert_eq!(default_iterations(400), 5_000);
    assert_eq!(default_iterations(4_000), 500);
    assert_eq!(default_iterations(100_000), 500);
}

#[test]
fn fallback_seed_mixes_clock_and_counter() {
    assert_eq!(fallback_seed(5, 0), 5);
    assert_eq!(fallback_seed(5, 1), 5 ^ 0x9E37_79B9_7F4A_7C15);
    assert_eq!(fallback_seed(0, 2), 0x9E37_79B9_7F4A_7C15u64.wrapping_mul(2));
}

#[test]
fn elementary_symmetric_ignores_the_order_of_the_values() {
    let values = [4u32, 9, 1, 7, 3];
    let reordered = [7u32, 3, 4, 1, 9];
    for k in 0..7 {
        assert_eq!(elementary_symmetric_k(&values, k), elementary_symmetric_k(&reordered, k));
    }
    assert_eq!(elementary_symmetric_k(&values, 2), 4 * 9 + 4 + 4 * 7 + 4 * 3 + 9 + 9 * 7 + 9 * 3 + 7 + 3 + 7 * 3);
}
