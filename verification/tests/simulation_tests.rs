use bingo_cards::card::Card;
use bingo_cards::generation::generate_cards;
use bingo_cards::simulation::{play_round, simulate_game, CardRows};

fn ratio(count: u32, iterations: u32) -> f64 {
    count as f64 / iterations as f64
}

#[test]
fn probabilities_are_within_bounds() {
    let cards = generate_cards(10, 42);
    let result = simulate_game(&cards, 200, 7);
    let p_double_bingo = ratio(result.double_bingo_count, result.iterations);
    let p_triple_plus_bingo = ratio(result.triple_plus_count, result.iterations);
    let p_double_linea = ratio(result.double_linea_count, result.iterations);
    let avg_balls_to_bingo = result.total_balls_to_bingo as f64 / result.iterations as f64;
    assert!((0.0..=1.0).contains(&p_double_bingo));
    assert!((0.0..=1.0).contains(&p_triple_plus_bingo));
    assert!((0.0..=1.0).contains(&p_double_linea));
    assert!(avg_balls_to_bingo >= 15.0 && avg_balls_to_bingo <= 90.0);
}

#[test]
fn double_bingo_probability_increases_with_more_cards() {
    let small = generate_cards(5, 1);
    let large = generate_cards(200, 1);
    let small_result = simulate_game(&small, 5_000, 99);
    let large_result = simulate_game(&large, 5_000, 99);
    assert!(
        ratio(large_result.double_bingo_count, 5_000) >= ratio(small_result.double_bingo_count, 5_000)
    );
}

#[test]
fn no_cards_or_no_iterations_give_zero_counts() {
    let r = simulate_game(&[], 100, 1);
    assert_eq!(r.iterations, 100);
    assert_eq!(r.double_bingo_count, 0);
    assert_eq!(r.total_balls_to_bingo, 0);
    let cards = generate_cards(3, 1);
    let r = simulate_game(&cards, 0, 1);
    assert_eq!(r.iterations, 0);
    assert_eq!(r.double_linea_count, 0);
    assert_eq!(r.total_balls_to_bingo, 0);
}

#[test]
fn a_single_card_never_ties() {
    let cards = generate_cards(1, 5);
    let r = simulate_game(&cards, 300, 6);
    assert_eq!(r.double_bingo_count, 0);
    assert_eq!(r.triple_plus_count, 0);
    assert_eq!(r.double_linea_count, 0);
    assert!(r.total_balls_to_bingo >= 15 * 300 && r.total_balls_to_bingo <= 90 * 300);
}

#[test]
fn shuffled_draws_vary_between_seeds() {
    let cards = generate_cards(1, 5);
    let a = simulate_game(&cards, 50, 1);
    let b = simulate_game(&cards, 50, 2);
    assert_ne!(a.total_balls_to_bingo, b.total_balls_to_bingo);
}

fn rows(numbers: Vec<u16>, r0: Vec<u16>, r1: Vec<u16>, r2: Vec<u16>) -> CardRows {
    CardRows { numbers, rows: [r0, r1, r2] }
}

#[test]
fn play_round_finds_the_earliest_completions_and_ties() {
    // ball b is drawn at index 90 - b: high numbers come out first
    let mut position = [0u16; 91];
    for b in 1..=90u16 {
        position[b as usize] = 90 - b;
    }
    let a = rows(vec![80, 85, 90], vec![80], vec![85], vec![90]);
    let b = rows(vec![80, 88], vec![88], vec![80], vec![]);
    let c = rows(vec![10, 90], vec![10], vec![90], vec![]);
    let card_rows = vec![a, b, c];
    let outcome = play_round(&card_rows, &position);
    // bingo: a at 10 (ball 80), b at 10 (ball 80), c at 80 (ball 10)
    assert_eq!(outcome.min_bingo_pos, 10);
    assert_eq!(outcome.bingo_winners, 2);
    // line: a at 0 (ball 90), b at 0 (empty row), c at 0 (ball 90)
    assert_eq!(outcome.min_linea_pos, 0);
    assert_eq!(outcome.linea_winners, 3);

    let only_c = vec![rows(vec![10, 90], vec![10], vec![90], vec![1])];
    let single = play_round(&only_c, &position);
    assert_eq!(single.min_bingo_pos, 80);
    assert_eq!(single.bingo_winners, 1);
    assert_eq!(single.min_linea_pos, 0);
    assert_eq!(single.linea_winners, 1);
}

#[test]
fn play_round_with_no_cards() {
    let position = [0u16; 91];
    let outcome = play_round(&Vec::new(), &position);
    assert_eq!(outcome.min_bingo_pos, u16::MAX);
    assert_eq!(outcome.bingo_winners, 0);
}

#[test]
fn simulate_game_accepts_decoded_cards() {
    let card = Card {
        grid: [
            [1, 0, 21, 0, 41, 0, 61, 0, 81],
            [0, 12, 0, 33, 0, 55, 0, 77, 0],
            [5, 0, 29, 0, 0, 58, 0, 79, 90],
        ],
    };
    let r = simulate_game(&[card, card], 20, 3);
    // identical cards always tie
    assert_eq!(r.double_bingo_count, 20);
    assert_eq!(r.double_linea_count, 20);
    assert_eq!(r.triple_plus_count, 0);
}

fn layout_card() -> Card {
    Card {
        grid: [
            [1, 0, 20, 0, 40, 0, 60, 0, 80],
            [0, 10, 0, 30, 0, 50, 0, 70, 90],
            [2, 11, 21, 31, 41, 0, 0, 0, 0],
        ],
    }
}

#[test]
fn three_identical_cards_tie_three_ways_every_game() {
    let c = layout_card();
    let r = simulate_game(&[c.clone(), c.clone(), c.clone()], 10, 7);
    assert_eq!(r.iterations, 10);
    assert_eq!(r.double_bingo_count, 10);
    assert_eq!(r.triple_plus_count, 10);
    assert_eq!(r.double_linea_count, 10);
    assert!(r.total_balls_to_bingo >= 150 && r.total_balls_to_bingo <= 900);
}

#[test]
fn two_identical_cards_tie_two_ways_every_game() {
    let c = layout_card();
    let r = simulate_game(&[c.clone(), c.clone()], 10, 3);
    assert_eq!(r.double_bingo_count, 10);
    assert_eq!(r.triple_plus_count, 0);
    assert_eq!(r.double_linea_count, 10);
}

#[test]
fn card_order_does_not_change_the_counts() {
    let cards = generate_cards(12, 77);
    let mut reversed = cards.clone();
    reversed.reverse();
    let a = simulate_game(&cards, 300, 5);
    let b = simulate_game(&reversed, 300, 5);
    assert_eq!(a.double_bingo_count, b.double_bingo_count);
    assert_eq!(a.triple_plus_count, b.triple_plus_count);
    assert_eq!(a.double_linea_count, b.double_linea_count);
    assert_eq!(a.total_balls_to_bingo, b.total_balls_to_bingo);
}

#[test]
fn same_seed_gives_the_same_counts() {
    let cards = generate_cards(8, 4);
    let a = simulate_game(&cards, 200, 11);
    let b = simulate_game(&cards, 200, 11);
    assert_eq!(a.double_bingo_count, b.double_bingo_count);
    assert_eq!(a.triple_plus_count, b.triple_plus_count);
    assert_eq!(a.double_linea_count, b.double_linea_count);
    assert_eq!(a.total_balls_to_bingo, b.total_balls_to_bingo);
}
