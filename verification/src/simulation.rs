//! Monte Carlo counting of simultaneous wins ("doble bingo", "doble línea")
//! over a set of cards.

use crate::card::{
    NUMBERS_PER_CARD, card_numbers, filled, is_valid_card, lemma_filled_members,
    lemma_valid_card_numbers, Card,
    NUM_COLUMNS, NUM_ROWS,
};
use crate::rng::{make_rng, seeded_generator, shuffle_in_place, shuffle_order, shuffle_step};
use rand::rngs::SmallRng;
use vstd::prelude::*;

verus! {

/// A card's numbers, all together and row by row, as the rounds read them.
pub struct CardRows {
    pub numbers: Vec<u16>,
    pub rows: [Vec<u16>; NUM_ROWS],
}

/// `rows` holds the numbers of `card`.
pub open spec fn describes(rows: CardRows, card: Card) -> bool {
    &&& rows.numbers@ == card_numbers(card)
    &&& forall|r: int| 0 <= r < NUM_ROWS ==> (#[trigger] rows.rows[r])@ == filled(card.grid[r]@)
}

/// Every number of one card's rows is at most 90 (a ball).
pub open spec fn rows_are_balls(rows: CardRows) -> bool {
    &&& forall|k: int| 0 <= k < rows.numbers@.len() ==> #[trigger] rows.numbers@[k] <= 90
    &&& forall|r: int, k: int|
        0 <= r < NUM_ROWS && 0 <= k < rows.rows[r]@.len() ==> #[trigger] rows.rows[r]@[k] <= 90
}

/// Every number of the card rows is at most 90 (a ball).
pub open spec fn numbers_are_balls(card_rows: Seq<CardRows>) -> bool {
    forall|i: int| 0 <= i < card_rows.len() ==> rows_are_balls(#[trigger] card_rows[i])
}

/// Collects each card's numbers and row numbers.
fn extract_card_rows(cards: &[Card]) -> (card_rows: Vec<CardRows>)
    ensures
        card_rows@.len() == cards@.len(),
        forall|i: int| 0 <= i < cards@.len() ==> describes(#[trigger] card_rows@[i], cards@[i]),
{
    let mut card_rows: Vec<CardRows> = Vec::new();
    for i in 0..cards.len()
        invariant
            card_rows@.len() == i,
            forall|j: int| 0 <= j < i ==> describes(#[trigger] card_rows@[j], cards@[j]),
    {
        let card = &cards[i];
        let numbers = card.all_numbers();
        let rows = [card.row_numbers(0), card.row_numbers(1), card.row_numbers(2)];
        card_rows.push(CardRows { numbers, rows });
    }
    card_rows
}

/// The draw index of the last of `numbers` to come out (0 for no numbers):
/// the largest position among them.
pub open spec fn last_drawn(numbers: Seq<u16>, position: Seq<u16>) -> u16
    decreases numbers.len(),
{
    if numbers.len() == 0 {
        0
    } else {
        let earlier = last_drawn(numbers.drop_last(), position);
        let p = position[numbers.last() as int];
        if p > earlier {
            p
        } else {
            earlier
        }
    }
}

/// When a card completes bingo: when its last number is drawn.
pub open spec fn bingo_position(rows: CardRows, position: Seq<u16>) -> u16 {
    last_drawn(rows.numbers@, position)
}

/// When a card completes a line: the earliest of its rows' completions.
pub open spec fn linea_position(rows: CardRows, position: Seq<u16>) -> u16 {
    let a = last_drawn(rows.rows[0]@, position);
    let b = last_drawn(rows.rows[1]@, position);
    let c = last_drawn(rows.rows[2]@, position);
    let ab = if b < a {
        b
    } else {
        a
    };
    if c < ab {
        c
    } else {
        ab
    }
}

/// The smallest entry, or `u16::MAX` for none.
pub open spec fn min_or_max(s: Seq<u16>) -> u16
    decreases s.len(),
{
    if s.len() == 0 {
        u16::MAX
    } else {
        let m = min_or_max(s.drop_last());
        if s.last() < m {
            s.last()
        } else {
            m
        }
    }
}

/// How many entries equal `v`.
pub open spec fn count_of(s: Seq<u16>, v: u16) -> nat
    decreases s.len(),
{
    if s.len() == 0 {
        0
    } else {
        count_of(s.drop_last(), v) + if s.last() == v {
            1nat
        } else {
            0nat
        }
    }
}

/// The bingo completion position of each card.
pub open spec fn bingo_positions(card_rows: Seq<CardRows>, position: Seq<u16>) -> Seq<u16> {
    Seq::new(card_rows.len(), |i: int| bingo_position(card_rows[i], position))
}

/// The line completion position of each card.
pub open spec fn linea_positions(card_rows: Seq<CardRows>, position: Seq<u16>) -> Seq<u16> {
    Seq::new(card_rows.len(), |i: int| linea_position(card_rows[i], position))
}

/// The outcome of one drawn game: the earliest bingo and how many cards
/// complete it at that ball, the earliest line and how many cards complete
/// one at that ball.
#[derive(Debug, Clone, Copy)]
pub struct RoundOutcome {
    pub min_bingo_pos: u16,
    pub bingo_winners: u32,
    pub min_linea_pos: u16,
    pub linea_winners: u32,
}

pub proof fn lemma_min_or_max_le(s: Seq<u16>)
    ensures
        forall|i: int| 0 <= i < s.len() ==> min_or_max(s) <= #[trigger] s[i],
        s.len() > 0 ==> exists|i: int| 0 <= i < s.len() && min_or_max(s) == #[trigger] s[i],
    decreases s.len(),
{
    if s.len() > 0 {
        let p = s.drop_last();
        lemma_min_or_max_le(p);
        assert forall|i: int| 0 <= i < s.len() implies min_or_max(s) <= #[trigger] s[i] by {
            if i < p.len() {
                assert(s[i] == p[i]);
            }
        }
        if s.last() < min_or_max(p) || p.len() == 0 {
            assert(min_or_max(s) == s[s.len() - 1]);
        } else {
            let i = choose|i: int| 0 <= i < p.len() && min_or_max(p) == #[trigger] p[i];
            assert(min_or_max(s) == s[i]);
        }
    }
}

pub proof fn lemma_count_of_le(s: Seq<u16>, v: u16)
    ensures
        count_of(s, v) <= s.len(),
    decreases s.len(),
{
    if s.len() > 0 {
        lemma_count_of_le(s.drop_last(), v);
    }
}

pub proof fn lemma_count_of_absent(s: Seq<u16>, v: u16)
    requires
        forall|i: int| 0 <= i < s.len() ==> #[trigger] s[i] != v,
    ensures
        count_of(s, v) == 0,
    decreases s.len(),
{
    if s.len() > 0 {
        let p = s.drop_last();
        assert forall|i: int| 0 <= i < p.len() implies #[trigger] p[i] != v by {
            assert(p[i] == s[i]);
        }
        lemma_count_of_absent(p, v);
        assert(s[s.len() - 1] != v);
    }
}

/// One step of the running minimum and its count.
proof fn lemma_tally_step(s: Seq<u16>, x: u16)
    ensures
        min_or_max(s.push(x)) == if x < min_or_max(s) {
            x
        } else {
            min_or_max(s)
        },
        x < min_or_max(s) ==> count_of(s.push(x), x) == 1,
        x == min_or_max(s) ==> count_of(s.push(x), x) == count_of(s, x) + 1,
        x > min_or_max(s) ==> count_of(s.push(x), min_or_max(s)) == count_of(s, min_or_max(s)),
{
    let t = s.push(x);
    assert(t.drop_last() =~= s);
    if x < min_or_max(s) {
        lemma_min_or_max_le(s);
        lemma_count_of_absent(s, x);
    }
}

/// The position of the last of `numbers` to be drawn.
fn last_drawn_of(numbers: &Vec<u16>, position_of_ball: &[u16; 91]) -> (last: u16)
    requires
        forall|k: int| 0 <= k < numbers@.len() ==> #[trigger] numbers@[k] <= 90,
    ensures
        last == last_drawn(numbers@, position_of_ball@),
{
    let mut last: u16 = 0;
    for k in 0..numbers.len()
        invariant
            forall|q: int| 0 <= q < numbers@.len() ==> #[trigger] numbers@[q] <= 90,
            last == last_drawn(numbers@.take(k as int), position_of_ball@),
    {
        assert(numbers@.take(k as int + 1).drop_last() =~= numbers@.take(k as int));
        assert(numbers@.take(k as int + 1).last() == numbers@[k as int]);
        let p = position_of_ball[numbers[k] as usize];
        if p > last {
            last = p;
        }
    }
    assert(numbers@.take(numbers@.len() as int) =~= numbers@);
    last
}

/// Plays one game given each ball's draw index: every card's bingo
/// completion is the draw index of the last of its numbers, its line
/// completion the earliest of its rows' completions; the cards with the
/// smallest completion win, and a tie is a multiple win.
pub fn play_round(card_rows: &Vec<CardRows>, position_of_ball: &[u16; 91]) -> (outcome: RoundOutcome)
    requires
        card_rows@.len() <= u32::MAX,
        numbers_are_balls(card_rows@),
    ensures
        outcome.min_bingo_pos == min_or_max(bingo_positions(card_rows@, position_of_ball@)),
        outcome.bingo_winners == count_of(
            bingo_positions(card_rows@, position_of_ball@),
            outcome.min_bingo_pos,
        ),
        outcome.min_linea_pos == min_or_max(linea_positions(card_rows@, position_of_ball@)),
        outcome.linea_winners == count_of(
            linea_positions(card_rows@, position_of_ball@),
            outcome.min_linea_pos,
        ),
{
    let ghost bingo = bingo_positions(card_rows@, position_of_ball@);
    let ghost linea = linea_positions(card_rows@, position_of_ball@);
    let mut min_bingo_pos = u16::MAX;
    let mut bingo_winners: u32 = 0;
    let mut min_linea_pos = u16::MAX;
    let mut linea_winners: u32 = 0;

    proof {
        assert(bingo.take(0) =~= Seq::<u16>::empty());
        assert(linea.take(0) =~= Seq::<u16>::empty());
    }
    for i in 0..card_rows.len()
        invariant
            card_rows@.len() <= u32::MAX,
            numbers_are_balls(card_rows@),
            bingo == bingo_positions(card_rows@, position_of_ball@),
            linea == linea_positions(card_rows@, position_of_ball@),
            min_bingo_pos == min_or_max(bingo.take(i as int)),
            bingo_winners == count_of(bingo.take(i as int), min_bingo_pos),
            min_linea_pos == min_or_max(linea.take(i as int)),
            linea_winners == count_of(linea.take(i as int), min_linea_pos),
    {
        let cr = &card_rows[i];
        proof {
            assert(bingo.take(i + 1) =~= bingo.take(i as int).push(bingo[i as int]));
            assert(linea.take(i + 1) =~= linea.take(i as int).push(linea[i as int]));
            lemma_tally_step(bingo.take(i as int), bingo[i as int]);
            lemma_tally_step(linea.take(i as int), linea[i as int]);
            lemma_count_of_le(bingo.take(i as int), min_bingo_pos);
            lemma_count_of_le(linea.take(i as int), min_linea_pos);
            assert(rows_are_balls(card_rows@[i as int]));
            assert(forall|k: int| 0 <= k < cr.numbers@.len() ==> #[trigger] cr.numbers@[k] <= 90);
            assert(forall|k: int| 0 <= k < cr.rows[0]@.len() ==> #[trigger] cr.rows[0]@[k] <= 90);
            assert(forall|k: int| 0 <= k < cr.rows[1]@.len() ==> #[trigger] cr.rows[1]@[k] <= 90);
            assert(forall|k: int| 0 <= k < cr.rows[2]@.len() ==> #[trigger] cr.rows[2]@[k] <= 90);
        }
        let bingo_pos = last_drawn_of(&cr.numbers, position_of_ball);
        let row0 = last_drawn_of(&cr.rows[0], position_of_ball);
        let row1 = last_drawn_of(&cr.rows[1], position_of_ball);
        let row2 = last_drawn_of(&cr.rows[2], position_of_ball);
        let first_two = if row1 < row0 {
            row1
        } else {
            row0
        };
        let linea_pos = if row2 < first_two {
            row2
        } else {
            first_two
        };

        if bingo_pos < min_bingo_pos {
            min_bingo_pos = bingo_pos;
            bingo_winners = 1;
        } else if bingo_pos == min_bingo_pos {
            bingo_winners += 1;
        }
        if linea_pos < min_linea_pos {
            min_linea_pos = linea_pos;
            linea_winners = 1;
        } else if linea_pos == min_linea_pos {
            linea_winners += 1;
        }
    }
    proof {
        assert(bingo.take(card_rows@.len() as int) =~= bingo);
        assert(linea.take(card_rows@.len() as int) =~= linea);
    }
    RoundOutcome { min_bingo_pos, bingo_winners, min_linea_pos, linea_winners }
}

/// The draw index of each ball is a distinct index below 90.
pub open spec fn positions_ok(position: Seq<u16>) -> bool {
    &&& position.len() == 91
    &&& forall|v: int| 1 <= v <= 90 ==> #[trigger] position[v] < 90
    &&& forall|v: int, w: int|
        1 <= v <= 90 && 1 <= w <= 90 && v != w ==> #[trigger] position[v] != #[trigger] position[w]
}

/// The balls `1..=90` in order.
pub open spec fn ordered_balls() -> Seq<u16> {
    Seq::new(90, |i: int| (i + 1) as u16)
}

/// Each number's position is at most the last drawn position.
proof fn lemma_last_drawn_ge(numbers: Seq<u16>, position: Seq<u16>)
    ensures
        forall|k: int|
            0 <= k < numbers.len() ==> position[#[trigger] numbers[k] as int] <= last_drawn(
                numbers,
                position,
            ),
    decreases numbers.len(),
{
    if numbers.len() > 0 {
        let p = numbers.drop_last();
        lemma_last_drawn_ge(p, position);
        assert forall|k: int| 0 <= k < numbers.len() implies position[#[trigger] numbers[k] as int]
            <= last_drawn(numbers, position) by {
            if k < p.len() {
                assert(numbers[k] == p[k]);
            }
        }
    }
}

/// If every number's position is at most `bound`, so is the last drawn.
proof fn lemma_last_drawn_le(numbers: Seq<u16>, position: Seq<u16>, bound: u16)
    requires
        forall|k: int| 0 <= k < numbers.len() ==> position[#[trigger] numbers[k] as int] <= bound,
    ensures
        last_drawn(numbers, position) <= bound,
    decreases numbers.len(),
{
    if numbers.len() > 0 {
        let p = numbers.drop_last();
        assert forall|k: int| 0 <= k < p.len() implies position[#[trigger] p[k] as int] <= bound by {
            assert(p[k] == numbers[k]);
        }
        lemma_last_drawn_le(p, position, bound);
        assert(numbers[numbers.len() - 1] == numbers.last());
    }
}

/// `n` distinct balls cannot all be out before the `n`-th draw.
proof fn lemma_last_drawn_pigeonhole(numbers: Seq<u16>, position: Seq<u16>)
    requires
        numbers.no_duplicates(),
        forall|k: int| 0 <= k < numbers.len() ==> 1 <= #[trigger] numbers[k] <= 90,
        positions_ok(position),
    ensures
        last_drawn(numbers, position) + 1 >= numbers.len(),
{
    let m = last_drawn(numbers, position) as int;
    lemma_last_drawn_ge(numbers, position);
    let drawn = numbers.map_values(|n: u16| position[n as int] as int);
    assert forall|a: int, b: int| 0 <= a < drawn.len() && 0 <= b < drawn.len() && a != b implies drawn[a]
        != drawn[b] by {
        assert(numbers[a] != numbers[b]);
        assert(1 <= numbers[a] <= 90 && 1 <= numbers[b] <= 90);
    }
    assert(drawn.no_duplicates());
    drawn.unique_seq_to_set();
    vstd::set_lib::lemma_int_range(0, m + 1);
    assert forall|x: int| drawn.to_set().contains(x) implies vstd::set_lib::set_int_range(0, m + 1).contains(x) by {
        let k = choose|k: int| 0 <= k < drawn.len() && drawn[k] == x;
        assert(position[numbers[k] as int] <= m);
    }
    vstd::set_lib::lemma_len_subset(drawn.to_set(), vstd::set_lib::set_int_range(0, m + 1));
}

/// A permutation of the balls holds each ball once.
proof fn lemma_balls_permutation(shuffled: Seq<u16>)
    requires
        shuffled.to_multiset() == ordered_balls().to_multiset(),
    ensures
        shuffled.len() == 90,
        shuffled.no_duplicates(),
        forall|j: int| 0 <= j < shuffled.len() ==> 1 <= #[trigger] shuffled[j] <= 90,
        forall|v: u16| 1 <= v <= 90 ==> #[trigger] shuffled.contains(v),
{
    let ordered = ordered_balls();
    shuffled.to_multiset_ensures();
    ordered.to_multiset_ensures();
    assert forall|i: int, j: int| 0 <= i < ordered.len() && 0 <= j < ordered.len() && i != j implies ordered[i]
        != ordered[j] by {}
    assert(ordered.no_duplicates());
    ordered.lemma_multiset_has_no_duplicates();
    shuffled.lemma_multiset_has_no_duplicates_conv();
    assert forall|j: int| 0 <= j < shuffled.len() implies 1 <= #[trigger] shuffled[j] <= 90 by {
        assert(shuffled.contains(shuffled[j]));
        assert(shuffled.to_multiset().count(shuffled[j]) > 0);
        assert(ordered.to_multiset().count(shuffled[j]) > 0);
        let i = choose|i: int| 0 <= i < ordered.len() && ordered[i] == shuffled[j];
    }
    assert forall|v: u16| 1 <= v <= 90 implies #[trigger] shuffled.contains(v) by {
        assert(ordered[v - 1] == v);
        assert(ordered.contains(v));
        assert(ordered.to_multiset().count(v) > 0);
    }
}

/// The rows extracted from cards whose cells are at most 90 hold only balls.
proof fn lemma_rows_are_balls(rows: CardRows, card: Card)
    requires
        describes(rows, card),
        forall|r: int, c: int|
            0 <= r < NUM_ROWS && 0 <= c < NUM_COLUMNS ==> #[trigger] card.grid[r][c] <= 90,
    ensures
        rows_are_balls(rows),
        forall|k: int| 0 <= k < rows.numbers@.len() ==> 1 <= #[trigger] rows.numbers@[k],
{
    assert forall|r: int| 0 <= r < NUM_ROWS implies forall|k: int|
        0 <= k < filled(#[trigger] card.grid[r]@).len() ==> 1 <= #[trigger] filled(card.grid[r]@)[k]
            <= 90 by {
        lemma_filled_members(card.grid[r]@);
        assert forall|k: int| 0 <= k < filled(card.grid[r]@).len() implies 1 <= #[trigger] filled(
            card.grid[r]@,
        )[k] <= 90 by {
            let c = choose|c: int|
                0 <= c < card.grid[r]@.len() && card.grid[r]@[c] == filled(card.grid[r]@)[k];
            assert(card.grid[r][c] <= 90);
        }
    }
    let f0 = filled(card.grid[0]@);
    let f1 = filled(card.grid[1]@);
    let f2 = filled(card.grid[2]@);
    assert forall|k: int| 0 <= k < rows.numbers@.len() implies 1 <= #[trigger] rows.numbers@[k] <= 90 by {
        if k < f0.len() {
            assert(rows.numbers@[k] == f0[k]);
        } else if k < f0.len() + f1.len() {
            assert(rows.numbers@[k] == f1[k - f0.len()]);
        } else {
            assert(rows.numbers@[k] == f2[k - f0.len() - f1.len()]);
        }
    }
    assert forall|r: int, k: int| 0 <= r < NUM_ROWS && 0 <= k < rows.rows[r]@.len() implies #[trigger] rows.rows[r]@[k]
        <= 90 by {
        assert(rows.rows[r]@ == filled(card.grid[r]@));
    }
}


/// The draw index of each ball in a draw order (0 for the non-ball 0).
pub open spec fn positions_of(order: Seq<u16>) -> Seq<u16> {
    Seq::new(91, |b: int| if 1 <= b <= 90 { order.index_of(b as u16) as u16 } else { 0 })
}

/// The generator and the ball order after `games` shuffles, starting from the
/// balls in order: each game shuffles the previous game's order.
pub open spec fn draw_state(rng: SmallRng, games: nat) -> (SmallRng, Seq<u16>)
    decreases games,
{
    if games == 0 {
        (rng, ordered_balls())
    } else {
        let previous = draw_state(rng, (games - 1) as nat);
        let r = previous.0;
        let b = previous.1;
        (
            shuffle_step(r, b.len()),
            Seq::new(b.len(), |i: int| b[shuffle_order(r, b.len())[i]]),
        )
    }
}

/// The draw order of game `i` (counting from 0).
pub open spec fn draw_order(rng: SmallRng, i: nat) -> Seq<u16> {
    draw_state(rng, i + 1).1
}

/// When a card completes bingo: the position of the last of its numbers.
pub open spec fn card_bingo(card: Card, position: Seq<u16>) -> u16 {
    last_drawn(card_numbers(card), position)
}

/// When a card completes a line: the earliest of its rows' completions.
pub open spec fn card_linea(card: Card, position: Seq<u16>) -> u16 {
    let a = last_drawn(filled(card.grid[0]@), position);
    let b = last_drawn(filled(card.grid[1]@), position);
    let c = last_drawn(filled(card.grid[2]@), position);
    let ab = if b < a {
        b
    } else {
        a
    };
    if c < ab {
        c
    } else {
        ab
    }
}

/// Each card's bingo completion in a game with the given draw order.
pub open spec fn game_bingos(cards: Seq<Card>, order: Seq<u16>) -> Seq<u16> {
    Seq::new(cards.len(), |i: int| card_bingo(cards[i], positions_of(order)))
}

/// Each card's line completion in a game with the given draw order.
pub open spec fn game_lineas(cards: Seq<Card>, order: Seq<u16>) -> Seq<u16> {
    Seq::new(cards.len(), |i: int| card_linea(cards[i], positions_of(order)))
}

/// How many cards share the earliest bingo of a game.
pub open spec fn bingo_winners(cards: Seq<Card>, order: Seq<u16>) -> nat {
    count_of(game_bingos(cards, order), min_or_max(game_bingos(cards, order)))
}

/// How many cards share the earliest line of a game.
pub open spec fn linea_winners(cards: Seq<Card>, order: Seq<u16>) -> nat {
    count_of(game_lineas(cards, order), min_or_max(game_lineas(cards, order)))
}

/// The games among the first `m` (drawn from `rng`) won by two or more cards at once.
pub open spec fn double_bingo_games(cards: Seq<Card>, rng: SmallRng, m: nat) -> nat
    decreases m,
{
    if m == 0 {
        0
    } else {
        double_bingo_games(cards, rng, (m - 1) as nat) + if bingo_winners(
            cards,
            draw_order(rng, (m - 1) as nat),
        ) >= 2 {
            1nat
        } else {
            0nat
        }
    }
}

/// The games among the first `m` won by three or more cards at once.
pub open spec fn triple_bingo_games(cards: Seq<Card>, rng: SmallRng, m: nat) -> nat
    decreases m,
{
    if m == 0 {
        0
    } else {
        triple_bingo_games(cards, rng, (m - 1) as nat) + if bingo_winners(
            cards,
            draw_order(rng, (m - 1) as nat),
        ) >= 3 {
            1nat
        } else {
            0nat
        }
    }
}

/// The games among the first `m` whose first line is completed by two or more cards.
pub open spec fn double_linea_games(cards: Seq<Card>, rng: SmallRng, m: nat) -> nat
    decreases m,
{
    if m == 0 {
        0
    } else {
        double_linea_games(cards, rng, (m - 1) as nat) + if linea_winners(
            cards,
            draw_order(rng, (m - 1) as nat),
        ) >= 2 {
            1nat
        } else {
            0nat
        }
    }
}

/// Over the first `m` games, the total number of balls drawn until the first bingo.
pub open spec fn balls_to_bingo(cards: Seq<Card>, rng: SmallRng, m: nat) -> int
    decreases m,
{
    if m == 0 {
        0
    } else {
        balls_to_bingo(cards, rng, (m - 1) as nat) + min_or_max(
            game_bingos(cards, draw_order(rng, (m - 1) as nat)),
        ) + 1
    }
}

/// A sequence of equal entries: its minimum is the entry, and all share it.
proof fn lemma_all_equal(s: Seq<u16>)
    requires
        s.len() > 0,
        forall|i: int| 0 <= i < s.len() ==> #[trigger] s[i] == s[0],
    ensures
        min_or_max(s) == s[0],
        count_of(s, s[0]) == s.len(),
    decreases s.len(),
{
    if s.len() > 1 {
        let p = s.drop_last();
        assert forall|i: int| 0 <= i < p.len() implies #[trigger] p[i] == p[0] by {
            assert(p[i] == s[i]);
        }
        lemma_all_equal(p);
        assert(p[0] == s[0]);
        assert(s.last() == s[0]);
        assert(min_or_max(s) == s[0]);
        assert(count_of(s, s[0]) == count_of(p, s[0]) + 1);
    } else {
        assert(s.drop_last() =~= Seq::<u16>::empty());
        assert(min_or_max(s.drop_last()) == u16::MAX);
        assert(count_of(s.drop_last(), s[0]) == 0);
        assert(s.last() == s[0]);
    }
}

/// Identical cards tie in every game: with two or more copies of one card
/// every game is a double bingo and a double line, and with three or more a
/// triple bingo; with exactly two, never a triple.
pub proof fn law_identical_cards_tie(cards: Seq<Card>, rng: SmallRng, m: nat)
    requires
        cards.len() >= 2,
        forall|i: int| 0 <= i < cards.len() ==> #[trigger] cards[i] == cards[0],
    ensures
        double_bingo_games(cards, rng, m) == m,
        double_linea_games(cards, rng, m) == m,
        triple_bingo_games(cards, rng, m) == if cards.len() >= 3 {
            m
        } else {
            0
        },
    decreases m,
{
    if m > 0 {
        law_identical_cards_tie(cards, rng, (m - 1) as nat);
        let order = draw_order(rng, (m - 1) as nat);
        let b = game_bingos(cards, order);
        let l = game_lineas(cards, order);
        assert forall|i: int| 0 <= i < b.len() implies #[trigger] b[i] == b[0] by {
            assert(cards[i] == cards[0]);
        }
        assert forall|i: int| 0 <= i < l.len() implies #[trigger] l[i] == l[0] by {
            assert(cards[i] == cards[0]);
        }
        lemma_all_equal(b);
        lemma_all_equal(l);
    }
}

/// `count_of` is the multiplicity in the multiset of the entries.
proof fn lemma_count_of_multiset(s: Seq<u16>, v: u16)
    ensures
        count_of(s, v) == s.to_multiset().count(v),
    decreases s.len(),
{
    broadcast use vstd::seq_lib::group_to_multiset_ensures, vstd::multiset::group_multiset_axioms;

    if s.len() == 0 {
        assert(s.to_multiset() =~= vstd::multiset::Multiset::<u16>::empty());
    } else {
        let p = s.drop_last();
        lemma_count_of_multiset(p, v);
        assert(p.push(s.last()) =~= s);
    }
}

/// Sequences with the same entries (in any order) have the same minimum.
proof fn lemma_min_or_max_multiset(a: Seq<u16>, b: Seq<u16>)
    requires
        a.to_multiset() == b.to_multiset(),
    ensures
        min_or_max(a) == min_or_max(b),
{
    broadcast use vstd::seq_lib::group_to_multiset_ensures;

    vstd::seq_lib::to_multiset_len(a);
    vstd::seq_lib::to_multiset_len(b);
    assert(a.len() == b.len());
    if a.len() == 0 {
        assert(b.len() == 0);
    } else {
        lemma_min_or_max_le(a);
        lemma_min_or_max_le(b);
        let i = choose|i: int| 0 <= i < a.len() && min_or_max(a) == #[trigger] a[i];
        let j = choose|j: int| 0 <= j < b.len() && min_or_max(b) == #[trigger] b[j];
        assert(a.contains(a[i]));
        assert(a.to_multiset().count(a[i]) > 0);
        assert(b.contains(a[i]));
        let j2 = choose|j2: int| 0 <= j2 < b.len() && b[j2] == a[i];
        assert(min_or_max(b) <= b[j2]);
        assert(b.contains(b[j]));
        assert(b.to_multiset().count(b[j]) > 0);
        assert(a.contains(b[j]));
        let i2 = choose|i2: int| 0 <= i2 < a.len() && a[i2] == b[j];
        assert(min_or_max(a) <= a[i2]);
    }
}

/// Mapping two sequences with the same entries gives sequences with the same entries.
proof fn lemma_map_same_entries(a: Seq<Card>, b: Seq<Card>, f: spec_fn(Card) -> u16)
    requires
        a.to_multiset() == b.to_multiset(),
    ensures
        a.map_values(f).to_multiset() == b.map_values(f).to_multiset(),
    decreases a.len(),
{
    broadcast use vstd::seq_lib::group_to_multiset_ensures, vstd::multiset::group_multiset_axioms;

    vstd::seq_lib::to_multiset_len(a);
    vstd::seq_lib::to_multiset_len(b);
    assert(a.len() == b.len());
    if a.len() == 0 {
        assert(a.map_values(f) =~= Seq::<u16>::empty());
        assert(b.map_values(f) =~= Seq::<u16>::empty());
    } else {
        let x = a.last();
        let a1 = a.drop_last();
        assert(a1.push(x) =~= a);
        assert(a.to_multiset() == a1.to_multiset().insert(x));
        assert(a.to_multiset().count(x) > 0);
        assert(b.contains(x));
        let j = choose|j: int| 0 <= j < b.len() && b[j] == x;
        let b1 = b.remove(j);
        assert(b1.to_multiset() == b.to_multiset().remove(x));
        assert(a1.to_multiset() =~= a.to_multiset().remove(x));
        lemma_map_same_entries(a1, b1, f);
        assert(a.map_values(f) =~= a1.map_values(f).push(f(x)));
        assert(b.map_values(f) =~= b1.map_values(f).insert(j, f(x)));
    }
}

/// In one game, reordering the cards changes neither the earliest bingo, nor
/// the earliest line, nor how many cards share them.
proof fn lemma_game_order_irrelevant(cards: Seq<Card>, perm: Seq<Card>, order: Seq<u16>)
    requires
        perm.to_multiset() == cards.to_multiset(),
    ensures
        min_or_max(game_bingos(perm, order)) == min_or_max(game_bingos(cards, order)),
        bingo_winners(perm, order) == bingo_winners(cards, order),
        linea_winners(perm, order) == linea_winners(cards, order),
{
    let position = positions_of(order);
    let fb = |c: Card| card_bingo(c, position);
    let fl = |c: Card| card_linea(c, position);
    assert(game_bingos(perm, order) =~= perm.map_values(fb));
    assert(game_bingos(cards, order) =~= cards.map_values(fb));
    assert(game_lineas(perm, order) =~= perm.map_values(fl));
    assert(game_lineas(cards, order) =~= cards.map_values(fl));
    lemma_map_same_entries(perm, cards, fb);
    lemma_map_same_entries(perm, cards, fl);
    let bp = game_bingos(perm, order);
    let bc = game_bingos(cards, order);
    let lp = game_lineas(perm, order);
    let lc = game_lineas(cards, order);
    lemma_min_or_max_multiset(bp, bc);
    lemma_min_or_max_multiset(lp, lc);
    lemma_count_of_multiset(bp, min_or_max(bp));
    lemma_count_of_multiset(bc, min_or_max(bc));
    lemma_count_of_multiset(lp, min_or_max(lp));
    lemma_count_of_multiset(lc, min_or_max(lc));
}

/// The order in which the cards are given does not matter: any reordering of
/// the cards gives the same double bingo, triple bingo and double line counts
/// and the same total of balls to the first bingo.
pub proof fn law_card_order_irrelevant(cards: Seq<Card>, perm: Seq<Card>, rng: SmallRng, m: nat)
    requires
        perm.to_multiset() == cards.to_multiset(),
    ensures
        double_bingo_games(perm, rng, m) == double_bingo_games(cards, rng, m),
        triple_bingo_games(perm, rng, m) == triple_bingo_games(cards, rng, m),
        double_linea_games(perm, rng, m) == double_linea_games(cards, rng, m),
        balls_to_bingo(perm, rng, m) == balls_to_bingo(cards, rng, m),
    decreases m,
{
    if m > 0 {
        law_card_order_irrelevant(cards, perm, rng, (m - 1) as nat);
        lemma_game_order_irrelevant(cards, perm, draw_order(rng, (m - 1) as nat));
    }
}

/// A card completes a line at the earliest of its three rows' completions:
/// no later than any of its rows, and when one of them completes. This holds
/// of the rows as `play_round` reads them and of the card's own rows.
pub proof fn law_linea_is_earliest_row(rows: CardRows, card: Card, position: Seq<u16>)
    ensures
        forall|r: int|
            0 <= r < NUM_ROWS ==> linea_position(rows, position) <= last_drawn(
                #[trigger] rows.rows[r]@,
                position,
            ),
        exists|r: int|
            0 <= r < NUM_ROWS && linea_position(rows, position) == last_drawn(
                #[trigger] rows.rows[r]@,
                position,
            ),
        forall|r: int|
            0 <= r < NUM_ROWS ==> card_linea(card, position) <= last_drawn(
                filled(#[trigger] card.grid[r]@),
                position,
            ),
        exists|r: int|
            0 <= r < NUM_ROWS && card_linea(card, position) == last_drawn(
                filled(#[trigger] card.grid[r]@),
                position,
            ),
{
    let a = last_drawn(rows.rows[0]@, position);
    let b = last_drawn(rows.rows[1]@, position);
    let c = last_drawn(rows.rows[2]@, position);
    if linea_position(rows, position) == a {
        assert(linea_position(rows, position) == last_drawn(rows.rows[0]@, position));
    } else if linea_position(rows, position) == b {
        assert(linea_position(rows, position) == last_drawn(rows.rows[1]@, position));
    } else {
        assert(linea_position(rows, position) == last_drawn(rows.rows[2]@, position));
    }
    let x = last_drawn(filled(card.grid[0]@), position);
    let y = last_drawn(filled(card.grid[1]@), position);
    if card_linea(card, position) == x {
        assert(card_linea(card, position) == last_drawn(filled(card.grid[0]@), position));
    } else if card_linea(card, position) == y {
        assert(card_linea(card, position) == last_drawn(filled(card.grid[1]@), position));
    } else {
        assert(card_linea(card, position) == last_drawn(filled(card.grid[2]@), position));
    }
}

/// Every game draws a fresh shuffle of the 90 balls: the first game starts
/// from the balls in order and the seed's generator, and game `g + 1`'s
/// order is the shuffle of game `g`'s order by the generator state game `g`
/// left, which the shuffle then advances.
pub proof fn law_each_game_reshuffles(rng: SmallRng, g: nat)
    ensures
        draw_state(rng, 0) == (rng, ordered_balls()),
        draw_state(rng, g).1.len() == 90,
        draw_state(rng, g + 1).0 == shuffle_step(draw_state(rng, g).0, 90),
        draw_order(rng, g) == Seq::new(
            90,
            |i: int| draw_state(rng, g).1[shuffle_order(draw_state(rng, g).0, 90)[i]],
        ),
    decreases g,
{
    if g > 0 {
        law_each_game_reshuffles(rng, (g - 1) as nat);
    }
}

/// Integer results of a Monte Carlo run: how many games ended in a double (or
/// triple or larger) bingo, how many in a double line, and the total over all
/// games of the number of balls drawn until the first bingo.
#[derive(Debug, Clone, Copy)]
pub struct SimulationCounts {
    pub iterations: u32,
    pub double_bingo_count: u32,
    pub triple_plus_count: u32,
    pub double_linea_count: u32,
    pub total_balls_to_bingo: u64,
}

/// The card holds at least `NUMBERS_PER_CARD` numbers, no number twice.
pub open spec fn has_distinct_numbers(card: Card) -> bool {
    card_numbers(card).no_duplicates() && card_numbers(card).len() >= NUMBERS_PER_CARD
}

/// A structurally valid card (every generated card is one) holds fifteen
/// distinct numbers, each a ball: cards of that kind meet the conditions of
/// the fifteen-ball lower bound of `simulate_game`.
pub proof fn law_valid_cards_meet_the_bound(card: Card)
    requires
        is_valid_card(card),
    ensures
        has_distinct_numbers(card),
        forall|r: int, c: int|
            0 <= r < NUM_ROWS && 0 <= c < NUM_COLUMNS ==> #[trigger] card.grid[r][c] <= 90,
{
    lemma_valid_card_numbers(card);
    assert forall|r: int, c: int| 0 <= r < NUM_ROWS && 0 <= c < NUM_COLUMNS implies #[trigger] card.grid[r][c]
        <= 90 by {
        assert(crate::card::row_in_columns(card.grid[r]@));
        assert(card.grid[r]@[c] == card.grid[r][c]);
    }
}

/// Every cell of every card is at most 90.
pub open spec fn cells_are_balls(cards: Seq<Card>) -> bool {
    forall|i: int, r: int, c: int|
        0 <= i < cards.len() && 0 <= r < NUM_ROWS && 0 <= c < NUM_COLUMNS ==> #[trigger] cards[i].grid[r][c]
            <= 90
}

/// Monte Carlo estimate of "double bingo"/"double línea" (simultaneous-win)
/// counts for the given set of cards. Per iteration, shuffles the 90 balls
/// into a draw order; each card's bingo-completion position is the draw index
/// of the last of its numbers to appear, and its línea (row)-completion
/// position is the earliest of its 3 rows' own last-number draw index. The
/// card(s) with the minimum completion position win; a tie for the minimum is
/// a double/multi win.
pub fn simulate_game(cards: &[Card], iterations: u32, seed: u64) -> (counts: SimulationCounts)
    requires
        cards@.len() <= u32::MAX,
        cards@.len() == 0 || iterations == 0 || cells_are_balls(cards@),
    ensures
        counts.iterations == iterations,
        cards@.len() == 0 || iterations == 0 ==> counts.double_bingo_count == 0
            && counts.triple_plus_count == 0 && counts.double_linea_count == 0
            && counts.total_balls_to_bingo == 0,
        cards@.len() > 0 && iterations > 0 ==> {
            &&& counts.double_bingo_count == double_bingo_games(cards@, seeded_generator(seed), iterations as nat)
            &&& counts.triple_plus_count == triple_bingo_games(cards@, seeded_generator(seed), iterations as nat)
            &&& counts.double_linea_count == double_linea_games(cards@, seeded_generator(seed), iterations as nat)
            &&& counts.total_balls_to_bingo == balls_to_bingo(cards@, seeded_generator(seed), iterations as nat)
        },
        counts.triple_plus_count <= counts.double_bingo_count <= iterations,
        counts.double_linea_count <= iterations,
        cards@.len() < 2 ==> counts.double_bingo_count == 0 && counts.double_linea_count == 0,
        cards@.len() < 3 ==> counts.triple_plus_count == 0,
        cards@.len() > 0 ==> iterations <= counts.total_balls_to_bingo <= 90 * iterations,
        cards@.len() > 0 && (forall|i: int|
            0 <= i < cards@.len() ==> has_distinct_numbers(#[trigger] cards@[i])) ==> 15 * iterations
            <= counts.total_balls_to_bingo,
{
    if cards.len() == 0 || iterations == 0 {
        return SimulationCounts {
            iterations,
            double_bingo_count: 0,
            triple_plus_count: 0,
            double_linea_count: 0,
            total_balls_to_bingo: 0,
        };
    }

    let mut rng = make_rng(seed);
    let ghost start = rng;
    let card_rows = extract_card_rows(cards);
    let ghost all_valid = forall|i: int|
        0 <= i < cards@.len() ==> has_distinct_numbers(#[trigger] cards@[i]);
    proof {
        assert forall|i: int| 0 <= i < card_rows@.len() implies rows_are_balls(#[trigger] card_rows@[i]) by {
            assert forall|r: int, c: int| 0 <= r < NUM_ROWS && 0 <= c < NUM_COLUMNS implies #[trigger] cards@[i].grid[r][c] <= 90 by {}
            lemma_rows_are_balls(card_rows@[i], cards@[i]);
        }
    }

    let mut double_bingo_count: u32 = 0;
    let mut triple_plus_count: u32 = 0;
    let mut double_linea_count: u32 = 0;
    let mut total_balls_to_bingo: u64 = 0;

    let mut balls: Vec<u16> = Vec::new();
    let mut b: u16 = 1;
    while b <= 90
        invariant
            1 <= b <= 91,
            balls@ == Seq::new((b - 1) as nat, |i: int| (i + 1) as u16),
        decreases 91 - b,
    {
        balls.push(b);
        b += 1;
        assert(balls@ =~= Seq::new((b - 1) as nat, |i: int| (i + 1) as u16));
    }
    let mut position_of_ball = [0u16; 91];
    proof {
        assert(balls@ =~= ordered_balls());
    }

    for it in 0..iterations
        invariant
            start == seeded_generator(seed),
            rng == draw_state(start, it as nat).0,
            balls@ == draw_state(start, it as nat).1,
            position_of_ball[0] == 0,
            double_bingo_count == double_bingo_games(cards@, start, it as nat),
            triple_plus_count == triple_bingo_games(cards@, start, it as nat),
            double_linea_count == double_linea_games(cards@, start, it as nat),
            total_balls_to_bingo == balls_to_bingo(cards@, start, it as nat),
            cards@.len() > 0,
            cards@.len() <= u32::MAX,
            cells_are_balls(cards@),
            card_rows@.len() == cards@.len(),
            forall|i: int| 0 <= i < cards@.len() ==> describes(#[trigger] card_rows@[i], cards@[i]),
            numbers_are_balls(card_rows@),
            all_valid == forall|i: int|
                0 <= i < cards@.len() ==> has_distinct_numbers(#[trigger] cards@[i]),
            balls@.to_multiset() == ordered_balls().to_multiset(),
            triple_plus_count <= double_bingo_count <= it,
            double_linea_count <= it,
            cards@.len() < 2 ==> double_bingo_count == 0 && double_linea_count == 0,
            cards@.len() < 3 ==> triple_plus_count == 0,
            it <= total_balls_to_bingo <= 90 * it,
            all_valid ==> 15 * it <= total_balls_to_bingo,
    {
        let ghost previous = balls@;
        shuffle_in_place(&mut rng, &mut balls);
        proof {
            lemma_balls_permutation(balls@);
        }
        proof {
            assert(balls@ == draw_state(start, (it + 1) as nat).1);
            assert(rng == draw_state(start, (it + 1) as nat).0);
        }
        for idx in 0..balls.len()
            invariant
                position_of_ball[0] == 0,
                balls@.len() == 90,
                balls@.no_duplicates(),
                forall|j: int| 0 <= j < balls@.len() ==> 1 <= #[trigger] balls@[j] <= 90,
                forall|j: int| 0 <= j < idx ==> position_of_ball[#[trigger] balls@[j] as int] == j,
        {
            let ghost before = position_of_ball;
            position_of_ball[balls[idx] as usize] = idx as u16;
            proof {
                assert forall|j: int| 0 <= j < idx + 1 implies position_of_ball[#[trigger] balls@[j] as int] == j by {
                    if j < idx {
                        assert(balls@[j] != balls@[idx as int]);
                        assert(position_of_ball[balls@[j] as int] == before[balls@[j] as int]);
                    }
                }
            }
        }
        proof {
            assert forall|v: int| 1 <= v <= 90 implies #[trigger] position_of_ball@[v] < 90
                && balls@[position_of_ball@[v] as int] == v by {
                assert(balls@.contains(v as u16));
                let j = choose|j: int| 0 <= j < balls@.len() && balls@[j] == v as u16;
                assert(position_of_ball[balls@[j] as int] == j);
            }
            assert forall|v: int, w: int|
                1 <= v <= 90 && 1 <= w <= 90 && v != w implies #[trigger] position_of_ball@[v]
                != #[trigger] position_of_ball@[w] by {
                assert(balls@[position_of_ball@[v] as int] == v);
                assert(balls@[position_of_ball@[w] as int] == w);
            }
            assert(positions_ok(position_of_ball@));
            assert forall|v: int| 0 <= v < 91 implies #[trigger] position_of_ball@[v] == positions_of(balls@)[v] by {
                if 1 <= v <= 90 {
                    let j = balls@.index_of(v as u16);
                    assert(balls@.contains(v as u16));
                    assert(balls@[j] == v as u16);
                    assert(balls@[position_of_ball@[v] as int] == v);
                }
            }
            assert(position_of_ball@ =~= positions_of(balls@));
            let order = balls@;
            assert(bingo_positions(card_rows@, position_of_ball@) =~= game_bingos(cards@, order)) by {
                assert forall|i: int| 0 <= i < cards@.len() implies bingo_positions(card_rows@, position_of_ball@)[i]
                    == #[trigger] game_bingos(cards@, order)[i] by {
                    assert(describes(card_rows@[i], cards@[i]));
                }
            }
            assert(linea_positions(card_rows@, position_of_ball@) =~= game_lineas(cards@, order)) by {
                assert forall|i: int| 0 <= i < cards@.len() implies linea_positions(card_rows@, position_of_ball@)[i]
                    == #[trigger] game_lineas(cards@, order)[i] by {
                    assert(describes(card_rows@[i], cards@[i]));
                    assert(card_rows@[i].rows[0]@ == filled(cards@[i].grid[0]@));
                    assert(card_rows@[i].rows[1]@ == filled(cards@[i].grid[1]@));
                    assert(card_rows@[i].rows[2]@ == filled(cards@[i].grid[2]@));
                }
            }
            assert(order == draw_order(start, it as nat));
        }

        let outcome = play_round(&card_rows, &position_of_ball);

        proof {
            let bingo = bingo_positions(card_rows@, position_of_ball@);
            let linea = linea_positions(card_rows@, position_of_ball@);
            lemma_count_of_le(bingo, outcome.min_bingo_pos);
            lemma_count_of_le(linea, outcome.min_linea_pos);
            lemma_min_or_max_le(bingo);
            // the first card's bingo lies below 90, so the earliest one does
            let cr0 = card_rows@[0];
            assert(rows_are_balls(cr0));
            assert forall|r: int, c: int| 0 <= r < NUM_ROWS && 0 <= c < NUM_COLUMNS implies #[trigger] cards@[0].grid[r][c] <= 90 by {}
            lemma_rows_are_balls(cr0, cards@[0]);
            assert forall|k: int| 0 <= k < cr0.numbers@.len() implies position_of_ball@[#[trigger] cr0.numbers@[k] as int]
                <= 89 by {
                assert(1 <= cr0.numbers@[k] <= 90);
            }
            lemma_last_drawn_le(cr0.numbers@, position_of_ball@, 89);
            assert(bingo[0] <= 89);
            if all_valid {
                assert forall|i: int| 0 <= i < bingo.len() implies #[trigger] bingo[i] >= 14 by {
                    assert(has_distinct_numbers(cards@[i]));
                    assert(card_rows@[i].numbers@ == card_numbers(cards@[i]));
                    assert forall|r: int, c: int| 0 <= r < NUM_ROWS && 0 <= c < NUM_COLUMNS implies #[trigger] cards@[i].grid[r][c] <= 90 by {}
                    lemma_rows_are_balls(card_rows@[i], cards@[i]);
                    lemma_last_drawn_pigeonhole(card_rows@[i].numbers@, position_of_ball@);
                }
                let i = choose|i: int| 0 <= i < bingo.len() && outcome.min_bingo_pos == #[trigger] bingo[i];
                assert(outcome.min_bingo_pos >= 14);
            }
        }

        if outcome.bingo_winners >= 2 {
            double_bingo_count += 1;
        }
        if outcome.bingo_winners >= 3 {
            triple_plus_count += 1;
        }
        if outcome.linea_winners >= 2 {
            double_linea_count += 1;
        }
        total_balls_to_bingo += outcome.min_bingo_pos as u64 + 1;
    }

    SimulationCounts {
        iterations,
        double_bingo_count,
        triple_plus_count,
        double_linea_count,
        total_balls_to_bingo,
    }
}

/// Sensible default iteration count that scales inversely with `n` so total
/// work (iterations * n) stays roughly bounded.
pub fn default_iterations(n: u32) -> (iterations: u32)
    ensures
        iterations == if n == 0 {
            500
        } else if 2_000_000int / (n as int) < 500 {
            500
        } else if 2_000_000int / (n as int) > 8_000 {
            8_000
        } else {
            2_000_000int / (n as int)
        },
{
    if n == 0 {
        return 500;
    }
    let scaled = 2_000_000u64 / n as u64;
    let clamped = if scaled < 500 {
        500
    } else if scaled > 8_000 {
        8_000
    } else {
        scaled
    };
    clamped as u32
}

} // verus!
