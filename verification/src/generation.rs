//! Batches of cards in which no row repeats.

use std::collections::HashSet;

use crate::card::{
    card_cells, card_step, drawn_card, generate_card, is_valid_card, lemma_card_cells_index,
    lemma_drawn_card, lemma_valid_card_keys, law_from_flat_inverts_flatten, row_in_columns, row_mask, Card,
    CARD_CELLS, NUM_ROWS,
};
use crate::rng::{make_rng, seeded_generator};
use rand::rngs::SmallRng;
use vstd::prelude::*;

verus! {

broadcast use vstd::std_specs::hash::group_hash_axioms;

/// None of the card's row keys is in `used`.
pub open spec fn keys_fresh(card: Card, used: Set<u128>) -> bool {
    forall|r: int| 0 <= r < NUM_ROWS ==> !used.contains(#[trigger] row_mask(card.grid[r]@))
}

/// Drawing cards from the generator state `rng`, at most `budget` of them,
/// until one has no row key in `used`: that card, if one came, and the
/// generator state after the last draw.
pub open spec fn first_fresh_card(rng: SmallRng, used: Set<u128>, budget: nat) -> (
    Option<Card>,
    SmallRng,
)
    decreases budget,
{
    if budget == 0 {
        (None, rng)
    } else if keys_fresh(drawn_card(rng), used) {
        (Some(drawn_card(rng)), card_step(rng))
    } else {
        first_fresh_card(card_step(rng), used, (budget - 1) as nat)
    }
}

/// The batch that `generate_cards` builds from the generator state `rng` when
/// asked for `n` cards, the generator state after it, and whether every card
/// was found: card after card, the first draw whose rows are all new to the
/// batch, each card given `u64::MAX` draws.
pub open spec fn batch_from(rng: SmallRng, n: nat) -> (Seq<Card>, SmallRng, bool)
    decreases n,
{
    if n == 0 {
        (Seq::empty(), rng, true)
    } else {
        let prev = batch_from(rng, (n - 1) as nat);
        if !prev.2 {
            prev
        } else {
            let found = first_fresh_card(prev.1, batch_keys(prev.0), u64::MAX as nat);
            match found.0 {
                Some(card) => (prev.0.push(card), found.1, true),
                None => (prev.0, found.1, false),
            }
        }
    }
}

/// A batch holds at most the cards asked for, and all of them exactly when
/// every card was found.
pub proof fn lemma_batch_len(rng: SmallRng, n: nat)
    ensures
        batch_from(rng, n).0.len() <= n,
        batch_from(rng, n).2 <==> batch_from(rng, n).0.len() == n,
    decreases n,
{
    if n > 0 {
        lemma_batch_len(rng, (n - 1) as nat);
    }
}

/// The batch for fewer cards is the start of the batch for more, from the
/// same generator state (for equal counts: the same batch); a complete batch
/// for more cards means a complete batch for fewer.
pub proof fn law_batch_prefix(rng: SmallRng, m: nat, n: nat)
    requires
        m <= n,
    ensures
        batch_from(rng, m).0.len() <= batch_from(rng, n).0.len(),
        batch_from(rng, n).0.take(batch_from(rng, m).0.len() as int) == batch_from(rng, m).0,
        batch_from(rng, n).2 ==> batch_from(rng, m).2,
    decreases n - m,
{
    if m < n {
        law_batch_prefix(rng, m, (n - 1) as nat);
        let a = batch_from(rng, m).0;
        let b = batch_from(rng, (n - 1) as nat).0;
        let c = batch_from(rng, n).0;
        assert(c.take(b.len() as int) =~= b);
        assert(c.take(a.len() as int) =~= b.take(a.len() as int));
    } else {
        assert(batch_from(rng, n).0.take(batch_from(rng, n).0.len() as int) =~= batch_from(rng, n).0);
    }
}

/// The batch ends short only when some card ran out of draws: if, at every
/// card before the `n`-th, the search through its `u64::MAX` draws finds a
/// card whose rows are new, then the batch is complete and holds `n` cards.
pub proof fn law_batch_short_only_when_draws_run_out(rng: SmallRng, n: nat)
    requires
        forall|k: nat|
            k < n ==> (#[trigger] first_fresh_card(
                batch_from(rng, k).1,
                batch_keys(batch_from(rng, k).0),
                u64::MAX as nat,
            )).0 is Some,
    ensures
        batch_from(rng, n).2,
        batch_from(rng, n).0.len() == n,
    decreases n,
{
    if n > 0 {
        let k = (n - 1) as nat;
        law_batch_short_only_when_draws_run_out(rng, k);
        assert(first_fresh_card(batch_from(rng, k).1, batch_keys(batch_from(rng, k).0), u64::MAX as nat).0 is Some);
    }
    lemma_batch_len(rng, n);
}

/// Once a card is not found, the batch stops: asking for more cards gives the
/// same batch.
proof fn lemma_batch_stops(rng: SmallRng, m: nat, n: nat)
    requires
        m <= n,
        !batch_from(rng, m).2,
    ensures
        batch_from(rng, n) == batch_from(rng, m),
    decreases n - m,
{
    if m < n {
        lemma_batch_stops(rng, m, (n - 1) as nat);
    }
}

/// The keys of all rows of a batch.
pub open spec fn batch_keys(cards: Seq<Card>) -> Set<u128> {
    Set::new(
        |k: u128|
            exists|i: int, r: int|
                0 <= i < cards.len() && 0 <= r < NUM_ROWS && k == #[trigger] row_mask(
                    cards[i].grid[r]@,
                ),
    )
}

/// No two rows of the batch (in the same card or in two cards) share a key.
pub open spec fn keys_pairwise_distinct(cards: Seq<Card>) -> bool {
    forall|i: int, r: int, j: int, s: int|
        0 <= i < cards.len() && 0 <= j < cards.len() && 0 <= r < NUM_ROWS && 0 <= s < NUM_ROWS
            && (i != j || r != s) ==> #[trigger] row_mask(cards[i].grid[r]@) != #[trigger] row_mask(
            cards[j].grid[s]@,
        )
}

/// The batch's cells, card after card, each card row-major.
pub open spec fn batch_cells(cards: Seq<Card>) -> Seq<u16>
    decreases cards.len(),
{
    if cards.len() == 0 {
        Seq::empty()
    } else {
        batch_cells(cards.drop_last()) + card_cells(cards.last())
    }
}

/// Admits `card` into the batch when none of its row keys is taken yet: then
/// its keys join `used_rows`, the card joins `cards`, and the result is true;
/// otherwise nothing changes and the result is false.
pub fn try_admit_card(used_rows: &mut HashSet<u128>, cards: &mut Vec<Card>, card: Card) -> (admitted: bool)
    requires
        forall|r: int| 0 <= r < NUM_ROWS ==> crate::card::fits_key(#[trigger] card.grid[r]@),
    ensures
        admitted == (forall|r: int|
            0 <= r < NUM_ROWS ==> !old(used_rows)@.contains(#[trigger] row_mask(card.grid[r]@))),
        admitted ==> final(used_rows)@ == old(used_rows)@.insert(row_mask(card.grid[0]@)).insert(
            row_mask(card.grid[1]@),
        ).insert(row_mask(card.grid[2]@)),
        admitted ==> final(cards)@ == old(cards)@.push(card),
        !admitted ==> final(used_rows)@ == old(used_rows)@,
        !admitted ==> final(cards)@ == old(cards)@,
{
    let keys = card.row_keys();
    let mut all_free = true;
    let mut i: usize = 0;
    while i < NUM_ROWS
        invariant
            0 <= i <= NUM_ROWS,
            forall|r: int| 0 <= r < NUM_ROWS ==> #[trigger] keys[r] == row_mask(card.grid[r]@),
            all_free == (forall|r: int| 0 <= r < i ==> !used_rows@.contains(#[trigger] keys[r])),
        decreases NUM_ROWS - i,
    {
        if used_rows.contains(&keys[i]) {
            all_free = false;
        }
        i += 1;
    }
    if all_free {
        used_rows.insert(keys[0]);
        used_rows.insert(keys[1]);
        used_rows.insert(keys[2]);
        cards.push(card);
    }
    all_free
}

/// Generates `n` structurally valid cards such that no row is repeated
/// across the whole batch (which by construction also means no two full cards
/// can be identical). Collisions are checked against a global set of row keys
/// and colliding cards are regenerated from scratch. Each card gets `u64::MAX`
/// draws; only if all of them collided would the batch end short. The batch
/// is the one `batch_from` describes for the generator of `seed`, so the same
/// seed gives the same cards, and a smaller batch is the start of a larger one.
/// Whatever the draws, the first card is never refused: its rows meet no
/// earlier row.
pub fn generate_cards(n: u32, seed: u64) -> (cards: Vec<Card>)
    ensures
        cards@ == batch_from(seeded_generator(seed), n as nat).0,
        cards@.len() == n <==> batch_from(seeded_generator(seed), n as nat).2,
        cards@.len() <= n,
        n > 0 ==> cards@.len() >= 1,
        forall|i: int| 0 <= i < cards@.len() ==> is_valid_card(#[trigger] cards@[i]),
        keys_pairwise_distinct(cards@),
        forall|i: int, r: int, j: int, s: int|
            0 <= i < cards@.len() && 0 <= j < cards@.len() && 0 <= r < NUM_ROWS && 0 <= s < NUM_ROWS
                && (i != j || r != s) ==> #[trigger] cards@[i].grid[r] != #[trigger] cards@[j].grid[s],
{
    let mut rng = make_rng(seed);
    let ghost g = rng;
    let capacity = match (n as usize).checked_mul(NUM_ROWS) {
        Some(c) => c,
        None => n as usize,
    };
    let mut used_rows: HashSet<u128> = HashSet::with_capacity(capacity);
    let mut cards: Vec<Card> = Vec::with_capacity(n as usize);

    let mut count: u32 = 0;
    while count < n
        invariant
            count <= n,
            cards@.len() == count,
            forall|i: int| 0 <= i < cards@.len() ==> is_valid_card(#[trigger] cards@[i]),
            keys_pairwise_distinct(cards@),
            used_rows@ == batch_keys(cards@),
            g == seeded_generator(seed),
            cards@ == batch_from(g, count as nat).0,
            rng == batch_from(g, count as nat).1,
            batch_from(g, count as nat).2,
        decreases n - count,
    {
        let ghost card_start = rng;
        let ghost used0 = used_rows@;
        let ghost cards0 = cards@;
        let mut admitted = false;
        let mut attempts: u64 = 0;
        while !admitted && attempts < u64::MAX
            invariant
                used0 == batch_keys(cards0),
                !admitted ==> cards@ == cards0 && used_rows@ == used0,
                !admitted ==> first_fresh_card(card_start, used0, u64::MAX as nat)
                    == first_fresh_card(rng, used0, (u64::MAX - attempts) as nat),
                admitted ==> cards@.len() > 0 && cards@ == cards0.push(cards@.last())
                    && first_fresh_card(card_start, used0, u64::MAX as nat) == (
                    Some(cards@.last()),
                    rng,
                ),
                admitted ==> cards@.len() == count + 1,
                !admitted ==> cards@.len() == count,
                forall|i: int| 0 <= i < cards@.len() ==> is_valid_card(#[trigger] cards@[i]),
                keys_pairwise_distinct(cards@),
                used_rows@ == batch_keys(cards@),
                count == 0 && !admitted ==> attempts == 0,
                count == 0 ==> cards@.len() <= 1,
            decreases u64::MAX - attempts,
        {
            let ghost prev_rng = rng;
            let card = generate_card(&mut rng);
            proof {
                lemma_valid_card_keys(card);
                lemma_drawn_card(card, prev_rng);
            }
            let ghost before = cards@;
            let ghost used_before = used_rows@;
            proof {
                if count == 0 {
                    assert(before =~= Seq::<Card>::empty());
                    assert(used_before =~= Set::<u128>::empty());
                }
            }
            admitted = try_admit_card(&mut used_rows, &mut cards, card);
            proof {
                assert(admitted == keys_fresh(card, used0));
                assert(first_fresh_card(prev_rng, used0, (u64::MAX - attempts) as nat) == if admitted {
                    (Some(card), rng)
                } else {
                    first_fresh_card(rng, used0, (u64::MAX - attempts - 1) as nat)
                });
            }
            if admitted {
                proof {
                    lemma_admitted_batch(before, card, used_before);
                    assert(cards@.last() == card);
                }
            }
            attempts += 1;
        }
        if !admitted {
            proof {
                assert(first_fresh_card(card_start, used0, u64::MAX as nat) == (None::<Card>, rng));
                assert(batch_from(g, (count + 1) as nat) == (cards@, rng, false));
                lemma_batch_stops(g, (count + 1) as nat, n as nat);
                lemma_batch_len(g, n as nat);
                law_distinct_keys_distinct_rows(cards@);
            }
            return cards;
        }
        proof {
            assert(batch_from(g, (count + 1) as nat) == (cards@, rng, true));
        }
        count += 1;
    }
    proof {
        lemma_batch_len(g, n as nat);
        law_distinct_keys_distinct_rows(cards@);
    }
    cards
}

/// Rows with distinct keys are distinct rows: a batch whose row keys are
/// pairwise distinct repeats no row.
pub proof fn law_distinct_keys_distinct_rows(cards: Seq<Card>)
    requires
        keys_pairwise_distinct(cards),
    ensures
        forall|i: int, r: int, j: int, s: int|
            0 <= i < cards.len() && 0 <= j < cards.len() && 0 <= r < NUM_ROWS && 0 <= s < NUM_ROWS
                && (i != j || r != s) ==> #[trigger] cards[i].grid[r] != #[trigger] cards[j].grid[s],
{
    assert forall|i: int, r: int, j: int, s: int|
        0 <= i < cards.len() && 0 <= j < cards.len() && 0 <= r < NUM_ROWS && 0 <= s < NUM_ROWS
            && (i != j || r != s) implies #[trigger] cards[i].grid[r] != #[trigger] cards[j].grid[s] by {
        assert(row_mask(cards[i].grid[r]@) != row_mask(cards[j].grid[s]@));
    }
}

/// Admitting a valid card whose keys are all fresh keeps the batch's keys
/// distinct and adds exactly the card's keys.
proof fn lemma_admitted_batch(before: Seq<Card>, card: Card, used: Set<u128>)
    requires
        is_valid_card(card),
        keys_pairwise_distinct(before),
        used == batch_keys(before),
        forall|r: int| 0 <= r < NUM_ROWS ==> !used.contains(#[trigger] row_mask(card.grid[r]@)),
    ensures
        keys_pairwise_distinct(before.push(card)),
        batch_keys(before.push(card)) == used.insert(row_mask(card.grid[0]@)).insert(
            row_mask(card.grid[1]@),
        ).insert(row_mask(card.grid[2]@)),
{
    let after = before.push(card);
    lemma_valid_card_keys(card);
    assert forall|i: int, r: int, j: int, s: int|
        0 <= i < after.len() && 0 <= j < after.len() && 0 <= r < NUM_ROWS && 0 <= s < NUM_ROWS
            && (i != j || r != s) implies #[trigger] row_mask(after[i].grid[r]@) != #[trigger] row_mask(
        after[j].grid[s]@,
    ) by {
        if i < before.len() && j < before.len() {
            assert(after[i] == before[i] && after[j] == before[j]);
        } else if i < before.len() {
            assert(after[i] == before[i]);
            assert(used.contains(row_mask(before[i].grid[r]@)));
        } else if j < before.len() {
            assert(after[j] == before[j]);
            assert(used.contains(row_mask(before[j].grid[s]@)));
        }
    }
    let expected = used.insert(row_mask(card.grid[0]@)).insert(row_mask(card.grid[1]@)).insert(
        row_mask(card.grid[2]@),
    );
    assert forall|k: u128| batch_keys(after).contains(k) <==> expected.contains(k) by {
        if batch_keys(after).contains(k) {
            let (i, r) = choose|i: int, r: int|
                0 <= i < after.len() && 0 <= r < NUM_ROWS && k == #[trigger] row_mask(
                    after[i].grid[r]@,
                );
            if i < before.len() {
                assert(after[i] == before[i]);
                assert(batch_keys(before).contains(k));
            }
        }
        if expected.contains(k) {
            if used.contains(k) {
                let (i, r) = choose|i: int, r: int|
                    0 <= i < before.len() && 0 <= r < NUM_ROWS && k == #[trigger] row_mask(
                        before[i].grid[r]@,
                    );
                assert(after[i] == before[i]);
                assert(k == row_mask(after[i].grid[r]@));
            } else {
                let last = before.len() as int;
                assert(after[last] == card);
                if k == row_mask(card.grid[0]@) {
                    assert(k == row_mask(after[last].grid[0]@));
                } else if k == row_mask(card.grid[1]@) {
                    assert(k == row_mask(after[last].grid[1]@));
                } else {
                    assert(k == row_mask(after[last].grid[2]@));
                }
            }
        }
    }
    assert(batch_keys(after) =~= expected);
}

/// Flattens a batch of cards into a single row-major sequence of
/// `cards.len() * CARD_CELLS` cells (0 = blank cell).
pub fn flatten_cards(cards: &[Card]) -> (out: Vec<u16>)
    ensures
        out@ == batch_cells(cards@),
{
    let capacity = match cards.len().checked_mul(CARD_CELLS) {
        Some(c) => c,
        None => cards.len(),
    };
    let mut out: Vec<u16> = Vec::with_capacity(capacity);
    for i in 0..cards.len()
        invariant
            out@ == batch_cells(cards@.take(i as int)),
    {
        let mut cells = cards[i].flatten();
        out.append(&mut cells);
        assert(cards@.take(i as int + 1).drop_last() =~= cards@.take(i as int));
    }
    assert(cards@.take(cards@.len() as int) =~= cards@);
    out
}

/// A batch's cells hold `CARD_CELLS` cells per card.
pub proof fn lemma_batch_cells_len(cards: Seq<Card>)
    ensures
        batch_cells(cards).len() == cards.len() * CARD_CELLS,
    decreases cards.len(),
{
    if cards.len() > 0 {
        lemma_batch_cells_len(cards.drop_last());
        lemma_card_cells_index(cards.last());
    }
}

/// The flat form of a batch of valid cards holds `CARD_CELLS` cells per card,
/// each blank (0) or a ball (1 to 90); for a complete batch of `n` cards that
/// is `27 * n` cells.
pub proof fn law_valid_batch_cells(cards: Seq<Card>)
    requires
        forall|i: int| 0 <= i < cards.len() ==> is_valid_card(#[trigger] cards[i]),
    ensures
        batch_cells(cards).len() == cards.len() * CARD_CELLS,
        forall|k: int| 0 <= k < batch_cells(cards).len() ==> #[trigger] batch_cells(cards)[k] <= 90,
    decreases cards.len(),
{
    lemma_batch_cells_len(cards);
    if cards.len() > 0 {
        let p = cards.drop_last();
        let last = cards.last();
        assert forall|i: int| 0 <= i < p.len() implies is_valid_card(#[trigger] p[i]) by {
            assert(p[i] == cards[i]);
        }
        law_valid_batch_cells(p);
        assert(is_valid_card(cards[cards.len() - 1]));
        let cells = card_cells(last);
        assert forall|k: int| 0 <= k < cells.len() implies #[trigger] cells[k] <= 90 by {
            let r = if k < 9 {
                0int
            } else if k < 18 {
                1int
            } else {
                2int
            };
            let c = k - 9 * r;
            assert(row_in_columns(last.grid[r]@));
            assert(last.grid[r]@[c] == last.grid[r][c]);
            assert(cells[k] == last.grid[r]@[c]);
        }
        let all = batch_cells(cards);
        let head = batch_cells(p);
        assert forall|k: int| 0 <= k < all.len() implies #[trigger] all[k] <= 90 by {
            if k < head.len() {
                assert(all[k] == head[k]);
            } else {
                assert(all[k] == cells[k - head.len()]);
            }
        }
    }
}

/// The flat form determines the batch: two batches with the same cells are
/// the same cards, so decoding the flattened batch gives back its cards.
pub proof fn law_batch_cells_identify_cards(cards: Seq<Card>, decoded: Seq<Card>)
    requires
        batch_cells(decoded) == batch_cells(cards),
    ensures
        decoded == cards,
    decreases cards.len(),
{
    lemma_batch_cells_len(cards);
    lemma_batch_cells_len(decoded);
    assert(decoded.len() * CARD_CELLS == cards.len() * CARD_CELLS);
    assert(decoded.len() == cards.len()) by (nonlinear_arith)
        requires
            decoded.len() * 27 == cards.len() * 27,
    ;
    if cards.len() > 0 {
        let a = batch_cells(cards);
        let b = batch_cells(decoded);
        lemma_batch_cells_len(cards.drop_last());
        lemma_batch_cells_len(decoded.drop_last());
        lemma_card_cells_index(cards.last());
        lemma_card_cells_index(decoded.last());
        let cut = cards.drop_last().len() * CARD_CELLS;
        assert(batch_cells(cards.drop_last()) =~= a.subrange(0, cut as int));
        assert(batch_cells(decoded.drop_last()) =~= b.subrange(0, cut as int));
        assert(card_cells(cards.last()) =~= a.subrange(cut as int, a.len() as int));
        assert(card_cells(decoded.last()) =~= b.subrange(cut as int, b.len() as int));
        law_batch_cells_identify_cards(cards.drop_last(), decoded.drop_last());
        assert(card_cells(decoded.last()) =~= card_cells(cards.last()).take(CARD_CELLS as int));
        law_from_flat_inverts_flatten(cards.last(), decoded.last());
        assert(decoded =~= cards.drop_last().push(cards.last()));
        assert(cards =~= cards.drop_last().push(cards.last()));
    } else {
        assert(decoded =~= cards);
    }
}

/// Decodes a row-major flat sequence of cells into cards, `CARD_CELLS` cells
/// per card; `None` when the length is not a whole number of cards.
pub fn cards_from_flat(cards_flat: &[u16]) -> (cards: Option<Vec<Card>>)
    ensures
        cards is None <==> cards_flat@.len() % (CARD_CELLS as nat) != 0,
        cards matches Some(cs) ==> batch_cells(cs@) == cards_flat@,
{
    if cards_flat.len() % CARD_CELLS != 0 {
        return None;
    }
    let count = cards_flat.len() / CARD_CELLS;
    let ghost flat = cards_flat@;
    let mut cards: Vec<Card> = Vec::new();
    proof {
        assert(flat.take(0) =~= Seq::<u16>::empty());
    }
    for i in 0..count
        invariant
            flat == cards_flat@,
            count * CARD_CELLS == flat.len(),
            flat.len() <= usize::MAX,
            cards@.len() == i,
            batch_cells(cards@) == flat.take(i * CARD_CELLS),
    {
        assert(CARD_CELLS == 27);
        assert((i + 1) * 27 <= count * 27) by (nonlinear_arith)
            requires
                i < count,
        ;
        assert(i * 27 + 27 <= cards_flat@.len());
        let start = i * CARD_CELLS;
        let chunk = vstd::slice::slice_subrange(cards_flat, start, start + CARD_CELLS);
        let card = Card::from_flat(chunk);
        let ghost before = cards@;
        cards.push(card);
        proof {
            assert(cards@.drop_last() =~= before);
            assert(chunk@.take(CARD_CELLS as int) =~= chunk@);
            assert(flat.take((i + 1) * CARD_CELLS) =~= flat.take(i * CARD_CELLS) + chunk@);
        }
    }
    proof {
        assert(flat.take(count * CARD_CELLS) =~= flat);
    }
    Some(cards)
}

} // verus!
