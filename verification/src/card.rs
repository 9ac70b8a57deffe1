//! The card: its layout constants, its well-formedness, the row identity used
//! for de-duplication, and the random generation of a single card.

use crate::rng::{
    choice_index, choice_step, choose_one, random_in_range, range_draw, range_step,
    shuffle_in_place, shuffle_order, shuffle_step,
};
use rand::rngs::SmallRng;
use vstd::prelude::*;

verus! {

broadcast use vstd::array::group_array_axioms;

pub const NUM_COLUMNS: usize = 9;
pub const NUM_ROWS: usize = 3;
pub const CARD_CELLS: usize = NUM_ROWS * NUM_COLUMNS;
pub const NUMBERS_PER_ROW: usize = 5;
pub const NUMBERS_PER_CARD: usize = 15;
pub const MAX_PER_COLUMN: usize = 3;

/// Inclusive (start, end) number range per column, standard 90-ball layout.
pub const COLUMN_RANGES: [(u16, u16); NUM_COLUMNS] = [
    (1, 9),
    (10, 19),
    (20, 29),
    (30, 39),
    (40, 49),
    (50, 59),
    (60, 69),
    (70, 79),
    (80, 90),
];

/// Lowest number of column `c`.
pub open spec fn col_lo(c: int) -> int {
    if c == 0 {
        1
    } else {
        10 * c
    }
}

/// Highest number of column `c`.
pub open spec fn col_hi(c: int) -> int {
    if c == NUM_COLUMNS - 1 {
        90
    } else {
        10 * c + 9
    }
}

/// `COLUMN_RANGES` spelled out by `col_lo` and `col_hi`.
pub proof fn lemma_column_ranges()
    ensures
        forall|c: int|
            0 <= c < NUM_COLUMNS ==> (#[trigger] COLUMN_RANGES[c]).0 == col_lo(c)
                && COLUMN_RANGES[c].1 == col_hi(c),
{
    assert forall|c: int| 0 <= c < NUM_COLUMNS implies (#[trigger] COLUMN_RANGES[c]).0 == col_lo(c)
        && COLUMN_RANGES[c].1 == col_hi(c) by {
        if c == 0 {
        } else if c == 1 {
        } else if c == 2 {
        } else if c == 3 {
        } else if c == 4 {
        } else if c == 5 {
        } else if c == 6 {
        } else if c == 7 {
        } else {
        }
    }
}

/// Number of values in column `c`'s range.
pub open spec fn column_size(c: int) -> int {
    col_hi(c) - col_lo(c) + 1
}

/// The number of values in each column's range.
pub fn column_sizes() -> (sizes: [u32; NUM_COLUMNS])
    ensures
        forall|c: int| 0 <= c < NUM_COLUMNS ==> #[trigger] sizes[c] == column_size(c),
{
    proof {
        lemma_column_ranges();
    }
    let mut sizes = [0u32; NUM_COLUMNS];
    for i in 0..NUM_COLUMNS
        invariant
            forall|c: int| 0 <= c < i ==> #[trigger] sizes[c] == column_size(c),
    {
        let (start, end) = COLUMN_RANGES[i];
        assert(start as int == col_lo(i as int) && end as int == col_hi(i as int));
        sizes[i] = (end - start + 1) as u32;
    }
    sizes
}

/// A 3x9 bingo card.
#[derive(Debug, Clone, Copy)]
pub struct Card {
    /// grid[row][col] = 0 means blank, otherwise the number (1..=90).
    pub grid: [[u16; NUM_COLUMNS]; NUM_ROWS],
}

/// The nonzero entries of a sequence, in order.
pub open spec fn filled(s: Seq<u16>) -> Seq<u16>
    decreases s.len(),
{
    if s.len() == 0 {
        Seq::empty()
    } else if s.last() != 0 {
        filled(s.drop_last()).push(s.last())
    } else {
        filled(s.drop_last())
    }
}

/// Column `c` of a card, top to bottom.
pub open spec fn card_column(card: Card, c: int) -> Seq<u16> {
    Seq::new(NUM_ROWS as nat, |r: int| card.grid[r][c])
}

/// The cells of a card in row-major order.
pub open spec fn card_cells(card: Card) -> Seq<u16> {
    card.grid[0]@ + card.grid[1]@ + card.grid[2]@
}

/// The numbers of a card, row by row, each row in column order.
pub open spec fn card_numbers(card: Card) -> Seq<u16> {
    filled(card.grid[0]@) + filled(card.grid[1]@) + filled(card.grid[2]@)
}

/// Every filled cell of the row lies in its column's range.
pub open spec fn row_in_columns(row: Seq<u16>) -> bool {
    &&& row.len() == NUM_COLUMNS
    &&& forall|c: int|
        0 <= c < NUM_COLUMNS && #[trigger] row[c] != 0 ==> col_lo(c) <= row[c] <= col_hi(c)
}

/// A structurally valid card: `NUMBERS_PER_ROW` numbers per row, 1 to
/// `MAX_PER_COLUMN` numbers per column, every number in its column's range,
/// and each column strictly ascending from top to bottom.
pub open spec fn is_valid_card(card: Card) -> bool {
    &&& forall|r: int|
        0 <= r < NUM_ROWS ==> #[trigger] filled(card.grid[r]@).len() == NUMBERS_PER_ROW
    &&& forall|c: int|
        0 <= c < NUM_COLUMNS ==> 1 <= #[trigger] filled(card_column(card, c)).len()
            <= MAX_PER_COLUMN
    &&& forall|r: int| 0 <= r < NUM_ROWS ==> row_in_columns(#[trigger] card.grid[r]@)
    &&& forall|c: int, r1: int, r2: int|
        0 <= c < NUM_COLUMNS && 0 <= r1 < r2 < NUM_ROWS && #[trigger] card.grid[r1][c] != 0
            && #[trigger] card.grid[r2][c] != 0 ==> card.grid[r1][c] < card.grid[r2][c]
}

/// The bit that stands for number `n` in a row key (none for a blank).
pub open spec fn number_bit(n: u16) -> u128 {
    if n == 0 {
        0
    } else {
        1u128 << ((n - 1) as u32)
    }
}

/// The row key: the union of the bits of the row's numbers.
pub open spec fn row_mask(row: Seq<u16>) -> u128
    decreases row.len(),
{
    if row.len() == 0 {
        0
    } else {
        row_mask(row.drop_last()) | number_bit(row.last())
    }
}

/// Bit `b` of a key.
pub open spec fn key_bit(key: u128, b: u32) -> bool {
    (key >> b) & 1 == 1
}

/// Every entry is at most 128, so that every number has a bit in a `u128`.
pub open spec fn fits_key(row: Seq<u16>) -> bool {
    forall|c: int| 0 <= c < row.len() ==> #[trigger] row[c] <= 128
}

impl Card {
    /// The cells in row-major order.
    pub fn flatten(&self) -> (out: Vec<u16>)
        ensures
            out@ == card_cells(*self),
    {
        let mut out = Vec::with_capacity(CARD_CELLS);
        for row in 0..NUM_ROWS
            invariant
                out@ == rows_prefix(*self, row as int),
        {
            for col in 0..NUM_COLUMNS
                invariant
                    0 <= row < NUM_ROWS,
                    out@ == rows_prefix(*self, row as int) + self.grid[row as int]@.take(
                        col as int,
                    ),
            {
                out.push(self.grid[row][col]);
                assert(self.grid[row as int]@.take(col as int + 1) =~= self.grid[row as int]@.take(
                    col as int,
                ).push(self.grid[row as int][col as int]));
            }
            assert(self.grid[row as int]@.take(NUM_COLUMNS as int) =~= self.grid[row as int]@);
        }
        assert(rows_prefix(*self, 0) =~= Seq::<u16>::empty());
        assert(rows_prefix(*self, 1) =~= self.grid[0]@);
        assert(rows_prefix(*self, 2) =~= self.grid[0]@ + self.grid[1]@);
        assert(rows_prefix(*self, 3) =~= card_cells(*self));
        out
    }

    /// Builds a card from the first `CARD_CELLS` values of a row-major slice.
    pub fn from_flat(flat: &[u16]) -> (card: Card)
        requires
            flat@.len() >= CARD_CELLS,
        ensures
            card_cells(card) == flat@.take(CARD_CELLS as int),
    {
        let mut grid = [[0u16; NUM_COLUMNS]; NUM_ROWS];
        for row in 0..NUM_ROWS
            invariant
                flat@.len() >= CARD_CELLS,
                forall|r: int, c: int|
                    0 <= r < row && 0 <= c < NUM_COLUMNS ==> #[trigger] grid[r][c] == flat@[9 * r
                        + c],
        {
            for col in 0..NUM_COLUMNS
                invariant
                    0 <= row < NUM_ROWS,
                    flat@.len() >= CARD_CELLS,
                    forall|r: int, c: int|
                        (0 <= r < row && 0 <= c < NUM_COLUMNS) || (r == row && 0 <= c < col)
                            ==> #[trigger] grid[r][c] == flat@[9 * r + c],
            {
                grid[row][col] = flat[row * NUM_COLUMNS + col];
            }
        }
        let card = Card { grid };
        proof {
            lemma_card_cells_index(card);
            assert(card_cells(card) =~= flat@.take(CARD_CELLS as int));
        }
        card
    }

    /// Canonical hashable identity of a row: a 90-bit mask (fits in u128)
    /// with bit (number - 1) set for each of the row's filled numbers.
    /// Because the column ranges are disjoint, the set of numbers alone
    /// fully determines which columns were used.
    pub fn row_key(&self, row: usize) -> (key: u128)
        requires
            row < NUM_ROWS,
            fits_key(self.grid[row as int]@),
        ensures
            key == row_mask(self.grid[row as int]@),
    {
        let ghost cells = self.grid[row as int]@;
        let mut key: u128 = 0;
        for col in 0..NUM_COLUMNS
            invariant
                row < NUM_ROWS,
                cells == self.grid[row as int]@,
                fits_key(cells),
                key == row_mask(cells.take(col as int)),
        {
            let n = self.grid[row][col];
            assert(cells.take(col as int + 1).drop_last() =~= cells.take(col as int));
            assert(cells.take(col as int + 1).last() == n);
            if n != 0 {
                assert(cells[col as int] <= 128);
                key |= 1u128 << ((n - 1) as u32);
            } else {
                let k = key;
                assert(k | 0u128 == k) by (bit_vector);
            }
        }
        assert(cells.take(NUM_COLUMNS as int) =~= cells);
        key
    }

    /// The keys of the three rows.
    pub fn row_keys(&self) -> (keys: [u128; NUM_ROWS])
        requires
            forall|r: int| 0 <= r < NUM_ROWS ==> fits_key(#[trigger] self.grid[r]@),
        ensures
            forall|r: int| 0 <= r < NUM_ROWS ==> #[trigger] keys[r] == row_mask(self.grid[r]@),
    {
        let k0 = self.row_key(0);
        let k1 = self.row_key(1);
        let k2 = self.row_key(2);
        [k0, k1, k2]
    }

    /// The filled (non-blank) numbers of a single row, in column order.
    pub fn row_numbers(&self, row: usize) -> (numbers: Vec<u16>)
        requires
            row < NUM_ROWS,
        ensures
            numbers@ == filled(self.grid[row as int]@),
    {
        let ghost cells = self.grid[row as int]@;
        let mut numbers: Vec<u16> = Vec::new();
        for col in 0..NUM_COLUMNS
            invariant
                row < NUM_ROWS,
                cells == self.grid[row as int]@,
                numbers@ == filled(cells.take(col as int)),
        {
            assert(cells.take(col as int + 1).drop_last() =~= cells.take(col as int));
            let n = self.grid[row][col];
            if n != 0 {
                numbers.push(n);
            }
        }
        assert(cells.take(NUM_COLUMNS as int) =~= cells);
        numbers
    }

    /// All numbers of the card, row by row.
    pub fn all_numbers(&self) -> (numbers: Vec<u16>)
        ensures
            numbers@ == card_numbers(*self),
    {
        let mut numbers = self.row_numbers(0);
        let mut second = self.row_numbers(1);
        let mut third = self.row_numbers(2);
        numbers.append(&mut second);
        numbers.append(&mut third);
        numbers
    }
}

/// The first `r` rows of a card, concatenated.
spec fn rows_prefix(card: Card, r: int) -> Seq<u16>
    decreases r,
{
    if r <= 0 {
        Seq::empty()
    } else {
        rows_prefix(card, r - 1) + card.grid[r - 1]@
    }
}

/// Cell `(r, c)` sits at index `9r + c` of the row-major cells.
pub proof fn lemma_card_cells_index(card: Card)
    ensures
        card_cells(card).len() == CARD_CELLS,
        forall|r: int, c: int|
            0 <= r < NUM_ROWS && 0 <= c < NUM_COLUMNS ==> #[trigger] card_cells(card)[9 * r + c]
                == card.grid[r][c],
{
    assert forall|r: int, c: int| 0 <= r < NUM_ROWS && 0 <= c < NUM_COLUMNS implies #[trigger] card_cells(
        card,
    )[9 * r + c] == card.grid[r][c] by {
        if r == 0 {
        } else if r == 1 {
        } else {
        }
    }
}

/// Rebuilding a card from its own row-major cells gives back the same card:
/// a card that `from_flat` builds from `card.flatten()` equals `card`.
pub proof fn law_from_flat_inverts_flatten(card: Card, rebuilt: Card)
    requires
        card_cells(rebuilt) == card_cells(card).take(CARD_CELLS as int),
    ensures
        rebuilt == card,
{
    lemma_card_cells_index(card);
    lemma_card_cells_index(rebuilt);
    assert(card_cells(card).take(CARD_CELLS as int) =~= card_cells(card));
    assert forall|r: int| 0 <= r < NUM_ROWS implies #[trigger] rebuilt.grid[r] == card.grid[r] by {
        assert forall|c: int| 0 <= c < NUM_COLUMNS implies rebuilt.grid[r][c] == card.grid[r][c] by {
            assert(card_cells(rebuilt)[9 * r + c] == card_cells(card)[9 * r + c]);
        }
        assert(rebuilt.grid[r] =~= card.grid[r]);
    }
    assert(rebuilt.grid =~= card.grid);
}

proof fn lemma_or_bit(a: u128, s: u32, b: u32)
    by (bit_vector)
    requires
        s < 128,
        b < 128,
    ensures
        ((a | (1u128 << s)) >> b) & 1 == 1 <==> ((a >> b) & 1 == 1 || b == s),
{
}

proof fn lemma_or_zero(a: u128)
    by (bit_vector)
    ensures
        a | 0u128 == a,
{
}

proof fn lemma_zero_bits(b: u32)
    by (bit_vector)
    requires
        b < 128,
    ensures
        !((0u128 >> b) & 1 == 1),
{
}

/// Bit `b` of a row key is set exactly when the row holds the number `b + 1`.
pub proof fn lemma_row_mask_bits(row: Seq<u16>)
    requires
        fits_key(row),
    ensures
        forall|b: u32| b < 128 ==> (key_bit(row_mask(row), b) <==> #[trigger] row.contains((b + 1) as u16)),
    decreases row.len(),
{
    if row.len() == 0 {
        assert forall|b: u32| b < 128 implies (key_bit(row_mask(row), b) <==> #[trigger] row.contains((b + 1) as u16)) by {
            lemma_zero_bits(b);
        }
    } else {
        let p = row.drop_last();
        let x = row.last();
        assert(fits_key(p)) by {
            assert forall|c: int| 0 <= c < p.len() implies #[trigger] p[c] <= 128 by {
                assert(p[c] == row[c]);
            }
        }
        lemma_row_mask_bits(p);
        assert forall|b: u32| b < 128 implies (key_bit(row_mask(row), b) <==> #[trigger] row.contains((b + 1) as u16)) by {
            let v = (b + 1) as u16;
            assert(row.contains(v) <==> (p.contains(v) || x == v)) by {
                if row.contains(v) {
                    let i = choose|i: int| 0 <= i < row.len() && row[i] == v;
                    if i < row.len() - 1 {
                        assert(p[i] == v);
                    }
                }
                if p.contains(v) {
                    let i = choose|i: int| 0 <= i < p.len() && p[i] == v;
                    assert(row[i] == v);
                }
                if x == v {
                    assert(row[row.len() - 1] == v);
                }
            }
            if x == 0 {
                lemma_or_zero(row_mask(p));
            } else {
                assert(row[row.len() - 1] <= 128);
                lemma_or_bit(row_mask(p), (x - 1) as u32, b);
            }
        }
    }
}

proof fn lemma_top_bit(x: u128, y: u128)
    by (bit_vector)
    requires
        ((x >> 127u32) & 1 == 1) == ((y >> 127u32) & 1 == 1),
    ensures
        x >> 127u32 == y >> 127u32,
{
}

proof fn lemma_shift_step(x: u128, y: u128, k: u32)
    by (bit_vector)
    requires
        k < 127,
        x >> (k + 1u32) == y >> (k + 1u32),
        ((x >> k) & 1 == 1) == ((y >> k) & 1 == 1),
    ensures
        x >> k == y >> k,
{
}

proof fn lemma_shift_zero(x: u128)
    by (bit_vector)
    ensures
        x >> 0u32 == x,
{
}

/// Keys that agree on every bit from `k` up agree once shifted by `k`.
proof fn lemma_bits_agree_from(x: u128, y: u128, k: u32)
    requires
        k <= 127,
        forall|b: u32| b < 128 ==> (key_bit(x, b) <==> key_bit(y, b)),
    ensures
        x >> k == y >> k,
    decreases 127 - k,
{
    assert(key_bit(x, k) <==> key_bit(y, k));
    if k == 127 {
        lemma_top_bit(x, y);
    } else {
        lemma_bits_agree_from(x, y, (k + 1) as u32);
        lemma_shift_step(x, y, k);
    }
}

/// Two rows have the same key exactly when they hold the same numbers,
/// blanks and order aside.
pub proof fn law_row_key_same_numbers(a: Seq<u16>, b: Seq<u16>)
    requires
        fits_key(a),
        fits_key(b),
    ensures
        row_mask(a) == row_mask(b) <==> (forall|v: u16|
            1 <= v <= 128 ==> (#[trigger] a.contains(v) <==> b.contains(v))),
{
    lemma_row_mask_bits(a);
    lemma_row_mask_bits(b);
    if row_mask(a) == row_mask(b) {
        assert forall|v: u16| 1 <= v <= 128 implies (#[trigger] a.contains(v) <==> b.contains(v)) by {
            let bit = (v - 1) as u32;
            assert(a.contains((bit + 1) as u16) <==> key_bit(row_mask(a), bit));
            assert(b.contains((bit + 1) as u16) <==> key_bit(row_mask(b), bit));
        }
    }
    if forall|v: u16| 1 <= v <= 128 ==> (#[trigger] a.contains(v) <==> b.contains(v)) {
        assert forall|bit: u32| bit < 128 implies (key_bit(row_mask(a), bit) <==> key_bit(
            row_mask(b),
            bit,
        )) by {
            assert(a.contains((bit + 1) as u16) <==> b.contains((bit + 1) as u16));
        }
        lemma_bits_agree_from(row_mask(a), row_mask(b), 0);
        lemma_shift_zero(row_mask(a));
        lemma_shift_zero(row_mask(b));
    }
}

/// Distinct columns have disjoint ranges.
pub proof fn lemma_columns_disjoint(c1: int, c2: int, v: int)
    requires
        0 <= c1 < NUM_COLUMNS,
        0 <= c2 < NUM_COLUMNS,
        col_lo(c1) <= v <= col_hi(c1),
        col_lo(c2) <= v <= col_hi(c2),
    ensures
        c1 == c2,
{
}

/// A row key identifies its row: two rows whose numbers lie in their columns'
/// ranges and that have the same key are the same row.
pub proof fn law_row_key_identifies_row(a: Seq<u16>, b: Seq<u16>)
    requires
        row_in_columns(a),
        row_in_columns(b),
        row_mask(a) == row_mask(b),
    ensures
        a == b,
{
    assert(fits_key(a));
    assert(fits_key(b));
    lemma_row_mask_bits(a);
    lemma_row_mask_bits(b);
    assert forall|c: int| 0 <= c < NUM_COLUMNS implies a[c] == b[c] by {
        if a[c] != 0 {
            let v = a[c];
            let bit = (v - 1) as u32;
            assert(a.contains((bit + 1) as u16));
            assert(b.contains((bit + 1) as u16));
            let c2 = choose|i: int| 0 <= i < b.len() && b[i] == v;
            lemma_columns_disjoint(c, c2, v as int);
        }
        if b[c] != 0 {
            let v = b[c];
            let bit = (v - 1) as u32;
            assert(b.contains((bit + 1) as u16));
            assert(a.contains((bit + 1) as u16));
            let c2 = choose|i: int| 0 <= i < a.len() && a[i] == v;
            lemma_columns_disjoint(c, c2, v as int);
        }
    }
    assert(a =~= b);
}

// ---------------------------------------------------------------------------
// Counting

/// Number of `true` entries.
pub open spec fn count_true(s: Seq<bool>) -> nat
    decreases s.len(),
{
    if s.len() == 0 {
        0
    } else {
        count_true(s.drop_last()) + if s.last() { 1nat } else { 0nat }
    }
}

pub proof fn lemma_count_true_le(s: Seq<bool>)
    ensures
        count_true(s) <= s.len(),
    decreases s.len(),
{
    if s.len() > 0 {
        lemma_count_true_le(s.drop_last());
    }
}

pub proof fn lemma_count_true_set(s: Seq<bool>, i: int)
    requires
        0 <= i < s.len(),
        !s[i],
    ensures
        count_true(s.update(i, true)) == count_true(s) + 1,
    decreases s.len(),
{
    let t = s.update(i, true);
    if i == s.len() - 1 {
        assert(t.drop_last() =~= s.drop_last());
    } else {
        assert(t.drop_last() =~= s.drop_last().update(i, true));
        lemma_count_true_set(s.drop_last(), i);
    }
}

pub proof fn lemma_count_true_has_false(s: Seq<bool>)
    requires
        count_true(s) < s.len(),
    ensures
        exists|i: int| 0 <= i < s.len() && !s[i],
    decreases s.len(),
{
    if s.last() {
        lemma_count_true_has_false(s.drop_last());
        let i = choose|i: int| 0 <= i < s.drop_last().len() && !s.drop_last()[i];
        assert(!s[i]);
    } else {
        assert(!s[s.len() - 1]);
    }
}

pub proof fn lemma_count_true_below_len(s: Seq<bool>, i: int)
    requires
        0 <= i < s.len(),
        !s[i],
    ensures
        count_true(s) < s.len(),
{
    lemma_count_true_set(s, i);
    lemma_count_true_le(s.update(i, true));
}

pub proof fn lemma_count_true_none(s: Seq<bool>)
    requires
        forall|i: int| 0 <= i < s.len() ==> !s[i],
    ensures
        count_true(s) == 0,
    decreases s.len(),
{
    if s.len() > 0 {
        lemma_count_true_none(s.drop_last());
    }
}

// ---------------------------------------------------------------------------
// Fill patterns

/// Column `c` of a fill pattern, top to bottom.
pub open spec fn pattern_column(p: [[bool; NUM_COLUMNS]; NUM_ROWS], c: int) -> Seq<bool> {
    Seq::new(NUM_ROWS as nat, |r: int| p[r][c])
}

/// A valid 3x9 fill pattern: each row has exactly `NUMBERS_PER_ROW` filled
/// cells and each column between 1 and `MAX_PER_COLUMN`.
pub open spec fn is_valid_pattern(p: [[bool; NUM_COLUMNS]; NUM_ROWS]) -> bool {
    &&& forall|r: int| 0 <= r < NUM_ROWS ==> count_true(#[trigger] p[r]@) == NUMBERS_PER_ROW
    &&& forall|c: int|
        0 <= c < NUM_COLUMNS ==> 1 <= #[trigger] count_true(pattern_column(p, c))
            <= MAX_PER_COLUMN
}

/// The running counters agree with the matrix.
spec fn counters_match(
    m: [[bool; NUM_COLUMNS]; NUM_ROWS],
    row_count: [usize; NUM_ROWS],
    col_count: [usize; NUM_COLUMNS],
) -> bool {
    &&& forall|r: int| 0 <= r < NUM_ROWS ==> row_count[r] == count_true(#[trigger] m[r]@)
    &&& forall|c: int|
        0 <= c < NUM_COLUMNS ==> col_count[c] == count_true(#[trigger] pattern_column(m, c))
}

/// Setting one empty cell raises its row's and its column's counters by one.
proof fn lemma_mark_cell(
    m: [[bool; NUM_COLUMNS]; NUM_ROWS],
    m2: [[bool; NUM_COLUMNS]; NUM_ROWS],
    row_count: [usize; NUM_ROWS],
    col_count: [usize; NUM_COLUMNS],
    row_count2: [usize; NUM_ROWS],
    col_count2: [usize; NUM_COLUMNS],
    row: int,
    col: int,
)
    requires
        0 <= row < NUM_ROWS,
        0 <= col < NUM_COLUMNS,
        !m[row][col],
        counters_match(m, row_count, col_count),
        m2[row]@ == m[row]@.update(col, true),
        forall|r: int| 0 <= r < NUM_ROWS && r != row ==> m2[r] == m[r],
        forall|r: int|
            0 <= r < NUM_ROWS ==> #[trigger] row_count2[r] == if r == row {
                row_count[r] + 1
            } else {
                row_count[r] as int
            },
        forall|c: int|
            0 <= c < NUM_COLUMNS ==> #[trigger] col_count2[c] == if c == col {
                col_count[c] + 1
            } else {
                col_count[c] as int
            },
    ensures
        counters_match(m2, row_count2, col_count2),
{
    lemma_count_true_set(m[row]@, col);
    assert forall|r: int| 0 <= r < NUM_ROWS implies row_count2[r] == count_true(
        #[trigger] m2[r]@,
    ) by {
        if r != row {
            assert(m2[r] == m[r]);
        }
    }
    assert forall|c: int| 0 <= c < NUM_COLUMNS implies col_count2[c] == count_true(
        #[trigger] pattern_column(m2, c),
    ) by {
        if c == col {
            assert(pattern_column(m2, c) =~= pattern_column(m, c).update(row, true));
            lemma_count_true_set(pattern_column(m, c), row);
        } else {
            assert forall|r: int| 0 <= r < NUM_ROWS implies m2[r][c] == m[r][c] by {
                if r == row {
                    assert(m2[r]@[c] == m[r]@[c]);
                }
            }
            assert(pattern_column(m2, c) =~= pattern_column(m, c));
        }
    }
}

/// A fill pattern as a sequence of rows of flags.
pub open spec fn pattern_rows(p: [[bool; NUM_COLUMNS]; NUM_ROWS]) -> Seq<Seq<bool>> {
    Seq::new(NUM_ROWS as nat, |r: int| p[r]@)
}

/// The pattern with no cell filled.
pub open spec fn blank_rows() -> Seq<Seq<bool>> {
    Seq::new(NUM_ROWS as nat, |r: int| Seq::new(NUM_COLUMNS as nat, |c: int| false))
}

/// Column `c` of a pattern given by its rows.
pub open spec fn rows_column(m: Seq<Seq<bool>>, c: int) -> Seq<bool> {
    Seq::new(NUM_ROWS as nat, |r: int| m[r][c])
}

/// The pattern with cell `(r, c)` filled.
pub open spec fn mark(m: Seq<Seq<bool>>, r: int, c: int) -> Seq<Seq<bool>> {
    m.update(r, m[r].update(c, true))
}

/// The rows among the first `n` that can take another cell, in order.
pub open spec fn rows_with_room(m: Seq<Seq<bool>>, n: int) -> Seq<usize>
    decreases n,
{
    if n <= 0 {
        Seq::empty()
    } else {
        rows_with_room(m, n - 1) + if count_true(m[n - 1]) < NUMBERS_PER_ROW {
            seq![(n - 1) as usize]
        } else {
            Seq::empty()
        }
    }
}

/// Cell `(r, c)` is empty, in a row with room and in a column with room.
pub open spec fn slot_free(m: Seq<Seq<bool>>, r: int, c: int) -> bool {
    &&& !m[r][c]
    &&& count_true(m[r]) < NUMBERS_PER_ROW
    &&& count_true(rows_column(m, c)) < MAX_PER_COLUMN
}

/// The free slots among the first `n` cells of row `r`, in order.
pub open spec fn free_in_row(m: Seq<Seq<bool>>, r: int, n: int) -> Seq<(usize, usize)>
    decreases n,
{
    if n <= 0 {
        Seq::empty()
    } else {
        free_in_row(m, r, n - 1) + if slot_free(m, r, n - 1) {
            seq![(r as usize, (n - 1) as usize)]
        } else {
            Seq::empty()
        }
    }
}

/// The free slots of the first `n` rows, row by row.
pub open spec fn free_slots(m: Seq<Seq<bool>>, n: int) -> Seq<(usize, usize)>
    decreases n,
{
    if n <= 0 {
        Seq::empty()
    } else {
        free_slots(m, n - 1) + free_in_row(m, n - 1, NUM_COLUMNS as int)
    }
}

/// The free slots among the first `n` cells of row `r` are exactly the
/// empty cells there whose row has room and whose column has room.
proof fn lemma_free_in_row(m: Seq<Seq<bool>>, r: usize, n: int)
    requires
        0 <= n <= NUM_COLUMNS,
    ensures
        forall|x: (usize, usize)|
            #[trigger] free_in_row(m, r as int, n).contains(x) <==> (x.0 == r && x.1 < n && !m[r as int][x.1 as int]
                && count_true(m[r as int]) < NUMBERS_PER_ROW && count_true(rows_column(m, x.1 as int))
                < MAX_PER_COLUMN),
    decreases n,
{
    if n > 0 {
        lemma_free_in_row(m, r, n - 1);
        let prev = free_in_row(m, r as int, n - 1);
        let add = if slot_free(m, r as int, n - 1) {
            seq![(r, (n - 1) as usize)]
        } else {
            Seq::empty()
        };
        assert forall|x: (usize, usize)| #[trigger] free_in_row(m, r as int, n).contains(x) <==> (prev.contains(x)
            || add.contains(x)) by {
            let all = free_in_row(m, r as int, n);
            assert(all =~= prev + add);
            if all.contains(x) {
                let k = choose|k: int| 0 <= k < all.len() && all[k] == x;
                if k < prev.len() {
                    assert(prev[k] == x);
                } else {
                    assert(add[k - prev.len()] == x);
                }
            }
            if prev.contains(x) {
                let k = choose|k: int| 0 <= k < prev.len() && prev[k] == x;
                assert(all[k] == x);
            }
            if add.contains(x) {
                let k = choose|k: int| 0 <= k < add.len() && add[k] == x;
                assert(all[prev.len() + k] == x);
            }
        }
        assert forall|x: (usize, usize)| add.contains(x) <==> (x.0 == r && x.1 == n - 1 && slot_free(
            m,
            r as int,
            n - 1,
        )) by {
            if x.0 == r && x.1 == n - 1 && slot_free(m, r as int, n - 1) {
                assert(add[0] == x);
            }
        }
    }
}

/// The free slots of the first `n` rows are exactly the empty cells of those
/// rows whose row has room and whose column has room.
proof fn lemma_free_slots(m: Seq<Seq<bool>>, n: int)
    requires
        0 <= n <= NUM_ROWS,
    ensures
        forall|x: (usize, usize)|
            #[trigger] free_slots(m, n).contains(x) <==> (x.0 < n && x.1 < NUM_COLUMNS && !m[x.0 as int][x.1 as int]
                && count_true(m[x.0 as int]) < NUMBERS_PER_ROW && count_true(rows_column(m, x.1 as int))
                < MAX_PER_COLUMN),
    decreases n,
{
    if n > 0 {
        lemma_free_slots(m, n - 1);
        lemma_free_in_row(m, (n - 1) as usize, NUM_COLUMNS as int);
        let prev = free_slots(m, n - 1);
        let row = free_in_row(m, n - 1, NUM_COLUMNS as int);
        assert forall|x: (usize, usize)| #[trigger] free_slots(m, n).contains(x) <==> (prev.contains(x)
            || row.contains(x)) by {
            let all = free_slots(m, n);
            assert(all =~= prev + row);
            if all.contains(x) {
                let k = choose|k: int| 0 <= k < all.len() && all[k] == x;
                if k < prev.len() {
                    assert(prev[k] == x);
                } else {
                    assert(row[k - prev.len()] == x);
                }
            }
            if prev.contains(x) {
                let k = choose|k: int| 0 <= k < prev.len() && prev[k] == x;
                assert(all[k] == x);
            }
            if row.contains(x) {
                let k = choose|k: int| 0 <= k < row.len() && row[k] == x;
                assert(all[prev.len() + k] == x);
            }
        }
    }
}

/// The rows with room among the first `n` are exactly the rows below `n`
/// holding fewer than `NUMBERS_PER_ROW` cells.
proof fn lemma_rows_with_room(m: Seq<Seq<bool>>, n: int)
    requires
        0 <= n <= NUM_ROWS,
    ensures
        forall|x: usize|
            #[trigger] rows_with_room(m, n).contains(x) <==> (x < n && count_true(m[x as int]) < NUMBERS_PER_ROW),
    decreases n,
{
    if n > 0 {
        lemma_rows_with_room(m, n - 1);
        let prev = rows_with_room(m, n - 1);
        let add = if count_true(m[n - 1]) < NUMBERS_PER_ROW {
            seq![(n - 1) as usize]
        } else {
            Seq::empty()
        };
        assert forall|x: usize| #[trigger] rows_with_room(m, n).contains(x) <==> (x < n && count_true(m[x as int])
            < NUMBERS_PER_ROW) by {
            let all = rows_with_room(m, n);
            assert(all =~= prev + add);
            if all.contains(x) {
                let k = choose|k: int| 0 <= k < all.len() && all[k] == x;
                if k < prev.len() {
                    assert(prev[k] == x);
                    assert(prev.contains(x));
                } else {
                    assert(add[k - prev.len()] == x);
                    assert(add.len() > 0);
                    assert(x == (n - 1) as usize);
                }
            }
            if x < n && count_true(m[x as int]) < NUMBERS_PER_ROW {
                if x < n - 1 {
                    assert(prev.contains(x));
                    let k = choose|k: int| 0 <= k < prev.len() && prev[k] == x;
                    assert(all[k] == x);
                } else {
                    assert(x == (n - 1) as usize);
                    assert(add.len() == 1 && add[0] == x);
                    assert(all[prev.len() as int] == add[0]);
                }
            }
        }
    }
}

/// The draws choose among every admissible place: the seed phase among all
/// rows holding fewer than `NUMBERS_PER_ROW` cells, the distribution phase
/// among all empty cells, in any of the nine columns, whose row has room and
/// whose column holds fewer than `MAX_PER_COLUMN` cells.
pub proof fn law_candidates_are_all_open_places(m: Seq<Seq<bool>>)
    ensures
        forall|r: usize|
            #[trigger] rows_with_room(m, NUM_ROWS as int).contains(r) <==> (r < NUM_ROWS && count_true(m[r as int])
                < NUMBERS_PER_ROW),
        forall|r: usize, c: usize|
            #[trigger] free_slots(m, NUM_ROWS as int).contains((r, c)) <==> (r < NUM_ROWS && c < NUM_COLUMNS
                && !m[r as int][c as int] && count_true(m[r as int]) < NUMBERS_PER_ROW && count_true(
                Seq::new(NUM_ROWS as nat, |q: int| m[q][c as int]),
            ) < MAX_PER_COLUMN),
{
    lemma_rows_with_room(m, NUM_ROWS as int);
    lemma_free_slots(m, NUM_ROWS as int);
    assert forall|r: usize, c: usize| #[trigger] free_slots(m, NUM_ROWS as int).contains((r, c)) <==> (r < NUM_ROWS
        && c < NUM_COLUMNS && !m[r as int][c as int] && count_true(m[r as int]) < NUMBERS_PER_ROW && count_true(
        Seq::new(NUM_ROWS as nat, |q: int| m[q][c as int]),
    ) < MAX_PER_COLUMN) by {
        assert(rows_column(m, c as int) =~= Seq::new(NUM_ROWS as nat, |q: int| m[q][c as int]));
    }
}

/// The columns `0..9` in order.
pub open spec fn ordered_columns() -> Seq<usize> {
    Seq::new(NUM_COLUMNS as nat, |j: int| j as usize)
}

/// The order in which the seed phase visits the columns: the shuffle of
/// `0..9` drawn from `rng`.
pub open spec fn seed_order(rng: SmallRng) -> Seq<usize> {
    Seq::new(
        NUM_COLUMNS as nat,
        |i: int| ordered_columns()[shuffle_order(rng, NUM_COLUMNS as nat)[i]],
    )
}

/// The pattern and the generator after the seed phase has visited the first
/// `n` columns of `order`: each visited column gets one cell, in the row that
/// the draw picks among the rows with room.
pub open spec fn seed_phase(rng: SmallRng, order: Seq<usize>, n: nat) -> (Seq<Seq<bool>>, SmallRng)
    decreases n,
{
    if n == 0 {
        (blank_rows(), rng)
    } else {
        let prev = seed_phase(rng, order, (n - 1) as nat);
        let rows = rows_with_room(prev.0, NUM_ROWS as int);
        if rows.len() == 0 {
            prev
        } else {
            (
                mark(prev.0, rows[choice_index(prev.1, rows.len())] as int, order[n - 1] as int),
                choice_step(prev.1, rows.len()),
            )
        }
    }
}

/// The pattern and the generator after `n` cells of the distribution phase,
/// each placed in the free slot that the draw picks.
pub open spec fn distribution_phase(m: Seq<Seq<bool>>, rng: SmallRng, n: nat) -> (
    Seq<Seq<bool>>,
    SmallRng,
)
    decreases n,
{
    if n == 0 {
        (m, rng)
    } else {
        let prev = distribution_phase(m, rng, (n - 1) as nat);
        let slots = free_slots(prev.0, NUM_ROWS as int);
        if slots.len() == 0 {
            prev
        } else {
            let slot = slots[choice_index(prev.1, slots.len())];
            (mark(prev.0, slot.0 as int, slot.1 as int), choice_step(prev.1, slots.len()))
        }
    }
}

/// The pattern an attempt builds from the generator state `rng`, and the
/// state it leaves: shuffle the columns, seed each column once, then place
/// the remaining cells.
pub open spec fn fill_attempt(rng: SmallRng) -> (Seq<Seq<bool>>, SmallRng) {
    let seeded = seed_phase(
        shuffle_step(rng, NUM_COLUMNS as nat),
        seed_order(rng),
        NUM_COLUMNS as nat,
    );
    distribution_phase(seeded.0, seeded.1, (NUMBERS_PER_CARD - NUM_COLUMNS) as nat)
}

/// Generates a random valid 3x9 boolean fill pattern: each row has exactly
/// `NUMBERS_PER_ROW` filled cells, each column has between 1 and
/// `MAX_PER_COLUMN` filled cells, and the total is `NUMBERS_PER_CARD`. The
/// pattern is the one `fill_attempt` builds from the generator's state.
pub fn generate_fill_pattern(rng: &mut SmallRng) -> (p: [[bool; NUM_COLUMNS]; NUM_ROWS])
    ensures
        is_valid_pattern(p),
        pattern_rows(p) == fill_attempt(*old(rng)).0,
        *final(rng) == fill_attempt(*old(rng)).1,
{
    match try_generate_fill_pattern(rng) {
        Some(pattern) => pattern,
        // the attempt never gets stuck (see its contract)
        None => vstd::pervasive::unreached(),
    }
}

/// One attempt at a fill pattern: a seed phase gives every column one cell in a
/// random row that still has room, then the remaining cells go one at a time
/// to random still-valid slots. The attempt always succeeds: while a row is
/// short, one of its empty cells lies in a column that is not full. Pattern
/// and final generator state are those `fill_attempt` describes.
fn try_generate_fill_pattern(rng: &mut SmallRng) -> (res: Option<[[bool; NUM_COLUMNS]; NUM_ROWS]>)
    ensures
        res matches Some(p) && is_valid_pattern(p) && pattern_rows(p) == fill_attempt(*old(rng)).0,
        *final(rng) == fill_attempt(*old(rng)).1,
{
    let ghost start = *rng;
    let mut matrix = [[false; NUM_COLUMNS]; NUM_ROWS];
    let mut row_count = [0usize; NUM_ROWS];
    let mut col_count = [0usize; NUM_COLUMNS];

    proof {
        assert forall|r: int| 0 <= r < NUM_ROWS implies row_count[r] == count_true(
            #[trigger] matrix[r]@,
        ) by {
            lemma_count_true_none(matrix[r]@);
        }
        assert forall|c: int| 0 <= c < NUM_COLUMNS implies col_count[c] == count_true(
            #[trigger] pattern_column(matrix, c),
        ) by {
            lemma_count_true_none(pattern_column(matrix, c));
        }
    }

    // Seed phase: every column gets exactly one filled cell, in a random row
    // that still has capacity.
    let mut columns: Vec<usize> = Vec::new();
    for i in 0..NUM_COLUMNS
        invariant
            columns@ == Seq::new(i as nat, |j: int| j as usize),
    {
        columns.push(i);
        assert(columns@ =~= Seq::new((i + 1) as nat, |j: int| j as usize));
    }
    let ghost ordered = columns@;
    shuffle_in_place(rng, &mut columns);
    let ghost r1 = *rng;
    proof {
        lemma_permutation_of_range(ordered, columns@);
        assert(ordered =~= ordered_columns());
        assert(columns@ =~= seed_order(start));
        assert(pattern_rows(matrix) =~~= blank_rows());
    }

    let mut ci: usize = 0;
    while ci < NUM_COLUMNS
        invariant
            0 <= ci <= NUM_COLUMNS,
            columns@.len() == NUM_COLUMNS,
            columns@.no_duplicates(),
            forall|j: int| 0 <= j < NUM_COLUMNS ==> #[trigger] columns@[j] < NUM_COLUMNS,
            forall|c: usize| c < NUM_COLUMNS ==> #[trigger] columns@.contains(c),
            counters_match(matrix, row_count, col_count),
            forall|r: int| 0 <= r < NUM_ROWS ==> #[trigger] row_count[r] <= NUMBERS_PER_ROW,
            row_count[0] + row_count[1] + row_count[2] == ci,
            forall|j: int| 0 <= j < ci ==> col_count[#[trigger] columns@[j] as int] == 1,
            forall|j: int, r: int|
                ci <= j < NUM_COLUMNS && 0 <= r < NUM_ROWS ==> !#[trigger] matrix[r][columns@[j] as int],
            columns@ == seed_order(start),
            r1 == shuffle_step(start, NUM_COLUMNS as nat),
            pattern_rows(matrix) == seed_phase(r1, columns@, ci as nat).0,
            *rng == seed_phase(r1, columns@, ci as nat).1,
        decreases NUM_COLUMNS - ci,
    {
        let col = columns[ci];
        let mut row_candidates: Vec<usize> = Vec::new();
        let ghost mv = pattern_rows(matrix);
        for r in 0..NUM_ROWS
            invariant
                mv == pattern_rows(matrix),
                counters_match(matrix, row_count, col_count),
                row_candidates@ == rows_with_room(mv, r as int),
                forall|k: int|
                    0 <= k < row_candidates@.len() ==> #[trigger] row_candidates@[k] < NUM_ROWS
                        && row_count[row_candidates@[k] as int] < NUMBERS_PER_ROW,
                row_candidates@.len() == 0 ==> forall|q: int|
                    0 <= q < r ==> row_count[q] >= NUMBERS_PER_ROW,
        {
            assert(mv[r as int] == matrix[r as int]@);
            assert(row_count[r as int] == count_true(matrix[r as int]@));
            if row_count[r] < NUMBERS_PER_ROW {
                row_candidates.push(r);
            }
            assert(row_candidates@ =~= rows_with_room(mv, r + 1));
        }
        let ghost before_choice = *rng;
        let row = match choose_one(rng, row_candidates.as_slice()) {
            Some(row) => row,
            None => return None,
        };
        proof {
            let k = choose|k: int| 0 <= k < row_candidates@.len() && row_candidates@[k] == row;
            assert(row_candidates@[k] == row);
        }
        let ghost m0 = matrix;
        let ghost rc0 = row_count;
        let ghost cc0 = col_count;
        assert(!matrix[row as int][col as int]);
        proof {
            lemma_count_true_none(pattern_column(m0, col as int));
        }
        matrix[row][col] = true;
        row_count[row] += 1;
        col_count[col] += 1;
        proof {
            assert(matrix[row as int]@ =~= m0[row as int]@.update(col as int, true));
            lemma_mark_cell(m0, matrix, rc0, cc0, row_count, col_count, row as int, col as int);
            assert(pattern_rows(matrix) =~~= mark(mv, row as int, col as int));
            assert(mv == seed_phase(r1, columns@, ci as nat).0);
            assert(before_choice == seed_phase(r1, columns@, ci as nat).1);
            assert(row_candidates@ == rows_with_room(mv, NUM_ROWS as int));
            assert(pattern_rows(matrix) == seed_phase(r1, columns@, (ci + 1) as nat).0);
            assert forall|j: int, r: int|
                ci + 1 <= j < NUM_COLUMNS && 0 <= r < NUM_ROWS implies !#[trigger] matrix[r][columns@[j] as int] by {
                assert(columns@[j] != columns@[ci as int]);
                assert(!m0[r][columns@[j] as int]);
            }
            assert forall|j: int| 0 <= j < ci + 1 implies col_count[#[trigger] columns@[j] as int] == 1 by {
                if j < ci {
                    assert(columns@[j] != columns@[ci as int]);
                }
            }
        }
        ci += 1;
    }

    proof {
        assert forall|c: int| 0 <= c < NUM_COLUMNS implies col_count[c] == 1 by {
            assert(columns@.contains(c as usize));
            let j = choose|j: int| 0 <= j < columns@.len() && columns@[j] == c as usize;
            assert(col_count[columns@[j] as int] == 1);
        }
    }

    // Distribution phase: place the remaining marks one at a time, picking
    // uniformly among still-valid (row, col) slots.
    let remaining = NUMBERS_PER_CARD - NUM_COLUMNS;
    let ghost seeded = seed_phase(r1, columns@, NUM_COLUMNS as nat);
    for step in 0..remaining
        invariant
            remaining == NUMBERS_PER_CARD - NUM_COLUMNS,
            seeded == seed_phase(shuffle_step(start, NUM_COLUMNS as nat), seed_order(start), NUM_COLUMNS as nat),
            pattern_rows(matrix) == distribution_phase(seeded.0, seeded.1, step as nat).0,
            *rng == distribution_phase(seeded.0, seeded.1, step as nat).1,
            counters_match(matrix, row_count, col_count),
            forall|r: int| 0 <= r < NUM_ROWS ==> #[trigger] row_count[r] <= NUMBERS_PER_ROW,
            row_count[0] + row_count[1] + row_count[2] == NUM_COLUMNS + step,
            forall|c: int|
                0 <= c < NUM_COLUMNS ==> 1 <= #[trigger] col_count[c] <= MAX_PER_COLUMN,
    {
        let mut candidates: Vec<(usize, usize)> = Vec::new();
        let ghost mv = pattern_rows(matrix);
        for r in 0..NUM_ROWS
            invariant
                mv == pattern_rows(matrix),
                counters_match(matrix, row_count, col_count),
                candidates@ == free_slots(mv, r as int),
                forall|k: int|
                    0 <= k < candidates@.len() ==> slot_open(
                        matrix,
                        row_count,
                        col_count,
                        #[trigger] candidates@[k],
                    ),
                forall|q: int, c: int|
                    0 <= q < r && 0 <= c < NUM_COLUMNS && #[trigger] slot_open(
                        matrix,
                        row_count,
                        col_count,
                        (q as usize, c as usize),
                    ) ==> candidates@.len() > 0,
        {
            for c in 0..NUM_COLUMNS
                invariant
                    0 <= r < NUM_ROWS,
                    mv == pattern_rows(matrix),
                    counters_match(matrix, row_count, col_count),
                    candidates@ == free_slots(mv, r as int) + free_in_row(mv, r as int, c as int),
                    forall|k: int|
                        0 <= k < candidates@.len() ==> slot_open(
                            matrix,
                            row_count,
                            col_count,
                            #[trigger] candidates@[k],
                        ),
                    forall|q: int, c2: int|
                        ((0 <= q < r && 0 <= c2 < NUM_COLUMNS) || (q == r && 0 <= c2 < c))
                            && #[trigger] slot_open(matrix, row_count, col_count, (q as usize, c2 as usize))
                            ==> candidates@.len() > 0,
            {
                proof {
                    assert(mv[r as int] == matrix[r as int]@);
                    assert(rows_column(mv, c as int) =~= pattern_column(matrix, c as int));
                    assert(row_count[r as int] == count_true(matrix[r as int]@));
                    assert(col_count[c as int] == count_true(pattern_column(matrix, c as int)));
                }
                if !matrix[r][c] && row_count[r] < NUMBERS_PER_ROW && col_count[c] < MAX_PER_COLUMN {
                    candidates.push((r, c));
                }
                assert(candidates@ =~= free_slots(mv, r as int) + free_in_row(mv, r as int, c + 1));
            }
            assert(candidates@ =~= free_slots(mv, r + 1));
        }
        proof {
            // some row is still short, and a short row has an empty cell in a
            // column that is not full
            let r = if row_count[0] < NUMBERS_PER_ROW {
                0int
            } else if row_count[1] < NUMBERS_PER_ROW {
                1int
            } else {
                2int
            };
            assert(row_count[r] < NUMBERS_PER_ROW);
            assert(count_true(matrix[r]@) < matrix[r]@.len());
            lemma_count_true_has_false(matrix[r]@);
            let c = choose|c: int| 0 <= c < matrix[r]@.len() && !matrix[r]@[c];
            assert(!pattern_column(matrix, c)[r]);
            lemma_count_true_below_len(pattern_column(matrix, c), r);
            assert(slot_open(matrix, row_count, col_count, (r as usize, c as usize)));
        }
        let ghost before_choice = *rng;
        let (row, col) = match choose_one(rng, candidates.as_slice()) {
            Some(slot) => slot,
            None => return None,
        };
        proof {
            let k = choose|k: int| 0 <= k < candidates@.len() && candidates@[k] == (row, col);
            assert(slot_open(matrix, row_count, col_count, candidates@[k]));
        }
        let ghost m0 = matrix;
        let ghost rc0 = row_count;
        let ghost cc0 = col_count;
        matrix[row][col] = true;
        row_count[row] += 1;
        col_count[col] += 1;
        proof {
            assert(matrix[row as int]@ =~= m0[row as int]@.update(col as int, true));
            lemma_mark_cell(m0, matrix, rc0, cc0, row_count, col_count, row as int, col as int);
            assert(pattern_rows(matrix) =~~= mark(mv, row as int, col as int));
            assert(candidates@ == free_slots(mv, NUM_ROWS as int));
            assert(pattern_rows(matrix) == distribution_phase(seeded.0, seeded.1, (step + 1) as nat).0);
        }
    }

    proof {
        assert forall|r: int| 0 <= r < NUM_ROWS implies count_true(#[trigger] matrix[r]@)
            == NUMBERS_PER_ROW by {
            assert(row_count[r] == count_true(matrix[r]@));
        }
        assert forall|c: int| 0 <= c < NUM_COLUMNS implies 1 <= #[trigger] count_true(
            pattern_column(matrix, c),
        ) <= MAX_PER_COLUMN by {
            assert(col_count[c] == count_true(pattern_column(matrix, c)));
        }
    }
    Some(matrix)
}

/// A slot that may still take a mark: empty, in a row with room, in a column
/// with room.
spec fn slot_open(
    m: [[bool; NUM_COLUMNS]; NUM_ROWS],
    row_count: [usize; NUM_ROWS],
    col_count: [usize; NUM_COLUMNS],
    slot: (usize, usize),
) -> bool {
    &&& slot.0 < NUM_ROWS
    &&& slot.1 < NUM_COLUMNS
    &&& !m[slot.0 as int][slot.1 as int]
    &&& row_count[slot.0 as int] < NUMBERS_PER_ROW
    &&& col_count[slot.1 as int] < MAX_PER_COLUMN
}

/// A permutation of `0..n` holds each of `0..n` once and nothing else.
proof fn lemma_permutation_of_range(ordered: Seq<usize>, shuffled: Seq<usize>)
    requires
        ordered.len() <= usize::MAX,
        ordered == Seq::new(ordered.len(), |j: int| j as usize),
        shuffled.to_multiset() == ordered.to_multiset(),
    ensures
        shuffled.len() == ordered.len(),
        shuffled.no_duplicates(),
        forall|j: int| 0 <= j < shuffled.len() ==> #[trigger] shuffled[j] < ordered.len(),
        forall|c: usize| c < ordered.len() ==> #[trigger] shuffled.contains(c),
{
    broadcast use vstd::seq_lib::group_to_multiset_ensures;

    assert forall|i: int, j: int| 0 <= i < ordered.len() && 0 <= j < ordered.len() && i != j implies ordered[i] != ordered[j] by {
        assert(ordered[i] == i as usize && ordered[j] == j as usize);
    }
    assert(ordered.no_duplicates());
    shuffled.to_multiset_ensures();
    ordered.to_multiset_ensures();
    ordered.lemma_multiset_has_no_duplicates();
    shuffled.lemma_multiset_has_no_duplicates_conv();
    assert forall|j: int| 0 <= j < shuffled.len() implies #[trigger] shuffled[j] < ordered.len() by {
        assert(shuffled.contains(shuffled[j]));
        assert(shuffled.to_multiset().count(shuffled[j]) > 0);
        assert(ordered.to_multiset().count(shuffled[j]) > 0);
        let i = choose|i: int| 0 <= i < ordered.len() && ordered[i] == shuffled[j];
        assert(ordered[i] == i as usize);
    }
    assert forall|c: usize| c < ordered.len() implies #[trigger] shuffled.contains(c) by {
        assert(ordered[c as int] == c);
        assert(ordered.contains(c));
        assert(ordered.to_multiset().count(c) > 0);
    }
}



/// `filled` keeps exactly the entries flagged nonzero, so its length is the
/// number of `true` flags.
pub proof fn lemma_filled_len(s: Seq<u16>, flags: Seq<bool>)
    requires
        s.len() == flags.len(),
        forall|i: int| 0 <= i < s.len() ==> (#[trigger] s[i] != 0) == flags[i],
    ensures
        filled(s).len() == count_true(flags),
    decreases s.len(),
{
    if s.len() > 0 {
        assert(s[s.len() - 1] == s.last());
        lemma_filled_len(s.drop_last(), flags.drop_last());
    }
}

/// Every entry of `filled(s)` is a nonzero entry of `s`.
pub proof fn lemma_filled_members(s: Seq<u16>)
    ensures
        forall|k: int|
            0 <= k < filled(s).len() ==> #[trigger] filled(s)[k] != 0 && s.contains(filled(s)[k]),
    decreases s.len(),
{
    if s.len() > 0 {
        let p = s.drop_last();
        lemma_filled_members(p);
        assert forall|k: int| 0 <= k < filled(s).len() implies #[trigger] filled(s)[k] != 0
            && s.contains(filled(s)[k]) by {
            if k < filled(p).len() {
                assert(filled(s)[k] == filled(p)[k]);
                let i = choose|i: int| 0 <= i < p.len() && p[i] == filled(p)[k];
                assert(s[i] == p[i]);
            } else {
                assert(s[s.len() - 1] == filled(s)[k]);
            }
        }
    }
}

/// The same values at the same places, two of them exchanged.
pub open spec fn swapped(s: Seq<u16>, i: int, j: int) -> Seq<u16> {
    s.update(i, s[j]).update(j, s[i])
}

fn swap_entries(v: &mut Vec<u16>, i: usize, j: usize)
    requires
        i < old(v)@.len(),
        j < old(v)@.len(),
    ensures
        final(v)@ == swapped(old(v)@, i as int, j as int),
{
    let a = v[i];
    let b = v[j];
    v.set(i, b);
    v.set(j, a);
}

/// Exchanging two entries keeps the entries distinct and drawn from the same values.
proof fn lemma_swapped_keeps(s: Seq<u16>, i: int, j: int)
    requires
        0 <= i < s.len(),
        0 <= j < s.len(),
        s.no_duplicates(),
    ensures
        swapped(s, i, j).len() == s.len(),
        swapped(s, i, j).no_duplicates(),
        forall|p: int| 0 <= p < s.len() ==> s.contains(#[trigger] swapped(s, i, j)[p]),
{
    let t = swapped(s, i, j);
    assert forall|p: int| 0 <= p < s.len() implies s.contains(#[trigger] t[p]) by {
        if p == j {
            assert(t[p] == s[i]);
        } else if p == i {
            assert(t[p] == s[j]);
        } else {
            assert(t[p] == s[p]);
        }
    }
    assert forall|p: int, q: int| 0 <= p < t.len() && 0 <= q < t.len() && p != q implies t[p]
        != t[q] by {
        let sp = if p == j {
            i
        } else if p == i {
            j
        } else {
            p
        };
        let sq = if q == j {
            i
        } else if q == i {
            j
        } else {
            q
        };
        assert(t[p] == s[sp]);
        assert(t[q] == s[sq]);
    }
}

/// Exchanging two entries of a prefix keeps the prefix's values.
proof fn lemma_swapped_prefix(s: Seq<u16>, i: int, j: int, k: int)
    requires
        0 <= i < k,
        0 <= j < k,
        k <= s.len(),
    ensures
        forall|v: u16| #[trigger] swapped(s, i, j).take(k).contains(v) <==> s.take(k).contains(v),
{
    let t = swapped(s, i, j);
    assert forall|v: u16| #[trigger] t.take(k).contains(v) <==> s.take(k).contains(v) by {
        if t.take(k).contains(v) {
            let p = choose|p: int| 0 <= p < k && t.take(k)[p] == v;
            let q = if p == i {
                j
            } else if p == j {
                i
            } else {
                p
            };
            assert(s.take(k)[q] == v);
        }
        if s.take(k).contains(v) {
            let p = choose|p: int| 0 <= p < k && s.take(k)[p] == v;
            let q = if p == i {
                j
            } else if p == j {
                i
            } else {
                p
            };
            assert(t.take(k)[q] == v);
        }
    }
}

/// A sequence of at most three values, in ascending order.
pub open spec fn sort_small(s: Seq<u16>) -> Seq<u16> {
    if s.len() == 2 {
        if s[0] < s[1] {
            s
        } else {
            seq![s[1], s[0]]
        }
    } else if s.len() == 3 {
        let a = s[0];
        let b = s[1];
        let c = s[2];
        if a < b {
            if b < c {
                seq![a, b, c]
            } else if a < c {
                seq![a, c, b]
            } else {
                seq![c, a, b]
            }
        } else {
            if a < c {
                seq![b, a, c]
            } else if b < c {
                seq![b, c, a]
            } else {
                seq![c, b, a]
            }
        }
    } else {
        s
    }
}

/// An ascending sequence that holds exactly the values of at most three
/// distinct values is their sorted order.
proof fn lemma_sort_small(sorted: Seq<u16>, values: Seq<u16>)
    requires
        sorted.len() == values.len() <= 3,
        values.no_duplicates(),
        forall|a: int, b: int| 0 <= a < b < sorted.len() ==> sorted[a] < sorted[b],
        forall|v: u16| #[trigger] sorted.contains(v) <==> values.contains(v),
    ensures
        sorted == sort_small(values),
{
    assert forall|p: int| 0 <= p < values.len() implies sorted.contains(#[trigger] values[p]) by {
        assert(values.contains(values[p]));
    }
    assert forall|p: int| 0 <= p < sorted.len() implies values.contains(#[trigger] sorted[p]) by {
        assert(sorted.contains(sorted[p]));
    }
    if values.len() == 1 {
        assert(sorted.contains(values[0]));
    } else if values.len() == 2 {
        assert(sorted.contains(values[0]));
        assert(sorted.contains(values[1]));
        assert(values[0] != values[1]);
    } else if values.len() == 3 {
        assert(sorted.contains(values[0]));
        assert(sorted.contains(values[1]));
        assert(sorted.contains(values[2]));
        assert(values.contains(sorted[0]));
        assert(values.contains(sorted[1]));
        assert(values.contains(sorted[2]));
        assert(values[0] != values[1] && values[0] != values[2] && values[1] != values[2]);
    }
    assert(sorted =~= sort_small(values));
}

/// Sorts the first `k` entries of a vector of distinct values in place
/// (selection sort); the values stay the same distinct values.
fn sort_prefix(pool: &mut Vec<u16>, k: usize)
    requires
        k <= old(pool)@.len(),
        old(pool)@.no_duplicates(),
    ensures
        final(pool)@.len() == old(pool)@.len(),
        final(pool)@.no_duplicates(),
        forall|p: int| 0 <= p < final(pool)@.len() ==> old(pool)@.contains(#[trigger] final(pool)@[p]),
        forall|a: int, b: int| 0 <= a < b < k ==> final(pool)@[a] < final(pool)@[b],
        forall|v: u16|
            #[trigger] final(pool)@.take(k as int).contains(v) <==> old(pool)@.take(k as int).contains(v),
{
    let ghost orig = pool@;
    let mut i: usize = 0;
    while i < k
        invariant
            0 <= i <= k,
            k <= pool@.len(),
            pool@.len() == orig.len(),
            pool@.no_duplicates(),
            forall|p: int| 0 <= p < pool@.len() ==> orig.contains(#[trigger] pool@[p]),
            forall|a: int, b: int| 0 <= a < b < i ==> pool@[a] < pool@[b],
            forall|a: int, b: int| 0 <= a < i <= b < k ==> pool@[a] < pool@[b],
            forall|v: u16| #[trigger] pool@.take(k as int).contains(v) <==> orig.take(k as int).contains(v),
        decreases k - i,
    {
        let mut m = i;
        let mut j = i + 1;
        while j < k
            invariant
                i <= m < j <= k,
                k <= pool@.len(),
                forall|t: int| i <= t < j ==> pool@[m as int] <= pool@[t],
            decreases k - j,
        {
            if pool[j] < pool[m] {
                m = j;
            }
            j += 1;
        }
        let ghost before = pool@;
        swap_entries(pool, i, m);
        proof {
            lemma_swapped_keeps(before, i as int, m as int);
            lemma_swapped_prefix(before, i as int, m as int, k as int);
            assert forall|p: int| 0 <= p < pool@.len() implies orig.contains(#[trigger] pool@[p]) by {
                assert(before.contains(pool@[p]));
                let q = choose|q: int| 0 <= q < before.len() && before[q] == pool@[p];
                assert(orig.contains(before[q]));
            }
            assert forall|a: int, b: int| 0 <= a < i + 1 <= b < k implies pool@[a] < pool@[b] by {
                if a < i {
                    if b == m {
                        assert(pool@[b] == before[i as int]);
                    } else {
                        assert(pool@[b] == before[b]);
                    }
                } else {
                    assert(pool@[a] == before[m as int]);
                    if b == m {
                        assert(pool@[b] == before[i as int]);
                        assert(before[m as int] != before[i as int]);
                    } else {
                        assert(pool@[b] == before[b]);
                        assert(before[m as int] != before[b]);
                    }
                }
            }
        }
        i += 1;
    }
}

/// Each column draws from its whole inclusive range: the pool holds
/// `col_hi(c) - col_lo(c) + 1` numbers, every number of the range among
/// them; each shuffle step draws the index to exchange from the step's own
/// index up to the full size of the range.
pub proof fn law_column_pool_is_whole_range(rng: SmallRng, c: int, i: nat)
    requires
        0 <= c < NUM_COLUMNS,
    ensures
        column_values(c).len() == col_hi(c) - col_lo(c) + 1,
        forall|v: u16| col_lo(c) <= v <= col_hi(c) ==> #[trigger] column_values(c).contains(v),
        column_shuffle(rng, c, i + 1) == ({
            let prev = column_shuffle(rng, c, i);
            let hi = column_values(c).len() as usize;
            (swapped(prev.0, i as int, range_draw(prev.1, i as usize, hi) as int), range_step(prev.1, i as usize, hi))
        }),
    decreases i,
{
    assert forall|v: u16| col_lo(c) <= v <= col_hi(c) implies #[trigger] column_values(c).contains(v) by {
        assert(column_values(c)[v - col_lo(c)] == v);
    }
    if i > 0 {
        law_column_pool_is_whole_range(rng, c, (i - 1) as nat);
    }
}

/// The numbers of column `c`'s range, in order.
pub open spec fn column_values(c: int) -> Seq<u16> {
    Seq::new(column_size(c) as nat, |i: int| (col_lo(c) + i) as u16)
}

/// The pool of column `c` and the generator after the first `i` steps of the
/// partial Fisher-Yates shuffle: step `i` exchanges entry `i` with the entry
/// at the index drawn from `i..size`.
pub open spec fn column_shuffle(rng: SmallRng, c: int, i: nat) -> (Seq<u16>, SmallRng)
    decreases i,
{
    if i == 0 {
        (column_values(c), rng)
    } else {
        let prev = column_shuffle(rng, c, (i - 1) as nat);
        let lo = (i - 1) as usize;
        let hi = column_size(c) as usize;
        (swapped(prev.0, i - 1, range_draw(prev.1, lo, hi) as int), range_step(prev.1, lo, hi))
    }
}

/// How many cells of column `c` the pattern fills.
pub open spec fn column_count(m: Seq<Seq<bool>>, c: int) -> nat {
    count_true(rows_column(m, c))
}

/// The generator when column `c` of the card for pattern `m` is reached:
/// `rng` after the shuffles of the columns before it.
pub open spec fn column_start(rng: SmallRng, m: Seq<Seq<bool>>, c: nat) -> SmallRng
    decreases c,
{
    if c == 0 {
        rng
    } else {
        let prev = column_start(rng, m, (c - 1) as nat);
        column_shuffle(prev, c - 1, column_count(m, c - 1)).1
    }
}

/// The numbers drawn for column `c` of the card built from the generator
/// state `rng`, in the order drawn.
pub open spec fn column_draw(rng: SmallRng, c: int) -> Seq<u16> {
    let fill = fill_attempt(rng);
    let k = column_count(fill.0, c);
    column_shuffle(column_start(fill.1, fill.0, c as nat), c, k).0.take(k as int)
}

/// Cell `(r, c)` of the card built from the generator state `rng`: blank
/// where the pattern leaves it empty, else the column's drawn numbers in
/// ascending order, top to bottom.
pub open spec fn drawn_cell(rng: SmallRng, r: int, c: int) -> u16 {
    let m = fill_attempt(rng).0;
    if m[r][c] {
        sort_small(column_draw(rng, c))[count_true(rows_column(m, c).take(r)) as int]
    } else {
        0
    }
}

/// The generator state after building a card from `rng`.
pub open spec fn card_step(rng: SmallRng) -> SmallRng {
    let fill = fill_attempt(rng);
    column_start(fill.1, fill.0, NUM_COLUMNS as nat)
}

/// Every cell of `card` is the cell built from the generator state `rng`.
pub open spec fn cells_drawn(card: Card, rng: SmallRng) -> bool {
    forall|r: int, c: int|
        0 <= r < NUM_ROWS && 0 <= c < NUM_COLUMNS ==> #[trigger] card.grid[r][c] == drawn_cell(
            rng,
            r,
            c,
        )
}

/// The card built from the generator state `rng`.
pub open spec fn drawn_card(rng: SmallRng) -> Card {
    choose|card: Card| cells_drawn(card, rng)
}

/// A card whose cells are those built from `rng` is the card built from `rng`.
pub proof fn lemma_drawn_card(card: Card, rng: SmallRng)
    requires
        cells_drawn(card, rng),
    ensures
        card == drawn_card(rng),
{
    let d = drawn_card(rng);
    assert(cells_drawn(d, rng));
    assert forall|r: int| 0 <= r < NUM_ROWS implies #[trigger] d.grid[r] == card.grid[r] by {
        assert forall|c: int| 0 <= c < NUM_COLUMNS implies d.grid[r][c] == card.grid[r][c] by {}
        assert(d.grid[r] =~= card.grid[r]);
    }
    assert(d.grid =~= card.grid);
}

/// Generates a single structurally valid card (fill pattern + numbers),
/// without any awareness of global row uniqueness, which is handled by the
/// batch generator. Each cell is the one `drawn_cell` builds from the
/// generator's state.
pub fn generate_card(rng: &mut SmallRng) -> (card: Card)
    ensures
        is_valid_card(card),
        cells_drawn(card, *old(rng)),
        *final(rng) == card_step(*old(rng)),
{
    let ghost rng0 = *rng;
    let pattern = generate_fill_pattern(rng);
    let ghost fill = fill_attempt(rng0);
    let mut grid = [[0u16; NUM_COLUMNS]; NUM_ROWS];
    proof {
        lemma_column_ranges();
    }
    for col in 0..NUM_COLUMNS
        invariant
            is_valid_pattern(pattern),
            fill == fill_attempt(rng0),
            pattern_rows(pattern) == fill.0,
            *rng == column_start(fill.1, fill.0, col as nat),
            forall|r: int, c: int|
                0 <= r < NUM_ROWS && 0 <= c < col ==> #[trigger] grid[r][c] == drawn_cell(rng0, r, c),
            forall|c: int|
                0 <= c < NUM_COLUMNS ==> (#[trigger] COLUMN_RANGES[c]).0 == col_lo(c)
                    && COLUMN_RANGES[c].1 == col_hi(c),
            forall|r: int, c: int|
                0 <= r < NUM_ROWS && 0 <= c < col ==> (#[trigger] grid[r][c] != 0) == pattern[r][c],
            forall|r: int, c: int|
                0 <= r < NUM_ROWS && col <= c < NUM_COLUMNS ==> #[trigger] grid[r][c] == 0,
            forall|r: int, c: int|
                0 <= r < NUM_ROWS && 0 <= c < col && #[trigger] grid[r][c] != 0 ==> col_lo(c)
                    <= grid[r][c] <= col_hi(c),
            forall|c: int, r1: int, r2: int|
                0 <= c < col && 0 <= r1 < r2 < NUM_ROWS && #[trigger] grid[r1][c] != 0
                    && #[trigger] grid[r2][c] != 0 ==> grid[r1][c] < grid[r2][c],
    {
        let ghost column = pattern_column(pattern, col as int);
        let mut rows_filled: Vec<usize> = Vec::new();
        for r in 0..NUM_ROWS
            invariant
                0 <= col < NUM_COLUMNS,
                column == pattern_column(pattern, col as int),
                forall|t: int| 0 <= t < rows_filled@.len() ==> #[trigger] rows_filled@[t] < r,
                forall|a: int, b: int|
                    0 <= a < b < rows_filled@.len() ==> rows_filled@[a] < rows_filled@[b],
                forall|t: int|
                    0 <= t < rows_filled@.len() ==> pattern[#[trigger] rows_filled@[t] as int][col as int],
                forall|q: usize| q < r && pattern[q as int][col as int] ==> #[trigger] rows_filled@.contains(q),
                rows_filled@.len() == count_true(column.take(r as int)),
                forall|t: int|
                    0 <= t < rows_filled@.len() ==> count_true(
                        column.take(#[trigger] rows_filled@[t] as int),
                    ) == t,
        {
            assert(column.take(r as int + 1).drop_last() =~= column.take(r as int));
            assert(column.take(r as int + 1).last() == pattern[r as int][col as int]);
            let ghost prev = rows_filled@;
            if pattern[r][col] {
                rows_filled.push(r);
            }
            proof {
                assert forall|q: usize| q < r + 1 && pattern[q as int][col as int] implies #[trigger] rows_filled@.contains(q) by {
                    if q < r {
                        assert(prev.contains(q));
                        let t = choose|t: int| 0 <= t < prev.len() && prev[t] == q;
                        assert(rows_filled@[t] == q);
                    } else {
                        assert(rows_filled@[rows_filled@.len() - 1] == q);
                    }
                }
            }
        }
        assert(column.take(NUM_ROWS as int) =~= column);
        let k = rows_filled.len();
        let (start, end) = COLUMN_RANGES[col];
        let size = (end - start + 1) as usize;

        // Partial Fisher-Yates: only the first k positions need shuffling to
        // get k distinct random numbers from the column's range.
        let mut pool: Vec<u16> = Vec::new();
        let mut v = start;
        while v <= end
            invariant
                1 <= start <= v <= end + 1,
                end <= 90,
                pool@ == Seq::new((v - start) as nat, |i: int| (start + i) as u16),
            decreases end + 1 - v,
        {
            pool.push(v);
            v += 1;
            assert(pool@ =~= Seq::new((v - start) as nat, |i: int| (start + i) as u16));
        }
        let ghost cs = *rng;
        proof {
            assert forall|a: int, b: int| 0 <= a < pool@.len() && 0 <= b < pool@.len() && a != b implies pool@[a]
                != pool@[b] by {
                assert(pool@[a] == (start + a) as u16);
                assert(pool@[b] == (start + b) as u16);
            }
            assert(start as int == col_lo(col as int) && end as int == col_hi(col as int));
            assert(pool@ =~= column_values(col as int));
            assert(rows_column(fill.0, col as int) =~= column);
        }
        for i in 0..k
            invariant
                0 <= col < NUM_COLUMNS,
                size == column_size(col as int),
                pool@ == column_shuffle(cs, col as int, i as nat).0,
                *rng == column_shuffle(cs, col as int, i as nat).1,
                k <= MAX_PER_COLUMN,
                pool@.len() == size,
                size == end - start + 1,
                size >= 9,
                pool@.no_duplicates(),
                forall|p: int| 0 <= p < pool@.len() ==> start <= #[trigger] pool@[p] <= end,
        {
            let j = random_in_range(rng, i, size);
            let ghost before = pool@;
            swap_entries(&mut pool, i, j);
            proof {
                lemma_swapped_keeps(before, i as int, j as int);
                assert forall|p: int| 0 <= p < pool@.len() implies start <= #[trigger] pool@[p] <= end by {
                    assert(before.contains(pool@[p]));
                }
            }
        }
        let ghost shuffled = pool@;
        sort_prefix(&mut pool, k);
        proof {
            assert forall|p: int| 0 <= p < pool@.len() implies start <= #[trigger] pool@[p] <= end by {
                assert(shuffled.contains(pool@[p]));
            }
            assert(k == column_count(fill.0, col as int));
            assert(shuffled.take(k as int) == column_draw(rng0, col as int));
            assert(*rng == column_start(fill.1, fill.0, (col + 1) as nat));
            let drawn = shuffled.take(k as int);
            assert forall|a: int, b: int| 0 <= a < drawn.len() && 0 <= b < drawn.len() && a != b implies drawn[a]
                != drawn[b] by {
                assert(drawn[a] == shuffled[a] && drawn[b] == shuffled[b]);
            }
            assert(drawn.no_duplicates());
            lemma_sort_small(pool@.take(k as int), drawn);
        }

        let ghost g0 = grid;
        for idx in 0..k
            invariant
                0 <= col < NUM_COLUMNS,
                k == rows_filled@.len(),
                k <= pool@.len(),
                forall|t: int| 0 <= t < rows_filled@.len() ==> #[trigger] rows_filled@[t] < NUM_ROWS,
                forall|r: int, c: int|
                    0 <= r < NUM_ROWS && 0 <= c < NUM_COLUMNS && c != col ==> #[trigger] grid[r][c]
                        == g0[r][c],
                forall|t: int|
                    0 <= t < idx ==> #[trigger] grid[rows_filled@[t] as int][col as int] == pool@[t],
                forall|r: int|
                    0 <= r < NUM_ROWS ==> #[trigger] grid[r][col as int] == g0[r][col as int]
                        || rows_filled@.take(idx as int).contains(r as usize),
                forall|a: int, b: int|
                    0 <= a < b < rows_filled@.len() ==> rows_filled@[a] < rows_filled@[b],
        {
            let row = rows_filled[idx];
            let ghost gprev = grid;
            grid[row][col] = pool[idx];
            proof {
                assert forall|r: int| 0 <= r < NUM_ROWS implies #[trigger] grid[r][col as int]
                    == g0[r][col as int] || rows_filled@.take(idx + 1).contains(r as usize) by {
                    assert(rows_filled@.take(idx + 1)[idx as int] == row);
                    if r == row {
                    } else {
                        assert(grid[r] == gprev[r]);
                        if rows_filled@.take(idx as int).contains(r as usize) {
                            let t = choose|t: int| 0 <= t < idx && rows_filled@.take(idx as int)[t] == r as usize;
                            assert(rows_filled@.take(idx + 1)[t] == r as usize);
                        }
                    }
                }
                assert forall|t: int| 0 <= t < idx + 1 implies #[trigger] grid[rows_filled@[t] as int][col as int]
                    == pool@[t] by {
                    if t < idx {
                        assert(rows_filled@[t] != rows_filled@[idx as int]);
                    }
                }
            }
        }
        proof {
            assert(rows_filled@.take(k as int) =~= rows_filled@);
            assert forall|r: int| 0 <= r < NUM_ROWS implies (#[trigger] grid[r][col as int] != 0)
                == pattern[r][col as int] by {
                if pattern[r][col as int] {
                    assert(rows_filled@.contains(r as usize));
                    let t = choose|t: int| 0 <= t < k && rows_filled@[t] == r as usize;
                    assert(grid[rows_filled@[t] as int][col as int] == pool@[t]);
                } else {
                    if rows_filled@.contains(r as usize) {
                        let t = choose|t: int| 0 <= t < k && rows_filled@[t] == r as usize;
                        assert(pattern[rows_filled@[t] as int][col as int]);
                    }
                }
            }
            assert forall|r: int| 0 <= r < NUM_ROWS && #[trigger] grid[r][col as int] != 0
                implies col_lo(col as int) <= grid[r][col as int] <= col_hi(col as int) by {
                if !rows_filled@.contains(r as usize) {
                    assert(grid[r][col as int] == g0[r][col as int]);
                }
                let t = choose|t: int| 0 <= t < k && rows_filled@[t] == r as usize;
                assert(grid[rows_filled@[t] as int][col as int] == pool@[t]);
            }
            assert forall|r1: int, r2: int|
                0 <= r1 < r2 < NUM_ROWS && #[trigger] grid[r1][col as int] != 0
                    && #[trigger] grid[r2][col as int] != 0 implies grid[r1][col as int]
                < grid[r2][col as int] by {
                if !rows_filled@.contains(r1 as usize) {
                    assert(grid[r1][col as int] == g0[r1][col as int]);
                }
                if !rows_filled@.contains(r2 as usize) {
                    assert(grid[r2][col as int] == g0[r2][col as int]);
                }
                let t1 = choose|t: int| 0 <= t < k && rows_filled@[t] == r1 as usize;
                let t2 = choose|t: int| 0 <= t < k && rows_filled@[t] == r2 as usize;
                assert(grid[rows_filled@[t1] as int][col as int] == pool@[t1]);
                assert(grid[rows_filled@[t2] as int][col as int] == pool@[t2]);
                if t2 < t1 {
                    assert(rows_filled@[t2] < rows_filled@[t1]);
                }
                assert(t1 != t2);
            }
        }
    }

    let card = Card { grid };
    proof {
        assert forall|r: int| 0 <= r < NUM_ROWS implies #[trigger] filled(card.grid[r]@).len()
            == NUMBERS_PER_ROW by {
            lemma_filled_len(card.grid[r]@, pattern[r]@);
        }
        assert forall|c: int| 0 <= c < NUM_COLUMNS implies 1 <= #[trigger] filled(
            card_column(card, c),
        ).len() <= MAX_PER_COLUMN by {
            lemma_filled_len(card_column(card, c), pattern_column(pattern, c));
        }
        assert forall|r: int| 0 <= r < NUM_ROWS implies row_in_columns(#[trigger] card.grid[r]@) by {
            assert forall|c: int| 0 <= c < NUM_COLUMNS && #[trigger] card.grid[r]@[c] != 0 implies col_lo(c)
                <= card.grid[r]@[c] <= col_hi(c) by {
                assert(grid[r][c] != 0);
            }
        }
    }
    card
}

/// The rows of a valid card fit in a key and have three distinct keys.
pub proof fn lemma_valid_card_keys(card: Card)
    requires
        is_valid_card(card),
    ensures
        forall|r: int| 0 <= r < NUM_ROWS ==> fits_key(#[trigger] card.grid[r]@),
        forall|r1: int, r2: int|
            0 <= r1 < NUM_ROWS && 0 <= r2 < NUM_ROWS && r1 != r2 ==> #[trigger] row_mask(
                card.grid[r1]@,
            ) != #[trigger] row_mask(card.grid[r2]@),
{
    assert forall|r: int| 0 <= r < NUM_ROWS implies fits_key(#[trigger] card.grid[r]@) by {
        assert(row_in_columns(card.grid[r]@));
    }
    assert forall|r1: int, r2: int|
        0 <= r1 < NUM_ROWS && 0 <= r2 < NUM_ROWS && r1 != r2 implies #[trigger] row_mask(
            card.grid[r1]@,
        ) != #[trigger] row_mask(card.grid[r2]@) by {
        if row_mask(card.grid[r1]@) == row_mask(card.grid[r2]@) {
            assert(row_in_columns(card.grid[r1]@));
            assert(row_in_columns(card.grid[r2]@));
            law_row_key_identifies_row(card.grid[r1]@, card.grid[r2]@);
            // both rows are filled somewhere, in the same column: not ascending
            lemma_filled_members(card.grid[r1]@);
            assert(filled(card.grid[r1]@).len() == NUMBERS_PER_ROW);
            let v = filled(card.grid[r1]@)[0];
            let c = choose|c: int| 0 <= c < card.grid[r1]@.len() && card.grid[r1]@[c] == v;
            assert(card.grid[r1][c] == card.grid[r2][c]);
            if r1 < r2 {
                assert(card.grid[r1][c] < card.grid[r2][c]);
            } else {
                assert(card.grid[r2][c] < card.grid[r1][c]);
            }
        }
    }
}

/// `filled` of a sequence whose nonzero entries are pairwise distinct has no
/// duplicates.
pub proof fn lemma_filled_no_duplicates(s: Seq<u16>)
    requires
        forall|a: int, b: int|
            0 <= a < s.len() && 0 <= b < s.len() && a != b && s[a] != 0 ==> s[a] != s[b],
    ensures
        filled(s).no_duplicates(),
    decreases s.len(),
{
    if s.len() > 0 {
        let p = s.drop_last();
        assert forall|a: int, b: int|
            0 <= a < p.len() && 0 <= b < p.len() && a != b && p[a] != 0 implies p[a] != p[b] by {
            assert(p[a] == s[a] && p[b] == s[b]);
        }
        lemma_filled_no_duplicates(p);
        lemma_filled_members(p);
        let x = s.last();
        if x != 0 {
            assert forall|k: int| 0 <= k < filled(p).len() implies filled(p)[k] != x by {
                let i = choose|i: int| 0 <= i < p.len() && p[i] == filled(p)[k];
                assert(s[i] == p[i]);
                assert(s[s.len() - 1] == x);
            }
        }
    }
}

/// The numbers of a valid card: `NUMBERS_PER_CARD` of them, no number twice,
/// each between 1 and 90.
pub proof fn lemma_valid_card_numbers(card: Card)
    requires
        is_valid_card(card),
    ensures
        card_numbers(card).len() == NUMBERS_PER_CARD,
        card_numbers(card).no_duplicates(),
        forall|k: int|
            0 <= k < card_numbers(card).len() ==> 1 <= #[trigger] card_numbers(card)[k] <= 90,
{
    let f0 = filled(card.grid[0]@);
    let f1 = filled(card.grid[1]@);
    let f2 = filled(card.grid[2]@);
    assert(f0.len() == NUMBERS_PER_ROW && f1.len() == NUMBERS_PER_ROW && f2.len()
        == NUMBERS_PER_ROW);
    // two nonzero cells of a valid card hold different numbers
    assert forall|r1: int, c1: int, r2: int, c2: int|
        0 <= r1 < NUM_ROWS && 0 <= c1 < NUM_COLUMNS && 0 <= r2 < NUM_ROWS && 0 <= c2 < NUM_COLUMNS
            && (r1 != r2 || c1 != c2) && #[trigger] card.grid[r1][c1] != 0 implies card.grid[r1][c1]
        != #[trigger] card.grid[r2][c2] by {
        assert(row_in_columns(card.grid[r1]@));
        assert(row_in_columns(card.grid[r2]@));
        assert(card.grid[r1]@[c1] == card.grid[r1][c1]);
        assert(card.grid[r2]@[c2] == card.grid[r2][c2]);
        if c1 != c2 && card.grid[r1][c1] == card.grid[r2][c2] {
            lemma_columns_disjoint(c1, c2, card.grid[r1][c1] as int);
        }
        if c1 == c2 && card.grid[r2][c2] != 0 {
            if r1 < r2 {
                assert(card.grid[r1][c1] < card.grid[r2][c1]);
            } else {
                assert(card.grid[r2][c1] < card.grid[r1][c1]);
            }
        }
    }
    assert forall|r: int| 0 <= r < NUM_ROWS implies (#[trigger] filled(card.grid[r]@)).no_duplicates()
        && forall|k: int|
        0 <= k < filled(card.grid[r]@).len() ==> 1 <= #[trigger] filled(card.grid[r]@)[k] <= 90 by {
        let row = card.grid[r]@;
        assert forall|a: int, b: int|
            0 <= a < row.len() && 0 <= b < row.len() && a != b && row[a] != 0 implies row[a]
            != row[b] by {
            assert(row[a] == card.grid[r][a] && row[b] == card.grid[r][b]);
        }
        lemma_filled_no_duplicates(row);
        lemma_filled_members(row);
        assert(row_in_columns(row));
        assert forall|k: int| 0 <= k < filled(row).len() implies 1 <= #[trigger] filled(row)[k]
            <= 90 by {
            let c = choose|c: int| 0 <= c < row.len() && row[c] == filled(row)[k];
        }
    }
    // a number in two different rows would sit in two different cells
    assert forall|r1: int, r2: int, a: int, b: int|
        0 <= r1 < r2 < NUM_ROWS && 0 <= a < NUMBERS_PER_ROW && 0 <= b < NUMBERS_PER_ROW implies #[trigger] filled(
        card.grid[r1]@,
    )[a] != #[trigger] filled(card.grid[r2]@)[b] by {
        lemma_filled_members(card.grid[r1]@);
        lemma_filled_members(card.grid[r2]@);
        let c1 = choose|c: int|
            0 <= c < card.grid[r1]@.len() && card.grid[r1]@[c] == filled(card.grid[r1]@)[a];
        let c2 = choose|c: int|
            0 <= c < card.grid[r2]@.len() && card.grid[r2]@[c] == filled(card.grid[r2]@)[b];
        assert(card.grid[r1][c1] != card.grid[r2][c2]);
    }
    let all = card_numbers(card);
    assert(all == f0 + f1 + f2);
    assert forall|k: int| 0 <= k < all.len() implies 1 <= #[trigger] all[k] <= 90 by {
        if k < 5 {
            assert(all[k] == f0[k]);
        } else if k < 10 {
            assert(all[k] == f1[k - 5]);
        } else {
            assert(all[k] == f2[k - 10]);
        }
    }
    assert forall|a: int, b: int| 0 <= a < all.len() && 0 <= b < all.len() && a != b implies all[a]
        != all[b] by {
        let ra = a / 5;
        let rb = b / 5;
        assert(all[a] == filled(card.grid[ra]@)[a - 5 * ra]);
        assert(all[b] == filled(card.grid[rb]@)[b - 5 * rb]);
        if ra < rb {
            assert(filled(card.grid[ra]@)[a - 5 * ra] != filled(card.grid[rb]@)[b - 5 * rb]);
        } else if rb < ra {
            assert(filled(card.grid[rb]@)[b - 5 * rb] != filled(card.grid[ra]@)[a - 5 * ra]);
        } else {
            assert(filled(card.grid[ra]@).no_duplicates());
        }
    }
}

} // verus!
