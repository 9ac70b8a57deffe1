//! How many distinct rows exist: the elementary symmetric polynomial of the
//! column sizes.

use crate::card::{
    col_hi, col_lo, column_size, column_sizes, filled, row_in_columns, NUMBERS_PER_ROW,
    NUM_COLUMNS, NUM_ROWS,
};
use vstd::prelude::*;

verus! {

/// The elementary symmetric polynomial `e_k` of the values: the sum, over every
/// k-subset, of the product of its elements. Defined by the recurrence on the
/// last value (a subset either leaves it out or takes it).
pub open spec fn esym(values: Seq<u32>, k: int) -> int
    decreases values.len(),
{
    if k < 0 {
        0
    } else if values.len() == 0 {
        if k == 0 {
            1
        } else {
            0
        }
    } else {
        esym(values.drop_last(), k) + if k > 0 {
            esym(values.drop_last(), k - 1) * values.last()
        } else {
            0
        }
    }
}

/// Any one value can play the part of the last in the recurrence: a subset
/// either leaves out value `j` or takes it.
proof fn lemma_esym_remove(s: Seq<u32>, j: int, k: int)
    requires
        0 <= j < s.len(),
    ensures
        esym(s, k) == esym(s.remove(j), k) + if k > 0 {
            esym(s.remove(j), k - 1) * s[j]
        } else {
            0
        },
    decreases s.len(),
{
    if k >= 0 {
        if j == s.len() - 1 {
            assert(s.remove(j) =~= s.drop_last());
        } else {
            let p = s.drop_last();
            let x = s.last() as int;
            let y = s[j] as int;
            let pr = p.remove(j);
            let sr = s.remove(j);
            assert(sr.drop_last() =~= pr);
            assert(sr.last() == s.last());
            assert(p[j] == s[j]);
            lemma_esym_remove(p, j, k);
            lemma_esym_remove(p, j, k - 1);
            if k > 0 {
                let a = esym(pr, k - 1);
                let b = esym(pr, k - 2);
                assert(esym(p, k - 1) == a + if k - 1 > 0 {
                    b * y
                } else {
                    0
                });
                assert(k - 1 == 0 ==> b == 0);
                assert(esym(p, k - 1) == a + b * y);
                assert(esym(sr, k - 1) == a + b * x);
                assert(a * y + (a + b * y) * x == a * x + (a + b * x) * y) by (nonlinear_arith);
            }
        }
    }
}

/// `e_k` does not depend on the order of the values: any reordering gives
/// the same value.
pub proof fn law_esym_symmetric(a: Seq<u32>, b: Seq<u32>, k: int)
    requires
        a.to_multiset() == b.to_multiset(),
    ensures
        esym(a, k) == esym(b, k),
    decreases a.len(),
{
    broadcast use vstd::seq_lib::group_to_multiset_ensures, vstd::multiset::group_multiset_axioms;

    vstd::seq_lib::to_multiset_len(a);
    vstd::seq_lib::to_multiset_len(b);
    if a.len() == 0 {
        assert(a =~= b);
    } else {
        let x = a.last();
        let a1 = a.drop_last();
        assert(a1.push(x) =~= a);
        assert(a.to_multiset() == a1.to_multiset().insert(x));
        assert(a.to_multiset().count(x) > 0);
        assert(b.contains(x));
        let j = choose|j: int| 0 <= j < b.len() && b[j] == x;
        let b1 = b.remove(j);
        assert(b1.to_multiset() == b.to_multiset().remove(x));
        assert(a1.to_multiset() =~= a.to_multiset().remove(x));
        law_esym_symmetric(a1, b1, k);
        law_esym_symmetric(a1, b1, k - 1);
        lemma_esym_remove(b, j, k);
    }
}

/// The product of `1 + v` over the values: the sum of `e_k` over all `k`.
pub open spec fn product_plus_one(values: Seq<u32>) -> int
    decreases values.len(),
{
    if values.len() == 0 {
        1
    } else {
        product_plus_one(values.drop_last()) * (1 + values.last())
    }
}

pub proof fn lemma_esym_nonneg(values: Seq<u32>, k: int)
    ensures
        esym(values, k) >= 0,
    decreases values.len(),
{
    if k >= 0 && values.len() > 0 {
        lemma_esym_nonneg(values.drop_last(), k);
        lemma_esym_nonneg(values.drop_last(), k - 1);
        let a = esym(values.drop_last(), k - 1);
        let b = values.last() as int;
        assert(a * b >= 0) by (nonlinear_arith)
            requires
                a >= 0,
                b >= 0,
        ;
    }
}

pub proof fn lemma_esym_zero(values: Seq<u32>)
    ensures
        esym(values, 0) == 1,
    decreases values.len(),
{
    if values.len() > 0 {
        lemma_esym_zero(values.drop_last());
    }
}

/// Taking in more values never lowers `e_k`.
pub proof fn lemma_esym_prefix_le(values: Seq<u32>, i: int, k: int)
    requires
        0 <= i <= values.len(),
    ensures
        esym(values.take(i), k) <= esym(values, k),
    decreases values.len() - i,
{
    if i < values.len() {
        lemma_esym_prefix_le(values, i + 1, k);
        let longer = values.take(i + 1);
        assert(longer.drop_last() =~= values.take(i));
        lemma_esym_nonneg(values.take(i), k - 1);
        let a = esym(values.take(i), k - 1);
        let b = longer.last() as int;
        assert(a * b >= 0) by (nonlinear_arith)
            requires
                a >= 0,
                b >= 0,
        ;
    } else {
        assert(values.take(i) =~= values);
    }
}

/// Every `e_k` is at most the product of `1 + v`.
pub proof fn lemma_esym_le_product(values: Seq<u32>, k: int)
    ensures
        esym(values, k) <= product_plus_one(values),
    decreases values.len(),
{
    if values.len() == 0 {
    } else if k < 0 {
        lemma_product_plus_one_pos(values);
    } else {
        let p = values.drop_last();
        lemma_esym_le_product(p, k);
        lemma_esym_le_product(p, k - 1);
        lemma_esym_nonneg(p, k - 1);
        let a = esym(p, k);
        let b = esym(p, k - 1);
        let q = product_plus_one(p);
        let x = values.last() as int;
        assert(a + b * x <= q * (1 + x)) by (nonlinear_arith)
            requires
                a <= q,
                0 <= b <= q,
                x >= 0,
        ;
    }
}

pub proof fn lemma_product_plus_one_pos(values: Seq<u32>)
    ensures
        product_plus_one(values) >= 1,
    decreases values.len(),
{
    if values.len() > 0 {
        lemma_product_plus_one_pos(values.drop_last());
        let q = product_plus_one(values.drop_last());
        let x = values.last() as int;
        assert(q * (1 + x) >= 1) by (nonlinear_arith)
            requires
                q >= 1,
                x >= 0,
        ;
    }
}

/// Computes the elementary symmetric polynomial `e_k` of the given values,
/// i.e. the sum, over every k-subset of `values`, of the product of the
/// subset's elements. Used to count how many distinct valid bingo rows
/// exist: choose 5 of the 9 columns and one number from each.
pub fn elementary_symmetric_k(values: &[u32], k: usize) -> (e_k: u64)
    requires
        k < usize::MAX,
        forall|j: int| 0 <= j <= k ==> #[trigger] esym(values@, j) <= u64::MAX,
    ensures
        e_k == esym(values@, k as int),
{
    let mut e: Vec<u64> = Vec::new();
    let mut t: usize = 0;
    while t <= k
        invariant
            t <= k + 1,
            k < usize::MAX,
            e@.len() == t,
            forall|q: int| 0 <= q < t ==> #[trigger] e@[q] == 0,
        decreases k + 1 - t,
    {
        e.push(0);
        t += 1;
    }
    e.set(0, 1);
    proof {
        assert(values@.take(0) =~= Seq::<u32>::empty());
    }
    for i in 0..values.len()
        invariant
            e@.len() == k + 1,
            forall|j: int| 0 <= j <= k ==> #[trigger] esym(values@, j) <= u64::MAX,
            forall|j: int| 0 <= j <= k ==> #[trigger] e@[j] == esym(values@.take(i as int), j),
    {
        let v = values[i];
        let ghost before = values@.take(i as int);
        let ghost after = values@.take(i as int + 1);
        proof {
            assert(after.drop_last() =~= before);
            assert(after.last() == v);
        }
        let mut j = k;
        while j >= 1
            invariant
                0 <= j <= k,
                e@.len() == k + 1,
                i < values@.len(),
                before == values@.take(i as int),
                after == values@.take(i as int + 1),
                after.drop_last() == before,
                after.last() == v,
                forall|q: int| 0 <= q <= k ==> #[trigger] esym(values@, q) <= u64::MAX,
                forall|q: int| j < q <= k ==> #[trigger] e@[q] == esym(after, q),
                forall|q: int| 0 <= q <= j ==> #[trigger] e@[q] == esym(before, q),
            decreases j,
        {
            proof {
                lemma_esym_prefix_le(values@, i as int + 1, j as int);
                lemma_esym_nonneg(before, j as int);
                assert(esym(after, j as int) == esym(before, j as int) + esym(before, j - 1) * v);
            }
            let updated = e[j] + e[j - 1] * v as u64;
            e.set(j, updated);
            j -= 1;
        }
        proof {
            lemma_esym_zero(before);
            lemma_esym_zero(after);
        }
    }
    proof {
        assert(values@.take(values@.len() as int) =~= values@);
    }
    e[k]
}

/// The integer side of the combinatorial statistics for `n` cards: how many
/// distinct rows exist, how many the cards use, and how many cards could at
/// most be made without repeating a row.
#[derive(Debug, Clone, Copy)]
pub struct CombinatorialCounts {
    pub n: u32,
    pub total_rows_possible: u64,
    pub rows_used: u64,
    pub max_theoretical_n: u64,
}

/// The column sizes as a sequence.
pub open spec fn column_size_seq() -> Seq<u32> {
    Seq::new(NUM_COLUMNS as nat, |c: int| column_size(c) as u32)
}

/// The number of distinct possible rows: choose `NUMBERS_PER_ROW` of the
/// columns and one number from each.
pub open spec fn total_rows_possible() -> int {
    esym(column_size_seq(), NUMBERS_PER_ROW as int)
}

/// There are 12,565,000 distinct possible rows.
pub proof fn lemma_total_rows_possible_value()
    ensures
        total_rows_possible() == 12_565_000,
{
    let s = column_size_seq();
    assert(s.take(0) =~= Seq::<u32>::empty());
    assert(esym(s.take(0), 0) == 1);
    assert(esym(s.take(0), 1) == 0);
    assert(esym(s.take(0), 2) == 0);
    assert(esym(s.take(0), 3) == 0);
    assert(esym(s.take(0), 4) == 0);
    assert(esym(s.take(0), 5) == 0);
    assert(s.take(1).drop_last() =~= s.take(0));
    assert(s.take(1).last() == 9);
    assert(esym(s.take(1), 0) == 1);
    assert(esym(s.take(1), 1) == 9);
    assert(esym(s.take(1), 2) == 0);
    assert(esym(s.take(1), 3) == 0);
    assert(esym(s.take(1), 4) == 0);
    assert(esym(s.take(1), 5) == 0);
    assert(s.take(2).drop_last() =~= s.take(1));
    assert(s.take(2).last() == 10);
    assert(esym(s.take(2), 0) == 1);
    assert(esym(s.take(2), 1) == 19);
    assert(esym(s.take(2), 2) == 90);
    assert(esym(s.take(2), 3) == 0);
    assert(esym(s.take(2), 4) == 0);
    assert(esym(s.take(2), 5) == 0);
    assert(s.take(3).drop_last() =~= s.take(2));
    assert(s.take(3).last() == 10);
    assert(esym(s.take(3), 0) == 1);
    assert(esym(s.take(3), 1) == 29);
    assert(esym(s.take(3), 2) == 280);
    assert(esym(s.take(3), 3) == 900);
    assert(esym(s.take(3), 4) == 0);
    assert(esym(s.take(3), 5) == 0);
    assert(s.take(4).drop_last() =~= s.take(3));
    assert(s.take(4).last() == 10);
    assert(esym(s.take(4), 0) == 1);
    assert(esym(s.take(4), 1) == 39);
    assert(esym(s.take(4), 2) == 570);
    assert(esym(s.take(4), 3) == 3700);
    assert(esym(s.take(4), 4) == 9000);
    assert(esym(s.take(4), 5) == 0);
    assert(s.take(5).drop_last() =~= s.take(4));
    assert(s.take(5).last() == 10);
    assert(esym(s.take(5), 0) == 1);
    assert(esym(s.take(5), 1) == 49);
    assert(esym(s.take(5), 2) == 960);
    assert(esym(s.take(5), 3) == 9400);
    assert(esym(s.take(5), 4) == 46000);
    assert(esym(s.take(5), 5) == 90000);
    assert(s.take(6).drop_last() =~= s.take(5));
    assert(s.take(6).last() == 10);
    assert(esym(s.take(6), 0) == 1);
    assert(esym(s.take(6), 1) == 59);
    assert(esym(s.take(6), 2) == 1450);
    assert(esym(s.take(6), 3) == 19000);
    assert(esym(s.take(6), 4) == 140000);
    assert(esym(s.take(6), 5) == 550000);
    assert(s.take(7).drop_last() =~= s.take(6));
    assert(s.take(7).last() == 10);
    assert(esym(s.take(7), 0) == 1);
    assert(esym(s.take(7), 1) == 69);
    assert(esym(s.take(7), 2) == 2040);
    assert(esym(s.take(7), 3) == 33500);
    assert(esym(s.take(7), 4) == 330000);
    assert(esym(s.take(7), 5) == 1950000);
    assert(s.take(8).drop_last() =~= s.take(7));
    assert(s.take(8).last() == 10);
    assert(esym(s.take(8), 0) == 1);
    assert(esym(s.take(8), 1) == 79);
    assert(esym(s.take(8), 2) == 2730);
    assert(esym(s.take(8), 3) == 53900);
    assert(esym(s.take(8), 4) == 665000);
    assert(esym(s.take(8), 5) == 5250000);
    assert(s.take(9).drop_last() =~= s.take(8));
    assert(s.take(9).last() == 11);
    assert(esym(s.take(9), 0) == 1);
    assert(esym(s.take(9), 1) == 90);
    assert(esym(s.take(9), 2) == 3599);
    assert(esym(s.take(9), 3) == 83930);
    assert(esym(s.take(9), 4) == 1257900);
    assert(esym(s.take(9), 5) == 12565000);
    assert(s.take(9) =~= s);
}


/// A value allowed in a cell of column `c`: blank, or a number of its range.
pub open spec fn allowed_in_column(c: int, v: u16) -> bool {
    v == 0 || col_lo(c) <= v <= col_hi(c)
}

/// The rows over the first `m` columns holding exactly `k` numbers, every
/// cell blank or in its column's range.
pub open spec fn partial_rows(m: int, k: int) -> Set<Seq<u16>> {
    Set::new(
        |s: Seq<u16>|
            s.len() == m && (forall|c: int| 0 <= c < m ==> #[trigger] allowed_in_column(c, s[c]))
                && filled(s).len() == k,
    )
}

/// The valid rows of a card: `NUMBERS_PER_ROW` numbers, each in its column's
/// range, the other cells blank.
pub open spec fn valid_rows() -> Set<Seq<u16>> {
    Set::new(|s: Seq<u16>| row_in_columns(s) && filled(s).len() == NUMBERS_PER_ROW)
}

/// Each row of `rows` with `v` appended.
pub open spec fn appended(rows: Set<Seq<u16>>, v: u16) -> Set<Seq<u16>> {
    rows.map(|s: Seq<u16>| s.push(v))
}

/// Each row of `rows` with one of `lo .. lo + w` appended.
pub open spec fn appended_range(rows: Set<Seq<u16>>, lo: int, w: int) -> Set<Seq<u16>> {
    Set::new(
        |t: Seq<u16>| t.len() > 0 && rows.contains(t.drop_last()) && lo <= t.last() < lo + w,
    )
}

proof fn lemma_appended_len(rows: Set<Seq<u16>>, v: u16)
    requires
        rows.finite(),
    ensures
        appended(rows, v).finite(),
        appended(rows, v).len() == rows.len(),
{
    let f = |s: Seq<u16>| s.push(v);
    assert(vstd::relations::injective_on(f, rows)) by {
        assert forall|x: Seq<u16>, y: Seq<u16>|
            rows.contains(x) && rows.contains(y) && #[trigger] f(x) == #[trigger] f(y) implies x == y by {
            assert(x =~= f(x).drop_last());
            assert(y =~= f(y).drop_last());
        }
    }
    vstd::set_lib::lemma_map_size(rows, appended(rows, v), f);
}

proof fn lemma_appended_range_len(rows: Set<Seq<u16>>, lo: int, w: int)
    requires
        rows.finite(),
        0 <= w,
        0 <= lo,
        lo + w <= 65536,
    ensures
        appended_range(rows, lo, w).finite(),
        appended_range(rows, lo, w).len() == rows.len() * w,
    decreases w,
{
    if w == 0 {
        assert(appended_range(rows, lo, w) =~= Set::<Seq<u16>>::empty());
    } else {
        lemma_appended_range_len(rows, lo, w - 1);
        let v = (lo + w - 1) as u16;
        lemma_appended_len(rows, v);
        let earlier = appended_range(rows, lo, w - 1);
        let last = appended(rows, v);
        assert forall|t: Seq<u16>| #[trigger] appended_range(rows, lo, w).contains(t) <==> (
        earlier + last).contains(t) by {
            if appended_range(rows, lo, w).contains(t) && t.last() == v {
                assert(t =~= t.drop_last().push(v));
            }
            if last.contains(t) {
                let s = choose|s: Seq<u16>| rows.contains(s) && t == s.push(v);
                assert(t.drop_last() =~= s);
            }
        }
        assert(appended_range(rows, lo, w) =~= earlier + last);
        assert(earlier.disjoint(last)) by {
            assert forall|t: Seq<u16>| earlier.contains(t) implies !last.contains(t) by {
                if last.contains(t) {
                    let s = choose|s: Seq<u16>| rows.contains(s) && t == s.push(v);
                    assert(t.last() == v);
                }
            }
        }
        vstd::set_lib::lemma_set_disjoint_lens(earlier, last);
        let n = rows.len() as int;
        assert(n * (w - 1) + n == n * w) by (nonlinear_arith);
    }
}

/// Counting the rows by their last column: the rows over `m` columns with `k`
/// numbers number `e_k` of the first `m` column sizes.
pub proof fn lemma_partial_rows_count(m: int, k: int)
    requires
        0 <= m <= NUM_COLUMNS,
    ensures
        partial_rows(m, k).finite(),
        partial_rows(m, k).len() == esym(column_size_seq().take(m), k),
    decreases m,
{
    let sizes = column_size_seq();
    if m == 0 {
        assert(sizes.take(0) =~= Seq::<u32>::empty());
        if k == 0 {
            assert forall|s: Seq<u16>| #[trigger] partial_rows(0, 0).contains(s) <==> s == Seq::<u16>::empty() by {
                if s == Seq::<u16>::empty() {
                    assert(filled(s).len() == 0);
                }
                if partial_rows(0, 0).contains(s) {
                    assert(s =~= Seq::<u16>::empty());
                }
            }
            assert(partial_rows(0, 0) =~= Set::<Seq<u16>>::empty().insert(Seq::<u16>::empty()));
            assert(partial_rows(0, 0).len() == 1);
        } else {
            assert forall|s: Seq<u16>| !(#[trigger] partial_rows(0, k).contains(s)) by {
                if s.len() == 0 {
                    assert(filled(s).len() == 0);
                }
            }
            assert(partial_rows(0, k) =~= Set::<Seq<u16>>::empty());
        }
    } else {
        let c = m - 1;
        lemma_partial_rows_count(c, k);
        lemma_partial_rows_count(c, k - 1);
        let with_blank = partial_rows(c, k);
        let with_number = partial_rows(c, k - 1);
        let lo = col_lo(c);
        let w = column_size(c);
        lemma_appended_len(with_blank, 0);
        lemma_appended_range_len(with_number, lo, w);
        let blank_last = appended(with_blank, 0);
        let number_last = appended_range(with_number, lo, w);
        assert forall|t: Seq<u16>| #[trigger] partial_rows(m, k).contains(t) <==> (blank_last
            + number_last).contains(t) by {
            if t.len() == m {
                let s = t.drop_last();
                let x = t.last();
                assert(t =~= s.push(x));
                assert((forall|q: int| 0 <= q < m ==> #[trigger] allowed_in_column(q, t[q])) <==> (
                (forall|q: int| 0 <= q < c ==> #[trigger] allowed_in_column(q, s[q]))
                    && allowed_in_column(c, x))) by {
                    if forall|q: int| 0 <= q < m ==> #[trigger] allowed_in_column(q, t[q]) {
                        assert forall|q: int| 0 <= q < c implies #[trigger] allowed_in_column(q, s[q]) by {
                            assert(allowed_in_column(q, t[q]));
                        }
                        assert(allowed_in_column(c, t[c]));
                    }
                    if (forall|q: int| 0 <= q < c ==> #[trigger] allowed_in_column(q, s[q]))
                        && allowed_in_column(c, x) {
                        assert forall|q: int| 0 <= q < m implies #[trigger] allowed_in_column(q, t[q]) by {
                            if q < c {
                                assert(allowed_in_column(q, s[q]));
                            }
                        }
                    }
                }
                if x == 0 {
                    assert(blank_last.contains(t) <==> with_blank.contains(s)) by {
                        if blank_last.contains(t) {
                            let s2 = choose|s2: Seq<u16>| with_blank.contains(s2) && t == s2.push(0);
                            assert(s =~= s2);
                        }
                    }
                    assert(!number_last.contains(t));
                } else {
                    assert(!blank_last.contains(t)) by {
                        if blank_last.contains(t) {
                            let s2 = choose|s2: Seq<u16>| with_blank.contains(s2) && t == s2.push(0);
                            assert(t.last() == 0);
                        }
                    }
                }
            } else {
                if blank_last.contains(t) {
                    let s2 = choose|s2: Seq<u16>| with_blank.contains(s2) && t == s2.push(0);
                }
            }
        }
        assert(partial_rows(m, k) =~= blank_last + number_last);
        assert(blank_last.disjoint(number_last)) by {
            assert forall|t: Seq<u16>| blank_last.contains(t) implies !number_last.contains(t) by {
                let s2 = choose|s2: Seq<u16>| with_blank.contains(s2) && t == s2.push(0);
                assert(t.last() == 0);
            }
        }
        vstd::set_lib::lemma_set_disjoint_lens(blank_last, number_last);
        assert(sizes.take(m).drop_last() =~= sizes.take(c));
        assert(sizes.take(m).last() == sizes[c]);
        assert(sizes[c] as int == w);
        assert(partial_rows(m, k).len() == with_blank.len() + with_number.len() * w);
        if k <= 0 {
            assert(with_number.len() == 0);
            assert(with_number.len() * w == 0);
        }
    }
}

/// The valid rows number `e_5` of the column sizes, 12,565,000: a row picks
/// `NUMBERS_PER_ROW` of the columns and one number of each.
pub proof fn law_valid_row_count()
    ensures
        valid_rows().finite(),
        valid_rows().len() == total_rows_possible(),
        valid_rows().len() == 12_565_000,
{
    lemma_partial_rows_count(NUM_COLUMNS as int, NUMBERS_PER_ROW as int);
    assert(column_size_seq().take(NUM_COLUMNS as int) =~= column_size_seq());
    assert forall|s: Seq<u16>| #[trigger] valid_rows().contains(s) <==> partial_rows(
        NUM_COLUMNS as int,
        NUMBERS_PER_ROW as int,
    ).contains(s) by {
        if s.len() == NUM_COLUMNS {
            if row_in_columns(s) {
                assert forall|c: int| 0 <= c < NUM_COLUMNS implies #[trigger] allowed_in_column(c, s[c]) by {
                    if s[c] != 0 {
                    }
                }
            }
            if forall|c: int| 0 <= c < NUM_COLUMNS ==> #[trigger] allowed_in_column(c, s[c]) {
                assert forall|c: int| 0 <= c < NUM_COLUMNS && #[trigger] s[c] != 0 implies col_lo(c)
                    <= s[c] <= col_hi(c) by {
                    assert(allowed_in_column(c, s[c]));
                }
            }
        }
    }
    assert(valid_rows() =~= partial_rows(NUM_COLUMNS as int, NUMBERS_PER_ROW as int));
    lemma_total_rows_possible_value();
}

/// Instant combinatorial statistics for a set of `n` cards (the cards need
/// not be generated).
pub fn combinatorial_stats(n: u32) -> (stats: CombinatorialCounts)
    ensures
        stats.n == n,
        stats.total_rows_possible == total_rows_possible(),
        stats.rows_used == n * NUM_ROWS,
        stats.max_theoretical_n == total_rows_possible() / NUM_ROWS as int,
        stats.total_rows_possible == 12_565_000,
        stats.max_theoretical_n == 4_188_333,
{
    let sizes = column_sizes();
    proof {
        lemma_total_rows_possible_value();
        assert(sizes@ =~= column_size_seq());
        lemma_column_size_product();
        assert forall|j: int| 0 <= j <= NUMBERS_PER_ROW implies #[trigger] esym(sizes@, j)
            <= u64::MAX by {
            lemma_esym_le_product(column_size_seq(), j);
        }
    }
    let total_rows_possible = elementary_symmetric_k(&sizes, NUMBERS_PER_ROW);
    let rows_used = n as u64 * 3;
    let max_theoretical_n = total_rows_possible / 3;
    CombinatorialCounts { n, total_rows_possible, rows_used, max_theoretical_n }
}

/// The product of `1 + size` over the columns is small enough for `u64`.
proof fn lemma_column_size_product()
    ensures
        product_plus_one(column_size_seq()) <= u64::MAX,
{
    let s = column_size_seq();
    assert forall|c: int| 0 <= c < s.len() implies #[trigger] s[c] <= 11 by {}
    lemma_product_bounded(s);
    reveal_with_fuel(pow12, 10);
}

/// With every value at most 11, the product of `1 + v` is at most `12^len`.
proof fn lemma_product_bounded(s: Seq<u32>)
    requires
        forall|c: int| 0 <= c < s.len() ==> #[trigger] s[c] <= 11,
    ensures
        1 <= product_plus_one(s) <= pow12(s.len() as int),
    decreases s.len(),
{
    if s.len() > 0 {
        let p = s.drop_last();
        assert forall|c: int| 0 <= c < p.len() implies #[trigger] p[c] <= 11 by {
            assert(p[c] == s[c]);
        }
        lemma_product_bounded(p);
        assert(s.last() == s[s.len() - 1]);
        let q = product_plus_one(p);
        let x = s.last() as int;
        let m = pow12(p.len() as int);
        assert(q * (1 + x) <= m * 12 && q * (1 + x) >= 1) by (nonlinear_arith)
            requires
                1 <= q <= m,
                0 <= x <= 11,
        ;
    }
}

spec fn pow12(i: int) -> int
    decreases i,
{
    if i <= 0 {
        1
    } else {
        12 * pow12(i - 1)
    }
}

} // verus!
