//! The random number generator and the few random operations the library
//! draws from it. Every draw is a function of the generator's state: each
//! wrapper names what it returns and the state it leaves, so that the same
//! seed gives the same results within one build (`rand` does not promise
//! `SmallRng`'s output across platforms or versions).

use rand::rngs::SmallRng;
use rand::seq::{IndexedRandom, SliceRandom};
use rand::{Rng, SeedableRng};
use vstd::prelude::*;

verus! {

/// The generator type of the `rand` crate, carried through opaquely.
#[verifier::external_type_specification]
#[verifier::external_body]
pub struct ExSmallRng(SmallRng);

/// The generator that `SmallRng::seed_from_u64` builds from `seed`. `rand`
/// derives its state from the seed alone (a SplitMix64 expansion), so one
/// seed gives one generator.
pub uninterp spec fn seeded_generator(seed: u64) -> SmallRng;

/// The value `Rng::random_range(lo..hi)` draws from a generator in a state.
pub uninterp spec fn range_draw(rng: SmallRng, lo: usize, hi: usize) -> usize;

/// The state `Rng::random_range(lo..hi)` leaves the generator in.
pub uninterp spec fn range_step(rng: SmallRng, lo: usize, hi: usize) -> SmallRng;

/// The order `SliceRandom::shuffle` gives a slice of `len` elements: entry `i`
/// of the result is entry `shuffle_order(rng, len)[i]` of the input.
pub uninterp spec fn shuffle_order(rng: SmallRng, len: nat) -> Seq<int>;

/// The state `SliceRandom::shuffle` of `len` elements leaves the generator in.
pub uninterp spec fn shuffle_step(rng: SmallRng, len: nat) -> SmallRng;

/// The index `IndexedRandom::choose` picks in a slice of `len` elements.
pub uninterp spec fn choice_index(rng: SmallRng, len: nat) -> int;

/// The state `IndexedRandom::choose` on `len` elements leaves the generator in.
pub uninterp spec fn choice_step(rng: SmallRng, len: nat) -> SmallRng;

/// Calls `SmallRng::seed_from_u64`; the result is the generator named
/// `seeded_generator(seed)`. Nothing is stated of the generator's inner state.
#[verifier::external_body]
fn seeded_small_rng(seed: u64) -> (rng: SmallRng)
    ensures
        rng == seeded_generator(seed),
{
    SmallRng::seed_from_u64(seed)
}

/// Calls `Rng::random_range` on the half-open range `lo..hi`. `rand` panics on
/// an empty range, hence `lo < hi`; the value lies in the range, and value and
/// next state are functions of the state and the range (named above).
#[verifier::external_body]
pub(crate) fn random_in_range(rng: &mut SmallRng, lo: usize, hi: usize) -> (r: usize)
    requires
        lo < hi,
    ensures
        lo <= r < hi,
        r == range_draw(*old(rng), lo, hi),
        *final(rng) == range_step(*old(rng), lo, hi),
{
    rng.random_range(lo..hi)
}

/// Calls `SliceRandom::shuffle` on the vector's contents. `rand` only swaps
/// elements, choosing the swaps from the generator and the length alone: the
/// result is a permutation of the input, in the order named
/// `shuffle_order(state, len)`.
#[verifier::external_body]
pub(crate) fn shuffle_in_place<T>(rng: &mut SmallRng, items: &mut Vec<T>)
    ensures
        final(items)@.to_multiset() == old(items)@.to_multiset(),
        final(items)@.len() == old(items)@.len(),
        final(items)@ == Seq::new(
            old(items)@.len(),
            |i: int| old(items)@[shuffle_order(*old(rng), old(items)@.len())[i]],
        ),
        *final(rng) == shuffle_step(*old(rng), old(items)@.len()),
{
    items.shuffle(rng)
}

/// Calls `IndexedRandom::choose` and copies the chosen element. `rand` returns
/// `None` on an empty slice without drawing; otherwise the element at the index
/// it draws (below the length) from the generator and the length alone.
#[verifier::external_body]
pub(crate) fn choose_one<T: Copy>(rng: &mut SmallRng, items: &[T]) -> (r: Option<T>)
    ensures
        r is None <==> items@.len() == 0,
        items@.len() == 0 ==> *final(rng) == *old(rng),
        items@.len() > 0 ==> 0 <= choice_index(*old(rng), items@.len()) < items@.len() && r
            == Some(items@[choice_index(*old(rng), items@.len())]) && *final(rng) == choice_step(
            *old(rng),
            items@.len(),
        ),
{
    items.choose(rng).copied()
}

/// The fallback seed mixed from a clock reading and a per-process call count:
/// `now ^ (count * 0x9E37_79B9_7F4A_7C15 mod 2^64)`.
pub fn fallback_seed(now_nanos: u64, call_count: u64) -> (seed: u64)
    ensures
        seed == now_nanos ^ ((call_count * 0x9E37_79B9_7F4A_7C15u64) % 0x1_0000_0000_0000_0000) as u64,
{
    now_nanos ^ call_count.wrapping_mul(0x9E37_79B9_7F4A_7C15u64)
}

/// Builds the generator from a seed: the one that seed gives, so the same seed
/// gives the same generator. Callers without a seed of their own mix one with
/// `fallback_seed`.
pub fn make_rng(seed: u64) -> (rng: SmallRng)
    ensures
        rng == seeded_generator(seed),
{
    seeded_small_rng(seed)
}

} // verus!
