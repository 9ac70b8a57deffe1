# bingo_cards

Generation of 90-ball bingo cards (3 rows x 9 columns, five numbers per row),
written in Verus with its behaviour stated in contracts and proved.

- `src/card.rs`: the card layout, the fill-pattern and card generators (every
  generated card is structurally valid, and is exactly the card that the
  generator's draws select), the row keys used for de-duplication (a key
  identifies its row), and the row-major flat form.
- `src/generation.rs`: batches in which no row repeats, described exactly as a
  function of the seed (so, within one build, a seed reproduces its batch, and a smaller batch is
  the start of a larger one), and the flat form of a batch with its decoding.
- `src/simulation.rs`: Monte Carlo counting of simultaneous wins; one round is
  a function of the draw order, and the counts are exact tallies over the
  games drawn from the seed (identical cards always tie; the order of the
  cards does not matter).
- `src/stats.rs`: the elementary symmetric polynomial (symmetric in its
  values), and the proof that there are exactly 12,565,000 distinct valid rows.
- `src/rng.rs`: the random generator of the `rand` crate and the few operations
  drawn from it, behind trusted wrappers; each draw is named as a function of
  the generator's state.
- `app/lib.rs`: the WebAssembly entry points, the float-valued statistics and
  the process-wide fallback seed.
