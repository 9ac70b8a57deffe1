//! Bingo (90-ball) card generation: structurally valid 3x9 cards, batches in
//! which no row repeats, Monte Carlo counting of simultaneous wins, and the
//! combinatorics of how many distinct rows exist.

pub mod card;
pub mod generation;
pub mod rng;
pub mod simulation;
pub mod stats;
