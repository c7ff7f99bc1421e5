//! A verified Minesweeper board engine: randomized generation with derived
//! numbering, cascading reveal of empty regions, flag marking, chorded
//! mass-reveal, and win/loss detection.
use vstd::prelude::*;

pub mod space;
pub mod engine;
pub mod rng;

verus! {

/// The content of one grid cell, fixed at generation time. `Number(n)`
/// reports exactly `n` adjacent mines, with `n` in `[1, 8]`; `Empty` means
/// zero adjacent mines.
#[derive(Clone, Copy, Debug, PartialEq, Eq, Structural)]
pub enum Cell {
    Mine,
    Number(u8),
    Empty,
}

/// The derived game state: play continues until a mine is revealed (`Lost`)
/// or every non-mine cell is revealed (`Won`); both are terminal.
#[derive(Clone, Copy, Debug, PartialEq, Eq, Structural)]
pub enum GameState {
    InProgress,
    Won,
    Lost,
}

} // verus!
