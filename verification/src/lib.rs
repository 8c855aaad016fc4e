//! Decision core of a two-player connect-five board game.
//!
//! The library holds the three pieces of the game that carry real logic:
//! the board model, the win detector, and the heuristic move selector of
//! the automated player.  A presentation layer owns the board, hands a
//! snapshot in, and applies the chosen move itself.

use vstd::prelude::*;

pub mod board;
pub mod evaluate;
pub mod line;
pub mod selector;
pub mod winner;

verus! {

/// Side length of the reference board configuration.
pub const GRID_SIZE: usize = 20;

/// Largest board side the scorer supports: with `MAX_SIDE` cells on a
/// line, a fully chained line scores `STONE_POINTS * (MAX_SIDE - 1)`,
/// which must still fit in the `u8` score fields of `CellScore`.
pub const MAX_SIDE: usize = 26;

/// Number of consecutive same-owner stones that win the game.
pub const WIN_RUN: usize = 5;

/// Points a scored line earns per friendly stone.
pub const STONE_POINTS: usize = 10;

/// Score at which a single line counts as a forcing threat: one stone
/// short of a winning run.
pub const FORCING_SCORE: usize = (WIN_RUN - 1) * STONE_POINTS;

} // verus!
