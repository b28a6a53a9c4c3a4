//! Authoritative core of a small real-time multiplayer maze shooter.
//!
//! The library owns the simulation: maze generation with a guaranteed
//! connectivity repair, per-player movement and combat resolution on a tile
//! grid, the server's round lifecycle, and the framing of the text wire
//! protocol. Transport (UDP datagrams) and rendering live outside the
//! library and exchange plain values with it.

use vstd::prelude::*;

pub mod cell;
pub mod client;
pub mod codec;
pub mod game;
pub mod grid;
pub mod maze;
pub mod player;
pub mod reach;
mod rng;

verus! {

/// Width of the maze grid in tiles.
pub const MAZE_WIDTH: usize = 24;

/// Height of the maze grid in tiles; the grid is square.
pub const MAZE_HEIGHT: usize = MAZE_WIDTH;

/// Number of cells in the flattened, row-major maze grid.
pub const MAZE_CELLS: usize = MAZE_WIDTH * MAZE_HEIGHT;

/// Score at which a round ends.
pub const SCORE_LIMIT: u32 = 5;

/// Highest round number; the counter wraps back to 1 past it.
pub const ROUND_MAX: usize = 4;

/// Number of tiles a shot examines, starting at the tile directly in front
/// of the shooter: the farthest tile it can hit is this many tiles away.
pub const SHOT_RANGE: usize = 6;

} // verus!
