//! Cell kinds of the maze grid and their wire byte encoding.

use vstd::prelude::*;

verus! {

/// Kind of one tile of the maze grid.
///
/// `Occupied` marks a tile a player currently stands on; it is an overlay of
/// "empty, plus a player is here" that keeps the grid and the player
/// positions mutually consistent.
#[derive(Clone, Copy, PartialEq, Eq, Structural, Debug)]
pub enum Cell {
    Empty,
    Occupied,
    Wall,
    Breakable,
}

/// Wire byte of a cell kind, as the state broadcast carries it.
pub open spec fn spec_cell_byte(c: Cell) -> u8 {
    match c {
        Cell::Empty => 0,
        Cell::Occupied => 1,
        Cell::Wall => 2,
        Cell::Breakable => 3,
    }
}

/// Cell kind read back from a wire byte; bytes outside the encoding are
/// rejected.
pub open spec fn spec_cell_from_byte(b: u8) -> Option<Cell> {
    if b == 0 {
        Some(Cell::Empty)
    } else if b == 1 {
        Some(Cell::Occupied)
    } else if b == 2 {
        Some(Cell::Wall)
    } else if b == 3 {
        Some(Cell::Breakable)
    } else {
        None
    }
}

impl Cell {
    /// Encode this cell kind as its wire byte.
    pub fn to_byte(self) -> (b: u8)
        ensures
            b == spec_cell_byte(self),
    {
        match self {
            Cell::Empty => 0,
            Cell::Occupied => 1,
            Cell::Wall => 2,
            Cell::Breakable => 3,
        }
    }

    /// Decode a wire byte into a cell kind; `None` on a byte outside the
    /// encoding.
    pub fn from_byte(b: u8) -> (c: Option<Cell>)
        ensures
            c == spec_cell_from_byte(b),
    {
        if b == 0 {
            Some(Cell::Empty)
        } else if b == 1 {
            Some(Cell::Occupied)
        } else if b == 2 {
            Some(Cell::Wall)
        } else if b == 3 {
            Some(Cell::Breakable)
        } else {
            None
        }
    }
}

/// Decoding a cell's wire byte gives the cell back: the encoding loses
/// nothing.
pub proof fn lemma_cell_byte_round_trip(c: Cell)
    ensures
        spec_cell_from_byte(spec_cell_byte(c)) == Some(c),
{
}

} // verus!
