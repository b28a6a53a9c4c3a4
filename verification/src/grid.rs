//! Coordinates and indexing of the square maze grid.
//!
//! The grid is `MAZE_WIDTH` x `MAZE_HEIGHT` tiles, stored flattened in
//! row-major order: the cell at column `x`, row `y` lives at index
//! `y * MAZE_WIDTH + x`.

use vstd::prelude::*;
use crate::cell::Cell;
use crate::MAZE_WIDTH;
use crate::MAZE_HEIGHT;
use crate::MAZE_CELLS;

verus! {

/// The point (x, y) names a tile of the grid.
pub open spec fn in_grid(x: int, y: int) -> bool {
    0 <= x < MAZE_WIDTH && 0 <= y < MAZE_HEIGHT
}

/// Flat row-major index of the tile at column `x`, row `y`.
pub open spec fn cell_index(x: int, y: int) -> int {
    y * MAZE_WIDTH + x
}

/// The tile lies on the outer border of the grid.
pub open spec fn is_border(x: int, y: int) -> bool {
    x == 0 || y == 0 || x == MAZE_WIDTH - 1 || y == MAZE_HEIGHT - 1
}

/// The flattened grid has exactly one cell per tile.
pub open spec fn grid_sized(m: Seq<Cell>) -> bool {
    m.len() == MAZE_CELLS
}

/// Every border tile is a permanent wall.
pub open spec fn border_walls(m: Seq<Cell>) -> bool {
    forall|x: int, y: int|
        in_grid(x, y) && is_border(x, y) ==> m[cell_index(x, y)] == Cell::Wall
}

/// Distinct tiles have distinct flat indices.
pub proof fn lemma_cell_index_injective(x1: int, y1: int, x2: int, y2: int)
    requires
        in_grid(x1, y1),
        in_grid(x2, y2),
        cell_index(x1, y1) == cell_index(x2, y2),
    ensures
        x1 == x2 && y1 == y2,
{
}

/// Writing one tile leaves every other tile of the grid unchanged.
pub proof fn lemma_update_diff(m0: Seq<Cell>, m1: Seq<Cell>, cx: int, cy: int, v: Cell)
    requires
        grid_sized(m0),
        in_grid(cx, cy),
        m1 == m0.update(cell_index(cx, cy), v),
    ensures
        grid_sized(m1),
        m1[cell_index(cx, cy)] == v,
        forall|x: int, y: int|
            in_grid(x, y) && !(x == cx && y == cy) ==> m1[#[trigger] cell_index(x, y)]
                == m0[cell_index(x, y)],
{
    assert forall|x: int, y: int|
        in_grid(x, y) && !(x == cx && y == cy) implies m1[#[trigger] cell_index(x, y)]
        == m0[cell_index(x, y)] by {
        if cell_index(x, y) == cell_index(cx, cy) {
            lemma_cell_index_injective(x, y, cx, cy);
        }
    }
}

/// Flat row-major index of the tile at column `x`, row `y`.
pub fn tile_index(x: usize, y: usize) -> (i: usize)
    requires
        x < MAZE_WIDTH,
        y < MAZE_HEIGHT,
    ensures
        i == cell_index(x as int, y as int),
        i < MAZE_CELLS,
{
    y * MAZE_WIDTH + x
}

} // verus!
