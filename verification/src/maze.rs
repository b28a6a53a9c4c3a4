//! Procedural maze generation with connectivity repair.
//!
//! A round's maze starts from a fixed "comb" template of solid horizontal
//! bands separated by open corridors, is eroded and re-seeded with obstacles
//! at random, repaired for connectivity, and sprinkled with destructible
//! walls. The functions here guarantee two invariants of every maze they
//! hand out: the outer border is solid wall, and every `Empty` cell can
//! reach the start tile (1, 1) through `Empty` cells.

use vstd::prelude::*;
use crate::cell::Cell;
use crate::grid::{in_grid, cell_index, is_border, grid_sized, border_walls, tile_index,
    lemma_update_diff};
use crate::reach::{is_walk, adjacent, reaches_start, connected, is_reachable_from_start,
    is_connected};
use crate::rng::rand_range;
use crate::MAZE_WIDTH;
use crate::MAZE_HEIGHT;

verus! {

/// Attempt budget of each random rejection-sampling pass; when it runs out
/// the pass stops early rather than spin on a grid with no candidates left.
pub const SAMPLE_ATTEMPTS: usize = 4000;

/// How often generation is retried before falling back to a maze that is
/// connected by construction.
pub const GENERATION_RETRIES: usize = 8;

/// A maze fresh from generation carries no player marker: every cell is
/// `Empty`, `Wall` or `Breakable`.
pub open spec fn no_occupied_cells(m: Seq<Cell>) -> bool {
    forall|x: int, y: int| in_grid(x, y) ==> m[#[trigger] cell_index(x, y)] != Cell::Occupied
}

/// Rows of the template that carry a solid horizontal band: even rows in
/// the upper half, odd rows in the lower half.
pub open spec fn band_row(y: int) -> bool {
    (2 <= y <= 10 && y % 2 == 0) || (13 <= y <= 21 && y % 2 == 1)
}

/// Cell of the fixed starting template: a solid border ring, and wall bands
/// spanning columns 2..=21 of each band row, leaving one open column at
/// either side.
pub open spec fn template_cell(x: int, y: int) -> Cell {
    if is_border(x, y) {
        Cell::Wall
    } else if band_row(y) && 2 <= x <= 21 {
        Cell::Wall
    } else {
        Cell::Empty
    }
}

fn template_cell_at(x: usize, y: usize) -> (c: Cell)
    requires
        x < MAZE_WIDTH,
        y < MAZE_HEIGHT,
    ensures
        c == template_cell(x as int, y as int),
{
    if x == 0 || y == 0 || x == MAZE_WIDTH - 1 || y == MAZE_HEIGHT - 1 {
        Cell::Wall
    } else if (2 <= y && y <= 10 && y % 2 == 0) || (13 <= y && y <= 21 && y % 2 == 1) {
        if 2 <= x && x <= 21 {
            Cell::Wall
        } else {
            Cell::Empty
        }
    } else {
        Cell::Empty
    }
}

/// The fixed maze template every round starts from.
pub fn generic_maze() -> (m: Vec<Cell>)
    ensures
        grid_sized(m@),
        forall|x: int, y: int| in_grid(x, y) ==> m@[cell_index(x, y)] == template_cell(x, y),
{
    let mut m: Vec<Cell> = Vec::new();
    let mut y: usize = 0;
    while y < MAZE_HEIGHT
        invariant
            y <= MAZE_HEIGHT,
            m@.len() == y * MAZE_WIDTH,
            forall|xx: int, yy: int|
                0 <= xx < MAZE_WIDTH && 0 <= yy < y ==> m@[cell_index(xx, yy)] == template_cell(
                    xx,
                    yy,
                ),
        decreases MAZE_HEIGHT - y,
    {
        let mut x: usize = 0;
        while x < MAZE_WIDTH
            invariant
                y < MAZE_HEIGHT,
                x <= MAZE_WIDTH,
                m@.len() == y * MAZE_WIDTH + x,
                forall|xx: int, yy: int|
                    0 <= xx < MAZE_WIDTH && 0 <= yy < y ==> m@[cell_index(xx, yy)]
                        == template_cell(xx, yy),
                forall|xx: int|
                    0 <= xx < x ==> m@[cell_index(xx, y as int)] == template_cell(xx, y as int),
            decreases MAZE_WIDTH - x,
        {
            m.push(template_cell_at(x, y));
            x = x + 1;
        }
        y = y + 1;
    }
    m
}

/// Both horizontal neighbours of the tile at column `x`, row `y` hold `cell`.
pub fn adjacent_is(cell: Cell, x: usize, y: usize, maze: &Vec<Cell>) -> (r: bool)
    requires
        grid_sized(maze@),
        1 <= x < MAZE_WIDTH - 1,
        y < MAZE_HEIGHT,
    ensures
        r == (maze@[cell_index(x + 1, y as int)] == cell && maze@[cell_index(x - 1, y as int)]
            == cell),
{
    let right = tile_index(x + 1, y);
    let left = tile_index(x - 1, y);
    maze[right] == cell && maze[left] == cell
}

/// Erosion pass over one band row: knock random bricks out of the band until
/// `target` are gone (or the attempt budget runs out), picking only columns
/// whose horizontal neighbours are both still walls.
fn erode_band(maze: &mut Vec<Cell>, row: usize, target: usize)
    requires
        grid_sized(old(maze)@),
        1 <= row < MAZE_HEIGHT - 1,
    ensures
        grid_sized(final(maze)@),
        forall|x: int, y: int|
            in_grid(x, y) && final(maze)@[#[trigger] cell_index(x, y)] != old(maze)@[cell_index(x, y)]
                ==> y == row && 2 <= x <= 21 && final(maze)@[cell_index(x, y)] == Cell::Empty,
{
    let mut removed: usize = 0;
    let mut attempts: usize = 0;
    while removed < target && attempts < SAMPLE_ATTEMPTS
        invariant
            grid_sized(maze@),
            1 <= row < MAZE_HEIGHT - 1,
            forall|x: int, y: int|
                in_grid(x, y) && maze@[#[trigger] cell_index(x, y)] != old(maze)@[cell_index(
                    x,
                    y,
                )] ==> y == row && 2 <= x <= 21 && maze@[cell_index(x, y)] == Cell::Empty,
        decreases SAMPLE_ATTEMPTS - attempts,
    {
        let c = rand_range(2, MAZE_WIDTH - 2);
        if adjacent_is(Cell::Wall, c, row, maze) {
            let i = tile_index(c, row);
            let ghost prev = maze@;
            maze.set(i, Cell::Empty);
            proof {
                lemma_update_diff(prev, maze@, c as int, row as int, Cell::Empty);
            }
            removed = removed + 1;
        }
        attempts = attempts + 1;
    }
}

/// Obstacle pass over one corridor row: drop `target` bricks back in (or
/// stop early on budget), picking only columns whose horizontal neighbours
/// are both open; most of the new bricks are breakable cover.
fn seed_obstacles(maze: &mut Vec<Cell>, row: usize, target: usize)
    requires
        grid_sized(old(maze)@),
        1 <= row < MAZE_HEIGHT - 1,
    ensures
        grid_sized(final(maze)@),
        forall|x: int, y: int|
            in_grid(x, y) && final(maze)@[#[trigger] cell_index(x, y)] != old(maze)@[cell_index(x, y)]
                ==> y == row && 2 <= x <= 21 && (final(maze)@[cell_index(x, y)] == Cell::Wall
                || final(maze)@[cell_index(x, y)] == Cell::Breakable),
{
    let mut added: usize = 0;
    let mut attempts: usize = 0;
    while added < target && attempts < SAMPLE_ATTEMPTS
        invariant
            grid_sized(maze@),
            1 <= row < MAZE_HEIGHT - 1,
            forall|x: int, y: int|
                in_grid(x, y) && maze@[#[trigger] cell_index(x, y)] != old(maze)@[cell_index(
                    x,
                    y,
                )] ==> y == row && 2 <= x <= 21 && (maze@[cell_index(x, y)] == Cell::Wall
                    || maze@[cell_index(x, y)] == Cell::Breakable),
        decreases SAMPLE_ATTEMPTS - attempts,
    {
        let c = rand_range(2, MAZE_WIDTH - 2);
        if adjacent_is(Cell::Empty, c, row, maze) {
            let i = tile_index(c, row);
            let brick = if rand_range(0, 10) > 3 {
                Cell::Breakable
            } else {
                Cell::Wall
            };
            let ghost prev = maze@;
            maze.set(i, brick);
            proof {
                lemma_update_diff(prev, maze@, c as int, row as int, brick);
            }
            added = added + 1;
        }
        attempts = attempts + 1;
    }
}

/// One repair step of the connectivity sweep: if the tile at column `j`,
/// row `i` holds an `Empty` cell that cannot reach the start tile, its
/// first adjacent interior wall (looking down, up, right, left) opens.
pub open spec fn repaired_cell(m: Seq<Cell>, j: int, i: int) -> Seq<Cell> {
    if m[cell_index(j, i)] == Cell::Empty && !reaches_start(m, j, i) {
        if i + 1 <= MAZE_HEIGHT - 2 && m[cell_index(j, i + 1)] == Cell::Wall {
            m.update(cell_index(j, i + 1), Cell::Empty)
        } else if i >= 2 && m[cell_index(j, i - 1)] == Cell::Wall {
            m.update(cell_index(j, i - 1), Cell::Empty)
        } else if j + 1 <= MAZE_WIDTH - 2 && m[cell_index(j + 1, i)] == Cell::Wall {
            m.update(cell_index(j + 1, i), Cell::Empty)
        } else if j >= 2 && m[cell_index(j - 1, i)] == Cell::Wall {
            m.update(cell_index(j - 1, i), Cell::Empty)
        } else {
            m
        }
    } else {
        m
    }
}

/// The repair sweep over the rest of row `i`, from column `j` on.
pub open spec fn repaired_row(m: Seq<Cell>, i: int, j: int) -> Seq<Cell>
    decreases MAZE_WIDTH - 1 - j,
{
    if j >= MAZE_WIDTH - 1 {
        m
    } else {
        repaired_row(repaired_cell(m, j, i), i, j + 1)
    }
}

/// The repair sweep over all interior rows from row `i` down, column by
/// column. Reachability is re-examined cell by cell on the evolving maze,
/// since earlier repairs change later cells' reachability.
pub open spec fn repaired_from(m: Seq<Cell>, i: int) -> Seq<Cell>
    decreases MAZE_HEIGHT - 1 - i,
{
    if i >= MAZE_HEIGHT - 1 {
        m
    } else {
        repaired_from(repaired_row(m, i, 1), i + 1)
    }
}

/// Connectivity repair: for every `Empty` cell that cannot reach the start
/// tile, open the first adjacent interior wall (looking down, up, right,
/// left), breaking the enclosure. Border walls are never touched. The pass
/// is deterministic: the result is exactly the sweep [`repaired_from`].
pub fn fix_enclosed_areas(maze: &mut Vec<Cell>)
    requires
        grid_sized(old(maze)@),
    ensures
        grid_sized(final(maze)@),
        final(maze)@ == repaired_from(old(maze)@, 1),
        forall|x: int, y: int|
            in_grid(x, y) && final(maze)@[#[trigger] cell_index(x, y)] != old(maze)@[cell_index(x, y)]
                ==> !is_border(x, y) && old(maze)@[cell_index(x, y)] == Cell::Wall
                && final(maze)@[cell_index(x, y)] == Cell::Empty,
{
    let mut i: usize = 1;
    while i < MAZE_HEIGHT - 1
        invariant
            grid_sized(old(maze)@),
            grid_sized(maze@),
            1 <= i <= MAZE_HEIGHT - 1,
            repaired_from(old(maze)@, 1) == repaired_from(maze@, i as int),
            forall|x: int, y: int|
                in_grid(x, y) && maze@[#[trigger] cell_index(x, y)] != old(maze)@[cell_index(
                    x,
                    y,
                )] ==> !is_border(x, y) && old(maze)@[cell_index(x, y)] == Cell::Wall
                    && maze@[cell_index(x, y)] == Cell::Empty,
        decreases MAZE_HEIGHT - 1 - i,
    {
        let mut j: usize = 1;
        proof {
            assert(repaired_from(maze@, i as int) == repaired_from(
                repaired_row(maze@, i as int, 1),
                i as int + 1,
            ));
        }
        while j < MAZE_WIDTH - 1
            invariant
                grid_sized(old(maze)@),
                grid_sized(maze@),
                1 <= i < MAZE_HEIGHT - 1,
                1 <= j <= MAZE_WIDTH - 1,
                repaired_from(old(maze)@, 1) == repaired_from(
                    repaired_row(maze@, i as int, j as int),
                    i as int + 1,
                ),
                forall|x: int, y: int|
                    in_grid(x, y) && maze@[#[trigger] cell_index(x, y)] != old(maze)@[cell_index(
                        x,
                        y,
                    )] ==> !is_border(x, y) && old(maze)@[cell_index(x, y)] == Cell::Wall
                        && maze@[cell_index(x, y)] == Cell::Empty,
            decreases MAZE_WIDTH - 1 - j,
        {
            let ghost before = maze@;
            let here = tile_index(j, i);
            if maze[here] == Cell::Empty && !is_reachable_from_start(maze, i, j) {
                let ghost prev = maze@;
                if i + 1 <= MAZE_HEIGHT - 2 && maze[tile_index(j, i + 1)] == Cell::Wall {
                    maze.set(tile_index(j, i + 1), Cell::Empty);
                    proof {
                        lemma_update_diff(prev, maze@, j as int, i + 1, Cell::Empty);
                    }
                } else if i >= 2 && maze[tile_index(j, i - 1)] == Cell::Wall {
                    maze.set(tile_index(j, i - 1), Cell::Empty);
                    proof {
                        lemma_update_diff(prev, maze@, j as int, i - 1, Cell::Empty);
                    }
                } else if j + 1 <= MAZE_WIDTH - 2 && maze[tile_index(j + 1, i)] == Cell::Wall {
                    maze.set(tile_index(j + 1, i), Cell::Empty);
                    proof {
                        lemma_update_diff(prev, maze@, j + 1, i as int, Cell::Empty);
                    }
                } else if j >= 2 && maze[tile_index(j - 1, i)] == Cell::Wall {
                    maze.set(tile_index(j - 1, i), Cell::Empty);
                    proof {
                        lemma_update_diff(prev, maze@, j - 1, i as int, Cell::Empty);
                    }
                }
            }
            proof {
                assert(maze@ == repaired_cell(before, j as int, i as int));
                assert(repaired_row(before, i as int, j as int) == repaired_row(
                    maze@,
                    i as int,
                    j as int + 1,
                ));
            }
            j = j + 1;
        }
        i = i + 1;
    }
}

/// Sprinkling pass: turn twice `num_removed_bricks` random interior walls
/// into breakable ones, so every round has destructible terrain.
pub fn add_breakable_walls(maze: &mut Vec<Cell>, num_removed_bricks: usize)
    requires
        grid_sized(old(maze)@),
        num_removed_bricks <= MAZE_WIDTH,
    ensures
        grid_sized(final(maze)@),
        forall|x: int, y: int|
            in_grid(x, y) && final(maze)@[#[trigger] cell_index(x, y)] != old(maze)@[cell_index(x, y)]
                ==> 2 <= x <= MAZE_WIDTH - 3 && 2 <= y <= MAZE_HEIGHT - 3 && old(maze)@[cell_index(
                x,
                y,
            )] == Cell::Wall && final(maze)@[cell_index(x, y)] == Cell::Breakable,
        // As long as the maze has any wall to convert, the round gets at
        // least one piece of destructible cover, whatever the random
        // sampling did.
        (num_removed_bricks > 0 && (exists|x: int, y: int|
            2 <= x <= MAZE_WIDTH - 3 && 2 <= y <= MAZE_HEIGHT - 3 && old(maze)@[
                #[trigger] cell_index(x, y)] == Cell::Wall)) ==> (exists|x: int, y: int|
            2 <= x <= MAZE_WIDTH - 3 && 2 <= y <= MAZE_HEIGHT - 3 && final(maze)@[
                #[trigger] cell_index(x, y)] == Cell::Breakable),
{
    let mut left_to_add = num_removed_bricks * 2;
    let mut attempts: usize = 0;
    let mut added_any = false;
    while left_to_add > 0 && attempts < SAMPLE_ATTEMPTS
        invariant
            grid_sized(maze@),
            forall|x: int, y: int|
                in_grid(x, y) && maze@[#[trigger] cell_index(x, y)] != old(maze)@[cell_index(
                    x,
                    y,
                )] ==> 2 <= x <= MAZE_WIDTH - 3 && 2 <= y <= MAZE_HEIGHT - 3 && old(maze)@[
                    cell_index(x, y)] == Cell::Wall && maze@[cell_index(x, y)] == Cell::Breakable,
            !added_any ==> maze@ == old(maze)@,
            added_any ==> exists|x: int, y: int|
                2 <= x <= MAZE_WIDTH - 3 && 2 <= y <= MAZE_HEIGHT - 3 && maze@[
                    #[trigger] cell_index(x, y)] == Cell::Breakable,
        decreases SAMPLE_ATTEMPTS - attempts,
    {
        let rand_row = rand_range(2, MAZE_HEIGHT - 2);
        let rand_col = rand_range(2, MAZE_WIDTH - 2);
        let i = tile_index(rand_col, rand_row);
        if maze[i] == Cell::Wall {
            let ghost prev = maze@;
            maze.set(i, Cell::Breakable);
            proof {
                lemma_update_diff(prev, maze@, rand_col as int, rand_row as int, Cell::Breakable);
            }
            left_to_add = left_to_add - 1;
            added_any = true;
        }
        attempts = attempts + 1;
    }
    if num_removed_bricks > 0 && !added_any {
        // The sampling budget ran out without a single conversion: convert
        // the first interior wall deterministically, so a round never goes
        // without destructible cover while one is available.
        let mut y: usize = 2;
        while y < MAZE_HEIGHT - 2
            invariant
                grid_sized(maze@),
                maze@ == old(maze)@,
                2 <= y <= MAZE_HEIGHT - 2,
                forall|xx: int, yy: int|
                    2 <= xx <= MAZE_WIDTH - 3 && 2 <= yy < y ==> maze@[
                        #[trigger] cell_index(xx, yy)] != Cell::Wall,
            decreases MAZE_HEIGHT - 2 - y,
        {
            let mut x: usize = 2;
            while x < MAZE_WIDTH - 2
                invariant
                    grid_sized(maze@),
                    maze@ == old(maze)@,
                    2 <= y < MAZE_HEIGHT - 2,
                    2 <= x <= MAZE_WIDTH - 2,
                    forall|xx: int, yy: int|
                        2 <= xx <= MAZE_WIDTH - 3 && 2 <= yy < y ==> maze@[
                            #[trigger] cell_index(xx, yy)] != Cell::Wall,
                    forall|xx: int|
                        2 <= xx < x ==> maze@[#[trigger] cell_index(xx, y as int)] != Cell::Wall,
                decreases MAZE_WIDTH - 2 - x,
            {
                let i = tile_index(x, y);
                if maze[i] == Cell::Wall {
                    let ghost prev = maze@;
                    maze.set(i, Cell::Breakable);
                    proof {
                        lemma_update_diff(prev, maze@, x as int, y as int, Cell::Breakable);
                    }
                    return ;
                }
                x = x + 1;
            }
            y = y + 1;
        }
    }
}

/// Cell of the fallback arena: walls on the border, open everywhere else.
pub open spec fn open_cell(x: int, y: int) -> Cell {
    if is_border(x, y) {
        Cell::Wall
    } else {
        Cell::Empty
    }
}

/// The fallback arena: a bare bordered field, connected by construction.
fn open_arena() -> (m: Vec<Cell>)
    ensures
        grid_sized(m@),
        forall|x: int, y: int| in_grid(x, y) ==> m@[cell_index(x, y)] == open_cell(x, y),
{
    let mut m: Vec<Cell> = Vec::new();
    let mut y: usize = 0;
    while y < MAZE_HEIGHT
        invariant
            y <= MAZE_HEIGHT,
            m@.len() == y * MAZE_WIDTH,
            forall|xx: int, yy: int|
                0 <= xx < MAZE_WIDTH && 0 <= yy < y ==> m@[cell_index(xx, yy)] == open_cell(
                    xx,
                    yy,
                ),
        decreases MAZE_HEIGHT - y,
    {
        let mut x: usize = 0;
        while x < MAZE_WIDTH
            invariant
                y < MAZE_HEIGHT,
                x <= MAZE_WIDTH,
                m@.len() == y * MAZE_WIDTH + x,
                forall|xx: int, yy: int|
                    0 <= xx < MAZE_WIDTH && 0 <= yy < y ==> m@[cell_index(xx, yy)] == open_cell(
                        xx,
                        yy,
                    ),
                forall|xx: int|
                    0 <= xx < x ==> m@[cell_index(xx, y as int)] == open_cell(xx, y as int),
            decreases MAZE_WIDTH - x,
        {
            if x == 0 || y == 0 || x == MAZE_WIDTH - 1 || y == MAZE_HEIGHT - 1 {
                m.push(Cell::Wall);
            } else {
                m.push(Cell::Empty);
            }
            x = x + 1;
        }
        y = y + 1;
    }
    m
}

/// Staircase walk from an interior tile to the start tile: straight up the
/// tile's column, then left along row 1.
spec fn arena_walk(x: int, y: int) -> Seq<(int, int)>
    decreases x + y when 1 <= x && 1 <= y
{
    if y > 1 {
        seq![(x, y)] + arena_walk(x, y - 1)
    } else if x > 1 {
        seq![(x, 1int)] + arena_walk(x - 1, 1)
    } else {
        seq![(1int, 1int)]
    }
}

/// In a maze whose interior is fully open, the staircase walk from any
/// interior tile is a walk to the start tile.
proof fn lemma_arena_walk(m: Seq<Cell>, x: int, y: int)
    requires
        grid_sized(m),
        forall|xx: int, yy: int|
            in_grid(xx, yy) && !is_border(xx, yy) ==> m[#[trigger] cell_index(xx, yy)]
                == Cell::Empty,
        1 <= x <= MAZE_WIDTH - 2,
        1 <= y <= MAZE_HEIGHT - 2,
    ensures
        is_walk(m, arena_walk(x, y)),
        arena_walk(x, y).first() == (x, y),
        arena_walk(x, y).last() == (1int, 1int),
    decreases x + y,
{
    if y > 1 {
        lemma_arena_walk(m, x, y - 1);
        let q = arena_walk(x, y - 1);
        let p = arena_walk(x, y);
        assert(p == seq![(x, y)] + q);
        assert(p.len() == 1 + q.len());
        assert(p[0] == (x, y));
        assert(forall|i: int| 1 <= i < p.len() ==> p[i] == q[i - 1]);
        assert forall|i: int| 0 <= i < p.len() implies in_grid((#[trigger] p[i]).0, p[i].1) by {
            if i >= 1 {
                assert(p[i] == q[i - 1]);
            }
        }
        assert forall|i: int|
            1 <= i < p.len() implies m[cell_index((#[trigger] p[i]).0, p[i].1)] == Cell::Empty by {
            if i == 1 {
                assert(p[1] == q[0] && q[0] == (x, y - 1));
                assert(!is_border(x, y - 1));
            } else {
                assert(p[i] == q[i - 1]);
            }
        }
        assert forall|i: int| 0 <= i < p.len() - 1 implies adjacent(#[trigger] p[i], p[i + 1]) by {
            if i == 0 {
                assert(p[0] == (x, y) && p[1] == q[0] && q[0] == (x, y - 1));
            } else {
                assert(p[i] == q[i - 1] && p[i + 1] == q[i]);
            }
        }
        assert(p.last() == q.last());
    } else if x > 1 {
        lemma_arena_walk(m, x - 1, 1);
        let q = arena_walk(x - 1, 1);
        let p = arena_walk(x, y);
        assert(p == seq![(x, 1int)] + q);
        assert(p.len() == 1 + q.len());
        assert(p[0] == (x, 1int));
        assert(forall|i: int| 1 <= i < p.len() ==> p[i] == q[i - 1]);
        assert forall|i: int| 0 <= i < p.len() implies in_grid((#[trigger] p[i]).0, p[i].1) by {
            if i >= 1 {
                assert(p[i] == q[i - 1]);
            }
        }
        assert forall|i: int|
            1 <= i < p.len() implies m[cell_index((#[trigger] p[i]).0, p[i].1)] == Cell::Empty by {
            if i == 1 {
                assert(p[1] == q[0] && q[0] == (x - 1, 1int));
                assert(!is_border(x - 1, 1));
            } else {
                assert(p[i] == q[i - 1]);
            }
        }
        assert forall|i: int| 0 <= i < p.len() - 1 implies adjacent(#[trigger] p[i], p[i + 1]) by {
            if i == 0 {
                assert(p[0] == (x, 1int) && p[1] == q[0] && q[0] == (x - 1, 1int));
            } else {
                assert(p[i] == q[i - 1] && p[i + 1] == q[i]);
            }
        }
        assert(p.last() == q.last());
    } else {
        let p = arena_walk(1, 1);
        assert(p == seq![(1int, 1int)]);
        assert(in_grid(1, 1));
    }
}

/// The open arena is connected: every `Empty` cell reaches the start tile.
proof fn lemma_open_arena_connected(m: Seq<Cell>)
    requires
        grid_sized(m),
        forall|x: int, y: int| in_grid(x, y) ==> m[#[trigger] cell_index(x, y)] == open_cell(x, y),
    ensures
        border_walls(m),
        connected(m),
{
    assert forall|x: int, y: int|
        in_grid(x, y) && m[#[trigger] cell_index(x, y)] == Cell::Empty implies reaches_start(
        m,
        x,
        y,
    ) by {
        assert(!is_border(x, y));
        lemma_arena_walk(m, x, y);
        let p = arena_walk(x, y);
        assert(is_walk(m, p) && p.first() == (x, y) && p.last() == (1int, 1int));
    }
}

/// One generation attempt: erode the template's bands, re-seed obstacles,
/// repair enclosures, and sprinkle breakable cover.
fn build_candidate(num_removed_bricks: usize) -> (m: Vec<Cell>)
    requires
        num_removed_bricks <= MAZE_WIDTH,
    ensures
        grid_sized(m@),
        border_walls(m@),
        no_occupied_cells(m@),
        m@[cell_index(1, 1)] == Cell::Empty,
{
    let mut m = generic_maze();
    proof {
        assert(in_grid(1, 1) && m@[cell_index(1, 1)] == template_cell(1, 1));
    }

    let mut row: usize = 2;
    while row < 11
        invariant
            grid_sized(m@),
            border_walls(m@),
            2 <= row <= 12,
            no_occupied_cells(m@),
            m@[cell_index(1, 1)] == Cell::Empty,
        decreases 12 - row,
    {
        erode_band(&mut m, row, num_removed_bricks);
        row = row + 2;
    }
    let mut row2: usize = 13;
    while row2 < MAZE_HEIGHT - 2
        invariant
            grid_sized(m@),
            border_walls(m@),
            13 <= row2 <= 23,
            no_occupied_cells(m@),
            m@[cell_index(1, 1)] == Cell::Empty,
        decreases 23 - row2,
    {
        erode_band(&mut m, row2, num_removed_bricks);
        row2 = row2 + 2;
    }

    let obstacle_target = (MAZE_WIDTH + num_removed_bricks) / 8;
    let mut row3: usize = 3;
    while row3 < 11
        invariant
            grid_sized(m@),
            border_walls(m@),
            3 <= row3 <= 12,
            no_occupied_cells(m@),
            m@[cell_index(1, 1)] == Cell::Empty,
        decreases 12 - row3,
    {
        seed_obstacles(&mut m, row3, obstacle_target);
        row3 = row3 + 2;
    }
    let mut row4: usize = 12;
    while row4 < MAZE_HEIGHT - 3
        invariant
            grid_sized(m@),
            border_walls(m@),
            12 <= row4 <= 22,
            no_occupied_cells(m@),
            m@[cell_index(1, 1)] == Cell::Empty,
        decreases 22 - row4,
    {
        seed_obstacles(&mut m, row4, obstacle_target);
        row4 = row4 + 2;
    }

    fix_enclosed_areas(&mut m);
    add_breakable_walls(&mut m, num_removed_bricks);
    m
}

/// Generate a maze of the given dimensions and difficulty. The result is
/// guaranteed to have a solid wall border and a fully connected `Empty`
/// region: candidates are re-generated until they pass the connectivity
/// check, and a bare arena, connected by construction, stands in after
/// `GENERATION_RETRIES` failed attempts.
pub fn generate_maze(width: usize, height: usize, num_removed_bricks: usize) -> (m: Vec<Cell>)
    requires
        width == MAZE_WIDTH,
        height == MAZE_HEIGHT,
        num_removed_bricks <= MAZE_WIDTH,
    ensures
        grid_sized(m@),
        border_walls(m@),
        connected(m@),
        no_occupied_cells(m@),
        m@[cell_index(1, 1)] == Cell::Empty,
{
    let mut tries: usize = 0;
    while tries < GENERATION_RETRIES
        invariant
            num_removed_bricks <= MAZE_WIDTH,
        decreases GENERATION_RETRIES - tries,
    {
        let candidate = build_candidate(num_removed_bricks);
        if is_connected(&candidate) {
            return candidate;
        }
        tries = tries + 1;
    }
    let m = open_arena();
    proof {
        lemma_open_arena_connected(m@);
        assert(in_grid(1, 1) && m@[cell_index(1, 1)] == open_cell(1, 1));
        assert forall|x: int, y: int| in_grid(x, y) implies m@[#[trigger] cell_index(x, y)]
            != Cell::Occupied by {
            assert(m@[cell_index(x, y)] == open_cell(x, y));
        }
    }
    m
}

/// Pick the maze of a new round. The erosion count falls as the round
/// number (the difficulty level) rises, grows with the number of connected
/// players so that fuller lobbies get more open ground, and is floored at
/// one removal so the formula can never run dry.
pub fn select_maze(level: usize, num_players: usize) -> (m: Vec<Cell>)
    ensures
        grid_sized(m@),
        border_walls(m@),
        connected(m@),
        no_occupied_cells(m@),
        m@[cell_index(1, 1)] == Cell::Empty,
{
    let players = if num_players > 8 {
        8
    } else {
        num_players
    };
    let base = MAZE_WIDTH / 5 + players;
    let num_removed_bricks = if base > level {
        base - level
    } else {
        1
    };
    generate_maze(MAZE_WIDTH, MAZE_HEIGHT, num_removed_bricks)
}

} // verus!
