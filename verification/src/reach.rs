//! Reachability of maze tiles through `Empty` cells.
//!
//! A maze is well generated only if every `Empty` cell can be walked to the
//! start tile (1, 1) through `Empty` cells, stepping one tile up, down, left
//! or right at a time. This module defines that notion as a specification
//! over explicit walks, and verifies a breadth-first search that decides it.

use vstd::prelude::*;
use crate::cell::Cell;
use crate::grid::{in_grid, cell_index, grid_sized, tile_index, lemma_cell_index_injective};
use crate::MAZE_WIDTH;
use crate::MAZE_HEIGHT;
use crate::MAZE_CELLS;

verus! {

/// Two tiles are 4-directionally adjacent.
pub open spec fn adjacent(a: (int, int), b: (int, int)) -> bool {
    ||| (a.0 == b.0 && (a.1 == b.1 + 1 || a.1 + 1 == b.1))
    ||| (a.1 == b.1 && (a.0 == b.0 + 1 || a.0 + 1 == b.0))
}

/// `p` is a walk across the grid: it stays in bounds, consecutive tiles are
/// adjacent, and every tile after the first holds an `Empty` cell. (The
/// first tile is exempt so that a walk can start from a player's own,
/// occupied, tile.)
pub open spec fn is_walk(m: Seq<Cell>, p: Seq<(int, int)>) -> bool {
    &&& p.len() >= 1
    &&& forall|i: int| 0 <= i < p.len() ==> in_grid((#[trigger] p[i]).0, p[i].1)
    &&& forall|i: int|
        1 <= i < p.len() ==> m[cell_index((#[trigger] p[i]).0, p[i].1)] == Cell::Empty
    &&& forall|i: int| 0 <= i < p.len() - 1 ==> adjacent(#[trigger] p[i], p[i + 1])
}

/// Some walk leads from tile `s` to tile `t`.
pub open spec fn walk_between(m: Seq<Cell>, s: (int, int), t: (int, int)) -> bool {
    exists|p: Seq<(int, int)>| is_walk(m, p) && p.first() == s && p.last() == t
}

/// From the tile at column `x`, row `y`, the start tile (1, 1) can be
/// reached through `Empty` cells.
pub open spec fn reaches_start(m: Seq<Cell>, x: int, y: int) -> bool {
    walk_between(m, (x, y), (1int, 1int))
}

/// Every `Empty` cell of the maze can reach the start tile.
pub open spec fn connected(m: Seq<Cell>) -> bool {
    forall|x: int, y: int|
        in_grid(x, y) && m[#[trigger] cell_index(x, y)] == Cell::Empty ==> reaches_start(m, x, y)
}

/// A one-tile walk connects every in-bounds tile to itself.
pub proof fn lemma_walk_trivial(m: Seq<Cell>, s: (int, int))
    requires
        in_grid(s.0, s.1),
    ensures
        walk_between(m, s, s),
{
    let p = seq![s];
    assert(is_walk(m, p));
    assert(p.first() == s && p.last() == s);
}

/// A walk extends by one step onto an adjacent `Empty` tile.
pub proof fn lemma_walk_extend(m: Seq<Cell>, s: (int, int), t: (int, int), u: (int, int))
    requires
        walk_between(m, s, t),
        adjacent(t, u),
        in_grid(u.0, u.1),
        m[cell_index(u.0, u.1)] == Cell::Empty,
    ensures
        walk_between(m, s, u),
{
    let p = choose|p: Seq<(int, int)>| is_walk(m, p) && p.first() == s && p.last() == t;
    let q = p.push(u);
    assert forall|i: int| 0 <= i < q.len() implies in_grid((#[trigger] q[i]).0, q[i].1) by {
        if i < p.len() {
            assert(q[i] == p[i]);
        }
    }
    assert forall|i: int|
        1 <= i < q.len() implies m[cell_index((#[trigger] q[i]).0, q[i].1)] == Cell::Empty by {
        if i < p.len() {
            assert(q[i] == p[i]);
        }
    }
    assert forall|i: int| 0 <= i < q.len() - 1 implies adjacent(#[trigger] q[i], q[i + 1]) by {
        if i < p.len() - 1 {
            assert(q[i] == p[i] && q[i + 1] == p[i + 1]);
        } else {
            assert(q[i] == p.last() && q[i + 1] == u);
        }
    }
    assert(is_walk(m, q) && q.first() == s && q.last() == u);
}

/// The set of visited tiles is closed under stepping onto an adjacent
/// `Empty` tile.
pub open spec fn visited_closed(m: Seq<Cell>, v: Seq<bool>) -> bool {
    forall|ax: int, ay: int, bx: int, by: int|
        in_grid(ax, ay) && in_grid(bx, by) && v[cell_index(ax, ay)] && #[trigger] adjacent(
            (ax, ay),
            (bx, by),
        ) && m[cell_index(bx, by)] == Cell::Empty && !v[cell_index(bx, by)] ==> false
}

/// A walk cannot leave a closed visited set: if its first tile is visited,
/// so is its last.
pub proof fn lemma_closed_walk_visited(m: Seq<Cell>, v: Seq<bool>, p: Seq<(int, int)>)
    requires
        grid_sized(m),
        v.len() == MAZE_CELLS,
        is_walk(m, p),
        v[cell_index(p.first().0, p.first().1)],
        visited_closed(m, v),
    ensures
        v[cell_index(p.last().0, p.last().1)],
    decreases p.len(),
{
    if p.len() > 1 {
        let q = p.drop_last();
        assert(q.len() >= 1);
        assert forall|i: int| 0 <= i < q.len() implies in_grid((#[trigger] q[i]).0, q[i].1) by {
            assert(q[i] == p[i]);
        }
        assert forall|i: int|
            1 <= i < q.len() implies m[cell_index((#[trigger] q[i]).0, q[i].1)] == Cell::Empty by {
            assert(q[i] == p[i]);
        }
        assert forall|i: int| 0 <= i < q.len() - 1 implies adjacent(#[trigger] q[i], q[i + 1]) by {
            assert(q[i] == p[i] && q[i + 1] == p[i + 1]);
        }
        assert(q.first() == p.first());
        lemma_closed_walk_visited(m, v, q);
        let a = q.last();
        let b = p.last();
        assert(a == p[p.len() - 2] && adjacent(a, b));
        assert(m[cell_index(b.0, b.1)] == Cell::Empty);
        assert(v[cell_index(a.0, a.1)]);
        assert(v[cell_index(b.0, b.1)]);
    }
}

/// Number of `true` entries of a boolean sequence.
spec fn count_true(s: Seq<bool>) -> nat
    decreases s.len(),
{
    if s.len() == 0 {
        0
    } else {
        (if s.last() {
            1nat
        } else {
            0nat
        }) + count_true(s.drop_last())
    }
}

proof fn lemma_count_true_bound(s: Seq<bool>)
    ensures
        count_true(s) <= s.len(),
    decreases s.len(),
{
    if s.len() > 0 {
        lemma_count_true_bound(s.drop_last());
    }
}

proof fn lemma_count_true_all_false(s: Seq<bool>)
    requires
        forall|i: int| 0 <= i < s.len() ==> !s[i],
    ensures
        count_true(s) == 0,
    decreases s.len(),
{
    if s.len() > 0 {
        lemma_count_true_all_false(s.drop_last());
    }
}

proof fn lemma_count_true_set(s: Seq<bool>, i: int)
    requires
        0 <= i < s.len(),
        !s[i],
    ensures
        count_true(s.update(i, true)) == count_true(s) + 1,
    decreases s.len(),
{
    let t = s.update(i, true);
    if i == s.len() - 1 {
        assert(t.drop_last() =~= s.drop_last());
        assert(t.last());
    } else {
        assert(t.drop_last() =~= s.drop_last().update(i, true));
        assert(t.last() == s.last());
        lemma_count_true_set(s.drop_last(), i);
    }
}

/// Tile `a` still waits in the unprocessed tail of the search queue.
spec fn in_frontier(q: Seq<(usize, usize)>, head: int, a: (int, int)) -> bool {
    exists|k: int| head <= k < q.len() && ((#[trigger] q[k]).0 as int, q[k].1 as int) == a
}

/// Any visited tile with an unvisited `Empty` neighbour still waits in the
/// unprocessed tail of the queue.
spec fn frontier_inv(m: Seq<Cell>, v: Seq<bool>, q: Seq<(usize, usize)>, head: int) -> bool {
    forall|ax: int, ay: int, bx: int, by: int|
        in_grid(ax, ay) && in_grid(bx, by) && v[cell_index(ax, ay)] && #[trigger] adjacent(
            (ax, ay),
            (bx, by),
        ) && m[cell_index(bx, by)] == Cell::Empty && !v[cell_index(bx, by)] ==> in_frontier(
            q,
            head,
            (ax, ay),
        )
}

/// Mark and enqueue the neighbour tile (nx, ny) of the just-processed tile
/// `a` if it holds an unvisited `Empty` cell.
fn try_visit(
    maze: &Vec<Cell>,
    visited: &mut Vec<bool>,
    queue: &mut Vec<(usize, usize)>,
    nx: usize,
    ny: usize,
    s: Ghost<(int, int)>,
    a: Ghost<(int, int)>,
)
    requires
        grid_sized(maze@),
        old(visited)@.len() == MAZE_CELLS,
        nx < MAZE_WIDTH,
        ny < MAZE_HEIGHT,
        old(queue)@.len() == count_true(old(visited)@),
        adjacent(a@, (nx as int, ny as int)),
        walk_between(maze@, s@, a@),
        forall|k: int|
            0 <= k < old(queue)@.len() ==> in_grid(
                (#[trigger] old(queue)@[k]).0 as int,
                old(queue)@[k].1 as int,
            ) && walk_between(maze@, s@, (old(queue)@[k].0 as int, old(queue)@[k].1 as int)),
    ensures
        final(visited)@.len() == MAZE_CELLS,
        final(queue)@.len() == count_true(final(visited)@),
        forall|i: int|
            0 <= i < MAZE_CELLS ==> final(visited)@[i] == (old(visited)@[i] || (i == cell_index(
                nx as int,
                ny as int,
            ) && maze@[cell_index(nx as int, ny as int)] == Cell::Empty)),
        (old(visited)@[cell_index(nx as int, ny as int)] || maze@[cell_index(nx as int, ny as int)]
            != Cell::Empty) ==> final(queue)@ == old(queue)@,
        (!old(visited)@[cell_index(nx as int, ny as int)] && maze@[cell_index(
            nx as int,
            ny as int,
        )] == Cell::Empty) ==> final(queue)@ == old(queue)@.push((nx, ny)),
        forall|k: int|
            0 <= k < final(queue)@.len() ==> in_grid(
                (#[trigger] final(queue)@[k]).0 as int,
                final(queue)@[k].1 as int,
            ) && walk_between(maze@, s@, (final(queue)@[k].0 as int, final(queue)@[k].1 as int)),
{
    let i = tile_index(nx, ny);
    if maze[i] == Cell::Empty && !visited[i] {
        proof {
            lemma_count_true_set(visited@, i as int);
            lemma_walk_extend(maze@, s@, a@, (nx as int, ny as int));
        }
        visited.set(i, true);
        queue.push((nx, ny));
    }
}

/// Breadth-first search over `Empty` cells: can the start tile (1, 1) be
/// reached from the tile at row `start_row`, column `start_col`?
#[verifier::rlimit(100)]
pub fn is_reachable_from_start(maze: &Vec<Cell>, start_row: usize, start_col: usize) -> (r: bool)
    requires
        grid_sized(maze@),
        start_row < MAZE_HEIGHT,
        start_col < MAZE_WIDTH,
    ensures
        r == reaches_start(maze@, start_col as int, start_row as int),
{
    let ghost s: (int, int) = (start_col as int, start_row as int);
    let mut visited: Vec<bool> = Vec::new();
    let mut n: usize = 0;
    while n < MAZE_CELLS
        invariant
            visited@.len() == n,
            n <= MAZE_CELLS,
            forall|i: int| 0 <= i < n ==> !visited@[i],
        decreases MAZE_CELLS - n,
    {
        visited.push(false);
        n = n + 1;
    }
    proof {
        lemma_count_true_all_false(visited@);
    }

    let mut queue: Vec<(usize, usize)> = Vec::new();
    let mut head: usize = 0;

    let si = tile_index(start_col, start_row);
    proof {
        lemma_count_true_set(visited@, si as int);
        lemma_walk_trivial(maze@, s);
    }
    visited.set(si, true);
    queue.push((start_col, start_row));

    proof {
        // Only the start tile is visited, and it waits at the queue's head.
        assert(queue@[0] == (start_col, start_row));
        assert forall|ax: int, ay: int, bx: int, by: int|
            in_grid(ax, ay) && in_grid(bx, by) && visited@[cell_index(ax, ay)]
                && #[trigger] adjacent((ax, ay), (bx, by)) && maze@[cell_index(bx, by)]
                == Cell::Empty && !visited@[cell_index(bx, by)] implies in_frontier(
            queue@,
            0,
            (ax, ay),
        ) by {
            lemma_cell_index_injective(ax, ay, s.0, s.1);
            assert(((#[trigger] queue@[0]).0 as int, queue@[0].1 as int) == (ax, ay));
        }
        assert(visited@[cell_index(1, 1)] ==> in_frontier(queue@, 0, (1int, 1int))) by {
            if visited@[cell_index(1, 1)] {
                assert(in_grid(1, 1));
                lemma_cell_index_injective(1, 1, s.0, s.1);
                assert(((#[trigger] queue@[0]).0 as int, queue@[0].1 as int) == (1int, 1int));
            }
        }
    }

    while head < queue.len()
        invariant
            grid_sized(maze@),
            s == (start_col as int, start_row as int),
            in_grid(s.0, s.1),
            head <= queue@.len(),
            queue@.len() == count_true(visited@),
            visited@.len() == MAZE_CELLS,
            visited@[cell_index(s.0, s.1)],
            forall|k: int|
                0 <= k < queue@.len() ==> in_grid(
                    (#[trigger] queue@[k]).0 as int,
                    queue@[k].1 as int,
                ) && walk_between(maze@, s, (queue@[k].0 as int, queue@[k].1 as int)),
            frontier_inv(maze@, visited@, queue@, head as int),
            visited@[cell_index(1, 1)] ==> in_frontier(queue@, head as int, (1int, 1int)),
        decreases MAZE_CELLS - head,
    {
        proof {
            lemma_count_true_bound(visited@);
        }
        let pair = queue[head];
        let cx = pair.0;
        let cy = pair.1;
        let ghost a: (int, int) = (cx as int, cy as int);
        head = head + 1;
        if cx == 1 && cy == 1 {
            proof {
                assert(queue@[head as int - 1] == pair);
                assert(walk_between(maze@, s, (pair.0 as int, pair.1 as int)));
                assert((pair.0 as int, pair.1 as int) == (1int, 1int));
            }
            return true;
        }
        let ghost v0 = visited@;
        let ghost q0 = queue@;

        if cx + 1 < MAZE_WIDTH {
            try_visit(maze, &mut visited, &mut queue, cx + 1, cy, Ghost(s), Ghost(a));
        }
        let ghost v1 = visited@;
        let ghost q1 = queue@;
        if cx >= 1 {
            try_visit(maze, &mut visited, &mut queue, cx - 1, cy, Ghost(s), Ghost(a));
        }
        let ghost v2 = visited@;
        let ghost q2 = queue@;
        if cy + 1 < MAZE_HEIGHT {
            try_visit(maze, &mut visited, &mut queue, cx, cy + 1, Ghost(s), Ghost(a));
        }
        let ghost v3 = visited@;
        let ghost q3 = queue@;
        if cy >= 1 {
            try_visit(maze, &mut visited, &mut queue, cx, cy - 1, Ghost(s), Ghost(a));
        }

        proof {
            lemma_count_true_bound(visited@);
            // Visiting only adds tiles, and queue entries already present
            // are untouched.
            assert(forall|i: int| 0 <= i < MAZE_CELLS && v0[i] ==> visited@[i]);
            assert(forall|k: int| 0 <= k < q0.len() ==> queue@[k] == q0[k]);
            assert(q0[head - 1] == (cx, cy));
            // Every in-grid Empty neighbour of the popped tile is visited now.
            assert forall|bx: int, by: int|
                in_grid(bx, by) && adjacent(a, (bx, by)) && maze@[cell_index(bx, by)]
                    == Cell::Empty implies visited@[cell_index(bx, by)] by {
                if by == a.1 && bx == a.0 + 1 {
                    assert(v1[cell_index(bx, by)]);
                } else if by == a.1 && bx == a.0 - 1 {
                    assert(v2[cell_index(bx, by)]);
                } else if bx == a.0 && by == a.1 + 1 {
                    assert(v3[cell_index(bx, by)]);
                } else {
                    assert(bx == a.0 && by == a.1 - 1);
                    assert(visited@[cell_index(bx, by)]);
                }
            }
            assert(forall|k: int| 0 <= k < q1.len() ==> queue@[k] == q1[k]);
            assert(forall|k: int| 0 <= k < q2.len() ==> queue@[k] == q2[k]);
            assert(forall|k: int| 0 <= k < q3.len() ==> queue@[k] == q3[k]);
            assert(head <= q0.len() <= q1.len() <= q2.len() <= q3.len() <= queue@.len());
            // Any tile first visited in this iteration was pushed, so it sits
            // in the queue at an index at or past the old length.
            assert forall|tx: int, ty: int|
                #![trigger cell_index(tx, ty)]
                in_grid(tx, ty) && !v0[cell_index(tx, ty)] && visited@[cell_index(
                    tx,
                    ty,
                )] implies in_frontier(queue@, head as int, (tx, ty)) by {
                let c = cell_index(tx, ty);
                if v1[c] {
                    lemma_cell_index_injective(tx, ty, a.0 + 1, a.1);
                    let k = q0.len() as int;
                    assert(q1[k] == ((cx + 1) as usize, cy));
                    assert(head <= k < queue@.len() && ((#[trigger] queue@[k]).0 as int,
                    queue@[k].1 as int) == (tx, ty));
                } else if v2[c] {
                    lemma_cell_index_injective(tx, ty, a.0 - 1, a.1);
                    let k = q1.len() as int;
                    assert(q2[k] == ((cx - 1) as usize, cy));
                    assert(head <= k < queue@.len() && ((#[trigger] queue@[k]).0 as int,
                    queue@[k].1 as int) == (tx, ty));
                } else if v3[c] {
                    lemma_cell_index_injective(tx, ty, a.0, a.1 + 1);
                    let k = q2.len() as int;
                    assert(q3[k] == (cx, (cy + 1) as usize));
                    assert(head <= k < queue@.len() && ((#[trigger] queue@[k]).0 as int,
                    queue@[k].1 as int) == (tx, ty));
                } else {
                    lemma_cell_index_injective(tx, ty, a.0, a.1 - 1);
                    let k = q3.len() as int;
                    assert(queue@[k] == (cx, (cy - 1) as usize));
                    assert(head <= k < queue@.len() && ((#[trigger] queue@[k]).0 as int,
                    queue@[k].1 as int) == (tx, ty));
                }
            }
            // The frontier invariant survives the pop: the popped tile's
            // empty neighbours are all visited, and any other witness is
            // still queued.
            assert forall|ax: int, ay: int, bx: int, by: int|
                in_grid(ax, ay) && in_grid(bx, by) && visited@[cell_index(ax, ay)]
                    && #[trigger] adjacent((ax, ay), (bx, by)) && maze@[cell_index(bx, by)]
                    == Cell::Empty && !visited@[cell_index(bx, by)] implies in_frontier(
                queue@,
                head as int,
                (ax, ay),
            ) by {
                if v0[cell_index(ax, ay)] {
                    if ax == a.0 && ay == a.1 {
                        assert(visited@[cell_index(bx, by)]);
                    } else {
                        assert(!v0[cell_index(bx, by)]);
                        assert(in_frontier(q0, head as int - 1, (ax, ay)));
                        let k = choose|k: int|
                            head - 1 <= k < q0.len() && ((#[trigger] q0[k]).0 as int,
                            q0[k].1 as int) == (ax, ay);
                        assert(k != head - 1) by {
                            if k == head - 1 {
                                assert(q0[k] == pair);
                            }
                        }
                        assert(queue@[k] == q0[k]);
                        assert(in_frontier(queue@, head as int, (ax, ay)));
                    }
                }
            }
            // The start-tile tracking invariant survives: the popped tile is
            // not (1, 1), so an old witness is elsewhere in the queue.
            assert(visited@[cell_index(1, 1)] ==> in_frontier(queue@, head as int, (1int, 1int)))
                by {
                if visited@[cell_index(1, 1)] {
                    if v0[cell_index(1, 1)] {
                        assert(in_frontier(q0, head as int - 1, (1int, 1int)));
                        let k = choose|k: int|
                            head - 1 <= k < q0.len() && ((#[trigger] q0[k]).0 as int,
                            q0[k].1 as int) == (1int, 1int);
                        assert(k != head - 1);
                        assert(queue@[k] == q0[k]);
                        assert(((queue@[k]).0 as int, (queue@[k]).1 as int) == (1int, 1int));
                        assert(in_frontier(queue@, head as int, (1int, 1int)));
                    } else {
                        assert(in_grid(1, 1) && !v0[cell_index(1, 1)] && visited@[cell_index(
                            1,
                            1,
                        )]);
                        assert(in_frontier(queue@, head as int, (1int, 1int)));
                    }
                }
            }
        }
    }
    proof {
        // The queue is drained: the visited set is closed, and the start
        // tile (1, 1) was never visited, else its pop would have returned.
        assert forall|ax: int, ay: int, bx: int, by: int|
            in_grid(ax, ay) && in_grid(bx, by) && visited@[cell_index(ax, ay)]
                && #[trigger] adjacent((ax, ay), (bx, by)) && maze@[cell_index(bx, by)]
                == Cell::Empty && !visited@[cell_index(bx, by)] implies false by {
            assert(in_frontier(queue@, head as int, (ax, ay)));
        }
        assert(!visited@[cell_index(1, 1)]) by {
            if visited@[cell_index(1, 1)] {
                assert(in_frontier(queue@, head as int, (1int, 1int)));
            }
        }
        if reaches_start(maze@, s.0, s.1) {
            let p = choose|p: Seq<(int, int)>|
                is_walk(maze@, p) && p.first() == s && p.last() == (1int, 1int);
            lemma_closed_walk_visited(maze@, visited@, p);
        }
    }
    false
}

/// Decide whether every `Empty` cell of the maze can reach the start tile.
pub fn is_connected(maze: &Vec<Cell>) -> (r: bool)
    requires
        grid_sized(maze@),
    ensures
        r == connected(maze@),
{
    let mut y: usize = 0;
    while y < MAZE_HEIGHT
        invariant
            grid_sized(maze@),
            y <= MAZE_HEIGHT,
            forall|xx: int, yy: int|
                0 <= xx < MAZE_WIDTH && 0 <= yy < y && maze@[#[trigger] cell_index(xx, yy)]
                    == Cell::Empty ==> reaches_start(maze@, xx, yy),
        decreases MAZE_HEIGHT - y,
    {
        let mut x: usize = 0;
        while x < MAZE_WIDTH
            invariant
                grid_sized(maze@),
                y < MAZE_HEIGHT,
                x <= MAZE_WIDTH,
                forall|xx: int, yy: int|
                    0 <= xx < MAZE_WIDTH && 0 <= yy < y && maze@[#[trigger] cell_index(xx, yy)]
                        == Cell::Empty ==> reaches_start(maze@, xx, yy),
                forall|xx: int|
                    0 <= xx < x && maze@[#[trigger] cell_index(xx, y as int)] == Cell::Empty
                        ==> reaches_start(maze@, xx, y as int),
            decreases MAZE_WIDTH - x,
        {
            let i = tile_index(x, y);
            if maze[i] == Cell::Empty {
                if !is_reachable_from_start(maze, y, x) {
                    return false;
                }
            }
            x = x + 1;
        }
        y = y + 1;
    }
    true
}

} // verus!
