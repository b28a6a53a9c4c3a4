//! Players: movement, turning, and combat resolution on the maze grid.
//!
//! A player sits on one tile of the grid and faces one of the four cardinal
//! directions, counted in quarter turns; movement teleports one whole tile
//! at a time, and a shot marches tile by tile along the facing direction.
//! Each player carries at most one pending action, consumed (and always
//! cleared) by [`Player::input`].

use vstd::prelude::*;
use crate::cell::Cell;
use crate::grid::{in_grid, cell_index, grid_sized, tile_index};
use crate::MAZE_WIDTH;
use crate::MAZE_HEIGHT;
use crate::MAZE_CELLS;
use crate::SHOT_RANGE;

verus! {

/// A tile of the grid: column `x`, row `y`.
#[derive(Clone, Copy, PartialEq, Eq, Structural, Debug)]
pub struct Position {
    pub x: usize,
    pub y: usize,
}

impl Position {
    /// Position at column `x`, row `y`.
    pub fn new(x: usize, y: usize) -> (p: Self)
        ensures
            p.x == x && p.y == y,
    {
        Self { x, y }
    }
}

impl Default for Position {
    /// The unit step along the +x axis, the direction a newly spawned
    /// player (facing angle zero) looks along.
    fn default() -> (p: Self)
        ensures
            p.x == 1 && p.y == 0,
    {
        Self { x: 1, y: 0 }
    }
}

/// One discrete input a client can send; exactly one is carried per update
/// message. `Ping` is a keepalive that never changes the simulation.
#[derive(Clone, Copy, PartialEq, Eq, Structural, Debug)]
pub enum Action {
    TurnLeft,
    TurnRight,
    MoveForward,
    MoveBackward,
    StrafeLeft,
    StrafeRight,
    Shoot,
    Ping,
}

/// Horizontal component of the unit facing vector, by quarter turns:
/// facing 0 looks along +x, each right turn adds a quarter turn.
pub open spec fn dir_x(angle: u8) -> int {
    if angle == 0 {
        1
    } else if angle == 2 {
        -1
    } else {
        0
    }
}

/// Vertical component of the unit facing vector.
pub open spec fn dir_y(angle: u8) -> int {
    if angle == 1 {
        1
    } else if angle == 3 {
        -1
    } else {
        0
    }
}

/// Facing after a left turn: one quarter turn counterclockwise.
pub open spec fn turned_left(angle: u8) -> u8 {
    if angle == 0 {
        3
    } else {
        (angle - 1) as u8
    }
}

/// Facing after a right turn: one quarter turn clockwise.
pub open spec fn turned_right(angle: u8) -> u8 {
    if angle == 3 {
        0
    } else {
        (angle + 1) as u8
    }
}

/// A left turn followed by a right turn (or the other way round) restores
/// the original facing: the two turns cancel modulo a full circle.
pub proof fn lemma_turn_round_trip(angle: u8)
    requires
        angle < 4,
    ensures
        turned_right(turned_left(angle)) == angle,
        turned_left(turned_right(angle)) == angle,
{
}

/// Unit step of one movement action relative to the given facing: forward
/// follows the facing vector, backward negates it, and the strafes rotate
/// it a quarter turn.
pub open spec fn step_vector(a: Action, angle: u8) -> (int, int) {
    match a {
        Action::MoveForward => (dir_x(angle), dir_y(angle)),
        Action::MoveBackward => (-dir_x(angle), -dir_y(angle)),
        Action::StrafeRight => (-dir_y(angle), dir_x(angle)),
        Action::StrafeLeft => (dir_y(angle), -dir_x(angle)),
        _ => (0, 0),
    }
}

/// Grid ray-march of a shot: examine up to `left` tiles starting at (x, y),
/// stepping by (dx, dy); the first non-`Empty` tile stops the shot. `None`
/// when the shot leaves the grid or runs out of range.
pub open spec fn shot_scan(m: Seq<Cell>, x: int, y: int, dx: int, dy: int, left: nat) -> Option<
    (int, int),
>
    decreases left,
{
    if left == 0 {
        Option::None
    } else if !in_grid(x, y) {
        Option::None
    } else if m[cell_index(x, y)] != Cell::Empty {
        Option::Some((x, y))
    } else {
        shot_scan(m, x + dx, y + dy, dx, dy, (left - 1) as nat)
    }
}

/// A hit tile is in the grid and not `Empty`.
pub proof fn lemma_shot_scan_hit(m: Seq<Cell>, x: int, y: int, dx: int, dy: int, left: nat)
    requires
        shot_scan(m, x, y, dx, dy, left) is Some,
    ensures
        ({
            let c = shot_scan(m, x, y, dx, dy, left)->Some_0;
            in_grid(c.0, c.1) && m[cell_index(c.0, c.1)] != Cell::Empty
        }),
    decreases left,
{
    if left > 0 && in_grid(x, y) && m[cell_index(x, y)] == Cell::Empty {
        lemma_shot_scan_hit(m, x + dx, y + dy, dx, dy, (left - 1) as nat);
    }
}

/// Tile a shot fired by `p` lands on: the scan starts one tile ahead of the
/// shooter along its facing and runs `SHOT_RANGE` tiles.
pub open spec fn shot_hit(m: Seq<Cell>, p: Player) -> Option<(int, int)> {
    shot_scan(
        m,
        p.pos.x + dir_x(p.angle),
        p.pos.y + dir_y(p.angle),
        dir_x(p.angle),
        dir_y(p.angle),
        SHOT_RANGE as nat,
    )
}

/// One connected player of the authoritative simulation.
#[derive(Clone, Debug)]
pub struct Player {
    /// Sequential identity, assigned in join order.
    pub id: usize,
    /// Tile the player stands on.
    pub pos: Position,
    /// Facing, in quarter turns from the +x axis (always below 4).
    pub angle: u8,
    /// The single pending action, consumed at the next tick.
    pub action: Option<Action>,
    /// Display name.
    pub name: String,
    /// Kills scored in the current round.
    pub score: u32,
}

/// The same player with its pending action consumed.
pub open spec fn cleared(p: Player) -> Player {
    Player { action: Option::None, ..p }
}

/// The same player turned to a new facing, action consumed.
pub open spec fn after_turn(p: Player, angle: u8) -> Player {
    Player { angle, action: Option::None, ..p }
}

/// The same player moved to the tile at (x, y), action consumed.
pub open spec fn after_move(p: Player, x: int, y: int) -> Player {
    Player { pos: Position { x: x as usize, y: y as usize }, action: Option::None, ..p }
}

/// The movement target is inside the grid and currently `Empty`.
pub open spec fn can_move(m: Seq<Cell>, p: Player, dx: int, dy: int) -> bool {
    in_grid(p.pos.x + dx, p.pos.y + dy) && m[cell_index(p.pos.x + dx, p.pos.y + dy)] == Cell::Empty
}

/// The maze after a successful move: the origin tile opens and the target
/// tile is occupied.
pub open spec fn maze_after_move(m: Seq<Cell>, p: Player, dx: int, dy: int) -> Seq<Cell> {
    m.update(cell_index(p.pos.x as int, p.pos.y as int), Cell::Empty).update(
        cell_index(p.pos.x + dx, p.pos.y + dy),
        Cell::Occupied,
    )
}

impl Player {
    /// The player's tile is on the grid and its facing is a quarter turn.
    pub open spec fn wf(self) -> bool {
        self.pos.x < MAZE_WIDTH && self.pos.y < MAZE_HEIGHT && self.angle < 4
    }

    /// A freshly connected player: facing along +x, no pending action, no
    /// score.
    pub fn new(pos: Position, id: usize, name: String) -> (p: Self)
        ensures
            p.pos == pos && p.id == id && p.name == name,
            p.angle == 0 && p.action is None && p.score == 0,
    {
        Self { id, pos, angle: 0, action: None, name, score: 0 }
    }
}

/// Resolution of a pending `Shoot` action, as a function: a `Wall` (or
/// nothing in range) stops the shot without effect; a `Breakable` is
/// destroyed; an `Occupied` tile is destroyed and scores the shooter a
/// kill. The index of a destroyed tile is handed back so the victim can be
/// respawned.
pub open spec fn shot_step(p0: Player, m0: Seq<Cell>, mv0: bool) -> (Player, Seq<Cell>, bool, Option<usize>) {
    match shot_hit(m0, p0) {
        Option::None => (cleared(p0), m0, mv0, Option::None),
        Option::Some(c) => {
            let i = cell_index(c.0, c.1);
            if m0[i] == Cell::Wall {
                (cleared(p0), m0, mv0, Option::None)
            } else if m0[i] == Cell::Breakable {
                (cleared(p0), m0.update(i, Cell::Empty), true, Option::Some(i as usize))
            } else {
                (
                    Player { score: (p0.score + 1) as u32, action: Option::None, ..p0 },
                    m0.update(i, Cell::Empty),
                    true,
                    Option::Some(i as usize),
                )
            }
        },
    }
}

/// Resolution of one player's pending action, as a function of the player,
/// the maze and the moved flag: the player, maze and flag after it, and the
/// index of a tile a hit vacated. Resolution is deterministic; this
/// function is the whole of what [`Player::input`] does.
pub open spec fn resolve_step(p0: Player, m0: Seq<Cell>, mv0: bool) -> (Player, Seq<Cell>, bool, Option<usize>) {
    match p0.action {
        Option::None => (p0, m0, mv0, Option::None),
        Option::Some(a) => match a {
            Action::TurnLeft => (after_turn(p0, turned_left(p0.angle)), m0, true, Option::None),
            Action::TurnRight => (after_turn(p0, turned_right(p0.angle)), m0, true, Option::None),
            Action::Ping => (cleared(p0), m0, mv0, Option::None),
            Action::Shoot => shot_step(p0, m0, mv0),
            _ => {
                let (dx, dy) = step_vector(a, p0.angle);
                if can_move(m0, p0, dx, dy) {
                    (
                        after_move(p0, p0.pos.x + dx, p0.pos.y + dy),
                        maze_after_move(m0, p0, dx, dy),
                        true,
                        Option::None,
                    )
                } else {
                    (cleared(p0), m0, mv0, Option::None)
                }
            },
        },
    }
}

/// Everything [`Player::input`] promises: the player, maze, moved flag and
/// returned hit index after resolution (`p1`, `m1`, `mv1`, `hit`) are
/// exactly [`resolve_step`] of their values before it (`p0`, `m0`, `mv0`).
pub open spec fn resolve_post(
    p0: Player,
    m0: Seq<Cell>,
    mv0: bool,
    p1: Player,
    m1: Seq<Cell>,
    mv1: bool,
    hit: Option<usize>,
) -> bool {
    &&& p1 == resolve_step(p0, m0, mv0).0
    &&& m1 == resolve_step(p0, m0, mv0).1
    &&& mv1 == resolve_step(p0, m0, mv0).2
    &&& hit == resolve_step(p0, m0, mv0).3
}

/// Turning left and then right — with the second action queued after the
/// first resolved — returns a player's facing (and tile) to their original
/// values; the maze never changes under turns.
pub proof fn lemma_turns_cancel(
    p0: Player,
    m0: Seq<Cell>,
    mv0: bool,
    p1: Player,
    m1: Seq<Cell>,
    mv1: bool,
    h1: Option<usize>,
    p2: Player,
    m2: Seq<Cell>,
    mv2: bool,
    h2: Option<usize>,
)
    requires
        p0.wf(),
        p0.action == Option::Some(Action::TurnLeft),
        resolve_post(p0, m0, mv0, p1, m1, mv1, h1),
        resolve_post(
            Player { action: Option::Some(Action::TurnRight), ..p1 },
            m1,
            mv1,
            p2,
            m2,
            mv2,
            h2,
        ),
    ensures
        p2.angle == p0.angle,
        p2.pos == p0.pos,
        p2.score == p0.score,
        m2 == m0,
{
    lemma_turn_round_trip(p0.angle);
}

/// The shot scan stops exactly at the first blocking tile: if the `t - 1`
/// tiles ahead of (x, y) are `Empty` and in the grid, and the tile `t - 1`
/// steps further on (within budget) is not `Empty`, the scan lands there.
/// Here (x, y) is itself the first examined tile (offset 0).
pub proof fn lemma_shot_scan_hits_at(
    m: Seq<Cell>,
    x: int,
    y: int,
    dx: int,
    dy: int,
    left: nat,
    t: int,
)
    requires
        0 <= t < left,
        forall|j: int|
            0 <= j < t ==> in_grid(x + j * dx, y + j * dy) && m[#[trigger] cell_index(
                x + j * dx,
                y + j * dy,
            )] == Cell::Empty,
        in_grid(x + t * dx, y + t * dy),
        m[cell_index(x + t * dx, y + t * dy)] != Cell::Empty,
    ensures
        shot_scan(m, x, y, dx, dy, left) == Option::Some((x + t * dx, y + t * dy)),
    decreases t,
{
    if t == 0 {
        assert(x + 0 * dx == x && y + 0 * dy == y);
    } else {
        assert(x + 0 * dx == x && y + 0 * dy == y);
        assert(in_grid(x, y) && m[cell_index(x, y)] == Cell::Empty);
        assert forall|j: int|
            0 <= j < t - 1 implies in_grid(x + dx + j * dx, y + dy + j * dy) && m[
        #[trigger] cell_index(x + dx + j * dx, y + dy + j * dy)] == Cell::Empty by {
            assert(x + dx + j * dx == x + (j + 1) * dx) by (nonlinear_arith);
            assert(y + dy + j * dy == y + (j + 1) * dy) by (nonlinear_arith);
            assert(in_grid(x + (j + 1) * dx, y + (j + 1) * dy) && m[cell_index(
                x + (j + 1) * dx,
                y + (j + 1) * dy,
            )] == Cell::Empty);
        }
        assert(x + dx + (t - 1) * dx == x + t * dx) by (nonlinear_arith);
        assert(y + dy + (t - 1) * dy == y + t * dy) by (nonlinear_arith);
        lemma_shot_scan_hits_at(m, x + dx, y + dy, dx, dy, (left - 1) as nat, t - 1);
    }
}

/// Full resolution of a shot whose line of fire holds `t - 1` clear tiles
/// and then a blocking tile `t` tiles from the shooter, for any distance
/// within range: a `Wall` soaks the shot, a `Breakable` is destroyed
/// without scoring, and an `Occupied` tile is destroyed scoring the shooter
/// exactly one kill.
pub proof fn lemma_shot_resolution(
    p0: Player,
    m0: Seq<Cell>,
    mv0: bool,
    p1: Player,
    m1: Seq<Cell>,
    mv1: bool,
    hit: Option<usize>,
    t: int,
)
    requires
        p0.wf(),
        p0.score < u32::MAX,
        grid_sized(m0),
        p0.action == Option::Some(Action::Shoot),
        1 <= t <= SHOT_RANGE,
        forall|j: int|
            1 <= j < t ==> in_grid(
                p0.pos.x + j * dir_x(p0.angle),
                p0.pos.y + j * dir_y(p0.angle),
            ) && m0[#[trigger] cell_index(
                p0.pos.x + j * dir_x(p0.angle),
                p0.pos.y + j * dir_y(p0.angle),
            )] == Cell::Empty,
        in_grid(p0.pos.x + t * dir_x(p0.angle), p0.pos.y + t * dir_y(p0.angle)),
        m0[cell_index(p0.pos.x + t * dir_x(p0.angle), p0.pos.y + t * dir_y(p0.angle))]
            != Cell::Empty,
        resolve_post(p0, m0, mv0, p1, m1, mv1, hit),
    ensures
        ({
            let c = cell_index(
                p0.pos.x + t * dir_x(p0.angle),
                p0.pos.y + t * dir_y(p0.angle),
            );
            &&& (m0[c] == Cell::Wall ==> p1 == cleared(p0) && m1 == m0 && hit is None)
            &&& (m0[c] == Cell::Breakable ==> m1 == m0.update(c, Cell::Empty) && p1.score
                == p0.score && hit == Option::Some(c as usize) && mv1 && p1.pos == p0.pos)
            &&& (m0[c] == Cell::Occupied ==> m1 == m0.update(c, Cell::Empty) && p1.score
                == p0.score + 1 && hit == Option::Some(c as usize) && mv1 && p1.pos == p0.pos)
        }),
{
    let dx = dir_x(p0.angle);
    let dy = dir_y(p0.angle);
    let x1 = p0.pos.x + dx;
    let y1 = p0.pos.y + dy;
    assert forall|j: int|
        0 <= j < t - 1 implies in_grid(x1 + j * dx, y1 + j * dy) && m0[#[trigger] cell_index(
            x1 + j * dx,
            y1 + j * dy,
        )] == Cell::Empty by {
        assert(p0.pos.x + dx + j * dx == p0.pos.x + (j + 1) * dx) by (nonlinear_arith);
        assert(p0.pos.y + dy + j * dy == p0.pos.y + (j + 1) * dy) by (nonlinear_arith);
        assert(in_grid(p0.pos.x + (j + 1) * dx, p0.pos.y + (j + 1) * dy) && m0[cell_index(
            p0.pos.x + (j + 1) * dx,
            p0.pos.y + (j + 1) * dy,
        )] == Cell::Empty);
    }
    assert(p0.pos.x + dx + (t - 1) * dx == p0.pos.x + t * dx) by (nonlinear_arith);
    assert(p0.pos.y + dy + (t - 1) * dy == p0.pos.y + t * dy) by (nonlinear_arith);
    lemma_shot_scan_hits_at(m0, x1, y1, dx, dy, SHOT_RANGE as nat, t - 1);
    assert(shot_hit(m0, p0) == Option::Some((p0.pos.x + t * dx, p0.pos.y + t * dy)));
}

/// A shot at a `Breakable` cell two tiles ahead, the tile between clear:
/// the cover is destroyed (it becomes `Empty`) and the shooter's score is
/// unchanged.
pub proof fn lemma_shot_breaks_cover(
    p0: Player,
    m0: Seq<Cell>,
    mv0: bool,
    p1: Player,
    m1: Seq<Cell>,
    mv1: bool,
    hit: Option<usize>,
)
    requires
        p0.wf(),
        grid_sized(m0),
        p0.action == Option::Some(Action::Shoot),
        in_grid(p0.pos.x + dir_x(p0.angle), p0.pos.y + dir_y(p0.angle)),
        m0[cell_index(p0.pos.x + dir_x(p0.angle), p0.pos.y + dir_y(p0.angle))] == Cell::Empty,
        in_grid(p0.pos.x + 2 * dir_x(p0.angle), p0.pos.y + 2 * dir_y(p0.angle)),
        m0[cell_index(p0.pos.x + 2 * dir_x(p0.angle), p0.pos.y + 2 * dir_y(p0.angle))]
            == Cell::Breakable,
        resolve_post(p0, m0, mv0, p1, m1, mv1, hit),
    ensures
        ({
            let c = cell_index(
                p0.pos.x + 2 * dir_x(p0.angle),
                p0.pos.y + 2 * dir_y(p0.angle),
            );
            m1 == m0.update(c, Cell::Empty) && p1.score == p0.score && hit == Option::Some(
                c as usize,
            ) && mv1
        }),
{
    let dx = dir_x(p0.angle);
    let dy = dir_y(p0.angle);
    let x1 = p0.pos.x + dx;
    let y1 = p0.pos.y + dy;
    assert(x1 + dx == p0.pos.x + 2 * dx && y1 + dy == p0.pos.y + 2 * dy);
    assert(shot_scan(m0, x1 + dx, y1 + dy, dx, dy, (SHOT_RANGE - 1) as nat) == Option::Some(
        (x1 + dx, y1 + dy),
    ));
    assert(shot_hit(m0, p0) == Option::Some((p0.pos.x + 2 * dx, p0.pos.y + 2 * dy)));
}

/// A shot at an `Occupied` cell within range, the tiles between clear: the
/// victim's cell empties and the shooter scores exactly one kill.
pub proof fn lemma_shot_scores_kill(
    p0: Player,
    m0: Seq<Cell>,
    mv0: bool,
    p1: Player,
    m1: Seq<Cell>,
    mv1: bool,
    hit: Option<usize>,
    t: int,
)
    requires
        p0.wf(),
        p0.score < u32::MAX,
        grid_sized(m0),
        p0.action == Option::Some(Action::Shoot),
        1 <= t <= SHOT_RANGE,
        forall|j: int|
            1 <= j < t ==> in_grid(
                p0.pos.x + j * dir_x(p0.angle),
                p0.pos.y + j * dir_y(p0.angle),
            ) && m0[#[trigger] cell_index(
                p0.pos.x + j * dir_x(p0.angle),
                p0.pos.y + j * dir_y(p0.angle),
            )] == Cell::Empty,
        in_grid(p0.pos.x + t * dir_x(p0.angle), p0.pos.y + t * dir_y(p0.angle)),
        m0[cell_index(p0.pos.x + t * dir_x(p0.angle), p0.pos.y + t * dir_y(p0.angle))]
            == Cell::Occupied,
        resolve_post(p0, m0, mv0, p1, m1, mv1, hit),
    ensures
        ({
            let c = cell_index(
                p0.pos.x + t * dir_x(p0.angle),
                p0.pos.y + t * dir_y(p0.angle),
            );
            m1 == m0.update(c, Cell::Empty) && p1.score == p0.score + 1 && hit == Option::Some(
                c as usize,
            ) && mv1
        }),
{
    lemma_shot_resolution(p0, m0, mv0, p1, m1, mv1, hit, t);
}

/// Unit facing vector of a quarter-turn angle, as executable steps.
fn dir_step(angle: u8) -> (d: (i32, i32))
    requires
        angle < 4,
    ensures
        d.0 == dir_x(angle) && d.1 == dir_y(angle),
{
    if angle == 0 {
        (1, 0)
    } else if angle == 1 {
        (0, 1)
    } else if angle == 2 {
        (-1, 0)
    } else {
        (0, -1)
    }
}

/// Executable shot scan, marching at most `left` tiles from (x, y) in steps
/// of (dx, dy); returns the flat index of the first non-`Empty` tile met.
fn scan_shot(maze: &Vec<Cell>, x: i32, y: i32, dx: i32, dy: i32, left: usize) -> (r: Option<usize>)
    requires
        grid_sized(maze@),
        -100 <= x <= 100,
        -100 <= y <= 100,
        -1 <= dx <= 1,
        -1 <= dy <= 1,
        left <= SHOT_RANGE,
    ensures
        ({
            let scan = shot_scan(maze@, x as int, y as int, dx as int, dy as int, left as nat);
            match scan {
                Option::None => r is None,
                Option::Some(c) => r == Option::Some(cell_index(c.0, c.1) as usize) && r->Some_0
                    < MAZE_CELLS && maze@[r->Some_0 as int] != Cell::Empty,
            }
        }),
    decreases left,
{
    if left == 0 {
        None
    } else if x < 0 || x >= MAZE_WIDTH as i32 || y < 0 || y >= MAZE_HEIGHT as i32 {
        None
    } else {
        let i = tile_index(x as usize, y as usize);
        if maze[i] != Cell::Empty {
            Some(i)
        } else {
            scan_shot(maze, x + dx, y + dy, dx, dy, left - 1)
        }
    }
}

impl Player {
    /// Try to step this player by one whole tile: the move lands only on an
    /// `Empty` destination, swapping the origin and destination cell kinds;
    /// anything else cancels it silently.
    pub fn touching_wall(&mut self, dx: i32, dy: i32, maze: &mut Vec<Cell>, moved: &mut bool)
        requires
            old(self).wf(),
            grid_sized(old(maze)@),
            -1 <= dx <= 1,
            -1 <= dy <= 1,
        ensures
            final(self).wf(),
            grid_sized(final(maze)@),
            can_move(old(maze)@, *old(self), dx as int, dy as int) ==> *final(self) == after_move(
                *old(self),
                old(self).pos.x + dx,
                old(self).pos.y + dy,
            ) && final(maze)@ == maze_after_move(old(maze)@, *old(self), dx as int, dy as int)
                && *final(moved),
            !can_move(old(maze)@, *old(self), dx as int, dy as int) ==> *final(self) == *old(self)
                && final(maze)@ == old(maze)@ && *final(moved) == *old(moved),
    {
        let nx = self.pos.x as i32 + dx;
        let ny = self.pos.y as i32 + dy;
        if nx >= 0 && nx < MAZE_WIDTH as i32 && ny >= 0 && ny < MAZE_HEIGHT as i32 {
            let target = tile_index(nx as usize, ny as usize);
            if maze[target] == Cell::Empty {
                let origin = tile_index(self.pos.x, self.pos.y);
                maze.set(origin, Cell::Empty);
                maze.set(target, Cell::Occupied);
                self.pos = Position::new(nx as usize, ny as usize);
                self.action = None;
                *moved = true;
            }
        }
    }

    /// Consume this player's pending action against the shared maze,
    /// mutating both in place. Turns change only the facing; moves teleport
    /// one tile; a shot resolves per [`shot_step`]. `moved` is raised
    /// whenever anything broadcast-worthy happened (turns included), and
    /// the returned index names the tile a hit vacated. Permanent walls are
    /// never rewritten, as long as the player does not stand on one.
    pub fn input(&mut self, maze: &mut Vec<Cell>, moved: &mut bool) -> (hit: Option<usize>)
        requires
            old(self).wf(),
            grid_sized(old(maze)@),
            old(self).score < u32::MAX,
        ensures
            final(self).wf(),
            grid_sized(final(maze)@),
            hit is Some ==> hit->Some_0 < MAZE_CELLS,
            old(maze)@[cell_index(old(self).pos.x as int, old(self).pos.y as int)] != Cell::Wall
                ==> (forall|c: int|
                0 <= c < MAZE_CELLS && old(maze)@[c] == Cell::Wall ==> #[trigger] final(maze)@[c]
                    == Cell::Wall),
            resolve_post(
                *old(self),
                old(maze)@,
                *old(moved),
                *final(self),
                final(maze)@,
                *final(moved),
                hit,
            ),
    {
        let act = self.action;
        match act {
            None => None,
            Some(Action::TurnLeft) => {
                self.angle = if self.angle == 0 {
                    3
                } else {
                    self.angle - 1
                };
                self.action = None;
                *moved = true;
                None
            },
            Some(Action::TurnRight) => {
                self.angle = if self.angle == 3 {
                    0
                } else {
                    self.angle + 1
                };
                self.action = None;
                *moved = true;
                None
            },
            Some(Action::Ping) => {
                self.action = None;
                None
            },
            Some(Action::Shoot) => {
                let d = dir_step(self.angle);
                let r = scan_shot(
                    maze,
                    self.pos.x as i32 + d.0,
                    self.pos.y as i32 + d.1,
                    d.0,
                    d.1,
                    SHOT_RANGE,
                );
                proof {
                    if shot_hit(old(maze)@, *old(self)) is Some {
                        lemma_shot_scan_hit(
                            old(maze)@,
                            old(self).pos.x + dir_x(old(self).angle),
                            old(self).pos.y + dir_y(old(self).angle),
                            dir_x(old(self).angle),
                            dir_y(old(self).angle),
                            SHOT_RANGE as nat,
                        );
                    }
                }
                let hit = match r {
                    None => None,
                    Some(i) => {
                        if maze[i] == Cell::Wall {
                            None
                        } else if maze[i] == Cell::Breakable {
                            maze.set(i, Cell::Empty);
                            *moved = true;
                            Some(i)
                        } else {
                            maze.set(i, Cell::Empty);
                            self.score = self.score + 1;
                            *moved = true;
                            Some(i)
                        }
                    },
                };
                self.action = None;
                hit
            },
            Some(a) => {
                let d = dir_step(self.angle);
                let step: (i32, i32) = match a {
                    Action::MoveForward => (d.0, d.1),
                    Action::MoveBackward => (-d.0, -d.1),
                    Action::StrafeRight => (-d.1, d.0),
                    _ => (d.1, -d.0),
                };
                self.touching_wall(step.0, step.1, maze, moved);
                self.action = None;
                None
            },
        }
    }
}

} // verus!
