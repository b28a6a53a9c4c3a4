//! The authoritative server simulation: game state, session registry,
//! round lifecycle, and the per-tick resolution pipeline.
//!
//! One tick ingests at most one inbound message, applies it, resolves every
//! player's pending action against the shared maze, respawns shot players,
//! detects the end of a round, and decides whether the new state is worth
//! broadcasting. All decisions live here; the transport around it only
//! moves datagrams.

use vstd::prelude::*;
use crate::cell::Cell;
use crate::grid::{in_grid, cell_index, grid_sized, border_walls, tile_index};
use crate::maze::{select_maze, SAMPLE_ATTEMPTS};
use crate::player::{Player, Position, Action, cleared, resolve_step};
use crate::rng::rand_range;
use crate::MAZE_WIDTH;
use crate::MAZE_HEIGHT;
use crate::MAZE_CELLS;
use crate::ROUND_MAX;
use crate::SCORE_LIMIT;

verus! {

/// Each player is well formed and sits at the index its identity names.
pub open spec fn players_wf(s: Seq<Player>) -> bool {
    forall|i: int| 0 <= i < s.len() ==> (#[trigger] s[i]).wf() && s[i].id == i
}

/// No player has reached the round-ending score yet.
pub open spec fn scores_low(s: Seq<Player>) -> bool {
    forall|i: int| 0 <= i < s.len() ==> (#[trigger] s[i]).score < SCORE_LIMIT
}

/// Every pending action has been consumed.
pub open spec fn actions_clear(s: Seq<Player>) -> bool {
    forall|i: int| 0 <= i < s.len() ==> (#[trigger] s[i]).action is None
}

/// The hit index an action resolution reported, as a (possibly empty)
/// sequence.
pub open spec fn hit_seq(h: Option<usize>) -> Seq<usize> {
    match h {
        Option::Some(i) => seq![i],
        Option::None => Seq::<usize>::empty(),
    }
}

/// One-by-one resolution of a player sequence, front to back, as a
/// function: the players, maze and moved flag after every pending action
/// was consumed, and the hit indices collected along the way. This is the
/// whole of what [`GameState::resolve_all`] does.
pub open spec fn resolve_fold(players: Seq<Player>, m: Seq<Cell>, mv: bool) -> (
    Seq<Player>,
    Seq<Cell>,
    bool,
    Seq<usize>,
)
    decreases players.len(),
{
    if players.len() == 0 {
        (players, m, mv, Seq::<usize>::empty())
    } else {
        let first = resolve_step(players.first(), m, mv);
        let rest = resolve_fold(players.drop_first(), first.1, first.2);
        (seq![first.0] + rest.0, rest.1, rest.2, hit_seq(first.3) + rest.3)
    }
}

/// The full authoritative state a broadcast snapshot is built from.
pub struct GameState {
    /// All connected players, in join order.
    pub players: Vec<Player>,
    /// The shared maze, flattened row-major.
    pub maze: Vec<Cell>,
    /// Current round number, cycling 1..=ROUND_MAX.
    pub round: usize,
    /// Raised for the broadcast that announces a round transition.
    pub new_round_state: bool,
    /// Name of the player whose score ended the round; empty otherwise.
    pub winner: String,
}

/// The two game states hold the same values (compared through views).
pub open spec fn same_gs(a: GameState, b: GameState) -> bool {
    a.players@ == b.players@ && a.maze@ == b.maze@ && a.round == b.round && a.new_round_state
        == b.new_round_state && a.winner@ == b.winner@
}

/// Round that follows `r`: the counter wraps back to 1 past `ROUND_MAX`.
pub open spec fn next_round(r: usize) -> usize {
    if r >= ROUND_MAX {
        1
    } else {
        (r + 1) as usize
    }
}

/// The maze has no `Empty` tile left to spawn onto.
pub open spec fn no_empty_tile(m: Seq<Cell>) -> bool {
    forall|x: int, y: int| in_grid(x, y) ==> m[#[trigger] cell_index(x, y)] != Cell::Empty
}

/// A random `Empty` tile of the maze, rejection-sampled within a bounded
/// attempt budget and found by a deterministic sweep after it; `None` only
/// when the maze has no `Empty` tile at all.
fn find_empty_cell(maze: &Vec<Cell>) -> (r: Option<(usize, usize)>)
    requires
        grid_sized(maze@),
    ensures
        match r {
            Option::Some(t) => t.0 < MAZE_WIDTH && t.1 < MAZE_HEIGHT && maze@[cell_index(
                t.0 as int,
                t.1 as int,
            )] == Cell::Empty,
            Option::None => no_empty_tile(maze@),
        },
{
    let mut attempts: usize = 0;
    while attempts < SAMPLE_ATTEMPTS
        invariant
            grid_sized(maze@),
        decreases SAMPLE_ATTEMPTS - attempts,
    {
        let x = rand_range(0, MAZE_WIDTH);
        let y = rand_range(0, MAZE_HEIGHT);
        if maze[tile_index(x, y)] == Cell::Empty {
            return Some((x, y));
        }
        attempts = attempts + 1;
    }
    let mut y: usize = 0;
    while y < MAZE_HEIGHT
        invariant
            grid_sized(maze@),
            y <= MAZE_HEIGHT,
            forall|xx: int, yy: int|
                0 <= xx < MAZE_WIDTH && 0 <= yy < y ==> maze@[#[trigger] cell_index(xx, yy)]
                    != Cell::Empty,
        decreases MAZE_HEIGHT - y,
    {
        let mut x: usize = 0;
        while x < MAZE_WIDTH
            invariant
                grid_sized(maze@),
                y < MAZE_HEIGHT,
                x <= MAZE_WIDTH,
                forall|xx: int, yy: int|
                    0 <= xx < MAZE_WIDTH && 0 <= yy < y ==> maze@[#[trigger] cell_index(xx, yy)]
                        != Cell::Empty,
                forall|xx: int|
                    0 <= xx < x ==> maze@[#[trigger] cell_index(xx, y as int)] != Cell::Empty,
            decreases MAZE_WIDTH - x,
        {
            if maze[tile_index(x, y)] == Cell::Empty {
                return Some((x, y));
            }
            x = x + 1;
        }
        y = y + 1;
    }
    None
}

/// What respawning off one vacated tile does, as a relation between the
/// players, maze and moved flag before (`ps0`, `m0`, `mv0`) and after
/// (`ps1`, `m1`, `mv1`): the first player standing on the tile with flat
/// index `idx` moves to some tile that was `Empty` and is now marked
/// occupied; with nobody standing there, or no `Empty` tile left, nothing
/// changes. Only the destination tile is random; everything else is fixed.
pub open spec fn relocated_one(
    ps0: Seq<Player>,
    m0: Seq<Cell>,
    mv0: bool,
    ps1: Seq<Player>,
    m1: Seq<Cell>,
    mv1: bool,
    idx: usize,
) -> bool {
    &&& ps1.len() == ps0.len()
    &&& m1.len() == m0.len()
    &&& (forall|i: int|
        0 <= i < ps0.len() ==> {
            let p0 = ps0[i];
            let p1 = #[trigger] ps1[i];
            p1.id == p0.id && p1.name@ == p0.name@ && p1.score == p0.score && p1.angle == p0.angle
                && p1.action == p0.action
        })
    &&& (forall|j: int|
        0 <= j < m0.len() ==> m1[j] == m0[j] || (m0[j] == Cell::Empty && #[trigger] m1[j]
            == Cell::Occupied))
    &&& (mv0 ==> mv1)
    &&& ((forall|j: int|
        0 <= j < ps0.len() ==> cell_index(
            (#[trigger] ps0[j]).pos.x as int,
            ps0[j].pos.y as int,
        ) != idx) ==> ps1 == ps0 && m1 == m0 && mv1 == mv0)
    &&& (((exists|j: int|
        0 <= j < ps0.len() && cell_index(
            (#[trigger] ps0[j]).pos.x as int,
            ps0[j].pos.y as int,
        ) == idx) && no_empty_tile(m0)) ==> ps1 == ps0 && m1 == m0 && mv1 == mv0)
    &&& (((exists|j: int|
        0 <= j < ps0.len() && cell_index(
            (#[trigger] ps0[j]).pos.x as int,
            ps0[j].pos.y as int,
        ) == idx) && !no_empty_tile(m0)) ==> (exists|j: int, qx: int, qy: int|
        #![trigger ps0[j], cell_index(qx, qy)]
        {
            &&& 0 <= j < ps0.len()
            &&& cell_index(ps0[j].pos.x as int, ps0[j].pos.y as int) == idx
            &&& in_grid(qx, qy)
            &&& m0[cell_index(qx, qy)] == Cell::Empty
            &&& ps1 == ps0.update(
                j,
                Player { pos: Position { x: qx as usize, y: qy as usize }, ..ps0[j] },
            )
            &&& m1 == m0.update(cell_index(qx, qy), Cell::Occupied)
            &&& mv1
        }))
}

/// A chain of single-tile respawns, one per hit index in order: each
/// consecutive pair of states is related by [`relocated_one`]. This is the
/// whole of what [`GameState::relocate_victims`] does.
pub open spec fn relocations_ok(
    ps0: Seq<Player>,
    m0: Seq<Cell>,
    mv0: bool,
    hits: Seq<usize>,
    ps1: Seq<Player>,
    m1: Seq<Cell>,
    mv1: bool,
) -> bool
    decreases hits.len(),
{
    if hits.len() == 0 {
        ps1 == ps0 && m1 == m0 && mv1 == mv0
    } else {
        exists|psm: Seq<Player>, mm: Seq<Cell>, mvm: bool|
            #![trigger relocated_one(ps0, m0, mv0, psm, mm, mvm, hits.first())]
            relocated_one(ps0, m0, mv0, psm, mm, mvm, hits.first()) && relocations_ok(
                psm,
                mm,
                mvm,
                hits.drop_first(),
                ps1,
                m1,
                mv1,
            )
    }
}

/// A respawn chain extends by one more hit at its end.
proof fn lemma_relocations_snoc(
    ps0: Seq<Player>,
    m0: Seq<Cell>,
    mv0: bool,
    hits: Seq<usize>,
    ps1: Seq<Player>,
    m1: Seq<Cell>,
    mv1: bool,
    ps2: Seq<Player>,
    m2: Seq<Cell>,
    mv2: bool,
    idx: usize,
)
    requires
        relocations_ok(ps0, m0, mv0, hits, ps1, m1, mv1),
        relocated_one(ps1, m1, mv1, ps2, m2, mv2, idx),
    ensures
        relocations_ok(ps0, m0, mv0, hits.push(idx), ps2, m2, mv2),
    decreases hits.len(),
{
    let ext = hits.push(idx);
    if hits.len() == 0 {
        assert(ext.first() == idx);
        assert(ext.drop_first() =~= Seq::<usize>::empty());
        assert(relocated_one(ps0, m0, mv0, ps2, m2, mv2, idx));
        assert(relocations_ok(ps2, m2, mv2, ext.drop_first(), ps2, m2, mv2));
    } else {
        let (psm, mm, mvm) = choose|psm: Seq<Player>, mm: Seq<Cell>, mvm: bool|
            relocated_one(ps0, m0, mv0, psm, mm, mvm, hits.first()) && relocations_ok(
                psm,
                mm,
                mvm,
                hits.drop_first(),
                ps1,
                m1,
                mv1,
            );
        lemma_relocations_snoc(
            psm,
            mm,
            mvm,
            hits.drop_first(),
            ps1,
            m1,
            mv1,
            ps2,
            m2,
            mv2,
            idx,
        );
        assert(ext.first() == hits.first());
        assert(ext.drop_first() =~= hits.drop_first().push(idx));
        assert(relocated_one(ps0, m0, mv0, psm, mm, mvm, ext.first()));
        assert(relocations_ok(psm, mm, mvm, ext.drop_first(), ps2, m2, mv2));
    }
}

/// Index of the first player standing on the tile with flat index `idx`.
fn player_at_tile(players: &Vec<Player>, idx: usize) -> (r: Option<usize>)
    requires
        players_wf(players@),
    ensures
        match r {
            Option::Some(j) => j < players@.len() && cell_index(
                players@[j as int].pos.x as int,
                players@[j as int].pos.y as int,
            ) == idx,
            Option::None => forall|j: int|
                0 <= j < players@.len() ==> cell_index(
                    (#[trigger] players@[j]).pos.x as int,
                    players@[j].pos.y as int,
                ) != idx,
        },
{
    let n = players.len();
    let mut j: usize = 0;
    while j < n
        invariant
            players_wf(players@),
            n == players@.len(),
            j <= n,
            forall|k: int|
                0 <= k < j ==> cell_index(
                    (#[trigger] players@[k]).pos.x as int,
                    players@[k].pos.y as int,
                ) != idx,
        decreases n - j,
    {
        let p = &players[j];
        if tile_index(p.pos.x, p.pos.y) == idx {
            return Some(j);
        }
        j = j + 1;
    }
    None
}

impl GameState {
    /// The maze has full size, the round counter is in range, and the
    /// players all carry the identity of their slot.
    pub open spec fn wf(self) -> bool {
        grid_sized(self.maze@) && 1 <= self.round <= ROUND_MAX && players_wf(self.players@)
    }

    /// A fresh server: no players, round 1, a first maze at the lowest
    /// difficulty.
    pub fn new() -> (gs: GameState)
        ensures
            gs.wf(),
            gs.players@.len() == 0,
            gs.round == 1,
            !gs.new_round_state,
            gs.winner@.len() == 0,
            crate::reach::connected(gs.maze@),
            border_walls(gs.maze@),
    {
        GameState {
            players: Vec::new(),
            maze: select_maze(1, 1),
            round: 1,
            new_round_state: false,
            winner: String::new(),
        }
    }

    /// Store one player's freshly arrived action, last write wins. A `Ping`
    /// is never stored and an unknown identity is dropped silently.
    pub fn apply_update(&mut self, id: usize, action: Action)
        requires
            old(self).wf(),
        ensures
            final(self).wf(),
            (matches!(action, Action::Ping) || id >= old(self).players@.len()) ==> same_gs(
                *final(self),
                *old(self),
            ),
            (!matches!(action, Action::Ping) && id < old(self).players@.len()) ==> (
            final(self).players@ == old(self).players@.update(
                id as int,
                Player { action: Option::Some(action), ..old(self).players@[id as int] },
            ) && final(self).maze@ == old(self).maze@ && final(self).round == old(self).round
                && final(self).new_round_state == old(self).new_round_state && final(self).winner@
                == old(self).winner@),
            final(self).players@.len() == old(self).players@.len(),
            forall|i: int|
                0 <= i < old(self).players@.len() ==> (#[trigger] final(self).players@[i]).score
                    == old(self).players@[i].score,
    {
        if matches!(action, Action::Ping) {
            return ;
        }
        if id < self.players.len() {
            let p = &mut self.players[id];
            p.action = Some(action);
        }
    }

    /// Check for a finished round: the first player at or past the score
    /// limit names the winner and advances the round counter (wrapping past
    /// `ROUND_MAX` back to 1). Nothing else changes yet.
    pub fn update_level(&mut self) -> (new_round: bool)
        requires
            old(self).wf(),
        ensures
            final(self).wf(),
            new_round == exists|i: int|
                0 <= i < old(self).players@.len() && (#[trigger] old(self).players@[i]).score
                    >= SCORE_LIMIT,
            !new_round ==> same_gs(*final(self), *old(self)),
            new_round ==> exists|i: int|
                0 <= i < old(self).players@.len() && (#[trigger] old(self).players@[i]).score
                    >= SCORE_LIMIT && final(self).winner@ == old(self).players@[i].name@ && (
                forall|j: int| 0 <= j < i ==> old(self).players@[j].score < SCORE_LIMIT),
            new_round ==> final(self).round == next_round(old(self).round) && final(self).players@
                == old(self).players@ && final(self).maze@ == old(self).maze@
                && final(self).new_round_state == old(self).new_round_state,
    {
        let n = self.players.len();
        let mut i: usize = 0;
        while i < n
            invariant
                self.wf(),
                same_gs(*self, *old(self)),
                n == self.players@.len(),
                i <= n,
                forall|j: int| 0 <= j < i ==> (#[trigger] self.players@[j]).score < SCORE_LIMIT,
            decreases n - i,
        {
            if self.players[i].score >= SCORE_LIMIT {
                self.winner = self.players[i].name.clone();
                self.round = if self.round >= ROUND_MAX {
                    1
                } else {
                    self.round + 1
                };
                return true;
            }
            i = i + 1;
        }
        false
    }

    /// Drop every player onto a fresh random `Empty` tile and mark it
    /// occupied. A player stays put only if the maze has no `Empty` tile
    /// left for it.
    pub fn randomize_player_position(&mut self)
        requires
            old(self).wf(),
        ensures
            final(self).wf(),
            final(self).players@.len() == old(self).players@.len(),
            forall|i: int|
                0 <= i < old(self).players@.len() ==> {
                    let p0 = old(self).players@[i];
                    let p1 = #[trigger] final(self).players@[i];
                    p1.id == p0.id && p1.name@ == p0.name@ && p1.score == p0.score && p1.angle
                        == p0.angle && p1.action == p0.action
                },
            forall|j: int|
                0 <= j < MAZE_CELLS ==> final(self).maze@[j] == old(self).maze@[j] || (old(self).maze@[j] == Cell::Empty && #[trigger] final(self).maze@[j] == Cell::Occupied),
            forall|i: int|
                0 <= i < old(self).players@.len() ==> (#[trigger] final(self).players@[i]).pos
                    == old(self).players@[i].pos || final(self).maze@[cell_index(
                    final(self).players@[i].pos.x as int,
                    final(self).players@[i].pos.y as int,
                )] == Cell::Occupied,
            forall|i: int|
                0 <= i < old(self).players@.len() ==> final(self).maze@[cell_index(
                    (#[trigger] final(self).players@[i]).pos.x as int,
                    final(self).players@[i].pos.y as int,
                )] == Cell::Occupied || no_empty_tile(final(self).maze@),
            // Each player lands on a tile that was Empty before the pass and
            // is marked occupied by it; a player keeps its place only once
            // the maze has no Empty tile left for it.
            forall|i: int|
                0 <= i < old(self).players@.len() ==> {
                    let q = (#[trigger] final(self).players@[i]).pos;
                    (old(self).maze@[cell_index(q.x as int, q.y as int)] == Cell::Empty && final(self).maze@[cell_index(q.x as int, q.y as int)] == Cell::Occupied) || (q == old(self).players@[i].pos && no_empty_tile(final(self).maze@))
                },
            final(self).round == old(self).round,
            final(self).new_round_state == old(self).new_round_state,
            final(self).winner@ == old(self).winner@,
    {
        let n = self.players.len();
        let mut i: usize = 0;
        while i < n
            invariant
                self.wf(),
                n == self.players@.len(),
                self.players@.len() == old(self).players@.len(),
                i <= n,
                forall|k: int|
                    0 <= k < i ==> self.maze@[cell_index(
                        (#[trigger] self.players@[k]).pos.x as int,
                        self.players@[k].pos.y as int,
                    )] == Cell::Occupied || no_empty_tile(self.maze@),
                forall|k: int|
                    0 <= k < i ==> {
                        let q = (#[trigger] self.players@[k]).pos;
                        (old(self).maze@[cell_index(q.x as int, q.y as int)] == Cell::Empty
                            && self.maze@[cell_index(q.x as int, q.y as int)] == Cell::Occupied)
                            || (q == old(self).players@[k].pos && no_empty_tile(self.maze@))
                    },
                forall|k: int|
                    0 <= k < n ==> {
                        let p0 = old(self).players@[k];
                        let p1 = #[trigger] self.players@[k];
                        p1.id == p0.id && p1.name@ == p0.name@ && p1.score == p0.score && p1.angle
                            == p0.angle && p1.action == p0.action
                    },
                forall|j: int|
                    0 <= j < MAZE_CELLS ==> self.maze@[j] == old(self).maze@[j] || (old(self).maze@[j] == Cell::Empty && #[trigger] self.maze@[j] == Cell::Occupied),
                forall|k: int|
                    0 <= k < i ==> (#[trigger] self.players@[k]).pos == old(self).players@[k].pos
                        || self.maze@[cell_index(
                        self.players@[k].pos.x as int,
                        self.players@[k].pos.y as int,
                    )] == Cell::Occupied,
                forall|k: int|
                    i <= k < n ==> (#[trigger] self.players@[k]).pos == old(self).players@[k].pos,
                self.round == old(self).round,
                self.new_round_state == old(self).new_round_state,
                self.winner@ == old(self).winner@,
            decreases n - i,
        {
            match find_empty_cell(&self.maze) {
                Some((x, y)) => {
                    proof {
                        // A tile Empty now was Empty before the pass: cells
                        // only ever turn from Empty to Occupied here.
                        assert(old(self).maze@[cell_index(x as int, y as int)] == Cell::Empty);
                    }
                    let idx = tile_index(x, y);
                    self.maze.set(idx, Cell::Occupied);
                    let p = &mut self.players[i];
                    p.pos = Position::new(x, y);
                },
                None => {},
            }
            i = i + 1;
        }
    }

    /// Begin the round whose number `update_level` just installed:
    /// regenerate the maze at the new difficulty, zero every score, raise
    /// the transition flag, and scatter the players anew.
    pub fn start_new_round(&mut self)
        requires
            old(self).wf(),
        ensures
            final(self).wf(),
            final(self).players@.len() == old(self).players@.len(),
            forall|i: int|
                0 <= i < old(self).players@.len() ==> {
                    let p0 = old(self).players@[i];
                    let p1 = #[trigger] final(self).players@[i];
                    p1.id == p0.id && p1.name@ == p0.name@ && p1.score == 0 && p1.action
                        == p0.action
                },
            forall|i: int|
                0 <= i < old(self).players@.len() ==> final(self).maze@[cell_index(
                    (#[trigger] final(self).players@[i]).pos.x as int,
                    final(self).players@[i].pos.y as int,
                )] == Cell::Occupied || no_empty_tile(final(self).maze@),
            old(self).players@.len() > 0 ==> final(self).new_round_state,
            old(self).players@.len() == 0 ==> final(self).new_round_state == old(self).new_round_state,
            final(self).round == old(self).round,
            final(self).winner@ == old(self).winner@,
            border_walls(final(self).maze@),
    {
        self.maze = select_maze(self.round, self.players.len());
        let n = self.players.len();
        let mut i: usize = 0;
        while i < n
            invariant
                self.wf(),
                n == self.players@.len(),
                self.players@.len() == old(self).players@.len(),
                i <= n,
                forall|k: int|
                    0 <= k < n ==> {
                        let p0 = old(self).players@[k];
                        let p1 = #[trigger] self.players@[k];
                        p1.id == p0.id && p1.name@ == p0.name@ && p1.angle == p0.angle && p1.pos
                            == p0.pos && p1.action == p0.action
                    },
                forall|k: int| 0 <= k < i ==> (#[trigger] self.players@[k]).score == 0,
                i > 0 ==> self.new_round_state,
                i == 0 ==> self.new_round_state == old(self).new_round_state,
                self.round == old(self).round,
                self.winner@ == old(self).winner@,
                border_walls(self.maze@),
            decreases n - i,
        {
            let p = &mut self.players[i];
            p.score = 0;
            self.new_round_state = true;
            i = i + 1;
        }
        self.randomize_player_position();
    }

    /// Respawn every player whose tile one of the `hits` vacated: each gets
    /// a fresh random `Empty` tile, which is marked occupied. The result is
    /// a [`relocations_ok`] chain of single-tile respawns, one per hit, in
    /// order.
    pub fn relocate_victims(&mut self, hits: &Vec<usize>, moved: &mut bool)
        requires
            old(self).wf(),
        ensures
            final(self).wf(),
            final(self).players@.len() == old(self).players@.len(),
            forall|i: int|
                0 <= i < old(self).players@.len() ==> {
                    let p0 = old(self).players@[i];
                    let p1 = #[trigger] final(self).players@[i];
                    p1.id == p0.id && p1.name@ == p0.name@ && p1.score == p0.score && p1.angle
                        == p0.angle && p1.action == p0.action
                },
            forall|j: int|
                0 <= j < MAZE_CELLS ==> final(self).maze@[j] == old(self).maze@[j] || (old(self).maze@[j] == Cell::Empty && #[trigger] final(self).maze@[j] == Cell::Occupied),
            forall|i: int|
                0 <= i < old(self).players@.len() ==> (#[trigger] final(self).players@[i]).pos
                    == old(self).players@[i].pos || final(self).maze@[cell_index(
                    final(self).players@[i].pos.x as int,
                    final(self).players@[i].pos.y as int,
                )] == Cell::Occupied,
            *old(moved) ==> *final(moved),
            hits@.len() == 0 ==> same_gs(*final(self), *old(self)) && *final(moved) == *old(moved),
            // Every hit is answered by exactly one respawn step, in order.
            relocations_ok(
                old(self).players@,
                old(self).maze@,
                *old(moved),
                hits@,
                final(self).players@,
                final(self).maze@,
                *final(moved),
            ),
            final(self).round == old(self).round,
            final(self).new_round_state == old(self).new_round_state,
            final(self).winner@ == old(self).winner@,
    {
        let n = hits.len();
        let mut k: usize = 0;
        proof {
            assert(hits@.take(0) =~= Seq::<usize>::empty());
        }
        while k < n
            invariant
                self.wf(),
                n == hits@.len(),
                k <= n,
                relocations_ok(
                    old(self).players@,
                    old(self).maze@,
                    *old(moved),
                    hits@.take(k as int),
                    self.players@,
                    self.maze@,
                    *moved,
                ),
                self.players@.len() == old(self).players@.len(),
                forall|i: int|
                    0 <= i < old(self).players@.len() ==> {
                        let p0 = old(self).players@[i];
                        let p1 = #[trigger] self.players@[i];
                        p1.id == p0.id && p1.name@ == p0.name@ && p1.score == p0.score && p1.angle
                            == p0.angle && p1.action == p0.action
                    },
                forall|j: int|
                    0 <= j < MAZE_CELLS ==> self.maze@[j] == old(self).maze@[j] || (old(self).maze@[j] == Cell::Empty && #[trigger] self.maze@[j] == Cell::Occupied),
                forall|i: int|
                    0 <= i < old(self).players@.len() ==> (#[trigger] self.players@[i]).pos == old(self).players@[i].pos || self.maze@[cell_index(
                        self.players@[i].pos.x as int,
                        self.players@[i].pos.y as int,
                    )] == Cell::Occupied,
                *old(moved) ==> *moved,
                n == 0 ==> same_gs(*self, *old(self)) && *moved == *old(moved),
                self.round == old(self).round,
                self.new_round_state == old(self).new_round_state,
                self.winner@ == old(self).winner@,
            decreases n - k,
        {
            let idx = hits[k];
            let ghost cps = self.players@;
            let ghost cm = self.maze@;
            let ghost cmv = *moved;
            self.relocate_victim(idx, moved);
            proof {
                lemma_relocations_snoc(
                    old(self).players@,
                    old(self).maze@,
                    *old(moved),
                    hits@.take(k as int),
                    cps,
                    cm,
                    cmv,
                    self.players@,
                    self.maze@,
                    *moved,
                    idx,
                );
                assert(hits@.take(k as int).push(idx) =~= hits@.take(k as int + 1));
            }
            k = k + 1;
        }
        proof {
            assert(hits@.take(n as int) =~= hits@);
        }
    }

    /// Respawn the first player standing on the tile with flat index `idx`
    /// (a tile a hit just vacated): the player moves to a random tile that
    /// was `Empty`, which is marked occupied; everything else stays as it
    /// was. Nothing happens if no player stands there, or if the maze has
    /// no `Empty` tile left.
    pub fn relocate_victim(&mut self, idx: usize, moved: &mut bool)
        requires
            old(self).wf(),
        ensures
            final(self).wf(),
            final(self).players@.len() == old(self).players@.len(),
            forall|i: int|
                0 <= i < old(self).players@.len() ==> {
                    let p0 = old(self).players@[i];
                    let p1 = #[trigger] final(self).players@[i];
                    p1.id == p0.id && p1.name@ == p0.name@ && p1.score == p0.score && p1.angle
                        == p0.angle && p1.action == p0.action
                },
            forall|j: int|
                0 <= j < MAZE_CELLS ==> final(self).maze@[j] == old(self).maze@[j] || (old(self).maze@[j] == Cell::Empty && #[trigger] final(self).maze@[j] == Cell::Occupied),
            forall|i: int|
                0 <= i < old(self).players@.len() ==> (#[trigger] final(self).players@[i]).pos == old(self).players@[i].pos || final(self).maze@[cell_index(
                    final(self).players@[i].pos.x as int,
                    final(self).players@[i].pos.y as int,
                )] == Cell::Occupied,
            *old(moved) ==> *final(moved),
            final(self).round == old(self).round,
            final(self).new_round_state == old(self).new_round_state,
            final(self).winner@ == old(self).winner@,
            // No player stands on the vacated tile: nothing changes.
            (forall|j: int|
                0 <= j < old(self).players@.len() ==> cell_index(
                    (#[trigger] old(self).players@[j]).pos.x as int,
                    old(self).players@[j].pos.y as int,
                ) != idx) ==> same_gs(*final(self), *old(self)) && *final(moved) == *old(moved),
            // A victim with no Empty tile left to respawn onto stays put.
            ((exists|j: int|
                0 <= j < old(self).players@.len() && cell_index(
                    (#[trigger] old(self).players@[j]).pos.x as int,
                    old(self).players@[j].pos.y as int,
                ) == idx) && no_empty_tile(old(self).maze@)) ==> same_gs(*final(self), *old(self))
                && *final(moved) == *old(moved),
            // The whole step, bundled as the relation the respawn chain of
            // `relocate_victims` is built from.
            relocated_one(
                old(self).players@,
                old(self).maze@,
                *old(moved),
                final(self).players@,
                final(self).maze@,
                *final(moved),
                idx,
            ),
            // The victim - the first player on the vacated tile - is
            // respawned whenever the maze still has an Empty tile: it moves
            // to such a tile, which is marked occupied.
            ((exists|j: int|
                0 <= j < old(self).players@.len() && cell_index(
                    (#[trigger] old(self).players@[j]).pos.x as int,
                    old(self).players@[j].pos.y as int,
                ) == idx) && !no_empty_tile(old(self).maze@))
                ==> (exists|j: int, qx: int, qy: int|
                #![trigger old(self).players@[j], cell_index(qx, qy)]
                {
                    &&& 0 <= j < old(self).players@.len()
                    &&& cell_index(
                        old(self).players@[j].pos.x as int,
                        old(self).players@[j].pos.y as int,
                    ) == idx
                    &&& in_grid(qx, qy)
                    &&& old(self).maze@[cell_index(qx, qy)] == Cell::Empty
                    &&& final(self).players@ == old(self).players@.update(
                        j,
                        Player {
                            pos: Position { x: qx as usize, y: qy as usize },
                            ..old(self).players@[j]
                        },
                    )
                    &&& final(self).maze@ == old(self).maze@.update(
                        cell_index(qx, qy),
                        Cell::Occupied,
                    )
                    &&& *final(moved)
                }),
    {
        match player_at_tile(&self.players, idx) {
            Some(j) => {
                match find_empty_cell(&self.maze) {
                    Some((x, y)) => {
                        let cell = tile_index(x, y);
                        self.maze.set(cell, Cell::Occupied);
                        let p = &mut self.players[j];
                        p.pos = Position::new(x, y);
                        *moved = true;
                    },
                    None => {},
                }
            },
            None => {},
        }
    }

    /// Consume every player's pending action against the shared maze,
    /// gathering the tiles that hits vacated. `moved` is raised exactly
    /// when some resolution changed broadcast-worthy state.
    pub fn resolve_all(&mut self, moved: &mut bool) -> (hits: Vec<usize>)
        requires
            old(self).wf(),
            scores_low(old(self).players@),
        ensures
            final(self).wf(),
            actions_clear(final(self).players@),
            final(self).players@.len() == old(self).players@.len(),
            forall|i: int|
                0 <= i < old(self).players@.len() ==> {
                    let p0 = old(self).players@[i];
                    let p1 = #[trigger] final(self).players@[i];
                    p1.id == p0.id && p1.name@ == p0.name@ && p1.score <= p0.score + 1
                },
            forall|k: int| 0 <= k < hits@.len() ==> #[trigger] hits@[k] < MAZE_CELLS,
            *old(moved) ==> *final(moved),
            actions_clear(old(self).players@) ==> final(self).players@ == old(self).players@
                && final(self).maze@ == old(self).maze@ && *final(moved) == *old(moved)
                && hits@.len() == 0,
            (!*old(moved) && !*final(moved)) ==> final(self).maze@ == old(self).maze@ && hits@.len()
                == 0 && (forall|i: int|
                0 <= i < old(self).players@.len() ==> #[trigger] final(self).players@[i] == cleared(
                    old(self).players@[i],
                )),
            ({
                let folded = resolve_fold(old(self).players@, old(self).maze@, *old(moved));
                final(self).players@ == folded.0 && final(self).maze@ == folded.1 && *final(moved)
                    == folded.2 && hits@ == folded.3
            }),
            final(self).round == old(self).round,
            final(self).new_round_state == old(self).new_round_state,
            final(self).winner@ == old(self).winner@,
    {
        let ghost m0 = old(self).maze@;
        let ghost ps0 = old(self).players@;
        let ghost mv0 = *old(moved);
        let mut hits: Vec<usize> = Vec::new();
        proof {
            assert(ps0.skip(0) =~= ps0);
            assert(self.players@.take(0) =~= Seq::<Player>::empty());
            let folded = resolve_fold(ps0, m0, mv0);
            assert(Seq::<Player>::empty() + folded.0 =~= folded.0);
            assert(Seq::<usize>::empty() + folded.3 =~= folded.3);
        }
        let n = self.players.len();
        let mut i: usize = 0;
        while i < n
            invariant
                grid_sized(self.maze@),
                1 <= self.round <= ROUND_MAX,
                n == self.players@.len(),
                i <= n,
                self.players@.len() == old(self).players@.len(),
                scores_low(old(self).players@),
                players_wf(self.players@),
                forall|j: int|
                    i <= j < n ==> #[trigger] self.players@[j] == old(self).players@[j],
                forall|j: int|
                    0 <= j < i ==> {
                        let p0 = old(self).players@[j];
                        let p1 = #[trigger] self.players@[j];
                        p1.id == p0.id && p1.name@ == p0.name@ && p1.score <= p0.score + 1
                            && p1.action is None
                    },
                forall|k: int| 0 <= k < hits@.len() ==> #[trigger] hits@[k] < MAZE_CELLS,
                *old(moved) ==> *moved,
                actions_clear(old(self).players@) ==> self.players@ == old(self).players@
                    && self.maze@ == old(self).maze@ && *moved == *old(moved) && hits@.len() == 0,
                (!*old(moved) && !*moved) ==> self.maze@ == old(self).maze@ && hits@.len() == 0 && (
                forall|j: int|
                    0 <= j < i ==> #[trigger] self.players@[j] == cleared(old(self).players@[j])),
                ({
                    let folded = resolve_fold(ps0, m0, mv0);
                    let rem = resolve_fold(ps0.skip(i as int), self.maze@, *moved);
                    folded.0 == self.players@.take(i as int) + rem.0 && folded.1 == rem.1
                        && folded.2 == rem.2 && folded.3 == hits@ + rem.3
                }),
                ps0 == old(self).players@ && m0 == old(self).maze@ && mv0 == *old(moved),
                self.round == old(self).round,
                self.new_round_state == old(self).new_round_state,
                self.winner@ == old(self).winner@,
            decreases n - i,
        {
            let ghost ps_before = self.players@;
            let ghost m_before = self.maze@;
            let ghost mv_before = *moved;
            let ghost hits_before = hits@;
            let p = &mut self.players[i];
            let h = p.input(&mut self.maze, moved);
            match h {
                Some(idx) => {
                    hits.push(idx);
                },
                None => {},
            }
            proof {
                // One unfolding of the remaining fold matches what `input`
                // just did, moving one player from the suffix to the prefix.
                let suffix = ps0.skip(i as int);
                assert(suffix.first() == ps_before[i as int]);
                assert(suffix.drop_first() =~= ps0.skip(i as int + 1));
                let step = resolve_step(suffix.first(), m_before, mv_before);
                assert(self.players@ =~= ps_before.update(i as int, step.0));
                assert(self.players@.take(i as int) =~= ps_before.take(i as int));
                assert(self.players@.take(i as int + 1) =~= self.players@.take(i as int).push(
                    step.0,
                ));
                let folded = resolve_fold(ps0, m0, mv0);
                let rem = resolve_fold(suffix, m_before, mv_before);
                let rem2 = resolve_fold(ps0.skip(i as int + 1), self.maze@, *moved);
                assert(rem.0 == seq![step.0] + rem2.0 && rem.1 == rem2.1 && rem.2 == rem2.2
                    && rem.3 == hit_seq(step.3) + rem2.3);
                assert(folded.0 =~= self.players@.take(i as int + 1) + rem2.0);
                assert(hits@ =~= hits_before + hit_seq(step.3));
                assert(folded.3 =~= hits@ + rem2.3);
            }
            i = i + 1;
        }
        proof {
            assert(ps0.skip(ps0.len() as int) =~= Seq::<Player>::empty());
            assert(self.players@.take(ps0.len() as int) =~= self.players@);
            let folded = resolve_fold(ps0, m0, mv0);
            let rem = resolve_fold(ps0.skip(ps0.len() as int), self.maze@, *moved);
            assert(folded.0 =~= self.players@ + rem.0);
            assert(self.players@ + Seq::<Player>::empty() =~= self.players@);
            assert(hits@ + Seq::<usize>::empty() =~= hits@);
        }
        hits
    }

    /// Clear the transition banner after its broadcast (and the pause that
    /// follows a round transition): the flag drops and the winner resets.
    pub fn end_round_pause(&mut self)
        requires
            old(self).wf(),
        ensures
            final(self).wf(),
            final(self).players@ == old(self).players@,
            final(self).maze@ == old(self).maze@,
            final(self).round == old(self).round,
            !final(self).new_round_state,
            final(self).winner@.len() == 0,
    {
        self.new_round_state = false;
        self.winner = String::new();
    }
}

/// One decoded inbound datagram, as the transport hands it to the tick.
/// Anything malformed maps to `Nothing`.
pub enum Inbound {
    /// A join request from the transport endpoint with the given key,
    /// carrying the new player's name.
    Join { endpoint: u64, name: String },
    /// A player's action update.
    Update { id: usize, action: Action },
    /// No datagram, or one that did not parse.
    Nothing,
}

/// What the transport must do after a tick: answer a fresh join with its
/// assigned identity, broadcast a snapshot, and pause on a round change.
pub struct TickOutcome {
    /// Endpoint key and assigned identity of a player that just joined.
    pub reply: Option<(u64, usize)>,
    /// A snapshot must go out to every connected endpoint.
    pub broadcast: bool,
    /// A round transition happened this tick.
    pub new_round: bool,
}

/// The whole server: the game state plus the session registry mapping each
/// connected transport endpoint (by an opaque key) to the player whose
/// identity equals its slot.
pub struct World {
    /// The authoritative game state.
    pub gs: GameState,
    /// Endpoint key of each player, in join order: the player with
    /// identity `i` connected from `endpoints[i]`.
    pub endpoints: Vec<u64>,
}

/// The two worlds hold the same values (compared through views).
pub open spec fn same_world(a: World, b: World) -> bool {
    same_gs(a.gs, b.gs) && a.endpoints@ == b.endpoints@
}

/// The inbound message cannot change the simulation: nothing arrived, a
/// keepalive or an unknown identity, or a join from an endpoint that is
/// already registered.
pub open spec fn quiet_inbound(w: World, inbound: Inbound) -> bool {
    match inbound {
        Inbound::Nothing => true,
        Inbound::Update { id, action } => action == Action::Ping || id >= w.gs.players@.len(),
        Inbound::Join { endpoint, name } => w.endpoints@.contains(endpoint),
    }
}

impl World {
    /// The registry has one endpoint per player.
    pub open spec fn wf(self) -> bool {
        self.gs.wf() && self.endpoints@.len() == self.gs.players@.len()
    }

    /// A fresh server with no connections.
    pub fn new() -> (w: World)
        ensures
            w.wf(),
            w.gs.players@.len() == 0,
            w.gs.round == 1,
            !w.gs.new_round_state,
            w.endpoints@.len() == 0,
    {
        World { gs: GameState::new(), endpoints: Vec::new() }
    }

    /// The endpoint key is already registered.
    fn endpoint_known(&self, endpoint: u64) -> (r: bool)
        ensures
            r == self.endpoints@.contains(endpoint),
    {
        let n = self.endpoints.len();
        let mut i: usize = 0;
        while i < n
            invariant
                n == self.endpoints@.len(),
                i <= n,
                forall|k: int| 0 <= k < i ==> self.endpoints@[k] != endpoint,
            decreases n - i,
        {
            if self.endpoints[i] == endpoint {
                return true;
            }
            i = i + 1;
        }
        false
    }

    /// Register a join request. A never-seen endpoint gets the next
    /// sequential identity and a player spawned on a random `Empty` tile;
    /// an endpoint already registered changes nothing and gets no new
    /// identity, however often it asks again. The join is refused (with no
    /// state change) only if the maze has no `Empty` tile left.
    pub fn handle_join(&mut self, endpoint: u64, name: String) -> (r: Option<usize>)
        requires
            old(self).wf(),
        ensures
            final(self).wf(),
            old(self).endpoints@.contains(endpoint) ==> r is None && same_world(
                *final(self),
                *old(self),
            ),
            !old(self).endpoints@.contains(endpoint) && r is None ==> same_world(
                *final(self),
                *old(self),
            ) && no_empty_tile(old(self).gs.maze@),
            r is Some ==> ({
                let id = r->Some_0;
                let p = final(self).gs.players@[id as int];
                &&& !old(self).endpoints@.contains(endpoint)
                &&& id == old(self).gs.players@.len()
                &&& final(self).endpoints@ == old(self).endpoints@.push(endpoint)
                &&& final(self).gs.players@.len() == old(self).gs.players@.len() + 1
                &&& (forall|i: int|
                    0 <= i < old(self).gs.players@.len() ==> #[trigger] final(self).gs.players@[i]
                        == old(self).gs.players@[i])
                &&& p.id == id && p.name@ == name@ && p.score == 0 && p.action is None && p.angle
                    == 0
                &&& old(self).gs.maze@[cell_index(p.pos.x as int, p.pos.y as int)] == Cell::Empty
                &&& final(self).gs.maze@ == old(self).gs.maze@.update(
                    cell_index(p.pos.x as int, p.pos.y as int),
                    Cell::Occupied,
                )
                &&& final(self).gs.round == old(self).gs.round
                &&& final(self).gs.new_round_state == old(self).gs.new_round_state
                &&& final(self).gs.winner@ == old(self).gs.winner@
            }),
    {
        if self.endpoint_known(endpoint) {
            return None;
        }
        match find_empty_cell(&self.gs.maze) {
            None => None,
            Some((x, y)) => {
                let id = self.gs.players.len();
                let idx = tile_index(x, y);
                self.gs.maze.set(idx, Cell::Occupied);
                self.gs.players.push(Player::new(Position::new(x, y), id, name));
                self.endpoints.push(endpoint);
                Some(id)
            },
        }
    }
}

/// The player sequence after one inbound update message is applied: a
/// non-ping action for a known identity is stored (last write wins),
/// anything else changes nothing. Joins extend the sequence and are
/// handled separately.
pub open spec fn applied_update(players: Seq<Player>, inbound: Inbound) -> Seq<Player> {
    match inbound {
        Inbound::Update { id, action } => if action != Action::Ping && id < players.len() {
            players.update(
                id as int,
                Player { action: Option::Some(action), ..players[id as int] },
            )
        } else {
            players
        },
        _ => players,
    }
}

/// The moved flag only ever rises through resolution.
proof fn lemma_fold_mv_monotone(players: Seq<Player>, m: Seq<Cell>, mv: bool)
    requires
        mv,
    ensures
        resolve_fold(players, m, mv).2,
    decreases players.len(),
{
    if players.len() > 0 {
        let first = resolve_step(players.first(), m, mv);
        assert(first.2);
        lemma_fold_mv_monotone(players.drop_first(), first.1, first.2);
    }
}

/// A pending turn anywhere in the sequence raises the moved flag: turns are
/// always broadcast-worthy.
proof fn lemma_fold_turn_moves(players: Seq<Player>, m: Seq<Cell>, mv: bool, k: int)
    requires
        0 <= k < players.len(),
        players[k].action == Option::Some(Action::TurnLeft) || players[k].action == Option::Some(
            Action::TurnRight,
        ),
    ensures
        resolve_fold(players, m, mv).2,
    decreases players.len(),
{
    let first = resolve_step(players.first(), m, mv);
    if k == 0 {
        assert(first.2);
        lemma_fold_mv_monotone(players.drop_first(), first.1, first.2);
    } else {
        assert(players.drop_first()[k - 1] == players[k]);
        lemma_fold_turn_moves(players.drop_first(), first.1, first.2, k - 1);
    }
}

/// One full server tick: ingest at most one inbound message, resolve every
/// pending action, respawn shot players, run the round lifecycle, and
/// decide whether to broadcast.
///
/// The broadcast gate is exact in one direction: when `broadcast` is false
/// the world is unchanged, and a tick fed only silence, keepalives, unknown
/// identities or a re-join never broadcasts.
pub fn tick(world: &mut World, inbound: Inbound) -> (out: TickOutcome)
    requires
        old(world).wf(),
        scores_low(old(world).gs.players@),
        actions_clear(old(world).gs.players@),
    ensures
        final(world).wf(),
        scores_low(final(world).gs.players@),
        actions_clear(final(world).gs.players@),
        quiet_inbound(*old(world), inbound) ==> !out.broadcast && out.reply is None
            && !out.new_round,
        !out.broadcast ==> same_world(*final(world), *old(world)),
        out.new_round ==> out.broadcast,
        out.new_round ==> final(world).gs.round == next_round(old(world).gs.round) && final(world).gs.new_round_state && (forall|i: int|
            0 <= i < final(world).gs.players@.len() ==> (
            #[trigger] final(world).gs.players@[i]).score == 0),
        out.new_round ==> (forall|i: int|
            0 <= i < final(world).gs.players@.len() ==> final(world).gs.maze@[cell_index(
                (#[trigger] final(world).gs.players@[i]).pos.x as int,
                final(world).gs.players@[i].pos.y as int,
            )] == Cell::Occupied || no_empty_tile(final(world).gs.maze@)),
        !out.new_round ==> final(world).gs.round == old(world).gs.round && final(world).gs.new_round_state == old(world).gs.new_round_state,
        out.reply is Some ==> ({
            let (endpoint, id) = out.reply->Some_0;
            &&& matches!(inbound, Inbound::Join { .. })
            &&& id == old(world).gs.players@.len()
            &&& final(world).gs.players@.len() == old(world).gs.players@.len() + 1
            &&& final(world).endpoints@ == old(world).endpoints@.push(endpoint)
            &&& out.broadcast
        }),
        out.reply is None ==> final(world).gs.players@.len() == old(world).gs.players@.len()
            && final(world).endpoints@ == old(world).endpoints@,
        // A join from a fresh endpoint is owed a reply whenever the maze
        // still has a spawn tile.
        match inbound {
            Inbound::Join { endpoint, .. } => (!old(world).endpoints@.contains(endpoint)
                && !no_empty_tile(old(world).gs.maze@)) ==> out.reply is Some,
            _ => true,
        },
        // A join alone never ends a round.
        inbound is Join ==> !out.new_round,
        // A turn stored for a known player always broadcasts.
        match inbound {
            Inbound::Update { id, action } => ((action == Action::TurnLeft || action
                == Action::TurnRight) && id < old(world).gs.players@.len()) ==> out.broadcast,
            _ => true,
        },
        // For non-join inputs the tick is the resolution fold followed by
        // the round lifecycle: the round ends exactly when a resolved score
        // reaches the limit, and a tick without kills or transition is the
        // fold itself.
        !(inbound is Join) ==> ({
            let folded = resolve_fold(
                applied_update(old(world).gs.players@, inbound),
                old(world).gs.maze@,
                false,
            );
            &&& out.new_round == exists|i: int|
                0 <= i < folded.0.len() && (#[trigger] folded.0[i]).score >= SCORE_LIMIT
            &&& (folded.2 ==> out.broadcast)
            &&& ((folded.3.len() == 0 && !out.new_round) ==> final(world).gs.players@ == folded.0
                && final(world).gs.maze@ == folded.1 && out.broadcast == folded.2)
        }),
{
    let ghost w0 = *world;
    let ghost inb = inbound;
    let mut send_initial = false;
    let mut reply: Option<(u64, usize)> = None;
    match inbound {
        Inbound::Nothing => {},
        Inbound::Join { endpoint, name } => {
            match world.handle_join(endpoint, name) {
                Some(id) => {
                    send_initial = true;
                    reply = Some((endpoint, id));
                },
                None => {},
            }
        },
        Inbound::Update { id, action } => {
            world.gs.apply_update(id, action);
        },
    }
    let ghost mid_players = world.gs.players@;
    let ghost mid_maze = world.gs.maze@;
    proof {
        if !(inb is Join) {
            assert(mid_players == applied_update(w0.gs.players@, inb));
            assert(mid_maze == w0.gs.maze@);
        }
    }
    let mut moved = false;
    let hits = world.gs.resolve_all(&mut moved);
    let ghost rp = world.gs.players@;
    let ghost rmv = moved;
    world.gs.relocate_victims(&hits, &mut moved);
    let ghost relp = world.gs.players@;
    let new_round = world.gs.update_level();
    if new_round {
        world.gs.start_new_round();
    }
    let broadcast = moved || send_initial;
    proof {
        if !(inb is Join) {
            let folded = resolve_fold(mid_players, mid_maze, false);
            assert(rp == folded.0 && rmv == folded.2 && hits@ == folded.3);
            // Relocation keeps every score, so the round decision reads the
            // fold's scores.
            assert(forall|i: int|
                0 <= i < relp.len() ==> (#[trigger] relp[i]).score == folded.0[i].score);
            assert(new_round == (exists|i: int|
                0 <= i < folded.0.len() && (#[trigger] folded.0[i]).score >= SCORE_LIMIT)) by {
                if exists|i: int|
                    0 <= i < relp.len() && (#[trigger] relp[i]).score >= SCORE_LIMIT {
                    let i = choose|i: int|
                        0 <= i < relp.len() && (#[trigger] relp[i]).score >= SCORE_LIMIT;
                    assert(folded.0[i].score >= SCORE_LIMIT);
                }
                if exists|i: int|
                    0 <= i < folded.0.len() && (#[trigger] folded.0[i]).score >= SCORE_LIMIT {
                    let i = choose|i: int|
                        0 <= i < folded.0.len() && (#[trigger] folded.0[i]).score >= SCORE_LIMIT;
                    assert(relp[i].score >= SCORE_LIMIT);
                }
            }
            match inb {
                Inbound::Update { id, action } => {
                    if (action == Action::TurnLeft || action == Action::TurnRight) && id
                        < w0.gs.players@.len() {
                        assert(mid_players[id as int].action == Option::Some(action));
                        lemma_fold_turn_moves(mid_players, mid_maze, false, id as int);
                    }
                },
                _ => {},
            }
        } else {
            // A join stores no action and keeps every score under the
            // limit, so resolution changes nothing and no round can end.
            assert(actions_clear(world.gs.players@)) by {
                assert(forall|i: int|
                    0 <= i < mid_players.len() ==> (#[trigger] mid_players[i]).action is None);
            }
            assert(!new_round) by {
                assert(forall|i: int|
                    0 <= i < relp.len() ==> (#[trigger] relp[i]).score < SCORE_LIMIT);
            }
        }
    }
    proof {
        if !broadcast {
            assert forall|i: int|
                0 <= i < world.gs.players@.len() implies world.gs.players@[i] == w0.gs.players@[i]
            by {
                assert(w0.gs.players@[i].action is None);
            }
            assert(world.gs.players@ =~= w0.gs.players@);
            assert(world.gs.maze@ =~= w0.gs.maze@);
            assert(world.gs.winner@ =~= w0.gs.winner@);
            assert(world.endpoints@ =~= w0.endpoints@);
        }
    }
    TickOutcome { reply, broadcast, new_round }
}

} // verus!
