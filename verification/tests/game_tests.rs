use maze_shooter::cell::Cell;
use maze_shooter::game::{GameState, World, Inbound, tick};
use maze_shooter::player::{Player, Position, Action};
use maze_shooter::{MAZE_WIDTH, MAZE_HEIGHT, SCORE_LIMIT, ROUND_MAX};

fn flat(x: usize, y: usize) -> usize {
    y * MAZE_WIDTH + x
}

fn open_grid() -> Vec<Cell> {
    let mut m = Vec::new();
    for y in 0..MAZE_HEIGHT {
        for x in 0..MAZE_WIDTH {
            if x == 0 || y == 0 || x == MAZE_WIDTH - 1 || y == MAZE_HEIGHT - 1 {
                m.push(Cell::Wall);
            } else {
                m.push(Cell::Empty);
            }
        }
    }
    m
}

fn mk_player(id: usize, x: usize, y: usize, score: u32, name: &str) -> Player {
    Player {
        id,
        pos: Position { x, y },
        angle: 0,
        action: None,
        name: name.to_string(),
        score,
    }
}

fn two_player_world(shooter_score: u32) -> World {
    let mut maze = open_grid();
    maze[flat(2, 2)] = Cell::Occupied;
    maze[flat(4, 2)] = Cell::Occupied;
    let players = vec![mk_player(0, 2, 2, shooter_score, "ann"), mk_player(1, 4, 2, 0, "bob")];
    World {
        gs: GameState {
            players,
            maze,
            round: 1,
            new_round_state: false,
            winner: String::new(),
        },
        endpoints: vec![100, 101],
    }
}

#[test]
fn fresh_game_state_has_connected_maze_and_round_one() {
    let gs = GameState::new();
    assert_eq!(gs.players.len(), 0);
    assert_eq!(gs.round, 1);
    assert!(!gs.new_round_state);
    assert_eq!(gs.winner, "");
    assert!(maze_shooter::reach::is_connected(&gs.maze));
}

#[test]
fn join_assigns_sequential_ids_and_marks_spawn_tile() {
    let mut w = World::new();
    let out = tick(&mut w, Inbound::Join { endpoint: 7, name: String::from("ann") });
    assert_eq!(out.reply, Some((7, 0)));
    assert!(out.broadcast);
    assert_eq!(w.gs.players.len(), 1);
    assert_eq!(w.endpoints, vec![7]);
    let p = &w.gs.players[0];
    assert_eq!(p.id, 0);
    assert_eq!(p.name, "ann");
    assert_eq!(p.score, 0);
    assert_eq!(w.gs.maze[flat(p.pos.x, p.pos.y)], Cell::Occupied);

    let out2 = tick(&mut w, Inbound::Join { endpoint: 8, name: String::from("bob") });
    assert_eq!(out2.reply, Some((8, 1)));
    assert_eq!(w.gs.players.len(), 2);
    assert_eq!(w.gs.players[1].id, 1);
}

#[test]
fn repeated_join_from_same_endpoint_is_ignored() {
    let mut w = World::new();
    let first = tick(&mut w, Inbound::Join { endpoint: 7, name: String::from("ann") });
    assert_eq!(first.reply, Some((7, 0)));
    let again = tick(&mut w, Inbound::Join { endpoint: 7, name: String::from("ann") });
    assert_eq!(again.reply, None);
    assert!(!again.broadcast);
    assert_eq!(w.gs.players.len(), 1);
    assert_eq!(w.endpoints, vec![7]);
    assert_eq!(w.gs.players[0].id, 0);
}

#[test]
fn join_is_refused_when_the_maze_is_full() {
    let mut w = World::new();
    w.gs.maze = vec![Cell::Wall; MAZE_WIDTH * MAZE_HEIGHT];
    let out = tick(&mut w, Inbound::Join { endpoint: 7, name: String::from("ann") });
    assert_eq!(out.reply, None);
    assert_eq!(w.gs.players.len(), 0);
    assert!(!out.broadcast);
}

#[test]
fn ping_only_tick_broadcasts_nothing_and_changes_nothing() {
    let mut w = two_player_world(0);
    let maze_before = w.gs.maze.clone();
    let out = tick(&mut w, Inbound::Update { id: 0, action: Action::Ping });
    assert!(!out.broadcast);
    assert!(!out.new_round);
    assert_eq!(out.reply, None);
    assert_eq!(w.gs.maze, maze_before);
    assert_eq!(w.gs.players.len(), 2);
    assert_eq!(w.gs.players[0].pos, Position { x: 2, y: 2 });
    assert_eq!(w.gs.players[1].pos, Position { x: 4, y: 2 });
    assert_eq!(w.gs.round, 1);
}

#[test]
fn empty_tick_broadcasts_nothing() {
    let mut w = two_player_world(0);
    let out = tick(&mut w, Inbound::Nothing);
    assert!(!out.broadcast);
}

#[test]
fn unknown_player_id_update_is_dropped() {
    let mut w = two_player_world(0);
    let out = tick(&mut w, Inbound::Update { id: 9, action: Action::MoveForward });
    assert!(!out.broadcast);
    assert_eq!(w.gs.players[0].pos, Position { x: 2, y: 2 });
}

#[test]
fn movement_update_broadcasts() {
    let mut w = two_player_world(0);
    let out = tick(&mut w, Inbound::Update { id: 0, action: Action::MoveBackward });
    assert!(out.broadcast);
    assert_eq!(w.gs.players[0].pos, Position { x: 1, y: 2 });
}

#[test]
fn blocked_movement_does_not_broadcast() {
    let mut w = two_player_world(0);
    w.gs.maze[flat(1, 2)] = Cell::Wall;
    let out = tick(&mut w, Inbound::Update { id: 0, action: Action::MoveBackward });
    assert!(!out.broadcast);
    assert_eq!(w.gs.players[0].pos, Position { x: 2, y: 2 });
}

#[test]
fn turn_update_broadcasts_even_without_position_change() {
    let mut w = two_player_world(0);
    let out = tick(&mut w, Inbound::Update { id: 0, action: Action::TurnLeft });
    assert!(out.broadcast);
    assert_eq!(w.gs.players[0].pos, Position { x: 2, y: 2 });
    assert_eq!(w.gs.players[0].angle, 3);
}

#[test]
fn kill_scores_and_relocates_the_victim() {
    let mut w = two_player_world(0);
    let out = tick(&mut w, Inbound::Update { id: 0, action: Action::Shoot });
    assert!(out.broadcast);
    assert!(!out.new_round);
    assert_eq!(w.gs.players[0].score, 1);
    // The victim was respawned onto a tile now marked occupied.
    let v = &w.gs.players[1];
    assert_eq!(w.gs.maze[flat(v.pos.x, v.pos.y)], Cell::Occupied);
    assert_eq!(v.score, 0);
    assert_eq!(v.name, "bob");
}

#[test]
fn reaching_the_score_limit_starts_a_new_round() {
    let mut w = two_player_world(SCORE_LIMIT - 1);
    let out = tick(&mut w, Inbound::Update { id: 0, action: Action::Shoot });
    assert!(out.new_round);
    assert!(out.broadcast);
    assert_eq!(w.gs.round, 2);
    assert!(w.gs.new_round_state);
    assert_eq!(w.gs.winner, "ann");
    for p in &w.gs.players {
        assert_eq!(p.score, 0);
    }
    assert!(maze_shooter::reach::is_connected(&w.gs.maze) || {
        // Spawn marking overlays the fresh maze; strip the players to check
        // the generated layout itself.
        let mut bare = w.gs.maze.clone();
        for p in &w.gs.players {
            bare[flat(p.pos.x, p.pos.y)] = Cell::Empty;
        }
        maze_shooter::reach::is_connected(&bare)
    });

    w.gs.end_round_pause();
    assert!(!w.gs.new_round_state);
    assert_eq!(w.gs.winner, "");
    assert_eq!(w.gs.round, 2);
}

#[test]
fn round_counter_wraps_past_the_last_round() {
    let mut gs = GameState {
        players: vec![mk_player(0, 2, 2, SCORE_LIMIT, "ann")],
        maze: open_grid(),
        round: ROUND_MAX,
        new_round_state: false,
        winner: String::new(),
    };
    let new_round = gs.update_level();
    assert!(new_round);
    assert_eq!(gs.round, 1);
    assert_eq!(gs.winner, "ann");
}

#[test]
fn update_level_without_winner_changes_nothing() {
    let mut gs = GameState {
        players: vec![mk_player(0, 2, 2, SCORE_LIMIT - 1, "ann")],
        maze: open_grid(),
        round: 2,
        new_round_state: false,
        winner: String::new(),
    };
    let new_round = gs.update_level();
    assert!(!new_round);
    assert_eq!(gs.round, 2);
    assert_eq!(gs.winner, "");
}

#[test]
fn update_level_names_the_first_winner() {
    let mut gs = GameState {
        players: vec![
            mk_player(0, 2, 2, 1, "ann"),
            mk_player(1, 4, 2, SCORE_LIMIT, "bob"),
            mk_player(2, 6, 2, SCORE_LIMIT, "cid"),
        ],
        maze: open_grid(),
        round: 1,
        new_round_state: false,
        winner: String::new(),
    };
    assert!(gs.update_level());
    assert_eq!(gs.winner, "bob");
    assert_eq!(gs.round, 2);
}

#[test]
fn last_update_before_a_tick_wins() {
    let mut w = two_player_world(0);
    w.gs.apply_update(0, Action::MoveForward);
    w.gs.apply_update(0, Action::MoveBackward);
    assert_eq!(w.gs.players[0].action, Some(Action::MoveBackward));
}

#[test]
fn ping_is_never_stored_as_a_pending_action() {
    let mut w = two_player_world(0);
    w.gs.apply_update(0, Action::Ping);
    assert_eq!(w.gs.players[0].action, None);
}

#[test]
fn relocating_an_unoccupied_tile_changes_nothing() {
    let mut w = two_player_world(0);
    let maze_before = w.gs.maze.clone();
    let mut moved = false;
    w.gs.relocate_victim(flat(10, 10), &mut moved);
    assert!(!moved);
    assert_eq!(w.gs.maze, maze_before);
    assert_eq!(w.gs.players[0].pos, Position { x: 2, y: 2 });
    assert_eq!(w.gs.players[1].pos, Position { x: 4, y: 2 });
}

#[test]
fn relocating_a_vacated_tile_respawns_its_player() {
    let mut w = two_player_world(0);
    // The victim's tile was just vacated by a hit.
    w.gs.maze[flat(4, 2)] = Cell::Empty;
    let mut moved = false;
    w.gs.relocate_victim(flat(4, 2), &mut moved);
    assert!(moved);
    let v = &w.gs.players[1];
    assert_eq!(w.gs.maze[flat(v.pos.x, v.pos.y)], Cell::Occupied);
    assert_eq!(w.gs.players[0].pos, Position { x: 2, y: 2 });
}
