use maze_shooter::cell::Cell;
use maze_shooter::player::{Player, Position, Action};
use maze_shooter::{MAZE_WIDTH, MAZE_HEIGHT};

fn flat(x: usize, y: usize) -> usize {
    y * MAZE_WIDTH + x
}

fn open_grid() -> Vec<Cell> {
    let mut m = Vec::new();
    for y in 0..MAZE_HEIGHT {
        for x in 0..MAZE_WIDTH {
            if x == 0 || y == 0 || x == MAZE_WIDTH - 1 || y == MAZE_HEIGHT - 1 {
                m.push(Cell::Wall);
            } else {
                m.push(Cell::Empty);
            }
        }
    }
    m
}

fn mk_player(x: usize, y: usize, angle: u8, action: Option<Action>) -> Player {
    Player {
        id: 0,
        pos: Position { x, y },
        angle,
        action,
        name: String::from("tester"),
        score: 0,
    }
}

#[test]
fn new_player_faces_positive_x_with_no_action() {
    let p = Player::new(Position::new(2, 3), 7, String::from("ann"));
    assert_eq!(p.pos, Position { x: 2, y: 3 });
    assert_eq!(p.id, 7);
    assert_eq!(p.angle, 0);
    assert!(p.action.is_none());
    assert_eq!(p.score, 0);
    assert_eq!(p.name, "ann");
}

#[test]
fn default_position_is_unit_x_direction() {
    let d = Position::default();
    assert_eq!(d, Position { x: 1, y: 0 });
}

#[test]
fn move_forward_advances_exactly_one_tile_and_swaps_cells() {
    let mut maze = open_grid();
    maze[flat(2, 2)] = Cell::Occupied;
    let mut p = mk_player(2, 2, 0, Some(Action::MoveForward));
    let mut moved = false;
    let hit = p.input(&mut maze, &mut moved);
    assert_eq!(p.pos, Position { x: 3, y: 2 });
    assert_eq!(maze[flat(2, 2)], Cell::Empty);
    assert_eq!(maze[flat(3, 2)], Cell::Occupied);
    assert!(moved);
    assert!(hit.is_none());
    assert!(p.action.is_none());
}

#[test]
fn move_into_wall_cancels_but_consumes_action() {
    let mut maze = open_grid();
    maze[flat(2, 2)] = Cell::Occupied;
    maze[flat(3, 2)] = Cell::Wall;
    let before = maze.clone();
    let mut p = mk_player(2, 2, 0, Some(Action::MoveForward));
    let mut moved = false;
    let hit = p.input(&mut maze, &mut moved);
    assert_eq!(p.pos, Position { x: 2, y: 2 });
    assert_eq!(maze, before);
    assert!(!moved);
    assert!(hit.is_none());
    assert!(p.action.is_none());
}

#[test]
fn movement_respects_facing_and_strafe_directions() {
    // Facing +x: backward goes -x, strafe right goes +y, strafe left -y.
    let cases = [
        (Action::MoveBackward, 4usize, 5usize),
        (Action::StrafeRight, 5, 6),
        (Action::StrafeLeft, 5, 4),
    ];
    for (action, ex, ey) in cases {
        let mut maze = open_grid();
        maze[flat(5, 5)] = Cell::Occupied;
        let mut p = mk_player(5, 5, 0, Some(action));
        let mut moved = false;
        p.input(&mut maze, &mut moved);
        assert_eq!(p.pos, Position { x: ex, y: ey });
        assert!(moved);
    }
}

#[test]
fn turn_left_then_right_restores_facing() {
    let mut maze = open_grid();
    maze[flat(2, 2)] = Cell::Occupied;
    for start in 0u8..4 {
        let mut p = mk_player(2, 2, start, Some(Action::TurnLeft));
        let mut moved = false;
        p.input(&mut maze, &mut moved);
        assert!(moved);
        assert_ne!(p.angle, start);
        p.action = Some(Action::TurnRight);
        p.input(&mut maze, &mut moved);
        assert_eq!(p.angle, start);
        assert_eq!(p.pos, Position { x: 2, y: 2 });
    }
}

#[test]
fn turns_wrap_around_the_quarter_circle() {
    let mut maze = open_grid();
    maze[flat(2, 2)] = Cell::Occupied;
    let mut p = mk_player(2, 2, 0, Some(Action::TurnLeft));
    let mut moved = false;
    p.input(&mut maze, &mut moved);
    assert_eq!(p.angle, 3);
    p.action = Some(Action::TurnRight);
    p.input(&mut maze, &mut moved);
    assert_eq!(p.angle, 0);
}

#[test]
fn shot_destroys_breakable_two_tiles_ahead_without_scoring() {
    let mut maze = open_grid();
    maze[flat(2, 2)] = Cell::Occupied;
    maze[flat(4, 2)] = Cell::Breakable;
    let mut p = mk_player(2, 2, 0, Some(Action::Shoot));
    let mut moved = false;
    let hit = p.input(&mut maze, &mut moved);
    assert_eq!(maze[flat(4, 2)], Cell::Empty);
    assert_eq!(p.score, 0);
    assert_eq!(hit, Some(flat(4, 2)));
    assert!(moved);
    assert_eq!(p.pos, Position { x: 2, y: 2 });
}

#[test]
fn shot_kills_occupant_and_scores() {
    let mut maze = open_grid();
    maze[flat(2, 2)] = Cell::Occupied;
    maze[flat(6, 2)] = Cell::Occupied;
    let mut p = mk_player(2, 2, 0, Some(Action::Shoot));
    let mut moved = false;
    let hit = p.input(&mut maze, &mut moved);
    assert_eq!(maze[flat(6, 2)], Cell::Empty);
    assert_eq!(p.score, 1);
    assert_eq!(hit, Some(flat(6, 2)));
    assert!(moved);
}

#[test]
fn shot_is_soaked_by_the_first_wall() {
    let mut maze = open_grid();
    maze[flat(2, 2)] = Cell::Occupied;
    maze[flat(3, 2)] = Cell::Wall;
    maze[flat(4, 2)] = Cell::Breakable;
    let mut p = mk_player(2, 2, 0, Some(Action::Shoot));
    let mut moved = false;
    let hit = p.input(&mut maze, &mut moved);
    assert_eq!(maze[flat(3, 2)], Cell::Wall);
    assert_eq!(maze[flat(4, 2)], Cell::Breakable);
    assert_eq!(p.score, 0);
    assert!(hit.is_none());
    assert!(!moved);
    assert!(p.action.is_none());
}

#[test]
fn shot_runs_out_of_range_without_effect() {
    let mut maze = open_grid();
    maze[flat(2, 2)] = Cell::Occupied;
    maze[flat(9, 2)] = Cell::Breakable;
    let mut p = mk_player(2, 2, 0, Some(Action::Shoot));
    let mut moved = false;
    let hit = p.input(&mut maze, &mut moved);
    assert_eq!(maze[flat(9, 2)], Cell::Breakable);
    assert!(hit.is_none());
    assert!(!moved);
}

#[test]
fn shot_reaches_the_last_tile_in_range() {
    let mut maze = open_grid();
    maze[flat(2, 2)] = Cell::Occupied;
    maze[flat(8, 2)] = Cell::Breakable;
    let mut p = mk_player(2, 2, 0, Some(Action::Shoot));
    let mut moved = false;
    let hit = p.input(&mut maze, &mut moved);
    assert_eq!(maze[flat(8, 2)], Cell::Empty);
    assert_eq!(hit, Some(flat(8, 2)));
}

#[test]
fn shot_follows_the_facing_direction() {
    let mut maze = open_grid();
    maze[flat(5, 5)] = Cell::Occupied;
    maze[flat(5, 7)] = Cell::Breakable;
    let mut p = mk_player(5, 5, 1, Some(Action::Shoot));
    let mut moved = false;
    let hit = p.input(&mut maze, &mut moved);
    assert_eq!(maze[flat(5, 7)], Cell::Empty);
    assert_eq!(hit, Some(flat(5, 7)));
}

#[test]
fn ping_changes_nothing_but_is_consumed() {
    let mut maze = open_grid();
    maze[flat(2, 2)] = Cell::Occupied;
    let before = maze.clone();
    let mut p = mk_player(2, 2, 0, Some(Action::Ping));
    let mut moved = false;
    let hit = p.input(&mut maze, &mut moved);
    assert_eq!(maze, before);
    assert!(!moved);
    assert!(hit.is_none());
    assert!(p.action.is_none());
    assert_eq!(p.pos, Position { x: 2, y: 2 });
}

#[test]
fn no_action_is_a_no_op() {
    let mut maze = open_grid();
    maze[flat(2, 2)] = Cell::Occupied;
    let before = maze.clone();
    let mut p = mk_player(2, 2, 0, None);
    let mut moved = false;
    let hit = p.input(&mut maze, &mut moved);
    assert_eq!(maze, before);
    assert!(!moved);
    assert!(hit.is_none());
}
