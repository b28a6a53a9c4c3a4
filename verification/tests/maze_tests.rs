use maze_shooter::cell::Cell;
use maze_shooter::maze::{generic_maze, adjacent_is, fix_enclosed_areas, add_breakable_walls,
    generate_maze, select_maze};
use maze_shooter::reach::{is_reachable_from_start, is_connected};
use maze_shooter::grid::tile_index;
use maze_shooter::{MAZE_WIDTH, MAZE_HEIGHT, MAZE_CELLS};

fn flat(x: usize, y: usize) -> usize {
    y * MAZE_WIDTH + x
}

fn open_grid() -> Vec<Cell> {
    let mut m = Vec::new();
    for y in 0..MAZE_HEIGHT {
        for x in 0..MAZE_WIDTH {
            if x == 0 || y == 0 || x == MAZE_WIDTH - 1 || y == MAZE_HEIGHT - 1 {
                m.push(Cell::Wall);
            } else {
                m.push(Cell::Empty);
            }
        }
    }
    m
}

fn assert_border_walls(m: &Vec<Cell>) {
    for x in 0..MAZE_WIDTH {
        assert_eq!(m[flat(x, 0)], Cell::Wall);
        assert_eq!(m[flat(x, MAZE_HEIGHT - 1)], Cell::Wall);
    }
    for y in 0..MAZE_HEIGHT {
        assert_eq!(m[flat(0, y)], Cell::Wall);
        assert_eq!(m[flat(MAZE_WIDTH - 1, y)], Cell::Wall);
    }
}

#[test]
fn tile_index_is_row_major() {
    assert_eq!(tile_index(3, 2), 51);
    assert_eq!(tile_index(0, 0), 0);
    assert_eq!(tile_index(23, 23), MAZE_CELLS - 1);
}

#[test]
fn template_has_expected_shape() {
    let m = generic_maze();
    assert_eq!(m.len(), MAZE_CELLS);
    assert_border_walls(&m);
    // Row 1 is an open corridor.
    for x in 1..MAZE_WIDTH - 1 {
        assert_eq!(m[flat(x, 1)], Cell::Empty);
    }
    // Row 2 is a band: walls across columns 2..=21, open at the sides.
    assert_eq!(m[flat(1, 2)], Cell::Empty);
    assert_eq!(m[flat(2, 2)], Cell::Wall);
    assert_eq!(m[flat(21, 2)], Cell::Wall);
    assert_eq!(m[flat(22, 2)], Cell::Empty);
    // Row 12 (the middle) and row 13 follow the lower-half pattern.
    for x in 1..MAZE_WIDTH - 1 {
        assert_eq!(m[flat(x, 12)], Cell::Empty);
    }
    assert_eq!(m[flat(2, 13)], Cell::Wall);
}

#[test]
fn template_is_connected() {
    let m = generic_maze();
    assert!(is_connected(&m));
}

#[test]
fn adjacent_is_checks_both_horizontal_neighbours() {
    let mut m = open_grid();
    m[flat(3, 5)] = Cell::Wall;
    m[flat(5, 5)] = Cell::Wall;
    assert!(adjacent_is(Cell::Wall, 4, 5, &m));
    assert!(!adjacent_is(Cell::Empty, 4, 5, &m));
    m[flat(5, 5)] = Cell::Empty;
    assert!(!adjacent_is(Cell::Wall, 4, 5, &m));
}

#[test]
fn reachability_sees_through_corridors_and_stops_at_walls() {
    let m = open_grid();
    assert!(is_reachable_from_start(&m, 22, 22));
    assert!(is_reachable_from_start(&m, 1, 1));

    // Seal off (5, 5) completely.
    let mut sealed = open_grid();
    sealed[flat(5, 4)] = Cell::Wall;
    sealed[flat(5, 6)] = Cell::Wall;
    sealed[flat(4, 5)] = Cell::Wall;
    sealed[flat(6, 5)] = Cell::Wall;
    assert!(!is_reachable_from_start(&sealed, 5, 5));
    assert!(!is_connected(&sealed));
    assert!(is_connected(&m));
}

#[test]
fn fix_enclosed_areas_reopens_sealed_cells() {
    let mut m = open_grid();
    m[flat(5, 4)] = Cell::Wall;
    m[flat(5, 6)] = Cell::Wall;
    m[flat(4, 5)] = Cell::Wall;
    m[flat(6, 5)] = Cell::Wall;
    assert!(!is_reachable_from_start(&m, 5, 5));
    fix_enclosed_areas(&mut m);
    assert!(is_reachable_from_start(&m, 5, 5));
    assert_border_walls(&m);
}

#[test]
fn add_breakable_walls_converts_only_walls() {
    let mut m = generic_maze();
    let before = m.clone();
    add_breakable_walls(&mut m, 3);
    let mut converted = 0;
    for i in 0..MAZE_CELLS {
        if m[i] != before[i] {
            assert_eq!(before[i], Cell::Wall);
            assert_eq!(m[i], Cell::Breakable);
            converted += 1;
        }
    }
    assert_eq!(converted, 6);
    assert_border_walls(&m);
}

#[test]
fn generated_maze_is_connected_with_solid_border() {
    for level in 1..=4 {
        for players in [1, 2, 4] {
            let m = select_maze(level, players);
            assert_eq!(m.len(), MAZE_CELLS);
            assert_border_walls(&m);
            assert!(is_connected(&m));
            for y in 0..MAZE_HEIGHT {
                for x in 0..MAZE_WIDTH {
                    if m[flat(x, y)] == Cell::Empty {
                        assert!(is_reachable_from_start(&m, y, x));
                    }
                }
            }
        }
    }
}

#[test]
fn generate_maze_honours_difficulty_parameter() {
    let m = generate_maze(MAZE_WIDTH, MAZE_HEIGHT, 3);
    assert_eq!(m.len(), MAZE_CELLS);
    assert_border_walls(&m);
    assert!(is_connected(&m));
}

#[test]
fn generated_mazes_vary() {
    // Generation is random: two mazes at the same difficulty almost surely
    // differ somewhere, which also shows the randomness source is live.
    let a = select_maze(1, 1);
    let b = select_maze(1, 1);
    let c = select_maze(1, 1);
    assert!(a != b || b != c || a != c);
}

#[test]
fn generated_maze_has_no_player_markers_and_open_start() {
    for level in 1..=4 {
        let m = select_maze(level, 2);
        for i in 0..MAZE_CELLS {
            assert_ne!(m[i], Cell::Occupied);
        }
        assert_eq!(m[flat(1, 1)], Cell::Empty);
    }
}

#[test]
fn sprinkling_always_leaves_destructible_cover_when_a_wall_exists() {
    // A maze with a single interior wall: whatever the random sampling
    // does, that wall must end up breakable.
    let mut m = open_grid();
    m[flat(10, 10)] = Cell::Wall;
    add_breakable_walls(&mut m, 1);
    assert_eq!(m[flat(10, 10)], Cell::Breakable);
}

#[test]
fn sprinkling_a_maze_without_walls_changes_nothing() {
    let mut m = open_grid();
    let before = m.clone();
    add_breakable_walls(&mut m, 1);
    assert_eq!(m, before);
}
