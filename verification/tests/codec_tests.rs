use maze_shooter::cell::Cell;
use maze_shooter::codec::{parse_join, action_to_bytes, action_from_bytes, maze_to_bytes,
    maze_from_bytes, Maze};
use maze_shooter::client::{VerticalLine, AppState, AppStateData, Server};
use maze_shooter::player::Action;
use maze_shooter::{MAZE_WIDTH, MAZE_HEIGHT, MAZE_CELLS};

#[test]
fn join_request_yields_the_name() {
    let msg = b"new_connection:alice".to_vec();
    assert_eq!(parse_join(&msg), Some(b"alice".to_vec()));
}

#[test]
fn join_request_trims_surrounding_whitespace() {
    let msg = b"new_connection:  bob \n".to_vec();
    assert_eq!(parse_join(&msg), Some(b"bob".to_vec()));
}

#[test]
fn join_request_allows_an_empty_name() {
    let msg = b"new_connection:".to_vec();
    assert_eq!(parse_join(&msg), Some(Vec::new()));
    let spaces = b"new_connection:   ".to_vec();
    assert_eq!(parse_join(&spaces), Some(Vec::new()));
}

#[test]
fn non_join_messages_are_rejected() {
    assert_eq!(parse_join(&b"hello".to_vec()), None);
    assert_eq!(parse_join(&b"new_connection".to_vec()), None);
    assert_eq!(parse_join(&b"new_connectionX:bob".to_vec()), None);
    assert_eq!(parse_join(&Vec::new()), None);
}

#[test]
fn action_codes_match_the_wire_protocol() {
    assert_eq!(action_to_bytes(Action::MoveForward), b"W".to_vec());
    assert_eq!(action_to_bytes(Action::MoveBackward), b"S".to_vec());
    assert_eq!(action_to_bytes(Action::StrafeLeft), b"A".to_vec());
    assert_eq!(action_to_bytes(Action::StrafeRight), b"D".to_vec());
    assert_eq!(action_to_bytes(Action::TurnLeft), b"left".to_vec());
    assert_eq!(action_to_bytes(Action::TurnRight), b"right".to_vec());
    assert_eq!(action_to_bytes(Action::Shoot), b"shoot".to_vec());
    assert_eq!(action_to_bytes(Action::Ping), b"ping".to_vec());
}

#[test]
fn every_action_round_trips_through_its_code() {
    let all = [
        Action::TurnLeft,
        Action::TurnRight,
        Action::MoveForward,
        Action::MoveBackward,
        Action::StrafeLeft,
        Action::StrafeRight,
        Action::Shoot,
        Action::Ping,
    ];
    for a in all {
        let code = action_to_bytes(a);
        assert_eq!(action_from_bytes(&code), Some(a));
    }
}

#[test]
fn unknown_action_codes_are_rejected() {
    assert_eq!(action_from_bytes(&b"w".to_vec()), None);
    assert_eq!(action_from_bytes(&b"jump".to_vec()), None);
    assert_eq!(action_from_bytes(&b"lefty".to_vec()), None);
    assert_eq!(action_from_bytes(&Vec::new()), None);
}

#[test]
fn cell_bytes_follow_the_wire_encoding() {
    assert_eq!(Cell::Empty.to_byte(), 0);
    assert_eq!(Cell::Occupied.to_byte(), 1);
    assert_eq!(Cell::Wall.to_byte(), 2);
    assert_eq!(Cell::Breakable.to_byte(), 3);
    assert_eq!(Cell::from_byte(0), Some(Cell::Empty));
    assert_eq!(Cell::from_byte(1), Some(Cell::Occupied));
    assert_eq!(Cell::from_byte(2), Some(Cell::Wall));
    assert_eq!(Cell::from_byte(3), Some(Cell::Breakable));
    assert_eq!(Cell::from_byte(4), None);
    assert_eq!(Cell::from_byte(255), None);
}

#[test]
fn maze_bytes_round_trip() {
    let cells = vec![Cell::Empty, Cell::Occupied, Cell::Wall, Cell::Breakable, Cell::Empty];
    let bytes = maze_to_bytes(&cells);
    assert_eq!(bytes, vec![0, 1, 2, 3, 0]);
    assert_eq!(maze_from_bytes(&bytes), Some(cells));
}

#[test]
fn maze_bytes_with_an_invalid_byte_are_rejected() {
    assert_eq!(maze_from_bytes(&vec![0, 1, 7]), None);
}

#[test]
fn wire_maze_carries_dimensions_and_flat_layout() {
    let cells = maze_shooter::maze::select_maze(1, 1);
    let m = Maze::from_cells(&cells);
    assert_eq!(m.width, MAZE_WIDTH);
    assert_eq!(m.height, MAZE_HEIGHT);
    assert_eq!(m.layout.len(), MAZE_CELLS);
    for i in 0..MAZE_CELLS {
        assert_eq!(m.layout[i], cells[i].to_byte());
    }
}

#[test]
fn vertical_line_keeps_its_coordinates() {
    let l = VerticalLine::new(5, -3, 88);
    assert_eq!(l.x, 5);
    assert_eq!(l.y0, -3);
    assert_eq!(l.y1, 88);
}

#[test]
fn session_info_reflects_the_selected_server() {
    let data = AppStateData {
        current_state: AppState::MainMenu,
        servers: vec![Server { name: String::from("alpha"), id: String::from("a1"), player_count: 2 }],
        selected_server: Some(Server {
            name: String::from("alpha"),
            id: String::from("a1"),
            player_count: 2,
        }),
        player_name: String::from("ann"),
        input_ip: String::from("10.0.0.1"),
    };
    let info = data.gather_session_info();
    assert_eq!(info.player_name, "ann");
    assert_eq!(info.server_address, "alpha");
    assert_eq!(info.created_servers.len(), 1);
    assert_eq!(info.created_servers[0].name, "alpha");
    assert_eq!(info.created_servers[0].player_count, 2);
    let joined = info.joined_server.expect("a selected server is joined");
    assert_eq!(joined.id, "a1");
}

#[test]
fn session_info_without_selection_has_empty_address() {
    let data = AppStateData {
        current_state: AppState::ConnectToServer,
        servers: Vec::new(),
        selected_server: None,
        player_name: String::from("ann"),
        input_ip: String::new(),
    };
    let info = data.gather_session_info();
    assert_eq!(info.server_address, "");
    assert!(info.joined_server.is_none());
}
