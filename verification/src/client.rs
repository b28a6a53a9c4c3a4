//! Client-side session state: the menu state machine's data, the session
//! summary handed to the game loop, and the vertical screen strip the
//! renderer paints columns with.

use vstd::prelude::*;

verus! {

/// Screens of the client's menu state machine.
#[derive(Debug, Clone)]
pub enum AppState {
    StartScreen,
    PlayerNameSelect,
    MainMenu,
    ConnectToServer,
    CreateServer,
    OptionsHelpMenu,
    Lobby,
    Game,
}

/// A game server as the menu lists it.
#[derive(Debug, Clone)]
pub struct Server {
    pub name: String,
    pub id: String,
    pub player_count: i32,
}

/// Everything the menu screens read and edit.
#[derive(Clone)]
pub struct AppStateData {
    pub current_state: AppState,
    pub servers: Vec<Server>,
    pub selected_server: Option<Server>,
    pub player_name: String,
    pub input_ip: String,
}

/// What the game loop needs to know once the menus are done.
#[derive(Debug, Clone)]
pub struct GameSessionInfo {
    pub player_name: String,
    pub created_servers: Vec<Server>,
    pub joined_server: Option<Server>,
    pub server_address: String,
}

/// `b` carries the same server as `a`.
pub open spec fn same_server(a: Server, b: Server) -> bool {
    a.name@ == b.name@ && a.id@ == b.id@ && a.player_count == b.player_count
}

/// Field-by-field copy of one server entry.
fn copy_server(s: &Server) -> (r: Server)
    ensures
        same_server(*s, r),
{
    Server { name: s.name.clone(), id: s.id.clone(), player_count: s.player_count }
}

/// Field-by-field copy of a server list.
fn copy_servers(v: &Vec<Server>) -> (r: Vec<Server>)
    ensures
        r@.len() == v@.len(),
        forall|i: int| 0 <= i < v@.len() ==> same_server(v@[i], #[trigger] r@[i]),
{
    let mut r: Vec<Server> = Vec::new();
    let n = v.len();
    let mut i: usize = 0;
    while i < n
        invariant
            n == v@.len(),
            i <= n,
            r@.len() == i,
            forall|k: int| 0 <= k < i ==> same_server(v@[k], #[trigger] r@[k]),
        decreases n - i,
    {
        r.push(copy_server(&v[i]));
        i = i + 1;
    }
    r
}

impl AppStateData {
    /// Summarise the menu state for the game loop: the chosen name, the
    /// known and selected servers, and the selected server's name as the
    /// address to dial (empty when nothing is selected).
    pub fn gather_session_info(&self) -> (r: GameSessionInfo)
        ensures
            r.player_name@ == self.player_name@,
            r.created_servers@.len() == self.servers@.len(),
            forall|i: int|
                0 <= i < self.servers@.len() ==> same_server(
                    self.servers@[i],
                    #[trigger] r.created_servers@[i],
                ),
            self.selected_server is Some ==> r.joined_server is Some && same_server(
                self.selected_server->Some_0,
                r.joined_server->Some_0,
            ) && r.server_address@ == self.selected_server->Some_0.name@,
            self.selected_server is None ==> r.joined_server is None && r.server_address@.len()
                == 0,
    {
        let (joined, address) = match &self.selected_server {
            Some(s) => (Some(copy_server(s)), s.name.clone()),
            None => (None, String::new()),
        };
        GameSessionInfo {
            player_name: self.player_name.clone(),
            created_servers: copy_servers(&self.servers),
            joined_server: joined,
            server_address: address,
        }
    }
}

/// One vertical strip of the output image, from `y0` up to (excluding) `y1`
/// at column `x`; the renderer draws sky, wall and floor as such strips.
#[derive(Clone, Copy, PartialEq, Eq, Structural, Debug)]
pub struct VerticalLine {
    pub x: i32,
    pub y0: i32,
    pub y1: i32,
}

impl VerticalLine {
    /// Strip at column `x` covering rows `y0..y1`.
    pub fn new(x: i32, y0: i32, y1: i32) -> (l: Self)
        ensures
            l.x == x && l.y0 == y0 && l.y1 == y1,
    {
        Self { x, y0, y1 }
    }
}

} // verus!
