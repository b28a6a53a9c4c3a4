//! The text wire protocol: join requests, action codes, and the byte
//! encoding of the maze carried by every snapshot.
//!
//! Datagrams are UTF-8 text; this module frames and checks their bytes.
//! Serialisation of whole snapshots (JSON) lives with the transport, which
//! hands byte strings in and out of these functions.

use vstd::prelude::*;
use crate::cell::{Cell, spec_cell_byte, spec_cell_from_byte};
use crate::grid::grid_sized;
use crate::player::Action;
use crate::MAZE_WIDTH;
use crate::MAZE_HEIGHT;
use crate::MAZE_CELLS;

verus! {

/// ASCII whitespace, as trimmed from player names.
pub open spec fn is_space(b: u8) -> bool {
    b == 32 || b == 9 || b == 10 || b == 13
}

/// The byte sequence without its leading ASCII whitespace.
pub open spec fn trim_front(s: Seq<u8>) -> Seq<u8>
    decreases s.len(),
{
    if s.len() > 0 && is_space(s.first()) {
        trim_front(s.drop_first())
    } else {
        s
    }
}

/// The byte sequence without its trailing ASCII whitespace.
pub open spec fn trim_back(s: Seq<u8>) -> Seq<u8>
    decreases s.len(),
{
    if s.len() > 0 && is_space(s.last()) {
        trim_back(s.drop_last())
    } else {
        s
    }
}

/// The byte sequence without surrounding ASCII whitespace.
pub open spec fn trimmed(s: Seq<u8>) -> Seq<u8> {
    trim_back(trim_front(s))
}

proof fn lemma_trim_front_skip(s: Seq<u8>, k: int)
    requires
        0 <= k <= s.len(),
        forall|i: int| 0 <= i < k ==> is_space(#[trigger] s[i]),
        k == s.len() || !is_space(s[k]),
    ensures
        trim_front(s) == s.skip(k),
    decreases k,
{
    if k == 0 {
        assert(s.skip(0) =~= s);
    } else {
        let t = s.drop_first();
        assert(forall|i: int| 0 <= i < k - 1 ==> is_space(#[trigger] t[i]));
        lemma_trim_front_skip(t, k - 1);
        assert(t.skip(k - 1) =~= s.skip(k));
    }
}

proof fn lemma_trim_back_take(s: Seq<u8>, k: int)
    requires
        0 <= k <= s.len(),
        forall|i: int| k <= i < s.len() ==> is_space(#[trigger] s[i]),
        k == 0 || !is_space(s[k - 1]),
    ensures
        trim_back(s) == s.take(k),
    decreases s.len(),
{
    if k == s.len() {
        assert(s.take(k) =~= s);
    } else {
        let t = s.drop_last();
        lemma_trim_back_take(t, k);
        assert(t.take(k) =~= s.take(k));
    }
}

/// The literal prefix of a join request: the bytes of `new_connection:`.
pub open spec fn join_prefix() -> Seq<u8> {
    seq![
        'n' as u8,
        'e' as u8,
        'w' as u8,
        '_' as u8,
        'c' as u8,
        'o' as u8,
        'n' as u8,
        'n' as u8,
        'e' as u8,
        'c' as u8,
        't' as u8,
        'i' as u8,
        'o' as u8,
        'n' as u8,
        ':' as u8,
    ]
}

/// What a join request parses to: the trimmed name after the literal
/// prefix, or nothing when the prefix does not match.
pub open spec fn spec_parse_join(s: Seq<u8>) -> Option<Seq<u8>> {
    if s.len() >= join_prefix().len() && s.subrange(0, join_prefix().len() as int)
        == join_prefix() {
        Option::Some(trimmed(s.skip(join_prefix().len() as int)))
    } else {
        Option::None
    }
}

fn is_space_byte(b: u8) -> (r: bool)
    ensures
        r == is_space(b),
{
    b == 32 || b == 9 || b == 10 || b == 13
}

fn join_prefix_bytes() -> (v: Vec<u8>)
    ensures
        v@ == join_prefix(),
{
    let mut v: Vec<u8> = Vec::new();
    v.push('n' as u8);
    v.push('e' as u8);
    v.push('w' as u8);
    v.push('_' as u8);
    v.push('c' as u8);
    v.push('o' as u8);
    v.push('n' as u8);
    v.push('n' as u8);
    v.push('e' as u8);
    v.push('c' as u8);
    v.push('t' as u8);
    v.push('i' as u8);
    v.push('o' as u8);
    v.push('n' as u8);
    v.push(':' as u8);
    proof {
        assert(v@ =~= join_prefix());
    }
    v
}

/// Parse a join request datagram: on the literal `new_connection:` prefix,
/// the rest of the message, trimmed of surrounding ASCII whitespace, is the
/// new player's name.
pub fn parse_join(msg: &Vec<u8>) -> (r: Option<Vec<u8>>)
    ensures
        match spec_parse_join(msg@) {
            Option::Some(name) => r is Some && r->Some_0@ == name,
            Option::None => r is None,
        },
{
    let prefix = join_prefix_bytes();
    if msg.len() < prefix.len() {
        return None;
    }
    let mut i: usize = 0;
    while i < prefix.len()
        invariant
            prefix@ == join_prefix(),
            msg@.len() >= prefix@.len(),
            i <= prefix@.len(),
            forall|k: int| 0 <= k < i ==> msg@[k] == join_prefix()[k],
        decreases prefix@.len() - i,
    {
        if msg[i] != prefix[i] {
            proof {
                assert(msg@.subrange(0, join_prefix().len() as int)[i as int] != join_prefix()[i as int]);
            }
            return None;
        }
        i = i + 1;
    }
    proof {
        assert(msg@.subrange(0, join_prefix().len() as int) =~= join_prefix());
    }

    let n = msg.len();
    let mut lo: usize = prefix.len();
    while lo < n && is_space_byte(msg[lo])
        invariant
            n == msg@.len(),
            prefix@.len() <= lo <= n,
            forall|k: int| prefix@.len() <= k < lo ==> is_space(#[trigger] msg@[k]),
        decreases n - lo,
    {
        lo = lo + 1;
    }
    let mut hi: usize = n;
    while hi > lo && is_space_byte(msg[hi - 1])
        invariant
            n == msg@.len(),
            lo <= hi <= n,
            forall|k: int| hi <= k < n ==> is_space(#[trigger] msg@[k]),
        decreases hi,
    {
        hi = hi - 1;
    }

    let mut name: Vec<u8> = Vec::new();
    let mut k: usize = lo;
    while k < hi
        invariant
            n == msg@.len(),
            lo <= k <= hi <= n,
            name@ =~= msg@.subrange(lo as int, k as int),
        decreases hi - k,
    {
        name.push(msg[k]);
        k = k + 1;
    }

    proof {
        let plen = join_prefix().len() as int;
        let rest = msg@.skip(plen);
        assert(forall|i: int| 0 <= i < rest.len() ==> rest[i] == msg@[plen + i]);
        lemma_trim_front_skip(rest, lo - plen);
        let front = rest.skip(lo - plen);
        assert(forall|i: int| 0 <= i < front.len() ==> front[i] == msg@[lo + i]);
        lemma_trim_back_take(front, hi - lo);
        assert(trimmed(rest) == front.take(hi - lo));
        assert(name@ =~= front.take(hi - lo));
    }
    Some(name)
}

/// The wire code of one action, as the update message carries it.
pub open spec fn action_code(a: Action) -> Seq<u8> {
    match a {
        Action::MoveForward => seq!['W' as u8],
        Action::MoveBackward => seq!['S' as u8],
        Action::StrafeLeft => seq!['A' as u8],
        Action::StrafeRight => seq!['D' as u8],
        Action::TurnLeft => seq!['l' as u8, 'e' as u8, 'f' as u8, 't' as u8],
        Action::TurnRight => seq!['r' as u8, 'i' as u8, 'g' as u8, 'h' as u8, 't' as u8],
        Action::Shoot => seq!['s' as u8, 'h' as u8, 'o' as u8, 'o' as u8, 't' as u8],
        Action::Ping => seq!['p' as u8, 'i' as u8, 'n' as u8, 'g' as u8],
    }
}

/// The action a wire code names; anything else is rejected, never guessed.
pub open spec fn spec_action_from_bytes(s: Seq<u8>) -> Option<Action> {
    if s == action_code(Action::MoveForward) {
        Option::Some(Action::MoveForward)
    } else if s == action_code(Action::MoveBackward) {
        Option::Some(Action::MoveBackward)
    } else if s == action_code(Action::StrafeLeft) {
        Option::Some(Action::StrafeLeft)
    } else if s == action_code(Action::StrafeRight) {
        Option::Some(Action::StrafeRight)
    } else if s == action_code(Action::TurnLeft) {
        Option::Some(Action::TurnLeft)
    } else if s == action_code(Action::TurnRight) {
        Option::Some(Action::TurnRight)
    } else if s == action_code(Action::Shoot) {
        Option::Some(Action::Shoot)
    } else if s == action_code(Action::Ping) {
        Option::Some(Action::Ping)
    } else {
        Option::None
    }
}

/// Every action's wire code parses back to that action: the codes are
/// pairwise distinct and the parser honours them all.
pub proof fn lemma_action_code_round_trip(a: Action)
    ensures
        spec_action_from_bytes(action_code(a)) == Option::Some(a),
{
    match a {
        Action::MoveForward => {},
        Action::MoveBackward => {
            assert(action_code(Action::MoveBackward) != action_code(Action::MoveForward)) by {
                assert(action_code(Action::MoveBackward)[0] != action_code(
                    Action::MoveForward,
                )[0]);
            }
        },
        Action::StrafeLeft => {
            assert(action_code(Action::StrafeLeft)[0] == 'A' as u8);
        },
        Action::StrafeRight => {
            assert(action_code(Action::StrafeRight)[0] == 'D' as u8);
        },
        Action::TurnLeft => {
            assert(action_code(Action::TurnLeft).len() == 4);
            assert(action_code(Action::TurnLeft)[0] == 'l' as u8);
        },
        Action::TurnRight => {
            assert(action_code(Action::TurnRight).len() == 5);
            assert(action_code(Action::TurnRight)[0] == 'r' as u8);
        },
        Action::Shoot => {
            assert(action_code(Action::Shoot).len() == 5);
            assert(action_code(Action::Shoot)[0] == 's' as u8);
        },
        Action::Ping => {
            assert(action_code(Action::Ping).len() == 4);
            assert(action_code(Action::Ping)[0] == 'p' as u8);
        },
    }
}

/// Encode one action as its wire code.
pub fn action_to_bytes(a: Action) -> (v: Vec<u8>)
    ensures
        v@ == action_code(a),
{
    let mut v: Vec<u8> = Vec::new();
    match a {
        Action::MoveForward => {
            v.push('W' as u8);
        },
        Action::MoveBackward => {
            v.push('S' as u8);
        },
        Action::StrafeLeft => {
            v.push('A' as u8);
        },
        Action::StrafeRight => {
            v.push('D' as u8);
        },
        Action::TurnLeft => {
            v.push('l' as u8);
            v.push('e' as u8);
            v.push('f' as u8);
            v.push('t' as u8);
        },
        Action::TurnRight => {
            v.push('r' as u8);
            v.push('i' as u8);
            v.push('g' as u8);
            v.push('h' as u8);
            v.push('t' as u8);
        },
        Action::Shoot => {
            v.push('s' as u8);
            v.push('h' as u8);
            v.push('o' as u8);
            v.push('o' as u8);
            v.push('t' as u8);
        },
        Action::Ping => {
            v.push('p' as u8);
            v.push('i' as u8);
            v.push('n' as u8);
            v.push('g' as u8);
        },
    }
    proof {
        assert(v@ =~= action_code(a));
    }
    v
}

/// Decode a wire action code; unknown codes are rejected explicitly.
pub fn action_from_bytes(b: &Vec<u8>) -> (r: Option<Action>)
    ensures
        r == spec_action_from_bytes(b@),
{
    let r = if b.len() == 1 {
        let c = b[0];
        if c == 'W' as u8 {
            Some(Action::MoveForward)
        } else if c == 'S' as u8 {
            Some(Action::MoveBackward)
        } else if c == 'A' as u8 {
            Some(Action::StrafeLeft)
        } else if c == 'D' as u8 {
            Some(Action::StrafeRight)
        } else {
            None
        }
    } else if b.len() == 4 {
        if b[0] == 'l' as u8 && b[1] == 'e' as u8 && b[2] == 'f' as u8 && b[3] == 't' as u8 {
            Some(Action::TurnLeft)
        } else if b[0] == 'p' as u8 && b[1] == 'i' as u8 && b[2] == 'n' as u8 && b[3]
            == 'g' as u8 {
            Some(Action::Ping)
        } else {
            None
        }
    } else if b.len() == 5 {
        if b[0] == 'r' as u8 && b[1] == 'i' as u8 && b[2] == 'g' as u8 && b[3] == 'h' as u8 && b[4]
            == 't' as u8 {
            Some(Action::TurnRight)
        } else if b[0] == 's' as u8 && b[1] == 'h' as u8 && b[2] == 'o' as u8 && b[3] == 'o' as u8
            && b[4] == 't' as u8 {
            Some(Action::Shoot)
        } else {
            None
        }
    } else {
        None
    };
    proof {
        match r {
            Option::Some(a) => {
                assert(b@ =~= action_code(a));
                lemma_action_code_round_trip(a);
            },
            Option::None => {},
        }
    }
    r
}

/// Encode the maze for the wire, one byte per cell.
pub fn maze_to_bytes(cells: &Vec<Cell>) -> (b: Vec<u8>)
    ensures
        b@.len() == cells@.len(),
        forall|i: int| 0 <= i < cells@.len() ==> b@[i] == spec_cell_byte(#[trigger] cells@[i]),
{
    let mut b: Vec<u8> = Vec::new();
    let n = cells.len();
    let mut i: usize = 0;
    while i < n
        invariant
            n == cells@.len(),
            i <= n,
            b@.len() == i,
            forall|k: int| 0 <= k < i ==> b@[k] == spec_cell_byte(#[trigger] cells@[k]),
        decreases n - i,
    {
        b.push(cells[i].to_byte());
        i = i + 1;
    }
    b
}

/// Decode a wire maze; any byte outside the cell encoding rejects the whole
/// message.
pub fn maze_from_bytes(bytes: &Vec<u8>) -> (r: Option<Vec<Cell>>)
    ensures
        match r {
            Option::Some(cells) => cells@.len() == bytes@.len() && forall|i: int|
                0 <= i < bytes@.len() ==> spec_cell_from_byte(#[trigger] bytes@[i]) == Option::Some(
                    cells@[i],
                ),
            Option::None => exists|i: int|
                0 <= i < bytes@.len() && spec_cell_from_byte(#[trigger] bytes@[i]) is None,
        },
{
    let mut cells: Vec<Cell> = Vec::new();
    let n = bytes.len();
    let mut i: usize = 0;
    while i < n
        invariant
            n == bytes@.len(),
            i <= n,
            cells@.len() == i,
            forall|k: int|
                0 <= k < i ==> spec_cell_from_byte(#[trigger] bytes@[k]) == Option::Some(
                    cells@[k],
                ),
        decreases n - i,
    {
        match Cell::from_byte(bytes[i]) {
            Some(c) => {
                cells.push(c);
            },
            None => {
                return None;
            },
        }
        i = i + 1;
    }
    Some(cells)
}

/// The maze as the wire snapshot carries it: its dimensions and the flat
/// byte layout.
pub struct Maze {
    pub width: usize,
    pub height: usize,
    pub layout: Vec<u8>,
}

impl Maze {
    /// The dimensions are the grid's and the layout has one byte per cell.
    pub open spec fn wf(self) -> bool {
        self.width == MAZE_WIDTH && self.height == MAZE_HEIGHT && self.layout@.len() == MAZE_CELLS
    }

    /// Package a simulation maze for the wire.
    pub fn from_cells(cells: &Vec<Cell>) -> (m: Maze)
        requires
            grid_sized(cells@),
        ensures
            m.wf(),
            forall|i: int|
                0 <= i < MAZE_CELLS ==> m.layout@[i] == spec_cell_byte(#[trigger] cells@[i]),
    {
        Maze { width: MAZE_WIDTH, height: MAZE_HEIGHT, layout: maze_to_bytes(cells) }
    }
}

} // verus!
