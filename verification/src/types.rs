use vstd::prelude::*;
use crate::keyed;

verus! {

/// The mark of a player: "X" or "O".
#[derive(Debug, Clone, Copy, PartialEq, Eq, Structural)]
pub enum SymbolXO {
    X,
    O,
}

impl SymbolXO {
    /// The mark the other player uses.
    pub open spec fn spec_other(self) -> SymbolXO {
        match self {
            SymbolXO::X => SymbolXO::O,
            SymbolXO::O => SymbolXO::X,
        }
    }

    /// The value a stone of this mark has on the board (1 for X, -1 for O).
    pub open spec fn spec_cell(self) -> i8 {
        match self {
            SymbolXO::X => 1,
            SymbolXO::O => -1i8,
        }
    }

    pub fn other(&self) -> (res: SymbolXO)
        ensures
            res == self.spec_other(),
    {
        match self {
            SymbolXO::X => SymbolXO::O,
            SymbolXO::O => SymbolXO::X,
        }
    }

    pub fn cell(&self) -> (res: i8)
        ensures
            res == self.spec_cell(),
    {
        match self {
            SymbolXO::X => 1,
            SymbolXO::O => -1i8,
        }
    }
}

} // verus!

verus! {

/// The characters of an optional string.
pub open spec fn opt_view(o: Option<String>) -> Option<Seq<char>> {
    match o {
        Some(s) => Some(s@),
        None => None,
    }
}

/// Copies an optional string.
pub fn copy_opt(o: &Option<String>) -> (res: Option<String>)
    ensures
        opt_view(res) == opt_view(*o),
{
    match o {
        Some(s) => Some(s.clone()),
        None => None,
    }
}

/// A connected person: an id chosen by the client and a display name.
#[derive(Debug, Clone)]
pub struct User {
    pub id: String,
    pub name: String,
}

pub struct UserView {
    pub id: Seq<char>,
    pub name: Seq<char>,
}

impl View for User {
    type V = UserView;

    open spec fn view(&self) -> UserView {
        UserView { id: self.id@, name: self.name@ }
    }
}

impl User {
    /// A copy with the same id and name.
    pub fn copied(&self) -> (res: User)
        ensures
            res@ == self@,
    {
        User { id: self.id.clone(), name: self.name.clone() }
    }
}

/// A user seated at the board with a mark.
#[derive(Debug, Clone)]
pub struct Player {
    pub id: String,
    pub name: String,
    pub symbol: SymbolXO,
}

pub struct PlayerView {
    pub id: Seq<char>,
    pub name: Seq<char>,
    pub symbol: SymbolXO,
}

impl View for Player {
    type V = PlayerView;

    open spec fn view(&self) -> PlayerView {
        PlayerView { id: self.id@, name: self.name@, symbol: self.symbol }
    }
}

impl Player {
    /// A copy with the same id, name and mark.
    pub fn copied(&self) -> (res: Player)
        ensures
            res@ == self@,
    {
        Player { id: self.id.clone(), name: self.name.clone(), symbol: self.symbol }
    }
}

/// The outcome of a finished game: a mark that won, or a draw.
#[derive(Debug, Clone, Copy, PartialEq, Eq, Structural)]
pub enum WinnerState {
    Symbol(SymbolXO),
    Draw,
}

impl WinnerState {
    /// The text the client shows for this outcome: "X", "O" or "draw".
    pub open spec fn spec_label(self) -> Seq<char> {
        match self {
            WinnerState::Symbol(SymbolXO::X) => seq!['X'],
            WinnerState::Symbol(SymbolXO::O) => seq!['O'],
            WinnerState::Draw => seq!['d', 'r', 'a', 'w'],
        }
    }

    pub fn label(&self) -> (res: String)
        ensures
            res@ == self.spec_label(),
    {
        let s = match self {
            WinnerState::Symbol(SymbolXO::X) => "X",
            WinnerState::Symbol(SymbolXO::O) => "O",
            WinnerState::Draw => "draw",
        };
        proof {
            reveal_strlit("X");
            reveal_strlit("O");
            reveal_strlit("draw");
        }
        String::from_str(s)
    }
}

/// The sockets through which a member of a room is connected.
#[derive(Debug, Clone)]
pub struct Presence {
    pub user: User,
    pub sockets: Vec<String>,
}

pub struct PresenceView {
    pub user: UserView,
    pub sockets: Set<Seq<char>>,
}

impl View for Presence {
    type V = PresenceView;

    open spec fn view(&self) -> PresenceView {
        PresenceView { user: self.user@, sockets: keyed::string_set(self.sockets@) }
    }
}

impl Presence {
    /// Each socket id is held once.
    pub open spec fn wf(&self) -> bool {
        keyed::strings_unique(self.sockets@)
    }
}

/// A member entry is keyed by its user's id.
pub open spec fn member_key() -> spec_fn(Presence) -> Seq<char> {
    |p: Presence| p.user.id@
}

pub open spec fn member_val() -> spec_fn(Presence) -> PresenceView {
    |p: Presence| p@
}

/// A square grid of cells: 0 empty, 1 a stone of X, -1 a stone of O.
pub type Cell = i8;

pub type Board = Vec<Vec<Cell>>;

/// The cells of a board, row by row.
pub open spec fn board_view(b: Seq<Vec<i8>>) -> Seq<Seq<i8>> {
    b.map_values(|r: Vec<i8>| r@)
}

/// A game room: the board, its two seats, whose turn it is, the outcome so
/// far, and who is connected.
#[derive(Debug, Clone)]
pub struct Room {
    pub id: String,
    pub board: Board,
    pub players: Vec<Player>,
    pub next_turn: SymbolXO,
    pub winner: Option<WinnerState>,
    pub last_move: Option<(usize, usize)>,
    pub host_id: Option<String>,
    pub members: Vec<Presence>,
    pub offline_timers: Vec<String>,
    pub first_mover_id: Option<String>,
    pub last_winner_id: Option<String>,
}

pub struct RoomView {
    pub id: Seq<char>,
    pub board: Seq<Seq<i8>>,
    pub players: Seq<PlayerView>,
    pub next_turn: SymbolXO,
    pub winner: Option<WinnerState>,
    pub last_move: Option<(usize, usize)>,
    pub host_id: Option<Seq<char>>,
    pub members: Map<Seq<char>, PresenceView>,
    pub offline_timers: Set<Seq<char>>,
    pub first_mover_id: Option<Seq<char>>,
    pub last_winner_id: Option<Seq<char>>,
}

/// The players of a room, seat by seat.
pub open spec fn players_view(p: Seq<Player>) -> Seq<PlayerView> {
    p.map_values(|x: Player| x@)
}

impl View for Room {
    type V = RoomView;

    open spec fn view(&self) -> RoomView {
        RoomView {
            id: self.id@,
            board: board_view(self.board@),
            players: players_view(self.players@),
            next_turn: self.next_turn,
            winner: self.winner,
            last_move: self.last_move,
            host_id: opt_view(self.host_id),
            members: keyed::keyed_map(self.members@, member_key(), member_val()),
            offline_timers: keyed::string_set(self.offline_timers@),
            first_mover_id: opt_view(self.first_mover_id),
            last_winner_id: opt_view(self.last_winner_id),
        }
    }
}

/// The board has as many cells in each row as it has rows.
pub open spec fn square(b: Seq<Seq<i8>>) -> bool {
    forall|i: int| 0 <= i < b.len() ==> (#[trigger] b[i]).len() == b.len()
}

impl Room {
    /// The board is square, each member is listed once with each of its
    /// sockets once, and each pending offline timer is listed once.
    pub open spec fn wf(&self) -> bool {
        &&& square(board_view(self.board@))
        &&& keyed::keys_unique(self.members@, member_key())
        &&& forall|i: int| 0 <= i < self.members@.len() ==> (#[trigger] self.members@[i]).wf()
        &&& keyed::strings_unique(self.offline_timers@)
    }
}

/// What a client sends to enter a room.
#[derive(Debug)]
pub struct JoinPayload {
    pub room_id: String,
    pub user: User,
}

/// What a client sends to place a stone at column `x`, row `y`.
#[derive(Debug)]
pub struct MovePayload {
    pub x: usize,
    pub y: usize,
}

} // verus!
