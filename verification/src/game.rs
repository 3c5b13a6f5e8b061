//! What each event does to a room: a user joining, a stone being placed,
//! a new game being started, a socket going away and an absent member's
//! grace period running out.
use vstd::prelude::*;
use crate::keyed;
use crate::types::{
    Player, PlayerView, Presence, PresenceView, Room, RoomView, SymbolXO, User, UserView,
    WinnerState, member_key, member_val, players_view,
};

verus! {

/// Players with the id `id`.
pub open spec fn has_id(id: Seq<char>) -> spec_fn(PlayerView) -> bool {
    |p: PlayerView| p.id == id
}

/// Players with another id than `id`.
pub open spec fn lacks_id(id: Seq<char>) -> spec_fn(PlayerView) -> bool {
    |p: PlayerView| p.id != id
}

/// Players who play `m`.
pub open spec fn has_mark(m: SymbolXO) -> spec_fn(PlayerView) -> bool {
    |p: PlayerView| p.symbol == m
}

/// Some player satisfies `f`.
pub open spec fn exists_in(ps: Seq<PlayerView>, f: spec_fn(PlayerView) -> bool) -> bool {
    exists|i: int| 0 <= i < ps.len() && #[trigger] f(ps[i])
}

/// The first seat whose player satisfies `f` (meaningful when one does).
pub open spec fn first_in(ps: Seq<PlayerView>, f: spec_fn(PlayerView) -> bool) -> int {
    choose|i: int| 0 <= i < ps.len() && f(ps[i]) && forall|j: int| 0 <= j < i ==> !#[trigger] f(ps[j])
}

/// The first seat whose player satisfies `f`, if any.
pub open spec fn find_index(ps: Seq<PlayerView>, f: spec_fn(PlayerView) -> bool) -> Option<int> {
    if exists_in(ps, f) {
        Some(first_in(ps, f))
    } else {
        None
    }
}

/// The id of the first player who satisfies `f`, if any.
pub open spec fn first_id(ps: Seq<PlayerView>, f: spec_fn(PlayerView) -> bool) -> Option<Seq<char>> {
    match find_index(ps, f) {
        Some(i) => Some(ps[i].id),
        None => None,
    }
}

/// The mark of the first player with the id `id`, if any.
pub open spec fn spec_symbol_of(ps: Seq<PlayerView>, id: Seq<char>) -> Option<SymbolXO> {
    match find_index(ps, has_id(id)) {
        Some(i) => Some(ps[i].symbol),
        None => None,
    }
}

/// A seat at `i` that satisfies `f` with none before it that does is the first one.
pub proof fn lemma_first_at(ps: Seq<PlayerView>, f: spec_fn(PlayerView) -> bool, i: int)
    requires
        0 <= i < ps.len(),
        f(ps[i]),
        forall|j: int| 0 <= j < i ==> !#[trigger] f(ps[j]),
    ensures
        exists_in(ps, f),
        first_in(ps, f) == i,
        find_index(ps, f) == Some(i),
{
    assert(f(ps[i]));
    let k = first_in(ps, f);
    assert(0 <= k < ps.len() && f(ps[k]) && forall|j: int| 0 <= j < k ==> !#[trigger] f(ps[j]));
    if k < i {
        assert(!f(ps[k]));
    }
    if k > i {
        assert(!f(ps[i]));
    }
}

/// Whenever some seat satisfies `f`, a first such seat exists.
pub proof fn lemma_first_exists(ps: Seq<PlayerView>, f: spec_fn(PlayerView) -> bool)
    requires
        exists_in(ps, f),
    ensures
        0 <= first_in(ps, f) < ps.len(),
        f(ps[first_in(ps, f)]),
        forall|j: int| 0 <= j < first_in(ps, f) ==> !#[trigger] f(ps[j]),
    decreases ps.len(),
{
    let w = choose|i: int| 0 <= i < ps.len() && #[trigger] f(ps[i]);
    if forall|j: int| 0 <= j < w ==> !#[trigger] f(ps[j]) {
        lemma_first_at(ps, f, w);
    } else {
        let t = ps.take(w);
        let j0 = choose|j: int| 0 <= j < w && #[trigger] f(ps[j]);
        assert(t[j0] == ps[j0]);
        assert(exists_in(t, f));
        lemma_first_exists(t, f);
        let k = first_in(t, f);
        assert forall|j: int| 0 <= j < k implies !#[trigger] f(ps[j]) by {
            assert(t[j] == ps[j]);
        }
        assert(t[k] == ps[k]);
        lemma_first_at(ps, f, k);
    }
}

/// The seat of the first player with the id `id`.
pub fn find_player(players: &Vec<Player>, id: &String) -> (res: Option<usize>)
    ensures
        match res {
            Some(i) => i < players.len() && find_index(players_view(players@), has_id(id@)) == Some(i as int),
            None => find_index(players_view(players@), has_id(id@)) is None,
        },
{
    let ghost ps = players_view(players@);
    let mut i: usize = 0;
    while i < players.len()
        invariant
            ps == players_view(players@),
            i <= players.len(),
            forall|j: int| 0 <= j < i ==> !#[trigger] has_id(id@)(ps[j]),
        decreases players.len() - i,
    {
        if players[i].id == *id {
            proof {
                lemma_first_at(ps, has_id(id@), i as int);
            }
            return Some(i);
        }
        i = i + 1;
    }
    None
}

/// The seat of the first player with another id than `id`.
pub fn find_other_player(players: &Vec<Player>, id: &String) -> (res: Option<usize>)
    ensures
        match res {
            Some(i) => i < players.len() && find_index(players_view(players@), lacks_id(id@)) == Some(i as int),
            None => find_index(players_view(players@), lacks_id(id@)) is None,
        },
{
    let ghost ps = players_view(players@);
    let mut i: usize = 0;
    while i < players.len()
        invariant
            ps == players_view(players@),
            i <= players.len(),
            forall|j: int| 0 <= j < i ==> !#[trigger] lacks_id(id@)(ps[j]),
        decreases players.len() - i,
    {
        if players[i].id != *id {
            proof {
                lemma_first_at(ps, lacks_id(id@), i as int);
            }
            return Some(i);
        }
        i = i + 1;
    }
    None
}

/// The seat of the first player who plays `m`.
pub fn find_mark(players: &Vec<Player>, m: SymbolXO) -> (res: Option<usize>)
    ensures
        match res {
            Some(i) => i < players.len() && find_index(players_view(players@), has_mark(m)) == Some(i as int),
            None => find_index(players_view(players@), has_mark(m)) is None,
        },
{
    let ghost ps = players_view(players@);
    let mut i: usize = 0;
    while i < players.len()
        invariant
            ps == players_view(players@),
            i <= players.len(),
            forall|j: int| 0 <= j < i ==> !#[trigger] has_mark(m)(ps[j]),
        decreases players.len() - i,
    {
        if players[i].symbol == m {
            proof {
                lemma_first_at(ps, has_mark(m), i as int);
            }
            return Some(i);
        }
        i = i + 1;
    }
    None
}

/// The id of the first player who plays `m`.
pub fn first_id_with_mark(players: &Vec<Player>, m: SymbolXO) -> (res: Option<String>)
    ensures
        crate::types::opt_view(res) == first_id(players_view(players@), has_mark(m)),
{
    match find_mark(players, m) {
        Some(i) => Some(players[i].id.clone()),
        None => None,
    }
}

/// The seat of the member with the id `id`.
pub fn find_member(members: &Vec<Presence>, id: &String) -> (res: Option<usize>)
    ensures
        match res {
            Some(i) => i < members.len() && members@[i as int].user.id@ == id@,
            None => !keyed::has_key(members@, member_key(), id@),
        },
{
    let mut i: usize = 0;
    while i < members.len()
        invariant
            i <= members.len(),
            forall|j: int| 0 <= j < i ==> members@[j].user.id@ != id@,
        decreases members.len() - i,
    {
        if members[i].user.id == *id {
            return Some(i);
        }
        i = i + 1;
    }
    assert forall|j: int| 0 <= j < members@.len() implies #[trigger] member_key()(members@[j]) != id@ by {}
    None
}

/// The player seat a user takes with the mark `m`.
pub open spec fn seat(u: UserView, m: SymbolXO) -> PlayerView {
    PlayerView { id: u.id, name: u.name, symbol: m }
}

/// The seats after `u` joins: a user already seated keeps the seats as
/// they are; the host takes X at the front; anyone else takes O if nobody
/// plays O yet; in a room without a host the first two users take X and O.
pub open spec fn seats_after_join(
    ps: Seq<PlayerView>,
    host: Option<Seq<char>>,
    u: UserView,
) -> Seq<PlayerView> {
    if exists_in(ps, has_id(u.id)) {
        ps
    } else {
        match host {
            Some(h) => if u.id == h {
                seq![seat(u, SymbolXO::X)] + ps
            } else if !exists_in(ps, has_mark(SymbolXO::O)) {
                ps.push(seat(u, SymbolXO::O))
            } else {
                ps
            },
            None => if ps.len() < 2 {
                ps.push(seat(u, if ps.len() == 0 { SymbolXO::X } else { SymbolXO::O }))
            } else {
                ps
            },
        }
    }
}

/// The room after `u` joins it through the socket `sid`: no offline timer
/// is pending for `u` any more, `u` is a member connected through `sid`
/// (besides its other sockets) under its new name, `u` may take a seat, the
/// first user to join becomes host, and the first player of X is recorded
/// as first mover when none was.
pub open spec fn joined(r: RoomView, u: UserView, sid: Seq<char>) -> RoomView {
    let sockets = if r.members.contains_key(u.id) {
        r.members[u.id].sockets.insert(sid)
    } else {
        Set::empty().insert(sid)
    };
    let players = seats_after_join(r.players, r.host_id, u);
    RoomView {
        offline_timers: r.offline_timers.remove(u.id),
        members: r.members.insert(u.id, PresenceView { user: u, sockets: sockets }),
        players: players,
        host_id: if r.host_id is None {
            Some(u.id)
        } else {
            r.host_id
        },
        first_mover_id: if r.first_mover_id is None {
            first_id(players, has_mark(SymbolXO::X))
        } else {
            r.first_mover_id
        },
        ..r
    }
}

/// Seats `user` as the rules of `seats_after_join` say.
fn seat_user(room: &mut Room, user: &User)
    ensures
        players_view(final(room).players@) == seats_after_join(
            players_view(old(room).players@),
            crate::types::opt_view(old(room).host_id),
            user@,
        ),
        final(room).id == old(room).id,
        final(room).board == old(room).board,
        final(room).next_turn == old(room).next_turn,
        final(room).winner == old(room).winner,
        final(room).last_move == old(room).last_move,
        final(room).host_id == old(room).host_id,
        final(room).members == old(room).members,
        final(room).offline_timers == old(room).offline_timers,
        final(room).first_mover_id == old(room).first_mover_id,
        final(room).last_winner_id == old(room).last_winner_id,
{
    let ghost ps = players_view(room.players@);
    if find_player(&room.players, &user.id).is_some() {
        return;
    }
    let x_seat = Player { id: user.id.clone(), name: user.name.clone(), symbol: SymbolXO::X };
    let o_seat = Player { id: user.id.clone(), name: user.name.clone(), symbol: SymbolXO::O };
    match &room.host_id {
        Some(host) => {
            if user.id == *host {
                if room.players.len() == 0 {
                    room.players.push(x_seat);
                } else {
                    room.players.insert(0, x_seat);
                }
                assert(players_view(room.players@) =~= seq![seat(user@, SymbolXO::X)] + ps);
            } else if find_mark(&room.players, SymbolXO::O).is_none() {
                room.players.push(o_seat);
                assert(players_view(room.players@) =~= ps.push(seat(user@, SymbolXO::O)));
            }
        },
        None => {
            if room.players.len() < 2 {
                if room.players.len() == 0 {
                    room.players.push(x_seat);
                    assert(players_view(room.players@) =~= ps.push(seat(user@, SymbolXO::X)));
                } else {
                    room.players.push(o_seat);
                    assert(players_view(room.players@) =~= ps.push(seat(user@, SymbolXO::O)));
                }
            }
        },
    }
}

/// Records that `user` is connected through `socket_id`.
fn add_presence(room: &mut Room, user: &User, socket_id: String)
    requires
        old(room).wf(),
    ensures
        final(room).wf(),
        final(room)@ == (RoomView {
            members: old(room)@.members.insert(
                user@.id,
                PresenceView {
                    user: user@,
                    sockets: if old(room)@.members.contains_key(user@.id) {
                        old(room)@.members[user@.id].sockets.insert(socket_id@)
                    } else {
                        Set::empty().insert(socket_id@)
                    },
                },
            ),
            ..old(room)@
        }),
{
    let ghost m0 = room.members@;
    match find_member(&room.members, &user.id) {
        Some(i) => {
            proof {
                keyed::lemma_keyed_index(m0, member_key(), member_val(), i as int);
            }
            let mut sockets = room.members[i].sockets.clone();
            assert(sockets@ =~= m0[i as int].sockets@);
            keyed::insert_string(&mut sockets, socket_id);
            let p = Presence { user: user.copied(), sockets: sockets };
            proof {
                keyed::lemma_keyed_update(m0, member_key(), member_val(), i as int, p);
            }
            room.members.set(i, p);
            assert(room.members@ == m0.update(i as int, p));
            assert forall|j: int| 0 <= j < room.members@.len() implies (#[trigger] room.members@[j]).wf() by {
                if j != i {
                    assert(room.members@[j] == m0[j]);
                }
            }
        },
        None => {
            let mut sockets: Vec<String> = Vec::new();
            proof {
                keyed::lemma_keyed_empty(sockets@, keyed::str_key(), keyed::no_val());
            }
            keyed::insert_string(&mut sockets, socket_id);
            let p = Presence { user: user.copied(), sockets: sockets };
            proof {
                keyed::lemma_keyed_push(m0, member_key(), member_val(), p);
                keyed::lemma_keyed_absent(m0, member_key(), member_val(), user@.id);
            }
            room.members.push(p);
            assert(room.members@ == m0.push(p));
            assert forall|j: int| 0 <= j < room.members@.len() implies (#[trigger] room.members@[j]).wf() by {
                if j < m0.len() {
                    assert(room.members@[j] == m0[j]);
                }
            }
        },
    }
    assert(crate::types::board_view(room.board@) == old(room)@.board);
}

/// Lets `user` join the room through the socket `socket_id`.
pub fn join_room(room: &mut Room, user: User, socket_id: String)
    requires
        old(room).wf(),
    ensures
        final(room).wf(),
        final(room)@ == joined(old(room)@, user@, socket_id@),
{
    let ghost r0 = room@;
    keyed::remove_string(&mut room.offline_timers, &user.id);
    add_presence(room, &user, socket_id);
    let ghost r2 = room@;
    seat_user(room, &user);
    if room.host_id.is_none() {
        room.host_id = Some(user.id.clone());
    }
    if room.first_mover_id.is_none() {
        room.first_mover_id = first_id_with_mark(&room.players, SymbolXO::X);
    }
    assert(room@.members == joined(r0, user@, socket_id@).members);
    assert(room@ == joined(r0, user@, socket_id@));
}

/// A finished game to be added to the head-to-head record: the winner's
/// id (none for a draw) and the ids of the two players.
#[derive(Debug)]
pub struct GameRecord {
    pub winner_id: Option<String>,
    pub id1: String,
    pub id2: String,
}

pub struct GameRecordView {
    pub winner_id: Option<Seq<char>>,
    pub id1: Seq<char>,
    pub id2: Seq<char>,
}

impl View for GameRecord {
    type V = GameRecordView;

    open spec fn view(&self) -> GameRecordView {
        GameRecordView {
            winner_id: crate::types::opt_view(self.winner_id),
            id1: self.id1@,
            id2: self.id2@,
        }
    }
}

/// What placing a stone came to: nothing (the move was not allowed), or a
/// new position, with a finished game to record when the move ended one
/// between two seated players.
#[derive(Debug)]
pub enum MoveOutcome {
    Ignored,
    Played(Option<GameRecord>),
}

/// The seat of the player with the id `uid` (meaningful when there is one).
pub open spec fn seat_of(r: RoomView, uid: Seq<char>) -> PlayerView {
    r.players[first_in(r.players, has_id(uid))]
}

/// `uid` may place a stone at column `x`, row `y`: no game result yet,
/// `uid` is seated and it is that seat's turn, and the cell is on the board
/// and empty.
pub open spec fn move_allowed(r: RoomView, uid: Seq<char>, x: int, y: int) -> bool {
    &&& r.winner is None
    &&& exists_in(r.players, has_id(uid))
    &&& seat_of(r, uid).symbol == r.next_turn
    &&& 0 <= y < r.board.len()
    &&& 0 <= x < r.board[0].len()
    &&& r.board[y][x] == 0
}

/// The board with a stone of `m` at column `x`, row `y`.
pub open spec fn place(b: Seq<Seq<i8>>, x: int, y: int, m: SymbolXO) -> Seq<Seq<i8>> {
    b.update(y, b[y].update(x, m.spec_cell()))
}

/// The room after `uid` places a stone at (`x`, `y`): the stone and the
/// last move are recorded; a stone that makes five in a row wins the game
/// for its mark and its player; otherwise a full board is a draw; otherwise
/// the turn passes to the other mark.
pub open spec fn moved(r: RoomView, uid: Seq<char>, x: int, y: int) -> RoomView {
    let p = seat_of(r, uid);
    let b = place(r.board, x, y, p.symbol);
    let base = RoomView { board: b, last_move: Some((x as usize, y as usize)), ..r };
    match crate::board::winner_at(b, x, y) {
        Some(m) => RoomView {
            winner: Some(WinnerState::Symbol(m)),
            last_winner_id: Some(p.id),
            ..base
        },
        None => if crate::board::board_full(b, b.len() as int) {
            RoomView { winner: Some(WinnerState::Draw), last_winner_id: None, ..base }
        } else {
            RoomView { next_turn: r.next_turn.spec_other(), ..base }
        },
    }
}

/// The finished game a move by `uid` at (`x`, `y`) leaves to record: a win
/// against the first other player, if there is one; a draw between the two
/// seated players, if there are exactly two.
pub open spec fn move_record(r: RoomView, uid: Seq<char>, x: int, y: int) -> Option<
    GameRecordView,
> {
    let p = seat_of(r, uid);
    let b = place(r.board, x, y, p.symbol);
    match crate::board::winner_at(b, x, y) {
        Some(m) => match first_id(r.players, lacks_id(p.id)) {
            Some(o) => Some(GameRecordView { winner_id: Some(p.id), id1: p.id, id2: o }),
            None => None,
        },
        None => if crate::board::board_full(b, b.len() as int) && r.players.len() == 2 {
            Some(
                GameRecordView { winner_id: None, id1: r.players[0].id, id2: r.players[1].id },
            )
        } else {
            None
        },
    }
}

/// The view of an optional game record.
pub open spec fn record_view(o: Option<GameRecord>) -> Option<GameRecordView> {
    match o {
        Some(g) => Some(g@),
        None => None,
    }
}

/// Lets `user_id` place a stone at column `x`, row `y`, if the rules allow it.
pub fn apply_move(room: &mut Room, user_id: &String, x: usize, y: usize) -> (res: MoveOutcome)
    requires
        old(room).wf(),
        old(room).board.len() <= i32::MAX,
    ensures
        final(room).wf(),
        match res {
            MoveOutcome::Ignored => !move_allowed(old(room)@, user_id@, x as int, y as int)
                && final(room)@ == old(room)@,
            MoveOutcome::Played(rec) => move_allowed(old(room)@, user_id@, x as int, y as int)
                && final(room)@ == moved(old(room)@, user_id@, x as int, y as int)
                && record_view(rec) == move_record(old(room)@, user_id@, x as int, y as int),
        },
{
    let ghost r0 = room@;
    if room.winner.is_some() {
        return MoveOutcome::Ignored;
    }
    let pi = match find_player(&room.players, user_id) {
        Some(i) => i,
        None => {
            return MoveOutcome::Ignored;
        },
    };
    let player = room.players[pi].copied();
    assert(player@ == seat_of(r0, user_id@));
    if room.next_turn != player.symbol {
        return MoveOutcome::Ignored;
    }
    let rows = room.board.len();
    let cols = if rows > 0 {
        room.board[0].len()
    } else {
        0
    };
    if y >= rows || x >= cols {
        return MoveOutcome::Ignored;
    }
    assert(r0.board[y as int] == room.board@[y as int]@);
    assert(r0.board[0] == room.board@[0]@);
    if room.board[y][x] != 0 {
        return MoveOutcome::Ignored;
    }
    assert(move_allowed(r0, user_id@, x as int, y as int));
    let mut row = room.board[y].clone();
    assert(row@ =~= room.board@[y as int]@);
    row.set(x, player.symbol.cell());
    room.board.set(y, row);
    room.last_move = Some((x, y));
    let ghost b = place(r0.board, x as int, y as int, player.symbol);
    assert(crate::types::board_view(room.board@) =~= b);
    assert(crate::types::square(b));
    let win = crate::board::check_winner(&room.board, x, y);
    match win {
        Some(winner_symbol) => {
            room.winner = Some(WinnerState::Symbol(winner_symbol));
            room.last_winner_id = Some(player.id.clone());
            let rec = match find_other_player(&room.players, &player.id) {
                Some(oi) => Some(
                    GameRecord {
                        winner_id: Some(player.id.clone()),
                        id1: player.id.clone(),
                        id2: room.players[oi].id.clone(),
                    },
                ),
                None => None,
            };
            MoveOutcome::Played(rec)
        },
        None => {
            if crate::board::is_board_full(&room.board, room.board.len()) {
                room.winner = Some(WinnerState::Draw);
                room.last_winner_id = None;
                let rec = if room.players.len() == 2 {
                    Some(
                        GameRecord {
                            winner_id: None,
                            id1: room.players[0].id.clone(),
                            id2: room.players[1].id.clone(),
                        },
                    )
                } else {
                    None
                };
                MoveOutcome::Played(rec)
            } else {
                room.next_turn = room.next_turn.other();
                MoveOutcome::Played(None)
            }
        },
    }
}

/// The set holds no socket.
pub open spec fn no_sockets(s: Set<Seq<char>>) -> bool {
    forall|k: Seq<char>| !#[trigger] s.contains(k)
}

/// `id` is a member of the room connected through at least one socket.
pub open spec fn online(r: RoomView, id: Seq<char>) -> bool {
    r.members.contains_key(id) && !no_sockets(r.members[id].sockets)
}

/// Players who are online in the room.
pub open spec fn is_online_player(r: RoomView) -> spec_fn(PlayerView) -> bool {
    |p: PlayerView| online(r, p.id)
}

/// `h` is a host the room may pass to: the first seated player who is
/// online; failing that, any member who is online; and none only when
/// nobody is online.
pub open spec fn host_pick_ok(r: RoomView, h: Option<Seq<char>>) -> bool {
    match h {
        Some(id) => if exists_in(r.players, is_online_player(r)) {
            h == first_id(r.players, is_online_player(r))
        } else {
            online(r, id)
        },
        None => forall|k: Seq<char>| !#[trigger] online(r, k),
    }
}

/// A vector of strings is empty exactly when the set it holds is.
pub proof fn lemma_empty_strings(v: Seq<String>)
    requires
        keyed::strings_unique(v),
    ensures
        (v.len() == 0) == no_sockets(keyed::string_set(v)),
{
    if v.len() > 0 {
        keyed::lemma_keyed_index(v, keyed::str_key(), keyed::no_val(), 0);
    } else {
        keyed::lemma_keyed_empty(v, keyed::str_key(), keyed::no_val());
    }
}

/// The room after a new game starts: an empty board, no result and no last
/// move; the last winner, or failing one the first mover of the game
/// before, moves first if still seated, else the first player of X does.
pub open spec fn restarted(r: RoomView, size: nat) -> RoomView {
    let starter_id = if r.last_winner_id is Some {
        r.last_winner_id
    } else {
        r.first_mover_id
    };
    let starter = match starter_id {
        Some(id) => spec_symbol_of(r.players, id),
        None => None,
    };
    RoomView {
        board: crate::board::empty_board(size),
        winner: None,
        last_move: None,
        next_turn: match starter {
            Some(m) => m,
            None => SymbolXO::X,
        },
        first_mover_id: match starter {
            Some(_) => starter_id,
            None => first_id(r.players, has_mark(SymbolXO::X)),
        },
        last_winner_id: None,
        ..r
    }
}

/// Starts a new game on a `size` by `size` board when `user_id` is seated;
/// tells whether it did.
pub fn restart_game(room: &mut Room, user_id: &String, size: usize) -> (res: bool)
    requires
        old(room).wf(),
    ensures
        final(room).wf(),
        res == exists_in(old(room)@.players, has_id(user_id@)),
        res ==> final(room)@ == restarted(old(room)@, size as nat),
        !res ==> final(room)@ == old(room)@,
{
    let ghost r0 = room@;
    if find_player(&room.players, user_id).is_none() {
        return false;
    }
    let starter_id = if room.last_winner_id.is_some() {
        crate::types::copy_opt(&room.last_winner_id)
    } else {
        crate::types::copy_opt(&room.first_mover_id)
    };
    let starter_symbol = match &starter_id {
        Some(id) => crate::store::symbol_of(room, id.as_str()),
        None => None,
    };
    room.board = crate::board::new_board(size);
    room.winner = None;
    room.last_move = None;
    match starter_symbol {
        Some(sym) => {
            room.next_turn = sym;
            room.first_mover_id = starter_id;
        },
        None => {
            room.next_turn = SymbolXO::X;
            room.first_mover_id = first_id_with_mark(&room.players, SymbolXO::X);
        },
    }
    room.last_winner_id = None;
    assert(room@ == restarted(r0, size as nat));
    true
}

/// What a socket going away came to.
#[derive(Debug, Clone, Copy, PartialEq, Eq, Structural)]
pub enum DisconnectOutcome {
    /// The user is not a member of the room.
    NotMember,
    /// The user is still connected through another socket.
    StillOnline,
    /// The user's grace period is already running.
    AlreadyPending,
    /// The user's grace period starts now.
    TimerStarted,
}

/// The room after `uid` loses the socket `sid`, and what that came to: a
/// member left with no socket gets an offline timer unless one is pending.
pub open spec fn disconnected(r: RoomView, uid: Seq<char>, sid: Seq<char>) -> (
    RoomView,
    DisconnectOutcome,
) {
    if !r.members.contains_key(uid) {
        (r, DisconnectOutcome::NotMember)
    } else {
        let p = r.members[uid];
        let left = p.sockets.remove(sid);
        let r1 = RoomView {
            members: r.members.insert(uid, PresenceView { sockets: left, ..p }),
            ..r
        };
        if !no_sockets(left) {
            (r1, DisconnectOutcome::StillOnline)
        } else if r.offline_timers.contains(uid) {
            (r1, DisconnectOutcome::AlreadyPending)
        } else {
            (
                RoomView { offline_timers: r.offline_timers.insert(uid), ..r1 },
                DisconnectOutcome::TimerStarted,
            )
        }
    }
}

/// Records that `user_id` lost the socket `socket_id`.
pub fn go_offline(room: &mut Room, user_id: &String, socket_id: &String) -> (res:
    DisconnectOutcome)
    requires
        old(room).wf(),
    ensures
        final(room).wf(),
        (final(room)@, res) == disconnected(old(room)@, user_id@, socket_id@),
{
    let ghost r0 = room@;
    let ghost m0 = room.members@;
    let i = match find_member(&room.members, user_id) {
        Some(i) => i,
        None => {
            proof {
                keyed::lemma_keyed_absent(m0, member_key(), member_val(), user_id@);
            }
            return DisconnectOutcome::NotMember;
        },
    };
    proof {
        keyed::lemma_keyed_index(m0, member_key(), member_val(), i as int);
    }
    let mut sockets = room.members[i].sockets.clone();
    assert(sockets@ =~= m0[i as int].sockets@);
    keyed::remove_string(&mut sockets, socket_id);
    let still_online = sockets.len() > 0;
    proof {
        lemma_empty_strings(sockets@);
    }
    let p = Presence { user: room.members[i].user.copied(), sockets: sockets };
    proof {
        keyed::lemma_keyed_update(m0, member_key(), member_val(), i as int, p);
    }
    room.members.set(i, p);
    assert(room.members@ == m0.update(i as int, p));
    assert forall|j: int| 0 <= j < room.members@.len() implies (#[trigger] room.members@[j]).wf() by {
        if j != i {
            assert(room.members@[j] == m0[j]);
        }
    }
    if still_online {
        return DisconnectOutcome::StillOnline;
    }
    if keyed::contains_string(&room.offline_timers, user_id) {
        return DisconnectOutcome::AlreadyPending;
    }
    keyed::insert_string(&mut room.offline_timers, user_id.clone());
    DisconnectOutcome::TimerStarted
}

/// What the end of an absent member's grace period came to.
#[derive(Debug, Clone, Copy, PartialEq, Eq, Structural)]
pub enum ExpireOutcome {
    /// The member came back in time; only the timer is dropped.
    Reconnected,
    /// The member was removed from the room.
    Updated,
    /// The member was the host and nobody is left online to take over:
    /// the room is to be deleted.
    Abandoned,
}

/// The room without the member `uid`: gone from the members and the seats.
pub open spec fn without_user(r: RoomView, uid: Seq<char>) -> RoomView {
    RoomView {
        members: r.members.remove(uid),
        players: r.players.filter(lacks_id(uid)),
        ..r
    }
}

/// Removes the seats of `user_id`, keeping the others in order.
fn unseat(room: &mut Room, user_id: &String)
    ensures
        players_view(final(room).players@) == players_view(old(room).players@).filter(
            lacks_id(user_id@),
        ),
        final(room).id == old(room).id,
        final(room).board == old(room).board,
        final(room).next_turn == old(room).next_turn,
        final(room).winner == old(room).winner,
        final(room).last_move == old(room).last_move,
        final(room).host_id == old(room).host_id,
        final(room).members == old(room).members,
        final(room).offline_timers == old(room).offline_timers,
        final(room).first_mover_id == old(room).first_mover_id,
        final(room).last_winner_id == old(room).last_winner_id,
{
    let ghost ps = players_view(room.players@);
    let ghost f = lacks_id(user_id@);
    let mut kept: Vec<Player> = Vec::new();
    let mut i: usize = 0;
    assert(ps.take(0).filter(f) =~= Seq::<PlayerView>::empty());
    while i < room.players.len()
        invariant
            ps == players_view(room.players@),
            f == lacks_id(user_id@),
            i <= room.players.len(),
            players_view(kept@) == ps.take(i as int).filter(f),
        decreases room.players.len() - i,
    {
        proof {
            assert(ps.take(i as int + 1) =~= ps.take(i as int).push(ps[i as int]));
            ps.take(i as int).lemma_filter_push(ps[i as int], f);
        }
        if room.players[i].id != *user_id {
            let p = room.players[i].copied();
            kept.push(p);
            assert(players_view(kept@) =~= ps.take(i as int).filter(f).push(ps[i as int]));
        }
        i = i + 1;
    }
    assert(ps.take(ps.len() as int) =~= ps);
    room.players = kept;
}

/// Ends the grace period of `user_id`: a member who came back keeps its
/// place; one still away leaves the room, and when it was the host the
/// room passes to someone online, or is abandoned when nobody is.
pub fn expire_offline(room: &mut Room, user_id: &String) -> (res: ExpireOutcome)
    requires
        old(room).wf(),
    ensures
        final(room).wf(),
        match res {
            ExpireOutcome::Reconnected => online(old(room)@, user_id@) && final(room)@ == (
            RoomView { offline_timers: old(room)@.offline_timers.remove(user_id@), ..old(room)@ }),
            ExpireOutcome::Abandoned => !online(old(room)@, user_id@) && old(room)@.host_id == Some(
                user_id@,
            ) && host_pick_ok(without_user(old(room)@, user_id@), None) && final(room)@ == (
            RoomView { host_id: None, ..without_user(old(room)@, user_id@) }),
            ExpireOutcome::Updated => !online(old(room)@, user_id@) && final(room)@ == (RoomView {
                host_id: final(room)@.host_id,
                offline_timers: old(room)@.offline_timers.remove(user_id@),
                ..without_user(old(room)@, user_id@)
            }) && if old(room)@.host_id == Some(user_id@) {
                final(room)@.host_id is Some && host_pick_ok(
                    without_user(old(room)@, user_id@),
                    final(room)@.host_id,
                )
            } else {
                final(room)@.host_id == old(room)@.host_id
            },
        },
{
    let ghost r0 = room@;
    if crate::store::is_online(room, user_id) {
        keyed::remove_string(&mut room.offline_timers, user_id);
        return ExpireOutcome::Reconnected;
    }
    let ghost m0 = room.members@;
    match find_member(&room.members, user_id) {
        Some(i) => {
            proof {
                keyed::lemma_keyed_remove(m0, member_key(), member_val(), i as int);
            }
            room.members.remove(i);
            assert(room.members@ == m0.remove(i as int));
            assert forall|j: int| 0 <= j < room.members@.len() implies (#[trigger] room.members@[j]).wf() by {
                if j < i {
                    assert(room.members@[j] == m0[j]);
                } else {
                    assert(room.members@[j] == m0[j + 1]);
                }
            }
        },
        None => {
            proof {
                keyed::lemma_keyed_absent(m0, member_key(), member_val(), user_id@);
                assert(r0.members.remove(user_id@) =~= r0.members);
            }
        },
    }
    unseat(room, user_id);
    assert(room@ == without_user(r0, user_id@));
    let was_host = match &room.host_id {
        Some(h) => *h == *user_id,
        None => false,
    };
    if was_host {
        let h = crate::store::pick_new_host(room);
        let abandoned = h.is_none();
        room.host_id = h;
        if abandoned {
            return ExpireOutcome::Abandoned;
        }
    }
    keyed::remove_string(&mut room.offline_timers, user_id);
    ExpireOutcome::Updated
}

/// Once a game has a result, no move is allowed until a new game starts.
pub proof fn lemma_finished_game_ignores_moves(r: RoomView, uid: Seq<char>, x: int, y: int)
    requires
        r.winner is Some,
    ensures
        !move_allowed(r, uid, x, y),
{
}

/// An allowed move puts the mover's stone on the empty cell it names and
/// changes no other cell.
pub proof fn lemma_move_places_one_stone(r: RoomView, uid: Seq<char>, x: int, y: int)
    requires
        move_allowed(r, uid, x, y),
        crate::types::square(r.board),
    ensures
        moved(r, uid, x, y).board.len() == r.board.len(),
        moved(r, uid, x, y).board[y][x] == seat_of(r, uid).symbol.spec_cell(),
        r.board[y][x] == 0,
        forall|i: int, j: int|
            0 <= i < r.board.len() && 0 <= j < r.board[i].len() && (i != y || j != x) ==> #[trigger] moved(
                r,
                uid,
                x,
                y,
            ).board[i][j] == r.board[i][j],
{
}

/// A move that neither wins nor fills the board passes the turn to the
/// other mark and leaves the game without a result.
pub proof fn lemma_turn_passes(r: RoomView, uid: Seq<char>, x: int, y: int)
    requires
        move_allowed(r, uid, x, y),
        crate::board::winner_at(place(r.board, x, y, seat_of(r, uid).symbol), x, y) is None,
        !crate::board::board_full(
            place(r.board, x, y, seat_of(r, uid).symbol),
            r.board.len() as int,
        ),
    ensures
        moved(r, uid, x, y).next_turn == r.next_turn.spec_other(),
        moved(r, uid, x, y).winner is None,
{
}

/// A move that makes five in a row wins the game for the mover, who is
/// recorded as the last winner.
pub proof fn lemma_five_wins(r: RoomView, uid: Seq<char>, x: int, y: int)
    requires
        move_allowed(r, uid, x, y),
        crate::types::square(r.board),
        crate::board::winner_at(place(r.board, x, y, seat_of(r, uid).symbol), x, y) is Some,
    ensures
        moved(r, uid, x, y).winner == Some(WinnerState::Symbol(seat_of(r, uid).symbol)),
        moved(r, uid, x, y).last_winner_id == Some(uid),
{
    let p = seat_of(r, uid);
    lemma_first_exists(r.players, has_id(uid));
    let b = place(r.board, x, y, p.symbol);
    assert(b[y][x] == p.symbol.spec_cell());
}

/// A new game starts on an empty board, without a result, and the winner
/// of the game before, when still seated, moves first.
pub proof fn lemma_winner_starts_next_game(r: RoomView, size: nat, w: Seq<char>, m: SymbolXO)
    requires
        r.last_winner_id == Some(w),
        spec_symbol_of(r.players, w) == Some(m),
    ensures
        restarted(r, size).board == crate::board::empty_board(size),
        restarted(r, size).winner is None,
        restarted(r, size).last_move is None,
        restarted(r, size).next_turn == m,
        restarted(r, size).first_mover_id == Some(w),
{
}

/// A user who joins is online in the room and holds no pending offline
/// timer there.
pub proof fn lemma_joined_is_online(r: RoomView, u: UserView, sid: Seq<char>)
    ensures
        online(joined(r, u, sid), u.id),
        !joined(r, u, sid).offline_timers.contains(u.id),
        joined(r, u, sid).members[u.id].sockets.contains(sid),
{
    let j = joined(r, u, sid);
    assert(j.members[u.id].sockets.contains(sid));
}

/// No seat's id occurs twice.
pub open spec fn seats_distinct(ps: Seq<PlayerView>) -> bool {
    forall|i: int, j: int| 0 <= i < ps.len() && 0 <= j < ps.len() && i != j ==> #[trigger] ps[i].id != #[trigger] ps[j].id
}

/// Joining never gives a user a second seat, and a seated user who joins
/// again keeps the seats as they are.
pub proof fn lemma_join_seats_once(ps: Seq<PlayerView>, host: Option<Seq<char>>, u: UserView)
    requires
        seats_distinct(ps),
    ensures
        seats_distinct(seats_after_join(ps, host, u)),
        exists_in(ps, has_id(u.id)) ==> seats_after_join(ps, host, u) == ps,
{
    let q = seats_after_join(ps, host, u);
    if !exists_in(ps, has_id(u.id)) {
        assert forall|i: int| 0 <= i < ps.len() implies #[trigger] ps[i].id != u.id by {
            assert(!has_id(u.id)(ps[i]));
        }
        if q.len() == ps.len() + 1 && q[0].id == u.id {
            assert forall|i: int, j: int| 0 <= i < q.len() && 0 <= j < q.len() && i != j implies #[trigger] q[i].id != #[trigger] q[j].id by {
                if i > 0 && j > 0 {
                    assert(q[i] == ps[i - 1] && q[j] == ps[j - 1]);
                } else if i == 0 {
                    assert(q[j] == ps[j - 1]);
                } else {
                    assert(q[i] == ps[i - 1]);
                }
            }
        } else if q.len() == ps.len() + 1 {
            assert forall|i: int, j: int| 0 <= i < q.len() && 0 <= j < q.len() && i != j implies #[trigger] q[i].id != #[trigger] q[j].id by {
                if i < ps.len() && j < ps.len() {
                    assert(q[i] == ps[i] && q[j] == ps[j]);
                } else if i == ps.len() {
                    assert(q[j] == ps[j]);
                } else {
                    assert(q[i] == ps[i]);
                }
            }
        }
    }
}

/// A member whose only socket goes away is left offline, and the grace
/// period starts unless one is already running.
pub proof fn lemma_last_socket_starts_timer(r: RoomView, uid: Seq<char>, sid: Seq<char>)
    requires
        r.members.contains_key(uid),
        r.members[uid].sockets == Set::<Seq<char>>::empty().insert(sid),
        !r.offline_timers.contains(uid),
    ensures
        disconnected(r, uid, sid).1 == DisconnectOutcome::TimerStarted,
        !online(disconnected(r, uid, sid).0, uid),
        disconnected(r, uid, sid).0.offline_timers.contains(uid),
{
    let left = r.members[uid].sockets.remove(sid);
    assert(left =~= Set::<Seq<char>>::empty());
}

/// The host, when not yet seated, takes X in the first seat.
pub proof fn lemma_host_takes_x(ps: Seq<PlayerView>, u: UserView)
    requires
        !exists_in(ps, has_id(u.id)),
    ensures
        seats_after_join(ps, Some(u.id), u)[0] == seat(u, SymbolXO::X),
        seats_after_join(ps, Some(u.id), u).len() == ps.len() + 1,
{
}

/// The seats of a room as joins make them: no user seated twice, every X
/// seat held by the host, at most one O seat, and no seat before there is
/// a host.
pub open spec fn seats_ok(r: RoomView) -> bool {
    &&& seats_distinct(r.players)
    &&& forall|i: int|
        0 <= i < r.players.len() && (#[trigger] r.players[i]).symbol == SymbolXO::X ==> r.host_id
            == Some(r.players[i].id)
    &&& forall|i: int, j: int|
        0 <= i < r.players.len() && 0 <= j < r.players.len() && (#[trigger] r.players[i]).symbol
            == SymbolXO::O && (#[trigger] r.players[j]).symbol == SymbolXO::O ==> i == j
    &&& r.host_id is None ==> r.players.len() == 0
}

/// A room whose seats are as joins make them has at most two players: the
/// host with X and one player with O.
pub proof fn lemma_at_most_two_players(r: RoomView)
    requires
        seats_ok(r),
    ensures
        r.players.len() <= 2,
{
    if r.players.len() > 2 {
        let a = r.players[0];
        let b = r.players[1];
        let c = r.players[2];
        if a.symbol == SymbolXO::X && b.symbol == SymbolXO::X {
            assert(r.players[0].id != r.players[1].id);
        } else if a.symbol == SymbolXO::X && c.symbol == SymbolXO::X {
            assert(r.players[0].id != r.players[2].id);
        } else if b.symbol == SymbolXO::X && c.symbol == SymbolXO::X {
            assert(r.players[1].id != r.players[2].id);
        } else if a.symbol == SymbolXO::O && b.symbol == SymbolXO::O {
            assert(r.players[0].symbol == SymbolXO::O && r.players[1].symbol == SymbolXO::O);
        } else if a.symbol == SymbolXO::O && c.symbol == SymbolXO::O {
            assert(r.players[0].symbol == SymbolXO::O && r.players[2].symbol == SymbolXO::O);
        } else {
            assert(r.players[1].symbol == SymbolXO::O && r.players[2].symbol == SymbolXO::O);
        }
    }
}

/// Joining keeps the seats as joins make them.
pub proof fn lemma_join_keeps_seats(r: RoomView, u: UserView, sid: Seq<char>)
    requires
        seats_ok(r),
    ensures
        seats_ok(joined(r, u, sid)),
{
    let ps = r.players;
    let j = joined(r, u, sid);
    let q = j.players;
    lemma_join_seats_once(ps, r.host_id, u);
    if exists_in(ps, has_id(u.id)) {
        if r.host_id is None {
            let w = choose|i: int| 0 <= i < ps.len() && #[trigger] has_id(u.id)(ps[i]);
            assert(ps.len() == 0);
        }
    } else {
        assert forall|i: int| 0 <= i < ps.len() implies #[trigger] ps[i].id != u.id by {
            assert(!has_id(u.id)(ps[i]));
        }
        match r.host_id {
            Some(h) => {
                if u.id == h {
                    assert forall|i: int| 0 <= i < ps.len() implies (#[trigger] ps[i]).symbol != SymbolXO::X by {
                        if ps[i].symbol == SymbolXO::X {
                            assert(r.host_id == Some(ps[i].id));
                        }
                    }
                    assert forall|i: int|
                        0 <= i < q.len() && (#[trigger] q[i]).symbol == SymbolXO::X implies j.host_id
                        == Some(q[i].id) by {
                        if i > 0 {
                            assert(q[i] == ps[i - 1]);
                        }
                    }
                    assert forall|a: int, b: int|
                        0 <= a < q.len() && 0 <= b < q.len() && (#[trigger] q[a]).symbol
                            == SymbolXO::O && (#[trigger] q[b]).symbol == SymbolXO::O implies a == b by {
                        assert(a > 0 && b > 0);
                        assert(q[a] == ps[a - 1] && q[b] == ps[b - 1]);
                    }
                } else if !exists_in(ps, has_mark(SymbolXO::O)) {
                    assert forall|i: int| 0 <= i < ps.len() implies (#[trigger] ps[i]).symbol != SymbolXO::O by {
                        assert(!has_mark(SymbolXO::O)(ps[i]));
                    }
                    assert forall|i: int|
                        0 <= i < q.len() && (#[trigger] q[i]).symbol == SymbolXO::X implies j.host_id
                        == Some(q[i].id) by {
                        assert(i < ps.len());
                        assert(q[i] == ps[i]);
                    }
                    assert forall|a: int, b: int|
                        0 <= a < q.len() && 0 <= b < q.len() && (#[trigger] q[a]).symbol
                            == SymbolXO::O && (#[trigger] q[b]).symbol == SymbolXO::O implies a == b by {
                        if a < ps.len() {
                            assert(q[a] == ps[a]);
                        }
                        if b < ps.len() {
                            assert(q[b] == ps[b]);
                        }
                    }
                }
            },
            None => {
                assert(ps.len() == 0);
                assert(q.len() == 1);
            },
        }
    }
}

/// Moving, starting a new game and disconnecting leave the seats and the
/// host alone.
pub proof fn lemma_events_keep_seats(r: RoomView, uid: Seq<char>, sid: Seq<char>, x: int, y: int, size: nat)
    requires
        seats_ok(r),
    ensures
        seats_ok(moved(r, uid, x, y)),
        seats_ok(restarted(r, size)),
        seats_ok(disconnected(r, uid, sid).0),
{
}

/// Keeping only the seats that satisfy `f` keeps them distinct.
proof fn lemma_filter_distinct(ps: Seq<PlayerView>, f: spec_fn(PlayerView) -> bool)
    requires
        seats_distinct(ps),
    ensures
        seats_distinct(ps.filter(f)),
        forall|i: int| 0 <= i < ps.filter(f).len() ==> ps.contains(#[trigger] ps.filter(f)[i]),
    decreases ps.len(),
{
    if ps.len() > 0 {
        let t = ps.drop_last();
        let e = ps.last();
        assert(t.push(e) =~= ps);
        assert(seats_distinct(t)) by {
            assert forall|i: int, j: int| 0 <= i < t.len() && 0 <= j < t.len() && i != j implies #[trigger] t[i].id != #[trigger] t[j].id by {
                assert(t[i] == ps[i] && t[j] == ps[j]);
            }
        }
        lemma_filter_distinct(t, f);
        t.lemma_filter_push(e, f);
        let ft = t.filter(f);
        assert forall|i: int| 0 <= i < ft.len() implies #[trigger] ft[i].id != e.id by {
            let k = choose|k: int| 0 <= k < t.len() && t[k] == ft[i];
            assert(ps[k] == t[k]);
            assert(ps[ps.len() - 1] == e);
        }
        assert forall|i: int| 0 <= i < ps.filter(f).len() implies ps.contains(#[trigger] ps.filter(f)[i]) by {
            if i < ft.len() {
                let k = choose|k: int| 0 <= k < t.len() && t[k] == ft[i];
                assert(ps[k] == t[k]);
            } else {
                assert(ps[ps.len() - 1] == e);
            }
        }
    }
}

/// Filtering seats keeps every seat it keeps from `ps`, O seats included.
proof fn lemma_filter_members(ps: Seq<PlayerView>, f: spec_fn(PlayerView) -> bool, i: int)
    requires
        0 <= i < ps.filter(f).len(),
    ensures
        exists|k: int| 0 <= k < ps.len() && ps[k] == ps.filter(f)[i] && f(ps[k]),
    decreases ps.len(),
{
    ps.filter_lemma(f);
    assert(f(ps.filter(f)[i]));
    let t = ps.drop_last();
    if ps.len() > 0 {
        assert(t.push(ps.last()) =~= ps);
        t.lemma_filter_push(ps.last(), f);
        if i < t.filter(f).len() {
            lemma_filter_members(t, f, i);
            let k = choose|k: int| 0 <= k < t.len() && t[k] == t.filter(f)[i] && f(t[k]);
            assert(ps[k] == t[k]);
        } else {
            assert(ps[ps.len() - 1] == ps.filter(f)[i]);
        }
    }
}

/// A member leaving at the end of a grace period keeps the seats as joins
/// make them, unless the room is abandoned.
pub proof fn lemma_expire_keeps_seats(r: RoomView, uid: Seq<char>, r2: RoomView)
    requires
        seats_ok(r),
        r2 == (RoomView { offline_timers: r.offline_timers.remove(uid), ..r }) || (r2 == (
        RoomView {
            host_id: r2.host_id,
            offline_timers: r.offline_timers.remove(uid),
            ..without_user(r, uid)
        }) && (r.host_id == Some(uid) ==> r2.host_id is Some) && (r.host_id != Some(uid)
            ==> r2.host_id == r.host_id)),
    ensures
        seats_ok(r2),
{
    if r2 != (RoomView { offline_timers: r.offline_timers.remove(uid), ..r }) {
        let ps = r.players;
        let f = lacks_id(uid);
        let q = ps.filter(f);
        assert(r2.players == q);
        lemma_filter_distinct(ps, f);
        ps.filter_lemma(f);
        assert forall|i: int| 0 <= i < q.len() && (#[trigger] q[i]).symbol == SymbolXO::X implies r2.host_id
            == Some(q[i].id) by {
            lemma_filter_members(ps, f, i);
            let k = choose|k: int| 0 <= k < ps.len() && ps[k] == q[i] && f(ps[k]);
            assert(ps[k].symbol == SymbolXO::X);
            assert(r.host_id == Some(ps[k].id));
            assert(ps[k].id != uid);
        }
        assert forall|a: int, b: int|
            0 <= a < q.len() && 0 <= b < q.len() && (#[trigger] q[a]).symbol == SymbolXO::O && (
            #[trigger] q[b]).symbol == SymbolXO::O implies a == b by {
            lemma_filter_members(ps, f, a);
            lemma_filter_members(ps, f, b);
            let ka = choose|k: int| 0 <= k < ps.len() && ps[k] == q[a] && f(ps[k]);
            let kb = choose|k: int| 0 <= k < ps.len() && ps[k] == q[b] && f(ps[k]);
            assert(ps[ka].symbol == SymbolXO::O && ps[kb].symbol == SymbolXO::O);
            assert(ka == kb);
            if a != b {
                assert(q[a].id != q[b].id);
            }
        }
    }
}

/// A move that makes five in a row, in a room where someone else is
/// seated, leaves a finished game to record that names the mover as the
/// winner and first player, and a seated other player as the second.
pub proof fn lemma_win_record_names_mover(r: RoomView, uid: Seq<char>, x: int, y: int)
    requires
        move_allowed(r, uid, x, y),
        crate::board::winner_at(place(r.board, x, y, seat_of(r, uid).symbol), x, y) is Some,
        exists|i: int| 0 <= i < r.players.len() && #[trigger] r.players[i].id != uid,
    ensures
        move_record(r, uid, x, y) is Some,
        move_record(r, uid, x, y)->0.winner_id == Some(uid),
        move_record(r, uid, x, y)->0.id1 == uid,
        move_record(r, uid, x, y)->0.id2 != uid,
        exists|k: int|
            0 <= k < r.players.len() && #[trigger] r.players[k].id == move_record(
                r,
                uid,
                x,
                y,
            )->0.id2,
{
    lemma_first_exists(r.players, has_id(uid));
    let p = seat_of(r, uid);
    assert(has_id(uid)(p));
    let w = choose|i: int| 0 <= i < r.players.len() && #[trigger] r.players[i].id != uid;
    assert(lacks_id(p.id)(r.players[w]));
    lemma_first_exists(r.players, lacks_id(p.id));
    let k = first_in(r.players, lacks_id(p.id));
    assert(lacks_id(p.id)(r.players[k]));
}

/// A user who had no seat and takes one on joining sits under the id and
/// the name they joined with; the host takes X, anyone else O.
pub proof fn lemma_new_seat_carries_the_user(r: RoomView, u: UserView, sid: Seq<char>, i: int)
    requires
        forall|j: int| 0 <= j < r.players.len() ==> (#[trigger] r.players[j]).id != u.id,
        0 <= i < joined(r, u, sid).players.len(),
        joined(r, u, sid).players[i].id == u.id,
    ensures
        joined(r, u, sid).players[i].name == u.name,
        r.host_id == Some(u.id) ==> joined(r, u, sid).players[i].symbol == SymbolXO::X,
        r.host_id is Some && r.host_id != Some(u.id) ==> joined(r, u, sid).players[i].symbol
            == SymbolXO::O,
{
    let ps = r.players;
    let q = joined(r, u, sid).players;
    if exists_in(ps, has_id(u.id)) {
        let w = choose|j: int| 0 <= j < ps.len() && #[trigger] has_id(u.id)(ps[j]);
        assert(ps[w].id != u.id);
    }
    match r.host_id {
        Some(h) => {
            if u.id == h {
                if i > 0 {
                    assert(q[i] == ps[i - 1]);
                }
            } else if q.len() > ps.len() {
                if i < ps.len() {
                    assert(q[i] == ps[i]);
                }
            } else {
                assert(q == ps);
            }
        },
        None => {
            if q.len() > ps.len() {
                if i < ps.len() {
                    assert(q[i] == ps[i]);
                }
            } else {
                assert(q == ps);
            }
        },
    }
}

/// With no winner of the game before, a new game lets the previous first
/// mover, when still seated, move first again with its mark.
pub proof fn lemma_first_mover_starts_again(r: RoomView, size: nat, f: Seq<char>, i: int)
    requires
        r.last_winner_id is None,
        r.first_mover_id == Some(f),
        0 <= i < r.players.len(),
        r.players[i].id == f,
        forall|j: int| 0 <= j < i ==> (#[trigger] r.players[j]).id != f,
    ensures
        restarted(r, size).next_turn == r.players[i].symbol,
        restarted(r, size).first_mover_id == Some(f),
        restarted(r, size).board == crate::board::empty_board(size),
        restarted(r, size).winner is None,
        restarted(r, size).last_winner_id is None,
{
    assert forall|j: int| 0 <= j < i implies !#[trigger] has_id(f)(r.players[j]) by {}
    lemma_first_at(r.players, has_id(f), i);
}

/// A member connected through some socket.
pub open spec fn connected(r: RoomView, id: Seq<char>) -> bool {
    r.members.contains_key(id) && exists|s: Seq<char>| #[trigger] r.members[id].sockets.contains(s)
}

/// A host that `host_pick_ok` admits is, whenever some seated player is
/// connected, the first seated player who is connected; otherwise a
/// connected member; and none exactly when nobody is connected.
pub proof fn lemma_host_pick_prefers_players(r: RoomView, h: Option<Seq<char>>)
    requires
        host_pick_ok(r, h),
    ensures
        (exists|i: int| 0 <= i < r.players.len() && connected(r, #[trigger] r.players[i].id))
            ==> (exists|k: int|
            0 <= k < r.players.len() && h == Some(#[trigger] r.players[k].id) && connected(
                r,
                r.players[k].id,
            ) && forall|j: int| 0 <= j < k ==> !connected(r, #[trigger] r.players[j].id)),
        h is Some ==> connected(r, h->0),
        h is None <==> forall|id: Seq<char>| !#[trigger] connected(r, id),
{
    assert forall|id: Seq<char>| #[trigger] connected(r, id) == online(r, id) by {
        if r.members.contains_key(id) {
            if connected(r, id) {
                let s = choose|s: Seq<char>| #[trigger] r.members[id].sockets.contains(s);
                assert(!no_sockets(r.members[id].sockets));
            }
            if online(r, id) {
                let s = choose|s: Seq<char>| #[trigger] r.members[id].sockets.contains(s);
                assert(connected(r, id));
            }
        }
    }
    if exists|i: int| 0 <= i < r.players.len() && connected(r, #[trigger] r.players[i].id) {
        let i = choose|i: int| 0 <= i < r.players.len() && connected(r, #[trigger] r.players[i].id);
        assert(is_online_player(r)(r.players[i]));
        assert(exists_in(r.players, is_online_player(r)));
        lemma_first_exists(r.players, is_online_player(r));
        let k = first_in(r.players, is_online_player(r));
        assert(is_online_player(r)(r.players[k]));
        assert forall|j: int| 0 <= j < k implies !connected(r, #[trigger] r.players[j].id) by {
            assert(!is_online_player(r)(r.players[j]));
        }
    }
    if h is Some {
        if exists_in(r.players, is_online_player(r)) {
            lemma_first_exists(r.players, is_online_player(r));
            let k = first_in(r.players, is_online_player(r));
            assert(is_online_player(r)(r.players[k]));
            assert(h->0 == r.players[k].id);
        }
        assert(online(r, h->0));
        assert(connected(r, h->0));
    }
}

} // verus!
