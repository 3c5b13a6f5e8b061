//! Rooms: making a new one, who plays which mark, who takes over as host,
//! the key under which two players' results are kept, and the collection
//! of open rooms.
use vstd::prelude::*;
use crate::keyed;
use crate::types::{Room, RoomView, SymbolXO, User, member_key, member_val, opt_view, players_view};
use crate::game::{
    DisconnectOutcome, ExpireOutcome, MoveOutcome, apply_move, disconnected, exists_in, expire_offline,
    find_member, go_offline, has_id, host_pick_ok, is_online_player, join_room, joined,
    lemma_empty_strings, lemma_first_at, move_allowed, move_record, moved, online, record_view,
    restart_game, restarted, spec_symbol_of, without_user,
};
use crate::text::{seq_le, str_eq, str_le, trim, trimmed};

verus! {

/// A character nanoid's URL-safe alphabet uses: `_`, `-`, a digit or an
/// ASCII letter.
pub open spec fn is_safe_char(c: char) -> bool {
    c == '_' || c == '-' || ('0' <= c && c <= '9') || ('a' <= c && c <= 'z') || ('A' <= c && c
        <= 'Z')
}

/// A character of a generated room id: `_`, `-`, a digit or an upper-case
/// ASCII letter.
pub open spec fn is_room_id_char(c: char) -> bool {
    c == '_' || c == '-' || ('0' <= c && c <= '9') || ('A' <= c && c <= 'Z')
}

/// The ASCII upper-case form of `c`.
pub open spec fn ascii_upper(c: char) -> char {
    if 'a' <= c && c <= 'z' {
        ((c as int) - 32) as char
    } else {
        c
    }
}

/// Calls `nanoid::format` with nanoid's default random source and its
/// URL-safe alphabet (what `nanoid!(size)` expands to). Each outcome is
/// random; what holds of every outcome is that it has `size` characters,
/// each from that alphabet. With `size` zero the call never returns, and
/// the source's `8 * size` must not overflow; which characters come out is
/// left unsaid.
#[verifier::external_body]
fn nanoid_safe(size: usize) -> (res: String)
    requires
        1 <= size <= usize::MAX / 8,
    ensures
        res@.len() == size,
        forall|i: int| 0 <= i < size ==> is_safe_char(#[trigger] res@[i]),
{
    nanoid::format(nanoid::rngs::default, &nanoid::alphabet::SAFE, size)
}

/// Calls `str::to_ascii_uppercase`, which maps 'a' to 'z' to 'A' to 'Z'
/// and leaves every other character as it is.
#[verifier::external_body]
fn to_ascii_uppercase(s: &str) -> (res: String)
    ensures
        res@ == s@.map_values(|c: char| ascii_upper(c)),
{
    s.to_ascii_uppercase()
}

/// A fresh random id of `size` characters, as a user or room id.
pub fn random_id(size: usize) -> (res: String)
    requires
        1 <= size <= usize::MAX / 8,
    ensures
        res@.len() == size,
        forall|i: int| 0 <= i < size ==> is_safe_char(#[trigger] res@[i]),
{
    nanoid_safe(size)
}

/// A fresh random room id: six characters of nanoid's alphabet, in upper case.
pub fn random_room_id() -> (res: String)
    ensures
        res@.len() == 6,
        forall|i: int| 0 <= i < 6 ==> is_room_id_char(#[trigger] res@[i]),
{
    let id = nanoid_safe(6);
    let up = to_ascii_uppercase(id.as_str());
    assert forall|i: int| 0 <= i < 6 implies is_room_id_char(#[trigger] up@[i]) by {
        assert(is_safe_char(id@[i]));
    }
    up
}

/// A new user named `name` without its surrounding white space, under a
/// fresh random id of twelve characters; none when no name is left.
pub fn create_user(name: Option<String>) -> (res: Option<User>)
    ensures
        match name {
            None => res is None,
            Some(n) => if trimmed(n@).len() == 0 {
                res is None
            } else {
                res is Some && res->0.name@ == trimmed(n@) && res->0.id@.len() == 12 && forall|
                    i: int,
                | 0 <= i < 12 ==> is_safe_char(#[trigger] res->0.id@[i])
            },
        },
{
    match name {
        None => None,
        Some(n) => {
            let t = trim(n.as_str());
            if t.as_str().is_empty() {
                None
            } else {
                Some(User { id: random_id(12), name: t })
            }
        },
    }
}

/// A room named `id` with an empty `size` by `size` board, nobody in it,
/// X to move and no game result.
pub open spec fn fresh_room(id: Seq<char>, size: nat) -> RoomView {
    RoomView {
        id: id,
        board: crate::board::empty_board(size),
        players: Seq::empty(),
        next_turn: SymbolXO::X,
        winner: None,
        last_move: None,
        host_id: None,
        members: Map::empty(),
        offline_timers: Set::empty(),
        first_mover_id: None,
        last_winner_id: None,
    }
}

/// Makes a new room named `id`, or under a fresh random id when `id` is none.
pub fn make_room(id: Option<String>, size: usize) -> (room: Room)
    ensures
        room.wf(),
        match id {
            Some(s) => room@ == fresh_room(s@, size as nat),
            None => room@ == fresh_room(room@.id, size as nat) && room@.id.len() == 6 && forall|
                i: int,
            | 0 <= i < 6 ==> is_room_id_char(#[trigger] room@.id[i]),
        },
{
    let room_id = match id {
        Some(s) => s,
        None => random_room_id(),
    };
    let room = Room {
        id: room_id,
        board: crate::board::new_board(size),
        players: Vec::new(),
        next_turn: SymbolXO::X,
        winner: None,
        last_move: None,
        host_id: None,
        members: Vec::new(),
        offline_timers: Vec::new(),
        first_mover_id: None,
        last_winner_id: None,
    };
    proof {
        keyed::lemma_keyed_empty(room.members@, member_key(), member_val());
        keyed::lemma_keyed_empty(room.offline_timers@, keyed::str_key(), keyed::no_val());
        assert(players_view(room.players@) =~= Seq::empty());
        assert(keyed::string_set(room.offline_timers@) =~= Set::empty());
    }
    room
}

/// The mark of the player with the id `user_id`, if that user is seated.
pub fn symbol_of(room: &Room, user_id: &str) -> (res: Option<SymbolXO>)
    ensures
        res == spec_symbol_of(room@.players, user_id@),
{
    let ghost ps = players_view(room.players@);
    let mut i: usize = 0;
    while i < room.players.len()
        invariant
            ps == players_view(room.players@),
            i <= room.players.len(),
            forall|j: int| 0 <= j < i ==> !#[trigger] has_id(user_id@)(ps[j]),
        decreases room.players.len() - i,
    {
        if str_eq(room.players[i].id.as_str(), user_id) {
            proof {
                lemma_first_at(ps, has_id(user_id@), i as int);
            }
            return Some(room.players[i].symbol);
        }
        i = i + 1;
    }
    None
}

/// The two ids in order, the smaller first.
pub open spec fn ordered(a: Seq<char>, b: Seq<char>) -> (Seq<char>, Seq<char>) {
    if seq_le(a, b) {
        (a, b)
    } else {
        (b, a)
    }
}

/// The key of a pair of players: the smaller id, '|', the larger id.
pub open spec fn spec_pair_key(a: Seq<char>, b: Seq<char>) -> Seq<char> {
    ordered(a, b).0 + seq!['|'] + ordered(a, b).1
}

/// Puts two ids in order, the smaller first.
pub fn order_pair<'a>(id1: &'a str, id2: &'a str) -> (res: (&'a str, &'a str))
    ensures
        (res.0@, res.1@) == ordered(id1@, id2@),
{
    if str_le(id1, id2) {
        (id1, id2)
    } else {
        (id2, id1)
    }
}

/// The key under which the results between two players are kept.
pub fn pair_key(id1: &str, id2: &str) -> (res: String)
    ensures
        res@ == spec_pair_key(id1@, id2@),
{
    let (a, b) = order_pair(id1, id2);
    let mut key = String::from_str(a);
    key.append("|");
    key.append(b);
    proof {
        reveal_strlit("|");
    }
    key
}

/// Ordering two ids gives the same pair whichever comes first.
pub proof fn lemma_ordered_symmetric(a: Seq<char>, b: Seq<char>)
    ensures
        ordered(a, b) == ordered(b, a),
{
    crate::text::lemma_seq_le_total(a, b);
    if seq_le(a, b) && seq_le(b, a) {
        crate::text::lemma_seq_le_antisymmetric(a, b);
    }
}

/// The key of a pair does not depend on the order the two ids come in.
pub proof fn lemma_pair_key_symmetric(a: Seq<char>, b: Seq<char>)
    ensures
        spec_pair_key(a, b) == spec_pair_key(b, a),
{
    lemma_ordered_symmetric(a, b);
}

/// Whether the member with the id `id` is connected through some socket.
pub fn is_online(room: &Room, id: &String) -> (res: bool)
    requires
        room.wf(),
    ensures
        res == online(room@, id@),
{
    let ghost m = room.members@;
    match find_member(&room.members, id) {
        Some(i) => {
            proof {
                keyed::lemma_keyed_index(m, member_key(), member_val(), i as int);
                lemma_empty_strings(m[i as int].sockets@);
            }
            room.members[i].sockets.len() > 0
        },
        None => {
            proof {
                keyed::lemma_keyed_absent(m, member_key(), member_val(), id@);
            }
            false
        },
    }
}

/// The member to take over as host: the first seated player who is
/// online; failing that, a member who is online; none when nobody is.
pub fn pick_new_host(room: &Room) -> (res: Option<String>)
    requires
        room.wf(),
    ensures
        host_pick_ok(room@, opt_view(res)),
{
    let ghost r = room@;
    let ghost ps = players_view(room.players@);
    let mut i: usize = 0;
    while i < room.players.len()
        invariant
            r == room@,
            room.wf(),
            ps == players_view(room.players@),
            i <= room.players.len(),
            forall|j: int| 0 <= j < i ==> !#[trigger] is_online_player(r)(ps[j]),
        decreases room.players.len() - i,
    {
        if is_online(room, &room.players[i].id) {
            proof {
                lemma_first_at(ps, is_online_player(r), i as int);
            }
            return Some(room.players[i].id.clone());
        }
        i = i + 1;
    }
    assert(!exists_in(ps, is_online_player(r)));
    let ghost m = room.members@;
    let mut k: usize = 0;
    while k < room.members.len()
        invariant
            r == room@,
            room.wf(),
            m == room.members@,
            !exists_in(players_view(room.players@), is_online_player(r)),
            k <= room.members.len(),
            forall|j: int| 0 <= j < k ==> !#[trigger] online(r, m[j].user.id@),
        decreases room.members.len() - k,
    {
        proof {
            keyed::lemma_keyed_index(m, member_key(), member_val(), k as int);
            lemma_empty_strings(m[k as int].sockets@);
        }
        if room.members[k].sockets.len() > 0 {
            assert(online(r, m[k as int].user.id@));
            return Some(room.members[k].user.id.clone());
        }
        k = k + 1;
    }
    assert forall|id: Seq<char>| !#[trigger] online(r, id) by {
        if r.members.contains_key(id) {
            let j = keyed::key_index(m, member_key(), id);
            assert(member_key()(m[j]) == id);
            assert(!online(r, m[j].user.id@));
        }
    }
    None
}

/// A room entry is keyed by the room's id.
pub open spec fn room_key() -> spec_fn(Room) -> Seq<char> {
    |r: Room| r.id@
}

pub open spec fn room_val() -> spec_fn(Room) -> RoomView {
    |r: Room| r@
}

/// The open rooms, each under its id.
pub struct RoomStore {
    rooms: Vec<Room>,
}

impl View for RoomStore {
    type V = Map<Seq<char>, RoomView>;

    closed spec fn view(&self) -> Map<Seq<char>, RoomView> {
        keyed::keyed_map(self.rooms@, room_key(), room_val())
    }
}

impl RoomStore {
    /// Each id is held once, and each room is one the store can hold.
    #[verifier::type_invariant]
    closed spec fn inv(&self) -> bool {
        &&& keyed::keys_unique(self.rooms@, room_key())
        &&& forall|i: int| 0 <= i < self.rooms@.len() ==> #[trigger] room_ok(self.rooms@[i])
    }

    /// No rooms.
    pub fn new() -> (res: RoomStore)
        ensures
            res@ == Map::<Seq<char>, RoomView>::empty(),
    {
        let res = RoomStore { rooms: Vec::new() };
        proof {
            keyed::lemma_keyed_empty(res.rooms@, room_key(), room_val());
        }
        res
    }

    /// Whether a room is open under `id`.
    pub fn contains(&self, id: &str) -> (res: bool)
        ensures
            res == self@.contains_key(id@),
    {
        proof {
            use_type_invariant(self);
        }
        match Self::find_in(&self.rooms, id) {
            Some(i) => {
                proof {
                    keyed::lemma_keyed_index(self.rooms@, room_key(), room_val(), i as int);
                }
                true
            },
            None => false,
        }
    }

    /// The room open under `id`, if any.
    pub fn get(&self, id: &str) -> (res: Option<&Room>)
        ensures
            match res {
                Some(r) => self@.contains_key(id@) && r@ == self@[id@] && room_ok(*r)
                    && r@.players.len() <= 2,
                None => !self@.contains_key(id@),
            },
    {
        proof {
            use_type_invariant(self);
        }
        match Self::find_in(&self.rooms, id) {
            Some(i) => {
                proof {
                    keyed::lemma_keyed_index(self.rooms@, room_key(), room_val(), i as int);
                    assert(room_ok(self.rooms@[i as int]));
                    crate::game::lemma_at_most_two_players(self.rooms@[i as int]@);
                }
                Some(&self.rooms[i])
            },
            None => None,
        }
    }

    /// Opens `room` under its id, in place of any room open under it.
    pub fn insert(&mut self, room: Room)
        requires
            room_ok(room),
        ensures
            final(self)@ == old(self)@.insert(room@.id, room@),
    {
        proof {
            use_type_invariant(&*self);
        }
        let mut rooms: Vec<Room> = Vec::new();
        std::mem::swap(&mut rooms, &mut self.rooms);
        let ghost r0 = rooms@;
        match Self::find_in(&rooms, room.id.as_str()) {
            Some(i) => {
                proof {
                    keyed::lemma_keyed_update(r0, room_key(), room_val(), i as int, room);
                }
                rooms.set(i, room);
                assert forall|j: int| 0 <= j < rooms@.len() implies #[trigger] room_ok(rooms@[j]) by {
                    if j != i {
                        assert(rooms@[j] == r0[j]);
                    }
                }
            },
            None => {
                proof {
                    keyed::lemma_keyed_push(r0, room_key(), room_val(), room);
                }
                rooms.push(room);
                assert forall|j: int| 0 <= j < rooms@.len() implies #[trigger] room_ok(rooms@[j]) by {
                    if j < r0.len() {
                        assert(rooms@[j] == r0[j]);
                    }
                }
            },
        }
        self.rooms = rooms;
    }

    /// Opens a new room with an empty `size` by `size` board under a fresh
    /// random id, in place of any room open under that id, and gives the id.
    pub fn create_room(&mut self, size: usize) -> (id: String)
        requires
            size <= i32::MAX,
        ensures
            final(self)@ == old(self)@.insert(id@, fresh_room(id@, size as nat)),
            id@.len() == 6,
            forall|i: int| 0 <= i < 6 ==> is_room_id_char(#[trigger] id@[i]),
    {
        let room = make_room(None, size);
        let id = room.id.clone();
        self.insert(room);
        id
    }

    /// Closes the room open under `id` and hands it back, if there was one.
    pub fn remove(&mut self, id: &str) -> (res: Option<Room>)
        ensures
            final(self)@ == old(self)@.remove(id@),
            match res {
                Some(r) => old(self)@.contains_key(id@) && r@ == old(self)@[id@],
                None => !old(self)@.contains_key(id@),
            },
    {
        proof {
            use_type_invariant(&*self);
        }
        let mut rooms: Vec<Room> = Vec::new();
        std::mem::swap(&mut rooms, &mut self.rooms);
        let ghost r0 = rooms@;
        let res = match Self::find_in(&rooms, id) {
            Some(i) => {
                proof {
                    keyed::lemma_keyed_index(r0, room_key(), room_val(), i as int);
                    keyed::lemma_keyed_remove(r0, room_key(), room_val(), i as int);
                }
                let r = rooms.remove(i);
                assert forall|j: int| 0 <= j < rooms@.len() implies #[trigger] room_ok(rooms@[j]) by {
                    if j < i {
                        assert(rooms@[j] == r0[j]);
                    } else {
                        assert(rooms@[j] == r0[j + 1]);
                    }
                }
                Some(r)
            },
            None => {
                proof {
                    assert(keyed::keyed_map(r0, room_key(), room_val()).remove(id@) =~= keyed::keyed_map(
                        r0,
                        room_key(),
                        room_val(),
                    ));
                }
                None
            },
        };
        self.rooms = rooms;
        res
    }

    /// Lets `user` join the room `room_id` through `socket_id`, opening the
    /// room with an empty `size` by `size` board first if it is not open.
    pub fn join(&mut self, room_id: String, user: User, socket_id: String, size: usize)
        requires
            size <= i32::MAX,
        ensures
            final(self)@ == old(self)@.insert(
                room_id@,
                joined(
                    if old(self)@.contains_key(room_id@) {
                        old(self)@[room_id@]
                    } else {
                        fresh_room(room_id@, size as nat)
                    },
                    user@,
                    socket_id@,
                ),
            ),
    {
        proof {
            use_type_invariant(&*self);
        }
        if !self.contains(room_id.as_str()) {
            let room = make_room(Some(room_id.clone()), size);
            self.insert(room);
        }
        proof {
            use_type_invariant(&*self);
        }
        let mut rooms: Vec<Room> = Vec::new();
        std::mem::swap(&mut rooms, &mut self.rooms);
        let ghost r0 = rooms@;
        let i = match Self::find_in(&rooms, room_id.as_str()) {
            Some(i) => i,
            None => {
                proof {
                    keyed::lemma_keyed_absent(r0, room_key(), room_val(), room_id@);
                }
                self.rooms = rooms;
                return;
            },
        };
        proof {
            keyed::lemma_keyed_index(r0, room_key(), room_val(), i as int);
            assert(room_ok(r0[i as int]));
        }
        let ghost before = r0[i as int]@;
        let ghost u = user@;
        let ghost sid = socket_id@;
        join_room(&mut rooms[i], user, socket_id);
        proof {
            crate::game::lemma_join_keeps_seats(before, u, sid);
            lemma_store_update(r0, i as int, rooms@[i as int]);
            assert(rooms@ == r0.update(i as int, rooms@[i as int]));
        }
        self.rooms = rooms;
    }

    /// Lets `user_id` place a stone at (`x`, `y`) in the room `room_id`;
    /// none when no such room is open.
    pub fn play(&mut self, room_id: &str, user_id: &String, x: usize, y: usize) -> (res: Option<
        MoveOutcome,
    >)
        ensures
            match res {
                None => !old(self)@.contains_key(room_id@) && final(self)@ == old(self)@,
                Some(MoveOutcome::Ignored) => old(self)@.contains_key(room_id@) && !move_allowed(
                    old(self)@[room_id@],
                    user_id@,
                    x as int,
                    y as int,
                ) && final(self)@ == old(self)@,
                Some(MoveOutcome::Played(rec)) => old(self)@.contains_key(room_id@) && move_allowed(
                    old(self)@[room_id@],
                    user_id@,
                    x as int,
                    y as int,
                ) && final(self)@ == old(self)@.insert(
                    room_id@,
                    moved(old(self)@[room_id@], user_id@, x as int, y as int),
                ) && record_view(rec) == move_record(
                    old(self)@[room_id@],
                    user_id@,
                    x as int,
                    y as int,
                ),
            },
    {
        proof {
            use_type_invariant(&*self);
        }
        let mut rooms: Vec<Room> = Vec::new();
        std::mem::swap(&mut rooms, &mut self.rooms);
        let ghost r0 = rooms@;
        let i = match Self::find_in(&rooms, room_id) {
            Some(i) => i,
            None => {
                self.rooms = rooms;
                return None;
            },
        };
        proof {
            keyed::lemma_keyed_index(r0, room_key(), room_val(), i as int);
            assert(room_ok(r0[i as int]));
        }
        let ghost before = r0[i as int]@;
        let out = apply_move(&mut rooms[i], user_id, x, y);
        proof {
            crate::game::lemma_events_keep_seats(before, user_id@, Seq::empty(), x as int, y as int, 0);
            lemma_store_update(r0, i as int, rooms@[i as int]);
            assert(rooms@ == r0.update(i as int, rooms@[i as int]));
            if out is Ignored {
                assert(keyed::keyed_map(r0, room_key(), room_val()).insert(room_id@, r0[i as int]@)
                    =~= keyed::keyed_map(r0, room_key(), room_val()));
            }
        }
        self.rooms = rooms;
        Some(out)
    }

    /// Starts a new game on a `size` by `size` board in the room `room_id`
    /// if `user_id` is seated there; none when no such room is open.
    pub fn restart(&mut self, room_id: &str, user_id: &String, size: usize) -> (res: Option<bool>)
        requires
            size <= i32::MAX,
        ensures
            match res {
                None => !old(self)@.contains_key(room_id@) && final(self)@ == old(self)@,
                Some(done) => old(self)@.contains_key(room_id@) && done == exists_in(
                    old(self)@[room_id@].players,
                    has_id(user_id@),
                ) && final(self)@ == if done {
                    old(self)@.insert(room_id@, restarted(old(self)@[room_id@], size as nat))
                } else {
                    old(self)@
                },
            },
    {
        proof {
            use_type_invariant(&*self);
        }
        let mut rooms: Vec<Room> = Vec::new();
        std::mem::swap(&mut rooms, &mut self.rooms);
        let ghost r0 = rooms@;
        let i = match Self::find_in(&rooms, room_id) {
            Some(i) => i,
            None => {
                self.rooms = rooms;
                return None;
            },
        };
        proof {
            keyed::lemma_keyed_index(r0, room_key(), room_val(), i as int);
            assert(room_ok(r0[i as int]));
        }
        let ghost before = r0[i as int]@;
        let done = restart_game(&mut rooms[i], user_id, size);
        proof {
            crate::game::lemma_events_keep_seats(before, user_id@, Seq::empty(), 0, 0, size as nat);
            lemma_store_update(r0, i as int, rooms@[i as int]);
            assert(rooms@ == r0.update(i as int, rooms@[i as int]));
            if !done {
                assert(keyed::keyed_map(r0, room_key(), room_val()).insert(room_id@, r0[i as int]@)
                    =~= keyed::keyed_map(r0, room_key(), room_val()));
            }
        }
        self.rooms = rooms;
        Some(done)
    }

    /// Records that `user_id` lost the socket `socket_id` in the room
    /// `room_id`; none when no such room is open.
    pub fn disconnect(&mut self, room_id: &str, user_id: &String, socket_id: &String) -> (res:
        Option<DisconnectOutcome>)
        ensures
            match res {
                None => !old(self)@.contains_key(room_id@) && final(self)@ == old(self)@,
                Some(out) => old(self)@.contains_key(room_id@) && (final(self)@[room_id@], out)
                    == disconnected(old(self)@[room_id@], user_id@, socket_id@) && final(self)@
                    == old(self)@.insert(room_id@, final(self)@[room_id@]),
            },
    {
        proof {
            use_type_invariant(&*self);
        }
        let mut rooms: Vec<Room> = Vec::new();
        std::mem::swap(&mut rooms, &mut self.rooms);
        let ghost r0 = rooms@;
        let i = match Self::find_in(&rooms, room_id) {
            Some(i) => i,
            None => {
                self.rooms = rooms;
                return None;
            },
        };
        proof {
            keyed::lemma_keyed_index(r0, room_key(), room_val(), i as int);
            assert(room_ok(r0[i as int]));
        }
        let ghost before = r0[i as int]@;
        let out = go_offline(&mut rooms[i], user_id, socket_id);
        proof {
            crate::game::lemma_events_keep_seats(before, user_id@, socket_id@, 0, 0, 0);
            lemma_store_update(r0, i as int, rooms@[i as int]);
            assert(rooms@ == r0.update(i as int, rooms@[i as int]));
        }
        self.rooms = rooms;
        Some(out)
    }

    /// Ends the grace period of `user_id` in the room `room_id`, closing
    /// the room when it is abandoned; none when no such room is open.
    pub fn expire(&mut self, room_id: &str, user_id: &String) -> (res: Option<ExpireOutcome>)
        ensures
            match res {
                None => !old(self)@.contains_key(room_id@) && final(self)@ == old(self)@,
                Some(ExpireOutcome::Abandoned) => old(self)@.contains_key(room_id@) && !online(
                    old(self)@[room_id@],
                    user_id@,
                ) && old(self)@[room_id@].host_id == Some(user_id@) && host_pick_ok(
                    without_user(old(self)@[room_id@], user_id@),
                    None,
                ) && final(self)@ == old(self)@.remove(room_id@),
                Some(ExpireOutcome::Reconnected) => old(self)@.contains_key(room_id@) && online(
                    old(self)@[room_id@],
                    user_id@,
                ) && final(self)@ == old(self)@.insert(
                    room_id@,
                    RoomView {
                        offline_timers: old(self)@[room_id@].offline_timers.remove(user_id@),
                        ..old(self)@[room_id@]
                    },
                ),
                Some(ExpireOutcome::Updated) => old(self)@.contains_key(room_id@) && !online(
                    old(self)@[room_id@],
                    user_id@,
                ) && final(self)@.contains_key(room_id@) && final(self)@ == old(self)@.insert(
                    room_id@,
                    RoomView {
                        host_id: final(self)@[room_id@].host_id,
                        offline_timers: old(self)@[room_id@].offline_timers.remove(user_id@),
                        ..without_user(old(self)@[room_id@], user_id@)
                    },
                ) && if old(self)@[room_id@].host_id == Some(user_id@) {
                    final(self)@[room_id@].host_id is Some && host_pick_ok(
                        without_user(old(self)@[room_id@], user_id@),
                        final(self)@[room_id@].host_id,
                    )
                } else {
                    final(self)@[room_id@].host_id == old(self)@[room_id@].host_id
                },
            },
    {
        proof {
            use_type_invariant(&*self);
        }
        let mut rooms: Vec<Room> = Vec::new();
        std::mem::swap(&mut rooms, &mut self.rooms);
        let ghost r0 = rooms@;
        let i = match Self::find_in(&rooms, room_id) {
            Some(i) => i,
            None => {
                self.rooms = rooms;
                return None;
            },
        };
        proof {
            keyed::lemma_keyed_index(r0, room_key(), room_val(), i as int);
            assert(room_ok(r0[i as int]));
        }
        let ghost before = r0[i as int]@;
        let out = expire_offline(&mut rooms[i], user_id);
        if out == ExpireOutcome::Abandoned {
            proof {
                let r1 = r0.update(i as int, rooms@[i as int]);
                assert(rooms@ == r1);
                keyed::lemma_keyed_update(r0, room_key(), room_val(), i as int, rooms@[i as int]);
                keyed::lemma_keyed_remove(r1, room_key(), room_val(), i as int);
                assert(keyed::keyed_map(r0, room_key(), room_val()).insert(room_id@, rooms@[i as int]@).remove(room_id@)
                    =~= keyed::keyed_map(r0, room_key(), room_val()).remove(room_id@));
            }
            let ghost r1 = rooms@;
            rooms.remove(i);
            assert forall|j: int| 0 <= j < rooms@.len() implies #[trigger] room_ok(rooms@[j]) by {
                if j < i {
                    assert(rooms@[j] == r0[j]);
                } else {
                    assert(rooms@[j] == r0[j + 1]);
                }
            }
        } else {
            proof {
                crate::game::lemma_expire_keeps_seats(before, user_id@, rooms@[i as int]@);
                lemma_store_update(r0, i as int, rooms@[i as int]);
                assert(rooms@ == r0.update(i as int, rooms@[i as int]));
                keyed::lemma_keyed_index(rooms@, room_key(), room_val(), i as int);
            }
        }
        self.rooms = rooms;
        Some(out)
    }

    fn find_in(rooms: &Vec<Room>, id: &str) -> (res: Option<usize>)
        ensures
            match res {
                Some(i) => i < rooms@.len() && rooms@[i as int].id@ == id@,
                None => !keyed::has_key(rooms@, room_key(), id@),
            },
    {
        let mut i: usize = 0;
        while i < rooms.len()
            invariant
                i <= rooms.len(),
                forall|j: int| 0 <= j < i ==> rooms@[j].id@ != id@,
            decreases rooms.len() - i,
        {
            if str_eq(rooms[i].id.as_str(), id) {
                return Some(i);
            }
            i = i + 1;
        }
        assert forall|j: int| 0 <= j < rooms@.len() implies #[trigger] room_key()(rooms@[j]) != id@ by {}
        None
    }
}

/// A room the store can hold: well formed, with a board of at most
/// `i32::MAX` rows, and seated as joins seat users.
pub open spec fn room_ok(r: Room) -> bool {
    r.wf() && r@.board.len() <= i32::MAX && crate::game::seats_ok(r@)
}

/// Replacing the room at `i` by one under the same id, still fit for the
/// store, keeps the store's invariant and updates its map at that id.
proof fn lemma_store_update(r0: Seq<Room>, i: int, room: Room)
    requires
        keyed::keys_unique(r0, room_key()),
        forall|j: int| 0 <= j < r0.len() ==> #[trigger] room_ok(r0[j]),
        0 <= i < r0.len(),
        room.id@ == r0[i].id@,
        room_ok(room),
    ensures
        keyed::keys_unique(r0.update(i, room), room_key()),
        forall|j: int| 0 <= j < r0.len() ==> #[trigger] room_ok(r0.update(i, room)[j]),
        keyed::keyed_map(r0.update(i, room), room_key(), room_val()) == keyed::keyed_map(
            r0,
            room_key(),
            room_val(),
        ).insert(room.id@, room@),
{
    keyed::lemma_keyed_update(r0, room_key(), room_val(), i, room);
    assert forall|j: int| 0 <= j < r0.len() implies #[trigger] room_ok(r0.update(i, room)[j]) by {
        if j != i {
            assert(r0.update(i, room)[j] == r0[j]);
        }
    }
}

} // verus!
