//! The connected sockets, and what each socket event does: joining a room,
//! placing a stone, starting a new game and disconnecting. Sending messages
//! and waiting out grace periods is left to the caller.
use vstd::prelude::*;
use crate::keyed;
use crate::types::{JoinPayload, MovePayload, User, UserView};
use crate::game::{
    DisconnectOutcome, GameRecord, GameRecordView, exists_in, has_id, joined, move_allowed,
    move_record, moved, record_view, restarted, disconnected,
};
use crate::store::{RoomStore, fresh_room};
use crate::text::str_eq;

verus! {

/// Who is behind a socket, and which room it joined.
#[derive(Debug)]
pub struct SocketData {
    pub user: User,
    pub room_id: String,
}

/// An entry is keyed by the socket's id.
pub open spec fn socket_key() -> spec_fn((String, SocketData)) -> Seq<char> {
    |e: (String, SocketData)| e.0@
}

pub open spec fn socket_val() -> spec_fn((String, SocketData)) -> (UserView, Seq<char>) {
    |e: (String, SocketData)| (e.1.user@, e.1.room_id@)
}

/// The user and room of each connected socket, by socket id.
pub struct SocketRegistry {
    entries: Vec<(String, SocketData)>,
}

impl View for SocketRegistry {
    type V = Map<Seq<char>, (UserView, Seq<char>)>;

    closed spec fn view(&self) -> Map<Seq<char>, (UserView, Seq<char>)> {
        keyed::keyed_map(self.entries@, socket_key(), socket_val())
    }
}

impl SocketRegistry {
    /// Each socket id is held once.
    #[verifier::type_invariant]
    closed spec fn inv(&self) -> bool {
        keyed::keys_unique(self.entries@, socket_key())
    }

    /// No sockets.
    pub fn new() -> (res: SocketRegistry)
        ensures
            res@ == Map::<Seq<char>, (UserView, Seq<char>)>::empty(),
    {
        let res = SocketRegistry { entries: Vec::new() };
        proof {
            keyed::lemma_keyed_empty(res.entries@, socket_key(), socket_val());
        }
        res
    }

    fn find_in(entries: &Vec<(String, SocketData)>, socket_id: &str) -> (res: Option<
        usize,
    >)
        ensures
            match res {
                Some(i) => i < entries@.len() && entries@[i as int].0@ == socket_id@,
                None => !keyed::has_key(entries@, socket_key(), socket_id@),
            },
    {
        let mut i: usize = 0;
        while i < entries.len()
            invariant
                i <= entries.len(),
                forall|j: int| 0 <= j < i ==> entries@[j].0@ != socket_id@,
            decreases entries.len() - i,
        {
            if str_eq(entries[i].0.as_str(), socket_id) {
                return Some(i);
            }
            i = i + 1;
        }
        assert forall|j: int| 0 <= j < entries@.len() implies #[trigger] socket_key()(
            entries@[j],
        ) != socket_id@ by {}
        None
    }
}

/// The user and room recorded for `socket_id`, if any.
pub fn get_socket_data(reg: &SocketRegistry, socket_id: &str) -> (res: Option<(User, String)>)
    ensures
        match res {
            Some((u, r)) => reg@.contains_key(socket_id@) && reg@[socket_id@] == (u@, r@),
            None => !reg@.contains_key(socket_id@),
        },
{
    proof {
        use_type_invariant(reg);
    }
    match SocketRegistry::find_in(&reg.entries, socket_id) {
        Some(i) => {
            proof {
                keyed::lemma_keyed_index(reg.entries@, socket_key(), socket_val(), i as int);
            }
            let d = &reg.entries[i].1;
            Some((d.user.copied(), d.room_id.clone()))
        },
        None => None,
    }
}

/// Records that `socket_id` belongs to `user` in the room `room_id`.
pub fn set_socket_data(reg: &mut SocketRegistry, socket_id: &str, user: User, room_id: String)
    ensures
        final(reg)@ == old(reg)@.insert(socket_id@, (user@, room_id@)),
{
    proof {
        use_type_invariant(&*reg);
    }
    let e = (String::from_str(socket_id), SocketData { user: user, room_id: room_id });
    let mut entries: Vec<(String, SocketData)> = Vec::new();
    std::mem::swap(&mut entries, &mut reg.entries);
    let ghost e0 = entries@;
    match SocketRegistry::find_in(&entries, socket_id) {
        Some(i) => {
            proof {
                keyed::lemma_keyed_update(e0, socket_key(), socket_val(), i as int, e);
            }
            entries.set(i, e);
        },
        None => {
            proof {
                keyed::lemma_keyed_push(e0, socket_key(), socket_val(), e);
            }
            entries.push(e);
        },
    }
    reg.entries = entries;
}

/// Forgets `socket_id`.
pub fn remove_socket_data(reg: &mut SocketRegistry, socket_id: &str)
    ensures
        final(reg)@ == old(reg)@.remove(socket_id@),
{
    proof {
        use_type_invariant(&*reg);
    }
    let mut entries: Vec<(String, SocketData)> = Vec::new();
    std::mem::swap(&mut entries, &mut reg.entries);
    let ghost e0 = entries@;
    match SocketRegistry::find_in(&entries, socket_id) {
        Some(i) => {
            proof {
                keyed::lemma_keyed_remove(e0, socket_key(), socket_val(), i as int);
            }
            entries.remove(i);
        },
        None => {
            proof {
                assert(keyed::keyed_map(e0, socket_key(), socket_val()).remove(socket_id@)
                    =~= keyed::keyed_map(e0, socket_key(), socket_val()));
            }
        },
    }
    reg.entries = entries;
}

/// A `join-room` event from `socket_id`: a user with an empty id is
/// ignored; otherwise the socket is recorded as that user's in that room,
/// the room is opened with an empty `size` by `size` board if it is not
/// open, and the user joins it. Gives the room whose state is to be sent.
pub fn handle_join(
    rooms: &mut RoomStore,
    sockets: &mut SocketRegistry,
    socket_id: &str,
    payload: JoinPayload,
    size: usize,
) -> (res: Option<String>)
    requires
        size <= i32::MAX,
    ensures
        payload.user@.id.len() == 0 ==> res is None && final(rooms)@ == old(rooms)@ && final(sockets)@ == old(sockets)@,
        payload.user@.id.len() != 0 ==> res == Some(payload.room_id) && final(sockets)@ == old(sockets)@.insert(socket_id@, (payload.user@, payload.room_id@)) && final(rooms)@ == old(rooms)@.insert(
            payload.room_id@,
            joined(
                if old(rooms)@.contains_key(payload.room_id@) {
                    old(rooms)@[payload.room_id@]
                } else {
                    fresh_room(payload.room_id@, size as nat)
                },
                payload.user@,
                socket_id@,
            ),
        ),
{
    let JoinPayload { room_id, user } = payload;
    if user.id.as_str().is_empty() {
        return None;
    }
    set_socket_data(sockets, socket_id, user.copied(), room_id.clone());
    rooms.join(room_id.clone(), user, String::from_str(socket_id), size);
    Some(room_id)
}

/// A `make-move` event from `socket_id`: the socket's user places a stone
/// where the payload says, in the socket's room. Gives the room whose state
/// is to be sent and the finished game to record, when the move was made.
pub fn handle_move(
    rooms: &mut RoomStore,
    sockets: &SocketRegistry,
    socket_id: &str,
    payload: MovePayload,
) -> (res: Option<(String, Option<GameRecord>)>)
    ensures
        ({
            let x = payload.x as int;
            let y = payload.y as int;
            let known = sockets@.contains_key(socket_id@);
            let uid = sockets@[socket_id@].0.id;
            let rid = sockets@[socket_id@].1;
            let allowed = known && old(rooms)@.contains_key(rid) && move_allowed(
                old(rooms)@[rid],
                uid,
                x,
                y,
            );
            &&& !allowed ==> res is None && final(rooms)@ == old(rooms)@
            &&& allowed ==> res is Some && (res->0).0@ == rid && record_view((res->0).1) == move_record(
                old(rooms)@[rid],
                uid,
                x,
                y,
            ) && final(rooms)@ == old(rooms)@.insert(rid, moved(old(rooms)@[rid], uid, x, y))
        }),
{
    let (user, room_id) = match get_socket_data(sockets, socket_id) {
        Some(d) => d,
        None => {
            return None;
        },
    };
    match rooms.play(room_id.as_str(), &user.id, payload.x, payload.y) {
        Some(crate::game::MoveOutcome::Played(rec)) => Some((room_id, rec)),
        _ => None,
    }
}

/// A `restart` event from `socket_id`: when the socket's user is seated in
/// the socket's room, a new game starts there on a `size` by `size` board.
/// Gives the room whose state is to be sent, when it did.
pub fn handle_restart(
    rooms: &mut RoomStore,
    sockets: &SocketRegistry,
    socket_id: &str,
    size: usize,
) -> (res: Option<String>)
    requires
        size <= i32::MAX,
    ensures
        ({
            let known = sockets@.contains_key(socket_id@);
            let uid = sockets@[socket_id@].0.id;
            let rid = sockets@[socket_id@].1;
            let allowed = known && old(rooms)@.contains_key(rid) && exists_in(
                old(rooms)@[rid].players,
                has_id(uid),
            );
            &&& !allowed ==> res is None && final(rooms)@ == old(rooms)@
            &&& allowed ==> res is Some && res->0@ == rid && final(rooms)@ == old(rooms)@.insert(
                rid,
                restarted(old(rooms)@[rid], size as nat),
            )
        }),
{
    let (user, room_id) = match get_socket_data(sockets, socket_id) {
        Some(d) => d,
        None => {
            return None;
        },
    };
    match rooms.restart(room_id.as_str(), &user.id, size) {
        Some(true) => Some(room_id),
        _ => None,
    }
}

/// What a disconnection came to: the room whose state is to be sent, the
/// user who lost the socket, and whether that user's grace period starts.
#[derive(Debug)]
pub struct Disconnection {
    pub room_id: String,
    pub user_id: String,
    pub outcome: DisconnectOutcome,
}

/// A socket going away: it is forgotten, and the user it belonged to loses
/// it in that user's room. Gives what that came to, when the socket was
/// known and its room open.
pub fn handle_disconnect(rooms: &mut RoomStore, sockets: &mut SocketRegistry, socket_id: &str) -> (res:
    Option<Disconnection>)
    ensures
        !old(sockets)@.contains_key(socket_id@) ==> res is None && final(rooms)@ == old(rooms)@
            && final(sockets)@ == old(sockets)@,
        old(sockets)@.contains_key(socket_id@) ==> ({
            let uid = old(sockets)@[socket_id@].0.id;
            let rid = old(sockets)@[socket_id@].1;
            &&& final(sockets)@ == old(sockets)@.remove(socket_id@)
            &&& !old(rooms)@.contains_key(rid) ==> res is None && final(rooms)@ == old(rooms)@
            &&& old(rooms)@.contains_key(rid) ==> res is Some && res->0.room_id@ == rid
                && res->0.user_id@ == uid && (final(rooms)@[rid], res->0.outcome) == disconnected(
                old(rooms)@[rid],
                uid,
                socket_id@,
            ) && final(rooms)@ == old(rooms)@.insert(rid, final(rooms)@[rid])
        }),
{
    let (user, room_id) = match get_socket_data(sockets, socket_id) {
        Some(d) => d,
        None => {
            return None;
        },
    };
    remove_socket_data(sockets, socket_id);
    let sid = String::from_str(socket_id);
    match rooms.disconnect(room_id.as_str(), &user.id, &sid) {
        Some(outcome) => Some(Disconnection { room_id: room_id, user_id: user.id, outcome: outcome }),
        None => None,
    }
}

} // verus!
