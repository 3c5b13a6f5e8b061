use caro::game::MoveOutcome;
use caro::sockets::{
    get_socket_data, handle_disconnect, handle_join, handle_move, handle_restart,
    remove_socket_data, set_socket_data, SocketRegistry,
};
use caro::game::DisconnectOutcome;
use caro::store::{create_user, make_room, random_id, RoomStore};
use caro::types::{JoinPayload, MovePayload, User};

fn user(id: &str) -> User {
    User { id: id.to_string(), name: id.to_uppercase() }
}

fn join(rooms: &mut RoomStore, reg: &mut SocketRegistry, sid: &str, uid: &str, rid: &str) -> Option<String> {
    handle_join(rooms, reg, sid, JoinPayload { room_id: rid.to_string(), user: user(uid) }, 15)
}

#[test]
fn store_insert_get_remove() {
    let mut rooms = RoomStore::new();
    assert!(!rooms.contains("R"));
    rooms.insert(make_room(Some("R".to_string()), 15));
    assert!(rooms.contains("R"));
    assert_eq!(rooms.get("R").unwrap().id, "R");
    assert!(rooms.get("Q").is_none());
    let mut replaced = make_room(Some("R".to_string()), 3);
    replaced.host_id = Some("x".to_string());
    rooms.insert(replaced);
    assert_eq!(rooms.get("R").unwrap().board.len(), 3);
    assert_eq!(rooms.remove("R").unwrap().host_id.as_deref(), Some("x"));
    assert!(!rooms.contains("R"));
    assert!(rooms.remove("R").is_none());
}

#[test]
fn registry_reads_back_what_was_written() {
    let mut reg = SocketRegistry::new();
    assert!(get_socket_data(&reg, "s1").is_none());
    set_socket_data(&mut reg, "s1", user("a"), "R".to_string());
    set_socket_data(&mut reg, "s2", user("b"), "Q".to_string());
    let (u, r) = get_socket_data(&reg, "s1").unwrap();
    assert_eq!((u.id.as_str(), r.as_str()), ("a", "R"));
    set_socket_data(&mut reg, "s1", user("c"), "P".to_string());
    let (u, r) = get_socket_data(&reg, "s1").unwrap();
    assert_eq!((u.id.as_str(), r.as_str()), ("c", "P"));
    remove_socket_data(&mut reg, "s1");
    assert!(get_socket_data(&reg, "s1").is_none());
    assert_eq!(get_socket_data(&reg, "s2").unwrap().1, "Q");
}

#[test]
fn join_event_opens_the_room() {
    let mut rooms = RoomStore::new();
    let mut reg = SocketRegistry::new();
    assert_eq!(join(&mut rooms, &mut reg, "s0", "", "R"), None);
    assert!(!rooms.contains("R"));
    assert!(get_socket_data(&reg, "s0").is_none());
    assert_eq!(join(&mut rooms, &mut reg, "s1", "a", "R").as_deref(), Some("R"));
    let room = rooms.get("R").unwrap();
    assert_eq!(room.host_id.as_deref(), Some("a"));
    assert_eq!(room.players.len(), 1);
    assert_eq!(get_socket_data(&reg, "s1").unwrap().1, "R");
}

#[test]
fn move_and_restart_events_go_through_the_socket() {
    let mut rooms = RoomStore::new();
    let mut reg = SocketRegistry::new();
    join(&mut rooms, &mut reg, "s1", "a", "R");
    join(&mut rooms, &mut reg, "s2", "b", "R");
    assert!(handle_move(&mut rooms, &reg, "nobody", MovePayload { x: 0, y: 0 }).is_none());
    assert!(handle_move(&mut rooms, &reg, "s2", MovePayload { x: 0, y: 0 }).is_none());
    let (rid, rec) = handle_move(&mut rooms, &reg, "s1", MovePayload { x: 0, y: 0 }).unwrap();
    assert_eq!(rid, "R");
    assert!(rec.is_none());
    assert_eq!(rooms.get("R").unwrap().board[0][0], 1);
    assert_eq!(handle_restart(&mut rooms, &reg, "s2", 15).as_deref(), Some("R"));
    assert_eq!(rooms.get("R").unwrap().board[0][0], 0);
    assert!(handle_restart(&mut rooms, &reg, "nobody", 15).is_none());
    assert!(matches!(rooms.play("R", &"a".to_string(), 3, 3), Some(MoveOutcome::Played(None))));
    assert!(rooms.play("Q", &"a".to_string(), 3, 3).is_none());
}

#[test]
fn disconnect_event_forgets_the_socket() {
    let mut rooms = RoomStore::new();
    let mut reg = SocketRegistry::new();
    join(&mut rooms, &mut reg, "s1", "a", "R");
    let d = handle_disconnect(&mut rooms, &mut reg, "s1").unwrap();
    assert_eq!(d.room_id, "R");
    assert_eq!(d.user_id, "a");
    assert_eq!(d.outcome, DisconnectOutcome::TimerStarted);
    assert!(get_socket_data(&reg, "s1").is_none());
    assert!(handle_disconnect(&mut rooms, &mut reg, "s1").is_none());
    assert_eq!(rooms.expire("R", &"a".to_string()), Some(caro::game::ExpireOutcome::Abandoned));
    assert!(!rooms.contains("R"));
    assert!(rooms.expire("R", &"a".to_string()).is_none());
}

#[test]
fn users_get_a_trimmed_name_and_a_random_id() {
    assert!(create_user(None).is_none());
    assert!(create_user(Some("   ".to_string())).is_none());
    let u = create_user(Some("  Bob  ".to_string())).unwrap();
    assert_eq!(u.name, "Bob");
    assert_eq!(u.id.chars().count(), 12);
    let other = create_user(Some("Bob".to_string())).unwrap();
    assert_ne!(u.id, other.id);
    let id = random_id(21);
    assert_eq!(id.len(), 21);
    assert!(id.chars().all(|c| c == '_' || c == '-' || c.is_ascii_alphanumeric()));
}

#[test]
fn created_rooms_are_fresh() {
    let mut rooms = RoomStore::new();
    let id = rooms.create_room(15);
    assert_eq!(id.chars().count(), 6);
    let r = rooms.get(&id).unwrap();
    assert!(r.players.is_empty());
    assert!(r.host_id.is_none());
    assert_eq!(r.board.len(), 15);
}

#[test]
fn a_room_never_seats_more_than_two() {
    let mut rooms = RoomStore::new();
    let mut reg = SocketRegistry::new();
    join(&mut rooms, &mut reg, "s1", "a", "R");
    join(&mut rooms, &mut reg, "s2", "b", "R");
    join(&mut rooms, &mut reg, "s3", "c", "R");
    assert_eq!(rooms.get("R").unwrap().players.len(), 2);
    handle_disconnect(&mut rooms, &mut reg, "s1");
    handle_disconnect(&mut rooms, &mut reg, "s2");
    assert_eq!(rooms.expire("R", &"a".to_string()), Some(caro::game::ExpireOutcome::Updated));
    let room = rooms.get("R").unwrap();
    assert_eq!(room.host_id.as_deref(), Some("c"));
    assert_eq!(room.players.len(), 1);
    join(&mut rooms, &mut reg, "s4", "c", "R");
    join(&mut rooms, &mut reg, "s5", "d", "R");
    let room = rooms.get("R").unwrap();
    assert_eq!(room.players.len(), 2);
    assert_eq!(room.players[0].id, "c");
    assert_eq!(room.players[1].id, "b");
}
