use caro::game::{
    apply_move, expire_offline, go_offline, join_room, restart_game, DisconnectOutcome,
    ExpireOutcome, MoveOutcome,
};
use caro::store::{make_room, pick_new_host, symbol_of};
use caro::types::{Room, SymbolXO, User, WinnerState};

fn user(id: &str, name: &str) -> User {
    User { id: id.to_string(), name: name.to_string() }
}

fn s(x: &str) -> String {
    x.to_string()
}

fn room_with(a: &str, b: &str, size: usize) -> Room {
    let mut room = make_room(Some(s("R1")), size);
    join_room(&mut room, user(a, "A"), s("sa"));
    join_room(&mut room, user(b, "B"), s("sb"));
    room
}

fn play(room: &mut Room, who: &str, x: usize, y: usize) -> MoveOutcome {
    apply_move(room, &s(who), x, y)
}

#[test]
fn fresh_room_is_empty() {
    let room = make_room(Some(s("ABC")), 15);
    assert_eq!(room.id, "ABC");
    assert_eq!(room.board.len(), 15);
    assert!(room.players.is_empty());
    assert_eq!(room.next_turn, SymbolXO::X);
    assert!(room.winner.is_none());
    assert!(room.host_id.is_none());
    assert!(room.members.is_empty());
}

#[test]
fn random_room_ids_are_six_upper_case_characters() {
    for _ in 0..20 {
        let room = make_room(None, 3);
        assert_eq!(room.id.chars().count(), 6);
        assert!(room
            .id
            .chars()
            .all(|c| c == '_' || c == '-' || c.is_ascii_digit() || c.is_ascii_uppercase()));
    }
}

#[test]
fn first_user_hosts_and_plays_x_second_plays_o() {
    let mut room = make_room(Some(s("R")), 15);
    join_room(&mut room, user("a", "Ann"), s("s1"));
    assert_eq!(room.host_id.as_deref(), Some("a"));
    assert_eq!(room.players.len(), 1);
    assert_eq!(room.players[0].symbol, SymbolXO::X);
    assert_eq!(room.first_mover_id.as_deref(), Some("a"));
    join_room(&mut room, user("b", "Bob"), s("s2"));
    assert_eq!(room.players.len(), 2);
    assert_eq!(room.players[1].id, "b");
    assert_eq!(room.players[1].symbol, SymbolXO::O);
    join_room(&mut room, user("c", "Cat"), s("s3"));
    assert_eq!(room.players.len(), 2);
    assert_eq!(room.members.len(), 3);
    assert_eq!(symbol_of(&room, "a"), Some(SymbolXO::X));
    assert_eq!(symbol_of(&room, "b"), Some(SymbolXO::O));
    assert_eq!(symbol_of(&room, "c"), None);
}

#[test]
fn rejoining_keeps_one_seat_and_adds_the_socket() {
    let mut room = room_with("a", "b", 15);
    join_room(&mut room, user("a", "Ann 2"), s("sa2"));
    assert_eq!(room.players.len(), 2);
    assert_eq!(room.members.len(), 2);
    let m = room.members.iter().find(|p| p.user.id == "a").unwrap();
    assert_eq!(m.user.name, "Ann 2");
    assert_eq!(m.sockets.len(), 2);
    join_room(&mut room, user("a", "Ann 2"), s("sa2"));
    let m = room.members.iter().find(|p| p.user.id == "a").unwrap();
    assert_eq!(m.sockets.len(), 2);
}

#[test]
fn unseated_host_takes_x_at_the_front() {
    let mut room = make_room(Some(s("R")), 15);
    room.host_id = Some(s("h"));
    join_room(&mut room, user("b", "B"), s("sb"));
    assert_eq!(room.players[0].symbol, SymbolXO::O);
    join_room(&mut room, user("h", "H"), s("sh"));
    assert_eq!(room.players[0].id, "h");
    assert_eq!(room.players[0].symbol, SymbolXO::X);
    assert_eq!(room.players[1].id, "b");
    assert_eq!(room.first_mover_id.as_deref(), Some("h"));
}

#[test]
fn moves_out_of_turn_or_place_are_ignored() {
    let mut room = room_with("a", "b", 15);
    assert!(matches!(play(&mut room, "b", 0, 0), MoveOutcome::Ignored));
    assert!(matches!(play(&mut room, "c", 0, 0), MoveOutcome::Ignored));
    assert!(matches!(play(&mut room, "a", 15, 0), MoveOutcome::Ignored));
    assert!(matches!(play(&mut room, "a", 0, 15), MoveOutcome::Ignored));
    assert!(matches!(play(&mut room, "a", 0, 0), MoveOutcome::Played(None)));
    assert_eq!(room.board[0][0], 1);
    assert_eq!(room.next_turn, SymbolXO::O);
    assert_eq!(room.last_move, Some((0, 0)));
    assert!(matches!(play(&mut room, "b", 0, 0), MoveOutcome::Ignored));
    assert!(matches!(play(&mut room, "b", 1, 0), MoveOutcome::Played(None)));
    assert_eq!(room.board[0][1], -1);
    assert_eq!(room.next_turn, SymbolXO::X);
}

#[test]
fn five_in_a_row_wins_and_records_the_game() {
    let mut room = room_with("a", "b", 15);
    for i in 0..4 {
        assert!(matches!(play(&mut room, "a", i, 0), MoveOutcome::Played(None)));
        assert!(matches!(play(&mut room, "b", i, 1), MoveOutcome::Played(None)));
    }
    match play(&mut room, "a", 4, 0) {
        MoveOutcome::Played(Some(rec)) => {
            assert_eq!(rec.winner_id.as_deref(), Some("a"));
            assert_eq!(rec.id1, "a");
            assert_eq!(rec.id2, "b");
        }
        other => panic!("unexpected {:?}", other),
    }
    assert_eq!(room.winner, Some(WinnerState::Symbol(SymbolXO::X)));
    assert_eq!(room.last_winner_id.as_deref(), Some("a"));
    assert_eq!(room.next_turn, SymbolXO::X);
    assert!(matches!(play(&mut room, "b", 9, 9), MoveOutcome::Ignored));
}

#[test]
fn win_without_opponent_records_nothing() {
    let mut room = make_room(Some(s("R")), 15);
    join_room(&mut room, user("a", "A"), s("sa"));
    room.board[0][0] = 1;
    room.board[0][1] = 1;
    room.board[0][2] = 1;
    room.board[0][3] = 1;
    assert!(matches!(play(&mut room, "a", 4, 0), MoveOutcome::Played(None)));
    assert_eq!(room.winner, Some(WinnerState::Symbol(SymbolXO::X)));
}

#[test]
fn full_board_is_a_draw() {
    let mut room = room_with("a", "b", 2);
    assert!(matches!(play(&mut room, "a", 0, 0), MoveOutcome::Played(None)));
    assert!(matches!(play(&mut room, "b", 1, 0), MoveOutcome::Played(None)));
    assert!(matches!(play(&mut room, "a", 0, 1), MoveOutcome::Played(None)));
    match play(&mut room, "b", 1, 1) {
        MoveOutcome::Played(Some(rec)) => {
            assert_eq!(rec.winner_id, None);
            assert_eq!(rec.id1, "a");
            assert_eq!(rec.id2, "b");
        }
        other => panic!("unexpected {:?}", other),
    }
    assert_eq!(room.winner, Some(WinnerState::Draw));
    assert_eq!(room.last_winner_id, None);
}

#[test]
fn restart_lets_the_winner_start() {
    let mut room = room_with("a", "b", 15);
    assert!(!restart_game(&mut room, &s("c"), 15));
    for i in 0..4 {
        play(&mut room, "a", i, 0);
        play(&mut room, "b", i, 1);
    }
    play(&mut room, "a", 4, 0);
    assert!(restart_game(&mut room, &s("b"), 15));
    assert_eq!(room.winner, None);
    assert_eq!(room.last_move, None);
    assert_eq!(room.next_turn, SymbolXO::X);
    assert_eq!(room.first_mover_id.as_deref(), Some("a"));
    assert_eq!(room.last_winner_id, None);
    assert!(room.board.iter().all(|r| r.iter().all(|&c| c == 0)));
    room.last_winner_id = Some(s("b"));
    assert!(restart_game(&mut room, &s("a"), 15));
    assert_eq!(room.next_turn, SymbolXO::O);
    assert_eq!(room.first_mover_id.as_deref(), Some("b"));
}

#[test]
fn restart_without_known_starter_gives_x_the_move() {
    let mut room = room_with("a", "b", 15);
    room.first_mover_id = Some(s("gone"));
    room.next_turn = SymbolXO::O;
    assert!(restart_game(&mut room, &s("a"), 9));
    assert_eq!(room.board.len(), 9);
    assert_eq!(room.next_turn, SymbolXO::X);
    assert_eq!(room.first_mover_id.as_deref(), Some("a"));
}

#[test]
fn disconnect_and_expire() {
    let mut room = room_with("a", "b", 15);
    join_room(&mut room, user("a", "A"), s("sa2"));
    assert_eq!(go_offline(&mut room, &s("zz"), &s("s")), DisconnectOutcome::NotMember);
    assert_eq!(go_offline(&mut room, &s("a"), &s("sa")), DisconnectOutcome::StillOnline);
    assert_eq!(go_offline(&mut room, &s("a"), &s("sa2")), DisconnectOutcome::TimerStarted);
    assert_eq!(room.offline_timers, vec![s("a")]);
    assert_eq!(go_offline(&mut room, &s("a"), &s("sa2")), DisconnectOutcome::AlreadyPending);
    assert_eq!(expire_offline(&mut room, &s("a")), ExpireOutcome::Updated);
    assert!(room.offline_timers.is_empty());
    assert_eq!(room.players.len(), 1);
    assert_eq!(room.players[0].id, "b");
    assert_eq!(room.members.len(), 1);
    assert_eq!(room.host_id.as_deref(), Some("b"));
}

#[test]
fn coming_back_in_time_keeps_the_member() {
    let mut room = room_with("a", "b", 15);
    assert_eq!(go_offline(&mut room, &s("b"), &s("sb")), DisconnectOutcome::TimerStarted);
    join_room(&mut room, user("b", "B"), s("sb3"));
    assert!(room.offline_timers.is_empty());
    assert_eq!(expire_offline(&mut room, &s("b")), ExpireOutcome::Reconnected);
    assert_eq!(room.players.len(), 2);
}

#[test]
fn last_host_leaving_abandons_the_room() {
    let mut room = make_room(Some(s("R")), 15);
    join_room(&mut room, user("a", "A"), s("sa"));
    assert_eq!(go_offline(&mut room, &s("a"), &s("sa")), DisconnectOutcome::TimerStarted);
    assert_eq!(expire_offline(&mut room, &s("a")), ExpireOutcome::Abandoned);
}

#[test]
fn new_host_prefers_online_players_then_members() {
    let mut room = room_with("a", "b", 15);
    join_room(&mut room, user("c", "C"), s("sc"));
    assert_eq!(pick_new_host(&room).as_deref(), Some("a"));
    go_offline(&mut room, &s("a"), &s("sa"));
    assert_eq!(pick_new_host(&room).as_deref(), Some("b"));
    go_offline(&mut room, &s("b"), &s("sb"));
    assert_eq!(pick_new_host(&room).as_deref(), Some("c"));
    go_offline(&mut room, &s("c"), &s("sc"));
    assert_eq!(pick_new_host(&room), None);
}

#[test]
fn winner_labels() {
    assert_eq!(WinnerState::Symbol(SymbolXO::X).label(), "X");
    assert_eq!(WinnerState::Symbol(SymbolXO::O).label(), "O");
    assert_eq!(WinnerState::Draw.label(), "draw");
    assert_eq!(SymbolXO::X.other(), SymbolXO::O);
    assert_eq!(SymbolXO::O.cell(), -1);
}
