use caro::history::{
    alias_root, collect_aliases, history_query, history_to_discard, perspective_query,
    plan_inc_history, profile_query, sql_in_list, tally_history, HistoryColumn, HistoryRow,
};
use caro::store::{order_pair, pair_key};

fn s(x: &str) -> String {
    x.to_string()
}

fn row(a: &str, b: &str, wa: i64, wb: i64, d: i64) -> HistoryRow {
    HistoryRow { player_a: s(a), player_b: s(b), wins_a: wa, wins_b: wb, draws: d }
}

#[test]
fn pair_key_orders_the_ids() {
    assert_eq!(pair_key("bob", "alice"), "alice|bob");
    assert_eq!(pair_key("alice", "bob"), "alice|bob");
    assert_eq!(pair_key("ab", "a"), "a|ab");
    assert_eq!(pair_key("Z", "a"), "Z|a");
    assert_eq!(order_pair("y", "x"), ("x", "y"));
}

#[test]
fn a_game_against_oneself_is_not_recorded() {
    assert!(plan_inc_history(Some("a"), "a", "a").is_none());
    assert!(plan_inc_history(None, "a", "a").is_none());
}

#[test]
fn a_win_is_written_for_the_winner() {
    let u = plan_inc_history(Some("zed"), "zed", "amy").unwrap();
    assert_eq!(u.pair_key, "amy|zed");
    assert_eq!((u.player_a.as_str(), u.player_b.as_str()), ("amy", "zed"));
    assert_eq!((u.wins_a, u.wins_b, u.draws), (0, 1, 0));
    assert_eq!(u.on_conflict, HistoryColumn::WinsB);
    let u = plan_inc_history(Some("amy"), "zed", "amy").unwrap();
    assert_eq!((u.wins_a, u.wins_b, u.draws), (1, 0, 0));
    assert_eq!(u.on_conflict, HistoryColumn::WinsA);
}

#[test]
fn a_draw_is_written_as_a_draw() {
    let u = plan_inc_history(None, "b", "a").unwrap();
    assert_eq!((u.wins_a, u.wins_b, u.draws), (0, 0, 1));
    assert_eq!(u.on_conflict, HistoryColumn::Draws);
}

#[test]
fn a_winner_outside_the_pair_counts_for_the_second_player_on_update() {
    let u = plan_inc_history(Some("x"), "a", "b").unwrap();
    assert_eq!((u.wins_a, u.wins_b, u.draws), (0, 0, 0));
    assert_eq!(u.on_conflict, HistoryColumn::WinsB);
}

#[test]
fn aliases_start_at_the_root_and_skip_repeats() {
    assert_eq!(alias_root("old", Some(s("new"))), "new");
    assert_eq!(alias_root("me", None), "me");
    let a = collect_aliases(s("r"), &vec![s("x"), s("r"), s("y"), s("x")]);
    assert_eq!(a, vec!["r", "x", "y"]);
    assert_eq!(collect_aliases(s("r"), &vec![]), vec!["r"]);
}

#[test]
fn queries_list_the_quoted_ids() {
    assert_eq!(sql_in_list(&vec![s("a"), s("b")]), "'a','b'");
    assert_eq!(sql_in_list(&vec![s("a")]), "'a'");
    assert_eq!(sql_in_list(&vec![]), "");
    assert_eq!(
        perspective_query(&vec![s("m")], &vec![s("o"), s("p")]),
        "SELECT player_a, player_b, wins_a, wins_b, draws FROM histories WHERE (player_a IN ('m') AND player_b IN ('o','p')) OR (player_a IN ('o','p') AND player_b IN ('m'))"
    );
    assert_eq!(
        profile_query(&vec![s("m"), s("n")]),
        "SELECT player_a, player_b, wins_a, wins_b, draws FROM histories WHERE player_a IN ('m','n') OR player_b IN ('m','n')"
    );
}

#[test]
fn tally_reads_each_row_from_my_side() {
    let rows = vec![row("a", "b", 3, 1, 2), row("b", "a2", 4, 5, 1)];
    let t = tally_history(&vec![s("a"), s("a2")], &rows).unwrap();
    assert_eq!((t.wins, t.losses, t.draws, t.total), (8, 5, 3, 16));
    let t = tally_history(&vec![s("b")], &rows).unwrap();
    assert_eq!((t.wins, t.losses, t.draws, t.total), (5, 8, 3, 16));
    let t = tally_history(&vec![s("a")], &vec![]).unwrap();
    assert_eq!((t.wins, t.losses, t.draws, t.total), (0, 0, 0, 0));
}

#[test]
fn tally_overflow_gives_none() {
    let rows = vec![row("a", "b", i64::MAX, 0, 0), row("a", "b", 1, 0, 0)];
    assert!(tally_history(&vec![s("a")], &rows).is_none());
    let rows = vec![row("a", "b", i64::MAX, 1, 0)];
    assert!(tally_history(&vec![s("a")], &rows).is_none());
    let rows = vec![row("a", "b", i64::MAX - 1, 1, 0)];
    assert_eq!(tally_history(&vec![s("a")], &rows).unwrap().total, i64::MAX);
}

#[test]
fn merge_resolutions() {
    assert_eq!(history_to_discard("o", "n", "keep_new").as_deref(), Some("o"));
    assert_eq!(history_to_discard("o", "n", "keep_old").as_deref(), Some("n"));
    assert_eq!(history_to_discard("o", "n", "sum"), None);
}

#[test]
fn history_queries_need_both_ids() {
    assert_eq!(history_query(Some(s("a")), Some(s("b"))), Some((s("a"), s("b"))));
    assert_eq!(history_query(Some(s("")), Some(s("b"))), None);
    assert_eq!(history_query(Some(s("a")), None), None);
    assert_eq!(history_query(None, None), None);
}
