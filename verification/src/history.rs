//! The head-to-head record between players: what a finished game adds to
//! it, which ids count as the same player, which rows a query reads, and
//! how the rows it reads add up from one player's side.
use vstd::prelude::*;
use crate::store::{ordered, order_pair, pair_key, spec_pair_key};
use crate::text::str_eq;

verus! {

/// A counter of the record between two players.
#[derive(Debug, Clone, Copy, PartialEq, Eq, Structural)]
pub enum HistoryColumn {
    WinsA,
    WinsB,
    Draws,
}

/// What a finished game writes: the row to insert when the pair has none
/// yet, and the counter to add one to when it has.
#[derive(Debug)]
pub struct HistoryUpsert {
    pub pair_key: String,
    pub player_a: String,
    pub player_b: String,
    pub wins_a: i64,
    pub wins_b: i64,
    pub draws: i64,
    pub on_conflict: HistoryColumn,
}

pub struct HistoryUpsertView {
    pub pair_key: Seq<char>,
    pub player_a: Seq<char>,
    pub player_b: Seq<char>,
    pub wins_a: i64,
    pub wins_b: i64,
    pub draws: i64,
    pub on_conflict: HistoryColumn,
}

impl View for HistoryUpsert {
    type V = HistoryUpsertView;

    open spec fn view(&self) -> HistoryUpsertView {
        HistoryUpsertView {
            pair_key: self.pair_key@,
            player_a: self.player_a@,
            player_b: self.player_b@,
            wins_a: self.wins_a,
            wins_b: self.wins_b,
            draws: self.draws,
            on_conflict: self.on_conflict,
        }
    }
}

/// The write for a game between `id1` and `id2` won by `winner` (none for a
/// draw): nothing for a game against oneself; otherwise the row of the
/// ordered pair with one win for the player who won, or one draw, and the
/// counter to add to when the row exists: draws for a draw, the first
/// player's wins when the first won, the second's otherwise.
pub open spec fn upsert_for(
    winner: Option<Seq<char>>,
    id1: Seq<char>,
    id2: Seq<char>,
) -> Option<HistoryUpsertView> {
    let (a, b) = ordered(id1, id2);
    if a == b {
        None
    } else {
        Some(
            HistoryUpsertView {
                pair_key: spec_pair_key(id1, id2),
                player_a: a,
                player_b: b,
                wins_a: if winner == Some(a) { 1 } else { 0 },
                wins_b: if winner == Some(b) { 1 } else { 0 },
                draws: if winner is None { 1 } else { 0 },
                on_conflict: if winner is None {
                    HistoryColumn::Draws
                } else if winner == Some(a) {
                    HistoryColumn::WinsA
                } else {
                    HistoryColumn::WinsB
                },
            },
        )
    }
}

/// The characters of an optional `&str`.
pub open spec fn opt_str_view(o: Option<&str>) -> Option<Seq<char>> {
    match o {
        Some(s) => Some(s@),
        None => None,
    }
}

/// What recording a game between `id1` and `id2` won by `winner_id` writes.
pub fn plan_inc_history(winner_id: Option<&str>, id1: &str, id2: &str) -> (res: Option<
    HistoryUpsert,
>)
    ensures
        match res {
            Some(u) => upsert_for(opt_str_view(winner_id), id1@, id2@) == Some(u@),
            None => upsert_for(opt_str_view(winner_id), id1@, id2@) is None,
        },
{
    let (a, b) = order_pair(id1, id2);
    if str_eq(a, b) {
        return None;
    }
    let won_a = match winner_id {
        Some(w) => str_eq(w, a),
        None => false,
    };
    let won_b = match winner_id {
        Some(w) => str_eq(w, b),
        None => false,
    };
    let draw = winner_id.is_none();
    let on_conflict = if draw {
        HistoryColumn::Draws
    } else if won_a {
        HistoryColumn::WinsA
    } else {
        HistoryColumn::WinsB
    };
    Some(
        HistoryUpsert {
            pair_key: pair_key(id1, id2),
            player_a: String::from_str(a),
            player_b: String::from_str(b),
            wins_a: if won_a { 1 } else { 0 },
            wins_b: if won_b { 1 } else { 0 },
            draws: if draw { 1 } else { 0 },
            on_conflict: on_conflict,
        },
    )
}

/// The id a player's results are kept under: the id its `id` was linked
/// to, if it was, else `id` itself.
pub fn alias_root(id: &str, linked: Option<String>) -> (res: String)
    ensures
        res@ == match linked {
            Some(l) => l@,
            None => id@,
        },
{
    match linked {
        Some(l) => l,
        None => String::from_str(id),
    }
}

/// `seen` followed by each id of `s`, in order, that is not already there.
pub open spec fn add_new(seen: Seq<Seq<char>>, s: Seq<Seq<char>>) -> Seq<Seq<char>>
    decreases s.len(),
{
    if s.len() == 0 {
        seen
    } else {
        let acc = add_new(seen, s.drop_last());
        if acc.contains(s.last()) {
            acc
        } else {
            acc.push(s.last())
        }
    }
}

/// The ids of a vector of strings.
pub open spec fn ids_view(v: Seq<String>) -> Seq<Seq<char>> {
    v.map_values(|s: String| s@)
}

/// Whether `v` holds `s`.
fn holds(v: &Vec<String>, s: &String) -> (res: bool)
    ensures
        res == ids_view(v@).contains(s@),
{
    let mut i: usize = 0;
    while i < v.len()
        invariant
            i <= v.len(),
            forall|j: int| 0 <= j < i ==> v@[j]@ != s@,
        decreases v.len() - i,
    {
        if v[i] == *s {
            assert(ids_view(v@)[i as int] == s@);
            return true;
        }
        i = i + 1;
    }
    assert forall|j: int| 0 <= j < ids_view(v@).len() implies ids_view(v@)[j] != s@ by {
        assert(ids_view(v@)[j] == v@[j]@);
    }
    false
}

/// All ids a player's results may be kept under: `root` first, then each
/// id that was linked to `root`, once, in the order given.
pub fn collect_aliases(root: String, linked_ids: &Vec<String>) -> (res: Vec<String>)
    ensures
        ids_view(res@) == add_new(seq![root@], ids_view(linked_ids@)),
{
    let ghost olds = ids_view(linked_ids@);
    let mut aliases: Vec<String> = Vec::new();
    aliases.push(root);
    assert(ids_view(aliases@) =~= add_new(seq![aliases@[0]@], olds.take(0)));
    let ghost root_view = aliases@[0]@;
    let mut i: usize = 0;
    while i < linked_ids.len()
        invariant
            olds == ids_view(linked_ids@),
            i <= linked_ids.len(),
            aliases@.len() >= 1,
            aliases@[0]@ == root_view,
            ids_view(aliases@) == add_new(seq![root_view], olds.take(i as int)),
        decreases linked_ids.len() - i,
    {
        let old_id = &linked_ids[i];
        proof {
            assert(olds.take(i as int + 1).drop_last() =~= olds.take(i as int));
            assert(olds.take(i as int + 1).last() == old_id@);
        }
        let is_root = *old_id == aliases[0];
        if !is_root && !holds(&aliases, old_id) {
            aliases.push(old_id.clone());
            assert(ids_view(aliases@) =~= add_new(seq![root_view], olds.take(i as int)).push(old_id@));
        } else {
            if is_root {
                assert(ids_view(aliases@)[0] == old_id@);
            }
        }
        i = i + 1;
    }
    assert(olds.take(linked_ids.len() as int) =~= olds);
    aliases
}

/// An id between single quotes.
pub open spec fn quoted(id: Seq<char>) -> Seq<char> {
    seq!['\''] + id + seq!['\'']
}

/// The ids, each between single quotes, separated by commas.
pub open spec fn quoted_list(ids: Seq<Seq<char>>) -> Seq<char>
    decreases ids.len(),
{
    if ids.len() == 0 {
        Seq::empty()
    } else if ids.len() == 1 {
        quoted(ids[0])
    } else {
        quoted_list(ids.drop_last()) + seq![','] + quoted(ids.last())
    }
}

/// Writes the ids as the list of an SQL `IN (..)`: each between single
/// quotes, separated by commas.
pub fn sql_in_list(ids: &Vec<String>) -> (res: String)
    ensures
        res@ == quoted_list(ids_view(ids@)),
{
    let ghost v = ids_view(ids@);
    let mut out = String::new();
    proof {
        reveal_strlit("'");
        reveal_strlit(",");
    }
    let mut i: usize = 0;
    while i < ids.len()
        invariant
            v == ids_view(ids@),
            i <= ids.len(),
            out@ == quoted_list(v.take(i as int)),
        decreases ids.len() - i,
    {
        proof {
            reveal_strlit("'");
            reveal_strlit(",");
            assert(v.take(i as int + 1).drop_last() =~= v.take(i as int));
            assert(v.take(i as int + 1).last() == ids@[i as int]@);
        }
        if i > 0 {
            out.append(",");
        }
        out.append("'");
        out.append(ids[i].as_str());
        out.append("'");
        proof {
            if i == 0 {
                assert(out@ =~= quoted(v.take(1)[0]));
            } else {
                assert(out@ =~= quoted_list(v.take(i as int)) + seq![','] + quoted(ids@[i as int]@));
            }
        }
        i = i + 1;
    }
    assert(v.take(ids.len() as int) =~= v);
    out
}

/// The query for the rows between any id in `mine` and any id in `theirs`,
/// in either seat.
pub open spec fn perspective_query_text(mine: Seq<char>, theirs: Seq<char>) -> Seq<char> {
    "SELECT player_a, player_b, wins_a, wins_b, draws FROM histories WHERE (player_a IN ("@
        + mine + ") AND player_b IN ("@ + theirs + ")) OR (player_a IN ("@ + theirs
        + ") AND player_b IN ("@ + mine + "))"@
}

/// The query for the rows between any of `my_aliases` and any of
/// `their_aliases`, in either seat.
pub fn perspective_query(my_aliases: &Vec<String>, their_aliases: &Vec<String>) -> (res: String)
    ensures
        res@ == perspective_query_text(
            quoted_list(ids_view(my_aliases@)),
            quoted_list(ids_view(their_aliases@)),
        ),
{
    let mine = sql_in_list(my_aliases);
    let theirs = sql_in_list(their_aliases);
    let mut q = String::from_str(
        "SELECT player_a, player_b, wins_a, wins_b, draws FROM histories WHERE (player_a IN (",
    );
    q.append(mine.as_str());
    q.append(") AND player_b IN (");
    q.append(theirs.as_str());
    q.append(")) OR (player_a IN (");
    q.append(theirs.as_str());
    q.append(") AND player_b IN (");
    q.append(mine.as_str());
    q.append("))");
    q
}

/// The query for the rows of any id in `mine`, in either seat.
pub open spec fn profile_query_text(mine: Seq<char>) -> Seq<char> {
    "SELECT player_a, player_b, wins_a, wins_b, draws FROM histories WHERE player_a IN ("@ + mine
        + ") OR player_b IN ("@ + mine + ")"@
}

/// The query for the rows of any of `aliases`, in either seat.
pub fn profile_query(aliases: &Vec<String>) -> (res: String)
    ensures
        res@ == profile_query_text(quoted_list(ids_view(aliases@))),
{
    let mine = sql_in_list(aliases);
    let mut q = String::from_str(
        "SELECT player_a, player_b, wins_a, wins_b, draws FROM histories WHERE player_a IN (",
    );
    q.append(mine.as_str());
    q.append(") OR player_b IN (");
    q.append(mine.as_str());
    q.append(")");
    q
}

/// A row of the record: the two players and their counters.
#[derive(Debug, Clone)]
pub struct HistoryRow {
    pub player_a: String,
    pub player_b: String,
    pub wins_a: i64,
    pub wins_b: i64,
    pub draws: i64,
}

/// The sums of a player's wins, losses and draws, and their total.
#[derive(Debug, Clone, Copy, PartialEq, Eq, Structural)]
pub struct Tally {
    pub wins: i64,
    pub losses: i64,
    pub draws: i64,
    pub total: i64,
}

/// Wins, losses and draws summed over `rows` from the side of whoever is
/// under one of `aliases`: a row where the first player is one of them
/// counts the first player's wins as wins and the second's as losses; any
/// other row the other way round.
pub open spec fn tally(aliases: Seq<Seq<char>>, rows: Seq<HistoryRow>) -> (int, int, int)
    decreases rows.len(),
{
    if rows.len() == 0 {
        (0, 0, 0)
    } else {
        let t = tally(aliases, rows.drop_last());
        let r = rows.last();
        if aliases.contains(r.player_a@) {
            (t.0 + r.wins_a, t.1 + r.wins_b, t.2 + r.draws)
        } else {
            (t.0 + r.wins_b, t.1 + r.wins_a, t.2 + r.draws)
        }
    }
}

/// Every partial sum, and the total of the three sums, fits in an `i64`.
pub open spec fn tally_fits(aliases: Seq<Seq<char>>, rows: Seq<HistoryRow>) -> bool {
    &&& forall|k: int|
        0 <= k <= rows.len() ==> {
            let t = #[trigger] tally(aliases, rows.take(k));
            &&& i64::MIN <= t.0 <= i64::MAX
            &&& i64::MIN <= t.1 <= i64::MAX
            &&& i64::MIN <= t.2 <= i64::MAX
        }
    &&& i64::MIN <= tally(aliases, rows).0 + tally(aliases, rows).1 <= i64::MAX
    &&& i64::MIN <= tally(aliases, rows).0 + tally(aliases, rows).1 + tally(aliases, rows).2
        <= i64::MAX
}

/// Adds up `rows` from the side of whoever is under one of `aliases`;
/// none when a sum overflows an `i64` on the way.
pub fn tally_history(aliases: &Vec<String>, rows: &Vec<HistoryRow>) -> (res: Option<Tally>)
    ensures
        res is Some <==> tally_fits(ids_view(aliases@), rows@),
        res is Some ==> res->0.wins == tally(ids_view(aliases@), rows@).0 && res->0.losses == tally(
            ids_view(aliases@),
            rows@,
        ).1 && res->0.draws == tally(ids_view(aliases@), rows@).2 && res->0.total == res->0.wins
            + res->0.losses + res->0.draws,
{
    let ghost al = ids_view(aliases@);
    let mut wins: i64 = 0;
    let mut losses: i64 = 0;
    let mut draws: i64 = 0;
    let mut i: usize = 0;
    assert(rows@.take(0) =~= Seq::<HistoryRow>::empty());
    while i < rows.len()
        invariant
            al == ids_view(aliases@),
            i <= rows.len(),
            (wins as int, losses as int, draws as int) == tally(al, rows@.take(i as int)),
            forall|k: int|
                0 <= k <= i ==> {
                    let t = #[trigger] tally(al, rows@.take(k));
                    &&& i64::MIN <= t.0 <= i64::MAX
                    &&& i64::MIN <= t.1 <= i64::MAX
                    &&& i64::MIN <= t.2 <= i64::MAX
                },
        decreases rows.len() - i,
    {
        let row = &rows[i];
        proof {
            assert(rows@.take(i as int + 1).drop_last() =~= rows@.take(i as int));
            assert(rows@.take(i as int + 1).last() == rows@[i as int]);
        }
        let mine = holds(aliases, &row.player_a);
        let (w, l) = if mine {
            (row.wins_a, row.wins_b)
        } else {
            (row.wins_b, row.wins_a)
        };
        let nw = wins.checked_add(w);
        let nl = losses.checked_add(l);
        let nd = draws.checked_add(row.draws);
        match (nw, nl, nd) {
            (Some(a), Some(b), Some(c)) => {
                wins = a;
                losses = b;
                draws = c;
            },
            _ => {
                proof {
                    let t = tally(al, rows@.take(i as int + 1));
                    assert(!(i64::MIN <= t.0 <= i64::MAX && i64::MIN <= t.1 <= i64::MAX && i64::MIN
                        <= t.2 <= i64::MAX));
                }
                return None;
            },
        }
        i = i + 1;
    }
    assert(rows@.take(rows.len() as int) =~= rows@);
    let sum = match wins.checked_add(losses) {
        Some(v) => v,
        None => {
            return None;
        },
    };
    let total = match sum.checked_add(draws) {
        Some(v) => v,
        None => {
            return None;
        },
    };
    Some(Tally { wins: wins, losses: losses, draws: draws, total: total })
}

/// Between two players none of whose ids is shared, the record read from
/// one side is the record read from the other with wins and losses
/// swapped, over any rows each of which is between the two of them.
pub proof fn lemma_tally_mirror(
    mine: Seq<Seq<char>>,
    theirs: Seq<Seq<char>>,
    rows: Seq<HistoryRow>,
)
    requires
        forall|k: Seq<char>| !(#[trigger] mine.contains(k) && theirs.contains(k)),
        forall|i: int|
            0 <= i < rows.len() ==> (mine.contains(#[trigger] rows[i].player_a@) && theirs.contains(
                rows[i].player_b@,
            )) || (theirs.contains(rows[i].player_a@) && mine.contains(rows[i].player_b@)),
    ensures
        tally(mine, rows).0 == tally(theirs, rows).1,
        tally(mine, rows).1 == tally(theirs, rows).0,
        tally(mine, rows).2 == tally(theirs, rows).2,
    decreases rows.len(),
{
    if rows.len() > 0 {
        let t = rows.drop_last();
        assert forall|i: int| 0 <= i < t.len() implies (mine.contains(#[trigger] t[i].player_a@)
            && theirs.contains(t[i].player_b@)) || (theirs.contains(t[i].player_a@) && mine.contains(
            t[i].player_b@,
        )) by {
            assert(t[i] == rows[i]);
        }
        lemma_tally_mirror(mine, theirs, t);
        let r = rows[rows.len() - 1];
        assert(mine.contains(r.player_a@) || theirs.contains(r.player_a@));
    }
}

/// The write for a game does not depend on the order the two players
/// are given in.
pub proof fn lemma_upsert_symmetric(winner: Option<Seq<char>>, id1: Seq<char>, id2: Seq<char>)
    ensures
        upsert_for(winner, id1, id2) == upsert_for(winner, id2, id1),
{
    crate::store::lemma_ordered_symmetric(id1, id2);
    crate::store::lemma_pair_key_symmetric(id1, id2);
}

/// Which player's rows a merge of `old_id` into `new_id` drops: the old
/// id's when keeping the new record, the new id's when keeping the old
/// one, and none when the two are summed (any other resolution).
pub fn history_to_discard(old_id: &str, new_id: &str, resolution: &str) -> (res: Option<String>)
    ensures
        resolution@ == "keep_new"@ ==> res is Some && res->0@ == old_id@,
        resolution@ != "keep_new"@ && resolution@ == "keep_old"@ ==> res is Some && res->0@
            == new_id@,
        resolution@ != "keep_new"@ && resolution@ != "keep_old"@ ==> res is None,
{
    if str_eq(resolution, "keep_new") {
        Some(String::from_str(old_id))
    } else if str_eq(resolution, "keep_old") {
        Some(String::from_str(new_id))
    } else {
        None
    }
}

/// A non-empty string, if `s` is one.
pub open spec fn nonempty(s: Option<String>) -> bool {
    s is Some && s->0@.len() > 0
}

/// The two ids a head-to-head query asks about, when both are given and
/// non-empty.
pub fn history_query(user_id: Option<String>, opponent_id: Option<String>) -> (res: Option<
    (String, String),
>)
    ensures
        res is Some <==> nonempty(user_id) && nonempty(opponent_id),
        res is Some ==> (res->0).0 == user_id->0 && (res->0).1 == opponent_id->0,
{
    match (user_id, opponent_id) {
        (Some(u), Some(o)) => {
            if u.as_str().is_empty() || o.as_str().is_empty() {
                None
            } else {
                Some((u, o))
            }
        },
        _ => None,
    }
}

/// The ids a player's results are combined over start with the root id,
/// hold every id linked to it, and hold each id once.
pub proof fn lemma_aliases_cover_links(root: Seq<char>, linked: Seq<Seq<char>>)
    ensures
        add_new(seq![root], linked).len() >= 1,
        add_new(seq![root], linked)[0] == root,
        forall|i: int| 0 <= i < linked.len() ==> add_new(seq![root], linked).contains(
            #[trigger] linked[i],
        ),
        add_new(seq![root], linked).no_duplicates(),
    decreases linked.len(),
{
    if linked.len() > 0 {
        let t = linked.drop_last();
        lemma_aliases_cover_links(root, t);
        let acc = add_new(seq![root], t);
        assert forall|i: int| 0 <= i < linked.len() implies add_new(seq![root], linked).contains(
            #[trigger] linked[i],
        ) by {
            if i < t.len() {
                assert(t[i] == linked[i]);
                assert(acc.contains(t[i]));
                if !acc.contains(linked.last()) {
                    let k = choose|k: int| 0 <= k < acc.len() && acc[k] == t[i];
                    assert(acc.push(linked.last())[k] == t[i]);
                }
            } else {
                if !acc.contains(linked.last()) {
                    assert(acc.push(linked.last())[acc.len() as int] == linked.last());
                }
            }
        }
    }
}

/// The row a game writes names its two players in order, the smaller id
/// first, and puts a win in the winner's own column and a draw among the
/// draws: one game, counted once.
pub proof fn lemma_upsert_credits_the_winner(
    winner: Option<Seq<char>>,
    id1: Seq<char>,
    id2: Seq<char>,
)
    requires
        winner is None || winner == Some(id1) || winner == Some(id2),
    ensures
        (upsert_for(winner, id1, id2) is None) == (id1 == id2),
        upsert_for(winner, id1, id2) is Some ==> {
            let u = upsert_for(winner, id1, id2)->0;
            &&& crate::text::seq_le(u.player_a, u.player_b)
            &&& u.player_a != u.player_b
            &&& (u.player_a == id1 && u.player_b == id2) || (u.player_a == id2 && u.player_b == id1)
            &&& winner == Some(u.player_a) ==> u.wins_a == 1 && u.wins_b == 0 && u.draws == 0
                && u.on_conflict == HistoryColumn::WinsA
            &&& winner == Some(u.player_b) ==> u.wins_a == 0 && u.wins_b == 1 && u.draws == 0
                && u.on_conflict == HistoryColumn::WinsB
            &&& winner is None ==> u.wins_a == 0 && u.wins_b == 0 && u.draws == 1 && u.on_conflict
                == HistoryColumn::Draws
        },
{
    crate::text::lemma_seq_le_total(id1, id2);
}

} // verus!
