//! The end of a game: choosing the players with the best hands and paying them the
//! pot.

use vstd::prelude::*;
use crate::card::{Card, Value};
use crate::game_state::{
    clone_winners as clone_winners_list, has_folded, lemma_remaining_has_seat, models, remaining, revealed,
    winner_models, GameModel, GameState,
};
use crate::hand::Hand;
use crate::player::{str_equal, Player, PlayerModel};
use crate::score_hands::{
    compare_scores, get_best_5_card_hand, get_best_from_7_card_hand, is_best_of, is_hand_score,
    lemma_score_order_antisymmetric, lemma_score_order_reflexive, lemma_score_order_transitive,
    score_order, ScoredHand,
};

verus! {

/// The best score seen and the players holding it, after looking at the first `n`
/// seats in order and starting from the score `start` with no holders. A player who
/// has folded is passed over; a higher score replaces the holders, an equal one
/// joins them.
pub open spec fn winner_scan(
    ps: Seq<PlayerModel>,
    scores: Seq<ScoredHand>,
    start: ScoredHand,
    n: int,
) -> (ScoredHand, Seq<(PlayerModel, ScoredHand)>)
    decreases n,
{
    if n <= 0 {
        (start, Seq::empty())
    } else {
        let (best, acc) = winner_scan(ps, scores, start, n - 1);
        let i = n - 1;
        if has_folded(ps[i]) {
            (best, acc)
        } else if score_order(scores[i], best) > 0 {
            (scores[i], seq![(ps[i], scores[i])])
        } else if score_order(scores[i], best) == 0 {
            (best, acc.push((ps[i], scores[i])))
        } else {
            (best, acc)
        }
    }
}

/// Whether the player at seat `i` holds a best hand: the player has not folded, and
/// the score is at least `start` and at least that of every player who has not
/// folded.
pub open spec fn holds_best(ps: Seq<PlayerModel>, scores: Seq<ScoredHand>, start: ScoredHand, i: int) -> bool {
    &&& !has_folded(ps[i])
    &&& score_order(scores[i], start) >= 0
    &&& forall|j: int| 0 <= j < ps.len() && !has_folded(ps[j]) ==> #[trigger] score_order(scores[i], scores[j]) >= 0
}

/// The players among the first `n` seats who hold a best hand, in seat order, each
/// with its score.
pub open spec fn best_holders(
    ps: Seq<PlayerModel>,
    scores: Seq<ScoredHand>,
    start: ScoredHand,
    n: int,
) -> Seq<(PlayerModel, ScoredHand)>
    decreases n,
{
    if n <= 0 {
        Seq::empty()
    } else {
        best_holders(ps, scores, start, n - 1) + if holds_best(ps, scores, start, n - 1) {
            seq![(ps[n - 1], scores[n - 1])]
        } else {
            Seq::empty()
        }
    }
}

/// The players among the first `n` seats who have not folded and score the same
/// as `b`, in seat order.
pub open spec fn holders_of(
    ps: Seq<PlayerModel>,
    scores: Seq<ScoredHand>,
    b: ScoredHand,
    n: int,
) -> Seq<(PlayerModel, ScoredHand)>
    decreases n,
{
    if n <= 0 {
        Seq::empty()
    } else {
        holders_of(ps, scores, b, n - 1) + if !has_folded(ps[n - 1]) && score_order(scores[n - 1], b) == 0 {
            seq![(ps[n - 1], scores[n - 1])]
        } else {
            Seq::empty()
        }
    }
}

/// When no player among the first `n` seats who has not folded scores the same as
/// `b`, none holds it.
proof fn lemma_no_holders(ps: Seq<PlayerModel>, scores: Seq<ScoredHand>, b: ScoredHand, n: int)
    requires
        0 <= n <= ps.len(),
        forall|j: int| 0 <= j < n && !has_folded(ps[j]) ==> #[trigger] score_order(scores[j], b) != 0,
    ensures
        holders_of(ps, scores, b, n) == Seq::<(PlayerModel, ScoredHand)>::empty(),
    decreases n,
{
    if n > 0 {
        lemma_no_holders(ps, scores, b, n - 1);
        assert(holders_of(ps, scores, b, n) =~= holders_of(ps, scores, b, n - 1));
    }
}

/// What the scan knows after `n` seats: its best score is at least `start` and at
/// least every unfolded score seen, it is `start` or one of those scores, and its
/// holders are the unfolded players seen who score the same.
proof fn lemma_scan_invariant(ps: Seq<PlayerModel>, scores: Seq<ScoredHand>, start: ScoredHand, n: int)
    requires
        0 <= n <= ps.len(),
        ps.len() == scores.len(),
    ensures
        score_order(winner_scan(ps, scores, start, n).0, start) >= 0,
        forall|j: int| 0 <= j < n && !has_folded(ps[j])
            ==> #[trigger] score_order(winner_scan(ps, scores, start, n).0, scores[j]) >= 0,
        winner_scan(ps, scores, start, n).0 == start || exists|j: int|
            0 <= j < n && !has_folded(ps[j]) && winner_scan(ps, scores, start, n).0 == #[trigger] scores[j],
        winner_scan(ps, scores, start, n).1 == holders_of(ps, scores, winner_scan(ps, scores, start, n).0, n),
    decreases n,
{
    if n == 0 {
        lemma_score_order_reflexive(start);
    } else {
        lemma_scan_invariant(ps, scores, start, n - 1);
        let (best, acc) = winner_scan(ps, scores, start, n - 1);
        let i = n - 1;
        let s = scores[i];
        if has_folded(ps[i]) {
            assert(holders_of(ps, scores, best, n) =~= holders_of(ps, scores, best, n - 1));
        } else if score_order(s, best) > 0 {
            lemma_score_order_transitive(s, best, start);
            assert forall|j: int| 0 <= j < n && !has_folded(ps[j]) implies #[trigger] score_order(s, scores[j]) >= 0 by {
                if j < i {
                    lemma_score_order_transitive(s, best, scores[j]);
                } else {
                    lemma_score_order_reflexive(s);
                }
            }
            assert forall|j: int| 0 <= j < i && !has_folded(ps[j]) implies #[trigger] score_order(scores[j], s) != 0 by {
                lemma_score_order_transitive(s, best, scores[j]);
                lemma_score_order_antisymmetric(s, scores[j]);
            }
            lemma_no_holders(ps, scores, s, i);
            lemma_score_order_reflexive(s);
            assert(holders_of(ps, scores, s, n) =~= seq![(ps[i], s)]);
        } else if score_order(s, best) == 0 {
            lemma_score_order_antisymmetric(s, best);
            assert(holders_of(ps, scores, best, n) =~= holders_of(ps, scores, best, n - 1).push((ps[i], s)));
        } else {
            lemma_score_order_antisymmetric(s, best);
            assert(holders_of(ps, scores, best, n) =~= holders_of(ps, scores, best, n - 1));
        }
    }
}

/// With the final best score of the scan, scoring the same as it and holding a
/// best hand pick out the same players, so their lists agree up to any seat.
proof fn lemma_holders_are_best(
    ps: Seq<PlayerModel>,
    scores: Seq<ScoredHand>,
    start: ScoredHand,
    best: ScoredHand,
    m: int,
)
    requires
        0 <= m <= ps.len(),
        ps.len() == scores.len(),
        score_order(best, start) >= 0,
        forall|j: int| 0 <= j < ps.len() && !has_folded(ps[j]) ==> #[trigger] score_order(best, scores[j]) >= 0,
        best == start || exists|j: int| 0 <= j < ps.len() && !has_folded(ps[j]) && best == #[trigger] scores[j],
    ensures
        holders_of(ps, scores, best, m) == best_holders(ps, scores, start, m),
    decreases m,
{
    if m > 0 {
        lemma_holders_are_best(ps, scores, start, best, m - 1);
        let i = m - 1;
        let s = scores[i];
        if !has_folded(ps[i]) {
            if score_order(s, best) == 0 {
                lemma_score_order_antisymmetric(s, best);
                lemma_score_order_transitive(s, best, start);
                assert forall|j: int| 0 <= j < ps.len() && !has_folded(ps[j]) implies #[trigger] score_order(s, scores[j]) >= 0 by {
                    lemma_score_order_transitive(s, best, scores[j]);
                }
                assert(holds_best(ps, scores, start, i));
            } else if holds_best(ps, scores, start, i) {
                lemma_score_order_antisymmetric(best, s);
                if best != start {
                    let k = choose|j: int| 0 <= j < ps.len() && !has_folded(ps[j]) && best == #[trigger] scores[j];
                    assert(score_order(s, scores[k]) >= 0);
                }
                assert(false);
            }
        }
    }
}

/// The winners of a showdown are exactly the players who have not folded and whose
/// hand scores at least the opening score and at least every other hand still in,
/// in seat order: no player with a lower hand wins, and no player with a best hand
/// is left out.
pub proof fn lemma_winners_hold_best(ps: Seq<PlayerModel>, scores: Seq<ScoredHand>, start: ScoredHand)
    requires
        ps.len() == scores.len(),
    ensures
        winner_scan(ps, scores, start, ps.len() as int).1 == best_holders(ps, scores, start, ps.len() as int),
{
    let n = ps.len() as int;
    lemma_scan_invariant(ps, scores, start, n);
    lemma_holders_are_best(ps, scores, start, winner_scan(ps, scores, start, n).0, n);
}

/// The players with the best scores, each with its score: a player who has folded
/// is passed over; starting from `start`, a higher score replaces the winners and an
/// equal one joins them.
pub fn select_winners(players: &Vec<Player>, scores: &Vec<ScoredHand>, start: ScoredHand) -> (r: Vec<(Player, ScoredHand)>)
    requires
        players@.len() == scores@.len(),
    ensures
        winner_models(r@) == winner_scan(models(players@), scores@, start, players@.len() as int).1,
{
    let ghost ps = models(players@);
    let mut best = start;
    let mut winners: Vec<(Player, ScoredHand)> = Vec::new();
    let mut i: usize = 0;
    while i < players.len()
        invariant
            0 <= i <= players@.len(),
            players@.len() == scores@.len(),
            ps == models(players@),
            (best, winner_models(winners@)) == winner_scan(ps, scores@, start, i as int),
        decreases players@.len() - i,
    {
        if !players[i].player_choices.fold {
            let s = scores[i];
            let c = compare_scores(&s, &best);
            if c > 0 {
                let mut fresh: Vec<(Player, ScoredHand)> = Vec::new();
                fresh.push((players[i].clone(), s));
                winners = fresh;
                best = s;
                assert(winner_models(winners@) =~= seq![(ps[i as int], s)]);
            } else if c == 0 {
                let ghost before = winners@;
                winners.push((players[i].clone(), s));
                assert(winner_models(winners@) =~= winner_models(before).push((ps[i as int], s)));
            }
        }
        i = i + 1;
    }
    winners
}

/// The best score seen and the seats holding it, after looking at the first `n`
/// seats in order and starting from the score `start` with no holders: the same
/// scan as `winner_scan`, keeping each holder's seat number in place of the player.
pub open spec fn seat_scan(
    ps: Seq<PlayerModel>,
    scores: Seq<ScoredHand>,
    start: ScoredHand,
    n: int,
) -> (ScoredHand, Seq<(u32, ScoredHand)>)
    decreases n,
{
    if n <= 0 {
        (start, Seq::empty())
    } else {
        let (best, acc) = seat_scan(ps, scores, start, n - 1);
        let i = n - 1;
        if has_folded(ps[i]) {
            (best, acc)
        } else if score_order(scores[i], best) > 0 {
            (scores[i], seq![(i as u32, scores[i])])
        } else if score_order(scores[i], best) == 0 {
            (best, acc.push((i as u32, scores[i])))
        } else {
            (best, acc)
        }
    }
}

/// The players at a list of seats, each with its score.
pub open spec fn at_seats(ps: Seq<PlayerModel>, ws: Seq<(u32, ScoredHand)>) -> Seq<(PlayerModel, ScoredHand)> {
    ws.map_values(|w: (u32, ScoredHand)| (ps[w.0 as int], w.1))
}

/// The seats among the first `n` whose players have not folded, in order, each
/// with the score `s`.
pub open spec fn unfolded_seats(ps: Seq<PlayerModel>, s: ScoredHand, n: int) -> Seq<(u32, ScoredHand)>
    decreases n,
{
    if n <= 0 {
        Seq::empty()
    } else {
        unfolded_seats(ps, s, n - 1) + if !has_folded(ps[n - 1]) {
            seq![((n - 1) as u32, s)]
        } else {
            Seq::<(u32, ScoredHand)>::empty()
        }
    }
}

/// The seat scan picks the same best score as the player scan, and the players at
/// its seats are the players that scan picks.
proof fn lemma_seat_scan_matches(ps: Seq<PlayerModel>, scores: Seq<ScoredHand>, start: ScoredHand, n: int)
    requires
        0 <= n <= ps.len(),
        ps.len() <= u32::MAX,
    ensures
        seat_scan(ps, scores, start, n).0 == winner_scan(ps, scores, start, n).0,
        at_seats(ps, seat_scan(ps, scores, start, n).1) == winner_scan(ps, scores, start, n).1,
    decreases n,
{
    if n == 0 {
        assert(at_seats(ps, Seq::empty()) =~= Seq::<(PlayerModel, ScoredHand)>::empty());
    } else {
        lemma_seat_scan_matches(ps, scores, start, n - 1);
        let (best, acc) = seat_scan(ps, scores, start, n - 1);
        let i = n - 1;
        if !has_folded(ps[i]) {
            if score_order(scores[i], best) > 0 {
                assert(at_seats(ps, seq![(i as u32, scores[i])]) =~= seq![(ps[i], scores[i])]);
            } else if score_order(scores[i], best) == 0 {
                assert(at_seats(ps, acc.push((i as u32, scores[i]))) =~= at_seats(ps, acc).push((ps[i], scores[i])));
            }
        }
    }
}

/// The winners of a showdown by seat are exactly the seats of the players who have
/// not folded and whose hand scores at least the opening score and at least every
/// other hand still in, in seat order.
pub proof fn lemma_seat_winners_hold_best(ps: Seq<PlayerModel>, scores: Seq<ScoredHand>, start: ScoredHand)
    requires
        ps.len() == scores.len(),
        ps.len() <= u32::MAX,
    ensures
        at_seats(ps, seat_scan(ps, scores, start, ps.len() as int).1) == best_holders(ps, scores, start, ps.len() as int),
{
    lemma_seat_scan_matches(ps, scores, start, ps.len() as int);
    lemma_winners_hold_best(ps, scores, start);
}

/// The seats with the best scores, each with its score: a player who has folded
/// is passed over; starting from `start`, a higher score replaces the winners and an
/// equal one joins them.
pub fn select_winner_seats(players: &Vec<Player>, scores: &Vec<ScoredHand>, start: ScoredHand) -> (r: Vec<(u32, ScoredHand)>)
    requires
        players@.len() == scores@.len(),
        players@.len() <= u32::MAX,
    ensures
        r@ == seat_scan(models(players@), scores@, start, players@.len() as int).1,
{
    let ghost ps = models(players@);
    let mut best = start;
    let mut winners: Vec<(u32, ScoredHand)> = Vec::new();
    let mut i: usize = 0;
    while i < players.len()
        invariant
            0 <= i <= players@.len(),
            players@.len() == scores@.len(),
            players@.len() <= u32::MAX,
            ps == models(players@),
            (best, winners@) == seat_scan(ps, scores@, start, i as int),
        decreases players@.len() - i,
    {
        if !players[i].player_choices.fold {
            let s = scores[i];
            let c = compare_scores(&s, &best);
            if c > 0 {
                let mut fresh: Vec<(u32, ScoredHand)> = Vec::new();
                fresh.push((i as u32, s));
                winners = fresh;
                best = s;
                assert(winners@ =~= seq![(i as u32, s)]);
            } else if c == 0 {
                winners.push((i as u32, s));
            }
        }
        i = i + 1;
    }
    winners
}

/// The seats of the players who have not folded, in order, each with the score `s`.
pub fn unfolded_seat_list(players: &Vec<Player>, s: ScoredHand) -> (r: Vec<(u32, ScoredHand)>)
    requires
        players@.len() <= u32::MAX,
    ensures
        r@ == unfolded_seats(models(players@), s, players@.len() as int),
{
    let ghost ps = models(players@);
    let mut seats: Vec<(u32, ScoredHand)> = Vec::new();
    let mut i: usize = 0;
    while i < players.len()
        invariant
            0 <= i <= players@.len(),
            players@.len() <= u32::MAX,
            ps == models(players@),
            seats@ == unfolded_seats(ps, s, i as int),
        decreases players@.len() - i,
    {
        if !players[i].player_choices.fold {
            seats.push((i as u32, s));
        } else {
            assert(unfolded_seats(ps, s, i + 1) =~= unfolded_seats(ps, s, i as int));
        }
        i = i + 1;
    }
    seats
}

/// The money the players hold between them.
pub open spec fn total_money(ps: Seq<PlayerModel>) -> int
    decreases ps.len(),
{
    if ps.len() == 0 {
        0
    } else {
        total_money(ps.drop_last()) + ps.last().player_money
    }
}

/// Whether no two of the players share a name.
pub open spec fn distinct_names(ps: Seq<PlayerModel>) -> bool {
    forall|i: int, j: int| 0 <= i < j < ps.len() ==> #[trigger] ps[i].player_name != #[trigger] ps[j].player_name
}

/// How many times the winners name each player, added up over the players.
pub open spec fn times_named(ps: Seq<PlayerModel>, ws: Seq<(PlayerModel, ScoredHand)>) -> int
    decreases ps.len(),
{
    if ps.len() == 0 {
        0
    } else {
        times_named(ps.drop_last(), ws) + wins_named(ws, ps.last().player_name)
    }
}

/// How many of the players have the given name.
pub open spec fn seats_named(ps: Seq<PlayerModel>, name: Seq<char>) -> int
    decreases ps.len(),
{
    if ps.len() == 0 {
        0
    } else {
        seats_named(ps.drop_last(), name) + if ps.last().player_name == name { 1int } else { 0int }
    }
}

/// Among players with distinct names, at most one has a given name.
proof fn lemma_seats_named_at_most_one(ps: Seq<PlayerModel>, name: Seq<char>)
    requires
        distinct_names(ps),
    ensures
        0 <= seats_named(ps, name) <= 1,
        seats_named(ps, name) == 1 ==> exists|k: int| 0 <= k < ps.len() && #[trigger] ps[k].player_name == name,
    decreases ps.len(),
{
    if ps.len() > 0 {
        let q = ps.drop_last();
        assert(distinct_names(q)) by {
            assert forall|i: int, j: int| 0 <= i < j < q.len() implies #[trigger] q[i].player_name != #[trigger] q[j].player_name by {
                assert(q[i] == ps[i] && q[j] == ps[j]);
            }
        }
        lemma_seats_named_at_most_one(q, name);
        if ps.last().player_name == name && seats_named(q, name) == 1 {
            let k = choose|k: int| 0 <= k < q.len() && #[trigger] q[k].player_name == name;
            assert(ps[k] == q[k]);
            assert(ps[k].player_name != ps[ps.len() - 1].player_name);
        }
        if seats_named(ps, name) == 1 && ps.last().player_name != name {
            let k = choose|k: int| 0 <= k < q.len() && #[trigger] q[k].player_name == name;
            assert(ps[k] == q[k]);
        }
    }
}

/// One more winner adds to the count of namings exactly the number of players of
/// that winner's name.
proof fn lemma_times_named_push(ps: Seq<PlayerModel>, ws: Seq<(PlayerModel, ScoredHand)>, w: (PlayerModel, ScoredHand))
    ensures
        times_named(ps, ws.push(w)) == times_named(ps, ws) + seats_named(ps, w.0.player_name),
    decreases ps.len(),
{
    if ps.len() > 0 {
        lemma_times_named_push(ps.drop_last(), ws, w);
        lemma_wins_named_push(ws, w, ps.last().player_name);
    }
}

/// Among players with distinct names, the winners name players no more often than
/// there are winners.
proof fn lemma_times_named_bound(ps: Seq<PlayerModel>, ws: Seq<(PlayerModel, ScoredHand)>)
    requires
        distinct_names(ps),
    ensures
        0 <= times_named(ps, ws) <= ws.len(),
    decreases ws.len(),
{
    if ws.len() == 0 {
        lemma_times_named_empty(ps, ws);
    } else {
        let v = ws.drop_last();
        assert(v.push(ws.last()) =~= ws);
        lemma_times_named_bound(ps, v);
        lemma_times_named_push(ps, v, ws.last());
        lemma_seats_named_at_most_one(ps, ws.last().0.player_name);
    }
}

/// With no winners, no player is named.
proof fn lemma_times_named_empty(ps: Seq<PlayerModel>, ws: Seq<(PlayerModel, ScoredHand)>)
    requires
        ws.len() == 0,
    ensures
        times_named(ps, ws) == 0,
    decreases ps.len(),
{
    if ps.len() > 0 {
        lemma_times_named_empty(ps.drop_last(), ws);
    }
}

/// Paying the winners `share` each adds to the players' money the share once for
/// each time a player is named.
proof fn lemma_paid_total(ps: Seq<PlayerModel>, ws: Seq<(PlayerModel, ScoredHand)>, share: u32)
    requires
        forall|k: int| 0 <= k < ps.len() ==> #[trigger] payable(ps[k], ws, share),
    ensures
        total_money(ps.map_values(|p: PlayerModel| paid(p, ws, share))) == total_money(ps) + share * times_named(ps, ws),
    decreases ps.len(),
{
    if ps.len() > 0 {
        let q = ps.drop_last();
        assert(ps.map_values(|p: PlayerModel| paid(p, ws, share)).drop_last()
            =~= q.map_values(|p: PlayerModel| paid(p, ws, share)));
        assert forall|k: int| 0 <= k < q.len() implies #[trigger] payable(q[k], ws, share) by {
            assert(q[k] == ps[k]);
        }
        lemma_paid_total(q, ws, share);
        assert(payable(ps[ps.len() - 1], ws, share));
        let c = wins_named(ws, ps.last().player_name) as int;
        assert(share * times_named(ps, ws) == share * times_named(q, ws) + share * c) by (nonlinear_arith)
            requires
                times_named(ps, ws) == times_named(q, ws) + c,
        {
        }
        assert(c * share == share * c) by (nonlinear_arith);
    }
}

/// Paying the winners never creates chips: when no two players share a name, the
/// money the players hold after the winners are paid is at most what they held
/// before plus the pot.
pub proof fn lemma_payout_within_pot(m: GameModel)
    requires
        m.winner.len() > 0,
        distinct_names(m.players),
        forall|k: int| 0 <= k < m.players.len() ==> #[trigger] payable(m.players[k], m.winner, pot_share(m)),
    ensures
        total_money(m.players.map_values(|p: PlayerModel| paid(p, m.winner, pot_share(m))))
            <= total_money(m.players) + m.pot,
{
    let share = pot_share(m);
    let n = m.winner.len() as int;
    lemma_paid_total(m.players, m.winner, share);
    lemma_times_named_bound(m.players, m.winner);
    let t = times_named(m.players, m.winner);
    assert(share * t <= share * n) by (nonlinear_arith)
        requires
            0 <= t <= n,
            share >= 0,
    {
    }
    assert(share * n <= m.pot) by (nonlinear_arith)
        requires
            n > 0,
            share == m.pot as int / n,
            m.pot >= 0,
    {
    }
}

/// Every seat the seat scan picks lies among the first `n` and its player has not
/// folded.
pub proof fn lemma_seat_scan_seats(ps: Seq<PlayerModel>, scores: Seq<ScoredHand>, start: ScoredHand, n: int)
    requires
        0 <= n <= ps.len(),
        ps.len() <= u32::MAX,
    ensures
        forall|i: int| 0 <= i < seat_scan(ps, scores, start, n).1.len() ==> {
            let seat = #[trigger] seat_scan(ps, scores, start, n).1[i].0 as int;
            0 <= seat < n && !has_folded(ps[seat])
        },
    decreases n,
{
    if n > 0 {
        lemma_seat_scan_seats(ps, scores, start, n - 1);
        let (best, acc) = seat_scan(ps, scores, start, n - 1);
        let r = seat_scan(ps, scores, start, n).1;
        assert forall|i: int| 0 <= i < r.len() implies {
            let seat = #[trigger] r[i].0 as int;
            0 <= seat < n && !has_folded(ps[seat])
        } by {
            if !has_folded(ps[n - 1]) && score_order(scores[n - 1], best) > 0 {
                assert(r[i].0 == (n - 1) as u32);
            } else if !has_folded(ps[n - 1]) && score_order(scores[n - 1], best) == 0 {
                if i < acc.len() {
                    assert(r[i] == acc[i]);
                } else {
                    assert(r[i].0 == (n - 1) as u32);
                }
            } else {
                assert(r[i] == acc[i]);
            }
        }
    }
}

/// Every seat listed among the first `n` lies there and its player has not folded.
pub proof fn lemma_unfolded_seats_seats(ps: Seq<PlayerModel>, s: ScoredHand, n: int)
    requires
        0 <= n <= ps.len(),
        ps.len() <= u32::MAX,
    ensures
        forall|i: int| 0 <= i < unfolded_seats(ps, s, n).len() ==> {
            let seat = #[trigger] unfolded_seats(ps, s, n)[i].0 as int;
            0 <= seat < n && !has_folded(ps[seat])
        },
    decreases n,
{
    if n > 0 {
        lemma_unfolded_seats_seats(ps, s, n - 1);
        let prev = unfolded_seats(ps, s, n - 1);
        assert forall|i: int| 0 <= i < unfolded_seats(ps, s, n).len() implies {
            let seat = #[trigger] unfolded_seats(ps, s, n)[i].0 as int;
            0 <= seat < n && !has_folded(ps[seat])
        } by {
            if i < prev.len() {
                assert(unfolded_seats(ps, s, n)[i] == prev[i]);
            }
        }
    }
}

/// The score a five card showdown starts from: a high card of five twos.
pub open spec fn opening_five() -> ScoredHand {
    ScoredHand::HighCard([Value::Two, Value::Two, Value::Two, Value::Two, Value::Two])
}

/// The score a seven card or Texas hold'em showdown starts from: a high card of
/// five empty values.
pub open spec fn opening_seven() -> ScoredHand {
    ScoredHand::HighCard([Value::Empty, Value::Empty, Value::Empty, Value::Empty, Value::Empty])
}

/// The players with every unfolded hand turned face up.
pub open spec fn revealed_players(ps: Seq<PlayerModel>) -> Seq<PlayerModel> {
    ps.map_values(|p: PlayerModel| revealed(p))
}

/// The first seat from `i` on whose player has not folded.
pub open spec fn first_active_from(ps: Seq<PlayerModel>, i: int) -> Option<int>
    decreases ps.len() - i,
{
    if i < 0 || i >= ps.len() {
        None
    } else if !has_folded(ps[i]) {
        Some(i)
    } else {
        first_active_from(ps, i + 1)
    }
}

/// The first active seat from `i` on is a seat from `i` on whose player has not
/// folded, every player between having folded; when there is none, every player
/// from `i` on has folded.
proof fn lemma_first_active_from(ps: Seq<PlayerModel>, i: int)
    requires
        0 <= i,
    ensures
        first_active_from(ps, i) matches Some(k) ==> i <= k < ps.len() && !has_folded(ps[k])
            && forall|j: int| i <= j < k ==> #[trigger] has_folded(ps[j]),
        first_active_from(ps, i) is None ==> forall|j: int| i <= j < ps.len() ==> #[trigger] has_folded(ps[j]),
    decreases ps.len() - i,
{
    if i < ps.len() {
        lemma_first_active_from(ps, i + 1);
    }
}

/// Two different seats whose players have not folded leave at least two players,
/// and one such seat at least one.
proof fn lemma_remaining_counts_seats(ps: Seq<PlayerModel>, a: int, b: int)
    requires
        0 <= a < ps.len(),
        !has_folded(ps[a]),
    ensures
        remaining(ps) >= 1,
        0 <= b < ps.len() && b != a && !has_folded(ps[b]) ==> remaining(ps) >= 2,
    decreases ps.len(),
{
    let t = ps.drop_last();
    let last = ps.len() - 1;
    if a < last {
        assert(t[a] == ps[a]);
        if 0 <= b < last {
            assert(t[b] == ps[b]);
        }
        lemma_remaining_counts_seats(t, a, b);
    } else if 0 <= b < last && !has_folded(ps[b]) {
        assert(t[b] == ps[b]);
        lemma_remaining_counts_seats(t, b, b);
    }
}

/// Turning hands face up keeps every fold, so as many players are left.
proof fn lemma_revealed_keeps_folds(ps: Seq<PlayerModel>)
    ensures
        revealed_players(ps).len() == ps.len(),
        forall|j: int| 0 <= j < ps.len() ==> #[trigger] has_folded(revealed_players(ps)[j]) == has_folded(ps[j]),
        remaining(revealed_players(ps)) == remaining(ps),
    decreases ps.len(),
{
    if ps.len() > 0 {
        lemma_revealed_keeps_folds(ps.drop_last());
        assert(revealed_players(ps).drop_last() =~= revealed_players(ps.drop_last()));
    }
}

/// A showdown is left to a lone survivor exactly when one player has not folded,
/// and the survivor is that player: every other player has folded.
pub proof fn lemma_lone_survivor_is_last_in(m: GameModel)
    ensures
        lone_survivor(m) matches Some(k) ==> 0 <= k < m.players.len() && !has_folded(m.players[k])
            && forall|j: int| 0 <= j < m.players.len() && j != k ==> #[trigger] has_folded(m.players[j]),
        (lone_survivor(m) is Some) <==> remaining(m.players) == 1,
{
    let rp = revealed_players(m.players);
    lemma_revealed_keeps_folds(m.players);
    lemma_first_active_from(rp, 0);
    match first_active_from(rp, 0) {
        Some(k) => {
            lemma_remaining_counts_seats(m.players, k, 0);
            assert forall|j: int| 0 <= j < m.players.len() && j != k && remaining(m.players) <= 1
                implies #[trigger] has_folded(m.players[j]) by {
                if !has_folded(m.players[j]) {
                    lemma_remaining_counts_seats(m.players, k, j);
                }
            }
        },
        None => {
            if remaining(m.players) > 0 {
                lemma_remaining_has_seat(m.players);
                let k = choose|k: int| 0 <= k < m.players.len() && !#[trigger] has_folded(m.players[k]);
                assert(has_folded(rp[k]));
            }
        },
    }
}

/// The number of winners with the given name.
pub open spec fn wins_named(ws: Seq<(PlayerModel, ScoredHand)>, name: Seq<char>) -> nat
    decreases ws.len(),
{
    if ws.len() == 0 {
        0
    } else {
        wins_named(ws.drop_last(), name) + if ws.last().0.player_name == name { 1nat } else { 0nat }
    }
}

/// A player after the winners `ws` are paid `share` each: every winner counts a
/// game for every player; a player named as a winner is paid the share and counts a
/// win for each time so named, and any other counts a loss.
pub open spec fn paid(p: PlayerModel, ws: Seq<(PlayerModel, ScoredHand)>, share: u32) -> PlayerModel {
    let c = wins_named(ws, p.player_name);
    PlayerModel {
        total_games: (p.total_games + ws.len()) as u32,
        player_money: (p.player_money + c * share) as u32,
        total_earnings: (p.total_earnings + c * share) as u32,
        round_win: if c > 0 { share } else { p.round_win },
        total_wins: (p.total_wins + c) as u32,
        total_losses: (p.total_losses + (ws.len() - c)) as u32,
        ..p
    }
}

/// Each winner's share of the pot: the pot divided evenly among the winners,
/// rounded down.
pub open spec fn pot_share(m: GameModel) -> u32 {
    (m.pot as int / m.winner.len() as int) as u32
}

/// Paying the winners splits the pot evenly: a player named once among `k` winners
/// gains the pot divided by `k`, rounded down, and counts one win and `k - 1`
/// losses; a player not among them gains nothing and counts `k` losses. Either way
/// the player counts `k` more games.
pub proof fn lemma_pot_split_evenly(m: GameModel, p: PlayerModel)
    requires
        m.winner.len() > 0,
        payable(p, m.winner, pot_share(m)),
    ensures
        paid(p, m.winner, pot_share(m)).total_games == p.total_games + m.winner.len(),
        wins_named(m.winner, p.player_name) == 1 ==> {
            &&& paid(p, m.winner, pot_share(m)).player_money == p.player_money + (m.pot as int) / (m.winner.len() as int)
            &&& paid(p, m.winner, pot_share(m)).total_wins == p.total_wins + 1
            &&& paid(p, m.winner, pot_share(m)).total_losses == p.total_losses + m.winner.len() - 1
        },
        wins_named(m.winner, p.player_name) == 0 ==> {
            &&& paid(p, m.winner, pot_share(m)).player_money == p.player_money
            &&& paid(p, m.winner, pot_share(m)).total_wins == p.total_wins
            &&& paid(p, m.winner, pot_share(m)).total_losses == p.total_losses + m.winner.len()
        },
{
    assert(m.pot as int / m.winner.len() as int <= m.pot) by (nonlinear_arith)
        requires
            m.winner.len() > 0,
            m.pot >= 0,
    {
    }
}

/// Whether paying the winners `ws` the share `share` overflows no count of player `p`.
pub open spec fn payable(p: PlayerModel, ws: Seq<(PlayerModel, ScoredHand)>, share: u32) -> bool {
    let c = wins_named(ws, p.player_name);
    &&& p.total_games + ws.len() <= u32::MAX
    &&& p.player_money + c * share <= u32::MAX
    &&& p.total_earnings + c * share <= u32::MAX
    &&& p.total_wins + c <= u32::MAX
    &&& p.total_losses + ws.len() - c <= u32::MAX
}

/// Counting the winners named `name` among one more winner adds one exactly when
/// that winner has the name; the count never passes the number of winners.
proof fn lemma_wins_named_push(ws: Seq<(PlayerModel, ScoredHand)>, w: (PlayerModel, ScoredHand), name: Seq<char>)
    ensures
        wins_named(ws.push(w), name) == wins_named(ws, name) + if w.0.player_name == name { 1nat } else { 0nat },
        wins_named(ws, name) <= ws.len(),
    decreases ws.len(),
{
    assert(ws.push(w).drop_last() =~= ws);
    if ws.len() > 0 {
        lemma_wins_named_push(ws.drop_last(), ws.last(), name);
        assert(ws.drop_last().push(ws.last()) =~= ws);
    }
}

/// Counting over a prefix of the winners never counts more than over all of them.
proof fn lemma_wins_named_prefix(ws: Seq<(PlayerModel, ScoredHand)>, n: int, name: Seq<char>)
    requires
        0 <= n <= ws.len(),
    ensures
        wins_named(ws.take(n), name) <= wins_named(ws, name),
        ws.take(n).len() - wins_named(ws.take(n), name) <= ws.len() - wins_named(ws, name),
    decreases ws.len() - n,
{
    if n < ws.len() {
        lemma_wins_named_prefix(ws, n + 1, name);
        assert(ws.take(n + 1) =~= ws.take(n).push(ws[n]));
        lemma_wins_named_push(ws.take(n), ws[n], name);
    } else {
        assert(ws.take(n) =~= ws);
    }
}

/// Whether `scores` holds, for each unfolded player, the score of the player's
/// five cards once turned face up.
pub open spec fn five_card_scores(m: GameModel, scores: Seq<ScoredHand>) -> bool {
    &&& scores.len() == m.players.len()
    &&& forall|k: int| 0 <= k < scores.len() && !has_folded(m.players[k])
        ==> is_hand_score(revealed(m.players[k]).hand, #[trigger] scores[k])
}

/// The table after a showdown with the given scores: unfolded hands face up, and
/// the winners the unfolded players with the best score from `start` on.
pub open spec fn showdown(m: GameModel, scores: Seq<ScoredHand>, start: ScoredHand) -> GameModel {
    GameModel {
        players: revealed_players(m.players),
        winner: winner_scan(revealed_players(m.players), scores, start, m.players.len() as int).1,
        ..m
    }
}

/// Whether `scores` holds, for each unfolded player, the best score of five of the
/// player's cards once turned face up.
pub open spec fn seven_card_scores(m: GameModel, scores: Seq<ScoredHand>) -> bool {
    &&& scores.len() == m.players.len()
    &&& forall|k: int| 0 <= k < scores.len() && !has_folded(m.players[k])
        ==> is_best_of(revealed(m.players[k]).hand, #[trigger] scores[k])
}

/// Whether `scores` holds, for each unfolded player, the best score of five of the
/// player's cards, once turned face up, together with the community cards.
pub open spec fn texas_scores(m: GameModel, scores: Seq<ScoredHand>) -> bool {
    &&& scores.len() == m.players.len()
    &&& forall|k: int| 0 <= k < scores.len() && !has_folded(m.players[k])
        ==> is_best_of(revealed(m.players[k]).hand + m.community_cards, #[trigger] scores[k])
}

/// The table after a showdown with the given scores in which the winners are added
/// to those already recorded.
pub open spec fn showdown_added(m: GameModel, scores: Seq<ScoredHand>, start: ScoredHand) -> GameModel {
    GameModel {
        players: revealed_players(m.players),
        winner: m.winner + winner_scan(revealed_players(m.players), scores, start, m.players.len() as int).1,
        ..m
    }
}

/// The table after a showdown left with at most one player: hands face up, and the
/// player at seat `k` added to the winners with the opening score.
pub open spec fn lone_winner(m: GameModel, k: int) -> GameModel {
    GameModel {
        players: revealed_players(m.players),
        winner: m.winner.push((revealed_players(m.players)[k], opening_seven())),
        ..m
    }
}

/// Whether a showdown is left with one player, who wins without a comparison: at
/// most one player has not folded and there is one.
pub open spec fn lone_survivor(m: GameModel) -> Option<int> {
    if remaining(revealed_players(m.players)) <= 1 {
        first_active_from(revealed_players(m.players), 0)
    } else {
        None
    }
}

/// A hand that may hold seven cards, holding the cards of `a` and then those of `b`.
fn combined_hand(a: &Vec<Card>, b: &Vec<Card>) -> (r: Hand)
    ensures
        r.cards@ == a@ + b@,
        r.limit() == 7,
{
    let mut h = Hand::new(7);
    let mut i: usize = 0;
    while i < a.len()
        invariant
            0 <= i <= a@.len(),
            h.cards@ == a@.take(i as int),
            h.limit() == 7,
        decreases a@.len() - i,
    {
        h.cards.push(a[i]);
        assert(a@.take(i + 1) =~= a@.take(i as int).push(a@[i as int]));
        i = i + 1;
    }
    let mut j: usize = 0;
    while j < b.len()
        invariant
            0 <= j <= b@.len(),
            h.cards@ == a@ + b@.take(j as int),
            h.limit() == 7,
        decreases b@.len() - j,
    {
        h.cards.push(b[j]);
        assert(a@ + b@.take(j + 1) =~= (a@ + b@.take(j as int)).push(b@[j as int]));
        j = j + 1;
    }
    assert(a@.take(a@.len() as int) =~= a@);
    assert(b@.take(b@.len() as int) =~= b@);
    h
}

/// Multiplying by the share keeps the order of the counts, and one more win adds
/// one more share.
proof fn lemma_shares(c1: nat, c2: nat, share: u32)
    requires
        c1 <= c2,
    ensures
        c1 * share <= c2 * share,
        (c1 + 1) * share == c1 * share + share,
{
    vstd::arithmetic::mul::lemma_mul_inequality(c1 as int, c2 as int, share as int);
    vstd::arithmetic::mul::lemma_mul_is_distributive_add_other_way(share as int, c1 as int, 1);
}

impl GameState {
    /// Decides a five card showdown: every unfolded hand is turned face up and
    /// scored, and the winners become the unfolded players with the best score (at
    /// least a high card of five twos), each with that score.
    pub fn determine_winner_five_card(&mut self)
        requires
            forall|k: int| 0 <= k < old(self).players@.len() && !has_folded(old(self)@.players[k])
                ==> #[trigger] old(self)@.players[k].hand.len() == 5,
        ensures
            exists|scores: Seq<ScoredHand>| #[trigger] five_card_scores(old(self)@, scores)
                && final(self)@ == showdown(old(self)@, scores, opening_five()),
    {
        let start = ScoredHand::HighCard([Value::Two, Value::Two, Value::Two, Value::Two, Value::Two]);
        self.reveal_cards();
        let ghost ps = self@.players;
        assert(ps.len() == self.players@.len());
        assert(revealed_players(old(self)@.players).len() == old(self)@.players.len());
        let mut scores: Vec<ScoredHand> = Vec::new();
        let mut i: usize = 0;
        while i < self.players.len()
            invariant
                0 <= i <= self.players@.len(),
                ps == models(self.players@),
                ps == revealed_players(old(self)@.players),
                self.players@.len() == old(self).players@.len(),
                scores@.len() == i,
                forall|k: int| 0 <= k < old(self).players@.len() && !has_folded(old(self)@.players[k])
                    ==> #[trigger] old(self)@.players[k].hand.len() == 5,
                forall|k: int| 0 <= k < i && !has_folded(old(self)@.players[k])
                    ==> is_hand_score(revealed(old(self)@.players[k]).hand, #[trigger] scores@[k]),
            decreases self.players@.len() - i,
        {
            if !self.players[i].player_choices.fold {
                assert(ps[i as int] == revealed(old(self)@.players[i as int]));
                let s = get_best_5_card_hand(&self.players[i].player_hand);
                scores.push(s);
            } else {
                scores.push(start);
            }
            i = i + 1;
        }
        let winners = select_winners(&self.players, &scores, start);
        self.winner = winners;
        assert(five_card_scores(old(self)@, scores@));
    }

    /// Decides a seven card showdown: every unfolded hand is turned face up; when at
    /// most one player is left, that player is added to the winners with a high card
    /// of empty values; otherwise each unfolded hand is scored by its best five cards
    /// and the unfolded players with the best score (at least that high card) are
    /// added to the winners.
    pub fn determine_winner_seven_card(&mut self)
        requires
            old(self).players@.len() <= u32::MAX,
            forall|k: int| 0 <= k < old(self).players@.len() && !has_folded(old(self)@.players[k])
                ==> #[trigger] old(self)@.players[k].hand.len() >= 5,
        ensures
            lone_survivor(old(self)@) matches Some(k) ==> final(self)@ == lone_winner(old(self)@, k),
            lone_survivor(old(self)@) is None ==> exists|scores: Seq<ScoredHand>|
                #[trigger] seven_card_scores(old(self)@, scores)
                && final(self)@ == showdown_added(old(self)@, scores, opening_seven()),
    {
        let start = ScoredHand::HighCard([Value::Empty, Value::Empty, Value::Empty, Value::Empty, Value::Empty]);
        self.reveal_cards();
        assert(self@.players.len() == self.players@.len());
        assert(revealed_players(old(self)@.players).len() == old(self)@.players.len());
        if self.get_remaining_player_count() <= 1 {
            if let Some(k) = self.first_active() {
                let w = (self.players[k].clone(), start);
                let ghost before = self.winner@;
                self.winner.push(w);
                assert(winner_models(self.winner@) =~= winner_models(before).push((self@.players[k as int], start)));
                return;
            }
        }
        let ghost ps = self@.players;
        let mut scores: Vec<ScoredHand> = Vec::new();
        let mut i: usize = 0;
        while i < self.players.len()
            invariant
                0 <= i <= self.players@.len(),
                ps == models(self.players@),
                ps == revealed_players(old(self)@.players),
                self.players@.len() == old(self).players@.len(),
                scores@.len() == i,
                forall|k: int| 0 <= k < old(self).players@.len() && !has_folded(old(self)@.players[k])
                    ==> #[trigger] old(self)@.players[k].hand.len() >= 5,
                forall|k: int| 0 <= k < i && !has_folded(old(self)@.players[k])
                    ==> is_best_of(revealed(old(self)@.players[k]).hand, #[trigger] scores@[k]),
            decreases self.players@.len() - i,
        {
            if !self.players[i].player_choices.fold {
                assert(ps[i as int] == revealed(old(self)@.players[i as int]));
                let s = get_best_from_7_card_hand(&self.players[i].player_hand);
                scores.push(s);
            } else {
                scores.push(start);
            }
            i = i + 1;
        }
        let winners = select_winners(&self.players, &scores, start);
        self.add_winners(winners);
        assert(seven_card_scores(old(self)@, scores@));
    }

    /// Decides a Texas hold'em showdown: every unfolded hand is turned face up; when
    /// at most one player is left, that player is added to the winners with a high
    /// card of empty values; otherwise each unfolded hand is scored by the best five
    /// of its cards and the community cards, and the unfolded players with the best
    /// score (at least that high card) are added to the winners.
    pub fn determine_winner_texas(&mut self)
        requires
            old(self).players@.len() <= u32::MAX,
            forall|k: int| 0 <= k < old(self).players@.len() && !has_folded(old(self)@.players[k])
                ==> #[trigger] old(self)@.players[k].hand.len() + old(self)@.community_cards.len() >= 5,
        ensures
            lone_survivor(old(self)@) matches Some(k) ==> final(self)@ == lone_winner(old(self)@, k),
            lone_survivor(old(self)@) is None ==> exists|scores: Seq<ScoredHand>|
                #[trigger] texas_scores(old(self)@, scores)
                && final(self)@ == showdown_added(old(self)@, scores, opening_seven()),
    {
        let start = ScoredHand::HighCard([Value::Empty, Value::Empty, Value::Empty, Value::Empty, Value::Empty]);
        self.reveal_cards();
        assert(self@.players.len() == self.players@.len());
        assert(revealed_players(old(self)@.players).len() == old(self)@.players.len());
        if self.get_remaining_player_count() <= 1 {
            if let Some(k) = self.first_active() {
                let w = (self.players[k].clone(), start);
                let ghost before = self.winner@;
                self.winner.push(w);
                assert(winner_models(self.winner@) =~= winner_models(before).push((self@.players[k as int], start)));
                return;
            }
        }
        let ghost ps = self@.players;
        let mut scores: Vec<ScoredHand> = Vec::new();
        let mut i: usize = 0;
        while i < self.players.len()
            invariant
                0 <= i <= self.players@.len(),
                ps == models(self.players@),
                ps == revealed_players(old(self)@.players),
                self.players@.len() == old(self).players@.len(),
                self.community_cards.cards@ == old(self)@.community_cards,
                scores@.len() == i,
                forall|k: int| 0 <= k < old(self).players@.len() && !has_folded(old(self)@.players[k])
                    ==> #[trigger] old(self)@.players[k].hand.len() + old(self)@.community_cards.len() >= 5,
                forall|k: int| 0 <= k < i && !has_folded(old(self)@.players[k])
                    ==> is_best_of(revealed(old(self)@.players[k]).hand + old(self)@.community_cards, #[trigger] scores@[k]),
            decreases self.players@.len() - i,
        {
            if !self.players[i].player_choices.fold {
                assert(ps[i as int] == revealed(old(self)@.players[i as int]));
                let combined = combined_hand(&self.players[i].player_hand.cards, &self.community_cards.cards);
                let s = get_best_from_7_card_hand(&combined);
                scores.push(s);
            } else {
                scores.push(start);
            }
            i = i + 1;
        }
        let winners = select_winners(&self.players, &scores, start);
        self.add_winners(winners);
        assert(texas_scores(old(self)@, scores@));
    }

    /// The first seat whose player has not folded.
    fn first_active(&self) -> (r: Option<usize>)
        ensures
            r matches Some(k) ==> k < self.players@.len() && first_active_from(self@.players, 0) == Some(k as int),
            r is None ==> first_active_from(self@.players, 0) is None,
    {
        let mut i: usize = 0;
        while i < self.players.len()
            invariant
                0 <= i <= self.players@.len(),
                first_active_from(self@.players, i as int) == first_active_from(self@.players, 0),
            decreases self.players@.len() - i,
        {
            if !self.players[i].player_choices.fold {
                return Some(i);
            }
            i = i + 1;
        }
        None
    }

    /// Adds the given winners after those already recorded.
    fn add_winners(&mut self, winners: Vec<(Player, ScoredHand)>)
        ensures
            final(self)@ == (GameModel { winner: old(self)@.winner + winner_models(winners@), ..old(self)@ }),
    {
        let ghost start = self@;
        let mut i: usize = 0;
        while i < winners.len()
            invariant
                0 <= i <= winners@.len(),
                self@ == (GameModel { winner: winner_models(self.winner@), ..start }),
                winner_models(self.winner@) == start.winner + winner_models(winners@.take(i as int)),
            decreases winners@.len() - i,
        {
            let w = (winners[i].0.clone(), winners[i].1);
            let ghost before = self.winner@;
            self.winner.push(w);
            assert(winner_models(self.winner@) =~= winner_models(before).push((winners@[i as int].0@, winners@[i as int].1)));
            assert(winner_models(winners@.take(i + 1)) =~= winner_models(winners@.take(i as int)).push(
                (winners@[i as int].0@, winners@[i as int].1)));
            i = i + 1;
        }
        assert(winners@.take(winners@.len() as int) =~= winners@);
    }

    /// Pays the winners: the pot is split evenly among the recorded winners (the
    /// remainder is lost), every winner counts a game for every player, a player
    /// named as a winner is paid the share and counts a win each time so named,
    /// any other counts a loss, and the pot is emptied. With no winners nothing
    /// changes.
    pub fn pay_winners(&mut self)
        requires
            old(self).winner@.len() <= u32::MAX,
            old(self).winner@.len() > 0 ==> forall|k: int| 0 <= k < old(self).players@.len() ==> #[trigger] payable(
                old(self)@.players[k], old(self)@.winner, pot_share(old(self)@)),
        ensures
            old(self).winner@.len() == 0 ==> final(self)@ == old(self)@,
            old(self).winner@.len() > 0 ==> final(self)@ == (GameModel {
                players: old(self)@.players.map_values(|p: PlayerModel|
                    paid(p, old(self)@.winner, pot_share(old(self)@))),
                pot: 0,
                ..old(self)@
            }),
    {
        let count = self.winner.len();
        if count == 0 {
            return;
        }
        let share = self.pot / (count as u32);
        let ws = clone_winners_list(&self.winner);
        let ghost start = self@;
        let ghost wm = start.winner;
        let ghost p0 = start.players;
        let mut w: usize = 0;
        while w < count
            invariant
                0 <= w <= count,
                count == wm.len(),
                winner_models(ws@) == wm,
                share == pot_share(start),
                self.players@.len() == p0.len(),
                self@ == (GameModel { players: models(self.players@), ..start }),
                forall|k: int| 0 <= k < p0.len() ==> #[trigger] payable(p0[k], wm, share),
                forall|k: int| 0 <= k < p0.len() ==> #[trigger] self.players@[k]@ == paid(p0[k], wm.take(w as int), share),
            decreases count - w,
        {
            let ghost round_start = models(self.players@);
            let mut i: usize = 0;
            while i < self.players.len()
                invariant
                    0 <= i <= self.players@.len(),
                    0 <= w < count,
                    count == wm.len(),
                    winner_models(ws@) == wm,
                    self.players@.len() == p0.len(),
                    self@ == (GameModel { players: models(self.players@), ..start }),
                    forall|k: int| 0 <= k < p0.len() ==> #[trigger] payable(p0[k], wm, share),
                    forall|k: int| 0 <= k < i ==> #[trigger] self.players@[k]@ == paid(p0[k], wm.take(w + 1), share),
                    forall|k: int| i <= k < p0.len() ==> #[trigger] self.players@[k]@ == paid(p0[k], wm.take(w as int), share),
                decreases self.players@.len() - i,
            {
                let ghost name = p0[i as int].player_name;
                proof {
                    assert(wm.take(w + 1) =~= wm.take(w as int).push(wm[w as int]));
                    lemma_wins_named_push(wm.take(w as int), wm[w as int], name);
                    lemma_wins_named_prefix(wm, w + 1, name);
                    lemma_shares(wins_named(wm.take(w as int), name), wins_named(wm, name), share);
                    lemma_shares(wins_named(wm.take(w + 1), name), wins_named(wm, name), share);
                    assert(payable(p0[i as int], wm, share));
                    assert(ws@[w as int].0@.player_name == wm[w as int].0.player_name);
                    assert(self.players@[i as int]@ == paid(p0[i as int], wm.take(w as int), share));
                    let c0 = wins_named(wm.take(w as int), name);
                    let ct = wins_named(wm, name);
                    assert(wm.take(w as int).len() == w);
                    assert(c0 <= w);
                    assert(p0[i as int].total_games + w + 1 <= u32::MAX);
                    assert(wm[w as int].0.player_name == name ==> c0 + 1 <= ct);
                    assert(wm[w as int].0.player_name != name ==> (w + 1) - c0 <= wm.len() - ct);
                }
                self.players[i].total_games = self.players[i].total_games + 1;
                if str_equal(self.players[i].player_name.as_str(), ws[w].0.player_name.as_str()) {
                    self.players[i].player_money = self.players[i].player_money + share;
                    self.players[i].total_earnings = self.players[i].total_earnings + share;
                    self.players[i].round_win = share;
                    self.players[i].total_wins = self.players[i].total_wins + 1;
                } else {
                    self.players[i].total_losses = self.players[i].total_losses + 1;
                }
                i = i + 1;
            }
            w = w + 1;
        }
        self.pot = 0;
        assert(wm.take(count as int) =~= wm);
        assert(models(self.players@) =~= p0.map_values(|p: PlayerModel| paid(p, wm, share)));
    }

    /// Whether paying the recorded winners now overflows no count of any player.
    pub fn pay_winners_ready(&self) -> (r: bool)
        requires
            self.winner@.len() <= u32::MAX,
        ensures
            r == (self.winner@.len() > 0 ==> forall|k: int| 0 <= k < self.players@.len()
                ==> #[trigger] payable(self@.players[k], self@.winner, pot_share(self@))),
    {
        let count = self.winner.len();
        if count == 0 {
            return true;
        }
        let share = self.pot / (count as u32);
        let ghost wm = self@.winner;
        let mut i: usize = 0;
        while i < self.players.len()
            invariant
                0 <= i <= self.players@.len(),
                count == wm.len(),
                count > 0,
                count <= u32::MAX,
                wm == self@.winner,
                share == pot_share(self@),
                forall|k: int| 0 <= k < i ==> #[trigger] payable(self@.players[k], wm, share),
            decreases self.players@.len() - i,
        {
            let p = &self.players[i];
            assert(self@.players[i as int] == p@);
            let mut c: u64 = 0;
            let mut j: usize = 0;
            while j < count
                invariant
                    0 <= j <= count,
                    count == wm.len(),
                    count <= u32::MAX,
                    wm == self@.winner,
                    c == wins_named(wm.take(j as int), p@.player_name),
                    c <= j,
                decreases count - j,
            {
                proof {
                    assert(wm.take(j + 1).drop_last() =~= wm.take(j as int));
                    assert(self@.winner[j as int] == (self.winner@[j as int].0@, self.winner@[j as int].1));
                }
                if str_equal(self.winner[j].0.player_name.as_str(), p.player_name.as_str()) {
                    c = c + 1;
                }
                j = j + 1;
            }
            assert(wm.take(count as int) =~= wm);
            assert(c * share <= u32::MAX * u32::MAX) by (nonlinear_arith)
                requires c <= u32::MAX, share <= u32::MAX;
            let paid_out: u64 = c * (share as u64);
            let games = p.total_games as u64 + count as u64;
            let money = p.player_money as u64 + paid_out;
            let earnings = p.total_earnings as u64 + paid_out;
            let wins = p.total_wins as u64 + c;
            let losses = p.total_losses as u64 + (count as u64 - c);
            if games > u32::MAX as u64 || money > u32::MAX as u64 || earnings > u32::MAX as u64
                || wins > u32::MAX as u64 || losses > u32::MAX as u64 {
                assert(!payable(self@.players[i as int], wm, share));
                return false;
            }
            i = i + 1;
        }
        true
    }
}

} // verus!
