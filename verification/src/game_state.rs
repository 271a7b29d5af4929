//! The state of a poker table: its players, the deck, the pot and the betting, and
//! the rules that move the table from one step of a game to the next.

use vstd::prelude::*;
use vstd::multiset::Multiset;
use crate::card::{Card, Suit, Value};
use crate::deck::{standard_cards, Deck};
use crate::hand::{dealt, Hand};
use crate::player::{str_equal, Player, PlayerModel};
use crate::score_hands::ScoredHand;
use crate::text::{decimal, decimal_text};

verus! {

/// The plain values of a list of players.
pub open spec fn models(ps: Seq<Player>) -> Seq<PlayerModel> {
    ps.map_values(|p: Player| p@)
}

/// The plain values of a list of texts.
pub open spec fn texts(ts: Seq<String>) -> Seq<Seq<char>> {
    ts.map_values(|t: String| t@)
}

/// The plain values of a list of winners and their hands.
pub open spec fn winner_models(ws: Seq<(Player, ScoredHand)>) -> Seq<(PlayerModel, ScoredHand)> {
    ws.map_values(|w: (Player, ScoredHand)| (w.0@, w.1))
}

/// Whether a player has folded in this game.
pub open spec fn has_folded(p: PlayerModel) -> bool {
    p.choices.fold
}

/// The number of players who have not folded.
pub open spec fn remaining(ps: Seq<PlayerModel>) -> nat
    decreases ps.len(),
{
    if ps.len() == 0 {
        0
    } else {
        remaining(ps.drop_last()) + if has_folded(ps.last()) { 0nat } else { 1nat }
    }
}

/// When some player is left, some seat holds a player who has not folded.
pub(crate) proof fn lemma_remaining_has_seat(ps: Seq<PlayerModel>)
    requires
        remaining(ps) > 0,
    ensures
        exists|k: int| 0 <= k < ps.len() && !#[trigger] has_folded(ps[k]),
    decreases ps.len(),
{
    if has_folded(ps.last()) {
        lemma_remaining_has_seat(ps.drop_last());
        let k = choose|k: int| 0 <= k < ps.drop_last().len() && !#[trigger] has_folded(ps.drop_last()[k]);
        assert(ps[k] == ps.drop_last()[k]);
    } else {
        assert(!has_folded(ps[ps.len() - 1]));
    }
}

/// The player with a new token.
pub open spec fn with_token(p: PlayerModel, token: Seq<char>) -> PlayerModel {
    PlayerModel { token, ..p }
}

/// The player with a new last move.
pub open spec fn with_last_move(p: PlayerModel, last_move: Seq<char>) -> PlayerModel {
    PlayerModel { last_move, ..p }
}

/// The seat `k` places to the left of the dealer.
pub open spec fn seat_after(dealer: u32, k: int, n: int) -> int {
    (dealer + k) % n
}

/// The players after the small blind (half the minimum bet) and the big blind (the
/// minimum bet) are bet by the two players to the left of the dealer, and their last
/// moves are set to "Small Blind" and "Big Blind".
pub open spec fn blinds_players(ps: Seq<PlayerModel>, dealer: u32, minimum_bet: u32) -> Seq<PlayerModel> {
    let small = seat_after(dealer, 1, ps.len() as int);
    let big = seat_after(dealer, 2, ps.len() as int);
    let p1 = ps.update(small, ps[small].after_bet(minimum_bet / 2));
    let p2 = p1.update(big, p1[big].after_bet(minimum_bet));
    let p3 = p2.update(small, with_last_move(p2[small], "Small Blind"@));
    p3.update(big, with_last_move(p3[big], "Big Blind"@))
}

/// Whether both blinds can be bet without overflow and with the balances covering
/// them.
pub open spec fn blinds_payable(ps: Seq<PlayerModel>, dealer: u32, minimum_bet: u32) -> bool {
    let small = seat_after(dealer, 1, ps.len() as int);
    let big = seat_after(dealer, 2, ps.len() as int);
    let p1 = ps.update(small, ps[small].after_bet(minimum_bet / 2));
    ps[small].can_bet(minimum_bet / 2) && p1[big].can_bet(minimum_bet)
}

/// The players after the dealer takes the token "D", then the next player the
/// token "SB" and the one after "BB", each unless that player already holds "D".
pub open spec fn blind_tokens(ps: Seq<PlayerModel>, dealer: u32) -> Seq<PlayerModel> {
    let small = seat_after(dealer, 1, ps.len() as int);
    let big = seat_after(dealer, 2, ps.len() as int);
    let p1 = ps.update(dealer as int, with_token(ps[dealer as int], "D"@));
    let p2 = if p1[small].token == "D"@ { p1 } else { p1.update(small, with_token(p1[small], "SB"@)) };
    if p2[big].token == "D"@ { p2 } else { p2.update(big, with_token(p2[big], "BB"@)) }
}

/// The seats one and two to the left of the dealer differ at a table of two or
/// more, and at a table of three or more neither is the dealer's own seat.
proof fn lemma_blind_seats_differ(dealer: int, n: int)
    requires
        0 <= dealer,
        n >= 2,
    ensures
        (dealer + 1) % n != (dealer + 2) % n,
        0 <= (dealer + 1) % n < n,
        0 <= (dealer + 2) % n < n,
        dealer < n && n >= 3 ==> (dealer + 1) % n != dealer && (dealer + 2) % n != dealer,
{
    let a = (dealer + 1) % n;
    vstd::arithmetic::div_mod::lemma_mod_pos_bound(dealer + 1, n);
    vstd::arithmetic::div_mod::lemma_mod_pos_bound(dealer + 2, n);
    vstd::arithmetic::div_mod::lemma_add_mod_noop(dealer + 1, 1, n);
    vstd::arithmetic::div_mod::lemma_small_mod(1, n as nat);
    vstd::arithmetic::div_mod::lemma_small_mod(0, n as nat);
    if a + 1 < n {
        vstd::arithmetic::div_mod::lemma_small_mod((a + 1) as nat, n as nat);
    } else {
        vstd::arithmetic::div_mod::lemma_mod_add_multiples_vanish(0, n);
    }
    if dealer < n {
        if dealer + 1 < n {
            vstd::arithmetic::div_mod::lemma_small_mod((dealer + 1) as nat, n as nat);
        } else {
            vstd::arithmetic::div_mod::lemma_mod_add_multiples_vanish(dealer + 1 - n, n);
            vstd::arithmetic::div_mod::lemma_small_mod((dealer + 1 - n) as nat, n as nat);
        }
        if dealer + 2 < n {
            vstd::arithmetic::div_mod::lemma_small_mod((dealer + 2) as nat, n as nat);
        } else {
            vstd::arithmetic::div_mod::lemma_mod_add_multiples_vanish(dealer + 2 - n, n);
            vstd::arithmetic::div_mod::lemma_small_mod((dealer + 2 - n) as nat, n as nat);
        }
    }
}

/// The small blind, half the minimum bet, is bet by the player one seat to the left
/// of the dealer, seat `(dealer + 1) mod n`, whose last move becomes "Small Blind";
/// the big blind, the minimum bet, by the player two seats to the left, seat
/// `(dealer + 2) mod n`, whose last move becomes "Big Blind"; every other player is
/// left as they were. This holds at every table of two or more players.
pub proof fn lemma_blinds_bet_left_of_dealer(ps: Seq<PlayerModel>, dealer: u32, minimum_bet: u32)
    requires
        ps.len() >= 2,
    ensures
        blinds_players(ps, dealer, minimum_bet).len() == ps.len(),
        blinds_players(ps, dealer, minimum_bet)[(dealer + 1) % (ps.len() as int)]
            == with_last_move(ps[(dealer + 1) % (ps.len() as int)].after_bet(minimum_bet / 2), "Small Blind"@),
        blinds_players(ps, dealer, minimum_bet)[(dealer + 2) % (ps.len() as int)]
            == with_last_move(ps[(dealer + 2) % (ps.len() as int)].after_bet(minimum_bet), "Big Blind"@),
        forall|k: int| 0 <= k < ps.len() && k != (dealer + 1) % (ps.len() as int) && k != (dealer + 2) % (ps.len() as int)
            ==> #[trigger] blinds_players(ps, dealer, minimum_bet)[k] == ps[k],
{
    lemma_blind_seats_differ(dealer as int, ps.len() as int);
}

/// The seats that take the tokens "SB" and "BB" are the seats that bet the small and
/// the big blind: at a table of three or more where nobody yet holds "D", the dealer
/// takes "D", seat `(dealer + 1) mod n` takes "SB" and seat `(dealer + 2) mod n`
/// takes "BB".
pub proof fn lemma_blind_tokens_left_of_dealer(ps: Seq<PlayerModel>, dealer: u32)
    requires
        ps.len() >= 3,
        dealer < ps.len(),
        forall|k: int| 0 <= k < ps.len() ==> #[trigger] ps[k].token != "D"@,
    ensures
        blind_tokens(ps, dealer).len() == ps.len(),
        blind_tokens(ps, dealer)[dealer as int].token == "D"@,
        blind_tokens(ps, dealer)[(dealer + 1) % (ps.len() as int)].token == "SB"@,
        blind_tokens(ps, dealer)[(dealer + 2) % (ps.len() as int)].token == "BB"@,
{
    lemma_blind_seats_differ(dealer as int, ps.len() as int);
    let small = (dealer + 1) % (ps.len() as int);
    let big = (dealer + 2) % (ps.len() as int);
    assert(ps[small].token != "D"@);
    assert(ps[big].token != "D"@);
}

/// The players after each bets the ante `amount`, in seat order.
pub open spec fn all_bet(ps: Seq<PlayerModel>, amount: u32) -> Seq<PlayerModel> {
    ps.map_values(|p: PlayerModel| p.after_bet(amount))
}

/// One player's turn in a deal: a player who has not folded, whose hand has room
/// and while the deck has a card, takes the top card turned as `up` says; otherwise
/// nothing changes.
pub open spec fn deal_one(p: PlayerModel, deck: Seq<Card>, up: bool) -> (PlayerModel, Seq<Card>) {
    if has_folded(p) || p.hand.len() % 256 + 1 > p.hand_limit || deck.len() % 256 < 1 {
        (p, deck)
    } else {
        (PlayerModel { hand: p.hand + dealt(deck, 1, up), ..p }, deck.take(deck.len() - 1))
    }
}

/// One pass of a deal round the table, from seat `i` to the last seat.
pub open spec fn deal_pass(ps: Seq<PlayerModel>, deck: Seq<Card>, up: bool, i: int) -> (Seq<PlayerModel>, Seq<Card>)
    decreases ps.len() - i,
{
    if i < 0 || i >= ps.len() {
        (ps, deck)
    } else {
        let (p, d) = deal_one(ps[i], deck, up);
        deal_pass(ps.update(i, p), d, up, i + 1)
    }
}

/// `k` passes of a deal round the table, each starting at the first seat.
pub open spec fn deal_rounds(ps: Seq<PlayerModel>, deck: Seq<Card>, up: bool, k: int) -> (Seq<PlayerModel>, Seq<Card>)
    decreases k,
{
    if k <= 0 {
        (ps, deck)
    } else {
        let (ps1, d1) = deal_pass(ps, deck, up, 0);
        deal_rounds(ps1, d1, up, k - 1)
    }
}

/// `k` single face-up draws into the community cards; each draw takes the top card
/// while the hand has room and the deck has a card.
pub open spec fn community_draws(cards: Seq<Card>, limit: u8, deck: Seq<Card>, k: int) -> (Seq<Card>, Seq<Card>)
    decreases k,
{
    if k <= 0 {
        (cards, deck)
    } else if cards.len() % 256 + 1 > limit || deck.len() % 256 < 1 {
        community_draws(cards, limit, deck, k - 1)
    } else {
        community_draws(cards + dealt(deck, 1, true), limit, deck.take(deck.len() - 1), k - 1)
    }
}

/// Drawing `k` community cards, with room for them and as many cards in the deck,
/// turns up the top `k` cards of the deck in order after the cards already there,
/// and leaves the rest of the deck.
pub proof fn lemma_community_draws_top_cards(cards: Seq<Card>, limit: u8, deck: Seq<Card>, k: int)
    requires
        0 <= k <= deck.len() < 256,
        cards.len() + k <= limit,
    ensures
        community_draws(cards, limit, deck, k).0 == cards + dealt(deck, k, true),
        community_draws(cards, limit, deck, k).1 == deck.take(deck.len() - k),
    decreases k,
{
    if k <= 0 {
        assert(dealt(deck, 0, true) =~= Seq::<Card>::empty());
        assert(cards + dealt(deck, 0, true) =~= cards);
        assert(deck.take(deck.len() - 0) =~= deck);
    } else {
        assert(cards.len() % 256 == cards.len());
        assert(deck.len() % 256 == deck.len());
        let c1 = cards + dealt(deck, 1, true);
        let d1 = deck.take(deck.len() - 1);
        lemma_community_draws_top_cards(c1, limit, d1, k - 1);
        assert(c1 + dealt(d1, k - 1, true) =~= cards + dealt(deck, k, true));
        assert(d1.take(d1.len() - (k - 1)) =~= deck.take(deck.len() - k));
    }
}

/// The player with every card of the hand turned face up, unless the player has
/// folded.
pub open spec fn revealed(p: PlayerModel) -> PlayerModel {
    if has_folded(p) {
        p
    } else {
        PlayerModel { hand: p.hand.map_values(|c: Card| Card { face_up: true, ..c }), ..p }
    }
}

/// Whether a player still has to act in a betting round: the player has not
/// folded and either has not matched the highest bet or has put nothing in and not
/// checked.
pub open spec fn must_act(p: PlayerModel, highest_bet: u32) -> bool {
    !has_folded(p) && (p.placed() != highest_bet || (p.placed() == 0 && !p.choices.check))
}

/// Whether a betting round is over: at most one player is left, or no player still
/// has to act.
pub open spec fn round_done(m: GameModel) -> bool {
    remaining(m.players) <= 1 || forall|k: int| 0 <= k < m.players.len() ==> !#[trigger] must_act(m.players[k], m.highest_bet)
}

/// While two or more players are left, the betting round is not over as long as a
/// player who has not folded has put in less than the highest bet: that player
/// still has to call, raise or fold.
pub proof fn lemma_round_open_while_bet_unmatched(m: GameModel, k: int)
    requires
        0 <= k < m.players.len(),
        remaining(m.players) >= 2,
        !m.players[k].choices.fold,
        m.players[k].choices.placed_amount() < m.highest_bet,
    ensures
        !round_done(m),
{
    assert(must_act(m.players[k], m.highest_bet));
}

/// While two or more players are left, the betting round is not over as long as a
/// player who has not folded has put nothing in and has not checked.
pub proof fn lemma_round_open_while_not_acted(m: GameModel, k: int)
    requires
        0 <= k < m.players.len(),
        remaining(m.players) >= 2,
        !m.players[k].choices.fold,
        m.players[k].choices.placed_amount() == 0,
        !m.players[k].choices.check,
    ensures
        !round_done(m),
{
    assert(must_act(m.players[k], m.highest_bet));
}

/// The betting round is over once every player who has not folded has put in
/// exactly the highest bet, and, when that bet is 0, has checked.
pub proof fn lemma_round_over_when_all_matched(m: GameModel)
    requires
        forall|k: int| 0 <= k < m.players.len() && !m.players[k].choices.fold ==> {
            &&& #[trigger] m.players[k].choices.placed_amount() == m.highest_bet
            &&& (m.highest_bet > 0 || m.players[k].choices.check)
        },
    ensures
        round_done(m),
{
    assert forall|k: int| 0 <= k < m.players.len() implies !#[trigger] must_act(m.players[k], m.highest_bet) by {
        if !m.players[k].choices.fold {
            assert(m.players[k].choices.placed_amount() == m.highest_bet);
        }
    }
}

/// The first seat from `i` on whose player has the given name.
pub open spec fn first_named_from(ps: Seq<PlayerModel>, name: Seq<char>, i: int) -> Option<int>
    decreases ps.len() - i,
{
    if i < 0 || i >= ps.len() {
        None
    } else if ps[i].player_name == name {
        Some(i)
    } else {
        first_named_from(ps, name, i + 1)
    }
}

/// The first seat after seat `c`, going round the table from offset `i` up to one
/// short of a full turn, whose player has not folded.
pub open spec fn next_active_from(ps: Seq<PlayerModel>, c: int, i: int) -> Option<int>
    decreases ps.len() - i,
{
    if i < 1 || i >= ps.len() {
        None
    } else if !has_folded(ps[(c + i) % (ps.len() as int)]) {
        Some((c + i) % (ps.len() as int))
    } else {
        next_active_from(ps, c, i + 1)
    }
}

/// The table after the turn moves on: from the current player's seat, found by
/// name, to the next player round the table who has not folded (nothing changes
/// when every other player has folded); to the first seat when no seated player
/// has the current player's name; nothing changes at an empty table.
pub open spec fn moved_on(m: GameModel) -> GameModel {
    if m.players.len() == 0 {
        m
    } else {
        match first_named_from(m.players, m.current_player.player_name, 0) {
            None => GameModel { current_player: m.players[0], ..m },
            Some(c) => match next_active_from(m.players, c, 1) {
                None => m,
                Some(k) => GameModel { current_player: m.players[k], ..m },
            },
        }
    }
}

/// The seat of the current player, found by name.
pub open spec fn current_seat(m: GameModel) -> Option<int> {
    first_named_from(m.players, m.current_player.player_name, 0)
}

/// What the search for the next active seat finds from offset `i`: a seat at some
/// offset `d` from `i` on whose player has not folded, every player at the offsets
/// from `i` up to `d` having folded; or nothing, when every player from offset `i`
/// to a full turn has folded.
proof fn lemma_next_active_from(ps: Seq<PlayerModel>, c: int, i: int)
    requires
        1 <= i,
        ps.len() > 0,
    ensures
        match next_active_from(ps, c, i) {
            Some(k) => exists|d: int| i <= d < ps.len() && k == (c + d) % (ps.len() as int)
                && !#[trigger] has_folded(ps[(c + d) % (ps.len() as int)])
                && forall|e: int| i <= e < d ==> #[trigger] has_folded(ps[(c + e) % (ps.len() as int)]),
            None => forall|e: int| i <= e < ps.len() ==> #[trigger] has_folded(ps[(c + e) % (ps.len() as int)]),
        },
    decreases ps.len() - i,
{
    if i < ps.len() {
        lemma_next_active_from(ps, c, i + 1);
        if has_folded(ps[(c + i) % (ps.len() as int)]) {
            match next_active_from(ps, c, i + 1) {
                Some(k) => {
                    let d = choose|d: int| i + 1 <= d < ps.len() && k == (c + d) % (ps.len() as int)
                        && !#[trigger] has_folded(ps[(c + d) % (ps.len() as int)])
                        && forall|e: int| i + 1 <= e < d ==> #[trigger] has_folded(ps[(c + e) % (ps.len() as int)]);
                    assert(forall|e: int| i <= e < d ==> #[trigger] has_folded(ps[(c + e) % (ps.len() as int)]));
                    assert(!has_folded(ps[(c + d) % (ps.len() as int)]));
                },
                None => {},
            }
        } else {
            assert(forall|e: int| i <= e < i ==> #[trigger] has_folded(ps[(c + e) % (ps.len() as int)]));
            assert(!has_folded(ps[(c + i) % (ps.len() as int)]));
        }
    }
}

/// The turn passes to the next player round the table who has not folded: from the
/// current player's seat `c`, the new current player sits `d` seats on, at seat
/// `(c + d) mod n` for some `0 < d < n`, has not folded, and every player between
/// has folded; when every other player has folded, nothing changes. Nothing but the
/// current player changes.
pub proof fn lemma_turn_passes_to_next_unfolded(m: GameModel, c: int)
    requires
        m.players.len() > 0,
        current_seat(m) == Some(c),
    ensures
        moved_on(m) == (GameModel { current_player: moved_on(m).current_player, ..m }),
        (exists|d: int| 0 < d < m.players.len()
            && moved_on(m).current_player == m.players[(c + d) % (m.players.len() as int)]
            && !#[trigger] has_folded(m.players[(c + d) % (m.players.len() as int)])
            && forall|e: int| 0 < e < d ==> #[trigger] has_folded(m.players[(c + e) % (m.players.len() as int)]))
        || (moved_on(m) == m
            && forall|e: int| 0 < e < m.players.len() ==> #[trigger] has_folded(m.players[(c + e) % (m.players.len() as int)])),
{
    lemma_next_active_from(m.players, c, 1);
}

/// The table after the current player folds, the last move recorded as "Fold";
/// unchanged when no seated player has the current player's name.
pub open spec fn fold_current(m: GameModel) -> GameModel {
    match current_seat(m) {
        Some(k) => GameModel {
            players: m.players.update(k, with_last_move(m.players[k].after_fold(), "Fold"@)),
            ..m
        },
        None => m,
    }
}

/// The table after the current player checks, the last move recorded as "Check".
pub open spec fn check_current(m: GameModel) -> GameModel {
    match current_seat(m) {
        Some(k) => GameModel {
            players: m.players.update(k, with_last_move(m.players[k].after_check(), "Check"@)),
            ..m
        },
        None => m,
    }
}

/// What the current player must add to match the highest bet.
pub open spec fn call_due(m: GameModel, k: int) -> int {
    m.highest_bet - m.players[k].placed()
}

/// Whether the current player can call: the amount due is not negative, the pot
/// can take it, and a player who has not folded can pay it.
pub open spec fn can_call_current(m: GameModel) -> bool {
    match current_seat(m) {
        Some(k) => {
            &&& call_due(m, k) >= 0
            &&& m.pot + call_due(m, k) <= u32::MAX
            &&& !has_folded(m.players[k]) ==> m.players[k].can_bet(call_due(m, k) as u32)
        },
        None => true,
    }
}

/// The table after the current player calls: the amount due goes into the pot and
/// the player's call is recorded, the last move as "Call".
pub open spec fn call_current(m: GameModel) -> GameModel {
    match current_seat(m) {
        Some(k) => GameModel {
            pot: (m.pot + call_due(m, k)) as u32,
            players: m.players.update(
                k,
                with_last_move(m.players[k].after_call(call_due(m, k) as u32), "Call"@),
            ),
            ..m
        },
        None => m,
    }
}

/// Whether the current player can raise the bet to `value`: it is at least what
/// the player has put in this round, and the pot and the player can take the rest.
pub open spec fn can_raise_current(m: GameModel, value: u32) -> bool {
    match current_seat(m) {
        Some(k) => {
            &&& value >= m.players[k].placed()
            &&& m.pot + (value - m.players[k].placed()) <= u32::MAX
            &&& m.players[k].can_bet((value - m.players[k].placed()) as u32)
        },
        None => true,
    }
}

/// The table after the current player raises the bet to `value`: the difference
/// from what the player has put in goes into the pot, `value` becomes the highest
/// bet, and the last move is recorded as "Raise".
pub open spec fn raise_current(m: GameModel, value: u32) -> GameModel {
    match current_seat(m) {
        Some(k) => GameModel {
            pot: (m.pot + (value - m.players[k].placed())) as u32,
            highest_bet: value,
            players: m.players.update(
                k,
                with_last_move(m.players[k].after_bet((value - m.players[k].placed()) as u32), "Raise"@),
            ),
            ..m
        },
        None => m,
    }
}

/// The table with a line added to the history of actions.
pub open spec fn with_history(m: GameModel, line: Seq<char>) -> GameModel {
    GameModel { action_history: m.action_history.push(line), ..m }
}

/// The table after a betting message: "Fold", "Check", "Raise" (to `amount`) or
/// "Call" acts for the current player; any other action folds. Each adds a line to
/// the history naming the current player.
pub open spec fn betting_step(m: GameModel, action: Seq<char>, amount: u32) -> GameModel {
    let name = m.current_player.player_name;
    if action == "Check"@ {
        with_history(check_current(m), name + " checked"@)
    } else if action == "Raise"@ {
        let m1 = raise_current(m, amount);
        with_history(m1, name + " raised to "@ + decimal(m1.highest_bet as nat))
    } else if action == "Call"@ {
        with_history(call_current(m), name + " called"@)
    } else {
        with_history(fold_current(m), name + " folded"@)
    }
}

/// A betting message other than "Check", "Raise" or "Call" folds the current
/// player, whose last move becomes "Fold", and touches no chips: the pot, the
/// highest bet, the player's balance and what the player has put in stay as they
/// were, and every other player is unchanged.
pub proof fn lemma_other_action_folds(m: GameModel, action: Seq<char>, amount: u32)
    requires
        action != "Check"@,
        action != "Raise"@,
        action != "Call"@,
        current_seat(m) is Some,
    ensures
        ({
            let k = current_seat(m)->0;
            let after = betting_step(m, action, amount);
            &&& after.players.len() == m.players.len()
            &&& after.players[k].choices.fold
            &&& after.players[k].last_move == "Fold"@
            &&& after.players[k].player_money == m.players[k].player_money
            &&& after.players[k].placed() == m.players[k].placed()
            &&& after.pot == m.pot
            &&& after.highest_bet == m.highest_bet
            &&& forall|j: int| 0 <= j < m.players.len() && j != k ==> #[trigger] after.players[j] == m.players[j]
        }),
{
    lemma_first_named_in_range(m.players, m.current_player.player_name, 0);
}

/// Checking touches no chips: the current player, unless folded, is marked as
/// having checked with the last move "Check", keeping the balance and what the
/// player has put in; the pot, the highest bet and every other player are unchanged.
pub proof fn lemma_check_moves_no_chips(m: GameModel, amount: u32)
    requires
        current_seat(m) is Some,
        !has_folded(m.players[current_seat(m)->0]),
    ensures
        ({
            let k = current_seat(m)->0;
            let after = betting_step(m, "Check"@, amount);
            &&& after.players.len() == m.players.len()
            &&& after.players[k].choices.check
            &&& !after.players[k].choices.fold
            &&& after.players[k].last_move == "Check"@
            &&& after.players[k].player_money == m.players[k].player_money
            &&& after.players[k].placed() == m.players[k].placed()
            &&& after.pot == m.pot
            &&& after.highest_bet == m.highest_bet
            &&& forall|j: int| 0 <= j < m.players.len() && j != k ==> #[trigger] after.players[j] == m.players[j]
        }),
{
    lemma_first_named_in_range(m.players, m.current_player.player_name, 0);
}

/// Calling moves chips from the caller to the pot and nothing else: the pot grows
/// by exactly what the caller's balance shrinks, the caller has then put in exactly
/// the highest bet, and every other player is unchanged.
pub proof fn lemma_call_moves_chips(m: GameModel)
    requires
        can_call_current(m),
        current_seat(m) is Some,
        !has_folded(m.players[current_seat(m)->0]),
    ensures
        ({
            let k = current_seat(m)->0;
            let after = call_current(m);
            &&& after.pot - m.pot == m.players[k].player_money - after.players[k].player_money
            &&& after.players[k].placed() == m.highest_bet
            &&& after.highest_bet == m.highest_bet
            &&& forall|j: int| 0 <= j < m.players.len() && j != k ==> #[trigger] after.players[j] == m.players[j]
        }),
{
    lemma_first_named_in_range(m.players, m.current_player.player_name, 0);
}

/// Raising moves chips from a raiser who has not folded to the pot and nothing else:
/// the pot grows by exactly what the raiser's balance shrinks, the raiser has then put in exactly
/// the new highest bet, and every other player is unchanged.
pub proof fn lemma_raise_moves_chips(m: GameModel, value: u32)
    requires
        can_raise_current(m, value),
        current_seat(m) is Some,
        !has_folded(m.players[current_seat(m)->0]),
    ensures
        ({
            let k = current_seat(m)->0;
            let after = raise_current(m, value);
            &&& after.pot - m.pot == m.players[k].player_money - after.players[k].player_money
            &&& after.players[k].placed() == value
            &&& after.highest_bet == value
            &&& forall|j: int| 0 <= j < m.players.len() && j != k ==> #[trigger] after.players[j] == m.players[j]
        }),
{
    lemma_first_named_in_range(m.players, m.current_player.player_name, 0);
}

/// A seat found by name lies on the table.
proof fn lemma_first_named_in_range(ps: Seq<PlayerModel>, name: Seq<char>, i: int)
    ensures
        first_named_from(ps, name, i) matches Some(k) ==> 0 <= k < ps.len(),
    decreases ps.len() - i,
{
    if 0 <= i < ps.len() {
        lemma_first_named_in_range(ps, name, i + 1);
    }
}

/// The value and suit of each card, counted.
pub open spec fn card_ids(s: Seq<Card>) -> Multiset<(Value, Suit)> {
    s.map_values(|c: Card| (c.value, c.suit)).to_multiset()
}

/// The value and suit of every card in the players' hands, counted.
pub open spec fn hands_ids(ps: Seq<PlayerModel>) -> Multiset<(Value, Suit)>
    decreases ps.len(),
{
    if ps.len() == 0 {
        Multiset::empty()
    } else {
        hands_ids(ps.drop_last()).add(card_ids(ps.last().hand))
    }
}

/// Counting the cards of two lists one after the other adds their counts.
proof fn lemma_card_ids_concat(a: Seq<Card>, b: Seq<Card>)
    ensures
        card_ids(a + b) == card_ids(a).add(card_ids(b)),
{
    let f = |c: Card| (c.value, c.suit);
    assert((a + b).map_values(f) =~= a.map_values(f) + b.map_values(f));
    vstd::seq_lib::lemma_multiset_commutative(a.map_values(f), b.map_values(f));
}

/// Replacing a player whose hand gains the cards `extra` adds `extra` to the
/// count of the hands.
proof fn lemma_hands_ids_update(ps: Seq<PlayerModel>, i: int, p: PlayerModel, extra: Multiset<(Value, Suit)>)
    requires
        0 <= i < ps.len(),
        card_ids(p.hand) == card_ids(ps[i].hand).add(extra),
    ensures
        hands_ids(ps.update(i, p)) == hands_ids(ps).add(extra),
    decreases ps.len(),
{
    broadcast use vstd::multiset::group_multiset_axioms;

    let q = ps.update(i, p);
    if i == ps.len() - 1 {
        assert(q.drop_last() =~= ps.drop_last());
        assert(hands_ids(q) =~= hands_ids(ps).add(extra));
    } else {
        lemma_hands_ids_update(ps.drop_last(), i, p, extra);
        assert(q.drop_last() =~= ps.drop_last().update(i, p));
        assert(hands_ids(q) =~= hands_ids(ps).add(extra));
    }
}

/// One player's turn in a deal moves a card from the deck to the hand, or nothing.
proof fn lemma_deal_one_moves_cards(p: PlayerModel, deck: Seq<Card>, up: bool)
    ensures
        ({
            let (q, d) = deal_one(p, deck, up);
            &&& q == PlayerModel { hand: q.hand, ..p }
            &&& exists|extra: Multiset<(Value, Suit)>| card_ids(q.hand) == card_ids(p.hand).add(extra)
                && #[trigger] card_ids(d).add(extra) == card_ids(deck)
        }),
{
    broadcast use vstd::seq_lib::group_to_multiset_ensures;
    broadcast use vstd::multiset::group_multiset_axioms;

    let (q, d) = deal_one(p, deck, up);
    let f = |c: Card| (c.value, c.suit);
    if q == p {
        assert(card_ids(p.hand) =~= card_ids(p.hand).add(Multiset::empty()));
        assert(card_ids(d).add(Multiset::empty()) =~= card_ids(deck));
    } else {
        let top = deck.last();
        let extra = Multiset::singleton((top.value, top.suit));
        lemma_card_ids_concat(p.hand, dealt(deck, 1, up));
        assert(dealt(deck, 1, up).map_values(f) =~= seq![(top.value, top.suit)]);
        assert(seq![(top.value, top.suit)] =~= Seq::<(Value, Suit)>::empty().push((top.value, top.suit)));
        assert(Seq::<(Value, Suit)>::empty().to_multiset() =~= Multiset::empty());
        assert(card_ids(dealt(deck, 1, up)) =~= extra);
        assert(deck =~= d.push(top));
        assert(deck.map_values(f) =~= d.map_values(f).push((top.value, top.suit)));
        assert(card_ids(deck) =~= card_ids(d).insert((top.value, top.suit)));
        assert(card_ids(d).add(extra) =~= card_ids(deck));
    }
}

/// A pass of a deal from seat `i` moves cards from the deck to the hands: no card
/// is lost or made.
proof fn lemma_deal_pass_moves_cards(ps: Seq<PlayerModel>, deck: Seq<Card>, up: bool, i: int)
    requires
        0 <= i,
    ensures
        hands_ids(deal_pass(ps, deck, up, i).0).add(card_ids(deal_pass(ps, deck, up, i).1))
            == hands_ids(ps).add(card_ids(deck)),
    decreases ps.len() - i,
{
    broadcast use vstd::multiset::group_multiset_axioms;

    if i < ps.len() {
        let (p, d) = deal_one(ps[i], deck, up);
        lemma_deal_one_moves_cards(ps[i], deck, up);
        let extra = choose|extra: Multiset<(Value, Suit)>| card_ids(p.hand) == card_ids(ps[i].hand).add(extra)
            && #[trigger] card_ids(d).add(extra) == card_ids(deck);
        lemma_hands_ids_update(ps, i, p, extra);
        lemma_deal_pass_moves_cards(ps.update(i, p), d, up, i + 1);
        assert(hands_ids(ps.update(i, p)).add(card_ids(d)) =~= hands_ids(ps).add(card_ids(deck)));
    }
}

/// A pass of a deal from seat `i`, with enough cards in the deck and room in every
/// hand still in, gives each player from seat `i` on who has not folded exactly
/// one card, turned as `up` says, gives nothing to any other player, and changes
/// nothing else about the players; the deck loses one card for each card given.
proof fn lemma_deal_pass_one_each(ps: Seq<PlayerModel>, deck: Seq<Card>, up: bool, i: int)
    requires
        0 <= i <= ps.len(),
        ps.len() - i <= deck.len() < 256,
        forall|j: int| i <= j < ps.len() && !has_folded(ps[j]) ==> #[trigger] ps[j].hand.len() + 1 <= ps[j].hand_limit,
    ensures
        deal_pass(ps, deck, up, i).0.len() == ps.len(),
        deck.len() - deal_pass(ps, deck, up, i).1.len() <= ps.len() - i,
        deal_pass(ps, deck, up, i).1.len() <= deck.len(),
        forall|j: int| 0 <= j < ps.len() ==> #[trigger] deal_pass(ps, deck, up, i).0[j] == (PlayerModel {
            hand: if j >= i && !has_folded(ps[j]) {
                ps[j].hand.push(Card {
                    value: deal_pass(ps, deck, up, i).0[j].hand.last().value,
                    suit: deal_pass(ps, deck, up, i).0[j].hand.last().suit,
                    face_up: up,
                })
            } else {
                ps[j].hand
            },
            ..ps[j]
        }),
    decreases ps.len() - i,
{
    if i < ps.len() {
        let (p, d) = deal_one(ps[i], deck, up);
        let ps1 = ps.update(i, p);
        if !has_folded(ps[i]) {
            assert(ps[i].hand.len() % 256 == ps[i].hand.len());
            assert(deck.len() % 256 == deck.len());
        }
        assert forall|j: int| i + 1 <= j < ps1.len() && !has_folded(ps1[j]) implies #[trigger] ps1[j].hand.len() + 1 <= ps1[j].hand_limit by {
            assert(ps1[j] == ps[j]);
        }
        lemma_deal_pass_one_each(ps1, d, up, i + 1);
        let r = deal_pass(ps, deck, up, i).0;
        assert(r == deal_pass(ps1, d, up, i + 1).0);
        assert forall|j: int| 0 <= j < ps.len() implies #[trigger] r[j] == (PlayerModel {
            hand: if j >= i && !has_folded(ps[j]) {
                ps[j].hand.push(Card { value: r[j].hand.last().value, suit: r[j].hand.last().suit, face_up: up })
            } else {
                ps[j].hand
            },
            ..ps[j]
        }) by {
            if j == i {
                assert(r[j] == ps1[j]);
                if !has_folded(ps[i]) {
                    assert(ps1[j].hand =~= ps[j].hand.push(Card {
                        value: ps1[j].hand.last().value,
                        suit: ps1[j].hand.last().suit,
                        face_up: up,
                    }));
                }
            } else {
                assert(ps1[j] == ps[j]);
            }
        }
    }
}

/// Dealing `k` rounds, with enough cards in the deck and room in every hand still
/// in, gives each player who has not folded exactly `k` more cards, each turned as
/// `up` says, after the cards the player held; a player who has folded gets none;
/// nothing else about any player changes.
pub proof fn lemma_deal_gives_each_k(ps: Seq<PlayerModel>, deck: Seq<Card>, up: bool, k: int)
    requires
        0 <= k,
        k * ps.len() <= deck.len() < 256,
        forall|j: int| 0 <= j < ps.len() && !has_folded(ps[j]) ==> #[trigger] ps[j].hand.len() + k <= ps[j].hand_limit,
    ensures
        deal_rounds(ps, deck, up, k).0.len() == ps.len(),
        forall|j: int| 0 <= j < ps.len() ==> #[trigger] deal_rounds(ps, deck, up, k).0[j]
            == (PlayerModel { hand: deal_rounds(ps, deck, up, k).0[j].hand, ..ps[j] }),
        forall|j: int| 0 <= j < ps.len() ==> #[trigger] deal_rounds(ps, deck, up, k).0[j].hand.len()
            == ps[j].hand.len() + if has_folded(ps[j]) { 0 } else { k },
        forall|j: int| 0 <= j < ps.len() ==> #[trigger] deal_rounds(ps, deck, up, k).0[j].hand.take(ps[j].hand.len() as int)
            == ps[j].hand,
        forall|j: int, t: int| 0 <= j < ps.len() && ps[j].hand.len() <= t < deal_rounds(ps, deck, up, k).0[j].hand.len()
            ==> (#[trigger] deal_rounds(ps, deck, up, k).0[j].hand[t]).face_up == up,
    decreases k,
{
    if k > 0 {
        let (ps1, d1) = deal_pass(ps, deck, up, 0);
        assert(ps.len() <= k * ps.len()) by (nonlinear_arith)
            requires
                k >= 1,
        {
        }
        lemma_deal_pass_one_each(ps, deck, up, 0);
        assert((k - 1) * ps.len() == k * ps.len() - ps.len()) by (nonlinear_arith);
        assert forall|j: int| 0 <= j < ps1.len() && !has_folded(ps1[j]) implies #[trigger] ps1[j].hand.len() + (k - 1) <= ps1[j].hand_limit by {
            assert(ps1[j] == (PlayerModel { hand: ps1[j].hand, ..ps[j] }));
        }
        lemma_deal_gives_each_k(ps1, d1, up, k - 1);
        let r = deal_rounds(ps, deck, up, k).0;
        assert(r == deal_rounds(ps1, d1, up, k - 1).0);
        assert forall|j: int| 0 <= j < ps.len() implies #[trigger] r[j] == (PlayerModel { hand: r[j].hand, ..ps[j] })
            && r[j].hand.len() == ps[j].hand.len() + (if has_folded(ps[j]) { 0 } else { k })
            && r[j].hand.take(ps[j].hand.len() as int) == ps[j].hand by {
            assert(ps1[j] == (PlayerModel { hand: ps1[j].hand, ..ps[j] }));
            assert(r[j].hand.take(ps1[j].hand.len() as int) == ps1[j].hand);
            if !has_folded(ps[j]) {
                assert(ps1[j].hand.take(ps[j].hand.len() as int) =~= ps[j].hand);
                assert(r[j].hand.take(ps[j].hand.len() as int) =~= ps1[j].hand.take(ps[j].hand.len() as int));
            } else {
                assert(ps1[j].hand == ps[j].hand);
            }
        }
        assert forall|j: int, t: int| 0 <= j < ps.len() && ps[j].hand.len() <= t < r[j].hand.len()
            implies (#[trigger] r[j].hand[t]).face_up == up by {
            assert(ps1[j] == (PlayerModel { hand: ps1[j].hand, ..ps[j] }));
            if t >= ps1[j].hand.len() {
            } else {
                assert(r[j].hand.take(ps1[j].hand.len() as int) == ps1[j].hand);
                assert(r[j].hand[t] == ps1[j].hand[t]);
                assert(!has_folded(ps[j]));
                assert(t == ps[j].hand.len());
            }
        }
    }
}

/// Dealing moves cards from the deck to the players' hands and nothing else: after
/// any number of rounds, the hands and the deck together hold the same cards, by
/// value and suit, as before.
pub proof fn lemma_dealing_keeps_cards(ps: Seq<PlayerModel>, deck: Seq<Card>, up: bool, k: int)
    ensures
        hands_ids(deal_rounds(ps, deck, up, k).0).add(card_ids(deal_rounds(ps, deck, up, k).1))
            == hands_ids(ps).add(card_ids(deck)),
    decreases k,
{
    if k > 0 {
        let (ps1, d1) = deal_pass(ps, deck, up, 0);
        lemma_deal_pass_moves_cards(ps, deck, up, 0);
        lemma_dealing_keeps_cards(ps1, d1, up, k - 1);
    }
}

/// Everything a table holds, as plain values.
pub struct GameModel {
    pub game_variant: Seq<char>,
    pub deck: Seq<Card>,
    pub game_id: u32,
    pub hand_size: u8,
    pub max_players: i64,
    pub demo_mode: Seq<char>,
    pub round_number: u32,
    pub minimum_bet: u32,
    pub highest_bet: u32,
    pub current_player: PlayerModel,
    pub player_action: Seq<char>,
    pub players: Seq<PlayerModel>,
    pub lobby: Seq<PlayerModel>,
    pub spectators: Seq<PlayerModel>,
    pub dealer_choice_spectators: Seq<PlayerModel>,
    pub winner: Seq<(PlayerModel, ScoredHand)>,
    pub community_cards: Seq<Card>,
    pub community_limit: u8,
    pub pot: u32,
    pub dealer: u32,
    pub discard_cards_prompted: bool,
    pub current_action_string: Seq<char>,
    pub action_history: Seq<Seq<char>>,
    pub raise_min_max: (u32, u32),
}

/// The state of a table: the game being played, its players and onlookers, the deck,
/// the community cards, the pot and the betting so far.
#[derive(Debug)]
pub struct GameState {
    pub game_variant: String,
    pub deck: Deck,
    pub game_id: u32,
    pub hand_size: u8,
    pub max_players: i64,
    pub demo_mode: String,
    pub round_number: u32,
    pub minimum_bet: u32,
    pub highest_bet: u32,
    pub current_player: Player,
    pub player_action: String,
    pub players: Vec<Player>,
    pub lobby: Vec<Player>,
    pub spectators: Vec<Player>,
    pub dealer_choice_spectators: Vec<Player>,
    pub winner: Vec<(Player, ScoredHand)>,
    pub community_cards: Hand,
    pub pot: u32,
    pub dealer: u32,
    pub discard_cards_prompted: bool,
    pub current_action_string: String,
    pub action_history: Vec<String>,
    pub raise_min_max: (u32, u32),
}

impl View for GameState {
    type V = GameModel;

    open spec fn view(&self) -> GameModel {
        GameModel {
            game_variant: self.game_variant@,
            deck: self.deck@,
            game_id: self.game_id,
            hand_size: self.hand_size,
            max_players: self.max_players,
            demo_mode: self.demo_mode@,
            round_number: self.round_number,
            minimum_bet: self.minimum_bet,
            highest_bet: self.highest_bet,
            current_player: self.current_player@,
            player_action: self.player_action@,
            players: models(self.players@),
            lobby: models(self.lobby@),
            spectators: models(self.spectators@),
            dealer_choice_spectators: models(self.dealer_choice_spectators@),
            winner: winner_models(self.winner@),
            community_cards: self.community_cards.cards@,
            community_limit: self.community_cards.hand_limit,
            pot: self.pot,
            dealer: self.dealer,
            discard_cards_prompted: self.discard_cards_prompted,
            current_action_string: self.current_action_string@,
            action_history: texts(self.action_history@),
            raise_min_max: self.raise_min_max,
        }
    }
}

/// Whether `m` is a table as a fresh one starts: the given id, no players or
/// onlookers, a full deck, hands of five, at most five players, a minimum bet of 5,
/// demo mode "inactive", an empty current player, five community places, and every
/// other count, flag and text empty or zero.
pub open spec fn is_fresh_table(m: GameModel, id: u32) -> bool {
    &&& m.game_variant == Seq::<char>::empty()
    &&& m.deck.len() == 52
    &&& m.deck.to_multiset() == standard_cards().to_multiset()
    &&& m.game_id == id
    &&& m.hand_size == 5
    &&& m.max_players == 5
    &&& m.demo_mode == "inactive"@
    &&& m.round_number == 0
    &&& m.minimum_bet == 5
    &&& m.highest_bet == 0
    &&& m.current_player == (PlayerModel {
        player_money: 0,
        player_name: Seq::empty(),
        choices: crate::player::no_choices(),
        ..Player::fresh(Seq::empty())
    })
    &&& m.player_action == Seq::<char>::empty()
    &&& m.players == Seq::<PlayerModel>::empty()
    &&& m.lobby == Seq::<PlayerModel>::empty()
    &&& m.spectators == Seq::<PlayerModel>::empty()
    &&& m.dealer_choice_spectators == Seq::<PlayerModel>::empty()
    &&& m.winner == Seq::<(PlayerModel, ScoredHand)>::empty()
    &&& m.community_cards == Seq::<Card>::empty()
    &&& m.community_limit == 5
    &&& m.pot == 0
    &&& m.dealer == 0
    &&& !m.discard_cards_prompted
    &&& m.current_action_string == Seq::<char>::empty()
    &&& m.action_history == Seq::<Seq<char>>::empty()
    &&& m.raise_min_max == (0u32, 0u32)
}

/// A copy of a list of players.
pub fn clone_players(ps: &Vec<Player>) -> (r: Vec<Player>)
    ensures
        models(r@) == models(ps@),
{
    let mut out: Vec<Player> = Vec::new();
    let mut i: usize = 0;
    while i < ps.len()
        invariant
            0 <= i <= ps@.len(),
            out@.len() == i,
            forall|k: int| 0 <= k < i ==> #[trigger] out@[k]@ == ps@[k]@,
        decreases ps@.len() - i,
    {
        let p = ps[i].clone();
        out.push(p);
        i = i + 1;
    }
    assert(models(out@) =~= models(ps@));
    out
}

/// A copy of a list of winners and their hands.
pub fn clone_winners(ws: &Vec<(Player, ScoredHand)>) -> (r: Vec<(Player, ScoredHand)>)
    ensures
        winner_models(r@) == winner_models(ws@),
{
    let mut out: Vec<(Player, ScoredHand)> = Vec::new();
    let mut i: usize = 0;
    while i < ws.len()
        invariant
            0 <= i <= ws@.len(),
            out@.len() == i,
            forall|k: int| 0 <= k < i ==> #[trigger] out@[k].0@ == ws@[k].0@ && out@[k].1 == ws@[k].1,
        decreases ws@.len() - i,
    {
        let p = ws[i].0.clone();
        let s = ws[i].1;
        out.push((p, s));
        i = i + 1;
    }
    assert(winner_models(out@) =~= winner_models(ws@));
    out
}

/// A copy of a list of texts.
fn clone_texts(ts: &Vec<String>) -> (r: Vec<String>)
    ensures
        texts(r@) == texts(ts@),
{
    let mut out: Vec<String> = Vec::new();
    let mut i: usize = 0;
    while i < ts.len()
        invariant
            0 <= i <= ts@.len(),
            out@.len() == i,
            forall|k: int| 0 <= k < i ==> #[trigger] out@[k]@ == ts@[k]@,
        decreases ts@.len() - i,
    {
        let t = ts[i].clone();
        out.push(t);
        i = i + 1;
    }
    assert(texts(out@) =~= texts(ts@));
    out
}

/// Deals `num_cards` rounds of one card each, turned as `up` says, to the players
/// who have not folded, in seat order; a player whose hand is full, or a draw from
/// an empty deck, is passed over.
pub fn deal_rounds_to(players: &mut Vec<Player>, deck: &mut Deck, num_cards: u32, up: bool)
    requires
        forall|k: int| 0 <= k < old(players)@.len() ==> #[trigger] old(players)@[k]@.hand.len() + num_cards <= 255,
    ensures
        (models(final(players)@), final(deck)@)
            == deal_rounds(models(old(players)@), old(deck)@, up, num_cards as int),
{
    let ghost base = models(players@);
    let ghost goal = deal_rounds(base, deck@, up, num_cards as int);
    let mut r: u32 = 0;
    while r < num_cards
        invariant
            0 <= r <= num_cards,
            players@.len() == base.len(),
            forall|k: int| 0 <= k < base.len() ==> base[k].hand.len() + num_cards <= 255,
            forall|k: int| 0 <= k < base.len() ==> #[trigger] players@[k]@.hand.len() <= base[k].hand.len() + r,
            deal_rounds(models(players@), deck@, up, num_cards - r) == goal,
        decreases num_cards - r,
    {
        let ghost round_players = models(players@);
        let ghost round_deck = deck@;
        let mut i: usize = 0;
        while i < players.len()
            invariant
                0 <= i <= players@.len(),
                r < num_cards,
                players@.len() == base.len(),
                forall|k: int| 0 <= k < base.len() ==> base[k].hand.len() + num_cards <= 255,
                forall|k: int| 0 <= k < i ==> #[trigger] players@[k]@.hand.len() <= base[k].hand.len() + r + 1,
                forall|k: int| i <= k < base.len() ==> #[trigger] players@[k]@.hand.len() <= base[k].hand.len() + r,
                deal_pass(models(players@), deck@, up, i as int) == deal_pass(round_players, round_deck, up, 0),
                deal_rounds(round_players, round_deck, up, num_cards - r) == goal,
            decreases players@.len() - i,
        {
            let ghost before = models(players@);
            let ghost before_deck = deck@;
            assert(players@[i as int]@.hand.len() <= base[i as int].hand.len() + r);
            if !players[i].player_choices.fold {
                let _ = if up {
                    players[i].player_hand.draw_face_up(deck, 1)
                } else {
                    players[i].player_hand.draw(deck, 1)
                };
            }
            proof {
                let (p, d) = deal_one(before[i as int], before_deck, up);
                assert(models(players@) =~= before.update(i as int, p));
                assert(deck@ == d);
            }
            i = i + 1;
        }
        r = r + 1;
    }
}

impl Clone for GameState {
    fn clone(&self) -> (r: Self)
        ensures
            r@ == self@,
    {
        GameState {
            game_variant: self.game_variant.clone(),
            deck: self.deck.clone(),
            game_id: self.game_id,
            hand_size: self.hand_size,
            max_players: self.max_players,
            demo_mode: self.demo_mode.clone(),
            round_number: self.round_number,
            minimum_bet: self.minimum_bet,
            highest_bet: self.highest_bet,
            current_player: self.current_player.clone(),
            player_action: self.player_action.clone(),
            players: clone_players(&self.players),
            lobby: clone_players(&self.lobby),
            spectators: clone_players(&self.spectators),
            dealer_choice_spectators: clone_players(&self.dealer_choice_spectators),
            winner: clone_winners(&self.winner),
            community_cards: self.community_cards.clone(),
            pot: self.pot,
            dealer: self.dealer,
            discard_cards_prompted: self.discard_cards_prompted,
            current_action_string: self.current_action_string.clone(),
            action_history: clone_texts(&self.action_history),
            raise_min_max: self.raise_min_max,
        }
    }
}

impl Default for GameState {
    fn default() -> (r: Self)
        ensures
            is_fresh_table(r@, 0),
    {
        GameState::new_dummy_game_state(0)
    }
}

impl GameState {
    /// A fresh table with id 0 and a newly shuffled deck.
    pub fn new() -> (r: GameState)
        ensures
            is_fresh_table(r@, 0),
    {
        GameState::new_dummy_game_state(0)
    }

    /// A fresh table with the given id and a newly shuffled deck.
    pub fn new_dummy_game_state(id: u32) -> (r: GameState)
        ensures
            is_fresh_table(r@, id),
    {
        let r = GameState {
            players: Vec::new(),
            lobby: Vec::new(),
            spectators: Vec::new(),
            dealer_choice_spectators: Vec::new(),
            deck: Deck::new(),
            game_variant: String::new(),
            game_id: id,
            hand_size: 5,
            max_players: 5,
            pot: 0,
            round_number: 0,
            minimum_bet: 5,
            highest_bet: 0,
            dealer: 0,
            winner: Vec::new(),
            current_player: Player::empty(),
            player_action: String::new(),
            community_cards: Hand::new(5),
            discard_cards_prompted: false,
            current_action_string: String::new(),
            action_history: Vec::new(),
            raise_min_max: (0, 0),
            demo_mode: String::from_str("inactive"),
        };
        assert(models(r.players@) =~= Seq::<PlayerModel>::empty());
        assert(models(r.lobby@) =~= Seq::<PlayerModel>::empty());
        assert(models(r.spectators@) =~= Seq::<PlayerModel>::empty());
        assert(models(r.dealer_choice_spectators@) =~= Seq::<PlayerModel>::empty());
        assert(winner_models(r.winner@) =~= Seq::<(PlayerModel, ScoredHand)>::empty());
        assert(texts(r.action_history@) =~= Seq::<Seq<char>>::empty());
        r
    }

    /// Starts the table afresh (a new shuffled deck and every setting back to its
    /// start) but keeps the players, the lobby, the spectators, the winners and the
    /// dealer position.
    pub fn game_state_retain_lobby_info(&mut self)
        ensures
            exists|m: GameModel| is_fresh_table(m, 0) && final(self)@ == (GameModel {
                players: old(self)@.players,
                lobby: old(self)@.lobby,
                spectators: old(self)@.spectators,
                winner: old(self)@.winner,
                dealer: old(self)@.dealer,
                ..m
            }),
    {
        let mut game_state = GameState::new();
        let ghost fresh = game_state@;
        game_state.players = clone_players(&self.players);
        game_state.lobby = clone_players(&self.lobby);
        game_state.spectators = clone_players(&self.spectators);
        game_state.winner = clone_winners(&self.winner);
        game_state.dealer = self.dealer;
        *self = game_state;
        assert(is_fresh_table(fresh, 0));
    }

    /// Seats a player at the table, or refuses with "Unable to push" when the table
    /// already seats `max_players` players.
    pub fn insert_player(&mut self, player: &Player) -> (r: Result<(), String>)
        ensures
            old(self).players@.len() >= old(self).max_players as usize ==> final(self)@ == old(self)@
                && (r matches Err(e) && e@ == "Unable to push"@),
            old(self).players@.len() < old(self).max_players as usize ==> r is Ok
                && final(self)@ == (GameModel { players: old(self)@.players.push(player@), ..old(self)@ }),
    {
        if self.players.len() >= self.max_players as usize {
            return Err(String::from_str("Unable to push"));
        }
        let ghost before = self.players@;
        self.players.push(player.clone());
        assert(models(self.players@) =~= models(before).push(player@));
        Ok(())
    }

    /// Adds a player to the lobby.
    pub fn insert_player_to_lobby(&mut self, player: &Player) -> (r: Result<(), String>)
        ensures
            r is Ok,
            final(self)@ == (GameModel { lobby: old(self)@.lobby.push(player@), ..old(self)@ }),
    {
        let ghost before = self.lobby@;
        self.lobby.push(player.clone());
        assert(models(self.lobby@) =~= models(before).push(player@));
        Ok(())
    }

    /// Adds a player to the spectators of the game.
    pub fn insert_player_to_spectators(&mut self, player: &Player) -> (r: Result<(), String>)
        ensures
            r is Ok,
            final(self)@ == (GameModel { spectators: old(self)@.spectators.push(player@), ..old(self)@ }),
    {
        let ghost before = self.spectators@;
        self.spectators.push(player.clone());
        assert(models(self.spectators@) =~= models(before).push(player@));
        Ok(())
    }

    /// Adds a player to the spectators waiting on the dealer's choice of game.
    pub fn insert_player_to_dealer_choice_spectators(&mut self, player: &Player) -> (r: Result<(), String>)
        ensures
            r is Ok,
            final(self)@ == (GameModel {
                dealer_choice_spectators: old(self)@.dealer_choice_spectators.push(player@),
                ..old(self)@
            }),
    {
        let ghost before = self.dealer_choice_spectators@;
        self.dealer_choice_spectators.push(player.clone());
        assert(models(self.dealer_choice_spectators@) =~= models(before).push(player@));
        Ok(())
    }

    /// Takes the dealer token from the dealer and moves the dealer position one seat
    /// on, wrapping round the table.
    pub fn rotate_dealer(&mut self)
        requires
            old(self).dealer < old(self).players@.len(),
            old(self).players@.len() <= u32::MAX,
        ensures
            final(self)@ == (GameModel {
                players: old(self)@.players.update(
                    old(self).dealer as int,
                    with_token(old(self)@.players[old(self).dealer as int], Seq::empty()),
                ),
                dealer: ((old(self).dealer + 1) % (old(self).players@.len() as int)) as u32,
                ..old(self)@
            }),
    {
        let d = self.dealer as usize;
        let ghost before = self.players@;
        self.players[d].token = String::new();
        assert(models(self.players@) =~= models(before).update(
            d as int,
            with_token(models(before)[d as int], Seq::empty()),
        ));
        let n = self.players.len() as u32;
        self.dealer = (self.dealer + 1) % n;
    }

    /// The seat three places to the left of the dealer, where play starts after the
    /// blinds.
    pub fn get_blinds_starting_player_index(&self) -> (r: usize)
        requires
            0 < self.players@.len() <= u32::MAX,
            self.dealer + 3 <= u32::MAX,
        ensures
            r == seat_after(self.dealer, 3, self.players@.len() as int),
    {
        let n = self.players.len() as u32;
        ((self.dealer + 3) % n) as usize
    }

    /// The seat directly to the left of the dealer.
    pub fn get_starting_player_left_of_dealer(&self) -> (r: usize)
        requires
            0 < self.players@.len() <= u32::MAX,
            self.dealer + 1 <= u32::MAX,
        ensures
            r == seat_after(self.dealer, 1, self.players@.len() as int),
    {
        let n = self.players.len() as u32;
        ((self.dealer + 1) % n) as usize
    }

    /// The two players to the left of the dealer bet the small blind (half the
    /// minimum bet) and the big blind (the minimum bet); the highest bet becomes the
    /// minimum bet and the pot holds the two blinds.
    pub fn put_blinds(&mut self)
        requires
            0 < old(self).players@.len() <= u32::MAX,
            old(self).dealer + 2 <= u32::MAX,
            old(self).minimum_bet + old(self).minimum_bet / 2 <= u32::MAX,
            blinds_payable(old(self)@.players, old(self).dealer, old(self).minimum_bet),
        ensures
            final(self)@ == (GameModel {
                players: blinds_players(old(self)@.players, old(self).dealer, old(self).minimum_bet),
                highest_bet: old(self).minimum_bet,
                pot: (old(self).minimum_bet + old(self).minimum_bet / 2) as u32,
                ..old(self)@
            }),
    {
        let n = self.players.len() as u32;
        let small = ((self.dealer + 1) % n) as usize;
        let big = ((self.dealer + 2) % n) as usize;
        let ghost ps = models(self.players@);
        let half = self.minimum_bet / 2;
        let min = self.minimum_bet;
        let ghost p0 = self.players@;
        self.players[small].bet(half);
        let ghost p1 = models(self.players@);
        assert(p1 =~= ps.update(small as int, ps[small as int].after_bet(half)));
        self.players[big].bet(min);
        let ghost p2 = models(self.players@);
        assert(p2 =~= p1.update(big as int, p1[big as int].after_bet(min)));
        self.players[small].last_move = String::from_str("Small Blind");
        let ghost p3 = models(self.players@);
        assert(p3 =~= p2.update(small as int, with_last_move(p2[small as int], "Small Blind"@)));
        self.players[big].last_move = String::from_str("Big Blind");
        assert(models(self.players@) =~= p3.update(big as int, with_last_move(p3[big as int], "Big Blind"@)));
        self.highest_bet = self.minimum_bet;
        self.pot = self.minimum_bet + (self.minimum_bet / 2);
    }

    /// The antes of seven card stud: every player bets 2 into the pot, then the
    /// player at `starting_idx` bets 3 more; the highest bet becomes the minimum bet.
    pub fn seven_card_antes(&mut self, starting_idx: usize)
        requires
            starting_idx < old(self).players@.len(),
            forall|i: int| 0 <= i < old(self).players@.len() ==> #[trigger] old(self)@.players[i].can_bet(2),
            all_bet(old(self)@.players, 2)[starting_idx as int].can_bet(3),
            old(self).pot + 2 * old(self).players@.len() + 3 <= u32::MAX,
        ensures
            final(self)@ == (GameModel {
                players: all_bet(old(self)@.players, 2).update(
                    starting_idx as int,
                    all_bet(old(self)@.players, 2)[starting_idx as int].after_bet(3),
                ),
                pot: (old(self).pot + 2 * old(self).players@.len() + 3) as u32,
                highest_bet: old(self).minimum_bet,
                ..old(self)@
            }),
    {
        let ghost ps = models(self.players@);
        let ghost pot0 = self.pot;
        let ghost start = self@;
        let mut i: usize = 0;
        while i < self.players.len()
            invariant
                0 <= i <= self.players@.len(),
                self@ == (GameModel { players: models(self.players@), pot: self.pot, ..start }),
                self.players@.len() == ps.len(),
                forall|k: int| 0 <= k < ps.len() ==> #[trigger] ps[k].can_bet(2),
                pot0 + 2 * ps.len() + 3 <= u32::MAX,
                self.pot == pot0 + 2 * i,
                forall|k: int| 0 <= k < i ==> #[trigger] self.players@[k]@ == ps[k].after_bet(2),
                forall|k: int| i <= k < ps.len() ==> #[trigger] self.players@[k]@ == ps[k],
            decreases self.players@.len() - i,
        {
            assert(self.players@[i as int]@ == ps[i as int]);
            self.players[i].bet(2);
            self.pot = self.pot + 2;
            i = i + 1;
        }
        assert(models(self.players@) =~= all_bet(ps, 2));
        let ghost mid = self.players@;
        self.players[starting_idx].bet(3);
        assert(models(self.players@) =~= all_bet(ps, 2).update(
            starting_idx as int,
            all_bet(ps, 2)[starting_idx as int].after_bet(3),
        ));
        self.pot = self.pot + 3;
        self.highest_bet = self.minimum_bet;
    }

    /// Gives the dealer the token "D", the player to its left "SB" and the next one
    /// "BB", except where that player already holds "D".
    pub fn set_player_tokens_blinds(&mut self)
        requires
            old(self).dealer < old(self).players@.len() <= u32::MAX,
            old(self).dealer + 2 <= u32::MAX,
        ensures
            final(self)@ == (GameModel {
                players: blind_tokens(old(self)@.players, old(self).dealer),
                ..old(self)@
            }),
    {
        let n = self.players.len() as u32;
        let small = ((self.dealer + 1) % n) as usize;
        let big = ((self.dealer + 2) % n) as usize;
        let d = self.dealer as usize;
        let ghost ps = models(self.players@);
        self.players[d].token = String::from_str("D");
        let ghost p1 = models(self.players@);
        assert(p1 =~= ps.update(d as int, with_token(ps[d as int], "D"@)));
        if !str_equal(self.players[small].token.as_str(), "D") {
            self.players[small].token = String::from_str("SB");
        }
        let ghost p2 = models(self.players@);
        assert(p2 =~= if p1[small as int].token == "D"@ { p1 } else {
            p1.update(small as int, with_token(p1[small as int], "SB"@))
        });
        if !str_equal(self.players[big].token.as_str(), "D") {
            self.players[big].token = String::from_str("BB");
        }
        assert(models(self.players@) =~= if p2[big as int].token == "D"@ { p2 } else {
            p2.update(big as int, with_token(p2[big as int], "BB"@))
        });
    }

    /// Gives the dealer the token "D".
    pub fn set_player_tokens_only_dealer(&mut self)
        requires
            old(self).dealer < old(self).players@.len(),
        ensures
            final(self)@ == (GameModel {
                players: old(self)@.players.update(
                    old(self).dealer as int,
                    with_token(old(self)@.players[old(self).dealer as int], "D"@),
                ),
                ..old(self)@
            }),
    {
        let d = self.dealer as usize;
        let ghost ps = models(self.players@);
        self.players[d].token = String::from_str("D");
        assert(models(self.players@) =~= ps.update(d as int, with_token(ps[d as int], "D"@)));
    }

    /// Deals `num_cards` face-down cards to every player who has not folded, one
    /// round of the table at a time, unless at most one player is left. A player
    /// whose hand is full, or a draw from an empty deck, is passed over.
    pub fn deal_face_down(&mut self, num_cards: u32)
        requires
            old(self).players@.len() <= u32::MAX,
            forall|k: int| 0 <= k < old(self).players@.len()
                ==> #[trigger] old(self)@.players[k].hand.len() + num_cards <= 255,
        ensures
            remaining(old(self)@.players) <= 1 ==> final(self)@ == old(self)@,
            remaining(old(self)@.players) > 1 ==> final(self)@ == (GameModel {
                players: deal_rounds(old(self)@.players, old(self)@.deck, false, num_cards as int).0,
                deck: deal_rounds(old(self)@.players, old(self)@.deck, false, num_cards as int).1,
                ..old(self)@
            }),
    {
        self.deal_cards(num_cards, false);
    }

    /// Deals `num_cards` face-up cards to every player who has not folded, as
    /// `deal_face_down` does.
    pub fn deal_face_up(&mut self, num_cards: u32)
        requires
            old(self).players@.len() <= u32::MAX,
            forall|k: int| 0 <= k < old(self).players@.len()
                ==> #[trigger] old(self)@.players[k].hand.len() + num_cards <= 255,
        ensures
            remaining(old(self)@.players) <= 1 ==> final(self)@ == old(self)@,
            remaining(old(self)@.players) > 1 ==> final(self)@ == (GameModel {
                players: deal_rounds(old(self)@.players, old(self)@.deck, true, num_cards as int).0,
                deck: deal_rounds(old(self)@.players, old(self)@.deck, true, num_cards as int).1,
                ..old(self)@
            }),
    {
        self.deal_cards(num_cards, true);
    }

    /// Deals `num_cards` rounds of one card each to the players who have not
    /// folded, turned as `up` says, unless at most one player is left.
    fn deal_cards(&mut self, num_cards: u32, up: bool)
        requires
            old(self).players@.len() <= u32::MAX,
            forall|k: int| 0 <= k < old(self).players@.len()
                ==> #[trigger] old(self)@.players[k].hand.len() + num_cards <= 255,
        ensures
            remaining(old(self)@.players) <= 1 ==> final(self)@ == old(self)@,
            remaining(old(self)@.players) > 1 ==> final(self)@ == (GameModel {
                players: deal_rounds(old(self)@.players, old(self)@.deck, up, num_cards as int).0,
                deck: deal_rounds(old(self)@.players, old(self)@.deck, up, num_cards as int).1,
                ..old(self)@
            }),
    {
        if self.get_remaining_player_count() <= 1 {
            return;
        }
        assert forall|k: int| 0 <= k < self.players@.len()
            implies #[trigger] self.players@[k]@.hand.len() + num_cards <= 255 by {
            assert(self@.players[k] == self.players@[k]@);
        }
        deal_rounds_to(&mut self.players, &mut self.deck, num_cards, up);
    }

    /// Deals `num` face-up community cards, one at a time, unless at most one player
    /// is left. A draw into a full community hand, or from an empty deck, is passed
    /// over.
    pub fn deal_community_cards(&mut self, num: u32)
        requires
            old(self).players@.len() <= u32::MAX,
            old(self).community_cards.cards@.len() + num <= 255,
        ensures
            remaining(old(self)@.players) <= 1 ==> final(self)@ == old(self)@,
            remaining(old(self)@.players) > 1 ==> final(self)@ == (GameModel {
                community_cards: community_draws(
                    old(self)@.community_cards, old(self)@.community_limit, old(self)@.deck, num as int).0,
                deck: community_draws(
                    old(self)@.community_cards, old(self)@.community_limit, old(self)@.deck, num as int).1,
                ..old(self)@
            }),
    {
        if self.get_remaining_player_count() <= 1 {
            return;
        }
        let ghost start = self@;
        let ghost goal = community_draws(start.community_cards, start.community_limit, start.deck, num as int);
        let mut r: u32 = 0;
        while r < num
            invariant
                0 <= r <= num,
                self@ == (GameModel {
                    community_cards: self.community_cards.cards@,
                    deck: self.deck@,
                    ..start
                }),
                self.community_cards.hand_limit == start.community_limit,
                self.community_cards.cards@.len() <= start.community_cards.len() + r,
                start.community_cards.len() + num <= 255,
                community_draws(self.community_cards.cards@, start.community_limit, self.deck@, num - r) == goal,
            decreases num - r,
        {
            let _ = self.community_cards.draw_face_up(&mut self.deck, 1);
            r = r + 1;
        }
    }

    /// Starts a new betting round: the discard prompt is cleared and, after the
    /// first round, every player keeps only a fold and the highest bet goes back
    /// to 0.
    pub fn new_betting_round(&mut self)
        ensures
            old(self).round_number == 0 ==> final(self)@ == (GameModel {
                discard_cards_prompted: false,
                ..old(self)@
            }),
            old(self).round_number != 0 ==> final(self)@ == (GameModel {
                discard_cards_prompted: false,
                players: old(self)@.players.map_values(|p: PlayerModel| p.after_new_round()),
                highest_bet: 0,
                ..old(self)@
            }),
    {
        self.discard_cards_prompted = false;
        if self.round_number == 0 {
            return;
        }
        self.all_new_round_choices();
        self.highest_bet = 0;
    }

    /// Starts a discard round: the discard prompt is set and every player keeps
    /// only a fold.
    pub fn new_discard_round(&mut self)
        ensures
            final(self)@ == (GameModel {
                discard_cards_prompted: true,
                players: old(self)@.players.map_values(|p: PlayerModel| p.after_new_round()),
                ..old(self)@
            }),
    {
        self.discard_cards_prompted = true;
        self.all_new_round_choices();
    }

    /// Every player starts a new round of choices.
    fn all_new_round_choices(&mut self)
        ensures
            final(self)@ == (GameModel {
                players: old(self)@.players.map_values(|p: PlayerModel| p.after_new_round()),
                ..old(self)@
            }),
    {
        let ghost start = self@;
        let mut i: usize = 0;
        while i < self.players.len()
            invariant
                0 <= i <= self.players@.len(),
                self.players@.len() == start.players.len(),
                self@ == (GameModel { players: models(self.players@), ..start }),
                forall|k: int| 0 <= k < i ==> #[trigger] self.players@[k]@ == start.players[k].after_new_round(),
                forall|k: int| i <= k < start.players.len() ==> #[trigger] self.players@[k]@ == start.players[k],
            decreases self.players@.len() - i,
        {
            self.players[i].new_round_choices();
            i = i + 1;
        }
        assert(models(self.players@) =~= start.players.map_values(|p: PlayerModel| p.after_new_round()));
    }

    /// Turns face up every card of every player who has not folded.
    pub fn reveal_cards(&mut self)
        ensures
            final(self)@ == (GameModel {
                players: old(self)@.players.map_values(|p: PlayerModel| revealed(p)),
                ..old(self)@
            }),
    {
        let ghost start = self@;
        let mut i: usize = 0;
        while i < self.players.len()
            invariant
                0 <= i <= self.players@.len(),
                self.players@.len() == start.players.len(),
                self@ == (GameModel { players: models(self.players@), ..start }),
                forall|k: int| 0 <= k < i ==> #[trigger] self.players@[k]@ == revealed(start.players[k]),
                forall|k: int| i <= k < start.players.len() ==> #[trigger] self.players@[k]@ == start.players[k],
            decreases self.players@.len() - i,
        {
            if !self.players[i].player_choices.fold {
                let ghost p0 = self.players@[i as int]@;
                let ghost mid = models(self.players@);
                proof {
                    assert(p0.hand.take(0).map_values(|c: Card| Card { face_up: true, ..c }) + p0.hand.skip(0)
                        =~= p0.hand);
                }
                let mut j: usize = 0;
                while j < self.players[i].player_hand.cards.len()
                    invariant
                        0 <= i < self.players@.len(),
                        0 <= j <= self.players@[i as int].player_hand.cards@.len(),
                        self.players@.len() == start.players.len(),
                        self@ == (GameModel { players: models(self.players@), ..start }),
                        forall|k: int| 0 <= k < mid.len() && k != i ==> #[trigger] self.players@[k]@ == mid[k],
                        mid.len() == start.players.len(),
                        p0 == start.players[i as int],
                        self.players@[i as int].player_hand.cards@.len() == p0.hand.len(),
                        self.players@[i as int]@ == (PlayerModel {
                            hand: p0.hand.take(j as int).map_values(|c: Card| Card { face_up: true, ..c })
                                + p0.hand.skip(j as int),
                            ..p0
                        }),
                    decreases self.players@[i as int].player_hand.cards@.len() - j,
                {
                    proof {
                        let t = p0.hand.take(j as int).map_values(|c: Card| Card { face_up: true, ..c });
                        let t1 = p0.hand.take(j + 1).map_values(|c: Card| Card { face_up: true, ..c });
                        assert(t1 =~= t.push(Card { face_up: true, ..p0.hand[j as int] }));
                        assert(p0.hand.skip(j as int) =~= seq![p0.hand[j as int]] + p0.hand.skip(j + 1));
                    }
                    self.players[i].player_hand.cards[j].face_up = true;
                    j = j + 1;
                    proof {
                        let t = p0.hand.take(j as int).map_values(|c: Card| Card { face_up: true, ..c });
                        assert(self.players@[i as int]@.hand =~= t + p0.hand.skip(j as int));
                    }
                }
                proof {
                    assert(p0.hand.take(p0.hand.len() as int) =~= p0.hand);
                    assert(p0.hand.skip(p0.hand.len() as int) =~= Seq::<Card>::empty());
                    assert(self.players@[i as int]@ == revealed(start.players[i as int]));
                }
            }
            i = i + 1;
        }
        assert(models(self.players@) =~= start.players.map_values(|p: PlayerModel| revealed(p)));
    }

    /// Whether the betting round is over: at most one player is left, or no player
    /// who has not folded still has to match the highest bet or act.
    pub fn is_betting_round_complete(&self) -> (r: bool)
        requires
            self.players@.len() <= u32::MAX,
        ensures
            r == round_done(self@),
    {
        if self.get_remaining_player_count() <= 1 {
            return true;
        }
        let mut i: usize = 0;
        while i < self.players.len()
            invariant
                0 <= i <= self.players@.len(),
                remaining(self@.players) > 1,
                forall|k: int| 0 <= k < i ==> !#[trigger] must_act(self.players@[k]@, self.highest_bet),
            decreases self.players@.len() - i,
        {
            let p = &self.players[i];
            let placed = p.player_choices.placed_amount_now();
            if !p.player_choices.fold && (placed != self.highest_bet || (placed == 0 && !p.player_choices.check)) {
                assert(must_act(self.players@[i as int]@, self.highest_bet));
                assert(self@.players[i as int] == self.players@[i as int]@);
                assert(must_act(self@.players[i as int], self.highest_bet));
                assert(!round_done(self@)) by {
                    let m = self@;
                    assert(0 <= i < m.players.len());
                    assert(must_act(m.players[i as int], m.highest_bet));
                }
                return false;
            }
            i = i + 1;
        }
        assert forall|k: int| 0 <= k < self.players@.len() implies !#[trigger] must_act(self@.players[k], self.highest_bet) by {
            assert(self@.players[k] == self.players@[k]@);
        }
        true
    }

    /// Makes the player at seat `idx` the current player; an empty table or a seat
    /// past the end changes nothing.
    pub fn set_current_player(&mut self, idx: usize)
        ensures
            idx >= old(self).players@.len() ==> final(self)@ == old(self)@,
            idx < old(self).players@.len() ==> final(self)@ == (GameModel {
                current_player: old(self)@.players[idx as int],
                ..old(self)@
            }),
    {
        if self.players.len() == 0 {
            return;
        }
        if idx >= self.players.len() {
            return;
        }
        self.current_player = self.players[idx].clone();
    }

    /// The first seat whose player has the given name.
    pub(crate) fn position_by_name(&self, name: &str) -> (r: Option<usize>)
        ensures
            r matches Some(k) ==> k < self.players@.len()
                && first_named_from(self@.players, name@, 0) == Some(k as int),
            r is None ==> first_named_from(self@.players, name@, 0) is None,
    {
        let mut i: usize = 0;
        while i < self.players.len()
            invariant
                0 <= i <= self.players@.len(),
                first_named_from(self@.players, name@, i as int) == first_named_from(self@.players, name@, 0),
            decreases self.players@.len() - i,
        {
            if str_equal(self.players[i].player_name.as_str(), name) {
                return Some(i);
            }
            i = i + 1;
        }
        None
    }

    /// Moves the turn to the next player round the table who has not folded. The
    /// current player is found by name; when no seated player has that name, the
    /// turn goes to the first seat. When every other player has folded nothing
    /// changes.
    pub fn update_current_player(&mut self)
        ensures
            final(self)@ == moved_on(old(self)@),
    {
        if self.players.len() == 0 {
            return;
        }
        match self.position_by_name(self.current_player.player_name.as_str()) {
            Some(c) => {
                let n = self.players.len();
                let ghost start = self@;
                let mut i: usize = 1;
                while i < n
                    invariant
                        1 <= i,
                        c < n,
                        self@ == start,
                        start == old(self)@,
                        first_named_from(start.players, start.current_player.player_name, 0) == Some(c as int),
                        n == self.players@.len(),
                        next_active_from(self@.players, c as int, i as int)
                            == next_active_from(self@.players, c as int, 1),
                    decreases n - i,
                {
                    let k = if i < n - c { c + i } else { i - (n - c) };
                    proof {
                        let (ci, ii, ni, ki) = (c as int, i as int, n as int, k as int);
                        if ii < ni - ci {
                            vstd::arithmetic::div_mod::lemma_small_mod((ci + ii) as nat, ni as nat);
                        } else {
                            vstd::arithmetic::div_mod::lemma_small_mod((ci + ii - ni) as nat, ni as nat);
                            vstd::arithmetic::div_mod::lemma_mod_sub_multiples_vanish(ci + ii, ni);
                        }
                        assert(ki == (ci + ii) % ni);
                    }
                    if !self.players[k].player_choices.fold {
                        self.current_player = self.players[k].clone();
                        return;
                    }
                    i = i + 1;
                }
            },
            None => {
                self.current_player = self.players[0].clone();
            },
        }
    }

    /// Works out the bounds of a raise for the current player, unless that player
    /// has folded: at least the minimum bet over the highest bet, at most what the
    /// player has put in this round plus the balance. The discard prompt is cleared.
    pub fn get_available_player_actions(&mut self)
        requires
            !old(self).current_player.player_choices.fold ==> old(self).minimum_bet + old(self).highest_bet <= u32::MAX
                && old(self)@.current_player.placed() + old(self).current_player.player_money <= u32::MAX,
        ensures
            old(self).current_player.player_choices.fold ==> final(self)@ == (GameModel {
                discard_cards_prompted: false,
                ..old(self)@
            }),
            !old(self).current_player.player_choices.fold ==> final(self)@ == (GameModel {
                discard_cards_prompted: false,
                raise_min_max: (
                    (old(self).minimum_bet + old(self).highest_bet) as u32,
                    (old(self)@.current_player.placed() + old(self).current_player.player_money) as u32,
                ),
                ..old(self)@
            }),
    {
        self.discard_cards_prompted = false;
        if self.current_player.player_choices.fold {
            return;
        }
        let min_raise = self.minimum_bet + self.highest_bet;
        let placed = self.current_player.player_choices.placed_amount_now();
        let max_raise = placed + self.current_player.player_money;
        self.raise_min_max = (min_raise, max_raise);
    }

    /// Carries out a betting message from the current player: "Fold", "Check",
    /// "Raise" (to `bet_amount`) or "Call"; any other action folds. A line naming the
    /// player and the action is added to the history.
    pub fn handle_player_betting_message(&mut self, action: String, bet_amount: u32)
        requires
            action@ == "Raise"@ ==> can_raise_current(old(self)@, bet_amount),
            action@ == "Call"@ ==> can_call_current(old(self)@),
        ensures
            final(self)@ == betting_step(old(self)@, action@, bet_amount),
    {
        let ghost m = self@;
        if str_equal(action.as_str(), "Check") {
            self.current_player_check();
            let line = self.current_player.player_name.clone().concat(" checked");
            self.action_history.push(line);
        } else if str_equal(action.as_str(), "Raise") {
            self.current_player_bet(bet_amount);
            let amount_text = decimal_text(self.highest_bet);
            let line = self.current_player.player_name.clone().concat(" raised to ").concat(amount_text.as_str());
            self.action_history.push(line);
        } else if str_equal(action.as_str(), "Call") {
            self.current_player_call();
            let line = self.current_player.player_name.clone().concat(" called");
            self.action_history.push(line);
        } else {
            self.current_player_fold();
            let line = self.current_player.player_name.clone().concat(" folded");
            self.action_history.push(line);
        }
        proof {
            let name = m.current_player.player_name;
            let prev = if action@ == "Check"@ {
                check_current(m)
            } else if action@ == "Raise"@ {
                raise_current(m, bet_amount)
            } else if action@ == "Call"@ {
                call_current(m)
            } else {
                fold_current(m)
            };
            assert(texts(self.action_history@) =~= prev.action_history.push(self.action_history@.last()@));
        }
    }

    /// The current player folds; the last move is recorded as "Fold".
    pub fn current_player_fold(&mut self)
        ensures
            final(self)@ == fold_current(old(self)@),
    {
        if let Some(k) = self.position_by_name(self.current_player.player_name.as_str()) {
            let ghost ps = self@.players;
            self.players[k].fold();
            self.players[k].last_move = String::from_str("Fold");
            assert(models(self.players@) =~= ps.update(k as int, with_last_move(ps[k as int].after_fold(), "Fold"@)));
        }
    }

    /// The current player checks; the last move is recorded as "Check".
    pub fn current_player_check(&mut self)
        ensures
            final(self)@ == check_current(old(self)@),
    {
        if let Some(k) = self.position_by_name(self.current_player.player_name.as_str()) {
            let ghost ps = self@.players;
            self.players[k].check();
            self.players[k].last_move = String::from_str("Check");
            assert(models(self.players@) =~= ps.update(k as int, with_last_move(ps[k as int].after_check(), "Check"@)));
        }
    }

    /// The current player calls: the difference between the highest bet and what
    /// the player has put in this round goes into the pot and is paid by the player;
    /// the last move is recorded as "Call".
    pub fn current_player_call(&mut self)
        requires
            can_call_current(old(self)@),
        ensures
            final(self)@ == call_current(old(self)@),
    {
        if let Some(k) = self.position_by_name(self.current_player.player_name.as_str()) {
            let ghost ps = self@.players;
            let placed = self.players[k].player_choices.placed_amount_now();
            let call_amount = self.highest_bet - placed;
            self.pot = self.pot + call_amount;
            self.players[k].call(call_amount);
            self.players[k].last_move = String::from_str("Call");
            assert(models(self.players@) =~= ps.update(
                k as int,
                with_last_move(ps[k as int].after_call(call_amount), "Call"@),
            ));
        }
    }

    /// The current player raises the bet to `bet_value`: the difference from what
    /// the player has put in this round goes into the pot and is paid by the player,
    /// `bet_value` becomes the highest bet, and the last move is recorded as "Raise".
    pub fn current_player_bet(&mut self, bet_value: u32)
        requires
            can_raise_current(old(self)@, bet_value),
        ensures
            final(self)@ == raise_current(old(self)@, bet_value),
    {
        if let Some(k) = self.position_by_name(self.current_player.player_name.as_str()) {
            let ghost ps = self@.players;
            let placed = self.players[k].player_choices.placed_amount_now();
            let raise_amount = bet_value - placed;
            self.pot = self.pot + raise_amount;
            self.highest_bet = bet_value;
            self.players[k].bet(raise_amount);
            self.players[k].last_move = String::from_str("Raise");
            assert(models(self.players@) =~= ps.update(
                k as int,
                with_last_move(ps[k as int].after_bet(raise_amount), "Raise"@),
            ));
        }
    }

    /// The table itself.
    pub fn get_game_state(&self) -> (r: &GameState)
        ensures
            r == self,
    {
        self
    }

    /// Sets the demo mode status.
    pub fn handle_demo_mode_message(&mut self, status: String)
        ensures
            final(self)@ == (GameModel { demo_mode: status@, ..old(self)@ }),
    {
        self.demo_mode = status;
    }

    /// The number of players who have not folded.
    pub fn get_remaining_player_count(&self) -> (r: u32)
        requires
            self.players@.len() <= u32::MAX,
        ensures
            r == remaining(self@.players),
    {
        let mut count: u32 = 0;
        let mut i: usize = 0;
        while i < self.players.len()
            invariant
                0 <= i <= self.players@.len(),
                self.players@.len() <= u32::MAX,
                count == remaining(models(self.players@.take(i as int))),
                count <= i,
            decreases self.players@.len() - i,
        {
            proof {
                assert(models(self.players@.take(i + 1)).drop_last() =~= models(self.players@.take(i as int)));
            }
            if !self.players[i].player_choices.fold {
                count = count + 1;
            }
            i = i + 1;
        }
        assert(self.players@.take(self.players@.len() as int) =~= self.players@);
        count
    }
}

} // verus!
