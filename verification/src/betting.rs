//! The steps of the table's betting and discard rounds between the players'
//! messages: who is asked next, what a reply does, and when a round is over.

use vstd::prelude::*;
use crate::game_state::{
    blinds_players, lemma_blinds_bet_left_of_dealer,
    betting_step, can_call_current, can_raise_current, first_named_from, fold_current, has_folded, moved_on,
    lemma_remaining_has_seat, must_act, next_active_from, remaining, GameModel, GameState,
};
pub use crate::game_state::round_done;
use crate::messages::MessageType;
use crate::player::PlayerModel;
use crate::rounds::swap_cards;

verus! {

/// What a betting round does next.
#[derive(Debug, Clone, Copy, PartialEq, Eq, Structural)]
pub enum BettingStep {
    /// The round is over; the next round has begun.
    RoundOver,
    /// The current player is asked to act.
    AskCurrent,
}

/// What follows a reply in the first betting round.
#[derive(Debug, Clone, Copy, PartialEq, Eq, Structural)]
pub enum FirstRoundStep {
    /// Only one player is left: the betting ends.
    OnePlayerLeft,
    /// The round goes on as usual.
    CarryOn,
    /// The big blind is asked whether to raise.
    OfferBigBlind,
}

/// The table once the turn has moved past players who have folded: unchanged when
/// the current player has not folded, otherwise moved on once or, if needed, twice.
pub open spec fn asked_state(m: GameModel) -> GameModel {
    if !has_folded(m.current_player) {
        m
    } else if !has_folded(moved_on(m).current_player) {
        moved_on(m)
    } else {
        moved_on(moved_on(m))
    }
}

/// The table when the player past those who have folded is asked to bet: the raise
/// bounds worked out for that player, the discard prompt cleared, and the action
/// text naming the player.
pub open spec fn asked_table(m: GameModel) -> GameModel {
    let a = asked_state(m);
    GameModel {
        discard_cards_prompted: false,
        raise_min_max: (
            (a.minimum_bet + a.highest_bet) as u32,
            (a.current_player.placed() + a.current_player.player_money) as u32,
        ),
        current_action_string: a.current_player.player_name + " is currently betting"@,
        ..a
    }
}

/// The table as the next betting round begins: the round number moves on, every
/// player keeps only a fold, the highest bet is 0 and the discard prompt is cleared.
pub open spec fn next_round_table(m: GameModel) -> GameModel {
    GameModel {
        round_number: (m.round_number + 1) as u32,
        discard_cards_prompted: false,
        players: m.players.map_values(|p: PlayerModel| p.after_new_round()),
        highest_bet: 0,
        ..m
    }
}

/// The table after a player's reply in a betting round, before the turn moves on:
/// a betting action is carried out, a demo mode message sets the status, any other
/// message changes nothing, and no reply folds the current player.
pub open spec fn betting_reply(m: GameModel, message: Option<MessageType>) -> GameModel {
    match message {
        Some(MessageType::PlayerAction { action, bet_amount, .. }) => betting_step(m, action@, bet_amount),
        Some(MessageType::DemoMode { status, .. }) => GameModel { demo_mode: status@, ..m },
        Some(_) => m,
        None => fold_current(m),
    }
}

/// Whether a betting reply can be carried out: a raise can be paid, and so can a
/// call.
pub open spec fn reply_payable(m: GameModel, message: Option<MessageType>) -> bool {
    match message {
        Some(MessageType::PlayerAction { action, bet_amount, .. }) => {
            &&& action@ == "Raise"@ ==> can_raise_current(m, bet_amount)
            &&& action@ == "Call"@ ==> can_call_current(m)
        },
        _ => true,
    }
}

/// Whether the big blind may still raise in the first round: the current player
/// sits two seats after the dealer and the highest bet is still the minimum bet.
pub open spec fn big_blind_option(m: GameModel) -> bool {
    &&& m.current_player.player_name == m.players[((m.dealer + 2) % (m.players.len() as int)) as int].player_name
    &&& m.highest_bet == m.minimum_bet
}

/// Starting a new round keeps every fold, so as many players are left.
proof fn lemma_new_round_keeps_remaining(ps: Seq<PlayerModel>)
    ensures
        remaining(ps.map_values(|p: PlayerModel| p.after_new_round())) == remaining(ps),
    decreases ps.len(),
{
    let f = |p: PlayerModel| p.after_new_round();
    if ps.len() > 0 {
        lemma_new_round_keeps_remaining(ps.drop_last());
        assert(ps.map_values(f).drop_last() =~= ps.drop_last().map_values(f));
    }
}

/// A new betting round is open until its players act: right after it begins, it
/// is over exactly when at most one player is left, as every player still in has
/// yet to check or bet.
pub proof fn lemma_new_round_is_open(m: GameModel)
    ensures
        round_done(next_round_table(m)) <==> remaining(m.players) <= 1,
{
    let next = next_round_table(m);
    lemma_new_round_keeps_remaining(m.players);
    if remaining(m.players) > 1 {
        lemma_remaining_has_seat(m.players);
        let k = choose|k: int| 0 <= k < m.players.len() && !#[trigger] has_folded(m.players[k]);
        assert(must_act(next.players[k], next.highest_bet));
    }
}

/// The big blind's option goes to the player who bet the big blind: with the
/// players as the blinds left them, the seat `(dealer + 2) mod n` holds the player
/// whose last move is "Big Blind", and the option is offered exactly when the
/// current player bears that player's name and nobody has raised past the minimum
/// bet.
pub proof fn lemma_big_blind_option_after_blinds(m: GameModel, ps: Seq<PlayerModel>)
    requires
        ps.len() >= 2,
        m.players == blinds_players(ps, m.dealer, m.minimum_bet),
    ensures
        m.players[(m.dealer + 2) % (ps.len() as int)].last_move == "Big Blind"@,
        big_blind_option(m) <==> (m.current_player.player_name == ps[(m.dealer + 2) % (ps.len() as int)].player_name
            && m.highest_bet == m.minimum_bet),
{
    lemma_blinds_bet_left_of_dealer(ps, m.dealer, m.minimum_bet);
}

/// The table after a player's reply in a discard round, before the turn moves on:
/// a discard swaps the named player's cards, a demo mode message sets the status,
/// any other message changes nothing, and no reply folds the current player.
pub open spec fn discard_reply(m: GameModel, message: Option<MessageType>) -> GameModel {
    match message {
        Some(MessageType::DiscardAction { player_name, card_index }) => match first_named_from(
            m.players, player_name@, 0) {
            Some(k) => GameModel {
                players: m.players.update(k, PlayerModel {
                    hand: swap_cards(m.players[k].hand, m.deck, card_index@, card_index@.len() as int).0,
                    ..m.players[k]
                }),
                deck: swap_cards(m.players[k].hand, m.deck, card_index@, card_index@.len() as int).1,
                ..m
            },
            None => m,
        },
        Some(MessageType::DemoMode { status, .. }) => GameModel { demo_mode: status@, ..m },
        Some(_) => m,
        None => fold_current(m),
    }
}

/// The table as a discard round begins: the discard prompt is set and every player
/// keeps only a fold.
pub open spec fn discard_table(m: GameModel) -> GameModel {
    GameModel {
        discard_cards_prompted: true,
        players: m.players.map_values(|p: PlayerModel| p.after_new_round()),
        ..m
    }
}

/// With at least one player who has not folded, there is such a seat.
proof fn lemma_some_unfolded(ps: Seq<PlayerModel>)
    requires
        remaining(ps) >= 1,
    ensures
        exists|j: int| 0 <= j < ps.len() && !#[trigger] has_folded(ps[j]),
    decreases ps.len(),
{
    if ps.len() > 0 && has_folded(ps.last()) {
        lemma_some_unfolded(ps.drop_last());
        let j = choose|j: int| 0 <= j < ps.drop_last().len() && !#[trigger] has_folded(ps.drop_last()[j]);
        assert(ps[j] == ps.drop_last()[j]);
    } else if ps.len() > 0 {
        assert(!has_folded(ps[ps.len() - 1]));
    }
}

/// With at least two players who have not folded, one sits at a seat other than
/// `c`.
proof fn lemma_other_unfolded(ps: Seq<PlayerModel>, c: int)
    requires
        remaining(ps) >= 2,
        0 <= c < ps.len(),
    ensures
        exists|j: int| 0 <= j < ps.len() && j != c && !#[trigger] has_folded(ps[j]),
    decreases ps.len(),
{
    let last = ps.len() - 1;
    if c == last {
        lemma_some_unfolded(ps.drop_last());
        let j = choose|j: int| 0 <= j < ps.drop_last().len() && !#[trigger] has_folded(ps.drop_last()[j]);
        assert(ps[j] == ps.drop_last()[j]);
    } else if !has_folded(ps[last]) {
        assert(last != c);
    } else {
        lemma_other_unfolded(ps.drop_last(), c);
        let j = choose|j: int| 0 <= j < ps.drop_last().len() && j != c && !#[trigger] has_folded(ps.drop_last()[j]);
        assert(ps[j] == ps.drop_last()[j]);
    }
}

/// Going round from seat `c`, a seat whose player has not folded is found when one
/// lies at an offset from `i` on.
proof fn lemma_next_active_found(ps: Seq<PlayerModel>, c: int, i: int, d: int)
    requires
        0 <= c < ps.len(),
        1 <= i <= d < ps.len(),
        !has_folded(ps[(c + d) % (ps.len() as int)]),
    ensures
        next_active_from(ps, c, i) matches Some(k) && 0 <= k < ps.len() && !has_folded(ps[k]),
    decreases d - i,
{
    let n = ps.len() as int;
    vstd::arithmetic::div_mod::lemma_mod_bound(c + i, n);
    if has_folded(ps[(c + i) % n]) {
        lemma_next_active_found(ps, c, i + 1, d);
    }
}

/// With at least two players who have not folded, the turn moves from any seat to
/// a player who has not folded.
proof fn lemma_next_active_exists(ps: Seq<PlayerModel>, c: int)
    requires
        remaining(ps) >= 2,
        0 <= c < ps.len(),
    ensures
        next_active_from(ps, c, 1) matches Some(k) && 0 <= k < ps.len() && !has_folded(ps[k]),
{
    lemma_other_unfolded(ps, c);
    let n = ps.len() as int;
    let j = choose|j: int| 0 <= j < n && j != c && !#[trigger] has_folded(ps[j]);
    let d = if j > c { j - c } else { j - c + n };
    if j > c {
        vstd::arithmetic::div_mod::lemma_small_mod(j as nat, n as nat);
    } else {
        vstd::arithmetic::div_mod::lemma_small_mod(j as nat, n as nat);
        vstd::arithmetic::div_mod::lemma_mod_add_multiples_vanish(j, n);
    }
    assert((c + d) % n == j);
    lemma_next_active_found(ps, c, 1, d);
}

/// With at least two players who have not folded, moving the turn past players who
/// have folded ends at a player who has not.
pub proof fn lemma_asked_player_is_in(m: GameModel)
    requires
        remaining(m.players) >= 2,
    ensures
        !has_folded(asked_state(m).current_player),
        asked_state(m) == (GameModel { current_player: asked_state(m).current_player, ..m }),
{
    assert(m.players.len() > 0) by {
        if m.players.len() == 0 {
            assert(remaining(m.players) == 0);
        }
    }
    match first_named_from(m.players, m.current_player.player_name, 0) {
        Some(c) => {
            lemma_first_named_range(m.players, m.current_player.player_name, 0);
            lemma_next_active_exists(m.players, c);
        },
        None => {
            let m1 = moved_on(m);
            assert(m1.players == m.players);
            assert(first_named_from(m1.players, m1.current_player.player_name, 0) == Some(0int));
            lemma_next_active_exists(m.players, 0);
        },
    }
}

impl GameState {
    /// Starts a betting round, and says whether it is over at once, with at most
    /// one player left. After the first round every player keeps only a fold, and
    /// so does the current player.
    pub fn open_betting_round(&mut self) -> (over: bool)
        requires
            old(self).players@.len() <= u32::MAX,
        ensures
            over == (remaining(old(self)@.players) <= 1),
            old(self).round_number == 0 ==> final(self)@ == (GameModel {
                discard_cards_prompted: false,
                ..old(self)@
            }),
            old(self).round_number != 0 ==> final(self)@ == (GameModel {
                discard_cards_prompted: false,
                players: old(self)@.players.map_values(|p: PlayerModel| p.after_new_round()),
                highest_bet: 0,
                current_player: old(self)@.current_player.after_new_round(),
                ..old(self)@
            }),
    {
        let over = self.get_remaining_player_count() <= 1;
        self.new_betting_round();
        if self.round_number > 0 {
            self.current_player.new_round_choices();
        }
        over
    }

    /// Decides the next step of a betting round. When the round is over, the round
    /// number moves on and the next round begins. Otherwise the turn moves past
    /// players who have folded, and that player is asked to bet, with the raise
    /// bounds worked out and the action text naming the player.
    pub fn next_betting_step(&mut self) -> (r: BettingStep)
        requires
            old(self).players@.len() <= u32::MAX,
            round_done(old(self)@) ==> old(self).round_number < u32::MAX,
            !round_done(old(self)@) ==> old(self).minimum_bet + old(self).highest_bet <= u32::MAX
                && asked_state(old(self)@).current_player.placed()
                    + asked_state(old(self)@).current_player.player_money <= u32::MAX,
        ensures
            round_done(old(self)@) ==> r == BettingStep::RoundOver && final(self)@ == next_round_table(old(self)@),
            !round_done(old(self)@) ==> r == BettingStep::AskCurrent && final(self)@ == asked_table(old(self)@),
    {
        if self.is_betting_round_complete() {
            self.round_number = self.round_number + 1;
            self.new_betting_round();
            return BettingStep::RoundOver;
        }
        let ghost m = self@;
        proof { lemma_asked_player_is_in(m); }
        let ghost mut moves: int = 0;
        while self.current_player.player_choices.fold
            invariant
                0 <= moves <= 2,
                remaining(m.players) >= 2,
                self.players@.len() <= u32::MAX,
                moves == 0 ==> self@ == m,
                moves == 1 ==> self@ == (GameModel { current_action_string: self@.current_action_string, ..moved_on(m) })
                    && has_folded(m.current_player),
                moves == 2 ==> self@ == (GameModel { current_action_string: self@.current_action_string, ..moved_on(moved_on(m)) })
                    && has_folded(m.current_player) && has_folded(moved_on(m).current_player),
                !has_folded(asked_state(m).current_player),
            decreases 2 - moves,
        {
            let ghost before = self@;
            self.update_current_player();
            let name = self.current_player.player_name.clone();
            self.current_action_string = name.concat(" is currently betting");
            proof {
                if moves == 1 {
                    assert(moved_on(before) == (GameModel { current_action_string: before.current_action_string, ..moved_on(moved_on(m)) }));
                }
                moves = moves + 1;
            }
        }
        assert(self@ == (GameModel { current_action_string: self@.current_action_string, ..asked_state(m) }));
        self.get_available_player_actions();
        let name = self.current_player.player_name.clone();
        self.current_action_string = name.concat(" is currently betting");
        BettingStep::AskCurrent
    }

    /// Whether the next step of a betting round can be decided without overflow:
    /// the round number can move on when the round is over, and otherwise the raise
    /// bounds of the player to be asked fit a count.
    pub fn next_betting_step_ready(&self) -> (r: bool)
        requires
            self.players@.len() <= u32::MAX,
        ensures
            r == ((round_done(self@) ==> self.round_number < u32::MAX)
                && (!round_done(self@) ==> self.minimum_bet + self.highest_bet <= u32::MAX
                    && asked_state(self@).current_player.placed() + asked_state(self@).current_player.player_money
                        <= u32::MAX)),
    {
        if self.is_betting_round_complete() {
            return self.round_number < u32::MAX;
        }
        let mut probe = self.clone();
        if probe.current_player.player_choices.fold {
            probe.update_current_player();
            if probe.current_player.player_choices.fold {
                probe.update_current_player();
            }
        }
        assert(probe@.current_player == asked_state(self@).current_player);
        let placed = probe.current_player.player_choices.placed_amount_now() as u64;
        let money = probe.current_player.player_money as u64;
        (self.minimum_bet as u64) + (self.highest_bet as u64) <= 0xffff_ffffu64 && placed + money <= 0xffff_ffffu64
    }

    /// Carries out a player's reply in a betting round (no reply folds the current
    /// player), then moves the turn on.
    pub fn handle_betting_reply(&mut self, message: Option<MessageType>)
        requires
            reply_payable(old(self)@, message),
        ensures
            final(self)@ == moved_on(betting_reply(old(self)@, message)),
    {
        match message {
            Some(MessageType::PlayerAction { action, bet_amount, .. }) => {
                self.handle_player_betting_message(action, bet_amount);
            },
            Some(MessageType::DemoMode { status, .. }) => {
                self.handle_demo_mode_message(status);
            },
            Some(_) => {},
            None => {
                self.current_player_fold();
            },
        }
        self.update_current_player();
    }

    /// Whether the big blind may still raise in the first round.
    pub fn big_blind_may_raise(&self) -> (r: bool)
        requires
            0 < self.players@.len() <= u32::MAX,
            self.dealer + 2 <= u32::MAX,
        ensures
            r == big_blind_option(self@),
    {
        let n = self.players.len() as u32;
        let index_big = ((self.dealer + 2) % n) as usize;
        assert(self@.players[index_big as int] == self.players@[index_big as int]@);
        crate::player::str_equal(self.current_player.player_name.as_str(), self.players[index_big].player_name.as_str())
            && self.highest_bet == self.minimum_bet
    }

    /// What follows a reply in the first betting round: the betting ends when only
    /// one player is left; otherwise the big blind is asked whether to raise when
    /// the turn has come to the big blind and the highest bet is still the minimum
    /// bet, and the round goes on as usual when not.
    pub fn first_round_step(&self) -> (r: FirstRoundStep)
        requires
            self.players@.len() <= u32::MAX,
            remaining(self@.players) != 1 ==> self.players@.len() > 0 && self.dealer + 2 <= u32::MAX,
        ensures
            remaining(self@.players) == 1 ==> r == FirstRoundStep::OnePlayerLeft,
            remaining(self@.players) != 1 && big_blind_option(self@) ==> r == FirstRoundStep::OfferBigBlind,
            remaining(self@.players) != 1 && !big_blind_option(self@) ==> r == FirstRoundStep::CarryOn,
    {
        if self.get_remaining_player_count() == 1 {
            return FirstRoundStep::OnePlayerLeft;
        }
        if self.big_blind_may_raise() {
            FirstRoundStep::OfferBigBlind
        } else {
            FirstRoundStep::CarryOn
        }
    }

    /// Asks the big blind whether to raise: the raise bounds are worked out for the
    /// current player and the action text names the player.
    pub fn offer_big_blind(&mut self)
        requires
            !old(self).current_player.player_choices.fold ==> old(self).minimum_bet + old(self).highest_bet <= u32::MAX
                && old(self)@.current_player.placed() + old(self).current_player.player_money <= u32::MAX,
        ensures
            old(self).current_player.player_choices.fold ==> final(self)@ == (GameModel {
                discard_cards_prompted: false,
                current_action_string: old(self)@.current_player.player_name + "'s is currently betting"@,
                ..old(self)@
            }),
            !old(self).current_player.player_choices.fold ==> final(self)@ == (GameModel {
                discard_cards_prompted: false,
                raise_min_max: (
                    (old(self).minimum_bet + old(self).highest_bet) as u32,
                    (old(self)@.current_player.placed() + old(self).current_player.player_money) as u32,
                ),
                current_action_string: old(self)@.current_player.player_name + "'s is currently betting"@,
                ..old(self)@
            }),
    {
        self.get_available_player_actions();
        let name = self.current_player.player_name.clone();
        self.current_action_string = name.concat("'s is currently betting");
    }

    /// Starts a discard round and gives the number of players who have not folded.
    /// Unless that is one, the turn moves past players who have folded and the
    /// action text names the player to discard.
    pub fn open_discard_round(&mut self) -> (r: u32)
        requires
            old(self).players@.len() <= u32::MAX,
            remaining(old(self)@.players) != 0,
        ensures
            r == remaining(old(self)@.players),
            r == 1 ==> final(self)@ == discard_table(old(self)@),
            r != 1 ==> final(self)@ == (GameModel {
                current_action_string: asked_state(discard_table(old(self)@)).current_player.player_name
                    + " is currently discarding"@,
                ..asked_state(discard_table(old(self)@))
            }),
    {
        let ghost m0 = self@;
        self.new_discard_round();
        proof { lemma_remaining_after_new_round(m0.players); }
        let remaining_players = self.get_remaining_player_count();
        if remaining_players == 1 {
            return remaining_players;
        }
        let ghost m = self@;
        proof { lemma_asked_player_is_in(m); }
        let ghost mut moves: int = 0;
        while self.current_player.player_choices.fold
            invariant
                0 <= moves <= 2,
                remaining(m.players) >= 2,
                moves == 0 ==> self@ == m,
                moves == 1 ==> self@ == moved_on(m) && has_folded(m.current_player),
                moves == 2 ==> self@ == moved_on(moved_on(m)) && has_folded(m.current_player)
                    && has_folded(moved_on(m).current_player),
                !has_folded(asked_state(m).current_player),
            decreases 2 - moves,
        {
            self.update_current_player();
            proof { moves = moves + 1; }
        }
        let name = self.current_player.player_name.clone();
        self.current_action_string = name.concat(" is currently discarding");
        remaining_players
    }

    /// Carries out a player's reply in a discard round (no reply folds the current
    /// player), moves the turn on, and names the next player to discard.
    pub fn handle_discard_reply(&mut self, message: Option<MessageType>)
        ensures
            final(self)@ == (GameModel {
                current_action_string: moved_on(discard_reply(old(self)@, message)).current_player.player_name
                    + " is currently discarding"@,
                ..moved_on(discard_reply(old(self)@, message))
            }),
    {
        match message {
            Some(MessageType::DiscardAction { player_name, card_index }) => {
                self.handle_player_discard_message(player_name, card_index);
            },
            Some(MessageType::DemoMode { status, .. }) => {
                self.handle_demo_mode_message(status);
            },
            Some(_) => {},
            None => {
                self.current_player_fold();
            },
        }
        self.update_current_player();
        let name = self.current_player.player_name.clone();
        self.current_action_string = name.concat(" is currently discarding");
    }
}

/// Starting a new round keeps every fold, so the players still in stay the same.
proof fn lemma_remaining_after_new_round(ps: Seq<PlayerModel>)
    ensures
        remaining(ps.map_values(|p: PlayerModel| p.after_new_round())) == remaining(ps),
    decreases ps.len(),
{
    if ps.len() > 0 {
        lemma_remaining_after_new_round(ps.drop_last());
        assert(ps.map_values(|p: PlayerModel| p.after_new_round()).drop_last()
            =~= ps.drop_last().map_values(|p: PlayerModel| p.after_new_round()));
    }
}

/// A seat found by name lies on the table, at or after where the search started.
proof fn lemma_first_named_range(ps: Seq<PlayerModel>, name: Seq<char>, i: int)
    ensures
        first_named_from(ps, name, i) matches Some(k) ==> i <= k < ps.len() && 0 <= k,
    decreases ps.len() - i,
{
    if 0 <= i < ps.len() {
        lemma_first_named_range(ps, name, i + 1);
    }
}

} // verus!
