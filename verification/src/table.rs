//! Decisions the table takes between messages: players joining, watching and
//! leaving, the automatic betting of demo mode, and the announcement of a
//! showdown.

use vstd::prelude::*;
use crate::game_state::{
    call_current, can_call_current, can_raise_current, check_current, fold_current, has_folded, models, remaining,
    GameModel,
    GameState,
};
use crate::player::{str_equal, Player, PlayerModel};
use crate::score_hands::score_text;
use crate::showdown::pot_share;
use crate::text::{decimal, decimal_text};

verus! {

/// Whether a player has the given name.
pub open spec fn named(name: Seq<char>) -> spec_fn(PlayerModel) -> bool {
    |p: PlayerModel| p.player_name == name
}

/// Whether a player has another name than the given one.
pub open spec fn not_named(name: Seq<char>) -> spec_fn(PlayerModel) -> bool {
    |p: PlayerModel| p.player_name != name
}

/// The players without any of the given name, in order.
pub open spec fn without_name(ps: Seq<PlayerModel>, name: Seq<char>) -> Seq<PlayerModel> {
    ps.filter(not_named(name))
}

/// The players of the given name, in order.
pub open spec fn with_name(ps: Seq<PlayerModel>, name: Seq<char>) -> Seq<PlayerModel> {
    ps.filter(named(name))
}

/// Whether a player of the given name is among the players.
pub open spec fn has_name(ps: Seq<PlayerModel>, name: Seq<char>) -> bool {
    exists|k: int| 0 <= k < ps.len() && #[trigger] ps[k].player_name == name
}

/// The dealer position moved back until it names a seat, or reaches the first.
pub open spec fn settled_dealer(dealer: u32, seats: nat) -> u32 {
    if dealer < seats {
        dealer
    } else if seats == 0 {
        0
    } else {
        (seats - 1) as u32
    }
}

/// The variant the dealer's choice names: "Five-Card Draw", "Seven-Card Stud" or
/// "Texas Hold 'Em"; any other choice names none.
pub open spec fn chosen_variant(dealer_option: Seq<char>) -> Option<Seq<char>> {
    if dealer_option == "Five-Card Draw"@ {
        Some("5 Card Draw"@)
    } else if dealer_option == "Seven-Card Stud"@ {
        Some("7 Card Stud"@)
    } else if dealer_option == "Texas Hold 'Em"@ {
        Some("Texas Hold'em"@)
    } else {
        None
    }
}

/// The table with the variant the dealer chose, if any.
pub open spec fn with_variant(m: GameModel, dealer_option: Seq<char>) -> GameModel {
    match chosen_variant(dealer_option) {
        Some(v) => GameModel { game_variant: v, ..m },
        None => m,
    }
}

/// How demo mode plays a player: 0 checks (the bet is matched), 1 calls (the
/// balance covers the rest), 2 folds (it does not); 3 passes over a player who has
/// folded.
pub open spec fn demo_class(p: PlayerModel, highest_bet: u32) -> int {
    if has_folded(p) {
        3
    } else if p.placed() == highest_bet {
        0
    } else if p.player_money + p.placed() >= highest_bet {
        1
    } else {
        2
    }
}

/// The seats among the first `n` whose players demo mode plays as `c`, in order.
pub open spec fn seats_in_class(ps: Seq<PlayerModel>, highest_bet: u32, c: int, n: int) -> Seq<usize>
    decreases n,
{
    if n <= 0 {
        Seq::empty()
    } else {
        seats_in_class(ps, highest_bet, c, n - 1) + if demo_class(ps[n - 1], highest_bet) == c {
            seq![(n - 1) as usize]
        } else {
            Seq::empty()
        }
    }
}

/// The table after the player at seat `idx` becomes the current player and checks
/// (`c` 0), calls (`c` 1) or folds (otherwise).
pub open spec fn act_as(m: GameModel, idx: int, c: int) -> GameModel {
    let m1 = if 0 <= idx < m.players.len() { GameModel { current_player: m.players[idx], ..m } } else { m };
    if c == 0 {
        check_current(m1)
    } else if c == 1 {
        call_current(m1)
    } else {
        fold_current(m1)
    }
}

/// Whether the current player can act as `c` at seat `idx`: only a call can fail.
pub open spec fn can_act_as(m: GameModel, idx: int, c: int) -> bool {
    let m1 = if 0 <= idx < m.players.len() { GameModel { current_player: m.players[idx], ..m } } else { m };
    c == 1 ==> can_call_current(m1)
}

/// The table after the players at the first `n` of the seats act as `c`, in turn.
pub open spec fn act_all(m: GameModel, seats: Seq<usize>, c: int, n: int) -> GameModel
    decreases n,
{
    if n <= 0 {
        m
    } else {
        act_as(act_all(m, seats, c, n - 1), seats[n - 1] as int, c)
    }
}

/// Whether the players at the first `n` of the seats can act as `c` in turn.
pub open spec fn can_act_all(m: GameModel, seats: Seq<usize>, c: int, n: int) -> bool
    decreases n,
{
    if n <= 0 {
        true
    } else {
        can_act_all(m, seats, c, n - 1) && can_act_as(act_all(m, seats, c, n - 1), seats[n - 1] as int, c)
    }
}

/// The table after demo mode has checked for every player who matched the bet,
/// called for every player who can cover it and folded the rest, in that order.
pub open spec fn demo_actions(m: GameModel) -> GameModel {
    let n = m.players.len() as int;
    let h = m.highest_bet;
    let m1 = act_all(m, seats_in_class(m.players, h, 0, n), 0, seats_in_class(m.players, h, 0, n).len() as int);
    let m2 = act_all(m1, seats_in_class(m.players, h, 1, n), 1, seats_in_class(m.players, h, 1, n).len() as int);
    act_all(m2, seats_in_class(m.players, h, 2, n), 2, seats_in_class(m.players, h, 2, n).len() as int)
}

/// Whether the calls of demo mode can all be made.
pub open spec fn demo_payable(m: GameModel) -> bool {
    let n = m.players.len() as int;
    let h = m.highest_bet;
    let m1 = act_all(m, seats_in_class(m.players, h, 0, n), 0, seats_in_class(m.players, h, 0, n).len() as int);
    can_act_all(m1, seats_in_class(m.players, h, 1, n), 1, seats_in_class(m.players, h, 1, n).len() as int)
}

/// The text announcing the winners: with several, the pot split among them, each
/// one's share and the winning hand; with one, the winner's name, the pot and
/// either the hand or, when folds are to be noted and only that player is left,
/// that everyone else folded.
pub open spec fn announcement(m: GameModel, note_folds: bool) -> Seq<char> {
    if m.winner.len() > 1 {
        "Split Pot "@ + decimal(m.winner.len()) + " ways. Each win $"@ + decimal(pot_share(m) as nat)
            + " Highest hand "@ + score_text(m.winner[0].1)
    } else if note_folds && remaining(m.players) == 1 {
        m.winner[0].0.player_name + " wins $"@ + decimal(m.pot as nat) + " due to all players folding"@
    } else {
        m.winner[0].0.player_name + " wins $"@ + decimal(m.pot as nat) + " with hand "@ + score_text(m.winner[0].1)
    }
}

/// The players of a list that have (or, with `keep` false, have not) the given
/// name, in order.
fn players_named(ps: &Vec<Player>, name: &str, keep: bool) -> (r: Vec<Player>)
    ensures
        keep ==> models(r@) == with_name(models(ps@), name@),
        !keep ==> models(r@) == without_name(models(ps@), name@),
{
    let mut out: Vec<Player> = Vec::new();
    let mut i: usize = 0;
    while i < ps.len()
        invariant
            0 <= i <= ps@.len(),
            keep ==> models(out@) == models(ps@).take(i as int).filter(named(name@)),
            !keep ==> models(out@) == models(ps@).take(i as int).filter(not_named(name@)),
        decreases ps@.len() - i,
    {
        let ghost before = out@;
        proof {
            assert(models(ps@).take(i + 1) =~= models(ps@).take(i as int).push(ps@[i as int]@));
            models(ps@).take(i as int).lemma_filter_push(ps@[i as int]@, named(name@));
            models(ps@).take(i as int).lemma_filter_push(ps@[i as int]@, not_named(name@));
        }
        let same = str_equal(ps[i].player_name.as_str(), name);
        proof {
            let x = ps@[i as int]@;
            assert(named(name@)(x) == same);
            assert(not_named(name@)(x) == !same);
        }
        if same == keep {
            out.push(ps[i].clone());
            assert(models(out@) =~= models(before).push(ps@[i as int]@));
        }
        i = i + 1;
    }
    assert(models(ps@).take(ps@.len() as int) =~= models(ps@));
    out
}

/// Whether a player of the given name is in the list.
pub(crate) fn any_named(ps: &Vec<Player>, name: &str) -> (r: bool)
    ensures
        r == has_name(models(ps@), name@),
{
    let mut i: usize = 0;
    while i < ps.len()
        invariant
            0 <= i <= ps@.len(),
            forall|k: int| 0 <= k < i ==> #[trigger] models(ps@)[k].player_name != name@,
        decreases ps@.len() - i,
    {
        if str_equal(ps[i].player_name.as_str(), name) {
            assert(models(ps@)[i as int].player_name == name@);
            return true;
        }
        i = i + 1;
    }
    false
}

impl GameState {
    /// A player joins the table. A player not yet seated is seated (when the table
    /// has room) as the stored record `stored` when there is one, or as a new player
    /// of that name, without a token. A player already seated loses the token; when
    /// the dealer chose a game, the winners are cleared, every other player and
    /// spectator leaves and the dealer is the first seat. The dealer's choice sets
    /// the variant.
    pub fn join_table(&mut self, player_name: &str, dealer_option: &str, stored: Option<Player>)
        ensures
            !has_name(old(self)@.players, player_name@) ==> {
                let joiner = match stored {
                    Some(p) => PlayerModel { token: Seq::empty(), ..p@ },
                    None => PlayerModel { token: Seq::empty(), ..Player::fresh(player_name@) },
                };
                let seated = if old(self).players@.len() < old(self).max_players as usize {
                    GameModel { players: old(self)@.players.push(joiner), ..old(self)@ }
                } else {
                    old(self)@
                };
                final(self)@ == with_variant(seated, dealer_option@)
            },
            has_name(old(self)@.players, player_name@) ==> match crate::game_state::first_named_from(
                old(self)@.players, player_name@, 0) {
                Some(k) => {
                    let ps = old(self)@.players.update(k, PlayerModel { token: Seq::empty(), ..old(self)@.players[k] });
                    let m = if dealer_option@.len() > 0 {
                        GameModel {
                            players: with_name(ps, player_name@),
                            spectators: with_name(old(self)@.spectators, player_name@),
                            winner: Seq::empty(),
                            dealer: 0,
                            ..old(self)@
                        }
                    } else {
                        GameModel { players: ps, ..old(self)@ }
                    };
                    final(self)@ == with_variant(m, dealer_option@)
                },
                None => final(self)@ == with_variant(old(self)@, dealer_option@),
            },
    {
        if !any_named(&self.players, player_name) {
            let mut new_player = match stored {
                Some(p) => p,
                None => Player::new(player_name),
            };
            new_player.token = String::new();
            let _ = self.insert_player(&new_player);
        } else {
            match self.position_by_name(player_name) {
                Some(idx) => {
                    let ghost ps0 = self@.players;
                    self.players[idx].token = String::new();
                    assert(models(self.players@) =~= ps0.update(
                        idx as int,
                        PlayerModel { token: Seq::empty(), ..ps0[idx as int] },
                    ));
                    if dealer_option.unicode_len() > 0 {
                        self.winner = Vec::new();
                        assert(crate::game_state::winner_models(self.winner@) =~= Seq::empty());
                        self.players = players_named(&self.players, player_name, true);
                        self.spectators = players_named(&self.spectators, player_name, true);
                        self.dealer = 0;
                    }
                },
                None => {},
            }
        }
        self.choose_variant(dealer_option);
    }

    /// Sets the variant the dealer's choice names, if any.
    fn choose_variant(&mut self, dealer_option: &str)
        ensures
            final(self)@ == with_variant(old(self)@, dealer_option@),
    {
        if str_equal(dealer_option, "Five-Card Draw") {
            self.game_variant = String::from_str("5 Card Draw");
        } else if str_equal(dealer_option, "Seven-Card Stud") {
            self.game_variant = String::from_str("7 Card Stud");
        } else if str_equal(dealer_option, "Texas Hold 'Em") {
            self.game_variant = String::from_str("Texas Hold'em");
        }
    }

    /// Moves the dealer position back until it names a seat, or reaches the first.
    fn settle_dealer(&mut self)
        ensures
            final(self)@ == (GameModel {
                dealer: settled_dealer(old(self).dealer, old(self).players@.len()),
                ..old(self)@
            }),
    {
        let ghost start = self@;
        loop
            invariant
                self@ == (GameModel { dealer: self.dealer, ..start }),
                self.players@.len() == start.players.len(),
                settled_dealer(self.dealer, start.players.len()) == settled_dealer(start.dealer, start.players.len()),
            ensures
                self@ == (GameModel { dealer: settled_dealer(start.dealer, start.players.len()), ..start }),
            decreases self.dealer,
        {
            if self.dealer == 0 {
                break;
            }
            if self.players.len() <= self.dealer as usize {
                self.dealer = self.dealer - 1;
            } else {
                break;
            }
        }
    }

    /// A player chooses to watch: the player leaves the seats, is added as a new
    /// player of that name to the spectators waiting on the dealer's choice and to
    /// the spectators where not already there, and the dealer position is settled
    /// on a seat.
    pub fn spectate_table(&mut self, player_name: &str)
        ensures
            ({
                let left = without_name(old(self)@.players, player_name@);
                let newcomer = Player::fresh(player_name@);
                final(self)@ == (GameModel {
                    players: left,
                    dealer_choice_spectators: if has_name(old(self)@.dealer_choice_spectators, player_name@) {
                        old(self)@.dealer_choice_spectators
                    } else {
                        old(self)@.dealer_choice_spectators.push(newcomer)
                    },
                    spectators: if has_name(old(self)@.spectators, player_name@) {
                        old(self)@.spectators
                    } else {
                        old(self)@.spectators.push(newcomer)
                    },
                    dealer: settled_dealer(old(self).dealer, left.len()),
                    ..old(self)@
                })
            }),
    {
        self.players = players_named(&self.players, player_name, false);
        if !any_named(&self.dealer_choice_spectators, player_name) {
            let new_player = Player::new(player_name);
            let _ = self.insert_player_to_dealer_choice_spectators(&new_player);
        }
        if !any_named(&self.spectators, player_name) {
            let new_player = Player::new(player_name);
            let _ = self.insert_player_to_spectators(&new_player);
        }
        self.settle_dealer();
    }

    /// A player leaves: the player leaves the seats, the spectators and the lobby,
    /// and the dealer position is settled on a seat. When the lobby is then empty,
    /// the table starts afresh with a newly shuffled deck.
    pub fn leave_table(&mut self, player_name: &str)
        ensures
            without_name(old(self)@.lobby, player_name@).len() > 0 ==> final(self)@ == (GameModel {
                players: without_name(old(self)@.players, player_name@),
                spectators: without_name(old(self)@.spectators, player_name@),
                lobby: without_name(old(self)@.lobby, player_name@),
                dealer: settled_dealer(old(self).dealer, without_name(old(self)@.players, player_name@).len()),
                ..old(self)@
            }),
            without_name(old(self)@.lobby, player_name@).len() == 0
                ==> crate::game_state::is_fresh_table(final(self)@, 0),
    {
        self.players = players_named(&self.players, player_name, false);
        self.spectators = players_named(&self.spectators, player_name, false);
        self.lobby = players_named(&self.lobby, player_name, false);
        self.settle_dealer();
        if self.lobby.len() == 0 {
            *self = GameState::new();
        }
    }

    /// The seats of the players demo mode plays as `c`, in order.
    fn demo_seats(&self, c: u8) -> (r: Vec<usize>)
        requires
            c <= 3,
        ensures
            r@ == seats_in_class(self@.players, self.highest_bet, c as int, self.players@.len() as int),
    {
        let mut out: Vec<usize> = Vec::new();
        let mut i: usize = 0;
        while i < self.players.len()
            invariant
                0 <= i <= self.players@.len(),
                c <= 3,
                out@ == seats_in_class(self@.players, self.highest_bet, c as int, i as int),
            decreases self.players@.len() - i,
        {
            let p = &self.players[i];
            assert(self@.players[i as int] == self.players@[i as int]@);
            let placed = p.player_choices.placed_amount_now();
            let class: u8 = if p.player_choices.fold {
                3
            } else if placed == self.highest_bet {
                0
            } else if p.player_money as u64 + placed as u64 >= self.highest_bet as u64 {
                1
            } else {
                2
            };
            if class == c {
                out.push(i);
            }
            i = i + 1;
        }
        out
    }

    /// Has each player at the given seats, in turn, become the current player and
    /// act as `c`.
    fn act_at_seats(&mut self, seats: &Vec<usize>, c: u8)
        requires
            can_act_all(old(self)@, seats@, c as int, seats@.len() as int),
        ensures
            final(self)@ == act_all(old(self)@, seats@, c as int, seats@.len() as int),
    {
        let mut j: usize = 0;
        while j < seats.len()
            invariant
                0 <= j <= seats@.len(),
                can_act_all(old(self)@, seats@, c as int, seats@.len() as int),
                self@ == act_all(old(self)@, seats@, c as int, j as int),
            decreases seats@.len() - j,
        {
            proof { lemma_can_act_prefix(old(self)@, seats@, c as int, seats@.len() as int, j + 1); }
            let idx = seats[j];
            self.set_current_player(idx);
            if c == 0 {
                self.current_player_check();
            } else if c == 1 {
                self.current_player_call();
            } else {
                self.current_player_fold();
            }
            j = j + 1;
        }
    }

    /// Plays a betting round in demo mode: every player who has matched the highest
    /// bet checks, then every player whose balance covers it calls, then every other
    /// player who has not folded folds; the round count goes up and a new betting
    /// round starts.
    pub fn demo_mode_bet(&mut self)
        requires
            old(self).round_number < u32::MAX,
            demo_payable(old(self)@),
        ensures
            ({
                let m = demo_actions(old(self)@);
                final(self)@ == (GameModel {
                    round_number: (m.round_number + 1) as u32,
                    discard_cards_prompted: false,
                    players: m.players.map_values(|p: PlayerModel| p.after_new_round()),
                    highest_bet: 0,
                    ..m
                })
            }),
    {
        assert(self@.players.len() == self.players@.len());
        let check_seats = self.demo_seats(0);
        let call_seats = self.demo_seats(1);
        let fold_seats = self.demo_seats(2);
        proof { lemma_can_act_without_call(self@, check_seats@, 0, check_seats@.len() as int); }
        self.act_at_seats(&check_seats, 0);
        proof { lemma_act_all_keeps_round(old(self)@, check_seats@, 0, check_seats@.len() as int); }
        let ghost m1 = self@;
        self.act_at_seats(&call_seats, 1);
        proof { lemma_act_all_keeps_round(m1, call_seats@, 1, call_seats@.len() as int); }
        let ghost m2 = self@;
        self.act_at_seats_no_call(&fold_seats);
        proof { lemma_act_all_keeps_round(m2, fold_seats@, 2, fold_seats@.len() as int); }
        self.round_number = self.round_number + 1;
        self.new_betting_round();
    }

    /// Has each player at the given seats, in turn, become the current player and
    /// fold.
    fn act_at_seats_no_call(&mut self, seats: &Vec<usize>)
        ensures
            final(self)@ == act_all(old(self)@, seats@, 2, seats@.len() as int),
    {
        proof { lemma_can_act_without_call(old(self)@, seats@, 2, seats@.len() as int); }
        self.act_at_seats(seats, 2);
    }

    /// Whether the current player can call now.
    pub fn can_call_now(&self) -> (r: bool)
        ensures
            r == can_call_current(self@),
    {
        match self.position_by_name(self.current_player.player_name.as_str()) {
            Some(k) => {
                let p = &self.players[k];
                assert(self@.players[k as int] == p@);
                let placed = p.player_choices.placed_amount_now();
                if placed > self.highest_bet {
                    return false;
                }
                let due = self.highest_bet - placed;
                if self.pot as u64 + due as u64 > u32::MAX as u64 {
                    return false;
                }
                if p.player_choices.fold {
                    return true;
                }
                placed as u64 + due as u64 <= u32::MAX as u64
                    && p.total_wagered_per_game as u64 + due as u64 <= u32::MAX as u64
                    && p.player_money >= due
            },
            None => true,
        }
    }

    /// Whether the current player can raise the bet to `value` now.
    pub fn can_raise_now(&self, value: u32) -> (r: bool)
        ensures
            r == can_raise_current(self@, value),
    {
        match self.position_by_name(self.current_player.player_name.as_str()) {
            Some(k) => {
                let p = &self.players[k];
                assert(self@.players[k as int] == p@);
                let placed = p.player_choices.placed_amount_now();
                if value < placed {
                    return false;
                }
                let more = value - placed;
                self.pot as u64 + more as u64 <= u32::MAX as u64 && (p.player_choices.fold || (
                    placed as u64 + more as u64 <= u32::MAX as u64
                    && p.total_wagered_per_game as u64 + more as u64 <= u32::MAX as u64
                    && p.player_money >= more))
            },
            None => true,
        }
    }

    /// Whether demo mode can make all its calls now.
    pub fn demo_mode_ready(&self) -> (r: bool)
        ensures
            r == demo_payable(self@),
    {
        let mut trial = self.clone();
        assert(self@.players.len() == self.players@.len());
        assert(trial@.players.len() == trial.players@.len());
        let check_seats = trial.demo_seats(0);
        let call_seats = trial.demo_seats(1);
        proof { lemma_can_act_without_call(trial@, check_seats@, 0, check_seats@.len() as int); }
        trial.act_at_seats(&check_seats, 0);
        let ghost m1 = trial@;
        assert(demo_payable(self@) == can_act_all(m1, call_seats@, 1, call_seats@.len() as int));
        let mut j: usize = 0;
        while j < call_seats.len()
            invariant
                0 <= j <= call_seats@.len(),
                demo_payable(self@) == can_act_all(m1, call_seats@, 1, call_seats@.len() as int),
                can_act_all(m1, call_seats@, 1, j as int),
                trial@ == act_all(m1, call_seats@, 1, j as int),
            decreases call_seats@.len() - j,
        {
            let idx = call_seats[j];
            let ghost before = trial@;
            trial.set_current_player(idx);
            assert(trial@ == (if 0 <= idx < before.players.len() {
                GameModel { current_player: before.players[idx as int], ..before }
            } else {
                before
            }));
            if !trial.can_call_now() {
                assert(!can_act_as(act_all(m1, call_seats@, 1, j as int), call_seats@[j as int] as int, 1));
                proof { lemma_cannot_act_after(m1, call_seats@, j as int, call_seats@.len() as int); }
                return false;
            }
            trial.current_player_call();
            j = j + 1;
        }
        true
    }

    /// The text announcing the winners of a showdown; with `note_folds`, a lone
    /// winner left after everyone else folded is announced as such.
    pub fn winner_announcement(&self, note_folds: bool) -> (r: String)
        requires
            self.winner@.len() > 0,
            self.winner@.len() <= u32::MAX,
            self.players@.len() <= u32::MAX,
        ensures
            r@ == announcement(self@, note_folds),
    {
        assert(self@.winner[0] == (self.winner@[0].0@, self.winner@[0].1));
        if self.winner.len() > 1 {
            let count = self.winner.len() as u32;
            let share = self.pot / count;
            let t = String::from_str("Split Pot ");
            let t = t.concat(decimal_text(count).as_str());
            let t = t.concat(" ways. Each win $");
            let t = t.concat(decimal_text(share).as_str());
            let t = t.concat(" Highest hand ");
            let t = t.concat(self.winner[0].1.to_string().as_str());
            t
        } else if note_folds && self.get_remaining_player_count() == 1 {
            let t = self.winner[0].0.player_name.clone();
            let t = t.concat(" wins $");
            let t = t.concat(decimal_text(self.pot).as_str());
            let t = t.concat(" due to all players folding");
            t
        } else {
            let t = self.winner[0].0.player_name.clone();
            let t = t.concat(" wins $");
            let t = t.concat(decimal_text(self.pot).as_str());
            let t = t.concat(" with hand ");
            let t = t.concat(self.winner[0].1.to_string().as_str());
            t
        }
    }
}

/// A player who leaves is gone: no one left has that name, and every player of
/// another name is still there.
pub proof fn lemma_leaver_is_gone(ps: Seq<PlayerModel>, name: Seq<char>)
    ensures
        forall|k: int| 0 <= k < without_name(ps, name).len()
            ==> #[trigger] without_name(ps, name)[k].player_name != name,
        forall|k: int| 0 <= k < ps.len() && ps[k].player_name != name
            ==> without_name(ps, name).contains(#[trigger] ps[k]),
{
    assert forall|k: int| 0 <= k < without_name(ps, name).len()
        implies #[trigger] without_name(ps, name)[k].player_name != name by {
        ps.lemma_filter_pred(not_named(name), k);
    }
    assert forall|k: int| 0 <= k < ps.len() && ps[k].player_name != name
        implies without_name(ps, name).contains(#[trigger] ps[k]) by {
        ps.lemma_filter_contains(not_named(name), k);
    }
}

/// The players at a prefix of the seats can act when those at all of them can.
proof fn lemma_can_act_prefix(m: GameModel, seats: Seq<usize>, c: int, n: int, k: int)
    requires
        0 <= k <= n,
        can_act_all(m, seats, c, n),
    ensures
        can_act_all(m, seats, c, k),
    decreases n - k,
{
    if k < n {
        lemma_can_act_prefix(m, seats, c, n - 1, k);
    }
}

/// Once a call at seat list position `j` cannot be made, the calls up to any
/// later position cannot all be made.
proof fn lemma_cannot_act_after(m: GameModel, seats: Seq<usize>, j: int, n: int)
    requires
        0 <= j < n,
        !can_act_as(act_all(m, seats, 1, j), seats[j] as int, 1),
    ensures
        !can_act_all(m, seats, 1, n),
    decreases n - j,
{
    if n > j + 1 {
        lemma_cannot_act_after(m, seats, j, n - 1);
    }
}

/// Checks and folds never fail.
proof fn lemma_can_act_without_call(m: GameModel, seats: Seq<usize>, c: int, n: int)
    requires
        c != 1,
    ensures
        can_act_all(m, seats, c, n),
    decreases n,
{
    if n > 0 {
        lemma_can_act_without_call(m, seats, c, n - 1);
    }
}

/// Acting changes neither the round count nor the player list's length.
proof fn lemma_act_all_keeps_round(m: GameModel, seats: Seq<usize>, c: int, n: int)
    ensures
        act_all(m, seats, c, n).round_number == m.round_number,
    decreases n,
{
    if n > 0 {
        lemma_act_all_keeps_round(m, seats, c, n - 1);
    }
}

} // verus!
