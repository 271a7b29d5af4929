//! What a player's terminal decides from the table the server sends: which
//! question to put to the player, the actions it offers, and what the player's
//! answers ask of the table.

use vstd::prelude::*;
use crate::card::{value_text, Value};
use crate::game_state::{first_named_from, models, GameModel, GameState};
use crate::messages::MessageType;
use crate::player::{str_equal, PlayerModel};
use crate::score_hands::{kind_text, ScoredHand};
use crate::table::{any_named, has_name};
use crate::text::{capped_value, chars_of, read_capped, split_words, trim_chars, trimmed, words};

verus! {

/// The question a player's terminal puts to the player.
#[derive(Debug, Clone, Copy, PartialEq, Eq, Structural)]
pub enum TurnPrompt {
    /// None: the player is not at the table, or has nothing to choose.
    Nothing,
    /// The statistics menu, as no other choice is open.
    Stats,
    /// Whether to start the game, put to the dealer.
    StartGame,
    /// Which cards to discard.
    Discard,
    /// Which betting action to take.
    Bet,
    /// Only to press Enter to refresh, while the game goes on.
    Wait,
    /// The dealer's choice of the next variant, or to watch or leave.
    DealerLobby,
    /// Whether to join, watch or leave.
    PlayerLobby,
}

/// Whether the player of the given name is at the table: the name is not empty and
/// is in the lobby, at a seat or among the spectators.
pub open spec fn logged_in(m: GameModel, name: Seq<char>) -> bool {
    &&& name.len() > 0
    &&& has_name(m.lobby, name) || has_name(m.players, name) || has_name(m.spectators, name)
}

/// Whether the player at position `k` of the list has the given name.
pub open spec fn named_at(ps: Seq<PlayerModel>, k: int, name: Seq<char>) -> bool {
    0 <= k < ps.len() && ps[k].player_name == name
}

/// Whether the player of the given name deals: the dealer position names that
/// player among the seated players, or, when no one is seated, in the lobby.
pub open spec fn deals(m: GameModel, name: Seq<char>) -> bool {
    if m.players.len() > 0 {
        named_at(m.players, m.dealer as int, name)
    } else {
        named_at(m.lobby, m.dealer as int, name)
    }
}

/// The question for the player of the given name. A game runs while the pot is
/// not empty and a game has ended once there are winners. The dealer may start a
/// game when at least two are seated and none runs; the current player of a
/// running game chooses cards to discard in a discard round and an action
/// otherwise; between games, or once a game has ended, a seated player of a game
/// still going waits, the dealer chooses the next variant, and any other player
/// chooses to join, watch or leave once a variant is set. With no such choice open
/// the statistics menu is shown.
pub open spec fn turn_prompt(m: GameModel, name: Seq<char>) -> TurnPrompt {
    if !logged_in(m, name) {
        TurnPrompt::Nothing
    } else {
        let running = m.pot != 0;
        let in_game = has_name(m.players, name);
        let current = m.current_player.player_name == name;
        let dealer = deals(m, name);
        let ended = m.winner.len() > 0;
        let can_start = dealer && m.players.len() >= 2 && m.winner.len() == 0;
        if !((can_start && !running) || (running && in_game && current) || !running || ended) {
            TurnPrompt::Stats
        } else if can_start && !running {
            TurnPrompt::StartGame
        } else if running && in_game && current && !ended {
            if m.discard_cards_prompted { TurnPrompt::Discard } else { TurnPrompt::Bet }
        } else if !running || ended {
            if in_game && !ended {
                TurnPrompt::Wait
            } else if dealer {
                TurnPrompt::DealerLobby
            } else if m.game_variant != Seq::<char>::empty() {
                TurnPrompt::PlayerLobby
            } else {
                TurnPrompt::Nothing
            }
        } else {
            TurnPrompt::Nothing
        }
    }
}

/// Only the current player of a running game is asked to act: a player asked to bet
/// or to choose cards to discard is seated, is the current player, and a game is
/// running (the pot is not empty) with no winners yet; the question is which cards
/// to discard exactly in a discard round. A player who is not at the table is asked
/// nothing.
pub proof fn lemma_only_current_player_acts(m: GameModel, name: Seq<char>)
    ensures
        (turn_prompt(m, name) == TurnPrompt::Bet || turn_prompt(m, name) == TurnPrompt::Discard) ==> {
            &&& has_name(m.players, name)
            &&& m.current_player.player_name == name
            &&& m.pot != 0
            &&& m.winner.len() == 0
            &&& (turn_prompt(m, name) == TurnPrompt::Discard <==> m.discard_cards_prompted)
        },
        !logged_in(m, name) ==> turn_prompt(m, name) == TurnPrompt::Nothing,
{
}

/// Whether the player of the given name is at the table: the name is not empty and
/// is in the lobby, at a seat or among the spectators.
pub fn user_logged_in(game_state: &GameState, username: &str) -> (r: bool)
    ensures
        r == logged_in(game_state@, username@),
{
    if username.unicode_len() == 0 {
        return false;
    }
    any_named(&game_state.lobby, username) || any_named(&game_state.players, username)
        || any_named(&game_state.spectators, username)
}

/// Whether the player of the given name deals.
pub fn is_dealer(game_state: &GameState, username: &str) -> (r: bool)
    ensures
        r == deals(game_state@, username@),
{
    let d = game_state.dealer as usize;
    if game_state.players.len() > 0 {
        if d < game_state.players.len() {
            assert(game_state@.players[d as int] == game_state.players@[d as int]@);
            str_equal(game_state.players[d].player_name.as_str(), username)
        } else {
            false
        }
    } else {
        if d < game_state.lobby.len() {
            assert(game_state@.lobby[d as int] == game_state.lobby@[d as int]@);
            str_equal(game_state.lobby[d].player_name.as_str(), username)
        } else {
            false
        }
    }
}

/// The question to put to the player of the given name.
pub fn next_prompt(game_state: &GameState, username: &str) -> (r: TurnPrompt)
    ensures
        r == turn_prompt(game_state@, username@),
{
    if !user_logged_in(game_state, username) {
        return TurnPrompt::Nothing;
    }
    assert(game_state@.current_player.player_name == game_state.current_player.player_name@);
    assert(game_state@.players.len() == game_state.players@.len());
    assert(game_state@.game_variant == game_state.game_variant@);
    assert(game_state@.winner.len() == game_state.winner@.len());
    let running = game_state.pot != 0;
    let in_game = any_named(&game_state.players, username);
    let current = str_equal(game_state.current_player.player_name.as_str(), username);
    let dealer = is_dealer(game_state, username);
    let ended = game_state.winner.len() > 0;
    let can_start = dealer && game_state.players.len() >= 2 && game_state.winner.len() == 0;
    if !((can_start && !running) || (running && in_game && current) || !running || ended) {
        TurnPrompt::Stats
    } else if can_start && !running {
        TurnPrompt::StartGame
    } else if running && in_game && current && !ended {
        if game_state.discard_cards_prompted {
            TurnPrompt::Discard
        } else {
            TurnPrompt::Bet
        }
    } else if !running || ended {
        if in_game && !ended {
            TurnPrompt::Wait
        } else if dealer {
            TurnPrompt::DealerLobby
        } else if game_state.game_variant.as_str().unicode_len() != 0 {
            assert(game_state@.game_variant.len() != 0);
            TurnPrompt::PlayerLobby
        } else {
            assert(game_state@.game_variant =~= Seq::<char>::empty());
            TurnPrompt::Nothing
        }
    } else {
        TurnPrompt::Nothing
    }
}

/// Whether the dealer's answer starts the game: "y", in either case.
pub fn start_confirmed(input: &str) -> (r: bool)
    ensures
        r == (input@ == seq!['y'] || input@ == seq!['Y']),
{
    if input.unicode_len() != 1 {
        return false;
    }
    let c = input.get_char(0);
    assert(input@ =~= seq![c]);
    c == 'y' || c == 'Y'
}

/// What an answer in the lobby asks, as the option and the dealer's choice of
/// variant: the dealer answers 1 to 3 for five card draw, seven card stud or
/// Texas hold'em, 4 to watch and 5 to leave; any other player answers 1 to join,
/// 2 to watch and 3 to leave. The answer is trimmed; any other answer asks
/// nothing.
pub open spec fn lobby_choice(input: Seq<char>, dealer: bool) -> Option<(Seq<char>, Seq<char>)> {
    let t = trimmed(input);
    if dealer {
        if t == seq!['1'] {
            Some(("Join table"@, "Five-Card Draw"@))
        } else if t == seq!['2'] {
            Some(("Join table"@, "Seven-Card Stud"@))
        } else if t == seq!['3'] {
            Some(("Join table"@, "Texas Hold 'Em"@))
        } else if t == seq!['4'] {
            Some(("Spectate game"@, ""@))
        } else if t == seq!['5'] {
            Some(("Leave table"@, ""@))
        } else {
            None
        }
    } else {
        if t == seq!['1'] {
            Some(("Join table"@, ""@))
        } else if t == seq!['2'] {
            Some(("Spectate game"@, ""@))
        } else if t == seq!['3'] {
            Some(("Leave table"@, ""@))
        } else {
            None
        }
    }
}

/// The message an answer in the lobby sends, if it asks anything: the end of
/// round choice of the player, with the dealer's choice of variant.
pub fn lobby_message(input: &str, dealer: bool, username: &str) -> (r: Option<MessageType>)
    ensures
        match lobby_choice(input@, dealer) {
            Some((o, d)) => r matches Some(MessageType::EndRound { option, dealer_option, player_name })
                && option@ == o && dealer_option@ == d && player_name@ == username@,
            None => r is None,
        },
{
    let all = chars_of(input);
    let t = trim_chars(&all);
    let digit: char = if t.len() == 1 { t[0] } else { ' ' };
    proof {
        if t@.len() == 1 {
            assert(t@ =~= seq![digit]);
        }
        assert(t@ == seq!['1'] ==> digit == '1');
        assert(t@ == seq!['2'] ==> digit == '2');
        assert(t@ == seq!['3'] ==> digit == '3');
        assert(t@ == seq!['4'] ==> digit == '4');
        assert(t@ == seq!['5'] ==> digit == '5');
    }
    let (option, choice): (&str, &str) = if dealer {
        if digit == '1' {
            ("Join table", "Five-Card Draw")
        } else if digit == '2' {
            ("Join table", "Seven-Card Stud")
        } else if digit == '3' {
            ("Join table", "Texas Hold 'Em")
        } else if digit == '4' {
            ("Spectate game", "")
        } else if digit == '5' {
            ("Leave table", "")
        } else {
            return None;
        }
    } else {
        if digit == '1' {
            ("Join table", "")
        } else if digit == '2' {
            ("Spectate game", "")
        } else if digit == '3' {
            ("Leave table", "")
        } else {
            return None;
        }
    };
    Some(MessageType::EndRound {
        option: String::from_str(option),
        dealer_option: String::from_str(choice),
        player_name: String::from_str(username),
    })
}

/// A betting action a player's terminal offers.
#[derive(Debug, Clone, Copy, PartialEq, Eq, Structural)]
pub enum BetOption {
    DemoMode,
    Fold,
    Check,
    Call,
    Raise,
}

impl BetOption {
    /// The name the terminal shows and sends for the action.
    pub open spec fn text(self) -> Seq<char> {
        match self {
            BetOption::DemoMode => "Demo Mode"@,
            BetOption::Fold => "Fold"@,
            BetOption::Check => "Check"@,
            BetOption::Call => "Call"@,
            BetOption::Raise => "Raise"@,
        }
    }

    /// The name the terminal shows and sends for the action.
    pub fn name(&self) -> (r: &'static str)
        ensures
            r@ == self.text(),
    {
        match self {
            BetOption::DemoMode => "Demo Mode",
            BetOption::Fold => "Fold",
            BetOption::Check => "Check",
            BetOption::Call => "Call",
            BetOption::Raise => "Raise",
        }
    }
}

/// The actions offered to the current player, in order: demo mode while it is
/// "inactive"; fold always; check when nothing has been bet or the player has put
/// in the highest bet; call when something has been bet, the player's balance
/// covers the rest and the player has put in less; raise when the player has money
/// and the balance and the amount put in reach the least raise.
pub open spec fn bet_options(m: GameModel) -> Seq<BetOption> {
    let p = m.current_player;
    let placed = p.placed();
    let hb = m.highest_bet;
    (if m.demo_mode == "inactive"@ { seq![BetOption::DemoMode] } else { Seq::<BetOption>::empty() })
        + seq![BetOption::Fold]
        + (if hb == 0 || placed == hb { seq![BetOption::Check] } else { Seq::<BetOption>::empty() })
        + (if hb > 0 && p.player_money >= hb - placed && placed < hb {
            seq![BetOption::Call]
        } else {
            Seq::<BetOption>::empty()
        })
        + (if p.player_money > 0 && p.player_money + placed >= m.raise_min_max.0 {
            seq![BetOption::Raise]
        } else {
            Seq::<BetOption>::empty()
        })
}

/// Folding is always offered, and checking and calling are never offered together:
/// a check is offered exactly when nothing has been bet or the current player has
/// put in the highest bet, and a call only when the player has put in less than a
/// highest bet above nothing.
pub proof fn lemma_check_and_call_exclusive(m: GameModel)
    ensures
        bet_options(m).contains(BetOption::Fold),
        !(bet_options(m).contains(BetOption::Check) && bet_options(m).contains(BetOption::Call)),
        bet_options(m).contains(BetOption::Check) <==> (m.highest_bet == 0 || m.current_player.placed() == m.highest_bet),
        bet_options(m).contains(BetOption::Call) ==> 0 < m.highest_bet && m.current_player.placed() < m.highest_bet,
{
    let p = m.current_player;
    let placed = p.placed();
    let hb = m.highest_bet;
    let a = if m.demo_mode == "inactive"@ { seq![BetOption::DemoMode] } else { Seq::<BetOption>::empty() };
    let b = seq![BetOption::Fold];
    let c = if hb == 0 || placed == hb { seq![BetOption::Check] } else { Seq::<BetOption>::empty() };
    let d = if hb > 0 && p.player_money >= hb - placed && placed < hb {
        seq![BetOption::Call]
    } else {
        Seq::<BetOption>::empty()
    };
    let e = if p.player_money > 0 && p.player_money + placed >= m.raise_min_max.0 {
        seq![BetOption::Raise]
    } else {
        Seq::<BetOption>::empty()
    };
    let all = a + b + c + d + e;
    assert(all == bet_options(m));
    assert(all[a.len() as int] == BetOption::Fold);
    assert forall|x: BetOption| #[trigger] all.contains(x) <==> (a.contains(x) || b.contains(x) || c.contains(x)
        || d.contains(x) || e.contains(x)) by {
        if all.contains(x) {
            let i = choose|i: int| 0 <= i < all.len() && all[i] == x;
            if i < a.len() {
                assert(a[i] == x);
            } else if i < a.len() + b.len() {
                assert(b[i - a.len()] == x);
            } else if i < a.len() + b.len() + c.len() {
                assert(c[i - a.len() - b.len()] == x);
            } else if i < a.len() + b.len() + c.len() + d.len() {
                assert(d[i - a.len() - b.len() - c.len()] == x);
            } else {
                assert(e[i - a.len() - b.len() - c.len() - d.len()] == x);
            }
        }
        if a.contains(x) {
            let i = choose|i: int| 0 <= i < a.len() && a[i] == x;
            assert(all[i] == x);
        }
        if b.contains(x) {
            assert(all[a.len() as int] == x);
        }
        if c.contains(x) {
            assert(all[(a.len() + b.len()) as int] == x);
        }
        if d.contains(x) {
            assert(all[(a.len() + b.len() + c.len()) as int] == x);
        }
        if e.contains(x) {
            assert(all[(a.len() + b.len() + c.len() + d.len()) as int] == x);
        }
    }
    if c.contains(BetOption::Check) {
        assert(c.len() > 0);
    }
    if d.contains(BetOption::Call) {
        assert(d.len() > 0);
    }
    if hb == 0 || placed == hb {
        assert(c[0] == BetOption::Check);
    }
}

/// The actions offered to the current player.
pub fn offered_actions(game_state: &GameState) -> (r: Vec<BetOption>)
    requires
        game_state.highest_bet > 0 ==> game_state@.current_player.placed() <= game_state.highest_bet,
        game_state.current_player.player_money > 0
            ==> game_state.current_player.player_money + game_state@.current_player.placed() <= u32::MAX,
    ensures
        r@ == bet_options(game_state@),
{
    let p = &game_state.current_player;
    let placed = p.player_choices.placed_amount_now();
    let hb = game_state.highest_bet;
    let mut options: Vec<BetOption> = Vec::new();
    proof { reveal_strlit("inactive"); }
    if str_equal(game_state.demo_mode.as_str(), "inactive") {
        options.push(BetOption::DemoMode);
    }
    options.push(BetOption::Fold);
    if hb == 0 || placed == hb {
        options.push(BetOption::Check);
    }
    if hb > 0 && p.player_money >= hb - placed && placed < hb {
        options.push(BetOption::Call);
    }
    if p.player_money > 0 && p.player_money + placed >= game_state.raise_min_max.0 {
        options.push(BetOption::Raise);
    }
    assert(options@ =~= bet_options(game_state@));
    options
}

/// The action an answer picks: the answer read as a number from 1 to the number
/// of actions offered picks that action; any other answer picks none.
pub open spec fn picked_option(input: Seq<char>, options: Seq<BetOption>) -> Option<BetOption> {
    match capped_value(input, options.len() as int) {
        Some(v) => if v >= 1 { Some(options[v - 1]) } else { None },
        None => None,
    }
}

/// The action an answer picks among those offered.
pub fn pick_option(input: &str, options: &Vec<BetOption>) -> (r: Option<BetOption>)
    ensures
        r == picked_option(input@, options@),
{
    let cs = chars_of(input);
    match read_capped(&cs, options.len() as u64) {
        Some(v) => {
            if v >= 1 {
                Some(options[(v - 1) as usize])
            } else {
                None
            }
        },
        None => None,
    }
}

/// The raise an answer asks for: the answer read as a number (the least raise when
/// it is not one), when it lies between the least and the greatest raise.
pub open spec fn raise_answer(input: Seq<char>, min: u32, max: u32) -> Option<u32> {
    let v = match capped_value(input, u32::MAX as int) {
        Some(x) => x,
        None => min as int,
    };
    if min <= v <= max { Some(v as u32) } else { None }
}

/// The raise an answer asks for, if it lies between the least and the greatest.
pub fn read_raise(input: &str, min: u32, max: u32) -> (r: Option<u32>)
    ensures
        r == raise_answer(input@, min, max),
{
    let cs = chars_of(input);
    let v: u32 = match read_capped(&cs, 0xffff_ffffu64) {
        Some(x) => x as u32,
        None => min,
    };
    if min <= v && v <= max {
        Some(v)
    } else {
        None
    }
}

/// The message a chosen action sends: demo mode is turned on for the player;
/// any other action is sent with its name and the amount.
pub fn action_message(option: BetOption, username: &str, amount: u32) -> (r: MessageType)
    ensures
        option == BetOption::DemoMode ==> (r matches MessageType::DemoMode { player_name, status }
            && player_name@ == username@ && status@ == "active"@),
        option != BetOption::DemoMode ==> (r matches MessageType::PlayerAction { action, player_name, bet_amount }
            && action@ == option.text() && player_name@ == username@ && bet_amount == amount),
{
    match option {
        BetOption::DemoMode => MessageType::DemoMode {
            player_name: String::from_str(username),
            status: String::from_str("active"),
        },
        _ => MessageType::PlayerAction {
            action: String::from_str(option.name()),
            player_name: String::from_str(username),
            bet_amount: amount,
        },
    }
}

/// Whether some word of the list reads as the number `k`, counting numbers no
/// greater than `n`.
pub open spec fn some_word_names(ws: Seq<Seq<char>>, n: int, k: int) -> bool {
    exists|i: int| 0 <= i < ws.len() && #[trigger] capped_value(ws[i], n) == Some(k)
}

/// The positions (from 0) among the first `k` of a hand of `n` cards that some
/// word names by number (from 1), in increasing order.
pub open spec fn named_positions(ws: Seq<Seq<char>>, n: int, k: int) -> Seq<usize>
    decreases k,
{
    if k <= 0 {
        Seq::empty()
    } else {
        named_positions(ws, n, k - 1) + if some_word_names(ws, n, k) {
            seq![(k - 1) as usize]
        } else {
            Seq::<usize>::empty()
        }
    }
}

/// The positions of the cards an answer asks to discard from a hand of `n` cards:
/// each word of the answer that reads as a number from 1 to `n` names the card at
/// that number; the positions (from 0) come once each, in increasing order.
pub fn discard_selection(input: &str, n: usize) -> (r: Vec<usize>)
    requires
        n < usize::MAX,
    ensures
        r@ == named_positions(words(input@), n as int, n as int),
{
    let cs = chars_of(input);
    let ws = split_words(&cs);
    let ghost wv = words(input@);
    let mut marks: Vec<bool> = Vec::new();
    let mut k: usize = 0;
    while k <= n
        invariant
            0 <= k <= n + 1,
            n < usize::MAX,
            marks@.len() == k,
            forall|j: int| 0 <= j < k ==> !#[trigger] marks@[j],
        decreases n + 1 - k,
    {
        marks.push(false);
        k = k + 1;
    }
    let mut i: usize = 0;
    while i < ws.len()
        invariant
            0 <= i <= ws@.len(),
            n < usize::MAX,
            wv == words(cs@),
            ws@.len() == wv.len(),
            forall|j: int| 0 <= j < ws@.len() ==> #[trigger] ws@[j]@ == wv[j],
            marks@.len() == n + 1,
            forall|j: int| 1 <= j <= n ==> #[trigger] marks@[j]
                == exists|w: int| 0 <= w < i && #[trigger] capped_value(wv[w], n as int) == Some(j),
        decreases ws@.len() - i,
    {
        let got = read_capped(&ws[i], n as u64);
        let ghost before = marks@;
        match got {
            Some(v) => {
                if v >= 1 {
                    marks.set(v as usize, true);
                }
            },
            None => {},
        }
        proof {
            assert(ws@[i as int]@ == wv[i as int]);
            assert forall|j: int| 1 <= j <= n implies #[trigger] marks@[j]
                == exists|w: int| 0 <= w < i + 1 && #[trigger] capped_value(wv[w], n as int) == Some(j) by {
                if capped_value(wv[i as int], n as int) == Some(j) {
                    assert(marks@[j]);
                } else if before[j] {
                    let w = choose|w: int| 0 <= w < i && #[trigger] capped_value(wv[w], n as int) == Some(j);
                    assert(0 <= w < i + 1);
                } else {
                    assert(!marks@[j]);
                    assert forall|w: int| 0 <= w < i + 1 implies #[trigger] capped_value(wv[w], n as int) != Some(j) by {
                        if w < i {
                            assert(!before[j]);
                        }
                    }
                }
            }
        }
        i = i + 1;
    }
    let mut picked: Vec<usize> = Vec::new();
    let mut k: usize = 1;
    while k <= n
        invariant
            1 <= k <= n + 1,
            n < usize::MAX,
            marks@.len() == n + 1,
            forall|j: int| 1 <= j <= n ==> #[trigger] marks@[j] == some_word_names(wv, n as int, j),
            picked@ == named_positions(wv, n as int, k - 1),
        decreases n + 1 - k,
    {
        if marks[k] {
            picked.push(k - 1);
        }
        assert(marks@[k as int] == some_word_names(wv, n as int, k as int));
        k = k + 1;
    }
    picked
}

/// The message a discard answer sends for the player of the given name, whose
/// seat is the first with that name: the positions the answer names in that
/// player's hand. An empty answer only refreshes the screen and sends nothing.
pub fn discard_message(game_state: &GameState, username: &str, input: &str) -> (r: Option<MessageType>)
    requires
        first_named_from(game_state@.players, username@, 0) matches Some(k)
            && game_state@.players[k].hand.len() < usize::MAX,
    ensures
        input@.len() == 0 ==> r is None,
        input@.len() > 0 ==> (r matches Some(MessageType::DiscardAction { player_name, card_index })
            && player_name@ == username@
            && card_index@ == named_positions(words(input@),
                game_state@.players[first_named_from(game_state@.players, username@, 0)->0].hand.len() as int,
                game_state@.players[first_named_from(game_state@.players, username@, 0)->0].hand.len() as int)),
{
    if input.unicode_len() == 0 {
        return None;
    }
    let k = game_state.position_by_name(username).unwrap();
    assert(game_state@.players[k as int] == game_state.players@[k as int]@);
    let n = game_state.players[k].player_hand.cards.len();
    let selected = discard_selection(input, n);
    Some(MessageType::DiscardAction { player_name: String::from_str(username), card_index: selected })
}

/// The text of a score as a player's screen shows it: the kind's name, a colon,
/// and the five values' screen characters separated by commas.
pub open spec fn screen_score_text(s: ScoredHand) -> Seq<char> {
    let v = s.values();
    kind_text(s.rank_spec())@ + ": "@ + seq![v[0].screen_char()] + ", "@ + seq![v[1].screen_char()]
        + ", "@ + seq![v[2].screen_char()] + ", "@ + seq![v[3].screen_char()] + ", "@
        + seq![v[4].screen_char()]
}

/// The winners' names, each followed by a comma and a space.
pub open spec fn winner_names(ws: Seq<(PlayerModel, ScoredHand)>) -> Seq<char>
    decreases ws.len(),
{
    if ws.len() == 0 {
        Seq::empty()
    } else {
        winner_names(ws.drop_last()) + ws.last().0.player_name + ", "@
    }
}

/// The text telling a player who won: with several winners, the last action's text
/// and the winners' names; with one, that the player won, or who did, with the
/// winning hand.
pub open spec fn winners_text(m: GameModel, viewer: Seq<char>) -> Seq<char> {
    if m.winner.len() > 1 {
        m.current_action_string + "\nThe winners are: "@ + winner_names(m.winner) + "\n"@
    } else if m.winner[0].0.player_name == viewer {
        "The sole winner was you with the winning hand: "@ + screen_score_text(m.winner[0].1) + "\n"@
    } else {
        "The sole winner was "@ + m.winner[0].0.player_name + " with the winning hand: "@
            + screen_score_text(m.winner[0].1) + "\n"@
    }
}

/// The screen character of a value, as text.
fn screen_value_text(v: Value) -> (s: &'static str)
    ensures
        s@ == seq![v.screen_char()],
{
    if v == Value::AceLow {
        proof { reveal_strlit("A"); }
        "A"
    } else {
        value_text(v)
    }
}

/// The text of a score as a player's screen shows it.
pub fn screen_score(s: &ScoredHand) -> (r: String)
    ensures
        r@ == screen_score_text(*s),
{
    let v = s.get_values();
    let t = String::from_str(s.kind_name());
    let t = t.concat(": ");
    let t = t.concat(screen_value_text(v[0]));
    let t = t.concat(", ");
    let t = t.concat(screen_value_text(v[1]));
    let t = t.concat(", ");
    let t = t.concat(screen_value_text(v[2]));
    let t = t.concat(", ");
    let t = t.concat(screen_value_text(v[3]));
    let t = t.concat(", ");
    t.concat(screen_value_text(v[4]))
}

/// The text telling the viewer who won the game.
pub fn print_winners(game_state: &GameState, viewer_username: &str) -> (r: String)
    requires
        game_state.winner@.len() > 0,
    ensures
        r@ == winners_text(game_state@, viewer_username@),
{
    let ghost ws = game_state@.winner;
    assert(ws.len() == game_state.winner@.len());
    assert(ws[0] == (game_state.winner@[0].0@, game_state.winner@[0].1));
    if game_state.winner.len() > 1 {
        let mut t = game_state.current_action_string.clone();
        t = t.concat("\nThe winners are: ");
        let ghost head = t@;
        let mut i: usize = 0;
        while i < game_state.winner.len()
            invariant
                0 <= i <= game_state.winner@.len(),
                ws == game_state@.winner,
                ws.len() == game_state.winner@.len(),
                t@ == head + winner_names(ws.take(i as int)),
            decreases game_state.winner@.len() - i,
        {
            assert(ws[i as int] == (game_state.winner@[i as int].0@, game_state.winner@[i as int].1));
            assert(ws.take(i + 1).drop_last() =~= ws.take(i as int));
            t = t.concat(game_state.winner[i].0.player_name.as_str());
            t = t.concat(", ");
            i = i + 1;
        }
        assert(ws.take(ws.len() as int) =~= ws);
        t.concat("\n")
    } else if str_equal(game_state.winner[0].0.player_name.as_str(), viewer_username) {
        let t = String::from_str("The sole winner was you with the winning hand: ");
        let t = t.concat(screen_score(&game_state.winner[0].1).as_str());
        t.concat("\n")
    } else {
        let t = String::from_str("The sole winner was ");
        let t = t.concat(game_state.winner[0].0.player_name.as_str());
        let t = t.concat(" with the winning hand: ");
        let t = t.concat(screen_score(&game_state.winner[0].1).as_str());
        t.concat("\n")
    }
}

} // verus!
