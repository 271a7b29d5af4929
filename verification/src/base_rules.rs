//! The rules of a table played from one terminal: players found by id, a pot paid
//! out by hand, and blinds taken from the two seats after the dealer.

use vstd::prelude::*;
use crate::card::Card;
use crate::deck::{standard_cards, Deck};
use crate::game_state::{clone_players, models, remaining};
use crate::hand::dealt;
use crate::player::{Player, PlayerModel};
use crate::score_hands::ScoredHand;

verus! {

/// Input for a prompt: a queue of answers to read in order, or none, in which case
/// the answers are read from the terminal.
#[derive(Debug)]
pub enum TestInput {
    Input(Vec<String>),
    Empty,
}

/// Whether a saved game was found.
pub enum LoadState {
    GameExist(GameState),
    Empty,
}

/// The state of a table played from one terminal.
#[derive(Debug)]
pub struct GameState {
    pub game_variant: String,
    pub players: Vec<Player>,
    pub deck: Deck,
    pub game_id: u32,
    pub hand_size: u8,
    pub max_players: i64,
    pub pot: u32,
    pub stage_number: u32,
    pub round_number: u32,
    pub minimum_bet: u32,
    pub highest_bet: u32,
    pub dealer: u32,
    pub winner: Vec<Player>,
}

/// Everything such a table holds, as plain values.
pub struct TableModel {
    pub game_variant: Seq<char>,
    pub players: Seq<PlayerModel>,
    pub deck: Seq<Card>,
    pub game_id: u32,
    pub hand_size: u8,
    pub max_players: i64,
    pub pot: u32,
    pub stage_number: u32,
    pub round_number: u32,
    pub minimum_bet: u32,
    pub highest_bet: u32,
    pub dealer: u32,
    pub winner: Seq<PlayerModel>,
}

impl View for GameState {
    type V = TableModel;

    open spec fn view(&self) -> TableModel {
        TableModel {
            game_variant: self.game_variant@,
            players: models(self.players@),
            deck: self.deck@,
            game_id: self.game_id,
            hand_size: self.hand_size,
            max_players: self.max_players,
            pot: self.pot,
            stage_number: self.stage_number,
            round_number: self.round_number,
            minimum_bet: self.minimum_bet,
            highest_bet: self.highest_bet,
            dealer: self.dealer,
            winner: models(self.winner@),
        }
    }
}

/// Whether `m` is a new table with the given id: no players or winners, a full
/// deck, no variant, an empty pot, a minimum bet of 10, no highest bet, and the
/// dealer at the first seat.
pub open spec fn is_new_table(m: TableModel, id: u32) -> bool {
    &&& m.game_variant == Seq::<char>::empty()
    &&& m.players == Seq::<PlayerModel>::empty()
    &&& m.deck.len() == 52
    &&& m.deck.to_multiset() == standard_cards().to_multiset()
    &&& m.game_id == id
    &&& m.pot == 0
    &&& m.round_number == 0
    &&& m.minimum_bet == 10
    &&& m.highest_bet == 0
    &&& m.dealer == 0
    &&& m.winner == Seq::<PlayerModel>::empty()
}

/// The first seat from `i` on whose player has the given id.
pub open spec fn first_with_id(ps: Seq<PlayerModel>, id: u32, i: int) -> Option<int>
    decreases ps.len() - i,
{
    if i < 0 || i >= ps.len() {
        None
    } else if ps[i].player_id == id {
        Some(i)
    } else {
        first_with_id(ps, id, i + 1)
    }
}

/// The player with `amount` more money.
pub open spec fn credited(p: PlayerModel, amount: int) -> PlayerModel {
    PlayerModel { player_money: (p.player_money + amount) as u32, ..p }
}

/// The players after the first `n` ids of the list are each paid `share`, the
/// first player with that id taking it; an id no player has pays nothing.
pub open spec fn split_scan(ps: Seq<PlayerModel>, ids: Seq<u32>, share: u32, n: int) -> Seq<PlayerModel>
    decreases n,
{
    if n <= 0 {
        ps
    } else {
        let prev = split_scan(ps, ids, share, n - 1);
        match first_with_id(ps, ids[n - 1], 0) {
            Some(k) => prev.update(k, credited(prev[k], share as int)),
            None => prev,
        }
    }
}

/// Whether paying the first `n` ids of the list `share` each overflows no balance.
pub open spec fn split_payable(ps: Seq<PlayerModel>, ids: Seq<u32>, share: u32, n: int) -> bool
    decreases n,
{
    if n <= 0 {
        true
    } else {
        split_payable(ps, ids, share, n - 1) && match first_with_id(ps, ids[n - 1], 0) {
            Some(k) => split_scan(ps, ids, share, n - 1)[k].player_money + share <= u32::MAX,
            None => true,
        }
    }
}

/// A player after taking the pot `pot` when the player's id is the winner's: a win,
/// a game, the pot as earnings and money and as this round's win; any other player
/// counts a loss and a game and wins nothing this round.
pub open spec fn after_pot(p: PlayerModel, winner_id: u32, pot: u32) -> PlayerModel {
    if p.player_id == winner_id {
        PlayerModel {
            total_wins: (p.total_wins + 1) as u32,
            total_games: (p.total_games + 1) as u32,
            total_earnings: (p.total_earnings + pot) as u32,
            player_money: (p.player_money + pot) as u32,
            round_win: pot,
            ..p
        }
    } else {
        PlayerModel {
            total_losses: (p.total_losses + 1) as u32,
            total_games: (p.total_games + 1) as u32,
            round_win: 0,
            ..p
        }
    }
}

/// Whether taking the pot overflows no count of the player.
pub open spec fn pot_payable(p: PlayerModel, winner_id: u32, pot: u32) -> bool {
    if p.player_id == winner_id {
        p.total_wins + 1 <= u32::MAX && p.total_games + 1 <= u32::MAX && p.total_earnings + pot <= u32::MAX
            && p.player_money + pot <= u32::MAX
    } else {
        p.total_losses + 1 <= u32::MAX && p.total_games + 1 <= u32::MAX
    }
}

/// A player after `n` single draws of a face-down card from the deck into the
/// hand; a draw into a full hand, or from an empty deck, changes nothing.
pub open spec fn draws(p: PlayerModel, deck: Seq<Card>, n: int) -> (PlayerModel, Seq<Card>)
    decreases n,
{
    if n <= 0 {
        (p, deck)
    } else {
        let (q, d) = draws(p, deck, n - 1);
        if q.hand.len() % 256 + 1 > q.hand_limit || d.len() % 256 < 1 {
            (q, d)
        } else {
            (PlayerModel { hand: q.hand + dealt(d, 1, false), ..q }, d.take(d.len() - 1))
        }
    }
}

/// The players and the deck after each player in seat order, from the first `n`
/// seats, draws `k` cards.
pub open spec fn deal_each(ps: Seq<PlayerModel>, deck: Seq<Card>, k: int, n: int) -> (Seq<PlayerModel>, Seq<Card>)
    decreases n,
{
    if n <= 0 {
        (ps, deck)
    } else {
        let (qs, d) = deal_each(ps, deck, k, n - 1);
        let (q, d2) = draws(qs[n - 1], d, k);
        (qs.update(n - 1, q), d2)
    }
}

/// The players and the pot after the player at seat `idx` puts `amount` in as a
/// blind: the first player with that seat's id pays it into the pot, and the seat's
/// pot entry and wager grow by it.
pub open spec fn blind_put(ps: Seq<PlayerModel>, pot: u32, idx: int, amount: u32) -> (Seq<PlayerModel>, u32) {
    match first_with_id(ps, ps[idx].player_id, 0) {
        Some(k) => {
            let ps1 = ps.update(k, PlayerModel { player_money: (ps[k].player_money - amount) as u32, ..ps[k] });
            (ps1.update(idx, placed_more(ps1[idx], amount)), (pot + amount) as u32)
        },
        None => (ps, pot),
    }
}

/// The player with `amount` more placed in the pot this round and wagered this game.
pub open spec fn placed_more(p: PlayerModel, amount: u32) -> PlayerModel {
    PlayerModel {
        choices: crate::player::PlayerChoices { placed_in_pot: Some((p.placed() + amount) as u32), ..p.choices },
        total_wagered_per_game: (p.total_wagered_per_game + amount) as u32,
        ..p
    }
}

/// Whether a blind of `amount` from seat `idx` can be put in without overflow and
/// with the paying player's balance covering it.
pub open spec fn blind_payable(ps: Seq<PlayerModel>, pot: u32, idx: int, amount: u32) -> bool {
    match first_with_id(ps, ps[idx].player_id, 0) {
        Some(k) => {
            let ps1 = ps.update(k, PlayerModel { player_money: (ps[k].player_money - amount) as u32, ..ps[k] });
            &&& ps[k].player_money >= amount
            &&& pot + amount <= u32::MAX
            &&& ps1[idx].placed() + amount <= u32::MAX
            &&& ps1[idx].total_wagered_per_game + amount <= u32::MAX
        },
        None => true,
    }
}

/// The table after the player at seat `k` is recorded as the winner and takes the
/// whole pot, paid by id as `give_pot` pays.
pub open spec fn sole_payout(m: TableModel, k: int) -> TableModel {
    TableModel {
        players: m.players.map_values(|p: PlayerModel| after_pot(p, m.players[k].player_id, m.pot)),
        pot: 0,
        winner: m.winner.push(m.players[k]),
        ..m
    }
}

/// The players found for a list of ids, in order: for each id the first player
/// with it; an id no player has adds nobody.
pub open spec fn found_by_ids(ps: Seq<PlayerModel>, ids: Seq<u32>) -> Seq<PlayerModel>
    decreases ids.len(),
{
    if ids.len() == 0 {
        Seq::empty()
    } else {
        found_by_ids(ps, ids.drop_last()) + match first_with_id(ps, ids.last(), 0) {
            Some(k) => seq![ps[k]],
            None => Seq::<PlayerModel>::empty(),
        }
    }
}

/// The ids (seat numbers or player ids) named by a list of winners.
pub open spec fn winner_ids(ws: Seq<(u32, ScoredHand)>) -> Seq<u32> {
    ws.map_values(|w: (u32, ScoredHand)| w.0)
}

/// The seat that takes the whole pot in a pay-out, if any: the first winner's seat,
/// when it is on the table and either at most one player is left or there is a
/// single winner.
pub open spec fn sole_seat(m: TableModel, ws: Seq<(u32, ScoredHand)>) -> Option<int> {
    if ws.len() > 0 && (crate::game_state::remaining(m.players) <= 1 || ws.len() == 1) && ws[0].0 < m.players.len() {
        Some(ws[0].0 as int)
    } else {
        None
    }
}

/// The table after a tie: the players found for the winners' ids are added to the
/// winners, the pot is split among those ids as `split_pot` splits it, and emptied.
pub open spec fn tie_payout(m: TableModel, ws: Seq<(u32, ScoredHand)>) -> TableModel {
    let ids = winner_ids(ws);
    TableModel {
        players: if ids.len() > 0 {
            split_scan(m.players, ids, (m.pot as int / ids.len() as int) as u32, ids.len() as int)
        } else {
            m.players
        },
        pot: 0,
        winner: m.winner + found_by_ids(m.players, ids),
        ..m
    }
}

/// Whether a pay-out of the winners `ws` runs without a failure: a first winner is
/// there when at most one player is left; a sole winner's pot overflows no count; in
/// a tie some winner is recorded to share the pot among and no balance overflows.
pub open spec fn pay_out_ready(m: TableModel, ws: Seq<(u32, ScoredHand)>) -> bool {
    &&& crate::game_state::remaining(m.players) <= 1 ==> ws.len() > 0
    &&& sole_seat(m, ws) matches Some(k) ==> forall|j: int| 0 <= j < m.players.len()
        ==> #[trigger] pot_payable(m.players[j], m.players[k].player_id, m.pot)
    &&& (sole_seat(m, ws) is None && ws.len() != 1) ==> {
        &&& ws.len() <= u32::MAX
        &&& 0 < m.winner.len() + found_by_ids(m.players, winner_ids(ws)).len() <= u32::MAX
        &&& ws.len() > 0 ==> split_payable(m.players, winner_ids(ws),
            (m.pot as int / ws.len() as int) as u32, ws.len() as int)
    }
}

impl GameState {
    /// A new table with the given id: hands of five, at most five players, a
    /// minimum bet of 10, a newly shuffled deck, and the first stage not yet begun.
    pub fn empty_constructor(id: u32) -> (r: GameState)
        ensures
            is_new_table(r@, id),
            r.hand_size == 5,
            r.max_players == 5,
            r.stage_number == 0,
    {
        let r = GameState {
            players: Vec::new(),
            deck: Deck::new(),
            game_variant: String::new(),
            game_id: id,
            hand_size: 5,
            max_players: 5,
            pot: 0,
            stage_number: 0,
            round_number: 0,
            minimum_bet: 10,
            highest_bet: 0,
            dealer: 0,
            winner: Vec::new(),
        };
        assert(models(r.players@) =~= Seq::<PlayerModel>::empty());
        assert(models(r.winner@) =~= Seq::<PlayerModel>::empty());
        r
    }

    /// A new game with the given id: no hand size or player limit set yet, a
    /// minimum bet of 10, a newly shuffled deck, at the first stage.
    pub fn new_game(id: u32) -> (r: GameState)
        ensures
            is_new_table(r@, id),
            r.hand_size == 0,
            r.max_players == 0,
            r.stage_number == 1,
    {
        let r = GameState {
            players: Vec::new(),
            deck: Deck::new(),
            game_id: id,
            game_variant: String::new(),
            hand_size: 0,
            max_players: 0,
            pot: 0,
            stage_number: 1,
            round_number: 0,
            minimum_bet: 10,
            highest_bet: 0,
            dealer: 0,
            winner: Vec::new(),
        };
        assert(models(r.players@) =~= Seq::<PlayerModel>::empty());
        assert(models(r.winner@) =~= Seq::<PlayerModel>::empty());
        r
    }

    pub fn set_game_id(&mut self, new_game_id: u32)
        ensures
            final(self)@ == (TableModel { game_id: new_game_id, ..old(self)@ }),
    {
        self.game_id = new_game_id;
    }

    pub fn get_game_id(&self) -> (r: &u32)
        ensures
            *r == self.game_id,
    {
        &self.game_id
    }

    /// Raises the highest bet to `new_bet` when that is higher, and says whether it
    /// did.
    pub fn set_highest_bet(&mut self, new_bet: u32) -> (r: bool)
        ensures
            r == (new_bet > old(self).highest_bet),
            r ==> final(self)@ == (TableModel { highest_bet: new_bet, ..old(self)@ }),
            !r ==> final(self)@ == old(self)@,
    {
        if new_bet > self.highest_bet {
            self.highest_bet = new_bet;
            return true;
        }
        false
    }

    pub fn get_highest_bet(&self) -> (r: &u32)
        ensures
            *r == self.highest_bet,
    {
        &self.highest_bet
    }

    pub fn get_variant(&self) -> (r: &str)
        ensures
            r@ == self.game_variant@,
    {
        self.game_variant.as_str()
    }

    pub fn set_variant(&mut self, var: &String)
        ensures
            final(self)@ == (TableModel { game_variant: var@, ..old(self)@ }),
    {
        self.game_variant = var.clone();
    }

    /// The number of players at the table.
    pub fn players_in_game(&self) -> (r: u8)
        requires
            self.players@.len() <= 255,
        ensures
            r == self.players@.len(),
    {
        self.players.len() as u8
    }

    pub fn players(&self) -> (r: &Vec<Player>)
        ensures
            r == &self.players,
    {
        &self.players
    }

    pub fn deck(&self) -> (r: &Deck)
        ensures
            r == &self.deck,
    {
        &self.deck
    }

    /// Seats a player, or refuses with "Unable to push" when five are seated.
    pub fn insert_player(&mut self, player: &Player) -> (r: Result<(), String>)
        ensures
            old(self).players@.len() >= 5 ==> final(self)@ == old(self)@
                && (r matches Err(e) && e@ == "Unable to push"@),
            old(self).players@.len() < 5 ==> r is Ok
                && final(self)@ == (TableModel { players: old(self)@.players.push(player@), ..old(self)@ }),
    {
        if 5 <= self.players.len() {
            return Err(String::from_str("Unable to push"));
        }
        let ghost before = self.players@;
        self.players.push(player.clone());
        assert(models(self.players@) =~= models(before).push(player@));
        Ok(())
    }

    /// The first seat whose player has the given id.
    fn position_by_id(&self, p_id: u32) -> (r: Option<usize>)
        ensures
            r matches Some(k) ==> k < self.players@.len() && first_with_id(self@.players, p_id, 0) == Some(k as int),
            r is None ==> first_with_id(self@.players, p_id, 0) is None,
    {
        let mut i: usize = 0;
        while i < self.players.len()
            invariant
                0 <= i <= self.players@.len(),
                first_with_id(self@.players, p_id, i as int) == first_with_id(self@.players, p_id, 0),
            decreases self.players@.len() - i,
        {
            if self.players[i].player_id == p_id {
                return Some(i);
            }
            i = i + 1;
        }
        None
    }

    /// Unseats the first player with the given id, and says whether there was one.
    pub fn remove_player(&mut self, p_id: u32) -> (r: bool)
        ensures
            r == first_with_id(old(self)@.players, p_id, 0) is Some,
            first_with_id(old(self)@.players, p_id, 0) matches Some(k)
                ==> final(self)@ == (TableModel { players: old(self)@.players.remove(k), ..old(self)@ }),
            first_with_id(old(self)@.players, p_id, 0) is None ==> final(self)@ == old(self)@,
    {
        if let Some(index) = self.position_by_id(p_id) {
            let ghost before = self.players@;
            self.players.remove(index);
            assert(models(self.players@) =~= models(before).remove(index as int));
            return true;
        }
        false
    }

    /// Moves the dealer one seat on, wrapping round the table.
    pub fn rotate_blinds(&mut self)
        requires
            0 < old(self).players@.len() <= u32::MAX,
            old(self).dealer + 1 <= u32::MAX,
        ensures
            final(self)@ == (TableModel {
                dealer: ((old(self).dealer + 1) % (old(self).players@.len() as int)) as u32,
                ..old(self)@
            }),
    {
        let n = self.players.len() as u32;
        self.dealer = (self.dealer + 1) % n;
    }

    /// The first player with the given id pays `amount` into the pot; an id no
    /// player has changes nothing.
    pub fn put_into_pot(&mut self, p_id: u32, amount: u32)
        requires
            first_with_id(old(self)@.players, p_id, 0) matches Some(k)
                ==> old(self)@.players[k].player_money >= amount && old(self).pot + amount <= u32::MAX,
        ensures
            first_with_id(old(self)@.players, p_id, 0) is None ==> final(self)@ == old(self)@,
            first_with_id(old(self)@.players, p_id, 0) matches Some(k) ==> final(self)@ == (TableModel {
                players: old(self)@.players.update(k, credited(old(self)@.players[k], -(amount as int))),
                pot: (old(self).pot + amount) as u32,
                ..old(self)@
            }),
    {
        if let Some(index) = self.position_by_id(p_id) {
            let ghost ps = self@.players;
            self.players[index].remove_money(amount);
            self.pot = self.pot + amount;
            assert(models(self.players@) =~= ps.update(index as int, credited(ps[index as int], -(amount as int))));
        }
    }

    /// Gives the whole pot to the players with the given id: each counts a win and
    /// a game and takes the pot as money, earnings and this round's win; every other
    /// player counts a loss and a game. The pot is emptied when a player had the id.
    pub fn give_pot(&mut self, p_id: u32)
        requires
            forall|k: int| 0 <= k < old(self).players@.len()
                ==> #[trigger] pot_payable(old(self)@.players[k], p_id, old(self).pot),
        ensures
            final(self)@ == (TableModel {
                players: old(self)@.players.map_values(|p: PlayerModel| after_pot(p, p_id, old(self).pot)),
                pot: if exists|k: int| 0 <= k < old(self).players@.len() && #[trigger] old(self)@.players[k].player_id == p_id {
                    0
                } else {
                    old(self).pot
                },
                ..old(self)@
            }),
    {
        let ghost start = self@;
        let mut winner_found = false;
        let mut i: usize = 0;
        while i < self.players.len()
            invariant
                0 <= i <= self.players@.len(),
                self.players@.len() == start.players.len(),
                self@ == (TableModel { players: models(self.players@), ..start }),
                forall|k: int| 0 <= k < start.players.len() ==> #[trigger] pot_payable(start.players[k], p_id, start.pot),
                forall|k: int| 0 <= k < i ==> #[trigger] self.players@[k]@ == after_pot(start.players[k], p_id, start.pot),
                forall|k: int| i <= k < start.players.len() ==> #[trigger] self.players@[k]@ == start.players[k],
                winner_found == exists|k: int| 0 <= k < i && #[trigger] start.players[k].player_id == p_id,
            decreases self.players@.len() - i,
        {
            assert(pot_payable(start.players[i as int], p_id, start.pot));
            assert(self.players@[i as int]@ == start.players[i as int]);
            assert(self.pot == start.pot);
            if self.players[i].player_id == p_id {
                let pot = self.pot;
                let new_wins = self.players[i].get_wins() + 1;
                let new_games = self.players[i].get_games() + 1;
                let new_earnings = self.players[i].get_earnings() + pot;
                self.players[i].add_money(pot);
                self.players[i].set_wins(new_wins);
                self.players[i].set_games(new_games);
                self.players[i].set_earnings(new_earnings);
                self.players[i].round_win = pot;
                winner_found = true;
            } else {
                let new_losses = self.players[i].get_losses() + 1;
                let new_games = self.players[i].get_games() + 1;
                self.players[i].set_losses(new_losses);
                self.players[i].set_games(new_games);
                self.players[i].round_win = 0;
            }
            i = i + 1;
        }
        if winner_found {
            self.pot = 0;
        }
        assert(models(self.players@) =~= start.players.map_values(|p: PlayerModel| after_pot(p, p_id, start.pot)));
    }

    /// Splits the pot evenly (rounding down) among the given ids: for each id in
    /// turn, the first player with it is paid the share. The pot is emptied.
    pub fn split_pot(&mut self, player_list: &Vec<u32>)
        requires
            player_list@.len() <= u32::MAX,
            player_list@.len() > 0 ==> split_payable(
                old(self)@.players, player_list@, (old(self).pot as int / player_list@.len() as int) as u32,
                player_list@.len() as int),
        ensures
            player_list@.len() == 0 ==> final(self)@ == (TableModel { pot: 0, ..old(self)@ }),
            player_list@.len() > 0 ==> final(self)@ == (TableModel {
                players: split_scan(old(self)@.players, player_list@,
                    (old(self).pot as int / player_list@.len() as int) as u32, player_list@.len() as int),
                pot: 0,
                ..old(self)@
            }),
    {
        let num_players = player_list.len() as u32;
        if num_players > 0 {
            let share = self.pot / num_players;
            let ghost start = self@;
            let ghost ids = player_list@;
            let mut j: usize = 0;
            while j < player_list.len()
                invariant
                    0 <= j <= player_list@.len(),
                    ids == player_list@,
                    num_players as int == ids.len(),
                    share == (start.pot as int / ids.len() as int) as u32,
                    split_payable(start.players, ids, share, ids.len() as int),
                    self@ == (TableModel { players: models(self.players@), ..start }),
                    models(self.players@) == split_scan(start.players, ids, share, j as int),
                    self.players@.len() == start.players.len(),
                decreases player_list@.len() - j,
            {
                proof { lemma_split_payable_prefix(start.players, ids, share, ids.len() as int, j + 1); }
                let id = player_list[j];
                let ghost prev = models(self.players@);
                proof { lemma_ids_kept(start.players, ids, share, j as int, id); }
                if let Some(index) = self.position_by_id(id) {
                    self.players[index].add_money(share);
                    assert(models(self.players@) =~= prev.update(index as int, credited(prev[index as int], share as int)));
                }
                j = j + 1;
            }
        }
        self.pot = 0;
    }

    /// Adds to the pot.
    pub fn add_to_pot(&mut self, amount: u32)
        requires
            old(self).pot + amount <= u32::MAX,
        ensures
            final(self)@ == (TableModel { pot: (old(self).pot + amount) as u32, ..old(self)@ }),
    {
        self.pot = self.pot + amount;
    }

    /// Deals the top card of the deck, or fails when the deck is empty.
    pub fn draw_card_from_deck(&mut self) -> (r: Result<Card, &'static str>)
        ensures
            old(self).deck@.len() == 0 ==> r == Err::<Card, &'static str>(crate::deck::DECK_EMPTY_ERROR)
                && final(self)@ == old(self)@,
            old(self).deck@.len() > 0 ==> r == Ok::<Card, &'static str>(old(self).deck@.last())
                && final(self)@ == (TableModel { deck: old(self).deck@.drop_last(), ..old(self)@ }),
    {
        self.deck.deal_card()
    }

    /// Starts a new betting round: every player keeps only a fold, and the highest
    /// bet goes back to 0.
    pub fn new_betting_round(&mut self)
        ensures
            final(self)@ == (TableModel {
                players: old(self)@.players.map_values(|p: PlayerModel| p.after_new_round()),
                highest_bet: 0,
                ..old(self)@
            }),
    {
        let ghost start = self@;
        let mut i: usize = 0;
        while i < self.players.len()
            invariant
                0 <= i <= self.players@.len(),
                self.players@.len() == start.players.len(),
                self@ == (TableModel { players: models(self.players@), ..start }),
                forall|k: int| 0 <= k < i ==> #[trigger] self.players@[k]@ == start.players[k].after_new_round(),
                forall|k: int| i <= k < start.players.len() ==> #[trigger] self.players@[k]@ == start.players[k],
            decreases self.players@.len() - i,
        {
            self.players[i].new_round_choices();
            i = i + 1;
        }
        assert(models(self.players@) =~= start.players.map_values(|p: PlayerModel| p.after_new_round()));
        self.highest_bet = 0;
    }

    /// Deals each player, seat by seat, `hand_size` face-down cards one at a time;
    /// a draw into a full hand, or from an empty deck, is passed over.
    pub fn deal_hands(&mut self)
        requires
            forall|k: int| 0 <= k < old(self).players@.len()
                ==> #[trigger] old(self)@.players[k].hand.len() + old(self).hand_size <= 255,
        ensures
            final(self)@ == (TableModel {
                players: deal_each(old(self)@.players, old(self)@.deck, old(self).hand_size as int,
                    old(self).players@.len() as int).0,
                deck: deal_each(old(self)@.players, old(self)@.deck, old(self).hand_size as int,
                    old(self).players@.len() as int).1,
                ..old(self)@
            }),
    {
        let ghost start = self@;
        let hand_size = self.hand_size;
        let mut i: usize = 0;
        while i < self.players.len()
            invariant
                0 <= i <= self.players@.len(),
                hand_size == start.hand_size,
                self.players@.len() == start.players.len(),
                self@ == (TableModel { players: models(self.players@), deck: self.deck@, ..start }),
                forall|k: int| 0 <= k < start.players.len() ==> #[trigger] start.players[k].hand.len() + hand_size <= 255,
                (models(self.players@), self.deck@) == deal_each(start.players, start.deck, hand_size as int, i as int),
                forall|k: int| i <= k < start.players.len() ==> #[trigger] self.players@[k]@ == start.players[k],
            decreases self.players@.len() - i,
        {
            let ghost before = models(self.players@);
            let ghost d0 = self.deck@;
            let mut n: u8 = 0;
            while n < hand_size
                invariant
                    0 <= n <= hand_size,
                    i < self.players@.len(),
                    self.players@.len() == start.players.len(),
                    self@ == (TableModel { players: models(self.players@), deck: self.deck@, ..start }),
                    start.players[i as int].hand.len() + hand_size <= 255,
                    before[i as int] == start.players[i as int],
                    forall|k: int| 0 <= k < start.players.len() && k != i ==> #[trigger] self.players@[k]@ == before[k],
                    (self.players@[i as int]@, self.deck@) == draws(before[i as int], d0, n as int),
                    self.players@[i as int]@.hand.len() <= start.players[i as int].hand.len() + n,
                decreases hand_size - n,
            {
                let _ = self.players[i].draw_card(&mut self.deck);
                n = n + 1;
            }
            proof {
                assert(models(self.players@) =~= before.update(i as int, self.players@[i as int]@));
            }
            i = i + 1;
        }
    }

    /// The two seats after the dealer put in the blinds, half the minimum bet and
    /// the minimum bet: each seat's id pays its blind into the pot and the seat's
    /// pot entry records it; the highest bet is raised to the minimum bet when that
    /// is higher.
    pub fn put_blinds(&mut self)
        requires
            0 < old(self).players@.len() <= u32::MAX,
            old(self).dealer + 2 <= u32::MAX,
            blind_payable(old(self)@.players, old(self).pot,
                (old(self).dealer + 1) % (old(self).players@.len() as int), old(self).minimum_bet / 2),
            blind_payable(
                blind_put(old(self)@.players, old(self).pot,
                    (old(self).dealer + 1) % (old(self).players@.len() as int), old(self).minimum_bet / 2).0,
                blind_put(old(self)@.players, old(self).pot,
                    (old(self).dealer + 1) % (old(self).players@.len() as int), old(self).minimum_bet / 2).1,
                (old(self).dealer + 2) % (old(self).players@.len() as int), old(self).minimum_bet),
        ensures
            ({
                let n = old(self).players@.len() as int;
                let b1 = blind_put(old(self)@.players, old(self).pot, (old(self).dealer + 1) % n, old(self).minimum_bet / 2);
                let b2 = blind_put(b1.0, b1.1, (old(self).dealer + 2) % n, old(self).minimum_bet);
                final(self)@ == (TableModel {
                    players: b2.0,
                    pot: b2.1,
                    highest_bet: if old(self).minimum_bet > old(self).highest_bet {
                        old(self).minimum_bet
                    } else {
                        old(self).highest_bet
                    },
                    ..old(self)@
                })
            }),
    {
        let n = self.players.len() as u32;
        let half = self.minimum_bet / 2;
        let small = ((self.dealer + 1) % n) as usize;
        proof {
            lemma_first_with_id_range(self@.players, self@.players[small as int].player_id, 0);
        }
        self.blind_from(small, half);
        assert(self@.players.len() == self.players@.len());
        let big = ((self.dealer + 2) % n) as usize;
        let min = self.minimum_bet;
        self.blind_from(big, min);
        self.set_highest_bet(min);
    }

    /// The seat `idx` puts in a blind of `amount`: the first player with the seat's
    /// id pays it into the pot and the seat's pot entry and wager record it.
    fn blind_from(&mut self, idx: usize, amount: u32)
        requires
            idx < old(self).players@.len(),
            blind_payable(old(self)@.players, old(self).pot, idx as int, amount),
        ensures
            final(self)@ == (TableModel {
                players: blind_put(old(self)@.players, old(self).pot, idx as int, amount).0,
                pot: blind_put(old(self)@.players, old(self).pot, idx as int, amount).1,
                ..old(self)@
            }),
    {
        let pid = self.players[idx].player_id;
        let ghost ps = self@.players;
        if let Some(k) = self.position_by_id(pid) {
            self.put_into_pot(pid, amount);
            let ghost ps1 = self@.players;
            assert(ps1 =~= ps.update(k as int, PlayerModel { player_money: (ps[k as int].player_money - amount) as u32, ..ps[k as int] }));
            self.players[idx].add_to_placed_in_pot(amount);
            assert(models(self.players@) =~= ps1.update(idx as int, placed_more(ps1[idx as int], amount)));
        }
    }


    /// Pays out the winners, given as seats (or, in a tie, as ids) with their
    /// scores. When at most one player is left, or there is a single winner, the
    /// first winner's seat, if on the table, is recorded and takes the whole pot;
    /// a single winner off the table changes nothing. Otherwise the players found
    /// by the winners' ids are recorded and the pot is split among the ids.
    pub fn pay_out(&mut self, winners: Vec<(u32, ScoredHand)>)
        requires
            old(self).players@.len() <= u32::MAX,
            pay_out_ready(old(self)@, winners@),
        ensures
            sole_seat(old(self)@, winners@) matches Some(k) ==> final(self)@ == sole_payout(old(self)@, k),
            sole_seat(old(self)@, winners@) is None && winners@.len() == 1 ==> final(self)@ == old(self)@,
            sole_seat(old(self)@, winners@) is None && winners@.len() != 1
                ==> final(self)@ == tie_payout(old(self)@, winners@),
    {
        if self.get_remaining_player_count() <= 1 {
            let winner_index = winners[0].0 as usize;
            if winner_index < self.players.len() {
                assert(sole_seat(self@, winners@) == Some(winner_index as int));
                proof { lemma_sole_payable(self@, winners@, winner_index as int); }
                self.take_whole_pot(winner_index);
                return;
            }
        }
        if winners.len() == 1 {
            let winner_index = winners[0].0 as usize;
            if winner_index < self.players.len() {
                assert(sole_seat(self@, winners@) == Some(winner_index as int));
                proof { lemma_sole_payable(self@, winners@, winner_index as int); }
                self.take_whole_pot(winner_index);
            }
        } else {
            let ghost start = self@;
            let ghost ws = winners@;
            let mut ids: Vec<u32> = Vec::new();
            let mut j: usize = 0;
            while j < winners.len()
                invariant
                    0 <= j <= winners@.len(),
                    ws == winners@,
                    self@ == (TableModel { winner: models(self.winner@), ..start }),
                    ids@ == winner_ids(ws).take(j as int),
                    models(self.winner@) == start.winner + found_by_ids(start.players, ids@),
                decreases winners@.len() - j,
            {
                let id = winners[j].0;
                let ghost before = models(self.winner@);
                let ghost ids0 = ids@;
                if let Some(k) = self.position_by_id(id) {
                    let found = self.players[k].clone();
                    self.winner.push(found);
                    assert(models(self.winner@) =~= before.push(start.players[k as int]));
                }
                ids.push(id);
                proof {
                    assert(ids@.drop_last() =~= ids0);
                    assert(winner_ids(ws).take(j + 1) =~= winner_ids(ws).take(j as int).push(id));
                    assert(models(self.winner@) =~= start.winner + found_by_ids(start.players, ids@));
                }
                j = j + 1;
            }
            assert(winner_ids(ws).take(ws.len() as int) =~= winner_ids(ws));
            self.split_pot(&ids);
        }
    }

    /// The player at seat `k` is recorded as the winner and takes the whole pot.
    fn take_whole_pot(&mut self, k: usize)
        requires
            k < old(self).players@.len(),
            forall|j: int| 0 <= j < old(self)@.players.len()
                ==> #[trigger] pot_payable(old(self)@.players[j], old(self)@.players[k as int].player_id, old(self)@.pot),
        ensures
            final(self)@ == sole_payout(old(self)@, k as int),
    {
        let winner = self.players[k].clone();
        let id = winner.player_id;
        let ghost before = self.winner@;
        self.winner.push(winner);
        assert(models(self.winner@) =~= models(before).push(self@.players[k as int]));
        assert(self@.players[k as int].player_id == id);
        assert forall|j: int| 0 <= j < self.players@.len() implies #[trigger] pot_payable(self@.players[j], id, self.pot) by {
            assert(self@.players[j] == old(self)@.players[j]);
            assert(pot_payable(old(self)@.players[j], old(self)@.players[k as int].player_id, old(self)@.pot));
        }
        self.give_pot(id);
    }

    /// The number of players who have not folded.
    pub fn get_remaining_player_count(&self) -> (r: u32)
        requires
            self.players@.len() <= u32::MAX,
        ensures
            r == remaining(self@.players),
    {
        let mut count: u32 = 0;
        let mut i: usize = 0;
        while i < self.players.len()
            invariant
                0 <= i <= self.players@.len(),
                self.players@.len() <= u32::MAX,
                count == remaining(models(self.players@.take(i as int))),
                count <= i,
            decreases self.players@.len() - i,
        {
            proof {
                assert(models(self.players@.take(i + 1)).drop_last() =~= models(self.players@.take(i as int)));
            }
            if !self.players[i].player_choices.fold {
                count = count + 1;
            }
            i = i + 1;
        }
        assert(self.players@.take(self.players@.len() as int) =~= self.players@);
        count
    }
}

/// A sole winner of a pay-out that can run takes the pot without overflowing any
/// count.
proof fn lemma_sole_payable(m: TableModel, ws: Seq<(u32, ScoredHand)>, k: int)
    requires
        pay_out_ready(m, ws),
        sole_seat(m, ws) == Some(k),
    ensures
        forall|j: int| 0 <= j < m.players.len() ==> #[trigger] pot_payable(m.players[j], m.players[k].player_id, m.pot),
{
}

/// Paying a prefix of the ids overflows no balance when paying them all does not.
proof fn lemma_split_payable_prefix(ps: Seq<PlayerModel>, ids: Seq<u32>, share: u32, n: int, m: int)
    requires
        0 <= m <= n,
        split_payable(ps, ids, share, n),
    ensures
        split_payable(ps, ids, share, m),
    decreases n - m,
{
    if m < n {
        lemma_split_payable_prefix(ps, ids, share, n - 1, m);
    }
}

/// The first seat found with an id holds that id, and no earlier seat from `i` does;
/// when none is found, no seat from `i` on holds it.
proof fn lemma_first_with_id_found(ps: Seq<PlayerModel>, id: u32, i: int)
    requires
        0 <= i,
    ensures
        first_with_id(ps, id, i) matches Some(k) ==> i <= k < ps.len() && ps[k].player_id == id,
        first_with_id(ps, id, i) is None ==> forall|j: int| i <= j < ps.len() ==> #[trigger] ps[j].player_id != id,
    decreases ps.len() - i,
{
    if i < ps.len() {
        lemma_first_with_id_found(ps, id, i + 1);
    }
}

/// Splitting the pot pays each listed id once: when no id is listed twice and no
/// two players share an id, each player whose id is among the first `n` listed gains
/// the share, every other player keeps the balance, and nothing else about any
/// player changes.
pub proof fn lemma_split_pays_each_listed_once(ps: Seq<PlayerModel>, ids: Seq<u32>, share: u32, n: int)
    requires
        0 <= n <= ids.len(),
        forall|i: int, j: int| 0 <= i < j < ids.len() ==> #[trigger] ids[i] != #[trigger] ids[j],
        forall|i: int, j: int| 0 <= i < j < ps.len() ==> #[trigger] ps[i].player_id != #[trigger] ps[j].player_id,
        split_payable(ps, ids, share, n),
    ensures
        split_scan(ps, ids, share, n).len() == ps.len(),
        forall|j: int| 0 <= j < ps.len() ==> #[trigger] split_scan(ps, ids, share, n)[j]
            == credited(ps[j], if ids.take(n).contains(ps[j].player_id) { share as int } else { 0 }),
    decreases n,
{
    if n > 0 {
        lemma_split_payable_prefix(ps, ids, share, n, n - 1);
        lemma_split_pays_each_listed_once(ps, ids, share, n - 1);
        let prev = split_scan(ps, ids, share, n - 1);
        let id = ids[n - 1];
        lemma_first_with_id_found(ps, id, 0);
        assert(ids.take(n) =~= ids.take(n - 1).push(id));
        assert(!ids.take(n - 1).contains(id)) by {
            if ids.take(n - 1).contains(id) {
                let w = choose|w: int| 0 <= w < n - 1 && #[trigger] ids.take(n - 1)[w] == id;
                assert(ids[w] == ids[n - 1]);
            }
        }
        assert forall|j: int| 0 <= j < ps.len() implies #[trigger] split_scan(ps, ids, share, n)[j]
            == credited(ps[j], if ids.take(n).contains(ps[j].player_id) { share as int } else { 0 }) by {
            assert(prev[j] == credited(ps[j], if ids.take(n - 1).contains(ps[j].player_id) { share as int } else { 0 }));
            if ps[j].player_id == id {
                assert(ids.take(n)[n - 1] == id);
                let k = first_with_id(ps, id, 0)->0;
                if k != j {
                    assert(ps[k].player_id == ps[j].player_id);
                }
                assert(credited(ps[j], 0) == ps[j]);
            } else {
                if ids.take(n).contains(ps[j].player_id) {
                    let w = choose|w: int| 0 <= w < n && #[trigger] ids.take(n)[w] == ps[j].player_id;
                    assert(w != n - 1);
                    assert(ids.take(n - 1)[w] == ps[j].player_id);
                }
                if ids.take(n - 1).contains(ps[j].player_id) {
                    let w = choose|w: int| 0 <= w < n - 1 && #[trigger] ids.take(n - 1)[w] == ps[j].player_id;
                    assert(ids.take(n)[w] == ps[j].player_id);
                }
                match first_with_id(ps, id, 0) {
                    Some(k) => { assert(k != j); },
                    None => {},
                }
            }
        }
    } else {
        assert forall|j: int| 0 <= j < ps.len() implies #[trigger] split_scan(ps, ids, share, n)[j]
            == credited(ps[j], if ids.take(n).contains(ps[j].player_id) { share as int } else { 0 }) by {
            assert(!ids.take(n).contains(ps[j].player_id));
            assert(credited(ps[j], 0) == ps[j]);
        }
    }
}

/// Paying shares keeps every player's id, so the first player with an id is found
/// at the same seat.
proof fn lemma_ids_kept(ps: Seq<PlayerModel>, ids: Seq<u32>, share: u32, n: int, id: u32)
    requires
        n <= ids.len(),
    ensures
        split_scan(ps, ids, share, n).len() == ps.len(),
        first_with_id(split_scan(ps, ids, share, n), id, 0) == first_with_id(ps, id, 0),
    decreases n,
{
    if n > 0 {
        lemma_ids_kept(ps, ids, share, n - 1, id);
        let prev = split_scan(ps, ids, share, n - 1);
        lemma_first_with_id_range(ps, ids[n - 1], 0);
        match first_with_id(ps, ids[n - 1], 0) {
            Some(k) => {
                lemma_first_with_id_same_ids(prev, prev.update(k, credited(prev[k], share as int)), id, 0);
            },
            None => {},
        }
    }
}

/// A seat found by id lies on the table, at or after where the search started.
pub(crate) proof fn lemma_first_with_id_range(ps: Seq<PlayerModel>, id: u32, i: int)
    ensures
        first_with_id(ps, id, i) matches Some(k) ==> i <= k < ps.len() && 0 <= k,
    decreases ps.len() - i,
{
    if 0 <= i < ps.len() {
        lemma_first_with_id_range(ps, id, i + 1);
    }
}

/// Two lists of players with the same ids at every seat find an id at the same seat.
pub(crate) proof fn lemma_first_with_id_same_ids(a: Seq<PlayerModel>, b: Seq<PlayerModel>, id: u32, i: int)
    requires
        a.len() == b.len(),
        forall|k: int| 0 <= k < a.len() ==> #[trigger] a[k].player_id == b[k].player_id,
    ensures
        first_with_id(a, id, i) == first_with_id(b, id, i),
    decreases a.len() - i,
{
    if 0 <= i < a.len() {
        lemma_first_with_id_same_ids(a, b, id, i + 1);
    }
}

} // verus!
