//! The variants of poker played from one terminal: five card draw and seven card
//! stud, each on a table of `base_rules`.

use vstd::prelude::*;
use crate::base_rules::{
    credited, draws, first_with_id, lemma_first_with_id_range, lemma_first_with_id_same_ids, pay_out_ready, sole_payout,
    sole_seat, tie_payout, GameState, LoadState, TableModel,
};
use crate::card::{Card, Value};
use crate::deck::Deck;
use crate::discards::{discard_steps, lemma_valid_discards_bounds, valid_discards};
use crate::hand::Hand;
use crate::rounds::{is_new_deck, ready_for_game};
use crate::score_hands::{get_best_5_card_hand, get_best_from_7_card_hand, is_best_of, is_hand_score, ScoredHand};
use crate::showdown::{
    lemma_seat_scan_seats, lemma_unfolded_seats_seats, opening_five, seat_scan, select_winner_seats,
    unfolded_seat_list, unfolded_seats,
};
use crate::game_state::{deal_rounds, deal_rounds_to, has_folded, models, remaining};
use crate::hand::{face_up_cards, sorted_desc};
use crate::player::{Player, PlayerModel};
use crate::rounds::{lowest_door_seat, lowest_scan};

verus! {

/// A game of five card draw.
#[derive(Debug)]
pub struct FiveCardDraw {
    /// The table the game is played on.
    pub game_state: GameState,
}

/// A game of seven card stud, with its two betting limits.
#[derive(Debug)]
pub struct SevenCardStud {
    /// The table the game is played on.
    pub game_state: GameState,
    /// The bet of the early betting rounds.
    pub lower_bet: u32,
    /// The bet of the later betting rounds.
    pub higher_bet: u32,
}

/// Whether `m` is a new table for a variant: id 0, no players or winners, a full
/// deck, the given variant, hand size and player limit, an empty pot and a minimum
/// bet of 5, at the first stage.
pub open spec fn is_variant_table(m: TableModel, variant: Seq<char>, hand_size: u8, max_players: i64) -> bool {
    &&& m.game_variant == variant
    &&& m.players == Seq::<PlayerModel>::empty()
    &&& m.deck.len() == 52
    &&& m.game_id == 0
    &&& m.hand_size == hand_size
    &&& m.max_players == max_players
    &&& m.pot == 0
    &&& m.stage_number == 1
    &&& m.round_number == 0
    &&& m.minimum_bet == 5
    &&& m.highest_bet == 0
    &&& m.dealer == 0
    &&& m.winner == Seq::<PlayerModel>::empty()
}

/// The players and the pot after each of the first `n` seats, in turn, has the
/// first player with that seat's id pay an ante of 2 into the pot.
pub open spec fn ante_scan(ps: Seq<PlayerModel>, pot: u32, n: int) -> (Seq<PlayerModel>, u32)
    decreases n,
{
    if n <= 0 {
        (ps, pot)
    } else {
        let (q, p) = ante_scan(ps, pot, n - 1);
        match first_with_id(ps, ps[n - 1].player_id, 0) {
            Some(k) => (q.update(k, credited(q[k], -2)), (p + 2) as u32),
            None => (q, p),
        }
    }
}

/// Whether the antes of the first `n` seats are covered by the paying balances and
/// fit in the pot.
pub open spec fn ante_payable(ps: Seq<PlayerModel>, pot: u32, n: int) -> bool
    decreases n,
{
    if n <= 0 {
        true
    } else {
        ante_payable(ps, pot, n - 1) && match first_with_id(ps, ps[n - 1].player_id, 0) {
            Some(k) => ante_scan(ps, pot, n - 1).0[k].player_money >= 2 && ante_scan(ps, pot, n - 1).1 + 2 <= u32::MAX,
            None => true,
        }
    }
}

/// The value number of the highest face-up card of a player (the first after
/// sorting by value and suit, highest first).
pub open spec fn high_door(p: PlayerModel) -> int {
    sorted_desc(face_up_cards(p.hand))[0].value.num() as int
}

/// The seat with the highest face-up card among the first `n` seats: the first seat
/// to start with, replaced by each later unfolded player whose highest face-up card
/// is strictly higher.
pub open spec fn highest_card_scan(ps: Seq<PlayerModel>, n: int) -> int
    decreases n,
{
    if n <= 0 {
        0
    } else {
        let h = highest_card_scan(ps, n - 1);
        if !has_folded(ps[n - 1]) && high_door(ps[n - 1]) > high_door(ps[h]) {
            n - 1
        } else {
            h
        }
    }
}

/// The antes keep the number of players and every player's id.
proof fn lemma_ante_keeps_ids(ps: Seq<PlayerModel>, pot: u32, n: int)
    requires
        n <= ps.len(),
    ensures
        ante_scan(ps, pot, n).0.len() == ps.len(),
        forall|k: int| 0 <= k < ps.len() ==> #[trigger] ante_scan(ps, pot, n).0[k].player_id == ps[k].player_id,
    decreases n,
{
    if n > 0 {
        lemma_ante_keeps_ids(ps, pot, n - 1);
        lemma_first_with_id_range(ps, ps[n - 1].player_id, 0);
    }
}

/// The highest card scan ends on the first seat or on a player who has not folded.
proof fn lemma_highest_card_seat(ps: Seq<PlayerModel>, n: int)
    requires
        0 <= n <= ps.len(),
        ps.len() > 0,
    ensures
        0 <= highest_card_scan(ps, n) < ps.len(),
        highest_card_scan(ps, n) == 0 || !has_folded(ps[highest_card_scan(ps, n)]),
    decreases n,
{
    if n > 0 {
        lemma_highest_card_seat(ps, n - 1);
    }
}

/// A variant of poker played on a table of `base_rules`: how a game is set up,
/// how a new game starts, who wins and how the pot is paid out.
pub trait PokerGame: Sized {
    /// The table the game is played on.
    spec fn table(&self) -> TableModel;

    /// Whether every player still in holds the cards the variant scores.
    spec fn hands_scorable(&self) -> bool;

    /// A new game of the variant, with no players yet and an empty pot.
    fn new(ls: LoadState) -> (r: Self)
        ensures
            r.table().players.len() == 0,
            r.table().pot == 0,
    ;

    /// Starts a new game with the given id on the same players.
    fn new_round(&mut self, game_id: u32)
        requires
            0 < old(self).table().players.len() <= u32::MAX,
            old(self).table().dealer + 1 <= u32::MAX,
        ensures
            final(self).table().game_id == game_id,
            final(self).table().pot == 0,
    ;

    /// The winners, by seat, each with its score: every winner is a seat of the
    /// table whose player has not folded.
    fn determine_winner(&self) -> (r: Vec<(u32, ScoredHand)>)
        requires
            self.table().players.len() <= u32::MAX,
            self.hands_scorable(),
        ensures
            forall|i: int| 0 <= i < r@.len() ==> {
                let seat = #[trigger] r@[i].0 as int;
                0 <= seat < self.table().players.len() && !has_folded(self.table().players[seat])
            },
    ;

    /// Pays out the winners, as `base_rules` pays out a table.
    fn pay_out(&mut self, winners: Vec<(u32, ScoredHand)>)
        requires
            old(self).table().players.len() <= u32::MAX,
            pay_out_ready(old(self).table(), winners@),
        ensures
            sole_seat(old(self).table(), winners@) matches Some(k)
                ==> final(self).table() == sole_payout(old(self).table(), k),
            sole_seat(old(self).table(), winners@) is None && winners@.len() == 1
                ==> final(self).table() == old(self).table(),
            sole_seat(old(self).table(), winners@) is None && winners@.len() != 1
                ==> final(self).table() == tie_payout(old(self).table(), winners@),
    ;
}

/// The table as a new game starts: the given id and deck, an empty pot, the first
/// stage, no bets or winners, the dealer moved one seat on, and every player made
/// ready with an empty hand holding `hand_size` cards.
pub open spec fn fresh_table(m: TableModel, game_id: u32, hand_size: u8, deck: Seq<Card>) -> TableModel {
    TableModel {
        game_id,
        deck,
        pot: 0,
        stage_number: 1,
        round_number: 0,
        highest_bet: 0,
        winner: Seq::empty(),
        dealer: ((m.dealer + 1) % (m.players.len() as int)) as u32,
        players: m.players.map_values(|p: PlayerModel| ready_for_game(p, hand_size)),
        ..m
    }
}

/// Every new game starts with every seated player in: nobody has folded or put
/// anything in, every hand is empty and may hold `hand_size` cards, every balance is
/// at least 10 (a lower one refilled to 1000, a higher one kept), the pot is empty,
/// there are no winners, and the dealer moves one seat on.
pub proof fn lemma_new_game_starts_everyone_in(m: TableModel, game_id: u32, hand_size: u8, deck: Seq<Card>)
    requires
        0 < m.players.len() <= u32::MAX,
    ensures
        fresh_table(m, game_id, hand_size, deck).players.len() == m.players.len(),
        forall|k: int| 0 <= k < m.players.len() ==> {
            let p = #[trigger] fresh_table(m, game_id, hand_size, deck).players[k];
            &&& !has_folded(p)
            &&& p.placed() == 0
            &&& p.hand.len() == 0
            &&& p.hand_limit == hand_size
            &&& p.player_money >= 10
            &&& (m.players[k].player_money >= 10 ==> p.player_money == m.players[k].player_money)
            &&& p.player_name == m.players[k].player_name
        },
        fresh_table(m, game_id, hand_size, deck).pot == 0,
        fresh_table(m, game_id, hand_size, deck).winner.len() == 0,
        fresh_table(m, game_id, hand_size, deck).dealer == (m.dealer + 1) % (m.players.len() as int),
{
    vstd::arithmetic::div_mod::lemma_mod_pos_bound(m.dealer + 1, m.players.len() as int);
}

/// Whether `scores` holds, for each player still in, the score of the player's
/// five cards.
pub open spec fn five_scores(ps: Seq<PlayerModel>, scores: Seq<ScoredHand>) -> bool {
    &&& scores.len() == ps.len()
    &&& forall|k: int| 0 <= k < ps.len() && !has_folded(ps[k]) ==> is_hand_score(ps[k].hand, #[trigger] scores[k])
}

/// Whether `scores` holds, for each player still in, the best score of five of the
/// player's cards.
pub open spec fn seven_scores(ps: Seq<PlayerModel>, scores: Seq<ScoredHand>) -> bool {
    &&& scores.len() == ps.len()
    &&& forall|k: int| 0 <= k < ps.len() && !has_folded(ps[k]) ==> is_best_of(ps[k].hand, #[trigger] scores[k])
}

/// Starts a new game on a table with the given id: a new deck, an empty pot, the
/// first stage, no bets or winners, the dealer one seat on, and every player made
/// ready with an empty hand of `hand_size` cards.
fn start_table(table: &mut GameState, game_id: u32, hand_size: u8)
    requires
        0 < old(table).players@.len() <= u32::MAX,
        old(table).dealer + 1 <= u32::MAX,
    ensures
        exists|d: Seq<Card>| #[trigger] is_new_deck(d) && final(table)@ == fresh_table(old(table)@, game_id, hand_size, d),
{
    table.game_id = game_id;
    table.deck = Deck::new();
    table.pot = 0;
    table.stage_number = 1;
    table.round_number = 0;
    table.highest_bet = 0;
    table.winner = Vec::new();
    table.rotate_blinds();
    let ghost mid = table@;
    let ghost p0 = old(table)@.players;
    assert(mid.players == p0);
    let mut i: usize = 0;
    while i < table.players.len()
        invariant
            0 <= i <= table.players@.len(),
            table.players@.len() == p0.len(),
            table@ == (TableModel { players: models(table.players@), ..mid }),
            forall|k: int| 0 <= k < i ==> #[trigger] table.players@[k]@ == ready_for_game(p0[k], hand_size),
            forall|k: int| i <= k < p0.len() ==> #[trigger] table.players@[k]@ == p0[k],
        decreases table.players@.len() - i,
    {
        table.players[i].reset_choices();
        table.players[i].total_wagered_per_game = 0;
        table.players[i].round_win = 0;
        table.players[i].player_hand = Hand::new(hand_size);
        table.players[i].infinite_money();
        i = i + 1;
    }
    proof {
        assert(models(table.players@) =~= p0.map_values(|p: PlayerModel| ready_for_game(p, hand_size)));
        assert(models(Seq::<Player>::empty()) =~= Seq::<PlayerModel>::empty());
        assert(is_new_deck(mid.deck));
    }
}

impl PokerGame for FiveCardDraw {
    open spec fn table(&self) -> TableModel {
        self.game_state@
    }

    /// Every player still in holds five cards.
    open spec fn hands_scorable(&self) -> bool {
        forall|k: int| 0 <= k < self.game_state@.players.len() && !has_folded(self.game_state@.players[k])
            ==> #[trigger] self.game_state@.players[k].hand.len() == 5
    }

    /// A new game of five card draw: a new table with hands of five, at most five
    /// players and a minimum bet of 5.
    fn new(_ls: LoadState) -> (r: FiveCardDraw)
        ensures
            is_variant_table(r.game_state@, "5 Card Draw"@, 5, 5),
    {
        let mut game_state = GameState::new_game(0);
        game_state.game_variant = String::from_str("5 Card Draw");
        game_state.hand_size = 5;
        game_state.max_players = 5;
        game_state.minimum_bet = 5;
        FiveCardDraw { game_state }
    }

    /// Starts a new game with the given id: a new deck, an empty pot, the first
    /// stage, no bets or winners, the dealer one seat on, and every player ready
    /// with an empty hand of five.
    fn new_round(&mut self, game_id: u32)
        ensures
            exists|d: Seq<Card>| #[trigger] is_new_deck(d)
                && final(self).game_state@ == fresh_table(old(self).game_state@, game_id, 5, d),
    {
        start_table(&mut self.game_state, game_id, 5);
    }

    /// When at most one player is left, every player still in wins with a high
    /// card of five twos; otherwise each hand still in is scored and the winners
    /// are the seats with the best score (at least that high card), in seat order.
    fn determine_winner(&self) -> (r: Vec<(u32, ScoredHand)>)
        ensures
            remaining(self.game_state@.players) <= 1
                ==> r@ == unfolded_seats(self.game_state@.players, opening_five(), self.game_state@.players.len() as int),
            remaining(self.game_state@.players) > 1 ==> exists|scores: Seq<ScoredHand>|
                #[trigger] five_scores(self.game_state@.players, scores)
                && r@ == seat_scan(self.game_state@.players, scores, opening_five(),
                    self.game_state@.players.len() as int).1,
    {
        let start = ScoredHand::HighCard([Value::Two, Value::Two, Value::Two, Value::Two, Value::Two]);
        let players = &self.game_state.players;
        let ghost ps = self.game_state@.players;
        assert(ps.len() == players@.len());
        proof {
            lemma_unfolded_seats_seats(ps, start, ps.len() as int);
        }
        if self.game_state.get_remaining_player_count() <= 1 {
            return unfolded_seat_list(players, start);
        }
        let mut scores: Vec<ScoredHand> = Vec::new();
        let mut i: usize = 0;
        while i < players.len()
            invariant
                0 <= i <= players@.len(),
                ps == models(players@),
                scores@.len() == i,
                forall|k: int| 0 <= k < ps.len() && !has_folded(ps[k]) ==> #[trigger] ps[k].hand.len() == 5,
                forall|k: int| 0 <= k < i && !has_folded(ps[k]) ==> is_hand_score(ps[k].hand, #[trigger] scores@[k]),
            decreases players@.len() - i,
        {
            assert(ps[i as int] == players@[i as int]@);
            if !players[i].player_choices.fold {
                assert(!has_folded(ps[i as int]));
                assert(ps[i as int].hand == players@[i as int].player_hand.cards@);
                let s = get_best_5_card_hand(&players[i].player_hand);
                scores.push(s);
            } else {
                scores.push(start);
            }
            i = i + 1;
        }
        let winners = select_winner_seats(players, &scores, start);
        proof {
            lemma_seat_scan_seats(ps, scores@, start, ps.len() as int);
        }
        assert(five_scores(ps, scores@));
        winners
    }

    fn pay_out(&mut self, winners: Vec<(u32, ScoredHand)>) {
        assert(self.game_state@.players.len() == self.game_state.players@.len());
        self.game_state.pay_out(winners);
    }
}

impl FiveCardDraw {
    /// Deals five rounds of one face-down card to the players who have not folded,
    /// unless at most one is left.
    pub fn deal_initial_hands(&mut self)
        requires
            old(self).game_state.players@.len() <= u32::MAX,
            forall|k: int| 0 <= k < old(self).game_state.players@.len()
                ==> #[trigger] old(self).game_state@.players[k].hand.len() + 5 <= 255,
        ensures
            remaining(old(self).game_state@.players) <= 1 ==> final(self).game_state@ == old(self).game_state@,
            remaining(old(self).game_state@.players) > 1 ==> final(self).game_state@ == (TableModel {
                players: deal_rounds(old(self).game_state@.players, old(self).game_state@.deck, false, 5).0,
                deck: deal_rounds(old(self).game_state@.players, old(self).game_state@.deck, false, 5).1,
                ..old(self).game_state@
            }),
    {
        deal_on_table(&mut self.game_state, 5, false);
    }

    /// The first betting round starts with the blinds.
    pub fn first_betting_round(&mut self)
        requires
            0 < old(self).game_state.players@.len() <= u32::MAX,
            old(self).game_state.dealer + 2 <= u32::MAX,
            crate::base_rules::blind_payable(old(self).game_state@.players, old(self).game_state.pot,
                (old(self).game_state.dealer + 1) % (old(self).game_state.players@.len() as int),
                old(self).game_state.minimum_bet / 2),
            crate::base_rules::blind_payable(
                crate::base_rules::blind_put(old(self).game_state@.players, old(self).game_state.pot,
                    (old(self).game_state.dealer + 1) % (old(self).game_state.players@.len() as int),
                    old(self).game_state.minimum_bet / 2).0,
                crate::base_rules::blind_put(old(self).game_state@.players, old(self).game_state.pot,
                    (old(self).game_state.dealer + 1) % (old(self).game_state.players@.len() as int),
                    old(self).game_state.minimum_bet / 2).1,
                (old(self).game_state.dealer + 2) % (old(self).game_state.players@.len() as int),
                old(self).game_state.minimum_bet),
        ensures
            ({
                let g = old(self).game_state;
                let n = g.players@.len() as int;
                let b1 = crate::base_rules::blind_put(g@.players, g.pot, (g.dealer + 1) % n, g.minimum_bet / 2);
                let b2 = crate::base_rules::blind_put(b1.0, b1.1, (g.dealer + 2) % n, g.minimum_bet);
                final(self).game_state@ == (TableModel {
                    players: b2.0,
                    pot: b2.1,
                    highest_bet: if g.minimum_bet > g.highest_bet { g.minimum_bet } else { g.highest_bet },
                    ..g@
                })
            }),
    {
        self.game_state.put_blinds();
    }

    /// The seat three places after the dealer, where betting starts.
    pub fn get_starting_player_index(&self) -> (r: u32)
        requires
            0 < self.game_state.players@.len() <= u32::MAX,
            self.game_state.dealer + 3 <= u32::MAX,
        ensures
            r == (self.game_state.dealer + 3) % (self.game_state.players@.len() as int),
    {
        let n = self.game_state.players.len() as u32;
        (self.game_state.dealer + 3) % n
    }
}

/// The seats asked to redraw, in turn from the seat after the dealer round the
/// table, among the first `k` places of that turn: each seat whose player has not
/// folded.
pub open spec fn redraw_seats(ps: Seq<PlayerModel>, dealer: u32, k: int) -> Seq<usize>
    decreases k,
{
    if k <= 0 {
        Seq::empty()
    } else {
        let seat = (dealer + k) % (ps.len() as int);
        redraw_seats(ps, dealer, k - 1) + if !has_folded(ps[seat]) {
            seq![seat as usize]
        } else {
            Seq::<usize>::empty()
        }
    }
}

/// The seats asked to redraw among the first `k` places of the turn round the
/// table sit at increasing offsets from the dealer, each offset between 1 and `k`,
/// and an offset is among them exactly when the player there has not folded.
proof fn lemma_redraw_seats_offsets(ps: Seq<PlayerModel>, dealer: u32, k: int) -> (ds: Seq<int>)
    requires
        0 < ps.len() <= u32::MAX,
        0 <= k,
    ensures
        ds.len() == redraw_seats(ps, dealer, k).len(),
        forall|i: int, j: int| 0 <= i < j < ds.len() ==> #[trigger] ds[i] < #[trigger] ds[j],
        forall|i: int| 0 <= i < ds.len() ==> 0 < #[trigger] ds[i] <= k,
        forall|i: int| 0 <= i < ds.len()
            ==> #[trigger] redraw_seats(ps, dealer, k)[i] as int == (dealer + ds[i]) % (ps.len() as int),
        forall|d: int| 0 < d <= k ==> (ds.contains(d) <==> !#[trigger] has_folded(ps[(dealer + d) % (ps.len() as int)])),
    decreases k,
{
    if k <= 0 {
        Seq::empty()
    } else {
        let prev = lemma_redraw_seats_offsets(ps, dealer, k - 1);
        let seat = (dealer + k) % (ps.len() as int);
        vstd::arithmetic::div_mod::lemma_mod_pos_bound(dealer + k, ps.len() as int);
        if !has_folded(ps[seat]) {
            let ds = prev.push(k);
            let r = redraw_seats(ps, dealer, k);
            let rp = redraw_seats(ps, dealer, k - 1);
            assert(r == rp + seq![seat as usize]);
            assert forall|i: int| 0 <= i < ds.len()
                implies #[trigger] r[i] as int == (dealer + ds[i]) % (ps.len() as int) by {
                if i < prev.len() {
                    assert(r[i] == rp[i]);
                } else {
                    assert(r[i] == seat as usize);
                }
            }
            assert forall|d: int| 0 < d <= k implies (ds.contains(d) <==> !#[trigger] has_folded(ps[(dealer + d) % (ps.len() as int)])) by {
                if d == k {
                    assert(ds[ds.len() - 1] == k);
                } else {
                    if ds.contains(d) {
                        let w = choose|w: int| 0 <= w < ds.len() && ds[w] == d;
                        assert(w < prev.len());
                        assert(prev[w] == d);
                    }
                    if prev.contains(d) {
                        let w = choose|w: int| 0 <= w < prev.len() && prev[w] == d;
                        assert(ds[w] == d);
                    }
                }
            }
            ds
        } else {
            assert(redraw_seats(ps, dealer, k) =~= redraw_seats(ps, dealer, k - 1));
            assert forall|d: int| 0 < d <= k implies (prev.contains(d) <==> !#[trigger] has_folded(ps[(dealer + d) % (ps.len() as int)])) by {
                if d == k && prev.contains(d) {
                    let w = choose|w: int| 0 <= w < prev.len() && prev[w] == d;
                    assert(prev[w] <= k - 1);
                }
            }
            prev
        }
    }
}

/// `seats` are the seats met going once round the table from the seat after the
/// dealer at the offsets `ds`: increasing offsets from 1 to `n`, an offset taken
/// exactly when the player there has not folded.
pub open spec fn round_from_dealer(ps: Seq<PlayerModel>, dealer: u32, seats: Seq<usize>, ds: Seq<int>) -> bool {
    &&& ds.len() == seats.len()
    &&& forall|i: int, j: int| 0 <= i < j < ds.len() ==> #[trigger] ds[i] < #[trigger] ds[j]
    &&& forall|i: int| 0 <= i < ds.len() ==> 0 < #[trigger] ds[i] <= ps.len()
    &&& forall|i: int| 0 <= i < ds.len() ==> #[trigger] seats[i] as int == (dealer + ds[i]) % (ps.len() as int)
    &&& forall|d: int| 0 < d <= ps.len()
        ==> (ds.contains(d) <==> !#[trigger] has_folded(ps[(dealer + d) % (ps.len() as int)]))
}

/// The players asked to redraw are asked in turn going round the table from the
/// seat after the dealer, once round: the seats asked sit at increasing offsets
/// from 1 to `n` after the dealer, and a seat at such an offset is asked exactly
/// when its player has not folded.
pub proof fn lemma_redraw_goes_round_from_dealer(ps: Seq<PlayerModel>, dealer: u32)
    requires
        0 < ps.len() <= u32::MAX,
    ensures
        exists|ds: Seq<int>| #[trigger] round_from_dealer(ps, dealer, redraw_seats(ps, dealer, ps.len() as int), ds),
{
    let ds = lemma_redraw_seats_offsets(ps, dealer, ps.len() as int);
    assert(round_from_dealer(ps, dealer, redraw_seats(ps, dealer, ps.len() as int), ds));
}

/// A player after throwing away the chosen cards, one at a time, and drawing as
/// many cards as were chosen, one at a time, from the deck; with the deck left.
pub open spec fn redrawn(p: PlayerModel, idx: Seq<u8>, deck: Seq<Card>) -> (PlayerModel, Seq<Card>) {
    draws(PlayerModel { hand: discard_steps(p.hand, idx, idx.len() as int), ..p }, deck, idx.len() as int)
}

impl FiveCardDraw {
    /// The seats asked to redraw, in turn from the seat after the dealer round the
    /// table, each seat whose player has not folded; none when at most one player
    /// is left.
    pub fn redraw_order(&self) -> (r: Vec<usize>)
        requires
            0 < self.game_state.players@.len() <= u32::MAX,
            self.game_state.dealer + self.game_state.players@.len() <= u32::MAX,
        ensures
            remaining(self.game_state@.players) <= 1 ==> r@ == Seq::<usize>::empty(),
            remaining(self.game_state@.players) > 1 ==> r@ == redraw_seats(self.game_state@.players,
                self.game_state.dealer, self.game_state.players@.len() as int),
    {
        if self.game_state.get_remaining_player_count() <= 1 {
            return Vec::new();
        }
        let ghost ps = self.game_state@.players;
        let n = self.game_state.players.len() as u32;
        let dealer = self.game_state.dealer;
        let mut order: Vec<usize> = Vec::new();
        let mut index: u32 = 0;
        while index < n
            invariant
                0 <= index <= n,
                n as int == ps.len(),
                n > 0,
                dealer + n <= u32::MAX,
                dealer == self.game_state.dealer,
                ps == self.game_state@.players,
                ps.len() == self.game_state.players@.len(),
                order@ == redraw_seats(ps, dealer, index as int),
            decreases n - index,
        {
            let seat = ((dealer + index + 1) % n) as usize;
            assert(ps[seat as int] == self.game_state.players@[seat as int]@);
            if !self.game_state.players[seat].player_choices.fold {
                order.push(seat);
            }
            index = index + 1;
        }
        order
    }

    /// The player at `seat` throws away the chosen cards, given by number from 1
    /// in increasing order, one at a time (a number past the end of the hand is
    /// passed over), then draws as many cards as were chosen, one at a time, from
    /// the deck.
    pub fn redraw(&mut self, seat: usize, chosen: &Vec<u8>)
        requires
            seat < old(self).game_state.players@.len(),
            valid_discards(chosen@),
            old(self).game_state@.players[seat as int].hand.len() + chosen@.len() <= 255,
        ensures
            final(self).game_state@ == (TableModel {
                players: old(self).game_state@.players.update(seat as int,
                    redrawn(old(self).game_state@.players[seat as int], chosen@, old(self).game_state@.deck).0),
                deck: redrawn(old(self).game_state@.players[seat as int], chosen@, old(self).game_state@.deck).1,
                ..old(self).game_state@
            }),
    {
        proof { lemma_valid_discards_bounds(chosen@); }
        let ghost start = self.game_state@;
        let ghost p0 = start.players[seat as int];
        let ghost idx = chosen@;
        assert(p0 == self.game_state.players@[seat as int]@);
        let mut handled: u8 = 1;
        let mut k: usize = 0;
        while k < chosen.len()
            invariant
                0 <= k <= chosen@.len(),
                idx == chosen@,
                idx.len() <= 5,
                forall|i: int| 0 <= i < idx.len() ==> #[trigger] idx[i] >= i + 1,
                handled == k + 1,
                seat < self.game_state.players@.len(),
                self.game_state.players@.len() == start.players.len(),
                self.game_state@ == (TableModel { players: models(self.game_state.players@), ..start }),
                forall|j: int| 0 <= j < start.players.len() && j != seat ==> #[trigger] self.game_state.players@[j]@ == start.players[j],
                self.game_state.players@[seat as int]@ == (PlayerModel { hand: discard_steps(p0.hand, idx, k as int), ..p0 }),
                discard_steps(p0.hand, idx, k as int).len() <= p0.hand.len(),
            decreases chosen@.len() - k,
        {
            assert(idx[k as int] >= k + 1);
            let adjusted = chosen[k] - handled;
            let ghost before = models(self.game_state.players@);
            let _ = self.game_state.players[seat].player_hand.discard(adjusted);
            proof {
                assert(models(self.game_state.players@) =~= before.update(seat as int, self.game_state.players@[seat as int]@));
            }
            handled = handled + 1;
            k = k + 1;
        }
        let ghost mid = models(self.game_state.players@)[seat as int];
        let mut d: u8 = 1;
        while d < handled
            invariant
                1 <= d <= handled,
                handled == idx.len() + 1,
                idx.len() <= 5,
                seat < self.game_state.players@.len(),
                self.game_state.players@.len() == start.players.len(),
                self.game_state@ == (TableModel { players: models(self.game_state.players@), deck: self.game_state.deck@, ..start }),
                forall|j: int| 0 <= j < start.players.len() && j != seat ==> #[trigger] self.game_state.players@[j]@ == start.players[j],
                (self.game_state.players@[seat as int]@, self.game_state.deck@) == draws(mid, start.deck, d - 1),
                mid.hand.len() + idx.len() <= 255,
                self.game_state.players@[seat as int]@.hand.len() <= mid.hand.len() + d - 1,
            decreases handled - d,
        {
            let ghost before = models(self.game_state.players@);
            let _ = self.game_state.players[seat].draw_card(&mut self.game_state.deck);
            proof {
                assert(models(self.game_state.players@) =~= before.update(seat as int, self.game_state.players@[seat as int]@));
            }
            d = d + 1;
        }
        proof {
            assert(models(self.game_state.players@) =~= start.players.update(seat as int, redrawn(p0, idx, start.deck).0));
        }
    }
}

/// Deals `num_cards` rounds of one card, turned as `up` says, to the unfolded
/// players of a table, unless at most one is left.
fn deal_on_table(table: &mut GameState, num_cards: u32, up: bool)
    requires
        old(table).players@.len() <= u32::MAX,
        forall|k: int| 0 <= k < old(table).players@.len()
            ==> #[trigger] old(table)@.players[k].hand.len() + num_cards <= 255,
    ensures
        remaining(old(table)@.players) <= 1 ==> final(table)@ == old(table)@,
        remaining(old(table)@.players) > 1 ==> final(table)@ == (TableModel {
            players: deal_rounds(old(table)@.players, old(table)@.deck, up, num_cards as int).0,
            deck: deal_rounds(old(table)@.players, old(table)@.deck, up, num_cards as int).1,
            ..old(table)@
        }),
{
    if table.get_remaining_player_count() <= 1 {
        return;
    }
    assert forall|k: int| 0 <= k < table.players@.len()
        implies #[trigger] table.players@[k]@.hand.len() + num_cards <= 255 by {
        assert(table@.players[k] == table.players@[k]@);
    }
    deal_rounds_to(&mut table.players, &mut table.deck, num_cards, up);
}

impl PokerGame for SevenCardStud {
    open spec fn table(&self) -> TableModel {
        self.game_state@
    }

    /// Every player still in holds at least five cards.
    open spec fn hands_scorable(&self) -> bool {
        forall|k: int| 0 <= k < self.game_state@.players.len() && !has_folded(self.game_state@.players[k])
            ==> #[trigger] self.game_state@.players[k].hand.len() >= 5
    }

    /// A new game of seven card stud: a new table with hands of seven, at most seven
    /// players and a minimum bet of 5; betting limits of 5 and 10.
    fn new(_ls: LoadState) -> (r: SevenCardStud)
        ensures
            is_variant_table(r.game_state@, "7 Card Stud"@, 7, 7),
            r.lower_bet == 5,
            r.higher_bet == 10,
    {
        let mut game_state = GameState::new_game(0);
        game_state.game_variant = String::from_str("7 Card Stud");
        game_state.hand_size = 7;
        game_state.max_players = 7;
        game_state.minimum_bet = 5;
        SevenCardStud { game_state, lower_bet: 5, higher_bet: 10 }
    }

    /// Starts a new game with the given id: a new deck, an empty pot, the first
    /// stage, no bets or winners, the dealer one seat on, and every player ready
    /// with an empty hand of seven; the betting limits stay.
    fn new_round(&mut self, game_id: u32)
        ensures
            exists|d: Seq<Card>| #[trigger] is_new_deck(d)
                && final(self).game_state@ == fresh_table(old(self).game_state@, game_id, 7, d),
            final(self).lower_bet == old(self).lower_bet,
            final(self).higher_bet == old(self).higher_bet,
    {
        start_table(&mut self.game_state, game_id, 7);
    }

    /// When at most one player is left, every player still in wins with a high
    /// card of five twos; otherwise each hand still in is scored by its best five
    /// cards and the winners are the seats with the best score (at least that high
    /// card), in seat order.
    fn determine_winner(&self) -> (r: Vec<(u32, ScoredHand)>)
        ensures
            remaining(self.game_state@.players) <= 1
                ==> r@ == unfolded_seats(self.game_state@.players, opening_five(), self.game_state@.players.len() as int),
            remaining(self.game_state@.players) > 1 ==> exists|scores: Seq<ScoredHand>|
                #[trigger] seven_scores(self.game_state@.players, scores)
                && r@ == seat_scan(self.game_state@.players, scores, opening_five(),
                    self.game_state@.players.len() as int).1,
    {
        let start = ScoredHand::HighCard([Value::Two, Value::Two, Value::Two, Value::Two, Value::Two]);
        let players = &self.game_state.players;
        let ghost ps = self.game_state@.players;
        assert(ps.len() == players@.len());
        proof {
            lemma_unfolded_seats_seats(ps, start, ps.len() as int);
        }
        if self.game_state.get_remaining_player_count() <= 1 {
            return unfolded_seat_list(players, start);
        }
        let mut scores: Vec<ScoredHand> = Vec::new();
        let mut i: usize = 0;
        while i < players.len()
            invariant
                0 <= i <= players@.len(),
                ps == models(players@),
                scores@.len() == i,
                forall|k: int| 0 <= k < ps.len() && !has_folded(ps[k]) ==> #[trigger] ps[k].hand.len() >= 5,
                forall|k: int| 0 <= k < i && !has_folded(ps[k]) ==> is_best_of(ps[k].hand, #[trigger] scores@[k]),
            decreases players@.len() - i,
        {
            assert(ps[i as int] == players@[i as int]@);
            if !players[i].player_choices.fold {
                assert(!has_folded(ps[i as int]));
                assert(ps[i as int].hand == players@[i as int].player_hand.cards@);
                let s = get_best_from_7_card_hand(&players[i].player_hand);
                scores.push(s);
            } else {
                scores.push(start);
            }
            i = i + 1;
        }
        let winners = select_winner_seats(players, &scores, start);
        proof {
            lemma_seat_scan_seats(ps, scores@, start, ps.len() as int);
        }
        assert(seven_scores(ps, scores@));
        winners
    }

    fn pay_out(&mut self, winners: Vec<(u32, ScoredHand)>)
        ensures
            final(self).lower_bet == old(self).lower_bet,
            final(self).higher_bet == old(self).higher_bet,
    {
        assert(self.game_state@.players.len() == self.game_state.players@.len());
        self.game_state.pay_out(winners);
    }
}

impl SevenCardStud {

    /// Every seat in turn has the first player with its id pay an ante of 2 into
    /// the pot.
    pub fn put_antes(&mut self)
        requires
            ante_payable(old(self).game_state@.players, old(self).game_state.pot,
                old(self).game_state.players@.len() as int),
        ensures
            final(self).game_state@ == (TableModel {
                players: ante_scan(old(self).game_state@.players, old(self).game_state.pot,
                    old(self).game_state.players@.len() as int).0,
                pot: ante_scan(old(self).game_state@.players, old(self).game_state.pot,
                    old(self).game_state.players@.len() as int).1,
                ..old(self).game_state@
            }),
            final(self).lower_bet == old(self).lower_bet,
            final(self).higher_bet == old(self).higher_bet,
    {
        let ghost start = self.game_state@;
        let ghost ps = start.players;
        let mut ids: Vec<u32> = Vec::new();
        let mut i: usize = 0;
        while i < self.game_state.players.len()
            invariant
                0 <= i <= self.game_state.players@.len(),
                ps == self.game_state@.players,
                ids@.len() == i,
                forall|k: int| 0 <= k < i ==> #[trigger] ids@[k] == ps[k].player_id,
            decreases self.game_state.players@.len() - i,
        {
            assert(ps[i as int] == self.game_state.players@[i as int]@);
            ids.push(self.game_state.players[i].player_id);
            i = i + 1;
        }
        let mut j: usize = 0;
        while j < ids.len()
            invariant
                0 <= j <= ids@.len(),
                ids@.len() == ps.len(),
                forall|k: int| 0 <= k < ps.len() ==> #[trigger] ids@[k] == ps[k].player_id,
                ante_payable(ps, start.pot, ps.len() as int),
                self.game_state@ == (TableModel {
                    players: ante_scan(ps, start.pot, j as int).0,
                    pot: ante_scan(ps, start.pot, j as int).1,
                    ..start
                }),
                self.lower_bet == old(self).lower_bet,
                self.higher_bet == old(self).higher_bet,
            decreases ids@.len() - j,
        {
            proof {
                lemma_ante_payable_prefix(ps, start.pot, ps.len() as int, j + 1);
                lemma_ante_keeps_ids(ps, start.pot, j as int);
                lemma_first_with_id_same_ids(ante_scan(ps, start.pot, j as int).0, ps, ids@[j as int], 0);
                lemma_first_with_id_range(ps, ps[j as int].player_id, 0);
            }
            self.game_state.put_into_pot(ids[j], 2);
            j = j + 1;
        }
    }

    /// Deals `num_cards` rounds of one face-down card to the players who have not
    /// folded, unless at most one is left.
    pub fn deal_face_down(&mut self, num_cards: u32)
        requires
            old(self).game_state.players@.len() <= u32::MAX,
            forall|k: int| 0 <= k < old(self).game_state.players@.len()
                ==> #[trigger] old(self).game_state@.players[k].hand.len() + num_cards <= 255,
        ensures
            remaining(old(self).game_state@.players) <= 1 ==> final(self).game_state@ == old(self).game_state@,
            remaining(old(self).game_state@.players) > 1 ==> final(self).game_state@ == (TableModel {
                players: deal_rounds(old(self).game_state@.players, old(self).game_state@.deck, false, num_cards as int).0,
                deck: deal_rounds(old(self).game_state@.players, old(self).game_state@.deck, false, num_cards as int).1,
                ..old(self).game_state@
            }),
            final(self).lower_bet == old(self).lower_bet,
            final(self).higher_bet == old(self).higher_bet,
    {
        deal_on_table(&mut self.game_state, num_cards, false);
    }

    /// Deals `num_cards` rounds of one face-up card to the players who have not
    /// folded, unless at most one is left.
    pub fn deal_face_up(&mut self, num_cards: u32)
        requires
            old(self).game_state.players@.len() <= u32::MAX,
            forall|k: int| 0 <= k < old(self).game_state.players@.len()
                ==> #[trigger] old(self).game_state@.players[k].hand.len() + num_cards <= 255,
        ensures
            remaining(old(self).game_state@.players) <= 1 ==> final(self).game_state@ == old(self).game_state@,
            remaining(old(self).game_state@.players) > 1 ==> final(self).game_state@ == (TableModel {
                players: deal_rounds(old(self).game_state@.players, old(self).game_state@.deck, true, num_cards as int).0,
                deck: deal_rounds(old(self).game_state@.players, old(self).game_state@.deck, true, num_cards as int).1,
                ..old(self).game_state@
            }),
            final(self).lower_bet == old(self).lower_bet,
            final(self).higher_bet == old(self).higher_bet,
    {
        deal_on_table(&mut self.game_state, num_cards, true);
    }

    /// The seat whose lowest face-up card is lowest among the players who have not
    /// folded, starting from the first seat; ties go to the earlier seat.
    pub fn determine_lowest_door(&self) -> (r: u32)
        requires
            0 < self.game_state.players@.len() <= u32::MAX,
            forall|k: int| 0 <= k < self.game_state.players@.len()
                && (k == 0 || !has_folded(self.game_state@.players[k]))
                ==> 0 < #[trigger] face_up_cards(self.game_state@.players[k].hand).len() <= 255,
        ensures
            r == lowest_scan(self.game_state@.players, self.game_state.players@.len() as int),
    {
        let r = lowest_door_seat(&self.game_state.players);
        proof { crate::rounds::lemma_lowest_scan_bound(self.game_state@.players, self.game_state.players@.len() as int); }
        r as u32
    }

    /// The seat whose highest face-up card is highest among the players who have
    /// not folded, starting from the first seat; ties go to the earlier seat.
    pub fn determine_highest_door(&self) -> (r: u32)
        requires
            0 < self.game_state.players@.len() <= u32::MAX,
            forall|k: int| 0 <= k < self.game_state.players@.len()
                && (k == 0 || !has_folded(self.game_state@.players[k]))
                ==> 0 < #[trigger] face_up_cards(self.game_state@.players[k].hand).len() <= 255,
        ensures
            r == highest_card_scan(self.game_state@.players, self.game_state.players@.len() as int),
    {
        let players = &self.game_state.players;
        let ghost ps = models(players@);
        assert(ps == self.game_state@.players);
        assert forall|k: int| 0 <= k < ps.len() && (k == 0 || !has_folded(ps[k]))
            implies 0 < #[trigger] face_up_cards(ps[k].hand).len() <= 255 by {
            assert(ps[k] == self.game_state@.players[k]);
        }
        let mut highest_index: usize = 0;
        let mut i: usize = 0;
        while i < players.len()
            invariant
                0 <= i <= players@.len(),
                ps == models(players@),
                ps == self.game_state@.players,
                ps.len() == players@.len(),
                ps.len() > 0,
                players@.len() <= u32::MAX,
                forall|k: int| 0 <= k < ps.len() && (k == 0 || !has_folded(ps[k]))
                    ==> 0 < #[trigger] face_up_cards(ps[k].hand).len() <= 255,
                highest_index == highest_card_scan(ps, i as int),
            decreases players@.len() - i,
        {
            proof { lemma_highest_card_seat(ps, i as int); }
            if !players[i].player_choices.fold {
                assert(ps[i as int] == players@[i as int]@);
                assert(ps[highest_index as int] == players@[highest_index as int]@);
                assert(!has_folded(ps[i as int]));
                assert(0 < face_up_cards(ps[i as int].hand).len() <= 255);
                assert(0 < face_up_cards(ps[highest_index as int].hand).len() <= 255);
                let mut face_up = players[i].player_hand.get_face_up_cards();
                let player_value = face_up.get_largest_value();
                let mut highest_face_up = players[highest_index].player_hand.get_face_up_cards();
                let highest_value = highest_face_up.get_largest_value();
                if player_value.as_u8() > highest_value.as_u8() {
                    highest_index = i;
                }
            }
            i = i + 1;
        }
        proof { lemma_highest_card_seat(ps, ps.len() as int); }
        highest_index as u32
    }
}

/// Antes of a prefix of the seats are payable when those of all seats are.
proof fn lemma_ante_payable_prefix(ps: Seq<PlayerModel>, pot: u32, n: int, m: int)
    requires
        0 <= m <= n,
        ante_payable(ps, pot, n),
    ensures
        ante_payable(ps, pot, m),
    decreases n - m,
{
    if m < n {
        lemma_ante_payable_prefix(ps, pot, n - 1, m);
    }
}

} // verus!
