//! Steps of a game that work on one player's cards: swapping discards for new
//! cards, and finding the player whose face-up cards open the betting.

use vstd::prelude::*;
use crate::card::{Card, Suit, Value};
use crate::deck::{standard_cards, Deck};
use crate::game_state::{
    blind_tokens, blinds_players, deal_pass, deal_rounds, first_named_from, has_folded, models, remaining,
    texts, winner_models, with_token, GameModel, GameState,
};
use crate::hand::{face_up_cards, lemma_sort_orders_hand, lemma_sorted_desc_len, sort_key, sorted_desc, Hand};
use crate::player::{no_choices, Player, PlayerModel};
use crate::score_hands::{
    compare_scores, get_best_5_card_hand, is_hand_score, lemma_score_order_antisymmetric, lemma_score_order_reflexive,
    lemma_score_order_transitive, score_order, ScoredHand,
};
use crate::showdown::opening_seven;

verus! {

/// The hand and the deck after the cards at the first `n` of the given positions
/// are swapped, in order, for cards dealt from the top of the deck; a position past
/// the end of the hand, or an empty deck, swaps nothing.
pub open spec fn swap_cards(hand: Seq<Card>, deck: Seq<Card>, idx: Seq<usize>, n: int) -> (Seq<Card>, Seq<Card>)
    decreases n,
{
    if n <= 0 {
        (hand, deck)
    } else {
        let (h, d) = swap_cards(hand, deck, idx, n - 1);
        let at = idx[n - 1] as int;
        if at < h.len() && d.len() > 0 {
            (h.update(at, d.last()), d.drop_last())
        } else {
            (h, d)
        }
    }
}

/// The value number of the lowest face-up card of a player (the last after
/// sorting by value and suit, highest first).
pub open spec fn low_door(p: PlayerModel) -> int {
    sorted_desc(face_up_cards(p.hand)).last().value.num() as int
}

/// The seat with the lowest face-up card among the first `n` seats: the first seat
/// to start with, replaced by each later unfolded player whose lowest face-up card is
/// strictly lower.
pub open spec fn lowest_scan(ps: Seq<PlayerModel>, n: int) -> int
    decreases n,
{
    if n <= 0 {
        0
    } else {
        let l = lowest_scan(ps, n - 1);
        if !has_folded(ps[n - 1]) && low_door(ps[n - 1]) < low_door(ps[l]) {
            n - 1
        } else {
            l
        }
    }
}

/// The five places of a scoring hand, filled with the given cards from the start
/// and keeping the earlier cards past them.
pub open spec fn door_hand(buf: Seq<Card>, up: Seq<Card>) -> Seq<Card> {
    Seq::new(5, |i: int| if i < up.len() { up[i] } else { buf[i] })
}

/// Five cards of empty value and suit, face down.
pub open spec fn empty_cards() -> Seq<Card> {
    Seq::new(5, |i: int| Card { value: Value::Empty, suit: Suit::Empty, face_up: false })
}

/// The five places after the first `n` seats have laid out their face-up cards in
/// turn; a player who has folded lays out nothing.
pub open spec fn door_buffer(ps: Seq<PlayerModel>, n: int) -> Seq<Card>
    decreases n,
{
    if n <= 0 {
        empty_cards()
    } else {
        let b = door_buffer(ps, n - 1);
        if has_folded(ps[n - 1]) {
            b
        } else {
            door_hand(b, face_up_cards(ps[n - 1].hand))
        }
    }
}

/// The seat with the highest scoring face-up cards among the first `n` seats, with
/// its score: the first seat and the opening score to start with, replaced by each
/// unfolded player who scores strictly higher.
pub open spec fn highest_scan(ps: Seq<PlayerModel>, scores: Seq<ScoredHand>, n: int) -> (int, ScoredHand)
    decreases n,
{
    if n <= 0 {
        (0, opening_seven())
    } else {
        let (hi, hv) = highest_scan(ps, scores, n - 1);
        if !has_folded(ps[n - 1]) && score_order(scores[n - 1], hv) > 0 {
            (n - 1, scores[n - 1])
        } else {
            (hi, hv)
        }
    }
}

/// Whether `scores` holds, for each unfolded player, the score of the five places
/// once that player has laid out the face-up cards.
pub open spec fn door_scores(ps: Seq<PlayerModel>, scores: Seq<ScoredHand>) -> bool {
    &&& scores.len() == ps.len()
    &&& forall|k: int| 0 <= k < ps.len() && !has_folded(ps[k])
        ==> is_hand_score(door_buffer(ps, k + 1), #[trigger] scores[k])
}

/// Each unfolded player is scored on all of the player's face-up cards: the five
/// places scored for that seat begin with its face-up cards, up to five of them,
/// in order.
pub proof fn lemma_door_scored_on_all_face_up(ps: Seq<PlayerModel>, k: int)
    requires
        0 <= k < ps.len(),
        !has_folded(ps[k]),
    ensures
        door_buffer(ps, k + 1).len() == 5,
        forall|i: int| 0 <= i < 5 && i < face_up_cards(ps[k].hand).len()
            ==> #[trigger] door_buffer(ps, k + 1)[i] == face_up_cards(ps[k].hand)[i],
{
    lemma_door_buffer_len(ps, k + 1);
    assert(door_buffer(ps, k + 1) == door_hand(door_buffer(ps, k), face_up_cards(ps[k].hand)));
}

/// The seat the scan settles on holds the highest score: its score is at least that
/// of every unfolded seat scanned and strictly above that of every unfolded seat
/// before it, so ties go to the earlier seat; it is that seat's own score, above the
/// opening score, unless no unfolded player beats the opening score, when the first
/// seat is chosen with the opening score.
pub proof fn lemma_highest_scan_is_highest(ps: Seq<PlayerModel>, scores: Seq<ScoredHand>, n: int)
    requires
        0 <= n <= ps.len(),
        n <= scores.len(),
    ensures
        forall|k: int| 0 <= k < n && !has_folded(ps[k])
            ==> score_order(highest_scan(ps, scores, n).1, #[trigger] scores[k]) >= 0,
        forall|k: int| 0 <= k < highest_scan(ps, scores, n).0 && !has_folded(ps[k])
            ==> score_order(highest_scan(ps, scores, n).1, #[trigger] scores[k]) > 0,
        (highest_scan(ps, scores, n).0 == 0 && highest_scan(ps, scores, n).1 == opening_seven()) || {
            let seat = highest_scan(ps, scores, n).0;
            &&& 0 <= seat < n
            &&& !has_folded(ps[seat])
            &&& highest_scan(ps, scores, n).1 == scores[seat]
            &&& score_order(scores[seat], opening_seven()) > 0
        },
    decreases n,
{
    if n > 0 {
        lemma_highest_scan_is_highest(ps, scores, n - 1);
        let (hi, hv) = highest_scan(ps, scores, n - 1);
        lemma_score_order_reflexive(hv);
        if !has_folded(ps[n - 1]) && score_order(scores[n - 1], hv) > 0 {
            let best = scores[n - 1];
            assert forall|k: int| 0 <= k < n && !has_folded(ps[k])
                implies score_order(best, #[trigger] scores[k]) >= 0 by {
                if k < n - 1 {
                    lemma_score_order_transitive(best, hv, scores[k]);
                } else {
                    lemma_score_order_reflexive(best);
                }
            }
            assert forall|k: int| 0 <= k < n - 1 && !has_folded(ps[k])
                implies score_order(best, #[trigger] scores[k]) > 0 by {
                lemma_score_order_transitive(best, hv, scores[k]);
            }
            if hv != opening_seven() {
                lemma_score_order_transitive(best, hv, opening_seven());
            }
        } else {
            if !has_folded(ps[n - 1]) {
                lemma_score_order_antisymmetric(scores[n - 1], hv);
            }
        }
    }
}

/// A player's lowest face-up card: no face-up card of the player has a lower value,
/// and one of them has exactly that value.
pub proof fn lemma_low_door_is_lowest(p: PlayerModel)
    requires
        face_up_cards(p.hand).len() > 0,
    ensures
        forall|i: int| 0 <= i < face_up_cards(p.hand).len()
            ==> low_door(p) <= #[trigger] face_up_cards(p.hand)[i].value.num(),
        exists|i: int| 0 <= i < face_up_cards(p.hand).len()
            && #[trigger] face_up_cards(p.hand)[i].value.num() == low_door(p),
{
    broadcast use vstd::seq_lib::group_to_multiset_ensures;

    let s = face_up_cards(p.hand);
    let t = sorted_desc(s);
    lemma_sorted_desc_len(s);
    lemma_sort_orders_hand(s);
    let n = t.len() as int;
    let last = t[n - 1];
    assert(t.last() == last);
    assert forall|i: int| 0 <= i < s.len() implies low_door(p) <= #[trigger] s[i].value.num() by {
        assert(s.contains(s[i]));
        assert(s.to_multiset().count(s[i]) > 0);
        assert(t.contains(s[i]));
        let j = choose|j: int| 0 <= j < t.len() && t[j] == s[i];
        if j < n - 1 {
            assert(sort_key(t[j]) >= sort_key(t[n - 1]));
        }
        assert(sort_key(s[i]) >= sort_key(last));
    }
    assert(t.contains(last));
    assert(t.to_multiset().count(last) > 0);
    assert(s.contains(last));
    let i = choose|i: int| 0 <= i < s.len() && s[i] == last;
    assert(s[i].value.num() == low_door(p));
}

/// The seat the lowest scan settles on holds the lowest face-up card: it is the
/// first seat or an unfolded one, its lowest face-up card is no higher than that of
/// the first seat or of any unfolded seat scanned, and strictly lower than that of
/// each of those before it, so ties go to the earlier seat.
pub proof fn lemma_lowest_scan_is_lowest(ps: Seq<PlayerModel>, n: int)
    requires
        0 < n <= ps.len(),
    ensures
        0 <= lowest_scan(ps, n) < n,
        lowest_scan(ps, n) == 0 || !has_folded(ps[lowest_scan(ps, n)]),
        forall|k: int| 0 <= k < n && (k == 0 || !has_folded(ps[k]))
            ==> low_door(ps[lowest_scan(ps, n)]) <= #[trigger] low_door(ps[k]),
        forall|k: int| 0 <= k < lowest_scan(ps, n) && (k == 0 || !has_folded(ps[k]))
            ==> low_door(ps[lowest_scan(ps, n)]) < #[trigger] low_door(ps[k]),
    decreases n,
{
    if n > 1 {
        lemma_lowest_scan_is_lowest(ps, n - 1);
    } else {
        assert(lowest_scan(ps, 0) == 0);
    }
}

/// The lowest scan ends on a seat of the table.
pub(crate) proof fn lemma_lowest_scan_bound(ps: Seq<PlayerModel>, n: int)
    requires
        0 <= n <= ps.len(),
        ps.len() > 0,
    ensures
        0 <= lowest_scan(ps, n) < ps.len(),
{
    lemma_lowest_scan_seat(ps, n);
}

/// The lowest scan ends on the first seat or on a player who has not folded.
proof fn lemma_lowest_scan_seat(ps: Seq<PlayerModel>, n: int)
    requires
        0 <= n <= ps.len(),
        ps.len() > 0,
    ensures
        0 <= lowest_scan(ps, n) < ps.len(),
        lowest_scan(ps, n) == 0 || !has_folded(ps[lowest_scan(ps, n)]),
    decreases n,
{
    if n > 0 {
        lemma_lowest_scan_seat(ps, n - 1);
    }
}

/// A player made ready for a new game: no choices, no last move, nothing wagered
/// or won, an empty hand that may hold `hand_size` cards, and a balance refilled to
/// 1000 when it has fallen below 10.
pub open spec fn ready_for_game(p: PlayerModel, hand_size: u8) -> PlayerModel {
    PlayerModel {
        choices: no_choices(),
        last_move: Seq::empty(),
        total_wagered_per_game: 0,
        round_win: 0,
        hand: Seq::empty(),
        hand_limit: hand_size,
        player_money: if p.player_money < 10 { 1000 } else { p.player_money },
        ..p
    }
}

/// The model of a player with every field empty or zero.
pub open spec fn blank_player() -> PlayerModel {
    PlayerModel { player_money: 0, player_name: Seq::empty(), choices: no_choices(), ..Player::fresh(Seq::empty()) }
}

/// Whether a deck holds the 52 cards of a standard deck, in any order.
pub open spec fn is_new_deck(d: Seq<Card>) -> bool {
    d.len() == 52 && d.to_multiset() == standard_cards().to_multiset()
}

/// The table as a new game of the given variant starts, before any card is dealt:
/// the new deck, id and hand size, at most seven players, an empty pot, a minimum
/// bet of 5, demo mode "inactive", no winners, no current player, five empty
/// community places, an empty history, and every player made ready.
pub open spec fn round_reset(m: GameModel, variant: Seq<char>, game_id: u32, hand_size: u8, deck: Seq<Card>) -> GameModel {
    GameModel {
        deck,
        game_variant: variant,
        game_id,
        hand_size,
        max_players: 7,
        pot: 0,
        minimum_bet: 5,
        demo_mode: "inactive"@,
        round_number: 0,
        highest_bet: 0,
        winner: Seq::empty(),
        current_player: blank_player(),
        player_action: Seq::empty(),
        community_cards: Seq::empty(),
        community_limit: 5,
        discard_cards_prompted: false,
        current_action_string: Seq::empty(),
        action_history: Seq::empty(),
        raise_min_max: (0, 0),
        players: m.players.map_values(|p: PlayerModel| ready_for_game(p, hand_size)),
        ..m
    }
}

/// The table after `k` rounds of one card each, turned as `up` says, are dealt to
/// the unfolded players, when more than one is left.
pub open spec fn dealt_to(m: GameModel, up: bool, k: int) -> GameModel {
    if remaining(m.players) > 1 {
        GameModel {
            players: deal_rounds(m.players, m.deck, up, k).0,
            deck: deal_rounds(m.players, m.deck, up, k).1,
            ..m
        }
    } else {
        m
    }
}

/// The table after the blinds are bet and the dealer and blind tokens handed out.
pub open spec fn blinds_and_tokens(m: GameModel) -> GameModel {
    GameModel {
        players: blind_tokens(blinds_players(m.players, m.dealer, m.minimum_bet), m.dealer),
        highest_bet: m.minimum_bet,
        pot: (m.minimum_bet + m.minimum_bet / 2) as u32,
        ..m
    }
}

/// The start of a five card draw game with the given id and deck: five face-down
/// cards each, then the blinds and tokens.
pub open spec fn five_card_start(m: GameModel, game_id: u32, deck: Seq<Card>) -> GameModel {
    blinds_and_tokens(dealt_to(round_reset(m, "5 Card Draw"@, game_id, 5, deck), false, 5))
}

/// The start of a seven card stud game with the given id and deck: two face-down
/// cards and one face-up card each, then the dealer token.
pub open spec fn seven_card_start(m: GameModel, game_id: u32, deck: Seq<Card>) -> GameModel {
    let m1 = dealt_to(dealt_to(round_reset(m, "7 Card Stud"@, game_id, 7, deck), false, 2), true, 1);
    GameModel {
        players: m1.players.update(m1.dealer as int, with_token(m1.players[m1.dealer as int], "D"@)),
        ..m1
    }
}

/// The start of a Texas hold'em game with the given id and deck: two face-down
/// cards each, then the blinds and tokens.
pub open spec fn texas_start(m: GameModel, game_id: u32, deck: Seq<Card>) -> GameModel {
    blinds_and_tokens(dealt_to(round_reset(m, "Texas Hold'em"@, game_id, 2, deck), false, 2))
}

/// A pass of a deal from seat `i` changes only hands, of the seats from `i` on, by
/// at most one card each.
proof fn lemma_deal_pass_keeps(ps: Seq<PlayerModel>, deck: Seq<Card>, up: bool, i: int)
    requires
        0 <= i,
    ensures
        deal_pass(ps, deck, up, i).0.len() == ps.len(),
        forall|k: int| 0 <= k < ps.len() ==> #[trigger] deal_pass(ps, deck, up, i).0[k]
            == (PlayerModel { hand: deal_pass(ps, deck, up, i).0[k].hand, ..ps[k] }),
        forall|k: int| 0 <= k < ps.len() ==> #[trigger] deal_pass(ps, deck, up, i).0[k].hand.len()
            <= ps[k].hand.len() + 1,
        forall|k: int| 0 <= k < i && k < ps.len() ==> #[trigger] deal_pass(ps, deck, up, i).0[k] == ps[k],
    decreases ps.len() - i,
{
    if i < ps.len() {
        let (p, d) = crate::game_state::deal_one(ps[i], deck, up);
        let ps1 = ps.update(i, p);
        lemma_deal_pass_keeps(ps1, d, up, i + 1);
        assert forall|k: int| 0 <= k < ps.len() implies #[trigger] deal_pass(ps, deck, up, i).0[k]
            == (PlayerModel { hand: deal_pass(ps, deck, up, i).0[k].hand, ..ps[k] }) by {
            assert(ps1[k] == (PlayerModel { hand: ps1[k].hand, ..ps[k] }));
        }
        assert forall|k: int| 0 <= k < ps.len() implies #[trigger] deal_pass(ps, deck, up, i).0[k].hand.len()
            <= ps[k].hand.len() + 1 by {
            if k != i {
                assert(ps1[k] == ps[k]);
            } else {
                assert(deal_pass(ps, deck, up, i).0[k] == ps1[k]);
            }
        }
        assert forall|k: int| 0 <= k < i && k < ps.len() implies #[trigger] deal_pass(ps, deck, up, i).0[k] == ps[k] by {
            assert(ps1[k] == ps[k]);
        }
    }
}

/// `k` rounds of a deal change only hands, by at most `k` cards each.
proof fn lemma_deal_rounds_keeps(ps: Seq<PlayerModel>, deck: Seq<Card>, up: bool, k: int)
    requires
        0 <= k,
    ensures
        deal_rounds(ps, deck, up, k).0.len() == ps.len(),
        forall|j: int| 0 <= j < ps.len() ==> #[trigger] deal_rounds(ps, deck, up, k).0[j]
            == (PlayerModel { hand: deal_rounds(ps, deck, up, k).0[j].hand, ..ps[j] }),
        forall|j: int| 0 <= j < ps.len() ==> #[trigger] deal_rounds(ps, deck, up, k).0[j].hand.len()
            <= ps[j].hand.len() + k,
    decreases k,
{
    if k > 0 {
        let (ps1, d1) = deal_pass(ps, deck, up, 0);
        lemma_deal_pass_keeps(ps, deck, up, 0);
        lemma_deal_rounds_keeps(ps1, d1, up, k - 1);
        assert forall|j: int| 0 <= j < ps.len() implies #[trigger] deal_rounds(ps, deck, up, k).0[j]
            == (PlayerModel { hand: deal_rounds(ps, deck, up, k).0[j].hand, ..ps[j] }) by {
            assert(ps1[j] == (PlayerModel { hand: ps1[j].hand, ..ps[j] }));
        }
        assert forall|j: int| 0 <= j < ps.len() implies #[trigger] deal_rounds(ps, deck, up, k).0[j].hand.len()
            <= ps[j].hand.len() + k by {
            assert(ps1[j].hand.len() <= ps[j].hand.len() + 1);
        }
    }
}

/// The seat of the player whose lowest face-up card is lowest, among the players
/// who have not folded, starting from the first seat; ties go to the earlier seat.
pub fn lowest_door_seat(players: &Vec<Player>) -> (r: usize)
    requires
        players@.len() > 0,
        forall|k: int| 0 <= k < players@.len() && (k == 0 || !has_folded(models(players@)[k]))
            ==> 0 < #[trigger] face_up_cards(models(players@)[k].hand).len() <= 255,
    ensures
        r == lowest_scan(models(players@), players@.len() as int),
{
    let ghost ps = models(players@);
    let mut lowest_index: usize = 0;
    let mut i: usize = 0;
    while i < players.len()
        invariant
            0 <= i <= players@.len(),
            ps == models(players@),
            ps.len() == players@.len(),
            ps.len() > 0,
            forall|k: int| 0 <= k < ps.len() && (k == 0 || !has_folded(ps[k]))
                ==> 0 < #[trigger] face_up_cards(ps[k].hand).len() <= 255,
            lowest_index == lowest_scan(ps, i as int),
        decreases players@.len() - i,
    {
        proof { lemma_lowest_scan_seat(ps, i as int); }
        if !players[i].player_choices.fold {
            assert(ps[i as int] == players@[i as int]@);
            assert(ps[lowest_index as int] == players@[lowest_index as int]@);
            assert(!has_folded(ps[i as int]));
            assert(0 < face_up_cards(ps[i as int].hand).len() <= 255);
            assert(0 < face_up_cards(ps[lowest_index as int].hand).len() <= 255);
            let mut face_up = players[i].player_hand.get_face_up_cards();
            let player_value = face_up.get_smallest_value();
            let mut lowest_face_up = players[lowest_index].player_hand.get_face_up_cards();
            let lowest_value = lowest_face_up.get_smallest_value();
            if player_value.as_u8() < lowest_value.as_u8() {
                lowest_index = i;
            }
        }
        i = i + 1;
    }
    lowest_index
}

impl GameState {
    /// Swaps cards of the named player for new ones: for each position in turn that
    /// lies within the hand, the card there is replaced by one dealt from the deck
    /// (none when the deck is empty). Nothing happens when no player has the name.
    pub fn handle_player_discard_message(&mut self, player_name: String, card_index: Vec<usize>)
        ensures
            first_named_from(old(self)@.players, player_name@, 0) is None ==> final(self)@ == old(self)@,
            first_named_from(old(self)@.players, player_name@, 0) matches Some(k) ==> final(self)@ == (GameModel {
                players: old(self)@.players.update(k, PlayerModel {
                    hand: swap_cards(old(self)@.players[k].hand, old(self)@.deck, card_index@, card_index@.len() as int).0,
                    ..old(self)@.players[k]
                }),
                deck: swap_cards(old(self)@.players[k].hand, old(self)@.deck, card_index@, card_index@.len() as int).1,
                ..old(self)@
            }),
    {
        if let Some(k) = self.position_by_name(player_name.as_str()) {
            let ghost start = self@;
            let ghost p0 = start.players[k as int];
            proof {
                assert(PlayerModel { hand: p0.hand, ..p0 } == p0);
                assert(start.players.update(k as int, p0) =~= start.players);
            }
            if card_index.len() == 0 {
                return;
            }
            let mut j: usize = 0;
            while j < card_index.len()
                invariant
                    0 <= j <= card_index@.len(),
                    k < self.players@.len(),
                    self.players@.len() == start.players.len(),
                    p0 == start.players[k as int],
                    self@ == (GameModel { players: models(self.players@), deck: self.deck@, ..start }),
                    forall|t: int| 0 <= t < start.players.len() && t != k ==> #[trigger] self.players@[t]@ == start.players[t],
                    self.players@[k as int]@ == (PlayerModel { hand: self.players@[k as int]@.hand, ..p0 }),
                    (self.players@[k as int]@.hand, self.deck@) == swap_cards(p0.hand, start.deck, card_index@, j as int),
                    self.players@[k as int]@.hand.len() == p0.hand.len(),
                decreases card_index@.len() - j,
            {
                let index = card_index[j];
                if index < self.players[k].player_hand.cards.len() {
                    match self.deck.deal_card() {
                        Ok(new_card) => {
                            self.players[k].player_hand.cards.set(index, new_card);
                        },
                        Err(_) => {},
                    }
                }
                j = j + 1;
            }
            proof {
                assert(models(self.players@) =~= start.players.update(
                    k as int,
                    PlayerModel { hand: self.players@[k as int]@.hand, ..p0 },
                ));
            }
        }
    }

    /// The seat of the player whose lowest face-up card is lowest, among the players
    /// who have not folded, starting from the first seat; ties go to the earlier seat.
    pub fn determine_lowest_door(&self) -> (r: usize)
        requires
            self.players@.len() > 0,
            forall|k: int| 0 <= k < self.players@.len() && (k == 0 || !has_folded(self@.players[k]))
                ==> 0 < #[trigger] face_up_cards(self@.players[k].hand).len() <= 255,
        ensures
            r == lowest_scan(self@.players, self.players@.len() as int),
    {
        assert(self@.players == models(self.players@));
        lowest_door_seat(&self.players)
    }

    /// The seat of the player whose face-up cards score highest, among the players
    /// who have not folded, starting from the first seat and a high card of empty
    /// values; ties go to the earlier seat. Each player's face-up cards are laid
    /// into five places that keep the cards of earlier players past them.
    pub fn determine_highest_door(&self) -> (r: usize)
        requires
            forall|k: int| 0 <= k < self.players@.len() && !has_folded(self@.players[k])
                ==> #[trigger] face_up_cards(self@.players[k].hand).len() <= 255,
        ensures
            exists|scores: Seq<ScoredHand>| #[trigger] door_scores(self@.players, scores)
                && r == highest_scan(self@.players, scores, self.players@.len() as int).0,
    {
        let ghost ps = self@.players;
        let empty = Card { value: Value::Empty, suit: Suit::Empty, face_up: false };
        let mut buf = Hand::from_cards(vec![empty, empty, empty, empty, empty]);
        assert(buf.cards@ =~= empty_cards());
        let mut highest_index: usize = 0;
        let mut highest_value = ScoredHand::HighCard([Value::Empty, Value::Empty, Value::Empty, Value::Empty, Value::Empty]);
        let mut scores: Vec<ScoredHand> = Vec::new();
        let mut i: usize = 0;
        while i < self.players.len()
            invariant
                0 <= i <= self.players@.len(),
                ps == self@.players,
                ps.len() == self.players@.len(),
                forall|k: int| 0 <= k < ps.len() && !has_folded(ps[k])
                    ==> #[trigger] face_up_cards(ps[k].hand).len() <= 255,
                buf.cards@ == door_buffer(ps, i as int),
                scores@.len() == i,
                forall|k: int| 0 <= k < i && !has_folded(ps[k])
                    ==> is_hand_score(door_buffer(ps, k + 1), #[trigger] scores@[k]),
                (highest_index as int, highest_value) == highest_scan(ps, scores@, i as int),
            decreases self.players@.len() - i,
        {
            let ghost scores_before = scores@;
            proof { lemma_door_buffer_len(ps, i as int); }
            if !self.players[i].player_choices.fold {
                assert(ps[i as int] == self.players@[i as int]@);
                assert(!has_folded(ps[i as int]));
                assert(face_up_cards(ps[i as int].hand).len() <= 255);
                let face_up = self.players[i].player_hand.get_face_up_cards();
                let ghost b0 = buf.cards@;
                let mut j: usize = 0;
                while j < face_up.cards.len()
                    invariant
                        0 <= j <= face_up.cards@.len(),
                        b0.len() == 5,
                        buf.cards@.len() == 5,
                        forall|t: int| 0 <= t < 5 ==> #[trigger] buf.cards@[t] == if t < j && t < face_up.cards@.len() {
                            face_up.cards@[t]
                        } else {
                            b0[t]
                        },
                    decreases face_up.cards@.len() - j,
                {
                    if j < buf.cards.len() {
                        buf.cards.set(j, face_up.cards[j]);
                    }
                    j = j + 1;
                }
                assert(buf.cards@ =~= door_hand(b0, face_up_cards(ps[i as int].hand)));
                let player_value = get_best_5_card_hand(&buf);
                scores.push(player_value);
                if compare_scores(&player_value, &highest_value) > 0 {
                    highest_value = player_value;
                    highest_index = i;
                }
            } else {
                scores.push(highest_value);
            }
            proof {
                assert(scores@.take(i as int) =~= scores_before);
                lemma_highest_scan_prefix(ps, scores_before, scores@, i as int);
            }
            i = i + 1;
        }
        assert(door_scores(ps, scores@));
        highest_index
    }

    /// Resets the table for a new game of the given variant: the given id, a newly
    /// shuffled deck, and every setting back to its start; each player's choices,
    /// last move, wager and win are cleared, the hand emptied to hold `hand_size`
    /// cards, and a balance below 10 refilled to 1000.
    fn reset_for_game(&mut self, variant: &str, game_id: u32, hand_size: u8)
        ensures
            exists|d: Seq<Card>| #[trigger] is_new_deck(d)
                && final(self)@ == round_reset(old(self)@, variant@, game_id, hand_size, d),
    {
        self.deck = Deck::new();
        self.game_variant = String::from_str(variant);
        self.game_id = game_id;
        self.hand_size = hand_size;
        self.max_players = 7;
        self.pot = 0;
        self.minimum_bet = 5;
        self.demo_mode = String::from_str("inactive");
        self.round_number = 0;
        self.highest_bet = 0;
        self.winner = Vec::new();
        self.current_player = Player::empty();
        self.player_action = String::new();
        self.community_cards = Hand::new(5);
        self.discard_cards_prompted = false;
        self.current_action_string = String::new();
        self.action_history = Vec::new();
        self.raise_min_max = (0, 0);
        let ghost mid = self@;
        let ghost p0 = old(self)@.players;
        let mut i: usize = 0;
        while i < self.players.len()
            invariant
                0 <= i <= self.players@.len(),
                self.players@.len() == p0.len(),
                self@ == (GameModel { players: models(self.players@), ..mid }),
                forall|k: int| 0 <= k < i ==> #[trigger] self.players@[k]@ == ready_for_game(p0[k], hand_size),
                forall|k: int| i <= k < p0.len() ==> #[trigger] self.players@[k]@ == p0[k],
            decreases self.players@.len() - i,
        {
            self.players[i].reset_choices();
            self.players[i].round_win = 0;
            self.players[i].player_hand = Hand::new(hand_size);
            self.players[i].infinite_money();
            i = i + 1;
        }
        proof {
            assert(models(self.players@) =~= p0.map_values(|p: PlayerModel| ready_for_game(p, hand_size)));
            assert(winner_models(Seq::empty()) =~= Seq::<(PlayerModel, crate::score_hands::ScoredHand)>::empty());
            assert(texts(Seq::empty()) =~= Seq::<Seq<char>>::empty());
            assert(is_new_deck(mid.deck));
        }
    }

    /// Starts a five card draw game with the given id: the table is reset, five
    /// face-down cards are dealt to each player, the blinds are bet and the dealer
    /// and blind tokens handed out.
    pub fn new_five_card_round(&mut self, game_id: u32)
        requires
            0 < old(self).players@.len() <= u32::MAX,
            old(self).dealer < old(self).players@.len(),
            old(self).dealer + 2 <= u32::MAX,
        ensures
            exists|d: Seq<Card>| #[trigger] is_new_deck(d) && final(self)@ == five_card_start(old(self)@, game_id, d),
    {
        self.reset_for_game("5 Card Draw", game_id, 5);
        let ghost m1 = self@;
        proof {
            reveal_strlit("5 Card Draw");
            lemma_deal_rounds_keeps(m1.players, m1.deck, false, 5);
        }
        self.deal_face_down(5);
        assert(self@.players.len() == self.players@.len());
        self.put_blinds();
        assert(self@.players.len() == self.players@.len());
        self.set_player_tokens_blinds();
    }

    /// Starts a seven card stud game with the given id: the table is reset, two
    /// face-down cards and one face-up card are dealt to each player, and the dealer
    /// token handed out.
    pub fn new_seven_card_round(&mut self, game_id: u32)
        requires
            old(self).players@.len() <= u32::MAX,
            old(self).dealer < old(self).players@.len(),
        ensures
            exists|d: Seq<Card>| #[trigger] is_new_deck(d) && final(self)@ == seven_card_start(old(self)@, game_id, d),
    {
        self.reset_for_game("7 Card Stud", game_id, 7);
        let ghost m1 = self@;
        proof {
            lemma_deal_rounds_keeps(m1.players, m1.deck, false, 2);
        }
        self.deal_face_down(2);
        assert(self@.players.len() == self.players@.len());
        proof {
            let m2 = self@;
            lemma_deal_rounds_keeps(m2.players, m2.deck, true, 1);
        }
        self.deal_face_up(1);
        assert(self@.players.len() == self.players@.len());
        self.set_player_tokens_only_dealer();
    }

    /// Starts a Texas hold'em game with the given id: the table is reset, two
    /// face-down cards are dealt to each player, the blinds are bet and the dealer
    /// and blind tokens handed out.
    pub fn new_texas_holdem_round(&mut self, game_id: u32)
        requires
            0 < old(self).players@.len() <= u32::MAX,
            old(self).dealer < old(self).players@.len(),
            old(self).dealer + 2 <= u32::MAX,
        ensures
            exists|d: Seq<Card>| #[trigger] is_new_deck(d) && final(self)@ == texas_start(old(self)@, game_id, d),
    {
        self.reset_for_game("Texas Hold'em", game_id, 2);
        let ghost m1 = self@;
        proof {
            lemma_deal_rounds_keeps(m1.players, m1.deck, false, 2);
        }
        self.deal_face_down(2);
        assert(self@.players.len() == self.players@.len());
        self.put_blinds();
        assert(self@.players.len() == self.players@.len());
        self.set_player_tokens_blinds();
    }
}

/// The five places always hold five cards.
proof fn lemma_door_buffer_len(ps: Seq<PlayerModel>, n: int)
    ensures
        door_buffer(ps, n).len() == 5,
    decreases n,
{
    if n > 0 {
        lemma_door_buffer_len(ps, n - 1);
    }
}

/// The highest scan over the first `n` seats reads only the first `n` scores.
proof fn lemma_highest_scan_prefix(ps: Seq<PlayerModel>, a: Seq<ScoredHand>, b: Seq<ScoredHand>, n: int)
    requires
        0 <= n <= a.len(),
        n <= b.len(),
        forall|k: int| 0 <= k < n ==> a[k] == b[k],
    ensures
        highest_scan(ps, a, n) == highest_scan(ps, b, n),
    decreases n,
{
    if n > 0 {
        lemma_highest_scan_prefix(ps, a, b, n - 1);
    }
}

} // verus!
