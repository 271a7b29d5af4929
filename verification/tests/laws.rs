use poker::card::{Card, Suit, Value};
use poker::deck::Deck;
use poker::game_state::GameState;
use poker::hand::Hand;
use poker::player::Player;
use poker::score_hands::{compare_scores, ScoredHand};

fn card(v: Value, s: Suit) -> Card {
    Card::new(v, s).unwrap()
}

#[test]
fn sorting_a_hand_keeps_its_cards_highest_first() {
    let cards = vec![
        card(Value::Four, Suit::Club),
        card(Value::Ace, Suit::Heart),
        card(Value::Four, Suit::Spade),
        card(Value::Jack, Suit::Diamond),
    ];
    let mut hand = Hand::from_cards(cards.clone());
    hand.sort();
    assert_eq!(hand.cards.len(), 4);
    for c in &cards {
        assert!(hand.cards.contains(c));
    }
    let values: Vec<Value> = hand.cards.iter().map(|c| c.value).collect();
    assert_eq!(values, vec![Value::Ace, Value::Jack, Value::Four, Value::Four]);
}

#[test]
fn dealing_moves_cards_from_the_deck_to_the_hands() {
    let mut game = GameState::new();
    for name in ["A", "B", "C"] {
        let mut p = Player::new(name);
        p.set_hand(Hand::new(5));
        game.insert_player(&p).unwrap();
    }
    let before: Vec<Card> = game.deck.cards().clone();
    game.deal_face_down(2);
    let mut after: Vec<Card> = game.deck.cards().clone();
    for p in &game.players {
        after.extend(p.player_hand.cards.iter().cloned());
    }
    assert_eq!(after.len(), before.len());
    for c in &before {
        assert!(after.contains(c));
    }
}

#[test]
fn calling_and_raising_move_chips_into_the_pot() {
    let mut game = GameState::new();
    game.insert_player(&Player::new("A")).unwrap();
    game.insert_player(&Player::new("B")).unwrap();
    game.set_current_player(0);
    game.current_player_bet(40);
    assert_eq!(game.pot, 40);
    assert_eq!(game.players[0].player_money, 960);
    assert_eq!(game.highest_bet, 40);
    game.set_current_player(1);
    game.current_player_call();
    assert_eq!(game.pot, 80);
    assert_eq!(game.players[1].player_money, 960);
    assert_eq!(game.players[1].player_choices.placed_amount_now(), 40);
}

#[test]
fn a_stronger_kind_beats_any_weaker_kind() {
    let pair = ScoredHand::OnePair([Value::Ace, Value::Ace, Value::King, Value::Queen, Value::Jack]);
    let two_pair = ScoredHand::TwoPair([Value::Three, Value::Three, Value::Two, Value::Two, Value::Four]);
    assert!(compare_scores(&two_pair, &pair) > 0);
    assert!(compare_scores(&pair, &two_pair) < 0);
    assert_eq!(compare_scores(&pair, &pair), 0);
}

#[test]
fn a_folded_player_stays_out() {
    let mut p = Player::new("A");
    p.fold();
    let money = p.player_money;
    p.check();
    p.call(20);
    assert_eq!(p.player_money, money);
    assert!(p.player_choices.fold);
    p.new_round_choices();
    assert!(p.player_choices.fold);
}

#[test]
fn a_new_deck_holds_each_card_once() {
    let deck = Deck::new();
    assert_eq!(deck.count(), 52);
    for s in [Suit::Club, Suit::Diamond, Suit::Heart, Suit::Spade] {
        for v in [Value::Two, Value::Seven, Value::Ten, Value::Ace] {
            assert_eq!(deck.cards().iter().filter(|c| **c == card(v, s)).count(), 1);
        }
    }
}
