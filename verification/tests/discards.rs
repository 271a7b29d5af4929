use poker::base_rules::LoadState;
use poker::card::{Card, Suit, Value};
use poker::discards::{
    choose_discards, NO_VALUE_ERROR, OUT_OF_RANGE_ERROR, REPEATED_ERROR, TOO_MANY_ERROR, ZERO_WITH_OTHERS_ERROR,
};
use poker::game_type::{FiveCardDraw, PokerGame};
use poker::hand::Hand;
use poker::player::Player;
use poker::text::read_listed_bytes;

#[test]
fn listed_bytes_are_read_between_commas() {
    assert_eq!(read_listed_bytes(" 1, 2,4 "), vec![1, 2, 4]);
    assert_eq!(read_listed_bytes("+3,x, 256,5"), vec![3, 5]);
    assert_eq!(read_listed_bytes("\t007 ,\n"), vec![7]);
    assert_eq!(read_listed_bytes(""), Vec::<u8>::new());
    assert_eq!(read_listed_bytes("-1,+,255"), vec![255]);
}

#[test]
fn discard_answers_are_sorted_and_checked() {
    assert_eq!(choose_discards("4, 2,5"), Ok(vec![2, 4, 5]));
    assert_eq!(choose_discards("0"), Ok(vec![]));
    assert_eq!(choose_discards(" 3 ,x"), Ok(vec![3]));
    assert_eq!(choose_discards(""), Err(NO_VALUE_ERROR));
    assert_eq!(choose_discards("a,b"), Err(NO_VALUE_ERROR));
    assert_eq!(choose_discards("0,1"), Err(ZERO_WITH_OTHERS_ERROR));
    assert_eq!(choose_discards("1,2,3,4,5,1"), Err(TOO_MANY_ERROR));
    assert_eq!(choose_discards("1,6"), Err(OUT_OF_RANGE_ERROR));
    assert_eq!(choose_discards("2,2"), Err(REPEATED_ERROR));
}

fn seated(id: u32, name: &str) -> Player {
    let mut p = Player::new(name);
    p.set_id(id);
    p.set_hand(Hand::new(5));
    p
}

fn five_spades() -> Vec<Card> {
    [Value::Two, Value::Three, Value::Four, Value::Five, Value::Six]
        .iter()
        .map(|v| Card::new(*v, Suit::Spade).unwrap())
        .collect()
}

#[test]
fn redraw_replaces_exactly_the_chosen_cards() {
    let mut game = FiveCardDraw::new(LoadState::Empty);
    game.game_state.insert_player(&seated(1, "A")).unwrap();
    game.game_state.insert_player(&seated(2, "B")).unwrap();
    let mut hand = Hand::from_cards(five_spades());
    hand.hand_limit = 5;
    game.game_state.players[0].player_hand = hand;
    let top = game.game_state.deck.cards()[51];
    let next = game.game_state.deck.cards()[50];
    game.redraw(0, &vec![2, 4]);
    let cards = &game.game_state.players[0].player_hand.cards;
    assert_eq!(cards.len(), 5);
    let values: Vec<Value> = cards.iter().take(3).map(|c| c.value).collect();
    assert_eq!(values, vec![Value::Two, Value::Four, Value::Six]);
    assert_eq!(cards[3], top);
    assert_eq!(cards[4], next);
    assert_eq!(game.game_state.deck.count(), 50);
}

#[test]
fn redraw_of_nothing_keeps_the_hand() {
    let mut game = FiveCardDraw::new(LoadState::Empty);
    game.game_state.insert_player(&seated(1, "A")).unwrap();
    let mut hand = Hand::from_cards(five_spades());
    hand.hand_limit = 5;
    game.game_state.players[0].player_hand = hand;
    game.redraw(0, &vec![]);
    assert_eq!(game.game_state.players[0].player_hand.cards, five_spades());
    assert_eq!(game.game_state.deck.count(), 52);
}

#[test]
fn redraw_order_starts_after_the_dealer_and_skips_folds() {
    let mut game = FiveCardDraw::new(LoadState::Empty);
    for (id, name) in [(1, "A"), (2, "B"), (3, "C"), (4, "D")] {
        game.game_state.insert_player(&seated(id, name)).unwrap();
    }
    game.game_state.dealer = 1;
    game.game_state.players[3].fold();
    assert_eq!(game.redraw_order(), vec![2, 0, 1]);
    game.game_state.players[0].fold();
    game.game_state.players[1].fold();
    assert_eq!(game.redraw_order(), Vec::<usize>::new());
}
