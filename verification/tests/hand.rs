use poker::card::{Card, Suit, Value};
use poker::deck::Deck;
use poker::hand::Hand;

#[test]
fn test_hand_create_new() {
    let hand = Hand::new(5);
    assert_eq!(hand.get_hand_limit(), 5);
    assert_eq!(hand.count(), 0);
}

#[test]
fn test_hand_get_hand_cards() {
    let mut hand = Hand::new(5);
    let card = Card::new(Value::Ten, Suit::Club).unwrap();
    hand.cheat(card);
    assert_eq!(*hand.get_hand_cards(), vec![card]);
}

#[test]
fn test_hand_get_limit() {
    let hand = Hand::new(5);
    assert_eq!(hand.get_hand_limit(), 5);
}

#[test]
fn test_hand_deal_hand_limit() {
    let mut deck = Deck::new();
    let mut hand = Hand::new(5);
    assert_eq!(deck.count(), 52);
    assert_eq!(hand.count(), 0);

    let result = hand.draw(&mut deck, 5);
    assert!(result.is_ok());
    assert_eq!(deck.count(), 47);
    assert_eq!(hand.count(), 5);
}

#[test]
fn test_hand_deal_under_limit() {
    let mut deck = Deck::new();
    let mut hand = Hand::new(5);
    assert_eq!(deck.count(), 52);
    assert_eq!(hand.count(), 0);

    let result = hand.draw(&mut deck, 0);
    assert!(result.is_ok());
    assert_eq!(deck.count(), 52);
    assert_eq!(hand.count(), 0);

    let result = hand.draw(&mut deck, 1);
    assert!(result.is_ok());
    assert_eq!(deck.count(), 51);
    assert_eq!(hand.count(), 1);
}

#[test]
fn test_hand_deal_exceeds_hand_limit() {
    let mut deck = Deck::new();
    let mut hand = Hand::new(5);

    let result = hand.draw(&mut deck, 51);
    assert!(result.is_err());
    assert_eq!(result.unwrap_err(), "Hand limit exceeded");
    assert_eq!(deck.count(), 52);
    assert_eq!(hand.count(), 0);
}

#[test]
fn test_hand_deal_exceeds_deck_limit() {
    let mut deck = Deck::new();
    let mut hand = Hand::new(100);

    let _result = hand.draw(&mut deck, 51);
    assert_eq!(hand.count(), 51);
    assert_eq!(deck.count(), 1);

    let result = hand.draw(&mut deck, 25);
    assert!(result.is_err());
    assert_eq!(result.unwrap_err(), "Deck limit exceeded");
    assert_eq!(deck.count(), 1);
    assert_eq!(hand.count(), 51);
}

#[test]
fn test_hand_multiple_hands() {
    let mut deck = Deck::new();
    let mut hand1 = Hand::new(5);
    let mut hand2 = Hand::new(5);

    let _r1 = hand1.draw(&mut deck, 5);
    let _r2 = hand2.draw(&mut deck, 5);
    assert_eq!(deck.count(), 42);
}

#[test]
fn test_hand_discard() {
    let mut deck = Deck::new();
    let mut hand = Hand::new(5);
    let _ = hand.draw(&mut deck, 5);
    assert_eq!(hand.count(), 5);

    let _ = hand.discard(0);
    assert_eq!(hand.count(), 4);
}

#[test]
fn test_hand_discard_index_error() {
    let mut deck = Deck::new();
    let mut hand = Hand::new(5);
    let _ = hand.draw(&mut deck, 5);
    assert_eq!(hand.count(), 5);

    let result = hand.discard(5);
    assert!(result.is_err());
    assert_eq!(result.unwrap_err(), "Index error");
    assert_eq!(hand.count(), 5);
}

#[test]
fn test_hand_get_largest() {
    let mut hand = Hand::new(3);
    hand.cheat(Card::new(Value::Five, Suit::Spade).unwrap());
    hand.cheat(Card::new(Value::Seven, Suit::Spade).unwrap());
    hand.cheat(Card::new(Value::Three, Suit::Spade).unwrap());

    let val = hand.get_largest_value();

    assert_eq!(val, Value::Seven);
}

#[test]
fn test_hand_get_smallest() {
    let mut hand = Hand::new(3);
    hand.cheat(Card::new(Value::Five, Suit::Spade).unwrap());
    hand.cheat(Card::new(Value::Seven, Suit::Spade).unwrap());
    hand.cheat(Card::new(Value::Three, Suit::Spade).unwrap());

    let val = hand.get_smallest_value();

    assert_eq!(val, Value::Three);
}

#[test]
fn hand_text_lists_its_cards() {
    let hand = Hand::from_cards(vec![
        Card::new(Value::Two, Suit::Club).unwrap(),
        Card::new(Value::Ace, Suit::Heart).unwrap(),
        Card::new(Value::Ten, Suit::Spade).unwrap(),
    ]);
    assert_eq!(hand.to_string(), "2C, AH, TS");
    assert_eq!(Hand::new(5).to_string(), "");
}
