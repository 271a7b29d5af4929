use poker::card::{Card, Suit, Value};
use poker::deck::Deck;

#[test]
fn test_deck_new_deck() {
    let deck = Deck::new();
    assert_eq!(deck.count(), 52);

    for suit in Suit::iterator() {
        for value in Value::iterator() {
            let c = Card::new(value, suit).expect("did not create a card");
            assert_eq!(deck.contains(c), true);
        }
    }

    // try a random value just to make sure all of the suits are created... redundant check
    let test_val = Value::Ace;

    let h = Suit::Heart;
    let c = Card::new(test_val, h).expect("did not create a card");
    assert_eq!(deck.contains(c), true);

    let s = Suit::Spade;
    let c = Card::new(test_val, s).expect("did not create a card");
    assert_eq!(deck.contains(c), true);

    let d = Suit::Diamond;
    let c = Card::new(test_val, d).expect("did not create a card");
    assert_eq!(deck.contains(c), true);

    let cl = Suit::Club;
    let c = Card::new(test_val, cl).expect("did not create a card");
    assert_eq!(deck.contains(c), true);
}

#[test]
fn test_deck_deal_card() {
    let mut deck = Deck::new();
    assert_eq!(deck.count(), 52);

    let c: Card = deck.deal_card().unwrap();
    assert_eq!(deck.count(), 51);
    assert_eq!(deck.contains(c), false);
    assert_eq!(c.face_up, false);
}

#[test]
fn test_deck_is_empty() {
    let mut deck = Deck::new();
    assert_eq!(deck.count(), 52);
    assert_eq!(deck.is_empty(), false);

    for _card in 0..52 {
        let _c: Card = deck.deal_card().unwrap();
    }
    assert_eq!(deck.count(), 0);
    assert_eq!(deck.is_empty(), true);
    let c_error = match deck.deal_card() {
        Ok(_) => panic!("Deck should be empty. Expected error but got Card!"),
        Err(e) => e,
    };
    assert_eq!(c_error, "Deck is empty, unable to deal another card");
}
