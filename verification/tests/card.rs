use poker::card::{Card, Suit, Value};

#[test]
fn test_card_constructor() {
    let val: Value = Value::Five;
    let suit: Suit = Suit::Heart;

    let c = match Card::new(val, suit) {
        Ok(card) => card,
        Err(_) => panic!("Failed to create a valid card"),
    };
    assert_eq!(c.get_value_as_u8(), 5);
    assert_eq!(c.get_suit(), Suit::Heart);
}

#[test]
fn test_card_constructor_from_string() {
    let card_string = "9H";
    let c: Card = card_string.parse().unwrap();
    assert_eq!(c.get_value_as_u8(), 9);
    assert_eq!(c.get_suit(), Suit::Heart);

    let card_string2 = "AS";
    let c2: Card = card_string2.parse().unwrap();
    assert_eq!(c2.get_value_as_u8(), 14);
    assert_eq!(c2.get_suit(), Suit::Spade);

    let card_string3 = "QC";
    let c3: Card = card_string3.parse().unwrap();
    assert_eq!(c3.get_value_as_u8(), 12);
    assert_eq!(c3.get_suit(), Suit::Club);

    let card_string4 = "2D";
    let c4: Card = card_string4.parse().unwrap();
    assert_eq!(c4.get_value_as_u8(), 2);
    assert_eq!(c4.get_suit(), Suit::Diamond);
}

#[test]
fn test_card_invalid_length() {
    let card_string = "ABC";
    let c = card_string.parse::<Card>();
    assert!(c.is_err());
    assert_eq!(c.unwrap_err(), "Invalid Card input format");
}

#[test]
fn test_card_constructor_from_str_not_equal() {
    let card_string = "QH";
    let c: Card = card_string.parse().unwrap();
    assert_ne!(c.value, Value::Five);
    assert_ne!(c.suit, Suit::Diamond);
}

#[test]
fn test_card_print() {
    let card_string = "5S";
    let c: Card = card_string.parse().unwrap();
    assert_eq!(c.to_string(), "5S");
}

#[test]
fn test_card_constructor_typed() {
    let c = Card {
        value: Value::Ace,
        suit: Suit::Spade,
        face_up: false,
    };
    assert_eq!(c.value, Value::Ace);
    assert_eq!(c.suit, Suit::Spade);
}

#[test]
fn test_card_char_from_value() {
    assert_eq!(char::try_from(Value::Two).unwrap(), '2');
    assert_eq!(char::try_from(Value::King).unwrap(), 'K');
}

#[test]
fn test_card_value_from_char() {
    let val = Value::try_from('J').unwrap();
    assert_eq!(val, Value::Jack);
}

#[test]
fn test_card_value_from_char_invalid() {
    let val = Value::try_from('P');
    assert!(val.is_err());
    assert_eq!(
        val.unwrap_err(),
        "not a valid card char, must be between 2-9,T,J,Q,K,A"
    );
}

#[test]
fn test_card_suit_from_char() {
    let s = Suit::try_from('C').unwrap();
    assert_eq!(s, Suit::Club);
}

#[test]
fn test_card_suit_from_char_invalid() {
    let s = Suit::try_from('Z');
    assert!(s.is_err());
    assert_eq!(
        s.unwrap_err(),
        "not a valid suit char, must be between S,C,D,H"
    );
}

#[test]
fn test_card_value() {
    let card_string = "TC";
    let c: Card = card_string.parse().unwrap();
    assert_eq!(c.get_value(), Value::Ten);
}

#[test]
fn test_card_value_to_u8() {
    let card_string = "TC";
    let c: Card = card_string.parse().unwrap();
    assert_eq!(c.get_value_as_u8(), 10);
}

#[test]
fn test_card_comparison() {
    let card_string = "AS";
    let c1: Card = card_string.parse().unwrap();

    let card_string2 = "KH";
    let c2: Card = card_string2.parse().unwrap();

    let card_string3 = "9C";
    let c3: Card = card_string3.parse().unwrap();

    let card_string4 = "AS";
    let c4: Card = card_string4.parse().unwrap();

    assert!(c1 > c2);
    assert!(c3 < c2);
    assert!(c1 == c4);
    assert!(c2 != c3);
}

#[test]
fn test_card_compare_values() {
    let c1: Card = "AS".parse().unwrap();
    let c2: Card = "AH".parse().unwrap();
    assert_eq!(c1.is_value_equal(&c2), true);

    let c3: Card = "4S".parse().unwrap();
    assert_eq!(c1.is_value_equal(&c3), false);
}

#[test]
fn test_card_clone() {
    let card_string = "7D";
    let c1: Card = card_string.parse().unwrap();
    let card_clone = c1.clone();
    assert_eq!(c1, card_clone);
}

#[test]
fn test_card_copy() {
    let card_string = "7D";
    let c1: Card = card_string.parse().unwrap();
    let card_copy = c1;
    assert_eq!(c1, card_copy);
}
