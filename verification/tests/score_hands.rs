use poker::card::{Card, Suit, Value};
use poker::hand::Hand;
use poker::score_hands::{
    check_if_hand_flush, check_if_hand_four_of_a_kind, check_if_hand_full_house,
    check_if_hand_high_card, check_if_hand_one_pair, check_if_hand_straight,
    check_if_hand_straight_ace_low, check_if_hand_straight_flush,
    check_if_hand_straight_flush_ace_low, check_if_hand_three_of_a_kind, check_if_hand_two_pair,
    convert_hand_to_power_sorting, get_best_5_card_hand, get_best_from_7_card_hand, ScoredHand,
};

#[test]
fn test_scored_hand_rank() {
    let mut hand = Hand::new(5);
    hand.cheat(Card::new(Value::Ace, Suit::Heart).unwrap());
    hand.cheat(Card::new(Value::Two, Suit::Heart).unwrap());
    hand.cheat(Card::new(Value::Three, Suit::Heart).unwrap());
    hand.cheat(Card::new(Value::Four, Suit::Heart).unwrap());
    hand.cheat(Card::new(Value::Five, Suit::Heart).unwrap());
    let scored_hand = get_best_5_card_hand(&hand);

    assert_eq!(scored_hand.rank(), 10);
}

#[test]
fn test_scored_hand_format() {
    let mut hand = Hand::new(5);
    hand.cheat(Card::new(Value::Ace, Suit::Heart).unwrap());
    hand.cheat(Card::new(Value::Two, Suit::Heart).unwrap());
    hand.cheat(Card::new(Value::Three, Suit::Heart).unwrap());
    hand.cheat(Card::new(Value::Four, Suit::Heart).unwrap());
    hand.cheat(Card::new(Value::Five, Suit::Heart).unwrap());
    let scored_hand = get_best_5_card_hand(&hand);

    let scored_hand_format = scored_hand.to_string();

    assert_eq!(scored_hand_format, "Straight Flush: 5, 4, 3, 2, 1");
}

#[test]
fn test_scored_7_card_hand_straight_flush() {
    let mut hand = Hand::new(7);
    hand.cheat(Card::new(Value::Ace, Suit::Heart).unwrap());
    hand.cheat(Card::new(Value::Two, Suit::Heart).unwrap());
    hand.cheat(Card::new(Value::Three, Suit::Heart).unwrap());
    hand.cheat(Card::new(Value::Four, Suit::Heart).unwrap());
    hand.cheat(Card::new(Value::Five, Suit::Heart).unwrap());
    hand.cheat(Card::new(Value::King, Suit::Heart).unwrap());
    hand.cheat(Card::new(Value::Queen, Suit::Heart).unwrap());
    //let scored_hand = get_best_5_card_hand(&hand);
    let scored_hand = get_best_from_7_card_hand(&hand);
    let scored_hand_format = scored_hand.to_string();

    assert_eq!(scored_hand_format, "Straight Flush: 5, 4, 3, 2, 1");
}

#[test]
fn test_scored_7_card_hand_high() {
    let mut hand = Hand::new(7);
    hand.cheat(Card::new(Value::Ace, Suit::Heart).unwrap());
    hand.cheat(Card::new(Value::Two, Suit::Spade).unwrap());
    hand.cheat(Card::new(Value::Three, Suit::Diamond).unwrap());
    hand.cheat(Card::new(Value::Nine, Suit::Club).unwrap());
    hand.cheat(Card::new(Value::Five, Suit::Heart).unwrap());
    hand.cheat(Card::new(Value::King, Suit::Spade).unwrap());
    hand.cheat(Card::new(Value::Queen, Suit::Heart).unwrap());
    //let scored_hand = get_best_5_card_hand(&hand);
    let scored_hand = get_best_from_7_card_hand(&hand);
    let scored_hand_format = scored_hand.to_string();

    assert_eq!(scored_hand_format, "High Card: A, K, Q, 9, 5");
}

#[test]
fn test_scored_7_card_hand_full_house() {
    let mut hand = Hand::new(7);
    hand.cheat(Card::new(Value::Two, Suit::Heart).unwrap());
    hand.cheat(Card::new(Value::Two, Suit::Spade).unwrap());
    hand.cheat(Card::new(Value::Three, Suit::Diamond).unwrap());
    hand.cheat(Card::new(Value::Three, Suit::Heart).unwrap());
    hand.cheat(Card::new(Value::Three, Suit::Spade).unwrap());
    hand.cheat(Card::new(Value::King, Suit::Spade).unwrap());
    hand.cheat(Card::new(Value::Queen, Suit::Heart).unwrap());
    //let scored_hand = get_best_5_card_hand(&hand);
    let scored_hand = get_best_from_7_card_hand(&hand);
    let scored_hand_format = scored_hand.to_string();

    assert_eq!(scored_hand_format, "Full House: 3, 3, 3, 2, 2");
}

#[test]
fn test_straight_flush() {
    let mut hand = Hand::new(5);
    hand.cheat(Card::new(Value::Ace, Suit::Heart).unwrap());
    hand.cheat(Card::new(Value::King, Suit::Heart).unwrap());
    hand.cheat(Card::new(Value::Queen, Suit::Heart).unwrap());
    hand.cheat(Card::new(Value::Jack, Suit::Heart).unwrap());
    hand.cheat(Card::new(Value::Ten, Suit::Heart).unwrap());

    assert_eq!(check_if_hand_straight_flush(&hand), true);
}

#[test]
fn test_straight_flush_ace_low() {
    let mut hand = Hand::new(5);
    hand.cheat(Card::new(Value::Ace, Suit::Heart).unwrap());
    hand.cheat(Card::new(Value::Two, Suit::Heart).unwrap());
    hand.cheat(Card::new(Value::Three, Suit::Heart).unwrap());
    hand.cheat(Card::new(Value::Four, Suit::Heart).unwrap());
    hand.cheat(Card::new(Value::Five, Suit::Heart).unwrap());

    assert_eq!(check_if_hand_straight_flush_ace_low(&hand), true);
}

#[test]
fn test_four_of_a_kind() {
    let mut hand = Hand::new(5);
    hand.cheat(Card::new(Value::Nine, Suit::Heart).unwrap());
    hand.cheat(Card::new(Value::Nine, Suit::Club).unwrap());
    hand.cheat(Card::new(Value::Nine, Suit::Spade).unwrap());
    hand.cheat(Card::new(Value::Nine, Suit::Diamond).unwrap());
    hand.cheat(Card::new(Value::Five, Suit::Heart).unwrap());

    assert_eq!(check_if_hand_four_of_a_kind(&hand), true);
}

#[test]
fn test_full_house() {
    let mut hand = Hand::new(5);
    hand.cheat(Card::new(Value::Nine, Suit::Heart).unwrap());
    hand.cheat(Card::new(Value::Nine, Suit::Club).unwrap());
    hand.cheat(Card::new(Value::Jack, Suit::Heart).unwrap());
    hand.cheat(Card::new(Value::Jack, Suit::Spade).unwrap());
    hand.cheat(Card::new(Value::Jack, Suit::Diamond).unwrap());

    assert_eq!(check_if_hand_full_house(&hand), true);
}

#[test]
fn test_flush() {
    let mut hand = Hand::new(5);
    hand.cheat(Card::new(Value::Nine, Suit::Heart).unwrap());
    hand.cheat(Card::new(Value::Ten, Suit::Heart).unwrap());
    hand.cheat(Card::new(Value::King, Suit::Heart).unwrap());
    hand.cheat(Card::new(Value::Four, Suit::Heart).unwrap());
    hand.cheat(Card::new(Value::Five, Suit::Heart).unwrap());

    assert_eq!(check_if_hand_flush(&hand), true);
}

#[test]
fn test_straight() {
    let mut hand = Hand::new(5);
    hand.cheat(Card::new(Value::Nine, Suit::Heart).unwrap());
    hand.cheat(Card::new(Value::Ten, Suit::Club).unwrap());
    hand.cheat(Card::new(Value::Jack, Suit::Heart).unwrap());
    hand.cheat(Card::new(Value::Queen, Suit::Heart).unwrap());
    hand.cheat(Card::new(Value::King, Suit::Heart).unwrap());

    assert_eq!(check_if_hand_straight(&hand), true);
}

#[test]
fn test_straight_ace_low() {
    let mut hand = Hand::new(5);
    hand.cheat(Card::new(Value::Ace, Suit::Heart).unwrap());
    hand.cheat(Card::new(Value::Two, Suit::Club).unwrap());
    hand.cheat(Card::new(Value::Three, Suit::Heart).unwrap());
    hand.cheat(Card::new(Value::Four, Suit::Heart).unwrap());
    hand.cheat(Card::new(Value::Five, Suit::Heart).unwrap());

    assert_eq!(check_if_hand_straight_ace_low(&hand), true);
}

#[test]
fn test_wrap_around_not_straight() {
    let mut hand = Hand::new(5);
    hand.cheat(Card::new(Value::Ace, Suit::Heart).unwrap());
    hand.cheat(Card::new(Value::Two, Suit::Club).unwrap());
    hand.cheat(Card::new(Value::Three, Suit::Heart).unwrap());
    hand.cheat(Card::new(Value::King, Suit::Heart).unwrap());
    hand.cheat(Card::new(Value::Queen, Suit::Heart).unwrap());

    assert_eq!(check_if_hand_straight(&hand), false);
}

#[test]
fn test_three_of_a_kind() {
    let mut hand = Hand::new(5);
    hand.cheat(Card::new(Value::Ace, Suit::Heart).unwrap());
    hand.cheat(Card::new(Value::Ace, Suit::Club).unwrap());
    hand.cheat(Card::new(Value::Ace, Suit::Spade).unwrap());
    hand.cheat(Card::new(Value::Four, Suit::Heart).unwrap());
    hand.cheat(Card::new(Value::Five, Suit::Heart).unwrap());

    assert_eq!(check_if_hand_three_of_a_kind(&hand), true);
}

#[test]
fn test_two_pair() {
    let mut hand = Hand::new(5);
    hand.cheat(Card::new(Value::Ace, Suit::Heart).unwrap());
    hand.cheat(Card::new(Value::Ace, Suit::Club).unwrap());
    hand.cheat(Card::new(Value::Three, Suit::Heart).unwrap());
    hand.cheat(Card::new(Value::Three, Suit::Club).unwrap());
    hand.cheat(Card::new(Value::Five, Suit::Heart).unwrap());

    assert_eq!(check_if_hand_two_pair(&hand), true);
}

#[test]
fn test_one_pair() {
    let mut hand = Hand::new(5);
    hand.cheat(Card::new(Value::Ace, Suit::Heart).unwrap());
    hand.cheat(Card::new(Value::Ace, Suit::Club).unwrap());
    hand.cheat(Card::new(Value::Three, Suit::Heart).unwrap());
    hand.cheat(Card::new(Value::Four, Suit::Heart).unwrap());
    hand.cheat(Card::new(Value::Five, Suit::Heart).unwrap());

    assert_eq!(check_if_hand_one_pair(&hand), true);
}

#[test]
fn test_high_card() {
    let mut hand = Hand::new(5);
    hand.cheat(Card::new(Value::Ace, Suit::Heart).unwrap());
    hand.cheat(Card::new(Value::Three, Suit::Club).unwrap());
    hand.cheat(Card::new(Value::Five, Suit::Heart).unwrap());
    hand.cheat(Card::new(Value::Seven, Suit::Heart).unwrap());
    hand.cheat(Card::new(Value::Nine, Suit::Heart).unwrap());

    assert_eq!(check_if_hand_high_card(&hand), true);
}

#[test]
fn test_get_best_5_card_hand() {
    let mut hand = Hand::new(5);
    hand.cheat(Card::new(Value::Nine, Suit::Heart).unwrap());
    hand.cheat(Card::new(Value::Ten, Suit::Heart).unwrap());
    hand.cheat(Card::new(Value::Jack, Suit::Heart).unwrap());
    hand.cheat(Card::new(Value::Queen, Suit::Heart).unwrap());
    hand.cheat(Card::new(Value::King, Suit::Heart).unwrap());

    assert_eq!(
        get_best_5_card_hand(&hand),
        ScoredHand::StraightFlush(convert_hand_to_power_sorting(&hand))
    );
}

#[test]
fn test_straight_flush_eq() {
    let mut hand1 = Hand::new(5);
    hand1.cheat(Card::new(Value::Nine, Suit::Heart).unwrap());
    hand1.cheat(Card::new(Value::Ten, Suit::Heart).unwrap());
    hand1.cheat(Card::new(Value::Jack, Suit::Heart).unwrap());
    hand1.cheat(Card::new(Value::Queen, Suit::Heart).unwrap());
    hand1.cheat(Card::new(Value::King, Suit::Heart).unwrap());
    let mut hand2 = Hand::new(5);
    hand2.cheat(Card::new(Value::Nine, Suit::Heart).unwrap());
    hand2.cheat(Card::new(Value::Ten, Suit::Heart).unwrap());
    hand2.cheat(Card::new(Value::Jack, Suit::Heart).unwrap());
    hand2.cheat(Card::new(Value::Queen, Suit::Heart).unwrap());
    hand2.cheat(Card::new(Value::King, Suit::Heart).unwrap());

    assert_eq!(
        get_best_5_card_hand(&hand1) == get_best_5_card_hand(&hand2),
        true
    );
}

#[test]
fn test_four_of_a_kind_eq() {
    let mut hand1 = Hand::new(5);
    hand1.cheat(Card::new(Value::Nine, Suit::Heart).unwrap());
    hand1.cheat(Card::new(Value::Nine, Suit::Club).unwrap());
    hand1.cheat(Card::new(Value::Nine, Suit::Spade).unwrap());
    hand1.cheat(Card::new(Value::Nine, Suit::Diamond).unwrap());
    hand1.cheat(Card::new(Value::Five, Suit::Heart).unwrap());
    let mut hand2 = Hand::new(5);
    hand2.cheat(Card::new(Value::Nine, Suit::Heart).unwrap());
    hand2.cheat(Card::new(Value::Nine, Suit::Club).unwrap());
    hand2.cheat(Card::new(Value::Nine, Suit::Spade).unwrap());
    hand2.cheat(Card::new(Value::Nine, Suit::Diamond).unwrap());
    hand2.cheat(Card::new(Value::Five, Suit::Heart).unwrap());

    assert_eq!(
        get_best_5_card_hand(&hand1) == get_best_5_card_hand(&hand2),
        true
    );
}

#[test]
fn test_full_house_eq() {
    let mut hand1 = Hand::new(5);
    hand1.cheat(Card::new(Value::Nine, Suit::Heart).unwrap());
    hand1.cheat(Card::new(Value::Nine, Suit::Club).unwrap());
    hand1.cheat(Card::new(Value::Jack, Suit::Heart).unwrap());
    hand1.cheat(Card::new(Value::Jack, Suit::Spade).unwrap());
    hand1.cheat(Card::new(Value::Jack, Suit::Diamond).unwrap());
    let mut hand2 = Hand::new(5);
    hand2.cheat(Card::new(Value::Nine, Suit::Heart).unwrap());
    hand2.cheat(Card::new(Value::Nine, Suit::Club).unwrap());
    hand2.cheat(Card::new(Value::Jack, Suit::Heart).unwrap());
    hand2.cheat(Card::new(Value::Jack, Suit::Spade).unwrap());
    hand2.cheat(Card::new(Value::Jack, Suit::Diamond).unwrap());

    assert_eq!(
        get_best_5_card_hand(&hand1) == get_best_5_card_hand(&hand2),
        true
    );
}

#[test]
fn test_flush_eq() {
    let mut hand1 = Hand::new(5);
    hand1.cheat(Card::new(Value::Nine, Suit::Heart).unwrap());
    hand1.cheat(Card::new(Value::Ten, Suit::Heart).unwrap());
    hand1.cheat(Card::new(Value::King, Suit::Heart).unwrap());
    hand1.cheat(Card::new(Value::Four, Suit::Heart).unwrap());
    hand1.cheat(Card::new(Value::Five, Suit::Heart).unwrap());
    let mut hand2 = Hand::new(5);
    hand2.cheat(Card::new(Value::Nine, Suit::Heart).unwrap());
    hand2.cheat(Card::new(Value::Ten, Suit::Heart).unwrap());
    hand2.cheat(Card::new(Value::King, Suit::Heart).unwrap());
    hand2.cheat(Card::new(Value::Four, Suit::Heart).unwrap());
    hand2.cheat(Card::new(Value::Five, Suit::Heart).unwrap());

    assert_eq!(
        get_best_5_card_hand(&hand1) == get_best_5_card_hand(&hand2),
        true
    );
}

#[test]
fn test_straight_eq() {
    let mut hand1 = Hand::new(5);
    hand1.cheat(Card::new(Value::Nine, Suit::Heart).unwrap());
    hand1.cheat(Card::new(Value::Ten, Suit::Club).unwrap());
    hand1.cheat(Card::new(Value::Jack, Suit::Heart).unwrap());
    hand1.cheat(Card::new(Value::Queen, Suit::Heart).unwrap());
    hand1.cheat(Card::new(Value::King, Suit::Heart).unwrap());
    let mut hand2 = Hand::new(5);
    hand2.cheat(Card::new(Value::Nine, Suit::Heart).unwrap());
    hand2.cheat(Card::new(Value::Ten, Suit::Club).unwrap());
    hand2.cheat(Card::new(Value::Jack, Suit::Heart).unwrap());
    hand2.cheat(Card::new(Value::Queen, Suit::Heart).unwrap());
    hand2.cheat(Card::new(Value::King, Suit::Heart).unwrap());

    assert_eq!(
        get_best_5_card_hand(&hand1) == get_best_5_card_hand(&hand2),
        true
    );
}

#[test]
fn test_three_of_a_kind_eq() {
    let mut hand1 = Hand::new(5);
    hand1.cheat(Card::new(Value::Ace, Suit::Heart).unwrap());
    hand1.cheat(Card::new(Value::Ace, Suit::Club).unwrap());
    hand1.cheat(Card::new(Value::Ace, Suit::Spade).unwrap());
    hand1.cheat(Card::new(Value::Four, Suit::Heart).unwrap());
    hand1.cheat(Card::new(Value::Five, Suit::Heart).unwrap());
    let mut hand2 = Hand::new(5);
    hand2.cheat(Card::new(Value::Ace, Suit::Heart).unwrap());
    hand2.cheat(Card::new(Value::Ace, Suit::Club).unwrap());
    hand2.cheat(Card::new(Value::Ace, Suit::Spade).unwrap());
    hand2.cheat(Card::new(Value::Four, Suit::Heart).unwrap());
    hand2.cheat(Card::new(Value::Five, Suit::Heart).unwrap());

    assert_eq!(
        get_best_5_card_hand(&hand1) == get_best_5_card_hand(&hand2),
        true
    );
}

#[test]
fn test_two_pair_eq() {
    let mut hand1 = Hand::new(5);
    hand1.cheat(Card::new(Value::Ace, Suit::Heart).unwrap());
    hand1.cheat(Card::new(Value::Ace, Suit::Club).unwrap());
    hand1.cheat(Card::new(Value::Three, Suit::Heart).unwrap());
    hand1.cheat(Card::new(Value::Three, Suit::Club).unwrap());
    hand1.cheat(Card::new(Value::Five, Suit::Heart).unwrap());
    let mut hand2 = Hand::new(5);
    hand2.cheat(Card::new(Value::Ace, Suit::Heart).unwrap());
    hand2.cheat(Card::new(Value::Ace, Suit::Club).unwrap());
    hand2.cheat(Card::new(Value::Three, Suit::Heart).unwrap());
    hand2.cheat(Card::new(Value::Three, Suit::Club).unwrap());
    hand2.cheat(Card::new(Value::Five, Suit::Heart).unwrap());

    assert_eq!(
        get_best_5_card_hand(&hand1) == get_best_5_card_hand(&hand2),
        true
    );
}

#[test]
fn test_one_pair_eq() {
    let mut hand1 = Hand::new(5);
    hand1.cheat(Card::new(Value::Ace, Suit::Heart).unwrap());
    hand1.cheat(Card::new(Value::Ace, Suit::Club).unwrap());
    hand1.cheat(Card::new(Value::Three, Suit::Heart).unwrap());
    hand1.cheat(Card::new(Value::Four, Suit::Heart).unwrap());
    hand1.cheat(Card::new(Value::Five, Suit::Heart).unwrap());
    let mut hand2 = Hand::new(5);
    hand2.cheat(Card::new(Value::Ace, Suit::Heart).unwrap());
    hand2.cheat(Card::new(Value::Ace, Suit::Club).unwrap());
    hand2.cheat(Card::new(Value::Three, Suit::Heart).unwrap());
    hand2.cheat(Card::new(Value::Four, Suit::Heart).unwrap());
    hand2.cheat(Card::new(Value::Five, Suit::Heart).unwrap());

    assert_eq!(
        get_best_5_card_hand(&hand1) == get_best_5_card_hand(&hand2),
        true
    );
}

#[test]
fn test_high_card_eq() {
    let mut hand1 = Hand::new(5);
    hand1.cheat(Card::new(Value::Ace, Suit::Heart).unwrap());
    hand1.cheat(Card::new(Value::Three, Suit::Club).unwrap());
    hand1.cheat(Card::new(Value::Five, Suit::Heart).unwrap());
    hand1.cheat(Card::new(Value::Seven, Suit::Heart).unwrap());
    hand1.cheat(Card::new(Value::Nine, Suit::Heart).unwrap());
    let mut hand2 = Hand::new(5);
    hand2.cheat(Card::new(Value::Ace, Suit::Heart).unwrap());
    hand2.cheat(Card::new(Value::Three, Suit::Club).unwrap());
    hand2.cheat(Card::new(Value::Five, Suit::Heart).unwrap());
    hand2.cheat(Card::new(Value::Seven, Suit::Heart).unwrap());
    hand2.cheat(Card::new(Value::Nine, Suit::Heart).unwrap());

    assert_eq!(
        get_best_5_card_hand(&hand1) == get_best_5_card_hand(&hand2),
        true
    );
}

#[test]
fn test_straight_flush_not_eq() {
    let mut hand1 = Hand::new(5);
    hand1.cheat(Card::new(Value::Ace, Suit::Heart).unwrap());
    hand1.cheat(Card::new(Value::Ten, Suit::Heart).unwrap());
    hand1.cheat(Card::new(Value::Jack, Suit::Heart).unwrap());
    hand1.cheat(Card::new(Value::Queen, Suit::Heart).unwrap());
    hand1.cheat(Card::new(Value::King, Suit::Heart).unwrap());
    let mut hand2 = Hand::new(5);
    hand2.cheat(Card::new(Value::Ace, Suit::Heart).unwrap());
    hand2.cheat(Card::new(Value::Two, Suit::Heart).unwrap());
    hand2.cheat(Card::new(Value::Three, Suit::Heart).unwrap());
    hand2.cheat(Card::new(Value::Four, Suit::Heart).unwrap());
    hand2.cheat(Card::new(Value::Five, Suit::Heart).unwrap());

    assert_eq!(
        get_best_5_card_hand(&hand1) > get_best_5_card_hand(&hand2),
        true
    );
}

#[test]
fn test_four_of_a_kind_not_eq_high_card() {
    let mut hand1 = Hand::new(5);
    hand1.cheat(Card::new(Value::Nine, Suit::Heart).unwrap());
    hand1.cheat(Card::new(Value::Nine, Suit::Club).unwrap());
    hand1.cheat(Card::new(Value::Nine, Suit::Spade).unwrap());
    hand1.cheat(Card::new(Value::Nine, Suit::Diamond).unwrap());
    hand1.cheat(Card::new(Value::Five, Suit::Heart).unwrap());
    let mut hand2 = Hand::new(5);
    hand2.cheat(Card::new(Value::Eight, Suit::Heart).unwrap());
    hand2.cheat(Card::new(Value::Eight, Suit::Club).unwrap());
    hand2.cheat(Card::new(Value::Eight, Suit::Spade).unwrap());
    hand2.cheat(Card::new(Value::Eight, Suit::Diamond).unwrap());
    hand2.cheat(Card::new(Value::Five, Suit::Heart).unwrap());

    assert_eq!(
        get_best_5_card_hand(&hand1) > get_best_5_card_hand(&hand2),
        true
    );
}

#[test]
fn test_four_of_a_kind_not_eq_low_card() {
    let mut hand1 = Hand::new(5);
    hand1.cheat(Card::new(Value::Nine, Suit::Heart).unwrap());
    hand1.cheat(Card::new(Value::Nine, Suit::Club).unwrap());
    hand1.cheat(Card::new(Value::Nine, Suit::Spade).unwrap());
    hand1.cheat(Card::new(Value::Nine, Suit::Diamond).unwrap());
    hand1.cheat(Card::new(Value::Six, Suit::Heart).unwrap());
    let mut hand2 = Hand::new(5);
    hand2.cheat(Card::new(Value::Nine, Suit::Heart).unwrap());
    hand2.cheat(Card::new(Value::Nine, Suit::Club).unwrap());
    hand2.cheat(Card::new(Value::Nine, Suit::Spade).unwrap());
    hand2.cheat(Card::new(Value::Nine, Suit::Diamond).unwrap());
    hand2.cheat(Card::new(Value::Five, Suit::Heart).unwrap());

    assert_eq!(
        get_best_5_card_hand(&hand1) > get_best_5_card_hand(&hand2),
        true
    );
}

#[test]
fn test_full_house_not_eq_high_card() {
    let mut hand1 = Hand::new(5);
    hand1.cheat(Card::new(Value::Nine, Suit::Heart).unwrap());
    hand1.cheat(Card::new(Value::Nine, Suit::Club).unwrap());
    hand1.cheat(Card::new(Value::Jack, Suit::Heart).unwrap());
    hand1.cheat(Card::new(Value::Jack, Suit::Spade).unwrap());
    hand1.cheat(Card::new(Value::Jack, Suit::Diamond).unwrap());
    let mut hand2 = Hand::new(5);
    hand2.cheat(Card::new(Value::Nine, Suit::Heart).unwrap());
    hand2.cheat(Card::new(Value::Nine, Suit::Club).unwrap());
    hand2.cheat(Card::new(Value::Ten, Suit::Heart).unwrap());
    hand2.cheat(Card::new(Value::Ten, Suit::Spade).unwrap());
    hand2.cheat(Card::new(Value::Ten, Suit::Diamond).unwrap());

    assert_eq!(
        get_best_5_card_hand(&hand1) > get_best_5_card_hand(&hand2),
        true
    );
}

#[test]
fn test_full_house_not_eq_low_card() {
    let mut hand1 = Hand::new(5);
    hand1.cheat(Card::new(Value::Ten, Suit::Heart).unwrap());
    hand1.cheat(Card::new(Value::Ten, Suit::Club).unwrap());
    hand1.cheat(Card::new(Value::Jack, Suit::Heart).unwrap());
    hand1.cheat(Card::new(Value::Jack, Suit::Spade).unwrap());
    hand1.cheat(Card::new(Value::Jack, Suit::Diamond).unwrap());
    let mut hand2 = Hand::new(5);
    hand2.cheat(Card::new(Value::Nine, Suit::Heart).unwrap());
    hand2.cheat(Card::new(Value::Nine, Suit::Club).unwrap());
    hand2.cheat(Card::new(Value::Jack, Suit::Heart).unwrap());
    hand2.cheat(Card::new(Value::Jack, Suit::Spade).unwrap());
    hand2.cheat(Card::new(Value::Jack, Suit::Diamond).unwrap());

    assert_eq!(
        get_best_5_card_hand(&hand1) > get_best_5_card_hand(&hand2),
        true
    );
}

#[test]
fn test_flush_not_eq_high_card() {
    let mut hand1 = Hand::new(5);
    hand1.cheat(Card::new(Value::Ace, Suit::Heart).unwrap());
    hand1.cheat(Card::new(Value::Jack, Suit::Heart).unwrap());
    hand1.cheat(Card::new(Value::Nine, Suit::Heart).unwrap());
    hand1.cheat(Card::new(Value::Seven, Suit::Heart).unwrap());
    hand1.cheat(Card::new(Value::Five, Suit::Heart).unwrap());
    let mut hand2 = Hand::new(5);
    hand2.cheat(Card::new(Value::King, Suit::Heart).unwrap());
    hand2.cheat(Card::new(Value::Jack, Suit::Heart).unwrap());
    hand2.cheat(Card::new(Value::Nine, Suit::Heart).unwrap());
    hand2.cheat(Card::new(Value::Seven, Suit::Heart).unwrap());
    hand2.cheat(Card::new(Value::Five, Suit::Heart).unwrap());

    assert_eq!(
        get_best_5_card_hand(&hand1) > get_best_5_card_hand(&hand2),
        true
    );
}

#[test]
fn test_flush_not_eq_2_high_card() {
    let mut hand1 = Hand::new(5);
    hand1.cheat(Card::new(Value::King, Suit::Heart).unwrap());
    hand1.cheat(Card::new(Value::Queen, Suit::Heart).unwrap());
    hand1.cheat(Card::new(Value::Nine, Suit::Heart).unwrap());
    hand1.cheat(Card::new(Value::Seven, Suit::Heart).unwrap());
    hand1.cheat(Card::new(Value::Five, Suit::Heart).unwrap());
    let mut hand2 = Hand::new(5);
    hand2.cheat(Card::new(Value::King, Suit::Heart).unwrap());
    hand2.cheat(Card::new(Value::Jack, Suit::Heart).unwrap());
    hand2.cheat(Card::new(Value::Nine, Suit::Heart).unwrap());
    hand2.cheat(Card::new(Value::Seven, Suit::Heart).unwrap());
    hand2.cheat(Card::new(Value::Five, Suit::Heart).unwrap());

    assert_eq!(
        get_best_5_card_hand(&hand1) > get_best_5_card_hand(&hand2),
        true
    );
}

#[test]
fn test_flush_not_eq_mid_card() {
    let mut hand1 = Hand::new(5);
    hand1.cheat(Card::new(Value::King, Suit::Heart).unwrap());
    hand1.cheat(Card::new(Value::Jack, Suit::Heart).unwrap());
    hand1.cheat(Card::new(Value::Ten, Suit::Heart).unwrap());
    hand1.cheat(Card::new(Value::Seven, Suit::Heart).unwrap());
    hand1.cheat(Card::new(Value::Five, Suit::Heart).unwrap());
    let mut hand2 = Hand::new(5);
    hand2.cheat(Card::new(Value::King, Suit::Heart).unwrap());
    hand2.cheat(Card::new(Value::Jack, Suit::Heart).unwrap());
    hand2.cheat(Card::new(Value::Nine, Suit::Heart).unwrap());
    hand2.cheat(Card::new(Value::Seven, Suit::Heart).unwrap());
    hand2.cheat(Card::new(Value::Five, Suit::Heart).unwrap());

    assert_eq!(
        get_best_5_card_hand(&hand1) > get_best_5_card_hand(&hand2),
        true
    );
}

#[test]
fn test_flush_not_eq_2_low_card() {
    let mut hand1 = Hand::new(5);
    hand1.cheat(Card::new(Value::King, Suit::Heart).unwrap());
    hand1.cheat(Card::new(Value::Jack, Suit::Heart).unwrap());
    hand1.cheat(Card::new(Value::Nine, Suit::Heart).unwrap());
    hand1.cheat(Card::new(Value::Eight, Suit::Heart).unwrap());
    hand1.cheat(Card::new(Value::Five, Suit::Heart).unwrap());
    let mut hand2 = Hand::new(5);
    hand2.cheat(Card::new(Value::King, Suit::Heart).unwrap());
    hand2.cheat(Card::new(Value::Jack, Suit::Heart).unwrap());
    hand2.cheat(Card::new(Value::Nine, Suit::Heart).unwrap());
    hand2.cheat(Card::new(Value::Seven, Suit::Heart).unwrap());
    hand2.cheat(Card::new(Value::Five, Suit::Heart).unwrap());

    assert_eq!(
        get_best_5_card_hand(&hand1) > get_best_5_card_hand(&hand2),
        true
    );
}

#[test]
fn test_flush_not_eq_low_card() {
    let mut hand1 = Hand::new(5);
    hand1.cheat(Card::new(Value::King, Suit::Heart).unwrap());
    hand1.cheat(Card::new(Value::Jack, Suit::Heart).unwrap());
    hand1.cheat(Card::new(Value::Nine, Suit::Heart).unwrap());
    hand1.cheat(Card::new(Value::Seven, Suit::Heart).unwrap());
    hand1.cheat(Card::new(Value::Six, Suit::Heart).unwrap());
    let mut hand2 = Hand::new(5);
    hand2.cheat(Card::new(Value::King, Suit::Heart).unwrap());
    hand2.cheat(Card::new(Value::Jack, Suit::Heart).unwrap());
    hand2.cheat(Card::new(Value::Nine, Suit::Heart).unwrap());
    hand2.cheat(Card::new(Value::Seven, Suit::Heart).unwrap());
    hand2.cheat(Card::new(Value::Five, Suit::Heart).unwrap());

    assert_eq!(
        get_best_5_card_hand(&hand1) > get_best_5_card_hand(&hand2),
        true
    );
}

#[test]
fn test_straight_not_eq() {
    let mut hand1 = Hand::new(5);
    hand1.cheat(Card::new(Value::Nine, Suit::Heart).unwrap());
    hand1.cheat(Card::new(Value::Ten, Suit::Club).unwrap());
    hand1.cheat(Card::new(Value::Jack, Suit::Heart).unwrap());
    hand1.cheat(Card::new(Value::Queen, Suit::Heart).unwrap());
    hand1.cheat(Card::new(Value::King, Suit::Heart).unwrap());
    let mut hand2 = Hand::new(5);
    hand2.cheat(Card::new(Value::Ace, Suit::Heart).unwrap());
    hand2.cheat(Card::new(Value::Two, Suit::Club).unwrap());
    hand2.cheat(Card::new(Value::Three, Suit::Heart).unwrap());
    hand2.cheat(Card::new(Value::Four, Suit::Heart).unwrap());
    hand2.cheat(Card::new(Value::Five, Suit::Heart).unwrap());

    assert_eq!(
        get_best_5_card_hand(&hand1) > get_best_5_card_hand(&hand2),
        true
    );
}

#[test]
fn test_three_of_a_kind_not_eq_high_card() {
    let mut hand1 = Hand::new(5);
    hand1.cheat(Card::new(Value::Ace, Suit::Heart).unwrap());
    hand1.cheat(Card::new(Value::Ace, Suit::Club).unwrap());
    hand1.cheat(Card::new(Value::Ace, Suit::Spade).unwrap());
    hand1.cheat(Card::new(Value::Four, Suit::Heart).unwrap());
    hand1.cheat(Card::new(Value::Five, Suit::Heart).unwrap());
    let mut hand2 = Hand::new(5);
    hand2.cheat(Card::new(Value::King, Suit::Heart).unwrap());
    hand2.cheat(Card::new(Value::King, Suit::Club).unwrap());
    hand2.cheat(Card::new(Value::King, Suit::Spade).unwrap());
    hand2.cheat(Card::new(Value::Four, Suit::Heart).unwrap());
    hand2.cheat(Card::new(Value::Five, Suit::Heart).unwrap());

    assert_eq!(
        get_best_5_card_hand(&hand1) > get_best_5_card_hand(&hand2),
        true
    );
}

#[test]
fn test_three_of_a_kind_not_eq_mid_card() {
    let mut hand1 = Hand::new(5);
    hand1.cheat(Card::new(Value::Ace, Suit::Heart).unwrap());
    hand1.cheat(Card::new(Value::Ace, Suit::Club).unwrap());
    hand1.cheat(Card::new(Value::Ace, Suit::Spade).unwrap());
    hand1.cheat(Card::new(Value::Four, Suit::Heart).unwrap());
    hand1.cheat(Card::new(Value::Six, Suit::Heart).unwrap());
    let mut hand2 = Hand::new(5);
    hand2.cheat(Card::new(Value::Ace, Suit::Heart).unwrap());
    hand2.cheat(Card::new(Value::Ace, Suit::Club).unwrap());
    hand2.cheat(Card::new(Value::Ace, Suit::Spade).unwrap());
    hand2.cheat(Card::new(Value::Four, Suit::Heart).unwrap());
    hand2.cheat(Card::new(Value::Five, Suit::Heart).unwrap());

    assert_eq!(
        get_best_5_card_hand(&hand1) > get_best_5_card_hand(&hand2),
        true
    );
}

#[test]
fn test_three_of_a_kind_not_eq_low_card() {
    let mut hand1 = Hand::new(5);
    hand1.cheat(Card::new(Value::Ace, Suit::Heart).unwrap());
    hand1.cheat(Card::new(Value::Ace, Suit::Club).unwrap());
    hand1.cheat(Card::new(Value::Ace, Suit::Spade).unwrap());
    hand1.cheat(Card::new(Value::Four, Suit::Heart).unwrap());
    hand1.cheat(Card::new(Value::Five, Suit::Heart).unwrap());
    let mut hand2 = Hand::new(5);
    hand2.cheat(Card::new(Value::Ace, Suit::Heart).unwrap());
    hand2.cheat(Card::new(Value::Ace, Suit::Club).unwrap());
    hand2.cheat(Card::new(Value::Ace, Suit::Spade).unwrap());
    hand2.cheat(Card::new(Value::Three, Suit::Heart).unwrap());
    hand2.cheat(Card::new(Value::Five, Suit::Heart).unwrap());

    assert_eq!(
        get_best_5_card_hand(&hand1) > get_best_5_card_hand(&hand2),
        true
    );
}

#[test]
fn test_two_pair_not_eq_high_card() {
    let mut hand1 = Hand::new(5);
    hand1.cheat(Card::new(Value::Ace, Suit::Heart).unwrap());
    hand1.cheat(Card::new(Value::Ace, Suit::Club).unwrap());
    hand1.cheat(Card::new(Value::Three, Suit::Heart).unwrap());
    hand1.cheat(Card::new(Value::Three, Suit::Club).unwrap());
    hand1.cheat(Card::new(Value::Five, Suit::Heart).unwrap());
    let mut hand2 = Hand::new(5);
    hand2.cheat(Card::new(Value::King, Suit::Heart).unwrap());
    hand2.cheat(Card::new(Value::King, Suit::Club).unwrap());
    hand2.cheat(Card::new(Value::Three, Suit::Heart).unwrap());
    hand2.cheat(Card::new(Value::Three, Suit::Club).unwrap());
    hand2.cheat(Card::new(Value::Five, Suit::Heart).unwrap());

    assert_eq!(
        get_best_5_card_hand(&hand1) > get_best_5_card_hand(&hand2),
        true
    );
}

#[test]
fn test_two_pair_not_eq_mid_card() {
    let mut hand1 = Hand::new(5);
    hand1.cheat(Card::new(Value::Ace, Suit::Heart).unwrap());
    hand1.cheat(Card::new(Value::Ace, Suit::Club).unwrap());
    hand1.cheat(Card::new(Value::Three, Suit::Heart).unwrap());
    hand1.cheat(Card::new(Value::Three, Suit::Club).unwrap());
    hand1.cheat(Card::new(Value::Five, Suit::Heart).unwrap());
    let mut hand2 = Hand::new(5);
    hand2.cheat(Card::new(Value::Ace, Suit::Heart).unwrap());
    hand2.cheat(Card::new(Value::Ace, Suit::Club).unwrap());
    hand2.cheat(Card::new(Value::Two, Suit::Heart).unwrap());
    hand2.cheat(Card::new(Value::Two, Suit::Club).unwrap());
    hand2.cheat(Card::new(Value::Five, Suit::Heart).unwrap());

    assert_eq!(
        get_best_5_card_hand(&hand1) > get_best_5_card_hand(&hand2),
        true
    );
}

#[test]
fn test_two_pair_not_eq_low_card() {
    let mut hand1 = Hand::new(5);
    hand1.cheat(Card::new(Value::Ace, Suit::Heart).unwrap());
    hand1.cheat(Card::new(Value::Ace, Suit::Club).unwrap());
    hand1.cheat(Card::new(Value::Three, Suit::Heart).unwrap());
    hand1.cheat(Card::new(Value::Three, Suit::Club).unwrap());
    hand1.cheat(Card::new(Value::Five, Suit::Heart).unwrap());
    let mut hand2 = Hand::new(5);
    hand2.cheat(Card::new(Value::Ace, Suit::Heart).unwrap());
    hand2.cheat(Card::new(Value::Ace, Suit::Club).unwrap());
    hand2.cheat(Card::new(Value::Three, Suit::Heart).unwrap());
    hand2.cheat(Card::new(Value::Three, Suit::Club).unwrap());
    hand2.cheat(Card::new(Value::Four, Suit::Heart).unwrap());

    assert_eq!(
        get_best_5_card_hand(&hand1) > get_best_5_card_hand(&hand2),
        true
    );
}

#[test]
fn test_one_pair_not_eq_high_card() {
    let mut hand1 = Hand::new(5);
    hand1.cheat(Card::new(Value::Ace, Suit::Heart).unwrap());
    hand1.cheat(Card::new(Value::Ace, Suit::Club).unwrap());
    hand1.cheat(Card::new(Value::Three, Suit::Heart).unwrap());
    hand1.cheat(Card::new(Value::Four, Suit::Heart).unwrap());
    hand1.cheat(Card::new(Value::Five, Suit::Heart).unwrap());
    let mut hand2 = Hand::new(5);
    hand2.cheat(Card::new(Value::King, Suit::Heart).unwrap());
    hand2.cheat(Card::new(Value::King, Suit::Club).unwrap());
    hand2.cheat(Card::new(Value::Three, Suit::Heart).unwrap());
    hand2.cheat(Card::new(Value::Four, Suit::Heart).unwrap());
    hand2.cheat(Card::new(Value::Five, Suit::Heart).unwrap());

    assert_eq!(
        get_best_5_card_hand(&hand1) > get_best_5_card_hand(&hand2),
        true
    );
}

#[test]
fn test_one_pair_not_eq_2_high_card() {
    let mut hand1 = Hand::new(5);
    hand1.cheat(Card::new(Value::Ace, Suit::Heart).unwrap());
    hand1.cheat(Card::new(Value::Ace, Suit::Club).unwrap());
    hand1.cheat(Card::new(Value::Three, Suit::Heart).unwrap());
    hand1.cheat(Card::new(Value::Four, Suit::Heart).unwrap());
    hand1.cheat(Card::new(Value::Six, Suit::Heart).unwrap());
    let mut hand2 = Hand::new(5);
    hand2.cheat(Card::new(Value::Ace, Suit::Heart).unwrap());
    hand2.cheat(Card::new(Value::Ace, Suit::Club).unwrap());
    hand2.cheat(Card::new(Value::Three, Suit::Heart).unwrap());
    hand2.cheat(Card::new(Value::Four, Suit::Heart).unwrap());
    hand2.cheat(Card::new(Value::Five, Suit::Heart).unwrap());

    assert_eq!(
        get_best_5_card_hand(&hand1) > get_best_5_card_hand(&hand2),
        true
    );
}

#[test]
fn test_one_pair_not_eq_2_low_card() {
    let mut hand1 = Hand::new(5);
    hand1.cheat(Card::new(Value::Ace, Suit::Heart).unwrap());
    hand1.cheat(Card::new(Value::Ace, Suit::Club).unwrap());
    hand1.cheat(Card::new(Value::Three, Suit::Heart).unwrap());
    hand1.cheat(Card::new(Value::Six, Suit::Heart).unwrap());
    hand1.cheat(Card::new(Value::Five, Suit::Heart).unwrap());
    let mut hand2 = Hand::new(5);
    hand2.cheat(Card::new(Value::Ace, Suit::Heart).unwrap());
    hand2.cheat(Card::new(Value::Ace, Suit::Club).unwrap());
    hand2.cheat(Card::new(Value::Three, Suit::Heart).unwrap());
    hand2.cheat(Card::new(Value::Four, Suit::Heart).unwrap());
    hand2.cheat(Card::new(Value::Six, Suit::Heart).unwrap());

    assert_eq!(
        get_best_5_card_hand(&hand1) > get_best_5_card_hand(&hand2),
        true
    );
}

#[test]
fn test_one_pair_not_eq_low_card() {
    let mut hand1 = Hand::new(5);
    hand1.cheat(Card::new(Value::Ace, Suit::Heart).unwrap());
    hand1.cheat(Card::new(Value::Ace, Suit::Club).unwrap());
    hand1.cheat(Card::new(Value::Three, Suit::Heart).unwrap());
    hand1.cheat(Card::new(Value::Four, Suit::Heart).unwrap());
    hand1.cheat(Card::new(Value::Five, Suit::Heart).unwrap());
    let mut hand2 = Hand::new(5);
    hand2.cheat(Card::new(Value::Ace, Suit::Heart).unwrap());
    hand2.cheat(Card::new(Value::Ace, Suit::Club).unwrap());
    hand2.cheat(Card::new(Value::Two, Suit::Heart).unwrap());
    hand2.cheat(Card::new(Value::Four, Suit::Heart).unwrap());
    hand2.cheat(Card::new(Value::Five, Suit::Heart).unwrap());

    assert_eq!(
        get_best_5_card_hand(&hand1) > get_best_5_card_hand(&hand2),
        true
    );
}

#[test]
fn test_high_card_not_eq_high_card() {
    let mut hand1 = Hand::new(5);
    hand1.cheat(Card::new(Value::Ace, Suit::Heart).unwrap());
    hand1.cheat(Card::new(Value::Three, Suit::Club).unwrap());
    hand1.cheat(Card::new(Value::Five, Suit::Heart).unwrap());
    hand1.cheat(Card::new(Value::Seven, Suit::Heart).unwrap());
    hand1.cheat(Card::new(Value::Nine, Suit::Heart).unwrap());
    let mut hand2 = Hand::new(5);
    hand2.cheat(Card::new(Value::King, Suit::Heart).unwrap());
    hand2.cheat(Card::new(Value::Three, Suit::Club).unwrap());
    hand2.cheat(Card::new(Value::Five, Suit::Heart).unwrap());
    hand2.cheat(Card::new(Value::Seven, Suit::Heart).unwrap());
    hand2.cheat(Card::new(Value::Nine, Suit::Heart).unwrap());

    assert_eq!(
        get_best_5_card_hand(&hand1) > get_best_5_card_hand(&hand2),
        true
    );
}

#[test]
fn test_high_card_not_eq_2_high_card() {
    let mut hand1 = Hand::new(5);
    hand1.cheat(Card::new(Value::Ace, Suit::Heart).unwrap());
    hand1.cheat(Card::new(Value::Three, Suit::Club).unwrap());
    hand1.cheat(Card::new(Value::Five, Suit::Heart).unwrap());
    hand1.cheat(Card::new(Value::Seven, Suit::Heart).unwrap());
    hand1.cheat(Card::new(Value::Ten, Suit::Heart).unwrap());
    let mut hand2 = Hand::new(5);
    hand2.cheat(Card::new(Value::Ace, Suit::Heart).unwrap());
    hand2.cheat(Card::new(Value::Three, Suit::Club).unwrap());
    hand2.cheat(Card::new(Value::Five, Suit::Heart).unwrap());
    hand2.cheat(Card::new(Value::Seven, Suit::Heart).unwrap());
    hand2.cheat(Card::new(Value::Nine, Suit::Heart).unwrap());

    assert_eq!(
        get_best_5_card_hand(&hand1) > get_best_5_card_hand(&hand2),
        true
    );
}

#[test]
fn test_high_card_not_eq_mid_card() {
    let mut hand1 = Hand::new(5);
    hand1.cheat(Card::new(Value::Ace, Suit::Heart).unwrap());
    hand1.cheat(Card::new(Value::Three, Suit::Club).unwrap());
    hand1.cheat(Card::new(Value::Five, Suit::Heart).unwrap());
    hand1.cheat(Card::new(Value::Eight, Suit::Heart).unwrap());
    hand1.cheat(Card::new(Value::Nine, Suit::Heart).unwrap());
    let mut hand2 = Hand::new(5);
    hand2.cheat(Card::new(Value::Ace, Suit::Heart).unwrap());
    hand2.cheat(Card::new(Value::Three, Suit::Club).unwrap());
    hand2.cheat(Card::new(Value::Five, Suit::Heart).unwrap());
    hand2.cheat(Card::new(Value::Seven, Suit::Heart).unwrap());
    hand2.cheat(Card::new(Value::Nine, Suit::Heart).unwrap());

    assert_eq!(
        get_best_5_card_hand(&hand1) > get_best_5_card_hand(&hand2),
        true
    );
}

#[test]
fn test_high_card_not_eq_2_low_card() {
    let mut hand1 = Hand::new(5);
    hand1.cheat(Card::new(Value::Ace, Suit::Heart).unwrap());
    hand1.cheat(Card::new(Value::Three, Suit::Club).unwrap());
    hand1.cheat(Card::new(Value::Six, Suit::Heart).unwrap());
    hand1.cheat(Card::new(Value::Seven, Suit::Heart).unwrap());
    hand1.cheat(Card::new(Value::Nine, Suit::Heart).unwrap());
    let mut hand2 = Hand::new(5);
    hand2.cheat(Card::new(Value::Ace, Suit::Heart).unwrap());
    hand2.cheat(Card::new(Value::Three, Suit::Club).unwrap());
    hand2.cheat(Card::new(Value::Five, Suit::Heart).unwrap());
    hand2.cheat(Card::new(Value::Seven, Suit::Heart).unwrap());
    hand2.cheat(Card::new(Value::Nine, Suit::Heart).unwrap());

    assert_eq!(
        get_best_5_card_hand(&hand1) > get_best_5_card_hand(&hand2),
        true
    );
}

#[test]
fn test_high_card_not_eq_low_card() {
    let mut hand1 = Hand::new(5);
    hand1.cheat(Card::new(Value::Ace, Suit::Heart).unwrap());
    hand1.cheat(Card::new(Value::Four, Suit::Club).unwrap());
    hand1.cheat(Card::new(Value::Five, Suit::Heart).unwrap());
    hand1.cheat(Card::new(Value::Seven, Suit::Heart).unwrap());
    hand1.cheat(Card::new(Value::Nine, Suit::Heart).unwrap());
    let mut hand2 = Hand::new(5);
    hand2.cheat(Card::new(Value::Ace, Suit::Heart).unwrap());
    hand2.cheat(Card::new(Value::Three, Suit::Club).unwrap());
    hand2.cheat(Card::new(Value::Five, Suit::Heart).unwrap());
    hand2.cheat(Card::new(Value::Seven, Suit::Heart).unwrap());
    hand2.cheat(Card::new(Value::Nine, Suit::Heart).unwrap());

    assert_eq!(
        get_best_5_card_hand(&hand1) > get_best_5_card_hand(&hand2),
        true
    );
}

#[test]
fn test_straight_flush_gt_four_of_a_king() {
    let mut hand1 = Hand::new(5);
    hand1.cheat(Card::new(Value::Nine, Suit::Heart).unwrap());
    hand1.cheat(Card::new(Value::Ten, Suit::Heart).unwrap());
    hand1.cheat(Card::new(Value::Jack, Suit::Heart).unwrap());
    hand1.cheat(Card::new(Value::Queen, Suit::Heart).unwrap());
    hand1.cheat(Card::new(Value::King, Suit::Heart).unwrap());
    let mut hand2 = Hand::new(5);
    hand2.cheat(Card::new(Value::Nine, Suit::Heart).unwrap());
    hand2.cheat(Card::new(Value::Nine, Suit::Club).unwrap());
    hand2.cheat(Card::new(Value::Nine, Suit::Spade).unwrap());
    hand2.cheat(Card::new(Value::Nine, Suit::Diamond).unwrap());
    hand2.cheat(Card::new(Value::Five, Suit::Heart).unwrap());

    assert_eq!(
        get_best_5_card_hand(&hand1) > get_best_5_card_hand(&hand2),
        true
    );
}

#[test]
fn test_four_of_a_kind_gt_full_house() {
    let mut hand1 = Hand::new(5);
    hand1.cheat(Card::new(Value::Nine, Suit::Heart).unwrap());
    hand1.cheat(Card::new(Value::Nine, Suit::Club).unwrap());
    hand1.cheat(Card::new(Value::Nine, Suit::Spade).unwrap());
    hand1.cheat(Card::new(Value::Nine, Suit::Diamond).unwrap());
    hand1.cheat(Card::new(Value::Five, Suit::Heart).unwrap());
    let mut hand2 = Hand::new(5);
    hand2.cheat(Card::new(Value::Nine, Suit::Heart).unwrap());
    hand2.cheat(Card::new(Value::Nine, Suit::Club).unwrap());
    hand2.cheat(Card::new(Value::Jack, Suit::Heart).unwrap());
    hand2.cheat(Card::new(Value::Jack, Suit::Spade).unwrap());
    hand2.cheat(Card::new(Value::Jack, Suit::Diamond).unwrap());

    assert_eq!(
        get_best_5_card_hand(&hand1) > get_best_5_card_hand(&hand2),
        true
    );
}

#[test]
fn test_full_house_gt_flush() {
    let mut hand1 = Hand::new(5);
    hand1.cheat(Card::new(Value::Nine, Suit::Heart).unwrap());
    hand1.cheat(Card::new(Value::Nine, Suit::Club).unwrap());
    hand1.cheat(Card::new(Value::Jack, Suit::Heart).unwrap());
    hand1.cheat(Card::new(Value::Jack, Suit::Spade).unwrap());
    hand1.cheat(Card::new(Value::Jack, Suit::Diamond).unwrap());
    let mut hand2 = Hand::new(5);
    hand2.cheat(Card::new(Value::Nine, Suit::Heart).unwrap());
    hand2.cheat(Card::new(Value::Ten, Suit::Heart).unwrap());
    hand2.cheat(Card::new(Value::King, Suit::Heart).unwrap());
    hand2.cheat(Card::new(Value::Four, Suit::Heart).unwrap());
    hand2.cheat(Card::new(Value::Five, Suit::Heart).unwrap());

    assert_eq!(
        get_best_5_card_hand(&hand1) > get_best_5_card_hand(&hand2),
        true
    );
}

#[test]
fn test_flush_gt_straight() {
    let mut hand1 = Hand::new(5);
    hand1.cheat(Card::new(Value::Nine, Suit::Heart).unwrap());
    hand1.cheat(Card::new(Value::Ten, Suit::Heart).unwrap());
    hand1.cheat(Card::new(Value::King, Suit::Heart).unwrap());
    hand1.cheat(Card::new(Value::Four, Suit::Heart).unwrap());
    hand1.cheat(Card::new(Value::Five, Suit::Heart).unwrap());
    let mut hand2 = Hand::new(5);
    hand2.cheat(Card::new(Value::Nine, Suit::Heart).unwrap());
    hand2.cheat(Card::new(Value::Ten, Suit::Club).unwrap());
    hand2.cheat(Card::new(Value::Jack, Suit::Heart).unwrap());
    hand2.cheat(Card::new(Value::Queen, Suit::Heart).unwrap());
    hand2.cheat(Card::new(Value::King, Suit::Heart).unwrap());

    assert_eq!(
        get_best_5_card_hand(&hand1) > get_best_5_card_hand(&hand2),
        true
    );
}

#[test]
fn test_straight_gt_three_of_a_kind() {
    let mut hand1 = Hand::new(5);
    hand1.cheat(Card::new(Value::Nine, Suit::Heart).unwrap());
    hand1.cheat(Card::new(Value::Ten, Suit::Club).unwrap());
    hand1.cheat(Card::new(Value::Jack, Suit::Heart).unwrap());
    hand1.cheat(Card::new(Value::Queen, Suit::Heart).unwrap());
    hand1.cheat(Card::new(Value::King, Suit::Heart).unwrap());
    let mut hand2 = Hand::new(5);
    hand2.cheat(Card::new(Value::Ace, Suit::Heart).unwrap());
    hand2.cheat(Card::new(Value::Ace, Suit::Club).unwrap());
    hand2.cheat(Card::new(Value::Ace, Suit::Spade).unwrap());
    hand2.cheat(Card::new(Value::Four, Suit::Heart).unwrap());
    hand2.cheat(Card::new(Value::Five, Suit::Heart).unwrap());

    assert_eq!(
        get_best_5_card_hand(&hand1) > get_best_5_card_hand(&hand2),
        true
    );
}

#[test]
fn test_three_of_a_kind_gt_two_pair() {
    let mut hand1 = Hand::new(5);
    hand1.cheat(Card::new(Value::Ace, Suit::Heart).unwrap());
    hand1.cheat(Card::new(Value::Ace, Suit::Club).unwrap());
    hand1.cheat(Card::new(Value::Ace, Suit::Spade).unwrap());
    hand1.cheat(Card::new(Value::Four, Suit::Heart).unwrap());
    hand1.cheat(Card::new(Value::Five, Suit::Heart).unwrap());
    let mut hand2 = Hand::new(5);
    hand2.cheat(Card::new(Value::Ace, Suit::Heart).unwrap());
    hand2.cheat(Card::new(Value::Ace, Suit::Club).unwrap());
    hand2.cheat(Card::new(Value::Three, Suit::Heart).unwrap());
    hand2.cheat(Card::new(Value::Three, Suit::Club).unwrap());
    hand2.cheat(Card::new(Value::Five, Suit::Heart).unwrap());

    assert_eq!(
        get_best_5_card_hand(&hand1) > get_best_5_card_hand(&hand2),
        true
    );
}

#[test]
fn test_two_pair_gt_one_pair() {
    let mut hand1 = Hand::new(5);
    hand1.cheat(Card::new(Value::Ace, Suit::Heart).unwrap());
    hand1.cheat(Card::new(Value::Ace, Suit::Club).unwrap());
    hand1.cheat(Card::new(Value::Three, Suit::Heart).unwrap());
    hand1.cheat(Card::new(Value::Three, Suit::Club).unwrap());
    hand1.cheat(Card::new(Value::Five, Suit::Heart).unwrap());
    let mut hand2 = Hand::new(5);
    hand2.cheat(Card::new(Value::Ace, Suit::Heart).unwrap());
    hand2.cheat(Card::new(Value::Ace, Suit::Club).unwrap());
    hand2.cheat(Card::new(Value::Three, Suit::Heart).unwrap());
    hand2.cheat(Card::new(Value::Four, Suit::Heart).unwrap());
    hand2.cheat(Card::new(Value::Five, Suit::Heart).unwrap());

    assert_eq!(
        get_best_5_card_hand(&hand1) > get_best_5_card_hand(&hand2),
        true
    );
}

#[test]
fn test_one_pair_gt_high_card() {
    let mut hand1 = Hand::new(5);
    hand1.cheat(Card::new(Value::Ace, Suit::Heart).unwrap());
    hand1.cheat(Card::new(Value::Ace, Suit::Club).unwrap());
    hand1.cheat(Card::new(Value::Three, Suit::Heart).unwrap());
    hand1.cheat(Card::new(Value::Four, Suit::Heart).unwrap());
    hand1.cheat(Card::new(Value::Five, Suit::Heart).unwrap());
    let mut hand2 = Hand::new(5);
    hand2.cheat(Card::new(Value::Ace, Suit::Heart).unwrap());
    hand2.cheat(Card::new(Value::Three, Suit::Club).unwrap());
    hand2.cheat(Card::new(Value::Five, Suit::Heart).unwrap());
    hand2.cheat(Card::new(Value::Seven, Suit::Heart).unwrap());
    hand2.cheat(Card::new(Value::Nine, Suit::Heart).unwrap());

    assert_eq!(
        get_best_5_card_hand(&hand1) > get_best_5_card_hand(&hand2),
        true
    );
}

#[test]
fn test_convert_hand_to_power_sorting() {
    let mut hand = Hand::new(5);
    hand.cheat(Card::new(Value::Ace, Suit::Heart).unwrap());
    hand.cheat(Card::new(Value::Ace, Suit::Club).unwrap());
    hand.cheat(Card::new(Value::Three, Suit::Heart).unwrap());
    hand.cheat(Card::new(Value::Four, Suit::Heart).unwrap());
    hand.cheat(Card::new(Value::Five, Suit::Heart).unwrap());

    let sorted_hand = convert_hand_to_power_sorting(&hand);

    assert_eq!(
        sorted_hand,
        [
            Value::Ace,
            Value::Ace,
            Value::Five,
            Value::Four,
            Value::Three
        ]
    );
}
