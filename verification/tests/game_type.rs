use poker::base_rules::LoadState;
use poker::card::{Card, Suit, Value};
use poker::game_type::{FiveCardDraw, PokerGame, SevenCardStud};
use poker::score_hands::{get_best_5_card_hand, ScoredHand};
use poker::hand::Hand;
use poker::player::Player;

fn seated(id: u32, name: &str, limit: u8) -> Player {
    let mut p = Player::new(name);
    p.set_id(id);
    p.set_hand(Hand::new(limit));
    p
}

fn up(v: Value, s: Suit) -> Card {
    let mut c = Card::new(v, s).unwrap();
    c.face_up = true;
    c
}

#[test]
fn five_card_draw_setup_deal_and_blinds() {
    let mut game = FiveCardDraw::new(LoadState::Empty);
    assert_eq!(game.game_state.game_variant, "5 Card Draw");
    assert_eq!(game.game_state.minimum_bet, 5);
    game.game_state.insert_player(&seated(1, "A", 5)).unwrap();
    game.game_state.insert_player(&seated(2, "B", 5)).unwrap();
    game.game_state.insert_player(&seated(3, "C", 5)).unwrap();
    game.deal_initial_hands();
    for p in &game.game_state.players {
        assert_eq!(p.player_hand.cards.len(), 5);
    }
    assert_eq!(game.game_state.deck.count(), 37);
    game.first_betting_round();
    assert_eq!(game.game_state.pot, 7);
    assert_eq!(game.game_state.players[1].player_money, 998);
    assert_eq!(game.game_state.players[2].player_money, 995);
    assert_eq!(game.game_state.highest_bet, 5);
    assert_eq!(game.get_starting_player_index(), 0);
}

#[test]
fn seven_card_stud_antes_and_doors() {
    let mut game = SevenCardStud::new(LoadState::Empty);
    assert_eq!(game.game_state.game_variant, "7 Card Stud");
    assert_eq!(game.lower_bet, 5);
    assert_eq!(game.higher_bet, 10);
    game.game_state.insert_player(&seated(1, "A", 7)).unwrap();
    game.game_state.insert_player(&seated(2, "B", 7)).unwrap();
    game.put_antes();
    assert_eq!(game.game_state.pot, 4);
    assert_eq!(game.game_state.players[0].player_money, 998);
    game.deal_face_down(2);
    game.deal_face_up(1);
    assert_eq!(game.game_state.players[0].player_hand.cards.len(), 3);
    assert!(game.game_state.players[1].player_hand.cards[2].face_up);
    game.game_state.players[0].player_hand = Hand::from_cards(vec![up(Value::Three, Suit::Club)]);
    game.game_state.players[1].player_hand = Hand::from_cards(vec![up(Value::Queen, Suit::Club)]);
    assert_eq!(game.determine_lowest_door(), 0);
    assert_eq!(game.determine_highest_door(), 1);
}

fn card(v: Value, s: Suit) -> Card {
    Card::new(v, s).unwrap()
}

fn hand_of(cards: Vec<Card>) -> Hand {
    Hand::from_cards(cards)
}

fn pair_of_kings() -> Hand {
    hand_of(vec![
        card(Value::King, Suit::Spade),
        card(Value::King, Suit::Heart),
        card(Value::Two, Suit::Club),
        card(Value::Five, Suit::Diamond),
        card(Value::Nine, Suit::Club),
    ])
}

fn heart_flush() -> Hand {
    hand_of(vec![
        card(Value::Two, Suit::Heart),
        card(Value::Six, Suit::Heart),
        card(Value::Nine, Suit::Heart),
        card(Value::Jack, Suit::Heart),
        card(Value::Ace, Suit::Heart),
    ])
}

fn club_flush() -> Hand {
    hand_of(vec![
        card(Value::Two, Suit::Club),
        card(Value::Six, Suit::Club),
        card(Value::Nine, Suit::Club),
        card(Value::Jack, Suit::Club),
        card(Value::Ace, Suit::Club),
    ])
}

#[test]
fn five_card_draw_best_hand_wins_by_seat() {
    let mut game = FiveCardDraw::new(LoadState::Empty);
    for (id, name) in [(1, "A"), (2, "B"), (3, "C")] {
        game.game_state.insert_player(&seated(id, name, 5)).unwrap();
    }
    game.game_state.players[0].player_hand = pair_of_kings();
    game.game_state.players[1].player_hand = heart_flush();
    game.game_state.players[2].player_hand = club_flush();
    game.game_state.players[2].fold();
    let winners = game.determine_winner();
    assert_eq!(winners.len(), 1);
    assert_eq!(winners[0].0, 1);
    assert_eq!(winners[0].1, get_best_5_card_hand(&heart_flush()));
    assert!(matches!(winners[0].1, ScoredHand::Flush(_)));
}

#[test]
fn five_card_draw_equal_hands_share_the_win() {
    let mut game = FiveCardDraw::new(LoadState::Empty);
    for (id, name) in [(1, "A"), (2, "B"), (3, "C")] {
        game.game_state.insert_player(&seated(id, name, 5)).unwrap();
    }
    game.game_state.players[0].player_hand = heart_flush();
    game.game_state.players[1].player_hand = pair_of_kings();
    game.game_state.players[2].player_hand = club_flush();
    let winners = game.determine_winner();
    let seats: Vec<u32> = winners.iter().map(|w| w.0).collect();
    assert_eq!(seats, vec![0, 2]);
}

#[test]
fn five_card_draw_last_player_standing_wins_unscored() {
    let mut game = FiveCardDraw::new(LoadState::Empty);
    for (id, name) in [(1, "A"), (2, "B")] {
        game.game_state.insert_player(&seated(id, name, 5)).unwrap();
    }
    game.game_state.players[0].fold();
    let winners = game.determine_winner();
    assert_eq!(winners.len(), 1);
    assert_eq!(winners[0].0, 1);
    assert_eq!(winners[0].1, ScoredHand::HighCard([Value::Two; 5]));
}

#[test]
fn seven_card_stud_scores_best_five_of_seven() {
    let mut game = SevenCardStud::new(LoadState::Empty);
    for (id, name) in [(1, "A"), (2, "B")] {
        game.game_state.insert_player(&seated(id, name, 7)).unwrap();
    }
    let mut kings = pair_of_kings().cards;
    kings.push(card(Value::King, Suit::Club));
    kings.push(card(Value::Three, Suit::Spade));
    let mut flush = heart_flush().cards;
    flush.push(card(Value::Four, Suit::Spade));
    flush.push(card(Value::Eight, Suit::Diamond));
    game.game_state.players[0].player_hand = hand_of(kings);
    game.game_state.players[1].player_hand = hand_of(flush);
    let winners = game.determine_winner();
    assert_eq!(winners.len(), 1);
    assert_eq!(winners[0].0, 1);
    assert!(matches!(winners[0].1, ScoredHand::Flush(_)));
}

#[test]
fn new_round_readies_table_and_moves_dealer() {
    let mut game = FiveCardDraw::new(LoadState::Empty);
    for (id, name) in [(1, "A"), (2, "B"), (3, "C")] {
        game.game_state.insert_player(&seated(id, name, 5)).unwrap();
    }
    game.game_state.pot = 40;
    game.game_state.players[0].set_money(3);
    game.game_state.players[1].player_hand = pair_of_kings();
    game.game_state.players[1].bet(20);
    game.new_round(77);
    assert_eq!(game.game_state.game_id, 77);
    assert_eq!(game.game_state.pot, 0);
    assert_eq!(game.game_state.dealer, 1);
    assert_eq!(game.game_state.deck.count(), 52);
    assert_eq!(game.game_state.stage_number, 1);
    assert_eq!(*game.game_state.players[0].get_money(), 1000);
    assert_eq!(*game.game_state.players[1].get_money(), 980);
    assert_eq!(game.game_state.players[1].player_hand.cards.len(), 0);
    assert_eq!(game.game_state.players[1].total_wagered_per_game, 0);
    assert!(game.game_state.players[1].player_choices.is_empty());

    let mut stud = SevenCardStud::new(LoadState::Empty);
    stud.game_state.insert_player(&seated(1, "A", 7)).unwrap();
    stud.game_state.insert_player(&seated(2, "B", 7)).unwrap();
    stud.new_round(5);
    assert_eq!(stud.game_state.dealer, 1);
    assert_eq!(stud.game_state.players[0].player_hand.hand_limit, 7);
    assert_eq!(stud.higher_bet, 10);
}

#[test]
fn pay_out_to_a_single_winner() {
    let mut game = FiveCardDraw::new(LoadState::Empty);
    for (id, name) in [(1, "A"), (2, "B"), (3, "C")] {
        game.game_state.insert_player(&seated(id, name, 5)).unwrap();
    }
    game.game_state.pot = 90;
    game.pay_out(vec![(2, get_best_5_card_hand(&heart_flush()))]);
    assert_eq!(game.game_state.pot, 0);
    assert_eq!(*game.game_state.players[2].get_money(), 1090);
    assert_eq!(game.game_state.players[2].get_wins(), 1);
    assert_eq!(game.game_state.players[0].get_losses(), 1);
    assert_eq!(game.game_state.winner.len(), 1);
    assert_eq!(game.game_state.winner[0].player_name, "C");
}

#[test]
fn pay_out_to_a_seat_off_the_table_changes_nothing() {
    let mut game = FiveCardDraw::new(LoadState::Empty);
    game.game_state.insert_player(&seated(1, "A", 5)).unwrap();
    game.game_state.insert_player(&seated(2, "B", 5)).unwrap();
    game.game_state.pot = 90;
    game.pay_out(vec![(7, ScoredHand::HighCard([Value::Two; 5]))]);
    assert_eq!(game.game_state.pot, 90);
    assert_eq!(game.game_state.winner.len(), 0);
}

#[test]
fn pay_out_splits_a_tie_by_id() {
    let mut game = FiveCardDraw::new(LoadState::Empty);
    for (id, name) in [(1, "A"), (2, "B"), (3, "C")] {
        game.game_state.insert_player(&seated(id, name, 5)).unwrap();
    }
    game.game_state.pot = 101;
    let s = get_best_5_card_hand(&heart_flush());
    game.pay_out(vec![(1, s), (3, s)]);
    assert_eq!(game.game_state.pot, 0);
    assert_eq!(*game.game_state.players[0].get_money(), 1050);
    assert_eq!(*game.game_state.players[1].get_money(), 1000);
    assert_eq!(*game.game_state.players[2].get_money(), 1050);
    let names: Vec<&str> = game.game_state.winner.iter().map(|p| p.player_name.as_str()).collect();
    assert_eq!(names, vec!["A", "C"]);
}

#[test]
fn pay_out_when_everyone_else_folded() {
    let mut game = SevenCardStud::new(LoadState::Empty);
    game.game_state.insert_player(&seated(1, "A", 7)).unwrap();
    game.game_state.insert_player(&seated(2, "B", 7)).unwrap();
    game.game_state.players[1].fold();
    game.game_state.pot = 30;
    let winners = game.determine_winner();
    game.pay_out(winners);
    assert_eq!(*game.game_state.players[0].get_money(), 1030);
    assert_eq!(game.game_state.players[0].round_win, 30);
    assert_eq!(game.game_state.players[1].get_losses(), 1);
}
