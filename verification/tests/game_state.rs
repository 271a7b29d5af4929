use poker::card::{Card, Suit, Value};
use poker::game_state::GameState;
use poker::hand::Hand;
use poker::player::{Player, PlayerChoice};
use poker::score_hands::ScoredHand;

fn card(v: Value, s: Suit) -> Card {
    Card::new(v, s).unwrap()
}

fn table(names: &[&str]) -> GameState {
    let mut game = GameState::new();
    for name in names {
        game.insert_player(&Player::new(name)).unwrap();
    }
    game
}

#[test]
fn fresh_table_settings() {
    let game = GameState::new_dummy_game_state(12);
    assert_eq!(game.game_id, 12);
    assert_eq!(game.demo_mode, "inactive");
    assert_eq!(game.minimum_bet, 5);
    assert_eq!(game.max_players, 5);
    assert_eq!(game.deck.count(), 52);
    assert_eq!(game.community_cards.get_hand_limit(), 5);
    let default = GameState::default();
    assert_eq!(default.game_id, 0);
    assert_eq!(default.get_game_state().hand_size, 5);
}

#[test]
fn insert_player_respects_max_players() {
    let mut game = table(&["A", "B", "C", "D", "E"]);
    assert_eq!(game.insert_player(&Player::new("F")), Err("Unable to push".to_string()));
    assert_eq!(game.players.len(), 5);
    assert!(game.insert_player_to_lobby(&Player::new("F")).is_ok());
    assert!(game.insert_player_to_spectators(&Player::new("G")).is_ok());
    assert!(game.insert_player_to_dealer_choice_spectators(&Player::new("H")).is_ok());
    assert_eq!(game.lobby[0].player_name, "F");
    assert_eq!(game.spectators[0].player_name, "G");
    assert_eq!(game.dealer_choice_spectators[0].player_name, "H");
}

#[test]
fn retain_lobby_info_keeps_seats_and_dealer() {
    let mut game = table(&["A", "B"]);
    game.insert_player_to_lobby(&Player::new("L")).unwrap();
    game.insert_player_to_dealer_choice_spectators(&Player::new("S")).unwrap();
    game.dealer = 1;
    game.pot = 70;
    game.game_variant = "5 Card Draw".to_string();
    game.game_state_retain_lobby_info();
    assert_eq!(game.players.len(), 2);
    assert_eq!(game.lobby.len(), 1);
    assert_eq!(game.dealer, 1);
    assert_eq!(game.pot, 0);
    assert_eq!(game.game_variant, "");
    assert!(game.dealer_choice_spectators.is_empty());
}

#[test]
fn blinds_tokens_and_dealer_rotation() {
    let mut game = table(&["A", "B", "C"]);
    game.put_blinds();
    assert_eq!(game.pot, 7);
    assert_eq!(game.highest_bet, 5);
    assert_eq!(game.players[1].player_money, 998);
    assert_eq!(game.players[1].last_move, "Small Blind");
    assert_eq!(game.players[2].player_money, 995);
    assert_eq!(game.players[2].get_placedinpot(), Ok(PlayerChoice::PlacedInPot(5)));
    game.set_player_tokens_blinds();
    assert_eq!(game.players[0].token, "D");
    assert_eq!(game.players[1].token, "SB");
    assert_eq!(game.players[2].token, "BB");
    assert_eq!(game.get_blinds_starting_player_index(), 0);
    assert_eq!(game.get_starting_player_left_of_dealer(), 1);
    game.rotate_dealer();
    assert_eq!(game.dealer, 1);
    assert_eq!(game.players[0].token, "");
    game.set_player_tokens_only_dealer();
    assert_eq!(game.players[1].token, "D");
}

#[test]
fn two_players_blind_tokens_skip_the_dealer() {
    let mut game = table(&["A", "B"]);
    game.set_player_tokens_blinds();
    assert_eq!(game.players[0].token, "D");
    assert_eq!(game.players[1].token, "SB");
}

#[test]
fn seven_card_antes_fill_the_pot() {
    let mut game = table(&["A", "B", "C"]);
    game.seven_card_antes(1);
    assert_eq!(game.pot, 9);
    assert_eq!(game.players[0].player_money, 998);
    assert_eq!(game.players[1].player_money, 995);
    assert_eq!(game.highest_bet, 5);
}

#[test]
fn dealing_skips_folded_players_and_full_hands() {
    let mut game = table(&["A", "B", "C"]);
    game.players[0].set_hand(Hand::new(5));
    game.players[1].set_hand(Hand::new(5));
    game.players[2].set_hand(Hand::new(1));
    game.players[1].fold();
    game.deal_face_down(2);
    assert_eq!(game.players[0].player_hand.cards.len(), 2);
    assert_eq!(game.players[1].player_hand.cards.len(), 0);
    assert_eq!(game.players[2].player_hand.cards.len(), 1);
    assert_eq!(game.deck.count(), 49);
    game.deal_face_up(1);
    assert!(game.players[0].player_hand.cards[2].face_up);
    assert!(!game.players[0].player_hand.cards[0].face_up);
    game.deal_community_cards(3);
    assert_eq!(game.community_cards.cards.len(), 3);
    assert!(game.community_cards.cards.iter().all(|c| c.face_up));
    assert_eq!(game.deck.count(), 45);
}

#[test]
fn dealing_stops_with_one_player_left() {
    let mut game = table(&["A", "B"]);
    game.players[0].set_hand(Hand::new(5));
    game.players[1].fold();
    game.deal_face_down(2);
    game.deal_community_cards(2);
    assert_eq!(game.players[0].player_hand.cards.len(), 0);
    assert_eq!(game.community_cards.cards.len(), 0);
    assert_eq!(game.get_remaining_player_count(), 1);
}

#[test]
fn betting_round_flow() {
    let mut game = table(&["A", "B", "C"]);
    game.round_number = 1;
    game.new_betting_round();
    game.set_current_player(0);
    game.get_available_player_actions();
    assert_eq!(game.raise_min_max, (5, 1000));
    game.handle_player_betting_message("Raise".to_string(), 20);
    assert_eq!(game.highest_bet, 20);
    assert_eq!(game.pot, 20);
    assert_eq!(game.action_history.last().unwrap(), "A raised to 20");
    assert!(!game.is_betting_round_complete());
    game.update_current_player();
    assert_eq!(game.current_player.player_name, "B");
    game.handle_player_betting_message("Call".to_string(), 0);
    assert_eq!(game.players[1].player_money, 980);
    assert_eq!(game.action_history.last().unwrap(), "B called");
    game.update_current_player();
    game.handle_player_betting_message("Whatever".to_string(), 0);
    assert!(game.players[2].player_choices.fold);
    assert_eq!(game.players[2].last_move, "Fold");
    assert_eq!(game.action_history.last().unwrap(), "C folded");
    assert_eq!(game.pot, 40);
    assert!(game.is_betting_round_complete());
    game.update_current_player();
    assert_eq!(game.current_player.player_name, "A");
}

#[test]
fn checks_complete_a_round_without_bets() {
    let mut game = table(&["A", "B"]);
    assert!(!game.is_betting_round_complete());
    game.set_current_player(0);
    game.handle_player_betting_message("Check".to_string(), 0);
    game.set_current_player(1);
    game.current_player_check();
    assert_eq!(game.players[1].last_move, "Check");
    assert!(game.is_betting_round_complete());
    assert_eq!(game.action_history, vec!["A checked".to_string()]);
}

#[test]
fn update_current_player_unknown_name_goes_to_first_seat() {
    let mut game = table(&["A", "B"]);
    game.current_player = Player::new("Z");
    game.update_current_player();
    assert_eq!(game.current_player.player_name, "A");
    game.set_current_player(7);
    assert_eq!(game.current_player.player_name, "A");
}

#[test]
fn folded_current_player_gets_no_raise_bounds() {
    let mut game = table(&["A", "B"]);
    game.set_current_player(0);
    game.current_player_fold();
    game.set_current_player(0);
    game.discard_cards_prompted = true;
    game.get_available_player_actions();
    assert_eq!(game.raise_min_max, (0, 0));
    assert!(!game.discard_cards_prompted);
    game.handle_demo_mode_message("active".to_string());
    assert_eq!(game.demo_mode, "active");
}

#[test]
fn discards_are_swapped_for_dealt_cards() {
    let mut game = table(&["A"]);
    game.players[0].set_hand(Hand::from_cards(vec![
        card(Value::Two, Suit::Club),
        card(Value::Three, Suit::Club),
    ]));
    game.handle_player_discard_message("A".to_string(), vec![1, 5]);
    assert_eq!(game.deck.count(), 51);
    assert_eq!(game.players[0].player_hand.cards[0], card(Value::Two, Suit::Club));
    assert!(!game.deck.contains(game.players[0].player_hand.cards[1]));
    game.handle_player_discard_message("Nobody".to_string(), vec![0]);
    assert_eq!(game.deck.count(), 51);
}

#[test]
fn new_discard_round_keeps_only_folds() {
    let mut game = table(&["A", "B"]);
    game.players[0].call(10);
    game.players[1].fold();
    game.new_discard_round();
    assert!(game.discard_cards_prompted);
    assert_eq!(game.players[0].get_placedinpot(), Ok(PlayerChoice::PlacedInPot(0)));
    assert!(game.players[0].get_call().is_err());
    assert!(game.players[1].player_choices.fold);
}

#[test]
fn five_card_showdown_picks_the_best_hand_and_splits_ties() {
    let mut game = table(&["A", "B", "C"]);
    game.players[0].set_hand(Hand::from_cards(vec![
        card(Value::Ace, Suit::Club),
        card(Value::Ace, Suit::Heart),
        card(Value::Two, Suit::Club),
        card(Value::Three, Suit::Spade),
        card(Value::Nine, Suit::Club),
    ]));
    game.players[1].set_hand(Hand::from_cards(vec![
        card(Value::Ace, Suit::Diamond),
        card(Value::Ace, Suit::Spade),
        card(Value::Two, Suit::Heart),
        card(Value::Three, Suit::Heart),
        card(Value::Nine, Suit::Heart),
    ]));
    game.players[2].set_hand(Hand::from_cards(vec![
        card(Value::King, Suit::Club),
        card(Value::King, Suit::Heart),
        card(Value::King, Suit::Diamond),
        card(Value::Three, Suit::Club),
        card(Value::Four, Suit::Club),
    ]));
    game.players[2].fold();
    game.determine_winner_five_card();
    assert_eq!(game.winner.len(), 2);
    assert_eq!(game.winner[0].0.player_name, "A");
    assert_eq!(game.winner[1].0.player_name, "B");
    assert_eq!(game.winner[0].1.to_string(), "One Pair: A, A, 9, 3, 2");
    assert!(game.players[0].player_hand.cards.iter().all(|c| c.face_up));
    assert!(game.players[2].player_hand.cards.iter().all(|c| !c.face_up));
    game.pot = 101;
    game.pay_winners();
    assert_eq!(game.pot, 0);
    assert_eq!(game.players[0].player_money, 1050);
    assert_eq!(game.players[1].player_money, 1050);
    assert_eq!(game.players[0].round_win, 50);
    assert_eq!(game.players[0].total_wins, 1);
    assert_eq!(game.players[0].total_losses, 1);
    assert_eq!(game.players[0].total_games, 2);
    assert_eq!(game.players[2].total_losses, 2);
    assert_eq!(game.players[2].player_money, 1000);
}

#[test]
fn pay_winners_without_winners_changes_nothing() {
    let mut game = table(&["A"]);
    game.pot = 30;
    game.pay_winners();
    assert_eq!(game.pot, 30);
    assert_eq!(game.players[0].total_games, 0);
}

#[test]
fn seven_card_showdown_adds_the_lone_player() {
    let mut game = table(&["A", "B"]);
    game.players[1].fold();
    game.winner.push((Player::new("Old"), ScoredHand::HighCard([Value::Two; 5])));
    game.determine_winner_seven_card();
    assert_eq!(game.winner.len(), 2);
    assert_eq!(game.winner[1].0.player_name, "A");
    assert_eq!(game.winner[1].1, ScoredHand::HighCard([Value::Empty; 5]));
}

#[test]
fn seven_card_showdown_scores_best_five() {
    let mut game = table(&["A", "B"]);
    game.players[0].set_hand(Hand::from_cards(vec![
        card(Value::Two, Suit::Heart),
        card(Value::Three, Suit::Heart),
        card(Value::Four, Suit::Heart),
        card(Value::Five, Suit::Heart),
        card(Value::Six, Suit::Heart),
        card(Value::King, Suit::Club),
        card(Value::King, Suit::Spade),
    ]));
    game.players[1].set_hand(Hand::from_cards(vec![
        card(Value::Ace, Suit::Heart),
        card(Value::Ace, Suit::Club),
        card(Value::Ace, Suit::Spade),
        card(Value::Ace, Suit::Diamond),
        card(Value::Nine, Suit::Heart),
        card(Value::Two, Suit::Club),
        card(Value::Three, Suit::Spade),
    ]));
    game.determine_winner_seven_card();
    assert_eq!(game.winner.len(), 1);
    assert_eq!(game.winner[0].0.player_name, "A");
    assert_eq!(game.winner[0].1.to_string(), "Straight Flush: 6, 5, 4, 3, 2");
}

#[test]
fn texas_showdown_uses_the_community_cards() {
    let mut game = table(&["A", "B"]);
    game.players[0].set_hand(Hand::from_cards(vec![card(Value::Ace, Suit::Club), card(Value::Ace, Suit::Heart)]));
    game.players[1].set_hand(Hand::from_cards(vec![card(Value::Two, Suit::Club), card(Value::Seven, Suit::Heart)]));
    game.community_cards = Hand::from_cards(vec![
        card(Value::King, Suit::Club),
        card(Value::Queen, Suit::Diamond),
        card(Value::Nine, Suit::Spade),
        card(Value::Four, Suit::Heart),
        card(Value::Three, Suit::Spade),
    ]);
    game.determine_winner_texas();
    assert_eq!(game.winner.len(), 1);
    assert_eq!(game.winner[0].0.player_name, "A");
    assert_eq!(game.winner[0].1.to_string(), "One Pair: A, A, K, Q, 9");
}

#[test]
fn doors_pick_lowest_and_highest_face_up_cards() {
    let mut game = table(&["A", "B", "C"]);
    let up = |v: Value, s: Suit| {
        let mut c = card(v, s);
        c.face_up = true;
        c
    };
    game.players[0].set_hand(Hand::from_cards(vec![card(Value::Two, Suit::Club), up(Value::Nine, Suit::Club)]));
    game.players[1].set_hand(Hand::from_cards(vec![up(Value::Four, Suit::Heart)]));
    game.players[2].set_hand(Hand::from_cards(vec![up(Value::King, Suit::Spade)]));
    assert_eq!(game.determine_lowest_door(), 1);
    assert_eq!(game.determine_highest_door(), 2);
    game.players[2].fold();
    assert_eq!(game.determine_highest_door(), 0);
}

#[test]
fn new_five_card_round_deals_and_takes_blinds() {
    let mut game = table(&["A", "B", "C"]);
    game.players[0].set_money(3);
    game.new_five_card_round(42);
    assert_eq!(game.game_id, 42);
    assert_eq!(game.game_variant, "5 Card Draw");
    assert_eq!(game.max_players, 7);
    assert_eq!(game.players[0].player_money, 1000);
    for p in &game.players {
        assert_eq!(p.player_hand.cards.len(), 5);
    }
    assert_eq!(game.deck.count(), 37);
    assert_eq!(game.pot, 7);
    assert_eq!(game.players[0].token, "D");
    assert_eq!(game.players[2].token, "BB");
}

#[test]
fn new_seven_and_texas_rounds() {
    let mut game = table(&["A", "B"]);
    game.new_seven_card_round(3);
    assert_eq!(game.game_variant, "7 Card Stud");
    assert_eq!(game.players[1].player_hand.cards.len(), 3);
    assert!(game.players[1].player_hand.cards[2].face_up);
    assert_eq!(game.pot, 0);
    assert_eq!(game.players[0].token, "D");
    game.new_texas_holdem_round(4);
    assert_eq!(game.game_variant, "Texas Hold'em");
    assert_eq!(game.players[0].player_hand.cards.len(), 2);
    assert_eq!(game.deck.count(), 48);
    assert_eq!(game.pot, 7);
}

#[test]
fn clone_keeps_the_table() {
    let mut game = table(&["A"]);
    game.action_history.push("x".to_string());
    let copy = game.clone();
    assert_eq!(copy.players[0].player_name, "A");
    assert_eq!(copy.action_history, vec!["x".to_string()]);
}
