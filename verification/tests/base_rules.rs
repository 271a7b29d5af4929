use poker::base_rules::GameState;
use poker::player::Player;

fn registered(name: &str, id: u32) -> Player {
    Player::new_player(name.to_string(), String::new(), id).unwrap()
}

#[test]
fn test_new_game() {
    let game = GameState::new_game(1);
    assert_eq!(game.game_id, 1);
    assert_eq!(game.players.len(), 0);
    assert_eq!(game.pot, 0);
}

#[test]
fn test_set_highest_bet() {
    let mut game = GameState::new_game(1);
    assert!(game.set_highest_bet(100));
    assert_eq!(*game.get_highest_bet(), 100);
    assert!(!game.set_highest_bet(50)); // Should not update if lower
}

#[test]
fn test_insert_player() {
    let mut game = GameState::new_game(1);
    let player = registered("Alice", 1);
    assert!(game.insert_player(&player).is_ok());
    assert_eq!(game.players.len(), 1);
}

#[test]
fn test_remove_player() {
    let mut game = GameState::new_game(1);
    let mut player = registered("Bob", 1);
    let player_id = 1;
    player.set_id(player_id);
    game.insert_player(&player).unwrap();
    assert_eq!(game.players.len(), 1);
    game.remove_player(player_id);
    assert_eq!(game.players.len(), 0);
}

#[test]
fn test_put_into_pot() {
    let mut game = GameState::new_game(1);
    let mut player = registered("Charlie", 1);
    player.set_money(1000);
    game.insert_player(&player).unwrap();
    game.put_into_pot(1, 100);
    assert_eq!(game.pot, 100);
    assert_eq!(*game.players[0].get_money(), 900);
}

#[test]
fn test_give_pot() {
    let mut game = GameState::new_game(1);
    let mut player = registered("David", 1);
    player.set_money(1000 as u32);
    game.insert_player(&player).unwrap();
    game.pot = 500;
    game.give_pot(1);
    assert_eq!(*game.players[0].get_money(), 1500);
    assert_eq!(game.pot, 0);
}

#[test]
fn test_split_pot() {
    let mut game = GameState::new_game(1);
    let mut player1 = registered("Eve", 1);
    let mut player2 = registered("Frank", 2);
    player1.set_money(1000 as u32);
    player2.set_money(1000 as u32);
    game.insert_player(&player1).unwrap();
    game.insert_player(&player2).unwrap();
    game.pot = 500;
    game.split_pot(&vec![1, 2]);
    assert_eq!(*game.players[0].get_money(), 1250);
    assert_eq!(*game.players[1].get_money(), 1250);
}

#[test]
fn test_rotate_blinds() {
    let mut game = GameState::new_game(1);
    let player = registered("Grace", 1);
    game.insert_player(&player).unwrap();
    game.rotate_blinds();
    assert_eq!(game.dealer, 0);
}

#[test]
fn test_draw_card_from_deck() {
    let mut game = GameState::new_game(1);
    let result = game.draw_card_from_deck();
    assert!(result.is_ok());
}

#[test]
fn test_put_blinds() {
    let mut game = GameState::new_game(1);
    let mut player1 = registered("P1", 1);
    let mut player2 = registered("P2", 2);
    let mut player3 = registered("P3", 3);

    player1.set_money(1000);
    player2.set_money(1000);
    player3.set_money(1000);

    game.insert_player(&player1).unwrap();
    game.insert_player(&player2).unwrap();
    game.insert_player(&player3).unwrap();

    game.put_blinds();

    assert_eq!(game.pot, game.minimum_bet + (game.minimum_bet / 2));
    assert_eq!(*game.players[1].get_money(), 1000 - (game.minimum_bet / 2));
    assert_eq!(*game.players[2].get_money(), 1000 - game.minimum_bet);
}

#[test]
fn empty_constructor_settings() {
    let game = GameState::empty_constructor(7);
    assert_eq!(*game.get_game_id(), 7);
    assert_eq!(game.hand_size, 5);
    assert_eq!(game.max_players, 5);
    assert_eq!(game.minimum_bet, 10);
    assert_eq!(game.stage_number, 0);
    assert_eq!(game.deck().count(), 52);
    assert_eq!(game.get_variant(), "");
}

#[test]
fn table_is_full_at_five() {
    let mut game = GameState::new_game(1);
    for id in 0..5 {
        assert!(game.insert_player(&Player::new("p")).is_ok(), "seat {}", id);
    }
    assert_eq!(game.insert_player(&Player::new("p")), Err("Unable to push".to_string()));
    assert_eq!(game.players_in_game(), 5);
    assert_eq!(game.players().len(), 5);
}

#[test]
fn remove_unknown_player_is_refused() {
    let mut game = GameState::new_game(1);
    let mut player = Player::new("Bo");
    player.set_id(4);
    game.insert_player(&player).unwrap();
    assert!(!game.remove_player(9));
    assert_eq!(game.players.len(), 1);
}

#[test]
fn give_pot_to_nobody_keeps_pot_and_counts_losses() {
    let mut game = GameState::new_game(1);
    let mut player = Player::new("Cy");
    player.set_id(3);
    game.insert_player(&player).unwrap();
    game.pot = 40;
    game.give_pot(99);
    assert_eq!(game.pot, 40);
    assert_eq!(game.players[0].get_losses(), 1);
    assert_eq!(game.players[0].get_games(), 1);
}

#[test]
fn split_pot_rounds_down_and_empties_pot() {
    let mut game = GameState::new_game(1);
    let mut a = Player::new("A");
    a.set_id(1);
    let mut b = Player::new("B");
    b.set_id(2);
    game.insert_player(&a).unwrap();
    game.insert_player(&b).unwrap();
    game.pot = 101;
    game.split_pot(&vec![1, 2, 2]);
    assert_eq!(*game.players[0].get_money(), 1033);
    assert_eq!(*game.players[1].get_money(), 1066);
    assert_eq!(game.pot, 0);
    game.pot = 9;
    game.split_pot(&vec![]);
    assert_eq!(game.pot, 0);
}

#[test]
fn deal_hands_and_new_betting_round() {
    let mut game = GameState::empty_constructor(1);
    let mut a = Player::new("A");
    a.set_hand(poker::hand::Hand::new(5));
    let mut b = Player::new("B");
    b.set_hand(poker::hand::Hand::new(3));
    game.insert_player(&a).unwrap();
    game.insert_player(&b).unwrap();
    game.deal_hands();
    assert_eq!(game.players[0].player_hand.cards.len(), 5);
    assert_eq!(game.players[1].player_hand.cards.len(), 3);
    assert_eq!(game.deck.count(), 44);
    game.highest_bet = 30;
    game.players[0].fold();
    game.new_betting_round();
    assert_eq!(game.highest_bet, 0);
    assert!(game.players[0].player_choices.fold);
    assert_eq!(game.get_remaining_player_count(), 1);
    game.add_to_pot(12);
    assert_eq!(game.pot, 12);
}
