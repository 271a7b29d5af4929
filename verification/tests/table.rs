use poker::auth::check_login;
use poker::card::{Card, Suit, Value};
use poker::game_state::GameState;
use poker::hand::Hand;
use poker::player::Player;
use poker::score_hands::ScoredHand;

fn table(names: &[&str]) -> GameState {
    let mut game = GameState::new();
    for name in names {
        game.insert_player(&Player::new(name)).unwrap();
    }
    game
}

#[test]
fn joining_seats_a_new_player_from_the_stored_record() {
    let mut game = table(&["A"]);
    let mut stored = Player::new("B");
    stored.player_money = 4321;
    stored.token = "BB".to_string();
    game.join_table("B", "Seven-Card Stud", Some(stored));
    assert_eq!(game.players.len(), 2);
    assert_eq!(game.players[1].player_money, 4321);
    assert_eq!(game.players[1].token, "");
    assert_eq!(game.game_variant, "7 Card Stud");
    game.join_table("C", "", None);
    assert_eq!(game.players[2].player_money, 1000);
    assert_eq!(game.game_variant, "7 Card Stud");
}

#[test]
fn dealer_choice_clears_the_table_for_a_seated_player() {
    let mut game = table(&["A", "B", "C"]);
    game.players[1].token = "D".to_string();
    game.dealer = 2;
    game.insert_player_to_spectators(&Player::new("S")).unwrap();
    game.winner.push((Player::new("A"), ScoredHand::HighCard([Value::Two; 5])));
    game.join_table("B", "Texas Hold 'Em", None);
    assert_eq!(game.players.len(), 1);
    assert_eq!(game.players[0].player_name, "B");
    assert_eq!(game.players[0].token, "");
    assert!(game.spectators.is_empty());
    assert!(game.winner.is_empty());
    assert_eq!(game.dealer, 0);
    assert_eq!(game.game_variant, "Texas Hold'em");
}

#[test]
fn seated_player_without_choice_only_loses_the_token() {
    let mut game = table(&["A", "B"]);
    game.players[0].token = "SB".to_string();
    game.dealer = 1;
    game.join_table("A", "", None);
    assert_eq!(game.players.len(), 2);
    assert_eq!(game.players[0].token, "");
    assert_eq!(game.dealer, 1);
    game.join_table("A", "Five-Card Draw", None);
    assert_eq!(game.game_variant, "5 Card Draw");
}

#[test]
fn spectating_unseats_and_settles_the_dealer() {
    let mut game = table(&["A", "B", "C"]);
    game.dealer = 2;
    game.spectate_table("C");
    assert_eq!(game.players.len(), 2);
    assert_eq!(game.dealer, 1);
    assert_eq!(game.spectators[0].player_name, "C");
    assert_eq!(game.dealer_choice_spectators[0].player_name, "C");
    game.spectate_table("C");
    assert_eq!(game.spectators.len(), 1);
    assert_eq!(game.dealer_choice_spectators.len(), 1);
}

#[test]
fn leaving_removes_the_player_everywhere() {
    let mut game = table(&["A", "B"]);
    game.insert_player_to_lobby(&Player::new("A")).unwrap();
    game.insert_player_to_lobby(&Player::new("B")).unwrap();
    game.insert_player_to_spectators(&Player::new("A")).unwrap();
    game.dealer = 1;
    game.pot = 30;
    game.leave_table("B");
    assert_eq!(game.players.len(), 1);
    assert_eq!(game.lobby.len(), 1);
    assert_eq!(game.dealer, 0);
    assert_eq!(game.pot, 30);
    game.leave_table("A");
    assert!(game.players.is_empty());
    assert!(game.lobby.is_empty());
    assert!(game.spectators.is_empty());
    assert_eq!(game.pot, 0);
    assert_eq!(game.deck.count(), 52);
}

#[test]
fn demo_mode_checks_calls_and_folds() {
    let mut game = table(&["A", "B", "C", "D"]);
    game.highest_bet = 50;
    game.players[0].bet(50);
    game.players[1].bet(20);
    game.players[2].set_money(10);
    game.players[3].fold();
    game.round_number = 2;
    game.demo_mode_bet();
    assert_eq!(game.players[0].player_money, 950);
    assert_eq!(game.players[0].last_move, "Check");
    assert_eq!(game.players[1].player_money, 950);
    assert_eq!(game.players[1].last_move, "Call");
    assert!(game.players[2].player_choices.fold);
    assert_eq!(game.players[2].last_move, "Fold");
    assert_eq!(game.pot, 30);
    assert_eq!(game.round_number, 3);
    assert_eq!(game.highest_bet, 0);
    assert!(game.players[0].player_choices.placed_in_pot == Some(0));
}

#[test]
fn announcements_of_single_and_split_wins() {
    let mut game = table(&["A", "B"]);
    let score = ScoredHand::OnePair([Value::Ace, Value::Ace, Value::Nine, Value::Three, Value::Two]);
    game.winner.push((game.players[0].clone(), score));
    game.pot = 120;
    assert_eq!(game.winner_announcement(false), "A wins $120 with hand One Pair: A, A, 9, 3, 2");
    assert_eq!(game.winner_announcement(true), "A wins $120 with hand One Pair: A, A, 9, 3, 2");
    game.players[1].fold();
    assert_eq!(game.winner_announcement(true), "A wins $120 due to all players folding");
    assert_eq!(game.winner_announcement(false), "A wins $120 with hand One Pair: A, A, 9, 3, 2");
    game.winner.push((game.players[1].clone(), score));
    game.pot = 121;
    assert_eq!(
        game.winner_announcement(true),
        "Split Pot 2 ways. Each win $60 Highest hand One Pair: A, A, 9, 3, 2"
    );
}

#[test]
fn login_decisions() {
    assert_eq!(check_login(None, "pw").unwrap_err(), "Player not found");
    let player = Player::new_player("Ann".to_string(), "pw".to_string(), 1).unwrap();
    assert_eq!(check_login(Some(player.clone()), "bad").unwrap_err(), "Invalid password");
    assert_eq!(check_login(Some(player), "pw").unwrap().player_name, "Ann");
}

#[test]
fn table_text_of_cards() {
    let mut c = Card::new(Value::AceLow, Suit::Spade).unwrap();
    assert_eq!(c.to_table_string(false), "##");
    assert_eq!(c.to_table_string(true), "AS");
    c.face_up = true;
    assert_eq!(c.to_table_string(false), "AS");
    let empty = Card { value: Value::Empty, suit: Suit::Heart, face_up: true };
    assert_eq!(empty.to_table_string(true), "");
    let ten = Card { value: Value::Ten, suit: Suit::Diamond, face_up: true };
    assert_eq!(ten.to_table_string(false), "TD");
    let _ = Hand::new(1);
}

#[test]
fn a_registered_player_logs_in_with_the_same_password() {
    let player = Player::new_player("Reg".to_string(), "secret".to_string(), 7).unwrap();
    let logged = check_login(Some(player), "secret").unwrap();
    assert_eq!(logged.player_name, "Reg");
    assert_eq!(logged.player_id, 7);
}

#[test]
fn paying_winners_never_pays_more_than_the_pot() {
    let mut game = table(&["A", "B", "C"]);
    let hand = ScoredHand::HighCard([Value::Two; 5]);
    game.winner.push((Player::new("A"), hand));
    game.winner.push((Player::new("C"), hand));
    game.winner.push((Player::new("Z"), hand));
    game.pot = 100;
    let before: u32 = game.players.iter().map(|p| p.player_money).sum();
    game.pay_winners();
    let after: u32 = game.players.iter().map(|p| p.player_money).sum();
    assert_eq!(after - before, 66);
    assert!(after <= before + 100);
}
