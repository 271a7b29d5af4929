use poker::card::{Card, Suit, Value};
use poker::game_state::GameState;
use poker::hand::Hand;
use poker::messages::MessageType;
use poker::player::Player;
use poker::score_hands::ScoredHand;
use poker::terminal::{
    action_message, discard_message, discard_selection, is_dealer, lobby_message, next_prompt, offered_actions,
    pick_option, print_winners, read_raise, start_confirmed, user_logged_in, BetOption, TurnPrompt,
};

fn table(names: &[&str]) -> GameState {
    let mut game = GameState::new();
    for name in names {
        game.insert_player(&Player::new(name)).unwrap();
    }
    game
}

#[test]
fn only_players_at_the_table_are_logged_in() {
    let mut game = table(&["A", "B"]);
    game.lobby.push(Player::new("L"));
    game.spectators.push(Player::new("S"));
    assert!(user_logged_in(&game, "A"));
    assert!(user_logged_in(&game, "L"));
    assert!(user_logged_in(&game, "S"));
    assert!(!user_logged_in(&game, "Z"));
    assert!(!user_logged_in(&game, ""));
    assert_eq!(next_prompt(&game, "Z"), TurnPrompt::Nothing);
}

#[test]
fn the_dealer_is_found_at_the_seats_or_in_the_lobby() {
    let mut game = table(&["A", "B"]);
    game.dealer = 1;
    assert!(is_dealer(&game, "B"));
    assert!(!is_dealer(&game, "A"));
    let mut lobby_only = GameState::new();
    lobby_only.lobby.push(Player::new("L"));
    assert!(is_dealer(&lobby_only, "L"));
    lobby_only.dealer = 3;
    assert!(!is_dealer(&lobby_only, "L"));
}

#[test]
fn prompts_follow_the_state_of_the_game() {
    let mut game = table(&["A", "B"]);
    assert_eq!(next_prompt(&game, "A"), TurnPrompt::StartGame);
    assert_eq!(next_prompt(&game, "B"), TurnPrompt::Wait);
    game.pot = 30;
    game.current_player = game.players[0].clone();
    assert_eq!(next_prompt(&game, "A"), TurnPrompt::Bet);
    assert_eq!(next_prompt(&game, "B"), TurnPrompt::Stats);
    game.discard_cards_prompted = true;
    assert_eq!(next_prompt(&game, "A"), TurnPrompt::Discard);
    game.winner.push((Player::new("A"), ScoredHand::HighCard([Value::Two; 5])));
    assert_eq!(next_prompt(&game, "A"), TurnPrompt::DealerLobby);
    assert_eq!(next_prompt(&game, "B"), TurnPrompt::Nothing);
    game.game_variant = "5 Card Draw".to_string();
    assert_eq!(next_prompt(&game, "B"), TurnPrompt::PlayerLobby);
}

#[test]
fn the_game_starts_on_y_only() {
    assert!(start_confirmed("y"));
    assert!(start_confirmed("Y"));
    assert!(!start_confirmed("yes"));
    assert!(!start_confirmed(""));
    assert!(!start_confirmed("n"));
}

#[test]
fn lobby_answers_become_end_of_round_messages() {
    assert_eq!(
        lobby_message(" 2 ", true, "A"),
        Some(MessageType::EndRound {
            option: "Join table".to_string(),
            dealer_option: "Seven-Card Stud".to_string(),
            player_name: "A".to_string(),
        })
    );
    assert_eq!(
        lobby_message("3", false, "B"),
        Some(MessageType::EndRound {
            option: "Leave table".to_string(),
            dealer_option: "".to_string(),
            player_name: "B".to_string(),
        })
    );
    assert_eq!(lobby_message("4", false, "B"), None);
    assert_eq!(lobby_message("12", true, "B"), None);
}

#[test]
fn offered_actions_depend_on_the_bets() {
    let mut game = table(&["A", "B"]);
    game.current_player = Player::new("A");
    game.raise_min_max = (10, 1000);
    assert_eq!(
        offered_actions(&game),
        vec![BetOption::DemoMode, BetOption::Fold, BetOption::Check, BetOption::Raise]
    );
    game.demo_mode = "active".to_string();
    game.highest_bet = 20;
    game.current_player.bet(5);
    assert_eq!(offered_actions(&game), vec![BetOption::Fold, BetOption::Call, BetOption::Raise]);
    game.current_player.player_money = 0;
    assert_eq!(offered_actions(&game), vec![BetOption::Fold]);
}

#[test]
fn answers_pick_actions_and_raises() {
    let options = vec![BetOption::Fold, BetOption::Check, BetOption::Raise];
    assert_eq!(pick_option("2", &options), Some(BetOption::Check));
    assert_eq!(pick_option("+3", &options), Some(BetOption::Raise));
    assert_eq!(pick_option("0", &options), None);
    assert_eq!(pick_option("4", &options), None);
    assert_eq!(pick_option("two", &options), None);
    assert_eq!(read_raise("50", 20, 100), Some(50));
    assert_eq!(read_raise("x", 20, 100), Some(20));
    assert_eq!(read_raise("99999999999", 20, 100), Some(20));
    assert_eq!(read_raise("500", 20, 100), None);
    assert_eq!(read_raise("5", 20, 100), None);
}

#[test]
fn chosen_actions_become_messages() {
    assert_eq!(
        action_message(BetOption::Raise, "A", 40),
        MessageType::PlayerAction { action: "Raise".to_string(), player_name: "A".to_string(), bet_amount: 40 }
    );
    assert_eq!(
        action_message(BetOption::DemoMode, "A", 0),
        MessageType::DemoMode { player_name: "A".to_string(), status: "active".to_string() }
    );
}

#[test]
fn discard_answers_name_positions_once_in_order() {
    assert_eq!(discard_selection("3 1 3 x 9", 5), vec![0, 2]);
    assert_eq!(discard_selection("none", 5), Vec::<usize>::new());
    assert_eq!(discard_selection("  5\t+2 0 ", 5), vec![1, 4]);
    assert_eq!(discard_selection("2", 1), Vec::<usize>::new());
}

#[test]
fn discard_messages_use_the_players_hand() {
    let mut game = table(&["A", "B"]);
    game.players[1].player_hand = Hand::from_cards(vec![
        Card::new(Value::Two, Suit::Club).unwrap(),
        Card::new(Value::Three, Suit::Club).unwrap(),
    ]);
    assert_eq!(discard_message(&game, "B", ""), None);
    assert_eq!(
        discard_message(&game, "B", "2 3"),
        Some(MessageType::DiscardAction { player_name: "B".to_string(), card_index: vec![1] })
    );
}

#[test]
fn winners_are_told_to_the_viewer() {
    let mut game = table(&["A", "B"]);
    let hand = ScoredHand::Straight([Value::Five, Value::Four, Value::Three, Value::Two, Value::AceLow]);
    game.winner.push((Player::new("A"), hand));
    assert_eq!(print_winners(&game, "A"), "The sole winner was you with the winning hand: Straight: 5, 4, 3, 2, A\n");
    assert_eq!(print_winners(&game, "B"), "The sole winner was A with the winning hand: Straight: 5, 4, 3, 2, A\n");
    game.winner.push((Player::new("B"), hand));
    game.current_action_string = "Split".to_string();
    assert_eq!(print_winners(&game, "B"), "Split\nThe winners are: A, B, \n");
}
