use poker::betting::{BettingStep, FirstRoundStep};
use poker::card::{Card, Suit, Value};
use poker::game_state::GameState;
use poker::hand::Hand;
use poker::messages::MessageType;
use poker::player::Player;

fn table(names: &[&str]) -> GameState {
    let mut game = GameState::new();
    for name in names {
        game.insert_player(&Player::new(name)).unwrap();
    }
    game
}

#[test]
fn a_betting_round_opens_over_when_one_player_is_left() {
    let mut game = table(&["A", "B"]);
    game.discard_cards_prompted = true;
    assert!(!game.open_betting_round());
    assert!(!game.discard_cards_prompted);
    game.players[1].fold();
    assert!(game.open_betting_round());
}

#[test]
fn later_rounds_open_with_fresh_choices() {
    let mut game = table(&["A", "B"]);
    game.round_number = 1;
    game.highest_bet = 20;
    game.players[0].bet(20);
    game.current_player = game.players[0].clone();
    assert!(!game.open_betting_round());
    assert_eq!(game.highest_bet, 0);
    assert_eq!(game.players[0].player_choices.placed_amount_now(), 0);
    assert_eq!(game.current_player.player_choices.placed_amount_now(), 0);
}

#[test]
fn a_matched_round_moves_on_to_the_next() {
    let mut game = table(&["A", "B"]);
    game.highest_bet = 10;
    game.players[0].bet(10);
    game.players[1].bet(10);
    assert!(game.next_betting_step_ready());
    assert_eq!(game.next_betting_step(), BettingStep::RoundOver);
    assert_eq!(game.round_number, 1);
    assert_eq!(game.highest_bet, 0);
    assert_eq!(game.players[1].player_choices.placed_amount_now(), 0);
}

#[test]
fn the_turn_skips_folded_players_before_asking() {
    let mut game = table(&["A", "B", "C"]);
    game.minimum_bet = 5;
    game.highest_bet = 10;
    game.players[0].fold();
    game.set_current_player(0);
    assert!(game.next_betting_step_ready());
    assert_eq!(game.next_betting_step(), BettingStep::AskCurrent);
    assert_eq!(game.current_player.player_name, "B");
    assert_eq!(game.current_action_string, "B is currently betting");
    assert_eq!(game.raise_min_max, (15, 1000));
}

#[test]
fn replies_are_carried_out_and_the_turn_moves_on() {
    let mut game = table(&["A", "B", "C"]);
    game.highest_bet = 10;
    game.set_current_player(0);
    game.handle_betting_reply(Some(MessageType::PlayerAction {
        action: "Call".to_string(),
        player_name: "A".to_string(),
        bet_amount: 0,
    }));
    assert_eq!(game.pot, 10);
    assert_eq!(game.players[0].player_money, 990);
    assert_eq!(game.current_player.player_name, "B");
    game.handle_betting_reply(None);
    assert!(game.players[1].player_choices.fold);
    assert_eq!(game.current_player.player_name, "C");
    game.handle_betting_reply(Some(MessageType::DemoMode { player_name: "C".to_string(), status: "active".to_string() }));
    assert_eq!(game.demo_mode, "active");
    assert_eq!(game.current_player.player_name, "A");
}

#[test]
fn the_big_blind_may_raise_in_the_first_round() {
    let mut game = table(&["A", "B", "C"]);
    game.minimum_bet = 10;
    game.highest_bet = 10;
    game.set_current_player(2);
    assert!(game.big_blind_may_raise());
    game.offer_big_blind();
    assert_eq!(game.current_action_string, "C's is currently betting");
    assert_eq!(game.raise_min_max, (20, 1000));
    game.highest_bet = 20;
    assert!(!game.big_blind_may_raise());
}

#[test]
fn discard_rounds_ask_each_player_in_turn() {
    let mut game = table(&["A", "B", "C"]);
    game.players[0].fold();
    game.set_current_player(0);
    assert_eq!(game.open_discard_round(), 2);
    assert!(game.discard_cards_prompted);
    assert_eq!(game.current_player.player_name, "B");
    assert_eq!(game.current_action_string, "B is currently discarding");
    game.players[1].player_hand = Hand::from_cards(vec![
        Card::new(Value::Two, Suit::Club).unwrap(),
        Card::new(Value::Three, Suit::Club).unwrap(),
    ]);
    let top = game.deck.cards()[game.deck.cards().len() - 1];
    game.handle_discard_reply(Some(MessageType::DiscardAction { player_name: "B".to_string(), card_index: vec![1] }));
    assert_eq!(game.players[1].player_hand.cards[1], top);
    assert_eq!(game.current_player.player_name, "C");
    assert_eq!(game.current_action_string, "C is currently discarding");
}

#[test]
fn after_a_first_round_reply_the_big_blind_may_be_asked() {
    let mut game = table(&["A", "B", "C"]);
    game.minimum_bet = 10;
    game.highest_bet = 10;
    game.set_current_player(2);
    assert_eq!(game.first_round_step(), FirstRoundStep::OfferBigBlind);
    game.set_current_player(1);
    assert_eq!(game.first_round_step(), FirstRoundStep::CarryOn);
    game.players[0].fold();
    game.players[2].fold();
    assert_eq!(game.first_round_step(), FirstRoundStep::OnePlayerLeft);
}

#[test]
fn a_folded_player_cannot_bet() {
    let mut p = Player::new("A");
    p.fold();
    p.bet(100);
    assert_eq!(p.player_money, 1000);
    assert_eq!(p.total_wagered_per_game, 0);
}
