use poker::card::{Card, Suit, Value};
use poker::deck::Deck;
use poker::hand::Hand;
use poker::player::{Player, PlayerChoice, PlayerChoices};

#[test]
fn test_player_creation() {
    let player = Player::new("TestPlayer");
    assert_eq!(player.player_name, "TestPlayer");
    assert_eq!(player.player_money, 1000);
    assert!(player.player_choices.contains_key("PlacedInPot"));
}

#[test]
fn test_player_setters_getters() {
    let mut player = Player::new("TestPlayer");
    player.set_name("NewName".to_string());
    player.set_money(500);
    player.set_games(10);
    player.set_wins(5);
    player.set_losses(5);
    player.set_earnings(1000);

    assert_eq!(player.get_name(), "NewName");
    assert_eq!(*player.get_money(), 500);
    assert_eq!(player.get_games(), 10);
    assert_eq!(player.get_wins(), 5);
    assert_eq!(player.get_losses(), 5);
    assert_eq!(player.get_earnings(), 1000);
}

#[test]
fn test_money_operations() {
    let mut player = Player::new("TestPlayer");
    player.add_money(500);
    assert_eq!(*player.get_money(), 1500);

    player.remove_money(300);
    assert_eq!(*player.get_money(), 1200);
}

#[test]
fn player_choice_names_and_parsing() {
    assert_eq!(PlayerChoice::Call(40).to_string(), "Call");
    assert_eq!(PlayerChoice::PlacedInPot(0).to_string(), "PlacedInPot");
    assert_eq!(PlayerChoice::AllIn.to_string(), "AllIn");
    assert_eq!("Check".parse::<PlayerChoice>(), Ok(PlayerChoice::Check));
    assert_eq!("Fold".parse::<PlayerChoice>(), Ok(PlayerChoice::Fold));
    assert_eq!("Call".parse::<PlayerChoice>(), Ok(PlayerChoice::Call(0)));
    assert_eq!("Raise".parse::<PlayerChoice>(), Ok(PlayerChoice::Raise(0)));
    assert_eq!("PlacedInPot".parse::<PlayerChoice>(), Ok(PlayerChoice::PlacedInPot(0)));
    assert_eq!("AllIn".parse::<PlayerChoice>(), Ok(PlayerChoice::AllIn));
    assert_eq!("  allin \n".parse::<PlayerChoice>(), Ok(PlayerChoice::AllIn));
    assert_eq!("CHEC\u{212A}".parse::<PlayerChoice>(), Ok(PlayerChoice::Check));
    assert_eq!("Bet".parse::<PlayerChoice>(), Err("invalid action"));
    assert_eq!("xyz".parse::<PlayerChoice>(), Err("invalid action"));
    assert_eq!("".parse::<PlayerChoice>(), Err("invalid action"));
}

#[test]
fn choice_getters_report_missing_entries() {
    let player = Player::new("Ann");
    assert_eq!(player.get_placedinpot(), Ok(PlayerChoice::PlacedInPot(0)));
    assert_eq!(player.get_call(), Err("No Call action found for player: Ann".to_string()));
    assert_eq!(player.get_all_in(), Err("No All In action found for player: Ann".to_string()));
    assert_eq!(
        player.get_placedinpot().map(|c| c.name()),
        Ok("PlacedInPot")
    );
    let empty = Player::empty();
    assert_eq!(
        empty.get_placedinpot(),
        Err("No Placed In Pot action found for player: ".to_string())
    );
}

#[test]
fn call_keeps_only_the_pot_entry_and_pays() {
    let mut player = Player::new("Bo");
    player.bet(10);
    player.check();
    assert_eq!(player.get_check(), Ok(PlayerChoice::Check));
    player.call(30);
    assert_eq!(player.get_check().is_err(), true);
    assert_eq!(player.get_call(), Ok(PlayerChoice::Call(30)));
    assert_eq!(player.get_placedinpot(), Ok(PlayerChoice::PlacedInPot(40)));
    assert_eq!(player.player_money, 960);
    assert_eq!(player.total_wagered_per_game, 40);
}

#[test]
fn fold_keeps_only_the_pot_entry_and_blocks_later_actions() {
    let mut player = Player::new("Cy");
    player.call(20);
    player.fold();
    assert!(player.get_call().is_err());
    assert_eq!(player.get_fold(), Ok(PlayerChoice::Fold));
    assert_eq!(player.get_placedinpot(), Ok(PlayerChoice::PlacedInPot(20)));
    player.check();
    player.call(50);
    player.bet(30);
    assert!(player.get_check().is_err());
    assert!(player.get_call().is_err());
    assert_eq!(player.player_money, 980);
    assert_eq!(player.get_placedinpot(), Ok(PlayerChoice::PlacedInPot(20)));
    assert_eq!(player.player_choices.len(), 2);
}

#[test]
fn new_round_keeps_only_fold() {
    let mut player = Player::new("Di");
    player.call(20);
    player.new_round_choices();
    assert_eq!(player.get_placedinpot(), Ok(PlayerChoice::PlacedInPot(0)));
    assert_eq!(player.player_choices.len(), 1);
    player.fold();
    player.new_round_choices();
    assert_eq!(player.get_fold(), Ok(PlayerChoice::Fold));
    assert_eq!(player.player_choices.len(), 2);
    player.reset_choices();
    assert!(player.player_choices.is_empty());
    assert_eq!(player.player_choices, PlayerChoices::new());
}

#[test]
fn add_to_placed_in_pot_creates_the_entry() {
    let mut player = Player::empty();
    player.add_to_placed_in_pot(25);
    assert_eq!(player.get_placedinpot(), Ok(PlayerChoice::PlacedInPot(25)));
    assert_eq!(player.total_wagered_per_game, 25);
    assert_eq!(player.player_money, 0);
}

#[test]
fn infinite_money_refills_below_ten() {
    let mut player = Player::new("Ed");
    player.set_money(9);
    player.infinite_money();
    assert_eq!(player.player_money, 1000);
    player.set_money(10);
    player.infinite_money();
    assert_eq!(player.player_money, 10);
}

#[test]
fn draw_card_respects_the_hand_limit() {
    let mut player = Player::new("Fay");
    let mut deck = Deck::new();
    assert_eq!(player.draw_card(&mut deck), Err("Hand limit exceeded"));
    player.set_hand(Hand::new(2));
    assert_eq!(player.draw_card(&mut deck), Ok(()));
    assert_eq!(player.player_hand.cards.len(), 1);
    assert_eq!(player.player_hand.cards[0].face_up, false);
    assert_eq!(deck.count(), 51);
    player.reset_hand();
    assert_eq!(player.player_hand.cards.len(), 0);
    assert_eq!(player.player_hand.get_hand_limit(), 2);
}

#[test]
fn passwords_hash_and_verify() {
    let player = Player::new_player("Gus".to_string(), "secret".to_string(), 7).unwrap();
    assert_eq!(player.player_id, 7);
    assert_eq!(player.player_money, 1000);
    assert!(player.player_choices.is_empty());
    assert!(player.verify_password("secret"));
    assert!(!player.verify_password("Secret"));
    assert!(!Player::empty().verify_password("secret"));
    let hashed = Player::hash_password("pw").unwrap();
    assert_ne!(hashed, "pw");
}

#[test]
fn clone_keeps_the_hand() {
    let mut player = Player::new("Hal");
    player.set_hand(Hand::from_cards(vec![Card::new(Value::Ace, Suit::Spade).unwrap()]));
    let copy = player.clone();
    assert_eq!(copy.player_hand.cards.len(), 1);
    assert_eq!(copy.player_name, "Hal");
}
