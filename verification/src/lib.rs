//! Poker table logic: cards, decks, hands, hand scoring, players and the
//! rules that move a table from one state to the next.

pub mod card;
pub mod deck;
pub mod hand;
pub mod counting;
pub mod score_hands;
pub mod order;
pub mod player;
pub mod game_state;
pub mod text;
pub mod discards;
pub mod showdown;
pub mod rounds;
pub mod base_rules;
pub mod messages;
pub mod auth;
pub mod game_type;
pub mod table;
pub mod betting;
pub mod terminal;
