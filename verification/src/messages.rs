//! The messages that players' clients and the table exchange.

use vstd::prelude::*;

verus! {

/// A message between a player's client and the table.
#[derive(Debug, PartialEq, Eq)]
pub enum MessageType {
    /// A betting action of a player: "Fold", "Check", "Call" or "Raise", with the
    /// amount of a raise.
    PlayerAction { action: String, player_name: String, bet_amount: u32 },
    /// The positions of the cards a player discards.
    DiscardAction { player_name: String, card_index: Vec<usize> },
    /// Turns demo mode on or off.
    DemoMode { player_name: String, status: String },
    /// A request from the statistics menu.
    StatsMenu { stats_menu_type: String, selected_option: String },
    /// A player's choice at the end of a game, and the dealer's choice of the next
    /// variant.
    EndRound { option: String, dealer_option: String, player_name: String },
    /// The variant of game chosen.
    GameSelection { game_var: String },
    /// A login request.
    UserLogin { username: String, password: String },
    /// A registration request.
    UserRegistration { username: String, password: String },
}

} // verus!
