//! Deciding a login from the stored record of a player.

use vstd::prelude::*;
use crate::player::{argon2_accepts, Player, PlayerModel};

verus! {

/// Error text when no player has the name given at login.
pub const PLAYER_NOT_FOUND: &'static str = "Player not found";

/// Error text when the password given at login does not match.
pub const INVALID_PASSWORD: &'static str = "Invalid password";

/// The stored record, as plain values.
pub open spec fn found_model(found: Option<Player>) -> Option<PlayerModel> {
    match found {
        Some(p) => Some(p@),
        None => None,
    }
}

/// The outcome of a login with the record stored under the name given, if any: no
/// record is refused with "Player not found", a record whose password hash does not
/// accept the password with "Invalid password"; otherwise the record is the
/// logged-in player.
pub open spec fn login_outcome(found: Option<PlayerModel>, password: Seq<char>) -> Result<PlayerModel, Seq<char>> {
    match found {
        None => Err(PLAYER_NOT_FOUND@),
        Some(p) => if argon2_accepts(p.hashed_password, password) {
            Ok(p)
        } else {
            Err(INVALID_PASSWORD@)
        },
    }
}

/// A player registered with a password logs in with that password: a record whose
/// hash accepts the password, as the record made by `Player::new_player` from it
/// does, is the logged-in player.
pub proof fn lemma_registered_password_logs_in(p: PlayerModel, password: Seq<char>)
    requires
        argon2_accepts(p.hashed_password, password),
    ensures
        login_outcome(Some(p), password) == Ok::<PlayerModel, Seq<char>>(p),
{
}

/// Decides a login from the record stored under the name given, if any: no record
/// is refused with "Player not found", a record whose password hash does not accept
/// the password with "Invalid password"; otherwise the record is the logged-in
/// player.
pub fn check_login(found: Option<Player>, password: &str) -> (r: Result<Player, String>)
    ensures
        match r {
            Ok(q) => login_outcome(found_model(found), password@) == Ok::<PlayerModel, Seq<char>>(q@),
            Err(e) => login_outcome(found_model(found), password@) == Err::<PlayerModel, Seq<char>>(e@),
        },
{
    match found {
        Some(player) => {
            if player.verify_password(password) {
                Ok(player)
            } else {
                Err(String::from_str(INVALID_PASSWORD))
            }
        },
        None => Err(String::from_str(PLAYER_NOT_FOUND)),
    }
}

} // verus!
