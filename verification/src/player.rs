//! Players: their money, statistics, hand, and the actions they have taken in the
//! current betting round.

use vstd::prelude::*;
use crate::deck::Deck;
use crate::hand::Hand;
use crate::card::Card;
use crate::text::{chars_of, trim_chars, trimmed};

verus! {

/// An action a player takes in a betting round, with its amount where it has one.
#[derive(Debug, Clone, Copy, PartialEq, Eq, Structural)]
pub enum PlayerChoice {
    Check,
    Fold,
    Call(u32),
    Raise(u32),
    Bet(u32),
    PlacedInPot(u32),
    AllIn,
}

/// Error text for an action name that is not accepted.
pub const INVALID_ACTION: &'static str = "invalid action";

impl PlayerChoice {
    /// The name of an action, without its amount.
    pub open spec fn name_spec(self) -> &'static str {
        match self {
            PlayerChoice::Check => "Check",
            PlayerChoice::Fold => "Fold",
            PlayerChoice::Call(_) => "Call",
            PlayerChoice::Raise(_) => "Raise",
            PlayerChoice::Bet(_) => "Bet",
            PlayerChoice::PlacedInPot(_) => "PlacedInPot",
            PlayerChoice::AllIn => "AllIn",
        }
    }

    /// The name of the action, without its amount.
    pub fn name(&self) -> (r: &'static str)
        ensures
            r == self.name_spec(),
    {
        match self {
            PlayerChoice::Check => "Check",
            PlayerChoice::Fold => "Fold",
            PlayerChoice::Call(_) => "Call",
            PlayerChoice::Raise(_) => "Raise",
            PlayerChoice::Bet(_) => "Bet",
            PlayerChoice::PlacedInPot(_) => "PlacedInPot",
            PlayerChoice::AllIn => "AllIn",
        }
    }

    /// The name of the action as an owned string.
    pub fn to_string(&self) -> (r: String)
        ensures
            r@ == self.name_spec()@,
    {
        String::from_str(self.name())
    }

    /// Reads an action from its name: the text, trimmed of white space, names
    /// "Check", "Fold", "Call", "Raise", "PlacedInPot" or "AllIn" in any case, and
    /// reads as that action (with amount 0 where it has one); any other text is
    /// refused with "invalid action".
    pub fn parse(s: &str) -> (r: Result<PlayerChoice, &'static str>)
        ensures
            match choice_named(s@) {
                Some(c) => r == Ok::<PlayerChoice, &'static str>(c),
                None => r == Err::<PlayerChoice, &'static str>(INVALID_ACTION),
            },
    {
        let all = chars_of(s);
        let t = trim_chars(&all);
        if word_is(&t, "check") {
            Ok(PlayerChoice::Check)
        } else if word_is(&t, "fold") {
            Ok(PlayerChoice::Fold)
        } else if word_is(&t, "call") {
            Ok(PlayerChoice::Call(0))
        } else if word_is(&t, "raise") {
            Ok(PlayerChoice::Raise(0))
        } else if word_is(&t, "placedinpot") {
            Ok(PlayerChoice::PlacedInPot(0))
        } else if word_is(&t, "allin") {
            Ok(PlayerChoice::AllIn)
        } else {
            Err(INVALID_ACTION)
        }
    }
}

/// Whether a character lower-cases to the single lower-case letter `a`: it is `a`
/// itself, its capital, or (for 'k') the Kelvin sign.
pub open spec fn lowers_to(c: char, a: char) -> bool {
    ||| c == a
    ||| ('a' as u32 <= a as u32 <= 'z' as u32 && c as u32 == a as u32 - 32)
    ||| (a == 'k' && c == '\u{212A}')
}

/// Whether a text lower-cases to the lower-case word `w`, character by character.
pub open spec fn lowers_to_word(t: Seq<char>, w: Seq<char>) -> bool {
    &&& t.len() == w.len()
    &&& forall|i: int| 0 <= i < t.len() ==> #[trigger] lowers_to(t[i], w[i])
}

/// The action a text names: trimmed of white space and lower-cased, it is "check",
/// "fold", "call", "raise", "placedinpot" or "allin".
pub open spec fn choice_named(s: Seq<char>) -> Option<PlayerChoice> {
    let t = trimmed(s);
    if lowers_to_word(t, "check"@) {
        Some(PlayerChoice::Check)
    } else if lowers_to_word(t, "fold"@) {
        Some(PlayerChoice::Fold)
    } else if lowers_to_word(t, "call"@) {
        Some(PlayerChoice::Call(0))
    } else if lowers_to_word(t, "raise"@) {
        Some(PlayerChoice::Raise(0))
    } else if lowers_to_word(t, "placedinpot"@) {
        Some(PlayerChoice::PlacedInPot(0))
    } else if lowers_to_word(t, "allin"@) {
        Some(PlayerChoice::AllIn)
    } else {
        None
    }
}

/// Whether the characters lower-case to the lower-case word `w`.
fn word_is(t: &Vec<char>, w: &str) -> (r: bool)
    ensures
        r == lowers_to_word(t@, w@),
{
    let n = w.unicode_len();
    if t.len() != n {
        return false;
    }
    let mut i: usize = 0;
    while i < n
        invariant
            0 <= i <= n,
            n == w@.len(),
            n == t@.len(),
            forall|j: int| 0 <= j < i ==> #[trigger] lowers_to(t@[j], w@[j]),
        decreases n - i,
    {
        let a = w.get_char(i);
        let c = t[i];
        let au = a as u32;
        let cu = c as u32;
        let ok = c == a || ('a' as u32 <= au && au <= 'z' as u32 && cu == au - 32) || (a == 'k' && c == '\u{212A}');
        if !ok {
            assert(!lowers_to(t@[i as int], w@[i as int]));
            return false;
        }
        i = i + 1;
    }
    true
}

impl std::str::FromStr for PlayerChoice {
    type Err = &'static str;

    fn from_str(s: &str) -> (r: Result<Self, Self::Err>)
        ensures
            match choice_named(s@) {
                Some(c) => r == Ok::<PlayerChoice, &'static str>(c),
                None => r == Err::<PlayerChoice, &'static str>(INVALID_ACTION),
            },
    {
        PlayerChoice::parse(s)
    }
}

/// Whether two texts hold the same characters.
pub fn str_equal(a: &str, b: &str) -> (r: bool)
    ensures
        r == (a@ == b@),
{
    let n = a.unicode_len();
    if n != b.unicode_len() {
        return false;
    }
    let mut i: usize = 0;
    while i < n
        invariant
            0 <= i <= n,
            n == a@.len(),
            n == b@.len(),
            forall|j: int| 0 <= j < i ==> #[trigger] a@[j] == b@[j],
        decreases n - i,
    {
        if a.get_char(i) != b.get_char(i) {
            return false;
        }
        i = i + 1;
    }
    assert(a@ =~= b@);
    true
}

/// The actions a player has taken in the current round, one entry per action name:
/// "Check", "Fold", "Call", "Raise", "Bet", "PlacedInPot" and "AllIn".
#[derive(Debug, Clone, Copy, PartialEq, Eq, Structural)]
pub struct PlayerChoices {
    /// An entry under "Check".
    pub check: bool,
    /// An entry under "Fold".
    pub fold: bool,
    /// The amount of an entry under "Call".
    pub call: Option<u32>,
    /// The amount of an entry under "Raise".
    pub raise: Option<u32>,
    /// The amount of an entry under "Bet".
    pub bet: Option<u32>,
    /// The amount of an entry under "PlacedInPot".
    pub placed_in_pot: Option<u32>,
    /// An entry under "AllIn".
    pub all_in: bool,
}

/// The choices with no entry at all.
pub open spec fn no_choices() -> PlayerChoices {
    PlayerChoices {
        check: false,
        fold: false,
        call: None,
        raise: None,
        bet: None,
        placed_in_pot: None,
        all_in: false,
    }
}

/// The entry a set of choices holds under the given name, if any.
pub open spec fn choice_under(m: PlayerChoices, key: Seq<char>) -> Option<PlayerChoice> {
    if key == "Check"@ {
        if m.check { Some(PlayerChoice::Check) } else { None }
    } else if key == "Fold"@ {
        if m.fold { Some(PlayerChoice::Fold) } else { None }
    } else if key == "Call"@ {
        match m.call { Some(a) => Some(PlayerChoice::Call(a)), None => None }
    } else if key == "Raise"@ {
        match m.raise { Some(a) => Some(PlayerChoice::Raise(a)), None => None }
    } else if key == "Bet"@ {
        match m.bet { Some(a) => Some(PlayerChoice::Bet(a)), None => None }
    } else if key == "PlacedInPot"@ {
        match m.placed_in_pot { Some(a) => Some(PlayerChoice::PlacedInPot(a)), None => None }
    } else if key == "AllIn"@ {
        if m.all_in { Some(PlayerChoice::AllIn) } else { None }
    } else {
        None
    }
}

impl PlayerChoices {
    /// The amount placed in the pot this round, 0 when there is no such entry.
    pub open spec fn placed_amount(self) -> u32 {
        match self.placed_in_pot {
            Some(a) => a,
            None => 0,
        }
    }

    /// The number of entries.
    pub open spec fn len_spec(self) -> nat {
        (if self.check { 1nat } else { 0nat }) + (if self.fold { 1nat } else { 0nat })
            + (if self.call is Some { 1nat } else { 0nat }) + (if self.raise is Some { 1nat } else { 0nat })
            + (if self.bet is Some { 1nat } else { 0nat }) + (if self.placed_in_pot is Some { 1nat } else { 0nat })
            + (if self.all_in { 1nat } else { 0nat })
    }

    /// Choices with no entry.
    pub fn new() -> (r: PlayerChoices)
        ensures
            r == no_choices(),
    {
        PlayerChoices {
            check: false,
            fold: false,
            call: None,
            raise: None,
            bet: None,
            placed_in_pot: None,
            all_in: false,
        }
    }

    /// The entry under the given name, if any.
    pub fn get(&self, key: &str) -> (r: Option<PlayerChoice>)
        ensures
            r == choice_under(*self, key@),
    {
        proof {
            reveal_strlit("Check");
            reveal_strlit("Fold");
            reveal_strlit("Call");
            reveal_strlit("Raise");
            reveal_strlit("Bet");
            reveal_strlit("PlacedInPot");
            reveal_strlit("AllIn");
        }
        if str_equal(key, "Check") {
            if self.check { Some(PlayerChoice::Check) } else { None }
        } else if str_equal(key, "Fold") {
            if self.fold { Some(PlayerChoice::Fold) } else { None }
        } else if str_equal(key, "Call") {
            match self.call { Some(a) => Some(PlayerChoice::Call(a)), None => None }
        } else if str_equal(key, "Raise") {
            match self.raise { Some(a) => Some(PlayerChoice::Raise(a)), None => None }
        } else if str_equal(key, "Bet") {
            match self.bet { Some(a) => Some(PlayerChoice::Bet(a)), None => None }
        } else if str_equal(key, "PlacedInPot") {
            match self.placed_in_pot { Some(a) => Some(PlayerChoice::PlacedInPot(a)), None => None }
        } else if str_equal(key, "AllIn") {
            if self.all_in { Some(PlayerChoice::AllIn) } else { None }
        } else {
            None
        }
    }

    /// Whether there is an entry under the given name.
    pub fn contains_key(&self, key: &str) -> (r: bool)
        ensures
            r == choice_under(*self, key@) is Some,
    {
        self.get(key).is_some()
    }

    /// The number of entries.
    pub fn len(&self) -> (r: usize)
        ensures
            r == self.len_spec(),
    {
        let mut n: usize = 0;
        if self.check { n = n + 1; }
        if self.fold { n = n + 1; }
        if self.call.is_some() { n = n + 1; }
        if self.raise.is_some() { n = n + 1; }
        if self.bet.is_some() { n = n + 1; }
        if self.placed_in_pot.is_some() { n = n + 1; }
        if self.all_in { n = n + 1; }
        n
    }

    /// Whether there are no entries.
    pub fn is_empty(&self) -> (r: bool)
        ensures
            r == (self.len_spec() == 0),
    {
        self.len() == 0
    }

    /// Removes every entry.
    pub fn clear(&mut self)
        ensures
            *final(self) == no_choices(),
    {
        *self = PlayerChoices::new();
    }

    /// The amount placed in the pot this round (0 when there is no such entry).
    pub fn placed_amount_now(&self) -> (r: u32)
        ensures
            r == self.placed_amount(),
    {
        match self.placed_in_pot {
            Some(a) => a,
            None => 0,
        }
    }
}

/// A player: identity, money, statistics, hand and this round's actions.
#[derive(Debug)]
pub struct Player {
    pub player_id: u32,
    pub player_name: String,
    pub hashed_password: String,
    pub player_money: u32,
    pub round_win: u32,
    pub last_move: String,
    pub total_games: u32,
    pub total_wins: u32,
    pub total_losses: u32,
    pub total_earnings: u32,
    pub total_wagered_per_game: u32,
    pub player_hand: Hand,
    pub token: String,
    pub player_choices: PlayerChoices,
}

/// Everything a player holds, as plain values.
pub struct PlayerModel {
    pub player_id: u32,
    pub player_name: Seq<char>,
    pub hashed_password: Seq<char>,
    pub player_money: u32,
    pub round_win: u32,
    pub last_move: Seq<char>,
    pub total_games: u32,
    pub total_wins: u32,
    pub total_losses: u32,
    pub total_earnings: u32,
    pub total_wagered_per_game: u32,
    pub hand: Seq<Card>,
    pub hand_limit: u8,
    pub token: Seq<char>,
    pub choices: PlayerChoices,
}

impl PlayerModel {
    /// The amount placed in the pot this round (0 when there is no such entry).
    pub open spec fn placed(self) -> u32 {
        self.choices.placed_amount()
    }

    /// Whether a bet of `amount` can be made: a player who has folded bets nothing;
    /// for another, no count overflows and the balance covers it.
    pub open spec fn can_bet(self, amount: u32) -> bool {
        ||| self.choices.fold
        ||| {
            &&& self.placed() + amount <= u32::MAX
            &&& self.total_wagered_per_game + amount <= u32::MAX
            &&& self.player_money >= amount
        }
    }

    /// The player after betting `amount`: a player who has folded is unchanged; for
    /// another, the pot entry grows by it (created when missing), the balance
    /// shrinks by it and the game's wager grows by it.
    pub open spec fn after_bet(self, amount: u32) -> PlayerModel {
        if self.choices.fold {
            self
        } else {
            PlayerModel {
                choices: PlayerChoices { placed_in_pot: Some((self.placed() + amount) as u32), ..self.choices },
                total_wagered_per_game: (self.total_wagered_per_game + amount) as u32,
                player_money: (self.player_money - amount) as u32,
                ..self
            }
        }
    }

    /// The player after calling `amount`: a player who has folded is unchanged;
    /// another keeps only the pot entry, records the call, adds it to the pot entry
    /// and the game's wager and pays it.
    pub open spec fn after_call(self, amount: u32) -> PlayerModel {
        if self.choices.fold {
            self
        } else {
            PlayerModel {
                choices: PlayerChoices {
                    placed_in_pot: Some((self.placed() + amount) as u32),
                    call: Some(amount),
                    ..no_choices()
                },
                total_wagered_per_game: (self.total_wagered_per_game + amount) as u32,
                player_money: (self.player_money - amount) as u32,
                ..self
            }
        }
    }

    /// The player after checking: a player who has folded is unchanged; another
    /// keeps only the pot entry and gains a "Check" entry.
    pub open spec fn after_check(self) -> PlayerModel {
        if self.choices.fold {
            self
        } else {
            PlayerModel {
                choices: PlayerChoices {
                    placed_in_pot: self.choices.placed_in_pot,
                    check: true,
                    ..no_choices()
                },
                ..self
            }
        }
    }

    /// The player after folding: only the amount placed in the pot is kept, with
    /// its value, and a "Fold" entry is added.
    pub open spec fn after_fold(self) -> PlayerModel {
        PlayerModel {
            choices: PlayerChoices { fold: true, placed_in_pot: self.choices.placed_in_pot, ..no_choices() },
            ..self
        }
    }

    /// The player at the start of a new betting round: only a "Fold" entry is kept,
    /// and the amount placed in the pot is 0.
    pub open spec fn after_new_round(self) -> PlayerModel {
        PlayerModel {
            choices: PlayerChoices { fold: self.choices.fold, placed_in_pot: Some(0), ..no_choices() },
            ..self
        }
    }
}

/// A player who has folded stays out of the round: checking, calling and betting
/// change nothing, folding again changes nothing more than the first fold did, and
/// a new round keeps the fold.
pub proof fn lemma_folded_player_stays_out(p: PlayerModel, amount: u32)
    requires
        p.choices.fold,
    ensures
        p.after_check() == p,
        p.after_call(amount) == p,
        p.after_bet(amount) == p,
        p.after_fold().after_fold() == p.after_fold(),
        p.after_fold().choices.fold,
        p.after_new_round().choices.fold,
{
}

/// A bet of a player who has not folded moves exactly its amount from the balance
/// into the player's pot entry and the game's wager.
pub proof fn lemma_bet_moves_money(p: PlayerModel, amount: u32)
    requires
        !p.choices.fold,
        p.can_bet(amount),
    ensures
        p.after_bet(amount).player_money + amount == p.player_money,
        p.after_bet(amount).placed() == p.placed() + amount,
        p.after_bet(amount).total_wagered_per_game == p.total_wagered_per_game + amount,
{
}

impl View for Player {
    type V = PlayerModel;

    open spec fn view(&self) -> PlayerModel {
        PlayerModel {
            player_id: self.player_id,
            player_name: self.player_name@,
            hashed_password: self.hashed_password@,
            player_money: self.player_money,
            round_win: self.round_win,
            last_move: self.last_move@,
            total_games: self.total_games,
            total_wins: self.total_wins,
            total_losses: self.total_losses,
            total_earnings: self.total_earnings,
            total_wagered_per_game: self.total_wagered_per_game,
            hand: self.player_hand.cards@,
            hand_limit: self.player_hand.hand_limit,
            token: self.token@,
            choices: self.player_choices,
        }
    }
}

impl Clone for Player {
    fn clone(&self) -> (r: Self)
        ensures
            r@ == self@,
    {
        Player {
            player_id: self.player_id,
            player_name: self.player_name.clone(),
            hashed_password: self.hashed_password.clone(),
            player_money: self.player_money,
            round_win: self.round_win,
            last_move: self.last_move.clone(),
            total_games: self.total_games,
            total_wins: self.total_wins,
            total_losses: self.total_losses,
            total_earnings: self.total_earnings,
            total_wagered_per_game: self.total_wagered_per_game,
            player_hand: self.player_hand.clone(),
            token: self.token.clone(),
            player_choices: self.player_choices,
        }
    }
}

/// Whether the password matches the stored hash, as argon2 decides it.
pub uninterp spec fn argon2_accepts(hash: Seq<char>, password: Seq<char>) -> bool;

/// Hashes a password with argon2 and a fresh random salt.
///
/// Calls `argon2::password_hash::SaltString::generate` with `OsRng`, then
/// `argon2::PasswordHasher::hash_password` of `Argon2::default()`, and renders the
/// hash in its PHC string form; an error is rendered as its text. The contract
/// claims two things. A hash it gives back is one that `argon2_verify` accepts for
/// the same password: `verify_password` recomputes the hash with the salt and
/// parameters the PHC string carries and compares. And hashing succeeds whenever the
/// password's UTF-8 form fits the `0xFFFF_FFFF` bytes that argon2's input check
/// allows, which a password of at most `0x3FFF_FFFF` characters (four bytes each at
/// most) always does: with a generated 16-byte salt and the default parameters, no
/// other check of `hash_password` can fail. The hash itself is left unsaid: it rests
/// on the random salt.
#[verifier::external_body]
fn argon2_hash(password: &str) -> (r: Result<String, String>)
    ensures
        r matches Ok(h) ==> argon2_accepts(h@, password@),
        password@.len() <= 0x3FFF_FFFF ==> r is Ok,
{
    let salt = argon2::password_hash::SaltString::generate(&mut argon2::password_hash::rand_core::OsRng);
    match argon2::PasswordHasher::hash_password(&argon2::Argon2::default(), password.as_bytes(), &salt) {
        Ok(hash) => Ok(hash.to_string()),
        Err(e) => Err(e.to_string()),
    }
}

/// Checks a password against a stored argon2 hash.
///
/// Calls `argon2::PasswordHash::new` on the stored text and, when it parses,
/// `argon2::PasswordVerifier::verify_password` of `Argon2::default()`; a text that
/// does not parse is refused. The result depends on the two texts alone and is named
/// `argon2_accepts`.
#[verifier::external_body]
fn argon2_verify(hash: &str, password: &str) -> (r: bool)
    ensures
        r == argon2_accepts(hash@, password@),
{
    match argon2::PasswordHash::new(hash) {
        Ok(parsed) => argon2::PasswordVerifier::verify_password(
            &argon2::Argon2::default(),
            password.as_bytes(),
            &parsed,
        ).is_ok(),
        Err(_) => false,
    }
}

/// The text of the error for a missing action entry: the given lead, then the
/// player's name.
pub open spec fn missing_text(lead: &'static str, name: Seq<char>) -> Seq<char> {
    lead@ + name
}

impl Player {
    /// A fresh player record: the given name, 1000 money, all counts 0, an empty
    /// hand of limit 0, empty texts, and a single choice entry, 0 placed in the pot.
    pub open spec fn fresh(name: Seq<char>) -> PlayerModel {
        PlayerModel {
            player_id: 0,
            player_name: name,
            hashed_password: Seq::empty(),
            player_money: 1000,
            round_win: 0,
            last_move: Seq::empty(),
            total_games: 0,
            total_wins: 0,
            total_losses: 0,
            total_earnings: 0,
            total_wagered_per_game: 0,
            hand: Seq::empty(),
            hand_limit: 0,
            token: Seq::empty(),
            choices: PlayerChoices { placed_in_pot: Some(0), ..no_choices() },
        }
    }

    /// A new player of the given name with 1000 money and 0 placed in the pot.
    pub fn new(player_name: &str) -> (r: Player)
        ensures
            r@ == Player::fresh(player_name@),
    {
        let mut choices = PlayerChoices::new();
        choices.placed_in_pot = Some(0);
        Player {
            player_id: 0,
            player_name: String::from_str(player_name),
            hashed_password: String::new(),
            player_money: 1000,
            round_win: 0,
            last_move: String::new(),
            total_games: 0,
            total_wins: 0,
            total_losses: 0,
            total_earnings: 0,
            total_wagered_per_game: 0,
            player_hand: Hand::new(0),
            token: String::new(),
            player_choices: choices,
        }
    }

    /// A player with every field empty or zero.
    pub fn empty() -> (r: Player)
        ensures
            r@ == (PlayerModel {
                player_money: 0,
                player_name: Seq::empty(),
                choices: no_choices(),
                ..Player::fresh(Seq::empty())
            }),
    {
        Player {
            player_id: 0,
            player_name: String::new(),
            hashed_password: String::new(),
            player_money: 0,
            round_win: 0,
            last_move: String::new(),
            total_games: 0,
            total_wins: 0,
            total_losses: 0,
            total_earnings: 0,
            total_wagered_per_game: 0,
            player_hand: Hand::new(0),
            token: String::new(),
            player_choices: PlayerChoices::new(),
        }
    }

    /// A new registered player: the name and id given, the password hashed with
    /// argon2, 1000 money and no choices; the hashing error when hashing fails, which
    /// it does not for a password of at most `0x3FFF_FFFF` characters.
    pub fn new_player(player_name: String, player_password: String, player_id: u32) -> (r: Result<Player, String>)
        ensures
            player_password@.len() <= 0x3FFF_FFFF ==> r is Ok,
            r matches Ok(p) ==> p@ == (PlayerModel {
                player_id,
                hashed_password: p.hashed_password@,
                choices: no_choices(),
                ..Player::fresh(player_name@)
            }) && argon2_accepts(p.hashed_password@, player_password@),
    {
        let hashed_password = match Player::hash_password(player_password.as_str()) {
            Ok(h) => h,
            Err(e) => {
                return Err(e);
            },
        };
        Ok(Player {
            player_id,
            player_name,
            hashed_password,
            player_money: 1000,
            round_win: 0,
            last_move: String::new(),
            total_games: 0,
            total_wins: 0,
            total_losses: 0,
            total_earnings: 0,
            total_wagered_per_game: 0,
            player_hand: Hand::new(0),
            token: String::new(),
            player_choices: PlayerChoices::new(),
        })
    }

    /// The argon2 hash of a password with a fresh random salt, or the hashing error,
    /// which does not come for a password of at most `0x3FFF_FFFF` characters.
    pub fn hash_password(password: &str) -> (r: Result<String, String>)
        ensures
            r matches Ok(h) ==> argon2_accepts(h@, password@),
            password@.len() <= 0x3FFF_FFFF ==> r is Ok,
    {
        argon2_hash(password)
    }

    /// Whether the password matches the player's stored hash.
    pub fn verify_password(&self, password: &str) -> (r: bool)
        ensures
            r == argon2_accepts(self.hashed_password@, password@),
    {
        argon2_verify(self.hashed_password.as_str(), password)
    }

    pub fn set_name(&mut self, new_name: String)
        ensures
            final(self)@ == (PlayerModel { player_name: new_name@, ..old(self)@ }),
    {
        self.player_name = new_name;
    }

    pub fn set_id(&mut self, new_id: u32)
        ensures
            final(self)@ == (PlayerModel { player_id: new_id, ..old(self)@ }),
    {
        self.player_id = new_id;
    }

    pub fn get_money(&self) -> (r: &u32)
        ensures
            *r == self.player_money,
    {
        &self.player_money
    }

    pub fn set_money(&mut self, new_money: u32)
        ensures
            final(self)@ == (PlayerModel { player_money: new_money, ..old(self)@ }),
    {
        self.player_money = new_money;
    }

    pub fn get_name(&self) -> (r: &String)
        ensures
            r@ == self.player_name@,
    {
        &self.player_name
    }

    pub fn get_id(&self) -> (r: &u32)
        ensures
            *r == self.player_id,
    {
        &self.player_id
    }

    pub fn get_games(&self) -> (r: u32)
        ensures
            r == self.total_games,
    {
        self.total_games
    }

    pub fn set_games(&mut self, new_games: u32)
        ensures
            final(self)@ == (PlayerModel { total_games: new_games, ..old(self)@ }),
    {
        self.total_games = new_games;
    }

    pub fn get_wins(&self) -> (r: u32)
        ensures
            r == self.total_wins,
    {
        self.total_wins
    }

    pub fn set_wins(&mut self, new_wins: u32)
        ensures
            final(self)@ == (PlayerModel { total_wins: new_wins, ..old(self)@ }),
    {
        self.total_wins = new_wins;
    }

    pub fn get_losses(&self) -> (r: u32)
        ensures
            r == self.total_losses,
    {
        self.total_losses
    }

    pub fn set_losses(&mut self, new_losses: u32)
        ensures
            final(self)@ == (PlayerModel { total_losses: new_losses, ..old(self)@ }),
    {
        self.total_losses = new_losses;
    }

    pub fn get_earnings(&self) -> (r: u32)
        ensures
            r == self.total_earnings,
    {
        self.total_earnings
    }

    pub fn set_earnings(&mut self, new_earnings: u32)
        ensures
            final(self)@ == (PlayerModel { total_earnings: new_earnings, ..old(self)@ }),
    {
        self.total_earnings = new_earnings;
    }

    pub fn set_hand(&mut self, hand: Hand)
        ensures
            final(self)@ == (PlayerModel { hand: hand.cards@, hand_limit: hand.hand_limit, ..old(self)@ }),
    {
        self.player_hand = hand;
    }

    /// Refills the player's money to 1000 when it has fallen below 10.
    pub fn infinite_money(&mut self)
        ensures
            final(self)@ == (PlayerModel {
                player_money: if old(self).player_money < 10 { 1000 } else { old(self).player_money },
                ..old(self)@
            }),
    {
        if self.player_money < 10 {
            self.player_money = 1000;
        }
    }

    /// The entry under `key`, or the error "<lead><player name>" when there is none.
    fn get_choice(&self, key: &str, lead: &'static str) -> (r: Result<PlayerChoice, String>)
        ensures
            choice_under(self.player_choices, key@) matches Some(c) ==> r == Ok::<PlayerChoice, String>(c),
            choice_under(self.player_choices, key@) is None ==> (r matches Err(e) && e@ == missing_text(lead, self.player_name@)),
    {
        match self.player_choices.get(key) {
            Some(choice) => Ok(choice),
            None => Err(String::from_str(lead).concat(self.player_name.as_str())),
        }
    }

    /// The "Call" entry, or an error naming the player.
    pub fn get_call(&self) -> (r: Result<PlayerChoice, String>)
        ensures
            choice_under(self.player_choices, "Call"@) matches Some(c) ==> r == Ok::<PlayerChoice, String>(c),
            choice_under(self.player_choices, "Call"@) is None ==> (r matches Err(e)
                && e@ == missing_text("No Call action found for player: ", self.player_name@)),
    {
        self.get_choice("Call", "No Call action found for player: ")
    }

    /// The "Raise" entry, or an error naming the player.
    pub fn get_raise(&self) -> (r: Result<PlayerChoice, String>)
        ensures
            choice_under(self.player_choices, "Raise"@) matches Some(c) ==> r == Ok::<PlayerChoice, String>(c),
            choice_under(self.player_choices, "Raise"@) is None ==> (r matches Err(e)
                && e@ == missing_text("No Raise action found for player: ", self.player_name@)),
    {
        self.get_choice("Raise", "No Raise action found for player: ")
    }

    /// The "Bet" entry, or an error naming the player.
    pub fn get_bet(&self) -> (r: Result<PlayerChoice, String>)
        ensures
            choice_under(self.player_choices, "Bet"@) matches Some(c) ==> r == Ok::<PlayerChoice, String>(c),
            choice_under(self.player_choices, "Bet"@) is None ==> (r matches Err(e)
                && e@ == missing_text("No Bet action found for player: ", self.player_name@)),
    {
        self.get_choice("Bet", "No Bet action found for player: ")
    }

    /// The "Check" entry, or an error naming the player.
    pub fn get_check(&self) -> (r: Result<PlayerChoice, String>)
        ensures
            choice_under(self.player_choices, "Check"@) matches Some(c) ==> r == Ok::<PlayerChoice, String>(c),
            choice_under(self.player_choices, "Check"@) is None ==> (r matches Err(e)
                && e@ == missing_text("No Check action found for player: ", self.player_name@)),
    {
        self.get_choice("Check", "No Check action found for player: ")
    }

    /// The "Fold" entry, or an error naming the player.
    pub fn get_fold(&self) -> (r: Result<PlayerChoice, String>)
        ensures
            choice_under(self.player_choices, "Fold"@) matches Some(c) ==> r == Ok::<PlayerChoice, String>(c),
            choice_under(self.player_choices, "Fold"@) is None ==> (r matches Err(e)
                && e@ == missing_text("No Fold action found for player: ", self.player_name@)),
    {
        self.get_choice("Fold", "No Fold action found for player: ")
    }

    /// The "PlacedInPot" entry, or an error naming the player.
    pub fn get_placedinpot(&self) -> (r: Result<PlayerChoice, String>)
        ensures
            choice_under(self.player_choices, "PlacedInPot"@) matches Some(c) ==> r == Ok::<PlayerChoice, String>(c),
            choice_under(self.player_choices, "PlacedInPot"@) is None ==> (r matches Err(e)
                && e@ == missing_text("No Placed In Pot action found for player: ", self.player_name@)),
    {
        self.get_choice("PlacedInPot", "No Placed In Pot action found for player: ")
    }

    /// The "AllIn" entry, or an error naming the player.
    pub fn get_all_in(&self) -> (r: Result<PlayerChoice, String>)
        ensures
            choice_under(self.player_choices, "AllIn"@) matches Some(c) ==> r == Ok::<PlayerChoice, String>(c),
            choice_under(self.player_choices, "AllIn"@) is None ==> (r matches Err(e)
                && e@ == missing_text("No All In action found for player: ", self.player_name@)),
    {
        self.get_choice("AllIn", "No All In action found for player: ")
    }

    /// Adds money to the player's balance.
    pub fn add_money(&mut self, additional: u32)
        requires
            old(self).player_money + additional <= u32::MAX,
        ensures
            final(self)@ == (PlayerModel { player_money: (old(self).player_money + additional) as u32, ..old(self)@ }),
    {
        self.player_money = self.player_money + additional;
    }

    /// Takes money from the player's balance.
    pub fn remove_money(&mut self, removal: u32)
        requires
            old(self).player_money >= removal,
        ensures
            final(self)@ == (PlayerModel { player_money: (old(self).player_money - removal) as u32, ..old(self)@ }),
    {
        self.player_money = self.player_money - removal;
    }

    /// Deals one face-down card from the deck into the player's hand, failing as
    /// `Hand::draw` does.
    pub fn draw_card(&mut self, deck: &mut Deck) -> (r: Result<(), &'static str>)
        requires
            old(self).player_hand.cards@.len() % 256 + 1 <= 255,
        ensures
            old(self).player_hand.cards@.len() % 256 + 1 > old(self).player_hand.hand_limit
                ==> r == Err::<(), &'static str>(crate::hand::HAND_LIMIT_ERROR) && final(self)@ == old(self)@
                && final(deck)@ == old(deck)@,
            old(self).player_hand.cards@.len() % 256 + 1 <= old(self).player_hand.hand_limit
                && old(deck)@.len() % 256 == 0 ==> r == Err::<(), &'static str>(crate::hand::DECK_LIMIT_ERROR)
                && final(self)@ == old(self)@ && final(deck)@ == old(deck)@,
            old(self).player_hand.cards@.len() % 256 + 1 <= old(self).player_hand.hand_limit
                && old(deck)@.len() % 256 >= 1 ==> r == Ok::<(), &'static str>(())
                && final(self)@ == (PlayerModel {
                    hand: old(self).player_hand.cards@ + crate::hand::dealt(old(deck)@, 1, false),
                    ..old(self)@
                }) && final(deck)@ == old(deck)@.take(old(deck)@.len() - 1),
    {
        self.player_hand.draw(deck, 1)
    }

    /// Clears the player's choices and last move, and sets the amount wagered this
    /// game back to 0.
    pub fn reset_choices(&mut self)
        ensures
            final(self)@ == (PlayerModel {
                choices: no_choices(),
                last_move: Seq::empty(),
                total_wagered_per_game: 0,
                ..old(self)@
            }),
    {
        self.player_choices.clear();
        self.last_move = String::new();
        self.total_wagered_per_game = 0;
    }

    /// Starts a new round: keeps only a "Fold" entry and sets the amount placed in
    /// the pot to 0.
    pub fn new_round_choices(&mut self)
        ensures
            final(self)@ == old(self)@.after_new_round(),
    {
        let fold = self.player_choices.fold;
        let mut choices = PlayerChoices::new();
        choices.fold = fold;
        choices.placed_in_pot = Some(0);
        self.player_choices = choices;
    }

    /// Checks: a player who has not folded keeps only the amount placed in the pot
    /// and gains a "Check" entry; a player who has folded is left as is.
    pub fn check(&mut self)
        ensures
            final(self)@ == old(self)@.after_check(),
    {
        if !self.player_choices.fold {
            let placed = self.player_choices.placed_in_pot;
            let mut choices = PlayerChoices::new();
            choices.placed_in_pot = placed;
            choices.check = true;
            self.player_choices = choices;
        }
    }

    /// Folds: only the amount placed in the pot is kept, with its value, and a
    /// "Fold" entry is added.
    pub fn fold(&mut self)
        ensures
            final(self)@ == old(self)@.after_fold(),
    {
        let placed = self.player_choices.placed_in_pot;
        let mut choices = PlayerChoices::new();
        choices.placed_in_pot = placed;
        choices.fold = true;
        self.player_choices = choices;
    }

    /// Adds to the amount placed in the pot this round (creating the entry at 0 when
    /// missing) and to the amount wagered this game.
    pub fn add_to_placed_in_pot(&mut self, amount: u32)
        requires
            old(self).player_choices.placed_amount() + amount <= u32::MAX,
            old(self).total_wagered_per_game + amount <= u32::MAX,
        ensures
            final(self)@ == (PlayerModel {
                choices: PlayerChoices {
                    placed_in_pot: Some((old(self).player_choices.placed_amount() + amount) as u32),
                    ..old(self).player_choices
                },
                total_wagered_per_game: (old(self).total_wagered_per_game + amount) as u32,
                ..old(self)@
            }),
    {
        let current = self.player_choices.placed_amount_now();
        self.player_choices.placed_in_pot = Some(current + amount);
        self.total_wagered_per_game = self.total_wagered_per_game + amount;
    }

    /// Calls: a player who has not folded keeps only the amount placed in the pot,
    /// records the call amount, adds it to the pot amount and the game's wager and
    /// pays it from the balance; a player who has folded is left as is.
    pub fn call(&mut self, call_amount: u32)
        requires
            !old(self).player_choices.fold ==> old(self)@.can_bet(call_amount),
        ensures
            final(self)@ == old(self)@.after_call(call_amount),
    {
        if !self.player_choices.fold {
            let placed = self.player_choices.placed_in_pot;
            let mut choices = PlayerChoices::new();
            choices.placed_in_pot = placed;
            choices.call = Some(call_amount);
            self.player_choices = choices;
            self.add_to_placed_in_pot(call_amount);
            self.remove_money(call_amount);
        }
    }

    /// Bets: a player who has folded cannot bet and is left as is; another adds to
    /// the amount placed in the pot (creating the entry when missing), pays from the
    /// balance and adds to the game's wager.
    pub fn bet(&mut self, bet_amount: u32)
        requires
            old(self)@.can_bet(bet_amount),
        ensures
            final(self)@ == old(self)@.after_bet(bet_amount),
    {
        if self.player_choices.fold {
            return;
        }
        let current = self.player_choices.placed_amount_now();
        self.player_choices.placed_in_pot = Some(current + bet_amount);
        self.player_money = self.player_money - bet_amount;
        self.total_wagered_per_game = self.total_wagered_per_game + bet_amount;
    }

    /// Replaces the hand with an empty one of the same limit.
    pub fn reset_hand(&mut self)
        ensures
            final(self)@ == (PlayerModel { hand: Seq::empty(), ..old(self)@ }),
    {
        self.player_hand = Hand::new(self.player_hand.get_hand_limit());
    }
}

} // verus!
