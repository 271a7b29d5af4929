//! Playing cards: the value and suit of a card and the card itself.

use vstd::prelude::*;
use vstd::std_specs::convert::TryFromSpecImpl;
use vstd::std_specs::cmp::PartialEqSpecImpl;
use vstd::string::StringSliceAdditionalSpecFns;

verus! {

/// The value of a playing card, from `Empty` (0) up to `Ace` (14).
#[derive(Debug, Clone, Copy, PartialEq, Eq, Structural, Hash)]
pub enum Value {
    Empty,
    AceLow,
    Two,
    Three,
    Four,
    Five,
    Six,
    Seven,
    Eight,
    Nine,
    Ten,
    Jack,
    Queen,
    King,
    Ace,
}

/// The suit of a playing card.
#[derive(Debug, Clone, Copy, PartialEq, Eq, Structural, Hash)]
pub enum Suit {
    Club,
    Diamond,
    Heart,
    Spade,
    Empty,
}

/// Error text for a character that names no value.
pub const VALUE_CHAR_ERROR: &'static str = "not a valid card char, must be between 2-9,T,J,Q,K,A";

/// Error text for a number that names no value.
pub const VALUE_NUM_ERROR: &'static str = "not a valid card val, must be between 2-14";

/// Error text for a character that names no suit.
pub const SUIT_CHAR_ERROR: &'static str = "not a valid suit char, must be between S,C,D,H";

/// Error text for a string that is not two characters long.
pub const CARD_FORMAT_ERROR: &'static str = "Invalid Card input format";

impl Value {
    /// The number of a value: `Empty` is 0, `AceLow` 1, `Two` 2, ..., `Ace` 14.
    pub open spec fn num(self) -> u8 {
        match self {
            Value::Empty => 0,
            Value::AceLow => 1,
            Value::Two => 2,
            Value::Three => 3,
            Value::Four => 4,
            Value::Five => 5,
            Value::Six => 6,
            Value::Seven => 7,
            Value::Eight => 8,
            Value::Nine => 9,
            Value::Ten => 10,
            Value::Jack => 11,
            Value::Queen => 12,
            Value::King => 13,
            Value::Ace => 14,
        }
    }

    /// The value whose number is `n`, for `n` up to 14.
    pub open spec fn from_num(n: int) -> Value {
        if n == 0 { Value::Empty }
        else if n == 1 { Value::AceLow }
        else if n == 2 { Value::Two }
        else if n == 3 { Value::Three }
        else if n == 4 { Value::Four }
        else if n == 5 { Value::Five }
        else if n == 6 { Value::Six }
        else if n == 7 { Value::Seven }
        else if n == 8 { Value::Eight }
        else if n == 9 { Value::Nine }
        else if n == 10 { Value::Ten }
        else if n == 11 { Value::Jack }
        else if n == 12 { Value::Queen }
        else if n == 13 { Value::King }
        else { Value::Ace }
    }

    /// The character that names a value in a card's text: ' ' for `Empty`, '1' for
    /// `AceLow`, '2'..'9', 'T', 'J', 'Q', 'K', 'A'.
    pub open spec fn display_char(self) -> char {
        match self {
            Value::Empty => ' ',
            Value::AceLow => '1',
            Value::Two => '2',
            Value::Three => '3',
            Value::Four => '4',
            Value::Five => '5',
            Value::Six => '6',
            Value::Seven => '7',
            Value::Eight => '8',
            Value::Nine => '9',
            Value::Ten => 'T',
            Value::Jack => 'J',
            Value::Queen => 'Q',
            Value::King => 'K',
            Value::Ace => 'A',
        }
    }

    /// The character a player's screen shows for a value: like `display_char`, but
    /// both aces show as 'A'.
    pub open spec fn screen_char(self) -> char {
        match self {
            Value::AceLow => 'A',
            _ => self.display_char(),
        }
    }

    /// The value that a character names, if it names one ('0' names `Empty`, '1'
    /// names `AceLow`).
    pub open spec fn parse_char(c: char) -> Result<Value, &'static str> {
        if c == '0' { Ok(Value::Empty) }
        else if c == '1' { Ok(Value::AceLow) }
        else if c == '2' { Ok(Value::Two) }
        else if c == '3' { Ok(Value::Three) }
        else if c == '4' { Ok(Value::Four) }
        else if c == '5' { Ok(Value::Five) }
        else if c == '6' { Ok(Value::Six) }
        else if c == '7' { Ok(Value::Seven) }
        else if c == '8' { Ok(Value::Eight) }
        else if c == '9' { Ok(Value::Nine) }
        else if c == 'T' { Ok(Value::Ten) }
        else if c == 'J' { Ok(Value::Jack) }
        else if c == 'Q' { Ok(Value::Queen) }
        else if c == 'K' { Ok(Value::King) }
        else if c == 'A' { Ok(Value::Ace) }
        else { Err(VALUE_CHAR_ERROR) }
    }

    /// The value with number `n`, if `n` is at most 14.
    pub open spec fn parse_num(n: u8) -> Result<Value, &'static str> {
        if n <= 14 { Ok(Value::from_num(n as int)) } else { Err(VALUE_NUM_ERROR) }
    }

    /// The number of this value.
    pub fn as_u8(&self) -> (r: u8)
        ensures
            r == self.num(),
    {
        match self {
            Value::Empty => 0,
            Value::AceLow => 1,
            Value::Two => 2,
            Value::Three => 3,
            Value::Four => 4,
            Value::Five => 5,
            Value::Six => 6,
            Value::Seven => 7,
            Value::Eight => 8,
            Value::Nine => 9,
            Value::Ten => 10,
            Value::Jack => 11,
            Value::Queen => 12,
            Value::King => 13,
            Value::Ace => 14,
        }
    }

    /// The value with number `n`, for `n` up to 14.
    pub fn from_u8(n: u8) -> (r: Value)
        requires
            n <= 14,
        ensures
            r == Value::from_num(n as int),
            r.num() == n,
    {
        if n == 0 { Value::Empty }
        else if n == 1 { Value::AceLow }
        else if n == 2 { Value::Two }
        else if n == 3 { Value::Three }
        else if n == 4 { Value::Four }
        else if n == 5 { Value::Five }
        else if n == 6 { Value::Six }
        else if n == 7 { Value::Seven }
        else if n == 8 { Value::Eight }
        else if n == 9 { Value::Nine }
        else if n == 10 { Value::Ten }
        else if n == 11 { Value::Jack }
        else if n == 12 { Value::Queen }
        else if n == 13 { Value::King }
        else { Value::Ace }
    }

    /// The thirteen values of a standard deck, from `Two` up to `Ace`.
    pub fn iterator() -> (r: Vec<Value>)
        ensures
            r@.len() == 13,
            forall|i: int| 0 <= i < 13 ==> #[trigger] r@[i] == Value::from_num(i + 2),
    {
        let mut r: Vec<Value> = Vec::new();
        let mut n: u8 = 2;
        while n <= 14
            invariant
                2 <= n <= 15,
                r@.len() == n - 2,
                forall|i: int| 0 <= i < n - 2 ==> #[trigger] r@[i] == Value::from_num(i + 2),
            decreases 15 - n,
        {
            r.push(Value::from_u8(n));
            n = n + 1;
        }
        r
    }

    /// The character a player's screen shows for this value (both aces show as 'A').
    pub fn conv_to_char(&self) -> (c: char)
        ensures
            c == self.screen_char(),
    {
        match self {
            Value::Empty => ' ',
            Value::AceLow => 'A',
            Value::Two => '2',
            Value::Three => '3',
            Value::Four => '4',
            Value::Five => '5',
            Value::Six => '6',
            Value::Seven => '7',
            Value::Eight => '8',
            Value::Nine => '9',
            Value::Ten => 'T',
            Value::Jack => 'J',
            Value::Queen => 'Q',
            Value::King => 'K',
            Value::Ace => 'A',
        }
    }

    /// The character that names this value in a card's text.
    pub fn to_char(&self) -> (c: char)
        ensures
            c == self.display_char(),
    {
        match self {
            Value::Empty => ' ',
            Value::AceLow => '1',
            Value::Two => '2',
            Value::Three => '3',
            Value::Four => '4',
            Value::Five => '5',
            Value::Six => '6',
            Value::Seven => '7',
            Value::Eight => '8',
            Value::Nine => '9',
            Value::Ten => 'T',
            Value::Jack => 'J',
            Value::Queen => 'Q',
            Value::King => 'K',
            Value::Ace => 'A',
        }
    }

    /// The value a character names, or an error for any other character.
    pub fn from_char(c: char) -> (r: Result<Value, &'static str>)
        ensures
            r == Value::parse_char(c),
    {
        match c {
            '0' => Ok(Value::Empty),
            '1' => Ok(Value::AceLow),
            '2' => Ok(Value::Two),
            '3' => Ok(Value::Three),
            '4' => Ok(Value::Four),
            '5' => Ok(Value::Five),
            '6' => Ok(Value::Six),
            '7' => Ok(Value::Seven),
            '8' => Ok(Value::Eight),
            '9' => Ok(Value::Nine),
            'T' => Ok(Value::Ten),
            'J' => Ok(Value::Jack),
            'Q' => Ok(Value::Queen),
            'K' => Ok(Value::King),
            'A' => Ok(Value::Ace),
            _ => Err(VALUE_CHAR_ERROR),
        }
    }
}

/// Every value has a number of at most 14, and the number gives the value back.
pub broadcast proof fn lemma_value_num(v: Value)
    ensures
        #[trigger] v.num() <= 14,
        Value::from_num(v.num() as int) == v,
{
}

/// Two values are equal exactly when their numbers are.
pub proof fn lemma_value_num_injective(a: Value, b: Value)
    ensures
        (a.num() == b.num()) == (a == b),
{
}

/// Reading back the character of a value gives the value, for every value but `Empty`.
pub proof fn lemma_value_char_round_trip(v: Value)
    requires
        v != Value::Empty,
    ensures
        Value::parse_char(v.display_char()) == Ok::<Value, &'static str>(v),
{
}

impl TryFrom<char> for Value {
    type Error = &'static str;

    fn try_from(value: char) -> (r: Result<Self, Self::Error>) {
        Value::from_char(value)
    }
}

impl TryFromSpecImpl<char> for Value {
    open spec fn obeys_try_from_spec() -> bool {
        true
    }

    open spec fn try_from_spec(v: char) -> Result<Self, Self::Error> {
        Value::parse_char(v)
    }
}

impl TryFrom<u8> for Value {
    type Error = &'static str;

    fn try_from(value: u8) -> (r: Result<Self, Self::Error>) {
        if value <= 14 {
            Ok(Value::from_u8(value))
        } else {
            Err(VALUE_NUM_ERROR)
        }
    }
}

impl TryFromSpecImpl<u8> for Value {
    open spec fn obeys_try_from_spec() -> bool {
        true
    }

    open spec fn try_from_spec(v: u8) -> Result<Self, Self::Error> {
        Value::parse_num(v)
    }
}

impl TryFrom<Value> for char {
    type Error = &'static str;

    fn try_from(value: Value) -> (r: Result<Self, Self::Error>) {
        Ok(value.to_char())
    }
}

impl TryFromSpecImpl<Value> for char {
    open spec fn obeys_try_from_spec() -> bool {
        true
    }

    open spec fn try_from_spec(v: Value) -> Result<Self, Self::Error> {
        Ok(v.display_char())
    }
}


/// The one-character text of a value in a card's text.
pub fn value_text(v: Value) -> (s: &'static str)
    ensures
        s@ == seq![v.display_char()],
{
    match v {
            Value::Empty => {
                proof { reveal_strlit(" "); }
                " "
            },
            Value::AceLow => {
                proof { reveal_strlit("1"); }
                "1"
            },
            Value::Two => {
                proof { reveal_strlit("2"); }
                "2"
            },
            Value::Three => {
                proof { reveal_strlit("3"); }
                "3"
            },
            Value::Four => {
                proof { reveal_strlit("4"); }
                "4"
            },
            Value::Five => {
                proof { reveal_strlit("5"); }
                "5"
            },
            Value::Six => {
                proof { reveal_strlit("6"); }
                "6"
            },
            Value::Seven => {
                proof { reveal_strlit("7"); }
                "7"
            },
            Value::Eight => {
                proof { reveal_strlit("8"); }
                "8"
            },
            Value::Nine => {
                proof { reveal_strlit("9"); }
                "9"
            },
            Value::Ten => {
                proof { reveal_strlit("T"); }
                "T"
            },
            Value::Jack => {
                proof { reveal_strlit("J"); }
                "J"
            },
            Value::Queen => {
                proof { reveal_strlit("Q"); }
                "Q"
            },
            Value::King => {
                proof { reveal_strlit("K"); }
                "K"
            },
            Value::Ace => {
                proof { reveal_strlit("A"); }
                "A"
            },
    }
}

/// The one-character text of a suit in a card's text.
pub fn suit_text(su: Suit) -> (s: &'static str)
    ensures
        s@ == seq![su.display_char()],
{
    match su {
            Suit::Spade => {
                proof { reveal_strlit("S"); }
                "S"
            },
            Suit::Club => {
                proof { reveal_strlit("C"); }
                "C"
            },
            Suit::Diamond => {
                proof { reveal_strlit("D"); }
                "D"
            },
            Suit::Heart => {
                proof { reveal_strlit("H"); }
                "H"
            },
            Suit::Empty => {
                proof { reveal_strlit("E"); }
                "E"
            },
    }
}

impl Suit {
    /// The number of a suit: `Club` 0, `Diamond` 1, `Heart` 2, `Spade` 3, `Empty` 4.
    pub open spec fn num(self) -> u8 {
        match self {
            Suit::Club => 0,
            Suit::Diamond => 1,
            Suit::Heart => 2,
            Suit::Spade => 3,
            Suit::Empty => 4,
        }
    }

    /// The character that names a suit in a card's text ('E' for `Empty`).
    pub open spec fn display_char(self) -> char {
        match self {
            Suit::Spade => 'S',
            Suit::Club => 'C',
            Suit::Diamond => 'D',
            Suit::Heart => 'H',
            Suit::Empty => 'E',
        }
    }

    /// The suit a character names, if it names one of the four real suits.
    pub open spec fn parse_char(c: char) -> Result<Suit, &'static str> {
        if c == 'S' { Ok(Suit::Spade) }
        else if c == 'C' { Ok(Suit::Club) }
        else if c == 'D' { Ok(Suit::Diamond) }
        else if c == 'H' { Ok(Suit::Heart) }
        else { Err(SUIT_CHAR_ERROR) }
    }

    /// The number of this suit.
    pub fn as_u8(&self) -> (r: u8)
        ensures
            r == self.num(),
    {
        match self {
            Suit::Club => 0,
            Suit::Diamond => 1,
            Suit::Heart => 2,
            Suit::Spade => 3,
            Suit::Empty => 4,
        }
    }

    /// The four suits of a standard deck, in the order Spade, Club, Diamond, Heart.
    pub fn iterator() -> (r: Vec<Suit>)
        ensures
            r@ == seq![Suit::Spade, Suit::Club, Suit::Diamond, Suit::Heart],
    {
        let mut r: Vec<Suit> = Vec::new();
        r.push(Suit::Spade);
        r.push(Suit::Club);
        r.push(Suit::Diamond);
        r.push(Suit::Heart);
        r
    }

    /// The character that names this suit in a card's text.
    pub fn to_char(&self) -> (c: char)
        ensures
            c == self.display_char(),
    {
        match self {
            Suit::Spade => 'S',
            Suit::Club => 'C',
            Suit::Diamond => 'D',
            Suit::Heart => 'H',
            Suit::Empty => 'E',
        }
    }

    /// The suit a character names, or an error for any other character.
    pub fn from_char(c: char) -> (r: Result<Suit, &'static str>)
        ensures
            r == Suit::parse_char(c),
    {
        match c {
            'S' => Ok(Suit::Spade),
            'C' => Ok(Suit::Club),
            'D' => Ok(Suit::Diamond),
            'H' => Ok(Suit::Heart),
            _ => Err(SUIT_CHAR_ERROR),
        }
    }
}

impl TryFrom<char> for Suit {
    type Error = &'static str;

    fn try_from(suit: char) -> (r: Result<Self, Self::Error>) {
        Suit::from_char(suit)
    }
}

impl TryFromSpecImpl<char> for Suit {
    open spec fn obeys_try_from_spec() -> bool {
        true
    }

    open spec fn try_from_spec(v: char) -> Result<Self, Self::Error> {
        Suit::parse_char(v)
    }
}

impl TryFrom<Suit> for char {
    type Error = &'static str;

    fn try_from(suit: Suit) -> (r: Result<Self, Self::Error>) {
        Ok(suit.to_char())
    }
}

impl TryFromSpecImpl<Suit> for char {
    open spec fn obeys_try_from_spec() -> bool {
        true
    }

    open spec fn try_from_spec(v: Suit) -> Result<Self, Self::Error> {
        Ok(v.display_char())
    }
}

/// A playing card: a value, a suit and whether it lies face up.
#[derive(Debug, Clone, Copy, Eq)]
pub struct Card {
    /// The value of the card.
    pub value: Value,
    /// The suit of the card.
    pub suit: Suit,
    /// `true` when the card lies face up.
    pub face_up: bool,
}

impl Card {
    /// Two cards are the same card when value and suit agree; which way up they
    /// lie does not matter.
    pub open spec fn same_card(self, other: Card) -> bool {
        self.value == other.value && self.suit == other.suit
    }

    /// The card that a two-character text names, value first and suit second.
    /// A text of any other length, in bytes or in characters, names no card.
    pub open spec fn parse_spec(s: &str) -> Result<Card, &'static str> {
        if s.len() != 2 || s@.len() != 2 {
            Err(CARD_FORMAT_ERROR)
        } else {
            match Value::parse_char(s@[0]) {
                Err(e) => Err(e),
                Ok(value) => match Suit::parse_char(s@[1]) {
                    Err(e) => Err(e),
                    Ok(suit) => Ok(Card { value, suit, face_up: false }),
                },
            }
        }
    }

    /// A new face-down card of the given value and suit; it never fails.
    pub fn new(value: Value, suit: Suit) -> (r: Result<Card, &'static str>)
        ensures
            r == Ok::<Card, &'static str>(Card { value, suit, face_up: false }),
    {
        Ok(Card { value, suit, face_up: false })
    }

    /// The suit of the card.
    pub fn get_suit(self) -> (r: Suit)
        ensures
            r == self.suit,
    {
        self.suit
    }

    /// The value of the card.
    pub fn get_value(self) -> (r: Value)
        ensures
            r == self.value,
    {
        self.value
    }

    /// The number of the card's value (2 for a two, 14 for an ace).
    pub fn get_value_as_u8(self) -> (r: u8)
        ensures
            r == self.value.num(),
    {
        self.value.as_u8()
    }

    /// Whether two cards have the same value, whatever their suits.
    pub fn is_value_equal(&self, other: &Card) -> (r: bool)
        ensures
            r == (self.value == other.value),
    {
        self.value == other.value
    }

    /// The card that a two-character text such as "AS" or "9H" names.
    pub fn parse(s: &str) -> (r: Result<Card, &'static str>)
        ensures
            r == Card::parse_spec(s),
    {
        if s.len() != 2 {
            return Err(CARD_FORMAT_ERROR);
        }
        if s.unicode_len() != 2 {
            return Err(CARD_FORMAT_ERROR);
        }
        let value = match Value::from_char(s.get_char(0)) {
            Ok(v) => v,
            Err(e) => {
                return Err(e);
            },
        };
        let suit = match Suit::from_char(s.get_char(1)) {
            Ok(su) => su,
            Err(e) => {
                return Err(e);
            },
        };
        Ok(Card { value, suit, face_up: false })
    }

    /// The two-character text of the card: the value's character, then the suit's.
    pub fn to_string(&self) -> (r: String)
        ensures
            r@ == seq![self.value.display_char(), self.suit.display_char()],
    {
        let s = String::from_str(value_text(self.value));
        s.concat(suit_text(self.suit))
    }

    /// The text a player's screen shows for the card: "##" for a card lying face
    /// down unless every card is shown, nothing for a card with an empty value or
    /// suit, otherwise the value's screen character (both aces as 'A') and the
    /// suit's character.
    pub fn to_table_string(&self, all_up: bool) -> (r: String)
        ensures
            r@ == table_text(*self, all_up),
    {
        if !self.face_up && !all_up {
            proof { reveal_strlit("##"); }
            return String::from_str("##");
        }
        if self.value == Value::Empty || self.suit == Suit::Empty {
            proof { reveal_strlit(""); }
            return String::new();
        }
        let v = if self.value == Value::AceLow {
            proof { reveal_strlit("A"); }
            "A"
        } else {
            value_text(self.value)
        };
        let s = String::from_str(v);
        s.concat(suit_text(self.suit))
    }
}

/// The text a player's screen shows for a card, as `Card::to_table_string` gives it.
pub open spec fn table_text(c: Card, all_up: bool) -> Seq<char> {
    if !c.face_up && !all_up {
        "##"@
    } else if c.value == Value::Empty || c.suit == Suit::Empty {
        Seq::empty()
    } else {
        seq![c.value.screen_char(), c.suit.display_char()]
    }
}

/// Parsing the text of a card gives back its value and suit, face down, for every
/// card whose value and suit are not `Empty`.
pub proof fn lemma_card_text_round_trip(c: Card, text: &str)
    requires
        c.value != Value::Empty,
        c.suit != Suit::Empty,
        text@ == seq![c.value.display_char(), c.suit.display_char()],
        text.len() == 2,
    ensures
        Card::parse_spec(text) == Ok::<Card, &'static str>(Card { value: c.value, suit: c.suit, face_up: false }),
{
}

impl PartialEq for Card {
    fn eq(&self, other: &Self) -> (r: bool) {
        self.value == other.value && self.suit == other.suit
    }
}

impl PartialEqSpecImpl for Card {
    open spec fn obeys_eq_spec() -> bool {
        true
    }

    open spec fn eq_spec(&self, other: &Card) -> bool {
        self.same_card(*other)
    }
}

impl std::str::FromStr for Card {
    type Err = &'static str;

    fn from_str(s: &str) -> (r: Result<Self, Self::Err>)
        ensures
            r == Card::parse_spec(s),
    {
        Card::parse(s)
    }
}

} // verus!
