//! A deck of playing cards that deals from its top (the end of its list).

use vstd::prelude::*;
use crate::card::{Card, Suit, Value};

verus! {

broadcast use vstd::seq_lib::group_to_multiset_ensures;

/// Error text when a card is asked of an empty deck.
pub const DECK_EMPTY_ERROR: &'static str = "Deck is empty, unable to deal another card";

/// The cards of a standard deck before shuffling: for each suit in the order Spade,
/// Club, Diamond, Heart, the values Two up to Ace, all face down.
pub open spec fn standard_cards() -> Seq<Card> {
    Seq::new(52, |i: int| Card {
        value: Value::from_num(i % 13 + 2),
        suit: seq![Suit::Spade, Suit::Club, Suit::Diamond, Suit::Heart][i / 13],
        face_up: false,
    })
}

/// A deck of cards; the last card of the list is the top of the deck.
#[derive(Debug)]
pub struct Deck {
    cards: Vec<Card>,
}

impl View for Deck {
    type V = Seq<Card>;

    closed spec fn view(&self) -> Seq<Card> {
        self.cards@
    }
}

/// Shuffles the cards into an order that chance decides.
///
/// Calls `rand::seq::SliceRandom::shuffle` with `rand::thread_rng()`. The contract
/// claims only what the rand documentation gives: a shuffle permutes the slice in
/// place, so the same cards remain, each as often as before. Which order comes out is
/// left unsaid: it rests on chance.
#[verifier::external_body]
fn shuffle_cards(cards: &mut Vec<Card>)
    ensures
        final(cards)@.len() == old(cards)@.len(),
        final(cards)@.to_multiset() == old(cards)@.to_multiset(),
{
    let mut rng = rand::thread_rng();
    rand::seq::SliceRandom::shuffle(cards.as_mut_slice(), &mut rng);
}

impl Clone for Deck {
    fn clone(&self) -> (r: Self)
        ensures
            r@ == self@,
    {
        let cards = self.cards.clone();
        assert(cards@ =~= self.cards@);
        Deck { cards }
    }
}

impl Deck {
    /// A new shuffled deck holding the 52 cards of a standard deck, face down.
    pub fn new() -> (r: Deck)
        ensures
            r@.len() == 52,
            r@.to_multiset() == standard_cards().to_multiset(),
    {
        let mut cards: Vec<Card> = Vec::new();
        let suits = Suit::iterator();
        let values = Value::iterator();
        let mut s: usize = 0;
        while s < 4
            invariant
                0 <= s <= 4,
                suits@ == seq![Suit::Spade, Suit::Club, Suit::Diamond, Suit::Heart],
                values@.len() == 13,
                forall|i: int| 0 <= i < 13 ==> #[trigger] values@[i] == Value::from_num(i + 2),
                cards@ == standard_cards().take(13 * s),
            decreases 4 - s,
        {
            let mut v: usize = 0;
            while v < 13
                invariant
                    0 <= s < 4,
                    0 <= v <= 13,
                    suits@ == seq![Suit::Spade, Suit::Club, Suit::Diamond, Suit::Heart],
                    values@.len() == 13,
                    forall|i: int| 0 <= i < 13 ==> #[trigger] values@[i] == Value::from_num(i + 2),
                    cards@ == standard_cards().take(13 * s + v),
                decreases 13 - v,
            {
                let card = Card { value: values[v], suit: suits[s], face_up: false };
                proof {
                    let k = 13 * s + v;
                    assert(k % 13 == v as int) by (nonlinear_arith)
                        requires k == 13 * s + v, 0 <= v < 13;
                    assert(k / 13 == s as int) by (nonlinear_arith)
                        requires k == 13 * s + v, 0 <= v < 13;
                    assert(standard_cards().take(k + 1) =~= standard_cards().take(k).push(card));
                }
                cards.push(card);
                v = v + 1;
            }
            s = s + 1;
        }
        assert(standard_cards().take(52) =~= standard_cards());
        shuffle_cards(&mut cards);
        Deck { cards }
    }

    /// A deck holding the given cards, the last on top.
    pub fn from_cards(cards: Vec<Card>) -> (r: Deck)
        ensures
            r@ == cards@,
    {
        Deck { cards }
    }

    /// The cards of the deck, the last on top.
    pub fn cards(&self) -> (r: &Vec<Card>)
        ensures
            r@ == self@,
    {
        &self.cards
    }

    /// The number of cards in the deck, as a byte (the length modulo 256).
    pub fn count(&self) -> (r: u8)
        ensures
            r == self@.len() % 256,
    {
        (self.cards.len() % 256) as u8
    }

    /// Whether a card of the same value and suit is in the deck.
    pub fn contains(&self, c: Card) -> (r: bool)
        ensures
            r == exists|i: int| 0 <= i < self@.len() && #[trigger] self@[i].same_card(c),
    {
        let mut i: usize = 0;
        while i < self.cards.len()
            invariant
                0 <= i <= self.cards@.len(),
                forall|j: int| 0 <= j < i ==> !(#[trigger] self.cards@[j].same_card(c)),
            decreases self.cards@.len() - i,
        {
            if self.cards[i].value == c.value && self.cards[i].suit == c.suit {
                assert(self@[i as int].same_card(c));
                return true;
            }
            i = i + 1;
        }
        false
    }

    /// Deals the top card of the deck, or fails when the deck is empty.
    pub fn deal_card(&mut self) -> (r: Result<Card, &'static str>)
        ensures
            old(self)@.len() == 0 ==> r == Err::<Card, &'static str>(DECK_EMPTY_ERROR)
                && final(self)@ == old(self)@,
            old(self)@.len() > 0 ==> r == Ok::<Card, &'static str>(old(self)@.last())
                && final(self)@ == old(self)@.drop_last(),
    {
        match self.cards.pop() {
            Some(card) => Ok(card),
            None => Err(DECK_EMPTY_ERROR),
        }
    }

    /// Whether the deck has no cards left.
    pub fn is_empty(&self) -> (r: bool)
        ensures
            r == (self@.len() == 0),
    {
        self.cards.len() == 0
    }
}

} // verus!
