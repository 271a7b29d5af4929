//! A hand of cards, held by a player or laid out as the community cards.

use vstd::prelude::*;
use vstd::std_specs::cmp::PartialEqSpecImpl;
use crate::card::{Card, Value};
use crate::deck::Deck;

verus! {

broadcast use vstd::seq_lib::group_filter_ensures;

/// Error text when a draw would take a hand over its limit.
pub const HAND_LIMIT_ERROR: &'static str = "Hand limit exceeded";

/// Error text when a deck holds fewer cards than a draw asks for.
pub const DECK_LIMIT_ERROR: &'static str = "Deck limit exceeded";

/// Error text when a discard names a position past the end of the hand.
pub const INDEX_ERROR: &'static str = "Index error";

/// The `n` cards dealt from the top of `deck`, in the order they are dealt, turned
/// face up or face down as `up` says.
pub open spec fn dealt(deck: Seq<Card>, n: int, up: bool) -> Seq<Card> {
    Seq::new(n as nat, |i: int| Card {
        value: deck[deck.len() - 1 - i].value,
        suit: deck[deck.len() - 1 - i].suit,
        face_up: up,
    })
}

/// The key by which a hand is sorted: ten times the value's number plus the suit's.
pub open spec fn sort_key(c: Card) -> int {
    c.value.num() * 10 + c.suit.num()
}

/// The cards of `s` whose sort key is `k`, in their order in `s`.
pub open spec fn key_bucket(s: Seq<Card>, k: int) -> Seq<Card> {
    s.filter(|c: Card| sort_key(c) == k)
}

/// The cards of `s` with sort key at least `k`, highest key first, cards of equal
/// key in their order in `s`.
pub open spec fn buckets_from(s: Seq<Card>, k: int) -> Seq<Card>
    decreases 145 - k,
{
    if k > 144 {
        Seq::empty()
    } else {
        buckets_from(s, k + 1) + key_bucket(s, k)
    }
}

/// `s` sorted by descending sort key; the sort is stable, so cards of equal key
/// keep their order.
pub open spec fn sorted_desc(s: Seq<Card>) -> Seq<Card> {
    buckets_from(s, 0)
}

/// The face-up cards of `s`, in their order.
pub open spec fn face_up_cards(s: Seq<Card>) -> Seq<Card> {
    s.filter(|c: Card| c.face_up)
}

/// A hand of cards and the number of cards it may hold.
#[derive(Debug)]
pub struct Hand {
    /// The cards in the hand.
    pub cards: Vec<Card>,
    /// The number of cards the hand may hold.
    pub hand_limit: u8,
}

impl Hand {
    /// The number of cards the hand may hold.
    pub open spec fn limit(&self) -> u8 {
        self.hand_limit
    }

    /// A new empty hand that may hold `n` cards.
    pub fn new(n: u8) -> (r: Hand)
        ensures
            r.cards@ == Seq::<Card>::empty(),
            r.limit() == n,
    {
        Hand { cards: Vec::new(), hand_limit: n }
    }

    /// A hand holding the given cards, its limit their number (modulo 256).
    pub fn from_cards(cards: Vec<Card>) -> (r: Hand)
        ensures
            r.cards@ == cards@,
            r.limit() == cards@.len() % 256,
    {
        let hand_limit = (cards.len() % 256) as u8;
        Hand { cards, hand_limit }
    }

    /// The cards of the hand.
    pub fn get_hand_cards(&self) -> (r: &Vec<Card>)
        ensures
            r@ == self.cards@,
    {
        &self.cards
    }

    /// The number of cards the hand may hold.
    pub fn get_hand_limit(&self) -> (r: u8)
        ensures
            r == self.limit(),
    {
        self.hand_limit
    }

    /// The number of cards in the hand, as a byte (the length modulo 256).
    pub fn count(&self) -> (r: u8)
        ensures
            r == self.cards@.len() % 256,
    {
        (self.cards.len() % 256) as u8
    }

    /// Deals `n` cards from the top of the deck into the hand, each turned as
    /// `up` says; fails, changing nothing, when the hand would pass its limit or the
    /// deck holds fewer than `n` cards (counted modulo 256).
    fn draw_turned(&mut self, deck: &mut Deck, n: u8, up: bool) -> (r: Result<(), &'static str>)
        requires
            old(self).cards@.len() % 256 + n <= 255,
        ensures
            old(self).cards@.len() % 256 + n > old(self).limit() ==> r == Err::<(), &'static str>(HAND_LIMIT_ERROR)
                && *final(self) == *old(self) && final(deck)@ == old(deck)@,
            old(self).cards@.len() % 256 + n <= old(self).limit() && n > old(deck)@.len() % 256
                ==> r == Err::<(), &'static str>(DECK_LIMIT_ERROR) && *final(self) == *old(self)
                && final(deck)@ == old(deck)@,
            old(self).cards@.len() % 256 + n <= old(self).limit() && n <= old(deck)@.len() % 256
                ==> r == Ok::<(), &'static str>(())
                && final(self).cards@ == old(self).cards@ + dealt(old(deck)@, n as int, up)
                && final(self).limit() == old(self).limit()
                && final(deck)@ == old(deck)@.take(old(deck)@.len() - n),
    {
        if self.count() + n > self.get_hand_limit() {
            return Err(HAND_LIMIT_ERROR);
        }
        if n > deck.count() {
            return Err(DECK_LIMIT_ERROR);
        }
        let ghost old_cards = self.cards@;
        let ghost old_deck = deck@;
        let mut i: u8 = 0;
        while i < n
            invariant
                0 <= i <= n,
                n <= old_deck.len(),
                self.hand_limit == old(self).hand_limit,
                self.cards@ == old_cards + dealt(old_deck, i as int, up),
                deck@ == old_deck.take(old_deck.len() - i),
            decreases n - i,
        {
            match deck.deal_card() {
                Ok(card) => {
                    let mut c = card;
                    c.face_up = up;
                    self.cards.push(c);
                    proof {
                        assert(dealt(old_deck, i + 1, up) =~= dealt(old_deck, i as int, up).push(c));
                        assert(old_deck.take(old_deck.len() - i).drop_last()
                            =~= old_deck.take(old_deck.len() - (i + 1)));
                    }
                },
                Err(_) => {
                    return Err(DECK_LIMIT_ERROR);
                },
            }
            i = i + 1;
        }
        Ok(())
    }

    /// Deals `n` face-down cards from the top of the deck into the hand; fails,
    /// changing nothing, when the hand would pass its limit ("Hand limit exceeded") or
    /// the deck holds fewer than `n` cards ("Deck limit exceeded").
    pub fn draw(&mut self, deck: &mut Deck, n: u8) -> (r: Result<(), &'static str>)
        requires
            old(self).cards@.len() % 256 + n <= 255,
        ensures
            old(self).cards@.len() % 256 + n > old(self).limit() ==> r == Err::<(), &'static str>(HAND_LIMIT_ERROR)
                && *final(self) == *old(self) && final(deck)@ == old(deck)@,
            old(self).cards@.len() % 256 + n <= old(self).limit() && n > old(deck)@.len() % 256
                ==> r == Err::<(), &'static str>(DECK_LIMIT_ERROR) && *final(self) == *old(self)
                && final(deck)@ == old(deck)@,
            old(self).cards@.len() % 256 + n <= old(self).limit() && n <= old(deck)@.len() % 256
                ==> r == Ok::<(), &'static str>(())
                && final(self).cards@ == old(self).cards@ + dealt(old(deck)@, n as int, false)
                && final(self).limit() == old(self).limit()
                && final(deck)@ == old(deck)@.take(old(deck)@.len() - n),
    {
        self.draw_turned(deck, n, false)
    }

    /// Deals `n` face-up cards from the top of the deck into the hand, failing as
    /// `draw` does.
    pub fn draw_face_up(&mut self, deck: &mut Deck, n: u8) -> (r: Result<(), &'static str>)
        requires
            old(self).cards@.len() % 256 + n <= 255,
        ensures
            old(self).cards@.len() % 256 + n > old(self).limit() ==> r == Err::<(), &'static str>(HAND_LIMIT_ERROR)
                && *final(self) == *old(self) && final(deck)@ == old(deck)@,
            old(self).cards@.len() % 256 + n <= old(self).limit() && n > old(deck)@.len() % 256
                ==> r == Err::<(), &'static str>(DECK_LIMIT_ERROR) && *final(self) == *old(self)
                && final(deck)@ == old(deck)@,
            old(self).cards@.len() % 256 + n <= old(self).limit() && n <= old(deck)@.len() % 256
                ==> r == Ok::<(), &'static str>(())
                && final(self).cards@ == old(self).cards@ + dealt(old(deck)@, n as int, true)
                && final(self).limit() == old(self).limit()
                && final(deck)@ == old(deck)@.take(old(deck)@.len() - n),
    {
        self.draw_turned(deck, n, true)
    }

    /// A new hand of the face-up cards of this hand, in order, its limit their number.
    pub fn get_face_up_cards(&self) -> (r: Hand)
        requires
            face_up_cards(self.cards@).len() <= 255,
        ensures
            r.cards@ == face_up_cards(self.cards@),
            r.limit() == face_up_cards(self.cards@).len(),
    {
        let mut up: Vec<Card> = Vec::new();
        let mut i: usize = 0;
        while i < self.cards.len()
            invariant
                0 <= i <= self.cards@.len(),
                up@ == face_up_cards(self.cards@.take(i as int)),
            decreases self.cards@.len() - i,
        {
            let c = self.cards[i];
            proof {
                assert(self.cards@.take(i + 1) =~= self.cards@.take(i as int).push(c));
                self.cards@.take(i as int).lemma_filter_push(c, |c: Card| c.face_up);
            }
            if c.face_up {
                up.push(c);
            }
            i = i + 1;
        }
        assert(self.cards@.take(self.cards@.len() as int) =~= self.cards@);
        let n = up.len() as u8;
        Hand { cards: up, hand_limit: n }
    }

    /// Removes the card at position `n`; fails with "Index error", changing nothing,
    /// when `n` is not below the count of cards.
    pub fn discard(&mut self, n: u8) -> (r: Result<(), &'static str>)
        ensures
            n < old(self).cards@.len() % 256 ==> r == Ok::<(), &'static str>(())
                && final(self).cards@ == old(self).cards@.remove(n as int)
                && final(self).limit() == old(self).limit(),
            n >= old(self).cards@.len() % 256 ==> r == Err::<(), &'static str>(INDEX_ERROR)
                && *final(self) == *old(self),
    {
        if n < self.count() {
            self.cards.remove(n as usize);
            Ok(())
        } else {
            Err(INDEX_ERROR)
        }
    }

    /// Discards cards from the front of the hand as many times as the hand's count
    /// says; every hand of fewer than 256 cards ends empty.
    pub fn discard_hand(&mut self)
        ensures
            final(self).cards@ == old(self).cards@.skip((old(self).cards@.len() % 256) as int),
            final(self).limit() == old(self).limit(),
    {
        let k = self.count();
        let ghost old_cards = self.cards@;
        let mut i: u8 = 0;
        while i < k
            invariant
                0 <= i <= k,
                k == old_cards.len() % 256,
                self.cards@ == old_cards.skip(i as int),
                self.hand_limit == old(self).hand_limit,
            decreases k - i,
        {
            assert((old_cards.len() - i) % 256 == k - i);
            let _ = self.discard(0);
            assert(old_cards.skip(i as int).remove(0) =~= old_cards.skip(i + 1));
            i = i + 1;
        }
    }

    /// Adds the given card to the end of the hand, whatever the limit.
    pub fn cheat(&mut self, c: Card)
        ensures
            final(self).cards@ == old(self).cards@.push(c),
            final(self).limit() == old(self).limit(),
    {
        self.cards.push(c);
    }
}


/// Splitting a filter by two predicates that never hold together adds their lengths.
proof fn lemma_filter_split(
    s: Seq<Card>,
    p: spec_fn(Card) -> bool,
    q: spec_fn(Card) -> bool,
    r: spec_fn(Card) -> bool,
)
    requires
        forall|c: Card| #[trigger] r(c) == (p(c) || q(c)),
        forall|c: Card| !(#[trigger] p(c) && q(c)),
    ensures
        s.filter(r).len() == s.filter(p).len() + s.filter(q).len(),
    decreases s.len(),
{
    reveal(Seq::filter);
    if s.len() > 0 {
        lemma_filter_split(s.drop_last(), p, q, r);
    }
}

/// A filter whose predicate holds of every element keeps them all; one whose
/// predicate holds of none keeps none.
proof fn lemma_filter_all_or_none(s: Seq<Card>, p: spec_fn(Card) -> bool)
    ensures
        (forall|i: int| 0 <= i < s.len() ==> #[trigger] p(s[i])) ==> s.filter(p) == s,
        (forall|i: int| 0 <= i < s.len() ==> !#[trigger] p(s[i])) ==> s.filter(p).len() == 0,
    decreases s.len(),
{
    reveal(Seq::filter);
    if s.len() > 0 {
        lemma_filter_all_or_none(s.drop_last(), p);
        if forall|i: int| 0 <= i < s.len() ==> #[trigger] p(s[i]) {
            assert forall|i: int| 0 <= i < s.drop_last().len() implies #[trigger] p(s.drop_last()[i]) by {
                assert(s.drop_last()[i] == s[i]);
            }
            assert(s.drop_last().push(s.last()) =~= s);
        }
        if forall|i: int| 0 <= i < s.len() ==> !#[trigger] p(s[i]) {
            assert forall|i: int| 0 <= i < s.drop_last().len() implies !#[trigger] p(s.drop_last()[i]) by {
                assert(s.drop_last()[i] == s[i]);
            }
            assert(!p(s[s.len() - 1]));
        }
    }
}

/// Every card has a sort key between 0 and 144.
proof fn lemma_sort_key_range(c: Card)
    ensures
        0 <= sort_key(c) <= 144,
{
    crate::card::lemma_value_num(c.value);
}

/// The buckets from key `k` up hold exactly the cards whose key is at least `k`.
proof fn lemma_buckets_len(s: Seq<Card>, k: int)
    requires
        0 <= k,
    ensures
        buckets_from(s, k).len() == s.filter(|c: Card| sort_key(c) >= k).len(),
    decreases 145 - k,
{
    if k > 144 {
        let p = |c: Card| sort_key(c) >= k;
        assert forall|i: int| 0 <= i < s.len() implies !#[trigger] p(s[i]) by {
            lemma_sort_key_range(s[i]);
        }
        lemma_filter_all_or_none(s, p);
    } else {
        lemma_buckets_len(s, k + 1);
        lemma_filter_split(
            s,
            |c: Card| sort_key(c) >= k + 1,
            |c: Card| sort_key(c) == k,
            |c: Card| sort_key(c) >= k,
        );
    }
}

/// Sorting a hand keeps its number of cards.
pub proof fn lemma_sorted_desc_len(s: Seq<Card>)
    ensures
        sorted_desc(s).len() == s.len(),
{
    lemma_buckets_len(s, 0);
    let p = |c: Card| sort_key(c) >= 0;
    assert forall|i: int| 0 <= i < s.len() implies #[trigger] p(s[i]) by {
        lemma_sort_key_range(s[i]);
    }
    lemma_filter_all_or_none(s, p);
}

/// Splitting a filter by two predicates that never hold together adds their
/// multisets.
proof fn lemma_filter_split_multiset(
    s: Seq<Card>,
    p: spec_fn(Card) -> bool,
    q: spec_fn(Card) -> bool,
    r: spec_fn(Card) -> bool,
)
    requires
        forall|c: Card| #[trigger] r(c) == (p(c) || q(c)),
        forall|c: Card| !(#[trigger] p(c) && q(c)),
    ensures
        s.filter(r).to_multiset() == s.filter(p).to_multiset().add(s.filter(q).to_multiset()),
    decreases s.len(),
{
    broadcast use vstd::seq_lib::group_to_multiset_ensures;
    broadcast use vstd::multiset::group_multiset_axioms;

    if s.len() == 0 {
        assert(s.filter(r) =~= Seq::<Card>::empty());
        assert(s.filter(p) =~= Seq::<Card>::empty());
        assert(s.filter(q) =~= Seq::<Card>::empty());
        assert(Seq::<Card>::empty().to_multiset() =~= vstd::multiset::Multiset::<Card>::empty());
        assert(s.filter(r).to_multiset() =~= s.filter(p).to_multiset().add(s.filter(q).to_multiset()));
    } else {
        let t = s.drop_last();
        let x = s.last();
        lemma_filter_split_multiset(t, p, q, r);
        assert(t.push(x) =~= s);
        t.lemma_filter_push(x, p);
        t.lemma_filter_push(x, q);
        t.lemma_filter_push(x, r);
        assert(s.filter(r).to_multiset() =~= s.filter(p).to_multiset().add(s.filter(q).to_multiset()));
    }
}

/// Every card in the buckets from key `k` up has a key of at least `k`, the
/// buckets run in descending key order, and they hold exactly the cards of key at
/// least `k`.
proof fn lemma_buckets_ordered(s: Seq<Card>, k: int)
    requires
        0 <= k <= 145,
    ensures
        forall|i: int| 0 <= i < buckets_from(s, k).len() ==> sort_key(#[trigger] buckets_from(s, k)[i]) >= k,
        forall|i: int, j: int| 0 <= i < j < buckets_from(s, k).len()
            ==> sort_key(#[trigger] buckets_from(s, k)[i]) >= sort_key(#[trigger] buckets_from(s, k)[j]),
        buckets_from(s, k).to_multiset() == s.filter(|c: Card| sort_key(c) >= k).to_multiset(),
    decreases 145 - k,
{
    broadcast use vstd::seq_lib::group_to_multiset_ensures;
    broadcast use vstd::multiset::group_multiset_axioms;

    if k > 144 {
        let ge = |c: Card| sort_key(c) >= k;
        assert forall|i: int| 0 <= i < s.len() implies !#[trigger] ge(s[i]) by {
            lemma_sort_key_range(s[i]);
        }
        lemma_filter_all_or_none(s, ge);
        assert(s.filter(ge) =~= Seq::<Card>::empty());
        assert(buckets_from(s, k) =~= Seq::<Card>::empty());
    } else {
        lemma_buckets_ordered(s, k + 1);
        let b1 = buckets_from(s, k + 1);
        let b2 = key_bucket(s, k);
        let b = buckets_from(s, k);
        assert(b == b1 + b2);
        assert forall|i: int| 0 <= i < b2.len() implies sort_key(#[trigger] b2[i]) == k by {
            s.lemma_filter_pred(|c: Card| sort_key(c) == k, i);
        }
        assert forall|i: int| 0 <= i < b.len() implies sort_key(#[trigger] b[i]) >= k by {
            if i < b1.len() {
                assert(b[i] == b1[i]);
            } else {
                assert(b[i] == b2[i - b1.len()]);
            }
        }
        assert forall|i: int, j: int| 0 <= i < j < b.len()
            implies sort_key(#[trigger] b[i]) >= sort_key(#[trigger] b[j]) by {
            if j < b1.len() {
                assert(b[i] == b1[i] && b[j] == b1[j]);
            } else if i < b1.len() {
                assert(b[i] == b1[i] && b[j] == b2[j - b1.len()]);
            } else {
                assert(b[i] == b2[i - b1.len()] && b[j] == b2[j - b1.len()]);
            }
        }
        vstd::seq_lib::lemma_multiset_commutative(b1, b2);
        lemma_filter_split_multiset(
            s,
            |c: Card| sort_key(c) >= k + 1,
            |c: Card| sort_key(c) == k,
            |c: Card| sort_key(c) >= k,
        );
    }
}

/// Sorting a hand keeps exactly its cards and puts them in descending order of
/// value, then suit.
pub proof fn lemma_sort_orders_hand(s: Seq<Card>)
    ensures
        sorted_desc(s).to_multiset() == s.to_multiset(),
        forall|i: int, j: int| 0 <= i < j < sorted_desc(s).len()
            ==> sort_key(#[trigger] sorted_desc(s)[i]) >= sort_key(#[trigger] sorted_desc(s)[j]),
{
    lemma_buckets_ordered(s, 0);
    let p = |c: Card| sort_key(c) >= 0;
    assert forall|i: int| 0 <= i < s.len() implies #[trigger] p(s[i]) by {
        lemma_sort_key_range(s[i]);
    }
    lemma_filter_all_or_none(s, p);
}

/// After sorting, the first card holds the largest value of the hand and the last
/// card the smallest: no card of the hand has a higher value than the first or a
/// lower one than the last, and both are cards of the hand.
pub proof fn lemma_sorted_ends_are_extremes(s: Seq<Card>)
    requires
        s.len() > 0,
    ensures
        s.contains(sorted_desc(s)[0]),
        s.contains(sorted_desc(s).last()),
        forall|i: int| 0 <= i < s.len() ==> sorted_desc(s)[0].value.num() >= #[trigger] s[i].value.num()
            && s[i].value.num() >= sorted_desc(s).last().value.num(),
{
    broadcast use vstd::seq_lib::group_to_multiset_ensures;

    let t = sorted_desc(s);
    lemma_sorted_desc_len(s);
    lemma_sort_orders_hand(s);
    let n = t.len() as int;
    assert(t.contains(t[0]));
    assert(t.to_multiset().count(t[0]) > 0);
    assert(t.contains(t[n - 1]));
    assert(t.to_multiset().count(t[n - 1]) > 0);
    assert(t.last() == t[n - 1]);
    assert forall|i: int| 0 <= i < s.len() implies t[0].value.num() >= #[trigger] s[i].value.num()
        && s[i].value.num() >= t.last().value.num() by {
        assert(s.contains(s[i]));
        assert(s.to_multiset().count(s[i]) > 0);
        assert(t.contains(s[i]));
        let j = choose|j: int| 0 <= j < t.len() && t[j] == s[i];
        if 0 < j {
            assert(sort_key(t[0]) >= sort_key(t[j]));
        }
        if j < n - 1 {
            assert(sort_key(t[j]) >= sort_key(t[n - 1]));
        }
        assert(sort_key(t[0]) >= sort_key(s[i]));
        assert(sort_key(s[i]) >= sort_key(t[n - 1]));
    }
}

impl Hand {
    /// Sorts the hand by descending sort key (value, then suit); cards of equal key
    /// keep their order.
    pub fn sort(&mut self)
        ensures
            final(self).cards@ == sorted_desc(old(self).cards@),
            final(self).limit() == old(self).limit(),
    {
        let ghost s = self.cards@;
        let mut out: Vec<Card> = Vec::new();
        let mut k: u8 = 145;
        while k > 0
            invariant
                k <= 145,
                self.cards@ == s,
                out@ == buckets_from(s, k as int),
            decreases k,
        {
            k = k - 1;
            let mut i: usize = 0;
            while i < self.cards.len()
                invariant
                    0 <= i <= self.cards@.len(),
                    k < 145,
                    self.cards@ == s,
                    out@ == buckets_from(s, k + 1) + key_bucket(s.take(i as int), k as int),
                decreases self.cards@.len() - i,
            {
                let c = self.cards[i];
                proof {
                    assert(s.take(i + 1) =~= s.take(i as int).push(c));
                    s.take(i as int).lemma_filter_push(c, |c: Card| sort_key(c) == k);
                    crate::card::lemma_value_num(c.value);
                }
                let key: u8 = c.value.as_u8() * 10 + c.suit.as_u8();
                if key == k {
                    out.push(c);
                }
                i = i + 1;
            }
            assert(s.take(s.len() as int) =~= s);
        }
        self.cards = out;
    }

    /// Sorts the hand and gives the value of its first card, the card of highest
    /// sort key.
    pub fn get_largest_value(&mut self) -> (r: Value)
        requires
            old(self).cards@.len() > 0,
        ensures
            final(self).cards@ == sorted_desc(old(self).cards@),
            final(self).limit() == old(self).limit(),
            r == sorted_desc(old(self).cards@)[0].value,
    {
        proof { lemma_sorted_desc_len(self.cards@); }
        self.sort();
        self.cards[0].get_value()
    }

    /// Sorts the hand and gives the value of its last card, the card of lowest
    /// sort key.
    pub fn get_smallest_value(&mut self) -> (r: Value)
        requires
            old(self).cards@.len() > 0,
        ensures
            final(self).cards@ == sorted_desc(old(self).cards@),
            final(self).limit() == old(self).limit(),
            r == sorted_desc(old(self).cards@).last().value,
    {
        proof { lemma_sorted_desc_len(self.cards@); }
        self.sort();
        self.cards[self.cards.len() - 1].get_value()
    }
}

impl Clone for Hand {
    fn clone(&self) -> (r: Self)
        ensures
            r.cards@ == self.cards@,
            r.hand_limit == self.hand_limit,
    {
        let cards = self.cards.clone();
        assert(cards@ =~= self.cards@);
        Hand { cards, hand_limit: self.hand_limit }
    }
}

impl Default for Hand {
    fn default() -> (r: Self)
        ensures
            r.cards@ == Seq::<Card>::empty(),
            r.limit() == 0,
    {
        Hand { cards: Vec::new(), hand_limit: 0 }
    }
}

/// Two hands are equal when they hold the same cards (by value and suit) in the
/// same order; limits and which way the cards lie do not matter.
pub open spec fn same_cards(a: Seq<Card>, b: Seq<Card>) -> bool {
    a.len() == b.len() && forall|i: int| 0 <= i < a.len() ==> #[trigger] a[i].same_card(b[i])
}

impl PartialEq for Hand {
    fn eq(&self, other: &Self) -> (r: bool) {
        if self.cards.len() != other.cards.len() {
            return false;
        }
        let mut i: usize = 0;
        while i < self.cards.len()
            invariant
                0 <= i <= self.cards@.len(),
                self.cards@.len() == other.cards@.len(),
                forall|j: int| 0 <= j < i ==> #[trigger] self.cards@[j].same_card(other.cards@[j]),
            decreases self.cards@.len() - i,
        {
            if !(self.cards[i].value == other.cards[i].value && self.cards[i].suit == other.cards[i].suit) {
                assert(!self.cards@[i as int].same_card(other.cards@[i as int]));
                return false;
            }
            i = i + 1;
        }
        true
    }
}

impl PartialEqSpecImpl for Hand {
    open spec fn obeys_eq_spec() -> bool {
        true
    }

    open spec fn eq_spec(&self, other: &Hand) -> bool {
        same_cards(self.cards@, other.cards@)
    }
}

impl Eq for Hand {}

/// The text of a list of cards: each card's text, separated by a comma and a space.
pub open spec fn cards_text(cards: Seq<Card>) -> Seq<char>
    decreases cards.len(),
{
    if cards.len() == 0 {
        Seq::empty()
    } else if cards.len() == 1 {
        seq![cards[0].value.display_char(), cards[0].suit.display_char()]
    } else {
        cards_text(cards.drop_last()) + ", "@ + seq![cards.last().value.display_char(), cards.last().suit.display_char()]
    }
}

impl Hand {
    /// The text of the hand: each card's text, separated by a comma and a space.
    pub fn to_string(&self) -> (r: String)
        ensures
            r@ == cards_text(self.cards@),
    {
        let mut t = String::new();
        let mut i: usize = 0;
        while i < self.cards.len()
            invariant
                0 <= i <= self.cards@.len(),
                t@ == cards_text(self.cards@.take(i as int)),
            decreases self.cards@.len() - i,
        {
            let text = self.cards[i].to_string();
            assert(self.cards@.take(i + 1).drop_last() =~= self.cards@.take(i as int));
            if i > 0 {
                t = t.concat(", ");
            } else {
                assert(t@ =~= Seq::<char>::empty());
            }
            t = t.concat(text.as_str());
            i = i + 1;
        }
        assert(self.cards@.take(self.cards@.len() as int) =~= self.cards@);
        t
    }
}

} // verus!
