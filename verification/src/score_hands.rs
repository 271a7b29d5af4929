//! Scoring poker hands: what kind of hand five cards make, the values that rank a
//! hand within its kind, and the best hand that can be made from more cards.

use vstd::prelude::*;
use crate::card::{value_text, Card, Value};
use crate::counting::{
    count_distinct_values, count_values_with, count_where, distinct_values, find_run, has_run, occurrences, run_at,
    lemma_occurrences_empty, lemma_occurrences_push, lemma_sum_counts_congruent, lemma_sum_counts_len,
    values_of,
    value_count, value_counts, values_with_count,
};
use crate::hand::Hand;

verus! {

broadcast use vstd::seq_lib::group_filter_ensures;

/// The strength of a poker hand: its kind, and the five values that order hands of
/// that kind (most frequent values first, higher values first among equals).
#[derive(Debug, Clone, Copy, Hash)]
pub enum ScoredHand {
    StraightFlush([Value; 5]),
    FourOfAKind([Value; 5]),
    FullHouse([Value; 5]),
    Flush([Value; 5]),
    Straight([Value; 5]),
    ThreeOfAKind([Value; 5]),
    TwoPair([Value; 5]),
    OnePair([Value; 5]),
    HighCard([Value; 5]),
}

impl ScoredHand {
    /// The rank of the kind of hand: 10 for a straight flush down to 2 for a high
    /// card; a higher rank is a stronger kind.
    pub open spec fn rank_spec(self) -> u8 {
        match self {
            ScoredHand::StraightFlush(_) => 10,
            ScoredHand::FourOfAKind(_) => 9,
            ScoredHand::FullHouse(_) => 8,
            ScoredHand::Flush(_) => 7,
            ScoredHand::Straight(_) => 6,
            ScoredHand::ThreeOfAKind(_) => 5,
            ScoredHand::TwoPair(_) => 4,
            ScoredHand::OnePair(_) => 3,
            ScoredHand::HighCard(_) => 2,
        }
    }

    /// The five values the hand carries.
    pub open spec fn values(self) -> Seq<Value> {
        match self {
            ScoredHand::StraightFlush(a) => a@,
            ScoredHand::FourOfAKind(a) => a@,
            ScoredHand::FullHouse(a) => a@,
            ScoredHand::Flush(a) => a@,
            ScoredHand::Straight(a) => a@,
            ScoredHand::ThreeOfAKind(a) => a@,
            ScoredHand::TwoPair(a) => a@,
            ScoredHand::OnePair(a) => a@,
            ScoredHand::HighCard(a) => a@,
        }
    }

    /// The rank of the kind of hand, 10 for a straight flush down to 2 for a high card.
    pub fn rank(&self) -> (r: u8)
        ensures
            r == self.rank_spec(),
    {
        match self {
            ScoredHand::StraightFlush(_) => 10,
            ScoredHand::FourOfAKind(_) => 9,
            ScoredHand::FullHouse(_) => 8,
            ScoredHand::Flush(_) => 7,
            ScoredHand::Straight(_) => 6,
            ScoredHand::ThreeOfAKind(_) => 5,
            ScoredHand::TwoPair(_) => 4,
            ScoredHand::OnePair(_) => 3,
            ScoredHand::HighCard(_) => 2,
        }
    }

    /// The five values the hand carries.
    pub fn get_values(&self) -> (r: [Value; 5])
        ensures
            r@ == self.values(),
    {
        match self {
            ScoredHand::StraightFlush(a) => *a,
            ScoredHand::FourOfAKind(a) => *a,
            ScoredHand::FullHouse(a) => *a,
            ScoredHand::Flush(a) => *a,
            ScoredHand::Straight(a) => *a,
            ScoredHand::ThreeOfAKind(a) => *a,
            ScoredHand::TwoPair(a) => *a,
            ScoredHand::OnePair(a) => *a,
            ScoredHand::HighCard(a) => *a,
        }
    }
}

// ---------------------------------------------------------------------------
// What a hand is
// ---------------------------------------------------------------------------

/// All the cards share one suit (an empty hand counts as one).
pub open spec fn is_flush(cards: Seq<Card>) -> bool {
    forall|i: int, j: int|
        0 <= i < cards.len() && 0 <= j < cards.len() ==> #[trigger] cards[i].suit == #[trigger] cards[j].suit
}

/// Five cards of five consecutive values.
pub open spec fn is_straight(cards: Seq<Card>) -> bool {
    cards.len() == 5 && has_run(|v: int| value_count(cards, v) as int)
}

/// The count of value `v` once one ace of the cards is counted as a low ace.
pub open spec fn moved_count(cards: Seq<Card>, v: int) -> int {
    value_count(cards, v) - (if v == 14 { 1int } else { 0int }) + (if v == 1 { 1int } else { 0int })
}

/// Five cards holding an ace that make five consecutive values once one ace counts
/// as a low ace.
pub open spec fn is_straight_ace_low(cards: Seq<Card>) -> bool {
    cards.len() == 5 && value_count(cards, 14) >= 1 && has_run(|v: int| moved_count(cards, v))
}

/// Two values: one four times, one once.
pub open spec fn is_four_of_a_kind(cards: Seq<Card>) -> bool {
    distinct_values(cards) == 2 && values_with_count(cards, 4) == 1 && values_with_count(cards, 1) == 1
}

/// Two values: one three times, one twice.
pub open spec fn is_full_house(cards: Seq<Card>) -> bool {
    distinct_values(cards) == 2 && values_with_count(cards, 3) == 1 && values_with_count(cards, 2) == 1
}

/// Three values: one three times, two once.
pub open spec fn is_three_of_a_kind(cards: Seq<Card>) -> bool {
    distinct_values(cards) == 3 && values_with_count(cards, 3) == 1 && values_with_count(cards, 1) == 2
}

/// Three values: two twice, one once.
pub open spec fn is_two_pair(cards: Seq<Card>) -> bool {
    distinct_values(cards) == 3 && values_with_count(cards, 2) == 2 && values_with_count(cards, 1) == 1
}

/// Four values: one twice, three once.
pub open spec fn is_one_pair(cards: Seq<Card>) -> bool {
    distinct_values(cards) == 4 && values_with_count(cards, 2) == 1 && values_with_count(cards, 1) == 3
}

/// Five values, each once.
pub open spec fn is_high_card(cards: Seq<Card>) -> bool {
    distinct_values(cards) == 5 && values_with_count(cards, 1) == 5
}

/// The rank of the kind of hand five cards make, taking the first kind that fits in
/// the order straight flush (an ace-low one too), four of a kind, full house, flush,
/// straight (an ace-low one too), three of a kind, two pair, one pair, high card.
pub open spec fn hand_rank(cards: Seq<Card>) -> u8 {
    if is_flush(cards) && is_straight(cards) { 10 }
    else if is_flush(cards) && is_straight_ace_low(cards) { 10 }
    else if is_four_of_a_kind(cards) { 9 }
    else if is_full_house(cards) { 8 }
    else if is_flush(cards) { 7 }
    else if is_straight(cards) { 6 }
    else if is_straight_ace_low(cards) { 6 }
    else if is_three_of_a_kind(cards) { 5 }
    else if is_two_pair(cards) { 4 }
    else if is_one_pair(cards) { 3 }
    else { 2 }
}

/// The hand is scored as an ace-low straight (flush): its aces count low.
pub open spec fn uses_ace_low(cards: Seq<Card>) -> bool {
    &&& !(is_flush(cards) && is_straight(cards))
    &&& ((is_flush(cards) && is_straight_ace_low(cards)) || (!is_four_of_a_kind(cards)
        && !is_full_house(cards) && !is_flush(cards) && !is_straight(cards) && is_straight_ace_low(cards)))
}

/// The cards with every ace turned into a face-down low ace of the same suit.
pub open spec fn ace_low_cards(cards: Seq<Card>) -> Seq<Card> {
    cards.map_values(|c: Card| if c.value == Value::Ace {
        Card { value: Value::AceLow, suit: c.suit, face_up: false }
    } else {
        c
    })
}

/// The cards whose values a hand's score carries: the ace-low cards for an ace-low
/// straight (flush), the cards themselves otherwise.
pub open spec fn scoring_cards(cards: Seq<Card>) -> Seq<Card> {
    if uses_ace_low(cards) { ace_low_cards(cards) } else { cards }
}

/// Value `a` comes before value `b` in the power order of the cards: it occurs more
/// often, or as often and is at least as high.
pub open spec fn power_before(cards: Seq<Card>, a: Value, b: Value) -> bool {
    ||| value_count(cards, a.num() as int) > value_count(cards, b.num() as int)
    ||| (value_count(cards, a.num() as int) == value_count(cards, b.num() as int) && a.num() >= b.num())
}

/// `arr` holds the values of the cards (at most five) in power order, filled up with
/// low aces after them.
pub open spec fn is_power_sorting(cards: Seq<Card>, arr: Seq<Value>) -> bool {
    &&& arr.len() == 5
    &&& forall|v: int| 0 <= v < 15 ==> #[trigger] occurrences(arr.take(cards.len() as int), v) == value_count(cards, v)
    &&& forall|i: int, j: int| 0 <= i < j < cards.len() ==> power_before(cards, #[trigger] arr[i], #[trigger] arr[j])
    &&& forall|i: int| cards.len() <= i < 5 ==> #[trigger] arr[i] == Value::AceLow
}

/// `s` is the score of the five cards: the kind's rank and the values in power order.
pub open spec fn is_hand_score(cards: Seq<Card>, s: ScoredHand) -> bool {
    &&& s.rank_spec() == hand_rank(cards)
    &&& is_power_sorting(scoring_cards(cards), s.values())
}

// ---------------------------------------------------------------------------
// Recognising each kind of hand
// ---------------------------------------------------------------------------

/// Whether all the cards of the hand share one suit.
pub fn check_if_hand_flush(hand: &Hand) -> (r: bool)
    ensures
        r == is_flush(hand.cards@),
{
    let cards = &hand.cards;
    if cards.len() == 0 {
        return true;
    }
    let first = cards[0].suit;
    let mut i: usize = 1;
    while i < cards.len()
        invariant
            1 <= i <= cards@.len(),
            cards@ == hand.cards@,
            first == cards@[0].suit,
            forall|j: int| 0 <= j < i ==> #[trigger] cards@[j].suit == first,
        decreases cards@.len() - i,
    {
        if cards[i].suit != first {
            assert(!is_flush(hand.cards@)) by {
                assert(0 <= i < hand.cards@.len());
                assert(hand.cards@[0].suit != hand.cards@[i as int].suit);
            }
            return false;
        }
        i = i + 1;
    }
    assert forall|a: int, b: int| 0 <= a < cards@.len() && 0 <= b < cards@.len()
        implies #[trigger] cards@[a].suit == #[trigger] cards@[b].suit by {
        assert(cards@[a].suit == first);
        assert(cards@[b].suit == first);
    }
    true
}

/// Whether the hand is five cards of five consecutive values.
pub fn check_if_hand_straight(hand: &Hand) -> (r: bool)
    ensures
        r == is_straight(hand.cards@),
{
    if hand.cards.len() != 5 {
        return false;
    }
    let c = value_counts(&hand.cards);
    let ghost f = |v: int| value_count(hand.cards@, v) as int;
    find_run(&c, Ghost(f))
}

/// Whether the hand is five cards holding an ace that make five consecutive values
/// once an ace counts low.
pub fn check_if_hand_straight_ace_low(hand: &Hand) -> (r: bool)
    requires
        hand.cards@.len() >= 5,
    ensures
        r == is_straight_ace_low(hand.cards@),
{
    if hand.cards.len() != 5 {
        return false;
    }
    let mut c = value_counts(&hand.cards);
    if c[14] == 0 {
        return false;
    }
    let ghost f = |v: int| moved_count(hand.cards@, v);
    let aces = c[14];
    c.set(14, aces - 1);
    let low = c[1];
    c.set(1, low + 1);
    find_run(&c, Ghost(f))
}

/// Whether the hand is a flush and a straight.
pub fn check_if_hand_straight_flush(hand: &Hand) -> (r: bool)
    ensures
        r == (is_flush(hand.cards@) && is_straight(hand.cards@)),
{
    if !check_if_hand_flush(hand) {
        return false;
    } else if !check_if_hand_straight(hand) {
        return false;
    }
    true
}

/// Whether the hand is a flush and an ace-low straight.
pub fn check_if_hand_straight_flush_ace_low(hand: &Hand) -> (r: bool)
    requires
        is_flush(hand.cards@) ==> hand.cards@.len() >= 5,
    ensures
        r == (is_flush(hand.cards@) && is_straight_ace_low(hand.cards@)),
{
    if !check_if_hand_flush(hand) {
        return false;
    } else if !check_if_hand_straight_ace_low(hand) {
        return false;
    }
    true
}

/// Whether the hand holds two values, one four times and one once.
pub fn check_if_hand_four_of_a_kind(hand: &Hand) -> (r: bool)
    ensures
        r == is_four_of_a_kind(hand.cards@),
{
    let c = value_counts(&hand.cards);
    let ghost cs = hand.cards@;
    count_distinct_values(&c, Ghost(cs)) == 2 && count_values_with(&c, 4, Ghost(cs)) == 1
        && count_values_with(&c, 1, Ghost(cs)) == 1
}

/// Whether the hand holds two values, one three times and one twice.
pub fn check_if_hand_full_house(hand: &Hand) -> (r: bool)
    ensures
        r == is_full_house(hand.cards@),
{
    let c = value_counts(&hand.cards);
    let ghost cs = hand.cards@;
    count_distinct_values(&c, Ghost(cs)) == 2 && count_values_with(&c, 3, Ghost(cs)) == 1
        && count_values_with(&c, 2, Ghost(cs)) == 1
}

/// Whether the hand holds three values, one three times and two once.
pub fn check_if_hand_three_of_a_kind(hand: &Hand) -> (r: bool)
    ensures
        r == is_three_of_a_kind(hand.cards@),
{
    let c = value_counts(&hand.cards);
    let ghost cs = hand.cards@;
    count_distinct_values(&c, Ghost(cs)) == 3 && count_values_with(&c, 3, Ghost(cs)) == 1
        && count_values_with(&c, 1, Ghost(cs)) == 2
}

/// Whether the hand holds three values, two twice and one once.
pub fn check_if_hand_two_pair(hand: &Hand) -> (r: bool)
    ensures
        r == is_two_pair(hand.cards@),
{
    let c = value_counts(&hand.cards);
    let ghost cs = hand.cards@;
    count_distinct_values(&c, Ghost(cs)) == 3 && count_values_with(&c, 2, Ghost(cs)) == 2
        && count_values_with(&c, 1, Ghost(cs)) == 1
}

/// Whether the hand holds four values, one twice and three once.
pub fn check_if_hand_one_pair(hand: &Hand) -> (r: bool)
    ensures
        r == is_one_pair(hand.cards@),
{
    let c = value_counts(&hand.cards);
    let ghost cs = hand.cards@;
    count_distinct_values(&c, Ghost(cs)) == 4 && count_values_with(&c, 2, Ghost(cs)) == 1
        && count_values_with(&c, 1, Ghost(cs)) == 3
}

/// Whether the hand holds five values, each once.
pub fn check_if_hand_high_card(hand: &Hand) -> (r: bool)
    ensures
        r == is_high_card(hand.cards@),
{
    let c = value_counts(&hand.cards);
    let ghost cs = hand.cards@;
    count_distinct_values(&c, Ghost(cs)) == 5 && count_values_with(&c, 1, Ghost(cs)) == 5
}


// ---------------------------------------------------------------------------
// Power order
// ---------------------------------------------------------------------------

/// Whether value `x` is placed once the power order has reached count `k` and,
/// within it, value number `v`: it occurs more than `k` times, or `k` times with
/// number at least `v`.
pub open spec fn placed(cards: Seq<Card>, x: int, k: int, v: int) -> bool {
    value_count(cards, x) > k || (value_count(cards, x) == k && x >= v)
}

/// Appends `times` copies of `val` to `out`, keeping the power order.
fn push_copies(out: &mut Vec<Value>, val: Value, times: usize, Ghost(cards): Ghost<Seq<Card>>)
    requires
        times == value_count(cards, val.num() as int),
        times >= 1,
        forall|x: int| 0 <= x < 15 ==> #[trigger] occurrences(old(out)@, x)
            == if placed(cards, x, times as int, val.num() + 1) { value_count(cards, x) } else { 0 },
        forall|i: int| 0 <= i < old(out)@.len() ==> #[trigger] placed(cards, old(out)@[i].num() as int, times as int, val.num() + 1),
        forall|i: int, j: int| 0 <= i < j < old(out)@.len() ==> power_before(cards, #[trigger] old(out)@[i], #[trigger] old(out)@[j]),
    ensures
        forall|x: int| 0 <= x < 15 ==> #[trigger] occurrences(final(out)@, x)
            == if placed(cards, x, times as int, val.num() as int) { value_count(cards, x) } else { 0 },
        forall|i: int| 0 <= i < final(out)@.len() ==> #[trigger] placed(cards, final(out)@[i].num() as int, times as int, val.num() as int),
        forall|i: int, j: int| 0 <= i < j < final(out)@.len() ==> power_before(cards, #[trigger] final(out)@[i], #[trigger] final(out)@[j]),
{
    let ghost k = times as int;
    let ghost v = val.num() as int;
    proof {
        assert forall|i: int| 0 <= i < out@.len() implies #[trigger] placed(cards, out@[i].num() as int, k, v) by {
            assert(placed(cards, out@[i].num() as int, k, v + 1));
        }
    }
    let mut j: usize = 0;
    while j < times
        invariant
            0 <= j <= times,
            k == times,
            v == val.num(),
            times == value_count(cards, v),
            forall|x: int| 0 <= x < 15 && x != v ==> #[trigger] occurrences(out@, x)
                == if placed(cards, x, k, v) { value_count(cards, x) } else { 0 },
            occurrences(out@, v) == j,
            forall|i: int| 0 <= i < out@.len() ==> #[trigger] placed(cards, out@[i].num() as int, k, v),
            forall|i: int, jj: int| 0 <= i < jj < out@.len() ==> power_before(cards, #[trigger] out@[i], #[trigger] out@[jj]),
        decreases times - j,
    {
        proof {
            assert forall|x: int| 0 <= x < 15 implies #[trigger] occurrences(out@.push(val), x)
                == occurrences(out@, x) + if v == x { 1nat } else { 0nat } by {
                lemma_occurrences_push(out@, val, x);
            }
        }
        let ghost before = out@;
        out.push(val);
        proof {
            assert forall|i: int, jj: int| 0 <= i < jj < out@.len()
                implies power_before(cards, #[trigger] out@[i], #[trigger] out@[jj]) by {
                if jj == out@.len() - 1 {
                    assert(placed(cards, before[i].num() as int, k, v) || i == before.len());
                }
            }
            assert forall|i: int| 0 <= i < out@.len() implies #[trigger] placed(cards, out@[i].num() as int, k, v) by {
                if i < before.len() {
                    assert(out@[i] == before[i]);
                }
            }
        }
        j = j + 1;
    }
}

/// The values of the hand (at most five cards) in power order: values that occur
/// more often first, higher values first among those that occur equally often;
/// positions past the hand's cards hold low aces.
pub fn convert_hand_to_power_sorting(hand: &Hand) -> (arr: [Value; 5])
    requires
        hand.cards@.len() <= 5,
    ensures
        is_power_sorting(hand.cards@, arr@),
{
    let ghost cs = hand.cards@;
    let c = value_counts(&hand.cards);
    let mut out: Vec<Value> = Vec::new();
    proof {
        assert forall|x: int| 0 <= x < 15 implies #[trigger] occurrences(out@, x)
            == if placed(cs, x, 5, 15) { value_count(cs, x) } else { 0 } by {
            assert(out@ =~= Seq::<Value>::empty());
            lemma_occurrences_empty(x);
            assert(value_count(cs, x) <= values_of(cs).len());
        }
    }
    let mut k: usize = 5;
    while k > 0
        invariant
            0 <= k <= 5,
            cs == hand.cards@,
            cs.len() <= 5,
            c@.len() == 15,
            forall|v: int| 0 <= v < 15 ==> #[trigger] c@[v] == value_count(cs, v),
            forall|x: int| 0 <= x < 15 ==> #[trigger] occurrences(out@, x)
                == if placed(cs, x, k as int, 15) { value_count(cs, x) } else { 0 },
            forall|i: int| 0 <= i < out@.len() ==> #[trigger] placed(cs, out@[i].num() as int, k as int, 15),
            forall|i: int, j: int| 0 <= i < j < out@.len() ==> power_before(cs, #[trigger] out@[i], #[trigger] out@[j]),
        decreases k,
    {
        let mut v: usize = 15;
        while v > 0
            invariant
                0 <= v <= 15,
                1 <= k <= 5,
                cs == hand.cards@,
                cs.len() <= 5,
                c@.len() == 15,
                forall|w: int| 0 <= w < 15 ==> #[trigger] c@[w] == value_count(cs, w),
                forall|x: int| 0 <= x < 15 ==> #[trigger] occurrences(out@, x)
                    == if placed(cs, x, k as int, v as int) { value_count(cs, x) } else { 0 },
                forall|i: int| 0 <= i < out@.len() ==> #[trigger] placed(cs, out@[i].num() as int, k as int, v as int),
                forall|i: int, j: int| 0 <= i < j < out@.len() ==> power_before(cs, #[trigger] out@[i], #[trigger] out@[j]),
            decreases v,
        {
            v = v - 1;
            if c[v] == k {
                let val = Value::from_u8(v as u8);
                push_copies(&mut out, val, k, Ghost(cs));
            } else {
                proof {
                    assert forall|x: int| 0 <= x < 15 implies placed(cs, x, k as int, v + 1)
                        == placed(cs, x, k as int, v as int) by {}
                    assert forall|i: int| 0 <= i < out@.len() implies #[trigger] placed(cs, out@[i].num() as int, k as int, v as int) by {
                        assert(placed(cs, out@[i].num() as int, k as int, v + 1));
                    }
                }
            }
        }
        proof {
            assert forall|i: int| 0 <= i < out@.len() implies #[trigger] placed(cs, out@[i].num() as int, k - 1, 15) by {
                crate::card::lemma_value_num(out@[i]);
                assert(placed(cs, out@[i].num() as int, k as int, 0));
            }
            assert forall|x: int| 0 <= x < 15 implies #[trigger] occurrences(out@, x)
                == if placed(cs, x, k - 1, 15) { value_count(cs, x) } else { 0 } by {
                assert(placed(cs, x, k as int, 0) == placed(cs, x, k - 1, 15));
            }
        }
        k = k - 1;
    }
    proof {
        assert forall|x: int| 0 <= x < 15 implies #[trigger] occurrences(out@, x) == value_count(cs, x) by {
            assert(occurrences(out@, x) == if placed(cs, x, 0, 15) { value_count(cs, x) } else { 0 });
        }
        lemma_sum_counts_len(out@);
        lemma_sum_counts_len(values_of(cs));
        lemma_sum_counts_congruent(out@, values_of(cs), 15);
    }
    let n = out.len();
    let a0 = if n > 0 { out[0] } else { Value::AceLow };
    let a1 = if n > 1 { out[1] } else { Value::AceLow };
    let a2 = if n > 2 { out[2] } else { Value::AceLow };
    let a3 = if n > 3 { out[3] } else { Value::AceLow };
    let a4 = if n > 4 { out[4] } else { Value::AceLow };
    let arr = [a0, a1, a2, a3, a4];
    proof {
        assert(arr@ =~= seq![a0, a1, a2, a3, a4]);
        assert(arr@.take(n as int) =~= out@);
    }
    arr
}


// ---------------------------------------------------------------------------
// The score of five cards
// ---------------------------------------------------------------------------

/// A hand of five holding the hand's cards with every ace turned into a face-down
/// low ace of the same suit.
fn ace_low_hand(hand: &Hand) -> (r: Hand)
    ensures
        r.cards@ == ace_low_cards(hand.cards@),
        r.limit() == 5,
{
    let mut h = Hand::new(5);
    let mut i: usize = 0;
    while i < hand.cards.len()
        invariant
            0 <= i <= hand.cards@.len(),
            h.limit() == 5,
            h.cards@ == ace_low_cards(hand.cards@.take(i as int)),
        decreases hand.cards@.len() - i,
    {
        let card = hand.cards[i];
        if card.get_value() == Value::Ace {
            h.cheat(Card { value: Value::AceLow, suit: card.get_suit(), face_up: false });
        } else {
            h.cheat(card);
        }
        assert(ace_low_cards(hand.cards@.take(i + 1)) =~= ace_low_cards(hand.cards@.take(i as int)).push(
            h.cards@.last(),
        ));
        i = i + 1;
    }
    assert(hand.cards@.take(hand.cards@.len() as int) =~= hand.cards@);
    h
}

/// The score of a hand of exactly five cards: the first kind of hand that fits, in
/// the order straight flush (an ace-low one too), four of a kind, full house,
/// flush, straight (an ace-low one too), three of a kind, two pair, one pair, high
/// card, carrying the values in power order (aces low for an ace-low straight).
pub fn get_best_5_card_hand(hand: &Hand) -> (r: ScoredHand)
    requires
        hand.cards@.len() == 5,
    ensures
        is_hand_score(hand.cards@, r),
{
    if check_if_hand_straight_flush(hand) {
        ScoredHand::StraightFlush(convert_hand_to_power_sorting(hand))
    } else if check_if_hand_straight_flush_ace_low(hand) {
        let low = ace_low_hand(hand);
        ScoredHand::StraightFlush(convert_hand_to_power_sorting(&low))
    } else if check_if_hand_four_of_a_kind(hand) {
        ScoredHand::FourOfAKind(convert_hand_to_power_sorting(hand))
    } else if check_if_hand_full_house(hand) {
        ScoredHand::FullHouse(convert_hand_to_power_sorting(hand))
    } else if check_if_hand_flush(hand) {
        ScoredHand::Flush(convert_hand_to_power_sorting(hand))
    } else if check_if_hand_straight(hand) {
        ScoredHand::Straight(convert_hand_to_power_sorting(hand))
    } else if check_if_hand_straight_ace_low(hand) {
        let low = ace_low_hand(hand);
        ScoredHand::Straight(convert_hand_to_power_sorting(&low))
    } else if check_if_hand_three_of_a_kind(hand) {
        ScoredHand::ThreeOfAKind(convert_hand_to_power_sorting(hand))
    } else if check_if_hand_two_pair(hand) {
        ScoredHand::TwoPair(convert_hand_to_power_sorting(hand))
    } else if check_if_hand_one_pair(hand) {
        ScoredHand::OnePair(convert_hand_to_power_sorting(hand))
    } else {
        ScoredHand::HighCard(convert_hand_to_power_sorting(hand))
    }
}

// ---------------------------------------------------------------------------
// Ordering scores
// ---------------------------------------------------------------------------

/// The positions of the values that decide between two hands of the same kind,
/// most significant first.
pub open spec fn compare_positions(rank: u8) -> Seq<int> {
    if rank == 10 { seq![0] }
    else if rank == 9 { seq![0, 4] }
    else if rank == 8 { seq![0, 3, 4] }
    else if rank == 7 { seq![0, 1, 2, 3, 4] }
    else if rank == 6 { seq![0] }
    else if rank == 5 { seq![0, 3, 4] }
    else if rank == 4 { seq![0, 2, 4] }
    else if rank == 3 { seq![0, 2, 3, 4] }
    else { seq![0, 1, 2, 3, 4] }
}

/// Compares two runs of values at the given positions, the first position that
/// differs deciding: 1 when `a` is higher there, -1 when lower, 0 when all agree.
pub open spec fn lex_order(a: Seq<Value>, b: Seq<Value>, pos: Seq<int>) -> int
    decreases pos.len(),
{
    if pos.len() == 0 {
        0
    } else if a[pos[0]].num() > b[pos[0]].num() {
        1
    } else if a[pos[0]].num() < b[pos[0]].num() {
        -1
    } else {
        lex_order(a, b, pos.drop_first())
    }
}

/// Compares two scores: the stronger kind wins; within a kind the deciding values
/// are compared in turn. 1 when `a` is stronger, -1 when weaker, 0 when equal.
pub open spec fn score_order(a: ScoredHand, b: ScoredHand) -> int {
    if a.rank_spec() > b.rank_spec() {
        1
    } else if a.rank_spec() < b.rank_spec() {
        -1
    } else {
        lex_order(a.values(), b.values(), compare_positions(a.rank_spec()))
    }
}

/// The deciding positions of a kind, as indexes.
fn positions_for(rank: u8) -> (r: Vec<usize>)
    ensures
        r@.len() == compare_positions(rank).len(),
        forall|j: int| 0 <= j < r@.len() ==> #[trigger] r@[j] as int == compare_positions(rank)[j],
        forall|j: int| 0 <= j < r@.len() ==> #[trigger] r@[j] < 5,
{
    let mut r: Vec<usize> = Vec::new();
    if rank == 10 || rank == 6 {
        r.push(0);
    } else if rank == 9 {
        r.push(0);
        r.push(4);
    } else if rank == 8 || rank == 5 {
        r.push(0);
        r.push(3);
        r.push(4);
    } else if rank == 4 {
        r.push(0);
        r.push(2);
        r.push(4);
    } else if rank == 3 {
        r.push(0);
        r.push(2);
        r.push(3);
        r.push(4);
    } else {
        r.push(0);
        r.push(1);
        r.push(2);
        r.push(3);
        r.push(4);
    }
    r
}

/// Compares two scores as `score_order` does: 1 when `a` is the stronger hand, -1 when
/// the weaker, 0 when they are equal.
pub fn compare_scores(a: &ScoredHand, b: &ScoredHand) -> (r: i8)
    ensures
        r == score_order(*a, *b),
{
    let ra = a.rank();
    let rb = b.rank();
    if ra > rb {
        return 1;
    }
    if ra < rb {
        return -1;
    }
    let pos = positions_for(ra);
    let va = a.get_values();
    let vb = b.get_values();
    let ghost p = compare_positions(ra);
    assert(p.skip(0) =~= p);
    let mut i: usize = 0;
    while i < pos.len()
        invariant
            0 <= i <= pos@.len(),
            pos@.len() == p.len(),
            forall|j: int| 0 <= j < pos@.len() ==> #[trigger] pos@[j] as int == p[j],
            forall|j: int| 0 <= j < pos@.len() ==> #[trigger] pos@[j] < 5,
            va@.len() == 5,
            vb@.len() == 5,
            va@ == a.values(),
            vb@ == b.values(),
            a.rank_spec() == b.rank_spec(),
            p == compare_positions(a.rank_spec()),
            lex_order(va@, vb@, p) == lex_order(va@, vb@, p.skip(i as int)),
        decreases pos@.len() - i,
    {
        let at = pos[i];
        let x = va[at].as_u8();
        let y = vb[at].as_u8();
        let ghost q = p.skip(i as int);
        assert(q.len() > 0);
        assert(q[0] == at as int);
        assert(q.drop_first() =~= p.skip(i + 1));
        assert(va@[at as int].num() == x);
        assert(vb@[at as int].num() == y);
        if x > y {
            return 1;
        }
        if x < y {
            return -1;
        }
        i = i + 1;
    }
    assert(p.skip(i as int).len() == 0);
    0
}

/// Comparing at the same positions the other way round flips the sign.
proof fn lemma_lex_order_antisymmetric(a: Seq<Value>, b: Seq<Value>, pos: Seq<int>)
    ensures
        lex_order(a, b, pos) == -lex_order(b, a, pos),
    decreases pos.len(),
{
    if pos.len() > 0 {
        lemma_lex_order_antisymmetric(a, b, pos.drop_first());
    }
}

/// Comparing values at the same positions is transitive.
proof fn lemma_lex_order_transitive(a: Seq<Value>, b: Seq<Value>, c: Seq<Value>, pos: Seq<int>)
    requires
        lex_order(a, b, pos) >= 0,
        lex_order(b, c, pos) >= 0,
    ensures
        lex_order(a, c, pos) >= 0,
        lex_order(a, b, pos) > 0 || lex_order(b, c, pos) > 0 ==> lex_order(a, c, pos) > 0,
    decreases pos.len(),
{
    if pos.len() > 0 {
        if a[pos[0]].num() == b[pos[0]].num() && b[pos[0]].num() == c[pos[0]].num() {
            lemma_lex_order_transitive(a, b, c, pos.drop_first());
        }
    }
}

/// A run of values compared with itself is equal.
proof fn lemma_lex_order_reflexive(a: Seq<Value>, pos: Seq<int>)
    ensures
        lex_order(a, a, pos) == 0,
    decreases pos.len(),
{
    if pos.len() > 0 {
        lemma_lex_order_reflexive(a, pos.drop_first());
    }
}

/// Every score is equal to itself.
pub proof fn lemma_score_order_reflexive(a: ScoredHand)
    ensures
        score_order(a, a) == 0,
{
    lemma_lex_order_reflexive(a.values(), compare_positions(a.rank_spec()));
}

/// Comparing two scores the other way round gives the opposite answer.
pub proof fn lemma_score_order_antisymmetric(a: ScoredHand, b: ScoredHand)
    ensures
        score_order(a, b) == -score_order(b, a),
{
    lemma_lex_order_antisymmetric(a.values(), b.values(), compare_positions(a.rank_spec()));
}

/// If `a` is at least as strong as `b`, and `b` at least as strong as `c`, then `a`
/// is at least as strong as `c`; strictly so when either step is strict.
pub proof fn lemma_score_order_transitive(a: ScoredHand, b: ScoredHand, c: ScoredHand)
    requires
        score_order(a, b) >= 0,
        score_order(b, c) >= 0,
    ensures
        score_order(a, c) >= 0,
        score_order(a, b) > 0 || score_order(b, c) > 0 ==> score_order(a, c) > 0,
{
    if a.rank_spec() == b.rank_spec() && b.rank_spec() == c.rank_spec() {
        lemma_lex_order_transitive(a.values(), b.values(), c.values(), compare_positions(a.rank_spec()));
    }
}

/// The values a score of the given rank carries repeat as the kind's cards do: four
/// alike first for four of a kind; three alike and then two alike for a full house;
/// three alike first for three of a kind; two pairs first for two pair; a pair first
/// for one pair; values falling one at a time for a straight (flush); any values for
/// a flush or a high card hand.
pub open spec fn has_kind_shape(rank: u8, v: Seq<Value>) -> bool {
    &&& v.len() == 5
    &&& rank == 9 ==> v[0] == v[1] && v[1] == v[2] && v[2] == v[3]
    &&& rank == 8 ==> v[0] == v[1] && v[1] == v[2] && v[3] == v[4]
    &&& rank == 5 ==> v[0] == v[1] && v[1] == v[2]
    &&& rank == 4 ==> v[0] == v[1] && v[2] == v[3]
    &&& rank == 3 ==> v[0] == v[1]
    &&& (rank == 10 || rank == 6) ==> forall|i: int| 0 <= i < 5 ==> #[trigger] v[i].num() == v[0].num() - i
}

/// Within a kind, hands compare value by value from the first: for two scores of the
/// same rank whose values have that kind's shape, the first of the five values that
/// differs decides, the higher value winning; they tie when all five agree.
pub proof fn lemma_same_kind_compares_in_order(a: ScoredHand, b: ScoredHand)
    requires
        a.rank_spec() == b.rank_spec(),
        has_kind_shape(a.rank_spec(), a.values()),
        has_kind_shape(b.rank_spec(), b.values()),
    ensures
        score_order(a, b) == lex_order(a.values(), b.values(), seq![0int, 1, 2, 3, 4]),
{
    let va = a.values();
    let vb = b.values();
    reveal_with_fuel(lex_order, 6);
    let full = seq![0int, 1, 2, 3, 4];
    assert(full.drop_first() =~= seq![1int, 2, 3, 4]);
    assert(full.drop_first().drop_first() =~= seq![2int, 3, 4]);
    assert(full.drop_first().drop_first().drop_first() =~= seq![3int, 4]);
    assert(full.drop_first().drop_first().drop_first().drop_first() =~= seq![4int]);
    assert(seq![4int].drop_first() =~= Seq::<int>::empty());
    let r = a.rank_spec();
    let pos = compare_positions(r);
    if r == 10 || r == 6 {
        assert(pos =~= seq![0int]);
        assert(seq![0int].drop_first() =~= Seq::<int>::empty());
        assert(va[1].num() == va[0].num() - 1 && va[2].num() == va[0].num() - 2 && va[3].num() == va[0].num() - 3
            && va[4].num() == va[0].num() - 4);
        assert(vb[1].num() == vb[0].num() - 1 && vb[2].num() == vb[0].num() - 2 && vb[3].num() == vb[0].num() - 3
            && vb[4].num() == vb[0].num() - 4);
    } else if r == 9 {
        assert(pos =~= seq![0int, 4]);
        assert(seq![0int, 4].drop_first() =~= seq![4int]);
    } else if r == 8 || r == 5 {
        assert(pos =~= seq![0int, 3, 4]);
        assert(seq![0int, 3, 4].drop_first() =~= seq![3int, 4]);
        assert(seq![3int, 4].drop_first() =~= seq![4int]);
    } else if r == 4 {
        assert(pos =~= seq![0int, 2, 4]);
        assert(seq![0int, 2, 4].drop_first() =~= seq![2int, 4]);
        assert(seq![2int, 4].drop_first() =~= seq![4int]);
    } else if r == 3 {
        assert(pos =~= seq![0int, 2, 3, 4]);
        assert(seq![0int, 2, 3, 4].drop_first() =~= seq![2int, 3, 4]);
    } else {
        assert(pos =~= full);
    }
}

/// A hand of a stronger kind beats any hand of a weaker kind, whatever the values.
pub proof fn lemma_stronger_kind_wins(a: ScoredHand, b: ScoredHand)
    requires
        a.rank_spec() > b.rank_spec(),
    ensures
        score_order(a, b) == 1,
{
}

/// Whether five cards make a hand of the kind of the given rank: a straight flush
/// (10) is a flush that is a straight, ace high or ace low; four of a kind (9); a
/// full house (8); a flush (7); a straight (6), ace high or ace low; three of a
/// kind (5); two pair (4); one pair (3); any five cards make a high card hand (2).
pub open spec fn makes_kind(cards: Seq<Card>, rank: u8) -> bool {
    if rank == 10 { is_flush(cards) && (is_straight(cards) || is_straight_ace_low(cards)) }
    else if rank == 9 { is_four_of_a_kind(cards) }
    else if rank == 8 { is_full_house(cards) }
    else if rank == 7 { is_flush(cards) }
    else if rank == 6 { is_straight(cards) || is_straight_ace_low(cards) }
    else if rank == 5 { is_three_of_a_kind(cards) }
    else if rank == 4 { is_two_pair(cards) }
    else if rank == 3 { is_one_pair(cards) }
    else { rank == 2 }
}

/// Five cards score as the strongest kind of hand they make: they make the kind of
/// their score, and they make no kind of a higher rank.
pub proof fn lemma_score_is_strongest_kind(cards: Seq<Card>, s: ScoredHand)
    requires
        is_hand_score(cards, s),
    ensures
        makes_kind(cards, s.rank_spec()),
        forall|r: u8| #[trigger] makes_kind(cards, r) ==> r <= s.rank_spec(),
{
}

// ---------------------------------------------------------------------------
// The ace-low straight
// ---------------------------------------------------------------------------

/// One of the values of an ace-low straight: ace, two, three, four or five.
pub open spec fn is_wheel_value(v: Value) -> bool {
    v == Value::Ace || v == Value::Two || v == Value::Three || v == Value::Four || v == Value::Five
}

/// How often `v` occurs among five values, counted one place at a time.
proof fn lemma_occurrences_five(s: Seq<Value>, v: int)
    requires
        s.len() == 5,
    ensures
        occurrences(s, v) == (if s[0].num() == v { 1int } else { 0int }) + (if s[1].num() == v { 1int } else { 0int })
            + (if s[2].num() == v { 1int } else { 0int }) + (if s[3].num() == v { 1int } else { 0int })
            + (if s[4].num() == v { 1int } else { 0int }),
{
    let e = Seq::<Value>::empty();
    lemma_occurrences_empty(v);
    lemma_occurrences_push(e, s[0], v);
    lemma_occurrences_push(e.push(s[0]), s[1], v);
    lemma_occurrences_push(e.push(s[0]).push(s[1]), s[2], v);
    lemma_occurrences_push(e.push(s[0]).push(s[1]).push(s[2]), s[3], v);
    lemma_occurrences_push(e.push(s[0]).push(s[1]).push(s[2]).push(s[3]), s[4], v);
    assert(s =~= e.push(s[0]).push(s[1]).push(s[2]).push(s[3]).push(s[4]));
}

/// No number below `u` satisfies `f`: none is counted.
proof fn lemma_count_where_none(f: spec_fn(int) -> bool, u: int)
    requires
        forall|v: int| 0 <= v < u ==> !#[trigger] f(v),
    ensures
        count_where(f, u) == 0,
    decreases u,
{
    if u > 0 {
        lemma_count_where_none(f, u - 1);
    }
}

/// The numbers below `u` that satisfy `f` are exactly those of the list `a`, which
/// holds no number twice: that many are counted.
proof fn lemma_count_where_exactly(f: spec_fn(int) -> bool, u: int, a: Seq<int>)
    requires
        0 <= u,
        forall|i: int, j: int| 0 <= i < j < a.len() ==> #[trigger] a[i] != #[trigger] a[j],
        forall|i: int| 0 <= i < a.len() ==> 0 <= #[trigger] a[i] < u,
        forall|v: int| 0 <= v < u ==> (#[trigger] f(v) <==> a.contains(v)),
    ensures
        count_where(f, u) == a.len(),
    decreases u,
{
    if u > 0 {
        if f(u - 1) {
            assert(a.contains(u - 1));
            let t = choose|t: int| 0 <= t < a.len() && a[t] == u - 1;
            let b = a.remove(t);
            assert forall|i: int| 0 <= i < b.len() implies 0 <= #[trigger] b[i] < u - 1 by {
                if i < t {
                    assert(b[i] == a[i] && a[i] != a[t]);
                } else {
                    assert(b[i] == a[i + 1] && a[i + 1] != a[t]);
                }
            }
            assert forall|i: int, j: int| 0 <= i < j < b.len() implies #[trigger] b[i] != #[trigger] b[j] by {
                let ii = if i < t { i } else { i + 1 };
                let jj = if j < t { j } else { j + 1 };
                assert(b[i] == a[ii] && b[j] == a[jj]);
            }
            assert forall|v: int| 0 <= v < u - 1 implies (#[trigger] f(v) <==> b.contains(v)) by {
                if a.contains(v) {
                    let w = choose|w: int| 0 <= w < a.len() && a[w] == v;
                    assert(w != t);
                    if w < t {
                        assert(b[w] == v);
                    } else {
                        assert(b[w - 1] == v);
                    }
                }
                if b.contains(v) {
                    let w = choose|w: int| 0 <= w < b.len() && b[w] == v;
                    if w < t {
                        assert(a[w] == v);
                    } else {
                        assert(a[w + 1] == v);
                    }
                }
            }
            lemma_count_where_exactly(f, u - 1, b);
        } else {
            assert forall|i: int| 0 <= i < a.len() implies 0 <= #[trigger] a[i] < u - 1 by {
                assert(a.contains(a[i]));
            }
            lemma_count_where_exactly(f, u - 1, a);
        }
    } else if a.len() > 0 {
        assert(0 <= a[0] < u);
    }
}

/// Five cards whose values are the ace, two, three, four and five, in any order,
/// make a straight with the ace counted low (a straight flush when they all share
/// one suit), and the score carries the values five, four, three, two and a low
/// ace.
pub proof fn lemma_ace_low_straight(cards: Seq<Card>, s: ScoredHand)
    requires
        cards.len() == 5,
        forall|i: int| 0 <= i < 5 ==> is_wheel_value(#[trigger] cards[i].value),
        forall|i: int, j: int| 0 <= i < j < 5 ==> #[trigger] cards[i].value != #[trigger] cards[j].value,
        is_hand_score(cards, s),
    ensures
        has_kind_shape(s.rank_spec(), s.values()),
        s.rank_spec() == (if forall|i: int| 0 <= i < 5 ==> #[trigger] cards[i].suit == cards[0].suit { 10u8 } else { 6u8 }),
        s.values() == seq![Value::Five, Value::Four, Value::Three, Value::Two, Value::AceLow],
{
    let c0 = cards[0].value;
    let c1 = cards[1].value;
    let c2 = cards[2].value;
    let c3 = cards[3].value;
    let c4 = cards[4].value;
    assert(is_wheel_value(c0) && is_wheel_value(c1) && is_wheel_value(c2) && is_wheel_value(c3) && is_wheel_value(c4));
    assert(c0 != c1 && c0 != c2 && c0 != c3 && c0 != c4 && c1 != c2 && c1 != c3 && c1 != c4
        && c2 != c3 && c2 != c4 && c3 != c4);
    let vs = values_of(cards);
    assert(vs[0] == c0 && vs[1] == c1 && vs[2] == c2 && vs[3] == c3 && vs[4] == c4);
    // Each of the values 14, 2, 3, 4, 5 occurs once, every other value not at all.
    assert forall|v: int| #[trigger] value_count(cards, v) == (if v == 14 || (2 <= v <= 5) { 1nat } else { 0nat }) by {
        lemma_occurrences_five(vs, v);
    }
    // Not a straight with the ace high.
    let cnt = |v: int| value_count(cards, v) as int;
    assert forall|lo: int| 0 <= lo <= 10 implies !#[trigger] run_at(cnt, lo) by {
        if lo <= 1 {
            assert(cnt(lo + 0) != 1);
        } else if lo <= 5 {
            let k = 6 - lo;
            assert(cnt(lo + k) != 1);
        } else {
            assert(cnt(lo + 0) != 1);
        }
    }
    assert(!is_straight(cards));
    // A straight once the ace counts low.
    let moved = |v: int| moved_count(cards, v);
    assert(run_at(moved, 1)) by {
        assert forall|k: int| 0 <= k < 5 implies #[trigger] moved(1 + k) == 1 by {
            assert(value_count(cards, 1 + k) == (if 1 + k == 14 || (2 <= 1 + k <= 5) { 1nat } else { 0nat }));
            assert(value_count(cards, 14) == 1);
        }
    }
    assert(is_straight_ace_low(cards));
    // No value occurs three or four times.
    lemma_count_where_none(|v: int| value_count(cards, v) == 4, 15);
    lemma_count_where_none(|v: int| value_count(cards, v) == 3, 15);
    assert(!is_four_of_a_kind(cards));
    assert(!is_full_house(cards));
    let one_suit = forall|i: int| 0 <= i < 5 ==> #[trigger] cards[i].suit == cards[0].suit;
    assert(is_flush(cards) == one_suit) by {
        if !is_flush(cards) {
            let (i, j) = choose|i: int, j: int| 0 <= i < cards.len() && 0 <= j < cards.len()
                && !(cards[i].suit == cards[j].suit);
            assert(cards[i].suit != cards[0].suit || cards[j].suit != cards[0].suit);
        }
    }
    assert(uses_ace_low(cards));
    // The scored values: the ace-low cards hold each of 1 to 5 once.
    let low = ace_low_cards(cards);
    let lvs = values_of(low);
    assert(lvs.len() == 5);
    assert forall|i: int| 0 <= i < 5 implies #[trigger] lvs[i].num() == (if vs[i] == Value::Ace { 1int } else { vs[i].num() as int }) by {}
    assert forall|v: int| #[trigger] value_count(low, v) == (if 1 <= v <= 5 { 1nat } else { 0nat }) by {
        lemma_occurrences_five(lvs, v);
        assert(lvs[0].num() == (if c0 == Value::Ace { 1int } else { c0.num() as int }));
        assert(lvs[1].num() == (if c1 == Value::Ace { 1int } else { c1.num() as int }));
        assert(lvs[2].num() == (if c2 == Value::Ace { 1int } else { c2.num() as int }));
        assert(lvs[3].num() == (if c3 == Value::Ace { 1int } else { c3.num() as int }));
        assert(lvs[4].num() == (if c4 == Value::Ace { 1int } else { c4.num() as int }));
    }
    let arr = s.values();
    assert(scoring_cards(cards) == low);
    assert(is_power_sorting(low, arr));
    assert(arr.take(5) =~= arr);
    assert forall|v: int| 1 <= v <= 5 implies #[trigger] occurrences(arr, v) == 1 by {
        assert(occurrences(arr.take(low.len() as int), v) == value_count(low, v));
    }
    lemma_occurrences_five(arr, 1);
    lemma_occurrences_five(arr, 2);
    lemma_occurrences_five(arr, 3);
    lemma_occurrences_five(arr, 4);
    lemma_occurrences_five(arr, 5);
    assert(power_before(low, arr[0], arr[1]));
    assert(power_before(low, arr[1], arr[2]));
    assert(power_before(low, arr[2], arr[3]));
    assert(power_before(low, arr[3], arr[4]));
    assert(arr[0].num() == 5 && arr[1].num() == 4 && arr[2].num() == 3 && arr[3].num() == 2 && arr[4].num() == 1);
    assert(arr =~= seq![Value::Five, Value::Four, Value::Three, Value::Two, Value::AceLow]);
}

/// Five cards of five consecutive values, the lowest `lo` from two to ten, in any
/// order, make a straight (a straight flush when they all share one suit), and the
/// score carries their values from the highest down.
pub proof fn lemma_straight(cards: Seq<Card>, lo: int, s: ScoredHand)
    requires
        cards.len() == 5,
        2 <= lo <= 10,
        forall|i: int| 0 <= i < 5 ==> lo <= #[trigger] cards[i].value.num() <= lo + 4,
        forall|i: int, j: int| 0 <= i < j < 5 ==> #[trigger] cards[i].value != #[trigger] cards[j].value,
        is_hand_score(cards, s),
    ensures
        has_kind_shape(s.rank_spec(), s.values()),
        s.rank_spec() == (if forall|i: int| 0 <= i < 5 ==> #[trigger] cards[i].suit == cards[0].suit { 10u8 } else { 6u8 }),
        forall|i: int| 0 <= i < 5 ==> #[trigger] s.values()[i].num() == lo + 4 - i,
{
    let c0 = cards[0].value;
    let c1 = cards[1].value;
    let c2 = cards[2].value;
    let c3 = cards[3].value;
    let c4 = cards[4].value;
    assert(lo <= c0.num() <= lo + 4 && lo <= c1.num() <= lo + 4 && lo <= c2.num() <= lo + 4
        && lo <= c3.num() <= lo + 4 && lo <= c4.num() <= lo + 4);
    assert(c0 != c1 && c0 != c2 && c0 != c3 && c0 != c4 && c1 != c2 && c1 != c3 && c1 != c4
        && c2 != c3 && c2 != c4 && c3 != c4);
    crate::card::lemma_value_num_injective(c0, c1);
    crate::card::lemma_value_num_injective(c0, c2);
    crate::card::lemma_value_num_injective(c0, c3);
    crate::card::lemma_value_num_injective(c0, c4);
    crate::card::lemma_value_num_injective(c1, c2);
    crate::card::lemma_value_num_injective(c1, c3);
    crate::card::lemma_value_num_injective(c1, c4);
    crate::card::lemma_value_num_injective(c2, c3);
    crate::card::lemma_value_num_injective(c2, c4);
    crate::card::lemma_value_num_injective(c3, c4);
    let vs = values_of(cards);
    assert(vs[0] == c0 && vs[1] == c1 && vs[2] == c2 && vs[3] == c3 && vs[4] == c4);
    // Each value from `lo` to `lo + 4` occurs once, every other value not at all.
    assert forall|v: int| #[trigger] value_count(cards, v) == (if lo <= v <= lo + 4 { 1nat } else { 0nat }) by {
        lemma_occurrences_five(vs, v);
    }
    let cnt = |v: int| value_count(cards, v) as int;
    assert(run_at(cnt, lo)) by {
        assert forall|k: int| 0 <= k < 5 implies #[trigger] cnt(lo + k) == 1 by {
            assert(value_count(cards, lo + k) == 1);
        }
    }
    assert(is_straight(cards));
    lemma_count_where_none(|v: int| value_count(cards, v) == 4, 15);
    lemma_count_where_none(|v: int| value_count(cards, v) == 3, 15);
    assert(!is_four_of_a_kind(cards));
    assert(!is_full_house(cards));
    let one_suit = forall|i: int| 0 <= i < 5 ==> #[trigger] cards[i].suit == cards[0].suit;
    assert(is_flush(cards) == one_suit) by {
        if !is_flush(cards) {
            let (i, j) = choose|i: int, j: int| 0 <= i < cards.len() && 0 <= j < cards.len()
                && !(cards[i].suit == cards[j].suit);
            assert(cards[i].suit != cards[0].suit || cards[j].suit != cards[0].suit);
        }
    }
    assert(!uses_ace_low(cards));
    let arr = s.values();
    assert(scoring_cards(cards) == cards);
    assert(is_power_sorting(cards, arr));
    assert(arr.take(5) =~= arr);
    assert forall|v: int| 0 <= v < 15 implies #[trigger] occurrences(arr, v) == (if lo <= v <= lo + 4 { 1nat } else { 0nat }) by {
        assert(occurrences(arr.take(cards.len() as int), v) == value_count(cards, v));
    }
    lemma_occurrences_five(arr, lo);
    lemma_occurrences_five(arr, lo + 1);
    lemma_occurrences_five(arr, lo + 2);
    lemma_occurrences_five(arr, lo + 3);
    lemma_occurrences_five(arr, lo + 4);
    assert(power_before(cards, arr[0], arr[1]));
    assert(power_before(cards, arr[1], arr[2]));
    assert(power_before(cards, arr[2], arr[3]));
    assert(power_before(cards, arr[3], arr[4]));
    assert forall|i: int| 0 <= i < 5 implies #[trigger] arr[i].num() <= 14 by {}
    assert(occurrences(arr, arr[0].num() as int) >= 1) by { lemma_occurrences_five(arr, arr[0].num() as int); }
    assert(occurrences(arr, arr[4].num() as int) >= 1) by { lemma_occurrences_five(arr, arr[4].num() as int); }
    assert(arr[0].num() == lo + 4 && arr[1].num() == lo + 3 && arr[2].num() == lo + 2 && arr[3].num() == lo + 1 && arr[4].num() == lo);
}

/// Five cards of which four share one value `q` and the fifth, at position `m`, has
/// another value `k` make four of a kind, whatever their suits, and the score
/// carries the four first and then the fifth: q, q, q, q, k.
pub proof fn lemma_four_of_a_kind(cards: Seq<Card>, q: Value, k: Value, m: int, s: ScoredHand)
    requires
        cards.len() == 5,
        0 <= m < 5,
        q != k,
        cards[m].value == k,
        forall|i: int| 0 <= i < 5 && i != m ==> #[trigger] cards[i].value == q,
        is_hand_score(cards, s),
    ensures
        has_kind_shape(s.rank_spec(), s.values()),
        s.rank_spec() == 9,
        s.values() == seq![q, q, q, q, k],
{
    crate::card::lemma_value_num_injective(q, k);
    let qn = q.num() as int;
    let kn = k.num() as int;
    let vs = values_of(cards);
    assert forall|i: int| 0 <= i < 5 implies #[trigger] vs[i].num() == (if i == m { kn } else { qn }) by {}
    assert forall|v: int| #[trigger] value_count(cards, v)
        == (if v == qn { 4nat } else if v == kn { 1nat } else { 0nat }) by {
        lemma_occurrences_five(vs, v);
        assert(vs[0].num() == (if 0 == m { kn } else { qn }));
        assert(vs[1].num() == (if 1 == m { kn } else { qn }));
        assert(vs[2].num() == (if 2 == m { kn } else { qn }));
        assert(vs[3].num() == (if 3 == m { kn } else { qn }));
        assert(vs[4].num() == (if 4 == m { kn } else { qn }));
    }
    // No run of five values counted once, nor with an ace counted low.
    let cnt = |v: int| value_count(cards, v) as int;
    assert forall|lo: int| 0 <= lo <= 10 implies !#[trigger] run_at(cnt, lo) by {
        assert(cnt(lo + 0) != 1 || cnt(lo + 1) != 1);
    }
    assert(!is_straight(cards));
    let moved = |v: int| moved_count(cards, v);
    assert forall|lo: int| 0 <= lo <= 10 implies !#[trigger] run_at(moved, lo) by {
        assert(moved(lo + 0) != 1 || moved(lo + 1) != 1 || moved(lo + 2) != 1 || moved(lo + 3) != 1);
    }
    assert(!is_straight_ace_low(cards));
    // Two values: one four times, one once.
    let small = if qn < kn { qn } else { kn };
    let big = if qn < kn { kn } else { qn };
    lemma_count_where_exactly(|v: int| value_count(cards, v) > 0, 15, seq![small, big]);
    assert forall|v: int| 0 <= v < 15 implies (#[trigger] value_count(cards, v) == 4) == seq![qn].contains(v) by {
        if v == qn {
            assert(seq![qn][0] == v);
        }
    }
    assert forall|v: int| 0 <= v < 15 implies (#[trigger] value_count(cards, v) == 1) == seq![kn].contains(v) by {
        if v == kn {
            assert(seq![kn][0] == v);
        }
    }
    lemma_count_where_exactly(|v: int| value_count(cards, v) == 4, 15, seq![qn]);
    lemma_count_where_exactly(|v: int| value_count(cards, v) == 1, 15, seq![kn]);
    assert(is_four_of_a_kind(cards));
    assert(!uses_ace_low(cards));
    // The scored values: the four first, then the fifth.
    let arr = s.values();
    assert(scoring_cards(cards) == cards);
    assert(is_power_sorting(cards, arr));
    assert(arr.take(5) =~= arr);
    assert(occurrences(arr, qn) == 4) by {
        assert(occurrences(arr.take(cards.len() as int), qn) == value_count(cards, qn));
    }
    assert(occurrences(arr, kn) == 1) by {
        assert(occurrences(arr.take(cards.len() as int), kn) == value_count(cards, kn));
    }
    lemma_occurrences_five(arr, qn);
    lemma_occurrences_five(arr, kn);
    assert(power_before(cards, arr[0], arr[1]));
    assert(power_before(cards, arr[1], arr[2]));
    assert(power_before(cards, arr[2], arr[3]));
    assert(power_before(cards, arr[3], arr[4]));
    assert(arr[0].num() == qn && arr[1].num() == qn && arr[2].num() == qn && arr[3].num() == qn && arr[4].num() == kn);
    crate::card::lemma_value_num_injective(arr[0], q);
    crate::card::lemma_value_num_injective(arr[1], q);
    crate::card::lemma_value_num_injective(arr[2], q);
    crate::card::lemma_value_num_injective(arr[3], q);
    crate::card::lemma_value_num_injective(arr[4], k);
    assert(arr =~= seq![q, q, q, q, k]);
}

/// Five cards with three of value `t` and two of another value `p` make a full
/// house, whatever their suits, and the score carries t, t, t, p, p.
pub proof fn lemma_full_house(cards: Seq<Card>, t: Value, p: Value, s: ScoredHand)
    requires
        cards.len() == 5,
        t != p,
        value_count(cards, t.num() as int) == 3,
        value_count(cards, p.num() as int) == 2,
        is_hand_score(cards, s),
    ensures
        has_kind_shape(s.rank_spec(), s.values()),
        s.rank_spec() == 8,
        s.values() == seq![t, t, t, p, p],
{
    crate::card::lemma_value_num_injective(t, p);
    let tn = t.num() as int;
    let pn = p.num() as int;
    let vs = values_of(cards);
    lemma_occurrences_five(vs, tn);
    lemma_occurrences_five(vs, pn);
    assert forall|v: int| #[trigger] value_count(cards, v)
        == (if v == tn { 3nat } else if v == pn { 2nat } else { 0nat }) by {
        lemma_occurrences_five(vs, v);
    }
    let cnt = |v: int| value_count(cards, v) as int;
    assert forall|lo: int| 0 <= lo <= 10 implies !#[trigger] run_at(cnt, lo) by {
        assert(cnt(lo + 0) != 1);
    }
    assert(!is_straight(cards));
    let moved = |v: int| moved_count(cards, v);
    assert forall|lo: int| 0 <= lo <= 10 implies !#[trigger] run_at(moved, lo) by {
        assert(moved(lo + 0) != 1 || moved(lo + 1) != 1 || moved(lo + 2) != 1 || moved(lo + 3) != 1);
    }
    assert(!is_straight_ace_low(cards));
    let small = if tn < pn { tn } else { pn };
    let big = if tn < pn { pn } else { tn };
    lemma_count_where_exactly(|v: int| value_count(cards, v) > 0, 15, seq![small, big]);
    assert forall|v: int| 0 <= v < 15 implies (#[trigger] value_count(cards, v) == 3) == seq![tn].contains(v) by {
        if v == tn {
            assert(seq![tn][0] == v);
        }
    }
    assert forall|v: int| 0 <= v < 15 implies (#[trigger] value_count(cards, v) == 2) == seq![pn].contains(v) by {
        if v == pn {
            assert(seq![pn][0] == v);
        }
    }
    lemma_count_where_exactly(|v: int| value_count(cards, v) == 3, 15, seq![tn]);
    lemma_count_where_exactly(|v: int| value_count(cards, v) == 2, 15, seq![pn]);
    lemma_count_where_none(|v: int| value_count(cards, v) == 4, 15);
    assert(!is_four_of_a_kind(cards));
    assert(is_full_house(cards));
    assert(!uses_ace_low(cards));
    let arr = s.values();
    assert(scoring_cards(cards) == cards);
    assert(is_power_sorting(cards, arr));
    assert(arr.take(5) =~= arr);
    assert(occurrences(arr, tn) == 3) by {
        assert(occurrences(arr.take(cards.len() as int), tn) == value_count(cards, tn));
    }
    assert(occurrences(arr, pn) == 2) by {
        assert(occurrences(arr.take(cards.len() as int), pn) == value_count(cards, pn));
    }
    lemma_occurrences_five(arr, tn);
    lemma_occurrences_five(arr, pn);
    assert(power_before(cards, arr[0], arr[1]));
    assert(power_before(cards, arr[1], arr[2]));
    assert(power_before(cards, arr[2], arr[3]));
    assert(power_before(cards, arr[3], arr[4]));
    assert(arr[0].num() == tn && arr[1].num() == tn && arr[2].num() == tn && arr[3].num() == pn && arr[4].num() == pn);
    crate::card::lemma_value_num_injective(arr[0], t);
    crate::card::lemma_value_num_injective(arr[1], t);
    crate::card::lemma_value_num_injective(arr[2], t);
    crate::card::lemma_value_num_injective(arr[3], p);
    crate::card::lemma_value_num_injective(arr[4], p);
    assert(arr =~= seq![t, t, t, p, p]);
}

/// The cards do not all share one suit.
pub open spec fn mixed_suits(cards: Seq<Card>) -> bool {
    exists|i: int, j: int| 0 <= i < cards.len() && 0 <= j < cards.len() && #[trigger] cards[i].suit != #[trigger] cards[j].suit
}

/// Five cards of mixed suits with three of value `t` and two more of values `a` and
/// `b`, all three values different and `a` the higher, make three of a kind, and the
/// score carries t, t, t, a, b.
pub proof fn lemma_three_of_a_kind(cards: Seq<Card>, t: Value, a: Value, b: Value, s: ScoredHand)
    requires
        cards.len() == 5,
        mixed_suits(cards),
        t != a && t != b,
        a.num() > b.num(),
        value_count(cards, t.num() as int) == 3,
        value_count(cards, a.num() as int) == 1,
        value_count(cards, b.num() as int) == 1,
        is_hand_score(cards, s),
    ensures
        has_kind_shape(s.rank_spec(), s.values()),
        s.rank_spec() == 5,
        s.values() == seq![t, t, t, a, b],
{
    crate::card::lemma_value_num_injective(t, a);
    crate::card::lemma_value_num_injective(t, b);
    let tn = t.num() as int;
    let an = a.num() as int;
    let bn = b.num() as int;
    let vs = values_of(cards);
    lemma_occurrences_five(vs, tn);
    lemma_occurrences_five(vs, an);
    lemma_occurrences_five(vs, bn);
    assert forall|v: int| #[trigger] value_count(cards, v)
        == (if v == tn { 3nat } else if v == an || v == bn { 1nat } else { 0nat }) by {
        lemma_occurrences_five(vs, v);
    }
    let cnt = |v: int| value_count(cards, v) as int;
    assert forall|lo: int| 0 <= lo <= 10 implies !#[trigger] run_at(cnt, lo) by {
        assert(cnt(lo + 0) != 1 || cnt(lo + 1) != 1 || cnt(lo + 2) != 1);
    }
    assert(!is_straight(cards));
    let moved = |v: int| moved_count(cards, v);
    assert forall|lo: int| 0 <= lo <= 10 implies !#[trigger] run_at(moved, lo) by {
        assert(moved(lo + 0) != 1 || moved(lo + 1) != 1 || moved(lo + 2) != 1 || moved(lo + 3) != 1
            || moved(lo + 4) != 1);
    }
    assert(!is_straight_ace_low(cards));
    let all = seq![tn, an, bn];
    assert forall|v: int| 0 <= v < 15 implies (#[trigger] value_count(cards, v) > 0) == all.contains(v) by {
        if v == tn { assert(all[0] == v); }
        if v == an { assert(all[1] == v); }
        if v == bn { assert(all[2] == v); }
    }
    lemma_count_where_exactly(|v: int| value_count(cards, v) > 0, 15, all);
    let threes = seq![tn];
    assert forall|v: int| 0 <= v < 15 implies (#[trigger] value_count(cards, v) == 3) == threes.contains(v) by {
        if v == tn { assert(threes[0] == v); }
    }
    lemma_count_where_exactly(|v: int| value_count(cards, v) == 3, 15, threes);
    let ones = seq![an, bn];
    assert forall|v: int| 0 <= v < 15 implies (#[trigger] value_count(cards, v) == 1) == ones.contains(v) by {
        if v == an { assert(ones[0] == v); }
        if v == bn { assert(ones[1] == v); }
    }
    lemma_count_where_exactly(|v: int| value_count(cards, v) == 1, 15, ones);
    lemma_count_where_none(|v: int| value_count(cards, v) == 4, 15);
    assert(!is_four_of_a_kind(cards));
    assert(!is_full_house(cards));
    assert(!is_flush(cards));
    assert(is_three_of_a_kind(cards));
    assert(!uses_ace_low(cards));
    let arr = s.values();
    assert(scoring_cards(cards) == cards);
    assert(is_power_sorting(cards, arr));
    assert(arr.take(5) =~= arr);
    assert(occurrences(arr, tn) == 3) by {
        assert(occurrences(arr.take(cards.len() as int), tn) == value_count(cards, tn));
    }
    assert(occurrences(arr, an) == 1) by {
        assert(occurrences(arr.take(cards.len() as int), an) == value_count(cards, an));
    }
    assert(occurrences(arr, bn) == 1) by {
        assert(occurrences(arr.take(cards.len() as int), bn) == value_count(cards, bn));
    }
    lemma_occurrences_five(arr, tn);
    lemma_occurrences_five(arr, an);
    lemma_occurrences_five(arr, bn);
    assert(power_before(cards, arr[0], arr[1]));
    assert(power_before(cards, arr[1], arr[2]));
    assert(power_before(cards, arr[2], arr[3]));
    assert(power_before(cards, arr[3], arr[4]));
    assert(arr[0].num() == tn && arr[1].num() == tn && arr[2].num() == tn && arr[3].num() == an && arr[4].num() == bn);
    crate::card::lemma_value_num_injective(arr[0], t);
    crate::card::lemma_value_num_injective(arr[1], t);
    crate::card::lemma_value_num_injective(arr[2], t);
    crate::card::lemma_value_num_injective(arr[3], a);
    crate::card::lemma_value_num_injective(arr[4], b);
    assert(arr =~= seq![t, t, t, a, b]);
}

/// Five cards of mixed suits with two of value `p`, two of value `r` and one of
/// value `k`, all three values different and `p` above `r`, make two pair, and the
/// score carries p, p, r, r, k.
pub proof fn lemma_two_pair(cards: Seq<Card>, p: Value, r: Value, k: Value, s: ScoredHand)
    requires
        cards.len() == 5,
        mixed_suits(cards),
        p.num() > r.num(),
        k != p && k != r,
        value_count(cards, p.num() as int) == 2,
        value_count(cards, r.num() as int) == 2,
        value_count(cards, k.num() as int) == 1,
        is_hand_score(cards, s),
    ensures
        has_kind_shape(s.rank_spec(), s.values()),
        s.rank_spec() == 4,
        s.values() == seq![p, p, r, r, k],
{
    crate::card::lemma_value_num_injective(k, p);
    crate::card::lemma_value_num_injective(k, r);
    let pn = p.num() as int;
    let rn = r.num() as int;
    let kn = k.num() as int;
    let vs = values_of(cards);
    lemma_occurrences_five(vs, pn);
    lemma_occurrences_five(vs, rn);
    lemma_occurrences_five(vs, kn);
    assert forall|v: int| #[trigger] value_count(cards, v)
        == (if v == pn || v == rn { 2nat } else if v == kn { 1nat } else { 0nat }) by {
        lemma_occurrences_five(vs, v);
    }
    let cnt = |v: int| value_count(cards, v) as int;
    assert forall|lo: int| 0 <= lo <= 10 implies !#[trigger] run_at(cnt, lo) by {
        assert(cnt(lo + 0) != 1 || cnt(lo + 1) != 1);
    }
    assert(!is_straight(cards));
    let moved = |v: int| moved_count(cards, v);
    assert forall|lo: int| 0 <= lo <= 10 implies !#[trigger] run_at(moved, lo) by {
        assert(moved(lo + 0) != 1 || moved(lo + 1) != 1 || moved(lo + 2) != 1 || moved(lo + 3) != 1
            || moved(lo + 4) != 1);
    }
    assert(!is_straight_ace_low(cards));
    let all = seq![pn, rn, kn];
    assert forall|v: int| 0 <= v < 15 implies (#[trigger] value_count(cards, v) > 0) == all.contains(v) by {
        if v == pn { assert(all[0] == v); }
        if v == rn { assert(all[1] == v); }
        if v == kn { assert(all[2] == v); }
    }
    lemma_count_where_exactly(|v: int| value_count(cards, v) > 0, 15, all);
    let twos = seq![pn, rn];
    assert forall|v: int| 0 <= v < 15 implies (#[trigger] value_count(cards, v) == 2) == twos.contains(v) by {
        if v == pn { assert(twos[0] == v); }
        if v == rn { assert(twos[1] == v); }
    }
    lemma_count_where_exactly(|v: int| value_count(cards, v) == 2, 15, twos);
    let ones = seq![kn];
    assert forall|v: int| 0 <= v < 15 implies (#[trigger] value_count(cards, v) == 1) == ones.contains(v) by {
        if v == kn { assert(ones[0] == v); }
    }
    lemma_count_where_exactly(|v: int| value_count(cards, v) == 1, 15, ones);
    lemma_count_where_none(|v: int| value_count(cards, v) == 4, 15);
    lemma_count_where_none(|v: int| value_count(cards, v) == 3, 15);
    assert(!is_four_of_a_kind(cards));
    assert(!is_full_house(cards));
    assert(!is_flush(cards));
    assert(!is_three_of_a_kind(cards));
    assert(is_two_pair(cards));
    assert(!uses_ace_low(cards));
    let arr = s.values();
    assert(scoring_cards(cards) == cards);
    assert(is_power_sorting(cards, arr));
    assert(arr.take(5) =~= arr);
    assert(occurrences(arr, pn) == 2) by {
        assert(occurrences(arr.take(cards.len() as int), pn) == value_count(cards, pn));
    }
    assert(occurrences(arr, rn) == 2) by {
        assert(occurrences(arr.take(cards.len() as int), rn) == value_count(cards, rn));
    }
    assert(occurrences(arr, kn) == 1) by {
        assert(occurrences(arr.take(cards.len() as int), kn) == value_count(cards, kn));
    }
    lemma_occurrences_five(arr, pn);
    lemma_occurrences_five(arr, rn);
    lemma_occurrences_five(arr, kn);
    assert(power_before(cards, arr[0], arr[1]));
    assert(power_before(cards, arr[1], arr[2]));
    assert(power_before(cards, arr[2], arr[3]));
    assert(power_before(cards, arr[3], arr[4]));
    assert(arr[0].num() == pn && arr[1].num() == pn && arr[2].num() == rn && arr[3].num() == rn && arr[4].num() == kn);
    crate::card::lemma_value_num_injective(arr[0], p);
    crate::card::lemma_value_num_injective(arr[1], p);
    crate::card::lemma_value_num_injective(arr[2], r);
    crate::card::lemma_value_num_injective(arr[3], r);
    crate::card::lemma_value_num_injective(arr[4], k);
    assert(arr =~= seq![p, p, r, r, k]);
}

/// Five cards of mixed suits with two of value `p` and three more of values `a`,
/// `b` and `c`, all four values different and `a` above `b` above `c`, make one
/// pair, and the score carries p, p, a, b, c.
pub proof fn lemma_one_pair(cards: Seq<Card>, p: Value, a: Value, b: Value, c: Value, s: ScoredHand)
    requires
        cards.len() == 5,
        mixed_suits(cards),
        a.num() > b.num() > c.num(),
        p != a && p != b && p != c,
        value_count(cards, p.num() as int) == 2,
        value_count(cards, a.num() as int) == 1,
        value_count(cards, b.num() as int) == 1,
        value_count(cards, c.num() as int) == 1,
        is_hand_score(cards, s),
    ensures
        has_kind_shape(s.rank_spec(), s.values()),
        s.rank_spec() == 3,
        s.values() == seq![p, p, a, b, c],
{
    crate::card::lemma_value_num_injective(p, a);
    crate::card::lemma_value_num_injective(p, b);
    crate::card::lemma_value_num_injective(p, c);
    let pn = p.num() as int;
    let an = a.num() as int;
    let bn = b.num() as int;
    let cn = c.num() as int;
    let vs = values_of(cards);
    lemma_occurrences_five(vs, pn);
    lemma_occurrences_five(vs, an);
    lemma_occurrences_five(vs, bn);
    lemma_occurrences_five(vs, cn);
    assert forall|v: int| #[trigger] value_count(cards, v)
        == (if v == pn { 2nat } else if v == an || v == bn || v == cn { 1nat } else { 0nat }) by {
        lemma_occurrences_five(vs, v);
    }
    let cnt = |v: int| value_count(cards, v) as int;
    assert forall|lo: int| 0 <= lo <= 10 implies !#[trigger] run_at(cnt, lo) by {
        assert(cnt(lo + 0) != 1 || cnt(lo + 1) != 1 || cnt(lo + 2) != 1 || cnt(lo + 3) != 1);
    }
    assert(!is_straight(cards));
    let moved = |v: int| moved_count(cards, v);
    assert forall|lo: int| 0 <= lo <= 10 implies !#[trigger] run_at(moved, lo) by {
        assert(moved(lo + 0) != 1 || moved(lo + 1) != 1 || moved(lo + 2) != 1 || moved(lo + 3) != 1
            || moved(lo + 4) != 1);
    }
    assert(!is_straight_ace_low(cards));
    let all = seq![pn, an, bn, cn];
    assert forall|v: int| 0 <= v < 15 implies (#[trigger] value_count(cards, v) > 0) == all.contains(v) by {
        if v == pn { assert(all[0] == v); }
        if v == an { assert(all[1] == v); }
        if v == bn { assert(all[2] == v); }
        if v == cn { assert(all[3] == v); }
    }
    lemma_count_where_exactly(|v: int| value_count(cards, v) > 0, 15, all);
    let twos = seq![pn];
    assert forall|v: int| 0 <= v < 15 implies (#[trigger] value_count(cards, v) == 2) == twos.contains(v) by {
        if v == pn { assert(twos[0] == v); }
    }
    lemma_count_where_exactly(|v: int| value_count(cards, v) == 2, 15, twos);
    let ones = seq![an, bn, cn];
    assert forall|v: int| 0 <= v < 15 implies (#[trigger] value_count(cards, v) == 1) == ones.contains(v) by {
        if v == an { assert(ones[0] == v); }
        if v == bn { assert(ones[1] == v); }
        if v == cn { assert(ones[2] == v); }
    }
    lemma_count_where_exactly(|v: int| value_count(cards, v) == 1, 15, ones);
    assert(!is_four_of_a_kind(cards));
    assert(!is_full_house(cards));
    assert(!is_flush(cards));
    assert(!is_three_of_a_kind(cards));
    assert(!is_two_pair(cards));
    assert(is_one_pair(cards));
    assert(!uses_ace_low(cards));
    let arr = s.values();
    assert(scoring_cards(cards) == cards);
    assert(is_power_sorting(cards, arr));
    assert(arr.take(5) =~= arr);
    assert(occurrences(arr, pn) == 2) by {
        assert(occurrences(arr.take(cards.len() as int), pn) == value_count(cards, pn));
    }
    assert(occurrences(arr, an) == 1) by {
        assert(occurrences(arr.take(cards.len() as int), an) == value_count(cards, an));
    }
    assert(occurrences(arr, bn) == 1) by {
        assert(occurrences(arr.take(cards.len() as int), bn) == value_count(cards, bn));
    }
    assert(occurrences(arr, cn) == 1) by {
        assert(occurrences(arr.take(cards.len() as int), cn) == value_count(cards, cn));
    }
    lemma_occurrences_five(arr, pn);
    lemma_occurrences_five(arr, an);
    lemma_occurrences_five(arr, bn);
    lemma_occurrences_five(arr, cn);
    assert(power_before(cards, arr[0], arr[1]));
    assert(power_before(cards, arr[1], arr[2]));
    assert(power_before(cards, arr[2], arr[3]));
    assert(power_before(cards, arr[3], arr[4]));
    assert(arr[0].num() == pn && arr[1].num() == pn && arr[2].num() == an && arr[3].num() == bn && arr[4].num() == cn);
    crate::card::lemma_value_num_injective(arr[0], p);
    crate::card::lemma_value_num_injective(arr[1], p);
    crate::card::lemma_value_num_injective(arr[2], a);
    crate::card::lemma_value_num_injective(arr[3], b);
    crate::card::lemma_value_num_injective(arr[4], c);
    assert(arr =~= seq![p, p, a, b, c]);
}

/// Each of the five different values of the cards is counted once, every other
/// value not at all.
proof fn lemma_five_different_counts(cards: Seq<Card>)
    requires
        cards.len() == 5,
        forall|i: int, j: int| 0 <= i < j < 5 ==> #[trigger] cards[i].value != #[trigger] cards[j].value,
    ensures
        forall|v: int| #[trigger] value_count(cards, v) == (if v == cards[0].value.num() || v == cards[1].value.num()
            || v == cards[2].value.num() || v == cards[3].value.num() || v == cards[4].value.num() { 1nat } else { 0nat }),
{
    let c0 = cards[0].value;
    let c1 = cards[1].value;
    let c2 = cards[2].value;
    let c3 = cards[3].value;
    let c4 = cards[4].value;
    assert(c0 != c1 && c0 != c2 && c0 != c3 && c0 != c4 && c1 != c2 && c1 != c3 && c1 != c4
        && c2 != c3 && c2 != c4 && c3 != c4);
    crate::card::lemma_value_num_injective(c0, c1);
    crate::card::lemma_value_num_injective(c0, c2);
    crate::card::lemma_value_num_injective(c0, c3);
    crate::card::lemma_value_num_injective(c0, c4);
    crate::card::lemma_value_num_injective(c1, c2);
    crate::card::lemma_value_num_injective(c1, c3);
    crate::card::lemma_value_num_injective(c1, c4);
    crate::card::lemma_value_num_injective(c2, c3);
    crate::card::lemma_value_num_injective(c2, c4);
    crate::card::lemma_value_num_injective(c3, c4);
    let vs = values_of(cards);
    assert(vs[0] == c0 && vs[1] == c1 && vs[2] == c2 && vs[3] == c3 && vs[4] == c4);
    assert forall|v: int| #[trigger] value_count(cards, v) == (if v == c0.num() || v == c1.num()
        || v == c2.num() || v == c3.num() || v == c4.num() { 1nat } else { 0nat }) by {
        lemma_occurrences_five(vs, v);
    }
}

/// When each of the five values from `lo` up is counted once among five cards, every
/// card has one of those values.
proof fn lemma_run_takes_every_card(cards: Seq<Card>, lo: int)
    requires
        cards.len() == 5,
        value_count(cards, lo) == 1,
        value_count(cards, lo + 1) == 1,
        value_count(cards, lo + 2) == 1,
        value_count(cards, lo + 3) == 1,
        value_count(cards, lo + 4) == 1,
    ensures
        forall|i: int| 0 <= i < 5 ==> lo <= #[trigger] cards[i].value.num() <= lo + 4,
{
    let vs = values_of(cards);
    assert(vs[0] == cards[0].value && vs[1] == cards[1].value && vs[2] == cards[2].value
        && vs[3] == cards[3].value && vs[4] == cards[4].value);
    lemma_occurrences_five(vs, lo);
    lemma_occurrences_five(vs, lo + 1);
    lemma_occurrences_five(vs, lo + 2);
    lemma_occurrences_five(vs, lo + 3);
    lemma_occurrences_five(vs, lo + 4);
}

/// Five cards of values from two to ace, two of them more than four apart, are no
/// straight with the ace high.
proof fn lemma_spread_is_no_straight(cards: Seq<Card>, wi: int, wj: int)
    requires
        cards.len() == 5,
        0 <= wi < 5 && 0 <= wj < 5 && cards[wi].value.num() > cards[wj].value.num() + 4,
    ensures
        !is_straight(cards),
{
    let cnt = |v: int| value_count(cards, v) as int;
    assert forall|lo: int| 0 <= lo <= 10 implies !#[trigger] run_at(cnt, lo) by {
        if run_at(cnt, lo) {
            assert(cnt(lo + 0) == 1 && cnt(lo + 1) == 1 && cnt(lo + 2) == 1 && cnt(lo + 3) == 1 && cnt(lo + 4) == 1);
            lemma_run_takes_every_card(cards, lo);
            assert(lo <= cards[wi].value.num() <= lo + 4);
            assert(lo <= cards[wj].value.num() <= lo + 4);
        }
    }
}

/// Five cards of five different values from two to ace, two of them more than four
/// apart and one between six and king, are no straight with the ace low.
proof fn lemma_spread_is_no_ace_low_straight(cards: Seq<Card>, wi: int, wj: int, mid: int)
    requires
        cards.len() == 5,
        forall|i: int| 0 <= i < 5 ==> 2 <= #[trigger] cards[i].value.num(),
        forall|i: int, j: int| 0 <= i < j < 5 ==> #[trigger] cards[i].value != #[trigger] cards[j].value,
        0 <= wi < 5 && 0 <= wj < 5 && cards[wi].value.num() > cards[wj].value.num() + 4,
        0 <= mid < 5 && 6 <= cards[mid].value.num() <= 13,
    ensures
        !is_straight_ace_low(cards),
{
    lemma_five_different_counts(cards);
    assert(2 <= cards[0].value.num() && 2 <= cards[1].value.num() && 2 <= cards[2].value.num()
        && 2 <= cards[3].value.num() && 2 <= cards[4].value.num());
    if value_count(cards, 14) >= 1 {
        let moved = |v: int| moved_count(cards, v);
        assert forall|lo: int| 0 <= lo <= 10 implies !#[trigger] run_at(moved, lo) by {
            if run_at(moved, lo) {
                assert(moved(lo + 0) == 1);
                assert(moved(lo + 1) == 1);
                assert(moved(lo + 2) == 1);
                assert(moved(lo + 3) == 1);
                assert(moved(lo + 4) == 1);
                if lo == 0 {
                    assert(value_count(cards, 0) == 0);
                } else if lo == 1 {
                    assert(value_count(cards, 2) == 1 && value_count(cards, 3) == 1 && value_count(cards, 4) == 1
                        && value_count(cards, 5) == 1);
                    assert(value_count(cards, cards[mid].value.num() as int) == 1);
                    assert(value_count(cards, 14) == 1);
                } else if lo + 4 >= 14 {
                    assert(moved(lo + (14 - lo)) == 1);
                } else {
                    lemma_run_takes_every_card(cards, lo);
                    assert(lo <= cards[wi].value.num() <= lo + 4);
                    assert(lo <= cards[wj].value.num() <= lo + 4);
                }
            }
        }
    }
}

/// The values a score carries for five cards of five different values: highest
/// first, each the value of one of the cards.
proof fn lemma_different_values_sorted(cards: Seq<Card>, arr: Seq<Value>)
    requires
        cards.len() == 5,
        forall|i: int, j: int| 0 <= i < j < 5 ==> #[trigger] cards[i].value != #[trigger] cards[j].value,
        is_power_sorting(cards, arr),
    ensures
        forall|i: int| 0 <= i < 4 ==> #[trigger] arr[i].num() > arr[i + 1].num(),
        forall|i: int| 0 <= i < 5 ==> exists|j: int| 0 <= j < 5 && #[trigger] arr[i] == #[trigger] cards[j].value,
{
    lemma_five_different_counts(cards);
    assert(arr.take(5) =~= arr);
    assert forall|v: int| 0 <= v < 15 implies #[trigger] occurrences(arr, v) == value_count(cards, v) by {
        assert(occurrences(arr.take(cards.len() as int), v) == value_count(cards, v));
    }
    assert forall|i: int| 0 <= i < 5 implies exists|j: int| 0 <= j < 5 && #[trigger] arr[i] == #[trigger] cards[j].value by {
        let v = arr[i].num() as int;
        assert(v <= 14);
        lemma_occurrences_five(arr, v);
        assert(occurrences(arr, v) >= 1);
        assert(value_count(cards, v) >= 1);
        if v == cards[0].value.num() { crate::card::lemma_value_num_injective(arr[i], cards[0].value); assert(arr[i] == cards[0].value); }
        else if v == cards[1].value.num() { crate::card::lemma_value_num_injective(arr[i], cards[1].value); assert(arr[i] == cards[1].value); }
        else if v == cards[2].value.num() { crate::card::lemma_value_num_injective(arr[i], cards[2].value); assert(arr[i] == cards[2].value); }
        else if v == cards[3].value.num() { crate::card::lemma_value_num_injective(arr[i], cards[3].value); assert(arr[i] == cards[3].value); }
        else { crate::card::lemma_value_num_injective(arr[i], cards[4].value); assert(arr[i] == cards[4].value); }
    }
    assert forall|i: int| 0 <= i < 4 implies #[trigger] arr[i].num() > arr[i + 1].num() by {
        assert(power_before(cards, arr[i], arr[i + 1]));
        let v = arr[i].num() as int;
        assert(v <= 14);
        lemma_occurrences_five(arr, v);
        assert(occurrences(arr, v) <= 1);
    }
}

/// Five cards of five different values, each from two to ace, that are no straight,
/// neither ace high nor ace low (two of the values lie more than four apart, and one
/// lies between six and king), make a flush when they all share one suit and a high
/// card hand when not; the score carries their values from the highest down.
pub proof fn lemma_flush_or_high_card(cards: Seq<Card>, s: ScoredHand)
    requires
        cards.len() == 5,
        forall|i: int| 0 <= i < 5 ==> 2 <= #[trigger] cards[i].value.num(),
        forall|i: int, j: int| 0 <= i < j < 5 ==> #[trigger] cards[i].value != #[trigger] cards[j].value,
        exists|i: int, j: int| 0 <= i < 5 && 0 <= j < 5 && #[trigger] cards[i].value.num() > #[trigger] cards[j].value.num() + 4,
        exists|i: int| 0 <= i < 5 && 6 <= #[trigger] cards[i].value.num() <= 13,
        is_hand_score(cards, s),
    ensures
        has_kind_shape(s.rank_spec(), s.values()),
        s.rank_spec() == (if forall|i: int| 0 <= i < 5 ==> #[trigger] cards[i].suit == cards[0].suit { 7u8 } else { 2u8 }),
        forall|i: int| 0 <= i < 4 ==> #[trigger] s.values()[i].num() > s.values()[i + 1].num(),
        forall|i: int| 0 <= i < 5 ==> exists|j: int| 0 <= j < 5 && #[trigger] s.values()[i] == #[trigger] cards[j].value,
{
    let (wi, wj) = choose|i: int, j: int| 0 <= i < 5 && 0 <= j < 5 && #[trigger] cards[i].value.num() > #[trigger] cards[j].value.num() + 4;
    let mid = choose|i: int| 0 <= i < 5 && 6 <= #[trigger] cards[i].value.num() <= 13;
    lemma_spread_is_no_straight(cards, wi, wj);
    lemma_spread_is_no_ace_low_straight(cards, wi, wj, mid);
    lemma_five_different_counts(cards);
    let n0 = cards[0].value.num() as int;
    let n1 = cards[1].value.num() as int;
    let n2 = cards[2].value.num() as int;
    let n3 = cards[3].value.num() as int;
    let n4 = cards[4].value.num() as int;
    let all = seq![n0, n1, n2, n3, n4];
    assert forall|v: int| 0 <= v < 15 implies (#[trigger] value_count(cards, v) > 0) == all.contains(v) by {
        if v == n0 { assert(all[0] == v); }
        if v == n1 { assert(all[1] == v); }
        if v == n2 { assert(all[2] == v); }
        if v == n3 { assert(all[3] == v); }
        if v == n4 { assert(all[4] == v); }
    }
    assert forall|i: int, j: int| 0 <= i < j < all.len() implies #[trigger] all[i] != #[trigger] all[j] by {
        crate::card::lemma_value_num_injective(cards[i].value, cards[j].value);
    }
    lemma_count_where_exactly(|v: int| value_count(cards, v) > 0, 15, all);
    let one_suit = forall|i: int| 0 <= i < 5 ==> #[trigger] cards[i].suit == cards[0].suit;
    assert(is_flush(cards) == one_suit) by {
        if !is_flush(cards) {
            let (i, j) = choose|i: int, j: int| 0 <= i < cards.len() && 0 <= j < cards.len()
                && !(cards[i].suit == cards[j].suit);
            assert(cards[i].suit != cards[0].suit || cards[j].suit != cards[0].suit);
        }
    }
    assert(!uses_ace_low(cards));
    assert(scoring_cards(cards) == cards);
    lemma_different_values_sorted(cards, s.values());
}

// ---------------------------------------------------------------------------
// The best five of more cards
// ---------------------------------------------------------------------------

/// `s` lists `k` distinct positions below `n` in increasing order.
pub open spec fn is_combination(s: Seq<usize>, n: int, k: int) -> bool {
    &&& s.len() == k
    &&& forall|j: int| 0 <= j < k ==> #[trigger] s[j] < n
    &&& forall|j1: int, j2: int| 0 <= j1 < j2 < k ==> #[trigger] s[j1] < #[trigger] s[j2]
}

/// The cards at the given positions, in the order of the positions.
pub open spec fn pick(cards: Seq<Card>, idx: Seq<usize>) -> Seq<Card> {
    idx.map_values(|i: usize| cards[i as int])
}

/// Every `k`-combination of the positions `0 .. n`.
///
/// Calls `itertools::Itertools::combinations` on the range `0..n` and collects what
/// it yields. The contract claims what its documentation says: each item is a
/// `k`-length combination of the elements, taken in the order of the iterator, so
/// `k` increasing positions below `n`; and every such combination is yielded. The
/// order of the combinations among themselves is left unsaid.
#[verifier::external_body]
fn index_combinations(n: usize, k: usize) -> (r: Vec<Vec<usize>>)
    ensures
        forall|i: int| 0 <= i < r@.len() ==> is_combination(#[trigger] r@[i]@, n as int, k as int),
        forall|s: Seq<usize>| is_combination(s, n as int, k as int) ==> exists|i: int|
            0 <= i < r@.len() && #[trigger] r@[i]@ == s,
{
    itertools::Itertools::combinations(0..n, k).collect()
}

/// A hand of five holding the cards at the given five positions.
fn hand_at(cards: &Vec<Card>, idx: &Vec<usize>) -> (r: Hand)
    requires
        is_combination(idx@, cards@.len() as int, 5),
    ensures
        r.cards@ == pick(cards@, idx@),
        r.limit() == 5,
{
    let mut h = Hand::new(5);
    let mut j: usize = 0;
    while j < 5
        invariant
            0 <= j <= 5,
            is_combination(idx@, cards@.len() as int, 5),
            h.limit() == 5,
            h.cards@ == pick(cards@, idx@.take(j as int)),
        decreases 5 - j,
    {
        let at = idx[j];
        h.cheat(cards[at]);
        assert(pick(cards@, idx@.take(j + 1)) =~= pick(cards@, idx@.take(j as int)).push(cards@[at as int]));
        j = j + 1;
    }
    assert(idx@.take(5) =~= idx@);
    h
}

/// `r` is the score of some five of the cards, and no five of the cards score
/// higher.
pub open spec fn is_best_of(cards: Seq<Card>, r: ScoredHand) -> bool {
    &&& exists|idx: Seq<usize>| #[trigger] is_combination(idx, cards.len() as int, 5)
        && is_hand_score(pick(cards, idx), r)
    &&& forall|idx: Seq<usize>| #[trigger] is_combination(idx, cards.len() as int, 5)
        ==> exists|s: ScoredHand| is_hand_score(pick(cards, idx), s) && #[trigger] score_order(r, s) >= 0
}

/// The best score among all the ways of choosing five of the hand's cards (the last
/// of the best when several are equal).
pub fn get_best_from_7_card_hand(hand: &Hand) -> (r: ScoredHand)
    requires
        hand.cards@.len() >= 5,
    ensures
        is_best_of(hand.cards@, r),
{
    let n = hand.cards.len();
    let combos = index_combinations(n, 5);
    proof {
        let first = seq![0usize, 1, 2, 3, 4];
        assert(is_combination(first, n as int, 5));
    }
    let ghost cards = hand.cards@;
    let first_hand = hand_at(&hand.cards, &combos[0]);
    let mut best = get_best_5_card_hand(&first_hand);
    let ghost mut scores: Seq<ScoredHand> = seq![best];
    let ghost mut best_at: int = 0;
    proof { lemma_score_order_reflexive(best); }
    let mut i: usize = 1;
    while i < combos.len()
        invariant
            1 <= i <= combos@.len(),
            cards == hand.cards@,
            n == cards.len(),
            forall|j: int| 0 <= j < combos@.len() ==> is_combination(#[trigger] combos@[j]@, n as int, 5),
            scores.len() == i,
            forall|j: int| 0 <= j < i ==> is_hand_score(pick(cards, combos@[j]@), #[trigger] scores[j]),
            forall|j: int| 0 <= j < i ==> #[trigger] score_order(best, scores[j]) >= 0,
            0 <= best_at < i,
            is_hand_score(pick(cards, combos@[best_at]@), best),
        decreases combos@.len() - i,
    {
        proof { lemma_score_order_reflexive(best); }
        let h = hand_at(&hand.cards, &combos[i]);
        let candidate = get_best_5_card_hand(&h);
        proof { scores = scores.push(candidate); }
        if compare_scores(&candidate, &best) >= 0 {
            proof {
                assert forall|j: int| 0 <= j < i + 1 implies #[trigger] score_order(candidate, scores[j]) >= 0 by {
                    if j < i {
                        lemma_score_order_transitive(candidate, best, scores[j]);
                    } else {
                        lemma_score_order_reflexive(candidate);
                    }
                }
                best_at = i as int;
            }
            best = candidate;
        } else {
            proof {
                lemma_score_order_antisymmetric(candidate, best);
                assert(score_order(best, scores[i as int]) >= 0);
            }
        }
        i = i + 1;
    }
    proof {
        assert(is_combination(combos@[best_at]@, n as int, 5));
        assert forall|idx: Seq<usize>| #[trigger] is_combination(idx, n as int, 5) implies exists|s: ScoredHand|
            is_hand_score(pick(cards, idx), s) && #[trigger] score_order(best, s) >= 0 by {
            let j = choose|j: int| 0 <= j < combos@.len() && #[trigger] combos@[j]@ == idx;
            assert(is_hand_score(pick(cards, idx), scores[j]));
            assert(score_order(best, scores[j]) >= 0);
        }
    }
    best
}


// ---------------------------------------------------------------------------
// Text
// ---------------------------------------------------------------------------

/// The name of the kind of hand of the given rank.
pub open spec fn kind_text(rank: u8) -> &'static str {
    if rank == 10 { "Straight Flush" }
    else if rank == 9 { "Four of a Kind" }
    else if rank == 8 { "Full House" }
    else if rank == 7 { "Flush" }
    else if rank == 6 { "Straight" }
    else if rank == 5 { "Three of a Kind" }
    else if rank == 4 { "Two Pair" }
    else if rank == 3 { "One Pair" }
    else { "High Card" }
}

/// The text of a score: the kind's name, a colon, and the five values' characters
/// separated by commas, as in "Straight Flush: 5, 4, 3, 2, 1".
pub open spec fn score_text(s: ScoredHand) -> Seq<char> {
    let v = s.values();
    kind_text(s.rank_spec())@ + ": "@ + seq![v[0].display_char()] + ", "@ + seq![v[1].display_char()]
        + ", "@ + seq![v[2].display_char()] + ", "@ + seq![v[3].display_char()] + ", "@
        + seq![v[4].display_char()]
}

impl ScoredHand {
    /// The name of the kind of hand.
    pub fn kind_name(&self) -> (r: &'static str)
        ensures
            r == kind_text(self.rank_spec()),
    {
        match self {
            ScoredHand::StraightFlush(_) => "Straight Flush",
            ScoredHand::FourOfAKind(_) => "Four of a Kind",
            ScoredHand::FullHouse(_) => "Full House",
            ScoredHand::Flush(_) => "Flush",
            ScoredHand::Straight(_) => "Straight",
            ScoredHand::ThreeOfAKind(_) => "Three of a Kind",
            ScoredHand::TwoPair(_) => "Two Pair",
            ScoredHand::OnePair(_) => "One Pair",
            ScoredHand::HighCard(_) => "High Card",
        }
    }

    /// The text of the score, as in "Straight Flush: 5, 4, 3, 2, 1".
    pub fn to_string(&self) -> (r: String)
        ensures
            r@ == score_text(*self),
    {
        let v = self.get_values();
        let t = String::from_str(self.kind_name());
        let t = t.concat(": ");
        let t = t.concat(value_text(v[0]));
        let t = t.concat(", ");
        let t = t.concat(value_text(v[1]));
        let t = t.concat(", ");
        let t = t.concat(value_text(v[2]));
        let t = t.concat(", ");
        let t = t.concat(value_text(v[3]));
        let t = t.concat(", ");
        t.concat(value_text(v[4]))
    }
}

} // verus!
