//! How cards and scored hands compare with `<`, `>` and `==`.

use vstd::prelude::*;
use vstd::std_specs::cmp::{PartialEqSpecImpl, PartialOrdSpecImpl};
use std::cmp::Ordering;
use crate::card::Card;
use crate::score_hands::{compare_scores, score_order, ScoredHand};

verus! {

/// The ordering that a sign stands for: 1 greater, -1 less, anything else equal.
pub open spec fn ordering_of_sign(sign: int) -> Ordering {
    if sign > 0 {
        Ordering::Greater
    } else if sign < 0 {
        Ordering::Less
    } else {
        Ordering::Equal
    }
}

/// The sign of the difference between two card values' numbers.
pub open spec fn card_sign(a: Card, b: Card) -> int {
    if a.value.num() > b.value.num() {
        1
    } else if a.value.num() < b.value.num() {
        -1
    } else {
        0
    }
}

/// Orders two cards by value alone, whatever their suits.
impl PartialOrd for Card {
    fn partial_cmp(&self, other: &Self) -> (r: Option<Ordering>) {
        let a = self.value.as_u8();
        let b = other.value.as_u8();
        if a > b {
            Some(Ordering::Greater)
        } else if a < b {
            Some(Ordering::Less)
        } else {
            Some(Ordering::Equal)
        }
    }
}

impl PartialOrdSpecImpl for Card {
    open spec fn obeys_partial_cmp_spec() -> bool {
        true
    }

    open spec fn partial_cmp_spec(&self, other: &Card) -> Option<Ordering> {
        Some(ordering_of_sign(card_sign(*self, *other)))
    }
}

/// Two scores are equal when neither hand beats the other.
impl PartialEq for ScoredHand {
    fn eq(&self, other: &Self) -> (r: bool) {
        compare_scores(self, other) == 0
    }
}

impl PartialEqSpecImpl for ScoredHand {
    open spec fn obeys_eq_spec() -> bool {
        true
    }

    open spec fn eq_spec(&self, other: &ScoredHand) -> bool {
        score_order(*self, *other) == 0
    }
}

impl Eq for ScoredHand {}

/// Orders scores by strength: kind first, then the deciding values.
impl PartialOrd for ScoredHand {
    fn partial_cmp(&self, other: &Self) -> (r: Option<Ordering>) {
        let sign = compare_scores(self, other);
        if sign > 0 {
            Some(Ordering::Greater)
        } else if sign < 0 {
            Some(Ordering::Less)
        } else {
            Some(Ordering::Equal)
        }
    }
}

impl PartialOrdSpecImpl for ScoredHand {
    open spec fn obeys_partial_cmp_spec() -> bool {
        true
    }

    open spec fn partial_cmp_spec(&self, other: &ScoredHand) -> Option<Ordering> {
        Some(ordering_of_sign(score_order(*self, *other)))
    }
}

} // verus!
