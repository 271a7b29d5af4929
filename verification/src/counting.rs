//! Counting the values in a run of cards: how often each value occurs, how many
//! values occur a given number of times, and runs of consecutive values.

use vstd::prelude::*;
use crate::card::{Card, Value};

verus! {

broadcast use vstd::seq_lib::group_filter_ensures;

/// The values of a run of cards, in order.
pub open spec fn values_of(cards: Seq<Card>) -> Seq<Value> {
    cards.map_values(|c: Card| c.value)
}

/// How often the value numbered `v` occurs in `s`.
pub open spec fn occurrences(s: Seq<Value>, v: int) -> nat {
    s.filter(|x: Value| x.num() == v).len()
}

/// How many of the cards have the value numbered `v`.
pub open spec fn value_count(cards: Seq<Card>, v: int) -> nat {
    occurrences(values_of(cards), v)
}

/// How many of the numbers `0 .. upto` satisfy `f`.
pub open spec fn count_where(f: spec_fn(int) -> bool, upto: int) -> nat
    decreases upto,
{
    if upto <= 0 {
        0
    } else {
        count_where(f, upto - 1) + if f(upto - 1) { 1nat } else { 0nat }
    }
}

/// The sum of the occurrences in `s` of the values numbered `0 .. upto`.
pub open spec fn sum_counts(s: Seq<Value>, upto: int) -> nat
    decreases upto,
{
    if upto <= 0 {
        0
    } else {
        sum_counts(s, upto - 1) + occurrences(s, upto - 1)
    }
}

/// How many values occur exactly `k` times among the cards.
pub open spec fn values_with_count(cards: Seq<Card>, k: nat) -> nat {
    count_where(|v: int| value_count(cards, v) == k, 15)
}

/// How many different values occur among the cards.
pub open spec fn distinct_values(cards: Seq<Card>) -> nat {
    count_where(|v: int| value_count(cards, v) > 0, 15)
}

/// Five consecutive numbers, the lowest at least 0 and the highest at most 14,
/// each counted exactly once by `count`.
pub open spec fn has_run(count: spec_fn(int) -> int) -> bool {
    exists|lo: int| 0 <= lo <= 10 && #[trigger] run_at(count, lo)
}

/// The five numbers from `lo` up are each counted exactly once by `count`.
pub open spec fn run_at(count: spec_fn(int) -> int, lo: int) -> bool {
    forall|k: int| 0 <= k < 5 ==> #[trigger] count(lo + k) == 1
}

/// Appending an element adds one to its own value's occurrences only.
pub proof fn lemma_occurrences_push(s: Seq<Value>, x: Value, v: int)
    ensures
        occurrences(s.push(x), v) == occurrences(s, v) + if x.num() == v { 1nat } else { 0nat },
{
    s.lemma_filter_push(x, |y: Value| y.num() == v);
}

/// The values of the first `i + 1` cards are those of the first `i` and one more.
pub proof fn lemma_values_of_take(cards: Seq<Card>, i: int)
    requires
        0 <= i < cards.len(),
    ensures
        values_of(cards.take(i + 1)) == values_of(cards.take(i)).push(cards[i].value),
{
    assert(values_of(cards.take(i + 1)) =~= values_of(cards.take(i)).push(cards[i].value));
}

/// The values of all the cards are those of the first `len` of them.
pub proof fn lemma_values_of_all(cards: Seq<Card>)
    ensures
        values_of(cards.take(cards.len() as int)) == values_of(cards),
{
    assert(cards.take(cards.len() as int) =~= cards);
}

/// Nothing occurs in the empty sequence.
pub proof fn lemma_occurrences_empty(v: int)
    ensures
        occurrences(Seq::<Value>::empty(), v) == 0,
{
    reveal(Seq::filter);
}

/// Adding an element to `s` adds one to the sum below `u` when its number is below `u`.
proof fn lemma_sum_counts_push(t: Seq<Value>, x: Value, u: int)
    ensures
        sum_counts(t.push(x), u) == sum_counts(t, u) + if x.num() < u { 1nat } else { 0nat },
    decreases u,
{
    if u > 0 {
        lemma_sum_counts_push(t, x, u - 1);
        lemma_occurrences_push(t, x, u - 1);
    }
}

/// The empty sequence sums to nothing.
proof fn lemma_sum_counts_empty(u: int)
    ensures
        sum_counts(Seq::<Value>::empty(), u) == 0,
    decreases u,
{
    if u > 0 {
        lemma_sum_counts_empty(u - 1);
        lemma_occurrences_empty(u - 1);
    }
}

/// The occurrences of the fifteen values add up to the length of the sequence.
pub proof fn lemma_sum_counts_len(s: Seq<Value>)
    ensures
        sum_counts(s, 15) == s.len(),
    decreases s.len(),
{
    if s.len() == 0 {
        assert(s =~= Seq::<Value>::empty());
        lemma_sum_counts_empty(15);
    } else {
        let t = s.drop_last();
        lemma_sum_counts_len(t);
        lemma_sum_counts_push(t, s.last(), 15);
        crate::card::lemma_value_num(s.last());
        assert(t.push(s.last()) =~= s);
    }
}

/// Two sequences whose occurrences agree on the values `0 .. u` have equal sums
/// below `u`.
pub proof fn lemma_sum_counts_congruent(a: Seq<Value>, b: Seq<Value>, u: int)
    requires
        forall|v: int| 0 <= v < u ==> occurrences(a, v) == occurrences(b, v),
    ensures
        sum_counts(a, u) == sum_counts(b, u),
    decreases u,
{
    if u > 0 {
        lemma_sum_counts_congruent(a, b, u - 1);
    }
}

/// Two predicates that agree on `0 .. u` count alike below `u`.
pub proof fn lemma_count_where_congruent(f: spec_fn(int) -> bool, g: spec_fn(int) -> bool, u: int)
    requires
        forall|v: int| 0 <= v < u ==> #[trigger] f(v) == g(v),
    ensures
        count_where(f, u) == count_where(g, u),
    decreases u,
{
    if u > 0 {
        lemma_count_where_congruent(f, g, u - 1);
    }
}

/// The number of cards of each of the fifteen values, indexed by the value's number.
pub fn value_counts(cards: &Vec<Card>) -> (c: Vec<usize>)
    ensures
        c@.len() == 15,
        forall|v: int| 0 <= v < 15 ==> #[trigger] c@[v] == value_count(cards@, v),
{
    let mut c: Vec<usize> = Vec::new();
    let mut v: usize = 0;
    while v < 15
        invariant
            0 <= v <= 15,
            c@.len() == v,
            forall|w: int| 0 <= w < v ==> #[trigger] c@[w] == 0,
        decreases 15 - v,
    {
        c.push(0);
        v = v + 1;
    }
    proof {
        assert forall|w: int| 0 <= w < 15 implies #[trigger] c@[w] == value_count(cards@.take(0), w) by {
            assert(values_of(cards@.take(0)) =~= Seq::<Value>::empty());
            lemma_occurrences_empty(w);
        }
    }
    let mut i: usize = 0;
    while i < cards.len()
        invariant
            0 <= i <= cards@.len(),
            c@.len() == 15,
            forall|w: int| 0 <= w < 15 ==> #[trigger] c@[w] == value_count(cards@.take(i as int), w),
            forall|w: int| 0 <= w < 15 ==> #[trigger] c@[w] <= i,
        decreases cards@.len() - i,
    {
        let x = cards[i].value;
        let n = x.as_u8() as usize;
        proof {
            crate::card::lemma_value_num(x);
            lemma_values_of_take(cards@, i as int);
            assert forall|w: int| 0 <= w < 15 implies value_count(cards@.take(i + 1), w)
                == value_count(cards@.take(i as int), w) + if x.num() == w { 1nat } else { 0nat } by {
                lemma_occurrences_push(values_of(cards@.take(i as int)), x, w);
            }
        }
        let old_count = c[n];
        c.set(n, old_count + 1);
        i = i + 1;
    }
    proof {
        lemma_values_of_all(cards@);
    }
    c
}

/// How many of the fifteen counts equal `k`.
pub fn count_values_with(c: &Vec<usize>, k: usize, Ghost(cards): Ghost<Seq<Card>>) -> (n: usize)
    requires
        c@.len() == 15,
        forall|v: int| 0 <= v < 15 ==> #[trigger] c@[v] == value_count(cards, v),
    ensures
        n == values_with_count(cards, k as nat),
{
    let ghost f = |v: int| value_count(cards, v) == k as nat;
    let mut n: usize = 0;
    let mut v: usize = 0;
    while v < 15
        invariant
            0 <= v <= 15,
            n <= v,
            c@.len() == 15,
            forall|w: int| 0 <= w < 15 ==> #[trigger] c@[w] == value_count(cards, w),
            f == (|v: int| value_count(cards, v) == k as nat),
            n == count_where(f, v as int),
        decreases 15 - v,
    {
        if c[v] == k {
            n = n + 1;
        }
        v = v + 1;
    }
    n
}

/// How many of the fifteen counts are above zero.
pub fn count_distinct_values(c: &Vec<usize>, Ghost(cards): Ghost<Seq<Card>>) -> (n: usize)
    requires
        c@.len() == 15,
        forall|v: int| 0 <= v < 15 ==> #[trigger] c@[v] == value_count(cards, v),
    ensures
        n == distinct_values(cards),
{
    let ghost f = |v: int| value_count(cards, v) > 0;
    let mut n: usize = 0;
    let mut v: usize = 0;
    while v < 15
        invariant
            0 <= v <= 15,
            n <= v,
            c@.len() == 15,
            forall|w: int| 0 <= w < 15 ==> #[trigger] c@[w] == value_count(cards, w),
            f == (|v: int| value_count(cards, v) > 0),
            n == count_where(f, v as int),
        decreases 15 - v,
    {
        if c[v] > 0 {
            n = n + 1;
        }
        v = v + 1;
    }
    n
}

/// Whether the fifteen counts hold a run: five consecutive counts of exactly one.
pub fn find_run(c: &Vec<usize>, Ghost(f): Ghost<spec_fn(int) -> int>) -> (r: bool)
    requires
        c@.len() == 15,
        forall|v: int| 0 <= v < 15 ==> #[trigger] f(v) == c@[v] as int,
    ensures
        r == has_run(f),
{
    let mut lo: usize = 0;
    while lo <= 10
        invariant
            0 <= lo <= 11,
            c@.len() == 15,
            forall|v: int| 0 <= v < 15 ==> #[trigger] f(v) == c@[v] as int,
            forall|l: int| 0 <= l < lo ==> !#[trigger] run_at(f, l),
        decreases 11 - lo,
    {
        let mut k: usize = 0;
        let mut all_one = true;
        while k < 5
            invariant
                0 <= k <= 5,
                lo <= 10,
                c@.len() == 15,
                forall|v: int| 0 <= v < 15 ==> #[trigger] f(v) == c@[v] as int,
                all_one == forall|j: int| 0 <= j < k ==> #[trigger] f(lo + j) == 1,
            decreases 5 - k,
        {
            assert(f(lo + k) == c@[lo + k] as int);
            if c[lo + k] != 1 {
                all_one = false;
            }
            k = k + 1;
        }
        if all_one {
            assert(run_at(f, lo as int));
            return true;
        }
        lo = lo + 1;
    }
    false
}

} // verus!
