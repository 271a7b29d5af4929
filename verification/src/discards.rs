//! Choosing the cards to throw away in five card draw: reading a player's answer,
//! and what discarding the chosen cards leaves of a hand.

use vstd::prelude::*;
use crate::card::Card;
use crate::text::{listed_bytes, read_listed_bytes};

verus! {

/// The answer named no card.
pub const NO_VALUE_ERROR: &'static str = "Please enter a value.";

/// The answer named 0 together with other numbers.
pub const ZERO_WITH_OTHERS_ERROR: &'static str = "You cannot enter other numbers with 0. Please try again.";

/// The answer named more than five cards.
pub const TOO_MANY_ERROR: &'static str = "Please enter up to five values.";

/// The answer named a number outside 1 to 5.
pub const OUT_OF_RANGE_ERROR: &'static str = "Please enter values between 1 and 5.";

/// The answer named a card twice.
pub const REPEATED_ERROR: &'static str = "Numbers must not be repeated.";

/// The numbers from 1 to `k` that the list holds, in increasing order.
pub open spec fn ascending_choice(ns: Seq<u8>, k: int) -> Seq<u8>
    decreases k,
{
    if k <= 0 {
        Seq::empty()
    } else {
        ascending_choice(ns, k - 1) + if ns.contains(k as u8) {
            seq![k as u8]
        } else {
            Seq::<u8>::empty()
        }
    }
}

/// What a list of card numbers asks for: no number is refused; a lone 0 keeps
/// every card, while 0 with other numbers is refused; more than five numbers, a
/// number outside 1 to 5, or a number given twice is refused; otherwise the numbers
/// are taken in increasing order.
pub open spec fn discard_choice(ns: Seq<u8>) -> Result<Seq<u8>, &'static str> {
    if ns.len() == 0 {
        Err(NO_VALUE_ERROR)
    } else if ns.contains(0u8) {
        if ns.len() == 1 {
            Ok(Seq::empty())
        } else {
            Err(ZERO_WITH_OTHERS_ERROR)
        }
    } else if ns.len() > 5 {
        Err(TOO_MANY_ERROR)
    } else if exists|i: int| 0 <= i < ns.len() && (#[trigger] ns[i] < 1 || ns[i] > 5) {
        Err(OUT_OF_RANGE_ERROR)
    } else if !ns.no_duplicates() {
        Err(REPEATED_ERROR)
    } else {
        Ok(ascending_choice(ns, 5))
    }
}

/// Whether a list of card numbers is strictly increasing and each at least 1 and
/// at most 5.
pub open spec fn valid_discards(idx: Seq<u8>) -> bool {
    &&& forall|i: int| 0 <= i < idx.len() ==> 1 <= #[trigger] idx[i] <= 5
    &&& forall|i: int, j: int| 0 <= i < j < idx.len() ==> #[trigger] idx[i] < #[trigger] idx[j]
}

/// The numbers taken in increasing order are strictly increasing, lie between 1 and
/// `k`, and are exactly those of the list in that range.
proof fn lemma_ascending_choice(ns: Seq<u8>, k: int)
    requires
        0 <= k <= 255,
    ensures
        forall|i: int| 0 <= i < ascending_choice(ns, k).len() ==> 1 <= #[trigger] ascending_choice(ns, k)[i] <= k,
        forall|i: int, j: int| 0 <= i < j < ascending_choice(ns, k).len()
            ==> #[trigger] ascending_choice(ns, k)[i] < #[trigger] ascending_choice(ns, k)[j],
        forall|v: u8| #[trigger] ascending_choice(ns, k).contains(v) <==> (1 <= v <= k && ns.contains(v)),
    decreases k,
{
    if k > 0 {
        lemma_ascending_choice(ns, k - 1);
        let a = ascending_choice(ns, k - 1);
        if ns.contains(k as u8) {
            let b = a + seq![k as u8];
            assert(b == ascending_choice(ns, k));
            assert forall|v: u8| #[trigger] b.contains(v) <==> (1 <= v <= k && ns.contains(v)) by {
                if b.contains(v) {
                    let i = choose|i: int| 0 <= i < b.len() && b[i] == v;
                    if i < a.len() {
                        assert(a.contains(v));
                    }
                }
                if 1 <= v <= k && ns.contains(v) {
                    if v < k {
                        assert(a.contains(v));
                        let i = choose|i: int| 0 <= i < a.len() && a[i] == v;
                        assert(b[i] == v);
                    } else {
                        assert(b[a.len() as int] == v);
                    }
                }
            }
        } else {
            assert(ascending_choice(ns, k) =~= a);
        }
    }
}

/// An accepted answer asks to throw away exactly the cards it names, once each, in
/// increasing order: the numbers given back lie between 1 and 5, rise strictly, and
/// are the numbers named other than 0.
pub proof fn lemma_accepted_answer_names_the_cards(ns: Seq<u8>)
    requires
        discard_choice(ns) is Ok,
    ensures
        valid_discards(discard_choice(ns)->Ok_0),
        forall|x: u8| x != 0 ==> (#[trigger] (discard_choice(ns)->Ok_0).contains(x) <==> ns.contains(x)),
{
    lemma_ascending_choice(ns, 5);
    if ns.contains(0u8) {
        assert(ns.len() == 1);
        assert forall|x: u8| x != 0 implies (#[trigger] (discard_choice(ns)->Ok_0).contains(x) <==> ns.contains(x)) by {
            if ns.contains(x) {
                let i = choose|i: int| 0 <= i < ns.len() && ns[i] == x;
                let z = choose|i: int| 0 <= i < ns.len() && ns[i] == 0u8;
                assert(i == 0 && z == 0);
            }
        }
    } else {
        assert forall|x: u8| x != 0 implies (#[trigger] (discard_choice(ns)->Ok_0).contains(x) <==> ns.contains(x)) by {
            if ns.contains(x) {
                let i = choose|i: int| 0 <= i < ns.len() && ns[i] == x;
                assert(!(ns[i] < 1 || ns[i] > 5));
            }
        }
    }
}

/// Which cards a list of numbers asks to throw away, or why it is refused.
fn choose_from(ns: &Vec<u8>) -> (r: Result<Vec<u8>, &'static str>)
    ensures
        match r {
            Ok(v) => discard_choice(ns@) == Ok::<Seq<u8>, &'static str>(v@),
            Err(e) => discard_choice(ns@) == Err::<Seq<u8>, &'static str>(e),
        },
{
    let n = ns.len();
    if n == 0 {
        return Err(NO_VALUE_ERROR);
    }
    let mut i: usize = 0;
    while i < n
        invariant
            0 <= i <= n,
            n == ns@.len(),
            forall|j: int| 0 <= j < i ==> #[trigger] ns@[j] != 0,
        decreases n - i,
    {
        if ns[i] == 0 {
            assert(ns@.contains(0u8));
            if n == 1 {
                return Ok(Vec::new());
            }
            return Err(ZERO_WITH_OTHERS_ERROR);
        }
        i = i + 1;
    }
    assert(!ns@.contains(0u8));
    if n > 5 {
        return Err(TOO_MANY_ERROR);
    }
    let mut i: usize = 0;
    while i < n
        invariant
            0 <= i <= n,
            n == ns@.len(),
            0 < n <= 5,
            !ns@.contains(0u8),
            forall|j: int| 0 <= j < i ==> 1 <= #[trigger] ns@[j] <= 5,
        decreases n - i,
    {
        if ns[i] < 1 || ns[i] > 5 {
            assert(ns@[i as int] < 1 || ns@[i as int] > 5);
            return Err(OUT_OF_RANGE_ERROR);
        }
        i = i + 1;
    }
    let mut i: usize = 0;
    while i < n
        invariant
            0 <= i <= n,
            n == ns@.len(),
            0 < n <= 5,
            !ns@.contains(0u8),
            forall|j: int| 0 <= j < n ==> 1 <= #[trigger] ns@[j] <= 5,
            forall|a: int, b: int| 0 <= a < b < n && a < i ==> #[trigger] ns@[a] != #[trigger] ns@[b],
        decreases n - i,
    {
        let mut j: usize = i + 1;
        while j < n
            invariant
                i < j <= n,
                n == ns@.len(),
                0 < n <= 5,
                !ns@.contains(0u8),
                forall|j: int| 0 <= j < n ==> 1 <= #[trigger] ns@[j] <= 5,
                forall|a: int, b: int| 0 <= a < b < n && a < i ==> #[trigger] ns@[a] != #[trigger] ns@[b],
                forall|b: int| i < b < j ==> ns@[i as int] != #[trigger] ns@[b],
            decreases n - j,
        {
            if ns[i] == ns[j] {
                assert(!ns@.no_duplicates());
                return Err(REPEATED_ERROR);
            }
            j = j + 1;
        }
        i = i + 1;
    }
    assert(ns@.no_duplicates());
    let mut chosen: Vec<u8> = Vec::new();
    let mut v: u8 = 1;
    while v <= 5
        invariant
            1 <= v <= 6,
            n == ns@.len(),
            chosen@ == ascending_choice(ns@, v - 1),
        decreases 6 - v,
    {
        let mut found = false;
        let mut k: usize = 0;
        while k < n
            invariant
                0 <= k <= n,
                n == ns@.len(),
                found == exists|j: int| 0 <= j < k && #[trigger] ns@[j] == v,
            decreases n - k,
        {
            if ns[k] == v {
                found = true;
            }
            k = k + 1;
        }
        assert(found == ns@.contains(v));
        if found {
            chosen.push(v);
        }
        assert(chosen@ =~= ascending_choice(ns@, v as int));
        v = v + 1;
    }
    Ok(chosen)
}

/// Reads a player's answer naming the cards to throw away: numbers from 1 to 5
/// separated by commas (pieces that are not a number are passed over), or a lone 0
/// to keep every card. Gives the numbers in increasing order, or the message
/// refusing the answer.
pub fn choose_discards(input: &str) -> (r: Result<Vec<u8>, &'static str>)
    ensures
        match r {
            Ok(v) => discard_choice(listed_bytes(input@)) == Ok::<Seq<u8>, &'static str>(v@) && valid_discards(v@),
            Err(e) => discard_choice(listed_bytes(input@)) == Err::<Seq<u8>, &'static str>(e),
        },
{
    let ns = read_listed_bytes(input);
    let r = choose_from(&ns);
    proof { lemma_ascending_choice(ns@, 5); }
    r
}

/// The hand after the first `k` discards of a redraw: the `k`-th discard removes
/// the card at its number less `k` (the cards before it having moved up), and
/// changes nothing when no card is there.
pub open spec fn discard_steps(h: Seq<Card>, idx: Seq<u8>, k: int) -> Seq<Card>
    decreases k,
{
    if k <= 0 {
        h
    } else {
        let h1 = discard_steps(h, idx, k - 1);
        let a = idx[k - 1] - k;
        if 0 <= a < h1.len() % 256 {
            h1.remove(a)
        } else {
            h1
        }
    }
}

/// The cards among the first `n` of a hand whose numbers (counting from 1) are not
/// in the list, in order.
pub open spec fn kept_cards(h: Seq<Card>, idx: Seq<u8>, n: int) -> Seq<Card>
    decreases n,
{
    if n <= 0 {
        Seq::empty()
    } else {
        kept_cards(h, idx, n - 1) + if idx.contains(n as u8) {
            Seq::<Card>::empty()
        } else {
            seq![h[n - 1]]
        }
    }
}

/// How many of the numbers 1 to `n` the list holds.
pub open spec fn count_listed(idx: Seq<u8>, n: int) -> int
    decreases n,
{
    if n <= 0 {
        0
    } else {
        count_listed(idx, n - 1) + if idx.contains(n as u8) { 1int } else { 0int }
    }
}

/// The kept cards number those looked at less those listed, and grow with `n`.
proof fn lemma_kept_len(h: Seq<Card>, idx: Seq<u8>, n: int)
    requires
        0 <= n,
    ensures
        kept_cards(h, idx, n).len() == n - count_listed(idx, n),
        0 <= count_listed(idx, n) <= n,
        forall|m: int| 0 <= m <= n ==> #[trigger] kept_cards(h, idx, m).len() <= kept_cards(h, idx, n).len(),
    decreases n,
{
    if n > 0 {
        lemma_kept_len(h, idx, n - 1);
    }
}

/// Two lists that hold the same numbers from 1 to `n` keep the same cards.
proof fn lemma_kept_congruent(h: Seq<Card>, a: Seq<u8>, b: Seq<u8>, n: int)
    requires
        0 <= n <= 255,
        forall|v: int| 1 <= v <= n ==> #[trigger] a.contains(v as u8) == b.contains(v as u8),
    ensures
        kept_cards(h, a, n) == kept_cards(h, b, n),
    decreases n,
{
    if n > 0 {
        lemma_kept_congruent(h, a, b, n - 1);
        assert(a.contains(n as u8) == b.contains(n as u8));
    }
}

/// Adding a number `c` not yet listed removes, from the kept cards, the card at
/// number `c`, which stands after the kept cards before it.
proof fn lemma_kept_add(h: Seq<Card>, s: Seq<u8>, c: u8, n: int)
    requires
        1 <= c <= n <= 255,
        !s.contains(c),
    ensures
        kept_cards(h, s.push(c), n) == kept_cards(h, s, n).remove(c - 1 - count_listed(s, c - 1)),
    decreases n,
{
    let t = s.push(c);
    assert forall|v: int| 1 <= v <= 255 && v != c implies #[trigger] t.contains(v as u8) == s.contains(v as u8) by {
        if t.contains(v as u8) {
            let i = choose|i: int| 0 <= i < t.len() && t[i] == v as u8;
            assert(i < s.len());
            assert(s[i] == v as u8);
        }
        if s.contains(v as u8) {
            let i = choose|i: int| 0 <= i < s.len() && s[i] == v as u8;
            assert(t[i] == v as u8);
        }
    }
    assert(t[s.len() as int] == c);
    assert(t.contains(c));
    lemma_kept_len(h, s, n);
    if n == c {
        lemma_kept_congruent(h, t, s, n - 1);
        lemma_kept_len(h, s, n - 1);
        let a = kept_cards(h, s, n - 1);
        assert(kept_cards(h, s, n) == a.push(h[n - 1]));
        assert(a.push(h[n - 1]).remove(a.len() as int) =~= a);
        assert(kept_cards(h, t, n) =~= a);
    } else {
        lemma_kept_add(h, s, c, n - 1);
        lemma_kept_len(h, s, n - 1);
        lemma_kept_len(h, s, c as int);
        lemma_kept_len(h, s, c - 1);
        let pos = c - 1 - count_listed(s, c - 1);
        let a = kept_cards(h, s, n - 1);
        assert(pos < kept_cards(h, s, c as int).len());
        assert(pos < a.len());
        assert(t.contains(n as u8) == s.contains(n as u8));
        let x = if s.contains(n as u8) { Seq::<Card>::empty() } else { seq![h[n - 1]] };
        assert(a.remove(pos) + x =~= (a + x).remove(pos));
    }
}

/// Listing one more number, not listed before, counts it once more from there on.
proof fn lemma_count_push(s: Seq<u8>, c: u8, n: int)
    requires
        1 <= c,
        0 <= n <= 255,
        !s.contains(c),
    ensures
        count_listed(s.push(c), n) == count_listed(s, n) + if c <= n { 1int } else { 0int },
    decreases n,
{
    if n > 0 {
        lemma_count_push(s, c, n - 1);
        let t = s.push(c);
        if n == c {
            assert(t[s.len() as int] == c);
        } else {
            if t.contains(n as u8) {
                let i = choose|i: int| 0 <= i < t.len() && t[i] == n as u8;
                assert(i < s.len() && s[i] == n as u8);
            }
            if s.contains(n as u8) {
                let i = choose|i: int| 0 <= i < s.len() && s[i] == n as u8;
                assert(t[i] == n as u8);
            }
        }
    } else {
        assert(count_listed(s.push(c), n) == 0);
    }
}

/// A strictly increasing list of numbers from 1 to `m` counts as many numbers up
/// to `m` as it holds.
proof fn lemma_count_increasing(t: Seq<u8>, m: int)
    requires
        0 <= m <= 255,
        forall|i: int| 0 <= i < t.len() ==> 1 <= #[trigger] t[i] <= m,
        forall|i: int, j: int| 0 <= i < j < t.len() ==> #[trigger] t[i] < #[trigger] t[j],
    ensures
        count_listed(t, m) == t.len(),
    decreases t.len(),
{
    if t.len() == 0 {
        lemma_count_empty(t, m);
    } else {
        let s = t.drop_last();
        let c = t.last();
        assert(s.push(c) =~= t);
        lemma_count_increasing(s, m);
        if s.contains(c) {
            let i = choose|i: int| 0 <= i < s.len() && s[i] == c;
            assert(t[i] < t[t.len() - 1]);
        }
        lemma_count_push(s, c, m);
    }
}

/// An empty list counts nothing.
proof fn lemma_count_empty(t: Seq<u8>, m: int)
    requires
        t.len() == 0,
    ensures
        count_listed(t, m) == 0,
    decreases m,
{
    if m > 0 {
        lemma_count_empty(t, m - 1);
    }
}

/// An empty list keeps the first `n` cards.
proof fn lemma_kept_none(h: Seq<Card>, t: Seq<u8>, n: int)
    requires
        t.len() == 0,
        0 <= n <= h.len(),
    ensures
        kept_cards(h, t, n) == h.take(n),
    decreases n,
{
    if n > 0 {
        lemma_kept_none(h, t, n - 1);
        assert(h.take(n - 1).push(h[n - 1]) =~= h.take(n));
    } else {
        assert(h.take(0) =~= Seq::<Card>::empty());
    }
}

/// From `n` to `m`, a list counts at most one more number for each number passed.
proof fn lemma_count_grows(t: Seq<u8>, n: int, m: int)
    requires
        0 <= n <= m,
    ensures
        0 <= count_listed(t, m) - count_listed(t, n) <= m - n,
    decreases m - n,
{
    if m > n {
        lemma_count_grows(t, n, m - 1);
    }
}

/// Discarding the chosen cards one at a time, each at its number less the cards
/// already gone, throws away exactly the chosen cards that the hand holds, and
/// keeps the others in their order.
pub proof fn lemma_discards_keep_the_rest(h: Seq<Card>, idx: Seq<u8>)
    requires
        h.len() <= 255,
        valid_discards(idx),
    ensures
        discard_steps(h, idx, idx.len() as int) == kept_cards(h, idx, h.len() as int),
{
    lemma_discard_prefix(h, idx, idx.len() as int);
    assert(idx.take(idx.len() as int) =~= idx);
}

/// After the first `k` discards, the hand keeps exactly the cards not among the
/// first `k` chosen.
proof fn lemma_discard_prefix(h: Seq<Card>, idx: Seq<u8>, k: int)
    requires
        h.len() <= 255,
        valid_discards(idx),
        0 <= k <= idx.len(),
    ensures
        discard_steps(h, idx, k) == kept_cards(h, idx.take(k), h.len() as int),
    decreases k,
{
    let n = h.len() as int;
    if k == 0 {
        lemma_kept_none(h, idx.take(0), n);
        assert(h.take(n) =~= h);
    } else {
        lemma_discard_prefix(h, idx, k - 1);
        let s = idx.take(k - 1);
        let c = idx[k - 1];
        assert(idx.take(k) =~= s.push(c));
        if s.contains(c) {
            let i = choose|i: int| 0 <= i < s.len() && s[i] == c;
            assert(idx[i] < idx[k - 1]);
        }
        assert forall|i: int| 0 <= i < s.len() implies 1 <= #[trigger] s[i] <= c - 1 by {
            assert(idx[i] < idx[k - 1]);
        }
        lemma_count_increasing(s, c - 1);
        if c > n {
            let t = s.push(c);
            assert forall|v: int| 1 <= v <= n implies #[trigger] t.contains(v as u8) == s.contains(v as u8) by {
                if t.contains(v as u8) {
                    let i = choose|i: int| 0 <= i < t.len() && t[i] == v as u8;
                    assert(i < s.len() && s[i] == v as u8);
                }
                if s.contains(v as u8) {
                    let i = choose|i: int| 0 <= i < s.len() && s[i] == v as u8;
                    assert(t[i] == v as u8);
                }
            }
            lemma_kept_congruent(h, t, s, n);
            lemma_kept_len(h, s, n);
            lemma_count_push(s, c, c as int);
            lemma_count_push(s, c, n);
            lemma_count_grows(s, n, c - 1);
            let h1 = discard_steps(h, idx, k - 1);
            assert(h1.len() % 256 == h1.len());
            assert(!(0 <= c - k < h1.len()));
            return;
        }
        lemma_kept_add(h, s, c, n);
        lemma_kept_len(h, s, n);
        assert forall|i: int| 0 <= i < s.len() implies 1 <= #[trigger] s[i] <= n by {
            assert(idx[i] < idx[k - 1]);
        }
        lemma_count_increasing(s, n);
        lemma_kept_len(h, s, c - 1);
        let h1 = discard_steps(h, idx, k - 1);
        assert(h1 == kept_cards(h, s, n));
        assert(h1.len() == n - (k - 1));
        assert(count_listed(s, c - 1) == k - 1);
        assert(h1.len() % 256 == h1.len());
        assert(0 <= c - k < h1.len());
        assert(discard_steps(h, idx, k) == h1.remove(c - k));
    }
}

/// Valid discards number at most five, and the `i`-th (from 0) is at least `i + 1`.
pub proof fn lemma_valid_discards_bounds(idx: Seq<u8>)
    requires
        valid_discards(idx),
    ensures
        idx.len() <= 5,
        forall|i: int| 0 <= i < idx.len() ==> #[trigger] idx[i] >= i + 1,
{
    assert forall|i: int| 0 <= i < idx.len() implies #[trigger] idx[i] >= i + 1 by {
        lemma_valid_discards_at(idx, i);
    }
    if idx.len() > 5 {
        lemma_valid_discards_at(idx, 5);
    }
}

/// The `i`-th valid discard (from 0) is at least `i + 1`.
proof fn lemma_valid_discards_at(idx: Seq<u8>, i: int)
    requires
        valid_discards(idx),
        0 <= i < idx.len(),
    ensures
        idx[i] >= i + 1,
    decreases i,
{
    if i > 0 {
        lemma_valid_discards_at(idx, i - 1);
        assert(idx[i - 1] < idx[i]);
    }
}

} // verus!
