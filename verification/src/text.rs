//! Reading and writing numbers as decimal text.

use vstd::prelude::*;

verus! {

/// The character of a decimal digit.
pub open spec fn digit_char(d: int) -> char {
    if d == 0 {
        '0'
    } else if d == 1 {
        '1'
    } else if d == 2 {
        '2'
    } else if d == 3 {
        '3'
    } else if d == 4 {
        '4'
    } else if d == 5 {
        '5'
    } else if d == 6 {
        '6'
    } else if d == 7 {
        '7'
    } else if d == 8 {
        '8'
    } else {
        '9'
    }
}

/// The decimal digits of a number, most significant first, with no leading zeros
/// ("0" for zero).
pub open spec fn decimal(n: nat) -> Seq<char>
    decreases n,
{
    if n < 10 {
        seq![digit_char(n as int)]
    } else {
        decimal(n / 10).push(digit_char((n % 10) as int))
    }
}

/// The text of one decimal digit.
fn digit_text(d: u32) -> (r: &'static str)
    requires
        d < 10,
    ensures
        r@ == seq![digit_char(d as int)],
{
    match d {
        0 => {
            proof { reveal_strlit("0"); }
            "0"
        },
        1 => {
            proof { reveal_strlit("1"); }
            "1"
        },
        2 => {
            proof { reveal_strlit("2"); }
            "2"
        },
        3 => {
            proof { reveal_strlit("3"); }
            "3"
        },
        4 => {
            proof { reveal_strlit("4"); }
            "4"
        },
        5 => {
            proof { reveal_strlit("5"); }
            "5"
        },
        6 => {
            proof { reveal_strlit("6"); }
            "6"
        },
        7 => {
            proof { reveal_strlit("7"); }
            "7"
        },
        8 => {
            proof { reveal_strlit("8"); }
            "8"
        },
        _ => {
            proof { reveal_strlit("9"); }
            "9"
        },
    }
}

/// A number written in decimal.
pub fn decimal_text(n: u32) -> (r: String)
    ensures
        r@ == decimal(n as nat),
    decreases n,
{
    if n < 10 {
        String::from_str(digit_text(n))
    } else {
        let mut s = decimal_text(n / 10);
        s.append(digit_text(n % 10));
        s
    }
}

/// Whether a character is white space: one of the characters with Unicode's
/// `White_Space` property.
pub open spec fn is_white(c: char) -> bool {
    let u = c as u32;
    ||| 0x9 <= u <= 0xD
    ||| u == 0x20
    ||| u == 0x85
    ||| u == 0xA0
    ||| u == 0x1680
    ||| 0x2000 <= u <= 0x200A
    ||| u == 0x2028
    ||| u == 0x2029
    ||| u == 0x202F
    ||| u == 0x205F
    ||| u == 0x3000
}

/// The text without its leading white space.
pub open spec fn trim_start(s: Seq<char>) -> Seq<char>
    decreases s.len(),
{
    if s.len() > 0 && is_white(s[0]) {
        trim_start(s.drop_first())
    } else {
        s
    }
}

/// The text without its trailing white space.
pub open spec fn trim_end(s: Seq<char>) -> Seq<char>
    decreases s.len(),
{
    if s.len() > 0 && is_white(s.last()) {
        trim_end(s.drop_last())
    } else {
        s
    }
}

/// The text without its leading and trailing white space.
pub open spec fn trimmed(s: Seq<char>) -> Seq<char> {
    trim_end(trim_start(s))
}

/// The pieces of a text between its commas, in order: one more piece than there
/// are commas, each possibly empty.
pub open spec fn comma_pieces(s: Seq<char>) -> Seq<Seq<char>>
    decreases s.len(),
{
    if s.len() == 0 {
        seq![Seq::<char>::empty()]
    } else {
        let p = comma_pieces(s.drop_last());
        if s.last() == ',' {
            p.push(Seq::<char>::empty())
        } else {
            p.update(p.len() - 1, p.last().push(s.last()))
        }
    }
}

/// Whether a character is a decimal digit.
pub open spec fn is_digit(c: char) -> bool {
    '0' as u32 <= c as u32 <= '9' as u32
}

/// The value of a string of decimal digits, most significant first (0 for none).
pub open spec fn digits_value(d: Seq<char>) -> int
    decreases d.len(),
{
    if d.len() == 0 {
        0
    } else {
        digits_value(d.drop_last()) * 10 + (d.last() as u32 - '0' as u32)
    }
}

/// The byte a text reads as: an optional `+` and then one or more decimal digits
/// whose value is at most 255; any other text reads as nothing.
pub open spec fn byte_of(t: Seq<char>) -> Option<u8> {
    if sign_dropped(t).len() > 0 && all_digits(sign_dropped(t)) && digits_value(sign_dropped(t)) <= 255 {
        Some(digits_value(sign_dropped(t)) as u8)
    } else {
        None
    }
}

/// The text without a leading `+`, if it has one.
pub open spec fn sign_dropped(t: Seq<char>) -> Seq<char> {
    if t.len() > 0 && t[0] == '+' {
        t.drop_first()
    } else {
        t
    }
}

/// Whether every character of the text is a decimal digit.
pub open spec fn all_digits(d: Seq<char>) -> bool {
    forall|i: int| 0 <= i < d.len() ==> #[trigger] is_digit(d[i])
}

/// The bytes read from the pieces of a list, each piece with its white space
/// trimmed; a piece that reads as no byte is passed over.
pub open spec fn bytes_of(ps: Seq<Seq<char>>) -> Seq<u8>
    decreases ps.len(),
{
    if ps.len() == 0 {
        Seq::empty()
    } else {
        bytes_of(ps.drop_last()) + match byte_of(trimmed(ps.last())) {
            Some(b) => seq![b],
            None => Seq::<u8>::empty(),
        }
    }
}

/// The bytes listed in a text, separated by commas: the text is trimmed, cut at
/// its commas, and each piece read as a byte, pieces that are not one passed over.
pub open spec fn listed_bytes(s: Seq<char>) -> Seq<u8> {
    bytes_of(comma_pieces(trimmed(s)))
}

/// Whether a character is white space.
pub fn white(c: char) -> (r: bool)
    ensures
        r == is_white(c),
{
    let u = c as u32;
    (0x9 <= u && u <= 0xD) || u == 0x20 || u == 0x85 || u == 0xA0 || u == 0x1680 || (0x2000 <= u && u <= 0x200A)
        || u == 0x2028 || u == 0x2029 || u == 0x202F || u == 0x205F || u == 0x3000
}

/// The characters of a text.
pub fn chars_of(s: &str) -> (r: Vec<char>)
    ensures
        r@ == s@,
{
    let n = s.unicode_len();
    let mut r: Vec<char> = Vec::new();
    let mut i: usize = 0;
    while i < n
        invariant
            0 <= i <= n,
            n == s@.len(),
            r@ == s@.take(i as int),
        decreases n - i,
    {
        r.push(s.get_char(i));
        assert(s@.take(i + 1) =~= s@.take(i as int).push(s@[i as int]));
        i = i + 1;
    }
    assert(s@.take(n as int) =~= s@);
    r
}

/// Dropping white space from the front of a text that starts with some leaves what
/// trimming the front leaves.
proof fn lemma_trim_start_skip(s: Seq<char>, i: int)
    requires
        0 <= i <= s.len(),
        forall|j: int| 0 <= j < i ==> #[trigger] is_white(s[j]),
    ensures
        trim_start(s) == trim_start(s.skip(i)),
    decreases i,
{
    if i > 0 {
        assert(s.skip(1) =~= s.drop_first());
        lemma_trim_start_skip(s.drop_first(), i - 1);
        assert(s.drop_first().skip(i - 1) =~= s.skip(i));
    } else {
        assert(s.skip(0) =~= s);
    }
}

/// Dropping white space from the back of a text that ends with some leaves what
/// trimming the back leaves.
proof fn lemma_trim_end_take(s: Seq<char>, j: int)
    requires
        0 <= j <= s.len(),
        forall|k: int| j <= k < s.len() ==> #[trigger] is_white(s[k]),
    ensures
        trim_end(s) == trim_end(s.take(j)),
    decreases s.len() - j,
{
    if j < s.len() {
        assert(s.drop_last() =~= s.take(s.len() - 1));
        lemma_trim_end_take(s.drop_last(), j);
        assert(s.drop_last().take(j) =~= s.take(j));
    } else {
        assert(s.take(j) =~= s);
    }
}

/// A text with its leading and trailing white space removed.
pub fn trim_chars(cs: &Vec<char>) -> (r: Vec<char>)
    ensures
        r@ == trimmed(cs@),
{
    let n = cs.len();
    let mut i: usize = 0;
    while i < n && white(cs[i])
        invariant
            0 <= i <= n,
            n == cs@.len(),
            forall|j: int| 0 <= j < i ==> #[trigger] is_white(cs@[j]),
        decreases n - i,
    {
        i = i + 1;
    }
    proof {
        lemma_trim_start_skip(cs@, i as int);
        assert(trim_start(cs@.skip(i as int)) == cs@.skip(i as int));
    }
    let ghost rest = cs@.skip(i as int);
    let mut j: usize = n;
    while j > i && white(cs[j - 1])
        invariant
            i <= j <= n,
            n == cs@.len(),
            rest == cs@.skip(i as int),
            forall|k: int| j <= k < n ==> #[trigger] is_white(cs@[k]),
        decreases j - i,
    {
        j = j - 1;
    }
    proof {
        assert forall|k: int| j - i <= k < rest.len() implies #[trigger] is_white(rest[k]) by {
            assert(rest[k] == cs@[k + i]);
        }
        lemma_trim_end_take(rest, j - i);
        assert(trim_end(rest.take(j - i)) == rest.take(j - i));
    }
    let mut r: Vec<char> = Vec::new();
    let mut k: usize = i;
    while k < j
        invariant
            i <= k <= j,
            j <= n,
            n == cs@.len(),
            r@ == cs@.subrange(i as int, k as int),
        decreases j - k,
    {
        r.push(cs[k]);
        assert(cs@.subrange(i as int, k + 1) =~= cs@.subrange(i as int, k as int).push(cs@[k as int]));
        k = k + 1;
    }
    assert(r@ =~= rest.take(j - i));
    r
}

/// A prefix of a string of digits has no greater value than the whole.
pub(crate) proof fn lemma_digits_value_prefix(d: Seq<char>, k: int)
    requires
        0 <= k <= d.len(),
        forall|i: int| 0 <= i < d.len() ==> #[trigger] is_digit(d[i]),
    ensures
        0 <= digits_value(d.take(k)) <= digits_value(d),
    decreases d.len() - k,
{
    if k < d.len() {
        assert(d.drop_last() =~= d.take(d.len() - 1));
        lemma_digits_value_prefix(d.drop_last(), k);
        assert(d.drop_last().take(k) =~= d.take(k));
        assert(is_digit(d.last()));
    } else {
        assert(d.take(k) =~= d);
        lemma_digits_value_nonneg(d);
    }
}

/// A string of digits has a value of at least 0.
proof fn lemma_digits_value_nonneg(d: Seq<char>)
    requires
        forall|i: int| 0 <= i < d.len() ==> #[trigger] is_digit(d[i]),
    ensures
        0 <= digits_value(d),
    decreases d.len(),
{
    if d.len() > 0 {
        assert(is_digit(d[d.len() - 1]));
        lemma_digits_value_nonneg(d.drop_last());
    }
}

/// The byte a text reads as, if any: an optional `+` and then one or more decimal
/// digits whose value is at most 255.
pub fn read_byte(t: &Vec<char>) -> (r: Option<u8>)
    ensures
        r == byte_of(t@),
{
    let start: usize = if t.len() > 0 && t[0] == '+' { 1 } else { 0 };
    let ghost d = sign_dropped(t@);
    assert(d =~= t@.skip(start as int));
    if start == t.len() {
        return None;
    }
    let mut acc: u32 = 0;
    let mut i: usize = start;
    while i < t.len()
        invariant
            start <= i <= t@.len(),
            d == t@.skip(start as int),
            d == sign_dropped(t@),
            d.len() > 0,
            forall|k: int| 0 <= k < i - start ==> #[trigger] is_digit(d[k]),
            acc == digits_value(d.take(i - start)),
            acc <= 255,
        decreases t@.len() - i,
    {
        let c = t[i];
        assert(c == d[i - start]);
        let u = c as u32;
        if u < '0' as u32 || u > '9' as u32 {
            assert(!is_digit(d[i - start]));
            return None;
        }
        assert(is_digit(d[i - start]));
        assert(d.take(i - start + 1).drop_last() =~= d.take(i - start));
        assert(d.take(i - start + 1).last() == d[i - start]);
        assert(digits_value(d.take(i - start + 1)) == acc * 10 + (u - '0' as u32));
        acc = acc * 10 + (u - '0' as u32);
        if acc > 255 {
            proof {
                if all_digits(d) {
                    lemma_digits_value_prefix(d, i - start + 1);
                }
            }
            return None;
        }
        i = i + 1;
    }
    assert(d.take(d.len() as int) =~= d);
    Some(acc as u8)
}

/// The bytes listed in a text, separated by commas: the text is trimmed, cut at
/// its commas, and each piece, trimmed, read as a byte; pieces that are not one are
/// passed over.
pub fn read_listed_bytes(input: &str) -> (r: Vec<u8>)
    ensures
        r@ == listed_bytes(input@),
{
    let all = chars_of(input);
    let s = trim_chars(&all);
    let ghost sv = s@;
    let mut out: Vec<u8> = Vec::new();
    let mut cur: Vec<char> = Vec::new();
    let mut i: usize = 0;
    proof { lemma_comma_pieces_len(sv.take(0)); assert(sv.take(0) =~= Seq::<char>::empty()); }
    while i < s.len()
        invariant
            0 <= i <= s@.len(),
            sv == s@,
            comma_pieces(sv.take(i as int)).len() >= 1,
            out@ == bytes_of(comma_pieces(sv.take(i as int)).drop_last()),
            cur@ == comma_pieces(sv.take(i as int)).last(),
        decreases s@.len() - i,
    {
        let ghost p = comma_pieces(sv.take(i as int));
        assert(sv.take(i + 1).drop_last() =~= sv.take(i as int));
        assert(sv.take(i + 1).last() == sv[i as int]);
        let c = s[i];
        if c == ',' {
            let piece = trim_chars(&cur);
            match read_byte(&piece) {
                Some(b) => out.push(b),
                None => {},
            }
            assert(comma_pieces(sv.take(i + 1)) == p.push(Seq::<char>::empty()));
            assert(p.push(Seq::<char>::empty()).drop_last() =~= p);
            cur = Vec::new();
        } else {
            let ghost q = p.update(p.len() - 1, p.last().push(c));
            assert(comma_pieces(sv.take(i + 1)) == q);
            assert(q.drop_last() =~= p.drop_last());
            cur.push(c);
        }
        i = i + 1;
    }
    assert(sv.take(sv.len() as int) =~= sv);
    let piece = trim_chars(&cur);
    match read_byte(&piece) {
        Some(b) => out.push(b),
        None => {},
    }
    out
}

/// A text has at least one piece between commas.
proof fn lemma_comma_pieces_len(s: Seq<char>)
    ensures
        comma_pieces(s).len() >= 1,
    decreases s.len(),
{
    if s.len() > 0 {
        lemma_comma_pieces_len(s.drop_last());
    }
}

/// The number a text reads as when it is at most `cap`: an optional `+` and then
/// one or more decimal digits whose value is at most `cap`; any other text reads
/// as nothing.
pub open spec fn capped_value(t: Seq<char>, cap: int) -> Option<int> {
    if sign_dropped(t).len() > 0 && all_digits(sign_dropped(t)) && digits_value(sign_dropped(t)) <= cap {
        Some(digits_value(sign_dropped(t)))
    } else {
        None
    }
}

/// The number a text reads as, if it reads as one no greater than `cap`.
pub fn read_capped(t: &Vec<char>, cap: u64) -> (r: Option<u64>)
    ensures
        r matches Some(v) ==> capped_value(t@, cap as int) == Some(v as int),
        r is None ==> capped_value(t@, cap as int) is None,
{
    let start: usize = if t.len() > 0 && t[0] == '+' { 1 } else { 0 };
    let ghost d = sign_dropped(t@);
    assert(d =~= t@.skip(start as int));
    if start == t.len() {
        return None;
    }
    let mut acc: u64 = 0;
    let mut i: usize = start;
    while i < t.len()
        invariant
            start <= i <= t@.len(),
            d == t@.skip(start as int),
            d == sign_dropped(t@),
            d.len() > 0,
            forall|k: int| 0 <= k < i - start ==> #[trigger] is_digit(d[k]),
            acc == digits_value(d.take(i - start)),
            acc <= cap,
        decreases t@.len() - i,
    {
        let c = t[i];
        assert(c == d[i - start]);
        let u = c as u32;
        if u < '0' as u32 || u > '9' as u32 {
            assert(!is_digit(d[i - start]));
            return None;
        }
        assert(is_digit(d[i - start]));
        assert(d.take(i - start + 1).drop_last() =~= d.take(i - start));
        assert(d.take(i - start + 1).last() == d[i - start]);
        let digit = (u - '0' as u32) as u64;
        assert(digits_value(d.take(i - start + 1)) == acc * 10 + digit);
        if digit > cap || acc > (cap - digit) / 10 {
            assert(acc * 10 + digit > cap) by (nonlinear_arith)
                requires
                    digit > cap || (digit <= cap && acc > (cap - digit) / 10),
                    acc >= 0,
            {
            }
            proof {
                if all_digits(d) {
                    lemma_digits_value_prefix(d, i - start + 1);
                }
            }
            return None;
        }
        assert(acc * 10 + digit <= cap) by (nonlinear_arith)
            requires
                acc <= (cap - digit) / 10,
                digit <= cap,
        {
        }
        acc = acc * 10 + digit;
        i = i + 1;
    }
    assert(d.take(d.len() as int) =~= d);
    Some(acc)
}

/// The words of a text, split at white space as the text is read from the front:
/// `cur` is the word being read and `acc` the words already read.
pub open spec fn words_from(s: Seq<char>, cur: Seq<char>, acc: Seq<Seq<char>>) -> Seq<Seq<char>>
    decreases s.len(),
{
    if s.len() == 0 {
        if cur.len() > 0 { acc.push(cur) } else { acc }
    } else if is_white(s[0]) {
        words_from(s.drop_first(), Seq::empty(), if cur.len() > 0 { acc.push(cur) } else { acc })
    } else {
        words_from(s.drop_first(), cur.push(s[0]), acc)
    }
}

/// The words of a text: its longest runs of characters that are not white space,
/// in order.
pub open spec fn words(s: Seq<char>) -> Seq<Seq<char>> {
    words_from(s, Seq::empty(), Seq::empty())
}

/// The words of a text: its longest runs of characters that are not white space,
/// in order.
pub fn split_words(s: &Vec<char>) -> (r: Vec<Vec<char>>)
    ensures
        r@.len() == words(s@).len(),
        forall|i: int| 0 <= i < r@.len() ==> #[trigger] r@[i]@ == words(s@)[i],
{
    let mut acc: Vec<Vec<char>> = Vec::new();
    let mut cur: Vec<char> = Vec::new();
    let mut i: usize = 0;
    let ghost views: Seq<Seq<char>> = Seq::empty();
    assert(s@.skip(0) =~= s@);
    while i < s.len()
        invariant
            0 <= i <= s@.len(),
            views.len() == acc@.len(),
            forall|k: int| 0 <= k < acc@.len() ==> #[trigger] acc@[k]@ == views[k],
            words(s@) == words_from(s@.skip(i as int), cur@, views),
        decreases s@.len() - i,
    {
        assert(s@.skip(i as int).drop_first() =~= s@.skip(i + 1));
        assert(s@.skip(i as int)[0] == s@[i as int]);
        let c = s[i];
        if white(c) {
            if cur.len() > 0 {
                acc.push(cur);
                proof { views = views.push(acc@.last()@); }
            }
            cur = Vec::new();
        } else {
            cur.push(c);
        }
        i = i + 1;
    }
    if cur.len() > 0 {
        acc.push(cur);
        proof { views = views.push(acc@.last()@); }
    }
    assert(words(s@) == views);
    acc
}

} // verus!
