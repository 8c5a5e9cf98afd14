//! Characters, decimal digits in text, and the building of strings.

use crate::digits::{all_digits, lemma_top_digit, pow10, value};
use vstd::prelude::*;

verus! {

/// `c` is one of `0` to `9`.
pub open spec fn is_digit(c: char) -> bool {
    '0' <= c && c <= '9'
}

/// The digit that the character `c` writes.
pub open spec fn digit_of(c: char) -> nat {
    (c as int - 48) as nat
}

/// The character that writes the digit `d`.
pub open spec fn digit_char(d: nat) -> char {
    (d + 48) as char
}

/// The number that a run of digit characters writes, most significant first.
pub open spec fn text_value(s: Seq<char>) -> nat
    decreases s.len(),
{
    if s.len() == 0 {
        0
    } else {
        10 * text_value(s.drop_last()) + digit_of(s.last())
    }
}

/// Every character is a digit.
pub open spec fn all_digit_chars(s: Seq<char>) -> bool {
    forall|i: int| 0 <= i < s.len() ==> is_digit(#[trigger] s[i])
}

/// The first position from `i` on that holds no digit.
pub open spec fn digits_end(s: Seq<char>, i: int) -> int
    decreases s.len() - i,
{
    if 0 <= i < s.len() && is_digit(s[i]) {
        digits_end(s, i + 1)
    } else {
        i
    }
}

/// The first position from `i` on that holds no space.
pub open spec fn spaces_end(s: Seq<char>, i: int) -> int
    decreases s.len() - i,
{
    if 0 <= i < s.len() && s[i] == ' ' {
        spaces_end(s, i + 1)
    } else {
        i
    }
}

/// The digits that the characters `t` write, least significant first.
pub open spec fn le_digits(t: Seq<char>) -> Seq<u8> {
    Seq::new(t.len(), |i: int| digit_of(t[t.len() - 1 - i]) as u8)
}

/// The characters that write the digits `d`, most significant first.
pub open spec fn be_chars(d: Seq<u8>) -> Seq<char> {
    Seq::new(d.len(), |i: int| digit_char(d[d.len() - 1 - i] as nat))
}

/// The decimal text of `n`, without leading zeros.
pub open spec fn nat_text(n: nat) -> Seq<char>
    decreases n,
{
    if n < 10 {
        seq![digit_char(n)]
    } else {
        nat_text(n / 10).push(digit_char(n % 10))
    }
}

/// The `width` lowest decimal digits of `n` as text, zeros included.
pub open spec fn padded_text(n: nat, width: nat) -> Seq<char>
    decreases width,
{
    if width == 0 {
        Seq::empty()
    } else {
        padded_text(n / 10, (width - 1) as nat).push(digit_char(n % 10))
    }
}

/// The digits from `i` on end within the text, at the first character that
/// is no digit.
pub proof fn lemma_digits_end(s: Seq<char>, i: int)
    requires
        0 <= i <= s.len(),
    ensures
        i <= digits_end(s, i) <= s.len(),
        all_digit_chars(s.subrange(i, digits_end(s, i))),
        digits_end(s, i) < s.len() ==> !is_digit(s[digits_end(s, i)]),
    decreases s.len() - i,
{
    if i < s.len() && is_digit(s[i]) {
        lemma_digits_end(s, i + 1);
        let e = digits_end(s, i);
        let t = s.subrange(i, e);
        assert forall|k: int| 0 <= k < t.len() implies is_digit(#[trigger] t[k]) by {
            if k > 0 {
                assert(t[k] == s.subrange(i + 1, e)[k - 1]);
            }
        }
    }
}

/// Tells whether `c` is a decimal digit.
pub(crate) fn is_digit_char(c: char) -> (b: bool)
    ensures
        b == is_digit(c),
{
    c >= '0' && c <= '9'
}

/// The digit that `c` writes.
pub(crate) fn digit_from_char(c: char) -> (d: u8)
    requires
        is_digit(c),
    ensures
        d < 10,
        d == digit_of(c),
{
    let x: u32 = c as u32;
    (x - 48) as u8
}

/// The character that writes `d`.
pub(crate) fn char_from_digit(d: u8) -> (c: char)
    requires
        d < 10,
    ensures
        c == digit_char(d as nat),
        is_digit(c),
        digit_of(c) == d,
{
    (d + 48) as char
}

/// Walks over the digits that start at `i`.
pub(crate) fn scan_digits(text: &Vec<char>, i: usize) -> (j: usize)
    requires
        i <= text.len(),
    ensures
        j == digits_end(text@, i as int),
        i <= j <= text.len(),
{
    let mut j: usize = i;
    while j < text.len() && is_digit_char(text[j])
        invariant
            i <= j <= text.len(),
            digits_end(text@, i as int) == digits_end(text@, j as int),
        decreases text.len() - j,
    {
        j = j + 1;
    }
    j
}

/// Walks over the spaces that start at `i`.
pub(crate) fn scan_spaces(text: &Vec<char>, i: usize) -> (j: usize)
    requires
        i <= text.len(),
    ensures
        j == spaces_end(text@, i as int),
        i <= j <= text.len(),
{
    let mut j: usize = i;
    while j < text.len() && text[j] == ' '
        invariant
            i <= j <= text.len(),
            spaces_end(text@, i as int) == spaces_end(text@, j as int),
        decreases text.len() - j,
    {
        j = j + 1;
    }
    j
}

/// The characters of a string, in order.
pub fn chars_of(s: &str) -> (v: Vec<char>)
    ensures
        v@ == s@,
{
    let mut v: Vec<char> = Vec::new();
    for c in it: s.chars()
        invariant
            it.seq() == s@,
            v@ == s@.take(it.index()),
    {
        v.push(c);
    }
    assert(s@.take(s@.len() as int) == s@);
    v
}

/// `String::push` of the standard library appends the one character to the
/// end of the string and leaves the rest as it was.
pub assume_specification[ String::push ](s: &mut String, c: char)
    ensures
        final(s)@ == old(s)@.push(c),
;

/// The string that holds the characters of `v`, in order.
pub fn string_of(v: &Vec<char>) -> (s: String)
    ensures
        s@ == v@,
{
    let mut s = String::new();
    let mut i: usize = 0;
    while i < v.len()
        invariant
            i <= v.len(),
            s@ == v@.take(i as int),
        decreases v.len() - i,
    {
        s.push(v[i]);
        i = i + 1;
        assert(s@ =~= v@.take(i as int));
    }
    assert(v@.take(v@.len() as int) =~= v@);
    s
}

/// The digits of a text denote the number that the text writes.
pub proof fn lemma_le_digits_value(t: Seq<char>)
    requires
        all_digit_chars(t),
    ensures
        all_digits(le_digits(t)),
        value(le_digits(t)) == text_value(t),
    decreases t.len(),
{
    let d = le_digits(t);
    assert forall|i: int| 0 <= i < d.len() implies #[trigger] d[i] < 10 by {
        assert(is_digit(t[t.len() - 1 - i]));
    }
    if t.len() > 0 {
        let u = t.drop_last();
        assert(is_digit(t[t.len() - 1]));
        assert(all_digit_chars(u)) by {
            assert forall|i: int| 0 <= i < u.len() implies is_digit(#[trigger] u[i]) by {
                assert(u[i] == t[i]);
            }
        }
        lemma_le_digits_value(u);
        assert(d.drop_first() =~= le_digits(u));
        assert(d[0] == digit_of(t.last()) as u8);
    }
}

/// The digits of two texts, one behind the other, are those of the second,
/// then those of the first.
pub proof fn lemma_le_digits_concat(a: Seq<char>, b: Seq<char>)
    ensures
        le_digits(a + b) =~= le_digits(b) + le_digits(a),
{
}

/// The text of a number is its digits from the top down, where the top digit
/// is not zero.
pub proof fn lemma_nat_text_digits(d: Seq<u8>)
    requires
        all_digits(d),
        d.len() > 0,
        d.last() != 0,
    ensures
        nat_text(value(d)) == be_chars(d),
    decreases d.len(),
{
    let rest = d.drop_first();
    assert(d[0] < 10);
    assert(value(d) == d[0] as nat + 10 * value(rest));
    if d.len() == 1 {
        assert(rest =~= Seq::<u8>::empty());
        assert(value(rest) == 0);
        assert(nat_text(value(d)) =~= be_chars(d));
    } else {
        assert(rest.last() == d.last());
        assert(all_digits(rest)) by {
            assert forall|i: int| 0 <= i < rest.len() implies #[trigger] rest[i] < 10 by {
                assert(rest[i] == d[i + 1]);
            }
        }
        lemma_nat_text_digits(rest);
        assert(value(rest) > 0) by {
            lemma_top_digit(rest);
        }
        assert(value(d) / 10 == value(rest));
        assert(value(d) % 10 == d[0]);
        assert(be_chars(d) =~= be_chars(rest).push(digit_char(d[0] as nat)));
    }
}

/// The padded text of a number over as many places as it has digits is its
/// digits from the top down.
pub proof fn lemma_padded_text_digits(d: Seq<u8>)
    requires
        all_digits(d),
    ensures
        padded_text(value(d), d.len()) == be_chars(d),
    decreases d.len(),
{
    if d.len() == 0 {
        assert(padded_text(value(d), 0) =~= be_chars(d));
    } else {
        let rest = d.drop_first();
        assert(d[0] < 10);
        assert(all_digits(rest)) by {
            assert forall|i: int| 0 <= i < rest.len() implies #[trigger] rest[i] < 10 by {
                assert(rest[i] == d[i + 1]);
            }
        }
        lemma_padded_text_digits(rest);
        assert(value(d) / 10 == value(rest));
        assert(value(d) % 10 == d[0]);
        assert(be_chars(d) =~= be_chars(rest).push(digit_char(d[0] as nat)));
    }
}

/// A run of digits that ends at `b` is where the digits from `a` on end.
pub proof fn lemma_digits_run(s: Seq<char>, a: int, b: int)
    requires
        0 <= a <= b <= s.len(),
        forall|k: int| a <= k < b ==> is_digit(#[trigger] s[k]),
        b < s.len() ==> !is_digit(s[b]),
    ensures
        digits_end(s, a) == b,
    decreases b - a,
{
    if a < b {
        assert(is_digit(s[a]));
        lemma_digits_run(s, a + 1, b);
    }
}

/// The text of a number is made of digits and writes that number.
pub proof fn lemma_nat_text(n: nat)
    ensures
        nat_text(n).len() >= 1,
        all_digit_chars(nat_text(n)),
        text_value(nat_text(n)) == n,
    decreases n,
{
    let t = nat_text(n);
    if n < 10 {
        assert(t.drop_last() =~= Seq::<char>::empty());
        assert(t.last() == digit_char(n));
        assert(text_value(t) == 10 * text_value(t.drop_last()) + digit_of(t.last()));
    } else {
        lemma_nat_text(n / 10);
        let u = nat_text(n / 10);
        assert(t == u.push(digit_char(n % 10)));
        assert(t.drop_last() =~= u);
        assert(t.last() == digit_char(n % 10));
        assert forall|i: int| 0 <= i < t.len() implies is_digit(#[trigger] t[i]) by {
            if i < u.len() {
                assert(t[i] == u[i]);
            }
        }
    }
}

/// The padded text of a number has the asked width, is made of digits, and
/// writes the number where it fits that width.
pub proof fn lemma_padded_text(n: nat, width: nat)
    ensures
        padded_text(n, width).len() == width,
        all_digit_chars(padded_text(n, width)),
        n < pow10(width) ==> text_value(padded_text(n, width)) == n,
    decreases width,
{
    let t = padded_text(n, width);
    if width > 0 {
        lemma_padded_text(n / 10, (width - 1) as nat);
        let u = padded_text(n / 10, (width - 1) as nat);
        assert(t == u.push(digit_char(n % 10)));
        assert(t.drop_last() =~= u);
        assert(t.last() == digit_char(n % 10));
        assert forall|i: int| 0 <= i < t.len() implies is_digit(#[trigger] t[i]) by {
            if i < u.len() {
                assert(t[i] == u[i]);
            }
        }
        if n < pow10(width) {
            assert(pow10(width) == 10 * pow10((width - 1) as nat));
            assert(n / 10 < pow10((width - 1) as nat));
        }
    }
}

/// The digits of two runs, one behind the other, write the first number
/// shifted by the length of the second, plus the second.
pub proof fn lemma_text_value_concat(a: Seq<char>, b: Seq<char>)
    ensures
        text_value(a + b) == text_value(a) * pow10(b.len()) + text_value(b),
    decreases b.len(),
{
    if b.len() == 0 {
        assert(a + b =~= a);
        assert(text_value(a) * pow10(0) == text_value(a)) by (nonlinear_arith)
            requires
                pow10(0) == 1,
        ;
    } else {
        let c = a + b;
        let u = b.drop_last();
        assert(c.drop_last() =~= a + u);
        assert(c.last() == b.last());
        lemma_text_value_concat(a, u);
        assert(pow10(b.len()) == 10 * pow10(u.len()));
        assert(10 * (text_value(a) * pow10(u.len()) + text_value(u)) == text_value(a) * (10
            * pow10(u.len())) + 10 * text_value(u)) by (nonlinear_arith);
    }
}

} // verus!
