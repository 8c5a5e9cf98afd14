//! Reading back what was written: the text of a polynomial reads as that
//! polynomial.

use crate::decimal::{
    fraction_end, is_literal, lemma_zero_plus, magnitude_text, Number, number_at, number_end,
    sign_end, signed,
};
use crate::digits::{lemma_pow10_positive, pow10};
use crate::grammar::{
    body_at, coefficient_sum, constant_at, exponent_end, factor_at, factor_end, is_operator,
    is_variable, monomial_at, next_start, overflows, polynomial_of, power_at, power_end, product_at,
    Term, term_at, terms_from, total_length,
};
use crate::parser::{lemma_lengths_add, parse_result};
use crate::polynomes::{
    entries_below, entries_of, Error, polynomial_text, reduced, symbol_text, term_pairs,
};
use crate::utils::{joined_text, piece_text};
use crate::text::{
    digits_end, is_digit, lemma_digits_run, lemma_nat_text, lemma_padded_text,
    lemma_text_value_concat, nat_text, padded_text, spaces_end, text_value,
};
use vstd::prelude::*;

verus! {

/// The text `t` stands in `s` at `a`.
pub open spec fn holds_at(s: Seq<char>, a: int, t: Seq<char>) -> bool {
    &&& 0 <= a
    &&& a + t.len() <= s.len()
    &&& forall|x: int| 0 <= x < t.len() ==> s[a + x] == #[trigger] t[x]
}

/// A text holds its parts: what stands first, and what stands behind it.
pub proof fn lemma_holds_parts(s: Seq<char>, a: int, t: Seq<char>, u: Seq<char>)
    requires
        holds_at(s, a, t + u),
    ensures
        holds_at(s, a, t),
        holds_at(s, a + t.len(), u),
{
    let both = t + u;
    assert forall|x: int| 0 <= x < t.len() implies s[a + x] == #[trigger] t[x] by {
        assert(both[x] == t[x]);
    }
    assert forall|x: int| 0 <= x < u.len() implies s[a + t.len() + x] == #[trigger] u[x] by {
        assert(both[t.len() + x] == u[x]);
    }
}

/// The text of a magnitude, behind a minus sign or not, reads as that number
/// and ends where its text ends, unless a digit or a point follows.
pub proof fn lemma_read_number(s: Seq<char>, a: int, negative: bool, m: nat, scale: nat)
    requires
        scale == 0 || m % 10 != 0,
        0 <= a < s.len(),
        negative ==> s[a] == '-',
        holds_at(s, a + if negative { 1int } else { 0int }, magnitude_text(m, scale)),
        ({
            let e = a + (if negative { 1int } else { 0int }) + magnitude_text(m, scale).len();
            e == s.len() || (!is_digit(s[e]) && s[e] != '.')
        }),
    ensures
        number_end(s, a) == Some(
            a + (if negative { 1int } else { 0int }) + magnitude_text(m, scale).len(),
        ),
        number_at(s, a) == (Number { mantissa: signed(negative, m), scale }),
{
    let t = magnitude_text(m, scale);
    let j = a + if negative { 1int } else { 0int };
    let e = j + t.len();
    let p = pow10(scale);
    lemma_pow10_positive(scale);
    let w = if scale == 0 { nat_text(m) } else { nat_text(m / p) };
    let f = if scale == 0 { Seq::<char>::empty() } else { padded_text(m % p, scale) };
    if scale == 0 {
        lemma_nat_text(m);
        assert(t =~= w + f);
    } else {
        lemma_nat_text(m / p);
        lemma_padded_text(m % p, scale);
        assert(t =~= w + (seq!['.'] + f));
    }
    let k = j + w.len();
    assert(w.len() >= 1);
    assert(s[j] == t[0]);
    assert(t[0] == w[0]);
    assert(is_digit(w[0]));
    assert(sign_end(s, a) == j);
    assert forall|x: int| j <= x < k implies is_digit(#[trigger] s[x]) by {
        assert(s[j + (x - j)] == t[x - j]);
        assert(t[x - j] == w[x - j]);
    }
    if scale == 0 {
        assert(k == e);
        lemma_digits_run(s, j, k);
        assert(fraction_end(s, k) == k);
        assert(s.subrange(j, k) =~= w);
        assert(w + Seq::<char>::empty() =~= w);
        assert(signed(negative, m) % 10 != 0 || scale == 0);
    } else {
        assert(s[j + w.len()] == t[w.len() as int]);
        assert(t[w.len() as int] == '.');
        lemma_digits_run(s, j, k);
        assert forall|x: int| k + 1 <= x < e implies is_digit(#[trigger] s[x]) by {
            assert(s[j + (x - j)] == t[x - j]);
            assert(t[x - j] == f[x - k - 1]);
        }
        lemma_digits_run(s, k + 1, e);
        assert(fraction_end(s, k) == e);
        assert(s.subrange(j, k) =~= w) by {
            assert forall|x: int| 0 <= x < w.len() implies s.subrange(j, k)[x] == w[x] by {
                assert(s[j + x] == t[x]);
            }
        }
        assert(s.subrange(k + 1, e) =~= f) by {
            assert forall|x: int| 0 <= x < f.len() implies s.subrange(k + 1, e)[x] == f[x] by {
                assert(s[j + (w.len() + 1 + x)] == t[w.len() + 1 + x]);
            }
        }
        lemma_text_value_concat(w, f);
        vstd::arithmetic::div_mod::lemma_fundamental_div_mod(m as int, p as int);
        vstd::arithmetic::div_mod::lemma_mod_bound(m as int, p as int);
        assert(text_value(w + f) == m) by (nonlinear_arith)
            requires
                text_value(w + f) == (m / p) * p + (m % p),
                m == p * (m / p) + (m % p),
        ;
        assert(signed(negative, m) % 10 != 0);
    }
}

/// The text of a number reads as that number.
pub proof fn lemma_number_reads_back(x: Number)
    requires
        x.canonical(),
    ensures
        is_literal(x.text()),
        number_at(x.text(), 0) == x,
{
    let s = x.text();
    let m = x.magnitude().mantissa as nat;
    let t = magnitude_text(m, x.scale);
    lemma_magnitude_text(m, x.scale);
    if x.mantissa < 0 {
        assert(s == seq!['-'] + t);
        assert(holds_at(s, 1, t));
        lemma_read_number(s, 0, true, m, x.scale);
    } else {
        assert(holds_at(s, 0, t));
        lemma_read_number(s, 0, false, m, x.scale);
    }
}

/// What may stand behind a term: the end of the text, or one space and the
/// operator of the next term.
pub open spec fn term_follows(s: Seq<char>, e: int) -> bool {
    e == s.len() || (0 <= e && e + 1 < s.len() && s[e] == ' ' && is_operator(s[e + 1]))
}

/// Where a term ends whose text ends at `e`: behind the space, if one
/// follows.
pub open spec fn end_behind(s: Seq<char>, e: int) -> int {
    if e == s.len() {
        e
    } else {
        e + 1
    }
}

/// Behind a term the spaces end behind the one space, if one follows.
pub proof fn lemma_spaces_behind(s: Seq<char>, e: int)
    requires
        0 <= e <= s.len(),
        term_follows(s, e),
    ensures
        spaces_end(s, e) == end_behind(s, e),
{
    if e < s.len() {
        assert(spaces_end(s, e) == spaces_end(s, e + 1));
        assert(s[e + 1] != ' ');
    }
}

/// The text of a magnitude starts with a digit.
pub proof fn lemma_magnitude_text(m: nat, scale: nat)
    ensures
        magnitude_text(m, scale).len() >= 1,
        is_digit(magnitude_text(m, scale)[0]),
{
    if scale == 0 {
        lemma_nat_text(m);
        assert(is_digit(nat_text(m)[0]));
    } else {
        let w = nat_text(m / pow10(scale));
        lemma_nat_text(m / pow10(scale));
        assert(is_digit(w[0]));
        assert(magnitude_text(m, scale)[0] == w[0]);
    }
}

/// The symbol of a power reads as that power.
pub proof fn lemma_read_symbol(s: Seq<char>, f: int, e: u32)
    requires
        e >= 1,
        holds_at(s, f, symbol_text(e)),
        term_follows(s, f + symbol_text(e).len()),
    ensures
        power_end(s, f) == Some(f + symbol_text(e).len()),
        power_at(s, f) == e,
{
    let sym = symbol_text(e);
    let end = f + sym.len();
    assert(s[f + 0] == sym[0]);
    assert(is_variable(s[f]));
    if e == 1 {
        assert(sym.len() == 1);
        assert(exponent_end(s, f + 1) == f + 1);
    } else {
        let d = nat_text(e as nat);
        lemma_nat_text(e as nat);
        assert(sym.len() == 2 + d.len());
        assert(s[f + 1] == sym[1]);
        assert forall|x: int| f + 2 <= x < end implies is_digit(#[trigger] s[x]) by {
            assert(s[f + (x - f)] == sym[x - f]);
            assert(sym[x - f] == d[x - f - 2]);
        }
        lemma_digits_run(s, f + 2, end);
        assert(exponent_end(s, f + 1) == end);
        assert(s.subrange(f + 2, end) =~= d) by {
            assert forall|x: int| 0 <= x < d.len() implies s.subrange(f + 2, end)[x] == d[x] by {
                assert(s[f + (x + 2)] == sym[x + 2]);
            }
        }
    }
}

/// The coefficient that a piece reads as: the magnitude of `c`, with a minus
/// sign where one leads the piece.
pub open spec fn read_as(c: Number, lead: bool) -> Number {
    Number { mantissa: signed(lead, c.magnitude().mantissa as nat), scale: c.scale }
}

/// The text of one term, behind a minus sign or not, reads as the body of a
/// term with that coefficient and power.
pub proof fn lemma_read_body(s: Seq<char>, i: int, a: int, lead: bool, c: Number, e: u32)
    requires
        0 <= i <= a < s.len(),
        spaces_end(s, i) == a,
        c.canonical(),
        !c.is_zero(),
        lead ==> s[a] == '-',
        holds_at(s, a + if lead { 1int } else { 0int }, piece_text(c, symbol_text(e))),
        term_follows(
            s,
            a + (if lead { 1int } else { 0int }) + piece_text(c, symbol_text(e)).len(),
        ),
    ensures
        body_at(s, i) == Some(
            Term {
                start: i,
                end: end_behind(
                    s,
                    a + (if lead { 1int } else { 0int }) + piece_text(c, symbol_text(e)).len(),
                ),
                coefficient: read_as(c, lead),
                power: e as nat,
            },
        ),
{
    let sym = symbol_text(e);
    let piece = piece_text(c, sym);
    let j = a + if lead { 1int } else { 0int };
    let end = j + piece.len();
    let mag = c.magnitude();
    let m = mag.mantissa as nat;
    let t = magnitude_text(m, c.scale);
    assert(mag.text() == t);
    lemma_magnitude_text(m, c.scale);
    lemma_spaces_behind(s, end);
    if e == 0 {
        assert(sym =~= Seq::<char>::empty());
        assert(piece =~= t);
        lemma_read_number(s, a, lead, m, c.scale);
        assert(number_end(s, a) == Some(end));
        if end < s.len() {
            assert(s[end + 1] != '*');
            assert(!is_variable(s[end]));
        }
        assert(product_at(s, i) is None);
        assert(factor_end(s, a) == end);
        assert(power_end(s, end) is None);
        assert(monomial_at(s, i) is None);
    } else if mag == Number::one() {
        assert(piece == sym);
        if e == 1 {
            assert(sym[0] == 'X');
        } else {
            assert(sym[0] == 'X');
        }
        assert(s[j + 0] == piece[0]);
        assert(s[j] == 'X');
        assert(sign_end(s, a) == j);
        assert(digits_end(s, j) == j);
        assert(number_end(s, a) is None);
        assert(product_at(s, i) is None);
        assert(factor_end(s, a) == j);
        lemma_read_symbol(s, j, e);
        assert(factor_at(s, a) == read_as(c, lead));
    } else {
        assert(piece == t + sym);
        lemma_holds_parts(s, j, t, sym);
        let n = j + t.len();
        assert(sym.len() >= 1);
        assert(sym[0] == 'X');
        assert(s[n + 0] == sym[0]);
        lemma_read_number(s, a, lead, m, c.scale);
        assert(number_end(s, a) == Some(n));
        assert(spaces_end(s, n) == n);
        assert(product_at(s, i) is None);
        assert(factor_end(s, a) == n);
        lemma_read_symbol(s, n, e);
        assert(factor_at(s, a) == read_as(c, lead));
    }
}

/// A piece starts with a digit or with the variable.
pub proof fn lemma_piece_text(c: Number, e: u32)
    requires
        !c.is_zero(),
    ensures
        piece_text(c, symbol_text(e)).len() >= 1,
        is_digit(piece_text(c, symbol_text(e))[0]) || piece_text(c, symbol_text(e))[0] == 'X',
{
    let sym = symbol_text(e);
    let mag = c.magnitude();
    lemma_magnitude_text(mag.mantissa as nat, c.scale);
    if mag == Number::one() && sym.len() > 0 {
        assert(sym[0] == 'X');
    } else {
        assert(piece_text(c, sym)[0] == mag.text()[0]);
    }
}

/// The operator that joins a term of coefficient `c` to those before it.
pub open spec fn operator_of(c: Number) -> char {
    if c.is_negative() {
        '-'
    } else {
        '+'
    }
}

/// The text of the first term: a minus sign where it is negative, then its
/// piece.
pub open spec fn first_text(c: Number, e: u32) -> Seq<char> {
    if c.is_negative() {
        seq!['-'] + piece_text(c, symbol_text(e))
    } else {
        piece_text(c, symbol_text(e))
    }
}

/// The text of a later term: its operator, a space, then its piece.
pub open spec fn later_text(c: Number, e: u32) -> Seq<char> {
    seq![operator_of(c), ' '] + piece_text(c, symbol_text(e))
}

/// At the start of a text, the text of a first term reads as that term.
pub proof fn lemma_read_first(s: Seq<char>, c: Number, e: u32)
    requires
        c.canonical(),
        !c.is_zero(),
        holds_at(s, 0, first_text(c, e)),
        term_follows(s, first_text(c, e).len() as int),
    ensures
        term_at(s, 0) == Some(
            Term {
                start: 0,
                end: end_behind(s, first_text(c, e).len() as int),
                coefficient: c,
                power: e as nat,
            },
        ),
{
    let piece = piece_text(c, symbol_text(e));
    let text = first_text(c, e);
    lemma_piece_text(c, e);
    assert(s[0int + 0] == text[0]);
    if c.is_negative() {
        assert(text[0] == '-');
        assert(text =~= seq!['-'] + piece);
        lemma_holds_parts(s, 0, seq!['-'], piece);
        assert(spaces_end(s, 0) == 0);
        lemma_read_body(s, 0, 0, true, c, e);
    } else {
        assert(text[0] == piece[0]);
        assert(spaces_end(s, 0) == 0);
        lemma_read_body(s, 0, 0, false, c, e);
    }
}

/// Behind the start of a text, the text of a later term reads as that term.
pub proof fn lemma_read_later(s: Seq<char>, i: int, c: Number, e: u32)
    requires
        0 < i,
        c.canonical(),
        !c.is_zero(),
        holds_at(s, i, later_text(c, e)),
        term_follows(s, i + later_text(c, e).len()),
    ensures
        term_at(s, i) == Some(
            Term {
                start: i,
                end: end_behind(s, i + later_text(c, e).len()),
                coefficient: c,
                power: e as nat,
            },
        ),
{
    let piece = piece_text(c, symbol_text(e));
    let text = later_text(c, e);
    lemma_piece_text(c, e);
    lemma_holds_parts(s, i, seq![operator_of(c), ' '], piece);
    assert(s[i + 0] == text[0]);
    assert(s[i + 1] == text[1]);
    assert(s[i + 2 + 0] == piece[0]);
    assert(spaces_end(s, i + 1) == spaces_end(s, i + 2));
    assert(spaces_end(s, i + 2) == i + 2);
    lemma_read_body(s, i + 1, i + 2, false, c, e);
    let t = body_at(s, i + 1).unwrap();
    assert(is_operator(s[i]));
    if c.is_negative() {
        assert(t.coefficient.negated() == c);
    } else {
        assert(t.coefficient == c);
    }
}

/// The texts of the terms from the `k`-th on, each written as a later term,
/// with one space between them.
pub open spec fn later_chain(entries: Seq<(u32, Number)>, k: int) -> Seq<char>
    decreases entries.len() - k,
{
    if k < 0 || k >= entries.len() {
        Seq::empty()
    } else if k == entries.len() - 1 {
        later_text(entries[k].1, entries[k].0)
    } else {
        later_text(entries[k].1, entries[k].0) + seq![' '] + later_chain(entries, k + 1)
    }
}

/// The text of a polynomial, term by term.
pub open spec fn whole_text(entries: Seq<(u32, Number)>) -> Seq<char> {
    if entries.len() == 0 {
        seq!['0']
    } else if entries.len() == 1 {
        first_text(entries[0].1, entries[0].0)
    } else {
        first_text(entries[0].1, entries[0].0) + seq![' '] + later_chain(entries, 1)
    }
}

/// No entry is zero.
pub open spec fn no_zero(entries: Seq<(u32, Number)>) -> bool {
    forall|j: int| 0 <= j < entries.len() ==> !(#[trigger] entries[j]).1.is_zero()
}

/// One more entry adds one more later term to the chain.
pub proof fn lemma_chain_grows(entries: Seq<(u32, Number)>, n: int, k: int)
    requires
        1 <= k <= n < entries.len(),
    ensures
        later_chain(entries.take(n + 1), k) == if k == n {
            later_text(entries[n].1, entries[n].0)
        } else {
            later_chain(entries.take(n), k) + seq![' '] + later_text(entries[n].1, entries[n].0)
        },
    decreases n - k,
{
    let more = entries.take(n + 1);
    let less = entries.take(n);
    assert(more[k] == entries[k]);
    if k < n {
        assert(less[k] == entries[k]);
        lemma_chain_grows(entries, n, k + 1);
        let here = later_text(entries[k].1, entries[k].0);
        let last = later_text(entries[n].1, entries[n].0);
        if k + 1 == n {
            assert(later_chain(less, k) == here);
            assert(later_chain(more, k) == here + seq![' '] + last);
        } else {
            assert(later_chain(less, k) == here + seq![' '] + later_chain(less, k + 1));
            assert(later_chain(more, k) =~= later_chain(less, k) + seq![' '] + last);
        }
    }
}

/// The joined text of terms that are not zero is the first term and the
/// chain of the later ones.
pub proof fn lemma_joined_is_whole(entries: Seq<(u32, Number)>, n: int)
    requires
        no_zero(entries),
        1 <= n <= entries.len(),
    ensures
        joined_text(term_pairs(entries.take(n))) == whole_text(entries.take(n)),
        joined_text(term_pairs(entries.take(n))).len() > 0,
    decreases n,
{
    let upto = entries.take(n);
    let pairs = term_pairs(upto);
    let c = entries[n - 1].1;
    let e = entries[n - 1].0;
    assert(upto[n - 1] == entries[n - 1]);
    assert(pairs.last() == (c, symbol_text(e)));
    lemma_piece_text(c, e);
    if n == 1 {
        assert(pairs.drop_last() =~= Seq::<(Number, Seq<char>)>::empty());
        assert(joined_text(pairs.drop_last()).len() == 0);
        assert(upto[0] == entries[0]);
    } else {
        let before = entries.take(n - 1);
        assert(pairs.drop_last() =~= term_pairs(before));
        lemma_joined_is_whole(entries, n - 1);
        let head = joined_text(term_pairs(before));
        let piece = piece_text(c, symbol_text(e));
        let last = later_text(c, e);
        if c.is_negative() {
            assert(head + seq![' ', '-', ' '] + piece =~= head + seq![' '] + last);
        } else {
            assert(head + seq![' ', '+', ' '] + piece =~= head + seq![' '] + last);
        }
        assert(joined_text(pairs) == head + seq![' '] + last);
        assert(before[0] == entries[0]);
        assert(upto[0] == entries[0]);
        let first = first_text(entries[0].1, entries[0].0);
        lemma_chain_grows(entries, n - 1, 1);
        if n == 2 {
            assert(head == first);
        } else {
            assert(head == first + seq![' '] + later_chain(before, 1));
            assert(whole_text(upto) =~= head + seq![' '] + last);
        }
    }
}

/// The terms found from `i` on are the entries from the `k`-th on, in order,
/// and span the text to its end.
pub open spec fn reads_entries(
    s: Seq<char>,
    i: int,
    entries: Seq<(u32, Number)>,
    k: int,
) -> bool {
    let ts = terms_from(s, i);
    &&& ts.len() == entries.len() - k
    &&& total_length(ts) == s.len() - i
    &&& forall|j: int|
        0 <= j < ts.len() ==> (#[trigger] ts[j]).power == entries[k + j].0 && ts[j].coefficient
            == entries[k + j].1
}

/// Behind the end of a text no term is found.
pub proof fn lemma_no_terms_at_end(s: Seq<char>)
    requires
        s.len() > 0,
    ensures
        terms_from(s, s.len() as int).len() == 0,
{
    assert(next_start(s, s.len() as int) == s.len());
    assert(term_at(s, s.len() as int) is None);
}

/// A chain starts with the operator of its first term.
pub proof fn lemma_chain_starts(entries: Seq<(u32, Number)>, k: int)
    requires
        0 <= k < entries.len(),
    ensures
        later_chain(entries, k).len() >= 2,
        later_chain(entries, k)[0] == operator_of(entries[k].1),
{
    let here = later_text(entries[k].1, entries[k].0);
    assert(here[0] == operator_of(entries[k].1));
    if k < entries.len() - 1 {
        let chain = here + seq![' '] + later_chain(entries, k + 1);
        assert(chain[0] == here[0]);
    }
}

/// A term that a chain follows is followed as a term may be.
pub proof fn lemma_followed_by_chain(
    s: Seq<char>,
    e: int,
    entries: Seq<(u32, Number)>,
    k: int,
)
    requires
        0 <= k < entries.len(),
        holds_at(s, e, seq![' '] + later_chain(entries, k)),
    ensures
        term_follows(s, e),
        end_behind(s, e) == e + 1,
        holds_at(s, e + 1, later_chain(entries, k)),
{
    let next = later_chain(entries, k);
    lemma_chain_starts(entries, k);
    lemma_holds_parts(s, e, seq![' '], next);
    assert(s[e + 0] == seq![' '][0]);
    assert(s[e + 1 + 0] == next[0]);
}

/// A term found at `i` is the first of the terms found from `i` on.
pub proof fn lemma_terms_unfold(s: Seq<char>, i: int, t: Term)
    requires
        0 <= i < t.end <= s.len(),
        t.start == i,
        term_at(s, i) == Some(t),
    ensures
        terms_from(s, i) == seq![t] + terms_from(s, t.end),
        total_length(terms_from(s, i)) == (t.end - i) + total_length(terms_from(s, t.end)),
{
    assert(next_start(s, i) == i);
    let rest = terms_from(s, t.end);
    assert(terms_from(s, i) == seq![t] + rest);
    lemma_lengths_add(seq![t], rest);
    assert(total_length(seq![t]) == t.end - t.start) by {
        assert(seq![t].drop_last() =~= Seq::<Term>::empty());
        assert(total_length(seq![t].drop_last()) == 0);
    }
}

/// Entries read behind a first term are read with that term in front.
pub proof fn lemma_reads_one_more(
    s: Seq<char>,
    i: int,
    t: Term,
    entries: Seq<(u32, Number)>,
    k: int,
)
    requires
        0 <= k < entries.len(),
        0 <= i < t.end <= s.len(),
        t.start == i,
        term_at(s, i) == Some(t),
        t.power == entries[k].0,
        t.coefficient == entries[k].1,
        k == entries.len() - 1 ==> t.end == s.len(),
        k < entries.len() - 1 ==> reads_entries(s, t.end, entries, k + 1),
    ensures
        reads_entries(s, i, entries, k),
{
    lemma_terms_unfold(s, i, t);
    let rest = terms_from(s, t.end);
    let ts = terms_from(s, i);
    if k == entries.len() - 1 {
        lemma_no_terms_at_end(s);
        assert(ts =~= seq![t]);
    }
    assert forall|j: int| 0 <= j < ts.len() implies (#[trigger] ts[j]).power == entries[k
        + j].0 && ts[j].coefficient == entries[k + j].1 by {
        if j > 0 {
            assert(ts[j] == rest[j - 1]);
            assert(rest[j - 1].power == entries[k + 1 + (j - 1)].0);
        }
    }
}

/// A chain of later terms reads as its terms.
pub proof fn lemma_read_chain(s: Seq<char>, i: int, entries: Seq<(u32, Number)>, k: int)
    requires
        0 < i,
        1 <= k < entries.len(),
        no_zero(entries),
        forall|j: int| 0 <= j < entries.len() ==> (#[trigger] entries[j]).1.canonical(),
        holds_at(s, i, later_chain(entries, k)),
        i + later_chain(entries, k).len() == s.len(),
    ensures
        reads_entries(s, i, entries, k),
    decreases entries.len() - k,
{
    let c = entries[k].1;
    let e = entries[k].0;
    let here = later_text(c, e);
    let chain = later_chain(entries, k);
    let end = i + here.len();
    if k == entries.len() - 1 {
        assert(chain == here);
    } else {
        let next = later_chain(entries, k + 1);
        assert(chain =~= here + (seq![' '] + next));
        lemma_holds_parts(s, i, here, seq![' '] + next);
        lemma_followed_by_chain(s, end, entries, k + 1);
    }
    lemma_read_later(s, i, c, e);
    let t = term_at(s, i).unwrap();
    if k < entries.len() - 1 {
        lemma_read_chain(s, end + 1, entries, k + 1);
    }
    lemma_reads_one_more(s, i, t, entries, k);
}

/// A text that is a first term and a chain of later terms reads as those
/// terms.
pub proof fn lemma_read_from_start(s: Seq<char>, entries: Seq<(u32, Number)>)
    requires
        entries.len() >= 1,
        no_zero(entries),
        forall|j: int| 0 <= j < entries.len() ==> (#[trigger] entries[j]).1.canonical(),
        holds_at(s, 0, first_text(entries[0].1, entries[0].0)),
        entries.len() == 1 ==> s.len() == first_text(entries[0].1, entries[0].0).len(),
        entries.len() > 1 ==> holds_at(
            s,
            first_text(entries[0].1, entries[0].0).len() as int,
            seq![' '] + later_chain(entries, 1),
        ),
        entries.len() > 1 ==> s.len() == first_text(entries[0].1, entries[0].0).len() + 1
            + later_chain(entries, 1).len(),
    ensures
        reads_entries(s, 0, entries, 0),
{
    let c = entries[0].1;
    let e = entries[0].0;
    let end = first_text(c, e).len() as int;
    lemma_piece_text(c, e);
    if entries.len() > 1 {
        lemma_followed_by_chain(s, end, entries, 1);
    }
    lemma_read_first(s, c, e);
    let t = term_at(s, 0).unwrap();
    if entries.len() > 1 {
        lemma_read_chain(s, end + 1, entries, 1);
    }
    lemma_reads_one_more(s, 0, t, entries, 0);
}

/// The text of a polynomial with an entry reads as its entries.
pub proof fn lemma_read_whole(entries: Seq<(u32, Number)>)
    requires
        entries.len() >= 1,
        no_zero(entries),
        forall|j: int| 0 <= j < entries.len() ==> (#[trigger] entries[j]).1.canonical(),
    ensures
        reads_entries(whole_text(entries), 0, entries, 0),
{
    let s = whole_text(entries);
    let first = first_text(entries[0].1, entries[0].0);
    if entries.len() == 1 {
        assert(s == first);
        assert(holds_at(s, 0, first));
    } else {
        let next = later_chain(entries, 1);
        assert(s =~= first + (seq![' '] + next));
        assert(holds_at(s, 0, first + (seq![' '] + next)));
        lemma_holds_parts(s, 0, first, seq![' '] + next);
    }
    lemma_read_from_start(s, entries);
}

/// Where no two terms have the same power, the sum at a power is the
/// coefficient of the one term of that power, or zero.
pub proof fn lemma_sum_distinct(ts: Seq<Term>, e: nat)
    requires
        forall|i: int, j: int|
            0 <= i < j < ts.len() ==> (#[trigger] ts[i]).power != (#[trigger] ts[j]).power,
        forall|j: int| 0 <= j < ts.len() ==> (#[trigger] ts[j]).coefficient.canonical(),
    ensures
        forall|j: int|
            0 <= j < ts.len() && (#[trigger] ts[j]).power == e ==> coefficient_sum(ts, e)
                == ts[j].coefficient,
        (forall|j: int| 0 <= j < ts.len() ==> (#[trigger] ts[j]).power != e)
            ==> coefficient_sum(ts, e) == Number::zero(),
    decreases ts.len(),
{
    if ts.len() > 0 {
        let before = ts.drop_last();
        assert forall|i: int, j: int| 0 <= i < j < before.len() implies (
        #[trigger] before[i]).power != (#[trigger] before[j]).power by {
            assert(before[i] == ts[i]);
            assert(before[j] == ts[j]);
        }
        assert forall|j: int| 0 <= j < before.len() implies (
        #[trigger] before[j]).coefficient.canonical() by {
            assert(before[j] == ts[j]);
        }
        lemma_sum_distinct(before, e);
        let last = ts.last();
        if last.power == e {
            assert forall|j: int| 0 <= j < before.len() implies (#[trigger] before[j]).power
                != e by {
                assert(before[j] == ts[j]);
                assert(ts[j].power != ts[ts.len() - 1].power);
            }
            lemma_zero_plus(last.coefficient);
            assert forall|j: int| 0 <= j < ts.len() && (#[trigger] ts[j]).power
                == e implies coefficient_sum(ts, e) == ts[j].coefficient by {
                if j < ts.len() - 1 {
                    assert(ts[j].power != ts[ts.len() - 1].power);
                }
            }
        } else {
            assert forall|j: int| 0 <= j < ts.len() && (#[trigger] ts[j]).power
                == e implies coefficient_sum(ts, e) == ts[j].coefficient by {
                assert(before[j] == ts[j]);
            }
            if forall|j: int| 0 <= j < ts.len() ==> (#[trigger] ts[j]).power != e {
                assert forall|j: int| 0 <= j < before.len() implies (#[trigger] before[j]).power
                    != e by {
                    assert(before[j] == ts[j]);
                }
            }
        }
    }
}

/// The entries below a bound are the entries of the map with a power below
/// it, by ascending power.
pub proof fn lemma_entries(m: Map<u32, Number>, bound: nat)
    requires
        bound <= 0x1_0000_0000,
    ensures
        forall|j: int|
            0 <= j < entries_below(m, bound).len() ==> {
                let entry = #[trigger] entries_below(m, bound)[j];
                m.contains_key(entry.0) && entry.1 == m[entry.0] && entry.0 < bound
            },
        forall|i: int, j: int|
            0 <= i < j < entries_below(m, bound).len() ==> (#[trigger] entries_below(
                m,
                bound,
            )[i]).0 < (#[trigger] entries_below(m, bound)[j]).0,
        forall|e: u32|
            m.contains_key(e) && e < bound ==> exists|j: int|
                0 <= j < entries_below(m, bound).len() && (#[trigger] entries_below(
                    m,
                    bound,
                )[j]).0 == e,
    decreases bound,
{
    if bound > 0 {
        let lower = entries_below(m, (bound - 1) as nat);
        let all = entries_below(m, bound);
        let top = (bound - 1) as u32;
        lemma_entries(m, (bound - 1) as nat);
        assert forall|j: int| 0 <= j < all.len() implies {
            let entry = #[trigger] all[j];
            m.contains_key(entry.0) && entry.1 == m[entry.0] && entry.0 < bound
        } by {
            if j < lower.len() {
                assert(all[j] == lower[j]);
            }
        }
        assert forall|i: int, j: int| 0 <= i < j < all.len() implies (#[trigger] all[i]).0 < (
        #[trigger] all[j]).0 by {
            assert(all[i] == lower[i]);
            if j < lower.len() {
                assert(all[j] == lower[j]);
            }
        }
        assert forall|e: u32| m.contains_key(e) && e < bound implies exists|j: int|
            0 <= j < all.len() && (#[trigger] all[j]).0 == e by {
            if e == top {
                assert(all[all.len() - 1].0 == e);
            } else {
                let j = choose|j: int| 0 <= j < lower.len() && (#[trigger] lower[j]).0 == e;
                assert(all[j] == lower[j]);
            }
        }
    }
}

/// The text `0` reads as the zero polynomial.
pub proof fn lemma_read_zero()
    ensures
        parse_result(seq!['0']) == Ok::<Map<u32, Number>, Error>(Map::empty()),
{
    let s = seq!['0'];
    assert(nat_text(0) =~= s);
    assert(magnitude_text(0, 0) == s);
    assert(holds_at(s, 0, magnitude_text(0, 0)));
    lemma_read_number(s, 0, false, 0, 0);
    assert(spaces_end(s, 0) == 0);
    assert(spaces_end(s, 1) == 1);
    assert(product_at(s, 0) is None);
    assert(monomial_at(s, 0) is None);
    let t = Term { start: 0, end: 1, coefficient: Number::zero(), power: 0 };
    assert(constant_at(s, 0) == Some(t));
    assert(term_at(s, 0) == Some(t));
    assert(next_start(s, 0) == 0);
    lemma_no_terms_at_end(s);
    let ts = terms_from(s, 0);
    assert(ts =~= seq![t]);
    assert(ts.drop_last() =~= Seq::<Term>::empty());
    assert(total_length(ts.drop_last()) == 0);
    assert(total_length(ts) == 1);
    lemma_zero_plus(Number::zero());
    assert forall|e: u32| coefficient_sum(ts, e as nat).is_zero() by {
        assert(coefficient_sum(ts.drop_last(), e as nat) == Number::zero());
    }
    assert(polynomial_of(ts) =~= Map::<u32, Number>::empty());
    assert(!overflows(ts));
}

/// Reading the text of a polynomial gives the polynomial back: every
/// polynomial without zero entries, its coefficients in canonical form, is
/// what its own text reads as.
pub proof fn lemma_round_trip(m: Map<u32, Number>)
    requires
        reduced(m),
    ensures
        parse_result(polynomial_text(m)) == Ok::<Map<u32, Number>, Error>(m),
{
    let entries = entries_of(m);
    lemma_entries(m, 0x1_0000_0000);
    let pairs = term_pairs(entries);
    if entries.len() == 0 {
        assert(joined_text(pairs).len() == 0);
        lemma_read_zero();
        assert(m =~= Map::<u32, Number>::empty()) by {
            assert forall|e: u32| !m.dom().contains(e) by {
                if m.contains_key(e) {
                    let j = choose|j: int| 0 <= j < entries.len() && (#[trigger] entries[j]).0 == e;
                }
            }
        }
    } else {
        assert(no_zero(entries)) by {
            assert forall|j: int| 0 <= j < entries.len() implies !(#[trigger] entries[j]).1.is_zero() by {
                assert(m.contains_key(entries[j].0));
            }
        }
        assert forall|j: int| 0 <= j < entries.len() implies (#[trigger] entries[j]).1.canonical() by {
            assert(m.contains_key(entries[j].0));
        }
        assert(entries.take(entries.len() as int) =~= entries);
        lemma_joined_is_whole(entries, entries.len() as int);
        let s = whole_text(entries);
        assert(polynomial_text(m) == s);
        lemma_read_whole(entries);
        let ts = terms_from(s, 0);
        assert(!overflows(ts));
        assert forall|i: int, j: int| 0 <= i < j < ts.len() implies (#[trigger] ts[i]).power != (
        #[trigger] ts[j]).power by {
            assert(entries[0 + i].0 < entries[0 + j].0);
        }
        assert forall|j: int| 0 <= j < ts.len() implies (#[trigger] ts[j]).coefficient.canonical() by {
            assert(ts[j].coefficient == entries[0 + j].1);
        }
        let got = polynomial_of(ts);
        assert forall|e: u32|
            #![trigger got.dom().contains(e)]
            #![trigger m.dom().contains(e)]
            got.dom().contains(e) == m.dom().contains(e) && (got.dom().contains(e) ==> got[e]
                == m[e]) by {
            lemma_sum_distinct(ts, e as nat);
            if m.contains_key(e) {
                let j = choose|j: int| 0 <= j < entries.len() && (#[trigger] entries[j]).0 == e;
                assert(ts[j].power == entries[0 + j].0);
                assert(coefficient_sum(ts, e as nat) == ts[j].coefficient);
            } else {
                assert forall|j: int| 0 <= j < ts.len() implies (#[trigger] ts[j]).power
                    != e by {
                    assert(ts[j].power == entries[0 + j].0);
                    assert(m.contains_key(entries[j].0));
                }
            }
        }
        assert(got =~= m);
    }
}

} // verus!
