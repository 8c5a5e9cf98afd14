//! The scanner: reads the terms of a text as the grammar defines them.

use crate::decimal::{Decimal, Number, scan_number};
use crate::grammar::{
    body_at, coefficient_sum, constant_at, exponent_end, factor_at, factor_end, monomial_at,
    next_start, overflows, polynomial_of, power_at, power_end, product_at, Term, term_at,
    terms_from, total_length,
};
use crate::polynomes::{coefficient, Error, Polynome, with_added};
use crate::text::{
    all_digit_chars, digit_from_char, digits_end, lemma_digits_end, scan_digits, scan_spaces,
    text_value,
};
use vstd::prelude::*;

verus! {

/// What the scanner read of one term.
pub struct Piece {
    /// Where the term ends.
    pub end: usize,
    /// Its coefficient.
    pub coefficient: Decimal,
    /// Its power; `None` where the power does not fit in 32 bits.
    pub power: Option<u32>,
}

/// The piece `p` holds what the term `t` is.
pub open spec fn reads(p: Piece, t: Term) -> bool {
    &&& p.end == t.end
    &&& p.coefficient.wf()
    &&& p.coefficient@ == t.coefficient
    &&& match p.power {
        Some(e) => e == t.power,
        None => t.power > u32::MAX,
    }
}

/// The outcome of reading one side of an equation: the polynomial that the
/// terms add up to, where they cover the text and every power fits.
pub open spec fn parse_result(s: Seq<char>) -> Result<Map<u32, Number>, Error> {
    let ts = terms_from(s, 0);
    if overflows(ts) {
        Err(Error::OverflowPower)
    } else if ts.len() == 0 || total_length(ts) != s.len() {
        Err(Error::Invalid)
    } else {
        Ok(polynomial_of(ts))
    }
}

/// A longer run of digits writes a number that is no smaller.
pub proof fn lemma_text_value_prefix(t: Seq<char>, k: int)
    requires
        0 <= k <= t.len(),
    ensures
        text_value(t.take(k)) <= text_value(t),
    decreases t.len(),
{
    if k < t.len() {
        let u = t.drop_last();
        assert(u.take(k) =~= t.take(k));
        lemma_text_value_prefix(u, k);
    } else {
        assert(t.take(k) =~= t);
    }
}

/// Finds where the factor that starts at `i` ends.
fn scan_factor(text: &Vec<char>, i: usize) -> (e: usize)
    requires
        i <= text.len(),
    ensures
        e == factor_end(text@, i as int),
        i <= e <= text.len(),
{
    match scan_number(text, i) {
        Some(e) => e,
        None => if i < text.len() && text[i] == '-' {
            i + 1
        } else {
            i
        },
    }
}

/// Reads the factor that starts at `i`.
fn read_factor(text: &Vec<char>, i: usize) -> (r: Decimal)
    requires
        i <= text.len(),
    ensures
        r.wf(),
        r@ == factor_at(text@, i as int),
{
    match scan_number(text, i) {
        Some(e) => Decimal::read(text, i),
        None => if i < text.len() && text[i] == '-' {
            Decimal::one().negated()
        } else {
            Decimal::one()
        },
    }
}

/// Finds where the variable at `i`, with its exponent, ends.
fn scan_power(text: &Vec<char>, i: usize) -> (r: Option<usize>)
    requires
        i <= text.len(),
    ensures
        match r {
            Some(e) => power_end(text@, i as int) == Some(e as int) && i < e <= text.len(),
            None => power_end(text@, i as int) is None,
        },
{
    if i < text.len() && (text[i] == 'X' || text[i] == 'x') {
        let v: usize = i + 1;
        if v < text.len() && text[v] == '^' {
            let e: usize = scan_digits(text, v + 1);
            if e > v + 1 {
                return Some(e);
            }
        }
        Some(v)
    } else {
        None
    }
}

/// Reads the power of the variable at `i`.
fn read_power(text: &Vec<char>, i: usize) -> (r: Option<u32>)
    requires
        i < text.len(),
    ensures
        match r {
            Some(e) => e == power_at(text@, i as int),
            None => power_at(text@, i as int) > u32::MAX,
        },
{
    let v: usize = i + 1;
    if v < text.len() && text[v] == '^' {
        let e: usize = scan_digits(text, v + 1);
        if e > v + 1 {
            let ghost run = text@.subrange(v + 1, e as int);
            proof {
                lemma_digits_end(text@, v + 1);
            }
            let mut acc: u64 = 0;
            let mut p: usize = v + 1;
            assert(run.take(0) =~= Seq::<char>::empty());
            while p < e
                invariant
                    v + 1 <= p <= e <= text.len(),
                    v == i + 1,
                    text@[v as int] == '^',
                    e == digits_end(text@, v + 1),
                    e > v + 1,
                    run == text@.subrange(v + 1, e as int),
                    all_digit_chars(run),
                    acc == text_value(run.take(p - (v + 1))),
                    acc <= u32::MAX,
                decreases e - p,
            {
                assert(text@[p as int] == run[p - (v + 1)]);
                let d: u8 = digit_from_char(text[p]);
                let next: u64 = acc * 10 + d as u64;
                proof {
                    let longer = run.take(p + 1 - (v + 1));
                    assert(longer.drop_last() =~= run.take(p - (v + 1)));
                    assert(longer.last() == text@[p as int]);
                    assert(next == text_value(longer));
                }
                if next > u32::MAX as u64 {
                    proof {
                        lemma_text_value_prefix(run, p + 1 - (v + 1));
                        assert(exponent_end(text@, v as int) == e);
                        assert(power_at(text@, i as int) == text_value(run));
                    }
                    return None;
                }
                acc = next;
                p = p + 1;
            }
            assert(run.take(e - (v + 1)) =~= run);
            return Some(acc as u32);
        }
    }
    Some(1)
}

/// Reads a number, a star and a variable power.
fn read_product(text: &Vec<char>, i: usize) -> (r: Option<Piece>)
    requires
        i <= text.len(),
    ensures
        match r {
            Some(p) => product_at(text@, i as int) matches Some(t) && reads(p, t) && i < p.end
                <= text.len(),
            None => product_at(text@, i as int) is None,
        },
{
    let a: usize = scan_spaces(text, i);
    match scan_number(text, a) {
        None => None,
        Some(b) => {
            let c: usize = scan_spaces(text, b);
            if c < text.len() && text[c] == '*' {
                let d: usize = scan_spaces(text, c + 1);
                let f: usize = scan_factor(text, d);
                match scan_power(text, f) {
                    None => None,
                    Some(g) => {
                        let end: usize = scan_spaces(text, g);
                        let left = Decimal::read(text, a);
                        let right = read_factor(text, d);
                        let coefficient = left.times(&right);
                        let power = read_power(text, f);
                        Some(Piece { end, coefficient, power })
                    },
                }
            } else {
                None
            }
        },
    }
}

/// Reads a variable power with its factor.
fn read_monomial(text: &Vec<char>, i: usize) -> (r: Option<Piece>)
    requires
        i <= text.len(),
    ensures
        match r {
            Some(p) => monomial_at(text@, i as int) matches Some(t) && reads(p, t) && i < p.end
                <= text.len(),
            None => monomial_at(text@, i as int) is None,
        },
{
    let a: usize = scan_spaces(text, i);
    let f: usize = scan_factor(text, a);
    match scan_power(text, f) {
        None => None,
        Some(g) => {
            let end: usize = scan_spaces(text, g);
            let coefficient = read_factor(text, a);
            let power = read_power(text, f);
            Some(Piece { end, coefficient, power })
        },
    }
}

/// Reads a number alone.
fn read_constant(text: &Vec<char>, i: usize) -> (r: Option<Piece>)
    requires
        i <= text.len(),
    ensures
        match r {
            Some(p) => constant_at(text@, i as int) matches Some(t) && reads(p, t) && i < p.end
                <= text.len(),
            None => constant_at(text@, i as int) is None,
        },
{
    let a: usize = scan_spaces(text, i);
    match scan_number(text, a) {
        None => None,
        Some(b) => {
            let end: usize = scan_spaces(text, b);
            let coefficient = Decimal::read(text, a);
            Some(Piece { end, coefficient, power: Some(0) })
        },
    }
}

/// Reads the body of a term: the first of the three forms that fits.
fn read_body(text: &Vec<char>, i: usize) -> (r: Option<Piece>)
    requires
        i <= text.len(),
    ensures
        match r {
            Some(p) => body_at(text@, i as int) matches Some(t) && reads(p, t) && i < p.end
                <= text.len(),
            None => body_at(text@, i as int) is None,
        },
{
    match read_product(text, i) {
        Some(p) => Some(p),
        None => match read_monomial(text, i) {
            Some(p) => Some(p),
            None => read_constant(text, i),
        },
    }
}

/// Reads the term that starts at `i`, if one does.
pub(crate) fn read_term(text: &Vec<char>, i: usize) -> (r: Option<Piece>)
    requires
        i <= text.len(),
    ensures
        match r {
            Some(p) => term_at(text@, i as int) matches Some(t) && reads(p, t) && t.start == i
                && i < p.end <= text.len(),
            None => term_at(text@, i as int) is None,
        },
{
    if i == 0 {
        match read_body(text, 0) {
            Some(p) => {
                return Some(p);
            },
            None => {},
        }
    }
    if i < text.len() && (text[i] == '+' || text[i] == '-') {
        match read_body(text, i + 1) {
            None => None,
            Some(p) => {
                if text[i] == '-' {
                    let coefficient = p.coefficient.negated();
                    Some(Piece { end: p.end, coefficient, power: p.power })
                } else {
                    Some(p)
                }
            },
        }
    } else {
        None
    }
}

/// Finds the first term that starts at `from` or behind it.
pub(crate) fn find_term(text: &Vec<char>, from: usize) -> (r: Option<(usize, Piece)>)
    requires
        from <= text.len(),
    ensures
        match r {
            Some((q, p)) => {
                &&& q == next_start(text@, from as int)
                &&& from <= q < p.end <= text.len()
                &&& term_at(text@, q as int) matches Some(t) && reads(p, t) && t.start == q
            },
            None => next_start(text@, from as int) == text@.len(),
        },
{
    let mut q: usize = from;
    while q < text.len()
        invariant
            from <= q <= text.len(),
            next_start(text@, from as int) == next_start(text@, q as int),
        decreases text.len() - q,
    {
        match read_term(text, q) {
            Some(p) => {
                return Some((q, p));
            },
            None => {
                q = q + 1;
            },
        }
    }
    None
}

/// The terms follow one another without a gap, from `from` to `to`.
pub open spec fn contiguous(ts: Seq<Term>, from: int, to: int) -> bool {
    &&& ts.len() > 0
    &&& ts[0].start == from
    &&& ts.last().end == to
    &&& forall|k: int| 0 <= k < ts.len() - 1 ==> (#[trigger] ts[k]).end == ts[k + 1].start
}

/// The next term starts at `i` or behind it, within the text.
pub proof fn lemma_next_start(s: Seq<char>, i: int)
    requires
        0 <= i <= s.len(),
    ensures
        i <= next_start(s, i) <= s.len(),
    decreases s.len() - i,
{
    if i < s.len() && term_at(s, i) is None {
        lemma_next_start(s, i + 1);
    }
}

/// The terms found from `i` on lie between `i` and the end of the text, one
/// behind the other; they span all of it only where they leave no gap.
pub proof fn lemma_terms_lie_apart(s: Seq<char>, i: int)
    requires
        0 <= i <= s.len(),
    ensures
        total_length(terms_from(s, i)) <= s.len() - i,
        terms_from(s, i).len() > 0 ==> i <= terms_from(s, i)[0].start,
        terms_from(s, i).len() > 0 && total_length(terms_from(s, i)) == s.len() - i
            ==> contiguous(terms_from(s, i), i, s.len() as int),
    decreases s.len() - i,
{
    let ts = terms_from(s, i);
    let q = next_start(s, i);
    lemma_next_start(s, i);
    match term_at(s, q) {
        Some(t) => {
            if 0 <= i <= q < t.end <= s.len() {
                let rest = terms_from(s, t.end);
                assert(ts == seq![t] + rest);
                assert(t.start == q);
                lemma_terms_lie_apart(s, t.end);
                assert(total_length(ts) == (t.end - t.start) + total_length(rest)) by {
                    lemma_lengths_add(seq![t], rest);
                    assert(seq![t].drop_last() =~= Seq::<Term>::empty());
                    assert(total_length(seq![t].drop_last()) == 0);
                }
                if total_length(ts) == s.len() - i {
                    if rest.len() > 0 {
                        assert forall|k: int| 0 <= k < ts.len() - 1 implies (#[trigger] ts[k]).end
                            == ts[k + 1].start by {
                            if k > 0 {
                                assert(ts[k] == rest[k - 1]);
                                assert(ts[k + 1] == rest[k]);
                            } else {
                                assert(ts[1] == rest[0]);
                            }
                        }
                        assert(ts.last() == rest.last());
                    } else {
                        assert(ts =~= seq![t]);
                    }
                }
            }
        },
        None => {},
    }
}

/// The lengths of the terms of two sequences add up.
pub proof fn lemma_lengths_add(a: Seq<Term>, b: Seq<Term>)
    ensures
        total_length(a + b) == total_length(a) + total_length(b),
    decreases b.len(),
{
    if b.len() == 0 {
        assert(a + b =~= a);
    } else {
        assert((a + b).drop_last() =~= a + b.drop_last());
        assert((a + b).last() == b.last());
        lemma_lengths_add(a, b.drop_last());
    }
}

/// A text is read only where its terms leave no character out: they follow
/// one another from the start of the text to its end.
pub proof fn lemma_accepted_is_covered(s: Seq<char>)
    requires
        parse_result(s) is Ok,
    ensures
        contiguous(terms_from(s, 0), 0, s.len() as int),
{
    lemma_terms_lie_apart(s, 0);
}

/// A sum of coefficients is in canonical form, so it is zero only as the
/// number zero itself.
pub proof fn lemma_sum_canonical(ts: Seq<Term>, e: nat)
    ensures
        coefficient_sum(ts, e).canonical(),
        coefficient_sum(ts, e).is_zero() ==> coefficient_sum(ts, e) == Number::zero(),
    decreases ts.len(),
{
    if ts.len() > 0 {
        lemma_sum_canonical(ts.drop_last(), e);
        if ts.last().power == e {
            let a = coefficient_sum(ts.drop_last(), e);
            let b = ts.last().coefficient;
            let s = if a.scale >= b.scale {
                a.scale
            } else {
                b.scale
            };
            crate::decimal::lemma_canon_is_canonical(
                a.mantissa * crate::digits::pow10((s - a.scale) as nat) + b.mantissa
                    * crate::digits::pow10((s - b.scale) as nat),
                s,
            );
        }
    }
}

/// One more term adds its coefficient at its power.
pub proof fn lemma_polynomial_push(ts: Seq<Term>, t: Term)
    requires
        t.power <= u32::MAX,
    ensures
        polynomial_of(ts.push(t)) == with_added(
            polynomial_of(ts),
            t.power as u32,
            t.coefficient,
        ),
{
    let more = ts.push(t);
    let m1 = polynomial_of(more);
    let m0 = polynomial_of(ts);
    let m2 = with_added(m0, t.power as u32, t.coefficient);
    assert(more.drop_last() =~= ts);
    assert forall|k: u32|
        #![trigger m1.dom().contains(k)]
        #![trigger m2.dom().contains(k)]
        m1.dom().contains(k) == m2.dom().contains(k) && (m1.dom().contains(k) ==> m1[k]
            == m2[k]) by {
        lemma_sum_canonical(ts, k as nat);
        lemma_sum_canonical(more, k as nat);
        assert(coefficient(m0, k) == coefficient_sum(ts, k as nat));
    }
    assert(m1 =~= m2);
}

/// Reads one side of an equation from its characters.
pub fn parse_chars(text: &Vec<char>) -> (r: Result<Polynome, Error>)
    ensures
        match r {
            Ok(p) => p.wf() && parse_result(text@) == Ok::<Map<u32, Number>, Error>(p@),
            Err(e) => parse_result(text@) == Err::<Map<u32, Number>, Error>(e),
        },
{
    let n: usize = text.len();
    let mut poly = Polynome::zero();
    let mut from: usize = 0;
    let mut total: usize = 0;
    let mut finished = false;
    let ghost mut done: Seq<Term> = Seq::empty();
    proof {
        assert(done + terms_from(text@, 0) =~= terms_from(text@, 0));
        assert(polynomial_of(done) =~= Map::<u32, Number>::empty());
    }
    while !finished
        invariant
            n == text@.len(),
            from <= n,
            total <= from,
            terms_from(text@, 0) == done + terms_from(text@, from as int),
            finished ==> terms_from(text@, from as int).len() == 0,
            total == total_length(done),
            (done.len() == 0) == (total == 0),
            !overflows(done),
            poly.wf(),
            poly@ == polynomial_of(done),
        decreases n - from + (if finished { 0int } else { 1int }),
    {
        match find_term(text, from) {
            None => {
                finished = true;
            },
            Some((q, piece)) => {
                let ghost t = term_at(text@, q as int).unwrap();
                let ghost rest = terms_from(text@, piece.end as int);
                proof {
                    assert(terms_from(text@, from as int) == seq![t] + rest);
                    assert(done + (seq![t] + rest) =~= done.push(t) + rest);
                    let all = terms_from(text@, 0);
                    assert(all[done.len() as int] == t);
                }
                match piece.power {
                    None => {
                        return Err(Error::OverflowPower);
                    },
                    Some(e) => {
                        proof {
                            lemma_polynomial_push(done, t);
                            assert(done.push(t).drop_last() =~= done);
                            let more = done.push(t);
                            assert forall|k: int| 0 <= k < more.len() implies (
                            #[trigger] more[k]).power <= u32::MAX by {
                                if k < done.len() {
                                    assert(more[k] == done[k]);
                                }
                            }
                        }
                        poly = poly.with_term(e, &piece.coefficient);
                        total = total + (piece.end - q);
                        proof {
                            done = done.push(t);
                        }
                        from = piece.end;
                    },
                }
            },
        }
    }
    proof {
        assert(done + terms_from(text@, from as int) =~= done);
    }
    if total == 0 || total != n {
        Err(Error::Invalid)
    } else {
        Ok(poly)
    }
}

impl Polynome {
    /// Reads one side of an equation: a sequence of terms, each a number, a
    /// power of the variable with an optional factor, or the product of a
    /// number and such a power. Coefficients of the same power add up.
    pub fn parse(input: &str) -> (r: Result<Polynome, Error>)
        ensures
            match r {
                Ok(p) => p.wf() && parse_result(input@) == Ok::<Map<u32, Number>, Error>(p@),
                Err(e) => parse_result(input@) == Err::<Map<u32, Number>, Error>(e),
            },
    {
        let text = crate::text::chars_of(input);
        parse_chars(&text)
    }
}

} // verus!
