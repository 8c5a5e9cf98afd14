//! The grammar of one side of an equation: which terms a text holds, where
//! each ends, and what each is worth.

use crate::decimal::{Number, number_at, number_end, sign_end};
use crate::text::{digits_end, spaces_end, text_value};
use vstd::prelude::*;

verus! {

/// One term found in a text.
pub struct Term {
    /// Where the term starts, at its leading operator where it has one.
    pub start: int,
    /// Where the term ends, the spaces behind it included.
    pub end: int,
    /// What the term adds at its power, the operator applied.
    pub coefficient: Number,
    /// The power of the variable; it may be larger than any machine integer.
    pub power: nat,
}

/// `c` names the variable.
pub open spec fn is_variable(c: char) -> bool {
    c == 'X' || c == 'x'
}

/// `c` is a leading operator.
pub open spec fn is_operator(c: char) -> bool {
    c == '+' || c == '-'
}

/// Where the factor in front of the variable ends. The factor is a number, or
/// a lone minus sign, or nothing.
pub open spec fn factor_end(s: Seq<char>, i: int) -> int {
    match number_end(s, i) {
        Some(e) => e,
        None => sign_end(s, i),
    }
}

/// The value of the factor that starts at `i`: the number where there is one,
/// else minus one for a lone minus sign, else one.
pub open spec fn factor_at(s: Seq<char>, i: int) -> Number {
    if number_end(s, i) is Some {
        number_at(s, i)
    } else if sign_end(s, i) > i {
        Number::one().negated()
    } else {
        Number::one()
    }
}

/// Where the exponent ends, the variable ending at `v`; `v` itself where no
/// caret followed by a digit stands there.
pub open spec fn exponent_end(s: Seq<char>, v: int) -> int {
    if 0 <= v < s.len() && s[v] == '^' && digits_end(s, v + 1) > v + 1 {
        digits_end(s, v + 1)
    } else {
        v
    }
}

/// Where the variable at `i`, with its exponent, ends; `None` where no
/// variable stands at `i`.
pub open spec fn power_end(s: Seq<char>, i: int) -> Option<int> {
    if 0 <= i < s.len() && is_variable(s[i]) {
        Some(exponent_end(s, i + 1))
    } else {
        None
    }
}

/// The power that the variable at `i` is raised to: one without an exponent.
pub open spec fn power_at(s: Seq<char>, i: int) -> nat {
    if exponent_end(s, i + 1) > i + 1 {
        text_value(s.subrange(i + 2, exponent_end(s, i + 1)))
    } else {
        1
    }
}

/// A number, a star, and a variable with an optional factor and exponent.
pub open spec fn product_at(s: Seq<char>, i: int) -> Option<Term> {
    let a = spaces_end(s, i);
    match number_end(s, a) {
        None => None,
        Some(b) => {
            let c = spaces_end(s, b);
            if 0 <= c < s.len() && s[c] == '*' {
                let d = spaces_end(s, c + 1);
                let f = factor_end(s, d);
                match power_end(s, f) {
                    None => None,
                    Some(g) => Some(
                        Term {
                            start: i,
                            end: spaces_end(s, g),
                            coefficient: number_at(s, a).times(factor_at(s, d)),
                            power: power_at(s, f),
                        },
                    ),
                }
            } else {
                None
            }
        },
    }
}

/// A variable with an optional factor and exponent.
pub open spec fn monomial_at(s: Seq<char>, i: int) -> Option<Term> {
    let a = spaces_end(s, i);
    let f = factor_end(s, a);
    match power_end(s, f) {
        None => None,
        Some(g) => Some(
            Term {
                start: i,
                end: spaces_end(s, g),
                coefficient: factor_at(s, a),
                power: power_at(s, f),
            },
        ),
    }
}

/// A number alone.
pub open spec fn constant_at(s: Seq<char>, i: int) -> Option<Term> {
    let a = spaces_end(s, i);
    match number_end(s, a) {
        None => None,
        Some(b) => Some(
            Term { start: i, end: spaces_end(s, b), coefficient: number_at(s, a), power: 0 },
        ),
    }
}

/// The term whose body starts at `i`: the first of the three forms that fits.
pub open spec fn body_at(s: Seq<char>, i: int) -> Option<Term> {
    if product_at(s, i) is Some {
        product_at(s, i)
    } else if monomial_at(s, i) is Some {
        monomial_at(s, i)
    } else {
        constant_at(s, i)
    }
}

/// The term that starts at `i`. At the start of the text a term needs no
/// operator; anywhere, `+` or `-` may lead it, and `-` negates it.
pub open spec fn term_at(s: Seq<char>, i: int) -> Option<Term> {
    if i == 0 && body_at(s, 0) is Some {
        body_at(s, 0)
    } else if 0 <= i < s.len() && is_operator(s[i]) {
        match body_at(s, i + 1) {
            None => None,
            Some(t) => if s[i] == '-' {
                Some(Term { start: i, coefficient: t.coefficient.negated(), ..t })
            } else {
                Some(Term { start: i, ..t })
            },
        }
    } else {
        None
    }
}

/// The first position from `i` on at which a term starts; the length of the
/// text where there is none.
pub open spec fn next_start(s: Seq<char>, i: int) -> int
    decreases s.len() - i,
{
    if i < 0 || i >= s.len() {
        s.len() as int
    } else if term_at(s, i) is Some {
        i
    } else {
        next_start(s, i + 1)
    }
}

/// The terms found from `i` on: the first that starts at or behind `i`, then
/// those found from its end on.
pub open spec fn terms_from(s: Seq<char>, i: int) -> Seq<Term>
    decreases s.len() - i,
{
    let q = next_start(s, i);
    match term_at(s, q) {
        Some(t) => if 0 <= i <= q < t.end <= s.len() {
            seq![t] + terms_from(s, t.end)
        } else {
            Seq::empty()
        },
        None => Seq::empty(),
    }
}

/// The number of characters that the terms span, all together.
pub open spec fn total_length(ts: Seq<Term>) -> int
    decreases ts.len(),
{
    if ts.len() == 0 {
        0
    } else {
        total_length(ts.drop_last()) + (ts.last().end - ts.last().start)
    }
}

/// Some term has a power above what 32 bits hold.
pub open spec fn overflows(ts: Seq<Term>) -> bool {
    exists|k: int| 0 <= k < ts.len() && (#[trigger] ts[k]).power > u32::MAX
}

/// The sum of the coefficients of the terms of power `e`, taken in order.
pub open spec fn coefficient_sum(ts: Seq<Term>, e: nat) -> Number
    decreases ts.len(),
{
    if ts.len() == 0 {
        Number::zero()
    } else if ts.last().power == e {
        coefficient_sum(ts.drop_last(), e).plus(ts.last().coefficient)
    } else {
        coefficient_sum(ts.drop_last(), e)
    }
}

/// The polynomial that the terms add up to: each power with the sum of its
/// coefficients, where that sum is not zero.
pub open spec fn polynomial_of(ts: Seq<Term>) -> Map<u32, Number> {
    Map::new(
        |e: u32| !coefficient_sum(ts, e as nat).is_zero(),
        |e: u32| coefficient_sum(ts, e as nat),
    )
}

} // verus!
