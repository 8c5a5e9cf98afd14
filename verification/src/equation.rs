//! Equations between two polynomials: their reduced form and what solves them.

use crate::decimal::{Decimal, Number};
use crate::parser::{parse_chars, parse_result};
use crate::polynomes::{coefficient, difference, Error, is_degree, Polynome};
use crate::text::chars_of;
use vstd::prelude::*;

verus! {

/// How many times `=` stands in the text.
pub open spec fn equals_count(s: Seq<char>) -> nat
    decreases s.len(),
{
    if s.len() == 0 {
        0
    } else if s.last() == '=' {
        equals_count(s.drop_last()) + 1
    } else {
        equals_count(s.drop_last())
    }
}

/// Where the first `=` stands; the length of the text where there is none.
pub open spec fn equals_place(s: Seq<char>) -> int
    decreases s.len(),
{
    if s.len() == 0 {
        0
    } else if s[0] == '=' {
        0
    } else {
        1 + equals_place(s.drop_first())
    }
}

/// The reduced form of an equation: the left side minus the right side. The
/// text must hold `=` exactly once; an error of the left side comes before
/// one of the right side.
pub open spec fn reduce_result(s: Seq<char>) -> Result<Map<u32, Number>, Error> {
    if equals_count(s) != 1 {
        Err(Error::Invalid)
    } else {
        let k = equals_place(s);
        match parse_result(s.take(k)) {
            Err(e) => Err(e),
            Ok(left) => match parse_result(s.skip(k + 1)) {
                Err(e) => Err(e),
                Ok(right) => Ok(difference(left, right)),
            },
        }
    }
}

/// The discriminant `b^2 - 4ac` of the polynomial `m`, taken as one of degree
/// two.
pub open spec fn discriminant_of(m: Map<u32, Number>) -> Number {
    let a = coefficient(m, 2);
    let b = coefficient(m, 1);
    let c = coefficient(m, 0);
    b.times(b).minus((Number { mantissa: 4, scale: 0 }).times(a).times(c))
}

/// What solves a reduced equation, with the numbers that the roots are
/// computed from.
#[derive(Debug, PartialEq, Eq)]
pub enum Solution {
    /// Degree zero and nothing left: every number is a solution.
    AllReals,
    /// Degree zero and a constant left: no number is a solution.
    NoSolution,
    /// Degree one: the one root is `-constant / slope`.
    OneRoot { constant: Decimal, slope: Decimal },
    /// Degree two, discriminant above zero: two real roots,
    /// `(-b + sqrt(discriminant)) / 2a` and `(-b - sqrt(discriminant)) / 2a`.
    TwoRoots { a: Decimal, b: Decimal, discriminant: Decimal },
    /// Degree two, discriminant zero: the one root is `-b / 2a`.
    DoubleRoot { a: Decimal, b: Decimal },
    /// Degree two, discriminant below zero: two conjugate roots, with real
    /// part `-b / 2a` and imaginary parts `sqrt(-discriminant) / 2a` and its
    /// opposite.
    ComplexRoots { a: Decimal, b: Decimal, discriminant: Decimal },
}

/// The solution `r` is what the polynomial `m` of degree `d` has.
pub open spec fn solves(m: Map<u32, Number>, d: u32, r: Result<Solution, Error>) -> bool {
    match r {
        Err(e) => d > 2 && e == Error::BadDegree,
        Ok(Solution::AllReals) => d == 0 && coefficient(m, 0).is_zero(),
        Ok(Solution::NoSolution) => d == 0 && !coefficient(m, 0).is_zero(),
        Ok(Solution::OneRoot { constant, slope }) => {
            &&& d == 1
            &&& constant.wf() && constant@ == coefficient(m, 0)
            &&& slope.wf() && slope@ == coefficient(m, 1)
        },
        Ok(Solution::TwoRoots { a, b, discriminant }) => {
            &&& d == 2
            &&& a.wf() && a@ == coefficient(m, 2)
            &&& b.wf() && b@ == coefficient(m, 1)
            &&& discriminant.wf() && discriminant@ == discriminant_of(m)
            &&& discriminant_of(m).mantissa > 0
        },
        Ok(Solution::DoubleRoot { a, b }) => {
            &&& d == 2
            &&& a.wf() && a@ == coefficient(m, 2)
            &&& b.wf() && b@ == coefficient(m, 1)
            &&& discriminant_of(m).is_zero()
        },
        Ok(Solution::ComplexRoots { a, b, discriminant }) => {
            &&& d == 2
            &&& a.wf() && a@ == coefficient(m, 2)
            &&& b.wf() && b@ == coefficient(m, 1)
            &&& discriminant.wf() && discriminant@ == discriminant_of(m)
            &&& discriminant_of(m).is_negative()
        },
    }
}

/// A polynomial has one degree.
pub proof fn lemma_degree_unique(m: Map<u32, Number>, d: u32, e: u32)
    requires
        is_degree(m, d),
        is_degree(m, e),
    ensures
        d == e,
{
    if d != 0 {
        assert(m.contains_key(d));
    }
    if e != 0 {
        assert(m.contains_key(e));
    }
}

/// One more character counts where it is `=`.
pub proof fn lemma_equals_count_push(s: Seq<char>, c: char)
    ensures
        equals_count(s.push(c)) == equals_count(s) + if c == '=' {
            1nat
        } else {
            0nat
        },
{
    assert(s.push(c).drop_last() =~= s);
}

/// The first `=` stands where none stands before.
pub proof fn lemma_equals_place(s: Seq<char>, k: int)
    requires
        0 <= k <= s.len(),
        forall|i: int| 0 <= i < k ==> s[i] != '=',
        k < s.len() ==> s[k] == '=',
    ensures
        equals_place(s) == k,
    decreases k,
{
    if k > 0 {
        let t = s.drop_first();
        assert forall|i: int| 0 <= i < k - 1 implies t[i] != '=' by {
            assert(t[i] == s[i + 1]);
        }
        lemma_equals_place(t, k - 1);
    }
}

/// Splits an equation at its `=`; `None` unless it holds exactly one.
pub fn split_sides(text: &Vec<char>) -> (r: Option<(Vec<char>, Vec<char>)>)
    ensures
        r is Some <==> equals_count(text@) == 1,
        r matches Some(sides) ==> sides.0@ == text@.take(equals_place(text@)) && sides.1@
            == text@.skip(equals_place(text@) + 1),
{
    let mut left: Vec<char> = Vec::new();
    let mut right: Vec<char> = Vec::new();
    let mut count: usize = 0;
    let mut i: usize = 0;
    let ghost mut first: int = 0;
    assert(text@.take(0) =~= Seq::<char>::empty());
    while i < text.len()
        invariant
            i <= text@.len(),
            count <= i,
            count == equals_count(text@.take(i as int)),
            count == 0 ==> right@.len() == 0 && left@ == text@.take(i as int) && forall|k: int|
                0 <= k < i ==> text@[k] != '=',
            count >= 1 ==> 0 <= first < i && text@[first] == '=' && left@ == text@.take(first)
                && forall|k: int| 0 <= k < first ==> text@[k] != '=',
            count == 1 ==> right@ == text@.subrange(first + 1, i as int),
        decreases text@.len() - i,
    {
        let c = text[i];
        proof {
            assert(text@.take(i + 1) =~= text@.take(i as int).push(c));
            lemma_equals_count_push(text@.take(i as int), c);
        }
        if c == '=' {
            proof {
                if count == 0 {
                    first = i as int;
                }
            }
            count = count + 1;
            assert(count == 1 ==> right@ =~= text@.subrange(first + 1, i + 1));
        } else if count == 0 {
            left.push(c);
            assert(left@ =~= text@.take(i + 1));
        } else {
            right.push(c);
            assert(count == 1 ==> right@ =~= text@.subrange(first + 1, i + 1));
        }
        i = i + 1;
    }
    proof {
        assert(text@.take(text@.len() as int) =~= text@);
    }
    if count != 1 {
        return None;
    }
    proof {
        lemma_equals_place(text@, first);
        assert(text@.subrange(first + 1, text@.len() as int) =~= text@.skip(first + 1));
    }
    Some((left, right))
}

/// Reduces an equation to the polynomial that must be zero: the left side
/// minus the right side.
pub fn reduce(input: &str) -> (r: Result<Polynome, Error>)
    ensures
        match r {
            Ok(p) => p.wf() && reduce_result(input@) == Ok::<Map<u32, Number>, Error>(p@),
            Err(e) => reduce_result(input@) == Err::<Map<u32, Number>, Error>(e),
        },
{
    let text = chars_of(input);
    match split_sides(&text) {
        None => Err(Error::Invalid),
        Some((left, right)) => {
            let first_side = parse_chars(&left);
            let second_side = parse_chars(&right);
            match first_side {
                Err(e) => Err(e),
                Ok(p) => match second_side {
                    Err(e) => Err(e),
                    Ok(q) => Ok(p - q),
                },
            }
        },
    }
}

/// Tells what solves the reduced equation `poly = 0`. A polynomial of a
/// degree above two is refused, and only such a one.
pub fn classify(poly: &Polynome) -> (r: Result<Solution, Error>)
    ensures
        forall|d: u32| is_degree(poly@, d) ==> solves(poly@, d, r),
        r is Err <==> exists|e: u32| e > 2 && poly@.contains_key(e),
{
    let degree: u32 = poly.get_degree();
    proof {
        assert forall|d: u32| is_degree(poly@, d) implies d == degree by {
            lemma_degree_unique(poly@, d, degree);
        }
        if degree > 2 {
            assert(poly@.contains_key(degree));
        }
    }
    if degree > 2 {
        Err(Error::BadDegree)
    } else if degree == 0 {
        if poly.get_multiplier_degree(0).is_zero() {
            Ok(Solution::AllReals)
        } else {
            Ok(Solution::NoSolution)
        }
    } else if degree == 1 {
        let constant = poly.get_multiplier_degree(0);
        let slope = poly.get_multiplier_degree(1);
        let r = Ok(Solution::OneRoot { constant, slope });
        assert(solves(poly@, degree, r));
        r
    } else {
        let a = poly.get_multiplier_degree(2);
        let b = poly.get_multiplier_degree(1);
        let c = poly.get_multiplier_degree(0);
        let four = Decimal::from_u32(4);
        let discriminant = b.times(&b).minus(&four.times(&a).times(&c));
        let r = if discriminant.is_zero() {
            Ok(Solution::DoubleRoot { a, b })
        } else if discriminant.is_negative() {
            Ok(Solution::ComplexRoots { a, b, discriminant })
        } else {
            Ok(Solution::TwoRoots { a, b, discriminant })
        };
        assert(solves(poly@, degree, r));
        r
    }
}

} // verus!
