//! Polynomials with exact decimal coefficients, kept by ascending power.

use crate::decimal::{Decimal, lemma_zero_plus, Number};
use crate::text::{nat_text, string_of};
use crate::utils::{fmt_number_with_vars, formatted_text, pairs_of};
use std::collections::HashMap;
use vstd::prelude::*;
use vstd::std_specs::iter::IteratorSpec;

verus! {

/// Why an equation could not be read or solved.
#[derive(Debug, PartialEq, Eq, Clone, Copy)]
pub enum Error {
    /// The reduced polynomial has a degree above two.
    BadDegree,
    /// The text is not a sequence of terms.
    Invalid,
    /// An exponent does not fit in 32 bits.
    OverflowPower,
}

/// The coefficient that `m` has at power `e`: zero where it has none.
pub open spec fn coefficient(m: Map<u32, Number>, e: u32) -> Number {
    if m.contains_key(e) {
        m[e]
    } else {
        Number::zero()
    }
}

/// The polynomial `m` with `c` added at power `e`; a sum of zero leaves no
/// entry.
pub open spec fn with_added(m: Map<u32, Number>, e: u32, c: Number) -> Map<u32, Number> {
    let sum = coefficient(m, e).plus(c);
    if sum.is_zero() {
        m.remove(e)
    } else {
        m.insert(e, sum)
    }
}

/// The polynomial `m` without its entries that are zero.
pub open spec fn prune(m: Map<u32, Number>) -> Map<u32, Number> {
    Map::new(|e: u32| m.contains_key(e) && !m[e].is_zero(), |e: u32| m[e])
}

/// Pruning twice gives what pruning once gives.
pub proof fn lemma_prune_idempotent(m: Map<u32, Number>)
    ensures
        prune(prune(m)) == prune(m),
        reduced(m) ==> prune(m) == m,
{
    assert(prune(prune(m)) =~= prune(m));
    if reduced(m) {
        assert(prune(m) =~= m);
    }
}

/// The numbers that a table of coefficients holds.
pub open spec fn numbers_of(m: Map<u32, Decimal>) -> Map<u32, Number> {
    Map::new(|e: u32| m.contains_key(e), |e: u32| m[e]@)
}

/// The difference of two polynomials: at each power the coefficient of `a`
/// minus that of `b`, where that is not zero.
pub open spec fn difference(a: Map<u32, Number>, b: Map<u32, Number>) -> Map<u32, Number> {
    Map::new(
        |e: u32| !coefficient(a, e).minus(coefficient(b, e)).is_zero(),
        |e: u32| coefficient(a, e).minus(coefficient(b, e)),
    )
}

/// No entry of `m` is zero, and each is written with the smallest scale.
pub open spec fn reduced(m: Map<u32, Number>) -> bool {
    forall|e: u32| m.contains_key(e) ==> !(#[trigger] m[e]).is_zero() && m[e].canonical()
}

/// The entries of `m` with a power below `bound`, by ascending power.
pub open spec fn entries_below(m: Map<u32, Number>, bound: nat) -> Seq<(u32, Number)>
    decreases bound,
{
    if bound == 0 {
        Seq::empty()
    } else {
        let e = (bound - 1) as u32;
        let lower = entries_below(m, (bound - 1) as nat);
        if bound - 1 <= u32::MAX && m.contains_key(e) {
            lower.push((e, m[e]))
        } else {
            lower
        }
    }
}

/// All entries of `m`, by ascending power.
pub open spec fn entries_of(m: Map<u32, Number>) -> Seq<(u32, Number)> {
    entries_below(m, 0x1_0000_0000)
}

/// What stands behind the coefficient of power `e`: nothing, `X`, or `X^`
/// and the power.
pub open spec fn symbol_text(e: u32) -> Seq<char> {
    if e == 0 {
        Seq::empty()
    } else if e == 1 {
        seq!['X']
    } else {
        seq!['X', '^'] + nat_text(e as nat)
    }
}

/// The terms of a polynomial as numbers and symbols, by ascending power.
pub open spec fn term_pairs(entries: Seq<(u32, Number)>) -> Seq<(Number, Seq<char>)> {
    Seq::new(entries.len(), |i: int| (entries[i].1, symbol_text(entries[i].0)))
}

/// The text of a polynomial: its terms by ascending power.
pub open spec fn polynomial_text(m: Map<u32, Number>) -> Seq<char> {
    formatted_text(term_pairs(entries_of(m)))
}

/// The texts of the three errors.
pub open spec fn error_text(e: Error) -> Seq<char> {
    match e {
        Error::BadDegree => "computerv1 can't solve polynomes of degree higher than 2"@,
        Error::Invalid => "Invalid input"@,
        Error::OverflowPower => "The value of an exponent is greater than the maximal u32 value"@,
    }
}

impl Error {
    /// The message of the error.
    pub fn to_string(&self) -> (r: String)
        ensures
            r@ == error_text(*self),
    {
        match self {
            Error::BadDegree => String::from_str(
                "computerv1 can't solve polynomes of degree higher than 2",
            ),
            Error::Invalid => String::from_str("Invalid input"),
            Error::OverflowPower => String::from_str(
                "The value of an exponent is greater than the maximal u32 value",
            ),
        }
    }
}

/// How many entries of `s` have a power below `bound`.
pub open spec fn count_below(s: Seq<(u32, Decimal)>, bound: nat) -> int
    decreases s.len(),
{
    if s.len() == 0 {
        0
    } else if s.last().0 < bound {
        s.len() as int
    } else {
        count_below(s.drop_last(), bound)
    }
}

/// The powers and numbers of `s`.
pub open spec fn numbered(s: Seq<(u32, Decimal)>) -> Seq<(u32, Number)> {
    Seq::new(s.len(), |i: int| (s[i].0, s[i].1@))
}

/// The entries of an ascending sequence with a power below a bound are its
/// first ones.
pub proof fn lemma_count_below(s: Seq<(u32, Decimal)>, bound: nat)
    requires
        ascending(s),
    ensures
        0 <= count_below(s, bound) <= s.len(),
        forall|i: int| 0 <= i < count_below(s, bound) ==> (#[trigger] s[i]).0 < bound,
        forall|i: int| count_below(s, bound) <= i < s.len() ==> (#[trigger] s[i]).0 >= bound,
    decreases s.len(),
{
    if s.len() > 0 {
        let t = s.drop_last();
        assert(ascending(t)) by {
            assert forall|a: int, b: int| 0 <= a < b < t.len() implies (#[trigger] t[a]).0 < (
            #[trigger] t[b]).0 by {
                assert(t[a] == s[a]);
                assert(t[b] == s[b]);
            }
        }
        lemma_count_below(t, bound);
        if s.last().0 < bound {
            assert forall|i: int| 0 <= i < s.len() implies (#[trigger] s[i]).0 < bound by {
                if i < s.len() - 1 {
                    assert(s[i].0 < s[s.len() - 1].0);
                }
            }
        } else {
            assert forall|i: int| 0 <= i < count_below(t, bound) implies (#[trigger] s[i]).0
                < bound by {
                assert(s[i] == t[i]);
            }
            assert forall|i: int| count_below(t, bound) <= i < s.len() implies (
            #[trigger] s[i]).0 >= bound by {
                if i < t.len() {
                    assert(s[i] == t[i]);
                }
            }
        }
    }
}

/// The entries of the map of an ascending sequence, below a bound, are the
/// start of that sequence.
pub proof fn lemma_entries_below(s: Seq<(u32, Decimal)>, bound: nat)
    requires
        ascending(s),
        bound <= 0x1_0000_0000,
    ensures
        entries_below(entries_map(s), bound) == numbered(s).take(count_below(s, bound)),
    decreases bound,
{
    let m = entries_map(s);
    lemma_count_below(s, bound);
    if bound == 0 {
        if count_below(s, bound) > 0 {
            assert(s[0].0 < bound);
        }
        assert(numbered(s).take(count_below(s, bound)) =~= Seq::<(u32, Number)>::empty());
    } else {
        let e = (bound - 1) as u32;
        lemma_entries_below(s, (bound - 1) as nat);
        lemma_count_below(s, (bound - 1) as nat);
        let c0 = count_below(s, (bound - 1) as nat);
        let c1 = count_below(s, bound);
        if m.contains_key(e) {
            let p = place_of(s, e);
            assert(0 <= p < s.len() && s[p].0 == e);
            lemma_place(s, p);
            assert(c0 == p) by {
                if c0 < p {
                    assert(s[c0].0 >= bound - 1);
                    assert(s[c0].0 < s[p].0);
                } else if c0 > p {
                    assert(s[p].0 < bound - 1);
                }
            }
            assert(c1 == p + 1) by {
                if c1 <= p {
                    assert(s[p].0 >= bound);
                } else if c1 > p + 1 {
                    assert(s[p + 1].0 < bound);
                    assert(s[p].0 < s[p + 1].0);
                }
            }
            assert(numbered(s).take(c1) =~= numbered(s).take(c0).push((e, m[e])));
        } else {
            assert(c0 == c1) by {
                if c0 < c1 {
                    assert(s[c0].0 >= bound - 1);
                    assert(s[c0].0 < bound);
                    assert(has_power(s, e));
                } else if c0 > c1 {
                    assert(s[c1].0 < bound - 1);
                    assert(s[c1].0 >= bound);
                }
            }
        }
    }
}

/// `d` is the degree of `m`: its highest power, or zero where it has none.
pub open spec fn is_degree(m: Map<u32, Number>, d: u32) -> bool {
    &&& forall|e: u32| m.contains_key(e) ==> e <= d
    &&& d != 0 ==> m.contains_key(d)
}

/// Some entry of `s` has power `e`.
pub open spec fn has_power(s: Seq<(u32, Decimal)>, e: u32) -> bool {
    exists|i: int| 0 <= i < s.len() && (#[trigger] s[i]).0 == e
}

/// The place of an entry of power `e` in `s`.
pub open spec fn place_of(s: Seq<(u32, Decimal)>, e: u32) -> int {
    choose|i: int| 0 <= i < s.len() && (#[trigger] s[i]).0 == e
}

/// The powers of `s` rise strictly.
pub open spec fn ascending(s: Seq<(u32, Decimal)>) -> bool {
    forall|i: int, j: int| 0 <= i < j < s.len() ==> (#[trigger] s[i]).0 < (#[trigger] s[j]).0
}

/// The map from each power of `s` to its coefficient.
pub open spec fn entries_map(s: Seq<(u32, Decimal)>) -> Map<u32, Number> {
    Map::new(|e: u32| has_power(s, e), |e: u32| s[place_of(s, e)].1@)
}

/// Every coefficient of `s` is well formed and not zero.
pub open spec fn all_nonzero(s: Seq<(u32, Decimal)>) -> bool {
    forall|i: int| 0 <= i < s.len() ==> (#[trigger] s[i]).1.wf() && !s[i].1@.is_zero()
}

/// In an ascending sequence each power has one place.
pub proof fn lemma_place(s: Seq<(u32, Decimal)>, i: int)
    requires
        ascending(s),
        0 <= i < s.len(),
    ensures
        has_power(s, s[i].0),
        place_of(s, s[i].0) == i,
        entries_map(s)[s[i].0] == s[i].1@,
{
    let e = s[i].0;
    assert(has_power(s, e));
    let p = place_of(s, e);
    assert(0 <= p < s.len() && s[p].0 == e);
    if p < i {
        assert(s[p].0 < s[i].0);
    } else if i < p {
        assert(s[i].0 < s[p].0);
    }
}

/// A power that falls between two neighbours is not in the sequence.
pub proof fn lemma_absent(s: Seq<(u32, Decimal)>, i: int, e: u32)
    requires
        ascending(s),
        0 <= i <= s.len(),
        forall|k: int| 0 <= k < i ==> (#[trigger] s[k]).0 < e,
        i < s.len() ==> s[i].0 > e,
    ensures
        !has_power(s, e),
{
    if has_power(s, e) {
        let p = place_of(s, e);
        assert(0 <= p < s.len() && s[p].0 == e);
        if p < i {
            assert(s[p].0 < e);
        } else if p > i {
            assert(s[i].0 < s[p].0);
        }
    }
}

/// An entry set into an ascending sequence at its place is set into the map.
pub proof fn lemma_map_insert(s: Seq<(u32, Decimal)>, i: int, e: u32, d: Decimal)
    requires
        ascending(s),
        0 <= i <= s.len(),
        forall|k: int| 0 <= k < i ==> (#[trigger] s[k]).0 < e,
        i < s.len() ==> s[i].0 > e,
    ensures
        ascending(s.insert(i, (e, d))),
        entries_map(s.insert(i, (e, d))) == entries_map(s).insert(e, d@),
{
    let t = s.insert(i, (e, d));
    assert forall|a: int, b: int| 0 <= a < b < t.len() implies (#[trigger] t[a]).0 < (
    #[trigger] t[b]).0 by {
        let a0 = if a < i {
            a
        } else {
            a - 1
        };
        let b0 = if b < i {
            b
        } else {
            b - 1
        };
        if a != i && b != i {
            assert(t[a] == s[a0]);
            assert(t[b] == s[b0]);
            assert(s[a0].0 < s[b0].0);
        } else if a == i {
            assert(t[b] == s[b0]);
            if b0 > i {
                assert(s[i].0 < s[b0].0);
            }
        } else {
            assert(t[a] == s[a0]);
            assert(s[a0].0 < e);
        }
    }
    let m1 = entries_map(t);
    let m2 = entries_map(s).insert(e, d@);
    assert forall|k: u32|
        #![trigger m1.dom().contains(k)]
        #![trigger m2.dom().contains(k)]
        m1.dom().contains(k) == m2.dom().contains(k) && (m1.dom().contains(k) ==> m1[k]
            == m2[k]) by {
        if has_power(t, k) {
            let p = place_of(t, k);
            assert(0 <= p < t.len() && t[p].0 == k);
            lemma_place(t, p);
            if p < i {
                assert(t[p] == s[p]);
                lemma_place(s, p);
            } else if p > i {
                assert(t[p] == s[p - 1]);
                lemma_place(s, p - 1);
            }
        }
        if has_power(s, k) {
            let p = place_of(s, k);
            assert(0 <= p < s.len() && s[p].0 == k);
            lemma_place(s, p);
            if p < i {
                assert(t[p] == s[p]);
                lemma_place(t, p);
            } else {
                assert(t[p + 1] == s[p]);
                lemma_place(t, p + 1);
            }
        }
        if k == e {
            assert(t[i] == (e, d));
            lemma_place(t, i);
        }
    }
    assert(m1 =~= m2);
}

/// A coefficient replaced in the sequence is replaced in the map.
pub proof fn lemma_map_update(s: Seq<(u32, Decimal)>, i: int, d: Decimal)
    requires
        ascending(s),
        0 <= i < s.len(),
    ensures
        ascending(s.update(i, (s[i].0, d))),
        entries_map(s.update(i, (s[i].0, d))) == entries_map(s).insert(s[i].0, d@),
{
    let e = s[i].0;
    let t = s.update(i, (e, d));
    assert forall|a: int, b: int| 0 <= a < b < t.len() implies (#[trigger] t[a]).0 < (
    #[trigger] t[b]).0 by {
        assert(t[a].0 == s[a].0);
        assert(t[b].0 == s[b].0);
    }
    let m1 = entries_map(t);
    let m2 = entries_map(s).insert(e, d@);
    assert forall|k: u32|
        #![trigger m1.dom().contains(k)]
        #![trigger m2.dom().contains(k)]
        m1.dom().contains(k) == m2.dom().contains(k) && (m1.dom().contains(k) ==> m1[k]
            == m2[k]) by {
        if has_power(t, k) {
            let p = place_of(t, k);
            assert(0 <= p < t.len() && t[p].0 == k);
            assert(t[p].0 == s[p].0);
            lemma_place(t, p);
            lemma_place(s, p);
        }
        if has_power(s, k) {
            let p = place_of(s, k);
            assert(0 <= p < s.len() && s[p].0 == k);
            assert(t[p].0 == s[p].0);
            lemma_place(t, p);
            lemma_place(s, p);
        }
    }
    assert(m1 =~= m2);
}

/// An entry taken out of the sequence is taken out of the map.
pub proof fn lemma_map_remove(s: Seq<(u32, Decimal)>, i: int)
    requires
        ascending(s),
        0 <= i < s.len(),
    ensures
        ascending(s.remove(i)),
        entries_map(s.remove(i)) == entries_map(s).remove(s[i].0),
{
    let e = s[i].0;
    let t = s.remove(i);
    assert forall|a: int, b: int| 0 <= a < b < t.len() implies (#[trigger] t[a]).0 < (
    #[trigger] t[b]).0 by {
        let a0 = if a < i {
            a
        } else {
            a + 1
        };
        let b0 = if b < i {
            b
        } else {
            b + 1
        };
        assert(t[a] == s[a0]);
        assert(t[b] == s[b0]);
        assert(s[a0].0 < s[b0].0);
    }
    let m1 = entries_map(t);
    let m2 = entries_map(s).remove(e);
    assert forall|k: u32|
        #![trigger m1.dom().contains(k)]
        #![trigger m2.dom().contains(k)]
        m1.dom().contains(k) == m2.dom().contains(k) && (m1.dom().contains(k) ==> m1[k]
            == m2[k]) by {
        if has_power(t, k) {
            let p = place_of(t, k);
            assert(0 <= p < t.len() && t[p].0 == k);
            lemma_place(t, p);
            let from = if p < i {
                p
            } else {
                p + 1
            };
            assert(t[p] == s[from]);
            lemma_place(s, from);
            if from < i {
                assert(s[from].0 < s[i].0);
            } else {
                assert(s[i].0 < s[from].0);
            }
        }
        if has_power(s, k) && k != e {
            let p = place_of(s, k);
            assert(0 <= p < s.len() && s[p].0 == k);
            lemma_place(s, p);
            let into = if p < i {
                p
            } else {
                p - 1
            };
            assert(t[into] == s[p]);
            lemma_place(t, into);
        }
    }
    assert(m1 =~= m2);
}

/// A polynomial: for each power its coefficient, none of them zero.
#[derive(Debug, PartialEq, Eq)]
pub struct Polynome(Vec<(u32, Decimal)>);

impl View for Polynome {
    type V = Map<u32, Number>;

    closed spec fn view(&self) -> Map<u32, Number> {
        entries_map(self.0@)
    }
}

impl Polynome {
    /// The powers rise strictly and no coefficient is zero.
    #[verifier::type_invariant]
    pub closed spec fn wf(&self) -> bool {
        ascending(self.0@) && all_nonzero(self.0@)
    }

    /// The zero polynomial.
    pub fn zero() -> (r: Polynome)
        ensures
            r.wf(),
            r@ == Map::<u32, Number>::empty(),
    {
        let r = Polynome(Vec::new());
        assert(r@ =~= Map::<u32, Number>::empty());
        r
    }

    /// The first place whose power is not below `e`.
    fn place(&self, e: u32) -> (i: usize)
        ensures
            i <= self.0@.len(),
            forall|k: int| 0 <= k < i ==> (#[trigger] self.0@[k]).0 < e,
            i < self.0@.len() ==> self.0@[i as int].0 >= e,
    {
        proof {
            use_type_invariant(self);
        }
        let mut i: usize = 0;
        while i < self.0.len() && self.0[i].0 < e
            invariant
                i <= self.0@.len(),
                forall|k: int| 0 <= k < i ==> (#[trigger] self.0@[k]).0 < e,
            decreases self.0@.len() - i,
        {
            i = i + 1;
        }
        i
    }

    /// The polynomial with `c` added to the coefficient at power `e`.
    pub fn with_term(self, e: u32, c: &Decimal) -> (r: Polynome)
        ensures
            r.wf(),
            r@ == with_added(self@, e, c@),
    {
        proof {
            use_type_invariant(&self);
            use_type_invariant(c);
        }
        let i: usize = self.place(e);
        let ghost before = self.0@;
        let mut terms = self.0;
        if i < terms.len() && terms[i].0 == e {
            let sum = terms[i].1.plus(c);
            proof {
                lemma_place(before, i as int);
            }
            if sum.is_zero() {
                terms.remove(i);
                proof {
                    lemma_map_remove(before, i as int);
                    assert forall|k: int| 0 <= k < terms@.len() implies (
                    #[trigger] terms@[k]).1.wf() && !terms@[k].1@.is_zero() by {
                        if k < i {
                            assert(terms@[k] == before[k]);
                        } else {
                            assert(terms@[k] == before[k + 1]);
                        }
                    }
                }
            } else {
                proof {
                    lemma_map_update(before, i as int, sum);
                }
                terms[i] = (e, sum);
                proof {
                    assert forall|k: int| 0 <= k < terms@.len() implies (
                    #[trigger] terms@[k]).1.wf() && !terms@[k].1@.is_zero() by {
                        if k != i {
                            assert(terms@[k] == before[k]);
                        }
                    }
                }
            }
        } else {
            proof {
                lemma_absent(before, i as int, e);
                c.lemma_canonical();
                lemma_zero_plus(c@);
            }
            if !c.is_zero() {
                let d = c.clone();
                proof {
                    lemma_map_insert(before, i as int, e, d);
                }
                terms.insert(i, (e, d));
                proof {
                    assert forall|k: int| 0 <= k < terms@.len() implies (
                    #[trigger] terms@[k]).1.wf() && !terms@[k].1@.is_zero() by {
                        if k < i {
                            assert(terms@[k] == before[k]);
                        } else if k > i {
                            assert(terms@[k] == before[k - 1]);
                        }
                    }
                }
            } else {
                assert(entries_map(before).remove(e) =~= entries_map(before));
            }
        }
        Polynome(terms)
    }

    /// The view of a polynomial has no zero entry.
    pub proof fn lemma_reduced(&self)
        requires
            self.wf(),
        ensures
            reduced(self@),
            prune(self@) == self@,
    {
        assert forall|e: u32| self@.contains_key(e) implies !(#[trigger] self@[e]).is_zero()
            && self@[e].canonical() by {
            let p = place_of(self.0@, e);
            assert(0 <= p < self.0@.len() && self.0@[p].0 == e);
            lemma_place(self.0@, p);
            self.0@[p].1.lemma_canonical();
        }
        assert(prune(self@) =~= self@);
    }

    /// Builds a polynomial from a table of coefficients by power. Entries that
    /// are zero are left out.
    pub fn new(tab: HashMap<u32, Decimal>) -> (r: Polynome)
        ensures
            r.wf(),
            r@ == prune(numbers_of(tab@)),
    {
        broadcast use vstd::std_specs::hash::group_hash_axioms;

        let mut poly = Polynome::zero();
        let ghost target = prune(numbers_of(tab@));
        let ghost items = vstd::std_specs::hash::spec_hash_map_iter(&tab).remaining();
        let ghost mut seen: int = 0;
        for pair in it: tab.iter()
            invariant
                it.seq() == items,
                seen == it.index(),
                items.no_duplicates(),
                forall|j: int|
                    0 <= j < items.len() ==> tab@.contains_key(*(#[trigger] items[j]).0)
                        && tab@[*items[j].0] == *items[j].1,
                forall|k: u32| #[trigger]
                    tab@.contains_key(k) ==> items.contains((&k, &tab@[k])),
                target == prune(numbers_of(tab@)),
                poly.wf(),
                poly@ == Map::new(
                    |e: u32|
                        target.contains_key(e) && exists|j: int|
                            0 <= j < seen && *(#[trigger] items[j]).0 == e,
                    |e: u32| target[e],
                ),
        {
            let (k, v) = pair;
            let ghost before = poly@;
            let ghost idx = seen;
            proof {
                assert(items[idx] == pair);
                assert(tab@.contains_key(*k) && tab@[*k] == *v);
                assert(!before.contains_key(*k)) by {
                    if before.contains_key(*k) {
                        let j = choose|j: int| 0 <= j < idx && *(#[trigger] items[j]).0 == *k;
                        assert(tab@[*items[j].0] == *items[j].1);
                        assert(items[j] == items[idx]);
                    }
                }
                use_type_invariant(v);
                v.lemma_canonical();
                lemma_zero_plus(v@);
            }
            poly = poly.with_term(*k, v);
            proof {
                seen = seen + 1;
                let after = Map::new(
                    |e: u32|
                        target.contains_key(e) && exists|j: int|
                            0 <= j < idx + 1 && *(#[trigger] items[j]).0 == e,
                    |e: u32| target[e],
                );
                assert forall|e: u32|
                    #![trigger poly@.dom().contains(e)]
                    #![trigger after.dom().contains(e)]
                    poly@.dom().contains(e) == after.dom().contains(e) && (poly@.dom().contains(
                        e,
                    ) ==> poly@[e] == after[e]) by {
                    if e == *k {
                        if !v@.is_zero() {
                            assert(*items[idx].0 == e);
                        }
                    } else {
                        if before.contains_key(e) {
                            let j = choose|j: int|
                                0 <= j < idx && *(#[trigger] items[j]).0 == e;
                            assert(*items[j].0 == e);
                        }
                        if after.contains_key(e) {
                            let j = choose|j: int|
                                0 <= j < idx + 1 && *(#[trigger] items[j]).0 == e;
                            assert(j != idx);
                            assert(*items[j].0 == e);
                        }
                    }
                }
                assert(poly@ =~= after);
            }
        }
        proof {
            assert(seen == items.len());
            assert forall|e: u32|
                #![trigger poly@.dom().contains(e)]
                #![trigger target.dom().contains(e)]
                poly@.dom().contains(e) == target.dom().contains(e) && (poly@.dom().contains(e)
                    ==> poly@[e] == target[e]) by {
                if target.contains_key(e) {
                    assert(tab@.contains_key(e));
                    assert(items.contains((&e, &tab@[e])));
                    let j = choose|j: int| 0 <= j < items.len() && items[j] == (&e, &tab@[e]);
                    assert(*items[j].0 == e);
                }
            }
            assert(poly@ =~= target);
        }
        poly
    }

    /// The text of the polynomial: its terms by ascending power, written as
    /// sums of terms are.
    pub fn to_string(&self) -> (r: String)
        ensures
            r@ == polynomial_text(self@),
    {
        proof {
            use_type_invariant(self);
        }
        let mut tab: Vec<(Decimal, String)> = Vec::new();
        let mut i: usize = 0;
        while i < self.0.len()
            invariant
                i <= self.0@.len(),
                self.wf(),
                tab@.len() == i,
                forall|k: int|
                    0 <= k < i ==> (#[trigger] tab@[k]).0@ == self.0@[k].1@ && tab@[k].1@
                        == symbol_text(self.0@[k].0),
            decreases self.0@.len() - i,
        {
            let e: u32 = self.0[i].0;
            let mut symbol: Vec<char> = Vec::new();
            if e == 1 {
                symbol.push('X');
            } else if e > 1 {
                symbol.push('X');
                symbol.push('^');
                let digits = Decimal::from_u32(e).to_chars();
                crate::utils::append_chars(&mut symbol, &digits);
            }
            assert(symbol@ =~= symbol_text(e));
            assert(self.0@[i as int].1.wf());
            let value = self.0[i].1.clone();
            tab.push((value, string_of(&symbol)));
            i = i + 1;
        }
        proof {
            lemma_entries_below(self.0@, 0x1_0000_0000);
            lemma_count_below(self.0@, 0x1_0000_0000);
            let c = count_below(self.0@, 0x1_0000_0000);
            assert(c == self.0@.len()) by {
                if c < self.0@.len() {
                    assert(self.0@[c].0 >= 0x1_0000_0000);
                }
            }
            assert(numbered(self.0@).take(c) =~= numbered(self.0@));
            assert(pairs_of(tab@) =~= term_pairs(entries_of(self@)));
        }
        fmt_number_with_vars(tab)
    }

    /// The coefficient at power `degree`; zero where the polynomial has none.
    pub fn get_multiplier_degree(&self, degree: u32) -> (r: Decimal)
        ensures
            r.wf(),
            r@ == coefficient(self@, degree),
    {
        proof {
            use_type_invariant(self);
        }
        let i: usize = self.place(degree);
        if i < self.0.len() && self.0[i].0 == degree {
            proof {
                lemma_place(self.0@, i as int);
            }
            self.0[i].1.clone()
        } else {
            proof {
                lemma_absent(self.0@, i as int, degree);
            }
            Decimal::zero()
        }
    }

    /// The highest power of the polynomial; zero for the zero polynomial.
    pub fn get_degree(&self) -> (r: u32)
        ensures
            is_degree(self@, r),
    {
        proof {
            use_type_invariant(self);
        }
        let n: usize = self.0.len();
        if n == 0 {
            0
        } else {
            let r: u32 = self.0[n - 1].0;
            proof {
                lemma_place(self.0@, n - 1);
                assert forall|e: u32| self@.contains_key(e) implies e <= r by {
                    let p = place_of(self.0@, e);
                    assert(0 <= p < self.0@.len() && self.0@[p].0 == e);
                    if p < n - 1 {
                        assert(self.0@[p].0 < self.0@[n - 1].0);
                    }
                }
            }
            r
        }
    }
}

/// One more entry of the subtrahend subtracts its coefficient at its power.
pub proof fn lemma_difference_step(a: Map<u32, Number>, b: Map<u32, Number>, e: u32, c: Number)
    requires
        reduced(a),
        !b.contains_key(e),
    ensures
        difference(a, b.insert(e, c)) == with_added(difference(a, b), e, c.negated()),
{
    let m1 = difference(a, b.insert(e, c));
    let m2 = with_added(difference(a, b), e, c.negated());
    assert forall|k: u32|
        #![trigger m1.dom().contains(k)]
        #![trigger m2.dom().contains(k)]
        m1.dom().contains(k) == m2.dom().contains(k) && (m1.dom().contains(k) ==> m1[k]
            == m2[k]) by {
        if k == e {
            let x = coefficient(a, e);
            assert(Number::zero().negated() == Number::zero());
            lemma_zero_plus(x);
            assert(coefficient(difference(a, b), e) == x);
        }
    }
    assert(m1 =~= m2);
}

/// Taking nothing away leaves the polynomial as it is.
pub proof fn lemma_difference_empty(a: Map<u32, Number>)
    requires
        reduced(a),
    ensures
        difference(a, Map::<u32, Number>::empty()) == a,
{
    let m1 = difference(a, Map::<u32, Number>::empty());
    assert forall|k: u32|
        #![trigger m1.dom().contains(k)]
        #![trigger a.dom().contains(k)]
        m1.dom().contains(k) == a.dom().contains(k) && (m1.dom().contains(k) ==> m1[k] == a[k]) by {
        assert(Number::zero().negated() == Number::zero());
        lemma_zero_plus(coefficient(a, k));
    }
    assert(m1 =~= a);
}

impl vstd::std_specs::ops::SubSpecImpl for Polynome {
    open spec fn obeys_sub_spec() -> bool {
        false
    }

    open spec fn sub_req(self, other: Polynome) -> bool {
        true
    }

    open spec fn sub_spec(self, other: Polynome) -> Polynome {
        self
    }
}

impl std::ops::Sub for Polynome {
    type Output = Polynome;

    /// The difference of two polynomials: at each power the coefficient of
    /// the first minus that of the second, zeros left out.
    fn sub(self, other: Polynome) -> (r: Polynome)
        ensures
            r.wf(),
            r@ == difference(self@, other@),
    {
        proof {
            use_type_invariant(&self);
            use_type_invariant(&other);
        }
        let mut result = self;
        let mut i: usize = 0;
        proof {
            result.lemma_reduced();
            lemma_difference_empty(result@);
            assert(other.0@.take(0) =~= Seq::<(u32, Decimal)>::empty());
            assert(entries_map(other.0@.take(0)) =~= Map::<u32, Number>::empty());
        }
        while i < other.0.len()
            invariant
                i <= other.0@.len(),
                other.wf(),
                self.wf(),
                result.wf(),
                result@ == difference(self@, entries_map(other.0@.take(i as int))),
            decreases other.0@.len() - i,
        {
            let e: u32 = other.0[i].0;
            assert(other.0@[i as int].1.wf());
            let c = other.0[i].1.negated();
            proof {
                let head = other.0@.take(i as int);
                assert(ascending(head)) by {
                    assert forall|a: int, b: int| 0 <= a < b < head.len() implies (
                    #[trigger] head[a]).0 < (#[trigger] head[b]).0 by {
                        assert(head[a] == other.0@[a]);
                        assert(head[b] == other.0@[b]);
                    }
                }
                assert forall|k: int| 0 <= k < i implies (#[trigger] head[k]).0 < e by {
                    assert(head[k] == other.0@[k]);
                    assert(other.0@[k].0 < other.0@[i as int].0);
                }
                lemma_absent(head, i as int, e);
                lemma_map_insert(head, i as int, e, other.0@[i as int].1);
                assert(head.insert(i as int, (e, other.0@[i as int].1)) =~= other.0@.take(i + 1));
                self.lemma_reduced();
                lemma_difference_step(self@, entries_map(head), e, other.0@[i as int].1@);
            }
            result = result.with_term(e, &c);
            i = i + 1;
        }
        assert(other.0@.take(other.0@.len() as int) =~= other.0@);
        result
    }
}

impl Clone for Polynome {
    fn clone(&self) -> (r: Polynome)
        ensures
            r.wf(),
            r@ == self@,
    {
        proof {
            use_type_invariant(self);
        }
        let mut terms: Vec<(u32, Decimal)> = Vec::new();
        let mut i: usize = 0;
        while i < self.0.len()
            invariant
                i <= self.0@.len(),
                terms@.len() == i,
                self.wf(),
                forall|k: int|
                    0 <= k < i ==> (#[trigger] terms@[k]).0 == self.0@[k].0 && terms@[k].1@
                        == self.0@[k].1@ && terms@[k].1.wf(),
            decreases self.0@.len() - i,
        {
            let d = self.0[i].1.clone();
            terms.push((self.0[i].0, d));
            i = i + 1;
        }
        proof {
            lemma_same_entries(self.0@, terms@);
            assert forall|k: int| 0 <= k < terms@.len() implies (#[trigger] terms@[k]).1.wf()
                && !terms@[k].1@.is_zero() by {
                assert(self.0@[k].1.wf());
            }
        }
        Polynome(terms)
    }
}

/// Ascending sequences with the same powers and coefficients give the same
/// map.
pub proof fn lemma_same_entries(s: Seq<(u32, Decimal)>, t: Seq<(u32, Decimal)>)
    requires
        ascending(s),
        s.len() == t.len(),
        forall|k: int| 0 <= k < s.len() ==> (#[trigger] t[k]).0 == s[k].0 && t[k].1@ == s[k].1@,
    ensures
        entries_map(s) == entries_map(t),
        ascending(t),
{
    assert forall|a: int, b: int| 0 <= a < b < t.len() implies (#[trigger] t[a]).0 < (
    #[trigger] t[b]).0 by {
        assert(t[a].0 == s[a].0);
        assert(t[b].0 == s[b].0);
    }
    let m1 = entries_map(s);
    let m2 = entries_map(t);
    assert forall|e: u32|
        #![trigger m1.dom().contains(e)]
        #![trigger m2.dom().contains(e)]
        m1.dom().contains(e) == m2.dom().contains(e) && (m1.dom().contains(e) ==> m1[e]
            == m2[e]) by {
        if has_power(s, e) {
            let p = place_of(s, e);
            assert(0 <= p < s.len() && s[p].0 == e);
            assert(t[p].0 == e);
            lemma_place(s, p);
            lemma_place(t, p);
        }
        if has_power(t, e) {
            let p = place_of(t, e);
            assert(0 <= p < t.len() && t[p].0 == e);
            assert(t[p].0 == s[p].0);
            lemma_place(s, p);
            lemma_place(t, p);
        }
    }
    assert(m1 =~= m2);
}

} // verus!
