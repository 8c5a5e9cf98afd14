//! Natural numbers as sequences of decimal digits, least significant first.

use vstd::prelude::*;

verus! {

/// Ten to the power `n`.
pub open spec fn pow10(n: nat) -> nat
    decreases n,
{
    if n == 0 {
        1
    } else {
        10 * pow10((n - 1) as nat)
    }
}

/// Every element is a decimal digit.
pub open spec fn all_digits(s: Seq<u8>) -> bool {
    forall|i: int| 0 <= i < s.len() ==> #[trigger] s[i] < 10
}

/// The number that the digits `s` denote, `s[0]` being the units.
pub open spec fn value(s: Seq<u8>) -> nat
    decreases s.len(),
{
    if s.len() == 0 {
        0
    } else {
        s[0] as nat + 10 * value(s.drop_first())
    }
}

/// The digit of weight `10^i`, zero beyond the end.
pub open spec fn digit_at(s: Seq<u8>, i: int) -> nat {
    if 0 <= i < s.len() {
        s[i] as nat
    } else {
        0
    }
}

/// The number denoted by the `i` lowest digits.
pub open spec fn low_value(s: Seq<u8>, i: int) -> nat {
    if i <= 0 {
        0
    } else if i >= s.len() {
        value(s)
    } else {
        value(s.take(i))
    }
}

/// `n` zeros.
pub open spec fn zeros(n: nat) -> Seq<u8> {
    Seq::new(n, |i: int| 0u8)
}

/// A power of ten is positive.
pub proof fn lemma_pow10_positive(n: nat)
    ensures
        pow10(n) > 0,
    decreases n,
{
    if n > 0 {
        lemma_pow10_positive((n - 1) as nat);
    }
}

/// Powers of ten multiply as their exponents add.
pub proof fn lemma_pow10_add(a: nat, b: nat)
    ensures
        pow10(a + b) == pow10(a) * pow10(b),
    decreases a,
{
    if a == 0 {
        assert(pow10(a + b) == 1 * pow10(b));
    } else {
        lemma_pow10_add((a - 1) as nat, b);
        assert(pow10(a + b) == 10 * pow10((a - 1 + b) as nat));
        assert(10 * (pow10((a - 1) as nat) * pow10(b)) == (10 * pow10((a - 1) as nat)) * pow10(b))
            by (nonlinear_arith);
    }
}

/// One more digit at the top adds that digit at its weight.
pub proof fn lemma_value_push(s: Seq<u8>, d: u8)
    ensures
        value(s.push(d)) == value(s) + d * pow10(s.len()),
    decreases s.len(),
{
    let p = s.push(d);
    if s.len() == 0 {
        assert(p.drop_first() =~= Seq::<u8>::empty());
        assert(value(p) == d as nat + 10 * value(p.drop_first()));
        assert(pow10(0) == 1);
        assert(d * pow10(0) == d) by (nonlinear_arith)
            requires
                pow10(0) == 1,
        ;
    } else {
        let t = s.drop_first();
        assert(p.drop_first() =~= t.push(d));
        lemma_value_push(t, d);
        assert(p[0] == s[0]);
        assert(value(p) == s[0] as nat + 10 * value(t.push(d)));
        assert(value(s) == s[0] as nat + 10 * value(t));
        assert(pow10(s.len()) == 10 * pow10(t.len()));
        assert(10 * (value(t) + d * pow10(t.len())) == 10 * value(t) + d * (10 * pow10(t.len())))
            by (nonlinear_arith);
    }
}

/// Digits set above others denote their number times the weight of the
/// lowest of them, plus the number below.
pub proof fn lemma_value_concat(a: Seq<u8>, b: Seq<u8>)
    ensures
        value(a + b) == value(a) + pow10(a.len()) * value(b),
    decreases a.len(),
{
    if a.len() == 0 {
        assert(a + b =~= b);
        assert(pow10(0) * value(b) == value(b)) by (nonlinear_arith)
            requires
                pow10(0) == 1,
        ;
    } else {
        let t = a.drop_first();
        let c = a + b;
        assert(c.drop_first() =~= t + b);
        lemma_value_concat(t, b);
        assert(c[0] == a[0]);
        assert(value(c) == a[0] as nat + 10 * value(t + b));
        assert(pow10(a.len()) == 10 * pow10(t.len()));
        assert(10 * (value(t) + pow10(t.len()) * value(b)) == 10 * value(t) + (10 * pow10(
            t.len(),
        )) * value(b)) by (nonlinear_arith);
    }
}

/// `n` digits denote a number below `10^n`.
pub proof fn lemma_value_bound(s: Seq<u8>)
    requires
        all_digits(s),
    ensures
        value(s) < pow10(s.len()),
    decreases s.len(),
{
    if s.len() > 0 {
        let t = s.drop_first();
        assert(all_digits(t)) by {
            assert forall|i: int| 0 <= i < t.len() implies #[trigger] t[i] < 10 by {
                assert(t[i] == s[i + 1]);
            }
        }
        lemma_value_bound(t);
        assert(s[0] < 10);
    }
}

/// Digits whose last is not zero denote a positive number.
pub proof fn lemma_top_digit(s: Seq<u8>)
    requires
        s.len() > 0,
        s.last() != 0,
    ensures
        value(s) > 0,
    decreases s.len(),
{
    if s.len() > 1 {
        let t = s.drop_first();
        assert(t.last() == s.last());
        lemma_top_digit(t);
    } else {
        assert(s[0] == s.last());
    }
}

/// Zeros denote zero.
pub proof fn lemma_value_zeros(n: nat)
    ensures
        value(zeros(n)) == 0,
    decreases n,
{
    if n > 0 {
        assert(zeros(n).drop_first() =~= zeros((n - 1) as nat));
        lemma_value_zeros((n - 1) as nat);
    }
}

/// Taking one more low digit adds that digit at its weight.
pub proof fn lemma_low_value_step(s: Seq<u8>, i: int)
    requires
        0 <= i,
    ensures
        low_value(s, i + 1) == low_value(s, i) + digit_at(s, i) * pow10(i as nat),
{
    if i < s.len() {
        assert(s.take(i + 1) =~= s.take(i).push(s[i]));
        lemma_value_push(s.take(i), s[i]);
        assert(s.take(s.len() as int) =~= s);
        if i == 0 {
            assert(s.take(0) =~= Seq::<u8>::empty());
        }
    } else {
        assert(digit_at(s, i) * pow10(i as nat) == 0) by (nonlinear_arith)
            requires
                digit_at(s, i) == 0,
        ;
    }
}

/// Digits stay digits when a digit is added.
pub proof fn lemma_all_digits_push(s: Seq<u8>, d: u8)
    requires
        all_digits(s),
        d < 10,
    ensures
        all_digits(s.push(d)),
{
    let p = s.push(d);
    assert forall|i: int| 0 <= i < p.len() implies #[trigger] p[i] < 10 by {
        if i < s.len() {
            assert(p[i] == s[i]);
        }
    }
}

/// The larger of two lengths.
pub open spec fn longer(a: Seq<u8>, b: Seq<u8>) -> nat {
    if a.len() >= b.len() {
        a.len()
    } else {
        b.len()
    }
}

/// Adds two numbers digit by digit.
pub(crate) fn add_digits(a: &Vec<u8>, b: &Vec<u8>) -> (r: Vec<u8>)
    requires
        all_digits(a@),
        all_digits(b@),
    ensures
        all_digits(r@),
        value(r@) == value(a@) + value(b@),
        r@.len() == longer(a@, b@) + 1,
{
    let n: usize = if a.len() >= b.len() {
        a.len()
    } else {
        b.len()
    };
    let mut r: Vec<u8> = Vec::new();
    let mut carry: u8 = 0;
    let mut i: usize = 0;
    while i < n
        invariant
            n == longer(a@, b@),
            i <= n,
            carry <= 1,
            r@.len() == i,
            all_digits(r@),
            all_digits(a@),
            all_digits(b@),
            value(r@) + carry * pow10(i as nat) == low_value(a@, i as int) + low_value(
                b@,
                i as int,
            ),
        decreases n - i,
    {
        let x: u8 = if i < a.len() {
            a[i]
        } else {
            0
        };
        let y: u8 = if i < b.len() {
            b[i]
        } else {
            0
        };
        let t: u8 = x + y + carry;
        let d: u8 = if t >= 10 {
            t - 10
        } else {
            t
        };
        let c: u8 = if t >= 10 {
            1
        } else {
            0
        };
        proof {
            lemma_low_value_step(a@, i as int);
            lemma_low_value_step(b@, i as int);
            lemma_value_push(r@, d);
            lemma_all_digits_push(r@, d);
            let p = pow10(i as nat);
            assert(pow10((i + 1) as nat) == 10 * p);
            assert(d * p + c * (10 * p) == x * p + y * p + carry * p) by (nonlinear_arith)
                requires
                    d + 10 * c == x + y + carry,
            ;
        }
        r.push(d);
        carry = c;
        i = i + 1;
    }
    proof {
        lemma_value_push(r@, carry);
        lemma_all_digits_push(r@, carry);
    }
    r.push(carry);
    r
}

/// Subtracts digit by digit. The result is the difference where `a` is at
/// least `b`; otherwise the borrow is set and the result is the difference
/// plus `10^n`, `n` being the longer length.
pub(crate) fn sub_digits(a: &Vec<u8>, b: &Vec<u8>) -> (r: (Vec<u8>, bool))
    requires
        all_digits(a@),
        all_digits(b@),
    ensures
        all_digits(r.0@),
        r.0@.len() == longer(a@, b@),
        r.1 == (value(a@) < value(b@)),
        !r.1 ==> value(r.0@) == value(a@) - value(b@),
        r.1 ==> value(r.0@) == value(a@) + pow10(longer(a@, b@)) - value(b@),
{
    let n: usize = if a.len() >= b.len() {
        a.len()
    } else {
        b.len()
    };
    let mut r: Vec<u8> = Vec::new();
    let mut borrow: u8 = 0;
    let mut i: usize = 0;
    while i < n
        invariant
            n == longer(a@, b@),
            i <= n,
            borrow <= 1,
            r@.len() == i,
            all_digits(r@),
            all_digits(a@),
            all_digits(b@),
            value(r@) + low_value(b@, i as int) == low_value(a@, i as int) + borrow * pow10(
                i as nat,
            ),
        decreases n - i,
    {
        let x: u8 = if i < a.len() {
            a[i]
        } else {
            0
        };
        let y: u8 = if i < b.len() {
            b[i]
        } else {
            0
        };
        let t: u8 = x + 10 - y - borrow;
        let d: u8 = if t >= 10 {
            t - 10
        } else {
            t
        };
        let c: u8 = if t >= 10 {
            0
        } else {
            1
        };
        proof {
            lemma_low_value_step(a@, i as int);
            lemma_low_value_step(b@, i as int);
            lemma_value_push(r@, d);
            lemma_all_digits_push(r@, d);
            let p = pow10(i as nat);
            assert(pow10((i + 1) as nat) == 10 * p);
            assert(d * p + y * p + borrow * p == x * p + c * (10 * p)) by (nonlinear_arith)
                requires
                    d + y + borrow == x + 10 * c,
            ;
        }
        r.push(d);
        borrow = c;
        i = i + 1;
    }
    proof {
        lemma_value_bound(r@);
        assert(borrow * pow10(n as nat) == if borrow == 1 {
            pow10(n as nat)
        } else {
            0
        }) by (nonlinear_arith)
            requires
                borrow <= 1,
        ;
    }
    (r, borrow == 1)
}

/// Multiplies a number by one digit.
pub(crate) fn mul_small(a: &Vec<u8>, d: u8) -> (r: Vec<u8>)
    requires
        all_digits(a@),
        d < 10,
    ensures
        all_digits(r@),
        value(r@) == value(a@) * d,
        r@.len() == a@.len() + 1,
{
    let mut r: Vec<u8> = Vec::new();
    let mut carry: u8 = 0;
    let mut i: usize = 0;
    assert(0 * pow10(0) == 0nat * d) by (nonlinear_arith);
    while i < a.len()
        invariant
            i <= a.len(),
            carry < 10,
            d < 10,
            r@.len() == i,
            all_digits(r@),
            all_digits(a@),
            value(r@) + carry * pow10(i as nat) == low_value(a@, i as int) * d,
        decreases a.len() - i,
    {
        let x: u8 = a[i];
        assert(x * d <= 81) by (nonlinear_arith)
            requires
                x < 10,
                d < 10,
        ;
        let t: u8 = x * d + carry;
        let q: u8 = t / 10;
        let m: u8 = t % 10;
        proof {
            lemma_low_value_step(a@, i as int);
            lemma_value_push(r@, m);
            lemma_all_digits_push(r@, m);
            let p = pow10(i as nat);
            let l = low_value(a@, i as int);
            assert(pow10((i + 1) as nat) == 10 * p);
            assert(m * p + q * (10 * p) == (x * p) * d + carry * p) by (nonlinear_arith)
                requires
                    m + 10 * q == x * d + carry,
            ;
            assert((l + x * p) * d == l * d + (x * p) * d) by (nonlinear_arith);
        }
        r.push(m);
        carry = q;
        i = i + 1;
    }
    proof {
        lemma_value_push(r@, carry);
        lemma_all_digits_push(r@, carry);
    }
    r.push(carry);
    r
}

/// Multiplies a number by `10^k`: `k` zeros below its digits.
pub(crate) fn shifted(a: &Vec<u8>, k: usize) -> (r: Vec<u8>)
    requires
        all_digits(a@),
    ensures
        all_digits(r@),
        r@ == zeros(k as nat) + a@,
        value(r@) == pow10(k as nat) * value(a@),
{
    let mut r: Vec<u8> = Vec::new();
    let mut i: usize = 0;
    while i < k
        invariant
            i <= k,
            r@ == zeros(i as nat),
        decreases k - i,
    {
        r.push(0);
        i = i + 1;
        assert(r@ =~= zeros(i as nat));
    }
    let mut j: usize = 0;
    while j < a.len()
        invariant
            j <= a.len(),
            r@ == zeros(k as nat) + a@.take(j as int),
        decreases a.len() - j,
    {
        r.push(a[j]);
        j = j + 1;
        assert(r@ =~= zeros(k as nat) + a@.take(j as int));
    }
    proof {
        assert(a@.take(a@.len() as int) =~= a@);
        lemma_value_concat(zeros(k as nat), a@);
        lemma_value_zeros(k as nat);
        assert forall|i: int| 0 <= i < r@.len() implies #[trigger] r@[i] < 10 by {
            if i >= k {
                assert(r@[i] == a@[i - k]);
            }
        }
    }
    r
}

/// Multiplies two numbers, taking the digits of `b` from the top down.
pub(crate) fn mul_digits(a: &Vec<u8>, b: &Vec<u8>) -> (r: Vec<u8>)
    requires
        all_digits(a@),
        all_digits(b@),
    ensures
        all_digits(r@),
        value(r@) == value(a@) * value(b@),
        b@.len() > 0 ==> r@.len() >= a@.len() + b@.len(),
{
    let mut acc: Vec<u8> = Vec::new();
    let mut j: usize = b.len();
    proof {
        assert(b@.skip(b@.len() as int) =~= Seq::<u8>::empty());
        assert(value(a@) * 0 == 0) by (nonlinear_arith);
    }
    while j > 0
        invariant
            j <= b.len(),
            all_digits(a@),
            all_digits(b@),
            all_digits(acc@),
            value(acc@) == value(a@) * value(b@.skip(j as int)),
            j < b.len() ==> acc@.len() >= a@.len() + (b@.len() - j),
        decreases j,
    {
        j = j - 1;
        let d: u8 = b[j];
        let raised = shifted(&acc, 1);
        let partial = mul_small(a, d);
        proof {
            let rest = b@.skip(j as int);
            assert(rest.drop_first() =~= b@.skip(j + 1));
            assert(rest[0] == d);
            assert(value(rest) == d as nat + 10 * value(b@.skip(j + 1)));
            assert(pow10(1) == 10) by {
                assert(pow10(0) == 1);
            }
            let va = value(a@);
            let vr = value(b@.skip(j + 1));
            assert(10 * (va * vr) + va * d == va * (d + 10 * vr)) by (nonlinear_arith);
        }
        acc = add_digits(&raised, &partial);
    }
    proof {
        assert(b@.skip(0) =~= b@);
    }
    acc
}

} // verus!
