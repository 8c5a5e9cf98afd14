//! Exact decimal numbers of any size: the coefficients of a polynomial.

use crate::digits::{
    add_digits, all_digits, lemma_all_digits_push, lemma_pow10_add, lemma_pow10_positive,
    lemma_top_digit, lemma_value_bound, lemma_value_concat, lemma_value_push, lemma_value_zeros,
    mul_digits, pow10, shifted, sub_digits, value, zeros,
};
use crate::text::{
    all_digit_chars, be_chars, char_from_digit, chars_of, digit_from_char, digits_end, is_digit,
    le_digits, lemma_digits_end, lemma_le_digits_concat, lemma_le_digits_value,
    lemma_nat_text_digits, lemma_padded_text_digits, nat_text, padded_text, scan_digits, string_of,
    text_value,
};
use vstd::prelude::*;

verus! {

/// The number `mantissa / 10^scale`.
pub struct Number {
    pub mantissa: int,
    pub scale: nat,
}

/// The one way to write `m / 10^s` with the smallest scale.
pub open spec fn canon(m: int, s: nat) -> Number
    decreases s,
{
    if s > 0 && m % 10 == 0 {
        canon(m / 10, (s - 1) as nat)
    } else {
        Number { mantissa: m, scale: s }
    }
}

/// `a` and `b` write the same number: `a.mantissa / 10^a.scale` is
/// `b.mantissa / 10^b.scale`.
pub open spec fn same_value(a: Number, b: Number) -> bool {
    a.mantissa * pow10(b.scale) == b.mantissa * pow10(a.scale)
}

/// The canonical form writes the same number.
pub proof fn lemma_canon_keeps_value(m: int, s: nat)
    ensures
        same_value(canon(m, s), Number { mantissa: m, scale: s }),
    decreases s,
{
    if s > 0 && m % 10 == 0 {
        lemma_canon_keeps_value(m / 10, (s - 1) as nat);
        let c = canon(m, s);
        let below = pow10((s - 1) as nat);
        assert(c.mantissa * (10 * below) == (10 * (m / 10)) * pow10(c.scale)) by (nonlinear_arith)
            requires
                c.mantissa * below == (m / 10) * pow10(c.scale),
        ;
    }
}

/// Two canonical forms of the same number are the same.
pub proof fn lemma_canonical_unique(a: Number, b: Number)
    requires
        a.canonical(),
        b.canonical(),
        same_value(a, b),
    ensures
        a == b,
{
    if a.scale < b.scale {
        lemma_shorter_scale(a, b);
    } else if b.scale < a.scale {
        lemma_shorter_scale(b, a);
    } else {
        lemma_pow10_positive(a.scale);
        assert(a.mantissa == b.mantissa) by (nonlinear_arith)
            requires
                a.mantissa * pow10(a.scale) == b.mantissa * pow10(a.scale),
                pow10(a.scale) > 0,
        ;
    }
}

/// A number written with a longer scale than needed is not canonical.
proof fn lemma_shorter_scale(a: Number, b: Number)
    requires
        a.scale < b.scale,
        same_value(a, b),
    ensures
        !b.canonical(),
{
    let d = (b.scale - a.scale) as nat;
    lemma_pow10_add(a.scale, d);
    lemma_pow10_positive(a.scale);
    let p = pow10(a.scale);
    let q = pow10(d);
    assert(a.mantissa * q == b.mantissa) by (nonlinear_arith)
        requires
            a.mantissa * (p * q) == b.mantissa * p,
            p > 0,
    ;
    assert(q == 10 * pow10((d - 1) as nat));
    assert(b.mantissa == 10 * (a.mantissa * pow10((d - 1) as nat))) by (nonlinear_arith)
        requires
            a.mantissa * q == b.mantissa,
            q == 10 * pow10((d - 1) as nat),
    ;
}

/// The sum of two numbers writes the sum of what they write:
/// `a/10^p + b/10^q` is `(a * 10^q + b * 10^p) / 10^(p + q)`.
pub proof fn lemma_plus_value(a: Number, b: Number)
    ensures
        same_value(
            a.plus(b),
            Number {
                mantissa: a.mantissa * pow10(b.scale) + b.mantissa * pow10(a.scale),
                scale: a.scale + b.scale,
            },
        ),
{
    let s = if a.scale >= b.scale {
        a.scale
    } else {
        b.scale
    };
    let da = (s - a.scale) as nat;
    let db = (s - b.scale) as nat;
    let low = if a.scale >= b.scale {
        b.scale
    } else {
        a.scale
    };
    let sum = a.mantissa * pow10(da) + b.mantissa * pow10(db);
    let c = a.plus(b);
    lemma_canon_keeps_value(sum, s);
    lemma_pow10_add(s, low);
    lemma_pow10_add(da, a.scale);
    lemma_pow10_add(db, b.scale);
    lemma_pow10_add(a.scale, b.scale);
    let (ps, pl, pc) = (pow10(s), pow10(low), pow10(c.scale));
    let (pda, pdb, pa, pb) = (pow10(da), pow10(db), pow10(a.scale), pow10(b.scale));
    assert(pow10(0) == 1);
    assert(c.mantissa * (ps * pl) == ((a.mantissa * pda + b.mantissa * pdb) * pl) * pc)
        by (nonlinear_arith)
        requires
            c.mantissa * ps == (a.mantissa * pda + b.mantissa * pdb) * pc,
    ;
    if a.scale >= b.scale {
        assert((a.mantissa * pda + b.mantissa * pdb) * pl == a.mantissa * pb + b.mantissa * pa)
            by (nonlinear_arith)
            requires
                pda == 1,
                pl == pb,
                pdb * pb == pa,
        ;
    } else {
        assert((a.mantissa * pda + b.mantissa * pdb) * pl == a.mantissa * pb + b.mantissa * pa)
            by (nonlinear_arith)
            requires
                pdb == 1,
                pl == pa,
                pda * pa == pb,
        ;
    }
    assert(ps * pl == pa * pb) by (nonlinear_arith)
        requires
            (ps == pa && pl == pb) || (ps == pb && pl == pa),
    ;
}

/// The product of two numbers writes the product of what they write.
pub proof fn lemma_times_value(a: Number, b: Number)
    ensures
        same_value(
            a.times(b),
            Number { mantissa: a.mantissa * b.mantissa, scale: a.scale + b.scale },
        ),
{
    lemma_canon_keeps_value(a.mantissa * b.mantissa, a.scale + b.scale);
}

/// Adding to zero changes nothing.
pub proof fn lemma_zero_plus(x: Number)
    requires
        x.canonical(),
    ensures
        Number::zero().plus(x) == x,
        x.plus(Number::zero()) == x,
{
    assert(pow10(0) == 1);
    assert(0 * pow10(x.scale) + x.mantissa * pow10(0) == x.mantissa) by (nonlinear_arith)
        requires
            pow10(0) == 1,
    ;
    assert(x.mantissa * pow10(0) + 0 * pow10(x.scale) == x.mantissa) by (nonlinear_arith)
        requires
            pow10(0) == 1,
    ;
}

impl Number {
    /// No smaller scale writes the same number.
    pub open spec fn canonical(self) -> bool {
        self.scale == 0 || self.mantissa % 10 != 0
    }

    /// Zero.
    pub open spec fn zero() -> Number {
        Number { mantissa: 0, scale: 0 }
    }

    /// One.
    pub open spec fn one() -> Number {
        Number { mantissa: 1, scale: 0 }
    }

    /// The number is zero.
    pub open spec fn is_zero(self) -> bool {
        self.mantissa == 0
    }

    /// The number is below zero.
    pub open spec fn is_negative(self) -> bool {
        self.mantissa < 0
    }

    /// The number with the opposite sign.
    pub open spec fn negated(self) -> Number {
        Number { mantissa: -self.mantissa, scale: self.scale }
    }

    /// The number without its sign.
    pub open spec fn magnitude(self) -> Number {
        if self.mantissa < 0 {
            self.negated()
        } else {
            self
        }
    }

    /// The sum, in canonical form.
    pub open spec fn plus(self, other: Number) -> Number {
        let s = if self.scale >= other.scale {
            self.scale
        } else {
            other.scale
        };
        canon(
            self.mantissa * pow10((s - self.scale) as nat) + other.mantissa * pow10(
                (s - other.scale) as nat,
            ),
            s,
        )
    }

    /// The difference, in canonical form.
    pub open spec fn minus(self, other: Number) -> Number {
        self.plus(other.negated())
    }

    /// The product, in canonical form.
    pub open spec fn times(self, other: Number) -> Number {
        canon(self.mantissa * other.mantissa, self.scale + other.scale)
    }
}

/// `v` with the sign that `negative` tells.
pub open spec fn signed(negative: bool, v: nat) -> int {
    if negative {
        -(v as int)
    } else {
        v as int
    }
}

/// The canonical form is canonical, has no longer scale, and keeps zero and
/// the sign.
pub proof fn lemma_canon_is_canonical(m: int, s: nat)
    ensures
        canon(m, s).canonical(),
        canon(m, s).scale <= s,
        m == 0 ==> canon(m, s) == Number::zero(),
        m != 0 ==> canon(m, s).mantissa != 0,
        (m < 0) == (canon(m, s).mantissa < 0),
    decreases s,
{
    if s > 0 && m % 10 == 0 {
        lemma_canon_is_canonical(m / 10, (s - 1) as nat);
    }
}

/// A multiple of `10^k` loses `k` from its scale.
pub proof fn lemma_canon_strip(v: int, k: nat, s: nat)
    requires
        k <= s,
        s == k || v % 10 != 0,
    ensures
        canon(v * pow10(k), s) == (Number { mantissa: v, scale: (s - k) as nat }),
    decreases k,
{
    if k == 0 {
        assert(v * pow10(0) == v) by (nonlinear_arith)
            requires
                pow10(0) == 1,
        ;
    } else {
        let m = v * pow10(k);
        let below = v * pow10((k - 1) as nat);
        assert(m == 10 * below) by (nonlinear_arith)
            requires
                m == v * pow10(k),
                below == v * pow10((k - 1) as nat),
                pow10(k) == 10 * pow10((k - 1) as nat),
        ;
        lemma_canon_strip(v, (k - 1) as nat, (s - 1) as nat);
    }
}

/// An exact decimal number.
#[derive(Debug, PartialEq, Eq)]
pub struct Decimal {
    negative: bool,
    digits: Vec<u8>,
    scale: usize,
}

impl View for Decimal {
    type V = Number;

    closed spec fn view(&self) -> Number {
        Number { mantissa: signed(self.negative, value(self.digits@)), scale: self.scale as nat }
    }
}

impl Decimal {
    /// The digits are decimal, cover the fraction, and carry no zero that
    /// could be left out; zero has no sign.
    #[verifier::type_invariant]
    pub closed spec fn wf(&self) -> bool {
        &&& all_digits(self.digits@)
        &&& self.scale <= self.digits@.len()
        &&& (self.scale > 0 ==> self.digits@[0] != 0)
        &&& (self.digits@.len() > self.scale ==> self.digits@.last() != 0)
        &&& (self.digits@.len() == 0 ==> !self.negative)
    }

    /// The number with these digits, this scale and this sign, in canonical
    /// form.
    fn normalized(negative: bool, digits: Vec<u8>, scale: usize) -> (r: Decimal)
        requires
            all_digits(digits@),
            scale <= digits@.len(),
        ensures
            r.wf(),
            r@ == canon(signed(negative, value(digits@)), scale as nat),
    {
        let mut lo: usize = 0;
        while lo < scale && digits[lo] == 0
            invariant
                lo <= scale <= digits@.len(),
                forall|i: int| 0 <= i < lo ==> digits@[i] == 0,
            decreases scale - lo,
        {
            lo = lo + 1;
        }
        let mut hi: usize = digits.len();
        while hi > scale && digits[hi - 1] == 0
            invariant
                scale <= hi <= digits@.len(),
                forall|i: int| hi <= i < digits@.len() ==> digits@[i] == 0,
            decreases hi,
        {
            hi = hi - 1;
        }
        let mut kept: Vec<u8> = Vec::new();
        let mut i: usize = lo;
        while i < hi
            invariant
                lo <= i <= hi <= digits@.len(),
                kept@ == digits@.subrange(lo as int, i as int),
            decreases hi - i,
        {
            kept.push(digits[i]);
            i = i + 1;
            assert(kept@ =~= digits@.subrange(lo as int, i as int));
        }
        proof {
            let above = zeros((digits@.len() - hi) as nat);
            assert(digits@ =~= zeros(lo as nat) + (kept@ + above));
            lemma_value_concat(zeros(lo as nat), kept@ + above);
            lemma_value_concat(kept@, above);
            lemma_value_zeros(lo as nat);
            lemma_value_zeros((digits@.len() - hi) as nat);
            assert(pow10(kept@.len()) * 0 == 0) by (nonlinear_arith);
            assert(value(digits@) == pow10(lo as nat) * value(kept@));
            let v = signed(negative, value(kept@));
            assert(signed(negative, value(digits@)) == v * pow10(lo as nat)) by (nonlinear_arith)
                requires
                    value(digits@) == pow10(lo as nat) * value(kept@),
                    v == signed(negative, value(kept@)),
            ;
            assert(all_digits(kept@)) by {
                assert forall|k: int| 0 <= k < kept@.len() implies #[trigger] kept@[k] < 10 by {
                    assert(kept@[k] == digits@[lo + k]);
                }
            }
            if lo < scale {
                assert(kept@[0] == digits@[lo as int]);
                assert(value(kept@) == kept@[0] as nat + 10 * value(kept@.drop_first()));
                assert(v % 10 != 0);
            }
            lemma_canon_strip(v, lo as nat, scale as nat);
            if kept@.len() == 0 {
                assert(value(kept@) == 0);
            }
            if hi > scale {
                assert(kept@.last() == digits@[hi - 1]);
            }
        }
        let sign = negative && kept.len() > 0;
        Decimal { negative: sign, digits: kept, scale: scale - lo }
    }

    /// A number with a digit is not zero.
    proof fn lemma_not_zero(&self)
        requires
            self.wf(),
            self.digits@.len() > 0,
        ensures
            value(self.digits@) > 0,
    {
        if self.scale == 0 {
            lemma_top_digit(self.digits@);
        }
    }

    /// A well-formed number is written with the smallest scale.
    pub proof fn lemma_canonical(&self)
        requires
            self.wf(),
        ensures
            self@.canonical(),
    {
        if self.scale > 0 {
            assert(value(self.digits@) == self.digits@[0] as nat + 10 * value(
                self.digits@.drop_first(),
            ));
        }
    }

    /// Zero.
    pub fn zero() -> (r: Decimal)
        ensures
            r.wf(),
            r@ == Number::zero(),
    {
        Decimal { negative: false, digits: Vec::new(), scale: 0 }
    }

    /// One.
    pub fn one() -> (r: Decimal)
        ensures
            r.wf(),
            r@ == Number::one(),
    {
        let mut digits: Vec<u8> = Vec::new();
        digits.push(1);
        proof {
            assert(digits@.drop_first() =~= Seq::<u8>::empty());
            assert(value(digits@) == 1nat + 10 * value(digits@.drop_first()));
        }
        Decimal { negative: false, digits, scale: 0 }
    }

    /// The whole number `n`.
    pub fn from_u32(n: u32) -> (r: Decimal)
        ensures
            r.wf(),
            r@ == (Number { mantissa: n as int, scale: 0 }),
    {
        let mut digits: Vec<u8> = Vec::new();
        let mut rest: u32 = n;
        proof {
            assert(rest * pow10(0) == n) by (nonlinear_arith)
                requires
                    rest == n,
                    pow10(0) == 1,
            ;
        }
        while rest > 0
            invariant
                all_digits(digits@),
                value(digits@) + rest * pow10(digits@.len()) == n,
            decreases rest,
        {
            let d: u8 = (rest % 10) as u8;
            let q: u32 = rest / 10;
            proof {
                lemma_value_push(digits@, d);
                lemma_all_digits_push(digits@, d);
                let p = pow10(digits@.len());
                assert(pow10(digits@.len() + 1) == 10 * p);
                assert(d * p + q * (10 * p) == rest * p) by (nonlinear_arith)
                    requires
                        d + 10 * q == rest,
                ;
            }
            digits.push(d);
            rest = q;
        }
        proof {
            assert(0 * pow10(digits@.len()) == 0) by (nonlinear_arith);
        }
        Decimal::normalized(false, digits, 0)
    }

    /// Tells whether the number is zero.
    pub fn is_zero(&self) -> (b: bool)
        ensures
            b == self@.is_zero(),
    {
        proof {
            use_type_invariant(self);
        }
        proof {
            if self.digits@.len() > 0 {
                self.lemma_not_zero();
            }
        }
        self.digits.len() == 0
    }

    /// Tells whether the number is below zero.
    pub fn is_negative(&self) -> (b: bool)
        ensures
            b == self@.is_negative(),
    {
        proof {
            use_type_invariant(self);
        }
        proof {
            if self.digits@.len() > 0 {
                self.lemma_not_zero();
            }
        }
        self.negative
    }

    /// Tells whether the number is one or minus one.
    pub fn is_unit(&self) -> (b: bool)
        ensures
            b == (self@.magnitude() == Number::one()),
    {
        proof {
            use_type_invariant(self);
        }
        if self.scale == 0 && self.digits.len() == 1 {
            proof {
                assert(self.digits@.drop_first() =~= Seq::<u8>::empty());
                assert(value(self.digits@) == self.digits@[0] as nat + 10 * value(
                    self.digits@.drop_first(),
                ));
            }
            self.digits[0] == 1
        } else {
            proof {
                if self.scale == 0 && self.digits@.len() > 1 {
                    lemma_two_digits(self.digits@);
                }
            }
            false
        }
    }

    /// The number with the opposite sign.
    pub fn negated(&self) -> (r: Decimal)
        ensures
            r.wf(),
            r@ == self@.negated(),
    {
        proof {
            use_type_invariant(self);
        }
        let digits = self.digits.clone();
        assert(digits@ =~= self.digits@);
        let sign = !self.negative && digits.len() > 0;
        Decimal { negative: sign, digits, scale: self.scale }
    }

    /// The number without its sign.
    pub fn magnitude(&self) -> (r: Decimal)
        ensures
            r.wf(),
            r@ == self@.magnitude(),
    {
        proof {
            use_type_invariant(self);
        }
        let digits = self.digits.clone();
        assert(digits@ =~= self.digits@);
        Decimal { negative: false, digits, scale: self.scale }
    }

    /// The sum of two numbers.
    pub fn plus(&self, other: &Decimal) -> (r: Decimal)
        ensures
            r.wf(),
            r@ == self@.plus(other@),
    {
        proof {
            use_type_invariant(self);
            use_type_invariant(other);
        }
        let scale: usize = if self.scale >= other.scale {
            self.scale
        } else {
            other.scale
        };
        let a = shifted(&self.digits, scale - self.scale);
        let b = shifted(&other.digits, scale - other.scale);
        let ghost va = value(self.digits@);
        let ghost vb = value(other.digits@);
        let ghost pa = pow10((scale - self.scale) as nat);
        let ghost pb = pow10((scale - other.scale) as nat);
        if self.negative == other.negative {
            let sum = add_digits(&a, &b);
            proof {
                assert(signed(self.negative, value(sum@)) == signed(self.negative, va) * pa
                    + signed(other.negative, vb) * pb) by (nonlinear_arith)
                    requires
                        value(sum@) == pa * va + pb * vb,
                        self.negative == other.negative,
                ;
            }
            Decimal::normalized(self.negative, sum, scale)
        } else {
            let (diff, borrow) = sub_digits(&a, &b);
            if !borrow {
                proof {
                    assert(signed(self.negative, value(diff@)) == signed(self.negative, va) * pa
                        + signed(other.negative, vb) * pb) by (nonlinear_arith)
                        requires
                            value(diff@) == pa * va - pb * vb,
                            self.negative != other.negative,
                    ;
                }
                Decimal::normalized(self.negative, diff, scale)
            } else {
                let (back, under) = sub_digits(&b, &a);
                proof {
                    assert(signed(other.negative, value(back@)) == signed(self.negative, va) * pa
                        + signed(other.negative, vb) * pb) by (nonlinear_arith)
                        requires
                            value(back@) == pb * vb - pa * va,
                            self.negative != other.negative,
                    ;
                }
                Decimal::normalized(other.negative, back, scale)
            }
        }
    }

    /// The difference of two numbers.
    pub fn minus(&self, other: &Decimal) -> (r: Decimal)
        ensures
            r.wf(),
            r@ == self@.minus(other@),
    {
        proof {
            use_type_invariant(self);
            use_type_invariant(other);
        }
        let opposite = other.negated();
        self.plus(&opposite)
    }

    /// The product of two numbers.
    pub fn times(&self, other: &Decimal) -> (r: Decimal)
        ensures
            r.wf(),
            r@ == self@.times(other@),
    {
        proof {
            use_type_invariant(self);
            use_type_invariant(other);
        }
        let ghost va = value(self.digits@);
        let ghost vb = value(other.digits@);
        if other.digits.len() == 0 {
            proof {
                assert(self@.mantissa * 0 == 0) by (nonlinear_arith);
                lemma_canon_is_canonical(0, self@.scale + other@.scale);
            }
            return Decimal::zero();
        }
        let product = mul_digits(&self.digits, &other.digits);
        let length: usize = product.len();
        assert(self.scale + other.scale <= length);
        let scale: usize = self.scale + other.scale;
        let sign = self.negative != other.negative;
        proof {
            assert(signed(sign, value(product@)) == signed(self.negative, va) * signed(
                other.negative,
                vb,
            )) by (nonlinear_arith)
                requires
                    value(product@) == va * vb,
                    sign == (self.negative != other.negative),
            ;
        }
        Decimal::normalized(sign, product, scale)
    }
}

/// The text of digits with a scale, the top digit not zero: the digits above
/// the scale, or `0` where there are none, then the point and the digits
/// below it.
pub open spec fn digits_text(d: Seq<u8>, scale: nat) -> Seq<char> {
    let whole = if d.len() == scale {
        seq!['0']
    } else {
        be_chars(d.skip(scale as int))
    };
    if scale == 0 {
        whole
    } else {
        whole + seq!['.'] + be_chars(d.take(scale as int))
    }
}

/// The text of a magnitude is the text of its digits.
pub proof fn lemma_digits_text(d: Seq<u8>, scale: nat)
    requires
        all_digits(d),
        scale <= d.len(),
        d.len() > scale ==> d.last() != 0,
    ensures
        magnitude_text(value(d), scale) == digits_text(d, scale),
{
    let whole = d.skip(scale as int);
    let fraction = d.take(scale as int);
    let m = value(d);
    let p = pow10(scale);
    assert(d =~= fraction + whole);
    lemma_value_concat(fraction, whole);
    assert(all_digits(fraction)) by {
        assert forall|x: int| 0 <= x < fraction.len() implies #[trigger] fraction[x] < 10 by {
            assert(fraction[x] == d[x]);
        }
    }
    assert(all_digits(whole)) by {
        assert forall|x: int| 0 <= x < whole.len() implies #[trigger] whole[x] < 10 by {
            assert(whole[x] == d[x + scale]);
        }
    }
    lemma_value_bound(fraction);
    lemma_pow10_positive(scale);
    assert(m == value(whole) * p + value(fraction)) by (nonlinear_arith)
        requires
            m == value(fraction) + p * value(whole),
    ;
    vstd::arithmetic::div_mod::lemma_fundamental_div_mod_converse(
        m as int,
        p as int,
        value(whole) as int,
        value(fraction) as int,
    );
    if whole.len() > 0 {
        assert(whole.last() == d.last());
        lemma_nat_text_digits(whole);
    } else {
        assert(nat_text(0) =~= seq!['0']);
    }
    lemma_padded_text_digits(fraction);
    if scale == 0 {
        assert(p == 1);
        assert(m / p == m);
    }
}

/// Appends the characters of the digits from place `to - 1` down to place
/// `from`.
fn push_digits(out: &mut Vec<char>, digits: &Vec<u8>, from: usize, to: usize)
    requires
        from <= to <= digits@.len(),
        all_digits(digits@),
    ensures
        final(out)@ == old(out)@ + be_chars(digits@.subrange(from as int, to as int)),
{
    let mut i: usize = to;
    assert(digits@.subrange(to as int, to as int) =~= Seq::<u8>::empty());
    assert(out@ =~= old(out)@ + be_chars(digits@.subrange(to as int, to as int)));
    while i > from
        invariant
            from <= i <= to <= digits@.len(),
            all_digits(digits@),
            out@ == old(out)@ + be_chars(digits@.subrange(i as int, to as int)),
        decreases i,
    {
        i = i - 1;
        out.push(char_from_digit(digits[i]));
        assert(out@ =~= old(out)@ + be_chars(digits@.subrange(i as int, to as int)));
    }
}

impl Clone for Decimal {
    fn clone(&self) -> (r: Decimal)
        ensures
            r@ == self@,
            r.wf(),
    {
        proof {
            use_type_invariant(self);
        }
        let digits = self.digits.clone();
        assert(digits@ =~= self.digits@);
        Decimal { negative: self.negative, digits, scale: self.scale }
    }
}

/// Two or more digits whose last is not zero denote ten or more.
proof fn lemma_two_digits(s: Seq<u8>)
    requires
        s.len() > 1,
        s.last() != 0,
    ensures
        value(s) >= 10,
{
    let t = s.drop_first();
    assert(t.last() == s.last());
    lemma_top_digit(t);
}

/// Where the digits of the number that starts at `i` begin: behind its minus
/// sign, if it has one.
pub open spec fn sign_end(s: Seq<char>, i: int) -> int {
    if 0 <= i < s.len() && s[i] == '-' {
        i + 1
    } else {
        i
    }
}

/// Where the digits after the point end, the whole digits ending at `k`; `k`
/// itself where no point followed by a digit stands there.
pub open spec fn fraction_end(s: Seq<char>, k: int) -> int {
    if 0 <= k < s.len() && s[k] == '.' && digits_end(s, k + 1) > k + 1 {
        digits_end(s, k + 1)
    } else {
        k
    }
}

/// Where the number that starts at `i` ends: an optional minus sign, digits,
/// and optionally a point with digits behind it. `None` where no digit stands
/// at the start.
pub open spec fn number_end(s: Seq<char>, i: int) -> Option<int> {
    let j = sign_end(s, i);
    let k = digits_end(s, j);
    if k == j {
        None
    } else {
        Some(fraction_end(s, k))
    }
}

/// The value of the number that starts at `i`.
pub open spec fn number_at(s: Seq<char>, i: int) -> Number {
    let j = sign_end(s, i);
    let k = digits_end(s, j);
    let e = fraction_end(s, k);
    let whole = s.subrange(j, k);
    let fraction = if e > k {
        s.subrange(k + 1, e)
    } else {
        Seq::empty()
    };
    canon(signed(j > i, text_value(whole + fraction)), fraction.len())
}

/// The whole text is one number.
pub open spec fn is_literal(s: Seq<char>) -> bool {
    number_end(s, 0) == Some(s.len() as int)
}

/// The text of `m / 10^scale`: the whole part, then the point and `scale`
/// digits where `scale` is not zero.
pub open spec fn magnitude_text(m: nat, scale: nat) -> Seq<char> {
    if scale == 0 {
        nat_text(m)
    } else {
        nat_text(m / pow10(scale)) + seq!['.'] + padded_text(m % pow10(scale), scale)
    }
}

impl Number {
    /// The text of the number, with a minus sign where it is below zero.
    pub open spec fn text(self) -> Seq<char> {
        if self.mantissa < 0 {
            seq!['-'] + magnitude_text((-self.mantissa) as nat, self.scale)
        } else {
            magnitude_text(self.mantissa as nat, self.scale)
        }
    }
}

/// Finds where the number that starts at `i` ends.
pub(crate) fn scan_number(text: &Vec<char>, i: usize) -> (r: Option<usize>)
    requires
        i <= text.len(),
    ensures
        match r {
            Some(e) => number_end(text@, i as int) == Some(e as int) && i < e <= text.len(),
            None => number_end(text@, i as int) is None,
        },
{
    let j: usize = if i < text.len() && text[i] == '-' {
        i + 1
    } else {
        i
    };
    let k: usize = scan_digits(text, j);
    if k == j {
        return None;
    }
    if k < text.len() && text[k] == '.' {
        let e: usize = scan_digits(text, k + 1);
        if e > k + 1 {
            return Some(e);
        }
    }
    Some(k)
}

impl Decimal {
    /// Reads the number that starts at `i`.
    pub(crate) fn read(text: &Vec<char>, i: usize) -> (r: Decimal)
        requires
            i <= text.len(),
            number_end(text@, i as int) is Some,
        ensures
            r.wf(),
            r@ == number_at(text@, i as int),
    {
        let negative = i < text.len() && text[i] == '-';
        let j: usize = if negative {
            i + 1
        } else {
            i
        };
        let k: usize = scan_digits(text, j);
        let mut e: usize = k;
        if k < text.len() && text[k] == '.' {
            let f: usize = scan_digits(text, k + 1);
            if f > k + 1 {
                e = f;
            }
        }
        let ghost whole = text@.subrange(j as int, k as int);
        let ghost fraction = if e > k {
            text@.subrange(k + 1, e as int)
        } else {
            Seq::empty()
        };
        proof {
            lemma_digits_end(text@, j as int);
            if e > k {
                lemma_digits_end(text@, k + 1);
            }
        }
        let mut digits: Vec<u8> = Vec::new();
        let mut scale: usize = 0;
        if e > k {
            let mut p: usize = e;
            assert(text@.subrange(e as int, e as int) =~= Seq::<char>::empty());
            assert(digits@ =~= le_digits(text@.subrange(e as int, e as int)));
            while p > k + 1
                invariant
                    k + 1 <= p <= e <= text.len(),
                    e > k,
                    fraction == text@.subrange(k + 1, e as int),
                    all_digit_chars(fraction),
                    digits@ == le_digits(text@.subrange(p as int, e as int)),
                    scale == e - p,
                decreases p,
            {
                p = p - 1;
                assert(text@[p as int] == fraction[p - (k + 1)]);
                let d: u8 = digit_from_char(text[p]);
                digits.push(d);
                scale = scale + 1;
                assert(digits@ =~= le_digits(text@.subrange(p as int, e as int)));
            }
        }
        assert(digits@ == le_digits(fraction));
        let mut p: usize = k;
        assert(text@.subrange(k as int, k as int) =~= Seq::<char>::empty());
        assert(digits@ =~= le_digits(fraction) + le_digits(text@.subrange(k as int, k as int)));
        while p > j
            invariant
                j <= p <= k <= text.len(),
                whole == text@.subrange(j as int, k as int),
                all_digit_chars(whole),
                digits@ == le_digits(fraction) + le_digits(text@.subrange(p as int, k as int)),
            decreases p,
        {
            p = p - 1;
            assert(text@[p as int] == whole[p - j]);
            let d: u8 = digit_from_char(text[p]);
            digits.push(d);
            assert(digits@ =~= le_digits(fraction) + le_digits(
                text@.subrange(p as int, k as int),
            ));
        }
        proof {
            lemma_le_digits_concat(whole, fraction);
            assert(all_digit_chars(whole + fraction)) by {
                let t = whole + fraction;
                assert forall|x: int| 0 <= x < t.len() implies is_digit(#[trigger] t[x]) by {
                    if x < whole.len() {
                        assert(t[x] == whole[x]);
                    } else {
                        assert(t[x] == fraction[x - whole.len()]);
                    }
                }
            }
            lemma_le_digits_value(whole + fraction);
            assert(digits@ =~= le_digits(whole + fraction));
        }
        Decimal::normalized(negative, digits, scale)
    }

    /// Reads a number from a text that holds it and nothing else.
    pub fn from_text(s: &str) -> (r: Option<Decimal>)
        ensures
            r is Some <==> is_literal(s@),
            r matches Some(d) ==> d.wf() && d@ == number_at(s@, 0),
    {
        let text = chars_of(s);
        match scan_number(&text, 0) {
            Some(e) => {
                if e == text.len() {
                    Some(Decimal::read(&text, 0))
                } else {
                    None
                }
            },
            None => None,
        }
    }

    /// The characters that write the number.
    pub fn to_chars(&self) -> (r: Vec<char>)
        ensures
            r@ == self@.text(),
    {
        proof {
            use_type_invariant(self);
            lemma_digits_text(self.digits@, self.scale as nat);
            if self.digits@.len() > 0 {
                self.lemma_not_zero();
            }
        }
        let mut out: Vec<char> = Vec::new();
        if self.negative {
            out.push('-');
        }
        let n: usize = self.digits.len();
        if n == self.scale {
            out.push('0');
        } else {
            push_digits(&mut out, &self.digits, self.scale, n);
        }
        if self.scale > 0 {
            out.push('.');
            push_digits(&mut out, &self.digits, 0, self.scale);
        }
        assert(out@ =~= self@.text());
        out
    }

    /// The text of the number.
    pub fn to_string(&self) -> (r: String)
        ensures
            r@ == self@.text(),
    {
        proof {
            use_type_invariant(self);
        }
        let chars = self.to_chars();
        string_of(&chars)
    }
}

} // verus!
