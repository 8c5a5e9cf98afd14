//! The absolute value, and the one way in which sums of terms are written.

use crate::decimal::{Decimal, Number};
use crate::text::{chars_of, string_of};
use vstd::prelude::*;

verus! {

/// The text of one term behind its sign: the magnitude of `v`, left out where
/// it is one and a symbol follows, then the symbol.
pub open spec fn piece_text(v: Number, symbol: Seq<char>) -> Seq<char> {
    if v.magnitude() == Number::one() && symbol.len() > 0 {
        symbol
    } else {
        v.magnitude().text() + symbol
    }
}

/// The terms that are not zero, in order: the first with a minus sign where
/// it is negative, the others joined by ` + ` or ` - `. Empty where every
/// term is zero.
pub open spec fn joined_text(pairs: Seq<(Number, Seq<char>)>) -> Seq<char>
    decreases pairs.len(),
{
    if pairs.len() == 0 {
        Seq::empty()
    } else {
        let head = joined_text(pairs.drop_last());
        let v = pairs.last().0;
        let piece = piece_text(v, pairs.last().1);
        if v.is_zero() {
            head
        } else if head.len() == 0 {
            if v.is_negative() {
                seq!['-'] + piece
            } else {
                piece
            }
        } else if v.is_negative() {
            head + seq![' ', '-', ' '] + piece
        } else {
            head + seq![' ', '+', ' '] + piece
        }
    }
}

/// The text of a sum of terms: `0` where every term is zero.
pub open spec fn formatted_text(pairs: Seq<(Number, Seq<char>)>) -> Seq<char> {
    if joined_text(pairs).len() == 0 {
        seq!['0']
    } else {
        joined_text(pairs)
    }
}

/// What the pairs of a table are, as numbers and texts.
pub open spec fn pairs_of(tab: Seq<(Decimal, String)>) -> Seq<(Number, Seq<char>)> {
    Seq::new(tab.len(), |i: int| (tab[i].0@, tab[i].1@))
}

/// The absolute value of `x`.
pub fn abs(x: Decimal) -> (r: Decimal)
    ensures
        r.wf(),
        r@ == x@.magnitude(),
{
    proof {
        use_type_invariant(&x);
    }
    if x.is_negative() {
        x.negated()
    } else {
        x
    }
}

/// Appends the characters of `more` to `out`.
pub fn append_chars(out: &mut Vec<char>, more: &Vec<char>)
    ensures
        final(out)@ == old(out)@ + more@,
{
    let mut i: usize = 0;
    assert(out@ =~= old(out)@ + more@.take(0));
    while i < more.len()
        invariant
            i <= more@.len(),
            out@ == old(out)@ + more@.take(i as int),
        decreases more@.len() - i,
    {
        out.push(more[i]);
        i = i + 1;
        assert(out@ =~= old(out)@ + more@.take(i as int));
    }
    assert(more@.take(more@.len() as int) =~= more@);
}

/// The text of one term behind its sign.
fn piece_chars(v: &Decimal, symbol: &String) -> (r: Vec<char>)
    ensures
        r@ == piece_text(v@, symbol@),
{
    let mut out: Vec<char> = Vec::new();
    let name = chars_of(symbol.as_str());
    if !(v.is_unit() && name.len() > 0) {
        let size = v.magnitude();
        let digits = size.to_chars();
        append_chars(&mut out, &digits);
    }
    append_chars(&mut out, &name);
    assert(out@ =~= piece_text(v@, symbol@));
    out
}

/// Writes a sum of terms, each a number and the symbol that it multiplies.
/// Terms that are zero are left out; the order is kept. A magnitude of one
/// is not written before a symbol. Without any term left the text is `0`.
pub fn fmt_number_with_vars(tab: Vec<(Decimal, String)>) -> (r: String)
    ensures
        r@ == formatted_text(pairs_of(tab@)),
{
    let mut out: Vec<char> = Vec::new();
    let mut i: usize = 0;
    let ghost pairs = pairs_of(tab@);
    assert(pairs.take(0) =~= Seq::<(Number, Seq<char>)>::empty());
    while i < tab.len()
        invariant
            i <= tab@.len(),
            pairs == pairs_of(tab@),
            out@ == joined_text(pairs.take(i as int)),
        decreases tab@.len() - i,
    {
        let ghost head = out@;
        let v = &tab[i].0;
        if !v.is_zero() {
            let negative = v.is_negative();
            if out.len() == 0 {
                if negative {
                    out.push('-');
                }
            } else {
                out.push(' ');
                if negative {
                    out.push('-');
                } else {
                    out.push('+');
                }
                out.push(' ');
            }
            let piece = piece_chars(v, &tab[i].1);
            append_chars(&mut out, &piece);
        }
        proof {
            let upto = pairs.take(i + 1);
            assert(upto.drop_last() =~= pairs.take(i as int));
            assert(upto.last() == (tab@[i as int].0@, tab@[i as int].1@));
            let piece = piece_text(upto.last().0, upto.last().1);
            if !upto.last().0.is_zero() {
                if head.len() == 0 {
                    if upto.last().0.is_negative() {
                        assert(out@ =~= seq!['-'] + piece);
                    } else {
                        assert(out@ =~= piece);
                    }
                } else if upto.last().0.is_negative() {
                    assert(out@ =~= head + seq![' ', '-', ' '] + piece);
                } else {
                    assert(out@ =~= head + seq![' ', '+', ' '] + piece);
                }
            }
        }
        i = i + 1;
    }
    assert(pairs.take(tab@.len() as int) =~= pairs);
    if out.len() == 0 {
        out.push('0');
        assert(out@ =~= seq!['0']);
    }
    string_of(&out)
}

} // verus!
