//! The text form of a decimal: which strings are decimal literals, what they
//! denote, how a decimal is written, and that the two agree.

use crate::digits::{
    all_digits, digits_of, digits_value, fixed_digits, is_digit, lemma_digits_of,
    lemma_digits_of_value, lemma_digits_value_bound, lemma_extend_concat, lemma_extend_shifts,
    lemma_fixed_digits, lemma_fixed_digits_of_value,
};
use crate::model::Fixed;
use crate::scale::{lemma_pow10_positive, lemma_pow10_unfold, pow10};
use vstd::arithmetic::div_mod::{
    lemma_fundamental_div_mod, lemma_fundamental_div_mod_converse, lemma_mod_bound,
    lemma_small_mod,
};
use vstd::prelude::*;

verus! {

/// How many characters the leading sign takes: one for `+` or `-`, else none.
pub open spec fn sign_len(s: Seq<char>) -> int {
    if s.len() > 0 && (s[0] == '+' || s[0] == '-') {
        1
    } else {
        0
    }
}

/// Whether the text starts with a minus sign.
pub open spec fn is_negative(s: Seq<char>) -> bool {
    s.len() > 0 && s[0] == '-'
}

/// The text without its leading sign.
pub open spec fn unsigned_part(s: Seq<char>) -> Seq<char> {
    s.subrange(sign_len(s), s.len() as int)
}

/// What stands before the first point of `body`; all of it where there is no point.
pub open spec fn whole_part(body: Seq<char>) -> Seq<char> {
    match body.index_of_first('.') {
        Some(k) => body.subrange(0, k),
        None => body,
    }
}

/// What stands behind the first point of `body`; nothing where there is no point.
pub open spec fn fraction_part(body: Seq<char>) -> Seq<char> {
    match body.index_of_first('.') {
        Some(k) => body.subrange(k + 1, body.len() as int),
        None => Seq::empty(),
    }
}

/// Whether `s` is a decimal literal: an optional sign, then digits with at
/// most one point among them, and at least one digit in all.
pub open spec fn well_formed(s: Seq<char>) -> bool {
    let body = unsigned_part(s);
    &&& all_digits(whole_part(body))
    &&& all_digits(fraction_part(body))
    &&& whole_part(body).len() + fraction_part(body).len() > 0
}

/// What the literal `s` denotes: all its digits as the significand, with the
/// sign, and the number of digits behind the point as the scale.
pub open spec fn parsed(s: Seq<char>) -> Fixed {
    let body = unsigned_part(s);
    let magnitude = digits_value(whole_part(body) + fraction_part(body));
    Fixed {
        significand: if is_negative(s) {
            -magnitude
        } else {
            magnitude
        },
        scale: fraction_part(body).len(),
    }
}

/// How a decimal is written: a minus sign where it is negative, the whole
/// part without leading zeros, and, where the scale is not zero, a point and
/// exactly `scale` digits.
pub open spec fn text_of(d: Fixed) -> Seq<char> {
    let magnitude: int = if d.significand < 0 {
        -d.significand
    } else {
        d.significand
    };
    let sign = if d.significand < 0 {
        seq!['-']
    } else {
        Seq::<char>::empty()
    };
    let whole = digits_of((magnitude / pow10(d.scale)) as nat);
    let fraction = fixed_digits((magnitude % pow10(d.scale)) as nat, d.scale);
    if d.scale == 0 {
        sign + whole
    } else {
        sign + whole + seq!['.'] + fraction
    }
}

/// Whether the literal `s` is written the way decimals are written: no plus
/// sign, no minus sign before a zero, a whole part that is there and has no
/// needless leading zero, and no point without a digit behind it.
pub open spec fn canonical(s: Seq<char>) -> bool {
    let body = unsigned_part(s);
    &&& well_formed(s)
    &&& s[0] != '+'
    &&& whole_part(body).len() >= 1
    &&& whole_part(body).len() > 1 ==> whole_part(body)[0] != '0'
    &&& body.index_of_first('.') is Some ==> fraction_part(body).len() >= 1
    &&& is_negative(s) ==> digits_value(whole_part(body) + fraction_part(body)) != 0
}

/// A run of digits holds no point.
pub proof fn lemma_digits_hold_no_point(s: Seq<char>)
    requires
        all_digits(s),
    ensures
        s.index_of_first('.') is None,
{
    s.index_of_first_ensures('.');
    if let Some(k) = s.index_of_first('.') {
        assert(is_digit(s[k]));
    }
}

/// Where a point stands behind a run of characters that are no points, it is the first.
pub proof fn lemma_first_point(body: Seq<char>, k: int)
    requires
        0 <= k < body.len(),
        body[k] == '.',
        forall|j: int| 0 <= j < k ==> body[j] != '.',
    ensures
        body.index_of_first('.') == Some(k),
{
    body.index_of_first_ensures('.');
    assert(body.contains('.'));
}

/// The digits before and behind the point, read as one numeral.
pub proof fn lemma_value_of_parts(whole: Seq<char>, fraction: Seq<char>)
    requires
        all_digits(whole),
        all_digits(fraction),
    ensures
        digits_value(whole + fraction) == digits_value(whole) * pow10(fraction.len())
            + digits_value(fraction),
        0 <= digits_value(whole),
        0 <= digits_value(fraction) < pow10(fraction.len()),
        digits_value(whole + fraction) >= 0,
        digits_value(whole + fraction) / pow10(fraction.len()) == digits_value(whole),
        digits_value(whole + fraction) % pow10(fraction.len()) == digits_value(fraction),
{
    lemma_extend_concat(0, whole, fraction);
    lemma_extend_shifts(digits_value(whole), fraction);
    lemma_digits_value_bound(whole);
    lemma_digits_value_bound(fraction);
    let p = pow10(fraction.len());
    let w = digits_value(whole);
    let f = digits_value(fraction);
    assert(w * p == p * w) by (nonlinear_arith);
    assert(w * p >= 0) by (nonlinear_arith)
        requires
            w >= 0,
            p >= 1,
    ;
    lemma_fundamental_div_mod_converse(w * p + f, p, w, f);
}

/// Writing a decimal and reading the text back gives the decimal itself,
/// its scale included; and what is written is in canonical form.
pub proof fn lemma_read_back(d: Fixed)
    ensures
        well_formed(text_of(d)),
        canonical(text_of(d)),
        parsed(text_of(d)) == d,
{
    let s = text_of(d);
    let magnitude: int = if d.significand < 0 {
        -d.significand
    } else {
        d.significand
    };
    let p = pow10(d.scale);
    lemma_pow10_positive(d.scale);
    lemma_pow10_unfold(0);
    lemma_fundamental_div_mod(magnitude, p);
    lemma_mod_bound(magnitude, p);
    assert(magnitude / p >= 0) by (nonlinear_arith)
        requires
            magnitude >= 0,
            p >= 1,
    ;
    let q = (magnitude / p) as nat;
    let r = (magnitude % p) as nat;
    let whole = digits_of(q);
    let fraction = fixed_digits(r, d.scale);
    lemma_digits_of(q);
    lemma_fixed_digits(r, d.scale);
    lemma_small_mod(r, p as nat);
    assert(is_digit(whole[0]));
    let sign = if d.significand < 0 {
        seq!['-']
    } else {
        Seq::<char>::empty()
    };
    let body = if d.scale == 0 {
        whole
    } else {
        whole + seq!['.'] + fraction
    };
    assert(s =~= sign + body);
    assert(s[0] == if d.significand < 0 {
        '-'
    } else {
        whole[0]
    });
    assert(unsigned_part(s) =~= body);
    if d.scale == 0 {
        lemma_digits_hold_no_point(body);
        assert(fraction =~= Seq::<char>::empty());
        assert(whole + fraction =~= whole);
        assert(magnitude / 1 == magnitude);
    } else {
        let k = whole.len() as int;
        assert(body[k] == '.');
        assert forall|j: int| 0 <= j < k implies body[j] != '.' by {
            assert(body[j] == whole[j]);
            assert(is_digit(whole[j]));
        }
        lemma_first_point(body, k);
        assert(body.subrange(0, k) =~= whole);
        assert(body.subrange(k + 1, body.len() as int) =~= fraction);
    }
    lemma_value_of_parts(whole, fraction);
    assert(p * q == q * p) by (nonlinear_arith);
    assert(digits_value(whole + fraction) == magnitude);
    if q != 0 {
        assert(whole[0] != '0');
    } else {
        assert(whole.len() == 1);
    }
}

/// A literal in canonical form is written back exactly as it was read.
pub proof fn lemma_write_back(s: Seq<char>)
    requires
        canonical(s),
    ensures
        text_of(parsed(s)) == s,
{
    let body = unsigned_part(s);
    let whole = whole_part(body);
    let fraction = fraction_part(body);
    let d = parsed(s);
    let v = digits_value(whole + fraction);
    lemma_value_of_parts(whole, fraction);
    lemma_digits_of_value(whole);
    lemma_fixed_digits_of_value(fraction);
    body.index_of_first_ensures('.');
    match body.index_of_first('.') {
        Some(k) => {
            assert(body =~= whole + seq!['.'] + fraction);
        },
        None => {
            assert(fraction.len() == 0);
        },
    }
    if is_negative(s) {
        assert(s =~= seq!['-'] + body);
    } else {
        assert(s =~= body);
    }
    assert(text_of(d) =~= s);
}

} // verus!
