//! Writing a decimal as text.

use crate::arith::magnitude;
use crate::decimal::Decimal;
use crate::digits::{digit_char, digits_of, fixed_digits, lemma_fixed_digits_of_remainder};
use crate::scale::{lemma_pow10_positive, lemma_pow10_unfold, pow10};
use crate::text::text_of;
use vstd::arithmetic::div_mod::lemma_div_denominator;
use vstd::prelude::*;
use vstd::string::StringExecFns;

verus! {

/// The characters of the digits in `v`, last digit first.
pub open spec fn reversed(v: Seq<u8>) -> Seq<char> {
    Seq::new(v.len(), |i: int| digit_char(v[v.len() - 1 - i] as int))
}

/// Whether every item of `v` is a digit's worth.
pub open spec fn below_ten(v: Seq<u8>) -> bool {
    forall|i: int| 0 <= i < v.len() ==> #[trigger] v[i] < 10
}

/// A digit added at the end comes first when the run is reversed.
proof fn lemma_reversed_push(v: Seq<u8>, d: u8)
    ensures
        reversed(v.push(d)) == seq![digit_char(d as int)] + reversed(v),
{
    assert(reversed(v.push(d)) =~= seq![digit_char(d as int)] + reversed(v));
}

/// The one-character text of the digit `d`.
fn digit_str(d: u8) -> (r: &'static str)
    requires
        d < 10,
    ensures
        r@ == seq![digit_char(d as int)],
{
    proof {
        reveal_strlit("0");
        reveal_strlit("1");
        reveal_strlit("2");
        reveal_strlit("3");
        reveal_strlit("4");
        reveal_strlit("5");
        reveal_strlit("6");
        reveal_strlit("7");
        reveal_strlit("8");
        reveal_strlit("9");
    }
    let r = match d {
        0 => "0",
        1 => "1",
        2 => "2",
        3 => "3",
        4 => "4",
        5 => "5",
        6 => "6",
        7 => "7",
        8 => "8",
        _ => "9",
    };
    assert(r@ =~= seq![digit_char(d as int)]);
    r
}

/// Appends the digits of `digits` to `out`, last digit first.
fn push_reversed(out: &mut String, digits: &Vec<u8>)
    requires
        below_ten(digits@),
    ensures
        final(out)@ == old(out)@ + reversed(digits@),
{
    let mut left: usize = digits.len();
    let ghost before = out@;
    assert(out@ =~= before + reversed(digits@).subrange(0, 0));
    while left > 0
        invariant
            left <= digits.len(),
            below_ten(digits@),
            out@ == before + reversed(digits@).subrange(0, digits.len() - left),
        decreases left,
    {
        left = left - 1;
        out.append(digit_str(digits[left]));
        assert(out@ =~= before + reversed(digits@).subrange(0, digits.len() - left));
    }
    assert(reversed(digits@).subrange(0, digits.len() as int) =~= reversed(digits@));
}

/// The digits of the numeral of `n`, last digit first.
fn whole_digits(n: u128) -> (r: Vec<u8>)
    ensures
        below_ten(r@),
        reversed(r@) == digits_of(n as nat),
{
    let mut rest: u128 = n;
    let mut digits: Vec<u8> = Vec::new();
    assert(digits_of(n as nat) =~= digits_of(rest as nat) + reversed(digits@));
    while rest >= 10
        invariant
            below_ten(digits@),
            digits_of(n as nat) == digits_of(rest as nat) + reversed(digits@),
        decreases rest,
    {
        let d: u8 = (rest % 10) as u8;
        proof {
            lemma_reversed_push(digits@, d);
            assert(digits_of(rest as nat) == digits_of((rest / 10) as nat).push(
                digit_char(d as int),
            ));
            assert(digits_of((rest / 10) as nat).push(digit_char(d as int)) + reversed(digits@)
                =~= digits_of((rest / 10) as nat) + (seq![digit_char(d as int)] + reversed(
                digits@,
            )));
        }
        digits.push(d);
        rest = rest / 10;
    }
    proof {
        lemma_reversed_push(digits@, rest as u8);
    }
    digits.push(rest as u8);
    digits
}

/// The last `width` digits of the numeral of `n`, last digit first, and what
/// is left of `n` when they are taken off.
fn fraction_digits(n: u128, width: u32) -> (r: (Vec<u8>, u128))
    ensures
        below_ten(r.0@),
        reversed(r.0@) == fixed_digits((n as int % pow10(width as nat)) as nat, width as nat),
        r.1 == n as int / pow10(width as nat),
{
    let mut rest: u128 = n;
    let mut digits: Vec<u8> = Vec::new();
    let mut done: u32 = 0;
    proof {
        lemma_pow10_unfold(0);
        assert(fixed_digits(n as nat, width as nat) =~= fixed_digits(rest as nat, width as nat)
            + reversed(digits@));
    }
    while done < width
        invariant
            done <= width,
            below_ten(digits@),
            rest == n as int / pow10(done as nat),
            fixed_digits(n as nat, width as nat) == fixed_digits(
                rest as nat,
                (width - done) as nat,
            ) + reversed(digits@),
        decreases width - done,
    {
        let d: u8 = (rest % 10) as u8;
        proof {
            let left = (width - done) as nat;
            lemma_reversed_push(digits@, d);
            assert(fixed_digits(rest as nat, left) == fixed_digits(
                (rest / 10) as nat,
                (left - 1) as nat,
            ).push(digit_char(d as int)));
            assert(fixed_digits((rest / 10) as nat, (left - 1) as nat).push(digit_char(d as int))
                + reversed(digits@) =~= fixed_digits((rest / 10) as nat, (left - 1) as nat) + (
            seq![digit_char(d as int)] + reversed(digits@)));
            lemma_pow10_positive(done as nat);
            lemma_pow10_unfold(done as nat);
            lemma_div_denominator(n as int, pow10(done as nat), 10);
            assert(pow10(done as nat) * 10 == 10 * pow10(done as nat));
        }
        digits.push(d);
        rest = rest / 10;
        done = done + 1;
    }
    proof {
        lemma_fixed_digits_of_remainder(n as nat, width as nat);
        lemma_pow10_positive(width as nat);
        assert(fixed_digits(rest as nat, 0) =~= Seq::<char>::empty());
        assert(Seq::<char>::empty() + reversed(digits@) =~= reversed(digits@));
    }
    (digits, rest)
}

impl Decimal {
    /// The decimal as text: the significand in base ten with its sign, and a
    /// point before the last `scale` digits, where the scale is not zero.
    ///
    /// The text is the canonical, lossless form of the decimal: reading it
    /// gives back the same significand and scale.
    pub fn to_string(&self) -> (r: String)
        ensures
            r@ == text_of(self@),
    {
        let significand: i128 = self.significand();
        let scale: u32 = self.scale();
        let (fraction, whole_value) = fraction_digits(magnitude(significand), scale);
        let whole = whole_digits(whole_value);
        let mut out = String::new();
        proof {
            reveal_strlit("-");
            reveal_strlit(".");
        }
        if significand < 0 {
            out.append("-");
        }
        push_reversed(&mut out, &whole);
        if scale > 0 {
            out.append(".");
            push_reversed(&mut out, &fraction);
        }
        assert(out@ =~= text_of(self@));
        out
    }
}

} // verus!
