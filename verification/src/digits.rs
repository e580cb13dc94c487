//! Decimal digits: what a run of digit characters is worth, and how a
//! natural number is written.

use crate::scale::{lemma_pow10_positive, lemma_pow10_unfold, pow10};
use vstd::arithmetic::div_mod::{lemma_fundamental_div_mod, lemma_fundamental_div_mod_converse};
use vstd::prelude::*;

verus! {

/// Whether `c` is one of `0` to `9`.
pub open spec fn is_digit(c: char) -> bool {
    '0' <= c <= '9'
}

/// What the digit `c` is worth.
pub open spec fn digit_value(c: char) -> int {
    c as int - '0' as int
}

/// The character that writes the digit `d`.
pub open spec fn digit_char(d: int) -> char {
    (d + '0' as int) as char
}

/// Whether every character of `s` is a digit.
pub open spec fn all_digits(s: Seq<char>) -> bool {
    forall|i: int| 0 <= i < s.len() ==> is_digit(#[trigger] s[i])
}

/// The number read when the digits of `s` are written behind the numeral of `v`.
pub open spec fn extend(v: int, s: Seq<char>) -> int
    decreases s.len(),
{
    if s.len() == 0 {
        v
    } else {
        10 * extend(v, s.drop_last()) + digit_value(s.last())
    }
}

/// The number that the digits of `s` write in base ten. Leading zeros count for nothing.
pub open spec fn digits_value(s: Seq<char>) -> int {
    extend(0, s)
}

/// The numeral of `n` in base ten, without leading zeros; zero is written `0`.
pub open spec fn digits_of(n: nat) -> Seq<char>
    decreases n,
{
    if n < 10 {
        seq![digit_char(n as int)]
    } else {
        digits_of(n / 10).push(digit_char((n % 10) as int))
    }
}

/// The last `width` digits of the numeral of `n`, with zeros in front where it is shorter.
pub open spec fn fixed_digits(n: nat, width: nat) -> Seq<char>
    decreases width,
{
    if width == 0 {
        Seq::empty()
    } else {
        fixed_digits(n / 10, (width - 1) as nat).push(digit_char((n % 10) as int))
    }
}

/// A digit's character and its worth determine each other.
pub proof fn lemma_digit_char_value(d: int)
    requires
        0 <= d < 10,
    ensures
        is_digit(digit_char(d)),
        digit_value(digit_char(d)) == d,
{
}

/// A digit's character and its worth determine each other.
pub proof fn lemma_digit_value_char(c: char)
    requires
        is_digit(c),
    ensures
        0 <= digit_value(c) < 10,
        digit_char(digit_value(c)) == c,
{
}

/// Reading `a` and then `b` is reading the two written one behind the other.
pub proof fn lemma_extend_concat(v: int, a: Seq<char>, b: Seq<char>)
    ensures
        extend(v, a + b) == extend(extend(v, a), b),
    decreases b.len(),
{
    if b.len() == 0 {
        assert(a + b =~= a);
    } else {
        assert((a + b).drop_last() =~= a + b.drop_last());
        assert((a + b).last() == b.last());
        lemma_extend_concat(v, a, b.drop_last());
    }
}

/// Digits written behind a numeral shift it left by their count.
pub proof fn lemma_extend_shifts(v: int, s: Seq<char>)
    ensures
        extend(v, s) == v * pow10(s.len()) + digits_value(s),
    decreases s.len(),
{
    lemma_pow10_unfold(0);
    if s.len() == 0 {
    } else {
        let init = s.drop_last();
        lemma_extend_shifts(v, init);
        lemma_pow10_unfold(init.len());
        let p = pow10(init.len());
        let w = digits_value(init);
        assert(10 * (v * p + w) == v * (10 * p) + 10 * w) by (nonlinear_arith);
    }
}

/// A run of `k` digits is worth less than ten to the `k`.
pub proof fn lemma_digits_value_bound(s: Seq<char>)
    requires
        all_digits(s),
    ensures
        0 <= digits_value(s) < pow10(s.len()),
    decreases s.len(),
{
    lemma_pow10_unfold(0);
    if s.len() == 0 {
    } else {
        let init = s.drop_last();
        assert(all_digits(init)) by {
            assert forall|i: int| 0 <= i < init.len() implies is_digit(#[trigger] init[i]) by {
                assert(init[i] == s[i]);
            }
        }
        lemma_digits_value_bound(init);
        lemma_pow10_unfold(init.len());
        assert(is_digit(s[s.len() - 1]));
    }
}

/// The numeral of `n` consists of digits, is not empty, and is worth `n`.
/// It starts with a zero only where `n` is zero.
pub proof fn lemma_digits_of(n: nat)
    ensures
        all_digits(digits_of(n)),
        digits_of(n).len() >= 1,
        digits_value(digits_of(n)) == n,
        n != 0 ==> digits_of(n)[0] != '0',
        n == 0 ==> digits_of(n) == seq!['0'],
    decreases n,
{
    let s = digits_of(n);
    if n < 10 {
        lemma_digit_char_value(n as int);
        assert(s.drop_last() =~= Seq::<char>::empty());
        assert(extend(0, s.drop_last()) == 0);
    } else {
        let init = digits_of(n / 10);
        lemma_digits_of(n / 10);
        lemma_digit_char_value((n % 10) as int);
        assert(s.drop_last() =~= init);
        assert(s[0] == init[0]);
        assert forall|i: int| 0 <= i < s.len() implies is_digit(#[trigger] s[i]) by {
            if i < init.len() {
                assert(s[i] == init[i]);
            }
        }
    }
}

/// The fixed-width numeral has `width` digits and is worth `n` modulo ten to the `width`.
pub proof fn lemma_fixed_digits(n: nat, width: nat)
    ensures
        all_digits(fixed_digits(n, width)),
        fixed_digits(n, width).len() == width,
        digits_value(fixed_digits(n, width)) == n % (pow10(width) as nat),
    decreases width,
{
    lemma_pow10_unfold(0);
    let s = fixed_digits(n, width);
    if width == 0 {
    } else {
        let w1 = (width - 1) as nat;
        let init = fixed_digits(n / 10, w1);
        lemma_fixed_digits(n / 10, w1);
        lemma_digit_char_value((n % 10) as int);
        assert(s.drop_last() =~= init);
        assert forall|i: int| 0 <= i < s.len() implies is_digit(#[trigger] s[i]) by {
            if i < init.len() {
                assert(s[i] == init[i]);
            }
        }
        lemma_pow10_unfold(w1);
        lemma_pow10_positive(w1);
        lemma_mod_by_ten_times(n as int, pow10(w1));
    }
}

/// The remainder by `10 * p` from the remainder by `p` of the tenth part.
pub proof fn lemma_mod_by_ten_times(n: int, p: int)
    requires
        n >= 0,
        p >= 1,
    ensures
        n % (10 * p) == 10 * ((n / 10) % p) + n % 10,
{
    let q = n / 10;
    lemma_fundamental_div_mod(n, 10);
    lemma_fundamental_div_mod(q, p);
    let hi = q / p;
    let lo = q % p;
    let r = 10 * lo + n % 10;
    assert(n == (10 * p) * hi + r) by (nonlinear_arith)
        requires
            n == 10 * q + n % 10,
            q == p * hi + lo,
            r == 10 * lo + n % 10,
    ;
    assert(0 <= lo < p) by (nonlinear_arith)
        requires
            lo == q % p,
            p >= 1,
    ;
    lemma_fundamental_div_mod_converse(n, 10 * p, hi, r);
}

/// Only what `n` is worth modulo ten to the `width` shows in its fixed-width numeral.
pub proof fn lemma_fixed_digits_of_remainder(n: nat, width: nat)
    ensures
        n % (pow10(width) as nat) >= 0,
        fixed_digits(n, width) == fixed_digits(n % (pow10(width) as nat), width),
    decreases width,
{
    lemma_pow10_unfold(0);
    lemma_pow10_positive(width);
    if width == 0 {
    } else {
        let w1 = (width - 1) as nat;
        let p = pow10(w1);
        lemma_pow10_unfold(w1);
        lemma_pow10_positive(w1);
        lemma_mod_by_ten_times(n as int, p);
        let low = n % (pow10(width) as nat);
        let tenth = (n / 10) % (p as nat);
        assert(0 <= tenth < p) by (nonlinear_arith)
            requires
                tenth == (n / 10) % (p as nat),
                p >= 1,
        ;
        lemma_fundamental_div_mod_converse(low as int, 10, tenth as int, (n % 10) as int);
        lemma_fixed_digits_of_remainder(n / 10, w1);
        lemma_fixed_digits_of_remainder(low / 10, w1);
        assert((low / 10) % (p as nat) == tenth) by (nonlinear_arith)
            requires
                low / 10 == tenth,
                0 <= tenth < p,
        ;
    }
}

/// A numeral without a leading zero is the numeral of what it is worth.
pub proof fn lemma_digits_of_value(s: Seq<char>)
    requires
        all_digits(s),
        s.len() >= 1,
        s.len() > 1 ==> s[0] != '0',
    ensures
        digits_value(s) >= 0,
        s.len() > 1 ==> digits_value(s) >= 1,
        digits_of(digits_value(s) as nat) == s,
    decreases s.len(),
{
    let init = s.drop_last();
    let last = s.last();
    assert(is_digit(s[s.len() - 1]));
    lemma_digit_value_char(last);
    if s.len() == 1 {
        assert(init =~= Seq::<char>::empty());
        assert(extend(0, init) == 0);
        assert(digits_of(digits_value(s) as nat) =~= s);
    } else {
        assert(all_digits(init)) by {
            assert forall|i: int| 0 <= i < init.len() implies is_digit(#[trigger] init[i]) by {
                assert(init[i] == s[i]);
            }
        }
        assert(init[0] == s[0]);
        lemma_digits_of_value(init);
        let w = digits_value(init);
        if init.len() == 1 {
            assert(is_digit(init[0]));
            assert(init.drop_last() =~= Seq::<char>::empty());
            assert(extend(0, init.drop_last()) == 0);
            assert(w == digit_value(init[0]));
            assert(w >= 1);
        }
        let n = digits_value(s);
        assert(n == 10 * w + digit_value(last));
        assert(n / 10 == w && n % 10 == digit_value(last)) by {
            lemma_fundamental_div_mod_converse(n, 10, w, digit_value(last));
        }
        assert(digits_of(n as nat) =~= s);
    }
}

/// A run of digits is the fixed-width numeral of what it is worth.
pub proof fn lemma_fixed_digits_of_value(s: Seq<char>)
    requires
        all_digits(s),
    ensures
        digits_value(s) >= 0,
        fixed_digits(digits_value(s) as nat, s.len()) == s,
    decreases s.len(),
{
    if s.len() == 0 {
        assert(fixed_digits(digits_value(s) as nat, s.len()) =~= s);
    } else {
        let init = s.drop_last();
        let last = s.last();
        assert(is_digit(s[s.len() - 1]));
        lemma_digit_value_char(last);
        assert(all_digits(init)) by {
            assert forall|i: int| 0 <= i < init.len() implies is_digit(#[trigger] init[i]) by {
                assert(init[i] == s[i]);
            }
        }
        lemma_fixed_digits_of_value(init);
        let w = digits_value(init);
        let n = digits_value(s);
        assert(n / 10 == w && n % 10 == digit_value(last)) by {
            lemma_fundamental_div_mod_converse(n, 10, w, digit_value(last));
        }
        assert(fixed_digits(n as nat, s.len()) =~= s);
    }
}

} // verus!
