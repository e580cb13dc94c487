//! Powers of ten and the exact rescaling of a significand.

use vstd::arithmetic::mul::*;
use vstd::arithmetic::power::*;
use vstd::prelude::*;

verus! {

/// Ten to the power `e`.
pub open spec fn pow10(e: nat) -> int {
    pow(10, e)
}

/// Whether `x` is a value that a significand can hold.
pub open spec fn fits(x: int) -> bool {
    i128::MIN <= x <= i128::MAX
}

/// Every power of ten is at least one.
pub proof fn lemma_pow10_positive(e: nat)
    ensures
        pow10(e) >= 1,
{
    lemma_pow_positive(10, e);
}

/// The first power of ten is one, and each further one is ten times the one before it.
pub proof fn lemma_pow10_unfold(e: nat)
    ensures
        pow10(0) == 1,
        pow10(e + 1) == 10 * pow10(e),
{
    reveal(pow);
    lemma_pow0(10);
}

/// Exponents add when powers of ten are multiplied.
pub proof fn lemma_pow10_adds(a: nat, b: nat)
    ensures
        pow10(a + b) == pow10(a) * pow10(b),
{
    lemma_pow_adds(10, a, b);
}

/// Multiplying by a power of ten moves a value away from zero, or leaves it where it is.
pub proof fn lemma_scaling_grows(x: int, e: nat)
    ensures
        x > 0 ==> x * pow10(e) >= x,
        x < 0 ==> x * pow10(e) <= x,
        x == 0 ==> x * pow10(e) == 0,
{
    lemma_pow10_positive(e);
    let p = pow10(e);
    assert(x > 0 ==> x * p >= x) by (nonlinear_arith)
        requires
            p >= 1,
    ;
    assert(x < 0 ==> x * p <= x) by (nonlinear_arith)
        requires
            p >= 1,
    ;
    assert(x == 0 ==> x * p == 0) by (nonlinear_arith);
}

/// Scaling in two steps is scaling by the sum of the steps.
pub proof fn lemma_scaling_composes(x: int, a: nat, b: nat)
    ensures
        (x * pow10(a)) * pow10(b) == x * pow10(a + b),
{
    lemma_pow10_adds(a, b);
    lemma_mul_is_associative(x, pow10(a), pow10(b));
}

/// Multiplies `significand` by ten to the power `digits`.
///
/// The product is returned exactly when a significand can hold it; otherwise
/// the result is `None`. A zero significand stays zero whatever `digits` is.
pub fn scale_up(significand: i128, digits: u32) -> (r: Option<i128>)
    ensures
        fits(significand * pow10(digits as nat)) ==> r == Some(
            (significand * pow10(digits as nat)) as i128,
        ),
        !fits(significand * pow10(digits as nat)) ==> r is None,
{
    if significand == 0 {
        proof {
            lemma_scaling_grows(0, digits as nat);
        }
        return Some(0);
    }
    let mut acc: i128 = significand;
    let mut done: u32 = 0;
    proof {
        lemma_pow10_unfold(0);
    }
    while done < digits
        invariant
            done <= digits,
            significand != 0,
            acc == significand * pow10(done as nat),
        decreases digits - done,
    {
        proof {
            lemma_pow10_unfold(done as nat);
            lemma_mul_is_associative(significand as int, pow10(done as nat), 10);
            lemma_mul_is_commutative(pow10(done as nat), 10);
        }
        match acc.checked_mul(10) {
            Some(next) => {
                acc = next;
                done = done + 1;
            },
            None => {
                proof {
                    let rest = (digits - done - 1) as nat;
                    let x = significand * pow10((done + 1) as nat);
                    assert(x == acc * 10);
                    lemma_scaling_composes(significand as int, (done + 1) as nat, rest);
                    lemma_scaling_grows(x, rest);
                }
                return None;
            },
        }
    }
    Some(acc)
}

} // verus!
