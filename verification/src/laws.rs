//! What holds of equality, order and normal forms, whatever the scales are.

use crate::model::{round_half_away, Fixed};
use crate::scale::{lemma_pow10_adds, lemma_pow10_positive, lemma_pow10_unfold, pow10};
use vstd::arithmetic::div_mod::{lemma_fundamental_div_mod, lemma_mod_bound};
use vstd::math::abs;
use vstd::prelude::*;

verus! {

/// Equality and order can be decided without aligning: multiply each
/// significand by the power of ten of the other's scale.
pub proof fn lemma_cross_multiplied(a: Fixed, b: Fixed)
    ensures
        a.same_value(b) <==> a.significand * pow10(b.scale) == b.significand * pow10(a.scale),
        a.below(b) <==> a.significand * pow10(b.scale) < b.significand * pow10(a.scale),
{
    lemma_pow10_unfold(0);
    lemma_pow10_positive(a.scale);
    lemma_pow10_positive(b.scale);
    let x = a.significand;
    let y = b.significand;
    let pa = pow10(a.scale);
    let pb = pow10(b.scale);
    if a.scale >= b.scale {
        let k = (a.scale - b.scale) as nat;
        let pk = pow10(k);
        lemma_pow10_adds(k, b.scale);
        lemma_pow10_positive(k);
        assert(y * pa == (y * pk) * pb) by (nonlinear_arith)
            requires
                pa == pk * pb,
        ;
        assert((x == y * pk) <==> (x * pb == (y * pk) * pb)) by (nonlinear_arith)
            requires
                pb >= 1,
        ;
        assert((x < y * pk) <==> (x * pb < (y * pk) * pb)) by (nonlinear_arith)
            requires
                pb >= 1,
        ;
    } else {
        let k = (b.scale - a.scale) as nat;
        let pk = pow10(k);
        lemma_pow10_adds(k, a.scale);
        lemma_pow10_positive(k);
        assert(x * pb == (x * pk) * pa) by (nonlinear_arith)
            requires
                pb == pk * pa,
        ;
        assert((x * pk == y) <==> ((x * pk) * pa == y * pa)) by (nonlinear_arith)
            requires
                pa >= 1,
        ;
        assert((x * pk < y) <==> ((x * pk) * pa < y * pa)) by (nonlinear_arith)
            requires
                pa >= 1,
        ;
    }
}

/// Every decimal stands for the number it stands for.
pub proof fn lemma_same_value_reflexive(a: Fixed)
    ensures
        a.same_value(a),
{
}

/// Standing for the same number does not depend on the side.
pub proof fn lemma_same_value_symmetric(a: Fixed, b: Fixed)
    ensures
        a.same_value(b) == b.same_value(a),
{
}

/// Two decimals that stand for the same number as a third stand for the same number.
pub proof fn lemma_same_value_transitive(a: Fixed, b: Fixed, c: Fixed)
    requires
        a.same_value(b),
        b.same_value(c),
    ensures
        a.same_value(c),
{
    lemma_cross_multiplied(a, b);
    lemma_cross_multiplied(b, c);
    lemma_cross_multiplied(a, c);
    lemma_pow10_positive(a.scale);
    lemma_pow10_positive(b.scale);
    lemma_pow10_positive(c.scale);
    let x = a.significand;
    let y = b.significand;
    let z = c.significand;
    let pa = pow10(a.scale);
    let pb = pow10(b.scale);
    let pc = pow10(c.scale);
    assert((x * pc) * pb == (z * pa) * pb) by (nonlinear_arith)
        requires
            x * pb == y * pa,
            y * pc == z * pb,
    {
        assert((x * pc) * pb == (x * pb) * pc);
        assert((y * pa) * pc == (y * pc) * pa);
        assert((z * pb) * pa == (z * pa) * pb);
    }
    assert(x * pc == z * pa) by (nonlinear_arith)
        requires
            (x * pc) * pb == (z * pa) * pb,
            pb >= 1,
    ;
}

/// Of two decimals, one is below the other or they stand for the same
/// number, and only one of the three holds.
pub proof fn lemma_order_is_total(a: Fixed, b: Fixed)
    ensures
        a.below(b) || a.same_value(b) || b.below(a),
        !(a.below(b) && a.same_value(b)),
        !(a.below(b) && b.below(a)),
        !(a.same_value(b) && b.below(a)),
{
}

/// What is below a decimal is below everything that the decimal is below.
pub proof fn lemma_below_transitive(a: Fixed, b: Fixed, c: Fixed)
    requires
        a.below(b),
        b.below(c),
    ensures
        a.below(c),
{
    let ab = a.common_scale(b);
    let big = ab + c.scale;
    lemma_compared_at(a, b, big);
    lemma_compared_at(b, c, big);
    lemma_compared_at(a, c, big);
}

/// Equality does not depend on the scale: a significand with `zeros` more
/// trailing zeros at a scale raised by `zeros` stands for the same number.
pub proof fn lemma_scale_independent(d: Fixed, zeros: nat)
    ensures
        (Fixed {
            significand: d.significand * pow10(zeros),
            scale: d.scale + zeros,
        }).same_value(d),
{
    let e = Fixed { significand: d.significand * pow10(zeros), scale: d.scale + zeros };
    lemma_pow10_unfold(0);
    assert(e.common_scale(d) == e.scale);
    assert((e.scale - d.scale) as nat == zeros);
    assert(e.aligned(e.scale) == e.significand * 1);
}

/// Order does not depend on the representation: where each side is
/// replaced by a decimal that stands for the same number, the two stand to
/// each other as before.
pub proof fn lemma_order_respects_value(a: Fixed, a2: Fixed, b: Fixed, b2: Fixed)
    requires
        a.same_value(a2),
        b.same_value(b2),
    ensures
        a.below(b) == a2.below(b2),
        a.same_value(b) == a2.same_value(b2),
{
    lemma_cross_multiplied(a, a2);
    lemma_cross_multiplied(b, b2);
    lemma_cross_multiplied(a, b);
    lemma_cross_multiplied(a2, b2);
    lemma_pow10_positive(a.scale);
    lemma_pow10_positive(b.scale);
    lemma_pow10_positive(a2.scale);
    lemma_pow10_positive(b2.scale);
    let x = a.significand;
    let y = b.significand;
    let x2 = a2.significand;
    let y2 = b2.significand;
    let pa = pow10(a.scale);
    let pb = pow10(b.scale);
    let pa2 = pow10(a2.scale);
    let pb2 = pow10(b2.scale);
    let left = (x * pb) * (pa2 * pb2);
    let right = (y * pa) * (pa2 * pb2);
    let k = pa * pb;
    assert(left == (x2 * pb2) * k) by (nonlinear_arith)
        requires
            left == (x * pb) * (pa2 * pb2),
            x * pa2 == x2 * pa,
            k == pa * pb,
    {
        assert((x * pb) * (pa2 * pb2) == (x * pa2) * (pb * pb2));
        assert((x2 * pa) * (pb * pb2) == (x2 * pb2) * (pa * pb));
    }
    assert(right == (y2 * pa2) * k) by (nonlinear_arith)
        requires
            right == (y * pa) * (pa2 * pb2),
            y * pb2 == y2 * pb,
            k == pa * pb,
    {
        assert((y * pa) * (pa2 * pb2) == (y * pb2) * (pa * pa2));
        assert((y2 * pb) * (pa * pa2) == (y2 * pa2) * (pa * pb));
    }
    let u = x * pb;
    let v = y * pa;
    let w = pa2 * pb2;
    assert(w >= 1 && k >= 1) by (nonlinear_arith)
        requires
            w == pa2 * pb2,
            k == pa * pb,
            pa >= 1,
            pb >= 1,
            pa2 >= 1,
            pb2 >= 1,
    ;
    assert((u < v) == (u * w < v * w) && (u == v) == (u * w == v * w)) by (nonlinear_arith)
        requires
            w >= 1,
    ;
    let u2 = x2 * pb2;
    let v2 = y2 * pa2;
    assert((u2 < v2) == (u2 * k < v2 * k) && (u2 == v2) == (u2 * k == v2 * k))
        by (nonlinear_arith)
        requires
            k >= 1,
    ;
}

/// Aligning to a scale and from there to a larger one is aligning to the larger one.
pub proof fn lemma_aligned_further(d: Fixed, scale: nat, larger: nat)
    requires
        d.scale <= scale <= larger,
    ensures
        d.aligned(larger) == d.aligned(scale) * pow10((larger - scale) as nat),
{
    let near = (scale - d.scale) as nat;
    let far = (larger - scale) as nat;
    lemma_pow10_adds(near, far);
    let x = d.significand;
    let pn = pow10(near);
    let pf = pow10(far);
    assert(x * (pn * pf) == (x * pn) * pf) by (nonlinear_arith);
}

/// Equality and order can be decided at any scale that is large enough for both.
pub proof fn lemma_compared_at(a: Fixed, b: Fixed, scale: nat)
    requires
        a.scale <= scale,
        b.scale <= scale,
    ensures
        a.same_value(b) <==> a.aligned(scale) == b.aligned(scale),
        a.below(b) <==> a.aligned(scale) < b.aligned(scale),
{
    let m = a.common_scale(b);
    lemma_aligned_further(a, m, scale);
    lemma_aligned_further(b, m, scale);
    let p = pow10((scale - m) as nat);
    lemma_pow10_positive((scale - m) as nat);
    let u = a.aligned(m);
    let v = b.aligned(m);
    assert((u == v) <==> (u * p == v * p)) by (nonlinear_arith)
        requires
            p >= 1,
    ;
    assert((u < v) <==> (u * p < v * p)) by (nonlinear_arith)
        requires
            p >= 1,
    ;
}

/// At any scale that is large enough, the sum is the sum of the aligned
/// significands, and the difference their difference.
pub proof fn lemma_sum_aligned(a: Fixed, b: Fixed, scale: nat)
    requires
        a.scale <= scale,
        b.scale <= scale,
    ensures
        a.sum(b).aligned(scale) == a.aligned(scale) + b.aligned(scale),
        a.difference(b).aligned(scale) == a.aligned(scale) - b.aligned(scale),
{
    let m = a.common_scale(b);
    lemma_aligned_further(a, m, scale);
    lemma_aligned_further(b, m, scale);
    let p = pow10((scale - m) as nat);
    let u = a.aligned(m);
    let v = b.aligned(m);
    assert((u + v) * p == u * p + v * p) by (nonlinear_arith);
    assert((u - v) * p == u * p - v * p) by (nonlinear_arith);
}

/// The sum and the product do not depend on the order of the operands.
pub proof fn lemma_sum_and_product_commute(a: Fixed, b: Fixed)
    ensures
        a.sum(b) == b.sum(a),
        a.product(b) == b.product(a),
{
    assert(a.significand * b.significand == b.significand * a.significand) by (nonlinear_arith);
}

/// The sum and the difference go by the numbers: where each operand is
/// replaced by a decimal that stands for the same number, the results stand
/// for the same number.
pub proof fn lemma_sum_respects_value(a: Fixed, a2: Fixed, b: Fixed, b2: Fixed)
    requires
        a.same_value(a2),
        b.same_value(b2),
    ensures
        a.sum(b).same_value(a2.sum(b2)),
        a.difference(b).same_value(a2.difference(b2)),
{
    let m = a.common_scale(b);
    let m2 = a2.common_scale(b2);
    let big = if m >= m2 {
        m
    } else {
        m2
    };
    lemma_compared_at(a, a2, big);
    lemma_compared_at(b, b2, big);
    lemma_sum_aligned(a, b, big);
    lemma_sum_aligned(a2, b2, big);
    lemma_compared_at(a.sum(b), a2.sum(b2), big);
    lemma_compared_at(a.difference(b), a2.difference(b2), big);
}

/// The product goes by the numbers: where each operand is replaced by a
/// decimal that stands for the same number, the products stand for the same number.
pub proof fn lemma_product_respects_value(a: Fixed, a2: Fixed, b: Fixed, b2: Fixed)
    requires
        a.same_value(a2),
        b.same_value(b2),
    ensures
        a.product(b).same_value(a2.product(b2)),
{
    lemma_cross_multiplied(a, a2);
    lemma_cross_multiplied(b, b2);
    lemma_cross_multiplied(a.product(b), a2.product(b2));
    lemma_pow10_adds(a.scale, b.scale);
    lemma_pow10_adds(a2.scale, b2.scale);
    let x = a.significand;
    let y = b.significand;
    let x2 = a2.significand;
    let y2 = b2.significand;
    let pa = pow10(a.scale);
    let pb = pow10(b.scale);
    let pa2 = pow10(a2.scale);
    let pb2 = pow10(b2.scale);
    assert((x * y) * (pa2 * pb2) == (x2 * y2) * (pa * pb)) by (nonlinear_arith)
        requires
            x * pa2 == x2 * pa,
            y * pb2 == y2 * pb,
    {
        assert((x * y) * (pa2 * pb2) == (x * pa2) * (y * pb2));
        assert((x2 * pa) * (y2 * pb) == (x2 * y2) * (pa * pb));
    }
}

/// The rounded quotient is an integer nearest to the exact quotient, and on
/// a tie it is the one further from zero.
pub proof fn lemma_rounding_is_nearest(n: int, d: int)
    requires
        d != 0,
    ensures
        2 * abs(n - round_half_away(n, d) * d) <= abs(d),
        2 * abs(n - round_half_away(n, d) * d) == abs(d) ==> abs(round_half_away(n, d) * d) > abs(
            n,
        ),
{
    let nn = abs(n) as int;
    let dd = abs(d) as int;
    let q = (2 * nn + dd) / (2 * dd);
    let r = (2 * nn + dd) % (2 * dd);
    lemma_fundamental_div_mod(2 * nn + dd, 2 * dd);
    lemma_mod_bound(2 * nn + dd, 2 * dd);
    assert((2 * dd) * q == 2 * (q * dd)) by (nonlinear_arith);
    assert(2 * (nn - q * dd) == r - dd);
    let rounded = round_half_away(n, d);
    if (n < 0) == (d < 0) {
        assert(rounded == q);
        if d > 0 {
            assert(q * d == q * dd);
        } else {
            assert(q * d == -(q * dd)) by (nonlinear_arith)
                requires
                    d == -dd,
            ;
        }
    } else {
        assert(rounded == -q);
        if d > 0 {
            assert((-q) * d == -(q * dd)) by (nonlinear_arith)
                requires
                    d == dd,
            ;
        } else {
            assert((-q) * d == q * dd) by (nonlinear_arith)
                requires
                    d == -dd,
            ;
        }
    }
}

/// The normal form stands for the same number, at a scale that is no
/// larger, with a significand that is no further from zero; and nothing is
/// left to take off it.
pub proof fn lemma_normal_form(d: Fixed)
    ensures
        d.normal().same_value(d),
        d.normal().is_normal(),
        d.normal().scale <= d.scale,
        d.significand >= 0 ==> 0 <= d.normal().significand <= d.significand,
        d.significand <= 0 ==> d.significand <= d.normal().significand <= 0,
    decreases d.scale,
{
    if d.scale > 0 && d.significand % 10 == 0 {
        let step = Fixed { significand: d.significand / 10, scale: (d.scale - 1) as nat };
        lemma_normal_form(step);
        lemma_pow10_unfold(0);
        assert(step.same_value(d)) by {
            assert(d.common_scale(step) == d.scale);
            assert(pow10(1) == 10) by {
                lemma_pow10_unfold(0);
            }
            assert(step.aligned(d.scale) == step.significand * 10);
            assert(d.aligned(d.scale) == d.significand * 1);
        }
        lemma_same_value_transitive(d.normal(), step, d);
    }
}

/// A number has one normal form: two decimals in normal form that stand
/// for the same number are the same decimal.
pub proof fn lemma_normal_form_unique(a: Fixed, b: Fixed)
    requires
        a.is_normal(),
        b.is_normal(),
        a.same_value(b),
    ensures
        a == b,
{
    lemma_pow10_unfold(0);
    if a.scale > b.scale {
        let k = (a.scale - b.scale - 1) as nat;
        lemma_pow10_unfold(k);
        let p = pow10(k);
        let y = b.significand;
        assert(a.significand == y * (10 * p));
        assert(y * (10 * p) == 10 * (y * p)) by (nonlinear_arith);
    } else if b.scale > a.scale {
        let k = (b.scale - a.scale - 1) as nat;
        lemma_pow10_unfold(k);
        let p = pow10(k);
        let x = a.significand;
        assert(b.significand == x * (10 * p));
        assert(x * (10 * p) == 10 * (x * p)) by (nonlinear_arith);
    } else {
        assert(a.aligned(a.scale) == a.significand * 1);
        assert(b.aligned(a.scale) == b.significand * 1);
    }
}

/// Decimals stand for the same number exactly when they have the same normal form.
pub proof fn lemma_same_value_iff_same_normal(a: Fixed, b: Fixed)
    ensures
        a.same_value(b) <==> a.normal() == b.normal(),
{
    lemma_normal_form(a);
    lemma_normal_form(b);
    if a.same_value(b) {
        lemma_same_value_transitive(a.normal(), a, b);
        lemma_same_value_transitive(a.normal(), b, b.normal());
        lemma_normal_form_unique(a.normal(), b.normal());
    }
    if a.normal() == b.normal() {
        lemma_same_value_transitive(a, a.normal(), b);
    }
}

} // verus!
