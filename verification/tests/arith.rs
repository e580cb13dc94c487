use decimal::arith::{align, divide_rounded, magnitude};
use decimal::scale::scale_up;
use decimal::{Decimal, Error};

fn fields(d: Decimal) -> (i128, u32) {
    (d.significand(), d.scale())
}

#[test]
fn addition_aligns_to_the_larger_scale() {
    let sum = Decimal::new(1, 1).add(&Decimal::new(1, 0)).unwrap();
    assert_eq!(fields(sum), (11, 1));
    assert_eq!(sum.to_string(), "1.1");
    let sum = Decimal::new(1, 0).add(&Decimal::new(1, 1)).unwrap();
    assert_eq!(fields(sum), (11, 1));
    let sum = Decimal::new(-250, 2).add(&Decimal::new(25, 1)).unwrap();
    assert_eq!(fields(sum), (0, 2));
}

#[test]
fn subtraction_aligns_to_the_larger_scale() {
    let difference = Decimal::new(1, 0).sub(&Decimal::new(1, 3)).unwrap();
    assert_eq!(fields(difference), (999, 3));
    assert_eq!(difference.to_string(), "0.999");
    let difference = Decimal::new(5, 2).sub(&Decimal::new(1, 0)).unwrap();
    assert_eq!(fields(difference), (-95, 2));
}

#[test]
fn addition_and_subtraction_report_overflow() {
    let top = Decimal::new(i128::MAX, 0);
    assert_eq!(top.add(&Decimal::new(1, 0)).unwrap_err(), Error::Overflow);
    assert_eq!(Decimal::new(i128::MIN, 0).sub(&Decimal::new(1, 0)).unwrap_err(), Error::Overflow);
    assert_eq!(top.add(&Decimal::new(0, 1)).unwrap_err(), Error::Overflow);
    assert_eq!(Decimal::new(1, 0).add(&Decimal::new(1, 39)).unwrap_err(), Error::Overflow);
    assert_eq!(fields(top.add(&Decimal::new(-1, 0)).unwrap()), (i128::MAX - 1, 0));
    assert_eq!(fields(Decimal::new(0, 0).add(&Decimal::new(1, 4_000_000_000)).unwrap()), (1, 4_000_000_000));
}

#[test]
fn product_has_the_sum_of_the_scales() {
    let product = Decimal::new(15, 1).mul(&Decimal::new(-25, 2)).unwrap();
    assert_eq!(fields(product), (-375, 3));
    assert_eq!(product.to_string(), "-0.375");
    let product = Decimal::new(7, 0).mul(&Decimal::new(0, 5)).unwrap();
    assert_eq!(fields(product), (0, 5));
}

#[test]
fn multiplication_reports_overflow() {
    let big = Decimal::new(1i128 << 64, 0);
    assert_eq!(big.mul(&big).unwrap_err(), Error::Overflow);
    assert_eq!(
        Decimal::new(1, u32::MAX).mul(&Decimal::new(1, 1)).unwrap_err(),
        Error::Overflow
    );
    assert_eq!(
        Decimal::new(i128::MIN, 0).mul(&Decimal::new(-1, 0)).unwrap_err(),
        Error::Overflow
    );
}

#[test]
fn division_by_zero_is_an_error() {
    assert_eq!(
        Decimal::new(5, 0).div(&Decimal::new(0, 0)).unwrap_err(),
        Error::DivisionByZero
    );
    assert_eq!(
        Decimal::new(0, 3).div(&Decimal::new(0, 7)).unwrap_err(),
        Error::DivisionByZero
    );
}

#[test]
fn division_rounds_half_away_from_zero_at_the_larger_scale() {
    assert_eq!(fields(Decimal::new(1, 0).div(&Decimal::new(3, 0)).unwrap()), (0, 0));
    assert_eq!(fields(Decimal::new(2, 0).div(&Decimal::new(3, 0)).unwrap()), (1, 0));
    assert_eq!(fields(Decimal::new(5, 0).div(&Decimal::new(2, 0)).unwrap()), (3, 0));
    assert_eq!(fields(Decimal::new(-5, 0).div(&Decimal::new(2, 0)).unwrap()), (-3, 0));
    assert_eq!(fields(Decimal::new(5, 0).div(&Decimal::new(-2, 0)).unwrap()), (-3, 0));
    assert_eq!(fields(Decimal::new(100, 2).div(&Decimal::new(3, 0)).unwrap()), (33, 2));
    assert_eq!(fields(Decimal::new(200, 2).div(&Decimal::new(3, 0)).unwrap()), (67, 2));
    assert_eq!(fields(Decimal::new(1, 0).div(&Decimal::new(8, 3)).unwrap()), (125000, 3));
    assert_eq!(fields(Decimal::new(1000, 3).div(&Decimal::new(8, 0)).unwrap()), (125, 3));
    assert_eq!(fields(Decimal::new(10, 1).div(&Decimal::new(25, 2)).unwrap()), (400, 2));
    assert_eq!(Decimal::new(10, 1).div(&Decimal::new(25, 2)).unwrap().to_string(), "4.00");
}

#[test]
fn division_reports_overflow() {
    assert_eq!(
        Decimal::new(i128::MIN, 0).div(&Decimal::new(-1, 0)).unwrap_err(),
        Error::Overflow
    );
    assert_eq!(
        Decimal::new(i128::MAX, 0).div(&Decimal::new(1, 1)).unwrap_err(),
        Error::Overflow
    );
    assert_eq!(
        Decimal::new(1, 0).div(&Decimal::new(1, 20)).unwrap_err(),
        Error::Overflow
    );
    assert_eq!(fields(Decimal::new(i128::MIN, 0).div(&Decimal::new(1, 0)).unwrap()), (i128::MIN, 0));
    assert_eq!(fields(Decimal::new(0, 0).div(&Decimal::new(1, 4_000_000_000)).unwrap()), (0, 4_000_000_000));
}

#[test]
fn rounded_quotients() {
    assert_eq!(divide_rounded(7, 2), Some(4));
    assert_eq!(divide_rounded(-7, 2), Some(-4));
    assert_eq!(divide_rounded(7, -2), Some(-4));
    assert_eq!(divide_rounded(-7, -2), Some(4));
    assert_eq!(divide_rounded(6, 4), Some(2));
    assert_eq!(divide_rounded(5, 4), Some(1));
    assert_eq!(divide_rounded(0, -9), Some(0));
    assert_eq!(divide_rounded(i128::MIN, -1), None);
    assert_eq!(divide_rounded(i128::MIN, 1), Some(i128::MIN));
    assert_eq!(divide_rounded(i128::MAX, i128::MIN), Some(-1));
    assert_eq!(divide_rounded(i128::MIN, i128::MAX), Some(-1));
    assert_eq!(divide_rounded(i128::MAX, 2), Some((i128::MAX - 1) / 2 + 1));
}

#[test]
fn magnitudes() {
    assert_eq!(magnitude(0), 0);
    assert_eq!(magnitude(-3), 3);
    assert_eq!(magnitude(i128::MAX), i128::MAX as u128);
    assert_eq!(magnitude(i128::MIN), 1u128 << 127);
}

#[test]
fn scaling_up_is_exact_or_nothing() {
    assert_eq!(scale_up(12, 2), Some(1200));
    assert_eq!(scale_up(-12, 0), Some(-12));
    assert_eq!(scale_up(0, u32::MAX), Some(0));
    assert_eq!(scale_up(1, 38), Some(10i128.pow(38)));
    assert_eq!(scale_up(1, 39), None);
    assert_eq!(scale_up(-17, 37), Some(-17 * 10i128.pow(37)));
    assert_eq!(scale_up(-18, 37), None);
    assert_eq!(scale_up(5, u32::MAX), None);
}

#[test]
fn alignment_brings_both_to_the_larger_scale() {
    assert_eq!(align(&Decimal::new(1, 1), &Decimal::new(1, 0)), Some((1, 10, 1)));
    assert_eq!(align(&Decimal::new(3, 0), &Decimal::new(-4, 3)), Some((3000, -4, 3)));
    assert_eq!(align(&Decimal::new(1, 0), &Decimal::new(1, 39)), None);
}
