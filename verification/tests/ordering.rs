use decimal::Decimal;
use std::cmp::Ordering;

#[test]
fn equal_numbers_compare_equal_at_any_scale() {
    assert!(Decimal::new(1200, 2) == Decimal::new(12, 0));
    assert!(Decimal::new(12, 0) == Decimal::new(1200, 2));
    assert!(Decimal::new(0, 9) == Decimal::new(0, 0));
    assert!(Decimal::new(1201, 2) != Decimal::new(12, 0));
    assert_eq!(Decimal::new(1200, 2).compare(&Decimal::new(12, 0)), Ordering::Equal);
}

#[test]
fn equal_numbers_have_equal_hash_codes() {
    assert_eq!(Decimal::new(1200, 2).hash_code(), Decimal::new(12, 0).hash_code());
    assert_eq!(Decimal::new(0, 7).hash_code(), Decimal::new(0, 0).hash_code());
    assert_eq!(Decimal::new(-50, 1).hash_code(), Decimal::new(-5000, 3).hash_code());
    assert_ne!(Decimal::new(12, 0).hash_code(), Decimal::new(12, 1).hash_code());
    assert_ne!(Decimal::new(12, 0).hash_code(), Decimal::new(-12, 0).hash_code());
}

#[test]
fn hash_code_is_the_digest_of_the_normal_form() {
    // 0 at scale 0 is twenty zero bytes: each step maps h to h * 257 + 1.
    let mut expected: u128 = 0;
    for _ in 0..20 {
        expected = (expected * 257 + 1) % 0x1FFF_FFFF_FFFF_FFFF;
    }
    assert_eq!(Decimal::new(0, 5).hash_code() as u128, expected);
    assert!(Decimal::new(i128::MIN, 3).hash_code() < decimal::hashing::HASH_MODULUS);
}

#[test]
fn normal_form_takes_off_trailing_zeros() {
    let n = Decimal::new(1200, 2).normalize();
    assert_eq!((n.significand(), n.scale()), (12, 0));
    let n = Decimal::new(1200, 1).normalize();
    assert_eq!((n.significand(), n.scale()), (120, 0));
    let n = Decimal::new(-1050, 3).normalize();
    assert_eq!((n.significand(), n.scale()), (-105, 2));
    let n = Decimal::new(0, u32::MAX).normalize();
    assert_eq!((n.significand(), n.scale()), (0, 0));
    let n = Decimal::new(7, 4).normalize();
    assert_eq!((n.significand(), n.scale()), (7, 4));
}

#[test]
fn order_goes_by_the_number() {
    assert!(Decimal::new(1, 1) < Decimal::new(1, 0));
    assert!(Decimal::new(1, 0) > Decimal::new(99, 2));
    assert!(Decimal::new(-1, 0) < Decimal::new(-99, 2));
    assert!(Decimal::new(5, 1) <= Decimal::new(50, 2));
    assert!(Decimal::new(5, 1) >= Decimal::new(50, 2));
    assert_eq!(Decimal::new(3, 0).compare(&Decimal::new(29, 1)), Ordering::Greater);
    assert_eq!(Decimal::new(29, 1).compare(&Decimal::new(3, 0)), Ordering::Less);
    assert_eq!(
        Decimal::new(3, 0).partial_cmp(&Decimal::new(300, 2)),
        Some(Ordering::Equal)
    );
}

#[test]
fn order_holds_where_alignment_would_overflow() {
    let huge = Decimal::new(i128::MAX, 0);
    let tiny = Decimal::new(1, 50);
    assert_eq!(huge.compare(&tiny), Ordering::Greater);
    assert_eq!(tiny.compare(&huge), Ordering::Less);
    let low = Decimal::new(i128::MIN, 0);
    assert_eq!(low.compare(&tiny), Ordering::Less);
    assert_eq!(tiny.compare(&low), Ordering::Greater);
    assert_eq!(low.compare(&Decimal::new(-1, 50)), Ordering::Less);
    assert!(huge != tiny);
    assert_eq!(Decimal::new(0, 0).compare(&Decimal::new(0, u32::MAX)), Ordering::Equal);
}
