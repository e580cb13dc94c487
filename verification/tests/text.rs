use decimal::{Decimal, Error};

#[test]
fn writes_point_before_last_digits() {
    assert_eq!(Decimal::new(1234, 3).to_string(), "1.234");
    assert_eq!(Decimal::new(1234, 0).to_string(), "1234");
}

#[test]
fn pads_fraction_with_zeros() {
    assert_eq!(Decimal::new(5, 3).to_string(), "0.005");
    assert_eq!(Decimal::new(-5, 3).to_string(), "-0.005");
    assert_eq!(Decimal::new(0, 2).to_string(), "0.00");
    assert_eq!(Decimal::new(0, 0).to_string(), "0");
    assert_eq!(Decimal::new(-120, 1).to_string(), "-12.0");
}

#[test]
fn writes_extreme_significands() {
    assert_eq!(
        Decimal::new(i128::MIN, 0).to_string(),
        "-170141183460469231731687303715884105728"
    );
    assert_eq!(
        Decimal::new(i128::MAX, 38).to_string(),
        "1.70141183460469231731687303715884105727"
    );
    assert_eq!(
        Decimal::new(i128::MIN, 40).to_string(),
        "-0.0170141183460469231731687303715884105728"
    );
}

#[test]
fn reads_sign_digits_and_point() {
    let d = Decimal::from_str("1.234").unwrap();
    assert_eq!((d.significand(), d.scale()), (1234, 3));
    let d = Decimal::from_str("-0.50").unwrap();
    assert_eq!((d.significand(), d.scale()), (-50, 2));
    let d = Decimal::from_str("+12").unwrap();
    assert_eq!((d.significand(), d.scale()), (12, 0));
    let d = Decimal::from_str("0007").unwrap();
    assert_eq!((d.significand(), d.scale()), (7, 0));
    let d = Decimal::from_str(".5").unwrap();
    assert_eq!((d.significand(), d.scale()), (5, 1));
    let d = Decimal::from_str("5.").unwrap();
    assert_eq!((d.significand(), d.scale()), (5, 0));
}

#[test]
fn rejects_malformed_text() {
    assert_eq!(Decimal::from_str("1.2.3").unwrap_err(), Error::Parse);
    assert_eq!(Decimal::from_str("abc").unwrap_err(), Error::Parse);
    assert_eq!(Decimal::from_str("").unwrap_err(), Error::Parse);
    assert_eq!(Decimal::from_str(".").unwrap_err(), Error::Parse);
    assert_eq!(Decimal::from_str("-").unwrap_err(), Error::Parse);
    assert_eq!(Decimal::from_str("+.").unwrap_err(), Error::Parse);
    assert_eq!(Decimal::from_str(" 1").unwrap_err(), Error::Parse);
    assert_eq!(Decimal::from_str("1 ").unwrap_err(), Error::Parse);
    assert_eq!(Decimal::from_str("1-2").unwrap_err(), Error::Parse);
    assert_eq!(Decimal::from_str("--1").unwrap_err(), Error::Parse);
    assert_eq!(Decimal::from_str("1e5").unwrap_err(), Error::Parse);
    assert_eq!(Decimal::from_str("١٢").unwrap_err(), Error::Parse);
}

#[test]
fn reads_up_to_the_range_and_no_further() {
    let d = Decimal::from_str("170141183460469231731687303715884105727").unwrap();
    assert_eq!(d.significand(), i128::MAX);
    let d = Decimal::from_str("-170141183460469231731687303715884105728").unwrap();
    assert_eq!(d.significand(), i128::MIN);
    assert_eq!(
        Decimal::from_str("170141183460469231731687303715884105728").unwrap_err(),
        Error::Overflow
    );
    assert_eq!(
        Decimal::from_str("-170141183460469231731687303715884105729").unwrap_err(),
        Error::Overflow
    );
    assert_eq!(
        Decimal::from_str("9999999999999999999999999999999999999999999.9").unwrap_err(),
        Error::Overflow
    );
    assert_eq!(
        Decimal::from_str("99999999999999999999999999999999999999999999x").unwrap_err(),
        Error::Parse
    );
}

#[test]
fn canonical_text_reads_and_writes_back() {
    for text in ["0", "1", "-1", "12.00", "0.005", "-0.5", "1234.5678", "100", "0.0"] {
        assert_eq!(Decimal::from_str(text).unwrap().to_string(), text);
    }
}

#[test]
fn written_text_reads_back_with_its_scale() {
    for (significand, scale) in [(0i128, 0u32), (0, 4), (1200, 2), (-7, 9), (i128::MIN, 41)] {
        let d = Decimal::from_str(&Decimal::new(significand, scale).to_string()).unwrap();
        assert_eq!((d.significand(), d.scale()), (significand, scale));
    }
}
