use decimal::{Decimal, ENCODED_LEN};

#[test]
fn binary_form_is_significand_then_scale() {
    let bytes = Decimal::new(0x0102, 3).to_bytes();
    assert_eq!(bytes.len(), ENCODED_LEN);
    assert_eq!(bytes[0], 0x02);
    assert_eq!(bytes[1], 0x01);
    assert!(bytes[2..16].iter().all(|b| *b == 0));
    assert_eq!(&bytes[16..], &[3, 0, 0, 0]);
}

#[test]
fn binary_form_is_twos_complement_little_endian() {
    for significand in [0i128, 1, -1, 255, 256, -256, 1234, i128::MAX, i128::MIN] {
        for scale in [0u32, 1, 255, 256, 65536, u32::MAX] {
            let bytes = Decimal::new(significand, scale).to_bytes();
            assert_eq!(&bytes[..16], &significand.to_le_bytes());
            assert_eq!(&bytes[16..], &scale.to_le_bytes());
        }
    }
}

#[test]
fn binary_form_decodes_to_the_same_representation() {
    for (significand, scale) in [
        (1234i128, 3u32),
        (1200, 2),
        (12, 0),
        (0, 0),
        (0, 9),
        (-1, 0),
        (-1200, 5),
        (i128::MAX, u32::MAX),
        (i128::MIN, 1),
    ] {
        let d = Decimal::from_bytes(&Decimal::new(significand, scale).to_bytes());
        assert_eq!((d.significand(), d.scale()), (significand, scale));
    }
}

#[test]
fn every_twenty_bytes_decode_and_encode_back() {
    let mut bytes = [0u8; ENCODED_LEN];
    for (i, b) in bytes.iter_mut().enumerate() {
        *b = (i as u8).wrapping_mul(37).wrapping_add(200);
    }
    assert_eq!(Decimal::from_bytes(&bytes).to_bytes(), bytes);
    let ones = [0xffu8; ENCODED_LEN];
    let d = Decimal::from_bytes(&ones);
    assert_eq!((d.significand(), d.scale()), (-1, u32::MAX));
    assert_eq!(d.to_bytes(), ones);
}

#[test]
fn binary_form_agrees_with_bincode() {
    for (significand, scale) in [(1234i128, 3u32), (-1200, 2), (i128::MIN, u32::MAX)] {
        let d = Decimal::new(significand, scale);
        let encoded: Vec<u8> = bincode::serialize(&(significand, scale)).unwrap();
        assert_eq!(encoded, d.to_bytes().to_vec());
    }
}
