use decimal::{Decimal, DecimalVisitor, Error};

#[derive(Debug, Eq, PartialEq)]
struct Record {
    amount: Decimal,
}

/// Hands the literal to the visitor as a deserializer would.
fn visit(value: &serde_json::Value) -> Result<Decimal, Error> {
    let visitor = DecimalVisitor;
    match value {
        serde_json::Value::String(text) => visitor.visit_str(text),
        serde_json::Value::Number(number) => {
            if let Some(unsigned) = number.as_u64() {
                visitor.visit_u64(unsigned)
            } else if let Some(signed) = number.as_i64() {
                visitor.visit_i64(signed)
            } else {
                visitor.visit_f64_text(&number.as_f64().unwrap().to_string())
            }
        }
        _ => panic!("{}", visitor.expecting()),
    }
}

fn record_from_json(serialized: &str) -> Result<Record, Error> {
    let value: serde_json::Value = serde_json::from_str(serialized).unwrap();
    Ok(Record { amount: visit(&value["amount"])? })
}

fn record_to_json(record: &Record) -> String {
    let mut fields = serde_json::Map::new();
    fields.insert(
        String::from("amount"),
        serde_json::Value::String(record.amount.to_string()),
    );
    serde_json::to_string(&serde_json::Value::Object(fields)).unwrap()
}

#[test]
fn deserialize_valid_decimal() {
    let data = [
        ("{\"amount\":\"1.234\"}", "1.234"),
        ("{\"amount\":1234}", "1234"),
    ];
    for &(serialized, value) in data.iter() {
        let record: Record = record_from_json(serialized).unwrap();
        assert_eq!(value, record.amount.to_string());
    }
}

#[test]
#[should_panic]
fn deserialize_invalid_decimal() {
    let serialized = "{\"amount\":\"foo\"}";
    let _: Record = record_from_json(serialized).unwrap();
}

#[test]
fn serialize_decimal() {
    let record = Record { amount: Decimal::new(1234, 3) };
    let serialized = record_to_json(&record);
    assert_eq!("{\"amount\":\"1.234\"}", serialized);
}

#[test]
fn bincode() {
    let record = Record { amount: Decimal::new(1234, 3) };
    let encoded: Vec<u8> = record.amount.to_bytes().to_vec();
    let bytes: [u8; 20] = encoded[..].try_into().unwrap();
    let decoded = Record { amount: Decimal::from_bytes(&bytes) };

    assert_eq!(record, decoded);
    assert_eq!(decoded.amount.significand(), 1234);
    assert_eq!(decoded.amount.scale(), 3);
}

#[test]
fn bincode_2() {
    let decimal = Decimal::new(1234, 3);
    let encoded: Vec<u8> = bincode::serialize(&(decimal.significand(), decimal.scale())).unwrap();
    assert_eq!(encoded, decimal.to_bytes().to_vec());
    let decoded: (i128, u32) = bincode::deserialize(&decimal.to_bytes()[..]).unwrap();
    let decoded = Decimal::new(decoded.0, decoded.1);

    assert_eq!(decimal, decoded);
    assert_eq!((decoded.significand(), decoded.scale()), (1234, 3));
}

#[test]
fn deserialize_negative_and_fractional_numbers() {
    let record = record_from_json("{\"amount\":-17}").unwrap();
    assert_eq!("-17", record.amount.to_string());
    let record = record_from_json("{\"amount\":18446744073709551615}").unwrap();
    assert_eq!("18446744073709551615", record.amount.to_string());
    let record = record_from_json("{\"amount\":0.125}").unwrap();
    assert_eq!("0.125", record.amount.to_string());
    let record = record_from_json("{\"amount\":\"-0.50\"}").unwrap();
    assert_eq!("-0.50", record.amount.to_string());
}

#[test]
fn serialized_record_deserializes_to_itself() {
    for amount in [Decimal::new(1200, 2), Decimal::new(-5, 3), Decimal::new(0, 0)] {
        let record = Record { amount };
        let back = record_from_json(&record_to_json(&record)).unwrap();
        assert_eq!(back.amount.significand(), record.amount.significand());
        assert_eq!(back.amount.scale(), record.amount.scale());
    }
}
