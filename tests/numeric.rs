use std::str::FromStr;

use bigdecimal::BigDecimal;
use num_bigint::{BigInt, BigUint, Sign};
use pg_numeric::numeric::{Decimal, DecodeError, PgNumeric};

fn decimal(text: &str) -> Decimal {
    let (int, scale) = BigDecimal::from_str(text).unwrap().as_bigint_and_exponent();
    let (sign, magnitude) = int.to_u32_digits();
    Decimal { negative: sign == Sign::Minus, magnitude, scale }
}

fn encode(text: &str) -> PgNumeric {
    PgNumeric::from_decimal(&decimal(text))
}

fn int_decimal(n: u64) -> Decimal {
    let magnitude = vec![n as u32, (n >> 32) as u32];
    Decimal { negative: false, magnitude, scale: 0 }
}

fn normalized(mut limbs: Vec<u32>) -> Vec<u32> {
    while limbs.last() == Some(&0) {
        limbs.pop();
    }
    limbs
}

#[test]
fn bigdecimal_to_pgnumeric_converts_digits_to_base_10000() {
    let expected = PgNumeric::Positive { weight: 0, scale: 0, digits: vec![1] };
    assert_eq!(expected, encode("1"));

    let expected = PgNumeric::Positive { weight: 0, scale: 0, digits: vec![10] };
    assert_eq!(expected, encode("10"));

    let expected = PgNumeric::Positive { weight: 1, scale: 0, digits: vec![1, 0] };
    assert_eq!(expected, encode("10000"));

    let expected = PgNumeric::Positive { weight: 1, scale: 0, digits: vec![1, 1] };
    assert_eq!(expected, encode("10001"));

    let expected = PgNumeric::Positive { weight: 2, scale: 0, digits: vec![1, 0, 0] };
    assert_eq!(expected, encode("100000000"));
}

#[test]
fn bigdecimal_to_pg_numeric_properly_adjusts_scale() {
    let expected = PgNumeric::Positive { weight: 0, scale: 0, digits: vec![1] };
    assert_eq!(expected, encode("1"));

    let expected = PgNumeric::Positive { weight: 0, scale: 1, digits: vec![1] };
    assert_eq!(expected, encode("1.0"));

    let expected = PgNumeric::Positive { weight: 0, scale: 1, digits: vec![1, 1000] };
    assert_eq!(expected, encode("1.1"));

    let expected = PgNumeric::Positive { weight: 0, scale: 2, digits: vec![1, 1000] };
    assert_eq!(expected, encode("1.10"));

    let expected = PgNumeric::Positive { weight: 2, scale: 4, digits: vec![1, 0, 0, 1] };
    assert_eq!(expected, encode("100000000.0001"));

    let expected = PgNumeric::Positive { weight: -1, scale: 1, digits: vec![1000] };
    assert_eq!(expected, encode("0.1"));
}

#[test]
fn bigdecimal_to_pg_numeric_retains_sign() {
    let expected = PgNumeric::Positive { weight: 0, scale: 3, digits: vec![123, 4560] };
    assert_eq!(expected, encode("123.456"));

    let expected = PgNumeric::Negative { weight: 0, scale: 3, digits: vec![123, 4560] };
    assert_eq!(expected, encode("-123.456"));
}

#[test]
fn encodes_negative_value_with_same_digits() {
    for text in ["0.1", "10001", "100000000.0001", "42.00017"] {
        let pos = encode(text);
        let neg = encode(&format!("-{}", text));
        match (pos, neg) {
            (
                PgNumeric::Positive { weight: w1, scale: s1, digits: d1 },
                PgNumeric::Negative { weight: w2, scale: s2, digits: d2 },
            ) => {
                assert_eq!(w1, w2);
                assert_eq!(s1, s2);
                assert_eq!(d1, d2);
            }
            other => panic!("unexpected tags: {:?}", other),
        }
    }
}

#[test]
fn zero_encodes_canonically_at_any_scale() {
    let canonical = PgNumeric::Positive { weight: 0, scale: 0, digits: vec![0] };
    for scale in [0i64, 1, 3, 4, 7, 100] {
        for negative in [false, true] {
            let d = Decimal { negative, magnitude: vec![0, 0], scale };
            assert_eq!(canonical, PgNumeric::from_decimal(&d));
        }
    }
    assert_eq!(canonical, encode("0.000"));
    assert_eq!(canonical, PgNumeric::from_decimal(&Decimal { negative: false, magnitude: vec![], scale: 2 }));
}

#[test]
fn encodes_value_below_first_fractional_digit() {
    let expected = PgNumeric::Positive { weight: -2, scale: 5, digits: vec![1000] };
    assert_eq!(expected, encode("0.00001"));

    let expected = PgNumeric::Positive { weight: -1, scale: 4, digits: vec![1] };
    assert_eq!(expected, encode("0.0001"));
}

#[test]
fn encodes_across_limb_boundary() {
    // 2^32 = 42 9496 7296
    let d = Decimal { negative: false, magnitude: vec![0, 1], scale: 0 };
    let expected = PgNumeric::Positive { weight: 2, scale: 0, digits: vec![42, 9496, 7296] };
    assert_eq!(expected, PgNumeric::from_decimal(&d));
}

#[test]
fn decoding_nan_is_unsupported() {
    assert_eq!(Err(DecodeError::UnsupportedValue), Decimal::from_numeric(&PgNumeric::NaN));
}

#[test]
fn decodes_signed_fraction() {
    let n = PgNumeric::Negative { weight: 0, scale: 3, digits: vec![123, 4560] };
    let expected = Decimal { negative: true, magnitude: vec![1234560], scale: 4 };
    assert_eq!(Ok(expected), Decimal::from_numeric(&n));
}

#[test]
fn decodes_with_padding_kept() {
    let n = PgNumeric::Positive { weight: -1, scale: 2, digits: vec![100] };
    let expected = Decimal { negative: false, magnitude: vec![100], scale: 4 };
    assert_eq!(Ok(expected), Decimal::from_numeric(&n));
}

#[test]
fn decodes_large_weight_to_negative_scale() {
    let n = PgNumeric::Positive { weight: 2, scale: 0, digits: vec![1] };
    let expected = Decimal { negative: false, magnitude: vec![1], scale: -8 };
    assert_eq!(Ok(expected), Decimal::from_numeric(&n));
}

#[test]
fn decodes_beyond_one_limb() {
    let n = PgNumeric::Positive { weight: 2, scale: 0, digits: vec![42, 9496, 7296] };
    let expected = Decimal { negative: false, magnitude: vec![0, 1], scale: 0 };
    assert_eq!(Ok(expected), Decimal::from_numeric(&n));
}

#[test]
fn integers_round_trip_at_scale_zero() {
    for n in [0u64, 1, 9999, 10000, 10001, 123456789, u32::MAX as u64 + 5, u64::MAX] {
        let d = int_decimal(n);
        let wire = PgNumeric::from_decimal(&d);
        let back = Decimal::from_numeric(&wire).unwrap();
        assert!(!back.negative);
        assert_eq!(back.scale, 0);
        assert_eq!(normalized(back.magnitude), normalized(d.magnitude));
    }
}

#[test]
fn decimal_values_round_trip() {
    for text in ["1.0", "0.01", "-123.456", "100000000.0001", "0.00001", "98765.4321", "7"] {
        let original = BigDecimal::from_str(text).unwrap();
        let back = Decimal::from_numeric(&encode(text)).unwrap();
        assert!(back.scale >= 0);
        let sign = if back.negative { Sign::Minus } else { Sign::Plus };
        let int = BigInt::from_biguint(sign, BigUint::new(back.magnitude));
        assert_eq!(original, BigDecimal::new(int, back.scale), "{}", text);
    }
}
