use ranker::number::{INFINITY_BITS, SIGN_BIT};
use ranker::Number;

fn key_of(value: f64) -> i64 {
    match Number::from_bits(value.to_bits()) {
        Some(number) => number.key(),
        None => panic!("{value} is a number"),
    }
}

#[test]
fn zero_has_the_all_clear_pattern() {
    assert_eq!(Number::zero().to_bits(), 0);
    assert_eq!(Number::zero().to_bits(), 0.0f64.to_bits());
    assert_eq!(Number::zero().key(), 0);
}

#[test]
fn infinity_has_the_pattern_of_positive_infinity() {
    assert_eq!(Number::infinity().to_bits(), INFINITY_BITS);
    assert_eq!(Number::infinity().to_bits(), f64::INFINITY.to_bits());
    assert_eq!(Number::infinity().key(), 0x7FF0_0000_0000_0000);
}

#[test]
fn the_sign_bit_is_the_top_bit() {
    assert_eq!(SIGN_BIT, 1u64 << 63);
    assert_eq!((-0.0f64).to_bits(), SIGN_BIT);
}

#[test]
fn a_number_keeps_its_bits() {
    for value in [0.0, -0.0, 1.0, -1.0, 3.5, 1e308, -1e-308, f64::MAX, f64::MIN, f64::MIN_POSITIVE] {
        let number = Number::from_bits(value.to_bits());
        assert!(number.is_some());
        assert_eq!(number.unwrap().to_bits(), value.to_bits());
    }
}

#[test]
fn nan_is_no_number() {
    assert!(Number::from_bits(f64::NAN.to_bits()).is_none());
    assert!(Number::from_bits((-f64::NAN).to_bits()).is_none());
    assert!(Number::from_bits(0x7FF0_0000_0000_0001).is_none());
    assert!(Number::from_bits(0xFFF0_0000_0000_0001).is_none());
    assert!(Number::from_bits(0x7FFF_FFFF_FFFF_FFFF).is_none());
    assert!(Number::from_bits(u64::MAX).is_none());
}

#[test]
fn infinities_are_numbers() {
    let positive = Number::from_bits(f64::INFINITY.to_bits()).unwrap();
    let negative = Number::from_bits(f64::NEG_INFINITY.to_bits()).unwrap();
    assert_eq!(positive.to_bits(), 0x7FF0_0000_0000_0000);
    assert_eq!(negative.to_bits(), 0xFFF0_0000_0000_0000);
    assert_eq!(positive.key(), 0x7FF0_0000_0000_0000);
    assert_eq!(negative.key(), -0x7FF0_0000_0000_0000);
}

#[test]
fn the_key_is_the_signed_magnitude() {
    assert_eq!(key_of(1.0), 0x3FF0_0000_0000_0000);
    assert_eq!(key_of(-1.0), -0x3FF0_0000_0000_0000);
    assert_eq!(key_of(3.0), 0x4008_0000_0000_0000);
    assert_eq!(key_of(5.0), 0x4014_0000_0000_0000);
    assert_eq!(key_of(f64::MAX), 0x7FEF_FFFF_FFFF_FFFF);
    assert_eq!(key_of(f64::MIN), -0x7FEF_FFFF_FFFF_FFFF);
    assert_eq!(key_of(f64::MIN_POSITIVE), 0x0010_0000_0000_0000);
    assert_eq!(key_of(f64::from_bits(1)), 1);
    assert_eq!(key_of(-f64::from_bits(1)), -1);
}

#[test]
fn both_zeros_have_the_key_zero() {
    assert_eq!(key_of(0.0), 0);
    assert_eq!(key_of(-0.0), 0);
}

#[test]
fn keys_order_as_the_values_do() {
    let ascending = [
        f64::NEG_INFINITY,
        f64::MIN,
        -1e300,
        -123456.789,
        -2.0,
        -1.0000000000000002,
        -1.0,
        -0.5,
        -f64::MIN_POSITIVE,
        -f64::from_bits(1),
        0.0,
        f64::from_bits(1),
        f64::MIN_POSITIVE,
        0.1,
        0.5,
        1.0,
        1.0000000000000002,
        2.0,
        3.0,
        5.0,
        9007199254740992.0,
        1e300,
        f64::MAX,
        f64::INFINITY,
    ];
    for pair in ascending.windows(2) {
        assert!(pair[0] < pair[1]);
        assert!(key_of(pair[0]) < key_of(pair[1]), "{} before {}", pair[0], pair[1]);
    }
}

#[test]
fn keys_compare_as_the_values_do_pairwise() {
    let values = [-7.25, -0.0, 0.0, 1e-320, 0.25, 4.0, 4.0, 1e19, -1e19, f64::INFINITY];
    for left in values {
        for right in values {
            assert_eq!(left < right, key_of(left) < key_of(right), "{left} < {right}");
            assert_eq!(left == right, key_of(left) == key_of(right), "{left} == {right}");
        }
    }
}

#[test]
fn keys_compare_as_the_values_do_over_many_patterns() {
    let mut seed: u64 = 0x9E37_79B9_7F4A_7C15;
    let mut patterns = Vec::new();
    while patterns.len() < 400 {
        seed ^= seed << 13;
        seed ^= seed >> 7;
        seed ^= seed << 17;
        if Number::from_bits(seed).is_some() {
            patterns.push(seed);
        }
    }
    patterns.extend([0, SIGN_BIT, 1, SIGN_BIT + 1, INFINITY_BITS, SIGN_BIT + INFINITY_BITS]);
    for &left in &patterns {
        for &right in &patterns {
            let ordering = f64::from_bits(left).partial_cmp(&f64::from_bits(right)).unwrap();
            let left_key = Number::from_bits(left).unwrap().key();
            let right_key = Number::from_bits(right).unwrap().key();
            assert_eq!(left_key.cmp(&right_key), ordering, "{left:#x} and {right:#x}");
        }
    }
}

#[test]
fn from_bits_refuses_exactly_the_nans() {
    let mut seed: u64 = 0x2545_F491_4F6C_DD1D;
    for _ in 0..20_000 {
        seed ^= seed << 13;
        seed ^= seed >> 7;
        seed ^= seed << 17;
        // Half of the patterns get every exponent bit set, so that NaNs are common.
        let bits = if seed & 1 == 0 { seed } else { seed | INFINITY_BITS };
        assert_eq!(Number::from_bits(bits).is_none(), f64::from_bits(bits).is_nan(), "{bits:#x}");
    }
}
