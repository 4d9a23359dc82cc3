use categorical::binary64::{
    abs_bits, at_least, equal, greater, nan, negative, weight, whole, whole_exactly, zero,
};

fn samples() -> Vec<f64> {
    vec![
        0.0,
        -0.0,
        5e-324,
        -5e-324,
        f64::MIN_POSITIVE,
        2.2250738585072009e-308,
        0.25,
        0.5,
        0.8,
        0.9999999999999999,
        1.0,
        1.0000000000000002,
        1.5,
        2.0,
        3.2,
        4.0,
        4.5,
        1023.75,
        4503599627370496.0,
        4503599627370496.5,
        4503599627370497.0,
        9007199254740992.0,
        9007199254740994.0,
        9223372036854775808.0,
        18446744073709549568.0,
        18446744073709551616.0,
        1e300,
        f64::MAX,
        f64::INFINITY,
        f64::NEG_INFINITY,
        -1.0,
        -2.5,
        -1e300,
        f64::NAN,
        -f64::NAN,
    ]
}

#[test]
fn classification_agrees_with_the_numbers() {
    for x in samples() {
        let b = x.to_bits();
        assert_eq!(nan(b), x.is_nan(), "nan {}", x);
        assert_eq!(zero(b), x == 0.0, "zero {}", x);
        assert_eq!(negative(b), x < 0.0, "negative {}", x);
        assert_eq!(weight(b), x >= 0.0, "weight {}", x);
        assert_eq!(abs_bits(b), x.abs().to_bits(), "abs {}", x);
    }
}

#[test]
fn comparisons_agree_with_the_numbers() {
    for x in samples() {
        for y in samples() {
            let (a, b) = (x.to_bits(), y.to_bits());
            assert_eq!(greater(a, b), x > y, "{} > {}", x, y);
            assert_eq!(at_least(a, b), x >= y, "{} >= {}", x, y);
            assert_eq!(equal(a, b), x == y, "{} == {}", x, y);
        }
    }
}

#[test]
fn both_zeros_compare_equal() {
    assert!(equal(0.0f64.to_bits(), (-0.0f64).to_bits()));
    assert!(!greater(0.0f64.to_bits(), (-0.0f64).to_bits()));
    assert!(at_least((-0.0f64).to_bits(), 0.0f64.to_bits()));
}

#[test]
fn a_nan_compares_with_nothing() {
    let n = f64::NAN.to_bits();
    assert!(!greater(n, 0.0f64.to_bits()));
    assert!(!greater(0.0f64.to_bits(), n));
    assert!(!at_least(n, n));
    assert!(!equal(n, n));
}

#[test]
fn whole_part_agrees_with_truncation() {
    for x in samples() {
        if x.is_nan() {
            continue;
        }
        let expected = if x.abs() < 18446744073709551616.0 {
            Some(x.abs().trunc() as u64)
        } else {
            None
        };
        assert_eq!(whole(x.to_bits()), expected, "whole {}", x);
    }
}

#[test]
fn whole_part_exact_values() {
    assert_eq!(whole(0.0f64.to_bits()), Some(0));
    assert_eq!(whole(0.8f64.to_bits()), Some(0));
    assert_eq!(whole(1.0f64.to_bits()), Some(1));
    assert_eq!(whole(1.5f64.to_bits()), Some(1));
    assert_eq!(whole(3.2f64.to_bits()), Some(3));
    assert_eq!(whole(1023.75f64.to_bits()), Some(1023));
    assert_eq!(whole(9007199254740994.0f64.to_bits()), Some(9007199254740994));
    assert_eq!(whole(9223372036854775808.0f64.to_bits()), Some(1u64 << 63));
    assert_eq!(whole(18446744073709549568.0f64.to_bits()), Some(18446744073709549568));
    assert_eq!(whole(18446744073709551616.0f64.to_bits()), None);
    assert_eq!(whole(f64::INFINITY.to_bits()), None);
}

#[test]
fn wholeness_agrees_with_the_fractional_part() {
    for x in samples() {
        if !x.is_finite() {
            continue;
        }
        assert_eq!(whole_exactly(x.to_bits()), x.fract() == 0.0, "whole_exactly {}", x);
    }
}

#[test]
fn wholeness_over_a_grid_of_quarters() {
    let mut i: u32 = 0;
    while i < 4000 {
        let x = f64::from(i) / 4.0;
        assert_eq!(whole(x.to_bits()), Some(u64::from(i / 4)));
        assert_eq!(whole_exactly(x.to_bits()), i % 4 == 0);
        i += 1;
    }
}
