use microservicedb::float::{add_floats, equal, finite, from_signed, from_unsigned, less, multiply_floats};

fn samples() -> Vec<f64> {
    vec![
        0.0, -0.0, 1.0, -1.0, 0.5, 1.5, 3.141592653589793, -2.718281828459045, 1e-300, -1e-300, 1e300, -1e300,
        f64::MIN_POSITIVE, 5e-324, -5e-324, 2.2250738585072011e-308, f64::MAX, f64::MIN, 9007199254740992.0,
        9007199254740993.0, 0.1, 0.2, 0.3, 1e16, 1e-16, 123456789.123456789, f64::INFINITY, f64::NEG_INFINITY,
    ]
}

#[test]
fn order_and_equality_agree_with_the_machine() {
    for a in samples() {
        for b in samples() {
            if a.is_finite() && b.is_finite() {
                assert_eq!(less(a.to_bits(), b.to_bits()), a < b, "{a} {b}");
                assert_eq!(equal(a.to_bits(), b.to_bits()), a == b, "{a} {b}");
            }
        }
    }
}

#[test]
fn sums_agree_with_the_machine() {
    for a in samples() {
        for b in samples() {
            if a.is_finite() && b.is_finite() {
                assert_eq!(add_floats(a.to_bits(), b.to_bits()), (a + b).to_bits(), "{a} + {b}");
            }
        }
    }
}

#[test]
fn products_agree_with_the_machine() {
    for a in samples() {
        for b in samples() {
            if a.is_finite() && b.is_finite() {
                assert_eq!(multiply_floats(a.to_bits(), b.to_bits()), (a * b).to_bits(), "{a} * {b}");
            }
        }
    }
}

#[test]
fn sums_and_products_of_many_patterns_agree_with_the_machine() {
    let mut x: u64 = 0x9e3779b97f4a7c15;
    let mut values: Vec<f64> = Vec::new();
    while values.len() < 300 {
        x ^= x << 13;
        x ^= x >> 7;
        x ^= x << 17;
        let f = f64::from_bits(x);
        if f.is_finite() {
            values.push(f);
        }
        let near = f64::from_bits((x & 0x800f_ffff_ffff_ffff) | 0x3fe0_0000_0000_0000);
        values.push(near);
    }
    for a in &values {
        for b in &values {
            assert_eq!(add_floats(a.to_bits(), b.to_bits()), (a + b).to_bits(), "{a:e} + {b:e}");
            assert_eq!(multiply_floats(a.to_bits(), b.to_bits()), (a * b).to_bits(), "{a:e} * {b:e}");
        }
    }
}

#[test]
fn integers_become_the_nearest_float() {
    for n in [0u64, 1, 2, 1 << 52, (1 << 53) + 1, (1 << 54) + 3, u64::MAX, u64::MAX - 1024, 12345678901234567890] {
        assert_eq!(from_unsigned(n), (n as f64).to_bits());
    }
    for n in [0i64, -1, 1, i64::MIN, i64::MAX, -(1 << 53) - 1, 42] {
        assert_eq!(from_signed(n), (n as f64).to_bits());
    }
}

#[test]
fn finite_numbers_are_told_from_the_others() {
    assert!(finite(1.5f64.to_bits()));
    assert!(!finite(f64::INFINITY.to_bits()));
    assert!(!finite(f64::NAN.to_bits()));
}
