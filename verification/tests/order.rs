use leptos_chartistry::order::{float_lt_bits, is_nan_bits, total_order_key};

fn samples() -> Vec<f64> {
    vec![
        f64::NAN,
        -f64::NAN,
        f64::NEG_INFINITY,
        -1.5e300,
        -2.0,
        -1.0,
        -f64::MIN_POSITIVE,
        -5e-324,
        -0.0,
        0.0,
        5e-324,
        f64::MIN_POSITIVE,
        1.0,
        1.0000000000000002,
        2.0,
        1.5e300,
        f64::INFINITY,
    ]
}

#[test]
fn nan_patterns_are_recognised() {
    assert!(is_nan_bits(f64::NAN.to_bits()));
    assert!(is_nan_bits((-f64::NAN).to_bits()));
    assert!(is_nan_bits(0x7ff0_0000_0000_0001));
    assert!(!is_nan_bits(f64::INFINITY.to_bits()));
    assert!(!is_nan_bits(f64::NEG_INFINITY.to_bits()));
    assert!(!is_nan_bits(0.0f64.to_bits()));
    assert!(!is_nan_bits(1.0f64.to_bits()));
}

#[test]
fn float_lt_agrees_with_f64_less_than() {
    for a in samples() {
        for b in samples() {
            assert_eq!(float_lt_bits(a.to_bits(), b.to_bits()), a < b, "{} < {}", a, b);
        }
    }
}

#[test]
fn zeros_are_equal_and_nan_unordered() {
    assert!(!float_lt_bits((-0.0f64).to_bits(), 0.0f64.to_bits()));
    assert!(!float_lt_bits(0.0f64.to_bits(), (-0.0f64).to_bits()));
    assert!(!float_lt_bits(f64::NAN.to_bits(), 1.0f64.to_bits()));
    assert!(!float_lt_bits(1.0f64.to_bits(), f64::NAN.to_bits()));
    assert!(float_lt_bits((-1.0f64).to_bits(), 0.0f64.to_bits()));
}

#[test]
fn total_order_key_agrees_with_total_cmp() {
    for a in samples() {
        for b in samples() {
            let by_key = total_order_key(a.to_bits()).cmp(&total_order_key(b.to_bits()));
            assert_eq!(by_key, a.total_cmp(&b), "{} vs {}", a, b);
        }
    }
}

#[test]
fn total_order_key_values() {
    assert_eq!(total_order_key(0.0f64.to_bits()), 0);
    assert_eq!(total_order_key((-0.0f64).to_bits()), -1);
    assert_eq!(total_order_key(1.0f64.to_bits()), 0x3FF0_0000_0000_0000);
    assert_eq!(total_order_key((-1.0f64).to_bits()), -1 - 0x3FF0_0000_0000_0000);
}
