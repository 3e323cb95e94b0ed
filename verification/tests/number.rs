use wasmbrot::number::{positive_finite, same_number, strip_sign, INFINITY_BITS, SIGN_BIT};
use wasmbrot::ComplexBits;

fn samples() -> Vec<f64> {
    vec![
        0.0,
        -0.0,
        1.0,
        -1.0,
        0.5,
        2.0,
        -2.0,
        f64::MIN_POSITIVE,
        -f64::MIN_POSITIVE,
        5e-324,
        -5e-324,
        f64::MAX,
        f64::MIN,
        f64::INFINITY,
        f64::NEG_INFINITY,
        f64::NAN,
        -f64::NAN,
        f64::from_bits(0x7ff0_0000_0000_0001),
        f64::from_bits(0xfff0_0000_0000_0001),
        f64::from_bits(0x7fff_ffff_ffff_ffff),
        f64::EPSILON,
        1.0 + f64::EPSILON,
    ]
}

#[test]
fn same_number_agrees_with_float_equality() {
    for a in samples() {
        for b in samples() {
            assert_eq!(same_number(a.to_bits(), b.to_bits()), a == b, "{a:?} {b:?}");
        }
    }
}

#[test]
fn same_number_on_named_patterns() {
    assert!(same_number(0, SIGN_BIT));
    assert!(same_number(INFINITY_BITS, INFINITY_BITS));
    assert!(!same_number(INFINITY_BITS, INFINITY_BITS | SIGN_BIT));
    assert!(!same_number(INFINITY_BITS + 1, INFINITY_BITS + 1));
    assert!(!same_number(1, 2));
    assert!(same_number(0x3ff0_0000_0000_0000, 0x3ff0_0000_0000_0000));
}

#[test]
fn strip_sign_clears_only_the_sign() {
    assert_eq!(strip_sign(0), 0);
    assert_eq!(strip_sign(SIGN_BIT), 0);
    assert_eq!(strip_sign(u64::MAX), 0x7fff_ffff_ffff_ffff);
    assert_eq!(strip_sign(0xbff0_0000_0000_0000), 0x3ff0_0000_0000_0000);
    for a in samples() {
        assert_eq!(strip_sign(a.to_bits()), a.abs().to_bits());
    }
}

#[test]
fn positive_finite_agrees_with_floats() {
    for a in samples() {
        assert_eq!(positive_finite(a.to_bits()), a.is_finite() && a > 0.0, "{a:?}");
    }
    assert!(positive_finite(1));
    assert!(positive_finite(INFINITY_BITS - 1));
    assert!(!positive_finite(INFINITY_BITS));
    assert!(!positive_finite(0));
}

#[test]
fn complex_numbers_match_part_by_part() {
    let one = 1.0f64.to_bits();
    let two = 2.0f64.to_bits();
    let nan = f64::NAN.to_bits();
    assert!(ComplexBits::new(one, two).matches(&ComplexBits::new(one, two)));
    assert!(!ComplexBits::new(one, two).matches(&ComplexBits::new(two, one)));
    assert!(!ComplexBits::new(one, two).matches(&ComplexBits::new(one, one)));
    assert!(ComplexBits::new(0, SIGN_BIT).matches(&ComplexBits::new(SIGN_BIT, 0)));
    assert!(!ComplexBits::new(nan, one).matches(&ComplexBits::new(nan, one)));
    assert!(!ComplexBits::new(one, nan).matches(&ComplexBits::new(one, nan)));
}
