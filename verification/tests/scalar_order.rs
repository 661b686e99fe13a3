use rasterizer::scalar::{Scalar, INFINITY_BITS, ONE_BITS, SIGN_BIT};

fn s(x: f32) -> Scalar {
    Scalar::from_bits(x.to_bits())
}

fn samples() -> Vec<f32> {
    vec![
        f32::NEG_INFINITY,
        -3.0e38,
        -1000.5,
        -1.0,
        -0.99,
        -1.0e-40,
        -0.0,
        0.0,
        1.0e-45,
        1.0e-40,
        0.05,
        0.1,
        0.5,
        0.99,
        1.0,
        1.0000001,
        2.0,
        1000.5,
        3.0e38,
        f32::INFINITY,
        f32::NAN,
        -f32::NAN,
    ]
}

#[test]
fn constants_encode_what_they_say() {
    assert_eq!(ONE_BITS, 1.0f32.to_bits());
    assert_eq!(INFINITY_BITS, f32::INFINITY.to_bits());
    assert_eq!(SIGN_BIT, (-0.0f32).to_bits());
    assert_eq!(Scalar::one().to_bits(), 1.0f32.to_bits());
    assert_eq!(Scalar::zero().to_bits(), 0.0f32.to_bits());
}

#[test]
fn lt_agrees_with_the_numbers() {
    for a in samples() {
        for b in samples() {
            assert_eq!(s(a).lt(&s(b)), a < b, "{} < {}", a, b);
        }
    }
}

#[test]
fn le_agrees_with_the_numbers() {
    for a in samples() {
        for b in samples() {
            assert_eq!(s(a).le(&s(b)), a <= b, "{} <= {}", a, b);
        }
    }
}

#[test]
fn sign_tests_agree_with_the_numbers() {
    for a in samples() {
        assert_eq!(s(a).is_positive(), a > 0.0, "{} > 0", a);
        assert_eq!(s(a).is_non_negative(), a >= 0.0, "{} >= 0", a);
        assert_eq!(s(a).is_nan(), a.is_nan(), "{} is nan", a);
    }
}

#[test]
fn negated_flips_the_sign() {
    for a in samples() {
        assert_eq!(s(a).negated().to_bits(), (-a).to_bits(), "-{}", a);
    }
}

#[test]
fn ordinal_orders_as_the_numbers_do() {
    for a in samples() {
        for b in samples() {
            match (s(a).ordinal(), s(b).ordinal()) {
                (Some(x), Some(y)) => {
                    assert_eq!(x < y, a < b);
                    assert_eq!(x == y, a == b);
                }
                _ => assert!(a.is_nan() || b.is_nan()),
            }
        }
    }
    assert_eq!(s(0.0).ordinal(), Some(0));
    assert_eq!(s(-0.0).ordinal(), Some(0));
    assert_eq!(s(1.0).ordinal(), Some(0x3F80_0000));
    assert_eq!(s(-1.0).ordinal(), Some(-0x3F80_0000));
    assert_eq!(s(f32::NAN).ordinal(), None);
}
