use rasterizer::scalar::Scalar;

fn s(x: f32) -> Scalar {
    Scalar::from_bits(x.to_bits())
}

fn interesting() -> Vec<f32> {
    let mut values = vec![
        0.0,
        -0.0,
        1.0e-45,
        1.0e-40,
        0.25,
        0.5,
        0.99,
        0.99999994,
        1.0,
        1.0000001,
        1.5,
        1.9999999,
        2.0,
        2.5,
        3.9999998,
        254.99998,
        255.0,
        255.5,
        256.0,
        799.9999,
        800.0,
        65535.5,
        8388607.5,
        8388608.0,
        16777215.0,
        16777216.0,
        16777218.0,
        2147483520.0,
        2147483648.0,
        2147483904.0,
        4294967040.0,
        4294967296.0,
        1.0e10,
        9223371487098961920.0,
        9223372036854775808.0,
        18446742974197923840.0,
        18446744073709551616.0,
        1.0e20,
        1.0e30,
        3.4028235e38,
        f32::INFINITY,
        f32::NAN,
    ];
    let negatives: Vec<f32> = values.iter().map(|v| -v).collect();
    values.extend(negatives);
    values
}

#[test]
fn to_i32_agrees_with_the_cast() {
    for v in interesting() {
        assert_eq!(s(v).to_i32(), v as i32, "{}", v);
    }
}

#[test]
fn to_usize_agrees_with_the_cast() {
    for v in interesting() {
        assert_eq!(s(v).to_usize(), v as usize, "{}", v);
    }
}

#[test]
fn to_u8_agrees_with_the_cast() {
    for v in interesting() {
        assert_eq!(s(v).to_u8(), v as u8, "{}", v);
    }
}

#[test]
fn conversions_agree_with_the_casts_on_every_exponent() {
    // every exponent, with a few fractions each, both signs
    for exponent in 0u32..256 {
        for fraction in [0u32, 1, 0x40_0000, 0x55_5555, 0x7F_FFFF] {
            for sign in [0u32, 0x8000_0000] {
                let bits = sign | (exponent << 23) | fraction;
                let v = f32::from_bits(bits);
                let scalar = Scalar::from_bits(bits);
                assert_eq!(scalar.to_i32(), v as i32, "{:#x}", bits);
                assert_eq!(scalar.to_usize(), v as usize, "{:#x}", bits);
                assert_eq!(scalar.to_u8(), v as u8, "{:#x}", bits);
            }
        }
    }
}

#[test]
fn whole_part_cuts_towards_zero() {
    assert_eq!(s(2.9).to_i32(), 2);
    assert_eq!(s(-2.9).to_i32(), -2);
    assert_eq!(s(-0.9).to_i32(), 0);
    assert_eq!(s(-0.9).to_usize(), 0);
    assert_eq!(s(-7.0).to_usize(), 0);
    assert_eq!(s(-7.0).to_u8(), 0);
    assert_eq!(s(300.0).to_u8(), 255);
    assert_eq!(s(127.5).to_u8(), 127);
    assert_eq!(s(f32::NAN).to_i32(), 0);
    assert_eq!(s(f32::INFINITY).to_i32(), i32::MAX);
    assert_eq!(s(f32::NEG_INFINITY).to_i32(), i32::MIN);
    assert_eq!(s(f32::INFINITY).to_usize(), usize::MAX);
}
