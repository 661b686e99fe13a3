use rasterizer::scalar::Scalar;

struct Lcg(u64);

impl Lcg {
    fn next(&mut self) -> u64 {
        self.0 = self.0.wrapping_mul(6364136223846793005).wrapping_add(1442695040888963407);
        self.0 ^ (self.0 >> 29)
    }

    // a pattern: any at all, or one with its exponent near that of one
    fn pattern(&mut self) -> u32 {
        let raw = self.next();
        let bits = (raw >> 32) as u32;
        match raw % 4 {
            0 => bits,
            1 => (bits & 0x807F_FFFF) | ((100 + (raw >> 8) as u32 % 56) << 23),
            2 => (bits & 0x807F_FFFF) | ((120 + (raw >> 8) as u32 % 16) << 23),
            _ => (bits & 0x807F_FFFF) | (((raw >> 8) as u32 % 4) << 23),
        }
    }
}

fn special() -> Vec<f32> {
    vec![
        0.0,
        -0.0,
        1.0,
        -1.0,
        2.0,
        0.5,
        3.0,
        0.1,
        0.99,
        1.0e-45,
        -1.0e-45,
        1.1754942e-38,
        1.17549435e-38,
        1.1754945e-38,
        3.4028235e38,
        -3.4028235e38,
        1.7014117e38,
        16777216.0,
        16777215.0,
        f32::INFINITY,
        f32::NEG_INFINITY,
        f32::NAN,
    ]
}

fn same(got: Scalar, expected: f32, what: &str) {
    if expected.is_nan() {
        assert!(got.is_nan(), "{}: {:#x}", what, got.to_bits());
    } else {
        assert_eq!(got.to_bits(), expected.to_bits(), "{}", what);
    }
}

fn s(x: f32) -> Scalar {
    Scalar::from_bits(x.to_bits())
}

#[test]
fn times_agrees_with_the_processor() {
    for a in special() {
        for b in special() {
            same(s(a).times(&s(b)), a * b, &format!("{:e} * {:e}", a, b));
        }
    }
    let mut rng = Lcg(1);
    for _ in 0..200000 {
        let (a, b) = (f32::from_bits(rng.pattern()), f32::from_bits(rng.pattern()));
        same(s(a).times(&s(b)), a * b, &format!("{:e} * {:e}", a, b));
    }
}

#[test]
fn plus_agrees_with_the_processor() {
    for a in special() {
        for b in special() {
            same(s(a).plus(&s(b)), a + b, &format!("{:e} + {:e}", a, b));
        }
    }
    let mut rng = Lcg(2);
    for _ in 0..200000 {
        let (a, b) = (f32::from_bits(rng.pattern()), f32::from_bits(rng.pattern()));
        same(s(a).plus(&s(b)), a + b, &format!("{:e} + {:e}", a, b));
    }
}

#[test]
fn minus_agrees_with_the_processor() {
    for a in special() {
        for b in special() {
            same(s(a).minus(&s(b)), a - b, &format!("{:e} - {:e}", a, b));
        }
    }
    let mut rng = Lcg(3);
    for _ in 0..200000 {
        let (a, b) = (f32::from_bits(rng.pattern()), f32::from_bits(rng.pattern()));
        same(s(a).minus(&s(b)), a - b, &format!("{:e} - {:e}", a, b));
    }
}

#[test]
fn sums_of_near_numbers_agree_with_the_processor() {
    // numbers whose exponents differ by little, so that bits cancel
    let mut rng = Lcg(4);
    for _ in 0..200000 {
        let a = rng.pattern();
        let shift = (rng.next() % 30) as u32;
        let exponent = ((a >> 23) & 0xFF).saturating_sub(shift).min(254);
        let b = ((rng.next() as u32) & 0x807F_FFFF) | (exponent << 23);
        let (a, b) = (f32::from_bits(a), f32::from_bits(b));
        same(s(a).plus(&s(b)), a + b, &format!("{:e} + {:e}", a, b));
        same(s(a).minus(&s(b)), a - b, &format!("{:e} - {:e}", a, b));
        same(s(b).minus(&s(a)), b - a, &format!("{:e} - {:e}", b, a));
    }
}

#[test]
fn over_agrees_with_the_processor() {
    for a in special() {
        for b in special() {
            same(s(a).over(&s(b)), a / b, &format!("{:e} / {:e}", a, b));
        }
    }
    let mut rng = Lcg(5);
    for _ in 0..200000 {
        let (a, b) = (f32::from_bits(rng.pattern()), f32::from_bits(rng.pattern()));
        same(s(a).over(&s(b)), a / b, &format!("{:e} / {:e}", a, b));
    }
}

#[test]
fn sqrt_agrees_with_the_processor() {
    for a in special() {
        same(s(a).sqrt(), a.sqrt(), &format!("sqrt {:e}", a));
    }
    for a in [4.0f32, 9.0, 2.0, 0.25, 1.0e-40, 1.0e-44, 2.0e-45, 3.0e38, 16777216.0, 0.99] {
        same(s(a).sqrt(), a.sqrt(), &format!("sqrt {:e}", a));
    }
    let mut rng = Lcg(6);
    for _ in 0..200000 {
        let a = f32::from_bits(rng.pattern() & 0x7FFF_FFFF);
        same(s(a).sqrt(), a.sqrt(), &format!("sqrt {:e}", a));
    }
}

#[test]
fn whole_numbers_agree_with_the_cast() {
    for v in [0i32, 1, -1, 2, 255, 799, 16777215, 16777216, 16777217, 16777219, -16777217,
        33554431, 2147483647, -2147483647, i32::MIN, i32::MAX, 123456789, -987654321]
    {
        assert_eq!(Scalar::from_i32(v).to_bits(), (v as f32).to_bits(), "{}", v);
    }
    for v in [0usize, 1, 3, 255, 800, 16777217, 4294967295, usize::MAX, usize::MAX - 1,
        usize::MAX >> 1, (usize::MAX >> 40) + 1]
    {
        assert_eq!(Scalar::from_usize(v).to_bits(), (v as f32).to_bits(), "{}", v);
    }
    let mut rng = Lcg(8);
    for _ in 0..100000 {
        let v = rng.next();
        assert_eq!(Scalar::from_i32(v as i32).to_bits(), (v as i32 as f32).to_bits());
        let u = (v >> (rng.next() % 64)) as usize;
        assert_eq!(Scalar::from_usize(u).to_bits(), (u as f32).to_bits());
    }
}
