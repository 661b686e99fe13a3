use rasterizer::number::{read_number, Reading};

struct Lcg(u64);

impl Lcg {
    fn next(&mut self) -> u64 {
        self.0 = self.0.wrapping_mul(6364136223846793005).wrapping_add(1442695040888963407);
        self.0 ^ (self.0 >> 29)
    }
}

// what the reader makes of the text, against what the standard library makes of it
fn check(text: &str) {
    let expected = text.parse::<f32>();
    match read_number(text.as_bytes()) {
        Reading::Number(got) => {
            let value = expected.unwrap_or_else(|_| panic!("{:?} is read, but is no number", text));
            if value.is_nan() {
                assert!(got.is_nan(), "{:?}", text);
            } else {
                assert_eq!(got.to_bits(), value.to_bits(), "{:?}", text);
            }
        }
        Reading::Malformed => {
            assert!(expected.is_err(), "{:?} is a number", text);
        }
    }
}

#[test]
fn numerals_of_mesh_files() {
    for text in [
        "0", "1", "-1", "1.0", "-1.0", "0.5", "-0.5", "1.000000", "-1.000000", "0.000000",
        "0.123456", "-0.654321", "12.345678", "100.000000", "0.000001", "-0.000001", "3.14159",
        "2.718281828", "1e0", "1e1", "1e-1", "1E5", "1.5e3", "1.5E-3", "-2.5e+2", "+7.25", ".5",
        "5.", "-.5", "+.5e1", "0.1", "0.2", "0.3", "0.7", "0.99", "16777217", "16777216.5",
        "16777217.0", "33554434", "0.1e1", "123456789012345678", "1234567890123456789012345678",
    ] {
        check(text);
        assert!(matches!(read_number(text.as_bytes()), Reading::Number(_)), "{:?}", text);
    }
}

#[test]
fn numerals_at_the_ends_of_the_range() {
    for text in [
        "3.4028235e38", "3.4028234e38", "3.4028236e38", "3.40282357e38", "3.40282356e38",
        "34028235000000000000000000000000000000", "1e38", "1e39", "1e40", "9e99", "1e1000", "1e99999",
        "1.17549435e-38", "1.1754942e-38", "1e-38", "1e-39", "1e-44", "1e-45", "1.4e-45", "7e-46",
        "7.1e-46", "0.7e-45", "1e-46", "1e-50", "1e-54", "2e-54", "0e-1000", "0.0e99999", "-0e5",
        "0.000000000000000000000000000000000000000000001",
        "0.0000000000000000000000000000000000000000000007006492",
        "0.0000000000000000000000000000000000000000000007006493",
        "inf", "-inf", "+inf", "INF", "Infinity", "-INFINITY", "nan", "NaN", "-nan", "+NAN",
    ] {
        check(text);
        assert!(matches!(read_number(text.as_bytes()), Reading::Number(_)), "{:?}", text);
    }
}

#[test]
fn long_numerals_are_read_right() {
    for text in [
        "340282350000000000000000000000000000000",
        "340282346638528859811704183484516925440",
        "340282356779733661637539395458142568447",
        "340282356779733661637539395458142568448",
        "0.00000000000000000000000000000000000000000000070064923216240854",
        "0.00000000000000000000000000000000000000000000070064923216240853",
        "16777217.00000000000000000000000000000000000000000000000001",
        "1.00000005960464477539062500000000000000000000000000000001",
    ] {
        check(text);
    }
}

#[test]
fn what_is_no_numeral() {
    for text in [
        "", "+", "-", ".", "+.", "-.", "e", "e5", "1e", "1e+", "1e-", "1.e", ".e5", "1..0", "1.0.0",
        "1,0", " 1", "1 ", "1.0\r", "0x10", "1f", "1e5.0", "1e5e5", "--1", "+-1", "1-", "in", "infi",
        "infinit", "infinityx", "na", "nann", "i", "n", "1_000", "1e 5", "e", "E", "abc", "1.0a",
    ] {
        check(text);
        assert_eq!(read_number(text.as_bytes()), Reading::Malformed, "{:?}", text);
    }
}

fn bits(text: &str) -> u32 {
    match read_number(text.as_bytes()) {
        Reading::Number(got) => got.to_bits(),
        Reading::Malformed => panic!("{:?} is not read", text),
    }
}

#[test]
fn numerals_beyond_machine_words_are_read() {
    for text in [
        // more digits than a machine word holds
        "123456789012345678901234567890123456789012345678901234567890",
        "1.0000000000000000000000000000000000000000000000000000000000",
        "0.1000000000000000000000000000000000000000000000000000000000",
        "16777217.0000000000000000000000000000000000000000000000000000000001",
        "16777216.9999999999999999999999999999999999999999999999999999999999",
        "340282356779733661637539395458142568447.99999999999999999999",
        "0.00000000000000000000000000000000000000000000070064923216240853546186479164495806564013097093825788587853",
        "0.00000000000000000000000000000000000000000000070064923216240853546186479164495806564013097093825788587854",
        // a fraction finer than a machine word takes
        "1234567890123e-60",
        "1234567890123e-58",
        "123456789e-50",
        "7006492321624085e-61",
        "7006492321624086e-61",
        // exponents far out
        "1e-1000000",
        "1e1000000",
        "-1e1000000",
        "0.0001e1000000",
        "1e-999999",
    ] {
        check(text);
        assert!(matches!(read_number(text.as_bytes()), Reading::Number(_)), "{:?}", text);
    }
    assert_eq!(bits("123456789012345678901234567890123456789012345678901234567890"), 0x7F80_0000);
    assert_eq!(bits("1.0000000000000000000000000000000000000000000000000000000000"), 0x3F80_0000);
    assert_eq!(bits("1234567890123e-60"), 1234567890123e-60f32.to_bits());
    assert_eq!(bits("1e-1000000"), 0);
    assert_eq!(bits("-1e-1000000"), 0x8000_0000);
    assert_eq!(bits("1e1000000"), 0x7F80_0000);
    assert_eq!(bits("1e99999999999999999999999999999999999999999"), 0x7F80_0000);
    assert_eq!(bits("-1e99999999999999999999999999999999999999999"), 0xFF80_0000);
    assert_eq!(bits("1e-99999999999999999999999999999999999999999"), 0);
    assert_eq!(bits("0e99999999999999999999999999999999999999999"), 0);
    // and still a numeral is told from what is none
    assert_eq!(
        read_number(b"123456789012345678901234567890123456789012345678901234567890x"),
        Reading::Malformed
    );
    assert_eq!(read_number(b"1e1000000e"), Reading::Malformed);
}

#[test]
fn numerals_of_thousands_of_digits_are_read() {
    // a one behind two thousand zeros, brought back by its exponent
    let small = format!("0.{}1e2001", "0".repeat(2000));
    assert_eq!(bits(&small), 0x3F80_0000);
    check(&small);
    // a one before two thousand zeros, brought down by its exponent
    let large = format!("1{}e-2000", "0".repeat(2000));
    assert_eq!(bits(&large), 0x3F80_0000);
    check(&large);
    // half way between one and the next number, and a hair to either side
    let middle = "1.00000005960464477539062500000";
    assert_eq!(bits(middle), 0x3F80_0000);
    let above = format!("{}{}1", middle, "0".repeat(1500));
    assert_eq!(bits(&above), 0x3F80_0001);
    let below = format!("1.000000059604644775390624{}", "9".repeat(1500));
    assert_eq!(bits(&below), 0x3F80_0000);
    // between the next two it goes up, to the even one
    let upper = "1.00000017881393432617187500000";
    assert_eq!(bits(upper), 0x3F80_0002);
    let under = format!("1.000000178813934326171874{}", "9".repeat(1500));
    assert_eq!(bits(&under), 0x3F80_0001);
    // a one behind a hundred thousand zeros, of which nothing is left, and brought back
    let far = format!("0.{}1", "0".repeat(100_000));
    assert_eq!(bits(&far), 0);
    assert_eq!(bits(&format!("-{}e100001", far)), 0xBF80_0000);
    assert_eq!(bits(&format!("{}e100040", far)), 0x7F80_0000);
    // long digits with nothing in them
    assert_eq!(bits(&format!("-{}.{}e77", "0".repeat(700), "0".repeat(700))), 0x8000_0000);
    // about half of the least number, and that with a hair more
    let half = "0.7006492321624085354618647916449580656401309709382578858785341419448955413429303";
    check(&format!("{}e-45", half));
    check(&format!("{}{}1e-45", half, "9".repeat(300)));
}

#[test]
fn random_numerals_agree_with_the_standard_library() {
    let mut rng = Lcg(13);
    let mut read = 0;
    let total = 200000;
    for _ in 0..total {
        let r = rng.next();
        let digits = 1 + (r % 12) as usize;
        let mut text = String::new();
        if r & 0x1000 != 0 {
            text.push('-');
        }
        let point = (rng.next() % (digits as u64 + 1)) as usize;
        for i in 0..digits {
            if i == point {
                text.push('.');
            }
            text.push((b'0' + (rng.next() % 10) as u8) as char);
        }
        match rng.next() % 4 {
            0 => text.push_str(&format!("e{}", (rng.next() % 100) as i64 - 60)),
            1 => text.push_str(&format!("E{}", (rng.next() % 20) as i64 - 10)),
            _ => {}
        }
        check(&text);
        read += 1;
    }
    assert_eq!(read, total);
}

#[test]
fn every_number_reads_back_from_its_shortest_numeral() {
    let mut rng = Lcg(17);
    for _ in 0..100000 {
        let value = f32::from_bits((rng.next() >> 32) as u32);
        if value.is_finite() {
            let plain = format!("{}", value);
            let scientific = format!("{:e}", value);
            assert_eq!(read_number(scientific.as_bytes()), Reading::Number(
                rasterizer::scalar::Scalar::from_bits(value.to_bits())));
            assert_eq!(read_number(plain.as_bytes()), Reading::Number(
                rasterizer::scalar::Scalar::from_bits(value.to_bits())));
        }
    }
}
