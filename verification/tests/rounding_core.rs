use rasterizer::rounding::{bit_length, round, two_to};

struct Lcg(u64);

impl Lcg {
    fn next(&mut self) -> u64 {
        self.0 = self.0.wrapping_mul(6364136223846793005).wrapping_add(1442695040888963407);
        self.0 ^ (self.0 >> 29)
    }
}

fn expected(n: u64, up: u32, down: u32) -> u32 {
    // exact in double precision for n below 2^53
    let value = (n as f64) * 2f64.powi(up as i32 - down as i32 - 149);
    (value as f32).to_bits()
}

#[test]
fn two_to_is_a_power_of_two() {
    for k in 0..128u32 {
        assert_eq!(two_to(k), 1u128 << k);
    }
}

#[test]
fn bit_length_counts_bits() {
    assert_eq!(bit_length(0), 0);
    assert_eq!(bit_length(1), 1);
    assert_eq!(bit_length(2), 2);
    assert_eq!(bit_length(3), 2);
    assert_eq!(bit_length(255), 8);
    assert_eq!(bit_length(256), 9);
    assert_eq!(bit_length(u128::MAX), 128);
    for k in 0..128u32 {
        assert_eq!(bit_length(1u128 << k), k + 1);
    }
}

#[test]
fn round_agrees_with_the_cast_of_integers() {
    let mut rng = Lcg(7);
    for _ in 0..20000 {
        let bits = (rng.next() % 64) as u32;
        let n = rng.next() >> bits;
        assert_eq!(round(n as u128, false, 149, 0), (n as f32).to_bits(), "{}", n);
    }
    for n in [0u128, 1, 2, 3, 16777215, 16777216, 16777217, 16777218, 16777219, 33554431] {
        assert_eq!(round(n, false, 149, 0), (n as f32).to_bits(), "{}", n);
    }
    let top = (1u128 << 127) - 1;
    assert_eq!(round(top, false, 149, 0), (top as f32).to_bits());
    assert_eq!(round(u128::MAX >> 1, false, 149, 0), ((u128::MAX >> 1) as f32).to_bits());
    // from here on the size is beyond the largest number
    assert_eq!(round(0xFFFF_FF7F_FFFF_FFFF_FFFF_FFFF_FFFF_FFFF >> 1, false, 150, 0), 0x7F7F_FFFF);
    assert_eq!(round(0xFFFF_FF80_0000_0000_0000_0000_0000_0000 >> 1, false, 150, 0), 0x7F80_0000);
    assert_eq!(round(1, false, 400, 0), 0x7F80_0000);
}

#[test]
fn round_agrees_with_double_precision_at_every_scale() {
    let mut rng = Lcg(11);
    for _ in 0..200 {
        for up in [0u32, 1, 2, 22, 23, 24, 25, 100, 148, 149, 150, 253, 276, 277, 278, 300] {
            let bits = 11 + (rng.next() % 53) as u32;
            let n = rng.next() >> bits;
            assert_eq!(round(n as u128, false, up, 0), expected(n, up, 0), "{} {}", n, up);
        }
        for down in [1u32, 2, 3, 22, 23, 24, 25, 26, 30, 40, 52, 53, 54, 60, 100, 200, 1000] {
            let bits = 11 + (rng.next() % 53) as u32;
            let n = rng.next() >> bits;
            assert_eq!(round(n as u128, false, 0, down), expected(n, 0, down), "{} {}", n, down);
        }
    }
}

#[test]
fn round_breaks_ties_towards_even() {
    // 2^24 + 1 lies in the middle between 2^24 and 2^24 + 2
    assert_eq!(round((1 << 24) + 1, false, 149, 0), (16777216f32).to_bits());
    assert_eq!(round((1 << 24) + 3, false, 149, 0), (16777220f32).to_bits());
    // half the least number goes to zero, three halves to two
    assert_eq!(round(1, false, 0, 1), 0);
    assert_eq!(round(3, false, 0, 1), 2);
    assert_eq!(round(5, false, 0, 1), 2);
    assert_eq!(round(1, false, 0, 2), 0);
    assert_eq!(round(3, false, 0, 2), 1);
}

#[test]
fn round_moves_off_the_middle_when_something_sticks_out() {
    // just above the middle between 2^25 and 2^25 + 4
    assert_eq!(round((1 << 25) + 2, false, 149, 0), (33554432f32).to_bits());
    assert_eq!(round((1 << 25) + 2, true, 149, 0), (33554436f32).to_bits());
    assert_eq!(round((1 << 25) + 1, true, 149, 0), (33554432f32).to_bits());
    assert_eq!(round((1 << 25) + 3, true, 149, 0), (33554436f32).to_bits());
    // just above half the least number
    assert_eq!(round(1 << 25, true, 0, 26), 1);
    assert_eq!(round(1 << 25, false, 0, 26), 0);
    assert_eq!(round((1 << 25) - 1 + (1 << 25), true, 0, 27), 0);
}
