//! Arithmetic on numbers of the encoding. Every operation gives the
//! rounding of the exact result.

use vstd::prelude::*;
use vstd::arithmetic::power2::{lemma2_to64, lemma_pow2_adds, lemma_pow2_pos, pow2};
use crate::rounding::{
    brackets, lemma_rounding_exists, lemma_rounding_is_monotone, lemma_rounding_is_near,
    lemma_rounding_is_unique, lemma_settled_rounds, lemma_size_at, lemma_size_rounds_to_itself,
    mid2, round, rounded, rounds_to, settles, two_to,
};
use crate::scalar::{
    lemma_pow2_grows, lemma_size_grows, size_of, Scalar, FRACTIONS, INFINITY_BITS, ONE_BITS,
    SIGN_BIT,
};

verus! {

/// The pattern that stands for "no number" where an operation has none to
/// give.
pub const NAN_BITS: u32 = 0x7FC0_0000;

/// Two to the 149th: how many units of the least positive number make one.
pub open spec fn one_size() -> int {
    pow2(149) as int
}

impl Scalar {
    /// Whether the sign bit is set.
    pub open spec fn signed(self) -> bool {
        self.bits >= SIGN_BIT
    }

    /// Whether the pattern encodes a number that is not an infinity.
    pub open spec fn finite(self) -> bool {
        self.magnitude() < INFINITY_BITS
    }

    /// The size of the number, in units of the least positive number.
    pub open spec fn size(self) -> int {
        size_of(self.magnitude())
    }

    /// The scalar with the given sign and magnitude.
    pub open spec fn with(signed: bool, magnitude: int) -> Scalar {
        if signed {
            Scalar { bits: (magnitude + SIGN_BIT) as u32 }
        } else {
            Scalar { bits: magnitude as u32 }
        }
    }

    /// The product of two scalars, rounded. It has the sign of both signs
    /// together. An infinity times zero, and anything times what is no
    /// number, is no number.
    #[verifier::opaque]
    pub open spec fn product(self, other: Scalar) -> Scalar {
        let signed = self.signed() != other.signed();
        if !self.is_number() || !other.is_number() {
            Scalar { bits: NAN_BITS }
        } else if !self.finite() || !other.finite() {
            if self.magnitude() == 0 || other.magnitude() == 0 {
                Scalar { bits: NAN_BITS }
            } else {
                Scalar::with(signed, INFINITY_BITS as int)
            }
        } else {
            Scalar::with(signed, rounded(self.size() * other.size(), one_size()))
        }
    }

    /// The sum of two scalars, rounded. Two infinities of opposite sign,
    /// and anything with what is no number, add up to no number. A sum
    /// that is zero is negative zero only where both scalars are negative.
    #[verifier::opaque]
    pub open spec fn sum(self, other: Scalar) -> Scalar {
        if !self.is_number() || !other.is_number() {
            Scalar { bits: NAN_BITS }
        } else if !self.finite() {
            if !other.finite() && self.signed() != other.signed() {
                Scalar { bits: NAN_BITS }
            } else {
                self
            }
        } else if !other.finite() {
            other
        } else {
            let exact = self.scaled_value() + other.scaled_value();
            if exact == 0 {
                Scalar::with(self.signed() && other.signed(), 0)
            } else if exact < 0 {
                Scalar::with(true, rounded(-exact, 1))
            } else {
                Scalar::with(false, rounded(exact, 1))
            }
        }
    }

    /// The difference of two scalars, rounded: the sum of the first and the
    /// negation of the second.
    pub open spec fn difference(self, other: Scalar) -> Scalar {
        self.sum(other.negation())
    }

    /// The quotient of two scalars, rounded. It has the sign of both signs
    /// together. Zero over zero, an infinity over an infinity, and anything
    /// with what is no number, is no number; any other number over zero is
    /// an infinity.
    #[verifier::opaque]
    pub open spec fn quotient(self, other: Scalar) -> Scalar {
        let signed = self.signed() != other.signed();
        if !self.is_number() || !other.is_number() {
            Scalar { bits: NAN_BITS }
        } else if !self.finite() {
            if !other.finite() {
                Scalar { bits: NAN_BITS }
            } else {
                Scalar::with(signed, INFINITY_BITS as int)
            }
        } else if !other.finite() {
            Scalar::with(signed, 0)
        } else if other.magnitude() == 0 {
            if self.magnitude() == 0 {
                Scalar { bits: NAN_BITS }
            } else {
                Scalar::with(signed, INFINITY_BITS as int)
            }
        } else {
            Scalar::with(signed, rounded(self.size() * one_size(), other.size()))
        }
    }

    /// The square root of a scalar, rounded. A zero is its own root,
    /// whatever its sign; below zero there is no number.
    #[verifier::opaque]
    pub open spec fn root(self) -> Scalar {
        if !self.is_number() {
            Scalar { bits: NAN_BITS }
        } else if self.magnitude() == 0 {
            self
        } else if self.signed() {
            Scalar { bits: NAN_BITS }
        } else if !self.finite() {
            self
        } else {
            Scalar::with(false, rounded_root(self.size() * one_size()))
        }
    }

    /// The scalar nearest to a whole number.
    #[verifier::opaque]
    pub open spec fn of_int(v: int) -> Scalar {
        if v < 0 {
            Scalar::with(true, rounded(-v * one_size(), 1))
        } else {
            Scalar::with(false, rounded(v * one_size(), 1))
        }
    }

    fn sign_bit(&self) -> (signed: bool)
        ensures
            signed == self.signed(),
    {
        self.bits >= SIGN_BIT
    }

    fn magnitude_bits(&self) -> (m: u32)
        ensures
            m == self.magnitude(),
    {
        if self.bits >= SIGN_BIT {
            self.bits - SIGN_BIT
        } else {
            self.bits
        }
    }

    fn assemble(signed: bool, magnitude: u32) -> (s: Scalar)
        requires
            magnitude <= INFINITY_BITS,
        ensures
            s == Scalar::with(signed, magnitude as int),
            s.magnitude() == magnitude,
            s.signed() == signed,
    {
        if signed {
            Scalar { bits: magnitude + SIGN_BIT }
        } else {
            Scalar { bits: magnitude }
        }
    }

    // The size of a finite number as k * 2^t.
    fn parts(&self) -> (r: (u32, u32))
        requires
            self.finite(),
        ensures
            self.size() == r.1 * pow2(r.0 as nat),
            r.0 <= 253,
            r.1 < 0x100_0000,
            r.0 > 0 ==> r.1 >= 0x80_0000,
            r.1 == 0 <==> self.magnitude() == 0,
            self.magnitude() == r.0 * 0x80_0000 + r.1,
    {
        let magnitude = self.magnitude_bits();
        let exponent: u32 = magnitude / FRACTIONS;
        let fraction: u32 = magnitude % FRACTIONS;
        if exponent == 0 {
            proof {
                lemma_size_at(0, fraction as int);
            }
            (0, fraction)
        } else {
            proof {
                lemma_size_at((exponent - 1) as int, (FRACTIONS + fraction) as int);
            }
            (exponent - 1, FRACTIONS + fraction)
        }
    }

    /// The product of two numbers, rounded to the nearest number.
    pub fn times(&self, other: &Scalar) -> (r: Scalar)
        ensures
            r == self.product(*other),
    {
        reveal(Scalar::product);
        let signed = self.sign_bit() != other.sign_bit();
        if self.is_nan() || other.is_nan() {
            return Scalar { bits: NAN_BITS };
        }
        let ma = self.magnitude_bits();
        let mb = other.magnitude_bits();
        if ma == INFINITY_BITS || mb == INFINITY_BITS {
            if ma == 0 || mb == 0 {
                return Scalar { bits: NAN_BITS };
            }
            return Scalar::assemble(signed, INFINITY_BITS);
        }
        let (ta, ka) = self.parts();
        let (tb, kb) = other.parts();
        proof {
            assert(0 <= ka * kb < 0x100_0000 * 0x100_0000) by (nonlinear_arith)
                requires
                    0 <= ka < 0x100_0000,
                    0 <= kb < 0x100_0000,
            ;
        }
        let n: u128 = (ka as u128) * (kb as u128);
        let (up, down): (u32, u32) = if ta + tb >= 149 {
            (ta + tb - 149, 0)
        } else {
            (0, 149 - (ta + tb))
        };
        let m = round(n, false, up, down);
        proof {
            let num = self.size() * other.size();
            let den = one_size();
            lemma_pow2_pos(149);
            lemma_pow2_pos(ta as nat);
            lemma_pow2_pos(tb as nat);
            lemma_pow2_pos(up as nat);
            lemma_pow2_pos(down as nat);
            lemma_pow2_adds(ta as nat, tb as nat);
            lemma_pow2_adds(up as nat, 149);
            lemma_pow2_adds((ta + tb) as nat, down as nat);
            let both = pow2((ta + tb) as nat) as int;
            let u = pow2(up as nat) as int;
            let d = pow2(down as nat) as int;
            assert(u * den == both * d);
            assert(num == (ka * kb) * both) by (nonlinear_arith)
                requires
                    num == (ka * pow2(ta as nat)) * (kb * pow2(tb as nat)),
                    both == pow2(ta as nat) * pow2(tb as nat),
            ;
            assert((n * u) * den == num * d && ((n + 1) * u) * den > num * d)
                by (nonlinear_arith)
                requires
                    num == n * both,
                    u * den == both * d,
                    u > 0,
                    den > 0,
            ;
            lemma_settled_rounds(num, den, n as int, false, up as nat, down as nat, m as int);
            lemma_rounding_is_unique(num, den, m as int);
        }
        Scalar::assemble(signed, m)
    }

    /// The sum of two numbers, rounded to the nearest number.
    pub fn plus(&self, other: &Scalar) -> (r: Scalar)
        ensures
            r == self.sum(*other),
    {
        reveal(Scalar::sum);
        if self.is_nan() || other.is_nan() {
            return Scalar { bits: NAN_BITS };
        }
        let ma = self.magnitude_bits();
        let mb = other.magnitude_bits();
        let sa = self.sign_bit();
        let sb = other.sign_bit();
        if ma == INFINITY_BITS {
            if mb == INFINITY_BITS && sa != sb {
                return Scalar { bits: NAN_BITS };
            }
            return *self;
        }
        if mb == INFINITY_BITS {
            return *other;
        }
        if ma >= mb {
            Scalar::add_ordered(self, other)
        } else {
            let r = Scalar::add_ordered(other, self);
            proof {
                assert(other.scaled_value() + self.scaled_value() == self.scaled_value()
                    + other.scaled_value());
            }
            r
        }
    }

    /// The difference of two numbers, rounded to the nearest number.
    pub fn minus(&self, other: &Scalar) -> (r: Scalar)
        ensures
            r == self.difference(*other),
    {
        self.plus(&other.negated())
    }

    /// The quotient of two numbers, rounded to the nearest number.
    pub fn over(&self, other: &Scalar) -> (r: Scalar)
        ensures
            r == self.quotient(*other),
    {
        reveal(Scalar::quotient);
        let signed = self.sign_bit() != other.sign_bit();
        if self.is_nan() || other.is_nan() {
            return Scalar { bits: NAN_BITS };
        }
        let ma = self.magnitude_bits();
        let mb = other.magnitude_bits();
        if ma == INFINITY_BITS {
            if mb == INFINITY_BITS {
                return Scalar { bits: NAN_BITS };
            }
            return Scalar::assemble(signed, INFINITY_BITS);
        }
        if mb == INFINITY_BITS {
            return Scalar::assemble(signed, 0);
        }
        if mb == 0 {
            if ma == 0 {
                return Scalar { bits: NAN_BITS };
            }
            return Scalar::assemble(signed, INFINITY_BITS);
        }
        let (ta, ka) = self.parts();
        let (tb, kb) = other.parts();
        let dividend: u128 = (ka as u128) * 0x4_0000_0000_0000;
        let n: u128 = dividend / (kb as u128);
        let rest: u128 = dividend % (kb as u128);
        let sticky = rest != 0;
        let (up, down): (u32, u32) = if ta + 99 >= tb {
            (ta + 99 - tb, 0)
        } else {
            (0, tb - (ta + 99))
        };
        proof {
            vstd::arithmetic::div_mod::lemma_fundamental_div_mod(dividend as int, kb as int);
            vstd::arithmetic::div_mod::lemma_mod_pos_bound(dividend as int, kb as int);
            vstd::arithmetic::div_mod::lemma_div_pos_is_pos(dividend as int, kb as int);
            assert(kb * n == n * kb) by (nonlinear_arith);
            if sticky {
                // ka is not zero, so the quotient has 26 bits or more
                assert(n >= 0x200_0000) by (nonlinear_arith)
                    requires
                        dividend == n * kb + rest,
                        0 <= rest < kb,
                        kb < 0x100_0000,
                        dividend >= 0x4_0000_0000_0000,
                        n >= 0,
                ;
            }
        }
        let m = round(n, sticky, up, down);
        proof {
            let num = self.size() * one_size();
            let den = other.size();
            let u = pow2(up as nat) as int;
            let d = pow2(down as nat) as int;
            let pa = pow2(ta as nat) as int;
            let pb = pow2(tb as nat) as int;
            lemma_pow2_pos(149);
            lemma_pow2_pos(ta as nat);
            lemma_pow2_pos(tb as nat);
            lemma_pow2_pos(up as nat);
            lemma_pow2_pos(down as nat);
            lemma2_to64();
            vstd::arithmetic::power2::lemma2_to64_rest();
            assert(pow2(50) == 0x4_0000_0000_0000);
            // u * 2^tb * 2^50 == 2^ta * 2^149 * d
            lemma_pow2_adds(up as nat, tb as nat);
            lemma_pow2_adds((up + tb) as nat, 50);
            lemma_pow2_adds(ta as nat, 149);
            lemma_pow2_adds((ta + 149) as nat, down as nat);
            let scale = u * pb;
            assert(scale * 0x4_0000_0000_0000 == (pa * one_size()) * d);
            assert(scale > 0) by (nonlinear_arith)
                requires
                    scale == u * pb,
                    u > 0,
                    pb > 0,
            ;
            assert(den > 0) by (nonlinear_arith)
                requires
                    den == kb * pb,
                    kb > 0,
                    pb > 0,
            ;
            assert((n * u) * den == (n * kb) * scale && ((n + 1) * u) * den == ((n + 1) * kb)
                * scale && num * d == dividend * scale) by (nonlinear_arith)
                requires
                    den == kb * pb,
                    scale == u * pb,
                    num == (ka * pa) * one_size(),
                    dividend == ka * 0x4_0000_0000_0000,
                    scale * 0x4_0000_0000_0000 == (pa * one_size()) * d,
            ;
            assert((n * kb) * scale <= dividend * scale && dividend * scale < ((n + 1) * kb)
                * scale && (rest != 0 <==> (n * kb) * scale != dividend * scale))
                by (nonlinear_arith)
                requires
                    dividend == n * kb + rest,
                    0 <= rest < kb,
                    scale > 0,
            ;
            assert(brackets(num, den, n as int, sticky, up as nat, down as nat));
            lemma_settled_rounds(num, den, n as int, sticky, up as nat, down as nat, m as int);
            lemma_rounding_is_unique(num, den, m as int);
        }
        Scalar::assemble(signed, m)
    }

    /// The square root of a number, rounded to the nearest number.
    pub fn sqrt(&self) -> (r: Scalar)
        ensures
            r == self.root(),
    {
        reveal(Scalar::root);
        if self.is_nan() {
            return Scalar { bits: NAN_BITS };
        }
        let magnitude = self.magnitude_bits();
        if magnitude == 0 {
            return *self;
        }
        if self.sign_bit() {
            return Scalar { bits: NAN_BITS };
        }
        if magnitude == INFINITY_BITS {
            return *self;
        }
        let (t, k) = self.parts();
        // size * 2^149 as an even power of two times k or twice k
        let (wide, half): (u32, u32) = if (t + 149) % 2 == 1 {
            (2 * k, (t + 148) / 2)
        } else {
            (k, (t + 149) / 2)
        };
        let w: u128 = (wide as u128) * 0x10_0000_0000_0000;
        let r = isqrt(w);
        let sticky = (r as u128) * (r as u128) != w;
        proof {
            // wide is not zero, so the root has 27 bits
            assert(r >= 0x400_0000) by (nonlinear_arith)
                requires
                    w < (r + 1) * (r + 1),
                    w >= 0x10_0000_0000_0000,
                    r >= 0,
            ;
        }
        let up: u32 = half - 26;
        let m = round(r as u128, sticky, up, 0);
        proof {
            let square = self.size() * one_size();
            let u = pow2(up as nat) as int;
            lemma_pow2_pos(up as nat);
            lemma_pow2_pos(t as nat);
            lemma2_to64();
            vstd::arithmetic::power2::lemma2_to64_rest();
            assert(pow2(52) == 0x10_0000_0000_0000 && pow2(1) == 2 && pow2(0) == 1);
            // square == w * u * u
            lemma_pow2_adds(up as nat, up as nat);
            lemma_pow2_adds(52, (2 * up) as nat);
            lemma_pow2_adds(t as nat, 149);
            if (t + 149) % 2 == 1 {
                lemma_pow2_adds(1, (2 * half) as nat);
            }
            assert(square == w * (u * u)) by (nonlinear_arith)
                requires
                    square == (k * pow2(t as nat)) * one_size(),
                    pow2(t as nat) * one_size() == pow2((t + 149) as nat),
                    w == wide * 0x10_0000_0000_0000,
                    0x10_0000_0000_0000 * (u * u) == pow2((2 * half) as nat),
                    (wide == k && pow2((t + 149) as nat) == pow2((2 * half) as nat)) || (wide
                        == 2 * k && pow2((t + 149) as nat) == 2 * pow2((2 * half) as nat)),
            ;
            lemma_root_settled(square, r as int, sticky, up as nat, w as int, m as int);
            lemma_root_is_unique(square, m as int);
        }
        Scalar::assemble(false, m)
    }

    /// The number nearest to a whole number.
    pub fn from_i32(v: i32) -> (r: Scalar)
        ensures
            r == Scalar::of_int(v as int),
    {
        reveal(Scalar::of_int);
        let signed = v < 0;
        let n: u128 = if signed {
            (0 - (v as i64)) as u128
        } else {
            v as u128
        };
        let m = round(n, false, 149, 0);
        proof {
            assert(pow2(0) == 1) by {
                lemma2_to64();
            }
            lemma_rounding_is_unique(n * one_size(), 1, m as int);
        }
        Scalar::assemble(signed, m)
    }

    /// The number nearest to a whole number.
    pub fn from_i64(v: i64) -> (r: Scalar)
        ensures
            r == Scalar::of_int(v as int),
    {
        reveal(Scalar::of_int);
        let signed = v < 0;
        let n: u128 = if signed {
            (0 - (v as i128)) as u128
        } else {
            v as u128
        };
        let m = round(n, false, 149, 0);
        proof {
            assert(pow2(0) == 1) by {
                lemma2_to64();
            }
            lemma_rounding_is_unique(n * one_size(), 1, m as int);
        }
        Scalar::assemble(signed, m)
    }

    /// The number nearest to a whole number that is not negative.
    pub fn from_usize(v: usize) -> (r: Scalar)
        ensures
            r == Scalar::of_int(v as int),
    {
        reveal(Scalar::of_int);
        let m = round(v as u128, false, 149, 0);
        proof {
            assert(pow2(0) == 1) by {
                lemma2_to64();
            }
            lemma_rounding_is_unique(v * one_size(), 1, m as int);
        }
        Scalar::assemble(false, m)
    }

    // The sum of two finite numbers of which the first is not the smaller
    // in size.
    fn add_ordered(big: &Scalar, small: &Scalar) -> (r: Scalar)
        requires
            big.finite(),
            small.finite(),
            big.magnitude() >= small.magnitude(),
        ensures
            r == big.sum(*small),
            r == small.sum(*big),
    {
        reveal(Scalar::sum);
        let signed = big.sign_bit();
        let same = signed == small.sign_bit();
        let (tb, kb) = big.parts();
        let (ts, ks) = small.parts();
        let ghost exact = big.scaled_value() + small.scaled_value();
        proof {
            assert(exact == small.scaled_value() + big.scaled_value());
            if big.magnitude() > small.magnitude() {
                lemma_size_grows(small.magnitude(), big.magnitude());
            }
            lemma_pow2_pos(tb as nat);
            lemma_pow2_pos(ts as nat);
            assert(pow2(0) == 1) by {
                lemma2_to64();
            }
        }
        if ks == 0 {
            if kb == 0 {
                proof {
                    assert(0 * pow2(tb as nat) == 0 && 0 * pow2(ts as nat) == 0)
                        by (nonlinear_arith);
                }
                return Scalar::assemble(signed && small.sign_bit(), 0);
            }
            proof {
                // a number is its own rounding
                assert(0 * pow2(ts as nat) == 0) by (nonlinear_arith);
                assert(kb * pow2(tb as nat) > 0) by (nonlinear_arith)
                    requires
                        kb > 0,
                        pow2(tb as nat) > 0,
                ;
                let m = big.magnitude();
                lemma_exact_rounds(m);
                lemma_rounding_is_unique(big.size(), 1, m);
            }
            return Scalar::assemble(signed, big.magnitude_bits());
        }
        let d: u32 = tb - ts;
        proof {
            lemma_pow2_adds(d as nat, ts as nat);
            lemma_pow2_pos(d as nat);
        }
        if d <= 100 {
            let grow = two_to(d);
            proof {
                lemma_pow2_grows(d as nat, 100);
                lemma_pow2_adds(64, 36);
                lemma2_to64();
                vstd::arithmetic::power2::lemma2_to64_rest();
                assert(pow2(100) == 0x10_0000_0000_0000_0000_0000_0000) by (nonlinear_arith)
                    requires
                        pow2(100) == pow2(64) * pow2(36),
                        pow2(64) == 0x1_0000_0000_0000_0000,
                        pow2(36) == 0x10_0000_0000,
                ;
                assert(0 <= kb * grow <= 0xFF_FFFF * 0x10_0000_0000_0000_0000_0000_0000)
                    by (nonlinear_arith)
                    requires
                        0 <= kb <= 0xFF_FFFF,
                        0 < grow <= 0x10_0000_0000_0000_0000_0000_0000,
                ;
                // the bigger size is not below the smaller one
                assert(kb * grow >= ks) by (nonlinear_arith)
                    requires
                        kb * (grow * pow2(ts as nat)) >= ks * pow2(ts as nat),
                        pow2(ts as nat) > 0,
                ;
            }
            let shifted: u128 = (kb as u128) * grow;
            let n: u128 = if same {
                shifted + ks as u128
            } else {
                shifted - ks as u128
            };
            proof {
                let unit = pow2(ts as nat) as int;
                assert(big.size() == shifted * unit) by (nonlinear_arith)
                    requires
                        big.size() == kb * (grow * unit),
                        shifted == kb * grow,
                ;
                assert(n * unit == if same {
                    big.size() + small.size()
                } else {
                    big.size() - small.size()
                }) by (nonlinear_arith)
                    requires
                        big.size() == shifted * unit,
                        small.size() == ks * unit,
                        n == if same {
                            shifted + ks
                        } else {
                            shifted - ks
                        },
                ;
                assert(n == 0 <==> n * unit == 0) by (nonlinear_arith)
                    requires
                        unit > 0,
                        n >= 0,
                ;
            }
            if n == 0 {
                return Scalar::assemble(false, 0);
            }
            let m = round(n, false, ts, 0);
            proof {
                let unit = pow2(ts as nat) as int;
                let num = n * unit;
                assert((n * unit) * 1 == num * 1 && ((n + 1) * unit) * 1 > num * 1)
                    by (nonlinear_arith)
                    requires
                        num == n * unit,
                        unit > 0,
                ;
                assert(brackets(num, 1, n as int, false, ts as nat, 0));
                lemma_settled_rounds(num, 1, n as int, false, ts as nat, 0, m as int);
                lemma_rounding_is_unique(num, 1, m as int);
            }
            Scalar::assemble(signed, m)
        } else {
            // the smaller number lies far below the last bit of the bigger
            let base: u128 = (kb as u128) * 8;
            let n: u128 = if same {
                base
            } else {
                (base - 1) as u128
            };
            let m = round(n, true, tb - 3, 0);
            proof {
                let unit = pow2((tb - 3) as nat) as int;
                let low = pow2(ts as nat) as int;
                lemma_pow2_pos((tb - 3) as nat);
                lemma_pow2_adds(3, (tb - 3) as nat);
                lemma_pow2_adds(24, ts as nat);
                lemma_pow2_grows((ts + 24) as nat, (tb - 3) as nat);
                lemma2_to64();
                assert(big.size() == base * unit) by (nonlinear_arith)
                    requires
                        big.size() == kb * (8 * unit),
                        base == kb * 8,
                ;
                assert(0 < small.size() < unit) by (nonlinear_arith)
                    requires
                        small.size() == ks * low,
                        0 < ks < 0x100_0000,
                        low > 0,
                        0x100_0000 * low <= unit,
                ;
                let num = if same {
                    big.size() + small.size()
                } else {
                    big.size() - small.size()
                };
                assert((n * unit) * 1 < num * 1 && num * 1 < ((n + 1) * unit) * 1)
                    by (nonlinear_arith)
                    requires
                        big.size() == base * unit,
                        0 < small.size() < unit,
                        num == if same {
                            big.size() + small.size()
                        } else {
                            big.size() - small.size()
                        },
                        n == if same {
                            base as int
                        } else {
                            base - 1
                        },
                ;
                assert(brackets(num, 1, n as int, true, (tb - 3) as nat, 0));
                lemma_settled_rounds(num, 1, n as int, true, (tb - 3) as nat, 0, m as int);
                lemma_rounding_is_unique(num, 1, m as int);
            }
            Scalar::assemble(signed, m)
        }
    }
}

/// A number is its own rounding.
pub proof fn lemma_exact_rounds(m: int)
    requires
        0 <= m <= INFINITY_BITS,
    ensures
        rounds_to(size_of(m), 1, m),
{
    lemma_size_grows(m, m + 1);
    if m > 0 {
        lemma_size_grows(m - 1, m);
    }
}

/// Whether the number with magnitude `m` is the rounding of the square
/// root of `square`, a size times a size: the nearest of all numbers, and
/// of two that are equally near the one whose pattern is even.
pub open spec fn root_rounds_to(square: int, m: int) -> bool {
    &&& 0 <= m <= INFINITY_BITS
    &&& (m == 0 || mid2(m - 1) * mid2(m - 1) < 4 * square || (mid2(m - 1) * mid2(m - 1) == 4
        * square && m % 2 == 0))
    &&& (m == INFINITY_BITS || 4 * square < mid2(m) * mid2(m) || (4 * square == mid2(m) * mid2(m)
        && m % 2 == 0))
}

/// The magnitude of the rounding of the square root of `square`.
pub open spec fn rounded_root(square: int) -> int {
    choose|m: int| root_rounds_to(square, m)
}

proof fn lemma_squares_grow(a: int, b: int)
    by (nonlinear_arith)
    requires
        0 <= a,
        0 <= b,
    ensures
        a < b ==> a * a < b * b,
        a <= b ==> a * a <= b * b,
        a == b ==> a * a == b * b,
{
}

proof fn lemma_mid2_is_positive(m: int)
    requires
        0 <= m,
    ensures
        0 < mid2(m),
        0 <= size_of(m),
{
    assert(size_of(0) == 0);
    lemma_size_grows(0, m + 1);
    if m > 0 {
        lemma_size_grows(0, m);
    }
}

proof fn lemma_root_is_ordered(square: int, a: int, b: int)
    requires
        root_rounds_to(square, a),
        root_rounds_to(square, b),
    ensures
        a >= b,
{
    if a < b {
        lemma_mid2_is_positive(a);
        lemma_mid2_is_positive(b - 1);
        if a < b - 1 {
            lemma_size_grows(a, b - 1);
            lemma_size_grows(a + 1, b);
        }
        lemma_squares_grow(mid2(a), mid2(b - 1));
    }
}

/// A square has one rounded root.
pub proof fn lemma_root_is_unique(square: int, m: int)
    requires
        root_rounds_to(square, m),
    ensures
        rounded_root(square) == m,
{
    let other = rounded_root(square);
    lemma_root_is_ordered(square, m, other);
    lemma_root_is_ordered(square, other, m);
}

// What settles for the bounds of a root is the rounding of the root.
proof fn lemma_root_settled(square: int, r: int, sticky: bool, up: nat, w: int, m: int)
    requires
        0 <= r,
        r * r <= w < (r + 1) * (r + 1),
        sticky <==> r * r != w,
        square == w * (pow2(up) * pow2(up)),
        settles(r, sticky, up, 0, m),
    ensures
        root_rounds_to(square, m),
{
    let u = pow2(up) as int;
    lemma_pow2_pos(up);
    assert(pow2(0) == 1) by {
        lemma2_to64();
    }
    let low = r * u;
    let high = (r + 1) * u;
    assert(low * low == (r * r) * (u * u) && high * high == ((r + 1) * (r + 1)) * (u * u) && 0
        <= low < high) by (nonlinear_arith)
        requires
            low == r * u,
            high == (r + 1) * u,
            u > 0,
            r >= 0,
    ;
    assert(low * low <= square < high * high && (sticky <==> low * low != square))
        by (nonlinear_arith)
        requires
            low * low == (r * r) * (u * u),
            high * high == ((r + 1) * (r + 1)) * (u * u),
            square == w * (u * u),
            r * r <= w < (r + 1) * (r + 1),
            sticky <==> r * r != w,
            u > 0,
    ;
    assert((2 * low) * (2 * low) == 4 * (low * low) && (2 * high) * (2 * high) == 4 * (high
        * high)) by (nonlinear_arith);
    if m != 0 {
        let mid = mid2(m - 1);
        lemma_mid2_is_positive(m - 1);
        assert(mid * 1 == mid) by (nonlinear_arith);
        lemma_squares_grow(mid, 2 * low);
    }
    if m != INFINITY_BITS {
        let mid = mid2(m);
        lemma_mid2_is_positive(m);
        assert(mid * 1 == mid) by (nonlinear_arith);
        lemma_squares_grow(2 * low, mid);
        lemma_squares_grow(2 * high, mid);
    }
}

/// The whole part of the square root of `w`.
pub fn isqrt(w: u128) -> (r: u64)
    requires
        w < 0x4000_0000_0000_0000_0000,
    ensures
        r * r <= w < (r + 1) * (r + 1),
        r < 0x80_0000_0000,
{
    let mut r: u64 = 0;
    let mut span: u64 = 0x80_0000_0000;
    let ghost mut j: nat = 39;
    proof {
        lemma2_to64();
        vstd::arithmetic::power2::lemma2_to64_rest();
    }
    while span > 1
        invariant
            span == pow2(j),
            j <= 39,
            r + span <= 0x80_0000_0000,
            r * r <= w < (r + span) * (r + span),
        decreases span,
    {
        proof {
            assert(pow2(0) == 1) by {
                lemma2_to64();
            }
            vstd::arithmetic::power2::lemma_pow2_unfold(j);
        }
        let half: u64 = span / 2;
        let c: u64 = r + half;
        proof {
            assert(0 <= c * c <= 0x80_0000_0000 * 0x80_0000_0000) by (nonlinear_arith)
                requires
                    0 <= c <= 0x80_0000_0000,
            ;
        }
        if (c as u128) * (c as u128) <= w {
            r = c;
        }
        span = half;
        proof {
            j = (j - 1) as nat;
        }
    }
    proof {
        assert(0 <= r * r <= 0x80_0000_0000 * 0x80_0000_0000) by (nonlinear_arith)
            requires
                0 <= r <= 0x80_0000_0000,
        ;
    }
    r
}

/// A difference and the difference the other way round are not both above
/// zero.
pub proof fn lemma_difference_turns(x: Scalar, y: Scalar)
    requires
        x.difference(y).positive(),
    ensures
        !y.difference(x).positive(),
{
    reveal(Scalar::sum);
    if x.is_number() && y.is_number() && x.finite() && y.finite() {
        let exact = x.scaled_value() + y.negation().scaled_value();
        let back = y.scaled_value() + x.negation().scaled_value();
        assert(back == -exact);
        if exact > 0 {
            crate::rounding::lemma_rounding_exists(exact, 1);
        } else if exact < 0 {
            crate::rounding::lemma_rounding_exists(-exact, 1);
        }
    }
}

/// The most that a number within a step of zero, as steps are beside one,
/// has for its magnitude: that of 2 to the -23rd.
pub const STEP_BITS: u32 = 0x3400_0000;

impl Scalar {
    /// Whether the number is one, or a neighbour of one in the encoding.
    pub open spec fn beside_one(self) -> bool {
        !self.signed() && ONE_BITS - 1 <= self.magnitude() <= ONE_BITS + 1
    }

    /// Whether the number is within 2 to the -23rd of zero: the step from
    /// one to its neighbour above.
    pub open spec fn beside_zero(self) -> bool {
        self.magnitude() <= STEP_BITS
    }

    /// Whether the number is finite and has a full fraction: it is no
    /// infinity, and neither zero nor subnormal.
    pub open spec fn normal(self) -> bool {
        FRACTIONS <= self.magnitude() < INFINITY_BITS
    }

    /// Factors may change places.
    pub proof fn lemma_product_commutes(self, other: Scalar)
        ensures
            self.product(other) == other.product(self),
    {
        reveal(Scalar::product);
        assert(self.size() * other.size() == other.size() * self.size()) by (nonlinear_arith);
    }

    /// A finite number less itself is zero.
    pub proof fn lemma_difference_of_self(self)
        requires
            self.finite(),
        ensures
            self.difference(self) == (Scalar { bits: 0 }),
    {
        reveal(Scalar::sum);
    }

    /// Zero times a finite number is zero.
    pub proof fn lemma_zero_times(self, other: Scalar)
        requires
            self.magnitude() == 0,
            other.finite(),
        ensures
            self.product(other).magnitude() == 0,
            other.product(self).magnitude() == 0,
    {
        reveal(Scalar::product);
        self.lemma_product_commutes(other);
        lemma_pow2_pos(149);
        assert(size_of(0) == 0);
        assert(0 * other.size() == 0) by (nonlinear_arith);
        lemma_size_rounds_to_itself(0, one_size());
        assert(size_of(0) * one_size() == 0) by (nonlinear_arith);
    }

    /// Less zero, a finite number keeps its size; and zero less zero is
    /// zero.
    pub proof fn lemma_minus_zero(self, zero: Scalar)
        requires
            self.finite(),
            zero.magnitude() == 0,
        ensures
            self.difference(zero).magnitude() == self.magnitude(),
            self.magnitude() != 0 ==> self.difference(zero) == self,
    {
        reveal(Scalar::sum);
        assert(size_of(0) == 0);
        let m = self.magnitude();
        if m != 0 {
            lemma_size_grows(0, m);
            lemma_size_rounds_to_itself(m, 1);
            assert(size_of(m) * 1 == size_of(m)) by (nonlinear_arith);
        }
    }

    /// A number times its reciprocal is one or a neighbour of one,
    /// wherever the reciprocal has a full fraction.
    pub proof fn lemma_times_reciprocal(self)
        requires
            self.finite(),
            self.magnitude() != 0,
            (Scalar { bits: ONE_BITS }).quotient(self).normal(),
        ensures
            self.product((Scalar { bits: ONE_BITS }).quotient(self)).beside_one(),
            (Scalar { bits: ONE_BITS }).quotient(self).product(self).beside_one(),
    {
        reveal(Scalar::quotient);
        reveal(Scalar::product);
        let one = Scalar { bits: ONE_BITS };
        let reciprocal = one.quotient(self);
        self.lemma_product_commutes(reciprocal);
        Scalar::lemma_one_encodes_one();
        lemma_pow2_pos(149);
        let d = self.size();
        assert(size_of(0) == 0);
        lemma_size_grows(0, self.magnitude());
        let whole = one_size() * one_size();
        assert(one.size() == one_size());
        lemma_rounding_exists(whole, d);
        let q = reciprocal.magnitude();
        assert(q == rounded(whole, d));
        lemma_rounding_is_near(whole, d, q);
        let size = size_of(q);
        // the sizes of one's neighbours
        lemma_size_at(125, 0xFF_FFFF);
        lemma_size_at(126, 0x80_0000);
        lemma_size_at(126, 0x80_0001);
        assert(ONE_BITS - 1 == 125 * 0x80_0000 + 0xFF_FFFF);
        assert(ONE_BITS == 126 * 0x80_0000 + 0x80_0000);
        assert(ONE_BITS + 1 == 126 * 0x80_0000 + 0x80_0001);
        vstd::arithmetic::power2::lemma_pow2_unfold(126);
        lemma_pow2_adds(24, 125);
        lemma2_to64();
        let unit = pow2(125) as int;
        assert(one_size() == 0x100_0000 * unit);
        let below = size_of(ONE_BITS - 1);
        let above = size_of(ONE_BITS + 1);
        assert(below == 0xFF_FFFF * unit);
        assert(above == 0x100_0002 * unit) by (nonlinear_arith)
            requires
                above == 0x80_0001 * pow2(126),
                pow2(126) == 2 * unit,
        ;
        let product = d * size;
        assert(size * d == product) by (nonlinear_arith)
            requires
                product == d * size,
        ;
        assert(below * one_size() <= product && product <= above * one_size())
            by (nonlinear_arith)
            requires
                0xFF_FFFF * product <= 0x100_0000 * whole,
                0x100_0000 * whole <= 0x100_0001 * product,
                whole == one_size() * one_size(),
                one_size() == 0x100_0000 * unit,
                below == 0xFF_FFFF * unit,
                above == 0x100_0002 * unit,
                unit > 0,
        ;
        lemma_size_rounds_to_itself(ONE_BITS - 1, one_size());
        lemma_size_rounds_to_itself(ONE_BITS + 1, one_size());
        lemma_rounding_is_monotone(below * one_size(), product, one_size());
        lemma_rounding_is_monotone(product, above * one_size(), one_size());
    }

    /// One less a neighbour of one is within a step of zero.
    pub proof fn lemma_one_minus_beside_one(self)
        requires
            self.beside_one(),
        ensures
            (Scalar { bits: ONE_BITS }).difference(self).beside_zero(),
            (Scalar { bits: ONE_BITS }).difference(self).finite(),
    {
        reveal(Scalar::sum);
        let one = Scalar { bits: ONE_BITS };
        Scalar::lemma_one_encodes_one();
        lemma_size_at(125, 0xFF_FFFF);
        lemma_size_at(126, 0x80_0000);
        lemma_size_at(126, 0x80_0001);
        lemma_size_at(102, 0x80_0000);
        lemma_size_at(103, 0x80_0000);
        assert(ONE_BITS - 1 == 125 * 0x80_0000 + 0xFF_FFFF);
        assert(ONE_BITS == 126 * 0x80_0000 + 0x80_0000);
        assert(ONE_BITS + 1 == 126 * 0x80_0000 + 0x80_0001);
        assert(0x3380_0000 == 102 * 0x80_0000 + 0x80_0000);
        assert(0x3400_0000 == 103 * 0x80_0000 + 0x80_0000);
        vstd::arithmetic::power2::lemma_pow2_unfold(126);
        lemma_pow2_adds(23, 102);
        lemma_pow2_adds(23, 103);
        lemma_pow2_adds(24, 125);
        lemma2_to64();
        let unit = pow2(125) as int;
        assert(size_of(0x3380_0000) == unit);
        assert(size_of(0x3400_0000) == 2 * unit);
        assert(one.size() == 0x100_0000 * unit);
        if self.magnitude() == ONE_BITS - 1 {
            assert(one.size() - self.size() == unit) by (nonlinear_arith)
                requires
                    one.size() == 0x100_0000 * unit,
                    self.size() == 0xFF_FFFF * unit,
            ;
            lemma_size_rounds_to_itself(0x3380_0000, 1);
            assert(unit * 1 == unit) by (nonlinear_arith);
        } else if self.magnitude() == ONE_BITS + 1 {
            assert(self.size() - one.size() == 2 * unit) by (nonlinear_arith)
                requires
                    one.size() == 0x100_0000 * unit,
                    self.size() == 0x80_0001 * pow2(126),
                    pow2(126) == 2 * unit,
            ;
            lemma_size_rounds_to_itself(0x3400_0000, 1);
            assert((2 * unit) * 1 == 2 * unit) by (nonlinear_arith);
        }
    }
}

/// The magnitude of 2 to the power of `p`, for a power that is a number
/// with a full fraction.
pub open spec fn power_bits(p: int) -> int {
    (p + 127) * 0x80_0000
}

/// The size of a power of two.
pub proof fn lemma_power_size(p: int)
    requires
        -126 <= p <= 127,
    ensures
        size_of(power_bits(p)) == pow2((p + 149) as nat),
        0x80_0000 <= power_bits(p) < INFINITY_BITS,
{
    lemma_size_at(p + 126, 0x80_0000);
    lemma_pow2_adds(23, (p + 126) as nat);
    lemma2_to64();
}

impl Scalar {
    /// Whether the number is finite and no greater in size than 2 to the
    /// power of `p`.
    pub open spec fn within(self, p: int) -> bool {
        self.magnitude() <= power_bits(p)
    }

    /// A sum is no greater in size than twice the greater of its terms.
    pub proof fn lemma_sum_is_within(self, other: Scalar, p: int)
        requires
            -126 <= p < 127,
            self.within(p),
            other.within(p),
        ensures
            self.sum(other).within(p + 1),
            self.difference(other).within(p + 1),
            self.sum(other).finite(),
            self.difference(other).finite(),
    {
        reveal(Scalar::sum);
        lemma_power_size(p);
        lemma_power_size(p + 1);
        vstd::arithmetic::power2::lemma_pow2_unfold((p + 150) as nat);
        let bound = pow2((p + 149) as nat) as int;
        assert(size_of(0) == 0);
        if self.magnitude() < power_bits(p) {
            lemma_size_grows(self.magnitude(), power_bits(p));
        }
        if other.magnitude() < power_bits(p) {
            lemma_size_grows(other.magnitude(), power_bits(p));
        }
        if self.magnitude() > 0 {
            lemma_size_grows(0, self.magnitude());
        }
        if other.magnitude() > 0 {
            lemma_size_grows(0, other.magnitude());
        }
        let back = other.negation();
        assert(back.magnitude() == other.magnitude());
        let plus = self.scaled_value() + other.scaled_value();
        let minus = self.scaled_value() + back.scaled_value();
        lemma_size_rounds_to_itself(power_bits(p + 1), 1);
        assert(size_of(power_bits(p + 1)) * 1 == 2 * bound) by (nonlinear_arith)
            requires
                size_of(power_bits(p + 1)) == 2 * bound,
        ;
        if plus > 0 {
            lemma_rounding_is_monotone(plus, 2 * bound, 1);
            lemma_rounding_exists(plus, 1);
        } else if plus < 0 {
            lemma_rounding_is_monotone(-plus, 2 * bound, 1);
            lemma_rounding_exists(-plus, 1);
        }
        if minus > 0 {
            lemma_rounding_is_monotone(minus, 2 * bound, 1);
            lemma_rounding_exists(minus, 1);
        } else if minus < 0 {
            lemma_rounding_is_monotone(-minus, 2 * bound, 1);
            lemma_rounding_exists(-minus, 1);
        }
    }

    /// A product is no greater in size than the product of what its
    /// factors are no greater than.
    pub proof fn lemma_product_is_within(self, other: Scalar, p: int, q: int)
        requires
            -126 <= p <= 127,
            -126 <= q <= 127,
            -126 <= p + q <= 127,
            self.within(p),
            other.within(q),
        ensures
            self.product(other).within(p + q),
            self.product(other).finite(),
    {
        reveal(Scalar::product);
        lemma_power_size(p);
        lemma_power_size(q);
        lemma_power_size(p + q);
        lemma_pow2_pos(149);
        lemma_pow2_adds((p + q + 149) as nat, 149);
        lemma_pow2_adds((p + 149) as nat, (q + 149) as nat);
        assert(size_of(0) == 0);
        if self.magnitude() < power_bits(p) {
            lemma_size_grows(self.magnitude(), power_bits(p));
        }
        if other.magnitude() < power_bits(q) {
            lemma_size_grows(other.magnitude(), power_bits(q));
        }
        if self.magnitude() > 0 {
            lemma_size_grows(0, self.magnitude());
        }
        if other.magnitude() > 0 {
            lemma_size_grows(0, other.magnitude());
        }
        let exact = self.size() * other.size();
        let bound = size_of(power_bits(p + q)) * one_size();
        assert(0 <= exact <= bound) by (nonlinear_arith)
            requires
                exact == self.size() * other.size(),
                0 <= self.size() <= pow2((p + 149) as nat),
                0 <= other.size() <= pow2((q + 149) as nat),
                bound == pow2((p + 149) as nat) * pow2((q + 149) as nat),
        ;
        lemma_size_rounds_to_itself(power_bits(p + q), one_size());
        lemma_rounding_is_monotone(exact, bound, one_size());
        lemma_rounding_exists(exact, one_size());
    }

    /// One over a number with a full fraction that is no greater in size
    /// than 2 to the power of `p` has a full fraction too.
    pub proof fn lemma_reciprocal_is_normal(self, p: int)
        requires
            self.normal(),
            -126 <= p <= 125,
            self.within(p),
        ensures
            (Scalar { bits: ONE_BITS }).quotient(self).normal(),
    {
        reveal(Scalar::quotient);
        let one = Scalar { bits: ONE_BITS };
        Scalar::lemma_one_encodes_one();
        lemma_power_size(p);
        lemma_power_size(-126);
        lemma_power_size(-p);
        lemma_power_size(126);
        lemma_pow2_pos(149);
        let d = self.size();
        if self.magnitude() < power_bits(p) {
            lemma_size_grows(self.magnitude(), power_bits(p));
        }
        if self.magnitude() > power_bits(-126) {
            lemma_size_grows(power_bits(-126), self.magnitude());
        }
        lemma_pow2_pos(23);
        assert(d >= pow2(23));
        let whole = one_size() * one_size();
        assert(one.size() == one_size());
        // 2^23 <= d <= 2^(p + 149), so 2^(149 - p) <= 2^298 / d <= 2^275
        lemma_pow2_adds((149 - p) as nat, (p + 149) as nat);
        lemma_pow2_adds(275, 23);
        lemma_pow2_adds(149, 149);
        let low = size_of(power_bits(-p));
        let high = size_of(power_bits(126));
        assert(low * d <= whole && whole <= high * d) by (nonlinear_arith)
            requires
                low == pow2((149 - p) as nat),
                high == pow2(275),
                pow2(23) <= d <= pow2((p + 149) as nat),
                whole == pow2((149 - p) as nat) * pow2((p + 149) as nat),
                whole == pow2(275) * pow2(23),
                low >= 0,
                high >= 0,
        ;
        lemma_size_rounds_to_itself(power_bits(-p), d);
        lemma_size_rounds_to_itself(power_bits(126), d);
        lemma_rounding_is_monotone(low * d, whole, d);
        lemma_rounding_is_monotone(whole, high * d, d);
        lemma_rounding_exists(whole, d);
    }
}

impl Scalar {
    /// A number that is no greater in size than 2 to the power of `p` has
    /// its value between that power and its negative.
    pub proof fn lemma_within_bounds(self, p: int)
        requires
            -126 <= p <= 127,
            self.within(p),
        ensures
            self.finite(),
            -pow2((p + 149) as nat) <= self.scaled_value() <= pow2((p + 149) as nat),
    {
        lemma_power_size(p);
        assert(size_of(0) == 0);
        if self.magnitude() < power_bits(p) {
            lemma_size_grows(self.magnitude(), power_bits(p));
        }
        if self.magnitude() > 0 {
            lemma_size_grows(0, self.magnitude());
        }
    }

    /// A number that is within a power of two is within every greater one.
    pub proof fn lemma_within_grows(self, p: int, q: int)
        requires
            p <= q,
            self.within(p),
        ensures
            self.within(q),
    {
    }

    /// The negation of a number has the opposite value, and is as large.
    pub proof fn lemma_negation_turns(self, p: int)
        ensures
            self.negation().scaled_value() == -self.scaled_value(),
            self.negation().magnitude() == self.magnitude(),
            self.within(p) == self.negation().within(p),
    {
        assert(size_of(0) == 0);
    }

    /// How near a sum stays: where it is finite, it differs from the exact
    /// sum of its terms by no more than one part in 2^24 of itself, and has
    /// the sign of the exact sum.
    pub proof fn lemma_sum_is_near(self, other: Scalar)
        requires
            self.finite(),
            other.finite(),
            self.sum(other).finite(),
        ensures
            ({
                let exact = self.scaled_value() + other.scaled_value();
                let got = self.sum(other).scaled_value();
                &&& exact >= 0 ==> 0 <= got && -got <= 0x100_0000 * (got - exact) <= got
                &&& exact <= 0 ==> got <= 0 && got <= 0x100_0000 * (got - exact) <= -got
            }),
    {
        reveal(Scalar::sum);
        let exact = self.scaled_value() + other.scaled_value();
        assert(size_of(0) == 0);
        if exact != 0 {
            let size = if exact < 0 {
                -exact
            } else {
                exact
            };
            let m = rounded(size, 1);
            lemma_rounding_exists(size, 1);
            assert(self.sum(other).magnitude() == m);
            if m > 0 {
                lemma_size_grows(0, m);
            }
            if m >= 0x80_0000 {
                lemma_rounding_is_near(size, 1, m);
                assert(size_of(m) * 1 == size_of(m)) by (nonlinear_arith);
            } else {
                lemma_size_at(0, m);
                lemma_size_at(0, m + 1);
                if m > 0 {
                    lemma_size_at(0, m - 1);
                }
                assert(pow2(0) == 1) by {
                    lemma2_to64();
                }
                assert(size_of(m) == m && size_of(m + 1) == m + 1) by (nonlinear_arith)
                    requires
                        size_of(m) == m * pow2(0),
                        size_of(m + 1) == (m + 1) * pow2(0),
                        pow2(0) == 1,
                ;
                if m > 0 {
                    assert(size_of(m - 1) == m - 1) by (nonlinear_arith)
                        requires
                            size_of(m - 1) == (m - 1) * pow2(0),
                            pow2(0) == 1,
                    ;
                }
                assert(mid2(m) * 1 == 2 * m + 1) by (nonlinear_arith)
                    requires
                        mid2(m) == 2 * m + 1,
                ;
                if m > 0 {
                    assert(mid2(m - 1) * 1 == 2 * m - 1) by (nonlinear_arith)
                        requires
                            mid2(m - 1) == 2 * m - 1,
                    ;
                }
                assert(size == m);
            }
        }
    }
}

impl Scalar {
    /// Twice a number is exact: two times a number that is no greater in
    /// size than 2 to the 126th has twice its value.
    pub proof fn lemma_double_is_exact(self, p: int)
        requires
            -126 <= p <= 126,
            self.within(p),
        ensures
            (Scalar { bits: 0x4000_0000 }).product(self).scaled_value() == 2 * self.scaled_value(),
            (Scalar { bits: 0x4000_0000 }).product(self).within(p + 1),
    {
        reveal(Scalar::product);
        let two = Scalar { bits: 0x4000_0000 };
        let m = self.magnitude();
        lemma_power_size(1);
        lemma_power_size(p);
        lemma_power_size(p + 1);
        lemma_pow2_pos(149);
        vstd::arithmetic::power2::lemma_pow2_unfold(150);
        vstd::arithmetic::power2::lemma_pow2_unfold((p + 150) as nat);
        assert(two.size() == 2 * one_size());
        assert(size_of(0) == 0);
        self.lemma_within_bounds(p);
        let doubled = if m < 0x80_0000 {
            2 * m
        } else {
            m + 0x80_0000
        };
        if m < 0x80_0000 {
            lemma_size_at(0, m);
            lemma_size_at(0, 2 * m);
            assert(pow2(0) == 1) by {
                lemma2_to64();
            }
            assert(size_of(doubled) == 2 * size_of(m)) by (nonlinear_arith)
                requires
                    size_of(doubled) == (2 * m) * pow2(0),
                    size_of(m) == m * pow2(0),
            ;
        } else {
            let t = m / 0x80_0000 - 1;
            let k = m % 0x80_0000 + 0x80_0000;
            lemma_size_at(t, k);
            lemma_size_at(t + 1, k);
            vstd::arithmetic::power2::lemma_pow2_unfold((t + 1) as nat);
            assert(size_of(doubled) == 2 * size_of(m)) by (nonlinear_arith)
                requires
                    size_of(doubled) == k * pow2((t + 1) as nat),
                    size_of(m) == k * pow2(t as nat),
                    pow2((t + 1) as nat) == 2 * pow2(t as nat),
            ;
        }
        assert(0 <= doubled < INFINITY_BITS);
        lemma_size_rounds_to_itself(doubled, one_size());
        assert(two.size() * self.size() == size_of(doubled) * one_size()) by (nonlinear_arith)
            requires
                two.size() == 2 * one_size(),
                size_of(doubled) == 2 * self.size(),
        ;
        if doubled > power_bits(p + 1) {
            lemma_size_grows(power_bits(p + 1), doubled);
        }
    }

    /// How near a product stays. Where it is a number with a full
    /// fraction, it differs from the exact product of its factors by no
    /// more than one part in 2^24 of itself; where it is less, by no more
    /// than half of the least positive number. The values are taken times
    /// the size of one, which the exact product of two values has twice.
    pub proof fn lemma_product_is_near(self, other: Scalar)
        requires
            self.finite(),
            other.finite(),
            self.product(other).finite(),
        ensures
            ({
                let exact = self.scaled_value() * other.scaled_value();
                let got = self.product(other).scaled_value() * one_size();
                let size = self.product(other).size() * one_size();
                &&& self.product(other).normal() ==> -size <= 0x100_0000 * (got - exact) <= size
                &&& !self.product(other).normal() ==> -one_size() <= 2 * (got - exact)
                    <= one_size()
            }),
    {
        reveal(Scalar::product);
        let a = self.size();
        let b = other.size();
        let unit = one_size();
        let exact = a * b;
        lemma_pow2_pos(149);
        assert(size_of(0) == 0);
        if self.magnitude() > 0 {
            lemma_size_grows(0, self.magnitude());
        }
        if other.magnitude() > 0 {
            lemma_size_grows(0, other.magnitude());
        }
        let m = rounded(exact, unit);
        lemma_rounding_exists(exact, unit);
        let signed = self.signed() != other.signed();
        assert(self.product(other).magnitude() == m);
        let x = self.scaled_value();
        let y = other.scaled_value();
        let sx = self.signed();
        let sy = other.signed();
        assert(x * y == if sx != sy {
            -exact
        } else {
            exact
        }) by (nonlinear_arith)
            requires
                exact == a * b,
                x == if sx {
                    -a
                } else {
                    a
                },
                y == if sy {
                    -b
                } else {
                    b
                },
        ;
        let size = size_of(m);
        assert(self.product(other).scaled_value() * unit == if signed {
            -(size * unit)
        } else {
            size * unit
        }) by (nonlinear_arith)
            requires
                self.product(other).scaled_value() == if signed {
                    -size
                } else {
                    size
                },
        ;
        if m >= 0x80_0000 {
            lemma_rounding_is_near(exact, unit, m);
        } else {
            lemma_size_at(0, m);
            lemma_size_at(0, m + 1);
            if m > 0 {
                lemma_size_at(0, m - 1);
            }
            assert(pow2(0) == 1) by {
                lemma2_to64();
            }
            assert(size == m && size_of(m + 1) == m + 1) by (nonlinear_arith)
                requires
                    size == m * pow2(0),
                    size_of(m + 1) == (m + 1) * pow2(0),
                    pow2(0) == 1,
            ;
            if m > 0 {
                assert(size_of(m - 1) == m - 1) by (nonlinear_arith)
                    requires
                        size_of(m - 1) == (m - 1) * pow2(0),
                        pow2(0) == 1,
                ;
            }
            assert(mid2(m) * unit == 2 * (size * unit) + unit) by (nonlinear_arith)
                requires
                    mid2(m) == 2 * size + 1,
            ;
            if m > 0 {
                assert(mid2(m - 1) * unit == 2 * (size * unit) - unit) by (nonlinear_arith)
                    requires
                        mid2(m - 1) == 2 * size - 1,
                ;
            } else {
                assert(size * unit == 0) by (nonlinear_arith)
                    requires
                        size == 0,
                ;
                assert(exact >= 0) by (nonlinear_arith)
                    requires
                        exact == a * b,
                        a >= 0,
                        b >= 0,
                ;
            }
        }
    }
}

} // verus!
