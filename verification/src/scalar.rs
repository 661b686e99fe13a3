//! Numbers in the 32-bit binary interchange encoding: what a bit pattern
//! encodes, how patterns order, and what whole number a number comes to.

use vstd::prelude::*;
use vstd::arithmetic::div_mod::{
    lemma_basic_div, lemma_div_by_multiple, lemma_div_denominator, lemma_div_is_ordered,
};
use vstd::arithmetic::power2::{
    lemma2_to64, lemma2_to64_rest, lemma_pow2_adds, lemma_pow2_pos, lemma_pow2_strictly_increases,
    lemma_pow2_unfold, pow2,
};
use vstd::bits::{lemma_u64_shl_is_mul, lemma_u64_shr_is_div};

verus! {

/// The bit that carries the sign.
pub const SIGN_BIT: u32 = 0x8000_0000;

/// The encoding of positive infinity, the largest magnitude that is a number.
pub const INFINITY_BITS: u32 = 0x7F80_0000;

/// The encoding of one.
pub const ONE_BITS: u32 = 0x3F80_0000;

/// The number of fractions that there are to each exponent: 2 to the 23rd.
pub const FRACTIONS: u32 = 0x80_0000;

/// The size of the number whose pattern, without the sign, is `magnitude`,
/// in units of the least positive number, 2 to the -149th.
///
/// The low 23 bits of a magnitude are its fraction, the bits above them its
/// exponent. With exponent 0 the size is the fraction; with an exponent e
/// above 0 it is (2^23 + fraction) * 2^(e - 1).
pub open spec fn size_of(magnitude: int) -> int {
    let exponent = magnitude / (FRACTIONS as int);
    let fraction = magnitude % (FRACTIONS as int);
    if exponent == 0 {
        fraction
    } else {
        (FRACTIONS + fraction) * pow2((exponent - 1) as nat)
    }
}

/// The next magnitude has the greater size.
pub proof fn lemma_size_step(magnitude: int)
    requires
        0 <= magnitude,
    ensures
        size_of(magnitude) < size_of(magnitude + 1),
{
    let exponent = magnitude / (FRACTIONS as int);
    let fraction = magnitude % (FRACTIONS as int);
    if fraction < FRACTIONS - 1 {
        assert((magnitude + 1) / (FRACTIONS as int) == exponent);
        assert((magnitude + 1) % (FRACTIONS as int) == fraction + 1);
        if exponent > 0 {
            let unit = pow2((exponent - 1) as nat);
            lemma_pow2_pos((exponent - 1) as nat);
            assert((FRACTIONS + fraction) * unit < (FRACTIONS + fraction + 1) * unit)
                by (nonlinear_arith)
                requires
                    unit > 0,
            ;
        }
    } else {
        assert((magnitude + 1) / (FRACTIONS as int) == exponent + 1);
        assert((magnitude + 1) % (FRACTIONS as int) == 0);
        if exponent == 0 {
            assert(pow2(0) == 1) by {
                lemma_pow2_unfold(1);
                vstd::arithmetic::power2::lemma2_to64();
            }
        } else {
            let unit = pow2((exponent - 1) as nat);
            lemma_pow2_pos((exponent - 1) as nat);
            lemma_pow2_unfold(exponent as nat);
            assert(pow2(exponent as nat) == 2 * unit);
            assert((FRACTIONS + fraction) * unit < FRACTIONS * (2 * unit)) by (nonlinear_arith)
                requires
                    unit > 0,
                    fraction == FRACTIONS - 1,
                    FRACTIONS == 0x80_0000,
            ;
        }
    }
}

/// Sizes grow with magnitudes.
pub proof fn lemma_size_grows(low: int, high: int)
    requires
        0 <= low < high,
    ensures
        size_of(low) < size_of(high),
    decreases high - low,
{
    lemma_size_step(high - 1);
    if low < high - 1 {
        lemma_size_grows(low, high - 1);
    }
}

/// The whole part of a size: how many times one, which is 2 to the 149th
/// units, goes into it.
pub open spec fn whole_of(size: int) -> int {
    size / (pow2(149) as int)
}

/// Powers of two grow with their exponents.
pub proof fn lemma_pow2_grows(low: nat, high: nat)
    requires
        low <= high,
    ensures
        pow2(low) <= pow2(high),
{
    if low < high {
        lemma_pow2_strictly_increases(low, high);
    }
}

// A size below one has no whole part.
proof fn lemma_whole_of_small(mantissa: int, exponent: int)
    requires
        0 <= mantissa < 0x100_0000,
        1 <= exponent < 127,
    ensures
        whole_of(mantissa * pow2((exponent - 1) as nat)) == 0,
{
    let unit = pow2((exponent - 1) as nat);
    lemma_pow2_pos((exponent - 1) as nat);
    assert(pow2(24) == 0x100_0000) by {
        lemma2_to64();
    }
    lemma_pow2_adds(24, (exponent - 1) as nat);
    lemma_pow2_grows((exponent + 23) as nat, 149);
    assert(0 <= mantissa * unit < pow2(24) * unit) by (nonlinear_arith)
        requires
            0 <= mantissa < pow2(24),
            unit > 0,
    ;
    lemma_basic_div(mantissa * unit, pow2(149) as int);
}

// Up to exponent 150 the whole part is the mantissa without its low bits.
proof fn lemma_whole_of_middle(mantissa: int, exponent: int)
    requires
        0 <= mantissa,
        127 <= exponent <= 150,
    ensures
        whole_of(mantissa * pow2((exponent - 1) as nat)) == mantissa / (pow2(
            (150 - exponent) as nat,
        ) as int),
{
    let unit = pow2((exponent - 1) as nat) as int;
    let cut = pow2((150 - exponent) as nat) as int;
    lemma_pow2_pos((exponent - 1) as nat);
    lemma_pow2_pos((150 - exponent) as nat);
    lemma_pow2_adds((exponent - 1) as nat, (150 - exponent) as nat);
    assert(unit * cut == pow2(149));
    assert(0 <= mantissa * unit) by (nonlinear_arith)
        requires
            0 <= mantissa,
            0 < unit,
    ;
    lemma_div_denominator(mantissa * unit, unit, cut);
    lemma_div_by_multiple(mantissa, unit);
}

// Above exponent 150 the whole part is the mantissa with zeros behind it.
proof fn lemma_whole_of_large(mantissa: int, exponent: int)
    requires
        0 <= mantissa,
        150 < exponent,
    ensures
        whole_of(mantissa * pow2((exponent - 1) as nat)) == mantissa * pow2(
            (exponent - 150) as nat,
        ),
{
    let grown = pow2((exponent - 150) as nat) as int;
    let one = pow2(149) as int;
    lemma_pow2_pos((exponent - 150) as nat);
    lemma_pow2_pos(149);
    lemma_pow2_adds((exponent - 150) as nat, 149);
    assert(mantissa * (grown * one) == (mantissa * grown) * one) by (nonlinear_arith);
    assert(0 <= mantissa * grown) by (nonlinear_arith)
        requires
            0 <= mantissa,
            0 < grown,
    ;
    lemma_div_by_multiple(mantissa * grown, one);
}

// From exponent 191 on the whole part does not fit 64 bits.
proof fn lemma_whole_of_huge(mantissa: int, exponent: int)
    requires
        0x80_0000 <= mantissa,
        190 < exponent,
    ensures
        whole_of(mantissa * pow2((exponent - 1) as nat)) >= 0x1_0000_0000_0000_0000,
{
    lemma_whole_of_large(mantissa, exponent);
    let grown = pow2((exponent - 150) as nat) as int;
    lemma_pow2_grows(41, (exponent - 150) as nat);
    assert(pow2(41) == 0x200_0000_0000) by {
        lemma2_to64_rest();
    }
    assert(mantissa * grown >= 0x80_0000 * 0x200_0000_0000) by (nonlinear_arith)
        requires
            mantissa >= 0x80_0000,
            grown >= 0x200_0000_0000,
    ;
}

proof fn lemma_whole_is_not_negative(magnitude: int)
    requires
        0 <= magnitude,
    ensures
        whole_of(size_of(magnitude)) >= 0,
{
    assert(size_of(0) == 0);
    if magnitude > 0 {
        lemma_size_grows(0, magnitude);
    }
    lemma_pow2_pos(149);
    lemma_div_is_ordered(0, size_of(magnitude), pow2(149) as int);
}

/// `value` brought into the range from `low` to `high`.
pub open spec fn clamped(value: int, low: int, high: int) -> int {
    if value < low {
        low
    } else if value > high {
        high
    } else {
        value
    }
}

/// A real number in the 32-bit binary interchange encoding (sign, 8 exponent
/// bits, 23 fraction bits), held by its bit pattern.
///
/// What number a pattern encodes, [`Scalar::scaled_value`] says. Numbers of
/// this encoding order as their sign-and-magnitude integers do:
/// [`Scalar::key`] is that integer, and every comparison is stated over it.
/// Patterns whose magnitude exceeds that of infinity encode no number;
/// every comparison with one is false.
///
/// The derived `==` compares bit patterns, so it tells the two zeros apart;
/// [`Scalar::num_eq`] compares numbers.
#[derive(Clone, Copy, Debug, PartialEq, Eq, Structural)]
pub struct Scalar {
    pub bits: u32,
}

impl Scalar {
    /// The pattern without its sign bit.
    pub open spec fn magnitude(self) -> int {
        if self.bits >= SIGN_BIT {
            self.bits - SIGN_BIT
        } else {
            self.bits as int
        }
    }

    /// Whether the pattern encodes a number (infinities included).
    pub open spec fn is_number(self) -> bool {
        self.magnitude() <= INFINITY_BITS
    }

    /// The integer that orders as the encoded number does. Both zeros have key 0.
    pub open spec fn key(self) -> int {
        if self.bits >= SIGN_BIT {
            -self.magnitude()
        } else {
            self.magnitude()
        }
    }

    /// The number that the pattern encodes, in units of the least positive
    /// number, 2 to the -149th. Both zeros have value 0. The pattern of an
    /// infinity gets the value that the next exponent would start at.
    pub open spec fn scaled_value(self) -> int {
        if self.bits >= SIGN_BIT {
            -size_of(self.magnitude())
        } else {
            size_of(self.magnitude())
        }
    }

    /// Keys order as the encoded numbers do: one pattern's key is below
    /// another's exactly when its value is, and the keys are equal exactly
    /// when the values are.
    pub proof fn lemma_key_orders_as_value(self, other: Scalar)
        ensures
            self.key() < other.key() <==> self.scaled_value() < other.scaled_value(),
            self.key() == other.key() <==> self.scaled_value() == other.scaled_value(),
    {
        let a = self.magnitude();
        let b = other.magnitude();
        assert(size_of(0) == 0);
        if a < b {
            lemma_size_grows(a, b);
        }
        if b < a {
            lemma_size_grows(b, a);
        }
        if 0 < a {
            lemma_size_grows(0, a);
        }
        if 0 < b {
            lemma_size_grows(0, b);
        }
    }

    /// The named patterns encode what their names say: one is 2 to the
    /// 149th units of 2 to the -149th, and the pattern of infinity stands
    /// where the exponent beyond the largest number would start.
    pub proof fn lemma_one_encodes_one()
        ensures
            (Scalar { bits: ONE_BITS }).scaled_value() == pow2(149),
            (Scalar { bits: INFINITY_BITS }).scaled_value() == pow2(277),
            (Scalar { bits: 1 }).scaled_value() == 1,
            (Scalar { bits: 0 }).scaled_value() == 0,
            (Scalar { bits: SIGN_BIT }).scaled_value() == 0,
    {
        assert(pow2(23) == FRACTIONS) by {
            vstd::arithmetic::power2::lemma2_to64();
        }
        vstd::arithmetic::power2::lemma_pow2_adds(23, 126);
        vstd::arithmetic::power2::lemma_pow2_adds(23, 254);
    }

    /// The whole part of the number: what is left of it when the digits
    /// behind the point are cut off. A pattern that encodes no number has
    /// whole part 0.
    pub open spec fn whole(self) -> int {
        if !self.is_number() {
            0
        } else if self.bits >= SIGN_BIT {
            -whole_of(size_of(self.magnitude()))
        } else {
            whole_of(size_of(self.magnitude()))
        }
    }

    /// `self < other` as numbers.
    pub open spec fn num_lt(self, other: Scalar) -> bool {
        self.is_number() && other.is_number() && self.key() < other.key()
    }

    /// `self <= other` as numbers.
    pub open spec fn num_le(self, other: Scalar) -> bool {
        self.is_number() && other.is_number() && self.key() <= other.key()
    }

    /// `self == other` as numbers.
    pub open spec fn num_eq(self, other: Scalar) -> bool {
        self.is_number() && other.is_number() && self.key() == other.key()
    }

    /// `self > 0` as a number.
    pub open spec fn positive(self) -> bool {
        self.is_number() && self.key() > 0
    }

    /// `self >= 0` as a number.
    pub open spec fn non_negative(self) -> bool {
        self.is_number() && self.key() >= 0
    }

    /// The number with the opposite sign: the pattern with its sign bit
    /// flipped.
    pub open spec fn negation(self) -> Scalar {
        if self.bits >= SIGN_BIT {
            Scalar { bits: (self.bits - SIGN_BIT) as u32 }
        } else {
            Scalar { bits: (self.bits + SIGN_BIT) as u32 }
        }
    }

    /// Changing the sign mirrors the order: the key changes its sign, so
    /// what was less is greater, and a number stays a number.
    pub proof fn lemma_negation_mirrors(self, other: Scalar)
        ensures
            self.negation().is_number() == self.is_number(),
            self.negation().key() == -self.key(),
            self.negation().negation() == self,
            self.num_lt(other) == other.negation().num_lt(self.negation()),
            self.num_le(other) == other.negation().num_le(self.negation()),
    {
    }

    /// The scalar with the given bit pattern.
    pub fn from_bits(bits: u32) -> (s: Scalar)
        ensures
            s.bits == bits,
    {
        Scalar { bits }
    }

    /// The bit pattern.
    pub fn to_bits(&self) -> (bits: u32)
        ensures
            bits == self.bits,
    {
        self.bits
    }

    /// Positive zero.
    pub fn zero() -> (s: Scalar)
        ensures
            s.bits == 0,
    {
        Scalar { bits: 0 }
    }

    /// One.
    pub fn one() -> (s: Scalar)
        ensures
            s.bits == ONE_BITS,
    {
        Scalar { bits: ONE_BITS }
    }

    /// Whether the number is zero, of either sign.
    pub fn is_zero(&self) -> (r: bool)
        ensures
            r == (self.magnitude() == 0),
    {
        self.bits == 0 || self.bits == SIGN_BIT
    }

    /// Whether the pattern encodes no number.
    pub fn is_nan(&self) -> (r: bool)
        ensures
            r == !self.is_number(),
    {
        if self.bits >= SIGN_BIT {
            self.bits - SIGN_BIT > INFINITY_BITS
        } else {
            self.bits > INFINITY_BITS
        }
    }

    /// The ordering key of a number, `None` for a pattern that encodes none.
    pub fn ordinal(&self) -> (k: Option<i64>)
        ensures
            k is Some <==> self.is_number(),
            k matches Some(v) ==> v == self.key(),
    {
        if self.is_nan() {
            None
        } else if self.bits >= SIGN_BIT {
            let m: u32 = self.bits - SIGN_BIT;
            let k: i64 = 0 - (m as i64);
            Some(k)
        } else {
            Some(self.bits as i64)
        }
    }

    /// `self < other` as numbers; false when either encodes none.
    pub fn lt(&self, other: &Scalar) -> (r: bool)
        ensures
            r == self.num_lt(*other),
    {
        match (self.ordinal(), other.ordinal()) {
            (Some(a), Some(b)) => a < b,
            _ => false,
        }
    }

    /// `self <= other` as numbers; false when either encodes none.
    pub fn le(&self, other: &Scalar) -> (r: bool)
        ensures
            r == self.num_le(*other),
    {
        match (self.ordinal(), other.ordinal()) {
            (Some(a), Some(b)) => a <= b,
            _ => false,
        }
    }

    /// `self > 0` as a number.
    pub fn is_positive(&self) -> (r: bool)
        ensures
            r == self.positive(),
    {
        0 < self.bits && self.bits <= INFINITY_BITS
    }

    /// `self >= 0` as a number (negative zero included).
    pub fn is_non_negative(&self) -> (r: bool)
        ensures
            r == self.non_negative(),
    {
        self.bits <= INFINITY_BITS || self.bits == SIGN_BIT
    }

    // The whole part of the number's size; `None` where it does not fit
    // 64 bits.
    fn whole_size(&self) -> (w: Option<u64>)
        ensures
            w matches Some(v) ==> v == whole_of(size_of(self.magnitude())),
            w is None ==> whole_of(size_of(self.magnitude())) >= 0x1_0000_0000_0000_0000,
    {
        let magnitude: u32 = if self.bits >= SIGN_BIT {
            self.bits - SIGN_BIT
        } else {
            self.bits
        };
        let exponent: u32 = magnitude / FRACTIONS;
        let fraction: u32 = magnitude % FRACTIONS;
        let mantissa: u64 = (FRACTIONS + fraction) as u64;
        if exponent == 0 {
            proof {
                assert(pow2(23) == FRACTIONS) by {
                    lemma2_to64();
                }
                lemma_pow2_grows(23, 149);
                lemma_basic_div(fraction as int, pow2(149) as int);
            }
            Some(0)
        } else if exponent < 127 {
            proof {
                lemma_whole_of_small(mantissa as int, exponent as int);
            }
            Some(0)
        } else if exponent <= 150 {
            let shift: u64 = (150 - exponent) as u64;
            proof {
                lemma_whole_of_middle(mantissa as int, exponent as int);
                lemma_u64_shr_is_div(mantissa, shift);
            }
            Some(mantissa >> shift)
        } else if exponent <= 190 {
            let shift: u64 = (exponent - 150) as u64;
            proof {
                lemma_whole_of_large(mantissa as int, exponent as int);
                lemma_pow2_grows(shift as nat, 40);
                assert(pow2(40) == 0x100_0000_0000) by {
                    lemma2_to64_rest();
                }
                let grown = pow2(shift as nat);
                assert(mantissa * grown <= 0xFF_FFFF * 0x100_0000_0000) by (nonlinear_arith)
                    requires
                        0 <= mantissa <= 0xFF_FFFF,
                        0 <= grown <= 0x100_0000_0000,
                ;
                lemma_u64_shl_is_mul(mantissa, shift);
            }
            Some(mantissa << shift)
        } else {
            proof {
                lemma_whole_of_huge(mantissa as int, exponent as int);
            }
            None
        }
    }

    /// The whole part of the number as a 32-bit integer: the nearest one
    /// where the whole part is beyond the integer's range, zero for a
    /// pattern that encodes no number.
    pub fn to_i32(&self) -> (r: i32)
        ensures
            r == clamped(self.whole(), i32::MIN as int, i32::MAX as int),
    {
        if self.is_nan() {
            return 0;
        }
        let negative = self.bits >= SIGN_BIT;
        match self.whole_size() {
            Some(size) => {
                if negative {
                    if size >= 0x8000_0000 {
                        i32::MIN
                    } else {
                        0 - (size as i32)
                    }
                } else if size > 0x7FFF_FFFF {
                    i32::MAX
                } else {
                    size as i32
                }
            },
            None => {
                if negative {
                    i32::MIN
                } else {
                    i32::MAX
                }
            },
        }
    }

    /// The whole part of the number as an index: zero for a number below
    /// zero and for a pattern that encodes no number, the greatest index
    /// where the whole part is beyond it.
    pub fn to_usize(&self) -> (r: usize)
        ensures
            r == clamped(self.whole(), 0, usize::MAX as int),
    {
        if self.is_nan() {
            return 0;
        }
        proof {
            lemma_whole_is_not_negative(self.magnitude());
        }
        if self.bits >= SIGN_BIT {
            return 0;
        }
        match self.whole_size() {
            Some(size) => {
                if size > usize::MAX as u64 {
                    usize::MAX
                } else {
                    size as usize
                }
            },
            None => usize::MAX,
        }
    }

    /// The whole part of the number as a byte: zero for a number below
    /// zero and for a pattern that encodes no number, 255 where the whole
    /// part is beyond it.
    pub fn to_u8(&self) -> (r: u8)
        ensures
            r == clamped(self.whole(), 0, 255),
    {
        if self.is_nan() {
            return 0;
        }
        proof {
            lemma_whole_is_not_negative(self.magnitude());
        }
        if self.bits >= SIGN_BIT {
            return 0;
        }
        match self.whole_size() {
            Some(size) => {
                if size > 255 {
                    255
                } else {
                    size as u8
                }
            },
            None => 255,
        }
    }

    /// The number with the opposite sign.
    pub fn negated(&self) -> (s: Scalar)
        ensures
            s == self.negation(),
    {
        if self.bits >= SIGN_BIT {
            Scalar { bits: self.bits - SIGN_BIT }
        } else {
            Scalar { bits: self.bits + SIGN_BIT }
        }
    }
}

} // verus!
