//! Reading decimal numerals.

use vstd::prelude::*;
use vstd::arithmetic::power::{
    lemma_pow0, lemma_pow1, lemma_pow_adds, lemma_pow_distributes, lemma_pow_increases,
    lemma_pow_multiplies,
    lemma_pow_positive, pow,
};
use vstd::arithmetic::power2::{
    lemma2_to64, lemma2_to64_rest, lemma_pow2, lemma_pow2_adds, lemma_pow2_pos, lemma_pow2_unfold,
    pow2,
};
use crate::arithmetic::{one_size, NAN_BITS};
use crate::natural::{lemma_value_is_short, times_plus, times_power, value, weigh, Comparison};
use crate::loader::{decimal, is_digit, DIGIT_NINE, DIGIT_ZERO, PLUS};
use crate::rounding::{
    brackets, lemma_rounding_is_unique, lemma_settled_rounds, lemma_size_at, mid2, round, rounded,
    rounds_to,
};
use crate::scalar::{
    lemma_pow2_grows, lemma_size_grows, size_of, Scalar, INFINITY_BITS, SIGN_BIT,
};

verus! {

/// The sign of a negative number.
pub const MINUS: u8 = 45;

/// The point between the whole part and the fraction.
pub const POINT: u8 = 46;

/// The letter e, which starts the exponent; in either case.
pub const LETTER_E: u8 = 101;

/// What the digits of a numeral come to at most, a tenth of it, where the
/// numeral is read the short way, in machine words: 10^37.
pub const DIGITS_LIMIT: u128 = 10_000_000_000_000_000_000_000_000_000_000_000_000;

/// A tenth of the exponent from which on a numeral is beyond all numbers,
/// or nothing is left of it, whatever its digits: 10^30.
pub const EXPONENT_LIMIT: u128 = 1_000_000_000_000_000_000_000_000_000_000;

/// The most places behind the point, once the exponent is taken in, that a
/// numeral may have where it is read the short way.
pub const FINEST: i64 = 54;

/// What a decimal numeral stands for.
pub enum Numeral {
    Infinite,
    NotANumber,
    /// `digits` times ten to the power of `exponent`.
    Finite { digits: nat, exponent: int },
}

/// A decimal numeral with its sign.
pub struct Decimal {
    pub signed: bool,
    pub numeral: Numeral,
}

/// Where the run of digits that starts at `i` ends.
pub open spec fn digits_end(text: Seq<u8>, i: int) -> int
    decreases text.len() - i,
{
    if 0 <= i < text.len() && is_digit(text[i]) {
        digits_end(text, i + 1)
    } else {
        i
    }
}

/// A letter in lower case; any other byte as it is.
pub open spec fn lower(byte: u8) -> u8 {
    if 65 <= byte <= 90 {
        (byte + 32) as u8
    } else {
        byte
    }
}

/// Whether the text is the word, in whatever case. The word is in lower
/// case.
pub open spec fn spells(text: Seq<u8>, word: Seq<u8>) -> bool {
    text.len() == word.len() && forall|i: int| 0 <= i < text.len() ==> lower(text[i]) == word[i]
}

/// The word `inf`.
pub open spec fn word_inf() -> Seq<u8> {
    seq![105u8, 110u8, 102u8]
}

/// The word `infinity`.
pub open spec fn word_infinity() -> Seq<u8> {
    seq![105u8, 110u8, 102u8, 105u8, 110u8, 105u8, 116u8, 121u8]
}

/// The word `nan`.
pub open spec fn word_nan() -> Seq<u8> {
    seq![110u8, 97u8, 110u8]
}

/// The exponent that the text from `i` on gives: none at the end of the
/// text; else the letter e, an optional sign, and one or more digits up to
/// the end of the text.
pub open spec fn exponent_of(text: Seq<u8>, i: int) -> Option<int> {
    if i == text.len() {
        Some(0)
    } else if lower(text[i]) != LETTER_E {
        None
    } else {
        let negative = i + 1 < text.len() && text[i + 1] == MINUS;
        let from = if i + 1 < text.len() && (text[i + 1] == PLUS || text[i + 1] == MINUS) {
            i + 2
        } else {
            i + 1
        };
        let to = digits_end(text, from);
        if to == from || to != text.len() {
            None
        } else if negative {
            Some(-(decimal(text.subrange(from, to)) as int))
        } else {
            Some(decimal(text.subrange(from, to)) as int)
        }
    }
}

/// Where the digits of a numeral that start at `start` end: after the run
/// of digits, and after the point and the digits that follow it, if there
/// is a point.
pub open spec fn mantissa_end(text: Seq<u8>, start: int) -> int {
    let point = digits_end(text, start);
    if point < text.len() && text[point] == POINT {
        digits_end(text, point + 1)
    } else {
        point
    }
}

/// How many digits stand behind the point.
pub open spec fn mantissa_places(text: Seq<u8>, start: int) -> int {
    let point = digits_end(text, start);
    if point < text.len() && text[point] == POINT {
        digits_end(text, point + 1) - point - 1
    } else {
        0
    }
}

/// How many digits there are, before and behind the point.
pub open spec fn mantissa_length(text: Seq<u8>, start: int) -> int {
    digits_end(text, start) - start + mantissa_places(text, start)
}

/// What the digits come to, read without the point.
pub open spec fn mantissa_digits(text: Seq<u8>, start: int) -> nat {
    let point = digits_end(text, start);
    let whole = decimal(text.subrange(start, point));
    if point < text.len() && text[point] == POINT {
        (whole * pow(10, (digits_end(text, point + 1) - point - 1) as nat) + decimal(
            text.subrange(point + 1, digits_end(text, point + 1)),
        )) as nat
    } else {
        whole
    }
}

/// What a token stands for as a decimal numeral, if it is one: an optional
/// sign, then `inf`, `infinity` or `nan` in whatever case, or digits with
/// at most one point among them, at least one digit in all, and an optional
/// exponent.
pub open spec fn decimal_of(text: Seq<u8>) -> Option<Decimal> {
    let signed = text.len() > 0 && text[0] == MINUS;
    let start: int = if text.len() > 0 && (text[0] == PLUS || text[0] == MINUS) {
        1
    } else {
        0
    };
    let body = text.subrange(start, text.len() as int);
    if spells(body, word_inf()) || spells(body, word_infinity()) {
        Some(Decimal { signed, numeral: Numeral::Infinite })
    } else if spells(body, word_nan()) {
        Some(Decimal { signed, numeral: Numeral::NotANumber })
    } else if mantissa_length(text, start) == 0 {
        None
    } else {
        match exponent_of(text, mantissa_end(text, start)) {
            None => None,
            Some(e) => Some(
                Decimal {
                    signed,
                    numeral: Numeral::Finite {
                        digits: mantissa_digits(text, start),
                        exponent: e - mantissa_places(text, start),
                    },
                },
            ),
        }
    }
}

proof fn lemma_digits_end_skip(text: Seq<u8>, i: int, j: int)
    requires
        0 <= i <= j <= text.len(),
        forall|k: int| i <= k < j ==> is_digit(#[trigger] text[k]),
    ensures
        digits_end(text, i) == digits_end(text, j),
    decreases j - i,
{
    if i < j {
        lemma_digits_end_skip(text, i + 1, j);
    }
}

// A run of digits is read: where it ends, and what it adds to the value
// read so far. `None` for the value where it would pass the limit.
fn scan_digits(text: &[u8], from: usize, value: u128, limit: u128) -> (r: (usize, Option<u128>))
    requires
        from <= text@.len(),
        value < limit,
        limit <= DIGITS_LIMIT,
    ensures
        r.0 == digits_end(text@, from as int),
        from <= r.0 <= text@.len(),
        r.1 matches Some(v) ==> v == value * pow(10, (r.0 - from) as nat) + decimal(
            text@.subrange(from as int, r.0 as int),
        ),
        r.1 is Some <==> value * pow(10, (r.0 - from) as nat) + decimal(
            text@.subrange(from as int, r.0 as int),
        ) < 10 * limit,
{
    let mut i: usize = from;
    let mut acc: u128 = value;
    let mut over: bool = false;
    proof {
        lemma_pow0(10);
        assert(text@.subrange(from as int, from as int) =~= Seq::<u8>::empty());
        assert(value * 1 == value) by (nonlinear_arith);
    }
    while i < text.len() && text[i] >= DIGIT_ZERO && text[i] <= DIGIT_NINE
        invariant
            from <= i <= text@.len(),
            limit <= DIGITS_LIMIT,
            forall|k: int| from <= k < i ==> is_digit(#[trigger] text@[k]),
            !over ==> acc == value * pow(10, (i - from) as nat) + decimal(
                text@.subrange(from as int, i as int),
            ),
            !over ==> acc < 10 * limit,
            over ==> value * pow(10, (i - from) as nat) + decimal(
                text@.subrange(from as int, i as int),
            ) >= 10 * limit,
        decreases text@.len() - i,
    {
        let digit: u128 = (text[i] - DIGIT_ZERO) as u128;
        proof {
            let before = text@.subrange(from as int, i as int);
            let after = text@.subrange(from as int, i + 1);
            assert(after.drop_last() =~= before);
            assert(after.last() == text@[i as int]);
            lemma_pow_adds(10, (i - from) as nat, 1);
            lemma_pow1(10);
            let p = pow(10, (i - from) as nat);
            assert((value * p + decimal(before)) * 10 + digit == value * (p * 10) + (decimal(
                before,
            ) * 10 + digit)) by (nonlinear_arith);
        }
        if !over {
            if acc >= limit {
                over = true;
            } else {
                acc = acc * 10 + digit;
            }
        }
        i += 1;
    }
    proof {
        lemma_digits_end_skip(text@, from as int, i as int);
    }
    if over {
        (i, None)
    } else {
        (i, Some(acc))
    }
}

impl Decimal {
    /// The number that the numeral stands for, rounded to the nearest
    /// number that the encoding has.
    pub open spec fn value(self) -> Scalar {
        match self.numeral {
            Numeral::Infinite => Scalar::with(self.signed, INFINITY_BITS as int),
            Numeral::NotANumber => Scalar::with(self.signed, NAN_BITS as int),
            Numeral::Finite { digits, exponent } => if exponent >= 0 {
                Scalar::with(
                    self.signed,
                    rounded((digits * pow(10, exponent as nat)) * one_size(), 1),
                )
            } else {
                Scalar::with(self.signed, rounded(digits * one_size(), pow(10, (-exponent) as nat)))
            },
        }
    }
}

fn with_sign(signed: bool, magnitude: u32) -> (s: Scalar)
    requires
        magnitude < SIGN_BIT,
    ensures
        s == Scalar::with(signed, magnitude as int),
{
    if signed {
        Scalar { bits: magnitude + SIGN_BIT }
    } else {
        Scalar { bits: magnitude }
    }
}

// A size from that of infinity on rounds to infinity.
proof fn lemma_huge_is_infinite(num: int, den: int)
    requires
        den > 0,
        num >= pow2(277) * den,
    ensures
        rounded(num, den) == INFINITY_BITS,
{
    Scalar::lemma_one_encodes_one();
    assert(size_of(INFINITY_BITS as int) == pow2(277));
    lemma_size_grows(INFINITY_BITS - 1, INFINITY_BITS as int);
    assert(mid2(INFINITY_BITS - 1) * den < 2 * num) by (nonlinear_arith)
        requires
            mid2(INFINITY_BITS - 1) < 2 * pow2(277),
            num >= pow2(277) * den,
            den > 0,
    ;
    lemma_rounding_is_unique(num, den, INFINITY_BITS as int);
}

// The number that `digits * 10^exponent` stands for, with an exponent
// from zero up.
fn scaled_up(digits: u128, exponent: u64) -> (m: u32)
    requires
        0 < digits < 10 * DIGITS_LIMIT,
    ensures
        m == rounded((digits * pow(10, exponent as nat)) * one_size(), 1),
        m <= INFINITY_BITS,
{
    let mut n: u128 = digits;
    let mut j: u64 = 0;
    proof {
        lemma_pow0(5);
        assert(digits * 1 == digits) by (nonlinear_arith);
    }
    while j < exponent
        invariant
            j <= exponent,
            n == digits * pow(5, j as nat),
            0 < n < 0x8000_0000_0000_0000_0000_0000_0000_0000,
        decreases exponent - j,
    {
        if n > 0x1999_9999_9999_9999_9999_9999_9999_9999 {
            proof {
                // five times n is 2^127 or more, and there is a power of
                // two to come that doubles it at least
                let rest = (exponent - j - 1) as nat;
                let e = exponent as nat;
                lemma_pow_adds(5, (j + 1) as nat, rest);
                lemma_pow_adds(5, j as nat, 1);
                lemma_pow1(5);
                lemma_pow_positive(5, rest);
                lemma_pow_distributes(2, 5, e);
                lemma_pow2(e);
                lemma_pow2_grows(1, e);
                lemma2_to64();
                lemma2_to64_rest();
                lemma_pow2_adds(64, 63);
                lemma_pow2_adds(127, 1);
                lemma_pow2_adds(128, 149);
                lemma_pow2_pos(149);
                let five = pow(5, e);
                assert(digits * five >= pow2(127)) by (nonlinear_arith)
                    requires
                        five == (pow(5, j as nat) * 5) * pow(5, rest),
                        n == digits * pow(5, j as nat),
                        n * 5 >= pow2(127),
                        pow(5, rest) >= 1,
                        digits > 0,
                ;
                assert((digits * pow(10, e)) * one_size() >= pow2(277) * 1) by (nonlinear_arith)
                    requires
                        pow(10, e) == pow2(e) * five,
                        digits * five >= pow2(127),
                        pow2(e) >= 2,
                        pow2(277) == (pow2(127) * 2) * one_size(),
                        one_size() > 0,
                ;
                lemma_huge_is_infinite((digits * pow(10, e)) * one_size(), 1);
            }
            return INFINITY_BITS;
        }
        proof {
            lemma_pow_adds(5, j as nat, 1);
            lemma_pow1(5);
            assert((digits * pow(5, j as nat)) * 5 == digits * (pow(5, j as nat) * 5))
                by (nonlinear_arith);
        }
        n = n * 5;
        j += 1;
    }
    proof {
        // five to the exponent is below 2^127, so the exponent is small
        lemma_pow_positive(5, exponent as nat);
        assert(pow(5, exponent as nat) <= n) by (nonlinear_arith)
            requires
                n == digits * pow(5, exponent as nat),
                digits >= 1,
                pow(5, exponent as nat) > 0,
        ;
        lemma_pow_bound(exponent as nat);
    }
    let m = round(n, false, 149 + exponent as u32, 0);
    proof {
        let e = exponent as nat;
        let num = (digits * pow(10, e)) * one_size();
        lemma_pow_distributes(2, 5, e);
        lemma_pow2(e);
        lemma_pow2_adds(149, e);
        lemma_pow2_pos(149 + e);
        assert(pow2(0) == 1) by {
            lemma2_to64();
        }
        assert(num == n * pow2(149 + e)) by (nonlinear_arith)
            requires
                num == (digits * (pow2(e) * pow(5, e))) * one_size(),
                n == digits * pow(5, e),
                pow2(149 + e) == one_size() * pow2(e),
        ;
        lemma_rounding_is_unique(num, 1, m as int);
    }
    m
}

// A power of five below 2^127 has an exponent below 55.
proof fn lemma_pow_bound(e: nat)
    requires
        pow(5, e) < 0x8000_0000_0000_0000_0000_0000_0000_0000,
    ensures
        e < 55,
{
    if e >= 55 {
        lemma_pow_adds(5, 55, (e - 55) as nat);
        lemma_pow_positive(5, (e - 55) as nat);
        lemma_five_to_55();
        assert(pow(5, 55) * pow(5, (e - 55) as nat) >= pow(5, 55)) by (nonlinear_arith)
            requires
                pow(5, (e - 55) as nat) >= 1,
                pow(5, 55) > 0,
        ;
    }
}

proof fn lemma_five_to_55()
    ensures
        pow(5, 55) == 277_555_756_156_289_135_105_907_917_022_705_078_125,
        pow(5, 54) == 55_511_151_231_257_827_021_181_583_404_541_015_625,
        pow(5, 27) == 7_450_580_596_923_828_125,
{
    lemma_pow1(5);
    lemma_pow_adds(5, 1, 1);
    lemma_pow_adds(5, 2, 1);
    lemma_pow_adds(5, 3, 3);
    lemma_pow_adds(5, 6, 3);
    lemma_pow_adds(5, 9, 9);
    lemma_pow_adds(5, 18, 9);
    lemma_pow_adds(5, 27, 27);
    lemma_pow_adds(5, 54, 1);
    assert(pow(5, 2) == 25) by (nonlinear_arith)
        requires
            pow(5, 2) == pow(5, 1) * pow(5, 1),
            pow(5, 1) == 5,
    ;
    assert(pow(5, 3) == 125);
    assert(pow(5, 6) == 15_625) by (nonlinear_arith)
        requires
            pow(5, 6) == pow(5, 3) * pow(5, 3),
            pow(5, 3) == 125,
    ;
    assert(pow(5, 9) == 1_953_125);
    assert(pow(5, 18) == 3_814_697_265_625) by (nonlinear_arith)
        requires
            pow(5, 18) == pow(5, 9) * pow(5, 9),
            pow(5, 9) == 1_953_125,
    ;
    assert(pow(5, 27) == 7_450_580_596_923_828_125);
    assert(pow(5, 54) == 55_511_151_231_257_827_021_181_583_404_541_015_625)
        by (nonlinear_arith)
        requires
            pow(5, 54) == pow(5, 27) * pow(5, 27),
            pow(5, 27) == 7_450_580_596_923_828_125,
    ;
}

// The number that `digits / 10^places` stands for; `None` where the
// fraction is too fine for the short way.
fn scaled_down(digits: u128, places: u64) -> (r: Option<u32>)
    requires
        0 < digits < 10 * DIGITS_LIMIT,
        places >= 1,
    ensures
        r matches Some(m) ==> m == rounded(digits * one_size(), pow(10, places as nat)) && m
            <= INFINITY_BITS,
        r is Some <==> places <= FINEST,
{
    if places > FINEST as u64 {
        return None;
    }
    let mut den: u128 = 1;
    let mut j: u64 = 0;
    proof {
        lemma_pow0(5);
        lemma_five_to_55();
    }
    while j < places
        invariant
            j <= places <= 54,
            FINEST == 54,
            den == pow(5, j as nat),
            pow(5, 54) == 55_511_151_231_257_827_021_181_583_404_541_015_625,
        decreases places - j,
    {
        proof {
            lemma_pow_adds(5, j as nat, 1);
            lemma_pow1(5);
            lemma_pow_increases(5, (j + 1) as nat, 54);
        }
        den = den * 5;
        j += 1;
    }
    proof {
        lemma_pow_positive(5, places as nat);
        lemma_pow_increases(5, places as nat, 54);
        vstd::arithmetic::div_mod::lemma_fundamental_div_mod(digits as int, den as int);
        vstd::arithmetic::div_mod::lemma_mod_pos_bound(digits as int, den as int);
        vstd::arithmetic::div_mod::lemma_div_pos_is_pos(digits as int, den as int);
        assert(pow2(0) == 1) by {
            lemma2_to64();
        }
        let q0 = digits as int / den as int;
        assert(q0 * den == den * q0) by (nonlinear_arith);
        assert(digits * 1 == digits) by (nonlinear_arith);
        assert(q0 <= digits) by (nonlinear_arith)
            requires
                q0 * den <= digits,
                den >= 1,
                q0 >= 0,
        ;
    }
    // the quotient, bit by bit, until it has 27 bits
    let mut q: u128 = digits / den;
    let mut rest: u128 = digits % den;
    let mut i: u32 = 0;
    while q < 0x400_0000 && i < 400
        invariant
            i <= 400,
            0 < den <= 55_511_151_231_257_827_021_181_583_404_541_015_625,
            q * den + rest == digits * pow2(i as nat),
            rest < den,
            q < 0x8000_0000_0000_0000_0000_0000_0000_0000,
        decreases 400 - i,
    {
        proof {
            lemma_pow2_unfold((i + 1) as nat);
            assert((q * den + rest) * 2 == (2 * q) * den + 2 * rest && (2 * q + 1) * den == (2
                * q) * den + den) by (nonlinear_arith);
            assert(digits * (2 * pow2(i as nat)) == (digits * pow2(i as nat)) * 2)
                by (nonlinear_arith);
        }
        let doubled: u128 = rest * 2;
        if doubled >= den {
            q = q * 2 + 1;
            rest = doubled - den;
        } else {
            q = q * 2;
            rest = doubled;
        }
        i += 1;
    }
    let sticky = rest != 0;
    proof {
        if q < 0x400_0000 {
            // 400 doublings of a number that is not zero pass any such quotient
            lemma_pow2_grows(153, 400);
            lemma2_to64();
            lemma2_to64_rest();
            lemma_pow2_adds(64, 63);
            lemma_pow2_adds(127, 26);
            assert(false) by (nonlinear_arith)
                requires
                    q * den + rest == digits * pow2(400),
                    rest < den,
                    q < 0x400_0000,
                    den < 0x8000_0000_0000_0000_0000_0000_0000_0000,
                    pow2(400) >= 0x8000_0000_0000_0000_0000_0000_0000_0000 * 0x400_0000,
                    digits >= 1,
            ;
        }
    }
    let total: u64 = places + i as u64;
    let (up, down): (u32, u32) = if total <= 149 {
        ((149 - total) as u32, 0)
    } else {
        (0, (total - 149) as u32)
    };
    let m = round(q, sticky, up, down);
    proof {
        let k = places as nat;
        let num = digits * one_size();
        let ten = pow(10, k);
        let u = pow2(up as nat) as int;
        let d = pow2(down as nat) as int;
        let step = pow2(i as nat) as int;
        let two = pow2(k) as int;
        lemma_pow_distributes(2, 5, k);
        lemma_pow2(k);
        lemma_pow2_pos(k);
        lemma_pow2_pos(i as nat);
        lemma_pow2_pos(up as nat);
        lemma_pow2_pos(down as nat);
        lemma_pow2_pos(149);
        // u * 2^k * 2^i == 2^149 * d
        lemma_pow2_adds(k, i as nat);
        lemma_pow2_adds(up as nat, (k + i) as nat);
        lemma_pow2_adds(149, down as nat);
        let scale = u * two;
        assert(scale * step == one_size() * d) by (nonlinear_arith)
            requires
                scale == u * two,
                u * (two * step) == one_size() * d,
        ;
        assert(scale > 0) by (nonlinear_arith)
            requires
                scale == u * two,
                u > 0,
                two > 0,
        ;
        assert(ten > 0) by (nonlinear_arith)
            requires
                ten == two * den,
                two > 0,
                den > 0,
        ;
        assert((q * u) * ten == (q * den) * scale && ((q + 1) * u) * ten == ((q + 1) * den)
            * scale && num * d == (digits * step) * scale) by (nonlinear_arith)
            requires
                ten == two * den,
                scale == u * two,
                num == digits * one_size(),
                scale * step == one_size() * d,
        ;
        assert((q * den) * scale <= (digits * step) * scale && (digits * step) * scale < ((q
            + 1) * den) * scale && (rest != 0 <==> (q * den) * scale != (digits * step) * scale))
            by (nonlinear_arith)
            requires
                q * den + rest == digits * step,
                0 <= rest < den,
                scale > 0,
        ;
        assert(brackets(num, ten, q as int, sticky, up as nat, down as nat));
        lemma_settled_rounds(num, ten, q as int, sticky, up as nat, down as nat, m as int);
        lemma_rounding_is_unique(num, ten, m as int);
    }
    Some(m)
}

// Ten to a power is no less than eight to it.
proof fn lemma_ten_outgrows(n: nat)
    ensures
        pow2(3 * n) <= pow(10, n),
    decreases n,
{
    if n == 0 {
        lemma_pow0(10);
        lemma2_to64();
    } else {
        lemma_ten_outgrows((n - 1) as nat);
        lemma_pow_adds(10, (n - 1) as nat, 1);
        lemma_pow1(10);
        lemma_pow2_adds((3 * (n - 1)) as nat, 3);
        lemma2_to64();
        lemma_pow2_pos((3 * (n - 1)) as nat);
        assert(pow2((3 * (n - 1)) as nat) * 8 <= pow(10, (n - 1) as nat) * 10) by (nonlinear_arith)
            requires
                0 < pow2((3 * (n - 1)) as nat) <= pow(10, (n - 1) as nat),
        ;
    }
}

// A number of at least ten to the 43rd is beyond all that the encoding has.
proof fn lemma_long_is_infinite(digits: int, exponent: int)
    requires
        digits >= 1,
        exponent >= 43,
    ensures
        rounded((digits * pow(10, exponent as nat)) * one_size(), 1) == INFINITY_BITS,
{
    let ten = pow(10, exponent as nat);
    lemma_ten_outgrows(43);
    lemma_pow_increases(10, 43, exponent as nat);
    lemma_pow2_adds(128, 149);
    lemma_pow2_grows(128, 129);
    lemma_pow2_pos(149);
    lemma_pow2_pos(128);
    assert((digits * ten) * one_size() >= pow2(277) * 1) by (nonlinear_arith)
        requires
            digits >= 1,
            ten >= pow2(128),
            pow2(128) > 0,
            one_size() > 0,
            pow2(277) == pow2(128) * one_size(),
    ;
    lemma_huge_is_infinite((digits * ten) * one_size(), 1);
}

// A number below ten to the -50th is nearer to zero than to any other.
proof fn lemma_long_is_nothing(digits: int, span: nat, exponent: int)
    requires
        0 <= digits < pow(10, span),
        exponent + span <= -50,
    ensures
        rounded(digits * one_size(), pow(10, (-exponent) as nat)) == 0,
{
    let den = pow(10, (-exponent) as nat);
    let most = pow(10, span);
    lemma_ten_outgrows(50);
    lemma_pow_adds(10, span, 50);
    lemma_pow_increases(10, span + 50, (-exponent) as nat);
    lemma_pow_positive(10, (-exponent) as nat);
    lemma_pow2_unfold(150);
    lemma_pow2_pos(149);
    lemma_size_grows(0, 1);
    assert(size_of(0) == 0);
    assert(size_of(1) == 1);
    assert(2 * (digits * one_size()) < mid2(0) * den) by (nonlinear_arith)
        requires
            0 <= digits < most,
            most * pow(10, 50) <= den,
            pow2(150) <= pow(10, 50),
            pow2(150) == 2 * one_size(),
            one_size() > 0,
            mid2(0) == 1,
    ;
    lemma_rounding_is_unique(digits * one_size(), den, 0);
}

// Whether a size is below the middle between the number with magnitude
// `m` and the next, or in that middle with `m` even.
spec fn settles_by(num: int, den: int, m: int) -> bool {
    2 * num < mid2(m) * den || (2 * num == mid2(m) * den && m % 2 == 0)
}

// Twice the middle between a number and the next: an odd number, and the
// power of two that it is taken times.
fn middle(m: u32) -> (r: (u32, u32))
    requires
        m < INFINITY_BITS,
    ensures
        mid2(m as int) == r.0 * pow2(r.1 as nat),
        r.1 <= 253,
{
    let (t, k): (u32, u32) = if m < 0x100_0000 {
        (0, m)
    } else {
        (m / 0x80_0000 - 1, 0x80_0000 + m % 0x80_0000)
    };
    proof {
        lemma_size_at(t as int, k as int);
        lemma_size_at(t as int, k + 1);
        assert(t * 0x80_0000 + k == m);
        let unit = pow2(t as nat);
        assert(k * unit + (k + 1) * unit == (2 * k + 1) * unit) by (nonlinear_arith);
    }
    (2 * k + 1, t)
}

// The rounding of the size x / y, found among all magnitudes by halving.
fn nearest(x: &Vec<u32>, y: &Vec<u32>) -> (m: u32)
    requires
        value(y@) > 0,
    ensures
        m == rounded(value(x@) as int, value(y@) as int),
        m <= INFINITY_BITS,
{
    let twice = times_plus(x, 2, 0);
    let ghost num = value(x@) as int;
    let ghost den = value(y@) as int;
    let mut low: u32 = 0;
    let mut high: u32 = INFINITY_BITS;
    while low < high
        invariant
            low <= high <= INFINITY_BITS,
            num == value(x@),
            den == value(y@),
            value(twice@) == 2 * num,
            high == INFINITY_BITS || settles_by(num, den, high as int),
            low == 0 || !settles_by(num, den, low - 1),
        decreases high - low,
    {
        let m: u32 = low + (high - low) / 2;
        let (odd, shift) = middle(m);
        // the power of two, sixteen doublings at a time
        let wide = times_power(times_plus(y, odd, 0), 0x1_0000, (shift / 16) as u128);
        let edge = times_power(wide, 2, (shift % 16) as u128);
        proof {
            let many = (shift / 16) as nat;
            let few = (shift % 16) as nat;
            lemma_pow2(shift as nat);
            lemma_pow2(16);
            lemma2_to64();
            lemma_pow_multiplies(2, 16, many);
            lemma_pow_adds(2, 16 * many, few);
            assert(value(edge@) == mid2(m as int) * den) by (nonlinear_arith)
                requires
                    value(edge@) == ((den * odd + 0) * pow(0x1_0000, many)) * pow(2, few),
                    mid2(m as int) == odd * pow2(shift as nat),
                    pow2(shift as nat) == pow(0x1_0000, many) * pow(2, few),
            ;
        }
        let settled = match weigh(&twice, &edge) {
            Comparison::Below => true,
            Comparison::Same => m % 2 == 0,
            Comparison::Above => false,
        };
        if settled {
            high = m;
        } else {
            low = m + 1;
        }
    }
    proof {
        assert(rounds_to(num, den, low as int));
        lemma_rounding_is_unique(num, den, low as int);
    }
    low
}

// A run of digits is read behind a number of any size: where it ends, and
// the number with the digits behind it.
fn scan_natural(text: &[u8], from: usize, before: Vec<u32>) -> (r: (usize, Vec<u32>))
    requires
        from <= text@.len(),
    ensures
        r.0 == digits_end(text@, from as int),
        from <= r.0 <= text@.len(),
        value(r.1@) == value(before@) * pow(10, (r.0 - from) as nat) + decimal(
            text@.subrange(from as int, r.0 as int),
        ),
{
    let mut i: usize = from;
    let mut acc: Vec<u32> = before;
    let ghost first = value(before@) as int;
    proof {
        lemma_pow0(10);
        assert(text@.subrange(from as int, from as int) =~= Seq::<u8>::empty());
        assert(first * 1 == first) by (nonlinear_arith);
    }
    while i < text.len() && text[i] >= DIGIT_ZERO && text[i] <= DIGIT_NINE
        invariant
            from <= i <= text@.len(),
            forall|k: int| from <= k < i ==> is_digit(#[trigger] text@[k]),
            value(acc@) == first * pow(10, (i - from) as nat) + decimal(
                text@.subrange(from as int, i as int),
            ),
        decreases text@.len() - i,
    {
        let digit: u32 = (text[i] - DIGIT_ZERO) as u32;
        proof {
            let read = text@.subrange(from as int, i as int);
            let after = text@.subrange(from as int, i + 1);
            assert(after.drop_last() =~= read);
            assert(after.last() == text@[i as int]);
            lemma_pow_adds(10, (i - from) as nat, 1);
            lemma_pow1(10);
            let p = pow(10, (i - from) as nat);
            assert((first * p + decimal(read)) * 10 + digit == first * (p * 10) + (decimal(read)
                * 10 + digit)) by (nonlinear_arith);
        }
        acc = times_plus(&acc, 10, digit);
        i += 1;
    }
    proof {
        lemma_digits_end_skip(text@, from as int, i as int);
    }
    (i, acc)
}

// The digits of a numeral, of whatever length: what they come to.
fn long_mantissa(token: &[u8], start: usize) -> (digits: Vec<u32>)
    requires
        start <= token@.len(),
    ensures
        value(digits@) == mantissa_digits(token@, start as int),
{
    let (point, whole) = scan_natural(token, start, Vec::new());
    proof {
        let p = pow(10, (point - start) as nat);
        assert(0 * p == 0) by (nonlinear_arith);
    }
    if point < token.len() && token[point] == POINT {
        let (_, all) = scan_natural(token, point + 1, whole);
        all
    } else {
        whole
    }
}

// The number that a numeral of whatever length stands for. The exponent
// that it is written with is `e`: its sign, and how much it comes to, if
// that is within the limit.
fn read_long(
    token: &[u8],
    start: usize,
    places: usize,
    signed: bool,
    negative: bool,
    magnitude: Option<u128>,
    Ghost(e): Ghost<int>,
) -> (s: Scalar)
    requires
        start <= token@.len(),
        places == mantissa_places(token@, start as int),
        match magnitude {
            Some(v) => v < 10 * EXPONENT_LIMIT && e == if negative {
                -(v as int)
            } else {
                v as int
            },
            None => if negative {
                e <= -10 * EXPONENT_LIMIT
            } else {
                e >= 10 * EXPONENT_LIMIT
            },
        },
    ensures
        s == (Decimal {
            signed,
            numeral: Numeral::Finite {
                digits: mantissa_digits(token@, start as int),
                exponent: e - places,
            },
        }).value(),
{
    let digits = long_mantissa(token, start);
    let nothing: Vec<u32> = Vec::new();
    // the digits come to less than ten to this
    let span: u128 = 10 * (digits.len() as u128);
    proof {
        lemma_value_is_short(digits@);
    }
    let ghost d = value(digits@) as int;
    let ghost power = e - places;
    if weigh(&digits, &nothing) == Comparison::Same {
        proof {
            lemma_pow2_pos(149);
            if power >= 0 {
                assert((0 * pow(10, power as nat)) * one_size() == 0) by (nonlinear_arith);
                lemma_nothing_rounds_to_zero(1);
            } else {
                lemma_pow_positive(10, (-power) as nat);
                assert(0 * one_size() == 0) by (nonlinear_arith);
                lemma_nothing_rounds_to_zero(pow(10, (-power) as nat));
            }
        }
        return with_sign(signed, 0);
    }
    // 0: nothing is left of it; 1: it is beyond all numbers; 2: neither
    let (kind, up, down): (u8, u128, u128) = match magnitude {
        None => if negative {
            (0, 0, 0)
        } else {
            (1, 0, 0)
        },
        Some(v) => {
            let written: i128 = if negative {
                0 - (v as i128)
            } else {
                v as i128
            };
            let exact: i128 = written - places as i128;
            if exact >= 43 {
                (1, 0, 0)
            } else if exact + span as i128 <= -50 {
                (0, 0, 0)
            } else if exact >= 0 {
                (2, exact as u128, 0)
            } else {
                (2, 0, (0 - exact) as u128)
            }
        },
    };
    if kind == 0 {
        proof {
            lemma_long_is_nothing(d, span as nat, power);
        }
        with_sign(signed, 0)
    } else if kind == 1 {
        proof {
            lemma_long_is_infinite(d, power);
        }
        with_sign(signed, INFINITY_BITS)
    } else {
        let mut one: Vec<u32> = Vec::new();
        one.push(1);
        proof {
            lemma_pow0(crate::natural::BASE as int);
            assert(one@.drop_last() =~= Seq::<u32>::empty());
            assert(value(one@) == 1);
            lemma_pow2(149);
            lemma_pow0(10);
            lemma_pow_positive(10, down as nat);
            assert(1 * pow(10, down as nat) == pow(10, down as nat)) by (nonlinear_arith);
            assert(d * 1 == d) by (nonlinear_arith);
        }
        let x = times_power(times_power(digits, 10, up), 2, 149);
        let y = times_power(one, 10, down);
        with_sign(signed, nearest(&x, &y))
    }
}

/// What reading a token as a number comes to.
#[derive(Clone, Copy, Debug, PartialEq, Eq, Structural)]
pub enum Reading {
    /// The number that the token stands for, rounded to the nearest number
    /// that the encoding has.
    Number(Scalar),
    /// The token is no numeral.
    Malformed,
}

fn lower_case(byte: u8) -> (l: u8)
    ensures
        l == lower(byte),
{
    if byte >= 65 && byte <= 90 {
        byte + 32
    } else {
        byte
    }
}

fn is_word(token: &[u8], from: usize, word: &[u8]) -> (r: bool)
    requires
        from <= token@.len(),
    ensures
        r == spells(token@.subrange(from as int, token@.len() as int), word@),
{
    let ghost body = token@.subrange(from as int, token@.len() as int);
    if token.len() - from != word.len() {
        return false;
    }
    let mut i: usize = 0;
    while i < word.len()
        invariant
            i <= word@.len(),
            from + word.len() == token.len(),
            body == token@.subrange(from as int, token@.len() as int),
            forall|j: int| 0 <= j < i ==> lower(body[j]) == word@[j],
        decreases word@.len() - i,
    {
        assert(body[i as int] == token@[from + i]);
        if lower_case(token[from + i]) != word[i] {
            return false;
        }
        i += 1;
    }
    true
}

// Zero is the rounding of nothing.
proof fn lemma_nothing_rounds_to_zero(den: int)
    requires
        den > 0,
    ensures
        rounded(0, den) == 0,
{
    lemma_size_grows(0, 1);
    assert(size_of(0) == 0);
    assert(mid2(0) * den > 0) by (nonlinear_arith)
        requires
            mid2(0) > 0,
            den > 0,
    ;
    lemma_rounding_is_unique(0, den, 0);
}

// The digits of a numeral: where they end, how many stand behind the
// point, whether there is none at all, and what they come to; `None` for
// that where it would pass the limit.
fn read_mantissa(token: &[u8], start: usize) -> (r: (usize, usize, bool, Option<u128>))
    requires
        start <= token@.len(),
    ensures
        r.0 == mantissa_end(token@, start as int),
        start <= r.0 <= token@.len(),
        r.1 == mantissa_places(token@, start as int),
        r.1 <= token@.len(),
        r.2 == (mantissa_length(token@, start as int) == 0),
        r.3 matches Some(v) ==> v == mantissa_digits(token@, start as int),
        r.3 is Some <==> mantissa_digits(token@, start as int) < 10 * DIGITS_LIMIT,
{
    let len = token.len();
    let (point, whole) = scan_digits(token, start, 0, DIGITS_LIMIT);
    let pointed = point < len && token[point] == POINT;
    proof {
        assert(0 * pow(10, (point - start) as nat) == 0) by (nonlinear_arith);
    }
    if !pointed {
        return (point, 0, point == start, whole);
    }
    let chained = match whole {
        Some(w) => w < DIGITS_LIMIT,
        None => false,
    };
    if chained {
        let (stop, all) = scan_digits(token, point + 1, whole.unwrap(), DIGITS_LIMIT);
        (stop, stop - point - 1, point == start && stop == point + 1, all)
    } else {
        let (stop, _) = scan_digits(token, point + 1, 0, DIGITS_LIMIT);
        let ghost w = decimal(token@.subrange(start as int, point as int)) as int;
        let ghost p = pow(10, (stop - point - 1) as nat);
        let ghost fraction = decimal(token@.subrange(point + 1, stop as int)) as int;
        let all = if stop == point + 1 {
            proof {
                lemma_pow0(10);
                assert(token@.subrange(point + 1, stop as int) =~= Seq::<u8>::empty());
                assert(w * 1 == w) by (nonlinear_arith);
            }
            whole
        } else {
            proof {
                // one more digit behind a value of 10^37 passes the limit
                lemma_pow_adds(10, 1, (stop - point - 2) as nat);
                lemma_pow1(10);
                lemma_pow_positive(10, (stop - point - 2) as nat);
                assert(w * p + fraction >= 10 * DIGITS_LIMIT) by (nonlinear_arith)
                    requires
                        w >= DIGITS_LIMIT,
                        p == 10 * pow(10, (stop - point - 2) as nat),
                        pow(10, (stop - point - 2) as nat) >= 1,
                        fraction >= 0,
                ;
            }
            None
        };
        (stop, stop - point - 1, point == start && stop == point + 1, all)
    }
}

// The exponent of a numeral: `None` where the text from `stop` on is no
// exponent; else whether it is negative, and what it comes to without the
// sign, if that is within the limit.
fn read_exponent(token: &[u8], stop: usize) -> (r: Option<(bool, Option<u128>)>)
    requires
        stop <= token@.len(),
    ensures
        r is None <==> exponent_of(token@, stop as int) is None,
        r matches Some((negative, magnitude)) ==> {
            let e = exponent_of(token@, stop as int)->0;
            match magnitude {
                Some(v) => v < 10 * EXPONENT_LIMIT && e == if negative {
                    -(v as int)
                } else {
                    v as int
                },
                None => if negative {
                    e <= -10 * EXPONENT_LIMIT
                } else {
                    e >= 10 * EXPONENT_LIMIT
                },
            }
        },
{
    let len = token.len();
    if stop == len {
        return Some((false, Some(0)));
    }
    if lower_case(token[stop]) != LETTER_E {
        return None;
    }
    let negative = stop + 1 < len && token[stop + 1] == MINUS;
    let from: usize = if stop + 1 < len && (token[stop + 1] == PLUS || token[stop + 1] == MINUS) {
        stop + 2
    } else {
        stop + 1
    };
    let (to, value) = scan_digits(token, from, 0, EXPONENT_LIMIT);
    if to == from || to != len {
        return None;
    }
    proof {
        assert(0 * pow(10, (to - from) as nat) == 0) by (nonlinear_arith);
    }
    Some((negative, value))
}

// The number that `digits * 10^power` stands for, with the given sign,
// read the short way.
fn finish(signed: bool, digits: u128, power: i64) -> (s: Scalar)
    requires
        digits < 10 * DIGITS_LIMIT,
        -2_000_000 < power < 2_000_000,
        digits == 0 || power >= -FINEST,
    ensures
        s == (Decimal {
            signed,
            numeral: Numeral::Finite { digits: digits as nat, exponent: power as int },
        }).value(),
{
    if digits == 0 {
        proof {
            lemma_pow2_pos(149);
            if power >= 0 {
                assert((0 * pow(10, power as nat)) * one_size() == 0) by (nonlinear_arith);
                lemma_nothing_rounds_to_zero(1);
            } else {
                lemma_pow_positive(10, (-power) as nat);
                assert(0 * one_size() == 0) by (nonlinear_arith);
                lemma_nothing_rounds_to_zero(pow(10, (-power) as nat));
            }
        }
        with_sign(signed, 0)
    } else if power >= 0 {
        with_sign(signed, scaled_up(digits, power as u64))
    } else {
        with_sign(signed, scaled_down(digits, (0 - power) as u64).unwrap())
    }
}

/// What reading a token as a number comes to: for every decimal numeral
/// the number that it stands for, however long its digits and whatever its
/// exponent.
pub open spec fn reading(text: Seq<u8>) -> Reading {
    match decimal_of(text) {
        None => Reading::Malformed,
        Some(d) => Reading::Number(d.value()),
    }
}

/// Reads a token as a number.
///
/// A numeral whose digits come to less than 10^38, with no more than 54
/// places behind the point once its exponent is taken in, is read in
/// machine words. Any other is read at length, with numbers of any size:
/// its value is weighed against the middle between neighbouring numbers
/// until the nearest is found.
pub fn read_number(token: &[u8]) -> (r: Reading)
    ensures
        r == reading(token@),
{
    let len = token.len();
    let signed = len > 0 && token[0] == MINUS;
    let start: usize = if len > 0 && (token[0] == PLUS || token[0] == MINUS) {
        1
    } else {
        0
    };
    let inf: [u8; 3] = [105, 110, 102];
    let infinity: [u8; 8] = [105, 110, 102, 105, 110, 105, 116, 121];
    let nan: [u8; 3] = [110, 97, 110];
    proof {
        assert(inf@ =~= word_inf());
        assert(infinity@ =~= word_infinity());
        assert(nan@ =~= word_nan());
    }
    if is_word(token, start, inf.as_slice()) || is_word(token, start, infinity.as_slice()) {
        return Reading::Number(with_sign(signed, INFINITY_BITS));
    }
    if is_word(token, start, nan.as_slice()) {
        return Reading::Number(with_sign(signed, NAN_BITS));
    }
    let (stop, places, empty, all) = read_mantissa(token, start);
    if empty {
        return Reading::Malformed;
    }
    let (negative, magnitude) = match read_exponent(token, stop) {
        None => {
            return Reading::Malformed;
        },
        Some(exponent) => exponent,
    };
    let short: Option<(u128, i64)> = match (magnitude, all) {
        (Some(v), Some(digits)) => if v < 1_000_000 && places < 1_000_000 {
            let power: i64 = if negative {
                0 - (v as i64) - (places as i64)
            } else {
                v as i64 - places as i64
            };
            if digits == 0 || power >= -FINEST {
                Some((digits, power))
            } else {
                None
            }
        } else {
            None
        },
        _ => None,
    };
    match short {
        Some((digits, power)) => Reading::Number(finish(signed, digits, power)),
        None => Reading::Number(
            read_long(
                token,
                start,
                places,
                signed,
                negative,
                magnitude,
                Ghost(exponent_of(token@, stop as int)->0),
            ),
        ),
    }
}

} // verus!
