//! Rounding to the nearest number of the encoding, ties to the even
//! pattern: what it means, that every size has one rounding, and a routine
//! that rounds.

use vstd::prelude::*;
use vstd::arithmetic::power2::{
    lemma2_to64, lemma2_to64_rest, lemma_pow2_adds, lemma_pow2_pos, lemma_pow2_unfold, pow2,
};
use vstd::bits::{lemma_u64_pow2_no_overflow, lemma_u64_shl_is_mul};
use crate::scalar::{lemma_pow2_grows, lemma_size_grows, size_of, FRACTIONS, INFINITY_BITS};

verus! {

/// Twice the middle between the sizes of two neighbours, the numbers with
/// magnitudes `m` and `m + 1`.
pub open spec fn mid2(m: int) -> int {
    size_of(m) + size_of(m + 1)
}

/// Whether the number with magnitude `m` is the rounding of the size
/// `num / den`: the nearest of all numbers, and of two that are equally
/// near the one whose pattern is even. A size from the middle between the
/// largest number and the next power of two on rounds to infinity.
pub open spec fn rounds_to(num: int, den: int, m: int) -> bool {
    &&& 0 <= m <= INFINITY_BITS
    &&& (m == 0 || mid2(m - 1) * den < 2 * num || (mid2(m - 1) * den == 2 * num && m % 2 == 0))
    &&& (m == INFINITY_BITS || 2 * num < mid2(m) * den || (2 * num == mid2(m) * den && m % 2
        == 0))
}

/// The magnitude of the rounding of the size `num / den`.
pub open spec fn rounded(num: int, den: int) -> int {
    choose|m: int| rounds_to(num, den, m)
}

proof fn lemma_mid2_grows(low: int, high: int)
    requires
        0 <= low < high,
    ensures
        mid2(low) < mid2(high),
{
    lemma_size_grows(low, high);
    lemma_size_grows(low + 1, high + 1);
}

proof fn lemma_scale_order(a: int, b: int, den: int)
    by (nonlinear_arith)
    requires
        den > 0,
    ensures
        a < b ==> a * den < b * den,
        a <= b ==> a * den <= b * den,
        a == b ==> a * den == b * den,
{
}

proof fn lemma_rounding_is_ordered(num: int, den: int, a: int, b: int)
    requires
        den > 0,
        rounds_to(num, den, a),
        rounds_to(num, den, b),
    ensures
        a >= b,
{
    if a < b {
        if a < b - 1 {
            lemma_mid2_grows(a, b - 1);
        }
        lemma_scale_order(mid2(a), mid2(b - 1), den);
    }
}

/// A size has one rounding.
pub proof fn lemma_rounding_is_unique(num: int, den: int, m: int)
    requires
        den > 0,
        rounds_to(num, den, m),
    ensures
        rounded(num, den) == m,
{
    let other = rounded(num, den);
    lemma_rounding_is_ordered(num, den, m, other);
    lemma_rounding_is_ordered(num, den, other, m);
}

proof fn lemma_rounding_from(num: int, den: int, m: int) -> (r: int)
    requires
        den > 0,
        0 <= m <= INFINITY_BITS,
        m == 0 || mid2(m - 1) * den < 2 * num || (mid2(m - 1) * den == 2 * num && m % 2 == 0),
    ensures
        rounds_to(num, den, r),
    decreases INFINITY_BITS - m,
{
    if m == INFINITY_BITS || 2 * num < mid2(m) * den || (2 * num == mid2(m) * den && m % 2
        == 0) {
        m
    } else {
        lemma_rounding_from(num, den, m + 1)
    }
}

/// Every size has a rounding.
pub proof fn lemma_rounding_exists(num: int, den: int)
    requires
        den > 0,
    ensures
        rounds_to(num, den, rounded(num, den)),
        0 <= rounded(num, den) <= INFINITY_BITS,
{
    let m = lemma_rounding_from(num, den, 0);
    lemma_rounding_is_unique(num, den, m);
}

/// Rounding keeps the order: of two sizes the lesser one does not round to
/// the greater number.
pub proof fn lemma_rounding_is_monotone(low: int, high: int, den: int)
    requires
        den > 0,
        low <= high,
    ensures
        rounded(low, den) <= rounded(high, den),
{
    lemma_rounding_exists(low, den);
    lemma_rounding_exists(high, den);
    let a = rounded(low, den);
    let b = rounded(high, den);
    if a > b {
        if b < a - 1 {
            lemma_mid2_grows(b, a - 1);
        }
        lemma_scale_order(mid2(b), mid2(a - 1), den);
    }
}

/// A number's size, over any denominator, rounds to the number.
pub proof fn lemma_size_rounds_to_itself(m: int, den: int)
    requires
        0 <= m <= INFINITY_BITS,
        den > 0,
    ensures
        rounded(size_of(m) * den, den) == m,
{
    lemma_size_grows(m, m + 1);
    lemma_scale_order(2 * size_of(m), mid2(m), den);
    assert((2 * size_of(m)) * den == 2 * (size_of(m) * den)) by (nonlinear_arith);
    if m > 0 {
        lemma_size_grows(m - 1, m);
        lemma_scale_order(mid2(m - 1), 2 * size_of(m), den);
    }
    lemma_rounding_is_unique(size_of(m) * den, den, m);
}

/// How near rounding stays: a size that rounds to a number with a full
/// fraction, one that is not subnormal, differs from that number's size by
/// no more than one part in 2^24 of it.
pub proof fn lemma_rounding_is_near(num: int, den: int, m: int)
    requires
        den > 0,
        rounds_to(num, den, m),
        0x80_0000 <= m < INFINITY_BITS,
    ensures
        0xFF_FFFF * (size_of(m) * den) <= 0x100_0000 * num,
        0x100_0000 * num <= 0x100_0001 * (size_of(m) * den),
{
    let t = m / 0x80_0000 - 1;
    let k = m % 0x80_0000 + 0x80_0000;
    assert(m == t * 0x80_0000 + k);
    let unit = pow2(t as nat) as int;
    lemma_pow2_pos(t as nat);
    lemma_size_at(t, k);
    lemma_size_at(t, k + 1);
    assert(size_of(m + 1) == size_of(m) + unit) by (nonlinear_arith)
        requires
            size_of(m) == k * unit,
            size_of(m + 1) == (k + 1) * unit,
    ;
    // the step down is no longer than the step up
    if k > 0x80_0000 || t == 0 {
        lemma_size_at(t, k - 1);
        assert(size_of(m - 1) == size_of(m) - unit) by (nonlinear_arith)
            requires
                size_of(m) == k * unit,
                size_of(m - 1) == (k - 1) * unit,
        ;
    } else {
        lemma_size_at(t - 1, 0xFF_FFFF);
        lemma_pow2_unfold(t as nat);
        assert(m - 1 == (t - 1) * 0x80_0000 + 0xFF_FFFF);
        assert(size_of(m - 1) >= size_of(m) - unit) by (nonlinear_arith)
            requires
                size_of(m) == 0x80_0000 * unit,
                size_of(m - 1) == 0xFF_FFFF * pow2((t - 1) as nat),
                unit == 2 * pow2((t - 1) as nat),
        ;
    }
    let size = size_of(m);
    assert(0x80_0000 * unit <= size) by (nonlinear_arith)
        requires
            size == k * unit,
            k >= 0x80_0000,
            unit > 0,
    ;
    assert(0xFF_FFFF * (size * den) <= 0x100_0000 * num && 0x100_0000 * num <= 0x100_0001 * (
    size * den)) by (nonlinear_arith)
        requires
            (size_of(m - 1) + size) * den <= 2 * num,
            2 * num <= (size + size_of(m + 1)) * den,
            size_of(m - 1) >= size - unit,
            size_of(m + 1) == size + unit,
            0x80_0000 * unit <= size,
            den > 0,
            unit > 0,
    ;
}

/// The size of the number whose magnitude is `k` with `t` times the number
/// of fractions added: `k * 2^t`, wherever `k` has 24 bits, or fewer with
/// `t = 0`. (With `k` at 2^24 the magnitude is that of the next power of
/// two.)
pub proof fn lemma_size_at(t: int, k: int)
    requires
        0 <= t,
        0 <= k <= 0x100_0000,
        t > 0 ==> 0x80_0000 <= k,
    ensures
        size_of(t * 0x80_0000 + k) == k * pow2(t as nat),
{
    let m = t * 0x80_0000 + k;
    let exponent = m / (FRACTIONS as int);
    let fraction = m % (FRACTIONS as int);
    assert(pow2(0) == 1) by {
        lemma2_to64();
    }
    if k < 0x80_0000 {
        assert(t == 0);
        assert(exponent == 0);
        assert(fraction == k);
        assert(k * pow2(0) == k) by (nonlinear_arith)
            requires
                pow2(0) == 1,
        ;
    } else if k < 0x100_0000 {
        assert(exponent == t + 1);
        assert(fraction == k - 0x80_0000);
        assert((exponent - 1) as nat == t as nat);
        assert(FRACTIONS + fraction == k);
    } else {
        assert(exponent == t + 2);
        assert(fraction == 0);
        assert((exponent - 1) as nat == (t + 1) as nat);
        lemma_pow2_unfold((t + 1) as nat);
        assert(pow2((t + 1) as nat) == 2 * pow2(t as nat));
        assert(0x80_0000 * (2 * pow2(t as nat)) == 0x100_0000 * pow2(t as nat))
            by (nonlinear_arith);
    }
}

/// Two to the power of `k`.
pub fn two_to(k: u32) -> (p: u128)
    requires
        k < 128,
    ensures
        p == pow2(k as nat),
        p > 0,
{
    proof {
        lemma_pow2_pos(k as nat);
    }
    if k < 64 {
        proof {
            lemma_u64_pow2_no_overflow(k as nat);
            lemma_u64_shl_is_mul(1, k as u64);
        }
        (1u64 << (k as u64)) as u128
    } else {
        let high: u64 = (k - 64) as u64;
        proof {
            lemma_u64_pow2_no_overflow(high as nat);
            lemma_u64_shl_is_mul(1, high);
            lemma_pow2_adds(high as nat, 64);
            lemma2_to64();
        }
        ((1u64 << high) as u128) * 0x1_0000_0000_0000_0000u128
    }
}

proof fn lemma_quotient_bounds(n: int, d: int)
    requires
        0 <= n,
        0 < d,
    ensures
        n / d == 0 <==> n < d,
        0 <= n / d,
        (n / d) * d <= n < (n / d + 1) * d,
{
    vstd::arithmetic::div_mod::lemma_fundamental_div_mod(n, d);
    vstd::arithmetic::div_mod::lemma_mod_pos_bound(n, d);
    vstd::arithmetic::div_mod::lemma_div_pos_is_pos(n, d);
    let q = n / d;
    let r = n % d;
    assert(n == d * q + r);
    assert(q * d == d * q && (q + 1) * d == d * q + d) by (nonlinear_arith);
    if q == 0 {
        assert(d * q == 0) by (nonlinear_arith)
            requires
                q == 0,
        ;
    } else {
        assert(d * q >= d) by (nonlinear_arith)
            requires
                q >= 1,
                d > 0,
        ;
    }
}

/// The number of bits that `n` takes: the least `l` with `n < 2^l`.
pub fn bit_length(n: u128) -> (l: u32)
    ensures
        l <= 128,
        n < pow2(l as nat),
        l > 0 ==> pow2((l - 1) as nat) <= n,
        n == 0 <==> l == 0,
{
    let mut rest: u128 = n;
    let mut l: u32 = 0;
    proof {
        lemma2_to64();
        assert(n as int / 1 == n);
    }
    while rest > 0
        invariant
            l <= 128,
            rest == n as int / (pow2(l as nat) as int),
            l > 0 ==> pow2((l - 1) as nat) <= n,
        decreases rest,
    {
        proof {
            let unit = pow2(l as nat) as int;
            lemma_pow2_pos(l as nat);
            lemma_pow2_unfold((l + 1) as nat);
            lemma_quotient_bounds(n as int, unit);
            vstd::arithmetic::div_mod::lemma_div_denominator(n as int, unit, 2);
            assert(unit * 2 == 2 * unit);
            // rest > 0 says that 2^l <= n, and n has no more than 128 bits
            if l >= 128 {
                lemma2_to64();
                lemma_pow2_grows(128, l as nat);
                lemma_pow2_adds(64, 64);
                assert(pow2(64) * pow2(64) == 0x1_0000_0000_0000_0000_0000_0000_0000_0000)
                    by (nonlinear_arith)
                    requires
                        pow2(64) == 0x1_0000_0000_0000_0000,
                ;
            }
        }
        rest = rest / 2;
        l = l + 1;
    }
    proof {
        lemma2_to64();
        lemma_pow2_pos(l as nat);
        lemma_quotient_bounds(n as int, pow2(l as nat) as int);
        if l > 0 {
            lemma_pow2_pos((l - 1) as nat);
        }
    }
    l
}

/// What rounding makes of a size that is only known to lie between two
/// bounds: from `n * 2^up / 2^down` up to, but not including,
/// `(n + 1) * 2^up / 2^down`. With `sticky` false the size is the lower
/// bound itself; with `sticky` true it lies above it. The magnitude `m` is
/// the rounding of every such size.
pub open spec fn settles(n: int, sticky: bool, up: nat, down: nat, m: int) -> bool {
    &&& 0 <= m <= INFINITY_BITS
    &&& (m == 0 || lower_fits(n, sticky, up, down, m))
    &&& (m == INFINITY_BITS || upper_fits(n, sticky, up, down, m))
}

/// The size is not below the middle between `m` and its neighbour below.
pub open spec fn lower_fits(n: int, sticky: bool, up: nat, down: nat, m: int) -> bool {
    if sticky {
        mid2(m - 1) * pow2(down) <= 2 * (n * pow2(up))
    } else {
        mid2(m - 1) * pow2(down) < 2 * (n * pow2(up)) || (mid2(m - 1) * pow2(down) == 2 * (n
            * pow2(up)) && m % 2 == 0)
    }
}

/// The size is not above the middle between `m` and its neighbour above.
pub open spec fn upper_fits(n: int, sticky: bool, up: nat, down: nat, m: int) -> bool {
    if sticky {
        2 * ((n + 1) * pow2(up)) <= mid2(m) * pow2(down)
    } else {
        2 * (n * pow2(up)) < mid2(m) * pow2(down) || (2 * (n * pow2(up)) == mid2(m) * pow2(down)
            && m % 2 == 0)
    }
}

/// Whether the size `num / den` lies between the bounds that `n`, `up` and
/// `down` give, on the lower bound exactly where `sticky` is false.
pub open spec fn brackets(num: int, den: int, n: int, sticky: bool, up: nat, down: nat) -> bool {
    &&& (n * pow2(up)) * den <= num * pow2(down)
    &&& num * pow2(down) < ((n + 1) * pow2(up)) * den
    &&& sticky <==> (n * pow2(up)) * den != num * pow2(down)
}

proof fn lemma_chain_le(mid: int, low: int, num: int, den: int, d: int)
    by (nonlinear_arith)
    requires
        den > 0,
        d > 0,
        mid * d <= 2 * low,
        low * den <= num * d,
    ensures
        mid * den <= 2 * num,
        (mid * d < 2 * low || low * den < num * d) ==> mid * den < 2 * num,
        (mid * d == 2 * low && low * den == num * d) ==> mid * den == 2 * num,
{
    assert((mid * d) * den <= (2 * low) * den);
    assert((2 * low) * den <= (2 * num) * d);
    assert((mid * den) * d <= (2 * num) * d);
    if mid * d < 2 * low {
        assert((mid * d) * den < (2 * low) * den);
        assert((mid * den) * d < (2 * num) * d);
    }
    if low * den < num * d {
        assert((2 * low) * den < (2 * num) * d);
        assert((mid * den) * d < (2 * num) * d);
    }
    if mid * d == 2 * low && low * den == num * d {
        assert((mid * den) * d == (2 * num) * d);
    }
}

proof fn lemma_chain_ge(mid: int, high: int, num: int, den: int, d: int)
    by (nonlinear_arith)
    requires
        den > 0,
        d > 0,
        2 * high <= mid * d,
        num * d <= high * den,
    ensures
        2 * num <= mid * den,
        (2 * high < mid * d || num * d < high * den) ==> 2 * num < mid * den,
        (2 * high == mid * d && num * d == high * den) ==> 2 * num == mid * den,
{
    assert((2 * high) * den <= (mid * d) * den);
    assert((2 * num) * d <= (2 * high) * den);
    assert((2 * num) * d <= (mid * den) * d);
    if 2 * high < mid * d {
        assert((2 * high) * den < (mid * d) * den);
        assert((2 * num) * d < (mid * den) * d);
    }
    if num * d < high * den {
        assert((2 * num) * d < (2 * high) * den);
        assert((2 * num) * d < (mid * den) * d);
    }
    if 2 * high == mid * d && num * d == high * den {
        assert((2 * num) * d == (mid * den) * d);
    }
}

/// What settles for the bounds is the rounding of every size between them.
pub proof fn lemma_settled_rounds(
    num: int,
    den: int,
    n: int,
    sticky: bool,
    up: nat,
    down: nat,
    m: int,
)
    requires
        den > 0,
        0 <= n,
        settles(n, sticky, up, down, m),
        brackets(num, den, n, sticky, up, down),
    ensures
        rounds_to(num, den, m),
{
    let u = pow2(up) as int;
    let d = pow2(down) as int;
    lemma_pow2_pos(up);
    lemma_pow2_pos(down);
    if m != 0 {
        lemma_chain_le(mid2(m - 1), n * u, num, den, d);
    }
    if m != INFINITY_BITS {
        if sticky {
            lemma_chain_ge(mid2(m), (n + 1) * u, num, den, d);
        } else {
            lemma_chain_ge(mid2(m), n * u, num, den, d);
        }
    }
}

// The algebra of cutting `n` into `k` quanta and a rest. A quantum is
// `t_` units; `p_` of the steps that `n` counts make one quantum.
proof fn lemma_cut(n: int, k: int, rest: int, p_: int, u: int, d: int, t_: int)
    by (nonlinear_arith)
    requires
        p_ * u == t_ * d,
        n == k * p_ + rest,
    ensures
        2 * (n * u) - 2 * ((k * t_) * d) == (2 * rest) * u,
        (k * t_ + (k + 1) * t_) * d - 2 * (n * u) == (p_ - 2 * rest) * u,
        2 * (((k + 1) * t_) * d) - 2 * ((n + 1) * u) == (2 * (p_ - rest - 1)) * u,
        (k * t_ + (k + 1) * t_) * d - 2 * ((n + 1) * u) == (p_ - 2 * rest - 2) * u,
{
    assert((k * t_) * d == k * (p_ * u));
    assert(((k + 1) * t_) * d == (k + 1) * (p_ * u));
}

proof fn lemma_sign(a: int, u: int)
    by (nonlinear_arith)
    requires
        u > 0,
    ensures
        a > 0 ==> a * u > 0,
        a >= 0 ==> a * u >= 0,
        a == 0 ==> a * u == 0,
        a < 0 ==> a * u < 0,
{
}

// Rounding down: the rest is less than half a quantum, or it is half a
// quantum exactly and `k` is even.
proof fn lemma_round_down(
    n: int,
    sticky: bool,
    up: nat,
    down: nat,
    t: nat,
    s: nat,
    k: int,
    rest: int,
)
    requires
        0 <= k < 0x100_0000,
        t > 0 ==> 0x80_0000 <= k,
        s >= 1,
        s + up == t + down,
        n == k * pow2(s) + rest,
        0 <= rest,
        2 * rest < pow2(s) || (2 * rest == pow2(s) && !sticky && k % 2 == 0),
    ensures
        t * 0x80_0000 + k == 0 || lower_fits(n, sticky, up, down, t * 0x80_0000 + k),
        upper_fits(n, sticky, up, down, t * 0x80_0000 + k),
{
    let m = t * 0x80_0000 + k;
    let p_ = pow2(s) as int;
    let u = pow2(up) as int;
    let d = pow2(down) as int;
    let t_ = pow2(t) as int;
    lemma_pow2_pos(up);
    lemma_pow2_pos(down);
    lemma_pow2_adds(s, up);
    lemma_pow2_adds(t, down);
    lemma_pow2_unfold(s);
    lemma_size_at(t as int, k);
    lemma_size_at(t as int, k + 1);
    lemma_cut(n, k, rest, p_, u, d, t_);
    lemma_sign(2 * rest, u);
    lemma_sign(p_ - 2 * rest, u);
    lemma_sign(p_ - 2 * rest - 2, u);
    assert(mid2(m) == k * t_ + (k + 1) * t_);
    if m != 0 {
        lemma_size_grows(m - 1, m);
        lemma_scale_order(mid2(m - 1), 2 * size_of(m), d);
        assert((2 * size_of(m)) * d == 2 * ((k * t_) * d)) by (nonlinear_arith)
            requires
                size_of(m) == k * t_,
        ;
    }
}

// Rounding up: the rest is more than half a quantum, or it is half a
// quantum exactly and either something sticks out beyond it or `k` is odd.
proof fn lemma_round_up(
    n: int,
    sticky: bool,
    up: nat,
    down: nat,
    t: nat,
    s: nat,
    k: int,
    rest: int,
)
    requires
        0 <= k < 0x100_0000,
        t > 0 ==> 0x80_0000 <= k,
        s >= 1,
        s + up == t + down,
        n == k * pow2(s) + rest,
        rest < pow2(s),
        2 * rest > pow2(s) || (2 * rest == pow2(s) && (sticky || k % 2 == 1)),
    ensures
        lower_fits(n, sticky, up, down, t * 0x80_0000 + k + 1),
        upper_fits(n, sticky, up, down, t * 0x80_0000 + k + 1),
{
    let m = t * 0x80_0000 + k;
    let p_ = pow2(s) as int;
    let u = pow2(up) as int;
    let d = pow2(down) as int;
    let t_ = pow2(t) as int;
    lemma_pow2_pos(up);
    lemma_pow2_pos(down);
    lemma_pow2_adds(s, up);
    lemma_pow2_adds(t, down);
    lemma_size_at(t as int, k);
    lemma_size_at(t as int, k + 1);
    lemma_cut(n, k, rest, p_, u, d, t_);
    lemma_sign(p_ - 2 * rest, u);
    lemma_sign(2 * (p_ - rest - 1), u);
    assert(mid2(m) == k * t_ + (k + 1) * t_);
    lemma_size_grows(m + 1, m + 2);
    lemma_scale_order(2 * size_of(m + 1), mid2(m + 1), d);
    assert((2 * size_of(m + 1)) * d == 2 * (((k + 1) * t_) * d)) by (nonlinear_arith)
        requires
            size_of(m + 1) == (k + 1) * t_,
    ;
    assert(2 * (n * u) < 2 * ((n + 1) * u)) by (nonlinear_arith)
        requires
            u > 0,
    ;
}

// No rest: the size is that of a number.
proof fn lemma_round_exact(n: int, up: nat, down: nat, t: nat, g: nat, k: int)
    requires
        0 <= k < 0x100_0000,
        t > 0 ==> 0x80_0000 <= k,
        up == g + t + down,
        k == n * pow2(g),
    ensures
        t * 0x80_0000 + k == 0 || lower_fits(n, false, up, down, t * 0x80_0000 + k),
        upper_fits(n, false, up, down, t * 0x80_0000 + k),
{
    let m = t * 0x80_0000 + k;
    let u = pow2(up) as int;
    let d = pow2(down) as int;
    let t_ = pow2(t) as int;
    let g_ = pow2(g) as int;
    lemma_pow2_pos(down);
    lemma_pow2_adds(g, t);
    lemma_pow2_adds(g + t, down);
    lemma_size_at(t as int, k);
    assert(n * u == (k * t_) * d) by (nonlinear_arith)
        requires
            u == (g_ * t_) * d,
            k == n * g_,
    ;
    lemma_size_grows(m, m + 1);
    lemma_scale_order(2 * size_of(m), mid2(m), d);
    assert((2 * size_of(m)) * d == 2 * (size_of(m) * d)) by (nonlinear_arith);
    if m != 0 {
        lemma_size_grows(m - 1, m);
        lemma_scale_order(mid2(m - 1), 2 * size_of(m), d);
    }
}

// What fits a magnitude beyond infinity from below fits infinity.
proof fn lemma_round_over(n: int, sticky: bool, up: nat, down: nat, m: int)
    requires
        m >= INFINITY_BITS,
        lower_fits(n, sticky, up, down, m),
    ensures
        lower_fits(n, sticky, up, down, INFINITY_BITS as int),
{
    if m > INFINITY_BITS {
        lemma_pow2_pos(down);
        lemma_mid2_grows(INFINITY_BITS - 1, m - 1);
        lemma_scale_order(mid2(INFINITY_BITS - 1), mid2(m - 1), pow2(down) as int);
    }
}

// How many quanta of 2^s fit into a number of l bits.
proof fn lemma_quanta(n: int, l: nat, s: nat)
    requires
        l >= 1,
        pow2((l - 1) as nat) <= n < pow2(l),
        l <= s + 24,
    ensures
        0 <= n / (pow2(s) as int) < 0x100_0000,
        l == s + 24 ==> 0x80_0000 <= n / (pow2(s) as int),
        n == (n / (pow2(s) as int)) * pow2(s) + n % (pow2(s) as int),
        0 <= n % (pow2(s) as int) < pow2(s),
{
    let unit = pow2(s) as int;
    let k = n / unit;
    lemma_pow2_pos(s);
    lemma_pow2_pos((l - 1) as nat);
    lemma_quotient_bounds(n, unit);
    vstd::arithmetic::div_mod::lemma_fundamental_div_mod(n, unit);
    vstd::arithmetic::div_mod::lemma_mod_pos_bound(n, unit);
    assert(unit * k == k * unit) by (nonlinear_arith);
    assert(pow2(24) == 0x100_0000 && pow2(23) == 0x80_0000) by {
        lemma2_to64();
    }
    lemma_pow2_grows(l, s + 24);
    lemma_pow2_adds(24, s);
    assert(k < 0x100_0000) by (nonlinear_arith)
        requires
            k * unit <= n,
            n < 0x100_0000 * unit,
            unit > 0,
    ;
    if l == s + 24 {
        lemma_pow2_adds(23, s);
        assert(k >= 0x80_0000) by (nonlinear_arith)
            requires
                n < (k + 1) * unit,
                0x80_0000 * unit <= n,
                unit > 0,
        ;
    }
}

// How far a number of l bits reaches when it is shifted up by g bits.
proof fn lemma_grown(n: int, l: nat, g: nat)
    requires
        l >= 1,
        pow2((l - 1) as nat) <= n < pow2(l),
        l + g <= 24,
    ensures
        0 <= n * pow2(g) < 0x100_0000,
        l + g == 24 ==> 0x80_0000 <= n * pow2(g),
{
    let grow = pow2(g) as int;
    lemma_pow2_pos(g);
    lemma_pow2_pos((l - 1) as nat);
    assert(pow2(24) == 0x100_0000 && pow2(23) == 0x80_0000) by {
        lemma2_to64();
    }
    lemma_pow2_adds(l, g);
    lemma_pow2_grows(l + g, 24);
    assert(0 <= n * grow < pow2(l) * grow) by (nonlinear_arith)
        requires
            0 <= n < pow2(l),
            grow > 0,
    ;
    if l + g == 24 {
        lemma_pow2_adds((l - 1) as nat, g);
        assert(pow2((l - 1) as nat) * grow <= n * grow) by (nonlinear_arith)
            requires
                pow2((l - 1) as nat) <= n,
                grow > 0,
        ;
    }
}

/// Rounds a size that lies from `n * 2^up / 2^down` up to, but not
/// including, `(n + 1) * 2^up / 2^down`: on the lower bound with `sticky`
/// false, above it with `sticky` true. For a size that is not on the bound,
/// `n` must have 26 bits or more, so that no middle between two numbers
/// lies between the bounds.
pub fn round(n: u128, sticky: bool, up: u32, down: u32) -> (m: u32)
    requires
        n < 0x8000_0000_0000_0000_0000_0000_0000_0000,
        up <= 1000,
        down <= 1000,
        up == 0 || down == 0,
        sticky ==> n >= 0x200_0000,
    ensures
        settles(n as int, sticky, up as nat, down as nat, m as int),
{
    proof {
        lemma_pow2_pos(up as nat);
        lemma_pow2_pos(down as nat);
        lemma_size_at(0, 0);
        lemma_size_at(0, 1);
        assert(pow2(0) == 1) by {
            lemma2_to64();
        }
        assert(mid2(0) == 1);
    }
    if n == 0 {
        proof {
            assert(0 * pow2(up as nat) == 0) by (nonlinear_arith);
            assert(1 * pow2(down as nat) > 0) by (nonlinear_arith)
                requires
                    pow2(down as nat) > 0,
            ;
        }
        return 0;
    }
    let l = bit_length(n);
    proof {
        // 2^127 bounds the bits
        lemma2_to64();
        lemma2_to64_rest();
        if l > 127 {
            lemma_pow2_grows(127, (l - 1) as nat);
            lemma_pow2_adds(64, 63);
            assert(pow2(64) * pow2(63) == 0x8000_0000_0000_0000_0000_0000_0000_0000)
                by (nonlinear_arith)
                requires
                    pow2(64) == 0x1_0000_0000_0000_0000,
                    pow2(63) == 0x8000_0000_0000_0000,
            ;
        }
        if sticky && l < 26 {
            lemma_pow2_grows(l as nat, 25);
        }
    }
    let p: i64 = up as i64 - down as i64 + l as i64 - 1;
    if p < -1 {
        proof {
            // the size is below half the least number
            lemma_pow2_grows((l + 1) as nat, down as nat);
            lemma_pow2_unfold((l + 1) as nat);
            assert(n * pow2(0) == n && (n + 1) * pow2(0) == n + 1) by (nonlinear_arith)
                requires
                    pow2(0) == 1,
            ;
            assert(1 * pow2(down as nat) == pow2(down as nat)) by (nonlinear_arith);
        }
        return 0;
    }
    let t: i64 = if p > 23 {
        p - 23
    } else {
        0
    };
    let s: i64 = t - up as i64 + down as i64;
    let wide: u64;
    if s <= 0 {
        let g: u32 = (0 - s) as u32;
        let grow = two_to(g);
        proof {
            lemma_grown(n as int, l as nat, g as nat);
        }
        let k: u128 = n * grow;
        proof {
            lemma_round_exact(n as int, up as nat, down as nat, t as nat, g as nat, k as int);
        }
        wide = (t as u64) * 0x80_0000 + (k as u64);
    } else {
        let unit = two_to(s as u32);
        proof {
            lemma_quanta(n as int, l as nat, s as nat);
            lemma_pow2_unfold(s as nat);
        }
        let k: u128 = n / unit;
        let rest: u128 = n % unit;
        let half: u128 = unit / 2;
        let bump = rest > half || (rest == half && (sticky || k % 2 == 1));
        if bump {
            proof {
                lemma_round_up(
                    n as int,
                    sticky,
                    up as nat,
                    down as nat,
                    t as nat,
                    s as nat,
                    k as int,
                    rest as int,
                );
            }
            wide = (t as u64) * 0x80_0000 + (k as u64) + 1;
        } else {
            proof {
                lemma_round_down(
                    n as int,
                    sticky,
                    up as nat,
                    down as nat,
                    t as nat,
                    s as nat,
                    k as int,
                    rest as int,
                );
            }
            wide = (t as u64) * 0x80_0000 + (k as u64);
        }
    }
    if wide >= INFINITY_BITS as u64 {
        proof {
            lemma_round_over(n as int, sticky, up as nat, down as nat, wide as int);
        }
        INFINITY_BITS
    } else {
        wide as u32
    }
}

} // verus!
