//! Natural numbers of any size.
//!
//! A number is held as limbs of 32 bits, the least significant first. Limbs
//! of zero at the upper end change nothing, and no limbs at all stand for
//! zero.

use vstd::prelude::*;
use vstd::arithmetic::power::{lemma_pow0, lemma_pow1, lemma_pow_adds, lemma_pow_positive, pow};

verus! {

/// The base of the limbs: 2 to the 32nd.
pub const BASE: u64 = 0x1_0000_0000;

/// The natural number that the limbs stand for.
pub open spec fn value(limbs: Seq<u32>) -> nat
    decreases limbs.len(),
{
    if limbs.len() == 0 {
        0
    } else {
        (value(limbs.drop_last()) + limbs.last() * pow(BASE as int, (limbs.len() - 1) as nat))
            as nat
    }
}

/// The limbs filled up with zeros to the given length.
pub open spec fn filled(limbs: Seq<u32>, length: nat) -> Seq<u32> {
    Seq::new(
        if length > limbs.len() {
            length
        } else {
            limbs.len()
        },
        |i: int|
            if i < limbs.len() {
                limbs[i]
            } else {
                0u32
            },
    )
}

/// How two numbers stand to each other.
#[derive(Clone, Copy, Debug, PartialEq, Eq, Structural)]
pub enum Comparison {
    /// The first is the lesser.
    Below,
    /// They are the same number.
    Same,
    /// The first is the greater.
    Above,
}

/// So many limbs stand for a number below the base to the power of their
/// count.
pub proof fn lemma_value_is_bounded(limbs: Seq<u32>)
    ensures
        value(limbs) < pow(BASE as int, limbs.len()),
    decreases limbs.len(),
{
    if limbs.len() == 0 {
        lemma_pow0(BASE as int);
    } else {
        let n = (limbs.len() - 1) as nat;
        lemma_value_is_bounded(limbs.drop_last());
        lemma_pow_adds(BASE as int, n, 1);
        lemma_pow1(BASE as int);
        let p = pow(BASE as int, n);
        let low = value(limbs.drop_last()) as int;
        let top = limbs.last() as int;
        assert(value(limbs) == low + top * p);
        assert(pow(BASE as int, limbs.len()) == p * 0x1_0000_0000);
        assert(low + top * p < p * 0x1_0000_0000) by (nonlinear_arith)
            requires
                0 <= low < p,
                0 <= top < 0x1_0000_0000,
        ;
    }
}

/// So many limbs stand for a number of fewer than ten times as many
/// decimal digits.
pub proof fn lemma_value_is_short(limbs: Seq<u32>)
    ensures
        value(limbs) < pow(10, 10 * limbs.len()),
{
    lemma_value_is_bounded(limbs);
    lemma_base_is_below_ten_digits(limbs.len());
}

// The base to a power is no more than ten to ten times the power.
proof fn lemma_base_is_below_ten_digits(n: nat)
    ensures
        pow(BASE as int, n) <= pow(10, 10 * n),
    decreases n,
{
    if n == 0 {
        lemma_pow0(BASE as int);
        lemma_pow0(10);
    } else {
        lemma_base_is_below_ten_digits((n - 1) as nat);
        lemma_pow_adds(BASE as int, (n - 1) as nat, 1);
        lemma_pow1(BASE as int);
        lemma_pow_adds(10, (10 * (n - 1)) as nat, 10);
        lemma_pow1(10);
        lemma_pow_adds(10, 1, 1);
        lemma_pow_adds(10, 2, 2);
        lemma_pow_adds(10, 4, 4);
        lemma_pow_adds(10, 8, 2);
        assert(pow(10, 2) == 100);
        assert(pow(10, 4) == 10_000) by (nonlinear_arith)
            requires
                pow(10, 4) == pow(10, 2) * pow(10, 2),
                pow(10, 2) == 100,
        ;
        assert(pow(10, 8) == 100_000_000) by (nonlinear_arith)
            requires
                pow(10, 8) == pow(10, 4) * pow(10, 4),
                pow(10, 4) == 10_000,
        ;
        assert(pow(10, 10) == 10_000_000_000) by (nonlinear_arith)
            requires
                pow(10, 10) == pow(10, 8) * pow(10, 2),
                pow(10, 8) == 100_000_000,
                pow(10, 2) == 100,
        ;
        lemma_pow_positive(BASE as int, (n - 1) as nat);
        let low = pow(BASE as int, (n - 1) as nat);
        let high = pow(10, (10 * (n - 1)) as nat);
        assert(low * 0x1_0000_0000 <= high * 10_000_000_000) by (nonlinear_arith)
            requires
                0 < low <= high,
        ;
    }
}

/// Zeros at the upper end change nothing.
pub proof fn lemma_filled_is_same(limbs: Seq<u32>, length: nat)
    ensures
        value(filled(limbs, length)) == value(limbs),
    decreases length,
{
    if length <= limbs.len() {
        assert(filled(limbs, length) =~= limbs);
    } else {
        let longer = filled(limbs, length);
        assert(longer.drop_last() =~= filled(limbs, (length - 1) as nat));
        lemma_filled_is_same(limbs, (length - 1) as nat);
        assert(longer.last() == 0);
        assert(0 * pow(BASE as int, (length - 1) as nat) == 0) by (nonlinear_arith);
    }
}

/// Of two numbers with as many limbs each, which agree in all limbs above
/// one, that with the lesser limb there is the lesser.
pub proof fn lemma_upper_limb_decides(a: Seq<u32>, b: Seq<u32>, at: int)
    requires
        a.len() == b.len(),
        0 <= at < a.len(),
        forall|j: int| at < j < a.len() ==> a[j] == b[j],
        a[at] < b[at],
    ensures
        value(a) < value(b),
    decreases a.len(),
{
    let n = (a.len() - 1) as nat;
    let p = pow(BASE as int, n);
    lemma_pow_positive(BASE as int, n);
    if at == n {
        lemma_value_is_bounded(a.drop_last());
        let low = value(a.drop_last()) as int;
        let rest = value(b.drop_last()) as int;
        let x = a[at] as int;
        let y = b[at] as int;
        assert(value(a) == low + x * p);
        assert(value(b) == rest + y * p);
        assert(low + x * p < rest + y * p) by (nonlinear_arith)
            requires
                low < p,
                rest >= 0,
                x < y,
                p > 0,
        ;
    } else {
        assert(a.last() == b.last());
        assert forall|j: int| at < j < a.drop_last().len() implies a.drop_last()[j]
            == b.drop_last()[j] by {
            assert(a[j] == b[j]);
        }
        lemma_upper_limb_decides(a.drop_last(), b.drop_last(), at);
        assert(value(a) == value(a.drop_last()) + a.last() * p);
        assert(value(b) == value(b.drop_last()) + b.last() * p);
    }
}

fn limb_at(limbs: &Vec<u32>, i: usize) -> (limb: u32)
    ensures
        limb == filled(limbs@, (i + 1) as nat)[i as int],
{
    if i < limbs.len() {
        limbs[i]
    } else {
        0
    }
}

/// The number times a factor, plus an addend.
pub fn times_plus(limbs: &Vec<u32>, factor: u32, addend: u32) -> (out: Vec<u32>)
    ensures
        value(out@) == value(limbs@) * factor + addend,
{
    let mut out: Vec<u32> = Vec::new();
    let mut carry: u64 = addend as u64;
    let mut i: usize = 0;
    proof {
        lemma_pow0(BASE as int);
        assert(limbs@.take(0) =~= Seq::<u32>::empty());
        assert(0 * factor == 0) by (nonlinear_arith);
    }
    while i < limbs.len()
        invariant
            i <= limbs.len(),
            out.len() == i,
            carry < BASE,
            value(out@) + carry * pow(BASE as int, i as nat) == value(limbs@.take(i as int))
                * factor + addend,
        decreases limbs.len() - i,
    {
        let limb: u64 = limbs[i] as u64;
        assert(limb * (factor as u64) + carry <= 0xFFFF_FFFF_0000_0000) by (nonlinear_arith)
            requires
                limb <= 0xFFFF_FFFF,
                factor <= 0xFFFF_FFFF,
                carry <= 0xFFFF_FFFF,
        ;
        let total: u64 = limb * (factor as u64) + carry;
        let low: u32 = (total % BASE) as u32;
        let high: u64 = total / BASE;
        proof {
            let p = pow(BASE as int, i as nat);
            let before = limbs@.take(i as int);
            let after = limbs@.take(i + 1);
            assert(after.drop_last() =~= before);
            assert(after.last() == limbs@[i as int]);
            assert(out@.push(low).drop_last() =~= out@);
            lemma_pow_adds(BASE as int, i as nat, 1);
            lemma_pow1(BASE as int);
            lemma_pow_positive(BASE as int, i as nat);
            assert(low * p >= 0 && limb * p >= 0) by (nonlinear_arith)
                requires
                    low >= 0,
                    limb >= 0,
                    p > 0,
            ;
            assert(total == high * 0x1_0000_0000 + low);
            assert(value(out@.push(low)) == value(out@) + low * p);
            assert(value(after) == value(before) + limb * p);
            assert(pow(BASE as int, (i + 1) as nat) == p * 0x1_0000_0000);
            assert(value(out@) + low * p + high * (p * 0x1_0000_0000) == (value(before) + limb
                * p) * factor + addend) by (nonlinear_arith)
                requires
                    value(out@) + carry * p == value(before) * factor + addend,
                    limb * factor + carry == high * 0x1_0000_0000 + low,
            ;
        }
        out.push(low);
        carry = high;
        i += 1;
    }
    proof {
        assert(limbs@.take(limbs.len() as int) =~= limbs@);
    }
    if carry != 0 {
        proof {
            lemma_pow_positive(BASE as int, i as nat);
            assert(carry * pow(BASE as int, i as nat) >= 0) by (nonlinear_arith)
                requires
                    carry >= 0,
                    pow(BASE as int, i as nat) > 0,
            ;
            assert(out@.push(carry as u32).drop_last() =~= out@);
            assert(value(out@.push(carry as u32)) == value(out@) + (carry as u32) * pow(
                BASE as int,
                i as nat,
            ));
        }
        out.push(carry as u32);
    } else {
        assert(0 * pow(BASE as int, i as nat) == 0) by (nonlinear_arith);
    }
    out
}

/// The number times a power of a factor.
pub fn times_power(limbs: Vec<u32>, factor: u32, exponent: u128) -> (out: Vec<u32>)
    ensures
        value(out@) == value(limbs@) * pow(factor as int, exponent as nat),
{
    let mut out = limbs;
    let mut j: u128 = 0;
    proof {
        lemma_pow0(factor as int);
        assert(value(limbs@) * 1 == value(limbs@)) by (nonlinear_arith);
    }
    while j < exponent
        invariant
            j <= exponent,
            value(out@) == value(limbs@) * pow(factor as int, j as nat),
        decreases exponent - j,
    {
        proof {
            lemma_pow_adds(factor as int, j as nat, 1);
            lemma_pow1(factor as int);
            let p = pow(factor as int, j as nat);
            assert((value(limbs@) * p) * factor + 0 == value(limbs@) * (p * factor))
                by (nonlinear_arith);
        }
        out = times_plus(&out, factor, 0);
        j += 1;
    }
    out
}

/// How two numbers stand to each other.
pub fn weigh(a: &Vec<u32>, b: &Vec<u32>) -> (r: Comparison)
    ensures
        r is Below <==> value(a@) < value(b@),
        r is Same <==> value(a@) == value(b@),
        r is Above <==> value(a@) > value(b@),
{
    let length: usize = if a.len() > b.len() {
        a.len()
    } else {
        b.len()
    };
    let ghost left = filled(a@, length as nat);
    let ghost right = filled(b@, length as nat);
    proof {
        lemma_filled_is_same(a@, length as nat);
        lemma_filled_is_same(b@, length as nat);
    }
    let mut i: usize = length;
    while i > 0
        invariant
            i <= length,
            left == filled(a@, length as nat),
            right == filled(b@, length as nat),
            left.len() == length,
            right.len() == length,
            value(left) == value(a@),
            value(right) == value(b@),
            forall|j: int| i <= j < length ==> left[j] == right[j],
        decreases i,
    {
        let x = limb_at(a, i - 1);
        let y = limb_at(b, i - 1);
        assert(x == left[i - 1] && y == right[i - 1]);
        if x < y {
            proof {
                lemma_upper_limb_decides(left, right, i - 1);
            }
            return Comparison::Below;
        }
        if x > y {
            proof {
                lemma_upper_limb_decides(right, left, i - 1);
            }
            return Comparison::Above;
        }
        i -= 1;
    }
    assert(left =~= right);
    Comparison::Same
}

} // verus!
