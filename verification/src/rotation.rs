//! What holds of the rotation that a unit quaternion gives.
//!
//! The entries of the matrix are rounded, and the quaternion is of unit
//! length only as far as its own rounding lets it be. So the columns of the
//! rotation are of unit length and stand at right angles to each other, and
//! its determinant is one, within a tolerance: here one part in a hundred
//! thousand, for a quaternion whose length squared is one within one part in
//! a million.
//!
//! The laws are stated over exact values. A number's value is counted in
//! units of the least positive number, of which `one_size()` make one; a
//! product of two values is counted in units of which `one_size()` squared
//! make one.

use vstd::prelude::*;
use vstd::arithmetic::power2::{lemma_pow2_pos, lemma_pow2_unfold};
use crate::arithmetic::one_size;
use crate::math::{Matrix44, Vector3, Vector4};
use crate::mesh::affine_of;
use crate::scalar::{lemma_pow2_grows, Scalar, ONE_BITS};

verus! {

/// One, counted as a product of two values is.
pub open spec fn one_squared() -> int {
    one_size() * one_size()
}

/// The sum of the squares of a quaternion's four parts, exactly.
pub open spec fn norm_squared(q: Vector4) -> int {
    q.x.scaled_value() * q.x.scaled_value() + q.y.scaled_value() * q.y.scaled_value()
        + q.z.scaled_value() * q.z.scaled_value() + q.w.scaled_value() * q.w.scaled_value()
}

/// Whether a quaternion is of unit length as far as rounding lets it be:
/// its parts are finite, and the sum of their squares differs from one by
/// no more than one part in a million.
pub open spec fn is_unit(q: Vector4) -> bool {
    &&& q.x.finite() && q.y.finite() && q.z.finite() && q.w.finite()
    &&& -one_squared() <= 1_000_000 * (norm_squared(q) - one_squared()) <= one_squared()
}

/// The product of two columns of the upper three rows of a matrix,
/// exactly: the sum of the products of their entries.
pub open spec fn column_product(m: Matrix44, i: int, j: int) -> int {
    m.at(0, i).scaled_value() * m.at(0, j).scaled_value() + m.at(1, i).scaled_value() * m.at(
        1,
        j,
    ).scaled_value() + m.at(2, i).scaled_value() * m.at(2, j).scaled_value()
}

// The product of two bounded numbers is bounded by the product of the
// bounds.
proof fn lemma_bounded_product(a: int, b: int, most_a: int, most_b: int)
    requires
        -most_a <= a <= most_a,
        -most_b <= b <= most_b,
    ensures
        -(most_a * most_b) <= a * b <= most_a * most_b,
{
    assert(-(most_a * most_b) <= a * b <= most_a * most_b) by (nonlinear_arith)
        requires
            -most_a <= a <= most_a,
            -most_b <= b <= most_b,
    ;
}

// The size of a number.
spec fn size_of_value(x: int) -> int {
    if x < 0 {
        -x
    } else {
        x
    }
}

// Half of the least positive number, times 2^24 and the size of one: what a
// product that is less than a number with a full fraction may be off by.
spec fn least() -> int {
    0x80_0000 * one_size()
}

// Whether `got` is the rounding of `exact` as far as this: of the same
// sign, and no further from it than one part in 2^24 of itself and `slack`.
spec fn near(got: int, exact: int, slack: int) -> bool {
    &&& -(size_of_value(got) + slack) <= 0x100_0000 * (got - exact) <= size_of_value(got) + slack
}

// A part of a quaternion of unit length is no greater in size than two.
// `rest` is what the other parts add to the length.
proof fn lemma_part_is_small(a: Scalar, rest: int)
    requires
        a.finite(),
        rest >= 0,
        1_000_000 * (a.scaled_value() * a.scaled_value() + rest) <= 1_000_001 * one_squared(),
    ensures
        a.within(1),
{
    let unit = one_size();
    let x = a.scaled_value();
    crate::arithmetic::lemma_power_size(1);
    lemma_pow2_pos(149);
    lemma_pow2_unfold(150);
    assert(crate::scalar::size_of(0) == 0);
    if a.magnitude() > crate::arithmetic::power_bits(1) {
        crate::scalar::lemma_size_grows(crate::arithmetic::power_bits(1), a.magnitude());
        assert(x > 2 * unit || x < -2 * unit);
        assert(x * x > 4 * (unit * unit)) by (nonlinear_arith)
            requires
                x > 2 * unit || x < -2 * unit,
                unit > 0,
        ;
        assert(unit * unit > 0) by (nonlinear_arith)
            requires
                unit > 0,
        ;
    }
}

// A sum and its terms, taken times the size of one.
proof fn lemma_sum_error(a: Scalar, b: Scalar)
    requires
        a.finite(),
        b.finite(),
        a.sum(b).finite(),
    ensures
        near(
            a.sum(b).scaled_value() * one_size(),
            a.scaled_value() * one_size() + b.scaled_value() * one_size(),
            0,
        ),
        near(
            a.difference(b).scaled_value() * one_size(),
            a.scaled_value() * one_size() - b.scaled_value() * one_size(),
            0,
        ) || !a.difference(b).finite(),
{
    let unit = one_size();
    lemma_pow2_pos(149);
    a.lemma_sum_is_near(b);
    let (x, y, got) = (a.scaled_value(), b.scaled_value(), a.sum(b).scaled_value());
    assert(near(got * unit, x * unit + y * unit, 0)) by (nonlinear_arith)
        requires
            unit > 0,
            x + y >= 0 ==> 0 <= got && -got <= 0x100_0000 * (got - (x + y)) <= got,
            x + y <= 0 ==> got <= 0 && got <= 0x100_0000 * (got - (x + y)) <= -got,
    ;
    if a.difference(b).finite() {
        b.lemma_negation_turns(0);
        let back = b.negation();
        a.lemma_sum_is_near(back);
        let other = a.sum(back).scaled_value();
        assert(near(other * unit, x * unit - y * unit, 0)) by (nonlinear_arith)
            requires
                unit > 0,
                x - y >= 0 ==> 0 <= other && -other <= 0x100_0000 * (other - (x - y)) <= other,
                x - y <= 0 ==> other <= 0 && other <= 0x100_0000 * (other - (x - y)) <= -other,
        ;
    }
}

// A product and its factors: the product, taken times the size of one,
// against the exact product.
proof fn lemma_product_error(a: Scalar, b: Scalar)
    requires
        a.finite(),
        b.finite(),
        a.product(b).finite(),
    ensures
        near(
            a.product(b).scaled_value() * one_size(),
            a.scaled_value() * b.scaled_value(),
            least(),
        ),
{
    let unit = one_size();
    let got = a.product(b);
    a.lemma_product_is_near(b);
    lemma_pow2_pos(149);
    assert(crate::scalar::size_of(0) == 0);
    if got.magnitude() > 0 {
        crate::scalar::lemma_size_grows(0, got.magnitude());
    }
    let size = got.size();
    let value = got.scaled_value();
    assert(size_of_value(value * unit) == size * unit) by (nonlinear_arith)
        requires
            unit > 0,
            size >= 0,
            value == size || value == -size,
    ;
}

// An entry on the diagonal: how far it is from one less twice the sum of
// two squares.
proof fn lemma_diagonal_entry(a: Scalar, b: Scalar)
    requires
        a.within(1),
        b.within(1),
        1_000_000 * (a.scaled_value() * a.scaled_value() + b.scaled_value() * b.scaled_value())
            <= 1_000_001 * one_squared(),
    ensures
        ({
            let two = Scalar { bits: 0x4000_0000 };
            let one = Scalar { bits: ONE_BITS };
            let entry = one.difference(two.product(a.product(a)).sum(two.product(b.product(b))));
            let exact = one_squared() - 2 * (a.scaled_value() * a.scaled_value()) - 2 * (
            b.scaled_value() * b.scaled_value());
            &&& entry.finite()
            &&& -8 * one_squared() <= 0x100_0000 * (one_size() * entry.scaled_value() - exact) <= 8
                * one_squared()
        }),
{
    let two = Scalar { bits: 0x4000_0000 };
    let one = Scalar { bits: ONE_BITS };
    let unit = one_size();
    let v = unit * unit;
    let pa = a.product(a);
    let pb = b.product(b);
    let ta = two.product(pa);
    let tb = two.product(pb);
    let s = ta.sum(tb);
    let entry = one.difference(s);
    a.lemma_product_is_within(a, 1, 1);
    b.lemma_product_is_within(b, 1, 1);
    pa.lemma_double_is_exact(2);
    pb.lemma_double_is_exact(2);
    ta.lemma_sum_is_within(tb, 3);
    Scalar::lemma_one_encodes_one();
    assert(one.within(4));
    one.lemma_sum_is_within(s, 4);
    a.lemma_within_bounds(1);
    b.lemma_within_bounds(1);
    ta.lemma_within_bounds(3);
    tb.lemma_within_bounds(3);
    lemma_product_error(a, a);
    lemma_product_error(b, b);
    lemma_sum_error(ta, tb);
    lemma_sum_error(one, s);
    lemma_squares(a.scaled_value(), b.scaled_value());
    lemma_tiny();
    let (a2, b2) = (a.scaled_value() * a.scaled_value(), b.scaled_value() * b.scaled_value());
    let (ga, gb) = (pa.scaled_value() * unit, pb.scaled_value() * unit);
    let su = s.scaled_value() * unit;
    let mu = entry.scaled_value() * unit;
    assert(ta.scaled_value() * unit == 2 * ga && tb.scaled_value() * unit == 2 * gb)
        by (nonlinear_arith)
        requires
            ta.scaled_value() == 2 * pa.scaled_value(),
            tb.scaled_value() == 2 * pb.scaled_value(),
            ga == pa.scaled_value() * unit,
            gb == pb.scaled_value() * unit,
    ;
    assert(one.scaled_value() * unit == v);
    assert(unit * entry.scaled_value() == mu) by (nonlinear_arith)
        requires
            mu == entry.scaled_value() * unit,
    ;
    assert(-8 * v <= 0x100_0000 * (mu - (v - 2 * a2 - 2 * b2)) <= 8 * v) by (nonlinear_arith)
        requires
            v > 0,
            a2 >= 0,
            b2 >= 0,
            1_000_000 * (a2 + b2) <= 1_000_001 * v,
            0 <= 0x100_0000 * least() <= v,
            near(ga, a2, least()),
            near(gb, b2, least()),
            near(su, 2 * ga + 2 * gb, 0),
            near(mu, v - su, 0),
    ;
}

// The least that a product may be off by is nothing beside one.
proof fn lemma_tiny()
    ensures
        0 <= 0x100_0000 * least() <= one_squared(),
        one_squared() > 0,
{
    let unit = one_size();
    lemma_pow2_pos(149);
    lemma_pow2_grows(47, 149);
    vstd::arithmetic::power2::lemma2_to64_rest();
    assert(0x100_0000 * (0x80_0000 * unit) <= unit * unit && unit * unit > 0) by (nonlinear_arith)
        requires
            unit >= 0x8000_0000_0000,
    ;
}

// An entry off the diagonal: how far it is from twice the sum, or the
// difference, of two products.
proof fn lemma_other_entry(a: Scalar, b: Scalar, c: Scalar, d: Scalar)
    requires
        a.within(1),
        b.within(1),
        c.within(1),
        d.within(1),
        1_000_000 * (a.scaled_value() * a.scaled_value() + b.scaled_value() * b.scaled_value()
            + c.scaled_value() * c.scaled_value() + d.scaled_value() * d.scaled_value())
            <= 1_000_001 * one_squared(),
    ensures
        ({
            let two = Scalar { bits: 0x4000_0000 };
            let first = two.product(a).product(b);
            let second = two.product(c).product(d);
            let ab = 2 * (a.scaled_value() * b.scaled_value());
            let cd = 2 * (c.scaled_value() * d.scaled_value());
            &&& first.sum(second).finite()
            &&& first.difference(second).finite()
            &&& -4 * one_squared() <= 0x100_0000 * (one_size() * first.sum(second).scaled_value()
                - (ab + cd)) <= 4 * one_squared()
            &&& -4 * one_squared() <= 0x100_0000 * (one_size() * first.difference(
                second,
            ).scaled_value() - (ab - cd)) <= 4 * one_squared()
        }),
{
    let two = Scalar { bits: 0x4000_0000 };
    let unit = one_size();
    let v = unit * unit;
    let a2 = two.product(a);
    let c2 = two.product(c);
    let first = a2.product(b);
    let second = c2.product(d);
    let plus = first.sum(second);
    let minus = first.difference(second);
    a.lemma_double_is_exact(1);
    c.lemma_double_is_exact(1);
    a2.lemma_product_is_within(b, 2, 1);
    c2.lemma_product_is_within(d, 2, 1);
    first.lemma_sum_is_within(second, 3);
    b.lemma_within_bounds(1);
    d.lemma_within_bounds(1);
    lemma_product_error(a2, b);
    lemma_product_error(c2, d);
    lemma_sum_error(first, second);
    lemma_tiny();
    let (va, vb, vc, vd) = (
        a.scaled_value(),
        b.scaled_value(),
        c.scaled_value(),
        d.scaled_value(),
    );
    lemma_squares(va, vb);
    lemma_squares(vc, vd);
    let ab = 2 * (va * vb);
    let cd = 2 * (vc * vd);
    let (g1, g2) = (first.scaled_value() * unit, second.scaled_value() * unit);
    let pu = plus.scaled_value() * unit;
    let mu = minus.scaled_value() * unit;
    assert((2 * va) * vb == ab && (2 * vc) * vd == cd) by (nonlinear_arith)
        requires
            ab == 2 * (va * vb),
            cd == 2 * (vc * vd),
    ;
    assert(unit * plus.scaled_value() == pu && unit * minus.scaled_value() == mu)
        by (nonlinear_arith)
        requires
            pu == plus.scaled_value() * unit,
            mu == minus.scaled_value() * unit,
    ;
    let squares = va * va + vb * vb + vc * vc + vd * vd;
    assert(-4 * v <= 0x100_0000 * (pu - (ab + cd)) <= 4 * v && -4 * v <= 0x100_0000 * (mu - (ab
        - cd)) <= 4 * v) by (nonlinear_arith)
        requires
            v > 0,
            -squares <= ab + cd <= squares,
            -squares <= ab - cd <= squares,
            1_000_000 * squares <= 1_000_001 * v,
            0 <= 0x100_0000 * least() <= v,
            near(g1, ab, least()),
            near(g2, cd, least()),
            near(pu, g1 + g2, 0),
            near(mu, g1 - g2, 0),
    ;
}

// What the errors of two entries leave of their product. The entries are
// `m` and `n`, what they should be exactly `p` and `q`, as products of two
// values are counted.
proof fn lemma_pair(unit: int, m: int, n: int, p: int, q: int, c: int, d: int)
    requires
        unit > 0,
        0 <= c <= 16,
        0 <= d <= 16,
        -(c * (unit * unit)) <= 0x100_0000 * (unit * m - p) <= c * (unit * unit),
        -(d * (unit * unit)) <= 0x100_0000 * (unit * n - q) <= d * (unit * unit),
        -(2 * (unit * unit)) <= p <= 2 * (unit * unit),
        -(2 * (unit * unit)) <= q <= 2 * (unit * unit),
    ensures
        ({
            let v = unit * unit;
            let most = (0x200_0000 * (c + d) + c * d) * (v * v);
            -most <= 0x100_0000 * (0x100_0000 * (v * (m * n) - p * q)) <= most
        }),
{
    let v = unit * unit;
    let e = unit * m - p;
    let f = unit * n - q;
    let kp = 0x100_0000 * p;
    let kq = 0x100_0000 * q;
    let ke = 0x100_0000 * e;
    let kf = 0x100_0000 * f;
    assert(v * (m * n) == (unit * m) * (unit * n)) by (nonlinear_arith)
        requires
            v == unit * unit,
    ;
    assert((p + e) * (q + f) - p * q == p * f + e * q + e * f) by (nonlinear_arith);
    assert(kp * kf == 0x100_0000 * (0x100_0000 * (p * f))) by (nonlinear_arith)
        requires
            kp == 0x100_0000 * p,
            kf == 0x100_0000 * f,
    ;
    assert(ke * kq == 0x100_0000 * (0x100_0000 * (e * q))) by (nonlinear_arith)
        requires
            ke == 0x100_0000 * e,
            kq == 0x100_0000 * q,
    ;
    assert(ke * kf == 0x100_0000 * (0x100_0000 * (e * f))) by (nonlinear_arith)
        requires
            ke == 0x100_0000 * e,
            kf == 0x100_0000 * f,
    ;
    lemma_bounded_product(kp, kf, 0x200_0000 * v, d * v);
    lemma_bounded_product(ke, kq, c * v, 0x200_0000 * v);
    lemma_bounded_product(ke, kf, c * v, d * v);
    assert((0x200_0000 * v) * (d * v) + (c * v) * (0x200_0000 * v) + (c * v) * (d * v) == (
    0x200_0000 * (c + d) + c * d) * (v * v)) by (nonlinear_arith);
}

// Squares are not negative, and twice a product is no greater in size
// than the sum of the squares.
proof fn lemma_squares(a: int, b: int)
    ensures
        a * a >= 0,
        b * b >= 0,
        a * b == b * a,
        -(a * a + b * b) <= 2 * (a * b) <= a * a + b * b,
{
    assert(a * a >= 0 && b * b >= 0 && a * b == b * a && -(a * a + b * b) <= 2 * (a * b) <= a
        * a + b * b) by (nonlinear_arith);
}

// What is true of a number times a positive one is true of the number.
proof fn lemma_cancel(v: int, a: int, b: int)
    requires
        v > 0,
        v * a <= v * b,
    ensures
        a <= b,
{
    assert(a <= b) by (nonlinear_arith)
        requires
            v > 0,
            v * a <= v * b,
    ;
}

// How far the columns' exact product may be from what it should be, and
// what that leaves of the law. `product` is the columns' product, `exact`
// that of what the entries should be, `target` one or nothing, and `part`
// what goes with the quaternion's length in the difference.
proof fn lemma_settle(unit: int, product: int, exact: int, target: int, part: int, norm: int)
    requires
        unit > 0,
        -((0x4000_0000 + 96) * ((unit * unit) * (unit * unit))) <= 0x100_0000 * (0x100_0000 * ((
        unit * unit) * product - exact)) <= (0x4000_0000 + 96) * ((unit * unit) * (unit * unit)),
        exact == target * (unit * unit) + 4 * (part * (norm - unit * unit)),
        -norm <= part <= norm,
        -(unit * unit) <= 1_000_000 * (norm - unit * unit) <= unit * unit,
    ensures
        -(unit * unit) <= 100_000 * (product - target) <= unit * unit,
{
    let v = unit * unit;
    let w = v * v;
    let gap = norm - v;
    let dev = part * gap;
    let off = product - target;
    assert(v > 0) by (nonlinear_arith)
        requires
            v == unit * unit,
            unit > 0,
    ;
    lemma_bounded_product(1_000_000 * part, 1_000_000 * gap, 1_000_000 * v + v, v);
    assert((1_000_000 * part) * (1_000_000 * gap) == 1_000_000_000_000 * dev) by (nonlinear_arith)
        requires
            dev == part * gap,
    ;
    assert((1_000_000 * v + v) * v == 1_000_001 * w) by (nonlinear_arith)
        requires
            w == v * v,
    ;
    assert(v * off == v * product - target * v) by (nonlinear_arith)
        requires
            off == product - target,
    ;
    let rest = v * off;
    assert(-(1_000_001 * w) <= 1_000_000_000_000 * dev <= 1_000_001 * w);
    assert(v * product - exact == rest - 4 * dev);
    let far = v * product - exact;
    let big_rest = 0x100_0000 * (0x100_0000 * rest);
    let big_far = 0x100_0000 * (0x100_0000 * far);
    assert(w >= 0) by (nonlinear_arith)
        requires
            w == v * v,
    ;
    assert(-(2_199_642_953 * w) <= big_rest <= 2_199_642_953 * w) by (nonlinear_arith)
        requires
            big_rest == big_far + 0x1_0000_0000_0000 * (4 * dev),
            -(1_000_001 * w) <= 1_000_000_000_000 * dev <= 1_000_001 * w,
            -((0x4000_0000 + 96) * w) <= big_far <= (0x4000_0000 + 96) * w,
            w >= 0,
    ;
    let scaled = 0x100_0000 * (0x100_0000 * off);
    assert(v * scaled == big_rest && v * (2_199_642_953 * v) == 2_199_642_953 * w && v * (-(
    2_199_642_953 * v)) == -(2_199_642_953 * w)) by (nonlinear_arith)
        requires
            rest == v * off,
            big_rest == 0x100_0000 * (0x100_0000 * rest),
            scaled == 0x100_0000 * (0x100_0000 * off),
            w == v * v,
    ;
    lemma_cancel(v, scaled, 2_199_642_953 * v);
    lemma_cancel(v, -(2_199_642_953 * v), scaled);
    assert(-v <= 100_000 * off <= v) by (nonlinear_arith)
        requires
            v > 0,
            scaled == 0x1_0000_0000_0000 * off,
            -(2_199_642_953 * v) <= scaled <= 2_199_642_953 * v,
    ;
}

// The length of a column, from the parts of what its entries should be:
// `pd` on the diagonal, `pm` and `pp` beside it.
proof fn lemma_length(
    v: int,
    aa: int,
    bb: int,
    cc: int,
    dd: int,
    ab: int,
    dc: int,
    ac: int,
    db: int,
    a: int,
    b: int,
    c: int,
    d: int,
    pd: int,
    pm: int,
    pp: int,
    part: int,
    norm: int,
)
    requires
        aa == a * a,
        bb == b * b,
        cc == c * c,
        dd == d * d,
        ab == a * b,
        dc == d * c,
        ac == a * c,
        db == d * b,
        pd == v - 2 * bb - 2 * cc,
        pm == 2 * ab - 2 * dc,
        pp == 2 * ac + 2 * db,
        part == bb + cc,
        norm == aa + bb + cc + dd,
    ensures
        pd * pd + pm * pm + pp * pp == v * v + 4 * (part * (norm - v)),
{
    assert(ab * ab == aa * bb) by (nonlinear_arith)
        requires
            ab == a * b,
            aa == a * a,
            bb == b * b,
    ;
    assert(dc * dc == dd * cc) by (nonlinear_arith)
        requires
            dc == d * c,
            dd == d * d,
            cc == c * c,
    ;
    assert(ac * ac == aa * cc) by (nonlinear_arith)
        requires
            ac == a * c,
            aa == a * a,
            cc == c * c,
    ;
    assert(db * db == dd * bb) by (nonlinear_arith)
        requires
            db == d * b,
            dd == d * d,
            bb == b * b,
    ;
    assert(ab * dc == ac * db) by (nonlinear_arith)
        requires
            ab == a * b,
            dc == d * c,
            ac == a * c,
            db == d * b,
    ;
    assert(pd * pd == v * v - 4 * (v * bb) - 4 * (v * cc) + 4 * (bb * bb) + 8 * (bb * cc) + 4 * (cc
        * cc)) by (nonlinear_arith)
        requires
            pd == v - 2 * bb - 2 * cc,
    ;
    assert(pm * pm == 4 * (ab * ab) - 8 * (ab * dc) + 4 * (dc * dc)) by (nonlinear_arith)
        requires
            pm == 2 * ab - 2 * dc,
    ;
    assert(pp * pp == 4 * (ac * ac) + 8 * (ac * db) + 4 * (db * db)) by (nonlinear_arith)
        requires
            pp == 2 * ac + 2 * db,
    ;
    assert(part * (norm - v) == aa * bb + bb * bb + bb * cc + dd * bb - v * bb + aa * cc + bb * cc
        + cc * cc + dd * cc - v * cc) by (nonlinear_arith)
        requires
            part == bb + cc,
            norm == aa + bb + cc + dd,
    ;
}

// The product of two columns, from the parts of what their entries should
// be: `pa` on the diagonal of the first, `qb` on that of the second.
proof fn lemma_angle(
    v: int,
    aa: int,
    bb: int,
    cc: int,
    dd: int,
    ab: int,
    cd: int,
    ac: int,
    db: int,
    bc: int,
    da: int,
    a: int,
    b: int,
    c: int,
    d: int,
    pa: int,
    qa: int,
    pb: int,
    qb: int,
    pc: int,
    qc: int,
    part: int,
    norm: int,
)
    requires
        aa == a * a,
        bb == b * b,
        cc == c * c,
        dd == d * d,
        ab == a * b,
        cd == c * d,
        ac == a * c,
        db == d * b,
        bc == b * c,
        da == d * a,
        pa == v - 2 * bb - 2 * cc,
        qa == 2 * ab + 2 * cd,
        pb == 2 * ab - 2 * cd,
        qb == v - 2 * aa - 2 * cc,
        pc == 2 * ac + 2 * db,
        qc == 2 * bc - 2 * da,
        part == -ab,
        norm == aa + bb + cc + dd,
    ensures
        pa * qa + pb * qb + pc * qc == 4 * (part * (norm - v)),
{
    assert(ac * bc == cc * ab) by (nonlinear_arith)
        requires
            ac == a * c,
            bc == b * c,
            cc == c * c,
            ab == a * b,
    ;
    assert(ac * da == aa * cd) by (nonlinear_arith)
        requires
            ac == a * c,
            da == d * a,
            aa == a * a,
            cd == c * d,
    ;
    assert(db * bc == bb * cd) by (nonlinear_arith)
        requires
            db == d * b,
            bc == b * c,
            bb == b * b,
            cd == c * d,
    ;
    assert(db * da == ab * dd) by (nonlinear_arith)
        requires
            db == d * b,
            da == d * a,
            ab == a * b,
            dd == d * d,
    ;
    assert(pa * qa == 2 * (v * ab) + 2 * (v * cd) - 4 * (bb * ab) - 4 * (bb * cd) - 4 * (cc * ab)
        - 4 * (cc * cd)) by (nonlinear_arith)
        requires
            pa == v - 2 * bb - 2 * cc,
            qa == 2 * ab + 2 * cd,
    ;
    assert(pb * qb == 2 * (v * ab) - 4 * (aa * ab) - 4 * (cc * ab) - 2 * (v * cd) + 4 * (aa * cd)
        + 4 * (cc * cd)) by (nonlinear_arith)
        requires
            pb == 2 * ab - 2 * cd,
            qb == v - 2 * aa - 2 * cc,
    ;
    assert(pc * qc == 4 * (ac * bc) - 4 * (ac * da) + 4 * (db * bc) - 4 * (db * da))
        by (nonlinear_arith)
        requires
            pc == 2 * ac + 2 * db,
            qc == 2 * bc - 2 * da,
    ;
    assert(part * (norm - v) == v * ab - aa * ab - bb * ab - cc * ab - ab * dd)
        by (nonlinear_arith)
        requires
            part == -ab,
            norm == aa + bb + cc + dd,
    ;
}

/// The determinant of the upper three rows and left three columns of a
/// matrix, exactly, as a product of three values is counted.
pub open spec fn block_determinant(m: Matrix44) -> int {
    let (m00, m01, m02) = (
        m.at(0, 0).scaled_value(),
        m.at(0, 1).scaled_value(),
        m.at(0, 2).scaled_value(),
    );
    let (m10, m11, m12) = (
        m.at(1, 0).scaled_value(),
        m.at(1, 1).scaled_value(),
        m.at(1, 2).scaled_value(),
    );
    let (m20, m21, m22) = (
        m.at(2, 0).scaled_value(),
        m.at(2, 1).scaled_value(),
        m.at(2, 2).scaled_value(),
    );
    m00 * (m11 * m22 - m21 * m12) + m10 * (m21 * m02 - m01 * m22) + m20 * (m01 * m12 - m11 * m02)
}

// What the errors of two entries leave of their product, where what the
// entries should be is hardly more than one in size.
proof fn lemma_close_pair(unit: int, m: int, n: int, p: int, q: int, c: int, d: int)
    requires
        unit > 0,
        0 <= c <= 8,
        0 <= d <= 8,
        -(c * (unit * unit)) <= 0x100_0000 * (unit * m - p) <= c * (unit * unit),
        -(d * (unit * unit)) <= 0x100_0000 * (unit * n - q) <= d * (unit * unit),
        -(101 * (unit * unit)) <= 100 * p <= 101 * (unit * unit),
        -(101 * (unit * unit)) <= 100 * q <= 101 * (unit * unit),
    ensures
        ({
            let v = unit * unit;
            let most = (101 * 0x100_0000 * (c + d) + 100 * (c * d)) * (v * v);
            -most <= 100 * (0x100_0000 * (0x100_0000 * (v * (m * n) - p * q))) <= most
        }),
{
    let v = unit * unit;
    let e = unit * m - p;
    let f = unit * n - q;
    let hp = 100 * p;
    let hq = 100 * q;
    let ke = 0x100_0000 * e;
    let kf = 0x100_0000 * f;
    assert(v * (m * n) == (unit * m) * (unit * n)) by (nonlinear_arith)
        requires
            v == unit * unit,
    ;
    assert((p + e) * (q + f) - p * q == p * f + e * q + e * f) by (nonlinear_arith);
    assert(hp * kf == 100 * (0x100_0000 * (p * f))) by (nonlinear_arith)
        requires
            hp == 100 * p,
            kf == 0x100_0000 * f,
    ;
    assert(ke * hq == 100 * (0x100_0000 * (e * q))) by (nonlinear_arith)
        requires
            ke == 0x100_0000 * e,
            hq == 100 * q,
    ;
    assert(ke * kf == 0x100_0000 * (0x100_0000 * (e * f))) by (nonlinear_arith)
        requires
            ke == 0x100_0000 * e,
            kf == 0x100_0000 * f,
    ;
    lemma_bounded_product(hp, kf, 101 * v, d * v);
    lemma_bounded_product(ke, hq, c * v, 101 * v);
    lemma_bounded_product(ke, kf, c * v, d * v);
    let (b1, b2, b3) = ((101 * v) * (d * v), (c * v) * (101 * v), (c * v) * (d * v));
    let most = (101 * 0x100_0000 * (c + d) + 100 * (c * d)) * (v * v);
    let w = v * v;
    assert(b1 == (101 * d) * w && b2 == (101 * c) * w && b3 == (c * d) * w) by (nonlinear_arith)
        requires
            w == v * v,
            b1 == (101 * v) * (d * v),
            b2 == (c * v) * (101 * v),
            b3 == (c * v) * (d * v),
    ;
    assert(most == 0x100_0000 * ((101 * d) * w) + 0x100_0000 * ((101 * c) * w) + 100 * ((c * d)
        * w)) by (nonlinear_arith)
        requires
            most == (101 * 0x100_0000 * (c + d) + 100 * (c * d)) * w,
    ;
    let (t1, t2, t3) = (hp * kf, ke * hq, ke * kf);
    let total = 100 * (0x100_0000 * (0x100_0000 * (p * f + e * q + e * f)));
    assert(total == 0x100_0000 * t1 + 0x100_0000 * t2 + 100 * t3);
    assert(-most <= total <= most) by (nonlinear_arith)
        requires
            total == 0x100_0000 * t1 + 0x100_0000 * t2 + 100 * t3,
            most == 0x100_0000 * b1 + 0x100_0000 * b2 + 100 * b3,
            -b1 <= t1 <= b1,
            -b2 <= t2 <= b2,
            -b3 <= t3 <= b3,
    ;
    assert(v * (m * n) - p * q == p * f + e * q + e * f);
}

// The exact products of what the entries of the second and third columns
// should be, crosswise: the first column again, but for what goes with the
// quaternion's length.
proof fn lemma_cross(
    v: int,
    x: int,
    y: int,
    z: int,
    w: int,
    p01: int,
    p11: int,
    p21: int,
    p02: int,
    p12: int,
    p22: int,
)
    requires
        p01 == 2 * (x * y) + 2 * (z * w),
        p11 == v - 2 * (x * x) - 2 * (z * z),
        p21 == 2 * (y * z) - 2 * (w * x),
        p02 == 2 * (x * z) - 2 * (y * w),
        p12 == 2 * (y * z) + 2 * (w * x),
        p22 == v - 2 * (x * x) - 2 * (y * y),
    ensures
        ({
            let gap = x * x + y * y + z * z + w * w - v;
            &&& p11 * p22 - p21 * p12 == v * (v - 2 * (y * y) - 2 * (z * z)) + 4 * ((x * x) * gap)
            &&& p21 * p02 - p01 * p22 == v * (2 * (x * y) - 2 * (w * z)) + 4 * ((x * y) * gap)
            &&& p01 * p12 - p11 * p02 == v * (2 * (x * z) + 2 * (w * y)) + 4 * ((x * z) * gap)
        }),
{
    let (aa, bb, cc, dd) = (x * x, y * y, z * z, w * w);
    let (xy, xz, yz, zw, yw, wx) = (x * y, x * z, y * z, z * w, y * w, w * x);
    let gap = aa + bb + cc + dd - v;
    assert(w * z == zw && w * y == yw) by (nonlinear_arith)
        requires
            zw == z * w,
            yw == y * w,
    ;
    // the products of two parts each
    assert(yz * yz == bb * cc && wx * wx == dd * aa && yz * wx == wx * yz) by (nonlinear_arith)
        requires
            yz == y * z,
            wx == w * x,
            aa == x * x,
            bb == y * y,
            cc == z * z,
            dd == w * w,
    ;
    assert(yz * xz == cc * xy && yz * yw == bb * zw && wx * xz == aa * zw && wx * yw == dd * xy)
        by (nonlinear_arith)
        requires
            yz == y * z,
            xz == x * z,
            yw == y * w,
            wx == w * x,
            xy == x * y,
            zw == z * w,
            aa == x * x,
            bb == y * y,
            cc == z * z,
            dd == w * w,
    ;
    assert(xy * yz == bb * xz && xy * wx == aa * yw && zw * yz == cc * yw && zw * wx == dd * xz)
        by (nonlinear_arith)
        requires
            yz == y * z,
            xz == x * z,
            yw == y * w,
            wx == w * x,
            xy == x * y,
            zw == z * w,
            aa == x * x,
            bb == y * y,
            cc == z * z,
            dd == w * w,
    ;
    // the first
    assert(p11 * p22 == v * v - 2 * (v * aa) - 2 * (v * bb) - 2 * (v * aa) - 2 * (v * cc) + 4 * (aa
        * aa) + 4 * (aa * bb) + 4 * (cc * aa) + 4 * (cc * bb)) by (nonlinear_arith)
        requires
            p11 == v - 2 * aa - 2 * cc,
            p22 == v - 2 * aa - 2 * bb,
    ;
    assert(p21 * p12 == 4 * (yz * yz) - 4 * (wx * wx)) by (nonlinear_arith)
        requires
            p21 == 2 * yz - 2 * wx,
            p12 == 2 * yz + 2 * wx,
    ;
    assert(v * (v - 2 * bb - 2 * cc) + 4 * (aa * gap) == v * v - 2 * (v * bb) - 2 * (v * cc) + 4
        * (aa * aa) + 4 * (aa * bb) + 4 * (aa * cc) + 4 * (aa * dd) - 4 * (aa * v))
        by (nonlinear_arith)
        requires
            gap == aa + bb + cc + dd - v,
    ;
    assert(cc * aa == aa * cc && cc * bb == bb * cc && dd * aa == aa * dd && aa * v == v * aa)
        by (nonlinear_arith);
    // the second
    assert(p21 * p02 == 4 * (yz * xz) - 4 * (yz * yw) - 4 * (wx * xz) + 4 * (wx * yw))
        by (nonlinear_arith)
        requires
            p21 == 2 * yz - 2 * wx,
            p02 == 2 * xz - 2 * yw,
    ;
    assert(p01 * p22 == 2 * (v * xy) - 4 * (aa * xy) - 4 * (bb * xy) + 2 * (v * zw) - 4 * (aa * zw)
        - 4 * (bb * zw)) by (nonlinear_arith)
        requires
            p01 == 2 * xy + 2 * zw,
            p22 == v - 2 * aa - 2 * bb,
    ;
    assert(v * (2 * xy - 2 * zw) + 4 * (xy * gap) == 2 * (v * xy) - 2 * (v * zw) + 4 * (aa * xy)
        + 4 * (bb * xy) + 4 * (cc * xy) + 4 * (dd * xy) - 4 * (v * xy)) by (nonlinear_arith)
        requires
            gap == aa + bb + cc + dd - v,
    ;
    // the third
    assert(p01 * p12 == 4 * (xy * yz) + 4 * (xy * wx) + 4 * (zw * yz) + 4 * (zw * wx))
        by (nonlinear_arith)
        requires
            p01 == 2 * xy + 2 * zw,
            p12 == 2 * yz + 2 * wx,
    ;
    assert(p11 * p02 == 2 * (v * xz) - 2 * (v * yw) - 4 * (aa * xz) + 4 * (aa * yw) - 4 * (cc * xz)
        + 4 * (cc * yw)) by (nonlinear_arith)
        requires
            p11 == v - 2 * aa - 2 * cc,
            p02 == 2 * xz - 2 * yw,
    ;
    assert(v * (2 * xz + 2 * yw) + 4 * (xz * gap) == 2 * (v * xz) + 2 * (v * yw) + 4 * (aa * xz)
        + 4 * (bb * xz) + 4 * (cc * xz) + 4 * (dd * xz) - 4 * (v * xz)) by (nonlinear_arith)
        requires
            gap == aa + bb + cc + dd - v,
    ;
}

// What is bounded stays bounded when it is scaled.
proof fn lemma_bounded_scaled(a: int, b: int, ka: int, kb: int, most_a: int, most_b: int)
    requires
        -most_a <= ka * a <= most_a,
        -most_b <= kb * b <= most_b,
    ensures
        -(most_a * most_b) <= (ka * kb) * (a * b) <= most_a * most_b,
{
    lemma_bounded_product(ka * a, kb * b, most_a, most_b);
    assert((ka * a) * (kb * b) == (ka * kb) * (a * b)) by (nonlinear_arith);
}

// A product of two sums, each of what should be and what it is off by.
proof fn lemma_term(a: int, g: int, p: int, cp: int)
    ensures
        a * g - p * cp == p * (g - cp) + (a - p) * cp + (a - p) * (g - cp),
{
    assert(a * g - p * cp == p * (g - cp) + (a - p) * cp + (a - p) * (g - cp))
        by (nonlinear_arith);
}

// What the first column should be, times the vector part of the
// quaternion, each part times the first: the first part squared.
proof fn lemma_axis(v: int, x: int, y: int, z: int, w: int, pa: int, pb: int, pc: int)
    requires
        pa == v - 2 * (y * y) - 2 * (z * z),
        pb == 2 * (x * y) - 2 * (w * z),
        pc == 2 * (x * z) + 2 * (w * y),
    ensures
        pa * (x * x) + pb * (x * y) + pc * (x * z) == (x * x) * v,
{
    let (aa, bb, cc) = (x * x, y * y, z * z);
    let (xy, xz, wz, wy) = (x * y, x * z, w * z, w * y);
    assert(xy * xy == aa * bb && xz * xz == aa * cc && wz * xy == wy * xz) by (nonlinear_arith)
        requires
            aa == x * x,
            bb == y * y,
            cc == z * z,
            xy == x * y,
            xz == x * z,
            wz == w * z,
            wy == w * y,
    ;
    assert(pa * aa == v * aa - 2 * (bb * aa) - 2 * (cc * aa)) by (nonlinear_arith)
        requires
            pa == v - 2 * bb - 2 * cc,
    ;
    assert(pb * xy == 2 * (xy * xy) - 2 * (wz * xy)) by (nonlinear_arith)
        requires
            pb == 2 * xy - 2 * wz,
    ;
    assert(pc * xz == 2 * (xz * xz) + 2 * (wy * xz)) by (nonlinear_arith)
        requires
            pc == 2 * xz + 2 * wy,
    ;
    assert(bb * aa == aa * bb && cc * aa == aa * cc && v * aa == aa * v) by (nonlinear_arith);
}

// One part of the determinant: an entry of the first column times what
// the other two columns give crosswise. `a` is the entry and `g` the cross,
// `p` and `cp` what they should be; `c` and `k` say how far they may be
// off.
proof fn lemma_part(v: int, a: int, g: int, p: int, cp: int, c: int, k: int)
    requires
        v > 0,
        0 <= c <= 8,
        0 <= k,
        -(c * v) <= 0x100_0000 * (a - p) <= c * v,
        -(k * (v * v)) <= 100 * (0x100_0000 * (0x100_0000 * (g - cp))) <= k * (v * v),
        -(101 * v) <= 100 * p <= 101 * v,
        -(102 * (v * v)) <= 100 * cp <= 102 * (v * v),
    ensures
        ({
            let six = v * (v * v);
            let off = a * g - p * cp;
            let most = (0x100_0000 * (101 * k) + 0x1_0000_0000_0000 * (10_200 * c) + 100 * (c * k))
                * six;
            -most <= 0x1_0000_0000_0000_0000_00 * (10_000 * off) <= most
        }),
{
    let w = v * v;
    let six = v * w;
    let e = a - p;
    let big = g - cp;
    lemma_term(a, g, p, cp);
    let wide: int = 28_147_497_671_065_600;
    assert(wide * big == 100 * (0x100_0000 * (0x100_0000 * big)));
    lemma_bounded_scaled(p, big, 100, wide, 101 * v, k * w);
    lemma_bounded_scaled(e, cp, 0x100_0000, 100, c * v, 102 * w);
    lemma_bounded_scaled(e, big, 0x100_0000, wide, c * v, k * w);
    let (t1, t2, t3) = (p * big, e * cp, e * big);
    let (b1, b2, b3) = ((101 * v) * (k * w), (c * v) * (102 * w), (c * v) * (k * w));
    let most = (0x100_0000 * (101 * k) + 0x1_0000_0000_0000 * (10_200 * c) + 100 * (c * k)) * six;
    assert(b1 == (101 * k) * six && b2 == (102 * c) * six && b3 == (c * k) * six)
        by (nonlinear_arith)
        requires
            six == v * w,
            b1 == (101 * v) * (k * w),
            b2 == (c * v) * (102 * w),
            b3 == (c * v) * (k * w),
    ;
    assert(most == 0x100_0000 * ((101 * k) * six) + 0x1_0000_0000_0000 * (100 * ((102 * c) * six))
        + 100 * ((c * k) * six)) by (nonlinear_arith)
        requires
            most == (0x100_0000 * (101 * k) + 0x1_0000_0000_0000 * (10_200 * c) + 100 * (c * k))
                * six,
    ;
    let off = a * g - p * cp;
    assert(-most <= 0x1_0000_0000_0000_0000_00 * (10_000 * off) <= most) by (nonlinear_arith)
        requires
            off == t1 + t2 + t3,
            most == 0x100_0000 * b1 + 0x1_0000_0000_0000 * (100 * b2) + 100 * b3,
            wide == 28_147_497_671_065_600,
            -b1 <= (100 * wide) * t1 <= b1,
            -b2 <= (0x100_0000 * 100) * t2 <= b2,
            -b3 <= (0x100_0000 * wide) * t3 <= b3,
    ;
}

// The first column of the rotation times the first.
proof fn lemma_columns_00(position: Vector3, q: Vector4)
    requires
        is_unit(q),
    ensures
        -one_squared() <= 100_000 * (column_product(affine_of(position, q), 0, 0) - one_squared())
            <= one_squared(),
{
    let m = affine_of(position, q);
    let unit = one_size();
    let v = unit * unit;
    let ww = v * v;
    let (x, y, z, w) = (
        q.x.scaled_value(),
        q.y.scaled_value(),
        q.z.scaled_value(),
        q.w.scaled_value(),
    );
    let norm = norm_squared(q);
    lemma_tiny();
    lemma_squares(x, y);
    lemma_squares(x, z);
    lemma_squares(x, w);
    lemma_squares(y, z);
    lemma_squares(y, w);
    lemma_squares(z, w);
    lemma_squares(y, x);
    lemma_squares(z, x);
    lemma_squares(w, x);
    lemma_squares(z, y);
    lemma_squares(w, y);
    lemma_squares(w, z);
    lemma_part_is_small(q.x, y * y + z * z + w * w);
    lemma_part_is_small(q.y, x * x + z * z + w * w);
    lemma_part_is_small(q.z, x * x + y * y + w * w);
    lemma_part_is_small(q.w, x * x + y * y + z * z);
    lemma_diagonal_entry(q.y, q.z);
    lemma_other_entry(q.x, q.y, q.w, q.z);
    lemma_other_entry(q.x, q.z, q.w, q.y);
    let (m0, m1, m2) = (
        m.at(0, 0).scaled_value(),
        m.at(1, 0).scaled_value(),
        m.at(2, 0).scaled_value(),
    );
    let (n0, n1, n2) = (
        m.at(0, 0).scaled_value(),
        m.at(1, 0).scaled_value(),
        m.at(2, 0).scaled_value(),
    );
    let pa = v - 2 * (y * y) - 2 * (z * z);
    let pb = 2 * (x * y) - 2 * (w * z);
    let pc = 2 * (x * z) + 2 * (w * y);
    let qa = v - 2 * (y * y) - 2 * (z * z);
    let qb = 2 * (x * y) - 2 * (w * z);
    let qc = 2 * (x * z) + 2 * (w * y);
    lemma_pair(unit, m0, n0, pa, qa, 8, 8);
    lemma_pair(unit, m1, n1, pb, qb, 4, 4);
    lemma_pair(unit, m2, n2, pc, qc, 4, 4);
    let product = column_product(m, 0, 0);
    let exact = pa * qa + pb * qb + pc * qc;
    let part = y * y + z * z;
    lemma_length(
        v,
        x * x,
        y * y,
        z * z,
        w * w,
        x * y,
        w * z,
        x * z,
        w * y,
        x,
        y,
        z,
        w,
        pa,
        pb,
        pc,
        part,
        norm,
    );
    assert(v * product == v * (m0 * n0) + v * (m1 * n1) + v * (m2 * n2)) by (nonlinear_arith)
        requires
            product == m0 * n0 + m1 * n1 + m2 * n2,
    ;
    let f0 = 0x100_0000 * (0x100_0000 * (v * (m0 * n0) - pa * qa));
    let f1 = 0x100_0000 * (0x100_0000 * (v * (m1 * n1) - pb * qb));
    let f2 = 0x100_0000 * (0x100_0000 * (v * (m2 * n2) - pc * qc));
    let far = 0x100_0000 * (0x100_0000 * (v * product - exact));
    assert(far == f0 + f1 + f2);
    assert(-((0x4000_0000 + 96) * ww) <= far <= (0x4000_0000 + 96) * ww) by (nonlinear_arith)
        requires
            far == f0 + f1 + f2,
            -((0x200_0000 * 16 + 64) * ww) <= f0,
            f0 <= (0x200_0000 * 16 + 64) * ww,
            -((0x200_0000 * 8 + 16) * ww) <= f1,
            f1 <= (0x200_0000 * 8 + 16) * ww,
            -((0x200_0000 * 8 + 16) * ww) <= f2,
            f2 <= (0x200_0000 * 8 + 16) * ww,
            ww >= 0,
    ;
    lemma_settle(unit, product, exact, v, part, norm);
}

// The second column of the rotation times the second.
proof fn lemma_columns_11(position: Vector3, q: Vector4)
    requires
        is_unit(q),
    ensures
        -one_squared() <= 100_000 * (column_product(affine_of(position, q), 1, 1) - one_squared())
            <= one_squared(),
{
    let m = affine_of(position, q);
    let unit = one_size();
    let v = unit * unit;
    let ww = v * v;
    let (x, y, z, w) = (
        q.x.scaled_value(),
        q.y.scaled_value(),
        q.z.scaled_value(),
        q.w.scaled_value(),
    );
    let norm = norm_squared(q);
    lemma_tiny();
    lemma_squares(x, y);
    lemma_squares(x, z);
    lemma_squares(x, w);
    lemma_squares(y, z);
    lemma_squares(y, w);
    lemma_squares(z, w);
    lemma_squares(y, x);
    lemma_squares(z, x);
    lemma_squares(w, x);
    lemma_squares(z, y);
    lemma_squares(w, y);
    lemma_squares(w, z);
    lemma_part_is_small(q.x, y * y + z * z + w * w);
    lemma_part_is_small(q.y, x * x + z * z + w * w);
    lemma_part_is_small(q.z, x * x + y * y + w * w);
    lemma_part_is_small(q.w, x * x + y * y + z * z);
    lemma_diagonal_entry(q.x, q.z);
    lemma_other_entry(q.x, q.y, q.z, q.w);
    lemma_other_entry(q.y, q.z, q.w, q.x);
    let (m0, m1, m2) = (
        m.at(0, 1).scaled_value(),
        m.at(1, 1).scaled_value(),
        m.at(2, 1).scaled_value(),
    );
    let (n0, n1, n2) = (
        m.at(0, 1).scaled_value(),
        m.at(1, 1).scaled_value(),
        m.at(2, 1).scaled_value(),
    );
    let pa = 2 * (x * y) + 2 * (z * w);
    let pb = v - 2 * (x * x) - 2 * (z * z);
    let pc = 2 * (y * z) - 2 * (w * x);
    let qa = 2 * (x * y) + 2 * (z * w);
    let qb = v - 2 * (x * x) - 2 * (z * z);
    let qc = 2 * (y * z) - 2 * (w * x);
    lemma_pair(unit, m0, n0, pa, qa, 4, 4);
    lemma_pair(unit, m1, n1, pb, qb, 8, 8);
    lemma_pair(unit, m2, n2, pc, qc, 4, 4);
    let product = column_product(m, 1, 1);
    let exact = pa * qa + pb * qb + pc * qc;
    let part = z * z + x * x;
    lemma_length(
        v,
        y * y,
        z * z,
        x * x,
        w * w,
        y * z,
        w * x,
        y * x,
        w * z,
        y,
        z,
        x,
        w,
        pb,
        pc,
        pa,
        part,
        norm,
    );
    assert(v * product == v * (m0 * n0) + v * (m1 * n1) + v * (m2 * n2)) by (nonlinear_arith)
        requires
            product == m0 * n0 + m1 * n1 + m2 * n2,
    ;
    let f0 = 0x100_0000 * (0x100_0000 * (v * (m0 * n0) - pa * qa));
    let f1 = 0x100_0000 * (0x100_0000 * (v * (m1 * n1) - pb * qb));
    let f2 = 0x100_0000 * (0x100_0000 * (v * (m2 * n2) - pc * qc));
    let far = 0x100_0000 * (0x100_0000 * (v * product - exact));
    assert(far == f0 + f1 + f2);
    assert(-((0x4000_0000 + 96) * ww) <= far <= (0x4000_0000 + 96) * ww) by (nonlinear_arith)
        requires
            far == f0 + f1 + f2,
            -((0x200_0000 * 8 + 16) * ww) <= f0,
            f0 <= (0x200_0000 * 8 + 16) * ww,
            -((0x200_0000 * 16 + 64) * ww) <= f1,
            f1 <= (0x200_0000 * 16 + 64) * ww,
            -((0x200_0000 * 8 + 16) * ww) <= f2,
            f2 <= (0x200_0000 * 8 + 16) * ww,
            ww >= 0,
    ;
    lemma_settle(unit, product, exact, v, part, norm);
}

// The third column of the rotation times the third.
proof fn lemma_columns_22(position: Vector3, q: Vector4)
    requires
        is_unit(q),
    ensures
        -one_squared() <= 100_000 * (column_product(affine_of(position, q), 2, 2) - one_squared())
            <= one_squared(),
{
    let m = affine_of(position, q);
    let unit = one_size();
    let v = unit * unit;
    let ww = v * v;
    let (x, y, z, w) = (
        q.x.scaled_value(),
        q.y.scaled_value(),
        q.z.scaled_value(),
        q.w.scaled_value(),
    );
    let norm = norm_squared(q);
    lemma_tiny();
    lemma_squares(x, y);
    lemma_squares(x, z);
    lemma_squares(x, w);
    lemma_squares(y, z);
    lemma_squares(y, w);
    lemma_squares(z, w);
    lemma_squares(y, x);
    lemma_squares(z, x);
    lemma_squares(w, x);
    lemma_squares(z, y);
    lemma_squares(w, y);
    lemma_squares(w, z);
    lemma_part_is_small(q.x, y * y + z * z + w * w);
    lemma_part_is_small(q.y, x * x + z * z + w * w);
    lemma_part_is_small(q.z, x * x + y * y + w * w);
    lemma_part_is_small(q.w, x * x + y * y + z * z);
    lemma_diagonal_entry(q.x, q.y);
    lemma_other_entry(q.x, q.z, q.y, q.w);
    lemma_other_entry(q.y, q.z, q.w, q.x);
    let (m0, m1, m2) = (
        m.at(0, 2).scaled_value(),
        m.at(1, 2).scaled_value(),
        m.at(2, 2).scaled_value(),
    );
    let (n0, n1, n2) = (
        m.at(0, 2).scaled_value(),
        m.at(1, 2).scaled_value(),
        m.at(2, 2).scaled_value(),
    );
    let pa = 2 * (x * z) - 2 * (y * w);
    let pb = 2 * (y * z) + 2 * (w * x);
    let pc = v - 2 * (x * x) - 2 * (y * y);
    let qa = 2 * (x * z) - 2 * (y * w);
    let qb = 2 * (y * z) + 2 * (w * x);
    let qc = v - 2 * (x * x) - 2 * (y * y);
    lemma_pair(unit, m0, n0, pa, qa, 4, 4);
    lemma_pair(unit, m1, n1, pb, qb, 4, 4);
    lemma_pair(unit, m2, n2, pc, qc, 8, 8);
    let product = column_product(m, 2, 2);
    let exact = pa * qa + pb * qb + pc * qc;
    let part = x * x + y * y;
    lemma_length(
        v,
        z * z,
        x * x,
        y * y,
        w * w,
        z * x,
        w * y,
        z * y,
        w * x,
        z,
        x,
        y,
        w,
        pc,
        pa,
        pb,
        part,
        norm,
    );
    assert(v * product == v * (m0 * n0) + v * (m1 * n1) + v * (m2 * n2)) by (nonlinear_arith)
        requires
            product == m0 * n0 + m1 * n1 + m2 * n2,
    ;
    let f0 = 0x100_0000 * (0x100_0000 * (v * (m0 * n0) - pa * qa));
    let f1 = 0x100_0000 * (0x100_0000 * (v * (m1 * n1) - pb * qb));
    let f2 = 0x100_0000 * (0x100_0000 * (v * (m2 * n2) - pc * qc));
    let far = 0x100_0000 * (0x100_0000 * (v * product - exact));
    assert(far == f0 + f1 + f2);
    assert(-((0x4000_0000 + 96) * ww) <= far <= (0x4000_0000 + 96) * ww) by (nonlinear_arith)
        requires
            far == f0 + f1 + f2,
            -((0x200_0000 * 8 + 16) * ww) <= f0,
            f0 <= (0x200_0000 * 8 + 16) * ww,
            -((0x200_0000 * 8 + 16) * ww) <= f1,
            f1 <= (0x200_0000 * 8 + 16) * ww,
            -((0x200_0000 * 16 + 64) * ww) <= f2,
            f2 <= (0x200_0000 * 16 + 64) * ww,
            ww >= 0,
    ;
    lemma_settle(unit, product, exact, v, part, norm);
}

// The first column of the rotation times the second.
proof fn lemma_columns_01(position: Vector3, q: Vector4)
    requires
        is_unit(q),
    ensures
        -one_squared() <= 100_000 * column_product(affine_of(position, q), 0, 1) <= one_squared(),
{
    let m = affine_of(position, q);
    let unit = one_size();
    let v = unit * unit;
    let ww = v * v;
    let (x, y, z, w) = (
        q.x.scaled_value(),
        q.y.scaled_value(),
        q.z.scaled_value(),
        q.w.scaled_value(),
    );
    let norm = norm_squared(q);
    lemma_tiny();
    lemma_squares(x, y);
    lemma_squares(x, z);
    lemma_squares(x, w);
    lemma_squares(y, z);
    lemma_squares(y, w);
    lemma_squares(z, w);
    lemma_squares(y, x);
    lemma_squares(z, x);
    lemma_squares(w, x);
    lemma_squares(z, y);
    lemma_squares(w, y);
    lemma_squares(w, z);
    lemma_part_is_small(q.x, y * y + z * z + w * w);
    lemma_part_is_small(q.y, x * x + z * z + w * w);
    lemma_part_is_small(q.z, x * x + y * y + w * w);
    lemma_part_is_small(q.w, x * x + y * y + z * z);
    lemma_diagonal_entry(q.x, q.z);
    lemma_diagonal_entry(q.y, q.z);
    lemma_other_entry(q.x, q.y, q.w, q.z);
    lemma_other_entry(q.x, q.y, q.z, q.w);
    lemma_other_entry(q.x, q.z, q.w, q.y);
    lemma_other_entry(q.y, q.z, q.w, q.x);
    let (m0, m1, m2) = (
        m.at(0, 0).scaled_value(),
        m.at(1, 0).scaled_value(),
        m.at(2, 0).scaled_value(),
    );
    let (n0, n1, n2) = (
        m.at(0, 1).scaled_value(),
        m.at(1, 1).scaled_value(),
        m.at(2, 1).scaled_value(),
    );
    let pa = v - 2 * (y * y) - 2 * (z * z);
    let pb = 2 * (x * y) - 2 * (w * z);
    let pc = 2 * (x * z) + 2 * (w * y);
    let qa = 2 * (x * y) + 2 * (z * w);
    let qb = v - 2 * (x * x) - 2 * (z * z);
    let qc = 2 * (y * z) - 2 * (w * x);
    lemma_pair(unit, m0, n0, pa, qa, 8, 4);
    lemma_pair(unit, m1, n1, pb, qb, 4, 8);
    lemma_pair(unit, m2, n2, pc, qc, 4, 4);
    let product = column_product(m, 0, 1);
    let exact = pa * qa + pb * qb + pc * qc;
    let part = -(x * y);
    lemma_angle(
        v,
        x * x,
        y * y,
        z * z,
        w * w,
        x * y,
        z * w,
        x * z,
        w * y,
        y * z,
        w * x,
        x,
        y,
        z,
        w,
        pa,
        qa,
        pb,
        qb,
        pc,
        qc,
        part,
        norm,
    );
    assert(v * product == v * (m0 * n0) + v * (m1 * n1) + v * (m2 * n2)) by (nonlinear_arith)
        requires
            product == m0 * n0 + m1 * n1 + m2 * n2,
    ;
    let f0 = 0x100_0000 * (0x100_0000 * (v * (m0 * n0) - pa * qa));
    let f1 = 0x100_0000 * (0x100_0000 * (v * (m1 * n1) - pb * qb));
    let f2 = 0x100_0000 * (0x100_0000 * (v * (m2 * n2) - pc * qc));
    let far = 0x100_0000 * (0x100_0000 * (v * product - exact));
    assert(far == f0 + f1 + f2);
    assert(-((0x4000_0000 + 96) * ww) <= far <= (0x4000_0000 + 96) * ww) by (nonlinear_arith)
        requires
            far == f0 + f1 + f2,
            -((0x200_0000 * 12 + 32) * ww) <= f0,
            f0 <= (0x200_0000 * 12 + 32) * ww,
            -((0x200_0000 * 12 + 32) * ww) <= f1,
            f1 <= (0x200_0000 * 12 + 32) * ww,
            -((0x200_0000 * 8 + 16) * ww) <= f2,
            f2 <= (0x200_0000 * 8 + 16) * ww,
            ww >= 0,
    ;
    lemma_settle(unit, product, exact, 0, part, norm);
}

// The first column of the rotation times the third.
proof fn lemma_columns_02(position: Vector3, q: Vector4)
    requires
        is_unit(q),
    ensures
        -one_squared() <= 100_000 * column_product(affine_of(position, q), 0, 2) <= one_squared(),
{
    let m = affine_of(position, q);
    let unit = one_size();
    let v = unit * unit;
    let ww = v * v;
    let (x, y, z, w) = (
        q.x.scaled_value(),
        q.y.scaled_value(),
        q.z.scaled_value(),
        q.w.scaled_value(),
    );
    let norm = norm_squared(q);
    lemma_tiny();
    lemma_squares(x, y);
    lemma_squares(x, z);
    lemma_squares(x, w);
    lemma_squares(y, z);
    lemma_squares(y, w);
    lemma_squares(z, w);
    lemma_squares(y, x);
    lemma_squares(z, x);
    lemma_squares(w, x);
    lemma_squares(z, y);
    lemma_squares(w, y);
    lemma_squares(w, z);
    lemma_part_is_small(q.x, y * y + z * z + w * w);
    lemma_part_is_small(q.y, x * x + z * z + w * w);
    lemma_part_is_small(q.z, x * x + y * y + w * w);
    lemma_part_is_small(q.w, x * x + y * y + z * z);
    lemma_diagonal_entry(q.x, q.y);
    lemma_diagonal_entry(q.y, q.z);
    lemma_other_entry(q.x, q.y, q.w, q.z);
    lemma_other_entry(q.x, q.z, q.w, q.y);
    lemma_other_entry(q.x, q.z, q.y, q.w);
    lemma_other_entry(q.y, q.z, q.w, q.x);
    let (m0, m1, m2) = (
        m.at(0, 0).scaled_value(),
        m.at(1, 0).scaled_value(),
        m.at(2, 0).scaled_value(),
    );
    let (n0, n1, n2) = (
        m.at(0, 2).scaled_value(),
        m.at(1, 2).scaled_value(),
        m.at(2, 2).scaled_value(),
    );
    let pa = v - 2 * (y * y) - 2 * (z * z);
    let pb = 2 * (x * y) - 2 * (w * z);
    let pc = 2 * (x * z) + 2 * (w * y);
    let qa = 2 * (x * z) - 2 * (y * w);
    let qb = 2 * (y * z) + 2 * (w * x);
    let qc = v - 2 * (x * x) - 2 * (y * y);
    lemma_pair(unit, m0, n0, pa, qa, 8, 4);
    lemma_pair(unit, m1, n1, pb, qb, 4, 4);
    lemma_pair(unit, m2, n2, pc, qc, 4, 8);
    let product = column_product(m, 0, 2);
    let exact = pa * qa + pb * qb + pc * qc;
    let part = -(z * x);
    lemma_angle(
        v,
        z * z,
        x * x,
        y * y,
        w * w,
        z * x,
        y * w,
        z * y,
        w * x,
        x * y,
        w * z,
        z,
        x,
        y,
        w,
        qc,
        pc,
        qa,
        pa,
        qb,
        pb,
        part,
        norm,
    );
    assert(v * product == v * (m0 * n0) + v * (m1 * n1) + v * (m2 * n2)) by (nonlinear_arith)
        requires
            product == m0 * n0 + m1 * n1 + m2 * n2,
    ;
    let f0 = 0x100_0000 * (0x100_0000 * (v * (m0 * n0) - pa * qa));
    let f1 = 0x100_0000 * (0x100_0000 * (v * (m1 * n1) - pb * qb));
    let f2 = 0x100_0000 * (0x100_0000 * (v * (m2 * n2) - pc * qc));
    let far = 0x100_0000 * (0x100_0000 * (v * product - exact));
    assert(far == f0 + f1 + f2);
    assert(-((0x4000_0000 + 96) * ww) <= far <= (0x4000_0000 + 96) * ww) by (nonlinear_arith)
        requires
            far == f0 + f1 + f2,
            -((0x200_0000 * 12 + 32) * ww) <= f0,
            f0 <= (0x200_0000 * 12 + 32) * ww,
            -((0x200_0000 * 8 + 16) * ww) <= f1,
            f1 <= (0x200_0000 * 8 + 16) * ww,
            -((0x200_0000 * 12 + 32) * ww) <= f2,
            f2 <= (0x200_0000 * 12 + 32) * ww,
            ww >= 0,
    ;
    lemma_settle(unit, product, exact, 0, part, norm);
}

// The second column of the rotation times the third.
proof fn lemma_columns_12(position: Vector3, q: Vector4)
    requires
        is_unit(q),
    ensures
        -one_squared() <= 100_000 * column_product(affine_of(position, q), 1, 2) <= one_squared(),
{
    let m = affine_of(position, q);
    let unit = one_size();
    let v = unit * unit;
    let ww = v * v;
    let (x, y, z, w) = (
        q.x.scaled_value(),
        q.y.scaled_value(),
        q.z.scaled_value(),
        q.w.scaled_value(),
    );
    let norm = norm_squared(q);
    lemma_tiny();
    lemma_squares(x, y);
    lemma_squares(x, z);
    lemma_squares(x, w);
    lemma_squares(y, z);
    lemma_squares(y, w);
    lemma_squares(z, w);
    lemma_squares(y, x);
    lemma_squares(z, x);
    lemma_squares(w, x);
    lemma_squares(z, y);
    lemma_squares(w, y);
    lemma_squares(w, z);
    lemma_part_is_small(q.x, y * y + z * z + w * w);
    lemma_part_is_small(q.y, x * x + z * z + w * w);
    lemma_part_is_small(q.z, x * x + y * y + w * w);
    lemma_part_is_small(q.w, x * x + y * y + z * z);
    lemma_diagonal_entry(q.x, q.y);
    lemma_diagonal_entry(q.x, q.z);
    lemma_other_entry(q.x, q.y, q.z, q.w);
    lemma_other_entry(q.x, q.z, q.y, q.w);
    lemma_other_entry(q.y, q.z, q.w, q.x);
    let (m0, m1, m2) = (
        m.at(0, 1).scaled_value(),
        m.at(1, 1).scaled_value(),
        m.at(2, 1).scaled_value(),
    );
    let (n0, n1, n2) = (
        m.at(0, 2).scaled_value(),
        m.at(1, 2).scaled_value(),
        m.at(2, 2).scaled_value(),
    );
    let pa = 2 * (x * y) + 2 * (z * w);
    let pb = v - 2 * (x * x) - 2 * (z * z);
    let pc = 2 * (y * z) - 2 * (w * x);
    let qa = 2 * (x * z) - 2 * (y * w);
    let qb = 2 * (y * z) + 2 * (w * x);
    let qc = v - 2 * (x * x) - 2 * (y * y);
    lemma_pair(unit, m0, n0, pa, qa, 4, 4);
    lemma_pair(unit, m1, n1, pb, qb, 8, 4);
    lemma_pair(unit, m2, n2, pc, qc, 4, 8);
    let product = column_product(m, 1, 2);
    let exact = pa * qa + pb * qb + pc * qc;
    let part = -(y * z);
    lemma_angle(
        v,
        y * y,
        z * z,
        x * x,
        w * w,
        y * z,
        x * w,
        y * x,
        w * z,
        z * x,
        w * y,
        y,
        z,
        x,
        w,
        pb,
        qb,
        pc,
        qc,
        pa,
        qa,
        part,
        norm,
    );
    assert(v * product == v * (m0 * n0) + v * (m1 * n1) + v * (m2 * n2)) by (nonlinear_arith)
        requires
            product == m0 * n0 + m1 * n1 + m2 * n2,
    ;
    let f0 = 0x100_0000 * (0x100_0000 * (v * (m0 * n0) - pa * qa));
    let f1 = 0x100_0000 * (0x100_0000 * (v * (m1 * n1) - pb * qb));
    let f2 = 0x100_0000 * (0x100_0000 * (v * (m2 * n2) - pc * qc));
    let far = 0x100_0000 * (0x100_0000 * (v * product - exact));
    assert(far == f0 + f1 + f2);
    assert(-((0x4000_0000 + 96) * ww) <= far <= (0x4000_0000 + 96) * ww) by (nonlinear_arith)
        requires
            far == f0 + f1 + f2,
            -((0x200_0000 * 8 + 16) * ww) <= f0,
            f0 <= (0x200_0000 * 8 + 16) * ww,
            -((0x200_0000 * 12 + 32) * ww) <= f1,
            f1 <= (0x200_0000 * 12 + 32) * ww,
            -((0x200_0000 * 12 + 32) * ww) <= f2,
            f2 <= (0x200_0000 * 12 + 32) * ww,
            ww >= 0,
    ;
    lemma_settle(unit, product, exact, 0, part, norm);
}

/// The rotation that a unit quaternion gives is orthogonal within
/// tolerance. The columns of the upper three rows of the affine matrix are
/// of unit length and stand at right angles to each other: the exact
/// product of a column with itself differs from one, and that of two
/// different columns from nothing, by no more than one part in a hundred
/// thousand.
pub proof fn lemma_rotation_is_orthogonal(position: Vector3, q: Vector4, i: int, j: int)
    requires
        is_unit(q),
        0 <= i < 3,
        0 <= j < 3,
    ensures
        -one_squared() <= 100_000 * (column_product(affine_of(position, q), i, j) - if i == j {
            one_squared()
        } else {
            0
        }) <= one_squared(),
{
    let m = affine_of(position, q);
    let (a0, a1, a2) = (
        m.at(0, i).scaled_value(),
        m.at(1, i).scaled_value(),
        m.at(2, i).scaled_value(),
    );
    let (b0, b1, b2) = (
        m.at(0, j).scaled_value(),
        m.at(1, j).scaled_value(),
        m.at(2, j).scaled_value(),
    );
    assert(a0 * b0 == b0 * a0 && a1 * b1 == b1 * a1 && a2 * b2 == b2 * a2) by (nonlinear_arith);
    assert(column_product(m, i, j) == column_product(m, j, i));
    if i == 0 && j == 0 {
        lemma_columns_00(position, q);
    } else if i == 1 && j == 1 {
        lemma_columns_11(position, q);
    } else if i == 2 && j == 2 {
        lemma_columns_22(position, q);
    } else if i + j == 1 {
        lemma_columns_01(position, q);
    } else if i + j == 2 {
        lemma_columns_02(position, q);
    } else {
        lemma_columns_12(position, q);
    }
}

/// The rotation that a unit quaternion gives is a rotation and no
/// reflection: the determinant of the upper three rows and left three
/// columns of the affine matrix differs from one by no more than one part
/// in a hundred thousand.
pub proof fn lemma_rotation_has_determinant_one(position: Vector3, q: Vector4)
    requires
        is_unit(q),
    ensures
        -(one_size() * one_squared()) <= 100_000 * (block_determinant(affine_of(position, q))
            - one_size() * one_squared()) <= one_size() * one_squared(),
{
    let m = affine_of(position, q);
    let unit = one_size();
    let v = unit * unit;
    let ww = v * v;
    let six = v * ww;
    let cube = unit * v;
    let (x, y, z, w) = (
        q.x.scaled_value(),
        q.y.scaled_value(),
        q.z.scaled_value(),
        q.w.scaled_value(),
    );
    let norm = norm_squared(q);
    let gap = norm - v;
    lemma_pow2_pos(149);
    lemma_tiny();
    lemma_squares(x, y);
    lemma_squares(x, z);
    lemma_squares(x, w);
    lemma_squares(y, z);
    lemma_squares(y, w);
    lemma_squares(z, w);
    lemma_squares(y, x);
    lemma_squares(z, x);
    lemma_squares(w, x);
    lemma_squares(z, y);
    lemma_squares(w, y);
    lemma_squares(w, z);
    lemma_part_is_small(q.x, y * y + z * z + w * w);
    lemma_part_is_small(q.y, x * x + z * z + w * w);
    lemma_part_is_small(q.z, x * x + y * y + w * w);
    lemma_part_is_small(q.w, x * x + y * y + z * z);
    lemma_diagonal_entry(q.y, q.z);
    lemma_diagonal_entry(q.x, q.z);
    lemma_diagonal_entry(q.x, q.y);
    lemma_other_entry(q.x, q.y, q.z, q.w);
    lemma_other_entry(q.x, q.z, q.y, q.w);
    lemma_other_entry(q.x, q.y, q.w, q.z);
    lemma_other_entry(q.y, q.z, q.w, q.x);
    lemma_other_entry(q.x, q.z, q.w, q.y);
    let (m00, m01, m02) = (
        m.at(0, 0).scaled_value(),
        m.at(0, 1).scaled_value(),
        m.at(0, 2).scaled_value(),
    );
    let (m10, m11, m12) = (
        m.at(1, 0).scaled_value(),
        m.at(1, 1).scaled_value(),
        m.at(1, 2).scaled_value(),
    );
    let (m20, m21, m22) = (
        m.at(2, 0).scaled_value(),
        m.at(2, 1).scaled_value(),
        m.at(2, 2).scaled_value(),
    );
    let p00 = v - 2 * (y * y) - 2 * (z * z);
    let p10 = 2 * (x * y) - 2 * (w * z);
    let p20 = 2 * (x * z) + 2 * (w * y);
    let p01 = 2 * (x * y) + 2 * (z * w);
    let p11 = v - 2 * (x * x) - 2 * (z * z);
    let p21 = 2 * (y * z) - 2 * (w * x);
    let p02 = 2 * (x * z) - 2 * (y * w);
    let p12 = 2 * (y * z) + 2 * (w * x);
    let p22 = v - 2 * (x * x) - 2 * (y * y);
    // the other two columns, crosswise
    lemma_close_pair(unit, m11, m22, p11, p22, 8, 8);
    lemma_close_pair(unit, m21, m12, p21, p12, 4, 4);
    lemma_close_pair(unit, m21, m02, p21, p02, 4, 4);
    lemma_close_pair(unit, m01, m22, p01, p22, 4, 8);
    lemma_close_pair(unit, m01, m12, p01, p12, 4, 4);
    lemma_close_pair(unit, m11, m02, p11, p02, 8, 4);
    lemma_cross(v, x, y, z, w, p01, p11, p21, p02, p12, p22);
    let (c0, c1, c2) = (m11 * m22 - m21 * m12, m21 * m02 - m01 * m22, m01 * m12 - m11 * m02);
    let (g0, g1, g2) = (v * c0, v * c1, v * c2);
    let (cp0, cp1, cp2) = (p11 * p22 - p21 * p12, p21 * p02 - p01 * p22, p01 * p12 - p11 * p02);
    assert(g0 - cp0 == (v * (m11 * m22) - p11 * p22) - (v * (m21 * m12) - p21 * p12))
        by (nonlinear_arith)
        requires
            g0 == v * (m11 * m22 - m21 * m12),
            cp0 == p11 * p22 - p21 * p12,
    ;
    assert(g1 - cp1 == (v * (m21 * m02) - p21 * p02) - (v * (m01 * m22) - p01 * p22))
        by (nonlinear_arith)
        requires
            g1 == v * (m21 * m02 - m01 * m22),
            cp1 == p21 * p02 - p01 * p22,
    ;
    assert(g2 - cp2 == (v * (m01 * m12) - p01 * p12) - (v * (m11 * m02) - p11 * p02))
        by (nonlinear_arith)
        requires
            g2 == v * (m01 * m12 - m11 * m02),
            cp2 == p01 * p12 - p11 * p02,
    ;
    // 101 * 2^24 * 24 + 8000, and 101 * 2^24 * 20 + 4800
    let k0: int = 40_667_979_584;
    let k1: int = 33_889_981_120;
    assert(ww >= 0) by (nonlinear_arith)
        requires
            ww == v * v,
    ;
    let d0a = v * (m11 * m22) - p11 * p22;
    let d0b = v * (m21 * m12) - p21 * p12;
    assert(-(27_111_987_456 * ww) <= 100 * (0x100_0000 * (0x100_0000 * d0a)) <= 27_111_987_456
        * ww);
    assert(-(13_555_992_128 * ww) <= 100 * (0x100_0000 * (0x100_0000 * d0b)) <= 13_555_992_128
        * ww);
    assert(-(k0 * ww) <= 100 * (0x100_0000 * (0x100_0000 * (g0 - cp0))) <= k0 * ww)
        by (nonlinear_arith)
        requires
            g0 - cp0 == d0a - d0b,
            k0 == 40_667_979_584,
            ww >= 0,
            -(27_111_987_456 * ww) <= 100 * (0x100_0000 * (0x100_0000 * d0a)),
            100 * (0x100_0000 * (0x100_0000 * d0a)) <= 27_111_987_456 * ww,
            -(13_555_992_128 * ww) <= 100 * (0x100_0000 * (0x100_0000 * d0b)),
            100 * (0x100_0000 * (0x100_0000 * d0b)) <= 13_555_992_128 * ww,
    ;
    let d1a = v * (m21 * m02) - p21 * p02;
    let d1b = v * (m01 * m22) - p01 * p22;
    assert(-(13_555_992_128 * ww) <= 100 * (0x100_0000 * (0x100_0000 * d1a)) <= 13_555_992_128
        * ww);
    assert(-(20_333_988_992 * ww) <= 100 * (0x100_0000 * (0x100_0000 * d1b)) <= 20_333_988_992
        * ww);
    assert(-(k1 * ww) <= 100 * (0x100_0000 * (0x100_0000 * (g1 - cp1))) <= k1 * ww)
        by (nonlinear_arith)
        requires
            g1 - cp1 == d1a - d1b,
            k1 == 33_889_981_120,
            ww >= 0,
            -(13_555_992_128 * ww) <= 100 * (0x100_0000 * (0x100_0000 * d1a)),
            100 * (0x100_0000 * (0x100_0000 * d1a)) <= 13_555_992_128 * ww,
            -(20_333_988_992 * ww) <= 100 * (0x100_0000 * (0x100_0000 * d1b)),
            100 * (0x100_0000 * (0x100_0000 * d1b)) <= 20_333_988_992 * ww,
    ;
    let d2a = v * (m01 * m12) - p01 * p12;
    let d2b = v * (m11 * m02) - p11 * p02;
    assert(-(13_555_992_128 * ww) <= 100 * (0x100_0000 * (0x100_0000 * d2a)) <= 13_555_992_128
        * ww);
    assert(-(20_333_988_992 * ww) <= 100 * (0x100_0000 * (0x100_0000 * d2b)) <= 20_333_988_992
        * ww);
    assert(-(k1 * ww) <= 100 * (0x100_0000 * (0x100_0000 * (g2 - cp2))) <= k1 * ww)
        by (nonlinear_arith)
        requires
            g2 - cp2 == d2a - d2b,
            k1 == 33_889_981_120,
            ww >= 0,
            -(13_555_992_128 * ww) <= 100 * (0x100_0000 * (0x100_0000 * d2a)),
            100 * (0x100_0000 * (0x100_0000 * d2a)) <= 13_555_992_128 * ww,
            -(20_333_988_992 * ww) <= 100 * (0x100_0000 * (0x100_0000 * d2b)),
            100 * (0x100_0000 * (0x100_0000 * d2b)) <= 20_333_988_992 * ww,
    ;
    // what the crosses should be is hardly more than one in size
    let (u0, u1, u2) = (x * x, x * y, x * z);
    lemma_bounded_scaled(v, p00, 1, 100, v, 101 * v);
    lemma_bounded_scaled(v, p10, 1, 100, v, 101 * v);
    lemma_bounded_scaled(v, p20, 1, 100, v, 101 * v);
    lemma_bounded_scaled(u0, gap, 1, 1_000_000, 2 * v, v);
    lemma_bounded_scaled(u1, gap, 1, 1_000_000, 2 * v, v);
    lemma_bounded_scaled(u2, gap, 1, 1_000_000, 2 * v, v);
    assert(v * (101 * v) == 101 * ww && (2 * v) * v == 2 * ww) by (nonlinear_arith)
        requires
            ww == v * v,
    ;
    assert(cp0 == v * p00 + 4 * (u0 * gap));
    assert(cp1 == v * p10 + 4 * (u1 * gap));
    assert(cp2 == v * p20 + 4 * (u2 * gap));
    let (a0, a1, a2) = (unit * m00, unit * m10, unit * m20);
    lemma_part(v, a0, g0, p00, cp0, 8, k0);
    lemma_part(v, a1, g1, p10, cp1, 4, k1);
    lemma_part(v, a2, g2, p20, cp2, 4, k1);
    // what the determinant should be
    let part = y * y + z * z;
    lemma_length(
        v,
        x * x,
        y * y,
        z * z,
        w * w,
        x * y,
        w * z,
        x * z,
        w * y,
        x,
        y,
        z,
        w,
        p00,
        p10,
        p20,
        part,
        norm,
    );
    lemma_axis(v, x, y, z, w, p00, p10, p20);
    let squares = p00 * p00 + p10 * p10 + p20 * p20;
    let along = p00 * u0 + p10 * u1 + p20 * u2;
    assert(p00 * cp0 == v * (p00 * p00) + 4 * ((p00 * u0) * gap)) by (nonlinear_arith)
        requires
            cp0 == v * p00 + 4 * (u0 * gap),
    ;
    assert(p10 * cp1 == v * (p10 * p10) + 4 * ((p10 * u1) * gap)) by (nonlinear_arith)
        requires
            cp1 == v * p10 + 4 * (u1 * gap),
    ;
    assert(p20 * cp2 == v * (p20 * p20) + 4 * ((p20 * u2) * gap)) by (nonlinear_arith)
        requires
            cp2 == v * p20 + 4 * (u2 * gap),
    ;
    assert(v * squares == v * (p00 * p00) + v * (p10 * p10) + v * (p20 * p20)) by (nonlinear_arith)
        requires
            squares == p00 * p00 + p10 * p10 + p20 * p20,
    ;
    assert(along * gap == (p00 * u0) * gap + (p10 * u1) * gap + (p20 * u2) * gap)
        by (nonlinear_arith)
        requires
            along == p00 * u0 + p10 * u1 + p20 * u2,
    ;
    let should = p00 * cp0 + p10 * cp1 + p20 * cp2;
    assert(should == v * squares + 4 * (along * gap));
    let all = u0 + part;
    let shift = all * gap;
    assert(v * squares + 4 * (along * gap) == six + 4 * (v * shift)) by (nonlinear_arith)
        requires
            squares == v * v + 4 * (part * gap),
            along == u0 * v,
            all == u0 + part,
            shift == all * gap,
            six == v * (v * v),
    ;
    lemma_bounded_scaled(all, gap, 1_000_000, 1_000_000, 1_000_001 * v, v);
    assert((1_000_001 * v) * v == 1_000_001 * ww) by (nonlinear_arith)
        requires
            ww == v * v,
    ;
    let wide: int = 1_000_000_000_000;
    assert((1_000_000 * 1_000_000) * shift == wide * shift);
    lemma_bounded_scaled(v, shift, 1, wide, v, 1_000_001 * ww);
    assert(v * (1_000_001 * ww) == 1_000_001 * six) by (nonlinear_arith)
        requires
            six == v * ww,
    ;
    let rest = v * shift;
    // what the determinant is
    let found = block_determinant(m);
    assert(found == m00 * c0 + m10 * c1 + m20 * c2);
    let (f0, f1, f2) = (m00 * c0, m10 * c1, m20 * c2);
    assert((unit * v) * f0 == a0 * g0) by (nonlinear_arith)
        requires
            f0 == m00 * c0,
            a0 == unit * m00,
            g0 == v * c0,
    ;
    assert((unit * v) * f1 == a1 * g1) by (nonlinear_arith)
        requires
            f1 == m10 * c1,
            a1 == unit * m10,
            g1 == v * c1,
    ;
    assert((unit * v) * f2 == a2 * g2) by (nonlinear_arith)
        requires
            f2 == m20 * c2,
            a2 == unit * m20,
            g2 == v * c2,
    ;
    assert((unit * v) * found == (unit * v) * f0 + (unit * v) * f1 + (unit * v) * f2)
        by (nonlinear_arith)
        requires
            found == f0 + f1 + f2,
    ;
    assert((unit * v) * cube == six && unit * v > 0 && six > 0) by (nonlinear_arith)
        requires
            cube == unit * v,
            v == unit * unit,
            ww == v * v,
            six == v * ww,
            unit > 0,
    ;
    let (off0, off1, off2) = (a0 * g0 - p00 * cp0, a1 * g1 - p10 * cp1, a2 * g2 - p20 * cp2);
    let total = (unit * v) * found - six;
    assert(total == off0 + off1 + off2 + 4 * rest);
    let m0: int = 91_880_233_888_173_369_344;
    let m1: int = 68_910_725_487_889_566_720;
    assert(m0 == 0x100_0000 * (101 * k0) + 0x1_0000_0000_0000 * (10_200 * 8) + 100 * (8 * k0));
    assert(m1 == 0x100_0000 * (101 * k1) + 0x1_0000_0000_0000 * (10_200 * 4) + 100 * (4 * k1));
    assert(-six <= 100_000 * total <= six) by (nonlinear_arith)
        requires
            total == off0 + off1 + off2 + 4 * rest,
            six > 0,
            m0 == 91_880_233_888_173_369_344,
            m1 == 68_910_725_487_889_566_720,
            -(m0 * six) <= 0x1_0000_0000_0000_0000_00 * (10_000 * off0) <= m0 * six,
            -(m1 * six) <= 0x1_0000_0000_0000_0000_00 * (10_000 * off1) <= m1 * six,
            -(m1 * six) <= 0x1_0000_0000_0000_0000_00 * (10_000 * off2) <= m1 * six,
            -(1_000_001 * six) <= 1_000_000_000_000 * rest <= 1_000_001 * six,
    ;
    let away = 100_000 * (found - cube);
    assert((unit * v) * away == 100_000 * total && (unit * v) * (-cube) == -six)
        by (nonlinear_arith)
        requires
            away == 100_000 * (found - cube),
            total == (unit * v) * found - six,
            (unit * v) * cube == six,
    ;
    lemma_cancel(unit * v, away, cube);
    lemma_cancel(unit * v, -cube, away);
}

} // verus!
