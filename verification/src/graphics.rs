//! The renderer: a frame of colours and depths, the depth test, and the
//! rasterization of triangles into the frame.

use vstd::prelude::*;
use vstd::arithmetic::power2::{lemma2_to64, lemma_pow2_adds, lemma_pow2_pos, pow2};
use vstd::math::{max, min};
use crate::camera::{CameraView, PerspectiveCamera};
use crate::math::{Vector2, Vector3};
use crate::scalar::{clamped, Scalar, FRACTIONS, ONE_BITS};
use crate::shaders::Shader;

verus! {

/// An opaque RGB colour, one byte per channel.
#[derive(Clone, Copy, Debug, PartialEq, Eq, Structural)]
pub struct Color(pub u8, pub u8, pub u8);

/// A channel at the given brightness: the whole part of their product, cut
/// off at the channel's range.
pub open spec fn channel_scaled(channel: u8, brightness: Scalar) -> u8 {
    clamped(Scalar::of_int(channel as int).product(brightness).whole(), 0, 255) as u8
}

impl Color {
    /// The colour at the given brightness, each channel cut off at its
    /// range.
    pub open spec fn scaled(self, brightness: Scalar) -> Color {
        Color(
            channel_scaled(self.0, brightness),
            channel_scaled(self.1, brightness),
            channel_scaled(self.2, brightness),
        )
    }

    /// The colour at the given brightness, each channel cut off at its
    /// range.
    pub fn times(&self, brightness: Scalar) -> (c: Color)
        ensures
            c == self.scaled(brightness),
    {
        Color(
            Scalar::from_usize(self.0 as usize).times(&brightness).to_u8(),
            Scalar::from_usize(self.1 as usize).times(&brightness).to_u8(),
            Scalar::from_usize(self.2 as usize).times(&brightness).to_u8(),
        )
    }
}

/// One sample of a triangle: a pixel position, the depth of the surface
/// there and the colour it would show.
#[derive(Clone, Copy, Debug, PartialEq, Eq, Structural)]
pub struct Fragment {
    pub x: i32,
    pub y: i32,
    pub depth: Scalar,
    pub color: Color,
}

/// The encoding of 0.99, the least sum of weights that still counts as
/// lying on the triangle.
pub const COVERAGE_FLOOR_BITS: u32 = 0x3F7D_70A4;

/// The floor is 0.99 as nearly as the encoding has it: a hundred times its
/// value differs from ninety-nine times one by less than half a step of the
/// encoding there.
pub proof fn lemma_coverage_floor_is_99_percent()
    ensures
        ({
            let floor = (Scalar { bits: COVERAGE_FLOOR_BITS }).scaled_value();
            let one = (Scalar { bits: ONE_BITS }).scaled_value();
            let step = pow2(125) as int;
            -50 * step < 100 * floor - 99 * one < 50 * step
        }),
{
    let unit = pow2(125);
    assert(pow2(24) == 0x100_0000) by {
        lemma2_to64();
    }
    lemma_pow2_adds(24, 125);
    Scalar::lemma_one_encodes_one();
    assert((Scalar { bits: COVERAGE_FLOOR_BITS }).magnitude() / (FRACTIONS as int) == 126);
    assert((Scalar { bits: COVERAGE_FLOOR_BITS }).magnitude() % (FRACTIONS as int) == 0x7D_70A4);
    assert((Scalar { bits: COVERAGE_FLOOR_BITS }).scaled_value() == (FRACTIONS + 0x7D_70A4) * unit);
    assert((Scalar { bits: ONE_BITS }).scaled_value() == 0x100_0000 * unit);
    assert(100 * ((FRACTIONS + 0x7D_70A4) * unit) - 99 * (0x100_0000 * unit) == 16 * unit)
        by (nonlinear_arith)
        requires
            FRACTIONS == 0x80_0000,
    ;
    lemma_pow2_pos(125);
}

/// The sum of the three weights, from the left.
pub open spec fn weight_sum(weights: Vector3) -> Scalar {
    weights.x.sum(weights.y).sum(weights.z)
}

/// Whether a point with the given barycentric weights lies on the
/// triangle: no weight is negative, and the weights' sum, which rounding
/// keeps from being exactly one, has not fallen under the floor.
pub open spec fn covers(weights: Vector3) -> bool {
    &&& weights.x.non_negative()
    &&& weights.y.non_negative()
    &&& weights.z.non_negative()
    &&& (Scalar { bits: COVERAGE_FLOOR_BITS }).num_le(weight_sum(weights))
}

/// Whether a point with the given barycentric weights lies on the triangle.
pub fn is_inside(weights: &Vector3) -> (r: bool)
    ensures
        r == covers(*weights),
{
    if !(weights.x.is_non_negative() && weights.y.is_non_negative()
        && weights.z.is_non_negative()) {
        return false;
    }
    let floor = Scalar::from_bits(COVERAGE_FLOOR_BITS);
    floor.le(&weights.x.plus(&weights.y).plus(&weights.z))
}

/// What the presentation surface reports between two frames.
#[derive(Clone, Copy, Debug, PartialEq, Eq, Structural)]
pub enum Event {
    /// The user asked to leave.
    Quit,
    /// The surface now has this width and height.
    Resized(u32, u32),
    /// Anything the renderer has no use for.
    Other,
}

/// An inclusive rectangle of pixels. It is empty when a lower bound lies
/// above its upper bound.
#[derive(Clone, Copy, Debug, PartialEq, Eq, Structural)]
pub struct PixelBox {
    pub min_x: i32,
    pub max_x: i32,
    pub min_y: i32,
    pub max_y: i32,
}

impl PixelBox {
    /// Whether pixel (x, y) lies in the box.
    pub open spec fn contains(self, x: int, y: int) -> bool {
        self.min_x <= x <= self.max_x && self.min_y <= y <= self.max_y
    }

    /// Whether no pixel lies in the box.
    pub open spec fn empty(self) -> bool {
        self.min_x > self.max_x || self.min_y > self.max_y
    }

    /// Whether the box holds no pixel.
    pub fn is_empty(&self) -> (r: bool)
        ensures
            r == self.empty(),
    {
        self.min_x > self.max_x || self.min_y > self.max_y
    }
}

/// The least of three integers.
pub open spec fn least(a: int, b: int, c: int) -> int {
    if a <= b && a <= c {
        a
    } else if b <= c {
        b
    } else {
        c
    }
}

/// The greatest of three integers.
pub open spec fn greatest(a: int, b: int, c: int) -> int {
    if a >= b && a >= c {
        a
    } else if b >= c {
        b
    } else {
        c
    }
}

/// The state of a renderer as contracts see it: the viewport, and for each
/// pixel, row by row, the depth recorded and the colour shown.
///
/// A depth entry that is no positive number marks a pixel untouched since
/// the frame was cleared. Clearing writes bit pattern 0 there.
pub struct FrameView {
    pub width: nat,
    pub height: nat,
    pub clear_color: Color,
    pub running: bool,
    pub depth: Seq<Scalar>,
    pub colors: Seq<Color>,
}

impl FrameView {
    /// There is a depth and a colour for every pixel of the viewport.
    pub open spec fn wf(self) -> bool {
        &&& self.depth.len() == self.width * self.height
        &&& self.colors.len() == self.width * self.height
    }

    /// Whether nothing was written to pixel (x, y) since the frame was cleared.
    pub open spec fn untouched(self, x: int, y: int) -> bool {
        !self.depth[self.index(x, y)].positive()
    }

    /// Whether pixel (x, y) lies in the viewport.
    pub open spec fn in_bounds(self, x: int, y: int) -> bool {
        0 <= x < self.width && 0 <= y < self.height
    }

    /// Where pixel (x, y) lies in `depth` and `colors`.
    pub open spec fn index(self, x: int, y: int) -> int {
        y * self.width + x
    }

    /// A running renderer of the given size whose frame was just cleared.
    pub open spec fn blank(width: nat, height: nat, clear_color: Color) -> FrameView {
        FrameView {
            width,
            height,
            clear_color,
            running: true,
            depth: Seq::new(width * height, |i: int| Scalar { bits: 0 }),
            colors: Seq::new(width * height, |i: int| clear_color),
        }
    }

    /// The same renderer at the start of a frame: every pixel untouched and
    /// showing the clear colour.
    pub open spec fn cleared(self) -> FrameView {
        FrameView {
            running: self.running,
            ..Self::blank(self.width, self.height, self.clear_color)
        }
    }

    /// The same renderer on a surface of another size, at the start of a frame.
    pub open spec fn resized(self, width: nat, height: nat) -> FrameView {
        FrameView { running: self.running, ..Self::blank(width, height, self.clear_color) }
    }

    /// Whether the fragment passes: it lies in the viewport, its depth is a
    /// positive number, and its pixel is untouched or shows something farther.
    pub open spec fn accepts(self, f: Fragment) -> bool {
        &&& self.in_bounds(f.x as int, f.y as int)
        &&& f.depth.positive()
        &&& (self.untouched(f.x as int, f.y as int) || f.depth.num_lt(
            self.depth[self.index(f.x as int, f.y as int)],
        ))
    }

    /// The frame after the fragment was offered: written where it passes,
    /// unchanged where it does not.
    pub open spec fn plotted(self, f: Fragment) -> FrameView {
        if self.accepts(f) {
            FrameView {
                depth: self.depth.update(self.index(f.x as int, f.y as int), f.depth),
                colors: self.colors.update(self.index(f.x as int, f.y as int), f.color),
                ..self
            }
        } else {
            self
        }
    }

    /// How many of the fragments are written when they are offered one by
    /// one, first to last.
    pub open spec fn writes(self, fragments: Seq<Fragment>) -> nat
        decreases fragments.len(),
    {
        if fragments.len() == 0 {
            0
        } else if self.drawn(fragments.drop_last()).accepts(fragments.last()) {
            self.writes(fragments.drop_last()) + 1
        } else {
            self.writes(fragments.drop_last())
        }
    }

    /// The frame after the fragments were offered one by one, first to last.
    pub open spec fn drawn(self, fragments: Seq<Fragment>) -> FrameView
        decreases fragments.len(),
    {
        if fragments.len() == 0 {
            self
        } else {
            self.drawn(fragments.drop_last()).plotted(fragments.last())
        }
    }
}

/// The pixel on which a screen coordinate falls: its whole part.
pub open spec fn pixel_of(coordinate: Scalar) -> int {
    clamped(coordinate.whole(), i32::MIN as int, i32::MAX as int)
}

/// A triangle on the screen: for each corner where it lies, in pixels, and
/// how deep; and for each corner its texture coordinate.
pub struct Triangle {
    pub a: Vector3,
    pub b: Vector3,
    pub c: Vector3,
    pub uva: Vector2,
    pub uvb: Vector2,
    pub uvc: Vector2,
}

/// The edge from one corner of a triangle on the screen to another.
pub open spec fn edge(from: Vector3, to: Vector3) -> Vector2 {
    Vector2 { x: to.x.difference(from.x), y: to.y.difference(from.y) }
}

/// The determinant of a triangle on the screen: the cross product of its
/// edges from corner a, which is twice its signed area.
pub open spec fn determinant(a: Vector3, b: Vector3, c: Vector3) -> Scalar {
    edge(a, b).x.product(edge(a, c).y).difference(edge(a, c).x.product(edge(a, b).y))
}

/// The barycentric weights of the point (px, py) in the triangle with
/// corners a, b and c on the screen; all zero where the triangle has no
/// area.
pub open spec fn barycentric(a: Vector3, b: Vector3, c: Vector3, px: Scalar, py: Scalar)
    -> Vector3 {
    let dca = edge(a, c);
    let dpa = Vector2 { x: px.difference(a.x), y: py.difference(a.y) };
    let dba = edge(a, b);
    let det = determinant(a, b, c);
    if det.magnitude() == 0 {
        Vector3::zero()
    } else {
        let deti = (Scalar { bits: ONE_BITS }).quotient(det);
        let v = dpa.x.product(dca.y).difference(dpa.y.product(dca.x)).product(deti);
        let w = dpa.y.product(dba.x).difference(dpa.x.product(dba.y)).product(deti);
        Vector3 { x: (Scalar { bits: ONE_BITS }).difference(v).difference(w), y: v, z: w }
    }
}

/// Whether a triangle on the screen is in condition for its weights: the
/// coordinates of corner a, the edges from it and the products of their
/// components are finite; it has an area; and one over its determinant is
/// finite with a full fraction.
pub open spec fn in_condition(a: Vector3, b: Vector3, c: Vector3) -> bool {
    let dca = edge(a, c);
    let dba = edge(a, b);
    &&& a.x.finite() && a.y.finite()
    &&& dca.x.finite() && dca.y.finite() && dba.x.finite() && dba.y.finite()
    &&& dba.x.product(dca.y).finite() && dca.x.product(dba.y).finite()
    &&& dba.x.product(dba.y).finite() && dca.x.product(dca.y).finite()
    &&& determinant(a, b, c).finite() && determinant(a, b, c).magnitude() != 0
    &&& (Scalar { bits: ONE_BITS }).quotient(determinant(a, b, c)).normal()
}

/// A triangle on the screen is in condition for its weights wherever its
/// corners lie within 2 to the 60th pixels of the origin each way, and its
/// determinant is a number with a full fraction.
pub proof fn lemma_moderate_triangle_is_in_condition(a: Vector3, b: Vector3, c: Vector3)
    requires
        a.x.within(60) && a.y.within(60),
        b.x.within(60) && b.y.within(60),
        c.x.within(60) && c.y.within(60),
        determinant(a, b, c).normal(),
    ensures
        in_condition(a, b, c),
{
    let dca = edge(a, c);
    let dba = edge(a, b);
    c.x.lemma_sum_is_within(a.x, 60);
    c.y.lemma_sum_is_within(a.y, 60);
    b.x.lemma_sum_is_within(a.x, 60);
    b.y.lemma_sum_is_within(a.y, 60);
    dba.x.lemma_product_is_within(dca.y, 61, 61);
    dca.x.lemma_product_is_within(dba.y, 61, 61);
    dba.x.lemma_product_is_within(dba.y, 61, 61);
    dca.x.lemma_product_is_within(dca.y, 61, 61);
    dba.x.product(dca.y).lemma_sum_is_within(dca.x.product(dba.y), 122);
    determinant(a, b, c).lemma_reciprocal_is_normal(123);
}

/// The weights at a triangle's own corners. At corner a they are one,
/// zero and zero to the bit. At corner b they are zero, one and zero, and
/// at corner c zero, zero and one, each within 2 to the -23rd: the weight
/// of the corner is one or a neighbour of one in the encoding, the weight
/// of corner a is less than a step from zero, and the third is zero.
pub proof fn lemma_weights_at_the_corners(a: Vector3, b: Vector3, c: Vector3)
    requires
        in_condition(a, b, c),
    ensures
        barycentric(a, b, c, a.x, a.y).x == (Scalar { bits: ONE_BITS }),
        barycentric(a, b, c, a.x, a.y).y.magnitude() == 0,
        barycentric(a, b, c, a.x, a.y).z.magnitude() == 0,
        barycentric(a, b, c, b.x, b.y).x.beside_zero(),
        barycentric(a, b, c, b.x, b.y).y.beside_one(),
        barycentric(a, b, c, b.x, b.y).z.magnitude() == 0,
        barycentric(a, b, c, c.x, c.y).x.beside_zero(),
        barycentric(a, b, c, c.x, c.y).y.magnitude() == 0,
        barycentric(a, b, c, c.x, c.y).z.beside_one(),
{
    let one = Scalar { bits: ONE_BITS };
    let zero = Scalar { bits: 0 };
    let dca = edge(a, c);
    let dba = edge(a, b);
    let det = determinant(a, b, c);
    let deti = one.quotient(det);
    det.lemma_times_reciprocal();
    // at corner a
    a.x.lemma_difference_of_self();
    a.y.lemma_difference_of_self();
    zero.lemma_zero_times(dca.y);
    zero.lemma_zero_times(dca.x);
    zero.lemma_zero_times(dba.x);
    zero.lemma_zero_times(dba.y);
    zero.product(dca.y).lemma_minus_zero(zero.product(dca.x));
    zero.product(dba.x).lemma_minus_zero(zero.product(dba.y));
    zero.product(dca.y).difference(zero.product(dca.x)).lemma_zero_times(deti);
    zero.product(dba.x).difference(zero.product(dba.y)).lemma_zero_times(deti);
    let va = zero.product(dca.y).difference(zero.product(dca.x)).product(deti);
    let wa = zero.product(dba.x).difference(zero.product(dba.y)).product(deti);
    one.lemma_minus_zero(va);
    one.lemma_minus_zero(wa);
    // at corner b the point's edge is the edge to b
    dba.y.lemma_product_commutes(dca.x);
    dba.y.lemma_product_commutes(dba.x);
    let vb = det.product(deti);
    assert(dba.x.product(dca.y).difference(dba.y.product(dca.x)) == det);
    dba.x.product(dba.y).lemma_difference_of_self();
    zero.lemma_zero_times(deti);
    let wb = zero.product(deti);
    vb.lemma_one_minus_beside_one();
    one.difference(vb).lemma_minus_zero(wb);
    // at corner c the point's edge is the edge to c
    dca.y.lemma_product_commutes(dba.x);
    dca.y.lemma_product_commutes(dca.x);
    dca.x.product(dca.y).lemma_difference_of_self();
    assert(dca.y.product(dba.x).difference(dca.x.product(dba.y)) == det);
    let vc = zero.product(deti);
    one.lemma_minus_zero(vc);
    vb.lemma_one_minus_beside_one();
}

/// Whether a number differs from one by no more than one part in `parts`.
pub open spec fn near_one(number: Scalar, parts: int) -> bool {
    &&& number.finite()
    &&& -pow2(149) <= parts * (number.scaled_value() - pow2(149)) <= pow2(149)
}

/// Weights that are derived afresh sum to one. Of three weights the first
/// is one less the second less the third. Where the second and the third
/// are no greater in size than two, as they are all over a triangle and
/// well beyond it, the sum of the three differs from one by no more than
/// one part in a million.
pub proof fn lemma_weights_sum_to_one(v: Scalar, w: Scalar)
    requires
        v.within(1),
        w.within(1),
    ensures
        near_one(
            weight_sum(
                Vector3 { x: (Scalar { bits: ONE_BITS }).difference(v).difference(w), y: v, z: w },
            ),
            1_000_000,
        ),
{
    let one = Scalar { bits: ONE_BITS };
    let back_v = v.negation();
    let back_w = w.negation();
    let first = one.sum(back_v);
    let x = first.sum(back_w);
    let partial = x.sum(v);
    let total = partial.sum(w);
    Scalar::lemma_one_encodes_one();
    v.lemma_negation_turns(1);
    w.lemma_negation_turns(1);
    assert(one.within(1));
    one.lemma_sum_is_within(back_v, 1);
    first.lemma_within_bounds(2);
    back_v.lemma_within_bounds(1);
    one.lemma_within_bounds(1);
    one.lemma_sum_is_near(back_v);
    back_w.lemma_within_grows(1, 2);
    first.lemma_sum_is_within(back_w, 2);
    back_w.lemma_within_bounds(1);
    x.lemma_within_bounds(3);
    first.lemma_sum_is_near(back_w);
    v.lemma_within_grows(1, 3);
    x.lemma_sum_is_within(v, 3);
    v.lemma_within_bounds(1);
    partial.lemma_within_bounds(4);
    x.lemma_sum_is_near(v);
    w.lemma_within_grows(1, 4);
    partial.lemma_sum_is_within(w, 4);
    w.lemma_within_bounds(1);
    total.lemma_within_bounds(5);
    partial.lemma_sum_is_near(w);
    vstd::arithmetic::power2::lemma_pow2_unfold(150);
    vstd::arithmetic::power2::lemma_pow2_unfold(151);
    vstd::arithmetic::power2::lemma_pow2_unfold(152);
    vstd::arithmetic::power2::lemma_pow2_unfold(153);
    vstd::arithmetic::power2::lemma_pow2_unfold(154);
    lemma_pow2_pos(149);
}

/// Weights that are derived afresh sum to one well beyond the triangle
/// too: where the second and the third are no greater in size than 32, the
/// sum of the three differs from one by no more than one part in a hundred
/// thousand.
pub proof fn lemma_wide_weights_sum_to_one(v: Scalar, w: Scalar)
    requires
        v.within(5),
        w.within(5),
    ensures
        near_one(
            weight_sum(
                Vector3 { x: (Scalar { bits: ONE_BITS }).difference(v).difference(w), y: v, z: w },
            ),
            100_000,
        ),
{
    let one = Scalar { bits: ONE_BITS };
    let back_v = v.negation();
    let back_w = w.negation();
    let first = one.sum(back_v);
    let x = first.sum(back_w);
    let partial = x.sum(v);
    let total = partial.sum(w);
    Scalar::lemma_one_encodes_one();
    v.lemma_negation_turns(5);
    w.lemma_negation_turns(5);
    assert(one.within(5));
    one.lemma_sum_is_within(back_v, 5);
    first.lemma_within_bounds(6);
    back_v.lemma_within_bounds(5);
    one.lemma_sum_is_near(back_v);
    back_w.lemma_within_grows(5, 6);
    first.lemma_sum_is_within(back_w, 6);
    back_w.lemma_within_bounds(5);
    x.lemma_within_bounds(7);
    first.lemma_sum_is_near(back_w);
    v.lemma_within_grows(5, 7);
    x.lemma_sum_is_within(v, 7);
    v.lemma_within_bounds(5);
    partial.lemma_within_bounds(8);
    x.lemma_sum_is_near(v);
    w.lemma_within_grows(5, 8);
    partial.lemma_sum_is_within(w, 8);
    w.lemma_within_bounds(5);
    total.lemma_within_bounds(9);
    partial.lemma_sum_is_near(w);
    vstd::arithmetic::power2::lemma_pow2_unfold(150);
    vstd::arithmetic::power2::lemma_pow2_unfold(151);
    vstd::arithmetic::power2::lemma_pow2_unfold(152);
    vstd::arithmetic::power2::lemma_pow2_unfold(153);
    vstd::arithmetic::power2::lemma_pow2_unfold(154);
    vstd::arithmetic::power2::lemma_pow2_unfold(155);
    vstd::arithmetic::power2::lemma_pow2_unfold(156);
    vstd::arithmetic::power2::lemma_pow2_unfold(157);
    vstd::arithmetic::power2::lemma_pow2_unfold(158);
    lemma_pow2_pos(149);
}

/// At any point the weights that `barycentric` gives sum to one within one
/// part in a hundred thousand, where the triangle has an area and the
/// weights of corners b and c at the point are no greater in size than 32;
/// and within one part in a million, where they are no greater than two.
pub proof fn lemma_fresh_weights_sum_to_one(
    a: Vector3,
    b: Vector3,
    c: Vector3,
    px: Scalar,
    py: Scalar,
)
    requires
        determinant(a, b, c).magnitude() != 0,
        barycentric(a, b, c, px, py).y.within(5),
        barycentric(a, b, c, px, py).z.within(5),
    ensures
        near_one(weight_sum(barycentric(a, b, c, px, py)), 100_000),
        barycentric(a, b, c, px, py).y.within(1) && barycentric(a, b, c, px, py).z.within(1)
            ==> near_one(weight_sum(barycentric(a, b, c, px, py)), 1_000_000),
{
    let weights = barycentric(a, b, c, px, py);
    lemma_wide_weights_sum_to_one(weights.y, weights.z);
    if weights.y.within(1) && weights.z.within(1) {
        lemma_weights_sum_to_one(weights.y, weights.z);
    }
}

/// A vector after `k` steps of `delta`, one addition each.
pub open spec fn stepped(start: Vector3, delta: Vector3, k: nat) -> Vector3
    decreases k,
{
    if k == 0 {
        start
    } else {
        stepped(start, delta, (k - 1) as nat).sum(delta)
    }
}

/// Whether none of the three parts of a vector is greater in size than
/// two.
pub open spec fn moderate(v: Vector3) -> bool {
    v.x.within(1) && v.y.within(1) && v.z.within(1)
}

/// Whether a vector stays moderate over `k` steps of `delta`.
pub open spec fn steady(start: Vector3, delta: Vector3, k: nat) -> bool {
    forall|j: nat| j <= k ==> moderate(#[trigger] stepped(start, delta, j))
}

/// The exact sum of the three parts of a vector, in units of the least
/// positive number.
pub open spec fn exact_total(v: Vector3) -> int {
    v.x.scaled_value() + v.y.scaled_value() + v.z.scaled_value()
}

// A sum that is no greater in size than 2 to the power of `q` differs from
// the exact sum by no more than that power over 2^24; so does a difference.
proof fn lemma_sum_is_close(a: Scalar, b: Scalar, q: int)
    requires
        -126 <= q <= 127,
        a.finite(),
        b.finite(),
    ensures
        a.sum(b).within(q) ==> -pow2((q + 149) as nat) <= 0x100_0000 * (a.sum(b).scaled_value() - (
            a.scaled_value() + b.scaled_value())) <= pow2((q + 149) as nat),
        a.difference(b).within(q) ==> -pow2((q + 149) as nat) <= 0x100_0000 * (a.difference(
            b,
        ).scaled_value() - (a.scaled_value() - b.scaled_value())) <= pow2((q + 149) as nat),
{
    b.lemma_negation_turns(q);
    if a.sum(b).within(q) {
        a.sum(b).lemma_within_bounds(q);
        a.lemma_sum_is_near(b);
    }
    if a.difference(b).within(q) {
        a.difference(b).lemma_within_bounds(q);
        a.lemma_sum_is_near(b.negation());
    }
}

// One step changes the exact sum of a vector's parts by that of the step,
// but for the rounding of its three additions.
proof fn lemma_step_keeps_total(at: Vector3, delta: Vector3)
    requires
        moderate(at),
        moderate(at.sum(delta)),
        delta.x.finite() && delta.y.finite() && delta.z.finite(),
    ensures
        -3 * pow2(150) <= 0x100_0000 * (exact_total(at.sum(delta)) - exact_total(at) - exact_total(
            delta,
        )) <= 3 * pow2(150),
{
    at.x.lemma_within_bounds(1);
    at.y.lemma_within_bounds(1);
    at.z.lemma_within_bounds(1);
    lemma_sum_is_close(at.x, delta.x, 1);
    lemma_sum_is_close(at.y, delta.y, 1);
    lemma_sum_is_close(at.z, delta.z, 1);
}

// After `k` steps the exact sum of a vector's parts has changed by `k`
// times that of the step, but for the rounding of the additions.
proof fn lemma_steps_keep_total(start: Vector3, delta: Vector3, k: nat)
    requires
        steady(start, delta, k),
        delta.x.finite() && delta.y.finite() && delta.z.finite(),
    ensures
        -3 * k * pow2(150) <= 0x100_0000 * (exact_total(stepped(start, delta, k)) - exact_total(
            start,
        ) - k * exact_total(delta)) <= 3 * k * pow2(150),
    decreases k,
{
    let drift = exact_total(delta);
    let unit = pow2(150) as int;
    if k > 0 {
        let before = stepped(start, delta, (k - 1) as nat);
        assert(steady(start, delta, (k - 1) as nat)) by {
            assert forall|j: nat| j <= k - 1 implies moderate(#[trigger] stepped(start, delta, j)) by {
                assert(j <= k);
            }
        }
        lemma_steps_keep_total(start, delta, (k - 1) as nat);
        assert(moderate(stepped(start, delta, (k - 1) as nat)));
        assert(moderate(stepped(start, delta, k)));
        lemma_step_keeps_total(before, delta);
        assert(stepped(start, delta, k) == before.sum(delta));
        assert(k * drift == (k - 1) * drift + drift) by (nonlinear_arith);
        assert(3 * k * unit == 3 * (k - 1) * unit + 3 * unit) by (nonlinear_arith);
        assert(-3 * k * unit == -3 * (k - 1) * unit - 3 * unit) by (nonlinear_arith);
    } else {
        assert(k * drift == 0) by (nonlinear_arith)
            requires
                k == 0,
        ;
        assert(3 * k * unit == 0 && -3 * k * unit == 0) by (nonlinear_arith)
            requires
                k == 0,
        ;
    }
}

// The exact sum of fresh weights that are moderate is one, but for the
// rounding of two subtractions.
proof fn lemma_fresh_total(v: Scalar, w: Scalar)
    requires
        v.within(1),
        w.within(1),
        (Scalar { bits: ONE_BITS }).difference(v).difference(w).within(1),
    ensures
        -3 * pow2(150) <= 0x100_0000 * (exact_total(
            Vector3 { x: (Scalar { bits: ONE_BITS }).difference(v).difference(w), y: v, z: w },
        ) - pow2(149)) <= 3 * pow2(150),
{
    let one = Scalar { bits: ONE_BITS };
    Scalar::lemma_one_encodes_one();
    v.lemma_negation_turns(1);
    assert(one.within(1));
    one.lemma_sum_is_within(v.negation(), 1);
    let first = one.difference(v);
    first.lemma_within_bounds(2);
    v.lemma_within_bounds(1);
    w.lemma_within_bounds(1);
    one.lemma_within_bounds(1);
    lemma_sum_is_close(one, v, 2);
    lemma_sum_is_close(first, w, 1);
    vstd::arithmetic::power2::lemma_pow2_unfold(150);
    vstd::arithmetic::power2::lemma_pow2_unfold(151);
    lemma_pow2_pos(149);
}

// The step between fresh weights at two points, both moderate, sums to
// nothing exactly, but for the rounding behind it.
proof fn lemma_delta_total(a: Vector3, b: Vector3, c: Vector3, px: Scalar, py: Scalar, qx: Scalar, qy: Scalar)
    requires
        determinant(a, b, c).magnitude() != 0,
        moderate(barycentric(a, b, c, px, py)),
        moderate(barycentric(a, b, c, qx, qy)),
    ensures
        ({
            let delta = barycentric(a, b, c, qx, qy).difference(barycentric(a, b, c, px, py));
            &&& delta.x.within(2) && delta.y.within(2) && delta.z.within(2)
            &&& -12 * pow2(150) <= 0x100_0000 * exact_total(delta) <= 12 * pow2(150)
        }),
{
    let from = barycentric(a, b, c, px, py);
    let to = barycentric(a, b, c, qx, qy);
    lemma_fresh_total(from.y, from.z);
    lemma_fresh_total(to.y, to.z);
    from.x.lemma_negation_turns(1);
    from.y.lemma_negation_turns(1);
    from.z.lemma_negation_turns(1);
    to.x.lemma_sum_is_within(from.x.negation(), 1);
    to.y.lemma_sum_is_within(from.y.negation(), 1);
    to.z.lemma_sum_is_within(from.z.negation(), 1);
    from.x.lemma_within_bounds(1);
    from.y.lemma_within_bounds(1);
    from.z.lemma_within_bounds(1);
    to.x.lemma_within_bounds(1);
    to.y.lemma_within_bounds(1);
    to.z.lemma_within_bounds(1);
    lemma_sum_is_close(to.x, from.x, 2);
    lemma_sum_is_close(to.y, from.y, 2);
    lemma_sum_is_close(to.z, from.z, 2);
    vstd::arithmetic::power2::lemma_pow2_unfold(150);
    vstd::arithmetic::power2::lemma_pow2_unfold(151);
    lemma_pow2_pos(149);
}

// The sum of a moderate vector's parts, as it is computed, is their exact
// sum but for the rounding of two additions.
proof fn lemma_weight_sum_is_close(v: Vector3)
    requires
        moderate(v),
    ensures
        weight_sum(v).finite(),
        -3 * pow2(151) <= 0x100_0000 * (weight_sum(v).scaled_value() - exact_total(v)) <= 3 * pow2(
            151,
        ),
{
    v.x.lemma_sum_is_within(v.y, 1);
    let partial = v.x.sum(v.y);
    v.z.lemma_within_grows(1, 2);
    partial.lemma_sum_is_within(v.z, 2);
    v.x.lemma_within_bounds(1);
    v.y.lemma_within_bounds(1);
    v.z.lemma_within_bounds(1);
    lemma_sum_is_close(v.x, v.y, 2);
    lemma_sum_is_close(partial, v.z, 3);
    vstd::arithmetic::power2::lemma_pow2_unfold(151);
    vstd::arithmetic::power2::lemma_pow2_unfold(152);
    lemma_pow2_pos(149);
}

impl PixelBox {
    /// The number of columns of the box.
    pub open spec fn columns(self) -> nat {
        if self.empty() {
            0
        } else {
            (self.max_x - self.min_x + 1) as nat
        }
    }

    /// The number of rows of the box.
    pub open spec fn rows(self) -> nat {
        if self.empty() {
            0
        } else {
            (self.max_y - self.min_y + 1) as nat
        }
    }
}

impl Triangle {
    /// The weights at the top left pixel of the box.
    pub open spec fn top_left(self, bounds: PixelBox) -> Vector3 {
        barycentric(
            self.a,
            self.b,
            self.c,
            Scalar::of_int(bounds.min_x as int),
            Scalar::of_int(bounds.min_y as int),
        )
    }

    /// What a step to the right adds to the weights: the difference
    /// between the weights one pixel right of the top left pixel and at it.
    pub open spec fn delta_x(self, bounds: PixelBox) -> Vector3 {
        barycentric(
            self.a,
            self.b,
            self.c,
            Scalar::of_int(bounds.min_x + 1),
            Scalar::of_int(bounds.min_y as int),
        ).difference(self.top_left(bounds))
    }

    /// What a step down adds to the weights.
    pub open spec fn delta_y(self, bounds: PixelBox) -> Vector3 {
        barycentric(
            self.a,
            self.b,
            self.c,
            Scalar::of_int(bounds.min_x as int),
            Scalar::of_int(bounds.min_y + 1),
        ).difference(self.top_left(bounds))
    }

    /// The weights at the pixel in the given column and row of the box, as
    /// the scan derives them: from the top left pixel so many steps down,
    /// then so many steps to the right.
    pub open spec fn weights_at(self, bounds: PixelBox, col: nat, row: nat) -> Vector3 {
        stepped(
            stepped(self.top_left(bounds), self.delta_y(bounds), row),
            self.delta_x(bounds),
            col,
        )
    }

    /// Whether the weights stay moderate on the scan's way to the pixel in
    /// the given column and row of the box: those derived afresh at the
    /// top left pixel, one pixel to its right and one pixel below it, and
    /// those after every step down and then to the right.
    pub open spec fn steady_to(self, bounds: PixelBox, col: nat, row: nat) -> bool {
        let start = self.top_left(bounds);
        let turn = stepped(start, self.delta_y(bounds), row);
        &&& moderate(
            barycentric(
                self.a,
                self.b,
                self.c,
                Scalar::of_int(bounds.min_x + 1),
                Scalar::of_int(bounds.min_y as int),
            ),
        )
        &&& moderate(
            barycentric(
                self.a,
                self.b,
                self.c,
                Scalar::of_int(bounds.min_x as int),
                Scalar::of_int(bounds.min_y + 1),
            ),
        )
        &&& steady(start, self.delta_y(bounds), row)
        &&& steady(turn, self.delta_x(bounds), col)
    }

    /// The depth at a point with the given weights: the corners' depths,
    /// each times its weight, summed from the left.
    pub open spec fn depth_at(self, weights: Vector3) -> Scalar {
        weights.x.product(self.a.z).sum(weights.y.product(self.b.z)).sum(
            weights.z.product(self.c.z),
        )
    }

    /// The fragment of the triangle at the pixel in the given column and
    /// row of the box, if the pixel lies on the triangle.
    pub open spec fn fragment_at(
        self,
        shader: Shader,
        brightness: Scalar,
        bounds: PixelBox,
        col: nat,
        row: nat,
    ) -> Option<Fragment> {
        let weights = self.weights_at(bounds, col, row);
        if covers(weights) {
            Some(
                Fragment {
                    x: (bounds.min_x + col) as i32,
                    y: (bounds.min_y + row) as i32,
                    depth: self.depth_at(weights),
                    color: shader.color_at(weights, self.uva, self.uvb, self.uvc).scaled(
                        brightness,
                    ),
                },
            )
        } else {
            None
        }
    }

    /// The fragments of the first `cols` pixels of a row of the box, from
    /// the left.
    pub open spec fn row_fragments(
        self,
        shader: Shader,
        brightness: Scalar,
        bounds: PixelBox,
        row: nat,
        cols: nat,
    ) -> Seq<Fragment>
        decreases cols,
    {
        if cols == 0 {
            Seq::empty()
        } else {
            let before = self.row_fragments(shader, brightness, bounds, row, (cols - 1) as nat);
            match self.fragment_at(shader, brightness, bounds, (cols - 1) as nat, row) {
                Some(f) => before.push(f),
                None => before,
            }
        }
    }

    /// The fragments of the first `rows` rows of the box, row by row from
    /// the top.
    pub open spec fn box_fragments(
        self,
        shader: Shader,
        brightness: Scalar,
        bounds: PixelBox,
        rows: nat,
    ) -> Seq<Fragment>
        decreases rows,
    {
        if rows == 0 {
            Seq::empty()
        } else {
            self.box_fragments(shader, brightness, bounds, (rows - 1) as nat) + self.row_fragments(
                shader,
                brightness,
                bounds,
                (rows - 1) as nat,
                bounds.columns(),
            )
        }
    }

    /// The fragments of the triangle in a box, in the order of the scan.
    pub open spec fn fragments(self, shader: Shader, brightness: Scalar, bounds: PixelBox) -> Seq<
        Fragment,
    > {
        self.box_fragments(shader, brightness, bounds, bounds.rows())
    }
}

impl FrameView {
    /// The part of the viewport that a triangle with the given corners can
    /// cover: the extent of the pixels on which the corners fall, cut down
    /// to the viewport.
    pub open spec fn bounds_of(self, a: Vector3, b: Vector3, c: Vector3) -> PixelBox {
        PixelBox {
            min_x: max(0, least(pixel_of(a.x), pixel_of(b.x), pixel_of(c.x))) as i32,
            max_x: min(self.width - 1, greatest(pixel_of(a.x), pixel_of(b.x), pixel_of(c.x)))
                as i32,
            min_y: max(0, least(pixel_of(a.y), pixel_of(b.y), pixel_of(c.y))) as i32,
            max_y: min(self.height - 1, greatest(pixel_of(a.y), pixel_of(b.y), pixel_of(c.y)))
                as i32,
        }
    }

    /// The frame after a triangle was drawn.
    pub open spec fn with_triangle(self, triangle: Triangle, shader: Shader, brightness: Scalar)
        -> FrameView {
        self.drawn(
            triangle.fragments(
                shader,
                brightness,
                self.bounds_of(triangle.a, triangle.b, triangle.c),
            ),
        )
    }

    /// Offering one sequence of fragments after another is offering them
    /// in one sequence.
    pub proof fn lemma_drawn_joins(self, first: Seq<Fragment>, second: Seq<Fragment>)
        ensures
            self.drawn(first + second) == self.drawn(first).drawn(second),
        decreases second.len(),
    {
        if second.len() == 0 {
            assert(first + second =~= first);
        } else {
            self.lemma_drawn_joins(first, second.drop_last());
            assert((first + second).drop_last() =~= first + second.drop_last());
            assert((first + second).last() == second.last());
        }
    }
}

/// Whether a quit event is among the events.
pub open spec fn has_quit(events: Seq<Event>) -> bool {
    exists|i: int| 0 <= i < events.len() && events[i] == Event::Quit
}

/// Whether the pixels of a surface of this size can be indexed.
pub open spec fn fits(width: u32, height: u32) -> bool {
    width * height <= usize::MAX
}

/// The size that the last resize event among the events reports. A resize
/// to a surface whose pixels cannot be indexed does not count.
pub open spec fn last_resize(events: Seq<Event>) -> Option<(u32, u32)>
    decreases events.len(),
{
    if events.len() == 0 {
        None
    } else {
        match events.last() {
            Event::Resized(w, h) => if fits(w, h) {
                Some((w, h))
            } else {
                last_resize(events.drop_last())
            },
            _ => last_resize(events.drop_last()),
        }
    }
}

/// Whether the pixels of a surface of this size can be indexed, which is
/// what a renderer for it needs.
pub fn addressable(width: u32, height: u32) -> (r: bool)
    ensures
        r == fits(width, height),
{
    assert(0 <= width * height <= 0xFFFF_FFFF * 0xFFFF_FFFF) by (nonlinear_arith)
        requires
            0 <= width <= 0xFFFF_FFFF,
            0 <= height <= 0xFFFF_FFFF,
    ;
    (width as u128) * (height as u128) <= usize::MAX as u128
}

proof fn lemma_index_in_range(x: int, y: int, width: int, height: int)
    by (nonlinear_arith)
    requires
        0 <= x < width,
        0 <= y < height,
    ensures
        0 <= y * width + x < width * height,
        y * width >= 0,
{
}

/// The frame store of the rasterizer: a colour and a depth for every pixel
/// of the viewport, and whether the frame loop should go on.
pub struct Renderer {
    clear_color: Color,
    running: bool,
    width: u32,
    height: u32,
    depth_buffer: Vec<Scalar>,
    pixels: Vec<Color>,
}

impl View for Renderer {
    type V = FrameView;

    closed spec fn view(&self) -> FrameView {
        FrameView {
            width: self.width as nat,
            height: self.height as nat,
            clear_color: self.clear_color,
            running: self.running,
            depth: self.depth_buffer@,
            colors: self.pixels@,
        }
    }
}

impl Renderer {
    #[verifier::type_invariant]
    spec fn inv(&self) -> bool {
        self@.wf()
    }

    /// A running renderer for a surface of the given size, cleared to black.
    pub fn new(width: u32, height: u32) -> (r: Renderer)
        requires
            fits(width, height),
        ensures
            r@ == FrameView::blank(width as nat, height as nat, Color(0, 0, 0)),
            r@.wf(),
    {
        let clear_color = Color(0, 0, 0);
        assert(0 <= (width as int) * (height as int)) by (nonlinear_arith);
        let n: usize = (width as usize) * (height as usize);
        let depth_buffer: Vec<Scalar> = vec![Scalar { bits: 0 }; n];
        let pixels: Vec<Color> = vec![clear_color; n];
        assert(depth_buffer@ =~= Seq::new((width * height) as nat, |i: int| Scalar { bits: 0 }));
        assert(pixels@ =~= Seq::new((width * height) as nat, |i: int| clear_color));
        Renderer { clear_color, running: true, width, height, depth_buffer, pixels }
    }

    /// Whether the frame loop should go on.
    pub fn is_running(&self) -> (r: bool)
        ensures
            r == self@.running,
    {
        self.running
    }

    /// The width of the viewport, in pixels.
    pub fn width(&self) -> (w: u32)
        ensures
            w == self@.width,
            self@.wf(),
    {
        proof {
            use_type_invariant(self);
        }
        self.width
    }

    /// The height of the viewport, in pixels.
    pub fn height(&self) -> (h: u32)
        ensures
            h == self@.height,
            self@.wf(),
    {
        proof {
            use_type_invariant(self);
        }
        self.height
    }

    /// Starts a frame: every pixel untouched and showing the clear colour.
    pub fn clear(&mut self)
        ensures
            final(self)@ == old(self)@.cleared(),
            final(self)@.wf(),
    {
        proof {
            use_type_invariant(&*self);
        }
        let n: usize = self.pixels.len();
        let depth_buffer: Vec<Scalar> = vec![Scalar { bits: 0 }; n];
        let pixels: Vec<Color> = vec![self.clear_color; n];
        assert(depth_buffer@ =~= old(self)@.cleared().depth);
        assert(pixels@ =~= old(self)@.cleared().colors);
        self.depth_buffer = depth_buffer;
        self.pixels = pixels;
    }

    /// The colour that `clear` fills the frame with.
    pub fn clear_color(&self) -> (c: Color)
        ensures
            c == self@.clear_color,
    {
        self.clear_color
    }

    /// Sets the colour that `clear` fills the frame with. The frame itself
    /// stays as it is until it is cleared.
    pub fn set_clear_color(&mut self, color: Color)
        ensures
            final(self)@ == (FrameView { clear_color: color, ..old(self)@ }),
            final(self)@.wf(),
    {
        proof {
            use_type_invariant(&*self);
        }
        self.clear_color = color;
    }

    /// Moves the renderer to a surface of another size and starts a frame
    /// there.
    pub fn resize(&mut self, width: u32, height: u32)
        requires
            fits(width, height),
        ensures
            final(self)@ == old(self)@.resized(width as nat, height as nat),
            final(self)@.wf(),
    {
        let mut next = Renderer::new(width, height);
        next.clear_color = self.clear_color;
        next.running = self.running;
        next.clear();
        *self = next;
    }

    /// Takes note of the events of one frame: the renderer stops running
    /// once a quit event is among them.
    pub fn update(&mut self, events: &[Event])
        ensures
            final(self)@ == (FrameView {
                running: old(self)@.running && !has_quit(events@),
                ..old(self)@
            }),
            final(self)@.wf(),
    {
        proof {
            use_type_invariant(&*self);
        }
        let mut i: usize = 0;
        while i < events.len()
            invariant
                i <= events.len(),
                self@ == (FrameView {
                    running: old(self)@.running && !has_quit(events@.take(i as int)),
                    ..old(self)@
                }),
                self@.wf(),
            decreases events.len() - i,
        {
            let ghost before = events@.take(i as int);
            let ghost after = events@.take(i + 1);
            assert(before =~= after.drop_last());
            assert(after.last() == events@[i as int]);
            match events[i] {
                Event::Quit => {
                    assert(after[i as int] == Event::Quit);
                    self.running = false;
                },
                _ => {
                    assert(has_quit(after) ==> has_quit(before)) by {
                        if has_quit(after) {
                            let j = choose|j: int| 0 <= j < after.len() && after[j] == Event::Quit;
                            assert(before[j] == Event::Quit);
                        }
                    }
                    assert(has_quit(before) ==> has_quit(after)) by {
                        if has_quit(before) {
                            let j = choose|j: int|
                                0 <= j < before.len() && before[j] == Event::Quit;
                            assert(after[j] == Event::Quit);
                        }
                    }
                },
            }
            i += 1;
        }
        assert(events@.take(events.len() as int) =~= events@);
    }

    /// Follows the surface through the resize events of one frame, and
    /// takes the camera along. Only the last of the events counts: the
    /// renderer starts a frame of its size, and the camera gets that size
    /// for its viewport. Without a resize event nothing changes.
    pub fn auto_resize(&mut self, events: &[Event], camera: &mut PerspectiveCamera) -> (size:
        Option<(u32, u32)>)
        ensures
            size == last_resize(events@),
            size matches Some((w, h)) ==> final(self)@ == old(self)@.resized(w as nat, h as nat)
                && final(camera)@ == (CameraView {
                size: Vector2 { x: Scalar::of_int(w as int), y: Scalar::of_int(h as int) },
                aspect: Scalar::of_int(w as int).quotient(Scalar::of_int(h as int)),
                ..old(camera)@
            }),
            size is None ==> final(self)@ == old(self)@ && final(camera)@ == old(camera)@,
            final(self)@.wf(),
    {
        proof {
            use_type_invariant(&*self);
        }
        let mut i: usize = events.len();
        assert(events@.take(i as int) =~= events@);
        while i > 0
            invariant
                i <= events.len(),
                last_resize(events@) == last_resize(events@.take(i as int)),
                self@ == old(self)@,
                camera@ == old(camera)@,
                self@.wf(),
            decreases i,
        {
            let ghost prefix = events@.take(i as int);
            assert(prefix.last() == events@[i - 1]);
            assert(prefix.drop_last() =~= events@.take(i - 1));
            match events[i - 1] {
                Event::Resized(w, h) => {
                    if addressable(w, h) {
                        self.resize(w, h);
                        camera.set_size(
                            Scalar::from_usize(w as usize),
                            Scalar::from_usize(h as usize),
                        );
                        return Some((w, h));
                    }
                },
                _ => {},
            }
            i -= 1;
        }
        None
    }

    /// The part of the viewport that a triangle with the given corners can
    /// cover: the extent of the pixels on which the corners fall, cut down
    /// to the viewport. A triangle that lies off the viewport gets an
    /// empty box.
    pub fn bounding_box(&self, a: &Vector3, b: &Vector3, c: &Vector3) -> (bounds: PixelBox)
        ensures
            bounds == self@.bounds_of(*a, *b, *c),
            forall|x: int, y: int| bounds.contains(x, y) ==> self@.in_bounds(x, y),
    {
        let (ax, ay) = (a.x.to_i32(), a.y.to_i32());
        let (bx, by) = (b.x.to_i32(), b.y.to_i32());
        let (cx, cy) = (c.x.to_i32(), c.y.to_i32());
        let min_x = clip_low(least_of(ax, bx, cx));
        let max_x = clip_high(greatest_of(ax, bx, cx), self.width);
        let min_y = clip_low(least_of(ay, by, cy));
        let max_y = clip_high(greatest_of(ay, by, cy), self.height);
        PixelBox { min_x, max_x, min_y, max_y }
    }

    /// The barycentric weights of the point (px, py) in the triangle with
    /// corners a, b and c on the screen; all zero where the triangle has
    /// no area.
    pub fn get_barycentric_coords(
        a: &Vector3,
        b: &Vector3,
        c: &Vector3,
        p_x: Scalar,
        p_y: Scalar,
    ) -> (weights: Vector3)
        ensures
            weights == barycentric(*a, *b, *c, p_x, p_y),
    {
        let dca = Vector2 { x: c.x.minus(&a.x), y: c.y.minus(&a.y) };
        let dpa = Vector2 { x: p_x.minus(&a.x), y: p_y.minus(&a.y) };
        let dba = Vector2 { x: b.x.minus(&a.x), y: b.y.minus(&a.y) };
        let det = dba.x.times(&dca.y).minus(&dca.x.times(&dba.y));
        if det.is_zero() {
            return Vector3 { x: Scalar::zero(), y: Scalar::zero(), z: Scalar::zero() };
        }
        let deti = Scalar::one().over(&det);
        let v = dpa.x.times(&dca.y).minus(&dpa.y.times(&dca.x)).times(&deti);
        let w = dpa.y.times(&dba.x).minus(&dpa.x.times(&dba.y)).times(&deti);
        Vector3 { x: Scalar::one().minus(&v).minus(&w), y: v, z: w }
    }

    /// Draws a triangle: scans the part of the viewport that it can cover,
    /// pixel by pixel, row by row; derives the barycentric weights of each
    /// pixel from those of the pixel before by one addition; and offers a
    /// fragment to the frame for every pixel on the triangle, with the
    /// depth blended from the corners' and the shader's colour at the
    /// given brightness.
    pub fn draw_triangle(
        &mut self,
        a: &Vector3,
        b: &Vector3,
        c: &Vector3,
        uva: &Vector2,
        uvb: &Vector2,
        uvc: &Vector2,
        shader: &Shader,
        brightness: Scalar,
    )
        ensures
            final(self)@ == old(self)@.with_triangle(
                Triangle { a: *a, b: *b, c: *c, uva: *uva, uvb: *uvb, uvc: *uvc },
                *shader,
                brightness,
            ),
            final(self)@.wf(),
    {
        proof {
            use_type_invariant(&*self);
        }
        let ghost triangle = Triangle { a: *a, b: *b, c: *c, uva: *uva, uvb: *uvb, uvc: *uvc };
        let bounds = self.bounding_box(a, b, c);
        if bounds.is_empty() {
            return;
        }
        let rows: u32 = (bounds.max_y as i64 - bounds.min_y as i64 + 1) as u32;
        let cols: u32 = (bounds.max_x as i64 - bounds.min_x as i64 + 1) as u32;
        // The weights at the top left, and what a step right or down adds.
        let left = Scalar::from_i64(bounds.min_x as i64);
        let top = Scalar::from_i64(bounds.min_y as i64);
        let top_left = Renderer::get_barycentric_coords(a, b, c, left, top);
        let delta_x = Renderer::get_barycentric_coords(
            a,
            b,
            c,
            Scalar::from_i64(bounds.min_x as i64 + 1),
            top,
        ).minus(&top_left);
        let delta_y = Renderer::get_barycentric_coords(
            a,
            b,
            c,
            left,
            Scalar::from_i64(bounds.min_y as i64 + 1),
        ).minus(&top_left);
        let mut coords_row = top_left;
        let mut row: u32 = 0;
        while row < rows
            invariant
                row <= rows,
                rows == bounds.rows(),
                cols == bounds.columns(),
                !bounds.empty(),
                bounds == old(self)@.bounds_of(*a, *b, *c),
                forall|x: int, y: int| bounds.contains(x, y) ==> old(self)@.in_bounds(x, y),
                triangle == (Triangle { a: *a, b: *b, c: *c, uva: *uva, uvb: *uvb, uvc: *uvc }),
                top_left == triangle.top_left(bounds),
                delta_x == triangle.delta_x(bounds),
                delta_y == triangle.delta_y(bounds),
                coords_row == stepped(top_left, delta_y, row as nat),
                self@ == old(self)@.drawn(
                    triangle.box_fragments(*shader, brightness, bounds, row as nat),
                ),
                self@.wf(),
            decreases rows - row,
        {
            let ghost above = triangle.box_fragments(*shader, brightness, bounds, row as nat);
            let mut coords = coords_row;
            let mut col: u32 = 0;
            proof {
                assert(above + Seq::<Fragment>::empty() =~= above);
            }
            while col < cols
                invariant
                    col <= cols,
                    row < rows,
                    rows == bounds.rows(),
                    cols == bounds.columns(),
                    !bounds.empty(),
                    triangle == (Triangle {
                        a: *a,
                        b: *b,
                        c: *c,
                        uva: *uva,
                        uvb: *uvb,
                        uvc: *uvc,
                    }),
                    top_left == triangle.top_left(bounds),
                    delta_x == triangle.delta_x(bounds),
                    delta_y == triangle.delta_y(bounds),
                    coords_row == stepped(top_left, delta_y, row as nat),
                    coords == stepped(coords_row, delta_x, col as nat),
                    above == triangle.box_fragments(*shader, brightness, bounds, row as nat),
                    self@ == old(self)@.drawn(
                        above + triangle.row_fragments(
                            *shader,
                            brightness,
                            bounds,
                            row as nat,
                            col as nat,
                        ),
                    ),
                    self@.wf(),
                decreases cols - col,
            {
                let ghost so_far = triangle.row_fragments(
                    *shader,
                    brightness,
                    bounds,
                    row as nat,
                    col as nat,
                );
                if is_inside(&coords) {
                    let depth = coords.x.times(&a.z).plus(&coords.y.times(&b.z)).plus(
                        &coords.z.times(&c.z),
                    );
                    let x: i32 = (bounds.min_x as i64 + col as i64) as i32;
                    let y: i32 = (bounds.min_y as i64 + row as i64) as i32;
                    let probe = Fragment { x, y, depth, color: Color(0, 0, 0) };
                    let ghost wanted = triangle.fragment_at(
                        *shader,
                        brightness,
                        bounds,
                        col as nat,
                        row as nat,
                    ).unwrap();
                    if self.accepts(&probe) {
                        let color = shader.fragment(&coords, uva, uvb, uvc).times(brightness);
                        self.plot(Fragment { x, y, depth, color });
                    }
                    proof {
                        assert(wanted.x == x && wanted.y == y && wanted.depth == depth);
                        assert((above + so_far.push(wanted)).drop_last() =~= above + so_far);
                        assert((above + so_far.push(wanted)).last() == wanted);
                    }
                }
                coords = coords.plus(&delta_x);
                col = col + 1;
            }
            proof {
                assert(triangle.box_fragments(*shader, brightness, bounds, (row + 1) as nat)
                    == above + triangle.row_fragments(
                    *shader,
                    brightness,
                    bounds,
                    row as nat,
                    bounds.columns(),
                ));
            }
            coords_row = coords_row.plus(&delta_y);
            row = row + 1;
        }
    }

    /// Whether the fragment would be written: the test that `plot` makes,
    /// without the write.
    pub fn accepts(&self, fragment: &Fragment) -> (r: bool)
        ensures
            r == self@.accepts(*fragment),
    {
        proof {
            use_type_invariant(self);
        }
        if fragment.x < 0 || fragment.y < 0 {
            return false;
        }
        let x: u32 = fragment.x as u32;
        let y: u32 = fragment.y as u32;
        if x >= self.width || y >= self.height {
            return false;
        }
        if !fragment.depth.is_positive() {
            return false;
        }
        proof {
            lemma_index_in_range(x as int, y as int, self.width as int, self.height as int);
            assert(self.depth_buffer.len() == self.width * self.height);
        }
        let index: usize = (y as usize) * (self.width as usize) + (x as usize);
        let entry: Scalar = self.depth_buffer[index];
        !entry.is_positive() || fragment.depth.lt(&entry)
    }

    /// Offers one fragment to the frame. It is written, colour and depth,
    /// if and only if it passes the depth test; the result says whether.
    pub fn plot(&mut self, fragment: Fragment) -> (written: bool)
        ensures
            written == old(self)@.accepts(fragment),
            final(self)@ == old(self)@.plotted(fragment),
            final(self)@.wf(),
    {
        proof {
            use_type_invariant(&*self);
        }
        if fragment.x < 0 || fragment.y < 0 {
            return false;
        }
        let x: u32 = fragment.x as u32;
        let y: u32 = fragment.y as u32;
        if x >= self.width || y >= self.height {
            return false;
        }
        if !fragment.depth.is_positive() {
            return false;
        }
        proof {
            lemma_index_in_range(x as int, y as int, self.width as int, self.height as int);
            assert(self.depth_buffer.len() == self.width * self.height);
        }
        let index: usize = (y as usize) * (self.width as usize) + (x as usize);
        let entry: Scalar = self.depth_buffer[index];
        if !entry.is_positive() || fragment.depth.lt(&entry) {
            self.depth_buffer[index] = fragment.depth;
            self.pixels[index] = fragment.color;
            assert(self@.depth =~= old(self)@.plotted(fragment).depth);
            assert(self@.colors =~= old(self)@.plotted(fragment).colors);
            true
        } else {
            false
        }
    }
    /// Offers the fragments to the frame one by one, first to last, and
    /// returns how many were written.
    pub fn draw_fragments(&mut self, fragments: &[Fragment]) -> (written: usize)
        ensures
            final(self)@ == old(self)@.drawn(fragments@),
            final(self)@.wf(),
            written == old(self)@.writes(fragments@),
    {
        proof {
            use_type_invariant(&*self);
        }
        let mut written: usize = 0;
        let mut i: usize = 0;
        while i < fragments.len()
            invariant
                i <= fragments.len(),
                written <= i,
                written == old(self)@.writes(fragments@.take(i as int)),
                self@ == old(self)@.drawn(fragments@.take(i as int)),
                self@.wf(),
            decreases fragments.len() - i,
        {
            assert(fragments@.take(i + 1).drop_last() =~= fragments@.take(i as int));
            assert(fragments@.take(i + 1).last() == fragments@[i as int]);
            if self.plot(fragments[i]) {
                written += 1;
            }
            i += 1;
        }
        assert(fragments@.take(fragments.len() as int) =~= fragments@);
        written
    }

    /// The colour shown at pixel (x, y); `None` off the viewport.
    pub fn pixel(&self, x: u32, y: u32) -> (c: Option<Color>)
        ensures
            c is Some <==> self@.in_bounds(x as int, y as int),
            c matches Some(color) ==> color == self@.colors[self@.index(x as int, y as int)],
    {
        proof {
            use_type_invariant(self);
        }
        if x >= self.width || y >= self.height {
            return None;
        }
        proof {
            lemma_index_in_range(x as int, y as int, self.width as int, self.height as int);
            assert(self.pixels.len() == self.width * self.height);
        }
        let index: usize = (y as usize) * (self.width as usize) + (x as usize);
        Some(self.pixels[index])
    }

    /// The depth recorded at pixel (x, y): `None` off the viewport and where
    /// nothing was written since the frame was cleared.
    pub fn depth(&self, x: u32, y: u32) -> (d: Option<Scalar>)
        ensures
            d is Some <==> self@.in_bounds(x as int, y as int) && !self@.untouched(
                x as int,
                y as int,
            ),
            d matches Some(depth) ==> depth == self@.depth[self@.index(x as int, y as int)],
    {
        proof {
            use_type_invariant(self);
        }
        if x >= self.width || y >= self.height {
            return None;
        }
        proof {
            lemma_index_in_range(x as int, y as int, self.width as int, self.height as int);
            assert(self.depth_buffer.len() == self.width * self.height);
        }
        let index: usize = (y as usize) * (self.width as usize) + (x as usize);
        let entry: Scalar = self.depth_buffer[index];
        if entry.is_positive() {
            Some(entry)
        } else {
            None
        }
    }

    /// The colours of the whole frame, row by row from the top, for the
    /// surface that presents them.
    pub fn pixels(&self) -> (p: &[Color])
        ensures
            p@ == self@.colors,
            self@.wf(),
    {
        proof {
            use_type_invariant(self);
        }
        self.pixels.as_slice()
    }
}

fn least_of(a: i32, b: i32, c: i32) -> (r: i32)
    ensures
        r == least(a as int, b as int, c as int),
{
    if a <= b && a <= c {
        a
    } else if b <= c {
        b
    } else {
        c
    }
}

fn greatest_of(a: i32, b: i32, c: i32) -> (r: i32)
    ensures
        r == greatest(a as int, b as int, c as int),
{
    if a >= b && a >= c {
        a
    } else if b >= c {
        b
    } else {
        c
    }
}

fn clip_low(v: i32) -> (r: i32)
    ensures
        r == max(0, v as int),
{
    if v < 0 {
        0
    } else {
        v
    }
}

fn clip_high(v: i32, size: u32) -> (r: i32)
    ensures
        r == min(size - 1, v as int),
{
    if (v as i64) < (size as i64) {
        v
    } else {
        ((size as i64) - 1) as i32
    }
}

proof fn lemma_index_is_injective(x: int, y: int, u: int, v: int, width: int)
    by (nonlinear_arith)
    requires
        0 <= x < width,
        0 <= u < width,
        0 <= y,
        0 <= v,
        y * width + x == v * width + u,
    ensures
        x == u,
        y == v,
{
    if y < v {
        assert(v * width >= (y + 1) * width);
    } else if v < y {
        assert(y * width >= (v + 1) * width);
    }
}

impl Fragment {
    /// Whether the fragment is for pixel (x, y).
    pub open spec fn at(self, x: int, y: int) -> bool {
        self.x == x && self.y == y
    }
}

impl FrameView {
    /// Whether two renderers have the same viewport and hold the same frame.
    pub open spec fn same_frame(self, other: FrameView) -> bool {
        &&& self.width == other.width
        &&& self.height == other.height
        &&& self.depth == other.depth
        &&& self.colors == other.colors
    }

    /// Offering a fragment keeps the viewport and the length of the frame.
    pub proof fn lemma_plotted_wf(self, f: Fragment)
        requires
            self.wf(),
        ensures
            self.plotted(f).wf(),
            self.plotted(f).width == self.width,
            self.plotted(f).height == self.height,
            self.plotted(f).clear_color == self.clear_color,
            self.plotted(f).running == self.running,
    {
        if self.accepts(f) {
            lemma_index_in_range(f.x as int, f.y as int, self.width as int, self.height as int);
        }
    }

    /// Offering fragments keeps the viewport and the length of the frame.
    pub proof fn lemma_drawn_wf(self, fragments: Seq<Fragment>)
        requires
            self.wf(),
        ensures
            self.drawn(fragments).wf(),
            self.drawn(fragments).width == self.width,
            self.drawn(fragments).height == self.height,
            self.drawn(fragments).clear_color == self.clear_color,
            self.drawn(fragments).running == self.running,
        decreases fragments.len(),
    {
        if fragments.len() > 0 {
            self.lemma_drawn_wf(fragments.drop_last());
            self.drawn(fragments.drop_last()).lemma_plotted_wf(fragments.last());
        }
    }

    /// A fragment changes nothing but its own pixel.
    pub proof fn lemma_plotted_elsewhere(self, f: Fragment, x: int, y: int)
        requires
            self.wf(),
            self.in_bounds(x, y),
            !f.at(x, y),
        ensures
            self.plotted(f).depth[self.index(x, y)] == self.depth[self.index(x, y)],
            self.plotted(f).colors[self.index(x, y)] == self.colors[self.index(x, y)],
    {
        if self.accepts(f) {
            lemma_index_in_range(f.x as int, f.y as int, self.width as int, self.height as int);
            lemma_index_in_range(x, y, self.width as int, self.height as int);
            if self.index(f.x as int, f.y as int) == self.index(x, y) {
                lemma_index_is_injective(x, y, f.x as int, f.y as int, self.width as int);
            }
        }
    }

    /// Drawing is repeatable. Clearing forgets the frame that was there
    /// before, so two renderers of one size and clear colour hold the same
    /// depths and colours once the same fragments were offered to their
    /// cleared frames.
    pub proof fn lemma_redraw_is_identical(self, other: FrameView, fragments: Seq<Fragment>)
        requires
            self.width == other.width,
            self.height == other.height,
            self.clear_color == other.clear_color,
        ensures
            self.cleared().drawn(fragments).same_frame(other.cleared().drawn(fragments)),
        decreases fragments.len(),
    {
        if fragments.len() > 0 {
            self.lemma_redraw_is_identical(other, fragments.drop_last());
        }
    }

    /// Of two fragments for one pixel of the viewport, the nearer one
    /// counts, whichever is offered first: both orders leave the same frame,
    /// and where the pixel showed nothing nearer before, it now shows the
    /// nearer fragment's colour at the nearer fragment's depth.
    pub proof fn lemma_nearer_fragment_wins(self, near: Fragment, far: Fragment)
        requires
            self.wf(),
            self.in_bounds(near.x as int, near.y as int),
            far.at(near.x as int, near.y as int),
            near.depth.positive(),
            near.depth.num_lt(far.depth),
        ensures
            self.plotted(near).plotted(far) == self.plotted(far).plotted(near),
            self.untouched(near.x as int, near.y as int) || near.depth.num_lt(
                self.depth[self.index(near.x as int, near.y as int)],
            ) ==> {
                let after = self.plotted(far).plotted(near);
                let i = self.index(near.x as int, near.y as int);
                after.colors[i] == near.color && after.depth[i] == near.depth
            },
    {
        lemma_index_in_range(near.x as int, near.y as int, self.width as int, self.height as int);
        let a = self.plotted(near).plotted(far);
        let b = self.plotted(far).plotted(near);
        assert(a.depth =~= b.depth);
        assert(a.colors =~= b.colors);
    }

    /// Fragments for different pixels do not interfere: both orders leave
    /// the same frame.
    pub proof fn lemma_distinct_pixels_commute(self, f: Fragment, g: Fragment)
        requires
            self.wf(),
            !g.at(f.x as int, f.y as int),
        ensures
            self.plotted(f).plotted(g) == self.plotted(g).plotted(f),
    {
        let a = self.plotted(f).plotted(g);
        let b = self.plotted(g).plotted(f);
        if self.in_bounds(f.x as int, f.y as int) && self.in_bounds(g.x as int, g.y as int) {
            lemma_index_in_range(f.x as int, f.y as int, self.width as int, self.height as int);
            lemma_index_in_range(g.x as int, g.y as int, self.width as int, self.height as int);
            if self.index(f.x as int, f.y as int) == self.index(g.x as int, g.y as int) {
                lemma_index_is_injective(
                    f.x as int,
                    f.y as int,
                    g.x as int,
                    g.y as int,
                    self.width as int,
                );
            }
        }
        assert(a.depth =~= b.depth);
        assert(a.colors =~= b.colors);
    }

    /// What a pixel of the viewport holds after any fragments were offered
    /// to a cleared frame, in whatever order they came:
    /// - it is untouched, and shows the clear colour, exactly when no
    ///   fragment with a positive depth was offered to it;
    /// - otherwise its depth is no farther than that of any such fragment,
    ///   and one of them has that very depth and the colour shown.
    /// So where the fragments offered to a pixel differ in depth, the
    /// nearest of them shows.
    pub proof fn lemma_frame_shows_nearest(self, fragments: Seq<Fragment>, x: int, y: int)
        requires
            self.wf(),
            self.in_bounds(x, y),
        ensures
            ({
                let frame = self.cleared().drawn(fragments);
                let i = self.index(x, y);
                &&& frame.untouched(x, y) <==> forall|k: int|
                    0 <= k < fragments.len() && (#[trigger] fragments[k]).at(x, y)
                        ==> !fragments[k].depth.positive()
                &&& frame.untouched(x, y) ==> frame.colors[i] == self.clear_color
                &&& forall|k: int|
                    0 <= k < fragments.len() && (#[trigger] fragments[k]).at(x, y)
                        && fragments[k].depth.positive() ==> frame.depth[i].num_le(
                        fragments[k].depth,
                    )
                &&& !frame.untouched(x, y) ==> exists|k: int|
                    0 <= k < fragments.len() && (#[trigger] fragments[k]).at(x, y)
                        && fragments[k].depth == frame.depth[i] && fragments[k].color
                        == frame.colors[i]
            }),
        decreases fragments.len(),
    {
        let i = self.index(x, y);
        lemma_index_in_range(x, y, self.width as int, self.height as int);
        assert(self.cleared().wf());
        if fragments.len() == 0 {
        } else {
            let rest = fragments.drop_last();
            let f = fragments.last();
            let before = self.cleared().drawn(rest);
            let frame = before.plotted(f);
            self.lemma_frame_shows_nearest(rest, x, y);
            self.cleared().lemma_drawn_wf(rest);
            assert(forall|k: int| 0 <= k < rest.len() ==> rest[k] == fragments[k]);
            if f.at(x, y) {
                if !frame.untouched(x, y) {
                    if before.accepts(f) {
                        assert(fragments[fragments.len() - 1].at(x, y));
                    } else {
                        let k = choose|k: int|
                            0 <= k < rest.len() && (#[trigger] rest[k]).at(x, y) && rest[k].depth
                                == before.depth[i] && rest[k].color == before.colors[i];
                        assert(fragments[k].at(x, y));
                    }
                }
            } else {
                before.lemma_plotted_elsewhere(f, x, y);
                if !frame.untouched(x, y) {
                    let k = choose|k: int|
                        0 <= k < rest.len() && (#[trigger] rest[k]).at(x, y) && rest[k].depth
                            == before.depth[i] && rest[k].color == before.colors[i];
                    assert(fragments[k].at(x, y));
                }
            }
        }
    }
}

impl Triangle {
    /// The fragments of a row lie in that row, from the left to the right,
    /// no two of them on one pixel.
    pub proof fn lemma_row_is_ordered(
        self,
        shader: Shader,
        brightness: Scalar,
        bounds: PixelBox,
        row: nat,
        cols: nat,
    )
        requires
            cols <= bounds.columns(),
            row < bounds.rows(),
        ensures
            ({
                let found = self.row_fragments(shader, brightness, bounds, row, cols);
                &&& forall|i: int|
                    0 <= i < found.len() ==> (#[trigger] found[i]).y == bounds.min_y + row
                        && bounds.min_x <= found[i].x < bounds.min_x + cols
                &&& forall|i: int, j: int|
                    0 <= i < j < found.len() ==> (#[trigger] found[i]).x < (#[trigger] found[j]).x
            }),
        decreases cols,
    {
        if cols > 0 {
            self.lemma_row_is_ordered(shader, brightness, bounds, row, (cols - 1) as nat);
            let found = self.row_fragments(shader, brightness, bounds, row, cols);
            let before = self.row_fragments(shader, brightness, bounds, row, (cols - 1) as nat);
            match self.fragment_at(shader, brightness, bounds, (cols - 1) as nat, row) {
                Some(f) => {
                    assert(found == before.push(f));
                    assert(f.x == bounds.min_x + cols - 1);
                    assert(f.y == bounds.min_y + row);
                    assert forall|i: int| 0 <= i < found.len() implies (#[trigger] found[i]).y
                        == bounds.min_y + row && bounds.min_x <= found[i].x < bounds.min_x
                        + cols by {
                        if i < before.len() {
                            assert(found[i] == before[i]);
                        }
                    }
                    assert forall|i: int, j: int| 0 <= i < j < found.len() implies (
                    #[trigger] found[i]).x < (#[trigger] found[j]).x by {
                        assert(found[i] == before[i]);
                        if j < before.len() {
                            assert(found[j] == before[j]);
                        }
                    }
                },
                None => {
                    assert(found == before);
                },
            }
        }
    }

    /// The fragments of a box come row by row from the top, no two of them
    /// on one pixel.
    pub proof fn lemma_box_is_ordered(
        self,
        shader: Shader,
        brightness: Scalar,
        bounds: PixelBox,
        rows: nat,
    )
        requires
            rows <= bounds.rows(),
        ensures
            ({
                let found = self.box_fragments(shader, brightness, bounds, rows);
                &&& forall|i: int|
                    0 <= i < found.len() ==> bounds.min_y <= (#[trigger] found[i]).y < bounds.min_y
                        + rows
                &&& forall|i: int, j: int|
                    0 <= i < j < found.len() ==> (#[trigger] found[i]).y < (#[trigger] found[j]).y
                        || (found[i].y == found[j].y && found[i].x < found[j].x)
            }),
        decreases rows,
    {
        if rows > 0 {
            self.lemma_box_is_ordered(shader, brightness, bounds, (rows - 1) as nat);
            self.lemma_row_is_ordered(
                shader,
                brightness,
                bounds,
                (rows - 1) as nat,
                bounds.columns(),
            );
            let found = self.box_fragments(shader, brightness, bounds, rows);
            let above = self.box_fragments(shader, brightness, bounds, (rows - 1) as nat);
            let last = self.row_fragments(
                shader,
                brightness,
                bounds,
                (rows - 1) as nat,
                bounds.columns(),
            );
            assert(found == above + last);
            assert forall|i: int| 0 <= i < found.len() implies bounds.min_y <= (
            #[trigger] found[i]).y < bounds.min_y + rows by {
                if i < above.len() {
                    assert(found[i] == above[i]);
                } else {
                    assert(found[i] == last[i - above.len()]);
                }
            }
            assert forall|i: int, j: int| 0 <= i < j < found.len() implies (#[trigger] found[i]).y
                < (#[trigger] found[j]).y || (found[i].y == found[j].y && found[i].x
                < found[j].x) by {
                if j < above.len() {
                    assert(found[i] == above[i] && found[j] == above[j]);
                } else if i < above.len() {
                    assert(found[i] == above[i] && found[j] == last[j - above.len()]);
                } else {
                    assert(found[i] == last[i - above.len()] && found[j] == last[j
                        - above.len()]);
                }
            }
        }
    }

    /// Whether a fragment is that of a pixel of the box on which the
    /// triangle lies: a pixel whose weights, as the scan derives them, are
    /// not negative and sum to the floor at least.
    pub open spec fn offers(
        self,
        shader: Shader,
        brightness: Scalar,
        bounds: PixelBox,
        fragment: Fragment,
    ) -> bool {
        exists|col: nat, row: nat|
            col < bounds.columns() && row < bounds.rows() && covers(
                #[trigger] self.weights_at(bounds, col, row),
            ) && self.fragment_at(shader, brightness, bounds, col, row) == Some(fragment)
    }

    /// Every fragment of a row is that of a pixel on which the triangle
    /// lies.
    pub proof fn lemma_row_lies_on_the_triangle(
        self,
        shader: Shader,
        brightness: Scalar,
        bounds: PixelBox,
        row: nat,
        cols: nat,
    )
        requires
            cols <= bounds.columns(),
            row < bounds.rows(),
        ensures
            forall|i: int|
                0 <= i < self.row_fragments(shader, brightness, bounds, row, cols).len()
                    ==> self.offers(
                    shader,
                    brightness,
                    bounds,
                    #[trigger] self.row_fragments(shader, brightness, bounds, row, cols)[i],
                ),
        decreases cols,
    {
        if cols > 0 {
            self.lemma_row_lies_on_the_triangle(shader, brightness, bounds, row, (cols - 1) as nat);
            let found = self.row_fragments(shader, brightness, bounds, row, cols);
            let before = self.row_fragments(shader, brightness, bounds, row, (cols - 1) as nat);
            match self.fragment_at(shader, brightness, bounds, (cols - 1) as nat, row) {
                Some(f) => {
                    assert(found == before.push(f));
                    assert(covers(self.weights_at(bounds, (cols - 1) as nat, row)));
                    assert(self.offers(shader, brightness, bounds, f));
                    assert forall|i: int| 0 <= i < found.len() implies self.offers(
                        shader,
                        brightness,
                        bounds,
                        #[trigger] found[i],
                    ) by {
                        if i < before.len() {
                            assert(found[i] == before[i]);
                        }
                    }
                },
                None => {
                    assert(found == before);
                },
            }
        }
    }

    /// Every fragment of a triangle is that of a pixel on which the
    /// triangle lies: where a fragment is drawn, no weight is negative, and
    /// the weights sum to the floor at least.
    pub proof fn lemma_fragments_lie_on_the_triangle(
        self,
        shader: Shader,
        brightness: Scalar,
        bounds: PixelBox,
        rows: nat,
    )
        requires
            rows <= bounds.rows(),
        ensures
            forall|i: int|
                0 <= i < self.box_fragments(shader, brightness, bounds, rows).len()
                    ==> self.offers(
                    shader,
                    brightness,
                    bounds,
                    #[trigger] self.box_fragments(shader, brightness, bounds, rows)[i],
                ),
        decreases rows,
    {
        if rows > 0 {
            self.lemma_fragments_lie_on_the_triangle(
                shader,
                brightness,
                bounds,
                (rows - 1) as nat,
            );
            self.lemma_row_lies_on_the_triangle(
                shader,
                brightness,
                bounds,
                (rows - 1) as nat,
                bounds.columns(),
            );
            let found = self.box_fragments(shader, brightness, bounds, rows);
            let above = self.box_fragments(shader, brightness, bounds, (rows - 1) as nat);
            let last = self.row_fragments(
                shader,
                brightness,
                bounds,
                (rows - 1) as nat,
                bounds.columns(),
            );
            assert(found == above + last);
            assert forall|i: int| 0 <= i < found.len() implies self.offers(
                shader,
                brightness,
                bounds,
                #[trigger] found[i],
            ) by {
                if i < above.len() {
                    assert(found[i] == above[i]);
                } else {
                    assert(found[i] == last[i - above.len()]);
                }
            }
        }
    }

    /// A triangle offers no pixel more than one fragment.
    pub proof fn lemma_one_fragment_per_pixel(
        self,
        shader: Shader,
        brightness: Scalar,
        bounds: PixelBox,
        i: int,
        j: int,
    )
        requires
            0 <= i < self.fragments(shader, brightness, bounds).len(),
            0 <= j < self.fragments(shader, brightness, bounds).len(),
            i != j,
        ensures
            !self.fragments(shader, brightness, bounds)[j].at(
                self.fragments(shader, brightness, bounds)[i].x as int,
                self.fragments(shader, brightness, bounds)[i].y as int,
            ),
    {
        self.lemma_box_is_ordered(shader, brightness, bounds, bounds.rows());
        let found = self.fragments(shader, brightness, bounds);
        if i < j {
            assert(found[i].y < found[j].y || (found[i].y == found[j].y && found[i].x < found[j].x));
        } else {
            assert(found[j].y < found[i].y || (found[j].y == found[i].y && found[j].x < found[i].x));
        }
    }
}

impl FrameView {
    /// Of the fragments offered to a pixel of a cleared frame, one that is
    /// nearer than every other shows, wherever in the order it stands.
    pub proof fn lemma_nearest_fragment_shows(
        self,
        fragments: Seq<Fragment>,
        k: int,
    )
        requires
            self.wf(),
            0 <= k < fragments.len(),
            self.in_bounds(fragments[k].x as int, fragments[k].y as int),
            fragments[k].depth.positive(),
            forall|j: int|
                0 <= j < fragments.len() && j != k && (#[trigger] fragments[j]).at(
                    fragments[k].x as int,
                    fragments[k].y as int,
                ) && fragments[j].depth.positive() ==> fragments[k].depth.num_lt(
                    fragments[j].depth,
                ),
        ensures
            ({
                let frame = self.cleared().drawn(fragments);
                let i = self.index(fragments[k].x as int, fragments[k].y as int);
                frame.depth[i] == fragments[k].depth && frame.colors[i] == fragments[k].color
            }),
    {
        let x = fragments[k].x as int;
        let y = fragments[k].y as int;
        self.lemma_frame_shows_nearest(fragments, x, y);
        self.cleared().lemma_drawn_wf(fragments);
        lemma_index_in_range(x, y, self.width as int, self.height as int);
        let frame = self.cleared().drawn(fragments);
        let i = self.index(x, y);
        assert(frame.index(x, y) == i);
        assert(fragments[k].at(x, y));
        assert(frame.depth[i].num_le(fragments[k].depth));
        assert(!frame.untouched(x, y)) by {
            if frame.untouched(x, y) {
                assert(!fragments[k].depth.positive());
            }
        }
        assert(frame.depth[i].positive());
        let j = choose|j: int|
            0 <= j < fragments.len() && (#[trigger] fragments[j]).at(x, y) && fragments[j].depth
                == frame.depth[i] && fragments[j].color == frame.colors[i];
        if j != k {
            assert(fragments[k].depth.num_lt(fragments[j].depth));
        }
    }

    /// Drawing two triangles is offering the fragments of the first, then
    /// those of the second.
    pub proof fn lemma_two_triangles(
        self,
        first: Triangle,
        first_shader: Shader,
        first_brightness: Scalar,
        second: Triangle,
        second_shader: Shader,
        second_brightness: Scalar,
    )
        requires
            self.wf(),
        ensures
            self.with_triangle(first, first_shader, first_brightness).with_triangle(
                second,
                second_shader,
                second_brightness,
            ) == self.drawn(
                first.fragments(
                    first_shader,
                    first_brightness,
                    self.bounds_of(first.a, first.b, first.c),
                ) + second.fragments(
                    second_shader,
                    second_brightness,
                    self.bounds_of(second.a, second.b, second.c),
                ),
            ),
    {
        let one = first.fragments(
            first_shader,
            first_brightness,
            self.bounds_of(first.a, first.b, first.c),
        );
        let two = second.fragments(
            second_shader,
            second_brightness,
            self.bounds_of(second.a, second.b, second.c),
        );
        self.lemma_drawn_wf(one);
        self.lemma_drawn_joins(one, two);
    }

    /// Of two triangles drawn into a cleared frame, the nearer one shows at
    /// every pixel where both lie, whichever is drawn first: where a
    /// fragment of one triangle is nearer than the fragment that the other
    /// offers to its pixel, the pixel shows that fragment's colour at its
    /// depth, in either order of drawing.
    pub proof fn lemma_nearer_triangle_wins(
        self,
        near: Triangle,
        near_shader: Shader,
        near_brightness: Scalar,
        far: Triangle,
        far_shader: Shader,
        far_brightness: Scalar,
        k: int,
    )
        requires
            self.wf(),
            ({
                let nearer = near.fragments(
                    near_shader,
                    near_brightness,
                    self.bounds_of(near.a, near.b, near.c),
                );
                let farther = far.fragments(
                    far_shader,
                    far_brightness,
                    self.bounds_of(far.a, far.b, far.c),
                );
                &&& 0 <= k < nearer.len()
                &&& self.in_bounds(nearer[k].x as int, nearer[k].y as int)
                &&& nearer[k].depth.positive()
                &&& forall|j: int|
                    0 <= j < farther.len() && (#[trigger] farther[j]).at(
                        nearer[k].x as int,
                        nearer[k].y as int,
                    ) && farther[j].depth.positive() ==> nearer[k].depth.num_lt(farther[j].depth)
            }),
        ensures
            ({
                let fragment = near.fragments(
                    near_shader,
                    near_brightness,
                    self.bounds_of(near.a, near.b, near.c),
                )[k];
                let i = self.index(fragment.x as int, fragment.y as int);
                let near_first = self.cleared().with_triangle(
                    near,
                    near_shader,
                    near_brightness,
                ).with_triangle(far, far_shader, far_brightness);
                let far_first = self.cleared().with_triangle(
                    far,
                    far_shader,
                    far_brightness,
                ).with_triangle(near, near_shader, near_brightness);
                &&& near_first.colors[i] == fragment.color
                &&& near_first.depth[i] == fragment.depth
                &&& far_first.colors[i] == fragment.color
                &&& far_first.depth[i] == fragment.depth
            }),
    {
        let near_bounds = self.bounds_of(near.a, near.b, near.c);
        let far_bounds = self.bounds_of(far.a, far.b, far.c);
        let nearer = near.fragments(near_shader, near_brightness, near_bounds);
        let farther = far.fragments(far_shader, far_brightness, far_bounds);
        let fragment = nearer[k];
        let clear = self.cleared();
        assert(clear.bounds_of(near.a, near.b, near.c) == near_bounds);
        assert(clear.bounds_of(far.a, far.b, far.c) == far_bounds);
        clear.lemma_two_triangles(
            near,
            near_shader,
            near_brightness,
            far,
            far_shader,
            far_brightness,
        );
        clear.lemma_two_triangles(
            far,
            far_shader,
            far_brightness,
            near,
            near_shader,
            near_brightness,
        );
        assert forall|j: int|
            0 <= j < nearer.len() && j != k implies !(#[trigger] nearer[j]).at(
            fragment.x as int,
            fragment.y as int,
        ) by {
            near.lemma_one_fragment_per_pixel(near_shader, near_brightness, near_bounds, k, j);
        }
        let near_first = nearer + farther;
        let far_first = farther + nearer;
        assert(near_first[k] == fragment);
        assert(far_first[farther.len() + k] == fragment);
        assert forall|j: int|
            0 <= j < near_first.len() && j != k && (#[trigger] near_first[j]).at(
                fragment.x as int,
                fragment.y as int,
            ) && near_first[j].depth.positive() implies fragment.depth.num_lt(
            near_first[j].depth,
        ) by {
            if j < nearer.len() {
                assert(near_first[j] == nearer[j]);
            } else {
                assert(near_first[j] == farther[j - nearer.len()]);
            }
        }
        assert forall|j: int|
            0 <= j < far_first.len() && j != farther.len() + k && (#[trigger] far_first[j]).at(
                fragment.x as int,
                fragment.y as int,
            ) && far_first[j].depth.positive() implies fragment.depth.num_lt(
            far_first[j].depth,
        ) by {
            if j < farther.len() {
                assert(far_first[j] == farther[j]);
            } else {
                assert(far_first[j] == nearer[j - farther.len()]);
            }
        }
        self.lemma_nearest_fragment_shows(near_first, k);
        self.lemma_nearest_fragment_shows(far_first, farther.len() + k);
        assert(clear.cleared() == clear);
        assert(clear.drawn(near_first) == self.cleared().drawn(near_first));
    }

    /// Rasterizing is repeatable. Clearing forgets the frame that was
    /// there before, so two renderers of one size and clear colour hold the
    /// same depths and colours once the same triangle was drawn into their
    /// cleared frames.
    pub proof fn lemma_triangle_redraw_is_identical(
        self,
        other: FrameView,
        triangle: Triangle,
        shader: Shader,
        brightness: Scalar,
    )
        requires
            self.width == other.width,
            self.height == other.height,
            self.clear_color == other.clear_color,
        ensures
            self.cleared().with_triangle(triangle, shader, brightness).same_frame(
                other.cleared().with_triangle(triangle, shader, brightness),
            ),
    {
        let bounds = self.cleared().bounds_of(triangle.a, triangle.b, triangle.c);
        assert(other.cleared().bounds_of(triangle.a, triangle.b, triangle.c) == bounds);
        self.lemma_redraw_is_identical(other, triangle.fragments(shader, brightness, bounds));
    }
}

/// How far stepped weights drift. Where the triangle has an area and the
/// weights have stayed moderate on the scan's way to a pixel, the weights
/// that the scan has derived step by step sum to one within 18 parts in
/// 2^24, and 30 more for every step taken.
pub proof fn lemma_stepped_weights_drift(triangle: Triangle, bounds: PixelBox, col: nat, row: nat)
    requires
        determinant(triangle.a, triangle.b, triangle.c).magnitude() != 0,
        triangle.steady_to(bounds, col, row),
    ensures
        weight_sum(triangle.weights_at(bounds, col, row)).finite(),
        -(18 + 30 * (col + row)) * pow2(149) <= 0x100_0000 * (weight_sum(
            triangle.weights_at(bounds, col, row),
        ).scaled_value() - pow2(149)) <= (18 + 30 * (col + row)) * pow2(149),
{
    let (a, b, c) = (triangle.a, triangle.b, triangle.c);
    let px = Scalar::of_int(bounds.min_x as int);
    let py = Scalar::of_int(bounds.min_y as int);
    let start = triangle.top_left(bounds);
    let down = triangle.delta_y(bounds);
    let right = triangle.delta_x(bounds);
    let turn = stepped(start, down, row);
    let end = triangle.weights_at(bounds, col, row);
    assert(stepped(start, down, 0) == start);
    assert(moderate(start));
    assert(moderate(turn));
    assert(moderate(end));
    lemma_fresh_total(start.y, start.z);
    lemma_delta_total(a, b, c, px, py, Scalar::of_int(bounds.min_x + 1), py);
    lemma_delta_total(a, b, c, px, py, px, Scalar::of_int(bounds.min_y + 1));
    right.x.lemma_within_bounds(2);
    right.y.lemma_within_bounds(2);
    right.z.lemma_within_bounds(2);
    down.x.lemma_within_bounds(2);
    down.y.lemma_within_bounds(2);
    down.z.lemma_within_bounds(2);
    lemma_steps_keep_total(start, down, row);
    lemma_steps_keep_total(turn, right, col);
    lemma_weight_sum_is_close(end);
    let unit = pow2(150) as int;
    let across = exact_total(right);
    let along = exact_total(down);
    vstd::arithmetic::power2::lemma_pow2_unfold(150);
    vstd::arithmetic::power2::lemma_pow2_unfold(151);
    lemma_pow2_pos(149);
    assert(-12 * col * unit <= 0x100_0000 * (col * across) <= 12 * col * unit) by (nonlinear_arith)
        requires
            -12 * unit <= 0x100_0000 * across <= 12 * unit,
            col >= 0,
    ;
    assert(-12 * row * unit <= 0x100_0000 * (row * along) <= 12 * row * unit) by (nonlinear_arith)
        requires
            -12 * unit <= 0x100_0000 * along <= 12 * unit,
            row >= 0,
    ;
    let cu = col * unit;
    let ru = row * unit;
    assert(3 * col * unit == 3 * cu && -3 * col * unit == -3 * cu && 12 * col * unit == 12 * cu
        && -12 * col * unit == -12 * cu) by (nonlinear_arith)
        requires
            cu == col * unit,
    ;
    assert(3 * row * unit == 3 * ru && -3 * row * unit == -3 * ru && 12 * row * unit == 12 * ru
        && -12 * row * unit == -12 * ru) by (nonlinear_arith)
        requires
            ru == row * unit,
    ;
    let one = pow2(149) as int;
    assert((18 + 30 * (col + row)) * one == 9 * unit + 15 * cu + 15 * ru && -(18 + 30 * (col
        + row)) * one == -9 * unit - 15 * cu - 15 * ru) by (nonlinear_arith)
        requires
            cu == col * unit,
            ru == row * unit,
            unit == 2 * one,
    ;
    let s0 = exact_total(start);
    let s1 = exact_total(turn);
    let s2 = exact_total(end);
    let got = weight_sum(end).scaled_value();
    assert(-3 * ru <= 0x100_0000 * (s1 - s0 - row * along) <= 3 * ru);
    assert(-3 * cu <= 0x100_0000 * (s2 - s1 - col * across) <= 3 * cu);
    assert(-12 * ru <= 0x100_0000 * (row * along) <= 12 * ru);
    assert(-12 * cu <= 0x100_0000 * (col * across) <= 12 * cu);
    assert(-9 * unit - 15 * cu - 15 * ru <= 0x100_0000 * (got - one) <= 9 * unit + 15 * cu + 15
        * ru);
}

/// Stepped weights sum to one. At a pixel that the scan reaches from the
/// top left pixel of the box in no more than five hundred steps, the
/// weights that it has derived step by step sum to one within one part in
/// a thousand, where the triangle has an area and the weights have stayed
/// moderate on the way.
pub proof fn lemma_stepped_weights_sum_to_one(
    triangle: Triangle,
    bounds: PixelBox,
    col: nat,
    row: nat,
)
    requires
        determinant(triangle.a, triangle.b, triangle.c).magnitude() != 0,
        triangle.steady_to(bounds, col, row),
        col + row <= 500,
    ensures
        near_one(weight_sum(triangle.weights_at(bounds, col, row)), 1000),
{
    lemma_stepped_weights_drift(triangle, bounds, col, row);
    let one = pow2(149) as int;
    lemma_pow2_pos(149);
    assert((18 + 30 * (col + row)) * one <= 15018 * one && -(18 + 30 * (col + row)) * one
        >= -15018 * one) by (nonlinear_arith)
        requires
            col + row <= 500,
            one > 0,
    ;
}

} // verus!
