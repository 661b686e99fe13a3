use rasterizer::camera::PerspectiveCamera;
use rasterizer::graphics::{Color, Renderer};
use rasterizer::math::{Matrix44, Vector2, Vector3, Vector4};
use rasterizer::mesh::{Face, Mesh, Transformation};
use rasterizer::scalar::Scalar;
use rasterizer::shaders::{Shader, StandardShader, WireframeShader};
use rasterizer::world::{DirectionalLight, World};

fn s(x: f32) -> Scalar {
    Scalar::from_bits(x.to_bits())
}

fn f(x: Scalar) -> f32 {
    f32::from_bits(x.to_bits())
}

fn v2(x: f32, y: f32) -> Vector2 {
    Vector2::new(s(x), s(y))
}

fn v3(x: f32, y: f32, z: f32) -> Vector3 {
    Vector3::new(s(x), s(y), s(z))
}

fn v4(x: f32, y: f32, z: f32, w: f32) -> Vector4 {
    Vector4::new(s(x), s(y), s(z), s(w))
}

fn t3(v: Vector3) -> (f32, f32, f32) {
    (f(v.x), f(v.y), f(v.z))
}

fn near(a: f32, b: f32, tolerance: f32) -> bool {
    (a - b).abs() <= tolerance
}

//
// the math kernel against the processor
//

#[test]
fn vector2_operations() {
    let (a, b) = (v2(1.5, -2.25), v2(0.1, 7.0));
    assert_eq!(a.plus(&b), v2(1.5 + 0.1, -2.25 + 7.0));
    assert_eq!(a.minus(&b), v2(1.5 - 0.1, -2.25 - 7.0));
    assert_eq!(a.times(s(0.3)), v2(1.5 * 0.3, -2.25 * 0.3));
    assert_eq!(a.dot_product(&b), s(1.5 * 0.1 + -2.25 * 7.0));
}

#[test]
fn vector3_operations() {
    let (a, b) = (v3(1.5, -2.25, 0.3), v3(0.1, 7.0, -11.0));
    let (ax, ay, az, bx, by, bz) = (1.5f32, -2.25f32, 0.3f32, 0.1f32, 7.0f32, -11.0f32);
    assert_eq!(a.plus(&b), v3(ax + bx, ay + by, az + bz));
    assert_eq!(a.minus(&b), v3(ax - bx, ay - by, az - bz));
    assert_eq!(a.times(s(0.3)), v3(ax * 0.3, ay * 0.3, az * 0.3));
    assert_eq!(a.dot_product(&b), s(ax * bx + ay * by + az * bz));
    assert_eq!(
        a.cross_product(&b),
        v3(ay * bz - az * by, az * bx - ax * bz, ax * by - ay * bx)
    );
    assert_eq!(a.length(), s(f32::sqrt(ax.powi(2) + ay.powi(2) + az.powi(2))));
    assert_eq!(
        a.distance_to(&b),
        s(f32::sqrt((ax - bx).powi(2) + (ay - by).powi(2) + (az - bz).powi(2)))
    );
    let length = f32::sqrt(ax.powi(2) + ay.powi(2) + az.powi(2));
    let inverse = 1. / length;
    assert_eq!(a.normalised(), v3(ax * inverse, ay * inverse, az * inverse));
    let other = f32::sqrt(bx.powi(2) + by.powi(2) + bz.powi(2));
    assert_eq!(a.cos_similarity(&b), s((ax * bx + ay * by + az * bz) / (length * other)));
}

#[test]
fn exact_values_of_the_formulas() {
    assert_eq!(v3(1.0, 2.0, 3.0).dot_product(&v3(4.0, -5.0, 6.0)), s(12.0));
    assert_eq!(v3(1.0, 0.0, 0.0).cross_product(&v3(0.0, 1.0, 0.0)), v3(0.0, 0.0, 1.0));
    assert_eq!(v3(3.0, 4.0, 12.0).length(), s(13.0));
    assert_eq!(v3(1.0, 2.0, 3.0).distance_to(&v3(4.0, 6.0, 15.0)), s(13.0));
    assert_eq!(v3(0.0, 0.0, 8.0).normalised(), v3(0.0, 0.0, 1.0));
    assert_eq!(v3(2.0, 0.0, 0.0).cos_similarity(&v3(5.0, 0.0, 0.0)), s(1.0));
    assert_eq!(v3(2.0, 0.0, 0.0).cos_similarity(&v3(-5.0, 0.0, 0.0)), s(-1.0));
    assert_eq!(v3(2.0, 0.0, 0.0).cos_similarity(&v3(0.0, 0.0, 3.0)), s(0.0));
    assert_eq!(v2(3.0, 4.0).dot_product(&v2(2.0, 0.5)), s(8.0));
    assert_eq!(v4(2.0, 4.0, 6.0, 2.0).to_vector3(), v3(1.0, 2.0, 3.0));
    assert_eq!(v4(1.0, 2.0, 2.0, 4.0).length(), s(5.0));
    assert_eq!(v4(0.0, 0.0, 0.0, 4.0).normalised(), v4(0.0, 0.0, 0.0, 1.0));
}

#[test]
fn a_vector_without_length_normalises_to_zero() {
    assert_eq!(v3(0.0, 0.0, 0.0).normalised(), v3(0.0, 0.0, 0.0));
    assert_eq!(v3(-0.0, 0.0, -0.0).normalised(), v3(0.0, 0.0, 0.0));
    assert_eq!(v3(1.0e-30, 0.0, 0.0).normalised(), v3(0.0, 0.0, 0.0));
    assert_eq!(v4(0.0, 0.0, 0.0, 0.0).normalised(), v4(0.0, 0.0, 0.0, 0.0));
}

#[test]
fn to_vector3_with_w_zero_is_the_zero_vector() {
    assert_eq!(v4(1.0, 2.0, 3.0, 0.0).to_vector3(), v3(0.0, 0.0, 0.0));
    assert_eq!(v4(1.0, 2.0, 3.0, -0.0).to_vector3(), v3(0.0, 0.0, 0.0));
    assert_eq!(v4(f32::INFINITY, f32::NAN, -5.0, 0.0).to_vector3(), v3(0.0, 0.0, 0.0));
    assert_eq!(v4(0.0, 0.0, 0.0, 0.0).to_vector3(), v3(0.0, 0.0, 0.0));
}

#[test]
fn matrix_times_vector() {
    let mut data = [s(0.0); 16];
    for (i, entry) in data.iter_mut().enumerate() {
        *entry = s(i as f32 + 1.0);
    }
    let m = Matrix44 { data };
    assert_eq!(m.get(0, 0), s(1.0));
    assert_eq!(m.get(1, 2), s(7.0));
    assert_eq!(m.get(3, 3), s(16.0));
    // rows times the column (1, 2, 3, 4)
    assert_eq!(m.multiply_vec4(&v4(1.0, 2.0, 3.0, 4.0)), v4(30.0, 70.0, 110.0, 150.0));
}

//
// transformation
//

fn quaternions() -> Vec<Vector4> {
    let raw = [
        (0.0, 0.0, 0.0, 1.0),
        (1.0, 0.0, 0.0, 0.0),
        (0.0, std::f32::consts::FRAC_1_SQRT_2, 0.0, std::f32::consts::FRAC_1_SQRT_2),
        (1.0, 2.0, 3.0, 4.0),
        (-0.3, 0.9, 0.1, -0.7),
        (0.001, -5.0, 2.5, 0.01),
        (0.5, 0.5, 0.5, 0.5),
    ];
    raw.iter().map(|q| v4(q.0, q.1, q.2, q.3).normalised()).collect()
}

#[test]
fn rotation_of_a_unit_quaternion_is_orthogonal() {
    for q in quaternions() {
        let m = Transformation::new(v3(3.0, -4.0, 5.0), q).affine_matrix();
        let column = |j: u32| (f(m.get(0, j)), f(m.get(1, j)), f(m.get(2, j)));
        let dot = |a: (f32, f32, f32), b: (f32, f32, f32)| a.0 * b.0 + a.1 * b.1 + a.2 * b.2;
        for j in 0..3 {
            assert!(near(dot(column(j), column(j)), 1.0, 1.0e-5), "{:?}", q);
            for k in (j + 1)..3 {
                assert!(near(dot(column(j), column(k)), 0.0, 1.0e-5), "{:?}", q);
            }
        }
        // and the last row is the position
        assert_eq!((f(m.get(3, 0)), f(m.get(3, 1)), f(m.get(3, 2)), f(m.get(3, 3))), (3.0, -4.0, 5.0, 1.0));
        assert_eq!((f(m.get(0, 3)), f(m.get(1, 3)), f(m.get(2, 3))), (0.0, 0.0, 0.0));
    }
}

#[test]
fn points_are_turned_and_moved_directions_only_turned() {
    // a quarter turn round the y axis
    let q = v4(0.0, std::f32::consts::FRAC_1_SQRT_2, 0.0, std::f32::consts::FRAC_1_SQRT_2);
    let t = Transformation::new(v3(10.0, 20.0, 30.0), q);
    let d = t3(t.transform_direction(&v3(1.0, 0.0, 0.0)));
    assert!(near(d.0, 0.0, 1.0e-6) && near(d.1, 0.0, 1.0e-6) && near(d.2.abs(), 1.0, 1.0e-6));
    let p = t3(t.transformed(&v3(1.0, 0.0, 0.0)));
    assert!(near(p.0, 10.0 + d.0, 1.0e-5) && near(p.1, 20.0, 1.0e-5) && near(p.2, 30.0 + d.2, 1.0e-5));
    // without a turn
    let t = Transformation::new(v3(10.0, 20.0, 30.0), v4(0.0, 0.0, 0.0, 1.0));
    assert_eq!(t.transformed(&v3(1.0, 2.0, 3.0)), v3(11.0, 22.0, 33.0));
    assert_eq!(t.transform_direction(&v3(1.0, 2.0, 3.0)), v3(1.0, 2.0, 3.0));
}

#[test]
fn matrix_follows_every_change() {
    let mut t = Transformation::new(v3(0.0, 0.0, 0.0), v4(0.0, 0.0, 0.0, 1.0));
    assert_eq!(t.transformed(&v3(1.0, 2.0, 3.0)), v3(1.0, 2.0, 3.0));
    t.set_position(v3(5.0, 0.0, 0.0));
    assert_eq!(t.position(), v3(5.0, 0.0, 0.0));
    assert_eq!(t.transformed(&v3(1.0, 2.0, 3.0)), v3(6.0, 2.0, 3.0));
    // half a turn round the z axis
    t.set_quaternion(v4(0.0, 0.0, 1.0, 0.0));
    assert_eq!(t.quaternion(), v4(0.0, 0.0, 1.0, 0.0));
    assert_eq!(t.transformed(&v3(1.0, 2.0, 3.0)), v3(4.0, -2.0, 3.0));
    assert_eq!(t.transform_direction(&v3(1.0, 2.0, 3.0)), v3(-1.0, -2.0, 3.0));
    let before = t.affine_matrix();
    t.generate_affine_matrix();
    assert_eq!(t.affine_matrix(), before);
    t.set_scale(s(3.0));
    assert_eq!(t.scale(), s(3.0));
    assert_eq!(t.affine_matrix(), before);
}

//
// barycentric weights
//

#[test]
fn weights_at_the_corners() {
    let triangles = [
        (v3(10.0, 10.0, 1.0), v3(50.0, 12.0, 2.0), v3(30.0, 40.0, 3.0)),
        (v3(0.5, 0.25, 1.0), v3(700.0, 3.0, 1.0), v3(2.0, 599.0, 1.0)),
        (v3(-20.0, 5.0, 1.0), v3(30.0, -5.0, 1.0), v3(10.0, 100.0, 1.0)),
    ];
    for (a, b, c) in triangles {
        let at = |p: &Vector3| t3(Renderer::get_barycentric_coords(&a, &b, &c, p.x, p.y));
        for (p, expected) in [(&a, (1.0, 0.0, 0.0)), (&b, (0.0, 1.0, 0.0)), (&c, (0.0, 0.0, 1.0))] {
            let w = at(p);
            assert!(near(w.0, expected.0, 1.0e-5), "{:?}", w);
            assert!(near(w.1, expected.1, 1.0e-5), "{:?}", w);
            assert!(near(w.2, expected.2, 1.0e-5), "{:?}", w);
        }
    }
}

#[test]
fn weights_of_a_triangle_without_area_are_zero() {
    let (a, b, c) = (v3(1.0, 1.0, 1.0), v3(2.0, 2.0, 1.0), v3(3.0, 3.0, 1.0));
    assert_eq!(Renderer::get_barycentric_coords(&a, &b, &c, s(2.0), s(1.0)), v3(0.0, 0.0, 0.0));
    assert_eq!(Renderer::get_barycentric_coords(&a, &a, &a, s(2.0), s(1.0)), v3(0.0, 0.0, 0.0));
}

#[test]
fn stepped_weights_sum_to_one() {
    let (a, b, c) = (v3(10.3, 10.9, 1.0), v3(250.1, 32.7, 2.0), v3(130.4, 240.2, 3.0));
    let at = |x: f32, y: f32| Renderer::get_barycentric_coords(&a, &b, &c, s(x), s(y));
    let top_left = at(10.0, 10.0);
    let delta_x = at(11.0, 10.0).minus(&top_left);
    let delta_y = at(10.0, 11.0).minus(&top_left);
    let mut row = top_left;
    for y in 0..231 {
        let mut coords = row;
        for x in 0..241 {
            if x % 40 == 0 && y % 33 == 0 {
                let w = t3(coords);
                assert!(near(w.0 + w.1 + w.2, 1.0, 1.0e-3), "{} {}: {:?}", x, y, w);
                // and they are near the weights computed afresh
                let fresh = t3(at(10.0 + x as f32, 10.0 + y as f32));
                assert!(near(w.0, fresh.0, 1.0e-3) && near(w.1, fresh.1, 1.0e-3));
            }
            coords = coords.plus(&delta_x);
        }
        row = row.plus(&delta_y);
    }
}

#[test]
fn fresh_weights_sum_to_one_on_and_about_the_triangle() {
    let (a, b, c) = (v3(10.3, 10.9, 1.0), v3(250.1, 32.7, 2.0), v3(130.4, 240.2, 3.0));
    for y in (0..300).step_by(7) {
        for x in (0..300).step_by(11) {
            let w = t3(Renderer::get_barycentric_coords(&a, &b, &c, s(x as f32), s(y as f32)));
            if w.1.abs() <= 2.0 && w.2.abs() <= 2.0 {
                assert!(near(w.0 + w.1 + w.2, 1.0, 1.0e-6), "{} {}: {:?}", x, y, w);
            }
            if w.1.abs() <= 32.0 && w.2.abs() <= 32.0 {
                assert!(near(w.0 + w.1 + w.2, 1.0, 1.0e-5), "{} {}: {:?}", x, y, w);
            }
        }
    }
}

#[test]
fn fresh_weights_far_from_the_triangle_lose_the_one() {
    // the weight of corner b is a hundred million: one less that is the same number again
    let (a, b, c) = (v3(0.0, 0.0, 1.0), v3(1.0, 0.0, 1.0), v3(0.0, 1.0, 1.0));
    let w = t3(Renderer::get_barycentric_coords(&a, &b, &c, s(1.0e8), s(0.0)));
    assert_eq!(w, (-1.0e8, 1.0e8, 0.0));
    assert_eq!(w.0 + w.1 + w.2, 0.0);
}

#[test]
fn columns_of_a_rotation_multiply_to_one_or_nothing() {
    for q in quaternions() {
        // of unit length within one part in a million
        let parts = [f(q.x) as f64, f(q.y) as f64, f(q.z) as f64, f(q.w) as f64];
        let length: f64 = parts.iter().map(|p| p * p).sum();
        assert!((length - 1.0).abs() <= 1.0e-6, "{:?}", q);
        let m = Transformation::new(v3(3.0, -4.0, 5.0), q).affine_matrix();
        for i in 0..3u32 {
            for j in 0..3u32 {
                let mut product = 0.0f64;
                for k in 0..3u32 {
                    product += f(m.get(k, i)) as f64 * f(m.get(k, j)) as f64;
                }
                let target = if i == j { 1.0 } else { 0.0 };
                assert!((product - target).abs() <= 1.0e-5, "{} {}: {}", i, j, product);
            }
        }
        // and it turns without mirroring
        let e = |i: u32, j: u32| f(m.get(i, j)) as f64;
        let determinant = e(0, 0) * (e(1, 1) * e(2, 2) - e(2, 1) * e(1, 2))
            + e(1, 0) * (e(2, 1) * e(0, 2) - e(0, 1) * e(2, 2))
            + e(2, 0) * (e(0, 1) * e(1, 2) - e(1, 1) * e(0, 2));
        assert!((determinant - 1.0).abs() <= 1.0e-5, "{:?}: {}", q, determinant);
    }
}

//
// drawing
//

const WHITE: Color = Color(255, 255, 255);

fn touched(r: &Renderer) -> Vec<(u32, u32)> {
    let mut pixels = Vec::new();
    for y in 0..r.height() {
        for x in 0..r.width() {
            if r.depth(x, y).is_some() {
                pixels.push((x, y));
            }
        }
    }
    pixels
}

fn draw(r: &mut Renderer, a: (f32, f32, f32), b: (f32, f32, f32), c: (f32, f32, f32), color: Color) {
    let o = v2(0.0, 0.0);
    r.draw_triangle(
        &v3(a.0, a.1, a.2),
        &v3(b.0, b.1, b.2),
        &v3(c.0, c.1, c.2),
        &o,
        &o,
        &o,
        &Shader::Standard(StandardShader::new(color)),
        s(1.0),
    );
}

#[test]
fn triangle_covers_its_inside() {
    let mut r = Renderer::new(40, 30);
    draw(&mut r, (5.0, 5.0, 2.0), (30.0, 5.0, 2.0), (5.0, 25.0, 2.0), WHITE);
    let pixels = touched(&r);
    assert!(!pixels.is_empty());
    assert_eq!(r.pixel(10, 10), Some(WHITE));
    assert_eq!(r.pixel(6, 6), Some(WHITE));
    assert_eq!(r.pixel(28, 24), Some(Color(0, 0, 0)));
    assert_eq!(r.pixel(2, 2), Some(Color(0, 0, 0)));
    assert_eq!(r.pixel(35, 10), Some(Color(0, 0, 0)));
    for (x, y) in pixels {
        // inside the box, and on the triangle's side of the long edge
        assert!((5..=30).contains(&x) && (5..=25).contains(&y));
        assert!((x as f32 - 5.0) / 25.0 + (y as f32 - 5.0) / 20.0 <= 1.001);
        assert!(near(f(r.depth(x, y).unwrap()), 2.0, 1.0e-5));
    }
}

#[test]
fn depth_is_blended_from_the_corners() {
    let mut r = Renderer::new(40, 30);
    draw(&mut r, (0.0, 0.0, 1.0), (32.0, 0.0, 5.0), (0.0, 16.0, 9.0), WHITE);
    assert!(near(f(r.depth(0, 0).unwrap()), 1.0, 1.0e-5));
    let d = f(r.depth(8, 4).unwrap());
    // a quarter of the way to b and a quarter of the way to c
    assert!(near(d, 1.0 + 0.25 * 4.0 + 0.25 * 8.0, 1.0e-4), "{}", d);
}

#[test]
fn brightness_scales_the_colour() {
    let mut r = Renderer::new(8, 8);
    let o = v2(0.0, 0.0);
    r.draw_triangle(
        &v3(0.0, 0.0, 1.0),
        &v3(8.0, 0.0, 1.0),
        &v3(0.0, 8.0, 1.0),
        &o,
        &o,
        &o,
        &Shader::Standard(StandardShader::new(Color(200, 100, 50))),
        s(0.5),
    );
    assert_eq!(r.pixel(1, 1), Some(Color(100, 50, 25)));
}

#[test]
fn rasterizing_twice_into_cleared_frames_is_identical() {
    let mut first = Renderer::new(64, 48);
    let mut second = Renderer::new(64, 48);
    draw(&mut second, (0.0, 0.0, 0.5), (60.0, 3.0, 0.5), (3.0, 40.0, 0.5), Color(9, 9, 9));
    second.clear();
    for r in [&mut first, &mut second] {
        draw(r, (5.3, 5.9, 2.0), (50.1, 12.7, 3.0), (30.4, 40.2, 4.0), WHITE);
    }
    assert!(!touched(&first).is_empty());
    assert_eq!(touched(&first), touched(&second));
    assert_eq!(first.pixels(), second.pixels());
    for (x, y) in touched(&first) {
        assert_eq!(first.depth(x, y), second.depth(x, y));
    }
}

#[test]
fn nearer_triangle_wins_whatever_the_order() {
    let red = Color(255, 0, 0);
    let blue = Color(0, 0, 255);
    let near_one = ((5.0, 5.0, 2.0), (50.0, 5.0, 2.0), (5.0, 40.0, 2.0));
    let far_one = ((10.0, 0.0, 7.0), (60.0, 0.0, 7.0), (10.0, 45.0, 7.0));
    let mut first = Renderer::new(64, 48);
    draw(&mut first, near_one.0, near_one.1, near_one.2, red);
    let only_near = touched(&first);
    draw(&mut first, far_one.0, far_one.1, far_one.2, blue);
    let mut second = Renderer::new(64, 48);
    draw(&mut second, far_one.0, far_one.1, far_one.2, blue);
    let only_far = touched(&second);
    draw(&mut second, near_one.0, near_one.1, near_one.2, red);
    assert_eq!(first.pixels(), second.pixels());
    let mut overlap = 0;
    for p in &only_near {
        assert_eq!(first.pixel(p.0, p.1), Some(red));
        assert_eq!(second.pixel(p.0, p.1), Some(red));
        if only_far.contains(p) {
            overlap += 1;
        }
    }
    assert!(overlap > 100);
    for p in &only_far {
        if !only_near.contains(p) {
            assert_eq!(first.pixel(p.0, p.1), Some(blue));
        }
    }
}

#[test]
fn triangle_off_the_viewport_touches_nothing() {
    let mut r = Renderer::new(40, 30);
    draw(&mut r, (-50.0, 5.0, 2.0), (-10.0, 5.0, 2.0), (-30.0, 25.0, 2.0), WHITE);
    draw(&mut r, (45.0, 5.0, 2.0), (90.0, 5.0, 2.0), (45.0, 25.0, 2.0), WHITE);
    draw(&mut r, (5.0, 35.0, 2.0), (30.0, 35.0, 2.0), (5.0, 55.0, 2.0), WHITE);
    assert!(touched(&r).is_empty());
}

#[test]
fn triangle_behind_the_camera_touches_nothing() {
    let mut r = Renderer::new(40, 30);
    draw(&mut r, (5.0, 5.0, -2.0), (30.0, 5.0, -2.0), (5.0, 25.0, -2.0), WHITE);
    draw(&mut r, (5.0, 5.0, 0.0), (30.0, 5.0, 0.0), (5.0, 25.0, 0.0), WHITE);
    assert!(touched(&r).is_empty());
}

#[test]
fn wireframe_leaves_the_inside_black() {
    let mut r = Renderer::new(64, 64);
    let o = v2(0.0, 0.0);
    r.draw_triangle(
        &v3(0.0, 0.0, 1.0),
        &v3(60.0, 0.0, 1.0),
        &v3(0.0, 60.0, 1.0),
        &o,
        &o,
        &o,
        &Shader::Wireframe(WireframeShader::new(Color(0, 255, 0), s(0.1))),
        s(1.0),
    );
    assert_eq!(r.pixel(1, 20), Some(Color(0, 255, 0)));
    assert_eq!(r.pixel(20, 1), Some(Color(0, 255, 0)));
    assert_eq!(r.pixel(20, 20), Some(Color(0, 0, 0)));
    assert!(r.depth(20, 20).is_some());
}

//
// meshes
//

fn world_at(z: f32) -> World {
    World {
        camera: PerspectiveCamera::new(&v3(0.0, 0.0, z), s(800.0), s(600.0)),
        light: DirectionalLight::new(&v3(0.0, -1.0, 0.0), s(0.5)),
        ambient: s(0.2),
    }
}

fn cube() -> Mesh {
    let mut vertices = Vec::new();
    for i in 0..8 {
        vertices.push(v3(
            if i & 1 == 0 { -0.5 } else { 0.5 },
            if i & 2 == 0 { -0.5 } else { 0.5 },
            if i & 4 == 0 { -0.5 } else { 0.5 },
        ));
    }
    // two triangles to each side, wound the same way seen from outside
    let quads = [
        [0, 2, 3, 1],
        [4, 5, 7, 6],
        [0, 1, 5, 4],
        [2, 6, 7, 3],
        [0, 4, 6, 2],
        [1, 3, 7, 5],
    ];
    let mut faces = Vec::new();
    for q in quads {
        for (a, b, c) in [(q[0], q[1], q[2]), (q[0], q[2], q[3])] {
            let mut face = Face::new(a, b, c, 0, 0, 0);
            face.compute_normal(&vertices);
            faces.push(face);
        }
    }
    Mesh::new(vertices, faces, vec![v2(0.0, 0.0)])
}

fn extent(pixels: &[(u32, u32)]) -> (u32, u32, u32, u32) {
    let min_x = pixels.iter().map(|p| p.0).min().unwrap();
    let max_x = pixels.iter().map(|p| p.0).max().unwrap();
    let min_y = pixels.iter().map(|p| p.1).min().unwrap();
    let max_y = pixels.iter().map(|p| p.1).max().unwrap();
    (min_x, max_x, min_y, max_y)
}

#[test]
fn new_mesh_is_white_and_where_it_was_made() {
    let mesh = cube();
    assert!(mesh.is_valid());
    assert_eq!(mesh.transformation.position(), v3(0.0, 0.0, 0.0));
    assert_eq!(mesh.transformation.quaternion(), v4(0.0, 0.0, 0.0, 1.0));
    assert_eq!(mesh.transformation.scale(), s(1.0));
    assert!(matches!(mesh.shader, Shader::Standard(StandardShader { color: Color(255, 255, 255) })));
    let mut broken = cube();
    broken.faces.push(Face::new(0, 1, 8, 0, 0, 0));
    assert!(!broken.is_valid());
    let mut broken = cube();
    broken.faces.push(Face::new(0, 1, 2, 0, 1, 0));
    assert!(!broken.is_valid());
}

#[test]
fn cube_in_front_of_the_camera_shows_in_the_middle() {
    let mesh = cube();
    let mut r = Renderer::new(800, 600);
    mesh.draw(&mut r, &world_at(-10.0));
    let pixels = touched(&r);
    assert!(!pixels.is_empty());
    let (min_x, max_x, min_y, max_y) = extent(&pixels);
    // roughly centred, and neither a speck nor the whole canvas
    assert!(near((min_x + max_x) as f32 / 2.0, 400.0, 3.0), "{} {}", min_x, max_x);
    assert!(near((min_y + max_y) as f32 / 2.0, 300.0, 3.0), "{} {}", min_y, max_y);
    assert!(max_x - min_x > 20 && max_x - min_x < 700, "{} {}", min_x, max_x);
    assert!(max_y - min_y > 20 && max_y - min_y < 500, "{} {}", min_y, max_y);
    assert!(r.depth(400, 300).is_some());
    assert!(r.depth(10, 10).is_none());
    // the silhouette is that of the side towards the camera: its corners project to its corners
    let identity = Transformation::new(v3(0.0, 0.0, 0.0), v4(0.0, 0.0, 0.0, 1.0));
    let camera = PerspectiveCamera::new(&v3(0.0, 0.0, -10.0), s(800.0), s(600.0));
    let corner = t3(camera.to_ndc(camera.project_point(&v3(0.5, 0.5, -0.5), &identity)));
    let opposite = t3(camera.to_ndc(camera.project_point(&v3(-0.5, -0.5, -0.5), &identity)));
    assert!(near(corner.0.max(opposite.0), max_x as f32, 2.0), "{:?} {}", corner, max_x);
    assert!(near(corner.0.min(opposite.0), min_x as f32, 2.0), "{:?} {}", opposite, min_x);
    assert!(near(corner.1.max(opposite.1), max_y as f32, 2.0), "{:?} {}", corner, max_y);
    assert!(near(corner.1.min(opposite.1), min_y as f32, 2.0), "{:?} {}", opposite, min_y);
}

#[test]
fn cube_shrinks_as_the_camera_moves_away() {
    let mesh = cube();
    let mut sizes = Vec::new();
    for distance in [3.0f32, 10.0, 30.0, 100.0, 1000.0] {
        let mut r = Renderer::new(800, 600);
        mesh.draw(&mut r, &world_at(-distance));
        let pixels = touched(&r);
        if pixels.is_empty() {
            sizes.push((0, 0));
        } else {
            let (min_x, max_x, min_y, max_y) = extent(&pixels);
            sizes.push((max_x - min_x + 1, max_y - min_y + 1));
        }
    }
    for pair in sizes.windows(2) {
        assert!(pair[1].0 <= pair[0].0 && pair[1].1 <= pair[0].1, "{:?}", sizes);
    }
    assert!(sizes[1].0 > 10 * sizes[4].0, "{:?}", sizes);
    assert!(sizes[4].0 <= 4, "{:?}", sizes);
}

#[test]
fn cube_behind_the_camera_does_not_show() {
    let mesh = cube();
    let mut r = Renderer::new(800, 600);
    mesh.draw(&mut r, &world_at(10.0));
    assert!(touched(&r).is_empty());
}

#[test]
fn reversed_winding_is_culled_entirely() {
    let vertices = vec![v3(-1.0, -1.0, 0.0), v3(1.0, -1.0, 0.0), v3(0.0, 1.0, 0.0)];
    let uvs = vec![v2(0.0, 0.0)];
    let one_way = Mesh::new(vertices.clone(), vec![Face::new(0, 1, 2, 0, 0, 0)], uvs.clone());
    let other_way = Mesh::new(vertices, vec![Face::new(0, 2, 1, 0, 0, 0)], uvs);
    let mut first = Renderer::new(200, 150);
    one_way.draw(&mut first, &world_at(-5.0));
    let mut second = Renderer::new(200, 150);
    other_way.draw(&mut second, &world_at(-5.0));
    let (a, b) = (touched(&first).len(), touched(&second).len());
    assert!(a == 0 || b == 0, "{} {}", a, b);
    assert!(a > 100 || b > 100, "{} {}", a, b);
}

#[test]
fn mesh_follows_its_transformation() {
    let mut mesh = cube();
    mesh.transformation.set_position(v3(0.75, -0.25, 0.0));
    let world = world_at(-10.0);
    let mut r = Renderer::new(800, 600);
    mesh.draw(&mut r, &world);
    let (min_x, max_x, min_y, max_y) = extent(&touched(&r));
    let identity = Transformation::new(v3(0.0, 0.0, 0.0), v4(0.0, 0.0, 0.0, 1.0));
    let centre = t3(world.camera.to_ndc(world.camera.project_point(&v3(0.75, -0.25, -0.5), &identity)));
    assert!(near((min_x + max_x) as f32 / 2.0, centre.0, 12.0), "{} {} {:?}", min_x, max_x, centre);
    assert!(near((min_y + max_y) as f32 / 2.0, centre.1, 12.0), "{} {} {:?}", min_y, max_y, centre);
    assert!(!near(centre.0, 400.0, 50.0) && !near(centre.1, 300.0, 20.0), "{:?}", centre);
}

#[test]
fn camera_follows_every_change() {
    let mut camera = PerspectiveCamera::new(&v3(0.0, 0.0, -10.0), s(800.0), s(600.0));
    let identity = Transformation::new(v3(0.0, 0.0, 0.0), v4(0.0, 0.0, 0.0, 1.0));
    let centre = camera.to_ndc(camera.project_point(&v3(0.0, 0.0, 0.0), &identity));
    assert_eq!((f(centre.x), f(centre.y)), (400.0, 300.0));
    assert!(f(centre.z) > 0.0);
    camera.set_size(s(400.0), s(200.0));
    assert_eq!(camera.size(), v2(400.0, 200.0));
    let centre = camera.to_ndc(camera.project_point(&v3(0.0, 0.0, 0.0), &identity));
    assert_eq!((f(centre.x), f(centre.y)), (200.0, 100.0));
    let before = camera.projection_matrix();
    camera.generate_projection_matrix();
    assert_eq!(camera.projection_matrix(), before);
    assert_eq!(f(before.get(0, 0)), 1.0 / (1.0 * (400.0 / 200.0)));
    camera.set_fov_tangent(s(0.5));
    assert_eq!(f(camera.projection_matrix().get(1, 1)), 2.0);
    camera.set_depth_range(s(1.0), s(11.0));
    assert_eq!(f(camera.projection_matrix().get(2, 2)), -11.0 / 10.0);
    assert_eq!(f(camera.projection_matrix().get(3, 2)), -11.0 * 1.0 / 10.0);
    camera.set_position(v3(1.0, 2.0, 3.0));
    assert_eq!(camera.position(), v3(1.0, 2.0, 3.0));
    // behind the camera the depth is not positive
    let behind = camera.project_point(&v3(1.0, 2.0, -30.0), &identity);
    assert!(!(f(behind.z) > 0.0));
}

//
// the whole pipeline against the same formulas on the processor
//

fn barycentric_on_the_processor(
    a: (f32, f32, f32),
    b: (f32, f32, f32),
    c: (f32, f32, f32),
    p_x: f32,
    p_y: f32,
) -> (f32, f32, f32) {
    let dca = (c.0 - a.0, c.1 - a.1);
    let dpa = (p_x - a.0, p_y - a.1);
    let dba = (b.0 - a.0, b.1 - a.1);
    let det = dba.0 * dca.1 - dca.0 * dba.1;
    if det == 0. {
        return (0., 0., 0.);
    }
    let deti = 1. / det;
    let v = (dpa.0 * dca.1 - dpa.1 * dca.0) * deti;
    let w = (dpa.1 * dba.0 - dpa.0 * dba.1) * deti;
    (1. - v - w, v, w)
}

// depth and colour of every pixel, as the processor computes them
fn draw_on_the_processor(
    width: usize,
    height: usize,
    a: (f32, f32, f32),
    b: (f32, f32, f32),
    c: (f32, f32, f32),
    color: Color,
    brightness: f32,
    frame: &mut Vec<(f32, Color)>,
) {
    let lowest = |x: f32, y: f32, z: f32| (x as i32).min(y as i32).min(z as i32);
    let highest = |x: f32, y: f32, z: f32| (x as i32).max(y as i32).max(z as i32);
    let min_x = lowest(a.0, b.0, c.0).max(0);
    let max_x = highest(a.0, b.0, c.0).min(width as i32 - 1);
    let min_y = lowest(a.1, b.1, c.1).max(0);
    let max_y = highest(a.1, b.1, c.1).min(height as i32 - 1);
    let sub = |p: (f32, f32, f32), q: (f32, f32, f32)| (p.0 - q.0, p.1 - q.1, p.2 - q.2);
    let add = |p: (f32, f32, f32), q: (f32, f32, f32)| (p.0 + q.0, p.1 + q.1, p.2 + q.2);
    let top_left = barycentric_on_the_processor(a, b, c, min_x as f32, min_y as f32);
    let delta_x = sub(barycentric_on_the_processor(a, b, c, (min_x + 1) as f32, min_y as f32), top_left);
    let delta_y = sub(barycentric_on_the_processor(a, b, c, min_x as f32, (min_y + 1) as f32), top_left);
    let mut row = top_left;
    for y in min_y..=max_y {
        let mut w = row;
        for x in min_x..=max_x {
            if w.0 >= 0. && w.1 >= 0. && w.2 >= 0. && w.0 + w.1 + w.2 >= 0.99 {
                let depth = w.0 * a.2 + w.1 * b.2 + w.2 * c.2;
                let entry = &mut frame[y as usize * width + x as usize];
                if depth > 0. && (entry.0 == 0. || depth < entry.0) {
                    *entry = (
                        depth,
                        Color(
                            (color.0 as f32 * brightness) as u8,
                            (color.1 as f32 * brightness) as u8,
                            (color.2 as f32 * brightness) as u8,
                        ),
                    );
                }
            }
            w = add(w, delta_x);
        }
        row = add(row, delta_y);
    }
}

#[test]
fn draw_triangle_agrees_with_the_processor() {
    let mut rng: u64 = 99;
    let mut next = move || {
        rng = rng.wrapping_mul(6364136223846793005).wrapping_add(1442695040888963407);
        ((rng >> 33) % 100000) as f32 / 1000.0
    };
    let (width, height) = (96usize, 64usize);
    let mut touched_pixels = 0;
    for round in 0..30 {
        let mut r = Renderer::new(width as u32, height as u32);
        let mut frame = vec![(0.0f32, Color(0, 0, 0)); width * height];
        for k in 0..4u8 {
            let corner = |n: &mut dyn FnMut() -> f32| (n() * 1.2 - 10.0, n() * 0.9 - 10.0, n() / 10.0 - 1.0);
            let (a, b, c) = (corner(&mut next), corner(&mut next), corner(&mut next));
            let color = Color(40 * k + 30, 200 - 30 * k, 17 * k);
            let brightness = next() / 80.0;
            draw_on_the_processor(width, height, a, b, c, color, brightness, &mut frame);
            let o = v2(0.0, 0.0);
            r.draw_triangle(
                &v3(a.0, a.1, a.2),
                &v3(b.0, b.1, b.2),
                &v3(c.0, c.1, c.2),
                &o,
                &o,
                &o,
                &Shader::Standard(StandardShader::new(color)),
                s(brightness),
            );
        }
        for y in 0..height {
            for x in 0..width {
                let (depth, color) = frame[y * width + x];
                assert_eq!(r.pixel(x as u32, y as u32), Some(color), "{} {} {}", round, x, y);
                match r.depth(x as u32, y as u32) {
                    Some(d) => {
                        assert_eq!(d.to_bits(), depth.to_bits(), "{} {} {}", round, x, y);
                        touched_pixels += 1;
                    }
                    None => assert_eq!(depth, 0.0),
                }
            }
        }
    }
    assert!(touched_pixels > 1000, "{}", touched_pixels);
}

#[test]
fn matrices_agree_with_the_processor() {
    for q in quaternions() {
        let (x, y, z, w) = (f(q.x), f(q.y), f(q.z), f(q.w));
        let expected = [
            1. - (2. * y.powi(2) + 2. * z.powi(2)),
            2. * x * y + 2. * z * w,
            2. * x * z - 2. * y * w,
            0.,
            2. * x * y - 2. * w * z,
            1. - (2. * x.powi(2) + 2. * z.powi(2)),
            2. * y * z + 2. * w * x,
            0.,
            2. * x * z + 2. * w * y,
            2. * y * z - 2. * w * x,
            1. - (2. * x.powi(2) + 2. * y.powi(2)),
            0.,
            0.25,
            -7.5,
            3.0,
            1.,
        ];
        let m = Transformation::new(v3(0.25, -7.5, 3.0), q).affine_matrix();
        for (i, e) in expected.iter().enumerate() {
            assert_eq!(f(m.data[i]).to_bits(), e.to_bits(), "{}", i);
        }
    }
    let mut camera = PerspectiveCamera::new(&v3(0.0, 0.0, -20.0), s(800.0), s(600.0));
    let tangent = (std::f32::consts::PI / 2. / 2.).tan();
    camera.set_fov_tangent(s(tangent));
    let (z_near, z_far, aspect) = (0.1f32, 100.0f32, 800.0f32 / 600.0);
    let expected = [
        1. / (tangent * aspect),
        0.,
        0.,
        0.,
        0.,
        1. / tangent,
        0.,
        0.,
        0.,
        0.,
        -z_far / (z_far - z_near),
        1.,
        0.,
        0.,
        -z_far * z_near / (z_far - z_near),
        0.,
    ];
    let m = camera.projection_matrix();
    for (i, e) in expected.iter().enumerate() {
        assert_eq!(f(m.data[i]).to_bits(), e.to_bits(), "{}", i);
    }
}
