use rasterizer::math::Vector3;
use rasterizer::mesh::{is_front_facing, Face};
use rasterizer::scalar::Scalar;

fn s(x: f32) -> Scalar {
    Scalar::from_bits(x.to_bits())
}

fn v3(x: f32, y: f32, z: f32) -> Vector3 {
    Vector3::new(s(x), s(y), s(z))
}

#[test]
fn face_keeps_its_indices() {
    let f = Face::new(1, 2, 3, 4, 5, 6);
    assert_eq!((f.a, f.b, f.c, f.uva, f.uvb, f.uvc), (1, 2, 3, 4, 5, 6));
    assert_eq!(f.normal, v3(0.0, 0.0, 0.0));
}

#[test]
fn face_must_point_into_the_arrays() {
    let f = Face::new(0, 1, 2, 3, 4, 5);
    assert!(f.is_within(3, 6));
    assert!(!f.is_within(2, 6));
    assert!(!f.is_within(3, 5));
    assert!(!f.is_within(0, 0));
    assert!(!Face::new(3, 0, 0, 0, 0, 0).is_within(3, 1));
    assert!(!Face::new(0, 3, 0, 0, 0, 0).is_within(3, 1));
    assert!(!Face::new(0, 0, 0, 1, 0, 0).is_within(3, 1));
    assert!(!Face::new(0, 0, 0, 0, 1, 0).is_within(3, 1));
    assert!(Face::new(2, 2, 2, 0, 0, 0).is_within(3, 1));
}

#[test]
fn normal_is_the_unit_cross_product_of_two_edges() {
    let vertices = [v3(0.0, 0.0, 0.0), v3(2.0, 0.0, 0.0), v3(0.0, 3.0, 0.0)];
    let mut f = Face::new(0, 1, 2, 0, 0, 0);
    f.compute_normal(&vertices);
    // (a - b) x (b - c) = (-2, 0, 0) x (2, -3, 0) = (0, 0, 6)
    assert_eq!(f.normal, v3(0.0, 0.0, 1.0));
    let mut back = Face::new(0, 2, 1, 0, 0, 0);
    back.compute_normal(&vertices);
    assert_eq!(back.normal, v3(-0.0, -0.0, -1.0));
    assert_eq!((f.a, f.b, f.c), (0, 1, 2));
}

#[test]
fn normal_of_a_triangle_without_area_is_zero() {
    let vertices = [v3(1.0, 1.0, 1.0), v3(2.0, 2.0, 2.0), v3(3.0, 3.0, 3.0)];
    let mut f = Face::new(0, 1, 2, 0, 0, 0);
    f.compute_normal(&vertices);
    assert_eq!(f.normal, v3(0.0, 0.0, 0.0));
    let mut point = Face::new(0, 0, 0, 0, 0, 0);
    point.compute_normal(&vertices);
    assert_eq!(point.normal, v3(0.0, 0.0, 0.0));
}

fn signed_area(a: (f32, f32), b: (f32, f32), c: (f32, f32)) -> f32 {
    (b.0 - a.0) * (c.1 - a.1) - (c.0 - a.0) * (b.1 - a.1)
}

#[test]
fn reversed_winding_is_culled() {
    let corners = [
        ((10.0, 10.0), (50.0, 12.0), (30.0, 40.0)),
        ((0.5, 0.25), (700.0, 3.0), (2.0, 599.0)),
        ((-20.0, 5.0), (30.0, -5.0), (10.0, 100.0)),
    ];
    for (a, b, c) in corners {
        let area = signed_area(a, b, c);
        let back = signed_area(a, c, b);
        assert!(area > 0.0);
        assert!(is_front_facing(s(area)));
        assert!(!is_front_facing(s(back)));
        assert!(!is_front_facing(s(area).negated()));
    }
}

#[test]
fn degenerate_triangles_are_culled() {
    assert!(!is_front_facing(s(0.0)));
    assert!(!is_front_facing(s(-0.0)));
    assert!(!is_front_facing(s(f32::NAN)));
    assert!(!is_front_facing(s(signed_area((1.0, 1.0), (2.0, 2.0), (3.0, 3.0)))));
    assert!(is_front_facing(s(1.0e-30)));
}
