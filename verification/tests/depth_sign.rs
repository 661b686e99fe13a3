use rasterizer::camera::corrected_depth;
use rasterizer::graphics::{addressable, Color, Fragment, Renderer, COVERAGE_FLOOR_BITS};
use rasterizer::scalar::Scalar;

fn s(x: f32) -> Scalar {
    Scalar::from_bits(x.to_bits())
}

fn flipped(depth: f32, camera_z: f32) -> f32 {
    let mut projected = depth;
    if camera_z < 0. {
        projected *= -1.;
    }
    projected
}

#[test]
fn depth_keeps_its_sign_in_front_of_the_camera() {
    assert_eq!(corrected_depth(s(9.5), s(3.0)), s(9.5));
    assert_eq!(corrected_depth(s(-9.5), s(3.0)), s(-9.5));
    assert_eq!(corrected_depth(s(9.5), s(0.0)), s(9.5));
    assert_eq!(corrected_depth(s(9.5), s(-0.0)), s(9.5));
    assert_eq!(corrected_depth(s(9.5), s(f32::NAN)), s(9.5));
    assert_eq!(corrected_depth(s(9.5), s(f32::INFINITY)), s(9.5));
}

#[test]
fn depth_changes_its_sign_behind_the_camera() {
    assert_eq!(corrected_depth(s(9.5), s(-3.0)), s(-9.5));
    assert_eq!(corrected_depth(s(-9.5), s(-3.0)), s(9.5));
    assert_eq!(corrected_depth(s(0.0), s(-1.0e-30)), s(-0.0));
    assert_eq!(corrected_depth(s(f32::INFINITY), s(f32::NEG_INFINITY)), s(f32::NEG_INFINITY));
}

#[test]
fn corrected_depth_agrees_with_the_numbers() {
    let values = [-50.0f32, -1.0, -0.0, 0.0, 1.0e-20, 0.25, 1.0, 10.1, 99.0, f32::INFINITY];
    for depth in values {
        for camera_z in values {
            assert_eq!(
                corrected_depth(s(depth), s(camera_z)).to_bits(),
                flipped(depth, camera_z).to_bits(),
                "{} {}",
                depth,
                camera_z
            );
        }
    }
}

#[test]
fn what_lies_behind_the_camera_is_not_drawn() {
    let mut r = Renderer::new(2, 2);
    let seen = corrected_depth(s(10.1), s(-5.0));
    assert!(!r.plot(Fragment { x: 0, y: 0, depth: seen, color: Color(9, 9, 9) }));
    assert_eq!(r.pixel(0, 0), Some(Color(0, 0, 0)));
    let seen = corrected_depth(s(10.1), s(5.0));
    assert!(r.plot(Fragment { x: 0, y: 0, depth: seen, color: Color(9, 9, 9) }));
    assert_eq!(r.pixel(0, 0), Some(Color(9, 9, 9)));
}

#[test]
fn any_surface_of_this_machine_is_addressable() {
    assert!(addressable(0, 0));
    assert!(addressable(800, 600));
    assert!(addressable(1, u32::MAX));
    assert_eq!(
        addressable(u32::MAX, u32::MAX),
        (u32::MAX as u128) * (u32::MAX as u128) <= usize::MAX as u128
    );
}

#[test]
fn coverage_floor_is_ninety_nine_percent() {
    assert_eq!(COVERAGE_FLOOR_BITS, 0.99f32.to_bits());
}
