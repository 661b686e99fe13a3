use rasterizer::camera::PerspectiveCamera;
use rasterizer::graphics::{is_inside, Color, Event, Fragment, PixelBox, Renderer};
use rasterizer::math::{Vector2, Vector3};
use rasterizer::scalar::Scalar;

fn camera() -> PerspectiveCamera {
    PerspectiveCamera::new(&corner(0.0, 0.0), depth(2.0), depth(2.0))
}

fn corner(x: f32, y: f32) -> Vector3 {
    Vector3::new(depth(x), depth(y), depth(1.0))
}

fn bounds(r: &Renderer, a: (f32, f32), b: (f32, f32), c: (f32, f32)) -> PixelBox {
    r.bounding_box(&corner(a.0, a.1), &corner(b.0, b.1), &corner(c.0, c.1))
}

fn depth(x: f32) -> Scalar {
    Scalar::from_bits(x.to_bits())
}

fn fragment(x: i32, y: i32, d: f32, color: Color) -> Fragment {
    Fragment { x, y, depth: depth(d), color }
}

const RED: Color = Color(255, 0, 0);
const GREEN: Color = Color(0, 255, 0);
const BLUE: Color = Color(0, 0, 255);

#[test]
fn new_renderer_is_running_and_black() {
    let r = Renderer::new(4, 3);
    assert!(r.is_running());
    assert_eq!(r.width(), 4);
    assert_eq!(r.height(), 3);
    assert_eq!(r.clear_color(), Color(0, 0, 0));
    assert_eq!(r.pixels().len(), 12);
    for y in 0..3 {
        for x in 0..4 {
            assert_eq!(r.pixel(x, y), Some(Color(0, 0, 0)));
            assert_eq!(r.depth(x, y), None);
        }
    }
    assert_eq!(r.pixel(4, 0), None);
    assert_eq!(r.pixel(0, 3), None);
}

#[test]
fn empty_viewport_takes_nothing() {
    let mut r = Renderer::new(0, 5);
    assert_eq!(r.pixels().len(), 0);
    assert!(!r.plot(fragment(0, 0, 1.0, RED)));
    assert!(bounds(&r, (0.0, 0.0), (3.0, 3.0), (0.0, 3.0)).is_empty());
}

#[test]
fn clear_fills_with_the_clear_color() {
    let mut r = Renderer::new(3, 2);
    assert!(r.plot(fragment(1, 1, 2.0, RED)));
    r.set_clear_color(Color(1, 2, 3));
    assert_eq!(r.pixel(1, 1), Some(RED));
    assert_eq!(r.pixel(0, 0), Some(Color(0, 0, 0)));
    r.clear();
    for y in 0..2 {
        for x in 0..3 {
            assert_eq!(r.pixel(x, y), Some(Color(1, 2, 3)));
            assert_eq!(r.depth(x, y), None);
        }
    }
}

#[test]
fn plot_writes_colour_and_depth_row_by_row() {
    let mut r = Renderer::new(4, 3);
    assert!(r.plot(fragment(2, 1, 5.0, GREEN)));
    assert_eq!(r.pixel(2, 1), Some(GREEN));
    assert_eq!(r.depth(2, 1), Some(depth(5.0)));
    let pixels = r.pixels();
    for (i, c) in pixels.iter().enumerate() {
        if i == 1 * 4 + 2 {
            assert_eq!(*c, GREEN);
        } else {
            assert_eq!(*c, Color(0, 0, 0));
        }
    }
}

#[test]
fn plot_skips_what_lies_off_the_viewport() {
    let mut r = Renderer::new(4, 3);
    assert!(!r.plot(fragment(-1, 0, 1.0, RED)));
    assert!(!r.plot(fragment(0, -1, 1.0, RED)));
    assert!(!r.plot(fragment(4, 0, 1.0, RED)));
    assert!(!r.plot(fragment(0, 3, 1.0, RED)));
    assert!(!r.plot(fragment(i32::MAX, i32::MAX, 1.0, RED)));
    assert!(!r.plot(fragment(i32::MIN, i32::MIN, 1.0, RED)));
    for c in r.pixels() {
        assert_eq!(*c, Color(0, 0, 0));
    }
}

#[test]
fn plot_rejects_depths_that_are_not_positive() {
    let mut r = Renderer::new(2, 2);
    assert!(!r.plot(fragment(0, 0, 0.0, RED)));
    assert!(!r.plot(fragment(0, 0, -0.0, RED)));
    assert!(!r.plot(fragment(0, 0, -1.0, RED)));
    assert!(!r.plot(fragment(0, 0, f32::NAN, RED)));
    assert!(!r.plot(fragment(0, 0, f32::NEG_INFINITY, RED)));
    assert_eq!(r.pixel(0, 0), Some(Color(0, 0, 0)));
    assert_eq!(r.depth(0, 0), None);
    assert!(r.plot(fragment(0, 0, f32::INFINITY, RED)));
    assert!(r.plot(fragment(0, 0, 1.0e-45, GREEN)));
    assert_eq!(r.pixel(0, 0), Some(GREEN));
}

#[test]
fn nearer_fragment_replaces_farther() {
    let mut r = Renderer::new(2, 2);
    assert!(r.plot(fragment(1, 0, 7.0, RED)));
    assert!(r.plot(fragment(1, 0, 3.0, GREEN)));
    assert_eq!(r.pixel(1, 0), Some(GREEN));
    assert_eq!(r.depth(1, 0), Some(depth(3.0)));
}

#[test]
fn farther_fragment_is_dropped() {
    let mut r = Renderer::new(2, 2);
    assert!(r.plot(fragment(1, 0, 3.0, GREEN)));
    assert!(!r.plot(fragment(1, 0, 7.0, RED)));
    assert_eq!(r.pixel(1, 0), Some(GREEN));
    assert_eq!(r.depth(1, 0), Some(depth(3.0)));
}

#[test]
fn equal_depth_keeps_the_first() {
    let mut r = Renderer::new(2, 2);
    assert!(r.plot(fragment(0, 1, 3.0, GREEN)));
    assert!(!r.plot(fragment(0, 1, 3.0, RED)));
    assert_eq!(r.pixel(0, 1), Some(GREEN));
}

#[test]
fn accepts_says_what_plot_would_do() {
    let mut r = Renderer::new(2, 2);
    let near = fragment(0, 0, 1.0, RED);
    let far = fragment(0, 0, 2.0, GREEN);
    assert!(r.accepts(&far));
    assert!(r.plot(far));
    assert!(!r.accepts(&far));
    assert!(r.accepts(&near));
    assert!(!r.accepts(&fragment(2, 0, 1.0, RED)));
    assert!(!r.accepts(&fragment(0, 0, -1.0, RED)));
    assert_eq!(r.pixel(0, 0), Some(GREEN));
}

fn overlapping_triangles() -> (Vec<Fragment>, Vec<Fragment>) {
    let mut near = Vec::new();
    let mut far = Vec::new();
    for y in 0..6 {
        for x in 0..6 {
            if x + y < 6 {
                near.push(fragment(x, y, 2.0 + 0.125 * (x as f32), RED));
            }
            if x >= 2 && y >= 1 {
                far.push(fragment(x, y, 9.0 - 0.5 * (y as f32), BLUE));
            }
        }
    }
    (near, far)
}

#[test]
fn nearer_triangle_wins_in_either_order() {
    let (near, far) = overlapping_triangles();
    let mut first = Renderer::new(8, 8);
    first.draw_fragments(&near);
    first.draw_fragments(&far);
    let mut second = Renderer::new(8, 8);
    second.draw_fragments(&far);
    second.draw_fragments(&near);
    assert_eq!(first.pixels(), second.pixels());
    let mut overlap = 0;
    for y in 0..8u32 {
        for x in 0..8u32 {
            assert_eq!(first.depth(x, y), second.depth(x, y));
            let in_near = x + y < 6 && x < 6 && y < 6;
            let in_far = x >= 2 && y >= 1 && x < 6 && y < 6;
            let expected = if in_near {
                RED
            } else if in_far {
                BLUE
            } else {
                Color(0, 0, 0)
            };
            assert_eq!(first.pixel(x, y), Some(expected));
            if in_near && in_far {
                overlap += 1;
            }
        }
    }
    assert!(overlap > 0);
}

#[test]
fn drawing_twice_into_cleared_frames_is_identical() {
    let (near, far) = overlapping_triangles();
    let mut first = Renderer::new(8, 8);
    first.set_clear_color(Color(9, 9, 9));
    first.clear();
    let wrote_near = first.draw_fragments(&near);
    let wrote_far = first.draw_fragments(&far);
    let mut second = Renderer::new(8, 8);
    second.plot(fragment(3, 3, 0.5, GREEN));
    second.set_clear_color(Color(9, 9, 9));
    second.clear();
    assert_eq!(second.draw_fragments(&near), wrote_near);
    assert_eq!(second.draw_fragments(&far), wrote_far);
    assert_eq!(first.pixels(), second.pixels());
    for y in 0..8 {
        for x in 0..8 {
            assert_eq!(first.depth(x, y), second.depth(x, y));
        }
    }
}

#[test]
fn draw_fragments_counts_what_it_wrote() {
    let mut r = Renderer::new(3, 3);
    let fragments = vec![
        fragment(0, 0, 2.0, RED),
        fragment(0, 0, 3.0, GREEN),
        fragment(0, 0, 1.0, BLUE),
        fragment(5, 5, 1.0, BLUE),
        fragment(1, 1, -1.0, BLUE),
        fragment(2, 2, 1.0, GREEN),
    ];
    assert_eq!(r.draw_fragments(&fragments), 3);
    assert_eq!(r.pixel(0, 0), Some(BLUE));
    assert_eq!(r.pixel(1, 1), Some(Color(0, 0, 0)));
    assert_eq!(r.pixel(2, 2), Some(GREEN));
    assert_eq!(r.draw_fragments(&[]), 0);
}

#[test]
fn bounding_box_is_the_extent_cut_to_the_viewport() {
    let r = Renderer::new(800, 600);
    assert_eq!(
        bounds(&r, (10.0, 20.0), (30.0, 5.0), (25.0, 40.0)),
        PixelBox { min_x: 10, max_x: 30, min_y: 5, max_y: 40 }
    );
    assert_eq!(
        bounds(&r, (10.9, 20.5), (30.99, 5.01), (25.0, 40.7)),
        PixelBox { min_x: 10, max_x: 30, min_y: 5, max_y: 40 }
    );
    assert_eq!(
        bounds(&r, (-10.0, -20.0), (900.0, 5.0), (25.0, 700.0)),
        PixelBox { min_x: 0, max_x: 799, min_y: 0, max_y: 599 }
    );
    assert_eq!(
        bounds(&r, (799.5, 599.5), (799.0, 599.0), (799.9, 599.9)),
        PixelBox { min_x: 799, max_x: 799, min_y: 599, max_y: 599 }
    );
    assert!(!bounds(&r, (799.5, 599.5), (799.0, 599.0), (799.9, 599.9)).is_empty());
    assert_eq!(
        bounds(&r, (-1.0e30, f32::NEG_INFINITY), (1.0e30, f32::INFINITY), (0.0, 0.0)),
        PixelBox { min_x: 0, max_x: 799, min_y: 0, max_y: 599 }
    );
    // what is no number falls on pixel 0
    assert_eq!(
        bounds(&r, (f32::NAN, f32::NAN), (5.0, 7.0), (3.0, 4.0)),
        PixelBox { min_x: 0, max_x: 5, min_y: 0, max_y: 7 }
    );
}

#[test]
fn bounding_box_of_an_offscreen_triangle_is_empty() {
    let r = Renderer::new(800, 600);
    assert!(bounds(&r, (-30.0, 10.0), (-20.0, 20.0), (-10.0, 15.0)).is_empty());
    assert!(bounds(&r, (800.0, 10.0), (810.0, 20.0), (805.0, 15.0)).is_empty());
    assert!(bounds(&r, (10.0, -30.0), (20.0, -20.0), (15.0, -1.0)).is_empty());
    assert!(bounds(&r, (10.0, 600.0), (20.0, 620.0), (15.0, 610.0)).is_empty());
    assert_eq!(
        bounds(&r, (800.0, 10.0), (810.0, 20.0), (805.0, 15.0)),
        PixelBox { min_x: 800, max_x: 799, min_y: 10, max_y: 20 }
    );
}

#[test]
fn quit_stops_the_renderer() {
    let mut r = Renderer::new(2, 2);
    r.update(&[]);
    assert!(r.is_running());
    r.update(&[Event::Other, Event::Resized(5, 5)]);
    assert!(r.is_running());
    assert_eq!(r.width(), 2);
    r.update(&[Event::Other, Event::Quit, Event::Other]);
    assert!(!r.is_running());
    r.update(&[Event::Other]);
    assert!(!r.is_running());
    r.clear();
    assert!(!r.is_running());
}

#[test]
fn auto_resize_follows_the_last_resize() {
    let mut r = Renderer::new(2, 2);
    let mut c = camera();
    r.set_clear_color(Color(4, 5, 6));
    assert!(r.plot(fragment(0, 0, 1.0, RED)));
    assert_eq!(r.auto_resize(&[Event::Other, Event::Quit], &mut c), None);
    assert_eq!(r.width(), 2);
    assert_eq!(r.pixel(0, 0), Some(RED));
    assert!(r.is_running());
    assert_eq!(c.size(), Vector2::new(depth(2.0), depth(2.0)));
    let events = [Event::Resized(7, 9), Event::Other, Event::Resized(3, 4), Event::Quit];
    assert_eq!(r.auto_resize(&events, &mut c), Some((3, 4)));
    assert_eq!(r.width(), 3);
    assert_eq!(r.height(), 4);
    assert_eq!(r.pixels().len(), 12);
    assert_eq!(r.clear_color(), Color(4, 5, 6));
    for c in r.pixels() {
        assert_eq!(*c, Color(4, 5, 6));
    }
    assert_eq!(r.depth(0, 0), None);
    assert!(r.plot(fragment(2, 3, 1.0, RED)));
    // the camera has the new size, and its matrix the new aspect
    assert_eq!(c.size(), Vector2::new(depth(3.0), depth(4.0)));
    assert_eq!(c.projection_matrix().get(0, 0), depth(1.0 / (1.0 * (3.0 / 4.0))));
}

#[test]
fn resize_starts_a_frame_of_the_new_size() {
    let mut r = Renderer::new(2, 2);
    assert!(r.plot(fragment(1, 1, 1.0, RED)));
    r.update(&[Event::Quit]);
    r.resize(5, 1);
    assert_eq!(r.width(), 5);
    assert_eq!(r.height(), 1);
    assert!(!r.is_running());
    assert_eq!(r.pixels().len(), 5);
    assert_eq!(r.pixel(1, 1), None);
    assert_eq!(r.pixel(4, 0), Some(Color(0, 0, 0)));
}

#[test]
fn inside_needs_weights_from_zero_up_and_a_sum_near_one() {
    let inside = |u: f32, v: f32, w: f32| is_inside(&Vector3::new(depth(u), depth(v), depth(w)));
    assert!(inside(0.2, 0.3, 0.5));
    assert!(inside(1.0, 0.0, 0.0));
    assert!(inside(1.0, -0.0, 0.0));
    assert!(inside(0.5, 0.25, 0.24));
    assert!(!inside(0.5, 0.25, 0.23));
    assert!(!inside(0.0, 0.0, 0.0));
    assert!(!inside(-0.1, 0.6, 0.5));
    assert!(!inside(0.6, -0.1, 0.5));
    assert!(!inside(0.6, 0.5, -0.1));
    assert!(!inside(f32::NAN, 0.5, 0.5));
    assert!(!inside(0.5, 0.5, f32::NAN));
}
