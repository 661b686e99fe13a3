use rasterizer::camera::PerspectiveCamera;
use rasterizer::graphics::Color;
use rasterizer::math::{Vector2, Vector3};
use rasterizer::scalar::Scalar;
use rasterizer::shaders::{
    colors_from_rgb, default_lighting, Shader, StandardShader, TextureShader, WireframeShader,
};
use rasterizer::world::{DirectionalLight, World};

fn s(x: f32) -> Scalar {
    Scalar::from_bits(x.to_bits())
}

fn f(x: Scalar) -> f32 {
    f32::from_bits(x.to_bits())
}

fn weights(u: f32, v: f32, w: f32) -> Vector3 {
    Vector3::new(s(u), s(v), s(w))
}

fn uv(x: f32, y: f32) -> Vector2 {
    Vector2::new(s(x), s(y))
}

fn world(direction: (f32, f32, f32), intensity: f32, ambient: f32) -> World {
    World {
        camera: PerspectiveCamera::new(&weights(0.0, 0.0, -20.0), s(800.0), s(600.0)),
        light: DirectionalLight::new(&weights(direction.0, direction.1, direction.2), s(intensity)),
        ambient: s(ambient),
    }
}

const PNG_2X2: [u8; 76] = [
    137, 80, 78, 71, 13, 10, 26, 10, 0, 0, 0, 13, 73, 72, 68, 82, 0, 0, 0, 2, 0, 0, 0, 2, 8, 2, 0,
    0, 0, 253, 212, 154, 115, 0, 0, 0, 19, 73, 68, 65, 84, 120, 156, 99, 248, 207, 192, 192, 0,
    194, 12, 255, 185, 68, 228, 0, 26, 88, 3, 58, 86, 99, 162, 60, 0, 0, 0, 0, 73, 69, 78, 68,
    174, 66, 96, 130,
];

#[test]
fn standard_shader_is_flat() {
    let shader = StandardShader::new(Color(72, 82, 118));
    let any_uv = uv(0.3, 0.7);
    assert_eq!(shader.color, Color(72, 82, 118));
    assert_eq!(
        shader.fragment(&weights(0.2, 0.3, 0.5), &any_uv, &any_uv, &any_uv),
        Color(72, 82, 118)
    );
    let any = Shader::Standard(shader);
    assert_eq!(
        any.fragment(&weights(-5.0, f32::NAN, 0.5), &any_uv, &any_uv, &any_uv),
        Color(72, 82, 118)
    );
}

#[test]
fn wireframe_draws_edges_only() {
    let shader = WireframeShader::new(Color(200, 100, 50), s(0.1));
    let o = uv(0.0, 0.0);
    let at = |u: f32, v: f32, w: f32| shader.fragment(&weights(u, v, w), &o, &o, &o);
    assert_eq!(at(0.5, 0.5, 0.5), Color(0, 0, 0));
    assert_eq!(at(0.05, 0.5, 0.5), Color(200, 100, 50));
    assert_eq!(at(0.5, 0.05, 0.5), Color(200, 100, 50));
    assert_eq!(at(0.5, 0.5, 0.05), Color(200, 100, 50));
    assert_eq!(at(0.1, 0.5, 0.5), Color(200, 100, 50));
    assert_eq!(at(0.10000001, 0.5, 0.5), Color(0, 0, 0));
    assert_eq!(at(f32::NAN, 0.5, 0.5), Color(0, 0, 0));
    assert_eq!(at(-0.3, 0.5, 0.5), Color(200, 100, 50));
    let any = Shader::Wireframe(shader);
    assert_eq!(any.fragment(&weights(0.5, 0.5, 0.5), &o, &o, &o), Color(0, 0, 0));
    assert_eq!(any.fragment(&weights(0.5, 0.05, 0.5), &o, &o, &o), Color(200, 100, 50));
}

#[test]
fn wireframe_is_unlit() {
    let wire = WireframeShader::new(Color(1, 1, 1), s(0.1));
    let w = world((0.0, -1.0, 0.0), 0.5, 0.2);
    assert_eq!(wire.calculate_lighting(&weights(0.0, 1.0, 0.0), &w), s(1.0));
    assert_eq!(Shader::Wireframe(wire).calculate_lighting(&weights(0.0, -1.0, 0.0), &w), s(1.0));
    assert_eq!(Shader::Wireframe(wire).calculate_lighting(&weights(0.0, 0.0, 0.0), &w), s(1.0));
}

#[test]
fn light_shades_by_the_cosine() {
    let w = world((0.0, -1.0, 0.0), 0.5, 0.2);
    // along the light's direction: 1 * 0.5 + 0.2
    assert_eq!(default_lighting(&weights(0.0, -1.0, 0.0), &w), s(1.0 * 0.5 + 0.2));
    assert_eq!(default_lighting(&weights(0.0, -1.0, 0.0), &w), s(0.7));
    // against it: -1 * 0.5 + 0.2
    assert_eq!(default_lighting(&weights(0.0, 3.0, 0.0), &w), s(-1.0 * 0.5 + 0.2));
    // across it: 0 * 0.5 + 0.2
    assert_eq!(default_lighting(&weights(7.0, 0.0, 0.0), &w), s(0.0 * 0.5 + 0.2));
    let up = world((0.0, 1.0, 0.0), 0.5, 0.2);
    assert_eq!(default_lighting(&weights(0.0, 1.0, 0.0), &up), s(0.7));
    let flat = StandardShader::new(Color(1, 1, 1));
    assert_eq!(flat.calculate_lighting(&weights(0.0, -1.0, 0.0), &w), s(0.7));
    assert_eq!(
        Shader::Standard(flat).calculate_lighting(&weights(0.0, 3.0, 0.0), &w),
        s(-1.0 * 0.5 + 0.2)
    );
    let texture = TextureShader::new(vec![Color(1, 2, 3)], s(1.0), s(1.0)).unwrap();
    assert_eq!(texture.calculate_lighting(&weights(7.0, 0.0, 0.0), &w), s(0.2));
}

#[test]
fn light_on_a_normal_without_length_is_no_number() {
    let w = world((0.0, -1.0, 0.0), 0.5, 0.2);
    assert!(f(default_lighting(&weights(0.0, 0.0, 0.0), &w)).is_nan());
    // which shows as black
    assert_eq!(Color(200, 100, 50).times(s(f32::NAN)), Color(0, 0, 0));
}

#[test]
fn brightness_scales_each_channel_and_cuts_it_off() {
    assert_eq!(Color(200, 100, 50).times(s(0.5)), Color(100, 50, 25));
    assert_eq!(Color(200, 100, 50).times(s(1.0)), Color(200, 100, 50));
    assert_eq!(Color(200, 100, 50).times(s(0.0)), Color(0, 0, 0));
    assert_eq!(Color(200, 100, 50).times(s(2.0)), Color(255, 200, 100));
    assert_eq!(Color(200, 100, 50).times(s(-1.0)), Color(0, 0, 0));
    assert_eq!(Color(255, 1, 0).times(s(0.3)), Color(76, 0, 0));
    assert_eq!(Color(72, 82, 118).times(s(0.7)), Color(50, 57, 82));
    assert_eq!(Color(1, 2, 3).times(s(f32::INFINITY)), Color(255, 255, 255));
    for c in [0u8, 1, 17, 128, 254, 255] {
        for b in [0.0f32, 0.1, 0.3, 0.5, 0.99, 1.0, 1.3, 7.5] {
            assert_eq!(Color(c, c, c).times(s(b)).0, (c as f32 * b) as u8);
        }
    }
}

fn texture() -> TextureShader {
    let image = vec![
        Color(0, 0, 0),
        Color(1, 0, 0),
        Color(2, 0, 0),
        Color(0, 1, 0),
        Color(1, 1, 0),
        Color(2, 1, 0),
    ];
    TextureShader::new(image, s(3.0), s(2.0)).unwrap()
}

#[test]
fn texture_reads_the_texel() {
    let t = texture();
    assert_eq!(t.width(), s(3.0));
    assert_eq!(t.height(), s(2.0));
    for ty in 0..2usize {
        for tx in 0..3usize {
            assert_eq!(t.texel(tx, ty), Color(tx as u8, ty as u8, 0));
        }
    }
}

#[test]
fn texture_clamps_to_the_last_texel() {
    let t = texture();
    assert_eq!(t.texel(0, 2), Color(2, 1, 0));
    assert_eq!(t.texel(3, 1), Color(2, 1, 0));
    assert_eq!(t.texel(6, 0), Color(2, 1, 0));
    assert_eq!(t.texel(usize::MAX, usize::MAX), Color(2, 1, 0));
    assert_eq!(t.texel(usize::MAX, 0), Color(2, 1, 0));
    assert_eq!(t.texel(0, usize::MAX), Color(2, 1, 0));
    // a column beyond the row's end runs on into the next row
    assert_eq!(t.texel(4, 0), Color(1, 1, 0));
}

#[test]
fn texture_samples_the_blended_coordinate() {
    let t = texture();
    let (a, b, c) = (uv(0.0, 0.0), uv(1.0, 0.0), uv(0.0, 1.0));
    // at corner a: texel (0, 0); at b: beyond the last column; at c: beyond the last row
    assert_eq!(t.fragment(&weights(1.0, 0.0, 0.0), &a, &b, &c), Color(0, 0, 0));
    assert_eq!(t.fragment(&weights(0.0, 1.0, 0.0), &a, &b, &c), Color(0, 1, 0));
    assert_eq!(t.fragment(&weights(0.0, 0.0, 1.0), &a, &b, &c), Color(2, 1, 0));
    // u = 0.5 -> column 1, v = 0.25 -> row 0
    assert_eq!(t.fragment(&weights(0.25, 0.5, 0.25), &a, &b, &c), Color(1, 0, 0));
    // u = 0.7 -> column 2, v = 0.6 -> row 1: the last texel; beyond it, the last texel still
    assert_eq!(t.fragment(&weights(-0.3, 0.7, 0.6), &a, &b, &c), Color(2, 1, 0));
    // a coordinate below zero, or none, falls on texel 0
    assert_eq!(t.fragment(&weights(1.0, -0.5, 0.0), &a, &b, &c), Color(0, 0, 0));
    assert_eq!(t.fragment(&weights(f32::NAN, 0.0, 0.0), &a, &b, &c), Color(0, 0, 0));
    assert_eq!(Shader::Texture(texture()).fragment(&weights(0.25, 0.5, 0.25), &a, &b, &c), Color(1, 0, 0));
}

#[test]
fn texture_ignores_colours_beyond_its_size() {
    let image = vec![Color(1, 1, 1), Color(2, 2, 2), Color(3, 3, 3)];
    let t = TextureShader::new(image, s(2.0), s(1.0)).unwrap();
    assert_eq!(t.texel(1, 0), Color(2, 2, 2));
    assert_eq!(t.texel(2, 0), Color(2, 2, 2));
    assert_eq!(t.texel(0, 1), Color(2, 2, 2));
}

#[test]
fn texture_needs_a_colour_for_every_texel() {
    assert!(TextureShader::new(vec![], s(0.0), s(0.0)).is_none());
    assert!(TextureShader::new(vec![Color(1, 1, 1)], s(0.0), s(1.0)).is_none());
    assert!(TextureShader::new(vec![Color(1, 1, 1)], s(1.0), s(0.0)).is_none());
    assert!(TextureShader::new(vec![Color(1, 1, 1)], s(2.0), s(1.0)).is_none());
    assert!(TextureShader::new(vec![Color(1, 1, 1)], s(0.5), s(1.0)).is_none());
    assert!(TextureShader::new(vec![Color(1, 1, 1)], s(-1.0), s(-1.0)).is_none());
    assert!(TextureShader::new(vec![Color(1, 1, 1)], s(f32::NAN), s(1.0)).is_none());
    assert!(TextureShader::new(vec![Color(1, 1, 1)], s(f32::INFINITY), s(f32::INFINITY)).is_none());
    assert!(TextureShader::new(vec![Color(1, 1, 1)], s(1.0), s(1.0)).is_some());
    assert!(TextureShader::new(vec![Color(1, 1, 1)], s(1.9), s(1.5)).is_some());
}

#[test]
fn colours_come_three_bytes_each() {
    assert_eq!(colors_from_rgb(&[]), vec![]);
    assert_eq!(colors_from_rgb(&[1, 2]), vec![]);
    assert_eq!(colors_from_rgb(&[1, 2, 3]), vec![Color(1, 2, 3)]);
    assert_eq!(
        colors_from_rgb(&[1, 2, 3, 4, 5, 6, 7, 8]),
        vec![Color(1, 2, 3), Color(4, 5, 6)]
    );
}

#[test]
fn image2vec_decodes_a_png() {
    let colors = TextureShader::image2vec("png", &PNG_2X2);
    assert_eq!(
        colors,
        vec![Color(255, 0, 0), Color(0, 255, 0), Color(0, 0, 255), Color(10, 20, 30)]
    );
    let texture = TextureShader::new(colors, s(2.0), s(2.0)).unwrap();
    assert_eq!(texture.texel(1, 1), Color(10, 20, 30));
}

#[test]
fn image2vec_gives_nothing_for_what_is_no_image() {
    assert_eq!(TextureShader::image2vec("png", &[]), vec![]);
    assert_eq!(TextureShader::image2vec("png", b"v 1 2 3\n"), vec![]);
    assert_eq!(TextureShader::image2vec("png", &PNG_2X2[..40]), vec![]);
}

#[test]
fn image2vec_goes_by_the_extension() {
    assert_eq!(TextureShader::image2vec("PNG", &PNG_2X2).len(), 4);
    assert_eq!(TextureShader::image2vec("jpg", &PNG_2X2), vec![]);
    assert_eq!(TextureShader::image2vec("", &PNG_2X2), vec![]);
    assert_eq!(TextureShader::image2vec("obj", &PNG_2X2), vec![]);
    assert_eq!(TextureShader::image2vec(".png", &PNG_2X2), vec![]);
}

/// A grey image of one pixel, coded sequentially.
const JPEG_GREY: [u8; 141] = [
    0xFF, 0xD8, 0xFF, 0xDB, 0x00, 0x43, 0x00, 0x01, 0x01, 0x01, 0x01, 0x01,
    0x01, 0x01, 0x01, 0x01, 0x01, 0x01, 0x01, 0x01, 0x01, 0x01, 0x01, 0x01,
    0x01, 0x01, 0x01, 0x01, 0x01, 0x01, 0x01, 0x01, 0x01, 0x01, 0x01, 0x01,
    0x01, 0x01, 0x01, 0x01, 0x01, 0x01, 0x01, 0x01, 0x01, 0x01, 0x01, 0x01,
    0x01, 0x01, 0x01, 0x01, 0x01, 0x01, 0x01, 0x01, 0x01, 0x01, 0x01, 0x01,
    0x01, 0x01, 0x01, 0x01, 0x01, 0x01, 0x01, 0x01, 0x01, 0x01, 0x01, 0xFF,
    0xC0, 0x00, 0x0B, 0x08, 0x00, 0x01, 0x00, 0x01, 0x01, 0x01, 0x11, 0x00,
    0xFF, 0xC4, 0x00, 0x14, 0x00, 0x01, 0x00, 0x00, 0x00, 0x00, 0x00, 0x00,
    0x00, 0x00, 0x00, 0x00, 0x00, 0x00, 0x00, 0x00, 0x00, 0x00, 0xFF, 0xC4,
    0x00, 0x14, 0x10, 0x01, 0x00, 0x00, 0x00, 0x00, 0x00, 0x00, 0x00, 0x00,
    0x00, 0x00, 0x00, 0x00, 0x00, 0x00, 0x00, 0x00, 0xFF, 0xDA, 0x00, 0x08,
    0x01, 0x01, 0x00, 0x00, 0x3F, 0x00, 0x3F, 0xFF, 0xD9,
];

/// An image of one pixel with samples of four bits, coded losslessly.
const JPEG_LOSSLESS: [u8; 50] = [
    0xFF, 0xD8, 0xFF, 0xC3, 0x00, 0x0B, 0x04, 0x00, 0x01, 0x00, 0x01, 0x01,
    0x01, 0x11, 0x00, 0xFF, 0xC4, 0x00, 0x14, 0x00, 0x01, 0x00, 0x00, 0x00,
    0x00, 0x00, 0x00, 0x00, 0x00, 0x00, 0x00, 0x00, 0x00, 0x00, 0x00, 0x00,
    0x00, 0xFF, 0xDA, 0x00, 0x08, 0x01, 0x01, 0x00, 0x01, 0x00, 0x00, 0x7F,
    0xFF, 0xD9,
];

#[test]
fn image2vec_decodes_a_jpeg() {
    assert_eq!(TextureShader::image2vec("jpg", &JPEG_GREY), vec![Color(128, 128, 128)]);
    assert_eq!(TextureShader::image2vec("jpeg", &JPEG_GREY), vec![Color(128, 128, 128)]);
    assert_eq!(TextureShader::image2vec("png", &JPEG_GREY), vec![]);
}

#[test]
fn image2vec_leaves_a_lossless_jpeg_alone() {
    let mut decoder = jpeg_decoder::Decoder::new(&JPEG_LOSSLESS[..]);
    let samples = decoder.decode().unwrap();
    let info = decoder.info().unwrap();
    assert_eq!(info.coding_process, jpeg_decoder::CodingProcess::Lossless);
    assert_eq!(info.pixel_format.pixel_bytes(), 1);
    assert_eq!(samples.len(), 2);
    assert_eq!(TextureShader::image2vec("jpg", &JPEG_LOSSLESS), vec![]);
    assert_eq!(TextureShader::image2vec("jpeg", &JPEG_LOSSLESS), vec![]);
    assert_eq!(TextureShader::image2vec("png", &JPEG_LOSSLESS), vec![]);
}
