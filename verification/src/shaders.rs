//! Shaders: how fragments are coloured and faces are lit.

use vstd::prelude::*;
use crate::graphics::Color;
use crate::math::{Vector2, Vector3};
use crate::scalar::{clamped, Scalar, ONE_BITS};
use crate::world::{DirectionalLight, World};

verus! {

/// The brightness that the light gives a face with the given normal: the
/// cosine between the normal and the light's direction, times the light's
/// intensity, plus the ambient light.
pub open spec fn shading(normal: Vector3, light: DirectionalLight, ambient: Scalar) -> Scalar {
    normal.cosine(light.direction).product(light.intensity).sum(ambient)
}

/// The brightness that the world's light gives a face with the given
/// normal.
pub fn default_lighting(normal: &Vector3, world: &World) -> (brightness: Scalar)
    ensures
        brightness == shading(*normal, world.light, world.ambient),
{
    normal.cos_similarity(&world.light.direction).times(&world.light.intensity).plus(&world.ambient)
}

/// The texture coordinate of a point with the given barycentric weights in
/// a triangle whose corners have the given texture coordinates: the
/// corners' coordinates, each times its weight, summed from the left.
pub open spec fn blended(barycentric: Vector3, uva: Vector2, uvb: Vector2, uvc: Vector2)
    -> Vector2 {
    Vector2 {
        x: barycentric.x.product(uva.x).sum(barycentric.y.product(uvb.x)).sum(
            barycentric.z.product(uvc.x),
        ),
        y: barycentric.x.product(uva.y).sum(barycentric.y.product(uvb.y)).sum(
            barycentric.z.product(uvc.y),
        ),
    }
}

/// A flat colour: every fragment gets it, and the light shades it.
#[derive(Clone, Copy, Debug, PartialEq, Eq, Structural)]
pub struct StandardShader {
    pub color: Color,
}

impl StandardShader {
    /// The shader that colours everything in `color`.
    pub fn new(color: Color) -> (s: StandardShader)
        ensures
            s.color == color,
    {
        StandardShader { color }
    }

    /// The colour of a fragment: the shader's colour, wherever the fragment
    /// lies.
    pub fn fragment(
        &self,
        barycentric: &Vector3,
        uva: &Vector2,
        uvb: &Vector2,
        uvc: &Vector2,
    ) -> (c: Color)
        ensures
            c == self.color,
    {
        self.color
    }

    /// The brightness of a face: the shading that the light gives it.
    pub fn calculate_lighting(&self, normal: &Vector3, world: &World) -> (brightness: Scalar)
        ensures
            brightness == shading(*normal, world.light, world.ambient),
    {
        default_lighting(normal, world)
    }
}

/// Draws the edges of every triangle and leaves its inside black. It is
/// not lit.
#[derive(Clone, Copy, Debug, PartialEq, Eq, Structural)]
pub struct WireframeShader {
    pub color: Color,
    pub thickness: Scalar,
}

impl WireframeShader {
    /// Whether a point with these weights lies on an edge: one of the
    /// weights is at most the thickness.
    pub open spec fn on_edge(self, barycentric: Vector3) -> bool {
        ||| barycentric.x.num_le(self.thickness)
        ||| barycentric.y.num_le(self.thickness)
        ||| barycentric.z.num_le(self.thickness)
    }

    /// The colour at a point with these weights: the shader's colour on an
    /// edge, black off it.
    pub open spec fn color_at(self, barycentric: Vector3) -> Color {
        if self.on_edge(barycentric) {
            self.color
        } else {
            Color(0, 0, 0)
        }
    }

    /// The shader that draws edges in `color`, as wide as `thickness` in
    /// barycentric weight.
    pub fn new(color: Color, thickness: Scalar) -> (s: WireframeShader)
        ensures
            s.color == color,
            s.thickness == thickness,
    {
        WireframeShader { color, thickness }
    }

    /// The colour of a fragment: the shader's colour on an edge, black off it.
    pub fn fragment(
        &self,
        barycentric: &Vector3,
        uva: &Vector2,
        uvb: &Vector2,
        uvc: &Vector2,
    ) -> (c: Color)
        ensures
            c == self.color_at(*barycentric),
    {
        if barycentric.x.le(&self.thickness) || barycentric.y.le(&self.thickness)
            || barycentric.z.le(&self.thickness) {
            self.color
        } else {
            Color(0, 0, 0)
        }
    }

    /// The brightness of a face: always one. A wireframe is not lit.
    pub fn calculate_lighting(&self, normal: &Vector3, world: &World) -> (brightness: Scalar)
        ensures
            brightness == (Scalar { bits: ONE_BITS }),
    {
        Scalar::one()
    }
}

/// The colours that a flat buffer of red, green and blue bytes holds, three
/// bytes to a colour. Bytes left over at the end make no colour.
pub open spec fn colors_of(raw: Seq<u8>) -> Seq<Color> {
    Seq::new(raw.len() / 3, |i: int| Color(raw[3 * i], raw[3 * i + 1], raw[3 * i + 2]))
}

/// Turns a flat buffer of red, green and blue bytes into colours.
pub fn colors_from_rgb(raw: &[u8]) -> (colors: Vec<Color>)
    ensures
        colors@ == colors_of(raw@),
{
    let count: usize = raw.len() / 3;
    let mut colors: Vec<Color> = Vec::with_capacity(count);
    let mut i: usize = 0;
    while i < count
        invariant
            i <= count,
            count == raw.len() / 3,
            colors.len() == i,
            forall|k: int|
                0 <= k < i ==> colors[k] == Color(raw@[3 * k], raw@[3 * k + 1], raw@[3 * k + 2]),
        decreases count - i,
    {
        colors.push(Color(raw[3 * i], raw[3 * i + 1], raw[3 * i + 2]));
        i += 1;
    }
    assert(colors@ =~= colors_of(raw@));
    colors
}

/// The coding process that a JPEG frame header declares.
#[derive(Clone, Copy, Debug, PartialEq, Eq, Structural)]
pub enum FrameCoding {
    /// Sequential discrete cosine transform.
    Sequential,
    /// Progressive discrete cosine transform.
    Progressive,
    /// Lossless prediction, with samples of two to sixteen bits.
    Lossless,
}

/// The coding process of the first frame header in a JPEG file's bytes;
/// `None` where the bytes do not begin as a JPEG file that the decoder
/// supports, up to and including that header.
pub uninterp spec fn frame_coding(bytes: Seq<u8>) -> Option<FrameCoding>;

/// Reads a JPEG file up to its first frame header with
/// `jpeg_decoder::Decoder::read_info` and hands out the coding process
/// that `jpeg_decoder::Decoder::info` then reports. Trusted: the result is
/// the same for the same bytes, which is all that is claimed. The decoder
/// reads the markers in order and stops at the frame header; it decodes no
/// scan and starts no worker before that.
#[verifier::external_body]
fn read_frame_coding(bytes: &[u8]) -> (r: Option<FrameCoding>)
    ensures
        r == frame_coding(bytes@),
{
    let mut decoder = jpeg_decoder::Decoder::new(bytes);
    match decoder.read_info() {
        Ok(()) => match decoder.info()?.coding_process {
            jpeg_decoder::CodingProcess::DctSequential => Some(FrameCoding::Sequential),
            jpeg_decoder::CodingProcess::DctProgressive => Some(FrameCoding::Progressive),
            jpeg_decoder::CodingProcess::Lossless => Some(FrameCoding::Lossless),
        },
        Err(_) => None,
    }
}

/// Decodes an image with `image::load_from_memory_with_format`, in the
/// format that `image::ImageFormat::from_extension` finds for the
/// extension, and converts it to 8-bit RGB with `DynamicImage::to_rgb8`;
/// `None` where the extension names no format or the decoder reports an
/// error. Trusted, and nothing is claimed of the result: the decoder of
/// larger JPEG images hands rows to threads, and fails where the machine
/// gives it none, so the same bytes need not decode alike everywhere.
/// Lossless JPEG frames are kept out: their samples may take two bytes,
/// which the copy into a buffer sized for one byte each does not survive.
#[verifier::external_body]
fn decode_rgb(extension: &str, bytes: &[u8]) -> (r: Option<Vec<u8>>)
    requires
        frame_coding(bytes@) != Some(FrameCoding::Lossless),
{
    let format = image::ImageFormat::from_extension(extension)?;
    match image::load_from_memory_with_format(bytes, format) {
        Ok(decoded) => Some(decoded.to_rgb8().into_raw()),
        Err(_) => None,
    }
}

proof fn lemma_product_fits(a: int, b: int)
    by (nonlinear_arith)
    requires
        0 <= a <= 0xFFFF_FFFF_FFFF_FFFF,
        0 <= b <= 0xFFFF_FFFF_FFFF_FFFF,
    ensures
        0 <= a * b <= 0xFFFF_FFFF_FFFF_FFFE_0000_0000_0000_0001,
{
}

/// The whole part of a number as an index.
pub open spec fn index_of(s: Scalar) -> nat {
    clamped(s.whole(), 0, usize::MAX as int) as nat
}

/// What a texture holds: its colours, row by row, and its size.
pub struct TextureView {
    pub image: Seq<Color>,
    pub width: Scalar,
    pub height: Scalar,
}

impl TextureView {
    /// The number of texels in a row.
    pub open spec fn columns(self) -> nat {
        index_of(self.width)
    }

    /// The number of rows.
    pub open spec fn rows(self) -> nat {
        index_of(self.height)
    }

    /// A texture has at least one texel, and a colour for each of them.
    pub open spec fn wf(self) -> bool {
        0 < self.columns() * self.rows() <= self.image.len()
    }

    /// Where texel (tx, ty) stands in the image. Coordinates that lead
    /// beyond the last texel lead to the last texel.
    pub open spec fn offset(self, tx: nat, ty: nat) -> int {
        if tx + ty * self.columns() < self.columns() * self.rows() {
            (tx + ty * self.columns()) as int
        } else {
            self.columns() * self.rows() - 1
        }
    }

    /// The colour of texel (tx, ty).
    pub open spec fn texel(self, tx: nat, ty: nat) -> Color {
        self.image[self.offset(tx, ty)]
    }

    /// The colour at a texture coordinate: that of the texel on which it
    /// falls, the nearest one towards the texture's origin.
    pub open spec fn sample(self, uv: Vector2) -> Color {
        self.texel(index_of(uv.x.product(self.width)), index_of(uv.y.product(self.height)))
    }
}

/// Colours fragments from an image, nearest texel, without interpolation
/// and without regard to perspective. The light shades it.
pub struct TextureShader {
    image: Vec<Color>,
    width: Scalar,
    height: Scalar,
    columns: usize,
    rows: usize,
}

impl View for TextureShader {
    type V = TextureView;

    closed spec fn view(&self) -> TextureView {
        TextureView { image: self.image@, width: self.width, height: self.height }
    }
}

impl TextureShader {
    #[verifier::type_invariant]
    spec fn inv(&self) -> bool {
        &&& self@.wf()
        &&& self.columns == self@.columns()
        &&& self.rows == self@.rows()
    }

    /// A texture of the given size over the given colours, row by row;
    /// `None` where the size is empty or the colours are too few for it.
    pub fn new(image: Vec<Color>, width: Scalar, height: Scalar) -> (s: Option<TextureShader>)
        ensures
            s is Some <==> (TextureView { image: image@, width, height }).wf(),
            s matches Some(t) ==> t@ == (TextureView { image: image@, width, height }),
    {
        let columns = width.to_usize();
        let rows = height.to_usize();
        proof {
            lemma_product_fits(columns as int, rows as int);
        }
        let area: u128 = (columns as u128) * (rows as u128);
        if area == 0 || area > image.len() as u128 {
            None
        } else {
            Some(TextureShader { image, width, height, columns, rows })
        }
    }

    /// The colours of the image that a file's bytes encode, row by row from
    /// the top. The file's extension, without the dot, says which format
    /// the bytes are in; the decoder is built for PNG and for JPEG, and an
    /// image of another format gives no colours. Nor are there colours
    /// where the bytes begin as a losslessly coded JPEG file, which is not
    /// decoded, where the extension names no format, or where the decoder
    /// reports an error.
    /// Otherwise they are the colours of the bytes that the decoder gives:
    /// three bytes to a colour, as `colors_from_rgb` groups them.
    pub fn image2vec(extension: &str, bytes: &[u8]) -> (colors: Vec<Color>)
        ensures
            frame_coding(bytes@) == Some(FrameCoding::Lossless) ==> colors@.len() == 0,
            exists|raw: Seq<u8>| colors@ == colors_of(raw),
    {
        let decoded = match read_frame_coding(bytes) {
            Some(FrameCoding::Lossless) => None,
            _ => decode_rgb(extension, bytes),
        };
        match decoded {
            Some(raw) => colors_from_rgb(raw.as_slice()),
            None => {
                assert(Seq::<Color>::empty() =~= colors_of(Seq::<u8>::empty()));
                Vec::new()
            },
        }
    }

    /// The width of the texture, in texels.
    pub fn width(&self) -> (w: Scalar)
        ensures
            w == self@.width,
            self@.wf(),
    {
        proof {
            use_type_invariant(self);
        }
        self.width
    }

    /// The height of the texture, in texels.
    pub fn height(&self) -> (h: Scalar)
        ensures
            h == self@.height,
            self@.wf(),
    {
        proof {
            use_type_invariant(self);
        }
        self.height
    }

    /// The colour of texel (tx, ty).
    pub fn texel(&self, tx: usize, ty: usize) -> (c: Color)
        ensures
            c == self@.texel(tx as nat, ty as nat),
    {
        proof {
            use_type_invariant(self);
            lemma_product_fits(self.columns as int, self.rows as int);
            lemma_product_fits(ty as int, self.columns as int);
        }
        let area: u128 = (self.columns as u128) * (self.rows as u128);
        assert(area <= self.image.len());
        let wanted: u128 = (tx as u128) + (ty as u128) * (self.columns as u128);
        let offset: usize = if wanted < area {
            wanted as usize
        } else {
            (area - 1) as usize
        };
        self.image[offset]
    }

    /// The colour of a fragment: that of the texel on which the fragment's
    /// texture coordinate falls, which is blended from the corners'.
    pub fn fragment(
        &self,
        barycentric: &Vector3,
        uva: &Vector2,
        uvb: &Vector2,
        uvc: &Vector2,
    ) -> (c: Color)
        ensures
            c == self@.sample(blended(*barycentric, *uva, *uvb, *uvc)),
    {
        let uvx = barycentric.x.times(&uva.x).plus(&barycentric.y.times(&uvb.x)).plus(
            &barycentric.z.times(&uvc.x),
        );
        let uvy = barycentric.x.times(&uva.y).plus(&barycentric.y.times(&uvb.y)).plus(
            &barycentric.z.times(&uvc.y),
        );
        let tx = uvx.times(&self.width).to_usize();
        let ty = uvy.times(&self.height).to_usize();
        self.texel(tx, ty)
    }

    /// The brightness of a face: the shading that the light gives it.
    pub fn calculate_lighting(&self, normal: &Vector3, world: &World) -> (brightness: Scalar)
        ensures
            brightness == shading(*normal, world.light, world.ambient),
    {
        default_lighting(normal, world)
    }
}

/// How a mesh is coloured.
pub enum Shader {
    Standard(StandardShader),
    Wireframe(WireframeShader),
    Texture(TextureShader),
}

impl Shader {
    /// The colour that the shader gives a point with the given barycentric
    /// weights in a triangle whose corners have the given texture
    /// coordinates.
    pub open spec fn color_at(self, barycentric: Vector3, uva: Vector2, uvb: Vector2, uvc: Vector2)
        -> Color {
        match self {
            Shader::Standard(s) => s.color,
            Shader::Wireframe(s) => s.color_at(barycentric),
            Shader::Texture(s) => s@.sample(blended(barycentric, uva, uvb, uvc)),
        }
    }

    /// The brightness that the shader gives a face with the given normal:
    /// the light's shading, but for a wireframe, which is always at full
    /// brightness, one.
    pub open spec fn brightness(self, normal: Vector3, light: DirectionalLight, ambient: Scalar)
        -> Scalar {
        if self is Wireframe {
            Scalar { bits: ONE_BITS }
        } else {
            shading(normal, light, ambient)
        }
    }

    /// The colour of a fragment.
    pub fn fragment(
        &self,
        barycentric: &Vector3,
        uva: &Vector2,
        uvb: &Vector2,
        uvc: &Vector2,
    ) -> (c: Color)
        ensures
            c == self.color_at(*barycentric, *uva, *uvb, *uvc),
    {
        match self {
            Shader::Standard(s) => s.fragment(barycentric, uva, uvb, uvc),
            Shader::Wireframe(s) => s.fragment(barycentric, uva, uvb, uvc),
            Shader::Texture(s) => s.fragment(barycentric, uva, uvb, uvc),
        }
    }

    /// The brightness of a face with the given normal.
    pub fn calculate_lighting(&self, normal: &Vector3, world: &World) -> (brightness: Scalar)
        ensures
            brightness == self.brightness(*normal, world.light, world.ambient),
    {
        match self {
            Shader::Standard(s) => s.calculate_lighting(normal, world),
            Shader::Wireframe(s) => s.calculate_lighting(normal, world),
            Shader::Texture(s) => s.calculate_lighting(normal, world),
        }
    }
}

} // verus!
