//! Faces, transformations and meshes, and how a mesh is drawn.

use vstd::prelude::*;
use crate::arithmetic::lemma_difference_turns;
use crate::camera::CameraView;
use crate::graphics::{Color, FrameView, Renderer, Triangle};
use crate::math::{Matrix44, Vector2, Vector3, Vector4};
use crate::scalar::{Scalar, ONE_BITS};
use crate::shaders::{Shader, StandardShader};
use crate::world::{DirectionalLight, World};

verus! {

/// The encoding of two.
pub const TWO_BITS: u32 = 0x4000_0000;

//
// Faces
//
/// A triangle of a mesh: for each corner, in winding order, the index of
/// its position in the mesh's vertex array and the index of its texture
/// coordinate in the mesh's UV array; and the triangle's unit normal, which
/// is as old as the last call of `compute_normal`.
#[derive(Clone, Copy, Debug, PartialEq, Eq, Structural)]
pub struct Face {
    pub a: usize,
    pub b: usize,
    pub c: usize,
    pub normal: Vector3,
    pub uva: usize,
    pub uvb: usize,
    pub uvc: usize,
}

impl Face {
    /// Whether every index of the face points into arrays of the given lengths.
    pub open spec fn within(self, vertex_count: nat, uv_count: nat) -> bool {
        &&& self.a < vertex_count
        &&& self.b < vertex_count
        &&& self.c < vertex_count
        &&& self.uva < uv_count
        &&& self.uvb < uv_count
        &&& self.uvc < uv_count
    }

    /// The unit normal of the triangle with the given corners: the cross
    /// product of the edge from b to a and the edge from c to b, brought to
    /// length one.
    pub open spec fn normal_of(a: Vector3, b: Vector3, c: Vector3) -> Vector3 {
        a.difference(b).cross(b.difference(c)).unit()
    }

    /// Creates a new Face. Faces store vertices as indices in a list of
    /// positions. The normal is the zero vector until it is computed.
    pub fn new(a: usize, b: usize, c: usize, uva: usize, uvb: usize, uvc: usize) -> (f: Face)
        ensures
            f == (Face { a, b, c, uva, uvb, uvc, normal: Vector3::zero() }),
    {
        Face {
            a,
            b,
            c,
            uva,
            uvb,
            uvc,
            normal: Vector3 { x: Scalar::zero(), y: Scalar::zero(), z: Scalar::zero() },
        }
    }

    /// Whether every index of the face points into arrays of the given
    /// lengths, so that the face can be drawn from them.
    pub fn is_within(&self, vertex_count: usize, uv_count: usize) -> (r: bool)
        ensures
            r == self.within(vertex_count as nat, uv_count as nat),
    {
        self.a < vertex_count && self.b < vertex_count && self.c < vertex_count && self.uva
            < uv_count && self.uvb < uv_count && self.uvc < uv_count
    }

    /// Computes the normal from the vertices. To be called after the
    /// vertices were loaded, and again whenever they were edited.
    pub fn compute_normal(&mut self, vertices_list: &[Vector3])
        requires
            old(self).a < vertices_list@.len(),
            old(self).b < vertices_list@.len(),
            old(self).c < vertices_list@.len(),
        ensures
            *final(self) == (Face {
                normal: Face::normal_of(
                    vertices_list@[old(self).a as int],
                    vertices_list@[old(self).b as int],
                    vertices_list@[old(self).c as int],
                ),
                ..*old(self)
            }),
    {
        let a = vertices_list[self.a];
        let b = vertices_list[self.b];
        let c = vertices_list[self.c];
        self.normal = a.minus(&b).cross_product(&b.minus(&c)).normalised();
    }
}

//
// Transformations
//
/// The affine matrix of an object that stands at `position`, turned as the
/// quaternion says: the rotation in the upper three rows, for vectors
/// taken as rows, and the position in the last row.
pub open spec fn affine_of(position: Vector3, q: Vector4) -> Matrix44 {
    let one = Scalar { bits: ONE_BITS };
    let two = Scalar { bits: TWO_BITS };
    let zero = Scalar { bits: 0 };
    let xx = two.product(q.x.product(q.x));
    let yy = two.product(q.y.product(q.y));
    let zz = two.product(q.z.product(q.z));
    let xy = two.product(q.x).product(q.y);
    let xz = two.product(q.x).product(q.z);
    let yz = two.product(q.y).product(q.z);
    let zw = two.product(q.z).product(q.w);
    let yw = two.product(q.y).product(q.w);
    let wz = two.product(q.w).product(q.z);
    let wx = two.product(q.w).product(q.x);
    let wy = two.product(q.w).product(q.y);
    Matrix44 {
        data: [
            one.difference(yy.sum(zz)),
            xy.sum(zw),
            xz.difference(yw),
            zero,
            xy.difference(wz),
            one.difference(xx.sum(zz)),
            yz.sum(wx),
            zero,
            xz.sum(wy),
            yz.difference(wx),
            one.difference(xx.sum(yy)),
            zero,
            position.x,
            position.y,
            position.z,
            one,
        ],
    }
}

/// A vector, taken as a row, times the upper three rows of a matrix: the
/// vector turned.
pub open spec fn turned(m: Matrix44, v: Vector3) -> Vector3 {
    Vector3 {
        x: v.x.product(m.at(0, 0)).sum(v.y.product(m.at(1, 0))).sum(v.z.product(m.at(2, 0))),
        y: v.x.product(m.at(0, 1)).sum(v.y.product(m.at(1, 1))).sum(v.z.product(m.at(2, 1))),
        z: v.x.product(m.at(0, 2)).sum(v.y.product(m.at(1, 2))).sum(v.z.product(m.at(2, 2))),
    }
}

/// A point turned and then moved by the last row of the matrix.
pub open spec fn moved(m: Matrix44, v: Vector3) -> Vector3 {
    Vector3 {
        x: turned(m, v).x.sum(m.at(3, 0)),
        y: turned(m, v).y.sum(m.at(3, 1)),
        z: turned(m, v).z.sum(m.at(3, 2)),
    }
}

/// What a transformation holds.
pub struct TransformationView {
    pub position: Vector3,
    pub scale: Scalar,
    pub quaternion: Vector4,
}

/// Where an object stands and how it is turned. The affine matrix follows
/// position and quaternion: every change of one of them rebuilds it, so
/// that no stale matrix is ever applied.
pub struct Transformation {
    position: Vector3,
    scale: Scalar,
    quaternion: Vector4,
    affine_matrix: Matrix44,
}

impl View for Transformation {
    type V = TransformationView;

    closed spec fn view(&self) -> TransformationView {
        TransformationView {
            position: self.position,
            scale: self.scale,
            quaternion: self.quaternion,
        }
    }
}

fn turn(m: &Matrix44, v: &Vector3) -> (r: Vector3)
    ensures
        r == turned(*m, *v),
{
    Vector3 {
        x: v.x.times(&m.get(0, 0)).plus(&v.y.times(&m.get(1, 0))).plus(&v.z.times(&m.get(2, 0))),
        y: v.x.times(&m.get(0, 1)).plus(&v.y.times(&m.get(1, 1))).plus(&v.z.times(&m.get(2, 1))),
        z: v.x.times(&m.get(0, 2)).plus(&v.y.times(&m.get(1, 2))).plus(&v.z.times(&m.get(2, 2))),
    }
}

fn build_affine(position: &Vector3, q: &Vector4) -> (m: Matrix44)
    ensures
        m == affine_of(*position, *q),
{
    let one = Scalar::one();
    let two = Scalar::from_bits(TWO_BITS);
    let zero = Scalar::zero();
    let xx = two.times(&q.x.times(&q.x));
    let yy = two.times(&q.y.times(&q.y));
    let zz = two.times(&q.z.times(&q.z));
    let xy = two.times(&q.x).times(&q.y);
    let xz = two.times(&q.x).times(&q.z);
    let yz = two.times(&q.y).times(&q.z);
    let zw = two.times(&q.z).times(&q.w);
    let yw = two.times(&q.y).times(&q.w);
    let wz = two.times(&q.w).times(&q.z);
    let wx = two.times(&q.w).times(&q.x);
    let wy = two.times(&q.w).times(&q.y);
    let m = Matrix44 {
        data: [
            one.minus(&yy.plus(&zz)),
            xy.plus(&zw),
            xz.minus(&yw),
            zero,
            xy.minus(&wz),
            one.minus(&xx.plus(&zz)),
            yz.plus(&wx),
            zero,
            xz.plus(&wy),
            yz.minus(&wx),
            one.minus(&xx.plus(&yy)),
            zero,
            position.x,
            position.y,
            position.z,
            one,
        ],
    };
    assert(m.data@ =~= affine_of(*position, *q).data@);
    m
}

impl Transformation {
    #[verifier::type_invariant]
    spec fn inv(&self) -> bool {
        self.affine_matrix == affine_of(self.position, self.quaternion)
    }

    /// The affine matrix that the transformation applies.
    pub open spec fn matrix(&self) -> Matrix44 {
        affine_of(self@.position, self@.quaternion)
    }

    /// The affine matrix that the transformation holds ready, built when
    /// position or quaternion last changed.
    pub closed spec fn held_matrix(&self) -> Matrix44 {
        self.affine_matrix
    }

    /// An object at `position`, turned as the quaternion says, at scale one.
    pub fn new(position: Vector3, quaternion: Vector4) -> (t: Transformation)
        ensures
            t@ == (TransformationView { position, quaternion, scale: Scalar { bits: ONE_BITS } }),
    {
        let affine_matrix = build_affine(&position, &quaternion);
        Transformation { position, scale: Scalar::one(), quaternion, affine_matrix }
    }

    /// Where the object stands.
    pub fn position(&self) -> (p: Vector3)
        ensures
            p == self@.position,
    {
        self.position
    }

    /// How the object is turned.
    pub fn quaternion(&self) -> (q: Vector4)
        ensures
            q == self@.quaternion,
    {
        self.quaternion
    }

    /// The object's scale.
    pub fn scale(&self) -> (s: Scalar)
        ensures
            s == self@.scale,
    {
        self.scale
    }

    /// The affine matrix, which is that of the position and the quaternion
    /// as they are now.
    pub fn affine_matrix(&self) -> (m: Matrix44)
        ensures
            m == self.matrix(),
            m == self.held_matrix(),
    {
        proof {
            use_type_invariant(self);
        }
        self.affine_matrix
    }

    /// Moves the object, and the matrix with it.
    pub fn set_position(&mut self, position: Vector3)
        ensures
            final(self)@ == (TransformationView { position, ..old(self)@ }),
    {
        *self = Transformation {
            position,
            scale: self.scale,
            quaternion: self.quaternion,
            affine_matrix: build_affine(&position, &self.quaternion),
        };
    }

    /// Turns the object, and the matrix with it.
    pub fn set_quaternion(&mut self, quaternion: Vector4)
        ensures
            final(self)@ == (TransformationView { quaternion, ..old(self)@ }),
    {
        *self = Transformation {
            position: self.position,
            scale: self.scale,
            quaternion,
            affine_matrix: build_affine(&self.position, &quaternion),
        };
    }

    /// Sets the scale. The matrix does not take it up.
    pub fn set_scale(&mut self, scale: Scalar)
        ensures
            final(self)@ == (TransformationView { scale, ..old(self)@ }),
    {
        proof {
            use_type_invariant(&*self);
        }
        self.scale = scale;
    }

    /// Generates the affine transformation matrix anew: the matrix held
    /// is built from the quaternion and the position as they are. Every
    /// change of position or quaternion has done so already, so nothing
    /// else changes.
    pub fn generate_affine_matrix(&mut self)
        ensures
            final(self)@ == old(self)@,
            final(self).held_matrix() == affine_of(old(self)@.position, old(self)@.quaternion),
    {
        *self = Transformation {
            position: self.position,
            scale: self.scale,
            quaternion: self.quaternion,
            affine_matrix: build_affine(&self.position, &self.quaternion),
        };
    }

    /// Where a point of the object lies in the world: turned, then moved.
    /// For positions.
    pub fn transformed(&self, point: &Vector3) -> (p: Vector3)
        ensures
            p == moved(self.matrix(), *point),
    {
        proof {
            use_type_invariant(self);
        }
        let r = turn(&self.affine_matrix, point);
        Vector3 {
            x: r.x.plus(&self.affine_matrix.get(3, 0)),
            y: r.y.plus(&self.affine_matrix.get(3, 1)),
            z: r.z.plus(&self.affine_matrix.get(3, 2)),
        }
    }

    /// Where a direction of the object points in the world: turned, not
    /// moved. For normals.
    pub fn transform_direction(&self, direction: &Vector3) -> (d: Vector3)
        ensures
            d == turned(self.matrix(), *direction),
    {
        proof {
            use_type_invariant(self);
        }
        turn(&self.affine_matrix, direction)
    }
}

/// Whether a projected triangle faces the viewer, given its signed area on
/// the screen: it does where the area is positive. A triangle that does not
/// is culled; one whose area is no number is culled too.
pub open spec fn front_facing(signed_area: Scalar) -> bool {
    signed_area.positive()
}

/// Backface test on the signed screen area of a projected triangle.
pub fn is_front_facing(signed_area: Scalar) -> (r: bool)
    ensures
        r == front_facing(signed_area),
{
    signed_area.is_positive()
}

/// The signed area of a triangle on the screen, twice over: (b - a) x
/// (c - a).
pub open spec fn signed_area(a: Vector3, b: Vector3, c: Vector3) -> Scalar {
    b.x.difference(a.x).product(c.y.difference(a.y)).difference(
        c.x.difference(a.x).product(b.y.difference(a.y)),
    )
}

/// Winding decides visibility: of a triangle on the screen and the same
/// triangle wound the other way round, with two corners changing places, at
/// most one faces the viewer. So the reverse of a triangle that is drawn is
/// culled.
pub proof fn lemma_reversed_winding_is_culled(a: Vector3, b: Vector3, c: Vector3)
    requires
        front_facing(signed_area(a, b, c)),
    ensures
        !front_facing(signed_area(a, c, b)),
{
    lemma_difference_turns(
        b.x.difference(a.x).product(c.y.difference(a.y)),
        c.x.difference(a.x).product(b.y.difference(a.y)),
    );
}

//
// Meshes
//
/// Vertices, the faces between them and their texture coordinates, with
/// the mesh's place in the world and the shader that colours it.
pub struct Mesh {
    pub vertices: Vec<Vector3>,
    pub faces: Vec<Face>,
    pub uvs: Vec<Vector2>,
    pub transformation: Transformation,
    pub shader: Shader,
}

/// Where a vertex of an object lands on the screen, and how deep:
/// transformed into the world, projected by the camera, and brought from
/// the projection's range to pixels.
pub open spec fn on_screen(camera: CameraView, matrix: Matrix44, vertex: Vector3) -> Vector3 {
    camera.on_screen(camera.projected(moved(matrix, vertex)))
}

impl Mesh {
    /// Whether every face refers to vertices and texture coordinates that
    /// the mesh has.
    pub open spec fn valid(&self) -> bool {
        forall|k: int|
            0 <= k < self.faces@.len() ==> (#[trigger] self.faces@[k]).within(
                self.vertices@.len(),
                self.uvs@.len(),
            )
    }

    /// The triangle that a face makes on the screen.
    pub open spec fn triangle_of(&self, face: Face, camera: CameraView) -> Triangle {
        Triangle {
            a: on_screen(camera, self.transformation.matrix(), self.vertices@[face.a as int]),
            b: on_screen(camera, self.transformation.matrix(), self.vertices@[face.b as int]),
            c: on_screen(camera, self.transformation.matrix(), self.vertices@[face.c as int]),
            uva: self.uvs@[face.uva as int],
            uvb: self.uvs@[face.uvb as int],
            uvc: self.uvs@[face.uvc as int],
        }
    }

    /// The frame after one face was drawn. A face that does not face the
    /// viewer leaves the frame as it is. The brightness of a face that does
    /// is what the shader makes of its normal, turned as the mesh is turned.
    pub open spec fn with_face(
        &self,
        frame: FrameView,
        face: Face,
        camera: CameraView,
        light: DirectionalLight,
        ambient: Scalar,
    ) -> FrameView {
        let triangle = self.triangle_of(face, camera);
        if front_facing(signed_area(triangle.a, triangle.b, triangle.c)) {
            frame.with_triangle(
                triangle,
                self.shader,
                self.shader.brightness(
                    turned(self.transformation.matrix(), face.normal),
                    light,
                    ambient,
                ),
            )
        } else {
            frame
        }
    }

    /// The frame after the first `count` faces were drawn, in their order.
    pub open spec fn with_faces(
        &self,
        frame: FrameView,
        count: nat,
        camera: CameraView,
        light: DirectionalLight,
        ambient: Scalar,
    ) -> FrameView
        decreases count,
    {
        if count == 0 {
            frame
        } else {
            self.with_face(
                self.with_faces(frame, (count - 1) as nat, camera, light, ambient),
                self.faces@[count - 1],
                camera,
                light,
                ambient,
            )
        }
    }

    /// Where a new mesh stands: at the origin, not turned, at scale one.
    pub open spec fn placed() -> TransformationView {
        TransformationView {
            position: Vector3::zero(),
            scale: Scalar { bits: ONE_BITS },
            quaternion: Vector4 {
                x: Scalar { bits: 0 },
                y: Scalar { bits: 0 },
                z: Scalar { bits: 0 },
                w: Scalar { bits: ONE_BITS },
            },
        }
    }

    /// How a new mesh is coloured: white all over.
    pub open spec fn plain() -> Shader {
        Shader::Standard(StandardShader { color: Color(255, 255, 255) })
    }

    /// A mesh where it was made: not moved, not turned, white all over.
    pub fn new(vertices: Vec<Vector3>, faces: Vec<Face>, uvs: Vec<Vector2>) -> (m: Mesh)
        ensures
            m.vertices == vertices,
            m.faces == faces,
            m.uvs == uvs,
            m.transformation@ == Mesh::placed(),
            m.shader == Mesh::plain(),
    {
        let zero = Scalar::zero();
        Mesh {
            vertices,
            faces,
            uvs,
            transformation: Transformation::new(
                Vector3 { x: zero, y: zero, z: zero },
                Vector4 { x: zero, y: zero, z: zero, w: Scalar::one() },
            ),
            shader: Shader::Standard(StandardShader::new(Color(255, 255, 255))),
        }
    }

    /// Whether every face refers to vertices and texture coordinates that
    /// the mesh has, so that the mesh can be drawn.
    pub fn is_valid(&self) -> (r: bool)
        ensures
            r == self.valid(),
    {
        let mut k: usize = 0;
        while k < self.faces.len()
            invariant
                k <= self.faces@.len(),
                forall|j: int|
                    0 <= j < k ==> (#[trigger] self.faces@[j]).within(
                        self.vertices@.len(),
                        self.uvs@.len(),
                    ),
            decreases self.faces@.len() - k,
        {
            if !self.faces[k].is_within(self.vertices.len(), self.uvs.len()) {
                return false;
            }
            k += 1;
        }
        true
    }

    /// Draws the mesh onto the frame. Every vertex is projected once; then
    /// the faces are drawn in their order, each that faces the viewer at
    /// the brightness that the shader gives it.
    pub fn draw(&self, renderer: &mut Renderer, world: &World)
        requires
            self.valid(),
        ensures
            final(renderer)@ == self.with_faces(
                old(renderer)@,
                self.faces@.len(),
                world.camera@,
                world.light,
                world.ambient,
            ),
    {
        let mut vertices_projected: Vec<Vector3> = Vec::with_capacity(self.vertices.len());
        let mut i: usize = 0;
        while i < self.vertices.len()
            invariant
                i <= self.vertices@.len(),
                vertices_projected@.len() == i,
                forall|j: int|
                    0 <= j < i ==> vertices_projected@[j] == on_screen(
                        world.camera@,
                        self.transformation.matrix(),
                        self.vertices@[j],
                    ),
            decreases self.vertices@.len() - i,
        {
            let vertex = self.vertices[i];
            vertices_projected.push(
                world.camera.to_ndc(world.camera.project_point(&vertex, &self.transformation)),
            );
            i += 1;
        }
        let mut k: usize = 0;
        while k < self.faces.len()
            invariant
                k <= self.faces@.len(),
                self.valid(),
                vertices_projected@.len() == self.vertices@.len(),
                forall|j: int|
                    0 <= j < self.vertices@.len() ==> vertices_projected@[j] == on_screen(
                        world.camera@,
                        self.transformation.matrix(),
                        self.vertices@[j],
                    ),
                renderer@ == self.with_faces(
                    old(renderer)@,
                    k as nat,
                    world.camera@,
                    world.light,
                    world.ambient,
                ),
            decreases self.faces@.len() - k,
        {
            let face = self.faces[k];
            assert(self.faces@[k as int].within(self.vertices@.len(), self.uvs@.len()));
            let a = vertices_projected[face.a];
            let b = vertices_projected[face.b];
            let c = vertices_projected[face.c];
            let area = b.x.minus(&a.x).times(&c.y.minus(&a.y)).minus(
                &c.x.minus(&a.x).times(&b.y.minus(&a.y)),
            );
            if is_front_facing(area) {
                let normal = self.transformation.transform_direction(&face.normal);
                let brightness = self.shader.calculate_lighting(&normal, world);
                let uva = self.uvs[face.uva];
                let uvb = self.uvs[face.uvb];
                let uvc = self.uvs[face.uvc];
                renderer.draw_triangle(&a, &b, &c, &uva, &uvb, &uvc, &self.shader, brightness);
            }
            k += 1;
        }
    }
}

} // verus!
