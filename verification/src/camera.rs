//! The perspective camera.
//!
//! The camera does not turn. It looks along the z axis, towards greater z:
//! a point of the world lies in front of it where the point's z is greater
//! than the camera's, and behind it where it is less. On the screen x is
//! mirrored and y is upright.

use vstd::prelude::*;
use crate::graphics::{Fragment, FrameView};
use crate::math::{Matrix44, Vector2, Vector3, Vector4};
use crate::mesh::{moved, Transformation, TWO_BITS};
use crate::scalar::{Scalar, ONE_BITS};

verus! {

/// The encoding of a tenth, the depth at which the view begins.
pub const NEAR_BITS: u32 = 0x3DCC_CCCD;

/// The encoding of a hundred, the depth at which the view ends.
pub const FAR_BITS: u32 = 0x42C8_0000;

/// The depth that a projected point is drawn with. `depth` is what the
/// projection gives; `camera_z` is how far in front of the camera the point
/// lies, negative for a point behind it.
///
/// The pipeline clips nothing. In place of that, a point behind the camera
/// has the sign of its depth changed; a point in front keeps its depth.
pub open spec fn seen_depth(depth: Scalar, camera_z: Scalar) -> Scalar {
    if camera_z.num_lt(Scalar { bits: 0 }) {
        depth.negation()
    } else {
        depth
    }
}

/// The depth that a projected point is drawn with: its projected depth, the
/// sign changed for a point behind the camera.
pub fn corrected_depth(depth: Scalar, camera_z: Scalar) -> (seen: Scalar)
    ensures
        seen == seen_depth(depth, camera_z),
{
    if camera_z.lt(&Scalar::zero()) {
        depth.negated()
    } else {
        depth
    }
}

/// What lies behind the camera is not drawn: where its projected depth is
/// not below zero, the depth it is drawn with is not above it, and no frame
/// accepts a fragment whose depth is not positive.
pub proof fn lemma_behind_camera_is_rejected(frame: FrameView, fragment: Fragment, camera_z: Scalar)
    requires
        camera_z.num_lt(Scalar { bits: 0 }),
        fragment.depth.non_negative(),
    ensures
        !frame.accepts(Fragment { depth: seen_depth(fragment.depth, camera_z), ..fragment }),
{
    fragment.depth.lemma_negation_mirrors(Scalar { bits: 0 });
}

/// The projection matrix of a camera whose field of view has the given
/// tangent of its half angle, for a viewport of the given aspect, with the
/// view between the depths `z_near` and `z_far`.
pub open spec fn projection_of(tangent: Scalar, aspect: Scalar, z_near: Scalar, z_far: Scalar)
    -> Matrix44 {
    let one = Scalar { bits: ONE_BITS };
    let zero = Scalar { bits: 0 };
    let range = z_far.difference(z_near);
    Matrix44 {
        data: [
            one.quotient(tangent.product(aspect)),
            zero,
            zero,
            zero,
            zero,
            one.quotient(tangent),
            zero,
            zero,
            zero,
            zero,
            z_far.negation().quotient(range),
            one,
            zero,
            zero,
            z_far.negation().product(z_near).quotient(range),
            zero,
        ],
    }
}

/// What a camera holds.
pub struct CameraView {
    pub position: Vector3,
    pub size: Vector2,
    pub z_near: Scalar,
    pub z_far: Scalar,
    pub aspect: Scalar,
    pub tangent: Scalar,
}

impl CameraView {
    /// The projection matrix that the camera applies.
    pub open spec fn matrix(self) -> Matrix44 {
        projection_of(self.tangent, self.aspect, self.z_near, self.z_far)
    }

    /// Where a point of the world lands in the projection's range from -1
    /// to 1, and the depth it is drawn with: the point as the camera sees
    /// it, projected, divided by w, its depth corrected. The camera looks
    /// towards greater z, so the point is behind it where the point's z
    /// less the camera's is negative.
    pub open spec fn projected(self, world_point: Vector3) -> Vector3 {
        let point = world_point.difference(self.position);
        let divided = self.matrix().applied(
            Vector4 { x: point.x, y: point.y, z: point.z, w: Scalar { bits: ONE_BITS } },
        ).divided();
        Vector3 { z: seen_depth(divided.z, point.z), ..divided }
    }

    /// From the projection's range to pixels: x mirrored, ((-x + 1) *
    /// width) / 2, y upright, ((y + 1) * height) / 2; the depth as it is.
    pub open spec fn on_screen(self, projected: Vector3) -> Vector3 {
        let one = Scalar { bits: ONE_BITS };
        let two = Scalar { bits: TWO_BITS };
        Vector3 {
            x: projected.x.negation().sum(one).product(self.size.x).quotient(two),
            y: projected.y.sum(one).product(self.size.y).quotient(two),
            z: projected.z,
        }
    }
}

/// A perspective camera at a position in the world, looking along the z
/// axis towards greater z. What it sees of a point is the point less the
/// camera's position: the point is in front of the camera where the z of
/// that difference is positive, behind it where it is negative.
///
/// Its projection matrix follows its parameters: every change of one of
/// them rebuilds it, so that no stale matrix is ever applied.
pub struct PerspectiveCamera {
    position: Vector3,
    size: Vector2,
    z_near: Scalar,
    z_far: Scalar,
    aspect: Scalar,
    tangent: Scalar,
    projection_matrix: Matrix44,
}

impl View for PerspectiveCamera {
    type V = CameraView;

    closed spec fn view(&self) -> CameraView {
        CameraView {
            position: self.position,
            size: self.size,
            z_near: self.z_near,
            z_far: self.z_far,
            aspect: self.aspect,
            tangent: self.tangent,
        }
    }
}

fn build_projection(tangent: &Scalar, aspect: &Scalar, z_near: &Scalar, z_far: &Scalar) -> (m:
    Matrix44)
    ensures
        m == projection_of(*tangent, *aspect, *z_near, *z_far),
{
    let one = Scalar::one();
    let zero = Scalar::zero();
    let range = z_far.minus(z_near);
    let m = Matrix44 {
        data: [
            one.over(&tangent.times(aspect)),
            zero,
            zero,
            zero,
            zero,
            one.over(tangent),
            zero,
            zero,
            zero,
            zero,
            z_far.negated().over(&range),
            one,
            zero,
            zero,
            z_far.negated().times(z_near).over(&range),
            zero,
        ],
    };
    assert(m.data@ =~= projection_of(*tangent, *aspect, *z_near, *z_far).data@);
    m
}

impl PerspectiveCamera {
    #[verifier::type_invariant]
    spec fn inv(&self) -> bool {
        self.projection_matrix == projection_of(
            self.tangent,
            self.aspect,
            self.z_near,
            self.z_far,
        )
    }

    /// The projection matrix that the camera holds ready, built when one of
    /// its parameters last changed.
    pub closed spec fn held_matrix(&self) -> Matrix44 {
        self.projection_matrix
    }

    /// A camera at `position`, looking towards greater z, for a viewport of
    /// the given size, with a field of view of a quarter turn, whose half
    /// angle has tangent one, and the view between the depths 0.1 and 100.
    pub fn new(position: &Vector3, sizex: Scalar, sizey: Scalar) -> (c: PerspectiveCamera)
        ensures
            c@ == (CameraView {
                position: *position,
                size: Vector2 { x: sizex, y: sizey },
                z_near: Scalar { bits: NEAR_BITS },
                z_far: Scalar { bits: FAR_BITS },
                aspect: sizex.quotient(sizey),
                tangent: Scalar { bits: ONE_BITS },
            }),
    {
        let z_near = Scalar::from_bits(NEAR_BITS);
        let z_far = Scalar::from_bits(FAR_BITS);
        let aspect = sizex.over(&sizey);
        let tangent = Scalar::one();
        PerspectiveCamera {
            position: *position,
            size: Vector2 { x: sizex, y: sizey },
            z_near,
            z_far,
            aspect,
            tangent,
            projection_matrix: build_projection(&tangent, &aspect, &z_near, &z_far),
        }
    }

    /// Where the camera stands.
    pub fn position(&self) -> (p: Vector3)
        ensures
            p == self@.position,
    {
        self.position
    }

    /// The size of the viewport, in pixels.
    pub fn size(&self) -> (s: Vector2)
        ensures
            s == self@.size,
    {
        self.size
    }

    /// The projection matrix, which is that of the parameters as they are
    /// now.
    pub fn projection_matrix(&self) -> (m: Matrix44)
        ensures
            m == self@.matrix(),
            m == self.held_matrix(),
    {
        proof {
            use_type_invariant(self);
        }
        self.projection_matrix
    }

    /// Moves the camera. The projection does not depend on where it stands.
    pub fn set_position(&mut self, position: Vector3)
        ensures
            final(self)@ == (CameraView { position, ..old(self)@ }),
    {
        proof {
            use_type_invariant(&*self);
        }
        self.position = position;
    }

    /// Follows the viewport to a new size: the aspect is the width over the
    /// height, and the matrix is rebuilt.
    pub fn set_size(&mut self, sizex: Scalar, sizey: Scalar)
        ensures
            final(self)@ == (CameraView {
                size: Vector2 { x: sizex, y: sizey },
                aspect: sizex.quotient(sizey),
                ..old(self)@
            }),
    {
        let aspect = sizex.over(&sizey);
        *self = PerspectiveCamera {
            position: self.position,
            size: Vector2 { x: sizex, y: sizey },
            z_near: self.z_near,
            z_far: self.z_far,
            aspect,
            tangent: self.tangent,
            projection_matrix: build_projection(&self.tangent, &aspect, &self.z_near, &self.z_far),
        };
    }

    /// Sets the field of view by the tangent of its half angle, and
    /// rebuilds the matrix.
    pub fn set_fov_tangent(&mut self, tangent: Scalar)
        ensures
            final(self)@ == (CameraView { tangent, ..old(self)@ }),
    {
        *self = PerspectiveCamera {
            position: self.position,
            size: self.size,
            z_near: self.z_near,
            z_far: self.z_far,
            aspect: self.aspect,
            tangent,
            projection_matrix: build_projection(&tangent, &self.aspect, &self.z_near, &self.z_far),
        };
    }

    /// Sets the depths between which the view lies, and rebuilds the matrix.
    pub fn set_depth_range(&mut self, z_near: Scalar, z_far: Scalar)
        ensures
            final(self)@ == (CameraView { z_near, z_far, ..old(self)@ }),
    {
        *self = PerspectiveCamera {
            position: self.position,
            size: self.size,
            z_near,
            z_far,
            aspect: self.aspect,
            tangent: self.tangent,
            projection_matrix: build_projection(&self.tangent, &self.aspect, &z_near, &z_far),
        };
    }

    /// Generates the projection matrix anew: the matrix held is built from
    /// the field of view, the aspect and the depths of the view as they
    /// are. Every change of a parameter has done so already, so nothing
    /// else changes.
    pub fn generate_projection_matrix(&mut self)
        ensures
            final(self)@ == old(self)@,
            final(self).held_matrix() == projection_of(
                old(self)@.tangent,
                old(self)@.aspect,
                old(self)@.z_near,
                old(self)@.z_far,
            ),
    {
        *self = PerspectiveCamera {
            position: self.position,
            size: self.size,
            z_near: self.z_near,
            z_far: self.z_far,
            aspect: self.aspect,
            tangent: self.tangent,
            projection_matrix: build_projection(
                &self.tangent,
                &self.aspect,
                &self.z_near,
                &self.z_far,
            ),
        };
    }

    /// Where a point of an object lands in the projection's range, and the
    /// depth it is drawn with.
    pub fn project_point(&self, point: &Vector3, transformation: &Transformation) -> (p: Vector3)
        ensures
            p == self@.projected(moved(transformation.matrix(), *point)),
    {
        proof {
            use_type_invariant(self);
        }
        let point = transformation.transformed(point).minus(&self.position);
        let projected = self.projection_matrix.multiply_vec4(
            &Vector4 { x: point.x, y: point.y, z: point.z, w: Scalar::one() },
        ).to_vector3();
        Vector3 { x: projected.x, y: projected.y, z: corrected_depth(projected.z, point.z) }
    }

    /// From the projection's range to pixels, x mirrored; the depth passes
    /// through.
    pub fn to_ndc(&self, projected: Vector3) -> (p: Vector3)
        ensures
            p == self@.on_screen(projected),
    {
        let one = Scalar::one();
        let two = Scalar::from_bits(TWO_BITS);
        Vector3 {
            x: projected.x.negated().plus(&one).times(&self.size.x).over(&two),
            y: projected.y.plus(&one).times(&self.size.y).over(&two),
            z: projected.z,
        }
    }
}

} // verus!
