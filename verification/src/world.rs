//! The scene round the meshes.

use vstd::prelude::*;
use crate::camera::PerspectiveCamera;
use crate::math::Vector3;
use crate::scalar::Scalar;

verus! {

/// The scene round the meshes: who looks, and by what light.
pub struct World {
    pub camera: PerspectiveCamera,
    pub light: DirectionalLight,
    pub ambient: Scalar,
}

/// A light without a place: it shines in one direction, as strongly
/// everywhere.
#[derive(Clone, Copy, Debug, PartialEq, Eq, Structural)]
pub struct DirectionalLight {
    pub direction: Vector3,
    pub intensity: Scalar,
}

impl DirectionalLight {
    /// A light that shines in `direction` with the given intensity.
    pub fn new(direction: &Vector3, intensity: Scalar) -> (l: DirectionalLight)
        ensures
            l == (DirectionalLight { direction: *direction, intensity }),
    {
        DirectionalLight { direction: *direction, intensity }
    }
}

} // verus!
