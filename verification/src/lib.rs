//! A software rasterizer, verified: it turns triangle meshes, a perspective
//! camera and one directional light into a frame of pixels by projection,
//! transformation and scanline rasterization.
//!
//! Real numbers are held in the 32-bit binary interchange encoding, by
//! their bit patterns (see [`scalar::Scalar`]). Their arithmetic is the
//! library's own: every operation gives the nearest number that the
//! encoding has to the exact result, and is proved to.
//!
//! Decimal numerals are read by the library too, to the nearest number
//! whatever their length (see [`number::read_number`]); and what rounding
//! leaves of the laws of the pipeline is stated and proved beside it (see
//! [`rotation`] and the laws of [`graphics`]).
//!
//! The library opens no window and reads no file. It draws into the frame
//! of a [`graphics::Renderer`], which whoever presents it reads; it takes
//! the text of a mesh file and the bytes of an image file from whoever read
//! them.

pub mod scalar;
pub mod rounding;
pub mod arithmetic;
pub mod natural;
pub mod number;
pub mod math;
pub mod graphics;
pub mod camera;
pub mod world;
pub mod shaders;
pub mod mesh;
pub mod rotation;
pub mod loader;
