//! Ray casting of a triangulated mesh into a grayscale pixel grid, over exact
//! fixed-point arithmetic.
//!
//! Coordinates are integers in units of `1 / SCALE` of a scene unit. Ray
//! parameters are exact rationals, so every distance the caster reports is the
//! true intersection parameter of the integer scene.

pub mod vector;
pub mod geometry;
pub mod scene;
pub mod mesh;
pub mod raster;
pub mod obj;
