//! A small software 3D renderer: object and camera transforms, perspective
//! projection, bounding-sphere visibility culling, and a scanline rasterizer
//! with a per-pixel depth buffer.
//!
//! All geometric scalars are Q47.16 fixed-point numbers stored in `i64`
//! (see [`fixed`]), so every stage of the pipeline carries an exact
//! integer-arithmetic contract.

pub mod fixed;
pub mod geometry;
pub mod raster;
pub mod consts;
pub mod clipping;
pub mod instance;
