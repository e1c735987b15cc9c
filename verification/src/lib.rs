//! A software 3D rendering library: a TGA image container with run-length
//! compression, line and triangle rasterization with a z-buffer, and flat
//! shading with texture sampling.
//!
//! All coordinates and intensities are fixed-point integers: a value `v`
//! stands for the real number `v / FIXED_ONE` (see [`geometry::FIXED_ONE`]).

pub mod codec;
pub mod geometry;
pub mod model;
pub mod renderer;
pub mod tgaimage;
