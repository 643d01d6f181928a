//! Discrete core of a Monte Carlo path tracer: the Perlin lattice
//! permutations, the bounding-volume-hierarchy split plan, texel lookup in an
//! RGB image and the PPM encoding of the final pixels. The floating-point
//! shading kernel drives these pieces and lives beside the library.
pub mod bvh;
pub mod clamp;
pub mod image_data;
pub mod perlin;
pub mod ppm;
mod random;
