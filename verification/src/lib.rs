//! Perlin noise in an arbitrary number of dimensions: the integer core.
//!
//! This crate holds the parts of the noise field that are decided by whole
//! numbers: the seeded generator the gradients are drawn from, the layout of
//! the lattice and of its refined tables, the checks every rendering mode
//! makes before it samples, the byte buffer an image is returned in, and the
//! way work is cut into pieces for threads and shader dispatches.

mod error;
pub mod gpu;
pub mod image;
pub mod lattice;
pub mod layout;
pub mod render;
pub mod rng;
pub mod split;

pub use error::{Buffer, NoiseError};
pub use gpu::{SHADER_MAX_DIMS, WORKGROUP_SIZE};
pub use image::{Image, ImageView, Palette, Shape};
pub use lattice::{Lattice, LatticeView, MAX_DIMS};
pub use render::MAX_SAMPLES;
pub use rng::{strand_seed, SplitMix64};
