//! Why a request was turned down.

use vstd::prelude::*;

verus! {

/// Which buffer a shader run would need more room for.
#[derive(Clone, Copy, Debug, PartialEq, Eq, Structural)]
pub enum Buffer {
    /// The noise values read back from the shader.
    Output,
    /// The gradients uploaded to it.
    Gradient,
}

/// Everything the library can refuse, each with the numbers it was refused
/// over.
#[derive(Clone, Copy, Debug, PartialEq, Eq, Structural)]
pub enum NoiseError {
    /// `dims` was empty.
    NoDimensions,
    /// `dims` had more than [`crate::MAX_DIMS`] entries.
    TooManyDimensions,
    /// An entry of `dims` was 0.
    ZeroDimension,
    /// A lattice or table would hold more entries than a `usize` counts.
    Overflow,
    /// A point had the wrong number of coordinates.
    WrongCoordinateCount { expected: usize, got: usize },
    /// There was not one divisor per dimension.
    WrongDivisorCount { expected: usize, got: usize },
    /// A divisor was 0.
    ZeroDivisor,
    /// A renderer was asked to wrap a field of other than 2 to 4 dimensions.
    ImageDimensions { got: usize },
    /// A rendering mode was used on a field of the wrong dimension.
    WrongDimensionCount { wanted: usize, got: usize },
    /// The colour axis has too few samples for three channels.
    ShallowColourAxis { depth: usize },
    /// A slice index lies outside the colour axis.
    SliceOutsideColourAxis { slice: usize, depth: usize },
    /// An image of zero width or height was asked for.
    EmptyImage,
    /// Shading samples per pixel were not between 1 and [`crate::MAX_SAMPLES`].
    SampleCount { got: usize },
    /// The shader supports at most [`crate::SHADER_MAX_DIMS`] dimensions.
    ShaderDimensions,
    /// The table has more points than a shader invocation can index.
    ShaderPointCount,
    /// A lattice number does not fit in a 32 bit shader integer.
    ShaderIntegers,
    /// A buffer would be larger than the adapter allows.
    BufferTooLarge { buffer: Buffer, needed: u64, budget: u64 },
}

} // verus!
