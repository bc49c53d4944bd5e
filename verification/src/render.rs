//! What a rendering mode checks before it samples anything.
//!
//! A renderer wraps a field of two dimensions (greyscale, palette, relief or
//! hair), three (colour from three slices of the third axis) or four (a
//! globe). Axes map to the image the way a row-major array does, so the
//! first axis runs down the image and the second across it; for a three
//! dimensional field the third axis is the colour axis.

use vstd::prelude::*;

use crate::error::NoiseError;
use crate::lattice::{Lattice, refined_size, table_layout_result};

verus! {

/// Most shading samples a pixel of a globe is allowed along each axis.
pub const MAX_SAMPLES: usize = 8;

impl Lattice {
    /// Checks that the field can be drawn at all: two dimensions (greyscale
    /// or relief), three (colour) or four (globe).
    pub fn check_renderable(&self) -> (checked: Result<(), NoiseError>)
        ensures
            2 <= self@.dims.len() <= 4 ==> checked is Ok,
            !(2 <= self@.dims.len() <= 4) ==> checked == Err::<(), NoiseError>(
                NoiseError::ImageDimensions { got: self@.dims.len() as usize },
            ),
    {
        let n = self.dims().len();
        if n < 2 || n > 4 {
            return Err(NoiseError::ImageDimensions { got: n });
        }
        Ok(())
    }

    /// Checks that a rendering mode meant for `wanted` dimensions is used on
    /// a field of that many.
    pub fn expect_dims(&self, wanted: usize) -> (checked: Result<(), NoiseError>)
        ensures
            self@.dims.len() == wanted ==> checked is Ok,
            self@.dims.len() != wanted ==> checked == Err::<(), NoiseError>(
                NoiseError::WrongDimensionCount { wanted, got: self@.dims.len() as usize },
            ),
    {
        let n = self.dims().len();
        if n != wanted {
            return Err(NoiseError::WrongDimensionCount { wanted, got: n });
        }
        Ok(())
    }

    /// Samples along the third axis for `divisors`, without sampling the
    /// field.
    pub fn color_axis(&self, divisors: &[usize]) -> (depth: Result<usize, NoiseError>)
        requires
            self@.dims.len() == 3,
        ensures
            match table_layout_result(self@.dims, divisors@) {
                Err(e) => depth == Err::<usize, NoiseError>(e),
                Ok(_) => depth == Ok::<usize, NoiseError>(refined_size(self@.dims, divisors@, 2) as usize),
            },
    {
        match self.table_shape(divisors) {
            Ok(shape) => Ok(shape[2]),
            Err(e) => Err(e),
        }
    }
}

/// The three slices a colour image takes its red, green and blue from when
/// none are chosen: the ends of the colour axis and its middle, which leaves
/// the channels largely independent. The axis needs at least three samples.
pub fn default_slices(depth: usize) -> (slices: Result<[usize; 3], NoiseError>)
    ensures
        depth < 3 ==> slices == Err::<[usize; 3], NoiseError>(NoiseError::ShallowColourAxis { depth }),
        depth >= 3 ==> (slices matches Ok(s) && s[0] == 0 && s[1] == (depth - 1) / 2 && s[2] == depth - 1),
{
    if depth < 3 {
        return Err(NoiseError::ShallowColourAxis { depth });
    }
    Ok([0, (depth - 1) / 2, depth - 1])
}

/// Checks that a slice index lies on a colour axis of `depth` samples.
pub fn check_slice(slice: usize, depth: usize) -> (checked: Result<(), NoiseError>)
    ensures
        slice < depth ==> checked is Ok,
        slice >= depth ==> checked == Err::<(), NoiseError>(NoiseError::SliceOutsideColourAxis { slice, depth }),
{
    if slice >= depth {
        return Err(NoiseError::SliceOutsideColourAxis { slice, depth });
    }
    Ok(())
}

/// Checks three slice indices in order; the first one off the colour axis is
/// the one reported.
pub fn check_slices(slices: [usize; 3], depth: usize) -> (checked: Result<(), NoiseError>)
    ensures
        slices[0] >= depth ==> checked == Err::<(), NoiseError>(
            NoiseError::SliceOutsideColourAxis { slice: slices[0], depth },
        ),
        slices[0] < depth && slices[1] >= depth ==> checked == Err::<(), NoiseError>(
            NoiseError::SliceOutsideColourAxis { slice: slices[1], depth },
        ),
        slices[0] < depth && slices[1] < depth && slices[2] >= depth ==> checked == Err::<(), NoiseError>(
            NoiseError::SliceOutsideColourAxis { slice: slices[2], depth },
        ),
        slices[0] < depth && slices[1] < depth && slices[2] < depth ==> checked is Ok,
{
    let mut k: usize = 0;
    while k < 3
        invariant
            k <= 3,
            forall|j: int| 0 <= j < k ==> #[trigger] slices[j] < depth,
        decreases 3 - k,
    {
        if slices[k] >= depth {
            return Err(NoiseError::SliceOutsideColourAxis { slice: slices[k], depth });
        }
        k = k + 1;
    }
    Ok(())
}

/// Checks that an image measured in pixels has a positive width and height.
pub fn check_image_size(width: usize, height: usize) -> (checked: Result<(), NoiseError>)
    ensures
        width > 0 && height > 0 ==> checked is Ok,
        width == 0 || height == 0 ==> checked == Err::<(), NoiseError>(NoiseError::EmptyImage),
{
    if width == 0 || height == 0 {
        return Err(NoiseError::EmptyImage);
    }
    Ok(())
}

/// Checks the shading samples per pixel of a globe: 1 to [`MAX_SAMPLES`].
pub fn check_samples(samples: usize) -> (checked: Result<(), NoiseError>)
    ensures
        1 <= samples <= MAX_SAMPLES ==> checked is Ok,
        !(1 <= samples <= MAX_SAMPLES) ==> checked == Err::<(), NoiseError>(
            NoiseError::SampleCount { got: samples },
        ),
{
    if samples == 0 || samples > MAX_SAMPLES {
        return Err(NoiseError::SampleCount { got: samples });
    }
    Ok(())
}

/// One less than `pixels`, shared among `cells`, and never less than one.
pub open spec fn pixels_per_cell(pixels: usize, cells: usize) -> int {
    if pixels >= 1 && (pixels - 1) / (cells as int) >= 1 {
        (pixels - 1) / (cells as int)
    } else {
        1
    }
}

/// Divisors that sample a two dimensional field about as densely as a hair
/// image of `width` by `height` pixels, so a strand can read its colour off
/// the relief of the same field. The first axis runs down the image, so the
/// height is shared among its cells, and the width among those of the
/// second.
pub fn relief_map_divisors(width: usize, height: usize, dims: &[usize]) -> (divisors: [usize; 2])
    requires
        dims@.len() >= 2,
        dims@[0] > 0,
        dims@[1] > 0,
    ensures
        divisors[0] == pixels_per_cell(height, dims@[0]),
        divisors[1] == pixels_per_cell(width, dims@[1]),
{
    let down = height.saturating_sub(1) / dims[0];
    let across = width.saturating_sub(1) / dims[1];
    let first = if down >= 1 {
        down
    } else {
        1
    };
    let second = if across >= 1 {
        across
    } else {
        1
    };
    proof {
        if width == 0 {
            assert(across == 0);
        }
        if height == 0 {
            assert(down == 0);
        }
    }
    let divisors = [first, second];
    assert(divisors[0] == first);
    assert(divisors[1] == second);
    divisors
}

} // verus!
