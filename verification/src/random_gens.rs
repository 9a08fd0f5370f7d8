//! The fixed parameters of the procedural height field.
//!
//! The height field is a fixed-seed multi-octave ridged noise function,
//! sampled at the tile's world position scaled down and shifted by a fixed
//! offset (chosen off the origin to avoid the noise function's singularity
//! there). The sampler itself works in floating point and lives with the
//! embedding, outside this crate; generation and every later re-query must
//! use the same seed and offset below, so that elevation is a pure function
//! of the coordinate. Sampled heights enter the library as fixed-point
//! values, `ELEVATION_UNIT` fractions per unit of height.

use vstd::prelude::*;

verus! {

/// The seed of the heightmap noise function.
pub const HEIGHTMAP_SEED: u32 = 14068690;

/// World positions are divided by this before sampling the noise function.
pub const SAMPLE_SCALE: i64 = 10;

/// The fixed sampling offset, in `ELEVATION_UNIT` fractions: both sampling
/// axes are shifted by this amount after scaling.
pub const SAMPLE_OFFSET_FRACTIONS: i64 = 467_210;

/// Marker for the height-field configuration above: the one consumer of
/// randomness, pinned to the fixed seed so that every query is repeatable.
pub struct RandomPlugin;

} // verus!
