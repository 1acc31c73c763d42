//! TurboQuant: data-oblivious vector quantization with near-optimal distortion.
//!
//! Vectors are compressed in three steps:
//!
//! 1. **Rotate** with a random orthogonal matrix, after which every coordinate of a unit
//!    vector follows the same known distribution.
//! 2. **Quantize** each coordinate on its own with an optimal Lloyd-Max codebook for that
//!    distribution.
//! 3. **Pack** the b-bit indices into bytes.
//!
//! Codebooks depend only on the dimension and the bit-width, and the rotation only on the
//! dimension and a seed: nothing is trained on data.
//!
//! Numbers are held as bit patterns, see [`float`]. Their arithmetic is handed in by the
//! caller as functions, and the contracts say which of these is called on what; everything
//! else, from the order of numbers to the bits of a packed code, is proved here.
//!
//! - [`arithmetic`]: the arithmetic on vectors that is handed in
//! - [`codebook`]: Lloyd-Max codebooks, bins and centroids
//! - [`density`]: codebooks from the arithmetic on numbers up
//! - [`rotation`]: rotation by an orthogonal matrix
//! - [`orthogonal`]: what random matrices are in exact arithmetic
//! - [`centroids`]: what codebooks are in exact arithmetic
//! - [`certainty`]: what codebooks and matrices follow from
//! - [`linear`]: sums and dot products of real numbers
//! - [`packing`]: b-bit packing and unpacking
//! - [`builder`]: [`TurboQuantizer`](builder::TurboQuantizer), which encodes vectors
//! - [`storage`]: stored codes, their metadata, and distances from a query to them
//! - [`formulas`]: dot products and distances from sums and products
//! - [`transform`]: the step that replaces a batch's vectors by their codes
use vstd::prelude::*;

pub mod arithmetic;
pub mod builder;
pub mod centroids;
pub mod certainty;
pub mod codebook;
pub mod density;
pub mod error;
pub mod float;
pub mod formulas;
pub mod linear;
pub mod orthogonal;
pub mod packing;
pub mod rotation;
pub mod storage;
pub mod transform;

verus! {

/// How the distance between two vectors is measured.
#[derive(Debug, Clone, Copy, PartialEq, Eq, Structural)]
pub enum DistanceType {
    /// Squared Euclidean distance.
    L2,
    /// One minus the cosine of the angle.
    Cosine,
    /// The negated dot product.
    Dot,
    /// The number of bits that differ.
    Hamming,
}

/// Whether vectors are quantized as differences from their partition's centroid.
pub open spec fn uses_residual(distance_type: DistanceType) -> bool {
    distance_type == DistanceType::L2 || distance_type == DistanceType::Cosine
}

/// Build parameters for a quantizer.
///
/// No training data has to be sampled: the codebook is determined by the dimension and the
/// bit-width alone.
#[derive(Debug, Clone, Copy, PartialEq, Eq, Structural)]
pub struct TurboBuildParams {
    /// Bit-width per coordinate (1-8). Default: 4.
    pub num_bits: u32,
    /// Seed for the rotation matrix. Default: 42.
    pub seed: u64,
}

impl Default for TurboBuildParams {
    fn default() -> (r: TurboBuildParams)
        ensures
            r == (TurboBuildParams { num_bits: 4, seed: 42 }),
    {
        TurboBuildParams { num_bits: 4, seed: 42 }
    }
}

impl TurboBuildParams {
    /// The number of training vectors that have to be sampled: none.
    pub fn sample_size(&self) -> (r: usize)
        ensures
            r == 0,
    {
        0
    }

    /// Whether vectors are quantized as differences from their partition's centroid.
    pub fn use_residual(distance_type: DistanceType) -> (r: bool)
        ensures
            r == uses_residual(distance_type),
    {
        match distance_type {
            DistanceType::L2 => true,
            DistanceType::Cosine => true,
            DistanceType::Dot => false,
            DistanceType::Hamming => false,
        }
    }
}

} // verus!
