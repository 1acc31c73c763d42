//! The quantizer, which encodes vectors.
//!
//! Of each vector `x` the norm is taken, and
//!
//! ```text
//! 1. x̂ = x / ||x||              Normalize to the unit sphere
//! 2. y = Π · x̂                  Rotate
//! 3. idx[j] = bin of y[j]        Quantize each coordinate on its own
//! 4. packed = pack(idx)          Pack into bytes
//! ```
//!
//! A code is read back by unpacking it, replacing each index by its centroid, rotating back and
//! multiplying with the norm.
//!
//! Building a quantizer reads nothing of the data but the dimension: the codebook follows from
//! the dimension and the bit-width, the rotation from the dimension and the seed.
use vstd::arithmetic::mul::{
    lemma_mul_basics, lemma_mul_inequality, lemma_mul_is_distributive_add_other_way,
};
use vstd::arithmetic::power2::{lemma2_to64, lemma_pow2_strictly_increases, pow2};
use vstd::prelude::*;
use vstd::slice::slice_subrange;

use crate::arithmetic::{tiny_norm, VectorArithmetic};
use crate::codebook::{
    ascending, bin_of, check_parameters, codebook_request, codebook_view, computes_codebooks,
    computes_searchable, gap, get_codebook, halfway_slack, law_bin_brackets_value,
    law_bin_in_range, law_codebook_restores_nearest, parameter_error, quantize_scalar, request_view,
    searchable_codebook, valid_codebook, valid_parameters, CodebookCache, CodebookView,
};
use crate::error::{TurboError, ValueType};
use crate::float::Float32;
use crate::packing::{
    law_pack_round_trip, law_packed_length, pack_codes, packed_codes, packed_len, packed_size,
    unpacked_codes,
};
use crate::rotation::{
    generate_rotation_matrix, generated, law_same_seed_same_matrix, lemma_entry,
    lemma_position, rotate, rotated, rotated_entry, rotation_as_flat_f32, row, seeded, Matrix,
};
use crate::storage::{
    code_field, countable, field_views, make_code_field, make_norm_field, norm_field,
    restored_coordinates, Field, MetadataView, TurboQuantizationMetadata, TURBO_CODE_COLUMN,
    TURBO_METADATA_KEY,
};
use crate::{uses_residual, DistanceType, TurboBuildParams};

verus! {

/// A column of vectors: `len` of them, each of `list_size` elements.
///
/// The elements are there where they are of single precision.
#[derive(Debug)]
pub struct Vectors {
    pub value_type: ValueType,
    pub list_size: usize,
    pub len: usize,
    pub values: Vec<Float32>,
}

/// A column of packed codes: `len` of them, each of `code_len` bytes.
#[derive(Debug)]
pub struct Codes {
    pub len: usize,
    pub code_len: usize,
    pub bytes: Vec<u8>,
}

impl Codes {
    /// The number of codes.
    pub fn len(&self) -> (r: usize)
        ensures
            r == self.len,
    {
        self.len
    }

    /// The number of bytes of a code.
    pub fn value_length(&self) -> (r: usize)
        ensures
            r == self.code_len,
    {
        self.code_len
    }
}

/// The bins of rotated coordinates.
pub open spec fn bins(y: Seq<Float32>, boundaries: Seq<Float32>) -> Seq<u8> {
    Seq::new(y.len(), |j: int| bin_of(y[j], boundaries) as u8)
}

/// Whether `y` is the vector divided by its norm, unless that is tiny, and rotated.
pub open spec fn turned<
    N: Fn(&[Float32]) -> Float32,
    V: Fn(Float32, Float32) -> Float32,
    D: Fn(&[Float32], &[Float32]) -> Float32,
>(
    ops: VectorArithmetic<N, V, D>,
    rotation: Seq<Float32>,
    dim: int,
    x: Seq<Float32>,
    y: Seq<Float32>,
) -> bool {
    exists|x_hat: Seq<Float32>| #[trigger]
        ops.normalized(x, x_hat) && rotated(ops.dot, x_hat, rotation, dim, y)
}

/// Whether all coordinates of the rotated vector are numbers, so that they have a bin.
pub open spec fn encodable<
    N: Fn(&[Float32]) -> Float32,
    V: Fn(Float32, Float32) -> Float32,
    D: Fn(&[Float32], &[Float32]) -> Float32,
>(ops: VectorArithmetic<N, V, D>, rotation: Seq<Float32>, dim: int, x: Seq<Float32>) -> bool {
    forall|y: Seq<Float32>, j: int| #[trigger]
        turned(ops, rotation, dim, x, y) && 0 <= j < y.len() ==> !(#[trigger] y[j]).nan()
}

/// Whether `code` is the packed code of the vector: the bins of its rotated coordinates.
pub open spec fn encoded<
    N: Fn(&[Float32]) -> Float32,
    V: Fn(Float32, Float32) -> Float32,
    D: Fn(&[Float32], &[Float32]) -> Float32,
>(
    ops: VectorArithmetic<N, V, D>,
    rotation: Seq<Float32>,
    boundaries: Seq<Float32>,
    dim: int,
    num_bits: u32,
    x: Seq<Float32>,
    code: Seq<u8>,
) -> bool {
    exists|y: Seq<Float32>| #[trigger]
        turned(ops, rotation, dim, x, y) && y.len() == dim && code == packed_codes(
            bins(y, boundaries),
            num_bits as int,
        )
}

/// Whether `codes` are the packed codes of the first `n` vectors, one after the other.
pub open spec fn all_encoded<
    N: Fn(&[Float32]) -> Float32,
    V: Fn(Float32, Float32) -> Float32,
    D: Fn(&[Float32], &[Float32]) -> Float32,
>(
    ops: VectorArithmetic<N, V, D>,
    rotation: Seq<Float32>,
    boundaries: Seq<Float32>,
    dim: int,
    num_bits: u32,
    values: Seq<Float32>,
    n: int,
    codes: Seq<u8>,
) -> bool {
    let size = packed_size(dim, num_bits as int);
    &&& codes.len() == n * size
    &&& forall|i: int|
        0 <= i < n ==> encoded(
            ops,
            rotation,
            boundaries,
            dim,
            num_bits,
            row(values, dim, i),
            #[trigger] row(codes, size, i),
        )
}

/// Whether each of the restored coordinates is nearest among the centroids, up to the slack.
pub open spec fn nearest(
    y: Seq<Float32>,
    restored: Seq<Float32>,
    centroids: Seq<Float32>,
    slack: int,
) -> bool {
    forall|j: int, other: int|
        0 <= j < y.len() && 0 <= other < centroids.len() ==> #[trigger] gap(y[j], restored[j])
            <= #[trigger] gap(y[j], centroids[other]) + slack
}

/// The error for vectors that are not of single precision.
pub open spec fn type_error(value_type: ValueType) -> TurboError {
    match value_type {
        ValueType::Float16 => TurboError::CastFirst { value_type },
        ValueType::Float64 => TurboError::CastFirst { value_type },
        _ => TurboError::UnsupportedType { value_type },
    }
}

/// Whether the metadata are those of a new quantizer: the rotation matrix is the one for the
/// dimension and the seed, has no position yet, and the codes are not transposed.
pub open spec fn built<O: Fn(usize, u64) -> Vec<Float32>>(
    orthogonal: O,
    dim: usize,
    params: TurboBuildParams,
    metadata: TurboQuantizationMetadata,
) -> bool {
    &&& metadata.rotate_mat matches Some(m) && generated(orthogonal, dim, params.seed, m)
    &&& metadata.rotate_mat_position == None::<u32>
    &&& metadata.num_bits == params.num_bits
    &&& metadata.dimension == dim
    &&& metadata.seed == params.seed
    &&& metadata.packed == false
}

/// Whether matrices can be asked for and have the size of a rotation matrix.
pub open spec fn gives_square_matrices<O: Fn(usize, u64) -> Vec<Float32>>(
    orthogonal: O,
    dim: usize,
    params: TurboBuildParams,
) -> bool {
    valid_parameters(dim, params.num_bits) ==> {
        &&& call_requires(orthogonal, (dim, params.seed))
        &&& forall|values: Vec<Float32>| #[trigger]
            call_ensures(orthogonal, (dim, params.seed), values) ==> values@.len() == dim * dim
    }
}

/// What building a quantizer gives: an error for a dimension below three or a width outside of
/// one to eight bits, else a quantizer with new metadata.
pub open spec fn build_result<O: Fn(usize, u64) -> Vec<Float32>>(
    orthogonal: O,
    dim: usize,
    params: TurboBuildParams,
    r: Result<TurboQuantizer, TurboError>,
) -> bool {
    if valid_parameters(dim, params.num_bits) {
        r matches Ok(quantizer) && built(orthogonal, dim, params, quantizer.metadata)
    } else {
        r == Err::<TurboQuantizer, TurboError>(parameter_error(dim, params.num_bits))
    }
}

/// Data-oblivious vector quantizer.
///
/// It consists of a rotation matrix and, not stored, the codebook that follows from the
/// dimension and the bit-width. The code of a vector takes `ceil(d × b / 8)` bytes.
#[derive(Debug)]
pub struct TurboQuantizer {
    pub metadata: TurboQuantizationMetadata,
}

impl TurboQuantizer {
    /// Create a quantizer for the given dimension and parameters.
    ///
    /// The dimension has to be at least three and the width one to eight bits.
    pub fn new<O: Fn(usize, u64) -> Vec<Float32>>(
        dim: usize,
        params: &TurboBuildParams,
        orthogonal: &O,
    ) -> (r: Result<TurboQuantizer, TurboError>)
        requires
            gives_square_matrices(*orthogonal, dim, *params),
        ensures
            build_result(*orthogonal, dim, *params, r),
    {
        match check_parameters(dim, params.num_bits) {
            Err(e) => {
                return Err(e);
            },
            Ok(_) => {},
        }
        let rotate_mat: Matrix = generate_rotation_matrix(dim, params.seed, orthogonal);
        let metadata = TurboQuantizationMetadata {
            rotate_mat: Some(rotate_mat),
            rotate_mat_position: None,
            num_bits: params.num_bits,
            dimension: dim,
            seed: params.seed,
            packed: false,
        };
        Ok(TurboQuantizer { metadata })
    }

    /// Create a quantizer for vectors like the given ones, of which only the dimension counts.
    pub fn build<O: Fn(usize, u64) -> Vec<Float32>>(
        data: &Vectors,
        _distance_type: DistanceType,
        params: &TurboBuildParams,
        orthogonal: &O,
    ) -> (r: Result<TurboQuantizer, TurboError>)
        requires
            gives_square_matrices(*orthogonal, data.list_size, *params),
        ensures
            build_result(*orthogonal, data.list_size, *params, r),
    {
        TurboQuantizer::new(data.list_size, params, orthogonal)
    }

    /// Nothing is trained on data, so nothing changes.
    pub fn retrain(&mut self, _data: &Vectors) -> (r: Result<(), TurboError>)
        ensures
            r is Ok,
            *final(self) == *old(self),
    {
        Ok(())
    }

    /// The rotation matrix.
    pub fn rotation_matrix(&self) -> (r: Option<&Matrix>)
        ensures
            r is Some <==> self.metadata.rotate_mat is Some,
            r matches Some(m) ==> Some(*m) == self.metadata.rotate_mat,
    {
        match &self.metadata.rotate_mat {
            Some(m) => Some(m),
            None => None,
        }
    }

    /// The bit-width per coordinate.
    pub fn num_bits(&self) -> (r: u32)
        ensures
            r == self.metadata.num_bits,
    {
        self.metadata.num_bits
    }

    /// The seed of the rotation matrix.
    pub fn seed(&self) -> (r: u64)
        ensures
            r == self.metadata.seed,
    {
        self.metadata.seed
    }

    /// The values of the rotation matrix, row by row.
    pub fn rotation_flat(&self) -> (r: Vec<Float32>)
        requires
            self.metadata.rotate_mat is Some,
        ensures
            r@ == self.metadata@.rotate_mat->Some_0.values,
    {
        match &self.metadata.rotate_mat {
            Some(m) => rotation_as_flat_f32(m),
            None => Vec::new(),
        }
    }

    /// The codebook for the dimension and the bit-width.
    pub fn codebook<F: Fn(usize, u32) -> (Vec<Float32>, Vec<Float32>)>(
        &self,
        cache: &mut CodebookCache,
        compute: &F,
    ) -> (r: Result<(Vec<Float32>, Vec<Float32>), TurboError>)
        requires
            valid_parameters(self.metadata.dimension, self.metadata.num_bits) ==> call_requires(
                *compute,
                (self.metadata.dimension, self.metadata.num_bits),
            ),
        ensures
            r is Ok <==> valid_parameters(self.metadata.dimension, self.metadata.num_bits),
            old(cache).wf() && computes_codebooks(
                *compute,
                self.metadata.dimension,
                self.metadata.num_bits,
            ) ==> final(cache).wf() && (r matches Ok(codebook) ==> valid_codebook(
                codebook_view(codebook),
                self.metadata.num_bits,
            )),
            old(cache).searchable() && computes_searchable(
                *compute,
                self.metadata.dimension,
                self.metadata.num_bits,
            ) ==> final(cache).searchable() && (r matches Ok(codebook) ==> searchable_codebook(
                codebook_view(codebook),
                self.metadata.num_bits,
            )),
            codebook_request(
                *compute,
                self.metadata.dimension,
                self.metadata.num_bits,
                old(cache)@,
                final(cache)@,
                request_view(r),
            ),
    {
        get_codebook(cache, self.metadata.dimension, self.metadata.num_bits, compute)
    }

    /// Whether the vectors can be encoded: the rotation matrix is there with all its rows, the
    /// vectors are there with all their coordinates, and rotated coordinates are numbers.
    pub open spec fn accepts<
        N: Fn(&[Float32]) -> Float32,
        V: Fn(Float32, Float32) -> Float32,
        D: Fn(&[Float32], &[Float32]) -> Float32,
    >(&self, vectors: Vectors, ops: VectorArithmetic<N, V, D>) -> bool {
        let dim = self.metadata.dimension;
        &&& countable(self.metadata@)
        &&& self.metadata.rotate_mat is Some
        &&& valid_parameters(dim, self.metadata.num_bits) ==> {
            &&& vectors.len * dim <= vectors.values@.len()
            &&& vectors.len > 0 ==> self.metadata@.rotate_mat->Some_0.values.len() >= dim * dim
            &&& forall|i: int|
                0 <= i < vectors.len ==> encodable(
                    ops,
                    self.metadata@.rotate_mat->Some_0.values,
                    dim as int,
                    #[trigger] row(vectors.values@, dim as int, i),
                )
        }
    }

    /// What encoding vectors of single precision gives: an error where there is no codebook,
    /// else the packed codes of all vectors by the codebook's boundaries.
    pub open spec fn quantized<
        N: Fn(&[Float32]) -> Float32,
        V: Fn(Float32, Float32) -> Float32,
        D: Fn(&[Float32], &[Float32]) -> Float32,
    >(
        &self,
        vectors: Vectors,
        ops: VectorArithmetic<N, V, D>,
        codebook: Result<CodebookView, TurboError>,
        r: Result<Codes, TurboError>,
    ) -> bool {
        match codebook {
            Err(e) => r == Err::<Codes, TurboError>(e),
            Ok((_, boundaries)) => r matches Ok(codes) && {
                &&& codes.len == vectors.len
                &&& codes.code_len == packed_size(
                    self.metadata.dimension as int,
                    self.metadata.num_bits as int,
                )
                &&& all_encoded(
                    ops,
                    self.metadata@.rotate_mat->Some_0.values,
                    boundaries,
                    self.metadata.dimension as int,
                    self.metadata.num_bits,
                    vectors.values@,
                    vectors.len as int,
                    codes.bytes@,
                )
            },
        }
    }

    /// Encode one vector.
    fn encode<
        N: Fn(&[Float32]) -> Float32,
        V: Fn(Float32, Float32) -> Float32,
        D: Fn(&[Float32], &[Float32]) -> Float32,
    >(
        x: &[Float32],
        rotation: &Vec<Float32>,
        boundaries: &Vec<Float32>,
        num_bits: u32,
        ops: &VectorArithmetic<N, V, D>,
    ) -> (code: Result<Vec<u8>, TurboError>)
        requires
            x@.len() >= 3,
            1 <= num_bits <= 8,
            x@.len() * num_bits + 7 <= usize::MAX,
            rotation@.len() >= x@.len() * x@.len(),
            boundaries@.len() == pow2(num_bits as nat) + 1,
            ascending(boundaries@),
            ops.callable(),
            encodable(*ops, rotation@, x@.len() as int, x@),
        ensures
            code is Ok,
            encoded(
                *ops,
                rotation@,
                boundaries@,
                x@.len() as int,
                num_bits,
                x@,
                code->Ok_0@,
            ),
    {
        let dim: usize = x.len();
        let x_hat: Vec<Float32> = ops.normalize(x);
        let y: Vec<Float32> = rotate(x_hat.as_slice(), rotation.as_slice(), dim, &ops.dot);
        proof {
            vstd::arithmetic::div_mod::lemma_div_by_self(dim as int);
            lemma_mul_basics(dim as int);
            lemma2_to64();
            if num_bits < 8 {
                lemma_pow2_strictly_increases(num_bits as nat, 8);
            }
        }
        assert(turned(*ops, rotation@, dim as int, x@, y@));
        let mut indices: Vec<u8> = Vec::new();
        for j in 0..y.len()
            invariant
                turned(*ops, rotation@, dim as int, x@, y@),
                encodable(*ops, rotation@, dim as int, x@),
                ascending(boundaries@),
                boundaries@.len() <= 257,
                indices@.len() == j,
                forall|k: int|
                    0 <= k < j ==> #[trigger] indices@[k] == bin_of(y@[k], boundaries@) as u8,
        {
            assert(!y@[j as int].nan());
            indices.push(quantize_scalar(y[j], boundaries.as_slice()));
        }
        assert(indices@ =~= bins(y@, boundaries@));
        pack_codes(indices.as_slice(), num_bits)
    }

    /// Quantize vectors of single precision.
    ///
    /// Each vector is divided by its norm, unless that is tiny, rotated, quantized coordinate by
    /// coordinate, and packed. The norms are not kept here.
    pub fn quantize_f32<
        N: Fn(&[Float32]) -> Float32,
        V: Fn(Float32, Float32) -> Float32,
        D: Fn(&[Float32], &[Float32]) -> Float32,
        F: Fn(usize, u32) -> (Vec<Float32>, Vec<Float32>),
    >(
        &self,
        vectors: &Vectors,
        cache: &mut CodebookCache,
        compute: &F,
        ops: &VectorArithmetic<N, V, D>,
    ) -> (r: Result<Codes, TurboError>)
        requires
            self.accepts(*vectors, *ops),
            old(cache).searchable(),
            computes_searchable(*compute, self.metadata.dimension, self.metadata.num_bits),
            ops.callable(),
        ensures
            final(cache).searchable(),
            old(cache).wf() && computes_codebooks(
                *compute,
                self.metadata.dimension,
                self.metadata.num_bits,
            ) ==> final(cache).wf(),
            r is Ok <==> valid_parameters(self.metadata.dimension, self.metadata.num_bits),
            exists|codebook: Result<CodebookView, TurboError>|
                {
                    &&& #[trigger] codebook_request(
                        *compute,
                        self.metadata.dimension,
                        self.metadata.num_bits,
                        old(cache)@,
                        final(cache)@,
                        codebook,
                    )
                    &&& self.quantized(*vectors, *ops, codebook, r)
                },
    {
        let dim: usize = self.metadata.dimension;
        let num_bits: u32 = self.metadata.num_bits;
        let n: usize = vectors.len;
        let code_bytes: usize = packed_len(dim, num_bits);
        let rotation: Vec<Float32> = self.rotation_flat();
        let requested: Result<(Vec<Float32>, Vec<Float32>), TurboError> = self.codebook(
            cache,
            compute,
        );
        let ghost request = request_view(requested);
        assert(codebook_request(*compute, dim, num_bits, old(cache)@, cache@, request));
        let boundaries: Vec<Float32> = match requested {
            Err(e) => {
                return Err(e);
            },
            Ok((_, boundaries)) => boundaries,
        };
        let ghost size = packed_size(dim as int, num_bits as int);
        let mut all_codes: Vec<u8> = Vec::new();
        let total: usize = vectors.values.len();
        proof {
            assert(searchable_codebook((requested->Ok_0.0@, boundaries@), num_bits));
            lemma_mul_basics(size);
        }
        for i in 0..n
            invariant
                n == vectors.len,
                size == packed_size(dim as int, num_bits as int),
                valid_parameters(dim, num_bits),
                dim * num_bits + 7 <= usize::MAX,
                n * dim <= vectors.values@.len() == total,
                n > 0 ==> rotation@.len() >= dim * dim,
                boundaries@.len() == pow2(num_bits as nat) + 1,
                ascending(boundaries@),
                ops.callable(),
                forall|a: int|
                    0 <= a < n ==> encodable(
                        *ops,
                        rotation@,
                        dim as int,
                        #[trigger] row(vectors.values@, dim as int, a),
                    ),
                all_encoded(
                    *ops,
                    rotation@,
                    boundaries@,
                    dim as int,
                    num_bits,
                    vectors.values@,
                    i as int,
                    all_codes@,
                ),
        {
            proof {
                lemma_mul_inequality(i + 1, n as int, dim as int);
                lemma_mul_inequality(0, i as int, dim as int);
                lemma_mul_is_distributive_add_other_way(dim as int, i as int, 1);
                lemma_mul_basics(dim as int);
            }
            let x: &[Float32] = slice_subrange(
                vectors.values.as_slice(),
                i * dim,
                i * dim + dim,
            );
            assert(x@ == row(vectors.values@, dim as int, i as int));
            match Self::encode(x, &rotation, &boundaries, num_bits, ops) {
                Ok(packed) => {
                    let ghost before = all_codes@;
                    let ghost code = packed@;
                    let mut next: Vec<u8> = packed;
                    all_codes.append(&mut next);
                    proof {
                        lemma_rows_appended(before, size, i as int, code);
                        assert(code.len() == size);
                        assert forall|a: int| 0 <= a < i + 1 implies encoded(
                            *ops,
                            rotation@,
                            boundaries@,
                            dim as int,
                            num_bits,
                            row(vectors.values@, dim as int, a),
                            #[trigger] row(all_codes@, size, a),
                        ) by {
                            if a < i {
                                assert(row(all_codes@, size, a) == row(before, size, a));
                            }
                        }
                    }
                },
                Err(e) => {
                    return Err(e);
                },
            }
        }
        Ok(Codes { len: n, code_len: code_bytes, bytes: all_codes })
    }
}

/// A row added behind the others leaves them as they are.
proof fn lemma_rows_appended(before: Seq<u8>, size: int, i: int, code: Seq<u8>)
    requires
        0 <= size,
        0 <= i,
        before.len() == i * size,
        code.len() == size,
    ensures
        (before + code).len() == (i + 1) * size,
        row(before + code, size, i) == code,
        forall|a: int| 0 <= a < i ==> #[trigger] row(before + code, size, a) == row(before, size, a),
{
    lemma_mul_is_distributive_add_other_way(size, i, 1);
    lemma_mul_basics(size);
    assert(row(before + code, size, i) =~= code);
    assert forall|a: int| 0 <= a < i implies #[trigger] row(before + code, size, a) == row(
        before,
        size,
        a,
    ) by {
        lemma_mul_inequality(a + 1, i, size);
        lemma_mul_inequality(0, a, size);
        lemma_mul_is_distributive_add_other_way(size, a, 1);
        assert(row(before + code, size, a) =~= row(before, size, a));
    }
}

/// The kinds of quantizers.
#[derive(Debug, Clone, Copy, PartialEq, Eq, Structural)]
pub enum QuantizationType {
    /// Vectors as they are.
    Flat,
    /// A code for each of a vector's parts, by a codebook trained on data.
    Product,
    /// Coordinates on an even grid between two bounds.
    Scalar,
    /// Rotation and the sign of each coordinate.
    Rabit,
    /// Rotation and scalar quantization by a Lloyd-Max codebook.
    Turbo,
}

/// What a caller says of the layout of codes.
#[derive(Debug, Clone, Copy, PartialEq, Eq, Structural)]
pub struct QuantizationMetadata {
    /// Whether codes are transposed.
    pub transposed: bool,
}

/// A quantizer of this kind, or one of another.
#[derive(Debug)]
pub enum Quantizer<Q> {
    Turbo(TurboQuantizer),
    Other(Q),
}

/// The metadata with the layout that the caller asks for: transposed only where that is said.
pub open spec fn with_layout(
    metadata: MetadataView,
    args: Option<QuantizationMetadata>,
) -> MetadataView {
    MetadataView {
        packed: match args {
            Some(a) => a.transposed,
            None => false,
        },
        ..metadata
    }
}

impl TurboQuantizer {
    /// Quantize vectors into packed codes of `ceil(d × b / 8)` bytes each.
    ///
    /// Vectors of half or double precision have to be cast first, and no others are supported.
    pub fn quantize<
        N: Fn(&[Float32]) -> Float32,
        V: Fn(Float32, Float32) -> Float32,
        D: Fn(&[Float32], &[Float32]) -> Float32,
        F: Fn(usize, u32) -> (Vec<Float32>, Vec<Float32>),
    >(
        &self,
        vectors: &Vectors,
        cache: &mut CodebookCache,
        compute: &F,
        ops: &VectorArithmetic<N, V, D>,
    ) -> (r: Result<Codes, TurboError>)
        requires
            vectors.value_type is Float32 ==> {
                &&& self.accepts(*vectors, *ops)
                &&& old(cache).searchable()
                &&& computes_searchable(*compute, self.metadata.dimension, self.metadata.num_bits)
                &&& ops.callable()
            },
        ensures
            old(cache).searchable() ==> final(cache).searchable(),
            old(cache).wf() && computes_codebooks(
                *compute,
                self.metadata.dimension,
                self.metadata.num_bits,
            ) ==> final(cache).wf(),
            r is Ok <==> vectors.value_type is Float32 && valid_parameters(
                self.metadata.dimension,
                self.metadata.num_bits,
            ),
            vectors.value_type !is Float32 ==> {
                &&& r == Err::<Codes, TurboError>(type_error(vectors.value_type))
                &&& *final(cache) == *old(cache)
            },
            vectors.value_type is Float32 ==> exists|codebook: Result<CodebookView, TurboError>|
                {
                    &&& #[trigger] codebook_request(
                        *compute,
                        self.metadata.dimension,
                        self.metadata.num_bits,
                        old(cache)@,
                        final(cache)@,
                        codebook,
                    )
                    &&& self.quantized(*vectors, *ops, codebook, r)
                },
    {
        match &vectors.value_type {
            ValueType::Float32 => self.quantize_f32(vectors, cache, compute, ops),
            ValueType::Float16 => Err(
                TurboError::CastFirst { value_type: vectors.value_type.copied() },
            ),
            ValueType::Float64 => Err(
                TurboError::CastFirst { value_type: vectors.value_type.copied() },
            ),
            ValueType::Other { name: _ } => Err(
                TurboError::UnsupportedType { value_type: vectors.value_type.copied() },
            ),
        }
    }

    /// The number of bytes of a code.
    pub fn code_dim(&self) -> (r: usize)
        requires
            countable(self.metadata@),
        ensures
            r == packed_size(self.metadata.dimension as int, self.metadata.num_bits as int),
    {
        packed_len(self.metadata.dimension, self.metadata.num_bits)
    }

    /// The column that codes are stored in.
    pub fn column(&self) -> (r: &'static str)
        ensures
            r@ == TURBO_CODE_COLUMN@,
    {
        TURBO_CODE_COLUMN
    }

    /// The schema key of the quantizer's metadata.
    pub fn metadata_key() -> (r: &'static str)
        ensures
            r@ == TURBO_METADATA_KEY@,
    {
        TURBO_METADATA_KEY
    }

    /// The kind of this quantizer.
    pub fn quantization_type() -> (r: QuantizationType)
        ensures
            r == QuantizationType::Turbo,
    {
        QuantizationType::Turbo
    }

    /// Whether vectors are quantized as differences from their partition's centroid.
    pub fn use_residual(distance_type: DistanceType) -> (r: bool)
        ensures
            r == uses_residual(distance_type),
    {
        TurboBuildParams::use_residual(distance_type)
    }

    /// The metadata to store, with the layout that the caller asks for.
    pub fn metadata(&self, args: Option<QuantizationMetadata>) -> (r: TurboQuantizationMetadata)
        ensures
            r@ == with_layout(self.metadata@, args),
    {
        let mut metadata: TurboQuantizationMetadata = self.metadata.clone();
        metadata.packed = match args {
            Some(a) => a.transposed,
            None => false,
        };
        metadata
    }

    /// The quantizer with the given metadata.
    pub fn from_metadata<Q>(
        metadata: &TurboQuantizationMetadata,
        _distance_type: DistanceType,
    ) -> (r: Result<Quantizer<Q>, TurboError>)
        ensures
            r matches Ok(Quantizer::Turbo(quantizer)) && quantizer.metadata@ == metadata@,
    {
        Ok(Quantizer::Turbo(TurboQuantizer { metadata: metadata.clone() }))
    }

    /// The column of codes.
    pub fn field(&self) -> (r: Field)
        requires
            countable(self.metadata@),
        ensures
            r@ == code_field(self.metadata.dimension, self.metadata.num_bits),
    {
        make_code_field(self.metadata.dimension, self.metadata.num_bits)
    }

    /// The columns beside the codes: the norms.
    pub fn extra_fields(&self) -> (r: Vec<Field>)
        ensures
            field_views(r@) == seq![norm_field()],
    {
        let mut r: Vec<Field> = Vec::new();
        r.push(make_norm_field());
        assert(field_views(r@) =~= seq![norm_field()]);
        r
    }
}

impl Clone for TurboQuantizer {
    /// A quantizer with metadata that hold the same.
    fn clone(&self) -> (r: TurboQuantizer)
        ensures
            r.metadata@ == self.metadata@,
    {
        TurboQuantizer { metadata: self.metadata.clone() }
    }
}

impl<Q> TryFrom<Quantizer<Q>> for TurboQuantizer {
    type Error = TurboError;

    /// The quantizer, where it is one of this kind.
    fn try_from(quantizer: Quantizer<Q>) -> (r: Result<TurboQuantizer, TurboError>) {
        match quantizer {
            Quantizer::Turbo(q) => Ok(q),
            Quantizer::Other(_) => Err(TurboError::NotTurbo),
        }
    }
}

impl<Q> vstd::std_specs::convert::TryFromSpecImpl<Quantizer<Q>> for TurboQuantizer {
    open spec fn obeys_try_from_spec() -> bool {
        true
    }

    open spec fn try_from_spec(quantizer: Quantizer<Q>) -> Result<TurboQuantizer, TurboError> {
        match quantizer {
            Quantizer::Turbo(q) => Ok(q),
            Quantizer::Other(_) => Err(TurboError::NotTurbo),
        }
    }
}

impl<Q> From<TurboQuantizer> for Quantizer<Q> {
    /// The quantizer as one of any kind.
    fn from(quantizer: TurboQuantizer) -> (r: Quantizer<Q>) {
        Quantizer::Turbo(quantizer)
    }
}

impl<Q> vstd::std_specs::convert::FromSpecImpl<TurboQuantizer> for Quantizer<Q> {
    open spec fn obeys_from_spec() -> bool {
        true
    }

    open spec fn from_spec(quantizer: TurboQuantizer) -> Quantizer<Q> {
        Quantizer::Turbo(quantizer)
    }
}

// --- Laws ---

/// Quantizers built for the same dimension, bit-width and seed hold the same, whatever the data:
/// workers can build identical quantizers on their own.
pub proof fn law_same_parameters_same_quantizer<O: Fn(usize, u64) -> Vec<Float32>>(
    orthogonal: O,
    dim: usize,
    params: TurboBuildParams,
    first: TurboQuantizationMetadata,
    second: TurboQuantizationMetadata,
)
    requires
        seeded(orthogonal, dim, params.seed),
        built(orthogonal, dim, params, first),
        built(orthogonal, dim, params, second),
    ensures
        first@ == second@,
{
    law_same_seed_same_matrix(
        orthogonal,
        dim,
        params.seed,
        first.rotate_mat->Some_0,
        second.rotate_mat->Some_0,
    );
}

/// Building reads nothing of the data but the dimension, and not the distance type: for any two
/// sets of data of the same dimension, and for that dimension alone, the same is built, or the same
/// error given.
pub proof fn law_build_reads_only_the_dimension<O: Fn(usize, u64) -> Vec<Float32>>(
    orthogonal: O,
    params: TurboBuildParams,
    one: Vectors,
    other: Vectors,
    from_one: Result<TurboQuantizer, TurboError>,
    from_other: Result<TurboQuantizer, TurboError>,
    from_dimension: Result<TurboQuantizer, TurboError>,
)
    requires
        seeded(orthogonal, one.list_size, params.seed),
        one.list_size == other.list_size,
        build_result(orthogonal, one.list_size, params, from_one),
        build_result(orthogonal, other.list_size, params, from_other),
        build_result(orthogonal, one.list_size, params, from_dimension),
    ensures
        same_quantizer(from_one, from_other),
        same_quantizer(from_one, from_dimension),
{
    if from_one is Ok {
        law_same_parameters_same_quantizer(
            orthogonal,
            one.list_size,
            params,
            from_one->Ok_0.metadata,
            from_other->Ok_0.metadata,
        );
        law_same_parameters_same_quantizer(
            orthogonal,
            one.list_size,
            params,
            from_one->Ok_0.metadata,
            from_dimension->Ok_0.metadata,
        );
    }
}

/// Whether both give a quantizer that holds the same, or both the same error.
pub open spec fn same_quantizer(
    one: Result<TurboQuantizer, TurboError>,
    other: Result<TurboQuantizer, TurboError>,
) -> bool {
    match one {
        Ok(q) => other matches Ok(r) && q.metadata@ == r.metadata@,
        Err(_) => other == one,
    }
}

/// The code of a vector depends on its direction alone: vectors of any norms that are not tiny
/// have the same code where their quotients by their norms are the same.
pub proof fn law_code_depends_on_direction_alone<
    N: Fn(&[Float32]) -> Float32,
    V: Fn(Float32, Float32) -> Float32,
    D: Fn(&[Float32], &[Float32]) -> Float32,
>(
    ops: VectorArithmetic<N, V, D>,
    rotation: Seq<Float32>,
    boundaries: Seq<Float32>,
    dim: int,
    num_bits: u32,
    one: Seq<Float32>,
    norm_of_one: Float32,
    other: Seq<Float32>,
    norm_of_other: Float32,
    direction: Seq<Float32>,
    code_of_one: Seq<u8>,
    code_of_other: Seq<u8>,
)
    requires
        ops.single_valued(),
        0 <= dim,
        ops.norm_result(one, norm_of_one),
        ops.norm_result(other, norm_of_other),
        !norm_of_one.below(tiny_norm()),
        !norm_of_other.below(tiny_norm()),
        ops.divided(one, norm_of_one, direction),
        ops.divided(other, norm_of_other, direction),
        encoded(ops, rotation, boundaries, dim, num_bits, one, code_of_one),
        encoded(ops, rotation, boundaries, dim, num_bits, other, code_of_other),
    ensures
        code_of_one == code_of_other,
{
    let y = choose|y: Seq<Float32>| #[trigger]
        turned(ops, rotation, dim, one, y) && y.len() == dim && code_of_one == packed_codes(
            bins(y, boundaries),
            num_bits as int,
        );
    let z = choose|z: Seq<Float32>| #[trigger]
        turned(ops, rotation, dim, other, z) && z.len() == dim && code_of_other == packed_codes(
            bins(z, boundaries),
            num_bits as int,
        );
    lemma_turned_direction(ops, rotation, dim, one, norm_of_one, direction, y);
    lemma_turned_direction(ops, rotation, dim, other, norm_of_other, direction, z);
    assert forall|j: int| 0 <= j < dim implies y[j] == z[j] by {
        assert(direction.len() as int / dim == 1) by (nonlinear_arith)
            requires
                (direction.len() as int / dim) * dim == dim,
                dim > 0,
        ;
        assert(rotated_entry(ops.dot, direction, rotation, dim, y, 0, j));
        assert(rotated_entry(ops.dot, direction, rotation, dim, z, 0, j));
        lemma_mul_basics(dim);
    }
    assert(y =~= z);
}

/// Scaling a vector keeps its code, where neither norm is tiny: by a factor that the norm takes on
/// and that cancels in the quotients of the coordinates by it.
pub proof fn law_scaling_keeps_the_code<
    N: Fn(&[Float32]) -> Float32,
    V: Fn(Float32, Float32) -> Float32,
    D: Fn(&[Float32], &[Float32]) -> Float32,
>(
    ops: VectorArithmetic<N, V, D>,
    rotation: Seq<Float32>,
    boundaries: Seq<Float32>,
    dim: int,
    num_bits: u32,
    x: Seq<Float32>,
    norm: Float32,
    scale: spec_fn(Float32) -> Float32,
    code: Seq<u8>,
    scaled_code: Seq<u8>,
)
    requires
        ops.single_valued(),
        0 <= dim,
        ops.norm_result(x, norm),
        ops.norm_result(x.map_values(scale), scale(norm)),
        !norm.below(tiny_norm()),
        !scale(norm).below(tiny_norm()),
        forall|i: int, q: Float32, r: Float32|
            0 <= i < x.len() && #[trigger] call_ensures(ops.divide, (x[i], norm), q)
                && #[trigger] call_ensures(ops.divide, (scale(x[i]), scale(norm)), r) ==> q == r,
        encoded(ops, rotation, boundaries, dim, num_bits, x, code),
        encoded(ops, rotation, boundaries, dim, num_bits, x.map_values(scale), scaled_code),
    ensures
        code == scaled_code,
{
    let scaled = x.map_values(scale);
    let direction = lemma_direction_of_encoded(
        ops,
        rotation,
        boundaries,
        dim,
        num_bits,
        x,
        norm,
        code,
    );
    let scaled_direction = lemma_direction_of_encoded(
        ops,
        rotation,
        boundaries,
        dim,
        num_bits,
        scaled,
        scale(norm),
        scaled_code,
    );
    assert forall|i: int| 0 <= i < x.len() implies direction[i] == scaled_direction[i] by {
        assert(call_ensures(ops.divide, (x[i], norm), direction[i]));
        assert(call_ensures(ops.divide, (scaled[i], scale(norm)), scaled_direction[i]));
    }
    assert(direction =~= scaled_direction);
    law_code_depends_on_direction_alone(
        ops,
        rotation,
        boundaries,
        dim,
        num_bits,
        x,
        norm,
        scaled,
        scale(norm),
        direction,
        code,
        scaled_code,
    );
}

/// The direction of a vector that was encoded.
proof fn lemma_direction_of_encoded<
    N: Fn(&[Float32]) -> Float32,
    V: Fn(Float32, Float32) -> Float32,
    D: Fn(&[Float32], &[Float32]) -> Float32,
>(
    ops: VectorArithmetic<N, V, D>,
    rotation: Seq<Float32>,
    boundaries: Seq<Float32>,
    dim: int,
    num_bits: u32,
    x: Seq<Float32>,
    norm: Float32,
    code: Seq<u8>,
) -> (direction: Seq<Float32>)
    requires
        ops.single_valued(),
        ops.norm_result(x, norm),
        !norm.below(tiny_norm()),
        encoded(ops, rotation, boundaries, dim, num_bits, x, code),
    ensures
        ops.divided(x, norm, direction),
{
    let y = choose|y: Seq<Float32>| #[trigger]
        turned(ops, rotation, dim, x, y) && y.len() == dim && code == packed_codes(
            bins(y, boundaries),
            num_bits as int,
        );
    choose|x_hat: Seq<Float32>| #[trigger]
        ops.normalized(x, x_hat) && rotated(ops.dot, x_hat, rotation, dim, y)
}

/// What a vector is turned into is its rotated direction.
proof fn lemma_turned_direction<
    N: Fn(&[Float32]) -> Float32,
    V: Fn(Float32, Float32) -> Float32,
    D: Fn(&[Float32], &[Float32]) -> Float32,
>(
    ops: VectorArithmetic<N, V, D>,
    rotation: Seq<Float32>,
    dim: int,
    x: Seq<Float32>,
    norm: Float32,
    direction: Seq<Float32>,
    y: Seq<Float32>,
)
    requires
        ops.single_valued(),
        ops.norm_result(x, norm),
        !norm.below(tiny_norm()),
        ops.divided(x, norm, direction),
        turned(ops, rotation, dim, x, y),
    ensures
        rotated(ops.dot, direction, rotation, dim, y),
{
    let x_hat = choose|x_hat: Seq<Float32>| #[trigger]
        ops.normalized(x, x_hat) && rotated(ops.dot, x_hat, rotation, dim, y);
    assert(ops.divided(x, norm, x_hat));
    assert forall|i: int| 0 <= i < x.len() implies x_hat[i] == direction[i] by {
        assert(call_ensures(ops.divide, (x[i], norm), x_hat[i]));
        assert(call_ensures(ops.divide, (x[i], norm), direction[i]));
    }
    assert(x_hat =~= direction);
}

/// A new quantizer has what encoding needs: parameters with a codebook, and a rotation matrix
/// with all its rows.
pub proof fn law_new_quantizer_can_encode<O: Fn(usize, u64) -> Vec<Float32>>(
    orthogonal: O,
    dim: usize,
    params: TurboBuildParams,
    r: Result<TurboQuantizer, TurboError>,
)
    requires
        build_result(orthogonal, dim, params, r),
        r is Ok,
    ensures
        valid_parameters(r->Ok_0.metadata.dimension, r->Ok_0.metadata.num_bits),
        r->Ok_0.metadata.rotate_mat is Some,
        r->Ok_0.metadata@.rotate_mat->Some_0.values.len() == dim * dim,
{
}

/// Unpacking a code gives the bins of the rotated coordinates back.
pub proof fn law_code_decodes_to_bins<
    N: Fn(&[Float32]) -> Float32,
    V: Fn(Float32, Float32) -> Float32,
    D: Fn(&[Float32], &[Float32]) -> Float32,
>(
    ops: VectorArithmetic<N, V, D>,
    rotation: Seq<Float32>,
    centroids: Seq<Float32>,
    boundaries: Seq<Float32>,
    dim: int,
    num_bits: u32,
    x: Seq<Float32>,
    code: Seq<u8>,
)
    requires
        0 <= dim,
        1 <= num_bits <= 8,
        searchable_codebook((centroids, boundaries), num_bits),
        encoded(ops, rotation, boundaries, dim, num_bits, x, code),
    ensures
        exists|y: Seq<Float32>| #[trigger]
            turned(ops, rotation, dim, x, y) && y.len() == dim && unpacked_codes(
                code,
                dim as nat,
                num_bits as int,
            ) == bins(y, boundaries),
{
    let y = choose|y: Seq<Float32>| #[trigger]
        turned(ops, rotation, dim, x, y) && y.len() == dim && code == packed_codes(
            bins(y, boundaries),
            num_bits as int,
        );
    lemma2_to64();
    if num_bits < 8 {
        lemma_pow2_strictly_increases(num_bits as nat, 8);
    }
    assert forall|j: int| 0 <= j < dim implies #[trigger] bins(y, boundaries)[j] < pow2(
        num_bits as nat,
    ) by {
        law_bin_in_range(y[j], boundaries);
    }
    law_pack_round_trip(bins(y, boundaries), num_bits as int);
}

/// What a code is restored to is, at each coordinate, the centroid nearest to the rotated
/// coordinate: no other centroid is closer by more than a millionth.
pub proof fn law_code_restores_nearest_centroids<
    N: Fn(&[Float32]) -> Float32,
    V: Fn(Float32, Float32) -> Float32,
    D: Fn(&[Float32], &[Float32]) -> Float32,
>(
    ops: VectorArithmetic<N, V, D>,
    rotation: Seq<Float32>,
    centroids: Seq<Float32>,
    boundaries: Seq<Float32>,
    dim: int,
    num_bits: u32,
    x: Seq<Float32>,
    code: Seq<u8>,
)
    requires
        0 <= dim,
        1 <= num_bits <= 8,
        valid_codebook((centroids, boundaries), num_bits),
        encoded(ops, rotation, boundaries, dim, num_bits, x, code),
    ensures
        exists|y: Seq<Float32>| #[trigger]
            turned(ops, rotation, dim, x, y) && y.len() == dim && nearest(
                y,
                restored_coordinates(
                    unpacked_codes(code, dim as nat, num_bits as int),
                    centroids,
                    dim as nat,
                ),
                centroids,
                halfway_slack(),
            ),
{
    law_code_decodes_to_bins(ops, rotation, centroids, boundaries, dim, num_bits, x, code);
    let codes = unpacked_codes(code, dim as nat, num_bits as int);
    let y = choose|y: Seq<Float32>| #[trigger]
        turned(ops, rotation, dim, x, y) && y.len() == dim && codes == bins(y, boundaries);
    let restored = restored_coordinates(codes, centroids, dim as nat);
    lemma2_to64();
    if num_bits < 8 {
        lemma_pow2_strictly_increases(num_bits as nat, 8);
    }
    assert forall|j: int, other: int|
        0 <= j < y.len() && 0 <= other < centroids.len() implies #[trigger] gap(y[j], restored[j])
        <= #[trigger] gap(y[j], centroids[other]) + halfway_slack() by {
        law_codebook_restores_nearest((centroids, boundaries), num_bits, y[j], other);
        assert(restored[j] == centroids[bin_of(y[j], boundaries) as int]);
    }
    assert(nearest(y, restored, centroids, halfway_slack()));
}

/// A code takes the bits of its coordinates, rounded up to bytes, and with the norm beside it a
/// vector takes four bytes more: `ceil(d × b / 8) + 4`.
pub proof fn law_storage_per_vector(dim: int, num_bits: int, code_bytes: int)
    requires
        0 <= dim,
        1 <= num_bits <= 8,
        code_bytes == packed_size(dim, num_bits),
    ensures
        dim * num_bits <= 8 * code_bytes < dim * num_bits + 8,
        code_bytes + 4 == (dim * num_bits + 7) / 8 + 4,
        code_bytes <= dim,
{
    let codes = Seq::new(dim as nat, |j: int| 0u8);
    law_packed_length(codes, num_bits);
}

/// What a vector is turned into follows from the vector.
proof fn lemma_turned_alike<
    N: Fn(&[Float32]) -> Float32,
    V: Fn(Float32, Float32) -> Float32,
    D: Fn(&[Float32], &[Float32]) -> Float32,
>(
    ops: VectorArithmetic<N, V, D>,
    rotation: Seq<Float32>,
    dim: int,
    x: Seq<Float32>,
    y: Seq<Float32>,
    z: Seq<Float32>,
)
    requires
        ops.single_valued(),
        dim > 0,
        x.len() == dim,
        turned(ops, rotation, dim, x, y),
        turned(ops, rotation, dim, x, z),
    ensures
        y == z,
{
    let one = choose|x_hat: Seq<Float32>| #[trigger]
        ops.normalized(x, x_hat) && rotated(ops.dot, x_hat, rotation, dim, y);
    let other = choose|x_hat: Seq<Float32>| #[trigger]
        ops.normalized(x, x_hat) && rotated(ops.dot, x_hat, rotation, dim, z);
    assert forall|k: int| 0 <= k < x.len() implies one[k] == other[k] by {}
    assert(one =~= other);
    vstd::arithmetic::div_mod::lemma_div_by_self(dim);
    lemma_mul_basics(dim);
    assert forall|j: int| 0 <= j < dim implies y[j] == z[j] by {
        assert(rotated_entry(ops.dot, one, rotation, dim, y, 0, j));
        assert(rotated_entry(ops.dot, one, rotation, dim, z, 0, j));
    }
    assert(y =~= z);
}

/// The code of a vector follows from the vector.
proof fn lemma_encoded_alike<
    N: Fn(&[Float32]) -> Float32,
    V: Fn(Float32, Float32) -> Float32,
    D: Fn(&[Float32], &[Float32]) -> Float32,
>(
    ops: VectorArithmetic<N, V, D>,
    rotation: Seq<Float32>,
    boundaries: Seq<Float32>,
    dim: int,
    num_bits: u32,
    x: Seq<Float32>,
    one: Seq<u8>,
    other: Seq<u8>,
)
    requires
        ops.single_valued(),
        dim > 0,
        x.len() == dim,
        encoded(ops, rotation, boundaries, dim, num_bits, x, one),
        encoded(ops, rotation, boundaries, dim, num_bits, x, other),
    ensures
        one == other,
{
    let y = choose|y: Seq<Float32>| #[trigger]
        turned(ops, rotation, dim, x, y) && y.len() == dim && one == packed_codes(
            bins(y, boundaries),
            num_bits as int,
        );
    let z = choose|z: Seq<Float32>| #[trigger]
        turned(ops, rotation, dim, x, z) && z.len() == dim && other == packed_codes(
            bins(z, boundaries),
            num_bits as int,
        );
    lemma_turned_alike(ops, rotation, dim, x, y, z);
}

/// Quantizing a column gives, for each vector of it, the code that quantizing this vector alone
/// gives.
pub proof fn law_each_vector_has_its_own_code<
    N: Fn(&[Float32]) -> Float32,
    V: Fn(Float32, Float32) -> Float32,
    D: Fn(&[Float32], &[Float32]) -> Float32,
>(
    quantizer: TurboQuantizer,
    ops: VectorArithmetic<N, V, D>,
    codebook: CodebookView,
    vectors: Vectors,
    codes: Codes,
    i: int,
    alone: Vectors,
    code: Codes,
)
    requires
        ops.single_valued(),
        quantizer.metadata.dimension > 0,
        vectors.len * quantizer.metadata.dimension <= vectors.values@.len(),
        quantizer.quantized(vectors, ops, Ok(codebook), Ok(codes)),
        0 <= i < vectors.len,
        alone.len == 1,
        alone.values@ == vectors.values@.subrange(
            i * quantizer.metadata.dimension,
            i * quantizer.metadata.dimension + quantizer.metadata.dimension,
        ),
        quantizer.quantized(alone, ops, Ok(codebook), Ok(code)),
    ensures
        codes.len == vectors.len,
        codes.bytes@.len() == vectors.len * codes.code_len,
        code.bytes@ == codes.bytes@.subrange(
            i * codes.code_len,
            i * codes.code_len + codes.code_len,
        ),
{
    let dim = quantizer.metadata.dimension as int;
    let size = codes.code_len as int;
    lemma_entry(vectors.len as int, dim, i, 0);
    lemma_mul_basics(dim);
    lemma_mul_basics(size);
    assert(row(alone.values@, dim, 0) =~= vectors.values@.subrange(i * dim, i * dim + dim));
    assert(row(code.bytes@, size, 0) =~= code.bytes@);
    assert(row(codes.bytes@, size, i) == codes.bytes@.subrange(i * size, i * size + size));
    lemma_encoded_alike(
        ops,
        quantizer.metadata@.rotate_mat->Some_0.values,
        codebook.1,
        dim,
        quantizer.metadata.num_bits,
        alone.values@,
        row(code.bytes@, size, 0),
        row(codes.bytes@, size, i),
    );
}

/// The codes of two columns put together are the codes of the one and then those of the other.
pub proof fn law_codes_of_joined_columns<
    N: Fn(&[Float32]) -> Float32,
    V: Fn(Float32, Float32) -> Float32,
    D: Fn(&[Float32], &[Float32]) -> Float32,
>(
    quantizer: TurboQuantizer,
    ops: VectorArithmetic<N, V, D>,
    codebook: CodebookView,
    one: Vectors,
    codes_of_one: Codes,
    other: Vectors,
    codes_of_other: Codes,
    both: Vectors,
    codes_of_both: Codes,
)
    requires
        ops.single_valued(),
        quantizer.metadata.dimension > 0,
        one.values@.len() == one.len * quantizer.metadata.dimension,
        other.values@.len() == other.len * quantizer.metadata.dimension,
        both.len == one.len + other.len,
        both.values@ == one.values@ + other.values@,
        quantizer.quantized(one, ops, Ok(codebook), Ok(codes_of_one)),
        quantizer.quantized(other, ops, Ok(codebook), Ok(codes_of_other)),
        quantizer.quantized(both, ops, Ok(codebook), Ok(codes_of_both)),
    ensures
        codes_of_both.len == codes_of_one.len + codes_of_other.len,
        codes_of_both.bytes@ == codes_of_one.bytes@ + codes_of_other.bytes@,
{
    let dim = quantizer.metadata.dimension as int;
    let size = codes_of_both.code_len as int;
    let rotation = quantizer.metadata@.rotate_mat->Some_0.values;
    let num_bits = quantizer.metadata.num_bits;
    let n = one.len as int;
    let m = other.len as int;
    lemma_mul_is_distributive_add_other_way(size, n, m);
    lemma_mul_is_distributive_add_other_way(dim, n, m);
    let joined = codes_of_one.bytes@ + codes_of_other.bytes@;
    assert forall|p: int| 0 <= p < joined.len() implies #[trigger] codes_of_both.bytes@[p]
        == joined[p] by {
        assert(size > 0) by {
            lemma_mul_basics(n + m);
        }
        let i = p / size;
        let k = p % size;
        lemma_position(n + m, size, p);
        lemma_entry(n + m, size, i, k);
        lemma_entry(n + m, dim, i, 0);
        let x = row(both.values@, dim, i);
        let code = row(codes_of_both.bytes@, size, i);
        assert(code[k] == codes_of_both.bytes@[p]);
        if i < n {
            lemma_entry(n, size, i, k);
            lemma_entry(n, dim, i, 0);
            assert(row(one.values@, dim, i) =~= x);
            let first = row(codes_of_one.bytes@, size, i);
            lemma_encoded_alike(ops, rotation, codebook.1, dim, num_bits, x, code, first);
            assert(first[k] == codes_of_one.bytes@[p]);
        } else {
            let j = i - n;
            lemma_entry(m, size, j, k);
            lemma_entry(m, dim, j, 0);
            lemma_mul_is_distributive_add_other_way(size, n, j);
            lemma_mul_is_distributive_add_other_way(dim, n, j);
            assert(row(other.values@, dim, j) =~= x);
            let second = row(codes_of_other.bytes@, size, j);
            lemma_encoded_alike(ops, rotation, codebook.1, dim, num_bits, x, code, second);
            assert(second[k] == codes_of_other.bytes@[p - n * size]);
        }
    }
    assert(codes_of_both.bytes@ =~= joined);
}

/// Code `i` of a column is that of vector `i`: from the norm of all its coordinates come their
/// quotients by it, unless it is tiny, from the dot products of these with the rows of the rotation
/// matrix the rotated coordinates, and each of these lies above the lower boundary of the cell that
/// the code has for it and not above the upper one. By a codebook whose boundaries are halfway, the
/// centroid of that cell is nearest to it.
pub proof fn law_codes_come_from_their_vectors<
    N: Fn(&[Float32]) -> Float32,
    V: Fn(Float32, Float32) -> Float32,
    D: Fn(&[Float32], &[Float32]) -> Float32,
>(
    quantizer: TurboQuantizer,
    ops: VectorArithmetic<N, V, D>,
    codebook: CodebookView,
    vectors: Vectors,
    codes: Codes,
    i: int,
    dim: int,
    num_bits: u32,
    size: int,
    rotation: Seq<Float32>,
    x: Seq<Float32>,
    code: Seq<u8>,
) -> (parts: (Float32, Seq<Float32>, Seq<Float32>))
    requires
        valid_parameters(quantizer.metadata.dimension, quantizer.metadata.num_bits),
        searchable_codebook(codebook, quantizer.metadata.num_bits),
        vectors.len * quantizer.metadata.dimension <= vectors.values@.len(),
        quantizer.quantized(vectors, ops, Ok(codebook), Ok(codes)),
        0 <= i < vectors.len,
        dim == quantizer.metadata.dimension,
        num_bits == quantizer.metadata.num_bits,
        size == (dim * num_bits + 7) / 8,
        rotation == quantizer.metadata@.rotate_mat->Some_0.values,
        x == vectors.values@.subrange(i * dim, i * dim + dim),
        code == unpacked_codes(
            codes.bytes@.subrange(i * size, i * size + size),
            dim as nat,
            num_bits as int,
        ),
    ensures
        codes.len == vectors.len,
        codes.code_len == size,
        codes.bytes@.len() == vectors.len * size,
        exists|v: &[Float32]| v@ == x && #[trigger] call_ensures(ops.norm, (v,), parts.0),
        parts.1.len() == dim,
        parts.0.below(tiny_norm()) ==> parts.1 == x,
        !parts.0.below(tiny_norm()) ==> forall|k: int|
            0 <= k < dim ==> call_ensures(ops.divide, (x[k], parts.0), #[trigger] parts.1[k]),
        parts.2.len() == dim,
        code.len() == dim,
        forall|j: int|
            0 <= j < dim ==> {
                &&& exists|a: &[Float32], b: &[Float32]|
                    a@ == rotation.subrange(j * dim, j * dim + dim) && b@ == parts.1
                        && #[trigger] call_ensures(ops.dot, (a, b), parts.2[j])
                &&& (#[trigger] code[j]) + 1 < codebook.1.len()
                &&& code[j] > 0 ==> codebook.1[code[j] as int].units() < parts.2[j].units()
                &&& code[j] + 2 < codebook.1.len() ==> parts.2[j].units()
                    <= codebook.1[code[j] + 1].units()
            },
        valid_codebook(codebook, num_bits) ==> forall|j: int, other: int|
            0 <= j < dim && 0 <= other < codebook.0.len() ==> #[trigger] gap(
                parts.2[j],
                codebook.0[code[j] as int],
            ) <= #[trigger] gap(parts.2[j], codebook.0[other]) + halfway_slack(),
{
    lemma_entry(vectors.len as int, dim, i, 0);
    let packed = codes.bytes@.subrange(i * size, i * size + size);
    assert(row(vectors.values@, dim, i) == x);
    assert(row(codes.bytes@, size, i) == packed);
    assert(encoded(ops, rotation, codebook.1, dim, num_bits, x, packed));
    law_code_decodes_to_bins(
        ops,
        rotation,
        codebook.0,
        codebook.1,
        dim,
        num_bits,
        x,
        packed,
    );
    let y = choose|y: Seq<Float32>| #[trigger]
        turned(ops, rotation, dim, x, y) && y.len() == dim && code == bins(y, codebook.1);
    let direction = choose|x_hat: Seq<Float32>| #[trigger]
        ops.normalized(x, x_hat) && rotated(ops.dot, x_hat, rotation, dim, y);
    let norm = choose|length: Float32| #[trigger]
        ops.norm_result(x, length) && if length.below(tiny_norm()) {
            direction == x
        } else {
            ops.divided(x, length, direction)
        };
    vstd::arithmetic::div_mod::lemma_div_by_self(dim);
    lemma_mul_basics(dim);
    assert(row(direction, dim, 0) =~= direction);
    let v = choose|v: &[Float32]| v@ == x && #[trigger] call_ensures(ops.norm, (v,), norm);
    let parts = (norm, direction, y);
    assert(call_ensures(ops.norm, (v,), parts.0));
    lemma2_to64();
    if num_bits < 8 {
        lemma_pow2_strictly_increases(num_bits as nat, 8);
    }
    assert forall|j: int| 0 <= j < dim implies {
        &&& exists|a: &[Float32], b: &[Float32]|
            a@ == rotation.subrange(j * dim, j * dim + dim) && b@ == parts.1
                && #[trigger] call_ensures(ops.dot, (a, b), parts.2[j])
        &&& (#[trigger] code[j]) + 1 < codebook.1.len()
        &&& code[j] > 0 ==> codebook.1[code[j] as int].units() < parts.2[j].units()
        &&& code[j] + 2 < codebook.1.len() ==> parts.2[j].units() <= codebook.1[code[j]
            + 1].units()
    } by {
        assert(rotated_entry(ops.dot, direction, rotation, dim, y, 0, j));
        let (a, b) = choose|a: &[Float32], b: &[Float32]|
            a@ == row(rotation, dim, j) && b@ == direction && #[trigger] call_ensures(
                ops.dot,
                (a, b),
                y[j],
            );
        assert(call_ensures(ops.dot, (a, b), parts.2[j]));
        law_bin_brackets_value(y[j], codebook.1);
        assert(code[j] == bin_of(y[j], codebook.1));
    }
    if valid_codebook(codebook, num_bits) {
        assert forall|j: int, other: int|
            0 <= j < dim && 0 <= other < codebook.0.len() implies #[trigger] gap(
            parts.2[j],
            codebook.0[code[j] as int],
        ) <= #[trigger] gap(parts.2[j], codebook.0[other]) + halfway_slack() by {
            law_codebook_restores_nearest(codebook, num_bits, y[j], other);
            law_bin_in_range(y[j], codebook.1);
            assert(code[j] == bin_of(y[j], codebook.1));
        }
    }
    parts
}

/// A quantizer is built for every dimension from three on and every width from one to eight bits. It
/// holds the parameters that it was asked for, and the rotation matrix that the source of such
/// matrices gives for just that dimension and that seed.
pub proof fn law_built_quantizer_holds_its_parameters<O: Fn(usize, u64) -> Vec<Float32>>(
    orthogonal: O,
    dim: usize,
    params: TurboBuildParams,
    r: Result<TurboQuantizer, TurboError>,
)
    requires
        build_result(orthogonal, dim, params, r),
    ensures
        dim < 3 ==> r == Err::<TurboQuantizer, TurboError>(TurboError::Dimension { dim }),
        dim >= 3 && (params.num_bits == 0 || params.num_bits > 8) ==> r == Err::<
            TurboQuantizer,
            TurboError,
        >(TurboError::NumBits { num_bits: params.num_bits }),
        dim >= 3 && 1 <= params.num_bits <= 8 ==> r is Ok,
        r matches Ok(quantizer) ==> {
            &&& quantizer.metadata.dimension == dim
            &&& quantizer.metadata.num_bits == params.num_bits
            &&& quantizer.metadata.seed == params.seed
            &&& quantizer.metadata.rotate_mat matches Some(m) && m.num_rows == dim && m.row_len
                == dim && call_ensures(orthogonal, (dim, params.seed), m.values)
            &&& quantizer.metadata.rotate_mat_position is None
            &&& !quantizer.metadata.packed
        },
{
}

/// The metadata that are handed out for storing differ from the quantizer's in the layout only, and
/// where none is asked for the codes are not transposed.
pub proof fn law_layout_changes_nothing_else(
    metadata: MetadataView,
    args: Option<QuantizationMetadata>,
)
    ensures
        with_layout(metadata, args).rotate_mat == metadata.rotate_mat,
        with_layout(metadata, args).rotate_mat_position == metadata.rotate_mat_position,
        with_layout(metadata, args).num_bits == metadata.num_bits,
        with_layout(metadata, args).dimension == metadata.dimension,
        with_layout(metadata, args).seed == metadata.seed,
        with_layout(metadata, args).packed <==> (args matches Some(a) && a.transposed),
{
}

} // verus!
