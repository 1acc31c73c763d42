//! Stored codes, their metadata, and distances from a query to them.
//!
//! A stored batch has three columns:
//!
//! | Column          | Type                  | Description                       |
//! |-----------------|-----------------------|-----------------------------------|
//! | `_rowid`        | UInt64                | Row ID                            |
//! | `__turbo_code`  | FixedSizeList\<UInt8\>| Packed b-bit codes                |
//! | `__turbo_norm`  | Float32               | Norm of the vector before coding  |
//!
//! The rotation matrix is written beside the batches as a tensor. The codebook is not stored:
//! it follows from the dimension and the bit-width.
//!
//! Distances are estimated between a query and a stored vector without rotating the stored
//! vector back: the query is normalized and rotated once, and its dot product is taken with the
//! centroids that the codes stand for.
//!
//! ```text
//! L2:     ||q||² + γ² - 2·||q||·γ·dot
//! Dot:    -||q||·γ·dot
//! Cosine: 1 - dot
//! ```
use vstd::arithmetic::mul::{
    lemma_mul_basics, lemma_mul_inequality, lemma_mul_is_distributive_add_other_way,
};
use vstd::arithmetic::power2::pow2;
use vstd::prelude::*;
use vstd::slice::{slice_subrange, slice_to_vec};

use crate::arithmetic::{tiny_norm, VectorArithmetic};
use crate::codebook::{
    codebook_request, computes_codebooks, computes_sized, dequantize_scalar, get_codebook,
    request_view, valid_parameters, CodebookCache, CodebookView,
};
use crate::error::TurboError;
use crate::float::Float32;
use crate::packing::{
    law_packed_length_holds_codes, law_unpacked_codes_fit, packed_len, packed_size, unpack_codes,
    unpacked_codes,
};
use crate::rotation::{
    dot_callable, dot_result, rotate, rotated, rotated_entry, rotation_as_flat_f32, row, Matrix,
    MatrixView,
};
use crate::DistanceType;

verus! {

/// The schema key of the quantizer's metadata.
pub const TURBO_METADATA_KEY: &'static str = "lance:turbo";

/// The column of packed codes.
pub const TURBO_CODE_COLUMN: &'static str = "__turbo_code";

/// The column of norms.
pub const TURBO_NORM_COLUMN: &'static str = "__turbo_norm";

/// The column of row IDs.
pub const ROW_ID: &'static str = "_rowid";

// --- Tensors ---

/// The code of single-precision elements in a tensor.
pub const TENSOR_FLOAT32: i32 = 2;

/// A tensor as it is written: the element type's code, the shape, and the elements' bytes.
#[derive(Debug)]
pub struct Tensor {
    pub data_type: i32,
    pub shape: Vec<u32>,
    pub data: Vec<u8>,
}

/// What a tensor holds.
#[verifier::ext_equal]
pub struct TensorView {
    pub data_type: i32,
    pub shape: Seq<u32>,
    pub data: Seq<u8>,
}

impl Tensor {
    /// What the tensor holds.
    pub open spec fn view(&self) -> TensorView {
        TensorView { data_type: self.data_type, shape: self.shape@, data: self.data@ }
    }
}

/// Byte `k` of a number's bit pattern, the lowest first.
pub open spec fn le_byte(bits: u32, k: int) -> u8 {
    if k == 0 {
        (bits % 256) as u8
    } else if k == 1 {
        (bits / 256 % 256) as u8
    } else if k == 2 {
        (bits / 65536 % 256) as u8
    } else {
        (bits / 16777216) as u8
    }
}

/// The bytes of the numbers, four of each.
pub open spec fn number_bytes(values: Seq<Float32>) -> Seq<u8> {
    Seq::new(4 * values.len(), |p: int| le_byte(values[p / 4].bits, p % 4))
}

/// The number whose bytes start at position `4 * i`.
pub open spec fn number_at(data: Seq<u8>, i: int) -> Float32 {
    Float32 {
        bits: (data[4 * i] + 256 * data[4 * i + 1] + 65536 * data[4 * i + 2] + 16777216 * data[4 * i
            + 3]) as u32,
    }
}

/// The tensor that a matrix is written as.
pub open spec fn matrix_tensor(matrix: MatrixView) -> TensorView {
    TensorView {
        data_type: TENSOR_FLOAT32,
        shape: seq![matrix.num_rows as u32, matrix.row_len as u32],
        data: number_bytes(matrix.values),
    }
}

/// The matrix that a tensor holds, or the reason why it holds none.
///
/// It has to have two dimensions, single-precision elements, and the bytes of all elements.
pub open spec fn tensor_matrix(tensor: TensorView) -> Result<MatrixView, TurboError> {
    if tensor.shape.len() != 2 {
        Err(TurboError::TensorRank { rank: tensor.shape.len() as usize })
    } else if tensor.data_type != TENSOR_FLOAT32 {
        Err(TurboError::TensorType { code: tensor.data_type })
    } else if tensor.data.len() != 4 * (tensor.shape[0] * tensor.shape[1]) {
        Err(
            TurboError::TensorData {
                num_rows: tensor.shape[0],
                row_len: tensor.shape[1],
                num_bytes: tensor.data.len() as usize,
            },
        )
    } else {
        Ok(
            MatrixView {
                num_rows: tensor.shape[0] as nat,
                row_len: tensor.shape[1] as nat,
                values: Seq::new(
                    (tensor.shape[0] * tensor.shape[1]) as nat,
                    |i: int| number_at(tensor.data, i),
                ),
            },
        )
    }
}

/// The result of reading a matrix, by what it holds.
pub open spec fn matrix_result_view(r: Result<Matrix, TurboError>) -> Result<MatrixView, TurboError> {
    match r {
        Ok(matrix) => Ok(matrix@),
        Err(e) => Err(e),
    }
}

/// The tensor that a matrix is written as.
pub fn tensor_from_matrix(matrix: &Matrix) -> (r: Tensor)
    requires
        matrix.num_rows <= u32::MAX,
        matrix.row_len <= u32::MAX,
    ensures
        r@ == matrix_tensor(matrix@),
{
    let mut shape: Vec<u32> = Vec::new();
    shape.push(matrix.num_rows as u32);
    shape.push(matrix.row_len as u32);
    let mut data: Vec<u8> = Vec::new();
    for i in 0..matrix.values.len()
        invariant
            data@.len() == 4 * i,
            forall|p: int|
                0 <= p < data@.len() ==> #[trigger] data@[p] == le_byte(
                    matrix.values@[p / 4].bits,
                    p % 4,
                ),
    {
        let bits: u32 = matrix.values[i].bits;
        data.push((bits % 256) as u8);
        data.push((bits / 256 % 256) as u8);
        data.push((bits / 65536 % 256) as u8);
        data.push((bits / 16777216) as u8);
    }
    assert(data@ =~= number_bytes(matrix.values@));
    assert(shape@ =~= seq![matrix.num_rows as u32, matrix.row_len as u32]);
    Tensor { data_type: TENSOR_FLOAT32, shape, data }
}

/// The matrix that a tensor holds.
pub fn matrix_from_tensor(tensor: &Tensor) -> (r: Result<Matrix, TurboError>)
    ensures
        matrix_result_view(r) == tensor_matrix(tensor@),
        r matches Ok(matrix) ==> matrix.wf(),
{
    if tensor.shape.len() != 2 {
        return Err(TurboError::TensorRank { rank: tensor.shape.len() });
    }
    if tensor.data_type != TENSOR_FLOAT32 {
        return Err(TurboError::TensorType { code: tensor.data_type });
    }
    let num_rows: u32 = tensor.shape[0];
    let row_len: u32 = tensor.shape[1];
    let num_bytes: usize = tensor.data.len();
    proof {
        assert(num_rows * row_len <= u32::MAX * u32::MAX) by (nonlinear_arith)
            requires
                0 <= num_rows <= u32::MAX,
                0 <= row_len <= u32::MAX,
        ;
    }
    let count: u128 = num_rows as u128 * row_len as u128;
    if num_bytes as u128 != 4 * count {
        return Err(TurboError::TensorData { num_rows, row_len, num_bytes });
    }
    let mut values: Vec<Float32> = Vec::new();
    let n: usize = num_bytes / 4;
    for i in 0..n
        invariant
            tensor.data@.len() == num_bytes == 4 * n,
            values@.len() == i,
            forall|a: int| 0 <= a < i ==> #[trigger] values@[a] == number_at(tensor.data@, a),
    {
        let bits: u32 = tensor.data[4 * i] as u32 + 256 * (tensor.data[4 * i + 1] as u32) + 65536
            * (tensor.data[4 * i + 2] as u32) + 16777216 * (tensor.data[4 * i + 3] as u32);
        values.push(Float32 { bits });
    }
    let matrix = Matrix { num_rows: num_rows as usize, row_len: row_len as usize, values };
    assert(tensor_matrix(tensor@) is Ok);
    assert(matrix@ =~= tensor_matrix(tensor@)->Ok_0);
    Ok(matrix)
}

/// Reading the tensor of a matrix gives the matrix.
pub proof fn law_tensor_round_trip(matrix: MatrixView)
    requires
        matrix.num_rows <= u32::MAX,
        matrix.row_len <= u32::MAX,
        matrix.values.len() == matrix.num_rows * matrix.row_len,
    ensures
        tensor_matrix(matrix_tensor(matrix)) == Ok::<MatrixView, TurboError>(matrix),
{
    let tensor = matrix_tensor(matrix);
    assert forall|i: int| 0 <= i < matrix.values.len() implies #[trigger] number_at(tensor.data, i)
        == matrix.values[i] by {
        let bits = matrix.values[i].bits;
        assert(tensor.data[4 * i] == le_byte(bits, 0));
        assert(tensor.data[4 * i + 1] == le_byte(bits, 1));
        assert(tensor.data[4 * i + 2] == le_byte(bits, 2));
        assert(tensor.data[4 * i + 3] == le_byte(bits, 3));
    }
    assert(tensor_matrix(tensor)->Ok_0 =~= matrix);
}

// --- Metadata ---

/// Metadata of a quantizer.
///
/// The rotation matrix is too large to be kept with the rest and is written as a tensor. The
/// codebook is not kept: it follows from the dimension and the bit-width.
#[derive(Debug)]
pub struct TurboQuantizationMetadata {
    /// Rotation matrix.
    pub rotate_mat: Option<Matrix>,
    /// Position of the rotation matrix among the written buffers.
    pub rotate_mat_position: Option<u32>,
    /// Bit-width per coordinate (1-8).
    pub num_bits: u32,
    /// Vector dimension.
    pub dimension: usize,
    /// Seed of the rotation matrix.
    pub seed: u64,
    /// Whether codes are transposed.
    pub packed: bool,
}

/// What metadata hold.
#[verifier::ext_equal]
pub struct MetadataView {
    pub rotate_mat: Option<MatrixView>,
    pub rotate_mat_position: Option<u32>,
    pub num_bits: u32,
    pub dimension: usize,
    pub seed: u64,
    pub packed: bool,
}

/// What an optional matrix holds.
pub open spec fn optional_matrix_view(matrix: Option<Matrix>) -> Option<MatrixView> {
    match matrix {
        Some(m) => Some(m@),
        None => None,
    }
}

/// Whether `r` is a result of `decode` on the bytes.
pub open spec fn decode_result<D: Fn(&[u8]) -> Result<Tensor, String>>(
    decode: D,
    bytes: Seq<u8>,
    r: Result<Tensor, String>,
) -> bool {
    exists|b: &[u8]| b@ == bytes && #[trigger] call_ensures(decode, (b,), r)
}

/// Whether `r` is a result of `encode` on a tensor that holds the given one.
pub open spec fn encode_result<E: Fn(&Tensor) -> Result<Vec<u8>, String>>(
    encode: E,
    tensor: TensorView,
    r: Result<Vec<u8>, String>,
) -> bool {
    exists|t: Tensor| t@ == tensor && #[trigger] call_ensures(encode, (&t,), r)
}

/// What reading a buffer gives back and makes of the metadata.
///
/// An empty buffer changes nothing. Otherwise the decoded tensor's matrix becomes the rotation
/// matrix, or, where there is none, the error is given back and nothing changes.
pub open spec fn buffer_parsed<D: Fn(&[u8]) -> Result<Tensor, String>>(
    decode: D,
    bytes: Seq<u8>,
    before: MetadataView,
    after: MetadataView,
    r: Result<(), TurboError>,
) -> bool {
    if bytes.len() == 0 {
        r is Ok && after == before
    } else {
        exists|decoded: Result<Tensor, String>| #[trigger]
            decode_result(decode, bytes, decoded) && match decoded {
                Err(message) => r == Err::<(), TurboError>(TurboError::Codec { message }) && after
                    == before,
                Ok(tensor) => match tensor_matrix(tensor@) {
                    Err(e) => r == Err::<(), TurboError>(e) && after == before,
                    Ok(matrix) => r is Ok && after == (MetadataView {
                        rotate_mat: Some(matrix),
                        ..before
                    }),
                },
            }
    }
}

/// What writing the rotation matrix gives: nothing where there is none, else what `encode` gives
/// for its tensor.
pub open spec fn buffer_written<E: Fn(&Tensor) -> Result<Vec<u8>, String>>(
    encode: E,
    metadata: MetadataView,
    r: Result<Option<Vec<u8>>, TurboError>,
) -> bool {
    match metadata.rotate_mat {
        None => r == Ok::<Option<Vec<u8>>, TurboError>(None),
        Some(matrix) => exists|encoded: Result<Vec<u8>, String>| #[trigger]
            encode_result(encode, matrix_tensor(matrix), encoded) && match encoded {
                Err(message) => r == Err::<Option<Vec<u8>>, TurboError>(
                    TurboError::Codec { message },
                ),
                Ok(bytes) => r == Ok::<Option<Vec<u8>>, TurboError>(Some(bytes)),
            },
    }
}

/// The position of the first entry with the given key, or the number of entries.
pub open spec fn entry_position(entries: Seq<(String, String)>, key: Seq<char>) -> int
    decreases entries.len(),
{
    if entries.len() == 0 {
        0
    } else if entries[0].0@ == key {
        0
    } else {
        1 + entry_position(entries.skip(1), key)
    }
}

/// Whether `r` is a result of `parse` on the text.
pub open spec fn parse_result<P: Fn(&str) -> Result<TurboQuantizationMetadata, String>>(
    parse: P,
    text: Seq<char>,
    r: Result<TurboQuantizationMetadata, String>,
) -> bool {
    exists|s: &str| s@ == text && #[trigger] call_ensures(parse, (s,), r)
}

proof fn lemma_entry_position(entries: Seq<(String, String)>, key: Seq<char>, i: int)
    requires
        0 <= i <= entries.len(),
        forall|j: int| 0 <= j < i ==> (#[trigger] entries[j]).0@ != key,
        i < entries.len() ==> entries[i].0@ == key,
    ensures
        entry_position(entries, key) == i,
    decreases entries.len(),
{
    if i > 0 {
        assert(entries[0].0@ != key);
        assert forall|j: int| 0 <= j < i - 1 implies (#[trigger] entries.skip(1)[j]).0@ != key by {
            assert(entries[j + 1].0@ != key);
        }
        lemma_entry_position(entries.skip(1), key, i - 1);
    }
}

impl TurboQuantizationMetadata {
    /// What the metadata hold.
    pub open spec fn view(&self) -> MetadataView {
        MetadataView {
            rotate_mat: optional_matrix_view(self.rotate_mat),
            rotate_mat_position: self.rotate_mat_position,
            num_bits: self.num_bits,
            dimension: self.dimension,
            seed: self.seed,
            packed: self.packed,
        }
    }

    /// The position of the rotation matrix among the written buffers.
    pub fn buffer_index(&self) -> (r: Option<u32>)
        ensures
            r == self.rotate_mat_position,
    {
        self.rotate_mat_position
    }

    /// Sets the position of the rotation matrix.
    pub fn set_buffer_index(&mut self, index: u32)
        ensures
            final(self)@ == (MetadataView { rotate_mat_position: Some(index), ..old(self)@ }),
    {
        self.rotate_mat_position = Some(index);
    }

    /// Takes the rotation matrix from a written buffer.
    ///
    /// An empty buffer leaves the metadata as they are, and so does one without a matrix.
    pub fn parse_buffer<D: Fn(&[u8]) -> Result<Tensor, String>>(
        &mut self,
        bytes: &[u8],
        decode: &D,
    ) -> (r: Result<(), TurboError>)
        requires
            forall|b: &[u8]| #[trigger] call_requires(*decode, (b,)),
        ensures
            buffer_parsed(*decode, bytes@, old(self)@, final(self)@, r),
            r is Ok && bytes@.len() > 0 ==> (final(self).rotate_mat matches Some(m) && m.wf()),
    {
        if bytes.len() == 0 {
            return Ok(());
        }
        let decoded: Result<Tensor, String> = decode(bytes);
        assert(decode_result(*decode, bytes@, decoded));
        match decoded {
            Err(message) => Err(TurboError::Codec { message }),
            Ok(tensor) => {
                match matrix_from_tensor(&tensor) {
                    Err(e) => Err(e),
                    Ok(matrix) => {
                        self.rotate_mat = Some(matrix);
                        Ok(())
                    },
                }
            },
        }
    }

    /// The bytes of the rotation matrix, where there is one.
    pub fn extra_metadata<E: Fn(&Tensor) -> Result<Vec<u8>, String>>(&self, encode: &E) -> (r:
        Result<Option<Vec<u8>>, TurboError>)
        requires
            self.rotate_mat matches Some(m) ==> m.num_rows <= u32::MAX && m.row_len <= u32::MAX,
            forall|t: Tensor| #[trigger] call_requires(*encode, (&t,)),
        ensures
            buffer_written(*encode, self@, r),
    {
        match &self.rotate_mat {
            None => Ok(None),
            Some(matrix) => {
                let tensor: Tensor = tensor_from_matrix(matrix);
                let encoded: Result<Vec<u8>, String> = encode(&tensor);
                assert(encode_result(*encode, matrix_tensor(self@.rotate_mat->Some_0), encoded));
                match encoded {
                    Err(message) => Err(TurboError::Codec { message }),
                    Ok(bytes) => Ok(Some(bytes)),
                }
            },
        }
    }

    /// Reads metadata from the entry that a schema holds for them.
    pub fn load<P: Fn(&str) -> Result<TurboQuantizationMetadata, String>>(
        entries: &Vec<(String, String)>,
        parse: &P,
    ) -> (r: Result<TurboQuantizationMetadata, TurboError>)
        requires
            forall|s: &str| #[trigger] call_requires(*parse, (s,)),
        ensures
            ({
                let position = entry_position(entries@, TURBO_METADATA_KEY@);
                if position >= entries@.len() {
                    r == Err::<TurboQuantizationMetadata, TurboError>(TurboError::MetadataNotFound)
                } else {
                    exists|parsed: Result<TurboQuantizationMetadata, String>| #[trigger]
                        parse_result(*parse, entries@[position].1@, parsed) && match parsed {
                            Err(message) => r == Err::<TurboQuantizationMetadata, TurboError>(
                                TurboError::Codec { message },
                            ),
                            Ok(metadata) => r == Ok::<TurboQuantizationMetadata, TurboError>(
                                metadata,
                            ),
                        }
                }
            }),
    {
        let key: String = String::from_str(TURBO_METADATA_KEY);
        for i in 0..entries.len()
            invariant
                key@ == TURBO_METADATA_KEY@,
                forall|s: &str| #[trigger] call_requires(*parse, (s,)),
                forall|j: int| 0 <= j < i ==> (#[trigger] entries@[j]).0@ != key@,
        {
            if entries[i].0 == key {
                proof {
                    lemma_entry_position(entries@, key@, i as int);
                }
                let parsed: Result<TurboQuantizationMetadata, String> = parse(
                    entries[i].1.as_str(),
                );
                assert(parse_result(*parse, entries@[i as int].1@, parsed));
                return match parsed {
                    Err(message) => Err(TurboError::Codec { message }),
                    Ok(metadata) => Ok(metadata),
                };
            }
        }
        proof {
            lemma_entry_position(entries@, key@, entries@.len() as int);
        }
        Err(TurboError::MetadataNotFound)
    }
}

impl Clone for TurboQuantizationMetadata {
    /// Metadata that hold the same.
    fn clone(&self) -> (r: TurboQuantizationMetadata)
        ensures
            r@ == self@,
    {
        let rotate_mat: Option<Matrix> = match &self.rotate_mat {
            Some(matrix) => Some(matrix.clone()),
            None => None,
        };
        TurboQuantizationMetadata {
            rotate_mat,
            rotate_mat_position: self.rotate_mat_position,
            num_bits: self.num_bits,
            dimension: self.dimension,
            seed: self.seed,
            packed: self.packed,
        }
    }
}

/// Whether `decode` gives back every tensor that `encode` has written.
pub open spec fn decodes<
    E: Fn(&Tensor) -> Result<Vec<u8>, String>,
    D: Fn(&[u8]) -> Result<Tensor, String>,
>(encode: E, decode: D) -> bool {
    forall|tensor: TensorView, bytes: Vec<u8>, decoded: Result<Tensor, String>| #[trigger]
        encode_result(encode, tensor, Ok(bytes)) && #[trigger] decode_result(
            decode,
            bytes@,
            decoded,
        ) ==> (decoded matches Ok(t) && t@ == tensor)
}

/// Reading what was written of a rotation matrix gives the matrix: metadata that lost it have
/// it again.
pub proof fn law_rotation_matrix_round_trip<
    E: Fn(&Tensor) -> Result<Vec<u8>, String>,
    D: Fn(&[u8]) -> Result<Tensor, String>,
>(
    encode: E,
    decode: D,
    written: MetadataView,
    bytes: Vec<u8>,
    before: MetadataView,
    after: MetadataView,
    r: Result<(), TurboError>,
)
    requires
        written.rotate_mat matches Some(m) && m.num_rows <= u32::MAX && m.row_len <= u32::MAX
            && m.values.len() == m.num_rows * m.row_len,
        buffer_written(encode, written, Ok(Some(bytes))),
        bytes@.len() > 0,
        decodes(encode, decode),
        buffer_parsed(decode, bytes@, before, after, r),
    ensures
        r is Ok,
        after == (MetadataView { rotate_mat: written.rotate_mat, ..before }),
{
    let matrix = written.rotate_mat->Some_0;
    law_tensor_round_trip(matrix);
    assert(encode_result(encode, matrix_tensor(matrix), Ok(bytes)));
}

// --- Schemas ---

/// The types of the stored columns.
#[derive(Debug, Clone, Copy, PartialEq, Eq, Structural)]
pub enum FieldType {
    UInt64,
    Float32,
    /// Lists of `size` nullable bytes.
    UInt8List { size: i32 },
}

/// A column's name, type, and whether it may hold nulls.
#[derive(Debug)]
pub struct Field {
    pub name: String,
    pub field_type: FieldType,
    pub nullable: bool,
}

/// What a field holds.
#[verifier::ext_equal]
pub struct FieldView {
    pub name: Seq<char>,
    pub field_type: FieldType,
    pub nullable: bool,
}

impl Field {
    /// What the field holds.
    pub open spec fn view(&self) -> FieldView {
        FieldView { name: self.name@, field_type: self.field_type, nullable: self.nullable }
    }
}

impl Clone for Field {
    /// A field that holds the same.
    fn clone(&self) -> (r: Field)
        ensures
            r@ == self@,
    {
        Field {
            name: self.name.clone(),
            field_type: self.field_type,
            nullable: self.nullable,
        }
    }
}

/// What fields hold.
pub open spec fn field_views(fields: Seq<Field>) -> Seq<FieldView> {
    Seq::new(fields.len(), |i: int| fields[i]@)
}

/// The column of codes of `num_bits` bits for `dimension` coordinates.
pub open spec fn code_field(dimension: usize, num_bits: u32) -> FieldView {
    FieldView {
        name: TURBO_CODE_COLUMN@,
        field_type: FieldType::UInt8List {
            size: packed_size(dimension as int, num_bits as int) as i32,
        },
        nullable: true,
    }
}

/// The column of norms.
pub open spec fn norm_field() -> FieldView {
    FieldView { name: TURBO_NORM_COLUMN@, field_type: FieldType::Float32, nullable: true }
}

/// The columns of a stored batch.
pub open spec fn storage_schema(metadata: MetadataView) -> Seq<FieldView> {
    seq![
        FieldView { name: ROW_ID@, field_type: FieldType::UInt64, nullable: false },
        code_field(metadata.dimension, metadata.num_bits),
        norm_field(),
    ]
}

/// Whether the number of bits of a code can be counted.
pub open spec fn countable(metadata: MetadataView) -> bool {
    metadata.dimension * metadata.num_bits + 7 <= usize::MAX
}

/// The column of codes of `num_bits` bits for `dimension` coordinates.
pub fn make_code_field(dimension: usize, num_bits: u32) -> (r: Field)
    requires
        dimension * num_bits + 7 <= usize::MAX,
    ensures
        r@ == code_field(dimension, num_bits),
{
    Field {
        name: String::from_str(TURBO_CODE_COLUMN),
        field_type: FieldType::UInt8List { size: packed_len(dimension, num_bits) as i32 },
        nullable: true,
    }
}

/// The column of norms.
pub fn make_norm_field() -> (r: Field)
    ensures
        r@ == norm_field(),
{
    Field {
        name: String::from_str(TURBO_NORM_COLUMN),
        field_type: FieldType::Float32,
        nullable: true,
    }
}

// --- Batches and chunks ---

/// A column of a stored batch, with what the caller keeps of it.
#[derive(Debug)]
pub enum StoredColumn<C> {
    /// The row IDs.
    RowIds { data: C },
    /// The packed codes.
    Codes { data: C },
    /// The norms.
    Norms { data: C },
    /// Any further column.
    Other { name: String, data: C },
}

/// What a column is: one of those that are read, or a further one with its name.
pub enum StoredColumnView {
    RowIds,
    Codes,
    Norms,
    Other { name: Seq<char> },
}

impl<C> StoredColumn<C> {
    /// What the column is.
    pub open spec fn view(&self) -> StoredColumnView {
        match *self {
            StoredColumn::RowIds { .. } => StoredColumnView::RowIds,
            StoredColumn::Codes { .. } => StoredColumnView::Codes,
            StoredColumn::Norms { .. } => StoredColumnView::Norms,
            StoredColumn::Other { name, .. } => StoredColumnView::Other { name: name@ },
        }
    }

    /// What the caller keeps of the column.
    pub open spec fn kept(self) -> C {
        match self {
            StoredColumn::RowIds { data } => data,
            StoredColumn::Codes { data } => data,
            StoredColumn::Norms { data } => data,
            StoredColumn::Other { data, .. } => data,
        }
    }
}

impl<C: Clone> Clone for StoredColumn<C> {
    /// The same column, with a clone of what the caller keeps of it.
    fn clone(&self) -> (r: StoredColumn<C>)
        ensures
            r@ == self@,
            cloned::<C>(self.kept(), r.kept()),
    {
        match self {
            StoredColumn::RowIds { data } => StoredColumn::RowIds { data: data.clone() },
            StoredColumn::Codes { data } => StoredColumn::Codes { data: data.clone() },
            StoredColumn::Norms { data } => StoredColumn::Norms { data: data.clone() },
            StoredColumn::Other { name, data } => StoredColumn::Other {
                name: name.clone(),
                data: data.clone(),
            },
        }
    }
}

/// A stored batch: row IDs, packed codes of `code_len` bytes each, and norms, which are read, and
/// all its columns in their order, further ones among them.
#[derive(Debug)]
pub struct CodeBatch<C> {
    pub row_ids: Vec<u64>,
    pub code_len: usize,
    pub codes: Vec<u8>,
    pub norms: Vec<Float32>,
    pub columns: Vec<StoredColumn<C>>,
}

/// What a batch holds.
#[verifier::ext_equal]
pub struct CodeBatchView {
    pub row_ids: Seq<u64>,
    pub code_len: nat,
    pub codes: Seq<u8>,
    pub norms: Seq<Float32>,
    pub columns: Seq<StoredColumnView>,
}

impl CodeBatchView {
    /// Whether all columns that are read have the same number of rows.
    pub open spec fn wf(self) -> bool {
        &&& self.norms.len() == self.row_ids.len()
        &&& self.codes.len() == self.row_ids.len() * self.code_len
    }
}

/// What columns are.
pub open spec fn column_views<C>(columns: Seq<StoredColumn<C>>) -> Seq<StoredColumnView> {
    Seq::new(columns.len(), |i: int| columns[i]@)
}

impl<C> CodeBatch<C> {
    /// What the batch holds.
    pub open spec fn view(&self) -> CodeBatchView {
        CodeBatchView {
            row_ids: self.row_ids@,
            code_len: self.code_len as nat,
            codes: self.codes@,
            norms: self.norms@,
            columns: column_views(self.columns@),
        }
    }

    /// The number of rows.
    pub fn num_rows(&self) -> (r: usize)
        ensures
            r == self@.row_ids.len(),
    {
        self.row_ids.len()
    }
}

/// Whether `copy` holds the same as the batch, with a clone of what the caller keeps of each column.
pub open spec fn cloned_batch<C: Clone>(batch: CodeBatch<C>, copy: CodeBatch<C>) -> bool {
    &&& copy@ == batch@
    &&& forall|i: int|
        0 <= i < batch.columns@.len() ==> cloned::<C>(
            (#[trigger] batch.columns@[i]).kept(),
            copy.columns@[i].kept(),
        )
}

impl<C: Clone> Clone for CodeBatch<C> {
    /// A batch that holds the same.
    fn clone(&self) -> (r: CodeBatch<C>)
        ensures
            cloned_batch(*self, r),
    {
        let mut columns: Vec<StoredColumn<C>> = Vec::new();
        for i in 0..self.columns.len()
            invariant
                columns@.len() == i,
                forall|j: int|
                    0 <= j < i ==> (#[trigger] columns@[j])@ == self.columns@[j]@ && cloned::<C>(
                        self.columns@[j].kept(),
                        columns@[j].kept(),
                    ),
        {
            columns.push(self.columns[i].clone());
        }
        assert(column_views(columns@) =~= column_views(self.columns@));
        CodeBatch {
            row_ids: slice_to_vec(self.row_ids.as_slice()),
            code_len: self.code_len,
            codes: slice_to_vec(self.codes.as_slice()),
            norms: slice_to_vec(self.norms.as_slice()),
            columns,
        }
    }
}

/// A batch with what is needed to read its codes.
#[derive(Debug)]
pub struct TurboStorageChunk<C> {
    pub batch: CodeBatch<C>,
    pub dim: usize,
    pub num_bits: u32,
    pub code_bytes: usize,
}

/// What a chunk holds.
#[verifier::ext_equal]
pub struct ChunkView {
    pub batch: CodeBatchView,
    pub dim: usize,
    pub num_bits: u32,
    pub code_bytes: usize,
}

impl ChunkView {
    /// The number of rows.
    pub open spec fn len(self) -> nat {
        self.batch.row_ids.len()
    }

    /// The packed code of row `i`.
    pub open spec fn code(self, i: int) -> Seq<u8> {
        self.batch.codes.subrange(i * self.code_bytes, i * self.code_bytes + self.code_bytes)
    }
}

impl<C> TurboStorageChunk<C> {
    /// What the chunk holds.
    pub open spec fn view(&self) -> ChunkView {
        ChunkView {
            batch: self.batch@,
            dim: self.dim,
            num_bits: self.num_bits,
            code_bytes: self.code_bytes,
        }
    }

    /// The number of rows.
    pub fn len(&self) -> (r: usize)
        ensures
            r == self@.len(),
    {
        self.batch.num_rows()
    }

    /// The packed code of row `i`.
    pub fn code_slice(&self, i: usize) -> (r: &[u8])
        requires
            i * self.code_bytes + self.code_bytes <= self.batch.codes@.len(),
        ensures
            r@ == self@.code(i as int),
    {
        proof {
            assert(0 <= i * self.code_bytes) by (nonlinear_arith)
                requires
                    0 <= i,
                    0 <= self.code_bytes,
            ;
        }
        let size: usize = self.batch.codes.len();
        assert(i * self.code_bytes <= size);
        let offset: usize = i * self.code_bytes;
        slice_subrange(self.batch.codes.as_slice(), offset, offset + self.code_bytes)
    }
}

impl<C: Clone> Clone for TurboStorageChunk<C> {
    /// A chunk that holds the same.
    fn clone(&self) -> (r: TurboStorageChunk<C>)
        ensures
            r@ == self@,
            cloned_batch(self.batch, r.batch),
    {
        TurboStorageChunk {
            batch: self.batch.clone(),
            dim: self.dim,
            num_bits: self.num_bits,
            code_bytes: self.code_bytes,
        }
    }
}

/// What chunks hold.
pub open spec fn chunk_views<C>(chunks: Seq<TurboStorageChunk<C>>) -> Seq<ChunkView> {
    Seq::new(chunks.len(), |i: int| chunks[i]@)
}

/// The number of rows of all chunks.
pub open spec fn total_rows(chunks: Seq<ChunkView>) -> nat
    decreases chunks.len(),
{
    if chunks.len() == 0 {
        0
    } else {
        total_rows(chunks.drop_last()) + chunks.last().len()
    }
}

/// The row IDs of all chunks, one chunk after the other.
pub open spec fn stored_row_ids(chunks: Seq<ChunkView>) -> Seq<u64>
    decreases chunks.len(),
{
    if chunks.len() == 0 {
        Seq::empty()
    } else {
        stored_row_ids(chunks.drop_last()) + chunks.last().batch.row_ids
    }
}

/// Whether the vector with the given ID is row `i` of chunk `c`: IDs count the rows of one chunk
/// after the other.
pub open spec fn located(chunks: Seq<ChunkView>, id: int, c: int, i: int) -> bool {
    &&& 0 <= c < chunks.len()
    &&& 0 <= i < chunks[c].len()
    &&& total_rows(chunks.take(c)) + i == id
}

proof fn lemma_take_next(chunks: Seq<ChunkView>, c: int)
    requires
        0 <= c < chunks.len(),
    ensures
        total_rows(chunks.take(c + 1)) == total_rows(chunks.take(c)) + chunks[c].len(),
        stored_row_ids(chunks.take(c + 1)) == stored_row_ids(chunks.take(c))
            + chunks[c].batch.row_ids,
{
    assert(chunks.take(c + 1).drop_last() =~= chunks.take(c));
}

proof fn lemma_take_all(chunks: Seq<ChunkView>)
    ensures
        chunks.take(chunks.len() as int) == chunks,
{
    assert(chunks.take(chunks.len() as int) =~= chunks);
}

proof fn lemma_rows_grow(chunks: Seq<ChunkView>, c: int, d: int)
    requires
        0 <= c <= d <= chunks.len(),
    ensures
        total_rows(chunks.take(c)) <= total_rows(chunks.take(d)),
    decreases d,
{
    if c < d {
        lemma_take_next(chunks, d - 1);
        lemma_rows_grow(chunks, c, d - 1);
    }
}

proof fn lemma_row_ids_count(chunks: Seq<ChunkView>)
    ensures
        stored_row_ids(chunks).len() == total_rows(chunks),
    decreases chunks.len(),
{
    if chunks.len() > 0 {
        lemma_row_ids_count(chunks.drop_last());
    }
}

/// The row IDs of the first chunks come first.
proof fn lemma_row_ids_prefix(chunks: Seq<ChunkView>, c: int, p: int)
    requires
        0 <= c <= chunks.len(),
        0 <= p < total_rows(chunks.take(c)),
    ensures
        p < stored_row_ids(chunks).len(),
        stored_row_ids(chunks)[p] == stored_row_ids(chunks.take(c))[p],
    decreases chunks.len() - c,
{
    lemma_row_ids_count(chunks.take(c));
    if c < chunks.len() {
        lemma_take_next(chunks, c);
        lemma_row_ids_prefix(chunks, c + 1, p);
    } else {
        lemma_take_all(chunks);
    }
}

/// An ID below the number of rows has a place, and only one.
pub proof fn law_ids_have_one_place(chunks: Seq<ChunkView>, id: int)
    requires
        0 <= id < total_rows(chunks),
    ensures
        exists|c: int, i: int| located(chunks, id, c, i),
        forall|c: int, i: int, d: int, j: int|
            located(chunks, id, c, i) && located(chunks, id, d, j) ==> c == d && i == j,
    decreases chunks.len(),
{
    lemma_place_exists(chunks, id);
    assert forall|c: int, i: int, d: int, j: int|
        located(chunks, id, c, i) && located(chunks, id, d, j) implies c == d && i == j by {
        lemma_take_next(chunks, c);
        lemma_take_next(chunks, d);
        if c < d {
            lemma_rows_grow(chunks, c + 1, d);
        }
        if d < c {
            lemma_rows_grow(chunks, d + 1, c);
        }
    }
}

proof fn lemma_place_exists(chunks: Seq<ChunkView>, id: int)
    requires
        0 <= id < total_rows(chunks),
    ensures
        exists|c: int, i: int| located(chunks, id, c, i),
    decreases chunks.len(),
{
    let n = chunks.len() as int;
    let init = chunks.drop_last();
    assert(chunks.take(n - 1) =~= init);
    if id >= total_rows(init) {
        assert(located(chunks, id, n - 1, id - total_rows(init)));
    } else {
        lemma_place_exists(init, id);
        let (c, i) = choose|c: int, i: int| located(init, id, c, i);
        assert(init.take(c) =~= chunks.take(c));
        assert(located(chunks, id, c, i));
    }
}

/// The row ID at a vector's place is the one at its ID among all row IDs.
pub proof fn law_located_row_id(chunks: Seq<ChunkView>, id: int, c: int, i: int)
    requires
        located(chunks, id, c, i),
    ensures
        id < stored_row_ids(chunks).len() == total_rows(chunks),
        stored_row_ids(chunks)[id] == chunks[c].batch.row_ids[i],
{
    lemma_take_next(chunks, c);
    lemma_row_ids_count(chunks.take(c));
    lemma_row_ids_count(chunks);
    lemma_row_ids_prefix(chunks, c + 1, id);
}

// --- Storage ---

/// Storage for quantized vectors.
///
/// An index of reused fragments, of any type `R`, is kept with it and handed on, and never read.
#[derive(Debug)]
pub struct TurboQuantizationStorage<C, R> {
    pub metadata: TurboQuantizationMetadata,
    pub distance_type: DistanceType,
    pub schema: Vec<Field>,
    pub chunks: Vec<TurboStorageChunk<C>>,
    pub offsets: Vec<u32>,
    pub frag_reuse_index: Option<R>,
}

/// Whether `copy` is a clone of what is optionally there.
pub open spec fn cloned_index<R: Clone>(index: Option<R>, copy: Option<R>) -> bool {
    match index {
        Some(i) => copy matches Some(c) && cloned::<R>(i, c),
        None => copy is None,
    }
}

/// What a storage holds.
#[verifier::ext_equal]
pub struct StorageView {
    pub metadata: MetadataView,
    pub distance_type: DistanceType,
    pub schema: Seq<FieldView>,
    pub chunks: Seq<ChunkView>,
    pub offsets: Seq<u32>,
}

/// A batch with what is needed to read its codes.
pub open spec fn chunk_of(batch: CodeBatchView, metadata: MetadataView) -> ChunkView {
    ChunkView {
        batch,
        dim: metadata.dimension,
        num_bits: metadata.num_bits,
        code_bytes: packed_size(metadata.dimension as int, metadata.num_bits as int) as usize,
    }
}

/// The storage that holds one batch.
pub open spec fn storage_of(
    batch: CodeBatchView,
    metadata: MetadataView,
    distance_type: DistanceType,
) -> StorageView {
    StorageView {
        metadata,
        distance_type,
        schema: storage_schema(metadata),
        chunks: seq![chunk_of(batch, metadata)],
        offsets: seq![batch.row_ids.len() as u32],
    }
}

impl StorageView {
    /// The number of stored vectors.
    pub open spec fn len(self) -> nat {
        total_rows(self.chunks)
    }

    /// The row IDs of all stored vectors.
    pub open spec fn row_ids(self) -> Seq<u64> {
        stored_row_ids(self.chunks)
    }

    /// The storage with a batch added behind the others.
    pub open spec fn appended(self, batch: CodeBatchView) -> StorageView {
        StorageView {
            chunks: self.chunks.push(chunk_of(batch, self.metadata)),
            offsets: self.offsets.push((self.len() + batch.row_ids.len()) as u32),
            ..self
        }
    }

    /// Whether the storage is as it has to be: all chunks are read by the same metadata, the
    /// schema is theirs, each offset is the number of rows up to the end of its chunk, and every
    /// vector has an ID.
    pub open spec fn wf(self) -> bool {
        &&& countable(self.metadata)
        &&& self.schema == storage_schema(self.metadata)
        &&& self.len() <= u32::MAX
        &&& self.offsets.len() == self.chunks.len()
        &&& forall|c: int|
            0 <= c < self.chunks.len() ==> {
                &&& (#[trigger] self.chunks[c]).batch.wf()
                &&& self.chunks[c] == chunk_of(self.chunks[c].batch, self.metadata)
            }
        &&& forall|c: int|
            0 <= c < self.offsets.len() ==> #[trigger] self.offsets[c] == total_rows(
                self.chunks.take(c + 1),
            )
    }

    /// Whether the batches have the bytes of as many codes as they have rows, by the length that the
    /// metadata ask for.
    pub open spec fn codes_fit(self) -> bool {
        forall|c: int|
            0 <= c < self.chunks.len() ==> (#[trigger] self.chunks[c]).len()
                * self.chunks[c].code_bytes <= self.chunks[c].batch.codes.len()
    }

    /// Whether the bytes of the code of the vector with the given ID are there.
    pub open spec fn readable(self, id: int) -> bool {
        forall|c: int, i: int| #[trigger]
            located(self.chunks, id, c, i) ==> i * self.chunks[c].code_bytes
                + self.chunks[c].code_bytes <= self.chunks[c].batch.codes.len()
    }
}

/// Appending adds the batch's row IDs behind those that are there, so that IDs stay what they
/// are.
pub proof fn law_append_adds_rows_at_the_end(storage: StorageView, batch: CodeBatchView)
    ensures
        storage.appended(batch).row_ids() == storage.row_ids() + batch.row_ids,
        storage.appended(batch).len() == storage.len() + batch.row_ids.len(),
        storage.appended(batch).metadata == storage.metadata,
        storage.appended(batch).schema == storage.schema,
        storage.appended(batch).distance_type == storage.distance_type,
{
    assert(storage.appended(batch).chunks.drop_last() =~= storage.chunks);
}

/// Appending leaves every stored vector at its place, and the first new vector gets the next ID.
pub proof fn law_append_keeps_places(
    storage: StorageView,
    batch: CodeBatchView,
    id: int,
    c: int,
    i: int,
)
    ensures
        located(storage.chunks, id, c, i) ==> {
            &&& located(storage.appended(batch).chunks, id, c, i)
            &&& storage.appended(batch).chunks[c] == storage.chunks[c]
        },
        0 <= i < batch.row_ids.len() ==> {
            &&& located(
                storage.appended(batch).chunks,
                storage.len() + i,
                storage.chunks.len() as int,
                i,
            )
            &&& storage.appended(batch).chunks.last().batch == batch
        },
{
    let after = storage.appended(batch).chunks;
    if located(storage.chunks, id, c, i) {
        assert(after.take(c) =~= storage.chunks.take(c));
    }
    assert(after.take(storage.chunks.len() as int) =~= storage.chunks);
}

/// Appending keeps the storage as it has to be, as long as every vector has an ID.
pub proof fn law_append_keeps_wf(storage: StorageView, batch: CodeBatchView)
    requires
        storage.wf(),
        batch.wf(),
        storage.len() + batch.row_ids.len() <= u32::MAX,
    ensures
        storage.appended(batch).wf(),
        storage.codes_fit() && batch.row_ids.len() * (packed_size(
            storage.metadata.dimension as int,
            storage.metadata.num_bits as int,
        ) as usize) <= batch.codes.len() ==> storage.appended(batch).codes_fit(),
{
    let after = storage.appended(batch);
    law_append_adds_rows_at_the_end(storage, batch);
    assert forall|c: int| 0 <= c < after.offsets.len() implies #[trigger] after.offsets[c]
        == total_rows(after.chunks.take(c + 1)) by {
        if c < storage.offsets.len() {
            assert(storage.offsets[c] == total_rows(storage.chunks.take(c + 1)));
            assert(after.chunks.take(c + 1) =~= storage.chunks.take(c + 1));
        } else {
            assert(after.chunks.take(c + 1) =~= after.chunks);
        }
    }
    assert forall|c: int| 0 <= c < after.chunks.len() implies {
        &&& (#[trigger] after.chunks[c]).batch.wf()
        &&& after.chunks[c] == chunk_of(after.chunks[c].batch, after.metadata)
    } by {
        if c < storage.chunks.len() {
            assert(storage.chunks[c].batch.wf());
        }
    }
}

/// Where the batches have the bytes of all codes, every vector's code is there.
pub proof fn law_codes_that_fit_are_readable(storage: StorageView, id: int)
    requires
        storage.codes_fit(),
    ensures
        storage.readable(id),
{
    assert forall|c: int, i: int| #[trigger] located(storage.chunks, id, c, i) implies i
        * storage.chunks[c].code_bytes + storage.chunks[c].code_bytes
        <= storage.chunks[c].batch.codes.len() by {
        let size = storage.chunks[c].code_bytes as int;
        lemma_mul_inequality(i + 1, storage.chunks[c].len() as int, size);
        lemma_mul_is_distributive_add_other_way(size, i, 1);
        lemma_mul_basics(size);
    }
}

/// A storage of one batch is as it has to be.
pub proof fn law_new_storage_is_wf(
    batch: CodeBatchView,
    metadata: MetadataView,
    distance_type: DistanceType,
)
    requires
        countable(metadata),
        batch.wf(),
        batch.row_ids.len() <= u32::MAX,
    ensures
        storage_of(batch, metadata, distance_type).wf(),
        storage_of(batch, metadata, distance_type).len() == batch.row_ids.len(),
        storage_of(batch, metadata, distance_type).row_ids() == batch.row_ids,
{
    let storage = storage_of(batch, metadata, distance_type);
    assert(storage.chunks.drop_last() =~= Seq::<ChunkView>::empty());
    assert(total_rows(Seq::<ChunkView>::empty()) == 0);
    assert(stored_row_ids(Seq::<ChunkView>::empty()) == Seq::<u64>::empty());
    lemma_take_all(storage.chunks);
    assert(storage.row_ids() =~= batch.row_ids);
}

/// Whether the batches of `copies` are clones of those of the chunks.
pub open spec fn cloned_batches<C: Clone>(
    chunks: Seq<TurboStorageChunk<C>>,
    copies: Seq<TurboStorageChunk<C>>,
) -> bool {
    &&& copies.len() >= chunks.len()
    &&& forall|c: int|
        0 <= c < chunks.len() ==> cloned_batch((#[trigger] chunks[c]).batch, copies[c].batch)
}

/// Chunks that hold the same.
fn copy_chunks<C: Clone>(chunks: &Vec<TurboStorageChunk<C>>) -> (r: Vec<TurboStorageChunk<C>>)
    ensures
        chunk_views(r@) == chunk_views(chunks@),
        r@.len() == chunks@.len(),
        cloned_batches(chunks@, r@),
{
    let mut r: Vec<TurboStorageChunk<C>> = Vec::new();
    for c in 0..chunks.len()
        invariant
            r@.len() == c,
            forall|d: int|
                0 <= d < c ==> (#[trigger] r@[d])@ == chunks@[d]@ && cloned_batch(
                    chunks@[d].batch,
                    r@[d].batch,
                ),
    {
        r.push(chunks[c].clone());
    }
    assert(chunk_views(r@) =~= chunk_views(chunks@));
    r
}

/// Fields that hold the same.
fn copy_fields(fields: &Vec<Field>) -> (r: Vec<Field>)
    ensures
        field_views(r@) == field_views(fields@),
{
    let mut r: Vec<Field> = Vec::new();
    for f in 0..fields.len()
        invariant
            r@.len() == f,
            forall|g: int| 0 <= g < f ==> (#[trigger] r@[g])@ == fields@[g]@,
    {
        r.push(fields[f].clone());
    }
    assert(field_views(r@) =~= field_views(fields@));
    r
}

impl<C: Clone, R: Clone> Clone for TurboQuantizationStorage<C, R> {
    /// A storage that holds the same.
    fn clone(&self) -> (r: TurboQuantizationStorage<C, R>)
        ensures
            r@ == self@,
            cloned_batches(self.chunks@, r.chunks@),
            cloned_index(self.frag_reuse_index, r.frag_reuse_index),
    {
        TurboQuantizationStorage {
            metadata: self.metadata.clone(),
            distance_type: self.distance_type,
            schema: copy_fields(&self.schema),
            chunks: copy_chunks(&self.chunks),
            offsets: slice_to_vec(self.offsets.as_slice()),
            frag_reuse_index: self.frag_reuse_index.clone(),
        }
    }
}

impl<C, R> TurboQuantizationStorage<C, R> {
    /// What the storage holds.
    pub open spec fn view(&self) -> StorageView {
        StorageView {
            metadata: self.metadata@,
            distance_type: self.distance_type,
            schema: field_views(self.schema@),
            chunks: chunk_views(self.chunks@),
            offsets: self.offsets@,
        }
    }

    /// The columns of a stored batch.
    fn schema_impl(metadata: &TurboQuantizationMetadata) -> (r: Vec<Field>)
        requires
            countable(metadata@),
        ensures
            field_views(r@) == storage_schema(metadata@),
    {
        let mut r: Vec<Field> = Vec::new();
        r.push(
            Field {
                name: String::from_str(ROW_ID),
                field_type: FieldType::UInt64,
                nullable: false,
            },
        );
        r.push(make_code_field(metadata.dimension, metadata.num_bits));
        r.push(make_norm_field());
        assert(field_views(r@) =~= storage_schema(metadata@));
        r
    }

    /// The storage of one batch.
    pub fn try_from_batch(
        batch: CodeBatch<C>,
        metadata: &TurboQuantizationMetadata,
        distance_type: DistanceType,
        frag_reuse_index: Option<R>,
    ) -> (r: Result<TurboQuantizationStorage<C, R>, TurboError>)
        requires
            countable(metadata@),
            batch@.wf(),
            batch@.row_ids.len() <= u32::MAX,
        ensures
            r matches Ok(storage) && storage@ == storage_of(batch@, metadata@, distance_type)
                && storage@.wf() && storage.chunks@[0].batch == batch && storage.frag_reuse_index
                == frag_reuse_index,
    {
        let dim: usize = metadata.dimension;
        let num_bits: u32 = metadata.num_bits;
        let code_bytes: usize = packed_len(dim, num_bits);
        let n: usize = batch.num_rows();
        let schema: Vec<Field> = Self::schema_impl(metadata);
        let mut chunks: Vec<TurboStorageChunk<C>> = Vec::new();
        chunks.push(TurboStorageChunk { batch, dim, num_bits, code_bytes });
        let mut offsets: Vec<u32> = Vec::new();
        offsets.push(n as u32);
        let storage = TurboQuantizationStorage {
            metadata: metadata.clone(),
            distance_type,
            schema,
            chunks,
            offsets,
            frag_reuse_index,
        };
        proof {
            assert(storage@.chunks =~= storage_of(batch@, metadata@, distance_type).chunks);
            assert(storage@ =~= storage_of(batch@, metadata@, distance_type));
            law_new_storage_is_wf(batch@, metadata@, distance_type);
        }
        Ok(storage)
    }

    /// The metadata that the codes are read by.
    pub fn metadata(&self) -> (r: &TurboQuantizationMetadata)
        ensures
            r@ == self@.metadata,
            *r == self.metadata,
    {
        &self.metadata
    }

    /// The columns of a stored batch.
    pub fn schema(&self) -> (r: &Vec<Field>)
        ensures
            field_views(r@) == self@.schema,
    {
        &self.schema
    }

    /// How distances are measured.
    pub fn distance_type(&self) -> (r: DistanceType)
        ensures
            r == self@.distance_type,
    {
        self.distance_type
    }

    /// The stored batches, in the order in which they were added.
    pub fn to_batches(&self) -> (r: Vec<CodeBatch<C>>) where C: Clone
        ensures
            r@.len() == self@.chunks.len(),
            forall|c: int|
                0 <= c < r@.len() ==> (#[trigger] r@[c])@ == self@.chunks[c].batch && cloned_batch(
                    self.chunks@[c].batch,
                    r@[c],
                ),
    {
        let mut r: Vec<CodeBatch<C>> = Vec::new();
        for c in 0..self.chunks.len()
            invariant
                r@.len() == c,
                forall|d: int|
                    0 <= d < c ==> (#[trigger] r@[d])@ == self@.chunks[d].batch && cloned_batch(
                        self.chunks@[d].batch,
                        r@[d],
                    ),
        {
            r.push(self.chunks[c].batch.clone());
        }
        r
    }

    /// The number of stored vectors.
    pub fn len(&self) -> (r: usize)
        requires
            self@.wf(),
        ensures
            r == self@.len(),
    {
        let mut r: usize = 0;
        let ghost views = self@.chunks;
        for c in 0..self.chunks.len()
            invariant
                views == self@.chunks,
                total_rows(views) <= u32::MAX,
                r == total_rows(views.take(c as int)),
        {
            proof {
                lemma_take_next(views, c as int);
                lemma_rows_grow(views, c + 1, views.len() as int);
                lemma_take_all(views);
                assert(views[c as int] == self.chunks@[c as int]@);
            }
            r = r + self.chunks[c].len();
        }
        proof {
            lemma_take_all(views);
        }
        r
    }

    /// Whether nothing is stored.
    pub fn is_empty(&self) -> (r: bool)
        requires
            self@.wf(),
        ensures
            r == (self@.len() == 0),
    {
        self.len() == 0
    }

    /// The row IDs of all stored vectors.
    pub fn row_ids(&self) -> (r: Vec<u64>)
        ensures
            r@ == self@.row_ids(),
    {
        let mut r: Vec<u64> = Vec::new();
        let ghost views = self@.chunks;
        for c in 0..self.chunks.len()
            invariant
                views == self@.chunks,
                r@ == stored_row_ids(views.take(c as int)),
        {
            proof {
                lemma_take_next(views, c as int);
                assert(views[c as int] == self.chunks@[c as int]@);
            }
            let mut next: Vec<u64> = slice_to_vec(self.chunks[c].batch.row_ids.as_slice());
            r.append(&mut next);
        }
        proof {
            lemma_take_all(views);
        }
        r
    }

    /// The chunk of a vector and its row in it.
    pub fn locate(&self, id: u32) -> (r: (usize, usize))
        requires
            id < self@.len(),
        ensures
            located(self@.chunks, id as int, r.0 as int, r.1 as int),
    {
        let mut remaining: usize = id as usize;
        let mut c: usize = 0;
        let n: usize = self.chunks.len();
        let ghost views = self@.chunks;
        proof {
            lemma_take_all(views);
        }
        loop
            invariant
                views == self@.chunks,
                n == views.len(),
                id < total_rows(views.take(views.len() as int)),
                c <= views.len(),
                total_rows(views.take(c as int)) + remaining == id,
            decreases views.len() - c,
        {
            assert(c < views.len());
            assert(views[c as int] == self.chunks@[c as int]@);
            proof {
                lemma_take_next(views, c as int);
            }
            let rows: usize = self.chunks[c].len();
            if remaining < rows {
                return (c, remaining);
            }
            remaining = remaining - rows;
            c = c + 1;
        }
    }

    /// The row ID of a stored vector.
    pub fn row_id(&self, id: u32) -> (r: u64)
        requires
            id < self@.len(),
        ensures
            r == self@.row_ids()[id as int],
    {
        let (c, i) = self.locate(id);
        proof {
            law_located_row_id(self@.chunks, id as int, c as int, i as int);
            assert(self@.chunks[c as int] == self.chunks@[c as int]@);
        }
        self.chunks[c].batch.row_ids[i]
    }

    /// The storage with a batch added behind the others.
    ///
    /// The vector column is of no use here: a batch of codes has none.
    pub fn append_batch(&self, batch: CodeBatch<C>, _vector_column: &str) -> (r: Result<
        TurboQuantizationStorage<C, R>,
        TurboError,
    >) where C: Clone, R: Clone
        requires
            self@.wf(),
            batch@.wf(),
            self@.len() + batch@.row_ids.len() <= u32::MAX,
        ensures
            r matches Ok(storage) && storage@ == self@.appended(batch@) && storage@.wf()
                && cloned_batches(self.chunks@, storage.chunks@) && storage.chunks@.last().batch
                == batch && cloned_index(self.frag_reuse_index, storage.frag_reuse_index),
    {
        let dim: usize = self.metadata.dimension;
        let num_bits: u32 = self.metadata.num_bits;
        let code_bytes: usize = packed_len(dim, num_bits);
        let mut chunks: Vec<TurboStorageChunk<C>> = copy_chunks(&self.chunks);
        let mut offsets: Vec<u32> = slice_to_vec(self.offsets.as_slice());
        let last: u32 = if self.offsets.len() == 0 {
            0
        } else {
            self.offsets[self.offsets.len() - 1]
        };
        proof {
            lemma_take_all(self@.chunks);
        }
        assert(last == self@.len());
        let offset: u32 = last + batch.num_rows() as u32;
        chunks.push(TurboStorageChunk { batch, dim, num_bits, code_bytes });
        offsets.push(offset);
        let storage = TurboQuantizationStorage {
            metadata: self.metadata.clone(),
            distance_type: self.distance_type,
            schema: copy_fields(&self.schema),
            chunks,
            offsets,
            frag_reuse_index: self.frag_reuse_index.clone(),
        };
        proof {
            assert(storage@.schema =~= self@.schema);
            assert(storage@.chunks =~= self@.appended(batch@).chunks);
            assert(storage@ =~= self@.appended(batch@));
            law_append_keeps_wf(self@, batch@);
        }
        Ok(storage)
    }
}

// --- Distances ---

/// The arithmetic on distances: the dot product of a rotated query with centroids, and the
/// distances that follow from it, the query's norm and the stored norm.
pub struct DistanceArithmetic<D, L, I, O> {
    /// The dot product.
    pub dot: D,
    /// From the query's norm, the stored norm and the dot product, the squared distance.
    pub l2: L,
    /// From the same numbers, the negated dot product of the unscaled vectors.
    pub inner: I,
    /// From the dot product of the scaled vectors, one minus the cosine.
    pub cosine: O,
}

impl<
    D: Fn(&[Float32], &[Float32]) -> Float32,
    L: Fn(Float32, Float32, Float32) -> Float32,
    I: Fn(Float32, Float32, Float32) -> Float32,
    O: Fn(Float32) -> Float32,
> DistanceArithmetic<D, L, I, O> {
    /// Whether the functions can be called wherever they are needed.
    pub open spec fn callable(self) -> bool {
        &&& dot_callable(self.dot)
        &&& forall|a: Float32, b: Float32, c: Float32| #[trigger] call_requires(self.l2, (a, b, c))
        &&& forall|a: Float32, b: Float32, c: Float32| #[trigger]
            call_requires(self.inner, (a, b, c))
        &&& forall|a: Float32| #[trigger] call_requires(self.cosine, (a,))
    }

    /// Whether `r` is a distance of the given type.
    pub open spec fn measured(
        self,
        distance_type: DistanceType,
        query_norm: Float32,
        norm: Float32,
        dot: Float32,
        r: Float32,
    ) -> bool {
        match distance_type {
            DistanceType::L2 => call_ensures(self.l2, (query_norm, norm, dot), r),
            DistanceType::Dot => call_ensures(self.inner, (query_norm, norm, dot), r),
            DistanceType::Cosine => call_ensures(self.cosine, (dot,), r),
            DistanceType::Hamming => false,
        }
    }
}

/// The smaller one of two lengths.
pub open spec fn shorter(a: nat, b: nat) -> nat {
    if a <= b {
        a
    } else {
        b
    }
}

/// The centroids that the first `n` codes stand for.
pub open spec fn restored_coordinates(
    codes: Seq<u8>,
    centroids: Seq<Float32>,
    n: nat,
) -> Seq<Float32> {
    Seq::new(n, |j: int| centroids[codes[j] as int])
}

/// The codes of row `i` of a chunk.
pub open spec fn row_codes(chunk: ChunkView, i: int) -> Seq<u8> {
    unpacked_codes(chunk.code(i), chunk.dim as nat, chunk.num_bits as int)
}

/// The packed length of a countable number of bits can be counted.
pub proof fn lemma_packed_size_fits(dim: int, b: int)
    requires
        0 <= dim,
        0 <= b,
        dim * b + 7 <= usize::MAX,
    ensures
        0 <= packed_size(dim, b) <= usize::MAX,
{
    lemma_mul_inequality(0, dim, b);
    lemma_mul_basics(b);
}

/// Distances from a query to stored vectors.
///
/// Rotation keeps dot products, so the query is rotated once and stored vectors are never
/// rotated back:
///
/// ```text
/// ⟨q, γ · Π^T · ŷ⟩ = γ · ⟨Π · q, ŷ⟩
/// ```
pub struct TurboDistCalculator<'a, C, R> {
    /// Rotated query, after it was divided by its norm.
    pub query_rotated: Vec<Float32>,
    /// Query norm.
    pub query_norm: Float32,
    /// Distance from the query to the partition's centroid.
    pub dist_q_c: Float32,
    /// Codebook centroids.
    pub centroids: Vec<Float32>,
    /// The storage with the codes.
    pub storage: &'a TurboQuantizationStorage<C, R>,
}

/// Whether a calculator is the one for the query: the query's norm, the query divided by it and
/// rotated, and the centroids of the storage's codebook.
pub open spec fn prepared<
    N: Fn(&[Float32]) -> Float32,
    V: Fn(Float32, Float32) -> Float32,
    D: Fn(&[Float32], &[Float32]) -> Float32,
    C,
    R,
>(
    ops: VectorArithmetic<N, V, D>,
    query: Seq<Float32>,
    metadata: MetadataView,
    codebook: CodebookView,
    calculator: TurboDistCalculator<C, R>,
) -> bool {
    &&& ops.norm_result(query, calculator.query_norm)
    &&& calculator.centroids@ == codebook.0
    &&& exists|normalized: Seq<Float32>| #[trigger]
        ops.normalized_query(query, calculator.query_norm, normalized) && rotated(
            ops.dot,
            normalized,
            metadata.rotate_mat->Some_0.values,
            metadata.dimension as int,
            calculator.query_rotated@,
        )
}

/// Whether a rotation matrix is there, with all its rows where there are enough coordinates for a
/// vector to rotate.
pub open spec fn rotates(metadata: MetadataView, coordinates: nat) -> bool {
    metadata.rotate_mat matches Some(m) && (coordinates >= metadata.dimension ==> m.values.len()
        >= metadata.dimension * metadata.dimension)
}

impl<C, R> TurboDistCalculator<'_, C, R> {
    /// Whether the calculator can read the storage's codes: every code has a centroid.
    pub open spec fn wf(&self) -> bool {
        &&& self.storage@.wf()
        &&& valid_parameters(self.storage@.metadata.dimension, self.storage@.metadata.num_bits)
        &&& self.centroids@.len() == pow2(self.storage@.metadata.num_bits as nat)
    }

    /// Whether `r` is the distance of row `i` of a chunk.
    pub open spec fn row_distance<
        D: Fn(&[Float32], &[Float32]) -> Float32,
        L: Fn(Float32, Float32, Float32) -> Float32,
        I: Fn(Float32, Float32, Float32) -> Float32,
        O: Fn(Float32) -> Float32,
    >(&self, ops: DistanceArithmetic<D, L, I, O>, chunk: ChunkView, i: int, r: Float32) -> bool {
        let n = shorter(self.query_rotated@.len(), chunk.dim as nat);
        exists|dot: Float32| #[trigger]
            dot_result(
                ops.dot,
                self.query_rotated@.take(n as int),
                restored_coordinates(row_codes(chunk, i), self.centroids@, n),
                dot,
            ) && ops.measured(
                self.storage@.distance_type,
                self.query_norm,
                chunk.batch.norms[i],
                dot,
                r,
            )
    }

    /// Whether `r` is the distance of the vector with the given ID: that of the row at its place.
    pub open spec fn distance_result<
        D: Fn(&[Float32], &[Float32]) -> Float32,
        L: Fn(Float32, Float32, Float32) -> Float32,
        I: Fn(Float32, Float32, Float32) -> Float32,
        O: Fn(Float32) -> Float32,
    >(&self, ops: DistanceArithmetic<D, L, I, O>, id: int, r: Float32) -> bool {
        exists|c: int, i: int| #[trigger]
            located(self.storage@.chunks, id, c, i) && self.row_distance(
                ops,
                self.storage@.chunks[c],
                i,
                r,
            )
    }

    /// The distance from the query to a stored vector.
    ///
    /// The codes are unpacked and replaced by their centroids, and the dot product with the
    /// rotated query gives the distance. Where the query is shorter than the vector, or longer,
    /// the rest does not count.
    pub fn distance<
        D: Fn(&[Float32], &[Float32]) -> Float32,
        L: Fn(Float32, Float32, Float32) -> Float32,
        I: Fn(Float32, Float32, Float32) -> Float32,
        O: Fn(Float32) -> Float32,
    >(&self, id: u32, ops: &DistanceArithmetic<D, L, I, O>) -> (r: Float32)
        requires
            self.wf(),
            id < self.storage@.len(),
            self.storage@.readable(id as int),
            self.storage@.distance_type != DistanceType::Hamming,
            ops.callable(),
        ensures
            self.distance_result(*ops, id as int, r),
    {
        let (c, i) = self.storage.locate(id);
        let chunk: &TurboStorageChunk<C> = &self.storage.chunks[c];
        let ghost view = self.storage@.chunks[c as int];
        proof {
            assert(view == chunk@);
            assert(view.batch.wf());
        }
        let packed: &[u8] = chunk.code_slice(i);
        let norm: Float32 = chunk.batch.norms[i];
        let ghost codes = row_codes(view, i as int);
        proof {
            lemma_packed_size_fits(view.dim as int, view.num_bits as int);
            law_packed_length_holds_codes(packed@, chunk.dim as int, chunk.num_bits as int);
        }
        let unpacked: Result<Vec<u8>, TurboError> = unpack_codes(packed, chunk.dim, chunk.num_bits);
        let mut restored: Vec<Float32> = Vec::new();
        let mut n: usize = 0;
        match unpacked {
            Ok(indices) => {
                n = self.query_rotated.len();
                if indices.len() < n {
                    n = indices.len();
                }
                for j in 0..n
                    invariant
                        indices@ == codes,
                        codes == unpacked_codes(packed@, chunk.dim as nat, chunk.num_bits as int),
                        n <= codes.len(),
                        1 <= chunk.num_bits <= 8,
                        self.centroids@.len() == pow2(chunk.num_bits as nat),
                        restored@.len() == j,
                        forall|k: int|
                            0 <= k < j ==> #[trigger] restored@[k] == self.centroids@[codes[k] as int],
                {
                    proof {
                        law_unpacked_codes_fit(
                            packed@,
                            chunk.dim as nat,
                            chunk.num_bits as int,
                            j as int,
                        );
                    }
                    restored.push(dequantize_scalar(indices[j], self.centroids.as_slice()));
                }
            },
            Err(_) => {},
        }
        let query: &[Float32] = slice_subrange(self.query_rotated.as_slice(), 0, n);
        assert(query@ =~= self.query_rotated@.take(n as int));
        assert(restored@ =~= restored_coordinates(codes, self.centroids@, n as nat));
        let dot: Float32 = (ops.dot)(query, restored.as_slice());
        proof {
            let m = shorter(self.query_rotated@.len(), view.dim as nat);
            assert(m == n);
            assert(dot_result(
                ops.dot,
                self.query_rotated@.take(m as int),
                restored_coordinates(row_codes(view, i as int), self.centroids@, m),
                dot,
            ));
        }
        let r: Float32 = match self.storage.distance_type {
            DistanceType::L2 => (ops.l2)(self.query_norm, norm, dot),
            DistanceType::Dot => (ops.inner)(self.query_norm, norm, dot),
            _ => (ops.cosine)(dot),
        };
        assert(self.row_distance(*ops, view, i as int, r));
        r
    }

    /// The distances from the query to all stored vectors, in the order of their IDs.
    ///
    /// All of them are computed, however many are wanted.
    pub fn distance_all<
        D: Fn(&[Float32], &[Float32]) -> Float32,
        L: Fn(Float32, Float32, Float32) -> Float32,
        I: Fn(Float32, Float32, Float32) -> Float32,
        O: Fn(Float32) -> Float32,
    >(&self, _k_hint: usize, ops: &DistanceArithmetic<D, L, I, O>) -> (r: Vec<Float32>)
        requires
            self.wf(),
            self.storage@.codes_fit(),
            self.storage@.len() > 0 ==> self.storage@.distance_type != DistanceType::Hamming,
            ops.callable(),
        ensures
            r@.len() == self.storage@.len(),
            forall|id: int|
                0 <= id < r@.len() ==> self.distance_result(*ops, id, #[trigger] r@[id]),
    {
        let n: usize = self.storage.len();
        let mut r: Vec<Float32> = Vec::new();
        for id in 0..n as u32
            invariant
                n == self.storage@.len() <= u32::MAX,
                self.wf(),
                self.storage@.codes_fit(),
                self.storage@.len() > 0 ==> self.storage@.distance_type != DistanceType::Hamming,
                ops.callable(),
                r@.len() == id,
                forall|j: int|
                    0 <= j < id ==> self.distance_result(*ops, j, #[trigger] r@[j]),
        {
            proof {
                law_codes_that_fit_are_readable(self.storage@, id as int);
            }
            let next: Float32 = self.distance(id, ops);
            r.push(next);
        }
        r
    }
}

impl<'a, C, R> TurboDistCalculator<'a, C, R> {
    /// Prepares distances from a query to the vectors of a storage.
    ///
    /// The query is divided by its norm, where that is more than tiny, and rotated.
    pub fn new<
        N: Fn(&[Float32]) -> Float32,
        V: Fn(Float32, Float32) -> Float32,
        D: Fn(&[Float32], &[Float32]) -> Float32,
        F: Fn(usize, u32) -> (Vec<Float32>, Vec<Float32>),
    >(
        query: &[Float32],
        storage: &'a TurboQuantizationStorage<C, R>,
        dist_q_c: Float32,
        cache: &mut CodebookCache,
        compute: &F,
        ops: &VectorArithmetic<N, V, D>,
    ) -> (r: TurboDistCalculator<'a, C, R>)
        requires
            rotates(storage@.metadata, query@.len()),
            valid_parameters(storage@.metadata.dimension, storage@.metadata.num_bits),
            old(cache).sized(),
            computes_sized(*compute, storage@.metadata.dimension, storage@.metadata.num_bits),
            ops.callable(),
        ensures
            final(cache).sized(),
            old(cache).wf() && computes_codebooks(
                *compute,
                storage@.metadata.dimension,
                storage@.metadata.num_bits,
            ) ==> final(cache).wf(),
            r.storage == storage,
            r.dist_q_c == dist_q_c,
            storage@.wf() ==> r.wf(),
            exists|codebook: CodebookView|
                {
                    &&& #[trigger] codebook_request(
                        *compute,
                        storage@.metadata.dimension,
                        storage@.metadata.num_bits,
                        old(cache)@,
                        final(cache)@,
                        Ok(codebook),
                    )
                    &&& prepared(*ops, query@, storage@.metadata, codebook, r)
                },
    {
        let dim: usize = storage.metadata.dimension;
        let num_bits: u32 = storage.metadata.num_bits;
        let query_norm: Float32 = ops.norm_of(query);
        let rotation: Vec<Float32> = match &storage.metadata.rotate_mat {
            Some(matrix) => rotation_as_flat_f32(matrix),
            None => Vec::new(),
        };
        let normalized: Vec<Float32> = ops.normalize_query(query, query_norm);
        let query_rotated: Vec<Float32> = rotate(
            normalized.as_slice(),
            rotation.as_slice(),
            dim,
            &ops.dot,
        );
        let requested: Result<(Vec<Float32>, Vec<Float32>), TurboError> = get_codebook(
            cache,
            dim,
            num_bits,
            compute,
        );
        let centroids: Vec<Float32> = match requested {
            Ok((centroids, _)) => centroids,
            Err(_) => Vec::new(),
        };
        let r = TurboDistCalculator { query_rotated, query_norm, dist_q_c, centroids, storage };
        proof {
            let codebook = request_view(requested)->Ok_0;
            assert(codebook_request(
                *compute,
                storage@.metadata.dimension,
                storage@.metadata.num_bits,
                old(cache)@,
                cache@,
                Ok(codebook),
            ));
            assert(ops.normalized_query(query@, query_norm, normalized@));
            assert(r.centroids@ == codebook.0);
            assert(rotated(
                ops.dot,
                normalized@,
                storage@.metadata.rotate_mat->Some_0.values,
                storage@.metadata.dimension as int,
                r.query_rotated@,
            ));
            assert(prepared(*ops, query@, storage@.metadata, codebook, r));
        }
        r
    }
}

impl<C, R> TurboQuantizationStorage<C, R> {
    /// Prepares distances from a query to the stored vectors.
    ///
    /// The query is divided by its norm, where that is more than tiny, and rotated.
    pub fn dist_calculator<
        N: Fn(&[Float32]) -> Float32,
        V: Fn(Float32, Float32) -> Float32,
        D: Fn(&[Float32], &[Float32]) -> Float32,
        F: Fn(usize, u32) -> (Vec<Float32>, Vec<Float32>),
    >(
        &self,
        query: &[Float32],
        dist_q_c: Float32,
        cache: &mut CodebookCache,
        compute: &F,
        ops: &VectorArithmetic<N, V, D>,
    ) -> (r: TurboDistCalculator<'_, C, R>)
        requires
            rotates(self@.metadata, query@.len()),
            valid_parameters(self@.metadata.dimension, self@.metadata.num_bits),
            old(cache).sized(),
            computes_sized(*compute, self@.metadata.dimension, self@.metadata.num_bits),
            ops.callable(),
        ensures
            final(cache).sized(),
            old(cache).wf() && computes_codebooks(
                *compute,
                self@.metadata.dimension,
                self@.metadata.num_bits,
            ) ==> final(cache).wf(),
            r.storage == self,
            r.dist_q_c == dist_q_c,
            self@.wf() ==> r.wf(),
            exists|codebook: CodebookView|
                {
                    &&& #[trigger] codebook_request(
                        *compute,
                        self@.metadata.dimension,
                        self@.metadata.num_bits,
                        old(cache)@,
                        final(cache)@,
                        Ok(codebook),
                    )
                    &&& prepared(*ops, query@, self@.metadata, codebook, r)
                },
    {
        TurboDistCalculator::new(query, self, dist_q_c, cache, compute, ops)
    }
}

/// Appending leaves the distances of the vectors that were there as they are.
pub proof fn law_append_keeps_distances<
    D: Fn(&[Float32], &[Float32]) -> Float32,
    L: Fn(Float32, Float32, Float32) -> Float32,
    I: Fn(Float32, Float32, Float32) -> Float32,
    O: Fn(Float32) -> Float32,
    C,
    R,
>(
    ops: DistanceArithmetic<D, L, I, O>,
    before: TurboDistCalculator<C, R>,
    after: TurboDistCalculator<C, R>,
    batch: CodeBatchView,
    id: int,
    r: Float32,
)
    requires
        after.storage@ == before.storage@.appended(batch),
        after.query_rotated@ == before.query_rotated@,
        after.query_norm == before.query_norm,
        after.centroids@ == before.centroids@,
        0 <= id < before.storage@.len(),
    ensures
        before.distance_result(ops, id, r) <==> after.distance_result(ops, id, r),
{
    let chunks = before.storage@.chunks;
    law_ids_have_one_place(chunks, id);
    let (c, i) = choose|c: int, i: int| located(chunks, id, c, i);
    law_append_keeps_places(before.storage@, batch, id, c, i);
    law_append_adds_rows_at_the_end(before.storage@, batch);
    law_ids_have_one_place(after.storage@.chunks, id);
    assert(before.row_distance(ops, chunks[c], i, r) == after.row_distance(
        ops,
        after.storage@.chunks[c],
        i,
        r,
    ));
    if before.distance_result(ops, id, r) {
        assert(located(after.storage@.chunks, id, c, i));
    }
    if after.distance_result(ops, id, r) {
        assert(located(chunks, id, c, i));
    }
}

/// Appending gives the new vectors their own distances: the distance of the vector with ID
/// `len + i` is that of the vector with ID `i` in a storage of the new batch alone.
pub proof fn law_append_gives_new_vectors_their_own_distances<
    D: Fn(&[Float32], &[Float32]) -> Float32,
    L: Fn(Float32, Float32, Float32) -> Float32,
    I: Fn(Float32, Float32, Float32) -> Float32,
    O: Fn(Float32) -> Float32,
    C,
    R,
>(
    ops: DistanceArithmetic<D, L, I, O>,
    before: StorageView,
    batch: CodeBatchView,
    after: TurboDistCalculator<C, R>,
    alone: TurboDistCalculator<C, R>,
    i: int,
    r: Float32,
)
    requires
        after.storage@ == before.appended(batch),
        alone.storage@ == storage_of(batch, before.metadata, before.distance_type),
        after.query_rotated@ == alone.query_rotated@,
        after.query_norm == alone.query_norm,
        after.centroids@ == alone.centroids@,
        0 <= i < batch.row_ids.len(),
    ensures
        after.distance_result(ops, before.len() + i, r) <==> alone.distance_result(ops, i, r),
{
    let chunks = after.storage@.chunks;
    let c = before.chunks.len() as int;
    law_append_keeps_places(before, batch, before.len() + i, c, i);
    law_append_adds_rows_at_the_end(before, batch);
    law_ids_have_one_place(chunks, before.len() + i);
    lemma_place_in_one_batch(batch, before.metadata, before.distance_type, i);
    law_ids_have_one_place(alone.storage@.chunks, i);
    assert(after.row_distance(ops, chunks[c], i, r) == alone.row_distance(
        ops,
        alone.storage@.chunks[0],
        i,
        r,
    ));
    assert(located(chunks, before.len() + i, c, i));
    assert(located(alone.storage@.chunks, i, 0, i));
}

/// In a storage of one batch, IDs are rows.
pub proof fn lemma_place_in_one_batch(
    batch: CodeBatchView,
    metadata: MetadataView,
    distance_type: DistanceType,
    i: int,
)
    requires
        0 <= i < batch.row_ids.len(),
    ensures
        located(storage_of(batch, metadata, distance_type).chunks, i, 0, i),
        total_rows(storage_of(batch, metadata, distance_type).chunks) == batch.row_ids.len(),
{
    let chunks = storage_of(batch, metadata, distance_type).chunks;
    assert(chunks.take(0) =~= Seq::<ChunkView>::empty());
    assert(chunks.drop_last() =~= Seq::<ChunkView>::empty());
    assert(total_rows(Seq::<ChunkView>::empty()) == 0);
}

/// The distance of vector `i` of a batch comes from norm `i` and code `i` of the batch: the dot
/// product is that of the query with the centroids that this code names, as many as both have, and
/// the distance follows from it, the query's norm and this norm by the storage's distance type.
pub proof fn law_distance_reads_its_own_row<
    D: Fn(&[Float32], &[Float32]) -> Float32,
    L: Fn(Float32, Float32, Float32) -> Float32,
    I: Fn(Float32, Float32, Float32) -> Float32,
    O: Fn(Float32) -> Float32,
    C,
    R,
>(
    ops: DistanceArithmetic<D, L, I, O>,
    batch: CodeBatchView,
    metadata: MetadataView,
    distance_type: DistanceType,
    calculator: TurboDistCalculator<C, R>,
    i: int,
    r: Float32,
    size: int,
    code: Seq<u8>,
) -> (parts: (Seq<Float32>, Seq<Float32>, Float32))
    requires
        countable(metadata),
        calculator.storage@ == storage_of(batch, metadata, distance_type),
        0 <= i < batch.row_ids.len(),
        calculator.distance_result(ops, i, r),
        size == (metadata.dimension * metadata.num_bits + 7) / 8,
        code == unpacked_codes(
            batch.codes.subrange(i * size, i * size + size),
            metadata.dimension as nat,
            metadata.num_bits as int,
        ),
    ensures
        exists|a: &[Float32], b: &[Float32]|
            a@ == parts.0 && b@ == parts.1 && #[trigger] call_ensures(ops.dot, (a, b), parts.2),
        parts.0.len() == parts.1.len(),
        parts.0.len() <= metadata.dimension,
        parts.0.len() <= calculator.query_rotated@.len(),
        parts.0.len() == metadata.dimension || parts.0.len() == calculator.query_rotated@.len(),
        forall|j: int|
            0 <= j < parts.0.len() ==> #[trigger] parts.0[j] == calculator.query_rotated@[j],
        forall|j: int|
            0 <= j < parts.1.len() ==> #[trigger] parts.1[j] == calculator.centroids@[code[j] as int],
        distance_type is L2 ==> call_ensures(
            ops.l2,
            (calculator.query_norm, batch.norms[i], parts.2),
            r,
        ),
        distance_type is Dot ==> call_ensures(
            ops.inner,
            (calculator.query_norm, batch.norms[i], parts.2),
            r,
        ),
        distance_type is Cosine ==> call_ensures(ops.cosine, (parts.2,), r),
        distance_type !is Hamming,
{
    let chunks = calculator.storage@.chunks;
    lemma_place_in_one_batch(batch, metadata, distance_type, i);
    law_ids_have_one_place(chunks, i);
    lemma_packed_size_fits(metadata.dimension as int, metadata.num_bits as int);
    let chunk = chunks[0];
    assert(calculator.row_distance(ops, chunk, i, r));
    let n = shorter(calculator.query_rotated@.len(), chunk.dim as nat);
    let query = calculator.query_rotated@.take(n as int);
    assert(row_codes(chunk, i) == code);
    let restored = restored_coordinates(code, calculator.centroids@, n);
    let dot = choose|dot: Float32| #[trigger]
        dot_result(ops.dot, query, restored, dot) && ops.measured(
            distance_type,
            calculator.query_norm,
            batch.norms[i],
            dot,
            r,
        );
    let (a, b) = choose|a: &[Float32], b: &[Float32]|
        a@ == query && b@ == restored && #[trigger] call_ensures(ops.dot, (a, b), dot);
    let parts = (query, restored, dot);
    assert(call_ensures(ops.dot, (a, b), parts.2));
    parts
}

/// A calculator's query is the one that it was made for: its norm is a norm of the whole query, its
/// direction has the quotients of the coordinates by that norm, where it is more than tiny, and the
/// rotated query has the dot products of the rows of the rotation matrix with that direction, or with
/// each part of it where the query holds more than one vector.
pub proof fn law_prepared_query<
    N: Fn(&[Float32]) -> Float32,
    V: Fn(Float32, Float32) -> Float32,
    D: Fn(&[Float32], &[Float32]) -> Float32,
    C,
    R,
>(
    ops: VectorArithmetic<N, V, D>,
    query: Seq<Float32>,
    metadata: MetadataView,
    codebook: CodebookView,
    calculator: TurboDistCalculator<C, R>,
    dim: int,
    rotation: Seq<Float32>,
    i: int,
) -> (parts: (Seq<Float32>, Seq<(&'static [Float32], &'static [Float32])>))
    requires
        prepared(ops, query, metadata, codebook, calculator),
        dim == metadata.dimension,
        dim > 0,
        metadata.rotate_mat matches Some(m) && rotation == m.values,
        0 <= i < query.len() as int / dim,
    ensures
        calculator.centroids@ == codebook.0,
        exists|v: &[Float32]|
            v@ == query && #[trigger] call_ensures(ops.norm, (v,), calculator.query_norm),
        parts.0.len() == query.len(),
        !tiny_norm().below(calculator.query_norm) ==> parts.0 == query,
        tiny_norm().below(calculator.query_norm) ==> forall|k: int|
            0 <= k < query.len() ==> call_ensures(
                ops.divide,
                (query[k], calculator.query_norm),
                #[trigger] parts.0[k],
            ),
        calculator.query_rotated@.len() == (query.len() as int / dim) * dim,
        forall|j: int|
            0 <= j < dim ==> {
                &&& (#[trigger] parts.1[j]).0@ == rotation.subrange(j * dim, j * dim + dim)
                &&& parts.1[j].1@ == parts.0.subrange(i * dim, i * dim + dim)
                &&& call_ensures(ops.dot, parts.1[j], calculator.query_rotated@[i * dim + j])
            },
{
    let direction = choose|normalized: Seq<Float32>| #[trigger]
        ops.normalized_query(query, calculator.query_norm, normalized) && rotated(
            ops.dot,
            normalized,
            metadata.rotate_mat->Some_0.values,
            metadata.dimension as int,
            calculator.query_rotated@,
        );
    let y = calculator.query_rotated@;
    let x = direction.subrange(i * dim, i * dim + dim);
    let factors = Seq::new(
        dim as nat,
        |j: int|
            choose|f: (&'static [Float32], &'static [Float32])|
                f.0@ == rotation.subrange(j * dim, j * dim + dim) && f.1@ == x
                    && #[trigger] call_ensures(ops.dot, f, y[i * dim + j]),
    );
    assert forall|j: int| 0 <= j < dim implies {
        &&& (#[trigger] factors[j]).0@ == rotation.subrange(j * dim, j * dim + dim)
        &&& factors[j].1@ == x
        &&& call_ensures(ops.dot, factors[j], y[i * dim + j])
    } by {
        assert(rotated_entry(ops.dot, direction, rotation, dim, y, i, j));
        let (a, b) = choose|a: &'static [Float32], b: &'static [Float32]|
            a@ == row(rotation, dim, j) && b@ == row(direction, dim, i) && #[trigger] call_ensures(
                ops.dot,
                (a, b),
                y[i * dim + j],
            );
        let f = (a, b);
        assert(call_ensures(ops.dot, f, y[i * dim + j]));
    }
    (direction, factors)
}

/// A storage holds its batches as they came: one of a single batch that batch, with the metadata and
/// the distance type that it was given, and appending adds the batch behind the others, to be read by
/// the same metadata, and changes nothing else.
pub proof fn law_storage_holds_its_batches(
    batch: CodeBatchView,
    metadata: MetadataView,
    distance_type: DistanceType,
    before: StorageView,
    c: int,
)
    requires
        countable(metadata),
        countable(before.metadata),
    ensures
        ({
            let storage = storage_of(batch, metadata, distance_type);
            &&& storage.metadata == metadata
            &&& storage.distance_type == distance_type
            &&& storage.chunks.len() == 1
            &&& storage.chunks[0].batch == batch
            &&& storage.chunks[0].dim == metadata.dimension
            &&& storage.chunks[0].num_bits == metadata.num_bits
            &&& storage.chunks[0].code_bytes == (metadata.dimension * metadata.num_bits + 7) / 8
        }),
        ({
            let after = before.appended(batch);
            &&& after.metadata == before.metadata
            &&& after.distance_type == before.distance_type
            &&& after.schema == before.schema
            &&& after.chunks.len() == before.chunks.len() + 1
            &&& 0 <= c < before.chunks.len() ==> after.chunks[c] == before.chunks[c]
            &&& after.chunks.last().batch == batch
            &&& after.chunks.last().dim == before.metadata.dimension
            &&& after.chunks.last().num_bits == before.metadata.num_bits
            &&& after.chunks.last().code_bytes == (before.metadata.dimension
                * before.metadata.num_bits + 7) / 8
        }),
{
    lemma_packed_size_fits(metadata.dimension as int, metadata.num_bits as int);
    lemma_packed_size_fits(before.metadata.dimension as int, before.metadata.num_bits as int);
}

/// The stored row IDs, numbers of rows and places of a storage that grew batch by batch: the vector
/// with ID `len + i` has row ID `i` of the batch that was appended, and those before keep theirs.
pub proof fn law_appended_vectors_keep_their_row_ids(
    before: StorageView,
    batch: CodeBatchView,
    id: int,
)
    requires
        0 <= id < before.len() + batch.row_ids.len(),
    ensures
        before.appended(batch).row_ids()[id] == if id < before.len() {
            before.row_ids()[id]
        } else {
            batch.row_ids[id - before.len()]
        },
{
    law_append_adds_rows_at_the_end(before, batch);
    lemma_row_ids_count(before.chunks);
}

/// The columns of a stored batch: row IDs, which are never null, then the codes, in lists of as many
/// bytes as hold the bits of a code, and then the norms.
pub proof fn law_stored_columns(metadata: MetadataView)
    requires
        0 <= metadata.dimension * metadata.num_bits + 7 <= 8 * i32::MAX,
    ensures
        storage_schema(metadata).len() == 3,
        storage_schema(metadata)[0].name == "_rowid"@,
        storage_schema(metadata)[0].field_type is UInt64,
        !storage_schema(metadata)[0].nullable,
        storage_schema(metadata)[1].name == "__turbo_code"@,
        storage_schema(metadata)[1].field_type matches FieldType::UInt8List { size } && metadata.dimension
            * metadata.num_bits <= 8 * size < metadata.dimension * metadata.num_bits + 8,
        storage_schema(metadata)[2].name == "__turbo_norm"@,
        storage_schema(metadata)[2].field_type is Float32,
        storage_schema(metadata)[1] == code_field(metadata.dimension, metadata.num_bits),
        storage_schema(metadata)[2] == norm_field(),
{
}

/// A matrix is written as a tensor of rank two and of single precision, with the numbers of its rows
/// and of the values in each as the shape, and its values one after the other, each as the four bytes
/// of its bit pattern, the lowest first.
pub proof fn law_tensor_of_a_matrix(matrix: MatrixView, i: int)
    requires
        matrix.num_rows <= u32::MAX,
        matrix.row_len <= u32::MAX,
        0 <= i < matrix.values.len(),
    ensures
        matrix_tensor(matrix).data_type == 2,
        matrix_tensor(matrix).shape.len() == 2,
        matrix_tensor(matrix).shape[0] == matrix.num_rows,
        matrix_tensor(matrix).shape[1] == matrix.row_len,
        matrix_tensor(matrix).data.len() == 4 * matrix.values.len(),
        ({
            let data = matrix_tensor(matrix).data;
            matrix.values[i].bits == data[4 * i] + 0x100 * data[4 * i + 1] + 0x1_0000 * data[4 * i
                + 2] + 0x100_0000 * data[4 * i + 3]
        }),
{
    let data = matrix_tensor(matrix).data;
    let bits = matrix.values[i].bits;
    assert((4 * i + 1) / 4 == i && (4 * i + 2) / 4 == i && (4 * i + 3) / 4 == i);
    assert(data[4 * i] == le_byte(bits, 0));
    assert(data[4 * i + 1] == le_byte(bits, 1));
    assert(data[4 * i + 2] == le_byte(bits, 2));
    assert(data[4 * i + 3] == le_byte(bits, 3));
    lemma_bytes_of_bits(bits);
}

/// The four bytes of a bit pattern make it up.
proof fn lemma_bytes_of_bits(bits: u32)
    ensures
        bits == le_byte(bits, 0) + 0x100 * le_byte(bits, 1) + 0x1_0000 * le_byte(bits, 2)
            + 0x100_0000 * le_byte(bits, 3),
{
    assert(bits / 65536 == (bits / 256) / 256);
    assert(bits / 16777216 == (bits / 65536) / 256);
}

/// A tensor is read as a matrix exactly if it is of rank two and of single precision and has the four
/// bytes of each of its values; the shape gives the matrix's, and the bytes its values, the lowest
/// byte of each bit pattern first. Otherwise the first of these that fails is reported.
pub proof fn law_matrix_of_a_tensor(tensor: TensorView, i: int)
    requires
        tensor.shape.len() <= usize::MAX,
        tensor.data.len() <= usize::MAX,
    ensures
        tensor_matrix(tensor) is Ok <==> tensor.shape.len() == 2 && tensor.data_type == 2
            && tensor.data.len() == 4 * (tensor.shape[0] * tensor.shape[1]),
        tensor.shape.len() != 2 ==> tensor_matrix(tensor) == Err::<MatrixView, TurboError>(
            TurboError::TensorRank { rank: tensor.shape.len() as usize },
        ),
        tensor.shape.len() == 2 && tensor.data_type != 2 ==> tensor_matrix(tensor) == Err::<
            MatrixView,
            TurboError,
        >(TurboError::TensorType { code: tensor.data_type }),
        tensor_matrix(tensor) matches Err(TurboError::TensorData { num_rows, row_len, num_bytes })
            ==> num_rows == tensor.shape[0] && row_len == tensor.shape[1] && num_bytes
            == tensor.data.len(),
        tensor_matrix(tensor) matches Ok(matrix) ==> {
            &&& matrix.num_rows == tensor.shape[0]
            &&& matrix.row_len == tensor.shape[1]
            &&& matrix.values.len() == tensor.shape[0] * tensor.shape[1]
            &&& 0 <= i < matrix.values.len() ==> matrix.values[i].bits == tensor.data[4 * i] + 0x100
                * tensor.data[4 * i + 1] + 0x1_0000 * tensor.data[4 * i + 2] + 0x100_0000
                * tensor.data[4 * i + 3]
        },
{
    if tensor_matrix(tensor) is Ok {
        assert(0 <= tensor.shape[0] * tensor.shape[1]) by (nonlinear_arith)
            requires
                0 <= tensor.shape[0],
                0 <= tensor.shape[1],
        ;
    }
}

/// Reading a buffer changes nothing but the rotation matrix, and not even that where the buffer is
/// empty or an error is given back; what is decoded is the whole buffer, and what `decode` reports is
/// passed on.
pub proof fn law_parsing_changes_only_the_matrix<D: Fn(&[u8]) -> Result<Tensor, String>>(
    decode: D,
    bytes: Seq<u8>,
    before: MetadataView,
    after: MetadataView,
    r: Result<(), TurboError>,
) -> (decoded: Result<Tensor, String>)
    requires
        buffer_parsed(decode, bytes, before, after, r),
    ensures
        after.rotate_mat_position == before.rotate_mat_position,
        after.num_bits == before.num_bits,
        after.dimension == before.dimension,
        after.seed == before.seed,
        after.packed == before.packed,
        bytes.len() == 0 ==> r is Ok && after == before,
        r is Err ==> after == before,
        bytes.len() > 0 ==> exists|b: &[u8]|
            b@ == bytes && #[trigger] call_ensures(decode, (b,), decoded),
        bytes.len() > 0 && r is Ok ==> decoded is Ok && after.rotate_mat == Some(
            tensor_matrix(decoded->Ok_0@)->Ok_0,
        ) && tensor_matrix(decoded->Ok_0@) is Ok,
        bytes.len() > 0 && decoded is Err ==> r == Err::<(), TurboError>(
            TurboError::Codec { message: decoded->Err_0 },
        ),
{
    if bytes.len() == 0 {
        Err(arbitrary())
    } else {
        choose|decoded: Result<Tensor, String>| #[trigger]
            decode_result(decode, bytes, decoded) && match decoded {
                Err(message) => r == Err::<(), TurboError>(TurboError::Codec { message }) && after
                    == before,
                Ok(tensor) => match tensor_matrix(tensor@) {
                    Err(e) => r == Err::<(), TurboError>(e) && after == before,
                    Ok(matrix) => r is Ok && after == (MetadataView {
                        rotate_mat: Some(matrix),
                        ..before
                    }),
                },
            }
    }
}

/// An entry is found by its key: the first one that has it, wherever one does.
pub proof fn law_entries_are_found_by_key(
    entries: Seq<(String, String)>,
    key: Seq<char>,
    i: int,
)
    requires
        0 <= i <= entries.len(),
        forall|j: int| 0 <= j < i ==> (#[trigger] entries[j]).0@ != key,
        i < entries.len() ==> entries[i].0@ == key,
    ensures
        entry_position(entries, key) == i,
{
    lemma_entry_position(entries, key, i);
}

/// Writing the rotation matrix gives nothing where there is none. Where there is one, its tensor is
/// encoded, and what `encode` gives for it or reports is passed on.
pub proof fn law_written_matrix<E: Fn(&Tensor) -> Result<Vec<u8>, String>>(
    encode: E,
    metadata: MetadataView,
    r: Result<Option<Vec<u8>>, TurboError>,
) -> (parts: (Tensor, Result<Vec<u8>, String>))
    requires
        buffer_written(encode, metadata, r),
    ensures
        metadata.rotate_mat is None ==> r == Ok::<Option<Vec<u8>>, TurboError>(None),
        metadata.rotate_mat matches Some(matrix) ==> {
            &&& parts.0@ == matrix_tensor(matrix)
            &&& call_ensures(encode, (&parts.0,), parts.1)
            &&& parts.1 is Ok ==> r == Ok::<Option<Vec<u8>>, TurboError>(Some(parts.1->Ok_0))
            &&& parts.1 is Err ==> r == Err::<Option<Vec<u8>>, TurboError>(
                TurboError::Codec { message: parts.1->Err_0 },
            )
        },
{
    if let Some(matrix) = metadata.rotate_mat {
        let encoded = choose|encoded: Result<Vec<u8>, String>| #[trigger]
            encode_result(encode, matrix_tensor(matrix), encoded) && match encoded {
                Err(message) => r == Err::<Option<Vec<u8>>, TurboError>(
                    TurboError::Codec { message },
                ),
                Ok(bytes) => r == Ok::<Option<Vec<u8>>, TurboError>(Some(bytes)),
            };
        let t = choose|t: Tensor|
            t@ == matrix_tensor(matrix) && #[trigger] call_ensures(encode, (&t,), encoded);
        (t, encoded)
    } else {
        arbitrary()
    }
}

/// What is parsed of an entry is its whole text.
pub proof fn law_whole_entry_is_parsed<P: Fn(&str) -> Result<TurboQuantizationMetadata, String>>(
    parse: P,
    text: Seq<char>,
    r: Result<TurboQuantizationMetadata, String>,
)
    requires
        parse_result(parse, text, r),
    ensures
        exists|s: &str| s@ == text && #[trigger] call_ensures(parse, (s,), r),
{
}

/// A copy of a batch holds the same rows in the same columns: its row IDs, codes and norms are those
/// of the batch, and each column is of the same kind, with a clone of what the caller keeps of it.
pub proof fn law_copied_batch_holds_the_same<C: Clone>(
    batch: CodeBatch<C>,
    copy: CodeBatch<C>,
    i: int,
)
    requires
        cloned_batch(batch, copy),
    ensures
        copy.row_ids@ == batch.row_ids@,
        copy.code_len == batch.code_len,
        copy.codes@ == batch.codes@,
        copy.norms@ == batch.norms@,
        copy.columns@.len() == batch.columns@.len(),
        0 <= i < batch.columns@.len() ==> match batch.columns@[i] {
            StoredColumn::RowIds { data } => copy.columns@[i] matches StoredColumn::RowIds {
                data: kept,
            } && cloned::<C>(data, kept),
            StoredColumn::Codes { data } => copy.columns@[i] matches StoredColumn::Codes {
                data: kept,
            } && cloned::<C>(data, kept),
            StoredColumn::Norms { data } => copy.columns@[i] matches StoredColumn::Norms {
                data: kept,
            } && cloned::<C>(data, kept),
            StoredColumn::Other { name, data } => copy.columns@[i] matches StoredColumn::Other {
                name: same,
                data: kept,
            } && same@ == name@ && cloned::<C>(data, kept),
        },
{
    assert(copy@.columns.len() == batch@.columns.len());
    if 0 <= i < batch.columns@.len() {
        assert(batch@.columns[i] == batch.columns@[i]@);
        assert(copy@.columns[i] == copy.columns@[i]@);
        assert(cloned::<C>(batch.columns@[i].kept(), copy.columns@[i].kept()));
    }
}

/// What a storage holds of a chunk's batch is what the batch's columns hold.
pub proof fn law_storage_shows_its_batches<C, R>(
    storage: TurboQuantizationStorage<C, R>,
    c: int,
)
    requires
        0 <= c < storage.chunks@.len(),
    ensures
        storage@.chunks.len() == storage.chunks@.len(),
        storage@.chunks[c].batch.row_ids == storage.chunks@[c].batch.row_ids@,
        storage@.chunks[c].batch.codes == storage.chunks@[c].batch.codes@,
        storage@.chunks[c].batch.norms == storage.chunks@[c].batch.norms@,
        storage@.chunks[c].dim == storage.chunks@[c].dim,
        storage@.chunks[c].num_bits == storage.chunks@[c].num_bits,
        storage@.chunks[c].code_bytes == storage.chunks@[c].code_bytes,
        storage@.metadata == storage.metadata@,
        storage@.distance_type == storage.distance_type,
{
}

} // verus!
