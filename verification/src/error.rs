//! The errors of the library and their messages.
use vstd::prelude::*;

verus! {

/// The element type of a column of vectors.
#[derive(Debug)]
pub enum ValueType {
    Float16,
    Float32,
    Float64,
    /// Any other type, by name.
    Other { name: String },
}

impl ValueType {
    /// The name of the type.
    pub open spec fn name_spec(self) -> Seq<char> {
        match self {
            ValueType::Float16 => "Float16"@,
            ValueType::Float32 => "Float32"@,
            ValueType::Float64 => "Float64"@,
            ValueType::Other { name } => name@,
        }
    }

    /// The name of the type.
    pub fn name(&self) -> (r: String)
        ensures
            r@ == self.name_spec(),
    {
        match self {
            ValueType::Float16 => String::from_str("Float16"),
            ValueType::Float32 => String::from_str("Float32"),
            ValueType::Float64 => String::from_str("Float64"),
            ValueType::Other { name } => name.clone(),
        }
    }

    /// An equal type.
    pub fn copied(&self) -> (r: ValueType)
        ensures
            r == *self,
    {
        match self {
            ValueType::Float16 => ValueType::Float16,
            ValueType::Float32 => ValueType::Float32,
            ValueType::Float64 => ValueType::Float64,
            ValueType::Other { name } => ValueType::Other { name: name.clone() },
        }
    }
}

/// What went wrong.
#[derive(Debug)]
pub enum TurboError {
    /// A packing width outside of one to eight bits.
    PackedBits { num_bits: u32 },
    /// A dimension below three.
    Dimension { dim: usize },
    /// A quantizer width outside of one to eight bits.
    NumBits { num_bits: u32 },
    /// Vectors of another floating-point type, which have to be cast first.
    CastFirst { value_type: ValueType },
    /// Vectors of a type that is not floating point.
    UnsupportedType { value_type: ValueType },
    /// Another quantizer where a TurboQuantizer is needed.
    NotTurbo,
    /// A schema without the quantizer's metadata.
    MetadataNotFound,
    /// A batch without the vector column.
    ColumnNotFound { column: String },
    /// A vector column that is not a fixed-size list.
    NotFixedSizeList { column: String, data_type: String },
    /// A vector column with elements that are not of single precision.
    ResidualsNotFloat32,
    /// A column that the batch already has.
    ColumnExists { column: String },
    /// A stored matrix that does not have two dimensions.
    TensorRank { rank: usize },
    /// A stored matrix with elements that are not of single precision.
    TensorType { code: i32 },
    /// A stored matrix whose data does not match its shape.
    TensorData { num_rows: u32, row_len: u32, num_bytes: usize },
    /// What an encoder or a decoder reported.
    Codec { message: String },
}

/// The two kinds of errors.
#[derive(Debug, Clone, Copy, PartialEq, Eq, Structural)]
pub enum ErrorKind {
    /// The caller passed something that cannot be used.
    InvalidInput,
    /// The index or a batch for it is not as it has to be.
    Index,
}

/// The decimal digit of a number below ten.
pub open spec fn digit_char(d: nat) -> char {
    (48 + d) as char
}

/// The decimal digits of a number, without leading zeros.
pub open spec fn decimal(n: nat) -> Seq<char>
    decreases n,
{
    if n < 10 {
        seq![digit_char(n)]
    } else {
        decimal(n / 10).push(digit_char(n % 10))
    }
}

/// The decimal digit of a number below ten, as a string.
fn digit_str(d: u64) -> (r: &'static str)
    requires
        d < 10,
    ensures
        r@ == seq![digit_char(d as nat)],
{
    proof {
        reveal_strlit("0");
        reveal_strlit("1");
        reveal_strlit("2");
        reveal_strlit("3");
        reveal_strlit("4");
        reveal_strlit("5");
        reveal_strlit("6");
        reveal_strlit("7");
        reveal_strlit("8");
        reveal_strlit("9");
    }
    let r: &'static str = match d {
        0 => "0",
        1 => "1",
        2 => "2",
        3 => "3",
        4 => "4",
        5 => "5",
        6 => "6",
        7 => "7",
        8 => "8",
        _ => "9",
    };
    assert(r@ =~= seq![digit_char(d as nat)]);
    r
}

/// The decimal digits of a number.
fn decimal_string(n: u64) -> (r: String)
    ensures
        r@ == decimal(n as nat),
    decreases n,
{
    if n < 10 {
        String::from_str(digit_str(n))
    } else {
        let mut r = decimal_string(n / 10);
        r.append(digit_str(n % 10));
        assert(r@ =~= decimal(n as nat));
        r
    }
}

/// A text followed by a number.
fn with_number(text: &str, n: u64) -> (r: String)
    ensures
        r@ == text@ + decimal(n as nat),
{
    let mut r = String::from_str(text);
    r.append(decimal_string(n).as_str());
    r
}

impl TurboError {
    /// Which kind of error this is.
    pub open spec fn kind_spec(self) -> ErrorKind {
        match self {
            TurboError::PackedBits { .. } => ErrorKind::InvalidInput,
            TurboError::Dimension { .. } => ErrorKind::InvalidInput,
            TurboError::NumBits { .. } => ErrorKind::InvalidInput,
            TurboError::CastFirst { .. } => ErrorKind::InvalidInput,
            TurboError::UnsupportedType { .. } => ErrorKind::InvalidInput,
            TurboError::NotTurbo => ErrorKind::InvalidInput,
            _ => ErrorKind::Index,
        }
    }

    /// Which kind of error this is.
    pub fn kind(&self) -> (r: ErrorKind)
        ensures
            r == self.kind_spec(),
    {
        match self {
            TurboError::PackedBits { .. } => ErrorKind::InvalidInput,
            TurboError::Dimension { .. } => ErrorKind::InvalidInput,
            TurboError::NumBits { .. } => ErrorKind::InvalidInput,
            TurboError::CastFirst { .. } => ErrorKind::InvalidInput,
            TurboError::UnsupportedType { .. } => ErrorKind::InvalidInput,
            TurboError::NotTurbo => ErrorKind::InvalidInput,
            _ => ErrorKind::Index,
        }
    }

    /// The text of the error.
    pub open spec fn message_spec(self) -> Seq<char> {
        match self {
            TurboError::PackedBits { num_bits } => "num_bits must be 1-8, got "@ + decimal(
                num_bits as nat,
            ),
            TurboError::Dimension { dim } => "TurboQuant requires dimension >= 3, got "@ + decimal(
                dim as nat,
            ),
            TurboError::NumBits { num_bits } => "TurboQuant num_bits must be 1-8, got "@ + decimal(
                num_bits as nat,
            ),
            TurboError::CastFirst { value_type } => "TurboQuant currently only supports Float32, got "@
                + value_type.name_spec() + ". Cast to Float32 first."@,
            TurboError::UnsupportedType { value_type } => "Unsupported data type for TurboQuant: "@
                + value_type.name_spec(),
            TurboError::NotTurbo => "Cannot convert non-TurboQuantizer to TurboQuantizer"@,
            TurboError::MetadataNotFound => "TurboQuant metadata not found in schema"@,
            TurboError::ColumnNotFound { column } => "TQ Transform: column "@ + column@
                + " not found in batch"@,
            TurboError::NotFixedSizeList { column, data_type } => "TQ Transform: column "@ + column@
                + " is not a fixed size list, got "@ + data_type@,
            TurboError::ResidualsNotFloat32 => "TQ Transform: expected Float32 residual vectors"@,
            TurboError::ColumnExists { column } => "Can not append column "@ + column@,
            TurboError::TensorRank { rank } => "Expected a tensor of rank 2, got "@ + decimal(
                rank as nat,
            ),
            TurboError::TensorType { .. } => "Unsupported tensor data type"@,
            TurboError::TensorData { num_rows, row_len, num_bytes } => "Tensor shape "@ + decimal(
                num_rows as nat,
            ) + "x"@ + decimal(row_len as nat) + " does not match data length "@ + decimal(
                num_bytes as nat,
            ),
            TurboError::Codec { message } => message@,
        }
    }

    /// The text of the error.
    pub fn message(&self) -> (r: String)
        ensures
            r@ == self.message_spec(),
    {
        match self {
            TurboError::PackedBits { num_bits } => {
                with_number("num_bits must be 1-8, got ", *num_bits as u64)
            },
            TurboError::Dimension { dim } => {
                with_number("TurboQuant requires dimension >= 3, got ", *dim as u64)
            },
            TurboError::NumBits { num_bits } => {
                with_number("TurboQuant num_bits must be 1-8, got ", *num_bits as u64)
            },
            TurboError::CastFirst { value_type } => {
                let mut r = String::from_str("TurboQuant currently only supports Float32, got ");
                r.append(value_type.name().as_str());
                r.append(". Cast to Float32 first.");
                r
            },
            TurboError::UnsupportedType { value_type } => {
                let mut r = String::from_str("Unsupported data type for TurboQuant: ");
                r.append(value_type.name().as_str());
                r
            },
            TurboError::NotTurbo => {
                String::from_str("Cannot convert non-TurboQuantizer to TurboQuantizer")
            },
            TurboError::MetadataNotFound => {
                String::from_str("TurboQuant metadata not found in schema")
            },
            TurboError::ColumnNotFound { column } => {
                let mut r = String::from_str("TQ Transform: column ");
                r.append(column.as_str());
                r.append(" not found in batch");
                r
            },
            TurboError::NotFixedSizeList { column, data_type } => {
                let mut r = String::from_str("TQ Transform: column ");
                r.append(column.as_str());
                r.append(" is not a fixed size list, got ");
                r.append(data_type.as_str());
                r
            },
            TurboError::ResidualsNotFloat32 => {
                String::from_str("TQ Transform: expected Float32 residual vectors")
            },
            TurboError::ColumnExists { column } => {
                let mut r = String::from_str("Can not append column ");
                r.append(column.as_str());
                r
            },
            TurboError::TensorRank { rank } => {
                with_number("Expected a tensor of rank 2, got ", *rank as u64)
            },
            TurboError::TensorType { .. } => String::from_str("Unsupported tensor data type"),
            TurboError::TensorData { num_rows, row_len, num_bytes } => {
                let mut r = with_number("Tensor shape ", *num_rows as u64);
                r.append("x");
                r.append(decimal_string(*row_len as u64).as_str());
                r.append(" does not match data length ");
                r.append(decimal_string(*num_bytes as u64).as_str());
                r
            },
            TurboError::Codec { message } => message.clone(),
        }
    }
}

// --- Laws ---

/// The number that a sequence of decimal digits stands for.
pub open spec fn digits_value(digits: Seq<char>) -> int
    decreases digits.len(),
{
    if digits.len() == 0 {
        0
    } else {
        10 * digits_value(digits.drop_last()) + (digits.last() as int - 48)
    }
}

/// The decimal digits of a number stand for it, each of them is one of the ten digits, and the first
/// is not zero unless it is the only one.
pub proof fn law_digits_stand_for_the_number(n: nat)
    ensures
        decimal(n).len() > 0,
        digits_value(decimal(n)) == n,
        forall|i: int|
            0 <= i < decimal(n).len() ==> 48 <= (#[trigger] decimal(n)[i]) as int <= 57,
        decimal(n).len() > 1 ==> decimal(n)[0] as int != 48,
    decreases n,
{
    reveal_with_fuel(digits_value, 2);
    if n >= 10 {
        law_digits_stand_for_the_number(n / 10);
        assert(decimal(n).drop_last() =~= decimal(n / 10));
        if n / 10 < 10 {
            assert(decimal(n / 10) =~= seq![digit_char(n / 10)]);
        }
    } else {
        assert(decimal(n).drop_last() =~= Seq::<char>::empty());
    }
}

/// The text of an error names what it is about: the number or the column that was refused.
pub proof fn law_messages_name_what_was_refused(e: TurboError)
    ensures
        e matches TurboError::PackedBits { num_bits } ==> decimal(num_bits as nat).is_suffix_of(
            e.message_spec(),
        ),
        e matches TurboError::Dimension { dim } ==> decimal(dim as nat).is_suffix_of(
            e.message_spec(),
        ),
        e matches TurboError::NumBits { num_bits } ==> decimal(num_bits as nat).is_suffix_of(
            e.message_spec(),
        ),
        e matches TurboError::ColumnExists { column } ==> column@.is_suffix_of(e.message_spec()),
        e matches TurboError::NotFixedSizeList { column: _, data_type } ==> data_type@.is_suffix_of(
            e.message_spec(),
        ),
        e matches TurboError::TensorRank { rank } ==> decimal(rank as nat).is_suffix_of(
            e.message_spec(),
        ),
        e matches TurboError::UnsupportedType { value_type: ValueType::Other { name } }
            ==> name@.is_suffix_of(e.message_spec()),
        e matches TurboError::ColumnNotFound { column } ==> exists|before: Seq<char>, after: Seq<char>|
            e.message_spec() == #[trigger] (before + column@ + after),
        e matches TurboError::NotFixedSizeList { column, data_type: _ } ==> exists|
            before: Seq<char>,
            after: Seq<char>,
        | e.message_spec() == #[trigger] (before + column@ + after),
        e matches TurboError::Codec { message } ==> e.message_spec() == message@,
{
    match e {
        TurboError::ColumnNotFound { column } => {
            let before = "TQ Transform: column "@;
            let after = " not found in batch"@;
            assert(e.message_spec() =~= before + column@ + after);
        },
        TurboError::NotFixedSizeList { column, data_type } => {
            let before = "TQ Transform: column "@;
            let after = " is not a fixed size list, got "@ + data_type@;
            assert(e.message_spec() =~= before + column@ + after);
        },
        _ => {},
    }
}

} // verus!
