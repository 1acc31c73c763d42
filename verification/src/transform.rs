//! The step that replaces a batch's vectors by their codes.
//!
//! It comes last when an index is built: vectors have been normalized where the metric asks for
//! it, filtered, assigned to a partition, and replaced by their differences from the
//! partition's centroid. Here their norms are taken, they are encoded, and the batch gets the
//! columns `__turbo_code` and `__turbo_norm` for them.
use vstd::arithmetic::mul::{
    lemma_mul_basics, lemma_mul_inequality, lemma_mul_is_distributive_add_other_way,
};
use vstd::prelude::*;
use vstd::slice::slice_subrange;

use crate::arithmetic::VectorArithmetic;
use crate::builder::{Codes, TurboQuantizer, Vectors};
use crate::codebook::{
    codebook_request, computes_codebooks, computes_searchable, valid_parameters, CodebookCache,
    CodebookView,
};
use crate::error::{TurboError, ValueType};
use crate::float::Float32;
use crate::linear::{lemma_sum_agrees, sum};
use crate::rotation::row;
use crate::storage::{TURBO_CODE_COLUMN, TURBO_NORM_COLUMN};

verus! {

/// A column of a batch.
#[derive(Debug)]
pub enum Column<C> {
    /// Fixed-size lists.
    Vectors(Vectors),
    /// Packed codes.
    Codes(Codes),
    /// Norms.
    Norms(Vec<Float32>),
    /// Anything else, with the name of its type.
    Other { data_type: String, data: C },
}

/// A batch: columns with their names.
#[derive(Debug)]
pub struct Batch<C> {
    pub columns: Vec<(String, Column<C>)>,
}

/// The position of the first column with the given name, or the number of columns.
pub open spec fn column_position<C>(columns: Seq<(String, Column<C>)>, name: Seq<char>) -> int
    decreases columns.len(),
{
    if columns.len() == 0 {
        0
    } else if columns[0].0@ == name {
        0
    } else {
        1 + column_position(columns.skip(1), name)
    }
}

/// Whether a column with the given name is there.
pub open spec fn has_column<C>(columns: Seq<(String, Column<C>)>, name: Seq<char>) -> bool {
    column_position(columns, name) < columns.len()
}

/// The columns that are named otherwise.
pub open spec fn columns_without<C>(
    columns: Seq<(String, Column<C>)>,
    name: Seq<char>,
) -> Seq<(String, Column<C>)>
    decreases columns.len(),
{
    if columns.len() == 0 {
        Seq::empty()
    } else if columns[0].0@ == name {
        columns_without(columns.skip(1), name)
    } else {
        seq![columns[0]] + columns_without(columns.skip(1), name)
    }
}

/// Whether `norms` are those of the vectors.
pub open spec fn vector_norms<
    N: Fn(&[Float32]) -> Float32,
    V: Fn(Float32, Float32) -> Float32,
    D: Fn(&[Float32], &[Float32]) -> Float32,
>(ops: VectorArithmetic<N, V, D>, vectors: Vectors, norms: Seq<Float32>) -> bool {
    &&& norms.len() == vectors.len
    &&& forall|i: int|
        0 <= i < vectors.len ==> ops.norm_result(
            row(vectors.values@, vectors.list_size as int, i),
            #[trigger] norms[i],
        )
}

/// Whether the columns are those of a batch whose vectors were replaced: without the vector
/// column, with the codes and then the norms behind the others.
pub open spec fn replaced<C>(
    before: Seq<(String, Column<C>)>,
    vector_column: Seq<char>,
    codes: Codes,
    norms: Seq<Float32>,
    after: Seq<(String, Column<C>)>,
) -> bool {
    let others = columns_without(before, vector_column);
    let n = others.len() as int;
    &&& after.len() == n + 2
    &&& after.take(n) == others
    &&& after[n].0@ == TURBO_CODE_COLUMN@
    &&& after[n].1 == Column::<C>::Codes(codes)
    &&& after[n + 1].0@ == TURBO_NORM_COLUMN@
    &&& after[n + 1].1 matches Column::Norms(v) && v@ == norms
}

/// Whether `e` is the error for a column that does not hold vectors of single precision.
pub open spec fn refused<C>(name: Seq<char>, column: Column<C>, e: TurboError) -> bool {
    match column {
        Column::Vectors(_) => e == TurboError::ResidualsNotFloat32,
        Column::Codes(_) => e == TurboError::ResidualsNotFloat32,
        Column::Norms(_) => e matches TurboError::NotFixedSizeList { column: c, data_type: d } && c@
            == name && d@ == "Float32"@,
        Column::Other { data_type, .. } => e matches TurboError::NotFixedSizeList {
            column: c,
            data_type: d,
        } && c@ == name && d@ == data_type@,
    }
}

proof fn lemma_column_position<C>(columns: Seq<(String, Column<C>)>, name: Seq<char>, i: int)
    requires
        0 <= i <= columns.len(),
        forall|j: int| 0 <= j < i ==> (#[trigger] columns[j]).0@ != name,
        i < columns.len() ==> columns[i].0@ == name,
    ensures
        column_position(columns, name) == i,
    decreases columns.len(),
{
    if i > 0 {
        assert(columns[0].0@ != name);
        assert forall|j: int| 0 <= j < i - 1 implies (#[trigger] columns.skip(1)[j]).0@ != name by {
            assert(columns[j + 1].0@ != name);
        }
        lemma_column_position(columns.skip(1), name, i - 1);
    }
}

/// The first column with a name has it, and no column before it does.
proof fn lemma_at_column_position<C>(columns: Seq<(String, Column<C>)>, name: Seq<char>)
    ensures
        0 <= column_position(columns, name) <= columns.len(),
        has_column(columns, name) ==> columns[column_position(columns, name)].0@ == name,
        forall|j: int|
            0 <= j < column_position(columns, name) ==> (#[trigger] columns[j]).0@ != name,
    decreases columns.len(),
{
    if columns.len() > 0 && columns[0].0@ != name {
        let rest = columns.skip(1);
        lemma_at_column_position(rest, name);
        assert forall|j: int| 0 <= j < column_position(columns, name) implies (
        #[trigger] columns[j]).0@ != name by {
            if j > 0 {
                assert(rest[j - 1].0@ != name);
            }
        }
    }
}

impl<C> Batch<C> {
    /// The position of the first column with the given name.
    pub fn position(&self, name: &str) -> (r: Option<usize>)
        ensures
            r is Some <==> has_column(self.columns@, name@),
            r matches Some(i) ==> i == column_position(self.columns@, name@),
    {
        let wanted: String = String::from_str(name);
        for i in 0..self.columns.len()
            invariant
                wanted@ == name@,
                forall|j: int| 0 <= j < i ==> (#[trigger] self.columns@[j]).0@ != name@,
        {
            if self.columns[i].0 == wanted {
                proof {
                    lemma_column_position(self.columns@, name@, i as int);
                }
                return Some(i);
            }
        }
        proof {
            lemma_column_position(self.columns@, name@, self.columns@.len() as int);
        }
        None
    }

    /// The batch without the columns of the given name.
    pub fn drop_column(self, name: &str) -> (r: Batch<C>)
        ensures
            r.columns@ == columns_without(self.columns@, name@),
    {
        let wanted: String = String::from_str(name);
        let mut left: Vec<(String, Column<C>)> = self.columns;
        let mut kept: Vec<(String, Column<C>)> = Vec::new();
        let ghost all = columns_without(left@, name@);
        assert(kept@ + columns_without(left@, name@) =~= all);
        while left.len() > 0
            invariant
                wanted@ == name@,
                kept@ + columns_without(left@, name@) == all,
            decreases left@.len(),
        {
            let ghost before = left@;
            let ghost kept_before = kept@;
            let next: (String, Column<C>) = left.remove(0);
            assert(left@ =~= before.skip(1));
            if next.0 != wanted {
                kept.push(next);
                assert(kept@ + columns_without(left@, name@) =~= kept_before + columns_without(
                    before,
                    name@,
                ));
            }
        }
        assert(kept@ =~= all);
        Batch { columns: kept }
    }
}

/// Replaces a batch's vectors by their codes and norms.
pub struct TQTransformer {
    pub tq: TurboQuantizer,
    pub vector_column: String,
}

impl TQTransformer {
    /// A transformer that encodes the given column's vectors.
    pub fn new(tq: TurboQuantizer, vector_column: String) -> (r: TQTransformer)
        ensures
            r.tq == tq,
            r.vector_column == vector_column,
    {
        TQTransformer { tq, vector_column }
    }

    /// The text that stands for the transformer in logs.
    pub fn describe(&self) -> (r: String)
        ensures
            r@ == "TQTransformer(vector_column="@ + self.vector_column@ + ")"@,
    {
        let mut r: String = String::from_str("TQTransformer(vector_column=");
        r.append(self.vector_column.as_str());
        r.append(")");
        r
    }

    /// The vectors that are to be encoded, where the batch has them and not yet their codes.
    pub open spec fn pending<C>(&self, batch: Batch<C>) -> Option<Vectors> {
        let position = column_position(batch.columns@, self.vector_column@);
        if has_column(batch.columns@, TURBO_CODE_COLUMN@) || position >= batch.columns@.len() {
            None
        } else {
            match batch.columns@[position].1 {
                Column::Vectors(vectors) => if vectors.value_type is Float32 {
                    Some(vectors)
                } else {
                    None
                },
                _ => None,
            }
        }
    }

    /// What a batch becomes that has no vectors to encode: a batch with codes stays as it is, and
    /// without a vector column, or with another kind of column for it, there is an error.
    pub open spec fn settled<C>(&self, batch: Batch<C>, r: Result<Batch<C>, TurboError>) -> bool {
        let position = column_position(batch.columns@, self.vector_column@);
        if has_column(batch.columns@, TURBO_CODE_COLUMN@) {
            r == Ok::<Batch<C>, TurboError>(batch)
        } else if position >= batch.columns@.len() {
            r matches Err(TurboError::ColumnNotFound { column }) && column@ == self.vector_column@
        } else {
            r matches Err(e) && refused(self.vector_column@, batch.columns@[position].1, e)
        }
    }

    /// What a batch becomes whose vectors are encoded: the error that encoding gave, or that for
    /// a column of norms that is there already, or the batch with codes and norms in place of the
    /// vectors.
    pub open spec fn transformed<
        C,
        N: Fn(&[Float32]) -> Float32,
        V: Fn(Float32, Float32) -> Float32,
        D: Fn(&[Float32], &[Float32]) -> Float32,
    >(
        &self,
        batch: Batch<C>,
        vectors: Vectors,
        ops: VectorArithmetic<N, V, D>,
        quantized: Result<Codes, TurboError>,
        r: Result<Batch<C>, TurboError>,
    ) -> bool {
        match quantized {
            Err(e) => r == Err::<Batch<C>, TurboError>(e),
            Ok(codes) => if has_column(batch.columns@, TURBO_NORM_COLUMN@) {
                r matches Err(TurboError::ColumnExists { column }) && column@ == TURBO_NORM_COLUMN@
            } else {
                r matches Ok(after) && exists|norms: Seq<Float32>| #[trigger]
                    vector_norms(ops, vectors, norms) && replaced(
                        batch.columns@,
                        self.vector_column@,
                        codes,
                        norms,
                        after.columns@,
                    )
            },
        }
    }

    /// The norms of vectors.
    fn norms_of<
        N: Fn(&[Float32]) -> Float32,
        V: Fn(Float32, Float32) -> Float32,
        D: Fn(&[Float32], &[Float32]) -> Float32,
    >(vectors: &Vectors, ops: &VectorArithmetic<N, V, D>) -> (norms: Vec<Float32>)
        requires
            vectors.len * vectors.list_size <= vectors.values@.len(),
            ops.callable(),
        ensures
            vector_norms(*ops, *vectors, norms@),
    {
        let dim: usize = vectors.list_size;
        let total: usize = vectors.values.len();
        let mut norms: Vec<Float32> = Vec::new();
        for i in 0..vectors.len
            invariant
                dim == vectors.list_size,
                total == vectors.values@.len(),
                vectors.len * dim <= total,
                ops.callable(),
                norms@.len() == i,
                forall|j: int|
                    0 <= j < i ==> ops.norm_result(
                        row(vectors.values@, dim as int, j),
                        #[trigger] norms@[j],
                    ),
        {
            proof {
                lemma_mul_inequality(i + 1, vectors.len as int, dim as int);
                lemma_mul_inequality(0, i as int, dim as int);
                lemma_mul_is_distributive_add_other_way(dim as int, i as int, 1);
                lemma_mul_basics(dim as int);
            }
            let x: &[Float32] = slice_subrange(vectors.values.as_slice(), i * dim, i * dim + dim);
            assert(x@ == row(vectors.values@, dim as int, i as int));
            norms.push(ops.norm_of(x));
        }
        norms
    }

    /// The batch with the columns `__turbo_code` and `__turbo_norm` in place of the vectors.
    ///
    /// A batch that has the codes already is given back as it is. The norms are those of the
    /// vectors as they come in, before they are normalized for encoding.
    pub fn transform<
        C,
        N: Fn(&[Float32]) -> Float32,
        V: Fn(Float32, Float32) -> Float32,
        D: Fn(&[Float32], &[Float32]) -> Float32,
        F: Fn(usize, u32) -> (Vec<Float32>, Vec<Float32>),
    >(
        &self,
        batch: Batch<C>,
        cache: &mut CodebookCache,
        compute: &F,
        ops: &VectorArithmetic<N, V, D>,
    ) -> (r: Result<Batch<C>, TurboError>)
        requires
            self.pending(batch) matches Some(vectors) ==> {
                &&& vectors.len * vectors.list_size <= vectors.values@.len()
                &&& self.tq.accepts(vectors, *ops)
                &&& old(cache).searchable()
                &&& computes_searchable(
                    *compute,
                    self.tq.metadata.dimension,
                    self.tq.metadata.num_bits,
                )
                &&& ops.callable()
            },
        ensures
            old(cache).searchable() ==> final(cache).searchable(),
            old(cache).wf() && computes_codebooks(
                *compute,
                self.tq.metadata.dimension,
                self.tq.metadata.num_bits,
            ) ==> final(cache).wf(),
            self.pending(batch) is None ==> self.settled(batch, r) && *final(cache) == *old(cache),
            self.pending(batch) matches Some(vectors) ==> exists|
                codebook: Result<CodebookView, TurboError>,
                quantized: Result<Codes, TurboError>,
            |
                {
                    &&& #[trigger] codebook_request(
                        *compute,
                        self.tq.metadata.dimension,
                        self.tq.metadata.num_bits,
                        old(cache)@,
                        final(cache)@,
                        codebook,
                    )
                    &&& #[trigger] self.tq.quantized(vectors, *ops, codebook, quantized)
                    &&& self.transformed(batch, vectors, *ops, quantized, r)
                },
            self.pending(batch) is Some && valid_parameters(
                self.tq.metadata.dimension,
                self.tq.metadata.num_bits,
            ) && !has_column(batch.columns@, TURBO_NORM_COLUMN@) ==> r is Ok,
    {
        match batch.position(TURBO_CODE_COLUMN) {
            Some(_) => {
                return Ok(batch);
            },
            None => {},
        }
        let position: usize = match batch.position(self.vector_column.as_str()) {
            Some(i) => i,
            None => {
                return Err(TurboError::ColumnNotFound { column: self.vector_column.clone() });
            },
        };
        let encoded: (Codes, Vec<Float32>) = match &batch.columns[position].1 {
            Column::Other { data_type, data: _ } => {
                return Err(
                    TurboError::NotFixedSizeList {
                        column: self.vector_column.clone(),
                        data_type: data_type.clone(),
                    },
                );
            },
            Column::Norms(_) => {
                return Err(
                    TurboError::NotFixedSizeList {
                        column: self.vector_column.clone(),
                        data_type: String::from_str("Float32"),
                    },
                );
            },
            Column::Codes(_) => {
                return Err(TurboError::ResidualsNotFloat32);
            },
            Column::Vectors(vectors) => {
                match &vectors.value_type {
                    ValueType::Float32 => {},
                    _ => {
                        return Err(TurboError::ResidualsNotFloat32);
                    },
                }
                assert(self.pending(batch) == Some(*vectors));
                let norms: Vec<Float32> = Self::norms_of(vectors, ops);
                let quantized: Result<Codes, TurboError> = self.tq.quantize(
                    vectors,
                    cache,
                    compute,
                    ops,
                );
                match quantized {
                    Err(e) => {
                        return Err(e);
                    },
                    Ok(codes) => (codes, norms),
                }
            },
        };
        let ghost vectors = self.pending(batch)->Some_0;
        let ghost before = batch.columns@;
        match batch.position(TURBO_NORM_COLUMN) {
            Some(_) => {
                return Err(
                    TurboError::ColumnExists { column: String::from_str(TURBO_NORM_COLUMN) },
                );
            },
            None => {},
        }
        let mut after: Batch<C> = batch.drop_column(self.vector_column.as_str());
        let ghost others = after.columns@;
        let (codes, norms) = encoded;
        after.columns.push((String::from_str(TURBO_CODE_COLUMN), Column::Codes(codes)));
        after.columns.push((String::from_str(TURBO_NORM_COLUMN), Column::Norms(norms)));
        proof {
            assert(after.columns@.take(others.len() as int) =~= others);
            assert(vector_norms(*ops, vectors, norms@));
            assert(replaced(before, self.vector_column@, codes, norms@, after.columns@));
        }
        Ok(after)
    }
}

// --- Laws ---

/// A column with a name is there exactly if one of the columns is named so.
pub proof fn law_column_is_found_by_name<C>(
    columns: Seq<(String, Column<C>)>,
    name: Seq<char>,
    i: int,
)
    requires
        0 <= i < columns.len(),
        columns[i].0@ == name,
    ensures
        has_column(columns, name),
        column_position(columns, name) <= i,
        columns[column_position(columns, name)].0@ == name,
{
    lemma_at_column_position(columns, name);
    if column_position(columns, name) > i {
        assert(columns[i].0@ != name);
    }
}

/// Every column that is named otherwise is kept, and none that is named so.
pub proof fn law_columns_without<C>(
    columns: Seq<(String, Column<C>)>,
    name: Seq<char>,
    column: (String, Column<C>),
)
    ensures
        columns_without(columns, name).contains(column) <==> columns.contains(column) && column.0@
            != name,
    decreases columns.len(),
{
    if columns.len() > 0 {
        let rest = columns.skip(1);
        let kept = columns_without(columns, name);
        let kept_rest = columns_without(rest, name);
        law_columns_without(rest, name, column);
        if columns.contains(column) && column.0@ != name {
            let i = choose|i: int| 0 <= i < columns.len() && columns[i] == column;
            if i == 0 {
                assert(kept[0] == column);
            } else {
                assert(rest[i - 1] == column);
                let k = choose|k: int| 0 <= k < kept_rest.len() && kept_rest[k] == column;
                if columns[0].0@ == name {
                    assert(kept[k] == column);
                } else {
                    assert(kept[k + 1] == column);
                }
            }
        }
        if kept.contains(column) {
            let k = choose|k: int| 0 <= k < kept.len() && kept[k] == column;
            if columns[0].0@ == name {
                assert(kept_rest[k] == column);
            } else if k > 0 {
                assert(kept_rest[k - 1] == column);
            } else {
                assert(columns[0] == column);
            }
            if kept_rest.contains(column) {
                let i = choose|i: int| 0 <= i < rest.len() && rest[i] == column;
                assert(columns[i + 1] == column);
            }
        }
    }
}

/// A transformed batch has the codes and the norms, and the vectors no longer, where the vector
/// column is not one of these two itself.
pub proof fn law_vectors_are_replaced<C>(
    before: Seq<(String, Column<C>)>,
    vector_column: Seq<char>,
    codes: Codes,
    norms: Seq<Float32>,
    after: Seq<(String, Column<C>)>,
)
    requires
        replaced(before, vector_column, codes, norms, after),
        vector_column != TURBO_CODE_COLUMN@,
        vector_column != TURBO_NORM_COLUMN@,
    ensures
        has_column(after, TURBO_CODE_COLUMN@),
        has_column(after, TURBO_NORM_COLUMN@),
        !has_column(after, vector_column),
{
    let others = columns_without(before, vector_column);
    let n = others.len() as int;
    law_column_is_found_by_name(after, TURBO_CODE_COLUMN@, n);
    law_column_is_found_by_name(after, TURBO_NORM_COLUMN@, n + 1);
    assert forall|i: int| 0 <= i < after.len() implies (#[trigger] after[i]).0@ != vector_column by {
        if i < n {
            assert(after.take(n)[i] == after[i]);
            assert(others.contains(after[i]));
            law_columns_without(before, vector_column, after[i]);
        }
    }
    lemma_column_position(after, vector_column, after.len() as int);
}

/// Transforming a transformed batch again gives it back as it is.
pub proof fn law_transform_is_idempotent<
    C,
    N: Fn(&[Float32]) -> Float32,
    V: Fn(Float32, Float32) -> Float32,
    D: Fn(&[Float32], &[Float32]) -> Float32,
>(
    transformer: TQTransformer,
    batch: Batch<C>,
    vectors: Vectors,
    ops: VectorArithmetic<N, V, D>,
    quantized: Result<Codes, TurboError>,
    once: Batch<C>,
    twice: Result<Batch<C>, TurboError>,
)
    requires
        transformer.transformed(batch, vectors, ops, quantized, Ok(once)),
        transformer.settled(once, twice),
    ensures
        transformer.pending(once) is None,
        twice == Ok::<Batch<C>, TurboError>(once),
{
    let others = columns_without(batch.columns@, transformer.vector_column@);
    law_column_is_found_by_name(once.columns@, TURBO_CODE_COLUMN@, others.len() as int);
}

/// The norm in row `i` is one that the norm function gives for all coordinates of vector `i`, from
/// its first one on, and for no others.
pub proof fn law_norms_are_of_whole_vectors<
    N: Fn(&[Float32]) -> Float32,
    V: Fn(Float32, Float32) -> Float32,
    D: Fn(&[Float32], &[Float32]) -> Float32,
>(ops: VectorArithmetic<N, V, D>, vectors: Vectors, norms: Seq<Float32>, i: int)
    requires
        vector_norms(ops, vectors, norms),
        0 <= i < vectors.len,
    ensures
        norms.len() == vectors.len,
        exists|x: &[Float32]|
            x@ == vectors.values@.subrange(
                i * vectors.list_size,
                i * vectors.list_size + vectors.list_size,
            ) && #[trigger] call_ensures(ops.norm, (x,), norms[i]),
{
    assert(ops.norm_result(row(vectors.values@, vectors.list_size as int, i), norms[i]));
}

/// Where the norms of the vectors are computed without rounding, the square of the norm in row `i`
/// is the sum of the squares of all coordinates of vector `i`.
pub proof fn law_squared_norms_are_sums_of_squares<
    N: Fn(&[Float32]) -> Float32,
    V: Fn(Float32, Float32) -> Float32,
    D: Fn(&[Float32], &[Float32]) -> Float32,
>(
    ops: VectorArithmetic<N, V, D>,
    value: spec_fn(Float32) -> real,
    vectors: Vectors,
    norms: Seq<Float32>,
    i: int,
)
    requires
        vectors.len * vectors.list_size <= vectors.values@.len(),
        vector_norms(ops, vectors, norms),
        0 <= i < vectors.len,
        forall|x: &[Float32], r: Float32|
            x@ == vectors.values@.subrange(
                i * vectors.list_size,
                i * vectors.list_size + vectors.list_size,
            ) && #[trigger] call_ensures(ops.norm, (x,), r) ==> value(r) * value(r) == sum(
                x@.len(),
                |k: int| value(x@[k]) * value(x@[k]),
            ),
    ensures
        value(norms[i]) * value(norms[i]) == sum(
            vectors.list_size as nat,
            |k: int|
                value(vectors.values@[i * vectors.list_size + k]) * value(
                    vectors.values@[i * vectors.list_size + k],
                ),
        ),
{
    let dim = vectors.list_size as int;
    law_norms_are_of_whole_vectors(ops, vectors, norms, i);
    let x = choose|x: &[Float32]|
        x@ == vectors.values@.subrange(i * dim, i * dim + dim) && #[trigger] call_ensures(
            ops.norm,
            (x,),
            norms[i],
        );
    let f = |k: int| value(x@[k]) * value(x@[k]);
    let g = |k: int|
        value(vectors.values@[i * vectors.list_size + k]) * value(
            vectors.values@[i * vectors.list_size + k],
        );
    lemma_mul_inequality(i + 1, vectors.len as int, dim);
    lemma_mul_inequality(0, i, dim);
    lemma_mul_is_distributive_add_other_way(dim, i, 1);
    lemma_mul_basics(dim);
    lemma_sum_agrees(dim as nat, f, g);
}

/// The norms of a column are those of its parts: the norms of two columns put together are the
/// norms of the one and then those of the other.
pub proof fn law_norms_of_joined_columns<
    N: Fn(&[Float32]) -> Float32,
    V: Fn(Float32, Float32) -> Float32,
    D: Fn(&[Float32], &[Float32]) -> Float32,
>(
    ops: VectorArithmetic<N, V, D>,
    one: Vectors,
    norms_of_one: Seq<Float32>,
    other: Vectors,
    norms_of_other: Seq<Float32>,
    both: Vectors,
    norms_of_both: Seq<Float32>,
)
    requires
        ops.single_valued(),
        one.list_size == both.list_size,
        other.list_size == both.list_size,
        both.len == one.len + other.len,
        one.values@.len() == one.len * one.list_size,
        other.values@.len() == other.len * other.list_size,
        both.values@ == one.values@ + other.values@,
        vector_norms(ops, one, norms_of_one),
        vector_norms(ops, other, norms_of_other),
        vector_norms(ops, both, norms_of_both),
    ensures
        norms_of_both == norms_of_one + norms_of_other,
{
    let dim = both.list_size as int;
    assert forall|i: int| 0 <= i < both.len implies norms_of_both[i] == (norms_of_one
        + norms_of_other)[i] by {
        law_norms_are_of_whole_vectors(ops, both, norms_of_both, i);
        let x = both.values@.subrange(i * dim, i * dim + dim);
        assert(ops.norm_result(x, norms_of_both[i]));
        lemma_mul_inequality(0, i, dim);
        lemma_mul_is_distributive_add_other_way(dim, i, 1);
        lemma_mul_basics(dim);
        if i < one.len {
            law_norms_are_of_whole_vectors(ops, one, norms_of_one, i);
            lemma_mul_inequality(i + 1, one.len as int, dim);
            assert(one.values@.subrange(i * dim, i * dim + dim) =~= x);
            assert(ops.norm_result(x, norms_of_one[i]));
        } else {
            let j = i - one.len;
            law_norms_are_of_whole_vectors(ops, other, norms_of_other, j);
            lemma_mul_inequality(0, j, dim);
            lemma_mul_inequality(j + 1, other.len as int, dim);
            lemma_mul_is_distributive_add_other_way(dim, j, 1);
            lemma_mul_is_distributive_add_other_way(dim, one.len as int, j);
            assert(other.values@.subrange(j * dim, j * dim + dim) =~= x);
            assert(ops.norm_result(x, norms_of_other[j]));
        }
    }
    assert(norms_of_both =~= norms_of_one + norms_of_other);
}

/// The columns that are named otherwise, in the order in which they were.
pub proof fn law_columns_without_keeps_order<C>(
    columns: Seq<(String, Column<C>)>,
    name: Seq<char>,
)
    ensures
        columns_without(columns, name) == columns.filter(
            |column: (String, Column<C>)| column.0@ != name,
        ),
    decreases columns.len(),
{
    let otherwise = |column: (String, Column<C>)| column.0@ != name;
    reveal(Seq::filter);
    if columns.len() > 0 {
        let first = seq![columns[0]];
        let rest = columns.skip(1);
        law_columns_without_keeps_order(rest, name);
        assert(columns =~= first + rest);
        Seq::filter_distributes_over_add(first, rest, otherwise);
        assert(first.drop_last() =~= Seq::<(String, Column<C>)>::empty());
        assert(first.drop_last().filter(otherwise) =~= Seq::<(String, Column<C>)>::empty());
        assert(first.last() == columns[0]);
        if columns[0].0@ == name {
            assert(first.filter(otherwise) =~= Seq::<(String, Column<C>)>::empty());
            assert(columns_without(columns, name) =~= first.filter(otherwise) + rest.filter(
                otherwise,
            ));
        } else {
            assert(first.filter(otherwise) =~= first);
        }
    }
}

/// A transformed batch has the other columns as they were, in their order, then the codes, and last
/// the norms: one for each vector, of all its coordinates.
pub proof fn law_transformed_columns<
    C,
    N: Fn(&[Float32]) -> Float32,
    V: Fn(Float32, Float32) -> Float32,
    D: Fn(&[Float32], &[Float32]) -> Float32,
>(
    transformer: TQTransformer,
    batch: Batch<C>,
    vectors: Vectors,
    ops: VectorArithmetic<N, V, D>,
    codes: Codes,
    after: Batch<C>,
    i: int,
)
    requires
        transformer.transformed(batch, vectors, ops, Ok(codes), Ok(after)),
    ensures
        after.columns@.len() >= 2,
        after.columns@.drop_last().drop_last() == batch.columns@.filter(
            |column: (String, Column<C>)| column.0@ != transformer.vector_column@,
        ),
        after.columns@.drop_last().last().0@ == TURBO_CODE_COLUMN@,
        after.columns@.drop_last().last().1 == Column::<C>::Codes(codes),
        after.columns@.last().0@ == TURBO_NORM_COLUMN@,
        after.columns@.last().1 matches Column::Norms(norms) && norms@.len() == vectors.len && (0
            <= i < vectors.len ==> exists|x: &[Float32]|
            x@ == vectors.values@.subrange(
                i * vectors.list_size,
                i * vectors.list_size + vectors.list_size,
            ) && #[trigger] call_ensures(ops.norm, (x,), norms@[i])),
        forall|j: int| 0 <= j < batch.columns@.len() ==> (#[trigger] batch.columns@[j]).0@
            != TURBO_NORM_COLUMN@,
{
    let name = transformer.vector_column@;
    law_columns_without_keeps_order(batch.columns@, name);
    let others = columns_without(batch.columns@, name);
    let norms = choose|norms: Seq<Float32>| #[trigger]
        vector_norms(ops, vectors, norms) && replaced(
            batch.columns@,
            transformer.vector_column@,
            codes,
            norms,
            after.columns@,
        );
    assert(after.columns@.drop_last().drop_last() =~= after.columns@.take(others.len() as int));
    assert((|column: (String, Column<C>)| column.0@ != transformer.vector_column@) =~= (|
        column: (String, Column<C>),
    | column.0@ != name));
    if 0 <= i < vectors.len {
        law_norms_are_of_whole_vectors(ops, vectors, norms, i);
    }
    lemma_at_column_position(batch.columns@, TURBO_NORM_COLUMN@);
    assert forall|j: int| 0 <= j < batch.columns@.len() implies (#[trigger] batch.columns@[j]).0@
        != TURBO_NORM_COLUMN@ by {
        if batch.columns@[j].0@ == TURBO_NORM_COLUMN@ {
            law_column_is_found_by_name(batch.columns@, TURBO_NORM_COLUMN@, j);
        }
    }
}

/// The vectors to encode are those of the first column with the name, where they are of single
/// precision and no column holds codes; and there are some wherever that is so.
pub proof fn law_pending_vectors<C>(transformer: TQTransformer, batch: Batch<C>, i: int)
    requires
        0 <= i < batch.columns@.len(),
        batch.columns@[i].0@ == transformer.vector_column@,
        forall|j: int| 0 <= j < i ==> (#[trigger] batch.columns@[j]).0@
            != transformer.vector_column@,
    ensures
        transformer.pending(batch) matches Some(vectors) ==> {
            &&& batch.columns@[i].1 == Column::<C>::Vectors(vectors)
            &&& vectors.value_type is Float32
            &&& forall|j: int| 0 <= j < batch.columns@.len() ==> (#[trigger] batch.columns@[j]).0@
                != TURBO_CODE_COLUMN@
        },
        (forall|j: int| 0 <= j < batch.columns@.len() ==> (#[trigger] batch.columns@[j]).0@
            != TURBO_CODE_COLUMN@) && (batch.columns@[i].1 matches Column::Vectors(vectors)
            && vectors.value_type is Float32) ==> transformer.pending(batch) is Some,
{
    lemma_column_position(batch.columns@, transformer.vector_column@, i);
    lemma_at_column_position(batch.columns@, TURBO_CODE_COLUMN@);
    assert forall|j: int|
        0 <= j < batch.columns@.len() && !has_column(
            batch.columns@,
            TURBO_CODE_COLUMN@,
        ) implies (#[trigger] batch.columns@[j]).0@ != TURBO_CODE_COLUMN@ by {
        if batch.columns@[j].0@ == TURBO_CODE_COLUMN@ {
            law_column_is_found_by_name(batch.columns@, TURBO_CODE_COLUMN@, j);
        }
    }
}

/// A batch with a column of codes comes back as it is; one without it and without a column of the
/// vectors' name is refused for want of that column.
pub proof fn law_batches_without_vectors<C>(
    transformer: TQTransformer,
    batch: Batch<C>,
    r: Result<Batch<C>, TurboError>,
)
    requires
        transformer.settled(batch, r),
    ensures
        (exists|j: int|
            0 <= j < batch.columns@.len() && (#[trigger] batch.columns@[j]).0@
                == TURBO_CODE_COLUMN@) ==> transformer.pending(batch) is None && r == Ok::<
            Batch<C>,
            TurboError,
        >(batch),
        (forall|j: int|
            0 <= j < batch.columns@.len() ==> (#[trigger] batch.columns@[j]).0@
                != TURBO_CODE_COLUMN@ && batch.columns@[j].0@ != transformer.vector_column@)
            ==> transformer.pending(batch) is None && (r matches Err(
            TurboError::ColumnNotFound { column },
        ) && column@ == transformer.vector_column@),
        r is Ok ==> r == Ok::<Batch<C>, TurboError>(batch) && exists|j: int|
            0 <= j < batch.columns@.len() && (#[trigger] batch.columns@[j]).0@
                == TURBO_CODE_COLUMN@,
{
    let columns = batch.columns@;
    lemma_at_column_position(columns, TURBO_CODE_COLUMN@);
    lemma_at_column_position(columns, transformer.vector_column@);
    if exists|j: int|
        0 <= j < columns.len() && (#[trigger] columns[j]).0@ == TURBO_CODE_COLUMN@ {
        let j = choose|j: int|
            0 <= j < columns.len() && (#[trigger] columns[j]).0@ == TURBO_CODE_COLUMN@;
        law_column_is_found_by_name(columns, TURBO_CODE_COLUMN@, j);
    }
}

/// Where the first column with the name holds something else than vectors of single precision, and
/// no column holds codes, the batch is refused: lists for their elements, and anything else for its
/// type, with the column's name.
pub proof fn law_other_columns_are_refused<C>(
    transformer: TQTransformer,
    batch: Batch<C>,
    r: Result<Batch<C>, TurboError>,
    i: int,
)
    requires
        transformer.settled(batch, r),
        0 <= i < batch.columns@.len(),
        batch.columns@[i].0@ == transformer.vector_column@,
        forall|j: int| 0 <= j < i ==> (#[trigger] batch.columns@[j]).0@
            != transformer.vector_column@,
        forall|j: int| 0 <= j < batch.columns@.len() ==> (#[trigger] batch.columns@[j]).0@
            != TURBO_CODE_COLUMN@,
    ensures
        batch.columns@[i].1 is Vectors || batch.columns@[i].1 is Codes ==> r == Err::<
            Batch<C>,
            TurboError,
        >(TurboError::ResidualsNotFloat32),
        batch.columns@[i].1 is Norms ==> (r matches Err(
            TurboError::NotFixedSizeList { column, data_type },
        ) && column@ == transformer.vector_column@ && data_type@ == "Float32"@),
        batch.columns@[i].1 matches Column::Other { data_type: found, data: _ } ==> (r matches Err(
            TurboError::NotFixedSizeList { column, data_type },
        ) && column@ == transformer.vector_column@ && data_type@ == found@),
{
    lemma_column_position(batch.columns@, transformer.vector_column@, i);
    lemma_at_column_position(batch.columns@, TURBO_CODE_COLUMN@);
}

} // verus!
