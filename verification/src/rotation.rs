//! Rotation of vectors by an orthogonal matrix.
//!
//! A matrix of `dim` rows is held row by row in one flat sequence. Rotating multiplies by
//! the matrix, so each new coordinate is the dot product of a row with the vector; rotating
//! back multiplies by the transposed matrix, so it is that of a column. The dot product, and
//! the arithmetic that a random orthogonal matrix is made with, come in as functions.
use vstd::arithmetic::div_mod::{
    lemma_fundamental_div_mod, lemma_fundamental_div_mod_converse, lemma_mod_bound,
};
use vstd::arithmetic::mul::{
    lemma_mul_basics, lemma_mul_inequality, lemma_mul_is_commutative,
    lemma_mul_is_distributive_add_other_way,
};
use vstd::prelude::*;
use vstd::slice::{slice_subrange, slice_to_vec};

use crate::float::Float32;
use crate::linear::{
    exact_dot, lemma_product_rules, lemma_sum_agrees, lemma_sum_of_one, lemma_sum_scales,
    lemma_sums_exchange, sum,
};

verus! {

// --- Flat matrices ---

/// Row `j` of a flat matrix, and also vector `j` of a flat sequence of vectors.
pub open spec fn row<T>(flat: Seq<T>, dim: int, j: int) -> Seq<T> {
    flat.subrange(j * dim, j * dim + dim)
}

/// Column `j` of a flat matrix with `dim` rows.
pub open spec fn column<T>(flat: Seq<T>, dim: int, j: int) -> Seq<T> {
    Seq::new(dim as nat, |k: int| flat[k * dim + j])
}

/// The flat matrix with rows and columns exchanged.
pub open spec fn transposed<T>(flat: Seq<T>, dim: int) -> Seq<T> {
    Seq::new((dim * dim) as nat, |p: int| flat[(p % dim) * dim + p / dim])
}

/// An entry of a flat matrix lies within its rows.
pub proof fn lemma_entry(rows: int, dim: int, i: int, j: int)
    requires
        0 <= i < rows,
        0 <= j < dim,
    ensures
        0 <= i * dim,
        i * dim + dim <= rows * dim,
        0 <= i * dim + j < rows * dim,
        (i * dim + j) / dim == i,
        (i * dim + j) % dim == j,
        (i + 1) * dim == i * dim + dim,
{
    lemma_mul_inequality(i + 1, rows, dim);
    lemma_mul_inequality(0, i, dim);
    lemma_mul_is_distributive_add_other_way(dim, i, 1);
    lemma_mul_basics(dim);
    lemma_fundamental_div_mod_converse(i * dim + j, dim, i, j);
}

/// A position of a flat matrix lies in one of its rows.
pub proof fn lemma_position(rows: int, dim: int, p: int)
    requires
        0 < dim,
        0 <= p < rows * dim,
    ensures
        0 <= p / dim < rows,
        0 <= p % dim < dim,
        p == (p / dim) * dim + p % dim,
{
    lemma_fundamental_div_mod(p, dim);
    lemma_mod_bound(p, dim);
    lemma_mul_is_commutative(dim, p / dim);
    vstd::arithmetic::div_mod::lemma_div_pos_is_pos(p, dim);
    lemma_mul_is_commutative(dim, rows);
    vstd::arithmetic::div_mod::lemma_multiply_divide_lt(p, dim, rows);
}

/// The whole vectors that a flat sequence holds fit in it.
proof fn lemma_whole_vectors(len: int, dim: int)
    requires
        0 < dim,
        0 <= len,
    ensures
        0 <= len / dim,
        0 <= (len / dim) * dim <= len,
{
    lemma_fundamental_div_mod(len, dim);
    lemma_mod_bound(len, dim);
    lemma_mul_is_commutative(dim, len / dim);
    vstd::arithmetic::div_mod::lemma_div_pos_is_pos(len, dim);
    lemma_mul_inequality(0, len / dim, dim);
}

// --- Rotation ---

/// Whether `r` is a result of `dot` on the two sequences.
pub open spec fn dot_result<T, D: Fn(&[T], &[T]) -> T>(
    dot: D,
    a: Seq<T>,
    b: Seq<T>,
    r: T,
) -> bool {
    exists|x: &[T], y: &[T]| x@ == a && y@ == b && #[trigger] call_ensures(dot, (x, y), r)
}

/// Whether `dot` can be called on all sequences of equal length.
pub open spec fn dot_callable<T, D: Fn(&[T], &[T]) -> T>(dot: D) -> bool {
    forall|x: &[T], y: &[T]| x@.len() == y@.len() ==> #[trigger] call_requires(dot, (x, y))
}

/// Whether coordinate `j` of output vector `i` is row `j` times input vector `i`.
pub open spec fn rotated_entry<T, D: Fn(&[T], &[T]) -> T>(
    dot: D,
    vectors: Seq<T>,
    rotation: Seq<T>,
    dim: int,
    output: Seq<T>,
    i: int,
    j: int,
) -> bool {
    dot_result(dot, row(rotation, dim, j), row(vectors, dim, i), output[i * dim + j])
}

/// Whether `output` holds the rotated vectors, as many as the input holds whole ones.
pub open spec fn rotated<T, D: Fn(&[T], &[T]) -> T>(
    dot: D,
    vectors: Seq<T>,
    rotation: Seq<T>,
    dim: int,
    output: Seq<T>,
) -> bool {
    &&& output.len() == (vectors.len() as int / dim) * dim
    &&& forall|i: int, j: int|
        0 <= i < vectors.len() as int / dim && 0 <= j < dim ==> #[trigger] rotated_entry(
            dot,
            vectors,
            rotation,
            dim,
            output,
            i,
            j,
        )
}

/// Whether coordinate `j` of output vector `i` is column `j` times input vector `i`.
pub open spec fn rotated_back_entry<T, D: Fn(&[T], &[T]) -> T>(
    dot: D,
    vectors: Seq<T>,
    rotation: Seq<T>,
    dim: int,
    output: Seq<T>,
    i: int,
    j: int,
) -> bool {
    dot_result(dot, column(rotation, dim, j), row(vectors, dim, i), output[i * dim + j])
}

/// Whether `output` holds the vectors rotated back, as many as the input holds whole ones.
pub open spec fn rotated_back<T, D: Fn(&[T], &[T]) -> T>(
    dot: D,
    vectors: Seq<T>,
    rotation: Seq<T>,
    dim: int,
    output: Seq<T>,
) -> bool {
    &&& output.len() == (vectors.len() as int / dim) * dim
    &&& forall|i: int, j: int|
        0 <= i < vectors.len() as int / dim && 0 <= j < dim ==> #[trigger] rotated_back_entry(
            dot,
            vectors,
            rotation,
            dim,
            output,
            i,
            j,
        )
}

/// Apply forward rotation: `y = Π · x` for each of the vectors.
///
/// The rotation matrix is stored row by row as a flat slice, so that
/// `y_j = Σ_k rotation[j*dim + k] * x[k]`.
pub fn rotate<T: Copy, D: Fn(&[T], &[T]) -> T>(
    vectors: &[T],
    rotation: &[T],
    dim: usize,
    dot: &D,
) -> (output: Vec<T>)
    requires
        dim > 0,
        vectors@.len() >= dim ==> rotation@.len() >= dim * dim,
        dot_callable(*dot),
    ensures
        rotated(*dot, vectors@, rotation@, dim as int, output@),
{
    let n: usize = vectors.len() / dim;
    let size: usize = rotation.len();
    let mut output: Vec<T> = Vec::new();
    let ghost d = dim as int;
    proof {
        lemma_whole_vectors(vectors@.len() as int, d);
        lemma_mul_basics(d);
        if n > 0 {
            lemma_mul_inequality(1, n as int, d);
        }
    }
    for i in 0..n
        invariant
            d == dim > 0,
            n == vectors@.len() as int / d,
            n * d <= vectors@.len() <= usize::MAX,
            rotation@.len() == size,
            n > 0 ==> rotation@.len() >= d * d,
            dot_callable(*dot),
            output@.len() == i * d,
            forall|a: int, b: int|
                0 <= a < i && 0 <= b < d ==> #[trigger] rotated_entry(
                    *dot,
                    vectors@,
                    rotation@,
                    d,
                    output@,
                    a,
                    b,
                ),
    {
        proof {
            lemma_entry(n as int, d, i as int, 0);
        }
        let x: &[T] = slice_subrange(vectors, i * dim, i * dim + dim);
        for j in 0..dim
            invariant
                d == dim > 0,
                i < n,
                n == vectors@.len() as int / d,
                n * d <= vectors@.len() <= usize::MAX,
                rotation@.len() == size,
                rotation@.len() >= d * d,
                dot_callable(*dot),
                x@ == row(vectors@, d, i as int),
                x@.len() == d,
                output@.len() == i * d + j,
                forall|a: int, b: int|
                    0 <= a < i && 0 <= b < d || a == i && 0 <= b < j
                        ==> #[trigger] rotated_entry(
                        *dot,
                        vectors@,
                        rotation@,
                        d,
                        output@,
                        a,
                        b,
                    ),
        {
            proof {
                lemma_entry(d, d, j as int, 0);
            }
            let matrix_row: &[T] = slice_subrange(rotation, j * dim, j * dim + dim);
            let y: T = dot(matrix_row, x);
            let ghost before = output@;
            output.push(y);
            proof {
                assert(dot_result(*dot, row(rotation@, d, j as int), row(vectors@, d, i as int), y));
                assert forall|a: int, b: int|
                    0 <= a < i && 0 <= b < d || a == i && 0 <= b < j
                        + 1 implies #[trigger] rotated_entry(
                    *dot,
                    vectors@,
                    rotation@,
                    d,
                    output@,
                    a,
                    b,
                ) by {
                    if a < i {
                        lemma_entry(i as int, d, a, b);
                    }
                    if a < i || b < j {
                        assert(rotated_entry(*dot, vectors@, rotation@, d, before, a, b));
                        assert(output@[a * d + b] == before[a * d + b]);
                    }
                }
            }
        }
        proof {
            lemma_entry(n as int, d, i as int, 0);
        }
    }
    output
}

/// The flat matrix with rows and columns exchanged.
pub fn transpose<T: Copy>(flat: &[T], dim: usize) -> (r: Vec<T>)
    requires
        flat@.len() >= dim * dim,
    ensures
        r@ == transposed(flat@, dim as int),
{
    let mut r: Vec<T> = Vec::new();
    let size: usize = flat.len();
    let ghost d = dim as int;
    proof {
        lemma_mul_basics(d);
    }
    for j in 0..dim
        invariant
            d == dim,
            size == flat@.len() >= d * d,
            r@.len() == j * d,
            forall|p: int| 0 <= p < r@.len() ==> r@[p] == flat@[(p % d) * d + p / d],
    {
        for k in 0..dim
            invariant
                d == dim,
                j < dim,
                size == flat@.len() >= d * d,
                r@.len() == j * d + k,
                forall|p: int| 0 <= p < r@.len() ==> r@[p] == flat@[(p % d) * d + p / d],
        {
            proof {
                lemma_entry(d, d, k as int, j as int);
                lemma_entry(d, d, j as int, k as int);
            }
            r.push(flat[k * dim + j]);
        }
        proof {
            lemma_entry(d, d, j as int, 0);
        }
    }
    proof {
        assert(r@ =~= transposed(flat@, d));
    }
    r
}

/// Row `j` of the transposed matrix is column `j` of the matrix.
pub proof fn law_transposed_rows_are_columns<T>(flat: Seq<T>, dim: int, j: int)
    requires
        0 <= j < dim,
        dim * dim <= flat.len(),
    ensures
        row(transposed(flat, dim), dim, j) == column(flat, dim, j),
{
    lemma_entry(dim, dim, j, 0);
    assert forall|k: int| 0 <= k < dim implies row(transposed(flat, dim), dim, j)[k] == column(
        flat,
        dim,
        j,
    )[k] by {
        lemma_entry(dim, dim, j, k);
    }
    assert(row(transposed(flat, dim), dim, j) =~= column(flat, dim, j));
}

/// Transposing twice gives back the matrix.
pub proof fn law_transpose_is_an_involution<T>(flat: Seq<T>, dim: int)
    requires
        0 <= dim,
        flat.len() == dim * dim,
    ensures
        transposed(transposed(flat, dim), dim) == flat,
{
    assert forall|p: int| 0 <= p < flat.len() implies transposed(transposed(flat, dim), dim)[p]
        == flat[p] by {
        if dim > 0 {
            lemma_position(dim, dim, p);
            lemma_entry(dim, dim, p % dim, p / dim);
        } else {
            lemma_mul_basics(dim);
        }
    }
    assert(transposed(transposed(flat, dim), dim) =~= flat);
}

/// Rotating back by a matrix is rotating by the transposed one.
pub proof fn law_rotating_back_is_rotating_by_the_transposed<T, D: Fn(&[T], &[T]) -> T>(
    dot: D,
    vectors: Seq<T>,
    rotation: Seq<T>,
    dim: int,
    output: Seq<T>,
)
    requires
        0 < dim,
        dim * dim <= rotation.len(),
    ensures
        rotated_back(dot, vectors, rotation, dim, output) <==> rotated(
            dot,
            vectors,
            transposed(rotation, dim),
            dim,
            output,
        ),
{
    assert forall|i: int, j: int| 0 <= j < dim implies #[trigger] rotated_back_entry(
        dot,
        vectors,
        rotation,
        dim,
        output,
        i,
        j,
    ) == rotated_entry(dot, vectors, transposed(rotation, dim), dim, output, i, j) by {
        law_transposed_rows_are_columns(rotation, dim, j);
    }
    if rotated(dot, vectors, transposed(rotation, dim), dim, output) {
        assert forall|i: int, j: int|
            0 <= i < vectors.len() as int / dim && 0 <= j
                < dim implies #[trigger] rotated_back_entry(
            dot,
            vectors,
            rotation,
            dim,
            output,
            i,
            j,
        ) by {
            assert(rotated_entry(dot, vectors, transposed(rotation, dim), dim, output, i, j));
        }
    }
    if rotated_back(dot, vectors, rotation, dim, output) {
        assert forall|i: int, j: int|
            0 <= i < vectors.len() as int / dim && 0 <= j < dim implies #[trigger] rotated_entry(
            dot,
            vectors,
            transposed(rotation, dim),
            dim,
            output,
            i,
            j,
        ) by {
            assert(rotated_back_entry(dot, vectors, rotation, dim, output, i, j));
        }
    }
}

/// Apply inverse rotation: `x = Π^T · y` for each of the vectors.
///
/// The matrix is orthogonal, so its inverse is the transposed one, and
/// `x_j = Σ_k rotation[k*dim + j] * y[k]`.
pub fn inverse_rotate<T: Copy, D: Fn(&[T], &[T]) -> T>(
    vectors: &[T],
    rotation: &[T],
    dim: usize,
    dot: &D,
) -> (output: Vec<T>)
    requires
        dim > 0,
        vectors@.len() >= dim ==> rotation@.len() >= dim * dim,
        dot_callable(*dot),
    ensures
        rotated_back(*dot, vectors@, rotation@, dim as int, output@),
{
    if vectors.len() < dim {
        proof {
            vstd::arithmetic::div_mod::lemma_small_mod(vectors@.len(), dim as nat);
            lemma_fundamental_div_mod(vectors@.len() as int, dim as int);
            vstd::arithmetic::div_mod::lemma_basic_div(vectors@.len() as int, dim as int);
            lemma_mul_basics(dim as int);
        }
        return Vec::new();
    }
    let back: Vec<T> = transpose(rotation, dim);
    let output: Vec<T> = rotate(vectors, back.as_slice(), dim, dot);
    proof {
        law_rotating_back_is_rotating_by_the_transposed(
            *dot,
            vectors@,
            rotation@,
            dim as int,
            output@,
        );
    }
    output
}

// --- Matrices by rows ---

/// What a vector of rows holds.
pub open spec fn rows_of<W>(matrix: Vec<Vec<W>>) -> Seq<Seq<W>> {
    Seq::new(matrix@.len(), |i: int| matrix@[i]@)
}

/// Whether a matrix has the given numbers of rows and columns.
pub open spec fn shaped<W>(matrix: Seq<Seq<W>>, num_rows: int, num_columns: int) -> bool {
    &&& matrix.len() == num_rows
    &&& forall|i: int| 0 <= i < num_rows ==> (#[trigger] matrix[i]).len() == num_columns
}

/// The unit matrix.
pub open spec fn unit_matrix<W>(n: int, zero: W, one: W) -> Seq<Seq<W>> {
    Seq::new(
        n as nat,
        |i: int|
            Seq::new(
                n as nat,
                |j: int|
                    if i == j {
                        one
                    } else {
                        zero
                    },
            ),
    )
}

/// The part of a matrix from row `i0` and column `j0` on.
pub open spec fn block<W>(matrix: Seq<Seq<W>>, i0: int, j0: int) -> Seq<Seq<W>> {
    Seq::new(
        (matrix.len() - i0) as nat,
        |i: int| matrix[i0 + i].subrange(j0, matrix[i0 + i].len() as int),
    )
}

/// A matrix with another part from row `i0` and column `j0` on.
pub open spec fn with_block<W>(
    matrix: Seq<Seq<W>>,
    i0: int,
    j0: int,
    part: Seq<Seq<W>>,
) -> Seq<Seq<W>> {
    Seq::new(
        matrix.len(),
        |i: int|
            if i < i0 {
                matrix[i]
            } else {
                matrix[i].subrange(0, j0) + part[i - i0]
            },
    )
}

/// Column `k` of a matrix from row `k` on.
pub open spec fn lower_column<W>(matrix: Seq<Seq<W>>, k: int) -> Seq<W> {
    Seq::new((matrix.len() - k) as nat, |i: int| matrix[k + i][k])
}

/// The unit matrix.
fn make_unit_matrix<W: Copy>(n: usize, zero: W, one: W) -> (r: Vec<Vec<W>>)
    ensures
        rows_of(r) == unit_matrix(n as int, zero, one),
{
    let mut r: Vec<Vec<W>> = Vec::new();
    for i in 0..n
        invariant
            r@.len() == i,
            forall|a: int|
                0 <= a < i ==> (#[trigger] r@[a])@ == unit_matrix(n as int, zero, one)[a],
    {
        let mut line: Vec<W> = Vec::new();
        for j in 0..n
            invariant
                i < n,
                line@.len() == j,
                forall|b: int|
                    0 <= b < j ==> #[trigger] line@[b] == if i == b {
                        one
                    } else {
                        zero
                    },
        {
            if i == j {
                line.push(one);
            } else {
                line.push(zero);
            }
        }
        assert(line@ =~= unit_matrix(n as int, zero, one)[i as int]);
        r.push(line);
    }
    assert(rows_of(r) =~= unit_matrix(n as int, zero, one));
    r
}

/// The part of a matrix from row `i0` and column `j0` on.
fn copy_block<W: Copy>(matrix: &Vec<Vec<W>>, i0: usize, j0: usize) -> (r: Vec<Vec<W>>)
    requires
        i0 <= matrix@.len(),
        forall|i: int| i0 <= i < matrix@.len() ==> j0 <= (#[trigger] matrix@[i])@.len(),
    ensures
        rows_of(r) == block(rows_of(*matrix), i0 as int, j0 as int),
{
    let mut r: Vec<Vec<W>> = Vec::new();
    for i in i0..matrix.len()
        invariant
            i0 <= i <= matrix@.len(),
            forall|a: int| i0 <= a < matrix@.len() ==> j0 <= (#[trigger] matrix@[a])@.len(),
            r@.len() == i - i0,
            forall|a: int|
                0 <= a < i - i0 ==> (#[trigger] r@[a])@ == block(
                    rows_of(*matrix),
                    i0 as int,
                    j0 as int,
                )[a],
    {
        let line: &Vec<W> = &matrix[i];
        r.push(slice_to_vec(slice_subrange(line.as_slice(), j0, line.len())));
    }
    assert(rows_of(r) =~= block(rows_of(*matrix), i0 as int, j0 as int));
    r
}

/// A matrix with another part from row `i0` and column `j0` on.
fn replace_block<W: Copy>(
    matrix: &Vec<Vec<W>>,
    i0: usize,
    j0: usize,
    part: &Vec<Vec<W>>,
) -> (r: Vec<Vec<W>>)
    requires
        part@.len() == matrix@.len() - i0,
        forall|i: int| i0 <= i < matrix@.len() ==> j0 <= (#[trigger] matrix@[i])@.len(),
    ensures
        rows_of(r) == with_block(rows_of(*matrix), i0 as int, j0 as int, rows_of(*part)),
{
    let mut r: Vec<Vec<W>> = Vec::new();
    for i in 0..matrix.len()
        invariant
            part@.len() == matrix@.len() - i0,
            forall|a: int| i0 <= a < matrix@.len() ==> j0 <= (#[trigger] matrix@[a])@.len(),
            r@.len() == i,
            forall|a: int|
                0 <= a < i ==> (#[trigger] r@[a])@ == with_block(
                    rows_of(*matrix),
                    i0 as int,
                    j0 as int,
                    rows_of(*part),
                )[a],
    {
        let old_line: &Vec<W> = &matrix[i];
        if i < i0 {
            r.push(slice_to_vec(old_line.as_slice()));
        } else {
            let mut line: Vec<W> = slice_to_vec(slice_subrange(old_line.as_slice(), 0, j0));
            let mut rest: Vec<W> = slice_to_vec(part[i - i0].as_slice());
            line.append(&mut rest);
            r.push(line);
        }
    }
    assert(rows_of(r) =~= with_block(rows_of(*matrix), i0 as int, j0 as int, rows_of(*part)));
    r
}

/// Column `k` of a matrix from row `k` on.
fn copy_lower_column<W: Copy>(matrix: &Vec<Vec<W>>, k: usize) -> (r: Vec<W>)
    requires
        k <= matrix@.len(),
        forall|i: int| k <= i < matrix@.len() ==> k < (#[trigger] matrix@[i])@.len(),
    ensures
        r@ == lower_column(rows_of(*matrix), k as int),
{
    let mut r: Vec<W> = Vec::new();
    for i in k..matrix.len()
        invariant
            k <= i <= matrix@.len(),
            forall|a: int| k <= a < matrix@.len() ==> k < (#[trigger] matrix@[a])@.len(),
            r@.len() == i - k,
            forall|a: int| 0 <= a < i - k ==> #[trigger] r@[a] == matrix@[k + a]@[k as int],
    {
        r.push(matrix[i][k]);
    }
    assert(r@ =~= lower_column(rows_of(*matrix), k as int));
    r
}

// --- Householder reflections ---

/// Whether `r` is a result of `f` on the numbers.
pub open spec fn result_on<W, R, F: Fn(&Vec<W>) -> R>(f: F, x: Seq<W>, r: R) -> bool {
    exists|v: Vec<W>| v@ == x && #[trigger] call_ensures(f, (&v,), r)
}

/// The vector that a reflection goes by: of `x`, with its norm added to the first number, away
/// from zero, the unit vector. There is none where the norm is negligible.
pub open spec fn reflector<
    W,
    N: Fn(&Vec<W>) -> W,
    Z: Fn(W) -> bool,
    S: Fn(W) -> bool,
    A: Fn(W, bool, W) -> W,
    V: Fn(W, W) -> W,
>(
    norm: N,
    negligible: Z,
    nonnegative: S,
    shift: A,
    divide: V,
    x: Seq<W>,
    r: Option<Seq<W>>,
) -> bool {
    exists|length: W, small: bool|
        {
            &&& #[trigger] result_on(norm, x, length)
            &&& #[trigger] call_ensures(negligible, (length,), small)
            &&& small ==> r is None
            &&& !small ==> exists|sign: bool, first: W, shifted_length: W|
                {
                    &&& #[trigger] call_ensures(nonnegative, (x[0],), sign)
                    &&& #[trigger] call_ensures(shift, (x[0], sign, length), first)
                    &&& #[trigger] result_on(norm, x.update(0, first), shifted_length)
                    &&& r matches Some(u) && {
                        &&& u.len() == x.len()
                        &&& forall|i: int|
                            0 <= i < x.len() ==> call_ensures(
                                divide,
                                (x.update(0, first)[i], shifted_length),
                                #[trigger] u[i],
                            )
                    }
                }
        }
}

/// Which vectors, if any, reflect which numbers.
pub open spec fn reflectors<
    W,
    N: Fn(&Vec<W>) -> W,
    Z: Fn(W) -> bool,
    S: Fn(W) -> bool,
    A: Fn(W, bool, W) -> W,
    V: Fn(W, W) -> W,
>(norm: N, negligible: Z, nonnegative: S, shift: A, divide: V) -> spec_fn(
    Seq<W>,
    Option<Seq<W>>,
) -> bool {
    |x: Seq<W>, u: Option<Seq<W>>| reflector(norm, negligible, nonnegative, shift, divide, x, u)
}

/// What an optional vector holds.
pub open spec fn optional_view<W>(v: Option<Vec<W>>) -> Option<Seq<W>> {
    match v {
        Some(u) => Some(u@),
        None => None,
    }
}

/// The unit vector of the reflection that takes `x` to a multiple of the first axis.
///
/// The sign of the first number decides the direction in which the norm is added to it, so
/// that nothing cancels. Where the norm is negligible there is nothing to reflect.
pub fn householder_vector<
    W: Copy,
    N: Fn(&Vec<W>) -> W,
    Z: Fn(W) -> bool,
    S: Fn(W) -> bool,
    A: Fn(W, bool, W) -> W,
    V: Fn(W, W) -> W,
>(
    x: &Vec<W>,
    norm: &N,
    negligible: &Z,
    nonnegative: &S,
    shift: &A,
    divide: &V,
) -> (r: Option<Vec<W>>)
    requires
        x@.len() > 0,
        forall|v: Vec<W>| #[trigger] call_requires(*norm, (&v,)),
        forall|a: W| #[trigger] call_requires(*negligible, (a,)),
        forall|a: W| #[trigger] call_requires(*nonnegative, (a,)),
        forall|a: W, s: bool, b: W| #[trigger] call_requires(*shift, (a, s, b)),
        forall|a: W, b: W| #[trigger] call_requires(*divide, (a, b)),
    ensures
        reflector(*norm, *negligible, *nonnegative, *shift, *divide, x@, optional_view(r)),
        r matches Some(u) ==> u@.len() == x@.len(),
{
    let length: W = norm(x);
    assert(result_on(*norm, x@, length));
    let small: bool = negligible(length);
    if small {
        return None;
    }
    let sign: bool = nonnegative(x[0]);
    let first: W = shift(x[0], sign, length);
    let mut shifted: Vec<W> = slice_to_vec(x.as_slice());
    shifted.set(0, first);
    let shifted_length: W = norm(&shifted);
    assert(result_on(*norm, x@.update(0, first), shifted_length));
    let mut u: Vec<W> = Vec::new();
    for i in 0..shifted.len()
        invariant
            forall|a: W, b: W| #[trigger] call_requires(*divide, (a, b)),
            u@.len() == i,
            forall|a: int|
                0 <= a < i ==> call_ensures(
                    *divide,
                    (shifted@[a], shifted_length),
                    #[trigger] u@[a],
                ),
    {
        u.push(divide(shifted[i], shifted_length));
    }
    Some(u)
}

/// Whether a matrix is that of the reflection by `u`, entry by entry.
pub open spec fn reflection<W, E: Fn(W, W, bool) -> W>(
    entry: E,
    u: Seq<W>,
    h: Seq<Seq<W>>,
) -> bool {
    &&& shaped(h, u.len() as int, u.len() as int)
    &&& forall|i: int, j: int|
        0 <= i < u.len() && 0 <= j < u.len() ==> call_ensures(
            entry,
            (u[i], u[j], i == j),
            #[trigger] h[i][j],
        )
}

/// Whether `r` is a result of `product` on the two matrices.
pub open spec fn product_result<W, P: Fn(&Vec<Vec<W>>, &Vec<Vec<W>>) -> Vec<Vec<W>>>(
    product: P,
    a: Seq<Seq<W>>,
    b: Seq<Seq<W>>,
    r: Seq<Seq<W>>,
) -> bool {
    exists|x: Vec<Vec<W>>, y: Vec<Vec<W>>, z: Vec<Vec<W>>|
        rows_of(x) == a && rows_of(y) == b && rows_of(z) == r && #[trigger] call_ensures(
            product,
            (&x, &y),
            z,
        )
}

/// Which vectors, if any, a function gives for which numbers.
pub open spec fn vectors_given<W, U: Fn(&Vec<W>) -> Option<Vec<W>>>(direction: U) -> spec_fn(
    Seq<W>,
    Option<Seq<W>>,
) -> bool {
    |x: Seq<W>, u: Option<Seq<W>>|
        exists|v: Option<Vec<W>>| #[trigger] result_on(direction, x, v) && optional_view(v) == u
}

/// What step `k` makes of the two matrices of a decomposition.
///
/// The lower part of column `k` of the second has to it a vector, if any, by `direction`, which
/// gives the reflection. Where there is one, it is
/// multiplied from the left to the second from row and column `k` on, and from the right to
/// the first from column `k` on. Everything else stays.
pub open spec fn qr_step<
    W,
    E: Fn(W, W, bool) -> W,
    P: Fn(&Vec<Vec<W>>, &Vec<Vec<W>>) -> Vec<Vec<W>>,
>(
    direction: spec_fn(Seq<W>, Option<Seq<W>>) -> bool,
    entry: E,
    product: P,
    k: int,
    before: (Seq<Seq<W>>, Seq<Seq<W>>),
    after: (Seq<Seq<W>>, Seq<Seq<W>>),
) -> bool {
    exists|u: Option<Seq<W>>| #[trigger]
        direction(lower_column(before.1, k), u) && match u {
            None => after == before,
            Some(u) => exists|h: Seq<Seq<W>>, hr: Seq<Seq<W>>, qh: Seq<Seq<W>>|
                {
                    &&& reflection(entry, u, h)
                    &&& #[trigger] product_result(product, h, block(before.1, k, k), hr)
                    &&& #[trigger] product_result(product, block(before.0, 0, k), h, qh)
                    &&& after == (with_block(before.0, 0, k, qh), with_block(before.1, k, k, hr))
                },
        }
}

/// The vector of a step, if any, the matrix of its reflection, and the two products with it.
pub proof fn lemma_qr_step_parts<
    W,
    E: Fn(W, W, bool) -> W,
    P: Fn(&Vec<Vec<W>>, &Vec<Vec<W>>) -> Vec<Vec<W>>,
>(
    direction: spec_fn(Seq<W>, Option<Seq<W>>) -> bool,
    entry: E,
    product: P,
    k: int,
    before: (Seq<Seq<W>>, Seq<Seq<W>>),
    after: (Seq<Seq<W>>, Seq<Seq<W>>),
) -> (parts: (Option<Seq<W>>, Seq<Seq<W>>, Seq<Seq<W>>, Seq<Seq<W>>))
    requires
        qr_step(direction, entry, product, k, before, after),
    ensures
        direction(lower_column(before.1, k), parts.0),
        parts.0 is None ==> after == before,
        parts.0 matches Some(u) ==> {
            &&& reflection(entry, u, parts.1)
            &&& product_result(product, parts.1, block(before.1, k, k), parts.2)
            &&& product_result(product, block(before.0, 0, k), parts.1, parts.3)
            &&& after == (
                with_block(before.0, 0, k, parts.3),
                with_block(before.1, k, k, parts.2),
            )
        },
{
    let x = lower_column(before.1, k);
    let u = choose|u: Option<Seq<W>>| #[trigger]
        direction(x, u) && match u {
            None => after == before,
            Some(u) => exists|h: Seq<Seq<W>>, hr: Seq<Seq<W>>, qh: Seq<Seq<W>>|
                {
                    &&& reflection(entry, u, h)
                    &&& #[trigger] product_result(product, h, block(before.1, k, k), hr)
                    &&& #[trigger] product_result(product, block(before.0, 0, k), h, qh)
                    &&& after == (with_block(before.0, 0, k, qh), with_block(before.1, k, k, hr))
                },
        };
    match u {
        None => (u, Seq::empty(), Seq::empty(), Seq::empty()),
        Some(v) => {
            let (h, hr, qh) = choose|h: Seq<Seq<W>>, hr: Seq<Seq<W>>, qh: Seq<Seq<W>>|
                {
                    &&& reflection(entry, v, h)
                    &&& #[trigger] product_result(product, h, block(before.1, k, k), hr)
                    &&& #[trigger] product_result(product, block(before.0, 0, k), h, qh)
                    &&& after == (with_block(before.0, 0, k, qh), with_block(before.1, k, k, hr))
                };
            (u, h, hr, qh)
        },
    }
}

/// Whether entry `k + 1` of the history comes from entry `k` by step `k`.
pub open spec fn qr_step_from<
    W,
    E: Fn(W, W, bool) -> W,
    P: Fn(&Vec<Vec<W>>, &Vec<Vec<W>>) -> Vec<Vec<W>>,
>(
    direction: spec_fn(Seq<W>, Option<Seq<W>>) -> bool,
    entry: E,
    product: P,
    history: Seq<(Seq<Seq<W>>, Seq<Seq<W>>)>,
    k: int,
) -> bool {
    qr_step(direction, entry, product, k, history[k], history[k + 1])
}

/// The number of reflections for a matrix with the given numbers of rows and columns.
pub open spec fn num_reflections(num_rows: int, num_columns: int) -> int {
    if num_columns <= num_rows - 1 {
        num_columns
    } else {
        num_rows - 1
    }
}

/// Whether the history is that of the first `steps` reflections of `a`.
pub open spec fn qr_history<
    W,
    E: Fn(W, W, bool) -> W,
    P: Fn(&Vec<Vec<W>>, &Vec<Vec<W>>) -> Vec<Vec<W>>,
>(
    direction: spec_fn(Seq<W>, Option<Seq<W>>) -> bool,
    entry: E,
    product: P,
    zero: W,
    one: W,
    a: Seq<Seq<W>>,
    steps: int,
    history: Seq<(Seq<Seq<W>>, Seq<Seq<W>>)>,
) -> bool {
    &&& history.len() == steps + 1
    &&& history[0] == (unit_matrix(a.len() as int, zero, one), a)
    &&& forall|k: int|
        0 <= k < steps ==> #[trigger] qr_step_from(direction, entry, product, history, k)
}

/// The decomposition of `a`: the last entry of the history of all its reflections.
pub open spec fn qr_decomposition<
    W,
    E: Fn(W, W, bool) -> W,
    P: Fn(&Vec<Vec<W>>, &Vec<Vec<W>>) -> Vec<Vec<W>>,
>(
    direction: spec_fn(Seq<W>, Option<Seq<W>>) -> bool,
    entry: E,
    product: P,
    zero: W,
    one: W,
    a: Seq<Seq<W>>,
    q: Seq<Seq<W>>,
    r: Seq<Seq<W>>,
) -> bool {
    exists|history: Seq<(Seq<Seq<W>>, Seq<Seq<W>>)>|
        {
            &&& #[trigger] qr_history(
                direction,
                entry,
                product,
                zero,
                one,
                a,
                num_reflections(a.len() as int, a[0].len() as int),
                history,
            )
            &&& history.last() == (q, r)
        }
}

/// The history that a decomposition came from.
pub proof fn lemma_decomposition_history<
    W,
    E: Fn(W, W, bool) -> W,
    P: Fn(&Vec<Vec<W>>, &Vec<Vec<W>>) -> Vec<Vec<W>>,
>(
    direction: spec_fn(Seq<W>, Option<Seq<W>>) -> bool,
    entry: E,
    product: P,
    zero: W,
    one: W,
    a: Seq<Seq<W>>,
    q: Seq<Seq<W>>,
    r: Seq<Seq<W>>,
) -> (history: Seq<(Seq<Seq<W>>, Seq<Seq<W>>)>)
    requires
        qr_decomposition(direction, entry, product, zero, one, a, q, r),
    ensures
        qr_history(
            direction,
            entry,
            product,
            zero,
            one,
            a,
            num_reflections(a.len() as int, a[0].len() as int),
            history,
        ),
        history.last() == (q, r),
{
    choose|history: Seq<(Seq<Seq<W>>, Seq<Seq<W>>)>|
        {
            &&& #[trigger] qr_history(
                direction,
                entry,
                product,
                zero,
                one,
                a,
                num_reflections(a.len() as int, a[0].len() as int),
                history,
            )
            &&& history.last() == (q, r)
        }
}

/// The matrix of the reflection by `u`, entry by entry.
fn make_reflection<W: Copy, E: Fn(W, W, bool) -> W>(u: &Vec<W>, entry: &E) -> (r: Vec<Vec<W>>)
    requires
        forall|a: W, b: W, c: bool| #[trigger] call_requires(*entry, (a, b, c)),
    ensures
        reflection(*entry, u@, rows_of(r)),
{
    let mut r: Vec<Vec<W>> = Vec::new();
    for i in 0..u.len()
        invariant
            forall|a: W, b: W, c: bool| #[trigger] call_requires(*entry, (a, b, c)),
            r@.len() == i,
            forall|a: int| 0 <= a < i ==> (#[trigger] r@[a])@.len() == u@.len(),
            forall|a: int, b: int|
                0 <= a < i && 0 <= b < u@.len() ==> call_ensures(
                    *entry,
                    (u@[a], u@[b], a == b),
                    #[trigger] r@[a]@[b],
                ),
    {
        let mut line: Vec<W> = Vec::new();
        for j in 0..u.len()
            invariant
                i < u@.len(),
                forall|a: W, b: W, c: bool| #[trigger] call_requires(*entry, (a, b, c)),
                line@.len() == j,
                forall|b: int|
                    0 <= b < j ==> call_ensures(
                        *entry,
                        (u@[i as int], u@[b], i == b),
                        #[trigger] line@[b],
                    ),
        {
            line.push(entry(u[i], u[j], i == j));
        }
        r.push(line);
    }
    proof {
        assert forall|i: int, j: int| 0 <= i < u@.len() && 0 <= j < u@.len() implies call_ensures(
            *entry,
            (u@[i], u@[j], i == j),
            #[trigger] rows_of(r)[i][j],
        ) by {
            assert(rows_of(r)[i][j] == r@[i]@[j]);
        }
    }
    r
}

/// Whether products of matrices can be asked for and have the shape of a product.
pub open spec fn multiplies<W, P: Fn(&Vec<Vec<W>>, &Vec<Vec<W>>) -> Vec<Vec<W>>>(
    product: P,
) -> bool {
    forall|x: Vec<Vec<W>>, y: Vec<Vec<W>>, l: int, m: int, n: int|
        shaped(rows_of(x), l, m) && shaped(rows_of(y), m, n) ==> {
            &&& call_requires(product, (&x, &y))
            &&& forall|z: Vec<Vec<W>>| #[trigger]
                call_ensures(product, (&x, &y), z) ==> shaped(rows_of(z), l, n)
        }
}

/// Decompose a matrix into an orthogonal and an upper triangular one by Householder
/// reflections.
///
/// Each step takes the part of a column below the diagonal to zero, by multiplying with the
/// matrix `I - 2·u·u^T`, whose entries `entry` gives, for the vector `u` that `direction` gives.
pub fn householder_qr<
    W: Copy,
    U: Fn(&Vec<W>) -> Option<Vec<W>>,
    E: Fn(W, W, bool) -> W,
    P: Fn(&Vec<Vec<W>>, &Vec<Vec<W>>) -> Vec<Vec<W>>,
>(
    a: Vec<Vec<W>>,
    zero: W,
    one: W,
    direction: &U,
    entry: &E,
    product: &P,
) -> (qr: (Vec<Vec<W>>, Vec<Vec<W>>))
    requires
        a@.len() > 0,
        shaped(rows_of(a), a@.len() as int, a@[0]@.len() as int),
        forall|x: Vec<W>| x@.len() > 0 ==> #[trigger] call_requires(*direction, (&x,)),
        forall|x: Vec<W>, u: Option<Vec<W>>| #[trigger]
            call_ensures(*direction, (&x,), u) ==> (u matches Some(v) ==> v@.len() == x@.len()),
        forall|x: W, y: W, c: bool| #[trigger] call_requires(*entry, (x, y, c)),
        multiplies(*product),
    ensures
        shaped(rows_of(qr.0), a@.len() as int, a@.len() as int),
        shaped(rows_of(qr.1), a@.len() as int, a@[0]@.len() as int),
        qr_decomposition(
            vectors_given(*direction),
            *entry,
            *product,
            zero,
            one,
            rows_of(a),
            rows_of(qr.0),
            rows_of(qr.1),
        ),
{
    let m: usize = a.len();
    let n: usize = a[0].len();
    let steps: usize = if n <= m - 1 {
        n
    } else {
        m - 1
    };
    let ghost a_rows = rows_of(a);
    let mut q: Vec<Vec<W>> = make_unit_matrix(m, zero, one);
    let mut r: Vec<Vec<W>> = a;
    let ghost mut history: Seq<(Seq<Seq<W>>, Seq<Seq<W>>)> = seq![(rows_of(q), rows_of(r))];
    for k in 0..steps
        invariant
            steps == num_reflections(m as int, n as int),
            m > 0,
            a_rows.len() == m,
            shaped(rows_of(q), m as int, m as int),
            shaped(rows_of(r), m as int, n as int),
            forall|x: Vec<W>| x@.len() > 0 ==> #[trigger] call_requires(*direction, (&x,)),
            forall|x: Vec<W>, u: Option<Vec<W>>| #[trigger]
                call_ensures(*direction, (&x,), u) ==> (u matches Some(v) ==> v@.len()
                    == x@.len()),
            forall|x: W, y: W, c: bool| #[trigger] call_requires(*entry, (x, y, c)),
            multiplies(*product),
            qr_history(
                vectors_given(*direction),
                *entry,
                *product,
                zero,
                one,
                a_rows,
                k as int,
                history,
            ),
            history.last() == (rows_of(q), rows_of(r)),
    {
        proof {
            assert forall|i: int| 0 <= i < m implies (#[trigger] r@[i])@.len() == n by {
                assert(rows_of(r)[i].len() == n);
            }
            assert forall|i: int| 0 <= i < m implies (#[trigger] q@[i])@.len() == m by {
                assert(rows_of(q)[i].len() == m);
            }
        }
        let ghost before = (rows_of(q), rows_of(r));
        let x: Vec<W> = copy_lower_column(&r, k);
        let u: Option<Vec<W>> = direction(&x);
        assert(result_on(*direction, lower_column(before.1, k as int), u));
        let ghost given = optional_view(u);
        assert(vectors_given(*direction)(lower_column(before.1, k as int), given));
        match u {
            None => {},
            Some(v) => {
                let h: Vec<Vec<W>> = make_reflection(&v, entry);
                let r_part: Vec<Vec<W>> = copy_block(&r, k, k);
                assert(shaped(rows_of(h), m - k, m - k));
                assert(shaped(rows_of(r_part), m - k, n - k));
                let hr: Vec<Vec<W>> = product(&h, &r_part);
                assert(product_result(
                    *product,
                    rows_of(h),
                    block(before.1, k as int, k as int),
                    rows_of(hr),
                ));
                assert(shaped(rows_of(hr), m - k, n - k));
                r = replace_block(&r, k, k, &hr);
                let q_part: Vec<Vec<W>> = copy_block(&q, 0, k);
                assert(shaped(rows_of(q_part), m as int, m - k));
                let qh: Vec<Vec<W>> = product(&q_part, &h);
                assert(product_result(
                    *product,
                    block(before.0, 0, k as int),
                    rows_of(h),
                    rows_of(qh),
                ));
                assert(shaped(rows_of(qh), m as int, m - k));
                q = replace_block(&q, 0, k, &qh);
            },
        }
        proof {
            let after = (rows_of(q), rows_of(r));
            assert(qr_step(vectors_given(*direction), *entry, *product, k as int, before, after));
            let longer = history.push(after);
            assert forall|t: int| 0 <= t < k + 1 implies #[trigger] qr_step_from(
                vectors_given(*direction),
                *entry,
                *product,
                longer,
                t,
            ) by {
                if t < k {
                    assert(qr_step_from(vectors_given(*direction), *entry, *product, history, t));
                }
            }
            history = longer;
        }
    }
    assert(a_rows[0].len() == n);
    assert(qr_history(
        vectors_given(*direction),
        *entry,
        *product,
        zero,
        one,
        a_rows,
        steps as int,
        history,
    ));
    (q, r)
}

/// A step leaves the rows above `k` of the second matrix as they are, and the columns left of
/// `k` of both matrices.
pub proof fn law_qr_step_keeps_finished_part<
    W,
    E: Fn(W, W, bool) -> W,
    P: Fn(&Vec<Vec<W>>, &Vec<Vec<W>>) -> Vec<Vec<W>>,
>(
    direction: spec_fn(Seq<W>, Option<Seq<W>>) -> bool,
    entry: E,
    product: P,
    k: int,
    before: (Seq<Seq<W>>, Seq<Seq<W>>),
    after: (Seq<Seq<W>>, Seq<Seq<W>>),
    num_rows: int,
    num_columns: int,
)
    requires
        0 <= k < num_rows,
        k < num_columns,
        shaped(before.0, num_rows, num_rows),
        shaped(before.1, num_rows, num_columns),
        qr_step(direction, entry, product, k, before, after),
    ensures
        after.0.len() == num_rows,
        after.1.len() == num_rows,
        forall|i: int| 0 <= i < k ==> #[trigger] after.1[i] == before.1[i],
        forall|i: int, j: int|
            0 <= i < num_rows && 0 <= j < k ==> {
                &&& #[trigger] after.0[i][j] == before.0[i][j]
                &&& after.1[i][j] == before.1[i][j]
            },
{
}

// --- Random orthogonal matrices ---

/// Whether `signs` says of each column whether the diagonal entry of `r` in it is non-negative.
pub open spec fn diagonal_signs<W, S: Fn(W) -> bool>(
    nonnegative: S,
    r: Seq<Seq<W>>,
    signs: Seq<bool>,
) -> bool {
    &&& signs.len() == r.len()
    &&& forall|j: int|
        0 <= j < r.len() ==> call_ensures(nonnegative, (r[j][j],), #[trigger] signs[j])
}

/// Whether the entry in row `i` and column `j` of the flat matrix is that of `q`, given the
/// column's sign and narrowed.
pub open spec fn corrected_entry<W, T, A: Fn(W, bool) -> W, N: Fn(W) -> T>(
    signed: A,
    narrow: N,
    q: Seq<Seq<W>>,
    signs: Seq<bool>,
    flat: Seq<T>,
    i: int,
    j: int,
) -> bool {
    exists|v: W| #[trigger]
        call_ensures(signed, (q[i][j], signs[j]), v) && call_ensures(
            narrow,
            (v,),
            flat[i * q.len() + j],
        )
}

/// Whether a flat matrix is `q` with the signs of the diagonal of `r` on its columns.
pub open spec fn sign_corrected<
    W,
    T,
    S: Fn(W) -> bool,
    A: Fn(W, bool) -> W,
    N: Fn(W) -> T,
>(
    nonnegative: S,
    signed: A,
    narrow: N,
    q: Seq<Seq<W>>,
    r: Seq<Seq<W>>,
    flat: Seq<T>,
) -> bool {
    &&& flat.len() == q.len() * q.len()
    &&& exists|signs: Seq<bool>|
        {
            &&& #[trigger] diagonal_signs(nonnegative, r, signs)
            &&& forall|i: int, j: int|
                0 <= i < q.len() && 0 <= j < q.len() ==> #[trigger] corrected_entry(
                    signed,
                    narrow,
                    q,
                    signs,
                    flat,
                    i,
                    j,
                )
        }
}

/// The signs that a matrix was corrected by.
pub proof fn lemma_corrected_signs<
    W,
    T,
    S: Fn(W) -> bool,
    A: Fn(W, bool) -> W,
    N: Fn(W) -> T,
>(
    nonnegative: S,
    signed: A,
    narrow: N,
    q: Seq<Seq<W>>,
    r: Seq<Seq<W>>,
    flat: Seq<T>,
) -> (signs: Seq<bool>)
    requires
        sign_corrected(nonnegative, signed, narrow, q, r, flat),
    ensures
        diagonal_signs(nonnegative, r, signs),
        forall|i: int, j: int|
            0 <= i < q.len() && 0 <= j < q.len() ==> #[trigger] corrected_entry(
                signed,
                narrow,
                q,
                signs,
                flat,
                i,
                j,
            ),
{
    choose|signs: Seq<bool>|
        {
            &&& #[trigger] diagonal_signs(nonnegative, r, signs)
            &&& forall|i: int, j: int|
                0 <= i < q.len() && 0 <= j < q.len() ==> #[trigger] corrected_entry(
                    signed,
                    narrow,
                    q,
                    signs,
                    flat,
                    i,
                    j,
                )
        }
}

/// The orthogonal matrix of a decomposition with each column's sign chosen so that the
/// triangular matrix would have a non-negative diagonal, row by row in one sequence.
///
/// Without this the decomposition of a random matrix would not be uniformly distributed.
pub fn correct_signs<W: Copy, T, S: Fn(W) -> bool, A: Fn(W, bool) -> W, N: Fn(W) -> T>(
    q: &Vec<Vec<W>>,
    r: &Vec<Vec<W>>,
    nonnegative: &S,
    signed: &A,
    narrow: &N,
) -> (flat: Vec<T>)
    requires
        shaped(rows_of(*q), q@.len() as int, q@.len() as int),
        shaped(rows_of(*r), q@.len() as int, q@.len() as int),
        q@.len() * q@.len() <= usize::MAX,
        forall|a: W| #[trigger] call_requires(*nonnegative, (a,)),
        forall|a: W, s: bool| #[trigger] call_requires(*signed, (a, s)),
        forall|a: W| #[trigger] call_requires(*narrow, (a,)),
    ensures
        sign_corrected(*nonnegative, *signed, *narrow, rows_of(*q), rows_of(*r), flat@),
{
    let n: usize = q.len();
    let ghost d = n as int;
    proof {
        assert forall|i: int| 0 <= i < n implies (#[trigger] r@[i])@.len() == n by {
            assert(rows_of(*r)[i].len() == n);
        }
        assert forall|i: int| 0 <= i < n implies (#[trigger] q@[i])@.len() == n by {
            assert(rows_of(*q)[i].len() == n);
        }
        lemma_mul_basics(d);
    }
    let mut signs: Vec<bool> = Vec::new();
    for j in 0..n
        invariant
            r@.len() == n,
            forall|i: int| 0 <= i < n ==> (#[trigger] r@[i])@.len() == n,
            forall|a: W| #[trigger] call_requires(*nonnegative, (a,)),
            signs@.len() == j,
            forall|a: int|
                0 <= a < j ==> call_ensures(*nonnegative, (r@[a]@[a],), #[trigger] signs@[a]),
    {
        signs.push(nonnegative(r[j][j]));
    }
    assert(diagonal_signs(*nonnegative, rows_of(*r), signs@));
    let mut flat: Vec<T> = Vec::new();
    for i in 0..n
        invariant
            d == n == q@.len() == signs@.len(),
            forall|a: int| 0 <= a < n ==> (#[trigger] q@[a])@.len() == n,
            forall|a: W, s: bool| #[trigger] call_requires(*signed, (a, s)),
            forall|a: W| #[trigger] call_requires(*narrow, (a,)),
            flat@.len() == i * d,
            forall|a: int, b: int|
                0 <= a < i && 0 <= b < d ==> #[trigger] corrected_entry(
                    *signed,
                    *narrow,
                    rows_of(*q),
                    signs@,
                    flat@,
                    a,
                    b,
                ),
    {
        for j in 0..n
            invariant
                i < n,
                d == n == q@.len() == signs@.len(),
                forall|a: int| 0 <= a < n ==> (#[trigger] q@[a])@.len() == n,
                forall|a: W, s: bool| #[trigger] call_requires(*signed, (a, s)),
                forall|a: W| #[trigger] call_requires(*narrow, (a,)),
                flat@.len() == i * d + j,
                forall|a: int, b: int|
                    0 <= a < i && 0 <= b < d || a == i && 0 <= b < j
                        ==> #[trigger] corrected_entry(
                        *signed,
                        *narrow,
                        rows_of(*q),
                        signs@,
                        flat@,
                        a,
                        b,
                    ),
        {
            let v: W = signed(q[i][j], signs[j]);
            let ghost before = flat@;
            flat.push(narrow(v));
            proof {
                assert(call_ensures(*signed, (rows_of(*q)[i as int][j as int], signs@[j as int]), v));
                assert forall|a: int, b: int|
                    0 <= a < i && 0 <= b < d || a == i && 0 <= b < j
                        + 1 implies #[trigger] corrected_entry(
                    *signed,
                    *narrow,
                    rows_of(*q),
                    signs@,
                    flat@,
                    a,
                    b,
                ) by {
                    if a < i {
                        lemma_entry(i as int, d, a, b);
                    }
                    if a < i || b < j {
                        assert(corrected_entry(
                            *signed,
                            *narrow,
                            rows_of(*q),
                            signs@,
                            before,
                            a,
                            b,
                        ));
                        assert(flat@[a * d + b] == before[a * d + b]);
                    }
                }
            }
        }
        proof {
            lemma_entry(d, d, i as int, 0);
        }
    }
    flat
}

/// Generate a seeded random orthogonal matrix, row by row in one sequence.
///
/// A square matrix of random numbers is decomposed into an orthogonal and a triangular one,
/// and the orthogonal one's columns are given the signs of the triangular one's diagonal.
pub fn random_orthogonal_seeded<
    W: Copy,
    T,
    G: Fn(usize, u64) -> Vec<Vec<W>>,
    Q: Fn(Vec<Vec<W>>) -> (Vec<Vec<W>>, Vec<Vec<W>>),
    S: Fn(W) -> bool,
    A: Fn(W, bool) -> W,
    N: Fn(W) -> T,
>(
    n: usize,
    seed: u64,
    random_matrix: &G,
    decompose: &Q,
    nonnegative: &S,
    signed: &A,
    narrow: &N,
) -> (flat: Vec<T>)
    requires
        n * n <= usize::MAX,
        call_requires(*random_matrix, (n, seed)),
        forall|a: Vec<Vec<W>>| #[trigger]
            call_ensures(*random_matrix, (n, seed), a) ==> shaped(rows_of(a), n as int, n as int),
        forall|a: Vec<Vec<W>>|
            shaped(rows_of(a), n as int, n as int) ==> #[trigger] call_requires(*decompose, (a,)),
        forall|a: Vec<Vec<W>>, qr: (Vec<Vec<W>>, Vec<Vec<W>>)|
            shaped(rows_of(a), n as int, n as int) && #[trigger] call_ensures(*decompose, (a,), qr)
                ==> shaped(rows_of(qr.0), n as int, n as int) && shaped(
                rows_of(qr.1),
                n as int,
                n as int,
            ),
        forall|a: W| #[trigger] call_requires(*nonnegative, (a,)),
        forall|a: W, s: bool| #[trigger] call_requires(*signed, (a, s)),
        forall|a: W| #[trigger] call_requires(*narrow, (a,)),
    ensures
        flat@.len() == n * n,
        exists|a: Vec<Vec<W>>, qr: (Vec<Vec<W>>, Vec<Vec<W>>)|
            {
                &&& #[trigger] call_ensures(*random_matrix, (n, seed), a)
                &&& #[trigger] call_ensures(*decompose, (a,), qr)
                &&& sign_corrected(
                    *nonnegative,
                    *signed,
                    *narrow,
                    rows_of(qr.0),
                    rows_of(qr.1),
                    flat@,
                )
            },
{
    let a: Vec<Vec<W>> = random_matrix(n, seed);
    let qr: (Vec<Vec<W>>, Vec<Vec<W>>) = decompose(a);
    let flat: Vec<T> = correct_signs(&qr.0, &qr.1, nonnegative, signed, narrow);
    assert(call_ensures(*decompose, (a,), qr));
    flat
}

/// A decomposition by vectors of one kind is one by vectors of a wider kind.
proof fn lemma_decomposition_by_wider_kind<
    W,
    E: Fn(W, W, bool) -> W,
    P: Fn(&Vec<Vec<W>>, &Vec<Vec<W>>) -> Vec<Vec<W>>,
>(
    direction: spec_fn(Seq<W>, Option<Seq<W>>) -> bool,
    wider: spec_fn(Seq<W>, Option<Seq<W>>) -> bool,
    entry: E,
    product: P,
    zero: W,
    one: W,
    a: Seq<Seq<W>>,
    q: Seq<Seq<W>>,
    r: Seq<Seq<W>>,
)
    requires
        forall|x: Seq<W>, u: Option<Seq<W>>| #[trigger] direction(x, u) ==> wider(x, u),
        qr_decomposition(direction, entry, product, zero, one, a, q, r),
    ensures
        qr_decomposition(wider, entry, product, zero, one, a, q, r),
{
    let steps = num_reflections(a.len() as int, a[0].len() as int);
    let history = lemma_decomposition_history(direction, entry, product, zero, one, a, q, r);
    assert forall|k: int| 0 <= k < steps implies #[trigger] qr_step_from(
        wider,
        entry,
        product,
        history,
        k,
    ) by {
        assert(qr_step_from(direction, entry, product, history, k));
        let before = history[k];
        let after = history[k + 1];
        let x = lower_column(before.1, k);
        let parts = lemma_qr_step_parts(direction, entry, product, k, before, after);
        let u = parts.0;
        assert(wider(x, u));
    }
    assert(qr_history(wider, entry, product, zero, one, a, steps, history));
}

/// The arithmetic that matrices are decomposed with.
pub struct MatrixArithmetic<W, N, Z, S, A, V, E, P> {
    /// The number zero.
    pub zero: W,
    /// The number one.
    pub one: W,
    /// The Euclidean norm.
    pub norm: N,
    /// Whether a norm is too small to divide by.
    pub negligible: Z,
    /// Whether a number is not negative.
    pub nonnegative: S,
    /// The sum of two numbers, or their difference where the sign is not set.
    pub shift: A,
    /// The quotient of two numbers.
    pub divide: V,
    /// The entry of `I - 2·u·u^T` for two coordinates of `u`, on the diagonal or off it.
    pub entry: E,
    /// The product of two matrices.
    pub product: P,
}

impl<
    W,
    N: Fn(&Vec<W>) -> W,
    Z: Fn(W) -> bool,
    S: Fn(W) -> bool,
    A: Fn(W, bool, W) -> W,
    V: Fn(W, W) -> W,
    E: Fn(W, W, bool) -> W,
    P: Fn(&Vec<Vec<W>>, &Vec<Vec<W>>) -> Vec<Vec<W>>,
> MatrixArithmetic<W, N, Z, S, A, V, E, P> {
    /// Whether the functions can be called wherever they are needed.
    pub open spec fn callable(self) -> bool {
        &&& forall|v: Vec<W>| #[trigger] call_requires(self.norm, (&v,))
        &&& forall|a: W| #[trigger] call_requires(self.negligible, (a,))
        &&& forall|a: W| #[trigger] call_requires(self.nonnegative, (a,))
        &&& forall|a: W, s: bool, b: W| #[trigger] call_requires(self.shift, (a, s, b))
        &&& forall|a: W, b: W| #[trigger] call_requires(self.divide, (a, b))
        &&& forall|a: W, b: W, c: bool| #[trigger] call_requires(self.entry, (a, b, c))
        &&& multiplies(self.product)
    }

    /// Whether `q` and `r` are the factors of `a`.
    pub open spec fn decomposes(
        self,
        a: Seq<Seq<W>>,
        q: Seq<Seq<W>>,
        r: Seq<Seq<W>>,
    ) -> bool {
        qr_decomposition(
            reflectors(self.norm, self.negligible, self.nonnegative, self.shift, self.divide),
            self.entry,
            self.product,
            self.zero,
            self.one,
            a,
            q,
            r,
        )
    }
}

/// Decompose a matrix into an orthogonal and an upper triangular one.
pub fn decompose<
    W: Copy,
    N: Fn(&Vec<W>) -> W,
    Z: Fn(W) -> bool,
    S: Fn(W) -> bool,
    A: Fn(W, bool, W) -> W,
    V: Fn(W, W) -> W,
    E: Fn(W, W, bool) -> W,
    P: Fn(&Vec<Vec<W>>, &Vec<Vec<W>>) -> Vec<Vec<W>>,
>(a: Vec<Vec<W>>, ops: &MatrixArithmetic<W, N, Z, S, A, V, E, P>) -> (qr: (
    Vec<Vec<W>>,
    Vec<Vec<W>>,
))
    requires
        a@.len() > 0,
        shaped(rows_of(a), a@.len() as int, a@[0]@.len() as int),
        ops.callable(),
    ensures
        shaped(rows_of(qr.0), a@.len() as int, a@.len() as int),
        shaped(rows_of(qr.1), a@.len() as int, a@[0]@.len() as int),
        ops.decomposes(rows_of(a), rows_of(qr.0), rows_of(qr.1)),
{
    let direction = |x: &Vec<W>| -> (u: Option<Vec<W>>)
        requires
            x@.len() > 0,
        ensures
            reflector(
                ops.norm,
                ops.negligible,
                ops.nonnegative,
                ops.shift,
                ops.divide,
                x@,
                optional_view(u),
            ),
            u matches Some(v) ==> v@.len() == x@.len(),
        {
            householder_vector(
                x,
                &ops.norm,
                &ops.negligible,
                &ops.nonnegative,
                &ops.shift,
                &ops.divide,
            )
        };
    let ghost a_rows = rows_of(a);
    let qr: (Vec<Vec<W>>, Vec<Vec<W>>) = householder_qr(
        a,
        ops.zero,
        ops.one,
        &direction,
        &ops.entry,
        &ops.product,
    );
    proof {
        lemma_decomposition_by_wider_kind(
            vectors_given(direction),
            reflectors(ops.norm, ops.negligible, ops.nonnegative, ops.shift, ops.divide),
            ops.entry,
            ops.product,
            ops.zero,
            ops.one,
            a_rows,
            rows_of(qr.0),
            rows_of(qr.1),
        );
    }
    qr
}

/// Whether a flat matrix is the sign-corrected first factor of a random matrix.
pub open spec fn random_orthogonal<
    W,
    T,
    G: Fn(usize, u64) -> Vec<Vec<W>>,
    N: Fn(&Vec<W>) -> W,
    Z: Fn(W) -> bool,
    S: Fn(W) -> bool,
    A: Fn(W, bool, W) -> W,
    V: Fn(W, W) -> W,
    E: Fn(W, W, bool) -> W,
    P: Fn(&Vec<Vec<W>>, &Vec<Vec<W>>) -> Vec<Vec<W>>,
    B: Fn(W, bool) -> W,
    C: Fn(W) -> T,
>(
    random_matrix: G,
    ops: MatrixArithmetic<W, N, Z, S, A, V, E, P>,
    signed: B,
    narrow: C,
    n: usize,
    seed: u64,
    flat: Seq<T>,
) -> bool {
    exists|a: Vec<Vec<W>>, q: Seq<Seq<W>>, r: Seq<Seq<W>>|
        {
            &&& #[trigger] call_ensures(random_matrix, (n, seed), a)
            &&& shaped(rows_of(a), n as int, n as int)
            &&& #[trigger] ops.decomposes(rows_of(a), q, r)
            &&& shaped(q, n as int, n as int)
            &&& shaped(r, n as int, n as int)
            &&& sign_corrected(ops.nonnegative, signed, narrow, q, r, flat)
        }
}

/// The random matrix that a random orthogonal matrix came from, and its factors.
pub proof fn lemma_random_orthogonal_parts<
    W,
    T,
    G: Fn(usize, u64) -> Vec<Vec<W>>,
    N: Fn(&Vec<W>) -> W,
    Z: Fn(W) -> bool,
    S: Fn(W) -> bool,
    A: Fn(W, bool, W) -> W,
    V: Fn(W, W) -> W,
    E: Fn(W, W, bool) -> W,
    P: Fn(&Vec<Vec<W>>, &Vec<Vec<W>>) -> Vec<Vec<W>>,
    B: Fn(W, bool) -> W,
    C: Fn(W) -> T,
>(
    random_matrix: G,
    ops: MatrixArithmetic<W, N, Z, S, A, V, E, P>,
    signed: B,
    narrow: C,
    n: usize,
    seed: u64,
    flat: Seq<T>,
) -> (parts: (Vec<Vec<W>>, Seq<Seq<W>>, Seq<Seq<W>>))
    requires
        random_orthogonal(random_matrix, ops, signed, narrow, n, seed, flat),
    ensures
        call_ensures(random_matrix, (n, seed), parts.0),
        shaped(rows_of(parts.0), n as int, n as int),
        ops.decomposes(rows_of(parts.0), parts.1, parts.2),
        shaped(parts.1, n as int, n as int),
        shaped(parts.2, n as int, n as int),
        sign_corrected(ops.nonnegative, signed, narrow, parts.1, parts.2, flat),
{
    choose|a: Vec<Vec<W>>, q: Seq<Seq<W>>, r: Seq<Seq<W>>|
        {
            &&& #[trigger] call_ensures(random_matrix, (n, seed), a)
            &&& shaped(rows_of(a), n as int, n as int)
            &&& #[trigger] ops.decomposes(rows_of(a), q, r)
            &&& shaped(q, n as int, n as int)
            &&& shaped(r, n as int, n as int)
            &&& sign_corrected(ops.nonnegative, signed, narrow, q, r, flat)
        }
}

/// Generate a seeded random orthogonal matrix, row by row in one sequence: a random matrix is
/// decomposed by Householder reflections, and the signs of its first factor are corrected.
pub fn orthogonal_matrix<
    W: Copy,
    T,
    G: Fn(usize, u64) -> Vec<Vec<W>>,
    N: Fn(&Vec<W>) -> W,
    Z: Fn(W) -> bool,
    S: Fn(W) -> bool,
    A: Fn(W, bool, W) -> W,
    V: Fn(W, W) -> W,
    E: Fn(W, W, bool) -> W,
    P: Fn(&Vec<Vec<W>>, &Vec<Vec<W>>) -> Vec<Vec<W>>,
    B: Fn(W, bool) -> W,
    C: Fn(W) -> T,
>(
    n: usize,
    seed: u64,
    random_matrix: &G,
    ops: &MatrixArithmetic<W, N, Z, S, A, V, E, P>,
    signed: &B,
    narrow: &C,
) -> (flat: Vec<T>)
    requires
        n > 0,
        n * n <= usize::MAX,
        call_requires(*random_matrix, (n, seed)),
        forall|a: Vec<Vec<W>>| #[trigger]
            call_ensures(*random_matrix, (n, seed), a) ==> shaped(rows_of(a), n as int, n as int),
        ops.callable(),
        forall|a: W, s: bool| #[trigger] call_requires(*signed, (a, s)),
        forall|a: W| #[trigger] call_requires(*narrow, (a,)),
    ensures
        flat@.len() == n * n,
        random_orthogonal(*random_matrix, *ops, *signed, *narrow, n, seed, flat@),
{
    let factors = |a: Vec<Vec<W>>| -> (qr: (Vec<Vec<W>>, Vec<Vec<W>>))
        requires
            shaped(rows_of(a), n as int, n as int),
        ensures
            shaped(rows_of(qr.0), n as int, n as int),
            shaped(rows_of(qr.1), n as int, n as int),
            ops.decomposes(rows_of(a), rows_of(qr.0), rows_of(qr.1)),
        {
            assert(a@.len() == n);
            assert(rows_of(a)[0].len() == n);
            decompose(a, ops)
        };
    let flat: Vec<T> = random_orthogonal_seeded(
        n,
        seed,
        random_matrix,
        &factors,
        &ops.nonnegative,
        signed,
        narrow,
    );
    proof {
        let (a, qr) = choose|a: Vec<Vec<W>>, qr: (Vec<Vec<W>>, Vec<Vec<W>>)|
            {
                &&& #[trigger] call_ensures(*random_matrix, (n, seed), a)
                &&& #[trigger] call_ensures(factors, (a,), qr)
                &&& sign_corrected(
                    ops.nonnegative,
                    *signed,
                    *narrow,
                    rows_of(qr.0),
                    rows_of(qr.1),
                    flat@,
                )
            };
        assert(ops.decomposes(rows_of(a), rows_of(qr.0), rows_of(qr.1)));
    }
    flat
}

/// A matrix of single-precision numbers, row by row.
#[derive(Debug)]
pub struct Matrix {
    pub num_rows: usize,
    pub row_len: usize,
    pub values: Vec<Float32>,
}

/// What a matrix holds.
#[verifier::ext_equal]
pub struct MatrixView {
    pub num_rows: nat,
    pub row_len: nat,
    pub values: Seq<Float32>,
}

impl Matrix {
    /// What the matrix holds.
    pub open spec fn view(&self) -> MatrixView {
        MatrixView {
            num_rows: self.num_rows as nat,
            row_len: self.row_len as nat,
            values: self.values@,
        }
    }

    /// Whether there are as many values as the rows hold.
    pub open spec fn wf(&self) -> bool {
        self.values@.len() == self.num_rows * self.row_len
    }

    /// The number of rows.
    pub fn len(&self) -> (r: usize)
        ensures
            r == self.num_rows,
    {
        self.num_rows
    }

    /// The number of values in a row.
    pub fn value_length(&self) -> (r: usize)
        ensures
            r == self.row_len,
    {
        self.row_len
    }

}

impl Clone for Matrix {
    /// A matrix that holds the same.
    fn clone(&self) -> (r: Matrix)
        ensures
            r@ == self@,
    {
        Matrix {
            num_rows: self.num_rows,
            row_len: self.row_len,
            values: slice_to_vec(self.values.as_slice()),
        }
    }
}

/// Whether the matrix is the one of `dim` rows of `dim` values for the seed.
pub open spec fn generated<O: Fn(usize, u64) -> Vec<Float32>>(
    orthogonal: O,
    dim: usize,
    seed: u64,
    matrix: Matrix,
) -> bool {
    &&& matrix.wf()
    &&& matrix.num_rows == dim
    &&& matrix.row_len == dim
    &&& call_ensures(orthogonal, (dim, seed), matrix.values)
}

/// Whether the values for a dimension and a seed are always the same.
pub open spec fn seeded<O: Fn(usize, u64) -> Vec<Float32>>(
    orthogonal: O,
    dim: usize,
    seed: u64,
) -> bool {
    forall|a: Vec<Float32>, b: Vec<Float32>| #[trigger]
        call_ensures(orthogonal, (dim, seed), a) && #[trigger] call_ensures(
            orthogonal,
            (dim, seed),
            b,
        ) ==> a@ == b@
}

/// The same dimension and seed give the same matrix.
pub proof fn law_same_seed_same_matrix<O: Fn(usize, u64) -> Vec<Float32>>(
    orthogonal: O,
    dim: usize,
    seed: u64,
    first: Matrix,
    second: Matrix,
)
    requires
        seeded(orthogonal, dim, seed),
        generated(orthogonal, dim, seed, first),
        generated(orthogonal, dim, seed, second),
    ensures
        first@ == second@,
{
}

/// Generate a seeded random orthogonal matrix of `dim` rows of `dim` values.
///
/// The values are those that `orthogonal` gives for the dimension and the seed.
pub fn generate_rotation_matrix<O: Fn(usize, u64) -> Vec<Float32>>(
    dim: usize,
    seed: u64,
    orthogonal: &O,
) -> (r: Matrix)
    requires
        call_requires(*orthogonal, (dim, seed)),
        forall|values: Vec<Float32>| #[trigger]
            call_ensures(*orthogonal, (dim, seed), values) ==> values@.len() == dim * dim,
    ensures
        generated(*orthogonal, dim, seed, r),
{
    let values: Vec<Float32> = orthogonal(dim, seed);
    Matrix { num_rows: dim, row_len: dim, values }
}

/// Generate a seeded random orthogonal matrix of `dim` rows of `dim` values, by decomposing a
/// random matrix.
pub fn decomposed_rotation_matrix<
    W: Copy,
    G: Fn(usize, u64) -> Vec<Vec<W>>,
    N: Fn(&Vec<W>) -> W,
    Z: Fn(W) -> bool,
    S: Fn(W) -> bool,
    A: Fn(W, bool, W) -> W,
    V: Fn(W, W) -> W,
    E: Fn(W, W, bool) -> W,
    P: Fn(&Vec<Vec<W>>, &Vec<Vec<W>>) -> Vec<Vec<W>>,
    B: Fn(W, bool) -> W,
    C: Fn(W) -> Float32,
>(
    dim: usize,
    seed: u64,
    random_matrix: &G,
    ops: &MatrixArithmetic<W, N, Z, S, A, V, E, P>,
    signed: &B,
    narrow: &C,
) -> (r: Matrix)
    requires
        dim > 0,
        dim * dim <= usize::MAX,
        call_requires(*random_matrix, (dim, seed)),
        forall|a: Vec<Vec<W>>| #[trigger]
            call_ensures(*random_matrix, (dim, seed), a) ==> shaped(
                rows_of(a),
                dim as int,
                dim as int,
            ),
        ops.callable(),
        forall|a: W, s: bool| #[trigger] call_requires(*signed, (a, s)),
        forall|a: W| #[trigger] call_requires(*narrow, (a,)),
    ensures
        r.wf(),
        r.num_rows == dim,
        r.row_len == dim,
        random_orthogonal(*random_matrix, *ops, *signed, *narrow, dim, seed, r.values@),
{
    let orthogonal = |n: usize, s: u64| -> (values: Vec<Float32>)
        requires
            n == dim,
            s == seed,
        ensures
            values@.len() == n * n,
            random_orthogonal(*random_matrix, *ops, *signed, *narrow, n, s, values@),
        { orthogonal_matrix(n, s, random_matrix, ops, signed, narrow) };
    generate_rotation_matrix(dim, seed, &orthogonal)
}

/// The values of a rotation matrix, row by row.
pub fn rotation_as_flat_f32(rotation: &Matrix) -> (r: Vec<Float32>)
    ensures
        r@ == rotation.values@,
{
    slice_to_vec(rotation.values.as_slice())
}

// --- Rotation in exact arithmetic ---

/// The rotated vector, with nothing rounded.
pub open spec fn exact_rotated(x: Seq<real>, rotation: Seq<real>, dim: int) -> Seq<real> {
    Seq::new(dim as nat, |j: int| exact_dot(row(rotation, dim, j), x))
}

/// The vector rotated back, with nothing rounded.
pub open spec fn exact_rotated_back(y: Seq<real>, rotation: Seq<real>, dim: int) -> Seq<real> {
    Seq::new(dim as nat, |j: int| exact_dot(column(rotation, dim, j), y))
}

/// Whether the columns are orthogonal to each other and all of the same length, the square of
/// which is `scale`. Of an orthogonal matrix it is one.
pub open spec fn orthogonal_columns(rotation: Seq<real>, dim: int, scale: real) -> bool {
    forall|i: int, j: int|
        0 <= i < dim && 0 <= j < dim ==> #[trigger] exact_dot(
            column(rotation, dim, i),
            column(rotation, dim, j),
        ) == if i == j {
            scale
        } else {
            0 as real
        }
}

/// Whether the rows are orthogonal to each other and all of the same length, the square of which is
/// `scale`. Of an orthogonal matrix it is one.
pub open spec fn orthogonal_rows(rotation: Seq<real>, dim: int, scale: real) -> bool {
    forall|i: int, j: int|
        0 <= i < dim && 0 <= j < dim ==> #[trigger] exact_dot(
            row(rotation, dim, i),
            row(rotation, dim, j),
        ) == if i == j {
            scale
        } else {
            0 as real
        }
}

/// An entry of a row of a flat matrix.
proof fn lemma_row_entry(rotation: Seq<real>, dim: int, i: int, k: int)
    requires
        0 <= i < dim,
        0 <= k < dim,
        dim * dim <= rotation.len(),
    ensures
        row(rotation, dim, i).len() == dim,
        row(rotation, dim, i)[k] == rotation[i * dim + k],
{
    lemma_entry(dim, dim, i, k);
}

/// The dot product of a rotated vector with another is that of the vector with the other one
/// rotated back: `⟨Π·q, y⟩ = ⟨q, Π^T·y⟩`.
///
/// So distances can be taken in rotated space, without rotating stored vectors back.
pub proof fn law_rotation_moves_across_the_dot_product(
    q: Seq<real>,
    y: Seq<real>,
    rotation: Seq<real>,
    dim: int,
)
    requires
        0 <= dim,
        q.len() == dim,
        y.len() == dim,
        dim * dim <= rotation.len(),
    ensures
        exact_dot(exact_rotated(q, rotation, dim), y) == exact_dot(
            q,
            exact_rotated_back(y, rotation, dim),
        ),
{
    let n = dim as nat;
    let f = |i: int, k: int| rotation[i * dim + k] * q[k] * y[i];
    assert forall|i: int| 0 <= i < n implies #[trigger] exact_rotated(q, rotation, dim)[i] * y[i]
        == sum(n, |k: int| f(i, k)) by {
        let terms = |k: int| row(rotation, dim, i)[k] * q[k];
        lemma_row_entry(rotation, dim, i, 0);
        lemma_sum_scales(n, terms, y[i]);
        lemma_product_rules(y[i], sum(n, terms), 0 as real);
        let scaled = |k: int| y[i] * terms(k);
        assert forall|k: int| 0 <= k < n implies #[trigger] scaled(k) == f(i, k) by {
            lemma_row_entry(rotation, dim, i, k);
            lemma_product_rules(y[i], terms(k), 0 as real);
        }
        lemma_sum_agrees(n, scaled, |k: int| f(i, k));
    }
    assert forall|k: int| 0 <= k < n implies q[k] * #[trigger] exact_rotated_back(
        y,
        rotation,
        dim,
    )[k] == sum(n, |i: int| f(i, k)) by {
        let terms = |i: int| column(rotation, dim, k)[i] * y[i];
        lemma_sum_scales(n, terms, q[k]);
        let scaled = |i: int| q[k] * terms(i);
        assert forall|i: int| 0 <= i < n implies #[trigger] scaled(i) == f(i, k) by {
            lemma_product_rules(q[k], rotation[i * dim + k], y[i]);
        }
        lemma_sum_agrees(n, scaled, |i: int| f(i, k));
    }
    lemma_sum_agrees(
        n,
        |i: int| exact_rotated(q, rotation, dim)[i] * y[i],
        |i: int| sum(n, |k: int| f(i, k)),
    );
    lemma_sum_agrees(
        n,
        |k: int| q[k] * exact_rotated_back(y, rotation, dim)[k],
        |k: int| sum(n, |i: int| f(i, k)),
    );
    lemma_sums_exchange(n, n, f);
}

/// Rotating back undoes rotating, up to the square of the columns' length: for an orthogonal
/// matrix, all of whose columns have length one, `Π^T·(Π·x) = x`.
pub proof fn law_rotating_back_undoes_rotating(
    x: Seq<real>,
    rotation: Seq<real>,
    dim: int,
    scale: real,
)
    requires
        0 <= dim,
        x.len() == dim,
        dim * dim <= rotation.len(),
        orthogonal_columns(rotation, dim, scale),
    ensures
        exact_rotated_back(exact_rotated(x, rotation, dim), rotation, dim) == Seq::new(
            dim as nat,
            |j: int| scale * x[j],
        ),
{
    let n = dim as nat;
    let y = exact_rotated(x, rotation, dim);
    assert forall|j: int| 0 <= j < n implies #[trigger] exact_rotated_back(y, rotation, dim)[j]
        == scale * x[j] by {
        let f = |i: int, k: int| rotation[i * dim + j] * (rotation[i * dim + k] * x[k]);
        let products = |i: int| column(rotation, dim, j)[i] * y[i];
        assert forall|i: int| 0 <= i < n implies #[trigger] products(i) == sum(
            n,
            |k: int| f(i, k),
        ) by {
            let terms = |k: int| row(rotation, dim, i)[k] * x[k];
            lemma_row_entry(rotation, dim, i, 0);
            lemma_sum_scales(n, terms, rotation[i * dim + j]);
            let scaled = |k: int| rotation[i * dim + j] * terms(k);
            assert forall|k: int| 0 <= k < n implies #[trigger] scaled(k) == f(i, k) by {
                lemma_row_entry(rotation, dim, i, k);
            }
            lemma_sum_agrees(n, scaled, |k: int| f(i, k));
        }
        lemma_sum_agrees(n, products, |i: int| sum(n, |k: int| f(i, k)));
        lemma_sums_exchange(n, n, f);
        let g = |k: int| sum(n, |i: int| f(i, k));
        assert forall|k: int| 0 <= k < n implies #[trigger] g(k) == if k == j {
            scale * x[j]
        } else {
            0 as real
        } by {
            let terms = |i: int| column(rotation, dim, j)[i] * column(rotation, dim, k)[i];
            assert(exact_dot(column(rotation, dim, j), column(rotation, dim, k)) == sum(n, terms));
            lemma_sum_scales(n, terms, x[k]);
            let scaled = |i: int| x[k] * terms(i);
            assert forall|i: int| 0 <= i < n implies #[trigger] scaled(i) == f(i, k) by {
                lemma_product_rules(rotation[i * dim + j], rotation[i * dim + k], x[k]);
                lemma_product_rules(x[k], terms(i), 0 as real);
            }
            lemma_sum_agrees(n, scaled, |i: int| f(i, k));
            lemma_product_rules(x[k], sum(n, terms), 0 as real);
        }
        lemma_sum_of_one(n, g, j);
    }
    assert(exact_rotated_back(y, rotation, dim) =~= Seq::new(dim as nat, |j: int| scale * x[j]));
}

/// Column `j` of the transposed matrix is row `j` of the matrix.
proof fn lemma_transposed_columns_are_rows<T>(flat: Seq<T>, dim: int, j: int)
    requires
        0 <= j < dim,
        dim * dim <= flat.len(),
    ensures
        column(transposed(flat, dim), dim, j) == row(flat, dim, j),
{
    lemma_entry(dim, dim, j, 0);
    assert forall|k: int| 0 <= k < dim implies column(transposed(flat, dim), dim, j)[k] == row(
        flat,
        dim,
        j,
    )[k] by {
        lemma_entry(dim, dim, k, j);
        lemma_entry(dim, dim, j, k);
    }
    assert(column(transposed(flat, dim), dim, j) =~= row(flat, dim, j));
}

/// Rotating undoes rotating back, up to the square of the rows' length: for an orthogonal matrix,
/// all of whose rows have length one, `Π·(Π^T·y) = y`.
pub proof fn law_rotating_undoes_rotating_back(
    y: Seq<real>,
    rotation: Seq<real>,
    dim: int,
    scale: real,
)
    requires
        0 <= dim,
        y.len() == dim,
        dim * dim <= rotation.len(),
        orthogonal_rows(rotation, dim, scale),
    ensures
        exact_rotated(exact_rotated_back(y, rotation, dim), rotation, dim) == Seq::new(
            dim as nat,
            |j: int| scale * y[j],
        ),
{
    let turned = transposed(rotation, dim);
    lemma_mul_inequality(0, dim, dim);
    assert forall|i: int, j: int| 0 <= i < dim && 0 <= j < dim implies #[trigger] exact_dot(
        column(turned, dim, i),
        column(turned, dim, j),
    ) == if i == j {
        scale
    } else {
        0 as real
    } by {
        lemma_transposed_columns_are_rows(rotation, dim, i);
        lemma_transposed_columns_are_rows(rotation, dim, j);
    }
    law_rotating_back_undoes_rotating(y, turned, dim, scale);
    let x = exact_rotated_back(y, rotation, dim);
    assert forall|j: int| 0 <= j < dim implies exact_rotated(y, turned, dim)[j] == x[j] by {
        law_transposed_rows_are_columns(rotation, dim, j);
    }
    assert(exact_rotated(y, turned, dim) =~= x);
    assert forall|j: int| 0 <= j < dim implies exact_rotated_back(x, turned, dim)[j]
        == exact_rotated(x, rotation, dim)[j] by {
        lemma_transposed_columns_are_rows(rotation, dim, j);
    }
    assert(exact_rotated_back(x, turned, dim) =~= exact_rotated(x, rotation, dim));
}

/// Rotating keeps dot products, and with them norms and angles, up to the square of the columns'
/// length: for an orthogonal matrix `⟨Π·x, Π·y⟩ = ⟨x, y⟩`.
pub proof fn law_rotation_keeps_dot_products(
    x: Seq<real>,
    y: Seq<real>,
    rotation: Seq<real>,
    dim: int,
    scale: real,
)
    requires
        0 <= dim,
        x.len() == dim,
        y.len() == dim,
        dim * dim <= rotation.len(),
        orthogonal_columns(rotation, dim, scale),
    ensures
        exact_dot(exact_rotated(x, rotation, dim), exact_rotated(y, rotation, dim)) == scale
            * exact_dot(x, y),
{
    let n = dim as nat;
    let z = exact_rotated(y, rotation, dim);
    law_rotation_moves_across_the_dot_product(x, z, rotation, dim);
    law_rotating_back_undoes_rotating(y, rotation, dim, scale);
    let back = exact_rotated_back(z, rotation, dim);
    let terms = |k: int| x[k] * y[k];
    lemma_sum_scales(n, terms, scale);
    let products = |k: int| x[k] * back[k];
    assert forall|k: int| 0 <= k < n implies #[trigger] products(k) == scale * terms(k) by {
        assert(back[k] == scale * y[k]);
        lemma_product_rules(x[k], scale, y[k]);
        lemma_product_rules(scale, x[k], y[k]);
    }
    lemma_sum_agrees(n, products, |k: int| scale * terms(k));
}

/// The values that numbers stand for.
pub open spec fn values_of<T>(numbers: Seq<T>, value: spec_fn(T) -> real) -> Seq<real> {
    numbers.map_values(value)
}

/// Whether `dot` computes dot products without rounding, for numbers that stand for `value`.
pub open spec fn computes_exactly<T, D: Fn(&[T], &[T]) -> T>(
    dot: D,
    value: spec_fn(T) -> real,
) -> bool {
    forall|a: &[T], b: &[T], r: T|
        a@.len() == b@.len() && #[trigger] call_ensures(dot, (a, b), r) ==> value(r) == exact_dot(
            values_of(a@, value),
            values_of(b@, value),
        )
}

/// In exact arithmetic, rotating a batch of vectors and rotating the result back by an
/// orthogonal matrix gives the batch, up to the square of the columns' length.
pub proof fn law_batch_round_trip<T, D: Fn(&[T], &[T]) -> T>(
    dot: D,
    value: spec_fn(T) -> real,
    vectors: Seq<T>,
    rotation: Seq<T>,
    dim: int,
    scale: real,
    output: Seq<T>,
    restored: Seq<T>,
)
    requires
        0 < dim,
        dim * dim <= rotation.len(),
        vectors.len() as int % dim == 0,
        computes_exactly(dot, value),
        orthogonal_columns(values_of(rotation, value), dim, scale),
        rotated(dot, vectors, rotation, dim, output),
        rotated_back(dot, output, rotation, dim, restored),
    ensures
        restored.len() == vectors.len(),
        forall|p: int|
            0 <= p < vectors.len() ==> value(#[trigger] restored[p]) == scale * value(vectors[p]),
{
    let n = vectors.len() as int / dim;
    let turned = values_of(rotation, value);
    lemma_fundamental_div_mod(vectors.len() as int, dim);
    lemma_mul_is_commutative(n, dim);
    lemma_whole_vectors(vectors.len() as int, dim);
    lemma_fundamental_div_mod_converse(output.len() as int, dim, n, 0);
    assert forall|p: int| 0 <= p < vectors.len() implies value(#[trigger] restored[p]) == scale
        * value(vectors[p]) by {
        lemma_position(n, dim, p);
        let i = p / dim;
        let j = p % dim;
        let x = values_of(row(vectors, dim, i), value);
        let y = values_of(row(output, dim, i), value);
        lemma_entry(n, dim, i, 0);
        assert forall|k: int| 0 <= k < dim implies #[trigger] y[k] == exact_rotated(
            x,
            turned,
            dim,
        )[k] by {
            lemma_entry(n, dim, i, k);
            lemma_entry(dim, dim, k, 0);
            assert(rotated_entry(dot, vectors, rotation, dim, output, i, k));
            assert(values_of(row(rotation, dim, k), value) =~= row(turned, dim, k));
        }
        assert(y =~= exact_rotated(x, turned, dim));
        assert(rotated_back_entry(dot, output, rotation, dim, restored, i, j));
        assert forall|k: int| 0 <= k < dim implies #[trigger] values_of(
            column(rotation, dim, j),
            value,
        )[k] == column(turned, dim, j)[k] by {
            lemma_entry(dim, dim, k, j);
        }
        assert(values_of(column(rotation, dim, j), value) =~= column(turned, dim, j));
        law_rotating_back_undoes_rotating(x, turned, dim, scale);
        assert(exact_rotated_back(y, turned, dim)[j] == scale * x[j]);
    }
}

/// In exact arithmetic, the dot product of a rotated query with a vector in rotated space is that
/// of the query with the vector rotated back.
pub proof fn law_dot_product_in_rotated_space<T, D: Fn(&[T], &[T]) -> T>(
    dot: D,
    value: spec_fn(T) -> real,
    query: Seq<T>,
    rotation: Seq<T>,
    dim: int,
    query_rotated: Seq<T>,
    y: Seq<T>,
    r: T,
)
    requires
        0 < dim,
        dim * dim <= rotation.len(),
        query.len() == dim,
        y.len() == dim,
        computes_exactly(dot, value),
        rotated(dot, query, rotation, dim, query_rotated),
        dot_result(dot, query_rotated, y, r),
    ensures
        value(r) == exact_dot(
            values_of(query, value),
            exact_rotated_back(values_of(y, value), values_of(rotation, value), dim),
        ),
{
    let turned = values_of(rotation, value);
    let x = values_of(query, value);
    vstd::arithmetic::div_mod::lemma_div_by_self(dim);
    lemma_mul_basics(dim);
    assert(row(query, dim, 0) =~= query);
    assert forall|k: int| 0 <= k < dim implies #[trigger] values_of(query_rotated, value)[k]
        == exact_rotated(x, turned, dim)[k] by {
        lemma_entry(dim, dim, k, 0);
        assert(rotated_entry(dot, query, rotation, dim, query_rotated, 0, k));
        assert(values_of(row(rotation, dim, k), value) =~= row(turned, dim, k));
    }
    assert(values_of(query_rotated, value) =~= exact_rotated(x, turned, dim));
    law_rotation_moves_across_the_dot_product(x, values_of(y, value), turned, dim);
}

/// Each coordinate of a rotated vector is a dot product of a whole row of the matrix with the whole
/// vector: coordinate `j` of vector `i` that of row `j` with vector `i`.
pub proof fn law_rotated_coordinates<T, D: Fn(&[T], &[T]) -> T>(
    dot: D,
    vectors: Seq<T>,
    rotation: Seq<T>,
    dim: int,
    output: Seq<T>,
    i: int,
    j: int,
)
    requires
        rotated(dot, vectors, rotation, dim, output),
        0 <= i < vectors.len() as int / dim,
        0 <= j < dim,
    ensures
        output.len() == (vectors.len() as int / dim) * dim,
        exists|a: &[T], b: &[T]|
            a@ == rotation.subrange(j * dim, j * dim + dim) && b@ == vectors.subrange(
                i * dim,
                i * dim + dim,
            ) && #[trigger] call_ensures(dot, (a, b), output[i * dim + j]),
{
    assert(rotated_entry(dot, vectors, rotation, dim, output, i, j));
}

/// Each coordinate of a vector that is rotated back is a dot product of a whole column of the matrix
/// with the whole vector: coordinate `j` of vector `i` that of column `j` with vector `i`.
pub proof fn law_rotated_back_coordinates<T, D: Fn(&[T], &[T]) -> T>(
    dot: D,
    vectors: Seq<T>,
    rotation: Seq<T>,
    dim: int,
    output: Seq<T>,
    i: int,
    j: int,
) -> (a: Seq<T>)
    requires
        rotated_back(dot, vectors, rotation, dim, output),
        0 <= i < vectors.len() as int / dim,
        0 <= j < dim,
    ensures
        output.len() == (vectors.len() as int / dim) * dim,
        a.len() == dim,
        forall|k: int| 0 <= k < dim ==> #[trigger] a[k] == rotation[k * dim + j],
        exists|x: &[T], b: &[T]|
            x@ == a && b@ == vectors.subrange(i * dim, i * dim + dim) && #[trigger] call_ensures(
                dot,
                (x, b),
                output[i * dim + j],
            ),
{
    assert(rotated_back_entry(dot, vectors, rotation, dim, output, i, j));
    column(rotation, dim, j)
}

/// Vectors are rotated one by one: rotating two sequences of them put together gives the rotated
/// vectors of the one and then those of the other.
pub proof fn law_rotating_joined_vectors<T, D: Fn(&[T], &[T]) -> T>(
    dot: D,
    rotation: Seq<T>,
    dim: int,
    one: Seq<T>,
    rotated_one: Seq<T>,
    other: Seq<T>,
    rotated_other: Seq<T>,
    rotated_both: Seq<T>,
)
    requires
        forall|a: Seq<T>, b: Seq<T>, r: T, s: T| #[trigger]
            dot_result(dot, a, b, r) && #[trigger] dot_result(dot, a, b, s) ==> r == s,
        dim > 0,
        one.len() % dim as nat == 0,
        other.len() % dim as nat == 0,
        rotated(dot, one, rotation, dim, rotated_one),
        rotated(dot, other, rotation, dim, rotated_other),
        rotated(dot, one + other, rotation, dim, rotated_both),
    ensures
        rotated_both == rotated_one + rotated_other,
{
    let n = one.len() as int / dim;
    let m = other.len() as int / dim;
    lemma_fundamental_div_mod(one.len() as int, dim);
    lemma_fundamental_div_mod(other.len() as int, dim);
    lemma_mul_is_commutative(dim, n);
    lemma_mul_is_commutative(dim, m);
    lemma_mul_is_distributive_add_other_way(dim, n, m);
    lemma_fundamental_div_mod_converse((one + other).len() as int, dim, n + m, 0);
    let joined = rotated_one + rotated_other;
    assert forall|p: int| 0 <= p < joined.len() implies #[trigger] rotated_both[p] == joined[p] by {
        let i = p / dim;
        let j = p % dim;
        lemma_position(n + m, dim, p);
        lemma_entry(n + m, dim, i, j);
        assert(rotated_entry(dot, one + other, rotation, dim, rotated_both, i, j));
        let x = row(one + other, dim, i);
        if i < n {
            lemma_entry(n, dim, i, j);
            assert(rotated_entry(dot, one, rotation, dim, rotated_one, i, j));
            assert(row(one, dim, i) =~= x);
        } else {
            lemma_entry(m, dim, i - n, j);
            lemma_mul_is_distributive_add_other_way(dim, n, i - n);
            assert(rotated_entry(dot, other, rotation, dim, rotated_other, i - n, j));
            assert(row(other, dim, i - n) =~= x);
            assert(p - n * dim == (i - n) * dim + j);
        }
    }
    assert(rotated_both =~= joined);
}

/// A rotation matrix is square and holds what the source of such matrices gives for just this
/// dimension and this seed.
pub proof fn law_generated_matrix_is_that_of_its_seed<O: Fn(usize, u64) -> Vec<Float32>>(
    orthogonal: O,
    dim: usize,
    seed: u64,
    matrix: Matrix,
)
    requires
        generated(orthogonal, dim, seed, matrix),
    ensures
        matrix.num_rows == dim,
        matrix.row_len == dim,
        matrix.values@.len() == dim * dim,
        call_ensures(orthogonal, (dim, seed), matrix.values),
{
}

/// A random orthogonal matrix comes from the random matrix of just its size and its seed: entry by
/// entry it is the first factor of that matrix, with the sign of the column's diagonal entry in the
/// second factor, in single precision, row by row.
pub proof fn law_random_orthogonal_comes_from_its_seed<
    W,
    T,
    G: Fn(usize, u64) -> Vec<Vec<W>>,
    N: Fn(&Vec<W>) -> W,
    Z: Fn(W) -> bool,
    S: Fn(W) -> bool,
    A: Fn(W, bool, W) -> W,
    V: Fn(W, W) -> W,
    E: Fn(W, W, bool) -> W,
    P: Fn(&Vec<Vec<W>>, &Vec<Vec<W>>) -> Vec<Vec<W>>,
    B: Fn(W, bool) -> W,
    C: Fn(W) -> T,
>(
    random_matrix: G,
    ops: MatrixArithmetic<W, N, Z, S, A, V, E, P>,
    signed: B,
    narrow: C,
    n: usize,
    seed: u64,
    flat: Seq<T>,
    i: int,
    j: int,
) -> (parts: (Vec<Vec<W>>, Seq<Seq<W>>, Seq<Seq<W>>, bool, W))
    requires
        random_orthogonal(random_matrix, ops, signed, narrow, n, seed, flat),
        0 <= i < n,
        0 <= j < n,
    ensures
        call_ensures(random_matrix, (n, seed), parts.0),
        parts.0@.len() == n,
        parts.0@[i]@.len() == n,
        ops.decomposes(rows_of(parts.0), parts.1, parts.2),
        flat.len() == n * n,
        call_ensures(ops.nonnegative, (parts.2[j][j],), parts.3),
        call_ensures(signed, (parts.1[i][j], parts.3), parts.4),
        call_ensures(narrow, (parts.4,), flat[i * n + j]),
{
    let (a, q, r) = lemma_random_orthogonal_parts(
        random_matrix,
        ops,
        signed,
        narrow,
        n,
        seed,
        flat,
    );
    assert(rows_of(a)[i].len() == n);
    let signs = lemma_corrected_signs(ops.nonnegative, signed, narrow, q, r, flat);
    assert(corrected_entry(signed, narrow, q, signs, flat, i, j));
    let v = choose|v: W| #[trigger]
        call_ensures(signed, (q[i][j], signs[j]), v) && call_ensures(
            narrow,
            (v,),
            flat[i * q.len() + j],
        );
    (a, q, r, signs[j], v)
}

} // verus!
