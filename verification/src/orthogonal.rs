//! What the decomposition by reflections comes to in exact arithmetic.
//!
//! The arithmetic that [`rotation`](crate::rotation) is given works on numbers of the caller's.
//! Here each number stands for a real one, and the functions compute without rounding: then
//! the first factor is orthogonal, the second one is upper triangular, their product is the
//! matrix that was decomposed, and a random orthogonal matrix is orthogonal.
use vstd::prelude::*;

use crate::linear::{
    column_dot, delta, exact_dot, law_reflection_keeps_orthonormal, law_reflections_cancel,
    lemma_cancel, lemma_column_times_image, lemma_product_not_negative, lemma_product_of_products,
    lemma_product_rules, lemma_square, lemma_sum_adds, lemma_sum_agrees, lemma_sum_differs_at,
    lemma_sum_of_one, lemma_sum_of_squares_vanishes, lemma_sum_of_zeros, lemma_sum_scales,
    lemma_sum_skips_zeros, lemma_unit_matrix_is_orthonormal, orthonormal, product_entry,
    reflected_from_left, reflected_from_right, row_dot, row_times, sum, times_column, unit_vector,
};
use crate::rotation::{
    block, column, computes_exactly, corrected_entry, law_batch_round_trip, lemma_corrected_signs,
    lemma_decomposition_history, lemma_entry, lemma_qr_step_parts, lemma_random_orthogonal_parts,
    lower_column, num_reflections, orthogonal_columns, orthogonal_rows, product_result,
    qr_decomposition, qr_history, qr_step_from, random_orthogonal, reflection, reflector,
    reflectors, result_on, rotated, rotated_back, row, rows_of, shaped, sign_corrected, unit_matrix,
    values_of, with_block, MatrixArithmetic,
};

verus! {

/// The real numbers that a matrix stands for.
pub open spec fn matrix_values<W>(matrix: Seq<Seq<W>>, value: spec_fn(W) -> real) -> spec_fn(
    int,
    int,
) -> real {
    |i: int, j: int| value(matrix[i][j])
}

/// Whether the entries of reflections are computed without rounding: those of `I - 2·u·u^T`.
pub open spec fn exact_entries<W, E: Fn(W, W, bool) -> W>(
    entry: E,
    value: spec_fn(W) -> real,
) -> bool {
    forall|a: W, b: W, diagonal: bool, r: W| #[trigger]
        call_ensures(entry, (a, b, diagonal), r) ==> value(r) == (if diagonal {
            1 as real
        } else {
            0 as real
        }) - 2 as real * (value(a) * value(b))
}

/// Whether `z` is the product of two matrices with `m` columns and rows.
pub open spec fn exact_product<W>(
    value: spec_fn(W) -> real,
    a: Seq<Seq<W>>,
    b: Seq<Seq<W>>,
    z: Seq<Seq<W>>,
    l: int,
    m: int,
    n: int,
) -> bool {
    &&& shaped(z, l, n)
    &&& forall|i: int, j: int|
        0 <= i < l && 0 <= j < n ==> value(#[trigger] z[i][j]) == product_entry(
            m as nat,
            matrix_values(a, value),
            matrix_values(b, value),
            i,
            j,
        )
}

/// Whether products of matrices are computed without rounding.
pub open spec fn exact_products<W, P: Fn(&Vec<Vec<W>>, &Vec<Vec<W>>) -> Vec<Vec<W>>>(
    product: P,
    value: spec_fn(W) -> real,
) -> bool {
    forall|a: Vec<Vec<W>>, b: Vec<Vec<W>>, z: Vec<Vec<W>>, l: int, m: int, n: int|
        #![trigger call_ensures(product, (&a, &b), z), shaped(rows_of(a), l, m), shaped(rows_of(b), m, n)]
        call_ensures(product, (&a, &b), z) && shaped(rows_of(a), l, m) && shaped(rows_of(b), m, n)
            ==> exact_product(value, rows_of(a), rows_of(b), rows_of(z), l, m, n)
}

/// The square of a vector's length.
pub open spec fn squared_length<W>(u: Seq<W>, value: spec_fn(W) -> real) -> real {
    sum(u.len(), |i: int| value(u[i]) * value(u[i]))
}

/// The dot product of two vectors of the same length.
pub open spec fn dot_of_values<W>(u: Seq<W>, x: Seq<W>, value: spec_fn(W) -> real) -> real {
    sum(u.len(), |i: int| value(u[i]) * value(x[i]))
}

/// Whether all vectors to reflect by have length one.
pub open spec fn unit_directions<W>(
    direction: spec_fn(Seq<W>, Option<Seq<W>>) -> bool,
    value: spec_fn(W) -> real,
) -> bool {
    forall|x: Seq<W>, u: Option<Seq<W>>|
        x.len() > 0 && #[trigger] direction(x, u) ==> (u matches Some(v) ==> v.len() == x.len()
            && squared_length(v, value) == 1 as real)
}

/// Whether reflecting takes all numbers but the first to zero, or they are zero where there is
/// nothing to reflect by.
pub open spec fn annihilates<W>(
    direction: spec_fn(Seq<W>, Option<Seq<W>>) -> bool,
    value: spec_fn(W) -> real,
) -> bool {
    forall|x: Seq<W>, u: Option<Seq<W>>, i: int|
        #![trigger direction(x, u), x[i]]
        1 <= i < x.len() && direction(x, u) ==> value(x[i]) == match u {
            Some(v) => 2 as real * (value(v[i]) * dot_of_values(v, x, value)),
            None => 0 as real,
        }
}

/// The vector to reflect by with `k` zeros in front.
pub open spec fn padded<W>(u: Seq<W>, k: int, value: spec_fn(W) -> real) -> spec_fn(int) -> real {
    |i: int|
        if i < k {
            0 as real
        } else {
            value(u[i - k])
        }
}

proof fn lemma_padded_is_unit<W>(u: Seq<W>, k: nat, value: spec_fn(W) -> real)
    requires
        squared_length(u, value) == 1 as real,
    ensures
        unit_vector(k + u.len(), padded(u, k as int, value)),
{
    let w = padded(u, k as int, value);
    let f = |l: int| w(l) * w(l);
    assert forall|i: int| 0 <= i < k implies #[trigger] f(i) == 0 as real by {
        lemma_product_rules(w(i), 0 as real, 0 as real);
    }
    lemma_sum_skips_zeros(k, u.len(), f);
    lemma_sum_agrees(u.len(), |i: int| f(k + i), |i: int| value(u[i]) * value(u[i]));
}

/// A row of a matrix times the padded vector: only what is behind the zeros counts.
proof fn lemma_row_times_padded<W>(
    q: spec_fn(int, int) -> real,
    u: Seq<W>,
    k: nat,
    value: spec_fn(W) -> real,
    i: int,
)
    ensures
        row_times(k + u.len(), q, padded(u, k as int, value), i) == sum(
            u.len(),
            |l: int| q(i, k + l) * value(u[l]),
        ),
{
    let w = padded(u, k as int, value);
    let f = |l: int| q(i, l) * w(l);
    assert forall|l: int| 0 <= l < k implies #[trigger] f(l) == 0 as real by {
        lemma_product_rules(q(i, l), 0 as real, 0 as real);
    }
    lemma_sum_skips_zeros(k, u.len(), f);
    lemma_sum_agrees(u.len(), |l: int| f(k + l), |l: int| q(i, k + l) * value(u[l]));
}

/// The padded vector times a column of a matrix.
proof fn lemma_padded_times_column<W>(
    r: spec_fn(int, int) -> real,
    u: Seq<W>,
    k: nat,
    value: spec_fn(W) -> real,
    j: int,
)
    ensures
        times_column(k + u.len(), padded(u, k as int, value), r, j) == sum(
            u.len(),
            |l: int| value(u[l]) * r(k + l, j),
        ),
{
    let w = padded(u, k as int, value);
    let f = |l: int| w(l) * r(l, j);
    assert forall|l: int| 0 <= l < k implies #[trigger] f(l) == 0 as real by {
        lemma_product_rules(r(l, j), 0 as real, 0 as real);
    }
    lemma_sum_skips_zeros(k, u.len(), f);
    lemma_sum_agrees(u.len(), |l: int| f(k + l), |l: int| value(u[l]) * r(k + l, j));
}

/// The sum of `c(l) * (δ(l, j) - 2 * (v(l) * v(j)))` over `l`.
proof fn lemma_sum_with_reflection(
    n: nat,
    c: spec_fn(int) -> real,
    v: spec_fn(int) -> real,
    t: spec_fn(int) -> real,
    j: int,
)
    requires
        0 <= j < n,
        forall|l: int|
            0 <= l < n ==> #[trigger] t(l) == c(l) * (delta(l, j) - 2 as real * (v(l) * v(j))),
    ensures
        sum(n, t) == c(j) - 2 as real * (sum(n, |l: int| c(l) * v(l)) * v(j)),
{
    let d = |l: int| c(l) * delta(l, j);
    let g = |l: int| c(l) * v(l);
    let scaled = |l: int| -(2 as real * v(j)) * g(l);
    assert forall|l: int| 0 <= l < n implies #[trigger] t(l) == d(l) + scaled(l) by {
        let y = v(l) * v(j);
        lemma_product_rules(c(l), delta(l, j), y + y);
        lemma_product_rules(c(l), y, y);
        lemma_product_rules(c(l), v(l), v(j));
        lemma_product_rules(g(l), v(j), v(j));
        lemma_product_rules(g(l), 0 as real, v(j) + v(j));
        lemma_product_rules(g(l), -(2 as real * v(j)), 0 as real);
        assert(-(2 as real * v(j)) == 0 as real - (v(j) + v(j)));
    }
    lemma_sum_adds(n, d, scaled);
    lemma_sum_agrees(n, t, |l: int| d(l) + scaled(l));
    lemma_sum_scales(n, g, -(2 as real * v(j)));
    assert forall|l: int| 0 <= l < n && l != j implies #[trigger] d(l) == 0 as real by {
        lemma_product_rules(c(l), 0 as real, 0 as real);
    }
    lemma_sum_of_one(n, d, j);
    lemma_product_rules(c(j), 0 as real, 0 as real);
    let s = sum(n, g);
    lemma_product_rules(s, 0 as real, v(j) + v(j));
    lemma_product_rules(s, v(j), v(j));
    lemma_product_rules(s, -(2 as real * v(j)), 0 as real);
    assert(-(2 as real * v(j)) == 0 as real - (v(j) + v(j)));
}

// --- A step of the decomposition ---

/// What a step makes of the first matrix: a reflection from the right.
proof fn lemma_first_factor_reflected<
    W,
    E: Fn(W, W, bool) -> W,
    P: Fn(&Vec<Vec<W>>, &Vec<Vec<W>>) -> Vec<Vec<W>>,
>(
    value: spec_fn(W) -> real,
    entry: E,
    product: P,
    m: int,
    k: int,
    q: Seq<Seq<W>>,
    u: Seq<W>,
    h: Seq<Seq<W>>,
    qh: Seq<Seq<W>>,
)
    requires
        0 <= k < m,
        shaped(q, m, m),
        u.len() == m - k,
        exact_entries(entry, value),
        exact_products(product, value),
        reflection(entry, u, h),
        product_result(product, block(q, 0, k), h, qh),
    ensures
        shaped(with_block(q, 0, k, qh), m, m),
        reflected_from_right(
            m as nat,
            matrix_values(q, value),
            padded(u, k, value),
            matrix_values(with_block(q, 0, k, qh), value),
        ),
{
    let part = block(q, 0, k);
    let n = m - k;
    assert(shaped(part, m, n));
    assert(shaped(h, n, n));
    assert(exact_product(value, part, h, qh, m, n, n));
    let after = with_block(q, 0, k, qh);
    let qv = matrix_values(q, value);
    let av = matrix_values(after, value);
    let w = padded(u, k, value);
    assert forall|i: int| 0 <= i < m implies (#[trigger] after[i]).len() == m by {
        assert(q[i].len() == m);
        assert(qh[i].len() == n);
    }
    assert forall|i: int, j: int| 0 <= i < m && 0 <= j < m implies #[trigger] av(i, j) == qv(i, j)
        - 2 as real * (row_times(m as nat, qv, w, i) * w(j)) by {
        assert(q[i].len() == m);
        if j < k {
            lemma_product_rules(row_times(m as nat, qv, w, i), 0 as real, 0 as real);
        } else {
            let jj = j - k;
            assert(after[i][j] == qh[i][jj]);
            let c = |l: int| qv(i, k + l);
            let v = |l: int| value(u[l]);
            let t = |l: int| matrix_values(part, value)(i, l) * matrix_values(h, value)(l, jj);
            assert forall|l: int| 0 <= l < n implies #[trigger] t(l) == c(l) * (delta(l, jj)
                - 2 as real * (v(l) * v(jj))) by {
                assert(part[i][l] == q[i][k + l]);
                assert(call_ensures(entry, (u[l], u[jj], l == jj), h[l][jj]));
            }
            lemma_sum_with_reflection(n as nat, c, v, t, jj);
            assert(value(qh[i][jj]) == sum(n as nat, t));
            lemma_row_times_padded(qv, u, k as nat, value, i);
            lemma_sum_agrees(
                n as nat,
                |l: int| c(l) * v(l),
                |l: int| qv(i, k + l) * value(u[l]),
            );
        }
    }
}

/// What a step makes of the second matrix: a reflection from the left of the columns from `k` on.
proof fn lemma_second_factor_reflected<
    W,
    E: Fn(W, W, bool) -> W,
    P: Fn(&Vec<Vec<W>>, &Vec<Vec<W>>) -> Vec<Vec<W>>,
>(
    value: spec_fn(W) -> real,
    entry: E,
    product: P,
    m: int,
    n: int,
    k: int,
    r: Seq<Seq<W>>,
    u: Seq<W>,
    h: Seq<Seq<W>>,
    hr: Seq<Seq<W>>,
)
    requires
        0 <= k < m,
        k < n,
        shaped(r, m, n),
        u.len() == m - k,
        exact_entries(entry, value),
        exact_products(product, value),
        reflection(entry, u, h),
        product_result(product, h, block(r, k, k), hr),
    ensures
        shaped(with_block(r, k, k, hr), m, n),
        forall|j: int|
            k <= j < n ==> #[trigger] reflected_from_left(
                m as nat,
                padded(u, k, value),
                matrix_values(r, value),
                matrix_values(with_block(r, k, k, hr), value),
                j,
            ),
        forall|i: int, j: int|
            0 <= i < m && 0 <= j < k ==> #[trigger] with_block(r, k, k, hr)[i][j] == r[i][j],
{
    let part = block(r, k, k);
    let p = m - k;
    assert(shaped(part, p, n - k));
    assert(shaped(h, p, p));
    assert(exact_product(value, h, part, hr, p, p, n - k));
    let after = with_block(r, k, k, hr);
    let rv = matrix_values(r, value);
    let av = matrix_values(after, value);
    let w = padded(u, k, value);
    assert forall|i: int| 0 <= i < m implies (#[trigger] after[i]).len() == n by {
        assert(r[i].len() == n);
        if i >= k {
            assert(hr[i - k].len() == n - k);
        }
    }
    assert forall|i: int, j: int|
        0 <= i < m && 0 <= j < k implies #[trigger] after[i][j] == r[i][j] by {
        assert(r[i].len() == n);
    }
    assert forall|j: int| k <= j < n implies #[trigger] reflected_from_left(
        m as nat,
        w,
        rv,
        av,
        j,
    ) by {
        assert forall|i: int| 0 <= i < m implies #[trigger] av(i, j) == rv(i, j) - 2 as real * (w(i)
            * times_column(m as nat, w, rv, j)) by {
            assert(r[i].len() == n);
            if i < k {
                lemma_product_rules(times_column(m as nat, w, rv, j), 0 as real, 0 as real);
            } else {
                let ii = i - k;
                let jj = j - k;
                assert(after[i][j] == hr[ii][jj]);
                let c = |l: int| rv(k + l, j);
                let v = |l: int| value(u[l]);
                let t = |l: int| matrix_values(h, value)(ii, l) * matrix_values(part, value)(l, jj);
                assert forall|l: int| 0 <= l < p implies #[trigger] t(l) == c(l) * (delta(l, ii)
                    - 2 as real * (v(l) * v(ii))) by {
                    assert(r[k + l].len() == n);
                    assert(part[l][jj] == r[k + l][j]);
                    assert(call_ensures(entry, (u[ii], u[l], ii == l), h[ii][l]));
                    lemma_product_rules(v(l), v(ii), 0 as real);
                    lemma_product_rules(c(l), matrix_values(h, value)(ii, l), 0 as real);
                }
                lemma_sum_with_reflection(p as nat, c, v, t, ii);
                assert(value(hr[ii][jj]) == sum(p as nat, t));
                lemma_padded_times_column(rv, u, k as nat, value, j);
                let cv = |l: int| c(l) * v(l);
                assert forall|l: int| 0 <= l < p implies #[trigger] cv(l) == value(u[l]) * rv(
                    k + l,
                    j,
                ) by {
                    lemma_product_rules(c(l), v(l), 0 as real);
                }
                lemma_sum_agrees(p as nat, cv, |l: int| value(u[l]) * rv(k + l, j));
                lemma_product_rules(sum(p as nat, cv), v(ii), 0 as real);
            }
        }
    }
}

/// The unit matrix stands for the real unit matrix.
proof fn lemma_unit_matrix_values<W>(n: int, zero: W, one: W, value: spec_fn(W) -> real)
    requires
        0 <= n,
        value(zero) == 0 as real,
        value(one) == 1 as real,
    ensures
        shaped(unit_matrix(n, zero, one), n, n),
        orthonormal(n as nat, matrix_values(unit_matrix(n, zero, one), value)),
{
    let q = matrix_values(unit_matrix(n, zero, one), value);
    let d = |i: int, j: int| delta(i, j);
    lemma_unit_matrix_is_orthonormal(n as nat);
    assert forall|i: int, j: int| 0 <= i < n && 0 <= j < n implies #[trigger] column_dot(
        n as nat,
        q,
        i,
        j,
    ) == delta(i, j) by {
        assert(column_dot(n as nat, d, i, j) == delta(i, j));
        let f = |k: int| q(k, i) * q(k, j);
        assert forall|k: int| 0 <= k < n implies #[trigger] f(k) == d(k, i) * d(k, j) by {
            assert(unit_matrix(n, zero, one)[k][i] == if k == i {
                one
            } else {
                zero
            });
            assert(unit_matrix(n, zero, one)[k][j] == if k == j {
                one
            } else {
                zero
            });
        }
        lemma_sum_agrees(n as nat, f, |k: int| d(k, i) * d(k, j));
    }
    assert forall|i: int, j: int| 0 <= i < n && 0 <= j < n implies #[trigger] row_dot(
        n as nat,
        q,
        i,
        j,
    ) == delta(i, j) by {
        assert(row_dot(n as nat, d, i, j) == delta(i, j));
        let f = |k: int| q(i, k) * q(j, k);
        assert forall|k: int| 0 <= k < n implies #[trigger] f(k) == d(i, k) * d(j, k) by {
            assert(unit_matrix(n, zero, one)[i][k] == if i == k {
                one
            } else {
                zero
            });
            assert(unit_matrix(n, zero, one)[j][k] == if j == k {
                one
            } else {
                zero
            });
        }
        lemma_sum_agrees(n as nat, f, |k: int| d(i, k) * d(j, k));
    }
}

// --- The first factor ---

proof fn lemma_first_factors_orthonormal<
    W,
    E: Fn(W, W, bool) -> W,
    P: Fn(&Vec<Vec<W>>, &Vec<Vec<W>>) -> Vec<Vec<W>>,
>(
    value: spec_fn(W) -> real,
    direction: spec_fn(Seq<W>, Option<Seq<W>>) -> bool,
    entry: E,
    product: P,
    zero: W,
    one: W,
    a: Seq<Seq<W>>,
    steps: int,
    history: Seq<(Seq<Seq<W>>, Seq<Seq<W>>)>,
    t: int,
)
    requires
        0 <= t <= steps < a.len(),
        value(zero) == 0 as real,
        value(one) == 1 as real,
        unit_directions(direction, value),
        exact_entries(entry, value),
        exact_products(product, value),
        qr_history(direction, entry, product, zero, one, a, steps, history),
    ensures
        shaped(history[t].0, a.len() as int, a.len() as int),
        history[t].1.len() == a.len(),
        orthonormal(a.len(), matrix_values(history[t].0, value)),
    decreases t,
{
    let m = a.len() as int;
    if t == 0 {
        lemma_unit_matrix_values(m, zero, one, value);
    } else {
        let k = t - 1;
        lemma_first_factors_orthonormal(
            value,
            direction,
            entry,
            product,
            zero,
            one,
            a,
            steps,
            history,
            k,
        );
        assert(qr_step_from(direction, entry, product, history, k));
        let before = history[k];
        let after = history[k + 1];
        let x = lower_column(before.1, k);
        let (u, h, hr, qh) = lemma_qr_step_parts(direction, entry, product, k, before, after);
        match u {
            None => {},
            Some(v) => {
                assert(v.len() == x.len());
                lemma_first_factor_reflected(value, entry, product, m, k, before.0, v, h, qh);
                lemma_padded_is_unit(v, k as nat, value);
                law_reflection_keeps_orthonormal(
                    m as nat,
                    matrix_values(before.0, value),
                    padded(v, k, value),
                    matrix_values(after.0, value),
                );
            },
        }
    }
}

/// The first factor of a decomposition is orthogonal: its columns have length one and are
/// orthogonal to each other, and so do its rows.
pub proof fn law_first_factor_is_orthogonal<
    W,
    E: Fn(W, W, bool) -> W,
    P: Fn(&Vec<Vec<W>>, &Vec<Vec<W>>) -> Vec<Vec<W>>,
>(
    value: spec_fn(W) -> real,
    direction: spec_fn(Seq<W>, Option<Seq<W>>) -> bool,
    entry: E,
    product: P,
    zero: W,
    one: W,
    a: Seq<Seq<W>>,
    q: Seq<Seq<W>>,
    r: Seq<Seq<W>>,
)
    requires
        a.len() > 0,
        value(zero) == 0 as real,
        value(one) == 1 as real,
        unit_directions(direction, value),
        exact_entries(entry, value),
        exact_products(product, value),
        qr_decomposition(direction, entry, product, zero, one, a, q, r),
    ensures
        shaped(q, a.len() as int, a.len() as int),
        orthonormal(a.len(), matrix_values(q, value)),
{
    let steps = num_reflections(a.len() as int, a[0].len() as int);
    let history = lemma_decomposition_history(direction, entry, product, zero, one, a, q, r);
    lemma_first_factors_orthonormal(
        value,
        direction,
        entry,
        product,
        zero,
        one,
        a,
        steps,
        history,
        steps,
    );
}

// --- The second factor and the product ---

/// Whether the entries of the first `t` columns below the diagonal are zero.
pub open spec fn zero_below_diagonal<W>(
    r: Seq<Seq<W>>,
    value: spec_fn(W) -> real,
    num_rows: int,
    t: int,
) -> bool {
    forall|i: int, j: int|
        0 <= j < t && j < i < num_rows ==> value(#[trigger] r[i][j]) == 0 as real
}

/// Whether the product of two factors is the matrix.
pub open spec fn factors_of<W>(
    value: spec_fn(W) -> real,
    q: Seq<Seq<W>>,
    r: Seq<Seq<W>>,
    a: Seq<Seq<W>>,
    num_rows: int,
    num_columns: int,
) -> bool {
    forall|i: int, j: int|
        0 <= i < num_rows && 0 <= j < num_columns ==> #[trigger] product_entry(
            num_rows as nat,
            matrix_values(q, value),
            matrix_values(r, value),
            i,
            j,
        ) == value(a[i][j])
}

/// A step by a reflection keeps the product and takes one more column to zero.
proof fn lemma_step_keeps_product<W>(
    value: spec_fn(W) -> real,
    m: int,
    n: int,
    k: int,
    a: Seq<Seq<W>>,
    q: Seq<Seq<W>>,
    r: Seq<Seq<W>>,
    q_after: Seq<Seq<W>>,
    r_after: Seq<Seq<W>>,
    u: Seq<W>,
)
    requires
        0 <= k < m,
        k < n,
        u.len() == m - k,
        squared_length(u, value) == 1 as real,
        forall|i: int|
            1 <= i < m - k ==> value(#[trigger] lower_column(r, k)[i]) == 2 as real * (value(u[i])
                * dot_of_values(u, lower_column(r, k), value)),
        shaped(r, m, n),
        zero_below_diagonal(r, value, m, k),
        factors_of(value, q, r, a, m, n),
        reflected_from_right(
            m as nat,
            matrix_values(q, value),
            padded(u, k, value),
            matrix_values(q_after, value),
        ),
        forall|j: int|
            k <= j < n ==> #[trigger] reflected_from_left(
                m as nat,
                padded(u, k, value),
                matrix_values(r, value),
                matrix_values(r_after, value),
                j,
            ),
        forall|i: int, j: int| 0 <= i < m && 0 <= j < k ==> #[trigger] r_after[i][j] == r[i][j],
    ensures
        zero_below_diagonal(r_after, value, m, k + 1),
        factors_of(value, q_after, r_after, a, m, n),
{
    let w = padded(u, k, value);
    let qv = matrix_values(q, value);
    let rv = matrix_values(r, value);
    let qav = matrix_values(q_after, value);
    let rav = matrix_values(r_after, value);
    lemma_padded_is_unit(u, k as nat, value);
    assert forall|j: int| 0 <= j < n implies #[trigger] reflected_from_left(
        m as nat,
        w,
        rv,
        rav,
        j,
    ) by {
        if j < k {
            let f = |l: int| w(l) * rv(l, j);
            assert forall|l: int| 0 <= l < m implies #[trigger] f(l) == 0 as real by {
                if l < k {
                    lemma_product_rules(rv(l, j), 0 as real, 0 as real);
                } else {
                    assert(value(r[l][j]) == 0 as real);
                    lemma_product_rules(w(l), 0 as real, 0 as real);
                }
            }
            lemma_sum_of_zeros(m as nat, f);
            assert forall|i: int| 0 <= i < m implies #[trigger] rav(i, j) == rv(i, j) - 2 as real
                * (w(i) * times_column(m as nat, w, rv, j)) by {
                lemma_product_rules(w(i), 0 as real, 0 as real);
                assert(r_after[i][j] == r[i][j]);
            }
        }
    }
    assert forall|i: int, j: int| 0 <= i < m && 0 <= j < n implies #[trigger] product_entry(
        m as nat,
        qav,
        rav,
        i,
        j,
    ) == value(a[i][j]) by {
        assert(reflected_from_left(m as nat, w, rv, rav, j));
        law_reflections_cancel(m as nat, qv, rv, w, qav, rav, i, j);
        assert(product_entry(m as nat, qv, rv, i, j) == value(a[i][j]));
    }
    assert forall|i: int, j: int| 0 <= j < k + 1 && j < i < m implies value(
        #[trigger] r_after[i][j],
    ) == 0 as real by {
        if j < k {
            assert(r_after[i][j] == r[i][j]);
            assert(value(r[i][j]) == 0 as real);
        } else {
            let x = lower_column(r, k);
            assert(reflected_from_left(m as nat, w, rv, rav, k));
            assert(rav(i, k) == rv(i, k) - 2 as real * (w(i) * times_column(m as nat, w, rv, k)));
            lemma_padded_times_column(rv, u, k as nat, value, k);
            lemma_sum_agrees(
                u.len(),
                |l: int| value(u[l]) * rv(k + l, k),
                |l: int| value(u[l]) * value(x[l]),
            );
            assert(value(x[i - k]) == 2 as real * (value(u[i - k]) * dot_of_values(u, x, value)));
            assert(x[i - k] == r[i][k]);
        }
    }
}

proof fn lemma_factors_in_history<
    W,
    E: Fn(W, W, bool) -> W,
    P: Fn(&Vec<Vec<W>>, &Vec<Vec<W>>) -> Vec<Vec<W>>,
>(
    value: spec_fn(W) -> real,
    direction: spec_fn(Seq<W>, Option<Seq<W>>) -> bool,
    entry: E,
    product: P,
    zero: W,
    one: W,
    a: Seq<Seq<W>>,
    n: int,
    steps: int,
    history: Seq<(Seq<Seq<W>>, Seq<Seq<W>>)>,
    t: int,
)
    requires
        0 <= t <= steps < a.len(),
        steps <= n,
        shaped(a, a.len() as int, n),
        value(zero) == 0 as real,
        value(one) == 1 as real,
        unit_directions(direction, value),
        annihilates(direction, value),
        exact_entries(entry, value),
        exact_products(product, value),
        qr_history(direction, entry, product, zero, one, a, steps, history),
    ensures
        shaped(history[t].0, a.len() as int, a.len() as int),
        shaped(history[t].1, a.len() as int, n),
        zero_below_diagonal(history[t].1, value, a.len() as int, t),
        factors_of(value, history[t].0, history[t].1, a, a.len() as int, n),
    decreases t,
{
    let m = a.len() as int;
    if t == 0 {
        lemma_unit_matrix_values(m, zero, one, value);
        let q = history[0].0;
        let qv = matrix_values(q, value);
        let rv = matrix_values(a, value);
        assert forall|i: int, j: int| 0 <= i < m && 0 <= j < n implies #[trigger] product_entry(
            m as nat,
            qv,
            rv,
            i,
            j,
        ) == value(a[i][j]) by {
            let f = |l: int| qv(i, l) * rv(l, j);
            assert forall|l: int| 0 <= l < m && l != i implies #[trigger] f(l) == 0 as real by {
                assert(q[i][l] == zero);
                lemma_product_rules(rv(l, j), 0 as real, 0 as real);
            }
            lemma_sum_of_one(m as nat, f, i);
            assert(q[i][i] == one);
            lemma_product_rules(rv(i, j), 1 as real, 0 as real);
        }
    } else {
        let k = t - 1;
        lemma_factors_in_history(
            value,
            direction,
            entry,
            product,
            zero,
            one,
            a,
            n,
            steps,
            history,
            k,
        );
        assert(qr_step_from(direction, entry, product, history, k));
        let before = history[k];
        let after = history[k + 1];
        let x = lower_column(before.1, k);
        let (u, h, hr, qh) = lemma_qr_step_parts(direction, entry, product, k, before, after);
        match u {
            None => {
                assert forall|i: int, j: int| 0 <= j < t && j < i < m implies value(
                    #[trigger] after.1[i][j],
                ) == 0 as real by {
                    if j == k {
                        assert(value(x[i - k]) == 0 as real);
                        assert(x[i - k] == after.1[i][k]);
                    }
                }
            },
            Some(v) => {
                assert(v.len() == x.len());
                lemma_first_factor_reflected(value, entry, product, m, k, before.0, v, h, qh);
                lemma_second_factor_reflected(value, entry, product, m, n, k, before.1, v, h, hr);
                assert forall|i: int| 1 <= i < m - k implies value(#[trigger] x[i]) == 2 as real * (
                value(v[i]) * dot_of_values(v, x, value)) by {
                    assert(direction(x, Some(v)));
                }
                lemma_step_keeps_product(
                    value,
                    m,
                    n,
                    k,
                    a,
                    before.0,
                    before.1,
                    after.0,
                    after.1,
                    v,
                );
            },
        }
    }
}

/// The second factor of a decomposition is upper triangular, and the product of the two factors is
/// the matrix that was decomposed.
pub proof fn law_factors_of_decomposition<
    W,
    E: Fn(W, W, bool) -> W,
    P: Fn(&Vec<Vec<W>>, &Vec<Vec<W>>) -> Vec<Vec<W>>,
>(
    value: spec_fn(W) -> real,
    direction: spec_fn(Seq<W>, Option<Seq<W>>) -> bool,
    entry: E,
    product: P,
    zero: W,
    one: W,
    a: Seq<Seq<W>>,
    q: Seq<Seq<W>>,
    r: Seq<Seq<W>>,
)
    requires
        a.len() > 0,
        shaped(a, a.len() as int, a[0].len() as int),
        value(zero) == 0 as real,
        value(one) == 1 as real,
        unit_directions(direction, value),
        annihilates(direction, value),
        exact_entries(entry, value),
        exact_products(product, value),
        qr_decomposition(direction, entry, product, zero, one, a, q, r),
    ensures
        shaped(r, a.len() as int, a[0].len() as int),
        zero_below_diagonal(r, value, a.len() as int, a[0].len() as int),
        factors_of(value, q, r, a, a.len() as int, a[0].len() as int),
{
    let m = a.len() as int;
    let n = a[0].len() as int;
    let steps = num_reflections(m, n);
    let history = lemma_decomposition_history(direction, entry, product, zero, one, a, q, r);
    lemma_factors_in_history(
        value,
        direction,
        entry,
        product,
        zero,
        one,
        a,
        n,
        steps,
        history,
        steps,
    );
}

// --- The vector to reflect by ---

/// Whether norms are computed without rounding.
pub open spec fn exact_norms<W, N: Fn(&Vec<W>) -> W>(norm: N, value: spec_fn(W) -> real) -> bool {
    forall|x: Vec<W>, r: W| #[trigger]
        call_ensures(norm, (&x,), r) ==> value(r) >= 0 as real && value(r) * value(r)
            == squared_length(x@, value)
}

/// Whether only zero is negligible.
pub open spec fn only_zero_is_negligible<W, Z: Fn(W) -> bool>(
    negligible: Z,
    value: spec_fn(W) -> real,
) -> bool {
    forall|a: W, r: bool| #[trigger]
        call_ensures(negligible, (a,), r) ==> r == (value(a) == 0 as real)
}

/// Whether signs are told as they are.
pub open spec fn exact_signs<W, S: Fn(W) -> bool>(
    nonnegative: S,
    value: spec_fn(W) -> real,
) -> bool {
    forall|a: W, r: bool| #[trigger]
        call_ensures(nonnegative, (a,), r) ==> r == (value(a) >= 0 as real)
}

/// Whether shifts away from zero are computed without rounding.
pub open spec fn exact_shifts<W, A: Fn(W, bool, W) -> W>(
    shift: A,
    value: spec_fn(W) -> real,
) -> bool {
    forall|a: W, sign: bool, b: W, r: W| #[trigger]
        call_ensures(shift, (a, sign, b), r) ==> value(r) == value(a) + (if sign {
            value(b)
        } else {
            -value(b)
        })
}

/// Whether quotients are computed without rounding.
pub open spec fn exact_quotients<W, V: Fn(W, W) -> W>(
    divide: V,
    value: spec_fn(W) -> real,
) -> bool {
    forall|a: W, b: W, r: W| #[trigger]
        call_ensures(divide, (a, b), r) && value(b) != 0 as real ==> value(r) * value(b) == value(a)
}

/// Of the numbers with the first one shifted, the squared length, and the dot product with the
/// numbers as they were, of which it is twice.
proof fn lemma_shifted(
    n: nat,
    x: spec_fn(int) -> real,
    y: spec_fn(int) -> real,
    length: real,
    shift: real,
)
    requires
        n > 0,
        length > 0 as real,
        length * length == sum(n, |i: int| x(i) * x(i)),
        shift == length && x(0) >= 0 as real || shift == -length && x(0) < 0 as real,
        y(0) == x(0) + shift,
        forall|i: int| 1 <= i < n ==> #[trigger] y(i) == x(i),
    ensures
        sum(n, |i: int| y(i) * y(i)) == 2 as real * sum(n, |i: int| y(i) * x(i)),
        sum(n, |i: int| y(i) * y(i)) > 0 as real,
{
    let xx = |i: int| x(i) * x(i);
    let yy = |i: int| y(i) * y(i);
    let yx = |i: int| y(i) * x(i);
    let a = x(0);
    let f = y(0);
    assert forall|k: int| 0 <= k < n && k != 0 implies #[trigger] xx(k) == yy(k) by {
        assert(y(k) == x(k));
    }
    assert forall|k: int| 0 <= k < n && k != 0 implies #[trigger] xx(k) == yx(k) by {
        assert(y(k) == x(k));
    }
    lemma_sum_differs_at(n, xx, yy, 0);
    lemma_sum_differs_at(n, xx, yx, 0);
    lemma_product_rules(f, a, shift);
    lemma_product_rules(a, a, shift);
    lemma_product_rules(shift, a, shift);
    lemma_product_rules(a, f, 0 as real);
    lemma_product_rules(shift, f, 0 as real);
    lemma_square(length);
    if shift == length {
        lemma_product_not_negative(a, shift);
    } else {
        lemma_product_not_negative(-a, length);
        lemma_product_rules(a, length, 0 as real);
        lemma_product_rules(a, 0 as real, length);
        lemma_product_rules(length, 0 as real, a);
        lemma_product_rules(-a, length, 0 as real);
        assert(-length == 0 as real - length);
        assert(-a == 0 as real - a);
    }
}

/// The vector to reflect by has length one, and reflecting takes all numbers but the first to
/// zero; where there is none, they are zero.
pub proof fn law_reflectors_annihilate<
    W,
    N: Fn(&Vec<W>) -> W,
    Z: Fn(W) -> bool,
    S: Fn(W) -> bool,
    A: Fn(W, bool, W) -> W,
    V: Fn(W, W) -> W,
>(
    value: spec_fn(W) -> real,
    norm: N,
    negligible: Z,
    nonnegative: S,
    shift: A,
    divide: V,
)
    requires
        exact_norms(norm, value),
        only_zero_is_negligible(negligible, value),
        exact_signs(nonnegative, value),
        exact_shifts(shift, value),
        exact_quotients(divide, value),
    ensures
        unit_directions(reflectors(norm, negligible, nonnegative, shift, divide), value),
        annihilates(reflectors(norm, negligible, nonnegative, shift, divide), value),
{
    let direction = reflectors(norm, negligible, nonnegative, shift, divide);
    assert forall|x: Seq<W>, u: Option<Seq<W>>| x.len() > 0 && #[trigger] direction(
        x,
        u,
    ) implies (u matches Some(v) ==> v.len() == x.len() && squared_length(v, value)
        == 1 as real) by {
        lemma_reflector_annihilates(
            value,
            norm,
            negligible,
            nonnegative,
            shift,
            divide,
            x,
            u,
        );
    }
    assert forall|x: Seq<W>, u: Option<Seq<W>>, i: int|
        #![trigger direction(x, u), x[i]]
        1 <= i < x.len() && direction(x, u) implies value(x[i]) == match u {
        Some(v) => 2 as real * (value(v[i]) * dot_of_values(v, x, value)),
        None => 0 as real,
    } by {
        lemma_reflector_annihilates(
            value,
            norm,
            negligible,
            nonnegative,
            shift,
            divide,
            x,
            u,
        );
    }
}

proof fn lemma_reflector_annihilates<
    W,
    N: Fn(&Vec<W>) -> W,
    Z: Fn(W) -> bool,
    S: Fn(W) -> bool,
    A: Fn(W, bool, W) -> W,
    V: Fn(W, W) -> W,
>(
    value: spec_fn(W) -> real,
    norm: N,
    negligible: Z,
    nonnegative: S,
    shift: A,
    divide: V,
    x: Seq<W>,
    u: Option<Seq<W>>,
)
    requires
        exact_norms(norm, value),
        only_zero_is_negligible(negligible, value),
        exact_signs(nonnegative, value),
        exact_shifts(shift, value),
        exact_quotients(divide, value),
        x.len() > 0,
        reflector(norm, negligible, nonnegative, shift, divide, x, u),
    ensures
        u matches Some(v) ==> v.len() == x.len() && squared_length(v, value) == 1 as real,
        forall|i: int|
            1 <= i < x.len() ==> value(#[trigger] x[i]) == match u {
                Some(v) => 2 as real * (value(v[i]) * dot_of_values(v, x, value)),
                None => 0 as real,
            },
{
    let n = x.len();
    let (length, small) = choose|length: W, small: bool|
        {
            &&& #[trigger] result_on(norm, x, length)
            &&& #[trigger] call_ensures(negligible, (length,), small)
            &&& small ==> u is None
            &&& !small ==> exists|sign: bool, first: W, shifted_length: W|
                {
                    &&& #[trigger] call_ensures(nonnegative, (x[0],), sign)
                    &&& #[trigger] call_ensures(shift, (x[0], sign, length), first)
                    &&& #[trigger] result_on(norm, x.update(0, first), shifted_length)
                    &&& u matches Some(u) && {
                        &&& u.len() == x.len()
                        &&& forall|i: int|
                            0 <= i < x.len() ==> call_ensures(
                                divide,
                                (x.update(0, first)[i], shifted_length),
                                #[trigger] u[i],
                            )
                    }
                }
        };
    let xs = |i: int| value(x[i]) * value(x[i]);
    if small {
        lemma_product_rules(value(length), 0 as real, 0 as real);
        assert forall|i: int| 1 <= i < x.len() implies value(#[trigger] x[i]) == 0 as real by {
            assert forall|k: int| 0 <= k < n implies #[trigger] xs(k) >= 0 as real by {
                lemma_square(value(x[k]));
            }
            lemma_sum_of_squares_vanishes(n, xs, i);
            lemma_square(value(x[i]));
        }
    } else {
        let (sign, first, shifted_length) = choose|sign: bool, first: W, shifted_length: W|
            {
                &&& #[trigger] call_ensures(nonnegative, (x[0],), sign)
                &&& #[trigger] call_ensures(shift, (x[0], sign, length), first)
                &&& #[trigger] result_on(norm, x.update(0, first), shifted_length)
                &&& u matches Some(u) && {
                    &&& u.len() == x.len()
                    &&& forall|i: int|
                        0 <= i < x.len() ==> call_ensures(
                            divide,
                            (x.update(0, first)[i], shifted_length),
                            #[trigger] u[i],
                        )
                }
            };
        let v = u->Some_0;
        let y = x.update(0, first);
        let l = value(length);
        let xv = |i: int| value(x[i]);
        let yv = |i: int| value(y[i]);
        let uv = |i: int| value(v[i]);
        let by = if sign {
            l
        } else {
            -l
        };
        lemma_sum_agrees(n, xs, |i: int| xv(i) * xv(i));
        lemma_shifted(n, xv, yv, l, by);
        let c = value(shifted_length);
        let e = sum(n, |i: int| yv(i) * yv(i));
        let d = sum(n, |i: int| yv(i) * xv(i));
        lemma_sum_agrees(n, |i: int| value(y[i]) * value(y[i]), |i: int| yv(i) * yv(i));
        assert(c * c == e);
        lemma_product_rules(c, 0 as real, 0 as real);
        assert(c != 0 as real);
        assert forall|i: int| 0 <= i < n implies #[trigger] uv(i) * c == yv(i) by {
            assert(call_ensures(divide, (y[i], shifted_length), v[i]));
        }
        // The squared length.
        let uu = |i: int| uv(i) * uv(i);
        lemma_sum_scales(n, uu, e);
        let scaled = |i: int| e * uu(i);
        assert forall|i: int| 0 <= i < n implies #[trigger] scaled(i) == yv(i) * yv(i) by {
            lemma_product_of_products(c, c, uv(i), uv(i));
            lemma_product_rules(c, uv(i), 0 as real);
            assert(uv(i) * c == yv(i));
        }
        lemma_sum_agrees(n, scaled, |i: int| yv(i) * yv(i));
        lemma_product_rules(e, 1 as real, 0 as real);
        lemma_cancel(e, sum(n, uu), 1 as real);
        lemma_sum_agrees(n, |i: int| value(v[i]) * value(v[i]), uu);
        // The numbers behind the first.
        let ux = |i: int| uv(i) * xv(i);
        let dot = sum(n, ux);
        lemma_sum_scales(n, ux, c);
        let cux = |i: int| c * ux(i);
        assert forall|i: int| 0 <= i < n implies #[trigger] cux(i) == yv(i) * xv(i) by {
            lemma_product_rules(c, uv(i), xv(i));
            assert(uv(i) * c == yv(i));
        }
        lemma_sum_agrees(n, cux, |i: int| yv(i) * xv(i));
        assert(c * dot == d);
        lemma_sum_agrees(n, |i: int| value(v[i]) * value(x[i]), ux);
        assert forall|i: int| 1 <= i < n implies value(#[trigger] x[i]) == 2 as real * (value(v[i])
            * dot_of_values(v, x, value)) by {
            let b = uv(i) * dot;
            lemma_product_of_products(c, c, uv(i), dot);
            lemma_product_rules(c, uv(i), 0 as real);
            assert(uv(i) * c == yv(i));
            assert(yv(i) == xv(i));
            assert(e * b == xv(i) * d);
            lemma_product_rules(e, b, b);
            lemma_product_rules(xv(i), d, d);
            lemma_product_rules(xv(i), e, 0 as real);
            assert(e == d + d);
            assert(e * (b + b) == e * xv(i));
            lemma_cancel(e, b + b, xv(i));
        }
    }
}

// --- Signs of columns ---

/// Whether signs are given without rounding.
pub open spec fn exact_sign_changes<W, B: Fn(W, bool) -> W>(
    signed: B,
    value: spec_fn(W) -> real,
) -> bool {
    forall|a: W, sign: bool, r: W| #[trigger]
        call_ensures(signed, (a, sign), r) ==> value(r) == if sign {
            value(a)
        } else {
            -value(a)
        }
}

/// Whether numbers keep their value when they are narrowed.
pub open spec fn exact_narrowing<W, T, C: Fn(W) -> T>(
    narrow: C,
    value: spec_fn(W) -> real,
    narrow_value: spec_fn(T) -> real,
) -> bool {
    forall|a: W, r: T| #[trigger] call_ensures(narrow, (a,), r) ==> narrow_value(r) == value(a)
}

/// One, or minus one where the sign is not set.
pub open spec fn sign_factor(sign: bool) -> real {
    if sign {
        1 as real
    } else {
        -(1 as real)
    }
}

/// An entry of the sign-corrected matrix is that of the first factor times the column's sign.
proof fn lemma_corrected_value<W, T, B: Fn(W, bool) -> W, C: Fn(W) -> T>(
    value: spec_fn(W) -> real,
    narrow_value: spec_fn(T) -> real,
    signed: B,
    narrow: C,
    q: Seq<Seq<W>>,
    signs: Seq<bool>,
    flat: Seq<T>,
    i: int,
    j: int,
)
    requires
        exact_sign_changes(signed, value),
        exact_narrowing(narrow, value, narrow_value),
        corrected_entry(signed, narrow, q, signs, flat, i, j),
    ensures
        narrow_value(flat[i * q.len() + j]) == sign_factor(signs[j]) * value(q[i][j]),
{
    lemma_product_rules(value(q[i][j]), 1 as real, 0 as real);
    lemma_product_rules(value(q[i][j]), 0 as real, 1 as real);
    lemma_product_rules(value(q[i][j]), -(1 as real), 0 as real);
    assert(-(1 as real) == 0 as real - 1 as real);
}

/// The sign-corrected first factor is orthogonal, as the factor is.
pub proof fn law_sign_correction_keeps_orthogonal<
    W,
    T,
    S: Fn(W) -> bool,
    B: Fn(W, bool) -> W,
    C: Fn(W) -> T,
>(
    value: spec_fn(W) -> real,
    narrow_value: spec_fn(T) -> real,
    nonnegative: S,
    signed: B,
    narrow: C,
    q: Seq<Seq<W>>,
    r: Seq<Seq<W>>,
    flat: Seq<T>,
)
    requires
        shaped(r, q.len() as int, q.len() as int),
        orthonormal(q.len(), matrix_values(q, value)),
        exact_sign_changes(signed, value),
        exact_narrowing(narrow, value, narrow_value),
        sign_corrected(nonnegative, signed, narrow, q, r, flat),
    ensures
        orthogonal_columns(values_of(flat, narrow_value), q.len() as int, 1 as real),
        orthogonal_rows(values_of(flat, narrow_value), q.len() as int, 1 as real),
{
    let n = q.len() as int;
    let qv = matrix_values(q, value);
    let numbers = values_of(flat, narrow_value);
    let signs = lemma_corrected_signs(nonnegative, signed, narrow, q, r, flat);
    assert forall|i: int, j: int| 0 <= i < n && 0 <= j < n implies #[trigger] exact_dot(
        column(numbers, n, i),
        column(numbers, n, j),
    ) == if i == j {
        1 as real
    } else {
        0 as real
    } by {
        let a = column(numbers, n, i);
        let b = column(numbers, n, j);
        let si = sign_factor(signs[i]);
        let sj = sign_factor(signs[j]);
        let g = |k: int| qv(k, i) * qv(k, j);
        let t = |k: int| a[k] * b[k];
        let scaled = |k: int| (si * sj) * g(k);
        assert forall|k: int| 0 <= k < n implies #[trigger] t(k) == scaled(k) by {
            lemma_entry(n, n, k, i);
            lemma_entry(n, n, k, j);
            assert(corrected_entry(signed, narrow, q, signs, flat, k, i));
            assert(corrected_entry(signed, narrow, q, signs, flat, k, j));
            lemma_corrected_value(value, narrow_value, signed, narrow, q, signs, flat, k, i);
            lemma_corrected_value(value, narrow_value, signed, narrow, q, signs, flat, k, j);
            lemma_product_of_products(si, qv(k, i), sj, qv(k, j));
        }
        lemma_sum_agrees(n as nat, t, scaled);
        lemma_sum_scales(n as nat, g, si * sj);
        assert(column_dot(n as nat, qv, i, j) == delta(i, j));
        lemma_product_rules(si * sj, 0 as real, 0 as real);
        lemma_square(si);
        lemma_square(1 as real);
        lemma_product_rules(1 as real, 1 as real, 0 as real);
    }
    assert forall|i: int, j: int| 0 <= i < n && 0 <= j < n implies #[trigger] exact_dot(
        row(numbers, n, i),
        row(numbers, n, j),
    ) == if i == j {
        1 as real
    } else {
        0 as real
    } by {
        let a = row(numbers, n, i);
        let b = row(numbers, n, j);
        let g = |k: int| qv(i, k) * qv(j, k);
        let t = |k: int| a[k] * b[k];
        lemma_entry(n, n, i, 0);
        lemma_entry(n, n, j, 0);
        assert forall|k: int| 0 <= k < n implies #[trigger] t(k) == g(k) by {
            let s = sign_factor(signs[k]);
            lemma_entry(n, n, i, k);
            lemma_entry(n, n, j, k);
            assert(corrected_entry(signed, narrow, q, signs, flat, i, k));
            assert(corrected_entry(signed, narrow, q, signs, flat, j, k));
            lemma_corrected_value(value, narrow_value, signed, narrow, q, signs, flat, i, k);
            lemma_corrected_value(value, narrow_value, signed, narrow, q, signs, flat, j, k);
            lemma_product_of_products(s, qv(i, k), s, qv(j, k));
            lemma_square(s);
            lemma_square(1 as real);
            lemma_product_rules(1 as real, 1 as real, 0 as real);
            lemma_product_rules(qv(i, k) * qv(j, k), 1 as real, 0 as real);
        }
        lemma_sum_agrees(n as nat, t, g);
        assert(row_dot(n as nat, qv, i, j) == delta(i, j));
    }
}

/// The product of the transposed flat matrix with a matrix, at row `i` and column `j`.
pub open spec fn transposed_product<W, T>(
    value: spec_fn(W) -> real,
    narrow_value: spec_fn(T) -> real,
    flat: Seq<T>,
    a: Seq<Seq<W>>,
    i: int,
    j: int,
) -> real {
    sum(a.len(), |k: int| narrow_value(flat[k * a.len() + i]) * value(a[k][j]))
}

/// The transposed sign-corrected first factor times the matrix is upper triangular with a
/// diagonal that is not negative, so that the factor is the only one of its kind.
pub proof fn law_sign_correction_makes_diagonal_nonnegative<
    W,
    T,
    S: Fn(W) -> bool,
    B: Fn(W, bool) -> W,
    C: Fn(W) -> T,
>(
    value: spec_fn(W) -> real,
    narrow_value: spec_fn(T) -> real,
    nonnegative: S,
    signed: B,
    narrow: C,
    a: Seq<Seq<W>>,
    q: Seq<Seq<W>>,
    r: Seq<Seq<W>>,
    flat: Seq<T>,
)
    requires
        q.len() == a.len(),
        shaped(r, a.len() as int, a.len() as int),
        orthonormal(a.len(), matrix_values(q, value)),
        factors_of(value, q, r, a, a.len() as int, a.len() as int),
        zero_below_diagonal(r, value, a.len() as int, a.len() as int),
        exact_signs(nonnegative, value),
        exact_sign_changes(signed, value),
        exact_narrowing(narrow, value, narrow_value),
        sign_corrected(nonnegative, signed, narrow, q, r, flat),
    ensures
        forall|i: int, j: int|
            0 <= j < i < a.len() ==> #[trigger] transposed_product(
                value,
                narrow_value,
                flat,
                a,
                i,
                j,
            ) == 0 as real,
        forall|j: int|
            0 <= j < a.len() ==> #[trigger] transposed_product(value, narrow_value, flat, a, j, j)
                >= 0 as real,
{
    let n = a.len() as int;
    let qv = matrix_values(q, value);
    let rv = matrix_values(r, value);
    let signs = lemma_corrected_signs(nonnegative, signed, narrow, q, r, flat);
    assert forall|i: int, j: int| 0 <= i < n && 0 <= j < n implies #[trigger] transposed_product(
        value,
        narrow_value,
        flat,
        a,
        i,
        j,
    ) == sign_factor(signs[i]) * rv(i, j) by {
        let s = sign_factor(signs[i]);
        let w = |l: int| rv(l, j);
        let t = |k: int| narrow_value(flat[k * a.len() + i]) * value(a[k][j]);
        let g = |k: int| qv(k, i) * row_times(n as nat, qv, w, k);
        let scaled = |k: int| s * g(k);
        assert forall|k: int| 0 <= k < n implies #[trigger] t(k) == scaled(k) by {
            assert(corrected_entry(signed, narrow, q, signs, flat, k, i));
            lemma_corrected_value(value, narrow_value, signed, narrow, q, signs, flat, k, i);
            assert(product_entry(n as nat, qv, rv, k, j) == value(a[k][j]));
            lemma_sum_agrees(n as nat, |l: int| qv(k, l) * rv(l, j), |l: int| qv(k, l) * w(l));
            lemma_product_rules(s, qv(k, i), row_times(n as nat, qv, w, k));
        }
        lemma_sum_agrees(n as nat, t, scaled);
        lemma_sum_scales(n as nat, g, s);
        lemma_column_times_image(n as nat, qv, w, i);
    }
    assert forall|i: int, j: int| 0 <= j < i < n implies #[trigger] transposed_product(
        value,
        narrow_value,
        flat,
        a,
        i,
        j,
    ) == 0 as real by {
        assert(value(r[i][j]) == 0 as real);
        lemma_product_rules(sign_factor(signs[i]), 0 as real, 0 as real);
    }
    assert forall|j: int| 0 <= j < n implies #[trigger] transposed_product(
        value,
        narrow_value,
        flat,
        a,
        j,
        j,
    ) >= 0 as real by {
        assert(call_ensures(nonnegative, (r[j][j],), signs[j]));
        lemma_product_rules(rv(j, j), 1 as real, 0 as real);
        lemma_product_rules(rv(j, j), 0 as real, 1 as real);
        lemma_product_rules(rv(j, j), -(1 as real), 0 as real);
        assert(-(1 as real) == 0 as real - 1 as real);
    }
}

// --- Random orthogonal matrices ---

impl<
    W,
    N: Fn(&Vec<W>) -> W,
    Z: Fn(W) -> bool,
    S: Fn(W) -> bool,
    A: Fn(W, bool, W) -> W,
    V: Fn(W, W) -> W,
    E: Fn(W, W, bool) -> W,
    P: Fn(&Vec<Vec<W>>, &Vec<Vec<W>>) -> Vec<Vec<W>>,
> MatrixArithmetic<W, N, Z, S, A, V, E, P> {
    /// Whether the arithmetic is that of the real numbers, with nothing rounded.
    pub open spec fn exact(self, value: spec_fn(W) -> real) -> bool {
        &&& value(self.zero) == 0 as real
        &&& value(self.one) == 1 as real
        &&& exact_norms(self.norm, value)
        &&& only_zero_is_negligible(self.negligible, value)
        &&& exact_signs(self.nonnegative, value)
        &&& exact_shifts(self.shift, value)
        &&& exact_quotients(self.divide, value)
        &&& exact_entries(self.entry, value)
        &&& exact_products(self.product, value)
    }
}

/// In exact arithmetic the factors of a matrix are an orthogonal one and an upper triangular one,
/// whose product is the matrix.
pub proof fn law_decomposition<
    W,
    N: Fn(&Vec<W>) -> W,
    Z: Fn(W) -> bool,
    S: Fn(W) -> bool,
    A: Fn(W, bool, W) -> W,
    V: Fn(W, W) -> W,
    E: Fn(W, W, bool) -> W,
    P: Fn(&Vec<Vec<W>>, &Vec<Vec<W>>) -> Vec<Vec<W>>,
>(
    value: spec_fn(W) -> real,
    ops: MatrixArithmetic<W, N, Z, S, A, V, E, P>,
    a: Seq<Seq<W>>,
    q: Seq<Seq<W>>,
    r: Seq<Seq<W>>,
)
    requires
        a.len() > 0,
        shaped(a, a.len() as int, a[0].len() as int),
        ops.exact(value),
        ops.decomposes(a, q, r),
    ensures
        orthonormal(a.len(), matrix_values(q, value)),
        zero_below_diagonal(r, value, a.len() as int, a[0].len() as int),
        factors_of(value, q, r, a, a.len() as int, a[0].len() as int),
{
    let direction = reflectors(ops.norm, ops.negligible, ops.nonnegative, ops.shift, ops.divide);
    law_reflectors_annihilate(
        value,
        ops.norm,
        ops.negligible,
        ops.nonnegative,
        ops.shift,
        ops.divide,
    );
    law_first_factor_is_orthogonal(
        value,
        direction,
        ops.entry,
        ops.product,
        ops.zero,
        ops.one,
        a,
        q,
        r,
    );
    law_factors_of_decomposition(
        value,
        direction,
        ops.entry,
        ops.product,
        ops.zero,
        ops.one,
        a,
        q,
        r,
    );
}

/// Whether the transposed flat matrix times a random matrix is upper triangular with a diagonal
/// that is not negative.
pub open spec fn factor_of_random_matrix<W, T, G: Fn(usize, u64) -> Vec<Vec<W>>>(
    value: spec_fn(W) -> real,
    narrow_value: spec_fn(T) -> real,
    random_matrix: G,
    n: usize,
    seed: u64,
    flat: Seq<T>,
) -> bool {
    exists|a: Vec<Vec<W>>|
        {
            &&& #[trigger] call_ensures(random_matrix, (n, seed), a)
            &&& forall|i: int, j: int|
                0 <= j < i < n ==> #[trigger] transposed_product(
                    value,
                    narrow_value,
                    flat,
                    rows_of(a),
                    i,
                    j,
                ) == 0 as real
            &&& forall|j: int|
                0 <= j < n ==> #[trigger] transposed_product(
                    value,
                    narrow_value,
                    flat,
                    rows_of(a),
                    j,
                    j,
                ) >= 0 as real
        }
}

/// A random orthogonal matrix is orthogonal, in exact arithmetic: `Q^T·Q = Q·Q^T = I`. And it is the
/// sign-corrected factor of the random matrix: `Q^T·G` is upper triangular with a diagonal that is
/// not negative.
pub proof fn law_random_orthogonal_is_orthogonal<
    W,
    T,
    G: Fn(usize, u64) -> Vec<Vec<W>>,
    N: Fn(&Vec<W>) -> W,
    Z: Fn(W) -> bool,
    S: Fn(W) -> bool,
    A: Fn(W, bool, W) -> W,
    V: Fn(W, W) -> W,
    E: Fn(W, W, bool) -> W,
    P: Fn(&Vec<Vec<W>>, &Vec<Vec<W>>) -> Vec<Vec<W>>,
    B: Fn(W, bool) -> W,
    C: Fn(W) -> T,
>(
    value: spec_fn(W) -> real,
    narrow_value: spec_fn(T) -> real,
    random_matrix: G,
    ops: MatrixArithmetic<W, N, Z, S, A, V, E, P>,
    signed: B,
    narrow: C,
    n: usize,
    seed: u64,
    flat: Seq<T>,
)
    requires
        n > 0,
        ops.exact(value),
        exact_sign_changes(signed, value),
        exact_narrowing(narrow, value, narrow_value),
        random_orthogonal(random_matrix, ops, signed, narrow, n, seed, flat),
    ensures
        orthogonal_columns(values_of(flat, narrow_value), n as int, 1 as real),
        orthogonal_rows(values_of(flat, narrow_value), n as int, 1 as real),
        factor_of_random_matrix(value, narrow_value, random_matrix, n, seed, flat),
{
    let (a, q, r) = lemma_random_orthogonal_parts(
        random_matrix,
        ops,
        signed,
        narrow,
        n,
        seed,
        flat,
    );
    assert(rows_of(a)[0].len() == n);
    law_decomposition(value, ops, rows_of(a), q, r);
    law_sign_correction_keeps_orthogonal(
        value,
        narrow_value,
        ops.nonnegative,
        signed,
        narrow,
        q,
        r,
        flat,
    );
    law_sign_correction_makes_diagonal_nonnegative(
        value,
        narrow_value,
        ops.nonnegative,
        signed,
        narrow,
        rows_of(a),
        q,
        r,
        flat,
    );
}

/// Rotating by a random orthogonal matrix and back gives the vectors, in exact arithmetic.
pub proof fn law_random_rotation_round_trip<
    W,
    T,
    G: Fn(usize, u64) -> Vec<Vec<W>>,
    N: Fn(&Vec<W>) -> W,
    Z: Fn(W) -> bool,
    S: Fn(W) -> bool,
    A: Fn(W, bool, W) -> W,
    V: Fn(W, W) -> W,
    E: Fn(W, W, bool) -> W,
    P: Fn(&Vec<Vec<W>>, &Vec<Vec<W>>) -> Vec<Vec<W>>,
    B: Fn(W, bool) -> W,
    C: Fn(W) -> T,
    D: Fn(&[T], &[T]) -> T,
>(
    value: spec_fn(W) -> real,
    narrow_value: spec_fn(T) -> real,
    random_matrix: G,
    ops: MatrixArithmetic<W, N, Z, S, A, V, E, P>,
    signed: B,
    narrow: C,
    dot: D,
    dim: usize,
    seed: u64,
    rotation: Seq<T>,
    vectors: Seq<T>,
    output: Seq<T>,
    restored: Seq<T>,
)
    requires
        dim > 0,
        ops.exact(value),
        exact_sign_changes(signed, value),
        exact_narrowing(narrow, value, narrow_value),
        computes_exactly(dot, narrow_value),
        random_orthogonal(random_matrix, ops, signed, narrow, dim, seed, rotation),
        vectors.len() as int % dim as int == 0,
        rotated(dot, vectors, rotation, dim as int, output),
        rotated_back(dot, output, rotation, dim as int, restored),
    ensures
        values_of(restored, narrow_value) == values_of(vectors, narrow_value),
{
    law_random_orthogonal_is_orthogonal(
        value,
        narrow_value,
        random_matrix,
        ops,
        signed,
        narrow,
        dim,
        seed,
        rotation,
    );
    law_batch_round_trip(
        dot,
        narrow_value,
        vectors,
        rotation,
        dim as int,
        1 as real,
        output,
        restored,
    );
    assert forall|p: int| 0 <= p < vectors.len() implies #[trigger] values_of(
        restored,
        narrow_value,
    )[p] == values_of(vectors, narrow_value)[p] by {
        assert(narrow_value(restored[p]) == 1 as real * narrow_value(vectors[p]));
        lemma_product_rules(narrow_value(vectors[p]), 1 as real, 0 as real);
    }
    assert(values_of(restored, narrow_value) =~= values_of(vectors, narrow_value));
}

} // verus!
