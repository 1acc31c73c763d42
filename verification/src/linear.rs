//! Sums and dot products of real numbers, with nothing rounded.
use vstd::prelude::*;

verus! {

/// The sum of the first `n` values of `f`.
pub open spec fn sum(n: nat, f: spec_fn(int) -> real) -> real
    decreases n,
{
    if n == 0 {
        0 as real
    } else {
        sum((n - 1) as nat, f) + f(n - 1)
    }
}

/// One on the diagonal, zero elsewhere.
pub open spec fn delta(i: int, j: int) -> real {
    if i == j {
        1 as real
    } else {
        0 as real
    }
}

/// The dot product.
pub open spec fn exact_dot(a: Seq<real>, b: Seq<real>) -> real {
    sum(a.len(), |k: int| a[k] * b[k])
}

pub proof fn lemma_product_rules(a: real, b: real, c: real)
    ensures
        a * b == b * a,
        a * (b * c) == (a * b) * c,
        a * (b + c) == a * b + a * c,
        a * (b - c) == a * b - a * c,
        a * (0 as real) == 0 as real,
        a * (1 as real) == a,
{
    assert(a * b == b * a) by (nonlinear_arith);
    assert(a * (b * c) == (a * b) * c) by (nonlinear_arith);
    assert(a * (b + c) == a * b + a * c) by (nonlinear_arith);
    assert(a * (b - c) == a * b - a * c) by (nonlinear_arith);
}

/// The factors of a product of two products can be exchanged.
pub proof fn lemma_product_of_products(a: real, b: real, c: real, d: real)
    ensures
        (a * b) * (c * d) == (a * c) * (b * d),
{
    lemma_product_rules(a, b, c * d);
    lemma_product_rules(b, c, d);
    lemma_product_rules(c, b, d);
    lemma_product_rules(a, c, b * d);
}

/// The product of two differences.
pub proof fn lemma_product_of_differences(x: real, u: real, y: real, v: real)
    ensures
        (x - 2 as real * u) * (y - 2 as real * v) == x * y - 2 as real * (x * v) - 2 as real * (u
            * y) + 4 as real * (u * v),
{
    let a = x - (u + u);
    let b = y - (v + v);
    lemma_product_rules(a, y, v + v);
    lemma_product_rules(a, v, v);
    lemma_product_rules(y, x, u + u);
    lemma_product_rules(y, u, u);
    lemma_product_rules(v, x, u + u);
    lemma_product_rules(v, u, u);
    lemma_product_rules(x, y, v);
    lemma_product_rules(x, v, y);
    lemma_product_rules(u, y, v);
    lemma_product_rules(u, v, y);
    assert(a * b == x * y - 2 as real * (x * v) - 2 as real * (u * y) + 4 as real * (u * v));
    assert(a == x - 2 as real * u);
    assert(b == y - 2 as real * v);
}

pub proof fn lemma_sum_agrees(n: nat, f: spec_fn(int) -> real, g: spec_fn(int) -> real)
    requires
        forall|k: int| 0 <= k < n ==> #[trigger] f(k) == g(k),
    ensures
        sum(n, f) == sum(n, g),
    decreases n,
{
    if n > 0 {
        lemma_sum_agrees((n - 1) as nat, f, g);
        assert(f(n - 1) == g(n - 1));
    }
}

pub proof fn lemma_sum_adds(n: nat, f: spec_fn(int) -> real, g: spec_fn(int) -> real)
    ensures
        sum(n, |k: int| f(k) + g(k)) == sum(n, f) + sum(n, g),
    decreases n,
{
    if n > 0 {
        lemma_sum_adds((n - 1) as nat, f, g);
    }
}

pub proof fn lemma_sum_scales(n: nat, f: spec_fn(int) -> real, c: real)
    ensures
        sum(n, |k: int| c * f(k)) == c * sum(n, f),
    decreases n,
{
    if n > 0 {
        lemma_sum_scales((n - 1) as nat, f, c);
        lemma_product_rules(c, sum((n - 1) as nat, f), f(n - 1));
    } else {
        lemma_product_rules(c, 0 as real, 0 as real);
    }
}

pub proof fn lemma_sum_of_zeros(n: nat, f: spec_fn(int) -> real)
    requires
        forall|k: int| 0 <= k < n ==> #[trigger] f(k) == 0 as real,
    ensures
        sum(n, f) == 0 as real,
    decreases n,
{
    if n > 0 {
        lemma_sum_of_zeros((n - 1) as nat, f);
        assert(f(n - 1) == 0 as real);
    }
}

/// A sum in which one value alone is not zero is that value.
pub proof fn lemma_sum_of_one(n: nat, f: spec_fn(int) -> real, j: int)
    requires
        0 <= j < n,
        forall|k: int| 0 <= k < n && k != j ==> #[trigger] f(k) == 0 as real,
    ensures
        sum(n, f) == f(j),
    decreases n,
{
    if j == n - 1 {
        lemma_sum_of_zeros((n - 1) as nat, f);
    } else {
        lemma_sum_of_one((n - 1) as nat, f, j);
        assert(f(n - 1) == 0 as real);
    }
}

/// The order of two sums does not matter.
pub proof fn lemma_sums_exchange(m: nat, n: nat, f: spec_fn(int, int) -> real)
    ensures
        sum(m, |i: int| sum(n, |k: int| f(i, k))) == sum(n, |k: int| sum(m, |i: int| f(i, k))),
    decreases m,
{
    if m == 0 {
        lemma_sum_of_zeros(n, |k: int| sum(0, |i: int| f(i, k)));
        assert(sum(m, |i: int| sum(n, |k: int| f(i, k))) == 0 as real);
        lemma_sum_agrees(
            n,
            |k: int| sum(0, |i: int| f(i, k)),
            |k: int| sum(m, |i: int| f(i, k)),
        );
    } else {
        let less = (m - 1) as nat;
        lemma_sums_exchange(less, n, f);
        let g = |k: int| sum(less, |i: int| f(i, k));
        let h = |k: int| f(m - 1, k);
        lemma_sum_adds(n, g, h);
        lemma_sum_agrees(n, |k: int| g(k) + h(k), |k: int| sum(m, |i: int| f(i, k)));
    }
}

/// Zeros in front of a sum can be left out.
pub proof fn lemma_sum_skips_zeros(k: nat, n: nat, f: spec_fn(int) -> real)
    requires
        forall|i: int| 0 <= i < k ==> #[trigger] f(i) == 0 as real,
    ensures
        sum(k + n, f) == sum(n, |i: int| f(k + i)),
    decreases n,
{
    if n == 0 {
        lemma_sum_of_zeros(k, f);
    } else {
        lemma_sum_skips_zeros(k, (n - 1) as nat, f);
        let g = |i: int| f(k + i);
        assert(g(n - 1) == f(k + n - 1));
        assert(sum(n, g) == sum((n - 1) as nat, g) + g(n - 1));
    }
}

/// Two sums that differ in one value alone differ by what it differs.
pub proof fn lemma_sum_differs_at(
    n: nat,
    f: spec_fn(int) -> real,
    g: spec_fn(int) -> real,
    j: int,
)
    requires
        0 <= j < n,
        forall|k: int| 0 <= k < n && k != j ==> #[trigger] f(k) == g(k),
    ensures
        sum(n, g) == sum(n, f) - f(j) + g(j),
    decreases n,
{
    if j == n - 1 {
        lemma_sum_agrees((n - 1) as nat, f, g);
    } else {
        lemma_sum_differs_at((n - 1) as nat, f, g, j);
        assert(f(n - 1) == g(n - 1));
    }
}

/// Squares are not negative, and only that of zero is zero.
pub proof fn lemma_square(a: real)
    ensures
        a * a >= 0 as real,
        a * a == 0 as real ==> a == 0 as real,
        -a * -a == a * a,
{
    assert(a * a >= 0 as real) by (nonlinear_arith);
    assert(a * a == 0 as real ==> a == 0 as real) by (nonlinear_arith);
    assert(-a * -a == a * a) by (nonlinear_arith);
}

/// Where a sum of values that are not negative is zero, each of them is.
pub proof fn lemma_sum_of_squares_vanishes(n: nat, f: spec_fn(int) -> real, i: int)
    requires
        forall|k: int| 0 <= k < n ==> #[trigger] f(k) >= 0 as real,
        sum(n, f) == 0 as real,
        0 <= i < n,
    ensures
        f(i) == 0 as real,
    decreases n,
{
    lemma_sum_not_negative((n - 1) as nat, f);
    assert(f(n - 1) >= 0 as real);
    if i < n - 1 {
        lemma_sum_of_squares_vanishes((n - 1) as nat, f, i);
    }
}

pub proof fn lemma_sum_not_negative(n: nat, f: spec_fn(int) -> real)
    requires
        forall|k: int| 0 <= k < n ==> #[trigger] f(k) >= 0 as real,
    ensures
        sum(n, f) >= 0 as real,
    decreases n,
{
    if n > 0 {
        lemma_sum_not_negative((n - 1) as nat, f);
        assert(f(n - 1) >= 0 as real);
    }
}

/// A factor that is not zero can be cancelled.
pub proof fn lemma_cancel(c: real, a: real, b: real)
    requires
        c != 0 as real,
        c * a == c * b,
    ensures
        a == b,
{
    assert(a == b) by (nonlinear_arith)
        requires
            c != 0 as real,
            c * a == c * b,
    ;
}

/// The product of two numbers that are not negative is not negative.
pub proof fn lemma_product_not_negative(a: real, b: real)
    requires
        a >= 0 as real,
        b >= 0 as real,
    ensures
        a * b >= 0 as real,
{
    assert(a * b >= 0 as real) by (nonlinear_arith)
        requires
            a >= 0 as real,
            b >= 0 as real,
    ;
}

// --- Reflections ---

/// The dot product of columns `i` and `j` of a matrix with `m` rows.
pub open spec fn column_dot(m: nat, q: spec_fn(int, int) -> real, i: int, j: int) -> real {
    sum(m, |k: int| q(k, i) * q(k, j))
}

/// The dot product of rows `i` and `j` of a matrix with `m` columns.
pub open spec fn row_dot(m: nat, q: spec_fn(int, int) -> real, i: int, j: int) -> real {
    sum(m, |k: int| q(i, k) * q(j, k))
}

/// Whether the columns of a matrix with `m` rows and columns have length one and are orthogonal to
/// each other, and so do its rows.
pub open spec fn orthonormal(m: nat, q: spec_fn(int, int) -> real) -> bool {
    &&& forall|i: int, j: int|
        0 <= i < m && 0 <= j < m ==> #[trigger] column_dot(m, q, i, j) == delta(i, j)
    &&& forall|i: int, j: int|
        0 <= i < m && 0 <= j < m ==> #[trigger] row_dot(m, q, i, j) == delta(i, j)
}

/// Row `i` of a matrix times a vector.
pub open spec fn row_times(
    m: nat,
    q: spec_fn(int, int) -> real,
    w: spec_fn(int) -> real,
    i: int,
) -> real {
    sum(m, |l: int| q(i, l) * w(l))
}

/// A vector times column `j` of a matrix.
pub open spec fn times_column(
    m: nat,
    w: spec_fn(int) -> real,
    r: spec_fn(int, int) -> real,
    j: int,
) -> real {
    sum(m, |l: int| w(l) * r(l, j))
}

/// Whether a vector has length one.
pub open spec fn unit_vector(m: nat, w: spec_fn(int) -> real) -> bool {
    sum(m, |l: int| w(l) * w(l)) == 1 as real
}

/// An entry of the product of two matrices.
pub open spec fn product_entry(
    m: nat,
    q: spec_fn(int, int) -> real,
    r: spec_fn(int, int) -> real,
    i: int,
    j: int,
) -> real {
    sum(m, |l: int| q(i, l) * r(l, j))
}

/// Whether `after` is the matrix times `I - 2·w·w^T`.
pub open spec fn reflected_from_right(
    m: nat,
    q: spec_fn(int, int) -> real,
    w: spec_fn(int) -> real,
    after: spec_fn(int, int) -> real,
) -> bool {
    forall|i: int, j: int|
        0 <= i < m && 0 <= j < m ==> #[trigger] after(i, j) == q(i, j) - 2 as real * (row_times(
            m,
            q,
            w,
            i,
        ) * w(j))
}

/// Whether column `j` of `after` is that of `I - 2·w·w^T` times the matrix.
pub open spec fn reflected_from_left(
    m: nat,
    w: spec_fn(int) -> real,
    r: spec_fn(int, int) -> real,
    after: spec_fn(int, int) -> real,
    j: int,
) -> bool {
    forall|i: int|
        0 <= i < m ==> #[trigger] after(i, j) == r(i, j) - 2 as real * (w(i) * times_column(
            m,
            w,
            r,
            j,
        ))
}

/// The unit matrix is orthonormal.
pub proof fn lemma_unit_matrix_is_orthonormal(m: nat)
    ensures
        orthonormal(m, |i: int, j: int| delta(i, j)),
{
    let q = |i: int, j: int| delta(i, j);
    assert forall|i: int, j: int| 0 <= i < m && 0 <= j < m implies #[trigger] column_dot(
        m,
        q,
        i,
        j,
    ) == delta(i, j) by {
        let f = |k: int| q(k, i) * q(k, j);
        assert forall|k: int| 0 <= k < m && k != i implies #[trigger] f(k) == 0 as real by {
            lemma_product_rules(q(k, j), q(k, i), 0 as real);
        }
        lemma_sum_of_one(m, f, i);
        lemma_product_rules(q(i, j), q(i, i), 0 as real);
    }
    assert forall|i: int, j: int| 0 <= i < m && 0 <= j < m implies #[trigger] row_dot(m, q, i, j)
        == delta(i, j) by {
        let f = |k: int| q(i, k) * q(j, k);
        assert forall|k: int| 0 <= k < m && k != i implies #[trigger] f(k) == 0 as real by {
            lemma_product_rules(q(j, k), q(i, k), 0 as real);
        }
        lemma_sum_of_one(m, f, i);
        lemma_product_rules(q(j, i), q(i, i), 0 as real);
    }
}

/// A column of an orthonormal matrix times the matrix times a vector is the vector's coordinate.
pub proof fn lemma_column_times_image(
    m: nat,
    q: spec_fn(int, int) -> real,
    w: spec_fn(int) -> real,
    a: int,
)
    requires
        orthonormal(m, q),
        0 <= a < m,
    ensures
        sum(m, |i: int| q(i, a) * row_times(m, q, w, i)) == w(a),
{
    let f = |i: int, l: int| q(i, a) * (q(i, l) * w(l));
    let images = |i: int| q(i, a) * row_times(m, q, w, i);
    assert forall|i: int| 0 <= i < m implies #[trigger] images(i) == sum(m, |l: int| f(i, l)) by {
        lemma_sum_scales(m, |l: int| q(i, l) * w(l), q(i, a));
        let g = |l: int| q(i, l) * w(l);
        lemma_sum_agrees(m, |l: int| q(i, a) * g(l), |l: int| f(i, l));
    }
    lemma_sum_agrees(m, images, |i: int| sum(m, |l: int| f(i, l)));
    lemma_sums_exchange(m, m, f);
    let h = |l: int| sum(m, |i: int| f(i, l));
    assert forall|l: int| 0 <= l < m implies #[trigger] h(l) == w(l) * delta(a, l) by {
        let g = |i: int| q(i, a) * q(i, l);
        lemma_sum_scales(m, g, w(l));
        let scaled = |i: int| w(l) * g(i);
        assert forall|i: int| 0 <= i < m implies #[trigger] scaled(i) == f(i, l) by {
            lemma_product_rules(q(i, a), q(i, l), w(l));
            lemma_product_rules(w(l), g(i), 0 as real);
        }
        lemma_sum_agrees(m, scaled, |i: int| f(i, l));
        assert(column_dot(m, q, a, l) == delta(a, l));
    }
    assert forall|l: int| 0 <= l < m && l != a implies #[trigger] h(l) == 0 as real by {
        lemma_product_rules(w(l), 0 as real, 0 as real);
    }
    lemma_sum_of_one(m, h, a);
    lemma_product_rules(w(a), 0 as real, 0 as real);
}

/// An orthonormal matrix takes a vector of length one to one of length one.
proof fn lemma_image_is_unit(m: nat, q: spec_fn(int, int) -> real, w: spec_fn(int) -> real)
    requires
        orthonormal(m, q),
        unit_vector(m, w),
    ensures
        sum(m, |i: int| row_times(m, q, w, i) * row_times(m, q, w, i)) == 1 as real,
{
    let p = |i: int| row_times(m, q, w, i);
    let f = |i: int, l: int| p(i) * (q(i, l) * w(l));
    let squares = |i: int| row_times(m, q, w, i) * row_times(m, q, w, i);
    assert forall|i: int| 0 <= i < m implies #[trigger] squares(i) == sum(m, |l: int| f(i, l)) by {
        let g = |l: int| q(i, l) * w(l);
        lemma_sum_scales(m, g, p(i));
        lemma_sum_agrees(m, |l: int| p(i) * g(l), |l: int| f(i, l));
    }
    lemma_sum_agrees(m, squares, |i: int| sum(m, |l: int| f(i, l)));
    lemma_sums_exchange(m, m, f);
    let h = |l: int| sum(m, |i: int| f(i, l));
    assert forall|l: int| 0 <= l < m implies #[trigger] h(l) == w(l) * w(l) by {
        let g = |i: int| q(i, l) * row_times(m, q, w, i);
        lemma_sum_scales(m, g, w(l));
        let scaled = |i: int| w(l) * g(i);
        assert forall|i: int| 0 <= i < m implies #[trigger] scaled(i) == f(i, l) by {
            lemma_product_rules(w(l), q(i, l), p(i));
            lemma_product_rules(p(i), w(l) * q(i, l), 0 as real);
            lemma_product_rules(w(l), q(i, l), 0 as real);
        }
        lemma_sum_agrees(m, scaled, |i: int| f(i, l));
        lemma_column_times_image(m, q, w, l);
    }
    lemma_sum_agrees(m, h, |l: int| w(l) * w(l));
}

/// The sum of four sequences, three of them scaled.
proof fn lemma_sum_of_four(
    n: nat,
    t: spec_fn(int) -> real,
    f: spec_fn(int) -> real,
    g: spec_fn(int) -> real,
    h: spec_fn(int) -> real,
    e: spec_fn(int) -> real,
    b: real,
    c: real,
    d: real,
)
    requires
        forall|k: int|
            0 <= k < n ==> #[trigger] t(k) == f(k) - 2 as real * (b * g(k)) - 2 as real * (c * h(k))
                + 4 as real * (d * e(k)),
    ensures
        sum(n, t) == sum(n, f) - 2 as real * (b * sum(n, g)) - 2 as real * (c * sum(n, h))
            + 4 as real * (d * sum(n, e)),
    decreases n,
{
    if n > 0 {
        let m = (n - 1) as nat;
        lemma_sum_of_four(m, t, f, g, h, e, b, c, d);
        assert(t(n - 1) == f(n - 1) - 2 as real * (b * g(n - 1)) - 2 as real * (c * h(n - 1))
            + 4 as real * (d * e(n - 1)));
        lemma_product_rules(b, sum(m, g), g(n - 1));
        lemma_product_rules(c, sum(m, h), h(n - 1));
        lemma_product_rules(d, sum(m, e), e(n - 1));
    } else {
        lemma_product_rules(b, 0 as real, 0 as real);
        lemma_product_rules(c, 0 as real, 0 as real);
        lemma_product_rules(d, 0 as real, 0 as real);
    }
}

/// Multiplying an orthonormal matrix with a reflection gives an orthonormal matrix.
pub proof fn law_reflection_keeps_orthonormal(
    m: nat,
    q: spec_fn(int, int) -> real,
    w: spec_fn(int) -> real,
    after: spec_fn(int, int) -> real,
)
    requires
        orthonormal(m, q),
        unit_vector(m, w),
        reflected_from_right(m, q, w, after),
    ensures
        orthonormal(m, after),
{
    lemma_image_is_unit(m, q, w);
    assert forall|a: int, b: int| 0 <= a < m && 0 <= b < m implies #[trigger] column_dot(
        m,
        after,
        a,
        b,
    ) == delta(a, b) by {
        let t = |i: int| after(i, a) * after(i, b);
        let f = |i: int| q(i, a) * q(i, b);
        let g = |i: int| q(i, a) * row_times(m, q, w, i);
        let h = |i: int| q(i, b) * row_times(m, q, w, i);
        let e = |i: int| row_times(m, q, w, i) * row_times(m, q, w, i);
        let wa = w(a);
        let wb = w(b);
        assert forall|i: int| 0 <= i < m implies #[trigger] t(i) == f(i) - 2 as real * (wb * g(i))
            - 2 as real * (wa * h(i)) + 4 as real * ((wa * wb) * e(i)) by {
            let x = q(i, a);
            let y = q(i, b);
            let z = row_times(m, q, w, i);
            assert(after(i, a) == x - 2 as real * (z * wa));
            assert(after(i, b) == y - 2 as real * (z * wb));
            lemma_product_of_differences(x, z * wa, y, z * wb);
            lemma_product_rules(x, z, wb);
            lemma_product_rules(wb, x * z, 0 as real);
            lemma_product_rules(z * wa, y, 0 as real);
            lemma_product_rules(y, z, wa);
            lemma_product_rules(wa, y * z, 0 as real);
            lemma_product_of_products(z, wa, z, wb);
            lemma_product_rules(wa * wb, z * z, 0 as real);
        }
        lemma_sum_of_four(m, t, f, g, h, e, wb, wa, wa * wb);
        lemma_column_times_image(m, q, w, a);
        lemma_column_times_image(m, q, w, b);
        assert(column_dot(m, q, a, b) == delta(a, b));
        lemma_product_rules(wa, wb, 0 as real);
        lemma_product_rules(wa * wb, 0 as real, 0 as real);
    }
    let r = |l: int, j: int| q(j, l);
    let r_after = |l: int, j: int| after(j, l);
    assert forall|i: int, j: int| 0 <= i < m && 0 <= j < m implies #[trigger] row_dot(
        m,
        after,
        i,
        j,
    ) == delta(i, j) by {
        let forward = |l: int| q(j, l) * w(l);
        let backward = |l: int| w(l) * r(l, j);
        assert forall|l: int| 0 <= l < m implies #[trigger] forward(l) == backward(l) by {
            lemma_product_rules(q(j, l), w(l), 0 as real);
        }
        lemma_sum_agrees(m, forward, backward);
        let s = times_column(m, w, r, j);
        assert forall|l: int| 0 <= l < m implies #[trigger] r_after(l, j) == r(l, j) - 2 as real * (
        w(l) * s) by {
            assert(after(j, l) == q(j, l) - 2 as real * (row_times(m, q, w, j) * w(l)));
            lemma_product_rules(w(l), row_times(m, q, w, j), 0 as real);
        }
        law_reflections_cancel(m, q, r, w, after, r_after, i, j);
        lemma_sum_agrees(
            m,
            |l: int| after(i, l) * r_after(l, j),
            |l: int| after(i, l) * after(j, l),
        );
        lemma_sum_agrees(m, |l: int| q(i, l) * r(l, j), |l: int| q(i, l) * q(j, l));
        assert(row_dot(m, q, i, j) == delta(i, j));
    }
}

/// Two reflections by the same vector between two matrices cancel.
pub proof fn law_reflections_cancel(
    m: nat,
    q: spec_fn(int, int) -> real,
    r: spec_fn(int, int) -> real,
    w: spec_fn(int) -> real,
    q_after: spec_fn(int, int) -> real,
    r_after: spec_fn(int, int) -> real,
    i: int,
    j: int,
)
    requires
        0 <= i < m,
        unit_vector(m, w),
        reflected_from_right(m, q, w, q_after),
        reflected_from_left(m, w, r, r_after, j),
    ensures
        product_entry(m, q_after, r_after, i, j) == product_entry(m, q, r, i, j),
{
    let p = row_times(m, q, w, i);
    let s = times_column(m, w, r, j);
    let t = |l: int| q_after(i, l) * r_after(l, j);
    let f = |l: int| q(i, l) * r(l, j);
    let g = |l: int| q(i, l) * w(l);
    let h = |l: int| w(l) * r(l, j);
    let e = |l: int| w(l) * w(l);
    assert forall|l: int| 0 <= l < m implies #[trigger] t(l) == f(l) - 2 as real * (s * g(l))
        - 2 as real * (p * h(l)) + 4 as real * ((p * s) * e(l)) by {
        let x = q(i, l);
        let y = r(l, j);
        let z = w(l);
        assert(q_after(i, l) == x - 2 as real * (p * z));
        assert(r_after(l, j) == y - 2 as real * (z * s));
        lemma_product_of_differences(x, p * z, y, z * s);
        lemma_product_rules(x, z, s);
        lemma_product_rules(s, x * z, 0 as real);
        lemma_product_rules(p, z, y);
        lemma_product_rules(z, s, 0 as real);
        lemma_product_of_products(p, z, s, z);
    }
    lemma_sum_of_four(m, t, f, g, h, e, s, p, p * s);
    lemma_product_rules(p, s, 0 as real);
    lemma_product_rules(p * s, 0 as real, 0 as real);
}

} // verus!
