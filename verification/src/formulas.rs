//! Dot products and distances, from sums and products of numbers.
//!
//! ```text
//! L2:     ||q||² + γ² - 2·||q||·γ·dot
//! Dot:    -(||q||·γ·dot)
//! Cosine: 1 - dot
//! ```
use vstd::prelude::*;

use crate::float::Float32;
use crate::linear::{exact_dot, lemma_product_of_products, lemma_product_rules, sum};
use crate::packing::unpacked_codes;
use crate::rotation::dot_result;
use crate::storage::{
    countable, law_append_adds_rows_at_the_end, law_append_keeps_places,
    law_codes_that_fit_are_readable, law_ids_have_one_place, lemma_packed_size_fits,
    lemma_place_in_one_batch, located, restored_coordinates, row_codes, shorter, storage_of,
    ChunkView, CodeBatchView, DistanceArithmetic, MetadataView, StorageView, TurboDistCalculator,
};
use crate::DistanceType;

verus! {

/// The arithmetic on numbers: zero, one and two, and sums, differences, products and negation.
pub struct NumberArithmetic<W, P, M, U, G> {
    pub zero: W,
    pub one: W,
    pub two: W,
    pub plus: P,
    pub minus: M,
    pub times: U,
    pub negate: G,
}

impl<
    W: Copy,
    P: Fn(W, W) -> W,
    M: Fn(W, W) -> W,
    U: Fn(W, W) -> W,
    G: Fn(W) -> W,
> NumberArithmetic<W, P, M, U, G> {
    /// Whether the functions can be called wherever they are needed.
    pub open spec fn callable(self) -> bool {
        &&& forall|a: W, b: W| #[trigger] call_requires(self.plus, (a, b))
        &&& forall|a: W, b: W| #[trigger] call_requires(self.minus, (a, b))
        &&& forall|a: W, b: W| #[trigger] call_requires(self.times, (a, b))
        &&& forall|a: W| #[trigger] call_requires(self.negate, (a,))
    }

    /// Whether `sums[i + 1]` is `sums[i]` with the product of the `i`-th coordinates added.
    pub open spec fn product_added(self, a: Seq<W>, b: Seq<W>, sums: Seq<W>, i: int) -> bool {
        exists|p: W| #[trigger]
            call_ensures(self.times, (a[i], b[i]), p) && call_ensures(
                self.plus,
                (sums[i], p),
                sums[i + 1],
            )
    }

    /// Whether `sums` lists the sums of the products of the first coordinates, from zero on.
    pub open spec fn products_summed(self, a: Seq<W>, b: Seq<W>, sums: Seq<W>) -> bool {
        &&& sums.len() == a.len() + 1
        &&& sums[0] == self.zero
        &&& forall|i: int| 0 <= i < a.len() ==> #[trigger] self.product_added(a, b, sums, i)
    }

    /// Whether `r` is the dot product.
    pub open spec fn is_dot(self, a: Seq<W>, b: Seq<W>, r: W) -> bool {
        exists|sums: Seq<W>| #[trigger] self.products_summed(a, b, sums) && r == sums.last()
    }

    /// Whether `r` is `q·q + n·n - 2·q·n·d`.
    pub open spec fn is_squared_distance(self, q: W, n: W, d: W, r: W) -> bool {
        exists|qq: W, nn: W, squares: W, twice: W, scaled: W, mixed: W|
            {
                &&& #[trigger] call_ensures(self.times, (q, q), qq)
                &&& #[trigger] call_ensures(self.times, (n, n), nn)
                &&& #[trigger] call_ensures(self.plus, (qq, nn), squares)
                &&& #[trigger] call_ensures(self.times, (self.two, q), twice)
                &&& #[trigger] call_ensures(self.times, (twice, n), scaled)
                &&& #[trigger] call_ensures(self.times, (scaled, d), mixed)
                &&& call_ensures(self.minus, (squares, mixed), r)
            }
    }

    /// Whether `r` is `-(q·n·d)`.
    pub open spec fn is_negated_product(self, q: W, n: W, d: W, r: W) -> bool {
        exists|norms: W, product: W|
            {
                &&& #[trigger] call_ensures(self.times, (q, n), norms)
                &&& #[trigger] call_ensures(self.times, (norms, d), product)
                &&& call_ensures(self.negate, (product,), r)
            }
    }

    /// Whether `r` is `1 - d`.
    pub open spec fn is_cosine_distance(self, d: W, r: W) -> bool {
        call_ensures(self.minus, (self.one, d), r)
    }

    /// Whether `r` is the distance of the given type.
    pub open spec fn measures(
        self,
        distance_type: DistanceType,
        query_norm: W,
        norm: W,
        dot: W,
        r: W,
    ) -> bool {
        match distance_type {
            DistanceType::L2 => self.is_squared_distance(query_norm, norm, dot, r),
            DistanceType::Dot => self.is_negated_product(query_norm, norm, dot, r),
            DistanceType::Cosine => self.is_cosine_distance(dot, r),
            DistanceType::Hamming => false,
        }
    }

    /// The dot product.
    pub fn dot_product(&self, a: &[W], b: &[W]) -> (r: W)
        requires
            self.callable(),
            a@.len() == b@.len(),
        ensures
            self.is_dot(a@, b@, r),
    {
        let mut r: W = self.zero;
        let ghost mut sums: Seq<W> = seq![self.zero];
        for i in 0..a.len()
            invariant
                self.callable(),
                a@.len() == b@.len(),
                sums.len() == i + 1,
                sums[0] == self.zero,
                sums.last() == r,
                forall|j: int| 0 <= j < i ==> #[trigger] self.product_added(a@, b@, sums, j),
        {
            let p: W = (self.times)(a[i], b[i]);
            r = (self.plus)(r, p);
            proof {
                let before = sums;
                sums = before.push(r);
                assert forall|j: int| 0 <= j < i + 1 implies #[trigger] self.product_added(
                    a@,
                    b@,
                    sums,
                    j,
                ) by {
                    if j < i {
                        assert(self.product_added(a@, b@, before, j));
                        assert(sums[j] == before[j] && sums[j + 1] == before[j + 1]);
                    } else {
                        assert(call_ensures(self.times, (a@[j], b@[j]), p));
                    }
                }
            }
        }
        assert(self.products_summed(a@, b@, sums));
        r
    }

    /// The squared distance of two vectors, from their norms and the dot product of their
    /// directions.
    pub fn squared_distance(&self, query_norm: W, norm: W, dot: W) -> (r: W)
        requires
            self.callable(),
        ensures
            self.is_squared_distance(query_norm, norm, dot, r),
    {
        let qq: W = (self.times)(query_norm, query_norm);
        let nn: W = (self.times)(norm, norm);
        let squares: W = (self.plus)(qq, nn);
        let twice: W = (self.times)(self.two, query_norm);
        let scaled: W = (self.times)(twice, norm);
        let mixed: W = (self.times)(scaled, dot);
        let r: W = (self.minus)(squares, mixed);
        assert(call_ensures(self.times, (query_norm, query_norm), qq));
        assert(call_ensures(self.times, (norm, norm), nn));
        assert(call_ensures(self.plus, (qq, nn), squares));
        assert(call_ensures(self.times, (self.two, query_norm), twice));
        assert(call_ensures(self.times, (twice, norm), scaled));
        assert(call_ensures(self.times, (scaled, dot), mixed));
        r
    }

    /// The negated dot product of two vectors, from their norms and the dot product of their
    /// directions.
    pub fn negated_product(&self, query_norm: W, norm: W, dot: W) -> (r: W)
        requires
            self.callable(),
        ensures
            self.is_negated_product(query_norm, norm, dot, r),
    {
        let norms: W = (self.times)(query_norm, norm);
        let product: W = (self.times)(norms, dot);
        let r: W = (self.negate)(product);
        assert(call_ensures(self.times, (query_norm, norm), norms));
        assert(call_ensures(self.times, (norms, dot), product));
        r
    }

    /// One minus the dot product of two directions.
    pub fn cosine_distance(&self, dot: W) -> (r: W)
        requires
            self.callable(),
        ensures
            self.is_cosine_distance(dot, r),
    {
        (self.minus)(self.one, dot)
    }

    /// Whether nothing is rounded, where `value` is the value of a number.
    pub open spec fn exact(self, value: spec_fn(W) -> real) -> bool {
        &&& value(self.zero) == 0 as real
        &&& value(self.one) == 1 as real
        &&& value(self.two) == 2 as real
        &&& forall|a: W, b: W, r: W| #[trigger]
            call_ensures(self.plus, (a, b), r) ==> value(r) == value(a) + value(b)
        &&& forall|a: W, b: W, r: W| #[trigger]
            call_ensures(self.minus, (a, b), r) ==> value(r) == value(a) - value(b)
        &&& forall|a: W, b: W, r: W| #[trigger]
            call_ensures(self.times, (a, b), r) ==> value(r) == value(a) * value(b)
        &&& forall|a: W, r: W| #[trigger]
            call_ensures(self.negate, (a,), r) ==> value(r) == 0 as real - value(a)
    }
}

impl<
    P: Fn(Float32, Float32) -> Float32,
    M: Fn(Float32, Float32) -> Float32,
    U: Fn(Float32, Float32) -> Float32,
    G: Fn(Float32) -> Float32,
> NumberArithmetic<Float32, P, M, U, G> {
    /// Whether `r` is the distance of row `i` of a chunk: from the dot product of the rotated query
    /// with the centroids that the row's codes stand for.
    pub open spec fn row_distance<C, R>(
        self,
        calculator: TurboDistCalculator<C, R>,
        chunk: ChunkView,
        i: int,
        r: Float32,
    ) -> bool {
        let n = shorter(calculator.query_rotated@.len(), chunk.dim as nat);
        exists|dot: Float32| #[trigger]
            self.is_dot(
                calculator.query_rotated@.take(n as int),
                restored_coordinates(row_codes(chunk, i), calculator.centroids@, n),
                dot,
            ) && self.measures(
                calculator.storage@.distance_type,
                calculator.query_norm,
                chunk.batch.norms[i],
                dot,
                r,
            )
    }

    /// Whether `r` is the distance of the vector with the given ID: that of the row at its place.
    pub open spec fn distance_result<C, R>(
        self,
        calculator: TurboDistCalculator<C, R>,
        id: int,
        r: Float32,
    ) -> bool {
        exists|c: int, i: int| #[trigger]
            located(calculator.storage@.chunks, id, c, i) && self.row_distance(
                calculator,
                calculator.storage@.chunks[c],
                i,
                r,
            )
    }

    /// The distance from the calculator's query to a stored vector.
    pub fn distance<C, R>(&self, calculator: &TurboDistCalculator<C, R>, id: u32) -> (r: Float32)
        requires
            self.callable(),
            calculator.wf(),
            id < calculator.storage@.len(),
            calculator.storage@.readable(id as int),
            calculator.storage@.distance_type != DistanceType::Hamming,
        ensures
            self.distance_result(*calculator, id as int, r),
    {
        let dot = |a: &[Float32], b: &[Float32]| -> (r: Float32)
            requires
                a@.len() == b@.len(),
            ensures
                self.is_dot(a@, b@, r),
            { self.dot_product(a, b) };
        let l2 = |q: Float32, n: Float32, d: Float32| -> (r: Float32)
            ensures
                self.is_squared_distance(q, n, d, r),
            { self.squared_distance(q, n, d) };
        let inner = |q: Float32, n: Float32, d: Float32| -> (r: Float32)
            ensures
                self.is_negated_product(q, n, d, r),
            { self.negated_product(q, n, d) };
        let cosine = |d: Float32| -> (r: Float32)
            ensures
                self.is_cosine_distance(d, r),
            { self.cosine_distance(d) };
        let ops = DistanceArithmetic { dot, l2, inner, cosine };
        let r: Float32 = calculator.distance(id, &ops);
        proof {
            let chunks = calculator.storage@.chunks;
            let (c, i) = choose|c: int, i: int| #[trigger]
                located(chunks, id as int, c, i) && calculator.row_distance(ops, chunks[c], i, r);
            let chunk = chunks[c];
            let n = shorter(calculator.query_rotated@.len(), chunk.dim as nat);
            let query = calculator.query_rotated@.take(n as int);
            let restored = restored_coordinates(row_codes(chunk, i), calculator.centroids@, n);
            let d = choose|d: Float32| #[trigger]
                dot_result(ops.dot, query, restored, d) && ops.measured(
                    calculator.storage@.distance_type,
                    calculator.query_norm,
                    chunk.batch.norms[i],
                    d,
                    r,
                );
            assert(self.is_dot(query, restored, d));
            assert(self.row_distance(*calculator, chunk, i, r));
        }
        r
    }

    /// The distances from the calculator's query to all stored vectors, in the order of their IDs.
    ///
    /// All of them are computed, however many are wanted.
    pub fn distance_all<C, R>(&self, calculator: &TurboDistCalculator<C, R>, _k_hint: usize) -> (r: Vec<
        Float32,
    >)
        requires
            self.callable(),
            calculator.wf(),
            calculator.storage@.codes_fit(),
            calculator.storage@.len() > 0 ==> calculator.storage@.distance_type
                != DistanceType::Hamming,
        ensures
            r@.len() == calculator.storage@.len(),
            forall|id: int|
                0 <= id < r@.len() ==> self.distance_result(*calculator, id, #[trigger] r@[id]),
    {
        let n: usize = calculator.storage.len();
        let mut r: Vec<Float32> = Vec::new();
        for id in 0..n as u32
            invariant
                n == calculator.storage@.len() <= u32::MAX,
                self.callable(),
                calculator.wf(),
                calculator.storage@.codes_fit(),
                calculator.storage@.len() > 0 ==> calculator.storage@.distance_type
                    != DistanceType::Hamming,
                r@.len() == id,
                forall|j: int|
                    0 <= j < id ==> self.distance_result(*calculator, j, #[trigger] r@[j]),
        {
            proof {
                law_codes_that_fit_are_readable(calculator.storage@, id as int);
            }
            let next: Float32 = self.distance(calculator, id);
            r.push(next);
        }
        r
    }
}

// --- Laws ---

/// The values of numbers.
pub open spec fn number_values<W>(value: spec_fn(W) -> real, x: Seq<W>) -> Seq<real> {
    Seq::new(x.len(), |i: int| value(x[i]))
}

/// Where nothing is rounded, the dot product is the sum of the products.
pub proof fn law_dot_product_is_exact<
    W: Copy,
    P: Fn(W, W) -> W,
    M: Fn(W, W) -> W,
    U: Fn(W, W) -> W,
    G: Fn(W) -> W,
>(
    ops: NumberArithmetic<W, P, M, U, G>,
    value: spec_fn(W) -> real,
    a: Seq<W>,
    b: Seq<W>,
    r: W,
)
    requires
        ops.exact(value),
        a.len() == b.len(),
        ops.is_dot(a, b, r),
    ensures
        value(r) == exact_dot(number_values(value, a), number_values(value, b)),
{
    let sums = choose|sums: Seq<W>| #[trigger]
        ops.products_summed(a, b, sums) && r == sums.last();
    lemma_partial_sum(ops, value, a, b, sums, a.len());
}

proof fn lemma_partial_sum<
    W: Copy,
    P: Fn(W, W) -> W,
    M: Fn(W, W) -> W,
    U: Fn(W, W) -> W,
    G: Fn(W) -> W,
>(
    ops: NumberArithmetic<W, P, M, U, G>,
    value: spec_fn(W) -> real,
    a: Seq<W>,
    b: Seq<W>,
    sums: Seq<W>,
    n: nat,
)
    requires
        ops.exact(value),
        a.len() == b.len(),
        ops.products_summed(a, b, sums),
        n <= a.len(),
    ensures
        value(sums[n as int]) == sum(
            n,
            |k: int| number_values(value, a)[k] * number_values(value, b)[k],
        ),
    decreases n,
{
    if n > 0 {
        lemma_partial_sum(ops, value, a, b, sums, (n - 1) as nat);
        assert(ops.product_added(a, b, sums, n - 1));
    }
}

/// Where nothing is rounded, the formulas give what they say.
pub proof fn law_distances_are_exact<
    W: Copy,
    P: Fn(W, W) -> W,
    M: Fn(W, W) -> W,
    U: Fn(W, W) -> W,
    G: Fn(W) -> W,
>(
    ops: NumberArithmetic<W, P, M, U, G>,
    value: spec_fn(W) -> real,
    distance_type: DistanceType,
    query_norm: W,
    norm: W,
    dot: W,
    r: W,
)
    requires
        ops.exact(value),
        ops.measures(distance_type, query_norm, norm, dot, r),
    ensures
        distance_type is L2 ==> value(r) == value(query_norm) * value(query_norm) + value(norm)
            * value(norm) - 2 as real * (value(query_norm) * value(norm) * value(dot)),
        distance_type is Dot ==> value(r) == 0 as real - value(query_norm) * value(norm) * value(
            dot,
        ),
        distance_type is Cosine ==> value(r) == 1 as real - value(dot),
{
    let q = value(query_norm);
    let n = value(norm);
    let d = value(dot);
    let two = 2 as real;
    lemma_product_rules(two, q, n);
    lemma_product_rules(two, q * n, d);
}

/// The square of a difference of products.
proof fn lemma_square_of_difference(s: real, a: real, t: real, b: real)
    ensures
        (s * a - t * b) * (s * a - t * b) == (s * s) * (a * a) + (t * t) * (b * b) - 2 as real * ((s
            * t) * (a * b)),
{
    let x = s * a;
    let y = t * b;
    lemma_product_rules(x - y, x, y);
    lemma_product_rules(x - y, y, x);
    lemma_product_rules(x, x, y);
    lemma_product_rules(y, x, y);
    lemma_product_rules(x, y, y);
    lemma_product_of_products(s, a, s, a);
    lemma_product_of_products(t, b, t, b);
    lemma_product_of_products(s, a, t, b);
}

/// The coordinates of `s·a - t·b`.
pub open spec fn scaled_difference(s: real, a: Seq<real>, t: real, b: Seq<real>) -> Seq<real> {
    Seq::new(a.len(), |k: int| s * a[k] - t * b[k])
}

proof fn lemma_sum_of_squared_differences(s: real, a: Seq<real>, t: real, b: Seq<real>, n: nat)
    requires
        a.len() == b.len(),
        n <= a.len(),
    ensures
        sum(n, |k: int| scaled_difference(s, a, t, b)[k] * scaled_difference(s, a, t, b)[k]) == (s
            * s) * sum(n, |k: int| a[k] * a[k]) + (t * t) * sum(n, |k: int| b[k] * b[k]) - 2 as real
            * ((s * t) * sum(n, |k: int| a[k] * b[k])),
    decreases n,
{
    let m = (n - 1) as nat;
    let f = |k: int| scaled_difference(s, a, t, b)[k] * scaled_difference(s, a, t, b)[k];
    let aa = |k: int| a[k] * a[k];
    let bb = |k: int| b[k] * b[k];
    let ab = |k: int| a[k] * b[k];
    if n > 0 {
        lemma_sum_of_squared_differences(s, a, t, b, m);
        let i = n - 1;
        lemma_square_of_difference(s, a[i], t, b[i]);
        lemma_product_rules(s * s, sum(m, aa), a[i] * a[i]);
        lemma_product_rules(t * t, sum(m, bb), b[i] * b[i]);
        lemma_product_rules(s * t, sum(m, ab), a[i] * b[i]);
        assert(sum(n, aa) == sum(m, aa) + a[i] * a[i]);
        assert(sum(n, bb) == sum(m, bb) + b[i] * b[i]);
        assert(sum(n, ab) == sum(m, ab) + a[i] * b[i]);
        assert(sum(n, f) == sum(m, f) + f(i));
    } else {
        lemma_product_rules(s * s, 0 as real, 0 as real);
        lemma_product_rules(t * t, 0 as real, 0 as real);
        lemma_product_rules(s * t, 0 as real, 0 as real);
        assert(sum(n, f) == 0 as real);
        assert(sum(n, aa) == 0 as real);
        assert(sum(n, bb) == 0 as real);
        assert(sum(n, ab) == 0 as real);
    }
}

/// Where nothing is rounded, the squared distance from the norms and the dot product of two
/// directions of length one is that of the vectors of those norms in those directions.
pub proof fn law_squared_distance_of_scaled_directions<
    W: Copy,
    P: Fn(W, W) -> W,
    M: Fn(W, W) -> W,
    U: Fn(W, W) -> W,
    G: Fn(W) -> W,
>(
    ops: NumberArithmetic<W, P, M, U, G>,
    value: spec_fn(W) -> real,
    query_norm: W,
    query: Seq<W>,
    norm: W,
    stored: Seq<W>,
    dot: W,
    r: W,
)
    requires
        ops.exact(value),
        query.len() == stored.len(),
        exact_dot(number_values(value, query), number_values(value, query)) == 1 as real,
        exact_dot(number_values(value, stored), number_values(value, stored)) == 1 as real,
        ops.is_dot(query, stored, dot),
        ops.is_squared_distance(query_norm, norm, dot, r),
    ensures
        ({
            let difference = scaled_difference(
                value(query_norm),
                number_values(value, query),
                value(norm),
                number_values(value, stored),
            );
            value(r) == exact_dot(difference, difference)
        }),
{
    let a = number_values(value, query);
    let b = number_values(value, stored);
    let s = value(query_norm);
    let t = value(norm);
    law_dot_product_is_exact(ops, value, query, stored, dot);
    law_distances_are_exact(ops, value, DistanceType::L2, query_norm, norm, dot, r);
    lemma_sum_of_squared_differences(s, a, t, b, a.len());
    lemma_product_rules(s * s, 0 as real, 0 as real);
    lemma_product_rules(t * t, 0 as real, 0 as real);
}

/// Appending gives the new vectors their own distances: the distance of the vector with ID
/// `len + i` is that of the vector with ID `i` in a storage of the new batch alone.
pub proof fn law_append_gives_new_vectors_their_own_distances<
    P: Fn(Float32, Float32) -> Float32,
    M: Fn(Float32, Float32) -> Float32,
    U: Fn(Float32, Float32) -> Float32,
    G: Fn(Float32) -> Float32,
    C,
    R,
>(
    ops: NumberArithmetic<Float32, P, M, U, G>,
    before: StorageView,
    batch: CodeBatchView,
    after: TurboDistCalculator<C, R>,
    alone: TurboDistCalculator<C, R>,
    i: int,
    r: Float32,
)
    requires
        after.storage@ == before.appended(batch),
        alone.storage@ == storage_of(batch, before.metadata, before.distance_type),
        after.query_rotated@ == alone.query_rotated@,
        after.query_norm == alone.query_norm,
        after.centroids@ == alone.centroids@,
        0 <= i < batch.row_ids.len(),
    ensures
        ops.distance_result(after, before.len() + i, r) <==> ops.distance_result(alone, i, r),
{
    let chunks = after.storage@.chunks;
    let c = before.chunks.len() as int;
    law_append_keeps_places(before, batch, before.len() + i, c, i);
    law_append_adds_rows_at_the_end(before, batch);
    law_ids_have_one_place(chunks, before.len() + i);
    lemma_place_in_one_batch(batch, before.metadata, before.distance_type, i);
    law_ids_have_one_place(alone.storage@.chunks, i);
    assert(ops.row_distance(after, chunks[c], i, r) == ops.row_distance(
        alone,
        alone.storage@.chunks[0],
        i,
        r,
    ));
    assert(located(chunks, before.len() + i, c, i));
    assert(located(alone.storage@.chunks, i, 0, i));
}

/// Appending leaves the distances of the vectors that were there as they are.
pub proof fn law_append_keeps_distances<
    P: Fn(Float32, Float32) -> Float32,
    M: Fn(Float32, Float32) -> Float32,
    U: Fn(Float32, Float32) -> Float32,
    G: Fn(Float32) -> Float32,
    C,
    R,
>(
    ops: NumberArithmetic<Float32, P, M, U, G>,
    before: TurboDistCalculator<C, R>,
    after: TurboDistCalculator<C, R>,
    batch: CodeBatchView,
    id: int,
    r: Float32,
)
    requires
        after.storage@ == before.storage@.appended(batch),
        after.query_rotated@ == before.query_rotated@,
        after.query_norm == before.query_norm,
        after.centroids@ == before.centroids@,
        0 <= id < before.storage@.len(),
    ensures
        ops.distance_result(before, id, r) <==> ops.distance_result(after, id, r),
{
    let chunks = before.storage@.chunks;
    law_ids_have_one_place(chunks, id);
    let (c, i) = choose|c: int, i: int| located(chunks, id, c, i);
    law_append_keeps_places(before.storage@, batch, id, c, i);
    law_append_adds_rows_at_the_end(before.storage@, batch);
    law_ids_have_one_place(after.storage@.chunks, id);
    assert(ops.row_distance(before, chunks[c], i, r) == ops.row_distance(
        after,
        after.storage@.chunks[c],
        i,
        r,
    ));
    assert(located(after.storage@.chunks, id, c, i));
}

/// The distance of vector `i` of a batch comes from norm `i` and code `i` of the batch: from the dot
/// product of the query with the centroids that this code names, as many as both have, the query's
/// norm and this norm.
pub proof fn law_distance_reads_its_own_row<
    P: Fn(Float32, Float32) -> Float32,
    M: Fn(Float32, Float32) -> Float32,
    U: Fn(Float32, Float32) -> Float32,
    G: Fn(Float32) -> Float32,
    C,
    R,
>(
    ops: NumberArithmetic<Float32, P, M, U, G>,
    batch: CodeBatchView,
    metadata: MetadataView,
    distance_type: DistanceType,
    calculator: TurboDistCalculator<C, R>,
    i: int,
    r: Float32,
    size: int,
    code: Seq<u8>,
) -> (parts: (Seq<Float32>, Seq<Float32>, Float32))
    requires
        countable(metadata),
        calculator.storage@ == storage_of(batch, metadata, distance_type),
        0 <= i < batch.row_ids.len(),
        ops.distance_result(calculator, i, r),
        size == (metadata.dimension * metadata.num_bits + 7) / 8,
        code == unpacked_codes(
            batch.codes.subrange(i * size, i * size + size),
            metadata.dimension as nat,
            metadata.num_bits as int,
        ),
    ensures
        ops.is_dot(parts.0, parts.1, parts.2),
        parts.0.len() == parts.1.len(),
        parts.0.len() <= metadata.dimension,
        parts.0.len() <= calculator.query_rotated@.len(),
        parts.0.len() == metadata.dimension || parts.0.len() == calculator.query_rotated@.len(),
        forall|j: int|
            0 <= j < parts.0.len() ==> #[trigger] parts.0[j] == calculator.query_rotated@[j],
        forall|j: int|
            0 <= j < parts.1.len() ==> #[trigger] parts.1[j] == calculator.centroids@[code[j] as int],
        distance_type is L2 ==> ops.is_squared_distance(
            calculator.query_norm,
            batch.norms[i],
            parts.2,
            r,
        ),
        distance_type is Dot ==> ops.is_negated_product(
            calculator.query_norm,
            batch.norms[i],
            parts.2,
            r,
        ),
        distance_type is Cosine ==> ops.is_cosine_distance(parts.2, r),
        distance_type !is Hamming,
{
    let chunks = calculator.storage@.chunks;
    lemma_place_in_one_batch(batch, metadata, distance_type, i);
    law_ids_have_one_place(chunks, i);
    lemma_packed_size_fits(metadata.dimension as int, metadata.num_bits as int);
    let chunk = chunks[0];
    assert(ops.row_distance(calculator, chunk, i, r));
    let n = shorter(calculator.query_rotated@.len(), chunk.dim as nat);
    let query = calculator.query_rotated@.take(n as int);
    assert(row_codes(chunk, i) == code);
    let restored = restored_coordinates(code, calculator.centroids@, n);
    let dot = choose|dot: Float32| #[trigger]
        ops.is_dot(query, restored, dot) && ops.measures(
            distance_type,
            calculator.query_norm,
            batch.norms[i],
            dot,
            r,
        );
    (query, restored, dot)
}

} // verus!
