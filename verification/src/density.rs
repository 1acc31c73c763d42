//! Codebooks for the coordinates of random unit vectors, from the arithmetic on numbers up.
//!
//! The density of a coordinate is integrated by Simpson's rule. Integrals give the mean of a cell
//! and, by bisection, quantiles; from quantiles and means Lloyd's iteration comes to a codebook.
use vstd::arithmetic::power2::pow2;
use vstd::prelude::*;

use crate::codebook::{
    answers_given, beta_pdf, beta_ppf, bisection_run, bisection_step, bisection_step_to, cell_mean,
    codebook_request, codebook_view, compute_codebook, conditional_mean, density_at,
    distortion_added, distortion_sums, get_codebook, given_by, integral, integrate, largest_shift,
    law_lloyd_codebook_is_valid, lemma_lloyd_parts, lemma_mean_parts, lemma_step_cells,
    lloyd_codebook, lloyd_run, lloyd_step, lloyd_step_to, lloyd_steps, means_within,
    midpoints_between, narrows_in_order, node_added, parameter_error, per_coordinate_distortion,
    quantiles_ascend, rounds_closely, settled_at, shift_of, simpson_sums, simpson_weight,
    sized_codebook, starts_at_quantiles, valid_codebook, valid_parameters, values_given,
    CodebookCache, CodebookView, QUAD_POINTS,
};
use crate::error::TurboError;
use crate::float::Float32;

verus! {

// --- Wider kinds of functions ---

/// An integral of a function of one kind is one of a wider kind.
proof fn lemma_integral_of_wider_kind<
    W,
    D: Fn(W, W) -> bool,
    P: Fn(W, W, usize) -> W,
    T: Fn(W, W) -> W,
    A: Fn(W, u32, W) -> W,
    Z: Fn(W, W, W) -> W,
>(
    f: spec_fn(W, W) -> bool,
    wider: spec_fn(W, W) -> bool,
    zero: W,
    degenerate: D,
    node: P,
    start: T,
    accumulate: A,
    finish: Z,
    a: W,
    b: W,
    r: W,
)
    requires
        forall|x: W, y: W| #[trigger] f(x, y) ==> wider(x, y),
        integral(f, zero, degenerate, node, start, accumulate, finish, a, b, r),
    ensures
        integral(wider, zero, degenerate, node, start, accumulate, finish, a, b, r),
{
    if !(r == zero && call_ensures(degenerate, (a, b), true)) {
        let sums = choose|sums: Seq<W>| #[trigger]
            simpson_sums(f, node, start, accumulate, a, b, sums) && call_ensures(
                finish,
                (sums.last(), a, b),
                r,
            );
        let (ya, yb) = choose|ya: W, yb: W|
            {
                &&& #[trigger] f(a, ya)
                &&& #[trigger] f(b, yb)
                &&& call_ensures(start, (ya, yb), sums[0])
            };
        assert(wider(a, ya) && wider(b, yb));
        assert forall|i: int| 0 < i < sums.len() implies #[trigger] node_added(
            wider,
            node,
            accumulate,
            a,
            b,
            sums,
            i,
        ) by {
            assert(node_added(f, node, accumulate, a, b, sums, i));
            let (x, y) = choose|x: W, y: W|
                {
                    &&& #[trigger] call_ensures(node, (a, b, i as usize), x)
                    &&& #[trigger] f(x, y)
                    &&& call_ensures(
                        accumulate,
                        (sums[i - 1], simpson_weight(i), y),
                        sums[i],
                    )
                };
            assert(wider(x, y));
        }
        assert(simpson_sums(wider, node, start, accumulate, a, b, sums));
    }
}

/// A bisection by answers of one kind is one by answers of a wider kind.
proof fn lemma_bisection_of_wider_kind<W, M: Fn(W, W) -> W, E: Fn(W, W) -> bool>(
    midpoint: M,
    below: spec_fn(W, W, usize, bool) -> bool,
    wider: spec_fn(W, W, usize, bool) -> bool,
    close: E,
    p: W,
    dim: usize,
    ends: (W, W),
    history: Seq<(W, W)>,
)
    requires
        forall|x: W, r: bool| #[trigger] below(x, p, dim, r) ==> wider(x, p, dim, r),
        bisection_run(midpoint, below, close, p, dim, ends, history),
    ensures
        bisection_run(midpoint, wider, close, p, dim, ends, history),
{
    assert forall|t: int| 0 < t < history.len() implies #[trigger] bisection_step_to(
        midpoint,
        wider,
        p,
        dim,
        history,
        t,
    ) by {
        assert(bisection_step_to(midpoint, below, p, dim, history, t));
        assert(bisection_step(midpoint, below, p, dim, history[t - 1], history[t]));
    }
}

/// What Lloyd's iteration comes to with functions of one kind, it comes to with functions of a
/// wider kind.
proof fn lemma_lloyd_of_wider_kind<W, M: Fn(W, W) -> W, N: Fn(W) -> Float32>(
    quantile: spec_fn(usize, usize, usize, W) -> bool,
    wider_quantile: spec_fn(usize, usize, usize, W) -> bool,
    midpoint: M,
    mean: spec_fn(W, W, usize, W) -> bool,
    wider_mean: spec_fn(W, W, usize, W) -> bool,
    settled: spec_fn(Seq<W>, Seq<W>, bool) -> bool,
    wider_settled: spec_fn(Seq<W>, Seq<W>, bool) -> bool,
    narrow: N,
    k: usize,
    dim: usize,
    ends: (W, W),
    codebook: CodebookView,
)
    requires
        forall|i: usize, x: W| #[trigger] quantile(i, k, dim, x) ==> wider_quantile(i, k, dim, x),
        forall|a: W, b: W, x: W| #[trigger] mean(a, b, dim, x) ==> wider_mean(a, b, dim, x),
        forall|a: Seq<W>, b: Seq<W>, r: bool| #[trigger] settled(a, b, r) ==> wider_settled(a, b, r),
        lloyd_codebook(quantile, midpoint, mean, settled, narrow, k, dim, ends, codebook),
    ensures
        lloyd_codebook(
            wider_quantile,
            midpoint,
            wider_mean,
            wider_settled,
            narrow,
            k,
            dim,
            ends,
            codebook,
        ),
{
    let (history, boundaries) = lemma_lloyd_parts(
        quantile,
        midpoint,
        mean,
        settled,
        narrow,
        k,
        dim,
        ends,
        codebook,
    );
    assert forall|t: int| 0 < t < history.len() implies #[trigger] lloyd_step_to(
        midpoint,
        wider_mean,
        dim,
        ends,
        history,
        t,
    ) by {
        assert(lloyd_step_to(midpoint, mean, dim, ends, history, t));
        let before = history[t - 1];
        let after = history[t];
        let cells = lemma_step_cells(midpoint, mean, dim, ends, before, after);
        assert(lloyd_step(midpoint, wider_mean, dim, ends, before, after));
    }
    assert forall|t: int| 0 < t < history.len() - 1 implies #[trigger] settled_at(
        wider_settled,
        history,
        t,
        false,
    ) by {
        assert(settled_at(settled, history, t, false));
    }
    assert(lloyd_steps(midpoint, wider_mean, wider_settled, dim, ends, history));
    assert(lloyd_run(midpoint, wider_mean, wider_settled, dim, ends, history));
    assert(starts_at_quantiles(wider_quantile, k, dim, history[0]));
}

// --- Arithmetic ---

/// The arithmetic that codebooks are computed with.
pub struct CodebookArithmetic<W, U, O, Y, X, D, P, T, A, Z, L, M, V, B, E, Q, G, H, K, N> {
    /// The number zero.
    pub zero: W,
    /// The numbers -1 and 1.
    pub ends: (W, W),
    /// Takes the interval from -1 to 1 to that from 0 to 1.
    pub to_unit: U,
    /// Whether a place is not within the interval from 0 to 1.
    pub outside: O,
    /// The density at a place within, for a dimension.
    pub density: Y,
    /// The product of two numbers.
    pub times: X,
    /// Whether an interval is too short to integrate over.
    pub degenerate: D,
    /// A node of an interval.
    pub node: P,
    /// The sum of the values at the ends.
    pub start: T,
    /// A sum with a weighted value added to it.
    pub accumulate: A,
    /// A sum scaled to the interval.
    pub finish: Z,
    /// Whether a mass is too small to divide by.
    pub negligible: L,
    /// The midpoint of two numbers.
    pub midpoint: M,
    /// The quotient of two numbers.
    pub divide: V,
    /// Whether one number is less than another.
    pub less: B,
    /// Whether an interval is short enough for its midpoint to stand for it.
    pub close: E,
    /// The middle of the `i`-th of `k` equal shares.
    pub share: Q,
    /// The distance of two numbers.
    pub distance: G,
    /// The larger one of two numbers.
    pub larger: H,
    /// Whether a shift is within the tolerance.
    pub within: K,
    /// Rounds to single precision.
    pub narrow: N,
}

/// The arithmetic that the distortion of a codebook is computed with, beside that of the codebook.
pub struct ErrorArithmetic<I, J, S> {
    /// The number of double precision for one of single precision.
    pub widen: I,
    /// The square of the difference of two numbers.
    pub squared_deviation: J,
    /// The sum of two numbers.
    pub plus: S,
}

impl<W, I: Fn(Float32) -> W, J: Fn(W, W) -> W, S: Fn(W, W) -> W> ErrorArithmetic<I, J, S> {
    /// Whether the functions can be called wherever they are needed.
    pub open spec fn callable(self) -> bool {
        &&& forall|a: Float32| #[trigger] call_requires(self.widen, (a,))
        &&& forall|a: W, b: W| #[trigger] call_requires(self.squared_deviation, (a, b))
        &&& forall|a: W, b: W| #[trigger] call_requires(self.plus, (a, b))
    }
}

impl<
    W: Copy,
    U: Fn(W) -> W,
    O: Fn(W) -> bool,
    Y: Fn(W, usize) -> W,
    X: Fn(W, W) -> W,
    D: Fn(W, W) -> bool,
    P: Fn(W, W, usize) -> W,
    T: Fn(W, W) -> W,
    A: Fn(W, u32, W) -> W,
    Z: Fn(W, W, W) -> W,
    L: Fn(W) -> bool,
    M: Fn(W, W) -> W,
    V: Fn(W, W) -> W,
    B: Fn(W, W) -> bool,
    E: Fn(W, W) -> bool,
    Q: Fn(usize, usize) -> W,
    G: Fn(W, W) -> W,
    H: Fn(W, W) -> W,
    K: Fn(W) -> bool,
    N: Fn(W) -> Float32,
> CodebookArithmetic<W, U, O, Y, X, D, P, T, A, Z, L, M, V, B, E, Q, G, H, K, N> {
    /// Whether the functions can be called wherever they are needed.
    pub open spec fn callable(self) -> bool {
        &&& forall|a: W| #[trigger] call_requires(self.to_unit, (a,))
        &&& forall|a: W| #[trigger] call_requires(self.outside, (a,))
        &&& forall|a: W, d: usize| d >= 3 ==> #[trigger] call_requires(self.density, (a, d))
        &&& forall|a: W, b: W| #[trigger] call_requires(self.times, (a, b))
        &&& forall|a: W, b: W| #[trigger] call_requires(self.degenerate, (a, b))
        &&& forall|a: W, b: W, i: usize|
            0 < i < QUAD_POINTS ==> #[trigger] call_requires(self.node, (a, b, i))
        &&& forall|a: W, b: W| #[trigger] call_requires(self.start, (a, b))
        &&& forall|a: W, w: u32, b: W| #[trigger] call_requires(self.accumulate, (a, w, b))
        &&& forall|a: W, b: W, c: W| #[trigger] call_requires(self.finish, (a, b, c))
        &&& forall|a: W| #[trigger] call_requires(self.negligible, (a,))
        &&& forall|a: W, b: W| #[trigger] call_requires(self.midpoint, (a, b))
        &&& forall|a: W, b: W| #[trigger] call_requires(self.divide, (a, b))
        &&& forall|a: W, b: W| #[trigger] call_requires(self.less, (a, b))
        &&& forall|a: W, b: W| #[trigger] call_requires(self.close, (a, b))
        &&& forall|i: usize, k: usize| i < k ==> #[trigger] call_requires(self.share, (i, k))
        &&& forall|a: W, b: W| #[trigger] call_requires(self.distance, (a, b))
        &&& forall|a: W, b: W| #[trigger] call_requires(self.larger, (a, b))
        &&& forall|a: W| #[trigger] call_requires(self.within, (a,))
        &&& forall|a: W| #[trigger] call_requires(self.narrow, (a,))
    }

    /// The density of a coordinate.
    pub open spec fn density_of(self, dim: usize) -> spec_fn(W, W) -> bool {
        |x: W, y: W|
            density_at(self.to_unit, self.outside, self.density, self.zero, x, dim, y)
    }

    /// The coordinate times its density.
    pub open spec fn weighted_density_of(self, dim: usize) -> spec_fn(W, W) -> bool {
        |x: W, y: W|
            exists|t: W| #[trigger]
                density_at(self.to_unit, self.outside, self.density, self.zero, x, dim, t)
                    && call_ensures(self.times, (x, t), y)
    }

    /// Whether `r` is the integral of `f` from `a` to `b`.
    pub open spec fn integral_of(self, f: spec_fn(W, W) -> bool, a: W, b: W, r: W) -> bool {
        integral(
            f,
            self.zero,
            self.degenerate,
            self.node,
            self.start,
            self.accumulate,
            self.finish,
            a,
            b,
            r,
        )
    }

    /// The probability of a cell.
    pub open spec fn mass(self) -> spec_fn(W, W, usize, W) -> bool {
        |a: W, b: W, dim: usize, r: W| self.integral_of(self.density_of(dim), a, b, r)
    }

    /// The first moment of a cell.
    pub open spec fn moment(self) -> spec_fn(W, W, usize, W) -> bool {
        |a: W, b: W, dim: usize, r: W| self.integral_of(self.weighted_density_of(dim), a, b, r)
    }

    /// The mean of a cell.
    pub open spec fn mean(self) -> spec_fn(W, W, usize, W) -> bool {
        |a: W, b: W, dim: usize, r: W|
            cell_mean(
                self.moment(),
                self.mass(),
                self.negligible,
                self.midpoint,
                self.divide,
                a,
                b,
                dim,
                r,
            )
    }

    /// Whether less than `p` of the distribution lies below `x`.
    pub open spec fn below(self) -> spec_fn(W, W, usize, bool) -> bool {
        |x: W, p: W, dim: usize, r: bool|
            exists|c: W| #[trigger]
                self.integral_of(self.density_of(dim), self.ends.0, x, c) && call_ensures(
                    self.less,
                    (c, p),
                    r,
                )
    }

    /// The quantile in the middle of the `i`-th of `k` equal shares.
    pub open spec fn quantile(self) -> spec_fn(usize, usize, usize, W) -> bool {
        |i: usize, k: usize, dim: usize, x: W|
            exists|p: W, history: Seq<(W, W)>|
                {
                    &&& #[trigger] call_ensures(self.share, (i, k), p)
                    &&& #[trigger] bisection_run(
                        self.midpoint,
                        self.below(),
                        self.close,
                        p,
                        dim,
                        self.ends,
                        history,
                    )
                    &&& call_ensures(self.midpoint, history.last(), x)
                }
    }

    /// Whether no centroid moved by more than the tolerance.
    pub open spec fn settled(self) -> spec_fn(Seq<W>, Seq<W>, bool) -> bool {
        |before: Seq<W>, after: Seq<W>, r: bool|
            exists|shift: W| #[trigger]
                shift_of(self.distance, self.larger, self.zero, before, after, shift)
                    && call_ensures(self.within, (shift,), r)
    }

    /// Whether a codebook is what Lloyd's iteration comes to, from the quantiles and the means of
    /// the coordinates' density.
    pub open spec fn gives_codebook(
        self,
        dim: usize,
        num_bits: u32,
        codebook: CodebookView,
    ) -> bool {
        lloyd_codebook(
            self.quantile(),
            self.midpoint,
            self.mean(),
            self.settled(),
            self.narrow,
            pow2(num_bits as nat) as usize,
            dim,
            self.ends,
            codebook,
        )
    }

    /// Whether every codebook in the cache is what Lloyd's iteration comes to.
    pub open spec fn filled(self, cache: Map<(usize, u32), CodebookView>) -> bool {
        forall|k: (usize, u32)| #[trigger]
            cache.contains_key(k) ==> self.gives_codebook(k.0, k.1, cache[k])
    }

    /// Whether the arithmetic respects the order of the numbers: midpoints lie between their
    /// numbers, means in their cells, quantiles ascend, and rounding keeps the order and is close.
    pub open spec fn orderly(self, value: spec_fn(W) -> real, dim: usize, num_bits: u32) -> bool {
        &&& value(self.ends.0) <= value(self.ends.1)
        &&& midpoints_between(self.midpoint, value)
        &&& means_within(self.mean(), dim, value)
        &&& quantiles_ascend(
            self.quantile(),
            pow2(num_bits as nat) as usize,
            dim,
            self.ends,
            value,
        )
        &&& narrows_in_order(self.narrow, self.ends, value)
        &&& rounds_closely(self.midpoint, self.narrow, self.ends, value)
    }

    /// Whether the numbers can be ordered so that the arithmetic respects it.
    pub open spec fn has_order(self, dim: usize, num_bits: u32) -> bool {
        exists|value: spec_fn(W) -> real| #[trigger] self.orderly(value, dim, num_bits)
    }

    /// With arithmetic that respects the order, what Lloyd's iteration comes to is a codebook.
    proof fn lemma_codebook_is_valid(self, dim: usize, num_bits: u32, codebook: CodebookView)
        requires
            valid_parameters(dim, num_bits),
            self.has_order(dim, num_bits),
            self.gives_codebook(dim, num_bits, codebook),
        ensures
            valid_codebook(codebook, num_bits),
    {
        let value = choose|value: spec_fn(W) -> real| #[trigger]
            self.orderly(value, dim, num_bits);
        law_lloyd_codebook_is_valid(
            self.quantile(),
            self.midpoint,
            self.mean(),
            self.settled(),
            self.narrow,
            value,
            num_bits,
            dim,
            self.ends,
            codebook,
        );
    }

    /// Whether the codebook is the one in the cache, or else one that Lloyd's iteration comes to and
    /// that is added to the cache.
    pub open spec fn requested(
        self,
        dim: usize,
        num_bits: u32,
        before: Map<(usize, u32), CodebookView>,
        after: Map<(usize, u32), CodebookView>,
        codebook: CodebookView,
    ) -> bool {
        if before.contains_key((dim, num_bits)) {
            codebook == before[(dim, num_bits)] && after == before
        } else {
            self.gives_codebook(dim, num_bits, codebook) && after == before.insert(
                (dim, num_bits),
                codebook,
            )
        }
    }

    /// With arithmetic that respects the order, a request keeps the codebooks in the cache in order.
    proof fn lemma_request_keeps_order(
        self,
        dim: usize,
        num_bits: u32,
        before: CodebookCache,
        after: CodebookCache,
        codebook: CodebookView,
    )
        requires
            valid_parameters(dim, num_bits),
            self.requested(dim, num_bits, before@, after@, codebook),
        ensures
            before.wf() && self.has_order(dim, num_bits) ==> after.wf() && valid_codebook(
                codebook,
                num_bits,
            ),
    {
        if before.wf() && self.has_order(dim, num_bits) {
            if !before@.contains_key((dim, num_bits)) {
                self.lemma_codebook_is_valid(dim, num_bits, codebook);
            }
        }
    }

    /// The density of a coordinate, at `x`.
    pub fn density_value(&self, x: W, dim: usize) -> (r: W)
        requires
            self.callable(),
            dim >= 3,
        ensures
            self.density_of(dim)(x, r),
    {
        beta_pdf(x, dim, self.zero, &self.to_unit, &self.outside, &self.density)
    }

    /// The coordinate times its density, at `x`.
    pub fn weighted_density_value(&self, x: W, dim: usize) -> (r: W)
        requires
            self.callable(),
            dim >= 3,
        ensures
            self.weighted_density_of(dim)(x, r),
    {
        let t: W = self.density_value(x, dim);
        let r: W = (self.times)(x, t);
        assert(density_at(self.to_unit, self.outside, self.density, self.zero, x, dim, t));
        r
    }

    /// The probability of a cell.
    pub fn mass_value(&self, a: W, b: W, dim: usize) -> (r: W)
        requires
            self.callable(),
            dim >= 3,
        ensures
            self.integral_of(self.density_of(dim), a, b, r),
    {
        let f = |x: W| -> (y: W)
            ensures
                self.density_of(dim)(x, y),
            { self.density_value(x, dim) };
        let r: W = integrate(
            &f,
            a,
            b,
            self.zero,
            &self.degenerate,
            &self.node,
            &self.start,
            &self.accumulate,
            &self.finish,
        );
        proof {
            lemma_integral_of_wider_kind(
                values_given(f),
                self.density_of(dim),
                self.zero,
                self.degenerate,
                self.node,
                self.start,
                self.accumulate,
                self.finish,
                a,
                b,
                r,
            );
        }
        r
    }

    /// The first moment of a cell.
    pub fn moment_value(&self, a: W, b: W, dim: usize) -> (r: W)
        requires
            self.callable(),
            dim >= 3,
        ensures
            self.integral_of(self.weighted_density_of(dim), a, b, r),
    {
        let f = |x: W| -> (y: W)
            ensures
                self.weighted_density_of(dim)(x, y),
            { self.weighted_density_value(x, dim) };
        let r: W = integrate(
            &f,
            a,
            b,
            self.zero,
            &self.degenerate,
            &self.node,
            &self.start,
            &self.accumulate,
            &self.finish,
        );
        proof {
            lemma_integral_of_wider_kind(
                values_given(f),
                self.weighted_density_of(dim),
                self.zero,
                self.degenerate,
                self.node,
                self.start,
                self.accumulate,
                self.finish,
                a,
                b,
                r,
            );
        }
        r
    }

    /// The mean of a cell.
    pub fn mean_value(&self, a: W, b: W, dim: usize) -> (r: W)
        requires
            self.callable(),
            dim >= 3,
        ensures
            self.mean()(a, b, dim, r),
    {
        let moment = |a: W, b: W, d: usize| -> (r: W)
            requires
                d >= 3,
            ensures
                self.moment()(a, b, d, r),
            { self.moment_value(a, b, d) };
        let mass = |a: W, b: W, d: usize| -> (r: W)
            requires
                d >= 3,
            ensures
                self.mass()(a, b, d, r),
            { self.mass_value(a, b, d) };
        let r: W = conditional_mean(
            a,
            b,
            dim,
            &moment,
            &mass,
            &self.negligible,
            &self.midpoint,
            &self.divide,
        );
        proof {
            let (numerator, denominator) = lemma_mean_parts(
                given_by(moment),
                given_by(mass),
                self.negligible,
                self.midpoint,
                self.divide,
                a,
                b,
                dim,
                r,
            );
            assert(self.moment()(a, b, dim, numerator));
            assert(self.mass()(a, b, dim, denominator));
        }
        r
    }

    /// Whether less than `p` of the distribution lies below `x`.
    pub fn below_value(&self, x: W, p: W, dim: usize) -> (r: bool)
        requires
            self.callable(),
            dim >= 3,
        ensures
            self.below()(x, p, dim, r),
    {
        let c: W = self.mass_value(self.ends.0, x, dim);
        let r: bool = (self.less)(c, p);
        assert(self.integral_of(self.density_of(dim), self.ends.0, x, c));
        r
    }

    /// The quantile in the middle of the `i`-th of `k` equal shares.
    pub fn quantile_value(&self, i: usize, k: usize, dim: usize) -> (r: W)
        requires
            self.callable(),
            dim >= 3,
            i < k,
        ensures
            self.quantile()(i, k, dim, r),
    {
        let p: W = (self.share)(i, k);
        let below = |x: W, p: W, d: usize| -> (r: bool)
            requires
                d >= 3,
            ensures
                self.below()(x, p, d, r),
            { self.below_value(x, p, d) };
        let r: W = beta_ppf(p, dim, self.ends, &self.midpoint, &below, &self.close);
        proof {
            let history = choose|history: Seq<(W, W)>| #[trigger]
                bisection_run(
                    self.midpoint,
                    given_by(below),
                    self.close,
                    p,
                    dim,
                    self.ends,
                    history,
                ) && call_ensures(self.midpoint, history.last(), r);
            lemma_bisection_of_wider_kind(
                self.midpoint,
                given_by(below),
                self.below(),
                self.close,
                p,
                dim,
                self.ends,
                history,
            );
            assert(call_ensures(self.share, (i, k), p));
        }
        r
    }

    /// Compute the codebook for a dimension of at least three.
    pub fn codebook(&self, dim: usize, num_bits: u32) -> (r: (Vec<Float32>, Vec<Float32>))
        requires
            self.callable(),
            dim >= 3,
            num_bits < 32,
        ensures
            self.gives_codebook(dim, num_bits, codebook_view(r)),
            r.0@.len() == pow2(num_bits as nat),
            r.1@.len() == pow2(num_bits as nat) + 1,
    {
        let quantile = |i: usize, k: usize, d: usize| -> (x: W)
            requires
                d >= 3,
                i < k,
            ensures
                self.quantile()(i, k, d, x),
            { self.quantile_value(i, k, d) };
        let mean = |a: W, b: W, d: usize| -> (x: W)
            requires
                d >= 3,
            ensures
                self.mean()(a, b, d, x),
            { self.mean_value(a, b, d) };
        let settled = |before: &Vec<W>, after: &Vec<W>| -> (r: bool)
            requires
                before@.len() == after@.len(),
            ensures
                self.settled()(before@, after@, r),
            {
                let shift: W = largest_shift(
                    before,
                    after,
                    self.zero,
                    &self.distance,
                    &self.larger,
                );
                (self.within)(shift)
            };
        let r: (Vec<Float32>, Vec<Float32>) = compute_codebook(
            dim,
            num_bits,
            self.ends,
            &quantile,
            &self.midpoint,
            &mean,
            &settled,
            &self.narrow,
        );
        proof {
            lemma_lloyd_of_wider_kind(
                given_by(quantile),
                self.quantile(),
                self.midpoint,
                given_by(mean),
                self.mean(),
                answers_given(settled),
                self.settled(),
                self.narrow,
                pow2(num_bits as nat) as usize,
                dim,
                self.ends,
                codebook_view(r),
            );
        }
        r
    }

    /// Get the codebook for the given dimension and bit-width, computed with this arithmetic
    /// unless it is in the cache.
    ///
    /// With arithmetic that respects the order of the numbers it is in order.
    pub fn cached_codebook(&self, cache: &mut CodebookCache, dim: usize, num_bits: u32) -> (r: Result<
        (Vec<Float32>, Vec<Float32>),
        TurboError,
    >)
        requires
            self.callable(),
        ensures
            r is Ok <==> valid_parameters(dim, num_bits),
            !valid_parameters(dim, num_bits) ==> r == Err::<
                (Vec<Float32>, Vec<Float32>),
                TurboError,
            >(parameter_error(dim, num_bits)) && final(cache)@ == old(cache)@,
            r matches Ok(codebook) ==> self.requested(
                dim,
                num_bits,
                old(cache)@,
                final(cache)@,
                codebook_view(codebook),
            ),
            old(cache).sized() ==> final(cache).sized() && (r matches Ok(codebook)
                ==> sized_codebook(codebook_view(codebook), num_bits)),
            old(cache).wf() && (valid_parameters(dim, num_bits) ==> self.has_order(dim, num_bits))
                ==> final(cache).wf() && (r matches Ok(codebook) ==> valid_codebook(
                codebook_view(codebook),
                num_bits,
            )),
            self.filled(old(cache)@) ==> self.filled(final(cache)@) && (r matches Ok(
                codebook,
            ) ==> self.gives_codebook(dim, num_bits, codebook_view(codebook))),
    {
        let compute = |d: usize, b: u32| -> (c: (Vec<Float32>, Vec<Float32>))
            requires
                valid_parameters(d, b),
            ensures
                self.gives_codebook(d, b, codebook_view(c)),
                sized_codebook(codebook_view(c), b),
            { self.codebook(d, b) };
        let r: Result<(Vec<Float32>, Vec<Float32>), TurboError> = get_codebook(
            cache,
            dim,
            num_bits,
            &compute,
        );
        proof {
            if r is Ok {
                self.lemma_request_keeps_order(
                    dim,
                    num_bits,
                    *old(cache),
                    *cache,
                    codebook_view(r->Ok_0),
                );
            }
        }
        r
    }

    /// The squared deviation from `c` times the density.
    pub open spec fn squared_error_of<I: Fn(Float32) -> W, J: Fn(W, W) -> W, S: Fn(W, W) -> W>(
        self,
        errors: ErrorArithmetic<I, J, S>,
        c: W,
        dim: usize,
    ) -> spec_fn(W, W) -> bool {
        |x: W, y: W|
            exists|e: W, t: W|
                {
                    &&& #[trigger] call_ensures(errors.squared_deviation, (x, c), e)
                    &&& #[trigger] density_at(
                        self.to_unit,
                        self.outside,
                        self.density,
                        self.zero,
                        x,
                        dim,
                        t,
                    )
                    &&& call_ensures(self.times, (e, t), y)
                }
    }

    /// Whether `r` is the total with the distortion of one cell added to it.
    pub open spec fn cell_added<I: Fn(Float32) -> W, J: Fn(W, W) -> W, S: Fn(W, W) -> W>(
        self,
        errors: ErrorArithmetic<I, J, S>,
        total: W,
        c: Float32,
        lo: Float32,
        hi: Float32,
        dim: usize,
        r: W,
    ) -> bool {
        exists|center: W, low: W, high: W, v: W|
            {
                &&& #[trigger] call_ensures(errors.widen, (c,), center)
                &&& #[trigger] call_ensures(errors.widen, (lo,), low)
                &&& #[trigger] call_ensures(errors.widen, (hi,), high)
                &&& self.integral_of(self.squared_error_of(errors, center, dim), low, high, v)
                &&& #[trigger] call_ensures(errors.plus, (total, v), r)
            }
    }

    /// Whether the `i`-th total is the one before with the distortion of a cell added to it.
    pub open spec fn cell_added_at<I: Fn(Float32) -> W, J: Fn(W, W) -> W, S: Fn(W, W) -> W>(
        self,
        errors: ErrorArithmetic<I, J, S>,
        dim: usize,
        codebook: CodebookView,
        totals: Seq<W>,
        i: int,
    ) -> bool {
        self.cell_added(
            errors,
            totals[i - 1],
            codebook.0[i - 1],
            codebook.1[i - 1],
            codebook.1[i],
            dim,
            totals[i],
        )
    }

    /// Whether `r` is the distortion of the codebook: the sum over its cells.
    pub open spec fn is_distortion<I: Fn(Float32) -> W, J: Fn(W, W) -> W, S: Fn(W, W) -> W>(
        self,
        errors: ErrorArithmetic<I, J, S>,
        dim: usize,
        codebook: CodebookView,
        r: W,
    ) -> bool {
        exists|totals: Seq<W>|
            {
                &&& totals.len() == codebook.0.len() + 1
                &&& totals[0] == self.zero
                &&& r == #[trigger] totals.last()
                &&& forall|i: int|
                    0 < i < totals.len() ==> #[trigger] self.cell_added_at(
                        errors,
                        dim,
                        codebook,
                        totals,
                        i,
                    )
            }
    }

    /// The squared deviation from `c` times the density, at `x`.
    pub fn squared_error_value<I: Fn(Float32) -> W, J: Fn(W, W) -> W, S: Fn(W, W) -> W>(
        &self,
        errors: &ErrorArithmetic<I, J, S>,
        c: W,
        x: W,
        dim: usize,
    ) -> (r: W)
        requires
            self.callable(),
            errors.callable(),
            dim >= 3,
        ensures
            self.squared_error_of(*errors, c, dim)(x, r),
    {
        let e: W = (errors.squared_deviation)(x, c);
        let t: W = self.density_value(x, dim);
        let r: W = (self.times)(e, t);
        assert(call_ensures(errors.squared_deviation, (x, c), e));
        assert(density_at(self.to_unit, self.outside, self.density, self.zero, x, dim, t));
        r
    }

    /// The total with the distortion of one cell added to it.
    pub fn add_cell<I: Fn(Float32) -> W, J: Fn(W, W) -> W, S: Fn(W, W) -> W>(
        &self,
        errors: &ErrorArithmetic<I, J, S>,
        total: W,
        c: Float32,
        lo: Float32,
        hi: Float32,
        dim: usize,
    ) -> (r: W)
        requires
            self.callable(),
            errors.callable(),
            dim >= 3,
        ensures
            self.cell_added(*errors, total, c, lo, hi, dim, r),
    {
        let center: W = (errors.widen)(c);
        let low: W = (errors.widen)(lo);
        let high: W = (errors.widen)(hi);
        let f = |x: W| -> (y: W)
            ensures
                self.squared_error_of(*errors, center, dim)(x, y),
            { self.squared_error_value(errors, center, x, dim) };
        let v: W = integrate(
            &f,
            low,
            high,
            self.zero,
            &self.degenerate,
            &self.node,
            &self.start,
            &self.accumulate,
            &self.finish,
        );
        proof {
            lemma_integral_of_wider_kind(
                values_given(f),
                self.squared_error_of(*errors, center, dim),
                self.zero,
                self.degenerate,
                self.node,
                self.start,
                self.accumulate,
                self.finish,
                low,
                high,
                v,
            );
            assert(call_ensures(errors.widen, (c,), center));
            assert(call_ensures(errors.widen, (lo,), low));
            assert(call_ensures(errors.widen, (hi,), high));
        }
        let r: W = (errors.plus)(total, v);
        assert(call_ensures(errors.plus, (total, v), r));
        r
    }

    /// The expected squared error of a coordinate, by the codebook for the given dimension and
    /// bit-width.
    pub fn distortion<I: Fn(Float32) -> W, J: Fn(W, W) -> W, S: Fn(W, W) -> W>(
        &self,
        errors: &ErrorArithmetic<I, J, S>,
        cache: &mut CodebookCache,
        dim: usize,
        num_bits: u32,
    ) -> (r: Result<W, TurboError>)
        requires
            self.callable(),
            errors.callable(),
            old(cache).sized(),
        ensures
            final(cache).sized(),
            !valid_parameters(dim, num_bits) ==> r == Err::<W, TurboError>(
                parameter_error(dim, num_bits),
            ) && final(cache)@ == old(cache)@,
            valid_parameters(dim, num_bits) ==> {
                let codebook = final(cache)@[(dim, num_bits)];
                &&& r is Ok
                &&& final(cache)@.contains_key((dim, num_bits))
                &&& self.requested(dim, num_bits, old(cache)@, final(cache)@, codebook)
                &&& self.is_distortion(*errors, dim, codebook, r->Ok_0)
            },
            old(cache).wf() && (valid_parameters(dim, num_bits) ==> self.has_order(dim, num_bits))
                ==> final(cache).wf(),
    {
        let compute = |d: usize, b: u32| -> (c: (Vec<Float32>, Vec<Float32>))
            requires
                valid_parameters(d, b),
            ensures
                self.gives_codebook(d, b, codebook_view(c)),
                sized_codebook(codebook_view(c), b),
            { self.codebook(d, b) };
        let accumulate = |total: W, c: Float32, lo: Float32, hi: Float32, d: usize| -> (r: W)
            requires
                d >= 3,
            ensures
                self.cell_added(*errors, total, c, lo, hi, d, r),
            { self.add_cell(errors, total, c, lo, hi, d) };
        let r: Result<W, TurboError> = per_coordinate_distortion(
            cache,
            dim,
            num_bits,
            &compute,
            self.zero,
            &accumulate,
        );
        proof {
            if valid_parameters(dim, num_bits) {
                let (codebook, totals) = choose|codebook: CodebookView, totals: Seq<W>|
                    {
                        &&& #[trigger] codebook_request(
                            compute,
                            dim,
                            num_bits,
                            old(cache)@,
                            cache@,
                            Ok(codebook),
                        )
                        &&& sized_codebook(codebook, num_bits)
                        &&& #[trigger] distortion_sums(accumulate, self.zero, dim, codebook, totals)
                        &&& r->Ok_0 == totals.last()
                    };
                assert forall|i: int| 0 < i < totals.len() implies #[trigger] self.cell_added_at(
                    *errors,
                    dim,
                    codebook,
                    totals,
                    i,
                ) by {
                    assert(distortion_added(accumulate, dim, codebook, totals, i));
                }
                assert(cache@[(dim, num_bits)] == codebook);
                assert(self.is_distortion(*errors, dim, codebook, r->Ok_0));
                self.lemma_request_keeps_order(dim, num_bits, *old(cache), *cache, codebook);
            }
        }
        r
    }

    /// A request is answered from the cache where the codebook for its dimension and its width is
    /// there, and else with one that Lloyd's iteration comes to for just these, which is in the cache
    /// from then on; no other entry changes.
    pub proof fn law_requested_codebook_is_for_its_parameters(
        self,
        dim: usize,
        num_bits: u32,
        before: Map<(usize, u32), CodebookView>,
        after: Map<(usize, u32), CodebookView>,
        codebook: CodebookView,
    )
        requires
            self.requested(dim, num_bits, before, after, codebook),
        ensures
            before.contains_key((dim, num_bits)) ==> codebook == before[(dim, num_bits)] && after
                == before,
            !before.contains_key((dim, num_bits)) ==> self.gives_codebook(dim, num_bits, codebook),
            after.contains_key((dim, num_bits)) && after[(dim, num_bits)] == codebook,
            forall|key: (usize, u32)|
                key != (dim, num_bits) ==> (#[trigger] after.contains_key(key)
                    <==> before.contains_key(key)) && (before.contains_key(key) ==> after[key]
                    == before[key]),
            self.filled(before) ==> self.gives_codebook(dim, num_bits, codebook) && self.filled(
                after,
            ),
    {
    }
}

} // verus!
