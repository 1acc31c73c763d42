//! Codebooks follow from the dimension and the bit-width, and are in order; random matrices follow
//! from the dimension and the seed.
//!
//! Where each function of the arithmetic gives one result only, so does everything that is
//! computed with it, up to the codebook and to the matrix. Where nothing is rounded before the
//! end, means lie in their cells and quantiles ascend, so that centroids and boundaries do.
use vstd::arithmetic::div_mod::{lemma_fundamental_div_mod, lemma_mod_bound};
use vstd::arithmetic::power2::pow2;
use vstd::prelude::*;

use crate::codebook::{
    bisection_run, bisection_step_to, density_at, law_lloyd_codebook_is_valid,
    lemma_bisection_middle, lemma_lloyd_parts, lemma_mean_parts, lemma_step_cells, lloyd_run,
    lloyd_step, lloyd_step_to, means_within, narrows_in_order, narrows_within, node_added,
    quantiles_ascend, settled_at, shift_folded, shift_of, simpson_sums, simpson_weight,
    units_of_one, valid_codebook, valid_parameters, voronoi, CodebookView,
};
use crate::density::CodebookArithmetic;
use crate::float::Float32;
use crate::linear::{lemma_product_not_negative, lemma_product_rules};
use crate::rotation::{
    corrected_entry, lemma_corrected_signs, lemma_decomposition_history, lemma_qr_step_parts,
    lemma_random_orthogonal_parts, lower_column, num_reflections, product_result, qr_history,
    qr_step, qr_step_from, random_orthogonal, reflection, reflectors, result_on, rows_of,
    MatrixArithmetic,
};

verus! {

// --- Functions with one result ---

/// Whether a function of one argument gives one result only for it.
pub open spec fn one_result<A, R, F: Fn(A) -> R>(f: F) -> bool {
    forall|a: A, x: R, y: R| #[trigger]
        call_ensures(f, (a,), x) && #[trigger] call_ensures(f, (a,), y) ==> x == y
}

/// Whether a function of two arguments gives one result only for them.
pub open spec fn one_result_of_two<A, B, R, F: Fn(A, B) -> R>(f: F) -> bool {
    forall|a: A, b: B, x: R, y: R| #[trigger]
        call_ensures(f, (a, b), x) && #[trigger] call_ensures(f, (a, b), y) ==> x == y
}

/// Whether a function of three arguments gives one result only for them.
pub open spec fn one_result_of_three<A, B, C, R, F: Fn(A, B, C) -> R>(f: F) -> bool {
    forall|a: A, b: B, c: C, x: R, y: R| #[trigger]
        call_ensures(f, (a, b, c), x) && #[trigger] call_ensures(f, (a, b, c), y) ==> x == y
}

/// Whether there is one value only at each place.
pub open spec fn one_value<W>(f: spec_fn(W, W) -> bool) -> bool {
    forall|a: W, x: W, y: W| #[trigger] f(a, x) && #[trigger] f(a, y) ==> x == y
}

impl<
    W: Copy,
    U: Fn(W) -> W,
    O: Fn(W) -> bool,
    Y: Fn(W, usize) -> W,
    X: Fn(W, W) -> W,
    D: Fn(W, W) -> bool,
    P: Fn(W, W, usize) -> W,
    T: Fn(W, W) -> W,
    A: Fn(W, u32, W) -> W,
    Z: Fn(W, W, W) -> W,
    L: Fn(W) -> bool,
    M: Fn(W, W) -> W,
    V: Fn(W, W) -> W,
    B: Fn(W, W) -> bool,
    E: Fn(W, W) -> bool,
    Q: Fn(usize, usize) -> W,
    G: Fn(W, W) -> W,
    H: Fn(W, W) -> W,
    K: Fn(W) -> bool,
    N: Fn(W) -> Float32,
> CodebookArithmetic<W, U, O, Y, X, D, P, T, A, Z, L, M, V, B, E, Q, G, H, K, N> {
    /// Whether the functions that integrals are computed with give one result only.
    pub open spec fn integrates_to_one_result(self) -> bool {
        &&& one_result(self.to_unit)
        &&& one_result(self.outside)
        &&& one_result_of_two(self.density)
        &&& one_result_of_two(self.times)
        &&& one_result_of_two(self.degenerate)
        &&& one_result_of_three(self.node)
        &&& one_result_of_two(self.start)
        &&& one_result_of_three(self.accumulate)
        &&& one_result_of_three(self.finish)
    }

    /// Whether each function gives one result only.
    pub open spec fn single_valued(self) -> bool {
        &&& self.integrates_to_one_result()
        &&& one_result(self.negligible)
        &&& one_result_of_two(self.midpoint)
        &&& one_result_of_two(self.divide)
        &&& one_result_of_two(self.less)
        &&& one_result_of_two(self.close)
        &&& one_result_of_two(self.share)
        &&& one_result_of_two(self.distance)
        &&& one_result_of_two(self.larger)
        &&& one_result(self.within)
        &&& one_result(self.narrow)
    }

    proof fn lemma_one_density(self, x: W, dim: usize, r: W, s: W)
        requires
            self.integrates_to_one_result(),
            density_at(self.to_unit, self.outside, self.density, self.zero, x, dim, r),
            density_at(self.to_unit, self.outside, self.density, self.zero, x, dim, s),
        ensures
            r == s,
    {
    }

    proof fn lemma_densities_have_one_value(self, dim: usize)
        requires
            self.integrates_to_one_result(),
        ensures
            one_value(self.density_of(dim)),
            one_value(self.weighted_density_of(dim)),
    {
        let f = self.density_of(dim);
        assert forall|a: W, x: W, y: W| #[trigger] f(a, x) && #[trigger] f(a, y) implies x == y by {
            self.lemma_one_density(a, dim, x, y);
        }
        let g = self.weighted_density_of(dim);
        assert forall|a: W, x: W, y: W| #[trigger] g(a, x) && #[trigger] g(a, y) implies x == y by {
            let s = choose|s: W| #[trigger]
                density_at(self.to_unit, self.outside, self.density, self.zero, a, dim, s)
                    && call_ensures(self.times, (a, s), x);
            let t = choose|t: W| #[trigger]
                density_at(self.to_unit, self.outside, self.density, self.zero, a, dim, t)
                    && call_ensures(self.times, (a, t), y);
            self.lemma_one_density(a, dim, s, t);
        }
    }

    proof fn lemma_sums_agree(
        self,
        f: spec_fn(W, W) -> bool,
        a: W,
        b: W,
        one: Seq<W>,
        other: Seq<W>,
        i: int,
    )
        requires
            self.integrates_to_one_result(),
            one_value(f),
            simpson_sums(f, self.node, self.start, self.accumulate, a, b, one),
            simpson_sums(f, self.node, self.start, self.accumulate, a, b, other),
            0 <= i < one.len(),
        ensures
            one[i] == other[i],
        decreases i,
    {
        if i > 0 {
            self.lemma_sums_agree(f, a, b, one, other, i - 1);
            assert(node_added(f, self.node, self.accumulate, a, b, one, i));
            assert(node_added(f, self.node, self.accumulate, a, b, other, i));
        }
    }

    /// An integral has one result only.
    proof fn lemma_one_integral(self, f: spec_fn(W, W) -> bool, a: W, b: W, r: W, s: W)
        requires
            self.integrates_to_one_result(),
            one_value(f),
            self.integral_of(f, a, b, r),
            self.integral_of(f, a, b, s),
        ensures
            r == s,
    {
        if !call_ensures(self.degenerate, (a, b), true) {
            let one = self.lemma_sums_of_integral(f, a, b, r);
            let other = self.lemma_sums_of_integral(f, a, b, s);
            self.lemma_sums_agree(f, a, b, one, other, one.len() - 1);
        }
    }

    /// The first moment and the mass that a mean came from.
    pub proof fn lemma_moment_and_mass(self, a: W, b: W, dim: usize, r: W) -> (parts: (W, W))
        requires
            self.mean()(a, b, dim, r),
        ensures
            self.integral_of(self.weighted_density_of(dim), a, b, parts.0),
            self.integral_of(self.density_of(dim), a, b, parts.1),
            call_ensures(self.negligible, (parts.1,), true) && call_ensures(
                self.midpoint,
                (a, b),
                r,
            ) || call_ensures(self.negligible, (parts.1,), false) && call_ensures(
                self.divide,
                (parts.0, parts.1),
                r,
            ),
    {
        lemma_mean_parts(
            self.moment(),
            self.mass(),
            self.negligible,
            self.midpoint,
            self.divide,
            a,
            b,
            dim,
            r,
        )
    }

    /// The integral up to a place that an answer came from.
    pub proof fn lemma_integral_below(self, x: W, p: W, dim: usize, r: bool) -> (c: W)
        requires
            self.below()(x, p, dim, r),
        ensures
            self.integral_of(self.density_of(dim), self.ends.0, x, c),
            call_ensures(self.less, (c, p), r),
    {
        choose|c: W| #[trigger]
            self.integral_of(self.density_of(dim), self.ends.0, x, c) && call_ensures(
                self.less,
                (c, p),
                r,
            )
    }

    /// The sums that an integral over an interval that is not too short came from.
    proof fn lemma_sums_of_integral(self, f: spec_fn(W, W) -> bool, a: W, b: W, r: W) -> (sums: Seq<
        W,
    >)
        requires
            self.integral_of(f, a, b, r),
            !call_ensures(self.degenerate, (a, b), true),
        ensures
            simpson_sums(f, self.node, self.start, self.accumulate, a, b, sums),
            call_ensures(self.finish, (sums.last(), a, b), r),
    {
        choose|sums: Seq<W>| #[trigger]
            simpson_sums(f, self.node, self.start, self.accumulate, a, b, sums) && call_ensures(
                self.finish,
                (sums.last(), a, b),
                r,
            )
    }

    proof fn lemma_one_mean(self, a: W, b: W, dim: usize, r: W, s: W)
        requires
            self.single_valued(),
            self.mean()(a, b, dim, r),
            self.mean()(a, b, dim, s),
        ensures
            r == s,
    {
        self.lemma_densities_have_one_value(dim);
        let (n, d) = self.lemma_moment_and_mass(a, b, dim, r);
        let (m, e) = self.lemma_moment_and_mass(a, b, dim, s);
        self.lemma_one_integral(self.weighted_density_of(dim), a, b, n, m);
        self.lemma_one_integral(self.density_of(dim), a, b, d, e);
    }

    proof fn lemma_one_answer_below(self, x: W, p: W, dim: usize, r: bool, s: bool)
        requires
            self.single_valued(),
            self.below()(x, p, dim, r),
            self.below()(x, p, dim, s),
        ensures
            r == s,
    {
        self.lemma_densities_have_one_value(dim);
        let c = self.lemma_integral_below(x, p, dim, r);
        let d = self.lemma_integral_below(x, p, dim, s);
        self.lemma_one_integral(self.density_of(dim), self.ends.0, x, c, d);
    }

    /// Whether the intervals are those of a bisection for the quantile of `p`.
    pub open spec fn bisects(self, p: W, dim: usize, history: Seq<(W, W)>) -> bool {
        bisection_run(self.midpoint, self.below(), self.close, p, dim, self.ends, history)
    }

    proof fn lemma_bisections_agree(
        self,
        p: W,
        dim: usize,
        one: Seq<(W, W)>,
        other: Seq<(W, W)>,
        t: int,
    )
        requires
            self.single_valued(),
            self.bisects(p, dim, one),
            self.bisects(p, dim, other),
            0 <= t < one.len(),
            t < other.len(),
        ensures
            one[t] == other[t],
        decreases t,
    {
        if t > 0 {
            self.lemma_bisections_agree(p, dim, one, other, t - 1);
            assert(bisection_step_to(self.midpoint, self.below(), p, dim, one, t));
            assert(bisection_step_to(self.midpoint, self.below(), p, dim, other, t));
            let below = self.below();
            let before = one[t - 1];
            let mid = lemma_bisection_middle(
                self.midpoint,
                below,
                p,
                dim,
                before,
                one[t],
            );
            let center = lemma_bisection_middle(
                self.midpoint,
                below,
                p,
                dim,
                before,
                other[t],
            );
            assert(mid == center);
            if below(mid, p, dim, true) && below(mid, p, dim, false) {
                self.lemma_one_answer_below(mid, p, dim, true, false);
            }
        }
    }

    /// A bisection is not shorter than one that it agrees with.
    proof fn lemma_bisection_not_shorter(
        self,
        p: W,
        q: W,
        dim: usize,
        one: Seq<(W, W)>,
        other: Seq<(W, W)>,
    )
        requires
            one_result_of_two(self.close),
            self.bisects(p, dim, one),
            self.bisects(q, dim, other),
            one.len() <= other.len() ==> one.last() == other[one.len() - 1],
        ensures
            one.len() >= other.len(),
    {
        if one.len() < other.len() {
            let last = other[one.len() - 1];
            assert(call_ensures(self.close, last, false));
            assert(call_ensures(self.close, (last.0, last.1), false));
            assert(call_ensures(self.close, (last.0, last.1), true));
        }
    }

    /// The share and the bisection that a quantile came from.
    pub proof fn lemma_quantile_parts(self, i: usize, k: usize, dim: usize, x: W) -> (parts: (
        W,
        Seq<(W, W)>,
    ))
        requires
            self.quantile()(i, k, dim, x),
        ensures
            call_ensures(self.share, (i, k), parts.0),
            self.bisects(parts.0, dim, parts.1),
            call_ensures(self.midpoint, (parts.1.last().0, parts.1.last().1), x),
    {
        let (p, history) = choose|p: W, history: Seq<(W, W)>|
            {
                &&& #[trigger] call_ensures(self.share, (i, k), p)
                &&& #[trigger] bisection_run(
                    self.midpoint,
                    self.below(),
                    self.close,
                    p,
                    dim,
                    self.ends,
                    history,
                )
                &&& call_ensures(self.midpoint, history.last(), x)
            };
        assert(call_ensures(self.midpoint, (history.last().0, history.last().1), x));
        (p, history)
    }

    proof fn lemma_one_quantile(self, i: usize, k: usize, dim: usize, x: W, y: W)
        requires
            self.single_valued(),
            self.quantile()(i, k, dim, x),
            self.quantile()(i, k, dim, y),
        ensures
            x == y,
    {
        let (p, one) = self.lemma_quantile_parts(i, k, dim, x);
        let (q, other) = self.lemma_quantile_parts(i, k, dim, y);
        assert(p == q);
        if one.len() <= other.len() {
            self.lemma_bisections_agree(p, dim, one, other, one.len() - 1);
        }
        if other.len() <= one.len() {
            self.lemma_bisections_agree(p, dim, one, other, other.len() - 1);
        }
        self.lemma_bisection_not_shorter(p, p, dim, one, other);
        self.lemma_bisection_not_shorter(p, p, dim, other, one);
        let last = one.last();
        assert(call_ensures(self.midpoint, (last.0, last.1), x));
        assert(call_ensures(self.midpoint, (last.0, last.1), y));
    }

    proof fn lemma_shifts_agree(
        self,
        before: Seq<W>,
        after: Seq<W>,
        one: Seq<W>,
        other: Seq<W>,
        i: int,
    )
        requires
            self.single_valued(),
            one[0] == other[0],
            forall|j: int|
                0 <= j < before.len() ==> #[trigger] shift_folded(
                    self.distance,
                    self.larger,
                    before,
                    after,
                    one,
                    j,
                ),
            forall|j: int|
                0 <= j < before.len() ==> #[trigger] shift_folded(
                    self.distance,
                    self.larger,
                    before,
                    after,
                    other,
                    j,
                ),
            0 <= i <= before.len(),
        ensures
            one[i] == other[i],
        decreases i,
    {
        if i > 0 {
            self.lemma_shifts_agree(before, after, one, other, i - 1);
            assert(shift_folded(self.distance, self.larger, before, after, one, i - 1));
            assert(shift_folded(self.distance, self.larger, before, after, other, i - 1));
        }
    }

    /// The largest shift that an answer came from, with those of the first centroids.
    pub proof fn lemma_shift_parts(self, before: Seq<W>, after: Seq<W>, r: bool) -> (parts: (W, Seq<W>))
        requires
            self.settled()(before, after, r),
        ensures
            call_ensures(self.within, (parts.0,), r),
            parts.1.len() == before.len() + 1,
            parts.1[0] == self.zero,
            parts.1.last() == parts.0,
            forall|i: int|
                0 <= i < before.len() ==> #[trigger] shift_folded(
                    self.distance,
                    self.larger,
                    before,
                    after,
                    parts.1,
                    i,
                ),
    {
        let shift = choose|shift: W| #[trigger]
            shift_of(self.distance, self.larger, self.zero, before, after, shift)
                && call_ensures(self.within, (shift,), r);
        let folded = choose|folded: Seq<W>|
            {
                &&& #[trigger] folded.len() == before.len() + 1
                &&& folded[0] == self.zero
                &&& folded.last() == shift
                &&& forall|i: int|
                    0 <= i < before.len() ==> #[trigger] shift_folded(
                        self.distance,
                        self.larger,
                        before,
                        after,
                        folded,
                        i,
                    )
            };
        (shift, folded)
    }

    proof fn lemma_one_answer_settled(self, before: Seq<W>, after: Seq<W>, r: bool, s: bool)
        requires
            self.single_valued(),
            self.settled()(before, after, r),
            self.settled()(before, after, s),
        ensures
            r == s,
    {
        let (x, one) = self.lemma_shift_parts(before, after, r);
        let (y, other) = self.lemma_shift_parts(before, after, s);
        self.lemma_shifts_agree(before, after, one, other, before.len() as int);
        assert(x == y);
    }

    proof fn lemma_one_voronoi(self, centroids: Seq<W>, one: Seq<W>, other: Seq<W>)
        requires
            self.single_valued(),
            voronoi(self.midpoint, self.ends, centroids, one),
            voronoi(self.midpoint, self.ends, centroids, other),
        ensures
            one == other,
    {
        assert forall|i: int| 0 <= i < one.len() implies one[i] == other[i] by {
            if 1 <= i < centroids.len() {
                assert(call_ensures(self.midpoint, (centroids[i - 1], centroids[i]), one[i]));
                assert(call_ensures(self.midpoint, (centroids[i - 1], centroids[i]), other[i]));
            }
        }
        assert(one =~= other);
    }

    proof fn lemma_one_step(self, dim: usize, before: Seq<W>, one: Seq<W>, other: Seq<W>)
        requires
            self.single_valued(),
            lloyd_step(self.midpoint, self.mean(), dim, self.ends, before, one),
            lloyd_step(self.midpoint, self.mean(), dim, self.ends, before, other),
        ensures
            one == other,
    {
        let mean = self.mean();
        let b = lemma_step_cells(self.midpoint, mean, dim, self.ends, before, one);
        let c = lemma_step_cells(self.midpoint, mean, dim, self.ends, before, other);
        self.lemma_one_voronoi(before, b, c);
        assert forall|i: int| 0 <= i < one.len() implies one[i] == other[i] by {
            self.lemma_one_mean(b[i], b[i + 1], dim, one[i], other[i]);
        }
        assert(one =~= other);
    }

    /// Whether the centroids are those of a run of Lloyd's iteration.
    pub open spec fn iterates(self, dim: usize, history: Seq<Seq<W>>) -> bool {
        lloyd_run(self.midpoint, self.mean(), self.settled(), dim, self.ends, history)
    }

    proof fn lemma_iterations_agree(
        self,
        dim: usize,
        one: Seq<Seq<W>>,
        other: Seq<Seq<W>>,
        t: int,
    )
        requires
            self.single_valued(),
            self.iterates(dim, one),
            self.iterates(dim, other),
            one[0] == other[0],
            0 <= t < one.len(),
            t < other.len(),
        ensures
            one[t] == other[t],
        decreases t,
    {
        if t > 0 {
            self.lemma_iterations_agree(dim, one, other, t - 1);
            assert(lloyd_step_to(self.midpoint, self.mean(), dim, self.ends, one, t));
            assert(lloyd_step_to(self.midpoint, self.mean(), dim, self.ends, other, t));
            self.lemma_one_step(dim, one[t - 1], one[t], other[t]);
        }
    }

    proof fn lemma_iteration_not_shorter(self, dim: usize, one: Seq<Seq<W>>, other: Seq<Seq<W>>)
        requires
            self.single_valued(),
            self.iterates(dim, one),
            self.iterates(dim, other),
            one[0] == other[0],
        ensures
            one.len() >= other.len(),
    {
        if one.len() < other.len() {
            let t = one.len() - 1;
            self.lemma_iterations_agree(dim, one, other, t);
            self.lemma_iterations_agree(dim, one, other, t - 1);
            assert(settled_at(self.settled(), other, t, false));
            self.lemma_one_answer_settled(one[t - 1], one[t], true, false);
        }
    }

    /// The codebook follows from the dimension and the bit-width: where each function of the
    /// arithmetic gives one result only, there is one codebook only for them.
    pub proof fn law_same_parameters_same_codebook(
        self,
        dim: usize,
        num_bits: u32,
        one: CodebookView,
        other: CodebookView,
    )
        requires
            self.single_valued(),
            self.gives_codebook(dim, num_bits, one),
            self.gives_codebook(dim, num_bits, other),
        ensures
            one.0 == other.0,
            one.1 == other.1,
    {
        let k = pow2(num_bits as nat) as usize;
        let quantile = self.quantile();
        let (h, b) = lemma_lloyd_parts(
            quantile,
            self.midpoint,
            self.mean(),
            self.settled(),
            self.narrow,
            k,
            dim,
            self.ends,
            one,
        );
        let (g, c) = lemma_lloyd_parts(
            quantile,
            self.midpoint,
            self.mean(),
            self.settled(),
            self.narrow,
            k,
            dim,
            self.ends,
            other,
        );
        assert forall|i: int| 0 <= i < k implies h[0][i] == g[0][i] by {
            assert(quantile(i as usize, k, dim, h[0][i]));
            assert(quantile(i as usize, k, dim, g[0][i]));
            self.lemma_one_quantile(i as usize, k, dim, h[0][i], g[0][i]);
        }
        assert(h[0] =~= g[0]);
        self.lemma_iteration_not_shorter(dim, h, g);
        self.lemma_iteration_not_shorter(dim, g, h);
        self.lemma_iterations_agree(dim, h, g, h.len() - 1);
        self.lemma_one_voronoi(h.last(), b, c);
        assert forall|i: int| 0 <= i < one.0.len() implies one.0[i] == other.0[i] by {
            assert(call_ensures(self.narrow, (h.last()[i],), one.0[i]));
            assert(call_ensures(self.narrow, (h.last()[i],), other.0[i]));
        }
        assert forall|i: int| 0 <= i < one.1.len() implies one.1[i] == other.1[i] by {
            assert(call_ensures(self.narrow, (b[i],), one.1[i]));
            assert(call_ensures(self.narrow, (b[i],), other.1[i]));
        }
        assert(one.0 =~= other.0);
        assert(one.1 =~= other.1);
    }
}

// --- Order ---

proof fn lemma_scaled(c: real, u: real, v: real)
    requires
        c >= 0 as real,
        u <= v,
    ensures
        c * u <= c * v,
        u * c <= v * c,
{
    lemma_product_not_negative(c, v - u);
    lemma_product_rules(c, v, u);
    lemma_product_rules(c, u, v);
}

/// Scaling by a factor that is not negative keeps a number between two others.
proof fn lemma_between_products(a: real, x: real, b: real, w: real, y: real)
    requires
        a <= x <= b,
        w >= 0 as real,
        y >= 0 as real,
    ensures
        a * (w * y) <= w * (x * y) <= b * (w * y),
{
    lemma_scaled(y, a, x);
    lemma_scaled(y, x, b);
    lemma_scaled(w, a * y, x * y);
    lemma_scaled(w, x * y, b * y);
    lemma_product_rules(a, w, y);
    lemma_product_rules(w, a, y);
    lemma_product_rules(b, w, y);
    lemma_product_rules(w, b, y);
}

/// A quotient lies between two numbers where the dividend lies between their multiples.
proof fn lemma_quotient_between(
    low: real,
    high: real,
    sum: real,
    weighted: real,
    width: real,
    d: real,
    n: real,
    r: real,
)
    requires
        width >= 0 as real,
        low * sum <= weighted <= high * sum,
        n * 768 as real == weighted * width,
        d * 768 as real == sum * width,
        d > 0 as real,
        r * d == n,
    ensures
        low <= r <= high,
{
    lemma_scaled(width, low * sum, weighted);
    lemma_scaled(width, weighted, high * sum);
    lemma_product_rules(width, low, sum);
    lemma_product_rules(low, width, sum);
    lemma_product_rules(sum, width, low);
    lemma_product_rules(width, high, sum);
    lemma_product_rules(high, width, sum);
    lemma_product_rules(weighted, width, low);
    let many = 768 as real;
    lemma_product_rules(low, d, many);
    lemma_product_rules(high, d, many);
    lemma_product_rules(width, sum, low);
    assert(low * (sum * width) <= weighted * width <= high * (sum * width));
    assert((low * d) * many <= n * many <= (high * d) * many);
    assert(low * d <= n <= high * d);
    if r < low {
        assert(d * (low - r) > 0 as real) by (nonlinear_arith)
            requires
                d > 0 as real,
                low - r > 0 as real,
        ;
        lemma_product_rules(d, low, r);
        lemma_product_rules(d, r, low);
    }
    if r > high {
        assert(d * (r - high) > 0 as real) by (nonlinear_arith)
            requires
                d > 0 as real,
                r - high > 0 as real,
        ;
        lemma_product_rules(d, high, r);
        lemma_product_rules(d, r, high);
    }
}

impl<
    W: Copy,
    U: Fn(W) -> W,
    O: Fn(W) -> bool,
    Y: Fn(W, usize) -> W,
    X: Fn(W, W) -> W,
    D: Fn(W, W) -> bool,
    P: Fn(W, W, usize) -> W,
    T: Fn(W, W) -> W,
    A: Fn(W, u32, W) -> W,
    Z: Fn(W, W, W) -> W,
    L: Fn(W) -> bool,
    M: Fn(W, W) -> W,
    V: Fn(W, W) -> W,
    B: Fn(W, W) -> bool,
    E: Fn(W, W) -> bool,
    Q: Fn(usize, usize) -> W,
    G: Fn(W, W) -> W,
    H: Fn(W, W) -> W,
    K: Fn(W) -> bool,
    N: Fn(W) -> Float32,
> CodebookArithmetic<W, U, O, Y, X, D, P, T, A, Z, L, M, V, B, E, Q, G, H, K, N> {
    /// Whether nothing is rounded before the end, where `value` is the value of a number: sums,
    /// products, quotients and midpoints are exact, densities are not negative, nodes lie between
    /// the ends of their interval, and rounding to single precision keeps the order and is close.
    pub open spec fn exact(self, value: spec_fn(W) -> real) -> bool {
        &&& value(self.zero) == 0 as real
        &&& value(self.ends.0) <= value(self.ends.1)
        &&& forall|t: W, d: usize, r: W| #[trigger]
            call_ensures(self.density, (t, d), r) ==> value(r) >= 0 as real
        &&& forall|a: W, b: W, r: W| #[trigger]
            call_ensures(self.times, (a, b), r) ==> value(r) == value(a) * value(b)
        &&& forall|a: W, b: W, i: usize, x: W| #[trigger]
            call_ensures(self.node, (a, b, i), x) && value(a) <= value(b) ==> value(a) <= value(x)
                <= value(b)
        &&& forall|a: W, b: W, r: W| #[trigger]
            call_ensures(self.start, (a, b), r) ==> value(r) == value(a) + value(b)
        &&& forall|s: W, w: u32, y: W, r: W| #[trigger]
            call_ensures(self.accumulate, (s, w, y), r) ==> value(r) == value(s) + (w as int) as real
                * value(y)
        &&& forall|s: W, a: W, b: W, r: W| #[trigger]
            call_ensures(self.finish, (s, a, b), r) ==> value(r) * 768 as real == value(s) * (value(
                b,
            ) - value(a))
        &&& forall|m: W| #[trigger]
            call_ensures(self.negligible, (m,), false) ==> value(m) > 0 as real
        &&& forall|a: W, b: W, r: W| #[trigger]
            call_ensures(self.midpoint, (a, b), r) ==> 2 as real * value(r) == value(a) + value(b)
        &&& forall|x: W, y: W, r: W| #[trigger]
            call_ensures(self.divide, (x, y), r) && value(y) != 0 as real ==> value(r) * value(y)
                == value(x)
        &&& forall|a: W, b: W, r: bool| #[trigger]
            call_ensures(self.less, (a, b), r) ==> r == (value(a) < value(b))
        &&& forall|i: usize, j: usize, k: usize, p: W, q: W| #[trigger]
            call_ensures(self.share, (i, k), p) && #[trigger] call_ensures(self.share, (j, k), q)
                && i <= j < k ==> value(p) <= value(q)
        &&& narrows_in_order(self.narrow, self.ends, value)
        &&& narrows_within(self.narrow, self.ends, value, pow2(126) as int as real)
    }

    proof fn lemma_density_not_negative(
        self,
        value: spec_fn(W) -> real,
        x: W,
        dim: usize,
        r: W,
    )
        requires
            self.exact(value),
            density_at(self.to_unit, self.outside, self.density, self.zero, x, dim, r),
        ensures
            value(r) >= 0 as real,
    {
    }

    /// The value of the weighted density is the place times the density.
    proof fn lemma_weighted_density(
        self,
        value: spec_fn(W) -> real,
        x: W,
        dim: usize,
        y: W,
        z: W,
    )
        requires
            self.single_valued(),
            self.exact(value),
            self.density_of(dim)(x, y),
            self.weighted_density_of(dim)(x, z),
        ensures
            value(y) >= 0 as real,
            value(z) == value(x) * value(y),
    {
        let t = choose|t: W| #[trigger]
            density_at(self.to_unit, self.outside, self.density, self.zero, x, dim, t)
                && call_ensures(self.times, (x, t), z);
        self.lemma_one_density(x, dim, y, t);
        self.lemma_density_not_negative(value, x, dim, y);
    }

    /// The weighted sums lie between the multiples of the sums by the ends of the interval.
    proof fn lemma_weighted_sums(
        self,
        value: spec_fn(W) -> real,
        dim: usize,
        a: W,
        b: W,
        sums: Seq<W>,
        weighted: Seq<W>,
        i: int,
    )
        requires
            self.single_valued(),
            self.exact(value),
            value(a) <= value(b),
            simpson_sums(
                self.density_of(dim),
                self.node,
                self.start,
                self.accumulate,
                a,
                b,
                sums,
            ),
            simpson_sums(
                self.weighted_density_of(dim),
                self.node,
                self.start,
                self.accumulate,
                a,
                b,
                weighted,
            ),
            0 <= i < sums.len(),
        ensures
            value(a) * value(sums[i]) <= value(weighted[i]) <= value(b) * value(sums[i]),
        decreases i,
    {
        let f = self.density_of(dim);
        let g = self.weighted_density_of(dim);
        if i == 0 {
            let (ya, yb) = choose|ya: W, yb: W|
                {
                    &&& #[trigger] f(a, ya)
                    &&& #[trigger] f(b, yb)
                    &&& call_ensures(self.start, (ya, yb), sums[0])
                };
            let (za, zb) = choose|za: W, zb: W|
                {
                    &&& #[trigger] g(a, za)
                    &&& #[trigger] g(b, zb)
                    &&& call_ensures(self.start, (za, zb), weighted[0])
                };
            self.lemma_weighted_density(value, a, dim, ya, za);
            self.lemma_weighted_density(value, b, dim, yb, zb);
            lemma_product_rules(value(a), value(ya), value(yb));
            lemma_product_rules(value(b), value(ya), value(yb));
            lemma_scaled(value(ya), value(a), value(b));
            lemma_scaled(value(yb), value(a), value(b));
        } else {
            self.lemma_weighted_sums(value, dim, a, b, sums, weighted, i - 1);
            assert(node_added(f, self.node, self.accumulate, a, b, sums, i));
            assert(node_added(g, self.node, self.accumulate, a, b, weighted, i));
            let (x, y) = choose|x: W, y: W|
                {
                    &&& #[trigger] call_ensures(self.node, (a, b, i as usize), x)
                    &&& #[trigger] f(x, y)
                    &&& call_ensures(self.accumulate, (sums[i - 1], simpson_weight(i), y), sums[i])
                };
            let (x2, z) = choose|x2: W, z: W|
                {
                    &&& #[trigger] call_ensures(self.node, (a, b, i as usize), x2)
                    &&& #[trigger] g(x2, z)
                    &&& call_ensures(
                        self.accumulate,
                        (weighted[i - 1], simpson_weight(i), z),
                        weighted[i],
                    )
                };
            assert(x == x2);
            self.lemma_weighted_density(value, x, dim, y, z);
            let w = (simpson_weight(i) as int) as real;
            lemma_between_products(value(a), value(x), value(b), w, value(y));
            lemma_product_rules(value(a), value(sums[i - 1]), w * value(y));
            lemma_product_rules(value(b), value(sums[i - 1]), w * value(y));
        }
    }

    /// The mean of a cell lies in the cell.
    proof fn lemma_mean_within(self, value: spec_fn(W) -> real, dim: usize, a: W, b: W, r: W)
        requires
            self.single_valued(),
            self.exact(value),
            value(a) <= value(b),
            self.mean()(a, b, dim, r),
        ensures
            value(a) <= value(r) <= value(b),
    {
        let (n, d) = self.lemma_moment_and_mass(a, b, dim, r);
        if call_ensures(self.negligible, (d,), false) {
            assert(value(d) > 0 as real);
            let f = self.density_of(dim);
            let g = self.weighted_density_of(dim);
            assert(self.integral_of(f, a, b, d));
            assert(self.integral_of(g, a, b, n));
            assert(d != self.zero);
            assert(call_ensures(self.degenerate, (a, b), false));
            assert(!call_ensures(self.degenerate, (a, b), true));
            let sums = self.lemma_sums_of_integral(f, a, b, d);
            let weighted = self.lemma_sums_of_integral(g, a, b, n);
            self.lemma_weighted_sums(value, dim, a, b, sums, weighted, sums.len() - 1);
            lemma_quotient_between(
                value(a),
                value(b),
                value(sums.last()),
                value(weighted.last()),
                value(b) - value(a),
                value(d),
                value(n),
                value(r),
            );
        }
    }

    /// The intervals of a bisection are nested.
    proof fn lemma_bisection_nested(
        self,
        value: spec_fn(W) -> real,
        p: W,
        dim: usize,
        history: Seq<(W, W)>,
        s: int,
        t: int,
    )
        requires
            self.exact(value),
            self.bisects(p, dim, history),
            0 <= s <= t < history.len(),
        ensures
            value(history[s].0) <= value(history[t].0) <= value(history[t].1) <= value(
                history[s].1,
            ),
        decreases t,
    {
        if t > 0 {
            self.lemma_bisection_nested(
                value,
                p,
                dim,
                history,
                if s < t {
                    s
                } else {
                    t - 1
                },
                t - 1,
            );
            assert(bisection_step_to(self.midpoint, self.below(), p, dim, history, t));
            let before = history[t - 1];
            let below = self.below();
            let mid = lemma_bisection_middle(
                self.midpoint,
                below,
                p,
                dim,
                before,
                history[t],
            );
        }
    }

    /// Where less lies below a place than one number, less lies below it than a larger one.
    proof fn lemma_below_grows(
        self,
        value: spec_fn(W) -> real,
        x: W,
        p: W,
        q: W,
        dim: usize,
    )
        requires
            self.single_valued(),
            self.exact(value),
            value(p) <= value(q),
            self.below()(x, p, dim, true),
        ensures
            !self.below()(x, q, dim, false),
    {
        if self.below()(x, q, dim, false) {
            self.lemma_densities_have_one_value(dim);
            let c = self.lemma_integral_below(x, p, dim, true);
            let d = self.lemma_integral_below(x, q, dim, false);
            self.lemma_one_integral(self.density_of(dim), self.ends.0, x, c, d);
        }
    }

    /// Two bisections agree, or part with the one for the smaller number below the other.
    proof fn lemma_bisections_part_in_order(
        self,
        value: spec_fn(W) -> real,
        p: W,
        q: W,
        dim: usize,
        one: Seq<(W, W)>,
        other: Seq<(W, W)>,
        t: int,
    ) -> (s: int)
        requires
            self.single_valued(),
            self.exact(value),
            value(p) <= value(q),
            self.bisects(p, dim, one),
            self.bisects(q, dim, other),
            0 <= t < one.len(),
            t < other.len(),
        ensures
            one[t] == other[t] || (0 <= s <= t && value(one[s].1) <= value(other[s].0)),
        decreases t,
    {
        if t == 0 {
            0
        } else {
            let s = self.lemma_bisections_part_in_order(value, p, q, dim, one, other, t - 1);
            if one[t - 1] == other[t - 1] {
                assert(bisection_step_to(self.midpoint, self.below(), p, dim, one, t));
                assert(bisection_step_to(self.midpoint, self.below(), q, dim, other, t));
                let before = one[t - 1];
                let below = self.below();
                let mid = lemma_bisection_middle(
                    self.midpoint,
                    below,
                    p,
                    dim,
                    before,
                    one[t],
                );
                let center = lemma_bisection_middle(
                    self.midpoint,
                    below,
                    q,
                    dim,
                    before,
                    other[t],
                );
                assert(mid == center);
                if below(mid, p, dim, true) {
                    self.lemma_below_grows(value, mid, p, q, dim);
                }
                t
            } else {
                s
            }
        }
    }

    /// Quantiles ascend between the ends.
    proof fn lemma_quantiles_in_order(
        self,
        value: spec_fn(W) -> real,
        i: usize,
        j: usize,
        k: usize,
        dim: usize,
        x: W,
        y: W,
    )
        requires
            self.single_valued(),
            self.exact(value),
            i <= j < k,
            self.quantile()(i, k, dim, x),
            self.quantile()(j, k, dim, y),
        ensures
            value(self.ends.0) <= value(x) <= value(y) <= value(self.ends.1),
    {
        let (p, one) = self.lemma_quantile_parts(i, k, dim, x);
        let (q, other) = self.lemma_quantile_parts(j, k, dim, y);
        assert(value(p) <= value(q));
        let m = one.len() - 1;
        let n = other.len() - 1;
        self.lemma_bisection_nested(value, p, dim, one, 0, m);
        self.lemma_bisection_nested(value, q, dim, other, 0, n);
        assert(call_ensures(self.midpoint, (one[m].0, one[m].1), x));
        assert(call_ensures(self.midpoint, (other[n].0, other[n].1), y));
        let t = if m <= n {
            m
        } else {
            n
        };
        let s = self.lemma_bisections_part_in_order(value, p, q, dim, one, other, t);
        if one[t] == other[t] {
            self.lemma_bisection_not_shorter(p, q, dim, one, other);
            self.lemma_bisection_not_shorter(q, p, dim, other, one);
            assert(x == y);
        } else {
            self.lemma_bisection_nested(value, p, dim, one, s, m);
            self.lemma_bisection_nested(value, q, dim, other, s, n);
        }
    }

    /// Arithmetic that rounds nothing before the end respects the order of numbers: means lie in
    /// their cells and quantiles ascend.
    pub proof fn law_exact_arithmetic_is_orderly(
        self,
        value: spec_fn(W) -> real,
        dim: usize,
        num_bits: u32,
    )
        requires
            self.single_valued(),
            self.exact(value),
        ensures
            self.orderly(value, dim, num_bits),
    {
        let k = pow2(num_bits as nat) as usize;
        let mean = self.mean();
        let quantile = self.quantile();
        assert forall|a: W, b: W, r: W|
            value(a) <= value(b) && #[trigger] mean(a, b, dim, r) implies value(a) <= value(r)
            <= value(b) by {
            self.lemma_mean_within(value, dim, a, b, r);
        }
        assert forall|i: usize, j: usize, x: W, y: W|
            i <= j < k && #[trigger] quantile(i, k, dim, x) && #[trigger] quantile(
                j,
                k,
                dim,
                y,
            ) implies value(self.ends.0) <= value(x) <= value(y) <= value(self.ends.1) by {
            self.lemma_quantiles_in_order(value, i, j, k, dim, x, y);
        }
        assert forall|a: W, b: W, r: W|
            value(self.ends.0) <= value(a) <= value(b) <= value(self.ends.1)
                && #[trigger] call_ensures(self.midpoint, (a, b), r) implies -(pow2(
            128,
        ) as int as real) <= (2 as real * value(r) - value(a) - value(b)) * units_of_one() <= pow2(
            128,
        ) as int as real by {
            assert(2 as real * value(r) - value(a) - value(b) == 0 as real);
            lemma_product_rules(units_of_one(), 0 as real, 0 as real);
        }
        assert(means_within(mean, dim, value));
        assert(quantiles_ascend(quantile, k, dim, self.ends, value));
    }

    /// With arithmetic that rounds nothing before the end, what Lloyd's iteration comes to is a
    /// codebook: centroids that ascend between -1 and 1, and boundaries around them.
    pub proof fn law_exact_codebook_is_valid(
        self,
        value: spec_fn(W) -> real,
        dim: usize,
        num_bits: u32,
        codebook: CodebookView,
    )
        requires
            valid_parameters(dim, num_bits),
            self.single_valued(),
            self.exact(value),
            self.gives_codebook(dim, num_bits, codebook),
        ensures
            valid_codebook(codebook, num_bits),
    {
        self.law_exact_arithmetic_is_orderly(value, dim, num_bits);
        law_lloyd_codebook_is_valid(
            self.quantile(),
            self.midpoint,
            self.mean(),
            self.settled(),
            self.narrow,
            value,
            num_bits,
            dim,
            self.ends,
            codebook,
        );
    }
}

// --- Matrices ---

impl<
    W,
    N: Fn(&Vec<W>) -> W,
    Z: Fn(W) -> bool,
    S: Fn(W) -> bool,
    A: Fn(W, bool, W) -> W,
    V: Fn(W, W) -> W,
    E: Fn(W, W, bool) -> W,
    P: Fn(&Vec<Vec<W>>, &Vec<Vec<W>>) -> Vec<Vec<W>>,
> MatrixArithmetic<W, N, Z, S, A, V, E, P> {
    /// Whether each function gives one result only.
    pub open spec fn single_valued(self) -> bool {
        &&& forall|x: Seq<W>, a: W, b: W| #[trigger]
            result_on(self.norm, x, a) && #[trigger] result_on(self.norm, x, b) ==> a == b
        &&& one_result(self.negligible)
        &&& one_result(self.nonnegative)
        &&& one_result_of_three(self.shift)
        &&& one_result_of_two(self.divide)
        &&& one_result_of_three(self.entry)
        &&& forall|x: Seq<Seq<W>>, y: Seq<Seq<W>>, a: Seq<Seq<W>>, b: Seq<Seq<W>>| #[trigger]
            product_result(self.product, x, y, a) && #[trigger] product_result(
                self.product,
                x,
                y,
                b,
            ) ==> a == b
    }

    /// The vectors that the numbers are reflected by.
    pub open spec fn directions(self) -> spec_fn(Seq<W>, Option<Seq<W>>) -> bool {
        reflectors(self.norm, self.negligible, self.nonnegative, self.shift, self.divide)
    }

    proof fn lemma_one_direction(self, x: Seq<W>, one: Option<Seq<W>>, other: Option<Seq<W>>)
        requires
            self.single_valued(),
            self.directions()(x, one),
            self.directions()(x, other),
        ensures
            one == other,
    {
        if one is Some && other is Some {
            let u = one->Some_0;
            let v = other->Some_0;
            assert(u =~= v);
        }
    }

    proof fn lemma_one_reflection(self, u: Seq<W>, one: Seq<Seq<W>>, other: Seq<Seq<W>>)
        requires
            self.single_valued(),
            reflection(self.entry, u, one),
            reflection(self.entry, u, other),
        ensures
            one == other,
    {
        assert forall|i: int| 0 <= i < one.len() implies one[i] == other[i] by {
            assert forall|j: int| 0 <= j < u.len() implies one[i][j] == other[i][j] by {
                assert(call_ensures(self.entry, (u[i], u[j], i == j), one[i][j]));
                assert(call_ensures(self.entry, (u[i], u[j], i == j), other[i][j]));
            }
            assert(one[i] =~= other[i]);
        }
        assert(one =~= other);
    }

    proof fn lemma_one_qr_step(
        self,
        k: int,
        before: (Seq<Seq<W>>, Seq<Seq<W>>),
        one: (Seq<Seq<W>>, Seq<Seq<W>>),
        other: (Seq<Seq<W>>, Seq<Seq<W>>),
    )
        requires
            self.single_valued(),
            qr_step(self.directions(), self.entry, self.product, k, before, one),
            qr_step(self.directions(), self.entry, self.product, k, before, other),
        ensures
            one == other,
    {
        let direction = self.directions();
        let x = lower_column(before.1, k);
        let (u, h, hr, qh) = lemma_qr_step_parts(direction, self.entry, self.product, k, before, one);
        let (v, g, gr, qg) = lemma_qr_step_parts(direction, self.entry, self.product, k, before, other);
        self.lemma_one_direction(x, u, v);
        if u is Some {
            self.lemma_one_reflection(u->Some_0, h, g);
        }
    }

    proof fn lemma_qr_histories_agree(
        self,
        a: Seq<Seq<W>>,
        steps: int,
        one: Seq<(Seq<Seq<W>>, Seq<Seq<W>>)>,
        other: Seq<(Seq<Seq<W>>, Seq<Seq<W>>)>,
        k: int,
    )
        requires
            self.single_valued(),
            qr_history(
                self.directions(),
                self.entry,
                self.product,
                self.zero,
                self.one,
                a,
                steps,
                one,
            ),
            qr_history(
                self.directions(),
                self.entry,
                self.product,
                self.zero,
                self.one,
                a,
                steps,
                other,
            ),
            0 <= k <= steps,
        ensures
            one[k] == other[k],
        decreases k,
    {
        if k > 0 {
            self.lemma_qr_histories_agree(a, steps, one, other, k - 1);
            assert(qr_step_from(self.directions(), self.entry, self.product, one, k - 1));
            assert(qr_step_from(self.directions(), self.entry, self.product, other, k - 1));
            self.lemma_one_qr_step(k - 1, one[k - 1], one[k], other[k]);
        }
    }

    /// Where each function of the arithmetic gives one result only, a matrix has one pair of
    /// factors only.
    pub proof fn law_same_matrix_same_factors(
        self,
        a: Seq<Seq<W>>,
        q: Seq<Seq<W>>,
        r: Seq<Seq<W>>,
        other_q: Seq<Seq<W>>,
        other_r: Seq<Seq<W>>,
    )
        requires
            self.single_valued(),
            a.len() > 0,
            self.decomposes(a, q, r),
            self.decomposes(a, other_q, other_r),
        ensures
            q == other_q,
            r == other_r,
    {
        let steps = num_reflections(a.len() as int, a[0].len() as int);
        let one = lemma_decomposition_history(
            self.directions(),
            self.entry,
            self.product,
            self.zero,
            self.one,
            a,
            q,
            r,
        );
        let other = lemma_decomposition_history(
            self.directions(),
            self.entry,
            self.product,
            self.zero,
            self.one,
            a,
            other_q,
            other_r,
        );
        self.lemma_qr_histories_agree(a, steps, one, other, steps);
    }
}

/// The random orthogonal matrix follows from the dimension and the seed: where the random numbers
/// are always the same for them and each function of the arithmetic gives one result only, there
/// is one such matrix only.
pub proof fn law_same_seed_same_orthogonal_matrix<
    W,
    T,
    G: Fn(usize, u64) -> Vec<Vec<W>>,
    N: Fn(&Vec<W>) -> W,
    Z: Fn(W) -> bool,
    S: Fn(W) -> bool,
    A: Fn(W, bool, W) -> W,
    V: Fn(W, W) -> W,
    E: Fn(W, W, bool) -> W,
    P: Fn(&Vec<Vec<W>>, &Vec<Vec<W>>) -> Vec<Vec<W>>,
    B: Fn(W, bool) -> W,
    C: Fn(W) -> T,
>(
    random_matrix: G,
    ops: MatrixArithmetic<W, N, Z, S, A, V, E, P>,
    signed: B,
    narrow: C,
    n: usize,
    seed: u64,
    one: Seq<T>,
    other: Seq<T>,
)
    requires
        n > 0,
        forall|a: Vec<Vec<W>>, b: Vec<Vec<W>>| #[trigger]
            call_ensures(random_matrix, (n, seed), a) && #[trigger] call_ensures(
                random_matrix,
                (n, seed),
                b,
            ) ==> rows_of(a) == rows_of(b),
        ops.single_valued(),
        one_result_of_two(signed),
        one_result(narrow),
        random_orthogonal(random_matrix, ops, signed, narrow, n, seed, one),
        random_orthogonal(random_matrix, ops, signed, narrow, n, seed, other),
    ensures
        one == other,
{
    let (a, q, r) = lemma_random_orthogonal_parts(
        random_matrix,
        ops,
        signed,
        narrow,
        n,
        seed,
        one,
    );
    let (b, p, s) = lemma_random_orthogonal_parts(
        random_matrix,
        ops,
        signed,
        narrow,
        n,
        seed,
        other,
    );
    assert(rows_of(a) == rows_of(b));
    ops.law_same_matrix_same_factors(rows_of(a), q, r, p, s);
    let x = lemma_corrected_signs(ops.nonnegative, signed, narrow, q, r, one);
    let y = lemma_corrected_signs(ops.nonnegative, signed, narrow, q, r, other);
    assert forall|j: int| 0 <= j < n implies x[j] == y[j] by {
        assert(call_ensures(ops.nonnegative, (r[j][j],), x[j]));
        assert(call_ensures(ops.nonnegative, (r[j][j],), y[j]));
    }
    assert(x =~= y);
    let d = n as int;
    assert forall|e: int| 0 <= e < one.len() implies one[e] == other[e] by {
        let i = e / d;
        let j = e % d;
        lemma_fundamental_div_mod(e, d);
        lemma_mod_bound(e, d);
        assert(0 <= i < d) by (nonlinear_arith)
            requires
                0 <= e < d * d,
                d > 0,
                i == e / d,
        ;
        assert(d * i == i * d) by (nonlinear_arith);
        assert(corrected_entry(signed, narrow, q, x, one, i, j));
        assert(corrected_entry(signed, narrow, q, x, other, i, j));
    }
    assert(one =~= other);
}

} // verus!
