//! What codebooks are where nothing is rounded.
//!
//! Integrals are those of Simpson's rule over 256 parts of the interval, the centroid of a cell
//! times the mass of the cell is the cell's first moment, and quantiles are places up to which the
//! mass reaches the share that is asked for. All of these are of the density for the dimension that
//! the codebook is for.
use vstd::arithmetic::power2::{
    lemma2_to64, lemma_pow2_strictly_increases, lemma_pow2_unfold, pow2,
};
use vstd::prelude::*;

use crate::codebook::{
    bisection_step_to, density_at, law_bisection_brackets, lemma_bisection_middle,
    lemma_lloyd_parts, lemma_step_cells, lloyd_run, lloyd_step_to, node_added, settled_at,
    shift_folded, simpson_sums, simpson_weight, CodebookView,
};
use crate::density::{CodebookArithmetic, ErrorArithmetic};
use crate::float::Float32;
use crate::linear::{lemma_product_rules, sum};

verus! {

// --- Simpson's rule on real numbers ---

/// What Simpson's rule over 256 parts of an interval adds for node `k + 1` between the ends: the
/// value there, four times and twice in turn.
pub open spec fn simpson_term(g: spec_fn(real) -> real, a: real, b: real) -> spec_fn(int) -> real {
    |k: int|
        (if k % 2 == 0 {
            4 as real
        } else {
            2 as real
        }) * g(a + (k + 1) as real * (b - a) / 256 as real)
}

/// The weighted sum of Simpson's rule over 256 parts of an interval: the values at the ends count
/// once, and those at the nodes in between four times and twice in turn.
pub open spec fn simpson_total(g: spec_fn(real) -> real, a: real, b: real) -> real {
    g(a) + g(b) + sum(255, simpson_term(g, a, b))
}

/// The integral by Simpson's rule over 256 parts of an interval.
pub open spec fn simpson_rule(g: spec_fn(real) -> real, a: real, b: real) -> real {
    simpson_total(g, a, b) * (b - a) / 768 as real
}

/// A polynomial of degree three.
pub open spec fn cubic(c: (real, real, real, real)) -> spec_fn(real) -> real {
    |x: real| c.0 + c.1 * x + c.2 * (x * x) + c.3 * (x * x * x)
}

/// Twelve times the antiderivative of a polynomial of degree three.
pub open spec fn twelve_antiderivatives(c: (real, real, real, real), x: real) -> real {
    12 as real * (c.0 * x) + 6 as real * (c.1 * (x * x)) + 4 as real * (c.2 * (x * x * x)) + 3 as real
        * (c.3 * (x * x * x * x))
}

/// A factor can be taken out of a product.
proof fn lemma_factor_out(a: real, k: real, b: real)
    ensures
        a * (k * b) == k * (a * b),
{
    lemma_product_rules(a, k, b);
    lemma_product_rules(k, a, b);
}

proof fn lemma_distribute(a: real, b: real, c: real, d: real, e: real)
    ensures
        a * (b + c + d + e) == a * b + a * c + a * d + a * e,
{
    lemma_product_rules(a, b + c + d, e);
    lemma_product_rules(a, b + c, d);
    lemma_product_rules(a, b, c);
}

/// The powers of a sum.
proof fn lemma_powers_of_sum(u: real, s: real)
    ensures
        (u + s) * (u + s) == u * u + 2 as real * (u * s) + s * s,
        (u + s) * (u + s) * (u + s) == u * u * u + 3 as real * (u * u * s) + 3 as real * (u * s * s)
            + s * s * s,
        (u + s) * (u + s) * (u + s) * (u + s) == u * u * u * u + 4 as real * (u * u * u * s)
            + 6 as real * (u * u * s * s) + 4 as real * (u * s * s * s) + s * s * s * s,
{
    let x = u + s;
    let zero = 0 as real;
    lemma_product_rules(x, u, s);
    lemma_product_rules(u, u, s);
    lemma_product_rules(s, u, s);
    lemma_product_rules(u, x, zero);
    lemma_product_rules(s, x, zero);
    let q = x * x;
    let uu = u * u;
    let us = u * s;
    let ss = s * s;
    assert(q == uu + 2 as real * us + ss);
    lemma_product_rules(q, u, s);
    lemma_product_rules(q, s, u);
    lemma_distribute(u, uu, 2 as real * us, ss, zero);
    lemma_distribute(s, uu, 2 as real * us, ss, zero);
    lemma_product_rules(u, q, zero);
    lemma_product_rules(s, q, zero);
    lemma_factor_out(u, 2 as real, us);
    lemma_factor_out(s, 2 as real, us);
    let uuu = uu * u;
    let uus = uu * s;
    let uss = us * s;
    let sss = ss * s;
    lemma_product_rules(u, uu, zero);
    lemma_product_rules(u, u, s);
    lemma_product_rules(u, s, s);
    lemma_product_rules(s, uu, zero);
    lemma_product_rules(s, us, zero);
    lemma_product_rules(s, ss, zero);
    assert(u * us == uus);
    assert(u * ss == uss);
    let t = q * x;
    assert(t == uuu + 3 as real * uus + 3 as real * uss + sss);
    lemma_product_rules(t, u, s);
    lemma_product_rules(t, s, u);
    lemma_distribute(u, uuu, 3 as real * uus, 3 as real * uss, sss);
    lemma_distribute(s, uuu, 3 as real * uus, 3 as real * uss, sss);
    lemma_product_rules(u, t, zero);
    lemma_product_rules(s, t, zero);
    lemma_factor_out(u, 3 as real, uus);
    lemma_factor_out(u, 3 as real, uss);
    lemma_factor_out(s, 3 as real, uus);
    lemma_factor_out(s, 3 as real, uss);
    lemma_product_rules(u, uuu, zero);
    lemma_product_rules(u, uu, s);
    lemma_product_rules(u, us, s);
    lemma_product_rules(u, ss, s);
    lemma_product_rules(s, uuu, zero);
    lemma_product_rules(s, uus, zero);
    lemma_product_rules(s, uss, zero);
    lemma_product_rules(s, sss, zero);
    assert(u * uus == uuu * s);
    assert(u * uss == uus * s);
    assert(u * sss == uss * s);
}

/// Over two parts of the same length, Simpson's rule integrates polynomials of degree three exactly.
proof fn lemma_two_parts(c: (real, real, real, real), u: real, h: real)
    ensures
        4 as real * (h * (cubic(c)(u) + 4 as real * cubic(c)(u + h) + cubic(c)(u + h + h)))
            == twelve_antiderivatives(c, u + h + h) - twelve_antiderivatives(c, u),
{
    let s = h + h;
    let zero = 0 as real;
    let v = u + h;
    let w = u + h + h;
    assert(w == u + s);
    lemma_powers_of_sum(u, h);
    lemma_powers_of_sum(u, s);
    let uu = u * u;
    let uuu = u * u * u;
    let uh = u * h;
    let hh = h * h;
    let hhh = h * h * h;
    let uuh = u * u * h;
    let uhh = u * h * h;
    let uuuh = u * u * u * h;
    let uuhh = u * u * h * h;
    let uhhh = u * h * h * h;
    let hhhh = h * h * h * h;
    lemma_product_rules(u, h, h);
    lemma_product_rules(s, h, h);
    lemma_product_rules(h, h, h);
    lemma_product_rules(uu, h, h);
    lemma_product_rules(uuu, h, h);
    assert(s * h == 2 as real * hh) by {
        lemma_product_rules(h, s, zero);
    }
    assert(s * s == 4 as real * hh);
    assert(u * s == 2 as real * uh);
    lemma_product_rules(u * s, h, h);
    lemma_product_rules(h, uh, uh);
    lemma_product_rules(uh, h, zero);
    lemma_factor_out(h, 2 as real, uh);
    lemma_product_rules(h, u * s, zero);
    assert(u * s * h == 2 as real * uhh);
    assert(u * s * s == 4 as real * uhh);
    lemma_product_rules(h, s * s, zero);
    lemma_product_rules(s * s, h, h);
    lemma_factor_out(h, 4 as real, hh);
    lemma_product_rules(h, hh, zero);
    assert(s * s * h == 4 as real * hhh);
    assert(s * s * s == 8 as real * hhh);
    assert(u * u * s == 2 as real * uuh);
    assert(u * u * u * s == 2 as real * uuuh);
    lemma_product_rules(u * u * s, h, h);
    lemma_product_rules(h, u * u * s, zero);
    lemma_factor_out(h, 2 as real, uuh);
    lemma_product_rules(h, uuh, zero);
    assert(u * u * s * h == 2 as real * uuhh);
    assert(u * u * s * s == 4 as real * uuhh);
    lemma_product_rules(u * s * s, h, h);
    lemma_product_rules(h, u * s * s, zero);
    lemma_factor_out(h, 4 as real, uhh);
    lemma_product_rules(h, uhh, zero);
    assert(u * s * s * h == 4 as real * uhhh);
    assert(u * s * s * s == 8 as real * uhhh);
    lemma_product_rules(s * s * s, h, h);
    lemma_product_rules(h, s * s * s, zero);
    lemma_factor_out(h, 8 as real, hhh);
    lemma_product_rules(h, hhh, zero);
    assert(s * s * s * h == 8 as real * hhhh);
    assert(s * s * s * s == 16 as real * hhhh);
    // The values at the three nodes, by powers.
    let one = u + 4 as real * v + w;
    let two = u * u + 4 as real * (v * v) + w * w;
    let three = u * u * u + 4 as real * (v * v * v) + w * w * w;
    assert(one == 6 as real * u + 6 as real * h);
    assert(two == 6 as real * uu + 12 as real * uh + 8 as real * hh);
    assert(three == 6 as real * uuu + 18 as real * uuh + 24 as real * uhh + 12 as real * hhh);
    lemma_distribute(c.1, u, 4 as real * v, w, zero);
    lemma_distribute(c.2, u * u, 4 as real * (v * v), w * w, zero);
    lemma_distribute(c.3, u * u * u, 4 as real * (v * v * v), w * w * w, zero);
    lemma_product_rules(c.1, zero, zero);
    lemma_product_rules(c.2, zero, zero);
    lemma_product_rules(c.3, zero, zero);
    lemma_factor_out(c.1, 4 as real, v);
    lemma_factor_out(c.2, 4 as real, v * v);
    lemma_factor_out(c.3, 4 as real, v * v * v);
    let g = cubic(c);
    let sum = g(u) + 4 as real * g(v) + g(w);
    assert(sum == 6 as real * c.0 + c.1 * one + c.2 * two + c.3 * three);
    lemma_distribute(h, 6 as real * c.0, c.1 * one, c.2 * two, c.3 * three);
    lemma_factor_out(h, 6 as real, c.0);
    lemma_factor_out(h, c.1, one);
    lemma_factor_out(h, c.2, two);
    lemma_factor_out(h, c.3, three);
    lemma_distribute(h, 6 as real * u, 6 as real * h, zero, zero);
    lemma_factor_out(h, 6 as real, u);
    lemma_factor_out(h, 6 as real, h);
    lemma_product_rules(h, u, zero);
    lemma_product_rules(h, c.0, zero);
    assert(h * one == 6 as real * uh + 6 as real * hh);
    lemma_distribute(h, 6 as real * uu, 12 as real * uh, 8 as real * hh, zero);
    lemma_factor_out(h, 6 as real, uu);
    lemma_factor_out(h, 12 as real, uh);
    lemma_factor_out(h, 8 as real, hh);
    lemma_product_rules(h, uu, zero);
    assert(h * two == 6 as real * uuh + 12 as real * uhh + 8 as real * hhh);
    lemma_distribute(
        h,
        6 as real * uuu,
        18 as real * uuh,
        24 as real * uhh,
        12 as real * hhh,
    );
    lemma_factor_out(h, 6 as real, uuu);
    lemma_factor_out(h, 18 as real, uuh);
    lemma_factor_out(h, 24 as real, uhh);
    lemma_factor_out(h, 12 as real, hhh);
    lemma_product_rules(h, uuu, zero);
    assert(h * three == 6 as real * uuuh + 18 as real * uuhh + 24 as real * uhhh + 12 as real
        * hhhh);
    // The antiderivatives, by powers.
    lemma_product_rules(c.0, w, u);
    lemma_product_rules(c.0, h, h);
    lemma_product_rules(c.1, w * w, u * u);
    lemma_product_rules(c.2, w * w * w, u * u * u);
    lemma_product_rules(c.3, w * w * w * w, u * u * u * u);
    assert(c.1 * (w * w - u * u) == 4 as real * (c.1 * (uh + hh))) by {
        assert(w * w - u * u == 4 as real * (uh + hh));
        lemma_factor_out(c.1, 4 as real, uh + hh);
    }
    assert(c.1 * (h * one) == 6 as real * (c.1 * (uh + hh))) by {
        assert(h * one == 6 as real * (uh + hh));
        lemma_factor_out(c.1, 6 as real, uh + hh);
    }
    let third = 3 as real * uuh + 6 as real * uhh + 4 as real * hhh;
    assert(c.2 * (w * w * w - u * u * u) == 2 as real * (c.2 * third)) by {
        assert(w * w * w - u * u * u == 2 as real * third);
        lemma_factor_out(c.2, 2 as real, third);
    }
    assert(c.2 * (h * two) == 2 as real * (c.2 * third)) by {
        assert(h * two == 2 as real * third);
        lemma_factor_out(c.2, 2 as real, third);
    }
    let fourth = uuuh + 3 as real * uuhh + 4 as real * uhhh + 2 as real * hhhh;
    assert(c.3 * (w * w * w * w - u * u * u * u) == 8 as real * (c.3 * fourth)) by {
        assert(w * w * w * w - u * u * u * u == 8 as real * fourth);
        lemma_factor_out(c.3, 8 as real, fourth);
    }
    assert(c.3 * (h * three) == 6 as real * (c.3 * fourth)) by {
        assert(h * three == 6 as real * fourth);
        lemma_factor_out(c.3, 6 as real, fourth);
    }
    assert(c.0 * (w - u) == 2 as real * (c.0 * h)) by {
        assert(w - u == 2 as real * h);
        lemma_factor_out(c.0, 2 as real, h);
    }
}

proof fn lemma_even_parts(c: (real, real, real, real), a: real, b: real, h: real, j: nat)
    requires
        b - a == 256 as real * h,
        j <= 127,
    ensures
        4 as real * (h * (cubic(c)(a) + sum(2 * j, simpson_term(cubic(c), a, b)) - cubic(c)(
            a + (2 * j) as real * h,
        ))) == twelve_antiderivatives(c, a + (2 * j) as real * h) - twelve_antiderivatives(c, a),
    decreases j,
{
    let g = cubic(c);
    let f = simpson_term(g, a, b);
    let zero = 0 as real;
    if j == 0 {
        lemma_product_rules(h, zero, zero);
        assert((2 * j) as real * h == zero);
    } else {
        let i = (j - 1) as nat;
        lemma_even_parts(c, a, b, h, i);
        let u = a + (2 * i) as real * h;
        lemma_node(a, b, h, 2 * i + 1);
        lemma_node(a, b, h, 2 * i + 2);
        lemma_product_rules(h, (2 * i) as real, 1 as real);
        lemma_product_rules(h, (2 * i) as real, 2 as real);
        lemma_product_rules(h, (2 * i + 1) as real, zero);
        lemma_product_rules(h, (2 * i + 2) as real, zero);
        assert(a + (2 * i + 1) as real * h == u + h);
        assert(a + (2 * i + 2) as real * h == u + h + h);
        lemma_two_parts(c, u, h);
        assert(f((2 * i) as int) == 4 as real * g(u + h));
        assert(f((2 * i + 1) as int) == 2 as real * g(u + h + h));
        assert(sum(2 * j, f) == sum((2 * j - 1) as nat, f) + f(2 * j - 1));
        assert(sum((2 * j - 1) as nat, f) == sum((2 * j - 2) as nat, f) + f(2 * j - 2));
        assert(2 * i == 2 * j - 2);
        let before = g(a) + sum(2 * i, f) - g(u);
        let more = g(u) + 4 as real * g(u + h) + g(u + h + h);
        lemma_product_rules(h, before, more);
        assert(g(a) + sum(2 * j, f) - g(u + h + h) == before + more);
    }
}

/// A node, by the length of a part.
proof fn lemma_node(a: real, b: real, h: real, k: nat)
    requires
        b - a == 256 as real * h,
    ensures
        a + k as real * (b - a) / 256 as real == a + k as real * h,
{
    lemma_factor_out(k as real, 256 as real, h);
}

/// Simpson's rule is exact on polynomials of degree three: twelve times the integral is the
/// difference of twelve times the antiderivative at the ends.
pub proof fn law_simpsons_rule_is_exact_on_cubics(
    c: (real, real, real, real),
    a: real,
    b: real,
)
    ensures
        12 as real * simpson_rule(cubic(c), a, b) == twelve_antiderivatives(c, b)
            - twelve_antiderivatives(c, a),
{
    let g = cubic(c);
    let f = simpson_term(g, a, b);
    let h = (b - a) / 256 as real;
    let u = a + 254 as real * h;
    lemma_even_parts(c, a, b, h, 127);
    lemma_two_parts(c, u, h);
    lemma_node(a, b, h, 255);
    assert(u + h == a + 255 as real * h);
    assert(u + h + h == b);
    assert(f(254) == 4 as real * g(u + h));
    assert(sum(255, f) == sum(254, f) + f(254));
    let before = g(a) + sum(254, f) - g(u);
    let more = g(u) + 4 as real * g(u + h) + g(b);
    lemma_product_rules(h, before, more);
    let total = g(a) + g(b) + sum(255, f);
    assert(total == before + more);
    lemma_factor_out(total, 256 as real, h);
    lemma_product_rules(total, h, h);
}

/// A density on the interval from -1 to 1, which is zero outside of the interval.
pub open spec fn within(p: spec_fn(real) -> real) -> spec_fn(real) -> real {
    |x: real|
        if -(1 as real) < x < 1 as real {
            p(x)
        } else {
            0 as real
        }
}

/// The place times the density there.
pub open spec fn weighted(p: spec_fn(real) -> real) -> spec_fn(real) -> real {
    |x: real| x * within(p)(x)
}

impl<
    W: Copy,
    U: Fn(W) -> W,
    O: Fn(W) -> bool,
    Y: Fn(W, usize) -> W,
    X: Fn(W, W) -> W,
    D: Fn(W, W) -> bool,
    P: Fn(W, W, usize) -> W,
    T: Fn(W, W) -> W,
    A: Fn(W, u32, W) -> W,
    Z: Fn(W, W, W) -> W,
    L: Fn(W) -> bool,
    M: Fn(W, W) -> W,
    V: Fn(W, W) -> W,
    B: Fn(W, W) -> bool,
    E: Fn(W, W) -> bool,
    Q: Fn(usize, usize) -> W,
    G: Fn(W, W) -> W,
    H: Fn(W, W) -> W,
    K: Fn(W) -> bool,
    N: Fn(W) -> Float32,
> CodebookArithmetic<W, U, O, Y, X, D, P, T, A, Z, L, M, V, B, E, Q, G, H, K, N> {
    /// Whether integrals are computed without rounding, where `value` is the value of a number: the
    /// nodes divide the interval into 256 equal parts, and sums and products are exact.
    pub open spec fn integrates_exactly(self, value: spec_fn(W) -> real) -> bool {
        &&& value(self.zero) == 0 as real
        &&& forall|a: W, b: W, i: usize, x: W| #[trigger]
            call_ensures(self.node, (a, b, i), x) ==> value(x) == value(a) + (i as int) as real * (
            value(b) - value(a)) / 256 as real
        &&& forall|a: W, b: W, r: W| #[trigger]
            call_ensures(self.start, (a, b), r) ==> value(r) == value(a) + value(b)
        &&& forall|s: W, w: u32, y: W, r: W| #[trigger]
            call_ensures(self.accumulate, (s, w, y), r) ==> value(r) == value(s) + (w as int) as real
                * value(y)
        &&& forall|s: W, a: W, b: W, r: W| #[trigger]
            call_ensures(self.finish, (s, a, b), r) ==> value(r) == value(s) * (value(b) - value(a))
                / 768 as real
        &&& forall|a: W, b: W, r: W| #[trigger]
            call_ensures(self.times, (a, b), r) ==> value(r) == value(a) * value(b)
        &&& forall|a: W, b: W|
            !(#[trigger] call_ensures(self.degenerate, (a, b), true) && call_ensures(
                self.degenerate,
                (a, b),
                false,
            ))
    }

    /// Whether `p` is the density for the dimension: what `density` gives for a place between -1 and
    /// 1, taken to the unit interval, and for that dimension.
    pub open spec fn has_density(
        self,
        value: spec_fn(W) -> real,
        dim: usize,
        p: spec_fn(real) -> real,
    ) -> bool {
        &&& forall|x: W, t: W, out: bool| #[trigger]
            call_ensures(self.to_unit, (x,), t) && #[trigger] call_ensures(self.outside, (t,), out)
                ==> out == !(-(1 as real) < value(x) < 1 as real)
        &&& forall|x: W, t: W, r: W| #[trigger]
            call_ensures(self.to_unit, (x,), t) && #[trigger] call_ensures(
                self.density,
                (t, dim),
                r,
            ) ==> value(r) == p(value(x))
    }

    proof fn lemma_sums_are_exact(
        self,
        value: spec_fn(W) -> real,
        f: spec_fn(W, W) -> bool,
        g: spec_fn(real) -> real,
        a: W,
        b: W,
        sums: Seq<W>,
        n: nat,
    )
        requires
            self.integrates_exactly(value),
            forall|x: W, y: W| #[trigger] f(x, y) ==> value(y) == g(value(x)),
            simpson_sums(f, self.node, self.start, self.accumulate, a, b, sums),
            n < sums.len(),
        ensures
            value(sums[n as int]) == g(value(a)) + g(value(b)) + sum(
                n,
                simpson_term(g, value(a), value(b)),
            ),
        decreases n,
    {
        if n > 0 {
            self.lemma_sums_are_exact(value, f, g, a, b, sums, (n - 1) as nat);
            assert(node_added(f, self.node, self.accumulate, a, b, sums, n as int));
            let (x, y) = choose|x: W, y: W|
                {
                    &&& #[trigger] call_ensures(self.node, (a, b, n as usize), x)
                    &&& #[trigger] f(x, y)
                    &&& call_ensures(
                        self.accumulate,
                        (sums[n - 1], simpson_weight(n as int), y),
                        sums[n as int],
                    )
                };
            assert(value(x) == value(a) + (n as int) as real * (value(b) - value(a)) / 256 as real);
            assert(value(y) == g(value(x)));
        }
    }

    /// Where nothing is rounded, an integral over an interval that is not too short is that of
    /// Simpson's rule, for every function; otherwise it is zero.
    pub proof fn law_integrals_are_by_simpsons_rule(
        self,
        value: spec_fn(W) -> real,
        f: spec_fn(W, W) -> bool,
        g: spec_fn(real) -> real,
        a: W,
        b: W,
        r: W,
    )
        requires
            self.integrates_exactly(value),
            forall|x: W, y: W| #[trigger] f(x, y) ==> value(y) == g(value(x)),
            self.integral_of(f, a, b, r),
        ensures
            call_ensures(self.degenerate, (a, b), true) && r == self.zero || call_ensures(
                self.degenerate,
                (a, b),
                false,
            ) && value(r) == simpson_rule(g, value(a), value(b)),
    {
        if !(r == self.zero && call_ensures(self.degenerate, (a, b), true)) {
            let sums = choose|sums: Seq<W>| #[trigger]
                simpson_sums(f, self.node, self.start, self.accumulate, a, b, sums)
                    && call_ensures(self.finish, (sums.last(), a, b), r);
            self.lemma_sums_are_exact(value, f, g, a, b, sums, 255);
        }
    }

    /// Where nothing is rounded, polynomials of degree three are integrated exactly: twelve times the
    /// integral is the difference of twelve times the antiderivative at the ends.
    pub proof fn law_cubics_are_integrated_exactly(
        self,
        value: spec_fn(W) -> real,
        f: spec_fn(W, W) -> bool,
        c: (real, real, real, real),
        a: W,
        b: W,
        r: W,
    )
        requires
            self.integrates_exactly(value),
            forall|x: W, y: W| #[trigger] f(x, y) ==> value(y) == cubic(c)(value(x)),
            self.integral_of(f, a, b, r),
            !call_ensures(self.degenerate, (a, b), true),
        ensures
            12 as real * value(r) == twelve_antiderivatives(c, value(b)) - twelve_antiderivatives(
                c,
                value(a),
            ),
    {
        self.law_integrals_are_by_simpsons_rule(value, f, cubic(c), a, b, r);
        law_simpsons_rule_is_exact_on_cubics(c, value(a), value(b));
    }

    /// The density at a place is one that `density` gives for that place in the unit interval and for
    /// just this dimension, or zero where the place is not inside of the interval.
    pub proof fn law_density_is_that_of_the_dimension(self, x: W, dim: usize, y: W)
        requires
            self.density_of(dim)(x, y),
        ensures
            exists|t: W, out: bool|
                {
                    &&& #[trigger] call_ensures(self.to_unit, (x,), t)
                    &&& #[trigger] call_ensures(self.outside, (t,), out)
                    &&& out ==> y == self.zero
                    &&& !out ==> call_ensures(self.density, (t, dim), y)
                },
    {
    }

    /// Where nothing is rounded, the mass of a cell is the integral of the density for the
    /// dimension, and the first moment that of the place times that density.
    pub proof fn law_mass_and_moment_are_integrals(
        self,
        value: spec_fn(W) -> real,
        dim: usize,
        p: spec_fn(real) -> real,
        a: W,
        b: W,
        r: W,
    )
        requires
            self.integrates_exactly(value),
            self.has_density(value, dim, p),
        ensures
            self.mass()(a, b, dim, r) ==> call_ensures(self.degenerate, (a, b), true) && r
                == self.zero || call_ensures(self.degenerate, (a, b), false) && value(r)
                == simpson_rule(within(p), value(a), value(b)),
            self.moment()(a, b, dim, r) ==> call_ensures(self.degenerate, (a, b), true) && r
                == self.zero || call_ensures(self.degenerate, (a, b), false) && value(r)
                == simpson_rule(weighted(p), value(a), value(b)),
    {
        let f = self.density_of(dim);
        assert forall|x: W, y: W| #[trigger] f(x, y) implies value(y) == within(p)(value(x)) by {
            self.law_density_is_that_of_the_dimension(x, dim, y);
        }
        let h = self.weighted_density_of(dim);
        assert forall|x: W, y: W| #[trigger] h(x, y) implies value(y) == weighted(p)(value(x)) by {
            let t = choose|t: W| #[trigger]
                density_at(self.to_unit, self.outside, self.density, self.zero, x, dim, t)
                    && call_ensures(self.times, (x, t), y);
            assert(f(x, t));
        }
        if self.mass()(a, b, dim, r) {
            self.law_integrals_are_by_simpsons_rule(value, f, within(p), a, b, r);
        }
        if self.moment()(a, b, dim, r) {
            self.law_integrals_are_by_simpsons_rule(value, h, weighted(p), a, b, r);
        }
    }

    /// Whether `r` is the mass between `a` and `b`, for the density `p`: the integral, or zero where
    /// the interval is too short.
    pub open spec fn is_mass(
        self,
        value: spec_fn(W) -> real,
        p: spec_fn(real) -> real,
        a: W,
        b: W,
        r: W,
    ) -> bool {
        ||| call_ensures(self.degenerate, (a, b), true) && r == self.zero
        ||| call_ensures(self.degenerate, (a, b), false) && value(r) == simpson_rule(
            within(p),
            value(a),
            value(b),
        )
    }

    /// Whether means are computed without rounding from masses and moments.
    pub open spec fn divides_exactly(self, value: spec_fn(W) -> real) -> bool {
        &&& forall|m: W| #[trigger]
            call_ensures(self.negligible, (m,), false) ==> value(m) != 0 as real
        &&& forall|a: W, b: W, r: W| #[trigger]
            call_ensures(self.midpoint, (a, b), r) ==> 2 as real * value(r) == value(a) + value(b)
        &&& forall|x: W, y: W, r: W| #[trigger]
            call_ensures(self.divide, (x, y), r) && value(y) != 0 as real ==> value(r) * value(y)
                == value(x)
    }

    /// Where nothing is rounded, the mean of a cell times the mass of the cell is the cell's first
    /// moment, both of the density for the dimension; where the mass is negligible, the mean is the
    /// midpoint.
    pub proof fn law_mean_times_mass_is_moment(
        self,
        value: spec_fn(W) -> real,
        dim: usize,
        p: spec_fn(real) -> real,
        a: W,
        b: W,
        r: W,
    ) -> (mass: W)
        requires
            self.integrates_exactly(value),
            self.divides_exactly(value),
            self.has_density(value, dim, p),
            self.mean()(a, b, dim, r),
        ensures
            self.is_mass(value, p, a, b, mass),
            call_ensures(self.negligible, (mass,), true) && 2 as real * value(r) == value(a)
                + value(b) || call_ensures(self.negligible, (mass,), false) && value(r)
                * simpson_rule(within(p), value(a), value(b)) == simpson_rule(
                weighted(p),
                value(a),
                value(b),
            ),
    {
        let (moment, mass) = self.lemma_moment_and_mass(a, b, dim, r);
        self.law_mass_and_moment_are_integrals(value, dim, p, a, b, mass);
        self.law_mass_and_moment_are_integrals(value, dim, p, a, b, moment);
        mass
    }

    /// Where nothing is rounded, less than `p` of the distribution lies below a place exactly if the
    /// mass from -1 to the place is less.
    pub proof fn law_below_compares_the_mass(
        self,
        value: spec_fn(W) -> real,
        dim: usize,
        density: spec_fn(real) -> real,
        x: W,
        p: W,
        r: bool,
    ) -> (mass: W)
        requires
            self.integrates_exactly(value),
            self.has_density(value, dim, density),
            forall|a: W, b: W, r: bool| #[trigger]
                call_ensures(self.less, (a, b), r) ==> r == (value(a) < value(b)),
            self.below()(x, p, dim, r),
        ensures
            self.is_mass(value, density, self.ends.0, x, mass),
            r == (value(mass) < value(p)),
    {
        let mass = self.lemma_integral_below(x, p, dim, r);
        self.law_mass_and_moment_are_integrals(value, dim, density, self.ends.0, x, mass);
        mass
    }

    proof fn lemma_intervals_halve(
        self,
        value: spec_fn(W) -> real,
        p: W,
        dim: usize,
        history: Seq<(W, W)>,
        t: nat,
    )
        requires
            self.divides_exactly(value),
            self.bisects(p, dim, history),
            t < history.len(),
        ensures
            (value(history[t as int].1) - value(history[t as int].0)) * (pow2(t) as int) as real
                == value(self.ends.1) - value(self.ends.0),
        decreases t,
    {
        if t == 0 {
            lemma2_to64();
            let width = value(self.ends.1) - value(self.ends.0);
            lemma_product_rules(width, width, width);
            assert((pow2(0) as int) as real == 1 as real);
        } else {
            let s = (t - 1) as nat;
            self.lemma_intervals_halve(value, p, dim, history, s);
            assert(bisection_step_to(self.midpoint, self.below(), p, dim, history, t as int));
            let (lo, hi) = history[s as int];
            let mid = lemma_bisection_middle(
                self.midpoint,
                self.below(),
                p,
                dim,
                history[s as int],
                history[t as int],
            );
            assert(2 as real * value(mid) == value(lo) + value(hi));
            let half = value(history[t as int].1) - value(history[t as int].0);
            assert(2 as real * half == value(hi) - value(lo));
            lemma_pow2_unfold(t);
            let q = (pow2(s) as int) as real;
            assert((pow2(t) as int) as real == 2 as real * q);
            lemma_product_rules(half, 2 as real, q);
            lemma_product_rules(2 as real, half, q);
        }
    }

    /// Where nothing is rounded, a quantile is the middle of an interval that halving the one from -1
    /// to 1 comes to: at its lower end the mass is less than the share of `i` among `k`, unless that
    /// is -1, and at its upper end it is not, unless that is 1. Halving stops at the first interval
    /// that is found short enough, or after 100 times.
    pub proof fn law_quantiles_reach_their_share(
        self,
        value: spec_fn(W) -> real,
        dim: usize,
        density: spec_fn(real) -> real,
        i: usize,
        k: usize,
        x: W,
    ) -> (parts: (W, Seq<(W, W)>, W, W))
        requires
            self.integrates_exactly(value),
            self.divides_exactly(value),
            self.has_density(value, dim, density),
            forall|a: W, b: W, r: bool| #[trigger]
                call_ensures(self.less, (a, b), r) ==> r == (value(a) < value(b)),
            self.quantile()(i, k, dim, x),
        ensures
            call_ensures(self.share, (i, k), parts.0),
            2 <= parts.1.len() <= 101,
            parts.1[0] == self.ends,
            2 as real * value(x) == value(parts.1.last().0) + value(parts.1.last().1),
            (value(parts.1.last().1) - value(parts.1.last().0)) * (pow2(
                (parts.1.len() - 1) as nat,
            ) as int) as real == value(self.ends.1) - value(self.ends.0),
            forall|t: int|
                0 < t < parts.1.len() - 1 ==> call_ensures(self.close, #[trigger] parts.1[t], false),
            call_ensures(self.close, parts.1.last(), true) || parts.1.len() == 101,
            parts.1.last().0 == self.ends.0 || self.is_mass(
                value,
                density,
                self.ends.0,
                parts.1.last().0,
                parts.2,
            ) && value(parts.2) < value(parts.0),
            parts.1.last().1 == self.ends.1 || self.is_mass(
                value,
                density,
                self.ends.0,
                parts.1.last().1,
                parts.3,
            ) && value(parts.3) >= value(parts.0),
    {
        let (p, history) = self.lemma_quantile_parts(i, k, dim, x);
        let t = history.len() - 1;
        self.lemma_intervals_halve(value, p, dim, history, t as nat);
        law_bisection_brackets(
            self.midpoint,
            self.below(),
            self.close,
            p,
            dim,
            self.ends,
            history,
            t,
        );
        let (lo, hi) = history.last();
        let low = if lo == self.ends.0 {
            self.zero
        } else {
            self.law_below_compares_the_mass(value, dim, density, lo, p, true)
        };
        let high = if hi == self.ends.1 {
            self.zero
        } else {
            self.law_below_compares_the_mass(value, dim, density, hi, p, false)
        };
        (p, history, low, high)
    }

    proof fn lemma_folded_shift(
        self,
        value: spec_fn(W) -> real,
        before: Seq<W>,
        after: Seq<W>,
        folded: Seq<W>,
        n: int,
        i: int,
    )
        requires
            self.measures_shifts_exactly(value),
            value(self.zero) == 0 as real,
            folded.len() == before.len() + 1,
            folded[0] == self.zero,
            forall|i: int|
                0 <= i < before.len() ==> #[trigger] shift_folded(
                    self.distance,
                    self.larger,
                    before,
                    after,
                    folded,
                    i,
                ),
            0 <= i < n <= before.len(),
        ensures
            value(folded[n]) >= value(before[i]) - value(after[i]),
            value(folded[n]) >= value(after[i]) - value(before[i]),
        decreases n,
    {
        assert(shift_folded(self.distance, self.larger, before, after, folded, n - 1));
        if i < n - 1 {
            self.lemma_folded_shift(value, before, after, folded, n - 1, i);
        }
    }

    proof fn lemma_folded_shift_is_one(
        self,
        value: spec_fn(W) -> real,
        before: Seq<W>,
        after: Seq<W>,
        folded: Seq<W>,
        n: int,
    ) -> (i: int)
        requires
            self.measures_shifts_exactly(value),
            value(self.zero) == 0 as real,
            folded.len() == before.len() + 1,
            folded[0] == self.zero,
            forall|i: int|
                0 <= i < before.len() ==> #[trigger] shift_folded(
                    self.distance,
                    self.larger,
                    before,
                    after,
                    folded,
                    i,
                ),
            0 <= n <= before.len(),
        ensures
            value(folded[n]) == 0 as real || 0 <= i < n && (value(folded[n]) == value(before[i])
                - value(after[i]) || value(folded[n]) == value(after[i]) - value(before[i])),
        decreases n,
    {
        if n == 0 {
            0
        } else {
            let i = self.lemma_folded_shift_is_one(value, before, after, folded, n - 1);
            assert(shift_folded(self.distance, self.larger, before, after, folded, n - 1));
            if value(folded[n]) == value(folded[n - 1]) {
                i
            } else {
                n - 1
            }
        }
    }

    /// Whether distances and the larger one of two numbers are found without rounding.
    pub open spec fn measures_shifts_exactly(self, value: spec_fn(W) -> real) -> bool {
        &&& forall|a: W, b: W, r: W| #[trigger]
            call_ensures(self.distance, (a, b), r) ==> value(r) == if value(a) <= value(b) {
                value(b) - value(a)
            } else {
                value(a) - value(b)
            }
        &&& forall|a: W, b: W, r: W| #[trigger]
            call_ensures(self.larger, (a, b), r) ==> value(r) == if value(a) <= value(b) {
                value(b)
            } else {
                value(a)
            }
    }

    /// Where nothing is rounded, a step is found to have settled by the largest shift of any of the
    /// centroids: the shift that is compared with the tolerance is that of one of them, or zero where
    /// there are none, and no centroid was shifted further.
    pub proof fn law_settled_by_the_largest_shift(
        self,
        value: spec_fn(W) -> real,
        before: Seq<W>,
        after: Seq<W>,
        r: bool,
    ) -> (parts: (W, int))
        requires
            value(self.zero) == 0 as real,
            self.measures_shifts_exactly(value),
            self.settled()(before, after, r),
        ensures
            call_ensures(self.within, (parts.0,), r),
            forall|i: int|
                0 <= i < before.len() ==> value(#[trigger] before[i]) - value(after[i]) <= value(
                    parts.0,
                ) && value(after[i]) - value(before[i]) <= value(parts.0),
            value(parts.0) == 0 as real || 0 <= parts.1 < before.len() && (value(parts.0) == value(
                before[parts.1],
            ) - value(after[parts.1]) || value(parts.0) == value(after[parts.1]) - value(
                before[parts.1],
            )),
    {
        let (shift, folded) = self.lemma_shift_parts(before, after, r);
        let n = before.len() as int;
        assert forall|i: int| 0 <= i < before.len() implies value(#[trigger] before[i]) - value(
            after[i],
        ) <= value(shift) && value(after[i]) - value(before[i]) <= value(shift) by {
            self.lemma_folded_shift(value, before, after, folded, n, i);
        }
        let i = self.lemma_folded_shift_is_one(value, before, after, folded, n);
        (shift, i)
    }

    /// Whether `c` is the mean of the cell of centroid `i`, which reaches to halfway to the
    /// neighbours, or to the end where there is none.
    pub open spec fn is_mean_of_cell(
        self,
        dim: usize,
        centroids: Seq<W>,
        i: int,
        c: W,
    ) -> bool {
        exists|lo: W, hi: W|
            {
                &&& #[trigger] self.mean()(lo, hi, dim, c)
                &&& i == 0 ==> lo == self.ends.0
                &&& i > 0 ==> call_ensures(self.midpoint, (centroids[i - 1], centroids[i]), lo)
                &&& i == centroids.len() - 1 ==> hi == self.ends.1
                &&& i < centroids.len() - 1 ==> call_ensures(
                    self.midpoint,
                    (centroids[i], centroids[i + 1]),
                    hi,
                )
            }
    }

    /// A codebook comes from centroids that start at the quantiles of the `2^b` equal shares and each
    /// become the mean of their cell, over and over until a step has settled, or for 200 steps. The
    /// last ones and the midpoints between them, from -1 to 1, are rounded to single precision.
    pub proof fn law_codebook_comes_from_its_iteration(
        self,
        dim: usize,
        num_bits: u32,
        codebook: CodebookView,
        k: int,
    ) -> (parts: (Seq<Seq<W>>, Seq<W>))
        requires
            1 <= num_bits <= 8,
            k == pow2(num_bits as nat),
            self.gives_codebook(dim, num_bits, codebook),
        ensures
            2 <= parts.0.len() <= 201,
            forall|t: int| 0 <= t < parts.0.len() ==> (#[trigger] parts.0[t]).len() == k,
            forall|i: int|
                0 <= i < k ==> self.quantile()(i as usize, k as usize, dim, #[trigger] parts.0[0][i]),
            forall|t: int, i: int|
                0 < t < parts.0.len() && 0 <= i < k ==> self.is_mean_of_cell(
                    dim,
                    parts.0[t - 1],
                    i,
                    #[trigger] parts.0[t][i],
                ),
            forall|t: int|
                0 < t < parts.0.len() - 1 ==> self.settled()(
                    parts.0[t - 1],
                    #[trigger] parts.0[t],
                    false,
                ),
            self.settled()(parts.0[parts.0.len() - 2], parts.0.last(), true) || parts.0.len() == 201,
            codebook.0.len() == k,
            forall|i: int|
                0 <= i < k ==> call_ensures(
                    self.narrow,
                    (parts.0.last()[i],),
                    #[trigger] codebook.0[i],
                ),
            parts.1.len() == k + 1,
            parts.1[0] == self.ends.0,
            parts.1[k] == self.ends.1,
            forall|i: int|
                0 < i < k ==> call_ensures(
                    self.midpoint,
                    (parts.0.last()[i - 1], parts.0.last()[i]),
                    #[trigger] parts.1[i],
                ),
            codebook.1.len() == k + 1,
            forall|i: int|
                0 <= i <= k ==> call_ensures(
                    self.narrow,
                    (parts.1[i],),
                    #[trigger] codebook.1[i],
                ),
    {
        lemma2_to64();
        if num_bits < 8 {
            lemma_pow2_strictly_increases(num_bits as nat, 8);
        }
        let (history, boundaries) = lemma_lloyd_parts(
            self.quantile(),
            self.midpoint,
            self.mean(),
            self.settled(),
            self.narrow,
            k as usize,
            dim,
            self.ends,
            codebook,
        );
        assert forall|t: int| 0 <= t < history.len() implies (#[trigger] history[t]).len() == k by {
            self.lemma_same_number(dim, k, history, t);
        }
        assert forall|t: int, i: int|
            0 < t < history.len() && 0 <= i < k implies self.is_mean_of_cell(
            dim,
            history[t - 1],
            i,
            #[trigger] history[t][i],
        ) by {
            self.lemma_same_number(dim, k, history, t);
            self.lemma_same_number(dim, k, history, t - 1);
            assert(lloyd_step_to(self.midpoint, self.mean(), dim, self.ends, history, t));
            let cells = lemma_step_cells(
                self.midpoint,
                self.mean(),
                dim,
                self.ends,
                history[t - 1],
                history[t],
            );
            let mean = self.mean();
            assert(mean(cells[i], cells[i + 1], dim, history[t][i]));
        }
        assert forall|t: int| 0 < t < history.len() - 1 implies self.settled()(
            history[t - 1],
            #[trigger] history[t],
            false,
        ) by {
            assert(settled_at(self.settled(), history, t, false));
        }
        (history, boundaries)
    }

    proof fn lemma_same_number(self, dim: usize, k: int, history: Seq<Seq<W>>, t: int)
        requires
            lloyd_run(self.midpoint, self.mean(), self.settled(), dim, self.ends, history),
            history[0].len() == k,
            0 <= t < history.len(),
        ensures
            history[t].len() == k,
        decreases t,
    {
        if t > 0 {
            self.lemma_same_number(dim, k, history, t - 1);
            assert(lloyd_step_to(self.midpoint, self.mean(), dim, self.ends, history, t));
        }
    }

    /// Where nothing is rounded, the mean of the cell of a centroid is the cell's centre of mass: the
    /// cell reaches to halfway to the neighbouring centroids, from -1 and to 1 at the ends, and the
    /// mean times the mass of the cell is its first moment, for the dimension's density.
    pub proof fn law_centroids_are_centres_of_mass(
        self,
        value: spec_fn(W) -> real,
        dim: usize,
        p: spec_fn(real) -> real,
        centroids: Seq<W>,
        i: int,
        c: W,
    ) -> (parts: (W, W, W))
        requires
            self.integrates_exactly(value),
            self.divides_exactly(value),
            self.has_density(value, dim, p),
            0 <= i < centroids.len(),
            self.is_mean_of_cell(dim, centroids, i, c),
        ensures
            2 as real * value(parts.0) == if i == 0 {
                2 as real * value(self.ends.0)
            } else {
                value(centroids[i - 1]) + value(centroids[i])
            },
            2 as real * value(parts.1) == if i == centroids.len() - 1 {
                2 as real * value(self.ends.1)
            } else {
                value(centroids[i]) + value(centroids[i + 1])
            },
            self.is_mass(value, p, parts.0, parts.1, parts.2),
            call_ensures(self.negligible, (parts.2,), true) && 2 as real * value(c) == value(
                parts.0,
            ) + value(parts.1) || call_ensures(self.negligible, (parts.2,), false) && value(c)
                * simpson_rule(within(p), value(parts.0), value(parts.1)) == simpson_rule(
                weighted(p),
                value(parts.0),
                value(parts.1),
            ),
    {
        let (lo, hi) = choose|lo: W, hi: W|
            {
                &&& #[trigger] self.mean()(lo, hi, dim, c)
                &&& i == 0 ==> lo == self.ends.0
                &&& i > 0 ==> call_ensures(self.midpoint, (centroids[i - 1], centroids[i]), lo)
                &&& i == centroids.len() - 1 ==> hi == self.ends.1
                &&& i < centroids.len() - 1 ==> call_ensures(
                    self.midpoint,
                    (centroids[i], centroids[i + 1]),
                    hi,
                )
            };
        let mass = self.law_mean_times_mass_is_moment(value, dim, p, lo, hi, c);
        (lo, hi, mass)
    }

    /// Where nothing is rounded, each centroid of a computed codebook is, before it is rounded to
    /// single precision, the centre of mass of a cell: the cell reaches to halfway to the neighbours
    /// among the centroids of the step before, and the centroid times the mass of the cell is its
    /// first moment, for the density of the dimension that the codebook is for. Where the mass is
    /// negligible, the centroid is the middle of the cell.
    pub proof fn law_computed_centroids_are_centres_of_mass(
        self,
        value: spec_fn(W) -> real,
        dim: usize,
        num_bits: u32,
        p: spec_fn(real) -> real,
        codebook: CodebookView,
        i: int,
    ) -> (parts: (Seq<W>, W, (W, W), W))
        requires
            self.integrates_exactly(value),
            self.divides_exactly(value),
            self.has_density(value, dim, p),
            1 <= num_bits <= 8,
            self.gives_codebook(dim, num_bits, codebook),
            0 <= i < codebook.0.len(),
        ensures
            codebook.0.len() == pow2(num_bits as nat),
            parts.0.len() == pow2(num_bits as nat),
            call_ensures(self.narrow, (parts.1,), codebook.0[i]),
            2 as real * value(parts.2.0) == if i == 0 {
                2 as real * value(self.ends.0)
            } else {
                value(parts.0[i - 1]) + value(parts.0[i])
            },
            2 as real * value(parts.2.1) == if i == parts.0.len() - 1 {
                2 as real * value(self.ends.1)
            } else {
                value(parts.0[i]) + value(parts.0[i + 1])
            },
            self.is_mass(value, p, parts.2.0, parts.2.1, parts.3),
            call_ensures(self.negligible, (parts.3,), true) && 2 as real * value(parts.1) == value(
                parts.2.0,
            ) + value(parts.2.1) || call_ensures(self.negligible, (parts.3,), false) && value(
                parts.1,
            ) * simpson_rule(within(p), value(parts.2.0), value(parts.2.1)) == simpson_rule(
                weighted(p),
                value(parts.2.0),
                value(parts.2.1),
            ),
    {
        let k = pow2(num_bits as nat) as int;
        let (history, boundaries) = self.law_codebook_comes_from_its_iteration(
            dim,
            num_bits,
            codebook,
            k,
        );
        let t = history.len() - 1;
        let before = history[t - 1];
        let c = history[t][i];
        assert(self.is_mean_of_cell(dim, before, i, c));
        let (lo, hi, mass) = self.law_centroids_are_centres_of_mass(value, dim, p, before, i, c);
        (before, c, (lo, hi), mass)
    }

    /// The squared distance to `c` times the density, at each place.
    pub open spec fn squared_error(p: spec_fn(real) -> real, c: real) -> spec_fn(real) -> real {
        |x: real| (x - c) * (x - c) * within(p)(x)
    }

    /// Where nothing is rounded, the distortion of a codebook is the sum over its cells of the
    /// integral of the squared distance to the cell's centroid, by the dimension's density; a cell
    /// that is too short to integrate over adds nothing.
    pub proof fn law_distortion_is_the_expected_squared_error<
        I: Fn(Float32) -> W,
        J: Fn(W, W) -> W,
        S: Fn(W, W) -> W,
    >(
        self,
        errors: ErrorArithmetic<I, J, S>,
        value: spec_fn(W) -> real,
        wide: spec_fn(Float32) -> real,
        dim: usize,
        p: spec_fn(real) -> real,
        codebook: CodebookView,
        r: W,
    ) -> (cells: Seq<real>)
        requires
            self.integrates_exactly(value),
            self.has_density(value, dim, p),
            forall|a: Float32, x: W| #[trigger]
                call_ensures(errors.widen, (a,), x) ==> value(x) == wide(a),
            forall|a: W, b: W, x: W| #[trigger]
                call_ensures(errors.squared_deviation, (a, b), x) ==> value(x) == (value(a) - value(
                    b,
                )) * (value(a) - value(b)),
            forall|a: W, b: W, x: W| #[trigger]
                call_ensures(errors.plus, (a, b), x) ==> value(x) == value(a) + value(b),
            self.is_distortion(errors, dim, codebook, r),
        ensures
            value(r) == sum(codebook.0.len(), |i: int| cells[i]),
            forall|i: int|
                0 <= i < codebook.0.len() ==> #[trigger] cells[i] == simpson_rule(
                    Self::squared_error(p, wide(codebook.0[i])),
                    wide(codebook.1[i]),
                    wide(codebook.1[i + 1]),
                ) || cells[i] == 0 as real && exists|lo: W, hi: W|
                    value(lo) == wide(codebook.1[i]) && value(hi) == wide(codebook.1[i + 1])
                        && #[trigger] call_ensures(self.degenerate, (lo, hi), true),
    {
        let totals = choose|totals: Seq<W>|
            {
                &&& totals.len() == codebook.0.len() + 1
                &&& totals[0] == self.zero
                &&& r == #[trigger] totals.last()
                &&& forall|i: int|
                    0 < i < totals.len() ==> #[trigger] self.cell_added_at(
                        errors,
                        dim,
                        codebook,
                        totals,
                        i,
                    )
            };
        let cells = Seq::new(
            codebook.0.len(),
            |i: int| value(totals[i + 1]) - value(totals[i]),
        );
        self.lemma_totals(value, totals, cells, codebook.0.len());
        assert forall|i: int| 0 <= i < codebook.0.len() implies #[trigger] cells[i] == simpson_rule(
            Self::squared_error(p, wide(codebook.0[i])),
            wide(codebook.1[i]),
            wide(codebook.1[i + 1]),
        ) || cells[i] == 0 as real && exists|lo: W, hi: W|
            value(lo) == wide(codebook.1[i]) && value(hi) == wide(codebook.1[i + 1])
                && #[trigger] call_ensures(self.degenerate, (lo, hi), true) by {
            assert(self.cell_added_at(errors, dim, codebook, totals, i + 1));
            let (center, low, high, v) = choose|center: W, low: W, high: W, v: W|
                {
                    &&& #[trigger] call_ensures(errors.widen, (codebook.0[i],), center)
                    &&& #[trigger] call_ensures(errors.widen, (codebook.1[i],), low)
                    &&& #[trigger] call_ensures(errors.widen, (codebook.1[i + 1],), high)
                    &&& self.integral_of(self.squared_error_of(errors, center, dim), low, high, v)
                    &&& #[trigger] call_ensures(errors.plus, (totals[i], v), totals[i + 1])
                };
            let f = self.squared_error_of(errors, center, dim);
            let g = Self::squared_error(p, wide(codebook.0[i]));
            let h = self.density_of(dim);
            assert forall|x: W, y: W| #[trigger] f(x, y) implies value(y) == g(value(x)) by {
                let (e, t) = choose|e: W, t: W|
                    {
                        &&& #[trigger] call_ensures(errors.squared_deviation, (x, center), e)
                        &&& #[trigger] density_at(
                            self.to_unit,
                            self.outside,
                            self.density,
                            self.zero,
                            x,
                            dim,
                            t,
                        )
                        &&& call_ensures(self.times, (e, t), y)
                    };
                assert(h(x, t));
                self.law_density_is_that_of_the_dimension(x, dim, t);
            }
            self.law_integrals_are_by_simpsons_rule(value, f, g, low, high, v);
        }
        cells
    }

    proof fn lemma_totals(
        self,
        value: spec_fn(W) -> real,
        totals: Seq<W>,
        cells: Seq<real>,
        n: nat,
    )
        requires
            value(self.zero) == 0 as real,
            totals.len() == cells.len() + 1,
            totals[0] == self.zero,
            forall|i: int|
                0 <= i < cells.len() ==> #[trigger] cells[i] == value(totals[i + 1]) - value(
                    totals[i],
                ),
            n <= cells.len(),
        ensures
            value(totals[n as int]) == sum(n, |i: int| cells[i]),
        decreases n,
    {
        if n > 0 {
            self.lemma_totals(value, totals, cells, (n - 1) as nat);
        }
    }
}

} // verus!
