use turboquant::codebook::{
    beta_pdf, beta_ppf, compute_codebook, conditional_mean, dequantize_scalar, get_codebook,
    integrate, is_codebook, is_searchable, largest_shift, per_coordinate_distortion, quantize_scalar,
    CodebookCache,
};
use turboquant::density::{CodebookArithmetic, ErrorArithmetic};
use turboquant::error::{ErrorKind, TurboError};
use turboquant::float::Float32;

fn num(x: f32) -> Float32 {
    Float32::from_bits(x.to_bits())
}

fn val(x: Float32) -> f32 {
    f32::from_bits(x.to_bits())
}

fn nums(x: &[f32]) -> Vec<Float32> {
    x.iter().map(|v| num(*v)).collect()
}

fn density(x: f64, dim: usize) -> f64 {
    beta_pdf(
        x,
        dim,
        0.0,
        &|x: f64| (x + 1.0) / 2.0,
        &|t: f64| t <= 0.0 || t >= 1.0,
        &|t: f64, d: usize| {
            let alpha = (d - 1) as f64 / 2.0;
            let log_beta = 2.0 * libm::lgamma(alpha) - libm::lgamma(2.0 * alpha);
            libm::exp((alpha - 1.0) * (libm::log(t) + libm::log(1.0 - t)) - log_beta) / 2.0
        },
    )
}

fn quad<F: Fn(f64) -> f64>(f: F, a: f64, b: f64) -> f64 {
    integrate(
        &f,
        a,
        b,
        0.0,
        &|a: f64, b: f64| (b - a).abs() < 1e-18,
        &|a: f64, b: f64, i: usize| a + i as f64 * ((b - a) / 256.0),
        &|x: f64, y: f64| x + y,
        &|sum: f64, weight: u32, y: f64| sum + weight as f64 * y,
        &|sum: f64, a: f64, b: f64| sum * ((b - a) / 256.0) / 3.0,
    )
}

fn mean(a: f64, b: f64, dim: usize) -> f64 {
    conditional_mean(
        a,
        b,
        dim,
        &|a: f64, b: f64, d: usize| quad(|x| x * density(x, d), a, b),
        &|a: f64, b: f64, d: usize| quad(|x| density(x, d), a, b),
        &|mass: f64| mass < 1e-15,
        &|a: f64, b: f64| (a + b) / 2.0,
        &|x: f64, y: f64| x / y,
    )
}

fn ppf(p: f64, dim: usize) -> f64 {
    beta_ppf(
        p,
        dim,
        (-1.0, 1.0),
        &|a: f64, b: f64| (a + b) / 2.0,
        &|x: f64, p: f64, d: usize| quad(|t| density(t, d), -1.0, x) < p,
        &|lo: f64, hi: f64| (hi - lo) < 1e-12,
    )
}

fn compute(dim: usize, num_bits: u32) -> (Vec<Float32>, Vec<Float32>) {
    compute_codebook(
        dim,
        num_bits,
        (-1.0f64, 1.0f64),
        &|i: usize, k: usize, d: usize| ppf((i as f64 + 0.5) / k as f64, d),
        &|a: f64, b: f64| (a + b) / 2.0,
        &mean,
        &|a: &Vec<f64>, b: &Vec<f64>| {
            largest_shift(a, b, 0.0, &|x: f64, y: f64| (x - y).abs(), &f64::max) < 1e-10
        },
        &|x: f64| num(x as f32),
    )
}

fn codebook(dim: usize, num_bits: u32) -> (Vec<f32>, Vec<f32>) {
    let mut cache = CodebookCache::new();
    let (c, b) = get_codebook(&mut cache, dim, num_bits, &compute).unwrap();
    (
        c.into_iter().map(val).collect(),
        b.into_iter().map(val).collect(),
    )
}

#[test]
fn test_codebook_count() {
    for b in 1..=4 {
        let (centroids, boundaries) = codebook(128, b);
        assert_eq!(centroids.len(), 1 << b, "centroids count for b={}", b);
        assert_eq!(
            boundaries.len(),
            (1 << b) + 1,
            "boundaries count for b={}",
            b
        );
    }
}

#[test]
fn test_codebook_symmetry() {
    // The density is symmetric around 0, so centroids should be symmetric
    for b in 1..=3 {
        let (centroids, _) = codebook(512, b);
        let k = centroids.len();
        for i in 0..k / 2 {
            let sum = centroids[i] + centroids[k - 1 - i];
            assert!(
                sum.abs() < 1e-4,
                "centroids not symmetric: c[{}]={} + c[{}]={} = {} (b={})",
                i,
                centroids[i],
                k - 1 - i,
                centroids[k - 1 - i],
                sum,
                b
            );
        }
    }
}

#[test]
fn test_boundaries_ordered() {
    for b in 1..=4 {
        let (_, boundaries) = codebook(256, b);
        for i in 0..boundaries.len() - 1 {
            assert!(
                boundaries[i] < boundaries[i + 1],
                "boundaries not ordered at index {} for b={}",
                i,
                b
            );
        }
    }
}

#[test]
fn test_boundaries_endpoints() {
    for b in 1..=4 {
        let (_, boundaries) = codebook(128, b);
        assert_eq!(boundaries[0], -1.0, "first boundary should be -1.0");
        assert_eq!(
            *boundaries.last().unwrap(),
            1.0,
            "last boundary should be 1.0"
        );
    }
}

#[test]
fn test_centroids_in_range() {
    for b in 1..=4 {
        let (centroids, _) = codebook(128, b);
        for &c in &centroids {
            assert!(
                (-1.0..=1.0).contains(&c),
                "centroid {} out of range for b={}",
                c,
                b
            );
        }
    }
}

#[test]
fn test_roundtrip_self_quantize() {
    // Quantizing centroid values should map back to themselves
    let (centroids, boundaries) = codebook(256, 3);
    let boundaries = nums(&boundaries);
    for (i, &c) in centroids.iter().enumerate() {
        let idx = quantize_scalar(num(c), &boundaries);
        assert_eq!(
            idx, i as u8,
            "centroid {} should quantize to index {}",
            c, i
        );
    }
}

fn distortion(cache: &mut CodebookCache, dim: usize, num_bits: u32) -> Result<f64, TurboError> {
    per_coordinate_distortion(
        cache,
        dim,
        num_bits,
        &compute,
        0.0f64,
        &|total: f64, c: Float32, lo: Float32, hi: Float32, d: usize| {
            let c = val(c) as f64;
            total
                + quad(
                    |x| (x - c).powi(2) * density(x, d),
                    val(lo) as f64,
                    val(hi) as f64,
                )
        },
    )
}

#[test]
fn test_distortion_matches_paper() {
    // d=512: b=1 < 0.50, b=2 < 0.18, b=3 < 0.05, b=4 < 0.015
    let d = 512;
    let bounds = [(1, 0.50), (2, 0.18), (3, 0.05), (4, 0.015)];
    let mut cache = CodebookCache::new();

    for (b, max_distortion) in bounds {
        let per_coord = distortion(&mut cache, d, b).unwrap();
        let total_distortion = d as f64 * per_coord;
        assert!(
            total_distortion < max_distortion,
            "d={}, b={}: total distortion {} exceeds bound {}",
            d,
            b,
            total_distortion,
            max_distortion
        );
    }
}

#[test]
fn test_invalid_dimension() {
    let mut cache = CodebookCache::new();
    assert!(get_codebook(&mut cache, 2, 4, &compute).is_err());
    assert!(get_codebook(&mut cache, 1, 4, &compute).is_err());
}

#[test]
fn test_invalid_bits() {
    let mut cache = CodebookCache::new();
    assert!(get_codebook(&mut cache, 128, 0, &compute).is_err());
    assert!(get_codebook(&mut cache, 128, 9, &compute).is_err());
}

#[test]
fn test_caching() {
    let mut cache = CodebookCache::new();
    let (c1, b1) = get_codebook(&mut cache, 128, 4, &compute).unwrap();
    let (c2, b2) = get_codebook(&mut cache, 128, 4, &compute).unwrap();
    assert_eq!(c1, c2);
    assert_eq!(b1, b2);
}

#[test]
fn test_quantize_dequantize_batch() {
    let (centroids, boundaries) = codebook(256, 4);
    let number_centroids = nums(&centroids);
    let number_boundaries = nums(&boundaries);
    // Test a range of values
    let values = vec![-0.9f32, -0.5, -0.1, 0.0, 0.1, 0.5, 0.9];
    for v in values {
        let idx = quantize_scalar(num(v), &number_boundaries);
        let reconstructed = val(dequantize_scalar(idx, &number_centroids));
        // Reconstructed value should be closer to original than any other centroid
        let dist = (v - reconstructed).abs();
        for &c in &centroids {
            assert!(
                dist <= (v - c).abs() + 1e-6,
                "quantize_scalar did not find nearest centroid for {}",
                v
            );
        }
    }
}

#[test]
fn cached_codebooks_are_not_computed_again() {
    let mut cache = CodebookCache::new();
    let (c1, b1) = get_codebook(&mut cache, 16, 2, &compute).unwrap();
    let never = |_: usize, _: u32| -> (Vec<Float32>, Vec<Float32>) { panic!("computed again") };
    let (c2, b2) = get_codebook(&mut cache, 16, 2, &never).unwrap();
    assert_eq!((c1, b1), (c2, b2));
    // Other parameters have entries of their own.
    let (c3, _) = get_codebook(&mut cache, 16, 3, &compute).unwrap();
    let (c4, _) = get_codebook(&mut cache, 32, 2, &compute).unwrap();
    assert_eq!(c3.len(), 8);
    assert_eq!(c4.len(), 4);
    assert_eq!(get_codebook(&mut cache, 16, 3, &never).unwrap().0, c3);
    assert_eq!(get_codebook(&mut cache, 32, 2, &never).unwrap().0, c4);
}

#[test]
fn parameter_errors() {
    let mut cache = CodebookCache::new();
    let e = get_codebook(&mut cache, 2, 0, &compute).unwrap_err();
    assert!(matches!(e, TurboError::Dimension { dim: 2 }));
    assert_eq!(e.message(), "TurboQuant requires dimension >= 3, got 2");
    assert_eq!(e.kind(), ErrorKind::InvalidInput);
    let e = get_codebook(&mut cache, 3, 9, &compute).unwrap_err();
    assert!(matches!(e, TurboError::NumBits { num_bits: 9 }));
    assert_eq!(e.message(), "TurboQuant num_bits must be 1-8, got 9");
    assert!(matches!(
        distortion(&mut cache, 1, 4).unwrap_err(),
        TurboError::Dimension { dim: 1 }
    ));
}

#[test]
fn bins_of_exact_values() {
    let boundaries = nums(&[-1.0, -0.5, 0.0, 0.25, 1.0]);
    let bins: Vec<u8> = [-2.0, -0.5, -0.4999, -0.0, 0.0, 0.1, 0.25, 0.2500001, 7.0]
        .iter()
        .map(|v| quantize_scalar(num(*v), &boundaries))
        .collect();
    assert_eq!(bins, vec![0, 0, 1, 1, 1, 2, 2, 3, 3]);
    assert_eq!(quantize_scalar(num(f32::INFINITY), &boundaries), 3);
    assert_eq!(quantize_scalar(num(f32::NEG_INFINITY), &boundaries), 0);
    // Without interior boundaries there is one bin.
    assert_eq!(quantize_scalar(num(0.3), &nums(&[-1.0, 1.0])), 0);
}

#[test]
fn bins_grow_with_values() {
    let (_, boundaries) = codebook(64, 4);
    let boundaries = nums(&boundaries);
    let mut last = 0u8;
    for i in 0..2001 {
        let x = (i - 1000) as f32 / 1000.0;
        let bin = quantize_scalar(num(x), &boundaries);
        assert!(bin >= last);
        // The value lies between the bin's boundaries.
        assert!(bin == 0 || val(boundaries[bin as usize]) < x);
        assert!(bin == 15 || x <= val(boundaries[bin as usize + 1]));
        last = bin;
    }
    assert_eq!(last, 15);
}

#[test]
fn one_bit_codebook_of_three_coordinates() {
    // Coordinates of random unit vectors in three dimensions are uniform on [-1, 1], so the
    // cells are the two halves and the centroids their middles.
    let (centroids, boundaries) = codebook(3, 1);
    assert_eq!(boundaries.len(), 3);
    assert!(boundaries[1].abs() < 1e-6);
    assert!((centroids[0] + 0.5).abs() < 1e-2);
    assert!((centroids[1] - 0.5).abs() < 1e-2);
}

#[test]
fn simpson_is_exact_on_cubics() {
    let r = quad(|x| 4.0 * x * x * x, 0.0, 2.0);
    assert!((r - 16.0).abs() < 1e-12);
    assert_eq!(quad(|x| x, 1.0, 1.0), 0.0);
}

#[test]
fn simpson_weights_alternate() {
    // With every value one, the sum of the weights is two for the ends, four for each of the
    // odd nodes and two for each of the even ones.
    let sum = integrate(
        &|_: u64| 1u64,
        0,
        1,
        0,
        &|_: u64, _: u64| false,
        &|_: u64, _: u64, i: usize| i as u64,
        &|x: u64, y: u64| x + y,
        &|sum: u64, weight: u32, y: u64| sum + weight as u64 * y,
        &|sum: u64, _: u64, _: u64| sum,
    );
    assert_eq!(sum, 2 + 4 * 128 + 2 * 127);
}

#[test]
fn mean_of_a_cell() {
    // Three coordinates: uniform density, so the mean is the middle.
    assert!((mean(0.0, 0.5, 3) - 0.25).abs() < 1e-2);
    // A cell without mass has its midpoint.
    assert_eq!(mean(2.0, 4.0, 3), 3.0);
}

#[test]
fn quantiles_of_the_uniform_density() {
    assert!(ppf(0.5, 3).abs() < 1e-2);
    assert!((ppf(0.75, 3) - 0.5).abs() < 1e-2);
    assert!(ppf(0.25, 3) < ppf(0.26, 3));
}

#[test]
fn bisection_stops_within_its_limit() {
    let steps = std::cell::Cell::new(0usize);
    let r = beta_ppf(
        7u64,
        3,
        (0u64, 1000u64),
        &|a: u64, b: u64| a + (b - a) / 2,
        &|x: u64, p: u64, _: usize| {
            steps.set(steps.get() + 1);
            x < p
        },
        &|_: u64, _: u64| false,
    );
    assert_eq!(r, 6);
    assert_eq!(steps.get(), 100);
}

#[test]
fn largest_shift_of_centroids() {
    let shift = largest_shift(
        &vec![1i64, 5, -3],
        &vec![2i64, 1, -3],
        0,
        &|a: i64, b: i64| (a - b).abs(),
        &|a: i64, b: i64| a.max(b),
    );
    assert_eq!(shift, 4);
}

#[test]
fn density_vanishes_outside() {
    assert_eq!(density(-1.0, 5), 0.0);
    assert_eq!(density(1.5, 5), 0.0);
    assert!(density(0.0, 5) > 0.0);
}

#[test]
fn order_of_numbers() {
    let ordered = [
        f32::NEG_INFINITY,
        -1.0e30,
        -1.0,
        -1.0e-40,
        0.0,
        1.0e-40,
        1.0e-10,
        1.0,
        f32::INFINITY,
    ];
    for (i, a) in ordered.iter().enumerate() {
        for (j, b) in ordered.iter().enumerate() {
            assert_eq!(num(*a).less_than(num(*b)), i < j);
        }
    }
    assert!(!num(-0.0).less_than(num(0.0)));
    assert!(!num(f32::NAN).less_than(num(1.0)));
    assert!(!num(1.0).less_than(num(f32::NAN)));
    assert!(num(f32::NAN).is_nan());
    assert!(!num(f32::INFINITY).is_nan());
}

type Test = fn(f64) -> bool;
type Binary = fn(f64, f64) -> f64;
type Pair = fn(f64, f64) -> bool;

fn arithmetic() -> CodebookArithmetic<
    f64,
    fn(f64) -> f64,
    Test,
    fn(f64, usize) -> f64,
    Binary,
    Pair,
    fn(f64, f64, usize) -> f64,
    Binary,
    fn(f64, u32, f64) -> f64,
    fn(f64, f64, f64) -> f64,
    Test,
    Binary,
    Binary,
    Pair,
    Pair,
    fn(usize, usize) -> f64,
    Binary,
    Binary,
    Test,
    fn(f64) -> Float32,
> {
    CodebookArithmetic {
        zero: 0.0,
        ends: (-1.0, 1.0),
        to_unit: |x| (x + 1.0) / 2.0,
        outside: |t| t <= 0.0 || t >= 1.0,
        density: |t, d| {
            let alpha = (d - 1) as f64 / 2.0;
            let log_beta = 2.0 * libm::lgamma(alpha) - libm::lgamma(2.0 * alpha);
            libm::exp((alpha - 1.0) * (libm::log(t) + libm::log(1.0 - t)) - log_beta) / 2.0
        },
        times: |x, y| x * y,
        degenerate: |a, b| (b - a).abs() < 1e-18,
        node: |a, b, i| a + i as f64 * ((b - a) / 256.0),
        start: |x, y| x + y,
        accumulate: |sum, weight, y| sum + weight as f64 * y,
        finish: |sum, a, b| sum * ((b - a) / 256.0) / 3.0,
        negligible: |mass| mass < 1e-15,
        midpoint: |a, b| (a + b) / 2.0,
        divide: |x, y| x / y,
        less: |x, y| x < y,
        close: |lo, hi| (hi - lo) < 1e-12,
        share: |i, k| (i as f64 + 0.5) / k as f64,
        distance: |x, y| (x - y).abs(),
        larger: f64::max,
        within: |shift| shift < 1e-10,
        narrow: |x| num(x as f32),
    }
}

#[test]
fn codebooks_from_the_arithmetic_up() {
    let ops = arithmetic();
    for (dim, bits) in [(3, 1), (16, 2), (128, 3)] {
        let (centroids, boundaries) = ops.codebook(dim, bits);
        assert_eq!((centroids.clone(), boundaries.clone()), compute(dim, bits));
        assert!(is_codebook(&centroids, &boundaries, bits));
        let mut cache = CodebookCache::new();
        assert_eq!(ops.cached_codebook(&mut cache, dim, bits).unwrap(), (centroids, boundaries));
    }
    // In three dimensions a coordinate is equally likely anywhere between -1 and 1.
    assert_eq!(ops.density_value(0.25, 3), 0.5);
    assert!((ops.mass_value(-0.5, 0.25, 3) - 0.375).abs() < 1e-12);
    assert!((ops.moment_value(0.0, 1.0, 3) - 0.25).abs() < 1e-3);
    assert!((ops.mean_value(-0.5, 0.25, 3) + 0.125).abs() < 1e-12);
    assert!((ops.quantile_value(0, 2, 3) + 0.5).abs() < 1e-3);
    let mut cache = CodebookCache::new();
    let e = ops.cached_codebook(&mut cache, 2, 4).unwrap_err();
    assert!(matches!(e, TurboError::Dimension { dim: 2 }));
    let e = ops.cached_codebook(&mut cache, 3, 9).unwrap_err();
    assert!(matches!(e, TurboError::NumBits { num_bits: 9 }));
}

#[test]
fn distortion_from_the_arithmetic_up() {
    let errors = ErrorArithmetic {
        widen: |x: Float32| val(x) as f64,
        squared_deviation: |x: f64, c: f64| (x - c).powi(2),
        plus: |x: f64, y: f64| x + y,
    };
    let mut cache = CodebookCache::new();
    // Two cells of width one, with density one half: twice 1/24.
    let d = arithmetic().distortion(&errors, &mut cache, 3, 1).unwrap();
    assert!((d - 1.0 / 12.0).abs() < 1e-3, "{}", d);
    let cell = arithmetic().add_cell(&errors, 2.0, num(0.5), num(0.25), num(0.75), 3);
    assert!((cell - (2.0 + 0.5 / 96.0)).abs() < 1e-9, "{}", cell);
    let e = arithmetic().distortion(&errors, &mut cache, 128, 0).unwrap_err();
    assert!(matches!(e, TurboError::NumBits { num_bits: 0 }));
}

#[test]
fn codebooks_are_told_from_others() {
    let centroids = nums(&[-0.5, 0.5]);
    let boundaries = nums(&[-1.0, 0.0, 1.0]);
    assert!(is_codebook(&centroids, &boundaries, 1));
    assert!(!is_codebook(&centroids, &boundaries, 2));
    assert!(!is_codebook(&nums(&[0.5, -0.5]), &boundaries, 1));
    assert!(!is_codebook(&nums(&[-0.5, 1.5]), &boundaries, 1));
    assert!(!is_codebook(&nums(&[-1.5, 0.5]), &boundaries, 1));
    assert!(!is_codebook(&nums(&[-0.5, f32::NAN]), &boundaries, 1));
    assert!(!is_codebook(&centroids, &nums(&[-1.0, f32::NAN, 1.0]), 1));
    assert!(!is_codebook(&centroids, &nums(&[-0.9, 0.0, 1.0]), 1));
    assert!(!is_codebook(&centroids, &nums(&[-1.0, 0.0, 0.9]), 1));
    let four = nums(&[-0.5, 0.0, 0.25, 0.5]);
    let between = nums(&[-1.0, -0.25, 0.125, 0.375, 1.0]);
    assert!(is_codebook(&four, &between, 2));
    assert!(!is_codebook(&four, &nums(&[-1.0, 0.375, 0.125, -0.25, 1.0]), 2));
    // A boundary has to lie halfway between the centroids, up to half a millionth.
    assert!(is_codebook(&four, &nums(&[-1.0, -0.2500004, 0.125, 0.375, 1.0]), 2));
    assert!(!is_codebook(&four, &nums(&[-1.0, -0.250001, 0.125, 0.375, 1.0]), 2));
    assert!(!is_codebook(&four, &nums(&[-1.0, -0.249999, 0.125, 0.375, 1.0]), 2));
    // A centroid has to lie in its own cell.
    let close = nums(&[-0.5, 0.0, 2e-7, 0.5]);
    assert!(is_codebook(&close, &nums(&[-1.0, -0.25, 1e-7, 0.25, 1.0]), 2));
    assert!(!is_codebook(&close, &nums(&[-1.0, -0.25, 3e-7, 0.25, 1.0]), 2));
    // Values can be searched for wherever the boundaries ascend.
    assert!(is_searchable(&four, &nums(&[-1.0, -0.9, 0.0, 0.7, 1.0]), 2));
    assert!(!is_searchable(&four, &nums(&[-1.0, 0.0, -0.9, 0.7, 1.0]), 2));
    assert!(!is_searchable(&four, &between, 3));
}

#[test]
fn earlier_requests_do_not_matter() {
    let mut cache = CodebookCache::new();
    let requests = [(16, 1), (3, 2), (16, 1), (2, 1), (3, 2), (16, 2)];
    for (dim, bits) in requests {
        let mut fresh = CodebookCache::new();
        let one = get_codebook(&mut cache, dim, bits, &compute);
        let other = get_codebook(&mut fresh, dim, bits, &compute);
        match (one, other) {
            (Ok(a), Ok(b)) => {
                assert_eq!(a, b);
                assert_eq!(cache.get(dim, bits), Some(a));
            }
            (a, b) => assert_eq!(a.unwrap_err().message(), b.unwrap_err().message()),
        }
    }
    assert_eq!(cache.get(16, 3), None);
    assert_eq!(cache.get(16, 17), None);
}

#[test]
fn codebooks_follow_from_their_parameters() {
    let ops = arithmetic();
    assert_eq!(ops.codebook(32, 2), ops.codebook(32, 2));
    assert_ne!(ops.codebook(32, 2), ops.codebook(33, 2));
}

#[test]
fn means_lie_in_their_cells_and_quantiles_ascend() {
    let ops = arithmetic();
    for dim in [3, 8, 64] {
        for i in 0..20 {
            let (a, b) = (-1.0 + 0.1 * i as f64, -0.9 + 0.1 * i as f64);
            let m = ops.mean_value(a, b, dim);
            assert!(a <= m && m <= b);
        }
        let quantiles: Vec<f64> = (0..8).map(|i| ops.quantile_value(i, 8, dim)).collect();
        for i in 1..8 {
            assert!(quantiles[i - 1] <= quantiles[i]);
        }
        assert!(-1.0 <= quantiles[0] && quantiles[7] <= 1.0);
    }
}

#[test]
fn computed_codebooks_are_in_order() {
    let ops = arithmetic();
    for (dim, bits) in [(3, 2), (64, 1), (64, 4), (256, 3)] {
        let (centroids, boundaries) = ops.codebook(dim, bits);
        assert!(is_codebook(&centroids, &boundaries, bits));
        for i in 0..centroids.len() {
            assert!(val(boundaries[i]) < val(centroids[i]));
            assert!(val(centroids[i]) < val(boundaries[i + 1]));
        }
    }
}

#[test]
fn codebooks_out_of_order_are_given_back_too() {
    let odd = |_: usize, _: u32| (nums(&[0.5, -0.5]), nums(&[-1.0, f32::NAN, 1.0]));
    let mut cache = CodebookCache::new();
    let (centroids, boundaries) = get_codebook(&mut cache, 16, 1, &odd).unwrap();
    assert_eq!(centroids, nums(&[0.5, -0.5]));
    assert!(!is_searchable(&centroids, &boundaries, 1));
    assert_eq!(cache.get(16, 1), Some((centroids, boundaries)));
}

#[test]
fn numbers_in_two_parts() {
    let scale = 18446744073709551616.0f64;
    for x in [0.0f32, 1.0, -1.0, 0.5, -0.1, 1e-20, -3e-39, 1e-45, 0.9999999] {
        let (hi, lo) = num(x).unit_parts();
        let units = (hi as f64 * scale + lo as f64) * 2f64.powi(-149);
        assert_eq!(units, x as f64);
        assert!(num(x).is_within_one());
    }
    assert_eq!(num(f32::from_bits(1)).unit_parts(), (0, 1));
    assert_eq!(num(1.0).unit_parts(), (1 << 85, 0));
    assert!(!num(1.0000001).is_within_one());
    assert!(!num(f32::NAN).is_within_one());
}
