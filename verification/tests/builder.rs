use rand::SeedableRng;
use rand_distr::Distribution;
use turboquant::arithmetic::VectorArithmetic;
use turboquant::builder::{
    QuantizationMetadata, QuantizationType, Quantizer, TurboQuantizer, Vectors,
};
use turboquant::codebook::{
    beta_pdf, beta_ppf, compute_codebook, conditional_mean, integrate, largest_shift,
    CodebookCache,
};
use turboquant::error::{ErrorKind, TurboError, ValueType};
use turboquant::float::Float32;
use turboquant::packing::{packed_len, unpack_codes};
use turboquant::rotation::{
    householder_qr, householder_vector, inverse_rotate, random_orthogonal_seeded,
};
use turboquant::storage::FieldType;
use turboquant::{DistanceType, TurboBuildParams};

fn num(x: f32) -> Float32 {
    Float32::from_bits(x.to_bits())
}

fn val(x: Float32) -> f32 {
    f32::from_bits(x.to_bits())
}

fn nums(x: &[f32]) -> Vec<Float32> {
    x.iter().map(|v| num(*v)).collect()
}

fn norm(x: &[Float32]) -> Float32 {
    num(x.iter().map(|v| val(*v) * val(*v)).sum::<f32>().sqrt())
}

fn divide(x: Float32, y: Float32) -> Float32 {
    num(val(x) / val(y))
}

fn dot(a: &[Float32], b: &[Float32]) -> Float32 {
    let mut sum = 0.0f32;
    let mut k = 0;
    while k < a.len() {
        sum += f32::from_bits(a[k].bits) * f32::from_bits(b[k].bits);
        k += 1;
    }
    num(sum)
}

fn density(x: f64, dim: usize) -> f64 {
    beta_pdf(
        x,
        dim,
        0.0,
        &|x: f64| (x + 1.0) / 2.0,
        &|t: f64| t <= 0.0 || t >= 1.0,
        &|t: f64, d: usize| {
            let alpha = (d - 1) as f64 / 2.0;
            let log_beta = 2.0 * libm::lgamma(alpha) - libm::lgamma(2.0 * alpha);
            libm::exp((alpha - 1.0) * (libm::log(t) + libm::log(1.0 - t)) - log_beta) / 2.0
        },
    )
}

fn quad<F: Fn(f64) -> f64>(f: F, a: f64, b: f64) -> f64 {
    integrate(
        &f,
        a,
        b,
        0.0,
        &|a: f64, b: f64| (b - a).abs() < 1e-18,
        &|a: f64, b: f64, i: usize| a + i as f64 * ((b - a) / 256.0),
        &|x: f64, y: f64| x + y,
        &|sum: f64, weight: u32, y: f64| sum + weight as f64 * y,
        &|sum: f64, a: f64, b: f64| sum * ((b - a) / 256.0) / 3.0,
    )
}

fn mean(a: f64, b: f64, dim: usize) -> f64 {
    conditional_mean(
        a,
        b,
        dim,
        &|a: f64, b: f64, d: usize| quad(|x| x * density(x, d), a, b),
        &|a: f64, b: f64, d: usize| quad(|x| density(x, d), a, b),
        &|mass: f64| mass < 1e-15,
        &|a: f64, b: f64| (a + b) / 2.0,
        &|x: f64, y: f64| x / y,
    )
}

fn ppf(p: f64, dim: usize) -> f64 {
    beta_ppf(
        p,
        dim,
        (-1.0, 1.0),
        &|a: f64, b: f64| (a + b) / 2.0,
        &|x: f64, p: f64, d: usize| quad(|t| density(t, d), -1.0, x) < p,
        &|lo: f64, hi: f64| (hi - lo) < 1e-12,
    )
}

fn compute(dim: usize, num_bits: u32) -> (Vec<Float32>, Vec<Float32>) {
    compute_codebook(
        dim,
        num_bits,
        (-1.0f64, 1.0f64),
        &|i: usize, k: usize, d: usize| ppf((i as f64 + 0.5) / k as f64, d),
        &|a: f64, b: f64| (a + b) / 2.0,
        &mean,
        &|a: &Vec<f64>, b: &Vec<f64>| {
            largest_shift(a, b, 0.0, &|x: f64, y: f64| (x - y).abs(), &f64::max) < 1e-10
        },
        &|x: f64| num(x as f32),
    )
}

fn random_matrix(n: usize, seed: u64) -> Vec<Vec<f64>> {
    let mut rng = rand::rngs::StdRng::seed_from_u64(seed);
    let normal = rand_distr::Normal::new(0.0, 1.0).unwrap();
    (0..n)
        .map(|_| (0..n).map(|_| normal.sample(&mut rng)).collect())
        .collect()
}

fn product(a: &Vec<Vec<f64>>, b: &Vec<Vec<f64>>) -> Vec<Vec<f64>> {
    let mut r = vec![vec![0.0; b[0].len()]; a.len()];
    for (x, z) in a.iter().zip(r.iter_mut()) {
        for (u, y) in x.iter().zip(b.iter()) {
            for (v, w) in y.iter().zip(z.iter_mut()) {
                *w += u * v;
            }
        }
    }
    r
}

fn decompose(a: Vec<Vec<f64>>) -> (Vec<Vec<f64>>, Vec<Vec<f64>>) {
    householder_qr(
        a,
        0.0,
        1.0,
        &|x: &Vec<f64>| {
            householder_vector(
                x,
                &|v: &Vec<f64>| v.iter().map(|t| t * t).sum::<f64>().sqrt(),
                &|length: f64| length < f64::EPSILON,
                &|t: f64| t >= 0.0,
                &|t: f64, sign: bool, length: f64| t + (if sign { 1.0 } else { -1.0 }) * length,
                &|t: f64, length: f64| t / length,
            )
        },
        &|u: f64, v: f64, diagonal: bool| (if diagonal { 1.0 } else { 0.0 }) - 2.0 * (u * v),
        &product,
    )
}

fn orthogonal(dim: usize, seed: u64) -> Vec<Float32> {
    random_orthogonal_seeded(
        dim,
        seed,
        &random_matrix,
        &decompose,
        &|t: f64| t >= 0.0,
        &|t: f64, sign: bool| t * (if sign { 1.0 } else { -1.0 }),
        &|t: f64| num(t as f32),
    )
}

fn random_unit_vectors(n: usize, dim: usize) -> Vectors {
    let mut rng = rand::rngs::StdRng::seed_from_u64(0);
    let normal = rand_distr::Normal::new(0.0f32, 1.0).unwrap();

    let mut values = vec![0.0f32; n * dim];
    for i in 0..n {
        let start = i * dim;
        let end = start + dim;
        let slice = &mut values[start..end];
        for v in slice.iter_mut() {
            *v = normal.sample(&mut rng);
        }
        // Normalize to unit sphere
        let norm: f32 = slice.iter().map(|x| x * x).sum::<f32>().sqrt();
        for v in slice.iter_mut() {
            *v /= norm;
        }
    }
    Vectors {
        value_type: ValueType::Float32,
        list_size: dim,
        len: n,
        values: nums(&values),
    }
}

#[test]
fn test_quantize_shape() {
    let dim = 128;
    let params = TurboBuildParams {
        num_bits: 4,
        seed: 42,
    };
    let tq = TurboQuantizer::new(dim, &params, &orthogonal).unwrap();

    let vectors = random_unit_vectors(10, dim);
    let mut cache = CodebookCache::new();
    let ops = VectorArithmetic { norm, divide, dot };
    let codes = tq.quantize(&vectors, &mut cache, &compute, &ops).unwrap();

    assert_eq!(codes.len(), 10);
    assert_eq!(codes.value_length(), packed_len(dim, 4)); // 128*4/8 = 64
}

#[test]
fn test_encode_decode_mse() {
    let dim = 256;
    let n_samples = 1000;
    let mut cache = CodebookCache::new();
    let ops = VectorArithmetic { norm, divide, dot };
    // All four quantizers have the same dimension and seed.
    let matrix = orthogonal(dim, 42);

    for num_bits in [1, 2, 3, 4] {
        let params = TurboBuildParams { num_bits, seed: 42 };
        let tq = TurboQuantizer::new(dim, &params, &|_: usize, _: u64| matrix.clone()).unwrap();
        let (centroids, _boundaries) = tq.codebook(&mut cache, &compute).unwrap();
        let rotation = tq.rotation_flat();

        let vectors = random_unit_vectors(n_samples, dim);
        let codes = tq.quantize(&vectors, &mut cache, &compute, &ops).unwrap();
        let code_bytes = packed_len(dim, num_bits);

        let mut y_hat: Vec<Float32> = Vec::new();
        for i in 0..n_samples {
            let packed = &codes.bytes[i * code_bytes..(i + 1) * code_bytes];

            // Unpack codes
            let indices = unpack_codes(packed, dim, num_bits).unwrap();

            // Dequantize: centroid lookup
            y_hat.extend(indices.iter().map(|&idx| centroids[idx as usize]));
        }

        // Inverse rotate
        let x_rec_all = inverse_rotate(&y_hat, &rotation, dim, &dot);

        let mut total_mse = 0.0f64;

        for i in 0..n_samples {
            let x = &vectors.values[i * dim..(i + 1) * dim];
            let x_rec = &x_rec_all[i * dim..(i + 1) * dim];

            // Compute MSE (unit vector, so no norm rescaling needed)
            let mse: f64 = x
                .iter()
                .zip(x_rec.iter())
                .map(|(a, b)| (val(*a) as f64 - val(*b) as f64).powi(2))
                .sum();
            total_mse += mse;
        }

        let avg_mse = total_mse / n_samples as f64;

        let bound = match num_bits {
            1 => 0.50,
            2 => 0.20,
            3 => 0.06,
            4 => 0.02,
            _ => 1.0,
        };
        assert!(
            avg_mse < bound,
            "b={}: avg MSE {} exceeds bound {}",
            num_bits,
            avg_mse,
            bound
        );
    }
}

#[test]
fn test_invalid_params() {
    assert!(TurboQuantizer::new(2, &TurboBuildParams::default(), &orthogonal).is_err());
    assert!(TurboQuantizer::new(
        128,
        &TurboBuildParams {
            num_bits: 0,
            seed: 42
        },
        &orthogonal
    )
    .is_err());
    assert!(TurboQuantizer::new(
        128,
        &TurboBuildParams {
            num_bits: 9,
            seed: 42
        },
        &orthogonal
    )
    .is_err());
}

fn identity(dim: usize, _seed: u64) -> Vec<Float32> {
    let mut values = vec![0.0f32; dim * dim];
    for i in 0..dim {
        values[i * dim + i] = 1.0;
    }
    nums(&values)
}

fn halves(_dim: usize, num_bits: u32) -> (Vec<Float32>, Vec<Float32>) {
    let k = 1usize << num_bits;
    let boundaries: Vec<f32> = (0..k + 1).map(|i| 2.0 * i as f32 / k as f32 - 1.0).collect();
    let centroids: Vec<f32> = (0..k)
        .map(|i| (boundaries[i] + boundaries[i + 1]) / 2.0)
        .collect();
    (nums(&centroids), nums(&boundaries))
}

fn vectors_of(dim: usize, values: &[f32]) -> Vectors {
    Vectors {
        value_type: ValueType::Float32,
        list_size: dim,
        len: values.len() / dim,
        values: nums(values),
    }
}

fn small(num_bits: u32) -> TurboQuantizer {
    TurboQuantizer::new(3, &TurboBuildParams { num_bits, seed: 7 }, &identity).unwrap()
}

#[test]
fn exact_codes() {
    // Boundaries at -1, -0.5, 0, 0.5, 1.
    let mut cache = CodebookCache::new();
    let ops = VectorArithmetic { norm, divide, dot };
    let vectors = vectors_of(3, &[3.0, 0.0, -4.0, 0.0, -2.0, 0.0]);
    let codes = small(2).quantize(&vectors, &mut cache, &halves, &ops).unwrap();
    // 0.6, 0, -0.8 fall into bins 3, 1, 0, and 0, -1, 0 into bins 1, 0, 1.
    assert_eq!(codes.bytes, vec![3 | 1 << 2, 1 | 1 << 4]);
    assert_eq!((codes.len(), codes.value_length()), (2, 1));
}

#[test]
fn tiny_vectors_are_not_divided() {
    let mut cache = CodebookCache::new();
    let ops = VectorArithmetic { norm, divide, dot };
    let q = small(8);
    let zero = q
        .quantize(&vectors_of(3, &[0.0, 0.0, 0.0]), &mut cache, &halves, &ops)
        .unwrap();
    assert_eq!(zero.bytes, vec![127, 127, 127]);
    // Below the threshold the vector stays, and falls into the bin above zero.
    let below = q
        .quantize(&vectors_of(3, &[9.0e-11, 0.0, 0.0]), &mut cache, &halves, &ops)
        .unwrap();
    assert_eq!(below.bytes, vec![128, 127, 127]);
    let above = q
        .quantize(&vectors_of(3, &[2.0e-10, 0.0, 0.0]), &mut cache, &halves, &ops)
        .unwrap();
    assert_eq!(above.bytes, vec![255, 127, 127]);
}

#[test]
fn no_vectors_have_no_codes() {
    let mut cache = CodebookCache::new();
    let ops = VectorArithmetic { norm, divide, dot };
    let codes = small(4).quantize(&vectors_of(3, &[]), &mut cache, &halves, &ops).unwrap();
    assert_eq!((codes.len(), codes.value_length()), (0, 2));
    assert!(codes.bytes.is_empty());
}

#[test]
fn codes_decode_to_nearest_centroids() {
    let mut cache = CodebookCache::new();
    let ops = VectorArithmetic { norm, divide, dot };
    let q = small(3);
    let vectors = vectors_of(3, &[0.1, -0.7, 0.2, 1.0, 1.0, 1.0]);
    let codes = q.quantize(&vectors, &mut cache, &halves, &ops).unwrap();
    let (centroids, _) = q.codebook(&mut cache, &halves).unwrap();
    for i in 0..2 {
        let x = &vectors.values[3 * i..3 * i + 3];
        let length = val(norm(x));
        let row = &codes.bytes[2 * i..2 * i + 2];
        for (v, idx) in x.iter().zip(unpack_codes(row, 3, 3).unwrap()) {
            let y = val(*v) / length;
            let gap = (y - val(centroids[idx as usize])).abs();
            assert!(centroids.iter().all(|c| gap <= (y - val(*c)).abs()));
        }
    }
}

#[test]
fn building_reads_the_dimension_only() {
    let params = TurboBuildParams::default();
    assert_eq!((params.num_bits, params.seed), (4, 42));
    assert_eq!(params.sample_size(), 0);
    let a = vectors_of(5, &[1.0; 10]);
    let b = vectors_of(5, &[-3.0; 20]);
    let p = TurboQuantizer::build(&a, DistanceType::L2, &params, &orthogonal).unwrap();
    let mut q = TurboQuantizer::build(&b, DistanceType::Dot, &params, &orthogonal).unwrap();
    assert_eq!(p.rotation_flat(), q.rotation_flat());
    let n = TurboQuantizer::new(5, &params, &orthogonal).unwrap();
    assert_eq!(p.rotation_flat(), n.rotation_flat());
    assert_eq!(p.num_bits(), 4);
    assert_eq!(p.seed(), 42);
    assert_eq!(q.rotation_matrix().unwrap().len(), 5);
    q.retrain(&a).unwrap();
    assert_eq!(p.rotation_flat(), q.rotation_flat());
    let e = TurboQuantizer::build(&vectors_of(2, &[1.0, 2.0]), DistanceType::L2, &params, &orthogonal)
        .unwrap_err();
    assert!(matches!(e, TurboError::Dimension { dim: 2 }));
}

#[test]
fn storage_per_vector() {
    for (bits, dim, bytes) in [
        (1, 128, 20),
        (2, 128, 36),
        (4, 128, 68),
        (8, 128, 132),
        (1, 768, 100),
        (2, 768, 196),
        (4, 768, 388),
        (8, 768, 772),
        (1, 1536, 196),
        (2, 1536, 388),
        (4, 1536, 772),
        (8, 1536, 1540),
    ] {
        let q = TurboQuantizer::new(
            dim,
            &TurboBuildParams {
                num_bits: bits,
                seed: 1,
            },
            &|d: usize, _: u64| vec![num(0.0); d * d],
        )
        .unwrap();
        assert_eq!(q.code_dim() + 4, bytes);
    }
}

#[test]
fn other_types_are_refused() {
    let mut cache = CodebookCache::new();
    let ops = VectorArithmetic { norm, divide, dot };
    let q = small(4);
    let typed = |value_type: ValueType| Vectors {
        value_type,
        list_size: 3,
        len: 1,
        values: Vec::new(),
    };
    let e = q
        .quantize(&typed(ValueType::Float64), &mut cache, &halves, &ops)
        .unwrap_err();
    assert_eq!(
        e.message(),
        "TurboQuant currently only supports Float32, got Float64. Cast to Float32 first."
    );
    assert_eq!(e.kind(), ErrorKind::InvalidInput);
    let e = q
        .quantize(&typed(ValueType::Float16), &mut cache, &halves, &ops)
        .unwrap_err();
    assert!(matches!(
        e,
        TurboError::CastFirst {
            value_type: ValueType::Float16
        }
    ));
    let e = q
        .quantize(
            &typed(ValueType::Other {
                name: String::from("Int8"),
            }),
            &mut cache,
            &halves,
            &ops,
        )
        .unwrap_err();
    assert_eq!(e.message(), "Unsupported data type for TurboQuant: Int8");
}

#[test]
fn names_and_fields() {
    let q = small(4);
    assert_eq!(q.column(), "__turbo_code");
    assert_eq!(TurboQuantizer::metadata_key(), "lance:turbo");
    assert_eq!(TurboQuantizer::quantization_type(), QuantizationType::Turbo);
    for other in [
        QuantizationType::Flat,
        QuantizationType::Product,
        QuantizationType::Scalar,
        QuantizationType::Rabit,
    ] {
        assert_ne!(TurboQuantizer::quantization_type(), other);
    }
    let field = q.field();
    assert_eq!(field.name, "__turbo_code");
    assert_eq!(field.field_type, FieldType::UInt8List { size: 2 });
    assert!(field.nullable);
    let extra = q.extra_fields();
    assert_eq!(extra.len(), 1);
    assert_eq!(extra[0].name, "__turbo_norm");
    assert_eq!(extra[0].field_type, FieldType::Float32);
    for (metric, residual) in [
        (DistanceType::L2, true),
        (DistanceType::Cosine, true),
        (DistanceType::Dot, false),
        (DistanceType::Hamming, false),
    ] {
        assert_eq!(TurboQuantizer::use_residual(metric), residual);
        assert_eq!(TurboBuildParams::use_residual(metric), residual);
    }
}

#[test]
fn metadata_layout() {
    let q = small(4);
    assert!(!q.metadata(None).packed);
    assert!(q.metadata(Some(QuantizationMetadata { transposed: true })).packed);
    assert!(!q.metadata(Some(QuantizationMetadata { transposed: false })).packed);
    assert_eq!(q.metadata(None).dimension, 3);
    assert_eq!(q.metadata(None).rotate_mat.unwrap().values, identity(3, 7));
}

#[test]
fn conversions() {
    let q = small(4);
    let any: Quantizer<u8> = Quantizer::from(q.clone());
    let back = TurboQuantizer::try_from(any).unwrap();
    assert_eq!(back.rotation_flat(), q.rotation_flat());
    let e = TurboQuantizer::try_from(Quantizer::Other(1u8)).unwrap_err();
    assert_eq!(e.message(), "Cannot convert non-TurboQuantizer to TurboQuantizer");
    let again: Quantizer<u8> =
        TurboQuantizer::from_metadata(&q.metadata(None), DistanceType::L2).unwrap();
    assert!(matches!(again, Quantizer::Turbo(p) if p.num_bits() == 4 && p.seed() == 7));
}

#[test]
fn codes_depend_on_the_direction_alone() {
    // Scaling by powers of two rounds nothing, so that the quotients by the norms stay the same.
    let values = [0.3f32, -1.2, 0.5];
    let codes = |scale: f32| {
        let scaled: Vec<f32> = values.iter().map(|v| v * scale).collect();
        let mut cache = CodebookCache::new();
        let ops = VectorArithmetic { norm, divide, dot };
        let codes = small(4).quantize(&vectors_of(3, &scaled), &mut cache, &halves, &ops).unwrap();
        codes.bytes
    };
    assert_eq!(codes(1.0), codes(4.0));
    assert_eq!(codes(1.0), codes(0.125));
    assert_ne!(codes(1.0), codes(-1.0));
}
