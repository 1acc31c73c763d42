use ndarray::Array2;
use rand::SeedableRng;
use rand_distr::Distribution;
use turboquant::float::Float32;
use turboquant::rotation::{
    correct_signs, decompose as decompose_by, decomposed_rotation_matrix, generate_rotation_matrix,
    householder_qr, householder_vector, inverse_rotate, orthogonal_matrix, random_orthogonal_seeded,
    rotate, rotation_as_flat_f32, transpose, MatrixArithmetic,
};

const TEST_DIM: usize = 32;
const TEST_SEED: u64 = 42;

fn num(x: f32) -> Float32 {
    Float32::from_bits(x.to_bits())
}

fn val(x: Float32) -> f32 {
    f32::from_bits(x.to_bits())
}

fn dot(a: &[f32], b: &[f32]) -> f32 {
    let mut sum = 0.0f32;
    for k in 0..a.len() {
        sum += a[k] * b[k];
    }
    sum
}

fn random_matrix(n: usize, seed: u64) -> Vec<Vec<f64>> {
    let mut rng = rand::rngs::StdRng::seed_from_u64(seed);
    let normal = rand_distr::Normal::new(0.0, 1.0).unwrap();
    (0..n)
        .map(|_| (0..n).map(|_| normal.sample(&mut rng)).collect())
        .collect()
}

fn product(a: &Vec<Vec<f64>>, b: &Vec<Vec<f64>>) -> Vec<Vec<f64>> {
    let (l, m, n) = (a.len(), b.len(), b[0].len());
    let x = Array2::from_shape_fn((l, m), |(i, j)| a[i][j]);
    let y = Array2::from_shape_fn((m, n), |(i, j)| b[i][j]);
    let z = x.dot(&y);
    (0..l)
        .map(|i| (0..n).map(|j| z[[i, j]]).collect())
        .collect()
}

fn decompose(a: Vec<Vec<f64>>) -> (Vec<Vec<f64>>, Vec<Vec<f64>>) {
    householder_qr(
        a,
        0.0,
        1.0,
        &|x: &Vec<f64>| {
            householder_vector(
                x,
                &|v: &Vec<f64>| v.iter().map(|t| t * t).sum::<f64>().sqrt(),
                &|length: f64| length < f64::EPSILON,
                &|t: f64| t >= 0.0,
                &|t: f64, sign: bool, length: f64| t + (if sign { 1.0 } else { -1.0 }) * length,
                &|t: f64, length: f64| t / length,
            )
        },
        &|u: f64, v: f64, diagonal: bool| (if diagonal { 1.0 } else { 0.0 }) - 2.0 * (u * v),
        &product,
    )
}

fn orthogonal(dim: usize, seed: u64) -> Vec<Float32> {
    random_orthogonal_seeded(
        dim,
        seed,
        &random_matrix,
        &decompose,
        &|t: f64| t >= 0.0,
        &|t: f64, sign: bool| t * (if sign { 1.0 } else { -1.0 }),
        &|t: f64| num(t as f32),
    )
}

fn get_test_rotation() -> Vec<f32> {
    let mat = generate_rotation_matrix(TEST_DIM, TEST_SEED, &orthogonal);
    rotation_as_flat_f32(&mat).into_iter().map(val).collect()
}

#[test]
fn test_orthogonality() {
    let r = get_test_rotation();
    // R @ R^T should be identity
    for i in 0..TEST_DIM {
        for j in 0..TEST_DIM {
            let mut dot = 0.0f32;
            for k in 0..TEST_DIM {
                dot += r[i * TEST_DIM + k] * r[j * TEST_DIM + k];
            }
            let expected = if i == j { 1.0 } else { 0.0 };
            assert!(
                (dot - expected).abs() < 1e-4,
                "R@R^T[{},{}] = {}, expected {}",
                i,
                j,
                dot,
                expected
            );
        }
    }
}

#[test]
fn test_deterministic_with_seed() {
    let r1 = get_test_rotation();
    let r2 = get_test_rotation();
    assert_eq!(r1, r2, "Same seed should produce identical rotation");
}

#[test]
fn test_different_seeds_differ() {
    let r1 = generate_rotation_matrix(TEST_DIM, 42, &orthogonal);
    let r2 = generate_rotation_matrix(TEST_DIM, 43, &orthogonal);
    let flat1 = rotation_as_flat_f32(&r1);
    let flat2 = rotation_as_flat_f32(&r2);
    assert_ne!(flat1, flat2, "Different seeds should produce different rotations");
}

#[test]
fn test_norm_preservation() {
    let r = get_test_rotation();
    // Random unit vector
    let mut x = vec![0.0f32; TEST_DIM];
    x[0] = 1.0;
    x[1] = 0.5;
    let norm_x: f32 = x.iter().map(|v| v * v).sum::<f32>().sqrt();

    let y = rotate(&x, &r, TEST_DIM, &dot);
    let norm_y: f32 = y.iter().map(|v| v * v).sum::<f32>().sqrt();

    assert!(
        (norm_x - norm_y).abs() < 1e-4,
        "Norm not preserved: {} vs {}",
        norm_x,
        norm_y
    );
}

#[test]
fn test_roundtrip() {
    let r = get_test_rotation();
    let x: Vec<f32> = (0..TEST_DIM)
        .map(|i| (i as f32 + 1.0) / TEST_DIM as f32)
        .collect();

    let y = rotate(&x, &r, TEST_DIM, &dot);
    let x_rec = inverse_rotate(&y, &r, TEST_DIM, &dot);

    for i in 0..TEST_DIM {
        assert!(
            (x[i] - x_rec[i]).abs() < 1e-4,
            "Roundtrip failed at index {}: {} vs {}",
            i,
            x[i],
            x_rec[i]
        );
    }
}

#[test]
fn test_batch_roundtrip() {
    let r = get_test_rotation();
    let n = 10;
    let x: Vec<f32> = (0..n * TEST_DIM)
        .map(|i| ((i % 17) as f32 - 8.0) / 8.0)
        .collect();

    let y = rotate(&x, &r, TEST_DIM, &dot);
    let x_rec = inverse_rotate(&y, &r, TEST_DIM, &dot);

    for i in 0..x.len() {
        assert!(
            (x[i] - x_rec[i]).abs() < 1e-3,
            "Batch roundtrip failed at index {}: {} vs {}",
            i,
            x[i],
            x_rec[i]
        );
    }
}

#[test]
fn test_shape() {
    let mat = generate_rotation_matrix(TEST_DIM, TEST_SEED, &orthogonal);
    assert_eq!(mat.len(), TEST_DIM);
    assert_eq!(mat.value_length(), TEST_DIM);
}

fn whole_dot(a: &[i64], b: &[i64]) -> i64 {
    a.iter().zip(b.iter()).map(|(x, y)| x * y).sum()
}

// Columns of length 3 that are orthogonal to each other.
const TURN: [i64; 9] = [1, -2, 2, 2, -1, -2, 2, 2, 1];

#[test]
fn exact_products() {
    assert_eq!(rotate(&[1, 10, 100], &TURN, 3, &whole_dot), vec![181, -208, 122]);
    assert_eq!(inverse_rotate(&[1, 10, 100], &TURN, 3, &whole_dot), vec![221, 188, 82]);
}

#[test]
fn rotating_back_is_rotating_by_the_transposed() {
    let x = [3i64, 1, -4, 1, 5, 9];
    assert_eq!(
        inverse_rotate(&x, &TURN, 3, &whole_dot),
        rotate(&x, &transpose(&TURN, 3), 3, &whole_dot)
    );
    assert_eq!(transpose(&TURN, 3), vec![1, 2, 2, -2, -1, 2, 2, -2, 1]);
    assert_eq!(transpose(&transpose(&TURN, 3), 3), TURN.to_vec());
}

#[test]
fn exact_round_trip_and_dot_products() {
    let x = [3i64, 1, -4, 1, 5, 9];
    let y = rotate(&x, &TURN, 3, &whole_dot);
    let scaled: Vec<i64> = x.iter().map(|v| 9 * v).collect();
    assert_eq!(inverse_rotate(&y, &TURN, 3, &whole_dot), scaled);
    let z = inverse_rotate(&x, &TURN, 3, &whole_dot);
    assert_eq!(rotate(&z, &TURN, 3, &whole_dot), scaled);
    assert_eq!(whole_dot(&y[..3], &y[3..]), 9 * whole_dot(&x[..3], &x[3..]));
    // Rotation moves across the dot product.
    let back = inverse_rotate(&x[3..], &TURN, 3, &whole_dot);
    assert_eq!(whole_dot(&y[..3], &x[3..]), whole_dot(&x[..3], &back));
}

#[test]
fn incomplete_vectors_are_left_out() {
    assert_eq!(rotate(&[1i64, 10, 100, 7], &TURN, 3, &whole_dot).len(), 3);
    assert!(rotate(&[1i64, 10], &[], 3, &whole_dot).is_empty());
    assert!(inverse_rotate(&[1i64, 10], &[], 3, &whole_dot).is_empty());
}

#[test]
fn decomposition_gives_the_matrix_back() {
    let a = vec![
        vec![2.0, -1.0, 0.5],
        vec![0.0, 3.0, 1.0],
        vec![1.0, 1.0, -2.0],
    ];
    let (q, r) = decompose(a.clone());
    let again = product(&q, &r);
    for i in 0..3 {
        for j in 0..3 {
            assert!((again[i][j] - a[i][j]).abs() < 1e-12);
            if j < i {
                assert!(r[i][j].abs() < 1e-12);
            }
        }
    }
    let qt: Vec<Vec<f64>> = (0..3).map(|j| (0..3).map(|i| q[i][j]).collect()).collect();
    let unit = product(&qt, &q);
    for i in 0..3 {
        for j in 0..3 {
            assert!((unit[i][j] - if i == j { 1.0 } else { 0.0 }).abs() < 1e-12);
        }
    }
}

#[test]
fn decomposition_of_a_tall_matrix() {
    let a = vec![vec![3.0], vec![0.0], vec![4.0]];
    let (q, r) = decompose(a);
    assert_eq!(q.len(), 3);
    assert_eq!(q[0].len(), 3);
    assert!((r[0][0] + 5.0).abs() < 1e-12);
    assert!(r[1][0].abs() < 1e-12 && r[2][0].abs() < 1e-12);
}

#[test]
fn columns_without_length_are_skipped() {
    let zero = vec![vec![0.0, 1.0], vec![0.0, 2.0]];
    let (q, r) = decompose(zero.clone());
    assert_eq!(q, vec![vec![1.0, 0.0], vec![0.0, 1.0]]);
    assert_eq!(r, zero);
}

#[test]
fn signs_of_columns() {
    let q = vec![vec![1i64, 2], vec![3, 4]];
    let r = vec![vec![-5i64, 6], vec![0, 0]];
    let flat = correct_signs(
        &q,
        &r,
        &|t: i64| t >= 0,
        &|t: i64, sign: bool| if sign { t } else { -t },
        &|t: i64| t as i32,
    );
    assert_eq!(flat, vec![-1, 2, -3, 4]);
}

type Rows = Vec<Vec<f64>>;

fn arithmetic() -> MatrixArithmetic<
    f64,
    fn(&Vec<f64>) -> f64,
    fn(f64) -> bool,
    fn(f64) -> bool,
    fn(f64, bool, f64) -> f64,
    fn(f64, f64) -> f64,
    fn(f64, f64, bool) -> f64,
    fn(&Rows, &Rows) -> Rows,
> {
    MatrixArithmetic {
        zero: 0.0,
        one: 1.0,
        norm: |v| v.iter().map(|t| t * t).sum::<f64>().sqrt(),
        negligible: |length| length < f64::EPSILON,
        nonnegative: |t| t >= 0.0,
        shift: |t, sign, length| t + (if sign { 1.0 } else { -1.0 }) * length,
        divide: |t, length| t / length,
        entry: |u, v, diagonal| (if diagonal { 1.0 } else { 0.0 }) - 2.0 * (u * v),
        product,
    }
}

#[test]
fn factors_of_a_random_matrix() {
    let n = 6;
    let a = random_matrix(n, 3);
    let (q, r) = decompose_by(a.clone(), &arithmetic());
    assert_eq!((q.clone(), r.clone()), decompose(a.clone()));
    let back = product(&q, &r);
    for i in 0..n {
        for j in 0..n {
            assert!((back[i][j] - a[i][j]).abs() < 1e-12);
            let columns: f64 = (0..n).map(|k| q[k][i] * q[k][j]).sum();
            assert!((columns - if i == j { 1.0 } else { 0.0 }).abs() < 1e-12);
            if i > j {
                assert!(r[i][j].abs() < 1e-12);
            }
        }
    }
}

#[test]
fn decomposed_matrices_are_orthogonal() {
    let n = 16;
    let signed = |t: f64, sign: bool| t * (if sign { 1.0 } else { -1.0 });
    let m = decomposed_rotation_matrix(n, 7, &random_matrix, &arithmetic(), &signed, &|t: f64| {
        num(t as f32)
    });
    assert_eq!((m.num_rows, m.row_len), (n, n));
    assert_eq!(m.values, orthogonal(n, 7));
    let wide = orthogonal_matrix(n, 7, &random_matrix, &arithmetic(), &signed, &|t: f64| t);
    let a = random_matrix(n, 7);
    for i in 0..n {
        for j in 0..n {
            let rows: f64 = (0..n).map(|k| wide[n * i + k] * wide[n * j + k]).sum();
            assert!((rows - if i == j { 1.0 } else { 0.0 }).abs() < 1e-12);
            let columns: f64 = (0..n).map(|k| wide[n * k + i] * wide[n * k + j]).sum();
            assert!((columns - if i == j { 1.0 } else { 0.0 }).abs() < 1e-12);
            let triangular: f64 = (0..n).map(|k| wide[n * k + i] * a[k][j]).sum();
            if i > j {
                assert!(triangular.abs() < 1e-11);
            }
            if i == j {
                assert!(triangular >= 0.0);
            }
        }
    }
}

#[test]
fn matrices_follow_from_their_seed() {
    let signed = |t: f64, sign: bool| t * (if sign { 1.0 } else { -1.0 });
    let made = |seed: u64| {
        orthogonal_matrix(8, seed, &random_matrix, &arithmetic(), &signed, &|t: f64| t)
    };
    assert_eq!(made(5), made(5));
    assert_ne!(made(5), made(6));
}
