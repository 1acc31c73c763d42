use turboquant::arithmetic::VectorArithmetic;
use turboquant::builder::{Codes, TurboQuantizer, Vectors};
use turboquant::codebook::CodebookCache;
use turboquant::error::{ErrorKind, TurboError, ValueType};
use turboquant::float::Float32;
use turboquant::transform::{Batch, Column, TQTransformer};
use turboquant::TurboBuildParams;

fn num(x: f32) -> Float32 {
    Float32::from_bits(x.to_bits())
}

fn val(x: Float32) -> f32 {
    f32::from_bits(x.to_bits())
}

fn nums(x: &[f32]) -> Vec<Float32> {
    x.iter().map(|v| num(*v)).collect()
}

fn norm(x: &[Float32]) -> Float32 {
    num(x.iter().map(|v| val(*v) * val(*v)).sum::<f32>().sqrt())
}

fn divide(x: Float32, y: Float32) -> Float32 {
    num(val(x) / val(y))
}

fn dot(a: &[Float32], b: &[Float32]) -> Float32 {
    let mut sum = 0.0f32;
    for k in 0..a.len() {
        sum += val(a[k]) * val(b[k]);
    }
    num(sum)
}

fn identity(dim: usize, _seed: u64) -> Vec<Float32> {
    let mut values = vec![0.0f32; dim * dim];
    for i in 0..dim {
        values[i * dim + i] = 1.0;
    }
    nums(&values)
}

fn halves(_dim: usize, num_bits: u32) -> (Vec<Float32>, Vec<Float32>) {
    let k = 1usize << num_bits;
    let boundaries: Vec<f32> = (0..k + 1).map(|i| 2.0 * i as f32 / k as f32 - 1.0).collect();
    let centroids: Vec<f32> = (0..k)
        .map(|i| (boundaries[i] + boundaries[i + 1]) / 2.0)
        .collect();
    (nums(&centroids), nums(&boundaries))
}

fn transformer() -> TQTransformer {
    let params = TurboBuildParams {
        num_bits: 2,
        seed: 1,
    };
    let tq = TurboQuantizer::new(3, &params, &identity).unwrap();
    TQTransformer::new(tq, String::from("vector"))
}

fn vectors(value_type: ValueType) -> Column<&'static str> {
    Column::Vectors(Vectors {
        value_type,
        list_size: 3,
        len: 2,
        values: nums(&[3.0, 0.0, -4.0, 0.0, -2.0, 0.0]),
    })
}

fn other(name: &'static str) -> Column<&'static str> {
    Column::Other {
        data_type: String::from("UInt64"),
        data: name,
    }
}

fn batch(columns: Vec<(&str, Column<&'static str>)>) -> Batch<&'static str> {
    Batch {
        columns: columns
            .into_iter()
            .map(|(name, column)| (String::from(name), column))
            .collect(),
    }
}

fn names(batch: &Batch<&'static str>) -> Vec<String> {
    batch.columns.iter().map(|c| c.0.clone()).collect()
}

fn run(b: Batch<&'static str>) -> Result<Batch<&'static str>, TurboError> {
    let mut cache = CodebookCache::new();
    let ops = VectorArithmetic { norm, divide, dot };
    transformer().transform(b, &mut cache, &halves, &ops)
}

#[test]
fn vectors_are_replaced() {
    let r = run(batch(vec![
        ("_rowid", other("ids")),
        ("vector", vectors(ValueType::Float32)),
        ("part", other("parts")),
    ]))
    .unwrap();
    assert_eq!(names(&r), vec!["_rowid", "part", "__turbo_code", "__turbo_norm"]);
    assert!(matches!(r.columns[0].1, Column::Other { data: "ids", .. }));
    assert!(matches!(r.columns[1].1, Column::Other { data: "parts", .. }));
    match &r.columns[2].1 {
        Column::Codes(codes) => {
            assert_eq!(codes.bytes, vec![3 | 1 << 2, 1 | 1 << 4]);
            assert_eq!((codes.len(), codes.value_length()), (2, 1));
        }
        _ => panic!("no codes"),
    }
    match &r.columns[3].1 {
        Column::Norms(norms) => assert_eq!(*norms, nums(&[5.0, 2.0])),
        _ => panic!("no norms"),
    }
}

#[test]
fn transforming_twice_changes_nothing() {
    let once = run(batch(vec![
        ("vector", vectors(ValueType::Float32)),
        ("x", other("x")),
    ]))
    .unwrap();
    let expected = names(&once);
    let twice = run(once).unwrap();
    assert_eq!(names(&twice), expected);
    // A batch with codes stays as it is, even with a vector column.
    let kept = run(batch(vec![
        ("vector", vectors(ValueType::Float32)),
        ("__turbo_code", other("old")),
    ]))
    .unwrap();
    assert_eq!(names(&kept), vec!["vector", "__turbo_code"]);
}

#[test]
fn all_columns_with_the_name_are_dropped() {
    let r = run(batch(vec![
        ("vector", vectors(ValueType::Float32)),
        ("a", other("a")),
        ("vector", other("again")),
    ]))
    .unwrap();
    assert_eq!(names(&r), vec!["a", "__turbo_code", "__turbo_norm"]);
}

#[test]
fn columns_that_hold_no_vectors() {
    let e = run(batch(vec![("a", other("a"))])).unwrap_err();
    assert_eq!(e.message(), "TQ Transform: column vector not found in batch");
    assert_eq!(e.kind(), ErrorKind::Index);
    let e = run(batch(vec![("vector", other("a"))])).unwrap_err();
    assert_eq!(
        e.message(),
        "TQ Transform: column vector is not a fixed size list, got UInt64"
    );
    let e = run(batch(vec![("vector", Column::Norms(nums(&[1.0])))])).unwrap_err();
    assert_eq!(
        e.message(),
        "TQ Transform: column vector is not a fixed size list, got Float32"
    );
    let codes = Codes {
        len: 1,
        code_len: 1,
        bytes: vec![0],
    };
    let e = run(batch(vec![("vector", Column::Codes(codes))])).unwrap_err();
    assert_eq!(e.message(), "TQ Transform: expected Float32 residual vectors");
    let e = run(batch(vec![("vector", vectors(ValueType::Float64))])).unwrap_err();
    assert!(matches!(e, TurboError::ResidualsNotFloat32));
}

#[test]
fn norms_that_are_there_already() {
    let e = run(batch(vec![
        ("vector", vectors(ValueType::Float32)),
        ("__turbo_norm", other("old")),
    ]))
    .unwrap_err();
    assert!(matches!(e, TurboError::ColumnExists { .. }));
    assert_eq!(e.message(), "Can not append column __turbo_norm");
}

#[test]
fn errors_of_the_quantizer_come_first() {
    let mut t = transformer();
    t.tq.metadata.num_bits = 9;
    let mut cache = CodebookCache::new();
    let ops = VectorArithmetic { norm, divide, dot };
    let b = batch(vec![
        ("vector", vectors(ValueType::Float32)),
        ("__turbo_norm", other("old")),
    ]);
    let e = t.transform(b, &mut cache, &halves, &ops).unwrap_err();
    assert!(matches!(e, TurboError::NumBits { num_bits: 9 }));
}

#[test]
fn description() {
    assert_eq!(transformer().describe(), "TQTransformer(vector_column=vector)");
}
