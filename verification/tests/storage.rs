use std::sync::Arc;

use turboquant::arithmetic::VectorArithmetic;
use turboquant::builder::{TurboQuantizer, Vectors};
use turboquant::codebook::CodebookCache;
use turboquant::error::{ErrorKind, TurboError, ValueType};
use turboquant::float::Float32;
use turboquant::formulas::NumberArithmetic;
use turboquant::rotation::Matrix;
use turboquant::storage::{
    matrix_from_tensor, tensor_from_matrix, CodeBatch, DistanceArithmetic, FieldType, StoredColumn,
    Tensor, TurboDistCalculator, TurboQuantizationMetadata, TurboQuantizationStorage,
};
use turboquant::{DistanceType, TurboBuildParams};

type Storage = TurboQuantizationStorage<&'static str, Arc<String>>;

fn columns() -> Vec<StoredColumn<&'static str>> {
    vec![
        StoredColumn::RowIds { data: "ids" },
        StoredColumn::Codes { data: "codes" },
        StoredColumn::Norms { data: "norms" },
    ]
}

fn num(x: f32) -> Float32 {
    Float32::from_bits(x.to_bits())
}

fn val(x: Float32) -> f32 {
    f32::from_bits(x.to_bits())
}

fn nums(x: &[f32]) -> Vec<Float32> {
    x.iter().map(|v| num(*v)).collect()
}

fn norm(x: &[Float32]) -> Float32 {
    num(x.iter().map(|v| val(*v) * val(*v)).sum::<f32>().sqrt())
}

fn divide(x: Float32, y: Float32) -> Float32 {
    num(val(x) / val(y))
}

fn dot(a: &[Float32], b: &[Float32]) -> Float32 {
    let mut sum = 0.0f32;
    for k in 0..a.len() {
        sum += val(a[k]) * val(b[k]);
    }
    num(sum)
}

fn identity(dim: usize, _seed: u64) -> Vec<Float32> {
    let mut values = vec![0.0f32; dim * dim];
    for i in 0..dim {
        values[i * dim + i] = 1.0;
    }
    nums(&values)
}

fn halves(_dim: usize, num_bits: u32) -> (Vec<Float32>, Vec<Float32>) {
    let k = 1usize << num_bits;
    let boundaries: Vec<f32> = (0..k + 1).map(|i| 2.0 * i as f32 / k as f32 - 1.0).collect();
    let centroids: Vec<f32> = (0..k)
        .map(|i| (boundaries[i] + boundaries[i + 1]) / 2.0)
        .collect();
    (nums(&centroids), nums(&boundaries))
}

// A permutation with a change of sign: the new coordinates are (-x1, x2, x0).
fn turn(_dim: usize, _seed: u64) -> Vec<Float32> {
    nums(&[0.0, -1.0, 0.0, 0.0, 0.0, 1.0, 1.0, 0.0, 0.0])
}

type Binary = fn(Float32, Float32) -> Float32;

fn numbers() -> NumberArithmetic<Float32, Binary, Binary, Binary, fn(Float32) -> Float32> {
    NumberArithmetic {
        zero: num(0.0),
        one: num(1.0),
        two: num(2.0),
        plus: |x, y| num(val(x) + val(y)),
        minus: |x, y| num(val(x) - val(y)),
        times: |x, y| num(val(x) * val(y)),
        negate: |x| num(-val(x)),
    }
}

fn l2(q: Float32, n: Float32, d: Float32) -> Float32 {
    let (q, n, d) = (val(q), val(n), val(d));
    num(q * q + n * n - 2.0 * q * n * d)
}

fn inner(q: Float32, n: Float32, d: Float32) -> Float32 {
    num(-(val(q) * val(n) * val(d)))
}

fn cosine(d: Float32) -> Float32 {
    num(1.0 - val(d))
}

fn metadata(num_bits: u32, dimension: usize) -> TurboQuantizationMetadata {
    TurboQuantizationMetadata {
        rotate_mat: Some(Matrix {
            num_rows: dimension,
            row_len: dimension,
            values: identity(dimension, 0),
        }),
        rotate_mat_position: None,
        num_bits,
        dimension,
        seed: 42,
        packed: false,
    }
}

fn batch(first_id: u64, rows: usize, code_len: usize) -> CodeBatch<&'static str> {
    CodeBatch {
        row_ids: (0..rows as u64).map(|i| first_id + 10 * i).collect(),
        code_len,
        codes: (0..rows * code_len).map(|i| i as u8).collect(),
        norms: (0..rows).map(|i| num(1.0 + i as f32)).collect(),
        columns: columns(),
    }
}

// Metadata as a JSON object, without the rotation matrix.
fn to_json(m: &TurboQuantizationMetadata) -> String {
    let mut object = serde_json::Map::new();
    let mut put = |key: &str, value: serde_json::Value| object.insert(String::from(key), value);
    put("rotate_mat_position", m.rotate_mat_position.into());
    put("num_bits", m.num_bits.into());
    put("dimension", (m.dimension as u64).into());
    put("seed", m.seed.into());
    put("packed", m.packed.into());
    serde_json::to_string(&serde_json::Value::Object(object)).unwrap()
}

fn from_json(s: &str) -> Result<TurboQuantizationMetadata, String> {
    let value: serde_json::Value = serde_json::from_str(s).map_err(|e| e.to_string())?;
    let number = |key: &str| {
        value
            .get(key)
            .and_then(|v| v.as_u64())
            .ok_or(format!("missing field {}", key))
    };
    Ok(TurboQuantizationMetadata {
        rotate_mat: None,
        rotate_mat_position: number("rotate_mat_position").ok().map(|p| p as u32),
        num_bits: number("num_bits")? as u32,
        dimension: number("dimension")? as usize,
        seed: number("seed")?,
        packed: value.get("packed").and_then(|v| v.as_bool()).unwrap_or(false),
    })
}

#[test]
fn test_metadata_serde() {
    let metadata = TurboQuantizationMetadata {
        rotate_mat: None,
        rotate_mat_position: Some(1),
        num_bits: 4,
        dimension: 768,
        seed: 42,
        packed: false,
    };

    let entries = vec![
        (String::from("other"), String::from("{}")),
        (String::from("lance:turbo"), to_json(&metadata)),
    ];
    let deserialized = TurboQuantizationMetadata::load(&entries, &from_json).unwrap();

    assert_eq!(deserialized.num_bits, 4);
    assert_eq!(deserialized.dimension, 768);
    assert_eq!(deserialized.seed, 42);
    assert_eq!(deserialized.rotate_mat_position, Some(1));
}

#[test]
fn metadata_that_cannot_be_loaded() {
    let e = TurboQuantizationMetadata::load(&vec![], &from_json).unwrap_err();
    assert!(matches!(e, TurboError::MetadataNotFound));
    assert_eq!(e.message(), "TurboQuant metadata not found in schema");
    assert_eq!(e.kind(), ErrorKind::Index);
    let entries = vec![(String::from("lance:turbo"), String::from("{}"))];
    let e = TurboQuantizationMetadata::load(&entries, &from_json).unwrap_err();
    assert!(matches!(e, TurboError::Codec { .. }));
    assert_eq!(e.message(), "missing field num_bits");
}

fn encode(t: &Tensor) -> Result<Vec<u8>, String> {
    let mut r = vec![t.data_type as u8, t.shape.len() as u8];
    for s in &t.shape {
        r.extend_from_slice(&s.to_le_bytes());
    }
    r.extend_from_slice(&t.data);
    Ok(r)
}

fn decode(b: &[u8]) -> Result<Tensor, String> {
    if b.len() < 2 {
        return Err(String::from("too short"));
    }
    let rank = b[1] as usize;
    Ok(Tensor {
        data_type: b[0] as i32,
        shape: (0..rank)
            .map(|i| u32::from_le_bytes(b[2 + 4 * i..6 + 4 * i].try_into().unwrap()))
            .collect(),
        data: b[2 + 4 * rank..].to_vec(),
    })
}

#[test]
fn rotation_matrix_round_trip() {
    let written = metadata(4, 3);
    let bytes = written.extra_metadata(&encode).unwrap().unwrap();
    let mut read = metadata(4, 3);
    read.rotate_mat = None;
    read.set_buffer_index(5);
    read.parse_buffer(&bytes, &decode).unwrap();
    assert_eq!(read.buffer_index(), Some(5));
    let matrix = read.rotate_mat.unwrap();
    assert_eq!((matrix.num_rows, matrix.row_len), (3, 3));
    assert_eq!(matrix.values, identity(3, 0));
}

#[test]
fn metadata_without_a_matrix() {
    let mut m = metadata(4, 3);
    m.rotate_mat = None;
    assert!(m.extra_metadata(&encode).unwrap().is_none());
    m.parse_buffer(&[], &decode).unwrap();
    assert!(m.rotate_mat.is_none());
    let e = m.parse_buffer(&[1], &decode).unwrap_err();
    assert_eq!(e.message(), "too short");
    assert!(m.rotate_mat.is_none());
    let full = metadata(4, 3);
    let e = full.extra_metadata(&|_: &Tensor| Err(String::from("disk full"))).unwrap_err();
    assert_eq!(e.message(), "disk full");
}

#[test]
fn exact_tensors() {
    let matrix = Matrix {
        num_rows: 1,
        row_len: 2,
        values: nums(&[1.0, -2.5]),
    };
    let tensor = tensor_from_matrix(&matrix);
    assert_eq!(tensor.data_type, 2);
    assert_eq!(tensor.shape, vec![1, 2]);
    assert_eq!(tensor.data, vec![0, 0, 0x80, 0x3F, 0, 0, 0x20, 0xC0]);
    assert_eq!(matrix_from_tensor(&tensor).unwrap().values, matrix.values);
}

#[test]
fn tensors_without_a_matrix() {
    let tensor = |data_type: i32, shape: Vec<u32>, bytes: usize| Tensor {
        data_type,
        shape,
        data: vec![0; bytes],
    };
    let e = matrix_from_tensor(&tensor(2, vec![2, 2, 2], 32)).unwrap_err();
    assert!(matches!(e, TurboError::TensorRank { rank: 3 }));
    assert_eq!(e.message(), "Expected a tensor of rank 2, got 3");
    let e = matrix_from_tensor(&tensor(3, vec![2, 2], 16)).unwrap_err();
    assert!(matches!(e, TurboError::TensorType { code: 3 }));
    assert_eq!(e.message(), "Unsupported tensor data type");
    let e = matrix_from_tensor(&tensor(2, vec![2, 2], 15)).unwrap_err();
    assert_eq!(e.message(), "Tensor shape 2x2 does not match data length 15");
    assert!(matrix_from_tensor(&tensor(2, vec![u32::MAX, u32::MAX], 4)).is_err());
    assert_eq!(matrix_from_tensor(&tensor(2, vec![0, 7], 0)).unwrap().row_len, 7);
}

#[test]
fn storage_of_one_batch() {
    let m = metadata(4, 3);
    let s = Storage::try_from_batch(batch(100, 3, 2), &m, DistanceType::L2, None).unwrap();
    assert_eq!(s.len(), 3);
    assert!(!s.is_empty());
    assert_eq!(s.row_ids(), vec![100, 110, 120]);
    assert_eq!(s.offsets, vec![3]);
    assert_eq!(s.distance_type(), DistanceType::L2);
    assert_eq!(s.metadata().num_bits, 4);
    let schema = s.schema();
    assert_eq!(schema.len(), 3);
    assert_eq!(schema[0].name, "_rowid");
    assert_eq!(schema[0].field_type, FieldType::UInt64);
    assert!(!schema[0].nullable);
    assert_eq!(schema[1].name, "__turbo_code");
    assert_eq!(schema[1].field_type, FieldType::UInt8List { size: 2 });
    assert!(schema[1].nullable);
    assert_eq!(schema[2].name, "__turbo_norm");
    assert_eq!(schema[2].field_type, FieldType::Float32);
    let empty = Storage::try_from_batch(batch(0, 0, 2), &m, DistanceType::L2, None).unwrap();
    assert!(empty.is_empty());
}

#[test]
fn appending_batches() {
    let m = metadata(4, 3);
    let s = Storage::try_from_batch(batch(100, 3, 2), &m, DistanceType::Dot, None).unwrap();
    let t = s.append_batch(batch(0, 0, 2), "vector").unwrap();
    let u = t.append_batch(batch(500, 2, 2), "vector").unwrap();
    assert_eq!(u.len(), 5);
    assert_eq!(u.row_ids(), vec![100, 110, 120, 500, 510]);
    assert_eq!(u.offsets, vec![3, 3, 5]);
    for id in 0..5 {
        assert_eq!(u.row_id(id), u.row_ids()[id as usize]);
    }
    assert_eq!(u.locate(2), (0, 2));
    assert_eq!(u.locate(3), (2, 0));
    let batches = u.to_batches();
    assert_eq!(batches.len(), 3);
    assert_eq!(batches[2].row_ids, vec![500, 510]);
    assert_eq!(batches[2].codes, vec![0, 1, 2, 3]);
    assert_eq!(u.schema().len(), 3);
    assert_eq!(u.distance_type(), DistanceType::Dot);
    // The storage that was appended to stays as it is.
    assert_eq!(s.len(), 3);
}

fn stored(metric: DistanceType, num_bits: u32, values: &[f32]) -> Storage {
    let params = TurboBuildParams { num_bits, seed: 42 };
    let q = TurboQuantizer::new(3, &params, &turn).unwrap();
    let vectors = Vectors {
        value_type: ValueType::Float32,
        list_size: 3,
        len: values.len() / 3,
        values: nums(values),
    };
    let mut cache = CodebookCache::new();
    let ops = VectorArithmetic { norm, divide, dot };
    let codes = q.quantize(&vectors, &mut cache, &halves, &ops).unwrap();
    let batch = CodeBatch {
        row_ids: (0..vectors.len as u64).collect(),
        code_len: codes.value_length(),
        codes: codes.bytes,
        norms: (0..vectors.len).map(|i| norm(&vectors.values[3 * i..3 * i + 3])).collect(),
        columns: columns(),
    };
    Storage::try_from_batch(batch, &q.metadata(None), metric, None).unwrap()
}

fn distances(s: &Storage, query: &[f32]) -> Vec<f32> {
    let mut cache = CodebookCache::new();
    let ops = VectorArithmetic { norm, divide, dot };
    let calculator = s.dist_calculator(&nums(query), num(0.0), &mut cache, &halves, &ops);
    let formulas = DistanceArithmetic {
        dot,
        l2,
        inner,
        cosine,
    };
    let all = calculator.distance_all(2, &formulas);
    for (id, d) in all.iter().enumerate() {
        assert_eq!(*d, calculator.distance(id as u32, &formulas));
        assert_eq!(*d, numbers().distance(&calculator, id as u32));
    }
    assert_eq!(all, numbers().distance_all(&calculator, 2));
    all.into_iter().map(val).collect()
}

#[test]
fn exact_distances() {
    // One bit: every coordinate is restored as -0.5 or 0.5. The vector (0, -2, 0) has norm 2 and
    // is turned into (2, 0, 0), which is restored as (0.5, -0.5, -0.5). The query (0, -3, 4) has
    // norm 5 and is turned into (3, 4, 0) / 5.
    let dot = (0.6f32 - 0.8) * 0.5;
    let d = distances(&stored(DistanceType::L2, 1, &[0.0, -2.0, 0.0]), &[0.0, -3.0, 4.0]);
    assert!((d[0] - (25.0 + 4.0 - 2.0 * 5.0 * 2.0 * dot)).abs() < 1e-4);
    let d = distances(&stored(DistanceType::Dot, 1, &[0.0, -2.0, 0.0]), &[0.0, -3.0, 4.0]);
    assert!((d[0] + 5.0 * 2.0 * dot).abs() < 1e-4);
    let d = distances(&stored(DistanceType::Cosine, 1, &[0.0, -2.0, 0.0]), &[0.0, -3.0, 4.0]);
    assert!((d[0] - (1.0 - dot)).abs() < 1e-6);
}

#[test]
fn distances_are_close_to_the_true_ones() {
    let values = [0.3, -1.2, 0.5, 2.0, 0.1, 0.7, -0.4, -0.4, 1.1];
    let query = [1.0f32, -0.5, 0.25];
    let d = distances(&stored(DistanceType::L2, 8, &values), &query);
    assert_eq!(d.len(), 3);
    for i in 0..3 {
        let exact: f32 = (0..3).map(|k| (query[k] - values[3 * i + k]).powi(2)).sum();
        assert!((d[i] - exact).abs() < 0.05, "{} and {}", d[i], exact);
    }
    let d = distances(&stored(DistanceType::Dot, 8, &values), &query);
    for i in 0..3 {
        let exact: f32 = (0..3).map(|k| -query[k] * values[3 * i + k]).sum();
        assert!((d[i] - exact).abs() < 0.05, "{} and {}", d[i], exact);
    }
}

#[test]
fn a_zero_query_is_not_divided() {
    let s = stored(DistanceType::L2, 4, &[0.0, -2.0, 0.0]);
    let d = distances(&s, &[0.0, 0.0, 0.0]);
    assert_eq!(d, vec![4.0]);
    let mut cache = CodebookCache::new();
    let ops = VectorArithmetic { norm, divide, dot };
    let c = TurboDistCalculator::new(&nums(&[0.0, 3.0, 0.0]), &s, num(7.0), &mut cache, &halves, &ops);
    assert_eq!(val(c.query_norm), 3.0);
    assert_eq!(val(c.dist_q_c), 7.0);
    assert_eq!(c.query_rotated, nums(&[-1.0, 0.0, 0.0]));
    assert_eq!(c.centroids, halves(3, 4).0);
    // A query too short for one vector has nothing to rotate.
    let c = TurboDistCalculator::new(&nums(&[3.0]), &s, num(0.0), &mut cache, &halves, &ops);
    assert!(c.query_rotated.is_empty());
}

#[test]
fn appending_keeps_distances() {
    let s = stored(DistanceType::Cosine, 4, &[0.3, -1.2, 0.5, 2.0, 0.1, 0.7]);
    let t = s.append_batch(batch(9, 2, 2), "vector").unwrap();
    let query = [0.2, 0.9, -0.3];
    let before = distances(&s, &query);
    let after = distances(&t, &query);
    assert_eq!(after.len(), 4);
    assert_eq!(before, after[..2].to_vec());
}

#[test]
fn reused_fragments_are_handed_on() {
    let m = metadata(4, 3);
    let index = Arc::new(String::from("fragments"));
    let s = Storage::try_from_batch(batch(1, 1, 2), &m, DistanceType::L2, Some(index.clone())).unwrap();
    assert!(Arc::ptr_eq(s.frag_reuse_index.as_ref().unwrap(), &index));
    let copy = s.clone();
    assert!(Arc::ptr_eq(copy.frag_reuse_index.as_ref().unwrap(), &index));
    assert_eq!((copy.row_ids(), copy.offsets.clone()), (s.row_ids(), s.offsets.clone()));
    assert_eq!(copy.schema().len(), 3);
    let t = s.append_batch(batch(2, 1, 2), "vector").unwrap();
    assert!(Arc::ptr_eq(t.frag_reuse_index.as_ref().unwrap(), &index));
    let without = Storage::try_from_batch(batch(1, 1, 2), &m, DistanceType::L2, None).unwrap();
    assert!(without.frag_reuse_index.is_none());
    assert!(without.append_batch(batch(2, 1, 2), "vector").unwrap().frag_reuse_index.is_none());
}

#[test]
fn exact_formulas() {
    let ops = numbers();
    // 3² + 2² - 2·3·2·0.5
    assert_eq!(val(ops.squared_distance(num(3.0), num(2.0), num(0.5))), 7.0);
    assert_eq!(val(ops.negated_product(num(3.0), num(2.0), num(0.5))), -3.0);
    assert_eq!(val(ops.cosine_distance(num(0.25))), 0.75);
    let dot = ops.dot_product(&nums(&[1.0, 2.0, -3.0]), &nums(&[4.0, 0.5, 2.0]));
    assert_eq!(val(dot), -1.0);
    assert_eq!(val(ops.dot_product(&[], &[])), 0.0);
    // The squared distance of 5·(0.6, 0.8) and 2·(0, 1).
    let dot = ops.dot_product(&nums(&[0.6, 0.8]), &nums(&[0.0, 1.0]));
    let d = val(ops.squared_distance(num(5.0), num(2.0), dot));
    assert!((d - 13.0).abs() < 1e-5);
}

#[test]
fn an_empty_storage_has_no_distances_of_any_type() {
    let m = metadata(4, 3);
    let s = Storage::try_from_batch(batch(0, 0, 2), &m, DistanceType::Hamming, None).unwrap();
    assert!(distances(&s, &[0.0, 1.0, 0.0]).is_empty());
}

#[test]
fn further_columns_come_back() {
    let mut with_part = batch(100, 2, 2);
    with_part.columns = vec![
        StoredColumn::Norms { data: "norms" },
        StoredColumn::Other {
            name: String::from("part"),
            data: "parts",
        },
        StoredColumn::RowIds { data: "ids" },
        StoredColumn::Codes { data: "codes" },
    ];
    let m = metadata(4, 3);
    let s = Storage::try_from_batch(with_part, &m, DistanceType::L2, None).unwrap();
    let t = s.append_batch(batch(500, 1, 2), "vector").unwrap();
    for batches in [s.to_batches(), t.to_batches()] {
        let columns = &batches[0].columns;
        assert_eq!(columns.len(), 4);
        assert!(matches!(columns[0], StoredColumn::Norms { data: "norms" }));
        match &columns[1] {
            StoredColumn::Other { name, data } => {
                assert_eq!(name, "part");
                assert_eq!(*data, "parts");
            }
            _ => panic!("another column"),
        }
        assert!(matches!(columns[2], StoredColumn::RowIds { data: "ids" }));
        assert!(matches!(columns[3], StoredColumn::Codes { data: "codes" }));
        assert_eq!(batches[0].row_ids, vec![100, 110]);
    }
    assert_eq!(t.to_batches()[1].columns.len(), 3);
}

#[test]
fn short_queries_need_no_rows() {
    let mut m = metadata(4, 3);
    m.rotate_mat = Some(Matrix {
        num_rows: 0,
        row_len: 3,
        values: Vec::new(),
    });
    let s = Storage::try_from_batch(batch(1, 1, 2), &m, DistanceType::Cosine, None).unwrap();
    // Nothing of the query is left to rotate, so that the dot product is zero.
    assert_eq!(distances(&s, &[1.0, 2.0]), vec![1.0]);
}

#[test]
fn codes_are_read_by_the_length_of_the_metadata() {
    // The batch has three bytes for each code, of which the metadata ask for two: the code of the
    // second vector starts at the third byte.
    let m = metadata(4, 3);
    let s = Storage::try_from_batch(batch(1, 2, 3), &m, DistanceType::Cosine, None).unwrap();
    let exact = batch(1, 2, 2);
    let t = Storage::try_from_batch(exact, &m, DistanceType::Cosine, None).unwrap();
    assert_eq!(s.chunks[0].code_slice(1), [2, 3]);
    assert_eq!(distances(&s, &[0.2, 0.9, -0.3]), distances(&t, &[0.2, 0.9, -0.3]));
}
