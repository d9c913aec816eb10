use prism_ann::binary::{largest_pow2_factor, seeded_signs, walsh_hadamard, BinaryStore};
use prism_ann::distance::hamming;
use prism_ann::error::PrismError;
use prism_ann::point::PointStore;

fn bits(values: &[f32]) -> Vec<u32> {
    values.iter().map(|value| value.to_bits()).collect()
}

fn rotate(row: &[u32], signs: &[u32], block: usize) -> Vec<bool> {
    let mut values: Vec<f64> = row
        .iter()
        .zip(signs)
        .map(|(&x, &sign)| f64::from(f32::from_bits(x)) * f64::from(f32::from_bits(sign)))
        .collect();
    for part in values.chunks_mut(block) {
        let mut half = 1;
        while half < block {
            for start in (0..block).step_by(2 * half) {
                for i in start..start + half {
                    let (a, b) = (part[i], part[i + half]);
                    part[i] = a + b;
                    part[i + half] = a - b;
                }
            }
            half *= 2;
        }
    }
    values.iter().map(|&value| value >= 0.0).collect()
}

#[test]
fn test_walsh_hadamard_identity() {
    assert_eq!(walsh_hadamard(&[1, 0, 0, 0]), vec![1, 1, 1, 1]);
}

#[test]
fn test_walsh_hadamard_butterfly() {
    assert_eq!(walsh_hadamard(&[1, 1]), vec![2, 0]);
    assert_eq!(walsh_hadamard(&[1, -1]), vec![0, 2]);
}

#[test]
fn test_largest_pow2_factor() {
    assert_eq!(largest_pow2_factor(384), 128);
    assert_eq!(largest_pow2_factor(128), 128);
    assert_eq!(largest_pow2_factor(256), 256);
    assert_eq!(largest_pow2_factor(12), 4);
    assert_eq!(largest_pow2_factor(1), 1);
}

#[test]
fn test_binary_query_encoding() {
    let dim = 128;
    let p0: Vec<f32> = (0..dim).map(|i| (i as f32 * 0.1).sin()).collect();
    let store = PointStore::from_parts(bits(&p0), dim, vec![vec![0]]).unwrap();
    let binary = BinaryStore::build(&store, &rotate).unwrap();

    let q = binary.encode_query(&bits(&p0), &rotate).unwrap();
    let c0 = binary.code(0).unwrap();
    assert_eq!(q, c0, "query encoding must match point encoding");
}

#[test]
fn test_hamming_distance_ordering() {
    let dim = 128;
    let p0: Vec<f32> = (0..dim).map(|i| (i as f32 + 1.0) / dim as f32).collect();
    let p1: Vec<f32> = p0.iter().map(|&v| v + 0.001).collect();
    let p2: Vec<f32> = p0.iter().map(|&v| -v).collect();

    let mut vecs = Vec::with_capacity(3 * dim);
    vecs.extend_from_slice(&p0);
    vecs.extend_from_slice(&p1);
    vecs.extend_from_slice(&p2);

    let store = PointStore::from_parts(bits(&vecs), dim, vec![vec![0, 0, 0]]).unwrap();
    let binary = BinaryStore::build(&store, &rotate).unwrap();
    let q = binary.encode_query(&bits(&p0), &rotate).unwrap();

    let d0 = hamming(&q, binary.code(0).unwrap());
    let d1 = hamming(&q, binary.code(1).unwrap());
    let d2 = hamming(&q, binary.code(2).unwrap());

    assert_eq!(d0, 0, "same vector must have 0 Hamming distance");
    assert!(
        d1 < d2,
        "close vector (d={d1}) must have smaller Hamming than opposite (d={d2})"
    );
}

#[test]
fn test_binary_code_words() {
    let store = PointStore::from_parts(vec![0; 128], 128, vec![vec![0]]).unwrap();
    let binary = BinaryStore::build(&store, &rotate).unwrap();
    assert_eq!(binary.code_words(), 2);

    let store = PointStore::from_parts(vec![0; 384], 384, vec![vec![0]]).unwrap();
    let binary = BinaryStore::build(&store, &rotate).unwrap();
    assert_eq!(binary.code_words(), 6);
}

#[test]
fn persisted_binary_rejects_invalid_shapes_signs_and_padding() {
    assert!(matches!(
        BinaryStore::from_parts(vec![0], 2, bits(&[1.0; 65]), 1),
        Err(PrismError::InvalidFormat(_))
    ));
    assert!(matches!(
        BinaryStore::from_parts(vec![0], 1, bits(&[1.0, 0.5]), 2),
        Err(PrismError::InvalidFormat(_))
    ));
    assert!(matches!(
        BinaryStore::from_parts(vec![0], 1, bits(&[1.0; 6]), 4),
        Err(PrismError::InvalidFormat(_))
    ));
    assert!(matches!(
        BinaryStore::from_parts(vec![u64::MAX], 1, bits(&[1.0; 5]), 1),
        Err(PrismError::InvalidFormat(_))
    ));
}

#[test]
fn persisted_binary_valid_parts_round_trip() {
    let binary = BinaryStore::from_parts(vec![0b1_1111], 1, bits(&[1.0; 5]), 1).unwrap();
    assert_eq!(binary.dim(), 5);
    assert_eq!(binary.len(), 1);
    assert!(!binary.is_empty());
    assert_eq!(binary.code(0), Some(&[0b1_1111][..]));
    assert_eq!(binary.code(1), None);
}

#[test]
fn binary_rejects_extreme_finite_query_and_raw_vectors() {
    let binary = BinaryStore::empty(1).unwrap();
    assert!(matches!(
        binary.encode_query(&bits(&[f32::MAX]), &rotate),
        Err(PrismError::InvalidInput(_))
    ));
    assert!(matches!(
        BinaryStore::build_from_f32(&bits(&[f32::MAX]), 1, &rotate),
        Err(PrismError::InvalidInput(_))
    ));
    assert!(matches!(BinaryStore::empty(usize::MAX), Err(PrismError::Overflow(_))));
}

#[test]
fn f64_walsh_workspace_handles_safe_large_coordinates() {
    let limit = ((f64::from(f32::MAX) / (8.0 * 4.0)).sqrt() * 0.99) as f32;
    let vectors = bits(&[limit, limit, limit, limit]);
    let binary = BinaryStore::build_from_f32(&vectors, 4, &rotate).unwrap();
    let query = binary.encode_query(&vectors, &rotate).unwrap();
    assert_eq!(query, binary.code(0).unwrap());
}

#[test]
fn bytes_and_floats_of_the_same_values_have_the_same_sketch() {
    let bytes: Vec<u8> = (0..3 * 24usize).map(|i| (i * 37 % 251) as u8).collect();
    let patterns: Vec<u32> = bytes.iter().map(|&byte| f32::from(byte).to_bits()).collect();
    let of_bytes = BinaryStore::build_from_u8(&bytes, 24).unwrap();
    let of_floats = BinaryStore::build_from_f32(&patterns, 24, &rotate).unwrap();
    assert_eq!(of_bytes.codes(), of_floats.codes());
    assert_eq!(of_bytes.encode_query_u8(&bytes[24..48]).unwrap(), of_floats.code(1).unwrap());
    assert!(of_bytes.encode_query_u8(&bytes[..23]).is_err());
    assert!(matches!(
        BinaryStore::build_from_u8(&bytes, 0),
        Err(PrismError::InvalidInput(_))
    ));
    assert!(matches!(
        BinaryStore::build_from_u8(&bytes, 7),
        Err(PrismError::InvalidInput(_))
    ));
}

#[test]
fn seeded_signs_are_fixed_and_mixed() {
    let signs = seeded_signs(256);
    assert_eq!(signs, seeded_signs(256));
    assert_eq!(&signs[..64], &seeded_signs(64)[..]);
    let (one, minus_one) = (1.0f32.to_bits(), (-1.0f32).to_bits());
    assert!(signs.iter().all(|&sign| sign == one || sign == minus_one));
    assert!(signs.contains(&one) && signs.contains(&minus_one));
}

#[test]
fn queries_are_sketched_with_the_signs_of_the_store() {
    let sketch = |sign: f32| {
        let store = BinaryStore::from_parts(vec![0], 1, bits(&[sign]), 1).unwrap();
        store.encode_query(&bits(&[1.0]), &rotate).unwrap()
    };
    assert_eq!(sketch(1.0), vec![1]);
    assert_eq!(sketch(-1.0), vec![0]);

    let blocks = |block_size: usize| {
        let store = BinaryStore::from_parts(vec![0], 1, bits(&[1.0; 4]), block_size).unwrap();
        store.encode_query(&bits(&[1.0, 2.0, 3.0, 4.0]), &rotate).unwrap()
    };
    assert_eq!(blocks(1), vec![0b1111]);
    assert_eq!(blocks(2), vec![0b0101]);
    assert_eq!(blocks(4), vec![0b1001]);
}
