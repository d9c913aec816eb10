use prism_ann::distance::l2_sq8;
use prism_ann::error::PrismError;
use prism_ann::point::PointStore;
use prism_ann::quantize::{sq8_candidate_backend_name, SQ8Store};
use prism_ann::single::count_to_pattern;

fn bits(values: &[f32]) -> Vec<u32> {
    values.iter().map(|value| value.to_bits()).collect()
}

fn code_distance(a: &[u8], b: &[u8], scales: &[u32]) -> u32 {
    let total: f64 = a
        .iter()
        .zip(b)
        .zip(scales)
        .map(|((&x, &y), &scale)| {
            let delta = (f64::from(x) - f64::from(y)) * f64::from(f32::from_bits(scale));
            delta * delta
        })
        .sum();
    (total as f32).to_bits()
}

fn coded_distance(query: &[u32], code: &[u8], mins: &[u32], scales: &[u32]) -> u32 {
    let total: f32 = query
        .iter()
        .zip(code)
        .zip(mins.iter().zip(scales))
        .map(|((&q, &c), (&min, &scale))| {
            let restored = f32::from(c).mul_add(f32::from_bits(scale), f32::from_bits(min));
            let delta = f32::from_bits(q) - restored;
            delta * delta
        })
        .sum();
    total.to_bits()
}

fn step(low: u32, high: u32) -> u32 {
    let range = f64::from(f32::from_bits(high)) - f64::from(f32::from_bits(low));
    if range > 0.0 {
        ((range / 255.0) as f32).to_bits()
    } else {
        1.0f32.to_bits()
    }
}

fn encode(value: u32, min: u32, scale: u32) -> u8 {
    let value = (f64::from(f32::from_bits(value)) - f64::from(f32::from_bits(min)))
        / f64::from(f32::from_bits(scale));
    value.round().clamp(0.0, 255.0) as u8
}

fn restores(code: u8, min: u32, scale: u32, dim: usize) -> bool {
    let limit = (f64::from(f32::MAX) / (8.0 * dim as f64)).sqrt();
    let (min, scale) = (f32::from_bits(min), f32::from_bits(scale));
    let value = f64::from(min) + f64::from(code) * f64::from(scale);
    let searched = f64::from(f32::from(code).mul_add(scale, min));
    value.is_finite() && value.abs() <= limit && searched.is_finite() && searched.abs() <= limit
}

fn quantize(store: &PointStore) -> SQ8Store {
    SQ8Store::build(store, &step, &encode)
}

fn code_l2(sq8: &SQ8Store, a: u32, b: u32) -> f32 {
    f32::from_bits(code_distance(sq8.code_unchecked(a), sq8.code_unchecked(b), sq8.scales()))
}

fn asymmetric_l2(sq8: &SQ8Store, query: &[f32], id: u32) -> f32 {
    f32::from_bits(coded_distance(&bits(query), sq8.code_unchecked(id), sq8.mins(), sq8.scales()))
}

#[test]
fn test_sq8_roundtrip() {
    let store = PointStore::from_parts(
        bits(&[0.0, 0.0, 0.0, 255.0, 255.0, 255.0]),
        3,
        vec![vec![0, 0]],
    )
    .unwrap();
    let sq8 = quantize(&store);
    assert_eq!(sq8.code(0), Some(&[0, 0, 0][..]));
    assert_eq!(sq8.code(1), Some(&[255, 255, 255][..]));
}

#[test]
fn test_sq8_midpoint() {
    let store = PointStore::from_parts(
        bits(&[0.0, 0.0, 255.0, 255.0, 128.0, 128.0]),
        2,
        vec![vec![0, 0, 0]],
    )
    .unwrap();
    let sq8 = quantize(&store);
    assert_eq!(sq8.code(2).unwrap()[0], 128);
}

#[test]
fn test_sq8_identity_quantization() {
    let store = PointStore::from_parts(
        bits(&[10.0, 200.0, 50.0, 150.0, 0.0, 255.0]),
        2,
        vec![vec![0, 0, 0]],
    )
    .unwrap();
    let sq8 = quantize(&store);
    assert_eq!(sq8.code(0), Some(&[10, 200][..]));
    assert_eq!(sq8.code(1), Some(&[50, 150][..]));
    assert_eq!(sq8.code(2), Some(&[0, 255][..]));
    assert_eq!(sq8.mins, bits(&[0.0, 0.0]));
    assert_eq!(sq8.scales, bits(&[1.0, 1.0]));
}

#[test]
fn test_sq8_non_identity_for_float_data() {
    let store =
        PointStore::from_parts(bits(&[0.0, 0.0, 1000.0, 500.5]), 2, vec![vec![0, 0]]).unwrap();
    let sq8 = quantize(&store);
    assert_eq!(sq8.code(0), Some(&[0, 0][..]));
    assert_eq!(sq8.code(1), Some(&[255, 255][..]));
}

#[test]
fn test_sq8_sampling_covers_tail_when_n_not_multiple_of_sample() {
    let n = 12_500;
    let mut vectors = Vec::with_capacity(n);
    for i in 0..n {
        if i < 10_000 {
            vectors.push((i % 100) as f32 / 100.0 + 0.25);
        } else {
            vectors.push(100.5);
        }
    }
    let store = PointStore::from_parts(bits(&vectors), 1, vec![vec![0; n]]).unwrap();
    let sq8 = quantize(&store);
    let scale = f32::from_bits(sq8.scales[0]);
    assert!(
        scale > 0.3,
        "scale {scale} must reflect the tail range ~[0,100], not the prefix [0,1]"
    );
    assert_eq!(sq8.code((n - 1) as u32).unwrap()[0], 255);
}

#[test]
fn test_sq8_distance_ranking() {
    let store = PointStore::from_parts(
        bits(&[0.0, 0.0, 100.0, 100.0, 200.0, 200.0]),
        2,
        vec![vec![0, 0, 0]],
    )
    .unwrap();
    let sq8 = quantize(&store);
    let q = sq8.quantize_query(&bits(&[90.0, 90.0]), &encode).unwrap();
    let d0 = l2_sq8(&q, sq8.code(0).unwrap());
    let d1 = l2_sq8(&q, sq8.code(1).unwrap());
    let d2 = l2_sq8(&q, sq8.code(2).unwrap());
    assert!(d1 < d0, "point 1 should be closer than point 0");
    assert!(d1 < d2, "point 1 should be closer than point 2");
}

#[test]
fn scale_aware_distance_preserves_anisotropic_l2_order() {
    let store = PointStore::from_parts(
        bits(&[0.0, 0.0, 100.0, 0.0, 0.0, 1.0, 1000.0, 0.0]),
        2,
        vec![vec![0; 4]],
    )
    .unwrap();
    let sq8 = quantize(&store);
    let query = [0.0, 0.0];

    let query_code = sq8.quantize_query(&bits(&query), &encode).unwrap();
    let raw_a = l2_sq8(&query_code, sq8.code(1).unwrap());
    let raw_b = l2_sq8(&query_code, sq8.code(2).unwrap());
    assert!(raw_a < raw_b, "fixture must expose the raw-code reversal");

    let scaled_a = asymmetric_l2(&sq8, &query, 1);
    let scaled_b = asymmetric_l2(&sq8, &query, 2);
    assert!(
        scaled_b < scaled_a,
        "original-space nearest neighbor must survive SQ8 ranking"
    );

    let stored_a = code_l2(&sq8, 0, 1);
    let stored_b = code_l2(&sq8, 0, 2);
    assert!(
        stored_b < stored_a,
        "stored-code construction distance must use per-dimension scales"
    );
}

#[test]
fn persisted_sq8_rejects_inconsistent_or_nonfinite_parts() {
    assert!(matches!(
        SQ8Store::from_parts(vec![1, 2, 3], bits(&[0.0, 0.0]), bits(&[1.0, 1.0]), 2, &restores),
        Err(PrismError::InvalidFormat(_))
    ));
    assert!(matches!(
        SQ8Store::from_parts(vec![1, 2], bits(&[0.0, 0.0]), bits(&[1.0, 0.0]), 2, &restores),
        Err(PrismError::InvalidFormat(_))
    ));
    assert!(matches!(
        SQ8Store::from_parts(vec![1], bits(&[f32::NAN]), bits(&[1.0]), 1, &restores),
        Err(PrismError::InvalidFormat(_))
    ));
}

#[test]
fn persisted_sq8_valid_parts_round_trip() {
    let sq8 = SQ8Store::from_parts(
        vec![1, 2, 3, 4],
        bits(&[-1.0, 2.0]),
        bits(&[0.5, 1.0]),
        2,
        &restores,
    )
    .unwrap();
    assert_eq!(sq8.len(), 2);
    assert!(!sq8.is_empty());
    assert_eq!(sq8.code(1), Some(&[3, 4][..]));
    assert_eq!(sq8.code(2), None);
}

#[test]
fn sq8_rejects_extreme_queries_and_persisted_reconstructions() {
    let store = PointStore::from_parts(bits(&[0.0, 1.0]), 1, vec![vec![0, 0]]).unwrap();
    let sq8 = quantize(&store);
    assert!(matches!(
        sq8.quantize_query(&bits(&[f32::MAX]), &encode),
        Err(PrismError::InvalidInput(_))
    ));
    assert!(matches!(
        SQ8Store::from_parts(vec![255], bits(&[f32::MAX]), bits(&[f32::MAX]), 1, &restores),
        Err(PrismError::InvalidFormat(_))
    ));
}

#[test]
fn sq8_safe_domain_distances_remain_finite() {
    let limit = ((f64::from(f32::MAX) / (8.0 * 2.0)).sqrt() * 0.99) as f32;
    let store =
        PointStore::from_parts(bits(&[limit, -limit, -limit, limit]), 2, vec![vec![0, 0]]).unwrap();
    let sq8 = quantize(&store);
    assert!(asymmetric_l2(&sq8, &[limit, -limit], 1).is_finite());
    assert!(code_l2(&sq8, 0, 1).is_finite());
}

#[test]
fn quantizing_a_stored_vector_gives_its_stored_code() {
    let vectors: Vec<f32> = (0..300).map(|i| (i as f32 * 0.37).sin() * 9.0).collect();
    let store = PointStore::from_parts(bits(&vectors), 3, vec![vec![0; 100]]).unwrap();
    let sq8 = quantize(&store);
    for id in 0..100u32 {
        let code = sq8.quantize_query(store.vector(id).unwrap(), &encode).unwrap();
        assert_eq!(sq8.code(id), Some(&code[..]));
    }
    assert!(matches!(
        sq8.quantize_query(&bits(&[1.0]), &encode),
        Err(PrismError::InvalidInput(_))
    ));
}

#[test]
fn backend_names_tell_the_instructions_in_use() {
    assert_eq!(sq8_candidate_backend_name(true, true), "scalar reference (forced feature)");
    assert_eq!(sq8_candidate_backend_name(true, false), "scalar reference (forced feature)");
    assert_eq!(sq8_candidate_backend_name(false, true), "AVX2/FMA (runtime detected)");
    assert_eq!(sq8_candidate_backend_name(false, false), "scalar runtime fallback");
}

#[test]
fn restored_values_are_bounded_by_the_dimension() {
    let parts = |dim: usize| {
        SQ8Store::from_parts(vec![0; dim], bits(&vec![5.0e18; dim]), bits(&vec![1.0; dim]), dim, &restores)
    };
    assert!(parts(1).is_ok());
    assert!(matches!(parts(4), Err(PrismError::InvalidFormat(_))));
}

#[test]
fn counts_have_the_patterns_of_their_numbers() {
    for count in [0u32, 1, 2, 3, 7, 255, 4_095, 4_096, 0x7f_ffff, 0x80_0000, 0xff_ffff] {
        assert_eq!(count_to_pattern(count), (count as f32).to_bits());
    }
}
