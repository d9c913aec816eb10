use prism_ann::error::PrismError;
use prism_ann::point::PointStore;
use prism_ann::single::component_limit;

fn bits(values: &[f32]) -> Vec<u32> {
    values.iter().map(|value| value.to_bits()).collect()
}

#[test]
fn test_point_store_basic() {
    let mut store = PointStore::new(3, 2).unwrap();
    let id0 = store.push(&bits(&[1.0, 2.0, 3.0]), &[0, 1]).unwrap();
    let id1 = store.push(&bits(&[4.0, 5.0, 6.0]), &[1, 0]).unwrap();
    assert_eq!(id0, 0);
    assert_eq!(id1, 1);
    assert_eq!(store.len, 2);
    assert_eq!(store.len(), 2);
    assert_eq!(store.dim(), 3);
    assert!(!store.is_empty());
    assert_eq!(store.vectors(), &bits(&[1.0, 2.0, 3.0, 4.0, 5.0, 6.0])[..]);
    assert_eq!(store.attribute(0), Some(&[0, 1][..]));
    assert_eq!(store.vector(0), Some(&bits(&[1.0, 2.0, 3.0])[..]));
    assert_eq!(store.vector(1), Some(&bits(&[4.0, 5.0, 6.0])[..]));
    assert_eq!(store.vector(2), None);
    assert_eq!(store.attr(0, 0), Some(0));
    assert_eq!(store.attr(0, 1), Some(1));
    assert_eq!(store.attr(1, 0), Some(1));
    assert_eq!(store.attr(1, 1), Some(0));
    assert_eq!(store.attr(2, 0), None);
    assert_eq!(store.attr(0, 2), None);
}

#[test]
fn test_from_parts() {
    let vectors = bits(&[1.0, 2.0, 3.0, 4.0, 5.0, 6.0]);
    let attrs = vec![vec![0, 1], vec![1, 0]];
    let store = PointStore::from_parts(vectors, 3, attrs).unwrap();
    assert_eq!(store.len, 2);
    assert_eq!(store.k(), 2);
    assert_eq!(store.cardinality(0), Some(2));
    assert_eq!(store.cardinality(2), None);
}

#[test]
fn malformed_store_inputs_return_errors() {
    assert!(matches!(PointStore::new(0, 1), Err(PrismError::InvalidInput(_))));
    assert!(matches!(
        PointStore::from_parts(bits(&[1.0]), 2, vec![Vec::new()]),
        Err(PrismError::InvalidInput(_))
    ));
    assert!(matches!(
        PointStore::from_parts(bits(&[f32::NAN]), 1, vec![vec![0]]),
        Err(PrismError::InvalidInput(_))
    ));

    let mut store = PointStore::new(2, 1).unwrap();
    assert!(store.push(&bits(&[1.0]), &[0]).is_err());
    assert!(store.push(&bits(&[1.0, 2.0]), &[]).is_err());
    assert!(store.push(&bits(&[1.0, f32::INFINITY]), &[0]).is_err());
    assert!(store.is_empty());
}

#[test]
fn distance_domain_rejects_extreme_finite_coordinates() {
    assert!(matches!(
        PointStore::from_parts(bits(&[f32::MAX]), 1, vec![vec![0]]),
        Err(PrismError::InvalidInput(_))
    ));

    let mut store = PointStore::new(2, 1).unwrap();
    assert!(matches!(
        store.push(&bits(&[f32::MAX, -f32::MAX]), &[0]),
        Err(PrismError::InvalidInput(_))
    ));
    assert!(store.is_empty());
}

#[test]
fn distance_domain_accepts_values_at_a_safe_margin() {
    let limit = (f64::from(f32::MAX) / (8.0 * 2.0)).sqrt() as f32;
    let store =
        PointStore::from_parts(bits(&[limit, -limit, -limit, limit]), 2, vec![vec![0, 0]]).unwrap();
    let a = store.vector(0).unwrap();
    let b = store.vector(1).unwrap();
    let l2: f64 = a
        .iter()
        .zip(b)
        .map(|(&x, &y)| {
            let delta = f64::from(f32::from_bits(x)) - f64::from(f32::from_bits(y));
            delta * delta
        })
        .sum();
    assert!(l2.is_finite() && l2 <= f32::MAX as f64);
}

#[test]
fn component_limit_is_the_greatest_float_within_the_bound() {
    for dim in [1usize, 2, 3, 5, 7, 64, 128, 1000, 4096, usize::MAX] {
        let bound = (f64::from(f32::MAX) / (8.0 * dim as f64)).sqrt();
        let limit = component_limit(dim);
        assert!(f64::from(f32::from_bits(limit)) <= bound, "dimension {dim}");
        assert!(f64::from(f32::from_bits(limit + 1)) > bound, "dimension {dim}");
    }
}

#[test]
fn a_vector_pushed_is_the_vector_read() {
    let mut store = PointStore::new(2, 1).unwrap();
    for i in 0..5u32 {
        let row = bits(&[i as f32, -(i as f32)]);
        let id = store.push(&row, &[i % 3]).unwrap();
        assert_eq!(id, i);
        assert_eq!(store.vector(id), Some(&row[..]));
        assert_eq!(store.attr(id, 0), Some(i % 3));
    }
    assert_eq!(store.cardinality(0), Some(3));
}

#[test]
fn a_column_of_another_length_is_refused() {
    let error = PointStore::from_parts(bits(&[1.0, 2.0]), 1, vec![vec![0, 1], vec![0]]).err();
    assert!(matches!(error, Some(PrismError::InvalidInput(_))));
    assert_eq!(
        PointStore::validate_parts(&bits(&[1.0, 2.0]), 1, &[vec![4, 5]]).unwrap(),
        2
    );
}
