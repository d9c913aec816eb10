use prism_ann::error::PrismError;
use prism_ann::filter::Filter;
use prism_ann::point::PointStore;

fn bits(values: &[f32]) -> Vec<u32> {
    values.iter().map(|value| value.to_bits()).collect()
}

#[test]
fn test_filter_matches() {
    let store =
        PointStore::from_parts(bits(&[0.0; 6]), 2, vec![vec![0, 1, 2], vec![10, 20, 30]]).unwrap();
    let f = Filter::new(vec![(0, vec![0, 1]), (1, vec![20])]);
    assert!(!f.matches(&store, 0)); // attr0=0 ok, attr1=10 fail
    assert!(f.matches(&store, 1)); // attr0=1 ok, attr1=20 ok
    assert!(!f.matches(&store, 2)); // attr0=2 fail
}

#[test]
fn test_filter_none() {
    let store = PointStore::from_parts(bits(&[0.0; 3]), 3, vec![vec![5]]).unwrap();
    let f = Filter::none();
    assert!(f.matches(&store, 0));
    assert!(!f.matches(&store, 1));
}

#[test]
fn test_filter_strength() {
    let f = Filter::new(vec![(0, vec![1]), (2, vec![3, 4])]);
    assert_eq!(f.strength(), 2);
}

#[test]
fn filter_canonicalizes_values_and_intersects_duplicate_attributes() {
    let f = Filter::new(vec![(0, vec![3, 2, 2, 1]), (0, vec![4, 2, 3])]);
    assert_eq!(f.constraints(), &[(0, vec![2, 3])]);
    assert_eq!(f.strength(), 1);
}

#[test]
fn canonical_filter_admits_what_every_condition_admits() {
    let store = PointStore::from_parts(
        bits(&[0.0; 4]),
        1,
        vec![vec![1, 2, 2, 3], vec![7, 7, 8, 7]],
    )
    .unwrap();
    let filter = Filter::new(vec![(1, vec![7]), (0, vec![1, 2, 3]), (0, vec![3, 2])]);
    let passing: Vec<u32> = (0..5).filter(|&id| filter.matches(&store, id)).collect();
    assert_eq!(passing, vec![1, 3]);
}

#[test]
fn filter_on_a_missing_attribute_is_refused_and_matches_nothing() {
    let store = PointStore::from_parts(bits(&[0.0]), 1, vec![vec![4]]).unwrap();
    let filter = Filter::eq(1, 4);
    assert!(matches!(filter.validate(1), Err(PrismError::InvalidInput(_))));
    assert!(filter.validate(2).is_ok());
    assert!(!filter.matches(&store, 0));
    assert!(Filter::eq(0, 4).matches(&store, 0));
    assert_eq!(Filter::eq(0, 4).constraints(), &[(0, vec![4])]);
}
