use prism_ann::error::PrismError;
use prism_ann::filter::Filter;
use prism_ann::partition::{Cell, PartitionTree};
use prism_ann::point::PointStore;

fn bits(values: &[f32]) -> Vec<u32> {
    values.iter().map(|value| value.to_bits()).collect()
}

#[test]
fn test_partition_tree() {
    // 6 points, 2 attributes: color(3 values), size(2 values)
    let vectors = bits(&[0.0f32; 6 * 2]);
    let attrs = vec![
        vec![0, 0, 1, 1, 2, 2], // color
        vec![0, 1, 0, 1, 0, 1], // size
    ];
    let store = PointStore::from_parts(vectors, 2, attrs).unwrap();
    let tree = PartitionTree::build(&store);
    assert_eq!(tree.cells.len(), 6); // 3*2 = 6 distinct combos

    let cells = tree.filter_cells(&[(0, vec![0])]).unwrap();
    let pts = tree.collect_points(&cells).unwrap();
    assert_eq!(pts.len(), 2);

    let cells = tree.filter_cells(&[(0, vec![1]), (1, vec![0])]).unwrap();
    let pts = tree.collect_points(&cells).unwrap();
    assert_eq!(pts.len(), 1);

    // IN within one attribute is a union; constraints across attributes
    // are intersected through the cell posting lists.
    let cells = tree.filter_cells(&[(0, vec![0, 2]), (1, vec![1])]).unwrap();
    let pts = tree.collect_points(&cells).unwrap();
    assert_eq!(pts.len(), 2);
}

#[test]
fn persisted_tree_rebuilds_postings_after_full_validation() {
    let cells = vec![
        Cell::from_parts(vec![0, 1], vec![0, 1]),
        Cell::from_parts(vec![2, 1], vec![2]),
    ];
    let tree = PartitionTree::from_parts(cells, vec![0, 1], 2, 3).unwrap();

    assert_eq!(tree.num_attributes(), 2);
    assert_eq!(tree.split_order(), &[0, 1]);
    assert_eq!(tree.cells()[0].values(), &[0, 1]);
    assert_eq!(tree.cells()[0].point_ids(), &[0, 1]);
    assert_eq!(tree.filter_cells(&[(0, vec![2])]).unwrap(), vec![1]);
}

#[test]
fn persisted_tree_rejects_noncontiguous_or_duplicate_membership() {
    let noncontiguous = vec![
        Cell::from_parts(vec![0], vec![0]),
        Cell::from_parts(vec![1], vec![2]),
    ];
    assert!(matches!(
        PartitionTree::from_parts(noncontiguous, vec![0], 1, 2),
        Err(PrismError::InvalidFormat(_))
    ));

    let duplicate_tuple = vec![
        Cell::from_parts(vec![0], vec![0]),
        Cell::from_parts(vec![0], vec![1]),
    ];
    assert!(matches!(
        PartitionTree::from_parts(duplicate_tuple, vec![0], 1, 2),
        Err(PrismError::InvalidFormat(_))
    ));
}

#[test]
fn public_partition_queries_reject_invalid_indices_and_schema() {
    let store =
        PointStore::from_parts(bits(&[0.0, 1.0]), 1, vec![vec![0, 1], vec![2, 3]]).unwrap();
    let tree = PartitionTree::build(&store);

    assert!(matches!(
        tree.filter_cells(&[(2, vec![0])]),
        Err(PrismError::InvalidInput(_))
    ));
    assert!(matches!(
        tree.count_points(&[tree.cells().len()]),
        Err(PrismError::InvalidInput(_))
    ));
    assert!(matches!(
        tree.collect_points(&[tree.cells().len()]),
        Err(PrismError::InvalidInput(_))
    ));

    let wrong_schema = PointStore::from_parts(bits(&[0.0, 1.0]), 1, vec![vec![0, 1]]).unwrap();
    assert!(matches!(
        tree.cell_of(&wrong_schema, 0),
        Err(PrismError::InvalidInput(_))
    ));
    assert_eq!(tree.cell_of(&store, u32::MAX).unwrap(), None);
}

#[test]
fn cells_of_a_filter_hold_exactly_the_matching_points() {
    let n = 60u32;
    let attrs = vec![
        (0..n).map(|i| i % 4).collect::<Vec<u32>>(),
        (0..n).map(|i| (i / 4) % 3).collect(),
    ];
    let store = PointStore::from_parts(bits(&vec![0.0; n as usize]), 1, attrs).unwrap();
    let tree = PartitionTree::build(&store);
    let filter = Filter::new(vec![(0, vec![1, 3]), (1, vec![0, 2])]);
    let cells = tree.filter_cells(filter.constraints()).unwrap();
    for (index, cell) in tree.cells().iter().enumerate() {
        let compatible = [1, 3].contains(&cell.values()[0]) && [0, 2].contains(&cell.values()[1]);
        assert_eq!(cells.contains(&index), compatible);
    }
    let mut points = tree.collect_points(&cells).unwrap();
    points.sort_unstable();
    let eligible: Vec<u32> = (0..n).filter(|&p| filter.matches(&store, p)).collect();
    assert_eq!(points, eligible);
}

#[test]
fn built_cells_ascend_and_split_order_prefers_many_values() {
    let store = PointStore::from_parts(
        bits(&[0.0; 5]),
        1,
        vec![vec![9, 9, 9, 9, 9], vec![3, 1, 2, 1, 3], vec![0, 1, 0, 1, 0]],
    )
    .unwrap();
    let tree = PartitionTree::build(&store);
    assert_eq!(tree.split_order(), &[1, 2, 0]);
    let tuples: Vec<&[u32]> = tree.cells().iter().map(|cell| cell.values()).collect();
    assert_eq!(tuples, vec![&[9, 1, 1][..], &[9, 2, 0][..], &[9, 3, 0][..]]);
    assert_eq!(tree.cells()[0].point_ids(), &[1, 3]);
    assert_eq!(tree.cells()[2].point_ids(), &[0, 4]);
    assert_eq!(tree.cell_of(&store, 4).unwrap(), Some(2));
    assert_eq!(tree.count_points(&[0, 2]).unwrap(), 4);
    assert_eq!(tree.collect_points(&[2, 0]).unwrap(), vec![0, 4, 1, 3]);
}

#[test]
fn persisted_tree_rejects_every_other_inconsistency() {
    let one = |values: Vec<u32>, ids: Vec<u32>| vec![Cell::from_parts(values, ids)];
    for (cells, order, k, count) in [
        (one(vec![0], vec![0]), vec![1], 1, 1),
        (one(vec![0, 0], vec![0]), vec![0, 0], 2, 1),
        (one(vec![0], vec![0]), vec![], 1, 1),
        (one(vec![0, 1], vec![0]), vec![0], 1, 1),
        (one(vec![0], vec![]), vec![0], 1, 0),
        (one(vec![0], vec![0]), vec![0], 1, 2),
        (one(vec![0], vec![0, 1]), vec![0], 1, 1),
    ] {
        assert!(matches!(
            PartitionTree::from_parts(cells, order, k, count),
            Err(PrismError::InvalidFormat(_))
        ));
    }
    assert!(matches!(
        PartitionTree::from_parts(vec![], vec![], 0, u32::MAX as usize + 1),
        Err(PrismError::Overflow(_))
    ));
    assert!(PartitionTree::from_parts(vec![], vec![], 0, 0).is_ok());
}
