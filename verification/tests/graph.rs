use prism_ann::error::PrismError;
use prism_ann::graph::{AdjBuilder, Graph};

#[test]
fn test_graph_from_adj() {
    let adj = vec![vec![1, 2], vec![0], vec![0, 1]];
    let g = Graph::from_adj(&adj).unwrap();
    assert_eq!(g.n, 3);
    assert_eq!(g.degree(0), Some(2));
    assert_eq!(g.degree(1), Some(1));
    assert_eq!(g.degree(2), Some(2));
    assert_eq!(g.degree(3), None);
    assert_eq!(g.neighbors(0), Some(&[1, 2][..]));
    assert_eq!(g.neighbors(1), Some(&[0][..]));
    assert_eq!(g.neighbors(2), Some(&[0, 1][..]));
    assert_eq!(g.neighbors(3), None);
}

#[test]
fn persisted_graph_rejects_bad_offsets_and_neighbors() {
    assert!(matches!(
        Graph::from_parts(vec![0, 2], vec![0], 1),
        Err(PrismError::InvalidFormat(_))
    ));
    assert!(matches!(
        Graph::from_parts(vec![0, 1], vec![1], 1),
        Err(PrismError::InvalidFormat(_))
    ));
    assert!(matches!(
        Graph::from_parts(vec![1, 1], vec![0], 1),
        Err(PrismError::InvalidFormat(_))
    ));
}

#[test]
fn graph_parts_round_trip_through_immutable_accessors() {
    let graph = Graph::from_parts(vec![0, 1, 2], vec![1, 0], 2).unwrap();
    assert_eq!(graph.len(), 2);
    assert!(!graph.is_empty());
    assert_eq!(graph.offsets(), &[0, 1, 2]);
    assert_eq!(graph.neighbor_ids(), &[1, 0]);
}

#[test]
fn test_adj_builder() {
    let mut builder = AdjBuilder::new(3).unwrap();
    builder.add_undirected(0, 1).unwrap();
    builder.add_undirected(0, 2).unwrap();
    assert!(builder.add_edge(0, 3).is_err());
    let g = builder.build().unwrap();
    assert_eq!(g.neighbors(0), Some(&[1, 2][..]));
    assert_eq!(g.neighbors(1), Some(&[0][..]));
    assert_eq!(g.neighbors(2), Some(&[0][..]));
}

#[test]
fn snapshot_matches_build_after_deduplication() {
    let mut builder = AdjBuilder::new(3).unwrap();
    builder.add_edge(0, 2).unwrap();
    builder.add_edge(0, 1).unwrap();
    builder.add_edge(0, 2).unwrap();

    let snapshot = builder.snapshot().unwrap();
    let graph = builder.build().unwrap();

    assert_eq!(snapshot.offsets(), graph.offsets());
    assert_eq!(snapshot.neighbor_ids(), graph.neighbor_ids());
    assert_eq!(snapshot.neighbors(0), Some(&[1, 2][..]));
}

#[test]
fn adjacency_with_an_unknown_node_is_refused() {
    assert!(matches!(
        Graph::from_adj(&[vec![1], vec![2]]),
        Err(PrismError::InvalidInput(_))
    ));
    let mut builder = AdjBuilder::new(2).unwrap();
    assert!(matches!(builder.add_undirected(2, 0), Err(PrismError::InvalidInput(_))));
    assert_eq!(builder.total_edges(), 0);
    builder.add_undirected(1, 0).unwrap();
    assert_eq!(builder.total_edges(), 2);
    assert_eq!(builder.neighbors(1), Some(&[0][..]));
    assert_eq!(builder.neighbors(2), None);
}

#[test]
fn empty_graph_has_nodes_without_neighbors() {
    let graph = Graph::empty(2).unwrap();
    assert_eq!(graph.offsets(), &[0, 0, 0]);
    assert_eq!(graph.num_edges(), 0);
    assert_eq!(graph.neighbors(1), Some(&[][..]));
    assert!(Graph::empty(0).unwrap().is_empty());
}

#[test]
fn counts_beyond_the_identifier_space_overflow() {
    let beyond = u32::MAX as usize + 1;
    assert!(matches!(Graph::empty(beyond), Err(PrismError::Overflow(_))));
    assert!(matches!(AdjBuilder::new(beyond), Err(PrismError::Overflow(_))));
    let error = Graph::from_parts(vec![], vec![], beyond).err().unwrap();
    assert!(error.message().starts_with("overflow: "));
}

#[test]
fn a_snapshot_leaves_out_repeats() {
    let mut builder = AdjBuilder::new(3).unwrap();
    builder.add_edge(0, 2).unwrap();
    builder.add_edge(0, 1).unwrap();
    builder.add_edge(1, 0).unwrap();
    assert_eq!(builder.total_edges(), 3);
    assert_eq!(builder.snapshot().unwrap().num_edges(), 3);
    builder.add_edge(0, 2).unwrap();
    assert_eq!(builder.total_edges(), 4);
    let snapshot = builder.snapshot().unwrap();
    assert_eq!(snapshot.num_edges(), 3);
    assert_eq!(snapshot.neighbors(0), Some(&[1, 2][..]));
}
