use prism_ann::evaluate::{
    all_pass, another_round, build_ground_truth_sets, completeness, count_good, degree_range,
    leave_alone, recall_credits,
};
use prism_ann::filter::Filter;
use prism_ann::graph::Graph;
use prism_ann::point::PointStore;
use prism_ann::search::SearchResult;

fn recall_at_k(results: &[Vec<u32>], truth: &[Vec<u32>], k: usize) -> f64 {
    let credits = recall_credits(results, truth, k);
    let total: f64 = credits.iter().map(|&(found, of)| found as f64 / of as f64).sum();
    total / results.len() as f64
}

#[test]
fn recall_uses_only_top_k_truth_and_deduplicates_results() {
    let gt = vec![0, 1, 2, 3, 10, 11, 12, 13];
    let truth = build_ground_truth_sets(&gt, 2, 4, 2);

    // IDs 2/3 and 12/13 are in the file but outside the requested top 2.
    assert_eq!(recall_at_k(&[vec![2, 3], vec![12, 13]], &truth, 2), 0.0);

    // A duplicated correct ID contributes one hit, not two.
    assert_eq!(recall_at_k(&[vec![0, 0], vec![10, 11]], &truth, 2), 0.75);
}

#[test]
fn empty_truth_requires_an_empty_result_for_full_credit() {
    let truth = vec![Vec::new(), Vec::new()];
    assert_eq!(recall_at_k(&[Vec::new(), vec![7]], &truth, 10), 0.5);
}

#[test]
fn ground_truth_drops_negative_ids() {
    let truth = build_ground_truth_sets(&[4, -1, 2, 2, 9, -5], 2, 3, 3);
    assert_eq!(truth, vec![vec![2, 4], vec![2, 9]]);
}

#[test]
fn results_are_counted_against_their_filter() {
    let store = PointStore::from_parts(vec![0; 4], 1, vec![vec![0, 1, 0, 1]]).unwrap();
    let results: Vec<SearchResult> = [0u32, 1, 2]
        .iter()
        .map(|&id| SearchResult {
            id,
            dist: (id as f32).to_bits(),
        })
        .collect();
    let filter = Filter::eq(0, 0);
    assert_eq!(count_good(&results, &filter, &store, None), 2);
    assert_eq!(count_good(&results, &filter, &store, Some(1.0f32.to_bits())), 1);
    assert!(!all_pass(&results, &filter, &store));
    assert!(all_pass(&results, &Filter::none(), &store));
}

#[test]
fn completeness_sums_counts_and_full_answers() {
    assert_eq!(completeness(&vec![10, 4, 10, 0], 10), (24, 2));
    assert_eq!(completeness(&Vec::new(), 10), (0, 0));
}

#[test]
fn degrees_range_from_least_to_greatest() {
    let graph = Graph::from_adj(&[vec![1, 2], vec![0], vec![0, 1]]).unwrap();
    assert_eq!(degree_range(&graph), (1, 2));
}

#[test]
fn one_point_is_left_with_a_combination() {
    let mut attrs = vec![vec![9, 9, 9, 1], vec![9, 9, 3, 9], vec![9, 9, 9, 9]];
    leave_alone(&mut attrs, &[9, 9, 9], 1, 8);
    assert_eq!(attrs, vec![vec![9, 9, 9, 1], vec![9, 9, 3, 9], vec![8, 9, 9, 9]]);
}

#[test]
fn measuring_stops_when_both_limits_are_reached() {
    assert!(another_round(0, 3, 10, true));
    assert!(another_round(5, 3, 10, false));
    assert!(!another_round(3, 3, 10, true));
    assert!(!another_round(10, 30, 10, false));
}
