use prism_ann::config::PrismConfig;
use prism_ann::crossing::Bridge;
use prism_ann::distance::{ord_key, Metric};
use prism_ann::error::{PrismError, PrismResult};
use prism_ann::filter::Filter;
use prism_ann::graph::Graph;
use prism_ann::index::PrismIndex;
use prism_ann::point::PointStore;
use prism_ann::query::SearchKernels;
use prism_ann::search::{
    SearchExecution, SearchOutcome, SearchPlan, SearchRegime, SearchResult,
};
use prism_ann::session::{told, Staging};
use rand::rngs::StdRng;
use rand::{Rng, SeedableRng};
use std::collections::HashSet;

fn bits(values: &[f32]) -> Vec<u32> {
    values.iter().map(|value| value.to_bits()).collect()
}

fn dot(a: &[u32], b: &[u32]) -> f64 {
    let product = |i: usize| f64::from(f32::from_bits(a[i])) * f64::from(f32::from_bits(b[i]));
    let mut lanes = [0.0f64; 4];
    let whole = a.len() / 4 * 4;
    for start in (0..whole).step_by(4) {
        for lane in 0..4 {
            lanes[lane] += product(start + lane);
        }
    }
    let mut total = (lanes[0] + lanes[2]) + (lanes[1] + lanes[3]);
    for i in whole..a.len() {
        total += product(i);
    }
    total
}

fn norm_squared(row: &[u32]) -> f64 {
    dot(row, row)
}

fn cosine_with_norms(query: &[u32], row: &[u32], query_norm: f64, row_norm: f64) -> f32 {
    let denominator = query_norm * row_norm;
    if denominator == 0.0 {
        1.0
    } else {
        (1.0 - (dot(query, row) / denominator).clamp(-1.0, 1.0)) as f32
    }
}

fn distance(metric: Metric, a: &[u32], b: &[u32]) -> f32 {
    match metric {
        Metric::L2 => a
            .iter()
            .zip(b)
            .map(|(&x, &y)| {
                let delta = f32::from_bits(x) - f32::from_bits(y);
                delta * delta
            })
            .sum(),
        Metric::InnerProduct => {
            let product: f64 = a
                .iter()
                .zip(b)
                .map(|(&x, &y)| f64::from(f32::from_bits(x)) * f64::from(f32::from_bits(y)))
                .sum();
            -(product as f32)
        }
        Metric::Cosine => {
            cosine_with_norms(a, b, norm_squared(a).sqrt(), norm_squared(b).sqrt())
        }
    }
}

fn normalized(row: &[u32]) -> Vec<u32> {
    let norm = row
        .iter()
        .map(|&x| f64::from(f32::from_bits(x)) * f64::from(f32::from_bits(x)))
        .sum::<f64>()
        .sqrt();
    if norm > 0.0 {
        row.iter()
            .map(|&x| ((f64::from(f32::from_bits(x)) / norm) as f32).to_bits())
            .collect()
    } else {
        row.to_vec()
    }
}

fn mean(rows: &[u32], dim: usize) -> Vec<u32> {
    let mut sums = vec![0.0f64; dim];
    for row in rows.chunks(dim) {
        for (sum, &x) in sums.iter_mut().zip(row) {
            *sum += f64::from(f32::from_bits(x));
        }
    }
    let inverse = 1.0 / (rows.len() / dim) as f64;
    sums.iter().map(|sum| ((sum * inverse) as f32).to_bits()).collect()
}

fn covers(alpha: u32, power: u32, between: u32, away: u32) -> bool {
    let factor: f64 = (0..power).map(|_| f64::from(f32::from_bits(alpha))).product();
    factor * f64::from(f32::from_bits(between)) <= f64::from(f32::from_bits(away))
}

fn code_distance(a: &[u8], b: &[u8], scales: &[u32]) -> u32 {
    let total: f64 = a
        .iter()
        .zip(b)
        .zip(scales)
        .map(|((&x, &y), &scale)| {
            let delta = (f64::from(x) - f64::from(y)) * f64::from(f32::from_bits(scale));
            delta * delta
        })
        .sum();
    (total as f32).to_bits()
}

fn coded_distance(query: &[u32], code: &[u8], mins: &[u32], scales: &[u32]) -> u32 {
    let total: f32 = query
        .iter()
        .zip(code)
        .zip(mins.iter().zip(scales))
        .map(|((&q, &c), (&min, &scale))| {
            let restored = f32::from(c).mul_add(f32::from_bits(scale), f32::from_bits(min));
            let delta = f32::from_bits(q) - restored;
            delta * delta
        })
        .sum();
    total.to_bits()
}

fn worth(alpha: u32, count: usize, distance: u32) -> u32 {
    ((count as f32 + 0.001) / f32::from_bits(distance).powf(f32::from_bits(alpha))).to_bits()
}

fn step(low: u32, high: u32) -> u32 {
    let range = f64::from(f32::from_bits(high)) - f64::from(f32::from_bits(low));
    if range > 0.0 {
        ((range / 255.0) as f32).to_bits()
    } else {
        1.0f32.to_bits()
    }
}

fn encode(value: u32, min: u32, scale: u32) -> u8 {
    let value = (f64::from(f32::from_bits(value)) - f64::from(f32::from_bits(min)))
        / f64::from(f32::from_bits(scale));
    value.round().clamp(0.0, 255.0) as u8
}

fn rotate(row: &[u32], signs: &[u32], block: usize) -> Vec<bool> {
    let mut values: Vec<f64> = row
        .iter()
        .zip(signs)
        .map(|(&x, &sign)| f64::from(f32::from_bits(x)) * f64::from(f32::from_bits(sign)))
        .collect();
    for part in values.chunks_mut(block) {
        let mut half = 1;
        while half < block {
            for start in (0..block).step_by(2 * half) {
                for i in start..start + half {
                    let (a, b) = (part[i], part[i + half]);
                    part[i] = a + b;
                    part[i + half] = a - b;
                }
            }
            half *= 2;
        }
    }
    values.iter().map(|&value| value >= 0.0).collect()
}

fn build(store: PointStore, config: PrismConfig) -> PrismResult<PrismIndex> {
    PrismIndex::build(
        store,
        config,
        &normalized,
        &|metric: Metric, a: &[u32], b: &[u32]| distance(metric, a, b).to_bits(),
        &mean,
        &covers,
        &code_distance,
        &worth,
        &step,
        &encode,
        &rotate,
        &|row: &[u32]| norm_squared(row).to_bits(),
        &|square: u64| f64::from_bits(square).sqrt().to_bits(),
    )
}

fn kernels() -> SearchKernels<
    impl Fn(&[u32]) -> Vec<u32>,
    impl Fn(Metric, &[u32], &[u32]) -> u32,
    impl Fn(&[u32], &[u32], u64, u64) -> u32,
    impl Fn(&[u32]) -> u64,
    impl Fn(u64) -> u64,
    impl Fn(&[u32], &[u8], &[u32], &[u32]) -> u32,
    impl Fn(&[u32], &[u32], usize) -> Vec<bool>,
    impl Fn(usize, usize) -> u32,
    impl Fn(u32, u32, u32) -> bool,
    impl Fn(u32, usize) -> usize,
    impl Fn(Bridge) -> bool,
> {
    SearchKernels {
        normalize: normalized,
        measure: |metric: Metric, a: &[u32], b: &[u32]| distance(metric, a, b).to_bits(),
        angle: |query: &[u32], row: &[u32], query_norm: u64, row_norm: u64| {
            cosine_with_norms(query, row, f64::from_bits(query_norm), f64::from_bits(row_norm))
                .to_bits()
        },
        squared: |row: &[u32]| norm_squared(row).to_bits(),
        root: |square: u64| f64::from_bits(square).sqrt().to_bits(),
        estimate: coded_distance,
        rotate,
        ratio: |part: usize, whole: usize| (part as f32 / whole as f32).to_bits(),
        too_far: |epsilon: u32, distance: u32, worst: u32| {
            let slack = 1.0 + f32::from_bits(epsilon);
            f64::from(f32::from_bits(distance))
                > f64::from(f32::from_bits(worst)) * f64::from(slack * slack)
        },
        allowance: |beta: u32, width: usize| (f32::from_bits(beta) * width as f32) as usize,
        promises: |bridge: Bridge| {
            let sigma = bridge.eligible as f32 / bridge.population as f32;
            let fraction = bridge.matching as f32 / bridge.degree as f32;
            let radius = f32::from_bits(bridge.radius).max(f32::EPSILON);
            fraction / (1.0 + f32::from_bits(bridge.distance) / radius) > sigma / (1.0 + sigma)
        },
    }
}

fn search(
    index: &PrismIndex,
    query: &[f32],
    filter: &Filter,
    k: usize,
    ef: usize,
) -> PrismResult<SearchOutcome> {
    index.search(&kernels(), &bits(query), filter, k, ef)
}

fn search_exact(
    index: &PrismIndex,
    query: &[f32],
    filter: &Filter,
    k: usize,
) -> PrismResult<Vec<SearchResult>> {
    index.search_exact(&kernels(), &bits(query), filter, k)
}

fn signature(results: &[SearchResult]) -> Vec<(u32, u32)> {
    results.iter().map(|result| (result.id, result.dist)).collect()
}

fn ids(results: &[SearchResult]) -> Vec<u32> {
    results.iter().map(|result| result.id).collect()
}

fn batch_search(
    index: &PrismIndex,
    queries: &[f32],
    filters: &[Filter],
    nq: usize,
    k: usize,
    ef: usize,
) -> PrismResult<Vec<SearchOutcome>> {
    index.batch_search(&kernels(), &bits(queries), filters, nq, k, ef)
}

fn plan_filter(index: &PrismIndex, filter: &Filter) -> PrismResult<SearchPlan> {
    index.plan_filter(filter, &kernels().ratio)
}

fn regime_mid(
    index: &PrismIndex,
    query: &[u32],
    norm: u64,
    cells: &Vec<usize>,
    k: usize,
    ef: usize,
) -> Vec<SearchResult> {
    let kernels = kernels();
    index.regime_mid(
        &kernels.estimate,
        &kernels.measure,
        &kernels.angle,
        &kernels.too_far,
        &kernels.allowance,
        &kernels.promises,
        query,
        norm,
        cells,
        k,
        ef,
    )
}

fn build_test_index() -> PrismIndex {
    let mut store = PointStore::new(2, 1).unwrap();
    for i in 0..10 {
        let x = (i as f32) * 0.1;
        let attr = if i < 5 { 0 } else { 1 };
        store.push(&bits(&[x, x]), &[attr]).unwrap();
    }
    let config = PrismConfig {
        m_local: 4,
        m_greedy: 2,
        m_random: 4,
        t: 1,
        alpha: 0.0f32.to_bits(),
        beam_width: 10,
        ..Default::default()
    };
    build(store, config).unwrap()
}

#[test]
fn test_search_no_filter() {
    let index = build_test_index();
    let outcome = search(&index, &[0.25, 0.25], &Filter::none(), 3, 10).unwrap();
    assert_eq!(
        outcome.diagnostics.primary_execution,
        SearchExecution::ExactScan
    );
    let results = outcome.results;
    assert_eq!(results.len(), 3);
    for r in &results {
        assert!(f32::from_bits(r.dist) >= 0.0);
    }
}

#[test]
fn filtered_high_diagnostics_distinguish_total_scan_and_graph_work() {
    let mut store = PointStore::new(2, 1).unwrap();
    for (attribute, count) in [(0u32, 4usize), (1, 12), (2, 20)] {
        for point in 0..count {
            store
                .push(
                    &bits(&[attribute as f32 * 10.0 + point as f32 * 0.01, point as f32]),
                    &[attribute],
                )
                .unwrap();
        }
    }
    let mut index = build(
        store,
        PrismConfig {
            m_local: 4,
            m_greedy: 1,
            m_random: 0,
            t: 1,
            beam_width: 12,
            sigma_high: 0.10f32.to_bits(),
            sigma_low: 0.01f32.to_bits(),
            scan_threshold: 15,
            multi_cell_scan_threshold: 0,
            ..Default::default()
        },
    )
    .unwrap();
    let filter = Filter::new(vec![(0, vec![0, 1])]);
    assert_eq!(
        plan_filter(&index, &filter).unwrap().regime,
        SearchRegime::High
    );
    index.config.scan_threshold = 16;
    let scanned = search(&index, &[0.0, 0.0], &filter, 5, 8).unwrap();
    assert_eq!(
        scanned.diagnostics.primary_execution,
        SearchExecution::ExactScan
    );
    assert!(!scanned.diagnostics.used_exact_fallback);
    let exact = search_exact(&index, &[0.0, 0.0], &filter, 5).unwrap();
    assert_eq!(
        scanned
            .results
            .iter()
            .map(|result| (result.id, result.dist))
            .collect::<Vec<_>>(),
        exact
            .iter()
            .map(|result| (result.id, result.dist))
            .collect::<Vec<_>>()
    );
    index.config.scan_threshold = 15;
    let globally_graphed = search(&index, &[0.0, 0.0], &filter, 1, 4).unwrap();
    assert_eq!(
        globally_graphed.diagnostics.primary_execution,
        SearchExecution::GlobalGraph
    );
    assert!(!globally_graphed.diagnostics.used_exact_fallback);
    index.config.scan_threshold = 0;
    index.config.multi_cell_scan_threshold = 16;
    let multi_cell_scanned = search(&index, &[0.0, 0.0], &filter, 5, 8).unwrap();
    assert_eq!(
        multi_cell_scanned.diagnostics.primary_execution,
        SearchExecution::ExactScan
    );
    assert_eq!(
        multi_cell_scanned
            .results
            .iter()
            .map(|result| (result.id, result.dist))
            .collect::<Vec<_>>(),
        exact
            .iter()
            .map(|result| (result.id, result.dist))
            .collect::<Vec<_>>()
    );
    index.config.multi_cell_scan_threshold = 15;
    assert_eq!(
        search(&index, &[0.0, 0.0], &filter, 1, 4)
            .unwrap()
            .diagnostics
            .primary_execution,
        SearchExecution::GlobalGraph
    );
    index.config.multi_cell_scan_threshold = usize::MAX;
    assert_eq!(
        search(&index, &[0.0, 0.0], &Filter::none(), 1, 4)
            .unwrap()
            .diagnostics
            .primary_execution,
        SearchExecution::GlobalGraph
    );
    assert_eq!(
        search(&index, &[20.0, 0.0], &Filter::eq(0, 2), 1, 4)
            .unwrap()
            .diagnostics
            .primary_execution,
        SearchExecution::LocalGraph
    );
    index.config.multi_cell_scan_threshold = 0;
    index.config.m_greedy = 0;
    let locally_graphed = search(&index, &[0.0, 0.0], &filter, 1, 4).unwrap();
    assert_eq!(
        locally_graphed.diagnostics.primary_execution,
        SearchExecution::LocalGraph
    );
    assert!(!locally_graphed.diagnostics.used_exact_fallback);

    let no_work = search(&index, &[0.0, 0.0], &filter, 0, 4).unwrap();
    assert_eq!(
        no_work.diagnostics.primary_execution,
        SearchExecution::NoWork
    );

    let empty = search(&index, &[0.0, 0.0], &Filter::eq(0, 99), 1, 4).unwrap();
    assert_eq!(empty.diagnostics.primary_execution, SearchExecution::NoWork);
}

#[test]
fn local_graph_execution_slices_cross_edges_out_of_the_single_csr() {
    let store = PointStore::from_parts(bits(&[0.0, 1.0, 100.0]), 1, vec![vec![0, 0, 1]]).unwrap();
    let mut index = build(
        store,
        PrismConfig {
            m_local: 1,
            m_greedy: 1,
            m_random: 0,
            beam_width: 4,
            sigma_high: 0.5f32.to_bits(),
            sigma_low: 0.0f32.to_bits(),
            scan_threshold: 0,
            ..Default::default()
        },
    )
    .unwrap();
    index.graph = Graph::from_adj(&[vec![1, 2], vec![0], vec![0]]).unwrap();
    index.medoids[0] = 0;
    assert_eq!(index.local_neighbors(0), &[1]);

    let filter = Filter::eq(0, 0);
    let outcome = search(&index, &[100.0], &filter, 2, 3).unwrap();
    assert_eq!(
        outcome.diagnostics.primary_execution,
        SearchExecution::LocalGraph
    );
    assert!(!outcome.diagnostics.used_exact_fallback);
    assert_eq!(outcome.results.len(), 2);
    assert!(outcome
        .results
        .iter()
        .all(|result| filter.matches(&index.store, result.id)));
}

#[test]
fn unfiltered_scan_threshold_is_inclusive_and_zero_forces_graph() {
    fn line_index(point_count: usize, scan_threshold: usize) -> PrismIndex {
        let mut store = PointStore::new(1, 1).unwrap();
        for point in 0..point_count {
            store.push(&bits(&[point as f32]), &[0]).unwrap();
        }
        build(
            store,
            PrismConfig {
                m_local: 2,
                m_greedy: 0,
                m_random: 0,
                beam_width: 4,
                scan_threshold,
                ..Default::default()
            },
        )
        .unwrap()
    }

    for (point_count, expected) in [
        (3, SearchExecution::ExactScan),
        (4, SearchExecution::ExactScan),
        (5, SearchExecution::LocalGraph),
    ] {
        let index = line_index(point_count, 4);
        let outcome = search(&index, &[3.25], &Filter::none(), 2, 4).unwrap();
        assert_eq!(outcome.diagnostics.primary_execution, expected);
        assert!(!outcome.diagnostics.used_exact_fallback);
        if expected == SearchExecution::ExactScan {
            let exact = search_exact(&index, &[3.25], &Filter::none(), 2).unwrap();
            assert_eq!(
                outcome
                    .results
                    .iter()
                    .map(|result| (result.id, result.dist))
                    .collect::<Vec<_>>(),
                exact
                    .iter()
                    .map(|result| (result.id, result.dist))
                    .collect::<Vec<_>>()
            );
        }
    }

    let forced_graph = search(&line_index(3, 0), &[1.5], &Filter::none(), 2, 4).unwrap();
    assert_eq!(
        forced_graph.diagnostics.primary_execution,
        SearchExecution::LocalGraph
    );
}

#[test]
fn search_rejects_queries_outside_the_index_distance_domain() {
    let index = build_test_index();
    assert!(matches!(
        search(&index, &[f32::MAX, 0.0], &Filter::none(), 1, 1),
        Err(PrismError::InvalidInput(_))
    ));
    assert!(matches!(
        search_exact(&index, &[0.0, f32::MAX], &Filter::none(), 1),
        Err(PrismError::InvalidInput(_))
    ));
    assert!(matches!(
        batch_search(&index, &[f32::MAX, 0.0], &[Filter::none()], 1, 1, 1),
        Err(PrismError::InvalidInput(_))
    ));
}

#[test]
fn unfiltered_single_and_batch_paths_are_graph_only_when_complete() {
    let mut store = PointStore::new(1, 1).unwrap();
    for point in 0..20usize {
        store.push(&bits(&[point as f32]), &[0]).unwrap();
    }
    let mut index = build(
        store,
        PrismConfig {
            m_local: 2,
            m_greedy: 0,
            m_random: 0,
            beam_width: 4,
            graph_expansion: 3,
            scan_threshold: 0,
            ..Default::default()
        },
    )
    .unwrap();
    let mut adjacency = vec![Vec::new(); 20];
    for point in 0..5u32 {
        adjacency[point as usize].push(point + 1);
    }
    index.graph = Graph::from_adj(&adjacency).unwrap();
    index.global_medoid = 0;
    index.medoids[0] = 0;

    let filter = Filter::none();
    let single = search(&index, &[19.0], &filter, 2, 2).unwrap();
    assert_eq!(single.results.len(), 2);
    assert_eq!(
        single.diagnostics.primary_execution,
        SearchExecution::LocalGraph
    );
    assert!(!single.diagnostics.used_exact_fallback);
    assert!(single.results.iter().all(|result| result.id <= 5));
    assert!(single.results.iter().all(|result| result.id != 19));

    let batch = batch_search(&index, &[19.0], &[filter], 1, 2, 2).unwrap();
    assert_eq!(batch[0].results.len(), 2);
    assert!(!batch[0].diagnostics.used_exact_fallback);
    assert!(batch[0].results.iter().all(|result| result.id <= 5));
    assert!(batch[0].results.iter().all(|result| result.id != 19));
}

#[test]
fn equal_threshold_unfiltered_search_visits_every_local_graph() {
    let mut store = PointStore::new(2, 1).unwrap();
    for cell in 0..4u32 {
        for point in 0..40usize {
            store
                .push(
                    &bits(&[
                        cell as f32 * 100.0 + point as f32 * 0.01,
                        (point as f32 * 0.13).sin(),
                    ]),
                    &[cell],
                )
                .unwrap();
        }
    }
    let index = build(
        store,
        PrismConfig {
            m_local: 8,
            m_greedy: 4,
            m_random: 4,
            beam_width: 24,
            sigma_low: 0.10f32.to_bits(),
            sigma_high: 0.10f32.to_bits(),
            graph_expansion: 3,
            scan_threshold: 0,
            ..Default::default()
        },
    )
    .unwrap();
    for point in 0..index.store.len as u32 {
        assert!(index
            .graph
            .neighbors_unchecked(point)
            .iter()
            .all(|&neighbor| index.point_cell[neighbor as usize]
                == index.point_cell[point as usize]));
    }
    let query = [300.2, 0.5];
    let approximate = search(&index, &query, &Filter::none(), 10, 32).unwrap();
    let exact = search_exact(&index, &query, &Filter::none(), 10).unwrap();
    assert_eq!(approximate.results.len(), 10);
    assert_eq!(
        approximate.diagnostics.primary_execution,
        SearchExecution::LocalGraph
    );
    assert!(!approximate.diagnostics.used_exact_fallback);
    assert_eq!(
        approximate
            .results
            .iter()
            .map(|result| result.id)
            .collect::<Vec<_>>(),
        exact.iter().map(|result| result.id).collect::<Vec<_>>()
    );
}

#[test]
fn global_unfiltered_route_connects_adversarial_greedy_components() {
    let mut store = PointStore::new(1, 1).unwrap();
    for (attribute, coordinate) in [(0, 0.0), (1, 1.0), (2, 100.0), (3, 101.0)] {
        store.push(&bits(&[coordinate]), &[attribute]).unwrap();
    }
    let index = build(
        store,
        PrismConfig {
            m_local: 1,
            m_greedy: 1,
            m_random: 0,
            t: 1,
            beam_width: 4,
            graph_expansion: 3,
            scan_threshold: 0,
            ..Default::default()
        },
    )
    .unwrap();
    assert!(index.config.uses_global_graph());

    let mut reachable = HashSet::new();
    let mut pending = vec![index.global_medoid];
    while let Some(point) = pending.pop() {
        if reachable.insert(point) {
            pending.extend(index.graph.neighbors_unchecked(point));
        }
    }
    assert_eq!(reachable.len(), index.store.len);
    let entry_coordinate = f32::from_bits(index.store.vector_unchecked(index.global_medoid)[0]);
    let query = if entry_coordinate < 50.0 {
        [100.9]
    } else {
        [0.1]
    };
    let approximate = search(&index, &query, &Filter::none(), 2, 4).unwrap();
    let exact = search_exact(&index, &query, &Filter::none(), 2).unwrap();
    assert_eq!(
        approximate.diagnostics.primary_execution,
        SearchExecution::GlobalGraph
    );
    assert!(!approximate.diagnostics.used_exact_fallback);
    assert_eq!(
        approximate
            .results
            .iter()
            .map(|result| result.id)
            .collect::<Vec<_>>(),
        exact.iter().map(|result| result.id).collect::<Vec<_>>()
    );
}

#[test]
fn graph_expansion_saturates_before_population_cap() {
    let mut index = build_test_index();
    index.config.graph_expansion = usize::MAX;
    assert_eq!(index.expanded_graph_ef(2, 123), 123);
}

#[test]
fn forced_local_vamana_fixture_recall_is_at_least_ninety_percent_across_tested_build_seeds() {
    const N: usize = 2_500;
    const DIM: usize = 128;
    const NQ: usize = 20;
    const K: usize = 10;
    const EF: usize = 64;

    let mut data_rng = StdRng::seed_from_u64(0x4441_5441);
    let vectors: Vec<f32> = (0..N * DIM).map(|_| data_rng.gen::<f32>()).collect();
    let queries: Vec<f32> = (0..NQ * DIM).map(|_| data_rng.gen::<f32>()).collect();

    let kernels = kernels();
    for build_seed in [7, 0x1234_5678, u64::MAX - 17] {
        let store = PointStore::from_parts(bits(&vectors), DIM, vec![vec![0; N]]).unwrap();
        let index = build(
            store,
            PrismConfig {
                m_local: 16,
                m_greedy: 0,
                m_random: 0,
                beam_width: 32,
                graph_expansion: 3,
                build_seed,
                scan_threshold: 0,
                ..Default::default()
            },
        )
        .unwrap();
        assert_eq!(index.tree.cells.len(), 1);
        assert!(
            index.tree.cells[0].point_ids.len() > index.config.m_local.saturating_add(1),
            "fixture must take the local-Vamana construction path"
        );

        let mut hits = 0usize;
        for query_idx in 0..NQ {
            let query = bits(&queries[query_idx * DIM..(query_idx + 1) * DIM]);
            let candidates =
                index.search_cell_graph(&kernels.estimate, &kernels.measure, &query, 0, EF);
            assert_eq!(candidates.len(), EF);
            let mut approximate: Vec<(f32, u32)> = candidates
                .into_iter()
                .map(|(_, id)| {
                    (
                        distance(Metric::L2, &query, index.store.vector_unchecked(id)),
                        id,
                    )
                })
                .collect();
            approximate
                .sort_by(|left, right| left.0.total_cmp(&right.0).then(left.1.cmp(&right.1)));
            approximate.truncate(K);

            let mut exact: Vec<(f32, u32)> = (0..N as u32)
                .map(|id| {
                    (
                        distance(Metric::L2, &query, index.store.vector_unchecked(id)),
                        id,
                    )
                })
                .collect();
            exact.sort_by(|left, right| left.0.total_cmp(&right.0).then(left.1.cmp(&right.1)));
            let ground_truth: HashSet<u32> =
                exact.into_iter().take(K).map(|(_, id)| id).collect();
            hits += approximate
                .iter()
                .filter(|(_, id)| ground_truth.contains(id))
                .count();
        }

        let recall = hits as f64 / (NQ * K) as f64;
        println!("build_seed={build_seed}: forced-graph fixture Recall@{K}={recall:.4}");
        assert!(
            recall >= 0.90,
            "forced-graph fixture Recall@{K}={recall:.4} for build_seed={build_seed}; expected >=0.90 on this fixture"
        );
    }
}

#[test]
fn original_id_maps_reordered_search_results() {
    let mut store = PointStore::new(2, 1).unwrap();
    store.push(&bits(&[100.0, 0.0]), &[1]).unwrap(); // original 0
    store.push(&bits(&[0.0, 0.0]), &[0]).unwrap(); // original 1, exact nearest
    store.push(&bits(&[200.0, 0.0]), &[1]).unwrap(); // original 2
    store.push(&bits(&[10.0, 0.0]), &[0]).unwrap(); // original 3
    let index = build(store, PrismConfig::default()).unwrap();

    assert_eq!(index.original_ids, vec![1, 3, 0, 2]);
    let result = search_exact(&index, &[0.0, 0.0], &Filter::none(), 1).unwrap();
    assert_eq!(result[0].id, 0);
    assert_eq!(index.original_id(result[0].id), Some(1));
    assert_eq!(index.original_id(u32::MAX), None);
}

#[test]
fn test_search_with_filter() {
    let index = build_test_index();
    let filter = Filter::eq(0, 1);
    let results = search(&index, &[0.5, 0.5], &filter, 3, 10).unwrap().results;
    assert!(!results.is_empty());
    for r in &results {
        assert!(filter.matches(&index.store, r.id));
    }
}

#[test]
fn test_graph_search_mid_selectivity() {
    let dim = 16;
    let n = 2000;
    let n_vals = 20;
    let mut store = PointStore::new(dim, 1).unwrap();
    for i in 0..n {
        let vec: Vec<f32> = (0..dim).map(|d| ((i * dim + d) as f32).sin()).collect();
        store.push(&bits(&vec), &[(i % n_vals) as u32]).unwrap();
    }
    let config = PrismConfig {
        m_local: 4,
        m_greedy: 2,
        m_random: 4,
        t: 1,
        beam_width: 10,
        scan_threshold: 0,
        ..Default::default()
    };
    let index = build(store, config).unwrap();

    let query: Vec<f32> = (0..dim).map(|d| (d as f32 * 0.3).sin()).collect();
    let filter = Filter::eq(0, 0);
    let k = 5;
    let ef = 10;

    let outcome = search(&index, &query, &filter, k, ef).unwrap();
    assert_eq!(outcome.diagnostics.plan.regime, SearchRegime::Mid);
    assert_eq!(
        outcome.diagnostics.primary_execution,
        SearchExecution::LocalGraph
    );
    assert!(!outcome.results.is_empty());
    assert!(outcome.results.len() <= k);
    for r in &outcome.results {
        assert!(filter.matches(&index.store, r.id));
    }
    for w in outcome.results.windows(2) {
        assert!(f32::from_bits(w[0].dist) <= f32::from_bits(w[1].dist));
    }
}

#[test]
fn test_search_empty_filter() {
    let index = build_test_index();
    let filter = Filter::eq(0, 99);
    let results = search(&index, &[0.0, 0.0], &filter, 3, 10).unwrap().results;
    assert!(results.is_empty());
}

#[test]
fn test_regime_mid_single_cell_uses_local_graph() {
    let dim = 16;
    let n = 2000;
    let n_vals = 20;
    let mut store = PointStore::new(dim, 1).unwrap();
    for i in 0..n {
        let vec: Vec<f32> = (0..dim).map(|d| ((i * dim + d) as f32).sin()).collect();
        store.push(&bits(&vec), &[(i % n_vals) as u32]).unwrap();
    }
    let config = PrismConfig {
        m_local: 4,
        m_greedy: 4,
        m_random: 4,
        t: 1,
        beam_width: 20,
        sigma_high: 0.10f32.to_bits(),
        sigma_low: 0.001f32.to_bits(),
        beta: 3.0f32.to_bits(),
        epsilon: 0.2f32.to_bits(),
        scan_threshold: 0,
        ..Default::default()
    };
    let index = build(store, config).unwrap();
    let query: Vec<f32> = (0..dim).map(|d| (d as f32 * 0.3).sin()).collect();
    let filter = Filter::eq(0, 0);
    let k = 5;
    let ef = 50;

    let outcome = search(&index, &query, &filter, k, ef).unwrap();
    assert_eq!(outcome.diagnostics.plan.regime, SearchRegime::Mid);
    assert_eq!(
        outcome.diagnostics.primary_execution,
        SearchExecution::LocalGraph
    );
    assert!(!outcome.results.is_empty());
    assert!(outcome.results.len() <= k);
    for r in &outcome.results {
        assert!(filter.matches(&index.store, r.id));
    }
    for w in outcome.results.windows(2) {
        assert!(f32::from_bits(w[0].dist) <= f32::from_bits(w[1].dist));
    }
}

#[test]
fn batch_search_reports_mid_exact_below_the_total_threshold() {
    let dim = 8;
    let n = 1000;
    let n_vals = 10;
    let mut store = PointStore::new(dim, 1).unwrap();
    for i in 0..n {
        let vec: Vec<f32> = (0..dim).map(|d| ((i * dim + d) as f32).sin()).collect();
        store.push(&bits(&vec), &[(i % n_vals) as u32]).unwrap();
    }
    let config = PrismConfig {
        m_local: 4,
        m_greedy: 4,
        m_random: 4,
        t: 1,
        beam_width: 20,
        sigma_high: 0.11f32.to_bits(),
        sigma_low: 0.001f32.to_bits(),
        scan_threshold: 100,
        ..Default::default()
    };
    let index = build(store, config).unwrap();

    let k = 3;
    let ef = 20;
    let nq = 3;
    let queries: Vec<f32> = (0..nq)
        .flat_map(|qi| (0..dim).map(move |d| ((qi * dim + d) as f32 * 0.5).sin()))
        .collect();
    let filters = vec![Filter::none(), Filter::eq(0, 0), Filter::eq(0, 5)];

    let results = batch_search(&index, &queries, &filters, nq, k, ef).unwrap();
    assert_eq!(results.len(), nq);
    assert_eq!(results[0].diagnostics.plan.regime, SearchRegime::High);
    assert_eq!(
        results[0].diagnostics.primary_execution,
        SearchExecution::GlobalGraph
    );
    assert!(results[1..]
        .iter()
        .all(|result| result.diagnostics.plan.regime == SearchRegime::Mid));
    assert!(results[1..]
        .iter()
        .all(|result| result.diagnostics.primary_execution == SearchExecution::ExactScan));
    for (qi, res) in results.iter().enumerate() {
        assert!(!res.results.is_empty(), "query {} returned no results", qi);
        assert!(res.results.len() <= k);
        for r in &res.results {
            assert!(filters[qi].matches(&index.store, r.id));
        }
    }
}

#[test]
fn mid_proper_multi_cell_scan_threshold_is_inclusive() {
    let mut store = PointStore::new(2, 1).unwrap();
    for attribute in 0..3u32 {
        for point in 0..4usize {
            store
                .push(
                    &bits(&[attribute as f32 * 10.0 + point as f32, point as f32]),
                    &[attribute],
                )
                .unwrap();
        }
    }
    let mut index = build(
        store,
        PrismConfig {
            m_local: 2,
            m_greedy: 1,
            m_random: 0,
            beam_width: 4,
            sigma_high: 0.80f32.to_bits(),
            sigma_low: 0.10f32.to_bits(),
            scan_threshold: 0,
            multi_cell_scan_threshold: 8,
            ..Default::default()
        },
    )
    .unwrap();
    let filter = Filter::new(vec![(0, vec![0, 1])]);
    let query = [5.0, 1.0];

    let scanned = search(&index, &query, &filter, 3, 4).unwrap();
    assert_eq!(scanned.diagnostics.plan.regime, SearchRegime::Mid);
    assert_eq!(scanned.diagnostics.plan.matching_cells, 2);
    assert_eq!(scanned.diagnostics.plan.matching_points, 8);
    assert_eq!(
        scanned.diagnostics.primary_execution,
        SearchExecution::ExactScan
    );
    let exact = search_exact(&index, &query, &filter, 3).unwrap();
    assert_eq!(
        scanned
            .results
            .iter()
            .map(|result| (result.id, result.dist))
            .collect::<Vec<_>>(),
        exact
            .iter()
            .map(|result| (result.id, result.dist))
            .collect::<Vec<_>>()
    );

    index.config.multi_cell_scan_threshold = 7;
    assert_eq!(
        search(&index, &query, &filter, 1, 4)
            .unwrap()
            .diagnostics
            .primary_execution,
        SearchExecution::GlobalGraph
    );
}

#[test]
fn inner_product_candidates_survive_l2_blind_spot() {
    let mut store = PointStore::new(2, 1).unwrap();
    for i in 0..59 {
        let j = (i as f32) * 0.001;
        store.push(&bits(&[0.5 + j, j]), &[0]).unwrap();
    }
    store.push(&bits(&[20.0, 0.0]), &[0]).unwrap();
    let config = PrismConfig {
        m_local: 4,
        m_greedy: 2,
        m_random: 4,
        t: 1,
        beam_width: 10,
        metric: Metric::InnerProduct,
        binary_rerank: 0,
        ..Default::default()
    };
    let index = build(store, config).unwrap();

    let results = search(&index, &[1.0, 0.0], &Filter::none(), 1, 8)
        .unwrap()
        .results;
    assert_eq!(results[0].id, 59, "true IP winner must reach the rerank");
    assert!((f32::from_bits(results[0].dist) - (-20.0)).abs() < 1e-3);
}

#[test]
fn inner_product_uses_exact_path_even_when_binary_prefilter_is_requested() {
    let mut store = PointStore::new(2, 1).unwrap();
    for _ in 0..99 {
        store.push(&bits(&[1.0, 0.0]), &[0]).unwrap();
    }
    store.push(&bits(&[10.0, 100.0]), &[0]).unwrap();
    let index = build(
        store,
        PrismConfig {
            metric: Metric::InnerProduct,
            binary_rerank: 4,
            ..Default::default()
        },
    )
    .unwrap();

    let results = search(&index, &[1.0, 0.0], &Filter::none(), 1, 1)
        .unwrap()
        .results;
    assert_eq!(index.original_id(results[0].id), Some(99));
    assert!((f32::from_bits(results[0].dist) + 10.0).abs() < 1e-6);
    assert_eq!(
        plan_filter(&index, &Filter::none()).unwrap().regime,
        SearchRegime::Exact
    );
    assert!(index.binary.is_empty());
}

#[test]
fn scale_aware_sq8_search_handles_anisotropic_dimensions() {
    let store =
        PointStore::from_parts(bits(&[100.0, 0.0, 0.0, 1.0, 1000.0, 0.0]), 2, vec![vec![0; 3]])
            .unwrap();
    let index = build(
        store,
        PrismConfig {
            binary_rerank: 0,
            scan_threshold: 0,
            ..Default::default()
        },
    )
    .unwrap();

    let results = search(&index, &[0.0, 0.0], &Filter::none(), 1, 1)
        .unwrap()
        .results;
    assert_eq!(index.original_id(results[0].id), Some(1));
    assert!((f32::from_bits(results[0].dist) - 1.0).abs() < 1e-6);
}

#[test]
fn search_promotes_small_ef_and_completes_small_cell() {
    let index = build_test_index();
    let filter = Filter::eq(0, 0);
    let results = search(&index, &[0.0, 0.0], &filter, 5, 0).unwrap().results;
    assert_eq!(results.len(), 5);
    assert!(results
        .iter()
        .all(|result| filter.matches(&index.store, result.id)));

    let exact = search_exact(&index, &[0.0, 0.0], &filter, 5).unwrap();
    assert_eq!(exact.len(), 5);
    assert_eq!(
        results.iter().map(|result| result.id).collect::<Vec<_>>(),
        exact.iter().map(|result| result.id).collect::<Vec<_>>()
    );
}

fn build_routing_fixture(metric: Metric) -> PrismIndex {
    let mut store = PointStore::new(3, 2).unwrap();
    for i in 0..1000usize {
        let x = i as f32 / 1000.0;
        store
            .push(
                &bits(&[x, x * x + 0.01, (i as f32 * 0.017).sin()]),
                &[(i % 100) as u32, ((i / 10) % 10) as u32],
            )
            .unwrap();
    }
    build(
        store,
        PrismConfig {
            metric,
            m_local: 4,
            m_greedy: 4,
            m_random: 0,
            t: 1,
            beam_width: 20,
            sigma_high: 0.10f32.to_bits(),
            sigma_low: 0.01f32.to_bits(),
            ..Default::default()
        },
    )
    .unwrap()
}

#[test]
fn plans_exact_cardinality_and_routes_threshold_boundaries() {
    let index = build_routing_fixture(Metric::L2);
    let cases = [
        (Filter::none(), 1000, SearchRegime::High),
        (
            Filter::new(vec![(0, (0..10).collect())]),
            100,
            SearchRegime::High,
        ),
        (
            Filter::new(vec![(0, (0..5).collect())]),
            50,
            SearchRegime::Mid,
        ),
        (Filter::eq(0, 0), 10, SearchRegime::Low),
        (Filter::eq(0, 999), 0, SearchRegime::Low),
    ];

    for (filter, expected_count, expected_regime) in cases {
        let brute_count = (0..index.store.len as u32)
            .filter(|&point| filter.matches(&index.store, point))
            .count();
        let plan = plan_filter(&index, &filter).unwrap();
        assert_eq!(plan.matching_points, brute_count);
        assert_eq!(plan.matching_points, expected_count);
        assert_eq!(plan.regime, expected_regime);
    }

    let mut no_mid = build_routing_fixture(Metric::L2);
    no_mid.config.sigma_low = 0.10f32.to_bits();
    no_mid.config.sigma_high = 0.10f32.to_bits();
    for filter in [
        Filter::none(),
        Filter::new(vec![(0, (0..5).collect())]),
        Filter::eq(0, 0),
    ] {
        assert_ne!(
            plan_filter(&no_mid, &filter).unwrap().regime,
            SearchRegime::Mid
        );
    }
}

#[test]
fn search_and_batch_preserve_predicates_and_counts_across_regimes() {
    let index = build_routing_fixture(Metric::L2);
    let filters = vec![
        Filter::none(),
        Filter::new(vec![(0, (0..20).collect())]),
        Filter::new(vec![(0, (0..5).collect()), (1, vec![0, 1, 2])]),
        Filter::eq(0, 0),
        Filter::eq(0, 999),
    ];
    let query = [0.2, 0.05, -0.3];
    let k = 7;

    for filter in &filters {
        let eligible = (0..index.store.len as u32)
            .filter(|&point| filter.matches(&index.store, point))
            .count();
        let results = search(&index, &query, filter, k, 0).unwrap().results;
        assert_eq!(results.len(), k.min(eligible));
        assert!(results
            .iter()
            .all(|result| filter.matches(&index.store, result.id)));
        let unique: HashSet<_> =
            results.iter().map(|result| result.id).collect();
        assert_eq!(unique.len(), results.len());
        assert!(results.windows(2).all(|pair| f32::from_bits(pair[0].dist) <= f32::from_bits(pair[1].dist)));
    }

    let queries: Vec<f32> = filters.iter().flat_map(|_| query).collect();
    let results = batch_search(&index, &queries, &filters, filters.len(), k, 0)
        .unwrap();
    for (filter, row) in filters.iter().zip(results.iter()) {
        let eligible = (0..index.store.len as u32)
            .filter(|&point| filter.matches(&index.store, point))
            .count();
        assert_eq!(row.results.len(), k.min(eligible));
        assert!(row
            .results
            .iter()
            .all(|result| filter.matches(&index.store, result.id)));
    }
}

#[test]
fn search_exact_matches_independent_bruteforce_for_every_metric() {
    for metric in [
        Metric::L2,
        Metric::Cosine,
        Metric::InnerProduct,
    ] {
        let index = build_routing_fixture(metric);
        let filter = Filter::new(vec![(0, vec![1, 7, 13, 42]), (1, vec![0, 3, 7])]);
        let query = [0.37, -0.2, 0.91];
        let k = 9;
        let actual = search_exact(&index, &query, &filter, k).unwrap();

        let exact_query = if metric == Metric::Cosine {
            normalized(&bits(&query))
        } else {
            bits(&query)
        };
        let mut expected: Vec<_> = (0..index.store.len as u32)
            .filter(|&point| filter.matches(&index.store, point))
            .map(|id| SearchResult {
                id,
                dist: distance(metric, &exact_query, index.store.vector_unchecked(id)).to_bits(),
            })
            .collect();
        expected.sort_by_key(|result| (ord_key(result.dist), result.id));
        expected.truncate(k);

        assert_eq!(
            actual.iter().map(|result| result.id).collect::<Vec<_>>(),
            expected.iter().map(|result| result.id).collect::<Vec<_>>()
        );
        for (found, reference) in actual.iter().zip(expected.iter()) {
            assert!((f32::from_bits(found.dist) - f32::from_bits(reference.dist)).abs() < 1e-6);
        }
    }
}

#[test]
fn optimized_exact_cosine_scan_matches_public_distance_bit_for_bit() {
    const DIM: usize = 16;
    let base: Vec<f32> = (0..DIM)
        .map(|i| (i as f32 * 0.19).sin() - 0.2 * (i as f32 * 0.07).cos())
        .collect();
    let mut near_one = base.clone();
    near_one[5] += 0.001;
    let mut near_two = base.clone();
    near_two[5] += f32::from_bits(0.001f32.to_bits() + 1);
    let extreme: Vec<f32> = (0..DIM)
        .map(|i| if i % 2 == 0 { 1.0e18 } else { -1.0e18 })
        .collect();

    let rows = vec![
        base.clone(),
        base.iter().map(|value| *value * 2.0).collect(),
        near_one,
        near_two,
        base.iter().map(|value| -*value).collect(),
        vec![0.0; DIM],
        extreme,
        (0..DIM).map(|i| (i as f32 * 0.31).cos()).collect(),
    ];
    let point_count = rows.len();
    let vectors: Vec<f32> = rows.into_iter().flatten().collect();
    let store = PointStore::from_parts(bits(&vectors), DIM, vec![vec![0; point_count]]).unwrap();
    let index = build(
        store,
        PrismConfig {
            metric: Metric::Cosine,
            ..Default::default()
        },
    )
    .unwrap();

    let query: Vec<f32> = base.iter().map(|value| *value * 1.0e18).collect();
    let all = search_exact(&index, &query, &Filter::none(), index.store.len)
        .unwrap();
    let selected = search_exact(&index, &query, &Filter::none(), point_count / 2)
        .unwrap();
    let normalized_query = normalized(&bits(&query));
    let mut expected: Vec<_> = (0..index.store.len as u32)
        .map(|id| SearchResult {
            id,
            dist: distance(Metric::Cosine, &normalized_query, index.store.vector_unchecked(id))
                .to_bits(),
        })
        .collect();
    expected.sort_by_key(|result| (ord_key(result.dist), result.id));

    assert_eq!(
        all.iter()
            .map(|result| (result.id, result.dist))
            .collect::<Vec<_>>(),
        expected
            .iter()
            .map(|result| (result.id, result.dist))
            .collect::<Vec<_>>()
    );
    assert_eq!(
        selected
            .iter()
            .map(|result| (result.id, result.dist))
            .collect::<Vec<_>>(),
        expected
            .iter()
            .take(point_count / 2)
            .map(|result| (result.id, result.dist))
            .collect::<Vec<_>>()
    );
}

#[test]
fn every_cosine_rerank_route_preserves_public_distance_bits() {
    const DIM: usize = 32;
    const POINTS: usize = 128;
    let base: Vec<f32> = (0..DIM)
        .map(|dimension| {
            (dimension as f32 * 0.071).sin() + 0.3 * (dimension as f32 * 0.113).cos()
        })
        .collect();
    let mut store = PointStore::new(DIM, 1).unwrap();
    for point in 0..POINTS {
        let mut row: Vec<f32> = (0..DIM)
            .map(|dimension| {
                ((point * 17 + dimension) as f32 * 0.013).sin()
                    + 0.25 * ((point + dimension * 7) as f32 * 0.021).cos()
            })
            .collect();
        if point == 0 {
            row.clone_from(&base);
        } else if point == 1 {
            row.clone_from(&base);
            row[17] += 0.001;
        } else if point == 2 {
            row.fill(0.0);
        }
        store.push(&bits(&row), &[(point % 2) as u32]).unwrap();
    }
    let index = build(
        store,
        PrismConfig {
            metric: Metric::Cosine,
            binary_rerank: 2,
            m_local: 8,
            m_greedy: 4,
            m_random: 4,
            beam_width: 16,
            scan_threshold: 0,
            multi_cell_scan_threshold: 0,
            ..Default::default()
        },
    )
    .unwrap();
    let query = normalized(&bits(&base));
    let norm = norm_squared(&query).sqrt().to_bits();
    let kernels = kernels();
    let assert_public_bits = |results: &[SearchResult]| {
        for result in results {
            assert_eq!(
                result.dist,
                distance(Metric::Cosine, &query, index.store.vector_unchecked(result.id)).to_bits(),
                "reranked distance for point {} changed",
                result.id
            );
        }
    };

    let exact_rerank = index.exact_rerank(
        &kernels.measure,
        &kernels.angle,
        &query,
        norm,
        &(0..POINTS as u32).collect(),
        12,
    );
    assert_public_bits(&exact_rerank);

    let all_cells: Vec<usize> = (0..index.tree.cells.len()).collect();
    let (binary, execution) = index
        .scan_eligible_population(
            &kernels.rotate,
            &kernels.estimate,
            &kernels.measure,
            &kernels.angle,
            &query,
            norm,
            &all_cells,
            8,
            8,
        )
        .unwrap();
    assert_eq!(execution, SearchExecution::BinaryPrefilterScan);
    assert_public_bits(&binary);

    let local = index.regime_local_graph(
        &kernels.estimate,
        &kernels.measure,
        &kernels.angle,
        &query,
        norm,
        &vec![0],
        8,
        16,
    );
    assert_public_bits(&local);

    let global = regime_mid(&index, &query, norm, &all_cells, 8, 32);
    assert_public_bits(&global);
}

#[test]
fn mid_traversal_can_use_a_nonmatching_bridge() {
    let store =
        PointStore::from_parts(bits(&[1.0, 2.0, 1.0]), 1, vec![vec![0, 0, 1], vec![0, 1, 0]])
            .unwrap();
    let mut index = build(
        store,
        PrismConfig {
            m_local: 1,
            m_greedy: 1,
            m_random: 0,
            beam_width: 4,
            sigma_high: 0.90f32.to_bits(),
            sigma_low: 0.10f32.to_bits(),
            beta: 0.0f32.to_bits(),
            scan_threshold: 0,
            multi_cell_scan_threshold: 0,
            ..Default::default()
        },
    )
    .unwrap();
    index.graph = Graph::from_adj(&[vec![2], vec![], vec![1]]).unwrap();
    let filter = Filter::eq(0, 0);
    let cells = index.tree.filter_cells(filter.constraints()).unwrap();
    assert_eq!(
        plan_filter(&index, &filter).unwrap().regime,
        SearchRegime::Mid
    );

    let without_bridge = regime_mid(&index, &bits(&[0.0]), 0, &cells, 2, 2);
    assert_eq!(without_bridge.len(), 1);

    let rescued = search(&index, &[0.0], &filter, 2, 2).unwrap();
    let exact = search_exact(&index, &[0.0], &filter, 2).unwrap();
    assert_eq!(
        rescued.diagnostics.primary_execution,
        SearchExecution::GlobalGraph
    );
    assert_eq!(rescued.diagnostics.primary_result_count, 1);
    assert!(rescued.diagnostics.used_exact_fallback);
    assert!(rescued.diagnostics.complete);
    assert_eq!(rescued.results.len(), 2);
    assert_eq!(
        rescued
            .results
            .iter()
            .map(|result| result.id)
            .collect::<Vec<_>>(),
        exact.iter().map(|result| result.id).collect::<Vec<_>>()
    );
    let batch = batch_search(&index, &[0.0], std::slice::from_ref(&filter), 1, 2, 2)
        .unwrap();
    assert_eq!(batch[0].results.len(), 2);
    assert!(batch[0].diagnostics.used_exact_fallback);
    assert_eq!(
        batch[0]
            .results
            .iter()
            .map(|result| result.id)
            .collect::<Vec<_>>(),
        exact.iter().map(|result| result.id).collect::<Vec<_>>()
    );

    index.config.beta = 1.0f32.to_bits();
    let with_bridge = regime_mid(&index, &bits(&[0.0]), 0, &cells, 2, 2);
    assert_eq!(with_bridge.len(), 2);
    assert!(with_bridge
        .iter()
        .all(|result| filter.matches(&index.store, result.id)));
}

#[test]
fn cosine_candidates_survive_unnormalized_inputs() {
    let mut store = PointStore::new(2, 1).unwrap();
    for i in 0..59 {
        let j = (i as f32) * 0.001;
        store.push(&bits(&[j, 1.0 + j]), &[0]).unwrap();
    }
    store.push(&bits(&[50.0, 1.0]), &[0]).unwrap();
    let config = PrismConfig {
        m_local: 4,
        m_greedy: 2,
        m_random: 4,
        t: 1,
        beam_width: 10,
        metric: Metric::Cosine,
        binary_rerank: 0,
        scan_threshold: 0,
        ..Default::default()
    };
    let index = build(store, config).unwrap();

    let results = search(&index, &[3.0, 0.0], &Filter::none(), 1, 8)
        .unwrap()
        .results;
    assert_eq!(results[0].id, 59, "best-angle point must reach the rerank");
    assert!(
        f32::from_bits(results[0].dist) < 0.01,
        "dist {} is not ~1-cos",
        f32::from_bits(results[0].dist)
    );
}

#[test]
fn cosine_index_keeps_subnormal_finite_vectors_and_queries_well_defined() {
    let smallest = f32::from_bits(1);
    let store = PointStore::from_parts(bits(&[smallest, 0.0, 0.0, smallest]), 2, vec![vec![0, 0]])
        .unwrap();
    let index = build(
        store,
        PrismConfig {
            metric: Metric::Cosine,
            m_greedy: 0,
            m_random: 0,
            scan_threshold: 0,
            ..Default::default()
        },
    )
    .unwrap();
    assert!(index.store.vectors.iter().all(|&value| f32::from_bits(value).is_finite()));

    let outcome = search(&index, &[smallest, 0.0], &Filter::none(), 1, 2)
        .unwrap();
    assert_eq!(index.original_id(outcome.results[0].id), Some(0));
    assert_eq!(f32::from_bits(outcome.results[0].dist), 0.0);
}

#[test]
fn multi_cell_binary_prefilter_uses_one_query_wide_budget() {
    let dim = 64;
    let n = 2500;
    let n_vals = 10;
    let mut store = PointStore::new(dim, 1).unwrap();
    for i in 0..n {
        let vec: Vec<f32> = (0..dim)
            .map(|d| ((i * dim + d) as f32 * 0.01).sin())
            .collect();
        store.push(&bits(&vec), &[(i % n_vals) as u32]).unwrap();
    }

    let config_binary = PrismConfig {
        m_local: 4,
        m_greedy: 2,
        m_random: 4,
        t: 1,
        beam_width: 10,
        binary_rerank: 4,
        ..Default::default()
    };
    let index_binary = build(store, config_binary).unwrap();

    let query: Vec<f32> = (0..dim).map(|d| (d as f32 * 0.3).sin()).collect();
    let filter = Filter::new(vec![(0, vec![0, 1, 2])]);
    let k = 10;
    let ef = 64;
    let per_cell = n / n_vals;
    let eligible = per_cell * 3;
    let binary_budget = index_binary.config.binary_rerank * ef;
    assert!(per_cell <= binary_budget);
    assert!(eligible > binary_budget);

    let outcome_binary = search(&index_binary, &query, &filter, k, ef).unwrap();
    assert_eq!(
        outcome_binary.diagnostics.primary_execution,
        SearchExecution::BinaryPrefilterScan
    );
    let results_binary = outcome_binary.results;
    assert_eq!(results_binary.len(), k);
    for r in &results_binary {
        assert!(filter.matches(&index_binary.store, r.id));
    }
    for w in results_binary.windows(2) {
        assert!(f32::from_bits(w[0].dist) <= f32::from_bits(w[1].dist));
    }
}

#[test]
fn test_binary_prefilter_batch() {
    let dim = 32;
    let n = 500;
    let n_vals = 5;
    let mut store = PointStore::new(dim, 1).unwrap();
    for i in 0..n {
        let vec: Vec<f32> = (0..dim)
            .map(|d| ((i * dim + d) as f32 * 0.02).sin())
            .collect();
        store.push(&bits(&vec), &[(i % n_vals) as u32]).unwrap();
    }

    let config = PrismConfig {
        m_local: 4,
        m_greedy: 2,
        m_random: 4,
        t: 1,
        beam_width: 10,
        binary_rerank: 4,
        ..Default::default()
    };
    let index = build(store, config).unwrap();

    let nq = 5;
    let k = 5;
    let ef = 20;
    let queries: Vec<f32> = (0..nq)
        .flat_map(|qi| (0..dim).map(move |d| ((qi * dim + d) as f32 * 0.1).sin()))
        .collect();
    let filters: Vec<Filter> = (0..nq)
        .map(|qi| {
            if qi == 0 {
                Filter::none()
            } else {
                Filter::eq(0, (qi % n_vals) as u32)
            }
        })
        .collect();

    let results = batch_search(&index, &queries, &filters, nq, k, ef).unwrap();
    assert_eq!(results.len(), nq);
    for (qi, res) in results.iter().enumerate() {
        assert!(!res.results.is_empty(), "query {} returned no results", qi);
        assert!(res.results.len() <= k);
        for r in &res.results {
            assert!(filters[qi].matches(&index.store, r.id));
        }
    }
}

#[test]
fn exact_search_is_the_brute_force_ranking() {
    let index = build_routing_fixture(Metric::L2);
    let filter = Filter::eq(1, 4);
    let query = [0.6, 0.1, -0.2];
    let found = search_exact(&index, &query, &filter, 1000).unwrap();
    let mut expected: Vec<(u32, u32)> = (0..1000u32)
        .filter(|&point| filter.matches(index.store(), point))
        .map(|point| {
            let row = index.store().vector_unchecked(point);
            (ord_key(distance(Metric::L2, &bits(&query), row).to_bits()), point)
        })
        .collect();
    expected.sort_unstable();
    assert_eq!(
        ids(&found),
        expected.iter().map(|&(_, point)| point).collect::<Vec<_>>()
    );
    let few = search_exact(&index, &query, &filter, 3).unwrap();
    assert_eq!(signature(&few), signature(&found)[..3]);
}

#[test]
fn one_query_and_a_batch_of_one_agree() {
    let index = build_routing_fixture(Metric::Cosine);
    let query = [0.3, 0.2, 0.1];
    for filter in [Filter::none(), Filter::eq(0, 7), Filter::new(vec![(0, (0..5).collect())])] {
        let single = search(&index, &query, &filter, 6, 24).unwrap();
        let batch = batch_search(&index, &query, std::slice::from_ref(&filter), 1, 6, 24).unwrap();
        assert_eq!(signature(&single.results), signature(&batch[0].results));
        assert_eq!(single.diagnostics, batch[0].diagnostics);
    }
}

#[test]
fn searches_refuse_shapes_that_do_not_fit() {
    let index = build_test_index();
    assert!(matches!(
        search(&index, &[0.5], &Filter::none(), 1, 1),
        Err(PrismError::InvalidInput(_))
    ));
    assert!(matches!(
        search(&index, &[0.5, 0.5], &Filter::eq(1, 0), 1, 1),
        Err(PrismError::InvalidInput(_))
    ));
    assert!(matches!(
        batch_search(&index, &[0.5, 0.5], &[], 1, 1, 1),
        Err(PrismError::InvalidInput(_))
    ));
    assert!(matches!(
        batch_search(&index, &[0.5], &[Filter::none()], 1, 1, 1),
        Err(PrismError::InvalidInput(_))
    ));
}

#[test]
fn answers_name_every_inserted_point_that_passes() {
    let n = 90usize;
    let mut vectors = Vec::new();
    let mut attrs = vec![Vec::new(), Vec::new()];
    for i in 0..n {
        vectors.push(((i * 31) % 47) as f32);
        vectors.push(((i * 17) % 29) as f32);
        attrs[0].push((i % 3) as u32);
        attrs[1].push((i / 3 % 4) as u32);
    }
    for scan_threshold in [0, 20_000] {
        let store = PointStore::from_parts(bits(&vectors), 2, attrs.clone()).unwrap();
        let config = PrismConfig {
            m_local: 4,
            beam_width: 16,
            scan_threshold,
            multi_cell_scan_threshold: 0,
            ..PrismConfig::default()
        };
        let index = build(store, config).unwrap();
        for filter in [
            Filter::none(),
            Filter::eq(0, 1),
            Filter::new(vec![(0, vec![0, 2]), (1, vec![3])]),
            Filter::eq(1, 9),
        ] {
            let outcome = search(&index, &[20.0, 10.0], &filter, n + 1, 8).unwrap();
            let kernels = kernels();
            let query = bits(&[20.0, 10.0]);
            let asked = index.ask(&kernels, &query, &filter).unwrap();
            let first = index.first_phase(&kernels, &query, &filter, &asked, n + 1, 8).unwrap();
            let stepwise = index.last_phase(&kernels, &query, &filter, &asked, n + 1, 8, first);
            assert_eq!(signature(&stepwise.results), signature(&outcome.results));
            assert_eq!(stepwise.diagnostics, outcome.diagnostics);
            let (mut found, distances) = told(&index, &outcome.results).unwrap();
            assert_eq!(distances.len(), outcome.results.len());
            assert!(outcome.results.iter().zip(&distances).all(|(r, &d)| r.dist == d));
            found.sort_unstable();
            let expected: Vec<u32> = (0..n as u32)
                .filter(|&p| {
                    filter.constraints().iter().all(|(attribute, values)| {
                        values.contains(&attrs[*attribute][p as usize])
                    })
                })
                .collect();
            assert_eq!(found, expected);
        }
        let stray = vec![SearchResult { id: n as u32, dist: 0 }];
        assert!(matches!(told(&index, &stray), Err(PrismError::InvalidInput(_))));
        for g in 0..n as u32 {
            let p = index.original_id(g).unwrap() as usize;
            assert_eq!(index.store().vector(g).unwrap(), bits(&vectors[2 * p..2 * p + 2]));
            assert_eq!(index.store().attr(g, 0), Some(attrs[0][p]));
            assert_eq!(index.store().attr(g, 1), Some(attrs[1][p]));
        }
    }
}

#[test]
fn nothing_is_added_or_built_again_after_a_build() {
    let config = PrismConfig::default();
    let mut staging = Staging::new(1, 1, &config).unwrap();
    staging.add(&bits(&[1.0, 2.0]), 2, 1, &[0, 1], 2, 1).unwrap();
    let (vectors, attrs) = staging.hand_over(&config).unwrap();
    let built = build(PointStore::from_parts(vectors, 1, attrs).unwrap(), config.clone());
    let index = staging.settle(built).unwrap();
    assert_eq!(index.store().len(), 2);
    assert!(staging.built);
    assert!(matches!(
        staging.add(&bits(&[3.0]), 1, 1, &[0], 1, 1),
        Err(PrismError::InvalidInput(_))
    ));
    assert_eq!(
        staging.hand_over(&config),
        Err(PrismError::InvalidInput("index already built".to_string()))
    );
}
