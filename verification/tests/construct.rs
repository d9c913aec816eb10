use prism_ann::assemble::build_greedy_cross_edges;
use prism_ann::binary::BinaryStore;
use prism_ann::config::{PrismConfig, MAX_CROSS_CELL_EXACT_RANKING_LIMIT};
use prism_ann::covering::{count_new_tuples, generate_t_subsets, select_cross_neighbors};
use prism_ann::cross::{bounded_cross_cell_pool_size, precompute_cross_cell_targets};
use prism_ann::crossing::Bridge;
use prism_ann::distance::{ord_key, Metric};
use prism_ann::error::{PrismError, PrismResult};
use prism_ann::filter::Filter;
use prism_ann::graph::{AdjBuilder, Graph};
use prism_ann::index::{CosineNormCache, PrismIndex};
use prism_ann::partition::{Cell, PartitionTree};
use prism_ann::point::PointStore;
use prism_ann::pure::Measure;
use prism_ann::quantize::SQ8Store;
use prism_ann::query::SearchKernels;
use prism_ann::search::{SearchExecution, SearchOutcome, SearchResult};
use prism_ann::vamana::{robust_prune, vamana_search_full};
use std::collections::HashSet;

fn bits(values: &[f32]) -> Vec<u32> {
    values.iter().map(|value| value.to_bits()).collect()
}

fn floats(patterns: &[u32]) -> Vec<f32> {
    patterns.iter().map(|&pattern| f32::from_bits(pattern)).collect()
}

fn dot(a: &[u32], b: &[u32]) -> f64 {
    let product = |i: usize| f64::from(f32::from_bits(a[i])) * f64::from(f32::from_bits(b[i]));
    let mut lanes = [0.0f64; 4];
    let whole = a.len() / 4 * 4;
    for start in (0..whole).step_by(4) {
        for lane in 0..4 {
            lanes[lane] += product(start + lane);
        }
    }
    let mut total = (lanes[0] + lanes[2]) + (lanes[1] + lanes[3]);
    for i in whole..a.len() {
        total += product(i);
    }
    total
}

fn norm_squared(row: &[u32]) -> f64 {
    dot(row, row)
}

fn cosine_with_norms(query: &[u32], row: &[u32], query_norm: f64, row_norm: f64) -> f32 {
    let denominator = query_norm * row_norm;
    if denominator == 0.0 {
        1.0
    } else {
        (1.0 - (dot(query, row) / denominator).clamp(-1.0, 1.0)) as f32
    }
}

fn distance(metric: Metric, a: &[u32], b: &[u32]) -> f32 {
    match metric {
        Metric::L2 => a
            .iter()
            .zip(b)
            .map(|(&x, &y)| {
                let delta = f32::from_bits(x) - f32::from_bits(y);
                delta * delta
            })
            .sum(),
        Metric::InnerProduct => {
            let product: f64 = a
                .iter()
                .zip(b)
                .map(|(&x, &y)| f64::from(f32::from_bits(x)) * f64::from(f32::from_bits(y)))
                .sum();
            -(product as f32)
        }
        Metric::Cosine => {
            cosine_with_norms(a, b, norm_squared(a).sqrt(), norm_squared(b).sqrt())
        }
    }
}

fn normalized(row: &[u32]) -> Vec<u32> {
    let norm = row
        .iter()
        .map(|&x| f64::from(f32::from_bits(x)) * f64::from(f32::from_bits(x)))
        .sum::<f64>()
        .sqrt();
    if norm > 0.0 {
        row.iter()
            .map(|&x| ((f64::from(f32::from_bits(x)) / norm) as f32).to_bits())
            .collect()
    } else {
        row.to_vec()
    }
}

fn mean(rows: &[u32], dim: usize) -> Vec<u32> {
    let mut sums = vec![0.0f64; dim];
    for row in rows.chunks(dim) {
        for (sum, &x) in sums.iter_mut().zip(row) {
            *sum += f64::from(f32::from_bits(x));
        }
    }
    let inverse = 1.0 / (rows.len() / dim) as f64;
    sums.iter().map(|sum| ((sum * inverse) as f32).to_bits()).collect()
}

fn covers(alpha: u32, power: u32, between: u32, away: u32) -> bool {
    let factor: f64 = (0..power).map(|_| f64::from(f32::from_bits(alpha))).product();
    factor * f64::from(f32::from_bits(between)) <= f64::from(f32::from_bits(away))
}

fn code_distance(a: &[u8], b: &[u8], scales: &[u32]) -> u32 {
    let total: f64 = a
        .iter()
        .zip(b)
        .zip(scales)
        .map(|((&x, &y), &scale)| {
            let delta = (f64::from(x) - f64::from(y)) * f64::from(f32::from_bits(scale));
            delta * delta
        })
        .sum();
    (total as f32).to_bits()
}

fn coded_distance(query: &[u32], code: &[u8], mins: &[u32], scales: &[u32]) -> u32 {
    let total: f32 = query
        .iter()
        .zip(code)
        .zip(mins.iter().zip(scales))
        .map(|((&q, &c), (&min, &scale))| {
            let restored = f32::from(c).mul_add(f32::from_bits(scale), f32::from_bits(min));
            let delta = f32::from_bits(q) - restored;
            delta * delta
        })
        .sum();
    total.to_bits()
}

fn worth(alpha: u32, count: usize, distance: u32) -> u32 {
    ((count as f32 + 0.001) / f32::from_bits(distance).powf(f32::from_bits(alpha))).to_bits()
}

fn step(low: u32, high: u32) -> u32 {
    let range = f64::from(f32::from_bits(high)) - f64::from(f32::from_bits(low));
    if range > 0.0 {
        ((range / 255.0) as f32).to_bits()
    } else {
        1.0f32.to_bits()
    }
}

fn encode(value: u32, min: u32, scale: u32) -> u8 {
    let value = (f64::from(f32::from_bits(value)) - f64::from(f32::from_bits(min)))
        / f64::from(f32::from_bits(scale));
    value.round().clamp(0.0, 255.0) as u8
}

fn rotate(row: &[u32], signs: &[u32], block: usize) -> Vec<bool> {
    let mut values: Vec<f64> = row
        .iter()
        .zip(signs)
        .map(|(&x, &sign)| f64::from(f32::from_bits(x)) * f64::from(f32::from_bits(sign)))
        .collect();
    for part in values.chunks_mut(block) {
        let mut half = 1;
        while half < block {
            for start in (0..block).step_by(2 * half) {
                for i in start..start + half {
                    let (a, b) = (part[i], part[i + half]);
                    part[i] = a + b;
                    part[i + half] = a - b;
                }
            }
            half *= 2;
        }
    }
    values.iter().map(|&value| value >= 0.0).collect()
}

fn build(store: PointStore, config: PrismConfig) -> PrismResult<PrismIndex> {
    PrismIndex::build(
        store,
        config,
        &normalized,
        &|metric: Metric, a: &[u32], b: &[u32]| distance(metric, a, b).to_bits(),
        &mean,
        &covers,
        &code_distance,
        &worth,
        &step,
        &encode,
        &rotate,
        &|row: &[u32]| norm_squared(row).to_bits(),
        &|square: u64| f64::from_bits(square).sqrt().to_bits(),
    )
}

fn kernels() -> SearchKernels<
    impl Fn(&[u32]) -> Vec<u32>,
    impl Fn(Metric, &[u32], &[u32]) -> u32,
    impl Fn(&[u32], &[u32], u64, u64) -> u32,
    impl Fn(&[u32]) -> u64,
    impl Fn(u64) -> u64,
    impl Fn(&[u32], &[u8], &[u32], &[u32]) -> u32,
    impl Fn(&[u32], &[u32], usize) -> Vec<bool>,
    impl Fn(usize, usize) -> u32,
    impl Fn(u32, u32, u32) -> bool,
    impl Fn(u32, usize) -> usize,
    impl Fn(Bridge) -> bool,
> {
    SearchKernels {
        normalize: normalized,
        measure: |metric: Metric, a: &[u32], b: &[u32]| distance(metric, a, b).to_bits(),
        angle: |query: &[u32], row: &[u32], query_norm: u64, row_norm: u64| {
            cosine_with_norms(query, row, f64::from_bits(query_norm), f64::from_bits(row_norm))
                .to_bits()
        },
        squared: |row: &[u32]| norm_squared(row).to_bits(),
        root: |square: u64| f64::from_bits(square).sqrt().to_bits(),
        estimate: coded_distance,
        rotate,
        ratio: |part: usize, whole: usize| (part as f32 / whole as f32).to_bits(),
        too_far: |epsilon: u32, distance: u32, worst: u32| {
            let slack = 1.0 + f32::from_bits(epsilon);
            f64::from(f32::from_bits(distance))
                > f64::from(f32::from_bits(worst)) * f64::from(slack * slack)
        },
        allowance: |beta: u32, width: usize| (f32::from_bits(beta) * width as f32) as usize,
        promises: |bridge: Bridge| {
            let sigma = bridge.eligible as f32 / bridge.population as f32;
            let fraction = bridge.matching as f32 / bridge.degree as f32;
            let radius = f32::from_bits(bridge.radius).max(f32::EPSILON);
            fraction / (1.0 + f32::from_bits(bridge.distance) / radius) > sigma / (1.0 + sigma)
        },
    }
}

fn search(
    index: &PrismIndex,
    query: &[f32],
    filter: &Filter,
    k: usize,
    ef: usize,
) -> PrismResult<SearchOutcome> {
    index.search(&kernels(), &bits(query), filter, k, ef)
}

fn search_exact(
    index: &PrismIndex,
    query: &[f32],
    filter: &Filter,
    k: usize,
) -> PrismResult<Vec<SearchResult>> {
    index.search_exact(&kernels(), &bits(query), filter, k)
}

fn signature(results: &[SearchResult]) -> Vec<(u32, u32)> {
    results.iter().map(|result| (result.id, result.dist)).collect()
}

fn ids(results: &[SearchResult]) -> Vec<u32> {
    results.iter().map(|result| result.id).collect()
}

struct Parts {
    store: PointStore,
    tree: PartitionTree,
    graph: Graph,
    medoids: Vec<u32>,
    global_medoid: u32,
    point_cell: Vec<u32>,
    original_ids: Vec<u32>,
    sq8: SQ8Store,
    binary: BinaryStore,
    config: PrismConfig,
}

fn parts_of(index: PrismIndex) -> Parts {
    let PrismIndex {
        store,
        tree,
        graph,
        medoids,
        global_medoid,
        point_cell,
        original_ids,
        sq8,
        binary,
        cosine_norms: _,
        config,
    } = index;
    Parts {
        store,
        tree,
        graph,
        medoids,
        global_medoid,
        point_cell,
        original_ids,
        sq8,
        binary,
        config,
    }
}

fn reassemble(parts: Parts) -> PrismResult<PrismIndex> {
    PrismIndex::from_parts(
        parts.store,
        parts.tree,
        parts.graph,
        parts.medoids,
        parts.global_medoid,
        parts.point_cell,
        parts.original_ids,
        parts.sq8,
        parts.binary,
        parts.config,
        &step,
        &encode,
        &rotate,
        &|row: &[u32]| norm_squared(row).to_bits(),
        &|square: u64| f64::from_bits(square).sqrt().to_bits(),
    )
}

fn restores(code: u8, min: u32, scale: u32, dim: usize) -> bool {
    let limit = (f64::from(f32::MAX) / (8.0 * dim as f64)).sqrt();
    let (min, scale) = (f32::from_bits(min), f32::from_bits(scale));
    let value = f64::from(min) + f64::from(code) * f64::from(scale);
    let searched = f64::from(f32::from(code).mul_add(scale, min));
    value.is_finite() && value.abs() <= limit && searched.is_finite() && searched.abs() <= limit
}

fn persisted_fixture(metric: Metric) -> PrismIndex {
    persisted_fixture_with_binary(metric, 0)
}

fn persisted_fixture_with_binary(metric: Metric, binary_rerank: usize) -> PrismIndex {
    let mut store = PointStore::new(6, 2).unwrap();
    for point in 0..96usize {
        let vector: Vec<f32> = (0..6)
            .map(|dimension| {
                let value = (point * 6 + dimension) as f32;
                (value * 0.031).sin() + (value * 0.017).cos()
            })
            .collect();
        store
            .push(&bits(&vector), &[(point % 3) as u32, ((point / 3) % 2) as u32])
            .unwrap();
    }
    build(
        store,
        PrismConfig {
            metric,
            binary_rerank,
            m_local: 6,
            m_greedy: 4,
            m_random: 4,
            beam_width: 20,
            scan_threshold: 0,
            ..Default::default()
        },
    )
    .unwrap()
}

fn assert_derived_cosine_norm_cache(index: &PrismIndex) {
    if index.config.metric != Metric::Cosine {
        assert_eq!(index.cosine_norms.len(), 0);
        return;
    }

    assert_eq!(index.cosine_norms.len(), index.store.len);
    for point in 0..index.store.len as u32 {
        assert_eq!(
            index.cosine_norms.get(point),
            norm_squared(index.store.vector_unchecked(point)).sqrt().to_bits(),
            "cached norm for internal point {point} must match its reordered row"
        );
    }
}

fn refuses_format(result: PrismResult<PrismIndex>, part: &str) -> bool {
    matches!(result, Err(PrismError::InvalidFormat(message)) if message.contains(part))
}

#[test]
fn cosine_norm_cache_uses_the_zeroizing_drop_path() {
    let mut cache = CosineNormCache {
        values: [0.0f64, 0.5, 1.0, 2.0].iter().map(|norm| norm.to_bits()).collect(),
    };
    cache.zeroize();
    assert_eq!(cache.values, vec![0.0f64.to_bits(); 4]);
}

#[test]
fn whole_index_below_scan_threshold_skips_graphs_and_roundtrips() {
    let mut store = PointStore::new(2, 2).unwrap();
    store.push(&bits(&[0.0, 0.0]), &[0, 0]).unwrap();
    store.push(&bits(&[1.0, 0.0]), &[0, 1]).unwrap();
    store.push(&bits(&[0.0, 1.0]), &[1, 0]).unwrap();
    store.push(&bits(&[1.0, 1.0]), &[1, 1]).unwrap();

    let config = PrismConfig {
        m_local: 2,
        m_greedy: 2,
        m_random: 4,
        t: 1,
        alpha: 0.0f32.to_bits(),
        beam_width: 10,
        ..Default::default()
    };

    let index = build(store, config).unwrap();
    assert_eq!(index.tree.cells.len(), 4);
    assert_eq!(index.medoids.len(), 4);
    assert_eq!(index.graph.num_edges(), 0);
    assert!(index.sq8.is_empty());
    assert_eq!(index.sq8.dim(), index.store.dim());
    assert_eq!(index.global_medoid, 0);
    assert!(index
        .tree
        .cells
        .iter()
        .zip(&index.medoids)
        .all(|(cell, &medoid)| medoid == cell.point_ids[0]));

    let query = [0.2, 0.1];
    let expected = search_exact(&index, &query, &Filter::none(), 3).unwrap();
    let outcome = search(&index, &query, &Filter::none(), 3, 8).unwrap();
    assert_eq!(outcome.diagnostics.primary_execution, SearchExecution::ExactScan);
    assert_eq!(signature(&outcome.results), signature(&expected));

    let rebuilt = reassemble(parts_of(index)).expect("scan-only persisted parts must reassemble");
    assert_eq!(rebuilt.graph.num_edges(), 0);
    assert!(rebuilt.sq8.is_empty());
    assert_eq!(
        search(&rebuilt, &query, &Filter::none(), 3, 8)
            .unwrap()
            .diagnostics
            .primary_execution,
        SearchExecution::ExactScan
    );
}

#[test]
fn scan_only_parts_reject_dead_sq8_accelerator_data() {
    let store =
        PointStore::from_parts(bits(&[0.0, 1.0, 2.0, 3.0]), 1, vec![vec![0, 0, 1, 1]]).unwrap();
    let index = build(store, PrismConfig::default()).unwrap();
    assert!(index.sq8.is_empty());
    let mut parts = parts_of(index);
    parts.sq8 = SQ8Store::build(&parts.store, &step, &encode);
    assert!(refuses_format(reassemble(parts), "0 point codes"));
}

#[test]
fn one_cell_above_threshold_builds_only_the_local_graph() {
    let mut store = PointStore::new(4, 1).unwrap();
    for point in 0..64usize {
        let vector: Vec<f32> = (0..4)
            .map(|dimension| ((point * 4 + dimension) as f32 * 0.17).sin())
            .collect();
        store.push(&bits(&vector), &[0]).unwrap();
    }
    let index = build(
        store,
        PrismConfig {
            m_local: 8,
            m_greedy: 4,
            m_random: 4,
            beam_width: 24,
            scan_threshold: 16,
            ..Default::default()
        },
    )
    .unwrap();

    assert_eq!(index.tree.cells.len(), 1);
    assert!(index.graph.num_edges() > 0);
    assert!((0..index.store.len as u32).all(|point| index
        .graph
        .neighbors_unchecked(point)
        .iter()
        .all(|&neighbor| index.point_cell[neighbor as usize] == 0)));
    assert!(!index.config.builds_global_graph(index.store.len, index.tree.cells.len()));
}

#[test]
fn vamana_pruning_receives_the_entire_greedy_search_visited_set() {
    let store =
        PointStore::from_parts(bits(&[0.0, 1.0, 2.0, 3.0]), 1, vec![vec![0; 4]]).unwrap();
    let graph = vec![vec![1], vec![2], vec![3], vec![]];

    let kernel = |metric: Metric, a: &[u32], b: &[u32]| distance(metric, a, b).to_bits();
    let measure = Measure { metric: Metric::L2, distance: &kernel };
    let visited = vamana_search_full(&store, 0, &measure, &graph, 0, 3, 2);

    assert_eq!(visited, vec![0, 1, 2, 3]);
    assert!(
        visited.len() > 2,
        "Vamana must not substitute the bounded final search list for V"
    );
}

#[test]
fn vamana_alpha_uses_euclidean_semantics_with_squared_l2() {
    let store =
        PointStore::from_parts(bits(&[0.0, 0.0, 1.0, 0.0, 1.0, 1.0]), 2, vec![vec![0; 3]]).unwrap();
    let kernel = |metric: Metric, a: &[u32], b: &[u32]| distance(metric, a, b).to_bits();
    let measure = Measure { metric: Metric::L2, distance: &kernel };
    let prune = |alpha: f32| {
        robust_prune(&store, 0, &measure, &covers, alpha.to_bits(), 0, &vec![1, 2], 2, 3)
    };

    assert_eq!(prune(1.0), vec![1]);
    assert_eq!(prune(1.5), vec![1, 2]);
}

#[test]
fn vamana_alpha_counts_twice_for_squared_distances_only() {
    let store =
        PointStore::from_parts(bits(&[0.0, 0.0, 1.0, 0.0, 1.0, 1.0]), 2, vec![vec![0; 3]]).unwrap();
    let kernel = |_: Metric, a: &[u32], b: &[u32]| distance(Metric::L2, a, b).to_bits();
    let prune = |metric: Metric| {
        let measure = Measure { metric, distance: &kernel };
        robust_prune(&store, 0, &measure, &covers, 1.5f32.to_bits(), 0, &vec![1, 2], 2, 3)
    };
    assert_eq!(prune(Metric::L2), vec![1, 2]);
    assert_eq!(prune(Metric::Cosine), vec![1, 2]);
    assert_eq!(prune(Metric::InnerProduct), vec![1]);
}

#[test]
fn alpha_trades_proximity_against_diversity() {
    let store =
        PointStore::from_parts(bits(&[0.0; 4]), 1, vec![vec![0, 1, 2, 1], vec![0, 1, 2, 2]]).unwrap();
    let subsets = vec![vec![0], vec![1]];
    let select = |alpha: f32, limit: usize, distances: [f32; 3]| {
        let config = PrismConfig {
            alpha: alpha.to_bits(),
            m_greedy: limit,
            ..PrismConfig::default()
        };
        let candidates: Vec<(u32, u32)> = (1..4).zip(distances.map(f32::to_bits)).collect();
        select_cross_neighbors(&store, &candidates, &config, &subsets, &worth)
    };
    assert_eq!(select(0.0, 2, [4.0, 2.0, 1.0]), vec![1, 2]);
    assert_eq!(select(-0.0, 2, [4.0, 2.0, 1.0]), vec![1, 2]);
    assert_eq!(select(1.0, 2, [4.0, 2.0, 1.0]), vec![3, 2]);
    assert_eq!(select(8.0, 2, [4.0, 2.0, 1.0]), vec![3, 2]);
    assert_eq!(select(1.0, 1, [0.0, 0.001, 4.0]), vec![2]);
    assert_eq!(select(1.0, 1, [0.0, 4.0, 4.0]), vec![1]);
}

#[test]
fn test_t_subsets() {
    let subs = generate_t_subsets(4, 2);
    assert_eq!(subs.len(), 6);
    let subs = generate_t_subsets(3, 1);
    assert_eq!(subs.len(), 3);
}

#[test]
fn covering_strength_is_clamped_to_the_attribute_count() {
    let mut store = PointStore::new(1, 1).unwrap();
    store.push(&bits(&[0.0]), &[0]).unwrap();
    store.push(&bits(&[1.0]), &[1]).unwrap();

    let index = build(
        store,
        PrismConfig {
            m_local: 1,
            m_greedy: 1,
            m_random: 0,
            t: usize::MAX,
            beam_width: 2,
            scan_threshold: 0,
            ..Default::default()
        },
    )
    .expect("effective covering strength must be min(t, attribute_count)");

    assert_eq!(index.config().t, usize::MAX);
    assert_eq!(index.tree().num_attributes(), 1);
}

#[test]
fn borrowed_build_preflight_rejects_deterministic_input_and_schema_failures() {
    let extreme_vectors = bits(&[f32::MAX, f32::MAX]);
    let one_attribute = vec![vec![0]];
    let error = PrismIndex::validate_build_input(
        &extreme_vectors,
        2,
        &one_attribute,
        &PrismConfig::default(),
    )
    .unwrap_err();
    assert!(matches!(
        error,
        PrismError::InvalidInput(message) if message.contains("absolute magnitude")
    ));
    assert_eq!(extreme_vectors, bits(&[f32::MAX, f32::MAX]));

    let vectors = bits(&[0.0, 1.0]);
    let attributes = vec![vec![0, 1]; 64];
    let error = PrismIndex::validate_build_input(
        &vectors,
        1,
        &attributes,
        &PrismConfig {
            m_greedy: 1,
            m_random: 0,
            t: 32,
            scan_threshold: 0,
            ..Default::default()
        },
    )
    .unwrap_err();
    assert!(matches!(
        error,
        PrismError::InvalidInput(message)
            if message.contains("more than 4096 subsets")
    ));
    assert_eq!(vectors, bits(&[0.0, 1.0]));
    assert!(attributes.iter().all(|attribute| attribute == &[0, 1]));
}

#[test]
fn excessive_covering_subset_count_is_rejected_before_materialization() {
    let mut store = PointStore::new(1, 64).unwrap();
    store.push(&bits(&[0.0]), &vec![0; 64]).unwrap();
    store.push(&bits(&[1.0]), &vec![1; 64]).unwrap();
    let error = build(
        store,
        PrismConfig {
            m_local: 1,
            m_greedy: 1,
            m_random: 0,
            t: 32,
            beam_width: 2,
            scan_threshold: 0,
            ..Default::default()
        },
    )
    .err()
    .expect("C(64, 32) must exceed the explicit covering-subset bound");
    assert!(matches!(
        error,
        PrismError::InvalidInput(message)
            if message.contains("more than 4096 subsets")
    ));
}

#[test]
fn tuple_keys_do_not_collide_for_wide_values_or_strength() {
    let store = PointStore::from_parts(
        bits(&[0.0, 1.0]),
        1,
        vec![
            vec![0, 0],
            vec![0, 256],
            vec![7, 8],
            vec![9, 10],
            vec![11, 12],
        ],
    )
    .unwrap();

    assert_eq!(count_new_tuples(&store, 1, &vec![0], &vec![vec![1]]), 1);
    assert_eq!(count_new_tuples(&store, 1, &vec![0], &vec![vec![0, 1, 2, 3, 4]]), 1);
    assert_eq!(count_new_tuples(&store, 1, &vec![0], &vec![vec![0]]), 0);
}

#[test]
fn equal_thresholds_skip_cross_cell_graph_phases() {
    let mut store = PointStore::new(3, 2).unwrap();
    for i in 0..100usize {
        store
            .push(
                &bits(&[i as f32, (i as f32 * 0.1).sin(), (i as f32 * 0.1).cos()]),
                &[(i % 5) as u32, ((i / 5) % 4) as u32],
            )
            .unwrap();
    }
    let index = build(
        store,
        PrismConfig {
            m_local: 4,
            m_greedy: 4,
            m_random: 4,
            t: 1,
            beam_width: 12,
            sigma_low: 0.01f32.to_bits(),
            sigma_high: 0.01f32.to_bits(),
            scan_threshold: 0,
            ..Default::default()
        },
    )
    .unwrap();

    for point in 0..index.store.len as u32 {
        assert!(index
            .graph
            .neighbors_unchecked(point)
            .iter()
            .all(|&neighbor| index.point_cell[neighbor as usize]
                == index.point_cell[point as usize]));
    }
}

#[test]
fn greedy_cross_edge_generator_exposes_multiple_attribute_cells() {
    let mut store = PointStore::new(3, 1).unwrap();
    for value in 0..5u32 {
        for i in 0..20usize {
            store
                .push(
                    &bits(&[
                        value as f32 * 10.0 + i as f32 * 0.01,
                        (i as f32 * 0.17).sin(),
                        (i as f32 * 0.11).cos(),
                    ]),
                    &[value],
                )
                .unwrap();
        }
    }

    let index = build(
        store,
        PrismConfig {
            m_local: 4,
            m_greedy: 4,
            m_random: 0,
            t: 1,
            alpha: 0.0f32.to_bits(),
            beam_width: 8,
            scan_threshold: 0,
            ..Default::default()
        },
    )
    .unwrap();

    let source = index.tree.cells[0].point_ids[0];
    let source_cell = index.point_cell[source as usize];
    let target_cells: HashSet<u32> = index
        .graph
        .neighbors_unchecked(source)
        .iter()
        .map(|&neighbor| index.point_cell[neighbor as usize])
        .filter(|&cell| cell != source_cell)
        .collect();

    assert_eq!(
        target_cells.len(),
        4,
        "the generated candidate pool must let t=1 select one neighbor from every foreign attribute cell"
    );
}

#[test]
fn cross_cell_targets_exactly_rank_foreign_medoids_once_per_source_cell() {
    let mut store = PointStore::new(3, 1).unwrap();
    for cell in 0..8u32 {
        for point in 0..2usize {
            store
                .push(
                    &bits(&[
                        cell as f32 * 7.0 + point as f32 * 0.1,
                        (cell as f32 * 0.31).sin(),
                        (point as f32 * 0.7).cos(),
                    ]),
                    &[cell],
                )
                .unwrap();
        }
    }
    let config = PrismConfig {
        m_local: 2,
        m_greedy: 4,
        m_random: 0,
        beam_width: 4,
        cross_cell_exact_ranking_limit: 8,
        scan_threshold: 0,
        ..Default::default()
    };
    let index = build(store, config.clone()).unwrap();
    let targets =
        precompute_cross_cell_targets(&index.medoids, &index.sq8, &code_distance, &config, 4)
            .unwrap();
    assert!(targets.iter().all(|cells| cells.len() == 4));

    for source_cell in 0..index.tree.cells.len() {
        let mut expected: Vec<(u32, u32)> = (0..index.tree.cells.len())
            .filter(|&target_cell| target_cell != source_cell)
            .map(|target_cell| {
                (
                    target_cell as u32,
                    ord_key(code_distance(
                        index.sq8.code_unchecked(index.medoids[source_cell]),
                        index.sq8.code_unchecked(index.medoids[target_cell]),
                        index.sq8.scales(),
                    )),
                )
            })
            .collect();
        expected.sort_unstable_by_key(|&(cell, dist)| (dist, cell));
        expected.truncate(4);
        assert_eq!(
            targets[source_cell],
            expected.iter().map(|&(cell, _)| cell).collect::<Vec<_>>()
        );
    }
}

#[test]
fn high_cardinality_cross_cell_targets_are_bounded_deterministic_and_diverse() {
    const CELLS: usize = 128;
    let mut store = PointStore::new(3, 1).unwrap();
    for cell in 0..CELLS {
        store
            .push(
                &bits(&[
                    cell as f32,
                    (cell as f32 * 0.17).sin(),
                    (cell as f32 * 0.11).cos(),
                ]),
                &[cell as u32],
            )
            .unwrap();
    }
    let config = PrismConfig {
        m_local: 1,
        m_greedy: 4,
        m_random: 0,
        t: 1,
        alpha: 0.0f32.to_bits(),
        beam_width: 8,
        cross_cell_exact_ranking_limit: 8,
        scan_threshold: 0,
        ..Default::default()
    };
    let index = build(store, config.clone()).unwrap();
    let first =
        precompute_cross_cell_targets(&index.medoids, &index.sq8, &code_distance, &config, 8)
            .unwrap();
    let second =
        precompute_cross_cell_targets(&index.medoids, &index.sq8, &code_distance, &config, 8)
            .unwrap();

    assert_eq!(first.len(), CELLS);
    assert!(first.iter().all(|targets| targets.len() == 4));
    assert_eq!(first, second);
    assert_eq!(bounded_cross_cell_pool_size(CELLS, 4, 8), 16);
    assert!(bounded_cross_cell_pool_size(CELLS, 4, 8) < CELLS - 1);
    for source_cell in 0..CELLS {
        let targets = &first[source_cell];
        assert!(targets.iter().all(|&target| target as usize != source_cell));
        assert_eq!(targets.iter().copied().collect::<HashSet<_>>().len(), 4);
    }

    let source_point = index.medoids[0];
    let foreign_cells: HashSet<u32> = index
        .graph
        .neighbors_unchecked(source_point)
        .iter()
        .map(|&neighbor| index.point_cell[neighbor as usize])
        .filter(|&cell| cell != 0)
        .collect();
    assert!(
        foreign_cells.len() >= 4,
        "bounded target sampling must still expose at least the greedy phase's four distinct foreign cells"
    );
}

fn seeded_fixture() -> PointStore {
    let mut store = PointStore::new(12, 2).unwrap();
    for point in 0..256usize {
        let vector: Vec<f32> = (0..12)
            .map(|dim| {
                let value = (point * 12 + dim) as f32;
                (value * 0.013).sin() + (value * 0.007).cos()
            })
            .collect();
        store
            .push(&bits(&vector), &[(point % 4) as u32, ((point / 4) % 4) as u32])
            .unwrap();
    }
    store
}

#[test]
fn construction_is_reproducible_for_a_fixed_seed() {
    let config = PrismConfig {
        m_local: 8,
        m_greedy: 4,
        m_random: 4,
        beam_width: 24,
        build_seed: 0x0123_4567_89ab_cdef,
        scan_threshold: 0,
        ..Default::default()
    };
    let single_thread = rayon::ThreadPoolBuilder::new().num_threads(1).build().unwrap();
    let four_threads = rayon::ThreadPoolBuilder::new().num_threads(4).build().unwrap();
    let first = single_thread.install(|| build(seeded_fixture(), config.clone())).unwrap();
    let second = four_threads.install(|| build(seeded_fixture(), config.clone())).unwrap();

    assert_eq!(first.original_ids, second.original_ids);
    assert_eq!(first.medoids, second.medoids);
    assert_eq!(first.global_medoid, second.global_medoid);
    assert_eq!(first.point_cell, second.point_cell);
    assert_eq!(first.store.vectors, second.store.vectors);
    assert_eq!(first.store.attrs, second.store.attrs);
    assert_eq!(first.graph.offsets(), second.graph.offsets());
    assert_eq!(first.graph.neighbor_ids(), second.graph.neighbor_ids());

    let mut different_config = config;
    different_config.build_seed ^= 0xa5a5_a5a5_a5a5_a5a5;
    let different = build(seeded_fixture(), different_config).unwrap();
    assert_ne!(
        first.graph.neighbor_ids(),
        different.graph.neighbor_ids(),
        "changing build_seed should select a different randomized graph"
    );
}

#[test]
fn graph_expansion_must_be_nonzero() {
    let config = PrismConfig {
        graph_expansion: 0,
        ..Default::default()
    };
    assert!(matches!(
        config.validate(),
        Err(PrismError::InvalidInput(message))
            if message == "graph_expansion must be greater than zero"
    ));
}

#[test]
fn cross_cell_exact_ranking_limit_has_a_hard_resource_bound() {
    for limit in [0, 4_096, MAX_CROSS_CELL_EXACT_RANKING_LIMIT] {
        PrismConfig {
            cross_cell_exact_ranking_limit: limit,
            ..Default::default()
        }
        .validate()
        .unwrap();
    }
    assert!(matches!(
        PrismConfig {
            cross_cell_exact_ranking_limit: MAX_CROSS_CELL_EXACT_RANKING_LIMIT + 1,
            ..Default::default()
        }
        .validate(),
        Err(PrismError::InvalidInput(message))
            if message.contains("cross_cell_exact_ranking_limit")
    ));
}

#[test]
fn vamana_alpha_must_follow_the_algorithm_domain() {
    for vamana_alpha in [0.0, 0.999, f32::NAN, f32::INFINITY] {
        let config = PrismConfig {
            vamana_alpha: vamana_alpha.to_bits(),
            ..Default::default()
        };
        assert!(matches!(
            config.validate(),
            Err(PrismError::InvalidInput(message))
                if message == "vamana_alpha must be finite and at least 1"
        ));
    }
    PrismConfig {
        vamana_alpha: 1.0f32.to_bits(),
        ..Default::default()
    }
    .validate()
    .unwrap();
}

fn pair_fixture() -> PointStore {
    let mut store = PointStore::new(1, 1).unwrap();
    store.push(&bits(&[0.0]), &[0]).unwrap();
    store.push(&bits(&[1.0]), &[1]).unwrap();
    store
}

#[test]
fn extreme_graph_parameters_return_errors_instead_of_panicking_or_looping() {
    for config in [
        PrismConfig {
            m_local: usize::MAX,
            ..Default::default()
        },
        PrismConfig {
            m_greedy: usize::MAX,
            ..Default::default()
        },
        PrismConfig {
            beam_width: usize::MAX,
            ..Default::default()
        },
        PrismConfig {
            m_random: usize::MAX - 1,
            ..Default::default()
        },
    ] {
        assert!(matches!(build(pair_fixture(), config), Err(PrismError::Overflow(_))));
    }
}

#[test]
fn large_representable_graph_parameters_are_bounded_by_the_population() {
    let mut store = PointStore::new(1, 1).unwrap();
    for point in 0..4u32 {
        store.push(&bits(&[point as f32]), &[point]).unwrap();
    }
    let index = build(
        store,
        PrismConfig {
            m_local: 1_000_000,
            m_greedy: 1_000_000,
            m_random: 1_000_000,
            beam_width: 1_000_000,
            t: 1,
            scan_threshold: 0,
            ..Default::default()
        },
    )
    .unwrap();
    assert_eq!(index.store.len(), 4);
    assert!(index.graph.num_edges() <= 12);
}

#[test]
fn persisted_index_parts_roundtrip_search_for_every_metric() {
    let query = [0.2, -0.1, 0.4, 0.3, -0.2, 0.7];
    let filter = Filter::eq(0, 1);
    for metric in [Metric::L2, Metric::Cosine, Metric::InnerProduct] {
        let original = persisted_fixture(metric);
        assert_derived_cosine_norm_cache(&original);
        let expected = search(&original, &query, &filter, 8, 32).unwrap();
        let rebuilt =
            reassemble(parts_of(original)).expect("valid persisted parts must reassemble");
        assert_derived_cosine_norm_cache(&rebuilt);
        let actual = search(&rebuilt, &query, &filter, 8, 32).unwrap();
        assert_eq!(
            signature(&expected.results),
            signature(&actual.results),
            "persisted {metric:?} index must preserve search results"
        );
        assert_eq!(expected.diagnostics.plan, actual.diagnostics.plan);
        assert_eq!(
            expected.diagnostics.used_exact_fallback,
            actual.diagnostics.used_exact_fallback
        );
    }
}

#[test]
fn cosine_norm_cache_rebuilds_from_parts_and_preserves_near_ties_bit_exactly() {
    const DIM: usize = 64;
    let base: Vec<f32> = (0..DIM)
        .map(|i| (i as f32 * 0.071).sin() + 0.3 * (i as f32 * 0.113).cos())
        .collect();
    let epsilon = 0.001f32;
    let mut near_one = base.clone();
    near_one[17] += epsilon;
    let mut near_two = base.clone();
    near_two[17] += f32::from_bits(epsilon.to_bits() + 1);
    let rows = vec![
        base.clone(),
        near_one,
        vec![0.0; DIM],
        base.iter().map(|value| -*value).collect(),
        near_two,
        base.iter().map(|value| *value * 2.0).collect(),
    ];
    let point_count = rows.len();
    let vectors: Vec<f32> = rows.into_iter().flatten().collect();
    let attrs = vec![vec![1, 0, 1, 0, 1, 0]];
    let store = PointStore::from_parts(bits(&vectors), DIM, attrs).unwrap();
    let mut index = build(
        store,
        PrismConfig {
            metric: Metric::Cosine,
            ..Default::default()
        },
    )
    .unwrap();
    assert_derived_cosine_norm_cache(&index);
    let zero_internal = index
        .original_ids
        .iter()
        .position(|&original| original == 2)
        .unwrap();
    assert_eq!(f64::from_bits(index.cosine_norms.get(zero_internal as u32)), 0.0);

    let query: Vec<f32> = base.iter().map(|value| *value * 1.0e12).collect();
    let normalized_query = normalized(&bits(&query));
    let mut public: Vec<(f32, u32)> = (0..point_count as u32)
        .map(|id| {
            (
                distance(
                    Metric::Cosine,
                    &normalized_query,
                    index.store.vector_unchecked(id),
                ),
                id,
            )
        })
        .collect();
    public.sort_by(|left, right| left.0.total_cmp(&right.0).then(left.1.cmp(&right.1)));
    public.truncate(point_count / 2);
    let public: Vec<(u32, u32)> = public.iter().map(|&(dist, id)| (id, dist.to_bits())).collect();
    assert_eq!(
        signature(&search_exact(&index, &query, &Filter::none(), point_count / 2).unwrap()),
        public
    );

    // The norms are no part of what is reassembled, so poisoning them shows
    // that fresh values are derived from the stored rows.
    index.cosine_norms.values.fill(123.0f64.to_bits());
    let rebuilt = reassemble(parts_of(index)).unwrap();
    assert_derived_cosine_norm_cache(&rebuilt);
    assert_eq!(
        signature(&search_exact(&rebuilt, &query, &Filter::none(), point_count / 2).unwrap()),
        public
    );
}

#[test]
fn persisted_index_rejects_non_permutation_original_ids() {
    let mut parts = parts_of(persisted_fixture(Metric::L2));
    parts.original_ids[1] = parts.original_ids[0];
    assert!(refuses_format(reassemble(parts), "original_ids"));
}

#[test]
fn persisted_local_only_index_rejects_cross_cell_edges() {
    let mut store = PointStore::new(2, 1).unwrap();
    for point in 0..8usize {
        store
            .push(
                &bits(&[point as f32, (point as f32 * 0.3).sin()]),
                &[(point / 4) as u32],
            )
            .unwrap();
    }
    let index = build(
        store,
        PrismConfig {
            m_local: 2,
            m_greedy: 0,
            m_random: 0,
            beam_width: 4,
            scan_threshold: 0,
            ..Default::default()
        },
    )
    .unwrap();
    let mut adjacency: Vec<Vec<u32>> = (0..index.graph.len() as u32)
        .map(|point| index.graph.neighbors_unchecked(point).to_vec())
        .collect();
    let left = index.tree.cells[0].point_ids[0];
    let right = index.tree.cells[1].point_ids[0];
    adjacency[left as usize].push(right);
    adjacency[left as usize].sort_unstable();
    adjacency[left as usize].dedup();

    let mut parts = parts_of(index);
    parts.graph = Graph::from_adj(&adjacency).unwrap();
    assert!(refuses_format(reassemble(parts), "crosses partition cells"));
}

#[test]
fn persisted_index_rejects_disconnected_global_graph() {
    let index = persisted_fixture(Metric::L2);
    assert!(index.config.uses_global_graph());
    let local_adjacency: Vec<Vec<u32>> = (0..index.graph.len() as u32)
        .map(|point| {
            let cell = index.point_cell[point as usize];
            index
                .graph
                .neighbors_unchecked(point)
                .iter()
                .copied()
                .filter(|&neighbor| index.point_cell[neighbor as usize] == cell)
                .collect()
        })
        .collect();
    let mut parts = parts_of(index);
    parts.graph = Graph::from_adj(&local_adjacency).unwrap();
    assert!(refuses_format(reassemble(parts), "reaches"));
}

#[test]
fn persisted_index_rejects_sq8_codes_from_another_point_order() {
    let index = persisted_fixture(Metric::L2);
    let mut codes = index.sq8.codes().to_vec();
    let dim = index.sq8.dim();
    let last = (index.sq8.len() - 1) * dim;
    assert_ne!(&codes[..dim], &codes[last..last + dim]);
    for dimension in 0..dim {
        codes.swap(dimension, last + dimension);
    }
    let invalid_sq8 = SQ8Store::from_parts(
        codes,
        index.sq8.mins().to_vec(),
        index.sq8.scales().to_vec(),
        dim,
        &restores,
    )
    .unwrap();
    let mut parts = parts_of(index);
    parts.sq8 = invalid_sq8;
    assert!(refuses_format(reassemble(parts), "SQ8 codes"));
}

#[test]
fn persisted_index_rejects_binary_transform_from_another_code_store() {
    let index = persisted_fixture_with_binary(Metric::L2, 2);
    let mut signs = index.binary.signs().to_vec();
    signs[0] = (-f32::from_bits(signs[0])).to_bits();
    let invalid_binary = BinaryStore::from_parts(
        index.binary.codes().to_vec(),
        index.binary.code_words(),
        signs,
        index.binary.block_size(),
    )
    .unwrap();
    let mut parts = parts_of(index);
    parts.binary = invalid_binary;
    assert!(refuses_format(reassemble(parts), "binary codes"));
}

#[test]
fn persisted_cosine_index_rejects_a_late_unnormalized_store_row() {
    let mut parts = parts_of(persisted_fixture(Metric::Cosine));
    let last_row_start = (parts.store.len - 1) * parts.store.dim;
    for value in &mut parts.store.vectors[last_row_start..] {
        *value = (f32::from_bits(*value) * 2.0).to_bits();
    }
    assert!(refuses_format(reassemble(parts), "unit-normalized"));
}

#[test]
fn points_are_laid_out_by_cell_and_keep_their_attributes() {
    let index = persisted_fixture(Metric::L2);
    let mut seen = vec![false; 96];
    for (internal, &original) in index.original_ids.iter().enumerate() {
        let value: Vec<f32> = (0..6)
            .map(|dimension| {
                let value = (original as usize * 6 + dimension) as f32;
                (value * 0.031).sin() + (value * 0.017).cos()
            })
            .collect();
        assert_eq!(floats(index.store.vector_unchecked(internal as u32)), value);
        assert_eq!(index.store.attr(internal as u32, 0), Some(original % 3));
        assert_eq!(index.store.attr(internal as u32, 1), Some(original / 3 % 2));
        assert!(!seen[original as usize]);
        seen[original as usize] = true;
    }
    for (cell, members) in index.tree.cells.iter().enumerate() {
        for &point in &members.point_ids {
            assert_eq!(index.point_cell[point as usize] as usize, cell);
        }
    }
}

#[test]
fn local_degrees_stay_within_their_bound() {
    let index = persisted_fixture(Metric::L2);
    for point in 0..index.store.len as u32 {
        let cell = index.point_cell[point as usize];
        let local = index
            .graph
            .neighbors_unchecked(point)
            .iter()
            .filter(|&&neighbor| index.point_cell[neighbor as usize] == cell)
            .count();
        assert!(local <= index.config.m_local + 2 + index.config.m_random);
    }
}

#[test]
fn cross_edges_by_inner_product_go_by_the_metric() {
    let store =
        PointStore::from_parts(bits(&[1.0, 1.0, 5.0, 2.0]), 1, vec![vec![0, 1, 1, 1]]).unwrap();
    let sq8 = SQ8Store::build(&store, &step, &encode);
    let cells = vec![
        Cell::from_parts(vec![0], vec![0]),
        Cell::from_parts(vec![1], vec![1, 2, 3]),
    ];
    let local = Graph::empty(4).unwrap();
    let kernel = |metric: Metric, a: &[u32], b: &[u32]| distance(metric, a, b).to_bits();
    let selected = |metric: Metric| {
        let config = PrismConfig {
            metric,
            m_local: 1,
            m_greedy: 1,
            beam_width: 1,
            ..PrismConfig::default()
        };
        let mut adj = AdjBuilder::new(4).unwrap();
        build_greedy_cross_edges(
            &store,
            &Measure { metric, distance: &kernel },
            &sq8,
            &code_distance,
            &worth,
            &local,
            &cells,
            &vec![0, 1],
            &config,
            &vec![0, 1, 1, 1],
            &mut adj,
        )
        .unwrap();
        adj.neighbors(0).unwrap().to_vec()
    };
    assert_eq!(selected(Metric::L2), vec![1]);
    assert_eq!(selected(Metric::InnerProduct), vec![2]);
}
