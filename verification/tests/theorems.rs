use prism_ann::assemble::build_random_overlay_seeded;
use prism_ann::config::PrismConfig;
use prism_ann::covering::{count_new_tuples, generate_t_subsets, select_cross_neighbors};
use prism_ann::distance::Metric;
use prism_ann::error::PrismResult;
use prism_ann::filter::Filter;
use prism_ann::graph::{AdjBuilder, Graph};
use prism_ann::index::PrismIndex;
use prism_ann::point::PointStore;
use rand::rngs::StdRng;
use rand::seq::SliceRandom;
use rand::{Rng, SeedableRng};
use std::collections::{HashSet, VecDeque};

fn bits(values: &[f32]) -> Vec<u32> {
    values.iter().map(|value| value.to_bits()).collect()
}

fn dot(a: &[u32], b: &[u32]) -> f64 {
    let product = |i: usize| f64::from(f32::from_bits(a[i])) * f64::from(f32::from_bits(b[i]));
    let mut lanes = [0.0f64; 4];
    let whole = a.len() / 4 * 4;
    for start in (0..whole).step_by(4) {
        for lane in 0..4 {
            lanes[lane] += product(start + lane);
        }
    }
    let mut total = (lanes[0] + lanes[2]) + (lanes[1] + lanes[3]);
    for i in whole..a.len() {
        total += product(i);
    }
    total
}

fn norm_squared(row: &[u32]) -> f64 {
    dot(row, row)
}

fn cosine_with_norms(query: &[u32], row: &[u32], query_norm: f64, row_norm: f64) -> f32 {
    let denominator = query_norm * row_norm;
    if denominator == 0.0 {
        1.0
    } else {
        (1.0 - (dot(query, row) / denominator).clamp(-1.0, 1.0)) as f32
    }
}

fn distance(metric: Metric, a: &[u32], b: &[u32]) -> f32 {
    match metric {
        Metric::L2 => a
            .iter()
            .zip(b)
            .map(|(&x, &y)| {
                let delta = f32::from_bits(x) - f32::from_bits(y);
                delta * delta
            })
            .sum(),
        Metric::InnerProduct => {
            let product: f64 = a
                .iter()
                .zip(b)
                .map(|(&x, &y)| f64::from(f32::from_bits(x)) * f64::from(f32::from_bits(y)))
                .sum();
            -(product as f32)
        }
        Metric::Cosine => {
            cosine_with_norms(a, b, norm_squared(a).sqrt(), norm_squared(b).sqrt())
        }
    }
}

fn normalized(row: &[u32]) -> Vec<u32> {
    let norm = row
        .iter()
        .map(|&x| f64::from(f32::from_bits(x)) * f64::from(f32::from_bits(x)))
        .sum::<f64>()
        .sqrt();
    if norm > 0.0 {
        row.iter()
            .map(|&x| ((f64::from(f32::from_bits(x)) / norm) as f32).to_bits())
            .collect()
    } else {
        row.to_vec()
    }
}

fn mean(rows: &[u32], dim: usize) -> Vec<u32> {
    let mut sums = vec![0.0f64; dim];
    for row in rows.chunks(dim) {
        for (sum, &x) in sums.iter_mut().zip(row) {
            *sum += f64::from(f32::from_bits(x));
        }
    }
    let inverse = 1.0 / (rows.len() / dim) as f64;
    sums.iter().map(|sum| ((sum * inverse) as f32).to_bits()).collect()
}

fn covers(alpha: u32, power: u32, between: u32, away: u32) -> bool {
    let factor: f64 = (0..power).map(|_| f64::from(f32::from_bits(alpha))).product();
    factor * f64::from(f32::from_bits(between)) <= f64::from(f32::from_bits(away))
}

fn code_distance(a: &[u8], b: &[u8], scales: &[u32]) -> u32 {
    let total: f64 = a
        .iter()
        .zip(b)
        .zip(scales)
        .map(|((&x, &y), &scale)| {
            let delta = (f64::from(x) - f64::from(y)) * f64::from(f32::from_bits(scale));
            delta * delta
        })
        .sum();
    (total as f32).to_bits()
}

fn worth(alpha: u32, count: usize, distance: u32) -> u32 {
    ((count as f32 + 0.001) / f32::from_bits(distance).powf(f32::from_bits(alpha))).to_bits()
}

fn step(low: u32, high: u32) -> u32 {
    let range = f64::from(f32::from_bits(high)) - f64::from(f32::from_bits(low));
    if range > 0.0 {
        ((range / 255.0) as f32).to_bits()
    } else {
        1.0f32.to_bits()
    }
}

fn encode(value: u32, min: u32, scale: u32) -> u8 {
    let value = (f64::from(f32::from_bits(value)) - f64::from(f32::from_bits(min)))
        / f64::from(f32::from_bits(scale));
    value.round().clamp(0.0, 255.0) as u8
}

fn rotate(row: &[u32], signs: &[u32], block: usize) -> Vec<bool> {
    let mut values: Vec<f64> = row
        .iter()
        .zip(signs)
        .map(|(&x, &sign)| f64::from(f32::from_bits(x)) * f64::from(f32::from_bits(sign)))
        .collect();
    for part in values.chunks_mut(block) {
        let mut half = 1;
        while half < block {
            for start in (0..block).step_by(2 * half) {
                for i in start..start + half {
                    let (a, b) = (part[i], part[i + half]);
                    part[i] = a + b;
                    part[i + half] = a - b;
                }
            }
            half *= 2;
        }
    }
    values.iter().map(|&value| value >= 0.0).collect()
}

fn build(store: PointStore, config: PrismConfig) -> PrismResult<PrismIndex> {
    PrismIndex::build(
        store,
        config,
        &normalized,
        &|metric: Metric, a: &[u32], b: &[u32]| distance(metric, a, b).to_bits(),
        &mean,
        &covers,
        &code_distance,
        &worth,
        &step,
        &encode,
        &rotate,
        &|row: &[u32]| norm_squared(row).to_bits(),
        &|square: u64| f64::from_bits(square).sqrt().to_bits(),
    )
}

/// Connected components within a subset, their sizes in descending order.
fn connected_components(adj: &[Vec<u32>], subset: &HashSet<u32>) -> Vec<usize> {
    let mut visited = HashSet::new();
    let mut sizes = Vec::new();

    for &start in subset {
        if visited.contains(&start) {
            continue;
        }
        let mut queue = VecDeque::new();
        queue.push_back(start);
        visited.insert(start);
        let mut size = 0;
        while let Some(u) = queue.pop_front() {
            size += 1;
            for &v in &adj[u as usize] {
                if subset.contains(&v) && visited.insert(v) {
                    queue.push_back(v);
                }
            }
        }
        sizes.push(size);
    }

    sizes.sort_unstable_by(|a, b| b.cmp(a));
    sizes
}

/// Number of distinct tuples that a set of points covers.
fn coverage_ft(store: &PointStore, selected: &[u32], subsets: &Vec<Vec<usize>>) -> usize {
    let mut chosen: Vec<u32> = Vec::new();
    let mut covered = 0;
    for &q in selected {
        covered += count_new_tuples(store, q, &chosen, subsets);
        chosen.push(q);
    }
    covered
}

/// The largest coverage of any `budget` candidates.
fn optimal_coverage(
    store: &PointStore,
    cands: &[u32],
    budget: usize,
    subsets: &[Vec<usize>],
) -> usize {
    let tuples: Vec<Vec<(usize, Vec<u32>)>> = cands
        .iter()
        .map(|&q| {
            subsets
                .iter()
                .enumerate()
                .map(|(s, subset)| {
                    (s, subset.iter().map(|&j| store.attr(q, j).unwrap()).collect())
                })
                .collect()
        })
        .collect();
    let mut codes: Vec<(usize, Vec<u32>)> = tuples.iter().flatten().cloned().collect();
    codes.sort();
    codes.dedup();
    let masks: Vec<u64> = tuples
        .iter()
        .map(|row| {
            row.iter()
                .map(|tuple| 1u64 << codes.binary_search(tuple).unwrap())
                .fold(0, |mask, bit| mask | bit)
        })
        .collect();
    let mut best = 0;
    enumerate_subsets(&masks, budget, 0, 0, &mut best);
    best as usize
}

fn enumerate_subsets(masks: &[u64], left: usize, start: usize, covered: u64, best: &mut u32) {
    if left == 0 {
        *best = (*best).max(covered.count_ones());
        return;
    }
    for i in start..=(masks.len() - left) {
        enumerate_subsets(masks, left - 1, i + 1, covered | masks[i], best);
    }
}

fn graph_to_adj(graph: &Graph) -> Vec<Vec<u32>> {
    (0..graph.n)
        .map(|i| graph.neighbors(i as u32).unwrap().to_vec())
        .collect()
}

/// Points with grid-strided attributes and random vectors.
/// Attribute j cycles with stride = product of cardinalities[0..j].
fn make_test_store(n: usize, dim: usize, cardinalities: &[usize], rng: &mut StdRng) -> PointStore {
    let vectors: Vec<f32> = (0..n * dim).map(|_| rng.gen::<f32>()).collect();
    let attrs: Vec<Vec<u32>> = cardinalities
        .iter()
        .enumerate()
        .map(|(j, &c)| {
            let stride: usize = cardinalities[..j].iter().product::<usize>().max(1);
            (0..n).map(|i| ((i / stride) % c) as u32).collect()
        })
        .collect();
    PointStore::from_parts(bits(&vectors), dim, attrs).unwrap()
}

fn ranked_candidates(store: &PointStore, p: u32, others: &[u32]) -> Vec<(u32, u32)> {
    let p_vec = store.vector(p).unwrap();
    let mut candidates: Vec<(u32, u32)> = others
        .iter()
        .filter(|&&q| q != p)
        .map(|&q| (q, distance(Metric::L2, p_vec, store.vector(q).unwrap()).to_bits()))
        .collect();
    candidates.sort_by(|a, b| f32::from_bits(a.1).total_cmp(&f32::from_bits(b.1)));
    candidates
}

fn select(
    store: &PointStore,
    candidates: &Vec<(u32, u32)>,
    limit: usize,
    subsets: &Vec<Vec<usize>>,
) -> Vec<u32> {
    let config = PrismConfig {
        m_greedy: limit,
        alpha: 0.0f32.to_bits(),
        ..PrismConfig::default()
    };
    select_cross_neighbors(store, candidates, &config, subsets, &worth)
}

#[test]
fn theorem_6_3_filter_resilience() {
    let n = 500;
    let dim = 8;
    let mut rng = StdRng::seed_from_u64(63);
    let store = make_test_store(n, dim, &[5, 5, 5], &mut rng);
    let config = PrismConfig {
        m_local: 16,
        m_greedy: 12,
        m_random: 4,
        t: 2,
        alpha: 1.0f32.to_bits(),
        beam_width: 120,
        scan_threshold: 0,
        ..Default::default()
    };
    let index = build(store, config).unwrap();
    let adj = graph_to_adj(&index.graph);

    for val in 0..5u32 {
        let filter = Filter::eq(0, val);
        let filtered_pts: HashSet<u32> = (0..n as u32)
            .filter(|&p| filter.matches(&index.store, p))
            .collect();
        let n_f = filtered_pts.len();
        let components = connected_components(&adj, &filtered_pts);
        let largest = *components.first().unwrap_or(&0);
        assert!(
            largest as f64 >= 0.5 * n_f as f64,
            "val={val}: largest={largest}, filtered={n_f} (need >50%)"
        );
    }
}

#[test]
fn theorem_6_6_case1_single_attr_survival() {
    let n = 200;
    let dim = 8;
    let mut rng = StdRng::seed_from_u64(661);
    let store = make_test_store(n, dim, &[5, 5, 5], &mut rng);
    let all: Vec<u32> = (0..n as u32).collect();
    let k = 3;
    let m_g = 12;

    let subsets_t1 = generate_t_subsets(k, 1);
    for _ in 0..50 {
        let p = rng.gen_range(0..n as u32);
        let candidates = ranked_candidates(&store, p, &all);
        let selected = select(&store, &candidates, m_g, &subsets_t1);
        assert_eq!(selected.len(), m_g);

        for j in 0..k {
            for v in 0..5u32 {
                let survivors =
                    selected.iter().filter(|&&q| store.attr(q, j) == Some(v)).count();
                assert!(survivors >= 1, "p={p}, attr={j}, val={v}: 0 survivors with t=1");
            }
        }
    }

    let subsets_t2 = generate_t_subsets(k, 2);
    let mut found_violation = false;
    for trial in 0..200 {
        let p = (trial % n) as u32;
        let candidates = ranked_candidates(&store, p, &all);
        let selected = select(&store, &candidates, m_g, &subsets_t2);
        for j in 0..k {
            for v in 0..5u32 {
                let count = selected.iter().filter(|&&q| store.attr(q, j) == Some(v)).count();
                if count < 2 {
                    found_violation = true;
                }
            }
        }
        if found_violation {
            break;
        }
    }
    assert!(
        found_violation,
        "Expected to find a case where t=2 gives < floor(M_g/s_j)=2 survivors"
    );
}

#[test]
fn theorem_6_6_case2_covering_array() {
    let n = 300;
    let dim = 8;
    let mut rng = StdRng::seed_from_u64(662);
    let store = make_test_store(n, dim, &[3, 3, 3], &mut rng);
    let all: Vec<u32> = (0..n as u32).collect();
    let k = 3;
    let t = 2;
    let m_g = 12;
    let subsets = generate_t_subsets(k, t);

    let mut all_filters = Vec::new();
    for j1 in 0..k {
        for j2 in (j1 + 1)..k {
            for v1 in 0..3u32 {
                for v2 in 0..3u32 {
                    all_filters.push(Filter::new(vec![(j1, vec![v1]), (j2, vec![v2])]));
                }
            }
        }
    }

    for _ in 0..50 {
        let p = rng.gen_range(0..n as u32);
        let candidates = ranked_candidates(&store, p, &all);
        let selected = select(&store, &candidates, m_g, &subsets);

        for f in &all_filters {
            let survivors = selected.iter().filter(|&&q| f.matches(&store, q)).count();
            assert!(
                survivors >= 1,
                "p={p}: filter {:?} has 0 survivors among {selected:?}",
                f.constraints()
            );
        }
    }
}

#[test]
fn theorem_4_1_coverage_guarantee() {
    let n = 50;
    let dim = 4;
    let mut rng = StdRng::seed_from_u64(41);
    let store = make_test_store(n, dim, &[3, 3, 3], &mut rng);
    let k = 3;
    let t = 2;
    let m_g = 6;
    let subsets = generate_t_subsets(k, t);
    let ratio_bound = 1.0 - 1.0 / std::f64::consts::E;

    for _ in 0..20 {
        let p = rng.gen_range(0..n as u32);
        let mut cand_ids: Vec<u32> = (0..n as u32).filter(|&q| q != p).collect();
        cand_ids.shuffle(&mut rng);
        cand_ids.truncate(20);

        let candidates = ranked_candidates(&store, p, &cand_ids);
        let selected = select(&store, &candidates, m_g, &subsets);
        let greedy_cov = coverage_ft(&store, &selected, &subsets);
        let opt_cov = optimal_coverage(&store, &cand_ids, m_g, &subsets);

        if opt_cov > 0 {
            let ratio = greedy_cov as f64 / opt_cov as f64;
            assert!(
                ratio >= ratio_bound - 0.01,
                "greedy={greedy_cov}, optimal={opt_cov}, ratio={ratio:.3}"
            );
        }
    }
}

#[test]
fn lemma_3_6_submodularity() {
    let n = 30;
    let dim = 4;
    let mut rng = StdRng::seed_from_u64(36);
    let store = make_test_store(n, dim, &[3, 4, 3], &mut rng);
    let k = 3;
    let t = 2;
    let subsets = generate_t_subsets(k, t);
    let all_ids: Vec<u32> = (0..n as u32).collect();

    for trial in 0..100 {
        let b_size = rng.gen_range(2..n.min(10));
        let a_size = rng.gen_range(1..b_size);
        let mut perm = all_ids.clone();
        perm.shuffle(&mut rng);
        let b: Vec<u32> = perm[..b_size].to_vec();
        let a: Vec<u32> = b[..a_size].to_vec();
        let q = perm[b_size];

        let f_a = coverage_ft(&store, &a, &subsets);
        let f_b = coverage_ft(&store, &b, &subsets);

        let mut a_q = a.clone();
        a_q.push(q);
        let mut b_q = b.clone();
        b_q.push(q);

        let f_a_q = coverage_ft(&store, &a_q, &subsets);
        let f_b_q = coverage_ft(&store, &b_q, &subsets);

        assert!(f_a_q >= f_a, "trial {trial}: monotonicity failed");

        let gain_a = f_a_q - f_a;
        let gain_b = f_b_q - f_b;
        assert!(
            gain_a >= gain_b,
            "trial {trial}: submodularity failed (gain_a={gain_a}, gain_b={gain_b})"
        );
    }
}

#[test]
fn graph_structure_invariants() {
    let n = 200;
    let dim = 8;
    let mut rng = StdRng::seed_from_u64(200);
    let store = make_test_store(n, dim, &[4, 4, 4], &mut rng);
    let config = PrismConfig {
        m_local: 16,
        m_greedy: 12,
        m_random: 4,
        t: 2,
        alpha: 1.0f32.to_bits(),
        beam_width: 120,
        scan_threshold: 0,
        ..Default::default()
    };
    let index = build(store, config).unwrap();

    for i in 0..n as u32 {
        let neighbors = index.graph.neighbors(i).unwrap();
        assert!(!neighbors.contains(&i), "self-loop at node {i}");
        for &j in neighbors {
            assert!(j < n as u32, "invalid neighbor {j} for node {i}");
        }
        for w in neighbors.windows(2) {
            assert!(w[0] < w[1], "neighbors not sorted/deduped at {i}");
        }
        let degree = index.graph.degree(i).unwrap();
        assert!(degree >= 2, "degree too low at {i}: {degree}");
    }

    let avg_deg = index.graph.num_edges() as f64 / n as f64;
    assert!(avg_deg >= 10.0, "avg degree {avg_deg:.1} too low");
    assert!(avg_deg <= 100.0, "avg degree {avg_deg:.1} too high");
}

#[test]
fn random_overlay_regularity() {
    let n = 500;
    let d = 8;
    let mut adj = AdjBuilder::new(n).unwrap();
    build_random_overlay_seeded(n, d, 17, &mut adj);
    let graph = adj.build().unwrap();

    for i in 0..n as u32 {
        let deg = graph.degree(i).unwrap();
        assert!(
            deg >= d - 3 && deg <= d + 3,
            "node {i}: degree {deg}, expected ~{d}"
        );
        assert!(!graph.neighbors(i).unwrap().contains(&i), "self-loop at {i}");
    }
}

#[test]
fn proposition_3_2_filter_pruning() {
    let n = 200;
    let dim = 4;
    let mut rng = StdRng::seed_from_u64(32);
    let store = make_test_store(n, dim, &[4, 3, 5], &mut rng);
    let config = PrismConfig {
        m_local: 8,
        m_greedy: 6,
        m_random: 4,
        t: 1,
        alpha: 0.0f32.to_bits(),
        beam_width: 30,
        ..Default::default()
    };
    let index = build(store, config).unwrap();

    let filters = vec![
        Filter::eq(0, 2),
        Filter::eq(1, 0),
        Filter::eq(2, 4),
        Filter::new(vec![(0, vec![0]), (1, vec![1])]),
    ];

    for filter in &filters {
        let cell_indices = index.tree.filter_cells(filter.constraints()).unwrap();
        let cell_points: HashSet<u32> = cell_indices
            .iter()
            .flat_map(|&ci| index.tree.cells[ci].point_ids.iter().copied())
            .collect();

        for &p in &cell_points {
            assert!(
                filter.matches(&index.store, p),
                "false positive: point {p} in cells but fails filter"
            );
        }

        for p in 0..n as u32 {
            if filter.matches(&index.store, p) {
                assert!(
                    cell_points.contains(&p),
                    "false negative: point {p} passes filter but not in cells"
                );
            }
        }
    }
}
