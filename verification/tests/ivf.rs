use prism_ann::error::PrismError;
use prism_ann::ivf::IvfIndex;
use prism_ann::kmeans::{kmeans, reseed_cluster, reseeding_choices, Clustering};
use prism_ann::probe::{intersect_postings, sorted_intersect_u16};
use prism_ann::session::probed_clusters;
use prism_ann::sparse::SpMat;
use prism_ann::vecstore::{QueryStore, VecStore};

fn bits(values: &[f32]) -> Vec<u32> {
    values.iter().map(|value| value.to_bits()).collect()
}

fn mean(rows: &[u32], dim: usize) -> Vec<u32> {
    let mut sums = vec![0.0f64; dim];
    for row in rows.chunks(dim) {
        for (sum, &x) in sums.iter_mut().zip(row) {
            *sum += f64::from(f32::from_bits(x));
        }
    }
    let inverse = 1.0 / (rows.len() / dim) as f64;
    sums.iter().map(|sum| ((sum * inverse) as f32).to_bits()).collect()
}

fn rotate(row: &[u32], signs: &[u32], block: usize) -> Vec<bool> {
    let mut values: Vec<f64> = row
        .iter()
        .zip(signs)
        .map(|(&x, &sign)| f64::from(f32::from_bits(x)) * f64::from(f32::from_bits(sign)))
        .collect();
    for part in values.chunks_mut(block) {
        let mut half = 1;
        while half < block {
            for start in (0..block).step_by(2 * half) {
                for i in start..start + half {
                    let (a, b) = (part[i], part[i + half]);
                    part[i] = a + b;
                    part[i + half] = a - b;
                }
            }
            half *= 2;
        }
    }
    values.iter().map(|&value| value >= 0.0).collect()
}

fn l2(a: &[u32], b: &[u32]) -> u32 {
    let total: f32 = a
        .iter()
        .zip(b)
        .map(|(&x, &y)| {
            let delta = f32::from_bits(x) - f32::from_bits(y);
            delta * delta
        })
        .sum();
    total.to_bits()
}

fn floats(values: &[f32]) -> VecStore {
    VecStore::F32(bits(values))
}

/// 6 points, 4 tags, 2 hand-assigned clusters. Tag sets per point:
/// 0:{0,1,2} 1:{0,1} 2:{0,2} 3:{1,2} 4:{0,1,2} 5:{3}.
fn fixture() -> IvfIndex {
    let points: Vec<Vec<f32>> = vec![
        vec![0.0, 0.0],
        vec![0.1, 0.0],
        vec![0.2, 0.0],
        vec![0.3, 0.0],
        vec![5.0, 5.0],
        vec![5.1, 5.0],
    ];
    let tag_sets: Vec<Vec<i32>> = vec![
        vec![0, 0, 1, 2],
        vec![0, 1],
        vec![0, 2],
        vec![1, 2],
        vec![0, 1, 2],
        vec![3],
    ];
    let flat: Vec<f32> = points.iter().flatten().copied().collect();
    let mut indptr = vec![0i64];
    let mut indices = Vec::new();
    for tags in &tag_sets {
        indices.extend_from_slice(tags);
        indptr.push(indices.len() as i64);
    }
    let meta = SpMat {
        rows: points.len(),
        cols: 4,
        indptr,
        indices,
    };
    let assignments: Vec<u16> = vec![0, 0, 0, 0, 1, 1];
    IvfIndex::build(&floats(&flat), &meta, &assignments, points.len(), 2, 2, &rotate).unwrap()
}

fn run_query(
    index: &IvfIndex,
    query: &[f32],
    tags: Vec<usize>,
    k: usize,
    binary_rerank: usize,
) -> Vec<u32> {
    let query = bits(query);
    let mut results = index
        .batch_search_mqcb(
            &QueryStore::F32(&query),
            1,
            &[tags],
            &[vec![0, 1]],
            k,
            10,
            2,
            binary_rerank,
            &l2,
            &rotate,
        )
        .unwrap();
    results.pop().unwrap()
}

#[test]
fn batch_zero_tags_scans_whole_clusters() {
    let index = fixture();
    let mut ids = run_query(&index, &[5.05, 5.0], Vec::new(), 2, 0);
    ids.sort_unstable();
    assert_eq!(ids, vec![4, 5]);
}

#[test]
fn batch_three_tags_enforces_full_conjunction() {
    let index = fixture();
    let ids = run_query(&index, &[0.05, 0.0], vec![0, 1, 2], 4, 0);
    let mut sorted = ids.clone();
    sorted.sort_unstable();
    assert_eq!(sorted, vec![0, 4]);
}

#[test]
fn duplicate_metadata_and_cluster_ids_do_not_duplicate_results() {
    let index = fixture();
    let query = bits(&[0.0f32, 0.0]);
    let results = index
        .batch_search_mqcb(
            &QueryStore::F32(&query),
            1,
            &[vec![0]],
            &[vec![0, 0, 1, 1]],
            6,
            6,
            4,
            0,
            &l2,
            &rotate,
        )
        .unwrap();
    let mut unique = results[0].clone();
    unique.sort_unstable();
    unique.dedup();
    assert_eq!(results[0].len(), unique.len());
}

#[test]
fn ivf_results_use_original_ids_after_reordering() {
    let base = floats(&[
        -1.0, -2.0, // original 0, cluster 1
        1.0, 2.0, // original 1, cluster 0 and exact nearest
        5.0, 5.0, // original 2, cluster 1
        -1.0, -2.0, // original 3, cluster 0 and binary opposite
    ]);
    let meta = SpMat {
        rows: 4,
        cols: 1,
        indptr: vec![0, 1, 2, 3, 4],
        indices: vec![0, 0, 0, 0],
    };
    let index = IvfIndex::build(&base, &meta, &[1, 0, 1, 0], 4, 2, 2, &rotate).unwrap();
    assert_eq!(index.original_ids, vec![1, 3, 0, 2]);
    let ids = run_query(&index, &[1.0, 2.0], vec![0], 1, 1);

    assert_eq!(ids, vec![1]);
}

#[test]
fn binary_prefilter_executes_on_large_posting() {
    let index = fixture();
    let query = bits(&[0.0f32, 0.0]);
    let results = index
        .batch_search_mqcb(
            &QueryStore::F32(&query),
            1,
            &[vec![0]],
            &[vec![0, 1]],
            1,
            1,
            2,
            1,
            &l2,
            &rotate,
        )
        .unwrap();
    assert_eq!(results[0].len(), 1);
    assert!([0, 1, 2, 4].contains(&results[0][0]));
}

#[test]
fn kmeans_reseeds_empty_clusters() {
    let n = 64;
    let mut flat = vec![0.0f32; n * 2];
    for (i, off) in [(60, 50.0f32), (61, -50.0), (62, 100.0), (63, -100.0)] {
        flat[i * 2] = off;
        flat[i * 2 + 1] = off;
    }
    let (assignments, _) =
        kmeans(&floats(&flat), n, 2, 8, 3, &l2, &mean).unwrap();
    let mut seen = [false; 8];
    for &a in &assignments {
        seen[a as usize] = true;
    }
    assert!(
        seen.iter().all(|&s| s),
        "every cluster must keep at least one member, got {assignments:?}"
    );
}

#[test]
fn csr_and_ivf_build_reject_malformed_public_inputs() {
    assert!(matches!(
        SpMat::new(1, 1, vec![1, 1], vec![]),
        Err(PrismError::InvalidInput(_))
    ));
    assert!(matches!(
        SpMat::new(1, 1, vec![0, 1], vec![-1]),
        Err(PrismError::InvalidInput(_))
    ));

    let metadata = SpMat::new(1, 1, vec![0, 1], vec![0]).unwrap();
    assert_eq!(metadata.rows(), 1);
    assert_eq!(metadata.cols(), 1);
    assert_eq!(metadata.indptr(), &[0, 1]);
    assert_eq!(metadata.indices(), &[0]);
    assert!(matches!(
        IvfIndex::build(&floats(&[0.0]), &metadata, &[0], 1, 2, 1, &rotate),
        Err(PrismError::InvalidInput(_))
    ));
    assert!(matches!(
        IvfIndex::build(&floats(&[0.0]), &metadata, &[1], 1, 1, 1, &rotate),
        Err(PrismError::InvalidInput(_))
    ));
    assert!(matches!(
        kmeans(&floats(&[0.0]), 1, 1, 1, 0, &l2, &mean),
        Err(PrismError::InvalidInput(_))
    ));
}

#[test]
fn sparse_tag_space_never_allocates_by_declared_column_count() {
    assert!(matches!(
        SpMat::new(0, usize::MAX, vec![0], vec![]),
        Err(PrismError::Overflow(_))
    ));

    let max_supported_cols = i32::MAX as usize + 1;
    let metadata = SpMat::new(1, max_supported_cols, vec![0, 1], vec![i32::MAX]).unwrap();
    let index = IvfIndex::build(&floats(&[0.0]), &metadata, &[0], 1, 1, 1, &rotate).unwrap();
    assert_eq!(index.n_tags(), max_supported_cols);
    assert_eq!(index.clusters_for_tag(i32::MAX as usize), Some(&[0][..]));
    assert_eq!(index.clusters_for_tag(0), None);

    let invalid_metadata = SpMat {
        rows: 1,
        cols: usize::MAX,
        indptr: vec![0, 0],
        indices: vec![],
    };
    assert!(matches!(
        IvfIndex::build(&floats(&[0.0]), &invalid_metadata, &[0], 1, 1, 1, &rotate),
        Err(PrismError::Overflow(_))
    ));
}

#[test]
fn ivf_rejects_extreme_finite_base_and_query_coordinates() {
    let metadata = SpMat::new(1, 1, vec![0, 1], vec![0]).unwrap();
    assert!(matches!(
        IvfIndex::build(&floats(&[f32::MAX]), &metadata, &[0], 1, 1, 1, &rotate),
        Err(PrismError::InvalidInput(_))
    ));
    assert!(matches!(
        kmeans(&floats(&[-f32::MAX]), 1, 1, 1, 1, &l2, &mean),
        Err(PrismError::InvalidInput(_))
    ));

    let index = fixture();
    assert!(matches!(
        index.batch_search_mqcb(
            &QueryStore::F32(&bits(&[f32::MAX, -f32::MAX])),
            1,
            &[vec![]],
            &[vec![0]],
            1,
            1,
            1,
            1,
            &l2,
            &rotate,
        ),
        Err(PrismError::InvalidInput(_))
    ));
}

#[test]
fn ivf_search_rejects_shape_dtype_and_cluster_mismatches() {
    let index = fixture();
    let query = bits(&[0.0f32, 0.0]);
    let ask = |queries: &QueryStore, tags: Vec<usize>, clusters: Vec<usize>, n_probe: usize| {
        index.batch_search_mqcb(queries, 1, &[tags], &[clusters], 1, 1, n_probe, 0, &l2, &rotate)
    };

    assert!(matches!(
        ask(&QueryStore::U8(&[0, 0]), vec![], vec![0], 1),
        Err(PrismError::InvalidInput(_))
    ));
    assert!(matches!(
        ask(&QueryStore::F32(&query), vec![], vec![index.n_clusters()], 1),
        Err(PrismError::InvalidInput(_))
    ));
    assert!(matches!(
        ask(&QueryStore::F32(&query), vec![], vec![0], 0),
        Err(PrismError::InvalidInput(_))
    ));
    assert!(matches!(
        ask(&QueryStore::F32(&query), vec![index.n_tags()], vec![0], 1),
        Err(PrismError::InvalidInput(_))
    ));
}

#[test]
fn byte_vectors_are_searched_without_conversion() {
    let base = VecStore::U8(vec![0, 0, 10, 10, 200, 200, 210, 210]);
    let meta = SpMat::new(4, 2, vec![0, 1, 2, 3, 4], vec![0, 1, 0, 1]).unwrap();
    let index = IvfIndex::build(&base, &meta, &[0, 0, 1, 1], 4, 2, 2, &rotate).unwrap();
    let found = index
        .batch_search_mqcb(
            &QueryStore::U8(&[205, 206]),
            1,
            &[vec![]],
            &[vec![1, 0]],
            3,
            3,
            2,
            0,
            &l2,
            &rotate,
        )
        .unwrap();
    assert_eq!(found, vec![vec![3, 2, 1]]);
    assert_eq!(index.cluster_starts(), &[0, 2, 4]);
    assert_eq!(index.lookup_tag(1, 1), &[1]);
    assert_eq!(index.clusters_for_tag(0), Some(&[0, 1][..]));
    assert_eq!(index.vectors().as_u8(), Some(&[0, 0, 10, 10, 200, 200, 210, 210][..]));
    assert_eq!(index.len(), 4);
    assert!(!index.is_empty());
}

#[test]
fn kmeans_of_separated_bytes_finds_the_groups() {
    let base = VecStore::U8(vec![0, 1, 2, 200, 201, 202]);
    let (assignments, centroids) =
        kmeans(&base, 6, 1, 2, 10, &l2, &mean).unwrap();
    assert!(assignments[..3].iter().all(|&a| a == assignments[0]));
    assert!(assignments[3..].iter().all(|&a| a == assignments[3]));
    assert_ne!(assignments[0], assignments[3]);
    let centroids = centroids.as_u8().unwrap();
    assert_eq!(centroids.len(), 2);
    assert_eq!(centroids[assignments[0] as usize], 1);
    assert_eq!(centroids[assignments[3] as usize], 201);
}

#[test]
fn an_empty_cluster_takes_a_point_of_a_larger_one() {
    let base = floats(&[0.0, 1.0, 2.0]);
    let mut clustering = Clustering {
        assignments: vec![0, 0, 0],
        centroids: vec![bits(&[1.0]), bits(&[7.0])],
    };
    assert_eq!(reseeding_choices(&clustering, 0), None);
    let choices = reseeding_choices(&clustering, 1).unwrap();
    assert_eq!(choices, 3);
    reseed_cluster(&mut clustering, &base, 3, 1, 2, 1, 2);
    assert_eq!(clustering.assignments, vec![0, 0, 1]);
    assert_eq!(clustering.centroids[1], bits(&[2.0]));
}

#[test]
fn postings_intersect_in_ascending_order() {
    let lists: Vec<&[u32]> = vec![&[1, 3, 5, 8], &[3, 4, 5, 8, 9], &[0, 5, 8]];
    assert_eq!(intersect_postings(&lists), vec![5, 8]);
    assert_eq!(sorted_intersect_u16(&[1, 2, 9], &[2, 9, 10]), vec![2, 9]);
    assert!(sorted_intersect_u16(&[1], &[]).is_empty());
}

#[test]
fn kmeans_gives_the_same_clusters_every_time() {
    let values: Vec<f32> = (0..120).map(|i| ((i * 37) % 101) as f32).collect();
    let run = || {
        let (assignments, centroids) =
            kmeans(&floats(&values), 60, 2, 7, 4, &l2, &mean).unwrap();
        (assignments, centroids.as_f32().unwrap().to_vec())
    };
    assert_eq!(run(), run());
}

#[test]
fn answers_are_the_points_that_have_every_tag() {
    let index = fixture();
    let given: [&[usize]; 6] = [&[0, 1, 2], &[0, 1], &[0, 2], &[1, 2], &[0, 1, 2], &[3]];
    for tags in [vec![], vec![0], vec![1, 2], vec![0, 1, 2], vec![3], vec![0, 3]] {
        let expected: Vec<u32> = (0..6u32)
            .filter(|&p| tags.iter().all(|tag| given[p as usize].contains(tag)))
            .collect();
        let mut ids = run_query(&index, &[0.0, 0.0], tags, 6, 0);
        ids.sort_unstable();
        assert_eq!(ids, expected);
    }
}

#[test]
fn clusters_with_every_tag_are_probed_nearest_first() {
    let base = floats(&[0.0, 1.0, 10.0, 11.0]);
    let meta = SpMat::new(4, 3, vec![0, 1, 3, 4, 5], vec![0, 0, 1, 0, 2]).unwrap();
    let index = IvfIndex::build(&base, &meta, &[0, 0, 1, 1], 4, 1, 2, &rotate).unwrap();
    let queries = floats(&[9.0]);
    let centroids = floats(&[0.5, 10.5]);
    let probe = |tags: &[usize], nprobe: usize| {
        probed_clusters(&index, tags, &queries, 1, &centroids, &l2, 0, nprobe)
    };
    assert_eq!(probe(&[], 5), vec![1, 0]);
    assert_eq!(probe(&[0], 5), vec![1, 0]);
    assert_eq!(probe(&[0], 1), vec![1]);
    assert_eq!(probe(&[1], 5), vec![0]);
    assert_eq!(probe(&[0, 2], 5), vec![1]);
    assert!(probe(&[1, 2], 5).is_empty());
    assert!(probe(&[0, 9], 5).is_empty());
}
