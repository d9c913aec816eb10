use prism_ann::config::PrismConfig;
use prism_ann::error::PrismError;
use prism_ann::session::{
    candidate_clusters_for_tags, check_finite, check_ivf_input, check_ivf_queries,
    check_ivf_settings, check_probes, checked_output_len, nearest_clusters, pad_rows, row_tags,
    validate_csr, Staging,
};
use prism_ann::vecstore::VecStore;

fn bits(values: &[f32]) -> Vec<u32> {
    values.iter().map(|value| value.to_bits()).collect()
}

fn l2(a: &[u32], b: &[u32]) -> u32 {
    let total: f32 = a
        .iter()
        .zip(b)
        .map(|(&x, &y)| {
            let delta = f32::from_bits(x) - f32::from_bits(y);
            delta * delta
        })
        .sum();
    total.to_bits()
}

#[test]
fn candidate_clusters_support_empty_and_arbitrary_tag_counts() {
    let postings: [Vec<u16>; 4] = [vec![0, 1, 2], vec![1, 2], vec![2, 3], vec![2]];
    let lookup = |tag: usize| postings.get(tag).map(Vec::as_slice);
    let ask = |tags: &[usize]| candidate_clusters_for_tags(tags, postings.len(), 4, &lookup);
    assert_eq!(ask(&[]), vec![0, 1, 2, 3]);
    assert_eq!(ask(&[0]), vec![0, 1, 2]);
    assert_eq!(ask(&[0, 1, 2]), vec![2]);
    assert_eq!(ask(&[2, 0, 2, 1]), vec![2]);
    assert!(ask(&[99]).is_empty());
}

#[test]
fn output_shapes_that_overflow_are_refused() {
    assert_eq!(checked_output_len(3, 10).unwrap(), 30);
    assert!(matches!(checked_output_len(usize::MAX, 2), Err(PrismError::InvalidInput(_))));
    assert!(matches!(checked_output_len(1 << 32, 1 << 32), Err(PrismError::InvalidInput(_))));
}

#[test]
fn sparse_rows_are_checked_and_listed() {
    let indptr = [0i64, 2, 2, 3];
    let indices = [0i32, 4, 1];
    assert!(validate_csr(&indptr, &indices, 3, 5).is_ok());
    assert_eq!(row_tags(&indptr, &indices, 3), vec![vec![0, 4], vec![], vec![1]]);
    assert!(validate_csr(&indptr, &indices, 2, 5).is_err());
    assert!(validate_csr(&indptr, &indices, 3, 4).is_err());
    assert!(validate_csr(&[0, 3, 2, 3], &indices, 3, 5).is_err());
    assert!(validate_csr(&[0, 1, 2, 2], &indices, 3, 5).is_err());
    assert!(validate_csr(&[1, 2, 2, 3], &indices, 3, 5).is_err());
    assert!(validate_csr(&indptr, &[0, -1, 1], 3, 5).is_err());
}

#[test]
fn clusters_are_ranked_by_distance_and_cut() {
    let centroids = VecStore::F32(bits(&[0.0, 10.0, 20.0, 30.0]));
    let queries = VecStore::F32(bits(&[19.0]));
    let found = nearest_clusters(&queries, 1, &centroids, 4, 1, &l2, 0, &vec![0, 1, 2, 3], 3);
    assert_eq!(found, vec![2, 1, 3]);
    let found = nearest_clusters(&queries, 1, &centroids, 4, 1, &l2, 0, &vec![0, 3], 9);
    assert_eq!(found, vec![3, 0]);
}

#[test]
fn rows_are_padded_to_one_width() {
    let rows = vec![vec![7, 8, 9], vec![5], vec![]];
    assert_eq!(pad_rows(&rows, 2, u32::MAX), vec![7, 8, 5, u32::MAX, u32::MAX, u32::MAX]);
}

#[test]
fn staging_collects_rows_until_it_is_taken() {
    let config = PrismConfig::default();
    assert!(matches!(Staging::new(0, 1, &config), Err(PrismError::InvalidInput(_))));
    let mut staging = Staging::new(2, 1, &config).unwrap();
    staging.add(&bits(&[1.0, 2.0, 3.0, 4.0]), 2, 2, &[5, 6], 2, 1).unwrap();
    assert!(staging.add(&bits(&[1.0, 2.0]), 1, 2, &[5, 6], 2, 1).is_err());
    assert!(staging.add(&bits(&[1.0, 2.0, 3.0]), 1, 3, &[5], 1, 1).is_err());
    assert!(staging.add(&bits(&[1.0, 2.0]), 1, 2, &[5, 6], 1, 2).is_err());
    assert!(staging.add(&bits(&[1.0, f32::NAN]), 1, 2, &[5], 1, 1).is_err());
    staging.add(&bits(&[5.0, 6.0]), 1, 2, &[7], 1, 1).unwrap();
    assert_eq!(staging.points, 3);

    let refused = PrismConfig { alpha: f32::NAN.to_bits(), ..config.clone() };
    let Err(PrismError::InvalidInput(text)) = staging.hand_over(&refused) else {
        panic!("settings are invalid");
    };
    assert!(text.starts_with("invalid input: alpha must be finite"));
    assert!(text.ends_with("; staged vectors and attributes were retained"));
    assert_eq!(staging.points, 3);

    let (vectors, attrs) = staging.hand_over(&config).unwrap();
    assert_eq!(vectors, bits(&[1.0, 2.0, 3.0, 4.0, 5.0, 6.0]));
    assert_eq!(attrs, vec![vec![5, 6, 7]]);
    assert_eq!(staging.points, 0);
    assert_eq!(
        staging.hand_over(&config),
        Err(PrismError::InvalidInput("no data added; call add() first".to_string()))
    );

    let Err(PrismError::Overflow(text)) =
        staging.settle(Err(PrismError::Overflow("too many edges".to_string())))
    else {
        panic!("nothing was built");
    };
    assert!(text.starts_with("overflow: too many edges; "));
    assert!(text.ends_with(" and the builder was reset"));
    staging.add(&bits(&[5.0, 6.0]), 1, 2, &[7], 1, 1).unwrap();
    assert_eq!(staging.points, 1);
}

#[test]
fn probes_are_needed_where_results_are_wanted() {
    assert!(check_probes(0, 0).is_ok());
    assert!(check_probes(10, 1).is_ok());
    assert!(matches!(check_probes(10, 0), Err(PrismError::InvalidInput(_))));
}

#[test]
fn ivf_settings_and_inputs_are_checked() {
    assert!(check_ivf_settings(16, 10).is_ok());
    assert!(check_ivf_settings(0, 10).is_err());
    assert!(check_ivf_settings(16, 0).is_err());
    assert!(check_ivf_settings(65_537, 10).is_err());

    let finite = VecStore::F32(bits(&[1.0, 2.0]));
    let infinite = VecStore::F32(bits(&[1.0, f32::INFINITY]));
    assert!(check_finite(&finite));
    assert!(!check_finite(&infinite));
    assert!(check_finite(&VecStore::U8(vec![255])));
    assert!(check_ivf_input(&finite, 2, 1, 2).is_ok());
    assert!(check_ivf_input(&finite, 2, 1, 3).is_err());
    assert!(check_ivf_input(&infinite, 2, 1, 2).is_err());
    assert!(check_ivf_input(&finite, 2, 0, 2).is_err());

    assert!(check_ivf_queries(&finite, 2, true, 2).is_ok());
    assert!(check_ivf_queries(&finite, 2, false, 2).is_err());
    assert!(check_ivf_queries(&finite, 2, true, 3).is_err());
    assert!(check_ivf_queries(&infinite, 2, true, 2).is_err());
}
