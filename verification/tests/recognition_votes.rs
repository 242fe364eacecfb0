use lowe_sift::{
    HoughBin, HoughConfigChecks, HoughVote, ModelFeatureRecord, ModelSummary, RecognitionError,
    catalogue_models, cluster_votes, extend_inliers, flatten_features, positive_mod, push_match_votes,
    retain_within, sorted_unique,
};
use lowe_sift::GeometryError;

fn model(id: u32, features: usize) -> ModelSummary {
    ModelSummary { id, dimensions_valid: true, feature_count: features }
}

#[test]
fn duplicate_model_ids_are_rejected() {
    assert_eq!(
        catalogue_models(&[model(1, 0), model(1, 0)]).unwrap_err(),
        RecognitionError::DuplicateModelId(1)
    );
}

#[test]
fn invalid_dimensions_are_reported_before_duplicates() {
    let bad = ModelSummary { id: 1, dimensions_valid: false, feature_count: 2 };
    assert_eq!(
        catalogue_models(&[model(1, 1), bad]).unwrap_err(),
        RecognitionError::InvalidModelDimension { model_id: 1 }
    );
}

#[test]
fn catalogue_flattens_features_model_after_model() {
    let records = catalogue_models(&[model(7, 2), model(3, 0), model(9, 1)]).unwrap();
    let r = |model_id, model_index, feature_index| ModelFeatureRecord {
        model_id,
        model_index,
        feature_index,
    };
    assert_eq!(records, vec![r(7, 0, 0), r(7, 0, 1), r(9, 2, 0)]);
}

#[test]
fn positive_mod_wraps_negative_values() {
    assert_eq!(positive_mod(-1, 12), 11);
    assert_eq!(positive_mod(13, 12), 1);
    assert_eq!(positive_mod(-24, 12), 0);
    assert_eq!(positive_mod(5, 1), 0);
}

#[test]
fn sorted_unique_sorts_and_drops_repeats() {
    assert_eq!(sorted_unique(&[5, 1, 5, 3, 1]), vec![1, 3, 5]);
    assert_eq!(sorted_unique(&[]), Vec::<usize>::new());
}

fn bin(model_id: u32, x_bin: i32, y_bin: i32) -> HoughBin {
    HoughBin { model_id, x_bin, y_bin, scale_bin: 0, orientation_bin: 0 }
}

fn vote(b: HoughBin, match_index: usize) -> HoughVote {
    HoughVote { bin: b, match_index }
}

#[test]
fn each_match_casts_sixteen_votes() {
    let mut votes = Vec::new();
    push_match_votes(&mut votes, 4, 9, [1, 2], [3, 4], [5, 6], [7, 8]);
    assert_eq!(votes.len(), 16);
    assert_eq!(votes[0].bin, HoughBin { model_id: 4, x_bin: 1, y_bin: 3, scale_bin: 5, orientation_bin: 7 });
    assert_eq!(votes[1].bin.orientation_bin, 8);
    assert_eq!(votes[2].bin.scale_bin, 6);
    assert_eq!(votes[4].bin.y_bin, 4);
    assert_eq!(votes[8].bin.x_bin, 2);
    assert_eq!(votes[15].bin, HoughBin { model_id: 4, x_bin: 2, y_bin: 4, scale_bin: 6, orientation_bin: 8 });
    assert!(votes.iter().all(|v| v.match_index == 9));
}

#[test]
fn clusters_keep_bins_with_enough_distinct_matches() {
    let a = bin(1, 0, 0);
    let b = bin(1, 5, 5);
    let c = bin(2, 0, 0);
    let votes = vec![
        vote(a, 0),
        vote(b, 0),
        vote(a, 1),
        vote(a, 1),
        vote(c, 2),
        vote(b, 2),
        vote(a, 2),
        vote(b, 3),
        vote(c, 3),
    ];
    let clusters = cluster_votes(&votes, 3);
    assert_eq!(clusters.len(), 2);
    assert_eq!(clusters[0].bin, a);
    assert_eq!(clusters[0].match_indices, vec![0, 1, 2]);
    assert_eq!(clusters[0].votes, 3);
    assert_eq!(clusters[0].model_id, 1);
    assert_eq!(clusters[1].bin, b);
    assert_eq!(clusters[1].match_indices, vec![0, 2, 3]);
}

#[test]
fn clusters_come_by_votes_then_model_then_location() {
    let votes = vec![
        vote(bin(2, 0, 0), 0),
        vote(bin(2, 0, 0), 1),
        vote(bin(1, 4, 0), 0),
        vote(bin(1, 4, 0), 1),
        vote(bin(1, 3, 9), 0),
        vote(bin(1, 3, 9), 1),
        vote(bin(1, 3, 2), 0),
        vote(bin(1, 3, 2), 2),
        vote(bin(9, 9, 9), 5),
        vote(bin(9, 9, 9), 6),
        vote(bin(9, 9, 9), 7),
    ];
    let clusters = cluster_votes(&votes, 2);
    let order: Vec<_> = clusters.iter().map(|c| (c.model_id, c.bin.x_bin, c.bin.y_bin)).collect();
    // (1, 3, 9) repeats the model and match set of (1, 4, 0), which came first.
    assert_eq!(order, vec![(9, 9, 9), (1, 3, 2), (1, 4, 0), (2, 0, 0)]);
    assert_eq!(clusters[1].match_indices, vec![0, 2]);
    assert_eq!(clusters[2].match_indices, vec![0, 1]);
}

#[test]
fn clusters_below_min_votes_are_dropped() {
    let votes = vec![vote(bin(1, 0, 0), 0), vote(bin(1, 0, 0), 0), vote(bin(1, 0, 0), 0)];
    assert!(cluster_votes(&votes, 2).is_empty());
    assert_eq!(cluster_votes(&votes, 1).len(), 1);
}

fn checks() -> HoughConfigChecks {
    HoughConfigChecks {
        min_votes: 3,
        orientation_bin_width_valid: true,
        scale_bin_width_valid: true,
        location_bin_factor_valid: true,
        affine_residual_factor_valid: true,
        max_verification_iterations: 8,
    }
}

#[test]
fn hough_config_checks_report_first_failure() {
    assert_eq!(checks().validate(), Ok(()));
    assert_eq!(
        HoughConfigChecks { min_votes: 0, scale_bin_width_valid: false, ..checks() }.validate(),
        Err(RecognitionError::InvalidConfig("min_votes must be greater than zero"))
    );
    assert_eq!(
        HoughConfigChecks { orientation_bin_width_valid: false, ..checks() }.validate(),
        Err(RecognitionError::InvalidConfig("orientation_bin_width must be in (0, 2π]"))
    );
    assert_eq!(
        HoughConfigChecks { affine_residual_factor_valid: false, max_verification_iterations: 0, ..checks() }
            .validate(),
        Err(RecognitionError::InvalidConfig("affine_residual_factor must be greater than zero"))
    );
    assert_eq!(
        HoughConfigChecks { max_verification_iterations: 0, ..checks() }.validate(),
        Err(RecognitionError::InvalidConfig("max_verification_iterations must be greater than zero"))
    );
}

#[test]
fn geometry_errors_convert() {
    assert_eq!(
        RecognitionError::from(GeometryError::SingularSystem),
        RecognitionError::Geometry(GeometryError::SingularSystem)
    );
}

#[test]
fn flattened_features_line_up_with_records() {
    let lists = vec![vec!['a', 'b'], vec![], vec!['c']];
    let flat = flatten_features(&lists);
    assert_eq!(flat, vec!['a', 'b', 'c']);
    let records = catalogue_models(&[model(7, 2), model(3, 0), model(9, 1)]).unwrap();
    assert_eq!(records.len(), flat.len());
    for (k, r) in records.iter().enumerate() {
        assert_eq!(flat[k], lists[r.model_index][r.feature_index]);
    }
}

#[test]
fn inlier_refinement_keeps_adds_and_detects_convergence() {
    let inliers = [2, 5, 8, 9];
    let kept = retain_within(&inliers, &[true, false, true, true]);
    assert_eq!(kept, vec![2, 8, 9]);
    let mut added = vec![false; 12];
    added[0] = true;
    added[11] = true;
    let (next, converged) = extend_inliers(&kept, &added, &inliers);
    assert_eq!(next, vec![0, 2, 8, 9, 11]);
    assert!(!converged);
    let (again, converged) = extend_inliers(&next, &vec![false; 12], &next);
    assert_eq!(again, next);
    assert!(converged);
    // Matches flagged again are not repeated.
    let (dup, _) = extend_inliers(&[3, 1], &[false, true, false, true], &[1, 3]);
    assert_eq!(dup, vec![1, 3]);
}
