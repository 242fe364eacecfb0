use lowe_sift::{
    DEFAULT_INTERVALS, DEFAULT_MIN_OCTAVE_SIZE, DEFAULT_ORIENTATION_BINS, DESCRIPTOR_LEN,
    GeometryError, SiftConfigChecks, SiftConfigError, octave_sizes, trilinear_cells,
    validate_match_pairs,
};

#[test]
fn default_config_is_valid() {
    SiftConfigChecks::default().validate().unwrap();
}

#[test]
fn default_config_counts() {
    let checks = SiftConfigChecks::default();
    assert_eq!(checks.intervals, DEFAULT_INTERVALS);
    assert_eq!((DEFAULT_INTERVALS, DEFAULT_ORIENTATION_BINS, DEFAULT_MIN_OCTAVE_SIZE), (3, 36, 16));
}

#[test]
fn sift_config_checks_come_in_order() {
    let base = SiftConfigChecks::default();
    let all_bad = SiftConfigChecks {
        intervals: 0,
        orientation_bins: 2,
        min_octave_size: 4,
        sigma_valid: false,
        assumed_blur_valid: false,
        contrast_threshold_valid: false,
        edge_threshold_valid: false,
        orientation_peak_ratio_valid: false,
        orientation_window_factor_valid: false,
        descriptor_scale_valid: false,
        descriptor_clipping_valid: false,
    };
    assert_eq!(all_bad.validate(), Err(SiftConfigError::IntervalsTooSmall));
    let c = SiftConfigChecks { intervals: 3, ..all_bad };
    assert_eq!(c.validate(), Err(SiftConfigError::OrientationBinsTooSmall));
    let c = SiftConfigChecks { orientation_bins: 3, ..c };
    assert_eq!(c.validate(), Err(SiftConfigError::MinOctaveSizeTooSmall));
    let c = SiftConfigChecks { min_octave_size: 8, ..c };
    assert_eq!(c.validate(), Err(SiftConfigError::InvalidParameter("sigma")));
    let c = SiftConfigChecks { sigma_valid: true, ..c };
    assert_eq!(c.validate(), Err(SiftConfigError::InvalidParameter("assumed_blur")));
    let c = SiftConfigChecks { assumed_blur_valid: true, ..c };
    assert_eq!(c.validate(), Err(SiftConfigError::InvalidParameter("contrast_threshold")));
    let c = SiftConfigChecks { contrast_threshold_valid: true, ..c };
    assert_eq!(c.validate(), Err(SiftConfigError::InvalidParameter("edge_threshold")));
    let c = SiftConfigChecks { edge_threshold_valid: true, ..c };
    assert_eq!(c.validate(), Err(SiftConfigError::InvalidParameter("orientation_peak_ratio")));
    let c = SiftConfigChecks { orientation_peak_ratio_valid: true, ..c };
    assert_eq!(
        c.validate(),
        Err(SiftConfigError::InvalidParameter("orientation_window_factor"))
    );
    let c = SiftConfigChecks { orientation_window_factor_valid: true, ..c };
    assert_eq!(c.validate(), Err(SiftConfigError::InvalidParameter("descriptor_scale")));
    let c = SiftConfigChecks { descriptor_scale_valid: true, ..c };
    assert_eq!(c.validate(), Err(SiftConfigError::InvalidParameter("descriptor_clipping")));
    let c = SiftConfigChecks { descriptor_clipping_valid: true, ..c };
    assert_eq!(c.validate(), Ok(()));
    assert_eq!(SiftConfigChecks { orientation_bins: 2, ..base }.validate(), Err(SiftConfigError::OrientationBinsTooSmall));
}

#[test]
fn octaves_halve_until_too_small() {
    assert_eq!(octave_sizes(128, 96, 16), vec![(128, 96), (64, 48), (32, 24)]);
    assert_eq!(octave_sizes(16, 16, 16), vec![(16, 16)]);
    assert_eq!(octave_sizes(15, 100, 16), Vec::<(usize, usize)>::new());
    // A one-pixel dimension cannot shrink, so the pyramid has a single octave.
    assert_eq!(octave_sizes(64, 1, 1), vec![(64, 1)]);
}

#[test]
fn trilinear_cells_wrap_orientation_and_clip_space() {
    let cells = trilinear_cells(0, 0, 7);
    assert_eq!(cells[0], Some(7));
    assert_eq!(cells[1], Some(0));
    assert_eq!(cells[2], Some(15));
    assert_eq!(cells[4], Some(39));
    assert_eq!(cells[7], Some(40));

    let cells = trilinear_cells(-1, 3, -1);
    assert_eq!(cells[0], None);
    assert_eq!(cells[4], Some(31));
    assert_eq!(cells[5], Some(24));
    assert_eq!(cells[6], None);
    assert!(cells.iter().flatten().all(|&i| i < DESCRIPTOR_LEN));
}

#[test]
fn match_pairs_need_three_in_bounds() {
    assert_eq!(validate_match_pairs(&[(0, 0), (1, 1)], 5, 5), Err(GeometryError::NotEnoughPairs));
    assert_eq!(
        validate_match_pairs(&[(0, 0), (1, 1), (2, 5)], 5, 5),
        Err(GeometryError::MatchIndexOutOfBounds)
    );
    assert_eq!(validate_match_pairs(&[(0, 0), (1, 1), (4, 4)], 5, 5), Ok(()));
}
