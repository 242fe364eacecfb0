//! Lowe-style SIFT feature extraction and matching: the verified core.
//!
//! Pixel intensities, descriptor values, keypoint coordinates and every other
//! real-valued quantity are handled by the caller. What stands here is the
//! discrete logic of the pipeline: image shape, indexing and index resampling,
//! configuration limits, the octave plan of the scale-space pyramid and the
//! descriptor histogram layout, the exhaustive two-nearest-neighbour selection and
//! the bounded best-first neighbour list over distance order keys, model
//! bookkeeping, and generalized Hough vote clustering.

pub mod bbf;
pub mod geometry;
pub mod gray;
pub mod matching;
pub mod recognition;
pub mod sift;

pub use crate::bbf::{
    BbfConfigChecks, BbfConfigError, BoundQueue, DEFAULT_LEAF_SIZE, DEFAULT_MAX_CANDIDATES, NearestList,
    RankedNeighbor, next_branch,
};
pub use crate::geometry::{GeometryError, validate_match_pairs};
pub use crate::gray::{GrayImage, GrayImageError};
pub use crate::matching::{EPSILON_KEY, INFINITY_KEY, NearestPair, two_nearest};
pub use crate::recognition::{
    HoughBin, HoughConfigChecks, HoughVote, ModelFeatureRecord, ModelSummary, RecognitionError,
    VoteCluster, catalogue_models, cluster_votes, extend_inliers, flatten_features, positive_mod,
    push_match_votes, retain_within, sorted_unique,
};
pub use crate::sift::{
    DEFAULT_INTERVALS, DEFAULT_MIN_OCTAVE_SIZE, DEFAULT_ORIENTATION_BINS, DESCRIPTOR_LEN, SiftConfigChecks,
    SiftConfigError, octave_sizes, trilinear_cells,
};
