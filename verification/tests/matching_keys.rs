use lowe_sift::{EPSILON_KEY, INFINITY_KEY, NearestPair, two_nearest};

fn key(d: f32) -> u32 {
    if d.is_nan() { u32::MAX } else { d.to_bits() }
}

#[test]
fn keys_order_like_distances() {
    assert_eq!(key(f32::INFINITY), INFINITY_KEY);
    assert_eq!(key(f32::EPSILON), EPSILON_KEY);
    assert!(key(0.25) < key(0.5));
    assert!(key(f32::MAX) < INFINITY_KEY);
}

#[test]
fn two_nearest_picks_distinct_best_candidate() {
    // Squared distances of a query at 0 to candidates at 0.1 and 1.0.
    let keys = [key(0.1f32 * 0.1), key(1.0)];
    let pair = two_nearest(&keys).unwrap();
    assert_eq!(pair.index, 0);
    assert_eq!(pair.best_key, keys[0]);
    assert_eq!(pair.second_key, keys[1]);
}

#[test]
fn two_nearest_keeps_first_of_equal_candidates() {
    let keys = [key(5.0), key(3.0), key(3.0), key(4.0)];
    assert_eq!(
        two_nearest(&keys),
        Some(NearestPair { index: 1, best_key: key(3.0), second_key: key(3.0) })
    );
}

#[test]
fn two_nearest_rejects_missing_or_degenerate_second() {
    assert_eq!(two_nearest(&[]), None);
    assert_eq!(two_nearest(&[key(1.0)]), None);
    assert_eq!(two_nearest(&[key(1.0), key(f32::INFINITY)]), None);
    assert_eq!(two_nearest(&[key(f32::NAN), key(1.0), key(f32::NAN)]), None);
    assert_eq!(two_nearest(&[key(0.0), key(0.0)]), None);
    assert_eq!(two_nearest(&[key(0.0), key(f32::EPSILON)]), None);
    assert!(two_nearest(&[key(0.0), key(2.0 * f32::EPSILON)]).is_some());
}

#[test]
fn two_nearest_skips_nan_candidates() {
    let keys = [key(f32::NAN), key(2.0), key(f32::NAN), key(1.0)];
    assert_eq!(
        two_nearest(&keys),
        Some(NearestPair { index: 3, best_key: key(1.0), second_key: key(2.0) })
    );
}
