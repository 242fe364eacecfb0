use lowe_sift::{
    BbfConfigChecks, BbfConfigError, BoundQueue, DEFAULT_LEAF_SIZE, DEFAULT_MAX_CANDIDATES,
    INFINITY_KEY, NearestList, RankedNeighbor, next_branch,
};

#[test]
fn invalid_config_is_reported() {
    let config = BbfConfigChecks {
        max_candidates: 0,
        ..BbfConfigChecks::default()
    };
    assert_eq!(config.validate(), Err(BbfConfigError::MaxCandidatesZero));
}

#[test]
fn bbf_config_checks_come_in_order() {
    let c = BbfConfigChecks { max_candidates: 0, leaf_size: 0, ratio_threshold_valid: false };
    assert_eq!(c.validate(), Err(BbfConfigError::MaxCandidatesZero));
    let c = BbfConfigChecks { max_candidates: 200, ..c };
    assert_eq!(c.validate(), Err(BbfConfigError::LeafSizeZero));
    let c = BbfConfigChecks { leaf_size: 16, ..c };
    assert_eq!(c.validate(), Err(BbfConfigError::InvalidRatioThreshold));
    let c = BbfConfigChecks { ratio_threshold_valid: true, ..c };
    assert_eq!(c.validate(), Ok(()));
    assert_eq!(BbfConfigChecks::default(), c);
    assert_eq!((DEFAULT_MAX_CANDIDATES, DEFAULT_LEAF_SIZE), (200, 16));
}

// Order key of a non-negative lower bound with bit pattern `bits`.
fn bound(bits: u32) -> u32 {
    bits + 0x8000_0000
}

#[test]
fn next_branch_pops_until_the_search_is_over() {
    let mut queue = BoundQueue::new();
    let mut best = NearestList::new(1);
    assert_eq!(next_branch(&mut queue, &best, 0, 10), None);

    queue.push(bound(30), 2);
    queue.push(bound(10), 1);
    // The list is not full: the smallest branch comes first.
    assert_eq!(next_branch(&mut queue, &best, 0, 10), Some((bound(10), 1)));
    best.insert(7, 20);
    // The list is full and the branch at bound 30 lies beyond distance 20.
    assert_eq!(next_branch(&mut queue, &best, 1, 10), None);
    assert_eq!(queue.len(), 0);

    queue.push(bound(20), 3);
    // A branch at the same bound as the farthest neighbour is still explored.
    assert_eq!(next_branch(&mut queue, &best, 1, 10), Some((bound(20), 3)));
    queue.push(bound(5), 4);
    // The candidate cap ends the search.
    assert_eq!(next_branch(&mut queue, &best, 10, 10), None);
    // An undefined bound lies beyond nothing.
    queue.push(0xffc0_0000, 5);
    assert_eq!(next_branch(&mut queue, &best, 1, 10), Some((0xffc0_0000, 5)));
}

fn n(index: usize, key: u32) -> RankedNeighbor {
    RankedNeighbor { index, key }
}

#[test]
fn nearest_list_stays_sorted_and_bounded() {
    let mut list = NearestList::new(2);
    assert_eq!(list.capacity(), 2);
    list.insert(0, 50);
    list.insert(1, 10);
    assert_eq!(list.as_slice(), &[n(1, 10), n(0, 50)]);
    list.insert(2, 100);
    assert_eq!(list.as_slice(), &[n(1, 10), n(0, 50)]);
    list.insert(3, 20);
    assert_eq!(list.as_slice(), &[n(1, 10), n(3, 20)]);
    assert_eq!(list.full_worst_key(), Some(20));
}

#[test]
fn nearest_list_places_ties_after_earlier_entries() {
    let mut list = NearestList::new(3);
    list.insert(4, 7);
    list.insert(2, 7);
    list.insert(9, 3);
    assert_eq!(list.as_slice(), &[n(9, 3), n(4, 7), n(2, 7)]);
}

#[test]
fn nearest_list_ignores_repeats_and_infinite_distances() {
    let mut list = NearestList::new(3);
    list.insert(1, 5);
    list.insert(1, 5);
    list.insert(2, INFINITY_KEY);
    list.insert(3, u32::MAX);
    assert_eq!(list.as_slice(), &[n(1, 5)]);
    assert_eq!(list.full_worst_key(), None);
    list.clear();
    assert_eq!(list.len(), 0);
}

#[test]
fn bound_queue_pops_lowest_bound_then_lowest_node() {
    let mut queue = lowe_sift::BoundQueue::new();
    queue.push(5, 1);
    queue.push(2, 9);
    queue.push(5, 0);
    queue.push(2, 3);
    queue.push(2, 3);
    assert_eq!(queue.len(), 5);
    assert_eq!(queue.pop(), Some((2, 3)));
    assert_eq!(queue.pop(), Some((2, 3)));
    assert_eq!(queue.pop(), Some((2, 9)));
    queue.push(1, 7);
    assert_eq!(queue.pop(), Some((1, 7)));
    assert_eq!(queue.pop(), Some((5, 0)));
    assert_eq!(queue.pop(), Some((5, 1)));
    assert_eq!(queue.pop(), None);
    queue.push(4, 4);
    queue.clear();
    assert_eq!(queue.len(), 0);
}
