//! Affine pose estimation: the parts that do not touch pixel coordinates.

use vstd::prelude::*;

verus! {

/// Errors from affine pose estimation.
#[derive(Clone, Copy, Debug, PartialEq, Eq, Structural)]
pub enum GeometryError {
    /// Fewer than three point pairs were supplied.
    NotEnoughPairs,
    /// A match referenced a missing query or train feature.
    MatchIndexOutOfBounds,
    /// The least-squares normal equations were singular or ill-conditioned.
    SingularSystem,
}

/// Whether a match with these feature indices refers to existing query and train features.
pub open spec fn pair_in_bounds(pair: (usize, usize), query_len: usize, train_len: usize) -> bool {
    pair.0 < query_len && pair.1 < train_len
}

/// Checks the matches handed to affine estimation, each given as its
/// `(query_index, train_index)` pair: there must be at least three, and each must refer
/// to an existing query feature and an existing train feature.
pub fn validate_match_pairs(pairs: &[(usize, usize)], query_len: usize, train_len: usize) -> (result: Result<
    (),
    GeometryError,
>)
    ensures
        pairs@.len() < 3 ==> result == Err::<(), _>(GeometryError::NotEnoughPairs),
        pairs@.len() >= 3 && (exists|i: int|
            0 <= i < pairs@.len() && !pair_in_bounds(#[trigger] pairs@[i], query_len, train_len))
            ==> result == Err::<(), _>(GeometryError::MatchIndexOutOfBounds),
        result is Ok <==> (pairs@.len() >= 3 && forall|i: int|
            0 <= i < pairs@.len() ==> pair_in_bounds(#[trigger] pairs@[i], query_len, train_len)),
{
    if pairs.len() < 3 {
        return Err(GeometryError::NotEnoughPairs);
    }
    let mut i: usize = 0;
    while i < pairs.len()
        invariant
            pairs@.len() >= 3,
            i <= pairs@.len(),
            forall|j: int| 0 <= j < i ==> pair_in_bounds(#[trigger] pairs@[j], query_len, train_len),
        decreases pairs@.len() - i,
    {
        let (q, t) = pairs[i];
        if q >= query_len || t >= train_len {
            proof {
                assert(!pair_in_bounds(pairs@[i as int], query_len, train_len));
            }
            return Err(GeometryError::MatchIndexOutOfBounds);
        }
        i += 1;
    }
    Ok(())
}

} // verus!
