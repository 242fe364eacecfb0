//! Exhaustive two-nearest-neighbour selection over distance order keys.
//!
//! Squared descriptor distances enter this crate as order keys: a non-negative
//! single-precision value is keyed by its IEEE-754 bit pattern, which orders exactly as
//! the values do, and a NaN distance is keyed by `u32::MAX`, above every other key.
//! Under this keying, `a < b` on keys holds exactly when `a < b` holds on the
//! distances, and a key is finite exactly when it is below [`INFINITY_KEY`].

use vstd::prelude::*;

verus! {

/// Order key of positive infinity; keys below it are those of finite distances.
pub const INFINITY_KEY: u32 = 0x7f80_0000;

/// Order key of the single-precision machine epsilon (`2^-23`).
pub const EPSILON_KEY: u32 = 0x3400_0000;

/// The smallest key of `s`, or [`INFINITY_KEY`] when none is smaller.
pub open spec fn capped_min(s: Seq<u32>) -> u32
    decreases s.len(),
{
    if s.len() == 0 {
        INFINITY_KEY
    } else {
        let m = capped_min(s.drop_last());
        if s.last() < m {
            s.last()
        } else {
            m
        }
    }
}

/// The position of the first key of `s` that equals `capped_min(s)` and is below
/// [`INFINITY_KEY`]; `-1` when every key is at least [`INFINITY_KEY`].
pub open spec fn argmin(s: Seq<u32>) -> int
    decreases s.len(),
{
    if s.len() == 0 {
        -1
    } else if s.last() < capped_min(s.drop_last()) {
        s.len() - 1
    } else {
        argmin(s.drop_last())
    }
}

/// The smallest key of `s` outside position `skip`, or [`INFINITY_KEY`] when none is
/// smaller.
pub open spec fn capped_min_except(s: Seq<u32>, skip: int) -> u32
    decreases s.len(),
{
    if s.len() == 0 {
        INFINITY_KEY
    } else {
        let m = capped_min_except(s.drop_last(), skip);
        if s.len() - 1 != skip && s.last() < m {
            s.last()
        } else {
            m
        }
    }
}

/// The nearest and second-nearest candidates found for one query.
#[derive(Clone, Copy, Debug, PartialEq, Eq, Structural)]
pub struct NearestPair {
    /// Index of the nearest candidate (the first one, among equally near candidates).
    pub index: usize,
    /// Distance key of the nearest candidate.
    pub best_key: u32,
    /// Distance key of the nearest other candidate.
    pub second_key: u32,
}

/// Whether the exhaustive search over `keys` leads to a ratio test: a finite nearest
/// distance and a finite second-nearest distance above machine epsilon.
pub open spec fn has_ratio_candidate(keys: Seq<u32>) -> bool {
    &&& capped_min(keys) < INFINITY_KEY
    &&& capped_min_except(keys, argmin(keys)) < INFINITY_KEY
    &&& capped_min_except(keys, argmin(keys)) > EPSILON_KEY
}

proof fn lemma_except_outside(s: Seq<u32>, skip: int)
    requires
        skip < 0 || skip >= s.len(),
    ensures
        capped_min_except(s, skip) == capped_min(s),
    decreases s.len(),
{
    if s.len() > 0 {
        lemma_except_outside(s.drop_last(), skip);
    }
}

/// The exhaustive nearest-neighbour laws: the nearest key is no larger than any key and
/// sits at its first occurrence; the second-nearest key is no larger than any key at
/// another position and, when finite, is the key of such a position.
pub proof fn lemma_two_nearest(s: Seq<u32>)
    ensures
        forall|j: int| 0 <= j < s.len() ==> capped_min(s) <= #[trigger] s[j] || s[j] >= INFINITY_KEY,
        capped_min(s) <= INFINITY_KEY,
        capped_min(s) < INFINITY_KEY ==> 0 <= argmin(s) < s.len(),
        capped_min(s) >= INFINITY_KEY ==> argmin(s) == -1,
        capped_min(s) < INFINITY_KEY ==> s[argmin(s)] == capped_min(s) && forall|j: int|
            0 <= j < argmin(s) ==> s[j] > capped_min(s),
        forall|j: int|
            0 <= j < s.len() && j != argmin(s) ==> capped_min_except(s, argmin(s)) <= #[trigger] s[j]
                || s[j] >= INFINITY_KEY,
        capped_min_except(s, argmin(s)) < INFINITY_KEY ==> exists|j: int|
            0 <= j < s.len() && j != argmin(s) && s[j] == capped_min_except(s, argmin(s)),
    decreases s.len(),
{
    if s.len() > 0 {
        let d = s.drop_last();
        let n = s.len() - 1;
        lemma_two_nearest(d);
        lemma_except_general(s, argmin(s));
        if s.last() < capped_min(d) {
            assert(argmin(s) == n);
            assert(capped_min(s) == s.last());
            lemma_except_outside(d, n);
            assert forall|j: int| 0 <= j < n implies s[j] > capped_min(s) by {
                assert(d[j] == s[j]);
            }
        } else {
            assert(argmin(s) == argmin(d));
            assert(capped_min(s) == capped_min(d));
            assert forall|j: int| 0 <= j < s.len() implies capped_min(s) <= #[trigger] s[j] || s[j] >= INFINITY_KEY by {
                if j < n { assert(d[j] == s[j]); }
            }
            if capped_min(s) < INFINITY_KEY {
                assert(s[argmin(s)] == d[argmin(d)]);
                assert forall|j: int| 0 <= j < argmin(s) implies s[j] > capped_min(s) by {
                    assert(d[j] == s[j]);
                }
            }
        }
    }
}

/// `capped_min_except(s, skip)` bounds every key outside `skip` and, when finite, is one.
proof fn lemma_except_general(s: Seq<u32>, skip: int)
    ensures
        forall|j: int|
            0 <= j < s.len() && j != skip ==> capped_min_except(s, skip) <= #[trigger] s[j] || s[j] >= INFINITY_KEY,
        capped_min_except(s, skip) <= INFINITY_KEY,
        capped_min_except(s, skip) < INFINITY_KEY ==> exists|j: int|
            0 <= j < s.len() && j != skip && s[j] == capped_min_except(s, skip),
    decreases s.len(),
{
    if s.len() > 0 {
        let d = s.drop_last();
        lemma_except_general(d, skip);
        assert forall|j: int| 0 <= j < s.len() && j != skip implies capped_min_except(s, skip) <= #[trigger] s[j] || s[j] >= INFINITY_KEY by {
            if j < s.len() - 1 { assert(d[j] == s[j]); }
        }
        if capped_min_except(s, skip) < INFINITY_KEY {
            if capped_min_except(s, skip) == capped_min_except(d, skip) {
                let j = choose|j: int| 0 <= j < d.len() && j != skip && d[j] == capped_min_except(d, skip);
                assert(s[j] == d[j]);
            } else {
                assert(s[s.len() - 1] == capped_min_except(s, skip));
            }
        }
    }
}

/// Scans candidate distance keys for the nearest and second-nearest candidates, as an
/// exhaustive matcher does, and returns them when they pass to the ratio test: the
/// nearest is finite and the second-nearest is finite and above machine epsilon.
pub fn two_nearest(keys: &[u32]) -> (result: Option<NearestPair>)
    ensures
        result is Some <==> has_ratio_candidate(keys@),
        result matches Some(p) ==> {
            &&& p.index == argmin(keys@)
            &&& p.best_key == capped_min(keys@)
            &&& p.second_key == capped_min_except(keys@, argmin(keys@))
        },
{
    let mut best_index = usize::MAX;
    let mut best = INFINITY_KEY;
    let mut second = INFINITY_KEY;
    let mut i: usize = 0;
    while i < keys.len()
        invariant
            i <= keys.len(),
            best == capped_min(keys@.take(i as int)),
            second == capped_min_except(keys@.take(i as int), argmin(keys@.take(i as int))),
            argmin(keys@.take(i as int)) == -1 ==> best_index == usize::MAX,
            argmin(keys@.take(i as int)) != -1 ==> best_index == argmin(keys@.take(i as int)),
            -1 <= argmin(keys@.take(i as int)) < i,
            best_index == usize::MAX <==> best == INFINITY_KEY,
        decreases keys.len() - i,
    {
        let d = keys[i];
        let ghost prefix = keys@.take(i as int);
        let ghost next = keys@.take(i as int + 1);
        proof {
            assert(next.drop_last() =~= prefix);
            assert(next.last() == d);
            lemma_two_nearest(prefix);
        }
        if d < best {
            proof {
                lemma_except_outside(prefix, i as int);
                assert(argmin(next) == i);
            }
            second = best;
            best = d;
            best_index = i;
        } else if d < second {
            second = d;
        }
        i += 1;
    }
    proof {
        assert(keys@.take(keys.len() as int) =~= keys@);
    }
    if best_index == usize::MAX || best >= INFINITY_KEY || second >= INFINITY_KEY
        || second <= EPSILON_KEY {
        None
    } else {
        Some(NearestPair { index: best_index, best_key: best, second_key: second })
    }
}

} // verus!
