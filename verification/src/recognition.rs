//! Generalized Hough clustering of descriptor matches and model bookkeeping.

use vstd::arithmetic::div_mod::{lemma_fundamental_div_mod, lemma_mod_multiples_vanish, lemma_small_mod};
use vstd::prelude::*;

use crate::geometry::GeometryError;

verus! {

/// Metadata for a feature in the flattened model-database train set.
#[derive(Clone, Copy, Debug, PartialEq, Eq, Hash, Structural)]
pub struct ModelFeatureRecord {
    /// Identifier of the model that owns this feature.
    pub model_id: u32,
    /// Index of the model in the database's model list.
    pub model_index: usize,
    /// Index of the feature within the owning model.
    pub feature_index: usize,
}

/// A generalized-Hough accumulator bin.
#[derive(Clone, Copy, Debug, PartialEq, Eq, Hash, Structural)]
pub struct HoughBin {
    /// Identifier of the voted model.
    pub model_id: u32,
    /// Discrete x-location bin.
    pub x_bin: i32,
    /// Discrete y-location bin.
    pub y_bin: i32,
    /// Discrete log-scale bin.
    pub scale_bin: i32,
    /// Discrete orientation bin.
    pub orientation_bin: i32,
}

/// One vote of one match into one accumulator bin.
#[derive(Clone, Copy, Debug, PartialEq, Eq, Structural)]
pub struct HoughVote {
    /// The bin voted for.
    pub bin: HoughBin,
    /// Index of the voting match in the match slice.
    pub match_index: usize,
}

/// A cluster of matches that voted for one accumulator bin.
#[derive(Debug)]
pub struct VoteCluster {
    /// Identifier of the model supported by this cluster.
    pub model_id: u32,
    /// Accumulator bin that produced the cluster.
    pub bin: HoughBin,
    /// Distinct indices of the matches that voted for the bin, increasing.
    pub match_indices: Vec<usize>,
    /// Number of distinct matches in the cluster.
    pub votes: usize,
}

/// Errors returned by object-recognition helpers.
#[derive(Clone, Debug, PartialEq)]
pub enum RecognitionError {
    /// A model identifier was used more than once in a database.
    DuplicateModelId(u32),
    /// A model has a non-finite or non-positive image extent.
    InvalidModelDimension {
        /// Identifier of the invalid model.
        model_id: u32,
    },
    /// A matched keypoint has a non-finite or non-positive scale.
    InvalidFeatureScale,
    /// A match referenced a missing query or train feature.
    MatchIndexOutOfBounds,
    /// Internal model metadata referenced a missing model.
    ModelIndexOutOfBounds,
    /// A configuration field was invalid.
    InvalidConfig(&'static str),
    /// Affine estimation failed during geometric verification.
    Geometry(GeometryError),
}

/// Euclidean remainder of `value` by a positive `modulus`, in `[0, modulus)`.
pub fn positive_mod(value: i32, modulus: i32) -> (result: i32)
    requires
        modulus > 0,
        value >= 0 ==> value % modulus + modulus <= i32::MAX,
    ensures
        result == value % modulus,
        0 <= result < modulus,
{
    let r = value % modulus;
    let result = (r + modulus) % modulus;
    proof {
        let m = modulus as int;
        if value >= 0 {
            assert(r == value % modulus);
            lemma_mod_multiples_vanish(1, r as int, m);
            lemma_small_mod(r as nat, m as nat);
        } else {
            let a = -(value as int);
            let q = a % m;
            assert(r == -q);
            lemma_fundamental_div_mod(a, m);
            // value + m * (a / m + 1) == m - q
            assert(value == m * (-(a / m) - 1) + (m - q)) by (nonlinear_arith)
                requires a == -(value as int), a == m * (a / m) + q;
            lemma_mod_multiples_vanish(-(a / m) - 1, m - q, m);
            lemma_mod_multiples_vanish(0, r + m, m);
            if q == 0 {
                lemma_mod_multiples_vanish(1, 0, m);
            } else {
                lemma_small_mod((m - q) as nat, m as nat);
            }
        }
    }
    result
}

} // verus!

verus! {

/// A sequence of indices in strictly increasing order (sorted, no repeats).
pub open spec fn strictly_increasing(s: Seq<usize>) -> bool {
    forall|i: int, j: int| 0 <= i < j < s.len() ==> s[i] < s[j]
}

/// Inserts `x` into the strictly increasing `t`, keeping it sorted; an element already
/// present is not added again.
pub open spec fn insert_member(t: Seq<usize>, x: usize) -> Seq<usize>
    decreases t.len(),
{
    if t.len() == 0 {
        seq![x]
    } else if t.last() == x {
        t
    } else if t.last() < x {
        t.push(x)
    } else {
        insert_member(t.drop_last(), x).push(t.last())
    }
}

/// The distinct elements of `s` in increasing order.
pub open spec fn sorted_members(s: Seq<usize>) -> Seq<usize>
    decreases s.len(),
{
    if s.len() == 0 {
        seq![]
    } else {
        insert_member(sorted_members(s.drop_last()), s.last())
    }
}

proof fn lemma_insert_member(t: Seq<usize>, x: usize)
    requires
        strictly_increasing(t),
    ensures
        strictly_increasing(insert_member(t, x)),
        forall|y: usize| #[trigger] insert_member(t, x).contains(y) <==> (t.contains(y) || y == x),
    decreases t.len(),
{
    if t.len() == 0 {
        assert(insert_member(t, x) =~= seq![x]);
        assert forall|y: usize| #[trigger] insert_member(t, x).contains(y) <==> (t.contains(y) || y == x) by {
            if y == x { assert(seq![x][0] == y); }
        }
    } else if t.last() == x {
        assert(t.contains(x)) by { assert(t[t.len() - 1] == x); }
    } else if t.last() < x {
        let r = t.push(x);
        assert forall|y: usize| r.contains(y) <==> (t.contains(y) || y == x) by {
            if r.contains(y) {
                let k = choose|k: int| 0 <= k < r.len() && r[k] == y;
                if k < t.len() { assert(t[k] == y); }
            }
            if t.contains(y) {
                let k = choose|k: int| 0 <= k < t.len() && t[k] == y;
                assert(r[k] == y);
            }
            if y == x { assert(r[t.len() as int] == y); }
        }
    } else {
        let d = t.drop_last();
        assert(strictly_increasing(d));
        lemma_insert_member(d, x);
        let m = insert_member(d, x);
        let r = m.push(t.last());
        assert(insert_member(t, x) == r);
        assert forall|y: usize| r.contains(y) <==> (t.contains(y) || y == x) by {
            if r.contains(y) {
                let k = choose|k: int| 0 <= k < r.len() && r[k] == y;
                if k < m.len() {
                    assert(m.contains(y));
                    if d.contains(y) {
                        let q = choose|q: int| 0 <= q < d.len() && d[q] == y;
                        assert(t[q] == y);
                    }
                } else {
                    assert(t[t.len() - 1] == y);
                }
            }
            if t.contains(y) {
                let k = choose|k: int| 0 <= k < t.len() && t[k] == y;
                if k < d.len() {
                    assert(d[k] == y);
                    assert(m.contains(y));
                    let q = choose|q: int| 0 <= q < m.len() && m[q] == y;
                    assert(r[q] == y);
                } else {
                    assert(r[m.len() as int] == y);
                }
            }
            if y == x {
                assert(m.contains(y));
                let q = choose|q: int| 0 <= q < m.len() && m[q] == y;
                assert(r[q] == y);
            }
        }
        assert forall|i: int, j: int| 0 <= i < j < r.len() implies r[i] < r[j] by {
            if j == r.len() - 1 {
                assert(m.contains(r[i]));
                assert(d.contains(r[i]) || r[i] == x);
                if d.contains(r[i]) {
                    let q = choose|q: int| 0 <= q < d.len() && d[q] == r[i];
                    assert(t[q] == r[i]);
                }
            }
        }
    }
}

/// `sorted_members(s)` is strictly increasing and holds exactly the elements of `s`.
pub proof fn lemma_sorted_members(s: Seq<usize>)
    ensures
        strictly_increasing(sorted_members(s)),
        forall|y: usize| #[trigger] sorted_members(s).contains(y) <==> s.contains(y),
    decreases s.len(),
{
    if s.len() > 0 {
        let d = s.drop_last();
        lemma_sorted_members(d);
        lemma_insert_member(sorted_members(d), s.last());
        assert forall|y: usize| sorted_members(s).contains(y) <==> s.contains(y) by {
            if d.contains(y) {
                let k = choose|k: int| 0 <= k < d.len() && d[k] == y;
                assert(s[k] == y);
            }
            if s.contains(y) {
                let k = choose|k: int| 0 <= k < s.len() && s[k] == y;
                if k < d.len() { assert(d[k] == y); }
            }
            if y == s.last() { assert(s[s.len() - 1] == y); }
        }
    }
}

/// Inserting at a position `p` that splits `t` into elements `<= x` and elements `> x`.
proof fn lemma_insert_member_at(t: Seq<usize>, x: usize, p: int)
    requires
        strictly_increasing(t),
        0 <= p <= t.len(),
        forall|j: int| p <= j < t.len() ==> t[j] > x,
        p == 0 || t[p - 1] <= x,
    ensures
        insert_member(t, x) == (if p > 0 && t[p - 1] == x {
            t
        } else {
            t.take(p).push(x) + t.skip(p)
        }),
    decreases t.len(),
{
    if t.len() == 0 {
        assert(t.take(p).push(x) + t.skip(p) =~= seq![x]);
    } else if p == t.len() {
        if t.last() != x {
            assert(t.take(p).push(x) + t.skip(p) =~= t.push(x));
        }
    } else {
        let d = t.drop_last();
        lemma_insert_member_at(d, x, p);
        if p > 0 && t[p - 1] == x {
            assert(d[p - 1] == x);
            assert(d.push(t.last()) =~= t);
        } else {
            assert(d.take(p).push(x) + d.skip(p) + seq![t.last()] =~= t.take(p).push(x) + t.skip(p));
        }
    }
}

/// Returns the distinct indices of `indices` in increasing order.
pub fn sorted_unique(indices: &[usize]) -> (result: Vec<usize>)
    ensures
        result@ == sorted_members(indices@),
        strictly_increasing(result@),
        forall|y: usize| result@.contains(y) <==> indices@.contains(y),
{
    let mut result: Vec<usize> = Vec::new();
    let mut i: usize = 0;
    while i < indices.len()
        invariant
            i <= indices.len(),
            result@ == sorted_members(indices@.take(i as int)),
            strictly_increasing(result@),
        decreases indices.len() - i,
    {
        let x = indices[i];
        let mut p = result.len();
        while p > 0 && result[p - 1] > x
            invariant
                p <= result.len(),
                forall|j: int| p <= j < result.len() ==> result@[j] > x,
            decreases p,
        {
            p -= 1;
        }
        proof {
            let prefix = indices@.take(i as int + 1);
            assert(prefix.drop_last() =~= indices@.take(i as int));
            assert(prefix.last() == x);
            lemma_insert_member_at(result@, x, p as int);
            lemma_insert_member(result@, x);
        }
        if !(p > 0 && result[p - 1] == x) {
            let ghost before = result@;
            result.insert(p, x);
            proof {
                assert(result@ =~= before.take(p as int).push(x) + before.skip(p as int));
            }
        }
        i += 1;
    }
    proof {
        assert(indices@.take(indices.len() as int) =~= indices@);
        lemma_sorted_members(indices@);
    }
    result
}

} // verus!

verus! {

/// The votes grouped by bin: one entry per distinct bin, in the order in which the bins
/// first receive a vote, each with the match indices of its votes in vote order.
pub open spec fn vote_groups(votes: Seq<HoughVote>) -> Seq<(HoughBin, Seq<usize>)>
    decreases votes.len(),
{
    if votes.len() == 0 {
        seq![]
    } else {
        let groups = vote_groups(votes.drop_last());
        let v = votes.last();
        if exists|i: int| 0 <= i < groups.len() && groups[i].0 == v.bin {
            let i = choose|i: int| 0 <= i < groups.len() && groups[i].0 == v.bin;
            groups.update(i, (v.bin, groups[i].1.push(v.match_index)))
        } else {
            groups.push((v.bin, seq![v.match_index]))
        }
    }
}

/// The bins of `vote_groups` are pairwise distinct.
pub proof fn lemma_vote_groups_distinct(votes: Seq<HoughVote>)
    ensures
        forall|i: int, j: int|
            0 <= i < j < vote_groups(votes).len() ==> vote_groups(votes)[i].0 != vote_groups(
                votes,
            )[j].0,
    decreases votes.len(),
{
    if votes.len() > 0 {
        let d = votes.drop_last();
        lemma_vote_groups_distinct(d);
        let groups = vote_groups(d);
        let v = votes.last();
        if exists|i: int| 0 <= i < groups.len() && groups[i].0 == v.bin {
            let c = choose|i: int| 0 <= i < groups.len() && groups[i].0 == v.bin;
            let r = groups.update(c, (v.bin, groups[c].1.push(v.match_index)));
            assert(vote_groups(votes) == r);
            assert forall|i: int, j: int| 0 <= i < j < r.len() implies r[i].0 != r[j].0 by {
                assert(r[i].0 == groups[i].0);
                assert(r[j].0 == groups[j].0);
            }
        } else {
            let r = groups.push((v.bin, seq![v.match_index]));
            assert(vote_groups(votes) == r);
            assert forall|i: int, j: int| 0 <= i < j < r.len() implies r[i].0 != r[j].0 by {
                if j == r.len() - 1 {
                    assert(r[i] == groups[i]);
                }
            }
        }
    }
}

/// The groups whose distinct members reach `min_votes`, with their members sorted,
/// skipping a group whose model and member set equal those of a group already kept.
pub open spec fn kept_clusters(groups: Seq<(HoughBin, Seq<usize>)>, min_votes: nat) -> Seq<
    (HoughBin, Seq<usize>),
>
    decreases groups.len(),
{
    if groups.len() == 0 {
        seq![]
    } else {
        let kept = kept_clusters(groups.drop_last(), min_votes);
        let g = groups.last();
        let members = sorted_members(g.1);
        if members.len() >= min_votes && !has_cluster(kept, g.0.model_id, members) {
            kept.push((g.0, members))
        } else {
            kept
        }
    }
}

/// Whether `clusters` already holds a cluster of `model_id` with exactly `members`.
pub open spec fn has_cluster(clusters: Seq<(HoughBin, Seq<usize>)>, model_id: u32, members: Seq<usize>) -> bool {
    exists|i: int| 0 <= i < clusters.len() && #[trigger] clusters[i].0.model_id == model_id && clusters[i].1 == members
}

/// Cluster order: more votes first, then smaller model id, x bin and y bin.
pub open spec fn cluster_precedes(a: (HoughBin, Seq<usize>), b: (HoughBin, Seq<usize>)) -> bool {
    ||| a.1.len() > b.1.len()
    ||| a.1.len() == b.1.len() && a.0.model_id < b.0.model_id
    ||| a.1.len() == b.1.len() && a.0.model_id == b.0.model_id && a.0.x_bin < b.0.x_bin
    ||| a.1.len() == b.1.len() && a.0.model_id == b.0.model_id && a.0.x_bin == b.0.x_bin
        && a.0.y_bin < b.0.y_bin
}

/// Inserts `x` into `s` after every element that `x` does not precede.
pub open spec fn insert_cluster(s: Seq<(HoughBin, Seq<usize>)>, x: (HoughBin, Seq<usize>)) -> Seq<
    (HoughBin, Seq<usize>),
>
    decreases s.len(),
{
    if s.len() == 0 || !cluster_precedes(x, s.last()) {
        s.push(x)
    } else {
        insert_cluster(s.drop_last(), x).push(s.last())
    }
}

/// Stable sort of clusters by `cluster_precedes`.
pub open spec fn sort_clusters(s: Seq<(HoughBin, Seq<usize>)>) -> Seq<(HoughBin, Seq<usize>)>
    decreases s.len(),
{
    if s.len() == 0 {
        s
    } else {
        insert_cluster(sort_clusters(s.drop_last()), s.last())
    }
}

/// The clusters that `votes` produce with at least `min_votes` distinct matches each.
pub open spec fn hough_clusters(votes: Seq<HoughVote>, min_votes: nat) -> Seq<
    (HoughBin, Seq<usize>),
> {
    sort_clusters(kept_clusters(vote_groups(votes), min_votes))
}

/// The bin and member sequence of a cluster.
pub open spec fn cluster_view(c: VoteCluster) -> (HoughBin, Seq<usize>) {
    (c.bin, c.match_indices@)
}

/// A cluster whose model id is its bin's and whose vote count is its member count.
pub open spec fn cluster_consistent(c: VoteCluster) -> bool {
    c.model_id == c.bin.model_id && c.votes == c.match_indices@.len()
}

proof fn lemma_insert_cluster_at(s: Seq<(HoughBin, Seq<usize>)>, x: (HoughBin, Seq<usize>), p: int)
    requires
        0 <= p <= s.len(),
        forall|j: int| p <= j < s.len() ==> cluster_precedes(x, s[j]),
        p == 0 || !cluster_precedes(x, s[p - 1]),
    ensures
        insert_cluster(s, x) == s.take(p).push(x) + s.skip(p),
    decreases s.len(),
{
    if s.len() == 0 {
        assert(s.take(p).push(x) + s.skip(p) =~= seq![x]);
    } else if p == s.len() {
        assert(s.take(p).push(x) + s.skip(p) =~= s.push(x));
    } else {
        let d = s.drop_last();
        lemma_insert_cluster_at(d, x, p);
        assert(d.take(p).push(x) + d.skip(p) + seq![s.last()] =~= s.take(p).push(x) + s.skip(p));
    }
}

proof fn lemma_insert_cluster_contains(s: Seq<(HoughBin, Seq<usize>)>, x: (HoughBin, Seq<usize>))
    ensures
        forall|y: (HoughBin, Seq<usize>)| #[trigger] insert_cluster(s, x).contains(y) <==> (s.contains(y) || y == x),
        insert_cluster(s, x).len() == s.len() + 1,
    decreases s.len(),
{
    if s.len() == 0 || !cluster_precedes(x, s.last()) {
        let r = s.push(x);
        assert forall|y: (HoughBin, Seq<usize>)| #[trigger] insert_cluster(s, x).contains(y) <==> (s.contains(y) || y == x) by {
            if r.contains(y) {
                let k = choose|k: int| 0 <= k < r.len() && r[k] == y;
                if k < s.len() { assert(s[k] == y); }
            }
            if s.contains(y) {
                let k = choose|k: int| 0 <= k < s.len() && s[k] == y;
                assert(r[k] == y);
            }
            if y == x { assert(r[s.len() as int] == y); }
        }
    } else {
        let d = s.drop_last();
        lemma_insert_cluster_contains(d, x);
        let m = insert_cluster(d, x);
        let r = m.push(s.last());
        assert forall|y: (HoughBin, Seq<usize>)| #[trigger] insert_cluster(s, x).contains(y) <==> (s.contains(y) || y == x) by {
            if r.contains(y) {
                let k = choose|k: int| 0 <= k < r.len() && r[k] == y;
                if k < m.len() {
                    assert(m.contains(y));
                    if d.contains(y) {
                        let q = choose|q: int| 0 <= q < d.len() && d[q] == y;
                        assert(s[q] == y);
                    }
                } else {
                    assert(s[s.len() - 1] == y);
                }
            }
            if s.contains(y) {
                let k = choose|k: int| 0 <= k < s.len() && s[k] == y;
                if k < d.len() {
                    assert(d[k] == y);
                    assert(d.contains(y));
                    assert(m.contains(y));
                    let q = choose|q: int| 0 <= q < m.len() && m[q] == y;
                    assert(r[q] == y);
                } else {
                    assert(r[m.len() as int] == y);
                }
            }
            if y == x {
                assert(m.contains(y));
                let q = choose|q: int| 0 <= q < m.len() && m[q] == y;
                assert(r[q] == y);
            }
        }
    }
}

/// Sorting keeps exactly the clusters it is given.
pub proof fn lemma_sort_clusters_contains(s: Seq<(HoughBin, Seq<usize>)>)
    ensures
        forall|y: (HoughBin, Seq<usize>)| #[trigger] sort_clusters(s).contains(y) <==> s.contains(y),
        sort_clusters(s).len() == s.len(),
    decreases s.len(),
{
    if s.len() > 0 {
        let d = s.drop_last();
        lemma_sort_clusters_contains(d);
        lemma_insert_cluster_contains(sort_clusters(d), s.last());
        assert forall|y: (HoughBin, Seq<usize>)| #[trigger] sort_clusters(s).contains(y) <==> s.contains(y) by {
            if d.contains(y) {
                let k = choose|k: int| 0 <= k < d.len() && d[k] == y;
                assert(s[k] == y);
            }
            if s.contains(y) {
                let k = choose|k: int| 0 <= k < s.len() && s[k] == y;
                if k < d.len() { assert(d[k] == y); assert(d.contains(y)); }
            }
            if y == s.last() { assert(s[s.len() - 1] == y); }
        }
    }
}

/// Returns whether two index lists are equal.
fn same_members(a: &Vec<usize>, b: &Vec<usize>) -> (r: bool)
    ensures
        r == (a@ == b@),
{
    if a.len() != b.len() {
        return false;
    }
    let mut i: usize = 0;
    while i < a.len()
        invariant
            a.len() == b.len(),
            i <= a.len(),
            forall|j: int| 0 <= j < i ==> a@[j] == b@[j],
        decreases a.len() - i,
    {
        if a[i] != b[i] {
            return false;
        }
        i += 1;
    }
    assert(a@ =~= b@);
    true
}

/// Returns whether `x` is ordered strictly before `y`.
fn precedes(x: &VoteCluster, y: &VoteCluster) -> (r: bool)
    requires
        cluster_consistent(*x),
        cluster_consistent(*y),
    ensures
        r == cluster_precedes(cluster_view(*x), cluster_view(*y)),
{
    if x.votes != y.votes {
        return x.votes > y.votes;
    }
    if x.bin.model_id != y.bin.model_id {
        return x.bin.model_id < y.bin.model_id;
    }
    if x.bin.x_bin != y.bin.x_bin {
        return x.bin.x_bin < y.bin.x_bin;
    }
    x.bin.y_bin < y.bin.y_bin
}

/// Groups Hough votes into clusters.
///
/// Votes for the same bin are collected; each bin keeps the distinct indices of its
/// voting matches in increasing order. Bins with fewer than `min_votes` distinct matches
/// are dropped, as is a bin whose model and match set repeat those of a bin kept before it
/// (bins are taken in the order in which they first receive a vote). The clusters are
/// returned stably sorted by descending vote count, then model id, x bin and y bin.
pub fn cluster_votes(votes: &[HoughVote], min_votes: usize) -> (clusters: Vec<VoteCluster>)
    ensures
        clusters@.len() == hough_clusters(votes@, min_votes as nat).len(),
        forall|i: int|
            0 <= i < clusters@.len() ==> cluster_view(#[trigger] clusters@[i]) == hough_clusters(
                votes@,
                min_votes as nat,
            )[i] && cluster_consistent(clusters@[i]),
{
    // Group the votes by bin.
    let mut bins: Vec<HoughBin> = Vec::new();
    let mut members: Vec<Vec<usize>> = Vec::new();
    let mut t: usize = 0;
    while t < votes.len()
        invariant
            t <= votes.len(),
            bins@.len() == members@.len(),
            bins@.len() == vote_groups(votes@.take(t as int)).len(),
            forall|i: int|
                0 <= i < bins@.len() ==> (bins@[i], members@[i]@) == #[trigger] vote_groups(
                    votes@.take(t as int),
                )[i],
        decreases votes.len() - t,
    {
        let v = votes[t];
        let ghost prefix = votes@.take(t as int + 1);
        let ghost groups = vote_groups(votes@.take(t as int));
        proof {
            assert(prefix.drop_last() =~= votes@.take(t as int));
            assert(prefix.last() == v);
            lemma_vote_groups_distinct(votes@.take(t as int));
        }
        let mut found: usize = 0;
        while found < bins.len() && bins[found] != v.bin
            invariant
                found <= bins.len(),
                forall|k: int| 0 <= k < found ==> bins@[k] != v.bin,
            decreases bins.len() - found,
        {
            found += 1;
        }
        if found < bins.len() {
            proof {
                assert(groups[found as int].0 == v.bin);
                let c = choose|i: int| 0 <= i < groups.len() && groups[i].0 == v.bin;
                assert(c == found as int);
            }
            members[found].push(v.match_index);
            bins.set(found, v.bin);
        } else {
            proof {
                assert forall|i: int| 0 <= i < groups.len() implies groups[i].0 != v.bin by {
                    assert(groups[i].0 == bins@[i]);
                }
            }
            bins.push(v.bin);
            members.push(vec![v.match_index]);
        }
        proof {
            let g2 = vote_groups(prefix);
            assert forall|i: int| 0 <= i < bins@.len() implies (bins@[i], members@[i]@) == #[trigger] g2[i] by {
            }
        }
        t += 1;
    }
    proof {
        assert(votes@.take(votes.len() as int) =~= votes@);
    }
    let ghost groups = vote_groups(votes@);
    let ghost min = min_votes as nat;
    // Keep the bins with enough distinct matches, sorting as they are kept.
    let mut result: Vec<VoteCluster> = Vec::new();
    let mut g: usize = 0;
    while g < bins.len()
        invariant
            min == min_votes as nat,
            g <= bins.len(),
            bins@.len() == members@.len(),
            bins@.len() == groups.len(),
            forall|i: int| 0 <= i < bins@.len() ==> (bins@[i], members@[i]@) == #[trigger] groups[i],
            result@.len() == sort_clusters(kept_clusters(groups.take(g as int), min)).len(),
            forall|i: int|
                0 <= i < result@.len() ==> cluster_view(#[trigger] result@[i]) == sort_clusters(
                    kept_clusters(groups.take(g as int), min),
                )[i] && cluster_consistent(result@[i]),
        decreases bins.len() - g,
    {
        let ghost kept = kept_clusters(groups.take(g as int), min);
        let ghost sorted_view = sort_clusters(kept);
        let ghost next_kept = kept_clusters(groups.take(g as int + 1), min);
        proof {
            let next = groups.take(g as int + 1);
            assert(next.drop_last() =~= groups.take(g as int));
            assert(next.last() == groups[g as int]);
            lemma_sort_clusters_contains(kept);
        }
        let bin = bins[g];
        let sorted = sorted_unique(members[g].as_slice());
        proof {
            assert(groups[g as int] == (bin, members@[g as int]@));
            assert(members[g as int]@ == members@[g as int]@);
            let next = groups.take(g as int + 1);
            assert(next.len() > 0);
            assert(next.drop_last() =~= groups.take(g as int));
            assert(kept_clusters(next.drop_last(), min) == kept);
            assert(next.last() == (bin, members@[g as int]@));
            assert(sorted_members(next.last().1) == sorted@);
        }
        if sorted.len() >= min_votes {
            let mut k: usize = 0;
            while k < result.len() && !(result[k].bin.model_id == bin.model_id && same_members(
                &result[k].match_indices,
                &sorted,
            ))
                invariant
                    k <= result.len(),
                    forall|q: int|
                        0 <= q < k ==> !(result@[q].bin.model_id == bin.model_id
                            && result@[q].match_indices@ == sorted@),
                decreases result.len() - k,
            {
                k += 1;
            }
            let duplicate = k < result.len();
            proof {
                if duplicate {
                    let y = sorted_view[k as int];
                    assert(sorted_view.contains(y));
                    assert(kept.contains(y));
                    let q = choose|q: int| 0 <= q < kept.len() && kept[q] == y;
                    assert(kept[q].0.model_id == bin.model_id && kept[q].1 == sorted@);
                    assert(has_cluster(kept, bin.model_id, sorted@));
                } else {
                    assert forall|q: int| 0 <= q < kept.len() implies !(kept[q].0.model_id
                        == bin.model_id && kept[q].1 == sorted@) by {
                        let y = kept[q];
                        assert(kept.contains(y));
                        assert(sorted_view.contains(y));
                        let r = choose|r: int| 0 <= r < sorted_view.len() && sorted_view[r] == y;
                        assert(cluster_view(result@[r]) == y);
                        assert(!(result@[r].bin.model_id == bin.model_id
                            && result@[r].match_indices@ == sorted@));
                    }
                    assert(!has_cluster(kept, bin.model_id, sorted@));
                }
            }
            proof {
                if duplicate {
                    assert(next_kept == kept);
                }
            }
            if !duplicate {
                let votes_count = sorted.len();
                let cluster = VoteCluster {
                    model_id: bin.model_id,
                    bin,
                    match_indices: sorted,
                    votes: votes_count,
                };
                let ghost x = cluster_view(cluster);
                let mut p = result.len();
                let mut moving = true;
                while moving
                    invariant
                        p <= result.len(),
                        x == cluster_view(cluster),
                        cluster_consistent(cluster),
                        forall|i: int| 0 <= i < result@.len() ==> cluster_consistent(#[trigger] result@[i]),
                        forall|j: int| p <= j < result@.len() ==> cluster_precedes(x, cluster_view(#[trigger] result@[j])),
                        !moving ==> (p == 0 || !cluster_precedes(x, cluster_view(result@[p - 1]))),
                    decreases p + (if moving { 1int } else { 0int }),
                {
                    if p == 0 {
                        moving = false;
                    } else if precedes(&cluster, &result[p - 1]) {
                        p -= 1;
                    } else {
                        moving = false;
                    }
                }
                proof {
                    assert forall|j: int| p <= j < sorted_view.len() implies cluster_precedes(x, sorted_view[j]) by {
                        assert(cluster_view(result@[j]) == sorted_view[j]);
                    }
                    if p > 0 {
                        assert(cluster_view(result@[p - 1]) == sorted_view[p - 1]);
                    }
                    lemma_insert_cluster_at(sorted_view, x, p as int);
                    assert(next_kept == kept.push(x));
                    assert(kept.push(x).drop_last() =~= kept);
                    assert(sort_clusters(next_kept) == insert_cluster(sorted_view, x));
                }
                let ghost before = result@;
                result.insert(p, cluster);
                proof {
                    assert(result@ =~= before.take(p as int).push(cluster) + before.skip(p as int));
                    let target = sorted_view.take(p as int).push(x) + sorted_view.skip(p as int);
                    assert forall|i: int| 0 <= i < result@.len() implies cluster_view(#[trigger] result@[i]) == target[i]
                        && cluster_consistent(result@[i]) by {
                        if i > p { assert(result@[i] == before[i - 1]); }
                        if i < p { assert(result@[i] == before[i]); }
                    }
                }
            }
        }
        proof {
            if sorted.len() < min_votes {
                assert(next_kept == kept);
            }
        }
        g += 1;
    }
    proof {
        assert(groups.take(groups.len() as int) =~= groups);
    }
    result
}


/// Clusters in the order of `cluster_precedes`: no cluster precedes an earlier one.
pub open spec fn clusters_sorted(s: Seq<(HoughBin, Seq<usize>)>) -> bool {
    forall|i: int, j: int| 0 <= i < j < s.len() ==> !cluster_precedes(s[j], s[i])
}

/// No two clusters share both model id and member sequence.
pub open spec fn clusters_distinct(s: Seq<(HoughBin, Seq<usize>)>) -> bool {
    forall|i: int, j: int|
        0 <= i < j < s.len() ==> !(s[i].0.model_id == s[j].0.model_id && s[i].1 == s[j].1)
}

/// A match belongs to a group exactly when it voted for the group's bin, and every vote
/// has its bin among the groups.
proof fn lemma_vote_groups_members(votes: Seq<HoughVote>)
    ensures
        forall|j: int, m: usize|
            0 <= j < vote_groups(votes).len() ==> (#[trigger] vote_groups(votes)[j].1.contains(m)
                <==> exists|k: int|
                0 <= k < votes.len() && votes[k].bin == vote_groups(votes)[j].0
                    && votes[k].match_index == m),
        forall|k: int|
            0 <= k < votes.len() ==> exists|j: int|
                0 <= j < vote_groups(votes).len() && vote_groups(votes)[j].0 == #[trigger] votes[k].bin,
    decreases votes.len(),
{
    if votes.len() > 0 {
        let d = votes.drop_last();
        lemma_vote_groups_members(d);
        lemma_vote_groups_distinct(d);
        let groups = vote_groups(d);
        let v = votes.last();
        let r = vote_groups(votes);
        let n = votes.len() - 1;
        if exists|i: int| 0 <= i < groups.len() && groups[i].0 == v.bin {
            let c = choose|i: int| 0 <= i < groups.len() && groups[i].0 == v.bin;
            assert(r == groups.update(c, (v.bin, groups[c].1.push(v.match_index))));
            assert forall|j: int, m: usize| 0 <= j < r.len() implies (#[trigger] r[j].1.contains(m)
                <==> exists|k: int| 0 <= k < votes.len() && votes[k].bin == r[j].0 && votes[k].match_index == m) by {
                if j == c {
                    let old_m = groups[c].1;
                    let new_m = old_m.push(v.match_index);
                    if new_m.contains(m) {
                        let q = choose|q: int| 0 <= q < new_m.len() && new_m[q] == m;
                        if q < old_m.len() {
                            assert(old_m[q] == m);
                            assert(old_m.contains(m));
                            let k = choose|k: int| 0 <= k < d.len() && d[k].bin == groups[c].0 && d[k].match_index == m;
                            assert(votes[k] == d[k]);
                        } else {
                            assert(votes[n] == v);
                        }
                    }
                    if exists|k: int| 0 <= k < votes.len() && votes[k].bin == r[j].0 && votes[k].match_index == m {
                        let k = choose|k: int| 0 <= k < votes.len() && votes[k].bin == r[j].0 && votes[k].match_index == m;
                        if k < n {
                            assert(d[k] == votes[k]);
                            assert(old_m.contains(m));
                            let q = choose|q: int| 0 <= q < old_m.len() && old_m[q] == m;
                            assert(new_m[q] == m);
                        } else {
                            assert(new_m[old_m.len() as int] == m);
                        }
                    }
                } else {
                    assert(r[j] == groups[j]);
                    if groups[j].1.contains(m) {
                        let k = choose|k: int| 0 <= k < d.len() && d[k].bin == groups[j].0 && d[k].match_index == m;
                        assert(votes[k] == d[k]);
                    }
                    if exists|k: int| 0 <= k < votes.len() && votes[k].bin == r[j].0 && votes[k].match_index == m {
                        let k = choose|k: int| 0 <= k < votes.len() && votes[k].bin == r[j].0 && votes[k].match_index == m;
                        if k < n {
                            assert(d[k] == votes[k]);
                        } else {
                            assert(groups[c].0 == groups[j].0);
                        }
                    }
                }
            }
            assert forall|k: int| 0 <= k < votes.len() implies exists|j: int|
                0 <= j < r.len() && r[j].0 == #[trigger] votes[k].bin by {
                if k < n {
                    assert(d[k] == votes[k]);
                    let j = choose|j: int| 0 <= j < groups.len() && groups[j].0 == d[k].bin;
                    assert(r[j].0 == groups[j].0);
                } else {
                    assert(r[c].0 == v.bin);
                }
            }
        } else {
            assert(r == groups.push((v.bin, seq![v.match_index])));
            let last = groups.len() as int;
            assert forall|j: int, m: usize| 0 <= j < r.len() implies (#[trigger] r[j].1.contains(m)
                <==> exists|k: int| 0 <= k < votes.len() && votes[k].bin == r[j].0 && votes[k].match_index == m) by {
                if j == last {
                    if r[j].1.contains(m) {
                        assert(seq![v.match_index][0] == m);
                        assert(votes[n] == v);
                    }
                    if exists|k: int| 0 <= k < votes.len() && votes[k].bin == r[j].0 && votes[k].match_index == m {
                        let k = choose|k: int| 0 <= k < votes.len() && votes[k].bin == r[j].0 && votes[k].match_index == m;
                        if k < n {
                            assert(d[k] == votes[k]);
                            let q = choose|q: int| 0 <= q < groups.len() && groups[q].0 == d[k].bin;
                            assert(false);
                        } else {
                            assert(r[j].1[0] == m);
                        }
                    }
                } else {
                    assert(r[j] == groups[j]);
                    if groups[j].1.contains(m) {
                        let k = choose|k: int| 0 <= k < d.len() && d[k].bin == groups[j].0 && d[k].match_index == m;
                        assert(votes[k] == d[k]);
                    }
                    if exists|k: int| 0 <= k < votes.len() && votes[k].bin == r[j].0 && votes[k].match_index == m {
                        let k = choose|k: int| 0 <= k < votes.len() && votes[k].bin == r[j].0 && votes[k].match_index == m;
                        if k < n {
                            assert(d[k] == votes[k]);
                        }
                    }
                }
            }
            assert forall|k: int| 0 <= k < votes.len() implies exists|j: int|
                0 <= j < r.len() && r[j].0 == #[trigger] votes[k].bin by {
                if k < n {
                    assert(d[k] == votes[k]);
                    let j = choose|j: int| 0 <= j < groups.len() && groups[j].0 == d[k].bin;
                    assert(r[j].0 == groups[j].0);
                } else {
                    assert(r[last].0 == v.bin);
                }
            }
        }
    }
}

/// Every kept cluster comes from a group and reaches `min_votes`; kept clusters are distinct.
proof fn lemma_kept_clusters(groups: Seq<(HoughBin, Seq<usize>)>, min_votes: nat)
    ensures
        clusters_distinct(kept_clusters(groups, min_votes)),
        forall|i: int|
            0 <= i < kept_clusters(groups, min_votes).len() ==> exists|j: int|
                0 <= j < groups.len() && (#[trigger] kept_clusters(groups, min_votes)[i]).0
                    == groups[j].0 && kept_clusters(groups, min_votes)[i].1 == sorted_members(
                    groups[j].1,
                ) && kept_clusters(groups, min_votes)[i].1.len() >= min_votes,
        forall|j: int|
            0 <= j < groups.len() && sorted_members(#[trigger] groups[j].1).len() >= min_votes
                ==> has_cluster(kept_clusters(groups, min_votes), groups[j].0.model_id, sorted_members(groups[j].1)),
    decreases groups.len(),
{
    if groups.len() > 0 {
        let d = groups.drop_last();
        lemma_kept_clusters(d, min_votes);
        let kept = kept_clusters(d, min_votes);
        let r = kept_clusters(groups, min_votes);
        let g = groups.last();
        let members = sorted_members(g.1);
        assert forall|i: int| 0 <= i < r.len() implies exists|j: int|
            0 <= j < groups.len() && (#[trigger] r[i]).0 == groups[j].0 && r[i].1 == sorted_members(groups[j].1)
                && r[i].1.len() >= min_votes by {
            if i < kept.len() {
                assert(r[i] == kept[i]);
                let j = choose|j: int| 0 <= j < d.len() && kept[i].0 == d[j].0 && kept[i].1 == sorted_members(d[j].1)
                    && kept[i].1.len() >= min_votes;
                assert(groups[j] == d[j]);
            } else {
                assert(r[i] == (g.0, members));
                assert(groups[groups.len() - 1] == g);
            }
        }
        if members.len() >= min_votes && !has_cluster(kept, g.0.model_id, members) {
            assert forall|i: int, j: int| 0 <= i < j < r.len() implies !(r[i].0.model_id == r[j].0.model_id && r[i].1 == r[j].1) by {
                if j == kept.len() {
                    assert(r[i] == kept[i]);
                }
            }
        }
        assert forall|j: int|
            0 <= j < groups.len() && sorted_members(#[trigger] groups[j].1).len() >= min_votes
                implies has_cluster(r, groups[j].0.model_id, sorted_members(groups[j].1)) by {
            if j < d.len() {
                assert(d[j] == groups[j]);
                assert(has_cluster(kept, d[j].0.model_id, sorted_members(d[j].1)));
                let i = choose|i: int| 0 <= i < kept.len() && #[trigger] kept[i].0.model_id == d[j].0.model_id && kept[i].1 == sorted_members(d[j].1);
                assert(r[i] == kept[i]);
            } else {
                assert(groups[j] == g);
                if !has_cluster(kept, g.0.model_id, members) {
                    assert(r[kept.len() as int] == (g.0, members));
                } else {
                    let i = choose|i: int| 0 <= i < kept.len() && #[trigger] kept[i].0.model_id == g.0.model_id && kept[i].1 == members;
                    assert(r[i] == kept[i]);
                }
            }
        }
    }
}

proof fn lemma_insert_cluster_sorted(s: Seq<(HoughBin, Seq<usize>)>, x: (HoughBin, Seq<usize>))
    requires
        clusters_sorted(s),
    ensures
        clusters_sorted(insert_cluster(s, x)),
    decreases s.len(),
{
    lemma_insert_cluster_contains(s, x);
    if s.len() == 0 || !cluster_precedes(x, s.last()) {
        let r = s.push(x);
        assert forall|i: int, j: int| 0 <= i < j < r.len() implies !cluster_precedes(r[j], r[i]) by {
            if j == s.len() {
                assert(r[i] == s[i]);
                if i < s.len() - 1 {
                    assert(!cluster_precedes(s[s.len() - 1], s[i]));
                }
            }
        }
    } else {
        let d = s.drop_last();
        lemma_insert_cluster_sorted(d, x);
        lemma_insert_cluster_contains(d, x);
        let m = insert_cluster(d, x);
        let r = m.push(s.last());
        assert forall|i: int, j: int| 0 <= i < j < r.len() implies !cluster_precedes(r[j], r[i]) by {
            if j == m.len() {
                let e = m[i];
                assert(m.contains(e));
                if d.contains(e) {
                    let q = choose|q: int| 0 <= q < d.len() && d[q] == e;
                    assert(s[q] == e);
                    assert(!cluster_precedes(s[s.len() - 1], s[q]));
                }
            } else {
                assert(r[i] == m[i] && r[j] == m[j]);
            }
        }
    }
}

proof fn lemma_insert_cluster_distinct(s: Seq<(HoughBin, Seq<usize>)>, x: (HoughBin, Seq<usize>))
    requires
        clusters_distinct(s),
        !has_cluster(s, x.0.model_id, x.1),
    ensures
        clusters_distinct(insert_cluster(s, x)),
    decreases s.len(),
{
    lemma_insert_cluster_contains(s, x);
    if s.len() == 0 || !cluster_precedes(x, s.last()) {
        let r = s.push(x);
        assert forall|i: int, j: int| 0 <= i < j < r.len() implies !(r[i].0.model_id == r[j].0.model_id && r[i].1 == r[j].1) by {
            if j == s.len() {
                assert(r[i] == s[i]);
            }
        }
    } else {
        let d = s.drop_last();
        assert forall|i: int| 0 <= i < d.len() implies !(#[trigger] d[i].0.model_id == x.0.model_id && d[i].1 == x.1) by {
            assert(d[i] == s[i]);
        }
        lemma_insert_cluster_distinct(d, x);
        lemma_insert_cluster_contains(d, x);
        let m = insert_cluster(d, x);
        let r = m.push(s.last());
        let l = s.last();
        assert forall|i: int, j: int| 0 <= i < j < r.len() implies !(r[i].0.model_id == r[j].0.model_id && r[i].1 == r[j].1) by {
            if j == m.len() {
                let e = m[i];
                assert(m.contains(e));
                if d.contains(e) {
                    let q = choose|q: int| 0 <= q < d.len() && d[q] == e;
                    assert(s[q] == e);
                    assert(s[s.len() - 1] == l);
                } else {
                    assert(e == x);
                    assert(s[s.len() - 1] == l);
                }
            } else {
                assert(r[i] == m[i] && r[j] == m[j]);
            }
        }
    }
}

proof fn lemma_sort_clusters_props(s: Seq<(HoughBin, Seq<usize>)>)
    requires
        clusters_distinct(s),
    ensures
        clusters_sorted(sort_clusters(s)),
        clusters_distinct(sort_clusters(s)),
    decreases s.len(),
{
    if s.len() > 0 {
        let d = s.drop_last();
        let x = s.last();
        assert forall|i: int, j: int| 0 <= i < j < d.len() implies !(d[i].0.model_id == d[j].0.model_id && d[i].1 == d[j].1) by {
            assert(d[i] == s[i] && d[j] == s[j]);
        }
        lemma_sort_clusters_props(d);
        lemma_sort_clusters_contains(d);
        let sd = sort_clusters(d);
        assert forall|i: int| 0 <= i < sd.len() implies !(#[trigger] sd[i].0.model_id == x.0.model_id && sd[i].1 == x.1) by {
            let e = sd[i];
            assert(sd.contains(e));
            let q = choose|q: int| 0 <= q < d.len() && d[q] == e;
            assert(s[q] == e);
            assert(s[s.len() - 1] == x);
        }
        lemma_insert_cluster_sorted(sd, x);
        lemma_insert_cluster_distinct(sd, x);
    }
}

/// Laws of Hough vote clustering: the clusters come in order (more votes first, then
/// model id, x bin, y bin); no two share model and match set; each has at least
/// `min_votes` matches, listed once each in increasing order; a match is in a
/// cluster exactly when it voted for that cluster's bin; and every bin whose voters
/// number at least `min_votes` is represented by a cluster of its model with exactly
/// its voters.
pub proof fn lemma_hough_clusters(votes: Seq<HoughVote>, min_votes: nat)
    ensures
        clusters_sorted(hough_clusters(votes, min_votes)),
        clusters_distinct(hough_clusters(votes, min_votes)),
        forall|i: int|
            0 <= i < hough_clusters(votes, min_votes).len() ==> {
                let c = #[trigger] hough_clusters(votes, min_votes)[i];
                &&& c.1.len() >= min_votes
                &&& strictly_increasing(c.1)
                &&& forall|m: usize|
                    c.1.contains(m) <==> exists|k: int|
                        0 <= k < votes.len() && votes[k].bin == c.0 && votes[k].match_index == m
            },
        forall|j: int|
            0 <= j < vote_groups(votes).len() && sorted_members(#[trigger] vote_groups(votes)[j].1).len()
                >= min_votes ==> has_cluster(
                hough_clusters(votes, min_votes),
                vote_groups(votes)[j].0.model_id,
                sorted_members(vote_groups(votes)[j].1),
            ),
{
    let groups = vote_groups(votes);
    let kept = kept_clusters(groups, min_votes);
    lemma_kept_clusters(groups, min_votes);
    lemma_sort_clusters_props(kept);
    lemma_sort_clusters_contains(kept);
    lemma_vote_groups_members(votes);
    let r = hough_clusters(votes, min_votes);
    assert forall|i: int| 0 <= i < r.len() implies {
        let c = #[trigger] r[i];
        &&& c.1.len() >= min_votes
        &&& strictly_increasing(c.1)
        &&& forall|m: usize|
            c.1.contains(m) <==> exists|k: int|
                0 <= k < votes.len() && votes[k].bin == c.0 && votes[k].match_index == m
    } by {
        let c = r[i];
        assert(r.contains(c));
        let q = choose|q: int| 0 <= q < kept.len() && kept[q] == c;
        let j = choose|j: int| 0 <= j < groups.len() && (#[trigger] kept[q]).0 == groups[j].0
            && kept[q].1 == sorted_members(groups[j].1) && kept[q].1.len() >= min_votes;
        lemma_sorted_members(groups[j].1);
        assert forall|m: usize| c.1.contains(m) <==> exists|k: int|
            0 <= k < votes.len() && votes[k].bin == c.0 && votes[k].match_index == m by {
            assert(c.1.contains(m) <==> groups[j].1.contains(m));
            assert(groups[j].1.contains(m) <==> exists|k: int|
                0 <= k < votes.len() && votes[k].bin == groups[j].0 && votes[k].match_index == m);
        }
    }
    assert forall|j: int|
        0 <= j < groups.len() && sorted_members(#[trigger] groups[j].1).len() >= min_votes
            implies has_cluster(r, groups[j].0.model_id, sorted_members(groups[j].1)) by {
        assert(has_cluster(kept, groups[j].0.model_id, sorted_members(groups[j].1)));
        let i = choose|i: int| 0 <= i < kept.len() && #[trigger] kept[i].0.model_id == groups[j].0.model_id && kept[i].1 == sorted_members(groups[j].1);
        let c = kept[i];
        assert(kept.contains(c));
        assert(r.contains(c));
        let q = choose|q: int| 0 <= q < r.len() && r[q] == c;
        assert(r[q].0.model_id == groups[j].0.model_id);
    }
}


/// The sixteen votes of one match: every combination of its two closest x, y, scale and
/// orientation bins, x varying slowest and orientation fastest.
pub open spec fn match_votes(
    model_id: u32,
    match_index: usize,
    x_bins: [i32; 2],
    y_bins: [i32; 2],
    scale_bins: [i32; 2],
    orientation_bins: [i32; 2],
) -> Seq<HoughVote> {
    Seq::new(
        16,
        |n: int|
            HoughVote {
                bin: HoughBin {
                    model_id,
                    x_bin: x_bins[n / 8],
                    y_bin: y_bins[(n / 4) % 2],
                    scale_bin: scale_bins[(n / 2) % 2],
                    orientation_bin: orientation_bins[n % 2],
                },
                match_index,
            },
    )
}

/// Position `8a + 4b + 2c + d` of the sixteen votes of a match combines x bin `a`, y bin
/// `b`, scale bin `c` and orientation bin `d`.
proof fn lemma_vote_position(a: int, b: int, c: int, d: int)
    requires
        0 <= a < 2,
        0 <= b < 2,
        0 <= c < 2,
        0 <= d < 2,
    ensures
        (8 * a + 4 * b + 2 * c + d) / 8 == a,
        ((8 * a + 4 * b + 2 * c + d) / 4) % 2 == b,
        ((8 * a + 4 * b + 2 * c + d) / 2) % 2 == c,
        (8 * a + 4 * b + 2 * c + d) % 2 == d,
{
    assert(0 <= 4 * b + 2 * c + d < 8);
    assert(0 <= 2 * c + d < 4);
}

/// Appends the sixteen votes of one match to `votes`.
pub fn push_match_votes(
    votes: &mut Vec<HoughVote>,
    model_id: u32,
    match_index: usize,
    x_bins: [i32; 2],
    y_bins: [i32; 2],
    scale_bins: [i32; 2],
    orientation_bins: [i32; 2],
)
    ensures
        final(votes)@ == old(votes)@ + match_votes(
            model_id,
            match_index,
            x_bins,
            y_bins,
            scale_bins,
            orientation_bins,
        ),
        final(votes)@.len() == old(votes)@.len() + 16,
        forall|i: int| 0 <= i < old(votes)@.len() ==> #[trigger] final(votes)@[i] == old(votes)@[i],
        forall|a: int, b: int, c: int, d: int|
            0 <= a < 2 && 0 <= b < 2 && 0 <= c < 2 && 0 <= d < 2 ==> #[trigger] final(votes)@[old(
                votes,
            )@.len() + 8 * a + 4 * b + 2 * c + d] == (HoughVote {
                bin: HoughBin {
                    model_id,
                    x_bin: x_bins[a],
                    y_bin: y_bins[b],
                    scale_bin: scale_bins[c],
                    orientation_bin: orientation_bins[d],
                },
                match_index,
            }),
{
    let ghost start = votes@;
    let ghost all = match_votes(model_id, match_index, x_bins, y_bins, scale_bins, orientation_bins);
    let mut n: usize = 0;
    while n < 16
        invariant
            n <= 16,
            all == match_votes(model_id, match_index, x_bins, y_bins, scale_bins, orientation_bins),
            votes@ == start + all.take(n as int),
        decreases 16 - n,
    {
        let bin = HoughBin {
            model_id,
            x_bin: x_bins[n / 8],
            y_bin: y_bins[(n / 4) % 2],
            scale_bin: scale_bins[(n / 2) % 2],
            orientation_bin: orientation_bins[n % 2],
        };
        votes.push(HoughVote { bin, match_index });
        proof {
            assert(all[n as int] == HoughVote { bin, match_index });
            assert(all.take(n as int + 1) =~= all.take(n as int).push(all[n as int]));
        }
        n += 1;
    }
    proof {
        assert(all.take(16) =~= all);
        assert forall|a: int, b: int, c: int, d: int|
            0 <= a < 2 && 0 <= b < 2 && 0 <= c < 2 && 0 <= d < 2 implies #[trigger] votes@[start.len()
                + 8 * a + 4 * b + 2 * c + d] == (HoughVote {
                bin: HoughBin {
                    model_id,
                    x_bin: x_bins[a],
                    y_bin: y_bins[b],
                    scale_bin: scale_bins[c],
                    orientation_bin: orientation_bins[d],
                },
                match_index,
            }) by {
            lemma_vote_position(a, b, c, d);
            let n = 8 * a + 4 * b + 2 * c + d;
            assert(votes@[start.len() + n] == all[n]);
        }
    }
}

/// What the model catalogue reads of one object model: its identifier, whether its
/// width and height are finite and positive, and how many features it holds.
#[derive(Clone, Copy, Debug, PartialEq, Eq, Structural)]
pub struct ModelSummary {
    /// Caller-defined object identifier.
    pub id: u32,
    /// Whether the model's width and height are both finite and positive.
    pub dimensions_valid: bool,
    /// Number of features of the model.
    pub feature_count: usize,
}

/// The records of the features of one model, in feature order.
pub open spec fn records_of_model(model: ModelSummary, model_index: int) -> Seq<ModelFeatureRecord> {
    Seq::new(
        model.feature_count as nat,
        |f: int|
            ModelFeatureRecord {
                model_id: model.id,
                model_index: model_index as usize,
                feature_index: f as usize,
            },
    )
}

/// The flattened feature records of all models, model after model.
pub open spec fn model_records(models: Seq<ModelSummary>) -> Seq<ModelFeatureRecord>
    decreases models.len(),
{
    if models.len() == 0 {
        seq![]
    } else {
        model_records(models.drop_last()) + records_of_model(models.last(), models.len() - 1)
    }
}

/// The first model, in order, with invalid dimensions or with an identifier used by an
/// earlier model, and the error it raises; `None` when there is none.
pub open spec fn catalogue_error(models: Seq<ModelSummary>) -> Option<RecognitionError>
    decreases models.len(),
{
    if models.len() == 0 {
        None
    } else {
        match catalogue_error(models.drop_last()) {
            Some(e) => Some(e),
            None => {
                let m = models.last();
                if !m.dimensions_valid {
                    Some(RecognitionError::InvalidModelDimension { model_id: m.id })
                } else if exists|j: int| 0 <= j < models.len() - 1 && #[trigger] models[j].id == m.id {
                    Some(RecognitionError::DuplicateModelId(m.id))
                } else {
                    None
                }
            },
        }
    }
}

proof fn lemma_catalogue_error_prefix(models: Seq<ModelSummary>, n: int)
    requires
        0 <= n <= models.len(),
        catalogue_error(models.take(n)) is Some,
    ensures
        catalogue_error(models) == catalogue_error(models.take(n)),
    decreases models.len() - n,
{
    if n < models.len() {
        let next = models.take(n + 1);
        assert(next.drop_last() =~= models.take(n));
        lemma_catalogue_error_prefix(models, n + 1);
    } else {
        assert(models.take(n) =~= models);
    }
}

/// Without an error, every model's dimensions are valid and no identifier repeats.
pub proof fn lemma_catalogue_valid(models: Seq<ModelSummary>)
    requires
        catalogue_error(models) is None,
    ensures
        forall|i: int| 0 <= i < models.len() ==> (#[trigger] models[i]).dimensions_valid,
        forall|i: int, j: int| 0 <= i < j < models.len() ==> models[i].id != models[j].id,
    decreases models.len(),
{
    if models.len() > 0 {
        let d = models.drop_last();
        lemma_catalogue_valid(d);
        assert forall|i: int| 0 <= i < models.len() implies (#[trigger] models[i]).dimensions_valid by {
            if i < d.len() { assert(d[i] == models[i]); }
        }
        assert forall|i: int, j: int| 0 <= i < j < models.len() implies models[i].id != models[j].id by {
            if j < d.len() {
                assert(d[i] == models[i] && d[j] == models[j]);
            } else {
                assert(!(models[i].id == models.last().id));
            }
        }
    }
}

/// The catalogue fails only for a reason, and always for one: it has no error exactly
/// when every model has valid dimensions and no identifier repeats; a reported duplicate
/// identifier is carried by two models; a reported invalid model has invalid dimensions.
pub proof fn lemma_catalogue_error_reasons(models: Seq<ModelSummary>)
    ensures
        catalogue_error(models) is None <==> {
            &&& forall|i: int| 0 <= i < models.len() ==> (#[trigger] models[i]).dimensions_valid
            &&& forall|i: int, j: int| 0 <= i < j < models.len() ==> models[i].id != models[j].id
        },
        catalogue_error(models) matches Some(RecognitionError::DuplicateModelId(id)) ==> exists|i: int, j: int|
            0 <= i < j < models.len() && #[trigger] models[i].id == id && #[trigger] models[j].id == id,
        catalogue_error(models) matches Some(RecognitionError::InvalidModelDimension { model_id }) ==> exists|i: int|
            0 <= i < models.len() && #[trigger] models[i].id == model_id && !models[i].dimensions_valid,
        catalogue_error(models) matches Some(e) ==> (e is DuplicateModelId || e is InvalidModelDimension),
    decreases models.len(),
{
    if models.len() > 0 {
        let d = models.drop_last();
        let n = models.len() - 1;
        let m = models.last();
        lemma_catalogue_error_reasons(d);
        assert(models[n] == m);
        assert forall|i: int| 0 <= i < d.len() implies #[trigger] d[i] == models[i] by {}
        match catalogue_error(d) {
            Some(e) => {
                if e is DuplicateModelId {
                    let id = e->DuplicateModelId_0;
                    let (i, j) = choose|i: int, j: int|
                        0 <= i < j < d.len() && #[trigger] d[i].id == id && #[trigger] d[j].id == id;
                    assert(models[i].id == id && models[j].id == id);
                }
                if e is InvalidModelDimension {
                    let id = e->model_id;
                    let i = choose|i: int| 0 <= i < d.len() && #[trigger] d[i].id == id && !d[i].dimensions_valid;
                    assert(models[i].id == id && !models[i].dimensions_valid);
                }
                if !(exists|i: int| 0 <= i < d.len() && !(#[trigger] d[i]).dimensions_valid) {
                    let (i, j) = choose|i: int, j: int| 0 <= i < j < d.len() && d[i].id == d[j].id;
                    assert(models[i].id == models[j].id);
                } else {
                    let i = choose|i: int| 0 <= i < d.len() && !(#[trigger] d[i]).dimensions_valid;
                    assert(!models[i].dimensions_valid);
                }
            },
            None => {
                if !m.dimensions_valid {
                } else if exists|j: int| 0 <= j < models.len() - 1 && #[trigger] models[j].id == m.id {
                    let j = choose|j: int| 0 <= j < models.len() - 1 && #[trigger] models[j].id == m.id;
                    assert(models[j].id == m.id && models[n].id == m.id);
                } else {
                    assert forall|i: int, j: int| 0 <= i < j < models.len() implies models[i].id != models[j].id by {
                        if j < n {
                            assert(d[i].id != d[j].id);
                        } else {
                            assert(!(models[i].id == m.id));
                        }
                    }
                    assert forall|i: int| 0 <= i < models.len() implies (#[trigger] models[i]).dimensions_valid by {
                        if i < n {
                            assert(d[i].dimensions_valid);
                        }
                    }
                }
            },
        }
    }
}

/// Each flattened record names a model that exists, carries that model's identifier, and
/// names a feature index within that model.
pub proof fn lemma_model_records(models: Seq<ModelSummary>)
    requires
        models.len() <= usize::MAX,
    ensures
        forall|k: int|
            0 <= k < model_records(models).len() ==> {
                let r = #[trigger] model_records(models)[k];
                &&& r.model_index < models.len()
                &&& r.model_id == models[r.model_index as int].id
                &&& r.feature_index < models[r.model_index as int].feature_count
            },
    decreases models.len(),
{
    if models.len() > 0 {
        let d = models.drop_last();
        lemma_model_records(d);
        let a = model_records(d);
        let b = records_of_model(models.last(), models.len() - 1);
        assert forall|k: int| 0 <= k < model_records(models).len() implies {
            let r = #[trigger] model_records(models)[k];
            &&& r.model_index < models.len()
            &&& r.model_id == models[r.model_index as int].id
            &&& r.feature_index < models[r.model_index as int].feature_count
        } by {
            if k < a.len() {
                let r = a[k];
                assert(model_records(models)[k] == r);
                assert(d[r.model_index as int] == models[r.model_index as int]);
            } else {
                assert(model_records(models)[k] == b[k - a.len()]);
                assert(b[k - a.len()].model_index as int == models.len() - 1);
                assert(models[models.len() - 1] == models.last());
            }
        }
    }
}

/// Flattens the features of `models` into records, after checking that every model has
/// valid dimensions and that no identifier is used twice (models are checked in order, the
/// dimension check of a model before its identifier).
pub fn catalogue_models(models: &[ModelSummary]) -> (result: Result<
    Vec<ModelFeatureRecord>,
    RecognitionError,
>)
    ensures
        match result {
            Ok(records) => catalogue_error(models@) is None && records@ == model_records(models@),
            Err(e) => catalogue_error(models@) == Some(e),
        },
        result is Ok <==> {
            &&& forall|i: int| 0 <= i < models.len() ==> (#[trigger] models@[i]).dimensions_valid
            &&& forall|i: int, j: int| 0 <= i < j < models.len() ==> models@[i].id != models@[j].id
        },
        result matches Err(RecognitionError::DuplicateModelId(id)) ==> exists|i: int, j: int|
            0 <= i < j < models.len() && #[trigger] models@[i].id == id && #[trigger] models@[j].id == id,
        result matches Err(RecognitionError::InvalidModelDimension { model_id }) ==> exists|i: int|
            0 <= i < models.len() && #[trigger] models@[i].id == model_id && !models@[i].dimensions_valid,
{
    broadcast use vstd::std_specs::hash::group_hash_axioms;

    let mut ids: std::collections::HashSet<u32> = std::collections::HashSet::new();
    let mut records: Vec<ModelFeatureRecord> = Vec::new();
    let mut i: usize = 0;
    while i < models.len()
        invariant
            i <= models.len(),
            catalogue_error(models@.take(i as int)) is None,
            records@ == model_records(models@.take(i as int)),
            forall|id: u32| ids@.contains(id) <==> exists|j: int| 0 <= j < i && #[trigger] models@[j].id == id,
        decreases models.len() - i,
    {
        let m = models[i];
        let ghost next = models@.take(i as int + 1);
        proof {
            assert(next.drop_last() =~= models@.take(i as int));
            assert(next.last() == m);
        }
        if !m.dimensions_valid {
            proof {
                lemma_catalogue_error_prefix(models@, i as int + 1);
                lemma_catalogue_error_reasons(models@);
            }
            return Err(RecognitionError::InvalidModelDimension { model_id: m.id });
        }
        if !ids.insert(m.id) {
            proof {
                let j = choose|j: int| 0 <= j < i && #[trigger] models@[j].id == m.id;
                assert(next[j].id == m.id);
                lemma_catalogue_error_prefix(models@, i as int + 1);
                lemma_catalogue_error_reasons(models@);
            }
            return Err(RecognitionError::DuplicateModelId(m.id));
        }
        proof {
            assert forall|j: int| 0 <= j < next.len() - 1 implies !(#[trigger] next[j].id == m.id) by {
                assert(next[j] == models@[j]);
            }
        }
        let ghost before = records@;
        let mut f: usize = 0;
        while f < m.feature_count
            invariant
                f <= m.feature_count,
                records@ == before + records_of_model(m, i as int).take(f as int),
            decreases m.feature_count - f,
        {
            records.push(ModelFeatureRecord { model_id: m.id, model_index: i, feature_index: f });
            proof {
                let all = records_of_model(m, i as int);
                assert(all.take(f as int + 1) =~= all.take(f as int).push(all[f as int]));
            }
            f += 1;
        }
        proof {
            assert(records_of_model(m, i as int).take(m.feature_count as int) =~= records_of_model(m, i as int));
            assert(records_of_model(m, i as int) == records_of_model(next.last(), next.len() - 1));
            assert forall|id: u32| ids@.contains(id) <==> exists|j: int| 0 <= j < i + 1 && #[trigger] models@[j].id == id by {
                if id == m.id {
                    assert(models@[i as int].id == id);
                }
            }
        }
        i += 1;
    }
    proof {
        assert(models@.take(models.len() as int) =~= models@);
        lemma_catalogue_error_reasons(models@);
    }
    Ok(records)
}


/// The lists concatenated in order.
pub open spec fn concat_lists<T>(lists: Seq<Seq<T>>) -> Seq<T>
    decreases lists.len(),
{
    if lists.len() == 0 {
        seq![]
    } else {
        concat_lists(lists.drop_last()) + lists.last()
    }
}

/// The contents of each list.
pub open spec fn list_views<T>(lists: Seq<Vec<T>>) -> Seq<Seq<T>> {
    lists.map_values(|v: Vec<T>| v@)
}

/// Concatenates the feature lists of the models, model after model, into the train set.
pub fn flatten_features<T: Copy>(lists: &[Vec<T>]) -> (flat: Vec<T>)
    ensures
        flat@ == concat_lists(list_views(lists@)),
{
    let ghost views = list_views(lists@);
    let mut flat: Vec<T> = Vec::new();
    let mut i: usize = 0;
    while i < lists.len()
        invariant
            i <= lists.len(),
            views == list_views(lists@),
            flat@ == concat_lists(views.take(i as int)),
        decreases lists.len() - i,
    {
        let list = &lists[i];
        let ghost before = flat@;
        let mut j: usize = 0;
        while j < list.len()
            invariant
                j <= list.len(),
                flat@ == before + list@.take(j as int),
            decreases list.len() - j,
        {
            flat.push(list[j]);
            proof {
                assert(list@.take(j as int + 1) =~= list@.take(j as int).push(list@[j as int]));
            }
            j += 1;
        }
        proof {
            let next = views.take(i as int + 1);
            assert(next.drop_last() =~= views.take(i as int));
            assert(next.last() == list@);
            assert(list@.take(list.len() as int) =~= list@);
        }
        i += 1;
    }
    proof {
        assert(views.take(lists.len() as int) =~= views);
    }
    flat
}

/// When each model summary counts the features of its list, the flattened lists and the
/// model records line up: there is one feature per record, and feature `k` of the
/// flattened lists is the feature of the model and index that record `k` names.
pub proof fn lemma_flat_features_records<T>(models: Seq<ModelSummary>, lists: Seq<Seq<T>>)
    requires
        models.len() == lists.len(),
        models.len() <= usize::MAX,
        forall|k: int| 0 <= k < models.len() ==> (#[trigger] models[k]).feature_count == lists[k].len(),
    ensures
        concat_lists(lists).len() == model_records(models).len(),
        forall|k: int|
            0 <= k < model_records(models).len() ==> {
                let r = #[trigger] model_records(models)[k];
                concat_lists(lists)[k] == lists[r.model_index as int][r.feature_index as int]
            },
    decreases models.len(),
{
    if models.len() > 0 {
        let d = models.drop_last();
        let dl = lists.drop_last();
        assert forall|k: int| 0 <= k < d.len() implies (#[trigger] d[k]).feature_count == dl[k].len() by {
            assert(d[k] == models[k]);
        }
        lemma_flat_features_records(d, dl);
        lemma_model_records(d);
        let a = model_records(d);
        let b = records_of_model(models.last(), models.len() - 1);
        let n = models.len() - 1;
        assert(models[n] == models.last());
        assert forall|k: int| 0 <= k < model_records(models).len() implies {
            let r = #[trigger] model_records(models)[k];
            concat_lists(lists)[k] == lists[r.model_index as int][r.feature_index as int]
        } by {
            if k < a.len() {
                let r = a[k];
                assert(model_records(models)[k] == r);
                assert(concat_lists(lists)[k] == concat_lists(dl)[k]);
                assert(lists[r.model_index as int] == dl[r.model_index as int]);
            } else {
                assert(model_records(models)[k] == b[k - a.len()]);
                assert(concat_lists(lists)[k] == lists.last()[k - a.len()]);
            }
        }
    }
}

impl From<GeometryError> for RecognitionError {
    fn from(value: GeometryError) -> (result: Self) {
        RecognitionError::Geometry(value)
    }
}

impl vstd::std_specs::convert::FromSpecImpl<GeometryError> for RecognitionError {
    open spec fn obeys_from_spec() -> bool {
        true
    }

    open spec fn from_spec(v: GeometryError) -> RecognitionError {
        RecognitionError::Geometry(v)
    }
}

/// The checks a Hough configuration must pass. Counts are given as they are; each
/// real-valued width or factor is given as the outcome of its own range check.
#[derive(Clone, Copy, Debug, PartialEq, Eq, Structural)]
pub struct HoughConfigChecks {
    /// Minimum number of distinct matches required for a pose cluster.
    pub min_votes: usize,
    /// Whether the orientation bin width is finite and in `(0, 2π]`.
    pub orientation_bin_width_valid: bool,
    /// Whether the scale bin width is finite and positive.
    pub scale_bin_width_valid: bool,
    /// Whether the location bin factor is finite and positive.
    pub location_bin_factor_valid: bool,
    /// Whether the affine residual factor is finite and positive.
    pub affine_residual_factor_valid: bool,
    /// Maximum number of outlier-removal and affine-refit iterations per cluster.
    pub max_verification_iterations: usize,
}

/// The first failed check of a Hough configuration, in field order; `None` when all pass.
pub open spec fn hough_config_error(c: HoughConfigChecks) -> Option<RecognitionError> {
    if c.min_votes == 0 {
        Some(RecognitionError::InvalidConfig("min_votes must be greater than zero"))
    } else if !c.orientation_bin_width_valid {
        Some(RecognitionError::InvalidConfig("orientation_bin_width must be in (0, 2π]"))
    } else if !c.scale_bin_width_valid {
        Some(RecognitionError::InvalidConfig("scale_bin_width must be greater than zero"))
    } else if !c.location_bin_factor_valid {
        Some(RecognitionError::InvalidConfig("location_bin_factor must be greater than zero"))
    } else if !c.affine_residual_factor_valid {
        Some(RecognitionError::InvalidConfig("affine_residual_factor must be greater than zero"))
    } else if c.max_verification_iterations == 0 {
        Some(
            RecognitionError::InvalidConfig(
                "max_verification_iterations must be greater than zero",
            ),
        )
    } else {
        None
    }
}

impl HoughConfigChecks {
    /// Validates the configuration: `Ok` exactly when every check passes, otherwise the
    /// error of the first failed check.
    pub fn validate(&self) -> (result: Result<(), RecognitionError>)
        ensures
            result is Ok <==> hough_config_error(*self) is None,
            result matches Err(e) ==> hough_config_error(*self) == Some(e),
    {
        if self.min_votes == 0 {
            return Err(RecognitionError::InvalidConfig("min_votes must be greater than zero"));
        }
        if !self.orientation_bin_width_valid {
            return Err(RecognitionError::InvalidConfig("orientation_bin_width must be in (0, 2π]"));
        }
        if !self.scale_bin_width_valid {
            return Err(RecognitionError::InvalidConfig("scale_bin_width must be greater than zero"));
        }
        if !self.location_bin_factor_valid {
            return Err(
                RecognitionError::InvalidConfig("location_bin_factor must be greater than zero"),
            );
        }
        if !self.affine_residual_factor_valid {
            return Err(
                RecognitionError::InvalidConfig("affine_residual_factor must be greater than zero"),
            );
        }
        if self.max_verification_iterations == 0 {
            return Err(
                RecognitionError::InvalidConfig(
                    "max_verification_iterations must be greater than zero",
                ),
            );
        }
        Ok(())
    }
}

} // verus!

verus! {

/// The items of `items` whose flag is set, in order.
pub open spec fn retained(items: Seq<usize>, flags: Seq<bool>) -> Seq<usize>
    recommends
        items.len() == flags.len(),
    decreases items.len(),
{
    if items.len() == 0 {
        seq![]
    } else if flags[items.len() - 1] {
        retained(items.drop_last(), flags.take(items.len() - 1)).push(items.last())
    } else {
        retained(items.drop_last(), flags.take(items.len() - 1))
    }
}

/// The positions whose flag is set, in increasing order.
pub open spec fn flagged(flags: Seq<bool>) -> Seq<usize>
    decreases flags.len(),
{
    if flags.len() == 0 {
        seq![]
    } else if flags.last() {
        flagged(flags.drop_last()).push((flags.len() - 1) as usize)
    } else {
        flagged(flags.drop_last())
    }
}

/// The positions listed by `flagged` are exactly the positions whose flag is set, each
/// once and in increasing order.
pub proof fn lemma_flagged(flags: Seq<bool>)
    requires
        flags.len() <= usize::MAX,
    ensures
        strictly_increasing(flagged(flags)),
        flagged(flags).len() <= flags.len(),
        forall|k: int|
            0 <= k < flagged(flags).len() ==> #[trigger] flagged(flags)[k] < flags.len()
                && flags[flagged(flags)[k] as int],
        forall|p: int| 0 <= p < flags.len() && flags[p] ==> #[trigger] flagged(flags).contains(p as usize),
    decreases flags.len(),
{
    if flags.len() > 0 {
        let d = flags.drop_last();
        lemma_flagged(d);
        let f = flagged(d);
        let n = flags.len() - 1;
        assert forall|k: int| 0 <= k < f.len() implies #[trigger] f[k] < flags.len() && flags[f[k] as int] by {
            assert(d[f[k] as int] == flags[f[k] as int]);
        }
        if flags.last() {
            let r = f.push(n as usize);
            assert forall|p: int| 0 <= p < flags.len() && flags[p] implies #[trigger] r.contains(p as usize) by {
                if p < n {
                    assert(d[p] == flags[p]);
                    assert(f.contains(p as usize));
                    let q = choose|q: int| 0 <= q < f.len() && f[q] == p as usize;
                    assert(r[q] == p as usize);
                } else {
                    assert(r[f.len() as int] == p as usize);
                }
            }
        } else {
            assert forall|p: int| 0 <= p < flags.len() && flags[p] implies #[trigger] f.contains(p as usize) by {
                assert(d[p] == flags[p]);
            }
        }
    }
}

/// `retained` lists the items at the flagged positions, in order.
pub proof fn lemma_retained(items: Seq<usize>, flags: Seq<bool>)
    requires
        items.len() == flags.len(),
        flags.len() <= usize::MAX,
    ensures
        retained(items, flags).len() == flagged(flags).len(),
        forall|k: int|
            0 <= k < retained(items, flags).len() ==> #[trigger] retained(items, flags)[k]
                == items[flagged(flags)[k] as int],
    decreases items.len(),
{
    if items.len() > 0 {
        let di = items.drop_last();
        let df = flags.take(items.len() - 1);
        assert(df =~= flags.drop_last());
        lemma_retained(di, df);
        lemma_flagged(df);
        let r = retained(di, df);
        let f = flagged(df);
        assert forall|k: int| 0 <= k < r.len() implies #[trigger] r[k] == items[f[k] as int] by {
            assert(di[f[k] as int] == items[f[k] as int]);
        }
    }
}

/// Keeps the inliers of a cluster whose reprojection residual is within the threshold:
/// `within[i]` tells whether `inliers[i]` is.
pub fn retain_within(inliers: &[usize], within: &[bool]) -> (kept: Vec<usize>)
    requires
        inliers.len() == within.len(),
    ensures
        kept@ == retained(inliers@, within@),
        kept@.len() == flagged(within@).len(),
        forall|k: int|
            0 <= k < kept@.len() ==> {
                let j = flagged(within@)[k] as int;
                &&& 0 <= j < inliers.len()
                &&& #[trigger] kept@[k] == inliers@[j]
                &&& within@[j]
            },
{
    let mut kept: Vec<usize> = Vec::new();
    let mut i: usize = 0;
    while i < inliers.len()
        invariant
            i <= inliers.len(),
            inliers.len() == within.len(),
            kept@ == retained(inliers@.take(i as int), within@.take(i as int)),
        decreases inliers.len() - i,
    {
        proof {
            let items = inliers@.take(i as int + 1);
            let flags = within@.take(i as int + 1);
            assert(items.drop_last() =~= inliers@.take(i as int));
            assert(flags.take(i as int) =~= within@.take(i as int));
            assert(items.last() == inliers@[i as int]);
            assert(flags[i as int] == within@[i as int]);
        }
        if within[i] {
            kept.push(inliers[i]);
        }
        i += 1;
    }
    proof {
        assert(inliers@.take(inliers.len() as int) =~= inliers@);
        assert(within@.take(within.len() as int) =~= within@);
        lemma_flagged(within@);
        lemma_retained(inliers@, within@);
    }
    kept
}

/// Completes one refinement of a cluster's inlier set: the kept inliers together with
/// every match `m` for which `added[m]` is set, without repeats and in increasing order,
/// and whether that set equals the `previous` inlier set.
pub fn extend_inliers(kept: &[usize], added: &[bool], previous: &[usize]) -> (result: (
    Vec<usize>,
    bool,
))
    ensures
        result.0@ == sorted_members(kept@ + flagged(added@)),
        result.1 == (result.0@ == previous@),
        strictly_increasing(result.0@),
        forall|m: usize|
            #[trigger] result.0@.contains(m) <==> (kept@.contains(m) || (m < added.len()
                && added@[m as int])),
{
    proof {
        assert(added@.len() == added.len());
        lemma_flagged(added@);
        lemma_sorted_members(kept@ + flagged(added@));
        let all = kept@ + flagged(added@);
        let f = flagged(added@);
        assert forall|m: usize| all.contains(m) <==> (kept@.contains(m) || (m < added.len()
            && added@[m as int])) by {
            if all.contains(m) {
                let q = choose|q: int| 0 <= q < all.len() && all[q] == m;
                if q < kept.len() {
                    assert(kept@[q] == m);
                } else {
                    assert(f[q - kept.len()] == m);
                }
            }
            if kept@.contains(m) {
                let q = choose|q: int| 0 <= q < kept.len() && kept@[q] == m;
                assert(all[q] == m);
            }
            if m < added.len() && added@[m as int] {
                assert(f.contains(m as int as usize));
                let q = choose|q: int| 0 <= q < f.len() && f[q] == m;
                assert(all[kept.len() + q] == m);
            }
        }
    }
    let mut all: Vec<usize> = Vec::new();
    let mut i: usize = 0;
    while i < kept.len()
        invariant
            i <= kept.len(),
            all@ == kept@.take(i as int),
        decreases kept.len() - i,
    {
        all.push(kept[i]);
        proof {
            assert(kept@.take(i as int + 1) =~= kept@.take(i as int).push(kept@[i as int]));
        }
        i += 1;
    }
    proof {
        assert(kept@.take(kept.len() as int) =~= kept@);
    }
    let mut m: usize = 0;
    while m < added.len()
        invariant
            m <= added.len(),
            all@ == kept@ + flagged(added@.take(m as int)),
        decreases added.len() - m,
    {
        proof {
            let flags = added@.take(m as int + 1);
            assert(flags.drop_last() =~= added@.take(m as int));
            assert(flags.last() == added@[m as int]);
        }
        if added[m] {
            all.push(m);
        }
        m += 1;
    }
    proof {
        assert(added@.take(added.len() as int) =~= added@);
    }
    let next = sorted_unique(all.as_slice());
    let mut converged = next.len() == previous.len();
    let mut j: usize = 0;
    while converged && j < next.len()
        invariant
            j <= next.len(),
            converged ==> next@.len() == previous@.len(),
            converged ==> forall|q: int| 0 <= q < j ==> next@[q] == previous@[q],
            !converged ==> next@ != previous@,
        decreases next.len() - j + (if converged { 1int } else { 0int }),
    {
        if next[j] != previous[j] {
            converged = false;
        } else {
            j += 1;
        }
    }
    proof {
        if converged {
            assert(next@ =~= previous@);
        }
    }
    (next, converged)
}

} // verus!
