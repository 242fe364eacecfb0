//! Best-Bin-First search: configuration limits and the bounded nearest-neighbour list.

use vstd::multiset::Multiset;
use vstd::prelude::*;

use crate::matching::INFINITY_KEY;

verus! {

/// Errors caused by invalid Best-Bin-First configuration values.
#[derive(Clone, Copy, Debug, PartialEq, Eq, Structural)]
pub enum BbfConfigError {
    /// `max_candidates` must be greater than zero.
    MaxCandidatesZero,
    /// `leaf_size` must be greater than zero.
    LeafSizeZero,
    /// `ratio_threshold` must be finite and greater than zero.
    InvalidRatioThreshold,
}

/// Default cap on the leaf descriptors evaluated per query.
pub const DEFAULT_MAX_CANDIDATES: usize = 200;

/// Default number of descriptors per k-d tree leaf.
pub const DEFAULT_LEAF_SIZE: usize = 16;

/// The checks a Best-Bin-First configuration must pass: its candidate cap, its leaf size,
/// and whether its ratio threshold is finite and positive.
#[derive(Clone, Copy, Debug, PartialEq, Eq, Structural)]
pub struct BbfConfigChecks {
    /// Cap on the leaf descriptors evaluated per query.
    pub max_candidates: usize,
    /// Number of descriptors per k-d tree leaf.
    pub leaf_size: usize,
    /// Whether the ratio threshold is finite and greater than zero.
    pub ratio_threshold_valid: bool,
}

impl Default for BbfConfigChecks {
    /// The checks of the default configuration, whose ratio threshold `0.8` is valid.
    fn default() -> (checks: Self)
        ensures
            checks == (BbfConfigChecks {
                max_candidates: DEFAULT_MAX_CANDIDATES,
                leaf_size: DEFAULT_LEAF_SIZE,
                ratio_threshold_valid: true,
            }),
    {
        BbfConfigChecks {
            max_candidates: DEFAULT_MAX_CANDIDATES,
            leaf_size: DEFAULT_LEAF_SIZE,
            ratio_threshold_valid: true,
        }
    }
}

/// The first failed check of a Best-Bin-First configuration; `None` when all pass.
pub open spec fn bbf_config_error(c: BbfConfigChecks) -> Option<BbfConfigError> {
    if c.max_candidates == 0 {
        Some(BbfConfigError::MaxCandidatesZero)
    } else if c.leaf_size == 0 {
        Some(BbfConfigError::LeafSizeZero)
    } else if !c.ratio_threshold_valid {
        Some(BbfConfigError::InvalidRatioThreshold)
    } else {
        None
    }
}

impl BbfConfigChecks {
    /// Validates the configuration: `Ok` exactly when every check passes, otherwise the
    /// error of the first failed check.
    pub fn validate(&self) -> (result: Result<(), BbfConfigError>)
        ensures
            result is Ok <==> bbf_config_error(*self) is None,
            result matches Err(e) ==> bbf_config_error(*self) == Some(e),
    {
        if self.max_candidates == 0 {
            return Err(BbfConfigError::MaxCandidatesZero);
        }
        if self.leaf_size == 0 {
            return Err(BbfConfigError::LeafSizeZero);
        }
        if !self.ratio_threshold_valid {
            return Err(BbfConfigError::InvalidRatioThreshold);
        }
        Ok(())
    }
}

/// A candidate neighbour: its index in the searched set and its distance order key.
#[derive(Clone, Copy, Debug, PartialEq, Eq, Structural)]
pub struct RankedNeighbor {
    /// Index of the neighbour in the indexed descriptor set.
    pub index: usize,
    /// Order key of the squared distance to the neighbour.
    pub key: u32,
}

/// Neighbours in non-decreasing key order.
pub open spec fn keys_sorted(s: Seq<RankedNeighbor>) -> bool {
    forall|i: int, j: int| 0 <= i < j < s.len() ==> s[i].key <= s[j].key
}

/// Every neighbour has the key of a finite distance.
pub open spec fn keys_finite(s: Seq<RankedNeighbor>) -> bool {
    forall|i: int| 0 <= i < s.len() ==> (#[trigger] s[i]).key < INFINITY_KEY
}

/// Places `n` after every neighbour whose key is at most its own.
pub open spec fn place_neighbor(s: Seq<RankedNeighbor>, n: RankedNeighbor) -> Seq<RankedNeighbor>
    decreases s.len(),
{
    if s.len() == 0 || s.last().key <= n.key {
        s.push(n)
    } else {
        place_neighbor(s.drop_last(), n).push(s.last())
    }
}

/// The list after offering neighbour `n` to the sorted list `s` bounded to `limit`
/// entries: a neighbour with a non-finite distance, or one already present with the same
/// index and distance, leaves the list unchanged; otherwise it is placed after the
/// neighbours that are no farther, and the list is cut back to `limit` entries.
pub open spec fn offer_neighbor(s: Seq<RankedNeighbor>, limit: nat, n: RankedNeighbor) -> Seq<
    RankedNeighbor,
> {
    if n.key >= INFINITY_KEY || s.contains(n) {
        s
    } else {
        let t = place_neighbor(s, n);
        if t.len() > limit {
            t.take(limit as int)
        } else {
            t
        }
    }
}

proof fn lemma_place_neighbor_at(s: Seq<RankedNeighbor>, n: RankedNeighbor, p: int)
    requires
        0 <= p <= s.len(),
        forall|j: int| p <= j < s.len() ==> s[j].key > n.key,
        p == 0 || s[p - 1].key <= n.key,
    ensures
        place_neighbor(s, n) == s.take(p).push(n) + s.skip(p),
    decreases s.len(),
{
    if s.len() == 0 {
        assert(s.take(p).push(n) + s.skip(p) =~= seq![n]);
    } else if p == s.len() {
        assert(s.take(p).push(n) + s.skip(p) =~= s.push(n));
    } else {
        let d = s.drop_last();
        lemma_place_neighbor_at(d, n, p);
        assert(d.take(p).push(n) + d.skip(p) + seq![s.last()] =~= s.take(p).push(n) + s.skip(p));
    }
}

/// The first `limit` entries of `s`, or all of them when there are fewer.
pub open spec fn first_entries(s: Seq<RankedNeighbor>, limit: nat) -> Seq<RankedNeighbor> {
    if s.len() > limit {
        s.take(limit as int)
    } else {
        s
    }
}

/// The list after offering `ns`, in order, to an empty list bounded to `limit` entries.
pub open spec fn offer_all(ns: Seq<RankedNeighbor>, limit: nat) -> Seq<RankedNeighbor>
    decreases ns.len(),
{
    if ns.len() == 0 {
        seq![]
    } else {
        offer_neighbor(offer_all(ns.drop_last(), limit), limit, ns.last())
    }
}

/// The list after offering `ns`, in order, to an empty list without a bound.
pub open spec fn collect_all(ns: Seq<RankedNeighbor>) -> Seq<RankedNeighbor>
    decreases ns.len(),
{
    if ns.len() == 0 {
        seq![]
    } else {
        let s = collect_all(ns.drop_last());
        let n = ns.last();
        if n.key >= INFINITY_KEY || s.contains(n) {
            s
        } else {
            place_neighbor(s, n)
        }
    }
}

/// Where `place_neighbor(s, n)` puts `n`: after the trailing run of entries farther than
/// `n` is removed.
pub open spec fn place_position(s: Seq<RankedNeighbor>, n: RankedNeighbor) -> int
    decreases s.len(),
{
    if s.len() == 0 || s.last().key <= n.key {
        s.len() as int
    } else {
        place_position(s.drop_last(), n)
    }
}

proof fn lemma_place_position(s: Seq<RankedNeighbor>, n: RankedNeighbor)
    ensures
        0 <= place_position(s, n) <= s.len(),
        forall|j: int| place_position(s, n) <= j < s.len() ==> #[trigger] s[j].key > n.key,
        place_position(s, n) == 0 || s[place_position(s, n) - 1].key <= n.key,
        place_neighbor(s, n) == s.take(place_position(s, n)).push(n) + s.skip(place_position(s, n)),
    decreases s.len(),
{
    if s.len() > 0 && s.last().key > n.key {
        let d = s.drop_last();
        lemma_place_position(d, n);
        let p = place_position(d, n);
        assert forall|j: int| p <= j < s.len() implies #[trigger] s[j].key > n.key by {
            if j < d.len() {
                assert(d[j] == s[j]);
            }
        }
        if p > 0 {
            assert(d[p - 1] == s[p - 1]);
        }
    }
    lemma_place_neighbor_at(s, n, place_position(s, n));
}

proof fn lemma_place_sorted(s: Seq<RankedNeighbor>, n: RankedNeighbor)
    requires
        keys_sorted(s),
    ensures
        keys_sorted(place_neighbor(s, n)),
{
    lemma_place_position(s, n);
    let p = place_position(s, n);
    let r = place_neighbor(s, n);
    assert forall|a: int, b: int| 0 <= a < b < r.len() implies r[a].key <= r[b].key by {
        if a < p && b > p {
            assert(r[b] == s[b - 1]);
            assert(r[a] == s[a]);
        } else if a < p && b == p {
            assert(r[a] == s[a]);
            assert(s[a].key <= s[p - 1].key);
        } else if a == p {
            assert(r[b] == s[b - 1]);
        } else if a < p {
            assert(r[a] == s[a] && r[b] == s[b]);
        } else {
            assert(r[a] == s[a - 1] && r[b] == s[b - 1]);
        }
    }
}

/// The unbounded list is sorted by key.
proof fn lemma_collect_all_sorted(ns: Seq<RankedNeighbor>)
    ensures
        keys_sorted(collect_all(ns)),
    decreases ns.len(),
{
    if ns.len() > 0 {
        lemma_collect_all_sorted(ns.drop_last());
        let s = collect_all(ns.drop_last());
        let n = ns.last();
        if !(n.key >= INFINITY_KEY || s.contains(n)) {
            lemma_place_sorted(s, n);
        }
    }
}

/// Placing into a prefix and cutting back gives the prefix of the placement.
proof fn lemma_place_prefix(u: Seq<RankedNeighbor>, n: RankedNeighbor, k: nat)
    requires
        keys_sorted(u),
    ensures
        first_entries(place_neighbor(first_entries(u, k), n), k) == first_entries(place_neighbor(u, n), k),
{
    let b = first_entries(u, k);
    lemma_place_position(u, n);
    lemma_place_position(b, n);
    let p = place_position(u, n);
    let q = place_position(b, n);
    if u.len() > k {
        assert(b == u.take(k as int));
        if p <= k {
            // `b` keeps every entry up to the place of `n`.
            assert forall|j: int| p <= j < b.len() implies #[trigger] b[j].key > n.key by {
                assert(b[j] == u[j]);
            }
            if p > 0 {
                assert(b[p - 1] == u[p - 1]);
            }
            lemma_place_neighbor_at(b, n, p);
            assert(place_neighbor(b, n).take(k as int) =~= place_neighbor(u, n).take(k as int));
        } else if k == 0 {
            assert(place_neighbor(b, n).take(0) =~= place_neighbor(u, n).take(0));
        } else {
            // Every entry of `b` is at most `n`: `n` goes after all of them.
            if k - 1 < p - 1 {
                assert(u[k - 1].key <= u[p - 1].key);
            }
            assert(b[k - 1] == u[k - 1]);
            lemma_place_neighbor_at(b, n, k as int);
            assert(place_neighbor(b, n).take(k as int) =~= b);
            assert(place_neighbor(u, n).take(k as int) =~= u.take(k as int));
        }
    } else {
        assert(b == u);
    }
}

/// The bounded list is the prefix of the unbounded one: offering neighbours to a list
/// bounded to `limit` entries leaves exactly the `limit` nearest distinct finite
/// neighbours offered (the earlier-offered first among equally near ones), nearest first.
pub proof fn lemma_nearest_list_keeps_nearest(ns: Seq<RankedNeighbor>, limit: nat)
    ensures
        offer_all(ns, limit) == first_entries(collect_all(ns), limit),
        keys_sorted(offer_all(ns, limit)),
    decreases ns.len(),
{
    if ns.len() == 0 {
        assert(first_entries(seq![], limit) =~= seq![]);
    } else {
        let d = ns.drop_last();
        let n = ns.last();
        lemma_nearest_list_keeps_nearest(d, limit);
        lemma_collect_all_sorted(d);
        let u = collect_all(d);
        let b = offer_all(d, limit);
        assert(b == first_entries(u, limit));
        if n.key >= INFINITY_KEY {
        } else if u.contains(n) {
            if b.contains(n) {
            } else {
                // `n` sits beyond the first `limit` entries of `u`, so it lands at the end of `b`
                // and is cut off again.
                let i = choose|i: int| 0 <= i < u.len() && u[i] == n;
                if i < limit && u.len() > limit {
                    assert(b[i] == n);
                }
                if u.len() <= limit {
                    assert(b == u);
                }
                assert(u.len() > limit && i >= limit);
                assert(b.len() == limit);
                if limit > 0 {
                    assert(b[limit - 1] == u[limit - 1]);
                    assert(u[limit - 1].key <= u[i].key);
                    lemma_place_neighbor_at(b, n, limit as int);
                    assert(place_neighbor(b, n).take(limit as int) =~= b);
                } else {
                    assert(first_entries(place_neighbor(b, n), limit) =~= b);
                }
            }
        } else {
            assert(!b.contains(n)) by {
                if b.contains(n) {
                    let i = choose|i: int| 0 <= i < b.len() && b[i] == n;
                    assert(u[i] == b[i]);
                }
            }
            lemma_place_prefix(u, n, limit);
        }
        lemma_collect_all_sorted(ns);
        let r = offer_all(ns, limit);
        let full = collect_all(ns);
        assert forall|a: int, c: int| 0 <= a < c < r.len() implies r[a].key <= r[c].key by {
            assert(r[a] == full[a] && r[c] == full[c]);
        }
    }
}

/// A bounded list of the nearest neighbours found so far, kept in order of increasing
/// distance, as used by the Best-Bin-First search.
pub struct NearestList {
    limit: usize,
    entries: Vec<RankedNeighbor>,
}

impl View for NearestList {
    type V = Seq<RankedNeighbor>;

    closed spec fn view(&self) -> Seq<RankedNeighbor> {
        self.entries@
    }
}

impl NearestList {
    #[verifier::type_invariant]
    spec fn well_formed(self) -> bool {
        &&& keys_sorted(self.entries@)
        &&& self.entries@.len() <= self.limit
        &&& keys_finite(self.entries@)
    }

    /// The largest number of neighbours the list keeps.
    pub closed spec fn limit(&self) -> nat {
        self.limit as nat
    }

    /// Creates an empty list that keeps at most `limit` neighbours.
    pub fn new(limit: usize) -> (list: Self)
        ensures
            list@ == Seq::<RankedNeighbor>::empty(),
            list.limit() == limit,
    {
        NearestList { limit, entries: Vec::new() }
    }

    /// The largest number of neighbours the list keeps.
    pub fn capacity(&self) -> (limit: usize)
        ensures
            limit == self.limit(),
    {
        self.limit
    }

    /// The neighbours, nearest first.
    pub fn as_slice(&self) -> (entries: &[RankedNeighbor])
        ensures
            entries@ == self@,
            keys_sorted(entries@),
            keys_finite(entries@),
            entries@.len() <= self.limit(),
    {
        proof {
            use_type_invariant(self);
        }
        self.entries.as_slice()
    }

    /// Number of neighbours held.
    pub fn len(&self) -> (n: usize)
        ensures
            n == self@.len(),
    {
        self.entries.len()
    }

    /// Removes every neighbour; the limit is kept.
    pub fn clear(&mut self)
        ensures
            final(self)@ == Seq::<RankedNeighbor>::empty(),
            final(self).limit() == old(self).limit(),
    {
        self.entries = Vec::new();
    }

    /// The key of the farthest neighbour held, when the list holds `limit` or more.
    pub fn full_worst_key(&self) -> (worst: Option<u32>)
        ensures
            worst is Some <==> (self@.len() >= self.limit() && self@.len() > 0),
            worst matches Some(w) ==> w == self@.last().key && w < INFINITY_KEY,
    {
        proof {
            use_type_invariant(self);
        }
        let n = self.entries.len();
        if n >= self.limit && n > 0 {
            Some(self.entries[n - 1].key)
        } else {
            None
        }
    }

    /// Offers neighbour `index` at distance key `key` (see [`offer_neighbor`]).
    pub fn insert(&mut self, index: usize, key: u32)
        ensures
            final(self)@ == offer_neighbor(old(self)@, old(self).limit(), RankedNeighbor { index, key }),
            final(self).limit() == old(self).limit(),
            keys_sorted(final(self)@),
            keys_finite(final(self)@),
            final(self)@.len() <= final(self).limit(),
    {
        proof {
            use_type_invariant(&*self);
        }
        let n = RankedNeighbor { index, key };
        if key >= INFINITY_KEY {
            return;
        }
        let mut j: usize = 0;
        while j < self.entries.len() && self.entries[j] != n
            invariant
                j <= self.entries.len(),
                forall|q: int| 0 <= q < j ==> self.entries@[q] != n,
            decreases self.entries.len() - j,
        {
            j += 1;
        }
        if j < self.entries.len() {
            proof {
                assert(self.entries@[j as int] == n);
                assert(self@.contains(n));
            }
            return;
        }
        let mut entries = Vec::new();
        std::mem::swap(&mut entries, &mut self.entries);
        let ghost s = entries@;
        proof {
            assert(!s.contains(n));
        }
        let mut p = entries.len();
        while p > 0 && entries[p - 1].key > key
            invariant
                p <= entries.len(),
                entries@ == s,
                forall|q: int| p <= q < s.len() ==> s[q].key > key,
            decreases p,
        {
            p -= 1;
        }
        proof {
            lemma_place_neighbor_at(s, n, p as int);
        }
        entries.insert(p, n);
        proof {
            assert(entries@ =~= s.take(p as int).push(n) + s.skip(p as int));
            assert forall|a: int, b: int| 0 <= a < b < entries@.len() implies entries@[a].key <= entries@[b].key by {
                if a < p && b > p {
                    assert(entries@[b] == s[b - 1]);
                    assert(entries@[a] == s[a]);
                } else if a < p && b == p {
                    assert(entries@[a] == s[a]);
                    assert(s[p - 1].key <= key);
                } else if a == p {
                    assert(entries@[b] == s[b - 1]);
                } else if a < p {
                    assert(entries@[a] == s[a] && entries@[b] == s[b]);
                } else {
                    assert(entries@[a] == s[a - 1] && entries@[b] == s[b - 1]);
                }
            }
            assert forall|a: int| 0 <= a < entries@.len() implies (#[trigger] entries@[a]).key < INFINITY_KEY by {
                if a < p {
                    assert(entries@[a] == s[a]);
                } else if a > p {
                    assert(entries@[a] == s[a - 1]);
                }
            }
        }
        if entries.len() > self.limit {
            entries.truncate(self.limit);
        }
        self.entries = entries;
    }
}


/// Lexicographic order on `(bound key, node index)` entries.
pub open spec fn entry_le(a: (u32, u32), b: (u32, u32)) -> bool {
    a.0 < b.0 || (a.0 == b.0 && a.1 <= b.1)
}

/// Strict lexicographic order on `(bound key, node index)` entries.
pub open spec fn entry_lt(a: (u32, u32), b: (u32, u32)) -> bool {
    a.0 < b.0 || (a.0 == b.0 && a.1 < b.1)
}

/// Entries in non-increasing order, the smallest last.
pub open spec fn entries_descending(s: Seq<(u32, u32)>) -> bool {
    forall|i: int, j: int| 0 <= i < j < s.len() ==> entry_le(s[j], s[i])
}

/// The queue of tree bins still to visit, each entry a `(bound key, node index)` pair.
/// Entries leave the queue smallest first: lowest bound key, then lowest node index.
pub struct BoundQueue {
    entries: Vec<(u32, u32)>,
}

impl BoundQueue {
    #[verifier::type_invariant]
    spec fn well_formed(self) -> bool {
        entries_descending(self.entries@)
    }

    /// The entries held, with their multiplicities.
    pub closed spec fn items(&self) -> Multiset<(u32, u32)> {
        self.entries@.to_multiset()
    }

    /// Creates an empty queue.
    pub fn new() -> (queue: Self)
        ensures
            queue.items() =~= Multiset::<(u32, u32)>::empty(),
    {
        proof {
            broadcast use vstd::seq_lib::group_to_multiset_ensures;
            assert(Seq::<(u32, u32)>::empty().to_multiset() =~= Multiset::empty());
        }
        BoundQueue { entries: Vec::new() }
    }

    /// Number of entries held.
    pub fn len(&self) -> (n: usize)
        ensures
            n == self.items().len(),
    {
        proof {
            vstd::seq_lib::to_multiset_len(self.entries@);
        }
        self.entries.len()
    }

    /// Removes every entry.
    pub fn clear(&mut self)
        ensures
            final(self).items() =~= Multiset::<(u32, u32)>::empty(),
    {
        proof {
            broadcast use vstd::seq_lib::group_to_multiset_ensures;
            assert(Seq::<(u32, u32)>::empty().to_multiset() =~= Multiset::empty());
        }
        self.entries = Vec::new();
    }

    /// Adds the entry `(key, node)`.
    pub fn push(&mut self, key: u32, node: u32)
        ensures
            final(self).items() == old(self).items().insert((key, node)),
    {
        proof {
            use_type_invariant(&*self);
        }
        let e = (key, node);
        let mut entries = Vec::new();
        std::mem::swap(&mut entries, &mut self.entries);
        let ghost s = entries@;
        let mut p = entries.len();
        let mut moving = true;
        while moving
            invariant
                e == (key, node),
                p <= entries.len(),
                entries@ == s,
                forall|q: int| p <= q < s.len() ==> entry_lt(#[trigger] s[q], e),
                !moving ==> (p == 0 || entry_le(e, s[p - 1])),
            decreases p + (if moving { 1int } else { 0int }),
        {
            if p == 0 {
                moving = false;
            } else {
                let (k, n) = entries[p - 1];
                if k < key || (k == key && n < node) {
                    p -= 1;
                } else {
                    moving = false;
                }
            }
        }
        entries.insert(p, e);
        proof {
            vstd::seq_lib::to_multiset_insert(s, p as int, e);
            assert(entries@ == s.insert(p as int, e));
            assert forall|a: int, b: int| 0 <= a < b < entries@.len() implies entry_le(entries@[b], entries@[a]) by {
                if a < p && b > p {
                    assert(entries@[b] == s[b - 1]);
                    assert(entries@[a] == s[a]);
                } else if a < p && b == p {
                    assert(entries@[a] == s[a]);
                    assert(entry_le(s[p - 1], s[a]));
                } else if a == p {
                    assert(entries@[b] == s[b - 1]);
                    assert(entry_lt(s[b - 1], e));
                } else if a < p {
                    assert(entries@[a] == s[a] && entries@[b] == s[b]);
                } else {
                    assert(entries@[a] == s[a - 1] && entries@[b] == s[b - 1]);
                }
            }
        }
        self.entries = entries;
    }

    /// Removes and returns a smallest entry, or `None` when the queue is empty.
    pub fn pop(&mut self) -> (entry: Option<(u32, u32)>)
        ensures
            match entry {
                None => old(self).items().len() == 0 && final(self).items() == old(self).items(),
                Some(e) => {
                    &&& old(self).items().contains(e)
                    &&& final(self).items() == old(self).items().remove(e)
                    &&& forall|x: (u32, u32)| old(self).items().contains(x) ==> entry_le(e, x)
                },
            },
    {
        proof {
            use_type_invariant(&*self);
            vstd::seq_lib::to_multiset_len(self.entries@);
        }
        let mut entries = Vec::new();
        std::mem::swap(&mut entries, &mut self.entries);
        let ghost s = entries@;
        let entry = entries.pop();
        proof {
            if s.len() > 0 {
                let last = s.len() - 1;
                vstd::seq_lib::to_multiset_remove(s, last);
                assert(s.remove(last) =~= entries@);
                assert forall|x: (u32, u32)| s.to_multiset().contains(x) implies entry_le(s[last], x) by {
                    vstd::seq_lib::to_multiset_contains(s, x);
                    let q = choose|q: int| 0 <= q < s.len() && s[q] == x;
                    if q != last {
                        assert(entry_le(s[last], s[q]));
                    }
                }
                vstd::seq_lib::to_multiset_contains(s, s[last]);
                assert(s.contains(s[last]));
            }
            assert(entries_descending(entries@));
        }
        self.entries = entries;
        entry
    }
}

} // verus!

verus! {

/// Order key of the lower bound `+∞` in the bound order of [`BoundQueue`].
pub const INFINITY_BOUND_KEY: u32 = 0xff80_0000;

/// Whether a branch whose lower bound has order key `bound` lies beyond a neighbour at
/// distance key `worst`.
///
/// Queue bounds are keyed in the total order of real values: a non-negative bound with
/// bit pattern `b` has key `b + 2^31`, and keys above that of `+∞` stand for undefined
/// bounds, which lie beyond nothing. Distance keys are the bit patterns of finite
/// non-negative distances.
pub open spec fn bound_exceeds(bound: u32, worst: u32) -> bool {
    worst + 0x8000_0000 < bound && bound <= INFINITY_BOUND_KEY
}

/// Whether a best-bin-first search stops at a branch with bound key `bound`: the list of
/// nearest neighbours is full and the branch lies beyond its farthest neighbour.
pub open spec fn search_pruned(list: Seq<RankedNeighbor>, limit: nat, bound: u32) -> bool {
    list.len() >= limit && list.len() > 0 && bound_exceeds(bound, list.last().key)
}

/// The entries of `items` that no other entry precedes.
pub open spec fn smallest_entry(items: Multiset<(u32, u32)>, e: (u32, u32)) -> bool {
    items.contains(e) && forall|x: (u32, u32)| items.contains(x) ==> entry_le(e, x)
}

/// Takes the next branch of a best-bin-first descent.
///
/// Removes a smallest entry of `queue` and returns it, unless the descent is over: the
/// queue was empty, `candidates` leaf descriptors have already been evaluated out of
/// `max_candidates`, or `best` is full and the branch lies beyond its farthest neighbour.
pub fn next_branch(
    queue: &mut BoundQueue,
    best: &NearestList,
    candidates: usize,
    max_candidates: usize,
) -> (entry: Option<(u32, u32)>)
    ensures
        match entry {
            Some(e) => {
                &&& smallest_entry(old(queue).items(), e)
                &&& final(queue).items() == old(queue).items().remove(e)
                &&& candidates < max_candidates
                &&& !search_pruned(best@, best.limit(), e.0)
            },
            None => {
                ||| old(queue).items().len() == 0 && final(queue).items() == old(queue).items()
                ||| exists|e: (u32, u32)|
                    {
                        &&& smallest_entry(old(queue).items(), e)
                        &&& final(queue).items() == old(queue).items().remove(e)
                        &&& (candidates >= max_candidates || search_pruned(best@, best.limit(), e.0))
                    }
            },
        },
{
    let popped = queue.pop();
    match popped {
        None => None,
        Some(e) => {
            if candidates >= max_candidates {
                return None;
            }
            match best.full_worst_key() {
                Some(worst) => {
                    if worst + 0x8000_0000 < e.0 && e.0 <= INFINITY_BOUND_KEY {
                        return None;
                    }
                },
                None => {},
            }
            Some(e)
        },
    }
}

} // verus!
