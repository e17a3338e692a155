//! Sparse maps from progress-update keys to signed net changes.
//!
//! A [`CountMap`] accumulates signed 64-bit deltas per key and prunes an entry
//! the moment its running sum reaches zero, so its length is always the number
//! of keys with a non-zero pending change.

use vstd::pervasive::VecAdditionalExecFns;
use vstd::prelude::*;

verus! {

/// Identifies the slot a progress delta applies to: a child scope, one of its
/// ports, and a point in logical time.
#[derive(Clone, Copy, PartialEq, Eq, Structural, Hash, Debug)]
pub struct UpdateKey {
    /// Identifier of the child scope within the surrounding dataflow region.
    pub scope: usize,
    /// Input or output port of that scope.
    pub port: usize,
    /// Logical timestamp the change is charged to.
    pub time: u64,
}

/// The accumulated delta a map records for `k`: its value where present,
/// zero where absent.
pub open spec fn delta_of(m: Map<UpdateKey, int>, k: UpdateKey) -> int {
    if m.contains_key(k) {
        m[k]
    } else {
        0
    }
}

/// No key is held at delta zero: the well-formedness invariant of every map
/// this module produces.
pub open spec fn no_zeros(m: Map<UpdateKey, int>) -> bool {
    forall|k: UpdateKey| m.contains_key(k) ==> m[k] != 0
}

/// The effect of one `update` call on the abstract map: add `d` to the
/// accumulated delta for `k`, dropping the entry when the sum reaches zero.
pub open spec fn updated(m: Map<UpdateKey, int>, k: UpdateKey, d: int) -> Map<UpdateKey, int> {
    if delta_of(m, k) + d == 0 {
        m.remove(k)
    } else {
        m.insert(k, delta_of(m, k) + d)
    }
}

/// The effect of folding a whole sequence of updates into a map, first to last.
pub open spec fn fold_updates(m: Map<UpdateKey, int>, s: Seq<(UpdateKey, i64)>) -> Map<
    UpdateKey,
    int,
>
    decreases s.len(),
{
    if s.len() == 0 {
        m
    } else {
        updated(fold_updates(m, s.drop_last()), s.last().0, s.last().1 as int)
    }
}

/// The net change a sequence of updates carries for one key: the sum of the
/// deltas attached to `k`.
pub open spec fn sum_for(s: Seq<(UpdateKey, i64)>, k: UpdateKey) -> int
    decreases s.len(),
{
    if s.len() == 0 {
        0
    } else {
        sum_for(s.drop_last(), k) + if s.last().0 == k {
            s.last().1 as int
        } else {
            0
        }
    }
}

/// Every key occurs at most once in the sequence.
pub open spec fn distinct_keys(s: Seq<(UpdateKey, i64)>) -> bool {
    forall|i: int, j: int| 0 <= i < j < s.len() ==> s[i].0 != s[j].0
}

/// No pair carries a zero delta.
pub open spec fn no_zero_deltas(s: Seq<(UpdateKey, i64)>) -> bool {
    forall|i: int| 0 <= i < s.len() ==> s[i].1 != 0
}

/// The map a sequence of pairs denotes, later pairs overriding earlier ones;
/// on a sequence with distinct keys, simply the map the pairs spell out.
pub open spec fn seq_to_map(s: Seq<(UpdateKey, i64)>) -> Map<UpdateKey, int>
    decreases s.len(),
{
    if s.len() == 0 {
        Map::empty()
    } else {
        seq_to_map(s.drop_last()).insert(s.last().0, s.last().1 as int)
    }
}

/// Every intermediate sum met while folding `s` into `m` stays within `i64`.
pub open spec fn fold_fits(m: Map<UpdateKey, int>, s: Seq<(UpdateKey, i64)>) -> bool
    decreases s.len(),
{
    s.len() == 0 || {
        &&& fold_fits(m, s.drop_last())
        &&& i64::MIN <= delta_of(fold_updates(m, s.drop_last()), s.last().0) + s.last().1
            <= i64::MAX
    }
}

/// What the entry sequence of a well-formed map says, spelled out per key:
/// membership, values, and the size of the denoted map.
proof fn lemma_seq_to_map_characterization(s: Seq<(UpdateKey, i64)>)
    requires
        distinct_keys(s),
    ensures
        seq_to_map(s).dom().finite(),
        seq_to_map(s).dom().len() == s.len(),
        forall|k: UpdateKey|
            seq_to_map(s).contains_key(k) <==> exists|i: int|
                0 <= i < s.len() && (#[trigger] s[i]).0 == k,
        forall|i: int| 0 <= i < s.len() ==> seq_to_map(s)[(#[trigger] s[i]).0] == s[i].1 as int,
    decreases s.len(),
{
    if s.len() == 0 {
        assert(seq_to_map(s).dom() =~= Set::<UpdateKey>::empty());
    } else {
        let s0 = s.drop_last();
        let last = s.last();
        lemma_seq_to_map_characterization(s0);
        assert(forall|i: int| 0 <= i < s0.len() ==> s0[i] == s[i]);
        assert(!seq_to_map(s0).contains_key(last.0)) by {
            if seq_to_map(s0).contains_key(last.0) {
                let i = choose|i: int| 0 <= i < s0.len() && (#[trigger] s0[i]).0 == last.0;
                assert(s[i].0 == s[s.len() - 1].0);
            }
        }
        assert(seq_to_map(s).dom() =~= seq_to_map(s0).dom().insert(last.0));
        assert forall|k: UpdateKey| seq_to_map(s).contains_key(k) implies exists|i: int|
            0 <= i < s.len() && (#[trigger] s[i]).0 == k by {
            if k == last.0 {
                assert(s[s.len() - 1].0 == k);
            } else {
                let i = choose|i: int| 0 <= i < s0.len() && (#[trigger] s0[i]).0 == k;
                assert(s[i].0 == k);
            }
        }
        assert forall|i: int| 0 <= i < s.len() implies seq_to_map(s)[(#[trigger] s[i]).0]
            == s[i].1 as int by {
            if i < s.len() - 1 {
                assert(s[i].0 != last.0);
                assert(seq_to_map(s)[s[i].0] == seq_to_map(s0)[s0[i].0]);
            }
        }
    }
}

/// Two maps that nowhere hold a zero and agree on the accumulated delta of
/// every key are the same map: absence is indistinguishable from zero only
/// when zero is never stored.
pub proof fn lemma_no_zeros_ext(m1: Map<UpdateKey, int>, m2: Map<UpdateKey, int>)
    requires
        no_zeros(m1),
        no_zeros(m2),
        forall|k: UpdateKey| delta_of(m1, k) == delta_of(m2, k),
    ensures
        m1 == m2,
{
    assert forall|k: UpdateKey| #[trigger] m1.dom().contains(k) implies m2.dom().contains(k)
        && m1[k] == m2[k] by {
        assert(delta_of(m1, k) == m1[k]);
        assert(m1[k] != 0);
        assert(delta_of(m2, k) != 0);
    }
    assert forall|k: UpdateKey| #[trigger] m2.dom().contains(k) implies m1.dom().contains(k) by {
        assert(delta_of(m2, k) == m2[k]);
        assert(delta_of(m1, k) != 0);
    }
    assert(m1.dom() =~= m2.dom());
    assert(m1 =~= m2);
}

/// A well-formed entry sequence denotes a map with no zero values.
proof fn lemma_seq_to_map_no_zeros(s: Seq<(UpdateKey, i64)>)
    requires
        distinct_keys(s),
        no_zero_deltas(s),
    ensures
        no_zeros(seq_to_map(s)),
{
    lemma_seq_to_map_characterization(s);
    assert forall|k: UpdateKey| seq_to_map(s).contains_key(k) implies seq_to_map(s)[k] != 0 by {
        let i = choose|i: int| 0 <= i < s.len() && (#[trigger] s[i]).0 == k;
        assert(seq_to_map(s)[s[i].0] == s[i].1 as int);
        assert(s[i].1 != 0);
    }
}

/// Splitting a prefix off a sequence: one step.
pub proof fn lemma_take_step<A>(s: Seq<A>, i: int)
    requires
        0 <= i < s.len(),
    ensures
        s.take(i + 1).drop_last() == s.take(i),
        s.take(i + 1).last() == s[i],
        s.take(i + 1).len() == i + 1,
{
    assert(s.take(i + 1).drop_last() =~= s.take(i));
}

/// A fold that stays within `i64` over all of `s` does so over every prefix.
proof fn lemma_fold_fits_prefix(m: Map<UpdateKey, int>, s: Seq<(UpdateKey, i64)>, n: int)
    requires
        fold_fits(m, s),
        0 <= n <= s.len(),
    ensures
        fold_fits(m, s.take(n)),
    decreases s.len() - n,
{
    if n == s.len() {
        assert(s.take(n) =~= s);
    } else {
        lemma_fold_fits_prefix(m, s, n + 1);
        lemma_take_step(s, n);
        assert(fold_fits(m, s.take(n + 1)));
        assert(fold_fits(m, s.take(n + 1).drop_last()));
    }
}

/// On a sequence with distinct keys, the per-key sum is just the value the
/// sequence spells out for that key.
proof fn lemma_sum_for_distinct(s: Seq<(UpdateKey, i64)>, k: UpdateKey)
    requires
        distinct_keys(s),
    ensures
        sum_for(s, k) == delta_of(seq_to_map(s), k),
    decreases s.len(),
{
    if s.len() > 0 {
        let s0 = s.drop_last();
        assert(forall|i: int| 0 <= i < s0.len() ==> s0[i] == s[i]);
        lemma_sum_for_distinct(s0, k);
        lemma_seq_to_map_characterization(s0);
        if s.last().0 == k {
            assert(!seq_to_map(s0).contains_key(k)) by {
                if seq_to_map(s0).contains_key(k) {
                    let i = choose|i: int| 0 <= i < s0.len() && (#[trigger] s0[i]).0 == k;
                    assert(s[i].0 == s[s.len() - 1].0);
                }
            }
        }
    }
}

/// Folding a run of updates shifts each key's accumulated delta by exactly
/// the run's per-key sum.
pub proof fn lemma_fold_updates_delta(
    m: Map<UpdateKey, int>,
    s: Seq<(UpdateKey, i64)>,
    k: UpdateKey,
)
    ensures
        delta_of(fold_updates(m, s), k) == delta_of(m, k) + sum_for(s, k),
    decreases s.len(),
{
    if s.len() > 0 {
        lemma_fold_updates_delta(m, s.drop_last(), k);
    }
}

/// Folding updates never leaves a zero behind: pruning in `updated` keeps
/// every reachable map well-formed.
pub proof fn lemma_fold_updates_no_zeros(m: Map<UpdateKey, int>, s: Seq<(UpdateKey, i64)>)
    requires
        no_zeros(m),
    ensures
        no_zeros(fold_updates(m, s)),
    decreases s.len(),
{
    if s.len() > 0 {
        lemma_fold_updates_no_zeros(m, s.drop_last());
    }
}

/// Sum invariant law: after any run of updates applied to an empty map, the
/// delta recorded for `k` is the sum of the deltas the run carries for `k`,
/// and the key is held exactly when that sum is non-zero.
pub proof fn lemma_sum_invariant(s: Seq<(UpdateKey, i64)>, k: UpdateKey)
    ensures
        delta_of(fold_updates(Map::<UpdateKey, int>::empty(), s), k) == sum_for(s, k),
        fold_updates(Map::<UpdateKey, int>::empty(), s).contains_key(k) <==> sum_for(s, k) != 0,
{
    let e = Map::<UpdateKey, int>::empty();
    lemma_fold_updates_delta(e, s, k);
    lemma_fold_updates_no_zeros(e, s);
}

/// Snapshot round-trip law: replaying any snapshot whose per-key sums match a
/// well-formed map `m` into an empty map rebuilds `m` exactly — whatever
/// order the snapshot lists its pairs in.
pub proof fn lemma_snapshot_round_trip(m: Map<UpdateKey, int>, s: Seq<(UpdateKey, i64)>)
    requires
        no_zeros(m),
        forall|k: UpdateKey| sum_for(s, k) == delta_of(m, k),
    ensures
        fold_updates(Map::<UpdateKey, int>::empty(), s) == m,
{
    let e = Map::<UpdateKey, int>::empty();
    let f = fold_updates(e, s);
    lemma_fold_updates_no_zeros(e, s);
    assert forall|k: UpdateKey| delta_of(f, k) == delta_of(m, k) by {
        lemma_fold_updates_delta(e, s, k);
    }
    lemma_no_zeros_ext(f, m);
}

/// Removing one pair takes exactly its contribution out of the per-key sum.
proof fn lemma_sum_for_remove(s: Seq<(UpdateKey, i64)>, i: int, k: UpdateKey)
    requires
        0 <= i < s.len(),
    ensures
        sum_for(s, k) == sum_for(s.remove(i), k) + if s[i].0 == k {
            s[i].1 as int
        } else {
            0
        },
    decreases s.len(),
{
    if i == s.len() - 1 {
        assert(s.remove(i) =~= s.drop_last());
    } else {
        assert(s.remove(i).drop_last() =~= s.drop_last().remove(i));
        assert(s.remove(i).last() == s.last());
        lemma_sum_for_remove(s.drop_last(), i, k);
    }
}

/// Two sequences holding the same updates, in any two orders, carry the same
/// per-key sums.
proof fn lemma_sum_for_permutation(
    s1: Seq<(UpdateKey, i64)>,
    s2: Seq<(UpdateKey, i64)>,
    k: UpdateKey,
)
    requires
        s1.to_multiset() == s2.to_multiset(),
    ensures
        sum_for(s1, k) == sum_for(s2, k),
    decreases s1.len(),
{
    broadcast use vstd::seq_lib::group_to_multiset_ensures;

    if s1.len() == 0 {
        assert(s1.to_multiset().len() == s1.len());
        assert(s2.to_multiset().len() == s2.len());
        assert(s2.len() == 0);
    } else {
        let x = s1.last();
        let s1p = s1.drop_last();
        assert(s1p.push(x) =~= s1);
        assert(s1.to_multiset() =~= s1p.to_multiset().insert(x));
        assert(s2.to_multiset().count(x) > 0);
        assert(s2.contains(x));
        let j = choose|j: int| 0 <= j < s2.len() && s2[j] == x;
        let s2p = s2.remove(j);
        assert(s2p.to_multiset() =~= s2.to_multiset().remove(x));
        assert(s1p.to_multiset() =~= s2p.to_multiset());
        lemma_sum_for_permutation(s1p, s2p, k);
        lemma_sum_for_remove(s2, j, k);
    }
}

/// Merge commutativity law, batch form: two batches of updates may be folded
/// into a well-formed map in either order; the result is the same map.
pub proof fn lemma_merge_commutative(
    m: Map<UpdateKey, int>,
    s1: Seq<(UpdateKey, i64)>,
    s2: Seq<(UpdateKey, i64)>,
)
    requires
        no_zeros(m),
    ensures
        fold_updates(fold_updates(m, s1), s2) == fold_updates(fold_updates(m, s2), s1),
{
    lemma_fold_updates_no_zeros(m, s1);
    lemma_fold_updates_no_zeros(m, s2);
    lemma_fold_updates_no_zeros(fold_updates(m, s1), s2);
    lemma_fold_updates_no_zeros(fold_updates(m, s2), s1);
    let a = fold_updates(fold_updates(m, s1), s2);
    let b = fold_updates(fold_updates(m, s2), s1);
    assert forall|k: UpdateKey| delta_of(a, k) == delta_of(b, k) by {
        lemma_fold_updates_delta(m, s1, k);
        lemma_fold_updates_delta(m, s2, k);
        lemma_fold_updates_delta(fold_updates(m, s1), s2, k);
        lemma_fold_updates_delta(fold_updates(m, s2), s1, k);
    }
    lemma_no_zeros_ext(a, b);
}

/// Merge commutativity law: the merged result of a round does not depend on
/// the order in which peers' updates arrived — any two arrival orders of the
/// same updates fold a well-formed map to the same map.
pub proof fn lemma_merge_order_irrelevant(
    m: Map<UpdateKey, int>,
    s1: Seq<(UpdateKey, i64)>,
    s2: Seq<(UpdateKey, i64)>,
)
    requires
        no_zeros(m),
        s1.to_multiset() == s2.to_multiset(),
    ensures
        fold_updates(m, s1) == fold_updates(m, s2),
{
    lemma_fold_updates_no_zeros(m, s1);
    lemma_fold_updates_no_zeros(m, s2);
    assert forall|k: UpdateKey|
        delta_of(fold_updates(m, s1), k) == delta_of(fold_updates(m, s2), k) by {
        lemma_fold_updates_delta(m, s1, k);
        lemma_fold_updates_delta(m, s2, k);
        lemma_sum_for_permutation(s1, s2, k);
    }
    lemma_no_zeros_ext(fold_updates(m, s1), fold_updates(m, s2));
}

/// A sparse delta map: each key it holds carries a non-zero accumulated
/// signed change, and a key whose running sum returns to zero is removed at
/// once.
pub struct CountMap {
    entries: Vec<(UpdateKey, i64)>,
}

impl View for CountMap {
    type V = Map<UpdateKey, int>;

    closed spec fn view(&self) -> Map<UpdateKey, int> {
        seq_to_map(self.entries@)
    }
}

impl CountMap {
    /// Internal invariant: one entry per key, none of them zero.
    pub closed spec fn wf(&self) -> bool {
        distinct_keys(self.entries@) && no_zero_deltas(self.entries@)
    }

    /// Creates an empty delta map.
    pub fn new() -> (r: CountMap)
        ensures
            r.wf(),
            r@ == Map::<UpdateKey, int>::empty(),
    {
        CountMap { entries: Vec::new() }
    }

    /// Number of keys with a non-zero accumulated delta; `0` is an exact test
    /// for "no pending progress changes".
    pub fn len(&self) -> (r: usize)
        requires
            self.wf(),
        ensures
            r == self@.dom().len(),
            (r == 0) <==> (self@ == Map::<UpdateKey, int>::empty()),
    {
        proof {
            lemma_seq_to_map_characterization(self.entries@);
            if self.entries@.len() == 0 {
                assert(self@ =~= Map::<UpdateKey, int>::empty());
            } else {
                assert(self@.contains_key(self.entries@[0].0));
            }
        }
        self.entries.len()
    }

    /// Index of the entry holding `key`, if any.
    fn position(&self, key: UpdateKey) -> (r: Option<usize>)
        ensures
            match r {
                Some(i) => i < self.entries@.len() && self.entries@[i as int].0 == key,
                None => forall|j: int| 0 <= j < self.entries@.len() ==> self.entries@[j].0 != key,
            },
    {
        let n = self.entries.len();
        let mut i: usize = 0;
        while i < n
            invariant
                i <= n,
                n == self.entries@.len(),
                forall|j: int| 0 <= j < i ==> self.entries@[j].0 != key,
            decreases n - i,
        {
            if self.entries[i].0 == key {
                return Some(i);
            }
            i = i + 1;
        }
        None
    }

    /// The accumulated delta recorded for `key`, zero when the key is absent.
    pub fn get(&self, key: UpdateKey) -> (r: i64)
        requires
            self.wf(),
        ensures
            r as int == delta_of(self@, key),
    {
        proof {
            lemma_seq_to_map_characterization(self.entries@);
        }
        match self.position(key) {
            Some(i) => self.entries[i].1,
            None => 0,
        }
    }

    /// Adds `delta` to the accumulated change for `key`, inserting the key
    /// when absent and removing it when the new sum is exactly zero. Returns
    /// the new sum.
    pub fn update(&mut self, key: UpdateKey, delta: i64) -> (r: i64)
        requires
            old(self).wf(),
            i64::MIN <= delta_of(old(self)@, key) + delta <= i64::MAX,
        ensures
            final(self).wf(),
            final(self)@ == updated(old(self)@, key, delta as int),
            r as int == delta_of(old(self)@, key) + delta,
    {
        proof {
            lemma_seq_to_map_characterization(self.entries@);
        }
        let ghost s0 = self.entries@;
        let ghost m0 = self@;
        match self.position(key) {
            Some(i) => {
                let cur = self.entries[i].1;
                assert(cur as int == delta_of(m0, key));
                let sum = cur + delta;
                if sum == 0 {
                    self.entries.remove(i);
                    proof {
                        let s1 = self.entries@;
                        lemma_seq_to_map_no_zeros(s0);
                        assert forall|a: int, b: int| 0 <= a < b < s1.len() implies s1[a].0
                            != s1[b].0 by {
                            let a0: int = if a < i { a } else { a + 1 };
                            let b0: int = if b < i { b } else { b + 1 };
                            assert(s1[a] == s0[a0] && s1[b] == s0[b0]);
                        }
                        assert forall|j: int| 0 <= j < s1.len() implies s1[j].1 != 0 by {
                            let j0: int = if j < i { j } else { j + 1 };
                            assert(s1[j] == s0[j0]);
                        }
                        lemma_seq_to_map_characterization(s1);
                        lemma_seq_to_map_no_zeros(s1);
                        assert forall|k: UpdateKey| m0.remove(key).contains_key(k)
                            implies m0.remove(key)[k] != 0 by {}
                        assert forall|k: UpdateKey|
                            delta_of(seq_to_map(s1), k) == delta_of(m0.remove(key), k) by {
                            if k == key {
                                assert(!seq_to_map(s1).contains_key(k)) by {
                                    if seq_to_map(s1).contains_key(k) {
                                        let j = choose|j: int|
                                            0 <= j < s1.len() && (#[trigger] s1[j]).0 == k;
                                        let j0: int = if j < i { j } else { j + 1 };
                                        assert(s1[j] == s0[j0]);
                                        assert(s0[j0].0 == s0[i as int].0 && j0 != i);
                                    }
                                }
                            } else {
                                if seq_to_map(s1).contains_key(k) {
                                    let j = choose|j: int|
                                        0 <= j < s1.len() && (#[trigger] s1[j]).0 == k;
                                    let j0: int = if j < i { j } else { j + 1 };
                                    assert(s1[j] == s0[j0]);
                                    assert(seq_to_map(s1)[s1[j].0] == s1[j].1 as int);
                                    assert(seq_to_map(s0)[s0[j0].0] == s0[j0].1 as int);
                                    assert(m0.contains_key(k));
                                } else {
                                    assert(!m0.contains_key(k)) by {
                                        if m0.contains_key(k) {
                                            let j0 = choose|j0: int|
                                                0 <= j0 < s0.len() && (#[trigger] s0[j0]).0 == k;
                                            assert(j0 != i);
                                            let j: int = if j0 < i { j0 } else { j0 - 1 };
                                            assert(s1[j] == s0[j0]);
                                        }
                                    }
                                }
                            }
                        }
                        lemma_no_zeros_ext(seq_to_map(s1), m0.remove(key));
                    }
                } else {
                    self.entries.set(i, (key, sum));
                    proof {
                        let s1 = self.entries@;
                        lemma_seq_to_map_no_zeros(s0);
                        assert(forall|j: int|
                            0 <= j < s1.len() ==> (#[trigger] s1[j]).0 == s0[j].0);
                        lemma_seq_to_map_characterization(s1);
                        lemma_seq_to_map_no_zeros(s1);
                        assert forall|k: UpdateKey| m0.insert(key, sum as int).contains_key(k)
                            implies m0.insert(key, sum as int)[k] != 0 by {}
                        assert forall|k: UpdateKey|
                            delta_of(seq_to_map(s1), k) == delta_of(m0.insert(key, sum as int), k) by {
                            if k == key {
                                assert(s1[i as int].0 == k);
                                assert(seq_to_map(s1)[s1[i as int].0] == s1[i as int].1 as int);
                            } else {
                                if seq_to_map(s1).contains_key(k) {
                                    let j = choose|j: int|
                                        0 <= j < s1.len() && (#[trigger] s1[j]).0 == k;
                                    assert(j != i);
                                    assert(s1[j] == s0[j]);
                                    assert(seq_to_map(s1)[s1[j].0] == s1[j].1 as int);
                                    assert(seq_to_map(s0)[s0[j].0] == s0[j].1 as int);
                                    assert(m0.contains_key(k));
                                } else {
                                    assert(!m0.contains_key(k)) by {
                                        if m0.contains_key(k) {
                                            let j0 = choose|j0: int|
                                                0 <= j0 < s0.len() && (#[trigger] s0[j0]).0 == k;
                                            assert(s1[j0].0 == s0[j0].0);
                                        }
                                    }
                                }
                            }
                        }
                        lemma_no_zeros_ext(seq_to_map(s1), m0.insert(key, sum as int));
                    }
                }
                sum
            },
            None => {
                assert(delta_of(m0, key) == 0) by {
                    if m0.contains_key(key) {
                        let j = choose|j: int| 0 <= j < s0.len() && (#[trigger] s0[j]).0 == key;
                    }
                }
                if delta != 0 {
                    self.entries.push((key, delta));
                    proof {
                        let s1 = self.entries@;
                        assert(s1.drop_last() =~= s0);
                        assert(forall|j: int| 0 <= j < s0.len() ==> (#[trigger] s1[j]) == s0[j]);
                        assert(seq_to_map(s1) == m0.insert(key, delta as int));
                    }
                } else {
                    proof {
                        assert(m0.remove(key) =~= m0);
                    }
                }
                delta
            },
        }
    }

    /// Folds a whole batch of received updates into the map, first to last.
    pub fn absorb(&mut self, updates: &Vec<(UpdateKey, i64)>)
        requires
            old(self).wf(),
            fold_fits(old(self)@, updates@),
        ensures
            final(self).wf(),
            final(self)@ == fold_updates(old(self)@, updates@),
    {
        let ghost m0 = self@;
        let n = updates.len();
        let mut i: usize = 0;
        while i < n
            invariant
                i <= n,
                n == updates@.len(),
                self.wf(),
                fold_fits(m0, updates@),
                self@ == fold_updates(m0, updates@.take(i as int)),
            decreases n - i,
        {
            proof {
                lemma_take_step(updates@, i as int);
                lemma_fold_fits_prefix(m0, updates@, i as int + 1);
                assert(fold_fits(m0, updates@.take(i as int + 1)));
            }
            let pair = updates[i];
            self.update(pair.0, pair.1);
            proof {
                assert(fold_updates(m0, updates@.take(i as int + 1)) == updated(
                    fold_updates(m0, updates@.take(i as int)),
                    updates@[i as int].0,
                    updates@[i as int].1 as int,
                ));
            }
            i = i + 1;
        }
        proof {
            assert(updates@.take(n as int) =~= updates@);
        }
    }

    /// Hands back every entry as an ordered snapshot and empties the map in
    /// one step. The snapshot's order carries no meaning; what it determines
    /// is the per-key sum, which equals what the map held.
    pub fn snapshot_and_clear(&mut self) -> (r: Vec<(UpdateKey, i64)>)
        requires
            old(self).wf(),
        ensures
            final(self).wf(),
            final(self)@ == Map::<UpdateKey, int>::empty(),
            distinct_keys(r@),
            no_zero_deltas(r@),
            seq_to_map(r@) == old(self)@,
            forall|k: UpdateKey| sum_for(r@, k) == delta_of(old(self)@, k),
    {
        let mut taken: Vec<(UpdateKey, i64)> = Vec::new();
        core::mem::swap(&mut self.entries, &mut taken);
        proof {
            assert forall|k: UpdateKey| sum_for(taken@, k) == delta_of(old(self)@, k) by {
                lemma_sum_for_distinct(taken@, k);
            }
        }
        taken
    }

    /// An independent, fully-owned copy: mutating either map afterwards
    /// leaves the other as it was.
    pub fn duplicate(&self) -> (r: CountMap)
        requires
            self.wf(),
        ensures
            r.wf(),
            r@ == self@,
    {
        let mut entries: Vec<(UpdateKey, i64)> = Vec::new();
        let n = self.entries.len();
        let mut i: usize = 0;
        while i < n
            invariant
                i <= n,
                n == self.entries@.len(),
                entries@ == self.entries@.take(i as int),
            decreases n - i,
        {
            let pair = self.entries[i];
            entries.push(pair);
            proof {
                assert(self.entries@.take(i as int + 1) =~= self.entries@.take(i as int).push(
                    pair,
                ));
            }
            i = i + 1;
        }
        proof {
            assert(self.entries@.take(n as int) =~= self.entries@);
        }
        CountMap { entries }
    }
}

} // verus!
