//! The expiry-ordered secondary index: a mapping from expiration instant to
//! the keys expiring then, kept in ascending instant order so that a sweep
//! only touches buckets whose instant has been reached.

use vstd::prelude::*;

verus! {

use vstd::map::*;

/// One bucket of the index: every key in `keys` expires at `timestamp`.
struct ExpiryBucket {
    timestamp: u64,
    keys: Vec<u64>,
}

/// The secondary index.  Abstractly it is a map from expiration instant to a
/// non-empty set of keys, with every key in at most one bucket; concretely it
/// is a vector of buckets sorted by strictly increasing instant.
pub struct ExpiryIndex {
    buckets: Vec<ExpiryBucket>,
}

/// The abstract effect of registering `key` under `timestamp`.
pub open spec fn register_spec(m: Map<u64, Set<u64>>, timestamp: u64, key: u64) -> Map<
    u64,
    Set<u64>,
> {
    let s = if m.contains_key(timestamp) {
        m[timestamp]
    } else {
        Set::<u64>::empty()
    };
    m.insert(timestamp, s.insert(key))
}

/// The abstract effect of unregistering `key` from the bucket for
/// `timestamp`: the key leaves the bucket, and the bucket vanishes when it
/// becomes empty.  A no-op when the bucket or the key is absent.
pub open spec fn unregister_spec(m: Map<u64, Set<u64>>, timestamp: u64, key: u64) -> Map<
    u64,
    Set<u64>,
> {
    if m.contains_key(timestamp) {
        let s = m[timestamp].remove(key);
        if s === Set::<u64>::empty() {
            m.remove(timestamp)
        } else {
            m.insert(timestamp, s)
        }
    } else {
        m
    }
}

/// The keys of all buckets whose instant has been reached at `now`.
pub open spec fn due_keys(m: Map<u64, Set<u64>>, now: u64) -> Set<u64> {
    Set::new(
        |k: u64| exists|t: u64| #[trigger] m.contains_key(t) && t <= now && m[t].contains(k),
    )
}

/// The part of the index whose instants lie strictly beyond `now`.
pub open spec fn future_part(m: Map<u64, Set<u64>>, now: u64) -> Map<u64, Set<u64>> {
    Map::new(|t: u64| m.contains_key(t) && t > now, |t: u64| m[t])
}

/// Whether `key` sits in no bucket of `m` at all.
pub open spec fn key_in_no_bucket(m: Map<u64, Set<u64>>, key: u64) -> bool {
    forall|t: u64| #[trigger] m.contains_key(t) ==> !m[t].contains(key)
}

impl ExpiryIndex {
    spec fn ts_at(self, i: int) -> u64 {
        self.buckets@[i].timestamp
    }

    spec fn keys_at(self, i: int) -> Seq<u64> {
        self.buckets@[i].keys@
    }

    spec fn n_buckets(self) -> int {
        self.buckets@.len() as int
    }

    /// The representation invariant: instants strictly increasing, buckets
    /// non-empty, keys within a bucket distinct, and no key in two buckets.
    pub closed spec fn wf(self) -> bool {
        &&& forall|i: int, j: int|
            0 <= i < j < self.n_buckets() ==> #[trigger] self.ts_at(i) < #[trigger] self.ts_at(j)
        &&& forall|i: int| 0 <= i < self.n_buckets() ==> (#[trigger] self.keys_at(i)).len() > 0
        &&& forall|i: int|
            0 <= i < self.n_buckets() ==> (#[trigger] self.keys_at(i)).no_duplicates()
        &&& forall|i: int, j: int, k: u64|
            0 <= i < self.n_buckets() && 0 <= j < self.n_buckets() && i != j
                && #[trigger] self.keys_at(i).contains(k) ==> !#[trigger] self.keys_at(j).contains(
                k,
            )
    }

    spec fn has_ts(self, t: u64) -> bool {
        exists|i: int| 0 <= i < self.n_buckets() && #[trigger] self.ts_at(i) == t
    }

    spec fn idx_of(self, t: u64) -> int {
        choose|i: int| 0 <= i < self.n_buckets() && #[trigger] self.ts_at(i) == t
    }
}

impl View for ExpiryIndex {
    type V = Map<u64, Set<u64>>;

    closed spec fn view(&self) -> Map<u64, Set<u64>> {
        Map::new(|t: u64| self.has_ts(t), |t: u64| self.keys_at(self.idx_of(t)).to_set())
    }
}


/// Membership in a pushed sequence.
proof fn lemma_push_contains(s: Seq<u64>, v: u64, k: u64)
    ensures
        s.push(v).contains(k) <==> (s.contains(k) || k == v),
{
    if s.push(v).contains(k) {
        let idx = choose|idx: int| 0 <= idx < s.push(v).len() && s.push(v)[idx] == k;
        if idx < s.len() {
            assert(s[idx] == k);
            assert(s.contains(k));
        }
    }
    if s.contains(k) {
        let idx = choose|idx: int| 0 <= idx < s.len() && s[idx] == k;
        assert(s.push(v)[idx] == k);
        assert(s.push(v).contains(k));
    }
    if k == v {
        assert(s.push(v)[s.len() as int] == k);
        assert(s.push(v).contains(k));
    }
}

impl ExpiryIndex {
    /// Timestamps are unique, so the index of a present timestamp is unique.
    proof fn lemma_idx_of(self, i: int)
        requires
            self.wf(),
            0 <= i < self.n_buckets(),
        ensures
            self.has_ts(self.ts_at(i)),
            self.idx_of(self.ts_at(i)) == i,
            self@.contains_key(self.ts_at(i)),
            self@[self.ts_at(i)] == self.keys_at(i).to_set(),
    {
        assert(self.has_ts(self.ts_at(i)));
        let j = self.idx_of(self.ts_at(i));
        if i < j {
            assert(self.ts_at(i) < self.ts_at(j));
        }
        if j < i {
            assert(self.ts_at(j) < self.ts_at(i));
        }
    }

    /// Creates an empty index.
    pub fn new() -> (idx: ExpiryIndex)
        ensures
            idx.wf(),
            idx@ == Map::<u64, Set<u64>>::empty(),
    {
        let idx = ExpiryIndex { buckets: Vec::new() };
        proof {
            assert(idx@ =~= Map::<u64, Set<u64>>::empty());
        }
        idx
    }

    /// Removes every bucket.
    pub fn clear(&mut self)
        ensures
            final(self).wf(),
            final(self)@ == Map::<u64, Set<u64>>::empty(),
    {
        self.buckets.clear();
        proof {
            assert(self@ =~= Map::<u64, Set<u64>>::empty());
        }
    }

    /// Adds `key` to the bucket for `timestamp`, creating the bucket if it is
    /// absent.  The caller guarantees that the key is in no bucket yet.
    pub fn register(&mut self, timestamp: u64, key: u64)
        requires
            old(self).wf(),
            key_in_no_bucket(old(self)@, key),
        ensures
            final(self).wf(),
            final(self)@ == register_spec(old(self)@, timestamp, key),
    {
        let n = self.buckets.len();
        let mut i: usize = 0;
        while i < n && self.buckets[i].timestamp < timestamp
            invariant
                *self == *old(self),
                n == self.n_buckets(),
                0 <= i <= n,
                forall|j: int| 0 <= j < i ==> #[trigger] self.ts_at(j) < timestamp,
            decreases n - i,
        {
            i += 1;
        }
        if i < n && self.buckets[i].timestamp == timestamp {
            proof {
                self.lemma_idx_of(i as int);
                assert(self@.contains_key(timestamp));
                assert(!self.keys_at(i as int).to_set().contains(key));
            }
            let mut b = self.buckets.remove(i);
            b.keys.push(key);
            self.buckets.insert(i, b);
            proof {
                let pre = *old(self);
                assert(self.buckets@ =~= pre.buckets@.update(
                    i as int,
                    self.buckets@[i as int],
                ));
                assert(self.keys_at(i as int) == pre.keys_at(i as int).push(key));
                assert forall|j: int| 0 <= j < self.n_buckets() && j != i implies self.buckets@[j]
                    == pre.buckets@[j] by {}
                self.lemma_register_existing(pre, i as int, timestamp, key);
            }
        } else {
            proof {
                assert(!old(self).has_ts(timestamp)) by {
                    if old(self).has_ts(timestamp) {
                        let j = choose|j: int|
                            0 <= j < old(self).n_buckets() && #[trigger] old(self).ts_at(j)
                                == timestamp;
                        if j < i {
                            assert(old(self).ts_at(j) < timestamp);
                        } else {
                            assert(i < n);
                            if i < j {
                                assert(old(self).ts_at(i as int) < old(self).ts_at(j));
                            }
                        }
                    }
                };
            }
            let mut ks: Vec<u64> = Vec::new();
            ks.push(key);
            self.buckets.insert(i, ExpiryBucket { timestamp, keys: ks });
            proof {
                let pre = *old(self);
                assert(self.buckets@ == pre.buckets@.insert(i as int, self.buckets@[i as int]));
                self.lemma_register_fresh(pre, i as int, timestamp, key);
            }
        }
    }

    /// After replacing bucket `i`'s keys by the same keys plus `key`, the
    /// index is well formed and its view is the registration of `key`.
    proof fn lemma_register_existing(self, pre: ExpiryIndex, i: int, timestamp: u64, key: u64)
        requires
            pre.wf(),
            key_in_no_bucket(pre@, key),
            0 <= i < pre.n_buckets(),
            pre.ts_at(i) == timestamp,
            self.n_buckets() == pre.n_buckets(),
            self.ts_at(i) == timestamp,
            self.keys_at(i) == pre.keys_at(i).push(key),
            forall|j: int| 0 <= j < self.n_buckets() && j != i ==> self.buckets@[j] == pre.buckets@[j],
        ensures
            self.wf(),
            self@ == register_spec(pre@, timestamp, key),
    {
        pre.lemma_idx_of(i);
        assert(!pre@[timestamp].contains(key));
        assert(!pre.keys_at(i).contains(key)) by {
            assert(pre.keys_at(i).to_set() == pre@[timestamp]);
        }
        assert forall|j: int| 0 <= j < self.n_buckets() implies #[trigger] self.ts_at(j)
            == pre.ts_at(j) by {
            if j != i {
                assert(self.buckets@[j] == pre.buckets@[j]);
            }
        }
        assert forall|j: int| 0 <= j < self.n_buckets() implies (#[trigger] self.keys_at(
            j,
        )).len() > 0 by {
            if j != i {
                assert(self.buckets@[j] == pre.buckets@[j]);
                assert(pre.keys_at(j).len() > 0);
            } else {
                assert(self.keys_at(i).len() == pre.keys_at(i).len() + 1);
            }
        }
        assert forall|j: int| 0 <= j < self.n_buckets() implies (#[trigger] self.keys_at(
            j,
        )).no_duplicates() by {
            if j == i {
                let s0 = pre.keys_at(i);
                assert(s0.no_duplicates());
                assert forall|p: int, q: int|
                    0 <= p < s0.push(key).len() && 0 <= q < s0.push(key).len() && p
                        != q implies s0.push(key)[p] != s0.push(key)[q] by {
                    if p < s0.len() && q < s0.len() {
                        assert(s0[p] != s0[q]);
                    } else if q == s0.len() {
                        assert(s0.push(key)[q] == key);
                        assert(s0.push(key)[p] == s0[p]);
                        assert(s0.contains(s0[p]));
                    } else {
                        assert(s0.push(key)[p] == key);
                        assert(s0.push(key)[q] == s0[q]);
                        assert(s0.contains(s0[q]));
                    }
                }
                assert(self.keys_at(i) == s0.push(key));
            } else {
                assert(self.buckets@[j] == pre.buckets@[j]);
                assert(pre.keys_at(j).no_duplicates());
            }
        }
        assert forall|p: int, q: int, k: u64|
            0 <= p < self.n_buckets() && 0 <= q < self.n_buckets() && p != q
                && #[trigger] self.keys_at(p).contains(k) implies !#[trigger] self.keys_at(
                q,
            ).contains(k) by {
            lemma_push_contains(pre.keys_at(i), key, k);
            if p == i {
                assert(self.buckets@[q] == pre.buckets@[q]);
                if k == key {
                    pre.lemma_idx_of(q);
                    assert(pre@.contains_key(pre.ts_at(q)));
                    assert(!pre@[pre.ts_at(q)].contains(key));
                    assert(pre.keys_at(q).to_set() == pre@[pre.ts_at(q)]);
                } else {
                    assert(pre.keys_at(p).contains(k));
                }
            } else if q == i {
                assert(self.buckets@[p] == pre.buckets@[p]);
                assert(pre.keys_at(p).contains(k));
                if k == key {
                    pre.lemma_idx_of(p);
                    assert(pre@.contains_key(pre.ts_at(p)));
                    assert(!pre@[pre.ts_at(p)].contains(key));
                    assert(pre.keys_at(p).to_set() == pre@[pre.ts_at(p)]);
                    assert(false);
                } else {
                    assert(!pre.keys_at(i).contains(k));
                }
            } else {
                assert(self.buckets@[p] == pre.buckets@[p]);
                assert(self.buckets@[q] == pre.buckets@[q]);
                assert(pre.keys_at(p).contains(k));
            }
        }
        assert(self.wf());
        assert forall|t: u64| true implies #[trigger] self.has_ts(t) == pre.has_ts(t) by {
            if self.has_ts(t) {
                let j = choose|j: int| 0 <= j < self.n_buckets() && #[trigger] self.ts_at(j) == t;
                assert(pre.ts_at(j) == t);
                assert(pre.has_ts(t));
            }
            if pre.has_ts(t) {
                let j = choose|j: int| 0 <= j < pre.n_buckets() && #[trigger] pre.ts_at(j) == t;
                assert(self.ts_at(j) == t);
                assert(self.has_ts(t));
            }
        }
        assert(self@ =~= register_spec(pre@, timestamp, key)) by {
            assert forall|t: u64| #[trigger] self.has_ts(t) implies self@[t] == register_spec(
                pre@,
                timestamp,
                key,
            )[t] by {
                let j = self.idx_of(t);
                self.lemma_idx_of(j);
                assert(self@[t] == self.keys_at(j).to_set());
                if t == timestamp {
                    assert(j == i) by {
                        if j < i {
                            assert(self.ts_at(j) < self.ts_at(i));
                        }
                        if i < j {
                            assert(self.ts_at(i) < self.ts_at(j));
                        }
                    }
                    assert forall|x: u64| true implies #[trigger] self.keys_at(i).to_set().contains(
                        x,
                    ) == pre.keys_at(i).to_set().insert(key).contains(x) by {
                        lemma_push_contains(pre.keys_at(i), key, x);
                    }
                    assert(self.keys_at(i).to_set() =~= pre.keys_at(i).to_set().insert(key));
                } else {
                    assert(j != i);
                    assert(self.buckets@[j] == pre.buckets@[j]);
                    pre.lemma_idx_of(j);
                }
            }
        }
    }

    /// After inserting a fresh one-key bucket at position `i`, the index is
    /// well formed and its view is the registration of `key`.
    proof fn lemma_register_fresh(self, pre: ExpiryIndex, i: int, timestamp: u64, key: u64)
        requires
            pre.wf(),
            key_in_no_bucket(pre@, key),
            !pre.has_ts(timestamp),
            0 <= i <= pre.n_buckets(),
            forall|j: int| 0 <= j < i ==> #[trigger] pre.ts_at(j) < timestamp,
            forall|j: int| i <= j < pre.n_buckets() ==> timestamp < #[trigger] pre.ts_at(j),
            self.buckets@ == pre.buckets@.insert(i, self.buckets@[i]),
            self.ts_at(i) == timestamp,
            self.keys_at(i) == seq![key],
        ensures
            self.wf(),
            self@ == register_spec(pre@, timestamp, key),
    {
        assert(self.n_buckets() == pre.n_buckets() + 1);
        assert forall|j: int| 0 <= j < i implies self.buckets@[j] == pre.buckets@[j] by {}
        assert forall|j: int| i < j < self.n_buckets() implies self.buckets@[j] == pre.buckets@[j
            - 1] by {}
        assert forall|p: int, q: int| 0 <= p < q < self.n_buckets() implies #[trigger] self.ts_at(
            p,
        ) < #[trigger] self.ts_at(q) by {
            if p == i {
                assert(self.ts_at(q) == pre.ts_at(q - 1));
            } else if q == i {
                assert(self.ts_at(p) == pre.ts_at(p));
            } else if p < i && q > i {
                assert(self.ts_at(p) == pre.ts_at(p));
                assert(self.ts_at(q) == pre.ts_at(q - 1));
                assert(pre.ts_at(p) < timestamp);
                assert(timestamp < pre.ts_at(q - 1));
            } else if q < i {
                assert(pre.ts_at(p) < pre.ts_at(q));
            } else {
                assert(pre.ts_at(p - 1) < pre.ts_at(q - 1));
            }
        }
        assert forall|p: int, q: int, k: u64|
            0 <= p < self.n_buckets() && 0 <= q < self.n_buckets() && p != q
                && #[trigger] self.keys_at(p).contains(k) implies !#[trigger] self.keys_at(
                q,
            ).contains(k) by {
            let pp = if p < i {
                p
            } else {
                p - 1
            };
            let qq = if q < i {
                q
            } else {
                q - 1
            };
            if p == i {
                if self.keys_at(q).contains(k) {
                    assert(k == key);
                    assert(pre.keys_at(qq).contains(key));
                    pre.lemma_idx_of(qq);
                    assert(pre.keys_at(qq).to_set() == pre@[pre.ts_at(qq)]);
                    assert(false);
                }
            } else if q == i {
                if self.keys_at(q).contains(k) {
                    assert(k == key);
                    assert(pre.keys_at(pp).contains(key));
                    pre.lemma_idx_of(pp);
                    assert(pre.keys_at(pp).to_set() == pre@[pre.ts_at(pp)]);
                    assert(false);
                }
            } else {
                assert(pre.keys_at(pp).contains(k));
                assert(pp != qq);
                assert(self.keys_at(q) == pre.keys_at(qq));
            }
        }
        assert forall|j: int| 0 <= j < self.n_buckets() implies (#[trigger] self.keys_at(
            j,
        )).len() > 0 && (#[trigger] self.keys_at(j)).no_duplicates() by {
            if j != i {
                let jj = if j < i {
                    j
                } else {
                    j - 1
                };
                assert(self.keys_at(j) == pre.keys_at(jj));
            } else {
                assert(self.keys_at(i) == seq![key]);
            }
        }
        assert(self.wf());
        assert forall|t: u64| true implies #[trigger] self.has_ts(t) == (pre.has_ts(t) || t
            == timestamp) by {
            if self.has_ts(t) {
                let j = choose|j: int|
                    0 <= j < self.n_buckets() && #[trigger] self.ts_at(j) == t;
                if j != i {
                    let jj = if j < i {
                        j
                    } else {
                        j - 1
                    };
                    assert(pre.ts_at(jj) == t);
                    assert(pre.has_ts(t));
                }
            }
            if pre.has_ts(t) {
                let j = choose|j: int|
                    0 <= j < pre.n_buckets() && #[trigger] pre.ts_at(j) == t;
                let jj = if j < i {
                    j
                } else {
                    j + 1
                };
                assert(self.ts_at(jj) == t);
                assert(self.has_ts(t));
            }
            if t == timestamp {
                assert(self.ts_at(i) == t);
                assert(self.has_ts(t));
            }
        }
        assert(self@ =~= register_spec(pre@, timestamp, key)) by {
            assert forall|t: u64| #[trigger] self.has_ts(t) implies self@[t] == register_spec(
                pre@,
                timestamp,
                key,
            )[t] by {
                let j = self.idx_of(t);
                self.lemma_idx_of(j);
                assert(self@[t] == self.keys_at(j).to_set());
                if t == timestamp {
                    assert(j == i) by {
                        self.lemma_idx_of(i);
                    }
                    assert(seq![key][0] == key);
                    assert(seq![key].contains(key));
                    assert(seq![key].to_set() =~= Set::<u64>::empty().insert(key));
                } else {
                    assert(j != i);
                    let jj = if j < i {
                        j
                    } else {
                        j - 1
                    };
                    assert(pre.ts_at(jj) == t);
                    pre.lemma_idx_of(jj);
                    assert(self.keys_at(j) == pre.keys_at(jj));
                }
            }
        }
    }
}

/// Membership in a sequence with one position removed, for duplicate-free
/// sequences.
proof fn lemma_remove_at_contains(s: Seq<u64>, j: int, x: u64)
    requires
        0 <= j < s.len(),
        s.no_duplicates(),
    ensures
        s.remove(j).contains(x) <==> (s.contains(x) && x != s[j]),
        s.remove(j).no_duplicates(),
{
    s.remove_ensures(j);
    let r = s.remove(j);
    if r.contains(x) {
        let p = choose|p: int| 0 <= p < r.len() && r[p] == x;
        if p < j {
            assert(s[p] == x);
            assert(s.contains(x));
        } else {
            assert(s[p + 1] == x);
            assert(s.contains(x));
        }
    }
    if s.contains(x) && x != s[j] {
        let p = choose|p: int| 0 <= p < s.len() && s[p] == x;
        if p < j {
            assert(r[p] == x);
            assert(r.contains(x));
        } else {
            assert(p != j);
            assert(r[p - 1] == x);
            assert(r.contains(x));
        }
    }
    assert forall|p: int, q: int| 0 <= p < r.len() && 0 <= q < r.len() && p != q implies r[p]
        != r[q] by {
        let pp = if p < j {
            p
        } else {
            p + 1
        };
        let qq = if q < j {
            q
        } else {
            q + 1
        };
        assert(r[p] == s[pp]);
        assert(r[q] == s[qq]);
    }
}

impl ExpiryIndex {
    /// The keys of the first `c` buckets.
    spec fn prefix_due(self, c: int) -> Set<u64> {
        Set::new(|k: u64| exists|p: int| 0 <= p < c && #[trigger] self.keys_at(p).contains(k))
    }

    /// Removes `key` from the bucket for `timestamp`, dropping the bucket if
    /// it becomes empty.  A no-op when the bucket or the key is absent.
    pub fn unregister(&mut self, timestamp: u64, key: u64)
        requires
            old(self).wf(),
        ensures
            final(self).wf(),
            final(self)@ == unregister_spec(old(self)@, timestamp, key),
    {
        let n = self.buckets.len();
        let mut i: usize = 0;
        while i < n && self.buckets[i].timestamp < timestamp
            invariant
                *self == *old(self),
                n == self.n_buckets(),
                0 <= i <= n,
                forall|p: int| 0 <= p < i ==> #[trigger] self.ts_at(p) < timestamp,
            decreases n - i,
        {
            i += 1;
        }
        if i < n && self.buckets[i].timestamp == timestamp {
            proof {
                self.lemma_idx_of(i as int);
            }
            let m = self.buckets[i].keys.len();
            let mut j: usize = 0;
            while j < m && self.buckets[i].keys[j] != key
                invariant
                    *self == *old(self),
                    n == self.n_buckets(),
                    i < n,
                    m == self.keys_at(i as int).len(),
                    0 <= j <= m,
                    forall|q: int| 0 <= q < j ==> self.keys_at(i as int)[q] != key,
                decreases m - j,
            {
                j += 1;
            }
            if j < m {
                let mut b = self.buckets.remove(i);
                let _ = b.keys.remove(j);
                if b.keys.len() > 0 {
                    self.buckets.insert(i, b);
                    proof {
                        let pre = *old(self);
                        assert(self.buckets@ =~= pre.buckets@.update(
                            i as int,
                            self.buckets@[i as int],
                        ));
                        self.lemma_unregister_shrink(pre, i as int, j as int, timestamp, key);
                    }
                } else {
                    proof {
                        let pre = *old(self);
                        assert(self.buckets@ =~= pre.buckets@.remove(i as int));
                        self.lemma_unregister_drop(pre, i as int, j as int, timestamp, key);
                    }
                }
            } else {
                proof {
                    let pre = *old(self);
                    pre.lemma_idx_of(i as int);
                    assert(!pre.keys_at(i as int).contains(key)) by {
                        if pre.keys_at(i as int).contains(key) {
                            let q = choose|q: int|
                                0 <= q < pre.keys_at(i as int).len() && pre.keys_at(i as int)[q]
                                    == key;
                            assert(pre.keys_at(i as int)[q] != key);
                        }
                    }
                    assert(pre@[timestamp] == pre.keys_at(i as int).to_set());
                    assert(pre@[timestamp].remove(key) =~= pre@[timestamp]);
                    let s0 = pre@[timestamp].remove(key);
                    assert(pre.keys_at(i as int).len() > 0);
                    assert(pre.keys_at(i as int).contains(pre.keys_at(i as int)[0]));
                    assert(s0.contains(pre.keys_at(i as int)[0]));
                    assert(s0 !== Set::<u64>::empty());
                    assert(unregister_spec(pre@, timestamp, key) =~= pre@);
                }
            }
        } else {
            proof {
                let pre = *old(self);
                assert(!pre.has_ts(timestamp)) by {
                    if pre.has_ts(timestamp) {
                        let q = choose|q: int|
                            0 <= q < pre.n_buckets() && #[trigger] pre.ts_at(q) == timestamp;
                        if q < i {
                            assert(pre.ts_at(q) < timestamp);
                        } else {
                            assert(i < n);
                            if (i as int) < q {
                                assert(pre.ts_at(i as int) < pre.ts_at(q));
                            }
                        }
                    }
                }
                assert(!pre@.contains_key(timestamp));
            }
        }
    }

    /// After removing position `j` from bucket `i`'s keys (with keys left
    /// over), the view is the bucket-shrinking unregistration.
    proof fn lemma_unregister_shrink(self, pre: ExpiryIndex, i: int, j: int, timestamp: u64, key: u64)
        requires
            pre.wf(),
            0 <= i < pre.n_buckets(),
            pre.ts_at(i) == timestamp,
            0 <= j < pre.keys_at(i).len(),
            pre.keys_at(i)[j] == key,
            self.n_buckets() == pre.n_buckets(),
            self.ts_at(i) == timestamp,
            self.keys_at(i) == pre.keys_at(i).remove(j),
            self.keys_at(i).len() > 0,
            forall|q: int| 0 <= q < self.n_buckets() && q != i ==> self.buckets@[q] == pre.buckets@[q],
        ensures
            self.wf(),
            self@ == unregister_spec(pre@, timestamp, key),
    {
        pre.lemma_idx_of(i);
        assert(pre.keys_at(i).no_duplicates());
        assert forall|x: u64| true implies #[trigger] self.keys_at(i).contains(x) == (
        pre.keys_at(i).contains(x) && x != key) by {
            lemma_remove_at_contains(pre.keys_at(i), j, x);
        }
        assert(self.keys_at(i).no_duplicates()) by {
            lemma_remove_at_contains(pre.keys_at(i), j, key);
        }
        assert forall|q: int| 0 <= q < self.n_buckets() implies #[trigger] self.ts_at(q)
            == pre.ts_at(q) by {
            if q != i {
                assert(self.buckets@[q] == pre.buckets@[q]);
            }
        }
        assert forall|q: int| 0 <= q < self.n_buckets() implies (#[trigger] self.keys_at(
            q,
        )).len() > 0 && (#[trigger] self.keys_at(q)).no_duplicates() by {
            if q != i {
                assert(self.buckets@[q] == pre.buckets@[q]);
                assert(pre.keys_at(q).len() > 0);
                assert(pre.keys_at(q).no_duplicates());
            }
        }
        assert forall|p: int, q: int, k: u64|
            0 <= p < self.n_buckets() && 0 <= q < self.n_buckets() && p != q
                && #[trigger] self.keys_at(p).contains(k) implies !#[trigger] self.keys_at(
                q,
            ).contains(k) by {
            if p == i {
                assert(pre.keys_at(i).contains(k));
                assert(self.buckets@[q] == pre.buckets@[q]);
                assert(!pre.keys_at(q).contains(k));
                assert(self.keys_at(q) == pre.keys_at(q));
            } else if q == i {
                assert(self.buckets@[p] == pre.buckets@[p]);
                assert(self.keys_at(p) == pre.keys_at(p));
                assert(pre.keys_at(p).contains(k));
                assert(!pre.keys_at(i).contains(k));
            } else {
                assert(self.buckets@[p] == pre.buckets@[p]);
                assert(self.buckets@[q] == pre.buckets@[q]);
                assert(self.keys_at(p) == pre.keys_at(p));
                assert(self.keys_at(q) == pre.keys_at(q));
                assert(pre.keys_at(p).contains(k));
                assert(!pre.keys_at(q).contains(k));
            }
        }
        assert(self.wf());
        assert forall|t: u64| true implies #[trigger] self.has_ts(t) == pre.has_ts(t) by {
            if self.has_ts(t) {
                let q = choose|q: int| 0 <= q < self.n_buckets() && #[trigger] self.ts_at(q) == t;
                assert(pre.ts_at(q) == t);
                assert(pre.has_ts(t));
            }
            if pre.has_ts(t) {
                let q = choose|q: int| 0 <= q < pre.n_buckets() && #[trigger] pre.ts_at(q) == t;
                assert(self.ts_at(q) == t);
                assert(self.has_ts(t));
            }
        }
        let spec_result = unregister_spec(pre@, timestamp, key);
        assert(pre@[timestamp].remove(key) !== Set::<u64>::empty()) by {
            assert(self.keys_at(i).contains(self.keys_at(i)[0]));
            assert(pre@[timestamp].remove(key).contains(self.keys_at(i)[0]));
        }
        assert(self@ =~= spec_result) by {
            assert forall|t: u64| #[trigger] self.has_ts(t) implies self@[t] == spec_result[t] by {
                let q = self.idx_of(t);
                self.lemma_idx_of(q);
                if t == timestamp {
                    assert(q == i) by {
                        if q < i {
                            assert(self.ts_at(q) < self.ts_at(i));
                        }
                        if i < q {
                            assert(self.ts_at(i) < self.ts_at(q));
                        }
                    }
                    assert(self.keys_at(i).to_set() =~= pre@[timestamp].remove(key));
                } else {
                    assert(q != i);
                    assert(self.buckets@[q] == pre.buckets@[q]);
                    pre.lemma_idx_of(q);
                }
            }
        }
    }

    /// After dropping bucket `i` (whose only key was `key`), the view is the
    /// bucket-removing unregistration.
    proof fn lemma_unregister_drop(self, pre: ExpiryIndex, i: int, j: int, timestamp: u64, key: u64)
        requires
            pre.wf(),
            0 <= i < pre.n_buckets(),
            pre.ts_at(i) == timestamp,
            0 <= j < pre.keys_at(i).len(),
            pre.keys_at(i)[j] == key,
            pre.keys_at(i).remove(j).len() == 0,
            self.buckets@ == pre.buckets@.remove(i),
        ensures
            self.wf(),
            self@ == unregister_spec(pre@, timestamp, key),
    {
        pre.lemma_idx_of(i);
        pre.keys_at(i).remove_ensures(j);
        assert(pre.keys_at(i).len() == 1);
        assert(j == 0);
        assert forall|x: u64| true implies #[trigger] pre.keys_at(i).contains(x) == (x == key) by {
            if pre.keys_at(i).contains(x) {
                let q = choose|q: int| 0 <= q < pre.keys_at(i).len() && pre.keys_at(i)[q] == x;
                assert(q == 0);
            }
            if x == key {
                assert(pre.keys_at(i)[0] == key);
            }
        }
        assert(self.n_buckets() == pre.n_buckets() - 1);
        pre.buckets@.remove_ensures(i);
        assert forall|q: int| 0 <= q < i implies self.buckets@[q] == pre.buckets@[q] by {}
        assert forall|q: int| i <= q < self.n_buckets() implies self.buckets@[q] == pre.buckets@[q
            + 1] by {}
        assert forall|p: int, q: int| 0 <= p < q < self.n_buckets() implies #[trigger] self.ts_at(
            p,
        ) < #[trigger] self.ts_at(q) by {
            let pp = if p < i {
                p
            } else {
                p + 1
            };
            let qq = if q < i {
                q
            } else {
                q + 1
            };
            assert(self.ts_at(p) == pre.ts_at(pp));
            assert(self.ts_at(q) == pre.ts_at(qq));
        }
        assert forall|q: int| 0 <= q < self.n_buckets() implies (#[trigger] self.keys_at(
            q,
        )).len() > 0 && (#[trigger] self.keys_at(q)).no_duplicates() by {
            let qq = if q < i {
                q
            } else {
                q + 1
            };
            assert(self.buckets@[q] == pre.buckets@[qq]);
            assert(pre.keys_at(qq).len() > 0);
            assert(pre.keys_at(qq).no_duplicates());
        }
        assert forall|p: int, q: int, k: u64|
            0 <= p < self.n_buckets() && 0 <= q < self.n_buckets() && p != q
                && #[trigger] self.keys_at(p).contains(k) implies !#[trigger] self.keys_at(
                q,
            ).contains(k) by {
            let pp = if p < i {
                p
            } else {
                p + 1
            };
            let qq = if q < i {
                q
            } else {
                q + 1
            };
            assert(self.buckets@[p] == pre.buckets@[pp]);
            assert(self.buckets@[q] == pre.buckets@[qq]);
            assert(self.keys_at(p) == pre.keys_at(pp));
            assert(self.keys_at(q) == pre.keys_at(qq));
            assert(pre.keys_at(pp).contains(k));
            assert(!pre.keys_at(qq).contains(k));
        }
        assert(self.wf());
        assert(pre@[timestamp].remove(key) =~= Set::<u64>::empty());
        assert forall|t: u64| true implies #[trigger] self.has_ts(t) == (pre.has_ts(t) && t
            != timestamp) by {
            if self.has_ts(t) {
                let q = choose|q: int| 0 <= q < self.n_buckets() && #[trigger] self.ts_at(q) == t;
                let qq = if q < i {
                    q
                } else {
                    q + 1
                };
                assert(pre.ts_at(qq) == t);
                assert(pre.has_ts(t));
                assert(qq != i) by {
                    if q < i {
                    } else {
                    }
                }
                assert(t != timestamp) by {
                    if t == timestamp {
                        pre.lemma_idx_of(qq);
                        pre.lemma_idx_of(i);
                        assert(pre.ts_at(qq) == pre.ts_at(i));
                        if qq < i {
                            assert(pre.ts_at(qq) < pre.ts_at(i));
                        }
                        if i < qq {
                            assert(pre.ts_at(i) < pre.ts_at(qq));
                        }
                    }
                }
            }
            if pre.has_ts(t) && t != timestamp {
                let q = choose|q: int| 0 <= q < pre.n_buckets() && #[trigger] pre.ts_at(q) == t;
                assert(q != i);
                let qq = if q < i {
                    q
                } else {
                    q - 1
                };
                assert(self.ts_at(qq) == t);
                assert(self.has_ts(t));
            }
        }
        assert(self@ =~= pre@.remove(timestamp)) by {
            assert forall|t: u64| #[trigger] self.has_ts(t) implies self@[t] == pre@.remove(
                timestamp,
            )[t] by {
                let q = self.idx_of(t);
                self.lemma_idx_of(q);
                let qq = if q < i {
                    q
                } else {
                    q + 1
                };
                assert(self.buckets@[q] == pre.buckets@[qq]);
                pre.lemma_idx_of(qq);
            }
        }
    }
}


impl ExpiryIndex {
    /// A suffix of a well-formed index whose dropped prefix is exactly the
    /// buckets due at `now` is itself well formed, its view is the future
    /// part, and the dropped keys are exactly the due keys.
    proof fn lemma_suffix_split(self, pre: ExpiryIndex, c: int, now: u64)
        requires
            pre.wf(),
            0 <= c <= pre.n_buckets(),
            self.buckets@ == pre.buckets@.subrange(c, pre.n_buckets()),
            forall|p: int| 0 <= p < c ==> #[trigger] pre.ts_at(p) <= now,
            forall|p: int| c <= p < pre.n_buckets() ==> #[trigger] pre.ts_at(p) > now,
        ensures
            self.wf(),
            self@ == future_part(pre@, now),
            pre.prefix_due(c) == due_keys(pre@, now),
    {
        assert(self.n_buckets() == pre.n_buckets() - c);
        assert forall|q: int| 0 <= q < self.n_buckets() implies self.buckets@[q] == pre.buckets@[q
            + c] by {}
        assert forall|p: int, q: int| 0 <= p < q < self.n_buckets() implies #[trigger] self.ts_at(
            p,
        ) < #[trigger] self.ts_at(q) by {
            assert(pre.ts_at(p + c) < pre.ts_at(q + c));
        }
        assert forall|q: int| 0 <= q < self.n_buckets() implies (#[trigger] self.keys_at(
            q,
        )).len() > 0 && (#[trigger] self.keys_at(q)).no_duplicates() by {
            assert(self.keys_at(q) == pre.keys_at(q + c));
            assert(pre.keys_at(q + c).len() > 0);
            assert(pre.keys_at(q + c).no_duplicates());
        }
        assert forall|p: int, q: int, k: u64|
            0 <= p < self.n_buckets() && 0 <= q < self.n_buckets() && p != q
                && #[trigger] self.keys_at(p).contains(k) implies !#[trigger] self.keys_at(
                q,
            ).contains(k) by {
            assert(self.keys_at(p) == pre.keys_at(p + c));
            assert(self.keys_at(q) == pre.keys_at(q + c));
            assert(pre.keys_at(p + c).contains(k));
            assert(!pre.keys_at(q + c).contains(k));
        }
        assert(self.wf());
        assert forall|t: u64| true implies #[trigger] self.has_ts(t) == (pre.has_ts(t) && t
            > now) by {
            if self.has_ts(t) {
                let q = choose|q: int| 0 <= q < self.n_buckets() && #[trigger] self.ts_at(q) == t;
                assert(pre.ts_at(q + c) == t);
                assert(pre.has_ts(t));
                assert(t > now);
            }
            if pre.has_ts(t) && t > now {
                let q = choose|q: int| 0 <= q < pre.n_buckets() && #[trigger] pre.ts_at(q) == t;
                assert(q >= c) by {
                    if q < c {
                        assert(pre.ts_at(q) <= now);
                    }
                }
                assert(self.ts_at(q - c) == t);
                assert(self.has_ts(t));
            }
        }
        assert(self@ =~= future_part(pre@, now)) by {
            assert forall|t: u64| #[trigger] self.has_ts(t) implies self@[t] == future_part(
                pre@,
                now,
            )[t] by {
                let q = self.idx_of(t);
                self.lemma_idx_of(q);
                assert(self.buckets@[q] == pre.buckets@[q + c]);
                pre.lemma_idx_of(q + c);
            }
        }
        assert(pre.prefix_due(c) =~= due_keys(pre@, now)) by {
            assert forall|k: u64| #[trigger] pre.prefix_due(c).contains(k) implies due_keys(
                pre@,
                now,
            ).contains(k) by {
                let pidx = choose|p: int|
                    0 <= p < c && #[trigger] pre.keys_at(p).contains(k);
                pre.lemma_idx_of(pidx);
                let t = pre.ts_at(pidx);
                assert(pre@.contains_key(t) && t <= now && pre@[t].contains(k));
            }
            assert forall|k: u64| #[trigger] due_keys(pre@, now).contains(k) implies pre.prefix_due(
                c,
            ).contains(k) by {
                let t = choose|t: u64|
                    #[trigger] pre@.contains_key(t) && t <= now && pre@[t].contains(k);
                let q = pre.idx_of(t);
                assert(pre.has_ts(t));
                pre.lemma_idx_of(q);
                assert(pre.ts_at(q) == t);
                assert(q < c) by {
                    if q >= c {
                        assert(pre.ts_at(q) > now);
                    }
                }
                assert(pre.keys_at(q).contains(k));
            }
        }
    }

    /// Removes every bucket whose instant has been reached at `now` and
    /// returns their keys; buckets beyond `now` stay untouched.  The early
    /// exit on the first future bucket is sound because the buckets are kept
    /// in ascending instant order.
    pub fn split_off_due(&mut self, now: u64) -> (due: Vec<u64>)
        requires
            old(self).wf(),
        ensures
            final(self).wf(),
            final(self)@ == future_part(old(self)@, now),
            due@.to_set() == due_keys(old(self)@, now),
            due@.no_duplicates(),
    {
        let mut due: Vec<u64> = Vec::new();
        let ghost mut c: int = 0;
        while self.buckets.len() > 0 && self.buckets[0].timestamp <= now
            invariant
                old(self).wf(),
                0 <= c <= old(self).n_buckets(),
                self.buckets@ == old(self).buckets@.subrange(c, old(self).n_buckets()),
                forall|p: int| 0 <= p < c ==> #[trigger] old(self).ts_at(p) <= now,
                due@.no_duplicates(),
                due@.to_set() == old(self).prefix_due(c),
            decreases self.buckets.len(),
        {
            proof {
                assert(self.buckets@[0] == old(self).buckets@[c]);
                assert(old(self).keys_at(c).no_duplicates());
                assert forall|a: int, b2: int|
                    0 <= a < due@.len() && 0 <= b2 < old(self).keys_at(c).len() implies due@[a]
                        != old(self).keys_at(c)[b2] by {
                    if due@[a] == old(self).keys_at(c)[b2] {
                        assert(due@.contains(due@[a]));
                        assert(due@.to_set().contains(due@[a]));
                        let pidx = choose|pp: int|
                            0 <= pp < c && #[trigger] old(self).keys_at(pp).contains(due@[a]);
                        assert(old(self).keys_at(c).contains(due@[a]));
                        assert(!old(self).keys_at(c).contains(due@[a]));
                    }
                }
                vstd::seq_lib::lemma_no_dup_in_concat(due@, old(self).keys_at(c));
            }
            let ghost prev_due = due@;
            let mut b = self.buckets.remove(0);
            due.append(&mut b.keys);
            proof {
                c = c + 1;
                assert(self.buckets@ =~= old(self).buckets@.subrange(
                    c,
                    old(self).n_buckets(),
                ));
                assert(due@ == prev_due + old(self).keys_at(c - 1));
                assert(due@.to_set() =~= old(self).prefix_due(c)) by {
                    assert forall|k: u64| #[trigger] due@.contains(k) implies old(self).prefix_due(
                        c,
                    ).contains(k) by {
                        let a = choose|a: int| 0 <= a < due@.len() && due@[a] == k;
                        if a < prev_due.len() {
                            assert(prev_due.contains(k));
                            assert(prev_due.to_set().contains(k));
                            let pidx = choose|pp: int|
                                0 <= pp < c - 1 && #[trigger] old(self).keys_at(pp).contains(k);
                            assert(old(self).keys_at(pidx).contains(k));
                        } else {
                            assert(due@[a] == old(self).keys_at(c - 1)[a - prev_due.len()]);
                            assert(old(self).keys_at(c - 1).contains(k));
                        }
                    }
                    assert forall|k: u64| #[trigger] old(self).prefix_due(c).contains(
                        k,
                    ) implies due@.contains(k) by {
                        let pidx = choose|pp: int|
                            0 <= pp < c && #[trigger] old(self).keys_at(pp).contains(k);
                        if pidx < c - 1 {
                            assert(old(self).prefix_due(c - 1).contains(k));
                            assert(prev_due.to_set().contains(k));
                            assert(prev_due.contains(k));
                            let a = choose|a: int|
                                0 <= a < prev_due.len() && prev_due[a] == k;
                            assert(due@[a] == k);
                        } else {
                            let a = choose|a: int|
                                0 <= a < old(self).keys_at(c - 1).len() && (#[trigger] old(
                                    self,
                                ).keys_at(c - 1)[a]) == k;
                            assert(due@[prev_due.len() + a] == k);
                        }
                    }
                }
            }
        }
        proof {
            assert forall|p: int| c <= p < old(self).n_buckets() implies #[trigger] old(
                self,
            ).ts_at(p) > now by {
                assert(self.n_buckets() > 0);
                assert(self.ts_at(0) == old(self).ts_at(c));
                assert(self.ts_at(0) > now);
                if p > c {
                    assert(old(self).ts_at(c) < old(self).ts_at(p));
                }
            }
            self.lemma_suffix_split(*old(self), c, now);
        }
        due
    }

    /// Counts the keys of all buckets whose instant has been reached at
    /// `now`, without modifying the index.
    pub fn due_key_count(&self, now: u64) -> (n: usize)
        requires
            self.wf(),
            due_keys(self@, now).finite(),
            due_keys(self@, now).len() <= usize::MAX,
        ensures
            n == due_keys(self@, now).len(),
    {
        let ghost mut seen: Seq<u64> = Seq::empty();
        let mut n: usize = 0;
        let len = self.buckets.len();
        let mut c: usize = 0;
        while c < len && self.buckets[c].timestamp <= now
            invariant
                self.wf(),
                due_keys(self@, now).finite(),
                due_keys(self@, now).len() <= usize::MAX,
                len == self.n_buckets(),
                0 <= c <= len,
                forall|p: int| 0 <= p < c ==> #[trigger] self.ts_at(p) <= now,
                seen.no_duplicates(),
                seen.to_set() == self.prefix_due(c as int),
                n == seen.len(),
            decreases len - c,
        {
            proof {
                assert(self.keys_at(c as int).no_duplicates());
                assert forall|a: int, b2: int|
                    0 <= a < seen.len() && 0 <= b2 < self.keys_at(c as int).len() implies seen[a]
                        != self.keys_at(c as int)[b2] by {
                    if seen[a] == self.keys_at(c as int)[b2] {
                        assert(seen.contains(seen[a]));
                        assert(seen.to_set().contains(seen[a]));
                        let pidx = choose|pp: int|
                            0 <= pp < c && #[trigger] self.keys_at(pp).contains(seen[a]);
                        assert(self.keys_at(c as int).contains(seen[a]));
                        assert(!self.keys_at(c as int).contains(seen[a]));
                    }
                }
                vstd::seq_lib::lemma_no_dup_in_concat(seen, self.keys_at(c as int));
                let ext = seen + self.keys_at(c as int);
                assert(ext.to_set() =~= self.prefix_due(c as int + 1)) by {
                    assert forall|k: u64| #[trigger] ext.contains(k) implies self.prefix_due(
                        c as int + 1,
                    ).contains(k) by {
                        let a = choose|a: int| 0 <= a < ext.len() && ext[a] == k;
                        if a < seen.len() {
                            assert(seen.contains(k));
                            assert(seen.to_set().contains(k));
                            let pidx = choose|pp: int|
                                0 <= pp < c && #[trigger] self.keys_at(pp).contains(k);
                            assert(self.keys_at(pidx).contains(k));
                        } else {
                            assert(ext[a] == self.keys_at(c as int)[a - seen.len()]);
                            assert(self.keys_at(c as int).contains(k));
                        }
                    }
                    assert forall|k: u64| #[trigger] self.prefix_due(c as int + 1).contains(
                        k,
                    ) implies ext.contains(k) by {
                        let pidx = choose|pp: int|
                            0 <= pp < c as int + 1 && #[trigger] self.keys_at(pp).contains(k);
                        if pidx < c as int {
                            assert(self.prefix_due(c as int).contains(k));
                            assert(seen.to_set().contains(k));
                            assert(seen.contains(k));
                            let a = choose|a: int| 0 <= a < seen.len() && seen[a] == k;
                            assert(ext[a] == k);
                        } else {
                            let a = choose|a: int|
                                0 <= a < self.keys_at(c as int).len() && (#[trigger] self.keys_at(
                                    c as int,
                                )[a]) == k;
                            assert(ext[seen.len() + a] == k);
                        }
                    }
                }
                assert(self.prefix_due(c as int + 1).subset_of(due_keys(self@, now))) by {
                    assert forall|k: u64| #[trigger] self.prefix_due(c as int + 1).contains(
                        k,
                    ) implies due_keys(self@, now).contains(k) by {
                        let pidx = choose|pp: int|
                            0 <= pp < c as int + 1 && #[trigger] self.keys_at(pp).contains(k);
                        self.lemma_idx_of(pidx);
                        let t = self.ts_at(pidx);
                        assert(self@.contains_key(t) && t <= now && self@[t].contains(k));
                    }
                }
                ext.unique_seq_to_set();
                vstd::set_lib::lemma_len_subset(
                    ext.to_set(),
                    due_keys(self@, now),
                );
                assert(n + self.keys_at(c as int).len() <= usize::MAX);
            }
            n = n + self.buckets[c].keys.len();
            proof {
                seen = seen + self.keys_at(c as int);
            }
            c += 1;
        }
        proof {
            assert forall|p: int| c <= p < len implies #[trigger] self.ts_at(p) > now by {
                assert((c as int) < len ==> self.ts_at(c as int) > now);
                if p > c {
                    assert(self.ts_at(c as int) < self.ts_at(p));
                }
            }
            assert(self.prefix_due(c as int) =~= due_keys(self@, now)) by {
                assert forall|k: u64| #[trigger] self.prefix_due(c as int).contains(
                    k,
                ) implies due_keys(self@, now).contains(k) by {
                    let pidx = choose|pp: int|
                        0 <= pp < c && #[trigger] self.keys_at(pp).contains(k);
                    self.lemma_idx_of(pidx);
                    let t = self.ts_at(pidx);
                    assert(self@.contains_key(t) && t <= now && self@[t].contains(k));
                }
                assert forall|k: u64| #[trigger] due_keys(self@, now).contains(
                    k,
                ) implies self.prefix_due(c as int).contains(k) by {
                    let t = choose|t: u64|
                        #[trigger] self@.contains_key(t) && t <= now && self@[t].contains(k);
                    let q = self.idx_of(t);
                    assert(self.has_ts(t));
                    self.lemma_idx_of(q);
                    assert(self.ts_at(q) == t);
                    assert(q < c) by {
                        if q >= c {
                            assert(self.ts_at(q) > now);
                        }
                    }
                    assert(self.keys_at(q).contains(k));
                }
            }
            seen.unique_seq_to_set();
        }
        n
    }
}


} // verus!
