//! The timed map: a key-to-value store whose entries may expire, composed of
//! a backing store, an expiry-ordered index and an injectable clock.

use vstd::prelude::*;

verus! {

use core::time::Duration;
use crate::backing::{GenericMap, MapKind};
use crate::clock::Clock;
use crate::duration::{duration_as_secs, duration_from_secs};
use crate::entry::{EntryStatus, ExpirableEntry};
use crate::error::TimedMapError;
use crate::expiry::{
    due_keys, future_part, key_in_no_bucket, register_spec, unregister_spec, ExpiryIndex,
};

/// Whether `k` sits in the bucket for `t`.
pub open spec fn in_bucket(e: Map<u64, Set<u64>>, t: u64, k: u64) -> bool {
    e.contains_key(t) && e[t].contains(k)
}

/// The index-consistency invariant: a key sits in the bucket for `t` exactly
/// when the store holds it with status `ExpiresAtSeconds(t)`; constant keys
/// sit in no bucket.
pub open spec fn consistent<V>(m: Map<u64, ExpirableEntry<V>>, e: Map<u64, Set<u64>>) -> bool {
    &&& forall|t: u64, k: u64|
        #[trigger] in_bucket(e, t, k) ==> m.contains_key(k) && m[k].status
            == EntryStatus::ExpiresAtSeconds(t)
    &&& forall|k: u64|
        #[trigger] m.contains_key(k) ==> match m[k].status {
            EntryStatus::Constant => true,
            EntryStatus::ExpiresAtSeconds(t) => in_bucket(e, t, k),
        }
}

/// What a checked read returns: the stored value, unless the key is absent
/// or its entry has expired as of `now`.
pub open spec fn spec_get<V>(m: Map<u64, ExpirableEntry<V>>, k: u64, now: u64) -> Option<V> {
    if m.contains_key(k) && !m[k].status.is_expired_at(now) {
        Some(m[k].value)
    } else {
        None
    }
}

/// What remains of an entry's lifetime at `now`: `None` when the key is
/// absent, expired, or constant.
pub open spec fn spec_remaining<V>(m: Map<u64, ExpirableEntry<V>>, k: u64, now: u64) -> Option<
    u64,
> {
    if m.contains_key(k) && !m[k].status.is_expired_at(now) {
        match m[k].status {
            EntryStatus::Constant => None,
            EntryStatus::ExpiresAtSeconds(t) => Some((t - now) as u64),
        }
    } else {
        None
    }
}

/// The store after a sweep at `now`: every entry due at `now` is gone and
/// every other entry is untouched.
pub open spec fn swept<V>(m: Map<u64, ExpirableEntry<V>>, now: u64) -> Map<u64, ExpirableEntry<V>> {
    Map::new(|k: u64| m.contains_key(k) && !m[k].status.is_due_at(now), |k: u64| m[k])
}

/// The index after the old bucket membership of `k` is retired: if the store
/// holds `k` with an expiration instant, `k` leaves that bucket.
pub open spec fn retired<V>(
    m: Map<u64, ExpirableEntry<V>>,
    e: Map<u64, Set<u64>>,
    k: u64,
) -> Map<u64, Set<u64>> {
    if m.contains_key(k) {
        match m[k].status {
            EntryStatus::Constant => e,
            EntryStatus::ExpiresAtSeconds(t) => unregister_spec(e, t, k),
        }
    } else {
        e
    }
}

/// The expiration instant `now + duration`, saturated to the far future on
/// overflow so that such an entry practically never expires.
pub open spec fn sat_add(now: u64, duration_secs: u64) -> u64 {
    if now + duration_secs > u64::MAX {
        u64::MAX
    } else {
        (now + duration_secs) as u64
    }
}

/// The incremented sweep tick, saturating so that a long run of checked
/// inserts under a large cap cannot wrap it around.
pub open spec fn next_tick(tick: u16) -> u16 {
    if tick < u16::MAX {
        (tick + 1) as u16
    } else {
        u16::MAX
    }
}


/// One checked expirable insert at reading `now`: the tick advances, the
/// sweep runs when it reaches the cap, the entry is installed expiring at
/// `now + duration` (saturating), the old membership is retired and the new
/// one registered, and the value previously stored (surviving the sweep) is
/// returned.
pub open spec fn spec_insert_expirable<C: Clock, V>(
    pre: TimedMap<C, V>,
    post: TimedMap<C, V>,
    result: Option<V>,
    k: u64,
    v: V,
    duration_secs: u64,
    now: u64,
) -> bool {
    let tick1 = next_tick(pre.tick());
    let do_sweep = tick1 >= pre.tick_cap();
    let m1 = if do_sweep {
        swept(pre.map_view(), now)
    } else {
        pre.map_view()
    };
    let e1 = if do_sweep {
        future_part(pre.index_view(), now)
    } else {
        pre.index_view()
    };
    let t = sat_add(now, duration_secs);
    &&& post.map_view() == m1.insert(
        k,
        ExpirableEntry::spec_with(v, EntryStatus::ExpiresAtSeconds(t)),
    )
    &&& post.index_view() == register_spec(retired(m1, e1, k), t, k)
    &&& post.tick() == (if do_sweep {
        0
    } else {
        tick1
    })
    &&& result == (if m1.contains_key(k) {
        Some(m1[k].value)
    } else {
        Option::<V>::None
    })
}

/// One unchecked expirable insert at reading `now`: no tick, no sweep; the
/// entry is installed expiring at `now + duration` (saturating), the old
/// membership retired, the new one registered, and the previously stored
/// value returned.
pub open spec fn spec_insert_expirable_unchecked<C: Clock, V>(
    pre: TimedMap<C, V>,
    post: TimedMap<C, V>,
    result: Option<V>,
    k: u64,
    v: V,
    duration_secs: u64,
    now: u64,
) -> bool {
    let t = sat_add(now, duration_secs);
    &&& post.map_view() == pre.map_view().insert(
        k,
        ExpirableEntry::spec_with(v, EntryStatus::ExpiresAtSeconds(t)),
    )
    &&& post.index_view() == register_spec(retired(pre.map_view(), pre.index_view(), k), t, k)
    &&& result == (if pre.map_view().contains_key(k) {
        Some(pre.map_view()[k].value)
    } else {
        Option::<V>::None
    })
}

/// One checked constant insert at reading `now`: the tick advances, the
/// sweep runs when it reaches the cap, the entry is installed as constant,
/// the old membership is retired, and the value previously stored (surviving
/// the sweep) is returned.
pub open spec fn spec_insert_constant<C: Clock, V>(
    pre: TimedMap<C, V>,
    post: TimedMap<C, V>,
    result: Option<V>,
    k: u64,
    v: V,
    now: u64,
) -> bool {
    let tick1 = next_tick(pre.tick());
    let do_sweep = tick1 >= pre.tick_cap();
    let m1 = if do_sweep {
        swept(pre.map_view(), now)
    } else {
        pre.map_view()
    };
    let e1 = if do_sweep {
        future_part(pre.index_view(), now)
    } else {
        pre.index_view()
    };
    &&& post.map_view() == m1.insert(k, ExpirableEntry::spec_with(v, EntryStatus::Constant))
    &&& post.index_view() == retired(m1, e1, k)
    &&& post.tick() == (if do_sweep {
        0
    } else {
        tick1
    })
    &&& result == (if m1.contains_key(k) {
        Some(m1[k].value)
    } else {
        Option::<V>::None
    })
}


/// One expiration update at reading `now`: when `k` is present, its entry
/// keeps its value but now expires at `now + duration` (saturating), the old
/// bucket membership is retired, the new one registered, and the prior
/// status is returned (`None` when it was constant).  When `k` is absent,
/// nothing changes and the update fails.
pub open spec fn spec_update_expiration<C: Clock, V>(
    pre: TimedMap<C, V>,
    post: TimedMap<C, V>,
    result: Result<Option<EntryStatus>, TimedMapError>,
    k: u64,
    duration_secs: u64,
    now: u64,
) -> bool {
    if pre.map_view().contains_key(k) {
        let t = sat_add(now, duration_secs);
        let old_status = pre.map_view()[k].status;
        &&& post.map_view() == pre.map_view().insert(
            k,
            ExpirableEntry::spec_with(pre.map_view()[k].value, EntryStatus::ExpiresAtSeconds(t)),
        )
        &&& post.index_view() == register_spec(
            retired(pre.map_view(), pre.index_view(), k),
            t,
            k,
        )
        &&& result == Ok::<Option<EntryStatus>, TimedMapError>(
            match old_status {
                EntryStatus::Constant => None,
                EntryStatus::ExpiresAtSeconds(_) => Some(old_status),
            },
        )
    } else {
        &&& post.map_view() == pre.map_view()
        &&& post.index_view() == pre.index_view()
        &&& result == Err::<Option<EntryStatus>, TimedMapError>(TimedMapError::EntryNotFound)
    }
}

/// Associates `u64` keys with values of type `V`; each entry may expire
/// after a chosen instant.  `C` supplies the time.
///
/// Checked inserts trigger an amortized sweep of expired entries; the
/// `*_unchecked` operations leave sweeping to `drop_expired_entries`.
pub struct TimedMap<C, V> {
    /// The injected time source.
    pub clock: C,
    map: GenericMap<V>,
    expiries: ExpiryIndex,
    expiration_tick: u16,
    expiration_tick_cap: u16,
}

impl<C: Clock, V> TimedMap<C, V> {
    /// The injected clock, for contracts.
    pub closed spec fn spec_clock(self) -> C {
        self.clock
    }

    /// The abstract content of the backing store.
    pub closed spec fn map_view(self) -> Map<u64, ExpirableEntry<V>> {
        self.map@
    }

    /// The abstract content of the expiry index.
    pub closed spec fn index_view(self) -> Map<u64, Set<u64>> {
        self.expiries@
    }

    /// The number of checked inserts since the last automatic sweep.
    pub closed spec fn tick(self) -> u16 {
        self.expiration_tick
    }

    /// The number of checked inserts between automatic sweeps.
    pub closed spec fn tick_cap(self) -> u16 {
        self.expiration_tick_cap
    }

    /// Well-formedness: the index is internally sound, it is consistent with
    /// the backing store, and the store is finite.
    pub closed spec fn wf(self) -> bool {
        &&& self.expiries.wf()
        &&& consistent(self.map@, self.expiries@)
        &&& self.map@.dom().finite()
    }

    /// Creates an empty map over a `BTreeMap` backing store.
    ///
    /// Uses the provided `clock` to handle expiration times.
    pub fn new(clock: C) -> (map: Self)
        ensures
            map.wf(),
            map.spec_clock() == clock,
            map.map_view() == Map::<u64, ExpirableEntry<V>>::empty(),
            map.index_view() == Map::<u64, Set<u64>>::empty(),
            map.tick() == 0,
            map.tick_cap() == 1,
    {
        Self::new_with_map_kind(clock, MapKind::BTreeMap)
    }

    /// Creates an empty map over the backing store chosen by `map_kind`.
    ///
    /// Uses the provided `clock` to handle expiration times.
    pub fn new_with_map_kind(clock: C, map_kind: MapKind) -> (map: Self)
        ensures
            map.wf(),
            map.spec_clock() == clock,
            map.map_view() == Map::<u64, ExpirableEntry<V>>::empty(),
            map.index_view() == Map::<u64, Set<u64>>::empty(),
            map.tick() == 0,
            map.tick_cap() == 1,
    {
        let map = TimedMap {
            clock,
            map: GenericMap::new(map_kind),
            expiries: ExpiryIndex::new(),
            expiration_tick: 0,
            expiration_tick_cap: 1,
        };
        proof {
            assert forall|t: u64, k: u64| #[trigger] in_bucket(map.expiries@, t, k) implies map.map@.contains_key(
                k,
            ) && map.map@[k].status == EntryStatus::ExpiresAtSeconds(t) by {
                assert(!map.expiries@.contains_key(t));
            }
        }
        map
    }

    /// Configures how many checked inserts pass between automatic sweeps.
    /// The default is 1: a sweep on every checked insert.
    pub fn expiration_tick_cap(self, expiration_tick_cap: u16) -> (map: Self)
        ensures
            map.spec_clock() == self.spec_clock(),
            map.map_view() == self.map_view(),
            map.index_view() == self.index_view(),
            map.tick() == self.tick(),
            map.tick_cap() == expiration_tick_cap,
            self.wf() ==> map.wf(),
    {
        TimedMap { expiration_tick_cap, ..self }
    }

    /// Replaces the injected clock, leaving the stored entries, the expiry
    /// index and the sweep bookkeeping untouched.
    pub fn set_clock(&mut self, clock: C)
        ensures
            final(self).spec_clock() == clock,
            final(self).map_view() == old(self).map_view(),
            final(self).index_view() == old(self).index_view(),
            final(self).tick() == old(self).tick(),
            final(self).tick_cap() == old(self).tick_cap(),
            old(self).wf() ==> final(self).wf(),
    {
        self.clock = clock;
    }

    /// The total number of entries, expired ones included.
    pub fn len_unchecked(&self) -> (n: usize)
        ensures
            n == self.map_view().dom().len(),
    {
        self.map.len()
    }

    /// Whether the map holds no entries at all, expired ones included.
    pub fn is_empty(&self) -> (empty: bool)
        ensures
            empty == self.map_view().is_empty(),
    {
        self.map.is_empty()
    }

    /// Every stored key, each exactly once, in unspecified order.
    pub fn keys(&self) -> (keys: Vec<u64>)
        ensures
            keys@.no_duplicates(),
            keys@.to_set() == self.map_view().dom(),
    {
        self.map.keys()
    }

    /// Removes every entry, and with them every expiry bucket, so that the
    /// store and the index stay consistent.
    pub fn clear(&mut self)
        ensures
            final(self).wf(),
            final(self).spec_clock() == old(self).spec_clock(),
            final(self).map_view() == Map::<u64, ExpirableEntry<V>>::empty(),
            final(self).index_view() == Map::<u64, Set<u64>>::empty(),
            final(self).tick() == old(self).tick(),
            final(self).tick_cap() == old(self).tick_cap(),
    {
        self.map.clear();
        self.expiries.clear();
        proof {
            assert(self.map@.dom() =~= Set::<u64>::empty());
            assert forall|t: u64, k: u64| #[trigger] in_bucket(self.expiries@, t, k) implies self.map@.contains_key(
                k,
            ) && self.map@[k].status == EntryStatus::ExpiresAtSeconds(t) by {
                assert(!self.expiries@.contains_key(t));
            }
        }
    }


    /// Retiring a key's bucket membership leaves it in no bucket, touches no
    /// other key, and keeps the index consistent with the store less that
    /// key.
    proof fn lemma_retired(m: Map<u64, ExpirableEntry<V>>, e: Map<u64, Set<u64>>, k: u64)
        requires
            consistent(m, e),
        ensures
            key_in_no_bucket(retired(m, e, k), k),
            forall|t: u64, k2: u64|
                k2 != k ==> (#[trigger] in_bucket(retired(m, e, k), t, k2) <==> in_bucket(
                    e,
                    t,
                    k2,
                )),
    {
        let e1 = retired(m, e, k);
        if m.contains_key(k) && (m[k].status matches EntryStatus::ExpiresAtSeconds(t0)) {
            let t0 = m[k].status->ExpiresAtSeconds_0;
            assert forall|t: u64| #[trigger] e1.contains_key(t) implies !e1[t].contains(k) by {
                if t == t0 {
                    if e[t0].remove(k) === Set::<u64>::empty() {
                        assert(!e1.contains_key(t0));
                    } else {
                        assert(e1[t0] == e[t0].remove(k));
                    }
                } else {
                    assert(e1[t] == e[t]);
                    if e[t].contains(k) {
                        assert(in_bucket(e, t, k));
                    }
                }
            }
            assert forall|t: u64, k2: u64| k2 != k implies (#[trigger] in_bucket(e1, t, k2)
                <==> in_bucket(e, t, k2)) by {
                if t == t0 {
                    if e[t0].remove(k) === Set::<u64>::empty() {
                        if in_bucket(e, t0, k2) {
                            assert(e[t0].remove(k).contains(k2));
                        }
                        assert(!e1.contains_key(t0));
                    } else {
                        assert(e1[t0] == e[t0].remove(k));
                    }
                } else {
                    if e1.contains_key(t) {
                        assert(e1[t] == e[t]);
                    }
                    if e.contains_key(t) {
                        assert(e1.contains_key(t) && e1[t] == e[t]);
                    }
                }
            }
        } else {
            assert(e1 == e);
            assert forall|t: u64| #[trigger] e1.contains_key(t) implies !e1[t].contains(k) by {
                if e[t].contains(k) {
                    assert(in_bucket(e, t, k));
                }
            }
        }
    }

    /// Inserting an expirable entry and registering it under its instant
    /// keeps store and index consistent.
    proof fn lemma_insert_expirable_state(
        m: Map<u64, ExpirableEntry<V>>,
        e: Map<u64, Set<u64>>,
        k: u64,
        v: V,
        t: u64,
    )
        requires
            consistent(m, e),
        ensures
            consistent(
                m.insert(k, ExpirableEntry::spec_with(v, EntryStatus::ExpiresAtSeconds(t))),
                register_spec(retired(m, e, k), t, k),
            ),
    {
        Self::lemma_retired(m, e, k);
        let m2 = m.insert(k, ExpirableEntry::spec_with(v, EntryStatus::ExpiresAtSeconds(t)));
        let e1 = retired(m, e, k);
        let e2 = register_spec(e1, t, k);
        assert forall|t2: u64, k2: u64| #[trigger] in_bucket(e2, t2, k2) implies m2.contains_key(
            k2,
        ) && m2[k2].status == EntryStatus::ExpiresAtSeconds(t2) by {
            if k2 == k {
                assert(t2 == t) by {
                    if t2 != t {
                        assert(e2.contains_key(t2) && e2[t2].contains(k));
                        assert(e1.contains_key(t2) && e1[t2] == e2[t2]);
                        assert(in_bucket(e1, t2, k));
                        assert(!e1[t2].contains(k));
                    }
                }
            } else {
                assert(in_bucket(e1, t2, k2)) by {
                    if t2 == t {
                        assert(e2[t] == (if e1.contains_key(t) {
                            e1[t]
                        } else {
                            Set::<u64>::empty()
                        }).insert(k));
                        assert(e1.contains_key(t) && e1[t].contains(k2));
                    } else {
                        assert(e2.contains_key(t2) && e1.contains_key(t2) && e1[t2] == e2[t2]);
                    }
                }
                assert(in_bucket(e, t2, k2));
                assert(m.contains_key(k2) && m[k2].status == EntryStatus::ExpiresAtSeconds(t2));
            }
        }
        assert forall|k2: u64| #[trigger] m2.contains_key(k2) implies match m2[k2].status {
            EntryStatus::Constant => true,
            EntryStatus::ExpiresAtSeconds(t2) => in_bucket(e2, t2, k2),
        } by {
            if k2 == k {
                assert(e2.contains_key(t));
                assert(e2[t].contains(k));
            } else {
                assert(m.contains_key(k2));
                match m[k2].status {
                    EntryStatus::Constant => {},
                    EntryStatus::ExpiresAtSeconds(t2) => {
                        assert(in_bucket(e, t2, k2));
                        assert(in_bucket(e1, t2, k2));
                        assert(in_bucket(e2, t2, k2)) by {
                            if t2 == t {
                                assert(e2[t] == (if e1.contains_key(t) {
                                    e1[t]
                                } else {
                                    Set::<u64>::empty()
                                }).insert(k));
                            } else {
                                assert(e2.contains_key(t2) && e2[t2] == e1[t2]);
                            }
                        }
                    },
                }
            }
        }
    }

    /// Inserting a constant entry (after retiring the key's old bucket
    /// membership) keeps store and index consistent.
    proof fn lemma_insert_constant_state(
        m: Map<u64, ExpirableEntry<V>>,
        e: Map<u64, Set<u64>>,
        k: u64,
        v: V,
    )
        requires
            consistent(m, e),
        ensures
            consistent(
                m.insert(k, ExpirableEntry::spec_with(v, EntryStatus::Constant)),
                retired(m, e, k),
            ),
    {
        Self::lemma_retired(m, e, k);
        let m2 = m.insert(k, ExpirableEntry::spec_with(v, EntryStatus::Constant));
        let e1 = retired(m, e, k);
        assert forall|t2: u64, k2: u64| #[trigger] in_bucket(e1, t2, k2) implies m2.contains_key(
            k2,
        ) && m2[k2].status == EntryStatus::ExpiresAtSeconds(t2) by {
            assert(k2 != k) by {
                if k2 == k {
                    assert(!e1[t2].contains(k));
                }
            }
            assert(in_bucket(e, t2, k2));
        }
        assert forall|k2: u64| #[trigger] m2.contains_key(k2) implies match m2[k2].status {
            EntryStatus::Constant => true,
            EntryStatus::ExpiresAtSeconds(t2) => in_bucket(e1, t2, k2),
        } by {
            if k2 != k {
                assert(m.contains_key(k2));
                match m[k2].status {
                    EntryStatus::Constant => {},
                    EntryStatus::ExpiresAtSeconds(t2) => {
                        assert(in_bucket(e, t2, k2));
                        assert(in_bucket(e1, t2, k2));
                    },
                }
            }
        }
    }

    /// A sweep at `now` keeps store and index consistent.
    proof fn lemma_swept_state(m: Map<u64, ExpirableEntry<V>>, e: Map<u64, Set<u64>>, now: u64)
        requires
            consistent(m, e),
        ensures
            consistent(swept(m, now), future_part(e, now)),
            swept(m, now).dom() == m.dom().difference(due_keys(e, now)),
    {
        let m2 = swept(m, now);
        let e2 = future_part(e, now);
        assert forall|t2: u64, k2: u64| #[trigger] in_bucket(e2, t2, k2) implies m2.contains_key(
            k2,
        ) && m2[k2].status == EntryStatus::ExpiresAtSeconds(t2) by {
            assert(in_bucket(e, t2, k2));
            assert(t2 > now);
            assert(m.contains_key(k2) && m[k2].status == EntryStatus::ExpiresAtSeconds(t2));
            assert(!m[k2].status.is_due_at(now));
        }
        assert forall|k2: u64| #[trigger] m2.contains_key(k2) implies match m2[k2].status {
            EntryStatus::Constant => true,
            EntryStatus::ExpiresAtSeconds(t2) => in_bucket(e2, t2, k2),
        } by {
            assert(m.contains_key(k2));
            match m[k2].status {
                EntryStatus::Constant => {},
                EntryStatus::ExpiresAtSeconds(t2) => {
                    assert(in_bucket(e, t2, k2));
                    assert(t2 > now);
                    assert(e2.contains_key(t2) && e2[t2] == e[t2]);
                },
            }
        }
        assert(m2.dom() =~= m.dom().difference(due_keys(e, now))) by {
            assert forall|k2: u64| #[trigger] m.contains_key(k2) implies (m2.dom().contains(k2)
                <==> !due_keys(e, now).contains(k2)) by {
                match m[k2].status {
                    EntryStatus::Constant => {
                        if due_keys(e, now).contains(k2) {
                            let t2 = choose|t2: u64|
                                #[trigger] e.contains_key(t2) && t2 <= now && e[t2].contains(k2);
                            assert(in_bucket(e, t2, k2));
                        }
                    },
                    EntryStatus::ExpiresAtSeconds(t2) => {
                        assert(in_bucket(e, t2, k2));
                        if m[k2].status.is_due_at(now) {
                            assert(e.contains_key(t2) && t2 <= now && e[t2].contains(k2));
                        } else {
                            if due_keys(e, now).contains(k2) {
                                let t3 = choose|t3: u64|
                                    #[trigger] e.contains_key(t3) && t3 <= now && e[t3].contains(
                                        k2,
                                    );
                                assert(in_bucket(e, t3, k2));
                            }
                        }
                    },
                }
            }
        }
    }

    /// Removes `map_key` from the expiry bucket for `expiry_key`, dropping
    /// the bucket when it empties.
    fn drop_key_from_expiry(&mut self, expiry_key: &u64, map_key: &u64)
        requires
            old(self).expiries.wf(),
        ensures
            final(self).clock == old(self).clock,
            final(self).map == old(self).map,
            final(self).expiration_tick == old(self).expiration_tick,
            final(self).expiration_tick_cap == old(self).expiration_tick_cap,
            final(self).expiries.wf(),
            final(self).expiries@ == unregister_spec(old(self).expiries@, *expiry_key, *map_key),
    {
        self.expiries.unregister(*expiry_key, *map_key);
    }

    /// Installs the entry for `k`, retiring the previous entry's bucket
    /// membership and returning its value.  Registration of the new instant,
    /// if any, is the caller's step.
    fn insert(&mut self, k: u64, v: V, expires_at: Option<u64>) -> (result: Option<V>)
        requires
            old(self).wf(),
        ensures
            final(self).clock == old(self).clock,
            final(self).expiration_tick == old(self).expiration_tick,
            final(self).expiration_tick_cap == old(self).expiration_tick_cap,
            final(self).map@ == old(self).map@.insert(
                k,
                ExpirableEntry::spec_with(v, EntryStatus::spec_new(expires_at)),
            ),
            final(self).expiries@ == retired(old(self).map@, old(self).expiries@, k),
            final(self).expiries.wf(),
            final(self).map@.dom().finite(),
            key_in_no_bucket(final(self).expiries@, k),
            match result {
                Some(x) => old(self).map@.contains_key(k) && x == old(self).map@[k].value,
                None => !old(self).map@.contains_key(k),
            },
    {
        proof {
            Self::lemma_retired(self.map@, self.expiries@, k);
        }
        let entry = ExpirableEntry::new(v, expires_at);
        let result = match self.map.insert(k, entry) {
            Some(old_entry) => {
                match old_entry.status() {
                    EntryStatus::ExpiresAtSeconds(expiry) => {
                        let expiry = *expiry;
                        self.drop_key_from_expiry(&expiry, &k);
                    },
                    EntryStatus::Constant => {},
                }
                Some(old_entry.owned_value())
            },
            None => None,
        };
        proof {
            assert(self.map@.dom() =~= old(self).map@.dom().insert(k));
        }
        result
    }


    /// Sweeps at the given instant: pops every due bucket off the index and
    /// removes those keys from the backing store.
    fn drop_expired_entries_inner(&mut self, now: u64)
        requires
            old(self).wf(),
        ensures
            final(self).wf(),
            final(self).clock == old(self).clock,
            final(self).expiration_tick == old(self).expiration_tick,
            final(self).expiration_tick_cap == old(self).expiration_tick_cap,
            final(self).map@ == swept(old(self).map@, now),
            final(self).expiries@ == future_part(old(self).expiries@, now),
    {
        let ghost m0 = self.map@;
        let ghost e0 = self.expiries@;
        let due = self.expiries.split_off_due(now);
        let mut i: usize = 0;
        while i < due.len()
            invariant
                0 <= i <= due.len(),
                due@.to_set() == due_keys(e0, now),
                self.map@ == m0.remove_keys(due@.subrange(0, i as int).to_set()),
                self.expiries@ == future_part(e0, now),
                self.expiries.wf(),
                self.clock == old(self).clock,
                self.expiration_tick == old(self).expiration_tick,
                self.expiration_tick_cap == old(self).expiration_tick_cap,
            decreases due.len() - i,
        {
            let _ = self.map.remove(&due[i]);
            proof {
                assert(due@.subrange(0, i + 1).to_set() =~= due@.subrange(0, i as int).to_set().insert(
                    due@[i as int],
                )) by {
                    assert forall|x: u64| #[trigger] due@.subrange(0, i + 1).contains(x) implies due@.subrange(
                        0,
                        i as int,
                    ).to_set().insert(due@[i as int]).contains(x) by {
                        let p = choose|p: int|
                            0 <= p < i + 1 && #[trigger] due@.subrange(0, i + 1)[p] == x;
                        if p < i {
                            assert(due@.subrange(0, i as int)[p] == x);
                            assert(due@.subrange(0, i as int).contains(x));
                        }
                    }
                    assert forall|x: u64|
                        #[trigger] due@.subrange(0, i as int).to_set().insert(
                            due@[i as int],
                        ).contains(x) implies due@.subrange(0, i + 1).contains(x) by {
                        if x == due@[i as int] {
                            assert(due@.subrange(0, i + 1)[i as int] == x);
                        } else {
                            let p = choose|p: int|
                                0 <= p < i && #[trigger] due@.subrange(0, i as int)[p] == x;
                            assert(due@.subrange(0, i + 1)[p] == x);
                        }
                    }
                }
                assert(self.map@ =~= m0.remove_keys(due@.subrange(0, i + 1).to_set()));
            }
            i += 1;
        }
        proof {
            assert(due@.subrange(0, due@.len() as int) == due@);
            Self::lemma_swept_state(m0, e0, now);
            assert(self.map@ =~= swept(m0, now)) by {
                assert forall|k: u64| true implies (self.map@.contains_key(k) <==> swept(
                    m0,
                    now,
                ).contains_key(k)) by {
                    assert(self.map@ == m0.remove_keys(due_keys(e0, now)));
                    assert(swept(m0, now).dom() == m0.dom().difference(due_keys(e0, now)));
                    if swept(m0, now).dom().contains(k) {
                        assert(swept(m0, now).contains_key(k));
                    }
                }
            }
        }
    }

    /// Clears expired entries from the map.
    ///
    /// Call this when using the `*_unchecked` inserts, which never sweep on
    /// their own.
    pub fn drop_expired_entries(&mut self)
        requires
            old(self).wf(),
        ensures
            final(self).wf(),
            final(self).spec_clock() == old(self).spec_clock(),
            final(self).tick() == old(self).tick(),
            final(self).tick_cap() == old(self).tick_cap(),
            (match old(self).spec_clock().spec_now() {
                Some(now) => final(self).map_view() == swept(old(self).map_view(), now)
                    && final(self).index_view() == future_part(old(self).index_view(), now),
                None => exists|now: u64|
                    (#[trigger] swept(old(self).map_view(), now)) == final(self).map_view()
                        && final(self).index_view() == future_part(old(self).index_view(), now),
            }),
    {
        let now = self.clock.elapsed_seconds_since_creation();
        self.drop_expired_entries_inner(now);
        proof {
            assert(self.map_view() == swept(old(self).map_view(), now));
            assert(self.index_view() == future_part(old(self).index_view(), now));
        }
    }

    /// Inserts a key-value pair that expires `duration` from now, then
    /// counts a tick toward the amortized sweep and runs it when the tick
    /// cap is reached.
    ///
    /// Returns the previously stored value, if any survived the sweep.
    pub fn insert_expirable(&mut self, k: u64, v: V, duration: Duration) -> (result: Option<V>)
        requires
            old(self).wf(),
        ensures
            final(self).wf(),
            final(self).spec_clock() == old(self).spec_clock(),
            final(self).tick_cap() == old(self).tick_cap(),
            (match old(self).spec_clock().spec_now() {
                Some(now) => spec_insert_expirable(
                    *old(self),
                    *final(self),
                    result,
                    k,
                    v,
                    duration_as_secs(duration),
                    now,
                ),
                None => exists|now: u64|
                    #[trigger] spec_insert_expirable(
                        *old(self),
                        *final(self),
                        result,
                        k,
                        v,
                        duration_as_secs(duration),
                        now,
                    ),
            }),
    {
        self.expiration_tick = self.expiration_tick.saturating_add(1);
        let now = self.clock.elapsed_seconds_since_creation();
        if self.expiration_tick >= self.expiration_tick_cap {
            self.drop_expired_entries_inner(now);
            self.expiration_tick = 0;
        }
        let expires_at = now.saturating_add(duration.as_secs());
        let ghost m1 = self.map@;
        let ghost e1 = self.expiries@;
        let result = self.insert(k, v, Some(expires_at));
        proof {
            Self::lemma_insert_expirable_state(m1, e1, k, v, expires_at);
        }
        self.expiries.register(expires_at, k);
        proof {
            assert(spec_insert_expirable(
                *old(self),
                *self,
                result,
                k,
                v,
                duration_as_secs(duration),
                now,
            ));
        }
        result
    }

    /// Inserts a key-value pair that expires `duration` from now, without
    /// sweeping expired entries.
    ///
    /// Returns the previously stored value, if any.
    pub fn insert_expirable_unchecked(&mut self, k: u64, v: V, duration: Duration) -> (result:
        Option<V>)
        requires
            old(self).wf(),
        ensures
            final(self).wf(),
            final(self).spec_clock() == old(self).spec_clock(),
            final(self).tick() == old(self).tick(),
            final(self).tick_cap() == old(self).tick_cap(),
            (match old(self).spec_clock().spec_now() {
                Some(now) => spec_insert_expirable_unchecked(
                    *old(self),
                    *final(self),
                    result,
                    k,
                    v,
                    duration_as_secs(duration),
                    now,
                ),
                None => exists|now: u64|
                    #[trigger] spec_insert_expirable_unchecked(
                        *old(self),
                        *final(self),
                        result,
                        k,
                        v,
                        duration_as_secs(duration),
                        now,
                    ),
            }),
    {
        let now = self.clock.elapsed_seconds_since_creation();
        let expires_at = now.saturating_add(duration.as_secs());
        let ghost m1 = self.map@;
        let ghost e1 = self.expiries@;
        let result = self.insert(k, v, Some(expires_at));
        proof {
            Self::lemma_insert_expirable_state(m1, e1, k, v, expires_at);
        }
        self.expiries.register(expires_at, k);
        proof {
            assert(spec_insert_expirable_unchecked(
                *old(self),
                *self,
                result,
                k,
                v,
                duration_as_secs(duration),
                now,
            ));
        }
        result
    }

    /// Inserts a key-value pair that never expires, then counts a tick
    /// toward the amortized sweep and runs it when the tick cap is reached.
    ///
    /// Returns the previously stored value, if any survived the sweep.
    pub fn insert_constant(&mut self, k: u64, v: V) -> (result: Option<V>)
        requires
            old(self).wf(),
        ensures
            final(self).wf(),
            final(self).spec_clock() == old(self).spec_clock(),
            final(self).tick_cap() == old(self).tick_cap(),
            (match old(self).spec_clock().spec_now() {
                Some(now) => spec_insert_constant(*old(self), *final(self), result, k, v, now),
                None => exists|now: u64|
                    #[trigger] spec_insert_constant(*old(self), *final(self), result, k, v, now),
            }),
    {
        self.expiration_tick = self.expiration_tick.saturating_add(1);
        let now = self.clock.elapsed_seconds_since_creation();
        if self.expiration_tick >= self.expiration_tick_cap {
            self.drop_expired_entries_inner(now);
            self.expiration_tick = 0;
        }
        let ghost m1 = self.map@;
        let ghost e1 = self.expiries@;
        let result = self.insert(k, v, None);
        proof {
            Self::lemma_insert_constant_state(m1, e1, k, v);
            assert(spec_insert_constant(*old(self), *self, result, k, v, now));
        }
        result
    }

    /// Inserts a key-value pair that never expires, without sweeping expired
    /// entries and without advancing the sweep tick.
    ///
    /// Returns the previously stored value, if any.
    pub fn insert_constant_unchecked(&mut self, k: u64, v: V) -> (result: Option<V>)
        requires
            old(self).wf(),
        ensures
            final(self).wf(),
            final(self).spec_clock() == old(self).spec_clock(),
            final(self).tick() == old(self).tick(),
            final(self).tick_cap() == old(self).tick_cap(),
            final(self).map_view() == old(self).map_view().insert(
                k,
                ExpirableEntry::spec_with(v, EntryStatus::Constant),
            ),
            final(self).index_view() == retired(old(self).map_view(), old(self).index_view(), k),
            match result {
                Some(x) => old(self).map_view().contains_key(k) && x == old(self).map_view()[
                    k].value,
                None => !old(self).map_view().contains_key(k),
            },
    {
        let ghost m1 = self.map@;
        let ghost e1 = self.expiries@;
        let result = self.insert(k, v, None);
        proof {
            Self::lemma_insert_constant_state(m1, e1, k, v);
        }
        result
    }


    /// Removing a key keeps store and index consistent once its bucket
    /// membership is retired.
    proof fn lemma_removed_state(m: Map<u64, ExpirableEntry<V>>, e: Map<u64, Set<u64>>, k: u64)
        requires
            consistent(m, e),
        ensures
            consistent(m.remove(k), retired(m, e, k)),
    {
        Self::lemma_retired(m, e, k);
        let m2 = m.remove(k);
        let e1 = retired(m, e, k);
        assert forall|t2: u64, k2: u64| #[trigger] in_bucket(e1, t2, k2) implies m2.contains_key(
            k2,
        ) && m2[k2].status == EntryStatus::ExpiresAtSeconds(t2) by {
            assert(k2 != k) by {
                if k2 == k {
                    assert(!e1[t2].contains(k));
                }
            }
            assert(in_bucket(e, t2, k2));
        }
        assert forall|k2: u64| #[trigger] m2.contains_key(k2) implies match m2[k2].status {
            EntryStatus::Constant => true,
            EntryStatus::ExpiresAtSeconds(t2) => in_bucket(e1, t2, k2),
        } by {
            assert(m.contains_key(k2));
            match m[k2].status {
                EntryStatus::Constant => {},
                EntryStatus::ExpiresAtSeconds(t2) => {
                    assert(in_bucket(e, t2, k2));
                    assert(in_bucket(e1, t2, k2));
                },
            }
        }
    }

    /// The keys due at `now` are all stored, so they are finitely many.
    proof fn lemma_due_subset(m: Map<u64, ExpirableEntry<V>>, e: Map<u64, Set<u64>>, now: u64)
        requires
            consistent(m, e),
            m.dom().finite(),
        ensures
            due_keys(e, now).subset_of(m.dom()),
            due_keys(e, now).finite(),
            due_keys(e, now).len() <= m.dom().len(),
    {
        assert forall|k: u64| #[trigger] due_keys(e, now).contains(k) implies m.dom().contains(
            k,
        ) by {
            let t = choose|t: u64| #[trigger] e.contains_key(t) && t <= now && e[t].contains(k);
            assert(in_bucket(e, t, k));
        }
        vstd::set_lib::lemma_set_subset_finite(m.dom(), due_keys(e, now));
        vstd::set_lib::lemma_len_subset(due_keys(e, now), m.dom());
    }

    /// Removes the entry for `k` and retires its bucket membership; returns
    /// the removed value only if it had not yet expired (removal happens
    /// either way).
    pub fn remove(&mut self, k: &u64) -> (result: Option<V>)
        requires
            old(self).wf(),
        ensures
            final(self).wf(),
            final(self).spec_clock() == old(self).spec_clock(),
            final(self).tick() == old(self).tick(),
            final(self).tick_cap() == old(self).tick_cap(),
            final(self).map_view() == old(self).map_view().remove(*k),
            final(self).index_view() == retired(
                old(self).map_view(),
                old(self).index_view(),
                *k,
            ),
            (match old(self).spec_clock().spec_now() {
                Some(now) => result == spec_get(old(self).map_view(), *k, now),
                None => exists|now: u64|
                    result == #[trigger] spec_get(old(self).map_view(), *k, now),
            }),
    {
        let now = self.clock.elapsed_seconds_since_creation();
        let ghost m0 = self.map@;
        let ghost e0 = self.expiries@;
        let result = match self.map.remove(k) {
            Some(entry) => {
                match entry.status() {
                    EntryStatus::ExpiresAtSeconds(expiry) => {
                        let expiry = *expiry;
                        self.drop_key_from_expiry(&expiry, k);
                    },
                    EntryStatus::Constant => {},
                }
                if !entry.is_expired(now) {
                    Some(entry.owned_value())
                } else {
                    None
                }
            },
            None => None,
        };
        proof {
            Self::lemma_removed_state(m0, e0, *k);
            assert(self.map@.dom() =~= m0.dom().remove(*k));
            assert(result == spec_get(m0, *k, now));
        }
        result
    }

    /// Removes the entry for `k` and retires its bucket membership; returns
    /// the removed value whether or not it had expired.
    pub fn remove_unchecked(&mut self, k: &u64) -> (result: Option<V>)
        requires
            old(self).wf(),
        ensures
            final(self).wf(),
            final(self).spec_clock() == old(self).spec_clock(),
            final(self).tick() == old(self).tick(),
            final(self).tick_cap() == old(self).tick_cap(),
            final(self).map_view() == old(self).map_view().remove(*k),
            final(self).index_view() == retired(
                old(self).map_view(),
                old(self).index_view(),
                *k,
            ),
            match result {
                Some(x) => old(self).map_view().contains_key(*k) && x == old(self).map_view()[
                    *k].value,
                None => !old(self).map_view().contains_key(*k),
            },
    {
        let ghost m0 = self.map@;
        let ghost e0 = self.expiries@;
        let result = match self.map.remove(k) {
            Some(entry) => {
                match entry.status() {
                    EntryStatus::ExpiresAtSeconds(expiry) => {
                        let expiry = *expiry;
                        self.drop_key_from_expiry(&expiry, k);
                    },
                    EntryStatus::Constant => {},
                }
                Some(entry.owned_value())
            },
            None => None,
        };
        proof {
            Self::lemma_removed_state(m0, e0, *k);
            assert(self.map@.dom() =~= m0.dom().remove(*k));
        }
        result
    }

    /// Re-derives the entry's expiration instant as `now + duration` and
    /// installs it, returning the prior status (`None` if it was constant).
    /// Fails with `EntryNotFound` when the key is absent, leaving both the
    /// store and the index unchanged.
    pub fn update_expiration_status(&mut self, key: u64, duration: Duration) -> (result: Result<
        Option<EntryStatus>,
        TimedMapError,
    >)
        requires
            old(self).wf(),
        ensures
            final(self).wf(),
            final(self).spec_clock() == old(self).spec_clock(),
            final(self).tick() == old(self).tick(),
            final(self).tick_cap() == old(self).tick_cap(),
            (match old(self).spec_clock().spec_now() {
                Some(now) => spec_update_expiration(
                    *old(self),
                    *final(self),
                    result,
                    key,
                    duration_as_secs(duration),
                    now,
                ),
                None => exists|now: u64|
                    #[trigger] spec_update_expiration(
                        *old(self),
                        *final(self),
                        result,
                        key,
                        duration_as_secs(duration),
                        now,
                    ),
            }),
    {
        let ghost m0 = self.map@;
        let ghost e0 = self.expiries@;
        let found: Option<(EntryStatus, u64)> = match self.map.get_mut(&key) {
            Some(entry) => {
                let old_status = *entry.status();
                let now = self.clock.elapsed_seconds_since_creation();
                let expires_at = now.saturating_add(duration.as_secs());
                entry.update_status(EntryStatus::ExpiresAtSeconds(expires_at));
                Some((old_status, now))
            },
            None => None,
        };
        match found {
            Some((old_status, now)) => {
                let expires_at = now.saturating_add(duration.as_secs());
                let res = match old_status {
                    EntryStatus::Constant => None,
                    EntryStatus::ExpiresAtSeconds(t) => {
                        self.drop_key_from_expiry(&t, &key);
                        Some(old_status)
                    },
                };
                proof {
                    Self::lemma_insert_expirable_state(m0, e0, key, m0[key].value, expires_at);
                    Self::lemma_retired(m0, e0, key);
                    assert(self.expiries@ == retired(m0, e0, key));
                }
                self.expiries.register(expires_at, key);
                proof {
                    assert(self.map@.dom() =~= m0.dom().insert(key));
                    assert(spec_update_expiration(
                        *old(self),
                        *self,
                        Ok::<Option<EntryStatus>, TimedMapError>(res),
                        key,
                        duration_as_secs(duration),
                        now,
                    ));
                }
                Ok(res)
            },
            None => {
                proof {
                    assert(spec_update_expiration(
                        *old(self),
                        *self,
                        Err::<Option<EntryStatus>, TimedMapError>(TimedMapError::EntryNotFound),
                        key,
                        duration_as_secs(duration),
                        0,
                    ));
                }
                Err(TimedMapError::EntryNotFound)
            },
        }
    }

    /// The number of entries whose expiration instant has been reached, as
    /// counted by the expiry index.
    pub fn len_expired(&self) -> (n: usize)
        requires
            self.wf(),
        ensures
            (match self.spec_clock().spec_now() {
                Some(now) => n == due_keys(self.index_view(), now).len(),
                None => exists|now: u64| n == (#[trigger] due_keys(self.index_view(), now)).len(),
            }),
    {
        let now = self.clock.elapsed_seconds_since_creation();
        let total = self.map.len();
        proof {
            Self::lemma_due_subset(self.map@, self.expiries@, now);
            assert(total == self.map@.dom().len());
        }
        let n = self.expiries.due_key_count(now);
        proof {
            assert(n == due_keys(self.index_view(), now).len());
        }
        n
    }

    /// The number of entries that have not expired: the total count less the
    /// expired count.
    pub fn len(&self) -> (n: usize)
        requires
            self.wf(),
        ensures
            (match self.spec_clock().spec_now() {
                Some(now) => n == self.map_view().dom().len() - due_keys(
                    self.index_view(),
                    now,
                ).len(),
                None => exists|now: u64|
                    n == self.map_view().dom().len() - (#[trigger] due_keys(
                        self.index_view(),
                        now,
                    )).len(),
            }),
    {
        let total = self.map.len();
        let expired = self.len_expired();
        proof {
            match self.spec_clock().spec_now() {
                Some(now) => {
                    Self::lemma_due_subset(self.map@, self.expiries@, now);
                },
                None => {
                    let now = choose|now: u64|
                        expired == (#[trigger] due_keys(self.expiries@, now)).len();
                    Self::lemma_due_subset(self.map@, self.expiries@, now);
                },
            }
        }
        total - expired
    }


    /// Expiration monotonicity: while the store holds an entry for `k`
    /// expiring at `t`, a checked read sees its value at every reading
    /// `now <= t` and nothing at every reading `now > t`.
    pub proof fn lemma_expiration_monotonicity(self, k: u64, t: u64, now: u64)
        requires
            self.wf(),
            self.map_view().contains_key(k),
            self.map_view()[k].status == EntryStatus::ExpiresAtSeconds(t),
        ensures
            now <= t ==> spec_get(self.map_view(), k, now) == Some(self.map_view()[k].value),
            now > t ==> spec_get(self.map_view(), k, now) is None,
    {
    }

    /// The companion frame property of expiration monotonicity: a checked
    /// insert under any other key leaves the entry for `k` untouched as long
    /// as its own instant has not been reached, however many such operations
    /// run in between.
    pub proof fn lemma_insert_preserves_unrelated(
        pre: Self,
        post: Self,
        result: Option<V>,
        k2: u64,
        v: V,
        duration_secs: u64,
        now: u64,
        k: u64,
    )
        requires
            spec_insert_expirable(pre, post, result, k2, v, duration_secs, now),
            k != k2,
            pre.map_view().contains_key(k),
            !pre.map_view()[k].status.is_due_at(now),
        ensures
            post.map_view().contains_key(k),
            post.map_view()[k] == pre.map_view()[k],
    {
    }

    /// The same frame property for checked constant inserts, which also
    /// run the amortized sweep.
    pub proof fn lemma_constant_insert_preserves_unrelated(
        pre: Self,
        post: Self,
        result: Option<V>,
        k2: u64,
        v: V,
        now: u64,
        k: u64,
    )
        requires
            spec_insert_constant(pre, post, result, k2, v, now),
            k != k2,
            pre.map_view().contains_key(k),
            !pre.map_view()[k].status.is_due_at(now),
        ensures
            post.map_view().contains_key(k),
            post.map_view()[k] == pre.map_view()[k],
    {
    }

    /// Index consistency: in a well-formed map, a key whose entry expires at
    /// some instant sits in exactly the bucket for that instant, and a key
    /// whose entry is constant sits in no bucket.  Every operation of the
    /// map ensures well-formedness, so this holds after any sequence of
    /// insert, remove and update operations.
    pub proof fn lemma_index_consistency(self, k: u64)
        requires
            self.wf(),
            self.map_view().contains_key(k),
        ensures
            match self.map_view()[k].status {
                EntryStatus::ExpiresAtSeconds(t) => in_bucket(self.index_view(), t, k) && (
                forall|t2: u64|
                    t2 != t ==> !#[trigger] in_bucket(self.index_view(), t2, k)),
                EntryStatus::Constant => forall|t2: u64|
                    !#[trigger] in_bucket(self.index_view(), t2, k),
            },
    {
        let m = self.map_view();
        let e = self.index_view();
        match m[k].status {
            EntryStatus::ExpiresAtSeconds(t) => {
                assert(in_bucket(e, t, k));
                assert forall|t2: u64| t2 != t implies !#[trigger] in_bucket(e, t2, k) by {
                    if in_bucket(e, t2, k) {
                        assert(m[k].status == EntryStatus::ExpiresAtSeconds(t2));
                    }
                }
            },
            EntryStatus::Constant => {
                assert forall|t2: u64| true implies !#[trigger] in_bucket(e, t2, k) by {
                    if in_bucket(e, t2, k) {
                        assert(m[k].status == EntryStatus::ExpiresAtSeconds(t2));
                    }
                }
            },
        }
    }

    /// Sweep completeness and minimality: a sweep at `now` removes exactly
    /// the entries whose expiration instant has been reached, and returns
    /// every other entry unchanged.
    pub proof fn lemma_sweep_completeness(m: Map<u64, ExpirableEntry<V>>, now: u64, k: u64)
        ensures
            swept(m, now).contains_key(k) <==> (m.contains_key(k) && !m[k].status.is_due_at(
                now,
            )),
            swept(m, now).contains_key(k) ==> swept(m, now)[k] == m[k],
    {
    }

    /// Updating a key replaces, never duplicates: after two expirable
    /// inserts of the same key, the store holds exactly the second entry
    /// under that key, and the key sits in exactly the bucket of the second
    /// expiration instant.
    pub proof fn lemma_update_replaces(
        pre: Self,
        mid: Self,
        post: Self,
        r1: Option<V>,
        r2: Option<V>,
        k: u64,
        v1: V,
        d1: u64,
        v2: V,
        d2: u64,
        now1: u64,
        now2: u64,
    )
        requires
            spec_insert_expirable(pre, mid, r1, k, v1, d1, now1),
            spec_insert_expirable(mid, post, r2, k, v2, d2, now2),
            post.wf(),
        ensures
            post.map_view().contains_key(k),
            post.map_view()[k] == ExpirableEntry::spec_with(
                v2,
                EntryStatus::ExpiresAtSeconds(sat_add(now2, d2)),
            ),
            in_bucket(post.index_view(), sat_add(now2, d2), k),
            forall|t2: u64|
                t2 != sat_add(now2, d2) ==> !#[trigger] in_bucket(post.index_view(), t2, k),
    {
        post.lemma_index_consistency(k);
    }

    /// The return half of update-replaces: re-inserting a key whose old
    /// deadline has not yet been reached hands back the old value.  (When
    /// the old deadline has been reached and the amortized sweep runs first,
    /// the old entry is reclaimed and the insert returns nothing.)
    pub proof fn lemma_reinsert_returns_old_value(
        pre: Self,
        post: Self,
        result: Option<V>,
        k: u64,
        v: V,
        duration_secs: u64,
        now: u64,
    )
        requires
            spec_insert_expirable(pre, post, result, k, v, duration_secs, now),
            pre.map_view().contains_key(k),
            !pre.map_view()[k].status.is_due_at(now),
        ensures
            result == Some(pre.map_view()[k].value),
    {
    }

    /// Removing a key twice returns its value the first time and nothing
    /// the second time, and leaves no dangling bucket membership behind.
    pub proof fn lemma_remove_unchecked_idempotent(
        pre: Self,
        mid: Self,
        post: Self,
        r1: Option<V>,
        r2: Option<V>,
        k: u64,
    )
        requires
            pre.wf(),
            pre.map_view().contains_key(k),
            mid.map_view() == pre.map_view().remove(k),
            mid.index_view() == retired(pre.map_view(), pre.index_view(), k),
            (match r1 {
                Some(x) => pre.map_view().contains_key(k) && x == pre.map_view()[k].value,
                None => !pre.map_view().contains_key(k),
            }),
            post.map_view() == mid.map_view().remove(k),
            post.index_view() == retired(mid.map_view(), mid.index_view(), k),
            (match r2 {
                Some(x) => mid.map_view().contains_key(k) && x == mid.map_view()[k].value,
                None => !mid.map_view().contains_key(k),
            }),
        ensures
            r1 == Some(pre.map_view()[k].value),
            r2 == None::<V>,
            post.map_view() == mid.map_view(),
            post.index_view() == mid.index_view(),
            key_in_no_bucket(post.index_view(), k),
    {
        Self::lemma_retired(pre.map_view(), pre.index_view(), k);
        assert(post.map_view() =~= mid.map_view());
        assert(post.index_view() == mid.index_view());
    }

    /// Returns the associated value if present and not expired.
    ///
    /// Reads are lazy: an expired entry is treated as absent but is not
    /// removed here.
    pub fn get(&self, k: &u64) -> (result: Option<&V>)
        ensures
            match self.spec_clock().spec_now() {
                Some(now) => match result {
                    Some(v) => spec_get(self.map_view(), *k, now) == Some(*v),
                    None => spec_get(self.map_view(), *k, now) is None,
                },
                None => exists|now: u64|
                    match result {
                        Some(v) => #[trigger] spec_get(self.map_view(), *k, now) == Some(*v),
                        None => spec_get(self.map_view(), *k, now) is None,
                    },
            },
    {
        let now = self.clock.elapsed_seconds_since_creation();
        let result = match self.map.get(k) {
            Some(e) => if !e.is_expired(now) {
                Some(e.value())
            } else {
                None
            },
            None => None,
        };
        proof {
            assert(match result {
                Some(v) => spec_get(self.map_view(), *k, now) == Some(*v),
                None => spec_get(self.map_view(), *k, now) is None,
            });
        }
        result
    }


    /// Replacing an entry by one with the same status keeps the store and
    /// the index consistent.
    proof fn lemma_consistent_same_status(
        m: Map<u64, ExpirableEntry<V>>,
        e: Map<u64, Set<u64>>,
        k: u64,
        entry: ExpirableEntry<V>,
    )
        requires
            consistent(m, e),
            m.contains_key(k),
            entry.status == m[k].status,
        ensures
            consistent(m.insert(k, entry), e),
            m.insert(k, entry).dom() == m.dom(),
    {
        let m2 = m.insert(k, entry);
        assert(m2.dom() =~= m.dom());
        assert forall|t: u64, k2: u64| #[trigger] in_bucket(e, t, k2) implies m2.contains_key(k2)
            && m2[k2].status == EntryStatus::ExpiresAtSeconds(t) by {
            assert(m.contains_key(k2));
        }
        assert forall|k2: u64| #[trigger] m2.contains_key(k2) implies match m2[k2].status {
            EntryStatus::Constant => true,
            EntryStatus::ExpiresAtSeconds(t) => in_bucket(e, t, k2),
        } by {
            assert(m.contains_key(k2));
        }
    }

    /// Returns a mutable reference to the value if present and not expired.
    pub fn get_mut(&mut self, k: &u64) -> (result: Option<&mut V>)
        ensures
            final(self).spec_clock() == old(self).spec_clock(),
            final(self).index_view() == old(self).index_view(),
            final(self).tick() == old(self).tick(),
            final(self).tick_cap() == old(self).tick_cap(),
            old(self).wf() ==> final(self).wf(),
            (match old(self).spec_clock().spec_now() {
                Some(now) => {
                    &&& spec_get(old(self).map_view(), *k, now) is Some ==> result.is_some()
                        && *result.unwrap() == old(self).map_view()[*k].value
                        && final(self).map_view() == old(self).map_view().insert(
                        *k,
                        ExpirableEntry::spec_with(
                            *final(result.unwrap()),
                            old(self).map_view()[*k].status,
                        ),
                    )
                    &&& spec_get(old(self).map_view(), *k, now) is None ==> result.is_none()
                        && final(self).map_view() == old(self).map_view()
                },
                None => exists|now: u64|
                    {
                        &&& (#[trigger] spec_get(old(self).map_view(), *k, now)) is Some
                            ==> result.is_some() && *result.unwrap() == old(self).map_view()[
                            *k].value && final(self).map_view() == old(self).map_view().insert(
                            *k,
                            ExpirableEntry::spec_with(
                                *final(result.unwrap()),
                                old(self).map_view()[*k].status,
                            ),
                        )
                        &&& spec_get(old(self).map_view(), *k, now) is None ==> result.is_none()
                            && final(self).map_view() == old(self).map_view()
                    },
            }),
    {
        let now = self.clock.elapsed_seconds_since_creation();
        proof {
            let witness = spec_get(self.map_view(), *k, now);
            if self.map@.contains_key(*k) {
                assert(self.map@.insert(*k, self.map@[*k]) =~= self.map@);
                if self.wf() {
                    assert forall|entry: ExpirableEntry<V>|
                        entry.status == self.map@[*k].status implies #[trigger] consistent(
                        self.map@.insert(*k, entry),
                        self.expiries@,
                    ) && self.map@.insert(*k, entry).dom().finite() by {
                        Self::lemma_consistent_same_status(
                            self.map@,
                            self.expiries@,
                            *k,
                            entry,
                        );
                    }
                }
            }
        }
        let result = match self.map.get_mut(k) {
            Some(e) => if !e.is_expired(now) {
                Some(e.value_mut())
            } else {
                None
            },
            None => None,
        };
        result
    }

    /// Returns a mutable reference to the value if present, regardless of
    /// expiration.
    pub fn get_mut_unchecked(&mut self, k: &u64) -> (result: Option<&mut V>)
        ensures
            final(self).spec_clock() == old(self).spec_clock(),
            final(self).index_view() == old(self).index_view(),
            final(self).tick() == old(self).tick(),
            final(self).tick_cap() == old(self).tick_cap(),
            old(self).wf() ==> final(self).wf(),
            !old(self).map_view().contains_key(*k) ==> result.is_none() && final(self).map_view()
                == old(self).map_view(),
            old(self).map_view().contains_key(*k) ==> result.is_some() && *result.unwrap() == old(
                self,
            ).map_view()[*k].value && final(self).map_view() == old(self).map_view().insert(
                *k,
                ExpirableEntry::spec_with(
                    *final(result.unwrap()),
                    old(self).map_view()[*k].status,
                ),
            ),
    {
        proof {
            if self.map@.contains_key(*k) && self.wf() {
                assert forall|entry: ExpirableEntry<V>|
                    entry.status == self.map@[*k].status implies #[trigger] consistent(
                    self.map@.insert(*k, entry),
                    self.expiries@,
                ) && self.map@.insert(*k, entry).dom().finite() by {
                    Self::lemma_consistent_same_status(self.map@, self.expiries@, *k, entry);
                }
            }
        }
        match self.map.get_mut(k) {
            Some(e) => Some(e.value_mut()),
            None => None,
        }
    }

    /// The remaining time before the entry for `k` expires: `None` when the
    /// key is absent, already expired, or constant.
    pub fn get_remaining_duration(&self, k: &u64) -> (result: Option<Duration>)
        ensures
            (match self.spec_clock().spec_now() {
                Some(now) => {
                    &&& (spec_remaining(self.map_view(), *k, now) matches Some(secs) ==> result
                        == Some(duration_from_secs(secs)) && duration_as_secs(result->0) == secs)
                    &&& (spec_remaining(self.map_view(), *k, now) is None ==> result is None)
                },
                None => exists|now: u64|
                    {
                        &&& ((#[trigger] spec_remaining(self.map_view(), *k, now)) matches Some(
                            secs,
                        ) ==> result == Some(duration_from_secs(secs)) && duration_as_secs(
                            result->0,
                        ) == secs)
                        &&& (spec_remaining(self.map_view(), *k, now) is None ==> result is None)
                    },
            }),
    {
        let now = self.clock.elapsed_seconds_since_creation();
        let result = match self.map.get(k) {
            Some(e) => if e.is_expired(now) {
                None
            } else {
                e.remaining_duration(now)
            },
            None => None,
        };
        proof {
            assert(match spec_remaining(self.map_view(), *k, now) {
                Some(secs) => result == Some(duration_from_secs(secs)) && duration_as_secs(
                    result->0,
                ) == secs,
                None => result is None,
            });
        }
        result
    }

    /// Returns the associated value if present, regardless of expiration.
    pub fn get_unchecked(&self, k: &u64) -> (result: Option<&V>)
        ensures
            match result {
                Some(v) => self.map_view().contains_key(*k) && self.map_view()[*k].value == *v,
                None => !self.map_view().contains_key(*k),
            },
    {
        match self.map.get(k) {
            Some(e) => Some(e.value()),
            None => None,
        }
    }
}

} // verus!
