use core::time::Duration;
use timed_map::ManualClock;
use timed_map::MapKind;
use timed_map::TimedMap;
use timed_map::TimedMapError;

#[test]
fn scenario_constant_and_expirable_together() {
    let clock = ManualClock { current_time: 1000 };
    let mut map: TimedMap<ManualClock, &str> = TimedMap::new(clock);

    map.insert_constant(1, "A");
    map.insert_expirable(2, "B", Duration::from_secs(60));

    assert_eq!(map.get(&1), Some(&"A"));
    assert_eq!(map.get_remaining_duration(&1), None);
    assert_eq!(map.get(&2), Some(&"B"));
    assert_eq!(map.get_remaining_duration(&2), Some(Duration::from_secs(60)));
}

#[test]
fn scenario_two_deadlines_cross_in_turn() {
    let mut map: TimedMap<ManualClock, &str> = TimedMap::new(ManualClock { current_time: 1000 });

    map.insert_expirable(10, "x", Duration::from_secs(50));
    map.insert_expirable(20, "y", Duration::from_secs(70));

    map.clock = ManualClock { current_time: 1055 };
    assert_eq!(map.get(&10), None);
    assert_eq!(map.get(&20), Some(&"y"));

    map.clock = ManualClock { current_time: 1071 };
    assert_eq!(map.get(&20), None);
}

#[test]
fn scenario_update_extends_short_ttl() {
    let mut map: TimedMap<ManualClock, &str> = TimedMap::new(ManualClock { current_time: 1000 });

    map.insert_expirable(1, "v", Duration::from_secs(1));
    map.update_expiration_status(1, Duration::from_secs(5))
        .expect("key is present");

    // Three seconds later the old one-second deadline has passed, but the
    // new five-second deadline has not.
    map.clock = ManualClock { current_time: 1003 };
    assert_eq!(map.get(&1), Some(&"v"));
    map.drop_expired_entries();
    assert_eq!(map.get(&1), Some(&"v"));
    assert_eq!(map.len_unchecked(), 1);

    map.clock = ManualClock { current_time: 1006 };
    assert_eq!(map.get(&1), None);
}

#[test]
fn update_expiration_status_missing_key_fails() {
    let mut map: TimedMap<ManualClock, &str> = TimedMap::new(ManualClock { current_time: 0 });

    let res = map.update_expiration_status(7, Duration::from_secs(5));
    assert_eq!(res, Err(TimedMapError::EntryNotFound));
    assert!(map.is_empty());
}

#[test]
fn error_message_names_the_failure() {
    assert_eq!(
        TimedMapError::EntryNotFound.as_str(),
        "Entry not found for given key"
    );
}

#[test]
fn boundary_still_valid_at_expiration_instant() {
    let mut map: TimedMap<ManualClock, &str> = TimedMap::new(ManualClock { current_time: 1000 });
    map.insert_expirable(1, "v", Duration::from_secs(60));

    // Still valid exactly at the expiration instant...
    map.clock = ManualClock { current_time: 1060 };
    assert_eq!(map.get(&1), Some(&"v"));
    assert_eq!(map.get_remaining_duration(&1), Some(Duration::from_secs(0)));

    // ...and gone strictly after it.
    map.clock = ManualClock { current_time: 1061 };
    assert_eq!(map.get(&1), None);
}

#[test]
fn insert_same_key_replaces_entry() {
    let mut map: TimedMap<ManualClock, &str> = TimedMap::new(ManualClock { current_time: 1000 });

    assert_eq!(map.insert_expirable(1, "first", Duration::from_secs(10)), None);
    assert_eq!(
        map.insert_expirable(1, "second", Duration::from_secs(100)),
        Some("first")
    );
    assert_eq!(map.len_unchecked(), 1);

    // The first deadline passing no longer matters: only the second counts.
    map.clock = ManualClock { current_time: 1050 };
    map.drop_expired_entries();
    assert_eq!(map.get(&1), Some(&"second"));
    assert_eq!(map.len_unchecked(), 1);
}

#[test]
fn remove_unchecked_twice_is_idempotent() {
    let mut map: TimedMap<ManualClock, &str> = TimedMap::new(ManualClock { current_time: 1000 });

    map.insert_expirable(1, "v", Duration::from_secs(5));
    map.clock = ManualClock { current_time: 2000 };

    // The first removal returns the value even though it expired; the
    // second finds nothing.
    assert_eq!(map.remove_unchecked(&1), Some("v"));
    assert_eq!(map.remove_unchecked(&1), None);
    assert_eq!(map.len_unchecked(), 0);

    // No dangling bucket membership: a later sweep removes nothing new.
    map.insert_constant(1, "w");
    map.drop_expired_entries();
    assert_eq!(map.get(&1), Some(&"w"));
}

#[test]
fn remove_expired_entry_returns_none_but_removes() {
    let mut map: TimedMap<ManualClock, &str> = TimedMap::new(ManualClock { current_time: 1000 });

    map.insert_expirable(1, "v", Duration::from_secs(5));
    map.clock = ManualClock { current_time: 2000 };

    assert_eq!(map.remove(&1), None);
    assert_eq!(map.len_unchecked(), 0);
}

#[test]
fn unchecked_inserts_leave_sweeping_to_the_caller() {
    let mut map: TimedMap<ManualClock, &str> = TimedMap::new(ManualClock { current_time: 1000 });

    map.insert_expirable_unchecked(1, "short", Duration::from_secs(1));
    map.insert_constant_unchecked(2, "keep");

    map.clock = ManualClock { current_time: 1100 };

    // No automatic sweep ran: the expired entry still occupies the store.
    assert_eq!(map.len_unchecked(), 2);
    assert_eq!(map.get(&1), None);

    map.drop_expired_entries();
    assert_eq!(map.len_unchecked(), 1);
    assert_eq!(map.get(&2), Some(&"keep"));
}

#[test]
fn tick_cap_defers_the_sweep() {
    let clock = ManualClock { current_time: 1000 };
    let mut map: TimedMap<ManualClock, &str> = TimedMap::new(clock).expiration_tick_cap(3);

    map.insert_expirable(1, "a", Duration::from_secs(1));
    map.clock = ManualClock { current_time: 1100 };

    // Tick 2 of 3: no sweep yet, the expired entry stays in the store.
    map.insert_expirable(2, "b", Duration::from_secs(50));
    assert_eq!(map.len_unchecked(), 2);

    // Tick 3 reaches the cap: the sweep removes the expired entry.
    map.insert_expirable(3, "c", Duration::from_secs(50));
    assert_eq!(map.len_unchecked(), 2);
    assert_eq!(map.get(&1), None);
    assert_eq!(map.get(&2), Some(&"b"));
    assert_eq!(map.get(&3), Some(&"c"));
}

#[test]
fn length_functions_distinguish_expired_entries() {
    let mut map: TimedMap<ManualClock, &str> = TimedMap::new(ManualClock { current_time: 1000 });

    map.insert_expirable_unchecked(1, "v", Duration::from_secs(1));
    map.insert_expirable_unchecked(2, "v", Duration::from_secs(1));
    map.insert_expirable_unchecked(3, "v", Duration::from_secs(3));
    map.insert_expirable_unchecked(4, "v", Duration::from_secs(3));
    map.insert_expirable_unchecked(5, "v", Duration::from_secs(3));
    map.insert_expirable_unchecked(6, "v", Duration::from_secs(3));

    map.clock = ManualClock { current_time: 1002 };

    assert_eq!(map.len(), 4);
    assert_eq!(map.len_expired(), 2);
    assert_eq!(map.len_unchecked(), 6);
}

#[test]
fn get_mut_changes_the_stored_value() {
    let mut map: TimedMap<ManualClock, u32> = TimedMap::new(ManualClock { current_time: 1000 });

    map.insert_constant(1, 10);
    if let Some(v) = map.get_mut(&1) {
        *v = 99;
    }
    assert_eq!(map.get(&1), Some(&99));

    // An expired entry is not handed out mutably.
    map.insert_expirable(2, 5, Duration::from_secs(1));
    map.clock = ManualClock { current_time: 2000 };
    assert!(map.get_mut(&2).is_none());
    assert!(map.get_mut_unchecked(&2).is_some());
}

#[test]
fn get_unchecked_sees_expired_entries() {
    let mut map: TimedMap<ManualClock, &str> = TimedMap::new(ManualClock { current_time: 1000 });

    map.insert_expirable_unchecked(1, "v", Duration::from_secs(1));
    map.set_clock(ManualClock { current_time: 2000 });

    assert_eq!(map.get(&1), None);
    assert_eq!(map.get_unchecked(&1), Some(&"v"));
}

#[test]
fn keys_and_clear() {
    let mut map: TimedMap<ManualClock, &str> = TimedMap::new(ManualClock { current_time: 1000 });

    map.insert_constant(3, "c");
    map.insert_constant(1, "a");
    map.insert_expirable(2, "b", Duration::from_secs(60));

    let mut keys = map.keys();
    keys.sort();
    assert_eq!(keys, vec![1, 2, 3]);

    map.clear();
    assert!(map.is_empty());
    assert_eq!(map.keys(), Vec::<u64>::new());
    assert_eq!(map.get(&1), None);
}

#[test]
fn hash_map_backend_behaves_identically() {
    let clock = ManualClock { current_time: 1000 };
    let mut map: TimedMap<ManualClock, &str> =
        TimedMap::new_with_map_kind(clock, MapKind::HashMap);

    assert_eq!(map.insert_expirable(1, "x", Duration::from_secs(50)), None);
    assert_eq!(map.insert_expirable(1, "y", Duration::from_secs(70)), Some("x"));
    map.insert_constant(2, "z");

    assert_eq!(map.len_unchecked(), 2);
    assert_eq!(map.get(&1), Some(&"y"));

    map.clock = ManualClock { current_time: 1075 };
    map.drop_expired_entries();
    assert_eq!(map.get(&1), None);
    assert_eq!(map.len_unchecked(), 1);
    assert_eq!(map.remove(&2), Some("z"));
    assert!(map.is_empty());
}

#[test]
fn fx_hash_map_backend_behaves_identically() {
    let clock = ManualClock { current_time: 1000 };
    let mut map: TimedMap<ManualClock, &str> =
        TimedMap::new_with_map_kind(clock, MapKind::FxHashMap);

    assert_eq!(map.insert_expirable(1, "x", Duration::from_secs(50)), None);
    assert_eq!(map.insert_expirable(1, "y", Duration::from_secs(70)), Some("x"));
    map.insert_constant(2, "z");

    assert_eq!(map.len_unchecked(), 2);
    assert_eq!(map.get(&1), Some(&"y"));
    assert_eq!(map.get_remaining_duration(&1), Some(Duration::from_secs(70)));

    let mut keys = map.keys();
    keys.sort();
    assert_eq!(keys, vec![1, 2]);

    if let Some(v) = map.get_mut(&2) {
        *v = "w";
    }
    assert_eq!(map.get(&2), Some(&"w"));

    map.clock = ManualClock { current_time: 1075 };
    assert_eq!(map.len_expired(), 1);
    map.drop_expired_entries();
    assert_eq!(map.get(&1), None);
    assert_eq!(map.len_unchecked(), 1);
    assert_eq!(map.remove(&2), Some("w"));
    assert!(map.is_empty());
}

#[test]
fn overflowing_deadline_saturates_instead_of_wrapping() {
    let mut map: TimedMap<ManualClock, &str> =
        TimedMap::new(ManualClock { current_time: u64::MAX - 10 });

    map.insert_expirable(1, "v", Duration::from_secs(100));

    // A wrapped deadline would make the entry look expired immediately; a
    // saturated one keeps it alive to the far end of time.
    assert_eq!(map.get(&1), Some(&"v"));
    map.clock = ManualClock { current_time: u64::MAX - 1 };
    assert_eq!(map.get(&1), Some(&"v"));
    map.drop_expired_entries();
    assert_eq!(map.get(&1), Some(&"v"));

    // Reads stay valid at the deadline itself; only a sweep at that very
    // instant reclaims the entry.
    map.clock = ManualClock { current_time: u64::MAX };
    assert_eq!(map.get(&1), Some(&"v"));
    map.drop_expired_entries();
    assert_eq!(map.get(&1), None);
}
