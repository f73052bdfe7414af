use core::time::Duration;
use timed_map::ManualClock as MockClock;
use timed_map::StdClock;
use timed_map::TimedMap;

#[test]
fn nostd_insert_and_get_constant_entry() {
    let clock = MockClock { current_time: 1000 };
    let mut map: TimedMap<MockClock, &str> = TimedMap::new(clock);

    map.insert_constant(1, "constant value");

    assert_eq!(map.get(&1), Some(&"constant value"));
    assert_eq!(map.get_remaining_duration(&1), None);
}

#[test]
fn nostd_insert_and_get_expirable_entry() {
    let clock = MockClock { current_time: 1000 };
    let mut map: TimedMap<MockClock, &str> = TimedMap::new(clock);
    let duration = Duration::from_secs(60);

    map.insert_expirable(1, "expirable value", duration);

    assert_eq!(map.get(&1), Some(&"expirable value"));
    assert_eq!(map.get_remaining_duration(&1), Some(duration));
}

#[test]
fn nostd_expired_entry() {
    let clock = MockClock { current_time: 1000 };
    let mut map: TimedMap<MockClock, &str> = TimedMap::new(clock);
    let duration = Duration::from_secs(60);

    // Insert entry that expires in 60 seconds
    map.insert_expirable(1, "expirable value", duration);

    // Simulate time passage beyond expiration
    let clock = MockClock { current_time: 1070 };
    map.clock = clock;

    // The entry should be considered expired
    assert_eq!(map.get(&1), None);
    assert_eq!(map.get_remaining_duration(&1), None);
}

#[test]
fn nostd_remove_entry() {
    let clock = MockClock { current_time: 1000 };
    let mut map: TimedMap<MockClock, &str> = TimedMap::new(clock);

    map.insert_constant(1, "constant value");

    assert_eq!(map.remove(&1), Some("constant value"));
    assert_eq!(map.get(&1), None);
}

#[test]
fn nostd_drop_expired_entries() {
    let clock = MockClock { current_time: 1000 };
    let mut map: TimedMap<MockClock, &str> = TimedMap::new(clock);

    // Insert one constant and 2 expirable entries
    map.insert_expirable(1, "expirable value1", Duration::from_secs(50));
    map.insert_expirable(2, "expirable value2", Duration::from_secs(70));
    map.insert_constant(3, "constant value");

    // Simulate time passage beyond the expiration of the first entry
    let clock = MockClock { current_time: 1055 };
    map.clock = clock;

    // Entry 1 should be removed and entry 2 and 3 should still exist
    assert_eq!(map.get(&1), None);
    assert_eq!(map.get(&2), Some(&"expirable value2"));
    assert_eq!(map.get(&3), Some(&"constant value"));

    // Simulate time passage again to expire second expirable entry
    let clock = MockClock { current_time: 1071 };
    map.clock = clock;

    assert_eq!(map.get(&1), None);
    assert_eq!(map.get(&2), None);
    assert_eq!(map.get(&3), Some(&"constant value"));
}

#[test]
fn nostd_update_existing_entry() {
    let clock = MockClock { current_time: 1000 };
    let mut map: TimedMap<MockClock, &str> = TimedMap::new(clock);

    map.insert_constant(1, "initial value");
    assert_eq!(map.get(&1), Some(&"initial value"));

    // Update the value of the existing key and make it expirable
    map.insert_expirable(1, "updated value", Duration::from_secs(15));
    assert_eq!(map.get(&1), Some(&"updated value"));

    // Simulate time passage and expire the updated entry
    let clock = MockClock { current_time: 1016 };
    map.clock = clock;

    assert_eq!(map.get(&1), None);
}

#[test]
fn nostd_update_expirable_entry_status() {
    let clock = MockClock { current_time: 1000 };
    let mut map: TimedMap<MockClock, &str> = TimedMap::new(clock);

    map.insert_constant(1, "initial value");
    assert_eq!(map.get(&1), Some(&"initial value"));

    // Update the value of the existing key and make it expirable
    map.update_expiration_status(1, Duration::from_secs(16))
        .expect("shouldn't fails");
    assert_eq!(map.get(&1), Some(&"initial value"));

    // Simulate time passage and expire the updated entry
    let clock = MockClock { current_time: 1017 };
    map.clock = clock;
    assert_eq!(map.get(&1), None);
}

#[test]
fn std_expirable_and_constant_entries() {
    let mut map: TimedMap<StdClock, &str> = TimedMap::new(StdClock::new());

    map.insert_constant(1, "constant value");
    map.insert_expirable(2, "expirable value", Duration::from_secs(2));

    assert_eq!(map.get(&1), Some(&"constant value"));
    assert_eq!(map.get(&2), Some(&"expirable value"));

    assert_eq!(map.get_remaining_duration(&1), None);
    assert!(map.get_remaining_duration(&2).is_some());
}

#[test]
fn std_remove_entry() {
    let mut map: TimedMap<StdClock, _> = TimedMap::new(StdClock::new());

    map.insert_constant(1, "constant value");
    map.insert_expirable(2, "expirable value", Duration::from_secs(2));

    assert_eq!(map.remove(&1), Some("constant value"));
    assert_eq!(map.remove(&2), Some("expirable value"));

    assert_eq!(map.get(&1), None);
    assert_eq!(map.get(&2), None);
}
