use core::time::Duration;
use timed_map::Clock;
use timed_map::EntryStatus;
use timed_map::ExpirableEntry;
use timed_map::ManualClock as MockClock;

#[test]
fn test_entry_status() {
    let clock = MockClock { current_time: 1000 };

    let entry_status = EntryStatus::new(None);
    assert!(matches!(entry_status, EntryStatus::Constant));

    let duration = Duration::from_secs(60);
    let entry_status = EntryStatus::new(Some(
        clock.elapsed_seconds_since_creation() + duration.as_secs(),
    ));
    assert!(matches!(entry_status, EntryStatus::ExpiresAtSeconds(1060)));
}

#[test]
fn test_constant_entry() {
    let clock = MockClock { current_time: 1000 };
    let entry = ExpirableEntry::new("constant value", None);

    assert_eq!(entry.value(), &"constant value");
    assert!(!entry.is_expired(clock.elapsed_seconds_since_creation()));
    assert!(matches!(entry.status(), EntryStatus::Constant));
}

#[test]
fn test_expirable_entry() {
    let clock = MockClock { current_time: 1000 };
    let duration = Duration::from_secs(60);
    let entry = ExpirableEntry::new(
        "expirable value",
        Some(clock.elapsed_seconds_since_creation() + duration.as_secs()),
    );

    assert_eq!(entry.value(), &"expirable value");
    assert!(!entry.is_expired(clock.elapsed_seconds_since_creation()));
    assert!(matches!(
        entry.status(),
        EntryStatus::ExpiresAtSeconds(1060)
    ));
}

#[test]
fn test_expirable_entry_is_expired() {
    let clock = MockClock { current_time: 1000 };
    let duration = Duration::from_secs(60);
    let entry = ExpirableEntry::new(
        "expirable value",
        Some(clock.elapsed_seconds_since_creation() + duration.as_secs()),
    );

    // Entry should not be expired yet
    assert!(!entry.is_expired(clock.elapsed_seconds_since_creation()));

    // Simulate time passing
    let clock = MockClock { current_time: 1070 };
    assert!(entry.is_expired(clock.elapsed_seconds_since_creation()));
}

#[test]
fn test_remaining_duration_for_expires_at_seconds() {
    let clock = MockClock { current_time: 1000 };
    let duration = Duration::from_secs(60);
    let entry = ExpirableEntry::new(
        "expirable value",
        Some(clock.elapsed_seconds_since_creation() + duration.as_secs()),
    );

    assert!(!entry.is_expired(clock.elapsed_seconds_since_creation()));
    assert_eq!(
        entry.remaining_duration(clock.elapsed_seconds_since_creation()),
        Some(Duration::from_secs(60))
    );

    // Simulate time passing
    let clock = MockClock { current_time: 1050 };
    assert!(!entry.is_expired(clock.elapsed_seconds_since_creation()));
    assert_eq!(
        entry.remaining_duration(clock.elapsed_seconds_since_creation()),
        Some(Duration::from_secs(10))
    );

    // Time passed beyond expiration
    let clock = MockClock { current_time: 1070 };
    assert!(entry.is_expired(clock.elapsed_seconds_since_creation()));
    assert_eq!(
        entry.remaining_duration(clock.elapsed_seconds_since_creation()),
        Some(Duration::from_secs(0))
    );
}

#[test]
fn test_remaining_duration_for_constant() {
    let clock = MockClock { current_time: 1000 };
    let entry = ExpirableEntry::new("constant value", None);

    assert_eq!(
        entry.remaining_duration(clock.elapsed_seconds_since_creation()),
        None
    );
}
