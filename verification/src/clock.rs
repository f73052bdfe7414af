//! The injectable time source consumed by the container.

use vstd::prelude::*;

verus! {

/// Supplies elapsed time since the creation of the implementer, in seconds.
///
/// The container never reads a global clock; it only calls this trait.  A
/// clock whose readings are predictable (such as [`ManualClock`]) exposes the
/// value it will report through `spec_now`, which lets callers reason exactly
/// about time-dependent results.  A clock backed by real time (such as
/// [`StdClock`]) reports `None` there: nothing is promised about its reading,
/// and every contract of the container also states what holds for an
/// arbitrary reading.
pub trait Clock {
    /// The reading this clock is known to report next, if that is determined
    /// by its state alone; `None` for clocks driven by the outside world.
    spec fn spec_now(&self) -> Option<u64>;

    /// Returns the elapsed time since the creation of the implementer, in
    /// seconds.
    fn elapsed_seconds_since_creation(&self) -> (now: u64)
        ensures
            self.spec_now() is Some ==> now == self.spec_now()->0,
    ;
}

/// Relies on `std::time::Instant`: an opaque monotonic timestamp.
#[verifier::external_type_specification]
#[verifier::external_body]
pub struct ExInstant(std::time::Instant);

/// Relies on `std::time::Instant` being plain data: `clone` returns the same
/// instant.
pub assume_specification[ <std::time::Instant as Clone>::clone ](
    this: &std::time::Instant,
) -> (other: std::time::Instant)
    ensures
        other == *this,
;

/// Relies on `std::time::Instant::now`: the current instant; real time gives
/// no guarantee this crate could state.
#[verifier::external_body]
fn instant_now() -> std::time::Instant {
    std::time::Instant::now()
}

/// Relies on `std::time::Instant::elapsed` (read as whole seconds via
/// `Duration::as_secs`): how long ago `creation` was.  The result depends on
/// the machine's clock, so nothing is promised of it.
#[verifier::external_body]
fn seconds_since(creation: &std::time::Instant) -> u64 {
    creation.elapsed().as_secs()
}

/// A `Clock` implementation backed by real time.
///
/// It reports the whole seconds elapsed since it was created.
#[derive(Clone, Debug)]
pub struct StdClock {
    creation: std::time::Instant,
}

impl StdClock {
    /// Creates a clock whose reference point is the moment of this call.
    pub fn new() -> (clock: Self)
        ensures
            clock.spec_now() is None,
    {
        StdClock { creation: instant_now() }
    }
}

impl Default for StdClock {
    fn default() -> (clock: Self)
        ensures
            clock.spec_now() is None,
    {
        StdClock::new()
    }
}

impl Clock for StdClock {
    open spec fn spec_now(&self) -> Option<u64> {
        None
    }

    fn elapsed_seconds_since_creation(&self) -> (now: u64) {
        seconds_since(&self.creation)
    }
}

/// A deterministic `Clock` whose reading is set by hand.
///
/// Intended for callers that manage time themselves and for exercising
/// expiration boundaries exactly.
#[derive(Clone, Copy, Debug)]
pub struct ManualClock {
    /// The reading the clock reports, in seconds.
    pub current_time: u64,
}

impl Clock for ManualClock {
    open spec fn spec_now(&self) -> Option<u64> {
        Some(self.current_time)
    }

    fn elapsed_seconds_since_creation(&self) -> (now: u64) {
        self.current_time
    }
}

} // verus!
