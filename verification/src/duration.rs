//! A spec-level model of `core::time::Duration`, of which the container only
//! ever reads the whole-second count.

use vstd::prelude::*;

verus! {

use core::time::Duration;

/// The whole-second count of a `Duration`, as `Duration::as_secs` reports it.
pub uninterp spec fn duration_as_secs(d: Duration) -> u64;

/// The duration of exactly `secs` whole seconds and no sub-second part, as
/// `Duration::from_secs` builds it.
pub uninterp spec fn duration_from_secs(secs: u64) -> Duration;

/// Relies on `core::time::Duration::as_secs`: the number of whole seconds is
/// a pure function of the duration value alone.
pub assume_specification[ Duration::as_secs ](d: &Duration) -> (secs: u64)
    ensures
        secs == duration_as_secs(*d),
;

/// Relies on `core::time::Duration::from_secs`: the result is a pure
/// function of `secs` alone, and since it holds exactly `secs` whole seconds
/// and no sub-second part, `as_secs` returns `secs` again.
pub assume_specification[ Duration::from_secs ](secs: u64) -> (d: Duration)
    ensures
        d == duration_from_secs(secs),
        duration_as_secs(d) == secs,
;

} // verus!
