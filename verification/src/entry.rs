//! A stored value together with its expiration status.

use vstd::prelude::*;

verus! {

use core::time::Duration;
use crate::duration::{duration_as_secs, duration_from_secs};

/// The expiration policy of a single entry.
///
/// - `Constant`: the entry never expires and remains accessible until removed.
/// - `ExpiresAtSeconds(t)`: the entry is visible through checked reads up to
///   and including the instant `t`, and invisible strictly after it.
#[derive(Clone, Copy, Debug, PartialEq, Eq, Structural)]
pub enum EntryStatus {
    Constant,
    ExpiresAtSeconds(u64),
}

impl EntryStatus {
    /// The status encoding `expires_at`: expirable when `Some`, constant
    /// when `None`.
    pub open spec fn spec_new(expires_at: Option<u64>) -> EntryStatus {
        match expires_at {
            Some(t) => EntryStatus::ExpiresAtSeconds(t),
            None => EntryStatus::Constant,
        }
    }

    /// Whether a checked read at time `now_seconds` treats an entry with this
    /// status as gone.  Expiration is exclusive of equality at the boundary:
    /// an entry is still valid at its expiration instant.
    pub open spec fn is_expired_at(self, now_seconds: u64) -> bool {
        match self {
            EntryStatus::Constant => false,
            EntryStatus::ExpiresAtSeconds(t) => now_seconds > t,
        }
    }

    /// Whether a sweep running at time `now_seconds` removes an entry with
    /// this status.  The sweep clears every bucket whose instant has been
    /// reached, so it uses the inclusive comparison `t <= now_seconds`.
    pub open spec fn is_due_at(self, now_seconds: u64) -> bool {
        match self {
            EntryStatus::Constant => false,
            EntryStatus::ExpiresAtSeconds(t) => t <= now_seconds,
        }
    }

    /// Creates an expirable or constant status based on `expires_at`.
    pub fn new(expires_at: Option<u64>) -> (status: Self)
        ensures
            status == EntryStatus::spec_new(expires_at),
    {
        match expires_at {
            Some(t) => EntryStatus::ExpiresAtSeconds(t),
            None => EntryStatus::Constant,
        }
    }
}

/// A stored value `V` and the `EntryStatus` that decides whether it is
/// constant or expirable.
#[derive(Debug)]
pub struct ExpirableEntry<V> {
    pub value: V,
    pub status: EntryStatus,
}

impl<V> ExpirableEntry<V> {
    /// The entry holding `v` with status `status`.
    pub open spec fn spec_with(v: V, status: EntryStatus) -> Self {
        ExpirableEntry { value: v, status }
    }

    /// Creates a new entry; constant when `expires_at` is `None`.
    pub fn new(v: V, expires_at: Option<u64>) -> (entry: Self)
        ensures
            entry.value == v,
            entry.status == EntryStatus::spec_new(expires_at),
    {
        ExpirableEntry { value: v, status: EntryStatus::new(expires_at) }
    }

    pub fn status(&self) -> (status: &EntryStatus)
        ensures
            *status == self.status,
    {
        &self.status
    }

    pub fn value(&self) -> (value: &V)
        ensures
            *value == self.value,
    {
        &self.value
    }

    pub fn value_mut(&mut self) -> (value: &mut V)
        ensures
            *value == old(self).value,
            final(self).value == *final(value),
            final(self).status == old(self).status,
    {
        &mut self.value
    }

    /// Returns the owned value, consuming the entry.
    pub fn owned_value(self) -> (value: V)
        ensures
            value == self.value,
    {
        self.value
    }

    /// Whether the entry has expired as of `now_seconds`.
    pub fn is_expired(&self, now_seconds: u64) -> (expired: bool)
        ensures
            expired == self.status.is_expired_at(now_seconds),
    {
        match self.status {
            EntryStatus::Constant => false,
            EntryStatus::ExpiresAtSeconds(expires_at_seconds) => now_seconds > expires_at_seconds,
        }
    }

    /// The remaining time before the entry expires, or `None` for a constant
    /// entry.  Zero once the expiration instant has passed.
    pub fn remaining_duration(&self, now_seconds: u64) -> (remaining: Option<Duration>)
        ensures
            match self.status {
                EntryStatus::Constant => remaining is None,
                EntryStatus::ExpiresAtSeconds(t) => {
                    &&& remaining == Some(duration_from_secs(t.saturating_sub(now_seconds)))
                    &&& duration_as_secs(remaining->0) == t.saturating_sub(now_seconds)
                },
            },
    {
        match self.status {
            EntryStatus::Constant => None,
            EntryStatus::ExpiresAtSeconds(expires_at_seconds) => Some(
                Duration::from_secs(expires_at_seconds.saturating_sub(now_seconds)),
            ),
        }
    }

    /// Replaces the expiration status in place.
    pub fn update_status(&mut self, status: EntryStatus)
        ensures
            final(self).status == status,
            final(self).value == old(self).value,
    {
        self.status = status;
    }
}

} // verus!
