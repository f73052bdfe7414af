//! The failure values surfaced by the container.

use vstd::prelude::*;

verus! {

/// Failures of operations that require an existing key.
#[derive(Clone, Copy, Debug, PartialEq, Eq, Structural)]
pub enum TimedMapError {
    /// No entry exists for the given key.
    EntryNotFound,
}

impl TimedMapError {
    /// A human-readable description of the failure.
    pub fn as_str(&self) -> (msg: &'static str)
        ensures
            msg@ == "Entry not found for given key"@,
    {
        match self {
            TimedMapError::EntryNotFound => "Entry not found for given key",
        }
    }
}

} // verus!
