//! An in-memory associative container whose entries may carry an optional
//! time-to-live.
//!
//! Each stored value is either permanent (`Constant`) or becomes logically
//! invisible once a configured expiration instant passes.  Time is abstracted
//! behind the injectable [`Clock`] trait, so the container works both with
//! real time ([`StdClock`]) and with a deterministic time source
//! ([`ManualClock`]).
//!
//! The container keeps two structures consistent: the primary key-to-value
//! store and an expiry-ordered secondary index, which makes removing all
//! expired entries cost proportional to the number of expired entries rather
//! than the size of the container.

pub mod backing;
pub mod clock;
pub mod duration;
pub mod entry;
pub mod error;
pub mod expiry;
pub mod map;

pub use backing::MapKind;
pub use clock::{Clock, ManualClock, StdClock};
pub use entry::{EntryStatus, ExpirableEntry};
pub use error::TimedMapError;
pub use map::TimedMap;
