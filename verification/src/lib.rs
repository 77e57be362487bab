//! A bounded, time-spaced retention policy for published release records.
//!
//! The engine keeps a chronologically ordered history of release records.
//! When a newly published record is pushed, it decides which older records
//! to drop: consecutive kept records must be spaced by a minimum interval,
//! the total number of kept records is capped, and the pushed record itself
//! is always kept.

pub mod record;
pub mod retention;

pub use record::ReleaseRecord;
pub use retention::MAX_RELEASES;
pub use retention::MIN_INTERVAL_SECONDS;
pub use retention::ReleaseManager;
