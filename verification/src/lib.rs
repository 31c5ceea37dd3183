//! A brute-force search for a variant of a git commit object whose SHA-1
//! digest begins with a caller-chosen hexadecimal prefix.
//!
//! The search perturbs the author timestamp embedded in the commit buffer,
//! re-hashes the buffer, and tests the digest against a nibble-precise
//! prefix pattern, partitioning the candidate space across workers.

pub mod digest;
pub mod digits;
pub mod errors;
pub mod coordinator;
pub mod locate;
pub mod pattern;
pub mod worker;

pub use errors::SearchError;
pub use locate::get_timestamps_from_last_commit;
pub use worker::{CancellationFlag, ChannelMessage, SearchTask, TimestampSpan, WorkerOutcome};
pub use pattern::PrefixPattern;
pub use pattern::hex_check;
