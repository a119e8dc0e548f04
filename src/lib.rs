//! Merge discovery for a byte-pair-encoding vocabulary.
//!
//! Words are sequences of byte-string tokens with occurrence counts. The
//! library repeatedly picks the most frequent adjacent token pair (ties go to
//! the lexicographically smallest pair), merges it everywhere, and records
//! the pair, keeping pair frequencies up to date incrementally.
pub mod laws;
pub mod merge;
pub mod model;
pub mod multiset;
pub mod order;
pub mod table;

pub use merge::{run_bpe_merge, MergeState};
