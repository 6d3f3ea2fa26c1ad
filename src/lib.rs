//! Directory synchronisation with content-hash based rename detection.
//!
//! A scan lists the regular files under a root with their fingerprints;
//! `diff_scans` classifies two scans into added, removed, modified and
//! renamed files; `plan_sync` orders the operations that apply a diff, and
//! the journal records them so that an interrupted sync leaves no staging
//! files behind.

mod blake3_calls;
pub mod diff;
pub mod errors;
pub mod hash;
pub mod journal;
pub mod model;
pub mod outcome;
pub mod plan;
pub mod scan;
pub mod similarity;
mod strsim_calls;
mod tables;
pub mod text;

pub use diff::diff_scans;
pub use errors::{IoError, SyncError};
pub use hash::{hash_bytes, ContentHash, HashAlgorithm, StreamHasher};
pub use model::{DiffResult, FileMeta, ScanResult, SyncOptions, Timestamp};
