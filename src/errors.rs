//! Error kinds of the library.

use vstd::prelude::*;

verus! {

/// Errors of scanning, diffing and applying a sync.
#[derive(Clone, Debug)]
pub enum SyncError {
    /// A directory could not be enumerated.
    DirectoryRead(String),
    /// A file could not be hashed.
    HashError(String),
    /// A copy or rename failed.
    CopyError(String),
    /// A copy did not hash to the source's fingerprint.
    IntegrityError(String),
    /// The journal could not be written or read.
    JournalError(String),
    /// A root is missing, a path lies outside its root, or an exclude
    /// pattern is malformed.
    InvalidPath(String),
    /// Any other I/O failure.
    Io(String),
}

/// Errors of the file operations used by a sync.
#[derive(Clone, Debug)]
pub enum IoError {
    CopyFailed(String),
    MetadataFailed(String),
    RemoveFailed(String),
    Io(String),
}

} // verus!
