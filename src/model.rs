//! The records that scans and diffs are made of.

use vstd::prelude::*;
use crate::hash::{ContentHash, HashAlgorithm};
use crate::similarity::MAX_PATH_CHARS;

verus! {

/// A wall-clock instant: seconds relative to the Unix epoch and nanoseconds
/// within that second.
#[derive(Clone, Copy, Debug, PartialEq, Eq, Structural)]
pub struct Timestamp {
    pub secs: i64,
    pub nanos: u32,
}

/// One regular file of a scan.
#[derive(Clone, Debug)]
pub struct FileMeta {
    /// Path relative to the scan root, `/`-separated.
    pub path: String,
    /// Size in bytes.
    pub size: u64,
    /// Last modification time.
    pub mtime: Timestamp,
    /// Fingerprint of the content.
    pub hash: ContentHash,
    /// POSIX permission bits, where the host has them.
    pub permissions: Option<u32>,
}

/// A `FileMeta` as a value.
pub struct FileMetaView {
    pub path: Seq<char>,
    pub size: u64,
    pub mtime: Timestamp,
    pub hash: (HashAlgorithm, Seq<u8>),
    pub permissions: Option<u32>,
}

impl View for FileMeta {
    type V = FileMetaView;

    open spec fn view(&self) -> FileMetaView {
        FileMetaView {
            path: self.path@,
            size: self.size,
            mtime: self.mtime,
            hash: self.hash@,
            permissions: self.permissions,
        }
    }
}

impl FileMeta {
    /// A copy of the record.
    pub fn duplicate(&self) -> (r: FileMeta)
        ensures
            r@ == self@,
    {
        FileMeta {
            path: self.path.clone(),
            size: self.size,
            mtime: self.mtime,
            hash: self.hash,
            permissions: self.permissions,
        }
    }
}

fn same_permissions(a: Option<u32>, b: Option<u32>) -> (r: bool)
    ensures
        r == (a == b),
{
    match (a, b) {
        (Some(x), Some(y)) => x == y,
        (None, None) => true,
        _ => false,
    }
}

impl PartialEq for FileMeta {
    fn eq(&self, other: &FileMeta) -> (r: bool)
        ensures
            r == (self@ == other@),
    {
        self.path == other.path && self.size == other.size && self.mtime == other.mtime
            && self.hash.same_as(&other.hash) && same_permissions(self.permissions, other.permissions)
    }
}

impl vstd::std_specs::cmp::PartialEqSpecImpl for FileMeta {
    open spec fn obeys_eq_spec() -> bool {
        true
    }

    open spec fn eq_spec(&self, other: &FileMeta) -> bool {
        self@ == other@
    }
}

/// The views of a list of records.
pub open spec fn metas_view(files: Seq<FileMeta>) -> Seq<FileMetaView> {
    files.map_values(|f: FileMeta| f@)
}

/// Paths are unique and short enough for the similarity arithmetic.
pub open spec fn files_well_formed(files: Seq<FileMetaView>) -> bool {
    &&& forall|i: int| 0 <= i < files.len() ==> (#[trigger] files[i]).path.len() < MAX_PATH_CHARS
    &&& forall|i: int, j: int|
        0 <= i < files.len() && 0 <= j < files.len() && i != j ==> #[trigger] files[i].path
            != #[trigger] files[j].path
}

/// The outcome of scanning a directory.
#[derive(Clone, Debug)]
pub struct ScanResult {
    /// The directory that was scanned.
    pub root: String,
    /// The regular files found, in no particular order.
    pub files: Vec<FileMeta>,
    /// When the scan completed.
    pub scan_time: Timestamp,
}

/// The sum of the sizes of `files`.
pub open spec fn total_size_of(files: Seq<FileMetaView>) -> int
    decreases files.len(),
{
    if files.len() == 0 {
        0
    } else {
        total_size_of(files.drop_last()) + files.last().size as int
    }
}

impl ScanResult {
    pub open spec fn files_view(&self) -> Seq<FileMetaView> {
        metas_view(self.files@)
    }

    /// Paths within the scan are unique and short enough for the similarity
    /// arithmetic.
    pub open spec fn well_formed(&self) -> bool {
        files_well_formed(self.files_view())
    }

    /// The total size of all files.
    pub fn total_size(&self) -> (r: u64)
        requires
            total_size_of(self.files_view()) <= u64::MAX,
        ensures
            r == total_size_of(self.files_view()),
    {
        let mut total: u64 = 0;
        let mut i: usize = 0;
        while i < self.files.len()
            invariant
                i <= self.files.len(),
                total == total_size_of(self.files_view().take(i as int)),
                total_size_of(self.files_view()) <= u64::MAX,
            decreases self.files.len() - i,
        {
            proof {
                lemma_total_size_prefix(self.files_view(), i as int + 1);
                assert(self.files_view().take(i + 1).drop_last() =~= self.files_view().take(i as int));
            }
            total = total + self.files[i].size;
            i = i + 1;
        }
        assert(self.files_view().take(i as int) =~= self.files_view());
        total
    }
}

/// A prefix never weighs more than the whole list.
proof fn lemma_total_size_prefix(files: Seq<FileMetaView>, n: int)
    requires
        0 <= n <= files.len(),
    ensures
        total_size_of(files.take(n)) <= total_size_of(files),
    decreases files.len() - n,
{
    if n < files.len() {
        lemma_total_size_prefix(files, n + 1);
        assert(files.take(n + 1).drop_last() =~= files.take(n));
    } else {
        assert(files.take(n) =~= files);
    }
}

/// How a destination is brought in line with a source.
#[derive(Clone, Debug)]
pub struct DiffResult {
    /// Source files with no counterpart in the destination.
    pub added: Vec<FileMeta>,
    /// Destination files with no counterpart in the source.
    pub removed: Vec<FileMeta>,
    /// Source files whose path exists in both scans with other content.
    pub modified: Vec<FileMeta>,
    /// Pairs `(old, new)` of a destination file and a source file with the
    /// same content at another path.
    pub renamed: Vec<(FileMeta, FileMeta)>,
}

/// A `DiffResult` as a value.
pub struct DiffView {
    pub added: Seq<FileMetaView>,
    pub removed: Seq<FileMetaView>,
    pub modified: Seq<FileMetaView>,
    pub renamed: Seq<(FileMetaView, FileMetaView)>,
}

impl View for DiffResult {
    type V = DiffView;

    open spec fn view(&self) -> DiffView {
        DiffView {
            added: metas_view(self.added@),
            removed: metas_view(self.removed@),
            modified: metas_view(self.modified@),
            renamed: self.renamed@.map_values(|p: (FileMeta, FileMeta)| (p.0@, p.1@)),
        }
    }
}

/// Options of a sync.
#[derive(Clone, Copy, Debug, PartialEq, Eq, Structural)]
pub struct SyncOptions {
    /// Delete destination files that the source does not have.
    pub delete_removed: bool,
    /// Give copied files the source's modification time.
    pub preserve_timestamps: bool,
    /// Hash each copy while writing it and compare with the source's fingerprint.
    pub verify_after_copy: bool,
}

impl Default for SyncOptions {
    fn default() -> (r: SyncOptions)
        ensures
            !r.delete_removed,
            r.preserve_timestamps,
            !r.verify_after_copy,
    {
        SyncOptions { delete_removed: false, preserve_timestamps: true, verify_after_copy: false }
    }
}

} // verus!
