//! Assembling a scan from the per-file outcomes of a directory walk.

use vstd::prelude::*;
use crate::errors::SyncError;
use crate::model::{FileMeta, FileMetaView, ScanResult, Timestamp, metas_view};

verus! {

/// The records of the files that were read, in walk order.
pub open spec fn successes(entries: Seq<Result<FileMeta, SyncError>>) -> Seq<FileMetaView>
    decreases entries.len(),
{
    if entries.len() == 0 {
        Seq::empty()
    } else {
        let r = successes(entries.drop_last());
        match entries.last() {
            Ok(f) => r.push(f@),
            Err(_) => r,
        }
    }
}

/// How many files could not be read.
pub open spec fn failure_count(entries: Seq<Result<FileMeta, SyncError>>) -> nat
    decreases entries.len(),
{
    if entries.len() == 0 {
        0
    } else {
        failure_count(entries.drop_last()) + if entries.last() is Err {
            1nat
        } else {
            0nat
        }
    }
}

/// A scan of `root` holding the files that were read, and the number of
/// files that could not be: a file that fails does not fail the scan.
pub fn collect_scan(root: String, entries: Vec<Result<FileMeta, SyncError>>, scan_time: Timestamp) -> (r: (
    ScanResult,
    usize,
))
    ensures
        r.0.root@ == root@,
        r.0.scan_time == scan_time,
        r.0.files_view() == successes(entries@),
        r.1 == failure_count(entries@),
{
    let mut files: Vec<FileMeta> = Vec::new();
    let mut errors: usize = 0;
    let mut i: usize = 0;
    while i < entries.len()
        invariant
            i <= entries@.len(),
            metas_view(files@) == successes(entries@.take(i as int)),
            errors == failure_count(entries@.take(i as int)),
            errors <= i,
        decreases entries@.len() - i,
    {
        assert(entries@.take(i + 1).drop_last() =~= entries@.take(i as int));
        match &entries[i] {
            Ok(f) => {
                files.push(f.duplicate());
                assert(metas_view(files@) =~= successes(entries@.take(i + 1)));
            },
            Err(_) => {
                errors = errors + 1;
            },
        }
        i = i + 1;
    }
    assert(entries@.take(i as int) =~= entries@);
    (ScanResult { root, files, scan_time }, errors)
}

} // verus!
