//! What applying a diff does, in order, and the names it uses at the
//! destination root.

use vstd::prelude::*;
use vstd::string::StringExecFns;
use crate::model::{DiffResult, DiffView, FileMeta, FileMetaView, SyncOptions};

verus! {

broadcast use vstd::string::group_string_axioms;

/// The staging directory for temporary files, under the destination root.
pub const TEMP_DIR_NAME: &'static str = ".jan-tmp";

/// The journal file, under the destination root.
pub const JOURNAL_FILE_NAME: &'static str = ".jan-journal";

/// One step of applying a diff; record paths are relative to the roots.
#[derive(Clone, Debug)]
pub enum SyncOp {
    /// Copy the source file to the same path in the destination.
    Copy(FileMeta),
    /// Copy the source file (second) into the destination, then remove the
    /// destination file (first).
    Rename(FileMeta, FileMeta),
    /// Remove the destination file.
    Delete(FileMeta),
}

/// A `SyncOp` as a value.
pub enum OpView {
    Copy(FileMetaView),
    Rename(FileMetaView, FileMetaView),
    Delete(FileMetaView),
}

impl View for SyncOp {
    type V = OpView;

    open spec fn view(&self) -> OpView {
        match self {
            SyncOp::Copy(f) => OpView::Copy(f@),
            SyncOp::Rename(o, n) => OpView::Rename(o@, n@),
            SyncOp::Delete(f) => OpView::Delete(f@),
        }
    }
}

pub open spec fn copies_of(files: Seq<FileMetaView>) -> Seq<OpView> {
    files.map_values(|f: FileMetaView| OpView::Copy(f))
}

pub open spec fn renames_of(pairs: Seq<(FileMetaView, FileMetaView)>) -> Seq<OpView> {
    pairs.map_values(|p: (FileMetaView, FileMetaView)| OpView::Rename(p.0, p.1))
}

pub open spec fn deletes_of(files: Seq<FileMetaView>) -> Seq<OpView> {
    files.map_values(|f: FileMetaView| OpView::Delete(f))
}

/// Copies of added then modified files, then renames, then, when removed
/// files are to be deleted, their deletions.
pub open spec fn sync_plan(d: DiffView, delete_removed: bool) -> Seq<OpView> {
    copies_of(d.added) + copies_of(d.modified) + renames_of(d.renamed) + if delete_removed {
        deletes_of(d.removed)
    } else {
        Seq::empty()
    }
}

pub open spec fn ops_view(ops: Seq<SyncOp>) -> Seq<OpView> {
    ops.map_values(|o: SyncOp| o@)
}

fn push_copies(out: &mut Vec<SyncOp>, files: &Vec<FileMeta>)
    ensures
        ops_view(final(out)@) == ops_view(old(out)@) + copies_of(crate::model::metas_view(files@)),
{
    let ghost start = ops_view(out@);
    let ghost fv = crate::model::metas_view(files@);
    let mut i: usize = 0;
    while i < files.len()
        invariant
            i <= files@.len(),
            fv == crate::model::metas_view(files@),
            ops_view(out@) == start + copies_of(fv.take(i as int)),
        decreases files@.len() - i,
    {
        let f = files[i].duplicate();
        assert(fv[i as int] == f@);
        let ghost before = out@;
        out.push(SyncOp::Copy(f));
        assert(ops_view(out@) =~= ops_view(before).push(OpView::Copy(fv[i as int])));
        assert(copies_of(fv.take(i + 1)) =~= copies_of(fv.take(i as int)).push(OpView::Copy(fv[i as int])));
        assert(ops_view(out@) =~= start + copies_of(fv.take(i + 1)));
        i = i + 1;
    }
    assert(fv.take(i as int) =~= fv);
}

fn push_deletes(out: &mut Vec<SyncOp>, files: &Vec<FileMeta>)
    ensures
        ops_view(final(out)@) == ops_view(old(out)@) + deletes_of(crate::model::metas_view(files@)),
{
    let ghost start = ops_view(out@);
    let ghost fv = crate::model::metas_view(files@);
    let mut i: usize = 0;
    while i < files.len()
        invariant
            i <= files@.len(),
            fv == crate::model::metas_view(files@),
            ops_view(out@) == start + deletes_of(fv.take(i as int)),
        decreases files@.len() - i,
    {
        let f = files[i].duplicate();
        assert(fv[i as int] == f@);
        let ghost before = out@;
        out.push(SyncOp::Delete(f));
        assert(ops_view(out@) =~= ops_view(before).push(OpView::Delete(fv[i as int])));
        assert(deletes_of(fv.take(i + 1)) =~= deletes_of(fv.take(i as int)).push(OpView::Delete(fv[i as int])));
        assert(ops_view(out@) =~= start + deletes_of(fv.take(i + 1)));
        i = i + 1;
    }
    assert(fv.take(i as int) =~= fv);
}

/// Whether applying `diff` does anything: something to copy or rename, or
/// removed files to delete.
pub fn needs_sync(diff: &DiffResult, delete_removed: bool) -> (r: bool)
    ensures
        r == (sync_plan(diff@, delete_removed).len() > 0),
{
    diff.added.len() > 0 || diff.modified.len() > 0 || diff.renamed.len() > 0 || (delete_removed
        && diff.removed.len() > 0)
}

/// The operations that apply `diff`, in the order they run.
pub fn plan_sync(diff: &DiffResult, options: &SyncOptions) -> (r: Vec<SyncOp>)
    ensures
        ops_view(r@) == sync_plan(diff@, options.delete_removed),
{
    let mut out: Vec<SyncOp> = Vec::new();
    assert(ops_view(out@) =~= Seq::<OpView>::empty());
    push_copies(&mut out, &diff.added);
    push_copies(&mut out, &diff.modified);
    let ghost start = ops_view(out@);
    let ghost rv = diff@.renamed;
    let mut i: usize = 0;
    while i < diff.renamed.len()
        invariant
            i <= diff.renamed@.len(),
            rv == diff@.renamed,
            ops_view(out@) == start + renames_of(rv.take(i as int)),
        decreases diff.renamed@.len() - i,
    {
        let pair = &diff.renamed[i];
        let old = pair.0.duplicate();
        let new = pair.1.duplicate();
        assert(rv[i as int].0 == old@ && rv[i as int].1 == new@);
        let ghost before = out@;
        let ghost op = OpView::Rename(rv[i as int].0, rv[i as int].1);
        out.push(SyncOp::Rename(old, new));
        assert(ops_view(out@) =~= ops_view(before).push(op));
        assert(renames_of(rv.take(i + 1)) =~= renames_of(rv.take(i as int)).push(op));
        assert(ops_view(out@) =~= start + renames_of(rv.take(i + 1)));
        i = i + 1;
    }
    assert(rv.take(i as int) =~= rv);
    if options.delete_removed {
        push_deletes(&mut out, &diff.removed);
    }
    assert(ops_view(out@) =~= sync_plan(diff@, options.delete_removed));
    out
}

/// The decimal digits of `n`.
pub open spec fn decimal(n: nat) -> Seq<char>
    decreases n,
{
    if n < 10 {
        seq![crate::hash::hex_digit(n as int)]
    } else {
        decimal(n / 10) + seq![crate::hash::hex_digit((n % 10) as int)]
    }
}

fn append_decimal(out: &mut String, n: u64)
    ensures
        final(out)@ == old(out)@ + decimal(n as nat),
    decreases n,
{
    if n >= 10 {
        append_decimal(out, n / 10);
    }
    let d = crate::hash::hex_digit_str((n % 10) as u8);
    let ghost mid = out@;
    out.append(d);
    assert(out@ =~= old(out)@ + decimal(n as nat));
}

/// `{pid}-{counter}.tmp`.
pub open spec fn temp_name(pid: nat, counter: nat) -> Seq<char> {
    decimal(pid) + seq!['-'] + decimal(counter) + seq!['.', 't', 'm', 'p']
}

/// The name of the temporary file that process `pid` stages its
/// `counter`-th write in.
pub fn temp_file_name(pid: u32, counter: u64) -> (r: String)
    ensures
        r@ == temp_name(pid as nat, counter as nat),
{
    let mut out = String::new();
    append_decimal(&mut out, pid as u64);
    out.append("-");
    append_decimal(&mut out, counter);
    out.append(".tmp");
    proof {
        reveal_strlit("-");
        reveal_strlit(".tmp");
    }
    assert(out@ =~= temp_name(pid as nat, counter as nat));
    out
}

/// Overrides that keep the staging directory and the journal out of every
/// scan.
pub open spec fn internal_globs() -> Seq<Seq<char>> {
    seq![
        seq!['!', '/', '.', 'j', 'a', 'n', '-', 't', 'm', 'p', '/'],
        seq!['!', '/', '.', 'j', 'a', 'n', '-', 'j', 'o', 'u', 'r', 'n', 'a', 'l'],
    ]
}

/// Each user pattern negated, that is turned into an exclusion, followed by
/// the internal exclusions.
pub open spec fn exclusion_globs(patterns: Seq<Seq<char>>) -> Seq<Seq<char>> {
    negate_all(patterns) + internal_globs()
}

pub open spec fn negate_all(patterns: Seq<Seq<char>>) -> Seq<Seq<char>> {
    Seq::new(patterns.len(), |k: int| seq!['!'] + patterns[k])
}

pub open spec fn strings_view(v: Seq<String>) -> Seq<Seq<char>> {
    v.map_values(|s: String| s@)
}

/// The override globs a scan runs with.
pub fn exclude_globs(patterns: &Vec<String>) -> (r: Vec<String>)
    ensures
        strings_view(r@) == exclusion_globs(strings_view(patterns@)),
{
    let ghost pv = strings_view(patterns@);
    let mut out: Vec<String> = Vec::new();
    let mut i: usize = 0;
    while i < patterns.len()
        invariant
            i <= patterns@.len(),
            pv == strings_view(patterns@),
            strings_view(out@) == negate_all(pv.take(i as int)),
        decreases patterns@.len() - i,
    {
        let mut g = String::new();
        g.append("!");
        g.append(patterns[i].as_str());
        proof {
            reveal_strlit("!");
        }
        let ghost before = out@;
        assert(g@ == seq!['!'] + pv[i as int]);
        out.push(g);
        assert(strings_view(out@) =~= strings_view(before).push(g@));
        assert(strings_view(out@) =~= negate_all(pv.take(i + 1)));
        i = i + 1;
    }
    assert(pv.take(i as int) =~= pv);
    let mut tmp = String::new();
    tmp.append("!/.jan-tmp/");
    let mut journal = String::new();
    journal.append("!/.jan-journal");
    proof {
        reveal_strlit("!/.jan-tmp/");
        reveal_strlit("!/.jan-journal");
    }
    assert(tmp@ =~= internal_globs()[0]);
    assert(journal@ =~= internal_globs()[1]);
    let ghost before = out@;
    out.push(tmp);
    out.push(journal);
    assert(strings_view(out@) =~= strings_view(before).push(tmp@).push(journal@));
    assert(strings_view(out@) =~= exclusion_globs(pv));
    out
}

} // verus!
