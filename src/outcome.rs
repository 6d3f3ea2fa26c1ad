//! The destination that applying a plan leaves behind, modelled as the
//! content fingerprint found at each path.

use vstd::prelude::*;
use crate::diff::{
    diff_prefix, diff_spec, file_in, has_path, index_of_path, new_sides, old_sides, one_if,
    removed_prefix, lemma_renames_avoid_source_paths, unchanged_at,
};
use crate::hash::HashAlgorithm;
use crate::model::{files_well_formed, FileMetaView};
use crate::plan::{copies_of, deletes_of, renames_of, sync_plan, OpView};

verus! {

/// A directory tree as the fingerprint of the file at each path.
pub open spec fn tree_of(files: Seq<FileMetaView>) -> Map<Seq<char>, (HashAlgorithm, Seq<u8>)> {
    Map::new(|p: Seq<char>| has_path(files, p), |p: Seq<char>| files[index_of_path(files, p)].hash)
}

/// The tree after one operation.
pub open spec fn apply_op(t: Map<Seq<char>, (HashAlgorithm, Seq<u8>)>, op: OpView) -> Map<
    Seq<char>,
    (HashAlgorithm, Seq<u8>),
> {
    match op {
        OpView::Copy(f) => t.insert(f.path, f.hash),
        OpView::Rename(o, n) => t.insert(n.path, n.hash).remove(o.path),
        OpView::Delete(f) => t.remove(f.path),
    }
}

/// The tree after the operations, in order.
pub open spec fn apply_ops(t: Map<Seq<char>, (HashAlgorithm, Seq<u8>)>, ops: Seq<OpView>) -> Map<
    Seq<char>,
    (HashAlgorithm, Seq<u8>),
>
    decreases ops.len(),
{
    if ops.len() == 0 {
        t
    } else {
        apply_op(apply_ops(t, ops.drop_last()), ops.last())
    }
}

/// Two trees agree at `p`.
pub open spec fn agree_at(a: Map<Seq<char>, (HashAlgorithm, Seq<u8>)>, b: Map<Seq<char>, (HashAlgorithm, Seq<u8>)>, p: Seq<char>) -> bool {
    a.contains_key(p) == b.contains_key(p) && (a.contains_key(p) ==> a[p] == b[p])
}

/// `t` holds fingerprint `h` at `p`.
pub open spec fn holds(t: Map<Seq<char>, (HashAlgorithm, Seq<u8>)>, p: Seq<char>, h: (HashAlgorithm, Seq<u8>)) -> bool {
    t.contains_key(p) && t[p] == h
}

proof fn lemma_apply_concat(t: Map<Seq<char>, (HashAlgorithm, Seq<u8>)>, a: Seq<OpView>, b: Seq<OpView>)
    ensures
        apply_ops(t, a + b) == apply_ops(apply_ops(t, a), b),
    decreases b.len(),
{
    if b.len() == 0 {
        assert(a + b =~= a);
    } else {
        lemma_apply_concat(t, a, b.drop_last());
        assert((a + b).drop_last() =~= a + b.drop_last());
        assert((a + b).last() == b.last());
    }
}

/// Copying `files`: a path none of them has keeps its entry; a path they
/// have ends with their fingerprint, when they all agree on it.
proof fn lemma_copies(t: Map<Seq<char>, (HashAlgorithm, Seq<u8>)>, files: Seq<FileMetaView>, p: Seq<char>)
    ensures
        !has_path(files, p) ==> agree_at(apply_ops(t, copies_of(files)), t, p),
        forall|h: (HashAlgorithm, Seq<u8>)|
            has_path(files, p) && (forall|k: int| 0 <= k < files.len() && #[trigger] files[k].path == p ==> files[k].hash == h)
                ==> holds(apply_ops(t, copies_of(files)), p, h),
    decreases files.len(),
{
    if files.len() > 0 {
        let init = files.drop_last();
        lemma_copies(t, init, p);
        assert(copies_of(files).drop_last() =~= copies_of(init));
        let f = files.last();
        assert(copies_of(files).last() == OpView::Copy(f));
        assert(copies_of(files).len() > 0);
        assert(apply_ops(t, copies_of(files)) == apply_op(apply_ops(t, copies_of(init)), OpView::Copy(f)));
        if !has_path(files, p) {
            assert(!has_path(init, p)) by {
                if has_path(init, p) {
                    let k = choose|k: int| 0 <= k < init.len() && #[trigger] init[k].path == p;
                    assert(files[k].path == p);
                }
            }
            assert(files[files.len() - 1].path != p);
        }
        assert forall|h: (HashAlgorithm, Seq<u8>)|
            has_path(files, p) && (forall|k: int| 0 <= k < files.len() && #[trigger] files[k].path == p ==> files[k].hash == h)
                implies holds(apply_ops(t, copies_of(files)), p, h) by {
            if f.path != p {
                let k = choose|k: int| 0 <= k < files.len() && #[trigger] files[k].path == p;
                assert(k < init.len());
                assert(init[k].path == p);
                assert forall|k2: int| 0 <= k2 < init.len() && #[trigger] init[k2].path == p implies init[k2].hash == h by {
                    assert(files[k2] == init[k2]);
                }
                assert(holds(apply_ops(t, copies_of(init)), p, h));
            } else {
                assert(files[files.len() - 1].path == p);
            }
        }
    }
}

/// Deleting `files`: a path none of them has keeps its entry; a path one
/// of them has is gone.
proof fn lemma_deletes(t: Map<Seq<char>, (HashAlgorithm, Seq<u8>)>, files: Seq<FileMetaView>, p: Seq<char>)
    ensures
        !has_path(files, p) ==> agree_at(apply_ops(t, deletes_of(files)), t, p),
        has_path(files, p) ==> !apply_ops(t, deletes_of(files)).contains_key(p),
    decreases files.len(),
{
    if files.len() > 0 {
        let init = files.drop_last();
        lemma_deletes(t, init, p);
        assert(deletes_of(files).drop_last() =~= deletes_of(init));
        assert(deletes_of(files).last() == OpView::Delete(files.last()));
        assert(deletes_of(files).len() > 0);
        assert(apply_ops(t, deletes_of(files)) == apply_op(apply_ops(t, deletes_of(init)), OpView::Delete(files.last())));
        if has_path(files, p) && files.last().path != p {
            let k = choose|k: int| 0 <= k < files.len() && #[trigger] files[k].path == p;
            assert(k < init.len() && init[k].path == p);
        }
        if !has_path(files, p) {
            assert(!has_path(init, p)) by {
                if has_path(init, p) {
                    let k = choose|k: int| 0 <= k < init.len() && #[trigger] init[k].path == p;
                    assert(files[k].path == p);
                }
            }
            assert(files[files.len() - 1].path != p);
        }
    }
}

/// Renaming: when no old path is also a new path, a path that is neither
/// keeps its entry, an old path is gone, and a new path ends with the
/// fingerprint of the new sides that have it, when they agree on it.
proof fn lemma_renames(t: Map<Seq<char>, (HashAlgorithm, Seq<u8>)>, pairs: Seq<(FileMetaView, FileMetaView)>, p: Seq<char>)
    requires
        forall|a: int, b: int| 0 <= a < pairs.len() && 0 <= b < pairs.len() ==> #[trigger] pairs[a].0.path != #[trigger] pairs[b].1.path,
    ensures
        !has_path(old_sides(pairs), p) && !has_path(new_sides(pairs), p) ==> agree_at(apply_ops(t, renames_of(pairs)), t, p),
        has_path(old_sides(pairs), p) ==> !apply_ops(t, renames_of(pairs)).contains_key(p),
        forall|h: (HashAlgorithm, Seq<u8>)|
            has_path(new_sides(pairs), p) && (forall|k: int| 0 <= k < pairs.len() && #[trigger] pairs[k].1.path == p ==> pairs[k].1.hash == h)
                ==> holds(apply_ops(t, renames_of(pairs)), p, h),
    decreases pairs.len(),
{
    if pairs.len() > 0 {
        let init = pairs.drop_last();
        assert forall|a: int, b: int| 0 <= a < init.len() && 0 <= b < init.len() implies #[trigger] init[a].0.path != #[trigger] init[b].1.path by {
            assert(init[a] == pairs[a] && init[b] == pairs[b]);
        }
        lemma_renames(t, init, p);
        assert(renames_of(pairs).drop_last() =~= renames_of(init));
        let last = pairs.last();
        assert(renames_of(pairs).last() == OpView::Rename(last.0, last.1));
        assert(renames_of(pairs).len() > 0);
        assert(apply_ops(t, renames_of(pairs)) == apply_op(apply_ops(t, renames_of(init)), OpView::Rename(last.0, last.1)));
        let n = pairs.len() - 1;
        assert(pairs[n] == last);
        assert(old_sides(init) =~= old_sides(pairs).drop_last());
        assert(new_sides(init) =~= new_sides(pairs).drop_last());
        if has_path(old_sides(pairs), p) {
            let k = choose|k: int| 0 <= k < old_sides(pairs).len() && #[trigger] old_sides(pairs)[k].path == p;
            if k < n {
                assert(old_sides(init)[k].path == p);
            }
        }
        if has_path(new_sides(pairs), p) {
            let k = choose|k: int| 0 <= k < new_sides(pairs).len() && #[trigger] new_sides(pairs)[k].path == p;
            if k < n {
                assert(new_sides(init)[k].path == p);
            }
            // p is a new path, so no old path
            assert(pairs[n].0.path != pairs[k].1.path);
        }
        if !has_path(old_sides(pairs), p) {
            assert(old_sides(pairs)[n].path != p);
            assert(!has_path(old_sides(init), p)) by {
                if has_path(old_sides(init), p) {
                    let k = choose|k: int| 0 <= k < old_sides(init).len() && #[trigger] old_sides(init)[k].path == p;
                    assert(old_sides(pairs)[k].path == p);
                }
            }
        }
        if !has_path(new_sides(pairs), p) {
            assert(new_sides(pairs)[n].path != p);
            assert(!has_path(new_sides(init), p)) by {
                if has_path(new_sides(init), p) {
                    let k = choose|k: int| 0 <= k < new_sides(init).len() && #[trigger] new_sides(init)[k].path == p;
                    assert(new_sides(pairs)[k].path == p);
                }
            }
        }
        assert forall|h: (HashAlgorithm, Seq<u8>)|
            has_path(new_sides(pairs), p) && (forall|k: int| 0 <= k < pairs.len() && #[trigger] pairs[k].1.path == p ==> pairs[k].1.hash == h)
                implies holds(apply_ops(t, renames_of(pairs)), p, h) by {
            if last.1.path != p {
                let k = choose|k: int| 0 <= k < new_sides(pairs).len() && #[trigger] new_sides(pairs)[k].path == p;
                assert(k < n);
                assert(new_sides(init)[k].path == p);
                assert forall|k2: int| 0 <= k2 < init.len() && #[trigger] init[k2].1.path == p implies init[k2].1.hash == h by {
                    assert(pairs[k2] == init[k2]);
                }
                assert(init[k].1.path == p);
                assert(holds(apply_ops(t, renames_of(init)), p, h));
                assert(pairs[n].0.path != pairs[k].1.path);
            } else {
                assert(pairs[n].1.path == p);
                assert(pairs[n].0.path != pairs[n].1.path);
            }
        }
    }
}

/// Applying the plan of a diff to the destination leaves every source path
/// with the source's content and, when removed files are deleted, no other
/// path.
pub proof fn lemma_plan_reaches_source(src: Seq<FileMetaView>, dst: Seq<FileMetaView>, delete: bool)
    requires
        files_well_formed(src),
        files_well_formed(dst),
    ensures
        forall|i: int| 0 <= i < src.len() ==> #[trigger] holds(
            apply_ops(tree_of(dst), sync_plan(diff_spec(src, dst), delete)),
            src[i].path,
            src[i].hash,
        ),
        delete ==> forall|p: Seq<char>| #[trigger] apply_ops(tree_of(dst), sync_plan(diff_spec(src, dst), delete)).contains_key(p)
            ==> has_path(src, p),
{
    lemma_renames_avoid_source_paths(src, dst);
    let d = diff_spec(src, dst);
    let t0 = tree_of(dst);
    let a = copies_of(d.added);
    let b = copies_of(d.modified);
    let c = renames_of(d.renamed);
    let e = if delete { deletes_of(d.removed) } else { Seq::<OpView>::empty() };
    let t1 = apply_ops(t0, a);
    let t2 = apply_ops(t1, b);
    let t3 = apply_ops(t2, c);
    let t4 = apply_ops(t3, e);
    lemma_apply_concat(t0, a, b);
    lemma_apply_concat(t0, a + b, c);
    lemma_apply_concat(t0, a + b + c, e);
    assert(sync_plan(d, delete) == a + b + c + e);
    assert(apply_ops(t0, sync_plan(d, delete)) == t4);

    crate::diff::lemma_facts_for_outcome(src, dst);
    assert forall|x: int, y: int| 0 <= x < d.renamed.len() && 0 <= y < d.renamed.len() implies #[trigger] d.renamed[x].0.path
        != #[trigger] d.renamed[y].1.path by {
        assert(!has_path(src, d.renamed[x].0.path));
        assert(file_in(src, d.renamed[y].1));
        let i = choose|i: int| 0 <= i < src.len() && src[i] == d.renamed[y].1;
        assert(src[i].path == d.renamed[y].1.path);
    }

    assert forall|i: int| 0 <= i < src.len() implies #[trigger] holds(t4, src[i].path, src[i].hash) by {
        let p = src[i].path;
        let h = src[i].hash;
        crate::diff::lemma_single_at_path(src, dst, i);
        lemma_copies(t0, d.added, p);
        lemma_copies(t1, d.modified, p);
        lemma_renames(t2, d.renamed, p);
        lemma_deletes(t3, d.removed, p);
        if !delete {
            assert(t4 == t3);
        }
        assert(agree_at(t4, t3, p));
        let news = new_sides(d.renamed);
        let ia = d.added.contains(src[i]);
        let im = d.modified.contains(src[i]);
        let ir = news.contains(src[i]);
        assert(one_if(ia) + one_if(im) + one_if(ir) + one_if(unchanged_at(src, dst, i)) == 1);
        if ia {
            assert(has_path(d.added, p));
            assert(holds(t1, p, h));
            assert(agree_at(t2, t1, p));
            assert(agree_at(t3, t2, p));
        } else if im {
            assert(has_path(d.modified, p));
            assert(holds(t2, p, h));
            assert(agree_at(t3, t2, p));
        } else if ir {
            assert(has_path(news, p));
            assert(holds(t3, p, h));
        } else {
            assert(unchanged_at(src, dst, i));
            assert(has_path(dst, p));
            assert(t0.contains_key(p));
            assert(holds(t0, p, h));
            assert(agree_at(t1, t0, p));
            assert(agree_at(t2, t1, p));
            assert(agree_at(t3, t2, p));
        }
    }

    if delete {
        assert forall|p: Seq<char>| #[trigger] t4.contains_key(p) implies has_path(src, p) by {
            if !has_path(src, p) {
                crate::diff::lemma_foreign_path(src, dst, p);
                lemma_copies(t0, d.added, p);
                lemma_copies(t1, d.modified, p);
                lemma_renames(t2, d.renamed, p);
                lemma_deletes(t3, d.removed, p);
            }
        }
    }
}

proof fn lemma_unchanged_prefix(src: Seq<FileMetaView>, dst: Seq<FileMetaView>, n: nat)
    requires
        n <= src.len(),
        forall|i: int| 0 <= i < src.len() ==> #[trigger] unchanged_at(src, dst, i),
    ensures
        diff_prefix(src, dst, n).added.len() == 0,
        diff_prefix(src, dst, n).modified.len() == 0,
        diff_prefix(src, dst, n).renamed.len() == 0,
    decreases n,
{
    if n > 0 {
        lemma_unchanged_prefix(src, dst, (n - 1) as nat);
        assert(unchanged_at(src, dst, n - 1));
    }
}

proof fn lemma_nothing_removed(src: Seq<FileMetaView>, dst: Seq<FileMetaView>, processed: Set<Seq<char>>, m: nat)
    requires
        m <= dst.len(),
        forall|j: int| 0 <= j < dst.len() ==> has_path(src, #[trigger] dst[j].path),
    ensures
        removed_prefix(src, dst, processed, m).len() == 0,
    decreases m,
{
    if m > 0 {
        lemma_nothing_removed(src, dst, processed, (m - 1) as nat);
        assert(has_path(src, dst[m - 1].path));
    }
}

/// Once a sync has run to completion, a new diff finds nothing to add,
/// modify or rename, and nothing to remove where removed files were
/// deleted: `after` is any listing of the destination the plan left.
pub proof fn lemma_sync_then_diff_is_empty(
    src: Seq<FileMetaView>,
    dst: Seq<FileMetaView>,
    after: Seq<FileMetaView>,
    delete: bool,
)
    requires
        files_well_formed(src),
        files_well_formed(dst),
        tree_of(after) == apply_ops(tree_of(dst), sync_plan(diff_spec(src, dst), delete)),
    ensures
        diff_spec(src, after).added.len() == 0,
        diff_spec(src, after).modified.len() == 0,
        diff_spec(src, after).renamed.len() == 0,
        delete ==> diff_spec(src, after).removed.len() == 0,
{
    lemma_renames_avoid_source_paths(src, dst);
    lemma_plan_reaches_source(src, dst, delete);
    let t = tree_of(after);
    assert forall|i: int| 0 <= i < src.len() implies #[trigger] unchanged_at(src, after, i) by {
        assert(holds(t, src[i].path, src[i].hash));
    }
    lemma_unchanged_prefix(src, after, src.len());
    if delete {
        assert forall|j: int| 0 <= j < after.len() implies has_path(src, #[trigger] after[j].path) by {
            assert(has_path(after, after[j].path));
            assert(t.contains_key(after[j].path));
        }
        lemma_nothing_removed(src, after, diff_prefix(src, after, src.len()).processed, after.len());
    }
}

/// With removed files deleted, a run to completion leaves exactly the
/// source tree, whatever state the destination starts in: a run that
/// follows an interrupted one ends where a single run would have.
pub proof fn lemma_complete_run_gives_source_tree(src: Seq<FileMetaView>, dst: Seq<FileMetaView>)
    requires
        files_well_formed(src),
        files_well_formed(dst),
    ensures
        apply_ops(tree_of(dst), sync_plan(diff_spec(src, dst), true)) == tree_of(src),
{
    lemma_renames_avoid_source_paths(src, dst);
    lemma_plan_reaches_source(src, dst, true);
    let t = apply_ops(tree_of(dst), sync_plan(diff_spec(src, dst), true));
    let w = tree_of(src);
    assert forall|p: Seq<char>| #[trigger] t.contains_key(p) <==> w.contains_key(p) by {
        if has_path(src, p) {
            let i = index_of_path(src, p);
            assert(holds(t, src[i].path, src[i].hash));
        }
    }
    assert forall|p: Seq<char>| #[trigger] t.contains_key(p) implies t[p] == w[p] by {
        let i = index_of_path(src, p);
        assert(holds(t, src[i].path, src[i].hash));
    }
    assert(t =~= w);
}

} // verus!
