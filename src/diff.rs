//! Classification of two scans into added, removed, modified and renamed
//! files.

use vstd::prelude::*;
use crate::errors::SyncError;
use crate::model::{DiffResult, DiffView, FileMeta, FileMetaView, ScanResult, files_well_formed, metas_view};
use crate::similarity::{path_score, path_similarity, ratio_gt, Similarity};
use crate::tables::{
    hash_entries, insert_hash, insert_path, lookup_hash, lookup_path, new_hash_table,
    new_path_table, path_entries, take_hash, HashTable, PathTable,
};

verus! {

/// Whether some file of `files` has path `p`.
pub open spec fn has_path(files: Seq<FileMetaView>, p: Seq<char>) -> bool {
    exists|j: int| 0 <= j < files.len() && #[trigger] files[j].path == p
}

/// The position of the file with path `p` (meaningful when there is one).
pub open spec fn index_of_path(files: Seq<FileMetaView>, p: Seq<char>) -> int {
    choose|j: int| 0 <= j < files.len() && #[trigger] files[j].path == p
}

/// The work of the source pass so far. `processed` holds the destination
/// paths already accounted for.
pub struct DiffState {
    pub added: Seq<FileMetaView>,
    pub modified: Seq<FileMetaView>,
    pub renamed: Seq<(FileMetaView, FileMetaView)>,
    pub processed: Set<Seq<char>>,
}

/// Nothing listed yet; the destination paths that the source also has are
/// accounted for by the source files at those paths.
pub open spec fn initial_state(src: Seq<FileMetaView>) -> DiffState {
    DiffState {
        added: Seq::empty(),
        modified: Seq::empty(),
        renamed: Seq::empty(),
        processed: Set::new(|p: Seq<char>| has_path(src, p)),
    }
}

/// Destination file `j` has the content of `s` and is not yet accounted for.
pub open spec fn is_rename_candidate(
    dst: Seq<FileMetaView>,
    processed: Set<Seq<char>>,
    s: FileMetaView,
    j: int,
) -> bool {
    &&& 0 <= j < dst.len()
    &&& dst[j].hash == s.hash
    &&& !processed.contains(dst[j].path)
}

pub open spec fn rename_score(dst: Seq<FileMetaView>, s: FileMetaView, j: int) -> (int, int) {
    path_score(s.path, dst[j].path)
}

/// Candidate `j` is the one a rename of `s` goes to: its path similarity is
/// maximal, and no earlier candidate reaches it.
pub open spec fn is_best_candidate(
    dst: Seq<FileMetaView>,
    processed: Set<Seq<char>>,
    s: FileMetaView,
    j: int,
) -> bool {
    &&& is_rename_candidate(dst, processed, s, j)
    &&& forall|k: int|
        #[trigger] is_rename_candidate(dst, processed, s, k) ==> !ratio_gt(
            rename_score(dst, s, k),
            rename_score(dst, s, j),
        )
    &&& forall|k: int|
        #[trigger] is_rename_candidate(dst, processed, s, k) && k < j ==> ratio_gt(
            rename_score(dst, s, j),
            rename_score(dst, s, k),
        )
}

/// Accounts for source file `s`.
pub open spec fn diff_step(dst: Seq<FileMetaView>, st: DiffState, s: FileMetaView) -> DiffState {
    if has_path(dst, s.path) {
        let d = dst[index_of_path(dst, s.path)];
        DiffState {
            modified: if d.hash != s.hash {
                st.modified.push(s)
            } else {
                st.modified
            },
            processed: st.processed.insert(d.path),
            ..st
        }
    } else if exists|j: int| is_best_candidate(dst, st.processed, s, j) {
        let j = choose|j: int| is_best_candidate(dst, st.processed, s, j);
        DiffState {
            renamed: st.renamed.push((dst[j], s)),
            processed: st.processed.insert(dst[j].path),
            ..st
        }
    } else {
        DiffState { added: st.added.push(s), ..st }
    }
}

/// The state after the first `n` source files, in order.
pub open spec fn diff_prefix(src: Seq<FileMetaView>, dst: Seq<FileMetaView>, n: nat) -> DiffState
    decreases n,
{
    if n == 0 || n > src.len() {
        initial_state(src)
    } else {
        diff_step(dst, diff_prefix(src, dst, (n - 1) as nat), src[n - 1])
    }
}

/// Destination files among the first `n` whose path is not in the source
/// and which no source file accounted for.
pub open spec fn removed_prefix(
    src: Seq<FileMetaView>,
    dst: Seq<FileMetaView>,
    processed: Set<Seq<char>>,
    n: nat,
) -> Seq<FileMetaView>
    decreases n,
{
    if n == 0 || n > dst.len() {
        Seq::empty()
    } else {
        let r = removed_prefix(src, dst, processed, (n - 1) as nat);
        let d = dst[n - 1];
        if !has_path(src, d.path) && !processed.contains(d.path) {
            r.push(d)
        } else {
            r
        }
    }
}

/// The diff of a source and a destination listing.
pub open spec fn diff_spec(src: Seq<FileMetaView>, dst: Seq<FileMetaView>) -> DiffView {
    let st = diff_prefix(src, dst, src.len());
    DiffView {
        added: st.added,
        removed: removed_prefix(src, dst, st.processed, dst.len()),
        modified: st.modified,
        renamed: st.renamed,
    }
}

/// The positions below `n` of the files with fingerprint `h`, in order.
pub open spec fn indices_with_hash(files: Seq<FileMetaView>, h: (crate::hash::HashAlgorithm, Seq<u8>), n: int) -> Seq<usize>
    decreases n,
{
    if n <= 0 || n > files.len() {
        Seq::empty()
    } else {
        let r = indices_with_hash(files, h, n - 1);
        if files[n - 1].hash == h {
            r.push((n - 1) as usize)
        } else {
            r
        }
    }
}

proof fn lemma_indices_with_hash(files: Seq<FileMetaView>, h: (crate::hash::HashAlgorithm, Seq<u8>), n: int)
    requires
        0 <= n <= files.len(),
        files.len() <= usize::MAX,
    ensures
        forall|t: int| 0 <= t < indices_with_hash(files, h, n).len() ==> {
            &&& #[trigger] indices_with_hash(files, h, n)[t] < n
            &&& files[indices_with_hash(files, h, n)[t] as int].hash == h
        },
        forall|j: int| 0 <= j < n && files[j].hash == h ==> exists|t: int|
            0 <= t < indices_with_hash(files, h, n).len() && #[trigger] indices_with_hash(files, h, n)[t] == j,
        forall|t1: int, t2: int|
            0 <= t1 < t2 < indices_with_hash(files, h, n).len() ==> #[trigger] indices_with_hash(files, h, n)[t1]
                < #[trigger] indices_with_hash(files, h, n)[t2],
    decreases n,
{
    if n > 0 {
        lemma_indices_with_hash(files, h, n - 1);
        let r = indices_with_hash(files, h, n - 1);
        if files[n - 1].hash == h {
            let r2 = r.push((n - 1) as usize);
            assert(indices_with_hash(files, h, n) == r2);
            assert forall|j: int| 0 <= j < n && files[j].hash == h implies exists|t: int|
                0 <= t < r2.len() && #[trigger] r2[t] == j by {
                if j == n - 1 {
                    assert(r2[r.len() as int] == j);
                } else {
                    let t = choose|t: int| 0 <= t < r.len() && #[trigger] r[t] == j;
                    assert(r2[t] == j);
                }
            }
        } else {
            assert(indices_with_hash(files, h, n) == r);
        }
    }
}

/// In a list with unique paths, the file at `files[j].path` is `files[j]`.
proof fn lemma_index_of_path(files: Seq<FileMetaView>, j: int)
    requires
        files_well_formed(files),
        0 <= j < files.len(),
    ensures
        has_path(files, files[j].path),
        index_of_path(files, files[j].path) == j,
{
    assert(files[j].path == files[j].path);
    let k = index_of_path(files, files[j].path);
    assert(0 <= k < files.len() && files[k].path == files[j].path);
}

/// `x <= y < z` gives `x < z`, for positive denominators.
proof fn lemma_ratio_chain(x: (int, int), y: (int, int), z: (int, int))
    requires
        x.1 > 0,
        y.1 > 0,
        z.1 > 0,
        !ratio_gt(x, y),
        ratio_gt(z, y),
    ensures
        ratio_gt(z, x),
        !ratio_gt(x, z),
{
    assert(x.0 * y.1 * z.1 <= y.0 * x.1 * z.1) by (nonlinear_arith)
        requires
            x.0 * y.1 <= y.0 * x.1,
            z.1 > 0,
    ;
    assert(z.0 * y.1 * x.1 > y.0 * z.1 * x.1) by (nonlinear_arith)
        requires
            z.0 * y.1 > y.0 * z.1,
            x.1 > 0,
    ;
    assert(z.0 * x.1 > x.0 * z.1) by (nonlinear_arith)
        requires
            x.0 * y.1 * z.1 <= y.0 * x.1 * z.1,
            z.0 * y.1 * x.1 > y.0 * z.1 * x.1,
            y.1 > 0,
    ;
}

/// The table from each path of `files` to its position.
fn build_path_table(files: &Vec<FileMeta>) -> (r: PathTable)
    requires
        files_well_formed(metas_view(files@)),
    ensures
        forall|p: Seq<char>| #[trigger] path_entries(r).contains_key(p) <==> has_path(metas_view(files@), p),
        forall|p: Seq<char>| #[trigger] path_entries(r).contains_key(p) ==> {
            &&& path_entries(r)[p] < files@.len()
            &&& metas_view(files@)[path_entries(r)[p] as int].path == p
        },
{
    let ghost fv = metas_view(files@);
    let mut t = new_path_table(files.len());
    let mut i: usize = 0;
    while i < files.len()
        invariant
            i <= files.len(),
            fv == metas_view(files@),
            forall|p: Seq<char>| #[trigger] path_entries(t).contains_key(p) <==> exists|j: int|
                0 <= j < i && #[trigger] fv[j].path == p,
            forall|p: Seq<char>| #[trigger] path_entries(t).contains_key(p) ==> {
                &&& path_entries(t)[p] < i
                &&& fv[path_entries(t)[p] as int].path == p
            },
        decreases files.len() - i,
    {
        insert_path(&mut t, files[i].path.clone(), i);
        proof {
            assert(fv[i as int].path == files@[i as int].path@);
            assert forall|p: Seq<char>| #[trigger] path_entries(t).contains_key(p) <==> exists|j: int|
                0 <= j < i + 1 && #[trigger] fv[j].path == p by {
                if path_entries(t).contains_key(p) && p != fv[i as int].path {
                    let j = choose|j: int| 0 <= j < i && #[trigger] fv[j].path == p;
                    assert(0 <= j < i + 1 && fv[j].path == p);
                }
            }
        }
        i = i + 1;
    }
    t
}

/// The table from each fingerprint of `files` to the positions of the files
/// that have it, in order.
fn build_hash_table(files: &Vec<FileMeta>) -> (r: HashTable)
    ensures
        forall|h: (crate::hash::HashAlgorithm, Seq<u8>)| #[trigger] hash_entries(r).contains_key(h)
            ==> hash_entries(r)[h] == indices_with_hash(metas_view(files@), h, files@.len() as int),
        forall|h: (crate::hash::HashAlgorithm, Seq<u8>)| !(#[trigger] hash_entries(r).contains_key(h))
            ==> indices_with_hash(metas_view(files@), h, files@.len() as int).len() == 0,
{
    let ghost fv = metas_view(files@);
    let mut t = new_hash_table(files.len());
    let mut i: usize = 0;
    while i < files.len()
        invariant
            i <= files.len(),
            fv == metas_view(files@),
            forall|h: (crate::hash::HashAlgorithm, Seq<u8>)| #[trigger] hash_entries(t).contains_key(h)
                ==> hash_entries(t)[h] == indices_with_hash(fv, h, i as int),
            forall|h: (crate::hash::HashAlgorithm, Seq<u8>)| !(#[trigger] hash_entries(t).contains_key(h))
                ==> indices_with_hash(fv, h, i as int).len() == 0,
        decreases files.len() - i,
    {
        let key = files[i].hash;
        let mut bucket = match take_hash(&mut t, &key) {
            Some(b) => b,
            None => Vec::new(),
        };
        bucket.push(i);
        insert_hash(&mut t, key, bucket);
        proof {
            assert(fv[i as int].hash == key@);
            assert forall|h: (crate::hash::HashAlgorithm, Seq<u8>)| #[trigger] hash_entries(t).contains_key(h)
                implies hash_entries(t)[h] == indices_with_hash(fv, h, i + 1) by {
                if h == key@ {
                    assert(hash_entries(t)[h] =~= indices_with_hash(fv, h, i + 1));
                }
            }
        }
        i = i + 1;
    }
    t
}

/// The destination file that a rename of `s` goes to, if any.
fn best_rename(
    dst: &Vec<FileMeta>,
    bucket: &Vec<usize>,
    processed: &Vec<bool>,
    s: &FileMeta,
    Ghost(done): Ghost<Set<Seq<char>>>,
) -> (r: Option<usize>)
    requires
        files_well_formed(metas_view(dst@)),
        s@.path.len() < crate::similarity::MAX_PATH_CHARS,
        bucket@ == indices_with_hash(metas_view(dst@), s@.hash, dst@.len() as int),
        processed@.len() == dst@.len(),
        forall|j: int| 0 <= j < dst@.len() ==> #[trigger] processed@[j] == done.contains(dst@[j]@.path),
    ensures
        match r {
            Some(j) => is_best_candidate(metas_view(dst@), done, s@, j as int),
            None => !exists|j: int| is_rename_candidate(metas_view(dst@), done, s@, j),
        },
{
    let ghost dv = metas_view(dst@);
    let n = dst.len();
    proof {
        assert(dv.len() == n);
        lemma_indices_with_hash(dv, s@.hash, dv.len() as int);
    }
    let mut best: Option<usize> = None;
    let mut best_score = Similarity { num: 0, den: 1 };
    let mut t: usize = 0;
    while t < bucket.len()
        invariant
            t <= bucket.len(),
            dv == metas_view(dst@),
            files_well_formed(dv),
            s@.path.len() < crate::similarity::MAX_PATH_CHARS,
            bucket@ == indices_with_hash(dv, s@.hash, dv.len() as int),
            processed@.len() == dst@.len(),
            forall|j: int| 0 <= j < dst@.len() ==> #[trigger] processed@[j] == done.contains(dst@[j]@.path),
            forall|u: int| 0 <= u < bucket@.len() ==> {
                &&& #[trigger] bucket@[u] < dv.len()
                &&& dv[bucket@[u] as int].hash == s@.hash
            },
            forall|u1: int, u2: int| 0 <= u1 < u2 < bucket@.len() ==> #[trigger] bucket@[u1] < #[trigger] bucket@[u2],
            best_score.den > 0,
            forall|u: int| 0 <= u < t && #[trigger] is_rename_candidate(dv, done, s@, bucket@[u] as int)
                ==> rename_score(dv, s@, bucket@[u] as int).1 > 0,
            match best {
                None => forall|u: int| 0 <= u < t ==> !#[trigger] is_rename_candidate(dv, done, s@, bucket@[u] as int),
                Some(j) => {
                    &&& is_rename_candidate(dv, done, s@, j as int)
                    &&& best_score.ratio() == rename_score(dv, s@, j as int)
                    &&& exists|u: int| 0 <= u < t && bucket@[u] == j
                    &&& forall|u: int| 0 <= u < t && #[trigger] is_rename_candidate(dv, done, s@, bucket@[u] as int)
                        ==> !ratio_gt(rename_score(dv, s@, bucket@[u] as int), rename_score(dv, s@, j as int))
                    &&& forall|u: int| 0 <= u < t && #[trigger] is_rename_candidate(dv, done, s@, bucket@[u] as int)
                        && bucket@[u] < j ==> ratio_gt(rename_score(dv, s@, j as int), rename_score(dv, s@, bucket@[u] as int))
                },
            },
        decreases bucket.len() - t,
    {
        let j = bucket[t];
        if !processed[j] {
            assert(is_rename_candidate(dv, done, s@, j as int));
            let sc = path_similarity(s.path.as_str(), dst[j].path.as_str());
            let a = sc.num as u128;
            let b = best_score.den as u128;
            let c = best_score.num as u128;
            let d = sc.den as u128;
            assert(a * b <= 0xffff_ffff_ffff_ffff * 0xffff_ffff_ffff_ffff) by (nonlinear_arith)
                requires
                    a <= 0xffff_ffff_ffff_ffff,
                    b <= 0xffff_ffff_ffff_ffff,
            ;
            assert(c * d <= 0xffff_ffff_ffff_ffff * 0xffff_ffff_ffff_ffff) by (nonlinear_arith)
                requires
                    c <= 0xffff_ffff_ffff_ffff,
                    d <= 0xffff_ffff_ffff_ffff,
            ;
            let better = best.is_none() || a * b > c * d;
            if better {
                proof {
                    let y = best_score.ratio();
                    let z = sc.ratio();
                    assert(best is Some ==> ratio_gt(z, y));
                    assert forall|u: int| 0 <= u < t + 1 && #[trigger] is_rename_candidate(dv, done, s@, bucket@[u] as int)
                        implies !ratio_gt(rename_score(dv, s@, bucket@[u] as int), z)
                            && (bucket@[u] < j ==> ratio_gt(z, rename_score(dv, s@, bucket@[u] as int))) by {
                        if u < t {
                            let x = rename_score(dv, s@, bucket@[u] as int);
                            lemma_ratio_chain(x, y, z);
                        } else {
                            assert(bucket@[u] == j);
                        }
                    }
                    assert(bucket@[t as int] == j);
                }
                best = Some(j);
                best_score = sc;
            } else {
                proof {
                    match best {
                        None => {},
                        Some(b) => {
                            let u0 = choose|u: int| 0 <= u < t && bucket@[u] == b;
                            assert(bucket@[u0] < bucket@[t as int]);
                        },
                    }
                }
            }
        }
        t = t + 1;
    }
    proof {
        match best {
            Some(j) => {
                assert forall|k: int| #[trigger] is_rename_candidate(dv, done, s@, k) implies !ratio_gt(
                    rename_score(dv, s@, k),
                    rename_score(dv, s@, j as int),
                ) && (k < j ==> ratio_gt(rename_score(dv, s@, j as int), rename_score(dv, s@, k))) by {
                    let u = choose|u: int| 0 <= u < bucket@.len() && #[trigger] bucket@[u] == k;
                    assert(is_rename_candidate(dv, done, s@, bucket@[u] as int));
                }
                assert(is_best_candidate(dv, done, s@, j as int));
            },
            None => {
                assert forall|j: int| !is_rename_candidate(dv, done, s@, j) by {
                    if is_rename_candidate(dv, done, s@, j) {
                        let u = choose|u: int| 0 <= u < bucket@.len() && #[trigger] bucket@[u] == j;
                        assert(is_rename_candidate(dv, done, s@, bucket@[u] as int));
                    }
                }
            },
        }
    }
    best
}

/// For each destination file, whether the source has its path.
fn shared_flags(dst: &Vec<FileMeta>, source_by_path: &PathTable, Ghost(sv): Ghost<Seq<FileMetaView>>) -> (r: Vec<bool>)
    requires
        forall|p: Seq<char>| #[trigger] path_entries(*source_by_path).contains_key(p) <==> has_path(sv, p),
    ensures
        r@.len() == dst@.len(),
        forall|j: int| 0 <= j < dst@.len() ==> #[trigger] r@[j] == has_path(sv, dst@[j]@.path),
{
    let mut v: Vec<bool> = Vec::new();
    let mut i: usize = 0;
    while i < dst.len()
        invariant
            i <= dst.len(),
            v@.len() == i,
            forall|p: Seq<char>| #[trigger] path_entries(*source_by_path).contains_key(p) <==> has_path(sv, p),
            forall|j: int| 0 <= j < i ==> #[trigger] v@[j] == has_path(sv, dst@[j]@.path),
        decreases dst.len() - i,
    {
        v.push(lookup_path(source_by_path, &dst[i].path).is_some());
        i = i + 1;
    }
    v
}

/// Compares a source scan with a destination scan.
///
/// Source files are taken in order. One whose path exists in the destination
/// is unchanged or, with other content, modified. Otherwise the destination
/// files with the same content that no earlier source file accounted for
/// are rename candidates: the first one with the highest path similarity
/// becomes the old side of a rename; when there is none the file is added. Destination files whose path is not in the source and that no
/// rename took are removed, in destination order.
pub fn diff_scans(source: &ScanResult, dest: &ScanResult) -> (r: Result<DiffResult, SyncError>)
    requires
        source.well_formed(),
        dest.well_formed(),
    ensures
        r matches Ok(d) && d@ == diff_spec(source.files_view(), dest.files_view()),
{
    let src = &source.files;
    let dst = &dest.files;
    let ghost sv = source.files_view();
    let ghost dv = dest.files_view();
    let nd = dst.len();
    assert(dv.len() == nd);
    let source_by_path = build_path_table(src);
    let dest_by_path = build_path_table(dst);
    let dest_by_hash = build_hash_table(dst);
    let mut processed = shared_flags(dst, &source_by_path, Ghost(sv));
    let mut added: Vec<FileMeta> = Vec::new();
    let mut modified: Vec<FileMeta> = Vec::new();
    let mut renamed: Vec<(FileMeta, FileMeta)> = Vec::new();
    let ghost mut st = initial_state(sv);
    assert(metas_view(added@) =~= st.added);
    assert(metas_view(modified@) =~= st.modified);
    assert(renamed@.map_values(|p: (FileMeta, FileMeta)| (p.0@, p.1@)) =~= st.renamed);
    let mut i: usize = 0;
    while i < src.len()
        invariant
            i <= src.len(),
            sv == metas_view(src@),
            dv == metas_view(dst@),
            dv.len() == nd,
            files_well_formed(sv),
            files_well_formed(dv),
            forall|p: Seq<char>| #[trigger] path_entries(dest_by_path).contains_key(p) <==> has_path(dv, p),
            forall|p: Seq<char>| #[trigger] path_entries(dest_by_path).contains_key(p) ==> {
                &&& path_entries(dest_by_path)[p] < dst@.len()
                &&& dv[path_entries(dest_by_path)[p] as int].path == p
            },
            forall|h: (crate::hash::HashAlgorithm, Seq<u8>)| #[trigger] hash_entries(dest_by_hash).contains_key(h)
                ==> hash_entries(dest_by_hash)[h] == indices_with_hash(dv, h, dst@.len() as int),
            forall|h: (crate::hash::HashAlgorithm, Seq<u8>)| !(#[trigger] hash_entries(dest_by_hash).contains_key(h))
                ==> indices_with_hash(dv, h, dst@.len() as int).len() == 0,
            st == diff_prefix(sv, dv, i as nat),
            metas_view(added@) == st.added,
            metas_view(modified@) == st.modified,
            renamed@.map_values(|p: (FileMeta, FileMeta)| (p.0@, p.1@)) == st.renamed,
            processed@.len() == dst@.len(),
            forall|j: int| 0 <= j < dst@.len() ==> #[trigger] processed@[j] == st.processed.contains(dv[j].path),
        decreases src.len() - i,
    {
        let s = &src[i];
        let ghost sview = sv[i as int];
        assert(sview == s@);
        assert(diff_prefix(sv, dv, (i + 1) as nat) == diff_step(dv, st, sview));
        match lookup_path(&dest_by_path, &s.path) {
            Some(j) => {
                proof {
                    lemma_index_of_path(dv, j as int);
                }
                if !s.hash.same_as(&dst[j].hash) {
                    modified.push(s.duplicate());
                    assert(metas_view(modified@) =~= st.modified.push(sview));
                }
                processed.set(j, true);
                proof {
                    st = diff_step(dv, st, sview);
                    assert forall|k: int| 0 <= k < dst@.len() implies #[trigger] processed@[k] == st.processed.contains(dv[k].path) by {
                        if k != j {
                            assert(dv[k].path != dv[j as int].path);
                        }
                    }
                }
            },
            None => {
                let best = match lookup_hash(&dest_by_hash, &s.hash) {
                    Some(bucket) => best_rename(dst, bucket, &processed, s, Ghost(st.processed)),
                    None => {
                        proof {
                            assert forall|j: int| !is_rename_candidate(dv, st.processed, sview, j) by {
                                if is_rename_candidate(dv, st.processed, sview, j) {
                                    lemma_indices_with_hash(dv, sview.hash, dv.len() as int);
                                }
                            }
                        }
                        None
                    },
                };
                match best {
                    Some(j) => {
                        let ghost pick = choose|k: int| is_best_candidate(dv, st.processed, sview, k);
                        proof {
                            lemma_best_candidate_unique(dv, st.processed, sview, j as int, pick);
                        }
                        renamed.push((dst[j].duplicate(), s.duplicate()));
                        processed.set(j, true);
                        proof {
                            assert(renamed@.map_values(|p: (FileMeta, FileMeta)| (p.0@, p.1@)) =~= st.renamed.push((dv[j as int], sview)));
                            st = diff_step(dv, st, sview);
                            assert forall|k: int| 0 <= k < dst@.len() implies #[trigger] processed@[k] == st.processed.contains(dv[k].path) by {
                                if k != j {
                                    assert(dv[k].path != dv[j as int].path);
                                }
                            }
                        }
                    },
                    None => {
                        added.push(s.duplicate());
                        proof {
                            assert(!exists|j: int| is_best_candidate(dv, st.processed, sview, j));
                            assert(metas_view(added@) =~= st.added.push(sview));
                            st = diff_step(dv, st, sview);
                        }
                    },
                }
            },
        }
        i = i + 1;
    }
    let mut removed: Vec<FileMeta> = Vec::new();
    let mut j: usize = 0;
    assert(metas_view(removed@) =~= removed_prefix(sv, dv, st.processed, 0));
    while j < dst.len()
        invariant
            j <= dst.len(),
            sv == metas_view(src@),
            dv == metas_view(dst@),
            forall|p: Seq<char>| #[trigger] path_entries(source_by_path).contains_key(p) <==> has_path(sv, p),
            processed@.len() == dst@.len(),
            forall|k: int| 0 <= k < dst@.len() ==> #[trigger] processed@[k] == st.processed.contains(dv[k].path),
            metas_view(removed@) == removed_prefix(sv, dv, st.processed, j as nat),
        decreases dst.len() - j,
    {
        let d = &dst[j];
        assert(dv[j as int] == d@);
        if lookup_path(&source_by_path, &d.path).is_none() && !processed[j] {
            removed.push(d.duplicate());
            assert(metas_view(removed@) =~= removed_prefix(sv, dv, st.processed, (j + 1) as nat));
        }
        j = j + 1;
    }
    assert(src@.len() == sv.len());
    assert(dst@.len() == dv.len());
    Ok(DiffResult { added, removed, modified, renamed })
}

impl ScanResult {
    /// Whether the scan's paths are unique and short enough for
    /// `diff_scans`.
    pub fn is_well_formed(&self) -> (r: bool)
        ensures
            r == self.well_formed(),
    {
        let files = &self.files;
        let ghost fv = self.files_view();
        let mut t = new_path_table(files.len());
        let mut i: usize = 0;
        while i < files.len()
            invariant
                i <= files.len(),
                fv == metas_view(files@),
                fv == self.files_view(),
                files_well_formed(fv.take(i as int)),
                forall|p: Seq<char>| #[trigger] path_entries(t).contains_key(p) <==> exists|j: int|
                    0 <= j < i && #[trigger] fv[j].path == p,
            decreases files.len() - i,
        {
            let f = &files[i];
            assert(fv[i as int] == f@);
            if crate::text::chars_of(f.path.as_str()).len() >= crate::similarity::MAX_PATH_CHARS {
                assert(!files_well_formed(fv)) by {
                    assert(fv[i as int].path.len() >= crate::similarity::MAX_PATH_CHARS);
                }
                assert(fv == self.files_view());
                return false;
            }
            if lookup_path(&t, &f.path).is_some() {
                proof {
                    let j = choose|j: int| 0 <= j < i && #[trigger] fv[j].path == f@.path;
                    assert(fv[j].path == fv[i as int].path);
                    assert(!files_well_formed(fv));
                    assert(fv == self.files_view());
                }
                return false;
            }
            insert_path(&mut t, f.path.clone(), i);
            proof {
                assert forall|p: Seq<char>| #[trigger] path_entries(t).contains_key(p) <==> exists|j: int|
                    0 <= j < i + 1 && #[trigger] fv[j].path == p by {
                    if path_entries(t).contains_key(p) && p != fv[i as int].path {
                        let j = choose|j: int| 0 <= j < i && #[trigger] fv[j].path == p;
                        assert(0 <= j < i + 1 && fv[j].path == p);
                    }
                    if p == fv[i as int].path {
                        assert(fv[i as int].path == p);
                    }
                }
                let w = fv.take(i + 1);
                assert forall|a: int, b: int| 0 <= a < w.len() && 0 <= b < w.len() && a != b implies #[trigger] w[a].path
                    != #[trigger] w[b].path by {
                    if a < i && b < i {
                        assert(fv.take(i as int)[a] == w[a]);
                        assert(fv.take(i as int)[b] == w[b]);
                    } else if a == i {
                        assert(w[b].path == fv[b].path);
                    } else {
                        assert(w[a].path == fv[a].path);
                    }
                }
            }
            i = i + 1;
        }
        assert(fv.take(i as int) =~= fv);
        true
    }
}

/// At most one candidate is the best.
proof fn lemma_best_candidate_unique(
    dst: Seq<FileMetaView>,
    processed: Set<Seq<char>>,
    s: FileMetaView,
    a: int,
    b: int,
)
    requires
        is_best_candidate(dst, processed, s, a),
        is_best_candidate(dst, processed, s, b),
    ensures
        a == b,
{
    if a < b {
        assert(ratio_gt(rename_score(dst, s, b), rename_score(dst, s, a)));
    } else if b < a {
        assert(ratio_gt(rename_score(dst, s, a), rename_score(dst, s, b)));
    }
}

/// What the renames of the first `n` source files pair up.
proof fn lemma_renames_prefix(src: Seq<FileMetaView>, dst: Seq<FileMetaView>, n: nat)
    requires
        n <= src.len(),
    ensures
        forall|k: int| 0 <= k < diff_prefix(src, dst, n).renamed.len() ==> {
            let p = #[trigger] diff_prefix(src, dst, n).renamed[k];
            &&& p.0.hash == p.1.hash
            &&& has_path(dst, p.0.path)
            &&& !has_path(dst, p.1.path)
            &&& has_path(src, p.1.path)
        },
    decreases n,
{
    if n > 0 {
        lemma_renames_prefix(src, dst, (n - 1) as nat);
        let st = diff_prefix(src, dst, (n - 1) as nat);
        let s = src[n - 1];
        assert(src[n - 1].path == s.path);
        if !has_path(dst, s.path) && exists|j: int| is_best_candidate(dst, st.processed, s, j) {
            let j = choose|j: int| is_best_candidate(dst, st.processed, s, j);
            assert(dst[j].path == dst[j].path);
            let r = diff_prefix(src, dst, n).renamed;
            assert(r == st.renamed.push((dst[j], s)));
            assert forall|k: int| 0 <= k < r.len() implies {
                let p = #[trigger] r[k];
                &&& p.0.hash == p.1.hash
                &&& has_path(dst, p.0.path)
                &&& !has_path(dst, p.1.path)
                &&& has_path(src, p.1.path)
            } by {
                if k < st.renamed.len() {
                    assert(r[k] == st.renamed[k]);
                }
            }
        }
    }
}

/// Every rename pairs a destination file with a source file of the same
/// content; the new path is a source path that the destination does not
/// have and the old path a destination path that the source does not have,
/// so neither is shared by both scans.
pub proof fn lemma_rename_soundness(src: Seq<FileMetaView>, dst: Seq<FileMetaView>)
    ensures
        forall|k: int| 0 <= k < diff_spec(src, dst).renamed.len() ==> {
            let p = #[trigger] diff_spec(src, dst).renamed[k];
            &&& p.0.hash == p.1.hash
            &&& p.0.path != p.1.path
            &&& file_in(dst, p.0)
            &&& file_in(src, p.1)
            &&& !has_path(src, p.0.path)
            &&& has_path(dst, p.0.path)
            &&& !has_path(dst, p.1.path)
            &&& has_path(src, p.1.path)
        },
{
    lemma_renames_prefix(src, dst, src.len());
    lemma_lists_from_source(src, dst, src.len());
    lemma_dest_prefix(src, dst, src.len());
    let r = diff_spec(src, dst).renamed;
    assert forall|k: int| 0 <= k < r.len() implies (#[trigger] r[k]).0.path != r[k].1.path by {
        assert(r[k] == diff_prefix(src, dst, src.len()).renamed[k]);
    }
}

/// Source file `i` has a destination file at its path with the same content.
pub open spec fn unchanged_at(src: Seq<FileMetaView>, dst: Seq<FileMetaView>, i: int) -> bool {
    has_path(dst, src[i].path) && dst[index_of_path(dst, src[i].path)].hash == src[i].hash
}

/// How many of the first `n` source files are unchanged.
pub open spec fn count_unchanged(src: Seq<FileMetaView>, dst: Seq<FileMetaView>, n: nat) -> nat
    decreases n,
{
    if n == 0 || n > src.len() {
        0
    } else {
        count_unchanged(src, dst, (n - 1) as nat) + if unchanged_at(src, dst, n - 1) {
            1nat
        } else {
            0nat
        }
    }
}

/// The source sides of the renames.
pub open spec fn new_sides(r: Seq<(FileMetaView, FileMetaView)>) -> Seq<FileMetaView> {
    Seq::new(r.len(), |k: int| r[k].1)
}

pub open spec fn one_if(b: bool) -> int {
    if b {
        1
    } else {
        0
    }
}

/// In how many of the added, modified and renamed-new lists `f` occurs.
pub open spec fn listed_count(
    added: Seq<FileMetaView>,
    modified: Seq<FileMetaView>,
    renamed: Seq<(FileMetaView, FileMetaView)>,
    f: FileMetaView,
) -> int {
    one_if(added.contains(f)) + one_if(modified.contains(f)) + one_if(new_sides(renamed).contains(f))
}

proof fn lemma_contains_push<A>(l: Seq<A>, x: A, y: A)
    ensures
        l.push(x).contains(y) <==> (l.contains(y) || x == y),
{
    if l.contains(y) {
        let k = choose|k: int| 0 <= k < l.len() && l[k] == y;
        assert(l.push(x)[k] == y);
    }
    if x == y {
        assert(l.push(x)[l.len() as int] == y);
    }
    if l.push(x).contains(y) {
        let k = choose|k: int| 0 <= k < l.push(x).len() && l.push(x)[k] == y;
        if k < l.len() {
            assert(l[k] == y);
        }
    }
}

proof fn lemma_source_prefix(src: Seq<FileMetaView>, dst: Seq<FileMetaView>, n: nat)
    requires
        files_well_formed(src),
        files_well_formed(dst),
        n <= src.len(),
    ensures
        ({
            let st = diff_prefix(src, dst, n);
            &&& forall|i: int| 0 <= i < n ==> #[trigger] listed_count(st.added, st.modified, st.renamed, src[i])
                + one_if(unchanged_at(src, dst, i)) == 1
            &&& forall|i: int| n <= i < src.len() ==> #[trigger] listed_count(st.added, st.modified, st.renamed, src[i]) == 0
            &&& st.added.len() + st.modified.len() + st.renamed.len() + count_unchanged(src, dst, n) == n
        }),
    decreases n,
{
    let st = diff_prefix(src, dst, n);
    if n == 0 {
        assert forall|i: int| n <= i < src.len() implies #[trigger] listed_count(st.added, st.modified, st.renamed, src[i]) == 0 by {
            assert(!st.added.contains(src[i]));
            assert(!st.modified.contains(src[i]));
            assert(!new_sides(st.renamed).contains(src[i]));
        }
    } else {
        let m = (n - 1) as nat;
        lemma_source_prefix(src, dst, m);
        let old = diff_prefix(src, dst, m);
        let s = src[m as int];
        assert(st == diff_step(dst, old, s));
        // the new file differs from every other source file
        assert forall|i: int| 0 <= i < src.len() && i != m implies src[i] != s by {
            assert(src[i].path != src[m as int].path);
        }
        assert forall|i: int| 0 <= i < src.len() && i != m implies #[trigger] listed_count(st.added, st.modified, st.renamed, src[i])
            == listed_count(old.added, old.modified, old.renamed, src[i]) by {
            lemma_contains_push(old.added, s, src[i]);
            lemma_contains_push(old.modified, s, src[i]);
            lemma_contains_push(new_sides(old.renamed), s, src[i]);
            if st.renamed.len() > old.renamed.len() {
                assert(new_sides(st.renamed) =~= new_sides(old.renamed).push(s));
            }
        }
        assert(listed_count(old.added, old.modified, old.renamed, s) == 0);
        lemma_contains_push(old.added, s, s);
        lemma_contains_push(old.modified, s, s);
        lemma_contains_push(new_sides(old.renamed), s, s);
        if has_path(dst, s.path) {
            assert(listed_count(st.added, st.modified, st.renamed, s) + one_if(unchanged_at(src, dst, m as int)) == 1);
        } else if exists|j: int| is_best_candidate(dst, old.processed, s, j) {
            let j = choose|j: int| is_best_candidate(dst, old.processed, s, j);
            assert(new_sides(st.renamed) =~= new_sides(old.renamed).push(s));
            assert(listed_count(st.added, st.modified, st.renamed, s) == 1);
        } else {
            assert(listed_count(st.added, st.modified, st.renamed, s) == 1);
        }
        assert forall|i: int| 0 <= i < n implies #[trigger] listed_count(st.added, st.modified, st.renamed, src[i])
            + one_if(unchanged_at(src, dst, i)) == 1 by {
            if i != m {
            }
        }
    }
}

/// Every source file is in exactly one of unchanged, added, modified and
/// the new sides of the renames, and the counts add up to the number of
/// source files.
pub proof fn lemma_source_totality(src: Seq<FileMetaView>, dst: Seq<FileMetaView>)
    requires
        files_well_formed(src),
        files_well_formed(dst),
    ensures
        forall|i: int| 0 <= i < src.len() ==> #[trigger] listed_count(
            diff_spec(src, dst).added,
            diff_spec(src, dst).modified,
            diff_spec(src, dst).renamed,
            src[i],
        ) + one_if(unchanged_at(src, dst, i)) == 1,
        diff_spec(src, dst).added.len() + diff_spec(src, dst).modified.len() + diff_spec(src, dst).renamed.len()
            + count_unchanged(src, dst, src.len()) == src.len(),
{
    lemma_source_prefix(src, dst, src.len());
}

/// Destination file `j` has a source file at its path with the same content.
pub open spec fn unchanged_dest(src: Seq<FileMetaView>, dst: Seq<FileMetaView>, j: int) -> bool {
    has_path(src, dst[j].path) && src[index_of_path(src, dst[j].path)].hash == dst[j].hash
}

/// The destination sides of the renames.
pub open spec fn old_sides(r: Seq<(FileMetaView, FileMetaView)>) -> Seq<FileMetaView> {
    Seq::new(r.len(), |k: int| r[k].0)
}

/// In how many of removed, modified (by path) and the old sides of the
/// renames destination file `f` occurs.
pub open spec fn dest_listed_count(d: DiffView, f: FileMetaView) -> int {
    one_if(d.removed.contains(f)) + one_if(has_path(d.modified, f.path)) + one_if(
        old_sides(d.renamed).contains(f),
    )
}

/// No rename takes its old side from a path that the source also has.
pub open spec fn renames_avoid_source_paths(src: Seq<FileMetaView>, dst: Seq<FileMetaView>) -> bool {
    forall|k: int| 0 <= k < diff_spec(src, dst).renamed.len() ==> !has_path(
        src,
        (#[trigger] diff_spec(src, dst).renamed[k]).0.path,
    )
}

/// No rename takes its old side from a path that the source also has:
/// those destination files are accounted for by the source files at their
/// paths.
pub proof fn lemma_renames_avoid_source_paths(src: Seq<FileMetaView>, dst: Seq<FileMetaView>)
    ensures
        renames_avoid_source_paths(src, dst),
{
    lemma_dest_prefix(src, dst, src.len());
    let r = diff_spec(src, dst).renamed;
    assert forall|k: int| 0 <= k < r.len() implies !has_path(src, (#[trigger] r[k]).0.path) by {
        assert(r[k] == diff_prefix(src, dst, src.len()).renamed[k]);
    }
}

/// A source file among the first `n` has path `p`, which the destination
/// has too with other content.
pub open spec fn changed_before(src: Seq<FileMetaView>, dst: Seq<FileMetaView>, n: int, p: Seq<char>) -> bool {
    exists|i: int| 0 <= i < n && #[trigger] src[i].path == p && has_path(dst, p)
        && dst[index_of_path(dst, p)].hash != src[i].hash
}

/// `f` is one of `files`.
pub open spec fn file_in(files: Seq<FileMetaView>, f: FileMetaView) -> bool {
    exists|j: int| 0 <= j < files.len() && files[j] == f
}

/// Some rename among `r` has old path `p`.
pub open spec fn renamed_from(r: Seq<(FileMetaView, FileMetaView)>, p: Seq<char>) -> bool {
    exists|k: int| 0 <= k < r.len() && (#[trigger] r[k]).0.path == p
}

proof fn lemma_dest_prefix(src: Seq<FileMetaView>, dst: Seq<FileMetaView>, n: nat)
    requires
        n <= src.len(),
    ensures
        ({
            let st = diff_prefix(src, dst, n);
            &&& forall|p: Seq<char>| #[trigger] st.processed.contains(p) <==> (has_path(src, p)
                || renamed_from(st.renamed, p))
            &&& forall|p: Seq<char>| #[trigger] has_path(st.modified, p) <==> changed_before(src, dst, n as int, p)
            &&& forall|k: int| 0 <= k < st.renamed.len() ==> #[trigger] file_in(dst, st.renamed[k].0)
            &&& forall|k: int| 0 <= k < st.renamed.len() ==> !has_path(src, (#[trigger] st.renamed[k]).0.path)
        }),
    decreases n,
{
    let st = diff_prefix(src, dst, n);
    if n == 0 {
        assert forall|p: Seq<char>| !changed_before(src, dst, 0, p) && !has_path(st.modified, p)
            && !renamed_from(st.renamed, p) by {}
    } else {
        let m = (n - 1) as nat;
        lemma_dest_prefix(src, dst, m);
        let old = diff_prefix(src, dst, m);
        let s = src[m as int];
        assert(st == diff_step(dst, old, s));
        if has_path(dst, s.path) {
            let d = dst[index_of_path(dst, s.path)];
            assert(d.path == s.path);
            assert(st.renamed == old.renamed);
            assert forall|k: int| 0 <= k < st.renamed.len() implies #[trigger] file_in(dst, st.renamed[k].0) by {
                assert(st.renamed[k] == old.renamed[k]);
                assert(file_in(dst, old.renamed[k].0));
            }
            assert forall|k: int| 0 <= k < st.renamed.len() implies !has_path(src, (#[trigger] st.renamed[k]).0.path) by {
                assert(st.renamed[k] == old.renamed[k]);
            }
            assert(has_path(src, s.path)) by {
                assert(src[m as int].path == s.path);
            }
            assert forall|p: Seq<char>| #[trigger] st.processed.contains(p) <==> (has_path(src, p)
                || renamed_from(st.renamed, p)) by {}
            assert forall|p: Seq<char>| #[trigger] has_path(st.modified, p) <==> changed_before(src, dst, n as int, p) by {
                if d.hash != s.hash {
                    assert(st.modified == old.modified.push(s));
                    if has_path(st.modified, p) {
                        let k = choose|k: int| 0 <= k < st.modified.len() && #[trigger] st.modified[k].path == p;
                        if k < old.modified.len() {
                            assert(old.modified[k] == st.modified[k]);
                        } else {
                            assert(src[m as int].path == p);
                        }
                    }
                    if has_path(old.modified, p) {
                        let k = choose|k: int| 0 <= k < old.modified.len() && #[trigger] old.modified[k].path == p;
                        assert(st.modified[k] == old.modified[k]);
                    }
                    if p == s.path {
                        assert(st.modified[old.modified.len() as int] == s);
                        assert(src[m as int].path == p);
                    }
                }
                if changed_before(src, dst, n as int, p) {
                    let i = choose|i: int| 0 <= i < n && #[trigger] src[i].path == p && has_path(dst, p)
                        && dst[index_of_path(dst, p)].hash != src[i].hash;
                    if i < m {
                        assert(changed_before(src, dst, m as int, p));
                    }
                }
                if changed_before(src, dst, m as int, p) {
                    let i = choose|i: int| 0 <= i < m && #[trigger] src[i].path == p && has_path(dst, p)
                        && dst[index_of_path(dst, p)].hash != src[i].hash;
                    assert(0 <= i < n);
                }
            }
        } else if exists|j: int| is_best_candidate(dst, old.processed, s, j) {
            let j = choose|j: int| is_best_candidate(dst, old.processed, s, j);
            assert(st.renamed == old.renamed.push((dst[j], s)));
            assert(!has_path(src, dst[j].path));
            assert forall|p: Seq<char>| #[trigger] st.processed.contains(p) <==> (has_path(src, p)
                || renamed_from(st.renamed, p)) by {
                if renamed_from(st.renamed, p) {
                    let k = choose|k: int| 0 <= k < st.renamed.len() && (#[trigger] st.renamed[k]).0.path == p;
                    if k < old.renamed.len() {
                        assert(old.renamed[k] == st.renamed[k]);
                    }
                }
                if renamed_from(old.renamed, p) {
                    let k = choose|k: int| 0 <= k < old.renamed.len() && (#[trigger] old.renamed[k]).0.path == p;
                    assert(st.renamed[k] == old.renamed[k]);
                }
                if p == dst[j].path {
                    assert(st.renamed[old.renamed.len() as int].0.path == p);
                }
            }
            assert forall|k: int| 0 <= k < st.renamed.len() implies !has_path(src, (#[trigger] st.renamed[k]).0.path) by {
                if k < old.renamed.len() {
                    assert(old.renamed[k] == st.renamed[k]);
                }
            }
            assert forall|p: Seq<char>| #[trigger] has_path(st.modified, p) <==> changed_before(src, dst, n as int, p) by {
                if changed_before(src, dst, n as int, p) {
                    let i = choose|i: int| 0 <= i < n && #[trigger] src[i].path == p && has_path(dst, p)
                        && dst[index_of_path(dst, p)].hash != src[i].hash;
                    if i == m {
                        assert(src[m as int].path == p);
                    }
                    assert(changed_before(src, dst, m as int, p));
                }
                if changed_before(src, dst, m as int, p) {
                    let i = choose|i: int| 0 <= i < m && #[trigger] src[i].path == p && has_path(dst, p)
                        && dst[index_of_path(dst, p)].hash != src[i].hash;
                    assert(0 <= i < n);
                }
            }
            assert forall|k: int| 0 <= k < st.renamed.len() implies #[trigger] file_in(dst, st.renamed[k].0) by {
                if k < old.renamed.len() {
                    assert(old.renamed[k] == st.renamed[k]);
                    assert(file_in(dst, old.renamed[k].0));
                } else {
                    assert(dst[j] == st.renamed[k].0);
                }
            }
        } else {
            assert(st.renamed == old.renamed);
            assert(st.processed == old.processed);
            assert(st.modified == old.modified);
            assert forall|k: int| 0 <= k < st.renamed.len() implies #[trigger] file_in(dst, st.renamed[k].0) by {
                assert(st.renamed[k] == old.renamed[k]);
                assert(file_in(dst, old.renamed[k].0));
            }
            assert forall|k: int| 0 <= k < st.renamed.len() implies !has_path(src, (#[trigger] st.renamed[k]).0.path) by {
                assert(st.renamed[k] == old.renamed[k]);
            }

            assert forall|p: Seq<char>| #[trigger] has_path(st.modified, p) <==> changed_before(src, dst, n as int, p) by {
                if changed_before(src, dst, n as int, p) {
                    let i = choose|i: int| 0 <= i < n && #[trigger] src[i].path == p && has_path(dst, p)
                        && dst[index_of_path(dst, p)].hash != src[i].hash;
                    if i == m {
                        assert(src[m as int].path == p);
                    }
                    assert(changed_before(src, dst, m as int, p));
                }
                if changed_before(src, dst, m as int, p) {
                    let i = choose|i: int| 0 <= i < m && #[trigger] src[i].path == p && has_path(dst, p)
                        && dst[index_of_path(dst, p)].hash != src[i].hash;
                    assert(0 <= i < n);
                }
            }
        }
    }
}

proof fn lemma_removed_prefix(
    src: Seq<FileMetaView>,
    dst: Seq<FileMetaView>,
    processed: Set<Seq<char>>,
    m: nat,
)
    requires
        files_well_formed(dst),
        m <= dst.len(),
    ensures
        forall|j: int| 0 <= j < dst.len() ==> (#[trigger] removed_prefix(src, dst, processed, m).contains(dst[j]) <==> (j < m
            && !has_path(src, dst[j].path) && !processed.contains(dst[j].path))),
    decreases m,
{
    if m > 0 {
        let k = (m - 1) as nat;
        lemma_removed_prefix(src, dst, processed, k);
        let r = removed_prefix(src, dst, processed, k);
        assert forall|j: int| 0 <= j < dst.len() implies (#[trigger] removed_prefix(src, dst, processed, m).contains(dst[j]) <==> (j < m
            && !has_path(src, dst[j].path) && !processed.contains(dst[j].path))) by {
            lemma_contains_push(r, dst[k as int], dst[j]);
            if j != k {
                assert(dst[j].path != dst[k as int].path);
            }
        }
    }
}

/// Every destination file is in exactly one of unchanged, removed,
/// modified (by path) and the old sides of the renames.
pub proof fn lemma_dest_totality(src: Seq<FileMetaView>, dst: Seq<FileMetaView>)
    requires
        files_well_formed(src),
        files_well_formed(dst),
    ensures
        forall|j: int| 0 <= j < dst.len() ==> #[trigger] dest_listed_count(diff_spec(src, dst), dst[j]) + one_if(
            unchanged_dest(src, dst, j),
        ) == 1,
{
    lemma_renames_avoid_source_paths(src, dst);
    let st = diff_prefix(src, dst, src.len());
    let d = diff_spec(src, dst);
    lemma_dest_prefix(src, dst, src.len());
    lemma_removed_prefix(src, dst, st.processed, dst.len());
    assert forall|j: int| 0 <= j < dst.len() implies #[trigger] dest_listed_count(d, dst[j]) + one_if(unchanged_dest(src, dst, j)) == 1 by {
        let p = dst[j].path;
        lemma_index_of_path(dst, j);
        // an old side equals dst[j] exactly when its path is p
        if old_sides(st.renamed).contains(dst[j]) {
            let k = choose|k: int| 0 <= k < old_sides(st.renamed).len() && old_sides(st.renamed)[k] == dst[j];
            assert(st.renamed[k].0.path == p);
            assert(renamed_from(st.renamed, p));
        }
        if renamed_from(st.renamed, p) {
            let k = choose|k: int| 0 <= k < st.renamed.len() && (#[trigger] st.renamed[k]).0.path == p;
            assert(file_in(dst, st.renamed[k].0));
            let jj = choose|jj: int| 0 <= jj < dst.len() && dst[jj] == st.renamed[k].0;
            if jj != j {
                assert(dst[jj].path != dst[j].path);
            }
            assert(old_sides(st.renamed)[k] == dst[j]);
        }
        if has_path(src, p) {
            let i = index_of_path(src, p);
            assert(src[i].path == p);
            if renamed_from(st.renamed, p) {
                let k = choose|k: int| 0 <= k < st.renamed.len() && (#[trigger] st.renamed[k]).0.path == p;
                assert(d.renamed[k] == st.renamed[k]);
                assert(!has_path(src, d.renamed[k].0.path));
            }
            if changed_before(src, dst, src.len() as int, p) {
                let i2 = choose|i2: int| 0 <= i2 < src.len() && #[trigger] src[i2].path == p && has_path(dst, p)
                    && dst[index_of_path(dst, p)].hash != src[i2].hash;
                if i2 != i {
                    assert(src[i2].path != src[i].path);
                }
            }
            if !unchanged_dest(src, dst, j) {
                assert(src[i].path == p && has_path(dst, p) && dst[index_of_path(dst, p)].hash != src[i].hash);
                assert(changed_before(src, dst, src.len() as int, p));
            }
        } else {
            if changed_before(src, dst, src.len() as int, p) {
                let i2 = choose|i2: int| 0 <= i2 < src.len() && #[trigger] src[i2].path == p && has_path(dst, p)
                    && dst[index_of_path(dst, p)].hash != src[i2].hash;
                assert(has_path(src, p));
            }
        }
    }
}

/// What the lists of the first `n` steps are made of: added, modified and
/// the new sides of renames are source files.
proof fn lemma_lists_from_source(src: Seq<FileMetaView>, dst: Seq<FileMetaView>, n: nat)
    requires
        n <= src.len(),
    ensures
        forall|k: int| 0 <= k < diff_prefix(src, dst, n).added.len() ==> #[trigger] file_in(src, diff_prefix(src, dst, n).added[k]),
        forall|k: int| 0 <= k < diff_prefix(src, dst, n).modified.len() ==> #[trigger] file_in(src, diff_prefix(src, dst, n).modified[k]),
        forall|k: int| 0 <= k < diff_prefix(src, dst, n).renamed.len() ==> #[trigger] file_in(src, diff_prefix(src, dst, n).renamed[k].1),
    decreases n,
{
    if n > 0 {
        let m = (n - 1) as nat;
        lemma_lists_from_source(src, dst, m);
        let old = diff_prefix(src, dst, m);
        let st = diff_prefix(src, dst, n);
        let s = src[m as int];
        assert(file_in(src, s));
        assert forall|k: int| 0 <= k < st.added.len() implies #[trigger] file_in(src, st.added[k]) by {
            if k < old.added.len() {
                assert(st.added[k] == old.added[k]);
            }
        }
        assert forall|k: int| 0 <= k < st.modified.len() implies #[trigger] file_in(src, st.modified[k]) by {
            if k < old.modified.len() {
                assert(st.modified[k] == old.modified[k]);
            }
        }
        assert forall|k: int| 0 <= k < st.renamed.len() implies #[trigger] file_in(src, st.renamed[k].1) by {
            if k < old.renamed.len() {
                assert(st.renamed[k] == old.renamed[k]);
            }
        }
    }
}

/// Removed files are destination files whose path the source lacks.
proof fn lemma_removed_from_dest(
    src: Seq<FileMetaView>,
    dst: Seq<FileMetaView>,
    processed: Set<Seq<char>>,
    m: nat,
)
    requires
        m <= dst.len(),
    ensures
        forall|k: int| 0 <= k < removed_prefix(src, dst, processed, m).len() ==> {
            &&& #[trigger] file_in(dst, removed_prefix(src, dst, processed, m)[k])
            &&& !has_path(src, removed_prefix(src, dst, processed, m)[k].path)
        },
    decreases m,
{
    if m > 0 {
        let k0 = (m - 1) as nat;
        lemma_removed_from_dest(src, dst, processed, k0);
        let r = removed_prefix(src, dst, processed, k0);
        let r2 = removed_prefix(src, dst, processed, m);
        assert(file_in(dst, dst[k0 as int]));
        assert forall|k: int| 0 <= k < r2.len() implies #[trigger] file_in(dst, r2[k]) && !has_path(src, r2[k].path) by {
            if k < r.len() {
                assert(r2[k] == r[k]);
            }
        }
    }
}

/// What each list of the diff is drawn from.
pub(crate) proof fn lemma_facts_for_outcome(src: Seq<FileMetaView>, dst: Seq<FileMetaView>)
    requires
        files_well_formed(src),
        files_well_formed(dst),
    ensures
        forall|k: int| 0 <= k < diff_spec(src, dst).added.len() ==> #[trigger] file_in(src, diff_spec(src, dst).added[k]),
        forall|k: int| 0 <= k < diff_spec(src, dst).modified.len() ==> #[trigger] file_in(src, diff_spec(src, dst).modified[k]),
        forall|k: int| 0 <= k < diff_spec(src, dst).renamed.len() ==> {
            &&& #[trigger] file_in(src, diff_spec(src, dst).renamed[k].1)
            &&& file_in(dst, diff_spec(src, dst).renamed[k].0)
            &&& !has_path(src, diff_spec(src, dst).renamed[k].0.path)
        },
        forall|k: int| 0 <= k < diff_spec(src, dst).removed.len() ==> {
            &&& #[trigger] file_in(dst, diff_spec(src, dst).removed[k])
            &&& !has_path(src, diff_spec(src, dst).removed[k].path)
        },
{
    lemma_renames_avoid_source_paths(src, dst);
    let st = diff_prefix(src, dst, src.len());
    lemma_lists_from_source(src, dst, src.len());
    lemma_dest_prefix(src, dst, src.len());
    lemma_removed_from_dest(src, dst, st.processed, dst.len());
}

/// A file of `files` with the path of source file `i` is that file.
proof fn lemma_only_file_at(src: Seq<FileMetaView>, files: Seq<FileMetaView>, i: int)
    requires
        files_well_formed(src),
        0 <= i < src.len(),
        forall|k: int| 0 <= k < files.len() ==> #[trigger] file_in(src, files[k]),
    ensures
        forall|k: int| 0 <= k < files.len() && #[trigger] files[k].path == src[i].path ==> files[k] == src[i],
        has_path(files, src[i].path) <==> files.contains(src[i]),
{
    assert forall|k: int| 0 <= k < files.len() && #[trigger] files[k].path == src[i].path implies files[k] == src[i] by {
        assert(file_in(src, files[k]));
        let i2 = choose|i2: int| 0 <= i2 < src.len() && src[i2] == files[k];
        if i2 != i {
            assert(src[i2].path != src[i].path);
        }
    }
    if files.contains(src[i]) {
        let k = choose|k: int| 0 <= k < files.len() && files[k] == src[i];
        assert(files[k].path == src[i].path);
    }
}

/// Around the path of source file `i`: the lists that hold it hold only
/// it there, and no old side or removed file has that path.
pub(crate) proof fn lemma_single_at_path(src: Seq<FileMetaView>, dst: Seq<FileMetaView>, i: int)
    requires
        files_well_formed(src),
        files_well_formed(dst),
        0 <= i < src.len(),
    ensures
        forall|k: int| 0 <= k < diff_spec(src, dst).added.len() && #[trigger] diff_spec(src, dst).added[k].path == src[i].path
            ==> diff_spec(src, dst).added[k].hash == src[i].hash,
        forall|k: int| 0 <= k < diff_spec(src, dst).modified.len() && #[trigger] diff_spec(src, dst).modified[k].path == src[i].path
            ==> diff_spec(src, dst).modified[k].hash == src[i].hash,
        forall|k: int| 0 <= k < diff_spec(src, dst).renamed.len() && #[trigger] diff_spec(src, dst).renamed[k].1.path == src[i].path
            ==> diff_spec(src, dst).renamed[k].1.hash == src[i].hash,
        has_path(diff_spec(src, dst).added, src[i].path) <==> diff_spec(src, dst).added.contains(src[i]),
        has_path(diff_spec(src, dst).modified, src[i].path) <==> diff_spec(src, dst).modified.contains(src[i]),
        has_path(new_sides(diff_spec(src, dst).renamed), src[i].path) <==> new_sides(diff_spec(src, dst).renamed).contains(src[i]),
        !has_path(old_sides(diff_spec(src, dst).renamed), src[i].path),
        !has_path(diff_spec(src, dst).removed, src[i].path),
        listed_count(diff_spec(src, dst).added, diff_spec(src, dst).modified, diff_spec(src, dst).renamed, src[i])
            + one_if(unchanged_at(src, dst, i)) == 1,
{
    lemma_renames_avoid_source_paths(src, dst);
    let d = diff_spec(src, dst);
    let p = src[i].path;
    lemma_facts_for_outcome(src, dst);
    lemma_source_totality(src, dst);
    assert(listed_count(d.added, d.modified, d.renamed, src[i]) + one_if(unchanged_at(src, dst, i)) == 1);
    let news = new_sides(d.renamed);
    assert forall|k: int| 0 <= k < news.len() implies #[trigger] file_in(src, news[k]) by {
        assert(news[k] == d.renamed[k].1);
    }
    lemma_only_file_at(src, d.added, i);
    lemma_only_file_at(src, d.modified, i);
    lemma_only_file_at(src, news, i);
    assert forall|k: int| 0 <= k < d.renamed.len() && #[trigger] d.renamed[k].1.path == p implies d.renamed[k].1.hash == src[i].hash by {
        assert(news[k] == d.renamed[k].1);
    }
    assert(src[i].path == p);
    if has_path(old_sides(d.renamed), p) {
        let k = choose|k: int| 0 <= k < old_sides(d.renamed).len() && #[trigger] old_sides(d.renamed)[k].path == p;
        assert(old_sides(d.renamed)[k] == d.renamed[k].0);
        assert(file_in(src, d.renamed[k].1));
        assert(!has_path(src, d.renamed[k].0.path));
    }
    if has_path(d.removed, p) {
        let k = choose|k: int| 0 <= k < d.removed.len() && #[trigger] d.removed[k].path == p;
        assert(file_in(dst, d.removed[k]));
        assert(!has_path(src, d.removed[k].path));
    }
}

/// A path that the source lacks is written by no copy or rename, and a
/// destination file there is renamed away or removed.
pub(crate) proof fn lemma_foreign_path(src: Seq<FileMetaView>, dst: Seq<FileMetaView>, p: Seq<char>)
    requires
        files_well_formed(src),
        files_well_formed(dst),
        !has_path(src, p),
    ensures
        !has_path(diff_spec(src, dst).added, p),
        !has_path(diff_spec(src, dst).modified, p),
        !has_path(new_sides(diff_spec(src, dst).renamed), p),
        has_path(dst, p) ==> has_path(old_sides(diff_spec(src, dst).renamed), p) || has_path(diff_spec(src, dst).removed, p),
{
    lemma_renames_avoid_source_paths(src, dst);
    let d = diff_spec(src, dst);
    lemma_facts_for_outcome(src, dst);
    if has_path(d.added, p) {
        let k = choose|k: int| 0 <= k < d.added.len() && #[trigger] d.added[k].path == p;
        assert(file_in(src, d.added[k]));
        let i = choose|i: int| 0 <= i < src.len() && src[i] == d.added[k];
        assert(src[i].path == p);
    }
    if has_path(d.modified, p) {
        let k = choose|k: int| 0 <= k < d.modified.len() && #[trigger] d.modified[k].path == p;
        assert(file_in(src, d.modified[k]));
        let i = choose|i: int| 0 <= i < src.len() && src[i] == d.modified[k];
        assert(src[i].path == p);
    }
    if has_path(new_sides(d.renamed), p) {
        let k = choose|k: int| 0 <= k < new_sides(d.renamed).len() && #[trigger] new_sides(d.renamed)[k].path == p;
        assert(new_sides(d.renamed)[k] == d.renamed[k].1);
        assert(file_in(src, d.renamed[k].1));
        let i = choose|i: int| 0 <= i < src.len() && src[i] == d.renamed[k].1;
        assert(src[i].path == p);
    }
    if has_path(dst, p) {
        let j = index_of_path(dst, p);
        lemma_dest_totality(src, dst);
        assert(dest_listed_count(d, dst[j]) + one_if(unchanged_dest(src, dst, j)) == 1);
        assert(dst[j].path == p);
        if d.removed.contains(dst[j]) {
            let k = choose|k: int| 0 <= k < d.removed.len() && d.removed[k] == dst[j];
            assert(d.removed[k].path == p);
        }
        if old_sides(d.renamed).contains(dst[j]) {
            let k = choose|k: int| 0 <= k < old_sides(d.renamed).len() && old_sides(d.renamed)[k] == dst[j];
            assert(old_sides(d.renamed)[k].path == p);
        }
    }
}

/// The paths of a list of files.
pub open spec fn paths_of(l: Seq<FileMetaView>) -> Seq<Seq<char>> {
    Seq::new(l.len(), |k: int| l[k].path)
}

/// How many of the first `n` files of `dst` have a path that `l` has.
pub open spec fn count_with_path_in(dst: Seq<FileMetaView>, l: Seq<FileMetaView>, n: nat) -> nat
    decreases n,
{
    if n == 0 || n > dst.len() {
        0
    } else {
        count_with_path_in(dst, l, (n - 1) as nat) + if has_path(l, dst[n - 1].path) {
            1nat
        } else {
            0nat
        }
    }
}

/// How many of the first `n` destination files are unchanged.
pub open spec fn count_unchanged_dest(src: Seq<FileMetaView>, dst: Seq<FileMetaView>, n: nat) -> nat
    decreases n,
{
    if n == 0 || n > dst.len() {
        0
    } else {
        count_unchanged_dest(src, dst, (n - 1) as nat) + if unchanged_dest(src, dst, n - 1) {
            1nat
        } else {
            0nat
        }
    }
}

/// The paths among the first `n` files of `dst` that `l` has, in order.
spec fn selected_paths(dst: Seq<FileMetaView>, l: Seq<FileMetaView>, n: nat) -> Seq<Seq<char>>
    decreases n,
{
    if n == 0 || n > dst.len() {
        Seq::empty()
    } else {
        let r = selected_paths(dst, l, (n - 1) as nat);
        if has_path(l, dst[n - 1].path) {
            r.push(dst[n - 1].path)
        } else {
            r
        }
    }
}

proof fn lemma_selected_paths(dst: Seq<FileMetaView>, l: Seq<FileMetaView>, n: nat)
    requires
        files_well_formed(dst),
        n <= dst.len(),
    ensures
        selected_paths(dst, l, n).len() == count_with_path_in(dst, l, n),
        selected_paths(dst, l, n).no_duplicates(),
        forall|p: Seq<char>| selected_paths(dst, l, n).contains(p) <==> (exists|j: int| 0 <= j < n && #[trigger] dst[j].path == p
            && has_path(l, p)),
    decreases n,
{
    if n > 0 {
        let m = (n - 1) as nat;
        lemma_selected_paths(dst, l, m);
        let r = selected_paths(dst, l, m);
        let q = dst[m as int].path;
        assert forall|p: Seq<char>| selected_paths(dst, l, n).contains(p) <==> (exists|j: int| 0 <= j < n && #[trigger] dst[j].path == p
            && has_path(l, p)) by {
            lemma_contains_push(r, q, p);
            if exists|j: int| 0 <= j < n && #[trigger] dst[j].path == p && has_path(l, p) {
                let j = choose|j: int| 0 <= j < n && #[trigger] dst[j].path == p && has_path(l, p);
                if j < m {
                    assert(r.contains(p));
                }
            }
            if r.contains(p) {
                let j = choose|j: int| 0 <= j < m && #[trigger] dst[j].path == p && has_path(l, p);
                assert(0 <= j < n);
            }
        }
        if has_path(l, q) {
            assert(!r.contains(q)) by {
                if r.contains(q) {
                    let j = choose|j: int| 0 <= j < m && #[trigger] dst[j].path == q && has_path(l, q);
                    assert(dst[j].path != dst[m as int].path);
                }
            }
            let r2 = r.push(q);
            assert forall|a: int, b: int| 0 <= a < r2.len() && 0 <= b < r2.len() && a != b implies r2[a] != r2[b] by {
                if a == r.len() {
                    assert(r.contains(r2[b]));
                } else if b == r.len() {
                    assert(r.contains(r2[a]));
                }
            }
        }
    }
}

/// A list whose paths are distinct destination paths is as long as the
/// number of destination files at its paths.
proof fn lemma_count_by_path(dst: Seq<FileMetaView>, l: Seq<FileMetaView>)
    requires
        files_well_formed(dst),
        paths_of(l).no_duplicates(),
        forall|k: int| 0 <= k < l.len() ==> has_path(dst, #[trigger] l[k].path),
    ensures
        l.len() == count_with_path_in(dst, l, dst.len()),
{
    lemma_selected_paths(dst, l, dst.len());
    let sel = selected_paths(dst, l, dst.len());
    let pl = paths_of(l);
    assert forall|p: Seq<char>| pl.to_set().contains(p) <==> sel.to_set().contains(p) by {
        if pl.contains(p) {
            let k = choose|k: int| 0 <= k < pl.len() && pl[k] == p;
            assert(l[k].path == p);
            assert(has_path(dst, l[k].path));
            let j = choose|j: int| 0 <= j < dst.len() && #[trigger] dst[j].path == p;
            assert(has_path(l, p));
            assert(sel.contains(p));
        }
        if sel.contains(p) {
            let j = choose|j: int| 0 <= j < dst.len() && #[trigger] dst[j].path == p && has_path(l, p);
            let k = choose|k: int| 0 <= k < l.len() && #[trigger] l[k].path == p;
            assert(pl[k] == p);
        }
    }
    assert(pl.to_set() =~= sel.to_set());
    pl.unique_seq_to_set();
    sel.unique_seq_to_set();
}

proof fn lemma_push_path_unique(l: Seq<FileMetaView>, f: FileMetaView)
    requires
        paths_of(l).no_duplicates(),
        !has_path(l, f.path),
    ensures
        paths_of(l.push(f)).no_duplicates(),
{
    let a = paths_of(l);
    let b = paths_of(l.push(f));
    assert forall|x: int, y: int| 0 <= x < b.len() && 0 <= y < b.len() && x != y implies b[x] != b[y] by {
        if x == l.len() {
            assert(l[y].path == b[y]);
        } else if y == l.len() {
            assert(l[x].path == b[x]);
        } else {
            assert(a[x] == b[x] && a[y] == b[y]);
        }
    }
}

/// The modified files and the old sides of the renames have distinct paths.
proof fn lemma_distinct_paths_prefix(src: Seq<FileMetaView>, dst: Seq<FileMetaView>, n: nat)
    requires
        files_well_formed(src),
        n <= src.len(),
    ensures
        paths_of(diff_prefix(src, dst, n).modified).no_duplicates(),
        paths_of(old_sides(diff_prefix(src, dst, n).renamed)).no_duplicates(),
    decreases n,
{
    if n > 0 {
        let m = (n - 1) as nat;
        lemma_distinct_paths_prefix(src, dst, m);
        lemma_dest_prefix(src, dst, m);
        let old = diff_prefix(src, dst, m);
        let st = diff_prefix(src, dst, n);
        let s = src[m as int];
        if has_path(dst, s.path) {
            if dst[index_of_path(dst, s.path)].hash != s.hash {
                assert(!has_path(old.modified, s.path)) by {
                    if changed_before(src, dst, m as int, s.path) {
                        let i = choose|i: int| 0 <= i < m && #[trigger] src[i].path == s.path && has_path(dst, s.path)
                            && dst[index_of_path(dst, s.path)].hash != src[i].hash;
                        assert(src[i].path != src[m as int].path);
                    }
                }
                lemma_push_path_unique(old.modified, s);
            }
        } else if exists|j: int| is_best_candidate(dst, old.processed, s, j) {
            let j = choose|j: int| is_best_candidate(dst, old.processed, s, j);
            assert(st.renamed == old.renamed.push((dst[j], s)));
            assert(old_sides(st.renamed) =~= old_sides(old.renamed).push(dst[j]));
            assert(!has_path(old_sides(old.renamed), dst[j].path)) by {
                if has_path(old_sides(old.renamed), dst[j].path) {
                    let k = choose|k: int| 0 <= k < old_sides(old.renamed).len() && #[trigger] old_sides(old.renamed)[k].path == dst[j].path;
                    assert(old.renamed[k].0.path == dst[j].path);
                    assert(renamed_from(old.renamed, dst[j].path));
                    assert(old.processed.contains(dst[j].path));
                }
            }
            lemma_push_path_unique(old_sides(old.renamed), dst[j]);
        }
    }
}

/// The removed files have distinct paths.
proof fn lemma_removed_distinct_paths(
    src: Seq<FileMetaView>,
    dst: Seq<FileMetaView>,
    processed: Set<Seq<char>>,
    m: nat,
)
    requires
        files_well_formed(dst),
        m <= dst.len(),
    ensures
        paths_of(removed_prefix(src, dst, processed, m)).no_duplicates(),
    decreases m,
{
    if m > 0 {
        let k = (m - 1) as nat;
        lemma_removed_distinct_paths(src, dst, processed, k);
        lemma_removed_prefix(src, dst, processed, k);
        lemma_removed_from_dest(src, dst, processed, k);
        let r = removed_prefix(src, dst, processed, k);
        let d = dst[k as int];
        if !has_path(src, d.path) && !processed.contains(d.path) {
            assert(!has_path(r, d.path)) by {
                if has_path(r, d.path) {
                    let x = choose|x: int| 0 <= x < r.len() && #[trigger] r[x].path == d.path;
                    assert(file_in(dst, r[x]));
                    let jj = choose|jj: int| 0 <= jj < dst.len() && dst[jj] == r[x];
                    if jj != k {
                        assert(dst[jj].path != dst[k as int].path);
                    }
                    assert(r.contains(dst[k as int]));
                }
            }
            lemma_push_path_unique(r, d);
        }
    }
}

proof fn lemma_partition_sum(
    src: Seq<FileMetaView>,
    dst: Seq<FileMetaView>,
    a: Seq<FileMetaView>,
    b: Seq<FileMetaView>,
    c: Seq<FileMetaView>,
    n: nat,
)
    requires
        n <= dst.len(),
        forall|j: int| 0 <= j < dst.len() ==> one_if(has_path(a, (#[trigger] dst[j]).path)) + one_if(has_path(b, dst[j].path))
            + one_if(has_path(c, dst[j].path)) + one_if(unchanged_dest(src, dst, j)) == 1,
    ensures
        count_with_path_in(dst, a, n) + count_with_path_in(dst, b, n) + count_with_path_in(dst, c, n)
            + count_unchanged_dest(src, dst, n) == n,
    decreases n,
{
    if n > 0 {
        lemma_partition_sum(src, dst, a, b, c, (n - 1) as nat);
        assert(one_if(has_path(a, dst[n - 1].path)) + one_if(has_path(b, dst[n - 1].path)) + one_if(has_path(c, dst[n - 1].path))
            + one_if(unchanged_dest(src, dst, n - 1)) == 1);
    }
}

/// The destination counts add up: unchanged, removed, modified and
/// renamed together number the destination files.
pub proof fn lemma_dest_counts(src: Seq<FileMetaView>, dst: Seq<FileMetaView>)
    requires
        files_well_formed(src),
        files_well_formed(dst),
    ensures
        diff_spec(src, dst).removed.len() + diff_spec(src, dst).modified.len() + diff_spec(src, dst).renamed.len()
            + count_unchanged_dest(src, dst, dst.len()) == dst.len(),
{
    lemma_renames_avoid_source_paths(src, dst);
    let d = diff_spec(src, dst);
    let st = diff_prefix(src, dst, src.len());
    let olds = old_sides(d.renamed);
    lemma_dest_totality(src, dst);
    lemma_facts_for_outcome(src, dst);
    lemma_dest_prefix(src, dst, src.len());
    lemma_distinct_paths_prefix(src, dst, src.len());
    lemma_removed_distinct_paths(src, dst, st.processed, dst.len());
    // each list's paths are destination paths
    assert forall|k: int| 0 <= k < d.removed.len() implies has_path(dst, #[trigger] d.removed[k].path) by {
        assert(file_in(dst, d.removed[k]));
        let jj = choose|jj: int| 0 <= jj < dst.len() && dst[jj] == d.removed[k];
        assert(dst[jj].path == d.removed[k].path);
    }
    assert forall|k: int| 0 <= k < olds.len() implies has_path(dst, #[trigger] olds[k].path) by {
        assert(olds[k] == d.renamed[k].0);
        assert(file_in(src, d.renamed[k].1));
        assert(file_in(dst, d.renamed[k].0));
        let jj = choose|jj: int| 0 <= jj < dst.len() && dst[jj] == d.renamed[k].0;
        assert(dst[jj].path == olds[k].path);
    }
    assert forall|k: int| 0 <= k < d.modified.len() implies has_path(dst, #[trigger] d.modified[k].path) by {
        assert(has_path(d.modified, d.modified[k].path));
        assert(changed_before(src, dst, src.len() as int, d.modified[k].path));
    }
    lemma_count_by_path(dst, d.removed);
    lemma_count_by_path(dst, d.modified);
    lemma_count_by_path(dst, olds);
    // membership of a destination file is membership of its path
    assert forall|j: int| 0 <= j < dst.len() implies one_if(has_path(d.removed, (#[trigger] dst[j]).path)) + one_if(
        has_path(d.modified, dst[j].path),
    ) + one_if(has_path(olds, dst[j].path)) + one_if(unchanged_dest(src, dst, j)) == 1 by {
        assert(dest_listed_count(d, dst[j]) + one_if(unchanged_dest(src, dst, j)) == 1);
        let p = dst[j].path;
        if has_path(d.removed, p) {
            let k = choose|k: int| 0 <= k < d.removed.len() && #[trigger] d.removed[k].path == p;
            assert(file_in(dst, d.removed[k]));
            let jj = choose|jj: int| 0 <= jj < dst.len() && dst[jj] == d.removed[k];
            if jj != j {
                assert(dst[jj].path != dst[j].path);
            }
            assert(d.removed.contains(dst[j]));
        }
        if d.removed.contains(dst[j]) {
            let k = choose|k: int| 0 <= k < d.removed.len() && d.removed[k] == dst[j];
            assert(d.removed[k].path == p);
        }
        if has_path(olds, p) {
            let k = choose|k: int| 0 <= k < olds.len() && #[trigger] olds[k].path == p;
            assert(olds[k] == d.renamed[k].0);
            assert(file_in(src, d.renamed[k].1));
            assert(file_in(dst, d.renamed[k].0));
            let jj = choose|jj: int| 0 <= jj < dst.len() && dst[jj] == d.renamed[k].0;
            if jj != j {
                assert(dst[jj].path != dst[j].path);
            }
            assert(olds.contains(dst[j]));
        }
        if olds.contains(dst[j]) {
            let k = choose|k: int| 0 <= k < olds.len() && olds[k] == dst[j];
            assert(olds[k].path == p);
        }
    }
    lemma_partition_sum(src, dst, d.removed, d.modified, olds, dst.len());
}

/// A source file is modified exactly when the destination holds its path
/// with other content, and only source files are modified.
pub proof fn lemma_modified_exactly(src: Seq<FileMetaView>, dst: Seq<FileMetaView>)
    requires
        files_well_formed(src),
        files_well_formed(dst),
    ensures
        forall|i: int| 0 <= i < src.len() ==> (#[trigger] diff_spec(src, dst).modified.contains(src[i]) <==> (has_path(
            dst,
            src[i].path,
        ) && dst[index_of_path(dst, src[i].path)].hash != src[i].hash)),
        forall|k: int| 0 <= k < diff_spec(src, dst).modified.len() ==> #[trigger] file_in(src, diff_spec(src, dst).modified[k]),
{
    let d = diff_spec(src, dst);
    lemma_lists_from_source(src, dst, src.len());
    lemma_dest_prefix(src, dst, src.len());
    assert forall|i: int| 0 <= i < src.len() implies (#[trigger] d.modified.contains(src[i]) <==> (has_path(dst, src[i].path)
        && dst[index_of_path(dst, src[i].path)].hash != src[i].hash)) by {
        let p = src[i].path;
        lemma_only_file_at(src, d.modified, i);
        assert(has_path(d.modified, p) <==> changed_before(src, dst, src.len() as int, p));
        if changed_before(src, dst, src.len() as int, p) {
            let i2 = choose|i2: int| 0 <= i2 < src.len() && #[trigger] src[i2].path == p && has_path(dst, p)
                && dst[index_of_path(dst, p)].hash != src[i2].hash;
            if i2 != i {
                assert(src[i2].path != src[i].path);
            }
        }
        if has_path(dst, p) && dst[index_of_path(dst, p)].hash != src[i].hash {
            assert(src[i].path == p);
            assert(changed_before(src, dst, src.len() as int, p));
        }
    }
}

/// The first best candidate among positions below `n`.
spec fn best_upto(dst: Seq<FileMetaView>, processed: Set<Seq<char>>, s: FileMetaView, n: nat) -> Option<int>
    decreases n,
{
    if n == 0 {
        None
    } else {
        let b = best_upto(dst, processed, s, (n - 1) as nat);
        let c = n - 1;
        if is_rename_candidate(dst, processed, s, c) {
            match b {
                None => Some(c),
                Some(j) => if ratio_gt(rename_score(dst, s, c), rename_score(dst, s, j)) {
                    Some(c)
                } else {
                    Some(j)
                },
            }
        } else {
            b
        }
    }
}

proof fn lemma_best_upto(dst: Seq<FileMetaView>, processed: Set<Seq<char>>, s: FileMetaView, n: nat)
    ensures
        match best_upto(dst, processed, s, n) {
            None => forall|k: int| 0 <= k < n ==> !#[trigger] is_rename_candidate(dst, processed, s, k),
            Some(j) => {
                &&& 0 <= j < n
                &&& is_rename_candidate(dst, processed, s, j)
                &&& forall|k: int| 0 <= k < n && #[trigger] is_rename_candidate(dst, processed, s, k) ==> !ratio_gt(
                    rename_score(dst, s, k),
                    rename_score(dst, s, j),
                )
                &&& forall|k: int| 0 <= k < j && #[trigger] is_rename_candidate(dst, processed, s, k) ==> ratio_gt(
                    rename_score(dst, s, j),
                    rename_score(dst, s, k),
                )
            },
        },
    decreases n,
{
    if n > 0 {
        let m = (n - 1) as nat;
        lemma_best_upto(dst, processed, s, m);
        let c = n - 1;
        if is_rename_candidate(dst, processed, s, c) {
            match best_upto(dst, processed, s, m) {
                None => {},
                Some(j) => {
                    let y = rename_score(dst, s, j);
                    let z = rename_score(dst, s, c);
                    crate::similarity::lemma_path_score_den(s.path, dst[j].path);
                    crate::similarity::lemma_path_score_den(s.path, dst[c].path);
                    if ratio_gt(z, y) {
                        assert forall|k: int| 0 <= k < n && #[trigger] is_rename_candidate(dst, processed, s, k) implies !ratio_gt(
                            rename_score(dst, s, k),
                            z,
                        ) && (k < c ==> ratio_gt(z, rename_score(dst, s, k))) by {
                            if k < c {
                                crate::similarity::lemma_path_score_den(s.path, dst[k].path);
                                lemma_ratio_chain(rename_score(dst, s, k), y, z);
                            } else {
                                assert(k == c);
                            }
                        }
                    }
                },
            }
        }
    }
}

/// Where some candidate exists, a best one does.
proof fn lemma_best_exists(dst: Seq<FileMetaView>, processed: Set<Seq<char>>, s: FileMetaView, k: int)
    requires
        is_rename_candidate(dst, processed, s, k),
    ensures
        exists|j: int| is_best_candidate(dst, processed, s, j),
{
    lemma_best_upto(dst, processed, s, dst.len());
    assert(0 <= k < dst.len());
    let j = best_upto(dst, processed, s, dst.len())->0;
    assert(is_best_candidate(dst, processed, s, j));
}

proof fn lemma_added_covered_prefix(src: Seq<FileMetaView>, dst: Seq<FileMetaView>, n: nat)
    requires
        n <= src.len(),
    ensures
        forall|k: int, j: int| 0 <= k < diff_prefix(src, dst, n).added.len() && 0 <= j < dst.len()
            && #[trigger] dst[j].hash == #[trigger] diff_prefix(src, dst, n).added[k].hash
            ==> diff_prefix(src, dst, n).processed.contains(dst[j].path),
    decreases n,
{
    if n > 0 {
        let m = (n - 1) as nat;
        lemma_added_covered_prefix(src, dst, m);
        let old = diff_prefix(src, dst, m);
        let st = diff_prefix(src, dst, n);
        let s = src[m as int];
        assert(old.processed.subset_of(st.processed));
        assert forall|k: int, j: int| 0 <= k < st.added.len() && 0 <= j < dst.len()
            && #[trigger] dst[j].hash == #[trigger] st.added[k].hash implies st.processed.contains(dst[j].path) by {
            if k < old.added.len() {
                assert(st.added[k] == old.added[k]);
            } else {
                assert(!has_path(dst, s.path));
                assert(!exists|b: int| is_best_candidate(dst, old.processed, s, b));
                assert(st.added[k] == s);
                if !old.processed.contains(dst[j].path) {
                    assert(is_rename_candidate(dst, old.processed, s, j));
                    lemma_best_exists(dst, old.processed, s, j);
                }
            }
        }
    }
}

/// No added file leaves a removed destination file of the same content
/// behind: a source file is added only when every destination file with
/// its content is accounted for.
pub proof fn lemma_added_not_removed(src: Seq<FileMetaView>, dst: Seq<FileMetaView>)
    requires
        files_well_formed(dst),
    ensures
        forall|a: int, x: int| 0 <= a < diff_spec(src, dst).added.len() && 0 <= x < diff_spec(src, dst).removed.len()
            ==> #[trigger] diff_spec(src, dst).added[a].hash != #[trigger] diff_spec(src, dst).removed[x].hash,
{
    let d = diff_spec(src, dst);
    let st = diff_prefix(src, dst, src.len());
    lemma_added_covered_prefix(src, dst, src.len());
    lemma_removed_prefix(src, dst, st.processed, dst.len());
    lemma_removed_from_dest(src, dst, st.processed, dst.len());
    assert forall|a: int, x: int| 0 <= a < d.added.len() && 0 <= x < d.removed.len()
        implies #[trigger] d.added[a].hash != #[trigger] d.removed[x].hash by {
        assert(file_in(dst, d.removed[x]));
        let j = choose|j: int| 0 <= j < dst.len() && dst[j] == d.removed[x];
        assert(d.removed.contains(dst[j]));
        assert(!st.processed.contains(dst[j].path));
        if d.added[a].hash == d.removed[x].hash {
            assert(dst[j].hash == st.added[a].hash);
        }
    }
}

} // verus!
