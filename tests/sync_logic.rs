use janice::diff::diff_scans;
use janice::errors::SyncError;
use janice::hash::hash_bytes;
use janice::journal::{orphaned_temps, parse_journal, parse_line, split_bytes, JournalOp, JournalRecord, RecordKind};
use janice::model::{FileMeta, ScanResult, SyncOptions, Timestamp};
use janice::plan::{exclude_globs, needs_sync, plan_sync, temp_file_name, SyncOp, JOURNAL_FILE_NAME, TEMP_DIR_NAME};
use janice::scan::collect_scan;
use janice::similarity::{path_similarity, simple_string_similarity, Similarity};
use janice::text::chars_of;

fn ratio(s: Similarity) -> f64 {
    s.num as f64 / s.den as f64
}

fn meta(path: &str, content: &[u8]) -> FileMeta {
    FileMeta {
        path: path.to_string(),
        size: content.len() as u64,
        mtime: Timestamp { secs: 1_600_000_000, nanos: 5 },
        hash: hash_bytes(content),
        permissions: Some(0o644),
    }
}

fn scan(files: Vec<FileMeta>) -> ScanResult {
    ScanResult { root: "/r".to_string(), files, scan_time: Timestamp { secs: 0, nanos: 0 } }
}

fn paths(files: &[FileMeta]) -> Vec<String> {
    files.iter().map(|f| f.path.clone()).collect()
}

#[test]
fn test_path_similarity() {
    assert!(ratio(path_similarity("dir1/file.txt", "dir2/file.txt")) > 0.9);

    let score = ratio(path_similarity("dir/foo.txt", "dir/bar.txt"));
    assert!(score > 0.3);
    assert!(score < 0.75);
}

#[test]
fn test_string_similarity() {
    assert_eq!(ratio(simple_string_similarity("hello", "hello")), 1.0);
    assert_eq!(ratio(simple_string_similarity("", "")), 1.0);
    assert!(ratio(simple_string_similarity("hello", "hallo")) > 0.5);
}

#[test]
fn similarity_values_are_exact() {
    let s = path_similarity("dir/foo.txt", "dir/bar.txt");
    assert_eq!((s.num, s.den), (49, 70));
    let s = path_similarity("dir1/File.TXT", "dir2/file.txt");
    assert_eq!((s.num, s.den), (19, 20));
    let s = path_similarity("a.md", "a.txt");
    assert_eq!((s.num, s.den), (29, 50));
    let s = path_similarity("x/a", "y/b");
    assert_eq!(s.num, 0);
    let j = simple_string_similarity("hello", "hallo");
    assert_eq!((j.num, j.den), (3, 5));
    let j = simple_string_similarity("", "abc");
    assert_eq!(j.num, 0);
}

#[test]
fn scenario_added_file() {
    let d = diff_scans(&scan(vec![meta("a.txt", b"hello")]), &scan(vec![])).unwrap();
    assert_eq!(paths(&d.added), vec!["a.txt"]);
    assert!(d.removed.is_empty() && d.modified.is_empty() && d.renamed.is_empty());
}

#[test]
fn scenario_modified_file() {
    let d = diff_scans(&scan(vec![meta("a.txt", b"v2")]), &scan(vec![meta("a.txt", b"v1")])).unwrap();
    assert_eq!(paths(&d.modified), vec!["a.txt"]);
    assert_eq!(d.modified[0].hash, hash_bytes(b"v2"));
    assert!(d.added.is_empty() && d.removed.is_empty() && d.renamed.is_empty());
}

#[test]
fn scenario_renamed_file() {
    let d = diff_scans(&scan(vec![meta("new.txt", b"X")]), &scan(vec![meta("old.txt", b"X")])).unwrap();
    assert_eq!(d.renamed.len(), 1);
    assert_eq!(d.renamed[0].0.path, "old.txt");
    assert_eq!(d.renamed[0].1.path, "new.txt");
    assert!(d.added.is_empty() && d.removed.is_empty() && d.modified.is_empty());
}

#[test]
fn scenario_removed_file() {
    let d = diff_scans(&scan(vec![]), &scan(vec![meta("a.txt", b"x")])).unwrap();
    assert_eq!(paths(&d.removed), vec!["a.txt"]);
    let keep = plan_sync(&d, &SyncOptions::default());
    assert!(keep.is_empty());
    let opts = SyncOptions { delete_removed: true, ..SyncOptions::default() };
    let ops = plan_sync(&d, &opts);
    assert_eq!(ops.len(), 1);
    assert!(matches!(&ops[0], SyncOp::Delete(f) if f.path == "a.txt"));
}

#[test]
fn scenario_rename_prefers_the_closer_path() {
    let d = diff_scans(
        &scan(vec![meta("a.md", b"X")]),
        &scan(vec![meta("a.txt", b"X"), meta("b.txt", b"X")]),
    )
    .unwrap();
    assert_eq!(d.renamed.len(), 1);
    assert_eq!(d.renamed[0].0.path, "a.txt");
    assert_eq!(paths(&d.removed), vec!["b.txt"]);
}

#[test]
fn scenario_case_only_rename() {
    let d = diff_scans(&scan(vec![meta("Doc.txt", b"X")]), &scan(vec![meta("doc.txt", b"X")])).unwrap();
    assert_eq!(d.renamed.len(), 1);
    assert_eq!(d.renamed[0].0.path, "doc.txt");
    assert_eq!(d.renamed[0].1.path, "Doc.txt");
}

#[test]
fn equal_scores_keep_the_first_candidate() {
    let d = diff_scans(
        &scan(vec![meta("c.txt", b"X")]),
        &scan(vec![meta("a.txt", b"X"), meta("b.txt", b"X")]),
    )
    .unwrap();
    assert_eq!(d.renamed[0].0.path, "a.txt");
    assert_eq!(paths(&d.removed), vec!["b.txt"]);
}

#[test]
fn zero_similarity_still_renames() {
    let d = diff_scans(&scan(vec![meta("x/a", b"X")]), &scan(vec![meta("y/b", b"X")])).unwrap();
    assert_eq!(d.renamed.len(), 1);
    assert_eq!(d.renamed[0].0.path, "y/b");
    assert_eq!(d.renamed[0].1.path, "x/a");
    assert!(d.added.is_empty() && d.removed.is_empty());
    let d = diff_scans(&scan(vec![meta("ab", b"Z")]), &scan(vec![meta("y/cd", b"Z")])).unwrap();
    assert_eq!(d.renamed.len(), 1);
    assert!(d.added.is_empty() && d.removed.is_empty());
}

#[test]
fn every_source_file_is_classified_once() {
    let src = vec![
        meta("keep.txt", b"same"),
        meta("mod.txt", b"new"),
        meta("moved.txt", b"moved"),
        meta("fresh.txt", b"fresh"),
    ];
    let dst = vec![
        meta("keep.txt", b"same"),
        meta("mod.txt", b"old"),
        meta("was.txt", b"moved"),
        meta("gone.txt", b"gone"),
    ];
    let d = diff_scans(&scan(src.clone()), &scan(dst.clone())).unwrap();
    let unchanged = 1;
    assert_eq!(d.added.len() + d.modified.len() + d.renamed.len() + unchanged, src.len());
    assert_eq!(d.removed.len() + d.modified.len() + d.renamed.len() + unchanged, dst.len());
    for (old, new) in &d.renamed {
        assert_eq!(old.hash, new.hash);
        assert_ne!(old.path, new.path);
        assert!(!dst.iter().any(|f| f.path == new.path));
        assert!(!src.iter().any(|f| f.path == old.path));
    }
}

#[test]
fn a_destination_file_at_a_source_path_is_no_rename_candidate() {
    let src = vec![meta("b", b"X"), meta("a", b"Y")];
    let dst = vec![meta("a", b"X")];
    let d = diff_scans(&scan(src), &scan(dst)).unwrap();
    assert!(d.renamed.is_empty());
    assert_eq!(paths(&d.added), vec!["b"]);
    assert_eq!(paths(&d.modified), vec!["a"]);
    assert!(d.removed.is_empty());

    let src = vec![meta("b", b"X"), meta("a", b"X")];
    let dst = vec![meta("a", b"X")];
    let d = diff_scans(&scan(src), &scan(dst)).unwrap();
    assert!(d.renamed.is_empty() && d.modified.is_empty() && d.removed.is_empty());
    assert_eq!(paths(&d.added), vec!["b"]);
}

#[test]
fn well_formedness_is_checked() {
    assert!(scan(vec![meta("a", b"1"), meta("b", b"1")]).is_well_formed());
    assert!(!scan(vec![meta("a", b"1"), meta("a", b"2")]).is_well_formed());
    assert!(scan(vec![]).is_well_formed());
}

#[test]
fn total_size_sums_the_files() {
    let s = scan(vec![meta("a", b"12345"), meta("b", b"123")]);
    assert_eq!(s.total_size(), 8);
    assert_eq!(scan(vec![]).total_size(), 0);
}

#[test]
fn default_options() {
    let o = SyncOptions::default();
    assert!(!o.delete_removed);
    assert!(o.preserve_timestamps);
    assert!(!o.verify_after_copy);
}

#[test]
fn plan_orders_copies_renames_then_deletes() {
    let d = diff_scans(
        &scan(vec![meta("n.txt", b"R"), meta("m.txt", b"2"), meta("add.txt", b"A")]),
        &scan(vec![meta("o.txt", b"R"), meta("m.txt", b"1"), meta("del.txt", b"D")]),
    )
    .unwrap();
    let opts = SyncOptions { delete_removed: true, preserve_timestamps: true, verify_after_copy: false };
    let ops = plan_sync(&d, &opts);
    assert_eq!(ops.len(), 4);
    assert!(matches!(&ops[0], SyncOp::Copy(f) if f.path == "add.txt"));
    assert!(matches!(&ops[1], SyncOp::Copy(f) if f.path == "m.txt" && f.hash == hash_bytes(b"2")));
    assert!(matches!(&ops[2], SyncOp::Rename(o, n) if o.path == "o.txt" && n.path == "n.txt"));
    assert!(matches!(&ops[3], SyncOp::Delete(f) if f.path == "del.txt"));
}

#[test]
fn temp_names_hold_pid_and_counter() {
    assert_eq!(temp_file_name(4242, 0), "4242-0.tmp");
    assert_eq!(temp_file_name(7, 1234567890123), "7-1234567890123.tmp");
    assert_eq!(TEMP_DIR_NAME, ".jan-tmp");
    assert_eq!(JOURNAL_FILE_NAME, ".jan-journal");
}

#[test]
fn exclusions_negate_patterns_and_cover_internal_files() {
    let globs = exclude_globs(&vec!["*.log".to_string(), "target/".to_string()]);
    assert_eq!(globs, vec!["!*.log", "!target/", "!/.jan-tmp/", "!/.jan-journal"]);
}

fn record(kind: RecordKind, op: JournalOp, temp: &str, target: &str) -> JournalRecord {
    JournalRecord { kind, op, temp: temp.as_bytes().to_vec(), target: target.as_bytes().to_vec() }
}

#[test]
fn journal_lines_round_trip() {
    let r = record(RecordKind::Pending, JournalOp::Copy, "/d/.jan-tmp/1-0.tmp", "/d/a.txt");
    let bytes = r.encode();
    assert_eq!(bytes, b"P\tCOPY\t/d/.jan-tmp/1-0.tmp\t/d/a.txt\n".to_vec());
    let back = parse_line(&bytes[..bytes.len() - 1]).unwrap();
    assert_eq!(back.kind, RecordKind::Pending);
    assert_eq!(back.op, JournalOp::Copy);
    assert_eq!(back.temp, r.temp);
    assert_eq!(back.target, r.target);
    let c = record(RecordKind::Committed, JournalOp::Rename, "t", "f").encode();
    assert_eq!(c, b"C\tRENAME\tt\tf\n".to_vec());
}

#[test]
fn malformed_lines_hold_no_record() {
    assert!(parse_line(b"").is_none());
    assert!(parse_line(b"X\tCOPY\ta\tb").is_none());
    assert!(parse_line(b"P\tMOVE\ta\tb").is_none());
    assert!(parse_line(b"P\tCOPY\ta").is_none());
    assert!(parse_line(b"P\tCOPY\ta\tb\tc").is_none());
    assert_eq!(split_bytes(b"a\tb\t", b'\t'), vec![b"a".to_vec(), b"b".to_vec(), vec![]]);
}

#[test]
fn recovery_deletes_uncommitted_temps() {
    let mut journal = Vec::new();
    journal.extend(record(RecordKind::Pending, JournalOp::Copy, "t1", "a").encode());
    journal.extend(record(RecordKind::Pending, JournalOp::Rename, "t2", "b").encode());
    journal.extend(record(RecordKind::Committed, JournalOp::Copy, "t1", "a").encode());
    journal.extend(record(RecordKind::Pending, JournalOp::Copy, "t3", "c").encode());
    journal.extend_from_slice(b"P\tCOPY\tt4");
    let records = parse_journal(&journal);
    assert_eq!(records.len(), 4);
    let orphans = orphaned_temps(&records);
    assert_eq!(orphans, vec![b"t2".to_vec(), b"t3".to_vec()]);
    assert!(orphaned_temps(&parse_journal(b"")).is_empty());
}

#[test]
fn a_commit_of_another_operation_does_not_count() {
    let mut journal = Vec::new();
    journal.extend(record(RecordKind::Pending, JournalOp::Copy, "t1", "a").encode());
    journal.extend(record(RecordKind::Committed, JournalOp::Rename, "t1", "a").encode());
    let orphans = orphaned_temps(&parse_journal(&journal));
    assert_eq!(orphans, vec![b"t1".to_vec()]);
}

#[test]
fn scans_keep_what_was_read() {
    let entries = vec![
        Ok(meta("a", b"1")),
        Err(SyncError::HashError("gone".to_string())),
        Ok(meta("b", b"2")),
        Err(SyncError::Io("denied".to_string())),
    ];
    let (s, errors) = collect_scan("/root".to_string(), entries, Timestamp { secs: 9, nanos: 1 });
    assert_eq!(errors, 2);
    assert_eq!(paths(&s.files), vec!["a", "b"]);
    assert_eq!(s.root, "/root");
    assert_eq!(s.scan_time, Timestamp { secs: 9, nanos: 1 });
}

#[test]
fn chars_follow_the_string() {
    assert_eq!(chars_of("a文b"), vec!['a', '文', 'b']);
}

#[test]
fn file_meta_equality_covers_all_fields() {
    let a = meta("a", b"1");
    let mut b = a.duplicate();
    assert!(a == b);
    b.permissions = None;
    assert!(a != b);
}

#[test]
fn a_shared_path_is_copied_and_never_removed() {
    let src = vec![meta("b", b"X"), meta("a", b"Y")];
    let dst = vec![meta("a", b"X")];
    let d = diff_scans(&scan(src), &scan(dst)).unwrap();
    let opts = SyncOptions { delete_removed: true, ..SyncOptions::default() };
    let ops = plan_sync(&d, &opts);
    assert_eq!(ops.len(), 2);
    assert!(matches!(&ops[0], SyncOp::Copy(f) if f.path == "b"));
    assert!(matches!(&ops[1], SyncOp::Copy(f) if f.path == "a" && f.hash == hash_bytes(b"Y")));
    assert!(needs_sync(&d, false));
}

#[test]
fn nothing_to_do_when_in_sync() {
    let files = vec![meta("a", b"1")];
    let d = diff_scans(&scan(files.clone()), &scan(files)).unwrap();
    assert!(!needs_sync(&d, true));
    let d = diff_scans(&scan(vec![]), &scan(vec![meta("x", b"1")])).unwrap();
    assert!(!needs_sync(&d, false));
    assert!(needs_sync(&d, true));
}
