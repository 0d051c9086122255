use fiso::scan::{aggregate, extension_label, scan, stale_threshold, EntryKind, EntryRecord,
    ScanSummary};

fn file(depth: u64, name: &str, size: u64, modified: u64) -> EntryRecord {
    EntryRecord {
        depth,
        kind: EntryKind::File,
        name: name.to_string(),
        size: Some(size),
        modified: Some(modified),
    }
}

fn dir(depth: u64, name: &str) -> EntryRecord {
    EntryRecord {
        depth,
        kind: EntryKind::Directory,
        name: name.to_string(),
        size: None,
        modified: None,
    }
}

fn sample_tree() -> Vec<EntryRecord> {
    vec![
        dir(0, "root"),
        file(1, "a.txt", 100, 5000),
        file(1, "b.txt", 50, 5000),
        file(1, "c", 10, 5000),
        dir(1, "d"),
        file(2, "e.log", 5, 5000),
    ]
}

fn count_of(s: &ScanSummary, key: &str) -> Option<u64> {
    s.extensions
        .iter()
        .find(|b| b.name == key)
        .map(|b| b.count)
}

#[test]
fn flat_scan_counts_direct_children_only() {
    let summary = aggregate(&sample_tree(), false, 1000);
    assert_eq!(summary.file_count, 3);
    assert_eq!(summary.directory_count, 1);
    assert_eq!(summary.total_bytes, 160);
    assert_eq!(summary.old_files, 0);
    assert_eq!(summary.extensions.len(), 2);
    assert_eq!(count_of(&summary, ".txt"), Some(2));
    assert_eq!(count_of(&summary, "Other"), Some(1));
}

#[test]
fn recursive_scan_counts_every_depth() {
    let summary = aggregate(&sample_tree(), true, 1000);
    assert_eq!(summary.file_count, 4);
    assert_eq!(summary.directory_count, 1);
    assert_eq!(summary.total_bytes, 165);
    assert_eq!(summary.old_files, 0);
    assert_eq!(summary.extensions.len(), 3);
    assert_eq!(count_of(&summary, ".txt"), Some(2));
    assert_eq!(count_of(&summary, "Other"), Some(1));
    assert_eq!(count_of(&summary, ".log"), Some(1));
}

#[test]
fn root_itself_is_never_counted() {
    let entries = vec![dir(0, "root")];
    let summary = aggregate(&entries, true, 1000);
    assert_eq!(summary.directory_count, 0);
    assert_eq!(summary.file_count, 0);
}

#[test]
fn other_kind_entries_change_nothing() {
    let entries = vec![EntryRecord {
        depth: 1,
        kind: EntryKind::Other,
        name: "socket".to_string(),
        size: Some(99),
        modified: Some(1),
    }];
    let summary = aggregate(&entries, true, 1000);
    assert_eq!(summary.file_count, 0);
    assert_eq!(summary.directory_count, 0);
    assert_eq!(summary.total_bytes, 0);
    assert_eq!(summary.extensions.len(), 0);
}

#[test]
fn unreadable_metadata_still_counted_without_bytes_or_staleness() {
    let entries = vec![EntryRecord {
        depth: 1,
        kind: EntryKind::File,
        name: "mystery.bin".to_string(),
        size: None,
        modified: None,
    }];
    let summary = aggregate(&entries, false, u64::MAX);
    assert_eq!(summary.file_count, 1);
    assert_eq!(summary.total_bytes, 0);
    assert_eq!(summary.old_files, 0);
    assert_eq!(count_of(&summary, ".bin"), Some(1));
}

#[test]
fn stale_files_use_strict_threshold_comparison() {
    let now = 20_000_000u64;
    let threshold = stale_threshold(now);
    assert_eq!(threshold, now - 180 * 24 * 60 * 60);
    let entries = vec![
        file(1, "old.txt", 1, now - 200 * 24 * 60 * 60),
        file(1, "new.txt", 1, now - 10 * 24 * 60 * 60),
        file(1, "boundary.txt", 1, threshold),
    ];
    let summary = aggregate(&entries, false, threshold);
    assert_eq!(summary.file_count, 3);
    assert_eq!(summary.old_files, 1);
}

#[test]
fn stale_threshold_saturates_at_epoch() {
    assert_eq!(stale_threshold(5), 0);
    assert_eq!(stale_threshold(0), 0);
}

#[test]
fn file_count_matches_extension_histogram_total() {
    let summary = aggregate(&sample_tree(), true, 1000);
    let total: u64 = summary.extensions.iter().map(|b| b.count).sum();
    assert_eq!(summary.file_count, total);
    assert!(summary.old_files <= summary.file_count);
}

#[test]
fn extension_label_cases() {
    assert_eq!(extension_label("a.txt"), ".txt");
    assert_eq!(extension_label("archive.tar.gz"), ".gz");
    assert_eq!(extension_label("c"), "Other");
    assert_eq!(extension_label(""), "Other");
    assert_eq!(extension_label(".bashrc"), ".bashrc");
    assert_eq!(extension_label("trailing."), ".");
    assert_eq!(extension_label("UPPER.TXT"), ".TXT");
}

#[test]
fn missing_root_yields_error_and_no_report() {
    let entries: Vec<EntryRecord> = Vec::new();
    let result = scan("no/such/dir", false, &entries, false, 1000, 10, 0);
    match result {
        Ok(_) => panic!("a missing root must not produce a report"),
        Err(e) => {
            assert_eq!(
                e.message(),
                "Scan root not found or not a directory: no/such/dir"
            );
        }
    }
}

#[test]
fn valid_root_yields_report() {
    let result = scan("root", true, &sample_tree(), false, 1000, 10, 7);
    assert!(result.is_ok());
}

#[test]
fn streaming_record_matches_whole_aggregation() {
    let entries = sample_tree();
    let mut streamed = ScanSummary::new();
    for e in &entries {
        streamed.record(e, true, 1000);
    }
    let folded = aggregate(&entries, true, 1000);
    assert_eq!(streamed.file_count, folded.file_count);
    assert_eq!(streamed.directory_count, folded.directory_count);
    assert_eq!(streamed.total_bytes, folded.total_bytes);
    assert_eq!(streamed.old_files, folded.old_files);
    assert_eq!(streamed.extensions.len(), folded.extensions.len());
    for (a, b) in streamed.extensions.iter().zip(folded.extensions.iter()) {
        assert_eq!(a.name, b.name);
        assert_eq!(a.count, b.count);
    }
}
