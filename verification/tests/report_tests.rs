use fiso::cli::sort_message;
use fiso::render::{sort_by_count_desc, u64_to_string};
use fiso::scan::{aggregate, scan, EntryKind, EntryRecord, ExtCount, ScanSummary};

fn file(depth: u64, name: &str, size: u64, modified: u64) -> EntryRecord {
    EntryRecord {
        depth,
        kind: EntryKind::File,
        name: name.to_string(),
        size: Some(size),
        modified: Some(modified),
    }
}

fn dir(depth: u64, name: &str) -> EntryRecord {
    EntryRecord {
        depth,
        kind: EntryKind::Directory,
        name: name.to_string(),
        size: None,
        modified: None,
    }
}

fn sample_tree() -> Vec<EntryRecord> {
    vec![
        dir(0, "root"),
        file(1, "a.txt", 100, 5000),
        file(1, "b.txt", 50, 5000),
        file(1, "c", 10, 5000),
        dir(1, "d"),
        file(2, "e.log", 5, 5000),
    ]
}

#[test]
fn u64_rendering_is_exact() {
    assert_eq!(u64_to_string(0), "0");
    assert_eq!(u64_to_string(7), "7");
    assert_eq!(u64_to_string(42), "42");
    assert_eq!(u64_to_string(1000), "1000");
    assert_eq!(u64_to_string(u64::MAX), "18446744073709551615");
}

#[test]
fn flat_report_is_byte_exact() {
    let report = scan("root", true, &sample_tree(), false, 1000, 10, 7).unwrap();
    let expected = "Scan Summary\n-----------------------\nFiles       :         3\nDirectories :         1\nSize        : 160 bytes\nOld files   :         0\n-----------------------\n\nTop Extensions\n---------\n.txt  : 2\nOther : 1\n---------\nScan took 7 ms.\n";
    assert_eq!(report, expected);
}

#[test]
fn recursive_report_is_byte_exact() {
    let report = scan("root", true, &sample_tree(), true, 1000, 10, 12).unwrap();
    let expected = "Scan Summary\n-----------------------\nFiles       :         4\nDirectories :         1\nSize        : 165 bytes\nOld files   :         0\n-----------------------\n\nTop Extensions\n---------\n.txt  : 2\nOther : 1\n.log  : 1\n---------\nScan took 12 ms.\n";
    assert_eq!(report, expected);
}

#[test]
fn empty_summary_still_renders() {
    let summary = ScanSummary::new();
    let report = summary.render_summary(5, 0);
    let expected = "Scan Summary\n---------------------\nFiles       :       0\nDirectories :       0\nSize        : 0 bytes\nOld files   :       0\n---------------------\n\nTop Extensions\n---\n---\nScan took 0 ms.\n";
    assert_eq!(report, expected);
}

#[test]
fn extension_table_is_capped_and_sorted() {
    let mut entries = vec![dir(0, "root")];
    for i in 0..3 {
        entries.push(file(1, &format!("f{i}.aa"), 1, 5000));
    }
    for i in 0..2 {
        entries.push(file(1, &format!("g{i}.bb"), 1, 5000));
    }
    entries.push(file(1, "h.cc", 1, 5000));
    let summary = aggregate(&entries, false, 1000);
    let report = summary.render_summary(2, 0);
    let table = report.split("\nTop Extensions\n").nth(1).unwrap();
    let rows: Vec<&str> = table
        .lines()
        .filter(|l| l.contains(" : "))
        .collect();
    assert_eq!(rows, vec![".aa : 3", ".bb : 2"]);
    assert!(!table.contains(".cc"));
}

#[test]
fn sort_is_stable_for_equal_counts() {
    let buckets = vec![
        ExtCount { name: ".first".to_string(), count: 2 },
        ExtCount { name: ".second".to_string(), count: 5 },
        ExtCount { name: ".third".to_string(), count: 2 },
    ];
    let sorted = sort_by_count_desc(&buckets);
    let names: Vec<&str> = sorted.iter().map(|b| b.name.as_str()).collect();
    assert_eq!(names, vec![".second", ".first", ".third"]);
}

#[test]
fn rerun_differs_only_in_elapsed_trailer() {
    let r1 = scan("root", true, &sample_tree(), true, 1000, 10, 3).unwrap();
    let r2 = scan("root", true, &sample_tree(), true, 1000, 10, 9999).unwrap();
    let cut1 = r1.find("Scan took ").unwrap();
    let cut2 = r2.find("Scan took ").unwrap();
    assert_eq!(&r1[..cut1], &r2[..cut2]);
    assert_ne!(r1, r2);
}

#[test]
fn sort_acknowledgement_text() {
    assert_eq!(
        sort_message("music", "~/.fiso/rules.yml"),
        "Sorting directory music\nWith rules from ~/.fiso/rules.yml"
    );
}
