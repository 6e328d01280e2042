use lumadisk::model::FileEntry;
use lumadisk::scan::{file_type, is_hidden, walk_step, ScanTally, WalkStep, PROGRESS_EVERY};

fn entry(name: &str, size: u64) -> FileEntry {
    FileEntry {
        path: std::path::PathBuf::from(format!("/root/{name}")),
        display_path: format!("/root/{name}"),
        name: name.to_owned(),
        extension: "bin".to_owned(),
        size,
        modified_unix: 0,
    }
}

#[test]
fn hidden_when_some_part_starts_with_a_dot() {
    assert!(!is_hidden(&vec!["visible.txt".to_owned()]));
    assert!(is_hidden(&vec![".hidden.txt".to_owned()]));
    assert!(is_hidden(&vec![".git".to_owned(), "config".to_owned()]));
    assert!(!is_hidden(&vec!["a".to_owned(), "b.c".to_owned(), "".to_owned()]));
    assert!(!is_hidden(&vec![]));
}

#[test]
fn file_type_is_lowercase_or_no_extension() {
    assert_eq!(file_type(Some("JPG")), "jpg");
    assert_eq!(file_type(Some("Tar")), "tar");
    assert_eq!(file_type(Some("")), "no extension");
    assert_eq!(file_type(None), "no extension");
    assert_eq!(file_type(Some("ÉXT")), "Éxt");
}

#[test]
fn tally_orders_files_and_saturates_total() {
    let mut tally = ScanTally::new();
    assert!(!tally.record_file(entry("small", 10)));
    assert!(!tally.record_file(entry("big", 300)));
    tally.record_skip();
    assert!(!tally.record_file(entry("mid", 20)));
    let (files, total, skipped) = tally.finish();
    let names: Vec<&str> = files.iter().map(|f| f.name.as_str()).collect();
    assert_eq!(names, vec!["big", "mid", "small"]);
    assert_eq!(total, 330);
    assert_eq!(skipped, 1);

    let mut huge = ScanTally::new();
    huge.record_file(entry("a", u64::MAX - 1));
    huge.record_file(entry("b", 5));
    assert_eq!(huge.total_bytes, u64::MAX);
}

#[test]
fn tally_reports_progress_every_thousand_files() {
    let mut tally = ScanTally::new();
    let mut reports = Vec::new();
    for i in 0..2500u64 {
        if tally.record_file(entry("f", i)) {
            reports.push(tally.files.len());
        }
    }
    assert_eq!(PROGRESS_EVERY, 1000);
    assert_eq!(reports, vec![1000, 2000]);
}

#[test]
fn walk_step_skips_ignores_or_reads() {
    let plain = vec!["docs".to_owned(), "a.txt".to_owned()];
    let hidden = vec![".cache".to_owned(), "a.txt".to_owned()];
    assert!(matches!(walk_step(false, false, false, &Vec::new()), WalkStep::Skip));
    assert!(matches!(walk_step(true, false, true, &plain), WalkStep::Ignore));
    assert!(matches!(walk_step(true, true, false, &hidden), WalkStep::Ignore));
    assert!(matches!(walk_step(true, true, true, &hidden), WalkStep::ReadMetadata));
    assert!(matches!(walk_step(true, true, false, &plain), WalkStep::ReadMetadata));
}
