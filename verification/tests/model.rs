use lumadisk::model::{DuplicateGroup, FileEntry, ScanResult};
use std::path::{Path, PathBuf};

fn file(name: &str, size: u64) -> FileEntry {
    FileEntry {
        path: PathBuf::from(name),
        display_path: name.to_owned(),
        name: name.to_owned(),
        extension: "bin".to_owned(),
        size,
        modified_unix: 0,
    }
}

#[test]
fn removing_duplicate_keeps_other_groups_and_reindexes_them() {
    let mut result = ScanResult {
        files: vec![file("a", 10), file("b", 10), file("c", 20), file("d", 20)],
        duplicate_groups: vec![
            DuplicateGroup {
                size_each: 10,
                file_indices: vec![0, 1],
            },
            DuplicateGroup {
                size_each: 20,
                file_indices: vec![2, 3],
            },
        ],
        total_bytes: 60,
        ..Default::default()
    };

    assert!(result.remove_file(PathBuf::from("b").as_path()));
    assert_eq!(result.files.len(), 3);
    assert_eq!(result.total_bytes, 50);
    assert_eq!(result.duplicate_groups.len(), 1);
    assert_eq!(result.duplicate_groups[0].file_indices, vec![1, 2]);
    assert_eq!(result.files[1].name, "c");
    assert_eq!(result.files[2].name, "d");
}

#[test]
fn reclaimable_counts_every_copy_but_one() {
    let group = DuplicateGroup {
        size_each: 100,
        file_indices: vec![3, 5, 9],
    };
    assert_eq!(group.reclaimable(), 200);
    let single = DuplicateGroup {
        size_each: 100,
        file_indices: vec![4],
    };
    assert_eq!(single.reclaimable(), 0);
    let empty = DuplicateGroup {
        size_each: 100,
        file_indices: vec![],
    };
    assert_eq!(empty.reclaimable(), 0);
}

#[test]
fn reclaimable_saturates_instead_of_overflowing() {
    let group = DuplicateGroup {
        size_each: u64::MAX / 2 + 1,
        file_indices: vec![0, 1, 2],
    };
    assert_eq!(group.reclaimable(), u64::MAX);
}

#[test]
fn duplicate_bytes_adds_up_every_group() {
    let result = ScanResult {
        files: vec![file("a", 10), file("b", 10), file("c", 7), file("d", 7), file("e", 7)],
        duplicate_groups: vec![
            DuplicateGroup {
                size_each: 10,
                file_indices: vec![0, 1],
            },
            DuplicateGroup {
                size_each: 7,
                file_indices: vec![2, 3, 4],
            },
        ],
        total_bytes: 41,
        ..Default::default()
    };
    assert_eq!(result.duplicate_bytes(), 24);
    assert_eq!(ScanResult::default().duplicate_bytes(), 0);
}

#[test]
fn removing_an_unknown_path_changes_nothing() {
    let mut result = ScanResult {
        files: vec![file("a", 10), file("b", 10)],
        duplicate_groups: vec![DuplicateGroup {
            size_each: 10,
            file_indices: vec![0, 1],
        }],
        total_bytes: 20,
        skipped: 2,
        elapsed_ms: 5,
    };
    assert!(!result.remove_file(Path::new("zzz")));
    assert_eq!(result.files.len(), 2);
    assert_eq!(result.total_bytes, 20);
    assert_eq!(result.duplicate_groups.len(), 1);
    assert_eq!(result.duplicate_groups[0].file_indices, vec![0, 1]);
    assert_eq!(result.skipped, 2);
}

#[test]
fn removal_shifts_later_positions_and_reorders_groups() {
    // Groups before removal: 5-byte files at 1, 3, 5 (reclaims 10) and
    // 30-byte files at 2, 4 (reclaims 30). Removing "x" at position 0 moves
    // every position down by one; removing a 30-byte copy then drops that group.
    let mut result = ScanResult {
        files: vec![
            file("x", 1),
            file("p", 5),
            file("q", 30),
            file("r", 5),
            file("s", 30),
            file("t", 5),
        ],
        duplicate_groups: vec![
            DuplicateGroup {
                size_each: 30,
                file_indices: vec![2, 4],
            },
            DuplicateGroup {
                size_each: 5,
                file_indices: vec![1, 3, 5],
            },
        ],
        total_bytes: 76,
        ..Default::default()
    };
    assert!(result.remove_file(Path::new("x")));
    assert_eq!(result.total_bytes, 75);
    assert_eq!(result.duplicate_groups.len(), 2);
    assert_eq!(result.duplicate_groups[0].size_each, 30);
    assert_eq!(result.duplicate_groups[0].file_indices, vec![1, 3]);
    assert_eq!(result.duplicate_groups[1].file_indices, vec![0, 2, 4]);

    assert!(result.remove_file(Path::new("s")));
    assert_eq!(result.duplicate_groups.len(), 1);
    assert_eq!(result.duplicate_groups[0].file_indices, vec![0, 2, 3]);
    assert_eq!(result.files[3].name, "t");
    for group in &result.duplicate_groups {
        for &index in &group.file_indices {
            assert_eq!(result.files[index].size, group.size_each);
        }
    }
}

#[test]
fn removal_holds_total_at_zero() {
    let mut result = ScanResult {
        files: vec![file("a", 10)],
        total_bytes: 4,
        ..Default::default()
    };
    assert!(result.remove_file(Path::new("a")));
    assert_eq!(result.total_bytes, 0);
    assert!(result.files.is_empty());
}

#[test]
fn removal_takes_the_first_of_equal_paths() {
    let mut result = ScanResult {
        files: vec![file("a", 1), file("b", 2), file("b", 3)],
        total_bytes: 6,
        ..Default::default()
    };
    assert!(result.remove_file(Path::new("b")));
    assert_eq!(result.files.len(), 2);
    assert_eq!(result.files[1].size, 3);
    assert_eq!(result.total_bytes, 4);
}

#[test]
fn removal_finds_a_path_written_another_way() {
    let mut result = ScanResult {
        files: vec![file("dir/a", 5), file("dir/b", 7)],
        total_bytes: 12,
        ..Default::default()
    };
    assert!(result.remove_file(Path::new("dir//b/")));
    assert_eq!(result.files.len(), 1);
    assert_eq!(result.files[0].name, "dir/a");
    assert_eq!(result.total_bytes, 5);
}

#[test]
fn removal_lowers_duplicate_bytes_by_one_copy() {
    let mut result = ScanResult {
        files: vec![file("a", 10), file("b", 10), file("c", 20), file("d", 20)],
        duplicate_groups: vec![
            DuplicateGroup {
                size_each: 20,
                file_indices: vec![2, 3],
            },
            DuplicateGroup {
                size_each: 10,
                file_indices: vec![0, 1],
            },
        ],
        total_bytes: 60,
        ..Default::default()
    };
    assert_eq!(result.duplicate_bytes(), 30);
    assert!(result.remove_file(Path::new("b")));
    assert_eq!(result.duplicate_bytes(), 20);

    let mut three = ScanResult {
        files: vec![file("x", 5), file("y", 5), file("z", 5), file("w", 1)],
        duplicate_groups: vec![DuplicateGroup {
            size_each: 5,
            file_indices: vec![0, 1, 2],
        }],
        total_bytes: 16,
        ..Default::default()
    };
    assert_eq!(three.duplicate_bytes(), 10);
    assert!(three.remove_file(Path::new("w")));
    assert_eq!(three.duplicate_bytes(), 10);
    assert!(three.remove_file(Path::new("y")));
    assert_eq!(three.duplicate_bytes(), 5);
    assert_eq!(three.duplicate_groups[0].file_indices, vec![0, 1]);
}

#[test]
fn removal_keeps_groups_apart() {
    let mut result = ScanResult {
        files: vec![file("a", 3), file("b", 4), file("c", 3), file("d", 4), file("e", 3)],
        duplicate_groups: vec![
            DuplicateGroup {
                size_each: 3,
                file_indices: vec![0, 2, 4],
            },
            DuplicateGroup {
                size_each: 4,
                file_indices: vec![1, 3],
            },
        ],
        total_bytes: 17,
        ..Default::default()
    };
    assert!(result.remove_file(Path::new("c")));
    let mut seen = Vec::new();
    for group in &result.duplicate_groups {
        for index in &group.file_indices {
            assert!(!seen.contains(index));
            seen.push(*index);
        }
    }
    assert_eq!(seen.len(), 4);
}

#[test]
fn remove_at_drops_the_file_at_a_position() {
    let mut result = ScanResult {
        files: vec![file("a", 10), file("b", 10), file("c", 10)],
        duplicate_groups: vec![DuplicateGroup {
            size_each: 10,
            file_indices: vec![0, 1, 2],
        }],
        total_bytes: 30,
        ..Default::default()
    };
    result.remove_at(0);
    assert_eq!(result.files.len(), 2);
    assert_eq!(result.files[0].name, "b");
    assert_eq!(result.total_bytes, 20);
    assert_eq!(result.duplicate_groups[0].file_indices, vec![0, 1]);
    assert_eq!(result.duplicate_bytes(), 10);
}

#[test]
fn removing_the_same_path_twice_finds_nothing_the_second_time() {
    let mut result = ScanResult {
        files: vec![file("a", 10), file("b", 10), file("c", 20), file("d", 20)],
        duplicate_groups: vec![
            DuplicateGroup {
                size_each: 10,
                file_indices: vec![0, 1],
            },
            DuplicateGroup {
                size_each: 20,
                file_indices: vec![2, 3],
            },
        ],
        total_bytes: 60,
        ..Default::default()
    };
    assert!(result.remove_file(Path::new("b")));
    let files_after = result.files.len();
    let total_after = result.total_bytes;
    assert!(!result.remove_file(Path::new("b")));
    assert_eq!(result.files.len(), files_after);
    assert_eq!(result.total_bytes, total_after);
    assert_eq!(result.duplicate_groups[0].file_indices, vec![1, 2]);
}
