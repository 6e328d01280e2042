use lumadisk::browse::{
    age_band, category_summary, distinct_extensions, filtered_indices, has_extension,
    heatmap_groups, palette_slot, total_size, trashed_places, FileFilter,
};
use lumadisk::model::FileEntry;
use std::path::PathBuf;

fn entry(path: &str, extension: &str, size: u64, modified_unix: i64) -> FileEntry {
    let name = path.rsplit('/').next().unwrap_or(path).to_owned();
    FileEntry {
        path: PathBuf::from(path),
        display_path: path.to_owned(),
        name,
        extension: extension.to_owned(),
        size,
        modified_unix,
    }
}

fn sample() -> Vec<FileEntry> {
    vec![
        entry("/data/Video/Trip.MP4", "mp4", 3 * 1024 * 1024 * 1024, 1_000),
        entry("/data/docs/report.pdf", "pdf", 2 * 1024 * 1024, 999_000),
        entry("/data/docs/notes.txt", "txt", 500, 999_990),
        entry("/data/music/song.mp3", "mp3", 200 * 1024 * 1024, 0),
        entry("/data/docs/old.pdf", "pdf", 1024, 10),
    ]
}

fn filter(search: &str, extension: &str, min_size_index: usize, age_index: usize) -> FileFilter {
    FileFilter {
        search: search.to_owned(),
        extension: extension.to_owned(),
        min_size_index,
        age_index,
    }
}

#[test]
fn filter_shows_everything_by_default() {
    let files = sample();
    assert_eq!(filtered_indices(&files, &filter("", "All types", 0, 0), 1_000_000), vec![0, 1, 2, 3, 4]);
}

#[test]
fn filter_by_type_size_and_age() {
    let files = sample();
    let now = 1_000_000;
    assert_eq!(filtered_indices(&files, &filter("", "pdf", 0, 0), now), vec![1, 4]);
    assert_eq!(filtered_indices(&files, &filter("", "All types", 1, 0), now), vec![0, 1, 3]);
    assert_eq!(filtered_indices(&files, &filter("", "All types", 2, 0), now), vec![0, 3]);
    assert_eq!(filtered_indices(&files, &filter("", "All types", 3, 0), now), vec![0]);
    // Last 30 days: unknown times (0) never pass.
    assert_eq!(filtered_indices(&files, &filter("", "All types", 0, 1), now), vec![0, 1, 2, 4]);
    assert_eq!(filtered_indices(&files, &filter("", "All types", 0, 1), 3_000_000), vec![1, 2]);
}

#[test]
fn search_matches_name_or_path_without_case() {
    let files = sample();
    let now = 1_000_000;
    assert_eq!(filtered_indices(&files, &filter("  TRIP ", "All types", 0, 0), now), vec![0]);
    assert_eq!(filtered_indices(&files, &filter("docs", "All types", 0, 0), now), vec![1, 2, 4]);
    assert_eq!(filtered_indices(&files, &filter("Docs", "pdf", 0, 0), now), vec![1, 4]);
    assert_eq!(filtered_indices(&files, &filter("nothing", "All types", 0, 0), now), Vec::<usize>::new());
    assert_eq!(filtered_indices(&files, &filter("   ", "All types", 0, 0), now), vec![0, 1, 2, 3, 4]);
}

#[test]
fn distinct_extensions_sorted_once() {
    let files = sample();
    assert_eq!(distinct_extensions(&files), vec!["mp3", "mp4", "pdf", "txt"]);
    let mixed = vec![
        entry("a", "b", 1, 0),
        entry("b", "ab", 1, 0),
        entry("c", "a", 1, 0),
        entry("d", "b", 1, 0),
        entry("e", "B", 1, 0),
        entry("f", "é", 1, 0),
        entry("g", "", 1, 0),
    ];
    assert_eq!(distinct_extensions(&mixed), vec!["", "B", "a", "ab", "b", "é"]);
    assert!(distinct_extensions(&Vec::new()).is_empty());
}

#[test]
fn heatmap_groups_by_type_heaviest_first() {
    let files = vec![
        entry("a.pdf", "pdf", 10, 0),
        entry("b.zip", "zip", 100, 0),
        entry("c.pdf", "pdf", 0, 0),
        entry("d.txt", "txt", 5, 0),
        entry("e.pdf", "pdf", 30, 0),
    ];
    let groups = heatmap_groups(&files, &vec![0, 1, 2, 3, 4]);
    assert_eq!(groups.len(), 3);
    assert_eq!(groups[0].extension, "zip");
    assert_eq!(groups[0].total, 100);
    assert_eq!(groups[1].extension, "pdf");
    assert_eq!(groups[1].members, vec![0, 2, 4]);
    assert_eq!(groups[1].total, 41);
    assert_eq!(groups[2].extension, "txt");
    assert_eq!(groups[2].total, 5);

    let only_some = heatmap_groups(&files, &vec![4, 3]);
    assert_eq!(only_some.len(), 2);
    assert_eq!(only_some[0].members, vec![4]);
}

#[test]
fn heatmap_draws_at_most_1500_files() {
    let files: Vec<FileEntry> = (0..2000).map(|i| entry(&format!("f{i}"), "bin", 1, 0)).collect();
    let indices: Vec<usize> = (0..2000).collect();
    let groups = heatmap_groups(&files, &indices);
    assert_eq!(groups.len(), 1);
    assert_eq!(groups[0].members.len(), 1500);
    assert_eq!(groups[0].total, 1500);
}

#[test]
fn category_summary_lists_visible_files_of_a_type() {
    let files = sample();
    let (members, total) = category_summary(&files, &vec![4, 2, 1, 9], "pdf");
    assert_eq!(members, vec![4, 1]);
    assert_eq!(files[members[0]].path, PathBuf::from("/data/docs/old.pdf"));
    assert_eq!(files[members[1]].path, PathBuf::from("/data/docs/report.pdf"));
    assert_eq!(total, 1024 + 2 * 1024 * 1024);
    let (none, zero) = category_summary(&files, &vec![0], "pdf");
    assert!(none.is_empty());
    assert_eq!(zero, 0);
}

#[test]
fn total_size_adds_sizes() {
    let files = sample();
    assert_eq!(total_size(&files, &vec![2, 4]), 1524);
    assert_eq!(total_size(&files, &vec![]), 0);
}

#[test]
fn has_extension_checks_every_file() {
    let files = sample();
    assert!(has_extension(&files, &"mp3".to_owned()));
    assert!(!has_extension(&files, &"zip".to_owned()));
}

#[test]
fn palette_slot_matches_the_hash() {
    fn expected(extension: &str) -> usize {
        let hash = extension
            .bytes()
            .fold(5381_usize, |hash, byte| hash.wrapping_mul(33) ^ byte as usize);
        hash % 9
    }
    for extension in ["", "pdf", "zip", "no extension", "é", "a-very-long-extension-name"] {
        assert_eq!(palette_slot(extension), expected(extension));
    }
    assert_eq!(palette_slot(""), 5381 % 9);
}

#[test]
fn age_band_by_days() {
    let now = 1_000_000_000;
    let day = 86_400;
    assert_eq!(age_band(now, now), 0);
    assert_eq!(age_band(now - 30 * day, now), 0);
    assert_eq!(age_band(now - 31 * day, now), 1);
    assert_eq!(age_band(now - 180 * day, now), 1);
    assert_eq!(age_band(now - 181 * day, now), 2);
    assert_eq!(age_band(now - 366 * day, now), 3);
    assert_eq!(age_band(now - 1096 * day, now), 4);
    assert_eq!(age_band(0, now), 4);
    assert_eq!(age_band(-50, 100), 0);
    assert_eq!(age_band(now + 2 * day, now), 4);
    assert_eq!(age_band(now + 100, now), 0);
}

#[test]
fn trash_counts_moved_paths() {
    assert_eq!(trashed_places(true, &vec![false, false, false]), vec![0, 1, 2]);
    assert_eq!(trashed_places(false, &vec![true, false, true]), vec![0, 2]);
    assert_eq!(trashed_places(false, &vec![false, false]), Vec::<usize>::new());
    assert!(trashed_places(true, &Vec::new()).is_empty());
}
