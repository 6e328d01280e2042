use lumadisk::digest::{digests_equal, has_tail, head_len, partial_digest, Digester, SAMPLE};
use lumadisk::duplicates::{rank_duplicate_groups, refine_groups, size_candidates, split_by_digest};
use lumadisk::model::{DuplicateGroup, FileEntry, ScanResult};
use lumadisk::scan::ScanTally;
use std::path::PathBuf;

fn entry(name: &str, size: u64) -> FileEntry {
    FileEntry {
        path: PathBuf::from(name),
        display_path: name.to_owned(),
        name: name.to_owned(),
        extension: "bin".to_owned(),
        size,
        modified_unix: 0,
    }
}

fn hex(bytes: &[u8; 32]) -> String {
    bytes.iter().map(|b| format!("{b:02x}")).collect()
}

#[test]
fn size_candidates_group_equal_nonempty_sizes() {
    let files = vec![
        entry("a", 10),
        entry("b", 0),
        entry("c", 10),
        entry("d", 7),
        entry("e", 0),
        entry("f", 10),
        entry("g", 3),
        entry("h", 3),
    ];
    let mut groups = size_candidates(&files);
    groups.sort_by_key(|g| g.size_each);
    assert_eq!(groups.len(), 2);
    assert_eq!(groups[0].size_each, 3);
    assert_eq!(groups[0].file_indices, vec![6, 7]);
    assert_eq!(groups[1].size_each, 10);
    assert_eq!(groups[1].file_indices, vec![0, 2, 5]);
    assert!(size_candidates(&vec![entry("x", 5)]).is_empty());
}

#[test]
fn split_by_digest_keeps_matching_sets() {
    let group = DuplicateGroup {
        size_each: 10,
        file_indices: vec![1, 4, 6, 8, 9],
    };
    let x = [1u8; 32];
    let y = [2u8; 32];
    let digests = vec![Some(x), Some(y), None, Some(x), Some(x)];
    let split = split_by_digest(&group, &digests);
    assert_eq!(split.len(), 1);
    assert_eq!(split[0].size_each, 10);
    assert_eq!(split[0].file_indices, vec![1, 8, 9]);

    let two = split_by_digest(&group, &vec![Some(x), Some(y), Some(y), Some(x), None]);
    assert_eq!(two.len(), 2);
    assert_eq!(two[0].file_indices, vec![1, 8]);
    assert_eq!(two[1].file_indices, vec![4, 6]);

    let none = split_by_digest(&group, &vec![None, None, Some(x), Some(y), None]);
    assert!(none.is_empty());
}

#[test]
fn rank_orders_by_reclaimable_bytes() {
    let ranked = rank_duplicate_groups(vec![
        DuplicateGroup { size_each: 5, file_indices: vec![0, 1] },
        DuplicateGroup { size_each: 4, file_indices: vec![2, 3, 4, 5] },
        DuplicateGroup { size_each: 100, file_indices: vec![6, 7] },
    ]);
    let sizes: Vec<u64> = ranked.iter().map(|g| g.size_each).collect();
    assert_eq!(sizes, vec![100, 4, 5]);
}

#[test]
fn digester_matches_blake3_test_vectors() {
    assert_eq!(
        hex(&Digester::new().finish()),
        "af1349b9f5f9a1a6a0404dea36dcc9499bcb25c9adc112b7cc9a93cae41f3262"
    );
    let mut d = Digester::new();
    d.update(b"a");
    d.update(b"bc");
    assert_eq!(
        hex(&d.finish()),
        "6437b3ac38465133ffb63b75273a8db548c558465d79db03fd359c6cd5bd9d85"
    );
}

#[test]
fn partial_digest_hashes_size_head_and_tail() {
    let head = b"same bytes";
    let digest = partial_digest(10, head, &[]);
    let mut message = 10u64.to_le_bytes().to_vec();
    message.extend_from_slice(head);
    assert_eq!(digest, *blake3::hash(&message).as_bytes());
    assert_ne!(digest, *blake3::hash(head).as_bytes());

    let size = (3 * SAMPLE) as u64;
    assert_eq!(head_len(size), SAMPLE);
    assert!(has_tail(size));
    assert!(!has_tail((2 * SAMPLE) as u64));
    assert_eq!(head_len(100), 100);
    let start = vec![7u8; SAMPLE];
    let end = vec![9u8; SAMPLE];
    let large = partial_digest(size, &start, &end);
    let mut big = size.to_le_bytes().to_vec();
    big.extend_from_slice(&start);
    big.extend_from_slice(&end);
    assert_eq!(large, *blake3::hash(&big).as_bytes());
}

#[test]
fn digests_equal_compares_bytes() {
    let a = [3u8; 32];
    let mut b = [3u8; 32];
    assert!(digests_equal(&a, &b));
    b[31] = 4;
    assert!(!digests_equal(&a, &b));
}

#[test]
fn duplicate_pipeline_confirms_exact_copies() {
    let contents: [(&str, &[u8]); 3] = [
        ("original.bin", b"same bytes"),
        ("copy.bin", b"same bytes"),
        ("different.bin", b"other data"),
    ];
    let mut tally = ScanTally::new();
    for (name, bytes) in contents {
        tally.record_file(entry(name, bytes.len() as u64));
    }
    let (files, total_bytes, skipped) = tally.finish();
    let content_of = |index: usize| -> &[u8] {
        contents.iter().find(|(name, _)| *name == files[index].name).unwrap().1
    };

    let mut confirmed = Vec::new();
    for candidate in size_candidates(&files) {
        let partial: Vec<Option<[u8; 32]>> = candidate
            .file_indices
            .iter()
            .map(|&index| {
                let bytes = content_of(index);
                Some(partial_digest(candidate.size_each, &bytes[..head_len(candidate.size_each)], &[]))
            })
            .collect();
        for sampled in split_by_digest(&candidate, &partial) {
            let full: Vec<Option<[u8; 32]>> = sampled
                .file_indices
                .iter()
                .map(|&index| {
                    let mut digester = Digester::new();
                    digester.update(content_of(index));
                    Some(digester.finish())
                })
                .collect();
            confirmed.extend(split_by_digest(&sampled, &full));
        }
    }
    let result = ScanResult {
        files: files.clone(),
        duplicate_groups: rank_duplicate_groups(confirmed),
        total_bytes,
        skipped,
        elapsed_ms: 0,
    };

    assert_eq!(result.files.len(), 3);
    assert_eq!(result.total_bytes, 30);
    assert_eq!(result.duplicate_groups.len(), 1);
    assert_eq!(result.duplicate_groups[0].file_indices.len(), 2);
    assert_eq!(result.duplicate_bytes(), 10);
    for &index in &result.duplicate_groups[0].file_indices {
        assert_eq!(content_of(index), b"same bytes");
    }
}

#[test]
fn refine_groups_splits_every_group() {
    let groups = vec![
        DuplicateGroup {
            size_each: 10,
            file_indices: vec![0, 2, 5],
        },
        DuplicateGroup {
            size_each: 3,
            file_indices: vec![6, 7],
        },
        DuplicateGroup {
            size_each: 8,
            file_indices: vec![1, 3],
        },
    ];
    let x = [1u8; 32];
    let y = [2u8; 32];
    let digests = vec![
        vec![Some(x), Some(y), Some(x)],
        vec![Some(y), Some(y)],
        vec![Some(x), None],
    ];
    let mut refined = refine_groups(&groups, &digests);
    refined.sort_by_key(|g| g.size_each);
    assert_eq!(refined.len(), 2);
    assert_eq!(refined[0].size_each, 3);
    assert_eq!(refined[0].file_indices, vec![6, 7]);
    assert_eq!(refined[1].size_each, 10);
    assert_eq!(refined[1].file_indices, vec![0, 5]);
    assert!(refine_groups(&Vec::new(), &Vec::new()).is_empty());
}
