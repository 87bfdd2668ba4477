use fscan::scan::{
    build_folder_stats, extension_key_of, format_bytes, select_files, tally_records, FileEntry,
    FileRecord, PathStatus, ScanTally,
};

fn record(path: &str, name: &str, size: Option<u64>) -> FileRecord {
    FileRecord {
        path: path.to_string(),
        name: name.as_bytes().to_vec(),
        size,
    }
}

fn entry(path: &str, size: u64) -> FileEntry {
    FileEntry {
        path: path.to_string(),
        size,
    }
}

fn sample() -> Vec<FileRecord> {
    vec![
        record("root/a.txt", "a.txt", Some(10)),
        record("root/sub/b.RS", "b.RS", Some(2097152)),
        record("root/sub/deep/c.rs", "c.rs", Some(5242880)),
        record("root/README", "README", Some(300)),
        record("root/d.TXT", "d.TXT", None),
        record("root/e.md", "e.md", Some(1048576)),
    ]
}

#[test]
fn empty_directory_gives_empty_stats() {
    let stats = build_folder_stats(&Vec::new(), 0);
    assert_eq!(stats.total_size, 0);
    assert_eq!(stats.total_files, 0);
    assert!(stats.extension_count.is_empty());
    assert!(stats.filtered_files.is_empty());
}

#[test]
fn file_without_extension_is_unknown() {
    assert_eq!(extension_key_of(&b"README".to_vec()), "unknown");
    let stats = build_folder_stats(&vec![record("x/README", "README", Some(1))], 0);
    assert_eq!(stats.extension_count, vec![("unknown".to_string(), 1)]);
}

#[test]
fn extension_keys_follow_path_rules() {
    assert_eq!(extension_key_of(&b"photo.JPG".to_vec()), "jpg");
    assert_eq!(extension_key_of(&b"archive.tar.gz".to_vec()), "gz");
    assert_eq!(extension_key_of(&b".bashrc".to_vec()), "unknown");
    assert_eq!(extension_key_of(&b".config.TOML".to_vec()), "toml");
    assert_eq!(extension_key_of(&b"trailing.".to_vec()), "");
    assert_eq!(extension_key_of(&b"..".to_vec()), "unknown");
    assert_eq!(extension_key_of(&b"".to_vec()), "unknown");
}

#[test]
fn extension_that_is_not_utf8_is_unknown() {
    assert_eq!(extension_key_of(&b"data.\xff\xfe".to_vec()), "unknown");
    assert_eq!(extension_key_of(&b"\xff\xfe.TXT".to_vec()), "txt");
    let stats = build_folder_stats(
        &vec![FileRecord {
            path: "x/bad".to_string(),
            name: b"bad.\xc3".to_vec(),
            size: Some(4),
        }],
        0,
    );
    assert_eq!(stats.extension_count, vec![("unknown".to_string(), 1)]);
}

#[test]
fn two_level_tree_with_one_megabyte_threshold() {
    let records = vec![
        record("t/small.bin", "small.bin", Some(10)),
        record("t/sub/two.bin", "two.bin", Some(2097152)),
        record("t/sub/five.bin", "five.bin", Some(5242880)),
    ];
    let stats = build_folder_stats(&records, 1048576);
    assert_eq!(stats.total_files, 3);
    assert_eq!(stats.total_size, 10 + 2097152 + 5242880);
    assert_eq!(
        stats.filtered_files,
        vec![entry("t/sub/two.bin", 2097152), entry("t/sub/five.bin", 5242880)]
    );
    assert_eq!(stats.extension_count, vec![("bin".to_string(), 3)]);
}

#[test]
fn unreadable_size_counts_but_adds_nothing() {
    let stats = build_folder_stats(&sample(), 0);
    assert_eq!(stats.total_files, 6);
    assert_eq!(stats.total_size, 10 + 2097152 + 5242880 + 300 + 1048576);
    assert_eq!(stats.filtered_files.len(), 5);
    assert!(stats.filtered_files.iter().all(|e| e.path != "root/d.TXT"));
}

#[test]
fn histogram_is_sorted_and_sums_to_file_count() {
    let stats = build_folder_stats(&sample(), 0);
    assert_eq!(
        stats.extension_count,
        vec![
            ("txt".to_string(), 2),
            ("rs".to_string(), 2),
            ("unknown".to_string(), 1),
            ("md".to_string(), 1),
        ]
    );
    let sum: usize = stats.extension_count.iter().map(|(_, n)| *n).sum();
    assert_eq!(sum, stats.total_files);
}

#[test]
fn ties_keep_order_of_first_appearance() {
    let records = vec![
        record("z.b", "z.b", Some(1)),
        record("y.a", "y.a", Some(1)),
        record("x.c", "x.c", Some(1)),
        record("w.a", "w.a", Some(1)),
    ];
    let stats = build_folder_stats(&records, 0);
    assert_eq!(
        stats.extension_count,
        vec![
            ("a".to_string(), 2),
            ("b".to_string(), 1),
            ("c".to_string(), 1),
        ]
    );
}

#[test]
fn threshold_is_inclusive() {
    let records = vec![
        record("a", "a", Some(999)),
        record("b", "b", Some(1000)),
        record("c", "c", Some(1001)),
    ];
    assert_eq!(
        select_files(&records, 1000),
        vec![entry("b", 1000), entry("c", 1001)]
    );
    assert_eq!(select_files(&records, 0).len(), 3);
    assert!(select_files(&records, 1002).is_empty());
    assert!(select_files(&records, u64::MAX).is_empty());
}

#[test]
fn total_size_saturates() {
    let records = vec![
        record("a", "a", Some(u64::MAX - 5)),
        record("b", "b", Some(10)),
    ];
    assert_eq!(build_folder_stats(&records, 0).total_size, u64::MAX);
}

#[test]
fn partition_then_merge_matches_whole() {
    let all = sample();
    let whole = tally_records(&all);
    for split in 0..=all.len() {
        let left = tally_records(&all[..split].to_vec());
        let right = tally_records(&all[split..].to_vec());
        assert_eq!(left.merge(right), whole);
    }
}

#[test]
fn merge_order_changes_only_entry_order() {
    let all = sample();
    let a = tally_records(&all[..2].to_vec());
    let b = tally_records(&all[2..].to_vec());
    let ab = a.clone().merge(b.clone());
    let ba = b.merge(a);
    assert_eq!(ab.total_size, ba.total_size);
    assert_eq!(ab.total_files, ba.total_files);
    let mut x = ab.counts.clone();
    let mut y = ba.counts.clone();
    x.sort();
    y.sort();
    assert_eq!(x, y);
}

#[test]
fn absorb_counts_one_file() {
    let mut t = ScanTally::new();
    t.absorb(&record("p/q.Rs", "q.Rs", Some(7)));
    t.absorb(&record("p/r.rs", "r.rs", None));
    assert_eq!(t.total_files, 2);
    assert_eq!(t.total_size, 7);
    assert_eq!(t.counts, vec![("rs".to_string(), 2)]);
}

#[test]
fn formats_sizes_for_people() {
    assert_eq!(format_bytes(0), "0 B");
    assert_eq!(format_bytes(1023), "1023 B");
    assert_eq!(format_bytes(1024), "1 KB");
    assert_eq!(format_bytes(1536), "1.50 KB");
    assert_eq!(format_bytes(1073741824), "1 GB");
}

#[test]
fn validates_typed_paths() {
    assert_eq!(PathStatus::validate("   ", true), PathStatus::Empty);
    assert_eq!(
        PathStatus::validate("  /tmp/data ", true),
        PathStatus::Valid("/tmp/data".to_string())
    );
    assert_eq!(PathStatus::validate("/nope", false), PathStatus::Invalid);
    assert_eq!(PathStatus::Empty.error_message(), Some("(masukkan path dulu)"));
    assert_eq!(PathStatus::Invalid.error_message(), Some("(path tidak valid)"));
    assert_eq!(PathStatus::Valid("x".to_string()).path(), Some("x".to_string()));
    assert_eq!(PathStatus::Invalid.path(), None);
}

#[test]
fn merge_grouping_does_not_matter() {
    let all = sample();
    let a = tally_records(&all[..2].to_vec());
    let b = tally_records(&all[2..4].to_vec());
    let c = tally_records(&all[4..].to_vec());
    let left = a.clone().merge(b.clone()).merge(c.clone());
    let right = a.merge(b.merge(c));
    assert_eq!(left, right);
}

#[test]
fn rearranged_files_give_the_same_statistics() {
    let all = sample();
    let mut reversed = all.clone();
    reversed.reverse();
    let s1 = build_folder_stats(&all, 1000);
    let s2 = build_folder_stats(&reversed, 1000);
    assert_eq!(s1.total_size, s2.total_size);
    assert_eq!(s1.total_files, s2.total_files);
    let mut e1 = s1.extension_count.clone();
    let mut e2 = s2.extension_count.clone();
    e1.sort();
    e2.sort();
    assert_eq!(e1, e2);
    let mut f1: Vec<(String, u64)> = s1.filtered_files.iter().map(|e| (e.path.clone(), e.size)).collect();
    let mut f2: Vec<(String, u64)> = s2.filtered_files.iter().map(|e| (e.path.clone(), e.size)).collect();
    f1.sort();
    f2.sort();
    assert_eq!(f1, f2);
}
