use dupescan::hashwise::ContentClassifier;
use dupescan::pipeline::{run_pipeline, ScanItem};
use dupescan::record::FileRecord;
use dupescan::sizewise::SizeClassifier;

fn rec(path: &str, size: u64, modified: i64) -> FileRecord {
    FileRecord::new(String::from(path), size, modified)
}

/// Drives the pipeline sequentially: enumerate every record, then hand
/// candidates to the content classifier; a `None` content simulates a
/// file that vanished between enumeration and fingerprinting.
fn run(seed: u64, files: &[(FileRecord, Option<Vec<u8>>)]) -> ContentClassifier {
    let mut sizes = SizeClassifier::new();
    for (r, _) in files {
        sizes.insert(r.clone());
    }
    let mut dups = ContentClassifier::new(seed);
    while let Some((_bucket, candidate)) = dups.next_candidate(&sizes) {
        let content = files
            .iter()
            .find(|(f, _)| f.path == candidate.path)
            .and_then(|(_, c)| c.clone());
        if let Some(bytes) = content {
            dups.process(&candidate, &bytes);
        }
    }
    dups
}

fn confirmed_indices(dups: &ContentClassifier) -> Vec<usize> {
    let mut out = Vec::new();
    for i in 0..dups.group_count() {
        if dups.group_len(i) >= 2 {
            out.push(i);
        }
    }
    out
}

#[test]
fn scenario_a_one_confirmed_pair() {
    let files = vec![
        (rec("/base/a.txt", 5, 100), Some(b"hello".to_vec())),
        (rec("/base/b.txt", 5, 200), Some(b"hello".to_vec())),
        (rec("/base/c.txt", 5, 300), Some(b"world".to_vec())),
    ];
    let dups = run(7, &files);
    let confirmed = confirmed_indices(&dups);
    assert_eq!(confirmed.len(), 1);
    let g = confirmed[0];
    assert_eq!(dups.group_len(g), 2);
    assert_eq!(dups.group_member(g, 0).path, "/base/a.txt");
    assert_eq!(dups.group_member(g, 1).path, "/base/b.txt");
    for i in 0..dups.group_count() {
        if i != g {
            for j in 0..dups.group_len(i) {
                assert_ne!(dups.group_member(i, j).path, "/base/a.txt");
                assert_ne!(dups.group_member(i, j).path, "/base/b.txt");
            }
        }
        for j in 0..dups.group_len(i) {
            if dups.group_member(i, j).path == "/base/c.txt" {
                assert_eq!(dups.group_len(i), 1);
            }
        }
    }
}

#[test]
fn scenario_b_unique_sizes_nothing_hashed() {
    let files = vec![
        (rec("/base/one.txt", 1, 10), Some(b"x".to_vec())),
        (rec("/base/two.txt", 2, 20), Some(b"xy".to_vec())),
        (rec("/base/three.txt", 3, 30), Some(b"xyz".to_vec())),
    ];
    let dups = run(1, &files);
    assert_eq!(dups.group_count(), 0);
}

#[test]
fn scenario_c_fifty_pairs_of_one_hundred() {
    let mut files = Vec::new();
    for i in 0..50u32 {
        let content = format!("cont{:04}", i).into_bytes();
        files.push((rec(&format!("/base/f{:02}a.dat", i), 8, 0), Some(content.clone())));
        files.push((rec(&format!("/base/f{:02}b.dat", i), 8, 0), Some(content)));
    }
    let dups = run(99, &files);
    assert_eq!(dups.group_count(), 50);
    for i in 0..dups.group_count() {
        assert_eq!(dups.group_len(i), 2);
    }
    assert_eq!(confirmed_indices(&dups).len(), 50);
}

#[test]
fn scenario_d_vanished_file_is_dropped() {
    let files = vec![
        (rec("/base/kept.txt", 4, 10), Some(b"abcd".to_vec())),
        (rec("/base/gone.txt", 4, 20), None),
    ];
    let dups = run(3, &files);
    for i in 0..dups.group_count() {
        for j in 0..dups.group_len(i) {
            assert_ne!(dups.group_member(i, j).path, "/base/gone.txt");
        }
    }
    assert_eq!(confirmed_indices(&dups).len(), 0);
}

#[test]
fn same_content_lands_in_same_group() {
    let mut dups = ContentClassifier::new(5);
    dups.process(&rec("/base/x", 5, 0), &b"hello".to_vec());
    dups.process(&rec("/base/y", 5, 0), &b"hello".to_vec());
    dups.process(&rec("/base/z", 5, 0), &b"other".to_vec());
    assert_eq!(dups.group_count(), 2);
    assert_eq!(dups.group_len(0), 2);
    assert_eq!(dups.group_len(1), 1);
}

#[test]
fn fingerprint_is_deterministic_within_a_run() {
    let a = dupescan::fingerprint::fingerprint_bytes(42, &b"same bytes".to_vec());
    let b = dupescan::fingerprint::fingerprint_bytes(42, &b"same bytes".to_vec());
    assert_eq!(a, b);
    let c = dupescan::fingerprint::fingerprint_bytes(43, &b"same bytes".to_vec());
    assert_ne!(a, c);
}

#[test]
fn fingerprint_of_empty_content_is_seeded_basis() {
    let fp = dupescan::fingerprint::fingerprint_bytes(0, &Vec::new());
    assert_eq!(fp, dupescan::fingerprint::FP_OFFSET_BASIS);
    let seeded = dupescan::fingerprint::fingerprint_bytes(9, &Vec::new());
    assert_eq!(seeded, dupescan::fingerprint::FP_OFFSET_BASIS ^ 9);
}

#[test]
fn fingerprint_absorbs_bytes_in_order() {
    let fp = dupescan::fingerprint::fingerprint_bytes(0, &vec![0x61]);
    let expected =
        (dupescan::fingerprint::FP_OFFSET_BASIS ^ 0x61).wrapping_mul(dupescan::fingerprint::FP_PRIME);
    assert_eq!(fp, expected);
    let fp2 = dupescan::fingerprint::fingerprint_bytes(0, &vec![0x61, 0x62]);
    assert_eq!(fp2, (expected ^ 0x62).wrapping_mul(dupescan::fingerprint::FP_PRIME));
}

#[test]
fn bucket_members_keep_insertion_order() {
    let files = vec![
        (rec("/base/a", 6, 0), Some(b"sixsix".to_vec())),
        (rec("/base/b", 6, 0), Some(b"sixsix".to_vec())),
        (rec("/base/c", 6, 0), Some(b"sixsix".to_vec())),
    ];
    let dups = run(11, &files);
    assert_eq!(dups.group_count(), 1);
    assert_eq!(dups.group_len(0), 3);
    assert_eq!(dups.group_member(0, 0).path, "/base/a");
    assert_eq!(dups.group_member(0, 1).path, "/base/b");
    assert_eq!(dups.group_member(0, 2).path, "/base/c");
}

#[test]
fn whole_run_groups_shared_size_duplicates() {
    let items = vec![
        ScanItem { record: rec("/base/a.txt", 5, 100), content: Some(b"hello".to_vec()) },
        ScanItem { record: rec("/base/b.txt", 5, 200), content: Some(b"hello".to_vec()) },
        ScanItem { record: rec("/base/c.txt", 5, 300), content: Some(b"world".to_vec()) },
        ScanItem { record: rec("/base/solo.txt", 9, 400), content: Some(b"lonesome!".to_vec()) },
        ScanItem { record: rec("/base/gone.txt", 5, 500), content: None },
    ];
    let (sizes, dups) = run_pipeline(&items, 21);
    assert_eq!(sizes.bucket_count(), 2);
    assert_eq!(sizes.size_count(5), 4);
    assert_eq!(sizes.size_count(9), 1);
    assert_eq!(dups.group_count(), 2);
    assert_eq!(dups.group_len(0), 2);
    assert_eq!(dups.group_member(0, 0).path, "/base/a.txt");
    assert_eq!(dups.group_member(0, 1).path, "/base/b.txt");
    assert_eq!(dups.group_len(1), 1);
    assert_eq!(dups.group_member(1, 0).path, "/base/c.txt");
}

#[test]
fn zero_byte_files_form_a_legitimate_bucket() {
    let files = vec![
        (rec("/base/empty1", 0, 0), Some(Vec::new())),
        (rec("/base/empty2", 0, 0), Some(Vec::new())),
    ];
    let dups = run(4, &files);
    let confirmed = confirmed_indices(&dups);
    assert_eq!(confirmed.len(), 1);
    assert_eq!(dups.group_len(confirmed[0]), 2);
}

#[test]
fn size_classifier_reports_buckets() {
    let mut sizes = SizeClassifier::new();
    sizes.insert(rec("/base/a", 5, 0));
    sizes.insert(rec("/base/b", 7, 0));
    sizes.insert(rec("/base/c", 5, 0));
    assert_eq!(sizes.bucket_count(), 2);
    assert_eq!(sizes.bucket_size(0), 5);
    assert_eq!(sizes.bucket_len(0), 2);
    assert_eq!(sizes.bucket_size(1), 7);
    assert_eq!(sizes.bucket_len(1), 1);
    assert_eq!(sizes.bucket_member(0, 1).path, "/base/c");
}

#[test]
fn candidates_are_handed_out_exactly_once() {
    let mut sizes = SizeClassifier::new();
    sizes.insert(rec("/base/a", 5, 0));
    sizes.insert(rec("/base/b", 5, 0));
    sizes.insert(rec("/base/solo", 9, 0));
    let mut dups = ContentClassifier::new(0);
    let mut seen = Vec::new();
    while let Some((_i, r)) = dups.next_candidate(&sizes) {
        assert!(!seen.contains(&r.path));
        assert_ne!(r.path, "/base/solo");
        seen.push(r.path);
    }
    assert_eq!(seen.len(), 2);
}
