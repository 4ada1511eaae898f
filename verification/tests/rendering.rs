use dupescan::fingerprint::fingerprint_bytes;
use dupescan::formatter::Formatter;
use dupescan::hashwise::ContentClassifier;
use dupescan::params::Params;
use dupescan::record::FileRecord;
use dupescan::sizewise::SizeClassifier;

fn rec(path: &str, size: u64, modified: i64) -> FileRecord {
    FileRecord::new(String::from(path), size, modified)
}

fn params(dir: &str, progress: bool) -> Params {
    Params::new(String::from(dir), progress)
}

fn mtime_string(secs: i64) -> String {
    chrono::DateTime::<chrono::Utc>::from_timestamp(secs, 0)
        .unwrap()
        .format("%Y-%m-%d %H:%M:%S")
        .to_string()
}

#[test]
fn human_path_is_relative_and_padded() {
    let p = params("/base", false);
    let f = rec("/base/sub/file.txt", 1, 0);
    assert_eq!(Formatter::human_path(&f, &p, 0), "sub/file.txt");
    assert_eq!(Formatter::human_path(&f, &p, 15), "sub/file.txt   ");
}

#[test]
fn human_path_walks_up_when_needed() {
    let p = params("/base/deep", false);
    let f = rec("/base/file.txt", 1, 0);
    assert_eq!(Formatter::human_path(&f, &p, 0), "../file.txt");
}

#[test]
fn human_filesize_matches_bytesize_rendering() {
    let small = rec("/base/a", 5, 0);
    assert_eq!(Formatter::human_filesize(&small), "         5 B");
    let big = rec("/base/b", 2048, 0);
    assert_eq!(
        Formatter::human_filesize(&big),
        format!("{:>12}", bytesize::ByteSize::b(2048))
    );
}

#[test]
fn human_mtime_renders_utc() {
    let f = rec("/base/a", 1, 0);
    assert_eq!(Formatter::human_mtime(&f), "1970-01-01 00:00:00");
    let g = rec("/base/b", 1, 1700000000);
    assert_eq!(Formatter::human_mtime(&g), mtime_string(1700000000));
}

#[test]
fn report_without_duplicates_prints_message_once() {
    let dups = ContentClassifier::new(0);
    let text = Formatter::render(&dups, 0, &params("/base", false));
    assert_eq!(text, "\nNo duplicates found matching your search criteria.\n");
}

#[test]
fn report_spacing_follows_progress_flag() {
    let dups = ContentClassifier::new(0);
    let text = Formatter::render(&dups, 0, &params("/base", true));
    assert_eq!(text, "\n\nNo duplicates found matching your search criteria.\n");
}

#[test]
fn report_matches_reference_formatting() {
    let seed = 42u64;
    let p = params("/base", false);
    let mut sizes = SizeClassifier::new();
    for f in ["/base/a.txt", "/base/b.txt", "/base/c.txt"] {
        sizes.insert(rec(f, 5, 1000));
    }
    let mut dups = ContentClassifier::new(seed);
    let contents = |path: &str| -> Vec<u8> {
        if path.ends_with("c.txt") {
            b"world".to_vec()
        } else {
            b"hello".to_vec()
        }
    };
    while let Some((_i, r)) = dups.next_candidate(&sizes) {
        let bytes = contents(&r.path);
        dups.process(&r, &bytes);
    }
    let width = Formatter::max_confirmed_path_len(&dups, &p);
    assert_eq!(width, 5);

    let fp = fingerprint_bytes(seed, &b"hello".to_vec());
    let time = mtime_string(1000);
    let size = format!("{:>12}", bytesize::ByteSize::b(5));
    let expected = format!(
        "\n\x1b[33m{:32x}\x1b[0m\n\u{251c}\u{2500}\t{}\t{}\t{}\n\u{2514}\u{2500}\t{}\t{}\t{}\n\n",
        fp, "a.txt", size, time, "b.txt", size, time
    );
    let text = Formatter::render(&dups, width, &p);
    assert_eq!(text, expected);
}

#[test]
fn max_path_len_counts_confirmed_groups_only() {
    let p = params("/base", false);
    let mut sizes = SizeClassifier::new();
    sizes.insert(rec("/base/a.txt", 5, 0));
    sizes.insert(rec("/base/b.txt", 5, 0));
    sizes.insert(rec("/base/a-very-long-name.txt", 9, 0));
    sizes.insert(rec("/base/another-long-one.txt", 9, 0));
    let mut dups = ContentClassifier::new(1);
    let contents = |path: &str| -> Vec<u8> {
        if path.contains("long") {
            if path.contains("another") {
                b"differing".to_vec()
            } else {
                b"unrelated".to_vec()
            }
        } else {
            b"hello".to_vec()
        }
    };
    while let Some((_i, r)) = dups.next_candidate(&sizes) {
        let bytes = contents(&r.path);
        dups.process(&r, &bytes);
    }
    assert_eq!(Formatter::max_confirmed_path_len(&dups, &p), 5);
}

#[test]
fn singleton_groups_are_skipped_defensively() {
    let p = params("/base", false);
    let mut dups = ContentClassifier::new(0);
    dups.process(&rec("/base/only.txt", 4, 0), &b"solo".to_vec());
    let text = Formatter::render(&dups, 8, &p);
    assert_eq!(text, "\nNo duplicates found matching your search criteria.\n");
}
