use dupescan::params::{is_fatal, resolve_root, ScanError};

#[test]
fn missing_root_aborts_before_any_stage() {
    let r = resolve_root(false, false);
    assert_eq!(r, Err(ScanError::RootMissing));
    assert!(is_fatal(&ScanError::RootMissing));
}

#[test]
fn non_directory_root_aborts() {
    let r = resolve_root(true, false);
    assert_eq!(r, Err(ScanError::RootNotDirectory));
    assert!(is_fatal(&ScanError::RootNotDirectory));
}

#[test]
fn valid_root_lets_the_run_start() {
    assert_eq!(resolve_root(true, true), Ok(()));
}

#[test]
fn per_entry_failures_are_recoverable() {
    assert!(!is_fatal(&ScanError::EntryUnreadable));
    assert!(!is_fatal(&ScanError::FileVanished));
}
