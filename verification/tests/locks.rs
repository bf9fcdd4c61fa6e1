use components::cdc::bytes::{bytes_eq, clone_bytes};
use components::cdc::event::{EventKind, EventRow, LogEntry, LogKind};
use components::cdc::lock_table::LockTable;
use components::cdc::locks::Locks;

fn k(s: &str) -> Vec<u8> {
    s.as_bytes().to_vec()
}

fn entry(kind: LogKind, key: &str, start_ts: u64) -> LogEntry {
    LogEntry { kind, key: k(key), value: Vec::new(), start_ts, commit_ts: 0, generation: 0, old_value: Vec::new() }
}

fn lock_row(key: &str, start_ts: u64) -> EventRow {
    EventRow { kind: EventKind::Prewrite, key: k(key), value: Vec::new(), start_ts, commit_ts: 0, generation: 0 }
}

#[test]
fn new_locks_know_nothing() {
    let mut l = Locks::new();
    assert_eq!(l.resolved_ts(), 0);
    assert!(!l.is_locked(&k("a"), 1));
    assert_eq!(l.resolve(50), 50);
    assert_eq!(l.resolved_ts(), 50);
}

#[test]
fn a_prewrite_takes_a_lock_and_its_commit_releases_it() {
    let mut l = Locks::new();
    l.on_change_log(&vec![entry(LogKind::Prewrite, "a", 10), entry(LogKind::Prewrite, "b", 10)], false);
    assert!(l.is_locked(&k("a"), 10));
    assert!(l.is_locked(&k("b"), 10));
    assert!(!l.is_locked(&k("a"), 11));
    assert_eq!(l.resolve(100), 9);
    l.on_change_log(&vec![entry(LogKind::Commit, "a", 10)], false);
    assert!(!l.is_locked(&k("a"), 10));
    // Two keys were locked at 10; one still is.
    assert_eq!(l.resolve(100), 9);
    l.on_change_log(&vec![entry(LogKind::Rollback, "b", 10)], false);
    assert_eq!(l.resolve(100), 100);
}

#[test]
fn a_second_prewrite_is_the_same_lock() {
    let mut l = Locks::new();
    l.on_change_log(
        &vec![entry(LogKind::Prewrite, "a", 10), entry(LogKind::Prewrite, "a", 10), entry(LogKind::Commit, "a", 10)],
        false,
    );
    assert!(!l.is_locked(&k("a"), 10));
    assert_eq!(l.resolve(100), 100);
}

#[test]
fn a_scan_finds_locks_that_are_not_known() {
    let mut l = Locks::new();
    l.on_change_log(&vec![entry(LogKind::Prewrite, "a", 10)], true);
    l.on_scan_rows(&vec![lock_row("a", 10), lock_row("b", 7), EventRow::initialized()]);
    assert!(l.is_locked(&k("a"), 10));
    assert!(l.is_locked(&k("b"), 7));
    assert_eq!(l.resolve(100), 6);
    l.on_change_log(&vec![entry(LogKind::Commit, "b", 7), entry(LogKind::Commit, "a", 10)], true);
    assert_eq!(l.resolve(100), 100);
}

#[test]
fn a_release_is_remembered_only_while_a_scan_is_outstanding() {
    let mut l = Locks::new();
    l.on_change_log(&vec![entry(LogKind::Commit, "a", 10)], true);
    l.on_change_log(&vec![entry(LogKind::Commit, "b", 11)], false);
    l.on_scan_rows(&vec![lock_row("a", 10), lock_row("b", 11)]);
    assert!(!l.is_locked(&k("a"), 10));
    assert!(l.is_locked(&k("b"), 11));
}

#[test]
fn settle_forgets_the_releases_once_no_scan_is_outstanding() {
    let mut l = Locks::new();
    l.on_change_log(&vec![entry(LogKind::Commit, "a", 10)], true);
    l.settle(true);
    l.on_scan_rows(&vec![lock_row("a", 10)]);
    assert!(!l.is_locked(&k("a"), 10));
    l.settle(false);
    l.on_scan_rows(&vec![lock_row("a", 10)]);
    assert!(l.is_locked(&k("a"), 10));
}

#[test]
fn the_lock_table_files_by_key_and_start_timestamp() {
    let mut t = LockTable::new();
    assert_eq!(t.generation(&k("a"), 1), None);
    t.put(k("a"), 1, 3, k("x"));
    t.put(k("a"), 2, 4, k("y"));
    t.put(k("b"), 1, 5, k("z"));
    assert_eq!(t.generation(&k("a"), 1), Some(3));
    assert_eq!(t.value(&k("a"), 2), Some(k("y")));
    assert_eq!(t.value(&k("b"), 1), Some(k("z")));
    t.put(k("a"), 1, 9, k("w"));
    assert_eq!(t.generation(&k("a"), 1), Some(9));
    assert_eq!(t.value(&k("a"), 1), Some(k("w")));
    t.remove(&k("a"), 1);
    t.remove(&k("c"), 1);
    assert_eq!(t.generation(&k("a"), 1), None);
    assert_eq!(t.value(&k("a"), 1), None);
    assert_eq!(t.generation(&k("a"), 2), Some(4));
    assert_eq!(t.generation(&k("b"), 1), Some(5));
}

#[test]
fn byte_strings_compare_and_copy_by_content() {
    assert!(bytes_eq(&k("abc"), &k("abc")));
    assert!(!bytes_eq(&k("abc"), &k("abd")));
    assert!(!bytes_eq(&k("abc"), &k("ab")));
    assert!(bytes_eq(&k(""), &k("")));
    assert_eq!(clone_bytes(&k("abc")), k("abc"));
    assert_eq!(clone_bytes(&k("")), k(""));
}
