use components::cdc::downstream::Downstream;
use components::cdc::event::{Body, Epoch, EventKind, EventRow, RegionError};
use components::cdc::scanner::{tag_entries, ScanStep, Scanner, StoredEntry};

fn k(s: &str) -> Vec<u8> {
    s.as_bytes().to_vec()
}

fn epoch(version: u64) -> Epoch {
    Epoch { version, conf_ver: 1 }
}

fn write(key: &str, value: &str, start_ts: u64, commit_ts: u64) -> StoredEntry {
    StoredEntry::Write { key: k(key), value: k(value), start_ts, commit_ts }
}

fn lock(key: &str, value: &str, start_ts: u64, generation: u64) -> StoredEntry {
    StoredEntry::Lock { key: k(key), value: k(value), start_ts, generation }
}

fn committed(key: &str, value: &str, start_ts: u64, commit_ts: u64) -> EventRow {
    EventRow { kind: EventKind::Committed, key: k(key), value: k(value), start_ts, commit_ts, generation: 0 }
}

fn prewrite(key: &str, value: &str, start_ts: u64, generation: u64) -> EventRow {
    EventRow { kind: EventKind::Prewrite, key: k(key), value: k(value), start_ts, commit_ts: 0, generation }
}

#[test]
fn entries_are_tagged_by_what_they_are() {
    let rows = tag_entries(&vec![write("a", "1", 5, 6), lock("b", "2", 7, 3)], 100);
    assert_eq!(rows, vec![committed("a", "1", 5, 6), prewrite("b", "2", 7, 3)]);
}

#[test]
fn versions_committed_after_the_snapshot_are_left_out() {
    let entries = vec![
        write("a", "1", 5, 10),
        write("b", "2", 5, 11),
        lock("c", "3", 10, 0),
        lock("d", "4", 11, 0),
    ];
    let rows = tag_entries(&entries, 10);
    // Locks are yielded whatever their start timestamp.
    assert_eq!(
        rows,
        vec![committed("a", "1", 5, 10), prewrite("c", "3", 10, 0), prewrite("d", "4", 11, 0)]
    );
}

#[test]
fn a_full_batch_goes_on_and_a_short_one_finishes() {
    let mut s = Scanner::new(1, epoch(1), 100, 2);
    assert_eq!(s.batch_size(), 2);
    assert!(!s.is_done());
    let step = s.next_batch::<()>(epoch(1), Ok(vec![write("a", "1", 1, 2), write("b", "2", 3, 4)]));
    assert_eq!(step, ScanStep::Rows(vec![committed("a", "1", 1, 2), committed("b", "2", 3, 4)]));
    assert!(!s.is_done());
    let step = s.next_batch::<()>(epoch(1), Ok(vec![write("c", "3", 5, 6)]));
    assert_eq!(
        step,
        ScanStep::Finished(vec![committed("c", "3", 5, 6), EventRow::initialized()])
    );
    assert!(s.is_done());
}

#[test]
fn an_empty_read_finishes_with_the_marker_alone() {
    let mut s = Scanner::new(1, epoch(1), 100, 16);
    let step = s.next_batch::<()>(epoch(1), Ok(vec![]));
    assert_eq!(step, ScanStep::Finished(vec![EventRow::initialized()]));
    assert_eq!(EventRow::initialized().kind, EventKind::Initialized);
}

#[test]
fn a_finished_scan_cannot_be_restarted() {
    let mut s = Scanner::new(1, epoch(1), 100, 16);
    let _ = s.next_batch::<()>(epoch(1), Ok(vec![]));
    let step = s.next_batch::<()>(epoch(1), Ok(vec![write("a", "1", 1, 2)]));
    assert_eq!(step, ScanStep::Done);
    assert!(s.is_done());
}

#[test]
fn a_changed_epoch_cancels_the_scan_before_the_batch_is_looked_at() {
    let mut s = Scanner::new(1, epoch(1), 100, 2);
    let step = s.next_batch::<()>(epoch(2), Ok(vec![write("a", "1", 1, 2)]));
    assert_eq!(step, ScanStep::Cancelled);
    assert!(s.is_done());
    assert_eq!(s.next_batch::<()>(epoch(1), Ok(vec![])), ScanStep::Done);
}

#[test]
fn a_change_of_conf_ver_alone_cancels_too() {
    let mut s = Scanner::new(1, Epoch { version: 1, conf_ver: 1 }, 100, 2);
    let step = s.next_batch::<()>(Epoch { version: 1, conf_ver: 2 }, Ok(vec![]));
    assert_eq!(step, ScanStep::Cancelled);
}

#[test]
fn a_failed_read_fails_the_whole_scan() {
    let mut s = Scanner::new(1, epoch(1), 100, 2);
    let step = s.next_batch(epoch(1), Ok::<_, String>(vec![write("a", "1", 1, 2), write("b", "2", 3, 4)]));
    assert_eq!(step, ScanStep::Rows(vec![committed("a", "1", 1, 2), committed("b", "2", 3, 4)]));
    let step = s.next_batch(epoch(1), Err("disk".to_string()));
    assert_eq!(step, ScanStep::Failed);
    assert!(s.is_done());
    assert_eq!(s.next_batch::<String>(epoch(1), Ok(vec![])), ScanStep::Done);
}

#[test]
fn a_batch_size_of_zero_is_taken_as_one() {
    let mut s = Scanner::new(1, epoch(1), 100, 0);
    assert_eq!(s.batch_size(), 1);
    let step = s.next_batch::<()>(epoch(1), Ok(vec![write("a", "1", 1, 2)]));
    assert_eq!(step, ScanStep::Rows(vec![committed("a", "1", 1, 2)]));
    let step = s.next_batch::<()>(epoch(1), Ok(vec![]));
    assert_eq!(step, ScanStep::Finished(vec![EventRow::initialized()]));
}

#[test]
fn a_read_larger_than_asked_for_fails_the_scan() {
    let mut s = Scanner::new(1, epoch(1), 100, 1);
    let step = s.next_batch::<()>(epoch(1), Ok(vec![write("a", "1", 1, 2), write("b", "2", 3, 4)]));
    assert_eq!(step, ScanStep::Failed);
    assert!(s.is_done());
}

#[test]
fn a_scan_of_several_batches_shows_the_whole_snapshot_then_one_marker() {
    let mut scanner = Scanner::new(1, epoch(1), 100, 2);
    let mut d = Downstream::new(1, 7, 9, 100);
    let mut out = Vec::new();
    let reads = vec![
        vec![write("a", "1", 1, 2), write("b", "2", 3, 4)],
        // A version committed after the snapshot fills its batch and is not shown.
        vec![write("c", "3", 150, 160), lock("d", "4", 90, 0)],
        vec![write("e", "5", 5, 6)],
    ];
    for read in reads {
        let step = scanner.next_batch(epoch(1), Ok::<_, ()>(read));
        d.on_scan(step, &mut out);
    }
    assert!(scanner.is_done());
    assert!(d.is_initialized());
    let shown: Vec<Body> = out.iter().map(|m| m.body.clone()).collect();
    assert_eq!(
        shown,
        vec![
            Body::Row(committed("a", "1", 1, 2)),
            Body::Row(committed("b", "2", 3, 4)),
            Body::Row(prewrite("d", "4", 90, 0)),
            Body::Row(committed("e", "5", 5, 6)),
            Body::Row(EventRow::initialized()),
        ]
    );
    // The region then goes on under another epoch: one error, and nothing after it.
    out.clear();
    d.fail(RegionError::EpochNotMatch, &mut out);
    d.on_resolved_ts(200, &mut out);
    d.on_scan(scanner.next_batch(epoch(2), Ok::<_, ()>(vec![])), &mut out);
    let shown: Vec<Body> = out.iter().map(|m| m.body.clone()).collect();
    assert_eq!(shown, vec![Body::Error(RegionError::EpochNotMatch)]);
}
