use components::cdc::downstream::{Closed, Downstream};
use components::cdc::event::{Body, EventKind, EventRow, LogEntry, LogKind, Outbound, RegionError};
use components::cdc::scanner::ScanStep;

fn k(s: &str) -> Vec<u8> {
    s.as_bytes().to_vec()
}

fn entry(kind: LogKind, key: &str, value: &str, start_ts: u64, commit_ts: u64, generation: u64) -> LogEntry {
    LogEntry { kind, key: k(key), value: k(value), start_ts, commit_ts, generation, old_value: Vec::new() }
}

fn row(kind: EventKind, key: &str, value: &str, start_ts: u64, commit_ts: u64, generation: u64) -> EventRow {
    EventRow { kind, key: k(key), value: k(value), start_ts, commit_ts, generation }
}

fn bodies(out: &[Outbound]) -> Vec<Body> {
    out.iter().map(|m| m.body.clone()).collect()
}

fn initialized(region_id: u64, conn_id: u64, request_id: u64) -> Downstream {
    let mut d = Downstream::new(region_id, conn_id, request_id, 0);
    let mut out = Vec::new();
    d.mark_initialized(&mut out);
    d
}

#[test]
fn a_new_downstream_is_scanning_and_open() {
    let d = Downstream::new(1, 2, 3, 40);
    assert_eq!(d.region_id(), 1);
    assert_eq!(d.conn_id(), 2);
    assert_eq!(d.request_id(), 3);
    assert_eq!(d.checkpoint_ts(), 40);
    assert!(!d.is_initialized());
    assert!(!d.is_closed());
    assert_eq!(d.seq(), 0);
    assert_eq!(d.backlog_len(), 0);
    assert!(d.has_room(u64::MAX));
}

#[test]
fn messages_carry_the_tags_and_a_rising_sequence_number() {
    let mut d = Downstream::new(7, 8, 9, 0);
    let mut out = Vec::new();
    assert_eq!(d.deliver(row(EventKind::Committed, "a", "1", 1, 2, 0), &mut out), Ok(()));
    assert_eq!(d.deliver(row(EventKind::Committed, "b", "2", 3, 4, 0), &mut out), Ok(()));
    assert_eq!(
        out,
        vec![
            Outbound {
                region_id: 7,
                conn_id: 8,
                request_id: 9,
                seq: 0,
                body: Body::Row(row(EventKind::Committed, "a", "1", 1, 2, 0)),
            },
            Outbound {
                region_id: 7,
                conn_id: 8,
                request_id: 9,
                seq: 1,
                body: Body::Row(row(EventKind::Committed, "b", "2", 3, 4, 0)),
            },
        ]
    );
    assert_eq!(d.seq(), 2);
    assert!(!d.has_room(u64::MAX));
    assert!(d.has_room(u64::MAX - 2));
}

#[test]
fn deliver_fails_once_closed() {
    let mut d = Downstream::new(1, 1, 1, 0);
    let mut out = Vec::new();
    d.close();
    assert!(d.is_closed());
    assert_eq!(d.deliver(row(EventKind::Committed, "a", "1", 1, 2, 0), &mut out), Err(Closed));
    assert!(out.is_empty());
    assert_eq!(d.seq(), 0);
}

#[test]
fn deliver_shows_a_record_as_the_delegate_would() {
    let mut d = Downstream::new(1, 1, 1, 0);
    let mut out = Vec::new();
    assert_eq!(d.deliver(row(EventKind::Prewrite, "a", "x", 5, 0, 2), &mut out), Ok(()));
    // An older generation and a marker are accepted and not shown.
    assert_eq!(d.deliver(row(EventKind::Prewrite, "a", "w", 5, 0, 1), &mut out), Ok(()));
    assert_eq!(d.deliver(EventRow::initialized(), &mut out), Ok(()));
    assert_eq!(d.deliver(row(EventKind::Commit, "a", "", 5, 6, 0), &mut out), Ok(()));
    assert_eq!(
        bodies(&out),
        vec![
            Body::Row(row(EventKind::Prewrite, "a", "x", 5, 0, 2)),
            Body::Row(row(EventKind::Commit, "a", "x", 5, 6, 0)),
        ]
    );
    assert!(!d.is_initialized());
}

#[test]
fn the_watermark_waits_for_the_marker() {
    let mut d = Downstream::new(1, 1, 1, 0);
    let mut out = Vec::new();
    assert!(!d.on_resolved_ts(10, &mut out));
    assert!(out.is_empty());
    d.mark_initialized(&mut out);
    assert!(d.is_initialized());
    assert!(d.on_resolved_ts(11, &mut out));
    assert_eq!(bodies(&out), vec![Body::Row(EventRow::initialized()), Body::ResolvedTs(11)]);
}

#[test]
fn mark_initialized_is_idempotent() {
    let mut d = Downstream::new(1, 1, 1, 0);
    let mut out = Vec::new();
    d.mark_initialized(&mut out);
    d.mark_initialized(&mut out);
    assert_eq!(bodies(&out), vec![Body::Row(EventRow::initialized())]);
    assert!(d.is_initialized());
    assert_eq!(d.seq(), 1);
}

#[test]
fn live_events_are_held_back_until_the_scan_is_over() {
    let mut d = Downstream::new(1, 1, 1, 100);
    let mut out = Vec::new();
    d.on_change_log(
        &vec![
            entry(LogKind::Prewrite, "a", "1", 150, 0, 0),
            // Stamped below the checkpoint, and held back all the same.
            entry(LogKind::Prewrite, "b", "2", 50, 0, 0),
        ],
        &mut out,
    );
    assert!(out.is_empty());
    assert_eq!(d.backlog_len(), 2);
    d.on_scan(
        ScanStep::Finished(vec![row(EventKind::Committed, "c", "3", 10, 20, 0), EventRow::initialized()]),
        &mut out,
    );
    assert_eq!(
        bodies(&out),
        vec![
            Body::Row(row(EventKind::Committed, "c", "3", 10, 20, 0)),
            Body::Row(EventRow::initialized()),
            Body::Row(row(EventKind::Prewrite, "a", "1", 150, 0, 0)),
            Body::Row(row(EventKind::Prewrite, "b", "2", 50, 0, 0)),
        ]
    );
    assert!(d.is_initialized());
    assert_eq!(d.backlog_len(), 0);
    assert_eq!(d.seq(), 4);
}

#[test]
fn an_initialized_downstream_is_shown_live_events_at_once() {
    let mut d = initialized(1, 1, 1);
    let mut out = Vec::new();
    d.on_change_log(
        &vec![entry(LogKind::Prewrite, "a", "1", 5, 0, 0), entry(LogKind::Commit, "a", "", 5, 6, 0)],
        &mut out,
    );
    assert_eq!(
        bodies(&out),
        vec![
            Body::Row(row(EventKind::Prewrite, "a", "1", 5, 0, 0)),
            // The commit takes the value of the prewrite it ends.
            Body::Row(row(EventKind::Commit, "a", "1", 5, 6, 0)),
        ]
    );
}

#[test]
fn a_prewrite_of_an_old_generation_is_discarded() {
    let mut d = initialized(1, 1, 1);
    let mut out = Vec::new();
    d.on_change_log(
        &vec![
            entry(LogKind::Prewrite, "key", "y", 10, 0, 2),
            entry(LogKind::Prewrite, "key", "x", 10, 0, 1),
            entry(LogKind::Prewrite, "key", "y", 10, 0, 2),
            entry(LogKind::Prewrite, "key", "z", 10, 0, 3),
            entry(LogKind::Commit, "key", "", 10, 20, 0),
        ],
        &mut out,
    );
    assert_eq!(
        bodies(&out),
        vec![
            Body::Row(row(EventKind::Prewrite, "key", "y", 10, 0, 2)),
            Body::Row(row(EventKind::Prewrite, "key", "z", 10, 0, 3)),
            Body::Row(row(EventKind::Commit, "key", "z", 10, 20, 0)),
        ]
    );
}

#[test]
fn generations_are_kept_per_key_and_transaction() {
    let mut d = initialized(1, 1, 1);
    let mut out = Vec::new();
    d.on_change_log(
        &vec![
            entry(LogKind::Prewrite, "a", "1", 10, 0, 5),
            // Another key, and another transaction on the same key.
            entry(LogKind::Prewrite, "b", "2", 10, 0, 1),
            entry(LogKind::Prewrite, "a", "3", 11, 0, 1),
        ],
        &mut out,
    );
    assert_eq!(out.len(), 3);
}

#[test]
fn a_rollback_ends_the_prewrite() {
    let mut d = initialized(1, 1, 1);
    let mut out = Vec::new();
    d.on_change_log(
        &vec![
            entry(LogKind::Prewrite, "a", "1", 10, 0, 3),
            entry(LogKind::Rollback, "a", "", 10, 0, 0),
            // After the rollback the generations start over.
            entry(LogKind::Prewrite, "a", "2", 10, 0, 1),
        ],
        &mut out,
    );
    assert_eq!(
        bodies(&out),
        vec![
            Body::Row(row(EventKind::Prewrite, "a", "1", 10, 0, 3)),
            Body::Row(row(EventKind::Rollback, "a", "", 10, 0, 0)),
            Body::Row(row(EventKind::Prewrite, "a", "2", 10, 0, 1)),
        ]
    );
}

#[test]
fn a_commit_without_a_prewrite_passes_as_it_is() {
    let mut d = initialized(1, 1, 1);
    let mut out = Vec::new();
    d.on_change_log(&vec![entry(LogKind::Commit, "a", "v", 10, 20, 0)], &mut out);
    assert_eq!(bodies(&out), vec![Body::Row(row(EventKind::Commit, "a", "v", 10, 20, 0))]);
}

#[test]
fn scan_batches_are_shown_as_they_come() {
    let mut d = Downstream::new(1, 1, 1, 100);
    let mut out = Vec::new();
    d.on_scan(ScanStep::Rows(vec![row(EventKind::Committed, "a", "1", 1, 2, 0)]), &mut out);
    assert_eq!(bodies(&out), vec![Body::Row(row(EventKind::Committed, "a", "1", 1, 2, 0))]);
    assert!(!d.is_initialized());
    d.on_scan(ScanStep::Done, &mut out);
    assert_eq!(out.len(), 1);
}

#[test]
fn a_marker_inside_a_batch_is_not_shown() {
    let mut d = Downstream::new(1, 1, 1, 100);
    let mut out = Vec::new();
    d.on_scan(
        ScanStep::Rows(vec![EventRow::initialized(), row(EventKind::Committed, "a", "1", 1, 2, 0)]),
        &mut out,
    );
    assert_eq!(bodies(&out), vec![Body::Row(row(EventKind::Committed, "a", "1", 1, 2, 0))]);
    assert!(!d.is_initialized());
    assert!(!d.on_resolved_ts(5, &mut out));
}

#[test]
fn the_last_batch_is_followed_by_exactly_one_marker() {
    let mut d = Downstream::new(1, 1, 1, 100);
    let mut out = Vec::new();
    d.on_scan(ScanStep::Finished(vec![EventRow::initialized()]), &mut out);
    assert_eq!(bodies(&out), vec![Body::Row(EventRow::initialized())]);
    // A batch that forgot its marker gets one as well.
    let mut d = Downstream::new(1, 1, 1, 100);
    let mut out = Vec::new();
    d.on_scan(ScanStep::Finished(vec![]), &mut out);
    assert_eq!(bodies(&out), vec![Body::Row(EventRow::initialized())]);
    assert!(d.is_initialized());
}

#[test]
fn scan_output_after_the_marker_is_ignored() {
    let mut d = initialized(1, 1, 1);
    let mut out = Vec::new();
    d.on_scan(ScanStep::Rows(vec![row(EventKind::Committed, "a", "1", 1, 2, 0)]), &mut out);
    d.on_scan(ScanStep::Failed, &mut out);
    assert!(out.is_empty());
    assert!(!d.is_closed());
}

#[test]
fn a_cancelled_scan_ends_with_epoch_not_match() {
    let mut d = Downstream::new(1, 1, 1, 100);
    let mut out = Vec::new();
    d.on_scan(ScanStep::Cancelled, &mut out);
    assert_eq!(bodies(&out), vec![Body::Error(RegionError::EpochNotMatch)]);
    assert!(d.is_closed());
}

#[test]
fn a_failed_scan_ends_with_region_not_found() {
    let mut d = Downstream::new(1, 1, 1, 100);
    let mut out = Vec::new();
    d.on_scan(ScanStep::Failed, &mut out);
    assert_eq!(bodies(&out), vec![Body::Error(RegionError::RegionNotFound)]);
    assert!(d.is_closed());
}

#[test]
fn nothing_follows_a_terminal_error() {
    let mut d = initialized(1, 1, 1);
    let mut out = Vec::new();
    d.fail(RegionError::NotLeader, &mut out);
    assert_eq!(bodies(&out), vec![Body::Error(RegionError::NotLeader)]);
    let sent = out.len();
    d.on_change_log(&vec![entry(LogKind::Prewrite, "a", "1", 5, 0, 0)], &mut out);
    assert!(!d.on_resolved_ts(9, &mut out));
    d.fail(RegionError::NotLeader, &mut out);
    d.mark_initialized(&mut out);
    d.on_scan(ScanStep::Finished(vec![]), &mut out);
    assert_eq!(d.deliver(row(EventKind::Committed, "a", "1", 1, 2, 0), &mut out), Err(Closed));
    assert_eq!(out.len(), sent);
}

#[test]
fn the_scan_and_the_live_stream_agree_on_generations() {
    // The lock that the scan found is of generation 2; the same prewrite was
    // also seen live and held back. It is shown once.
    let mut d = Downstream::new(1, 1, 1, 100);
    let mut out = Vec::new();
    d.on_change_log(&vec![entry(LogKind::Prewrite, "key", "y", 10, 0, 2)], &mut out);
    d.on_scan(
        ScanStep::Finished(vec![row(EventKind::Prewrite, "key", "y", 10, 0, 2), EventRow::initialized()]),
        &mut out,
    );
    assert_eq!(
        bodies(&out),
        vec![Body::Row(row(EventKind::Prewrite, "key", "y", 10, 0, 2)), Body::Row(EventRow::initialized())]
    );
}

#[test]
fn restart_puts_a_downstream_back_to_scanning() {
    let mut d = initialized(1, 2, 3);
    let mut out = Vec::new();
    d.on_change_log(&vec![entry(LogKind::Prewrite, "a", "1", 5, 0, 4)], &mut out);
    let seq = d.seq();
    d.restart();
    assert!(!d.is_initialized());
    assert_eq!(d.backlog_len(), 0);
    assert_eq!(d.seq(), seq);
    assert_eq!(d.conn_id(), 2);
    assert_eq!(d.request_id(), 3);
    assert!(!d.on_resolved_ts(9, &mut out));
    // The table of open prewrites starts over with the new scan.
    let mut out = Vec::new();
    d.on_scan(
        ScanStep::Finished(vec![row(EventKind::Prewrite, "a", "1", 5, 0, 4), EventRow::initialized()]),
        &mut out,
    );
    assert_eq!(out.len(), 2);
}
