use components::cdc::delegate::{Delegate, DelegateState, RegisterError};
use components::cdc::event::{
    Body, Epoch, EventKind, EventRow, LogEntry, LogKind, Outbound, RegionError, ScanRequest,
};
use components::cdc::scanner::ScanStep;

fn k(s: &str) -> Vec<u8> {
    s.as_bytes().to_vec()
}

fn epoch(version: u64) -> Epoch {
    Epoch { version, conf_ver: 1 }
}

fn entry(kind: LogKind, key: &str, value: &str, start_ts: u64, commit_ts: u64, generation: u64) -> LogEntry {
    LogEntry { kind, key: k(key), value: k(value), start_ts, commit_ts, generation, old_value: Vec::new() }
}

fn row(kind: EventKind, key: &str, value: &str, start_ts: u64, commit_ts: u64, generation: u64) -> EventRow {
    EventRow { kind, key: k(key), value: k(value), start_ts, commit_ts, generation }
}

fn finish(d: &mut Delegate, conn_id: u64, request_id: u64, e: Epoch) -> Vec<Outbound> {
    let mut out = Vec::new();
    d.on_scan(conn_id, request_id, e, ScanStep::Finished(vec![EventRow::initialized()]), &mut out);
    out
}

#[test]
fn a_delegate_starts_idle() {
    let d = Delegate::new(1, epoch(1));
    assert_eq!(d.state(), DelegateState::Idle);
    assert_eq!(d.region_id(), 1);
    assert_eq!(d.epoch(), epoch(1));
    assert_eq!(d.downstream_count(), 0);
    assert_eq!(d.pending_scans(), 0);
    assert!(!d.is_ready());
    assert_eq!(d.resolved_ts(), 0);
}

#[test]
fn the_states_of_a_delegate() {
    let mut d = Delegate::new(1, epoch(1));
    assert_eq!(d.register(1, 1, 0, epoch(1)), Ok(()));
    assert_eq!(d.state(), DelegateState::Scanning);
    assert_eq!(d.pending_scans(), 1);
    finish(&mut d, 1, 1, epoch(1));
    assert_eq!(d.state(), DelegateState::Steady);
    assert_eq!(d.pending_scans(), 0);
    assert!(d.is_ready());
    assert_eq!(d.register(1, 2, 0, epoch(1)), Ok(()));
    assert_eq!(d.state(), DelegateState::Scanning);
    assert!(d.is_ready());
    let mut out = Vec::new();
    d.stop(RegionError::RegionNotFound, &mut out);
    assert_eq!(d.state(), DelegateState::Stopped);
    assert_eq!(d.downstream_count(), 0);
    assert_eq!(out.len(), 2);
}

#[test]
fn registrations_that_are_turned_down() {
    let mut d = Delegate::new(1, epoch(1));
    assert_eq!(d.register(1, 1, 0, epoch(1)), Ok(()));
    assert_eq!(d.register(1, 1, 5, epoch(1)), Err(RegisterError::DuplicateRequest));
    assert_eq!(d.register(1, 2, 0, epoch(2)), Err(RegisterError::EpochNotMatch));
    // The same request id on another connection is another subscription.
    assert_eq!(d.register(2, 1, 0, epoch(1)), Ok(()));
    assert_eq!(d.downstream_count(), 2);
    let mut out = Vec::new();
    d.stop(RegionError::RegionNotFound, &mut out);
    assert_eq!(d.register(3, 3, 0, epoch(1)), Err(RegisterError::RegionNotFound));
    assert_eq!(d.downstream_count(), 0);
}

#[test]
fn live_events_fan_out_by_initialization() {
    let mut d = Delegate::new(1, epoch(1));
    d.register(1, 1, 0, epoch(1)).unwrap();
    finish(&mut d, 1, 1, epoch(1));
    d.register(1, 2, 0, epoch(1)).unwrap();
    let mut out = Vec::new();
    d.on_change_log(epoch(1), &vec![entry(LogKind::Prewrite, "a", "1", 10, 0, 0)], &mut out);
    // Only the initialized subscription is shown the event now.
    assert_eq!(
        out,
        vec![Outbound {
            region_id: 1,
            conn_id: 1,
            request_id: 1,
            seq: 1,
            body: Body::Row(row(EventKind::Prewrite, "a", "1", 10, 0, 0)),
        }]
    );
    // The other gets it after its own scan output and marker.
    let out = finish(&mut d, 1, 2, epoch(1));
    assert_eq!(
        out,
        vec![
            Outbound { region_id: 1, conn_id: 1, request_id: 2, seq: 0, body: Body::Row(EventRow::initialized()) },
            Outbound {
                region_id: 1,
                conn_id: 1,
                request_id: 2,
                seq: 1,
                body: Body::Row(row(EventKind::Prewrite, "a", "1", 10, 0, 0)),
            },
        ]
    );
    assert_eq!(d.state(), DelegateState::Steady);
}

#[test]
fn entries_under_another_epoch_stop_the_delegate() {
    let mut d = Delegate::new(1, epoch(1));
    d.register(1, 1, 0, epoch(1)).unwrap();
    d.register(2, 1, 0, epoch(1)).unwrap();
    finish(&mut d, 1, 1, epoch(1));
    let mut out = Vec::new();
    d.on_change_log(epoch(2), &vec![entry(LogKind::Prewrite, "a", "1", 10, 0, 0)], &mut out);
    assert_eq!(
        out,
        vec![
            Outbound { region_id: 1, conn_id: 1, request_id: 1, seq: 1, body: Body::Error(RegionError::EpochNotMatch) },
            Outbound { region_id: 1, conn_id: 2, request_id: 1, seq: 0, body: Body::Error(RegionError::EpochNotMatch) },
        ]
    );
    assert_eq!(d.state(), DelegateState::Stopped);
    // Nothing happens any more.
    let mut out = Vec::new();
    d.on_change_log(epoch(1), &vec![entry(LogKind::Prewrite, "a", "1", 10, 0, 0)], &mut out);
    d.on_min_ts(100, &mut out);
    d.on_scan(1, 1, epoch(1), ScanStep::Finished(vec![]), &mut out);
    assert!(out.is_empty());
}

#[test]
fn the_resolver_follows_the_lock_events() {
    let mut d = Delegate::new(1, epoch(1));
    d.register(1, 1, 0, epoch(1)).unwrap();
    finish(&mut d, 1, 1, epoch(1));
    let mut out = Vec::new();
    d.on_change_log(
        epoch(1),
        &vec![entry(LogKind::Prewrite, "a", "1", 10, 0, 0), entry(LogKind::Prewrite, "b", "2", 10, 0, 0)],
        &mut out,
    );
    let mut out = Vec::new();
    assert_eq!(d.on_min_ts(100, &mut out), 9);
    assert_eq!(out.len(), 1);
    assert_eq!(out[0].body, Body::ResolvedTs(9));
    let mut out = Vec::new();
    d.on_change_log(epoch(1), &vec![entry(LogKind::Commit, "a", "", 10, 11, 0)], &mut out);
    // One of the two locks at 10 is still outstanding.
    assert_eq!(d.on_min_ts(100, &mut out), 9);
    d.on_change_log(epoch(1), &vec![entry(LogKind::Rollback, "b", "", 10, 0, 0)], &mut out);
    assert_eq!(d.on_min_ts(100, &mut out), 100);
    assert_eq!(d.resolved_ts(), 100);
}

#[test]
fn the_watermark_goes_to_initialized_subscriptions_only() {
    let mut d = Delegate::new(1, epoch(1));
    d.register(1, 1, 0, epoch(1)).unwrap();
    d.register(1, 2, 0, epoch(1)).unwrap();
    let mut out = Vec::new();
    assert_eq!(d.on_min_ts(10, &mut out), 10);
    assert!(out.is_empty());
    finish(&mut d, 1, 2, epoch(1));
    let mut out = Vec::new();
    d.on_min_ts(20, &mut out);
    assert_eq!(
        out,
        vec![Outbound { region_id: 1, conn_id: 1, request_id: 2, seq: 1, body: Body::ResolvedTs(20) }]
    );
    assert_eq!(d.is_initialized(1, 1), Some(false));
    assert_eq!(d.is_initialized(1, 2), Some(true));
    assert_eq!(d.is_initialized(9, 9), None);
}

#[test]
fn deregister_touches_nothing_else() {
    let mut d = Delegate::new(1, epoch(1));
    d.register(1, 1, 0, epoch(1)).unwrap();
    d.register(1, 2, 0, epoch(1)).unwrap();
    assert!(d.deregister(1, 1));
    assert!(!d.deregister(1, 1));
    assert_eq!(d.downstream_count(), 1);
    assert_eq!(d.pending_scans(), 1);
    let out = finish(&mut d, 1, 2, epoch(1));
    assert_eq!(out.len(), 1);
    assert_eq!(d.state(), DelegateState::Steady);
    assert!(d.deregister(1, 2));
    assert_eq!(d.state(), DelegateState::Idle);
}

#[test]
fn a_scan_step_for_a_gone_subscription_is_dropped() {
    let mut d = Delegate::new(1, epoch(1));
    d.register(1, 1, 0, epoch(1)).unwrap();
    let out = finish(&mut d, 5, 5, epoch(1));
    assert!(out.is_empty());
    assert_eq!(d.pending_scans(), 1);
}

#[test]
fn a_scan_step_of_a_stale_scan_is_dropped() {
    let mut d = Delegate::new(1, epoch(1));
    d.register(1, 1, 0, epoch(1)).unwrap();
    let scans = d.reload(epoch(2));
    assert_eq!(
        scans,
        vec![ScanRequest { region_id: 1, epoch: epoch(2), conn_id: 1, request_id: 1, checkpoint_ts: 0 }]
    );
    // The scan that ran under the old epoch comes in late.
    assert!(finish(&mut d, 1, 1, epoch(1)).is_empty());
    assert_eq!(d.pending_scans(), 1);
    assert_eq!(finish(&mut d, 1, 1, epoch(2)).len(), 1);
    assert_eq!(d.pending_scans(), 0);
}

#[test]
fn a_failed_scan_drops_its_subscription_only() {
    let mut d = Delegate::new(1, epoch(1));
    d.register(1, 1, 0, epoch(1)).unwrap();
    d.register(1, 2, 0, epoch(1)).unwrap();
    finish(&mut d, 1, 1, epoch(1));
    let mut out = Vec::new();
    d.on_scan(1, 2, epoch(1), ScanStep::Failed, &mut out);
    assert_eq!(
        out,
        vec![Outbound { region_id: 1, conn_id: 1, request_id: 2, seq: 0, body: Body::Error(RegionError::RegionNotFound) }]
    );
    assert_eq!(d.downstream_count(), 1);
    assert_eq!(d.is_initialized(1, 1), Some(true));
    assert_eq!(d.state(), DelegateState::Steady);
}

#[test]
fn reload_keeps_the_subscriptions_and_the_watermark() {
    let mut d = Delegate::new(1, epoch(1));
    d.register(1, 1, 7, epoch(1)).unwrap();
    d.register(2, 1, 9, epoch(1)).unwrap();
    finish(&mut d, 1, 1, epoch(1));
    let mut out = Vec::new();
    assert_eq!(d.on_min_ts(50, &mut out), 50);
    let scans = d.reload(epoch(3));
    assert_eq!(
        scans,
        vec![
            ScanRequest { region_id: 1, epoch: epoch(3), conn_id: 1, request_id: 1, checkpoint_ts: 7 },
            ScanRequest { region_id: 1, epoch: epoch(3), conn_id: 2, request_id: 1, checkpoint_ts: 9 },
        ]
    );
    assert_eq!(d.epoch(), epoch(3));
    assert_eq!(d.state(), DelegateState::Scanning);
    assert_eq!(d.pending_scans(), 2);
    assert_eq!(d.resolved_ts(), 50);
    let mut out = Vec::new();
    d.on_min_ts(60, &mut out);
    assert!(out.is_empty());
}

#[test]
fn room_is_counted_per_subscription() {
    let mut d = Delegate::new(1, epoch(1));
    assert!(d.has_room(u64::MAX));
    d.register(1, 1, 0, epoch(1)).unwrap();
    assert!(d.has_room(u64::MAX));
    finish(&mut d, 1, 1, epoch(1));
    assert!(!d.has_room(u64::MAX));
    assert!(d.has_room(u64::MAX - 1));
    assert!(d.can_scan(1, 1, 10));
    assert!(d.can_scan(9, 9, usize::MAX));
}

#[test]
fn a_second_prewrite_of_the_same_key_is_the_same_lock() {
    let mut d = Delegate::new(1, epoch(1));
    d.register(1, 1, 0, epoch(1)).unwrap();
    finish(&mut d, 1, 1, epoch(1));
    let mut out = Vec::new();
    d.on_change_log(
        epoch(1),
        &vec![entry(LogKind::Prewrite, "a", "x", 10, 0, 1), entry(LogKind::Prewrite, "a", "y", 10, 0, 2)],
        &mut out,
    );
    assert_eq!(d.on_min_ts(100, &mut out), 9);
    d.on_change_log(epoch(1), &vec![entry(LogKind::Commit, "a", "", 10, 11, 0)], &mut out);
    // One commit releases the one lock, however often it was prewritten.
    assert_eq!(d.on_min_ts(100, &mut out), 100);
}

#[test]
fn the_commit_of_an_unknown_lock_releases_nothing() {
    let mut d = Delegate::new(1, epoch(1));
    d.register(1, 1, 0, epoch(1)).unwrap();
    finish(&mut d, 1, 1, epoch(1));
    let mut out = Vec::new();
    d.on_change_log(epoch(1), &vec![entry(LogKind::Prewrite, "b", "1", 10, 0, 0)], &mut out);
    // Key "a" was locked by the same transaction before the delegate was there.
    d.on_change_log(epoch(1), &vec![entry(LogKind::Commit, "a", "", 10, 11, 0)], &mut out);
    assert_eq!(d.on_min_ts(100, &mut out), 9);
    d.on_change_log(epoch(1), &vec![entry(LogKind::Rollback, "b", "", 10, 0, 0)], &mut out);
    assert_eq!(d.on_min_ts(100, &mut out), 100);
}

#[test]
fn a_lock_that_a_scan_finds_holds_the_watermark() {
    let mut d = Delegate::new(1, epoch(1));
    d.register(1, 1, 100, epoch(1)).unwrap();
    let mut out = Vec::new();
    d.on_scan(
        1,
        1,
        epoch(1),
        ScanStep::Finished(vec![row(EventKind::Prewrite, "a", "x", 10, 0, 0), EventRow::initialized()]),
        &mut out,
    );
    // The lock was taken before the delegate was there; the scan reported it.
    assert_eq!(d.on_min_ts(100, &mut out), 9);
    d.on_change_log(epoch(1), &vec![entry(LogKind::Commit, "a", "", 10, 120, 0)], &mut out);
    assert_eq!(d.on_min_ts(100, &mut out), 100);
}

#[test]
fn a_lock_released_before_the_scan_reports_it_is_not_outstanding() {
    let mut d = Delegate::new(1, epoch(1));
    d.register(1, 1, 100, epoch(1)).unwrap();
    let mut out = Vec::new();
    // The scan has read its snapshot, with the lock in it; then the commit
    // comes in live; then the scan reports.
    d.on_change_log(epoch(1), &vec![entry(LogKind::Commit, "a", "", 10, 20, 0)], &mut out);
    d.on_scan(
        1,
        1,
        epoch(1),
        ScanStep::Finished(vec![row(EventKind::Prewrite, "a", "x", 10, 0, 0), EventRow::initialized()]),
        &mut out,
    );
    assert_eq!(d.on_min_ts(100, &mut out), 100);
}

#[test]
fn a_lock_seen_live_and_by_the_scan_counts_once() {
    let mut d = Delegate::new(1, epoch(1));
    d.register(1, 1, 100, epoch(1)).unwrap();
    let mut out = Vec::new();
    d.on_change_log(epoch(1), &vec![entry(LogKind::Prewrite, "a", "x", 10, 0, 0)], &mut out);
    d.on_scan(
        1,
        1,
        epoch(1),
        ScanStep::Finished(vec![row(EventKind::Prewrite, "a", "x", 10, 0, 0), EventRow::initialized()]),
        &mut out,
    );
    assert_eq!(d.on_min_ts(100, &mut out), 9);
    d.on_change_log(epoch(1), &vec![entry(LogKind::Commit, "a", "", 10, 120, 0)], &mut out);
    assert_eq!(d.on_min_ts(200, &mut out), 200);
}

#[test]
fn scan_output_for_an_initialized_subscription_teaches_the_resolver_nothing() {
    let mut d = Delegate::new(1, epoch(1));
    d.register(1, 1, 100, epoch(1)).unwrap();
    finish(&mut d, 1, 1, epoch(1));
    let mut out = Vec::new();
    d.on_scan(1, 1, epoch(1), ScanStep::Rows(vec![row(EventKind::Prewrite, "a", "x", 10, 0, 0)]), &mut out);
    assert!(out.is_empty());
    assert_eq!(d.on_min_ts(100, &mut out), 100);
}

#[test]
fn disconnect_drops_the_subscriptions_of_one_connection() {
    let mut d = Delegate::new(1, epoch(1));
    d.register(1, 1, 0, epoch(1)).unwrap();
    d.register(2, 1, 0, epoch(1)).unwrap();
    d.register(1, 2, 0, epoch(1)).unwrap();
    finish(&mut d, 2, 1, epoch(1));
    assert_eq!(d.disconnect(1), 2);
    assert_eq!(d.downstream_count(), 1);
    assert_eq!(d.is_initialized(2, 1), Some(true));
    assert_eq!(d.is_initialized(1, 1), None);
    assert_eq!(d.state(), DelegateState::Steady);
    assert_eq!(d.disconnect(1), 0);
    assert_eq!(d.disconnect(2), 1);
    assert_eq!(d.state(), DelegateState::Idle);
}
