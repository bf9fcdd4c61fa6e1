use components::cdc::coordinator::{route, Coordinator, Deregister, Probe, Reply, Task};
use components::cdc::delegate::RegisterError;
use components::cdc::event::{
    Body, Epoch, EventKind, EventRow, LogEntry, LogKind, Outbound, RegionError, ScanRequest,
};
use components::cdc::scanner::{ScanStep, Scanner, StoredEntry};

fn k(s: &str) -> Vec<u8> {
    s.as_bytes().to_vec()
}

fn epoch(version: u64) -> Epoch {
    Epoch { version, conf_ver: 1 }
}

fn prewrite(key: &[u8], value: &[u8], start_ts: u64, generation: u64) -> LogEntry {
    LogEntry {
        kind: LogKind::Prewrite,
        key: key.to_vec(),
        value: value.to_vec(),
        start_ts,
        commit_ts: 0,
        generation,
        old_value: Vec::new(),
    }
}

fn commit(key: &[u8], start_ts: u64, commit_ts: u64) -> LogEntry {
    LogEntry {
        kind: LogKind::Commit,
        key: key.to_vec(),
        value: Vec::new(),
        start_ts,
        commit_ts,
        generation: 0,
        old_value: Vec::new(),
    }
}

/// A node: the coordinator with a clock and the region's storage as the
/// scans see it.
struct Suite {
    endpoint: Coordinator,
    tso: u64,
    storage: Vec<StoredEntry>,
}

impl Suite {
    fn new() -> Suite {
        Suite { endpoint: Coordinator::new(1024, false), tso: 0, storage: Vec::new() }
    }

    fn get_tso(&mut self) -> u64 {
        self.tso += 1;
        self.tso
    }

    fn handle(&mut self, task: Task) -> (Reply, Vec<Outbound>) {
        let mut out = Vec::new();
        let reply = self.endpoint.try_handle(task, &mut out).expect("the counters have room");
        (reply, out)
    }

    /// Sends a subscription request and returns the scan to start.
    fn subscribe(&mut self, region_id: u64, conn_id: u64, request_id: u64, checkpoint_ts: u64) -> ScanRequest {
        let (reply, out) = self.handle(Task::Register {
            region_id,
            epoch: epoch(1),
            conn_id,
            request_id,
            checkpoint_ts,
        });
        assert!(out.is_empty());
        match reply {
            Reply::Registered(scan) => scan,
            other => panic!("unexpected reply {:?}", other),
        }
    }

    /// Runs a whole scan over the storage as it is now and hands its steps in.
    fn run_scan(&mut self, scan: ScanRequest, batch_size: usize) -> Vec<Outbound> {
        let mut scanner = Scanner::new(scan.region_id, scan.epoch, scan.checkpoint_ts, batch_size);
        let mut sent = Vec::new();
        let mut from = 0;
        while !scanner.is_done() {
            let to = std::cmp::min(from + scanner.batch_size(), self.storage.len());
            let read = self.storage[from..to].to_vec();
            from = to;
            let step = scanner.next_batch::<()>(scan.epoch, Ok(read));
            let (_, out) = self.handle(Task::Scan { scan, step });
            sent.extend(out);
        }
        sent
    }

    /// Applies a committed write to the storage and tells the coordinator.
    fn must_kv_prewrite(&mut self, region_id: u64, key: &[u8], value: &[u8], start_ts: u64) -> Vec<Outbound> {
        self.storage.push(StoredEntry::Lock { key: key.to_vec(), value: value.to_vec(), start_ts, generation: 0 });
        self.handle(Task::ChangeLog { region_id, epoch: epoch(1), entries: vec![prewrite(key, value, start_ts, 0)] }).1
    }

    fn must_kv_commit(&mut self, region_id: u64, key: &[u8], start_ts: u64, commit_ts: u64) -> Vec<Outbound> {
        let mut value = Vec::new();
        self.storage.retain(|e| match e {
            StoredEntry::Lock { key: k, value: v, start_ts: s, .. } if k == key && *s == start_ts => {
                value = v.clone();
                false
            }
            _ => true,
        });
        self.storage.push(StoredEntry::Write { key: key.to_vec(), value, start_ts, commit_ts });
        self.handle(Task::ChangeLog { region_id, epoch: epoch(1), entries: vec![commit(key, start_ts, commit_ts)] }).1
    }

    fn tick(&mut self, min_ts: u64) -> Vec<Outbound> {
        self.handle(Task::MinTsTick { min_ts }).1
    }

    fn validate(&mut self, probe: Probe) -> usize {
        match self.handle(Task::Validate(probe)).0 {
            Reply::Answer(n) => n,
            other => panic!("unexpected reply {:?}", other),
        }
    }
}

fn of_conn(out: &[Outbound], conn_id: u64) -> Vec<Outbound> {
    out.iter().filter(|m| m.conn_id == conn_id).cloned().collect()
}

fn rows(out: &[Outbound]) -> Vec<EventRow> {
    out.iter()
        .filter_map(|m| match &m.body {
            Body::Row(r) => Some(r.clone()),
            _ => None,
        })
        .collect()
}

// Two subscriptions are scanning one region; the first subscriber goes away
// before the scans run. The second must still reach a terminal state.
#[test]
fn test_cdc_double_scan_deregister() {
    let mut suite = Suite::new();

    let (key, v) = (b"xkey1".to_vec(), b"value".to_vec());
    let start_ts1 = suite.get_tso();
    suite.must_kv_prewrite(1, &key, &v, start_ts1);
    let commit_ts1 = suite.get_tso();
    suite.must_kv_commit(1, &key, start_ts1, commit_ts1);

    // The first connection registers; its scan does not start yet.
    let checkpoint = suite.get_tso();
    let scan_0 = suite.subscribe(1, 0, 0, checkpoint);
    let scan_1 = suite.subscribe(1, 1, 0, checkpoint);
    assert_eq!(suite.validate(Probe::PendingScans(1)), 2);

    // Close the first connection.
    let (reply, out) = suite.handle(Task::Deregister(Deregister::Downstream {
        region_id: 1,
        conn_id: 0,
        request_id: 0,
    }));
    assert_eq!(reply, Reply::Deregistered(true));
    assert!(out.is_empty());

    // Now the scans run. Nothing reaches the connection that is gone.
    assert!(suite.run_scan(scan_0, 16).is_empty());
    let events = suite.run_scan(scan_1, 16);
    assert!(events.iter().all(|m| m.conn_id == 1));
    let mut terminal = false;
    for event in &events {
        match &event.body {
            Body::Error(err) => {
                assert_eq!(*err, RegionError::RegionNotFound, "{:?}", err);
                terminal = true;
            }
            Body::Row(row) if row.kind == EventKind::Initialized => terminal = true,
            _ => {}
        }
    }
    assert!(terminal);
    assert_eq!(suite.tick(100), vec![Outbound {
        region_id: 1,
        conn_id: 1,
        request_id: 0,
        seq: 2,
        body: Body::ResolvedTs(100),
    }]);
}

// Two subscriptions are scanning one region and one read of the first scan
// fails. Each connection ends up with the watermark or with an error.
#[test]
fn test_cdc_double_scan_io_error() {
    let mut suite = Suite::new();

    let (key, v) = (b"xkey1".to_vec(), b"value".to_vec());
    let start_ts1 = suite.get_tso();
    suite.must_kv_prewrite(1, &key, &v, start_ts1);
    let commit_ts1 = suite.get_tso();
    suite.must_kv_commit(1, &key, start_ts1, commit_ts1);

    let checkpoint = suite.get_tso();
    let scan_0 = suite.subscribe(1, 0, 0, checkpoint);
    let scan_1 = suite.subscribe(1, 1, 0, checkpoint);

    // The first scan meets a failing read.
    let mut scanner = Scanner::new(scan_0.region_id, scan_0.epoch, scan_0.checkpoint_ts, 16);
    let step = scanner.next_batch(scan_0.epoch, Err("io error"));
    assert_eq!(step, ScanStep::Failed);
    let (_, mut events) = suite.handle(Task::Scan { scan: scan_0, step });
    events.extend(suite.run_scan(scan_1, 16));
    events.extend(suite.tick(100));

    for conn_id in [0, 1] {
        let mut good = false;
        for event in of_conn(&events, conn_id) {
            match event.body {
                // The watermark has been pushed, so this connection is good.
                Body::ResolvedTs(_) => {
                    assert_eq!(event.region_id, 1);
                    good = true;
                }
                Body::Error(err) => {
                    assert_eq!(err, RegionError::RegionNotFound, "{:?}", err);
                    good = true;
                }
                Body::Row(_) => {}
            }
        }
        assert!(good);
    }
    // The failure of the first scan did not touch the second subscription.
    assert_eq!(of_conn(&events, 0).len(), 1);
    assert_eq!(of_conn(&events, 1).last().unwrap().body, Body::ResolvedTs(100));
    assert_eq!(suite.endpoint.region_count(), 1);
}

// A region splits after a scan has completed: the subscriber has the scan
// output and the marker, then the watermark, then the error.
#[test]
fn test_cdc_scan_continues_after_region_split() {
    let mut suite = Suite::new();

    let (key, v) = (b"xkey1".to_vec(), b"value".to_vec());
    let start_ts1 = suite.get_tso();
    suite.must_kv_prewrite(1, &key, &v, start_ts1);
    let commit_ts1 = suite.get_tso();
    suite.must_kv_commit(1, &key, start_ts1, commit_ts1);

    let checkpoint = suite.get_tso();
    let scan = suite.subscribe(1, 0, 0, checkpoint);

    let events = suite.run_scan(scan, 16);
    let es = rows(&events);
    assert_eq!(events.len(), 2, "{:?}", events);
    assert!(es.len() == 2, "{:?}", es);
    let e = &es[0];
    assert_eq!(e.kind, EventKind::Committed, "{:?}", es);
    assert_eq!(e.start_ts, start_ts1, "{:?}", es);
    assert_eq!(e.commit_ts, commit_ts1, "{:?}", es);
    assert_eq!(e.key, b"xkey1", "{:?}", es);
    assert_eq!(e.value, b"value", "{:?}", es);
    let e = &es[1];
    assert_eq!(e.kind, EventKind::Initialized, "{:?}", es);

    let min_ts = suite.get_tso();
    let events = suite.tick(min_ts);
    assert_eq!(events.len(), 1);
    match events[0].body {
        Body::ResolvedTs(ts) => {
            assert_eq!(events[0].region_id, 1, "{:?}", events);
            assert!(ts >= commit_ts1, "resolved_ts: {:?}, commit_ts1: {:?}", ts, commit_ts1);
        }
        ref other => panic!("unexpected event {:?}", other),
    }

    let (_, events) = suite.handle(Task::Deregister(Deregister::RegionSplit { region_id: 1 }));
    match events[0].body {
        Body::Error(err) => assert_eq!(err, RegionError::EpochNotMatch, "{:?}", err),
        ref other => panic!("unexpected event {:?}", other),
    }
    assert_eq!(events.len(), 1);

    // Zero further entries after the error.
    let start_ts2 = suite.get_tso();
    assert!(suite.must_kv_prewrite(1, b"xkey1", b"value2", start_ts2).is_empty());
    assert!(suite.tick(1000).is_empty());
    assert_eq!(suite.endpoint.region_count(), 0);
}

fn do_test_no_resolved_ts_before_downstream_initialized(_version: &str) {
    let mut suite = Suite::new();

    // Create 2 changefeeds and the second will be blocked in initialization.
    let scan_0 = suite.subscribe(1, 0, 0, 0);
    suite.run_scan(scan_0, 16);
    // Wait the first capture has been initialized.
    let events = suite.tick(10);
    assert!(events.iter().any(|m| m.conn_id == 0 && matches!(m.body, Body::ResolvedTs(_))));
    let scan_1 = suite.subscribe(1, 1, 0, 0);

    // The first downstream can receive timestamps but the second should receive nothing.
    for n in 0..10 {
        let events = suite.tick(20 + n);
        assert_eq!(of_conn(&events, 0).len(), 1);
        assert_eq!(of_conn(&events, 0)[0].body, Body::ResolvedTs(20 + n));
        assert!(of_conn(&events, 1).is_empty());
    }

    // Once its scan is over the second receives them too, after its marker.
    let events = suite.run_scan(scan_1, 16);
    assert_eq!(rows(&events), vec![EventRow::initialized()]);
    let events = suite.tick(40);
    assert_eq!(of_conn(&events, 1).len(), 1);
    assert_eq!(of_conn(&events, 1)[0].body, Body::ResolvedTs(40));
}

// The watermark is not pushed to a downstream that has not been initialized.
#[test]
fn test_no_resolved_ts_before_downstream_initialized() {
    for version in &["4.0.7", "4.0.8"] {
        do_test_no_resolved_ts_before_downstream_initialized(version);
    }
}

// Changes that the coordinator took before a subscription registered are in
// that subscription's snapshot: they reach the older subscription as live
// events and the new one as scan output, with the marker last.
#[test]
fn test_cdc_observed_before_incremental_scan_snapshot() {
    let mut suite = Suite::new();

    let scan_0 = suite.subscribe(1, 0, 0, 0);
    suite.run_scan(scan_0, 16);

    let mut older = Vec::new();
    for version in 0..10 {
        let key = format!("key-{:0>6}", version);
        let start_ts = suite.get_tso();
        older.extend(suite.must_kv_prewrite(1, key.as_bytes(), b"value", start_ts));
        let commit_ts = suite.get_tso();
        older.extend(suite.must_kv_commit(1, key.as_bytes(), start_ts, commit_ts));
    }
    assert_eq!(older.len(), 20);
    assert!(older.iter().all(|m| m.conn_id == 0));

    let checkpoint = suite.get_tso();
    let scan = suite.subscribe(1, 1, 0, checkpoint);
    let events = suite.run_scan(scan, 4);

    // `Initialized` should be the last event.
    let (mut initialized_pos, mut row_count) = (0, 0);
    for row in rows(&events) {
        row_count += 1;
        if row.kind == EventKind::Initialized {
            initialized_pos = row_count;
        }
    }
    assert!(initialized_pos > 0);
    assert_eq!(initialized_pos, row_count);
    assert_eq!(row_count, 11);
    // And nothing is pending for the new subscription.
    assert!(of_conn(&suite.tick(0), 1).iter().all(|m| !matches!(m.body, Body::Row(_))));
}

#[test]
fn test_old_value_cache_without_downstreams() {
    fn check_old_value_cache(suite: &mut Suite, updates: usize) {
        assert_eq!(suite.validate(Probe::OldValueCache), updates);
    }

    let mutation = |start_ts: u64| LogEntry {
        kind: LogKind::Prewrite,
        key: b"key".to_vec(),
        value: b"value".to_vec(),
        start_ts,
        commit_ts: 0,
        generation: 0,
        old_value: Vec::new(),
    };

    let mut suite = Suite::new();

    // Add a subscription and then check old value cache.
    let scan = suite.subscribe(1, 0, 0, 0);
    suite.run_scan(scan, 16); // Wait until the initialization finishes.

    // Old value cache will be updated because there is 1 capture.
    suite.handle(Task::ChangeLog { region_id: 1, epoch: epoch(1), entries: vec![mutation(3)] });
    suite.handle(Task::ChangeLog { region_id: 1, epoch: epoch(1), entries: vec![commit(b"key", 3, 4)] });
    check_old_value_cache(&mut suite, 1);

    suite.handle(Task::Deregister(Deregister::Downstream { region_id: 1, conn_id: 0, request_id: 0 }));

    // Old value cache won't be updated because there is no captures.
    suite.handle(Task::ChangeLog { region_id: 1, epoch: epoch(1), entries: vec![mutation(5)] });
    suite.handle(Task::ChangeLog { region_id: 1, epoch: epoch(1), entries: vec![commit(b"key", 5, 6)] });
    check_old_value_cache(&mut suite, 1);
}

// A write that is still in flight holds the watermark below its timestamp.
#[test]
fn test_cdc_rawkv_resolved_ts() {
    let mut suite = Suite::new();
    let region_id = 1;

    let scan = suite.subscribe(region_id, 0, 0, 0);
    let events = suite.run_scan(scan, 16);
    let es = rows(&events);
    assert!(es.len() == 1, "{:?}", es);
    let e = &es[0];
    assert_eq!(e.kind, EventKind::Initialized, "{:?}", es);

    for _ in 0..1000 {
        suite.get_tso();
    }
    let ts = suite.get_tso();
    // The write takes the next timestamp and does not complete.
    suite.handle(Task::ChangeLog {
        region_id,
        epoch: epoch(1),
        entries: vec![prewrite(b"rk3", b"v3", ts + 1, 0)],
    });

    let now = suite.get_tso() + 100;
    let events = suite.tick(now);
    let event = match events[0].body {
        Body::ResolvedTs(ts) => ts,
        ref other => panic!("unknown event {:?}", other),
    };
    assert!(ts + 1 >= event, "{} {}", ts, event);
    assert_eq!(event, ts);
    // Receive again to make sure resolved ts <= ongoing request's ts.
    let events = suite.tick(now + 100);
    let event = match events[0].body {
        Body::ResolvedTs(ts) => ts,
        ref other => panic!("unknown event {:?}", other),
    };
    assert!(ts + 1 >= event, "{} {}", ts, event);
}

// One region can be subscribed multiple times in one stream with different
// `request_id`s.
#[test]
fn test_cdc_stream_multiplexing() {
    let mut suite = Suite::new();
    let rid = 1;

    // Subscribe the region with request_id 1.
    let scan = suite.subscribe(rid, 0, 1, 10);
    assert!(!suite.run_scan(scan, 16).is_empty());

    // Subscribe the region with request_id 2.
    let scan = suite.subscribe(rid, 0, 2, 20);

    // Request 2 can't receive a ResolvedTs, because it's not ready.
    for n in 0..10 {
        let events = suite.tick(100 + n);
        assert_eq!(events.len(), 1);
        let req_id = events[0].request_id;
        assert_eq!(req_id, 1);
    }

    // After request 2 is ready, it must receive a ResolvedTs.
    suite.run_scan(scan, 16);
    let mut request_2_ready = false;
    for n in 0..20 {
        for event in suite.tick(200 + n) {
            if event.request_id == 2 && matches!(event.body, Body::ResolvedTs(_)) {
                request_2_ready = true;
            }
        }
        if request_2_ready {
            break;
        }
    }
    assert!(request_2_ready);
}

// A region whose scan has not started yet is still told of a split.
#[test]
fn test_cdc_notify_pending_regions() {
    let mut suite = Suite::new();
    let rid = 1;

    let scan = suite.subscribe(rid, 0, 1, 0);
    let (_, events) = suite.handle(Task::Deregister(Deregister::RegionSplit { region_id: rid }));
    assert_eq!(events.len(), 1);
    assert_eq!(events[0].request_id, 1);
    assert!(matches!(events[0].body, Body::Error(_)));
    // The scan that starts late finds nobody to report to.
    assert!(suite.run_scan(scan, 16).is_empty());
}

// A region splits while the scan of a subscription is outstanding.
#[test]
fn test_delegate_fail_during_incremental_scan() {
    let mut suite = Suite::new();
    let rid = 1;
    let cf_tso = suite.get_tso();

    let start_tso = cf_tso + 1;
    for i in 0..10 {
        let key = format!("key_{:03}", i).into_bytes();
        suite.storage.push(StoredEntry::Lock { key, value: vec![b'x'; 16], start_ts: start_tso, generation: 0 });
    }

    let scan = suite.subscribe(rid, 0, 100, cf_tso + 500);
    // The first batch of the scan is read before the split.
    let mut scanner = Scanner::new(scan.region_id, scan.epoch, scan.checkpoint_ts, 4);
    let step = scanner.next_batch::<()>(epoch(1), Ok(suite.storage[0..4].to_vec()));
    let (_, mut events) = suite.handle(Task::Scan { scan, step });

    // The split is seen by the scan at its next batch, and by the coordinator.
    let step = scanner.next_batch::<()>(epoch(2), Ok(suite.storage[4..8].to_vec()));
    assert_eq!(step, ScanStep::Cancelled);
    events.extend(suite.handle(Task::Scan { scan, step }).1);
    events.extend(suite.handle(Task::Deregister(Deregister::RegionSplit { region_id: rid })).1);

    // After the incremental scan is canceled, we can get the epoch_not_match error.
    // And after the error is retrieved, no more entries can be received.
    let mut get_epoch_not_match = false;
    for event in events {
        assert_eq!(event.request_id, 100);
        match event.body {
            Body::Error(err) => {
                assert!(!get_epoch_not_match);
                assert_eq!(err, RegionError::EpochNotMatch, "{:?}", err);
                get_epoch_not_match = true;
            }
            Body::Row(_) => {
                assert!(!get_epoch_not_match);
            }
            _ => unreachable!(),
        }
    }
    assert!(get_epoch_not_match);

    let step = scanner.next_batch::<()>(epoch(2), Ok(suite.storage[8..10].to_vec()));
    assert_eq!(step, ScanStep::Done);
    assert!(suite.handle(Task::Scan { scan, step }).1.is_empty());
    assert!(suite.tick(1000).is_empty());
}

// A transaction writes one key twice, with a rising generation, while a
// subscription is scanning. The subscriber is shown the prewrites in rising
// generation, and the commit with the value of the last one.
#[test]
fn test_cdc_pipeline_dml() {
    let mut suite = Suite::new();
    let rid = 1;

    let prewrite_tso = suite.get_tso();
    let (key, v) = (b"key".to_vec(), vec![b'x'; 16]);
    suite.storage.push(StoredEntry::Lock { key: key.clone(), value: v, start_ts: prewrite_tso, generation: 1 });
    // Nobody is subscribed yet.
    assert!(suite
        .handle(Task::ChangeLog {
            region_id: rid,
            epoch: epoch(1),
            entries: vec![prewrite(&key, &vec![b'x'; 16], prewrite_tso, 1)],
        })
        .1
        .is_empty());

    let cf_tso = suite.get_tso();
    let scan = suite.subscribe(rid, 0, 1, cf_tso);
    // The scan reads its snapshot now and delivers it later.
    let mut scanner = Scanner::new(scan.region_id, scan.epoch, scan.checkpoint_ts, 16);
    let step = scanner.next_batch::<()>(epoch(1), Ok(suite.storage.clone()));

    let (key, v) = (b"key".to_vec(), vec![b'y'; 16]);
    let held = suite.handle(Task::ChangeLog {
        region_id: rid,
        epoch: epoch(1),
        entries: vec![prewrite(&key, &v, prewrite_tso, 2)],
    });
    assert!(held.1.is_empty());

    let commit_tso = suite.get_tso();
    let held = suite.handle(Task::ChangeLog {
        region_id: rid,
        epoch: epoch(1),
        entries: vec![commit(b"key", prewrite_tso, commit_tso)],
    });
    assert!(held.1.is_empty());

    let (_, events) = suite.handle(Task::Scan { scan, step });
    let entries = rows(&events);
    assert_eq!(entries.len(), 4);
    assert_eq!(entries[0].kind, EventKind::Prewrite);
    assert_eq!(entries[0].generation, 1);
    assert_eq!(entries[0].value, vec![b'x'; 16]);
    assert_eq!(entries[1].kind, EventKind::Initialized);

    assert_eq!(entries[2].kind, EventKind::Prewrite);
    assert_eq!(entries[2].generation, 2);
    assert_eq!(entries[2].value, vec![b'y'; 16]);

    assert_eq!(entries[3].kind, EventKind::Commit);
    assert_eq!(entries[3].start_ts, prewrite_tso);
    assert_eq!(entries[3].commit_ts, commit_tso);
    assert_eq!(entries[3].value, vec![b'y'; 16]);
}

#[test]
fn test_cdc_unresolved_region_count_before_finish_scan_lock() {
    fn check_unresolved_region_count(suite: &mut Suite, target_count: usize) {
        let actual_count = suite.validate(Probe::UnresolvedRegions);
        if actual_count != target_count {
            panic!(
                "check unresolve region failed, actual_count: {}, target_count: {}",
                actual_count, target_count
            );
        }
    }

    let mut suite = Suite::new();

    // create event feed for all regions
    let region_count = 100;
    let mut scans = Vec::with_capacity(region_count);
    for region in 0..region_count {
        scans.push(suite.subscribe(region as u64 + 1, region as u64, 0, 0));
    }

    check_unresolved_region_count(&mut suite, region_count);

    // Wait until all initialization finishes and check again.
    for scan in scans {
        suite.run_scan(scan, 16);
    }
    check_unresolved_region_count(&mut suite, 0);
}

#[test]
fn a_refused_registration_changes_nothing() {
    let mut suite = Suite::new();
    suite.subscribe(1, 0, 1, 0);
    let (reply, out) = suite.handle(Task::Register {
        region_id: 1,
        epoch: epoch(1),
        conn_id: 0,
        request_id: 1,
        checkpoint_ts: 9,
    });
    assert_eq!(reply, Reply::Refused(RegisterError::DuplicateRequest));
    assert!(out.is_empty());
    let (reply, _) = suite.handle(Task::Register {
        region_id: 1,
        epoch: epoch(2),
        conn_id: 0,
        request_id: 2,
        checkpoint_ts: 9,
    });
    assert_eq!(reply, Reply::Refused(RegisterError::EpochNotMatch));
    assert_eq!(suite.validate(Probe::PendingScans(1)), 1);
    assert_eq!(suite.endpoint.region_count(), 1);
}

#[test]
fn the_first_registration_makes_the_delegate_at_the_request_epoch() {
    let mut c = Coordinator::new(4, false);
    assert_eq!(c.region_count(), 0);
    let scan = c.register(7, epoch(3), 1, 2, 50).unwrap();
    assert_eq!(scan, ScanRequest { region_id: 7, epoch: epoch(3), conn_id: 1, request_id: 2, checkpoint_ts: 50 });
    assert_eq!(c.region_count(), 1);
    assert_eq!(c.validate(Probe::PendingScans(7)), 1);
    assert_eq!(c.validate(Probe::PendingScans(8)), 0);
    assert_eq!(c.validate(Probe::UnresolvedRegions), 1);
}

#[test]
fn the_last_deregistration_drops_the_delegate_and_clears_the_cache() {
    let mut c = Coordinator::new(4, false);
    c.register(1, epoch(1), 0, 1, 0).unwrap();
    c.register(1, epoch(1), 0, 2, 0).unwrap();
    let mut out = Vec::new();
    c.on_committed_entries(
        1,
        epoch(1),
        &vec![LogEntry { old_value: k("before"), ..prewrite(b"a", b"after", 5, 0) }],
        &mut out,
    );
    assert_eq!(c.old_value(k("a"), 5, |_key: &Vec<u8>, _ts: u64| k("storage")), k("before"));
    assert!(c.deregister(1, 0, 1));
    assert_eq!(c.region_count(), 1);
    assert_eq!(c.old_value(k("a"), 5, |_key: &Vec<u8>, _ts: u64| k("storage")), k("before"));
    assert!(c.deregister(1, 0, 2));
    assert_eq!(c.region_count(), 0);
    assert!(!c.deregister(1, 0, 2));
    // The entry is gone with the last subscription; the counter is not.
    assert_eq!(c.validate(Probe::OldValueCache), 1);
    assert_eq!(c.old_value(k("a"), 5, |_key: &Vec<u8>, _ts: u64| k("storage")), k("storage"));
    assert_eq!(c.validate(Probe::OldValueCache), 2);
}

#[test]
fn the_cache_counts_one_update_for_each_prewrite() {
    let mut c = Coordinator::new(16, false);
    c.register(1, epoch(1), 0, 1, 0).unwrap();
    let mut out = Vec::new();
    c.on_committed_entries(
        1,
        epoch(1),
        &vec![prewrite(b"a", b"1", 5, 0), prewrite(b"b", b"2", 5, 0), commit(b"a", 5, 6), commit(b"b", 5, 6)],
        &mut out,
    );
    assert_eq!(c.validate(Probe::OldValueCache), 2);
    // Entries of a region that nobody subscribed to are not looked at.
    c.on_committed_entries(2, epoch(1), &vec![prewrite(b"a", b"1", 7, 0)], &mut out);
    assert_eq!(c.validate(Probe::OldValueCache), 2);
    // Nor are entries that come under a stale epoch.
    c.on_committed_entries(1, epoch(9), &vec![prewrite(b"a", b"1", 8, 0)], &mut out);
    assert_eq!(c.validate(Probe::OldValueCache), 2);
    assert_eq!(c.region_count(), 0);
}

#[test]
fn a_regional_error_stays_in_its_region() {
    let mut suite = Suite::new();
    let scan_1 = suite.subscribe(1, 0, 1, 0);
    let scan_2 = suite.subscribe(2, 0, 2, 0);
    suite.run_scan(scan_1, 16);
    suite.run_scan(scan_2, 16);

    let (_, events) = suite.handle(Task::Deregister(Deregister::RegionDestroy { region_id: 1 }));
    assert_eq!(
        events,
        vec![Outbound { region_id: 1, conn_id: 0, request_id: 1, seq: 1, body: Body::Error(RegionError::RegionNotFound) }]
    );
    let (_, events) = suite.handle(Task::Deregister(Deregister::LeaderChange { region_id: 2 }));
    assert_eq!(
        events,
        vec![Outbound { region_id: 2, conn_id: 0, request_id: 2, seq: 1, body: Body::Error(RegionError::NotLeader) }]
    );
    assert_eq!(suite.endpoint.region_count(), 0);
    let (_, events) = suite.handle(Task::Deregister(Deregister::RegionDestroy { region_id: 3 }));
    assert!(events.is_empty());
}

#[test]
fn the_tick_reports_the_smallest_watermark_and_the_stalled_regions() {
    let mut suite = Suite::new();
    let scan_1 = suite.subscribe(1, 0, 1, 0);
    let scan_2 = suite.subscribe(2, 0, 2, 0);
    let _scan_3 = suite.subscribe(3, 0, 3, 0);
    suite.run_scan(scan_1, 16);
    suite.run_scan(scan_2, 16);
    suite.handle(Task::ChangeLog { region_id: 2, epoch: epoch(1), entries: vec![prewrite(b"a", b"1", 40, 0)] });

    let (reply, events) = suite.handle(Task::MinTsTick { min_ts: 100 });
    match reply {
        Reply::Tick(report) => {
            assert_eq!(report.min_resolved_ts, Some(39));
            assert_eq!(report.stalled, vec![3]);
        }
        other => panic!("unexpected reply {:?}", other),
    }
    assert_eq!(events.len(), 2);
    assert_eq!((events[0].region_id, events[0].body.clone()), (1, Body::ResolvedTs(100)));
    assert_eq!((events[1].region_id, events[1].body.clone()), (2, Body::ResolvedTs(39)));
}

#[test]
fn a_tick_on_an_empty_node_reports_nothing() {
    let mut c = Coordinator::new(4, false);
    let mut out = Vec::new();
    let report = c.on_min_ts(100, &mut out);
    assert_eq!(report.min_resolved_ts, None);
    assert!(report.stalled.is_empty());
    assert!(out.is_empty());
}

fn merged(reload_on_merge: bool) -> (Coordinator, Vec<ScanRequest>, Vec<Outbound>) {
    let mut c = Coordinator::new(4, reload_on_merge);
    let mut out = Vec::new();
    for region_id in [1, 2] {
        let scan = c.register(region_id, epoch(1), 0, region_id, 0).unwrap();
        c.on_scan(scan, ScanStep::Finished(vec![EventRow::initialized()]), &mut out);
    }
    let mut out = Vec::new();
    let scans = c.on_region_merge(1, 2, epoch(5), &mut out);
    (c, scans, out)
}

#[test]
fn a_merge_without_reload_evicts_both_regions() {
    let (mut c, scans, out) = merged(false);
    assert!(scans.is_empty());
    assert_eq!(
        out,
        vec![
            Outbound { region_id: 1, conn_id: 0, request_id: 1, seq: 1, body: Body::Error(RegionError::RegionNotFound) },
            Outbound { region_id: 2, conn_id: 0, request_id: 2, seq: 1, body: Body::Error(RegionError::EpochNotMatch) },
        ]
    );
    assert_eq!(c.region_count(), 0);
    // The subscriber subscribes again, under the new epoch.
    assert!(c.register(2, epoch(5), 0, 2, 0).is_ok());
}

#[test]
fn a_merge_with_reload_keeps_the_target() {
    let (mut c, scans, out) = merged(true);
    assert_eq!(scans, vec![ScanRequest { region_id: 2, epoch: epoch(5), conn_id: 0, request_id: 2, checkpoint_ts: 0 }]);
    assert_eq!(
        out,
        vec![Outbound { region_id: 1, conn_id: 0, request_id: 1, seq: 1, body: Body::Error(RegionError::RegionNotFound) }]
    );
    assert_eq!(c.region_count(), 1);
    assert_eq!(c.validate(Probe::PendingScans(2)), 1);
    // Until the new scan is over the target's subscription gets no watermark.
    let mut out = Vec::new();
    c.on_min_ts(100, &mut out);
    assert!(out.is_empty());
    c.on_scan(scans[0], ScanStep::Finished(vec![EventRow::initialized()]), &mut out);
    c.on_min_ts(100, &mut out);
    assert_eq!(out.last().unwrap().body, Body::ResolvedTs(100));
    // Entries under the old epoch are stale now.
    let mut out = Vec::new();
    c.on_committed_entries(2, epoch(1), &vec![prewrite(b"a", b"1", 7, 0)], &mut out);
    assert_eq!(out.len(), 1);
    assert_eq!(out[0].body, Body::Error(RegionError::EpochNotMatch));
}

#[test]
fn a_rolled_back_merge_follows_the_same_option() {
    for reload in [false, true] {
        let mut suite = Suite::new();
        suite.endpoint = Coordinator::new(4, reload);
        let scan = suite.subscribe(1, 0, 1, 0);
        suite.run_scan(scan, 16);
        let (reply, out) = suite.handle(Task::Deregister(Deregister::RollbackMerge { region_id: 1, epoch: epoch(4) }));
        if reload {
            assert_eq!(
                reply,
                Reply::Rescan(vec![ScanRequest { region_id: 1, epoch: epoch(4), conn_id: 0, request_id: 1, checkpoint_ts: 0 }])
            );
            assert!(out.is_empty());
            assert_eq!(suite.endpoint.region_count(), 1);
        } else {
            assert_eq!(reply, Reply::Rescan(vec![]));
            assert_eq!(out.len(), 1);
            assert_eq!(out[0].body, Body::Error(RegionError::EpochNotMatch));
            assert_eq!(suite.endpoint.region_count(), 0);
        }
    }
}

#[test]
fn a_probe_changes_nothing() {
    let mut suite = Suite::new();
    suite.subscribe(1, 0, 1, 0);
    for probe in [Probe::OldValueCache, Probe::UnresolvedRegions, Probe::PendingScans(1)] {
        let (_, out) = suite.handle(Task::Validate(probe));
        assert!(out.is_empty());
    }
    assert_eq!(suite.validate(Probe::OldValueCache), 0);
    assert_eq!(suite.validate(Probe::UnresolvedRegions), 1);
    assert_eq!(suite.validate(Probe::PendingScans(1)), 1);
}

#[test]
fn every_task_of_a_region_goes_to_one_worker() {
    assert_eq!(route(10, 4), 2);
    assert_eq!(route(11, 4), 3);
    assert_eq!(route(12, 4), 0);
    assert_eq!(route(u64::MAX, 1), 0);
    for region_id in 0..100 {
        assert_eq!(route(region_id, 7), route(region_id, 7));
        assert!(route(region_id, 7) < 7);
    }
}

#[test]
fn the_counters_have_room_on_a_fresh_node() {
    let mut c = Coordinator::new(4, false);
    assert!(c.can_tick());
    assert!(c.can_stop(1));
    assert!(c.can_log(1, 10));
    c.register(1, epoch(1), 0, 1, 0).unwrap();
    assert!(c.can_log(1, 10));
    assert!(c.can_scan(ScanRequest { region_id: 1, epoch: epoch(1), conn_id: 0, request_id: 1, checkpoint_ts: 0 }, 10));
    assert!(c.accepts(&Task::MinTsTick { min_ts: 1 }));
    // A change log that the update counter cannot count is not taken.
    let mut out = Vec::new();
    c.on_committed_entries(1, epoch(1), &vec![prewrite(b"a", b"1", 5, 0)], &mut out);
    assert!(!c.can_log(1, usize::MAX));
}

#[test]
fn the_queue_is_drained_in_submission_order() {
    let mut c = Coordinator::new(4, false);
    let scan = ScanRequest { region_id: 1, epoch: epoch(1), conn_id: 0, request_id: 1, checkpoint_ts: 0 };
    let mut queue = std::collections::VecDeque::new();
    queue.push_back(Task::Register { region_id: 1, epoch: epoch(1), conn_id: 0, request_id: 1, checkpoint_ts: 0 });
    queue.push_back(Task::ChangeLog { region_id: 1, epoch: epoch(1), entries: vec![prewrite(b"a", b"1", 5, 0)] });
    queue.push_back(Task::Scan { scan, step: ScanStep::Finished(vec![EventRow::initialized()]) });
    queue.push_back(Task::MinTsTick { min_ts: 100 });
    queue.push_back(Task::Validate(Probe::UnresolvedRegions));
    let mut out = Vec::new();
    let replies = c.drain(&mut queue, &mut out);
    assert!(queue.is_empty());
    assert_eq!(replies.len(), 5);
    assert_eq!(replies[0], Reply::Registered(scan));
    assert_eq!(replies[1], Reply::Done);
    assert_eq!(replies[2], Reply::Done);
    assert!(matches!(replies[3], Reply::Tick(_)));
    assert_eq!(replies[4], Reply::Answer(0));
    // The prewrite came before the scan was over: it follows the marker.
    assert_eq!(
        out.iter().map(|m| (m.seq, m.body.clone())).collect::<Vec<_>>(),
        vec![
            (0, Body::Row(EventRow::initialized())),
            (
                1,
                Body::Row(EventRow {
                    kind: EventKind::Prewrite,
                    key: b"a".to_vec(),
                    value: b"1".to_vec(),
                    start_ts: 5,
                    commit_ts: 0,
                    generation: 0,
                })
            ),
            (2, Body::ResolvedTs(4)),
        ]
    );
}

#[test]
fn a_closed_connection_loses_all_its_subscriptions() {
    let mut suite = Suite::new();
    let a = suite.subscribe(1, 7, 1, 0);
    suite.subscribe(1, 8, 1, 0);
    suite.subscribe(2, 7, 1, 0);
    suite.subscribe(2, 7, 2, 0);
    suite.run_scan(a, 16);
    let (reply, out) = suite.handle(Task::Deregister(Deregister::Conn { conn_id: 7 }));
    assert_eq!(reply, Reply::Done);
    assert!(out.is_empty());
    // Region 2 had no other subscriber and is gone; region 1 keeps one.
    assert_eq!(suite.endpoint.region_count(), 1);
    assert_eq!(suite.validate(Probe::PendingScans(1)), 1);
    assert_eq!(suite.validate(Probe::PendingScans(2)), 0);
    assert!(suite.tick(100).is_empty());
    // The other connection is untouched and can go on.
    let (reply, _) = suite.handle(Task::Deregister(Deregister::Downstream {
        region_id: 1,
        conn_id: 8,
        request_id: 1,
    }));
    assert_eq!(reply, Reply::Deregistered(true));
    assert_eq!(suite.endpoint.region_count(), 0);
    // Closing a connection that holds nothing changes nothing.
    let (reply, out) = suite.handle(Task::Deregister(Deregister::Conn { conn_id: 7 }));
    assert_eq!(reply, Reply::Done);
    assert!(out.is_empty());
}
