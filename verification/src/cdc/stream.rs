//! A subscription's stream: what one downstream sends over a whole sequence
//! of inputs, and the order that every such stream keeps.

use crate::cdc::downstream::{DownstreamModel, Sent};
use crate::cdc::event::{BodyModel, EventKind, LogEntryModel, OutboundModel, RegionError, RowModel};
use crate::cdc::lock_table::{LockMap, TxnKey};
use crate::cdc::scanner::{Read, ScanStepModel, ScannerModel, StoredModel, snapshot_rows};
use vstd::prelude::*;

verus! {

/// One thing that can happen to a subscription.
pub enum Input {
    /// One record is shown by hand.
    Deliver(RowModel),
    /// The live entries of a change log arrive.
    ChangeLog(Seq<LogEntryModel>),
    /// A step of the subscription's scan arrives.
    Scan(ScanStepModel),
    /// The region's watermark is offered.
    ResolvedTs(u64),
    /// The scan is declared over.
    MarkInitialized,
    /// The region fails the subscription with an error.
    Fail(RegionError),
    /// The subscriber goes away.
    Close,
}

impl DownstreamModel {
    /// The subscription after one input, with what it sent.
    pub open spec fn apply(self, input: Input) -> Sent {
        match input {
            Input::Deliver(row) => self.scan_row(row),
            Input::ChangeLog(entries) => self.on_change_log(entries),
            Input::Scan(step) => self.on_scan(step),
            Input::ResolvedTs(ts) => self.on_resolved_ts(ts),
            Input::MarkInitialized => self.mark_initialized(),
            Input::Fail(error) => self.fail(error),
            Input::Close => (self.close(), Seq::empty()),
        }
    }

    /// The subscription after the inputs in order, with all it sent.
    pub open spec fn run(self, inputs: Seq<Input>) -> Sent
        decreases inputs.len(),
    {
        if inputs.len() == 0 {
            (self, Seq::empty())
        } else {
            let before = self.run(inputs.drop_last());
            let last = before.0.apply(inputs.last());
            (last.0, before.1 + last.1)
        }
    }
}

/// The message is the `Initialized` marker.
pub open spec fn is_marker(m: OutboundModel) -> bool {
    m.body == BodyModel::Row(RowModel::initialized())
}

/// The message carries a watermark.
pub open spec fn is_watermark(m: OutboundModel) -> bool {
    m.body is ResolvedTs
}

/// Every message carries a record.
pub open spec fn rows_only(out: Seq<OutboundModel>) -> bool {
    forall|i: int| 0 <= i < out.len() ==> (#[trigger] out[i]).body is Row
}

proof fn lemma_emit_rows_rows_only(s: DownstreamModel, rows: Seq<RowModel>)
    ensures
        rows_only(s.emit_rows(rows).1),
    decreases rows.len(),
{
    if rows.len() > 0 {
        lemma_emit_rows_rows_only(s, rows.drop_last());
    }
}

proof fn lemma_scan_rows_rows_only(s: DownstreamModel, rows: Seq<RowModel>)
    ensures
        rows_only(s.scan_rows(rows).1),
        s.scan_rows(rows).0.initialized == s.initialized,
        s.scan_rows(rows).0.closed == s.closed,
    decreases rows.len(),
{
    if rows.len() > 0 {
        lemma_scan_rows_rows_only(s, rows.drop_last());
    }
}

/// A change log sends records only and leaves the two flags as they are.
pub proof fn lemma_change_log_rows_only(s: DownstreamModel, entries: Seq<LogEntryModel>)
    ensures
        rows_only(s.on_change_log(entries).1),
        s.on_change_log(entries).0.initialized == s.initialized,
        s.on_change_log(entries).0.closed == s.closed,
    decreases entries.len(),
{
    if entries.len() > 0 {
        lemma_change_log_rows_only(s, entries.drop_last());
    }
}

/// One input sends a watermark only to an initialized subscription, and a
/// subscription that it initializes is sent the marker and no watermark.
pub proof fn lemma_apply_keeps_order(s: DownstreamModel, input: Input)
    ensures
        forall|j: int|
            0 <= j < s.apply(input).1.len() && is_watermark(#[trigger] s.apply(input).1[j])
                ==> s.initialized,
        s.apply(input).0.initialized && !s.initialized ==> exists|i: int|
            0 <= i < s.apply(input).1.len() && is_marker(#[trigger] s.apply(input).1[i]),
{
    let r = s.apply(input);
    match input {
        Input::ChangeLog(entries) => {
            lemma_change_log_rows_only(s, entries);
        },
        Input::Scan(step) => {
            if !(s.closed || s.initialized) {
                match step {
                    ScanStepModel::Rows(rows) => {
                        lemma_scan_rows_rows_only(s, rows);
                    },
                    ScanStepModel::Finished(rows) => {
                        lemma_scan_rows_rows_only(s, rows);
                        let shown = s.scan_rows(rows);
                        lemma_mark_initialized(shown.0);
                        let done = shown.0.mark_initialized();
                        assert(r.1[shown.1.len() as int] == done.1[0]);
                    },
                    _ => {},
                }
            }
        },
        Input::MarkInitialized => {
            lemma_mark_initialized(s);
        },
        _ => {},
    }
}

/// Ending the scan of an open, scanning subscription sends the marker first
/// and then records only.
proof fn lemma_mark_initialized(s: DownstreamModel)
    ensures
        rows_only(s.mark_initialized().1),
        !s.closed && !s.initialized ==> s.mark_initialized().1.len() > 0 && is_marker(
            s.mark_initialized().1[0],
        ) && s.mark_initialized().0.initialized,
{
    if !(s.closed || s.initialized) {
        let marker = s.send(BodyModel::Row(RowModel::initialized()));
        lemma_emit_rows_rows_only(marker.0, s.backlog);
    }
}

/// No watermark before the marker: in everything that a subscription is
/// sent, from the moment it starts scanning, each watermark comes after an
/// `Initialized` marker.
pub proof fn law_watermark_follows_marker(s: DownstreamModel, inputs: Seq<Input>)
    requires
        !s.initialized,
    ensures
        forall|j: int|
            0 <= j < s.run(inputs).1.len() && is_watermark(#[trigger] s.run(inputs).1[j])
                ==> exists|i: int| 0 <= i < j && is_marker(s.run(inputs).1[i]),
        s.run(inputs).0.initialized ==> exists|i: int|
            0 <= i < s.run(inputs).1.len() && is_marker(s.run(inputs).1[i]),
    decreases inputs.len(),
{
    if inputs.len() > 0 {
        law_watermark_follows_marker(s, inputs.drop_last());
        let before = s.run(inputs.drop_last());
        let last = before.0.apply(inputs.last());
        let out = s.run(inputs).1;
        lemma_apply_keeps_order(before.0, inputs.last());
        assert forall|j: int| 0 <= j < out.len() && is_watermark(#[trigger] out[j]) implies exists|
            i: int,
        |
            0 <= i < j && is_marker(out[i]) by {
            if j < before.1.len() {
                assert(is_watermark(before.1[j]));
                let i = choose|i: int| 0 <= i < j && is_marker(before.1[i]);
                assert(is_marker(out[i]));
            } else {
                assert(is_watermark(last.1[j - before.1.len()]));
                let i = choose|i: int| 0 <= i < before.1.len() && is_marker(before.1[i]);
                assert(is_marker(out[i]));
            }
        }
        if last.0.initialized {
            if before.0.initialized {
                let i = choose|i: int| 0 <= i < before.1.len() && is_marker(before.1[i]);
                assert(is_marker(out[i]));
            } else {
                let i = choose|i: int| 0 <= i < last.1.len() && is_marker(#[trigger] last.1[i]);
                assert(is_marker(out[before.1.len() + i]));
            }
        }
    }
}

/// A closed subscription is sent nothing, whatever happens next.
pub proof fn law_closed_is_silent(s: DownstreamModel, inputs: Seq<Input>)
    requires
        s.closed,
    ensures
        s.run(inputs).1 == Seq::<OutboundModel>::empty(),
        s.run(inputs).0.closed,
    decreases inputs.len(),
{
    if inputs.len() > 0 {
        law_closed_is_silent(s, inputs.drop_last());
        let before = s.run(inputs.drop_last());
        match inputs.last() {
            Input::ChangeLog(entries) => {
                lemma_closed_change_log(before.0, entries);
            },
            _ => {},
        }
        assert(s.run(inputs).1 =~= Seq::<OutboundModel>::empty());
    }
}

proof fn lemma_closed_change_log(s: DownstreamModel, entries: Seq<LogEntryModel>)
    requires
        s.closed,
    ensures
        s.on_change_log(entries) == (s, Seq::<OutboundModel>::empty()),
    decreases entries.len(),
{
    if entries.len() > 0 {
        lemma_closed_change_log(s, entries.drop_last());
        assert(Seq::<OutboundModel>::empty() + Seq::<OutboundModel>::empty() =~= Seq::<
            OutboundModel,
        >::empty());
    }
}

/// A batch without a record of kind `Initialized` is shown like any other records.
proof fn lemma_scan_rows_plain(s: DownstreamModel, rows: Seq<RowModel>)
    requires
        forall|i: int| 0 <= i < rows.len() ==> (#[trigger] rows[i]).kind != EventKind::Initialized,
    ensures
        s.scan_rows(rows) == s.emit_rows(rows),
    decreases rows.len(),
{
    if rows.len() > 0 {
        assert forall|i: int| 0 <= i < rows.drop_last().len() implies (
        #[trigger] rows.drop_last()[i]).kind != EventKind::Initialized by {
            assert(rows.drop_last()[i] == rows[i]);
        }
        lemma_scan_rows_plain(s, rows.drop_last());
        assert(rows.last() == rows[rows.len() - 1]);
    }
}

/// A scan that completes, then a change of epoch: a subscription that holds
/// nothing back is sent the records of the snapshot, then the `Initialized`
/// marker once, then `EpochNotMatch`, and nothing after that.
pub proof fn law_scan_then_epoch_error(
    s: DownstreamModel,
    scan: ScannerModel,
    entries: Seq<StoredModel>,
    later: Seq<Input>,
)
    requires
        !s.closed,
        !s.initialized,
        s.backlog.len() == 0,
        !scan.done,
        entries.len() < scan.batch_size,
    ensures
        ({
            let step = scan.step(scan.epoch, Some(entries)).1;
            let scanned = s.on_scan(step);
            let rows = s.emit_rows(snapshot_rows(entries, scan.checkpoint_ts));
            let failed = scanned.0.fail(RegionError::EpochNotMatch);
            &&& scanned.1 == rows.1.push(rows.0.message(BodyModel::Row(RowModel::initialized())))
            &&& scanned.0.initialized
            &&& failed.1 == seq![
                scanned.0.message(BodyModel::Error(RegionError::EpochNotMatch)),
            ]
            &&& failed.0.run(later).1 == Seq::<OutboundModel>::empty()
        }),
{
    let snap = snapshot_rows(entries, scan.checkpoint_ts);
    let batch = snap.push(RowModel::initialized());
    crate::cdc::scanner::lemma_snapshot_rows(entries, scan.checkpoint_ts);
    lemma_scan_rows_plain(s, snap);
    assert(batch.drop_last() =~= snap);
    let shown = s.scan_rows(batch);
    assert(shown == s.emit_rows(snap));
    crate::cdc::downstream::lemma_emit_rows(s, snap);
    let done = shown.0.mark_initialized();
    assert(shown.0.backlog =~= Seq::<RowModel>::empty());
    assert(done.1 =~= seq![shown.0.message(BodyModel::Row(RowModel::initialized()))]);
    let scanned = s.on_scan(ScanStepModel::Finished(batch));
    assert(scanned.1 =~= shown.1.push(shown.0.message(BodyModel::Row(RowModel::initialized()))));
    let failed = scanned.0.fail(RegionError::EpochNotMatch);
    law_closed_is_silent(failed.0, later);
}

/// The entries of the reads, one read after the other.
pub open spec fn entries_of(reads: Seq<Seq<StoredModel>>) -> Seq<StoredModel>
    decreases reads.len(),
{
    if reads.len() == 0 {
        Seq::empty()
    } else {
        entries_of(reads.drop_last()) + reads.last()
    }
}

/// The calls of a scan that finds the region under `epoch` every time and
/// reads `reads` one after the other.
pub open spec fn reads_under(epoch: crate::cdc::event::Epoch, reads: Seq<Seq<StoredModel>>) -> Seq<
    Read,
> {
    reads.map_values(|entries: Seq<StoredModel>| (epoch, Some(entries)))
}

/// The steps of a scan as inputs of its subscription.
pub open spec fn scan_inputs(steps: Seq<ScanStepModel>) -> Seq<Input> {
    steps.map_values(|step: ScanStepModel| Input::Scan(step))
}

proof fn lemma_snapshot_rows_append(a: Seq<StoredModel>, b: Seq<StoredModel>, checkpoint_ts: u64)
    ensures
        snapshot_rows(a + b, checkpoint_ts) == snapshot_rows(a, checkpoint_ts) + snapshot_rows(
            b,
            checkpoint_ts,
        ),
    decreases b.len(),
{
    if b.len() == 0 {
        assert(a + b =~= a);
        assert(snapshot_rows(a, checkpoint_ts) + snapshot_rows(b, checkpoint_ts)
            =~= snapshot_rows(a, checkpoint_ts));
    } else {
        assert((a + b).drop_last() =~= a + b.drop_last());
        assert((a + b).last() == b.last());
        lemma_snapshot_rows_append(a, b.drop_last(), checkpoint_ts);
        let head = snapshot_rows(a, checkpoint_ts);
        let tail = snapshot_rows(b.drop_last(), checkpoint_ts);
        if b.last().visible(checkpoint_ts) {
            assert((head + tail).push(b.last().row()) =~= head + tail.push(b.last().row()));
        }
    }
}

proof fn lemma_emit_rows_append(s: DownstreamModel, a: Seq<RowModel>, b: Seq<RowModel>)
    ensures
        s.emit_rows(a + b).0 == s.emit_rows(a).0.emit_rows(b).0,
        s.emit_rows(a + b).1 == s.emit_rows(a).1 + s.emit_rows(a).0.emit_rows(b).1,
    decreases b.len(),
{
    if b.len() == 0 {
        assert(a + b =~= a);
        assert(s.emit_rows(a).1 + Seq::<OutboundModel>::empty() =~= s.emit_rows(a).1);
    } else {
        assert((a + b).drop_last() =~= a + b.drop_last());
        assert((a + b).last() == b.last());
        lemma_emit_rows_append(s, a, b.drop_last());
        let mid = s.emit_rows(a);
        let before = mid.0.emit_rows(b.drop_last());
        let last = before.0.emit_row(b.last());
        assert((mid.1 + before.1) + last.1 =~= mid.1 + (before.1 + last.1));
    }
}

/// While every read is full the scan goes on, and its subscription is sent
/// the records of all the entries read so far.
proof fn lemma_full_reads(s: DownstreamModel, scan: ScannerModel, full: Seq<Seq<StoredModel>>)
    requires
        !s.closed,
        !s.initialized,
        !scan.done,
        forall|i: int| 0 <= i < full.len() ==> (#[trigger] full[i]).len() == scan.batch_size,
    ensures
        scan.run(reads_under(scan.epoch, full)).0 == scan,
        scan.run(reads_under(scan.epoch, full)).1.len() == full.len(),
        s.run(scan_inputs(scan.run(reads_under(scan.epoch, full)).1)) == s.emit_rows(
            snapshot_rows(entries_of(full), scan.checkpoint_ts),
        ),
    decreases full.len(),
{
    let reads = reads_under(scan.epoch, full);
    if full.len() == 0 {
        assert(scan_inputs(scan.run(reads).1).len() == 0);
    } else {
        let init = full.drop_last();
        lemma_full_reads(s, scan, init);
        assert(reads.drop_last() =~= reads_under(scan.epoch, init));
        assert(reads.last() == (scan.epoch, Some(full.last())));
        let steps = scan.run(reads_under(scan.epoch, init)).1;
        let rows = snapshot_rows(full.last(), scan.checkpoint_ts);
        let step = ScanStepModel::Rows(rows);
        assert(full.last() == full[full.len() - 1]);
        assert(scan.step(scan.epoch, Some(full.last())) == (scan, step));
        assert(scan.run(reads).1 == steps.push(step));
        let inputs = scan_inputs(steps.push(step));
        assert(inputs.drop_last() =~= scan_inputs(steps));
        assert(inputs.last() == Input::Scan(step));
        let sofar = snapshot_rows(entries_of(init), scan.checkpoint_ts);
        let before = s.emit_rows(sofar);
        crate::cdc::downstream::lemma_emit_rows(s, sofar);
        crate::cdc::scanner::lemma_snapshot_rows(full.last(), scan.checkpoint_ts);
        lemma_scan_rows_plain(before.0, rows);
        lemma_snapshot_rows_append(entries_of(init), full.last(), scan.checkpoint_ts);
        lemma_emit_rows_append(s, sofar, rows);
    }
}

/// A scan of several batches that completes, then a change of epoch: a
/// subscription that holds nothing back is sent the records of the whole
/// snapshot in the order read, whatever the number of batches, then the
/// `Initialized` marker once, then `EpochNotMatch`, and nothing after that.
/// Every read of `full` fills a batch; the read `last` does not, and ends
/// the scan.
pub proof fn law_scan_in_batches_then_epoch_error(
    s: DownstreamModel,
    scan: ScannerModel,
    full: Seq<Seq<StoredModel>>,
    last: Seq<StoredModel>,
    later: Seq<Input>,
)
    requires
        !s.closed,
        !s.initialized,
        s.backlog.len() == 0,
        !scan.done,
        forall|i: int| 0 <= i < full.len() ==> (#[trigger] full[i]).len() == scan.batch_size,
        last.len() < scan.batch_size,
    ensures
        ({
            let steps = scan.run(reads_under(scan.epoch, full.push(last))).1;
            let scanned = s.run(scan_inputs(steps));
            let rows = s.emit_rows(
                snapshot_rows(entries_of(full) + last, scan.checkpoint_ts),
            );
            let failed = scanned.0.fail(RegionError::EpochNotMatch);
            &&& scanned.1 == rows.1.push(rows.0.message(BodyModel::Row(RowModel::initialized())))
            &&& scanned.0.initialized
            &&& failed.1 == seq![
                scanned.0.message(BodyModel::Error(RegionError::EpochNotMatch)),
            ]
            &&& failed.0.run(later).1 == Seq::<OutboundModel>::empty()
        }),
{
    let reads = reads_under(scan.epoch, full.push(last));
    lemma_full_reads(s, scan, full);
    assert(reads.drop_last() =~= reads_under(scan.epoch, full));
    assert(reads.last() == (scan.epoch, Some(last)));
    let steps = scan.run(reads_under(scan.epoch, full)).1;
    let step = scan.step(scan.epoch, Some(last)).1;
    assert(scan.run(reads).1 == steps.push(step));
    let inputs = scan_inputs(steps.push(step));
    assert(inputs.drop_last() =~= scan_inputs(steps));
    assert(inputs.last() == Input::Scan(step));
    let sofar = snapshot_rows(entries_of(full), scan.checkpoint_ts);
    let tail = snapshot_rows(last, scan.checkpoint_ts);
    let before = s.emit_rows(sofar);
    crate::cdc::downstream::lemma_emit_rows(s, sofar);
    law_scan_then_epoch_error(before.0, scan, last, later);
    lemma_snapshot_rows_append(entries_of(full), last, scan.checkpoint_ts);
    lemma_emit_rows_append(s, sofar, tail);
    let shown = before.0.emit_rows(tail);
    let marker = shown.0.message(BodyModel::Row(RowModel::initialized()));
    assert(before.1 + shown.1.push(marker) =~= (before.1 + shown.1).push(marker));
}

/// The message shows a record of `kind` for key and transaction `k`.
pub open spec fn shows(m: OutboundModel, kind: EventKind, k: TxnKey) -> bool {
    m.body matches BodyModel::Row(r) && r.kind == kind && r.key == k.0 && r.start_ts == k.1
}

/// The message shows a prewrite of key and transaction `k`.
pub open spec fn prewrite_on(m: OutboundModel, k: TxnKey) -> bool {
    shows(m, EventKind::Prewrite, k)
}

/// The message shows the commit of key and transaction `k`.
pub open spec fn commit_on(m: OutboundModel, k: TxnKey) -> bool {
    shows(m, EventKind::Commit, k)
}

/// The message shows the commit or the rollback of key and transaction `k`.
pub open spec fn ends(m: OutboundModel, k: TxnKey) -> bool {
    shows(m, EventKind::Commit, k) || shows(m, EventKind::Rollback, k)
}

/// The record that the message shows; meaningful when it shows one.
pub open spec fn row_of(m: OutboundModel) -> RowModel {
    match m.body {
        BodyModel::Row(r) => r,
        _ => RowModel::initialized(),
    }
}

/// Strictly between `i` and `j` nothing ends key and transaction `k`.
pub open spec fn open_between(out: Seq<OutboundModel>, i: int, j: int, k: TxnKey) -> bool {
    forall|m: int| i < m < j ==> !ends(#[trigger] out[m], k)
}

/// Strictly between `i` and `j` there is no prewrite of key and transaction `k`.
pub open spec fn none_between(out: Seq<OutboundModel>, i: int, j: int, k: TxnKey) -> bool {
    forall|m: int| i < m < j ==> !prewrite_on(#[trigger] out[m], k)
}

/// Of two prewrites of one key by one transaction, with neither its commit
/// nor its rollback between them, the later has the higher generation.
pub open spec fn generations_rise(out: Seq<OutboundModel>) -> bool {
    forall|i: int, j: int, k: TxnKey|
        #![trigger prewrite_on(out[i], k), prewrite_on(out[j], k)]
        0 <= i < j < out.len() && prewrite_on(out[i], k) && prewrite_on(out[j], k) && open_between(
            out,
            i,
            j,
            k,
        ) ==> row_of(out[i]).generation < row_of(out[j]).generation
}

/// A commit carries the value of the last prewrite shown before it for the
/// same key and transaction, which is the one of the highest generation.
pub open spec fn commits_match(out: Seq<OutboundModel>) -> bool {
    forall|i: int, j: int, k: TxnKey|
        #![trigger prewrite_on(out[i], k), commit_on(out[j], k)]
        0 <= i < j < out.len() && prewrite_on(out[i], k) && commit_on(out[j], k) && open_between(
            out,
            i,
            j,
            k,
        ) && none_between(out, i, j, k) ==> row_of(out[j]).value == row_of(out[i]).value
}

/// The table of open prewrites files, for every prewrite shown and not yet
/// ended, a generation that is at least as high, and for the last such
/// prewrite its own generation and value.
spec fn filed(t: LockMap, out: Seq<OutboundModel>) -> bool {
    forall|i: int, k: TxnKey|
        #![trigger prewrite_on(out[i], k)]
        0 <= i < out.len() && prewrite_on(out[i], k) && open_between(out, i, out.len() as int, k)
            ==> t.dom().contains(k) && row_of(out[i]).generation <= t[k].0 && (none_between(
            out,
            i,
            out.len() as int,
            k,
        ) ==> t[k] == (row_of(out[i]).generation, row_of(out[i]).value))
}

spec fn ordered(t: LockMap, out: Seq<OutboundModel>) -> bool {
    generations_rise(out) && commits_match(out) && filed(t, out)
}

/// How the table may change when message `m` is sent.
spec fn step_ok(t: LockMap, m: OutboundModel, t2: LockMap) -> bool {
    match m.body {
        BodyModel::Row(r) => {
            let k = (r.key, r.start_ts);
            match r.kind {
                EventKind::Prewrite => (t.dom().contains(k) ==> t[k].0 < r.generation) && t2
                    == t.insert(k, (r.generation, r.value)),
                EventKind::Commit => (t.dom().contains(k) ==> r.value == t[k].1) && t2 == t.remove(
                    k,
                ),
                EventKind::Rollback => t2 == t.remove(k),
                _ => t2 == t,
            }
        },
        _ => t2 == t,
    }
}

proof fn lemma_between_prefix(a: Seq<OutboundModel>, b: Seq<OutboundModel>, i: int, j: int, k: TxnKey)
    requires
        0 <= i,
        j <= a.len(),
        j <= b.len(),
        forall|m: int| 0 <= m < j ==> a[m] == b[m],
    ensures
        open_between(a, i, j, k) == open_between(b, i, j, k),
        none_between(a, i, j, k) == none_between(b, i, j, k),
{
    if open_between(a, i, j, k) {
        assert forall|m: int| i < m < j implies !ends(#[trigger] b[m], k) by {
            assert(a[m] == b[m]);
        }
    }
    if open_between(b, i, j, k) {
        assert forall|m: int| i < m < j implies !ends(#[trigger] a[m], k) by {
            assert(a[m] == b[m]);
        }
    }
    if none_between(a, i, j, k) {
        assert forall|m: int| i < m < j implies !prewrite_on(#[trigger] b[m], k) by {
            assert(a[m] == b[m]);
        }
    }
    if none_between(b, i, j, k) {
        assert forall|m: int| i < m < j implies !prewrite_on(#[trigger] a[m], k) by {
            assert(a[m] == b[m]);
        }
    }
}

/// Cutting an interval short keeps it free of what it was free of.
proof fn lemma_between_shorter(out: Seq<OutboundModel>, i: int, j: int, j2: int, k: TxnKey)
    requires
        j <= j2,
    ensures
        open_between(out, i, j2, k) ==> open_between(out, i, j, k),
        none_between(out, i, j2, k) ==> none_between(out, i, j, k),
{
}

proof fn lemma_push_ordered(t: LockMap, out: Seq<OutboundModel>, m: OutboundModel, t2: LockMap)
    requires
        ordered(t, out),
        step_ok(t, m, t2),
    ensures
        ordered(t2, out.push(m)),
{
    let n = out.len() as int;
    let next = out.push(m);
    assert forall|i: int, j: int, k: TxnKey|
        #![trigger prewrite_on(next[i], k), prewrite_on(next[j], k)]
        0 <= i < j < next.len() && prewrite_on(next[i], k) && prewrite_on(next[j], k)
            && open_between(next, i, j, k) implies row_of(next[i]).generation < row_of(
        next[j],
    ).generation by {
        lemma_between_prefix(out, next, i, j, k);
        if j < n {
            assert(prewrite_on(out[i], k) && prewrite_on(out[j], k));
        } else {
            assert(prewrite_on(out[i], k));
            assert(open_between(out, i, n, k));
        }
    }
    assert forall|i: int, j: int, k: TxnKey|
        #![trigger prewrite_on(next[i], k), commit_on(next[j], k)]
        0 <= i < j < next.len() && prewrite_on(next[i], k) && commit_on(next[j], k)
            && open_between(next, i, j, k) && none_between(next, i, j, k) implies row_of(
        next[j],
    ).value == row_of(next[i]).value by {
        lemma_between_prefix(out, next, i, j, k);
        if j < n {
            assert(prewrite_on(out[i], k) && commit_on(out[j], k));
        } else {
            assert(prewrite_on(out[i], k));
            assert(open_between(out, i, n, k));
            assert(none_between(out, i, n, k));
        }
    }
    assert forall|i: int, k: TxnKey|
        #![trigger prewrite_on(next[i], k)]
        0 <= i < next.len() && prewrite_on(next[i], k) && open_between(
            next,
            i,
            next.len() as int,
            k,
        ) implies t2.dom().contains(k) && row_of(next[i]).generation <= t2[k].0 && (none_between(
        next,
        i,
        next.len() as int,
        k,
    ) ==> t2[k] == (row_of(next[i]).generation, row_of(next[i]).value)) by {
        if i < n {
            lemma_between_prefix(out, next, i, n, k);
            lemma_between_shorter(next, i, n, n + 1, k);
            assert(prewrite_on(out[i], k));
            assert(open_between(out, i, n, k));
            assert(!ends(next[n], k));
            if none_between(next, i, n + 1, k) {
                assert(!prewrite_on(next[n], k));
            }
        } else {
            assert(next[n] == m);
        }
    }
}

proof fn lemma_send_ordered(s: DownstreamModel, out: Seq<OutboundModel>, body: BodyModel)
    requires
        ordered(s.inflight, out),
        match body {
            BodyModel::Row(r) => r.kind != EventKind::Prewrite && r.kind != EventKind::Commit
                && r.kind != EventKind::Rollback,
            _ => true,
        },
    ensures
        ordered(s.send(body).0.inflight, out + s.send(body).1),
{
    if s.closed {
        assert(out + s.send(body).1 =~= out);
    } else {
        lemma_push_ordered(s.inflight, out, s.message(body), s.inflight);
        assert(out + s.send(body).1 =~= out.push(s.message(body)));
    }
}

proof fn lemma_emit_row_ordered(s: DownstreamModel, out: Seq<OutboundModel>, row: RowModel)
    requires
        ordered(s.inflight, out),
    ensures
        ordered(s.emit_row(row).0.inflight, out + s.emit_row(row).1),
{
    let r = s.emit_row(row);
    if r.1.len() == 0 {
        assert(out + r.1 =~= out);
        if !s.closed {
            assert(s.screen(row).1 is None);
        }
    } else {
        let shown = s.screen(row).1->0;
        let m = s.screen(row).0.message(BodyModel::Row(shown));
        assert(r.1 =~= seq![m]);
        assert(out + r.1 =~= out.push(m));
        let k = (row.key, row.start_ts);
        assert(s.inflight.remove(k) =~= s.inflight || s.inflight.dom().contains(k));
        lemma_push_ordered(s.inflight, out, m, r.0.inflight);
    }
}

proof fn lemma_emit_rows_ordered(s: DownstreamModel, out: Seq<OutboundModel>, rows: Seq<RowModel>)
    requires
        ordered(s.inflight, out),
    ensures
        ordered(s.emit_rows(rows).0.inflight, out + s.emit_rows(rows).1),
    decreases rows.len(),
{
    if rows.len() == 0 {
        assert(out + s.emit_rows(rows).1 =~= out);
    } else {
        lemma_emit_rows_ordered(s, out, rows.drop_last());
        let before = s.emit_rows(rows.drop_last());
        lemma_emit_row_ordered(before.0, out + before.1, rows.last());
        let last = before.0.emit_row(rows.last());
        assert(out + (before.1 + last.1) =~= (out + before.1) + last.1);
    }
}

proof fn lemma_scan_rows_ordered(s: DownstreamModel, out: Seq<OutboundModel>, rows: Seq<RowModel>)
    requires
        ordered(s.inflight, out),
    ensures
        ordered(s.scan_rows(rows).0.inflight, out + s.scan_rows(rows).1),
    decreases rows.len(),
{
    if rows.len() == 0 {
        assert(out + s.scan_rows(rows).1 =~= out);
    } else {
        lemma_scan_rows_ordered(s, out, rows.drop_last());
        let before = s.scan_rows(rows.drop_last());
        let last = before.0.scan_row(rows.last());
        if rows.last().kind == EventKind::Initialized {
            assert((out + before.1) + last.1 =~= out + before.1);
        } else {
            lemma_emit_row_ordered(before.0, out + before.1, rows.last());
        }
        assert(out + (before.1 + last.1) =~= (out + before.1) + last.1);
    }
}

proof fn lemma_change_log_ordered(
    s: DownstreamModel,
    out: Seq<OutboundModel>,
    entries: Seq<LogEntryModel>,
)
    requires
        ordered(s.inflight, out),
    ensures
        ordered(s.on_change_log(entries).0.inflight, out + s.on_change_log(entries).1),
    decreases entries.len(),
{
    if entries.len() == 0 {
        assert(out + s.on_change_log(entries).1 =~= out);
    } else {
        lemma_change_log_ordered(s, out, entries.drop_last());
        let before = s.on_change_log(entries.drop_last());
        let last = before.0.on_live(entries.last());
        if !before.0.closed && before.0.initialized {
            lemma_emit_row_ordered(before.0, out + before.1, entries.last().row());
        } else {
            assert((out + before.1) + last.1 =~= out + before.1);
        }
        assert(out + (before.1 + last.1) =~= (out + before.1) + last.1);
    }
}

proof fn lemma_mark_initialized_ordered(s: DownstreamModel, out: Seq<OutboundModel>)
    requires
        ordered(s.inflight, out),
    ensures
        ordered(s.mark_initialized().0.inflight, out + s.mark_initialized().1),
{
    if s.closed || s.initialized {
        assert(out + s.mark_initialized().1 =~= out);
    } else {
        let marker = s.send(BodyModel::Row(RowModel::initialized()));
        lemma_send_ordered(s, out, BodyModel::Row(RowModel::initialized()));
        lemma_emit_rows_ordered(marker.0, out + marker.1, s.backlog);
        let replay = marker.0.emit_rows(s.backlog);
        assert(out + (marker.1 + replay.1) =~= (out + marker.1) + replay.1);
    }
}

proof fn lemma_apply_ordered(s: DownstreamModel, out: Seq<OutboundModel>, input: Input)
    requires
        ordered(s.inflight, out),
    ensures
        ordered(s.apply(input).0.inflight, out + s.apply(input).1),
{
    match input {
        Input::Deliver(row) => {
            if row.kind == EventKind::Initialized {
                assert(out + s.apply(input).1 =~= out);
            } else {
                lemma_emit_row_ordered(s, out, row);
            }
        },
        Input::ChangeLog(entries) => {
            lemma_change_log_ordered(s, out, entries);
        },
        Input::Scan(step) => {
            if s.closed || s.initialized {
                assert(out + s.apply(input).1 =~= out);
            } else {
                match step {
                    ScanStepModel::Rows(rows) => {
                        lemma_scan_rows_ordered(s, out, rows);
                    },
                    ScanStepModel::Finished(rows) => {
                        lemma_scan_rows_ordered(s, out, rows);
                        let shown = s.scan_rows(rows);
                        lemma_mark_initialized_ordered(shown.0, out + shown.1);
                        let done = shown.0.mark_initialized();
                        assert(out + (shown.1 + done.1) =~= (out + shown.1) + done.1);
                    },
                    ScanStepModel::Cancelled => {
                        lemma_send_ordered(s, out, BodyModel::Error(RegionError::EpochNotMatch));
                    },
                    ScanStepModel::Failed => {
                        lemma_send_ordered(s, out, BodyModel::Error(RegionError::RegionNotFound));
                    },
                    ScanStepModel::Done => {
                        assert(out + s.apply(input).1 =~= out);
                    },
                }
            }
        },
        Input::ResolvedTs(ts) => {
            if s.initialized {
                lemma_send_ordered(s, out, BodyModel::ResolvedTs(ts));
            } else {
                assert(out + s.apply(input).1 =~= out);
            }
        },
        Input::MarkInitialized => {
            lemma_mark_initialized_ordered(s, out);
        },
        Input::Fail(error) => {
            lemma_send_ordered(s, out, BodyModel::Error(error));
        },
        Input::Close => {
            assert(out + s.apply(input).1 =~= out);
        },
    }
}

proof fn lemma_run_ordered(s: DownstreamModel, inputs: Seq<Input>)
    ensures
        ordered(s.run(inputs).0.inflight, s.run(inputs).1),
    decreases inputs.len(),
{
    if inputs.len() > 0 {
        lemma_run_ordered(s, inputs.drop_last());
        let before = s.run(inputs.drop_last());
        lemma_apply_ordered(before.0, before.1, inputs.last());
    }
}

/// Generations rise: in everything that a subscription is sent, the
/// prewrites of one key by one transaction come in strictly rising
/// generation until the transaction ends, and its commit carries the value
/// of the last prewrite shown, the one of the highest generation.
pub proof fn law_generations_rise(s: DownstreamModel, inputs: Seq<Input>)
    ensures
        generations_rise(s.run(inputs).1),
        commits_match(s.run(inputs).1),
{
    lemma_run_ordered(s, inputs);
}

} // verus!
