//! Downstream: the state of one subscription to a region's event stream. It
//! gates what the subscriber is sent: scan output first, then the
//! `Initialized` marker, then the live events held back meanwhile, and the
//! watermark only after the marker. Every message carries the subscription's
//! own tags and its next sequence number.

use crate::cdc::event::{
    Body, BodyModel, EventKind, EventRow, LogEntry, LogEntryModel, Outbound, OutboundModel,
    RegionError, RowModel, entry_models, outbound_models, row_models,
};
use crate::cdc::lock_table::{LockMap, LockTable};
use crate::cdc::scanner::{ScanStep, ScanStepModel};
use vstd::prelude::*;

verus! {

/// A delivery was refused because the subscription is closed.
#[derive(Clone, Copy, Debug, PartialEq, Eq, Structural)]
pub struct Closed;

/// What a downstream is, mathematically.
pub struct DownstreamModel {
    pub region_id: u64,
    /// The transport connection that the subscription came in on.
    pub conn_id: u64,
    pub request_id: u64,
    /// The timestamp of the snapshot that the scan reads.
    pub checkpoint_ts: u64,
    /// Whether the `Initialized` marker has been sent.
    pub initialized: bool,
    /// Whether the subscription has ended: nothing is sent to it any more.
    pub closed: bool,
    /// How many messages have been sent: the sequence number of the next one.
    pub seq: nat,
    /// The live events held back while the scan is outstanding, in arrival order.
    pub backlog: Seq<RowModel>,
    /// The prewrites shown to the subscriber whose transaction is still open.
    pub inflight: LockMap,
}

/// A state together with the messages that reaching it sent.
pub type Sent = (DownstreamModel, Seq<OutboundModel>);

impl DownstreamModel {
    /// A new subscription: not initialized, open, nothing sent or held back.
    pub open spec fn start(region_id: u64, conn_id: u64, request_id: u64, checkpoint_ts: u64)
        -> DownstreamModel {
        DownstreamModel {
            region_id,
            conn_id,
            request_id,
            checkpoint_ts,
            initialized: false,
            closed: false,
            seq: 0,
            backlog: Seq::empty(),
            inflight: LockMap::empty(),
        }
    }

    /// The message that carries `body` next.
    pub open spec fn message(self, body: BodyModel) -> OutboundModel {
        OutboundModel {
            region_id: self.region_id,
            conn_id: self.conn_id,
            request_id: self.request_id,
            seq: self.seq,
            body,
        }
    }

    /// Whether `n` more messages fit the sequence counter.
    pub open spec fn room(self, n: nat) -> bool {
        self.seq + n <= u64::MAX
    }

    /// Sends `body`: one message with the subscription's tags and its next
    /// sequence number. A closed subscription is sent nothing.
    pub open spec fn send(self, body: BodyModel) -> Sent {
        if self.closed {
            (self, Seq::empty())
        } else {
            (DownstreamModel { seq: self.seq + 1, ..self }, seq![self.message(body)])
        }
    }

    /// Passes one record by the table of open prewrites. A prewrite is shown
    /// only if its generation is higher than the one already shown for the
    /// same key and transaction, and is then filed in its place. A commit
    /// takes the value of the prewrite filed for it and closes it. A rollback
    /// closes it. Every other record passes unchanged.
    pub open spec fn screen(self, row: RowModel) -> (DownstreamModel, Option<RowModel>) {
        let k = (row.key, row.start_ts);
        match row.kind {
            EventKind::Prewrite => {
                if self.inflight.dom().contains(k) && self.inflight[k].0 >= row.generation {
                    (self, None)
                } else {
                    (
                        DownstreamModel {
                            inflight: self.inflight.insert(k, (row.generation, row.value)),
                            ..self
                        },
                        Some(row),
                    )
                }
            },
            EventKind::Commit => {
                if self.inflight.dom().contains(k) {
                    (
                        DownstreamModel { inflight: self.inflight.remove(k), ..self },
                        Some(RowModel { value: self.inflight[k].1, ..row }),
                    )
                } else {
                    (self, Some(row))
                }
            },
            EventKind::Rollback => (
                DownstreamModel { inflight: self.inflight.remove(k), ..self },
                Some(row),
            ),
            _ => (self, Some(row)),
        }
    }

    /// Shows one record to the subscriber, if `screen` lets it pass.
    pub open spec fn emit_row(self, row: RowModel) -> Sent {
        if self.closed {
            (self, Seq::empty())
        } else {
            match self.screen(row).1 {
                Some(shown) => self.screen(row).0.send(BodyModel::Row(shown)),
                None => (self.screen(row).0, Seq::empty()),
            }
        }
    }

    /// Shows the records in order.
    pub open spec fn emit_rows(self, rows: Seq<RowModel>) -> Sent
        decreases rows.len(),
    {
        if rows.len() == 0 {
            (self, Seq::empty())
        } else {
            let before = self.emit_rows(rows.drop_last());
            let last = before.0.emit_row(rows.last());
            (last.0, before.1 + last.1)
        }
    }

    /// One live entry. An initialized subscription is shown it at once. One
    /// that is still scanning holds it back, whatever its timestamps: events
    /// at or above the checkpoint are not in the snapshot, and one stamped
    /// below it may have been written after the snapshot was read. The
    /// subscriber can drop a duplicate but cannot make up for a loss.
    pub open spec fn on_live(self, entry: LogEntryModel) -> Sent {
        if self.closed {
            (self, Seq::empty())
        } else if self.initialized {
            self.emit_row(entry.row())
        } else {
            (DownstreamModel { backlog: self.backlog.push(entry.row()), ..self }, Seq::empty())
        }
    }

    /// The live entries of one change log, in order.
    pub open spec fn on_change_log(self, entries: Seq<LogEntryModel>) -> Sent
        decreases entries.len(),
    {
        if entries.len() == 0 {
            (self, Seq::empty())
        } else {
            let before = self.on_change_log(entries.drop_last());
            let last = before.0.on_live(entries.last());
            (last.0, before.1 + last.1)
        }
    }

    /// One record of a scan batch. A record of kind `Initialized` inside a
    /// batch is not shown: the marker is sent by `mark_initialized` alone.
    pub open spec fn scan_row(self, row: RowModel) -> Sent {
        if row.kind == EventKind::Initialized {
            (self, Seq::empty())
        } else {
            self.emit_row(row)
        }
    }

    /// The records of a scan batch, in order.
    pub open spec fn scan_rows(self, rows: Seq<RowModel>) -> Sent
        decreases rows.len(),
    {
        if rows.len() == 0 {
            (self, Seq::empty())
        } else {
            let before = self.scan_rows(rows.drop_last());
            let last = before.0.scan_row(rows.last());
            (last.0, before.1 + last.1)
        }
    }

    /// Ends the scan: sends the `Initialized` marker, then shows the events
    /// held back in arrival order, and from then on lets the watermark
    /// through. Does nothing when called again, or on a closed subscription.
    pub open spec fn mark_initialized(self) -> Sent {
        if self.closed || self.initialized {
            (self, Seq::empty())
        } else {
            let marker = self.send(BodyModel::Row(RowModel::initialized()));
            let replay = marker.0.emit_rows(self.backlog);
            (
                DownstreamModel { initialized: true, backlog: Seq::empty(), ..replay.0 },
                marker.1 + replay.1,
            )
        }
    }

    /// Ends the subscription with a terminal error.
    pub open spec fn fail(self, error: RegionError) -> Sent {
        let sent = self.send(BodyModel::Error(error));
        (DownstreamModel { closed: true, ..sent.0 }, sent.1)
    }

    /// One step of the subscription's scan. Batches are shown as they come.
    /// The last batch is followed by the marker and the held-back events. A
    /// cancelled scan ends the subscription with `EpochNotMatch`, a failed one
    /// with `RegionNotFound`. A subscription that is initialized already
    /// ignores scan output.
    pub open spec fn on_scan(self, step: ScanStepModel) -> Sent {
        if self.closed || self.initialized {
            (self, Seq::empty())
        } else {
            match step {
                ScanStepModel::Rows(rows) => self.scan_rows(rows),
                ScanStepModel::Finished(rows) => {
                    let shown = self.scan_rows(rows);
                    let done = shown.0.mark_initialized();
                    (done.0, shown.1 + done.1)
                },
                ScanStepModel::Cancelled => self.fail(RegionError::EpochNotMatch),
                ScanStepModel::Failed => self.fail(RegionError::RegionNotFound),
                ScanStepModel::Done => (self, Seq::empty()),
            }
        }
    }

    /// The region's watermark: forwarded only once the subscription is initialized.
    pub open spec fn on_resolved_ts(self, ts: u64) -> Sent {
        if self.initialized {
            self.send(BodyModel::ResolvedTs(ts))
        } else {
            (self, Seq::empty())
        }
    }

    /// The subscriber went away: nothing is sent any more.
    pub open spec fn close(self) -> DownstreamModel {
        DownstreamModel { closed: true, ..self }
    }

    /// Back to scanning, as when the region comes back under a new epoch:
    /// the marker is owed again, and what was held back or filed is dropped.
    /// The tags, the checkpoint and the sequence counter stay.
    pub open spec fn restart(self) -> DownstreamModel {
        DownstreamModel {
            initialized: false,
            backlog: Seq::empty(),
            inflight: LockMap::empty(),
            ..self
        }
    }
}

/// How many records a scan step carries.
pub open spec fn step_len(step: ScanStepModel) -> nat {
    match step {
        ScanStepModel::Rows(rows) => rows.len(),
        ScanStepModel::Finished(rows) => rows.len(),
        _ => 0,
    }
}

/// What stays as it is while records are shown: the tags, the checkpoint,
/// the two flags and the backlog. The sequence counter grows by the number of
/// messages sent.
pub open spec fn only_shown(a: DownstreamModel, b: Sent) -> bool {
    &&& b.0.region_id == a.region_id
    &&& b.0.conn_id == a.conn_id
    &&& b.0.request_id == a.request_id
    &&& b.0.checkpoint_ts == a.checkpoint_ts
    &&& b.0.initialized == a.initialized
    &&& b.0.closed == a.closed
    &&& b.0.backlog == a.backlog
    &&& b.0.seq == a.seq + b.1.len()
}

/// Showing one record sends at most one message and changes nothing else
/// but the table of open prewrites.
pub proof fn lemma_emit_row(s: DownstreamModel, row: RowModel)
    ensures
        only_shown(s, s.emit_row(row)),
        s.emit_row(row).1.len() <= 1,
{
}

/// Showing records sends at most one message for each and changes nothing
/// else but the table of open prewrites.
pub proof fn lemma_emit_rows(s: DownstreamModel, rows: Seq<RowModel>)
    ensures
        only_shown(s, s.emit_rows(rows)),
        s.emit_rows(rows).1.len() <= rows.len(),
    decreases rows.len(),
{
    if rows.len() > 0 {
        lemma_emit_rows(s, rows.drop_last());
        lemma_emit_row(s.emit_rows(rows.drop_last()).0, rows.last());
    }
}

/// Showing records neither reads nor changes the backlog.
pub proof fn lemma_emit_rows_backlog(s: DownstreamModel, held: Seq<RowModel>, rows: Seq<RowModel>)
    ensures
        (DownstreamModel { backlog: held, ..s }).emit_rows(rows).1 == s.emit_rows(rows).1,
        (DownstreamModel { backlog: held, ..s }).emit_rows(rows).0 == (DownstreamModel {
            backlog: held,
            ..s.emit_rows(rows).0
        }),
    decreases rows.len(),
{
    if rows.len() > 0 {
        lemma_emit_rows_backlog(s, held, rows.drop_last());
    }
}

/// Showing a scan batch sends at most one message for each record and
/// changes nothing else but the table of open prewrites.
pub proof fn lemma_scan_rows(s: DownstreamModel, rows: Seq<RowModel>)
    ensures
        only_shown(s, s.scan_rows(rows)),
        s.scan_rows(rows).1.len() <= rows.len(),
    decreases rows.len(),
{
    if rows.len() > 0 {
        lemma_scan_rows(s, rows.drop_last());
        lemma_emit_row(s.scan_rows(rows.drop_last()).0, rows.last());
    }
}

/// A change log leaves the tags, the checkpoint and the two flags as they
/// are, and sends at most one message per entry.
pub proof fn lemma_on_change_log(s: DownstreamModel, entries: Seq<LogEntryModel>)
    ensures
        ({
            let r = s.on_change_log(entries);
            &&& r.0.region_id == s.region_id
            &&& r.0.conn_id == s.conn_id
            &&& r.0.request_id == s.request_id
            &&& r.0.checkpoint_ts == s.checkpoint_ts
            &&& r.0.initialized == s.initialized
            &&& r.0.closed == s.closed
            &&& r.0.seq == s.seq + r.1.len()
            &&& r.1.len() <= entries.len()
            &&& r.0.backlog.len() <= s.backlog.len() + entries.len()
            &&& s.initialized ==> r.0.backlog == s.backlog
        }),
    decreases entries.len(),
{
    if entries.len() > 0 {
        lemma_on_change_log(s, entries.drop_last());
        lemma_emit_row(s.on_change_log(entries.drop_last()).0, entries.last().row());
    }
}

/// A scan step leaves the tags and the checkpoint as they are.
pub proof fn lemma_on_scan(s: DownstreamModel, step: ScanStepModel)
    ensures
        ({
            let r = s.on_scan(step);
            &&& r.0.region_id == s.region_id
            &&& r.0.conn_id == s.conn_id
            &&& r.0.request_id == s.request_id
            &&& r.0.checkpoint_ts == s.checkpoint_ts
            &&& r.0.seq == s.seq + r.1.len()
            &&& r.1.len() <= step_len(step) + 1 + s.backlog.len()
        }),
{
    if !(s.closed || s.initialized) {
        match step {
            ScanStepModel::Rows(rows) => {
                lemma_scan_rows(s, rows);
            },
            ScanStepModel::Finished(rows) => {
                lemma_scan_rows(s, rows);
                let shown = s.scan_rows(rows);
                let marker = shown.0.send(BodyModel::Row(RowModel::initialized()));
                lemma_emit_rows(marker.0, shown.0.backlog);
            },
            _ => {},
        }
    }
}

/// The state of one subscription.
pub struct Downstream {
    region_id: u64,
    conn_id: u64,
    request_id: u64,
    checkpoint_ts: u64,
    initialized: bool,
    closed: bool,
    seq: u64,
    backlog: Vec<EventRow>,
    inflight: LockTable,
}

impl View for Downstream {
    type V = DownstreamModel;

    closed spec fn view(&self) -> DownstreamModel {
        DownstreamModel {
            region_id: self.region_id,
            conn_id: self.conn_id,
            request_id: self.request_id,
            checkpoint_ts: self.checkpoint_ts,
            initialized: self.initialized,
            closed: self.closed,
            seq: self.seq as nat,
            backlog: row_models(self.backlog@),
            inflight: self.inflight@,
        }
    }
}

impl Downstream {
    /// The representation is sound: the table of open prewrites files nothing twice.
    pub closed spec fn wf(&self) -> bool {
        self.inflight.wf()
    }

    /// A new subscription of `request_id` on connection `conn_id` to
    /// `region_id`, whose scan reads the snapshot at `checkpoint_ts`.
    pub fn new(region_id: u64, conn_id: u64, request_id: u64, checkpoint_ts: u64) -> (d:
        Downstream)
        ensures
            d.wf(),
            d@ == DownstreamModel::start(region_id, conn_id, request_id, checkpoint_ts),
    {
        let d = Downstream {
            region_id,
            conn_id,
            request_id,
            checkpoint_ts,
            initialized: false,
            closed: false,
            seq: 0,
            backlog: Vec::new(),
            inflight: LockTable::new(),
        };
        assert(d@.backlog =~= Seq::empty());
        d
    }

    /// The region that the subscription is to.
    pub fn region_id(&self) -> (id: u64)
        ensures
            id == self@.region_id,
    {
        self.region_id
    }

    /// The connection that the subscription came in on.
    pub fn conn_id(&self) -> (id: u64)
        ensures
            id == self@.conn_id,
    {
        self.conn_id
    }

    /// The request id that tells the subscription from others on its connection.
    pub fn request_id(&self) -> (id: u64)
        ensures
            id == self@.request_id,
    {
        self.request_id
    }

    /// The timestamp of the snapshot that the subscription's scan reads.
    pub fn checkpoint_ts(&self) -> (ts: u64)
        ensures
            ts == self@.checkpoint_ts,
    {
        self.checkpoint_ts
    }

    /// Whether the `Initialized` marker has been sent.
    pub fn is_initialized(&self) -> (yes: bool)
        ensures
            yes == self@.initialized,
    {
        self.initialized
    }

    /// Whether the subscription has ended.
    pub fn is_closed(&self) -> (yes: bool)
        ensures
            yes == self@.closed,
    {
        self.closed
    }

    /// The sequence number of the next message.
    pub fn seq(&self) -> (n: u64)
        ensures
            n == self@.seq,
    {
        self.seq
    }

    /// Whether `n` more messages fit the sequence counter.
    pub fn has_room(&self, n: u64) -> (yes: bool)
        ensures
            yes == self@.room(n as nat),
    {
        self.seq <= u64::MAX - n
    }

    /// How many live events are held back.
    pub fn backlog_len(&self) -> (n: usize)
        ensures
            n == self@.backlog.len(),
    {
        self.backlog.len()
    }

    /// Shows one record to the subscriber, as the delegate does for every
    /// record of a scan batch and every live event: a prewrite of a
    /// generation that the subscriber has seen is left out, a commit takes
    /// the value of the prewrite that it ends, and a record of kind
    /// `Initialized` is left out because the marker is sent by
    /// `mark_initialized` alone. Fails, showing nothing, once the
    /// subscription is closed.
    pub fn deliver(&mut self, event: EventRow, out: &mut Vec<Outbound>) -> (r: Result<(), Closed>)
        requires
            old(self).wf(),
            old(self)@.room(1),
        ensures
            final(self).wf(),
            r is Err <==> old(self)@.closed,
            final(self)@ == old(self)@.scan_row(event@).0,
            outbound_models(final(out)@) == outbound_models(old(out)@) + old(self)@.scan_row(
                event@,
            ).1,
    {
        if self.closed {
            assert(outbound_models(out@) + Seq::<OutboundModel>::empty() =~= outbound_models(
                out@,
            ));
            return Err(Closed);
        }
        if event.kind == EventKind::Initialized {
            assert(outbound_models(out@) + Seq::<OutboundModel>::empty() =~= outbound_models(
                out@,
            ));
        } else {
            self.emit_row(event, out);
        }
        Ok(())
    }

    /// Hands `body` to the transport as this subscription's next message.
    /// Fails, sending nothing, once the subscription is closed.
    fn send(&mut self, body: Body, out: &mut Vec<Outbound>) -> (r: Result<(), Closed>)
        requires
            old(self).wf(),
            old(self)@.room(1),
        ensures
            final(self).wf(),
            r is Err <==> old(self)@.closed,
            final(self)@ == old(self)@.send(body@).0,
            outbound_models(final(out)@) == outbound_models(old(out)@) + old(self)@.send(body@).1,
    {
        if self.closed {
            assert(outbound_models(out@) + Seq::<OutboundModel>::empty() =~= outbound_models(
                out@,
            ));
            return Err(Closed);
        }
        let message = Outbound {
            region_id: self.region_id,
            conn_id: self.conn_id,
            request_id: self.request_id,
            seq: self.seq,
            body,
        };
        let ghost sent = outbound_models(out@);
        out.push(message);
        self.seq = self.seq + 1;
        assert(outbound_models(out@) =~= sent + seq![message@]);
        Ok(())
    }

    /// Shows one record to the subscriber, unless it is a prewrite of a
    /// generation that the subscriber has seen already.
    fn emit_row(&mut self, row: EventRow, out: &mut Vec<Outbound>)
        requires
            old(self).wf(),
            old(self)@.room(1),
        ensures
            final(self).wf(),
            final(self)@ == old(self)@.emit_row(row@).0,
            outbound_models(final(out)@) == outbound_models(old(out)@) + old(self)@.emit_row(
                row@,
            ).1,
    {
        let ghost sent = outbound_models(out@);
        if self.closed {
            assert(sent + Seq::<OutboundModel>::empty() =~= sent);
            return ;
        }
        let mut row = row;
        match row.kind {
            EventKind::Prewrite => {
                let stale = match self.inflight.generation(&row.key, row.start_ts) {
                    Some(g) => g >= row.generation,
                    None => false,
                };
                if stale {
                    assert(sent + Seq::<OutboundModel>::empty() =~= sent);
                    return ;
                }
                let key = crate::cdc::bytes::clone_bytes(&row.key);
                let value = crate::cdc::bytes::clone_bytes(&row.value);
                self.inflight.put(key, row.start_ts, row.generation, value);
            },
            EventKind::Commit => {
                match self.inflight.value(&row.key, row.start_ts) {
                    Some(v) => {
                        self.inflight.remove(&row.key, row.start_ts);
                        row.value = v;
                    },
                    None => {},
                }
            },
            EventKind::Rollback => {
                self.inflight.remove(&row.key, row.start_ts);
            },
            _ => {},
        }
        let _ = self.send(Body::Row(row), out);
    }

    /// Shows the records in order.
    fn emit_rows(&mut self, rows: &Vec<EventRow>, out: &mut Vec<Outbound>)
        requires
            old(self).wf(),
            old(self)@.room(rows@.len()),
        ensures
            final(self).wf(),
            final(self)@ == old(self)@.emit_rows(row_models(rows@)).0,
            outbound_models(final(out)@) == outbound_models(old(out)@) + old(self)@.emit_rows(
                row_models(rows@),
            ).1,
    {
        let ghost start = self@;
        let ghost sent = outbound_models(out@);
        let ghost all = row_models(rows@);
        let mut i: usize = 0;
        assert(all.take(0) =~= Seq::<RowModel>::empty());
        assert(sent + Seq::<OutboundModel>::empty() =~= sent);
        while i < rows.len()
            invariant
                i <= rows.len(),
                self.wf(),
                all == row_models(rows@),
                start.room(rows@.len()),
                self@ == start.emit_rows(all.take(i as int)).0,
                outbound_models(out@) == sent + start.emit_rows(all.take(i as int)).1,
            decreases rows.len() - i,
        {
            proof {
                lemma_emit_rows(start, all.take(i as int));
                assert(all.take(i + 1).drop_last() =~= all.take(i as int));
                assert(all.take(i + 1).last() == rows@[i as int]@);
            }
            let row = rows[i].duplicate();
            self.emit_row(row, out);
            proof {
                let a = start.emit_rows(all.take(i as int));
                let b = a.0.emit_row(rows@[i as int]@);
                assert(sent + (a.1 + b.1) =~= (sent + a.1) + b.1);
            }
            i += 1;
        }
        assert(all.take(i as int) =~= all);
    }

    /// Takes the live entries of one change log, in order. An initialized
    /// subscription is shown them at once; one that is still scanning holds
    /// them back.
    pub fn on_change_log(&mut self, entries: &Vec<LogEntry>, out: &mut Vec<Outbound>)
        requires
            old(self).wf(),
            old(self)@.room(entries@.len()),
        ensures
            final(self).wf(),
            final(self)@ == old(self)@.on_change_log(entry_models(entries@)).0,
            outbound_models(final(out)@) == outbound_models(old(out)@) + old(
                self,
            )@.on_change_log(entry_models(entries@)).1,
    {
        let ghost start = self@;
        let ghost sent = outbound_models(out@);
        let ghost all = entry_models(entries@);
        let mut i: usize = 0;
        assert(all.take(0) =~= Seq::<LogEntryModel>::empty());
        assert(sent + Seq::<OutboundModel>::empty() =~= sent);
        while i < entries.len()
            invariant
                i <= entries.len(),
                self.wf(),
                all == entry_models(entries@),
                start.room(entries@.len()),
                self@ == start.on_change_log(all.take(i as int)).0,
                outbound_models(out@) == sent + start.on_change_log(all.take(i as int)).1,
            decreases entries.len() - i,
        {
            proof {
                lemma_on_change_log(start, all.take(i as int));
                assert(all.take(i + 1).drop_last() =~= all.take(i as int));
                assert(all.take(i + 1).last() == entries@[i as int]@);
            }
            let ghost sent_before = outbound_models(out@);
            if self.closed {
                assert(sent_before + Seq::<OutboundModel>::empty() =~= sent_before);
            } else if self.initialized {
                let row = entries[i].to_row();
                self.emit_row(row, out);
            } else {
                let ghost held = row_models(self.backlog@);
                let row = entries[i].to_row();
                self.backlog.push(row);
                assert(row_models(self.backlog@) =~= held.push(row@));
                assert(sent_before + Seq::<OutboundModel>::empty() =~= sent_before);
            }
            proof {
                let a = start.on_change_log(all.take(i as int));
                let b = a.0.on_live(entries@[i as int]@);
                assert(sent + (a.1 + b.1) =~= (sent + a.1) + b.1);
            }
            i += 1;
        }
        assert(all.take(i as int) =~= all);
    }

    /// Shows the records of a scan batch in order, leaving out any of kind `Initialized`.
    fn scan_rows(&mut self, rows: &Vec<EventRow>, out: &mut Vec<Outbound>)
        requires
            old(self).wf(),
            old(self)@.room(rows@.len()),
        ensures
            final(self).wf(),
            final(self)@ == old(self)@.scan_rows(row_models(rows@)).0,
            outbound_models(final(out)@) == outbound_models(old(out)@) + old(self)@.scan_rows(
                row_models(rows@),
            ).1,
    {
        let ghost start = self@;
        let ghost sent = outbound_models(out@);
        let ghost all = row_models(rows@);
        let mut i: usize = 0;
        assert(all.take(0) =~= Seq::<RowModel>::empty());
        assert(sent + Seq::<OutboundModel>::empty() =~= sent);
        while i < rows.len()
            invariant
                i <= rows.len(),
                self.wf(),
                all == row_models(rows@),
                start.room(rows@.len()),
                self@ == start.scan_rows(all.take(i as int)).0,
                outbound_models(out@) == sent + start.scan_rows(all.take(i as int)).1,
            decreases rows.len() - i,
        {
            proof {
                lemma_scan_rows(start, all.take(i as int));
                assert(all.take(i + 1).drop_last() =~= all.take(i as int));
                assert(all.take(i + 1).last() == rows@[i as int]@);
            }
            let ghost sent_before = outbound_models(out@);
            if rows[i].kind == EventKind::Initialized {
                assert(sent_before + Seq::<OutboundModel>::empty() =~= sent_before);
            } else {
                let row = rows[i].duplicate();
                self.emit_row(row, out);
            }
            proof {
                let a = start.scan_rows(all.take(i as int));
                let b = a.0.scan_row(rows@[i as int]@);
                assert(sent + (a.1 + b.1) =~= (sent + a.1) + b.1);
            }
            i += 1;
        }
        assert(all.take(i as int) =~= all);
    }

    /// Ends the scan: sends the `Initialized` marker, then the events held
    /// back, in arrival order, and from then on lets the watermark through.
    /// Calling it again changes nothing and sends nothing.
    pub fn mark_initialized(&mut self, out: &mut Vec<Outbound>)
        requires
            old(self).wf(),
            old(self)@.room(1 + old(self)@.backlog.len()),
        ensures
            final(self).wf(),
            final(self)@ == old(self)@.mark_initialized().0,
            outbound_models(final(out)@) == outbound_models(old(out)@) + old(
                self,
            )@.mark_initialized().1,
    {
        let ghost sent = outbound_models(out@);
        if self.closed || self.initialized {
            assert(sent + Seq::<OutboundModel>::empty() =~= sent);
            return ;
        }
        let ghost start = self@;
        let _ = self.send(Body::Row(EventRow::initialized()), out);
        let mut held: Vec<EventRow> = Vec::new();
        std::mem::swap(&mut held, &mut self.backlog);
        assert(row_models(self.backlog@) =~= Seq::<RowModel>::empty());
        assert(self@ == (DownstreamModel {
            backlog: Seq::<RowModel>::empty(),
            ..start.send(BodyModel::Row(RowModel::initialized())).0
        }));
        self.emit_rows(&held, out);
        self.initialized = true;
        proof {
            let marker = start.send(BodyModel::Row(RowModel::initialized()));
            let replay = marker.0.emit_rows(start.backlog);
            lemma_emit_rows(marker.0, start.backlog);
            lemma_emit_rows_backlog(marker.0, Seq::<RowModel>::empty(), start.backlog);
            assert(sent + (marker.1 + replay.1) =~= (sent + marker.1) + replay.1);
        }
    }

    /// Ends the subscription with a terminal error. Nothing is sent after it.
    pub fn fail(&mut self, error: RegionError, out: &mut Vec<Outbound>)
        requires
            old(self).wf(),
            old(self)@.room(1),
        ensures
            final(self).wf(),
            final(self)@ == old(self)@.fail(error).0,
            outbound_models(final(out)@) == outbound_models(old(out)@) + old(self)@.fail(
                error,
            ).1,
    {
        let _ = self.send(Body::Error(error), out);
        self.closed = true;
    }

    /// Takes one step of this subscription's scan.
    pub fn on_scan(&mut self, step: ScanStep, out: &mut Vec<Outbound>)
        requires
            old(self).wf(),
            old(self)@.room(step_len(step@) + 1 + old(self)@.backlog.len()),
        ensures
            final(self).wf(),
            final(self)@ == old(self)@.on_scan(step@).0,
            outbound_models(final(out)@) == outbound_models(old(out)@) + old(self)@.on_scan(
                step@,
            ).1,
    {
        let ghost sent = outbound_models(out@);
        let ghost start = self@;
        if self.closed || self.initialized {
            assert(sent + Seq::<OutboundModel>::empty() =~= sent);
            return ;
        }
        match step {
            ScanStep::Rows(rows) => {
                self.scan_rows(&rows, out);
            },
            ScanStep::Finished(rows) => {
                proof {
                    lemma_scan_rows(start, row_models(rows@));
                }
                self.scan_rows(&rows, out);
                self.mark_initialized(out);
                proof {
                    let shown = start.scan_rows(row_models(rows@));
                    let done = shown.0.mark_initialized();
                    assert(sent + (shown.1 + done.1) =~= (sent + shown.1) + done.1);
                }
            },
            ScanStep::Cancelled => {
                self.fail(RegionError::EpochNotMatch, out);
            },
            ScanStep::Failed => {
                self.fail(RegionError::RegionNotFound, out);
            },
            ScanStep::Done => {
                assert(sent + Seq::<OutboundModel>::empty() =~= sent);
            },
        }
    }

    /// Forwards the region's watermark, if the subscription is initialized
    /// and open. Returns whether it was forwarded.
    pub fn on_resolved_ts(&mut self, ts: u64, out: &mut Vec<Outbound>) -> (forwarded: bool)
        requires
            old(self).wf(),
            old(self)@.room(1),
        ensures
            final(self).wf(),
            forwarded == (old(self)@.initialized && !old(self)@.closed),
            final(self)@ == old(self)@.on_resolved_ts(ts).0,
            outbound_models(final(out)@) == outbound_models(old(out)@) + old(
                self,
            )@.on_resolved_ts(ts).1,
    {
        if self.initialized {
            self.send(Body::ResolvedTs(ts), out).is_ok()
        } else {
            assert(outbound_models(out@) + Seq::<OutboundModel>::empty() =~= outbound_models(
                out@,
            ));
            false
        }
    }

    /// Puts the subscription back to scanning.
    pub fn restart(&mut self)
        requires
            old(self).wf(),
        ensures
            final(self).wf(),
            final(self)@ == old(self)@.restart(),
    {
        self.initialized = false;
        self.backlog = Vec::new();
        self.inflight = LockTable::new();
        assert(row_models(self.backlog@) =~= Seq::<RowModel>::empty());
    }

    /// The subscriber went away: nothing is sent any more.
    pub fn close(&mut self)
        requires
            old(self).wf(),
        ensures
            final(self).wf(),
            final(self)@ == old(self)@.close(),
    {
        self.closed = true;
    }
}


/// Every message carries the tags of subscription `s`.
pub open spec fn tagged(s: DownstreamModel, out: Seq<OutboundModel>) -> bool {
    forall|i: int|
        0 <= i < out.len() ==> (#[trigger] out[i]).region_id == s.region_id && out[i].conn_id
            == s.conn_id && out[i].request_id == s.request_id
}

/// The records that a subscription is shown carry its own tags.
pub proof fn lemma_emit_rows_tagged(s: DownstreamModel, rows: Seq<RowModel>)
    ensures
        tagged(s, s.emit_rows(rows).1),
    decreases rows.len(),
{
    if rows.len() > 0 {
        lemma_emit_rows_tagged(s, rows.drop_last());
        lemma_emit_rows(s, rows.drop_last());
    }
}

/// The records of a scan batch that a subscription is shown carry its own tags.
pub proof fn lemma_scan_rows_tagged(s: DownstreamModel, rows: Seq<RowModel>)
    ensures
        tagged(s, s.scan_rows(rows).1),
    decreases rows.len(),
{
    if rows.len() > 0 {
        lemma_scan_rows_tagged(s, rows.drop_last());
        lemma_scan_rows(s, rows.drop_last());
    }
}

/// What a change log sends to a subscription carries its own tags.
pub proof fn lemma_change_log_tagged(s: DownstreamModel, entries: Seq<LogEntryModel>)
    ensures
        tagged(s, s.on_change_log(entries).1),
    decreases entries.len(),
{
    if entries.len() > 0 {
        lemma_change_log_tagged(s, entries.drop_last());
        lemma_on_change_log(s, entries.drop_last());
    }
}

/// What a scan step sends to a subscription carries its own tags.
pub proof fn lemma_scan_tagged(s: DownstreamModel, step: ScanStepModel)
    ensures
        tagged(s, s.on_scan(step).1),
{
    if !(s.closed || s.initialized) {
        match step {
            ScanStepModel::Rows(rows) => {
                lemma_scan_rows_tagged(s, rows);
            },
            ScanStepModel::Finished(rows) => {
                lemma_scan_rows_tagged(s, rows);
                lemma_scan_rows(s, rows);
                let shown = s.scan_rows(rows);
                let marker = shown.0.send(BodyModel::Row(RowModel::initialized()));
                lemma_emit_rows_tagged(marker.0, shown.0.backlog);
            },
            _ => {},
        }
    }
}

} // verus!
