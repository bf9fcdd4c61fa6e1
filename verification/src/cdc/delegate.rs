//! Region delegate: the subscriptions to one region, the region's lock
//! resolver, and the rules by which scan output, live events, the watermark
//! and regional errors reach each subscription.

use crate::cdc::downstream::{Downstream, DownstreamModel, lemma_on_change_log, step_len};
use crate::cdc::event::{
    BodyModel, Epoch, LogEntry, LogEntryModel, Outbound, OutboundModel, RegionError, RowModel,
    ScanRequest, entry_models, outbound_models,
};
use crate::cdc::locks::{Locks, LocksModel};
use crate::cdc::scanner::{ScanStep, ScanStepModel};
use vstd::prelude::*;

verus! {

/// Where a delegate stands in its life.
#[derive(Clone, Copy, Debug, PartialEq, Eq, Structural)]
pub enum DelegateState {
    /// No subscription.
    Idle,
    /// At least one subscription is still scanning.
    Scanning,
    /// Every subscription is initialized.
    Steady,
    /// The region is gone or its epoch is stale; nothing happens any more.
    Stopped,
}

/// Why a registration was turned down. The delegate is left as it was.
#[derive(Clone, Copy, Debug, PartialEq, Eq, Structural)]
pub enum RegisterError {
    /// The delegate has stopped.
    RegionNotFound,
    /// The request names another epoch than the region's.
    EpochNotMatch,
    /// The connection already holds a subscription with this request id.
    DuplicateRequest,
}

/// How many of the subscriptions are still scanning.
pub open spec fn scanning(ds: Seq<DownstreamModel>) -> nat
    decreases ds.len(),
{
    if ds.len() == 0 {
        0
    } else if ds.last().initialized {
        scanning(ds.drop_last())
    } else {
        scanning(ds.drop_last()) + 1
    }
}

/// The records that a scan step carries.
pub open spec fn step_rows(step: ScanStepModel) -> Seq<RowModel> {
    match step {
        ScanStepModel::Rows(rows) => rows,
        ScanStepModel::Finished(rows) => rows,
        _ => Seq::empty(),
    }
}

/// Every subscription after it took the change log.
pub open spec fn after_change_log(ds: Seq<DownstreamModel>, entries: Seq<LogEntryModel>) -> Seq<
    DownstreamModel,
> {
    Seq::new(ds.len(), |i: int| ds[i].on_change_log(entries).0)
}

/// What the change log sent, subscription by subscription.
pub open spec fn sent_by_change_log(ds: Seq<DownstreamModel>, entries: Seq<LogEntryModel>) -> Seq<
    OutboundModel,
>
    decreases ds.len(),
{
    if ds.len() == 0 {
        Seq::empty()
    } else {
        sent_by_change_log(ds.drop_last(), entries) + ds.last().on_change_log(entries).1
    }
}

/// Every subscription after it was offered the watermark.
pub open spec fn after_resolved_ts(ds: Seq<DownstreamModel>, ts: u64) -> Seq<DownstreamModel> {
    Seq::new(ds.len(), |i: int| ds[i].on_resolved_ts(ts).0)
}

/// The watermark messages: one to each initialized subscription, in order.
pub open spec fn sent_by_resolved_ts(ds: Seq<DownstreamModel>, ts: u64) -> Seq<OutboundModel>
    decreases ds.len(),
{
    if ds.len() == 0 {
        Seq::empty()
    } else {
        sent_by_resolved_ts(ds.drop_last(), ts) + ds.last().on_resolved_ts(ts).1
    }
}

/// The terminal error, once to each subscription, in order.
pub open spec fn sent_by_fail(ds: Seq<DownstreamModel>, error: RegionError) -> Seq<OutboundModel>
    decreases ds.len(),
{
    if ds.len() == 0 {
        Seq::empty()
    } else {
        sent_by_fail(ds.drop_last(), error) + ds.last().fail(error).1
    }
}

/// The scans that bring every subscription back after a reload, in order.
pub open spec fn rescans(ds: Seq<DownstreamModel>, epoch: Epoch) -> Seq<ScanRequest> {
    Seq::new(
        ds.len(),
        |i: int|
            ScanRequest {
                region_id: ds[i].region_id,
                epoch,
                conn_id: ds[i].conn_id,
                request_id: ds[i].request_id,
                checkpoint_ts: ds[i].checkpoint_ts,
            },
    )
}

/// What a delegate is, mathematically.
pub struct DelegateModel {
    pub region_id: u64,
    pub epoch: Epoch,
    /// The subscriptions, in the order in which they registered.
    pub downstreams: Seq<DownstreamModel>,
    /// The region's locks as far as they are known, with the resolver.
    pub locks: LocksModel,
    pub stopped: bool,
}

impl DelegateModel {
    /// A delegate for `region_id` at `epoch`, with no subscription yet.
    pub open spec fn start(region_id: u64, epoch: Epoch) -> DelegateModel {
        DelegateModel {
            region_id,
            epoch,
            downstreams: Seq::empty(),
            locks: LocksModel::empty(),
            stopped: false,
        }
    }

    /// Subscription `i` is the one of `request_id` on connection `conn_id`.
    pub open spec fn is_at(self, i: int, conn_id: u64, request_id: u64) -> bool {
        0 <= i < self.downstreams.len() && self.downstreams[i].conn_id == conn_id
            && self.downstreams[i].request_id == request_id
    }

    /// The connection holds a subscription with this request id.
    pub open spec fn subscribed(self, conn_id: u64, request_id: u64) -> bool {
        exists|i: int| self.is_at(i, conn_id, request_id)
    }

    /// Where that subscription stands; meaningful when there is one.
    pub open spec fn slot(self, conn_id: u64, request_id: u64) -> int {
        choose|i: int| self.is_at(i, conn_id, request_id)
    }

    /// Every subscription belongs to this region and is open, no connection
    /// holds two subscriptions with one request id, a stopped delegate has
    /// no subscription, and the resolver counts the known locks.
    pub open spec fn wf(self) -> bool {
        &&& forall|i: int|
            0 <= i < self.downstreams.len() ==> self.downstreams[i].region_id == self.region_id
                && !self.downstreams[i].closed
        &&& forall|i: int, j: int|
            0 <= i < j < self.downstreams.len() ==> !(self.downstreams[i].conn_id
                == self.downstreams[j].conn_id && self.downstreams[i].request_id
                == self.downstreams[j].request_id)
        &&& self.stopped ==> self.downstreams.len() == 0
        &&& self.locks.counted()
    }

    /// How many scans are outstanding.
    pub open spec fn pending_scans(self) -> nat {
        scanning(self.downstreams)
    }

    /// Where the delegate stands in its life.
    pub open spec fn state(self) -> DelegateState {
        if self.stopped {
            DelegateState::Stopped
        } else if self.downstreams.len() == 0 {
            DelegateState::Idle
        } else if self.pending_scans() > 0 {
            DelegateState::Scanning
        } else {
            DelegateState::Steady
        }
    }

    /// Every subscription has room for `n` more messages.
    pub open spec fn room(self, n: nat) -> bool {
        forall|i: int| 0 <= i < self.downstreams.len() ==> self.downstreams[i].room(n)
    }

    /// Some subscription is initialized, so the watermark has a reader.
    pub open spec fn ready(self) -> bool {
        exists|i: int| 0 <= i < self.downstreams.len() && self.downstreams[i].initialized
    }

    /// Whether a registration is turned down, and why.
    pub open spec fn refusal(self, conn_id: u64, request_id: u64, epoch: Epoch) -> Option<
        RegisterError,
    > {
        if self.stopped {
            Some(RegisterError::RegionNotFound)
        } else if epoch != self.epoch {
            Some(RegisterError::EpochNotMatch)
        } else if self.subscribed(conn_id, request_id) {
            Some(RegisterError::DuplicateRequest)
        } else {
            None
        }
    }

    /// A registration: the new subscription joins at the end, still scanning.
    /// A refused registration changes nothing.
    pub open spec fn register(self, conn_id: u64, request_id: u64, checkpoint_ts: u64, epoch: Epoch)
        -> DelegateModel {
        if self.refusal(conn_id, request_id, epoch) is Some {
            self
        } else {
            DelegateModel {
                downstreams: self.downstreams.push(
                    DownstreamModel::start(self.region_id, conn_id, request_id, checkpoint_ts),
                ),
                ..self
            }
        }
    }

    /// A subscriber went away: its subscription is dropped, and no other
    /// subscription changes.
    pub open spec fn deregister(self, conn_id: u64, request_id: u64) -> DelegateModel {
        if self.subscribed(conn_id, request_id) {
            let downstreams = self.downstreams.remove(self.slot(conn_id, request_id));
            DelegateModel {
                downstreams,
                locks: self.locks.settle(scanning(downstreams) > 0),
                ..self
            }
        } else {
            self
        }
    }

    /// The region is gone or its epoch is stale: every subscription is sent
    /// the error and dropped, and the delegate stops.
    pub open spec fn stop(self, error: RegionError) -> (DelegateModel, Seq<OutboundModel>) {
        (
            DelegateModel { downstreams: Seq::empty(), stopped: true, ..self },
            sent_by_fail(self.downstreams, error),
        )
    }

    /// The region comes back under a new epoch: every subscription is kept
    /// and put back to scanning, and a scan is owed to each. The resolver
    /// keeps its locks and its watermark. A stopped delegate stays stopped.
    pub open spec fn reload(self, epoch: Epoch) -> (DelegateModel, Seq<ScanRequest>) {
        if self.stopped {
            (self, Seq::empty())
        } else {
            (
                DelegateModel {
                    epoch,
                    downstreams: Seq::new(
                        self.downstreams.len(),
                        |i: int| self.downstreams[i].restart(),
                    ),
                    ..self
                },
                rescans(self.downstreams, epoch),
            )
        }
    }

    /// Committed entries from the replication layer. A stopped delegate
    /// ignores them. Entries under another epoch than the delegate's stop it
    /// with `EpochNotMatch`. Otherwise the resolver takes the lock events and
    /// every subscription takes the entries.
    pub open spec fn on_change_log(self, epoch: Epoch, entries: Seq<LogEntryModel>) -> (
        DelegateModel,
        Seq<OutboundModel>,
    ) {
        if self.stopped {
            (self, Seq::empty())
        } else if epoch != self.epoch {
            self.stop(RegionError::EpochNotMatch)
        } else {
            (
                DelegateModel {
                    locks: self.locks.on_change_log(entries, self.pending_scans() > 0),
                    downstreams: after_change_log(self.downstreams, entries),
                    ..self
                },
                sent_by_change_log(self.downstreams, entries),
            )
        }
    }

    /// Whether the subscription, if the delegate holds it, has room for the
    /// messages of a scan step of `n` records.
    pub open spec fn can_scan(self, conn_id: u64, request_id: u64, n: nat) -> bool {
        self.subscribed(conn_id, request_id) ==> {
            let s = self.downstreams[self.slot(conn_id, request_id)];
            s.room(n + 1 + s.backlog.len())
        }
    }

    /// One step of the scan of one subscription, from a scan that ran under
    /// `epoch`. A step of a scan under another epoch than the delegate's is
    /// stale and dropped, and so is a step for a subscription that is gone.
    /// A subscription that the step ends is dropped from the delegate; the
    /// others are untouched. The locks that the step reports to a
    /// subscription that is still scanning become known to the resolver.
    pub open spec fn on_scan(
        self,
        conn_id: u64,
        request_id: u64,
        epoch: Epoch,
        step: ScanStepModel,
    ) -> (DelegateModel, Seq<OutboundModel>) {
        if epoch == self.epoch && self.subscribed(conn_id, request_id) {
            let i = self.slot(conn_id, request_id);
            let next = self.downstreams[i].on_scan(step);
            let downstreams = if next.0.closed {
                self.downstreams.remove(i)
            } else {
                self.downstreams.update(i, next.0)
            };
            let found = if self.downstreams[i].initialized {
                self.locks
            } else {
                self.locks.on_scan_rows(step_rows(step))
            };
            (
                DelegateModel {
                    downstreams,
                    locks: found.settle(scanning(downstreams) > 0),
                    ..self
                },
                next.1,
            )
        } else {
            (self, Seq::empty())
        }
    }

    /// The periodic tick: the resolver computes the watermark, and every
    /// initialized subscription is sent it. A stopped delegate does nothing.
    pub open spec fn on_min_ts(self, min_ts_hint: u64) -> (DelegateModel, Seq<OutboundModel>) {
        if self.stopped {
            (self, Seq::empty())
        } else {
            let ts = self.locks.resolver.watermark(min_ts_hint);
            (
                DelegateModel {
                    locks: self.locks.resolve(min_ts_hint),
                    downstreams: after_resolved_ts(self.downstreams, ts),
                    ..self
                },
                sent_by_resolved_ts(self.downstreams, ts),
            )
        }
    }
}

/// No more subscriptions are scanning than there are subscriptions.
pub proof fn lemma_scanning_bound(ds: Seq<DownstreamModel>)
    ensures
        scanning(ds) <= ds.len(),
    decreases ds.len(),
{
    if ds.len() > 0 {
        lemma_scanning_bound(ds.drop_last());
    }
}

/// Some subscription is initialized exactly when fewer are scanning than there are.
pub proof fn lemma_scanning_ready(ds: Seq<DownstreamModel>)
    ensures
        scanning(ds) < ds.len() <==> exists|i: int| 0 <= i < ds.len() && ds[i].initialized,
    decreases ds.len(),
{
    if ds.len() > 0 {
        lemma_scanning_ready(ds.drop_last());
        lemma_scanning_bound(ds.drop_last());
        if ds.last().initialized {
            assert(ds[ds.len() - 1].initialized);
        } else if scanning(ds.drop_last()) < ds.drop_last().len() {
            let i = choose|i: int| 0 <= i < ds.drop_last().len() && ds.drop_last()[i].initialized;
            assert(ds[i].initialized);
        } else {
            assert forall|i: int| 0 <= i < ds.len() implies !ds[i].initialized by {
                if i < ds.len() - 1 {
                    assert(ds.drop_last()[i] == ds[i]);
                }
            }
        }
    }
}

/// The subscriptions of one region with the region's resolver.
pub struct Delegate {
    region_id: u64,
    epoch: Epoch,
    downstreams: Vec<Downstream>,
    locks: Locks,
    stopped: bool,
}

impl View for Delegate {
    type V = DelegateModel;

    closed spec fn view(&self) -> DelegateModel {
        DelegateModel {
            region_id: self.region_id,
            epoch: self.epoch,
            downstreams: self.downstreams@.map_values(|d: Downstream| d@),
            locks: self.locks@,
            stopped: self.stopped,
        }
    }
}

impl Delegate {
    /// The representation is sound and the model is well formed.
    pub closed spec fn wf(&self) -> bool {
        &&& self@.wf()
        &&& self.locks.wf()
        &&& forall|i: int| 0 <= i < self.downstreams@.len() ==> self.downstreams@[i].wf()
    }

    /// A sound delegate has a well-formed model.
    pub proof fn lemma_wf(&self)
        requires
            self.wf(),
        ensures
            self@.wf(),
    {
    }

    /// Whether every subscription has room for `n` more messages.
    pub fn has_room(&self, n: u64) -> (yes: bool)
        ensures
            yes == self@.room(n as nat),
    {
        let mut i: usize = 0;
        while i < self.downstreams.len()
            invariant
                i <= self.downstreams.len(),
                forall|j: int| 0 <= j < i ==> (#[trigger] self@.downstreams[j]).room(n as nat),
            decreases self.downstreams.len() - i,
        {
            let seq = self.downstreams[i].seq();
            if seq > u64::MAX - n {
                assert(!self@.downstreams[i as int].room(n as nat));
                return false;
            }
            i += 1;
        }
        true
    }

    /// A delegate for `region_id` at `epoch`, with no subscription yet.
    pub fn new(region_id: u64, epoch: Epoch) -> (d: Delegate)
        ensures
            d.wf(),
            d@ == DelegateModel::start(region_id, epoch),
    {
        let d = Delegate {
            region_id,
            epoch,
            downstreams: Vec::new(),
            locks: Locks::new(),
            stopped: false,
        };
        proof {
            d.locks.lemma_wf();
        }
        assert(d@.downstreams =~= Seq::empty());
        d
    }

    /// The region that the delegate serves.
    pub fn region_id(&self) -> (id: u64)
        ensures
            id == self@.region_id,
    {
        self.region_id
    }

    /// The epoch under which the delegate takes entries and scans.
    pub fn epoch(&self) -> (e: Epoch)
        ensures
            e == self@.epoch,
    {
        self.epoch
    }

    /// How many subscriptions the delegate holds.
    pub fn downstream_count(&self) -> (n: usize)
        ensures
            n == self@.downstreams.len(),
    {
        self.downstreams.len()
    }

    /// The last watermark that the resolver handed out.
    pub fn resolved_ts(&self) -> (ts: u64)
        ensures
            ts == self@.locks.resolver.resolved_ts,
    {
        self.locks.resolved_ts()
    }

    /// How many scans are outstanding.
    pub fn pending_scans(&self) -> (n: usize)
        ensures
            n == self@.pending_scans(),
    {
        let ghost ds = self@.downstreams;
        let mut n: usize = 0;
        let mut i: usize = 0;
        assert(ds.take(0) =~= Seq::<DownstreamModel>::empty());
        while i < self.downstreams.len()
            invariant
                i <= self.downstreams.len(),
                ds == self@.downstreams,
                ds.len() == self.downstreams@.len(),
                n <= i,
                n == scanning(ds.take(i as int)),
            decreases self.downstreams.len() - i,
        {
            proof {
                assert(ds.take(i + 1).drop_last() =~= ds.take(i as int));
                assert(ds.take(i + 1).last() == self.downstreams@[i as int]@);
            }
            if !self.downstreams[i].is_initialized() {
                n += 1;
            }
            i += 1;
        }
        assert(ds.take(i as int) =~= ds);
        n
    }

    /// Whether some subscription is initialized.
    pub fn is_ready(&self) -> (yes: bool)
        ensures
            yes == self@.ready(),
    {
        proof {
            lemma_scanning_ready(self@.downstreams);
        }
        self.pending_scans() < self.downstreams.len()
    }

    /// Where the delegate stands in its life.
    pub fn state(&self) -> (s: DelegateState)
        ensures
            s == self@.state(),
    {
        if self.stopped {
            DelegateState::Stopped
        } else if self.downstreams.len() == 0 {
            DelegateState::Idle
        } else if self.pending_scans() > 0 {
            DelegateState::Scanning
        } else {
            DelegateState::Steady
        }
    }

    fn find(&self, conn_id: u64, request_id: u64) -> (at: Option<usize>)
        requires
            self.wf(),
        ensures
            at is Some <==> self@.subscribed(conn_id, request_id),
            at matches Some(i) ==> self@.is_at(i as int, conn_id, request_id) && self@.slot(
                conn_id,
                request_id,
            ) == i,
    {
        let mut i: usize = 0;
        while i < self.downstreams.len()
            invariant
                i <= self.downstreams.len(),
                self.wf(),
                forall|j: int| 0 <= j < i ==> !self@.is_at(j, conn_id, request_id),
            decreases self.downstreams.len() - i,
        {
            if self.downstreams[i].conn_id() == conn_id && self.downstreams[i].request_id()
                == request_id {
                proof {
                    assert(self@.is_at(i as int, conn_id, request_id));
                    let c = self@.slot(conn_id, request_id);
                    assert(self@.is_at(c, conn_id, request_id));
                }
                return Some(i);
            }
            i += 1;
        }
        None
    }

    /// Whether the subscription of `request_id` on `conn_id` is initialized;
    /// `None` when there is no such subscription.
    pub fn is_initialized(&self, conn_id: u64, request_id: u64) -> (r: Option<bool>)
        requires
            self.wf(),
        ensures
            r is Some <==> self@.subscribed(conn_id, request_id),
            r matches Some(yes) ==> yes == self@.downstreams[self@.slot(
                conn_id,
                request_id,
            )].initialized,
    {
        match self.find(conn_id, request_id) {
            Some(i) => Some(self.downstreams[i].is_initialized()),
            None => None,
        }
    }

    /// Registers a subscription. On success the caller is to start its scan
    /// at `checkpoint_ts`. A refused registration changes nothing.
    pub fn register(&mut self, conn_id: u64, request_id: u64, checkpoint_ts: u64, epoch: Epoch)
        -> (r: Result<(), RegisterError>)
        requires
            old(self).wf(),
        ensures
            final(self).wf(),
            match r {
                Ok(()) => old(self)@.refusal(conn_id, request_id, epoch) is None,
                Err(e) => old(self)@.refusal(conn_id, request_id, epoch) == Some(e),
            },
            final(self)@ == old(self)@.register(conn_id, request_id, checkpoint_ts, epoch),
    {
        if self.stopped {
            return Err(RegisterError::RegionNotFound);
        }
        if epoch != self.epoch {
            return Err(RegisterError::EpochNotMatch);
        }
        if self.find(conn_id, request_id).is_some() {
            return Err(RegisterError::DuplicateRequest);
        }
        let ghost before = self@;
        let d = Downstream::new(self.region_id, conn_id, request_id, checkpoint_ts);
        self.downstreams.push(d);
        proof {
            assert(self@.downstreams =~= before.downstreams.push(d@));
            assert forall|i: int, j: int| 0 <= i < j < self@.downstreams.len() implies !(
            self@.downstreams[i].conn_id == self@.downstreams[j].conn_id
                && self@.downstreams[i].request_id == self@.downstreams[j].request_id) by {
                if j == before.downstreams.len() {
                    assert(!before.is_at(i, conn_id, request_id));
                }
            }
        }
        Ok(())
    }

    /// Drops the subscription of `request_id` on `conn_id`, as when the
    /// subscriber disconnects. Nothing is sent, and no other subscription is
    /// touched. Returns whether there was such a subscription.
    pub fn deregister(&mut self, conn_id: u64, request_id: u64) -> (found: bool)
        requires
            old(self).wf(),
        ensures
            final(self).wf(),
            found == old(self)@.subscribed(conn_id, request_id),
            final(self)@ == old(self)@.deregister(conn_id, request_id),
    {
        let ghost before = self@;
        match self.find(conn_id, request_id) {
            Some(i) => {
                self.downstreams.remove(i);
                assert(self@.downstreams =~= before.downstreams.remove(i as int));
                let scanning = self.pending_scans() > 0;
                self.locks.settle(scanning);
                proof {
                    self.locks.lemma_wf();
                }
                true
            },
            None => false,
        }
    }

    /// Sends `error` to every subscription, drops them all, and stops.
    pub fn stop(&mut self, error: RegionError, out: &mut Vec<Outbound>)
        requires
            old(self).wf(),
            old(self)@.room(1),
        ensures
            final(self).wf(),
            final(self)@ == old(self)@.stop(error).0,
            outbound_models(final(out)@) == outbound_models(old(out)@) + old(self)@.stop(error).1,
    {
        let ghost ds = self@.downstreams;
        let ghost sent = outbound_models(out@);
        assert(ds.take(0) =~= Seq::<DownstreamModel>::empty());
        assert(sent + Seq::<OutboundModel>::empty() =~= sent);
        let mut i: usize = 0;
        while i < self.downstreams.len()
            invariant
                i <= self.downstreams.len(),
                ds.len() == self.downstreams@.len(),
                forall|j: int| i <= j < ds.len() ==> self.downstreams@[j]@ == ds[j],
                forall|j: int| 0 <= j < ds.len() ==> self.downstreams@[j].wf(),
                forall|j: int| 0 <= j < ds.len() ==> ds[j].room(1),
                outbound_models(out@) == sent + sent_by_fail(ds.take(i as int), error),
                self.locks == old(self).locks,
                self.region_id == old(self).region_id,
                self.epoch == old(self).epoch,
            decreases self.downstreams.len() - i,
        {
            proof {
                assert(ds.take(i + 1).drop_last() =~= ds.take(i as int));
                assert(ds.take(i + 1).last() == ds[i as int]);
            }
            self.downstreams[i].fail(error, out);
            proof {
                let a = sent_by_fail(ds.take(i as int), error);
                let b = ds[i as int].fail(error).1;
                assert(sent + (a + b) =~= (sent + a) + b);
            }
            i += 1;
        }
        assert(ds.take(i as int) =~= ds);
        self.downstreams.clear();
        self.stopped = true;
        assert(self@.downstreams =~= Seq::<DownstreamModel>::empty());
    }

    /// Takes the region back under `epoch`: every subscription goes back to
    /// scanning. Returns the scans to start.
    pub fn reload(&mut self, epoch: Epoch) -> (scans: Vec<ScanRequest>)
        requires
            old(self).wf(),
        ensures
            final(self).wf(),
            final(self)@ == old(self)@.reload(epoch).0,
            scans@ == old(self)@.reload(epoch).1,
    {
        let ghost ds = self@.downstreams;
        let mut scans: Vec<ScanRequest> = Vec::new();
        if self.stopped {
            return scans;
        }
        self.epoch = epoch;
        let mut i: usize = 0;
        while i < self.downstreams.len()
            invariant
                i <= self.downstreams.len(),
                ds.len() == self.downstreams@.len(),
                forall|j: int| 0 <= j < i ==> self.downstreams@[j]@ == ds[j].restart(),
                forall|j: int| i <= j < ds.len() ==> self.downstreams@[j]@ == ds[j],
                forall|j: int| 0 <= j < ds.len() ==> self.downstreams@[j].wf(),
                scans@ == rescans(ds, epoch).take(i as int),
                self.locks == old(self).locks,
                self.region_id == old(self).region_id,
                self.epoch == epoch,
                self.stopped == old(self).stopped,
            decreases self.downstreams.len() - i,
        {
            self.downstreams[i].restart();
            let d = &self.downstreams[i];
            scans.push(
                ScanRequest {
                    region_id: d.region_id(),
                    epoch,
                    conn_id: d.conn_id(),
                    request_id: d.request_id(),
                    checkpoint_ts: d.checkpoint_ts(),
                },
            );
            assert(scans@ =~= rescans(ds, epoch).take(i + 1));
            i += 1;
        }
        proof {
            assert(rescans(ds, epoch).take(i as int) =~= rescans(ds, epoch));
            assert(self@.downstreams =~= old(self)@.reload(epoch).0.downstreams);
        }
        scans
    }

    /// Takes committed entries from the replication layer, observed under `epoch`.
    pub fn on_change_log(&mut self, epoch: Epoch, entries: &Vec<LogEntry>, out: &mut Vec<Outbound>)
        requires
            old(self).wf(),
            old(self)@.room(entries@.len() + 1),
        ensures
            final(self).wf(),
            final(self)@ == old(self)@.on_change_log(epoch, entry_models(entries@)).0,
            outbound_models(final(out)@) == outbound_models(old(out)@) + old(
                self,
            )@.on_change_log(epoch, entry_models(entries@)).1,
    {
        let ghost before = self@;
        let ghost ds = self@.downstreams;
        let ghost sent = outbound_models(out@);
        let ghost all = entry_models(entries@);
        if self.stopped {
            assert(sent + Seq::<OutboundModel>::empty() =~= sent);
            return ;
        }
        if epoch != self.epoch {
            self.stop(RegionError::EpochNotMatch, out);
            return ;
        }
        let scanning = self.pending_scans() > 0;
        self.locks.on_change_log(entries, scanning);
        assert(ds.take(0) =~= Seq::<DownstreamModel>::empty());
        assert(sent + Seq::<OutboundModel>::empty() =~= sent);
        let mut i: usize = 0;
        while i < self.downstreams.len()
            invariant
                i <= self.downstreams.len(),
                all == entry_models(entries@),
                ds.len() == self.downstreams@.len(),
                forall|j: int| 0 <= j < i ==> self.downstreams@[j]@ == ds[j].on_change_log(all).0,
                forall|j: int| i <= j < ds.len() ==> self.downstreams@[j]@ == ds[j],
                forall|j: int| 0 <= j < ds.len() ==> self.downstreams@[j].wf(),
                forall|j: int| 0 <= j < ds.len() ==> ds[j].room(entries@.len()),
                outbound_models(out@) == sent + sent_by_change_log(ds.take(i as int), all),
                self.locks.wf(),
                self.locks@ == before.locks.on_change_log(all, before.pending_scans() > 0),
                self.region_id == old(self).region_id,
                self.epoch == old(self).epoch,
                self.stopped == old(self).stopped,
            decreases self.downstreams.len() - i,
        {
            proof {
                assert(ds.take(i + 1).drop_last() =~= ds.take(i as int));
                assert(ds.take(i + 1).last() == ds[i as int]);
            }
            self.downstreams[i].on_change_log(entries, out);
            proof {
                let a = sent_by_change_log(ds.take(i as int), all);
                let b = ds[i as int].on_change_log(all).1;
                assert(sent + (a + b) =~= (sent + a) + b);
            }
            i += 1;
        }
        proof {
            self.locks.lemma_wf();
            assert(ds.take(i as int) =~= ds);
            assert(self@.downstreams =~= after_change_log(ds, all));
            assert forall|j: int| 0 <= j < ds.len() implies self@.downstreams[j].region_id
                == self@.region_id && !self@.downstreams[j].closed by {
                lemma_on_change_log(ds[j], all);
            }
            assert forall|a: int, b: int| 0 <= a < b < ds.len() implies !(
            self@.downstreams[a].conn_id == self@.downstreams[b].conn_id
                && self@.downstreams[a].request_id == self@.downstreams[b].request_id) by {
                lemma_on_change_log(ds[a], all);
                lemma_on_change_log(ds[b], all);
            }
        }
    }

    /// Whether the subscription, if the delegate holds it, has room for the
    /// messages of a scan step of `n` records.
    pub fn can_scan(&self, conn_id: u64, request_id: u64, n: usize) -> (yes: bool)
        requires
            self.wf(),
        ensures
            yes == self@.can_scan(conn_id, request_id, n as nat),
    {
        match self.find(conn_id, request_id) {
            Some(i) => {
                let seq = self.downstreams[i].seq();
                let held = self.downstreams[i].backlog_len();
                let left = u64::MAX - seq;
                left >= 1 && left - 1 >= (n as u64) && left - 1 - (n as u64) >= (held as u64)
            },
            None => true,
        }
    }

    /// Takes one step of the scan of the subscription of `request_id` on
    /// `conn_id`, from a scan that ran under `epoch`.
    pub fn on_scan(
        &mut self,
        conn_id: u64,
        request_id: u64,
        epoch: Epoch,
        step: ScanStep,
        out: &mut Vec<Outbound>,
    )
        requires
            old(self).wf(),
            old(self)@.can_scan(conn_id, request_id, step_len(step@)),
        ensures
            final(self).wf(),
            final(self)@ == old(self)@.on_scan(conn_id, request_id, epoch, step@).0,
            outbound_models(final(out)@) == outbound_models(old(out)@) + old(self)@.on_scan(
                conn_id,
                request_id,
                epoch,
                step@,
            ).1,
    {
        let ghost before = self@;
        let ghost sent = outbound_models(out@);
        if epoch != self.epoch {
            assert(sent + Seq::<OutboundModel>::empty() =~= sent);
            return ;
        }
        match self.find(conn_id, request_id) {
            Some(i) => {
                let ghost d0 = self.downstreams@[i as int]@;
                if !self.downstreams[i].is_initialized() {
                    match &step {
                        ScanStep::Rows(rows) => {
                            self.locks.on_scan_rows(rows);
                        },
                        ScanStep::Finished(rows) => {
                            self.locks.on_scan_rows(rows);
                        },
                        _ => {},
                    }
                }
                self.downstreams[i].on_scan(step, out);
                proof {
                    crate::cdc::downstream::lemma_on_scan(d0, step@);
                }
                if self.downstreams[i].is_closed() {
                    self.downstreams.remove(i);
                    assert(self@.downstreams =~= before.downstreams.remove(i as int));
                } else {
                    assert(self@.downstreams =~= before.downstreams.update(
                        i as int,
                        d0.on_scan(step@).0,
                    ));
                }
                let scanning = self.pending_scans() > 0;
                self.locks.settle(scanning);
                proof {
                    self.locks.lemma_wf();
                }
            },
            None => {
                assert(sent + Seq::<OutboundModel>::empty() =~= sent);
            },
        }
    }

    /// The periodic tick: computes the region's watermark from the hint and
    /// sends it to every initialized subscription. Returns the watermark.
    pub fn on_min_ts(&mut self, min_ts_hint: u64, out: &mut Vec<Outbound>) -> (ts: u64)
        requires
            old(self).wf(),
            old(self)@.room(1),
        ensures
            final(self).wf(),
            ts == if old(self)@.stopped {
                old(self)@.locks.resolver.resolved_ts
            } else {
                old(self)@.locks.resolver.watermark(min_ts_hint)
            },
            final(self)@ == old(self)@.on_min_ts(min_ts_hint).0,
            outbound_models(final(out)@) == outbound_models(old(out)@) + old(self)@.on_min_ts(
                min_ts_hint,
            ).1,
    {
        let ghost ds = self@.downstreams;
        let ghost sent = outbound_models(out@);
        assert(sent + Seq::<OutboundModel>::empty() =~= sent);
        if self.stopped {
            return self.locks.resolved_ts();
        }
        let ts = self.locks.resolve(min_ts_hint);
        assert(ds.take(0) =~= Seq::<DownstreamModel>::empty());
        let mut i: usize = 0;
        while i < self.downstreams.len()
            invariant
                i <= self.downstreams.len(),
                ds.len() == self.downstreams@.len(),
                forall|j: int| 0 <= j < i ==> self.downstreams@[j]@ == ds[j].on_resolved_ts(ts).0,
                forall|j: int| i <= j < ds.len() ==> self.downstreams@[j]@ == ds[j],
                forall|j: int| 0 <= j < ds.len() ==> self.downstreams@[j].wf(),
                forall|j: int| 0 <= j < ds.len() ==> ds[j].room(1),
                outbound_models(out@) == sent + sent_by_resolved_ts(ds.take(i as int), ts),
                self.locks.wf(),
                self.locks@ == old(self).locks@.resolve(min_ts_hint),
                self.region_id == old(self).region_id,
                self.epoch == old(self).epoch,
                self.stopped == old(self).stopped,
            decreases self.downstreams.len() - i,
        {
            proof {
                assert(ds.take(i + 1).drop_last() =~= ds.take(i as int));
                assert(ds.take(i + 1).last() == ds[i as int]);
            }
            self.downstreams[i].on_resolved_ts(ts, out);
            proof {
                let a = sent_by_resolved_ts(ds.take(i as int), ts);
                let b = ds[i as int].on_resolved_ts(ts).1;
                assert(sent + (a + b) =~= (sent + a) + b);
            }
            i += 1;
        }
        proof {
            self.locks.lemma_wf();
            assert(ds.take(i as int) =~= ds);
            assert(self@.downstreams =~= after_resolved_ts(ds, ts));
        }
        ts
    }
}


/// The messages that carry the tags of one subscription, in order.
pub open spec fn addressed_to(out: Seq<OutboundModel>, conn_id: u64, request_id: u64) -> Seq<
    OutboundModel,
>
    decreases out.len(),
{
    if out.len() == 0 {
        Seq::empty()
    } else if out.last().conn_id == conn_id && out.last().request_id == request_id {
        addressed_to(out.drop_last(), conn_id, request_id).push(out.last())
    } else {
        addressed_to(out.drop_last(), conn_id, request_id)
    }
}

proof fn lemma_addressed_add(a: Seq<OutboundModel>, b: Seq<OutboundModel>, conn_id: u64, request_id: u64)
    ensures
        addressed_to(a + b, conn_id, request_id) == addressed_to(a, conn_id, request_id)
            + addressed_to(b, conn_id, request_id),
    decreases b.len(),
{
    if b.len() == 0 {
        assert(a + b =~= a);
        assert(addressed_to(a, conn_id, request_id) + Seq::<OutboundModel>::empty() =~= addressed_to(
            a,
            conn_id,
            request_id,
        ));
    } else {
        lemma_addressed_add(a, b.drop_last(), conn_id, request_id);
        assert((a + b).drop_last() =~= a + b.drop_last());
        assert((a + b).last() == b.last());
        let x = addressed_to(a, conn_id, request_id);
        let y = addressed_to(b.drop_last(), conn_id, request_id);
        assert((x + y).push(b.last()) =~= x + y.push(b.last()));
    }
}

proof fn lemma_addressed_own(s: DownstreamModel, out: Seq<OutboundModel>, conn_id: u64, request_id: u64)
    requires
        crate::cdc::downstream::tagged(s, out),
    ensures
        s.conn_id == conn_id && s.request_id == request_id ==> addressed_to(
            out,
            conn_id,
            request_id,
        ) == out,
        !(s.conn_id == conn_id && s.request_id == request_id) ==> addressed_to(
            out,
            conn_id,
            request_id,
        ) == Seq::<OutboundModel>::empty(),
    decreases out.len(),
{
    if out.len() > 0 {
        assert forall|i: int| 0 <= i < out.drop_last().len() implies (
        #[trigger] out.drop_last()[i]).region_id == s.region_id && out.drop_last()[i].conn_id
            == s.conn_id && out.drop_last()[i].request_id == s.request_id by {
            assert(out.drop_last()[i] == out[i]);
        }
        lemma_addressed_own(s, out.drop_last(), conn_id, request_id);
        assert(out.last() == out[out.len() - 1]);
        assert(out.drop_last().push(out.last()) =~= out);
    }
}

/// No two of the subscriptions carry the same tags.
pub open spec fn distinct_tags(ds: Seq<DownstreamModel>) -> bool {
    forall|i: int, j: int|
        0 <= i < j < ds.len() ==> !(ds[i].conn_id == ds[j].conn_id && ds[i].request_id
            == ds[j].request_id)
}

proof fn lemma_change_log_addressed(
    ds: Seq<DownstreamModel>,
    entries: Seq<LogEntryModel>,
    conn_id: u64,
    request_id: u64,
)
    requires
        distinct_tags(ds),
    ensures
        forall|i: int|
            0 <= i < ds.len() && ds[i].conn_id == conn_id && ds[i].request_id == request_id
                ==> addressed_to(sent_by_change_log(ds, entries), conn_id, request_id)
                == ds[i].on_change_log(entries).1,
        (forall|i: int|
            0 <= i < ds.len() ==> !(ds[i].conn_id == conn_id && ds[i].request_id == request_id))
            ==> addressed_to(sent_by_change_log(ds, entries), conn_id, request_id) == Seq::<
            OutboundModel,
        >::empty(),
    decreases ds.len(),
{
    if ds.len() > 0 {
        let head = ds.drop_last();
        let last = ds.last();
        assert(distinct_tags(head)) by {
            assert forall|i: int, j: int| 0 <= i < j < head.len() implies !(head[i].conn_id
                == head[j].conn_id && head[i].request_id == head[j].request_id) by {
                assert(head[i] == ds[i] && head[j] == ds[j]);
            }
        }
        lemma_change_log_addressed(head, entries, conn_id, request_id);
        crate::cdc::downstream::lemma_change_log_tagged(last, entries);
        lemma_addressed_own(last, last.on_change_log(entries).1, conn_id, request_id);
        lemma_addressed_add(
            sent_by_change_log(head, entries),
            last.on_change_log(entries).1,
            conn_id,
            request_id,
        );
        let whole = addressed_to(sent_by_change_log(ds, entries), conn_id, request_id);
        if last.conn_id == conn_id && last.request_id == request_id {
            assert forall|i: int| 0 <= i < head.len() implies !(head[i].conn_id == conn_id
                && head[i].request_id == request_id) by {
                assert(head[i] == ds[i]);
                assert(ds[ds.len() - 1] == last);
            }
            assert(whole =~= last.on_change_log(entries).1);
            assert forall|i: int|
                0 <= i < ds.len() && ds[i].conn_id == conn_id && ds[i].request_id
                    == request_id implies whole == ds[i].on_change_log(entries).1 by {
                if i < ds.len() - 1 {
                    assert(head[i] == ds[i]);
                }
            }
        } else {
            assert(whole =~= addressed_to(sent_by_change_log(head, entries), conn_id, request_id));
            assert forall|i: int|
                0 <= i < ds.len() && ds[i].conn_id == conn_id && ds[i].request_id
                    == request_id implies whole == ds[i].on_change_log(entries).1 by {
                assert(head[i] == ds[i]);
            }
            if forall|i: int|
                0 <= i < ds.len() ==> !(ds[i].conn_id == conn_id && ds[i].request_id
                    == request_id) {
                assert forall|i: int| 0 <= i < head.len() implies !(head[i].conn_id == conn_id
                    && head[i].request_id == request_id) by {
                    assert(head[i] == ds[i]);
                }
            }
        }
    }
}

proof fn lemma_resolved_ts_addressed(ds: Seq<DownstreamModel>, ts: u64, conn_id: u64, request_id: u64)
    requires
        distinct_tags(ds),
    ensures
        forall|i: int|
            0 <= i < ds.len() && ds[i].conn_id == conn_id && ds[i].request_id == request_id
                ==> addressed_to(sent_by_resolved_ts(ds, ts), conn_id, request_id)
                == ds[i].on_resolved_ts(ts).1,
        (forall|i: int|
            0 <= i < ds.len() ==> !(ds[i].conn_id == conn_id && ds[i].request_id == request_id))
            ==> addressed_to(sent_by_resolved_ts(ds, ts), conn_id, request_id) == Seq::<
            OutboundModel,
        >::empty(),
    decreases ds.len(),
{
    if ds.len() > 0 {
        let head = ds.drop_last();
        let last = ds.last();
        assert(distinct_tags(head)) by {
            assert forall|i: int, j: int| 0 <= i < j < head.len() implies !(head[i].conn_id
                == head[j].conn_id && head[i].request_id == head[j].request_id) by {
                assert(head[i] == ds[i] && head[j] == ds[j]);
            }
        }
        lemma_resolved_ts_addressed(head, ts, conn_id, request_id);
        lemma_addressed_own(last, last.on_resolved_ts(ts).1, conn_id, request_id);
        lemma_addressed_add(
            sent_by_resolved_ts(head, ts),
            last.on_resolved_ts(ts).1,
            conn_id,
            request_id,
        );
        let whole = addressed_to(sent_by_resolved_ts(ds, ts), conn_id, request_id);
        if last.conn_id == conn_id && last.request_id == request_id {
            assert forall|i: int| 0 <= i < head.len() implies !(head[i].conn_id == conn_id
                && head[i].request_id == request_id) by {
                assert(head[i] == ds[i]);
                assert(ds[ds.len() - 1] == last);
            }
            assert(whole =~= last.on_resolved_ts(ts).1);
            assert forall|i: int|
                0 <= i < ds.len() && ds[i].conn_id == conn_id && ds[i].request_id
                    == request_id implies whole == ds[i].on_resolved_ts(ts).1 by {
                if i < ds.len() - 1 {
                    assert(head[i] == ds[i]);
                }
            }
        } else {
            assert(whole =~= addressed_to(sent_by_resolved_ts(head, ts), conn_id, request_id));
            assert forall|i: int|
                0 <= i < ds.len() && ds[i].conn_id == conn_id && ds[i].request_id
                    == request_id implies whole == ds[i].on_resolved_ts(ts).1 by {
                assert(head[i] == ds[i]);
            }
            if forall|i: int|
                0 <= i < ds.len() ==> !(ds[i].conn_id == conn_id && ds[i].request_id
                    == request_id) {
                assert forall|i: int| 0 <= i < head.len() implies !(head[i].conn_id == conn_id
                    && head[i].request_id == request_id) by {
                    assert(head[i] == ds[i]);
                }
            }
        }
    }
}

/// Live events are not delivered across subscriptions: of what a change log
/// makes a delegate send, the messages tagged for one subscription are
/// exactly what that subscription's own state and checkpoint yield, whatever
/// the other subscriptions of the region are doing; and nothing is tagged
/// for a subscription that the delegate does not hold.
pub proof fn law_change_log_is_not_cross_delivered(
    d: DelegateModel,
    entries: Seq<LogEntryModel>,
    conn_id: u64,
    request_id: u64,
)
    requires
        d.wf(),
        !d.stopped,
    ensures
        d.subscribed(conn_id, request_id) ==> addressed_to(
            d.on_change_log(d.epoch, entries).1,
            conn_id,
            request_id,
        ) == d.downstreams[d.slot(conn_id, request_id)].on_change_log(entries).1,
        !d.subscribed(conn_id, request_id) ==> addressed_to(
            d.on_change_log(d.epoch, entries).1,
            conn_id,
            request_id,
        ) == Seq::<OutboundModel>::empty(),
{
    lemma_change_log_addressed(d.downstreams, entries, conn_id, request_id);
    if d.subscribed(conn_id, request_id) {
        let i = d.slot(conn_id, request_id);
        assert(d.is_at(i, conn_id, request_id));
    } else {
        assert forall|i: int| 0 <= i < d.downstreams.len() implies !(d.downstreams[i].conn_id
            == conn_id && d.downstreams[i].request_id == request_id) by {
            assert(!d.is_at(i, conn_id, request_id));
        }
    }
}

/// The watermark is withheld from a subscription that is not initialized,
/// while the initialized subscriptions of the same region go on receiving
/// it: of what a tick makes a delegate send, a subscription that is still
/// scanning gets nothing, and an initialized one gets exactly one message,
/// which carries its own tags and the region's watermark.
pub proof fn law_watermark_is_withheld_until_initialized(
    d: DelegateModel,
    min_ts_hint: u64,
    conn_id: u64,
    request_id: u64,
)
    requires
        d.wf(),
        !d.stopped,
        d.subscribed(conn_id, request_id),
    ensures
        ({
            let s = d.downstreams[d.slot(conn_id, request_id)];
            let mine = addressed_to(d.on_min_ts(min_ts_hint).1, conn_id, request_id);
            &&& !s.initialized ==> mine == Seq::<OutboundModel>::empty()
            &&& s.initialized ==> mine == seq![
                s.message(BodyModel::ResolvedTs(d.locks.resolver.watermark(min_ts_hint))),
            ]
        }),
{
    let ts = d.locks.resolver.watermark(min_ts_hint);
    lemma_resolved_ts_addressed(d.downstreams, ts, conn_id, request_id);
    let i = d.slot(conn_id, request_id);
    assert(d.is_at(i, conn_id, request_id));
}

/// Closing one subscription neither corrupts nor stalls another: after the
/// first is dropped the second is still held, in the state it was in, so
/// each step of its scan sends it what it would have been sent otherwise.
pub proof fn law_deregister_spares_the_others(
    d: DelegateModel,
    gone_conn: u64,
    gone_request: u64,
    conn_id: u64,
    request_id: u64,
    step: ScanStepModel,
)
    requires
        d.wf(),
        d.subscribed(conn_id, request_id),
        !(gone_conn == conn_id && gone_request == request_id),
    ensures
        ({
            let after = d.deregister(gone_conn, gone_request);
            &&& after.wf()
            &&& after.subscribed(conn_id, request_id)
            &&& after.downstreams[after.slot(conn_id, request_id)] == d.downstreams[d.slot(
                conn_id,
                request_id,
            )]
            &&& after.on_scan(conn_id, request_id, d.epoch, step).1 == d.on_scan(
                conn_id,
                request_id,
                d.epoch,
                step,
            ).1
        }),
{
    let after = d.deregister(gone_conn, gone_request);
    let i = d.slot(conn_id, request_id);
    assert(d.is_at(i, conn_id, request_id));
    if d.subscribed(gone_conn, gone_request) {
        let g = d.slot(gone_conn, gone_request);
        assert(d.is_at(g, gone_conn, gone_request));
        let i1 = if i < g {
            i
        } else {
            i - 1
        };
        assert(after.is_at(i1, conn_id, request_id));
        let k = after.slot(conn_id, request_id);
        assert(after.is_at(k, conn_id, request_id));
        let k0 = if k < g {
            k
        } else {
            k + 1
        };
        assert(d.is_at(k0, conn_id, request_id));
        assert forall|a: int, b: int| 0 <= a < b < after.downstreams.len() implies !(
        after.downstreams[a].conn_id == after.downstreams[b].conn_id
            && after.downstreams[a].request_id == after.downstreams[b].request_id) by {
            let a0 = if a < g {
                a
            } else {
                a + 1
            };
            let b0 = if b < g {
                b
            } else {
                b + 1
            };
            assert(after.downstreams[a] == d.downstreams[a0]);
            assert(after.downstreams[b] == d.downstreams[b0]);
        }
    }
}

/// A scan brings its subscription to a terminal state. When the scan
/// completes the subscription is initialized and holds nothing back. When
/// the read fails it is sent `RegionNotFound`, when the scan is cancelled
/// `EpochNotMatch`, and either way it is dropped from the delegate.
pub proof fn law_scan_ends_in_a_terminal_state(
    d: DelegateModel,
    conn_id: u64,
    request_id: u64,
    rows: Seq<RowModel>,
)
    requires
        d.wf(),
        d.subscribed(conn_id, request_id),
        !d.downstreams[d.slot(conn_id, request_id)].initialized,
    ensures
        ({
            let s = d.downstreams[d.slot(conn_id, request_id)];
            let finished = d.on_scan(conn_id, request_id, d.epoch, ScanStepModel::Finished(rows));
            let failed = d.on_scan(conn_id, request_id, d.epoch, ScanStepModel::Failed);
            let cancelled = d.on_scan(conn_id, request_id, d.epoch, ScanStepModel::Cancelled);
            &&& finished.0.subscribed(conn_id, request_id)
            &&& finished.0.downstreams[finished.0.slot(conn_id, request_id)].initialized
            &&& finished.0.downstreams[finished.0.slot(conn_id, request_id)].backlog.len() == 0
            &&& failed.1 == seq![s.message(BodyModel::Error(RegionError::RegionNotFound))]
            &&& !failed.0.subscribed(conn_id, request_id)
            &&& cancelled.1 == seq![s.message(BodyModel::Error(RegionError::EpochNotMatch))]
            &&& !cancelled.0.subscribed(conn_id, request_id)
        }),
{
    let i = d.slot(conn_id, request_id);
    assert(d.is_at(i, conn_id, request_id));
    let s = d.downstreams[i];
    let finished = d.on_scan(conn_id, request_id, d.epoch, ScanStepModel::Finished(rows));
    crate::cdc::downstream::lemma_on_scan(s, ScanStepModel::Finished(rows));
    crate::cdc::downstream::lemma_scan_rows(s, rows);
    let shown = s.scan_rows(rows);
    let marker = shown.0.send(BodyModel::Row(RowModel::initialized()));
    crate::cdc::downstream::lemma_emit_rows(marker.0, shown.0.backlog);
    assert(finished.0.is_at(i, conn_id, request_id));
    let k = finished.0.slot(conn_id, request_id);
    assert(finished.0.is_at(k, conn_id, request_id));
    assert(k == i) by {
        if k != i {
            crate::cdc::downstream::lemma_on_scan(s, ScanStepModel::Finished(rows));
            assert(d.is_at(k, conn_id, request_id));
        }
    }
    let failed = d.on_scan(conn_id, request_id, d.epoch, ScanStepModel::Failed);
    if failed.0.subscribed(conn_id, request_id) {
        let f = failed.0.slot(conn_id, request_id);
        assert(failed.0.is_at(f, conn_id, request_id));
        let f0 = if f < i {
            f
        } else {
            f + 1
        };
        assert(d.is_at(f0, conn_id, request_id));
    }
}


/// Every message names region `region_id`.
pub open spec fn for_region(out: Seq<OutboundModel>, region_id: u64) -> bool {
    forall|i: int| 0 <= i < out.len() ==> (#[trigger] out[i]).region_id == region_id
}

proof fn lemma_change_log_for_region(ds: Seq<DownstreamModel>, entries: Seq<LogEntryModel>, region_id: u64)
    requires
        forall|i: int| 0 <= i < ds.len() ==> (#[trigger] ds[i]).region_id == region_id,
    ensures
        for_region(sent_by_change_log(ds, entries), region_id),
    decreases ds.len(),
{
    if ds.len() > 0 {
        assert forall|i: int| 0 <= i < ds.drop_last().len() implies (#[trigger] ds.drop_last()[i]).region_id
            == region_id by {
            assert(ds.drop_last()[i] == ds[i]);
        }
        lemma_change_log_for_region(ds.drop_last(), entries, region_id);
        assert(ds.last() == ds[ds.len() - 1]);
        crate::cdc::downstream::lemma_change_log_tagged(ds.last(), entries);
    }
}

proof fn lemma_resolved_ts_for_region(ds: Seq<DownstreamModel>, ts: u64, region_id: u64)
    requires
        forall|i: int| 0 <= i < ds.len() ==> (#[trigger] ds[i]).region_id == region_id,
    ensures
        for_region(sent_by_resolved_ts(ds, ts), region_id),
    decreases ds.len(),
{
    if ds.len() > 0 {
        assert forall|i: int| 0 <= i < ds.drop_last().len() implies (#[trigger] ds.drop_last()[i]).region_id
            == region_id by {
            assert(ds.drop_last()[i] == ds[i]);
        }
        lemma_resolved_ts_for_region(ds.drop_last(), ts, region_id);
        assert(ds.last() == ds[ds.len() - 1]);
    }
}

proof fn lemma_fail_for_region(ds: Seq<DownstreamModel>, error: RegionError, region_id: u64)
    requires
        forall|i: int| 0 <= i < ds.len() ==> (#[trigger] ds[i]).region_id == region_id,
    ensures
        for_region(sent_by_fail(ds, error), region_id),
    decreases ds.len(),
{
    if ds.len() > 0 {
        assert forall|i: int| 0 <= i < ds.drop_last().len() implies (#[trigger] ds.drop_last()[i]).region_id
            == region_id by {
            assert(ds.drop_last()[i] == ds[i]);
        }
        lemma_fail_for_region(ds.drop_last(), error, region_id);
        assert(ds.last() == ds[ds.len() - 1]);
    }
}

/// Whatever a delegate sends names the delegate's own region.
pub proof fn lemma_sends_for_own_region(d: DelegateModel)
    requires
        d.wf(),
    ensures
        forall|epoch: Epoch, entries: Seq<LogEntryModel>| #[trigger]
            for_region(d.on_change_log(epoch, entries).1, d.region_id),
        forall|conn_id: u64, request_id: u64, epoch: Epoch, step: ScanStepModel| #[trigger]
            for_region(d.on_scan(conn_id, request_id, epoch, step).1, d.region_id),
        forall|min_ts_hint: u64| #[trigger] for_region(d.on_min_ts(min_ts_hint).1, d.region_id),
        forall|error: RegionError| #[trigger] for_region(d.stop(error).1, d.region_id),
{
    assert forall|epoch: Epoch, entries: Seq<LogEntryModel>| #[trigger]
        for_region(d.on_change_log(epoch, entries).1, d.region_id) by {
        lemma_change_log_for_region(d.downstreams, entries, d.region_id);
        lemma_fail_for_region(d.downstreams, RegionError::EpochNotMatch, d.region_id);
    }
    assert forall|conn_id: u64, request_id: u64, epoch: Epoch, step: ScanStepModel| #[trigger]
        for_region(d.on_scan(conn_id, request_id, epoch, step).1, d.region_id) by {
        if d.subscribed(conn_id, request_id) {
            let i = d.slot(conn_id, request_id);
            assert(d.is_at(i, conn_id, request_id));
            crate::cdc::downstream::lemma_scan_tagged(d.downstreams[i], step);
        }
    }
    assert forall|min_ts_hint: u64| #[trigger]
        for_region(d.on_min_ts(min_ts_hint).1, d.region_id) by {
        lemma_resolved_ts_for_region(
            d.downstreams,
            d.locks.resolver.watermark(min_ts_hint),
            d.region_id,
        );
    }
    assert forall|error: RegionError| #[trigger] for_region(d.stop(error).1, d.region_id) by {
        lemma_fail_for_region(d.downstreams, error, d.region_id);
    }
}

/// The first registration takes a delegate from idle to scanning.
pub proof fn law_first_registration_starts_scanning(
    region_id: u64,
    epoch: Epoch,
    conn_id: u64,
    request_id: u64,
    checkpoint_ts: u64,
)
    ensures
        DelegateModel::start(region_id, epoch).state() == DelegateState::Idle,
        DelegateModel::start(region_id, epoch).register(
            conn_id,
            request_id,
            checkpoint_ts,
            epoch,
        ).state() == DelegateState::Scanning,
{
    let d = DelegateModel::start(region_id, epoch);
    assert(!d.subscribed(conn_id, request_id));
    let r = d.register(conn_id, request_id, checkpoint_ts, epoch);
    assert(r.downstreams.drop_last() =~= Seq::<DownstreamModel>::empty());
    assert(scanning(r.downstreams.drop_last()) == 0);
}

/// A stopped delegate is at its end: it takes no registration, sends
/// nothing, and stays as it is.
pub proof fn law_stopped_is_terminal(d: DelegateModel)
    requires
        d.wf(),
        d.stopped,
    ensures
        d.state() == DelegateState::Stopped,
        forall|conn_id: u64, request_id: u64, checkpoint_ts: u64, epoch: Epoch| #[trigger]
            d.register(conn_id, request_id, checkpoint_ts, epoch) == d,
        forall|epoch: Epoch, entries: Seq<LogEntryModel>| #[trigger]
            d.on_change_log(epoch, entries) == (d, Seq::<OutboundModel>::empty()),
        forall|conn_id: u64, request_id: u64, epoch: Epoch, step: ScanStepModel| #[trigger]
            d.on_scan(conn_id, request_id, epoch, step) == (d, Seq::<OutboundModel>::empty()),
        forall|min_ts_hint: u64| #[trigger]
            d.on_min_ts(min_ts_hint) == (d, Seq::<OutboundModel>::empty()),
{
    assert forall|conn_id: u64, request_id: u64, epoch: Epoch, step: ScanStepModel| #[trigger]
        d.on_scan(conn_id, request_id, epoch, step) == (d, Seq::<OutboundModel>::empty()) by {
        if d.subscribed(conn_id, request_id) {
            let i = d.slot(conn_id, request_id);
            assert(d.is_at(i, conn_id, request_id));
        }
    }
}


/// Scan output is not delivered across subscriptions: whatever a step of one
/// subscription's scan makes the delegate send carries that subscription's
/// tags, and no other subscription changes.
pub proof fn law_scan_reaches_its_subscription_only(
    d: DelegateModel,
    conn_id: u64,
    request_id: u64,
    epoch: Epoch,
    step: ScanStepModel,
)
    requires
        d.wf(),
    ensures
        ({
            let r = d.on_scan(conn_id, request_id, epoch, step);
            &&& addressed_to(r.1, conn_id, request_id) == r.1
            &&& forall|other_conn: u64, other_request: u64|
                !(other_conn == conn_id && other_request == request_id) ==> #[trigger] addressed_to(
                    r.1,
                    other_conn,
                    other_request,
                ) == Seq::<OutboundModel>::empty()
            &&& forall|i: int|
                0 <= i < d.downstreams.len() && !d.is_at(i, conn_id, request_id) ==> exists|j: int|
                    0 <= j < r.0.downstreams.len() && r.0.downstreams[j] == #[trigger] d.downstreams[i]
        }),
{
    let r = d.on_scan(conn_id, request_id, epoch, step);
    if epoch == d.epoch && d.subscribed(conn_id, request_id) {
        let at = d.slot(conn_id, request_id);
        assert(d.is_at(at, conn_id, request_id));
        let s = d.downstreams[at];
        crate::cdc::downstream::lemma_scan_tagged(s, step);
        lemma_addressed_own(s, r.1, conn_id, request_id);
        assert forall|other_conn: u64, other_request: u64|
            !(other_conn == conn_id && other_request == request_id) implies #[trigger] addressed_to(
            r.1,
            other_conn,
            other_request,
        ) == Seq::<OutboundModel>::empty() by {
            lemma_addressed_own(s, r.1, other_conn, other_request);
        }
        assert forall|i: int|
            0 <= i < d.downstreams.len() && !d.is_at(i, conn_id, request_id) implies exists|j: int|
            0 <= j < r.0.downstreams.len() && r.0.downstreams[j] == #[trigger] d.downstreams[i] by {
            let j = if s.on_scan(step).0.closed && i > at {
                i - 1
            } else {
                i
            };
            assert(r.0.downstreams[j] == d.downstreams[i]);
        }
    } else {
        assert forall|i: int|
            0 <= i < d.downstreams.len() && !d.is_at(i, conn_id, request_id) implies exists|j: int|
            0 <= j < r.0.downstreams.len() && r.0.downstreams[j] == #[trigger] d.downstreams[i] by {
            assert(r.0.downstreams[i] == d.downstreams[i]);
        }
    }
}


/// Replacing one subscription changes the number of outstanding scans by
/// what that subscription's own scan contributes.
proof fn lemma_scanning_update(ds: Seq<DownstreamModel>, i: int, d: DownstreamModel)
    requires
        0 <= i < ds.len(),
    ensures
        scanning(ds.update(i, d)) + (if ds[i].initialized {
            0nat
        } else {
            1nat
        }) == scanning(ds) + (if d.initialized {
            0nat
        } else {
            1nat
        }),
    decreases ds.len(),
{
    let n = ds.len() - 1;
    if i == n {
        assert(ds.update(i, d).drop_last() =~= ds.drop_last());
    } else {
        lemma_scanning_update(ds.drop_last(), i, d);
        assert(ds.update(i, d).drop_last() =~= ds.drop_last().update(i, d));
        assert(ds.update(i, d).last() == ds.last());
    }
}

/// The last scan makes the delegate steady: when the one subscription that
/// is still scanning completes its scan, the delegate goes from scanning to
/// steady, and nothing is held back for that subscription any more.
pub proof fn law_the_last_scan_makes_steady(
    d: DelegateModel,
    conn_id: u64,
    request_id: u64,
    rows: Seq<RowModel>,
)
    requires
        d.wf(),
        !d.stopped,
        d.subscribed(conn_id, request_id),
        !d.downstreams[d.slot(conn_id, request_id)].initialized,
        d.pending_scans() == 1,
    ensures
        d.state() == DelegateState::Scanning,
        d.on_scan(conn_id, request_id, d.epoch, ScanStepModel::Finished(rows)).0.state()
            == DelegateState::Steady,
{
    let i = d.slot(conn_id, request_id);
    assert(d.is_at(i, conn_id, request_id));
    let s = d.downstreams[i];
    let next = s.on_scan(ScanStepModel::Finished(rows));
    crate::cdc::downstream::lemma_scan_rows(s, rows);
    let shown = s.scan_rows(rows);
    let marker = shown.0.send(BodyModel::Row(RowModel::initialized()));
    crate::cdc::downstream::lemma_emit_rows(marker.0, shown.0.backlog);
    assert(next.0.initialized && !next.0.closed);
    lemma_scanning_update(d.downstreams, i, next.0);
}


/// A tick sends nothing but the watermark it computed.
proof fn lemma_resolved_ts_bodies(ds: Seq<DownstreamModel>, ts: u64)
    ensures
        forall|i: int|
            0 <= i < sent_by_resolved_ts(ds, ts).len() ==> (#[trigger] sent_by_resolved_ts(
                ds,
                ts,
            )[i]).body == BodyModel::ResolvedTs(ts),
    decreases ds.len(),
{
    if ds.len() > 0 {
        lemma_resolved_ts_bodies(ds.drop_last(), ts);
    }
}

/// The watermark stays below the known locks: a lock that the delegate
/// knows, taken above the last watermark, keeps every watermark that the
/// delegate sends below its start timestamp until it is released. No
/// subscriber is told that a timestamp is resolved while a transaction that
/// started before it may still commit.
pub proof fn law_known_locks_hold_the_watermark(
    d: DelegateModel,
    key: Seq<u8>,
    start_ts: u64,
    min_ts_hint: u64,
)
    requires
        d.wf(),
        d.locks.locked.contains((key, start_ts)),
        start_ts > d.locks.resolver.resolved_ts,
    ensures
        d.on_min_ts(min_ts_hint).0.locks.resolver.resolved_ts < start_ts,
        d.locks.resolver.watermark(min_ts_hint) < start_ts,
        forall|i: int|
            0 <= i < d.on_min_ts(min_ts_hint).1.len() ==> (#[trigger] d.on_min_ts(
                min_ts_hint,
            ).1[i]).body == BodyModel::ResolvedTs(d.locks.resolver.watermark(min_ts_hint)),
{
    crate::cdc::locks::law_known_locks_hold_the_watermark(d.locks, (key, start_ts), min_ts_hint);
    lemma_resolved_ts_bodies(d.downstreams, d.locks.resolver.watermark(min_ts_hint));
}


/// The subscriptions that did not come in on connection `conn_id`, in order.
pub open spec fn without_conn(ds: Seq<DownstreamModel>, conn_id: u64) -> Seq<DownstreamModel>
    decreases ds.len(),
{
    if ds.len() == 0 {
        Seq::empty()
    } else if ds.last().conn_id == conn_id {
        without_conn(ds.drop_last(), conn_id)
    } else {
        without_conn(ds.drop_last(), conn_id).push(ds.last())
    }
}

/// What is left without a connection is part of what was there, in the same order.
pub proof fn lemma_without_conn(ds: Seq<DownstreamModel>, conn_id: u64)
    ensures
        without_conn(ds, conn_id).len() <= ds.len(),
        forall|i: int|
            0 <= i < without_conn(ds, conn_id).len() ==> (#[trigger] without_conn(
                ds,
                conn_id,
            )[i]).conn_id != conn_id && exists|j: int|
                i <= j < ds.len() && ds[j] == without_conn(ds, conn_id)[i],
        distinct_tags(ds) ==> distinct_tags(without_conn(ds, conn_id)),
        forall|j: int|
            0 <= j < ds.len() && ds[j].conn_id != conn_id ==> exists|i: int|
                0 <= i < without_conn(ds, conn_id).len() && without_conn(ds, conn_id)[i]
                    == #[trigger] ds[j],
    decreases ds.len(),
{
    if ds.len() > 0 {
        let head = ds.drop_last();
        let last = ds.last();
        lemma_without_conn(head, conn_id);
        let kept = without_conn(head, conn_id);
        let now = without_conn(ds, conn_id);
        assert forall|i: int| 0 <= i < now.len() implies (#[trigger] now[i]).conn_id != conn_id
            && exists|j: int| i <= j < ds.len() && ds[j] == now[i] by {
            if i < kept.len() {
                let j = choose|j: int| i <= j < head.len() && head[j] == kept[i];
                assert(ds[j] == now[i]);
            } else {
                assert(ds[ds.len() - 1] == now[i]);
            }
        }
        if distinct_tags(ds) {
            assert(distinct_tags(head)) by {
                assert forall|i: int, j: int| 0 <= i < j < head.len() implies !(head[i].conn_id
                    == head[j].conn_id && head[i].request_id == head[j].request_id) by {
                    assert(head[i] == ds[i] && head[j] == ds[j]);
                }
            }
            assert forall|a: int, b: int| 0 <= a < b < now.len() implies !(now[a].conn_id
                == now[b].conn_id && now[a].request_id == now[b].request_id) by {
                if b == kept.len() {
                    let j = choose|j: int| a <= j < head.len() && head[j] == kept[a];
                    assert(head[j] == ds[j]);
                    assert(ds[ds.len() - 1] == last);
                }
            }
        }
        assert forall|j: int| 0 <= j < ds.len() && ds[j].conn_id != conn_id implies exists|i: int|
            0 <= i < now.len() && now[i] == #[trigger] ds[j] by {
            if j < head.len() {
                assert(head[j] == ds[j]);
                let i = choose|i: int| 0 <= i < kept.len() && kept[i] == head[j];
                assert(now[i] == ds[j]);
            } else {
                assert(now[now.len() - 1] == ds[j]);
            }
        }
    }
}

impl DelegateModel {
    /// A connection closed: every subscription that came in on it is
    /// dropped, and no other subscription changes.
    pub open spec fn disconnect(self, conn_id: u64) -> DelegateModel {
        let downstreams = without_conn(self.downstreams, conn_id);
        DelegateModel { downstreams, locks: self.locks.settle(scanning(downstreams) > 0), ..self }
    }
}

/// Without a connection a delegate is still well formed.
pub proof fn lemma_disconnect_wf(d: DelegateModel, conn_id: u64)
    requires
        d.wf(),
    ensures
        d.disconnect(conn_id).wf(),
        d.disconnect(conn_id).region_id == d.region_id,
{
    lemma_without_conn(d.downstreams, conn_id);
    let kept = without_conn(d.downstreams, conn_id);
    assert(distinct_tags(d.downstreams));
    assert forall|i: int| 0 <= i < kept.len() implies kept[i].region_id == d.region_id
        && !kept[i].closed by {
        let j = choose|j: int| i <= j < d.downstreams.len() && d.downstreams[j] == kept[i];
        assert(d.downstreams[j].region_id == d.region_id);
    }
    assert(distinct_tags(kept));
}

impl Delegate {
    /// Drops every subscription that came in on connection `conn_id`, as
    /// when the connection closes. Nothing is sent. Returns how many
    /// subscriptions were dropped.
    pub fn disconnect(&mut self, conn_id: u64) -> (dropped: usize)
        requires
            old(self).wf(),
        ensures
            final(self).wf(),
            final(self)@ == old(self)@.disconnect(conn_id),
            dropped == old(self)@.downstreams.len() - final(self)@.downstreams.len(),
    {
        let ghost before = self@;
        let ghost ds = self@.downstreams;
        let mut dropped: usize = 0;
        let mut i: usize = 0;
        proof {
            assert(ds.take(0) =~= Seq::<DownstreamModel>::empty());
            assert(ds.skip(0) =~= ds);
            assert(ds.len() == self.downstreams.len());
            assert(self@.downstreams =~= without_conn(ds.take(0), conn_id) + ds.skip(0));
        }
        while i < self.downstreams.len()
            invariant
                i <= self.downstreams.len(),
                i + dropped <= ds.len(),
                ds.len() <= usize::MAX,
                i == without_conn(ds.take(i + dropped), conn_id).len(),
                self@.downstreams == without_conn(ds.take(i + dropped), conn_id) + ds.skip(
                    i + dropped,
                ),
                forall|j: int|
                    0 <= j < self.downstreams@.len() ==> (#[trigger] self.downstreams@[j]).wf(),
                self.locks == old(self).locks,
                self.region_id == old(self).region_id,
                self.epoch == old(self).epoch,
                self.stopped == old(self).stopped,
            decreases self.downstreams.len() - i,
        {
            let ghost p = (i + dropped) as int;
            let ghost kept = without_conn(ds.take(p), conn_id);
            let ghost shown_models = self@.downstreams;
            proof {
                assert(self@.downstreams.len() == kept.len() + ds.skip(p).len());
                assert(p < ds.len());
                assert(self@.downstreams[i as int] == ds.skip(p)[0]);
                assert(ds.take(p + 1).drop_last() =~= ds.take(p));
                assert(ds.take(p + 1).last() == ds[p]);
            }
            if self.downstreams[i].conn_id() == conn_id {
                let ghost shown = self.downstreams@;
                self.downstreams.remove(i);
                dropped += 1;
                proof {
                    assert(self@.downstreams =~= shown_models.remove(i as int));
                    assert(shown_models.remove(i as int) =~= kept + ds.skip(p + 1));
                    assert forall|j: int| 0 <= j < self.downstreams@.len() implies (
                    #[trigger] self.downstreams@[j]).wf() by {
                        let j0 = if j < i {
                            j
                        } else {
                            j + 1
                        };
                        assert(self.downstreams@[j] == shown[j0]);
                    }
                }
            } else {
                proof {
                    assert(self@.downstreams =~= kept.push(ds[p]) + ds.skip(p + 1));
                }
                i += 1;
            }
        }
        proof {
            let p = (i + dropped) as int;
            assert(p == ds.len()) by {
                assert(self@.downstreams.len() == i + ds.skip(p).len());
            }
            assert(ds.take(p) =~= ds);
            assert(self@.downstreams =~= without_conn(ds, conn_id));
        }
        let scanning = self.pending_scans() > 0;
        self.locks.settle(scanning);
        proof {
            self.locks.lemma_wf();
            lemma_disconnect_wf(before, conn_id);
        }
        dropped
    }
}


/// A delegate stays well formed: whatever it is asked to do, a well-formed
/// delegate is well formed afterwards, and serves the same region.
pub proof fn law_a_delegate_stays_well_formed(d: DelegateModel)
    requires
        d.wf(),
    ensures
        forall|conn_id: u64, request_id: u64, checkpoint_ts: u64, epoch: Epoch| #[trigger]
            d.register(conn_id, request_id, checkpoint_ts, epoch).wf(),
        forall|conn_id: u64, request_id: u64| #[trigger] d.deregister(conn_id, request_id).wf(),
        forall|conn_id: u64| #[trigger] d.disconnect(conn_id).wf(),
        forall|error: RegionError| #[trigger] d.stop(error).0.wf(),
        forall|epoch: Epoch| #[trigger] d.reload(epoch).0.wf(),
        forall|epoch: Epoch, entries: Seq<LogEntryModel>| #[trigger]
            d.on_change_log(epoch, entries).0.wf(),
        forall|conn_id: u64, request_id: u64, epoch: Epoch, step: ScanStepModel| #[trigger]
            d.on_scan(conn_id, request_id, epoch, step).0.wf(),
        forall|min_ts_hint: u64| #[trigger] d.on_min_ts(min_ts_hint).0.wf(),
{
    crate::cdc::locks::lemma_counted(d.locks);
    assert forall|conn_id: u64, request_id: u64, checkpoint_ts: u64, epoch: Epoch| #[trigger]
        d.register(conn_id, request_id, checkpoint_ts, epoch).wf() by {
        let r = d.register(conn_id, request_id, checkpoint_ts, epoch);
        if d.refusal(conn_id, request_id, epoch) is None {
            assert forall|i: int, j: int| 0 <= i < j < r.downstreams.len() implies !(
            r.downstreams[i].conn_id == r.downstreams[j].conn_id && r.downstreams[i].request_id
                == r.downstreams[j].request_id) by {
                if j == d.downstreams.len() {
                    assert(!d.is_at(i, conn_id, request_id));
                }
            }
        }
    }
    assert forall|conn_id: u64, request_id: u64| #[trigger]
        d.deregister(conn_id, request_id).wf() by {
        if d.subscribed(conn_id, request_id) {
            let k = d.slot(conn_id, request_id);
            assert(d.is_at(k, conn_id, request_id));
            let r = d.deregister(conn_id, request_id);
            assert forall|i: int| 0 <= i < r.downstreams.len() implies r.downstreams[i].region_id
                == r.region_id && !r.downstreams[i].closed by {
                let i0 = if i < k {
                    i
                } else {
                    i + 1
                };
                assert(r.downstreams[i] == d.downstreams[i0]);
            }
            assert forall|i: int, j: int| 0 <= i < j < r.downstreams.len() implies !(
            r.downstreams[i].conn_id == r.downstreams[j].conn_id && r.downstreams[i].request_id
                == r.downstreams[j].request_id) by {
                let i0 = if i < k {
                    i
                } else {
                    i + 1
                };
                let j0 = if j < k {
                    j
                } else {
                    j + 1
                };
                assert(r.downstreams[i] == d.downstreams[i0]);
                assert(r.downstreams[j] == d.downstreams[j0]);
            }
        }
    }
    assert forall|conn_id: u64| #[trigger] d.disconnect(conn_id).wf() by {
        lemma_disconnect_wf(d, conn_id);
    }
    assert forall|epoch: Epoch, entries: Seq<LogEntryModel>| #[trigger]
        d.on_change_log(epoch, entries).0.wf() by {
        let r = d.on_change_log(epoch, entries).0;
        if !d.stopped && epoch == d.epoch {
            crate::cdc::locks::lemma_change_log_counted(d.locks, entries, d.pending_scans() > 0);
            assert forall|i: int| 0 <= i < r.downstreams.len() implies r.downstreams[i].region_id
                == r.region_id && !r.downstreams[i].closed by {
                lemma_on_change_log(d.downstreams[i], entries);
            }
            assert forall|i: int, j: int| 0 <= i < j < r.downstreams.len() implies !(
            r.downstreams[i].conn_id == r.downstreams[j].conn_id && r.downstreams[i].request_id
                == r.downstreams[j].request_id) by {
                lemma_on_change_log(d.downstreams[i], entries);
                lemma_on_change_log(d.downstreams[j], entries);
            }
        }
    }
    assert forall|conn_id: u64, request_id: u64, epoch: Epoch, step: ScanStepModel| #[trigger]
        d.on_scan(conn_id, request_id, epoch, step).0.wf() by {
        let r = d.on_scan(conn_id, request_id, epoch, step).0;
        if epoch == d.epoch && d.subscribed(conn_id, request_id) {
            let k = d.slot(conn_id, request_id);
            assert(d.is_at(k, conn_id, request_id));
            let s = d.downstreams[k];
            let next = s.on_scan(step).0;
            crate::cdc::downstream::lemma_on_scan(s, step);
            if !s.initialized {
                crate::cdc::locks::lemma_scan_rows_counted(d.locks, step_rows(step));
                crate::cdc::locks::lemma_counted(d.locks.on_scan_rows(step_rows(step)));
            }
            assert forall|i: int| 0 <= i < r.downstreams.len() implies r.downstreams[i].region_id
                == r.region_id && !r.downstreams[i].closed by {
                if next.closed {
                    let i0 = if i < k {
                        i
                    } else {
                        i + 1
                    };
                    assert(r.downstreams[i] == d.downstreams[i0]);
                } else if i != k {
                    assert(r.downstreams[i] == d.downstreams[i]);
                }
            }
            assert forall|i: int, j: int| 0 <= i < j < r.downstreams.len() implies !(
            r.downstreams[i].conn_id == r.downstreams[j].conn_id && r.downstreams[i].request_id
                == r.downstreams[j].request_id) by {
                if next.closed {
                    let i0 = if i < k {
                        i
                    } else {
                        i + 1
                    };
                    let j0 = if j < k {
                        j
                    } else {
                        j + 1
                    };
                    assert(r.downstreams[i] == d.downstreams[i0]);
                    assert(r.downstreams[j] == d.downstreams[j0]);
                } else {
                    assert(r.downstreams[i].conn_id == d.downstreams[i].conn_id
                        && r.downstreams[i].request_id == d.downstreams[i].request_id);
                    assert(r.downstreams[j].conn_id == d.downstreams[j].conn_id
                        && r.downstreams[j].request_id == d.downstreams[j].request_id);
                }
            }
        }
    }
}

} // verus!
