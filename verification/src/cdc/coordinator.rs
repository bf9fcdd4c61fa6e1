//! Coordinator: the node-wide owner of every region's delegate and of the
//! old-value cache. It takes one task at a time from its queue, routes it to
//! the delegate of the region that the task names, and hands back the
//! messages to send and the scans to start. A task for one region leaves
//! every other region's delegate as it was.

use crate::cdc::bytes::clone_bytes;
use crate::cdc::delegate::{Delegate, DelegateModel, RegisterError};
use crate::cdc::downstream::step_len;
use crate::cdc::event::{
    Epoch, LogEntry, LogEntryModel, LogKind, Outbound, OutboundModel, RegionError, ScanRequest,
    entry_models, outbound_models,
};
use crate::cdc::old_value::{CacheModel, OldValueCache, lemma_insert_wf};
use crate::cdc::scanner::{ScanStep, ScanStepModel};
use std::collections::VecDeque;
use vstd::prelude::*;

verus! {

/// What a tick reports besides the watermark messages: the smallest
/// watermark among the regions that have an initialized subscription, and
/// the regions that have none yet.
#[derive(Clone, Debug, PartialEq, Eq)]
pub struct TickReport {
    pub min_resolved_ts: Option<u64>,
    pub stalled: Vec<u64>,
}

/// What a tick report is, mathematically.
pub struct TickModel {
    pub min_resolved_ts: Option<u64>,
    pub stalled: Seq<u64>,
}

impl View for TickReport {
    type V = TickModel;

    open spec fn view(&self) -> TickModel {
        TickModel { min_resolved_ts: self.min_resolved_ts, stalled: self.stalled@ }
    }
}

/// A question about the coordinator's state. Asking changes nothing.
#[derive(Clone, Copy, Debug, PartialEq, Eq, Structural)]
pub enum Probe {
    /// How many updates has the old-value cache seen?
    OldValueCache,
    /// How many regions have no initialized subscription yet?
    UnresolvedRegions,
    /// How many scans are outstanding in this region?
    PendingScans(u64),
}

/// Every delegate after the tick.
pub open spec fn after_tick(ds: Seq<DelegateModel>, min_ts: u64) -> Seq<DelegateModel> {
    Seq::new(ds.len(), |i: int| ds[i].on_min_ts(min_ts).0)
}

/// The watermark messages of a tick, region by region.
pub open spec fn sent_by_tick(ds: Seq<DelegateModel>, min_ts: u64) -> Seq<OutboundModel>
    decreases ds.len(),
{
    if ds.len() == 0 {
        Seq::empty()
    } else {
        sent_by_tick(ds.drop_last(), min_ts) + ds.last().on_min_ts(min_ts).1
    }
}

/// The smallest watermark among the regions with an initialized subscription.
pub open spec fn min_ready(ds: Seq<DelegateModel>) -> Option<u64>
    decreases ds.len(),
{
    if ds.len() == 0 {
        None
    } else if !ds.last().ready() {
        min_ready(ds.drop_last())
    } else {
        match min_ready(ds.drop_last()) {
            Some(m) if m <= ds.last().locks.resolver.resolved_ts => Some(m),
            _ => Some(ds.last().locks.resolver.resolved_ts),
        }
    }
}

/// The regions without an initialized subscription, in registry order.
pub open spec fn stalled(ds: Seq<DelegateModel>) -> Seq<u64>
    decreases ds.len(),
{
    if ds.len() == 0 {
        Seq::empty()
    } else if ds.last().ready() {
        stalled(ds.drop_last())
    } else {
        stalled(ds.drop_last()).push(ds.last().region_id)
    }
}

/// The cache after the pre-images of a change log were filed: one update
/// for each prewrite, under its key and start timestamp.
pub open spec fn cache_after(cache: CacheModel, entries: Seq<LogEntryModel>) -> CacheModel
    decreases entries.len(),
{
    if entries.len() == 0 {
        cache
    } else {
        let before = cache_after(cache, entries.drop_last());
        match entries.last().kind {
            LogKind::Prewrite => before.insert(
                entries.last().key,
                entries.last().start_ts,
                entries.last().old_value,
            ),
            _ => before,
        }
    }
}

/// How many prewrites a change log holds.
pub open spec fn prewrites(entries: Seq<LogEntryModel>) -> nat
    decreases entries.len(),
{
    if entries.len() == 0 {
        0
    } else if entries.last().kind == LogKind::Prewrite {
        prewrites(entries.drop_last()) + 1
    } else {
        prewrites(entries.drop_last())
    }
}

/// Filing the pre-images of a change log keeps the cache well formed and
/// counts one update for each prewrite.
pub proof fn lemma_cache_after(cache: CacheModel, entries: Seq<LogEntryModel>)
    requires
        cache.wf(),
    ensures
        cache_after(cache, entries).wf(),
        cache_after(cache, entries).update_count == cache.update_count + prewrites(entries),
        cache_after(cache, entries).capacity == cache.capacity,
        prewrites(entries) <= entries.len(),
    decreases entries.len(),
{
    if entries.len() > 0 {
        lemma_cache_after(cache, entries.drop_last());
        let before = cache_after(cache, entries.drop_last());
        lemma_insert_wf(
            before,
            entries.last().key,
            entries.last().start_ts,
            entries.last().old_value,
        );
    }
}

/// What a coordinator is, mathematically.
pub struct CoordinatorModel {
    /// The delegates, in the order in which their regions were first subscribed to.
    pub delegates: Seq<DelegateModel>,
    pub cache: CacheModel,
    /// Whether the target of a merge is reloaded under its new epoch, or
    /// stopped so that subscribers must subscribe again.
    pub reload_on_merge: bool,
}

impl CoordinatorModel {
    /// A coordinator without subscriptions, with an empty cache.
    pub open spec fn start(cache_capacity: nat, reload_on_merge: bool) -> CoordinatorModel {
        CoordinatorModel {
            delegates: Seq::empty(),
            cache: CacheModel::empty(cache_capacity),
            reload_on_merge,
        }
    }

    /// Delegate `i` is the one of `region_id`.
    pub open spec fn is_at(self, i: int, region_id: u64) -> bool {
        0 <= i < self.delegates.len() && self.delegates[i].region_id == region_id
    }

    /// The region has a delegate, that is, at least one subscription.
    pub open spec fn holds(self, region_id: u64) -> bool {
        exists|i: int| self.is_at(i, region_id)
    }

    /// Where the region's delegate stands; meaningful when it has one.
    pub open spec fn slot(self, region_id: u64) -> int {
        choose|i: int| self.is_at(i, region_id)
    }

    /// The region's delegate; meaningful when it has one.
    pub open spec fn delegate(self, region_id: u64) -> DelegateModel {
        self.delegates[self.slot(region_id)]
    }

    /// Every delegate is well formed, running and subscribed to, no region
    /// has two delegates, and the cache is well formed.
    pub open spec fn wf(self) -> bool {
        &&& forall|i: int|
            0 <= i < self.delegates.len() ==> (#[trigger] self.delegates[i]).wf()
                && !self.delegates[i].stopped && self.delegates[i].downstreams.len() > 0
        &&& forall|i: int, j: int|
            0 <= i < j < self.delegates.len() ==> self.delegates[i].region_id
                != self.delegates[j].region_id
        &&& self.cache.wf()
    }

    /// The registry after delegate `i` became `d`: a delegate that stopped or
    /// lost its last subscription is dropped.
    pub open spec fn keep(self, i: int, d: DelegateModel) -> Seq<DelegateModel> {
        if d.stopped || d.downstreams.len() == 0 {
            self.delegates.remove(i)
        } else {
            self.delegates.update(i, d)
        }
    }

    /// The coordinator with a new registry. When no delegate is left nobody
    /// looks pre-images up any more, and the cache drops its entries.
    pub open spec fn with_delegates(self, delegates: Seq<DelegateModel>) -> CoordinatorModel {
        CoordinatorModel {
            delegates,
            cache: if delegates.len() == 0 {
                self.cache.clear()
            } else {
                self.cache
            },
            ..self
        }
    }

    /// The scan that a registration asks for.
    pub open spec fn scan_for(
        region_id: u64,
        epoch: Epoch,
        conn_id: u64,
        request_id: u64,
        checkpoint_ts: u64,
    ) -> ScanRequest {
        ScanRequest { region_id, epoch, conn_id, request_id, checkpoint_ts }
    }

    /// Whether a registration is turned down, and why. A region without a
    /// delegate turns nothing down.
    pub open spec fn refusal(self, region_id: u64, epoch: Epoch, conn_id: u64, request_id: u64)
        -> Option<RegisterError> {
        if self.holds(region_id) {
            self.delegate(region_id).refusal(conn_id, request_id, epoch)
        } else {
            None
        }
    }

    /// A registration. The first one for a region makes the region's
    /// delegate, at the epoch that the request names. A refused one changes nothing.
    pub open spec fn register(
        self,
        region_id: u64,
        epoch: Epoch,
        conn_id: u64,
        request_id: u64,
        checkpoint_ts: u64,
    ) -> CoordinatorModel {
        if self.holds(region_id) {
            let i = self.slot(region_id);
            CoordinatorModel {
                delegates: self.delegates.update(
                    i,
                    self.delegates[i].register(conn_id, request_id, checkpoint_ts, epoch),
                ),
                ..self
            }
        } else {
            CoordinatorModel {
                delegates: self.delegates.push(
                    DelegateModel::start(region_id, epoch).register(
                        conn_id,
                        request_id,
                        checkpoint_ts,
                        epoch,
                    ),
                ),
                ..self
            }
        }
    }

    /// A subscriber went away, or its subscription is removed by force.
    pub open spec fn deregister(self, region_id: u64, conn_id: u64, request_id: u64)
        -> CoordinatorModel {
        if self.holds(region_id) {
            let i = self.slot(region_id);
            self.with_delegates(self.keep(i, self.delegates[i].deregister(conn_id, request_id)))
        } else {
            self
        }
    }

    /// A region-wide error: every subscription of the region is sent it, and
    /// the region's delegate is dropped. No other region is touched.
    pub open spec fn stop_region(self, region_id: u64, error: RegionError) -> (
        CoordinatorModel,
        Seq<OutboundModel>,
    ) {
        if self.holds(region_id) {
            let i = self.slot(region_id);
            (
                self.with_delegates(self.delegates.remove(i)),
                self.delegates[i].stop(error).1,
            )
        } else {
            (self, Seq::empty())
        }
    }

    /// One step of the scan that `scan` asked for.
    pub open spec fn on_scan(self, scan: ScanRequest, step: ScanStepModel) -> (
        CoordinatorModel,
        Seq<OutboundModel>,
    ) {
        if self.holds(scan.region_id) {
            let i = self.slot(scan.region_id);
            let next = self.delegates[i].on_scan(scan.conn_id, scan.request_id, scan.epoch, step);
            (self.with_delegates(self.keep(i, next.0)), next.1)
        } else {
            (self, Seq::empty())
        }
    }

    /// Committed entries of a region. Without a delegate for the region
    /// nothing happens: nothing is sent and the cache is not touched. With
    /// one, the delegate takes the entries, and if they came under the
    /// delegate's epoch the cache files the pre-image of each prewrite.
    pub open spec fn on_change_log(self, region_id: u64, epoch: Epoch, entries: Seq<LogEntryModel>)
        -> (CoordinatorModel, Seq<OutboundModel>) {
        if self.holds(region_id) {
            let i = self.slot(region_id);
            let next = self.delegates[i].on_change_log(epoch, entries);
            let filed = CoordinatorModel {
                cache: if epoch == self.delegates[i].epoch {
                    cache_after(self.cache, entries)
                } else {
                    self.cache
                },
                ..self
            };
            (filed.with_delegates(self.keep(i, next.0)), next.1)
        } else {
            (self, Seq::empty())
        }
    }

    /// The periodic tick: every delegate computes its watermark and sends it
    /// to its initialized subscriptions.
    pub open spec fn on_min_ts(self, min_ts: u64) -> (CoordinatorModel, Seq<OutboundModel>) {
        (
            CoordinatorModel { delegates: after_tick(self.delegates, min_ts), ..self },
            sent_by_tick(self.delegates, min_ts),
        )
    }

    /// What the tick reports.
    pub open spec fn tick_report(self, min_ts: u64) -> TickModel {
        TickModel {
            min_resolved_ts: min_ready(after_tick(self.delegates, min_ts)),
            stalled: stalled(after_tick(self.delegates, min_ts)),
        }
    }

    /// A region goes on under a new epoch. With the reload option its
    /// delegate is reloaded: no subscription is lost, and a scan is owed to
    /// each. Without it every subscription of the region is sent
    /// `EpochNotMatch` and must subscribe again.
    pub open spec fn on_epoch_change(self, region_id: u64, epoch: Epoch) -> (
        CoordinatorModel,
        Seq<OutboundModel>,
        Seq<ScanRequest>,
    ) {
        if !self.holds(region_id) {
            (self, Seq::empty(), Seq::empty())
        } else if self.reload_on_merge {
            let i = self.slot(region_id);
            let next = self.delegates[i].reload(epoch);
            (
                CoordinatorModel { delegates: self.delegates.update(i, next.0), ..self },
                Seq::empty(),
                next.1,
            )
        } else {
            let stopped = self.stop_region(region_id, RegionError::EpochNotMatch);
            (stopped.0, stopped.1, Seq::empty())
        }
    }

    /// A merge: the source region is gone, so its subscriptions are sent
    /// `RegionNotFound`; the target region goes on under a new epoch.
    pub open spec fn on_region_merge(self, source: u64, target: u64, target_epoch: Epoch) -> (
        CoordinatorModel,
        Seq<OutboundModel>,
        Seq<ScanRequest>,
    ) {
        let first = self.stop_region(source, RegionError::RegionNotFound);
        let second = first.0.on_epoch_change(target, target_epoch);
        (second.0, first.1 + second.1, second.2)
    }

    /// The answer to a probe.
    pub open spec fn validate(self, probe: Probe) -> nat {
        match probe {
            Probe::OldValueCache => self.cache.update_count,
            Probe::UnresolvedRegions => stalled(self.delegates).len(),
            Probe::PendingScans(region_id) => if self.holds(region_id) {
                self.delegate(region_id).pending_scans()
            } else {
                0
            },
        }
    }

    /// Whether the counters have room for a change log of `n` entries.
    pub open spec fn can_log(self, region_id: u64, n: nat) -> bool {
        &&& self.holds(region_id) ==> self.delegate(region_id).room(n + 1)
        &&& self.cache.update_count + n <= usize::MAX
    }

    /// Whether every subscription of the region has room for one more message.
    pub open spec fn can_stop(self, region_id: u64) -> bool {
        self.holds(region_id) ==> self.delegate(region_id).room(1)
    }

    /// Whether every subscription has room for one more message.
    pub open spec fn can_tick(self) -> bool {
        forall|i: int| 0 <= i < self.delegates.len() ==> (#[trigger] self.delegates[i]).room(1)
    }

    /// Whether the subscription has room for the messages of a scan step of `n` records.
    pub open spec fn can_scan(self, scan: ScanRequest, n: nat) -> bool {
        self.holds(scan.region_id) ==> self.delegate(scan.region_id).can_scan(
            scan.conn_id,
            scan.request_id,
            n,
        )
    }
}

/// The worker that takes every task of a region, so that the tasks of one
/// region are handled in the order in which they were submitted.
pub open spec fn worker_of(region_id: u64, workers: nat) -> nat
    recommends
        workers > 0,
{
    (region_id as nat) % workers
}

/// Routes a region to one of `workers` workers. The choice depends on the
/// region alone, so no two workers ever handle the same region.
pub fn route(region_id: u64, workers: usize) -> (w: usize)
    requires
        workers > 0,
    ensures
        w == worker_of(region_id, workers as nat),
        w < workers,
{
    (region_id % (workers as u64)) as usize
}

/// The node-wide coordinator.
pub struct Coordinator {
    delegates: Vec<Delegate>,
    cache: OldValueCache,
    reload_on_merge: bool,
}

impl View for Coordinator {
    type V = CoordinatorModel;

    closed spec fn view(&self) -> CoordinatorModel {
        CoordinatorModel {
            delegates: self.delegates@.map_values(|d: Delegate| d@),
            cache: self.cache@,
            reload_on_merge: self.reload_on_merge,
        }
    }
}

impl Coordinator {
    /// The representation is sound and the model is well formed.
    pub closed spec fn wf(&self) -> bool {
        &&& self@.wf()
        &&& forall|i: int| 0 <= i < self.delegates@.len() ==> self.delegates@[i].wf()
    }

    /// A coordinator without subscriptions, whose old-value cache keeps at
    /// most `cache_capacity` entries.
    pub fn new(cache_capacity: usize, reload_on_merge: bool) -> (c: Coordinator)
        ensures
            c.wf(),
            c@ == CoordinatorModel::start(cache_capacity as nat, reload_on_merge),
    {
        let c = Coordinator {
            delegates: Vec::new(),
            cache: OldValueCache::new(cache_capacity),
            reload_on_merge,
        };
        assert(c@.delegates =~= Seq::empty());
        c
    }

    /// How many regions have a delegate.
    pub fn region_count(&self) -> (n: usize)
        ensures
            n == self@.delegates.len(),
    {
        self.delegates.len()
    }

    fn find(&self, region_id: u64) -> (at: Option<usize>)
        requires
            self.wf(),
        ensures
            at is Some <==> self@.holds(region_id),
            at matches Some(i) ==> self@.is_at(i as int, region_id) && self@.slot(region_id) == i,
    {
        let mut i: usize = 0;
        while i < self.delegates.len()
            invariant
                i <= self.delegates.len(),
                self.wf(),
                forall|j: int| 0 <= j < i ==> !self@.is_at(j, region_id),
            decreases self.delegates.len() - i,
        {
            if self.delegates[i].region_id() == region_id {
                proof {
                    assert(self@.is_at(i as int, region_id));
                    let c = self@.slot(region_id);
                    assert(self@.is_at(c, region_id));
                }
                return Some(i);
            }
            i += 1;
        }
        None
    }

    /// Drops delegate `i` if it stopped or lost its last subscription, and
    /// clears the cache when no delegate is left.
    fn settle(&mut self, i: usize, Ghost(before): Ghost<CoordinatorModel>)
        requires
            i < old(self).delegates@.len(),
            before.wf(),
            before.delegates.len() == old(self).delegates@.len(),
            old(self).cache@.wf(),
            old(self).reload_on_merge == before.reload_on_merge,
            forall|j: int| 0 <= j < old(self).delegates@.len() ==> old(self).delegates@[j].wf(),
            forall|j: int|
                0 <= j < old(self).delegates@.len() && j != i ==> old(self).delegates@[j]@
                    == before.delegates[j],
            old(self).delegates@[i as int]@.region_id == before.delegates[i as int].region_id,
        ensures
            final(self).wf(),
            final(self)@ == (CoordinatorModel { cache: old(self).cache@, ..before }).with_delegates(
                before.keep(i as int, old(self).delegates@[i as int]@),
            ),
    {
        let ghost d = self.delegates@[i as int]@;
        proof {
            self.delegates@[i as int].lemma_wf();
        }
        if self.delegates[i].downstream_count() == 0 || self.delegates[i].state()
            == crate::cdc::delegate::DelegateState::Stopped {
            self.delegates.remove(i);
            assert(self@.delegates =~= before.delegates.remove(i as int));
        } else {
            assert(self@.delegates =~= before.delegates.update(i as int, d));
        }
        if self.delegates.len() == 0 {
            self.cache.clear();
        }
    }

    /// Registers a subscription. On success the caller is to start the scan
    /// that is returned. A refused registration changes nothing.
    pub fn register(
        &mut self,
        region_id: u64,
        epoch: Epoch,
        conn_id: u64,
        request_id: u64,
        checkpoint_ts: u64,
    ) -> (r: Result<ScanRequest, RegisterError>)
        requires
            old(self).wf(),
        ensures
            final(self).wf(),
            match r {
                Ok(scan) => old(self)@.refusal(region_id, epoch, conn_id, request_id) is None
                    && scan == CoordinatorModel::scan_for(
                    region_id,
                    epoch,
                    conn_id,
                    request_id,
                    checkpoint_ts,
                ),
                Err(e) => old(self)@.refusal(region_id, epoch, conn_id, request_id) == Some(e),
            },
            final(self)@ == old(self)@.register(
                region_id,
                epoch,
                conn_id,
                request_id,
                checkpoint_ts,
            ),
    {
        let ghost before = self@;
        let scan = ScanRequest { region_id, epoch, conn_id, request_id, checkpoint_ts };
        match self.find(region_id) {
            Some(i) => {
                let r = self.delegates[i].register(conn_id, request_id, checkpoint_ts, epoch);
                proof {
                    self.delegates@[i as int].lemma_wf();
                    assert(self@.delegates =~= before.delegates.update(
                        i as int,
                        before.delegates[i as int].register(
                            conn_id,
                            request_id,
                            checkpoint_ts,
                            epoch,
                        ),
                    ));
                }
                match r {
                    Ok(()) => Ok(scan),
                    Err(e) => Err(e),
                }
            },
            None => {
                let mut d = Delegate::new(region_id, epoch);
                proof {
                    assert(!DelegateModel::start(region_id, epoch).subscribed(conn_id, request_id));
                }
                let _ = d.register(conn_id, request_id, checkpoint_ts, epoch);
                proof {
                    d.lemma_wf();
                }
                self.delegates.push(d);
                proof {
                    assert(self@.delegates =~= before.delegates.push(d@));
                    assert forall|a: int, b: int| 0 <= a < b < self@.delegates.len() implies self@.delegates[a].region_id
                        != self@.delegates[b].region_id by {
                        if b == before.delegates.len() {
                            assert(!before.is_at(a, region_id));
                        }
                    }
                }
                Ok(scan)
            },
        }
    }

    /// Drops one subscription, as when the subscriber disconnects or an
    /// operator removes it. Nothing is sent. Returns whether it existed.
    pub fn deregister(&mut self, region_id: u64, conn_id: u64, request_id: u64) -> (found: bool)
        requires
            old(self).wf(),
        ensures
            final(self).wf(),
            found == (old(self)@.holds(region_id) && old(self)@.delegate(region_id).subscribed(
                conn_id,
                request_id,
            )),
            final(self)@ == old(self)@.deregister(region_id, conn_id, request_id),
    {
        let ghost before = self@;
        match self.find(region_id) {
            Some(i) => {
                let found = self.delegates[i].deregister(conn_id, request_id);
                self.settle(i, Ghost(before));
                found
            },
            None => false,
        }
    }

    /// Sends `error` to every subscription of the region and drops the
    /// region's delegate.
    pub fn stop_region(&mut self, region_id: u64, error: RegionError, out: &mut Vec<Outbound>)
        requires
            old(self).wf(),
            old(self)@.can_stop(region_id),
        ensures
            final(self).wf(),
            final(self)@ == old(self)@.stop_region(region_id, error).0,
            outbound_models(final(out)@) == outbound_models(old(out)@) + old(self)@.stop_region(
                region_id,
                error,
            ).1,
    {
        let ghost before = self@;
        match self.find(region_id) {
            Some(i) => {
                self.delegates[i].stop(error, out);
                self.settle(i, Ghost(before));
            },
            None => {
                assert(outbound_models(out@) + Seq::<OutboundModel>::empty() =~= outbound_models(
                    out@,
                ));
            },
        }
    }

    /// The region split: its epoch is stale, and every subscription of it is
    /// sent `EpochNotMatch`.
    pub fn on_region_split(&mut self, region_id: u64, out: &mut Vec<Outbound>)
        requires
            old(self).wf(),
            old(self)@.can_stop(region_id),
        ensures
            final(self).wf(),
            final(self)@ == old(self)@.stop_region(region_id, RegionError::EpochNotMatch).0,
            outbound_models(final(out)@) == outbound_models(old(out)@) + old(self)@.stop_region(
                region_id,
                RegionError::EpochNotMatch,
            ).1,
    {
        self.stop_region(region_id, RegionError::EpochNotMatch, out);
    }

    /// The region was destroyed: every subscription of it is sent `RegionNotFound`.
    pub fn on_region_destroy(&mut self, region_id: u64, out: &mut Vec<Outbound>)
        requires
            old(self).wf(),
            old(self)@.can_stop(region_id),
        ensures
            final(self).wf(),
            final(self)@ == old(self)@.stop_region(region_id, RegionError::RegionNotFound).0,
            outbound_models(final(out)@) == outbound_models(old(out)@) + old(self)@.stop_region(
                region_id,
                RegionError::RegionNotFound,
            ).1,
    {
        self.stop_region(region_id, RegionError::RegionNotFound, out);
    }

    /// The region's leader moved away: every subscription of it is sent `NotLeader`.
    pub fn on_leader_change(&mut self, region_id: u64, out: &mut Vec<Outbound>)
        requires
            old(self).wf(),
            old(self)@.can_stop(region_id),
        ensures
            final(self).wf(),
            final(self)@ == old(self)@.stop_region(region_id, RegionError::NotLeader).0,
            outbound_models(final(out)@) == outbound_models(old(out)@) + old(self)@.stop_region(
                region_id,
                RegionError::NotLeader,
            ).1,
    {
        self.stop_region(region_id, RegionError::NotLeader, out);
    }

    /// Takes one step of the scan that `scan` asked for.
    pub fn on_scan(&mut self, scan: ScanRequest, step: ScanStep, out: &mut Vec<Outbound>)
        requires
            old(self).wf(),
            old(self)@.can_scan(scan, step_len(step@)),
        ensures
            final(self).wf(),
            final(self)@ == old(self)@.on_scan(scan, step@).0,
            outbound_models(final(out)@) == outbound_models(old(out)@) + old(self)@.on_scan(
                scan,
                step@,
            ).1,
    {
        let ghost before = self@;
        match self.find(scan.region_id) {
            Some(i) => {
                self.delegates[i].on_scan(scan.conn_id, scan.request_id, scan.epoch, step, out);
                self.settle(i, Ghost(before));
            },
            None => {
                assert(outbound_models(out@) + Seq::<OutboundModel>::empty() =~= outbound_models(
                    out@,
                ));
            },
        }
    }

    /// Takes the committed entries of a region, observed under `epoch`.
    pub fn on_committed_entries(
        &mut self,
        region_id: u64,
        epoch: Epoch,
        entries: &Vec<LogEntry>,
        out: &mut Vec<Outbound>,
    )
        requires
            old(self).wf(),
            old(self)@.can_log(region_id, entries@.len()),
        ensures
            final(self).wf(),
            final(self)@ == old(self)@.on_change_log(region_id, epoch, entry_models(entries@)).0,
            outbound_models(final(out)@) == outbound_models(old(out)@) + old(
                self,
            )@.on_change_log(region_id, epoch, entry_models(entries@)).1,
    {
        let ghost before = self@;
        let ghost all = entry_models(entries@);
        match self.find(region_id) {
            Some(i) => {
                if epoch == self.delegates[i].epoch() {
                    let mut k: usize = 0;
                    assert(all.take(0) =~= Seq::<LogEntryModel>::empty());
                    while k < entries.len()
                        invariant
                            k <= entries.len(),
                            all == entry_models(entries@),
                            before.cache.wf(),
                            before.cache.update_count + entries@.len() <= usize::MAX,
                            self.cache@ == cache_after(before.cache, all.take(k as int)),
                            self.delegates == old(self).delegates,
                            self.reload_on_merge == old(self).reload_on_merge,
                        decreases entries.len() - k,
                    {
                        proof {
                            lemma_cache_after(before.cache, all.take(k as int));
                            assert(all.take(k + 1).drop_last() =~= all.take(k as int));
                            assert(all.take(k + 1).last() == entries@[k as int]@);
                        }
                        match entries[k].kind {
                            LogKind::Prewrite => {
                                self.cache.insert(
                                    clone_bytes(&entries[k].key),
                                    entries[k].start_ts,
                                    clone_bytes(&entries[k].old_value),
                                );
                            },
                            _ => {},
                        }
                        k += 1;
                    }
                    proof {
                        assert(all.take(k as int) =~= all);
                        lemma_cache_after(before.cache, all);
                    }
                }
                self.delegates[i].on_change_log(epoch, entries, out);
                self.settle(
                    i,
                    Ghost(
                        CoordinatorModel {
                            cache: if epoch == before.delegates[i as int].epoch {
                                cache_after(before.cache, all)
                            } else {
                                before.cache
                            },
                            ..before
                        },
                    ),
                );
            },
            None => {
                assert(outbound_models(out@) + Seq::<OutboundModel>::empty() =~= outbound_models(
                    out@,
                ));
            },
        }
    }

    /// The periodic tick: every region's watermark is computed from
    /// `min_ts` and sent to the region's initialized subscriptions.
    pub fn on_min_ts(&mut self, min_ts: u64, out: &mut Vec<Outbound>) -> (report: TickReport)
        requires
            old(self).wf(),
            old(self)@.can_tick(),
        ensures
            final(self).wf(),
            report@ == old(self)@.tick_report(min_ts),
            final(self)@ == old(self)@.on_min_ts(min_ts).0,
            outbound_models(final(out)@) == outbound_models(old(out)@) + old(self)@.on_min_ts(
                min_ts,
            ).1,
    {
        let ghost ds = self@.delegates;
        let ghost after = after_tick(ds, min_ts);
        let ghost sent = outbound_models(out@);
        let mut min_resolved_ts: Option<u64> = None;
        let mut stalled_regions: Vec<u64> = Vec::new();
        assert(ds.take(0) =~= Seq::<DelegateModel>::empty());
        assert(after.take(0) =~= Seq::<DelegateModel>::empty());
        assert(sent + Seq::<OutboundModel>::empty() =~= sent);
        let mut i: usize = 0;
        while i < self.delegates.len()
            invariant
                i <= self.delegates.len(),
                ds.len() == self.delegates@.len(),
                after == after_tick(ds, min_ts),
                forall|j: int| 0 <= j < i ==> self.delegates@[j]@ == after[j],
                forall|j: int| i <= j < ds.len() ==> self.delegates@[j]@ == ds[j],
                forall|j: int| 0 <= j < ds.len() ==> self.delegates@[j].wf(),
                forall|j: int| 0 <= j < ds.len() ==> (#[trigger] ds[j]).room(1),
                outbound_models(out@) == sent + sent_by_tick(ds.take(i as int), min_ts),
                min_resolved_ts == min_ready(after.take(i as int)),
                stalled_regions@ == stalled(after.take(i as int)),
                self.cache == old(self).cache,
                self.reload_on_merge == old(self).reload_on_merge,
            decreases self.delegates.len() - i,
        {
            proof {
                assert(ds.take(i + 1).drop_last() =~= ds.take(i as int));
                assert(ds.take(i + 1).last() == ds[i as int]);
                assert(after.take(i + 1).drop_last() =~= after.take(i as int));
                assert(after.take(i + 1).last() == after[i as int]);
                assert(ds[i as int].room(1));
            }
            let ts = self.delegates[i].on_min_ts(min_ts, out);
            if self.delegates[i].is_ready() {
                min_resolved_ts =
                match min_resolved_ts {
                    Some(m) => if m <= ts {
                        Some(m)
                    } else {
                        Some(ts)
                    },
                    None => Some(ts),
                };
            } else {
                stalled_regions.push(self.delegates[i].region_id());
            }
            proof {
                let a = sent_by_tick(ds.take(i as int), min_ts);
                let b = ds[i as int].on_min_ts(min_ts).1;
                assert(sent + (a + b) =~= (sent + a) + b);
            }
            i += 1;
        }
        proof {
            assert(ds.take(i as int) =~= ds);
            assert(after.take(i as int) =~= after);
            assert(self@.delegates =~= after);
            assert forall|j: int| 0 <= j < after.len() implies (#[trigger] after[j]).wf()
                && !after[j].stopped && after[j].downstreams.len() > 0 by {
                self.delegates@[j].lemma_wf();
                assert(ds[j].wf());
            }
        }
        TickReport { min_resolved_ts, stalled: stalled_regions }
    }

    /// The region goes on under `epoch`, as after a merge into it or after a
    /// merge of it was rolled back. Returns the scans to start when the
    /// region's delegate is reloaded.
    pub fn on_epoch_change(&mut self, region_id: u64, epoch: Epoch, out: &mut Vec<Outbound>) -> (scans:
        Vec<ScanRequest>)
        requires
            old(self).wf(),
            old(self)@.can_stop(region_id),
        ensures
            final(self).wf(),
            final(self)@ == old(self)@.on_epoch_change(region_id, epoch).0,
            outbound_models(final(out)@) == outbound_models(old(out)@) + old(
                self,
            )@.on_epoch_change(region_id, epoch).1,
            scans@ == old(self)@.on_epoch_change(region_id, epoch).2,
    {
        let ghost before = self@;
        let ghost sent = outbound_models(out@);
        assert(sent + Seq::<OutboundModel>::empty() =~= sent);
        match self.find(region_id) {
            None => Vec::new(),
            Some(i) => {
                if self.reload_on_merge {
                    let scans = self.delegates[i].reload(epoch);
                    proof {
                        self.delegates@[i as int].lemma_wf();
                        assert(self@.delegates =~= before.delegates.update(
                            i as int,
                            before.delegates[i as int].reload(epoch).0,
                        ));
                    }
                    scans
                } else {
                    self.stop_region(region_id, RegionError::EpochNotMatch, out);
                    Vec::new()
                }
            },
        }
    }

    /// A merge of `source` into `target`, which goes on under `target_epoch`.
    /// Returns the scans to start when the target is reloaded.
    pub fn on_region_merge(
        &mut self,
        source: u64,
        target: u64,
        target_epoch: Epoch,
        out: &mut Vec<Outbound>,
    ) -> (scans: Vec<ScanRequest>)
        requires
            old(self).wf(),
            old(self)@.can_stop(source),
            old(self)@.can_stop(target),
        ensures
            final(self).wf(),
            final(self)@ == old(self)@.on_region_merge(source, target, target_epoch).0,
            outbound_models(final(out)@) == outbound_models(old(out)@) + old(
                self,
            )@.on_region_merge(source, target, target_epoch).1,
            scans@ == old(self)@.on_region_merge(source, target, target_epoch).2,
    {
        let ghost before = self@;
        let ghost sent = outbound_models(out@);
        self.stop_region(source, RegionError::RegionNotFound, out);
        proof {
            lemma_stop_region_keeps(before, source, target, RegionError::RegionNotFound);
        }
        let scans = self.on_epoch_change(target, target_epoch, out);
        proof {
            let first = before.stop_region(source, RegionError::RegionNotFound);
            let second = first.0.on_epoch_change(target, target_epoch);
            assert(sent + (first.1 + second.1) =~= (sent + first.1) + second.1);
        }
        scans
    }

    /// Whether the counters have room for a change log of `n` entries for the region.
    pub fn can_log(&self, region_id: u64, n: usize) -> (yes: bool)
        requires
            self.wf(),
        ensures
            yes == self@.can_log(region_id, n as nat),
    {
        if self.cache.update_count() > usize::MAX - n {
            return false;
        }
        match self.find(region_id) {
            Some(i) => {
                if n as u64 == u64::MAX {
                    assert(!self@.delegates[i as int].downstreams[0].room((n + 1) as nat));
                    false
                } else {
                    self.delegates[i].has_room(n as u64 + 1)
                }
            },
            None => true,
        }
    }

    /// Whether every subscription of the region has room for one more message.
    pub fn can_stop(&self, region_id: u64) -> (yes: bool)
        requires
            self.wf(),
        ensures
            yes == self@.can_stop(region_id),
    {
        match self.find(region_id) {
            Some(i) => self.delegates[i].has_room(1),
            None => true,
        }
    }

    /// Whether every subscription has room for one more message.
    pub fn can_tick(&self) -> (yes: bool)
        requires
            self.wf(),
        ensures
            yes == self@.can_tick(),
    {
        let mut i: usize = 0;
        while i < self.delegates.len()
            invariant
                i <= self.delegates.len(),
                forall|j: int| 0 <= j < i ==> (#[trigger] self@.delegates[j]).room(1),
            decreases self.delegates.len() - i,
        {
            if !self.delegates[i].has_room(1) {
                assert(!self@.delegates[i as int].room(1));
                return false;
            }
            i += 1;
        }
        true
    }

    /// Whether the subscription has room for the messages of a scan step of `n` records.
    pub fn can_scan(&self, scan: ScanRequest, n: usize) -> (yes: bool)
        requires
            self.wf(),
        ensures
            yes == self@.can_scan(scan, n as nat),
    {
        match self.find(scan.region_id) {
            Some(i) => {
                proof {
                    self.delegates@[i as int].lemma_wf();
                }
                self.delegates[i].can_scan(scan.conn_id, scan.request_id, n)
            },
            None => true,
        }
    }

    /// Answers a probe. The coordinator does not change.
    pub fn validate(&self, probe: Probe) -> (answer: usize)
        requires
            self.wf(),
        ensures
            answer == self@.validate(probe),
    {
        match probe {
            Probe::OldValueCache => self.cache.update_count(),
            Probe::UnresolvedRegions => {
                let ghost ds = self@.delegates;
                let mut n: usize = 0;
                let mut i: usize = 0;
                assert(ds.take(0) =~= Seq::<DelegateModel>::empty());
                while i < self.delegates.len()
                    invariant
                        i <= self.delegates.len(),
                        ds == self@.delegates,
                        ds.len() == self.delegates@.len(),
                        n <= i,
                        n == stalled(ds.take(i as int)).len(),
                    decreases self.delegates.len() - i,
                {
                    proof {
                        assert(ds.take(i + 1).drop_last() =~= ds.take(i as int));
                        assert(ds.take(i + 1).last() == self.delegates@[i as int]@);
                    }
                    if !self.delegates[i].is_ready() {
                        n += 1;
                    }
                    i += 1;
                }
                assert(ds.take(i as int) =~= ds);
                n
            },
            Probe::PendingScans(region_id) => match self.find(region_id) {
                Some(i) => self.delegates[i].pending_scans(),
                None => 0,
            },
        }
    }

    /// The cached pre-image of `key` as of `before_ts`, or the one that
    /// `load` reads from the storage engine, which the cache then keeps.
    pub fn old_value<F: FnOnce(&Vec<u8>, u64) -> Vec<u8>>(
        &mut self,
        key: Vec<u8>,
        before_ts: u64,
        load: F,
    ) -> (value: Vec<u8>)
        requires
            old(self).wf(),
            old(self)@.cache.update_count < usize::MAX,
            call_requires(load, (&key, before_ts)),
        ensures
            final(self).wf(),
            final(self)@.delegates == old(self)@.delegates,
            final(self)@.reload_on_merge == old(self)@.reload_on_merge,
            old(self)@.cache.holds(key@, before_ts) ==> final(self)@ == old(self)@ && old(
                self,
            )@.cache.get(key@, before_ts) == Some(value@),
            !old(self)@.cache.holds(key@, before_ts) ==> call_ensures(
                load,
                (&key, before_ts),
                value,
            ) && final(self)@.cache == old(self)@.cache.insert(key@, before_ts, value@),
    {
        let value = self.cache.get_or_load(key, before_ts, load);
        assert(self@.delegates == old(self)@.delegates);
        value
    }
}

/// Stopping one region leaves every other region's delegate where it can be found.
pub proof fn lemma_stop_region_keeps(c: CoordinatorModel, stopped: u64, other: u64, error: RegionError)
    requires
        c.wf(),
    ensures
        c.stop_region(stopped, error).0.can_stop(other) || !c.can_stop(other),
        stopped != other ==> (c.stop_region(stopped, error).0.holds(other) <==> c.holds(other)),
        stopped != other && c.holds(other) ==> c.stop_region(stopped, error).0.delegate(other)
            == c.delegate(other),
        stopped == other ==> !c.stop_region(stopped, error).0.holds(other),
{
    let n = c.stop_region(stopped, error).0;
    if c.holds(stopped) {
        let i = c.slot(stopped);
        assert(c.is_at(i, stopped));
        if c.holds(other) && other != stopped {
            let j = c.slot(other);
            assert(c.is_at(j, other));
            let j1 = if j < i { j } else { j - 1 };
            assert(n.is_at(j1, other));
            let k = n.slot(other);
            assert(n.is_at(k, other));
            let k0 = if k < i { k } else { k + 1 };
            assert(c.is_at(k0, other));
        }
        if n.holds(other) {
            let k = n.slot(other);
            assert(n.is_at(k, other));
            let k0 = if k < i { k } else { k + 1 };
            assert(c.is_at(k0, other));
        }
    }
}


/// The cache is quiet without subscribers: committed entries of a region
/// that nobody is subscribed to, as on a node without any subscription,
/// change nothing and send nothing, so the cache's update counter stays.
pub proof fn law_cache_is_quiet_without_subscription(
    c: CoordinatorModel,
    region_id: u64,
    epoch: Epoch,
    entries: Seq<LogEntryModel>,
)
    requires
        c.wf(),
        !c.holds(region_id),
    ensures
        c.on_change_log(region_id, epoch, entries) == (c, Seq::<OutboundModel>::empty()),
        c.on_change_log(region_id, epoch, entries).0.cache.update_count == c.cache.update_count,
        c.delegates.len() == 0 ==> !c.holds(region_id),
{
}

/// With a subscriber the cache is updated: committed entries of a region
/// with at least one subscription, coming under the region's epoch, raise
/// the cache's update counter by one for each prewrite among them.
pub proof fn law_cache_counts_with_subscription(
    c: CoordinatorModel,
    region_id: u64,
    entries: Seq<LogEntryModel>,
)
    requires
        c.wf(),
        c.holds(region_id),
    ensures
        ({
            let epoch = c.delegate(region_id).epoch;
            let after = c.on_change_log(region_id, epoch, entries).0;
            &&& after.cache.update_count == c.cache.update_count + prewrites(entries)
            &&& prewrites(entries) > 0 ==> after.cache.update_count > c.cache.update_count
        }),
{
    lemma_cache_after(c.cache, entries);
}

/// The registry after delegate `i` changed still holds every other region's
/// delegate, unchanged.
proof fn lemma_keep_others(c: CoordinatorModel, i: int, d: DelegateModel, other: u64)
    requires
        c.wf(),
        0 <= i < c.delegates.len(),
        d.region_id == c.delegates[i].region_id,
        other != d.region_id,
    ensures
        ({
            let after = c.with_delegates(c.keep(i, d));
            &&& after.holds(other) == c.holds(other)
            &&& c.holds(other) ==> after.delegate(other) == c.delegate(other)
        }),
{
    let after = c.with_delegates(c.keep(i, d));
    let dropped = d.stopped || d.downstreams.len() == 0;
    if c.holds(other) {
        let j = c.slot(other);
        assert(c.is_at(j, other));
        let j1 = if dropped && j > i {
            j - 1
        } else {
            j
        };
        assert(after.is_at(j1, other));
        let k = after.slot(other);
        assert(after.is_at(k, other));
        let k0 = if dropped && k >= i {
            k + 1
        } else {
            k
        };
        assert(c.is_at(k0, other));
    }
    if after.holds(other) {
        let k = after.slot(other);
        assert(after.is_at(k, other));
        let k0 = if dropped && k >= i {
            k + 1
        } else {
            k
        };
        assert(c.is_at(k0, other));
    }
}

/// Regions are isolated: what happens to one region, be it committed
/// entries, a scan step or a region-wide error, sends messages that name
/// that region only, and leaves the delegate of every other region as it was.
pub proof fn law_regions_are_isolated(c: CoordinatorModel, region_id: u64, other: u64)
    requires
        c.wf(),
        other != region_id,
    ensures
        forall|epoch: Epoch, entries: Seq<LogEntryModel>|
            #![trigger c.on_change_log(region_id, epoch, entries)]
            {
                let r = c.on_change_log(region_id, epoch, entries);
                &&& crate::cdc::delegate::for_region(r.1, region_id)
                &&& r.0.holds(other) == c.holds(other)
                &&& c.holds(other) ==> r.0.delegate(other) == c.delegate(other)
            },
        forall|scan: ScanRequest, step: ScanStepModel|
            #![trigger c.on_scan(scan, step)]
            scan.region_id == region_id ==> {
                let r = c.on_scan(scan, step);
                &&& crate::cdc::delegate::for_region(r.1, region_id)
                &&& r.0.holds(other) == c.holds(other)
                &&& c.holds(other) ==> r.0.delegate(other) == c.delegate(other)
            },
        forall|error: RegionError|
            #![trigger c.stop_region(region_id, error)]
            {
                let r = c.stop_region(region_id, error);
                &&& crate::cdc::delegate::for_region(r.1, region_id)
                &&& r.0.holds(other) == c.holds(other)
                &&& c.holds(other) ==> r.0.delegate(other) == c.delegate(other)
            },
{
    if c.holds(region_id) {
        let i = c.slot(region_id);
        assert(c.is_at(i, region_id));
        let d = c.delegates[i];
        crate::cdc::delegate::lemma_sends_for_own_region(d);
        assert forall|epoch: Epoch, entries: Seq<LogEntryModel>|
            #![trigger c.on_change_log(region_id, epoch, entries)]
            {
                let r = c.on_change_log(region_id, epoch, entries);
                &&& crate::cdc::delegate::for_region(r.1, region_id)
                &&& r.0.holds(other) == c.holds(other)
                &&& c.holds(other) ==> r.0.delegate(other) == c.delegate(other)
            } by {
            let next = d.on_change_log(epoch, entries);
            assert(crate::cdc::delegate::for_region(next.1, d.region_id));
            let filed = CoordinatorModel {
                cache: if epoch == d.epoch {
                    cache_after(c.cache, entries)
                } else {
                    c.cache
                },
                ..c
            };
            lemma_cache_after(c.cache, entries);
            assert(filed.is_at(i, region_id));
            assert(filed.holds(other) == c.holds(other)) by {
                if c.holds(other) {
                    assert(c.is_at(c.slot(other), other));
                    assert(filed.is_at(c.slot(other), other));
                }
                if filed.holds(other) {
                    assert(filed.is_at(filed.slot(other), other));
                    assert(c.is_at(filed.slot(other), other));
                }
            }
            lemma_keep_others(filed, i, next.0, other);
        }
        assert forall|scan: ScanRequest, step: ScanStepModel|
            #![trigger c.on_scan(scan, step)]
            scan.region_id == region_id implies {
                let r = c.on_scan(scan, step);
                &&& crate::cdc::delegate::for_region(r.1, region_id)
                &&& r.0.holds(other) == c.holds(other)
                &&& c.holds(other) ==> r.0.delegate(other) == c.delegate(other)
            } by {
            let next = d.on_scan(scan.conn_id, scan.request_id, scan.epoch, step);
            assert(crate::cdc::delegate::for_region(next.1, d.region_id));
            lemma_keep_others(c, i, next.0, other);
        }
        assert forall|error: RegionError|
            #![trigger c.stop_region(region_id, error)]
            {
                let r = c.stop_region(region_id, error);
                &&& crate::cdc::delegate::for_region(r.1, region_id)
                &&& r.0.holds(other) == c.holds(other)
                &&& c.holds(other) ==> r.0.delegate(other) == c.delegate(other)
            } by {
            assert(crate::cdc::delegate::for_region(d.stop(error).1, d.region_id));
            lemma_stop_region_keeps(c, region_id, other, error);
        }
    }
}


/// Why a subscription, or every subscription of a region, is taken off.
#[derive(Clone, Copy, Debug, PartialEq, Eq, Structural)]
pub enum Deregister {
    /// A subscriber ended one subscription, or an operator removes it.
    Downstream { region_id: u64, conn_id: u64, request_id: u64 },
    /// A connection closed: every subscription on it goes.
    Conn { conn_id: u64 },
    /// The region split: its epoch is stale.
    RegionSplit { region_id: u64 },
    /// The region was destroyed.
    RegionDestroy { region_id: u64 },
    /// The region's leader moved to another node.
    LeaderChange { region_id: u64 },
    /// `source` was merged into `target`, which goes on under `target_epoch`.
    RegionMerge { source: u64, target: u64, target_epoch: Epoch },
    /// A merge of the region was rolled back; it goes on under `epoch`.
    RollbackMerge { region_id: u64, epoch: Epoch },
}

/// One task of the coordinator's queue.
#[derive(Clone, Debug, PartialEq, Eq)]
pub enum Task {
    /// A subscription request.
    Register { region_id: u64, epoch: Epoch, conn_id: u64, request_id: u64, checkpoint_ts: u64 },
    Deregister(Deregister),
    /// Committed entries of a region, observed under `epoch`.
    ChangeLog { region_id: u64, epoch: Epoch, entries: Vec<LogEntry> },
    /// One step of the scan that `scan` asked for.
    Scan { scan: ScanRequest, step: ScanStep },
    /// The periodic tick, with the timestamp below which no transaction can start.
    MinTsTick { min_ts: u64 },
    Validate(Probe),
}

/// What a task is, mathematically.
pub enum TaskModel {
    Register { region_id: u64, epoch: Epoch, conn_id: u64, request_id: u64, checkpoint_ts: u64 },
    Deregister(Deregister),
    ChangeLog { region_id: u64, epoch: Epoch, entries: Seq<LogEntryModel> },
    Scan { scan: ScanRequest, step: ScanStepModel },
    MinTsTick { min_ts: u64 },
    Validate(Probe),
}

impl View for Task {
    type V = TaskModel;

    open spec fn view(&self) -> TaskModel {
        match self {
            Task::Register { region_id, epoch, conn_id, request_id, checkpoint_ts } =>
                TaskModel::Register {
                region_id: *region_id,
                epoch: *epoch,
                conn_id: *conn_id,
                request_id: *request_id,
                checkpoint_ts: *checkpoint_ts,
            },
            Task::Deregister(reason) => TaskModel::Deregister(*reason),
            Task::ChangeLog { region_id, epoch, entries } => TaskModel::ChangeLog {
                region_id: *region_id,
                epoch: *epoch,
                entries: entry_models(entries@),
            },
            Task::Scan { scan, step } => TaskModel::Scan { scan: *scan, step: step@ },
            Task::MinTsTick { min_ts } => TaskModel::MinTsTick { min_ts: *min_ts },
            Task::Validate(probe) => TaskModel::Validate(*probe),
        }
    }
}

/// What the coordinator answers to a task, besides the messages it sends.
#[derive(Clone, Debug, PartialEq, Eq)]
pub enum Reply {
    /// Nothing to report.
    Done,
    /// The subscription is registered; its scan is to be started.
    Registered(ScanRequest),
    /// The subscription request was turned down.
    Refused(RegisterError),
    /// Whether the subscription to take off was there.
    Deregistered(bool),
    /// The scans to start after a region was reloaded.
    Rescan(Vec<ScanRequest>),
    Tick(TickReport),
    /// The answer to a probe.
    Answer(usize),
}

/// What a reply is, mathematically.
pub enum ReplyModel {
    Done,
    Registered(ScanRequest),
    Refused(RegisterError),
    Deregistered(bool),
    Rescan(Seq<ScanRequest>),
    Tick(TickModel),
    Answer(nat),
}

impl View for Reply {
    type V = ReplyModel;

    open spec fn view(&self) -> ReplyModel {
        match self {
            Reply::Done => ReplyModel::Done,
            Reply::Registered(scan) => ReplyModel::Registered(*scan),
            Reply::Refused(e) => ReplyModel::Refused(*e),
            Reply::Deregistered(found) => ReplyModel::Deregistered(*found),
            Reply::Rescan(scans) => ReplyModel::Rescan(scans@),
            Reply::Tick(report) => ReplyModel::Tick(report@),
            Reply::Answer(n) => ReplyModel::Answer(*n as nat),
        }
    }
}

impl CoordinatorModel {
    /// Whether the counters have room for what the task may send and file.
    pub open spec fn accepts(self, task: TaskModel) -> bool {
        match task {
            TaskModel::Register { .. } => true,
            TaskModel::Deregister(reason) => match reason {
                Deregister::Downstream { .. } => true,
                Deregister::Conn { .. } => true,
                Deregister::RegionSplit { region_id } => self.can_stop(region_id),
                Deregister::RegionDestroy { region_id } => self.can_stop(region_id),
                Deregister::LeaderChange { region_id } => self.can_stop(region_id),
                Deregister::RegionMerge { source, target, .. } => self.can_stop(source)
                    && self.can_stop(target),
                Deregister::RollbackMerge { region_id, .. } => self.can_stop(region_id),
            },
            TaskModel::ChangeLog { region_id, entries, .. } => self.can_log(
                region_id,
                entries.len(),
            ),
            TaskModel::Scan { scan, step } => self.can_scan(scan, step_len(step)),
            TaskModel::MinTsTick { .. } => self.can_tick(),
            TaskModel::Validate(_) => true,
        }
    }

    /// The coordinator after a task, the messages that the task sends, and
    /// the answer to it.
    pub open spec fn handle(self, task: TaskModel) -> (
        CoordinatorModel,
        Seq<OutboundModel>,
        ReplyModel,
    ) {
        match task {
            TaskModel::Register { region_id, epoch, conn_id, request_id, checkpoint_ts } => (
                self.register(region_id, epoch, conn_id, request_id, checkpoint_ts),
                Seq::empty(),
                match self.refusal(region_id, epoch, conn_id, request_id) {
                    Some(e) => ReplyModel::Refused(e),
                    None => ReplyModel::Registered(
                        Self::scan_for(region_id, epoch, conn_id, request_id, checkpoint_ts),
                    ),
                },
            ),
            TaskModel::Deregister(reason) => match reason {
                Deregister::Downstream { region_id, conn_id, request_id } => (
                    self.deregister(region_id, conn_id, request_id),
                    Seq::empty(),
                    ReplyModel::Deregistered(
                        self.holds(region_id) && self.delegate(region_id).subscribed(
                            conn_id,
                            request_id,
                        ),
                    ),
                ),
                Deregister::Conn { conn_id } => (
                    self.disconnect(conn_id),
                    Seq::empty(),
                    ReplyModel::Done,
                ),
                Deregister::RegionSplit { region_id } => {
                    let r = self.stop_region(region_id, RegionError::EpochNotMatch);
                    (r.0, r.1, ReplyModel::Done)
                },
                Deregister::RegionDestroy { region_id } => {
                    let r = self.stop_region(region_id, RegionError::RegionNotFound);
                    (r.0, r.1, ReplyModel::Done)
                },
                Deregister::LeaderChange { region_id } => {
                    let r = self.stop_region(region_id, RegionError::NotLeader);
                    (r.0, r.1, ReplyModel::Done)
                },
                Deregister::RegionMerge { source, target, target_epoch } => {
                    let r = self.on_region_merge(source, target, target_epoch);
                    (r.0, r.1, ReplyModel::Rescan(r.2))
                },
                Deregister::RollbackMerge { region_id, epoch } => {
                    let r = self.on_epoch_change(region_id, epoch);
                    (r.0, r.1, ReplyModel::Rescan(r.2))
                },
            },
            TaskModel::ChangeLog { region_id, epoch, entries } => {
                let r = self.on_change_log(region_id, epoch, entries);
                (r.0, r.1, ReplyModel::Done)
            },
            TaskModel::Scan { scan, step } => {
                let r = self.on_scan(scan, step);
                (r.0, r.1, ReplyModel::Done)
            },
            TaskModel::MinTsTick { min_ts } => {
                let r = self.on_min_ts(min_ts);
                (r.0, r.1, ReplyModel::Tick(self.tick_report(min_ts)))
            },
            TaskModel::Validate(probe) => (
                self,
                Seq::empty(),
                ReplyModel::Answer(self.validate(probe)),
            ),
        }
    }
}

impl Coordinator {
    /// Whether the counters have room for what the task may send and file.
    pub fn accepts(&self, task: &Task) -> (yes: bool)
        requires
            self.wf(),
        ensures
            yes == self@.accepts(task@),
    {
        match task {
            Task::Register { .. } => true,
            Task::Deregister(reason) => match reason {
                Deregister::Downstream { .. } => true,
                Deregister::Conn { .. } => true,
                Deregister::RegionSplit { region_id } => self.can_stop(*region_id),
                Deregister::RegionDestroy { region_id } => self.can_stop(*region_id),
                Deregister::LeaderChange { region_id } => self.can_stop(*region_id),
                Deregister::RegionMerge { source, target, .. } => self.can_stop(*source)
                    && self.can_stop(*target),
                Deregister::RollbackMerge { region_id, .. } => self.can_stop(*region_id),
            },
            Task::ChangeLog { region_id, entries, .. } => self.can_log(*region_id, entries.len()),
            Task::Scan { scan, step } => {
                let n = match step {
                    ScanStep::Rows(rows) => rows.len(),
                    ScanStep::Finished(rows) => rows.len(),
                    _ => 0,
                };
                self.can_scan(*scan, n)
            },
            Task::MinTsTick { .. } => self.can_tick(),
            Task::Validate(_) => true,
        }
    }

    /// Handles one task: the coordinator changes as the task says, the
    /// messages to send are added to `out`, and the answer is returned.
    pub fn handle(&mut self, task: Task, out: &mut Vec<Outbound>) -> (reply: Reply)
        requires
            old(self).wf(),
            old(self)@.accepts(task@),
        ensures
            final(self).wf(),
            final(self)@ == old(self)@.handle(task@).0,
            outbound_models(final(out)@) == outbound_models(old(out)@) + old(self)@.handle(
                task@,
            ).1,
            reply@ == old(self)@.handle(task@).2,
    {
        let ghost sent = outbound_models(out@);
        assert(sent + Seq::<OutboundModel>::empty() =~= sent);
        match task {
            Task::Register { region_id, epoch, conn_id, request_id, checkpoint_ts } => {
                match self.register(region_id, epoch, conn_id, request_id, checkpoint_ts) {
                    Ok(scan) => Reply::Registered(scan),
                    Err(e) => Reply::Refused(e),
                }
            },
            Task::Deregister(reason) => match reason {
                Deregister::Downstream { region_id, conn_id, request_id } => {
                    Reply::Deregistered(self.deregister(region_id, conn_id, request_id))
                },
                Deregister::Conn { conn_id } => {
                    self.disconnect(conn_id);
                    Reply::Done
                },
                Deregister::RegionSplit { region_id } => {
                    self.on_region_split(region_id, out);
                    Reply::Done
                },
                Deregister::RegionDestroy { region_id } => {
                    self.on_region_destroy(region_id, out);
                    Reply::Done
                },
                Deregister::LeaderChange { region_id } => {
                    self.on_leader_change(region_id, out);
                    Reply::Done
                },
                Deregister::RegionMerge { source, target, target_epoch } => {
                    Reply::Rescan(self.on_region_merge(source, target, target_epoch, out))
                },
                Deregister::RollbackMerge { region_id, epoch } => {
                    Reply::Rescan(self.on_epoch_change(region_id, epoch, out))
                },
            },
            Task::ChangeLog { region_id, epoch, entries } => {
                self.on_committed_entries(region_id, epoch, &entries, out);
                Reply::Done
            },
            Task::Scan { scan, step } => {
                self.on_scan(scan, step, out);
                Reply::Done
            },
            Task::MinTsTick { min_ts } => Reply::Tick(self.on_min_ts(min_ts, out)),
            Task::Validate(probe) => Reply::Answer(self.validate(probe)),
        }
    }

    /// Handles one task if the counters have room for it. Otherwise nothing
    /// changes, nothing is sent, and `None` is returned.
    pub fn try_handle(&mut self, task: Task, out: &mut Vec<Outbound>) -> (reply: Option<Reply>)
        requires
            old(self).wf(),
        ensures
            final(self).wf(),
            reply is Some <==> old(self)@.accepts(task@),
            match reply {
                Some(r) => {
                    &&& final(self)@ == old(self)@.handle(task@).0
                    &&& outbound_models(final(out)@) == outbound_models(old(out)@) + old(
                        self,
                    )@.handle(task@).1
                    &&& r@ == old(self)@.handle(task@).2
                },
                None => final(self)@ == old(self)@ && final(out)@ == old(out)@,
            },
    {
        if self.accepts(&task) {
            Some(self.handle(task, out))
        } else {
            None
        }
    }
}


impl TaskModel {
    /// Whether the task names the region: a tick and the closing of a
    /// connection name every region, a probe none.
    pub open spec fn names(self, region_id: u64) -> bool {
        match self {
            TaskModel::Register { region_id: r, .. } => r == region_id,
            TaskModel::Deregister(reason) => match reason {
                Deregister::Downstream { region_id: r, .. } => r == region_id,
                Deregister::Conn { .. } => true,
                Deregister::RegionSplit { region_id: r } => r == region_id,
                Deregister::RegionDestroy { region_id: r } => r == region_id,
                Deregister::LeaderChange { region_id: r } => r == region_id,
                Deregister::RegionMerge { source, target, .. } => source == region_id || target
                    == region_id,
                Deregister::RollbackMerge { region_id: r, .. } => r == region_id,
            },
            TaskModel::ChangeLog { region_id: r, .. } => r == region_id,
            TaskModel::Scan { scan, .. } => scan.region_id == region_id,
            TaskModel::MinTsTick { .. } => true,
            TaskModel::Validate(_) => false,
        }
    }
}

/// Every message names a region that the task names.
pub open spec fn within(task: TaskModel, out: Seq<OutboundModel>) -> bool {
    forall|i: int| 0 <= i < out.len() ==> task.names((#[trigger] out[i]).region_id)
}

/// A registry with another delegate in place of, or after, the ones it has
/// holds every other region's delegate as before.
proof fn lemma_update_others(c: CoordinatorModel, i: int, d: DelegateModel, other: u64)
    requires
        c.wf(),
        0 <= i < c.delegates.len(),
        d.region_id == c.delegates[i].region_id,
        other != d.region_id,
    ensures
        ({
            let after = CoordinatorModel { delegates: c.delegates.update(i, d), ..c };
            &&& after.holds(other) == c.holds(other)
            &&& c.holds(other) ==> after.delegate(other) == c.delegate(other)
        }),
{
    let after = CoordinatorModel { delegates: c.delegates.update(i, d), ..c };
    if c.holds(other) {
        let j = c.slot(other);
        assert(c.is_at(j, other));
        assert(after.is_at(j, other));
    }
    if after.holds(other) {
        let k = after.slot(other);
        assert(after.is_at(k, other));
        assert(c.is_at(k, other));
    }
    if c.holds(other) {
        let j = c.slot(other);
        let k = after.slot(other);
        assert(c.is_at(k, other) && c.is_at(j, other));
        assert(after.is_at(j, other) && after.is_at(k, other));
    }
}

/// A coordinator without one of its delegates is well formed.
proof fn lemma_stop_region_wf(c: CoordinatorModel, region_id: u64, error: RegionError)
    requires
        c.wf(),
    ensures
        c.stop_region(region_id, error).0.wf(),
{
    if c.holds(region_id) {
        let i = c.slot(region_id);
        assert(c.is_at(i, region_id));
        let after = c.stop_region(region_id, error).0;
        assert forall|a: int| 0 <= a < after.delegates.len() implies (#[trigger] after.delegates[a]).wf()
            && !after.delegates[a].stopped && after.delegates[a].downstreams.len() > 0 by {
            let a0 = if a < i {
                a
            } else {
                a + 1
            };
            assert(after.delegates[a] == c.delegates[a0]);
        }
        assert forall|a: int, b: int| 0 <= a < b < after.delegates.len() implies after.delegates[a].region_id
            != after.delegates[b].region_id by {
            let a0 = if a < i {
                a
            } else {
                a + 1
            };
            let b0 = if b < i {
                b
            } else {
                b + 1
            };
            assert(after.delegates[a] == c.delegates[a0]);
            assert(after.delegates[b] == c.delegates[b0]);
        }
    }
}

proof fn lemma_epoch_change_others(c: CoordinatorModel, region_id: u64, epoch: Epoch, other: u64)
    requires
        c.wf(),
        other != region_id,
    ensures
        ({
            let r = c.on_epoch_change(region_id, epoch);
            &&& crate::cdc::delegate::for_region(r.1, region_id)
            &&& r.0.holds(other) == c.holds(other)
            &&& c.holds(other) ==> r.0.delegate(other) == c.delegate(other)
        }),
{
    if c.holds(region_id) {
        let i = c.slot(region_id);
        assert(c.is_at(i, region_id));
        if c.reload_on_merge {
            lemma_update_others(c, i, c.delegates[i].reload(epoch).0, other);
        } else {
            law_regions_are_isolated(c, region_id, other);
        }
    }
}

/// A task touches only the regions it names: whatever it sends names one
/// of them, and the delegate of every other region is left as it was. This
/// is why tasks of different regions may be handled in any order, and why a
/// failure in one region reaches that region's subscribers only.
pub proof fn law_a_task_touches_only_its_regions(c: CoordinatorModel, task: TaskModel, other: u64)
    requires
        c.wf(),
        !task.names(other),
    ensures
        within(task, c.handle(task).1),
        c.handle(task).0.holds(other) == c.holds(other),
        c.holds(other) ==> c.handle(task).0.delegate(other) == c.delegate(other),
{
    match task {
        TaskModel::Register { region_id, epoch, conn_id, request_id, checkpoint_ts } => {
            if c.holds(region_id) {
                let i = c.slot(region_id);
                assert(c.is_at(i, region_id));
                lemma_update_others(
                    c,
                    i,
                    c.delegates[i].register(conn_id, request_id, checkpoint_ts, epoch),
                    other,
                );
            } else {
                let after = c.register(region_id, epoch, conn_id, request_id, checkpoint_ts);
                if c.holds(other) {
                    let j = c.slot(other);
                    assert(c.is_at(j, other));
                    assert(after.is_at(j, other));
                    let k = after.slot(other);
                    assert(after.is_at(k, other));
                    assert(c.is_at(k, other));
                }
                if after.holds(other) {
                    let k = after.slot(other);
                    assert(after.is_at(k, other));
                    assert(c.is_at(k, other));
                }
            }
        },
        TaskModel::Deregister(reason) => match reason {
            Deregister::Downstream { region_id, conn_id, request_id } => {
                if c.holds(region_id) {
                    let i = c.slot(region_id);
                    assert(c.is_at(i, region_id));
                    lemma_keep_others(c, i, c.delegates[i].deregister(conn_id, request_id), other);
                }
            },
            Deregister::Conn { conn_id } => {},
            Deregister::RegionSplit { region_id } => {
                law_regions_are_isolated(c, region_id, other);
            },
            Deregister::RegionDestroy { region_id } => {
                law_regions_are_isolated(c, region_id, other);
            },
            Deregister::LeaderChange { region_id } => {
                law_regions_are_isolated(c, region_id, other);
            },
            Deregister::RegionMerge { source, target, target_epoch } => {
                law_regions_are_isolated(c, source, other);
                let first = c.stop_region(source, RegionError::RegionNotFound);
                lemma_stop_region_wf(c, source, RegionError::RegionNotFound);
                lemma_epoch_change_others(first.0, target, target_epoch, other);
            },
            Deregister::RollbackMerge { region_id, epoch } => {
                lemma_epoch_change_others(c, region_id, epoch, other);
            },
        },
        TaskModel::ChangeLog { region_id, epoch, entries } => {
            law_regions_are_isolated(c, region_id, other);
        },
        TaskModel::Scan { scan, step } => {
            law_regions_are_isolated(c, scan.region_id, other);
        },
        TaskModel::MinTsTick { min_ts } => {},
        TaskModel::Validate(probe) => {},
    }
}


impl Task {
    /// The one region that the task names, if it names exactly one. A merge
    /// names two, a tick and the closing of a connection every region, and
    /// a probe none: such a task goes to every worker.
    pub fn region(&self) -> (r: Option<u64>)
        ensures
            match r {
                Some(region_id) => forall|other: u64| self@.names(other) <==> other == region_id,
                None => self@ is MinTsTick || self@ is Validate || (self@ matches TaskModel::Deregister(
                    reason,
                ) && (reason is RegionMerge || reason is Conn)),
            },
    {
        match self {
            Task::Register { region_id, .. } => Some(*region_id),
            Task::ChangeLog { region_id, .. } => Some(*region_id),
            Task::Scan { scan, .. } => Some(scan.region_id),
            Task::Deregister(reason) => match reason {
                Deregister::Downstream { region_id, .. } => Some(*region_id),
                Deregister::RegionSplit { region_id } => Some(*region_id),
                Deregister::RegionDestroy { region_id } => Some(*region_id),
                Deregister::LeaderChange { region_id } => Some(*region_id),
                Deregister::RollbackMerge { region_id, .. } => Some(*region_id),
                Deregister::RegionMerge { .. } => None,
                Deregister::Conn { .. } => None,
            },
            Task::MinTsTick { .. } => None,
            Task::Validate(_) => None,
        }
    }
}


/// The models of a sequence of tasks, in order.
pub open spec fn task_models(s: Seq<Task>) -> Seq<TaskModel> {
    s.map_values(|t: Task| t@)
}

/// The models of a sequence of replies, in order.
pub open spec fn reply_models(s: Seq<Reply>) -> Seq<ReplyModel> {
    s.map_values(|r: Reply| r@)
}

impl CoordinatorModel {
    /// The coordinator after the tasks, handled one after the other in the
    /// order given, with all the messages sent and the reply to each task.
    pub open spec fn run(self, tasks: Seq<TaskModel>) -> (
        CoordinatorModel,
        Seq<OutboundModel>,
        Seq<ReplyModel>,
    )
        decreases tasks.len(),
    {
        if tasks.len() == 0 {
            (self, Seq::empty(), Seq::empty())
        } else {
            let before = self.run(tasks.drop_last());
            let last = before.0.handle(tasks.last());
            (last.0, before.1 + last.1, before.2.push(last.2))
        }
    }
}

impl Coordinator {
    /// Takes tasks from the front of the queue and handles them one after
    /// the other, in the order in which they were submitted, for as long as
    /// the counters have room. Returns the reply to each task handled; the
    /// tasks not handled stay in the queue, in order.
    pub fn drain(&mut self, queue: &mut VecDeque<Task>, out: &mut Vec<Outbound>) -> (replies: Vec<
        Reply,
    >)
        requires
            old(self).wf(),
        ensures
            final(self).wf(),
            replies@.len() <= old(queue)@.len(),
            final(queue)@ == old(queue)@.skip(replies@.len() as int),
            final(self)@ == old(self)@.run(
                task_models(old(queue)@.take(replies@.len() as int)),
            ).0,
            outbound_models(final(out)@) == outbound_models(old(out)@) + old(self)@.run(
                task_models(old(queue)@.take(replies@.len() as int)),
            ).1,
            reply_models(replies@) == old(self)@.run(
                task_models(old(queue)@.take(replies@.len() as int)),
            ).2,
            replies@.len() < old(queue)@.len() ==> !final(self)@.accepts(
                old(queue)@[replies@.len() as int]@,
            ),
    {
        let ghost start = self@;
        let ghost tasks = queue@;
        let ghost all = task_models(queue@);
        let ghost sent = outbound_models(out@);
        let mut replies: Vec<Reply> = Vec::new();
        proof {
            assert(tasks.take(0) =~= Seq::<Task>::empty());
            assert(task_models(tasks.take(0)) =~= Seq::<TaskModel>::empty());
            assert(tasks.skip(0) =~= tasks);
            assert(sent + Seq::<OutboundModel>::empty() =~= sent);
            assert(reply_models(replies@) =~= Seq::<ReplyModel>::empty());
        }
        while queue.len() > 0
            invariant
                self.wf(),
                replies@.len() <= tasks.len(),
                queue@ == tasks.skip(replies@.len() as int),
                self@ == start.run(task_models(tasks.take(replies@.len() as int))).0,
                outbound_models(out@) == sent + start.run(
                    task_models(tasks.take(replies@.len() as int)),
                ).1,
                reply_models(replies@) == start.run(
                    task_models(tasks.take(replies@.len() as int)),
                ).2,
            ensures
                replies@.len() < tasks.len() ==> !self@.accepts(tasks[replies@.len() as int]@),
            decreases queue.len(),
        {
            let ghost k = replies@.len() as int;
            proof {
                assert(queue@[0] == tasks[k]);
            }
            if !self.accepts(&queue[0]) {
                break ;
            }
            let task = match queue.pop_front() {
                Some(task) => task,
                None => {
                    break ;
                },
            };
            let ghost before = start.run(task_models(tasks.take(k)));
            let ghost handled = reply_models(replies@);
            let reply = self.handle(task, out);
            replies.push(reply);
            proof {
                let head = task_models(tasks.take(k + 1));
                assert(head.drop_last() =~= task_models(tasks.take(k)));
                assert(head.last() == tasks[k]@);
                assert(queue@ =~= tasks.skip(k + 1));
                let last = before.0.handle(tasks[k]@);
                assert(sent + (before.1 + last.1) =~= (sent + before.1) + last.1);
                assert(reply_models(replies@) =~= handled.push(reply@));
            }
        }
        replies
    }
}


/// Every delegate without the subscriptions of connection `conn_id`; a
/// delegate that is left without subscription is dropped.
pub open spec fn disconnected(ds: Seq<DelegateModel>, conn_id: u64) -> Seq<DelegateModel>
    decreases ds.len(),
{
    if ds.len() == 0 {
        Seq::empty()
    } else if ds.last().disconnect(conn_id).downstreams.len() == 0 {
        disconnected(ds.drop_last(), conn_id)
    } else {
        disconnected(ds.drop_last(), conn_id).push(ds.last().disconnect(conn_id))
    }
}

impl CoordinatorModel {
    /// A connection closed: every subscription that came in on it is
    /// dropped, in every region.
    pub open spec fn disconnect(self, conn_id: u64) -> CoordinatorModel {
        self.with_delegates(disconnected(self.delegates, conn_id))
    }
}

/// What is left of a well-formed registry without a connection is well formed.
proof fn lemma_disconnected(ds: Seq<DelegateModel>, conn_id: u64)
    requires
        forall|i: int|
            0 <= i < ds.len() ==> (#[trigger] ds[i]).wf() && !ds[i].stopped
                && ds[i].downstreams.len() > 0,
        forall|i: int, j: int| 0 <= i < j < ds.len() ==> ds[i].region_id != ds[j].region_id,
    ensures
        disconnected(ds, conn_id).len() <= ds.len(),
        forall|i: int|
            0 <= i < disconnected(ds, conn_id).len() ==> (#[trigger] disconnected(
                ds,
                conn_id,
            )[i]).wf() && !disconnected(ds, conn_id)[i].stopped && disconnected(
                ds,
                conn_id,
            )[i].downstreams.len() > 0 && exists|j: int|
                i <= j < ds.len() && ds[j].region_id == disconnected(ds, conn_id)[i].region_id,
        forall|i: int, j: int|
            0 <= i < j < disconnected(ds, conn_id).len() ==> disconnected(ds, conn_id)[i].region_id
                != disconnected(ds, conn_id)[j].region_id,
    decreases ds.len(),
{
    if ds.len() > 0 {
        let head = ds.drop_last();
        assert forall|i: int| 0 <= i < head.len() implies (#[trigger] head[i]).wf()
            && !head[i].stopped && head[i].downstreams.len() > 0 by {
            assert(head[i] == ds[i]);
        }
        assert forall|i: int, j: int| 0 <= i < j < head.len() implies head[i].region_id
            != head[j].region_id by {
            assert(head[i] == ds[i] && head[j] == ds[j]);
        }
        lemma_disconnected(head, conn_id);
        let kept = disconnected(head, conn_id);
        let now = disconnected(ds, conn_id);
        let last = ds.last();
        assert(last == ds[ds.len() - 1]);
        crate::cdc::delegate::lemma_disconnect_wf(last, conn_id);
        assert forall|i: int| 0 <= i < now.len() implies (#[trigger] now[i]).wf()
            && !now[i].stopped && now[i].downstreams.len() > 0 && exists|j: int|
            i <= j < ds.len() && ds[j].region_id == now[i].region_id by {
            if i < kept.len() {
                let j = choose|j: int| i <= j < head.len() && head[j].region_id == kept[i].region_id;
                assert(head[j] == ds[j]);
            } else {
                assert(ds[ds.len() - 1].region_id == now[i].region_id);
            }
        }
        assert forall|a: int, b: int| 0 <= a < b < now.len() implies now[a].region_id
            != now[b].region_id by {
            if b == kept.len() {
                let j = choose|j: int| a <= j < head.len() && head[j].region_id == kept[a].region_id;
                assert(head[j] == ds[j]);
            }
        }
    }
}

impl Coordinator {
    /// Drops every subscription that came in on connection `conn_id`, as
    /// when the connection closes. Nothing is sent.
    pub fn disconnect(&mut self, conn_id: u64)
        requires
            old(self).wf(),
        ensures
            final(self).wf(),
            final(self)@ == old(self)@.disconnect(conn_id),
    {
        let ghost ds = self@.delegates;
        let mut i: usize = 0;
        proof {
            assert(ds.take(0) =~= Seq::<DelegateModel>::empty());
            assert(ds.skip(0) =~= ds);
            assert(ds.len() == self.delegates.len());
            assert(self@.delegates =~= disconnected(ds.take(0), conn_id) + ds.skip(0));
        }
        let mut gone: usize = 0;
        while i < self.delegates.len()
            invariant
                i <= self.delegates.len(),
                i + gone <= ds.len(),
                ds.len() <= usize::MAX,
                i == disconnected(ds.take(i + gone), conn_id).len(),
                self@.delegates == disconnected(ds.take(i + gone), conn_id) + ds.skip(i + gone),
                forall|j: int|
                    0 <= j < self.delegates@.len() ==> (#[trigger] self.delegates@[j]).wf(),
                self.cache == old(self).cache,
                self.reload_on_merge == old(self).reload_on_merge,
            decreases self.delegates.len() - i,
        {
            let ghost p = (i + gone) as int;
            let ghost kept = disconnected(ds.take(p), conn_id);
            let ghost shown_models = self@.delegates;
            let ghost shown = self.delegates@;
            proof {
                assert(self@.delegates.len() == kept.len() + ds.skip(p).len());
                assert(p < ds.len());
                assert(self@.delegates[i as int] == ds.skip(p)[0]);
                assert(ds.take(p + 1).drop_last() =~= ds.take(p));
                assert(ds.take(p + 1).last() == ds[p]);
            }
            let _ = self.delegates[i].disconnect(conn_id);
            if self.delegates[i].downstream_count() == 0 {
                self.delegates.remove(i);
                gone += 1;
                proof {
                    assert(self@.delegates =~= shown_models.remove(i as int));
                    assert(shown_models.remove(i as int) =~= kept + ds.skip(p + 1));
                    assert forall|j: int| 0 <= j < self.delegates@.len() implies (
                    #[trigger] self.delegates@[j]).wf() by {
                        let j0 = if j < i {
                            j
                        } else {
                            j + 1
                        };
                        if j0 != i {
                            assert(shown[j0].wf());
                        }
                    }
                }
            } else {
                proof {
                    assert(self@.delegates =~= shown_models.update(
                        i as int,
                        ds[p].disconnect(conn_id),
                    ));
                    assert(shown_models.update(i as int, ds[p].disconnect(conn_id)) =~= kept.push(
                        ds[p].disconnect(conn_id),
                    ) + ds.skip(p + 1));
                    assert forall|j: int| 0 <= j < self.delegates@.len() implies (
                    #[trigger] self.delegates@[j]).wf() by {
                        if j != i {
                            assert(shown[j].wf());
                        }
                    }
                }
                i += 1;
            }
        }
        proof {
            let p = (i + gone) as int;
            assert(p == ds.len()) by {
                assert(self@.delegates.len() == i + ds.skip(p).len());
            }
            assert(ds.take(p) =~= ds);
            assert(self@.delegates =~= disconnected(ds, conn_id));
            lemma_disconnected(ds, conn_id);
        }
        if self.delegates.len() == 0 {
            self.cache.clear();
        }
    }
}


proof fn lemma_keep_wf(c: CoordinatorModel, i: int, d2: DelegateModel)
    requires
        c.wf(),
        0 <= i < c.delegates.len(),
        d2.wf(),
        d2.region_id == c.delegates[i].region_id,
    ensures
        c.with_delegates(c.keep(i, d2)).wf(),
{
    let after = c.with_delegates(c.keep(i, d2));
    if d2.stopped || d2.downstreams.len() == 0 {
        assert forall|a: int| 0 <= a < after.delegates.len() implies (#[trigger] after.delegates[a]).wf()
            && !after.delegates[a].stopped && after.delegates[a].downstreams.len() > 0 by {
            let a0 = if a < i {
                a
            } else {
                a + 1
            };
            assert(after.delegates[a] == c.delegates[a0]);
        }
        assert forall|a: int, b: int| 0 <= a < b < after.delegates.len() implies after.delegates[a].region_id
            != after.delegates[b].region_id by {
            let a0 = if a < i {
                a
            } else {
                a + 1
            };
            let b0 = if b < i {
                b
            } else {
                b + 1
            };
            assert(after.delegates[a] == c.delegates[a0]);
            assert(after.delegates[b] == c.delegates[b0]);
        }
    } else {
        assert forall|a: int| 0 <= a < after.delegates.len() implies (#[trigger] after.delegates[a]).wf()
            && !after.delegates[a].stopped && after.delegates[a].downstreams.len() > 0 by {
            if a != i {
                assert(after.delegates[a] == c.delegates[a]);
            }
        }
        assert forall|a: int, b: int| 0 <= a < b < after.delegates.len() implies after.delegates[a].region_id
            != after.delegates[b].region_id by {
            assert(after.delegates[a].region_id == c.delegates[a].region_id);
            assert(after.delegates[b].region_id == c.delegates[b].region_id);
        }
    }
}

proof fn lemma_tick_wf(c: CoordinatorModel, min_ts: u64)
    requires
        c.wf(),
    ensures
        c.on_min_ts(min_ts).0.wf(),
{
    let after = c.on_min_ts(min_ts).0;
    assert forall|a: int| 0 <= a < after.delegates.len() implies (#[trigger] after.delegates[a]).wf()
        && !after.delegates[a].stopped && after.delegates[a].downstreams.len() > 0 by {
        crate::cdc::delegate::law_a_delegate_stays_well_formed(c.delegates[a]);
        assert(c.delegates[a].wf());
    }
    assert forall|a: int, b: int| 0 <= a < b < after.delegates.len() implies after.delegates[a].region_id
        != after.delegates[b].region_id by {
        assert(after.delegates[a].region_id == c.delegates[a].region_id);
        assert(after.delegates[b].region_id == c.delegates[b].region_id);
    }
}

proof fn lemma_epoch_change_wf(c: CoordinatorModel, region_id: u64, epoch: Epoch)
    requires
        c.wf(),
    ensures
        c.on_epoch_change(region_id, epoch).0.wf(),
{
    if c.holds(region_id) {
        let i = c.slot(region_id);
        assert(c.is_at(i, region_id));
        let d = c.delegates[i];
        crate::cdc::delegate::law_a_delegate_stays_well_formed(d);
        if c.reload_on_merge {
            let d2 = d.reload(epoch).0;
            let after = c.on_epoch_change(region_id, epoch).0;
            assert forall|a: int| 0 <= a < after.delegates.len() implies (
            #[trigger] after.delegates[a]).wf() && !after.delegates[a].stopped
                && after.delegates[a].downstreams.len() > 0 by {
                if a != i {
                    assert(after.delegates[a] == c.delegates[a]);
                }
            }
            assert forall|a: int, b: int| 0 <= a < b < after.delegates.len() implies after.delegates[a].region_id
                != after.delegates[b].region_id by {
                assert(after.delegates[a].region_id == c.delegates[a].region_id);
                assert(after.delegates[b].region_id == c.delegates[b].region_id);
            }
        } else {
            lemma_stop_region_wf(c, region_id, RegionError::EpochNotMatch);
        }
    }
}

/// A coordinator stays well formed: whatever task a well-formed coordinator
/// handles, it is well formed afterwards. Every region has at most one
/// delegate, every delegate has a subscription and runs, every resolver
/// counts the locks that its delegate knows, and the cache keeps its budget.
pub proof fn law_a_coordinator_stays_well_formed(c: CoordinatorModel, task: TaskModel)
    requires
        c.wf(),
    ensures
        c.handle(task).0.wf(),
{
    match task {
        TaskModel::Register { region_id, epoch, conn_id, request_id, checkpoint_ts } => {
            let after = c.register(region_id, epoch, conn_id, request_id, checkpoint_ts);
            if c.holds(region_id) {
                let i = c.slot(region_id);
                assert(c.is_at(i, region_id));
                crate::cdc::delegate::law_a_delegate_stays_well_formed(c.delegates[i]);
                assert forall|a: int| 0 <= a < after.delegates.len() implies (
                #[trigger] after.delegates[a]).wf() && !after.delegates[a].stopped
                    && after.delegates[a].downstreams.len() > 0 by {
                    if a != i {
                        assert(after.delegates[a] == c.delegates[a]);
                    }
                }
                assert forall|a: int, b: int| 0 <= a < b < after.delegates.len() implies after.delegates[a].region_id
                    != after.delegates[b].region_id by {
                    assert(after.delegates[a].region_id == c.delegates[a].region_id);
                    assert(after.delegates[b].region_id == c.delegates[b].region_id);
                }
            } else {
                let fresh = DelegateModel::start(region_id, epoch);
                assert(fresh.locks.counted()) by {
                    broadcast use vstd::set::group_set_axioms, vstd::multiset::group_multiset_axioms;

                    assert forall|ts: u64|
                        fresh.locks.resolver.locks.count(ts) == #[trigger] crate::cdc::locks::keys_at(
                            fresh.locks.locked,
                            ts,
                        ).len() by {
                        assert(crate::cdc::locks::keys_at(fresh.locks.locked, ts) =~= Set::empty());
                    }
                }
                assert(fresh.wf());
                assert(!fresh.subscribed(conn_id, request_id));
                crate::cdc::delegate::law_a_delegate_stays_well_formed(fresh);
                let d2 = fresh.register(conn_id, request_id, checkpoint_ts, epoch);
                assert forall|a: int| 0 <= a < after.delegates.len() implies (
                #[trigger] after.delegates[a]).wf() && !after.delegates[a].stopped
                    && after.delegates[a].downstreams.len() > 0 by {
                    if a < c.delegates.len() {
                        assert(after.delegates[a] == c.delegates[a]);
                    }
                }
                assert forall|a: int, b: int| 0 <= a < b < after.delegates.len() implies after.delegates[a].region_id
                    != after.delegates[b].region_id by {
                    if b == c.delegates.len() {
                        assert(!c.is_at(a, region_id));
                    }
                }
            }
        },
        TaskModel::Deregister(reason) => match reason {
            Deregister::Downstream { region_id, conn_id, request_id } => {
                if c.holds(region_id) {
                    let i = c.slot(region_id);
                    assert(c.is_at(i, region_id));
                    crate::cdc::delegate::law_a_delegate_stays_well_formed(c.delegates[i]);
                    lemma_keep_wf(c, i, c.delegates[i].deregister(conn_id, request_id));
                }
            },
            Deregister::Conn { conn_id } => {
                lemma_disconnected(c.delegates, conn_id);
            },
            Deregister::RegionSplit { region_id } => {
                lemma_stop_region_wf(c, region_id, RegionError::EpochNotMatch);
            },
            Deregister::RegionDestroy { region_id } => {
                lemma_stop_region_wf(c, region_id, RegionError::RegionNotFound);
            },
            Deregister::LeaderChange { region_id } => {
                lemma_stop_region_wf(c, region_id, RegionError::NotLeader);
            },
            Deregister::RegionMerge { source, target, target_epoch } => {
                lemma_stop_region_wf(c, source, RegionError::RegionNotFound);
                lemma_epoch_change_wf(
                    c.stop_region(source, RegionError::RegionNotFound).0,
                    target,
                    target_epoch,
                );
            },
            Deregister::RollbackMerge { region_id, epoch } => {
                lemma_epoch_change_wf(c, region_id, epoch);
            },
        },
        TaskModel::ChangeLog { region_id, epoch, entries } => {
            if c.holds(region_id) {
                let i = c.slot(region_id);
                assert(c.is_at(i, region_id));
                let d = c.delegates[i];
                crate::cdc::delegate::law_a_delegate_stays_well_formed(d);
                lemma_cache_after(c.cache, entries);
                let filed = CoordinatorModel {
                    cache: if epoch == d.epoch {
                        cache_after(c.cache, entries)
                    } else {
                        c.cache
                    },
                    ..c
                };
                assert(filed.wf());
                lemma_keep_wf(filed, i, d.on_change_log(epoch, entries).0);
            }
        },
        TaskModel::Scan { scan, step } => {
            if c.holds(scan.region_id) {
                let i = c.slot(scan.region_id);
                assert(c.is_at(i, scan.region_id));
                crate::cdc::delegate::law_a_delegate_stays_well_formed(c.delegates[i]);
                lemma_keep_wf(
                    c,
                    i,
                    c.delegates[i].on_scan(scan.conn_id, scan.request_id, scan.epoch, step).0,
                );
            }
        },
        TaskModel::MinTsTick { min_ts } => {
            lemma_tick_wf(c, min_ts);
        },
        TaskModel::Validate(probe) => {},
    }
}

/// A coordinator stays well formed over any sequence of tasks.
pub proof fn law_a_run_stays_well_formed(c: CoordinatorModel, tasks: Seq<TaskModel>)
    requires
        c.wf(),
    ensures
        c.run(tasks).0.wf(),
    decreases tasks.len(),
{
    if tasks.len() > 0 {
        law_a_run_stays_well_formed(c, tasks.drop_last());
        law_a_coordinator_stays_well_formed(c.run(tasks.drop_last()).0, tasks.last());
    }
}

} // verus!
