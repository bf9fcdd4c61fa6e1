//! The history of a node: every message that a coordinator sends over a
//! whole sequence of tasks, and the order in which watermarks and markers
//! reach each subscription.

use crate::cdc::coordinator::{CoordinatorModel, Deregister, TaskModel, after_tick, disconnected, sent_by_tick};
use crate::cdc::delegate::{
    DelegateModel, after_change_log, after_resolved_ts, lemma_without_conn, sent_by_change_log,
    sent_by_fail, sent_by_resolved_ts, without_conn,
};
use crate::cdc::downstream::{DownstreamModel, lemma_on_change_log, lemma_on_scan, lemma_scan_tagged};
use crate::cdc::event::{Epoch, LogEntryModel, OutboundModel, RegionError, ScanRequest};
use crate::cdc::scanner::ScanStepModel;
use crate::cdc::stream::{Input, is_marker, is_watermark, lemma_apply_keeps_order, lemma_change_log_rows_only};
use vstd::prelude::*;

verus! {

/// The message carries the tags of subscription `s`.
pub open spec fn carries(s: DownstreamModel, m: OutboundModel) -> bool {
    m.region_id == s.region_id && m.conn_id == s.conn_id && m.request_id == s.request_id
}

/// The two messages belong to the same subscription.
pub open spec fn same_subscription(a: OutboundModel, b: OutboundModel) -> bool {
    a.region_id == b.region_id && a.conn_id == b.conn_id && a.request_id == b.request_id
}

/// Among the subscriptions `ds` one is initialized and carries the tags
/// (`region_id`, `conn_id`, `request_id`).
pub open spec fn initialized_in(ds: Seq<DownstreamModel>, region_id: u64, conn_id: u64, request_id: u64)
    -> bool {
    exists|b: int|
        0 <= b < ds.len() && (#[trigger] ds[b]).initialized && ds[b].region_id == region_id
            && ds[b].conn_id == conn_id && ds[b].request_id == request_id
}

/// Among the messages `o` one is the marker for the subscription with the
/// tags (`region_id`, `conn_id`, `request_id`).
pub open spec fn marker_in(o: Seq<OutboundModel>, region_id: u64, conn_id: u64, request_id: u64)
    -> bool {
    exists|i: int|
        0 <= i < o.len() && is_marker(#[trigger] o[i]) && o[i].region_id == region_id
            && o[i].conn_id == conn_id && o[i].request_id == request_id
}

/// One step of a delegate keeps watermarks behind markers: a watermark goes only to a
/// subscription that was initialized before the step, and a subscription
/// that is initialized after the step either was so before or is sent its
/// marker in the step.
pub open spec fn guarded_step(ds: Seq<DownstreamModel>, ds2: Seq<DownstreamModel>, o: Seq<OutboundModel>)
    -> bool {
    &&& forall|j: int|
        0 <= j < o.len() && is_watermark(#[trigger] o[j]) ==> initialized_in(
            ds,
            o[j].region_id,
            o[j].conn_id,
            o[j].request_id,
        )
    &&& forall|b: int|
        0 <= b < ds2.len() && (#[trigger] ds2[b]).initialized ==> initialized_in(
            ds,
            ds2[b].region_id,
            ds2[b].conn_id,
            ds2[b].request_id,
        ) || marker_in(o, ds2[b].region_id, ds2[b].conn_id, ds2[b].request_id)
}

proof fn lemma_change_log_guarded(ds: Seq<DownstreamModel>, entries: Seq<LogEntryModel>)
    ensures
        guarded_step(ds, after_change_log(ds, entries), sent_by_change_log(ds, entries)),
{
    lemma_change_log_no_watermark(ds, entries);
    let ds2 = after_change_log(ds, entries);
    assert forall|b: int| 0 <= b < ds2.len() && (#[trigger] ds2[b]).initialized implies initialized_in(
        ds,
        ds2[b].region_id,
        ds2[b].conn_id,
        ds2[b].request_id,
    ) by {
        lemma_on_change_log(ds[b], entries);
        assert(ds[b].initialized);
    }
}

/// No message carries a watermark.
pub open spec fn no_watermark(o: Seq<OutboundModel>) -> bool {
    forall|j: int| 0 <= j < o.len() ==> !is_watermark(#[trigger] o[j])
}

/// No message carries a watermark or is a marker.
pub open spec fn no_watermark_or_marker(o: Seq<OutboundModel>) -> bool {
    forall|j: int| 0 <= j < o.len() ==> !is_watermark(#[trigger] o[j]) && !is_marker(o[j])
}

proof fn lemma_change_log_no_watermark(ds: Seq<DownstreamModel>, entries: Seq<LogEntryModel>)
    ensures
        no_watermark(sent_by_change_log(ds, entries)),
    decreases ds.len(),
{
    if ds.len() > 0 {
        lemma_change_log_no_watermark(ds.drop_last(), entries);
        lemma_change_log_rows_only(ds.last(), entries);
        let before = sent_by_change_log(ds.drop_last(), entries);
        let last = ds.last().on_change_log(entries).1;
        let o = sent_by_change_log(ds, entries);
        assert forall|j: int| 0 <= j < o.len() implies !is_watermark(#[trigger] o[j]) by {
            if j < before.len() {
                assert(o[j] == before[j]);
            } else {
                assert(o[j] == last[j - before.len()]);
            }
        }
    }
}

proof fn lemma_fail_no_watermark(ds: Seq<DownstreamModel>, error: RegionError)
    ensures
        no_watermark_or_marker(sent_by_fail(ds, error)),
    decreases ds.len(),
{
    if ds.len() > 0 {
        lemma_fail_no_watermark(ds.drop_last(), error);
        let before = sent_by_fail(ds.drop_last(), error);
        let last = ds.last().fail(error).1;
        let o = sent_by_fail(ds, error);
        assert forall|j: int| 0 <= j < o.len() implies !is_watermark(#[trigger] o[j])
            && !is_marker(o[j]) by {
            if j < before.len() {
                assert(o[j] == before[j]);
            } else {
                assert(o[j] == last[j - before.len()]);
            }
        }
    }
}

/// Every message is a watermark for an initialized one of the subscriptions `ds`.
spec fn from_initialized(ds: Seq<DownstreamModel>, o: Seq<OutboundModel>) -> bool {
    forall|j: int|
        0 <= j < o.len() ==> initialized_in(
            ds,
            (#[trigger] o[j]).region_id,
            o[j].conn_id,
            o[j].request_id,
        ) && !is_marker(o[j])
}

proof fn lemma_resolved_ts_from_initialized(ds: Seq<DownstreamModel>, ts: u64)
    ensures
        from_initialized(ds, sent_by_resolved_ts(ds, ts)),
    decreases ds.len(),
{
    if ds.len() > 0 {
        let head = ds.drop_last();
        lemma_resolved_ts_from_initialized(head, ts);
        let o = sent_by_resolved_ts(ds, ts);
        let before = sent_by_resolved_ts(head, ts);
        let last = ds.last().on_resolved_ts(ts).1;
        assert forall|j: int| 0 <= j < o.len() implies initialized_in(
            ds,
            (#[trigger] o[j]).region_id,
            o[j].conn_id,
            o[j].request_id,
        ) && !is_marker(o[j]) by {
            if j < before.len() {
                assert(o[j] == before[j]);
                let b = choose|b: int|
                    0 <= b < head.len() && (#[trigger] head[b]).initialized && head[b].region_id
                        == before[j].region_id && head[b].conn_id == before[j].conn_id
                        && head[b].request_id == before[j].request_id;
                assert(ds[b] == head[b]);
            } else {
                assert(o[j] == last[j - before.len()]);
                assert(ds[ds.len() - 1] == ds.last());
                assert(ds.last().initialized);
            }
        }
    }
}

/// The subscriptions of a delegate after a step of the scan of subscription `i`.
spec fn after_scan(ds: Seq<DownstreamModel>, i: int, step: ScanStepModel) -> Seq<DownstreamModel> {
    if ds[i].on_scan(step).0.closed {
        ds.remove(i)
    } else {
        ds.update(i, ds[i].on_scan(step).0)
    }
}

proof fn lemma_scan_guarded(ds: Seq<DownstreamModel>, i: int, step: ScanStepModel)
    requires
        0 <= i < ds.len(),
    ensures
        guarded_step(ds, after_scan(ds, i, step), ds[i].on_scan(step).1),
{
    let s = ds[i];
    let next = s.on_scan(step);
    let ds2 = after_scan(ds, i, step);
    lemma_apply_keeps_order(s, Input::Scan(step));
    lemma_on_scan(s, step);
    lemma_scan_tagged(s, step);
    assert(s.apply(Input::Scan(step)) == next);
    assert forall|j: int| 0 <= j < next.1.len() && is_watermark(#[trigger] next.1[j]) implies initialized_in(
        ds,
        next.1[j].region_id,
        next.1[j].conn_id,
        next.1[j].request_id,
    ) by {
        assert(s.initialized);
        assert(ds[i].initialized);
    }
    assert forall|b: int| 0 <= b < ds2.len() && (#[trigger] ds2[b]).initialized implies initialized_in(
        ds,
        ds2[b].region_id,
        ds2[b].conn_id,
        ds2[b].request_id,
    ) || marker_in(next.1, ds2[b].region_id, ds2[b].conn_id, ds2[b].request_id) by {
        if next.0.closed {
            let b0 = if b < i {
                b
            } else {
                b + 1
            };
            assert(ds2[b] == ds[b0]);
        } else if b == i {
            if s.initialized {
                assert(ds[i].initialized);
            } else {
                let k = choose|k: int| 0 <= k < next.1.len() && is_marker(#[trigger] next.1[k]);
                assert(is_marker(next.1[k]));
            }
        } else {
            assert(ds2[b] == ds[b]);
        }
    }
}

proof fn lemma_part_guarded(ds: Seq<DownstreamModel>, ds2: Seq<DownstreamModel>)
    requires
        forall|b: int|
            0 <= b < ds2.len() && (#[trigger] ds2[b]).initialized ==> exists|a: int|
                0 <= a < ds.len() && ds[a] == ds2[b],
    ensures
        guarded_step(ds, ds2, Seq::empty()),
{
    assert forall|b: int| 0 <= b < ds2.len() && (#[trigger] ds2[b]).initialized implies initialized_in(
        ds,
        ds2[b].region_id,
        ds2[b].conn_id,
        ds2[b].request_id,
    ) by {
        let a = choose|a: int| 0 <= a < ds.len() && ds[a] == ds2[b];
        assert(ds[a].initialized);
    }
}


/// Some delegate holds an initialized subscription with the tags
/// (`region_id`, `conn_id`, `request_id`).
pub open spec fn live(ds: Seq<DelegateModel>, region_id: u64, conn_id: u64, request_id: u64) -> bool {
    exists|a: int|
        0 <= a < ds.len() && initialized_in(
            (#[trigger] ds[a]).downstreams,
            region_id,
            conn_id,
            request_id,
        )
}

/// One step of a coordinator keeps watermarks behind markers: a watermark goes only to a
/// subscription that was initialized before the step, and a subscription
/// that is initialized after the step either was so before or is sent its
/// marker in the step.
pub open spec fn guarded(ds: Seq<DelegateModel>, ds2: Seq<DelegateModel>, o: Seq<OutboundModel>) -> bool {
    &&& forall|j: int|
        0 <= j < o.len() && is_watermark(#[trigger] o[j]) ==> live(
            ds,
            o[j].region_id,
            o[j].conn_id,
            o[j].request_id,
        )
    &&& forall|region_id: u64, conn_id: u64, request_id: u64| #[trigger]
        live(ds2, region_id, conn_id, request_id) ==> live(ds, region_id, conn_id, request_id)
            || marker_in(o, region_id, conn_id, request_id)
}

proof fn lemma_guarded_same(ds: Seq<DelegateModel>)
    ensures
        guarded(ds, ds, Seq::empty()),
{
}

proof fn lemma_guarded_update(ds: Seq<DelegateModel>, i: int, d2: DelegateModel, o: Seq<OutboundModel>)
    requires
        0 <= i < ds.len(),
        guarded_step(ds[i].downstreams, d2.downstreams, o),
    ensures
        guarded(ds, ds.update(i, d2), o),
{
    let ds2 = ds.update(i, d2);
    assert forall|j: int| 0 <= j < o.len() && is_watermark(#[trigger] o[j]) implies live(
        ds,
        o[j].region_id,
        o[j].conn_id,
        o[j].request_id,
    ) by {
        assert(initialized_in(ds[i].downstreams, o[j].region_id, o[j].conn_id, o[j].request_id));
    }
    assert forall|region_id: u64, conn_id: u64, request_id: u64| #[trigger]
        live(ds2, region_id, conn_id, request_id) implies live(ds, region_id, conn_id, request_id)
        || marker_in(o, region_id, conn_id, request_id) by {
        let a = choose|a: int|
            0 <= a < ds2.len() && initialized_in(
                (#[trigger] ds2[a]).downstreams,
                region_id,
                conn_id,
                request_id,
            );
        if a == i {
            let b = choose|b: int|
                0 <= b < d2.downstreams.len() && (#[trigger] d2.downstreams[b]).initialized
                    && d2.downstreams[b].region_id == region_id && d2.downstreams[b].conn_id
                    == conn_id && d2.downstreams[b].request_id == request_id;
            assert(d2.downstreams[b].initialized);
            if initialized_in(ds[i].downstreams, region_id, conn_id, request_id) {
                assert(initialized_in(ds[i].downstreams, region_id, conn_id, request_id));
            }
        } else {
            assert(ds2[a] == ds[a]);
            assert(initialized_in(ds[a].downstreams, region_id, conn_id, request_id));
        }
    }
}

proof fn lemma_guarded_remove(ds: Seq<DelegateModel>, i: int, o: Seq<OutboundModel>)
    requires
        0 <= i < ds.len(),
        guarded_step(ds[i].downstreams, Seq::empty(), o),
    ensures
        guarded(ds, ds.remove(i), o),
{
    let ds2 = ds.remove(i);
    assert forall|j: int| 0 <= j < o.len() && is_watermark(#[trigger] o[j]) implies live(
        ds,
        o[j].region_id,
        o[j].conn_id,
        o[j].request_id,
    ) by {
        assert(initialized_in(ds[i].downstreams, o[j].region_id, o[j].conn_id, o[j].request_id));
    }
    assert forall|region_id: u64, conn_id: u64, request_id: u64| #[trigger]
        live(ds2, region_id, conn_id, request_id) implies live(ds, region_id, conn_id, request_id)
        || marker_in(o, region_id, conn_id, request_id) by {
        let a = choose|a: int|
            0 <= a < ds2.len() && initialized_in(
                (#[trigger] ds2[a]).downstreams,
                region_id,
                conn_id,
                request_id,
            );
        let a0 = if a < i {
            a
        } else {
            a + 1
        };
        assert(ds2[a] == ds[a0]);
        assert(initialized_in(ds[a0].downstreams, region_id, conn_id, request_id));
    }
}

proof fn lemma_guarded_keep(c: CoordinatorModel, i: int, d2: DelegateModel, o: Seq<OutboundModel>)
    requires
        0 <= i < c.delegates.len(),
        guarded_step(c.delegates[i].downstreams, d2.downstreams, o),
    ensures
        guarded(c.delegates, c.keep(i, d2), o),
{
    if d2.stopped || d2.downstreams.len() == 0 {
        lemma_guarded_remove(c.delegates, i, o);
    } else {
        lemma_guarded_update(c.delegates, i, d2, o);
    }
}

proof fn lemma_guarded_push(ds: Seq<DelegateModel>, d2: DelegateModel)
    requires
        forall|b: int| 0 <= b < d2.downstreams.len() ==> !(#[trigger] d2.downstreams[b]).initialized,
    ensures
        guarded(ds, ds.push(d2), Seq::empty()),
{
    let ds2 = ds.push(d2);
    assert forall|region_id: u64, conn_id: u64, request_id: u64| #[trigger]
        live(ds2, region_id, conn_id, request_id) implies live(
        ds,
        region_id,
        conn_id,
        request_id,
    ) by {
        let a = choose|a: int|
            0 <= a < ds2.len() && initialized_in(
                (#[trigger] ds2[a]).downstreams,
                region_id,
                conn_id,
                request_id,
            );
        if a < ds.len() {
            assert(ds2[a] == ds[a]);
            assert(initialized_in(ds[a].downstreams, region_id, conn_id, request_id));
        }
    }
}

/// Two steps, of which the second sends no watermark, keep watermarks
/// behind markers together.
proof fn lemma_guarded_then(
    ds: Seq<DelegateModel>,
    ds1: Seq<DelegateModel>,
    ds2: Seq<DelegateModel>,
    o1: Seq<OutboundModel>,
    o2: Seq<OutboundModel>,
)
    requires
        guarded(ds, ds1, o1),
        guarded(ds1, ds2, o2),
        no_watermark(o2),
    ensures
        guarded(ds, ds2, o1 + o2),
{
    let o = o1 + o2;
    assert forall|j: int| 0 <= j < o.len() && is_watermark(#[trigger] o[j]) implies live(
        ds,
        o[j].region_id,
        o[j].conn_id,
        o[j].request_id,
    ) by {
        if j < o1.len() {
            assert(o[j] == o1[j]);
        } else {
            assert(o[j] == o2[j - o1.len()]);
        }
    }
    assert forall|region_id: u64, conn_id: u64, request_id: u64| #[trigger]
        live(ds2, region_id, conn_id, request_id) implies live(ds, region_id, conn_id, request_id)
        || marker_in(o, region_id, conn_id, request_id) by {
        if live(ds1, region_id, conn_id, request_id) {
            if marker_in(o1, region_id, conn_id, request_id) {
                let i = choose|i: int|
                    0 <= i < o1.len() && is_marker(#[trigger] o1[i]) && o1[i].region_id
                        == region_id && o1[i].conn_id == conn_id && o1[i].request_id == request_id;
                assert(o[i] == o1[i]);
            }
        } else {
            let i = choose|i: int|
                0 <= i < o2.len() && is_marker(#[trigger] o2[i]) && o2[i].region_id == region_id
                    && o2[i].conn_id == conn_id && o2[i].request_id == request_id;
            assert(o[o1.len() + i] == o2[i]);
        }
    }
}


proof fn lemma_register_guarded(
    c: CoordinatorModel,
    region_id: u64,
    epoch: Epoch,
    conn_id: u64,
    request_id: u64,
    checkpoint_ts: u64,
)
    ensures
        guarded(
            c.delegates,
            c.register(region_id, epoch, conn_id, request_id, checkpoint_ts).delegates,
            Seq::empty(),
        ),
{
    if c.holds(region_id) {
        let i = c.slot(region_id);
        assert(c.is_at(i, region_id));
        let d = c.delegates[i];
        let d2 = d.register(conn_id, request_id, checkpoint_ts, epoch);
        assert forall|b: int|
            0 <= b < d2.downstreams.len() && (#[trigger] d2.downstreams[b]).initialized implies exists|
            a: int,
        |
            0 <= a < d.downstreams.len() && d.downstreams[a] == d2.downstreams[b] by {
            if b < d.downstreams.len() {
                assert(d.downstreams[b] == d2.downstreams[b]);
            }
        }
        lemma_part_guarded(d.downstreams, d2.downstreams);
        lemma_guarded_update(c.delegates, i, d2, Seq::empty());
    } else {
        let d2 = DelegateModel::start(region_id, epoch).register(
            conn_id,
            request_id,
            checkpoint_ts,
            epoch,
        );
        lemma_guarded_push(c.delegates, d2);
    }
}

proof fn lemma_deregister_guarded(c: CoordinatorModel, region_id: u64, conn_id: u64, request_id: u64)
    ensures
        guarded(c.delegates, c.deregister(region_id, conn_id, request_id).delegates, Seq::empty()),
{
    if c.holds(region_id) {
        let i = c.slot(region_id);
        assert(c.is_at(i, region_id));
        let d = c.delegates[i];
        let d2 = d.deregister(conn_id, request_id);
        if d.subscribed(conn_id, request_id) {
            let k = d.slot(conn_id, request_id);
            assert(d.is_at(k, conn_id, request_id));
            assert forall|b: int|
                0 <= b < d2.downstreams.len() && (#[trigger] d2.downstreams[b]).initialized implies exists|
                a: int,
            |
                0 <= a < d.downstreams.len() && d.downstreams[a] == d2.downstreams[b] by {
                let b0 = if b < k {
                    b
                } else {
                    b + 1
                };
                assert(d.downstreams[b0] == d2.downstreams[b]);
            }
        }
        lemma_part_guarded(d.downstreams, d2.downstreams);
        lemma_guarded_keep(c, i, d2, Seq::empty());
    } else {
        lemma_guarded_same(c.delegates);
    }
}

proof fn lemma_disconnect_guarded(ds: Seq<DelegateModel>, conn_id: u64)
    ensures
        guarded(ds, disconnected(ds, conn_id), Seq::empty()),
    decreases ds.len(),
{
    let ds2 = disconnected(ds, conn_id);
    if ds.len() > 0 {
        let head = ds.drop_last();
        let last = ds.last();
        lemma_disconnect_guarded(head, conn_id);
        let kept = disconnected(head, conn_id);
        lemma_without_conn(last.downstreams, conn_id);
        assert forall|region_id: u64, conn: u64, request_id: u64| #[trigger]
            live(ds2, region_id, conn, request_id) implies live(ds, region_id, conn, request_id) by {
            let a = choose|a: int|
                0 <= a < ds2.len() && initialized_in(
                    (#[trigger] ds2[a]).downstreams,
                    region_id,
                    conn,
                    request_id,
                );
            if a < kept.len() {
                assert(ds2[a] == kept[a]);
                assert(live(kept, region_id, conn, request_id));
                assert(live(head, region_id, conn, request_id));
                let a0 = choose|a0: int|
                    0 <= a0 < head.len() && initialized_in(
                        (#[trigger] head[a0]).downstreams,
                        region_id,
                        conn,
                        request_id,
                    );
                assert(head[a0] == ds[a0]);
                assert(initialized_in(ds[a0].downstreams, region_id, conn, request_id));
            } else {
                let left = without_conn(last.downstreams, conn_id);
                assert(ds2[a].downstreams == left);
                let b = choose|b: int|
                    0 <= b < left.len() && (#[trigger] left[b]).initialized && left[b].region_id
                        == region_id && left[b].conn_id == conn && left[b].request_id
                        == request_id;
                let b0 = choose|b0: int| b <= b0 < last.downstreams.len() && last.downstreams[b0] == left[b];
                assert(last.downstreams[b0].initialized);
                assert(ds[ds.len() - 1] == last);
                assert(initialized_in(
                    ds[ds.len() - 1].downstreams,
                    region_id,
                    conn,
                    request_id,
                ));
            }
        }
    }
}

proof fn lemma_stop_region_guarded(c: CoordinatorModel, region_id: u64, error: RegionError)
    ensures
        guarded(
            c.delegates,
            c.stop_region(region_id, error).0.delegates,
            c.stop_region(region_id, error).1,
        ),
        no_watermark(c.stop_region(region_id, error).1),
{
    if c.holds(region_id) {
        let i = c.slot(region_id);
        assert(c.is_at(i, region_id));
        lemma_fail_no_watermark(c.delegates[i].downstreams, error);
        lemma_guarded_remove(c.delegates, i, c.delegates[i].stop(error).1);
    } else {
        lemma_guarded_same(c.delegates);
    }
}

proof fn lemma_epoch_change_guarded(c: CoordinatorModel, region_id: u64, epoch: Epoch)
    ensures
        guarded(
            c.delegates,
            c.on_epoch_change(region_id, epoch).0.delegates,
            c.on_epoch_change(region_id, epoch).1,
        ),
        no_watermark(c.on_epoch_change(region_id, epoch).1),
{
    if !c.holds(region_id) {
        lemma_guarded_same(c.delegates);
    } else if c.reload_on_merge {
        let i = c.slot(region_id);
        assert(c.is_at(i, region_id));
        let d = c.delegates[i];
        let d2 = d.reload(epoch).0;
        assert forall|b: int|
            0 <= b < d2.downstreams.len() && (#[trigger] d2.downstreams[b]).initialized implies exists|
            a: int,
        |
            0 <= a < d.downstreams.len() && d.downstreams[a] == d2.downstreams[b] by {
            if d.stopped {
                assert(d.downstreams[b] == d2.downstreams[b]);
            }
        }
        lemma_part_guarded(d.downstreams, d2.downstreams);
        lemma_guarded_update(c.delegates, i, d2, Seq::empty());
    } else {
        lemma_stop_region_guarded(c, region_id, RegionError::EpochNotMatch);
    }
}

proof fn lemma_scan_step_guarded(c: CoordinatorModel, scan: ScanRequest, step: ScanStepModel)
    ensures
        guarded(c.delegates, c.on_scan(scan, step).0.delegates, c.on_scan(scan, step).1),
{
    if c.holds(scan.region_id) {
        let i = c.slot(scan.region_id);
        assert(c.is_at(i, scan.region_id));
        let d = c.delegates[i];
        let next = d.on_scan(scan.conn_id, scan.request_id, scan.epoch, step);
        if scan.epoch == d.epoch && d.subscribed(scan.conn_id, scan.request_id) {
            let k = d.slot(scan.conn_id, scan.request_id);
            assert(d.is_at(k, scan.conn_id, scan.request_id));
            lemma_scan_guarded(d.downstreams, k, step);
            assert(next.0.downstreams == after_scan(d.downstreams, k, step));
        } else {
            assert forall|b: int|
                0 <= b < next.0.downstreams.len() && (#[trigger] next.0.downstreams[b]).initialized implies exists|
                a: int,
            |
                0 <= a < d.downstreams.len() && d.downstreams[a] == next.0.downstreams[b] by {
                assert(d.downstreams[b] == next.0.downstreams[b]);
            }
            lemma_part_guarded(d.downstreams, next.0.downstreams);
        }
        lemma_guarded_keep(c, i, next.0, next.1);
    } else {
        lemma_guarded_same(c.delegates);
    }
}

proof fn lemma_change_log_step_guarded(
    c: CoordinatorModel,
    region_id: u64,
    epoch: Epoch,
    entries: Seq<LogEntryModel>,
)
    ensures
        guarded(
            c.delegates,
            c.on_change_log(region_id, epoch, entries).0.delegates,
            c.on_change_log(region_id, epoch, entries).1,
        ),
{
    if c.holds(region_id) {
        let i = c.slot(region_id);
        assert(c.is_at(i, region_id));
        let d = c.delegates[i];
        let next = d.on_change_log(epoch, entries);
        if d.stopped {
            assert forall|b: int|
                0 <= b < next.0.downstreams.len() && (#[trigger] next.0.downstreams[b]).initialized implies exists|
                a: int,
            |
                0 <= a < d.downstreams.len() && d.downstreams[a] == next.0.downstreams[b] by {
                assert(d.downstreams[b] == next.0.downstreams[b]);
            }
            lemma_part_guarded(d.downstreams, next.0.downstreams);
        } else if epoch != d.epoch {
            lemma_fail_no_watermark(d.downstreams, RegionError::EpochNotMatch);
        } else {
            lemma_change_log_guarded(d.downstreams, entries);
        }
        lemma_guarded_keep(c, i, next.0, next.1);
    } else {
        lemma_guarded_same(c.delegates);
    }
}

/// Every message is a watermark for an initialized subscription of one of
/// the delegates.
spec fn from_live(ds: Seq<DelegateModel>, o: Seq<OutboundModel>) -> bool {
    forall|j: int|
        0 <= j < o.len() ==> live(ds, (#[trigger] o[j]).region_id, o[j].conn_id, o[j].request_id)
}

proof fn lemma_tick_from_live(ds: Seq<DelegateModel>, min_ts: u64)
    ensures
        from_live(ds, sent_by_tick(ds, min_ts)),
    decreases ds.len(),
{
    if ds.len() > 0 {
        let head = ds.drop_last();
        let last = ds.last();
        lemma_tick_from_live(head, min_ts);
        let before = sent_by_tick(head, min_ts);
        let tail = last.on_min_ts(min_ts).1;
        let o = sent_by_tick(ds, min_ts);
        if !last.stopped {
            lemma_resolved_ts_from_initialized(
                last.downstreams,
                last.locks.resolver.watermark(min_ts),
            );
        }
        assert forall|j: int| 0 <= j < o.len() implies live(
            ds,
            (#[trigger] o[j]).region_id,
            o[j].conn_id,
            o[j].request_id,
        ) by {
            if j < before.len() {
                assert(o[j] == before[j]);
                assert(live(head, before[j].region_id, before[j].conn_id, before[j].request_id));
                let a = choose|a: int|
                    0 <= a < head.len() && initialized_in(
                        (#[trigger] head[a]).downstreams,
                        o[j].region_id,
                        o[j].conn_id,
                        o[j].request_id,
                    );
                assert(head[a] == ds[a]);
                assert(initialized_in(
                    ds[a].downstreams,
                    o[j].region_id,
                    o[j].conn_id,
                    o[j].request_id,
                ));
            } else {
                assert(o[j] == tail[j - before.len()]);
                assert(ds[ds.len() - 1] == last);
                assert(initialized_in(
                    ds[ds.len() - 1].downstreams,
                    o[j].region_id,
                    o[j].conn_id,
                    o[j].request_id,
                ));
            }
        }
    }
}

proof fn lemma_tick_guarded(ds: Seq<DelegateModel>, min_ts: u64)
    ensures
        guarded(ds, after_tick(ds, min_ts), sent_by_tick(ds, min_ts)),
{
    lemma_tick_from_live(ds, min_ts);
    let ds2 = after_tick(ds, min_ts);
    assert forall|region_id: u64, conn_id: u64, request_id: u64| #[trigger]
        live(ds2, region_id, conn_id, request_id) implies live(
        ds,
        region_id,
        conn_id,
        request_id,
    ) by {
        let a = choose|a: int|
            0 <= a < ds2.len() && initialized_in(
                (#[trigger] ds2[a]).downstreams,
                region_id,
                conn_id,
                request_id,
            );
        let d = ds[a];
        let left = ds2[a].downstreams;
        let b = choose|b: int|
            0 <= b < left.len() && (#[trigger] left[b]).initialized && left[b].region_id
                == region_id && left[b].conn_id == conn_id && left[b].request_id == request_id;
        assert(d.downstreams[b].initialized);
        assert(initialized_in(ds[a].downstreams, region_id, conn_id, request_id));
    }
}

/// Handling one task keeps watermarks behind markers.
pub proof fn lemma_handle_guarded(c: CoordinatorModel, task: TaskModel)
    ensures
        guarded(c.delegates, c.handle(task).0.delegates, c.handle(task).1),
{
    match task {
        TaskModel::Register { region_id, epoch, conn_id, request_id, checkpoint_ts } => {
            lemma_register_guarded(c, region_id, epoch, conn_id, request_id, checkpoint_ts);
        },
        TaskModel::Deregister(reason) => match reason {
            Deregister::Downstream { region_id, conn_id, request_id } => {
                lemma_deregister_guarded(c, region_id, conn_id, request_id);
            },
            Deregister::Conn { conn_id } => {
                lemma_disconnect_guarded(c.delegates, conn_id);
            },
            Deregister::RegionSplit { region_id } => {
                lemma_stop_region_guarded(c, region_id, RegionError::EpochNotMatch);
            },
            Deregister::RegionDestroy { region_id } => {
                lemma_stop_region_guarded(c, region_id, RegionError::RegionNotFound);
            },
            Deregister::LeaderChange { region_id } => {
                lemma_stop_region_guarded(c, region_id, RegionError::NotLeader);
            },
            Deregister::RegionMerge { source, target, target_epoch } => {
                let first = c.stop_region(source, RegionError::RegionNotFound);
                let second = first.0.on_epoch_change(target, target_epoch);
                lemma_stop_region_guarded(c, source, RegionError::RegionNotFound);
                lemma_epoch_change_guarded(first.0, target, target_epoch);
                lemma_guarded_then(
                    c.delegates,
                    first.0.delegates,
                    second.0.delegates,
                    first.1,
                    second.1,
                );
            },
            Deregister::RollbackMerge { region_id, epoch } => {
                lemma_epoch_change_guarded(c, region_id, epoch);
            },
        },
        TaskModel::ChangeLog { region_id, epoch, entries } => {
            lemma_change_log_step_guarded(c, region_id, epoch, entries);
        },
        TaskModel::Scan { scan, step } => {
            lemma_scan_step_guarded(c, scan, step);
        },
        TaskModel::MinTsTick { min_ts } => {
            lemma_tick_guarded(c.delegates, min_ts);
        },
        TaskModel::Validate(probe) => {
            lemma_guarded_same(c.delegates);
        },
    }
}

/// In the history `out` every watermark comes after the marker of its
/// subscription, unless the subscription was initialized among `ds` to
/// begin with.
pub open spec fn follows_markers_from(ds: Seq<DelegateModel>, out: Seq<OutboundModel>) -> bool {
    forall|j: int|
        0 <= j < out.len() && is_watermark(#[trigger] out[j]) ==> live(
            ds,
            out[j].region_id,
            out[j].conn_id,
            out[j].request_id,
        ) || exists|i: int| 0 <= i < j && is_marker(out[i]) && same_subscription(out[i], out[j])
}

proof fn lemma_run_guarded(c: CoordinatorModel, tasks: Seq<TaskModel>)
    ensures
        follows_markers_from(c.delegates, c.run(tasks).1),
        forall|region_id: u64, conn_id: u64, request_id: u64| #[trigger]
            live(c.run(tasks).0.delegates, region_id, conn_id, request_id) ==> live(
                c.delegates,
                region_id,
                conn_id,
                request_id,
            ) || marker_in(c.run(tasks).1, region_id, conn_id, request_id),
    decreases tasks.len(),
{
    if tasks.len() > 0 {
        lemma_run_guarded(c, tasks.drop_last());
        let before = c.run(tasks.drop_last());
        let last = before.0.handle(tasks.last());
        lemma_handle_guarded(before.0, tasks.last());
        let out = c.run(tasks).1;
        assert(out == before.1 + last.1);
        assert forall|j: int| 0 <= j < out.len() && is_watermark(#[trigger] out[j]) implies live(
            c.delegates,
            out[j].region_id,
            out[j].conn_id,
            out[j].request_id,
        ) || exists|i: int| 0 <= i < j && is_marker(out[i]) && same_subscription(out[i], out[j]) by {
            if j < before.1.len() {
                assert(out[j] == before.1[j]);
                if !live(c.delegates, out[j].region_id, out[j].conn_id, out[j].request_id) {
                    let i = choose|i: int|
                        0 <= i < j && is_marker(before.1[i]) && same_subscription(
                            before.1[i],
                            before.1[j],
                        );
                    assert(out[i] == before.1[i]);
                }
            } else {
                let m = last.1[j - before.1.len()];
                assert(out[j] == m);
                assert(live(before.0.delegates, m.region_id, m.conn_id, m.request_id));
                if !live(c.delegates, m.region_id, m.conn_id, m.request_id) {
                    assert(marker_in(before.1, m.region_id, m.conn_id, m.request_id));
                    let i = choose|i: int|
                        0 <= i < before.1.len() && is_marker(#[trigger] before.1[i])
                            && before.1[i].region_id == m.region_id && before.1[i].conn_id
                            == m.conn_id && before.1[i].request_id == m.request_id;
                    assert(out[i] == before.1[i]);
                }
            }
        }
        assert forall|region_id: u64, conn_id: u64, request_id: u64| #[trigger]
            live(last.0.delegates, region_id, conn_id, request_id) implies live(
            c.delegates,
            region_id,
            conn_id,
            request_id,
        ) || marker_in(out, region_id, conn_id, request_id) by {
            if live(before.0.delegates, region_id, conn_id, request_id) {
                if marker_in(before.1, region_id, conn_id, request_id) {
                    let i = choose|i: int|
                        0 <= i < before.1.len() && is_marker(#[trigger] before.1[i])
                            && before.1[i].region_id == region_id && before.1[i].conn_id
                            == conn_id && before.1[i].request_id == request_id;
                    assert(out[i] == before.1[i]);
                }
            } else {
                let i = choose|i: int|
                    0 <= i < last.1.len() && is_marker(#[trigger] last.1[i]) && last.1[i].region_id
                        == region_id && last.1[i].conn_id == conn_id && last.1[i].request_id
                        == request_id;
                assert(out[before.1.len() + i] == last.1[i]);
            }
        }
    }
}

/// No watermark before the marker, on a whole node: whatever tasks a
/// coordinator handles, starting without an initialized subscription, every
/// watermark that it sends to a subscription comes after an `Initialized`
/// marker sent to the same subscription.
pub proof fn law_no_watermark_before_the_marker(c: CoordinatorModel, tasks: Seq<TaskModel>)
    requires
        forall|region_id: u64, conn_id: u64, request_id: u64|
            !live(c.delegates, region_id, conn_id, request_id),
    ensures
        forall|j: int|
            0 <= j < c.run(tasks).1.len() && is_watermark(#[trigger] c.run(tasks).1[j])
                ==> exists|i: int|
                0 <= i < j && is_marker(c.run(tasks).1[i]) && same_subscription(
                    c.run(tasks).1[i],
                    c.run(tasks).1[j],
                ),
{
    lemma_run_guarded(c, tasks);
    let out = c.run(tasks).1;
    assert forall|j: int| 0 <= j < out.len() && is_watermark(#[trigger] out[j]) implies exists|
        i: int,
    |
        0 <= i < j && is_marker(out[i]) && same_subscription(out[i], out[j]) by {
        assert(!live(c.delegates, out[j].region_id, out[j].conn_id, out[j].request_id));
    }
}


/// Among the subscriptions `ds` one carries the tags (`region_id`,
/// `conn_id`, `request_id`).
pub open spec fn subscribed_in(ds: Seq<DownstreamModel>, region_id: u64, conn_id: u64, request_id: u64)
    -> bool {
    exists|b: int|
        0 <= b < ds.len() && (#[trigger] ds[b]).region_id == region_id && ds[b].conn_id == conn_id
            && ds[b].request_id == request_id
}

/// Some delegate holds a subscription with the tags (`region_id`,
/// `conn_id`, `request_id`).
pub open spec fn held(ds: Seq<DelegateModel>, region_id: u64, conn_id: u64, request_id: u64) -> bool {
    exists|a: int|
        0 <= a < ds.len() && subscribed_in(
            (#[trigger] ds[a]).downstreams,
            region_id,
            conn_id,
            request_id,
        )
}

/// Every message carries the tags of one of the subscriptions `ds`.
pub open spec fn addressed_within(ds: Seq<DownstreamModel>, o: Seq<OutboundModel>) -> bool {
    forall|j: int|
        0 <= j < o.len() ==> subscribed_in(
            ds,
            (#[trigger] o[j]).region_id,
            o[j].conn_id,
            o[j].request_id,
        )
}

/// Every message carries the tags of a subscription that one of the
/// delegates `ds` holds.
pub open spec fn addressed(ds: Seq<DelegateModel>, o: Seq<OutboundModel>) -> bool {
    forall|j: int|
        0 <= j < o.len() ==> held(ds, (#[trigger] o[j]).region_id, o[j].conn_id, o[j].request_id)
}

proof fn lemma_tagged_addressed(ds: Seq<DownstreamModel>, b: int, o: Seq<OutboundModel>)
    requires
        0 <= b < ds.len(),
        crate::cdc::downstream::tagged(ds[b], o),
    ensures
        addressed_within(ds, o),
{
    assert forall|j: int| 0 <= j < o.len() implies subscribed_in(
        ds,
        (#[trigger] o[j]).region_id,
        o[j].conn_id,
        o[j].request_id,
    ) by {
        assert(ds[b].region_id == o[j].region_id);
    }
}

proof fn lemma_addressed_within_add(
    ds: Seq<DownstreamModel>,
    head: Seq<DownstreamModel>,
    a: Seq<OutboundModel>,
    b: Seq<OutboundModel>,
)
    requires
        head == ds.drop_last(),
        ds.len() > 0,
        addressed_within(head, a),
        addressed_within(ds, b),
    ensures
        addressed_within(ds, a + b),
{
    let o = a + b;
    assert forall|j: int| 0 <= j < o.len() implies subscribed_in(
        ds,
        (#[trigger] o[j]).region_id,
        o[j].conn_id,
        o[j].request_id,
    ) by {
        if j < a.len() {
            assert(o[j] == a[j]);
            let k = choose|k: int|
                0 <= k < head.len() && (#[trigger] head[k]).region_id == a[j].region_id
                    && head[k].conn_id == a[j].conn_id && head[k].request_id == a[j].request_id;
            assert(ds[k] == head[k]);
        } else {
            assert(o[j] == b[j - a.len()]);
        }
    }
}

proof fn lemma_change_log_addressed(ds: Seq<DownstreamModel>, entries: Seq<LogEntryModel>)
    ensures
        addressed_within(ds, sent_by_change_log(ds, entries)),
    decreases ds.len(),
{
    if ds.len() > 0 {
        lemma_change_log_addressed(ds.drop_last(), entries);
        crate::cdc::downstream::lemma_change_log_tagged(ds.last(), entries);
        lemma_tagged_addressed(ds, ds.len() - 1, ds.last().on_change_log(entries).1);
        lemma_addressed_within_add(
            ds,
            ds.drop_last(),
            sent_by_change_log(ds.drop_last(), entries),
            ds.last().on_change_log(entries).1,
        );
    }
}

proof fn lemma_fail_addressed(ds: Seq<DownstreamModel>, error: RegionError)
    ensures
        addressed_within(ds, sent_by_fail(ds, error)),
    decreases ds.len(),
{
    if ds.len() > 0 {
        lemma_fail_addressed(ds.drop_last(), error);
        lemma_tagged_addressed(ds, ds.len() - 1, ds.last().fail(error).1);
        lemma_addressed_within_add(
            ds,
            ds.drop_last(),
            sent_by_fail(ds.drop_last(), error),
            ds.last().fail(error).1,
        );
    }
}

proof fn lemma_resolved_ts_addressed(ds: Seq<DownstreamModel>, ts: u64)
    ensures
        addressed_within(ds, sent_by_resolved_ts(ds, ts)),
    decreases ds.len(),
{
    if ds.len() > 0 {
        lemma_resolved_ts_addressed(ds.drop_last(), ts);
        lemma_tagged_addressed(ds, ds.len() - 1, ds.last().on_resolved_ts(ts).1);
        lemma_addressed_within_add(
            ds,
            ds.drop_last(),
            sent_by_resolved_ts(ds.drop_last(), ts),
            ds.last().on_resolved_ts(ts).1,
        );
    }
}

/// What a delegate sends carries the tags of its own subscriptions.
proof fn lemma_delegate_addressed(d: DelegateModel)
    ensures
        forall|epoch: Epoch, entries: Seq<LogEntryModel>| #[trigger]
            addressed_within(d.downstreams, d.on_change_log(epoch, entries).1),
        forall|conn_id: u64, request_id: u64, epoch: Epoch, step: ScanStepModel| #[trigger]
            addressed_within(d.downstreams, d.on_scan(conn_id, request_id, epoch, step).1),
        forall|min_ts_hint: u64| #[trigger]
            addressed_within(d.downstreams, d.on_min_ts(min_ts_hint).1),
        forall|error: RegionError| #[trigger] addressed_within(d.downstreams, d.stop(error).1),
{
    assert forall|epoch: Epoch, entries: Seq<LogEntryModel>| #[trigger]
        addressed_within(d.downstreams, d.on_change_log(epoch, entries).1) by {
        lemma_change_log_addressed(d.downstreams, entries);
        lemma_fail_addressed(d.downstreams, RegionError::EpochNotMatch);
    }
    assert forall|conn_id: u64, request_id: u64, epoch: Epoch, step: ScanStepModel| #[trigger]
        addressed_within(d.downstreams, d.on_scan(conn_id, request_id, epoch, step).1) by {
        if epoch == d.epoch && d.subscribed(conn_id, request_id) {
            let i = d.slot(conn_id, request_id);
            assert(d.is_at(i, conn_id, request_id));
            lemma_scan_tagged(d.downstreams[i], step);
            lemma_tagged_addressed(d.downstreams, i, d.downstreams[i].on_scan(step).1);
        }
    }
    assert forall|min_ts_hint: u64| #[trigger]
        addressed_within(d.downstreams, d.on_min_ts(min_ts_hint).1) by {
        lemma_resolved_ts_addressed(d.downstreams, d.locks.resolver.watermark(min_ts_hint));
    }
    assert forall|error: RegionError| #[trigger]
        addressed_within(d.downstreams, d.stop(error).1) by {
        lemma_fail_addressed(d.downstreams, error);
    }
}

proof fn lemma_lift_addressed(ds: Seq<DelegateModel>, i: int, o: Seq<OutboundModel>)
    requires
        0 <= i < ds.len(),
        addressed_within(ds[i].downstreams, o),
    ensures
        addressed(ds, o),
{
    assert forall|j: int| 0 <= j < o.len() implies held(
        ds,
        (#[trigger] o[j]).region_id,
        o[j].conn_id,
        o[j].request_id,
    ) by {
        assert(subscribed_in(ds[i].downstreams, o[j].region_id, o[j].conn_id, o[j].request_id));
    }
}

proof fn lemma_tick_addressed(ds: Seq<DelegateModel>, min_ts: u64)
    ensures
        addressed(ds, sent_by_tick(ds, min_ts)),
    decreases ds.len(),
{
    if ds.len() > 0 {
        let head = ds.drop_last();
        let last = ds.last();
        lemma_tick_addressed(head, min_ts);
        lemma_delegate_addressed(last);
        let before = sent_by_tick(head, min_ts);
        let tail = last.on_min_ts(min_ts).1;
        let o = sent_by_tick(ds, min_ts);
        assert(addressed_within(last.downstreams, tail));
        assert forall|j: int| 0 <= j < o.len() implies held(
            ds,
            (#[trigger] o[j]).region_id,
            o[j].conn_id,
            o[j].request_id,
        ) by {
            if j < before.len() {
                assert(o[j] == before[j]);
                let a = choose|a: int|
                    0 <= a < head.len() && subscribed_in(
                        (#[trigger] head[a]).downstreams,
                        o[j].region_id,
                        o[j].conn_id,
                        o[j].request_id,
                    );
                assert(head[a] == ds[a]);
                assert(subscribed_in(
                    ds[a].downstreams,
                    o[j].region_id,
                    o[j].conn_id,
                    o[j].request_id,
                ));
            } else {
                assert(o[j] == tail[j - before.len()]);
                assert(ds[ds.len() - 1] == last);
                assert(subscribed_in(
                    ds[ds.len() - 1].downstreams,
                    o[j].region_id,
                    o[j].conn_id,
                    o[j].request_id,
                ));
            }
        }
    }
}

/// Stopping a region sends to the subscribers of that region, as they were.
proof fn lemma_stop_region_addressed(c: CoordinatorModel, region_id: u64, error: RegionError)
    ensures
        addressed(c.delegates, c.stop_region(region_id, error).1),
        forall|r: u64, conn_id: u64, request_id: u64| #[trigger]
            held(c.stop_region(region_id, error).0.delegates, r, conn_id, request_id) ==> held(
                c.delegates,
                r,
                conn_id,
                request_id,
            ),
{
    if c.holds(region_id) {
        let i = c.slot(region_id);
        assert(c.is_at(i, region_id));
        lemma_delegate_addressed(c.delegates[i]);
        lemma_lift_addressed(c.delegates, i, c.delegates[i].stop(error).1);
        let ds2 = c.stop_region(region_id, error).0.delegates;
        assert forall|r: u64, conn_id: u64, request_id: u64| #[trigger]
            held(ds2, r, conn_id, request_id) implies held(c.delegates, r, conn_id, request_id) by {
            let a = choose|a: int|
                0 <= a < ds2.len() && subscribed_in(
                    (#[trigger] ds2[a]).downstreams,
                    r,
                    conn_id,
                    request_id,
                );
            let a0 = if a < i {
                a
            } else {
                a + 1
            };
            assert(ds2[a] == c.delegates[a0]);
            assert(subscribed_in(c.delegates[a0].downstreams, r, conn_id, request_id));
        }
    }
}

proof fn lemma_epoch_change_addressed(c: CoordinatorModel, region_id: u64, epoch: Epoch)
    ensures
        addressed(c.delegates, c.on_epoch_change(region_id, epoch).1),
{
    if c.holds(region_id) && !c.reload_on_merge {
        lemma_stop_region_addressed(c, region_id, RegionError::EpochNotMatch);
    }
}

/// Messages go to subscribers: whatever a task makes a coordinator send
/// carries the tags of a subscription that the coordinator held when it
/// took the task. Nothing is sent under tags that nobody subscribed with,
/// and nothing meant for one request is tagged with another.
pub proof fn law_messages_go_to_subscribers(c: CoordinatorModel, task: TaskModel)
    ensures
        addressed(c.delegates, c.handle(task).1),
{
    match task {
        TaskModel::Deregister(reason) => match reason {
            Deregister::RegionSplit { region_id } => {
                lemma_stop_region_addressed(c, region_id, RegionError::EpochNotMatch);
            },
            Deregister::RegionDestroy { region_id } => {
                lemma_stop_region_addressed(c, region_id, RegionError::RegionNotFound);
            },
            Deregister::LeaderChange { region_id } => {
                lemma_stop_region_addressed(c, region_id, RegionError::NotLeader);
            },
            Deregister::RegionMerge { source, target, target_epoch } => {
                let first = c.stop_region(source, RegionError::RegionNotFound);
                let second = first.0.on_epoch_change(target, target_epoch);
                lemma_stop_region_addressed(c, source, RegionError::RegionNotFound);
                lemma_epoch_change_addressed(first.0, target, target_epoch);
                let o = first.1 + second.1;
                assert forall|j: int| 0 <= j < o.len() implies held(
                    c.delegates,
                    (#[trigger] o[j]).region_id,
                    o[j].conn_id,
                    o[j].request_id,
                ) by {
                    if j < first.1.len() {
                        assert(o[j] == first.1[j]);
                    } else {
                        let m = second.1[j - first.1.len()];
                        assert(o[j] == m);
                        assert(held(first.0.delegates, m.region_id, m.conn_id, m.request_id));
                    }
                }
            },
            Deregister::RollbackMerge { region_id, epoch } => {
                lemma_epoch_change_addressed(c, region_id, epoch);
            },
            _ => {},
        },
        TaskModel::ChangeLog { region_id, epoch, entries } => {
            if c.holds(region_id) {
                let i = c.slot(region_id);
                assert(c.is_at(i, region_id));
                lemma_delegate_addressed(c.delegates[i]);
                lemma_lift_addressed(
                    c.delegates,
                    i,
                    c.delegates[i].on_change_log(epoch, entries).1,
                );
            }
        },
        TaskModel::Scan { scan, step } => {
            if c.holds(scan.region_id) {
                let i = c.slot(scan.region_id);
                assert(c.is_at(i, scan.region_id));
                lemma_delegate_addressed(c.delegates[i]);
                lemma_lift_addressed(
                    c.delegates,
                    i,
                    c.delegates[i].on_scan(scan.conn_id, scan.request_id, scan.epoch, step).1,
                );
            }
        },
        TaskModel::MinTsTick { min_ts } => {
            lemma_tick_addressed(c.delegates, min_ts);
        },
        _ => {},
    }
}

} // verus!
