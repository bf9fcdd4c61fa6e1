//! The vocabulary shared by every component: region identity, the entries
//! that come in from replication and storage, and the messages that go out
//! to subscribers.

use crate::cdc::bytes::clone_bytes;
use vstd::prelude::*;

verus! {

/// A region's topology version. It changes on split, merge and membership
/// change, and a change invalidates the scans and subscriptions tied to the
/// old value.
#[derive(Clone, Copy, Debug, PartialEq, Eq, Structural)]
pub struct Epoch {
    pub version: u64,
    pub conf_ver: u64,
}

/// A scan to start: of `region_id` under `epoch`, for the subscription of
/// `request_id` on connection `conn_id`, from the snapshot at `checkpoint_ts`.
#[derive(Clone, Copy, Debug, PartialEq, Eq, Structural)]
pub struct ScanRequest {
    pub region_id: u64,
    pub epoch: Epoch,
    pub conn_id: u64,
    pub request_id: u64,
    pub checkpoint_ts: u64,
}

/// The kind of an outbound record.
#[derive(Clone, Copy, Debug, PartialEq, Eq, Structural)]
pub enum EventKind {
    /// A key is locked by a transaction that has not committed yet.
    Prewrite,
    /// The transaction that prewrote the key committed.
    Commit,
    /// A version that a scan found committed.
    Committed,
    /// The transaction that prewrote the key rolled back.
    Rollback,
    /// The marker that ends the output of a scan.
    Initialized,
    /// A record that reports a failure. The core sends none of this kind:
    /// it ends a subscription with an error message instead.
    Error,
}

/// The kind of a live entry delivered by the replication layer.
#[derive(Clone, Copy, Debug, PartialEq, Eq, Structural)]
pub enum LogKind {
    Prewrite,
    Commit,
    Rollback,
}

/// A regional error: terminal for the subscriptions it is sent to.
#[derive(Clone, Copy, Debug, PartialEq, Eq, Structural)]
pub enum RegionError {
    /// The region is gone, or its scan could not read it.
    RegionNotFound,
    /// The region goes on under another epoch than the subscription's.
    EpochNotMatch,
    /// The node no longer leads the region.
    NotLeader,
}

/// One row-level record as a subscriber sees it.
#[derive(Clone, Debug, PartialEq, Eq)]
pub struct EventRow {
    pub kind: EventKind,
    pub key: Vec<u8>,
    pub value: Vec<u8>,
    pub start_ts: u64,
    pub commit_ts: u64,
    pub generation: u64,
}

/// What a record is, mathematically.
pub struct RowModel {
    pub kind: EventKind,
    pub key: Seq<u8>,
    pub value: Seq<u8>,
    pub start_ts: u64,
    pub commit_ts: u64,
    pub generation: u64,
}

impl View for EventRow {
    type V = RowModel;

    open spec fn view(&self) -> RowModel {
        RowModel {
            kind: self.kind,
            key: self.key@,
            value: self.value@,
            start_ts: self.start_ts,
            commit_ts: self.commit_ts,
            generation: self.generation,
        }
    }
}

impl RowModel {
    /// The marker that ends a scan's output.
    pub open spec fn initialized() -> RowModel {
        RowModel {
            kind: EventKind::Initialized,
            key: Seq::empty(),
            value: Seq::empty(),
            start_ts: 0,
            commit_ts: 0,
            generation: 0,
        }
    }
}

impl EventRow {
    /// The marker that ends a scan's output.
    pub fn initialized() -> (row: EventRow)
        ensures
            row@ == RowModel::initialized(),
    {
        EventRow {
            kind: EventKind::Initialized,
            key: Vec::new(),
            value: Vec::new(),
            start_ts: 0,
            commit_ts: 0,
            generation: 0,
        }
    }

    /// A copy with the same content.
    pub fn duplicate(&self) -> (row: EventRow)
        ensures
            row@ == self@,
    {
        EventRow {
            kind: self.kind,
            key: clone_bytes(&self.key),
            value: clone_bytes(&self.value),
            start_ts: self.start_ts,
            commit_ts: self.commit_ts,
            generation: self.generation,
        }
    }
}

/// One live entry from the replication layer: a prewrite, or the commit or
/// rollback that ends it.
#[derive(Clone, Debug, PartialEq, Eq)]
pub struct LogEntry {
    pub kind: LogKind,
    pub key: Vec<u8>,
    pub value: Vec<u8>,
    pub start_ts: u64,
    pub commit_ts: u64,
    pub generation: u64,
    /// For a prewrite, the value that it overwrites; empty when the key had none.
    pub old_value: Vec<u8>,
}

/// What a live entry is, mathematically.
pub struct LogEntryModel {
    pub kind: LogKind,
    pub key: Seq<u8>,
    pub value: Seq<u8>,
    pub start_ts: u64,
    pub commit_ts: u64,
    pub generation: u64,
    pub old_value: Seq<u8>,
}

impl View for LogEntry {
    type V = LogEntryModel;

    open spec fn view(&self) -> LogEntryModel {
        LogEntryModel {
            kind: self.kind,
            key: self.key@,
            value: self.value@,
            start_ts: self.start_ts,
            commit_ts: self.commit_ts,
            generation: self.generation,
            old_value: self.old_value@,
        }
    }
}

impl LogEntryModel {
    /// The record that stands for this entry in a subscriber's stream.
    pub open spec fn row(self) -> RowModel {
        RowModel {
            kind: match self.kind {
                LogKind::Prewrite => EventKind::Prewrite,
                LogKind::Commit => EventKind::Commit,
                LogKind::Rollback => EventKind::Rollback,
            },
            key: self.key,
            value: self.value,
            start_ts: self.start_ts,
            commit_ts: self.commit_ts,
            generation: self.generation,
        }
    }
}

impl LogEntry {
    /// The record that stands for this entry in a subscriber's stream.
    pub fn to_row(&self) -> (row: EventRow)
        ensures
            row@ == self@.row(),
    {
        let kind = match self.kind {
            LogKind::Prewrite => EventKind::Prewrite,
            LogKind::Commit => EventKind::Commit,
            LogKind::Rollback => EventKind::Rollback,
        };
        EventRow {
            kind,
            key: clone_bytes(&self.key),
            value: clone_bytes(&self.value),
            start_ts: self.start_ts,
            commit_ts: self.commit_ts,
            generation: self.generation,
        }
    }
}

/// What a message to a subscriber carries.
#[derive(Clone, Debug, PartialEq, Eq)]
pub enum Body {
    /// A row-level record.
    Row(EventRow),
    /// The region's watermark.
    ResolvedTs(u64),
    /// A terminal error: nothing follows it for the same subscription.
    Error(RegionError),
}

/// What a message carries, mathematically.
pub enum BodyModel {
    Row(RowModel),
    ResolvedTs(u64),
    Error(RegionError),
}

impl View for Body {
    type V = BodyModel;

    open spec fn view(&self) -> BodyModel {
        match self {
            Body::Row(row) => BodyModel::Row(row@),
            Body::ResolvedTs(ts) => BodyModel::ResolvedTs(*ts),
            Body::Error(e) => BodyModel::Error(*e),
        }
    }
}

/// One message to the transport, tagged with the subscription it belongs to
/// so that a connection carrying several subscriptions can tell them apart.
#[derive(Clone, Debug, PartialEq, Eq)]
pub struct Outbound {
    pub region_id: u64,
    pub conn_id: u64,
    pub request_id: u64,
    /// The subscription's sequence number of this message.
    pub seq: u64,
    pub body: Body,
}

/// What a message is, mathematically.
pub struct OutboundModel {
    pub region_id: u64,
    pub conn_id: u64,
    pub request_id: u64,
    pub seq: nat,
    pub body: BodyModel,
}

impl View for Outbound {
    type V = OutboundModel;

    open spec fn view(&self) -> OutboundModel {
        OutboundModel {
            region_id: self.region_id,
            conn_id: self.conn_id,
            request_id: self.request_id,
            seq: self.seq as nat,
            body: self.body@,
        }
    }
}

/// The models of a sequence of messages, in order.
pub open spec fn outbound_models(s: Seq<Outbound>) -> Seq<OutboundModel> {
    s.map_values(|o: Outbound| o@)
}

/// The models of a sequence of records, in order.
pub open spec fn row_models(s: Seq<EventRow>) -> Seq<RowModel> {
    s.map_values(|r: EventRow| r@)
}

/// The models of a sequence of live entries, in order.
pub open spec fn entry_models(s: Seq<LogEntry>) -> Seq<LogEntryModel> {
    s.map_values(|e: LogEntry| e@)
}

} // verus!
