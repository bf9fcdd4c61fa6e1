//! Incremental scanner: turns the storage reads of one consistent snapshot
//! into the records that seed a new subscription. The output is finite, comes
//! in bounded batches, cannot be restarted, and ends with one `Initialized`
//! marker. Between batches the scanner compares the region's epoch with the
//! one it started under and gives up when they differ.

use crate::cdc::bytes::clone_bytes;
use crate::cdc::event::{Epoch, EventKind, EventRow, RowModel, row_models};
use vstd::prelude::*;

verus! {

/// One entry as the storage engine returns it from a snapshot read.
#[derive(Clone, Debug, PartialEq, Eq)]
pub enum StoredEntry {
    /// A committed version of a key.
    Write { key: Vec<u8>, value: Vec<u8>, start_ts: u64, commit_ts: u64 },
    /// A lock: the key is prewritten and not yet committed.
    Lock { key: Vec<u8>, value: Vec<u8>, start_ts: u64, generation: u64 },
}

/// What a stored entry is, mathematically.
pub enum StoredModel {
    Write { key: Seq<u8>, value: Seq<u8>, start_ts: u64, commit_ts: u64 },
    Lock { key: Seq<u8>, value: Seq<u8>, start_ts: u64, generation: u64 },
}

impl View for StoredEntry {
    type V = StoredModel;

    open spec fn view(&self) -> StoredModel {
        match self {
            StoredEntry::Write { key, value, start_ts, commit_ts } => StoredModel::Write {
                key: key@,
                value: value@,
                start_ts: *start_ts,
                commit_ts: *commit_ts,
            },
            StoredEntry::Lock { key, value, start_ts, generation } => StoredModel::Lock {
                key: key@,
                value: value@,
                start_ts: *start_ts,
                generation: *generation,
            },
        }
    }
}

impl StoredModel {
    /// Whether the entry is part of what the scan yields: a version
    /// committed at or below the snapshot's timestamp, or any lock. A lock
    /// is yielded whatever its start timestamp, because its transaction may
    /// still commit and the subscriber and the resolver must know of it.
    pub open spec fn visible(self, checkpoint_ts: u64) -> bool {
        match self {
            StoredModel::Write { commit_ts, .. } => commit_ts <= checkpoint_ts,
            StoredModel::Lock { .. } => true,
        }
    }

    /// The record that stands for the entry: `Committed` for a version,
    /// `Prewrite` with the lock's start timestamp and generation for a lock.
    pub open spec fn row(self) -> RowModel {
        match self {
            StoredModel::Write { key, value, start_ts, commit_ts } => RowModel {
                kind: EventKind::Committed,
                key,
                value,
                start_ts,
                commit_ts,
                generation: 0,
            },
            StoredModel::Lock { key, value, start_ts, generation } => RowModel {
                kind: EventKind::Prewrite,
                key,
                value,
                start_ts,
                commit_ts: 0,
                generation,
            },
        }
    }
}

/// The records of the entries that a scan yields, in read order.
pub open spec fn snapshot_rows(entries: Seq<StoredModel>, checkpoint_ts: u64) -> Seq<RowModel>
    decreases entries.len(),
{
    if entries.len() == 0 {
        Seq::empty()
    } else if entries.last().visible(checkpoint_ts) {
        snapshot_rows(entries.drop_last(), checkpoint_ts).push(entries.last().row())
    } else {
        snapshot_rows(entries.drop_last(), checkpoint_ts)
    }
}

/// The models of a sequence of stored entries, in order.
pub open spec fn stored_models(s: Seq<StoredEntry>) -> Seq<StoredModel> {
    s.map_values(|e: StoredEntry| e@)
}

/// What one step of a scan yields.
#[derive(Clone, Debug, PartialEq, Eq)]
pub enum ScanStep {
    /// A batch of records; the scan goes on.
    Rows(Vec<EventRow>),
    /// The last batch, ending with the `Initialized` marker; the scan is over.
    Finished(Vec<EventRow>),
    /// The region's epoch changed; the scan is over and the batch is dropped.
    Cancelled,
    /// The storage read failed; the scan is over and nothing of the batch is delivered.
    Failed,
    /// The scan was over before this step.
    Done,
}

/// What a scan step is, mathematically.
pub enum ScanStepModel {
    Rows(Seq<RowModel>),
    Finished(Seq<RowModel>),
    Cancelled,
    Failed,
    Done,
}

impl View for ScanStep {
    type V = ScanStepModel;

    open spec fn view(&self) -> ScanStepModel {
        match self {
            ScanStep::Rows(rows) => ScanStepModel::Rows(row_models(rows@)),
            ScanStep::Finished(rows) => ScanStepModel::Finished(row_models(rows@)),
            ScanStep::Cancelled => ScanStepModel::Cancelled,
            ScanStep::Failed => ScanStepModel::Failed,
            ScanStep::Done => ScanStepModel::Done,
        }
    }
}

/// What a scanner is, mathematically.
pub struct ScannerModel {
    pub region_id: u64,
    /// The epoch the scan started under.
    pub epoch: Epoch,
    /// The timestamp of the snapshot.
    pub checkpoint_ts: u64,
    /// How many entries one storage read asks for; at least one.
    pub batch_size: nat,
    /// Whether the scan is over.
    pub done: bool,
}

impl ScannerModel {
    /// A scan that has not read anything yet. A batch size of zero is taken as one.
    pub open spec fn start(region_id: u64, epoch: Epoch, checkpoint_ts: u64, batch_size: nat)
        -> ScannerModel {
        ScannerModel {
            region_id,
            epoch,
            checkpoint_ts,
            batch_size: if batch_size == 0 {
                1
            } else {
                batch_size
            },
            done: false,
        }
    }

    /// The scan, over.
    pub open spec fn finish(self) -> ScannerModel {
        ScannerModel { done: true, ..self }
    }

    /// One step. `read` is what the storage read of the next batch returned,
    /// `None` when it failed. A scan that is over yields nothing. A changed
    /// epoch cancels the scan before the batch is looked at. A failed read
    /// fails the scan, and so does one that returns more entries than were
    /// asked for, so that no batch is larger than the batch size. A read that
    /// returns fewer entries than were asked for is the last one: its records
    /// are followed by the `Initialized` marker.
    pub open spec fn step(self, current_epoch: Epoch, read: Option<Seq<StoredModel>>) -> (
        ScannerModel,
        ScanStepModel,
    ) {
        if self.done {
            (self, ScanStepModel::Done)
        } else if current_epoch != self.epoch {
            (self.finish(), ScanStepModel::Cancelled)
        } else {
            match read {
                None => (self.finish(), ScanStepModel::Failed),
                Some(entries) => {
                    let rows = snapshot_rows(entries, self.checkpoint_ts);
                    if entries.len() > self.batch_size {
                        (self.finish(), ScanStepModel::Failed)
                    } else if entries.len() < self.batch_size {
                        (
                            self.finish(),
                            ScanStepModel::Finished(rows.push(RowModel::initialized())),
                        )
                    } else {
                        (self, ScanStepModel::Rows(rows))
                    }
                },
            }
        }
    }
}

/// What a storage read returned, as the scanner's model sees it.
pub open spec fn read_model<E>(read: Result<Vec<StoredEntry>, E>) -> Option<Seq<StoredModel>> {
    match read {
        Ok(entries) => Some(stored_models(entries@)),
        Err(_) => None,
    }
}

/// The scan that seeds one subscription.
pub struct Scanner {
    region_id: u64,
    epoch: Epoch,
    checkpoint_ts: u64,
    batch_size: usize,
    done: bool,
}

impl View for Scanner {
    type V = ScannerModel;

    closed spec fn view(&self) -> ScannerModel {
        ScannerModel {
            region_id: self.region_id,
            epoch: self.epoch,
            checkpoint_ts: self.checkpoint_ts,
            batch_size: self.batch_size as nat,
            done: self.done,
        }
    }
}

/// The record that stands for a stored entry.
fn stored_row(entry: &StoredEntry) -> (row: EventRow)
    ensures
        row@ == entry@.row(),
{
    match entry {
        StoredEntry::Write { key, value, start_ts, commit_ts } => EventRow {
            kind: EventKind::Committed,
            key: clone_bytes(key),
            value: clone_bytes(value),
            start_ts: *start_ts,
            commit_ts: *commit_ts,
            generation: 0,
        },
        StoredEntry::Lock { key, value, start_ts, generation } => EventRow {
            kind: EventKind::Prewrite,
            key: clone_bytes(key),
            value: clone_bytes(value),
            start_ts: *start_ts,
            commit_ts: 0,
            generation: *generation,
        },
    }
}

fn is_visible(entry: &StoredEntry, checkpoint_ts: u64) -> (yes: bool)
    ensures
        yes == entry@.visible(checkpoint_ts),
{
    match entry {
        StoredEntry::Write { commit_ts, .. } => *commit_ts <= checkpoint_ts,
        StoredEntry::Lock { .. } => true,
    }
}

/// Tags the entries of one read: the records of the versions committed at
/// or below `checkpoint_ts` and of every lock, in read order.
pub fn tag_entries(entries: &Vec<StoredEntry>, checkpoint_ts: u64) -> (rows: Vec<EventRow>)
    ensures
        row_models(rows@) == snapshot_rows(stored_models(entries@), checkpoint_ts),
{
    let mut rows: Vec<EventRow> = Vec::new();
    let mut i: usize = 0;
    let ghost all = stored_models(entries@);
    assert(row_models(rows@) =~= snapshot_rows(all.take(0), checkpoint_ts));
    while i < entries.len()
        invariant
            i <= entries.len(),
            all == stored_models(entries@),
            row_models(rows@) == snapshot_rows(all.take(i as int), checkpoint_ts),
        decreases entries.len() - i,
    {
        proof {
            assert(all.take(i + 1).drop_last() =~= all.take(i as int));
            assert(all.take(i + 1).last() == entries@[i as int]@);
        }
        if is_visible(&entries[i], checkpoint_ts) {
            let ghost before = rows@;
            let row = stored_row(&entries[i]);
            rows.push(row);
            assert(row_models(rows@) =~= row_models(before).push(row@));
        }
        i += 1;
    }
    assert(all.take(i as int) =~= all);
    rows
}

impl Scanner {
    /// A scan of `region_id` under `epoch`, from the snapshot at
    /// `checkpoint_ts`, reading `batch_size` entries at a time. A batch size
    /// of zero is taken as one.
    pub fn new(region_id: u64, epoch: Epoch, checkpoint_ts: u64, batch_size: usize) -> (s:
        Scanner)
        ensures
            s@ == ScannerModel::start(region_id, epoch, checkpoint_ts, batch_size as nat),
    {
        Scanner {
            region_id,
            epoch,
            checkpoint_ts,
            batch_size: if batch_size == 0 {
                1
            } else {
                batch_size
            },
            done: false,
        }
    }

    /// How many entries the next storage read is to ask for.
    pub fn batch_size(&self) -> (n: usize)
        ensures
            n == self@.batch_size,
    {
        self.batch_size
    }

    /// Whether the scan is over.
    pub fn is_done(&self) -> (done: bool)
        ensures
            done == self@.done,
    {
        self.done
    }

    /// Takes the result of the next storage read, together with the region's
    /// epoch as it is now, and yields the next step of the scan.
    pub fn next_batch<E>(&mut self, current_epoch: Epoch, read: Result<Vec<StoredEntry>, E>) -> (step:
        ScanStep)
        ensures
            (final(self)@, step@) == old(self)@.step(current_epoch, read_model(read)),
    {
        if self.done {
            return ScanStep::Done;
        }
        if current_epoch != self.epoch {
            self.done = true;
            return ScanStep::Cancelled;
        }
        match read {
            Err(_) => {
                self.done = true;
                ScanStep::Failed
            },
            Ok(entries) => {
                if entries.len() > self.batch_size {
                    self.done = true;
                    return ScanStep::Failed;
                }
                let mut rows = tag_entries(&entries, self.checkpoint_ts);
                if entries.len() < self.batch_size {
                    let ghost before = rows@;
                    let marker = EventRow::initialized();
                    rows.push(marker);
                    assert(row_models(rows@) =~= row_models(before).push(marker@));
                    self.done = true;
                    ScanStep::Finished(rows)
                } else {
                    ScanStep::Rows(rows)
                }
            },
        }
    }
}


/// One call of a scan: the region's epoch at the time, and what the storage
/// read returned, `None` when it failed.
pub type Read = (Epoch, Option<Seq<StoredModel>>);

impl ScannerModel {
    /// The steps that the scan yields over the calls in order.
    pub open spec fn run(self, reads: Seq<Read>) -> (ScannerModel, Seq<ScanStepModel>)
        decreases reads.len(),
    {
        if reads.len() == 0 {
            (self, Seq::empty())
        } else {
            let before = self.run(reads.drop_last());
            let last = before.0.step(reads.last().0, reads.last().1);
            (last.0, before.1.push(last.1))
        }
    }
}

/// The step ends the scan.
pub open spec fn is_end(step: ScanStepModel) -> bool {
    step is Finished || step is Cancelled || step is Failed
}

/// Once a step has ended the scan, or if the scan was over to begin with,
/// every later step is `Done`.
pub open spec fn quiet_after_end(steps: Seq<ScanStepModel>, over: bool) -> bool {
    &&& over ==> forall|j: int| 0 <= j < steps.len() ==> #[trigger] steps[j] is Done
    &&& forall|i: int, j: int|
        #![trigger is_end(steps[i]), steps[j]]
        0 <= i < j < steps.len() && is_end(steps[i]) ==> steps[j] is Done
}

/// The records hold the `Initialized` marker as their last and nowhere else.
pub open spec fn ends_with_marker(rows: Seq<RowModel>) -> bool {
    &&& rows.len() > 0
    &&& rows.last() == RowModel::initialized()
    &&& forall|i: int| 0 <= i < rows.len() - 1 ==> (#[trigger] rows[i]).kind != EventKind::Initialized
}

/// The records of a snapshot are of kind `Committed` or `Prewrite`, and no
/// more than the entries read.
pub proof fn lemma_snapshot_rows(entries: Seq<StoredModel>, checkpoint_ts: u64)
    ensures
        snapshot_rows(entries, checkpoint_ts).len() <= entries.len(),
        forall|i: int|
            0 <= i < snapshot_rows(entries, checkpoint_ts).len() ==> (#[trigger] snapshot_rows(
                entries,
                checkpoint_ts,
            )[i]).kind != EventKind::Initialized,
    decreases entries.len(),
{
    if entries.len() > 0 {
        lemma_snapshot_rows(entries.drop_last(), checkpoint_ts);
    }
}

/// A scan ends once, and its batches are bounded: over any calls, a scan
/// that is over yields nothing more, so at most one step ends it; no batch
/// holds more records than the batch size; a batch that does not end the
/// scan holds no marker; and the batch that finishes it holds the marker as
/// its last record and nowhere else.
pub proof fn law_scan_ends_once(s: ScannerModel, reads: Seq<Read>)
    ensures
        s.run(reads).1.len() == reads.len(),
        s.done ==> s.run(reads).0.done,
        s.run(reads).0.done == (s.done || exists|i: int|
            0 <= i < reads.len() && is_end(s.run(reads).1[i])),
        quiet_after_end(s.run(reads).1, s.done),
        forall|i: int|
            0 <= i < reads.len() ==> match #[trigger] s.run(reads).1[i] {
                ScanStepModel::Rows(rows) => rows.len() <= s.batch_size && forall|k: int|
                    0 <= k < rows.len() ==> (#[trigger] rows[k]).kind != EventKind::Initialized,
                ScanStepModel::Finished(rows) => rows.len() <= s.batch_size && ends_with_marker(
                    rows,
                ),
                _ => true,
            },
        s.run(reads).0.batch_size == s.batch_size,
    decreases reads.len(),
{
    if reads.len() > 0 {
        let head = reads.drop_last();
        law_scan_ends_once(s, head);
        let before = s.run(head);
        let last = before.0.step(reads.last().0, reads.last().1);
        let steps = s.run(reads).1;
        let n = head.len() as int;
        assert forall|i: int| 0 <= i < n implies steps[i] == before.1[i] by {}
        assert(steps[n] == last.1);
        if reads.last().1 is Some {
            lemma_snapshot_rows(reads.last().1->0, before.0.checkpoint_ts);
        }
        assert(steps.len() == reads.len());
        if s.done {
            assert forall|j: int| 0 <= j < steps.len() implies #[trigger] steps[j] is Done by {
                if j < n {
                    assert(before.1[j] == steps[j]);
                }
            }
        }
        assert forall|i: int, j: int|
            #![trigger is_end(steps[i]), steps[j]]
            0 <= i < j < steps.len() && is_end(steps[i]) implies steps[j] is Done by {
            assert(before.1[i] == steps[i]);
            assert(is_end(before.1[i]));
            if j < n {
                assert(before.1[j] == steps[j]);
            }
        }
        assert forall|i: int| 0 <= i < reads.len() implies match #[trigger] steps[i] {
            ScanStepModel::Rows(rows) => rows.len() <= s.batch_size && forall|k: int|
                0 <= k < rows.len() ==> (#[trigger] rows[k]).kind != EventKind::Initialized,
            ScanStepModel::Finished(rows) => rows.len() <= s.batch_size && ends_with_marker(rows),
            _ => true,
        } by {
            if i < n {
                assert(steps[i] == before.1[i]);
                assert(head[i] == reads[i]);
            } else {
                assert(reads[i] == reads.last());
            }
        }
        if before.0.done || is_end(last.1) {
            if !s.done {
                if exists|i: int| 0 <= i < n && is_end(before.1[i]) {
                    let i = choose|i: int| 0 <= i < n && is_end(before.1[i]);
                    assert(is_end(steps[i]));
                } else {
                    assert(is_end(steps[n]));
                }
            }
        } else {
            assert forall|i: int| 0 <= i < reads.len() implies !is_end(steps[i]) by {
                if i < n {
                    assert(steps[i] == before.1[i]);
                }
            }
        }
    }
}

} // verus!
