//! The locks of one region as its delegate knows them: which keys are
//! locked by which transaction, and the resolver that counts the locks per
//! start timestamp. A lock becomes known through a live prewrite or through
//! a scan that finds it, and is released by its commit or rollback.

use crate::cdc::bytes::clone_bytes;
use crate::cdc::event::{EventKind, EventRow, LogEntry, LogEntryModel, LogKind, RowModel, entry_models, row_models};
use crate::cdc::lock_table::{LockTable, TxnKey};
use crate::cdc::resolver::{Resolver, ResolverModel};
use vstd::prelude::*;

verus! {

/// What the locks of a region are, mathematically.
pub struct LocksModel {
    /// The resolver, which holds one lock at the start timestamp of each
    /// known lock.
    pub resolver: ResolverModel,
    /// The known locks: the keys that are locked, each with the start
    /// timestamp of the transaction that locks it.
    pub locked: Set<TxnKey>,
    /// The locks whose commit or rollback was seen while a scan was
    /// outstanding that may still report them.
    pub released: Set<TxnKey>,
}

impl LocksModel {
    /// No lock is known, and the watermark is zero.
    pub open spec fn empty() -> LocksModel {
        LocksModel { resolver: ResolverModel::empty(), locked: Set::empty(), released: Set::empty() }
    }

    /// A live prewrite. The first prewrite of a key by a transaction takes a
    /// lock at the transaction's start timestamp; a later prewrite of the
    /// same key by the same transaction is the same lock.
    pub open spec fn take(self, k: TxnKey) -> LocksModel {
        if self.locked.contains(k) {
            self
        } else {
            LocksModel {
                resolver: self.resolver.track(k.1),
                locked: self.locked.insert(k),
                ..self
            }
        }
    }

    /// The lock is released, if it is known.
    pub open spec fn drop_lock(self, k: TxnKey) -> LocksModel {
        if self.locked.contains(k) {
            LocksModel {
                resolver: self.resolver.untrack(k.1),
                locked: self.locked.remove(k),
                ..self
            }
        } else {
            self
        }
    }

    /// A live commit or rollback. It releases the lock if the lock is known.
    /// While a scan is outstanding the release is remembered as well: the
    /// scan may have read its snapshot before the release and report the
    /// lock afterwards, and the lock must then not be taken for outstanding.
    pub open spec fn release(self, k: TxnKey, scanning: bool) -> LocksModel {
        if scanning {
            LocksModel { released: self.released.insert(k), ..self.drop_lock(k) }
        } else {
            self.drop_lock(k)
        }
    }

    /// A lock that a scan found in its snapshot. It becomes known unless it
    /// is known already or its release has been seen.
    pub open spec fn find(self, k: TxnKey) -> LocksModel {
        if self.locked.contains(k) || self.released.contains(k) {
            self
        } else {
            LocksModel {
                resolver: self.resolver.track(k.1),
                locked: self.locked.insert(k),
                ..self
            }
        }
    }

    /// One live entry.
    pub open spec fn on_live(self, entry: LogEntryModel, scanning: bool) -> LocksModel {
        match entry.kind {
            LogKind::Prewrite => self.take((entry.key, entry.start_ts)),
            _ => self.release((entry.key, entry.start_ts), scanning),
        }
    }

    /// The live entries of a change log, in order.
    pub open spec fn on_change_log(self, entries: Seq<LogEntryModel>, scanning: bool) -> LocksModel
        decreases entries.len(),
    {
        if entries.len() == 0 {
            self
        } else {
            self.on_change_log(entries.drop_last(), scanning).on_live(entries.last(), scanning)
        }
    }

    /// One record of a scan batch: a record of kind `Prewrite` is a lock found.
    pub open spec fn on_scan_row(self, row: RowModel) -> LocksModel {
        if row.kind == EventKind::Prewrite {
            self.find((row.key, row.start_ts))
        } else {
            self
        }
    }

    /// The records of a scan batch, in order.
    pub open spec fn on_scan_rows(self, rows: Seq<RowModel>) -> LocksModel
        decreases rows.len(),
    {
        if rows.len() == 0 {
            self
        } else {
            self.on_scan_rows(rows.drop_last()).on_scan_row(rows.last())
        }
    }

    /// Once no scan is outstanding no scan can report an old lock any more,
    /// and the remembered releases are dropped.
    pub open spec fn settle(self, scanning: bool) -> LocksModel {
        if scanning {
            self
        } else {
            LocksModel { released: Set::empty(), ..self }
        }
    }

    /// The watermark is computed and handed out.
    pub open spec fn resolve(self, min_ts_hint: u64) -> LocksModel {
        LocksModel { resolver: self.resolver.resolve(min_ts_hint), ..self }
    }
}

/// The locks of one region.
pub struct Locks {
    resolver: Resolver,
    locked: LockTable,
    released: LockTable,
}

impl View for Locks {
    type V = LocksModel;

    closed spec fn view(&self) -> LocksModel {
        LocksModel {
            resolver: self.resolver@,
            locked: self.locked@.dom(),
            released: self.released@.dom(),
        }
    }
}

impl Locks {
    /// The representation is sound, and the resolver counts the known locks.
    pub closed spec fn wf(&self) -> bool {
        self.locked.wf() && self.released.wf() && self@.counted()
    }

    /// In sound locks the resolver counts the known locks.
    pub proof fn lemma_wf(&self)
        requires
            self.wf(),
        ensures
            self@.counted(),
    {
    }

    /// No lock is known, and the watermark is zero.
    pub fn new() -> (l: Locks)
        ensures
            l.wf(),
            l@ == LocksModel::empty(),
    {
        let l = Locks { resolver: Resolver::new(), locked: LockTable::new(), released: LockTable::new() };
        proof {
            broadcast use vstd::set::group_set_axioms, vstd::multiset::group_multiset_axioms;

            assert(l@.locked =~= Set::empty());
            assert(l@.released =~= Set::empty());
            assert forall|ts: u64| l@.resolver.locks.count(ts) == #[trigger] keys_at(
                l@.locked,
                ts,
            ).len() by {
                assert(keys_at(l@.locked, ts) =~= Set::empty());
            }
        }
        l
    }

    /// The last watermark handed out.
    pub fn resolved_ts(&self) -> (ts: u64)
        ensures
            ts == self@.resolver.resolved_ts,
    {
        self.resolver.resolved_ts()
    }

    /// Whether the lock of `key` by the transaction that started at
    /// `start_ts` is known.
    pub fn is_locked(&self, key: &Vec<u8>, start_ts: u64) -> (yes: bool)
        requires
            self.wf(),
        ensures
            yes == self@.locked.contains((key@, start_ts)),
    {
        self.locked.generation(key, start_ts).is_some()
    }

    fn track(&mut self, key: &Vec<u8>, start_ts: u64)
        requires
            old(self).locked.wf(),
            old(self).released.wf(),
            !old(self)@.locked.contains((key@, start_ts)),
        ensures
            final(self).locked.wf(),
            final(self).released.wf(),
            final(self)@ == (LocksModel {
                resolver: old(self)@.resolver.track(start_ts),
                locked: old(self)@.locked.insert((key@, start_ts)),
                ..old(self)@
            }),
    {
        let ghost held = self.locked@.dom();
        self.locked.put(clone_bytes(key), start_ts, 0, Vec::new());
        self.resolver.track_lock(start_ts);
        assert(self.locked@.dom() =~= held.insert((key@, start_ts)));
    }

    /// Takes the live entries of a change log, in order. `scanning` says
    /// whether a scan of the region is outstanding.
    pub fn on_change_log(&mut self, entries: &Vec<LogEntry>, scanning: bool)
        requires
            old(self).wf(),
        ensures
            final(self).wf(),
            final(self)@ == old(self)@.on_change_log(entry_models(entries@), scanning),
    {
        let ghost start = self@;
        let ghost all = entry_models(entries@);
        let mut k: usize = 0;
        assert(all.take(0) =~= Seq::<LogEntryModel>::empty());
        while k < entries.len()
            invariant
                k <= entries.len(),
                self.locked.wf(),
                self.released.wf(),
                all == entry_models(entries@),
                self@ == start.on_change_log(all.take(k as int), scanning),
            decreases entries.len() - k,
        {
            proof {
                assert(all.take(k + 1).drop_last() =~= all.take(k as int));
                assert(all.take(k + 1).last() == entries@[k as int]@);
            }
            let entry = &entries[k];
            let known = self.locked.generation(&entry.key, entry.start_ts).is_some();
            match entry.kind {
                LogKind::Prewrite => {
                    if !known {
                        self.track(&entry.key, entry.start_ts);
                    }
                },
                _ => {
                    if known {
                        let ghost held = self.locked@.dom();
                        self.locked.remove(&entry.key, entry.start_ts);
                        self.resolver.untrack_lock(entry.start_ts);
                        assert(self.locked@.dom() =~= held.remove((entry.key@, entry.start_ts)));
                    }
                    if scanning {
                        let ghost seen = self.released@.dom();
                        self.released.put(clone_bytes(&entry.key), entry.start_ts, 0, Vec::new());
                        assert(self.released@.dom() =~= seen.insert((entry.key@, entry.start_ts)));
                    }
                },
            }
            k += 1;
        }
        proof {
            assert(all.take(k as int) =~= all);
            lemma_change_log_counted(start, all, scanning);
        }
    }

    /// Takes the records of a scan batch, in order: the locks that the scan found.
    pub fn on_scan_rows(&mut self, rows: &Vec<EventRow>)
        requires
            old(self).wf(),
        ensures
            final(self).wf(),
            final(self)@ == old(self)@.on_scan_rows(row_models(rows@)),
    {
        let ghost start = self@;
        let ghost all = row_models(rows@);
        let mut k: usize = 0;
        assert(all.take(0) =~= Seq::<RowModel>::empty());
        while k < rows.len()
            invariant
                k <= rows.len(),
                self.locked.wf(),
                self.released.wf(),
                all == row_models(rows@),
                self@ == start.on_scan_rows(all.take(k as int)),
            decreases rows.len() - k,
        {
            proof {
                assert(all.take(k + 1).drop_last() =~= all.take(k as int));
                assert(all.take(k + 1).last() == rows@[k as int]@);
            }
            let row = &rows[k];
            if row.kind == EventKind::Prewrite {
                let known = self.locked.generation(&row.key, row.start_ts).is_some();
                let gone = self.released.generation(&row.key, row.start_ts).is_some();
                if !known && !gone {
                    self.track(&row.key, row.start_ts);
                }
            }
            k += 1;
        }
        proof {
            assert(all.take(k as int) =~= all);
            lemma_scan_rows_counted(start, all);
        }
    }

    /// Drops the remembered releases unless a scan is outstanding.
    pub fn settle(&mut self, scanning: bool)
        requires
            old(self).wf(),
        ensures
            final(self).wf(),
            final(self)@ == old(self)@.settle(scanning),
    {
        if !scanning {
            self.released = LockTable::new();
            assert(self@.released =~= Set::empty());
        }
    }

    /// Computes the watermark from the hint and hands it out.
    pub fn resolve(&mut self, min_ts_hint: u64) -> (ts: u64)
        requires
            old(self).wf(),
        ensures
            final(self).wf(),
            ts == old(self)@.resolver.watermark(min_ts_hint),
            final(self)@ == old(self)@.resolve(min_ts_hint),
    {
        self.resolver.resolve(min_ts_hint)
    }
}


/// The known locks taken by transactions that started at `ts`.
pub open spec fn keys_at(locked: Set<TxnKey>, ts: u64) -> Set<TxnKey> {
    locked.filter(|k: TxnKey| k.1 == ts)
}

impl LocksModel {
    /// The resolver counts the known locks: at each start timestamp it holds
    /// as many locks as keys are known to be locked by transactions that
    /// started then.
    pub open spec fn counted(self) -> bool {
        &&& self.locked.finite()
        &&& forall|ts: u64| self.resolver.locks.count(ts) == #[trigger] keys_at(self.locked, ts).len()
    }
}

proof fn lemma_insert_counted(l: LocksModel, k: TxnKey)
    requires
        l.counted(),
        !l.locked.contains(k),
    ensures
        (LocksModel {
            resolver: l.resolver.track(k.1),
            locked: l.locked.insert(k),
            ..l
        }).counted(),
{
    broadcast use vstd::set::group_set_axioms, vstd::multiset::group_multiset_axioms;

    let n = LocksModel { resolver: l.resolver.track(k.1), locked: l.locked.insert(k), ..l };
    assert forall|ts: u64| n.resolver.locks.count(ts) == #[trigger] keys_at(n.locked, ts).len() by {
        assert(l.resolver.locks.count(ts) == keys_at(l.locked, ts).len());
        vstd::set_lib::lemma_len_subset(keys_at(l.locked, ts), l.locked);
        if ts == k.1 {
            assert(keys_at(n.locked, ts) =~= keys_at(l.locked, ts).insert(k));
        } else {
            assert(keys_at(n.locked, ts) =~= keys_at(l.locked, ts));
        }
    }
}

proof fn lemma_drop_counted(l: LocksModel, k: TxnKey)
    requires
        l.counted(),
    ensures
        l.drop_lock(k).counted(),
{
    broadcast use vstd::set::group_set_axioms, vstd::multiset::group_multiset_axioms;

    let n = l.drop_lock(k);
    if l.locked.contains(k) {
        assert forall|ts: u64| n.resolver.locks.count(ts) == #[trigger] keys_at(
            n.locked,
            ts,
        ).len() by {
            assert(l.resolver.locks.count(ts) == keys_at(l.locked, ts).len());
            vstd::set_lib::lemma_len_subset(keys_at(l.locked, ts), l.locked);
            if ts == k.1 {
                assert(keys_at(l.locked, ts).contains(k));
                assert(keys_at(n.locked, ts) =~= keys_at(l.locked, ts).remove(k));
            } else {
                assert(keys_at(n.locked, ts) =~= keys_at(l.locked, ts));
            }
        }
    }
}

/// Whatever happens to the locks, the resolver goes on counting them.
pub proof fn lemma_counted(l: LocksModel)
    requires
        l.counted(),
    ensures
        forall|k: TxnKey| #[trigger] l.take(k).counted(),
        forall|k: TxnKey, scanning: bool| #[trigger] l.release(k, scanning).counted(),
        forall|k: TxnKey| #[trigger] l.find(k).counted(),
        forall|scanning: bool| #[trigger] l.settle(scanning).counted(),
        forall|min_ts_hint: u64| #[trigger] l.resolve(min_ts_hint).counted(),
{
    assert forall|k: TxnKey| #[trigger] l.take(k).counted() by {
        if !l.locked.contains(k) {
            lemma_insert_counted(l, k);
        }
    }
    assert forall|k: TxnKey, scanning: bool| #[trigger] l.release(k, scanning).counted() by {
        lemma_drop_counted(l, k);
    }
    assert forall|k: TxnKey| #[trigger] l.find(k).counted() by {
        if !(l.locked.contains(k) || l.released.contains(k)) {
            lemma_insert_counted(l, k);
        }
    }
}

/// A change log leaves the resolver counting the known locks.
pub proof fn lemma_change_log_counted(l: LocksModel, entries: Seq<LogEntryModel>, scanning: bool)
    requires
        l.counted(),
    ensures
        l.on_change_log(entries, scanning).counted(),
    decreases entries.len(),
{
    if entries.len() > 0 {
        lemma_change_log_counted(l, entries.drop_last(), scanning);
        lemma_counted(l.on_change_log(entries.drop_last(), scanning));
    }
}

/// A scan batch leaves the resolver counting the known locks.
pub proof fn lemma_scan_rows_counted(l: LocksModel, rows: Seq<RowModel>)
    requires
        l.counted(),
    ensures
        l.on_scan_rows(rows).counted(),
    decreases rows.len(),
{
    if rows.len() > 0 {
        lemma_scan_rows_counted(l, rows.drop_last());
        lemma_counted(l.on_scan_rows(rows.drop_last()));
    }
}

/// The watermark stays below the known locks: as long as the resolver
/// counts the known locks, a lock taken above the last watermark keeps every
/// watermark below its start timestamp until it is released.
pub proof fn law_known_locks_hold_the_watermark(l: LocksModel, k: TxnKey, min_ts_hint: u64)
    requires
        l.counted(),
        l.locked.contains(k),
        k.1 > l.resolver.resolved_ts,
    ensures
        l.resolver.watermark(min_ts_hint) < k.1,
        l.resolve(min_ts_hint).resolver.resolved_ts < k.1,
{
    broadcast use vstd::set::group_set_axioms;

    vstd::set_lib::lemma_len_subset(keys_at(l.locked, k.1), l.locked);
    assert(keys_at(l.locked, k.1).contains(k));
    assert(keys_at(l.locked, k.1).len() > 0) by {
        if keys_at(l.locked, k.1).len() == 0 {
            assert(keys_at(l.locked, k.1) =~= Set::empty());
        }
    }
    crate::cdc::resolver::law_watermark_stays_below_locks(l.resolver, min_ts_hint, k.1);
}

} // verus!
