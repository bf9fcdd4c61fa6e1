//! The prewrites that a subscription has been shown and whose transaction is
//! still open, filed under key and start timestamp with the generation and
//! the value last shown.

use crate::cdc::bytes::{bytes_eq, clone_bytes};
use vstd::prelude::*;

verus! {

/// A key together with the start timestamp of a transaction that writes it.
pub type TxnKey = (Seq<u8>, u64);

/// The table as a map from (key, start timestamp) to (generation, value).
pub type LockMap = Map<TxnKey, (u64, Seq<u8>)>;

struct LockEntry {
    key: Vec<u8>,
    start_ts: u64,
    generation: u64,
    value: Vec<u8>,
}

/// A table of locks by key and start timestamp.
pub struct LockTable {
    entries: Vec<LockEntry>,
}

impl LockTable {
    spec fn at(&self, i: int, k: (Seq<u8>, u64)) -> bool {
        0 <= i < self.entries@.len() && self.entries@[i].key@ == k.0 && self.entries@[i].start_ts
            == k.1
    }

    spec fn slot(&self, k: (Seq<u8>, u64)) -> int {
        choose|i: int| self.at(i, k)
    }

    /// Nothing is filed twice.
    pub closed spec fn wf(&self) -> bool {
        forall|i: int, j: int|
            0 <= i < j < self.entries@.len() ==> !(self.entries@[i].key@ == self.entries@[j].key@
                && self.entries@[i].start_ts == self.entries@[j].start_ts)
    }

    proof fn lemma_at(&self, i: int, k: (Seq<u8>, u64))
        requires
            self.wf(),
            self.at(i, k),
        ensures
            self@.dom().contains(k),
            self@[k] == (self.entries@[i].generation, self.entries@[i].value@),
            self.slot(k) == i,
    {
        let c = self.slot(k);
        assert(self.at(c, k));
    }
}

impl View for LockTable {
    type V = LockMap;

    closed spec fn view(&self) -> LockMap {
        Map::new(
            |k: (Seq<u8>, u64)| exists|i: int| self.at(i, k),
            |k: (Seq<u8>, u64)|
                (self.entries@[self.slot(k)].generation, self.entries@[self.slot(k)].value@),
        )
    }
}

impl LockTable {
    /// An empty table.
    pub fn new() -> (t: LockTable)
        ensures
            t.wf(),
            t@ == LockMap::empty(),
    {
        let t = LockTable { entries: Vec::new() };
        assert(t@ =~= LockMap::empty());
        t
    }

    fn find(&self, key: &Vec<u8>, start_ts: u64) -> (at: Option<usize>)
        requires
            self.wf(),
        ensures
            at is Some <==> self@.dom().contains((key@, start_ts)),
            at matches Some(i) ==> self.at(i as int, (key@, start_ts)),
    {
        let mut i: usize = 0;
        while i < self.entries.len()
            invariant
                i <= self.entries.len(),
                self.wf(),
                forall|j: int| 0 <= j < i ==> !self.at(j, (key@, start_ts)),
            decreases self.entries.len() - i,
        {
            if self.entries[i].start_ts == start_ts && bytes_eq(&self.entries[i].key, key) {
                proof {
                    self.lemma_at(i as int, (key@, start_ts));
                }
                return Some(i);
            }
            i += 1;
        }
        None
    }

    /// The generation filed under `key` and `start_ts`, if any.
    pub fn generation(&self, key: &Vec<u8>, start_ts: u64) -> (g: Option<u64>)
        requires
            self.wf(),
        ensures
            g is Some <==> self@.dom().contains((key@, start_ts)),
            g matches Some(n) ==> self@[(key@, start_ts)].0 == n,
    {
        match self.find(key, start_ts) {
            Some(i) => {
                proof {
                    self.lemma_at(i as int, (key@, start_ts));
                }
                Some(self.entries[i].generation)
            },
            None => None,
        }
    }

    /// A copy of the value filed under `key` and `start_ts`, if any.
    pub fn value(&self, key: &Vec<u8>, start_ts: u64) -> (v: Option<Vec<u8>>)
        requires
            self.wf(),
        ensures
            v is Some <==> self@.dom().contains((key@, start_ts)),
            v matches Some(bytes) ==> self@[(key@, start_ts)].1 == bytes@,
    {
        match self.find(key, start_ts) {
            Some(i) => {
                proof {
                    self.lemma_at(i as int, (key@, start_ts));
                }
                Some(clone_bytes(&self.entries[i].value))
            },
            None => None,
        }
    }

    /// Files `generation` and `value` under `key` and `start_ts`, in place of
    /// what was filed there.
    pub fn put(&mut self, key: Vec<u8>, start_ts: u64, generation: u64, value: Vec<u8>)
        requires
            old(self).wf(),
        ensures
            final(self).wf(),
            final(self)@ == old(self)@.insert((key@, start_ts), (generation, value@)),
    {
        let ghost before = *self;
        let ghost k = (key@, start_ts);
        let ghost v = (generation, value@);
        match self.find(&key, start_ts) {
            Some(i) => {
                self.entries[i] = LockEntry { key, start_ts, generation, value };
                proof {
                    assert(self.wf());
                    assert forall|k2: (Seq<u8>, u64)| #[trigger]
                        self@.dom().contains(k2) == before@.insert(k, v).dom().contains(
                            k2,
                        ) && (self@.dom().contains(k2) ==> self@[k2] == before@.insert(k, v)[k2]) by {
                        if self@.dom().contains(k2) {
                            let j = self.slot(k2);
                            assert(self.at(j, k2));
                            self.lemma_at(j, k2);
                            assert(before.at(j, k2));
                            before.lemma_at(j, k2);
                        }
                        if before@.insert(k, v).dom().contains(k2) {
                            if k2 == k {
                                assert(self.at(i as int, k2));
                            } else {
                                let j = before.slot(k2);
                                assert(before.at(j, k2));
                                assert(self.at(j, k2));
                            }
                        }
                    }
                    assert(self@ =~= before@.insert(k, v));
                }
            },
            None => {
                self.entries.push(LockEntry { key, start_ts, generation, value });
                proof {
                    let n = before.entries@.len() as int;
                    assert forall|i: int, j: int| 0 <= i < j < self.entries@.len() implies !(
                    self.entries@[i].key@ == self.entries@[j].key@ && self.entries@[i].start_ts
                        == self.entries@[j].start_ts) by {
                        if j == n {
                            assert(!before.at(i, k));
                        }
                    }
                    assert forall|k2: (Seq<u8>, u64)| #[trigger]
                        self@.dom().contains(k2) == before@.insert(k, v).dom().contains(
                            k2,
                        ) && (self@.dom().contains(k2) ==> self@[k2] == before@.insert(k, v)[k2]) by {
                        if self@.dom().contains(k2) {
                            let j = self.slot(k2);
                            assert(self.at(j, k2));
                            self.lemma_at(j, k2);
                            if j < n {
                                assert(before.at(j, k2));
                                before.lemma_at(j, k2);
                            }
                        }
                        if before@.insert(k, v).dom().contains(k2) {
                            if k2 == k {
                                assert(self.at(n, k2));
                            } else {
                                let j = before.slot(k2);
                                assert(before.at(j, k2));
                                assert(self.at(j, k2));
                            }
                        }
                    }
                    assert(self@ =~= before@.insert(k, v));
                }
            },
        }
    }

    /// Drops what is filed under `key` and `start_ts`, if anything.
    pub fn remove(&mut self, key: &Vec<u8>, start_ts: u64)
        requires
            old(self).wf(),
        ensures
            final(self).wf(),
            final(self)@ == old(self)@.remove((key@, start_ts)),
    {
        let ghost before = *self;
        let ghost k = (key@, start_ts);
        match self.find(key, start_ts) {
            Some(i) => {
                self.entries.remove(i);
                proof {
                    assert forall|a: int, b: int| 0 <= a < b < self.entries@.len() implies !(
                    self.entries@[a].key@ == self.entries@[b].key@ && self.entries@[a].start_ts
                        == self.entries@[b].start_ts) by {
                        let a0 = if a < i { a } else { a + 1 };
                        let b0 = if b < i { b } else { b + 1 };
                        assert(self.entries@[a] == before.entries@[a0]);
                        assert(self.entries@[b] == before.entries@[b0]);
                    }
                    assert forall|k2: (Seq<u8>, u64)| #[trigger]
                        self@.dom().contains(k2) == before@.remove(k).dom().contains(k2) && (
                        self@.dom().contains(k2) ==> self@[k2] == before@.remove(k)[k2]) by {
                        if self@.dom().contains(k2) {
                            let j = self.slot(k2);
                            assert(self.at(j, k2));
                            self.lemma_at(j, k2);
                            let j0 = if j < i { j } else { j + 1 };
                            assert(before.at(j0, k2));
                            before.lemma_at(j0, k2);
                            assert(before.at(i as int, k));
                        }
                        if before@.remove(k).dom().contains(k2) {
                            let j = before.slot(k2);
                            assert(before.at(j, k2));
                            assert(j != i);
                            let j1 = if j < i { j } else { j - 1 };
                            assert(self.at(j1, k2));
                        }
                    }
                    assert(self@ =~= before@.remove(k));
                }
            },
            None => {
                assert(self@ =~= before@.remove(k));
            },
        }
    }
}

} // verus!
