//! Old-value cache: a bounded cache of the values that updates overwrote,
//! filed under the key and the timestamp of the overwriting transaction.
//! When the budget is full the oldest entry leaves first. A lookup that misses
//! falls through to the storage engine, so eviction never makes a read fail.

use crate::cdc::bytes::{bytes_eq, clone_bytes};
use vstd::prelude::*;

verus! {

/// One cached pre-image.
pub struct PreImage {
    pub key: Seq<u8>,
    pub ts: u64,
    pub value: Seq<u8>,
}

/// What the cache is, mathematically: its entries from oldest to newest, the
/// entry budget, and how many updates it has seen.
pub struct CacheModel {
    pub entries: Seq<PreImage>,
    pub capacity: nat,
    pub update_count: nat,
}

impl CacheModel {
    /// A cache that holds nothing and has seen no update.
    pub open spec fn empty(capacity: nat) -> CacheModel {
        CacheModel { entries: Seq::empty(), capacity, update_count: 0 }
    }

    /// Entry `i` is filed under `key` and `ts`.
    pub open spec fn filed_at(self, i: int, key: Seq<u8>, ts: u64) -> bool {
        0 <= i < self.entries.len() && self.entries[i].key == key && self.entries[i].ts == ts
    }

    /// Some entry is filed under `key` and `ts`.
    pub open spec fn holds(self, key: Seq<u8>, ts: u64) -> bool {
        exists|i: int| self.filed_at(i, key, ts)
    }

    /// Where the entry under `key` and `ts` stands; meaningful when one is held.
    pub open spec fn index_of(self, key: Seq<u8>, ts: u64) -> int {
        choose|i: int| self.filed_at(i, key, ts)
    }

    /// The cached pre-image under `key` and `ts`, if one is held.
    pub open spec fn get(self, key: Seq<u8>, ts: u64) -> Option<Seq<u8>> {
        if self.holds(key, ts) {
            Some(self.entries[self.index_of(key, ts)].value)
        } else {
            None
        }
    }

    /// The budget is kept and nothing is filed twice.
    pub open spec fn wf(self) -> bool {
        &&& self.entries.len() <= self.capacity
        &&& forall|i: int, j: int|
            0 <= i < j < self.entries.len() ==> !(self.entries[i].key == self.entries[j].key
                && self.entries[i].ts == self.entries[j].ts)
    }

    /// The entries after one update. A held entry takes the new value and
    /// keeps its age. A new entry goes to the end, and when the budget is
    /// full the oldest entry leaves to make room. With a budget of zero
    /// nothing is kept.
    pub open spec fn entries_after_insert(self, key: Seq<u8>, ts: u64, value: Seq<u8>) -> Seq<
        PreImage,
    > {
        let e = PreImage { key, ts, value };
        if self.holds(key, ts) {
            self.entries.update(self.index_of(key, ts), e)
        } else if self.capacity == 0 {
            self.entries
        } else if self.entries.len() >= self.capacity {
            self.entries.drop_first().push(e)
        } else {
            self.entries.push(e)
        }
    }

    /// One update: the entries change as above and the update counter goes up by one.
    pub open spec fn insert(self, key: Seq<u8>, ts: u64, value: Seq<u8>) -> CacheModel {
        CacheModel {
            entries: self.entries_after_insert(key, ts, value),
            update_count: self.update_count + 1,
            ..self
        }
    }

    /// Every entry dropped; the update counter stays.
    pub open spec fn clear(self) -> CacheModel {
        CacheModel { entries: Seq::empty(), ..self }
    }
}

/// An update keeps the cache well formed.
pub proof fn lemma_insert_wf(c: CacheModel, key: Seq<u8>, ts: u64, value: Seq<u8>)
    requires
        c.wf(),
    ensures
        c.insert(key, ts, value).wf(),
        c.capacity > 0 ==> c.insert(key, ts, value).get(key, ts) == Some(value),
{
    let e = PreImage { key, ts, value };
    let n = c.insert(key, ts, value);
    if c.holds(key, ts) {
        let k = c.index_of(key, ts);
        assert(n.filed_at(k, key, ts));
        let m = n.index_of(key, ts);
        assert(n.filed_at(m, key, ts));
        if m != k {
            assert(c.filed_at(m, key, ts));
        }
    } else if c.capacity == 0 {
    } else if c.entries.len() >= c.capacity {
        assert forall|i: int, j: int| 0 <= i < j < n.entries.len() implies !(n.entries[i].key
            == n.entries[j].key && n.entries[i].ts == n.entries[j].ts) by {
            if j == n.entries.len() - 1 {
                assert(!c.filed_at(i + 1, key, ts));
            }
        }
        let k = n.entries.len() - 1;
        assert(n.filed_at(k, key, ts));
        let m = n.index_of(key, ts);
        assert(n.filed_at(m, key, ts));
        if m != k {
            assert(c.filed_at(m + 1, key, ts));
        }
    } else {
        assert forall|i: int, j: int| 0 <= i < j < n.entries.len() implies !(n.entries[i].key
            == n.entries[j].key && n.entries[i].ts == n.entries[j].ts) by {
            if j == n.entries.len() - 1 {
                assert(!c.filed_at(i, key, ts));
            }
        }
        let k = n.entries.len() - 1;
        assert(n.filed_at(k, key, ts));
        let m = n.index_of(key, ts);
        assert(n.filed_at(m, key, ts));
        if m != k {
            assert(c.filed_at(m, key, ts));
        }
    }
}

struct CacheEntry {
    key: Vec<u8>,
    ts: u64,
    value: Vec<u8>,
}

impl View for CacheEntry {
    type V = PreImage;

    closed spec fn view(&self) -> PreImage {
        PreImage { key: self.key@, ts: self.ts, value: self.value@ }
    }
}

/// The cache of pre-update values, shared by every region on a node.
pub struct OldValueCache {
    entries: Vec<CacheEntry>,
    capacity: usize,
    update_count: usize,
}

impl View for OldValueCache {
    type V = CacheModel;

    closed spec fn view(&self) -> CacheModel {
        CacheModel {
            entries: self.entries@.map_values(|e: CacheEntry| e@),
            capacity: self.capacity as nat,
            update_count: self.update_count as nat,
        }
    }
}

impl OldValueCache {
    /// An empty cache that keeps at most `capacity` entries.
    pub fn new(capacity: usize) -> (cache: OldValueCache)
        ensures
            cache@ == CacheModel::empty(capacity as nat),
            cache@.wf(),
    {
        let cache = OldValueCache { entries: Vec::new(), capacity, update_count: 0 };
        assert(cache@.entries =~= Seq::empty());
        cache
    }

    /// How many updates the cache has seen since it was made.
    pub fn update_count(&self) -> (n: usize)
        ensures
            n == self@.update_count,
    {
        self.update_count
    }

    /// How many entries are held.
    pub fn len(&self) -> (n: usize)
        ensures
            n == self@.entries.len(),
    {
        self.entries.len()
    }

    /// The entry budget.
    pub fn capacity(&self) -> (n: usize)
        ensures
            n == self@.capacity,
    {
        self.capacity
    }

    fn find(&self, key: &Vec<u8>, ts: u64) -> (at: Option<usize>)
        requires
            self@.wf(),
        ensures
            at is Some <==> self@.holds(key@, ts),
            at matches Some(i) ==> self@.filed_at(i as int, key@, ts) && self@.index_of(key@, ts)
                == i,
    {
        let mut i: usize = 0;
        while i < self.entries.len()
            invariant
                i <= self.entries.len(),
                self@.wf(),
                forall|j: int| 0 <= j < i ==> !self@.filed_at(j, key@, ts),
            decreases self.entries.len() - i,
        {
            if self.entries[i].ts == ts && bytes_eq(&self.entries[i].key, key) {
                proof {
                    assert(self@.filed_at(i as int, key@, ts));
                    let c = self@.index_of(key@, ts);
                    assert(self@.filed_at(c, key@, ts));
                }
                return Some(i);
            }
            i += 1;
        }
        None
    }

    /// The cached pre-image under `key` and `before_ts`, if one is held. The
    /// cache does not change.
    pub fn get(&self, key: &Vec<u8>, before_ts: u64) -> (value: Option<Vec<u8>>)
        requires
            self@.wf(),
        ensures
            value is Some <==> self@.holds(key@, before_ts),
            match value {
                Some(v) => self@.get(key@, before_ts) == Some(v@),
                None => self@.get(key@, before_ts) is None,
            },
    {
        match self.find(key, before_ts) {
            Some(i) => Some(clone_bytes(&self.entries[i].value)),
            None => None,
        }
    }

    /// Files `value` as the pre-image under `key` and `ts` and counts one
    /// update. When the budget is full the oldest entry leaves.
    pub fn insert(&mut self, key: Vec<u8>, ts: u64, value: Vec<u8>)
        requires
            old(self)@.wf(),
            old(self)@.update_count < usize::MAX,
        ensures
            final(self)@ == old(self)@.insert(key@, ts, value@),
            final(self)@.wf(),
    {
        proof {
            lemma_insert_wf(self@, key@, ts, value@);
        }
        let ghost before = self@;
        let found = self.find(&key, ts);
        self.update_count = self.update_count + 1;
        match found {
            Some(i) => {
                self.entries[i] = CacheEntry { key, ts, value };
                assert(self@.entries =~= before.entries_after_insert(key@, ts, value@));
            },
            None => {
                if self.capacity == 0 {
                    assert(self@.entries =~= before.entries_after_insert(key@, ts, value@));
                } else {
                    if self.entries.len() >= self.capacity {
                        self.entries.remove(0);
                    }
                    self.entries.push(CacheEntry { key, ts, value });
                    assert(self@.entries =~= before.entries_after_insert(key@, ts, value@));
                }
            },
        }
    }

    /// The pre-image under `key` and `before_ts`: the cached one on a hit,
    /// with the cache unchanged; on a miss the one that `load` reads from the
    /// storage engine, which is then filed as one update.
    pub fn get_or_load<F: FnOnce(&Vec<u8>, u64) -> Vec<u8>>(
        &mut self,
        key: Vec<u8>,
        before_ts: u64,
        load: F,
    ) -> (value: Vec<u8>)
        requires
            old(self)@.wf(),
            old(self)@.update_count < usize::MAX,
            call_requires(load, (&key, before_ts)),
        ensures
            final(self)@.wf(),
            old(self)@.holds(key@, before_ts) ==> final(self)@ == old(self)@ && old(self)@.get(
                key@,
                before_ts,
            ) == Some(value@),
            !old(self)@.holds(key@, before_ts) ==> call_ensures(load, (&key, before_ts), value)
                && final(self)@ == old(self)@.insert(key@, before_ts, value@),
    {
        match self.get(&key, before_ts) {
            Some(v) => v,
            None => {
                let value = load(&key, before_ts);
                let kept = clone_bytes(&value);
                self.insert(key, before_ts, kept);
                value
            },
        }
    }

    /// Drops every entry, as when no subscriber is left to look a pre-image
    /// up. The update counter stays.
    pub fn clear(&mut self)
        ensures
            final(self)@ == old(self)@.clear(),
            final(self)@.wf(),
    {
        self.entries.clear();
        assert(self@.entries =~= Seq::empty());
    }
}

} // verus!
