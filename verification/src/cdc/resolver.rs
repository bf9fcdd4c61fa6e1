//! Lock resolver: tracks the in-flight locks of one region and computes the
//! resolved timestamp, the watermark below which no further commit can arrive.

use vstd::multiset::Multiset;
use vstd::prelude::*;
use vstd::seq_lib::group_to_multiset_ensures;

verus! {

broadcast use group_to_multiset_ensures;

/// What a resolver is, mathematically: how many locks are outstanding at each
/// start timestamp, and the last watermark it handed out.
pub struct ResolverModel {
    pub locks: Multiset<u64>,
    pub resolved_ts: u64,
}

/// `m` is the smallest start timestamp with an outstanding lock.
pub open spec fn is_min_lock(locks: Multiset<u64>, m: u64) -> bool {
    &&& locks.count(m) > 0
    &&& forall|t: u64| locks.count(t) > 0 ==> m <= t
}

/// The smallest outstanding start timestamp; meaningful when a lock is outstanding.
pub open spec fn min_lock(locks: Multiset<u64>) -> u64 {
    choose|m: u64| is_min_lock(locks, m)
}

/// The watermark that the locks alone allow: one below the oldest outstanding
/// lock (never below zero), or the hint when nothing is locked.
pub open spec fn barrier(locks: Multiset<u64>, min_ts_hint: u64) -> u64 {
    if locks.len() == 0 {
        min_ts_hint
    } else if min_lock(locks) > 0 {
        (min_lock(locks) - 1) as u64
    } else {
        0
    }
}

impl ResolverModel {
    /// A resolver with no lock and watermark zero.
    pub open spec fn empty() -> ResolverModel {
        ResolverModel { locks: Multiset::empty(), resolved_ts: 0 }
    }

    /// One more lock at `start_ts`.
    pub open spec fn track(self, start_ts: u64) -> ResolverModel {
        ResolverModel { locks: self.locks.insert(start_ts), ..self }
    }

    /// One lock fewer at `start_ts`; nothing changes when none is outstanding there.
    pub open spec fn untrack(self, start_ts: u64) -> ResolverModel {
        ResolverModel { locks: self.locks.remove(start_ts), ..self }
    }

    /// The watermark after a resolve: the barrier, clamped so that it never
    /// falls below the watermark handed out before.
    pub open spec fn watermark(self, min_ts_hint: u64) -> u64 {
        let b = barrier(self.locks, min_ts_hint);
        if b > self.resolved_ts {
            b
        } else {
            self.resolved_ts
        }
    }

    /// The resolver after it handed out the watermark.
    pub open spec fn resolve(self, min_ts_hint: u64) -> ResolverModel {
        ResolverModel { resolved_ts: self.watermark(min_ts_hint), ..self }
    }
}

/// The smallest outstanding start timestamp is unique, so `min_lock` names it.
pub proof fn lemma_min_lock_is(locks: Multiset<u64>, m: u64)
    requires
        is_min_lock(locks, m),
    ensures
        min_lock(locks) == m,
{
    let c = min_lock(locks);
    assert(is_min_lock(locks, c));
}

/// The in-flight locks of one region, counted per start timestamp, with the
/// last watermark handed out.
pub struct Resolver {
    locks: Vec<u64>,
    resolved_ts: u64,
}

impl View for Resolver {
    type V = ResolverModel;

    closed spec fn view(&self) -> ResolverModel {
        ResolverModel { locks: self.locks@.to_multiset(), resolved_ts: self.resolved_ts }
    }
}

impl Resolver {
    /// A resolver with no lock and watermark zero.
    pub fn new() -> (r: Resolver)
        ensures
            r@ == ResolverModel::empty(),
    {
        let r = Resolver { locks: Vec::new(), resolved_ts: 0 };
        proof {
            assert(r.locks@.to_multiset() =~= Multiset::<u64>::empty());
        }
        r
    }

    /// Records one more lock at `start_ts` (a prewrite).
    pub fn track_lock(&mut self, start_ts: u64)
        ensures
            final(self)@ == old(self)@.track(start_ts),
    {
        self.locks.push(start_ts);
    }

    /// Releases one lock at `start_ts` (a commit or rollback). With several
    /// locks at the same timestamp only the last release lifts the barrier.
    /// Returns whether a lock was outstanding there.
    pub fn untrack_lock(&mut self, start_ts: u64) -> (released: bool)
        ensures
            released == old(self)@.locks.contains(start_ts),
            final(self)@ == old(self)@.untrack(start_ts),
    {
        let mut i: usize = 0;
        while i < self.locks.len()
            invariant
                i <= self.locks.len(),
                self.locks == old(self).locks,
                self.resolved_ts == old(self).resolved_ts,
                forall|j: int| 0 <= j < i ==> self.locks@[j] != start_ts,
            decreases self.locks.len() - i,
        {
            if self.locks[i] == start_ts {
                assert(self.locks@.contains(start_ts));
                self.locks.remove(i);
                return true;
            }
            i += 1;
        }
        proof {
            assert(!self.locks@.contains(start_ts));
            assert(self.locks@.to_multiset().remove(start_ts) =~= self.locks@.to_multiset());
        }
        false
    }

    /// The oldest outstanding start timestamp, if any lock is outstanding.
    pub fn oldest_lock(&self) -> (m: Option<u64>)
        ensures
            m is None <==> self@.locks.len() == 0,
            m matches Some(ts) ==> is_min_lock(self@.locks, ts) && ts == min_lock(self@.locks),
    {
        if self.locks.len() == 0 {
            return None;
        }
        let mut best: u64 = self.locks[0];
        let mut i: usize = 1;
        while i < self.locks.len()
            invariant
                1 <= i <= self.locks.len(),
                self.locks@.contains(best),
                forall|j: int| 0 <= j < i ==> best <= self.locks@[j],
            decreases self.locks.len() - i,
        {
            if self.locks[i] < best {
                best = self.locks[i];
            }
            i += 1;
        }
        proof {
            assert forall|t: u64| self@.locks.count(t) > 0 implies best <= t by {
                assert(self.locks@.contains(t));
            }
            lemma_min_lock_is(self@.locks, best);
        }
        Some(best)
    }

    /// Computes the watermark: one below the oldest outstanding lock, or
    /// `min_ts_hint` when nothing is locked; never lower than the watermark
    /// returned before, which is returned again in that case.
    pub fn resolve(&mut self, min_ts_hint: u64) -> (ts: u64)
        ensures
            ts == old(self)@.watermark(min_ts_hint),
            ts >= old(self)@.resolved_ts,
            final(self)@ == old(self)@.resolve(min_ts_hint),
    {
        let b = match self.oldest_lock() {
            None => min_ts_hint,
            Some(m) => if m > 0 {
                m - 1
            } else {
                0
            },
        };
        if b > self.resolved_ts {
            self.resolved_ts = b;
        }
        self.resolved_ts
    }

    /// The last watermark handed out.
    pub fn resolved_ts(&self) -> (ts: u64)
        ensures
            ts == self@.resolved_ts,
    {
        self.resolved_ts
    }

    /// How many locks are outstanding at `start_ts`.
    pub fn lock_count(&self, start_ts: u64) -> (n: usize)
        ensures
            n == self@.locks.count(start_ts),
    {
        let mut n: usize = 0;
        let mut i: usize = 0;
        assert(self.locks@.take(0) =~= Seq::<u64>::empty());
        while i < self.locks.len()
            invariant
                i <= self.locks.len(),
                n <= i,
                n == self.locks@.take(i as int).to_multiset().count(start_ts),
            decreases self.locks.len() - i,
        {
            proof {
                    assert(self.locks@.take(i + 1) =~= self.locks@.take(i as int).push(
                    self.locks@[i as int],
                ));
            }
            if self.locks[i] == start_ts {
                n += 1;
            }
            i += 1;
        }
        proof {
            assert(self.locks@.take(i as int) =~= self.locks@);
        }
        n
    }

    /// How many locks are outstanding in all.
    pub fn len(&self) -> (n: usize)
        ensures
            n == self@.locks.len(),
    {
        self.locks.len()
    }
}


/// One thing that can happen to a resolver.
pub enum ResolverOp {
    Track(u64),
    Untrack(u64),
    Resolve(u64),
}

impl ResolverModel {
    /// The resolver after one operation.
    pub open spec fn apply(self, op: ResolverOp) -> ResolverModel {
        match op {
            ResolverOp::Track(start_ts) => self.track(start_ts),
            ResolverOp::Untrack(start_ts) => self.untrack(start_ts),
            ResolverOp::Resolve(min_ts_hint) => self.resolve(min_ts_hint),
        }
    }

    /// The resolver after the operations in order.
    pub open spec fn run(self, ops: Seq<ResolverOp>) -> ResolverModel
        decreases ops.len(),
    {
        if ops.len() == 0 {
            self
        } else {
            self.run(ops.drop_last()).apply(ops.last())
        }
    }
}

/// Among outstanding locks there is an oldest.
pub proof fn lemma_min_lock_exists(locks: Multiset<u64>, ts: u64)
    requires
        locks.count(ts) > 0,
    ensures
        is_min_lock(locks, min_lock(locks)),
        min_lock(locks) <= ts,
    decreases ts,
{
    if forall|t: u64| locks.count(t) > 0 ==> ts <= t {
        assert(is_min_lock(locks, ts));
    } else {
        let t = choose|t: u64| locks.count(t) > 0 && t < ts;
        lemma_min_lock_exists(locks, t);
    }
}

/// The watermark never goes back: whatever locks are taken and released
/// and whatever hints are given, each watermark handed out is at least the
/// one handed out before.
pub proof fn law_watermark_never_regresses(r: ResolverModel, ops: Seq<ResolverOp>)
    ensures
        r.run(ops).resolved_ts >= r.resolved_ts,
        forall|i: int|
            0 <= i < ops.len() ==> #[trigger] r.run(ops.take(i + 1)).resolved_ts >= r.run(
                ops.take(i),
            ).resolved_ts,
    decreases ops.len(),
{
    if ops.len() > 0 {
        law_watermark_never_regresses(r, ops.drop_last());
        assert forall|i: int| 0 <= i < ops.len() implies #[trigger] r.run(
            ops.take(i + 1),
        ).resolved_ts >= r.run(ops.take(i)).resolved_ts by {
            assert(ops.take(i + 1).drop_last() =~= ops.take(i));
        }
    }
}

/// The watermark stays below the locks: a lock taken above the last
/// watermark holds every later watermark below its start timestamp for as
/// long as it is outstanding.
pub proof fn law_watermark_stays_below_locks(r: ResolverModel, min_ts_hint: u64, start_ts: u64)
    requires
        r.locks.count(start_ts) > 0,
        start_ts > r.resolved_ts,
    ensures
        r.watermark(min_ts_hint) < start_ts,
{
    broadcast use vstd::multiset::group_multiset_axioms;

    lemma_min_lock_exists(r.locks, start_ts);
    assert(r.locks.len() > 0) by {
        if r.locks.len() == 0 {
            assert(r.locks =~= Multiset::empty());
        }
    }
}

} // verus!
