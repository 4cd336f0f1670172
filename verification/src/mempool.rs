//! The mempool engine: the store with its indices, a bounded cache of the
//! baselines that commits have reported for accounts, and a bounded cache of
//! the times at which slots were first seen. Every operation of the pool
//! goes through here, takes the whole pool by reference and leaves it well
//! formed.

use crate::admission::outcome;
use crate::model::{
    admitted, candidates, committed, count_members, holds, IndexKind, ledger_ok, lifted_to, lifts,
    positions_dense,
    promoted_in_order, pulled, record_at, rejected, swept, timeline_batch, timeline_next,
    slots_sorted, total_bytes, verdict, views,
};
use crate::ordered_index::IndexEntry;
use crate::store::TransactionStore;
use crate::ttl_cache::{dropped, inserted, live_at, value_of, CacheEntry, TtlCache};
use crate::types::{
    AccountAddress, AdmissionResult, HashValue, RecordView, slot_lt, SlotKey, TransactionRecord,
};
use vstd::prelude::*;

verus! {

/// The record as the pool judges it: with the baseline of its rule lifted to
/// at least `floor`.
pub open spec fn lifted(r: RecordView, floor: u64) -> RecordView {
    RecordView { sequence_info: r.sequence_info.raised(floor), ..r }
}

/// The baseline that a cache remembers for an account; zero if none.
pub open spec fn remembered(cache: Seq<CacheEntry<AccountAddress, u64>>, account: AccountAddress) -> u64 {
    match value_of(cache, account) {
        Some(b) => b,
        None => 0,
    }
}

/// The baseline under which a submission is judged: the one that it carries
/// or the remembered one, whichever is greater.
pub open spec fn floor_of(r: RecordView, remembered: u64) -> u64 {
    if r.sequence_info.baseline() >= remembered {
        r.sequence_info.baseline()
    } else {
        remembered
    }
}

/// The table `new` is `old` after the verdict on `r` was taken and carried
/// out, and `result` is what that verdict comes to. The positions handed out
/// are dense and follow the order of the slots.
pub open spec fn judged(
    old: Seq<RecordView>,
    new: Seq<RecordView>,
    old_next: u64,
    new_next: u64,
    r: RecordView,
    capacity: nat,
    capacity_bytes: nat,
    result: AdmissionResult,
) -> bool {
    &&& result == outcome(verdict(old, r, capacity, capacity_bytes))
    &&& admitted(old, new, old_next, new_next, r, capacity, capacity_bytes)
    &&& promoted_in_order(new, old_next)
    &&& positions_dense(new, old_next, new_next)
}

/// The submission of `r` under the baseline `floor` takes the table `old`
/// by way of `mid` to `new`: `mid` is `old` after the baseline of the account
/// was lifted to `floor`, `result` is the verdict on `r` before `mid`, and
/// `new` is `mid` after that verdict was carried out. `mid` is a table as
/// the pool keeps it: one record per slot, each as its rule says. The
/// positions handed out on either step are dense and follow the order of
/// the slots.
pub open spec fn submitted_through(
    old: Seq<RecordView>,
    mid: Seq<RecordView>,
    new: Seq<RecordView>,
    old_next: u64,
    mid_next: u64,
    new_next: u64,
    r: RecordView,
    floor: u64,
    capacity: nat,
    capacity_bytes: nat,
    result: AdmissionResult,
) -> bool {
    &&& lifted_to(old, mid, old_next, mid_next, r.account, floor)
    &&& slots_sorted(mid)
    &&& ledger_ok(mid, None, mid_next)
    &&& judged(mid, new, mid_next, new_next, lifted(r, floor), capacity, capacity_bytes, result)
}

/// The table `new` is `old` after the submission of `r` under the baseline
/// `floor`, with the result `result`.
pub open spec fn submitted(
    old: Seq<RecordView>,
    new: Seq<RecordView>,
    old_next: u64,
    new_next: u64,
    r: RecordView,
    floor: u64,
    capacity: nat,
    capacity_bytes: nat,
    result: AdmissionResult,
) -> bool {
    exists|mid: Seq<RecordView>, mid_next: u64| #[trigger]
        submitted_through(
            old,
            mid,
            new,
            old_next,
            mid_next,
            new_next,
            r,
            floor,
            capacity,
            capacity_bytes,
            result,
        )
}

/// The baseline after the commit of `seq`: one past `seq`, and not below
/// what was remembered.
pub open spec fn baseline_after(remembered: u64, seq: u64) -> u64 {
    let past = if seq < u64::MAX {
        (seq + 1) as u64
    } else {
        u64::MAX
    };
    if remembered >= past {
        remembered
    } else {
        past
    }
}

/// The pool of pending transactions.
pub struct CoreMempool {
    store: TransactionStore,
    sequence_cache: TtlCache<AccountAddress, u64>,
    metrics_cache: TtlCache<SlotKey, u64>,
}

impl CoreMempool {
    /// The store behind the pool.
    pub closed spec fn store(&self) -> TransactionStore {
        self.store
    }

    /// The cache of baselines.
    pub closed spec fn cache(&self) -> TtlCache<AccountAddress, u64> {
        self.sequence_cache
    }

    /// The cache of the times at which slots were first seen.
    pub closed spec fn metrics(&self) -> TtlCache<SlotKey, u64> {
        self.metrics_cache
    }

    /// The records of the pool, in increasing order of slots.
    pub open spec fn records(&self) -> Seq<RecordView> {
        self.store().records()
    }

    /// The baselines that the pool remembers, least recently reported first.
    pub open spec fn baselines(&self) -> Seq<CacheEntry<AccountAddress, u64>> {
        self.cache()@
    }

    /// The times at which the pool first saw the slots that it keeps track
    /// of, least recently seen first.
    pub open spec fn first_seen_times(&self) -> Seq<CacheEntry<SlotKey, u64>> {
        self.metrics()@
    }

    /// The timeline position that the next promotion takes.
    pub open spec fn next_position(&self) -> u64 {
        self.store().next_position()
    }

    /// The ceiling on the number of records.
    pub open spec fn capacity(&self) -> nat {
        self.store().capacity()
    }

    /// The ceiling on the sum of the payload sizes.
    pub open spec fn capacity_bytes(&self) -> nat {
        self.store().capacity_bytes()
    }

    /// The ready records' entries, best first.
    pub open spec fn priority_order(&self) -> Seq<IndexEntry> {
        self.store().index(IndexKind::Priority)@
    }

    /// The entries of the records on the timeline, by position.
    pub open spec fn timeline_order(&self) -> Seq<IndexEntry> {
        self.store().index(IndexKind::Timeline)@
    }

    /// The store and the caches are well formed: one record per slot, every
    /// record as ready as its rule says, indices in step, ceilings kept.
    pub open spec fn wf(&self) -> bool {
        &&& self.store().wf()
        &&& self.cache().wf()
        &&& self.metrics().wf()
    }

    /// An empty pool that holds at most `capacity` records of at most
    /// `capacity_bytes` bytes in all, and remembers at most `cache_capacity`
    /// baselines and as many times of first sight, for `cache_timeout` each.
    pub fn new(
        capacity: usize,
        capacity_bytes: usize,
        cache_capacity: usize,
        cache_timeout: u64,
    ) -> (r: Self)
        ensures
            r.wf(),
            r.records() == Seq::<RecordView>::empty(),
            r.baselines() == Seq::<CacheEntry<AccountAddress, u64>>::empty(),
            r.next_position() == 0,
            r.capacity() == capacity,
            r.capacity_bytes() == capacity_bytes,
            r.first_seen_times() == Seq::<CacheEntry<SlotKey, u64>>::empty(),
            r.cache().capacity() == cache_capacity,
            r.cache().timeout() == cache_timeout,
            r.metrics().capacity() == cache_capacity,
            r.metrics().timeout() == cache_timeout,
    {
        CoreMempool {
            store: TransactionStore::new(capacity, capacity_bytes),
            sequence_cache: TtlCache::new(cache_capacity, cache_timeout),
            metrics_cache: TtlCache::new(cache_capacity, cache_timeout),
        }
    }

    /// Submits a record. The baseline of its account is first lifted to the
    /// one that the record carries or the one that the pool remembers,
    /// whichever is greater: the account's records below it leave, as after
    /// a commit. Then the record is judged, under the rule of its account
    /// where the account still has records, else under its own rule with
    /// that baseline. Where nothing is lifted, the submission is the verdict
    /// alone.
    pub fn submit(&mut self, record: TransactionRecord) -> (result: AdmissionResult)
        requires
            old(self).wf(),
        ensures
            final(self).wf(),
            submitted(
                old(self).records(),
                final(self).records(),
                old(self).next_position(),
                final(self).next_position(),
                record@,
                floor_of(record@, remembered(old(self).baselines(), record@.account)),
                old(self).capacity(),
                old(self).capacity_bytes(),
                result,
            ),
            !lifts(
                old(self).records(),
                record@.account,
                floor_of(record@, remembered(old(self).baselines(), record@.account)),
            ) ==> judged(
                old(self).records(),
                final(self).records(),
                old(self).next_position(),
                final(self).next_position(),
                lifted(
                    record@,
                    floor_of(record@, remembered(old(self).baselines(), record@.account)),
                ),
                old(self).capacity(),
                old(self).capacity_bytes(),
                result,
            ),
            old(self).next_position() <= final(self).next_position(),
            final(self).baselines() == old(self).baselines(),
            final(self).cache() == old(self).cache(),
            final(self).capacity() == old(self).capacity(),
            final(self).capacity_bytes() == old(self).capacity_bytes(),
            final(self).metrics().capacity() == old(self).metrics().capacity(),
            final(self).metrics().timeout() == old(self).metrics().timeout(),
            if record@.qualified() {
                inserted(
                    old(self).first_seen_times(),
                    final(self).first_seen_times(),
                    old(self).metrics().capacity(),
                    old(self).metrics().timeout(),
                    record@.slot(),
                    record@.admitted_at,
                    record@.admitted_at,
                )
            } else {
                final(self).first_seen_times() == old(self).first_seen_times()
            },
    {
        let ghost submitted_view = record@;
        let ghost before = self.store.records();
        let ghost before_next = self.store.next_position();
        let known = match self.sequence_cache.get(&record.account) {
            Some(b) => *b,
            None => 0,
        };
        let carried = record.sequence_info.min_seq();
        let floor = if carried >= known {
            carried
        } else {
            known
        };
        if record.is_qualified() {
            self.metrics_cache.insert(record.slot(), record.admitted_at, record.admitted_at);
        }
        self.store.raise_baseline(record.account, floor);
        let ghost mid = self.store.records();
        let ghost mid_next = self.store.next_position();
        let mut record = record;
        record.sequence_info = record.sequence_info.raise(floor);
        let result = self.store.try_admit(record);
        proof {
            assert(record@ == lifted(submitted_view, floor));
            assert(submitted_through(
                before,
                mid,
                self.store.records(),
                before_next,
                mid_next,
                self.store.next_position(),
                submitted_view,
                floor,
                self.store.capacity(),
                self.store.capacity_bytes(),
                result,
            ));
        }
        result
    }

    /// The commit of `seq` for `account`, reported at the time `now`: the
    /// account's records up to `seq` leave the pool, its baseline moves past
    /// `seq`, what has become ready is promoted, the pool remembers the
    /// baseline, and it forgets when it first saw the committed slot.
    pub fn notify_commit(&mut self, account: AccountAddress, seq: u64, now: u64)
        requires
            old(self).wf(),
        ensures
            final(self).wf(),
            committed(
                old(self).records(),
                final(self).records(),
                old(self).next_position(),
                final(self).next_position(),
                account,
                seq,
            ),
            promoted_in_order(final(self).records(), old(self).next_position()),
            positions_dense(
                final(self).records(),
                old(self).next_position(),
                final(self).next_position(),
            ),
            final(self).capacity() == old(self).capacity(),
            final(self).capacity_bytes() == old(self).capacity_bytes(),
            final(self).cache().capacity() == old(self).cache().capacity(),
            final(self).cache().timeout() == old(self).cache().timeout(),
            inserted(
                old(self).baselines(),
                final(self).baselines(),
                old(self).cache().capacity(),
                old(self).cache().timeout(),
                account,
                baseline_after(remembered(old(self).baselines(), account), seq),
                now,
            ),
            final(self).metrics().capacity() == old(self).metrics().capacity(),
            final(self).metrics().timeout() == old(self).metrics().timeout(),
            dropped(
                old(self).first_seen_times(),
                final(self).first_seen_times(),
                SlotKey { account, seq },
            ),
    {
        let known = match self.sequence_cache.get(&account) {
            Some(b) => *b,
            None => 0,
        };
        let past = if seq < u64::MAX {
            seq + 1
        } else {
            u64::MAX
        };
        let baseline = if known >= past {
            known
        } else {
            past
        };
        self.sequence_cache.insert(account, baseline, now);
        self.metrics_cache.remove(&SlotKey { account, seq });
        self.store.commit(account, seq);
    }

    /// The rejection of the record in the slot of `account` and `seq`: that
    /// record leaves the pool; the baseline of the account stays, so that the
    /// slot can be filled again.
    pub fn notify_reject(&mut self, account: AccountAddress, seq: u64) -> (removed: bool)
        requires
            old(self).wf(),
        ensures
            final(self).wf(),
            removed == holds(old(self).records(), SlotKey { account, seq }),
            rejected(old(self).records(), final(self).records(), SlotKey { account, seq }),
            final(self).next_position() == old(self).next_position(),
            final(self).baselines() == old(self).baselines(),
            final(self).cache() == old(self).cache(),
            final(self).capacity() == old(self).capacity(),
            final(self).capacity_bytes() == old(self).capacity_bytes(),
            final(self).metrics().capacity() == old(self).metrics().capacity(),
            final(self).metrics().timeout() == old(self).metrics().timeout(),
            dropped(
                old(self).first_seen_times(),
                final(self).first_seen_times(),
                SlotKey { account, seq },
            ),
    {
        self.metrics_cache.remove(&SlotKey { account, seq });
        self.store.remove(SlotKey { account, seq })
    }

    /// The sweep by age at the time `now`: every record that has been in the
    /// pool for `system_ttl` or longer leaves, and so does every remembered
    /// baseline and every time of first sight that has outlived its time. Returns the number of records
    /// removed.
    pub fn gc_by_age(&mut self, system_ttl: u64, now: u64) -> (removed: usize)
        requires
            old(self).wf(),
        ensures
            final(self).wf(),
            now >= system_ttl ==> swept(
                old(self).records(),
                final(self).records(),
                true,
                (now - system_ttl) as u64,
            ),
            now < system_ttl ==> final(self).records() == old(self).records(),
            removed == old(self).records().len() - final(self).records().len(),
            final(self).next_position() == old(self).next_position(),
            final(self).baselines() == live_at(old(self).baselines(), now),
            final(self).first_seen_times() == live_at(old(self).first_seen_times(), now),
            final(self).capacity() == old(self).capacity(),
            final(self).capacity_bytes() == old(self).capacity_bytes(),
            final(self).cache().capacity() == old(self).cache().capacity(),
            final(self).cache().timeout() == old(self).cache().timeout(),
            final(self).metrics().capacity() == old(self).metrics().capacity(),
            final(self).metrics().timeout() == old(self).metrics().timeout(),
    {
        self.sequence_cache.gc(now);
        self.metrics_cache.gc(now);
        if now >= system_ttl {
            self.store.sweep(true, now - system_ttl)
        } else {
            0
        }
    }

    /// The sweep by expiration at the time `now`: every record whose own
    /// expiration is at or before `now` leaves. Returns the number of records
    /// removed.
    pub fn evict_expired(&mut self, now: u64) -> (removed: usize)
        requires
            old(self).wf(),
        ensures
            final(self).wf(),
            swept(old(self).records(), final(self).records(), false, now),
            removed == old(self).records().len() - final(self).records().len(),
            final(self).next_position() == old(self).next_position(),
            final(self).baselines() == old(self).baselines(),
            final(self).cache() == old(self).cache(),
            final(self).first_seen_times() == old(self).first_seen_times(),
            final(self).metrics() == old(self).metrics(),
            final(self).capacity() == old(self).capacity(),
            final(self).capacity_bytes() == old(self).capacity_bytes(),
    {
        self.store.sweep(false, now)
    }

    /// The batch that a block proposer pulls: the ready records in priority
    /// order, without those whose digest is in `exclude`, up to the first
    /// record that would take the batch beyond `max_count` records or
    /// `max_bytes` bytes. The pool does not change.
    pub fn pull_batch(&self, max_count: u64, max_bytes: u64, exclude: &Vec<HashValue>) -> (out:
        Vec<TransactionRecord>)
        requires
            self.wf(),
        ensures
            pulled(
                candidates(self.records(), self.priority_order(), exclude@),
                views(out@),
                max_count,
                max_bytes,
            ),
    {
        self.store.pull_batch(max_count, max_bytes, exclude)
    }

    /// Reads the broadcast timeline from the position `from`: the records on
    /// the timeline at or after `from`, in the order of their positions, at
    /// most `max_count` of them, and the position at which to resume.
    pub fn read_timeline(&self, from: u64, max_count: usize) -> (r: (Vec<TransactionRecord>, u64))
        requires
            self.wf(),
        ensures
            r.0@.len() == timeline_batch(self.timeline_order(), from, max_count as nat).len(),
            forall|i: int|
                0 <= i < r.0@.len() ==> (#[trigger] r.0@[i])@ == record_at(
                    self.records(),
                    timeline_batch(self.timeline_order(), from, max_count as nat)[i].slot,
                ),
            r.1 == timeline_next(self.timeline_order(), from, max_count as nat),
    {
        self.store.read_timeline(from, max_count)
    }

    /// The record with the digest `hash`; among several, the one with the
    /// least slot.
    pub fn get_by_hash(&self, hash: HashValue) -> (r: Option<&TransactionRecord>)
        requires
            self.wf(),
        ensures
            match r {
                Some(rec) => {
                    &&& rec@.hash == hash
                    &&& holds(self.records(), rec@.slot())
                    &&& record_at(self.records(), rec@.slot()) == rec@
                    &&& forall|j: int|
                        0 <= j < self.records().len() && (#[trigger] self.records()[j]).hash
                            == hash ==> !slot_lt(self.records()[j].slot(), rec@.slot())
                },
                None => forall|j: int|
                    0 <= j < self.records().len() ==> (#[trigger] self.records()[j]).hash != hash,
            },
    {
        self.store.lookup_by_hash(hash)
    }

    /// The number of ready records, the number of blocked records and the
    /// sum of the payload sizes. Both ceilings are kept.
    pub fn size(&self) -> (r: (usize, usize, usize))
        requires
            self.wf(),
        ensures
            r.0 == count_members(self.records(), IndexKind::Priority),
            r.1 == count_members(self.records(), IndexKind::Parking),
            r.0 + r.1 == self.records().len(),
            r.2 == total_bytes(self.records()),
            r.0 + r.1 <= self.capacity(),
            r.2 <= self.capacity_bytes(),
    {
        self.store.size()
    }

    /// The time at which the pool first saw the slot of `account` and `seq`,
    /// as far as it keeps track of it.
    pub fn first_seen(&self, account: AccountAddress, seq: u64) -> (r: Option<u64>)
        requires
            self.wf(),
        ensures
            r == value_of(self.first_seen_times(), SlotKey { account, seq }),
    {
        match self.metrics_cache.get(&SlotKey { account, seq }) {
            Some(t) => Some(*t),
            None => None,
        }
    }

    /// The number of blocked records.
    pub fn get_parking_lot_size(&self) -> (r: usize)
        requires
            self.wf(),
        ensures
            r == count_members(self.records(), IndexKind::Parking),
    {
        self.store.size().1
    }
}

} // verus!
