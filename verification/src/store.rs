//! The transaction store: the one table that owns every admitted record,
//! sorted by slot, and the six indices that refer to its records by slot.
//! The functions of this file change one record at a time and keep the
//! indices in step with the table.

use crate::model::{
    holds, indexed, IndexKind, key_of, ledger_ok, member, restated, slots_sorted, takes_position,
    total_bytes, views,
};
use crate::table_proofs::{
    lemma_absent_not_indexed, lemma_bytes_bound, lemma_bytes_insert, lemma_bytes_remove,
    lemma_bytes_update, lemma_indexed_insert, lemma_indexed_remove, lemma_indexed_update,
};
use crate::ordered_index::{entry_lt, IndexEntry, OrderedIndex};
use crate::types::{RecordView, SequenceInfo, slot_lt, SlotKey, TimelineState, TransactionRecord};
use vstd::prelude::*;

verus! {

/// The entry of `r` in the index `kind`.
pub fn entry_of(kind: IndexKind, r: &TransactionRecord) -> (e: IndexEntry)
    ensures
        e == key_of(kind, r@),
{
    let slot = SlotKey { account: r.account, seq: r.seq };
    match kind {
        IndexKind::Priority => IndexEntry {
            major: (u64::MAX - r.ranking_score) as u128,
            minor: r.expiration as u128,
            slot,
        },
        IndexKind::Timeline => IndexEntry {
            major: match r.timeline_state {
                TimelineState::Ready(p) => p as u128,
                _ => 0,
            },
            minor: 0,
            slot,
        },
        IndexKind::Expiration => IndexEntry { major: r.expiration as u128, minor: 0, slot },
        IndexKind::Age => IndexEntry { major: r.admitted_at as u128, minor: 0, slot },
        IndexKind::Parking => IndexEntry { major: r.admitted_at as u128, minor: 0, slot },
        IndexKind::Hash => IndexEntry { major: r.hash.hi, minor: r.hash.lo, slot },
    }
}

/// The table of records with its indices, its timeline counter and its two
/// ceilings.
pub struct TransactionStore {
    table: Vec<TransactionRecord>,
    priority_index: OrderedIndex,
    timeline_index: OrderedIndex,
    expiration_index: OrderedIndex,
    age_index: OrderedIndex,
    parking_lot: OrderedIndex,
    hash_index: OrderedIndex,
    next_position: u64,
    size_bytes: usize,
    capacity: usize,
    capacity_bytes: usize,
}

impl TransactionStore {
    /// The records, in increasing order of slots.
    pub closed spec fn records(&self) -> Seq<RecordView> {
        views(self.table@)
    }

    /// The index `kind`.
    pub closed spec fn index(&self, kind: IndexKind) -> OrderedIndex {
        match kind {
            IndexKind::Priority => self.priority_index,
            IndexKind::Timeline => self.timeline_index,
            IndexKind::Expiration => self.expiration_index,
            IndexKind::Age => self.age_index,
            IndexKind::Parking => self.parking_lot,
            IndexKind::Hash => self.hash_index,
        }
    }

    /// The timeline position that the next promotion takes.
    pub closed spec fn next_position(&self) -> u64 {
        self.next_position
    }

    /// The byte total as the store keeps it.
    pub closed spec fn size_bytes(&self) -> nat {
        self.size_bytes as nat
    }

    /// The ceiling on the number of records.
    pub closed spec fn capacity(&self) -> nat {
        self.capacity as nat
    }

    /// The ceiling on the sum of the payload sizes.
    pub closed spec fn capacity_bytes(&self) -> nat {
        self.capacity_bytes as nat
    }

    /// The index `kind` holds the entries of the table's records, no others.
    pub open spec fn index_ok(&self, kind: IndexKind) -> bool {
        &&& self.index(kind).wf()
        &&& forall|e: IndexEntry| #[trigger]
            self.index(kind).has(e) <==> indexed(self.records(), kind, e)
    }

    /// A record on the timeline is ready and its position has been handed
    /// out; no position is held twice.
    pub open spec fn positions_ok(&self) -> bool {
        &&& forall|i: int|
            0 <= i < self.records().len() ==> match (#[trigger] self.records()[i]).timeline_state {
                TimelineState::Ready(p) => self.records()[i].ready && p < self.next_position(),
                _ => true,
            }
        &&& forall|i: int, j: int|
            0 <= i < self.records().len() && 0 <= j < self.records().len() && i != j && (
            #[trigger] self.records()[i]).timeline_state is Ready
                ==> self.records()[i].timeline_state != (
            #[trigger] self.records()[j]).timeline_state
    }

    /// What holds of the store at every moment: one record per slot, indices
    /// in step with the table, both ceilings kept.
    pub open spec fn consistent(&self) -> bool {
        &&& slots_sorted(self.records())
        &&& self.index_ok(IndexKind::Priority)
        &&& self.index_ok(IndexKind::Timeline)
        &&& self.index_ok(IndexKind::Expiration)
        &&& self.index_ok(IndexKind::Age)
        &&& self.index_ok(IndexKind::Parking)
        &&& self.index_ok(IndexKind::Hash)
        &&& self.index(IndexKind::Priority)@.len() + self.index(IndexKind::Parking)@.len()
            == self.records().len()
        &&& self.size_bytes() == total_bytes(self.records())
        &&& self.records().len() <= self.capacity()
        &&& total_bytes(self.records()) <= self.capacity_bytes()
        &&& self.positions_ok()
    }

    /// All of `consistent`, and every record agrees with the sequencing rule
    /// of its account.
    pub open spec fn wf(&self) -> bool {
        &&& self.consistent()
        &&& ledger_ok(self.records(), None, self.next_position())
    }

    /// An empty store with the two ceilings.
    pub fn new(capacity: usize, capacity_bytes: usize) -> (r: Self)
        ensures
            r.wf(),
            r.records() == Seq::<RecordView>::empty(),
            r.next_position() == 0,
            r.capacity() == capacity,
            r.capacity_bytes() == capacity_bytes,
    {
        let r = TransactionStore {
            table: Vec::new(),
            priority_index: OrderedIndex::new(),
            timeline_index: OrderedIndex::new(),
            expiration_index: OrderedIndex::new(),
            age_index: OrderedIndex::new(),
            parking_lot: OrderedIndex::new(),
            hash_index: OrderedIndex::new(),
            next_position: 0,
            size_bytes: 0,
            capacity,
            capacity_bytes,
        };
        assert(r.records() =~= Seq::<RecordView>::empty());
        r
    }

    /// The number of records.
    pub fn len(&self) -> (r: usize)
        ensures
            r == self.records().len(),
    {
        self.table.len()
    }

    /// The record at place `i` of the table.
    pub fn record(&self, i: usize) -> (r: &TransactionRecord)
        requires
            i < self.records().len(),
        ensures
            r@ == self.records()[i as int],
    {
        &self.table[i]
    }

    /// The number of records whose slot lies below `slot`.
    pub fn lower_bound(&self, slot: &SlotKey) -> (r: usize)
        requires
            slots_sorted(self.records()),
        ensures
            r <= self.records().len(),
            forall|j: int| 0 <= j < r ==> slot_lt((#[trigger] self.records()[j]).slot(), *slot),
            forall|j: int|
                r <= j < self.records().len() ==> !slot_lt(
                    (#[trigger] self.records()[j]).slot(),
                    *slot,
                ),
    {
        let mut lo: usize = 0;
        let mut hi: usize = self.table.len();
        while lo < hi
            invariant
                lo <= hi <= self.records().len(),
                self.records().len() == self.table@.len(),
                slots_sorted(self.records()),
                forall|j: int| 0 <= j < lo ==> slot_lt((#[trigger] self.records()[j]).slot(), *slot),
                forall|j: int|
                    hi <= j < self.records().len() ==> !slot_lt(
                        (#[trigger] self.records()[j]).slot(),
                        *slot,
                    ),
            decreases hi - lo,
        {
            let mid: usize = lo + (hi - lo) / 2;
            let here = SlotKey { account: self.table[mid].account, seq: self.table[mid].seq };
            assert(here == self.records()[mid as int].slot());
            if here.lt(slot) {
                assert forall|j: int| 0 <= j < mid + 1 implies slot_lt(
                    (#[trigger] self.records()[j]).slot(),
                    *slot,
                ) by {
                    if j < mid {
                        assert(slot_lt(self.records()[j].slot(), self.records()[mid as int].slot()));
                    }
                }
                lo = mid + 1;
            } else {
                assert forall|j: int| mid <= j < self.records().len() implies !slot_lt(
                    (#[trigger] self.records()[j]).slot(),
                    *slot,
                ) by {
                    if j > mid {
                        assert(slot_lt(self.records()[mid as int].slot(), self.records()[j].slot()));
                    }
                }
                hi = mid;
            }
        }
        lo
    }

    /// The place of the record in `slot`, if the slot is occupied.
    pub fn find(&self, slot: &SlotKey) -> (r: Option<usize>)
        requires
            slots_sorted(self.records()),
        ensures
            match r {
                Some(i) => i < self.records().len() && self.records()[i as int].slot() == *slot,
                None => !holds(self.records(), *slot),
            },
    {
        let i = self.lower_bound(slot);
        if i < self.table.len() && self.table[i].account == slot.account && self.table[i].seq
            == slot.seq {
            assert(self.records()[i as int].slot() == *slot);
            Some(i)
        } else {
            assert forall|j: int| 0 <= j < self.records().len() implies (
            #[trigger] self.records()[j]).slot() != *slot by {
                if j > i {
                    assert(slot_lt(self.records()[i as int].slot(), self.records()[j].slot()));
                }
            }
            None
        }
    }

    /// The number of entries of the index `kind`.
    pub fn index_len(&self, kind: IndexKind) -> (r: usize)
        ensures
            r == self.index(kind)@.len(),
    {
        match kind {
            IndexKind::Priority => self.priority_index.len(),
            IndexKind::Timeline => self.timeline_index.len(),
            IndexKind::Expiration => self.expiration_index.len(),
            IndexKind::Age => self.age_index.len(),
            IndexKind::Parking => self.parking_lot.len(),
            IndexKind::Hash => self.hash_index.len(),
        }
    }

    /// The entry at rank `i` of the index `kind`.
    pub fn index_entry(&self, kind: IndexKind, i: usize) -> (r: IndexEntry)
        requires
            i < self.index(kind)@.len(),
        ensures
            r == self.index(kind)@[i as int],
    {
        match kind {
            IndexKind::Priority => self.priority_index.get(i),
            IndexKind::Timeline => self.timeline_index.get(i),
            IndexKind::Expiration => self.expiration_index.get(i),
            IndexKind::Age => self.age_index.get(i),
            IndexKind::Parking => self.parking_lot.get(i),
            IndexKind::Hash => self.hash_index.get(i),
        }
    }

    /// The number of entries of the index `kind` that stand before `e`.
    pub fn index_lower_bound(&self, kind: IndexKind, e: &IndexEntry) -> (r: usize)
        requires
            self.index(kind).wf(),
        ensures
            r <= self.index(kind)@.len(),
            forall|j: int| 0 <= j < r ==> entry_lt(#[trigger] self.index(kind)@[j], *e),
            forall|j: int|
                r <= j < self.index(kind)@.len() ==> !entry_lt(
                    #[trigger] self.index(kind)@[j],
                    *e,
                ),
    {
        match kind {
            IndexKind::Priority => self.priority_index.lower_bound(e),
            IndexKind::Timeline => self.timeline_index.lower_bound(e),
            IndexKind::Expiration => self.expiration_index.lower_bound(e),
            IndexKind::Age => self.age_index.lower_bound(e),
            IndexKind::Parking => self.parking_lot.lower_bound(e),
            IndexKind::Hash => self.hash_index.lower_bound(e),
        }
    }

    /// The byte total of the records.
    pub fn bytes(&self) -> (r: usize)
        requires
            self.consistent(),
        ensures
            r == total_bytes(self.records()),
    {
        self.size_bytes
    }

    /// The ceiling on the number of records.
    pub fn count_limit(&self) -> (r: usize)
        ensures
            r == self.capacity(),
    {
        self.capacity
    }

    /// The ceiling on the byte total.
    pub fn bytes_limit(&self) -> (r: usize)
        ensures
            r == self.capacity_bytes(),
    {
        self.capacity_bytes
    }

    /// As long as nothing is promoted, no position at or after the next one
    /// has been handed out.
    pub proof fn lemma_no_promotion(&self)
        requires
            self.consistent(),
        ensures
            crate::model::promoted_in_order(self.records(), self.next_position()),
    {
        let table = self.records();
        assert forall|a: int, b: int| 0 <= a < b < table.len() implies match (
            (#[trigger] table[a]).timeline_state,
            (#[trigger] table[b]).timeline_state,
        ) {
            (TimelineState::Ready(p), TimelineState::Ready(q)) => p >= self.next_position() && q
                >= self.next_position() ==> p < q,
            _ => true,
        } by {}
    }

    /// Puts `r` into the table at its place `pos`, as a blocked record.
    pub(crate) fn insert_record(&mut self, r: TransactionRecord, pos: usize)
        requires
            old(self).consistent(),
            pos <= old(self).records().len(),
            forall|j: int| 0 <= j < pos ==> slot_lt((#[trigger] old(self).records()[j]).slot(), r@.slot()),
            forall|j: int|
                pos <= j < old(self).records().len() ==> slot_lt(
                    r@.slot(),
                    (#[trigger] old(self).records()[j]).slot(),
                ),
            !r@.ready,
            !(r@.timeline_state is Ready),
            old(self).records().len() + 1 <= old(self).capacity(),
            total_bytes(old(self).records()) + r@.bytes() <= old(self).capacity_bytes(),
        ensures
            final(self).consistent(),
            final(self).records() == old(self).records().insert(pos as int, r@),
            final(self).next_position() == old(self).next_position(),
            final(self).capacity() == old(self).capacity(),
            final(self).capacity_bytes() == old(self).capacity_bytes(),
    {
        let ghost before = self.records();
        let ghost rv = r@;
        let e_exp = entry_of(IndexKind::Expiration, &r);
        let e_age = entry_of(IndexKind::Age, &r);
        let e_park = entry_of(IndexKind::Parking, &r);
        let e_hash = entry_of(IndexKind::Hash, &r);
        let bytes = r.bytes();
        proof {
            assert(!holds(before, rv.slot())) by {
                assert forall|j: int| 0 <= j < before.len() implies (#[trigger] before[j]).slot()
                    != rv.slot() by {}
            }
            lemma_absent_not_indexed(before, IndexKind::Parking, e_park);
            lemma_bytes_insert(before, pos as int, rv);
        }
        self.table.insert(pos, r);
        self.expiration_index.insert(e_exp);
        self.age_index.insert(e_age);
        self.parking_lot.insert(e_park);
        self.hash_index.insert(e_hash);
        self.size_bytes = self.size_bytes + bytes;
        proof {
            let after = self.records();
            assert(after =~= before.insert(pos as int, rv));
            assert(slots_sorted(after)) by {
                assert forall|a: int, b: int| 0 <= a < b < after.len() implies slot_lt(
                    (#[trigger] after[a]).slot(),
                    (#[trigger] after[b]).slot(),
                ) by {
                    let a0 = if a < pos { a } else { a - 1 };
                    let b0 = if b < pos { b } else { b - 1 };
                    if a != pos && b != pos {
                        assert(slot_lt(before[a0].slot(), before[b0].slot()));
                    } else if a == pos {
                        assert(after[b] == before[b0]);
                    } else {
                        assert(after[a] == before[a0]);
                    }
                }
            }
            assert forall|e: IndexEntry| #[trigger]
                self.index(IndexKind::Priority).has(e) <==> indexed(
                    after,
                    IndexKind::Priority,
                    e,
                ) by {
                lemma_indexed_insert(before, pos as int, rv, IndexKind::Priority, e);
            }
            assert forall|e: IndexEntry| #[trigger]
                self.index(IndexKind::Timeline).has(e) <==> indexed(
                    after,
                    IndexKind::Timeline,
                    e,
                ) by {
                lemma_indexed_insert(before, pos as int, rv, IndexKind::Timeline, e);
            }
            assert forall|e: IndexEntry| #[trigger]
                self.index(IndexKind::Expiration).has(e) <==> indexed(
                    after,
                    IndexKind::Expiration,
                    e,
                ) by {
                lemma_indexed_insert(before, pos as int, rv, IndexKind::Expiration, e);
            }
            assert forall|e: IndexEntry| #[trigger]
                self.index(IndexKind::Age).has(e) <==> indexed(after, IndexKind::Age, e) by {
                lemma_indexed_insert(before, pos as int, rv, IndexKind::Age, e);
            }
            assert forall|e: IndexEntry| #[trigger]
                self.index(IndexKind::Parking).has(e) <==> indexed(
                    after,
                    IndexKind::Parking,
                    e,
                ) by {
                lemma_indexed_insert(before, pos as int, rv, IndexKind::Parking, e);
            }
            assert forall|e: IndexEntry| #[trigger]
                self.index(IndexKind::Hash).has(e) <==> indexed(after, IndexKind::Hash, e) by {
                lemma_indexed_insert(before, pos as int, rv, IndexKind::Hash, e);
            }
            assert(self.positions_ok()) by {
                assert forall|i: int| 0 <= i < after.len() implies match (
                #[trigger] after[i]).timeline_state {
                    TimelineState::Ready(p) => after[i].ready && p < self.next_position(),
                    _ => true,
                } by {
                    if i != pos {
                        let i0 = if i < pos { i } else { i - 1 };
                        assert(after[i] == before[i0]);
                    }
                }
                assert forall|i: int, j: int|
                    0 <= i < after.len() && 0 <= j < after.len() && i != j && (
                    #[trigger] after[i]).timeline_state is Ready implies after[i].timeline_state
                    != (#[trigger] after[j]).timeline_state by {
                    let i0 = if i < pos { i } else { i - 1 };
                    let j0 = if j < pos { j } else { j - 1 };
                    if i != pos && j != pos {
                        assert(after[i] == before[i0]);
                        assert(after[j] == before[j0]);
                    }
                }
            }
        }
    }

    /// Takes the record at place `i` out of the table and out of every index.
    pub(crate) fn remove_at(&mut self, i: usize) -> (r: TransactionRecord)
        requires
            old(self).consistent(),
            i < old(self).records().len(),
        ensures
            final(self).consistent(),
            final(self).records() == old(self).records().remove(i as int),
            r@ == old(self).records()[i as int],
            final(self).next_position() == old(self).next_position(),
            final(self).capacity() == old(self).capacity(),
            final(self).capacity_bytes() == old(self).capacity_bytes(),
    {
        let ghost before = self.records();
        let r = self.table.remove(i);
        let ghost rv = r@;
        assert(rv == before[i as int]);
        proof {
            lemma_bytes_remove(before, i as int);
            lemma_bytes_bound(before, i as int);
        }
        if r.ready {
            let e = entry_of(IndexKind::Priority, &r);
            self.priority_index.remove(&e);
        } else {
            let e = entry_of(IndexKind::Parking, &r);
            self.parking_lot.remove(&e);
        }
        match r.timeline_state {
            TimelineState::Ready(_) => {
                let e = entry_of(IndexKind::Timeline, &r);
                self.timeline_index.remove(&e);
            },
            _ => {},
        }
        let e_exp = entry_of(IndexKind::Expiration, &r);
        let e_age = entry_of(IndexKind::Age, &r);
        let e_hash = entry_of(IndexKind::Hash, &r);
        self.expiration_index.remove(&e_exp);
        self.age_index.remove(&e_age);
        self.hash_index.remove(&e_hash);
        self.size_bytes = self.size_bytes - r.bytes();
        proof {
            let after = self.records();
            assert(after =~= before.remove(i as int));
            assert(slots_sorted(after)) by {
                assert forall|a: int, b: int| 0 <= a < b < after.len() implies slot_lt(
                    (#[trigger] after[a]).slot(),
                    (#[trigger] after[b]).slot(),
                ) by {
                    let a0 = if a < i { a } else { a + 1 };
                    let b0 = if b < i { b } else { b + 1 };
                    assert(slot_lt(before[a0].slot(), before[b0].slot()));
                }
            }
            assert forall|e: IndexEntry| #[trigger]
                self.index(IndexKind::Priority).has(e) <==> indexed(
                    after,
                    IndexKind::Priority,
                    e,
                ) by {
                lemma_indexed_remove(before, i as int, IndexKind::Priority, e);
            }
            assert forall|e: IndexEntry| #[trigger]
                self.index(IndexKind::Timeline).has(e) <==> indexed(
                    after,
                    IndexKind::Timeline,
                    e,
                ) by {
                lemma_indexed_remove(before, i as int, IndexKind::Timeline, e);
            }
            assert forall|e: IndexEntry| #[trigger]
                self.index(IndexKind::Expiration).has(e) <==> indexed(
                    after,
                    IndexKind::Expiration,
                    e,
                ) by {
                lemma_indexed_remove(before, i as int, IndexKind::Expiration, e);
            }
            assert forall|e: IndexEntry| #[trigger]
                self.index(IndexKind::Age).has(e) <==> indexed(after, IndexKind::Age, e) by {
                lemma_indexed_remove(before, i as int, IndexKind::Age, e);
            }
            assert forall|e: IndexEntry| #[trigger]
                self.index(IndexKind::Parking).has(e) <==> indexed(
                    after,
                    IndexKind::Parking,
                    e,
                ) by {
                lemma_indexed_remove(before, i as int, IndexKind::Parking, e);
            }
            assert forall|e: IndexEntry| #[trigger]
                self.index(IndexKind::Hash).has(e) <==> indexed(after, IndexKind::Hash, e) by {
                lemma_indexed_remove(before, i as int, IndexKind::Hash, e);
            }
            if rv.ready {
                assert(indexed(before, IndexKind::Priority, key_of(IndexKind::Priority, rv)));
            } else {
                assert(indexed(before, IndexKind::Parking, key_of(IndexKind::Parking, rv)));
            }
            assert(self.positions_ok()) by {
                assert forall|a: int| 0 <= a < after.len() implies match (
                #[trigger] after[a]).timeline_state {
                    TimelineState::Ready(p) => after[a].ready && p < self.next_position(),
                    _ => true,
                } by {
                    let a0 = if a < i { a } else { a + 1 };
                    assert(after[a] == before[a0]);
                }
                assert forall|a: int, b: int|
                    0 <= a < after.len() && 0 <= b < after.len() && a != b && (
                    #[trigger] after[a]).timeline_state is Ready implies after[a].timeline_state
                    != (#[trigger] after[b]).timeline_state by {
                    let a0 = if a < i { a } else { a + 1 };
                    let b0 = if b < i { b } else { b + 1 };
                    assert(after[a] == before[a0]);
                    assert(after[b] == before[b0]);
                }
            }
        }
        r
    }

    /// Records at place `i` whether the record is ready, and the rule of its
    /// account, and moves its index entries accordingly.
    pub(crate) fn set_state(&mut self, i: usize, ready: bool, info: SequenceInfo)
        requires
            old(self).consistent(),
            i < old(self).records().len(),
        ensures
            final(self).consistent(),
            final(self).records() == old(self).records().update(
                i as int,
                restated(old(self).records()[i as int], ready, info, old(self).next_position()),
            ),
            final(self).next_position() == if takes_position(
                old(self).records()[i as int],
                ready,
                old(self).next_position(),
            ) {
                (old(self).next_position() + 1) as u64
            } else {
                old(self).next_position()
            },
            final(self).capacity() == old(self).capacity(),
            final(self).capacity_bytes() == old(self).capacity_bytes(),
    {
        let ghost before = self.records();
        let ghost old_next = self.next_position;
        let ghost rv = before[i as int];
        let ghost nv = restated(rv, ready, info, old_next);
        let was_ready = self.table[i].ready;
        let old_state = self.table[i].timeline_state;
        let e_prio = entry_of(IndexKind::Priority, &self.table[i]);
        let e_park = entry_of(IndexKind::Parking, &self.table[i]);
        let e_time_old = entry_of(IndexKind::Timeline, &self.table[i]);
        proof {
            if rv.ready {
                assert(indexed(before, IndexKind::Priority, key_of(IndexKind::Priority, rv)));
                assert(!indexed(before, IndexKind::Parking, e_park)) by {
                    if indexed(before, IndexKind::Parking, e_park) {
                        let k = choose|k: int|
                            0 <= k < before.len() && member(
                                IndexKind::Parking,
                                #[trigger] before[k],
                            ) && key_of(IndexKind::Parking, before[k]) == e_park;
                        if k < i {
                            assert(slot_lt(before[k].slot(), before[i as int].slot()));
                        } else if k > i {
                            assert(slot_lt(before[i as int].slot(), before[k].slot()));
                        }
                    }
                }
            } else {
                assert(indexed(before, IndexKind::Parking, key_of(IndexKind::Parking, rv)));
                assert(!indexed(before, IndexKind::Priority, e_prio)) by {
                    if indexed(before, IndexKind::Priority, e_prio) {
                        let k = choose|k: int|
                            0 <= k < before.len() && member(
                                IndexKind::Priority,
                                #[trigger] before[k],
                            ) && key_of(IndexKind::Priority, before[k]) == e_prio;
                        if k < i {
                            assert(slot_lt(before[k].slot(), before[i as int].slot()));
                        } else if k > i {
                            assert(slot_lt(before[i as int].slot(), before[k].slot()));
                        }
                    }
                }
            }
            lemma_bytes_update(before, i as int, nv);
        }
        if was_ready && !ready {
            self.priority_index.remove(&e_prio);
            self.parking_lot.insert(e_park);
        } else if !was_ready && ready {
            self.parking_lot.remove(&e_park);
            self.priority_index.insert(e_prio);
        }
        let new_state = match old_state {
            TimelineState::NonQualified => TimelineState::NonQualified,
            TimelineState::Ready(p) => {
                if ready {
                    TimelineState::Ready(p)
                } else {
                    self.timeline_index.remove(&e_time_old);
                    TimelineState::NotReady
                }
            },
            TimelineState::NotReady => {
                if ready && self.next_position < u64::MAX {
                    let p = self.next_position;
                    self.timeline_index.insert(
                        IndexEntry { major: p as u128, minor: 0, slot: e_prio.slot },
                    );
                    self.next_position = p + 1;
                    TimelineState::Ready(p)
                } else {
                    TimelineState::NotReady
                }
            },
        };
        let ghost table_before = self.table@;
        self.table[i].ready = ready;
        self.table[i].timeline_state = new_state;
        self.table[i].sequence_info = info;
        proof {
            let after = self.records();
            assert(self.table@.len() == table_before.len());
            assert(self.table@[i as int]@ == nv);
            assert(forall|j: int|
                0 <= j < table_before.len() && j != i ==> self.table@[j] == table_before[j]);
            assert(after =~= before.update(i as int, nv));
            assert(nv.slot() == rv.slot());
            assert(slots_sorted(after)) by {
                assert forall|a: int, b: int| 0 <= a < b < after.len() implies slot_lt(
                    (#[trigger] after[a]).slot(),
                    (#[trigger] after[b]).slot(),
                ) by {
                    assert(slot_lt(before[a].slot(), before[b].slot()));
                }
            }
            assert forall|e: IndexEntry| #[trigger]
                self.index(IndexKind::Priority).has(e) <==> indexed(
                    after,
                    IndexKind::Priority,
                    e,
                ) by {
                lemma_indexed_update(before, i as int, nv, IndexKind::Priority, e);
            }
            assert forall|e: IndexEntry| #[trigger]
                self.index(IndexKind::Timeline).has(e) <==> indexed(
                    after,
                    IndexKind::Timeline,
                    e,
                ) by {
                lemma_indexed_update(before, i as int, nv, IndexKind::Timeline, e);
            }
            assert forall|e: IndexEntry| #[trigger]
                self.index(IndexKind::Expiration).has(e) <==> indexed(
                    after,
                    IndexKind::Expiration,
                    e,
                ) by {
                lemma_indexed_update(before, i as int, nv, IndexKind::Expiration, e);
                assert(indexed(before, IndexKind::Expiration, key_of(IndexKind::Expiration, rv)));
            }
            assert forall|e: IndexEntry| #[trigger]
                self.index(IndexKind::Age).has(e) <==> indexed(after, IndexKind::Age, e) by {
                lemma_indexed_update(before, i as int, nv, IndexKind::Age, e);
                assert(indexed(before, IndexKind::Age, key_of(IndexKind::Age, rv)));
            }
            assert forall|e: IndexEntry| #[trigger]
                self.index(IndexKind::Parking).has(e) <==> indexed(
                    after,
                    IndexKind::Parking,
                    e,
                ) by {
                lemma_indexed_update(before, i as int, nv, IndexKind::Parking, e);
            }
            assert forall|e: IndexEntry| #[trigger]
                self.index(IndexKind::Hash).has(e) <==> indexed(after, IndexKind::Hash, e) by {
                lemma_indexed_update(before, i as int, nv, IndexKind::Hash, e);
                assert(indexed(before, IndexKind::Hash, key_of(IndexKind::Hash, rv)));
            }
            assert(self.positions_ok()) by {
                assert forall|a: int| 0 <= a < after.len() implies match (
                #[trigger] after[a]).timeline_state {
                    TimelineState::Ready(p) => after[a].ready && p < self.next_position(),
                    _ => true,
                } by {
                    if a != i {
                        assert(after[a] == before[a]);
                    }
                }
                assert forall|a: int, b: int|
                    0 <= a < after.len() && 0 <= b < after.len() && a != b && (
                    #[trigger] after[a]).timeline_state is Ready implies after[a].timeline_state
                    != (#[trigger] after[b]).timeline_state by {
                    if a != i {
                        assert(after[a] == before[a]);
                    }
                    if b != i {
                        assert(after[b] == before[b]);
                    }
                }
            }
        }
    }
}

} // verus!
