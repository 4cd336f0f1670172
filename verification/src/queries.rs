//! The read-only side of the store: the pull of a batch in priority order,
//! the read of the broadcast timeline, the lookup by digest and the sizes.
//! None of these changes the store.

use crate::model::{
    candidates, count_members, holds, indexed, IndexKind, key_of, member, positions_increasing,
    pulled, record_at, timeline_batch, timeline_next, total_bytes, views, within_budget,
};
use crate::query_proofs::{lemma_candidates_prefix, lemma_since_is_skip};
use crate::table_proofs::{lemma_index_len, lemma_record_at};
use crate::ordered_index::{entry_lt, IndexEntry};
use crate::store::TransactionStore;
use crate::types::{
    AccountAddress, HashValue, RecordView, slot_lt, SlotKey, TimelineState, TransactionRecord,
};
use vstd::prelude::*;

verus! {

/// Whether the digest occurs in the list.
pub fn hash_listed(list: &Vec<HashValue>, h: &HashValue) -> (r: bool)
    ensures
        r == list@.contains(*h),
{
    let mut i: usize = 0;
    while i < list.len()
        invariant
            i <= list.len(),
            forall|j: int| 0 <= j < i ==> list@[j] != *h,
        decreases list.len() - i,
    {
        if list[i].hi == h.hi && list[i].lo == h.lo {
            assert(list@[i as int] == *h);
            return true;
        }
        i += 1;
    }
    false
}

impl TransactionStore {
    /// Every entry of an index belongs to a record of the table.
    pub proof fn lemma_entry_resolves(&self, kind: IndexKind, k: int)
        requires
            self.consistent(),
            0 <= k < self.index(kind)@.len(),
        ensures
            holds(self.records(), self.index(kind)@[k].slot),
            member(kind, record_at(self.records(), self.index(kind)@[k].slot)),
            key_of(kind, record_at(self.records(), self.index(kind)@[k].slot)) == self.index(
                kind,
            )@[k],
    {
        let e = self.index(kind)@[k];
        let table = self.records();
        assert(self.index(kind).has(e));
        assert(self.index_ok(kind)) by {
            match kind {
                IndexKind::Priority => {},
                IndexKind::Timeline => {},
                IndexKind::Expiration => {},
                IndexKind::Age => {},
                IndexKind::Parking => {},
                IndexKind::Hash => {},
            }
        }
        assert(indexed(table, kind, e));
        let i = choose|i: int|
            0 <= i < table.len() && member(kind, #[trigger] table[i]) && key_of(kind, table[i])
                == e;
        lemma_record_at(table, i);
    }

    /// The positions on the timeline are strictly increasing.
    pub proof fn lemma_timeline_increasing(&self)
        requires
            self.consistent(),
        ensures
            positions_increasing(self.index(IndexKind::Timeline)@),
    {
        let order = self.index(IndexKind::Timeline)@;
        let table = self.records();
        assert forall|i: int, j: int| 0 <= i < j < order.len() implies (#[trigger] order[i]).major
            < (#[trigger] order[j]).major by {
            self.lemma_entry_resolves(IndexKind::Timeline, i);
            self.lemma_entry_resolves(IndexKind::Timeline, j);
            assert(entry_lt(order[i], order[j]));
            let a = choose|a: int| 0 <= a < table.len() && (#[trigger] table[a]).slot() == order[i].slot;
            let b = choose|b: int| 0 <= b < table.len() && (#[trigger] table[b]).slot() == order[j].slot;
            lemma_record_at(table, a);
            lemma_record_at(table, b);
            if a == b {
                assert(order[i] == order[j]);
            }
        }
    }

    /// The batch that a block proposer pulls: the ready records in priority
    /// order, without those whose digest is in `exclude`, up to the first
    /// record that would take the batch beyond `max_count` records or
    /// `max_bytes` bytes.
    pub fn pull_batch(&self, max_count: u64, max_bytes: u64, exclude: &Vec<HashValue>) -> (out:
        Vec<TransactionRecord>)
        requires
            self.wf(),
        ensures
            pulled(
                candidates(self.records(), self.index(IndexKind::Priority)@, exclude@),
                views(out@),
                max_count,
                max_bytes,
            ),
    {
        let ghost table = self.records();
        let ghost order = self.index(IndexKind::Priority)@;
        let ghost cands = candidates(table, order, exclude@);
        let n = self.index_len(IndexKind::Priority);
        let mut out: Vec<TransactionRecord> = Vec::new();
        let mut acc: u128 = 0;
        let mut k: usize = 0;
        proof {
            assert(order.take(0) =~= Seq::<IndexEntry>::empty());
            assert(views(out@) =~= Seq::<RecordView>::empty());
            if n == 0 {
                assert(order =~= Seq::<IndexEntry>::empty());
                assert(cands.take(0) =~= cands);
            }
        }
        while k < n
            invariant_except_break
                k <= n,
                views(out@) == candidates(table, order.take(k as int), exclude@),
                k == n ==> pulled(cands, views(out@), max_count, max_bytes),
            invariant
                self.wf(),
                n == order.len(),
                table == self.records(),
                order == self.index(IndexKind::Priority)@,
                cands == candidates(table, order, exclude@),
                acc == total_bytes(views(out@)),
                within_budget(views(out@), max_count, max_bytes),
            ensures
                pulled(cands, views(out@), max_count, max_bytes),
            decreases n - k,
        {
            let e = self.index_entry(IndexKind::Priority, k);
            let ghost so_far = views(out@);
            proof {
                self.lemma_entry_resolves(IndexKind::Priority, k as int);
                assert(order.take(k + 1).drop_last() =~= order.take(k as int));
                lemma_candidates_prefix(table, order, exclude@, k + 1);
                lemma_candidates_prefix(table, order, exclude@, k as int);
            }
            match self.find(&e.slot) {
                Some(i) => {
                    let rec = self.record(i);
                    proof {
                        lemma_record_at(table, i as int);
                    }
                    if !hash_listed(exclude, &rec.hash) {
                        proof {
                            assert(candidates(table, order.take(k + 1), exclude@) == so_far.push(
                                rec@,
                            ));
                            assert(so_far.push(rec@).drop_last() =~= so_far);
                        }
                        if out.len() as u128 >= max_count as u128 || acc + rec.bytes() as u128
                            > max_bytes as u128 {
                            proof {
                                assert(cands.take(so_far.len() as int + 1) == so_far.push(rec@));
                                assert(so_far == cands.take(so_far.len() as int));
                            }
                            break ;
                        }
                        acc = acc + rec.bytes() as u128;
                        out.push(rec.copied());
                        proof {
                            assert(views(out@) =~= so_far.push(rec@));
                        }
                    }
                },
                None => {
                    proof {
                        assert(false);
                    }
                },
            }
            k = k + 1;
            proof {
                if k == n {
                    assert(order.take(n as int) =~= order);
                    assert(cands.take(cands.len() as int) =~= cands);
                }
            }
        }
        out
    }

    /// Reads the broadcast timeline from the position `from`: the records on
    /// the timeline at or after `from`, in the order of their positions, at
    /// most `max_count` of them, and the position at which to resume.
    pub fn read_timeline(&self, from: u64, max_count: usize) -> (r: (Vec<TransactionRecord>, u64))
        requires
            self.wf(),
        ensures
            r.0@.len() == timeline_batch(
                self.index(IndexKind::Timeline)@,
                from,
                max_count as nat,
            ).len(),
            forall|i: int|
                0 <= i < r.0@.len() ==> (#[trigger] r.0@[i])@ == record_at(
                    self.records(),
                    timeline_batch(self.index(IndexKind::Timeline)@, from, max_count as nat)[i].slot,
                ),
            r.1 == timeline_next(self.index(IndexKind::Timeline)@, from, max_count as nat),
    {
        let ghost table = self.records();
        let ghost order = self.index(IndexKind::Timeline)@;
        let probe = IndexEntry {
            major: from as u128,
            minor: 0,
            slot: SlotKey { account: AccountAddress { hi: 0, lo: 0 }, seq: 0 },
        };
        let start = self.index_lower_bound(IndexKind::Timeline, &probe);
        let n = self.index_len(IndexKind::Timeline);
        proof {
            assert forall|j: int| 0 <= j < start implies (#[trigger] order[j]).major < from by {
                assert(entry_lt(order[j], probe));
            }
            assert forall|j: int| start <= j < order.len() implies (#[trigger] order[j]).major
                >= from by {
                assert(!entry_lt(order[j], probe));
            }
            lemma_since_is_skip(order, from, start as int);
        }
        let ghost avail = order.skip(start as int);
        let count = if max_count <= n - start {
            max_count
        } else {
            n - start
        };
        let ghost batch = timeline_batch(order, from, max_count as nat);
        assert(batch =~= avail.take(count as int));
        let mut out: Vec<TransactionRecord> = Vec::new();
        let mut next: u64 = from;
        let mut i: usize = 0;
        while i < count
            invariant
                self.wf(),
                table == self.records(),
                order == self.index(IndexKind::Timeline)@,
                n == order.len(),
                start + count <= n,
                i <= count,
                out@.len() == i,
                batch == order.skip(start as int).take(count as int),
                forall|j: int|
                    0 <= j < i ==> (#[trigger] out@[j])@ == record_at(table, batch[j].slot),
                next == if i == 0 {
                    from as int
                } else {
                    batch[i - 1].major + 1
                },
            decreases count - i,
        {
            let e = self.index_entry(IndexKind::Timeline, start + i);
            proof {
                self.lemma_entry_resolves(IndexKind::Timeline, start + i);
                assert(batch[i as int] == e);
            }
            match self.find(&e.slot) {
                Some(at) => {
                    let rec = self.record(at);
                    proof {
                        lemma_record_at(table, at as int);
                        assert(match table[at as int].timeline_state {
                            TimelineState::Ready(p) => p < self.next_position(),
                            _ => true,
                        });
                    }
                    next = match rec.timeline_state {
                        TimelineState::Ready(p) => p + 1,
                        _ => next,
                    };
                    out.push(rec.copied());
                },
                None => {
                    proof {
                        assert(false);
                    }
                },
            }
            i = i + 1;
        }
        (out, next)
    }

    /// The record with the digest `hash`; among several, the one with the
    /// least slot.
    pub fn lookup_by_hash(&self, hash: HashValue) -> (r: Option<&TransactionRecord>)
        requires
            self.wf(),
        ensures
            match r {
                Some(rec) => {
                    &&& rec@.hash == hash
                    &&& holds(self.records(), rec@.slot())
                    &&& record_at(self.records(), rec@.slot()) == rec@
                    &&& forall|j: int|
                        0 <= j < self.records().len() && (#[trigger] self.records()[j]).hash
                            == hash ==> !slot_lt(self.records()[j].slot(), rec@.slot())
                },
                None => forall|j: int|
                    0 <= j < self.records().len() ==> (#[trigger] self.records()[j]).hash != hash,
            },
    {
        let ghost table = self.records();
        let ghost idx = self.index(IndexKind::Hash)@;
        let probe = IndexEntry {
            major: hash.hi,
            minor: hash.lo,
            slot: SlotKey { account: AccountAddress { hi: 0, lo: 0 }, seq: 0 },
        };
        let p = self.index_lower_bound(IndexKind::Hash, &probe);
        proof {
            assert forall|j: int| 0 <= j < table.len() && (#[trigger] table[j]).hash
                == hash implies p < idx.len() && idx[p as int].major == hash.hi
                && idx[p as int].minor == hash.lo && !slot_lt(
                table[j].slot(),
                idx[p as int].slot,
            ) by {
                let key = key_of(IndexKind::Hash, table[j]);
                assert(indexed(table, IndexKind::Hash, key));
                assert(self.index(IndexKind::Hash).has(key));
                let q = choose|q: int| 0 <= q < idx.len() && idx[q] == key;
                if q < p {
                    assert(entry_lt(idx[q], probe));
                } else if q > p {
                    assert(entry_lt(idx[p as int], idx[q]));
                    assert(!entry_lt(idx[p as int], probe));
                }
            }
        }
        if p < self.index_len(IndexKind::Hash) {
            let e = self.index_entry(IndexKind::Hash, p);
            if e.major == hash.hi && e.minor == hash.lo {
                proof {
                    self.lemma_entry_resolves(IndexKind::Hash, p as int);
                }
                match self.find(&e.slot) {
                    Some(at) => {
                        proof {
                            lemma_record_at(table, at as int);
                        }
                        return Some(self.record(at));
                    },
                    None => {
                        proof {
                            assert(false);
                        }
                    },
                }
            }
        }
        None
    }

    /// The number of ready records, the number of blocked records and the
    /// sum of the payload sizes.
    pub fn size(&self) -> (r: (usize, usize, usize))
        requires
            self.wf(),
        ensures
            r.0 == count_members(self.records(), IndexKind::Priority),
            r.1 == count_members(self.records(), IndexKind::Parking),
            r.0 + r.1 == self.records().len(),
            r.2 == total_bytes(self.records()),
            r.0 + r.1 <= self.capacity(),
            r.2 <= self.capacity_bytes(),
    {
        proof {
            let table = self.records();
            assert forall|e: IndexEntry| #[trigger]
                self.index(IndexKind::Priority)@.contains(e) <==> indexed(
                    table,
                    IndexKind::Priority,
                    e,
                ) by {
                assert(self.index(IndexKind::Priority).has(e) == self.index(
                    IndexKind::Priority,
                )@.contains(e));
            }
            assert forall|e: IndexEntry| #[trigger]
                self.index(IndexKind::Parking)@.contains(e) <==> indexed(
                    table,
                    IndexKind::Parking,
                    e,
                ) by {
                assert(self.index(IndexKind::Parking).has(e) == self.index(
                    IndexKind::Parking,
                )@.contains(e));
            }
            lemma_index_len(table, self.index(IndexKind::Priority)@, IndexKind::Priority);
            lemma_index_len(table, self.index(IndexKind::Parking)@, IndexKind::Parking);
        }
        (
            self.index_len(IndexKind::Priority),
            self.index_len(IndexKind::Parking),
            self.bytes(),
        )
    }
}

} // verus!
