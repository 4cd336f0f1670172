//! What holds of the pool whatever is submitted, committed, rejected or
//! swept, stated over the same notions as the contracts of the operations.

use crate::admission::outcome;
use crate::ledger_proofs::lemma_ready_iff_rule;
use crate::model::{
    admitted, candidates, committed, count_members, holds, indexed, IndexKind, key_of, ledger_ok,
    ledger_ok_at, positions_increasing, pulled, ready_by_rule, record_at, since, slots_sorted,
    timeline_batch, timeline_next, total_bytes, verdict, within_budget,
};
use crate::query_proofs::lemma_since_is_skip;
use crate::table_proofs::{lemma_index_len, lemma_record_at};
use crate::mempool::CoreMempool;
use crate::ordered_index::{entry_lt, IndexEntry, lemma_sorted_unique, strictly_sorted};
use crate::store::TransactionStore;
use crate::types::{AccountAddress, AdmissionResult, HashValue, RecordView, slot_lt, SlotKey};
use vstd::prelude::*;

verus! {

/// The priority order is total: of two records in different slots, one
/// stands before the other, and never both ways. Records are compared by
/// descending score, then by ascending expiration, then by ascending slot.
pub proof fn law_priority_never_equal(a: RecordView, b: RecordView)
    requires
        a.slot() != b.slot(),
    ensures
        entry_lt(key_of(IndexKind::Priority, a), key_of(IndexKind::Priority, b)) != entry_lt(
            key_of(IndexKind::Priority, b),
            key_of(IndexKind::Priority, a),
        ),
        entry_lt(key_of(IndexKind::Priority, a), key_of(IndexKind::Priority, b)) <==> (
        a.ranking_score > b.ranking_score || (a.ranking_score == b.ranking_score && (a.expiration
            < b.expiration || (a.expiration == b.expiration && slot_lt(a.slot(), b.slot()))))),
{
}

/// The priority order is transitive.
pub proof fn law_priority_order_transitive(a: RecordView, b: RecordView, c: RecordView)
    requires
        entry_lt(key_of(IndexKind::Priority, a), key_of(IndexKind::Priority, b)),
        entry_lt(key_of(IndexKind::Priority, b), key_of(IndexKind::Priority, c)),
    ensures
        entry_lt(key_of(IndexKind::Priority, a), key_of(IndexKind::Priority, c)),
{
}

/// The bytes of a front part are at most the bytes of the whole.
pub proof fn lemma_bytes_take(s: Seq<RecordView>, n: int)
    requires
        0 <= n <= s.len(),
    ensures
        total_bytes(s.take(n)) <= total_bytes(s),
    decreases s.len() - n,
{
    if n == s.len() {
        assert(s.take(n) =~= s);
    } else {
        lemma_bytes_take(s, n + 1);
        assert(s.take(n + 1).drop_last() =~= s.take(n));
    }
}

/// With nothing excluded, the candidates of a pull are the records of the
/// entries of the priority index, one for one.
pub proof fn lemma_candidates_all(table: Seq<RecordView>, order: Seq<IndexEntry>)
    ensures
        candidates(table, order, Seq::<HashValue>::empty()).len() == order.len(),
        forall|k: int|
            0 <= k < order.len() ==> #[trigger] candidates(
                table,
                order,
                Seq::<HashValue>::empty(),
            )[k] == record_at(table, order[k].slot),
    decreases order.len(),
{
    if order.len() > 0 {
        lemma_candidates_all(table, order.drop_last());
        let rest = candidates(table, order.drop_last(), Seq::<HashValue>::empty());
        assert forall|k: int| 0 <= k < order.len() implies #[trigger] candidates(
            table,
            order,
            Seq::<HashValue>::empty(),
        )[k] == record_at(table, order[k].slot) by {
            if k < order.len() - 1 {
                assert(rest[k] == record_at(table, order.drop_last()[k].slot));
            }
        }
    }
}

/// A pull whose bounds all ready records fit in, with nothing excluded,
/// returns every ready record once, the best first: the batch is strictly
/// increasing in the priority order and holds exactly the ready records.
pub proof fn law_pull_is_sorted_ready_set(
    store: TransactionStore,
    out: Seq<RecordView>,
    max_count: u64,
    max_bytes: u64,
)
    requires
        store.wf(),
        pulled(
            candidates(store.records(), store.index(IndexKind::Priority)@, Seq::<HashValue>::empty()),
            out,
            max_count,
            max_bytes,
        ),
        within_budget(
            candidates(store.records(), store.index(IndexKind::Priority)@, Seq::<HashValue>::empty()),
            max_count,
            max_bytes,
        ),
    ensures
        forall|i: int, j: int|
            0 <= i < j < out.len() ==> entry_lt(
                key_of(IndexKind::Priority, #[trigger] out[i]),
                key_of(IndexKind::Priority, #[trigger] out[j]),
            ),
        forall|r: RecordView|
            #[trigger] out.contains(r) <==> (r.ready && holds(store.records(), r.slot())
                && record_at(store.records(), r.slot()) == r),
        out.len() == count_members(store.records(), IndexKind::Priority),
{
    let table = store.records();
    let order = store.index(IndexKind::Priority)@;
    let cands = candidates(table, order, Seq::<HashValue>::empty());
    lemma_candidates_all(table, order);
    if out.len() < cands.len() {
        lemma_bytes_take(cands, out.len() as int + 1);
    }
    assert(cands.take(cands.len() as int) =~= cands);
    assert(out == cands);
    assert forall|i: int, j: int| 0 <= i < j < out.len() implies entry_lt(
        key_of(IndexKind::Priority, #[trigger] out[i]),
        key_of(IndexKind::Priority, #[trigger] out[j]),
    ) by {
        store.lemma_entry_resolves(IndexKind::Priority, i);
        store.lemma_entry_resolves(IndexKind::Priority, j);
        assert(entry_lt(order[i], order[j]));
    }
    assert forall|r: RecordView| #[trigger] out.contains(r) <==> (r.ready && holds(
        table,
        r.slot(),
    ) && record_at(table, r.slot()) == r) by {
        if out.contains(r) {
            let k = choose|k: int| 0 <= k < out.len() && out[k] == r;
            store.lemma_entry_resolves(IndexKind::Priority, k);
            let i = choose|i: int| 0 <= i < table.len() && (#[trigger] table[i]).slot() == order[k].slot;
            lemma_record_at(table, i);
        }
        if r.ready && holds(table, r.slot()) && record_at(table, r.slot()) == r {
            let i = choose|i: int| 0 <= i < table.len() && (#[trigger] table[i]).slot() == r.slot();
            lemma_record_at(table, i);
            let e = key_of(IndexKind::Priority, r);
            assert(indexed(table, IndexKind::Priority, e));
            assert(store.index(IndexKind::Priority).has(e));
            let k = choose|k: int| 0 <= k < order.len() && order[k] == e;
            assert(cands[k] == record_at(table, order[k].slot));
        }
    }
    assert forall|e: IndexEntry| #[trigger] order.contains(e) <==> indexed(
        table,
        IndexKind::Priority,
        e,
    ) by {
        assert(store.index(IndexKind::Priority).has(e) == order.contains(e));
    }
    lemma_index_len(table, order, IndexKind::Priority);
}

/// Any listing of the ready records that is sorted by priority is the order
/// of the pull: the entries of the priority index are the one strictly sorted
/// sequence of the entries of the ready records, and a pull that nothing
/// bounds returns the records of these entries, one for one.
pub proof fn law_pull_equals_direct_sort(
    store: TransactionStore,
    out: Seq<RecordView>,
    max_count: u64,
    max_bytes: u64,
    direct: Seq<IndexEntry>,
)
    requires
        store.wf(),
        pulled(
            candidates(store.records(), store.index(IndexKind::Priority)@, Seq::<HashValue>::empty()),
            out,
            max_count,
            max_bytes,
        ),
        within_budget(
            candidates(store.records(), store.index(IndexKind::Priority)@, Seq::<HashValue>::empty()),
            max_count,
            max_bytes,
        ),
        strictly_sorted(direct),
        forall|e: IndexEntry|
            #[trigger] direct.contains(e) <==> indexed(store.records(), IndexKind::Priority, e),
    ensures
        out.len() == direct.len(),
        forall|k: int|
            0 <= k < out.len() ==> key_of(IndexKind::Priority, #[trigger] out[k]) == direct[k],
{
    let table = store.records();
    let order = store.index(IndexKind::Priority)@;
    let cands = candidates(table, order, Seq::<HashValue>::empty());
    lemma_candidates_all(table, order);
    if out.len() < cands.len() {
        lemma_bytes_take(cands, out.len() as int + 1);
    }
    assert(cands.take(cands.len() as int) =~= cands);
    assert forall|e: IndexEntry| direct.contains(e) <==> order.contains(e) by {
        assert(store.index(IndexKind::Priority).has(e) == order.contains(e));
    }
    lemma_sorted_unique(direct, order);
    assert forall|k: int| 0 <= k < out.len() implies key_of(
        IndexKind::Priority,
        #[trigger] out[k],
    ) == direct[k] by {
        store.lemma_entry_resolves(IndexKind::Priority, k);
    }
}

/// At most one record stands in a slot.
pub proof fn law_one_record_per_slot(store: TransactionStore, i: int, j: int)
    requires
        store.wf(),
        0 <= i < store.records().len(),
        0 <= j < store.records().len(),
        i != j,
    ensures
        store.records()[i].slot() != store.records()[j].slot(),
{
    let table = store.records();
    if i < j {
        assert(slot_lt(table[i].slot(), table[j].slot()));
    } else {
        assert(slot_lt(table[j].slot(), table[i].slot()));
    }
}

/// After a submission the slot of the submitted record holds the best of
/// what it held and what was submitted: an accepted record either stands in
/// its slot with a score above the score that stood there, or the slot keeps
/// a record with the same payload and no lower score. The score in an
/// occupied slot never falls.
pub proof fn law_slot_keeps_best_score(
    old: Seq<RecordView>,
    new: Seq<RecordView>,
    old_next: u64,
    new_next: u64,
    r: RecordView,
    capacity: nat,
    capacity_bytes: nat,
)
    requires
        admitted(old, new, old_next, new_next, r, capacity, capacity_bytes),
    ensures
        outcome(verdict(old, r, capacity, capacity_bytes)) == AdmissionResult::Accepted ==> holds(
            new,
            r.slot(),
        ) && record_at(new, r.slot()).payload == r.payload && record_at(
            new,
            r.slot(),
        ).ranking_score >= r.ranking_score,
        holds(old, r.slot()) ==> holds(new, r.slot()) && record_at(new, r.slot()).ranking_score
            >= record_at(old, r.slot()).ranking_score && (record_at(new, r.slot()).ranking_score
            == r.ranking_score || record_at(new, r.slot()).ranking_score == record_at(
            old,
            r.slot(),
        ).ranking_score),
{
}

/// The highest score among the accepted submissions of a series, if any was
/// accepted. `tables[k]` is the table to which `subs[k]` was submitted.
pub open spec fn best_accepted(
    tables: Seq<Seq<RecordView>>,
    subs: Seq<RecordView>,
    capacity: nat,
    capacity_bytes: nat,
) -> Option<u64>
    decreases subs.len(),
{
    if subs.len() == 0 {
        None
    } else {
        let before = best_accepted(tables, subs.drop_last(), capacity, capacity_bytes);
        let r = subs.last();
        if outcome(verdict(tables[subs.len() - 1], r, capacity, capacity_bytes))
            == AdmissionResult::Accepted {
            match before {
                Some(b) => if b >= r.ranking_score {
                    Some(b)
                } else {
                    Some(r.ranking_score)
                },
                None => Some(r.ranking_score),
            }
        } else {
            before
        }
    }
}

/// After any series of submissions to one slot that was free at first, the
/// slot holds a record exactly if one of them was accepted, and then the
/// score of that record is the highest score that was accepted.
pub proof fn law_best_score_wins(
    tables: Seq<Seq<RecordView>>,
    nexts: Seq<u64>,
    subs: Seq<RecordView>,
    slot: SlotKey,
    capacity: nat,
    capacity_bytes: nat,
)
    requires
        tables.len() == subs.len() + 1,
        nexts.len() == subs.len() + 1,
        !holds(tables[0], slot),
        forall|k: int| 0 <= k < subs.len() ==> (#[trigger] subs[k]).slot() == slot,
        forall|k: int|
            0 <= k < subs.len() ==> admitted(
                #[trigger] tables[k],
                tables[k + 1],
                nexts[k],
                nexts[k + 1],
                subs[k],
                capacity,
                capacity_bytes,
            ),
    ensures
        match best_accepted(tables, subs, capacity, capacity_bytes) {
            Some(b) => holds(tables.last(), slot) && record_at(tables.last(), slot).ranking_score
                == b,
            None => !holds(tables.last(), slot),
        },
    decreases subs.len(),
{
    if subs.len() > 0 {
        let n = subs.len() - 1;
        let front = subs.drop_last();
        let tfront = tables.drop_last();
        let nfront = nexts.drop_last();
        assert forall|k: int| 0 <= k < front.len() implies admitted(
            #[trigger] tfront[k],
            tfront[k + 1],
            nfront[k],
            nfront[k + 1],
            front[k],
            capacity,
            capacity_bytes,
        ) by {
            assert(admitted(
                tables[k],
                tables[k + 1],
                nexts[k],
                nexts[k + 1],
                subs[k],
                capacity,
                capacity_bytes,
            ));
        }
        law_best_score_wins(tfront, nfront, front, slot, capacity, capacity_bytes);
        lemma_best_accepted_front(tables, front, capacity, capacity_bytes);
        assert(tfront.last() == tables[n]);
        assert(admitted(
            tables[n],
            tables[n + 1],
            nexts[n],
            nexts[n + 1],
            subs[n],
            capacity,
            capacity_bytes,
        ));
        assert(subs[n].slot() == slot);
    }
}

/// The best accepted score of a series does not depend on tables after the
/// last submission of the series.
pub proof fn lemma_best_accepted_front(
    tables: Seq<Seq<RecordView>>,
    subs: Seq<RecordView>,
    capacity: nat,
    capacity_bytes: nat,
)
    requires
        subs.len() < tables.len(),
    ensures
        best_accepted(tables.drop_last(), subs, capacity, capacity_bytes) == best_accepted(
            tables,
            subs,
            capacity,
            capacity_bytes,
        ),
    decreases subs.len(),
{
    if subs.len() > 0 {
        lemma_best_accepted_front(tables, subs.drop_last(), capacity, capacity_bytes);
        assert(tables.drop_last()[subs.len() - 1] == tables[subs.len() - 1]);
    }
}

/// The commit of `seq` for an account demotes no record: what was ready and
/// lies above `seq`, or belongs to another account, stays in the pool and
/// stays ready, with its place on the timeline.
pub proof fn law_commit_keeps_ready(
    old: Seq<RecordView>,
    new: Seq<RecordView>,
    old_next: u64,
    new_next: u64,
    account: AccountAddress,
    seq: u64,
    s: SlotKey,
)
    requires
        slots_sorted(old),
        ledger_ok(old, None, old_next),
        committed(old, new, old_next, new_next, account, seq),
        holds(old, s),
        record_at(old, s).ready,
        !(s.account == account && s.seq <= seq),
    ensures
        holds(new, s),
        record_at(new, s).ready,
        record_at(new, s).timeline_state == record_at(old, s).timeline_state,
{
    let k = choose|k: int| 0 <= k < old.len() && (#[trigger] old[k]).slot() == s;
    lemma_record_at(old, k);
    assert(ledger_ok_at(old, k, old_next));
    assert(holds(new, s));
}

/// After the commit of `seq` for an account no record of the account at or
/// below `seq` remains, whether it was ready or not: each record of the
/// account that remains lies at or above the baseline of the account, and
/// the baseline is past `seq`.
pub proof fn law_commit_clears_below(
    old: Seq<RecordView>,
    new: Seq<RecordView>,
    old_next: u64,
    new_next: u64,
    account: AccountAddress,
    seq: u64,
    s: SlotKey,
)
    requires
        slots_sorted(old),
        ledger_ok(old, None, old_next),
        slots_sorted(new),
        committed(old, new, old_next, new_next, account, seq),
        s.account == account,
    ensures
        s.seq <= seq ==> !holds(new, s),
        holds(new, s) ==> record_at(new, s).sequence_info.baseline() > seq && s.seq
            >= record_at(new, s).sequence_info.baseline(),
{
    if holds(new, s) {
        let k = choose|k: int| 0 <= k < old.len() && (#[trigger] old[k]).slot() == s;
        lemma_record_at(old, k);
        assert(ledger_ok_at(old, k, old_next));
        let j = choose|j: int| 0 <= j < new.len() && (#[trigger] new[j]).slot() == s;
        lemma_record_at(new, j);
    }
}

/// The number of ready records and the number of blocked records add up to
/// the number of records, which keeps within the count ceiling; the bytes
/// keep within the byte ceiling.
pub proof fn law_capacity_ceiling(store: TransactionStore)
    requires
        store.wf(),
    ensures
        count_members(store.records(), IndexKind::Priority) + count_members(
            store.records(),
            IndexKind::Parking,
        ) == store.records().len(),
        store.records().len() <= store.capacity(),
        total_bytes(store.records()) <= store.capacity_bytes(),
{
    let table = store.records();
    assert forall|e: IndexEntry| #[trigger]
        store.index(IndexKind::Priority)@.contains(e) <==> indexed(table, IndexKind::Priority, e) by {
        assert(store.index(IndexKind::Priority).has(e) == store.index(IndexKind::Priority)@.contains(
            e,
        ));
    }
    assert forall|e: IndexEntry| #[trigger]
        store.index(IndexKind::Parking)@.contains(e) <==> indexed(table, IndexKind::Parking, e) by {
        assert(store.index(IndexKind::Parking).has(e) == store.index(IndexKind::Parking)@.contains(
            e,
        ));
    }
    lemma_index_len(table, store.index(IndexKind::Priority)@, IndexKind::Priority);
    lemma_index_len(table, store.index(IndexKind::Parking)@, IndexKind::Parking);
}

/// A record is marked ready exactly when the rule of its account makes it
/// ready: under a strictly sequential rule, when every sequence number from
/// the baseline up to its own is occupied; under a sliding window, when its
/// nonce lies in the window.
pub proof fn law_ready_by_rule(store: TransactionStore, i: int)
    requires
        store.wf(),
        0 <= i < store.records().len(),
    ensures
        store.records()[i].ready == ready_by_rule(store.records(), store.records()[i]),
{
    lemma_ready_iff_rule(store.records(), store.next_position(), i);
}

/// The positions on the timeline of a store are strictly increasing, and
/// each lies before the position that the next promotion takes: what the
/// reads of the timeline are stated over holds of every store.
pub proof fn law_timeline_positions(store: TransactionStore)
    requires
        store.wf(),
    ensures
        positions_increasing(store.index(IndexKind::Timeline)@),
        forall|j: int|
            0 <= j < store.index(IndexKind::Timeline)@.len() ==> (
            #[trigger] store.index(IndexKind::Timeline)@[j]).major < store.next_position(),
{
    store.lemma_timeline_increasing();
    let order = store.index(IndexKind::Timeline)@;
    let table = store.records();
    assert forall|j: int| 0 <= j < order.len() implies (#[trigger] order[j]).major
        < store.next_position() by {
        store.lemma_entry_resolves(IndexKind::Timeline, j);
        let a = choose|a: int| 0 <= a < table.len() && (#[trigger] table[a]).slot() == order[j].slot;
        lemma_record_at(table, a);
    }
}

/// What holds of every store holds of the pool: the number of ready records
/// and the number of blocked records add up to the number of records, within
/// the count ceiling, and the bytes keep within the byte ceiling.
pub proof fn law_pool_ceilings(pool: CoreMempool)
    requires
        pool.wf(),
    ensures
        count_members(pool.records(), IndexKind::Priority) + count_members(
            pool.records(),
            IndexKind::Parking,
        ) == pool.records().len(),
        pool.records().len() <= pool.capacity(),
        total_bytes(pool.records()) <= pool.capacity_bytes(),
{
    law_capacity_ceiling(pool.store());
}

/// The place from which the entries are at or after `from`.
pub proof fn lemma_split_at(order: Seq<IndexEntry>, from: int) -> (start: int)
    requires
        positions_increasing(order),
    ensures
        0 <= start <= order.len(),
        forall|j: int| 0 <= j < start ==> (#[trigger] order[j]).major < from,
        forall|j: int| start <= j < order.len() ==> (#[trigger] order[j]).major >= from,
    decreases order.len(),
{
    if order.len() == 0 {
        0
    } else if order.last().major < from {
        assert forall|j: int| 0 <= j < order.len() implies (#[trigger] order[j]).major < from by {
            if j < order.len() - 1 {
                assert(order[j].major < order[order.len() - 1].major);
            }
        }
        order.len() as int
    } else {
        let front = order.drop_last();
        assert forall|a: int, b: int| 0 <= a < b < front.len() implies (#[trigger] front[a]).major
            < (#[trigger] front[b]).major by {
            assert(order[a].major < order[b].major);
        }
        let start = lemma_split_at(front, from);
        assert forall|j: int| 0 <= j < start implies (#[trigger] order[j]).major < from by {
            assert(front[j].major < from);
        }
        assert forall|j: int| start <= j < order.len() implies (#[trigger] order[j]).major
            >= from by {
            if j < order.len() - 1 {
                assert(front[j].major >= from);
            }
        }
        start
    }
}

/// A read is a stretch of the timeline: from the first place at or after
/// `from`, as many entries as were asked for and are there.
proof fn lemma_batch_is_range(order: Seq<IndexEntry>, from: u64, count: nat, start: int)
    requires
        0 <= start <= order.len(),
        forall|j: int| 0 <= j < start ==> (#[trigger] order[j]).major < from,
        forall|j: int| start <= j < order.len() ==> (#[trigger] order[j]).major >= from,
    ensures
        ({
            let k = if count <= order.len() - start {
                count as int
            } else {
                order.len() - start
            };
            &&& timeline_batch(order, from, count) == order.subrange(start, start + k)
            &&& timeline_next(order, from, count) == if k == 0 {
                from as int
            } else {
                order[start + k - 1].major + 1
            }
        }),
{
    lemma_since_is_skip(order, from, start);
    let k = if count <= order.len() - start {
        count as int
    } else {
        order.len() - start
    };
    assert(order.skip(start).take(k) =~= order.subrange(start, start + k));
    assert(order.skip(start).take(order.len() - start) =~= order.skip(start));
}

/// Where the second of two reads begins: right after what the first read
/// returned.
proof fn lemma_resume_place(
    order: Seq<IndexEntry>,
    later: Seq<IndexEntry>,
    from: u64,
    c1: nat,
) -> (places: (int, int))
    requires
        positions_increasing(order + later),
    ensures
        ({
            let all = order + later;
            let first = timeline_batch(order, from, c1);
            let resume = timeline_next(order, from, c1);
            let (s, s1) = places;
            &&& 0 <= s <= s1 <= all.len()
            &&& s1 - s == first.len()
            &&& first == all.subrange(s, s1)
            &&& since(all, from) == all.skip(s)
            &&& from <= resume
            &&& first.len() > 0 ==> resume == all[s1 - 1].major + 1
            &&& forall|j: int| 0 <= j < s1 ==> (#[trigger] all[j]).major < resume
            &&& forall|j: int| s1 <= j < all.len() ==> (#[trigger] all[j]).major >= resume
        }),
{
    let all = order + later;
    assert forall|a: int, b: int| 0 <= a < b < order.len() implies (#[trigger] order[a]).major < (
    #[trigger] order[b]).major by {
        assert(all[a] == order[a]);
        assert(all[b] == order[b]);
        assert(all[a].major < all[b].major);
    }
    let s_all = lemma_split_at(all, from as int);
    let s_ord = lemma_split_at(order, from as int);
    lemma_since_is_skip(all, from, s_all);
    lemma_batch_is_range(order, from, c1, s_ord);
    let first = timeline_batch(order, from, c1);
    let resume = timeline_next(order, from, c1);
    let k1 = first.len() as int;
    if k1 == 0 {
        assert(first =~= all.subrange(s_all, s_all));
        (s_all, s_all)
    } else {
        let s1 = s_ord + k1;
        assert(all[s_ord] == order[s_ord]);
        assert(all[s1 - 1] == order[s1 - 1]);
        assert(s_all == s_ord) by {
            if s_all < s_ord {
                assert(all[s_all] == order[s_all]);
                assert(order[s_all].major < from);
            } else if s_all > s_ord {
                assert(all[s_ord].major < from);
            }
        }
        assert forall|j: int| 0 <= j < s1 implies (#[trigger] all[j]).major < resume by {
            if j < s1 - 1 {
                assert(all[j].major < all[s1 - 1].major);
            }
        }
        assert forall|j: int| s1 <= j < all.len() implies (#[trigger] all[j]).major >= resume by {
            assert(all[s1 - 1].major < all[j].major);
        }
        assert(first =~= all.subrange(s_all, s1)) by {
            assert forall|j: int| 0 <= j < k1 implies first[j] == all.subrange(s_all, s1)[j] by {
                assert(all[s_all + j] == order[s_ord + j]);
            }
        }
        (s_all, s1)
    }
}

/// Two stretches that meet make one stretch.
proof fn lemma_stretches_join(all: Seq<IndexEntry>, a: int, b: int, c: int)
    requires
        0 <= a <= b <= c <= all.len(),
        positions_increasing(all),
    ensures
        all.subrange(a, b) + all.subrange(b, c) == all.skip(a).take(c - a),
        positions_increasing(all.subrange(a, b) + all.subrange(b, c)),
{
    let both = all.subrange(a, b) + all.subrange(b, c);
    assert(both =~= all.skip(a).take(c - a));
    assert forall|i: int, j: int| 0 <= i < j < both.len() implies (#[trigger] both[i]).major < (
    #[trigger] both[j]).major by {
        assert(both[i] == all[a + i]);
        assert(both[j] == all[a + j]);
        assert(all[a + i].major < all[a + j].major);
    }
}

/// The timeline can be read in steps. A read from `from`, and then a read
/// from where the first one said to resume, give together what one longer
/// read from `from` gives: no record twice and none left out. This holds
/// also when records came onto the timeline between the two reads, as long
/// as none was removed.
pub proof fn law_timeline_restartable(
    order: Seq<IndexEntry>,
    later: Seq<IndexEntry>,
    from: u64,
    c1: nat,
    c2: nat,
)
    requires
        positions_increasing(order + later),
        forall|j: int|
            0 <= j < (order + later).len() ==> (#[trigger] (order + later)[j]).major < u64::MAX,
    ensures
        ({
            let first = timeline_batch(order, from, c1);
            let resume = timeline_next(order, from, c1);
            let second = timeline_batch(order + later, resume as u64, c2);
            &&& from <= resume <= u64::MAX
            &&& first + second == since(order + later, from).take(
                (first.len() + second.len()) as int,
            )
            &&& positions_increasing(first + second)
        }),
{
    let all = order + later;
    let (s, s1) = lemma_resume_place(order, later, from, c1);
    let first = timeline_batch(order, from, c1);
    let resume = timeline_next(order, from, c1);
    if first.len() > 0 {
        assert(all[s1 - 1].major < u64::MAX);
    }
    lemma_batch_is_range(all, resume as u64, c2, s1);
    let second = timeline_batch(all, resume as u64, c2);
    lemma_stretches_join(all, s, s1, s1 + second.len());
}

} // verus!
