//! How the notions of the model answer to inserting, removing or updating
//! one record of the table.

use crate::model::{
    count_members, holds, indexed, IndexKind, key_of, member, record_at, slots_sorted, total_bytes,
};
use crate::ordered_index::{entry_lt, IndexEntry, strictly_sorted};
use crate::types::{RecordView, slot_lt, SlotKey};
use vstd::prelude::*;

verus! {

/// An entry for a slot that the table does not hold is in no index.
pub proof fn lemma_absent_not_indexed(table: Seq<RecordView>, kind: IndexKind, e: IndexEntry)
    requires
        !holds(table, e.slot),
    ensures
        !indexed(table, kind, e),
{
    if indexed(table, kind, e) {
        let i = choose|i: int|
            0 <= i < table.len() && member(kind, #[trigger] table[i]) && key_of(kind, table[i])
                == e;
        assert(table[i].slot() == e.slot);
    }
}

/// In a sorted table a slot is held at one place only.
pub proof fn lemma_record_at(table: Seq<RecordView>, i: int)
    requires
        slots_sorted(table),
        0 <= i < table.len(),
    ensures
        holds(table, table[i].slot()),
        record_at(table, table[i].slot()) == table[i],
{
    let slot = table[i].slot();
    assert(holds(table, slot));
    let j = choose|j: int| 0 <= j < table.len() && (#[trigger] table[j]).slot() == slot;
    if j < i {
        assert(slot_lt(table[j].slot(), table[i].slot()));
    } else if i < j {
        assert(slot_lt(table[i].slot(), table[j].slot()));
    }
}

/// Inserting a record adds its entry, where it has one, and no other.
pub proof fn lemma_indexed_insert(
    table: Seq<RecordView>,
    pos: int,
    r: RecordView,
    kind: IndexKind,
    e: IndexEntry,
)
    requires
        0 <= pos <= table.len(),
    ensures
        indexed(table.insert(pos, r), kind, e) <==> (indexed(table, kind, e) || (member(kind, r)
            && key_of(kind, r) == e)),
{
    let t2 = table.insert(pos, r);
    if indexed(table, kind, e) {
        let i = choose|i: int|
            0 <= i < table.len() && member(kind, #[trigger] table[i]) && key_of(kind, table[i])
                == e;
        let k = if i < pos { i } else { i + 1 };
        assert(t2[k] == table[i]);
    }
    if member(kind, r) && key_of(kind, r) == e {
        assert(t2[pos] == r);
    }
    if indexed(t2, kind, e) {
        let k = choose|k: int|
            0 <= k < t2.len() && member(kind, #[trigger] t2[k]) && key_of(kind, t2[k]) == e;
        if k < pos {
            assert(table[k] == t2[k]);
        } else if k > pos {
            assert(table[k - 1] == t2[k]);
        }
    }
}

/// Removing a record takes its entry away, and no other.
pub proof fn lemma_indexed_remove(table: Seq<RecordView>, i: int, kind: IndexKind, e: IndexEntry)
    requires
        slots_sorted(table),
        0 <= i < table.len(),
    ensures
        indexed(table.remove(i), kind, e) <==> (indexed(table, kind, e) && !(member(
            kind,
            table[i],
        ) && key_of(kind, table[i]) == e)),
{
    let t2 = table.remove(i);
    if indexed(t2, kind, e) {
        let k = choose|k: int|
            0 <= k < t2.len() && member(kind, #[trigger] t2[k]) && key_of(kind, t2[k]) == e;
        let k0 = if k < i { k } else { k + 1 };
        assert(table[k0] == t2[k]);
        if k0 < i {
            assert(slot_lt(table[k0].slot(), table[i].slot()));
        } else {
            assert(slot_lt(table[i].slot(), table[k0].slot()));
        }
    }
    if indexed(table, kind, e) && !(member(kind, table[i]) && key_of(kind, table[i]) == e) {
        let k0 = choose|k0: int|
            0 <= k0 < table.len() && member(kind, #[trigger] table[k0]) && key_of(
                kind,
                table[k0],
            ) == e;
        let k = if k0 < i { k0 } else { k0 - 1 };
        assert(t2[k] == table[k0]);
    }
}

/// Updating a record in its slot exchanges its entry, and touches no other.
pub proof fn lemma_indexed_update(
    table: Seq<RecordView>,
    i: int,
    r: RecordView,
    kind: IndexKind,
    e: IndexEntry,
)
    requires
        slots_sorted(table),
        0 <= i < table.len(),
        r.slot() == table[i].slot(),
    ensures
        indexed(table.update(i, r), kind, e) <==> ((indexed(table, kind, e) && !(member(
            kind,
            table[i],
        ) && key_of(kind, table[i]) == e)) || (member(kind, r) && key_of(kind, r) == e)),
{
    let t2 = table.update(i, r);
    if indexed(t2, kind, e) {
        let k = choose|k: int|
            0 <= k < t2.len() && member(kind, #[trigger] t2[k]) && key_of(kind, t2[k]) == e;
        if k != i {
            assert(table[k] == t2[k]);
            if k < i {
                assert(slot_lt(table[k].slot(), table[i].slot()));
            } else {
                assert(slot_lt(table[i].slot(), table[k].slot()));
            }
        }
    }
    if indexed(table, kind, e) && !(member(kind, table[i]) && key_of(kind, table[i]) == e) {
        let k = choose|k: int|
            0 <= k < table.len() && member(kind, #[trigger] table[k]) && key_of(kind, table[k])
                == e;
        assert(t2[k] == table[k]);
    }
    if member(kind, r) && key_of(kind, r) == e {
        assert(t2[i] == r);
    }
}

/// Inserting a record adds its size to the total.
pub proof fn lemma_bytes_insert(table: Seq<RecordView>, pos: int, r: RecordView)
    requires
        0 <= pos <= table.len(),
    ensures
        total_bytes(table.insert(pos, r)) == total_bytes(table) + r.bytes(),
    decreases table.len(),
{
    let t2 = table.insert(pos, r);
    if pos == table.len() {
        assert(t2.drop_last() =~= table);
    } else {
        assert(t2.drop_last() =~= table.drop_last().insert(pos, r));
        assert(t2.last() == table.last());
        lemma_bytes_insert(table.drop_last(), pos, r);
    }
}

/// Removing a record takes its size off the total.
pub proof fn lemma_bytes_remove(table: Seq<RecordView>, i: int)
    requires
        0 <= i < table.len(),
    ensures
        total_bytes(table.remove(i)) == total_bytes(table) - table[i].bytes(),
    decreases table.len(),
{
    let t2 = table.remove(i);
    if i == table.len() - 1 {
        assert(t2 =~= table.drop_last());
    } else {
        assert(t2.drop_last() =~= table.drop_last().remove(i));
        assert(t2.last() == table.last());
        lemma_bytes_remove(table.drop_last(), i);
    }
}

/// Updating a record without changing its payload keeps the total.
pub proof fn lemma_bytes_update(table: Seq<RecordView>, i: int, r: RecordView)
    requires
        0 <= i < table.len(),
        r.bytes() == table[i].bytes(),
    ensures
        total_bytes(table.update(i, r)) == total_bytes(table),
    decreases table.len(),
{
    let t2 = table.update(i, r);
    if i == table.len() - 1 {
        assert(t2.drop_last() =~= table.drop_last());
    } else {
        assert(t2.drop_last() =~= table.drop_last().update(i, r));
        assert(t2.last() == table.last());
        lemma_bytes_update(table.drop_last(), i, r);
    }
}

/// The total is at least the size of each record.
pub proof fn lemma_bytes_bound(table: Seq<RecordView>, i: int)
    requires
        0 <= i < table.len(),
    ensures
        table[i].bytes() <= total_bytes(table),
    decreases table.len(),
{
    if i < table.len() - 1 {
        lemma_bytes_bound(table.drop_last(), i);
    }
}

/// Removing the record at `i` frees its slot and leaves every other slot
/// with its record.
pub proof fn lemma_holds_remove(table: Seq<RecordView>, i: int)
    requires
        slots_sorted(table),
        0 <= i < table.len(),
    ensures
        slots_sorted(table.remove(i)),
        forall|s: SlotKey| #[trigger]
            holds(table.remove(i), s) <==> (holds(table, s) && s != table[i].slot()),
        forall|s: SlotKey|
            holds(table.remove(i), s) ==> #[trigger] record_at(table.remove(i), s) == record_at(
                table,
                s,
            ),
{
    let t2 = table.remove(i);
    assert(slots_sorted(t2)) by {
        assert forall|a: int, b: int| 0 <= a < b < t2.len() implies slot_lt(
            (#[trigger] t2[a]).slot(),
            (#[trigger] t2[b]).slot(),
        ) by {
            let a0 = if a < i { a } else { a + 1 };
            let b0 = if b < i { b } else { b + 1 };
            assert(slot_lt(table[a0].slot(), table[b0].slot()));
        }
    }
    assert forall|s: SlotKey| #[trigger] holds(t2, s) <==> (holds(table, s) && s != table[i].slot()) by {
        if holds(t2, s) {
            let k = choose|k: int| 0 <= k < t2.len() && (#[trigger] t2[k]).slot() == s;
            let k0 = if k < i { k } else { k + 1 };
            assert(table[k0] == t2[k]);
            if k0 < i {
                assert(slot_lt(table[k0].slot(), table[i].slot()));
            } else {
                assert(slot_lt(table[i].slot(), table[k0].slot()));
            }
        }
        if holds(table, s) && s != table[i].slot() {
            let k0 = choose|k0: int| 0 <= k0 < table.len() && (#[trigger] table[k0]).slot() == s;
            let k = if k0 < i { k0 } else { k0 - 1 };
            assert(t2[k] == table[k0]);
        }
    }
    assert forall|s: SlotKey| holds(t2, s) implies #[trigger] record_at(t2, s) == record_at(
        table,
        s,
    ) by {
        let k = choose|k: int| 0 <= k < t2.len() && (#[trigger] t2[k]).slot() == s;
        let k0 = if k < i { k } else { k + 1 };
        assert(table[k0] == t2[k]);
        lemma_record_at(t2, k);
        lemma_record_at(table, k0);
    }
}

/// Inserting a record into a free slot fills that slot and leaves every
/// other slot with its record.
pub proof fn lemma_holds_insert(table: Seq<RecordView>, pos: int, r: RecordView)
    requires
        0 <= pos <= table.len(),
        slots_sorted(table.insert(pos, r)),
    ensures
        slots_sorted(table),
        !holds(table, r.slot()),
        forall|s: SlotKey| #[trigger]
            holds(table.insert(pos, r), s) <==> (holds(table, s) || s == r.slot()),
        record_at(table.insert(pos, r), r.slot()) == r,
        forall|s: SlotKey|
            holds(table, s) ==> #[trigger] record_at(table.insert(pos, r), s) == record_at(
                table,
                s,
            ),
{
    let t2 = table.insert(pos, r);
    assert(t2[pos] == r);
    assert(slots_sorted(table)) by {
        assert forall|a: int, b: int| 0 <= a < b < table.len() implies slot_lt(
            (#[trigger] table[a]).slot(),
            (#[trigger] table[b]).slot(),
        ) by {
            let a2 = if a < pos { a } else { a + 1 };
            let b2 = if b < pos { b } else { b + 1 };
            assert(t2[a2] == table[a]);
            assert(t2[b2] == table[b]);
            assert(slot_lt(t2[a2].slot(), t2[b2].slot()));
        }
    }
    assert(!holds(table, r.slot())) by {
        if holds(table, r.slot()) {
            let k = choose|k: int| 0 <= k < table.len() && (#[trigger] table[k]).slot() == r.slot();
            let k2 = if k < pos { k } else { k + 1 };
            assert(t2[k2] == table[k]);
            if k2 < pos {
                assert(slot_lt(t2[k2].slot(), t2[pos].slot()));
            } else {
                assert(slot_lt(t2[pos].slot(), t2[k2].slot()));
            }
        }
    }
    assert forall|s: SlotKey| #[trigger] holds(t2, s) <==> (holds(table, s) || s == r.slot()) by {
        if holds(t2, s) {
            let k = choose|k: int| 0 <= k < t2.len() && (#[trigger] t2[k]).slot() == s;
            if k < pos {
                assert(table[k] == t2[k]);
            } else if k > pos {
                assert(table[k - 1] == t2[k]);
            }
        }
        if holds(table, s) {
            let k = choose|k: int| 0 <= k < table.len() && (#[trigger] table[k]).slot() == s;
            let k2 = if k < pos { k } else { k + 1 };
            assert(t2[k2] == table[k]);
        }
    }
    lemma_record_at(t2, pos);
    assert forall|s: SlotKey| holds(table, s) implies #[trigger] record_at(t2, s) == record_at(
        table,
        s,
    ) by {
        let k = choose|k: int| 0 <= k < table.len() && (#[trigger] table[k]).slot() == s;
        let k2 = if k < pos { k } else { k + 1 };
        assert(t2[k2] == table[k]);
        lemma_record_at(t2, k2);
        lemma_record_at(table, k);
    }
}

/// Two tables of the same length that hold the same slots place by place
/// hold the same slots, and each slot's record is the one at its place.
pub proof fn lemma_holds_same_slots(t1: Seq<RecordView>, t2: Seq<RecordView>)
    requires
        slots_sorted(t1),
        t1.len() == t2.len(),
        forall|i: int| 0 <= i < t1.len() ==> (#[trigger] t1[i]).slot() == t2[i].slot(),
    ensures
        slots_sorted(t2),
        forall|s: SlotKey| #[trigger] holds(t2, s) <==> holds(t1, s),
{
    assert forall|a: int, b: int| 0 <= a < b < t2.len() implies slot_lt(
        (#[trigger] t2[a]).slot(),
        (#[trigger] t2[b]).slot(),
    ) by {
        assert(slot_lt(t1[a].slot(), t1[b].slot()));
    }
    assert forall|s: SlotKey| #[trigger] holds(t2, s) <==> holds(t1, s) by {
        if holds(t2, s) {
            let k = choose|k: int| 0 <= k < t2.len() && (#[trigger] t2[k]).slot() == s;
            assert(t1[k].slot() == s);
        }
        if holds(t1, s) {
            let k = choose|k: int| 0 <= k < t1.len() && (#[trigger] t1[k]).slot() == s;
            assert(t2[k].slot() == s);
        }
    }
}

/// Two records at different places weigh no more than the whole table.
pub proof fn lemma_bytes_two(table: Seq<RecordView>, i: int, j: int)
    requires
        0 <= i < table.len(),
        0 <= j < table.len(),
        i != j,
    ensures
        table[i].bytes() + table[j].bytes() <= total_bytes(table),
{
    lemma_bytes_remove(table, i);
    let t2 = table.remove(i);
    let j2 = if j < i { j } else { j - 1 };
    assert(t2[j2] == table[j]);
    lemma_bytes_bound(t2, j2);
}

/// A record inserted between the slots below its own and the slots above
/// leaves the table sorted.
pub proof fn lemma_sorted_insert(table: Seq<RecordView>, pos: int, r: RecordView)
    requires
        slots_sorted(table),
        0 <= pos <= table.len(),
        forall|j: int| 0 <= j < pos ==> slot_lt((#[trigger] table[j]).slot(), r.slot()),
        forall|j: int| pos <= j < table.len() ==> slot_lt(r.slot(), (#[trigger] table[j]).slot()),
    ensures
        slots_sorted(table.insert(pos, r)),
{
    let t3 = table.insert(pos, r);
    assert forall|a: int, b: int| 0 <= a < b < t3.len() implies slot_lt(
        (#[trigger] t3[a]).slot(),
        (#[trigger] t3[b]).slot(),
    ) by {
        let a0 = if a < pos { a } else { a - 1 };
        let b0 = if b < pos { b } else { b - 1 };
        if a != pos && b != pos {
            assert(slot_lt(table[a0].slot(), table[b0].slot()));
        } else if a == pos {
            assert(t3[b] == table[b0]);
        } else {
            assert(t3[a] == table[a0]);
        }
    }
}

/// An index that holds the entries of the table's records, no others and
/// none twice, has one entry for each record it refers to.
pub proof fn lemma_index_len(table: Seq<RecordView>, idx: Seq<IndexEntry>, kind: IndexKind)
    requires
        slots_sorted(table),
        strictly_sorted(idx),
        forall|e: IndexEntry| #[trigger] idx.contains(e) <==> indexed(table, kind, e),
    ensures
        idx.len() == count_members(table, kind),
    decreases table.len(),
{
    if table.len() == 0 {
        if idx.len() > 0 {
            assert(idx.contains(idx[0]));
        }
    } else {
        let n = table.len() - 1;
        let r = table[n];
        let t2 = table.drop_last();
        assert(t2 =~= table.remove(n));
        lemma_holds_remove(table, n);
        if member(kind, r) {
            let e = key_of(kind, r);
            assert(indexed(table, kind, e));
            assert(idx.contains(e));
            let p = choose|p: int| 0 <= p < idx.len() && idx[p] == e;
            let idx2 = idx.remove(p);
            assert(strictly_sorted(idx2)) by {
                assert forall|a: int, b: int|
                    0 <= a < b < idx2.len() implies entry_lt(
                    #[trigger] idx2[a],
                    #[trigger] idx2[b],
                ) by {
                    let a0 = if a < p { a } else { a + 1 };
                    let b0 = if b < p { b } else { b + 1 };
                    assert(entry_lt(idx[a0], idx[b0]));
                }
            }
            assert forall|x: IndexEntry| #[trigger] idx2.contains(x) <==> indexed(t2, kind, x) by {
                lemma_indexed_remove(table, n, kind, x);
                if idx2.contains(x) {
                    let q = choose|q: int| 0 <= q < idx2.len() && idx2[q] == x;
                    let q0 = if q < p { q } else { q + 1 };
                    assert(idx[q0] == x);
                    assert(idx.contains(x));
                    if q0 < p {
                        assert(entry_lt(idx[q0], idx[p]));
                    } else {
                        assert(entry_lt(idx[p], idx[q0]));
                    }
                }
                if indexed(t2, kind, x) {
                    assert(idx.contains(x));
                    let q0 = choose|q0: int| 0 <= q0 < idx.len() && idx[q0] == x;
                    let q = if q0 < p { q0 } else { q0 - 1 };
                    assert(idx2[q] == x);
                }
            }
            lemma_index_len(t2, idx2, kind);
        } else {
            assert forall|x: IndexEntry| #[trigger] idx.contains(x) <==> indexed(t2, kind, x) by {
                lemma_indexed_remove(table, n, kind, x);
            }
            lemma_index_len(t2, idx, kind);
        }
    }
}

} // verus!
