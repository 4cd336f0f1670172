//! Proofs behind the verdict on a submission and behind the placing of an
//! admitted record.

use crate::ledger_proofs::{
    lemma_blocked_above, lemma_one_rule, lemma_prefix_ready, lemma_ready_iff_rule, lemma_rule_of,
};
use crate::model::{
    effective_rule, has_account, has_blocked, holds, indexed, IndexKind, is_oldest_blocked, key_of,
    ledger_ok, ledger_ok_at, member, oldest_blocked, ready_by_rule, record_at, slots_sorted,
    total_bytes, Verdict, verdict, would_be_ready,
};
use crate::ordered_index::{entry_lt, IndexEntry, lemma_entry_order_total, strictly_sorted};
use crate::table_proofs::lemma_record_at;
use crate::types::{RecordView, SequenceInfo, slot_lt, SlotKey};
use vstd::prelude::*;

verus! {

/// The least entry of the parking index belongs to the oldest blocked
/// record, and there is only one such record.
pub proof fn lemma_oldest_blocked(table: Seq<RecordView>, parking: Seq<IndexEntry>)
    requires
        slots_sorted(table),
        strictly_sorted(parking),
        forall|e: IndexEntry| #[trigger] parking.contains(e) <==> indexed(table, IndexKind::Parking, e),
    ensures
        has_blocked(table) <==> parking.len() > 0,
        parking.len() > 0 ==> holds(table, parking[0].slot) && is_oldest_blocked(
            table,
            record_at(table, parking[0].slot),
        ) && oldest_blocked(table) == record_at(table, parking[0].slot) && key_of(
            IndexKind::Parking,
            record_at(table, parking[0].slot),
        ) == parking[0],
{
    if has_blocked(table) {
        let i = choose|i: int| 0 <= i < table.len() && !(#[trigger] table[i]).ready;
        let e = key_of(IndexKind::Parking, table[i]);
        assert(indexed(table, IndexKind::Parking, e));
        assert(parking.contains(e));
    }
    if parking.len() > 0 {
        let e = parking[0];
        assert(parking.contains(e));
        assert(indexed(table, IndexKind::Parking, e));
        let i = choose|i: int|
            0 <= i < table.len() && member(IndexKind::Parking, #[trigger] table[i]) && key_of(
                IndexKind::Parking,
                table[i],
            ) == e;
        lemma_record_at(table, i);
        let v = table[i];
        assert(has_blocked(table));
        assert forall|j: int| 0 <= j < table.len() && !(#[trigger] table[j]).ready implies !entry_lt(
            key_of(IndexKind::Parking, table[j]),
            key_of(IndexKind::Parking, v),
        ) by {
            let ej = key_of(IndexKind::Parking, table[j]);
            assert(indexed(table, IndexKind::Parking, ej));
            assert(parking.contains(ej));
            let p = choose|p: int| 0 <= p < parking.len() && parking[p] == ej;
            if p > 0 {
                assert(entry_lt(parking[0], parking[p]));
            }
        }
        assert(is_oldest_blocked(table, v));
        let w = oldest_blocked(table);
        assert(is_oldest_blocked(table, w));
        let k = choose|k: int| 0 <= k < table.len() && (#[trigger] table[k]).slot() == w.slot();
        lemma_record_at(table, k);
        assert(table[k] == w);
        assert(!entry_lt(
            key_of(IndexKind::Parking, table[k]),
            key_of(IndexKind::Parking, w),
        ));
        assert(!entry_lt(
            key_of(IndexKind::Parking, table[i]),
            key_of(IndexKind::Parking, w),
        ));
        assert(!entry_lt(
            key_of(IndexKind::Parking, table[k]),
            key_of(IndexKind::Parking, v),
        ));
        lemma_entry_order_total(
            key_of(IndexKind::Parking, w),
            key_of(IndexKind::Parking, v),
        );
        assert(w.slot() == v.slot());
    }
}

/// Whether a record would be ready can be read off the record that stands
/// directly before its place: under a strictly sequential rule it is ready
/// when it sits on the baseline, or directly above a ready record.
pub proof fn lemma_would_be_ready(
    table: Seq<RecordView>,
    next_position: u64,
    r: RecordView,
    info: SequenceInfo,
    pos: int,
)
    requires
        slots_sorted(table),
        ledger_ok(table, None, next_position),
        0 <= pos <= table.len(),
        forall|j: int| 0 <= j < pos ==> slot_lt((#[trigger] table[j]).slot(), r.slot()),
        forall|j: int| pos <= j < table.len() ==> !slot_lt((#[trigger] table[j]).slot(), r.slot()),
        info == effective_rule(table, r),
        r.seq >= info.baseline(),
    ensures
        would_be_ready(table, r, info) == info.ready_rule(
            r.seq,
            pos > 0 && table[pos - 1].account == r.account && table[pos - 1].seq + 1 == r.seq
                && table[pos - 1].ready,
        ),
{
    match info {
        SequenceInfo::Sequential { next } => {
            if r.seq > next {
                let below = SlotKey { account: r.account, seq: (r.seq - 1) as u64 };
                let follows = pos > 0 && table[pos - 1].account == r.account && table[pos
                    - 1].seq + 1 == r.seq && table[pos - 1].ready;
                if would_be_ready(table, r, info) {
                    assert(holds(table, below));
                    let j = choose|j: int| 0 <= j < table.len() && (#[trigger] table[j]).slot() == below;
                    assert(j < pos) by {
                        if j >= pos {
                            assert(!slot_lt(table[j].slot(), r.slot()));
                        }
                    }
                    if j < pos - 1 {
                        assert(slot_lt(table[j].slot(), table[pos - 1].slot()));
                        assert(slot_lt(table[pos - 1].slot(), r.slot()));
                    }
                    let p = table[pos - 1];
                    assert(has_account(table, r.account));
                    let w = choose|w: int| 0 <= w < table.len() && (#[trigger] table[w]).account == r.account;
                    lemma_one_rule(table, next_position, w, pos - 1);
                    assert(p.sequence_info == info);
                    assert(ready_by_rule(table, p)) by {
                        assert forall|s: u64| next <= s <= p.seq implies #[trigger] holds(
                            table,
                            SlotKey { account: p.account, seq: s },
                        ) by {
                            assert(holds(table, SlotKey { account: r.account, seq: s }));
                        }
                    }
                    lemma_ready_iff_rule(table, next_position, pos - 1);
                }
                if follows {
                    let p = table[pos - 1];
                    lemma_ready_iff_rule(table, next_position, pos - 1);
                    assert(has_account(table, r.account));
                    let w = choose|w: int| 0 <= w < table.len() && (#[trigger] table[w]).account == r.account;
                    lemma_one_rule(table, next_position, w, pos - 1);
                    assert(p.sequence_info == info);
                    assert(ready_by_rule(table, p));
                    assert forall|s: u64| next <= s < r.seq implies #[trigger] holds(
                        table,
                        SlotKey { account: r.account, seq: s },
                    ) by {
                        assert(holds(table, SlotKey { account: p.account, seq: s }));
                    }
                }
            }
        },
        SequenceInfo::SlidingWindow { .. } => {},
    }
}

/// After an admitted record has been placed and its account refreshed, the
/// record is ready exactly if its rule says so of the table before, and no
/// record of its account that was ready has lost its readiness.
pub proof fn lemma_placed(
    t0: Seq<RecordView>,
    t4: Seq<RecordView>,
    np: u64,
    np4: u64,
    rv: RecordView,
    info: SequenceInfo,
    evict: Option<SlotKey>,
)
    requires
        slots_sorted(t0),
        ledger_ok(t0, None, np),
        slots_sorted(t4),
        ledger_ok(t4, None, np4),
        info == effective_rule(t0, rv),
        rv.seq >= info.baseline(),
        forall|s: SlotKey| #[trigger]
            holds(t4, s) <==> ((holds(t0, s) && Some(s) != evict) || s == rv.slot()),
        evict is Some ==> holds(t0, evict->0) && !record_at(t0, evict->0).ready && would_be_ready(
            t0,
            rv,
            info,
        ),
        record_at(t4, rv.slot()).sequence_info == info,
        record_at(t4, rv.slot()).slot() == rv.slot(),
        forall|s: SlotKey|
            holds(t4, s) && s != rv.slot() && s.account == rv.account ==> (#[trigger] record_at(
                t4,
                s,
            )).sequence_info == info && record_at(t4, s).slot() == s,
    ensures
        record_at(t4, rv.slot()).ready == would_be_ready(t0, rv, info),
        forall|s: SlotKey|
            holds(t4, s) && s != rv.slot() && s.account == rv.account && record_at(t0, s).ready
                ==> (#[trigger] record_at(t4, s)).ready,
{
    let account = rv.account;
    assert(holds(t4, rv.slot()));
    let k4 = choose|k4: int| 0 <= k4 < t4.len() && (#[trigger] t4[k4]).slot() == rv.slot();
    lemma_record_at(t4, k4);
    lemma_ready_iff_rule(t4, np4, k4);
    match info {
        SequenceInfo::Sequential { next } => {
            if would_be_ready(t0, rv, info) {
                if rv.seq > next && evict is Some {
                    lemma_blocked_above(t0, np, evict->0, account, info, (rv.seq - 1) as u64);
                }
                assert forall|s: u64| next <= s <= rv.seq implies #[trigger] holds(
                    t4,
                    SlotKey { account, seq: s },
                ) by {
                    let x = SlotKey { account, seq: s };
                    if s < rv.seq {
                        assert(holds(t0, x));
                    } else {
                        assert(x == rv.slot());
                    }
                }
                assert(ready_by_rule(t4, t4[k4]));
            }
            if ready_by_rule(t4, t4[k4]) {
                assert forall|s: u64| next <= s < rv.seq implies #[trigger] holds(
                    t0,
                    SlotKey { account, seq: s },
                ) by {
                    let x = SlotKey { account, seq: s };
                    assert(holds(t4, SlotKey { account: t4[k4].account, seq: s }));
                }
            }
        },
        SequenceInfo::SlidingWindow { .. } => {},
    }
    assert forall|s: SlotKey|
        holds(t4, s) && s != rv.slot() && s.account == rv.account && record_at(t0, s).ready implies (
    #[trigger] record_at(t4, s)).ready by {
        let j4 = choose|j4: int| 0 <= j4 < t4.len() && (#[trigger] t4[j4]).slot() == s;
        lemma_record_at(t4, j4);
        assert(holds(t0, s));
        let j0 = choose|j0: int| 0 <= j0 < t0.len() && (#[trigger] t0[j0]).slot() == s;
        lemma_record_at(t0, j0);
        lemma_rule_of(t0, np, j0);
        lemma_ready_iff_rule(t0, np, j0);
        lemma_ready_iff_rule(t4, np4, j4);
        match info {
            SequenceInfo::Sequential { next } => {
                let top = t0[j0].seq;
                assert(ledger_ok_at(t0, j0, np));
                if evict is Some {
                    assert forall|x: u64| info.baseline() <= x <= top implies #[trigger] holds(
                        t0,
                        SlotKey { account, seq: x },
                    ) by {
                        assert(holds(t0, SlotKey { account: t0[j0].account, seq: x }));
                    }
                    lemma_blocked_above(t0, np, evict->0, account, info, top);
                }
                assert forall|x: u64| next <= x <= top implies #[trigger] holds(
                    t4,
                    SlotKey { account: t4[j4].account, seq: x },
                ) by {
                    assert(holds(t0, SlotKey { account, seq: x }));
                }
                assert(ready_by_rule(t4, t4[j4]));
            },
            SequenceInfo::SlidingWindow { .. } => {
                assert(ledger_ok_at(t0, j0, np));
                assert(ledger_ok_at(t4, j4, np4));
            },
        }
    }
}

/// What an admitting verdict says of the table: whether the slot is
/// occupied, which record gives way, and that the ceilings leave room.
pub proof fn lemma_room(
    t0: Seq<RecordView>,
    np: u64,
    parking: Seq<IndexEntry>,
    rv: RecordView,
    capacity: nat,
    capacity_bytes: nat,
    replace: bool,
    evict: Option<SlotKey>,
)
    requires
        slots_sorted(t0),
        ledger_ok(t0, None, np),
        strictly_sorted(parking),
        forall|e: IndexEntry| #[trigger] parking.contains(e) <==> indexed(t0, IndexKind::Parking, e),
        verdict(t0, rv, capacity, capacity_bytes) == (Verdict::Admit { replace, evict }),
    ensures
        replace == holds(t0, rv.slot()),
        rv.seq >= effective_rule(t0, rv).baseline(),
        evict is Some ==> evict->0 != rv.slot() && holds(t0, evict->0) && !record_at(
            t0,
            evict->0,
        ).ready && would_be_ready(t0, rv, effective_rule(t0, rv)),
        t0.len() - (if evict is Some { 1int } else { 0int }) - (if replace { 1int } else { 0int })
            + 1 <= capacity,
        total_bytes(t0) - (if evict is Some {
            record_at(t0, evict->0).bytes() as int
        } else {
            0int
        }) - (if replace {
            record_at(t0, rv.slot()).bytes() as int
        } else {
            0int
        }) + rv.bytes() <= capacity_bytes,
{
    let info = effective_rule(t0, rv);
    lemma_oldest_blocked(t0, parking);
    if evict is Some {
        let v = oldest_blocked(t0);
        assert(is_oldest_blocked(t0, v));
        assert(evict->0 == v.slot());
        if holds(t0, rv.slot()) {
            let k = choose|k: int| 0 <= k < t0.len() && (#[trigger] t0[k]).slot() == rv.slot();
            lemma_record_at(t0, k);
            lemma_rule_of(t0, np, k);
            match info {
                SequenceInfo::Sequential { next } => {
                    assert forall|s: u64|
                        t0[k].sequence_info.baseline() <= s <= rv.seq implies #[trigger] holds(
                        t0,
                        SlotKey { account: t0[k].account, seq: s },
                    ) by {
                        if s == rv.seq {
                            assert(SlotKey { account: t0[k].account, seq: s } == rv.slot());
                        } else {
                            assert(holds(t0, SlotKey { account: rv.account, seq: s }));
                        }
                    }
                    lemma_prefix_ready(t0, np, k, rv.seq);
                },
                SequenceInfo::SlidingWindow { .. } => {
                    assert(ledger_ok_at(t0, k, np));
                },
            }
        }
    }
}

} // verus!
