//! Proofs about the sequencing rules: what readiness means, and why a walk
//! along the records of one account brings them in line with their rule.

use crate::model::{
    follows_ready, has_account, holds, holds_position, ledger_ok, ledger_ok_at, marks_complete,
    marks_sound, marks_sound_above, position_held, positions_dense, promoted_in_order,
    ready_by_rule, record_at, refresh_ground, refreshed_from, refreshing, restated, rule_of,
    slots_sorted, takes_position,
};
use crate::table_proofs::{lemma_bytes_update, lemma_record_at};
use crate::types::{AccountAddress, RecordView, SequenceInfo, slot_lt, SlotKey, TimelineState};
use vstd::prelude::*;

verus! {

/// Inserting a blocked record leaves the records of the other accounts in
/// agreement with their rules.
pub proof fn lemma_ledger_insert(
    table: Seq<RecordView>,
    pos: int,
    r: RecordView,
    except: Option<AccountAddress>,
    next_position: u64,
)
    requires
        0 <= pos <= table.len(),
        slots_sorted(table.insert(pos, r)),
        ledger_ok(table, except, next_position),
        except == Some(r.account),
    ensures
        ledger_ok(table.insert(pos, r), except, next_position),
{
    let t2 = table.insert(pos, r);
    assert forall|k: int| 0 <= k < t2.len() && Some((#[trigger] t2[k]).account)
        != except implies ledger_ok_at(t2, k, next_position) by {
        let k0 = if k < pos { k } else { k - 1 };
        assert(t2[k] == table[k0]);
        assert(ledger_ok_at(table, k0, next_position));
        if k > 0 {
            if k == pos + 1 {
                assert(t2[k - 1] == r);
                if pos > 0 {
                    assert(t2[pos - 1] == table[pos - 1]);
                    assert(slot_lt(t2[pos - 1].slot(), t2[pos].slot()));
                    assert(slot_lt(t2[pos].slot(), t2[k].slot()));
                }
            } else {
                assert(t2[k - 1] == table[k0 - 1]);
            }
        }
    }
}

/// Removing a record leaves the records of the other accounts in agreement
/// with their rules; removing a blocked record leaves those of its own
/// account in agreement too.
pub proof fn lemma_ledger_remove(
    table: Seq<RecordView>,
    i: int,
    except: Option<AccountAddress>,
    next_position: u64,
)
    requires
        0 <= i < table.len(),
        slots_sorted(table),
        ledger_ok(table, except, next_position),
    ensures
        except is None || except == Some(table[i].account) ==> ledger_ok(
            table.remove(i),
            Some(table[i].account),
            next_position,
        ),
        !table[i].ready ==> ledger_ok(table.remove(i), except, next_position),
{
    let t2 = table.remove(i);
    let gone = table[i];
    assert forall|k: int|
        0 <= k < t2.len() && Some((#[trigger] t2[k]).account) != except && (t2[k].account
            != gone.account || !gone.ready) implies ledger_ok_at(t2, k, next_position) by {
        let k0 = if k < i { k } else { k + 1 };
        assert(t2[k] == table[k0]);
        assert(ledger_ok_at(table, k0, next_position));
        if k > 0 {
            if k == i {
                assert(t2[k - 1] == table[i - 1]);
                assert(slot_lt(table[i - 1].slot(), table[i].slot()));
                assert(slot_lt(table[i].slot(), table[i + 1].slot()));
                if Some(table[i].account) != except {
                    assert(ledger_ok_at(table, i, next_position));
                }
            } else {
                assert(t2[k - 1] == table[k0 - 1]);
            }
        }
    }
}

/// Removing the first record of the account's run keeps the marks sound
/// above that record.
pub proof fn lemma_purge_step(
    table: Seq<RecordView>,
    account: AccountAddress,
    info: SequenceInfo,
    low: int,
    start: int,
)
    requires
        slots_sorted(table),
        0 <= start < table.len(),
        table[start].account == account,
        start > 0 ==> table[start - 1].account != account,
        table[start].seq >= low,
        table[start].seq >= info.baseline(),
        marks_sound_above(table, account, info, low),
    ensures
        marks_sound_above(table.remove(start), account, info, table[start].seq + 1),
{
    let t2 = table.remove(start);
    let q = table[start].seq;
    assert forall|k: int|
        0 <= k < t2.len() && (#[trigger] t2[k]).account == account && t2[k].ready implies {
        let base = if info.baseline() >= q + 1 { info.baseline() as int } else { q + 1 };
        match info {
            SequenceInfo::Sequential { .. } => t2[k].seq == base || (t2[k].seq > base
                && follows_ready(t2, k)),
            SequenceInfo::SlidingWindow { range, .. } => base <= t2[k].seq && t2[k].seq - base
                < range,
        }
    } by {
        let k0 = if k < start { k } else { k + 1 };
        assert(t2[k] == table[k0]);
        if k0 < start {
            assert(slot_lt(table[k0].slot(), table[start].slot()));
            if k0 < start - 1 {
                assert(slot_lt(table[k0].slot(), table[start - 1].slot()));
                assert(slot_lt(table[start - 1].slot(), table[start].slot()));
            }
        } else {
            assert(slot_lt(table[start].slot(), table[k0].slot()));
            assert(table[k0].seq > q);
            if k0 - 1 != start {
                assert(t2[k - 1] == table[k0 - 1]);
                assert(slot_lt(table[start].slot(), table[k0 - 1].slot()));
            }
        }
    }
}

/// Once every record of the account up to `seq` is removed, the marks are
/// sound by the rule advanced past `seq`.
pub proof fn lemma_purge_done(
    table: Seq<RecordView>,
    account: AccountAddress,
    info: SequenceInfo,
    low: int,
    seq: u64,
)
    requires
        low <= seq + 1 || low == info.baseline(),
        marks_sound_above(table, account, info, low),
        forall|i: int|
            0 <= i < table.len() && (#[trigger] table[i]).account == account ==> table[i].seq
                > seq && table[i].seq >= info.baseline(),
    ensures
        marks_sound(table, account, info.advanced(seq)),
        forall|i: int|
            0 <= i < table.len() && (#[trigger] table[i]).account == account ==> table[i].seq
                >= info.advanced(seq).baseline(),
{
}

/// After a record is removed, the marks of its account are complete by the
/// account's rule; they are sound too when the record was blocked.
pub proof fn lemma_marks_after_remove(table: Seq<RecordView>, i: int, next_position: u64)
    requires
        slots_sorted(table),
        ledger_ok(table, None, next_position),
        0 <= i < table.len(),
    ensures
        marks_complete(
            table.remove(i),
            table[i].account,
            table[i].sequence_info,
            next_position,
        ),
        !table[i].ready ==> marks_sound(table.remove(i), table[i].account, table[i].sequence_info),
        forall|k: int|
            0 <= k < table.remove(i).len() && (#[trigger] table.remove(i)[k]).account
                == table[i].account ==> table.remove(i)[k].seq >= table[i].sequence_info.baseline()
                && table.remove(i)[k].sequence_info == table[i].sequence_info,
{
    let t2 = table.remove(i);
    let account = table[i].account;
    let info = table[i].sequence_info;
    assert forall|k: int| 0 <= k < t2.len() && (#[trigger] t2[k]).account == account implies {
        &&& t2[k].seq >= info.baseline()
        &&& t2[k].sequence_info == info
        &&& (info.ready_rule(t2[k].seq, follows_ready(t2, k)) ==> t2[k].ready)
        &&& (t2[k].ready && t2[k].timeline_state is NotReady ==> next_position == u64::MAX)
        &&& (!table[i].ready && t2[k].ready ==> info.ready_rule(t2[k].seq, follows_ready(t2, k)))
    } by {
        let k0 = if k < i { k } else { k + 1 };
        assert(t2[k] == table[k0]);
        assert(ledger_ok_at(table, k0, next_position));
        lemma_one_rule(table, next_position, k0, i);
        if k > 0 {
            if k0 - 1 == i {
                assert(t2[k - 1] == table[i - 1]);
                assert(slot_lt(table[i - 1].slot(), table[i].slot()));
                assert(slot_lt(table[i].slot(), table[k0].slot()));
            } else {
                assert(t2[k - 1] == table[k0 - 1]);
            }
        }
    }
}

/// Records of one account share one rule.
pub proof fn lemma_one_rule(table: Seq<RecordView>, next_position: u64, a: int, b: int)
    requires
        slots_sorted(table),
        ledger_ok(table, None, next_position),
        0 <= a < table.len(),
        0 <= b < table.len(),
        table[a].account == table[b].account,
    ensures
        table[a].sequence_info == table[b].sequence_info,
    decreases
            if a <= b {
                b - a
            } else {
                a - b
            },
{
    if a < b {
        if a < b - 1 {
            assert(slot_lt(table[a].slot(), table[b - 1].slot()));
        }
        assert(slot_lt(table[b - 1].slot(), table[b].slot()));
        assert(ledger_ok_at(table, b, next_position));
        lemma_one_rule(table, next_position, a, b - 1);
    } else if b < a {
        if b < a - 1 {
            assert(slot_lt(table[b].slot(), table[a - 1].slot()));
        }
        assert(slot_lt(table[a - 1].slot(), table[a].slot()));
        assert(ledger_ok_at(table, a, next_position));
        lemma_one_rule(table, next_position, a - 1, b);
    }
}

/// The readiness that the store records is the readiness that the sequencing
/// rules define: for a strictly sequential account, a record is ready exactly
/// when every sequence number from the baseline up to its own is occupied.
pub proof fn lemma_ready_iff_rule(table: Seq<RecordView>, next_position: u64, i: int)
    requires
        slots_sorted(table),
        ledger_ok(table, None, next_position),
        0 <= i < table.len(),
    ensures
        table[i].ready == ready_by_rule(table, table[i]),
    decreases i,
{
    let r = table[i];
    assert(ledger_ok_at(table, i, next_position));
    lemma_record_at(table, i);
    match r.sequence_info {
        SequenceInfo::Sequential { next } => {
            if r.seq == next {
                assert forall|s: u64| next <= s <= r.seq implies #[trigger] holds(
                    table,
                    SlotKey { account: r.account, seq: s },
                ) by {
                    assert(SlotKey { account: r.account, seq: s } == r.slot());
                }
            } else if follows_ready(table, i) {
                lemma_ready_iff_rule(table, next_position, i - 1);
                let p = table[i - 1];
                assert(ready_by_rule(table, p));
                assert forall|s: u64| next <= s <= r.seq implies #[trigger] holds(
                    table,
                    SlotKey { account: r.account, seq: s },
                ) by {
                    if s == r.seq {
                        assert(SlotKey { account: r.account, seq: s } == r.slot());
                    } else {
                        assert(holds(table, SlotKey { account: p.account, seq: s }));
                    }
                }
            } else if ready_by_rule(table, r) {
                let below = SlotKey { account: r.account, seq: (r.seq - 1) as u64 };
                assert(holds(table, below));
                let j = choose|j: int| 0 <= j < table.len() && (#[trigger] table[j]).slot() == below;
                if j >= i {
                    if j > i {
                        assert(slot_lt(table[i].slot(), table[j].slot()));
                    }
                } else if j < i - 1 {
                    assert(slot_lt(table[j].slot(), table[i - 1].slot()));
                    assert(slot_lt(table[i - 1].slot(), table[i].slot()));
                } else {
                    lemma_ready_iff_rule(table, next_position, i - 1);
                    let p = table[i - 1];
                    assert(p.sequence_info == r.sequence_info);
                    assert forall|s: u64| next <= s <= p.seq implies #[trigger] holds(
                        table,
                        SlotKey { account: p.account, seq: s },
                    ) by {
                        assert(holds(table, SlotKey { account: r.account, seq: s }));
                    }
                    assert(ready_by_rule(table, p));
                }
            }
        },
        SequenceInfo::SlidingWindow { .. } => {},
    }
}

/// Under a strictly sequential rule, a record whose slot lies in a stretch
/// of occupied sequence numbers that starts at the baseline is ready.
pub proof fn lemma_prefix_ready(table: Seq<RecordView>, next_position: u64, i: int, top: u64)
    requires
        slots_sorted(table),
        ledger_ok(table, None, next_position),
        0 <= i < table.len(),
        table[i].seq <= top,
        table[i].sequence_info is Sequential,
        forall|s: u64|
            table[i].sequence_info.baseline() <= s <= top ==> #[trigger] holds(
                table,
                SlotKey { account: table[i].account, seq: s },
            ),
    ensures
        table[i].ready,
{
    assert(ledger_ok_at(table, i, next_position));
    assert(ready_by_rule(table, table[i]));
    lemma_ready_iff_rule(table, next_position, i);
}

/// The rule that the records of an account carry, read off any of them.
pub proof fn lemma_rule_of(table: Seq<RecordView>, next_position: u64, i: int)
    requires
        slots_sorted(table),
        ledger_ok(table, None, next_position),
        0 <= i < table.len(),
    ensures
        has_account(table, table[i].account),
        rule_of(table, table[i].account) == table[i].sequence_info,
{
    let account = table[i].account;
    assert(has_account(table, account));
    let w = choose|w: int| 0 <= w < table.len() && (#[trigger] table[w]).account == account;
    lemma_one_rule(table, next_position, w, i);
}

/// A blocked record never stands inside a stretch of occupied sequence
/// numbers that starts at the baseline of its account.
pub proof fn lemma_blocked_above(
    t0: Seq<RecordView>,
    np: u64,
    v: SlotKey,
    account: AccountAddress,
    info: SequenceInfo,
    top: u64,
)
    requires
        slots_sorted(t0),
        ledger_ok(t0, None, np),
        holds(t0, v),
        !record_at(t0, v).ready,
        info is Sequential,
        has_account(t0, account) ==> rule_of(t0, account) == info,
        forall|s: u64|
            info.baseline() <= s <= top ==> #[trigger] holds(t0, SlotKey { account, seq: s }),
    ensures
        v.account == account ==> v.seq > top,
{
    if v.account == account && v.seq <= top {
        let kv = choose|kv: int| 0 <= kv < t0.len() && (#[trigger] t0[kv]).slot() == v;
        lemma_record_at(t0, kv);
        lemma_rule_of(t0, np, kv);
        assert(ledger_ok_at(t0, kv, np));
        assert forall|s: u64|
            t0[kv].sequence_info.baseline() <= s <= top implies #[trigger] holds(
            t0,
            SlotKey { account: t0[kv].account, seq: s },
        ) by {
            assert(holds(t0, SlotKey { account, seq: s }));
        }
        lemma_prefix_ready(t0, np, kv, top);
    }
}

/// A record that takes the next position, or keeps the one it had, leaves
/// the positions handed out since `old_next` in the order of the table, as
/// long as no record after it has been promoted yet.
pub proof fn lemma_promoted_step(
    cur: Seq<RecordView>,
    new: Seq<RecordView>,
    i: int,
    old_next: u64,
    cur_next: u64,
)
    requires
        cur.len() == new.len(),
        0 <= i < cur.len(),
        forall|j: int| 0 <= j < cur.len() && j != i ==> #[trigger] new[j] == cur[j],
        promoted_in_order(cur, old_next),
        forall|j: int|
            0 <= j < cur.len() ==> match (#[trigger] cur[j]).timeline_state {
                TimelineState::Ready(p) => p < cur_next,
                _ => true,
            },
        forall|j: int|
            i <= j < cur.len() ==> match (#[trigger] cur[j]).timeline_state {
                TimelineState::Ready(p) => p < old_next,
                _ => true,
            },
        match new[i].timeline_state {
            TimelineState::Ready(q) => q == cur_next || cur[i].timeline_state
                == TimelineState::Ready(q),
            _ => true,
        },
    ensures
        promoted_in_order(new, old_next),
{
    assert forall|a: int, b: int| 0 <= a < b < new.len() implies match (
        (#[trigger] new[a]).timeline_state,
        (#[trigger] new[b]).timeline_state,
    ) {
        (TimelineState::Ready(p), TimelineState::Ready(q)) => p >= old_next && q >= old_next
            ==> p < q,
        _ => true,
    } by {
        if a != i {
            assert(new[a] == cur[a]);
        }
        if b != i {
            assert(new[b] == cur[b]);
        }
        if a != i && b != i {
            assert(match (cur[a].timeline_state, cur[b].timeline_state) {
                (TimelineState::Ready(p), TimelineState::Ready(q)) => p >= old_next && q
                    >= old_next ==> p < q,
                _ => true,
            });
        }
    }
}

/// One step of a refresh keeps the records that have been walked in line
/// with the rule.
proof fn lemma_refresh_step_rule(
    before: Seq<RecordView>,
    cur: Seq<RecordView>,
    new: Seq<RecordView>,
    account: AccountAddress,
    info: SequenceInfo,
    start: int,
    i: int,
    old_next: u64,
    cur_next: u64,
    new_next: u64,
    ready: bool,
)
    requires
        refresh_ground(before, account, info, start, old_next),
        refreshing(before, cur, account, info, start, i, old_next, cur_next),
        i < before.len(),
        before[i].account == account,
        ready == info.ready_rule(before[i].seq, follows_ready(cur, i)),
        new == cur.update(i, restated(cur[i], ready, info, cur_next)),
        new_next == if takes_position(cur[i], ready, cur_next) {
            (cur_next + 1) as u64
        } else {
            cur_next
        },
        forall|j: int|
            0 <= j < cur.len() ==> match (#[trigger] cur[j]).timeline_state {
                TimelineState::Ready(p) => p < cur_next,
                _ => true,
            },
    ensures
        new.len() == before.len(),
        old_next <= new_next,
        forall|j: int| 0 <= j < before.len() && !(start <= j < i + 1) ==> #[trigger] new[j] == before[j],
        forall|j: int|
            start <= j < i + 1 ==> refreshed_from(
                #[trigger] before[j],
                new[j],
                info,
                old_next,
                new_next,
            ),
        forall|j: int| start <= j < i + 1 ==> #[trigger] ledger_ok_at(new, j, new_next),
{
    assert(cur[i] == before[i]);
    assert(refreshed_from(before[i], new[i], info, old_next, new_next));
    assert(follows_ready(new, i) == follows_ready(cur, i)) by {
        if i > 0 {
            assert(new[i - 1] == cur[i - 1]);
        }
    }
    assert(ledger_ok_at(new, i, new_next)) by {
        if i > 0 {
            assert(new[i - 1] == cur[i - 1]);
            if i > start {
                assert(refreshed_from(before[i - 1], cur[i - 1], info, old_next, cur_next));
            } else {
                assert(cur[i - 1] == before[i - 1]);
                assert(slot_lt(before[i - 1].slot(), SlotKey { account, seq: 0 }));
            }
        }
    }
    assert forall|j: int| start <= j < i + 1 implies refreshed_from(
        #[trigger] before[j],
        new[j],
        info,
        old_next,
        new_next,
    ) by {
        if j < i {
            assert(new[j] == cur[j]);
            assert(refreshed_from(before[j], cur[j], info, old_next, cur_next));
        }
    }
    assert forall|j: int| start <= j < i + 1 implies #[trigger] ledger_ok_at(new, j, new_next) by {
        if j < i {
            assert(new[j] == cur[j]);
            if j > 0 {
                assert(new[j - 1] == cur[j - 1]);
            }
            assert(ledger_ok_at(cur, j, cur_next));
        }
    }
}

/// One step of a refresh demotes nothing where the marks were sound.
proof fn lemma_refresh_step_sound(
    before: Seq<RecordView>,
    cur: Seq<RecordView>,
    new: Seq<RecordView>,
    account: AccountAddress,
    info: SequenceInfo,
    start: int,
    i: int,
    old_next: u64,
    cur_next: u64,
    new_next: u64,
    ready: bool,
)
    requires
        refresh_ground(before, account, info, start, old_next),
        refreshing(before, cur, account, info, start, i, old_next, cur_next),
        i < before.len(),
        before[i].account == account,
        ready == info.ready_rule(before[i].seq, follows_ready(cur, i)),
        new == cur.update(i, restated(cur[i], ready, info, cur_next)),
        new_next == if takes_position(cur[i], ready, cur_next) {
            (cur_next + 1) as u64
        } else {
            cur_next
        },
        forall|j: int|
            0 <= j < cur.len() ==> match (#[trigger] cur[j]).timeline_state {
                TimelineState::Ready(p) => p < cur_next,
                _ => true,
            },
        marks_sound(before, account, info),
    ensures
        forall|j: int| start <= j < i + 1 && (#[trigger] before[j]).ready ==> new[j].ready,
{
    assert(cur[i] == before[i]);
    assert forall|j: int| start <= j < i + 1 && (#[trigger] before[j]).ready implies new[j].ready by {
        if j < i {
            assert(new[j] == cur[j]);
        } else {
            assert(info.ready_rule(before[i].seq, follows_ready(before, i)));
            if follows_ready(before, i) {
                assert(before[i - 1].account == account);
                if i - 1 < start {
                    assert(slot_lt(before[i - 1].slot(), SlotKey { account, seq: 0 }));
                }
                assert(refreshed_from(before[i - 1], cur[i - 1], info, old_next, cur_next));
                assert(cur[i - 1].ready);
                assert(follows_ready(cur, i));
            }
        }
    }
}

/// One step of a refresh promotes nothing where the marks were complete.
proof fn lemma_refresh_step_complete(
    before: Seq<RecordView>,
    cur: Seq<RecordView>,
    new: Seq<RecordView>,
    account: AccountAddress,
    info: SequenceInfo,
    start: int,
    i: int,
    old_next: u64,
    cur_next: u64,
    new_next: u64,
    ready: bool,
)
    requires
        refresh_ground(before, account, info, start, old_next),
        refreshing(before, cur, account, info, start, i, old_next, cur_next),
        i < before.len(),
        before[i].account == account,
        ready == info.ready_rule(before[i].seq, follows_ready(cur, i)),
        new == cur.update(i, restated(cur[i], ready, info, cur_next)),
        new_next == if takes_position(cur[i], ready, cur_next) {
            (cur_next + 1) as u64
        } else {
            cur_next
        },
        forall|j: int|
            0 <= j < cur.len() ==> match (#[trigger] cur[j]).timeline_state {
                TimelineState::Ready(p) => p < cur_next,
                _ => true,
            },
        marks_complete(before, account, info, old_next),
    ensures
        new_next == old_next,
        forall|j: int| start <= j < i + 1 && (#[trigger] new[j]).ready ==> before[j].ready,
{
    assert(cur[i] == before[i]);
    if ready {
        if follows_ready(cur, i) {
            if i - 1 < start {
                assert(cur[i - 1] == before[i - 1]);
                assert(slot_lt(before[i - 1].slot(), SlotKey { account, seq: 0 }));
            }
            assert(refreshed_from(before[i - 1], cur[i - 1], info, old_next, cur_next));
            assert(before[i - 1].ready);
            assert(follows_ready(before, i));
        }
        assert(info.ready_rule(before[i].seq, follows_ready(before, i)));
        assert(before[i].ready);
    }
    assert forall|j: int| start <= j < i + 1 && (#[trigger] new[j]).ready implies before[j].ready by {
        if j < i {
            assert(new[j] == cur[j]);
        }
    }
}

/// One step of a refresh: the record at `i` gets the readiness that the rule
/// gives it after the record before it.
pub proof fn lemma_refresh_step(
    before: Seq<RecordView>,
    cur: Seq<RecordView>,
    new: Seq<RecordView>,
    account: AccountAddress,
    info: SequenceInfo,
    start: int,
    i: int,
    old_next: u64,
    cur_next: u64,
    new_next: u64,
    ready: bool,
)
    requires
        refresh_ground(before, account, info, start, old_next),
        refreshing(before, cur, account, info, start, i, old_next, cur_next),
        i < before.len(),
        before[i].account == account,
        ready == info.ready_rule(before[i].seq, follows_ready(cur, i)),
        new == cur.update(i, restated(cur[i], ready, info, cur_next)),
        new_next == if takes_position(cur[i], ready, cur_next) {
            (cur_next + 1) as u64
        } else {
            cur_next
        },
        forall|j: int|
            0 <= j < cur.len() ==> match (#[trigger] cur[j]).timeline_state {
                TimelineState::Ready(p) => p < cur_next,
                _ => true,
            },
    ensures
        refreshing(before, new, account, info, start, i + 1, old_next, new_next),
{
    assert(cur[i] == before[i]);
    lemma_bytes_update(cur, i, new[i]);
    lemma_promoted_step(cur, new, i, old_next, cur_next);
    lemma_dense_step(cur, new, i, old_next, cur_next, new_next);
    lemma_refresh_step_rule(before, cur, new, account, info, start, i, old_next, cur_next, new_next, ready);
    if marks_sound(before, account, info) {
        lemma_refresh_step_sound(before, cur, new, account, info, start, i, old_next, cur_next, new_next, ready);
    }
    if marks_complete(before, account, info, old_next) {
        lemma_refresh_step_complete(before, cur, new, account, info, start, i, old_next, cur_next, new_next, ready);
    }
}

/// The end of a refresh: once the run of the account has been walked, every
/// record of the table agrees with the rule of its account.
pub proof fn lemma_refresh_done(
    before: Seq<RecordView>,
    after: Seq<RecordView>,
    account: AccountAddress,
    info: SequenceInfo,
    start: int,
    i: int,
    old_next: u64,
    after_next: u64,
)
    requires
        refresh_ground(before, account, info, start, old_next),
        refreshing(before, after, account, info, start, i, old_next, after_next),
        i < before.len() ==> before[i].account != account,
    ensures
        ledger_ok(after, None, after_next),
        promoted_in_order(after, old_next),
        positions_dense(after, old_next, after_next),
        forall|j: int|
            0 <= j < before.len() ==> if (#[trigger] before[j]).account == account {
                refreshed_from(before[j], after[j], info, old_next, after_next)
            } else {
                after[j] == before[j]
            },
        marks_sound(before, account, info) ==> forall|j: int|
            0 <= j < before.len() && (#[trigger] before[j]).ready ==> after[j].ready,
        marks_complete(before, account, info, old_next) ==> (after_next == old_next && forall|j: int|
            0 <= j < before.len() && (#[trigger] after[j]).ready ==> before[j].ready),
{
    assert forall|j: int| 0 <= j < before.len() implies ((#[trigger] before[j]).account == account
        <==> start <= j < i) by {
        if j < start {
            assert(slot_lt(before[j].slot(), SlotKey { account, seq: 0 }));
        } else if j >= i {
            assert(!slot_lt(before[i].slot(), SlotKey { account, seq: 0 }));
            if j > i {
                assert(slot_lt(before[i].slot(), before[j].slot()));
            }
        }
    }
    assert forall|j: int| 0 <= j < after.len() implies ledger_ok_at(after, j, after_next) by {
        if start <= j < i {
            assert(ledger_ok_at(after, j, after_next));
        } else {
            assert(after[j] == before[j]);
            assert(ledger_ok_at(before, j, old_next));
            if j > 0 {
                if start <= j - 1 < i {
                    assert(refreshed_from(before[j - 1], after[j - 1], info, old_next, after_next));
                } else {
                    assert(after[j - 1] == before[j - 1]);
                }
            }
        }
    }
    assert forall|j: int| 0 <= j < before.len() implies if (#[trigger] before[j]).account
        == account {
        refreshed_from(before[j], after[j], info, old_next, after_next)
    } else {
        after[j] == before[j]
    } by {}
    if marks_sound(before, account, info) {
        assert forall|j: int| 0 <= j < before.len() && (#[trigger] before[j]).ready implies after[j].ready by {
            if !(start <= j < i) {
                assert(after[j] == before[j]);
            }
        }
    }
    if marks_complete(before, account, info, old_next) {
        assert forall|j: int| 0 <= j < before.len() && (#[trigger] after[j]).ready implies before[j].ready by {
            if !(start <= j < i) {
                assert(after[j] == before[j]);
            }
        }
    }
}

/// A record that takes the next position, or keeps a position from before
/// `old_next`, leaves every position since `old_next` held.
pub proof fn lemma_dense_step(
    cur: Seq<RecordView>,
    new: Seq<RecordView>,
    i: int,
    old_next: u64,
    cur_next: u64,
    new_next: u64,
)
    requires
        cur.len() == new.len(),
        0 <= i < cur.len(),
        old_next <= cur_next <= new_next <= cur_next + 1,
        forall|j: int| 0 <= j < cur.len() && j != i ==> #[trigger] new[j] == cur[j],
        positions_dense(cur, old_next, cur_next),
        match cur[i].timeline_state {
            TimelineState::Ready(p) => p < old_next,
            _ => true,
        },
        new_next == cur_next + 1 ==> new[i].timeline_state == TimelineState::Ready(cur_next),
    ensures
        positions_dense(new, old_next, new_next),
{
    assert forall|q: u64| old_next <= q < new_next implies #[trigger] position_held(new, q) by {
        if q < cur_next {
            assert(position_held(cur, q));
            let j = choose|j: int| #[trigger] holds_position(cur, j, q);
            assert(j != i);
            assert(new[j] == cur[j]);
            assert(holds_position(new, j, q));
        } else {
            assert(holds_position(new, i, q));
        }
    }
}

} // verus!
