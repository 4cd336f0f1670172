//! The mathematics of the pool: what the table of records is, which index
//! entries a table gives rise to, when a record is ready, and how the table
//! after an operation relates to the table before it.

use crate::ordered_index::{entry_lt, IndexEntry};
use crate::types::{
    AccountAddress, HashValue, RecordView, SequenceInfo, slot_lt, SlotKey, TimelineState,
    TransactionRecord,
};
use vstd::prelude::*;

verus! {

/// The six indices kept over the table.
#[derive(Clone, Copy, Debug, PartialEq, Eq, Structural)]
pub enum IndexKind {
    /// Ready records, best first: by descending score, then expiration.
    Priority,
    /// Records on the broadcast timeline, by position.
    Timeline,
    /// All records, by the expiration that the transaction declares.
    Expiration,
    /// All records, by admission time.
    Age,
    /// Blocked records, by admission time.
    Parking,
    /// All records, by the digest of their payload.
    Hash,
}

/// Whether the index `kind` refers to the record `r`.
pub open spec fn member(kind: IndexKind, r: RecordView) -> bool {
    match kind {
        IndexKind::Priority => r.ready,
        IndexKind::Timeline => r.timeline_state is Ready,
        IndexKind::Parking => !r.ready,
        IndexKind::Expiration => true,
        IndexKind::Age => true,
        IndexKind::Hash => true,
    }
}

/// The entry under which the index `kind` refers to the record `r`.
pub open spec fn key_of(kind: IndexKind, r: RecordView) -> IndexEntry {
    match kind {
        IndexKind::Priority => IndexEntry {
            major: (u64::MAX - r.ranking_score) as u128,
            minor: r.expiration as u128,
            slot: r.slot(),
        },
        IndexKind::Timeline => IndexEntry {
            major: match r.timeline_state {
                TimelineState::Ready(p) => p as u128,
                _ => 0,
            },
            minor: 0,
            slot: r.slot(),
        },
        IndexKind::Expiration => IndexEntry {
            major: r.expiration as u128,
            minor: 0,
            slot: r.slot(),
        },
        IndexKind::Age => IndexEntry { major: r.admitted_at as u128, minor: 0, slot: r.slot() },
        IndexKind::Parking => IndexEntry {
            major: r.admitted_at as u128,
            minor: 0,
            slot: r.slot(),
        },
        IndexKind::Hash => IndexEntry { major: r.hash.hi, minor: r.hash.lo, slot: r.slot() },
    }
}

/// Whether `e` is the entry of some record of the table in the index `kind`.
pub open spec fn indexed(table: Seq<RecordView>, kind: IndexKind, e: IndexEntry) -> bool {
    exists|i: int|
        0 <= i < table.len() && member(kind, #[trigger] table[i]) && key_of(kind, table[i]) == e
}

/// The table is in strictly increasing order of slots: no slot occurs twice.
pub open spec fn slots_sorted(table: Seq<RecordView>) -> bool {
    forall|i: int, j: int|
        0 <= i < j < table.len() ==> slot_lt((#[trigger] table[i]).slot(), (#[trigger] table[j]).slot())
}

/// Whether the slot is occupied.
pub open spec fn holds(table: Seq<RecordView>, slot: SlotKey) -> bool {
    exists|i: int| 0 <= i < table.len() && (#[trigger] table[i]).slot() == slot
}

/// The record in an occupied slot.
pub open spec fn record_at(table: Seq<RecordView>, slot: SlotKey) -> RecordView {
    table[choose|i: int| 0 <= i < table.len() && (#[trigger] table[i]).slot() == slot]
}

/// Whether the account has a record in the table.
pub open spec fn has_account(table: Seq<RecordView>, account: AccountAddress) -> bool {
    exists|i: int| 0 <= i < table.len() && (#[trigger] table[i]).account == account
}

/// The sum of the payload sizes.
pub open spec fn total_bytes(table: Seq<RecordView>) -> nat
    decreases table.len(),
{
    if table.len() == 0 {
        0
    } else {
        total_bytes(table.drop_last()) + table.last().bytes()
    }
}

/// Whether the record before `i` occupies the slot directly below that of
/// `i` and is ready.
pub open spec fn follows_ready(table: Seq<RecordView>, i: int) -> bool {
    i > 0 && table[i - 1].account == table[i].account && table[i - 1].seq + 1 == table[i].seq
        && table[i - 1].ready
}

/// The record at `i` agrees with the sequencing rule of its account: it is
/// not below the baseline, it shares the rule of its neighbour, its readiness
/// is what the rule says, and when ready and qualified it is on the timeline
/// unless the positions are used up.
pub open spec fn ledger_ok_at(table: Seq<RecordView>, i: int, next_position: u64) -> bool {
    let r = table[i];
    &&& r.seq >= r.sequence_info.baseline()
    &&& (i > 0 && table[i - 1].account == r.account ==> table[i - 1].sequence_info
        == r.sequence_info)
    &&& r.ready == r.sequence_info.ready_rule(r.seq, follows_ready(table, i))
    &&& (r.ready && r.timeline_state is NotReady ==> next_position == u64::MAX)
}

/// Every record agrees with the rule of its account, but possibly those of
/// the account `except`.
pub open spec fn ledger_ok(
    table: Seq<RecordView>,
    except: Option<AccountAddress>,
    next_position: u64,
) -> bool {
    forall|i: int|
        0 <= i < table.len() && Some((#[trigger] table[i]).account) != except ==> ledger_ok_at(
            table,
            i,
            next_position,
        )
}

/// Readiness as the sequencing rules define it, from the occupied slots
/// alone. Strictly sequential: every sequence number from the baseline up to
/// the record's own is occupied. Sliding window: the nonce lies in the window.
pub open spec fn ready_by_rule(table: Seq<RecordView>, r: RecordView) -> bool {
    match r.sequence_info {
        SequenceInfo::Sequential { next } => next <= r.seq && forall|s: u64|
            next <= s <= r.seq ==> #[trigger] holds(table, SlotKey { account: r.account, seq: s }),
        SequenceInfo::SlidingWindow { min_nonce, range } => min_nonce <= r.seq && r.seq
            - min_nonce < range,
    }
}

/// The values of a sequence of records.
pub open spec fn views(s: Seq<TransactionRecord>) -> Seq<RecordView> {
    Seq::new(s.len(), |i: int| s[i]@)
}

/// What `set_state` makes of a record: the readiness and the rule are as
/// given; a qualified record that becomes ready takes `next_position`, one
/// that stays ready keeps its position, one that is blocked has none.
pub open spec fn restated(
    r: RecordView,
    ready: bool,
    info: SequenceInfo,
    next_position: u64,
) -> RecordView {
    RecordView {
        ready,
        sequence_info: info,
        timeline_state: match r.timeline_state {
            TimelineState::NonQualified => TimelineState::NonQualified,
            TimelineState::Ready(p) => if ready {
                TimelineState::Ready(p)
            } else {
                TimelineState::NotReady
            },
            TimelineState::NotReady => if ready && next_position < u64::MAX {
                TimelineState::Ready(next_position)
            } else {
                TimelineState::NotReady
            },
        },
        ..r
    }
}

/// Whether `restated` hands out `next_position`.
pub open spec fn takes_position(r: RecordView, ready: bool, next_position: u64) -> bool {
    r.timeline_state is NotReady && ready && next_position < u64::MAX
}

/// How a record `b` of a refreshed account stems from the record `a` that
/// stood in its slot: nothing submitted has changed, the rule is `info`, and
/// the timeline state follows the readiness. A record that was on the
/// timeline keeps its position while it is ready; one that becomes ready
/// takes a position in `[old_next, new_next)`, unless none is left.
pub open spec fn refreshed_from(
    a: RecordView,
    b: RecordView,
    info: SequenceInfo,
    old_next: u64,
    new_next: u64,
) -> bool {
    &&& b == RecordView { ready: b.ready, sequence_info: info, timeline_state: b.timeline_state, ..a }
    &&& match a.timeline_state {
        TimelineState::NonQualified => b.timeline_state is NonQualified,
        TimelineState::Ready(p) => b.timeline_state == if b.ready {
            TimelineState::Ready(p)
        } else {
            TimelineState::NotReady
        },
        TimelineState::NotReady => if b.ready {
            match b.timeline_state {
                TimelineState::Ready(q) => old_next <= q < new_next,
                TimelineState::NotReady => new_next == u64::MAX,
                TimelineState::NonQualified => false,
            }
        } else {
            b.timeline_state is NotReady
        },
    }
}

/// Every record of `account` that is marked ready is ready by the rule
/// `info`, given the marks of the records before it.
pub open spec fn marks_sound(
    table: Seq<RecordView>,
    account: AccountAddress,
    info: SequenceInfo,
) -> bool {
    forall|i: int|
        0 <= i < table.len() && (#[trigger] table[i]).account == account && table[i].ready
            ==> info.ready_rule(table[i].seq, follows_ready(table, i))
}

/// Every record of `account` that is ready by the rule `info`, given the
/// marks of the records before it, is marked ready; and one that is marked
/// ready without a timeline position shows that no position is left.
pub open spec fn marks_complete(
    table: Seq<RecordView>,
    account: AccountAddress,
    info: SequenceInfo,
    next_position: u64,
) -> bool {
    forall|i: int|
        0 <= i < table.len() && (#[trigger] table[i]).account == account ==> (info.ready_rule(
            table[i].seq,
            follows_ready(table, i),
        ) ==> table[i].ready) && (table[i].ready && table[i].timeline_state is NotReady
            ==> next_position == u64::MAX)
}

/// `b` is `a`, or `a` after it lost its readiness and with it its place on
/// the timeline.
pub open spec fn demoted_from(a: RecordView, b: RecordView) -> bool {
    b == a || (a.ready && b == RecordView {
        ready: false,
        timeline_state: if a.qualified() {
            TimelineState::NotReady
        } else {
            TimelineState::NonQualified
        },
        ..a
    })
}

/// The table `new` is `old` after the commit of `seq` for `account`: the
/// account's records up to `seq` are gone, its other records carry the
/// advanced rule and none of them lost its readiness, and the records of the
/// other accounts are as they were.
pub open spec fn committed(
    old: Seq<RecordView>,
    new: Seq<RecordView>,
    old_next: u64,
    new_next: u64,
    account: AccountAddress,
    seq: u64,
) -> bool {
    &&& old_next <= new_next
    &&& forall|s: SlotKey| #[trigger]
        holds(new, s) <==> (holds(old, s) && !(s.account == account && s.seq <= seq))
    &&& forall|s: SlotKey|
        holds(new, s) ==> {
            let a = record_at(old, s);
            let b = #[trigger] record_at(new, s);
            if s.account == account {
                &&& refreshed_from(a, b, a.sequence_info.advanced(seq), old_next, new_next)
                &&& a.ready ==> b.ready
            } else {
                b == a
            }
        }
}

/// Whether the records of `account` stand under a baseline below `floor`.
pub open spec fn lifts(table: Seq<RecordView>, account: AccountAddress, floor: u64) -> bool {
    has_account(table, account) && rule_of(table, account).baseline() < floor
}

/// The table `new` is `old` after the baseline of `account` was lifted to
/// `floor`. Where the account has records under a lower baseline, this is
/// the commit of the key just below `floor`: the account's records below
/// `floor` are gone, the others carry the raised rule, and what has become
/// ready holds the positions from `old_next` up to `new_next`. Otherwise
/// nothing has changed.
pub open spec fn lifted_to(
    old: Seq<RecordView>,
    new: Seq<RecordView>,
    old_next: u64,
    new_next: u64,
    account: AccountAddress,
    floor: u64,
) -> bool {
    if lifts(old, account, floor) {
        &&& committed(old, new, old_next, new_next, account, (floor - 1) as u64)
        &&& promoted_in_order(new, old_next)
        &&& positions_dense(new, old_next, new_next)
    } else {
        new == old && new_next == old_next
    }
}

/// The table `new` is `old` after the record in `slot` was taken out: that
/// slot is free, every other record is still there, and none has changed
/// but for records of the same account that lost their readiness.
pub open spec fn rejected(old: Seq<RecordView>, new: Seq<RecordView>, slot: SlotKey) -> bool {
    &&& forall|s: SlotKey| #[trigger] holds(new, s) <==> (holds(old, s) && s != slot)
    &&& forall|s: SlotKey|
        holds(new, s) ==> {
            let a = record_at(old, s);
            let b = #[trigger] record_at(new, s);
            if s.account == slot.account {
                demoted_from(a, b)
            } else {
                b == a
            }
        }
}

/// Whether a sweep at `threshold` takes the record: by age, when it was
/// admitted at or before the threshold; else when its own expiration is at or
/// before the threshold.
pub open spec fn stale(r: RecordView, by_age: bool, threshold: u64) -> bool {
    if by_age {
        r.admitted_at <= threshold
    } else {
        r.expiration <= threshold
    }
}

/// The table `new` is `old` after a sweep: every stale record is gone, the
/// others are still there, and none has changed but for records that lost
/// their readiness.
pub open spec fn swept(
    old: Seq<RecordView>,
    new: Seq<RecordView>,
    by_age: bool,
    threshold: u64,
) -> bool {
    &&& forall|s: SlotKey| #[trigger]
        holds(new, s) <==> (holds(old, s) && !stale(record_at(old, s), by_age, threshold))
    &&& forall|s: SlotKey|
        holds(new, s) ==> demoted_from(record_at(old, s), #[trigger] record_at(new, s))
}

/// While the records of `account` below `low` are being removed from the
/// front of its run, every record of the account that is marked ready is
/// ready by the rule lifted to `low`.
pub open spec fn marks_sound_above(
    table: Seq<RecordView>,
    account: AccountAddress,
    info: SequenceInfo,
    low: int,
) -> bool {
    forall|i: int|
        0 <= i < table.len() && (#[trigger] table[i]).account == account && table[i].ready ==> {
            let base = if info.baseline() >= low { info.baseline() as int } else { low };
            match info {
                SequenceInfo::Sequential { .. } => table[i].seq == base || (table[i].seq > base
                    && follows_ready(table, i)),
                SequenceInfo::SlidingWindow { range, .. } => base <= table[i].seq
                    && table[i].seq - base < range,
            }
        }
}

/// The rule that the records of `account` carry.
pub open spec fn rule_of(table: Seq<RecordView>, account: AccountAddress) -> SequenceInfo {
    table[choose|i: int| 0 <= i < table.len() && (#[trigger] table[i]).account == account].sequence_info
}

/// The rule under which `r` is admitted: that of its account where the
/// account has records, else the one that `r` brings along.
pub open spec fn effective_rule(table: Seq<RecordView>, r: RecordView) -> SequenceInfo {
    if has_account(table, r.account) {
        rule_of(table, r.account)
    } else {
        r.sequence_info
    }
}

/// Whether `r` is ready once it stands in the table, under the rule `info`.
/// Strictly sequential: every sequence number from the baseline up to its own
/// is occupied. Sliding window: its nonce lies in the window.
pub open spec fn would_be_ready(table: Seq<RecordView>, r: RecordView, info: SequenceInfo) -> bool {
    match info {
        SequenceInfo::Sequential { next } => next <= r.seq && forall|s: u64|
            next <= s < r.seq ==> #[trigger] holds(table, SlotKey { account: r.account, seq: s }),
        SequenceInfo::SlidingWindow { min_nonce, range } => min_nonce <= r.seq && r.seq
            - min_nonce < range,
    }
}

/// Whether the table has a blocked record.
pub open spec fn has_blocked(table: Seq<RecordView>) -> bool {
    exists|i: int| 0 <= i < table.len() && !(#[trigger] table[i]).ready
}

/// Whether `v` is the blocked record that was admitted first; among records
/// admitted at the same time, the one with the least slot.
pub open spec fn is_oldest_blocked(table: Seq<RecordView>, v: RecordView) -> bool {
    &&& holds(table, v.slot())
    &&& record_at(table, v.slot()) == v
    &&& !v.ready
    &&& forall|i: int|
        0 <= i < table.len() && !(#[trigger] table[i]).ready ==> !entry_lt(
            key_of(IndexKind::Parking, table[i]),
            key_of(IndexKind::Parking, v),
        )
}

/// The blocked record that was admitted first.
pub open spec fn oldest_blocked(table: Seq<RecordView>) -> RecordView {
    choose|v: RecordView| is_oldest_blocked(table, v)
}

/// What becomes of a submission.
#[derive(Clone, Copy, Debug, PartialEq, Eq, Structural)]
pub enum Verdict {
    /// Its sequence number lies below the baseline of its account.
    Stale,
    /// Its slot holds a record with the same payload and no lower score.
    Unchanged,
    /// Its slot holds another record that it does not outbid.
    Outbid,
    /// A ceiling stands in the way and no eviction makes room.
    Full,
    /// It is admitted: in place of the record of its slot if `replace`, and
    /// after the eviction of the blocked record in `evict` if there is one.
    Admit { replace: bool, evict: Option<SlotKey> },
}

/// The verdict on the submission of `r` to a table with the two ceilings.
pub open spec fn verdict(
    table: Seq<RecordView>,
    r: RecordView,
    capacity: nat,
    capacity_bytes: nat,
) -> Verdict {
    let info = effective_rule(table, r);
    let occupied = holds(table, r.slot());
    let cur = record_at(table, r.slot());
    if r.seq < info.baseline() {
        Verdict::Stale
    } else if occupied && r.ranking_score <= cur.ranking_score {
        if r.payload == cur.payload {
            Verdict::Unchanged
        } else {
            Verdict::Outbid
        }
    } else {
        let count = table.len() + if occupied { 0int } else { 1int };
        let bytes = total_bytes(table) - (if occupied { cur.bytes() as int } else { 0int })
            + r.bytes();
        if count <= capacity && bytes <= capacity_bytes {
            Verdict::Admit { replace: occupied, evict: None }
        } else if would_be_ready(table, r, info) && has_blocked(table) && count - 1 <= capacity
            && bytes - oldest_blocked(table).bytes() <= capacity_bytes {
            Verdict::Admit { replace: occupied, evict: Some(oldest_blocked(table).slot()) }
        } else {
            Verdict::Full
        }
    }
}

/// The record as the table first stores it: what was submitted, under the
/// rule `info`.
pub open spec fn stored_form(r: RecordView, info: SequenceInfo) -> RecordView {
    RecordView { sequence_info: info, ..r.submitted() }
}

/// The table `new` is `old` after the submission of `r`. Where the verdict
/// admits `r`, the evicted record is gone, `r` stands in its slot, ready if
/// its rule says so, and no other record has lost its readiness. Otherwise
/// nothing has changed.
pub open spec fn admitted(
    old: Seq<RecordView>,
    new: Seq<RecordView>,
    old_next: u64,
    new_next: u64,
    r: RecordView,
    capacity: nat,
    capacity_bytes: nat,
) -> bool {
    match verdict(old, r, capacity, capacity_bytes) {
        Verdict::Admit { replace, evict } => {
            let info = effective_rule(old, r);
            &&& old_next <= new_next
            &&& forall|s: SlotKey| #[trigger]
                holds(new, s) <==> ((holds(old, s) && Some(s) != evict) || s == r.slot())
            &&& refreshed_from(
                stored_form(r, info),
                record_at(new, r.slot()),
                info,
                old_next,
                new_next,
            )
            &&& record_at(new, r.slot()).ready == would_be_ready(old, r, info)
            &&& forall|s: SlotKey|
                holds(new, s) && s != r.slot() ==> {
                    let a = record_at(old, s);
                    let b = #[trigger] record_at(new, s);
                    if s.account == r.account {
                        &&& refreshed_from(a, b, info, old_next, new_next)
                        &&& a.ready ==> b.ready
                    } else {
                        b == a
                    }
                }
        },
        _ => new == old && new_next == old_next,
    }
}

/// The records that a pull considers, in the order of the priority index:
/// the record of each entry, unless its digest is excluded.
pub open spec fn candidates(
    table: Seq<RecordView>,
    order: Seq<IndexEntry>,
    exclude: Seq<HashValue>,
) -> Seq<RecordView>
    decreases order.len(),
{
    if order.len() == 0 {
        Seq::empty()
    } else {
        let rest = candidates(table, order.drop_last(), exclude);
        let r = record_at(table, order.last().slot);
        if exclude.contains(r.hash) {
            rest
        } else {
            rest.push(r)
        }
    }
}

/// Whether a batch keeps within the two bounds of a pull.
pub open spec fn within_budget(batch: Seq<RecordView>, max_count: u64, max_bytes: u64) -> bool {
    batch.len() <= max_count && total_bytes(batch) <= max_bytes
}

/// `out` is the longest run of candidates from the front that keeps within
/// the bounds: the walk stops at the first candidate that would break one.
pub open spec fn pulled(
    cands: Seq<RecordView>,
    out: Seq<RecordView>,
    max_count: u64,
    max_bytes: u64,
) -> bool {
    &&& out.len() <= cands.len()
    &&& out == cands.take(out.len() as int)
    &&& within_budget(out, max_count, max_bytes)
    &&& (out.len() < cands.len() ==> !within_budget(
        cands.take(out.len() as int + 1),
        max_count,
        max_bytes,
    ))
}

/// The entries of the timeline at or after the position `from`, in order.
pub open spec fn since(order: Seq<IndexEntry>, from: u64) -> Seq<IndexEntry>
    decreases order.len(),
{
    if order.len() == 0 {
        Seq::empty()
    } else {
        let rest = since(order.drop_last(), from);
        if order.last().major >= from {
            rest.push(order.last())
        } else {
            rest
        }
    }
}

/// The entries that a read of the timeline returns: the first `max_count`
/// entries at or after `from`.
pub open spec fn timeline_batch(order: Seq<IndexEntry>, from: u64, max_count: nat) -> Seq<
    IndexEntry,
> {
    let avail = since(order, from);
    if max_count <= avail.len() {
        avail.take(max_count as int)
    } else {
        avail
    }
}

/// The position at which the next read resumes: one past the last entry
/// returned, or `from` again when nothing was returned.
pub open spec fn timeline_next(order: Seq<IndexEntry>, from: u64, max_count: nat) -> int {
    let batch = timeline_batch(order, from, max_count);
    if batch.len() == 0 {
        from as int
    } else {
        batch.last().major + 1
    }
}

/// The positions of the entries are strictly increasing.
pub open spec fn positions_increasing(order: Seq<IndexEntry>) -> bool {
    forall|i: int, j: int|
        0 <= i < j < order.len() ==> (#[trigger] order[i]).major < (#[trigger] order[j]).major
}

/// The number of records of the table to which the index `kind` refers.
pub open spec fn count_members(table: Seq<RecordView>, kind: IndexKind) -> nat
    decreases table.len(),
{
    if table.len() == 0 {
        0
    } else {
        count_members(table.drop_last(), kind) + if member(kind, table.last()) {
            1nat
        } else {
            0nat
        }
    }
}

/// The timeline positions handed out since `old_next` follow the order of
/// the table: of two records that were promoted, the one in the lower slot
/// has the earlier position.
pub open spec fn promoted_in_order(table: Seq<RecordView>, old_next: u64) -> bool {
    forall|i: int, j: int|
        0 <= i < j < table.len() ==> match (
            (#[trigger] table[i]).timeline_state,
            (#[trigger] table[j]).timeline_state,
        ) {
            (TimelineState::Ready(p), TimelineState::Ready(q)) => p >= old_next && q >= old_next
                ==> p < q,
            _ => true,
        }
}

/// Whether the record at `j` holds the timeline position `q`.
pub open spec fn holds_position(table: Seq<RecordView>, j: int, q: u64) -> bool {
    0 <= j < table.len() && table[j].timeline_state == TimelineState::Ready(q)
}

/// Whether some record holds the timeline position `q`.
pub open spec fn position_held(table: Seq<RecordView>, q: u64) -> bool {
    exists|j: int| #[trigger] holds_position(table, j, q)
}

/// Every timeline position from `old_next` up to `new_next` is held by a
/// record: the counter moves by one for each promotion, and by no more.
pub open spec fn positions_dense(table: Seq<RecordView>, old_next: u64, new_next: u64) -> bool {
    forall|q: u64| old_next <= q < new_next ==> #[trigger] position_held(table, q)
}

/// What holds of the table before the records of an account are refreshed:
/// the run of the account begins at `start`, none of its records lies below
/// the baseline of the rule, and every position handed out lies before
/// `old_next`.
pub open spec fn refresh_ground(
    before: Seq<RecordView>,
    account: AccountAddress,
    info: SequenceInfo,
    start: int,
    old_next: u64,
) -> bool {
    &&& slots_sorted(before)
    &&& 0 <= start <= before.len()
    &&& ledger_ok(before, Some(account), old_next)
    &&& forall|j: int|
        0 <= j < start ==> slot_lt((#[trigger] before[j]).slot(), SlotKey { account, seq: 0 })
    &&& forall|j: int|
        start <= j < before.len() ==> !slot_lt(
            (#[trigger] before[j]).slot(),
            SlotKey { account, seq: 0 },
        )
    &&& forall|j: int|
        0 <= j < before.len() && (#[trigger] before[j]).account == account ==> before[j].seq
            >= info.baseline()
    &&& forall|j: int|
        0 <= j < before.len() ==> match (#[trigger] before[j]).timeline_state {
            TimelineState::Ready(p) => p < old_next,
            _ => true,
        }
}

/// How far a refresh has come: the records from `start` up to `i` have been
/// brought in line with the rule, the others are as they were.
pub open spec fn refreshing(
    before: Seq<RecordView>,
    cur: Seq<RecordView>,
    account: AccountAddress,
    info: SequenceInfo,
    start: int,
    i: int,
    old_next: u64,
    cur_next: u64,
) -> bool {
    &&& cur.len() == before.len()
    &&& start <= i <= before.len()
    &&& old_next <= cur_next
    &&& total_bytes(cur) == total_bytes(before)
    &&& promoted_in_order(cur, old_next)
    &&& positions_dense(cur, old_next, cur_next)
    &&& forall|j: int| start <= j < i ==> (#[trigger] before[j]).account == account
    &&& forall|j: int| 0 <= j < before.len() && !(start <= j < i) ==> #[trigger] cur[j] == before[j]
    &&& forall|j: int|
        start <= j < i ==> refreshed_from(#[trigger] before[j], cur[j], info, old_next, cur_next)
    &&& forall|j: int| start <= j < i ==> #[trigger] ledger_ok_at(cur, j, cur_next)
    &&& (marks_sound(before, account, info) ==> forall|j: int|
        start <= j < i && (#[trigger] before[j]).ready ==> cur[j].ready)
    &&& (marks_complete(before, account, info, old_next) ==> cur_next == old_next && forall|j: int|
        start <= j < i && (#[trigger] cur[j]).ready ==> before[j].ready)
}

} // verus!
