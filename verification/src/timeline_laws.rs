//! How the timeline grows: an operation that takes no record off the
//! timeline leaves the entries that were there in their places and puts the
//! new ones behind them. This is what reading the timeline in steps rests
//! on.

use crate::laws::{law_timeline_positions, law_timeline_restartable, lemma_split_at};
use crate::mempool::{submitted, submitted_through, CoreMempool};
use crate::model::{
    admitted, committed, holds, indexed, IndexKind, key_of, lifts, member, positions_increasing,
    record_at, since, timeline_batch, timeline_next, verdict, Verdict,
};
use crate::ordered_index::{IndexEntry, lemma_sorted_unique};
use crate::store::TransactionStore;
use crate::table_proofs::lemma_record_at;
use crate::types::{AccountAddress, AdmissionResult, RecordView, SlotKey, TimelineState};
use vstd::prelude::*;

verus! {

/// Every record on the timeline of `old` stands in `new` at the same
/// position, and every other position in `new` lies at or after `old_next`.
pub open spec fn timeline_kept(old: Seq<RecordView>, new: Seq<RecordView>, old_next: u64) -> bool {
    &&& forall|i: int|
        0 <= i < old.len() && (#[trigger] old[i]).timeline_state is Ready ==> holds(
            new,
            old[i].slot(),
        ) && record_at(new, old[i].slot()).timeline_state == old[i].timeline_state
    &&& forall|j: int|
        0 <= j < new.len() ==> match (#[trigger] new[j]).timeline_state {
            TimelineState::Ready(q) => q >= old_next || (holds(old, new[j].slot()) && record_at(
                old,
                new[j].slot(),
            ).timeline_state == TimelineState::Ready(q)),
            _ => true,
        }
}

/// The order `new` is the order `old` and then further entries, all of them
/// at or after the position `old_next`.
pub open spec fn appended(old: Seq<IndexEntry>, new: Seq<IndexEntry>, old_next: u64) -> bool {
    &&& old.len() <= new.len()
    &&& new == old + new.skip(old.len() as int)
    &&& forall|j: int| old.len() <= j < new.len() ==> (#[trigger] new[j]).major >= old_next
}

/// Whether a verdict takes no record out of the table.
pub open spec fn removes_nothing(v: Verdict) -> bool {
    match v {
        Verdict::Admit { replace, evict } => !replace && evict is None,
        _ => true,
    }
}

/// Where the records on the timeline keep their positions, the timeline
/// only grows at its end: the order after is the order before and then the
/// entries of the records that were promoted. The orders of two such stores
/// are what `law_timeline_restartable` speaks of.
pub proof fn law_timeline_appends(before: TransactionStore, after: TransactionStore)
    requires
        before.wf(),
        after.wf(),
        timeline_kept(before.records(), after.records(), before.next_position()),
    ensures
        appended(
            before.index(IndexKind::Timeline)@,
            after.index(IndexKind::Timeline)@,
            before.next_position(),
        ),
        positions_increasing(
            before.index(IndexKind::Timeline)@ + after.index(IndexKind::Timeline)@.skip(
                before.index(IndexKind::Timeline)@.len() as int,
            ),
        ),
        forall|j: int|
            0 <= j < after.index(IndexKind::Timeline)@.len() ==> (#[trigger] after.index(
                IndexKind::Timeline,
            )@[j]).major < u64::MAX,
{
    let a = before.index(IndexKind::Timeline)@;
    let b = after.index(IndexKind::Timeline)@;
    let t0 = before.records();
    let t1 = after.records();
    let next = before.next_position();
    law_timeline_positions(before);
    law_timeline_positions(after);
    let start = lemma_split_at(b, next as int);
    let front = b.take(start);
    assert(before.index_ok(IndexKind::Timeline));
    assert(after.index_ok(IndexKind::Timeline));
    assert forall|e: IndexEntry| a.contains(e) implies front.contains(e) by {
        assert(before.index(IndexKind::Timeline).has(e));
        assert(indexed(t0, IndexKind::Timeline, e));
        let i = choose|i: int|
            0 <= i < t0.len() && member(IndexKind::Timeline, #[trigger] t0[i]) && key_of(
                IndexKind::Timeline,
                t0[i],
            ) == e;
        let s = t0[i].slot();
        assert(holds(t1, s));
        let j = choose|j: int| 0 <= j < t1.len() && (#[trigger] t1[j]).slot() == s;
        lemma_record_at(t1, j);
        assert(member(IndexKind::Timeline, t1[j]));
        assert(key_of(IndexKind::Timeline, t1[j]) == e);
        assert(indexed(t1, IndexKind::Timeline, e));
        assert(after.index(IndexKind::Timeline).has(e));
        let k = choose|k: int| 0 <= k < b.len() && b[k] == e;
        let ka = choose|ka: int| 0 <= ka < a.len() && a[ka] == e;
        assert(a[ka].major < next);
        assert(k < start) by {
            if k >= start {
                assert(b[k].major >= next);
            }
        }
        assert(front[k] == e);
    }
    assert forall|e: IndexEntry| front.contains(e) implies a.contains(e) by {
        let k = choose|k: int| 0 <= k < front.len() && front[k] == e;
        assert(b[k] == e);
        assert(b[k].major < next);
        assert(b.contains(e));
        assert(after.index(IndexKind::Timeline).has(e));
        assert(indexed(t1, IndexKind::Timeline, e));
        let j = choose|j: int|
            0 <= j < t1.len() && member(IndexKind::Timeline, #[trigger] t1[j]) && key_of(
                IndexKind::Timeline,
                t1[j],
            ) == e;
        let s = t1[j].slot();
        assert(holds(t0, s));
        let i = choose|i: int| 0 <= i < t0.len() && (#[trigger] t0[i]).slot() == s;
        lemma_record_at(t0, i);
        assert(member(IndexKind::Timeline, t0[i]));
        assert(key_of(IndexKind::Timeline, t0[i]) == e);
        assert(indexed(t0, IndexKind::Timeline, e));
        assert(before.index(IndexKind::Timeline).has(e));
    }
    assert forall|x: int, y: int| 0 <= x < y < front.len() implies crate::ordered_index::entry_lt(
        #[trigger] front[x],
        #[trigger] front[y],
    ) by {
        assert(crate::ordered_index::entry_lt(b[x], b[y]));
    }
    lemma_sorted_unique(a, front);
    assert(b =~= a + b.skip(a.len() as int));
    assert forall|j: int| 0 <= j < b.len() implies (#[trigger] b[j]).major < u64::MAX by {
        assert(b[j].major < after.next_position());
    }
}

/// Reading the timeline in steps across a change of the store: a read of
/// the store before, and then a read of the store after from where the first
/// one said to resume, give together what one longer read of the store after
/// gives. No record comes twice and none is left out, as long as the records
/// on the timeline kept their positions in between.
pub proof fn law_reads_resume_across(
    before: TransactionStore,
    after: TransactionStore,
    from: u64,
    c1: nat,
    c2: nat,
)
    requires
        before.wf(),
        after.wf(),
        timeline_kept(before.records(), after.records(), before.next_position()),
    ensures
        ({
            let first = timeline_batch(before.index(IndexKind::Timeline)@, from, c1);
            let resume = timeline_next(before.index(IndexKind::Timeline)@, from, c1);
            let second = timeline_batch(after.index(IndexKind::Timeline)@, resume as u64, c2);
            &&& from <= resume <= u64::MAX
            &&& first + second == since(after.index(IndexKind::Timeline)@, from).take(
                (first.len() + second.len()) as int,
            )
            &&& positions_increasing(first + second)
        }),
{
    let a = before.index(IndexKind::Timeline)@;
    let b = after.index(IndexKind::Timeline)@;
    law_timeline_appends(before, after);
    let later = b.skip(a.len() as int);
    assert(a + later == b);
    law_timeline_restartable(a, later, from, c1, c2);
}

/// A commit that finds nothing to remove only appends to the timeline.
pub proof fn law_commit_appends(
    before: TransactionStore,
    after: TransactionStore,
    account: AccountAddress,
    seq: u64,
)
    requires
        before.wf(),
        after.wf(),
        committed(
            before.records(),
            after.records(),
            before.next_position(),
            after.next_position(),
            account,
            seq,
        ),
        forall|s: SlotKey| #[trigger]
            holds(before.records(), s) && s.account == account ==> s.seq > seq,
    ensures
        timeline_kept(before.records(), after.records(), before.next_position()),
        appended(
            before.index(IndexKind::Timeline)@,
            after.index(IndexKind::Timeline)@,
            before.next_position(),
        ),
{
    let t0 = before.records();
    let t1 = after.records();
    assert forall|i: int| 0 <= i < t0.len() && (#[trigger] t0[i]).timeline_state is Ready implies holds(
        t1,
        t0[i].slot(),
    ) && record_at(t1, t0[i].slot()).timeline_state == t0[i].timeline_state by {
        lemma_record_at(t0, i);
        let s = t0[i].slot();
        assert(holds(t0, s));
        assert(holds(t1, s));
        assert(t0[i].ready);
    }
    assert forall|j: int| 0 <= j < t1.len() implies match (#[trigger] t1[j]).timeline_state {
        TimelineState::Ready(q) => q >= before.next_position() || (holds(t0, t1[j].slot())
            && record_at(t0, t1[j].slot()).timeline_state == TimelineState::Ready(q)),
        _ => true,
    } by {
        lemma_record_at(t1, j);
        let s = t1[j].slot();
        assert(holds(t1, s));
        assert(holds(t0, s));
    }
    law_timeline_appends(before, after);
}

/// An admission that replaces no record and evicts none, and a submission
/// that is turned down, only append to the timeline.
pub proof fn law_admission_appends(before: TransactionStore, after: TransactionStore, r: RecordView)
    requires
        before.wf(),
        after.wf(),
        admitted(
            before.records(),
            after.records(),
            before.next_position(),
            after.next_position(),
            r,
            before.capacity(),
            before.capacity_bytes(),
        ),
        removes_nothing(
            verdict(before.records(), r, before.capacity(), before.capacity_bytes()),
        ),
    ensures
        timeline_kept(before.records(), after.records(), before.next_position()),
        appended(
            before.index(IndexKind::Timeline)@,
            after.index(IndexKind::Timeline)@,
            before.next_position(),
        ),
{
    let t0 = before.records();
    let t1 = after.records();
    let v = verdict(t0, r, before.capacity(), before.capacity_bytes());
    assert forall|i: int| 0 <= i < t0.len() && (#[trigger] t0[i]).timeline_state is Ready implies holds(
        t1,
        t0[i].slot(),
    ) && record_at(t1, t0[i].slot()).timeline_state == t0[i].timeline_state by {
        lemma_record_at(t0, i);
        let s = t0[i].slot();
        assert(holds(t0, s));
        assert(t0[i].ready);
        if v is Admit {
            assert(holds(t1, s));
            assert(s != r.slot());
        }
    }
    assert forall|j: int| 0 <= j < t1.len() implies match (#[trigger] t1[j]).timeline_state {
        TimelineState::Ready(q) => q >= before.next_position() || (holds(t0, t1[j].slot())
            && record_at(t0, t1[j].slot()).timeline_state == TimelineState::Ready(q)),
        _ => true,
    } by {
        lemma_record_at(t1, j);
        let s = t1[j].slot();
        assert(holds(t1, s));
        if v is Admit {
            if s != r.slot() {
                assert(holds(t0, s));
            }
        } else {
            lemma_record_at(t0, j);
        }
    }
    law_timeline_appends(before, after);
}

/// A submission to the pool that lifts no baseline, replaces no record and
/// evicts none only appends to the timeline: a read of the timeline before
/// it and a read after it join as `law_timeline_restartable` says.
pub proof fn law_submission_appends(
    before: CoreMempool,
    after: CoreMempool,
    r: RecordView,
    floor: u64,
    result: AdmissionResult,
)
    requires
        before.wf(),
        after.wf(),
        submitted(
            before.records(),
            after.records(),
            before.next_position(),
            after.next_position(),
            r,
            floor,
            before.capacity(),
            before.capacity_bytes(),
            result,
        ),
        !lifts(before.records(), r.account, floor),
        removes_nothing(
            verdict(
                before.records(),
                crate::mempool::lifted(r, floor),
                before.capacity(),
                before.capacity_bytes(),
            ),
        ),
    ensures
        appended(before.timeline_order(), after.timeline_order(), before.next_position()),
{
    let (mid, mid_next) = choose|mid: Seq<RecordView>, mid_next: u64| #[trigger]
        submitted_through(
            before.records(),
            mid,
            after.records(),
            before.next_position(),
            mid_next,
            after.next_position(),
            r,
            floor,
            before.capacity(),
            before.capacity_bytes(),
            result,
        );
    assert(mid == before.records() && mid_next == before.next_position());
    law_admission_appends(before.store(), after.store(), crate::mempool::lifted(r, floor));
}

} // verus!
