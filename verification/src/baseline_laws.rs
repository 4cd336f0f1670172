//! What a submission does to the baseline of its account: the baseline
//! moves up to the one that the submission carries or the pool remembers,
//! and nothing of the account stays below it.

use crate::ledger_proofs::lemma_rule_of;
use crate::mempool::{floor_of, lifted, submitted, submitted_through, CoreMempool};
use crate::model::{
    effective_rule, has_account, holds, ledger_ok_at, lifts, record_at, rule_of, verdict, Verdict,
};
use crate::table_proofs::lemma_record_at;
use crate::types::{AdmissionResult, RecordView, SlotKey};
use vstd::prelude::*;

verus! {

/// Every record of the account of `r` lies at or above `floor`, under a rule
/// whose baseline is at least `floor`.
pub open spec fn stands_above(table: Seq<RecordView>, r: RecordView, floor: u64) -> bool {
    forall|i: int|
        0 <= i < table.len() && (#[trigger] table[i]).account == r.account ==> table[i].seq
            >= floor && table[i].sequence_info.baseline() >= floor
}

/// The floor of a submission is no lower than the baseline that it carries
/// and no lower than the remembered one.
pub proof fn law_floor_is_the_greater(r: RecordView, remembered: u64)
    ensures
        floor_of(r, remembered) >= remembered,
        floor_of(r, remembered) >= r.sequence_info.baseline(),
        floor_of(r, remembered) == remembered || floor_of(r, remembered)
            == r.sequence_info.baseline(),
{
}

/// After a submission under the baseline `floor`, whatever its result, no
/// record of the account lies below `floor`, and the rule of the account
/// does not start below it: a submission that carries a later baseline
/// lifts the account as a commit would.
pub proof fn law_submission_clears_below(
    before: CoreMempool,
    after: CoreMempool,
    r: RecordView,
    floor: u64,
    result: AdmissionResult,
)
    requires
        before.wf(),
        after.wf(),
        submitted(
            before.records(),
            after.records(),
            before.next_position(),
            after.next_position(),
            r,
            floor,
            before.capacity(),
            before.capacity_bytes(),
            result,
        ),
    ensures
        stands_above(after.records(), r, floor),
        result is Accepted ==> r.seq >= floor,
{
    let t0 = before.records();
    let t2 = after.records();
    let cap = before.capacity();
    let capb = before.capacity_bytes();
    let (mid, mid_next) = choose|mid: Seq<RecordView>, mid_next: u64| #[trigger]
        submitted_through(
            t0,
            mid,
            t2,
            before.next_position(),
            mid_next,
            after.next_position(),
            r,
            floor,
            cap,
            capb,
            result,
        );
    let judged = lifted(r, floor);
    assert(stands_above(mid, r, floor)) by {
        assert forall|i: int| 0 <= i < mid.len() && (#[trigger] mid[i]).account
            == r.account implies mid[i].seq >= floor && mid[i].sequence_info.baseline()
            >= floor by {
            lemma_record_at(mid, i);
            lemma_rule_of(mid, mid_next, i);
            assert(ledger_ok_at(mid, i, mid_next));
            if lifts(t0, r.account, floor) {
                assert(holds(mid, mid[i].slot()));
                assert(holds(t0, mid[i].slot()));
            } else {
                assert(has_account(t0, r.account));
            }
        }
    }
    let info = effective_rule(mid, judged);
    assert(info.baseline() >= floor) by {
        if has_account(mid, r.account) {
            let k = choose|k: int| 0 <= k < mid.len() && (#[trigger] mid[k]).account == r.account;
            lemma_rule_of(mid, mid_next, k);
        }
    }
    let v = verdict(mid, judged, cap, capb);
    if v is Admit {
        assert forall|i: int| 0 <= i < t2.len() && (#[trigger] t2[i]).account
            == r.account implies t2[i].seq >= floor && t2[i].sequence_info.baseline()
            >= floor by {
            lemma_record_at(t2, i);
            let s = t2[i].slot();
            assert(holds(t2, s));
            if s != judged.slot() {
                assert(holds(mid, s));
                let k = choose|k: int| 0 <= k < mid.len() && (#[trigger] mid[k]).slot() == s;
                assert(mid[k].account == r.account);
            }
        }
    } else if v is Unchanged {
        assert(holds(mid, judged.slot()));
        let k = choose|k: int| 0 <= k < mid.len() && (#[trigger] mid[k]).slot() == judged.slot();
        assert(mid[k].account == r.account);
    }
}

} // verus!
