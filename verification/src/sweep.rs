//! The two sweeps: one by the age of a record in the pool, one by the
//! expiration that the transaction itself declares. Both walk an index from
//! its least entry and take out what is stale.

use crate::model::{
    demoted_from, holds, indexed, IndexKind, key_of, record_at, rejected, stale, swept,
};
use crate::table_proofs::lemma_record_at;
use crate::ordered_index::entry_lt;
use crate::store::TransactionStore;
use crate::types::SlotKey;
use vstd::prelude::*;

verus! {

impl TransactionStore {
    /// Removes every stale record: by age, those admitted at or before
    /// `threshold`; else those whose expiration is at or before `threshold`.
    /// Records that depended on a removed one lose their readiness. Returns
    /// the number of records removed.
    pub fn sweep(&mut self, by_age: bool, threshold: u64) -> (removed: usize)
        requires
            old(self).wf(),
        ensures
            final(self).wf(),
            swept(old(self).records(), final(self).records(), by_age, threshold),
            removed == old(self).records().len() - final(self).records().len(),
            final(self).next_position() == old(self).next_position(),
            final(self).capacity() == old(self).capacity(),
            final(self).capacity_bytes() == old(self).capacity_bytes(),
    {
        let ghost before = self.records();
        let total = self.len();
        let kind = if by_age {
            IndexKind::Age
        } else {
            IndexKind::Expiration
        };
        let mut removed: usize = 0;
        proof {
            assert forall|s: SlotKey| #[trigger] holds(before, s) implies demoted_from(
                record_at(before, s),
                record_at(before, s),
            ) by {}
        }
        loop
            invariant
                self.wf(),
                kind == if by_age {
                    IndexKind::Age
                } else {
                    IndexKind::Expiration
                },
                removed + self.records().len() == before.len(),
                before.len() == total,
                self.next_position() == old(self).next_position(),
                self.capacity() == old(self).capacity(),
                self.capacity_bytes() == old(self).capacity_bytes(),
                forall|s: SlotKey| #[trigger]
                    holds(self.records(), s) ==> holds(before, s) && demoted_from(
                        record_at(before, s),
                        record_at(self.records(), s),
                    ),
                forall|s: SlotKey|
                    #[trigger] holds(before, s) && !holds(self.records(), s) ==> stale(
                        record_at(before, s),
                        by_age,
                        threshold,
                    ),
            ensures
                self.index(kind)@.len() == 0 || self.index(kind)@[0].major > threshold,
            decreases self.records().len(),
        {
            if self.index_len(kind) == 0 {
                break ;
            }
            let e = self.index_entry(kind, 0);
            if e.major > threshold as u128 {
                break ;
            }
            let ghost cur = self.records();
            proof {
                assert(self.index(kind).has(e));
                assert(indexed(cur, kind, e));
                let i = choose|i: int|
                    0 <= i < cur.len() && crate::model::member(kind, #[trigger] cur[i]) && key_of(
                        kind,
                        cur[i],
                    ) == e;
                lemma_record_at(cur, i);
                assert(stale(record_at(cur, e.slot), by_age, threshold));
            }
            self.remove(e.slot);
            removed = removed + 1;
            proof {
                let new = self.records();
                assert(rejected(cur, new, e.slot));
                assert forall|s: SlotKey| #[trigger] holds(new, s) implies holds(before, s)
                    && demoted_from(record_at(before, s), record_at(new, s)) by {
                    assert(holds(cur, s));
                    let a = record_at(before, s);
                    let b = record_at(cur, s);
                    let c = record_at(new, s);
                    assert(demoted_from(a, b));
                    assert(demoted_from(b, c));
                }
                assert forall|s: SlotKey| #[trigger] holds(before, s) && !holds(new, s) implies stale(
                    record_at(before, s),
                    by_age,
                    threshold,
                ) by {
                    if holds(cur, s) {
                        assert(s == e.slot);
                        assert(demoted_from(record_at(before, s), record_at(cur, s)));
                    }
                }
            }
        }
        proof {
            let after = self.records();
            assert forall|s: SlotKey| #[trigger] holds(after, s) implies !stale(
                record_at(before, s),
                by_age,
                threshold,
            ) by {
                let i = choose|i: int| 0 <= i < after.len() && (#[trigger] after[i]).slot() == s;
                lemma_record_at(after, i);
                let e = key_of(kind, after[i]);
                assert(indexed(after, kind, e));
                assert(self.index(kind).has(e));
                let j = choose|j: int| 0 <= j < self.index(kind)@.len() && self.index(kind)@[j] == e;
                if j > 0 {
                    assert(entry_lt(self.index(kind)@[0], self.index(kind)@[j]));
                }
                assert(demoted_from(record_at(before, s), record_at(after, s)));
            }
        }
        removed
    }
}

} // verus!
