//! The per-account sequencing ledger. The records of one account stand
//! side by side in the table; this file finds that run, reads the rule of the
//! account from it, and brings the readiness of every record of the run back
//! in line with the rule after the run or the rule has changed.

use crate::ledger_proofs::{
    lemma_ledger_remove, lemma_marks_after_remove, lemma_one_rule, lemma_purge_done,
    lemma_purge_step, lemma_refresh_done, lemma_refresh_step, lemma_rule_of,
};
use crate::model::{
    committed, demoted_from, follows_ready, has_account, holds, ledger_ok, ledger_ok_at, lifted_to,
    marks_complete, marks_sound, marks_sound_above, positions_dense, promoted_in_order, record_at,
    refresh_ground, refreshed_from, refreshing, rejected, slots_sorted, total_bytes,
};
use crate::table_proofs::{
    lemma_bytes_remove, lemma_holds_remove, lemma_holds_same_slots, lemma_record_at,
};
use crate::store::TransactionStore;
use crate::types::{AccountAddress, SequenceInfo, slot_lt, SlotKey, TimelineState};
use vstd::prelude::*;

verus! {

impl TransactionStore {
    /// The place at which the records of `account` begin.
    pub fn run_start(&self, account: AccountAddress) -> (r: usize)
        requires
            slots_sorted(self.records()),
        ensures
            r <= self.records().len(),
            forall|j: int|
                0 <= j < r ==> slot_lt(
                    (#[trigger] self.records()[j]).slot(),
                    SlotKey { account, seq: 0 },
                ),
            forall|j: int|
                r <= j < self.records().len() ==> !slot_lt(
                    (#[trigger] self.records()[j]).slot(),
                    SlotKey { account, seq: 0 },
                ),
            has_account(self.records(), account) <==> (r < self.records().len()
                && self.records()[r as int].account == account),
    {
        let r = self.lower_bound(&SlotKey { account, seq: 0 });
        proof {
            let table = self.records();
            if has_account(table, account) {
                let k = choose|k: int| 0 <= k < table.len() && (#[trigger] table[k]).account == account;
                assert(k >= r) by {
                    if k < r {
                        assert(slot_lt(table[k].slot(), SlotKey { account, seq: 0 }));
                    }
                }
                if k > r {
                    assert(slot_lt(table[r as int].slot(), table[k].slot()));
                    assert(!slot_lt(table[r as int].slot(), SlotKey { account, seq: 0 }));
                }
            }
        }
        r
    }

    /// The sequencing rule recorded for `account`, if it has a record.
    pub fn ledger_info(&self, account: AccountAddress) -> (r: Option<SequenceInfo>)
        requires
            self.wf(),
        ensures
            r is Some <==> has_account(self.records(), account),
            r is Some ==> forall|i: int|
                0 <= i < self.records().len() && (#[trigger] self.records()[i]).account
                    == account ==> self.records()[i].sequence_info == r->0,
    {
        let start = self.run_start(account);
        if start < self.len() && self.record(start).account == account {
            let info = self.record(start).sequence_info;
            proof {
                let table = self.records();
                assert forall|i: int|
                    0 <= i < table.len() && (#[trigger] table[i]).account
                        == account implies table[i].sequence_info == info by {
                    lemma_one_rule(table, self.next_position(), start as int, i);
                }
            }
            Some(info)
        } else {
            None
        }
    }

    /// Brings the records of `account` in line with the rule `info`: each
    /// gets the rule, the readiness that the rule gives it, and with it its
    /// place in the indices.
    pub(crate) fn refresh(&mut self, account: AccountAddress, info: SequenceInfo)
        requires
            old(self).consistent(),
            ledger_ok(old(self).records(), Some(account), old(self).next_position()),
            forall|i: int|
                0 <= i < old(self).records().len() && (#[trigger] old(self).records()[i]).account
                    == account ==> old(self).records()[i].seq >= info.baseline(),
        ensures
            final(self).wf(),
            final(self).records().len() == old(self).records().len(),
            total_bytes(final(self).records()) == total_bytes(old(self).records()),
            final(self).next_position() >= old(self).next_position(),
            final(self).capacity() == old(self).capacity(),
            final(self).capacity_bytes() == old(self).capacity_bytes(),
            forall|i: int|
                0 <= i < old(self).records().len() ==> if (
                #[trigger] old(self).records()[i]).account == account {
                    refreshed_from(
                        old(self).records()[i],
                        final(self).records()[i],
                        info,
                        old(self).next_position(),
                        final(self).next_position(),
                    )
                } else {
                    final(self).records()[i] == old(self).records()[i]
                },
            promoted_in_order(final(self).records(), old(self).next_position()),
            positions_dense(
                final(self).records(),
                old(self).next_position(),
                final(self).next_position(),
            ),
            marks_sound(old(self).records(), account, info) ==> forall|i: int|
                0 <= i < old(self).records().len() && (#[trigger] old(self).records()[i]).ready
                    ==> final(self).records()[i].ready,
            marks_complete(old(self).records(), account, info, old(self).next_position()) ==> (
            final(self).next_position() == old(self).next_position() && forall|i: int|
                0 <= i < old(self).records().len() && (#[trigger] final(self).records()[i]).ready
                    ==> old(self).records()[i].ready),
    {
        let ghost before = self.records();
        let ghost old_next = self.next_position();
        let start = self.run_start(account);
        let mut i: usize = start;
        let mut prev_seq: u64 = 0;
        let mut prev_ready: bool = false;
        proof {
            self.lemma_no_promotion();
            assert(refresh_ground(before, account, info, start as int, old_next));
            assert(refreshing(before, before, account, info, start as int, i as int, old_next, old_next));
        }
        while i < self.len() && self.record(i).account == account
            invariant
                self.consistent(),
                self.capacity() == old(self).capacity(),
                self.capacity_bytes() == old(self).capacity_bytes(),
                refresh_ground(before, account, info, start as int, old_next),
                refreshing(
                    before,
                    self.records(),
                    account,
                    info,
                    start as int,
                    i as int,
                    old_next,
                    self.next_position(),
                ),
                i > start ==> prev_seq == self.records()[i - 1].seq && prev_ready
                    == self.records()[i - 1].ready,
            decreases before.len() - i,
        {
            let ghost cur = self.records();
            let ghost cur_next = self.next_position();
            let seq = self.record(i).seq;
            proof {
                assert(cur[i as int] == before[i as int]);
                if i > start {
                    assert(refreshed_from(before[i - 1], cur[i - 1], info, old_next, cur_next));
                    assert(slot_lt(before[i - 1].slot(), before[i as int].slot()));
                } else if i > 0 {
                    assert(slot_lt(before[i - 1].slot(), SlotKey { account, seq: 0 }));
                    assert(cur[i - 1] == before[i - 1]);
                }
            }
            let follows = i > start && prev_seq + 1 == seq && prev_ready;
            let ready = info.is_ready(seq, follows);
            assert(follows == follows_ready(cur, i as int));
            self.set_state(i, ready, info);
            proof {
                lemma_refresh_step(
                    before,
                    cur,
                    self.records(),
                    account,
                    info,
                    start as int,
                    i as int,
                    old_next,
                    cur_next,
                    self.next_position(),
                    ready,
                );
            }
            prev_seq = seq;
            prev_ready = ready;
            i += 1;
        }
        proof {
            lemma_refresh_done(
                before,
                self.records(),
                account,
                info,
                start as int,
                i as int,
                old_next,
                self.next_position(),
            );
        }
    }
}

impl TransactionStore {
    /// Removes the records of `account` up to `seq`, from the front of its
    /// run. `info` is the account's rule.
    fn purge_upto(&mut self, account: AccountAddress, seq: u64, info: SequenceInfo)
        requires
            old(self).wf(),
            forall|i: int|
                0 <= i < old(self).records().len() && (#[trigger] old(self).records()[i]).account
                    == account ==> old(self).records()[i].sequence_info == info,
        ensures
            final(self).consistent(),
            ledger_ok(final(self).records(), Some(account), final(self).next_position()),
            final(self).next_position() == old(self).next_position(),
            final(self).capacity() == old(self).capacity(),
            final(self).capacity_bytes() == old(self).capacity_bytes(),
            forall|s: SlotKey| #[trigger]
                holds(final(self).records(), s) <==> (holds(old(self).records(), s) && !(s.account
                    == account && s.seq <= seq)),
            forall|s: SlotKey|
                holds(final(self).records(), s) ==> #[trigger] record_at(final(self).records(), s)
                    == record_at(old(self).records(), s),
            marks_sound(final(self).records(), account, info.advanced(seq)),
            forall|i: int|
                0 <= i < final(self).records().len() && (
                #[trigger] final(self).records()[i]).account == account
                    ==> final(self).records()[i].seq >= info.advanced(seq).baseline(),
    {
        let ghost before = self.records();
        let ghost np = self.next_position();
        let ghost low: int = info.baseline() as int;
        let start = self.run_start(account);
        proof {
            assert(marks_sound_above(before, account, info, low)) by {
                assert forall|i: int|
                    0 <= i < before.len() && (#[trigger] before[i]).account == account
                        && before[i].ready implies {
                    let base = if info.baseline() >= low { info.baseline() as int } else { low };
                    match info {
                        SequenceInfo::Sequential { .. } => before[i].seq == base || (before[i].seq
                            > base && follows_ready(before, i)),
                        SequenceInfo::SlidingWindow { range, .. } => base <= before[i].seq
                            && before[i].seq - base < range,
                    }
                } by {
                    assert(ledger_ok_at(before, i, np));
                }
            }
            assert forall|i: int|
                0 <= i < before.len() && (#[trigger] before[i]).account
                    == account implies before[i].seq >= low by {
                assert(ledger_ok_at(before, i, np));
            }
            assert forall|s: SlotKey| #[trigger]
                holds(before, s) <==> (holds(before, s) && !(s.account == account && s.seq
                    < low)) by {
                if holds(before, s) {
                    let k = choose|k: int| 0 <= k < before.len() && (#[trigger] before[k]).slot() == s;
                    if s.account == account {
                        assert(before[k].seq >= low);
                    }
                }
            }
        }
        while start < self.len() && self.record(start).account == account && self.record(
            start,
        ).seq <= seq
            invariant
                self.consistent(),
                slots_sorted(before),
                ledger_ok(self.records(), Some(account), np),
                self.next_position() == np,
                self.capacity() == old(self).capacity(),
                self.capacity_bytes() == old(self).capacity_bytes(),
                start <= self.records().len(),
                forall|j: int|
                    0 <= j < start ==> slot_lt(
                        (#[trigger] self.records()[j]).slot(),
                        SlotKey { account, seq: 0 },
                    ),
                forall|j: int|
                    start <= j < self.records().len() ==> !slot_lt(
                        (#[trigger] self.records()[j]).slot(),
                        SlotKey { account, seq: 0 },
                    ),
                low <= seq + 1 || low == info.baseline(),
                info.baseline() <= low,
                marks_sound_above(self.records(), account, info, low),
                forall|i: int|
                    0 <= i < self.records().len() && (#[trigger] self.records()[i]).account
                        == account ==> self.records()[i].seq >= low,
                forall|s: SlotKey| #[trigger]
                    holds(self.records(), s) <==> (holds(before, s) && !(s.account == account
                        && s.seq < low)),
                forall|s: SlotKey|
                    holds(self.records(), s) ==> #[trigger] record_at(self.records(), s)
                        == record_at(before, s),
            decreases self.records().len(),
        {
            let ghost cur = self.records();
            let ghost q = cur[start as int].seq;
            proof {
                if start > 0 {
                    assert(slot_lt(cur[start - 1].slot(), SlotKey { account, seq: 0 }));
                }
                lemma_purge_step(cur, account, info, low, start as int);
                lemma_holds_remove(cur, start as int);
                lemma_ledger_remove(cur, start as int, Some(account), np);
                assert forall|s: SlotKey| holds(cur, s) && s.account == account implies s.seq
                    >= q by {
                    let k = choose|k: int| 0 <= k < cur.len() && (#[trigger] cur[k]).slot() == s;
                    if k < start {
                        assert(slot_lt(cur[k].slot(), SlotKey { account, seq: 0 }));
                    } else if k > start {
                        assert(slot_lt(cur[start as int].slot(), cur[k].slot()));
                    }
                }
            }
            self.remove_at(start);
            proof {
                let new = self.records();
                assert forall|j: int| start <= j < new.len() implies !slot_lt(
                    (#[trigger] new[j]).slot(),
                    SlotKey { account, seq: 0 },
                ) by {
                    assert(new[j] == cur[j + 1]);
                }
                assert forall|j: int| 0 <= j < start implies slot_lt(
                    (#[trigger] new[j]).slot(),
                    SlotKey { account, seq: 0 },
                ) by {
                    assert(new[j] == cur[j]);
                }
                assert forall|i: int|
                    0 <= i < new.len() && (#[trigger] new[i]).account == account implies new[i].seq
                    >= q + 1 by {
                    let i0 = if i < start { i } else { i + 1 };
                    assert(new[i] == cur[i0]);
                    if i0 < start {
                        assert(slot_lt(cur[i0].slot(), SlotKey { account, seq: 0 }));
                    } else {
                        assert(slot_lt(cur[start as int].slot(), cur[i0].slot()));
                    }
                }
                assert forall|s: SlotKey| #[trigger]
                    holds(new, s) <==> (holds(before, s) && !(s.account == account && s.seq < q
                        + 1)) by {
                    assert(holds(new, s) <==> (holds(cur, s) && s != cur[start as int].slot()));
                    assert(holds(cur, s) <==> (holds(before, s) && !(s.account == account && s.seq
                        < low)));
                }
                assert forall|s: SlotKey| holds(new, s) implies #[trigger] record_at(new, s)
                    == record_at(before, s) by {
                    assert(record_at(new, s) == record_at(cur, s));
                    assert(holds(cur, s));
                }
                low = q + 1;
            }
        }
        proof {
            let cur = self.records();
            assert forall|i: int|
                0 <= i < cur.len() && (#[trigger] cur[i]).account == account implies cur[i].seq
                > seq && cur[i].seq >= info.baseline() by {
                if i < start {
                    assert(slot_lt(cur[i].slot(), SlotKey { account, seq: 0 }));
                } else if i > start {
                    assert(slot_lt(cur[start as int].slot(), cur[i].slot()));
                    assert(!slot_lt(cur[start as int].slot(), SlotKey { account, seq: 0 }));
                }
            }
            lemma_purge_done(cur, account, info, low, seq);
            assert forall|s: SlotKey| #[trigger]
                holds(cur, s) <==> (holds(before, s) && !(s.account == account && s.seq
                    <= seq)) by {
                assert(holds(cur, s) <==> (holds(before, s) && !(s.account == account && s.seq
                    < low)));
                if holds(cur, s) && s.account == account {
                    let k = choose|k: int| 0 <= k < cur.len() && (#[trigger] cur[k]).slot() == s;
                    assert(cur[k].seq > seq);
                }
            }
        }
    }

    /// The commit of `seq` for `account`: the account's records up to `seq`
    /// leave, its baseline moves past `seq`, and what has become ready is
    /// promoted.
    pub fn commit(&mut self, account: AccountAddress, seq: u64)
        requires
            old(self).wf(),
        ensures
            final(self).wf(),
            committed(
                old(self).records(),
                final(self).records(),
                old(self).next_position(),
                final(self).next_position(),
                account,
                seq,
            ),
            promoted_in_order(final(self).records(), old(self).next_position()),
            positions_dense(
                final(self).records(),
                old(self).next_position(),
                final(self).next_position(),
            ),
            final(self).capacity() == old(self).capacity(),
            final(self).capacity_bytes() == old(self).capacity_bytes(),
    {
        let ghost before = self.records();
        let ghost np = self.next_position();
        match self.ledger_info(account) {
            None => {
                proof {
                    self.lemma_no_promotion();
                    assert forall|s: SlotKey| #[trigger]
                        holds(before, s) <==> (holds(before, s) && !(s.account == account && s.seq
                            <= seq)) by {
                        if holds(before, s) {
                            let k = choose|k: int|
                                0 <= k < before.len() && (#[trigger] before[k]).slot() == s;
                            assert(before[k].account == s.account);
                        }
                    }
                    assert forall|s: SlotKey| holds(before, s) implies {
                        let a = record_at(before, s);
                        let b = #[trigger] record_at(before, s);
                        if s.account == account {
                            &&& refreshed_from(a, b, a.sequence_info.advanced(seq), np, np)
                            &&& a.ready ==> b.ready
                        } else {
                            b == a
                        }
                    } by {
                        let k = choose|k: int|
                            0 <= k < before.len() && (#[trigger] before[k]).slot() == s;
                        assert(before[k].account == s.account);
                    }
                }
            },
            Some(info) => {
                self.purge_upto(account, seq, info);
                let ghost mid = self.records();
                self.refresh(account, info.advance(seq));
                proof {
                    let after = self.records();
                    let after_next = self.next_position();
                    assert forall|i: int| 0 <= i < mid.len() implies (#[trigger] mid[i]).slot()
                        == after[i].slot() by {
                        if mid[i].account == account {
                            assert(refreshed_from(
                                mid[i],
                                after[i],
                                info.advanced(seq),
                                np,
                                after_next,
                            ));
                        }
                    }
                    lemma_holds_same_slots(mid, after);
                    assert forall|s: SlotKey| holds(after, s) implies {
                        let a = record_at(before, s);
                        let b = #[trigger] record_at(after, s);
                        if s.account == account {
                            &&& refreshed_from(a, b, a.sequence_info.advanced(seq), np, after_next)
                            &&& a.ready ==> b.ready
                        } else {
                            b == a
                        }
                    } by {
                        let k = choose|k: int|
                            0 <= k < after.len() && (#[trigger] after[k]).slot() == s;
                        lemma_record_at(after, k);
                        lemma_record_at(mid, k);
                        assert(holds(mid, s));
                        assert(record_at(mid, s) == record_at(before, s));
                        assert(holds(before, s));
                        let k0 = choose|k0: int|
                            0 <= k0 < before.len() && (#[trigger] before[k0]).slot() == s;
                        lemma_record_at(before, k0);
                        if s.account == account {
                            assert(before[k0].sequence_info == info);
                            assert(refreshed_from(
                                mid[k],
                                after[k],
                                info.advanced(seq),
                                np,
                                after_next,
                            ));
                        }
                    }
                }
            },
        }
    }

    /// Lifts the baseline of `account` to `floor`, where the account has
    /// records under a lower one: its records below `floor` leave, as after
    /// the commit of the key just below `floor`.
    pub fn raise_baseline(&mut self, account: AccountAddress, floor: u64)
        requires
            old(self).wf(),
        ensures
            final(self).wf(),
            lifted_to(
                old(self).records(),
                final(self).records(),
                old(self).next_position(),
                final(self).next_position(),
                account,
                floor,
            ),
            final(self).capacity() == old(self).capacity(),
            final(self).capacity_bytes() == old(self).capacity_bytes(),
    {
        let lift = match self.ledger_info(account) {
            Some(info) => info.min_seq() < floor,
            None => false,
        };
        proof {
            let table = self.records();
            if has_account(table, account) {
                let k = choose|k: int| 0 <= k < table.len() && (#[trigger] table[k]).account == account;
                lemma_rule_of(table, self.next_position(), k);
            }
        }
        if lift {
            self.commit(account, floor - 1);
        }
    }

    /// Takes the record in `slot` out, if there is one, and demotes the
    /// records of its account that depended on it. Returns whether the slot
    /// was occupied.
    pub fn remove(&mut self, slot: SlotKey) -> (removed: bool)
        requires
            old(self).wf(),
        ensures
            final(self).wf(),
            removed == holds(old(self).records(), slot),
            rejected(old(self).records(), final(self).records(), slot),
            removed && !record_at(old(self).records(), slot).ready ==> forall|s: SlotKey|
                holds(final(self).records(), s) ==> #[trigger] record_at(final(self).records(), s)
                    == record_at(old(self).records(), s),
            final(self).records().len() == old(self).records().len() - if removed {
                1int
            } else {
                0int
            },
            total_bytes(final(self).records()) == total_bytes(old(self).records()) - if removed {
                record_at(old(self).records(), slot).bytes() as int
            } else {
                0int
            },
            final(self).next_position() == old(self).next_position(),
            final(self).capacity() == old(self).capacity(),
            final(self).capacity_bytes() == old(self).capacity_bytes(),
    {
        let ghost before = self.records();
        let ghost np = self.next_position();
        match self.find(&slot) {
            None => {
                proof {
                    assert forall|s: SlotKey| holds(before, s) implies {
                        let a = record_at(before, s);
                        let b = #[trigger] record_at(before, s);
                        if s.account == slot.account {
                            demoted_from(a, b)
                        } else {
                            b == a
                        }
                    } by {}
                }
                false
            },
            Some(i) => {
                proof {
                    lemma_record_at(before, i as int);
                    lemma_bytes_remove(before, i as int);
                    lemma_marks_after_remove(before, i as int, np);
                    lemma_holds_remove(before, i as int);
                    lemma_ledger_remove(before, i as int, None, np);
                }
                let gone = self.remove_at(i);
                let ghost mid = self.records();
                self.refresh(slot.account, gone.sequence_info);
                proof {
                    let after = self.records();
                    let info = gone@.sequence_info;
                    assert forall|k: int| 0 <= k < mid.len() implies (#[trigger] mid[k]).slot()
                        == after[k].slot() && demoted_from(mid[k], after[k]) && (!gone@.ready
                        ==> after[k] == mid[k]) by {
                        if mid[k].account == slot.account {
                            assert(refreshed_from(mid[k], after[k], info, np, np));
                            assert(after[k].ready ==> mid[k].ready);
                            assert(mid[k].sequence_info == info);
                            assert(match mid[k].timeline_state {
                                TimelineState::Ready(p) => mid[k].ready,
                                _ => true,
                            });
                            if !gone@.ready {
                                assert(mid[k].ready ==> after[k].ready);
                            }
                        }
                    }
                    lemma_holds_same_slots(mid, after);
                    assert forall|s: SlotKey| holds(after, s) implies {
                        let a = record_at(before, s);
                        let b = #[trigger] record_at(after, s);
                        &&& (if s.account == slot.account {
                            demoted_from(a, b)
                        } else {
                            b == a
                        })
                        &&& (!gone@.ready ==> b == a)
                    } by {
                        let k = choose|k: int|
                            0 <= k < after.len() && (#[trigger] after[k]).slot() == s;
                        lemma_record_at(after, k);
                        lemma_record_at(mid, k);
                        assert(holds(mid, s));
                        assert(record_at(mid, s) == record_at(before, s));
                    }
                }
                true
            },
        }
    }
}

} // verus!
