//! Admission to the store: the verdict on a submitted record, and what an
//! admitted record does to the table. This is where the two ceilings are
//! enforced and where a blocked record gives way to a ready one.

use crate::admission_proofs::{lemma_oldest_blocked, lemma_placed, lemma_room, lemma_would_be_ready};
use crate::ledger_proofs::{
    lemma_ledger_insert, lemma_ledger_remove, lemma_prefix_ready, lemma_rule_of,
};
use crate::model::{
    admitted, effective_rule, holds, IndexKind, ledger_ok, ledger_ok_at, positions_dense,
    promoted_in_order, record_at, refreshed_from, stored_form, total_bytes, Verdict, verdict,
};
use crate::table_proofs::{
    lemma_bytes_bound, lemma_bytes_remove, lemma_bytes_two, lemma_holds_insert, lemma_holds_remove,
    lemma_holds_same_slots, lemma_record_at, lemma_sorted_insert,
};
use crate::store::TransactionStore;
use crate::types::{
    AdmissionResult, bytes_equal, RejectReason, SequenceInfo, slot_lt, SlotKey, TimelineState,
    TransactionRecord,
};
use vstd::prelude::*;

verus! {

/// The answer that a verdict gives to the submitter.
pub open spec fn outcome(v: Verdict) -> AdmissionResult {
    match v {
        Verdict::Stale => AdmissionResult::Rejected(RejectReason::InvalidSeqNumber),
        Verdict::Unchanged => AdmissionResult::Accepted,
        Verdict::Outbid => AdmissionResult::Rejected(RejectReason::InvalidUpdate),
        Verdict::Full => AdmissionResult::Rejected(RejectReason::MempoolFull),
        Verdict::Admit { .. } => AdmissionResult::Accepted,
    }
}

impl TransactionStore {
    /// The rule under which `r` is admitted.
    pub fn rule_for(&self, r: &TransactionRecord) -> (info: SequenceInfo)
        requires
            self.wf(),
        ensures
            info == effective_rule(self.records(), r@),
    {
        match self.ledger_info(r.account) {
            Some(info) => {
                proof {
                    let table = self.records();
                    let w = choose|w: int|
                        0 <= w < table.len() && (#[trigger] table[w]).account == r@.account;
                    lemma_rule_of(table, self.next_position(), w);
                }
                info
            },
            None => r.sequence_info,
        }
    }

    /// The verdict on the submission of `r`.
    pub fn decide(&self, r: &TransactionRecord) -> (v: Verdict)
        requires
            self.wf(),
        ensures
            v == verdict(self.records(), r@, self.capacity(), self.capacity_bytes()),
    {
        let ghost table = self.records();
        let ghost np = self.next_position();
        let info = self.rule_for(r);
        if r.seq < info.min_seq() {
            return Verdict::Stale;
        }
        let slot = r.slot();
        let pos = self.lower_bound(&slot);
        let occupied = pos < self.len() && self.record(pos).account == r.account && self.record(
            pos,
        ).seq == r.seq;
        proof {
            if occupied {
                lemma_record_at(table, pos as int);
                lemma_bytes_bound(table, pos as int);
            } else {
                assert forall|j: int| 0 <= j < table.len() implies (#[trigger] table[j]).slot()
                    != slot by {
                    if j > pos {
                        assert(slot_lt(table[pos as int].slot(), table[j].slot()));
                    }
                }
            }
        }
        if occupied {
            let cur = self.record(pos);
            if r.ranking_score <= cur.ranking_score {
                if bytes_equal(&r.payload, &cur.payload) {
                    return Verdict::Unchanged;
                } else {
                    return Verdict::Outbid;
                }
            }
        }
        let cur_bytes: usize = if occupied {
            self.record(pos).bytes()
        } else {
            0
        };
        let count: u128 = self.len() as u128 + if occupied {
            0u128
        } else {
            1u128
        };
        let bytes: u128 = (self.bytes() - cur_bytes) as u128 + r.bytes() as u128;
        if count <= self.count_limit() as u128 && bytes <= self.bytes_limit() as u128 {
            return Verdict::Admit { replace: occupied, evict: None };
        }
        let follows = pos > 0 && self.record(pos - 1).account == r.account && self.record(
            pos - 1,
        ).seq < r.seq && r.seq - self.record(pos - 1).seq == 1 && self.record(pos - 1).ready;
        let ready = info.is_ready(r.seq, follows);
        proof {
            assert forall|j: int| pos <= j < table.len() implies !slot_lt(
                (#[trigger] table[j]).slot(),
                r@.slot(),
            ) by {}
            lemma_would_be_ready(table, np, r@, info, pos as int);
            assert forall|e: crate::ordered_index::IndexEntry| #[trigger]
                self.index(IndexKind::Parking)@.contains(e) <==> crate::model::indexed(
                    table,
                    IndexKind::Parking,
                    e,
                ) by {
                assert(self.index(IndexKind::Parking).has(e) == self.index(
                    IndexKind::Parking,
                )@.contains(e));
            }
            lemma_oldest_blocked(table, self.index(IndexKind::Parking)@);
        }
        if ready && self.index_len(IndexKind::Parking) > 0 {
            let e = self.index_entry(IndexKind::Parking, 0);
            match self.find(&e.slot) {
                Some(vi) => {
                    let victim_bytes = self.record(vi).bytes();
                    proof {
                        lemma_record_at(table, vi as int);
                        lemma_bytes_bound(table, vi as int);
                        if occupied {
                            assert(table[pos as int].ready) by {
                                lemma_rule_of(table, np, pos as int);
                                match info {
                                    SequenceInfo::Sequential { next } => {
                                        assert forall|s: u64|
                                            next <= s <= r@.seq implies #[trigger] holds(
                                            table,
                                            SlotKey { account: r@.account, seq: s },
                                        ) by {
                                            if s == r@.seq {
                                                assert(SlotKey { account: r@.account, seq: s }
                                                    == slot);
                                            }
                                        }
                                        lemma_prefix_ready(table, np, pos as int, r@.seq);
                                    },
                                    SequenceInfo::SlidingWindow { .. } => {
                                        assert(ledger_ok_at(table, pos as int, np));
                                    },
                                }
                            }
                            assert(vi != pos);
                            lemma_bytes_two(table, vi as int, pos as int);
                        }
                    }
                    if count - 1 <= self.count_limit() as u128 && bytes - victim_bytes as u128
                        <= self.bytes_limit() as u128 {
                        Verdict::Admit { replace: occupied, evict: Some(e.slot) }
                    } else {
                        Verdict::Full
                    }
                },
                None => Verdict::Full,
            }
        } else {
            Verdict::Full
        }
    }

    /// Makes room for an admitted record: the evicted record leaves, and so
    /// does the record that stands in the slot.
    fn make_room(&mut self, slot: SlotKey, replace: bool, evict: Option<SlotKey>)
        requires
            old(self).wf(),
            replace == holds(old(self).records(), slot),
            evict is Some ==> evict->0 != slot && holds(old(self).records(), evict->0)
                && !record_at(old(self).records(), evict->0).ready,
        ensures
            final(self).consistent(),
            ledger_ok(final(self).records(), Some(slot.account), final(self).next_position()),
            final(self).next_position() == old(self).next_position(),
            final(self).capacity() == old(self).capacity(),
            final(self).capacity_bytes() == old(self).capacity_bytes(),
            forall|s: SlotKey| #[trigger]
                holds(final(self).records(), s) <==> (holds(old(self).records(), s) && Some(s)
                    != evict && s != slot),
            forall|s: SlotKey|
                holds(final(self).records(), s) ==> #[trigger] record_at(final(self).records(), s)
                    == record_at(old(self).records(), s),
            final(self).records().len() == old(self).records().len() - (if evict is Some {
                1int
            } else {
                0int
            }) - (if replace {
                1int
            } else {
                0int
            }),
            total_bytes(final(self).records()) == total_bytes(old(self).records()) - (if evict
                is Some {
                record_at(old(self).records(), evict->0).bytes() as int
            } else {
                0int
            }) - (if replace {
                record_at(old(self).records(), slot).bytes() as int
            } else {
                0int
            }),
    {
        let ghost t0 = self.records();
        let ghost np = self.next_position();
        match evict {
            Some(victim) => {
                self.remove(victim);
            },
            None => {},
        }
        let ghost t1 = self.records();
        proof {
            assert forall|s: SlotKey| holds(t1, s) implies #[trigger] record_at(t1, s) == record_at(
                t0,
                s,
            ) by {}
        }
        if replace {
            match self.find(&slot) {
                Some(i) => {
                    proof {
                        lemma_record_at(t1, i as int);
                        lemma_holds_remove(t1, i as int);
                        lemma_ledger_remove(t1, i as int, None, np);
                        lemma_bytes_remove(t1, i as int);
                    }
                    self.remove_at(i);
                    proof {
                        let t2 = self.records();
                        assert forall|s: SlotKey| holds(t2, s) implies #[trigger] record_at(t2, s)
                            == record_at(t0, s) by {
                            assert(holds(t1, s));
                            assert(record_at(t2, s) == record_at(t1, s));
                        }
                    }
                },
                None => {
                    proof {
                        assert(holds(t1, slot));
                    }
                },
            }
        }
    }

    /// Puts the record into its free slot, as a blocked record under its
    /// rule, and brings its account in line with that rule.
    fn settle(&mut self, stored: TransactionRecord)
        requires
            old(self).consistent(),
            ledger_ok(old(self).records(), Some(stored@.account), old(self).next_position()),
            !holds(old(self).records(), stored@.slot()),
            !stored@.ready,
            !(stored@.timeline_state is Ready),
            stored@.seq >= stored@.sequence_info.baseline(),
            forall|i: int|
                0 <= i < old(self).records().len() && (#[trigger] old(self).records()[i]).account
                    == stored@.account ==> old(self).records()[i].seq
                    >= stored@.sequence_info.baseline(),
            old(self).records().len() + 1 <= old(self).capacity(),
            total_bytes(old(self).records()) + stored@.bytes() <= old(self).capacity_bytes(),
        ensures
            final(self).wf(),
            final(self).capacity() == old(self).capacity(),
            final(self).capacity_bytes() == old(self).capacity_bytes(),
            final(self).next_position() >= old(self).next_position(),
            promoted_in_order(final(self).records(), old(self).next_position()),
            positions_dense(
                final(self).records(),
                old(self).next_position(),
                final(self).next_position(),
            ),
            forall|s: SlotKey| #[trigger]
                holds(final(self).records(), s) <==> (holds(old(self).records(), s) || s
                    == stored@.slot()),
            refreshed_from(
                stored@,
                record_at(final(self).records(), stored@.slot()),
                stored@.sequence_info,
                old(self).next_position(),
                final(self).next_position(),
            ),
            forall|s: SlotKey|
                holds(final(self).records(), s) && s != stored@.slot() ==> {
                    let a = record_at(old(self).records(), s);
                    let b = #[trigger] record_at(final(self).records(), s);
                    &&& b.slot() == s
                    &&& if s.account == stored@.account {
                        refreshed_from(
                            a,
                            b,
                            stored@.sequence_info,
                            old(self).next_position(),
                            final(self).next_position(),
                        )
                    } else {
                        b == a
                    }
                },
    {
        let ghost t2 = self.records();
        let ghost np = self.next_position();
        let ghost sv = stored@;
        let account = stored.account;
        let info = stored.sequence_info;
        let slot = stored.slot();
        let pos = self.lower_bound(&slot);
        proof {
            assert forall|j: int| pos <= j < t2.len() implies slot_lt(
                sv.slot(),
                (#[trigger] t2[j]).slot(),
            ) by {
                assert(holds(t2, t2[j].slot()));
            }
            lemma_sorted_insert(t2, pos as int, sv);
            lemma_holds_insert(t2, pos as int, sv);
            lemma_ledger_insert(t2, pos as int, sv, Some(account), np);
        }
        self.insert_record(stored, pos);
        let ghost t3 = self.records();
        proof {
            assert forall|i: int|
                0 <= i < t3.len() && (#[trigger] t3[i]).account == account implies t3[i].seq
                >= info.baseline() by {
                if i != pos {
                    let i2 = if i < pos { i } else { i - 1 };
                    assert(t3[i] == t2[i2]);
                }
            }
        }
        self.refresh(account, info);
        proof {
            let t4 = self.records();
            let np4 = self.next_position();
            assert forall|i: int| 0 <= i < t3.len() implies (#[trigger] t3[i]).slot()
                == t4[i].slot() by {
                if t3[i].account == account {
                    assert(refreshed_from(t3[i], t4[i], info, np, np4));
                }
            }
            lemma_holds_same_slots(t3, t4);
            lemma_record_at(t3, pos as int);
            lemma_record_at(t4, pos as int);
            assert(refreshed_from(t3[pos as int], t4[pos as int], info, np, np4));
            assert forall|s: SlotKey| holds(t4, s) && s != slot implies {
                let a = record_at(t2, s);
                let b = #[trigger] record_at(t4, s);
                &&& b.slot() == s
                &&& if s.account == account {
                    refreshed_from(a, b, info, np, np4)
                } else {
                    b == a
                }
            } by {
                let k4 = choose|k4: int| 0 <= k4 < t4.len() && (#[trigger] t4[k4]).slot() == s;
                lemma_record_at(t4, k4);
                lemma_record_at(t3, k4);
                assert(holds(t3, s));
                assert(holds(t2, s));
                assert(record_at(t3, s) == record_at(t2, s));
                if s.account == account {
                    assert(refreshed_from(t3[k4], t4[k4], info, np, np4));
                }
            }
        }
    }

    /// Puts an admitted record into the table: the evicted record leaves,
    /// the record of the same slot gives way, and the account is brought in
    /// line with its rule.
    fn place(&mut self, r: TransactionRecord, replace: bool, evict: Option<SlotKey>)
        requires
            old(self).wf(),
            verdict(old(self).records(), r@, old(self).capacity(), old(self).capacity_bytes())
                == (Verdict::Admit { replace, evict }),
        ensures
            final(self).wf(),
            admitted(
                old(self).records(),
                final(self).records(),
                old(self).next_position(),
                final(self).next_position(),
                r@,
                old(self).capacity(),
                old(self).capacity_bytes(),
            ),
            promoted_in_order(final(self).records(), old(self).next_position()),
            positions_dense(
                final(self).records(),
                old(self).next_position(),
                final(self).next_position(),
            ),
            final(self).capacity() == old(self).capacity(),
            final(self).capacity_bytes() == old(self).capacity_bytes(),
    {
        let ghost t0 = self.records();
        let ghost np = self.next_position();
        let ghost rv = r@;
        let info = self.rule_for(&r);
        let slot = r.slot();
        proof {
            assert forall|e: crate::ordered_index::IndexEntry| #[trigger]
                self.index(IndexKind::Parking)@.contains(e) <==> crate::model::indexed(
                    t0,
                    IndexKind::Parking,
                    e,
                ) by {
                assert(self.index(IndexKind::Parking).has(e) == self.index(
                    IndexKind::Parking,
                )@.contains(e));
            }
            lemma_room(
                t0,
                np,
                self.index(IndexKind::Parking)@,
                rv,
                self.capacity(),
                self.capacity_bytes(),
                replace,
                evict,
            );
        }
        self.make_room(slot, replace, evict);
        let ghost t2 = self.records();
        let stored = TransactionRecord {
            account: r.account,
            seq: r.seq,
            payload: r.payload,
            hash: r.hash,
            ranking_score: r.ranking_score,
            expiration: r.expiration,
            admitted_at: r.admitted_at,
            sequence_info: info,
            timeline_state: match r.timeline_state {
                TimelineState::NonQualified => TimelineState::NonQualified,
                _ => TimelineState::NotReady,
            },
            ready: false,
        };
        proof {
            assert(stored@ == stored_form(rv, info));
            assert forall|i: int|
                0 <= i < t2.len() && (#[trigger] t2[i]).account == rv.account implies t2[i].seq
                >= info.baseline() by {
                lemma_record_at(t2, i);
                assert(holds(t0, t2[i].slot()));
                let k = choose|k: int| 0 <= k < t0.len() && (#[trigger] t0[k]).slot() == t2[i].slot();
                lemma_record_at(t0, k);
                lemma_rule_of(t0, np, k);
                assert(ledger_ok_at(t0, k, np));
            }
        }
        self.settle(stored);
        proof {
            let t4 = self.records();
            let np4 = self.next_position();
            assert forall|s: SlotKey| #[trigger]
                holds(t4, s) <==> ((holds(t0, s) && Some(s) != evict) || s == slot) by {
                assert(holds(t4, s) <==> (holds(t2, s) || s == slot));
                assert(holds(t2, s) <==> (holds(t0, s) && Some(s) != evict && s != slot));
            }
            assert forall|s: SlotKey| holds(t4, s) && s != slot implies {
                let a = record_at(t0, s);
                let b = #[trigger] record_at(t4, s);
                &&& b.slot() == s
                &&& if s.account == rv.account {
                    refreshed_from(a, b, info, np, np4)
                } else {
                    b == a
                }
            } by {
                assert(holds(t2, s));
                assert(record_at(t2, s) == record_at(t0, s));
            }
            lemma_placed(t0, t4, np, np4, rv, info, evict);
        }
    }

    /// Submits `r` to the store. A record whose slot is free is admitted if
    /// the ceilings allow it, where need be after the eviction of the oldest
    /// blocked record in favour of a ready one. A record whose slot is
    /// occupied replaces the record there if its score is higher; with the
    /// same payload and no higher score it is accepted and changes nothing.
    pub fn try_admit(&mut self, r: TransactionRecord) -> (result: AdmissionResult)
        requires
            old(self).wf(),
        ensures
            final(self).wf(),
            result == outcome(
                verdict(old(self).records(), r@, old(self).capacity(), old(self).capacity_bytes()),
            ),
            admitted(
                old(self).records(),
                final(self).records(),
                old(self).next_position(),
                final(self).next_position(),
                r@,
                old(self).capacity(),
                old(self).capacity_bytes(),
            ),
            promoted_in_order(final(self).records(), old(self).next_position()),
            positions_dense(
                final(self).records(),
                old(self).next_position(),
                final(self).next_position(),
            ),
            final(self).capacity() == old(self).capacity(),
            final(self).capacity_bytes() == old(self).capacity_bytes(),
    {
        proof {
            self.lemma_no_promotion();
        }
        match self.decide(&r) {
            Verdict::Stale => AdmissionResult::Rejected(RejectReason::InvalidSeqNumber),
            Verdict::Unchanged => AdmissionResult::Accepted,
            Verdict::Outbid => AdmissionResult::Rejected(RejectReason::InvalidUpdate),
            Verdict::Full => AdmissionResult::Rejected(RejectReason::MempoolFull),
            Verdict::Admit { replace, evict } => {
                self.place(r, replace, evict);
                AdmissionResult::Accepted
            },
        }
    }
}

} // verus!
