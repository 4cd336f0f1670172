use core_mempool::consensus::{ConsensusResponse, Payload};
use core_mempool::mempool::CoreMempool;
use core_mempool::model::{IndexKind, Verdict};
use core_mempool::ordered_index::{IndexEntry, OrderedIndex};
use core_mempool::store::{entry_of, TransactionStore};
use core_mempool::ttl_cache::TtlCache;
use core_mempool::types::{
    bytes_copy, bytes_equal, AccountAddress, AdmissionResult, HashValue, RejectReason,
    SequenceInfo, SlotKey, TimelineState, TransactionRecord,
};

const BIG: usize = 1_000_000;

fn acct(i: u128) -> AccountAddress {
    AccountAddress::new(0, i)
}

fn seq_rule(next: u64) -> SequenceInfo {
    SequenceInfo::Sequential { next }
}

fn window(min_nonce: u64, range: u64) -> SequenceInfo {
    SequenceInfo::SlidingWindow { min_nonce, range }
}

/// A record with a payload of `size` bytes that names its slot and score.
fn rec_sized(
    account: u128,
    seq: u64,
    score: u64,
    expiration: u64,
    admitted_at: u64,
    info: SequenceInfo,
    size: usize,
) -> TransactionRecord {
    let mut payload = vec![0u8; size];
    let tag = [account as u8, seq as u8, score as u8, expiration as u8];
    for (i, b) in tag.iter().enumerate() {
        if i < payload.len() {
            payload[i] = *b;
        }
    }
    TransactionRecord::new(
        acct(account),
        seq,
        payload,
        HashValue::new(account, ((seq as u128) << 64) | score as u128),
        score,
        expiration,
        admitted_at,
        info,
        TimelineState::NotReady,
    )
}

fn rec(account: u128, seq: u64, score: u64) -> TransactionRecord {
    rec_sized(account, seq, score, u64::MAX, 0, seq_rule(0), 8)
}

fn pool(capacity: usize, capacity_bytes: usize) -> CoreMempool {
    CoreMempool::new(capacity, capacity_bytes, 100, 1000)
}

fn slots(records: &[TransactionRecord]) -> Vec<(u128, u64)> {
    records.iter().map(|r| (r.account.lo, r.seq)).collect()
}

fn pull_all(p: &CoreMempool) -> Vec<TransactionRecord> {
    p.pull_batch(u64::MAX, u64::MAX, &Vec::new())
}

const ACCEPTED: AdmissionResult = AdmissionResult::Accepted;
const FULL: AdmissionResult = AdmissionResult::Rejected(RejectReason::MempoolFull);
const INVALID_UPDATE: AdmissionResult = AdmissionResult::Rejected(RejectReason::InvalidUpdate);
const INVALID_SEQ: AdmissionResult = AdmissionResult::Rejected(RejectReason::InvalidSeqNumber);

#[test]
fn capacity_of_one_frees_on_commit() {
    let mut p = pool(1, BIG);
    assert_eq!(p.submit(rec(1, 0, 1)), ACCEPTED);
    assert_eq!(p.submit(rec(1, 1, 1)), FULL);
    assert_eq!(p.size(), (1, 0, 8));
    p.notify_commit(acct(1), 0, 0);
    assert_eq!(p.size(), (0, 0, 0));
    assert_eq!(p.submit(rec(1, 1, 1)), ACCEPTED);
    assert_eq!(p.size(), (1, 0, 8));
}

#[test]
fn window_advance_evicts_and_promotes() {
    let mut p = pool(BIG, BIG);
    let w = window(0, 3);
    assert_eq!(p.submit(rec_sized(1, 2, 5, u64::MAX, 0, w, 8)), ACCEPTED);
    assert_eq!(p.submit(rec_sized(1, 0, 7, u64::MAX, 0, w, 8)), ACCEPTED);
    assert_eq!(p.submit(rec_sized(1, 4, 6, u64::MAX, 0, w, 8)), ACCEPTED);
    assert_eq!(p.submit(rec_sized(1, 3, 1, u64::MAX, 0, w, 8)), ACCEPTED);
    // nonces 0 and 2 lie in the window [0, 3), nonces 3 and 4 do not
    assert_eq!(p.size(), (2, 2, 32));
    assert_eq!(slots(&pull_all(&p)), vec![(1, 0), (1, 2)]);
    // the window moves to [3, 6)
    p.notify_commit(acct(1), 2, 0);
    assert!(p.get_by_hash(HashValue::new(1, 7)).is_none());
    assert!(p.get_by_hash(HashValue::new(1, (2u128 << 64) | 5)).is_none());
    assert_eq!(p.size(), (2, 0, 16));
    assert_eq!(slots(&pull_all(&p)), vec![(1, 4), (1, 3)]);
}

#[test]
fn commit_of_a_nonce_removes_that_nonce() {
    let mut p = pool(BIG, BIG);
    let w = window(0, 8);
    for n in [2u64, 0, 4, 3] {
        assert_eq!(p.submit(rec_sized(1, n, n + 1, u64::MAX, 0, w, 8)), ACCEPTED);
    }
    p.notify_commit(acct(1), 3, 0);
    assert_eq!(slots(&pull_all(&p)), vec![(1, 4)]);
}

#[test]
fn window_bounds_are_half_open() {
    let mut p = pool(BIG, BIG);
    let w = window(10, 3);
    assert_eq!(p.submit(rec_sized(1, 12, 1, u64::MAX, 0, w, 8)), ACCEPTED);
    assert_eq!(p.submit(rec_sized(1, 13, 1, u64::MAX, 0, w, 8)), ACCEPTED);
    assert_eq!(p.submit(rec_sized(1, 9, 1, u64::MAX, 0, w, 8)), INVALID_SEQ);
    assert_eq!(p.size(), (1, 1, 16));
    assert_eq!(slots(&pull_all(&p)), vec![(1, 12)]);
    let r = p.get_by_hash(HashValue::new(1, (13u128 << 64) | 1)).unwrap();
    assert!(!r.ready);
    assert_eq!(r.timeline_state, TimelineState::NotReady);
    assert_eq!(r.sequence_info, w);
}

#[test]
fn cache_keeps_newest_insertions() {
    let mut cache: TtlCache<u64, u64> = TtlCache::new(2, 5);
    cache.insert(1, 1, 0);
    cache.insert(1, 2, 0);
    cache.insert(2, 2, 0);
    cache.insert(1, 3, 0);
    assert_eq!(cache.size(), 2);
    assert_eq!(cache.get(&1), Some(&3));
    assert_eq!(cache.get(&2), Some(&2));
    cache.insert(3, 3, 0);
    assert_eq!(cache.get(&2), None);
    assert_eq!(cache.get(&1), Some(&3));
    assert_eq!(cache.get(&3), Some(&3));
    assert_eq!(cache.size(), 2);
}

#[test]
fn cache_sweep_is_strict_and_keeps_order() {
    let mut cache: TtlCache<u64, u64> = TtlCache::new(4, 10);
    cache.insert(1, 10, 0);
    cache.insert(2, 20, 5);
    cache.insert(3, 30, 1);
    // the entries end at 10, 15 and 11
    cache.gc(10);
    assert_eq!(cache.size(), 3);
    cache.gc(11);
    assert_eq!(cache.size(), 2);
    assert_eq!(cache.get(&1), None);
    cache.gc(12);
    assert_eq!(cache.size(), 1);
    assert_eq!(cache.get(&2), Some(&20));
    assert_eq!(cache.get(&3), None);
    // the survivor is now the oldest insertion
    cache.insert(4, 40, 12);
    cache.insert(5, 50, 12);
    cache.insert(6, 60, 12);
    cache.insert(7, 70, 12);
    assert_eq!(cache.get(&2), None);
    assert_eq!(cache.size(), 4);
}

#[test]
fn cache_edges() {
    let mut none: TtlCache<u64, u64> = TtlCache::new(0, 1);
    none.insert(1, 1, 0);
    assert_eq!(none.size(), 0);
    assert_eq!(none.get(&1), None);

    let mut cache: TtlCache<AccountAddress, u64> = TtlCache::new(2, 10);
    cache.insert(acct(1), 7, u64::MAX - 9);
    assert_eq!(cache.size(), 0);
    cache.insert(acct(1), 7, u64::MAX - 10);
    assert_eq!(cache.get(&acct(1)), Some(&7));
    assert_eq!(cache.remove(&acct(2)), None);
    assert_eq!(cache.remove(&acct(1)), Some(7));
    assert_eq!(cache.remove(&acct(1)), None);
    assert_eq!(cache.size(), 0);

    let mut by_slot: TtlCache<SlotKey, u64> = TtlCache::new(2, 10);
    by_slot.insert(SlotKey::new(acct(1), 3), 1, 0);
    by_slot.insert(SlotKey::new(acct(1), 4), 2, 0);
    assert_eq!(by_slot.get(&SlotKey::new(acct(1), 3)), Some(&1));
    assert_eq!(by_slot.get(&SlotKey::new(acct(2), 3)), None);
}

#[test]
fn pull_is_the_sort_of_the_ready_records() {
    let mut p = pool(BIG, BIG);
    let input: Vec<(u128, u64, u64, u64)> = vec![
        (3, 0, 5, 100),
        (1, 0, 5, 100),
        (2, 0, 9, 100),
        (1, 1, 9, 50),
        (2, 1, 5, 20),
        (3, 1, 1, 1),
        (4, 0, 5, 100),
        (4, 2, 99, 1),
    ];
    for (a, s, score, exp) in &input {
        assert_eq!(p.submit(rec_sized(*a, *s, *score, *exp, 0, seq_rule(0), 8)), ACCEPTED);
    }
    let out = pull_all(&p);
    // the record of account 4 at sequence number 2 is blocked
    let mut expected: Vec<(u128, u64, u64, u64)> =
        input.iter().cloned().filter(|t| !(t.0 == 4 && t.1 == 2)).collect();
    expected.sort_by(|x, y| {
        y.2.cmp(&x.2)
            .then(x.3.cmp(&y.3))
            .then(x.0.cmp(&y.0))
            .then(x.1.cmp(&y.1))
    });
    let got: Vec<(u128, u64, u64, u64)> = out
        .iter()
        .map(|r| (r.account.lo, r.seq, r.ranking_score, r.expiration))
        .collect();
    assert_eq!(got, expected);
    assert_eq!(
        slots(&out),
        vec![(1, 1), (2, 0), (2, 1), (1, 0), (3, 0), (4, 0), (3, 1)]
    );
    assert!(out.iter().all(|r| r.ready));
    // the pull leaves the pool as it was
    assert_eq!(slots(&pull_all(&p)), slots(&out));
    assert_eq!(p.size(), (7, 1, 64));
}

#[test]
fn one_record_per_slot_with_the_best_score() {
    let mut p = pool(BIG, BIG);
    let first = rec_sized(1, 0, 3, 10, 0, seq_rule(0), 8);
    let same_again = rec_sized(1, 0, 3, 10, 0, seq_rule(0), 8);
    assert_eq!(p.submit(first), ACCEPTED);
    assert_eq!(p.submit(same_again), ACCEPTED);
    assert_eq!(p.size(), (1, 0, 8));
    // better score: replaces
    assert_eq!(p.submit(rec_sized(1, 0, 5, 10, 0, seq_rule(0), 16)), ACCEPTED);
    assert_eq!(p.size(), (1, 0, 16));
    // lower and equal scores with another payload: turned down
    assert_eq!(p.submit(rec_sized(1, 0, 4, 10, 0, seq_rule(0), 8)), INVALID_UPDATE);
    assert_eq!(p.submit(rec_sized(1, 0, 5, 11, 0, seq_rule(0), 16)), INVALID_UPDATE);
    let out = pull_all(&p);
    assert_eq!(out.len(), 1);
    assert_eq!(out[0].ranking_score, 5);
    assert_eq!(out[0].payload.len(), 16);
    // the superseded record cannot be found by its digest
    assert!(p.get_by_hash(HashValue::new(1, 3)).is_none());
    assert_eq!(p.get_by_hash(HashValue::new(1, 5)).unwrap().ranking_score, 5);
}

#[test]
fn replacement_keeps_the_successors_ready() {
    let mut p = pool(BIG, BIG);
    for s in 0..3 {
        assert_eq!(p.submit(rec(1, s, 1)), ACCEPTED);
    }
    let before = p.read_timeline(0, 10);
    assert_eq!(slots(&before.0), vec![(1, 0), (1, 1), (1, 2)]);
    assert_eq!(before.1, 3);
    assert_eq!(p.submit(rec(1, 0, 2)), ACCEPTED);
    assert_eq!(p.size(), (3, 0, 24));
    // the successors keep their positions, the new record takes a new one
    let after = p.read_timeline(0, 10);
    assert_eq!(slots(&after.0), vec![(1, 1), (1, 2), (1, 0)]);
    assert_eq!(after.0[0].timeline_state, TimelineState::Ready(1));
    assert_eq!(after.0[2].timeline_state, TimelineState::Ready(3));
    assert_eq!(after.1, 4);
}

#[test]
fn commit_keeps_what_was_ready() {
    let mut p = pool(BIG, BIG);
    for s in [0u64, 1, 2, 3, 5] {
        assert_eq!(p.submit(rec(1, s, 1)), ACCEPTED);
    }
    assert_eq!(p.submit(rec(2, 0, 1)), ACCEPTED);
    assert_eq!(p.size(), (5, 1, 48));
    p.notify_commit(acct(1), 1, 0);
    assert_eq!(p.size(), (3, 1, 32));
    let out = pull_all(&p);
    assert_eq!(slots(&out), vec![(1, 2), (1, 3), (2, 0)]);
    assert_eq!(out[0].timeline_state, TimelineState::Ready(2));
    assert_eq!(out[1].timeline_state, TimelineState::Ready(3));
    assert_eq!(out[0].sequence_info, seq_rule(2));
    // a commit below the baseline changes nothing
    p.notify_commit(acct(1), 0, 0);
    assert_eq!(slots(&pull_all(&p)), vec![(1, 2), (1, 3), (2, 0)]);
    // the commit of 4 closes the gap before 5
    p.notify_commit(acct(1), 4, 0);
    let out = pull_all(&p);
    assert_eq!(slots(&out), vec![(1, 5), (2, 0)]);
    assert_eq!(out[0].timeline_state, TimelineState::Ready(5));
    assert_eq!(out[0].sequence_info, seq_rule(5));
}

#[test]
fn commit_of_the_last_sequence_number() {
    let mut p = pool(BIG, BIG);
    assert_eq!(p.submit(rec_sized(1, u64::MAX, 1, 1, 0, seq_rule(u64::MAX), 8)), ACCEPTED);
    assert_eq!(p.size(), (1, 0, 8));
    p.notify_commit(acct(1), u64::MAX, 0);
    assert_eq!(p.size(), (0, 0, 0));
    assert_eq!(seq_rule(3).advance(u64::MAX), seq_rule(u64::MAX));
    assert_eq!(seq_rule(3).advance(7), seq_rule(8));
    assert_eq!(seq_rule(9).advance(7), seq_rule(9));
    assert_eq!(window(3, 4).advance(7), window(8, 4));
    assert_eq!(window(3, 4).raise(2), window(3, 4));
    assert_eq!(window(3, 4).min_seq(), 3);
    assert!(seq_rule(1).is_sequential());
    assert!(!window(1, 1).is_sequential());
}

#[test]
fn readiness_rules() {
    assert!(seq_rule(4).is_ready(4, false));
    assert!(!seq_rule(4).is_ready(5, false));
    assert!(seq_rule(4).is_ready(5, true));
    assert!(!seq_rule(4).is_ready(3, true));
    assert!(window(4, 2).is_ready(4, false));
    assert!(window(4, 2).is_ready(5, false));
    assert!(!window(4, 2).is_ready(6, true));
    assert!(!window(4, 2).is_ready(3, true));
    assert!(!window(4, 0).is_ready(4, true));
}

#[test]
fn ceilings_hold_at_every_step() {
    let mut p = pool(4, 40);
    let mut step = 0u64;
    let check = |p: &CoreMempool| {
        let (ready, blocked, bytes) = p.size();
        assert!(ready + blocked <= 4);
        assert!(bytes <= 40);
    };
    for a in 1..4u128 {
        for s in [0u64, 2, 1, 5, 3] {
            step += 1;
            p.submit(rec_sized(a, s, step, u64::MAX, step, seq_rule(0), 9 + (s as usize)));
            check(&p);
        }
        p.notify_commit(acct(a), 0, step);
        check(&p);
    }
    p.evict_expired(u64::MAX);
    assert_eq!(p.size(), (0, 0, 0));
}

#[test]
fn byte_ceiling_is_exact() {
    let mut p = pool(BIG, 20);
    assert_eq!(p.submit(rec_sized(1, 0, 1, 1, 0, seq_rule(0), 10)), ACCEPTED);
    assert_eq!(p.submit(rec_sized(1, 1, 1, 1, 0, seq_rule(0), 11)), FULL);
    assert_eq!(p.submit(rec_sized(1, 1, 1, 1, 0, seq_rule(0), 10)), ACCEPTED);
    assert_eq!(p.size(), (2, 0, 20));
    // a replacement counts the bytes that it frees
    assert_eq!(p.submit(rec_sized(1, 1, 2, 1, 0, seq_rule(0), 11)), FULL);
    assert_eq!(p.submit(rec_sized(1, 0, 2, 1, 0, seq_rule(0), 4)), ACCEPTED);
    assert_eq!(p.submit(rec_sized(1, 1, 2, 1, 0, seq_rule(0), 16)), ACCEPTED);
    assert_eq!(p.size(), (2, 0, 20));
}

#[test]
fn eviction_takes_the_oldest_blocked_record() {
    let mut p = pool(3, BIG);
    assert_eq!(p.submit(rec_sized(1, 7, 1, 1, 30, seq_rule(0), 8)), ACCEPTED);
    assert_eq!(p.submit(rec_sized(2, 9, 1, 1, 10, seq_rule(0), 8)), ACCEPTED);
    assert_eq!(p.submit(rec_sized(3, 5, 1, 1, 20, seq_rule(0), 8)), ACCEPTED);
    assert_eq!(p.size(), (0, 3, 24));
    // a blocked record does not make another blocked record give way
    assert_eq!(p.submit(rec_sized(4, 1, 1, 1, 40, seq_rule(0), 8)), FULL);
    assert_eq!(p.size(), (0, 3, 24));
    // a ready record does: the record admitted at time 10 leaves
    assert_eq!(p.submit(rec_sized(4, 0, 1, 1, 40, seq_rule(0), 8)), ACCEPTED);
    assert!(p.get_by_hash(HashValue::new(2, (9u128 << 64) | 1)).is_none());
    assert_eq!(p.submit(rec_sized(4, 1, 1, 1, 41, seq_rule(0), 8)), ACCEPTED);
    assert!(p.get_by_hash(HashValue::new(3, (5u128 << 64) | 1)).is_none());
    assert!(p.get_by_hash(HashValue::new(1, (7u128 << 64) | 1)).is_some());
    assert_eq!(p.size(), (2, 1, 24));
}

#[test]
fn eviction_that_makes_no_room_changes_nothing() {
    let mut p = pool(BIG, 20);
    assert_eq!(p.submit(rec_sized(1, 5, 1, 1, 0, seq_rule(0), 4)), ACCEPTED);
    assert_eq!(p.submit(rec_sized(2, 0, 1, 1, 0, seq_rule(0), 16)), ACCEPTED);
    // 16 + 12 > 20 even without the blocked record of 4 bytes
    assert_eq!(p.submit(rec_sized(3, 0, 1, 1, 0, seq_rule(0), 12)), FULL);
    assert_eq!(p.size(), (1, 1, 20));
    // 16 + 4 fits once the blocked record has left
    assert_eq!(p.submit(rec_sized(3, 0, 1, 1, 0, seq_rule(0), 4)), ACCEPTED);
    assert_eq!(p.size(), (2, 0, 20));
}

#[test]
fn timeline_reads_resume() {
    let mut p = pool(BIG, BIG);
    for s in 0..5 {
        assert_eq!(p.submit(rec(1, s, 1)), ACCEPTED);
    }
    let whole = p.read_timeline(0, 10);
    assert_eq!(slots(&whole.0), vec![(1, 0), (1, 1), (1, 2), (1, 3), (1, 4)]);
    assert_eq!(whole.1, 5);
    let (first, resume) = p.read_timeline(0, 2);
    assert_eq!(slots(&first), vec![(1, 0), (1, 1)]);
    assert_eq!(resume, 2);
    // records come onto the timeline between the reads
    assert_eq!(p.submit(rec(2, 0, 1)), ACCEPTED);
    assert_eq!(p.submit(rec(1, 5, 1)), ACCEPTED);
    let (second, end) = p.read_timeline(resume, 10);
    assert_eq!(slots(&second), vec![(1, 2), (1, 3), (1, 4), (2, 0), (1, 5)]);
    assert_eq!(end, 7);
    let mut joined = slots(&first);
    joined.extend(slots(&second));
    assert_eq!(joined, slots(&p.read_timeline(0, 7).0));
    // nothing new: the read returns nothing and asks to resume where it began
    let (none, again) = p.read_timeline(end, 10);
    assert!(none.is_empty());
    assert_eq!(again, end);
    assert_eq!(p.read_timeline(0, 0), (Vec::new(), 0));
}

#[test]
fn demotion_leaves_a_hole_on_the_timeline() {
    let mut p = pool(BIG, BIG);
    for s in 0..4 {
        assert_eq!(p.submit(rec(1, s, 1)), ACCEPTED);
    }
    assert!(p.notify_reject(acct(1), 1));
    assert!(!p.notify_reject(acct(1), 1));
    assert!(!p.notify_reject(acct(9), 0));
    assert_eq!(p.size(), (1, 2, 24));
    let (batch, resume) = p.read_timeline(0, 10);
    assert_eq!(slots(&batch), vec![(1, 0)]);
    assert_eq!(resume, 1);
    // the slot can be filled again; what becomes ready takes new positions
    assert_eq!(p.submit(rec(1, 1, 1)), ACCEPTED);
    let (batch, resume) = p.read_timeline(0, 10);
    assert_eq!(slots(&batch), vec![(1, 0), (1, 1), (1, 2), (1, 3)]);
    assert_eq!(
        batch.iter().map(|r| r.timeline_state).collect::<Vec<_>>(),
        vec![
            TimelineState::Ready(0),
            TimelineState::Ready(4),
            TimelineState::Ready(5),
            TimelineState::Ready(6),
        ]
    );
    assert_eq!(resume, 7);
}

#[test]
fn non_qualified_records_stay_off_the_timeline() {
    let mut p = pool(BIG, BIG);
    let quiet = TransactionRecord::new(
        acct(1),
        0,
        vec![1, 2, 3],
        HashValue::new(1, 1),
        4,
        9,
        0,
        seq_rule(0),
        TimelineState::NonQualified,
    );
    let loud = TransactionRecord::new(
        acct(1),
        1,
        vec![1, 2, 3, 4],
        HashValue::new(1, 2),
        4,
        9,
        0,
        seq_rule(0),
        TimelineState::Ready(77),
    );
    assert_eq!(loud.timeline_state, TimelineState::NotReady);
    assert!(!quiet.is_qualified());
    assert!(loud.is_qualified());
    assert_eq!(p.submit(quiet), ACCEPTED);
    assert_eq!(p.submit(loud), ACCEPTED);
    assert_eq!(slots(&pull_all(&p)), vec![(1, 0), (1, 1)]);
    let (batch, resume) = p.read_timeline(0, 10);
    assert_eq!(slots(&batch), vec![(1, 1)]);
    assert_eq!(batch[0].timeline_state, TimelineState::Ready(0));
    assert_eq!(resume, 1);
    assert_eq!(pull_all(&p)[0].timeline_state, TimelineState::NonQualified);
}

#[test]
fn sweeps_take_what_is_due() {
    let mut p = pool(BIG, BIG);
    assert_eq!(p.submit(rec_sized(1, 0, 1, 50, 10, seq_rule(0), 8)), ACCEPTED);
    assert_eq!(p.submit(rec_sized(1, 1, 1, 40, 20, seq_rule(0), 8)), ACCEPTED);
    assert_eq!(p.submit(rec_sized(1, 2, 1, 60, 30, seq_rule(0), 8)), ACCEPTED);
    assert_eq!(p.submit(rec_sized(2, 0, 1, 41, 5, seq_rule(0), 8)), ACCEPTED);
    assert_eq!(p.evict_expired(39), 0);
    assert_eq!(p.size(), (4, 0, 32));
    // an expiration at the time of the sweep is due
    assert_eq!(p.evict_expired(40), 1);
    assert_eq!(p.size(), (2, 1, 24));
    // equal scores: the earlier expiration comes first
    assert_eq!(slots(&pull_all(&p)), vec![(2, 0), (1, 0)]);
    // by age: admitted at 5 and at 10, swept at 25 with a time to live of 15
    assert_eq!(p.gc_by_age(16, 25), 1);
    assert_eq!(p.gc_by_age(15, 25), 1);
    assert_eq!(p.size(), (0, 1, 8));
    // a time to live beyond the clock keeps everything
    assert_eq!(p.gc_by_age(26, 25), 0);
    assert_eq!(p.gc_by_age(0, 30), 1);
    assert_eq!(p.size(), (0, 0, 0));
}

#[test]
fn sweep_forgets_old_baselines() {
    let mut p = CoreMempool::new(BIG, BIG, 4, 10);
    p.notify_commit(acct(1), 5, 100);
    assert_eq!(p.submit(rec(1, 5, 1)), INVALID_SEQ);
    assert_eq!(p.submit(rec(1, 7, 1)), ACCEPTED);
    assert_eq!(p.size(), (0, 1, 8));
    assert!(p.notify_reject(acct(1), 7));
    // the baseline is remembered until 110
    p.gc_by_age(1000, 110);
    assert_eq!(p.submit(rec(1, 5, 1)), INVALID_SEQ);
    p.gc_by_age(1000, 111);
    assert_eq!(p.submit(rec(1, 5, 1)), ACCEPTED);
}

#[test]
fn first_sight_is_noted_and_forgotten() {
    let mut p = CoreMempool::new(BIG, BIG, 2, 10);
    assert_eq!(p.first_seen(acct(1), 0), None);
    assert_eq!(p.submit(rec_sized(1, 0, 1, 1, 40, seq_rule(0), 8)), ACCEPTED);
    assert_eq!(p.submit(rec_sized(1, 1, 1, 1, 41, seq_rule(0), 8)), ACCEPTED);
    assert_eq!(p.first_seen(acct(1), 0), Some(40));
    assert_eq!(p.first_seen(acct(1), 1), Some(41));
    // a record that is turned down is noted all the same
    assert_eq!(p.submit(rec_sized(1, 1, 1, 2, 45, seq_rule(0), 9)), INVALID_UPDATE);
    assert_eq!(p.first_seen(acct(1), 1), Some(45));
    // a record that does not qualify for the timeline is not
    let quiet = TransactionRecord::new(
        acct(1),
        2,
        vec![7],
        HashValue::new(1, 2),
        1,
        1,
        46,
        seq_rule(0),
        TimelineState::NonQualified,
    );
    assert_eq!(p.submit(quiet), ACCEPTED);
    assert_eq!(p.first_seen(acct(1), 2), None);
    // commit and rejection forget the slot they name
    p.notify_commit(acct(1), 0, 47);
    assert_eq!(p.first_seen(acct(1), 0), None);
    assert!(p.notify_reject(acct(1), 1));
    assert_eq!(p.first_seen(acct(1), 1), None);
    // the cache holds two slots, each for ten ticks
    assert_eq!(p.submit(rec_sized(2, 0, 1, 1, 50, seq_rule(0), 8)), ACCEPTED);
    assert_eq!(p.submit(rec_sized(2, 1, 1, 1, 52, seq_rule(0), 8)), ACCEPTED);
    assert_eq!(p.submit(rec_sized(2, 2, 1, 1, 54, seq_rule(0), 8)), ACCEPTED);
    assert_eq!(p.first_seen(acct(2), 0), None);
    p.gc_by_age(1000, 62);
    assert_eq!(p.first_seen(acct(2), 1), Some(52));
    p.gc_by_age(1000, 63);
    assert_eq!(p.first_seen(acct(2), 1), None);
    assert_eq!(p.first_seen(acct(2), 2), Some(54));
    p.evict_expired(u64::MAX);
    assert_eq!(p.size(), (0, 0, 0));
    assert_eq!(p.first_seen(acct(2), 2), Some(54));
}

#[test]
fn remembered_baseline_lifts_a_new_account() {
    let mut p = pool(BIG, BIG);
    p.notify_commit(acct(1), 5, 0);
    p.notify_commit(acct(1), 2, 0);
    assert_eq!(p.submit(rec(1, 6, 1)), ACCEPTED);
    let out = pull_all(&p);
    assert_eq!(slots(&out), vec![(1, 6)]);
    assert_eq!(out[0].sequence_info, seq_rule(6));
    // the rule of the account counts from now on, not the one submitted
    assert_eq!(p.submit(rec_sized(1, 7, 1, 1, 0, window(0, 1), 8)), ACCEPTED);
    assert_eq!(pull_all(&p)[1].sequence_info, seq_rule(6));
    assert_eq!(p.size(), (2, 0, 16));
}

#[test]
fn pull_bounds_and_exclusion() {
    let mut p = pool(BIG, BIG);
    for (a, size) in [(1u128, 10usize), (2, 20), (3, 30), (4, 40)] {
        assert_eq!(p.submit(rec_sized(a, 0, 10 - a as u64, 1, 0, seq_rule(0), size)), ACCEPTED);
    }
    let none: Vec<HashValue> = Vec::new();
    assert_eq!(p.pull_batch(0, u64::MAX, &none).len(), 0);
    assert_eq!(p.pull_batch(u64::MAX, 0, &none).len(), 0);
    assert_eq!(slots(&p.pull_batch(2, u64::MAX, &none)), vec![(1, 0), (2, 0)]);
    assert_eq!(slots(&p.pull_batch(9, 30, &none)), vec![(1, 0), (2, 0)]);
    assert_eq!(slots(&p.pull_batch(9, 29, &none)), vec![(1, 0)]);
    // the walk stops at the first record that does not fit
    assert_eq!(slots(&p.pull_batch(9, 9, &none)), Vec::<(u128, u64)>::new());
    let skip = vec![HashValue::new(2, 8), HashValue::new(77, 77)];
    assert_eq!(slots(&p.pull_batch(9, 40, &skip)), vec![(1, 0), (3, 0)]);
    assert_eq!(
        slots(&p.pull_batch(9, 1000, &skip)),
        vec![(1, 0), (3, 0), (4, 0)]
    );
    match p.get_block(2, 1000, &skip) {
        ConsensusResponse::GetBlockResponse(payload) => {
            assert_eq!(payload.len(), 2);
            match payload {
                Payload::DirectMempool(txns) => assert_eq!(slots(&txns), vec![(1, 0), (3, 0)]),
            }
        }
    }
}

#[test]
fn lookup_by_digest_prefers_the_least_slot() {
    let mut p = pool(BIG, BIG);
    let twin = |a: u128, s: u64| {
        TransactionRecord::new(
            acct(a),
            s,
            vec![a as u8, s as u8],
            HashValue::new(5, 5),
            1,
            1,
            0,
            seq_rule(0),
            TimelineState::NotReady,
        )
    };
    assert_eq!(p.submit(twin(3, 0)), ACCEPTED);
    assert_eq!(p.submit(twin(2, 4)), ACCEPTED);
    assert_eq!(p.submit(twin(2, 1)), ACCEPTED);
    let found = p.get_by_hash(HashValue::new(5, 5)).unwrap();
    assert_eq!((found.account.lo, found.seq), (2, 1));
    assert!(p.notify_reject(acct(2), 1));
    let found = p.get_by_hash(HashValue::new(5, 5)).unwrap();
    assert_eq!((found.account.lo, found.seq), (2, 4));
    assert!(p.get_by_hash(HashValue::new(5, 6)).is_none());
    assert!(p.get_by_hash(HashValue::new(4, 5)).is_none());
}

#[test]
fn store_verdicts() {
    let mut store = TransactionStore::new(2, 100);
    assert_eq!(
        store.decide(&rec(1, 0, 1)),
        Verdict::Admit { replace: false, evict: None }
    );
    assert_eq!(store.try_admit(rec(1, 0, 1)), ACCEPTED);
    assert_eq!(store.try_admit(rec(2, 3, 1)), ACCEPTED);
    assert_eq!(store.decide(&rec(1, 0, 1)), Verdict::Unchanged);
    assert_eq!(store.decide(&rec_sized(1, 0, 1, 1, 0, seq_rule(0), 9)), Verdict::Outbid);
    assert_eq!(
        store.decide(&rec(1, 0, 2)),
        Verdict::Admit { replace: true, evict: None }
    );
    assert_eq!(
        store.decide(&rec(1, 1, 1)),
        Verdict::Admit { replace: false, evict: Some(SlotKey::new(acct(2), 3)) }
    );
    assert_eq!(store.decide(&rec(1, 2, 1)), Verdict::Full);
    assert_eq!(store.decide(&rec_sized(3, 0, 1, 1, 0, seq_rule(1), 8)), Verdict::Stale);
    assert_eq!(store.rule_for(&rec_sized(1, 9, 1, 1, 0, window(4, 4), 8)), seq_rule(0));
    assert_eq!(store.rule_for(&rec_sized(3, 9, 1, 1, 0, window(4, 4), 8)), window(4, 4));
    assert_eq!(store.ledger_info(acct(2)), Some(seq_rule(0)));
    assert_eq!(store.ledger_info(acct(3)), None);
    assert_eq!(store.len(), 2);
    assert_eq!(store.bytes(), 16);
    assert_eq!(store.count_limit(), 2);
    assert_eq!(store.bytes_limit(), 100);
    assert_eq!(store.run_start(acct(1)), 0);
    assert_eq!(store.run_start(acct(2)), 1);
    assert_eq!(store.run_start(acct(3)), 2);
    assert_eq!(store.lower_bound(&SlotKey::new(acct(2), 3)), 1);
    assert_eq!(store.lower_bound(&SlotKey::new(acct(2), 4)), 2);
    assert_eq!(store.find(&SlotKey::new(acct(2), 3)), Some(1));
    assert_eq!(store.find(&SlotKey::new(acct(2), 2)), None);
    assert_eq!(store.record(1).seq, 3);
    assert_eq!(store.index_len(IndexKind::Priority), 1);
    assert_eq!(store.index_len(IndexKind::Parking), 1);
    assert_eq!(store.index_len(IndexKind::Timeline), 1);
    assert_eq!(store.index_len(IndexKind::Hash), 2);
    assert_eq!(
        store.index_entry(IndexKind::Priority, 0),
        IndexEntry::new((u64::MAX - 1) as u128, u64::MAX as u128, SlotKey::new(acct(1), 0))
    );
    assert_eq!(
        store.index_entry(IndexKind::Parking, 0),
        IndexEntry::new(0, 0, SlotKey::new(acct(2), 3))
    );
    let probe = IndexEntry::new(1, 0, SlotKey::new(acct(0), 0));
    assert_eq!(store.index_lower_bound(IndexKind::Expiration, &probe), 0);
    assert_eq!(store.index_lower_bound(IndexKind::Age, &probe), 2);
    // the store offers the operations of the pool as well
    store.commit(acct(1), 0);
    assert_eq!(store.size(), (0, 1, 8));
    assert!(store.remove(SlotKey::new(acct(2), 3)));
    assert_eq!(store.sweep(true, 0), 0);
    assert_eq!(store.size(), (0, 0, 0));
    assert!(store.lookup_by_hash(HashValue::new(1, 1)).is_none());
    assert!(store.pull_batch(1, 1, &Vec::new()).is_empty());
    assert!(store.read_timeline(0, 1).0.is_empty());
}

#[test]
fn index_entries_of_a_record() {
    let mut r = rec_sized(3, 4, 10, 20, 30, seq_rule(0), 8);
    r.timeline_state = TimelineState::Ready(6);
    let slot = SlotKey::new(acct(3), 4);
    assert_eq!(r.slot(), slot);
    assert_eq!(r.bytes(), 8);
    assert_eq!(
        entry_of(IndexKind::Priority, &r),
        IndexEntry::new((u64::MAX - 10) as u128, 20, slot)
    );
    assert_eq!(entry_of(IndexKind::Timeline, &r), IndexEntry::new(6, 0, slot));
    assert_eq!(entry_of(IndexKind::Expiration, &r), IndexEntry::new(20, 0, slot));
    assert_eq!(entry_of(IndexKind::Age, &r), IndexEntry::new(30, 0, slot));
    assert_eq!(entry_of(IndexKind::Parking, &r), IndexEntry::new(30, 0, slot));
    assert_eq!(
        entry_of(IndexKind::Hash, &r),
        IndexEntry::new(3, (4u128 << 64) | 10, slot)
    );
    let copy = r.copied();
    assert_eq!(copy.payload, r.payload);
    assert_eq!(copy.timeline_state, TimelineState::Ready(6));
    assert_eq!(copy.hash, r.hash);
}

#[test]
fn ordered_index_is_a_sorted_set() {
    let mut index = OrderedIndex::new();
    assert!(index.is_empty());
    assert_eq!(index.first(), None);
    let e = |major: u128, minor: u128, a: u128, s: u64| {
        IndexEntry::new(major, minor, SlotKey::new(acct(a), s))
    };
    assert!(index.insert(e(5, 0, 1, 1)));
    assert!(index.insert(e(3, 9, 1, 1)));
    assert!(index.insert(e(3, 2, 2, 0)));
    assert!(index.insert(e(3, 2, 1, 7)));
    assert!(!index.insert(e(3, 2, 1, 7)));
    assert_eq!(index.len(), 4);
    assert_eq!(
        (0..4).map(|i| index.get(i)).collect::<Vec<_>>(),
        vec![e(3, 2, 1, 7), e(3, 2, 2, 0), e(3, 9, 1, 1), e(5, 0, 1, 1)]
    );
    assert_eq!(index.first(), Some(e(3, 2, 1, 7)));
    assert!(index.contains(&e(3, 9, 1, 1)));
    assert!(!index.contains(&e(3, 9, 1, 2)));
    assert_eq!(index.lower_bound(&e(3, 9, 0, 0)), 2);
    assert_eq!(index.lower_bound(&e(9, 0, 0, 0)), 4);
    assert!(!index.remove(&e(4, 0, 1, 1)));
    assert!(index.remove(&e(3, 2, 1, 7)));
    assert!(!index.remove(&e(3, 2, 1, 7)));
    assert_eq!(index.first(), Some(e(3, 2, 2, 0)));
    assert_eq!(index.len(), 3);
    assert!(e(3, 2, 1, 7).lt(&e(3, 2, 2, 0)));
    assert!(!e(3, 2, 2, 0).lt(&e(3, 2, 2, 0)));
    assert!(AccountAddress::new(1, 9).lt(&AccountAddress::new(2, 0)));
    assert!(!AccountAddress::new(2, 0).lt(&AccountAddress::new(1, 9)));
    assert!(SlotKey::new(acct(1), 9).lt(&SlotKey::new(acct(2), 0)));
    assert!(SlotKey::new(acct(1), 3).lt(&SlotKey::new(acct(1), 4)));
}

#[test]
fn byte_strings() {
    assert!(bytes_equal(&vec![], &vec![]));
    assert!(bytes_equal(&vec![1, 2, 3], &vec![1, 2, 3]));
    assert!(!bytes_equal(&vec![1, 2, 3], &vec![1, 2, 4]));
    assert!(!bytes_equal(&vec![1, 2, 3], &vec![1, 2]));
    assert_eq!(bytes_copy(&vec![9, 8, 7]), vec![9, 8, 7]);
    assert!(ACCEPTED.is_accepted());
    assert!(!FULL.is_accepted());
}

#[test]
fn submission_with_a_later_baseline_clears_below() {
    let mut p = pool(BIG, BIG);
    for seq in 0..5 {
        assert_eq!(p.submit(rec(1, seq, 1)), ACCEPTED);
    }
    assert_eq!(p.submit(rec(2, 0, 1)), ACCEPTED);
    assert_eq!(p.size(), (6, 0, 48));
    assert_eq!(p.submit(rec_sized(1, 10, 1, u64::MAX, 0, seq_rule(10), 8)), ACCEPTED);
    // the five records below the new baseline are gone, the other account stays
    assert_eq!(p.size(), (2, 0, 16));
    let mut left = slots(&pull_all(&p));
    left.sort();
    assert_eq!(left, vec![(1, 10), (2, 0)]);
    let r = p.get_by_hash(HashValue::new(1, (10u128 << 64) | 1)).unwrap();
    assert!(r.ready);
    assert_eq!(r.sequence_info, seq_rule(10));
    // the account stands at 10 now, whatever a later submission carries
    assert_eq!(p.submit(rec(1, 7, 1)), INVALID_SEQ);
    assert_eq!(p.submit(rec(1, 11, 1)), ACCEPTED);
    assert_eq!(p.size(), (3, 0, 24));
}

#[test]
fn window_moves_with_a_submission() {
    let mut p = pool(BIG, BIG);
    assert_eq!(p.submit(rec_sized(1, 2, 5, u64::MAX, 0, window(0, 3), 8)), ACCEPTED);
    assert_eq!(p.submit(rec_sized(1, 0, 7, u64::MAX, 0, window(0, 3), 8)), ACCEPTED);
    assert_eq!(slots(&pull_all(&p)), vec![(1, 0), (1, 2)]);
    assert_eq!(p.submit(rec_sized(1, 4, 6, u64::MAX, 0, window(3, 3), 8)), ACCEPTED);
    assert_eq!(p.submit(rec_sized(1, 3, 1, u64::MAX, 0, window(3, 3), 8)), ACCEPTED);
    // nonces 0 and 2 fell out of the window [3, 6)
    assert!(p.get_by_hash(HashValue::new(1, 7)).is_none());
    assert!(p.get_by_hash(HashValue::new(1, (2u128 << 64) | 5)).is_none());
    assert_eq!(p.size(), (2, 0, 16));
    assert_eq!(slots(&pull_all(&p)), vec![(1, 4), (1, 3)]);
    // the range of the window is the account's: the one first submitted
    let r = p.get_by_hash(HashValue::new(1, (3u128 << 64) | 1)).unwrap();
    assert_eq!(r.sequence_info, window(3, 3));
}

#[test]
fn later_baseline_promotes_what_waited() {
    let mut p = pool(BIG, BIG);
    assert_eq!(p.submit(rec(1, 3, 1)), ACCEPTED);
    assert_eq!(p.submit(rec(1, 4, 1)), ACCEPTED);
    assert_eq!(p.submit(rec(1, 1, 1)), ACCEPTED);
    assert_eq!(p.size(), (0, 3, 24));
    assert_eq!(p.submit(rec_sized(1, 5, 1, u64::MAX, 0, seq_rule(3), 8)), ACCEPTED);
    assert_eq!(p.size(), (4 - 1, 0, 24));
    let (log, next) = p.read_timeline(0, 10);
    assert_eq!(slots(&log), vec![(1, 3), (1, 4), (1, 5)]);
    assert_eq!(next, 3);
    assert_eq!(log[0].timeline_state, TimelineState::Ready(0));
    assert_eq!(log[2].timeline_state, TimelineState::Ready(2));
    assert_eq!(log[2].sequence_info, seq_rule(3));
}

#[test]
fn stale_submission_lifts_all_the_same() {
    let mut p = pool(BIG, BIG);
    assert_eq!(p.submit(rec(1, 0, 1)), ACCEPTED);
    assert_eq!(p.submit(rec(1, 1, 1)), ACCEPTED);
    assert_eq!(p.submit(rec(1, 6, 1)), ACCEPTED);
    // the record lies below the baseline that the pool remembers
    p.notify_commit(acct(2), 8, 0);
    assert_eq!(p.submit(rec_sized(2, 4, 1, u64::MAX, 0, seq_rule(2), 8)), INVALID_SEQ);
    // the record lies below its account's baseline, which it does not lower
    assert_eq!(p.submit(rec_sized(1, 1, 9, u64::MAX, 0, seq_rule(5), 8)), INVALID_SEQ);
    assert_eq!(p.size(), (0, 1, 8));
    let r = p.get_by_hash(HashValue::new(1, (6u128 << 64) | 1)).unwrap();
    assert_eq!(r.sequence_info, seq_rule(5));
    assert!(!r.ready);
    // a lower baseline changes nothing
    assert_eq!(p.submit(rec_sized(1, 5, 1, u64::MAX, 0, seq_rule(0), 8)), ACCEPTED);
    assert_eq!(p.size(), (2, 0, 16));
    assert_eq!(pull_all(&p)[0].sequence_info, seq_rule(5));
}

#[test]
fn store_lifts_a_baseline() {
    let mut s = TransactionStore::new(BIG, BIG);
    assert_eq!(s.try_admit(rec(1, 0, 1)), ACCEPTED);
    assert_eq!(s.try_admit(rec(1, 2, 1)), ACCEPTED);
    s.raise_baseline(acct(1), 0);
    assert_eq!(s.len(), 2);
    s.raise_baseline(acct(2), 9);
    assert_eq!(s.len(), 2);
    s.raise_baseline(acct(1), 2);
    assert_eq!(s.len(), 1);
    assert_eq!(s.record(0).seq, 2);
    assert!(s.record(0).ready);
    assert_eq!(s.record(0).sequence_info, seq_rule(2));
    s.raise_baseline(acct(1), 1);
    assert_eq!(s.record(0).sequence_info, seq_rule(2));
    s.raise_baseline(acct(1), u64::MAX);
    assert_eq!(s.len(), 0);
}
