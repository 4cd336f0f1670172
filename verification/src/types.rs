//! Plain data carried through the pool: account identities, sequencing
//! keys, per-account sequencing rules and the transaction record itself.

use vstd::prelude::*;

verus! {

/// Identity of an account: a 32-byte address held as two big-endian halves,
/// so that the order of the pair is the byte order of the address.
#[derive(Clone, Copy, Debug, PartialEq, Eq, Structural)]
pub struct AccountAddress {
    pub hi: u128,
    pub lo: u128,
}

/// Strict order on accounts: by `hi`, then by `lo`.
pub open spec fn account_lt(a: AccountAddress, b: AccountAddress) -> bool {
    a.hi < b.hi || (a.hi == b.hi && a.lo < b.lo)
}

impl AccountAddress {
    pub fn new(hi: u128, lo: u128) -> (r: Self)
        ensures
            r == (AccountAddress { hi, lo }),
    {
        AccountAddress { hi, lo }
    }

    pub fn lt(&self, other: &AccountAddress) -> (r: bool)
        ensures
            r == account_lt(*self, *other),
    {
        self.hi < other.hi || (self.hi == other.hi && self.lo < other.lo)
    }
}

/// A 32-byte digest of a signed payload, computed by the caller.
#[derive(Clone, Copy, Debug, PartialEq, Eq, Structural)]
pub struct HashValue {
    pub hi: u128,
    pub lo: u128,
}

impl HashValue {
    pub fn new(hi: u128, lo: u128) -> (r: Self)
        ensures
            r == (HashValue { hi, lo }),
    {
        HashValue { hi, lo }
    }
}

/// The sequencing key of a record: the account and its sequence number or
/// nonce. At most one record occupies a slot.
#[derive(Clone, Copy, Debug, PartialEq, Eq, Structural)]
pub struct SlotKey {
    pub account: AccountAddress,
    pub seq: u64,
}

/// Strict order on slots: by account, then by sequence number.
pub open spec fn slot_lt(a: SlotKey, b: SlotKey) -> bool {
    account_lt(a.account, b.account) || (a.account == b.account && a.seq < b.seq)
}

impl SlotKey {
    pub fn new(account: AccountAddress, seq: u64) -> (r: Self)
        ensures
            r == (SlotKey { account, seq }),
    {
        SlotKey { account, seq }
    }

    pub fn lt(&self, other: &SlotKey) -> (r: bool)
        ensures
            r == slot_lt(*self, *other),
    {
        self.account.lt(&other.account) || (self.account == other.account && self.seq
            < other.seq)
    }
}

/// How an account sequences its transactions, together with the account's
/// committed baseline.
#[derive(Clone, Copy, Debug, PartialEq, Eq, Structural)]
pub enum SequenceInfo {
    /// One slot per sequence number; `next` is the first sequence number
    /// that has not been committed.
    Sequential { next: u64 },
    /// Nonces are eligible inside the window `[min_nonce, min_nonce + range)`.
    SlidingWindow { min_nonce: u64, range: u64 },
}

impl SequenceInfo {
    /// The least sequence number or nonce that is still of interest.
    pub open spec fn baseline(self) -> u64 {
        match self {
            SequenceInfo::Sequential { next } => next,
            SequenceInfo::SlidingWindow { min_nonce, .. } => min_nonce,
        }
    }

    /// The same rule with the baseline lifted to at least `floor`.
    pub open spec fn raised(self, floor: u64) -> SequenceInfo {
        match self {
            SequenceInfo::Sequential { next } => SequenceInfo::Sequential {
                next: if next >= floor { next } else { floor },
            },
            SequenceInfo::SlidingWindow { min_nonce, range } => SequenceInfo::SlidingWindow {
                min_nonce: if min_nonce >= floor { min_nonce } else { floor },
                range,
            },
        }
    }

    /// The rule after `commit_key` was committed: the baseline moves past it.
    pub open spec fn advanced(self, commit_key: u64) -> SequenceInfo {
        if commit_key < u64::MAX {
            self.raised((commit_key + 1) as u64)
        } else {
            self.raised(u64::MAX)
        }
    }

    /// The readiness rule of a slot at or above the baseline. `follows_ready`
    /// says whether the slot directly below is occupied by a ready record.
    pub open spec fn ready_rule(self, seq: u64, follows_ready: bool) -> bool {
        match self {
            SequenceInfo::Sequential { next } => seq == next || (seq > next && follows_ready),
            SequenceInfo::SlidingWindow { min_nonce, range } => min_nonce <= seq && seq
                - min_nonce < range,
        }
    }

    pub fn min_seq(&self) -> (r: u64)
        ensures
            r == self.baseline(),
    {
        match self {
            SequenceInfo::Sequential { next } => *next,
            SequenceInfo::SlidingWindow { min_nonce, .. } => *min_nonce,
        }
    }

    pub fn is_sequential(&self) -> (r: bool)
        ensures
            r == (*self is Sequential),
    {
        match self {
            SequenceInfo::Sequential { .. } => true,
            SequenceInfo::SlidingWindow { .. } => false,
        }
    }

    pub fn raise(&self, floor: u64) -> (r: SequenceInfo)
        ensures
            r == self.raised(floor),
    {
        match self {
            SequenceInfo::Sequential { next } => SequenceInfo::Sequential {
                next: if *next >= floor { *next } else { floor },
            },
            SequenceInfo::SlidingWindow { min_nonce, range } => SequenceInfo::SlidingWindow {
                min_nonce: if *min_nonce >= floor { *min_nonce } else { floor },
                range: *range,
            },
        }
    }

    pub fn advance(&self, commit_key: u64) -> (r: SequenceInfo)
        ensures
            r == self.advanced(commit_key),
    {
        if commit_key < u64::MAX {
            self.raise(commit_key + 1)
        } else {
            self.raise(u64::MAX)
        }
    }

    pub fn is_ready(&self, seq: u64, follows_ready: bool) -> (r: bool)
        ensures
            r == self.ready_rule(seq, follows_ready),
    {
        match self {
            SequenceInfo::Sequential { next } => seq == *next || (seq > *next && follows_ready),
            SequenceInfo::SlidingWindow { min_nonce, range } => *min_nonce <= seq && seq
                - *min_nonce < *range,
        }
    }
}

/// Where a record stands with respect to the broadcast timeline.
#[derive(Clone, Copy, Debug, PartialEq, Eq, Structural)]
pub enum TimelineState {
    /// Not on the timeline: the record is blocked, or waits for a position.
    NotReady,
    /// On the timeline at this position.
    Ready(u64),
    /// Never placed on the timeline, whatever its readiness.
    NonQualified,
}

/// Why a submission was turned down.
#[derive(Clone, Copy, Debug, PartialEq, Eq, Structural)]
pub enum RejectReason {
    /// The slot is occupied by a record that the submission does not outbid.
    InvalidUpdate,
    /// A ceiling is reached and no eviction makes room.
    MempoolFull,
    /// The sequence number lies below the account's baseline.
    InvalidSeqNumber,
}

/// The outcome of a submission.
#[derive(Clone, Copy, Debug, PartialEq, Eq, Structural)]
pub enum AdmissionResult {
    Accepted,
    Rejected(RejectReason),
}

impl AdmissionResult {
    pub fn is_accepted(&self) -> (r: bool)
        ensures
            r == (*self == AdmissionResult::Accepted),
    {
        match self {
            AdmissionResult::Accepted => true,
            AdmissionResult::Rejected(_) => false,
        }
    }
}

/// One admitted transaction.
#[derive(Clone, Debug, PartialEq, Eq)]
pub struct TransactionRecord {
    pub account: AccountAddress,
    pub seq: u64,
    pub payload: Vec<u8>,
    pub hash: HashValue,
    pub ranking_score: u64,
    pub expiration: u64,
    pub admitted_at: u64,
    pub sequence_info: SequenceInfo,
    pub timeline_state: TimelineState,
    pub ready: bool,
}

/// The mathematical value of a record.
pub struct RecordView {
    pub account: AccountAddress,
    pub seq: u64,
    pub payload: Seq<u8>,
    pub hash: HashValue,
    pub ranking_score: u64,
    pub expiration: u64,
    pub admitted_at: u64,
    pub sequence_info: SequenceInfo,
    pub timeline_state: TimelineState,
    pub ready: bool,
}

impl RecordView {
    pub open spec fn slot(self) -> SlotKey {
        SlotKey { account: self.account, seq: self.seq }
    }

    /// The size that the byte ceiling counts: the length of the payload.
    pub open spec fn bytes(self) -> nat {
        self.payload.len()
    }

    /// Whether the record may ever be placed on the timeline.
    pub open spec fn qualified(self) -> bool {
        !(self.timeline_state is NonQualified)
    }

    /// What was submitted, without what the pool derives: two records with
    /// the same `submitted` value differ at most in readiness, timeline
    /// position and the baseline recorded for their account.
    pub open spec fn submitted(self) -> RecordView {
        RecordView {
            sequence_info: SequenceInfo::Sequential { next: 0 },
            timeline_state: if self.qualified() {
                TimelineState::NotReady
            } else {
                TimelineState::NonQualified
            },
            ready: false,
            ..self
        }
    }
}

impl View for TransactionRecord {
    type V = RecordView;

    open spec fn view(&self) -> RecordView {
        RecordView {
            account: self.account,
            seq: self.seq,
            payload: self.payload@,
            hash: self.hash,
            ranking_score: self.ranking_score,
            expiration: self.expiration,
            admitted_at: self.admitted_at,
            sequence_info: self.sequence_info,
            timeline_state: self.timeline_state,
            ready: self.ready,
        }
    }
}

/// Whether two byte strings are equal.
pub fn bytes_equal(a: &Vec<u8>, b: &Vec<u8>) -> (r: bool)
    ensures
        r == (a@ == b@),
{
    if a.len() != b.len() {
        return false;
    }
    let mut i: usize = 0;
    while i < a.len()
        invariant
            i <= a.len(),
            a.len() == b.len(),
            forall|j: int| 0 <= j < i ==> a@[j] == b@[j],
        decreases a.len() - i,
    {
        if a[i] != b[i] {
            return false;
        }
        i += 1;
    }
    assert(a@ =~= b@);
    true
}

/// A copy of a byte string.
pub fn bytes_copy(a: &Vec<u8>) -> (r: Vec<u8>)
    ensures
        r@ == a@,
{
    let mut out: Vec<u8> = Vec::with_capacity(a.len());
    let mut i: usize = 0;
    while i < a.len()
        invariant
            i <= a.len(),
            out@ == a@.take(i as int),
        decreases a.len() - i,
    {
        out.push(a[i]);
        assert(a@.take(i as int).push(a@[i as int]) =~= a@.take(i + 1));
        i += 1;
    }
    assert(a@.take(a.len() as int) =~= a@);
    out
}

impl TransactionRecord {
    /// A record as it is submitted: blocked, and off the timeline.
    /// `timeline_state` other than `NonQualified` counts as `NotReady`.
    pub fn new(
        account: AccountAddress,
        seq: u64,
        payload: Vec<u8>,
        hash: HashValue,
        ranking_score: u64,
        expiration: u64,
        admitted_at: u64,
        sequence_info: SequenceInfo,
        timeline_state: TimelineState,
    ) -> (r: Self)
        ensures
            r@ == (RecordView {
                account,
                seq,
                payload: payload@,
                hash,
                ranking_score,
                expiration,
                admitted_at,
                sequence_info,
                timeline_state: if timeline_state is NonQualified {
                    TimelineState::NonQualified
                } else {
                    TimelineState::NotReady
                },
                ready: false,
            }),
    {
        let timeline_state = match timeline_state {
            TimelineState::NonQualified => TimelineState::NonQualified,
            _ => TimelineState::NotReady,
        };
        TransactionRecord {
            account,
            seq,
            payload,
            hash,
            ranking_score,
            expiration,
            admitted_at,
            sequence_info,
            timeline_state,
            ready: false,
        }
    }

    pub fn slot(&self) -> (r: SlotKey)
        ensures
            r == self@.slot(),
    {
        SlotKey { account: self.account, seq: self.seq }
    }

    pub fn bytes(&self) -> (r: usize)
        ensures
            r == self@.bytes(),
    {
        self.payload.len()
    }

    pub fn is_qualified(&self) -> (r: bool)
        ensures
            r == self@.qualified(),
    {
        match self.timeline_state {
            TimelineState::NonQualified => false,
            _ => true,
        }
    }

    /// A copy of the record.
    pub fn copied(&self) -> (r: Self)
        ensures
            r@ == self@,
    {
        TransactionRecord {
            account: self.account,
            seq: self.seq,
            payload: bytes_copy(&self.payload),
            hash: self.hash,
            ranking_score: self.ranking_score,
            expiration: self.expiration,
            admitted_at: self.admitted_at,
            sequence_info: self.sequence_info,
            timeline_state: self.timeline_state,
            ready: self.ready,
        }
    }
}

} // verus!
