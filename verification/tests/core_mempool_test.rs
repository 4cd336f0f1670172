use core_mempool::mempool::CoreMempool;
use core_mempool::ttl_cache::TtlCache;
use core_mempool::types::{
    AccountAddress, AdmissionResult, HashValue, RejectReason, SequenceInfo, TimelineState,
    TransactionRecord,
};

const CAPACITY: usize = 1_000_000;
const CAPACITY_BYTES: usize = 2 * 1024 * 1024 * 1024;
const CACHE_TIMEOUT: u64 = 1_000_000;
const WINDOW: u64 = 128;

fn get_address(i: usize) -> AccountAddress {
    AccountAddress::new(7, 1000 + i as u128)
}

#[derive(Clone, Debug, PartialEq, Eq)]
struct SignedTransaction {
    sender: AccountAddress,
    sequence_number: u64,
    gas_unit_price: u64,
    max_gas_amount: u64,
    expiration_timestamp_secs: u64,
}

impl SignedTransaction {
    fn sender(&self) -> AccountAddress {
        self.sender
    }

    fn sequence_number(&self) -> u64 {
        self.sequence_number
    }

    fn gas_unit_price(&self) -> u64 {
        self.gas_unit_price
    }

    fn payload(&self) -> Vec<u8> {
        let mut bytes = Vec::new();
        bytes.extend_from_slice(&self.sender.hi.to_be_bytes());
        bytes.extend_from_slice(&self.sender.lo.to_be_bytes());
        bytes.extend_from_slice(&self.sequence_number.to_be_bytes());
        bytes.extend_from_slice(&self.gas_unit_price.to_be_bytes());
        bytes.extend_from_slice(&self.max_gas_amount.to_be_bytes());
        bytes.extend_from_slice(&self.expiration_timestamp_secs.to_be_bytes());
        bytes
    }

    fn raw_txn_bytes_len(&self) -> usize {
        self.payload().len()
    }

    fn committed_hash(&self) -> HashValue {
        let mut hi: u128 = 0x6c62272e07bb014262b821756295c58d;
        let mut lo: u128 = 0x9e3779b97f4a7c15f39cc0605cedc834;
        for b in self.payload() {
            hi = (hi ^ b as u128).wrapping_mul(0x0000000001000000000000000000013b);
            lo = (lo.rotate_left(9) ^ b as u128).wrapping_mul(0x2545f4914f6cdd1d);
        }
        HashValue::new(hi, lo)
    }

    fn from_record(r: &TransactionRecord) -> Self {
        let p = &r.payload;
        let word = |at: usize| {
            let mut w = [0u8; 8];
            w.copy_from_slice(&p[at..at + 8]);
            u64::from_be_bytes(w)
        };
        SignedTransaction {
            sender: r.account,
            sequence_number: word(32),
            gas_unit_price: word(40),
            max_gas_amount: word(48),
            expiration_timestamp_secs: word(56),
        }
    }

    fn record(&self, info: SequenceInfo, admitted_at: u64) -> TransactionRecord {
        TransactionRecord::new(
            self.sender,
            self.sequence_number,
            self.payload(),
            self.committed_hash(),
            self.gas_unit_price,
            self.expiration_timestamp_secs,
            admitted_at,
            info,
            TimelineState::NotReady,
        )
    }
}

#[derive(Clone)]
struct TestTransaction {
    address: usize,
    sequence_number: u64,
    gas_price: u64,
    account_seqno_type: SequenceInfo,
}

impl TestTransaction {
    fn new(address: usize, sequence_number: u64, gas_price: u64) -> Self {
        Self {
            address,
            sequence_number,
            gas_price,
            account_seqno_type: SequenceInfo::Sequential { next: 0 },
        }
    }

    fn crsn(mut self, min_nonce: u64) -> Self {
        self.account_seqno_type = SequenceInfo::SlidingWindow { min_nonce, range: WINDOW };
        self
    }

    fn make_signed_transaction_with_expiration_time(&self, t: u64) -> SignedTransaction {
        self.make_signed_transaction_impl(100, t)
    }

    fn make_signed_transaction_with_max_gas_amount(&self, max_gas_amount: u64) -> SignedTransaction {
        self.make_signed_transaction_impl(max_gas_amount, u64::MAX)
    }

    fn make_signed_transaction(&self) -> SignedTransaction {
        self.make_signed_transaction_impl(100, u64::MAX)
    }

    fn make_signed_transaction_impl(&self, max_gas_amount: u64, t: u64) -> SignedTransaction {
        SignedTransaction {
            sender: get_address(self.address),
            sequence_number: self.sequence_number,
            gas_unit_price: self.gas_price,
            max_gas_amount,
            expiration_timestamp_secs: t,
        }
    }
}

struct ConsensusMock(Vec<HashValue>);

impl ConsensusMock {
    fn new() -> Self {
        ConsensusMock(Vec::new())
    }

    fn get_block(
        &mut self,
        pool: &mut CoreMempool,
        max_txns: u64,
        max_bytes: u64,
    ) -> Vec<SignedTransaction> {
        let block = pool.pull_batch(max_txns, max_bytes, &self.0);
        for r in &block {
            self.0.push(r.hash);
        }
        block.iter().map(SignedTransaction::from_record).collect()
    }
}

fn new_pool(capacity: usize, capacity_bytes: usize) -> CoreMempool {
    CoreMempool::new(capacity, capacity_bytes, CAPACITY, CACHE_TIMEOUT)
}

fn setup_mempool() -> (CoreMempool, ConsensusMock) {
    (new_pool(CAPACITY, CAPACITY_BYTES), ConsensusMock::new())
}

fn add_txns_to_mempool(pool: &mut CoreMempool, txns: Vec<TestTransaction>) -> Vec<SignedTransaction> {
    let mut transactions = vec![];
    for transaction in txns {
        let txn = transaction.make_signed_transaction();
        pool.submit(txn.record(transaction.account_seqno_type, 0));
        transactions.push(txn);
    }
    transactions
}

fn add_txn(pool: &mut CoreMempool, transaction: TestTransaction) -> Result<(), String> {
    add_signed_txn(pool, transaction.make_signed_transaction())
}

fn add_signed_txn(pool: &mut CoreMempool, transaction: SignedTransaction) -> Result<(), String> {
    add_signed_txn_at(pool, transaction, 0)
}

fn add_signed_txn_at(
    pool: &mut CoreMempool,
    transaction: SignedTransaction,
    admitted_at: u64,
) -> Result<(), String> {
    match pool.submit(transaction.record(SequenceInfo::Sequential { next: 0 }, admitted_at)) {
        AdmissionResult::Accepted => Ok(()),
        AdmissionResult::Rejected(reason) => Err(format!("insertion failure: {:?}", reason)),
    }
}

fn batch(pool: &CoreMempool, max_txns: u64, max_bytes: u64) -> Vec<SignedTransaction> {
    pool.pull_batch(max_txns, max_bytes, &Vec::new())
        .iter()
        .map(SignedTransaction::from_record)
        .collect()
}

fn timeline_seqs(pool: &CoreMempool, from: u64, count: usize) -> Vec<u64> {
    pool.read_timeline(from, count).0.iter().map(|r| r.seq).collect()
}

#[test]
fn test_transaction_ordering_only_seqnos() {
    let (mut mempool, mut consensus) = setup_mempool();

    // Default ordering: gas price
    let mut transactions = add_txns_to_mempool(
        &mut mempool,
        vec![TestTransaction::new(0, 0, 3), TestTransaction::new(1, 0, 5)],
    );
    assert_eq!(
        consensus.get_block(&mut mempool, 1, 1024),
        vec!(transactions[1].clone())
    );
    assert_eq!(
        consensus.get_block(&mut mempool, 1, 1024),
        vec!(transactions[0].clone())
    );

    // Second level ordering: expiration time, then the slot
    let (mut mempool, mut consensus) = setup_mempool();
    transactions = add_txns_to_mempool(
        &mut mempool,
        vec![TestTransaction::new(0, 0, 1), TestTransaction::new(1, 0, 1)],
    );
    for transaction in &transactions {
        assert_eq!(
            consensus.get_block(&mut mempool, 1, 1024),
            vec![transaction.clone()]
        );
    }

    // Within one account the ready records come out in the priority order
    // too: the score decides before the sequence number does.
    let (mut mempool, mut consensus) = setup_mempool();
    transactions = add_txns_to_mempool(
        &mut mempool,
        vec![
            TestTransaction::new(1, 0, 7),
            TestTransaction::new(1, 1, 5),
            TestTransaction::new(1, 2, 1),
            TestTransaction::new(1, 3, 6),
        ],
    );
    for i in [0usize, 3, 1, 2] {
        assert_eq!(
            consensus.get_block(&mut mempool, 1, 1024),
            vec![transactions[i].clone()]
        );
    }
}

#[test]
fn test_transaction_ordering_only_crsns() {
    let (mut mempool, mut consensus) = setup_mempool();

    // Default ordering: gas price
    let mut transactions = add_txns_to_mempool(
        &mut mempool,
        vec![
            TestTransaction::new(0, 0, 3).crsn(0),
            TestTransaction::new(1, 0, 5).crsn(0),
        ],
    );
    assert_eq!(
        consensus.get_block(&mut mempool, 1, 1024),
        vec!(transactions[1].clone())
    );
    assert_eq!(
        consensus.get_block(&mut mempool, 1, 1024),
        vec!(transactions[0].clone())
    );

    // Second level ordering: expiration time
    let (mut mempool, mut consensus) = setup_mempool();
    transactions = add_txns_to_mempool(
        &mut mempool,
        vec![
            TestTransaction::new(0, 0, 1).crsn(0),
            TestTransaction::new(1, 0, 1).crsn(0),
        ],
    );
    for transaction in &transactions {
        assert_eq!(
            consensus.get_block(&mut mempool, 1, 1024),
            vec![transaction.clone()]
        );
    }

    // Last level: for same account it should be highest gas price
    // first with ties broken for lowest sequence nonce
    let (mut mempool, mut consensus) = setup_mempool();
    transactions = add_txns_to_mempool(
        &mut mempool,
        vec![
            TestTransaction::new(1, 0, 7).crsn(0),
            TestTransaction::new(1, 4, 6).crsn(0),
            TestTransaction::new(1, 1, 5).crsn(0),
            TestTransaction::new(1, 2, 5).crsn(0),
            TestTransaction::new(1, 3, 1).crsn(0),
        ],
    );
    for transaction in &transactions {
        assert_eq!(
            consensus.get_block(&mut mempool, 1, 1024),
            vec![transaction.clone()]
        );
    }
}

#[test]
fn test_transaction_nonblocking_crsns() {
    let (mut mempool, mut consensus) = setup_mempool();

    // no transaction with sequence number 1 sent, but the transactions won't block on it.
    let transactions = add_txns_to_mempool(
        &mut mempool,
        vec![
            TestTransaction::new(1, 0, 7).crsn(0),
            TestTransaction::new(1, 4, 6).crsn(0),
            TestTransaction::new(1, 2, 5).crsn(0),
            TestTransaction::new(1, 3, 1).crsn(0),
        ],
    );
    for transaction in &transactions {
        assert_eq!(
            consensus.get_block(&mut mempool, 1, 1024),
            vec![transaction.clone()]
        );
    }
}

#[test]
fn test_transaction_eviction_crsns() {
    let (mut mempool, mut consensus) = setup_mempool();

    let to_be_removed_txns = add_txns_to_mempool(
        &mut mempool,
        vec![
            TestTransaction::new(1, 2, 5).crsn(0),
            TestTransaction::new(1, 0, 7).crsn(0),
        ],
    );
    let transactions = add_txns_to_mempool(
        &mut mempool,
        vec![
            TestTransaction::new(1, 4, 6).crsn(3),
            TestTransaction::new(1, 3, 1).crsn(3),
        ],
    );

    for transaction in &transactions {
        assert_eq!(
            consensus.get_block(&mut mempool, 1, 1024),
            vec![transaction.clone()]
        );
    }

    // These transactions should have been evicted because the account's min_nonce got bumped
    for _transaction in &to_be_removed_txns {
        assert_eq!(consensus.get_block(&mut mempool, 1, 1024), vec![]);
    }
}

fn exist_in_metrics_cache(mempool: &CoreMempool, txn: &SignedTransaction) -> bool {
    mempool
        .first_seen(txn.sender(), txn.sequence_number())
        .is_some()
}

#[test]
fn test_metric_cache_add_local_txns() {
    let (mut mempool, _) = setup_mempool();
    let txns = add_txns_to_mempool(
        &mut mempool,
        vec![TestTransaction::new(0, 0, 1), TestTransaction::new(1, 0, 2)],
    );
    // Check txns' timestamps exist in metrics_cache.
    assert_eq!(exist_in_metrics_cache(&mempool, &txns[0]), true);
    assert_eq!(exist_in_metrics_cache(&mempool, &txns[1]), true);
}

#[test]
fn test_update_transaction_in_mempool() {
    let (mut mempool, mut consensus) = setup_mempool();
    let txns = add_txns_to_mempool(
        &mut mempool,
        vec![TestTransaction::new(0, 0, 1), TestTransaction::new(1, 0, 2)],
    );
    let fixed_txns = add_txns_to_mempool(&mut mempool, vec![TestTransaction::new(0, 0, 5)]);

    // Check that first transactions pops up first
    assert_eq!(
        consensus.get_block(&mut mempool, 1, 1024),
        vec![fixed_txns[0].clone()]
    );
    assert_eq!(
        consensus.get_block(&mut mempool, 1, 1024),
        vec![txns[1].clone()]
    );
}

#[test]
fn test_update_transaction_in_mempool_crsn() {
    let (mut mempool, mut consensus) = setup_mempool();
    let txns = add_txns_to_mempool(
        &mut mempool,
        vec![
            TestTransaction::new(0, 0, 1).crsn(0),
            TestTransaction::new(1, 0, 2).crsn(0),
        ],
    );
    let fixed_txns = add_txns_to_mempool(&mut mempool, vec![TestTransaction::new(0, 0, 5).crsn(0)]);

    // Check that first transactions pops up first
    assert_eq!(
        consensus.get_block(&mut mempool, 1, 1024),
        vec![fixed_txns[0].clone()]
    );
    assert_eq!(
        consensus.get_block(&mut mempool, 1, 1024),
        vec![txns[1].clone()]
    );
}

#[test]
fn test_ignore_same_transaction_submitted_to_mempool() {
    let (mut mempool, _) = setup_mempool();
    let _ = add_txns_to_mempool(&mut mempool, vec![TestTransaction::new(0, 0, 0)]);
    let ret = add_txn(&mut mempool, TestTransaction::new(0, 0, 0));
    assert!(ret.is_ok())
}

#[test]
fn test_ignore_same_transaction_submitted_to_mempool_crsn() {
    let (mut mempool, _) = setup_mempool();
    let _ = add_txns_to_mempool(&mut mempool, vec![TestTransaction::new(0, 0, 0).crsn(0)]);
    let ret = add_txn(&mut mempool, TestTransaction::new(0, 0, 0).crsn(0));
    assert!(ret.is_ok())
}

#[test]
fn test_fail_for_same_gas_amount_and_not_same_expiration_time() {
    let (mut mempool, _) = setup_mempool();
    let _ = add_txns_to_mempool(&mut mempool, vec![TestTransaction::new(0, 0, 0)]);
    let txn = TestTransaction::new(0, 0, 0)
        .make_signed_transaction_with_expiration_time(u64::max_value() - 1000);
    let ret = add_signed_txn(&mut mempool, txn);
    assert!(ret.is_err())
}

#[test]
fn test_fail_for_same_gas_amount_and_not_same_expiration_time_crsn() {
    let (mut mempool, _) = setup_mempool();
    let _ = add_txns_to_mempool(&mut mempool, vec![TestTransaction::new(0, 0, 0).crsn(0)]);
    let txn = TestTransaction::new(0, 0, 0)
        .crsn(0)
        .make_signed_transaction_with_expiration_time(u64::max_value() - 1000);
    let ret = add_signed_txn(&mut mempool, txn);
    assert!(ret.is_err())
}

#[test]
fn test_update_invalid_transaction_in_mempool() {
    let (mut mempool, mut consensus) = setup_mempool();
    let txns = add_txns_to_mempool(
        &mut mempool,
        vec![TestTransaction::new(0, 0, 1), TestTransaction::new(1, 0, 2)],
    );
    let updated_txn = TestTransaction::make_signed_transaction_with_max_gas_amount(
        &TestTransaction::new(0, 0, 5),
        200,
    );
    let added_txn = add_signed_txn(&mut mempool, updated_txn.clone());

    // The update raises the score: it takes the slot, whatever else it
    // changes, and comes first.
    assert!(added_txn.is_ok());
    assert_eq!(
        consensus.get_block(&mut mempool, 1, 1024),
        vec![updated_txn.clone()]
    );
    let next_txn = consensus.get_block(&mut mempool, 1, 1024);
    assert_eq!(next_txn, vec![txns[1].clone()]);
    assert_eq!(next_txn[0].gas_unit_price(), 2);
    assert_eq!(consensus.get_block(&mut mempool, 1, 1024), vec![]);
}

#[test]
fn test_update_invalid_transaction_in_mempool_crsn() {
    let (mut mempool, mut consensus) = setup_mempool();
    let txns = add_txns_to_mempool(
        &mut mempool,
        vec![
            TestTransaction::new(0, 0, 1).crsn(0),
            TestTransaction::new(1, 0, 2).crsn(0),
        ],
    );
    let updated_txn = TestTransaction::make_signed_transaction_with_max_gas_amount(
        &TestTransaction::new(0, 0, 5).crsn(0),
        200,
    );
    let added_txn = add_signed_txn(&mut mempool, updated_txn.clone());

    // The update raises the score: it takes the slot, whatever else it
    // changes, and comes first.
    assert!(added_txn.is_ok());
    assert_eq!(
        consensus.get_block(&mut mempool, 1, 1024),
        vec![updated_txn.clone()]
    );
    let next_txn = consensus.get_block(&mut mempool, 1, 1024);
    assert_eq!(next_txn, vec![txns[1].clone()]);
    assert_eq!(next_txn[0].gas_unit_price(), 2);
    assert_eq!(consensus.get_block(&mut mempool, 1, 1024), vec![]);
}

#[test]
fn test_remove_transaction() {
    let (mut pool, mut consensus) = setup_mempool();

    // Test normal flow.
    let txns = add_txns_to_mempool(
        &mut pool,
        vec![TestTransaction::new(0, 0, 1), TestTransaction::new(0, 1, 2)],
    );
    for txn in txns {
        pool.notify_commit(txn.sender(), txn.sequence_number(), 0);
    }
    let new_txns = add_txns_to_mempool(
        &mut pool,
        vec![TestTransaction::new(1, 0, 3), TestTransaction::new(1, 1, 4)],
    );
    // Should return only txns from new_txns, the better score first.
    assert_eq!(
        consensus.get_block(&mut pool, 1, 1024),
        vec!(new_txns[1].clone())
    );
    assert_eq!(
        consensus.get_block(&mut pool, 1, 1024),
        vec!(new_txns[0].clone())
    );
}

#[test]
fn test_remove_transaction_crsn() {
    let (mut pool, mut consensus) = setup_mempool();

    // Test normal flow.
    let txns = add_txns_to_mempool(
        &mut pool,
        vec![
            TestTransaction::new(0, 0, 1).crsn(0),
            TestTransaction::new(0, 1, 2).crsn(0),
        ],
    );
    for txn in txns {
        pool.notify_commit(txn.sender(), txn.sequence_number(), 0);
    }
    let new_txns = add_txns_to_mempool(
        &mut pool,
        vec![
            TestTransaction::new(1, 1, 4).crsn(0),
            TestTransaction::new(1, 0, 3).crsn(0),
        ],
    );
    // Should return only txns from new_txns.
    assert_eq!(
        consensus.get_block(&mut pool, 1, 1024),
        vec!(new_txns[0].clone())
    );
    assert_eq!(
        consensus.get_block(&mut pool, 1, 1024),
        vec!(new_txns[1].clone())
    );
}

#[test]
fn test_system_ttl() {
    let mut mempool = new_pool(CAPACITY, CAPACITY_BYTES);

    // Admitted at time 0.
    add_signed_txn_at(
        &mut mempool,
        TestTransaction::new(0, 0, 10).make_signed_transaction(),
        0,
    )
    .unwrap();

    // Admitted at time 100. Should be valid for 10 seconds.
    let transaction = TestTransaction::new(1, 0, 1);
    add_signed_txn_at(&mut mempool, transaction.make_signed_transaction(), 100).unwrap();

    // GC routine should clear transaction from first insert but keep last one.
    mempool.gc_by_age(10, 105);
    let batch = batch(&mempool, 1, 1024);
    assert_eq!(vec![transaction.make_signed_transaction()], batch);
}

#[test]
fn test_commit_callback() {
    // Consensus commit callback should unlock txns in parking lot.
    let mut pool = setup_mempool().0;
    // Insert transaction with sequence number 6 to pool (while last known executed transaction is 0).
    let txns = add_txns_to_mempool(&mut pool, vec![TestTransaction::new(1, 6, 1)]);

    // Check that pool is empty.
    assert!(batch(&pool, 1, 1024).is_empty());
    // Transaction 5 got back from consensus.
    pool.notify_commit(get_address(1), 5, 0);
    // Verify that we can execute transaction 6.
    assert_eq!(batch(&pool, 1, 1024)[0], txns[0]);
}

#[test]
fn test_sequence_number_cache() {
    // Checks potential race where StateDB is lagging.
    let mut pool = setup_mempool().0;
    // Callback from consensus should set current sequence number for account.
    pool.notify_commit(get_address(1), 5, 0);

    // Try to add transaction with sequence number 6 to pool (while last known executed transaction
    // for AC is 0).
    add_txns_to_mempool(&mut pool, vec![TestTransaction::new(1, 6, 1)]);
    // Verify that we can execute transaction 6.
    assert_eq!(batch(&pool, 1, 1024).len(), 1);
}

#[test]
fn test_reset_sequence_number_on_failure() {
    let mut pool = setup_mempool().0;
    // Add two transactions for account.
    add_txns_to_mempool(
        &mut pool,
        vec![TestTransaction::new(1, 0, 1), TestTransaction::new(1, 1, 1)],
    );

    // Notify mempool about failure in arbitrary order
    pool.notify_reject(get_address(1), 0);
    pool.notify_reject(get_address(1), 1);

    // Verify that new transaction for this account can be added.
    assert!(add_txn(&mut pool, TestTransaction::new(1, 0, 1)).is_ok());
}

#[test]
fn test_timeline() {
    let mut pool = setup_mempool().0;
    add_txns_to_mempool(
        &mut pool,
        vec![
            TestTransaction::new(1, 0, 1),
            TestTransaction::new(1, 1, 1),
            TestTransaction::new(1, 3, 1),
            TestTransaction::new(1, 5, 1),
        ],
    );
    assert_eq!(timeline_seqs(&pool, 0, 10), vec![0, 1]);
    // Txns 3 and 5 should be in parking lot.
    assert_eq!(2, pool.get_parking_lot_size());

    // Add txn 2 to unblock txn3.
    add_txns_to_mempool(&mut pool, vec![TestTransaction::new(1, 2, 1)]);
    assert_eq!(timeline_seqs(&pool, 0, 10), vec![0, 1, 2, 3]);
    // Txn 5 should be in parking lot.
    assert_eq!(1, pool.get_parking_lot_size());

    // Try different start read position.
    assert_eq!(timeline_seqs(&pool, 2, 10), vec![2, 3]);

    // Simulate callback from consensus to unblock txn 5.
    pool.notify_commit(get_address(1), 4, 0);
    assert_eq!(timeline_seqs(&pool, 0, 10), vec![5]);
    // check parking lot is empty
    assert_eq!(0, pool.get_parking_lot_size());
}

#[test]
fn test_capacity() {
    let mut pool = new_pool(1, CAPACITY_BYTES);

    // Error on exceeding limit.
    add_txn(&mut pool, TestTransaction::new(1, 0, 1)).unwrap();
    assert!(add_txn(&mut pool, TestTransaction::new(1, 1, 1)).is_err());

    // Commit transaction and free space.
    pool.notify_commit(get_address(1), 0, 0);
    assert!(add_txn(&mut pool, TestTransaction::new(1, 1, 1)).is_ok());

    // Fill it up and check that GC routine will clear space.
    assert!(add_txn(&mut pool, TestTransaction::new(1, 2, 1)).is_err());
    pool.gc_by_age(0, 0);
    assert!(add_txn(&mut pool, TestTransaction::new(1, 2, 1)).is_ok());
}

#[test]
fn test_capacity_bytes() {
    let capacity_bytes = 2_048;

    // Get transactions to add.
    let address = 1;
    let mut size_bytes: usize = 0;
    let mut seq_no = 1_000;
    let mut txns = vec![];
    let last_txn;
    loop {
        let txn = new_test_mempool_transaction(address, seq_no);
        let txn_bytes = txn.payload.len();

        if size_bytes <= capacity_bytes {
            txns.push(txn);
            seq_no -= 1;
            size_bytes += txn_bytes;
        } else {
            last_txn = Some(txn);
            break;
        }
    }
    assert!(!txns.is_empty());
    assert!(last_txn.is_some());

    // Set exact limit
    let capacity_bytes = size_bytes;

    // The count limit won't be hit.
    let mut pool = new_pool(1_000, capacity_bytes);

    for _i in 0..2 {
        for txn in &txns {
            let status = pool.submit(txn.copied());
            assert_eq!(status, AdmissionResult::Accepted);
        }

        if let Some(txn) = &last_txn {
            let status = pool.submit(txn.copied());
            assert_eq!(status, AdmissionResult::Rejected(RejectReason::MempoolFull));
        }
        // Check that GC returns size to zero.
        pool.gc_by_age(0, 1);
        assert_eq!(pool.size(), (0, 0, 0));
    }
}

fn new_test_mempool_transaction(address: usize, sequence_number: u64) -> TransactionRecord {
    TestTransaction::new(address, sequence_number, 1)
        .make_signed_transaction()
        .record(SequenceInfo::Sequential { next: 0 }, 1)
}

#[test]
fn test_parking_lot_eviction() {
    let mut pool = new_pool(5, CAPACITY_BYTES);
    // Add transactions with the following sequence numbers to Mempool.
    for seq in &[0, 1, 2, 9, 10] {
        add_txn(&mut pool, TestTransaction::new(1, *seq, 1)).unwrap();
    }
    // Mempool is full. Insert few txns for other account.
    for seq in &[0, 1] {
        add_txn(&mut pool, TestTransaction::new(0, *seq, 1)).unwrap();
    }
    // Make sure that we have correct txns in Mempool.
    let mut txns: Vec<_> = batch(&pool, 5, 5120)
        .iter()
        .map(SignedTransaction::sequence_number)
        .collect();
    txns.sort_unstable();
    assert_eq!(txns, vec![0, 0, 1, 1, 2]);

    // Make sure we can't insert any new transactions, cause parking lot supposed to be empty by now.
    assert!(add_txn(&mut pool, TestTransaction::new(0, 2, 1)).is_err());
}

#[test]
fn test_parking_lot_evict_only_for_ready_txn_insertion() {
    let mut pool = new_pool(6, CAPACITY_BYTES);
    // Add transactions with the following sequence numbers to Mempool.
    for seq in &[0, 1, 2, 9, 10, 11] {
        add_txn(&mut pool, TestTransaction::new(1, *seq, 1)).unwrap();
    }

    // Try inserting for ready txs.
    let ready_seq_nums = vec![3, 4];
    for seq in ready_seq_nums {
        add_txn(&mut pool, TestTransaction::new(1, seq, 1)).unwrap();
    }

    // Make sure that we have correct txns in Mempool.
    let mut txns: Vec<_> = batch(&pool, 5, 5120)
        .iter()
        .map(SignedTransaction::sequence_number)
        .collect();
    txns.sort_unstable();
    assert_eq!(txns, vec![0, 1, 2, 3, 4]);

    // Trying to insert a tx that would not be ready after inserting should fail.
    let not_ready_seq_nums = vec![6, 8, 12, 14];
    for seq in not_ready_seq_nums {
        assert!(add_txn(&mut pool, TestTransaction::new(1, seq, 1)).is_err());
    }
}

#[test]
fn test_gc_ready_transaction() {
    let mut pool = setup_mempool().0;
    add_txn(&mut pool, TestTransaction::new(1, 0, 1)).unwrap();

    // Insert in the middle transaction that's going to be expired.
    let txn = TestTransaction::new(1, 1, 1).make_signed_transaction_with_expiration_time(0);
    pool.submit(txn.record(SequenceInfo::Sequential { next: 0 }, 0));

    // Insert few transactions after it.
    // They are supposed to be ready because there's a sequential path from 0 to them.
    add_txn(&mut pool, TestTransaction::new(1, 2, 1)).unwrap();
    add_txn(&mut pool, TestTransaction::new(1, 3, 1)).unwrap();

    // Check that all txns are ready.
    let (timeline, _) = pool.read_timeline(0, 10);
    assert_eq!(timeline.len(), 4);

    // GC expired transaction.
    pool.evict_expired(1);

    // Make sure txns 2 and 3 became not ready and we can't read them from any API.
    let block = batch(&pool, 1, 1024);
    assert_eq!(block.len(), 1);
    assert_eq!(block[0].sequence_number(), 0);

    let (timeline, _) = pool.read_timeline(0, 10);
    assert_eq!(timeline.len(), 1);
    assert_eq!(timeline[0].seq, 0);
}

#[test]
fn test_clean_stuck_transactions() {
    let mut pool = setup_mempool().0;
    for seq in 0..5 {
        add_txn(&mut pool, TestTransaction::new(0, seq, 1)).unwrap();
    }
    let db_sequence_number = 10;
    let txn = TestTransaction::new(0, db_sequence_number, 1).make_signed_transaction();
    pool.submit(txn.record(SequenceInfo::Sequential { next: db_sequence_number }, 0));
    let block = batch(&pool, 1, 1024);
    assert_eq!(block.len(), 1);
    assert_eq!(block[0].sequence_number(), 10);
}

#[test]
fn test_ttl_cache() {
    let mut cache: TtlCache<u64, u64> = TtlCache::new(2, 1);
    // Test basic insertion.
    cache.insert(1, 1, 0);
    cache.insert(1, 2, 0);
    cache.insert(2, 2, 0);
    cache.insert(1, 3, 0);
    assert_eq!(cache.get(&1), Some(&3));
    assert_eq!(cache.get(&2), Some(&2));
    assert_eq!(cache.size(), 2);
    // Test reaching max capacity.
    cache.insert(3, 3, 0);
    assert_eq!(cache.size(), 2);
    assert_eq!(cache.get(&1), Some(&3));
    assert_eq!(cache.get(&3), Some(&3));
    assert_eq!(cache.get(&2), None);
    // Test ttl functionality.
    cache.gc(10);
    assert_eq!(cache.size(), 0);
}

#[test]
fn test_get_transaction_by_hash() {
    let mut pool = setup_mempool().0;
    let db_sequence_number = 10;
    let txn = TestTransaction::new(0, db_sequence_number, 1).make_signed_transaction();
    pool.submit(txn.record(SequenceInfo::Sequential { next: db_sequence_number }, 0));
    let hash = txn.clone().committed_hash();
    let ret = pool.get_by_hash(hash).map(SignedTransaction::from_record);
    assert_eq!(ret, Some(txn));

    let ret = pool.get_by_hash(HashValue::new(0xdead, 0xbeef));
    assert!(ret.is_none());
}

#[test]
fn test_get_transaction_by_hash_after_the_txn_is_updated() {
    let mut pool = setup_mempool().0;
    let db_sequence_number = 10;
    let txn = TestTransaction::new(0, db_sequence_number, 1).make_signed_transaction();
    pool.submit(txn.record(SequenceInfo::Sequential { next: db_sequence_number }, 0));
    let hash = txn.committed_hash();

    // new txn with higher gas price
    let new_txn = TestTransaction::new(0, db_sequence_number, 100).make_signed_transaction();
    pool.submit(new_txn.record(SequenceInfo::Sequential { next: db_sequence_number }, 0));
    let new_txn_hash = new_txn.clone().committed_hash();

    let txn_by_old_hash = pool.get_by_hash(hash);
    assert!(txn_by_old_hash.is_none());

    let txn_by_new_hash = pool.get_by_hash(new_txn_hash).map(SignedTransaction::from_record);
    assert_eq!(txn_by_new_hash, Some(new_txn));
}

#[test]
fn test_bytes_limit() {
    let mut pool = new_pool(100, CAPACITY_BYTES);
    // add 100 transacionts
    for seq in 0..100 {
        add_txn(&mut pool, TestTransaction::new(1, seq, 1)).unwrap();
    }
    let get_all = batch(&pool, 100, 100 * 1024);
    assert_eq!(get_all.len(), 100);
    let txn_size = get_all[0].raw_txn_bytes_len() as u64;
    let limit = 10;
    let hit_limit = batch(&pool, 100, txn_size * limit);
    assert_eq!(hit_limit.len(), limit as usize);
}
