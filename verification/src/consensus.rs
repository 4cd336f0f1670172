//! What the pool answers to consensus when a proposer asks for a block.

use crate::mempool::CoreMempool;
use crate::model::{candidates, pulled, views};
use crate::types::{HashValue, RecordView, TransactionRecord};
use vstd::prelude::*;

verus! {

/// The content of a proposed block.
#[derive(Debug)]
pub enum Payload {
    /// Transactions taken directly from the pool, in the order of the pull.
    DirectMempool(Vec<TransactionRecord>),
}

impl Payload {
    /// The records of the payload.
    pub open spec fn records(self) -> Seq<RecordView> {
        match self {
            Payload::DirectMempool(txns) => views(txns@),
        }
    }

    /// The number of transactions in the payload.
    pub fn len(&self) -> (r: usize)
        ensures
            r == self.records().len(),
    {
        match self {
            Payload::DirectMempool(txns) => txns.len(),
        }
    }
}

/// The answer to a request of consensus.
#[derive(Debug)]
pub enum ConsensusResponse {
    /// The block that was pulled for the proposer.
    GetBlockResponse(Payload),
}

impl CoreMempool {
    /// Answers a request for a block of at most `max_txns` transactions and
    /// `max_bytes` bytes that avoids the transactions whose digests are in
    /// `excluded`: the pull of such a batch, as a payload.
    pub fn get_block(&self, max_txns: u64, max_bytes: u64, excluded: &Vec<HashValue>) -> (r:
        ConsensusResponse)
        requires
            self.wf(),
        ensures
            r matches ConsensusResponse::GetBlockResponse(payload) && pulled(
                candidates(self.records(), self.priority_order(), excluded@),
                payload.records(),
                max_txns,
                max_bytes,
            ),
    {
        ConsensusResponse::GetBlockResponse(
            Payload::DirectMempool(self.pull_batch(max_txns, max_bytes, excluded)),
        )
    }
}

} // verus!
