//! The pending-transaction pool of a validator node, verified.
//!
//! The pool admits transactions, keeps one record per account and sequence
//! number, knows which records are ready for a block, orders them for the
//! proposer, logs them for broadcast, and drops what is committed, rejected,
//! expired or in the way of something better. `mempool` is the way in;
//! `store`, `sequencing`, `admission`, `queries` and `sweep` do the work on
//! the table and its indices; `model` says what that work amounts to, and
//! `laws`, `timeline_laws` and `baseline_laws` what follows from it.
//! `transfer_plan` stands apart: it plans the token transfers with which a
//! load run fills such a pool.

pub mod admission;
pub mod admission_proofs;
pub mod baseline_laws;
pub mod consensus;
pub mod laws;
pub mod ledger_proofs;
pub mod mempool;
pub mod model;
pub mod ordered_index;
pub mod queries;
pub mod query_proofs;
pub mod sequencing;
pub mod store;
pub mod sweep;
pub mod table_proofs;
pub mod timeline_laws;
pub mod transfer_plan;
pub mod ttl_cache;
pub mod types;
