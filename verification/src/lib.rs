//! Transaction-dissemination pipeline for a stake-weighted BFT committee.
//!
//! Clients submit raw transactions; the pipeline groups them into batches,
//! broadcasts each batch to the other committee members, waits until a
//! stake-weighted quorum has acknowledged receipt, persists the batch under
//! its cryptographic digest, and forwards the digest to the consensus layer.
use vstd::prelude::*;

pub mod batch_maker;
pub mod config;
pub mod mempool;
pub mod processor;
pub mod quorum_waiter;

verus! {

/// An opaque client transaction: a raw byte string.
pub type Transaction = Vec<u8>;

/// The serialized byte form of a batch of transactions.
pub type SerializedBatch = Vec<u8>;

/// What the pipeline hands to the consensus layer's input queue.
pub type Payload = SerializedBatch;

/// The capacity of every bounded queue between two pipeline stages.
pub const CHANNEL_CAPACITY: usize = 1_000;

} // verus!
