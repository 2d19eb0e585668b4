//! The batch assembler: groups incoming transactions into batches, flushing
//! a batch once its accumulated serialized size reaches `batch_size`, or —
//! driven by the caller's timer — once `max_batch_delay` has elapsed since
//! the first pending transaction arrived.
use vstd::prelude::*;

use crate::SerializedBatch;
use crate::Transaction;

verus! {

/// The serialized byte form of a transaction list. It stands for the
/// encoder's output, which depends on the transactions alone.
pub uninterp spec fn encoding_of(txs: Seq<Seq<u8>>) -> Seq<u8>;

/// Relies on bincode::serialize (default fixed-int configuration): the
/// encoding of a transaction list is a function of the listed bytes alone,
/// and encoding a `Vec<Vec<u8>>` into a fresh in-memory buffer cannot fail.
#[verifier::external_body]
fn serialize_transactions(txs: &Vec<Transaction>) -> (r: SerializedBatch)
    ensures
        r@ == encoding_of(txs.deep_view()),
{
    bincode::serialize(txs).expect("serializing a transaction list cannot fail")
}

/// Sum of the serialized sizes of the transactions.
pub open spec fn total_bytes(txs: Seq<Seq<u8>>) -> int
    decreases txs.len(),
{
    if txs.len() == 0 {
        0
    } else {
        total_bytes(txs.drop_last()) + txs.last().len()
    }
}

/// A sealed batch: the accumulated transactions in arrival order, together
/// with their serialized byte form. Immutable once sealed.
pub struct Batch {
    pub transactions: Vec<Transaction>,
    pub bytes: SerializedBatch,
}

impl Batch {
    /// A sealed batch is never empty and carries the encoding of exactly
    /// its own transactions.
    pub open spec fn wf(self) -> bool {
        &&& self.transactions@.len() > 0
        &&& self.bytes@ == encoding_of(self.transactions.deep_view())
    }
}

/// Accumulates transactions until a size or delay trigger flushes them.
pub struct BatchMaker {
    /// Serialized size (in bytes) that forces a flush.
    pub batch_size: usize,
    /// Longest time (in milliseconds) a partial batch may wait; the caller
    /// schedules the timer and reports its expiry via `flush_on_timer`.
    pub max_batch_delay: u64,
    /// Transactions of the batch under assembly, in arrival order.
    pub current: Vec<Transaction>,
    /// Accumulated serialized size of `current`.
    pub current_size: usize,
}

impl BatchMaker {
    /// The transactions pending in the batch under assembly.
    pub open spec fn pending(self) -> Seq<Seq<u8>> {
        self.current.deep_view()
    }

    /// The size counter agrees with the pending transactions.
    pub open spec fn wf(self) -> bool {
        self.current_size == total_bytes(self.pending())
    }

    /// The configuration is unchanged by an operation.
    pub open spec fn same_config(self, other: BatchMaker) -> bool {
        &&& self.batch_size == other.batch_size
        &&& self.max_batch_delay == other.max_batch_delay
    }

    pub fn new(batch_size: usize, max_batch_delay: u64) -> (m: BatchMaker)
        ensures
            m.wf(),
            m.pending() == Seq::<Seq<u8>>::empty(),
            m.batch_size == batch_size,
            m.max_batch_delay == max_batch_delay,
    {
        let m = BatchMaker { batch_size, max_batch_delay, current: Vec::new(), current_size: 0 };
        proof {
            assert(m.pending() =~= Seq::<Seq<u8>>::empty());
        }
        m
    }

    /// Adds one transaction to the pending batch. The batch is flushed —
    /// sealed and returned — exactly when the accumulated serialized size
    /// has reached `batch_size`; flushing resets the pending accumulation.
    /// Arrival order is preserved either way.
    pub fn push_transaction(&mut self, tx: Transaction) -> (r: Option<Batch>)
        requires
            old(self).wf(),
            total_bytes(old(self).pending()) + tx@.len() <= usize::MAX,
        ensures
            final(self).wf(),
            old(self).same_config(*final(self)),
            (r is Some) == (total_bytes(old(self).pending()) + tx@.len() >= old(
                self,
            ).batch_size),
            r matches Some(b) ==> {
                &&& b.wf()
                &&& b.transactions.deep_view() == old(self).pending().push(tx@)
                &&& final(self).pending() == Seq::<Seq<u8>>::empty()
            },
            r is None ==> final(self).pending() == old(self).pending().push(tx@),
    {
        let tx_len = tx.len();
        let ghost pre = self.pending();
        let ghost txv = tx@;
        proof {
            assert(tx.deep_view() =~= txv);
        }
        self.current.push(tx);
        proof {
            assert(self.pending() =~= pre.push(txv));
            assert(self.pending().drop_last() == pre);
        }
        self.current_size = self.current_size + tx_len;
        if self.current_size >= self.batch_size {
            Some(self.seal())
        } else {
            None
        }
    }

    /// The delay trigger: called when `max_batch_delay` has elapsed since
    /// the first pending transaction arrived. The timer alone never flushes
    /// an empty batch: with nothing pending, nothing is emitted.
    pub fn flush_on_timer(&mut self) -> (r: Option<Batch>)
        requires
            old(self).wf(),
        ensures
            final(self).wf(),
            old(self).same_config(*final(self)),
            (r is Some) == (old(self).pending().len() > 0),
            r matches Some(b) ==> {
                &&& b.wf()
                &&& b.transactions.deep_view() == old(self).pending()
                &&& final(self).pending() == Seq::<Seq<u8>>::empty()
            },
            r is None ==> *final(self) == *old(self),
    {
        if self.current.len() > 0 {
            Some(self.seal())
        } else {
            None
        }
    }

    /// Seals the pending transactions into an immutable batch and resets
    /// the accumulation.
    fn seal(&mut self) -> (b: Batch)
        requires
            old(self).wf(),
            old(self).current@.len() > 0,
        ensures
            final(self).wf(),
            old(self).same_config(*final(self)),
            final(self).pending() == Seq::<Seq<u8>>::empty(),
            b.wf(),
            b.transactions.deep_view() == old(self).pending(),
    {
        let bytes = serialize_transactions(&self.current);
        let mut transactions: Vec<Transaction> = Vec::new();
        core::mem::swap(&mut transactions, &mut self.current);
        self.current_size = 0;
        proof {
            assert(self.pending() =~= Seq::<Seq<u8>>::empty());
        }
        Batch { transactions, bytes }
    }
}

} // verus!
