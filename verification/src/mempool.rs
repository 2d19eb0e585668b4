//! The assembled pipeline: one `Mempool` value holds the batch assembler,
//! the quorum gate and the commit processor, together with the accumulation
//! state of every batch still waiting for its quorum. The surrounding
//! runtime feeds it events — an arriving transaction, the delay timer, a
//! resolving delivery acknowledgement — and carries out the returned
//! actions (broadcasting batch bytes, forwarding digests).
use vstd::prelude::*;

use crate::batch_maker::encoding_of;
use crate::batch_maker::total_bytes;
use crate::batch_maker::Batch;
use crate::batch_maker::BatchMaker;
use crate::config::stake_of;
use crate::config::targets_of;
use crate::config::Address;
use crate::config::Committee;
use crate::config::Parameters;
use crate::config::PublicKey;
use crate::processor::copy_bytes;
use crate::processor::digest_of;
use crate::processor::Digest;
use crate::processor::Processor;
use crate::quorum_waiter::observe_post;
use crate::quorum_waiter::QuorumState;
use crate::quorum_waiter::QuorumWaiter;
use crate::SerializedBatch;
use crate::Transaction;

verus! {

/// One batch that has been broadcast and is waiting for its quorum.
pub struct BatchInFlight {
    /// Identifier the runtime uses to route acknowledgements to this batch.
    pub id: u64,
    /// The serialized batch, kept until release.
    pub bytes: SerializedBatch,
    /// This batch's own stake accumulation state.
    pub state: QuorumState,
}

/// The broadcast the runtime must carry out after a flush.
pub struct Broadcast {
    /// Identifier under which acknowledgements must be reported back.
    pub batch_id: u64,
    /// The serialized batch to send.
    pub bytes: SerializedBatch,
    /// Every other committee member, with its endpoint.
    pub targets: Vec<(PublicKey, Address)>,
}

/// What a flush led to: a broadcast awaiting quorum, or — when the local
/// stake alone already forms a quorum — an immediate commit.
pub enum FlushOutcome {
    Broadcast(Broadcast),
    Committed(Digest),
}

/// The whole dissemination pipeline as one state machine.
pub struct Mempool {
    pub batch_maker: BatchMaker,
    pub quorum_waiter: QuorumWaiter,
    pub processor: Processor,
    /// Batches awaiting quorum; their accumulation states are independent.
    pub in_flight: Vec<BatchInFlight>,
    /// Identifier for the next broadcast batch.
    pub next_id: u64,
}

/// Whether some in-flight batch carries `id`.
pub open spec fn has_batch(s: Seq<BatchInFlight>, id: u64) -> bool {
    exists|k: int| 0 <= k < s.len() && (#[trigger] s[k]).id == id
}

/// The position of the in-flight batch carrying `id`.
pub open spec fn batch_index(s: Seq<BatchInFlight>, id: u64) -> int {
    choose|k: int| 0 <= k < s.len() && (#[trigger] s[k]).id == id
}

/// Whether this acknowledgement is the one that lets the batch's
/// accumulated stake first reach the threshold.
pub open spec fn ack_releases(
    w: QuorumWaiter,
    st: QuorumState,
    peer: PublicKey,
    success: bool,
) -> bool {
    &&& success && peer != w.name && !st.counted_set().contains(peer)
    &&& st.accumulated + stake_of(w.committee.authorities@, peer) >= w.threshold
}

impl Mempool {
    /// Pipeline invariant: every stage is well formed, every in-flight
    /// accumulation state is well formed and not yet released, and batch
    /// identifiers are unique.
    pub open spec fn wf(self) -> bool {
        &&& self.batch_maker.wf()
        &&& self.quorum_waiter.wf()
        &&& self.processor.wf()
        &&& forall|k: int|
            0 <= k < self.in_flight@.len() ==> (#[trigger] self.in_flight@[k]).state.wf(
                self.quorum_waiter,
            ) && !self.in_flight@[k].state.released && self.in_flight@[k].id < self.next_id
        &&& forall|k: int, l: int|
            0 <= k < l < self.in_flight@.len() ==> (#[trigger] self.in_flight@[k]).id
                != (#[trigger] self.in_flight@[l]).id
    }

    /// Builds the pipeline for one authority over one committee snapshot.
    pub fn new(name: PublicKey, committee: Committee, parameters: Parameters) -> (m: Mempool)
        requires
            committee.wf(),
        ensures
            m.wf(),
            m.batch_maker.batch_size == parameters.batch_size,
            m.batch_maker.max_batch_delay == parameters.max_batch_delay,
            m.batch_maker.pending() == Seq::<Seq<u8>>::empty(),
            m.quorum_waiter.committee == committee,
            m.quorum_waiter.name == name,
            m.processor.store_view() == Seq::<(Seq<u8>, Seq<u8>)>::empty(),
            m.processor.sink_view() == Seq::<Seq<u8>>::empty(),
            m.in_flight@ == Seq::<BatchInFlight>::empty(),
            m.next_id == 0,
    {
        let m = Mempool {
            batch_maker: BatchMaker::new(parameters.batch_size, parameters.max_batch_delay),
            quorum_waiter: QuorumWaiter::new(committee, name),
            processor: Processor::new(),
            in_flight: Vec::new(),
            next_id: 0,
        };
        proof {
            assert(m.in_flight@ =~= Seq::<BatchInFlight>::empty());
        }
        m
    }

    /// Feeds one client transaction to the assembler. Returns the flush
    /// outcome when this transaction made the accumulated serialized size
    /// reach `batch_size`, and nothing otherwise.
    pub fn handle_transaction(&mut self, tx: Transaction) -> (r: Option<FlushOutcome>)
        requires
            old(self).wf(),
            total_bytes(old(self).batch_maker.pending()) + tx@.len() <= usize::MAX,
            old(self).next_id < u64::MAX,
        ensures
            final(self).wf(),
            old(self).batch_maker.same_config(final(self).batch_maker),
            final(self).quorum_waiter == old(self).quorum_waiter,
            (r is Some) == (total_bytes(old(self).batch_maker.pending()) + tx@.len() >= old(
                self,
            ).batch_maker.batch_size),
            r is None ==> {
                &&& final(self).batch_maker.pending() == old(self).batch_maker.pending().push(tx@)
                &&& final(self).processor == old(self).processor
                &&& final(self).in_flight == old(self).in_flight
                &&& final(self).next_id == old(self).next_id
            },
            r matches Some(out) ==> {
                &&& final(self).batch_maker.pending() == Seq::<Seq<u8>>::empty()
                &&& flush_post(
                    *old(self),
                    *final(self),
                    old(self).batch_maker.pending().push(tx@),
                    out,
                )
            },
    {
        let flushed = self.batch_maker.push_transaction(tx);
        match flushed {
            None => None,
            Some(batch) => Some(self.launch(batch)),
        }
    }

    /// The delay trigger: flushes the pending batch, if any, once
    /// `max_batch_delay` has elapsed since its first transaction arrived.
    /// The timer alone never emits an empty batch.
    pub fn handle_timer(&mut self) -> (r: Option<FlushOutcome>)
        requires
            old(self).wf(),
            old(self).next_id < u64::MAX,
        ensures
            final(self).wf(),
            old(self).batch_maker.same_config(final(self).batch_maker),
            final(self).quorum_waiter == old(self).quorum_waiter,
            (r is Some) == (old(self).batch_maker.pending().len() > 0),
            r is None ==> *final(self) == *old(self),
            r matches Some(out) ==> {
                &&& final(self).batch_maker.pending() == Seq::<Seq<u8>>::empty()
                &&& flush_post(*old(self), *final(self), old(self).batch_maker.pending(), out)
            },
    {
        let flushed = self.batch_maker.flush_on_timer();
        match flushed {
            None => None,
            Some(batch) => Some(self.launch(batch)),
        }
    }

    /// Routes one resolved delivery acknowledgement to the batch it
    /// belongs to — acknowledgements for different batches are never
    /// conflated — and commits the batch when this acknowledgement lets
    /// its accumulated stake first reach the threshold. Returns the digest
    /// forwarded to the consensus sink on release, and nothing otherwise.
    pub fn handle_ack(&mut self, batch_id: u64, peer: PublicKey, success: bool) -> (r: Option<
        Digest,
    >)
        requires
            old(self).wf(),
        ensures
            final(self).wf(),
            handle_ack_post(*old(self), *final(self), batch_id, peer, success, r),
    {
        let found = find_batch_index(&self.in_flight, batch_id);
        match found {
            None => None,
            Some(k) => {
                proof {
                    assert(has_batch(self.in_flight@, batch_id));
                    let k0 = batch_index(self.in_flight@, batch_id);
                    assert(self.in_flight@[k0].id == batch_id);
                    assert(k0 == k as int);
                }
                let mut e = self.in_flight.remove(k);
                let release = self.quorum_waiter.observe_ack(&mut e.state, peer, success);
                if release {
                    let d = self.processor.process(e.bytes);
                    proof {
                        lemma_wf_after_remove(*old(self), *self, k as int);
                    }
                    Some(d)
                } else {
                    let ghost removed = self.in_flight@;
                    self.in_flight.insert(k, e);
                    proof {
                        assert forall|m: int|
                            0 <= m < self.in_flight@.len() && m != k as int implies
                            self.in_flight@[m] == old(self).in_flight@[m] by {
                            if m < k as int {
                                assert(self.in_flight@[m] == removed[m]);
                            } else {
                                assert(self.in_flight@[m] == removed[m - 1]);
                            }
                        }
                        assert(self.in_flight@.len() == old(self).in_flight@.len());
                        assert(self.in_flight@[k as int] == e);
                    }
                    None
                }
            },
        }
    }

    /// Starts the quorum wait for a sealed batch: when the local stake
    /// alone already forms a quorum the batch is committed at once;
    /// otherwise it is handed out for broadcast and recorded as in flight.
    fn launch(&mut self, batch: Batch) -> (r: FlushOutcome)
        requires
            old(self).wf(),
            batch.wf(),
            old(self).next_id < u64::MAX,
        ensures
            final(self).wf(),
            final(self).batch_maker == old(self).batch_maker,
            final(self).quorum_waiter == old(self).quorum_waiter,
            flush_post(*old(self), *final(self), batch.transactions.deep_view(), r),
    {
        let ghost bytesv = batch.bytes@;
        let st = self.quorum_waiter.start_batch();
        if st.released {
            let d = self.processor.process(batch.bytes);
            FlushOutcome::Committed(d)
        } else {
            let id = self.next_id;
            self.next_id = self.next_id + 1;
            let targets = self.quorum_waiter.committee.broadcast_addresses(
                &self.quorum_waiter.name,
            );
            let bytes = copy_bytes(&batch.bytes);
            self.in_flight.push(BatchInFlight { id, bytes: batch.bytes, state: st });
            proof {
                assert(self.in_flight@.drop_last() =~= old(self).in_flight@);
                assert(self.in_flight@.last().bytes@ == bytesv);
                assert forall|k: int|
                    0 <= k < self.in_flight@.len() implies (#[trigger] self.in_flight@[k]).state.wf(
                    self.quorum_waiter,
                ) && !self.in_flight@[k].state.released && self.in_flight@[k].id
                    < self.next_id by {
                    if k < old(self).in_flight@.len() {
                        assert(self.in_flight@[k] == old(self).in_flight@[k]);
                    }
                }
                assert forall|k: int, l: int|
                    0 <= k < l < self.in_flight@.len() implies (#[trigger] self.in_flight@[k]).id
                    != (#[trigger] self.in_flight@[l]).id by {
                    assert(self.in_flight@[k] == old(self).in_flight@[k]);
                    if l < old(self).in_flight@.len() {
                        assert(self.in_flight@[l] == old(self).in_flight@[l]);
                    } else {
                        assert(self.in_flight@[l].id == old(self).next_id);
                    }
                }
            }
            FlushOutcome::Broadcast(Broadcast { batch_id: id, bytes, targets })
        }
    }
}

/// The exact effect of flushing a batch holding the transactions `txs`:
/// when the local stake alone reaches the threshold, the encoded batch is
/// committed at once — stored under its digest, the digest forwarded;
/// otherwise the encoded batch is handed out for broadcast to every other
/// committee member and recorded as in flight under a fresh identifier,
/// with only the local stake accumulated so far.
pub open spec fn flush_post(pre: Mempool, post: Mempool, txs: Seq<Seq<u8>>, r: FlushOutcome) -> bool {
    let w = pre.quorum_waiter;
    let bytes = encoding_of(txs);
    let own = stake_of(w.committee.authorities@, w.name);
    if own >= w.threshold {
        &&& r matches FlushOutcome::Committed(d) && d@ == digest_of(bytes)
        &&& post.processor.store_view() == pre.processor.store_view().push((digest_of(bytes), bytes))
        &&& post.processor.sink_view() == pre.processor.sink_view().push(digest_of(bytes))
        &&& post.in_flight == pre.in_flight
        &&& post.next_id == pre.next_id
    } else {
        &&& r matches FlushOutcome::Broadcast(b) && {
            &&& b.batch_id == pre.next_id
            &&& b.bytes@ == bytes
            &&& b.targets@ == targets_of(w.committee.authorities@, w.name)
        }
        &&& post.processor == pre.processor
        &&& post.next_id == pre.next_id + 1
        &&& post.in_flight@.len() == pre.in_flight@.len() + 1
        &&& post.in_flight@.drop_last() == pre.in_flight@
        &&& post.in_flight@.last().id == pre.next_id
        &&& post.in_flight@.last().bytes@ == bytes
        &&& post.in_flight@.last().state.accumulated == own
        &&& post.in_flight@.last().state.counted_set() == Set::<PublicKey>::empty()
        &&& !post.in_flight@.last().state.released
    }
}

/// The exact effect of one routed acknowledgement: an identifier that
/// matches no in-flight batch changes nothing; otherwise the matching
/// batch's accumulation state observes the acknowledgement, and exactly
/// when the accumulated stake first reaches the threshold the batch is
/// removed from the in-flight set, stored under its digest, and its digest
/// is returned and forwarded to the consensus sink.
pub open spec fn handle_ack_post(
    pre: Mempool,
    post: Mempool,
    batch_id: u64,
    peer: PublicKey,
    success: bool,
    r: Option<Digest>,
) -> bool {
    let w = pre.quorum_waiter;
    if !has_batch(pre.in_flight@, batch_id) {
        &&& post == pre
        &&& r is None
    } else {
        let k = batch_index(pre.in_flight@, batch_id);
        let e = pre.in_flight@[k];
        &&& post.batch_maker == pre.batch_maker
        &&& post.quorum_waiter == pre.quorum_waiter
        &&& post.next_id == pre.next_id
        &&& if ack_releases(w, e.state, peer, success) {
            &&& r matches Some(d) && d@ == digest_of(e.bytes@)
            &&& post.in_flight@ == pre.in_flight@.remove(k)
            &&& post.processor.store_view() == pre.processor.store_view().push(
                (digest_of(e.bytes@), e.bytes@),
            )
            &&& post.processor.sink_view() == pre.processor.sink_view().push(digest_of(e.bytes@))
        } else {
            &&& r is None
            &&& post.processor == pre.processor
            &&& post.in_flight@.len() == pre.in_flight@.len()
            &&& forall|m: int|
                0 <= m < pre.in_flight@.len() && m != k ==> post.in_flight@[m]
                    == pre.in_flight@[m]
            &&& post.in_flight@[k].id == e.id
            &&& post.in_flight@[k].bytes == e.bytes
            &&& observe_post(w, e.state, post.in_flight@[k].state, peer, success, false)
        }
    }
}

/// Finds the position of the in-flight batch carrying `id`.
fn find_batch_index(v: &Vec<BatchInFlight>, id: u64) -> (r: Option<usize>)
    ensures
        match r {
            Some(k) => k < v@.len() && v@[k as int].id == id,
            None => !has_batch(v@, id),
        },
{
    let n = v.len();
    let mut i: usize = 0;
    while i < n
        invariant
            n == v@.len(),
            i <= n,
            forall|j: int| 0 <= j < i ==> (#[trigger] v@[j]).id != id,
        decreases n - i,
    {
        if v[i].id == id {
            return Some(i);
        }
        i = i + 1;
    }
    None
}

/// Removing one in-flight batch preserves the pipeline invariant on the
/// remaining ones.
proof fn lemma_wf_after_remove(pre: Mempool, post: Mempool, k: int)
    requires
        pre.wf(),
        0 <= k < pre.in_flight@.len(),
        post.in_flight@ == pre.in_flight@.remove(k),
        post.quorum_waiter == pre.quorum_waiter,
        post.next_id == pre.next_id,
    ensures
        forall|m: int|
            0 <= m < post.in_flight@.len() ==> (#[trigger] post.in_flight@[m]).state.wf(
                post.quorum_waiter,
            ) && !post.in_flight@[m].state.released && post.in_flight@[m].id < post.next_id,
        forall|m: int, l: int|
            0 <= m < l < post.in_flight@.len() ==> (#[trigger] post.in_flight@[m]).id
                != (#[trigger] post.in_flight@[l]).id,
{
    assert forall|m: int|
        0 <= m < post.in_flight@.len() implies (#[trigger] post.in_flight@[m]).state.wf(
        post.quorum_waiter,
    ) && !post.in_flight@[m].state.released && post.in_flight@[m].id < post.next_id by {
        if m < k {
            assert(post.in_flight@[m] == pre.in_flight@[m]);
        } else {
            assert(post.in_flight@[m] == pre.in_flight@[m + 1]);
        }
    }
    assert forall|m: int, l: int|
        0 <= m < l < post.in_flight@.len() implies (#[trigger] post.in_flight@[m]).id
        != (#[trigger] post.in_flight@[l]).id by {
        let m0 = if m < k {
            m
        } else {
            m + 1
        };
        let l0 = if l < k {
            l
        } else {
            l + 1
        };
        assert(post.in_flight@[m] == pre.in_flight@[m0]);
        assert(post.in_flight@[l] == pre.in_flight@[l0]);
    }
}

} // verus!
