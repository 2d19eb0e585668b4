use mempool::batch_maker::BatchMaker;
use mempool::config::Address;
use mempool::config::Committee;
use mempool::config::Parameters;
use mempool::config::PublicKey;
use mempool::config::Stake;
use mempool::mempool::FlushOutcome;
use mempool::mempool::Mempool;
use mempool::processor::compute_digest;
use mempool::processor::Processor;
use mempool::quorum_waiter::QuorumWaiter;

fn committee_of(stakes: &[Stake]) -> Committee {
    let mut info: Vec<(PublicKey, Stake, Address)> = Vec::new();
    for (i, s) in stakes.iter().enumerate() {
        let id = (i + 1) as u64;
        info.push((PublicKey(id), *s, Address { ip: 0, port: 9000 + id as u16 }));
    }
    Committee::new(info, 0)
}

#[test]
fn default_parameters() {
    let p = Parameters::default();
    assert_eq!(p.batch_size, 500_000);
    assert_eq!(p.max_batch_delay, 200);
}

#[test]
fn quorum_threshold_four_equal_stakes() {
    let c = committee_of(&[1, 1, 1, 1]);
    assert_eq!(c.total_stake_exec(), 4);
    assert_eq!(c.quorum_threshold(), 3);
}

#[test]
fn quorum_threshold_formula() {
    // total 17: floor(2 * 17 / 3) + 1 == 12
    let c = committee_of(&[3, 5, 9]);
    assert_eq!(c.quorum_threshold(), 12);
    // total 3: floor(2 * 3 / 3) + 1 == 3
    let c = committee_of(&[1, 1, 1]);
    assert_eq!(c.quorum_threshold(), 3);
    // total 10: floor(20 / 3) + 1 == 7
    let c = committee_of(&[10]);
    assert_eq!(c.quorum_threshold(), 7);
}

#[test]
fn quorum_threshold_at_stake_cap() {
    // The largest total the stake type admits must not overflow.
    let c = committee_of(&[Stake::MAX]);
    assert_eq!(c.quorum_threshold(), 2 * (Stake::MAX as u64 / 3) as Stake + 1);
}

#[test]
fn stake_of_member_and_stranger() {
    let c = committee_of(&[4, 2, 1]);
    assert_eq!(c.stake(&PublicKey(1)), 4);
    assert_eq!(c.stake(&PublicKey(3)), 1);
    assert_eq!(c.stake(&PublicKey(42)), 0);
}

#[test]
fn address_of_member_and_stranger() {
    let c = committee_of(&[1, 1]);
    assert_eq!(c.address(&PublicKey(2)), Some(Address { ip: 0, port: 9002 }));
    assert_eq!(c.address(&PublicKey(9)), None);
}

#[test]
fn broadcast_targets_exclude_self() {
    let c = committee_of(&[1, 1, 1, 1]);
    let targets = c.broadcast_addresses(&PublicKey(2));
    assert_eq!(targets.len(), 3);
    for (name, _) in &targets {
        assert_ne!(*name, PublicKey(2));
    }
    assert_eq!(targets[0].0, PublicKey(1));
    assert_eq!(targets[1].0, PublicKey(3));
    assert_eq!(targets[2].0, PublicKey(4));
}

#[test]
fn batch_flushes_when_size_reached() {
    // batch_size = 100, ten transactions of 15 bytes: the flush comes as
    // soon as the running total crosses 100 bytes, at the seventh.
    let mut m = BatchMaker::new(100, 200);
    let mut flushed = None;
    for i in 0..10u8 {
        let tx = vec![i; 15];
        let r = m.push_transaction(tx);
        match r {
            Some(b) => {
                assert!(flushed.is_none(), "a batch must flush exactly once here");
                assert_eq!(i, 6, "the seventh transaction crosses 100 bytes");
                flushed = Some(b);
            }
            None => {}
        }
    }
    let b = flushed.expect("the size trigger must have flushed");
    assert_eq!(b.transactions.len(), 7);
    for (i, tx) in b.transactions.iter().enumerate() {
        assert_eq!(*tx, vec![i as u8; 15]);
    }
}

#[test]
fn small_batch_waits_for_timer() {
    // One 10-byte transaction under a huge batch_size: only the delay
    // trigger flushes it.
    let mut m = BatchMaker::new(1_000_000, 200);
    let r = m.push_transaction(vec![7u8; 10]);
    assert!(r.is_none());
    let b = m.flush_on_timer().expect("the delay trigger must flush");
    assert_eq!(b.transactions.len(), 1);
    assert_eq!(b.transactions[0], vec![7u8; 10]);
}

#[test]
fn timer_never_emits_empty_batch() {
    let mut m = BatchMaker::new(100, 200);
    assert!(m.flush_on_timer().is_none());
    // After a flush the accumulation is reset, so a second timer expiry
    // emits nothing either.
    let _ = m.push_transaction(vec![1u8; 200]).expect("over-size transaction flushes");
    assert!(m.flush_on_timer().is_none());
}

#[test]
fn batch_preserves_arrival_order() {
    let mut m = BatchMaker::new(1_000, 200);
    let txs: Vec<Vec<u8>> = (0..5u8).map(|i| vec![i, i, i]).collect();
    for tx in &txs {
        assert!(m.push_transaction(tx.clone()).is_none());
    }
    let b = m.flush_on_timer().expect("pending transactions must flush");
    assert_eq!(b.transactions, txs);
}

#[test]
fn batch_bytes_are_the_encoded_transactions() {
    let mut m = BatchMaker::new(1_000, 200);
    let _ = m.push_transaction(vec![1, 2, 3]);
    let _ = m.push_transaction(vec![4, 5]);
    let b = m.flush_on_timer().expect("pending transactions must flush");
    let expected: Vec<u8> = bincode::serialize(&b.transactions).unwrap();
    assert_eq!(b.bytes, expected);
}

#[test]
fn quorum_releases_at_threshold() {
    // Stakes [1,1,1,1], threshold 3: the local authority plus two peers
    // release; one peer alone (stake 2 in all) does not.
    let c = committee_of(&[1, 1, 1, 1]);
    let w = QuorumWaiter::new(c, PublicKey(1));
    let mut st = w.start_batch();
    assert!(!st.released);
    assert_eq!(st.accumulated, 1);
    assert!(!w.observe_ack(&mut st, PublicKey(2), true));
    assert_eq!(st.accumulated, 2);
    assert!(!st.released);
    assert!(w.observe_ack(&mut st, PublicKey(3), true));
    assert!(st.released);
    assert_eq!(st.accumulated, 3);
}

#[test]
fn quorum_released_exactly_once() {
    let c = committee_of(&[1, 1, 1, 1]);
    let w = QuorumWaiter::new(c, PublicKey(1));
    let mut st = w.start_batch();
    assert!(!w.observe_ack(&mut st, PublicKey(2), true));
    assert!(w.observe_ack(&mut st, PublicKey(3), true));
    // A later-resolving handle changes nothing.
    assert!(!w.observe_ack(&mut st, PublicKey(4), true));
    assert!(st.released);
    assert_eq!(st.accumulated, 3);
}

#[test]
fn failed_or_foreign_acks_add_no_stake() {
    let c = committee_of(&[1, 1, 1, 1]);
    let w = QuorumWaiter::new(c, PublicKey(1));
    let mut st = w.start_batch();
    // A failed acknowledgement contributes zero stake.
    assert!(!w.observe_ack(&mut st, PublicKey(2), false));
    assert_eq!(st.accumulated, 1);
    // An identity outside the committee has no voting power.
    assert!(!w.observe_ack(&mut st, PublicKey(42), true));
    assert_eq!(st.accumulated, 1);
    // The local authority's stake is already counted.
    assert!(!w.observe_ack(&mut st, PublicKey(1), true));
    assert_eq!(st.accumulated, 1);
    // A peer is counted at most once.
    assert!(!w.observe_ack(&mut st, PublicKey(2), true));
    assert_eq!(st.accumulated, 2);
    assert!(!w.observe_ack(&mut st, PublicKey(2), true));
    assert_eq!(st.accumulated, 2);
}

#[test]
fn digest_is_deterministic() {
    let bytes = vec![1u8, 2, 3, 4, 5];
    let d1 = compute_digest(&bytes);
    let d2 = compute_digest(&bytes);
    assert_eq!(d1, d2);
    assert_eq!(d1.len(), 32);
    let other = compute_digest(&vec![1u8, 2, 3, 4, 6]);
    assert_ne!(d1, other);
    // The digest is not the input handed back.
    assert_ne!(d1, bytes);
}

#[test]
fn store_before_forward_round_trip() {
    let mut p = Processor::new();
    let batch = vec![9u8; 40];
    let d = p.process(batch.clone());
    assert_eq!(d, compute_digest(&batch));
    // The digest on the sink is retrievable from the store, unchanged.
    assert_eq!(p.sink.len(), 1);
    assert_eq!(p.sink[0], d);
    assert_eq!(p.read(&d), Some(batch));
    let absent = compute_digest(&vec![1u8]);
    assert_eq!(p.read(&absent), None);
}

#[test]
fn pipeline_end_to_end_quorum() {
    // Committee of 4 with stakes [1,1,1,1]: threshold 3. A flushed batch
    // releases after the local authority plus two peers, not after one.
    let c = committee_of(&[1, 1, 1, 1]);
    let params = Parameters { batch_size: 8, max_batch_delay: 200 };
    let mut m = Mempool::new(PublicKey(1), c, params);
    assert!(m.handle_transaction(vec![1u8; 4]).is_none());
    let out = m.handle_transaction(vec![2u8; 4]).expect("8 bytes reach batch_size");
    let b = match out {
        FlushOutcome::Broadcast(b) => b,
        FlushOutcome::Committed(_) => panic!("a quorum of one local stake cannot exist here"),
    };
    assert_eq!(b.targets.len(), 3);
    let expected_bytes = bincode::serialize(&vec![vec![1u8; 4], vec![2u8; 4]]).unwrap();
    assert_eq!(b.bytes, expected_bytes);
    // One peer responding (total stake 2) must not release.
    assert!(m.handle_ack(b.batch_id, PublicKey(2), true).is_none());
    // An acknowledgement for an unknown batch changes nothing.
    assert!(m.handle_ack(b.batch_id + 1, PublicKey(3), true).is_none());
    // The second peer (total stake 3) releases, exactly once.
    let d = m.handle_ack(b.batch_id, PublicKey(3), true).expect("stake 3 reaches the threshold");
    assert_eq!(d, compute_digest(&b.bytes));
    assert_eq!(m.processor.read(&d), Some(b.bytes.clone()));
    assert_eq!(m.processor.sink.len(), 1);
    // The batch is no longer in flight.
    assert!(m.handle_ack(b.batch_id, PublicKey(4), true).is_none());
}

#[test]
fn pipeline_keeps_concurrent_batches_apart() {
    // Two batches in flight at once: acknowledgements are routed by batch
    // identifier, each batch accumulates independently, and batches may
    // release out of assembly order.
    let c = committee_of(&[1, 1, 1, 1]);
    let params = Parameters { batch_size: 4, max_batch_delay: 200 };
    let mut m = Mempool::new(PublicKey(1), c, params);
    let out1 = m.handle_transaction(vec![1u8; 4]).expect("first batch flushes");
    let out2 = m.handle_transaction(vec![2u8; 4]).expect("second batch flushes");
    let (b1, b2) = match (out1, out2) {
        (FlushOutcome::Broadcast(b1), FlushOutcome::Broadcast(b2)) => (b1, b2),
        _ => panic!("both flushes must broadcast"),
    };
    assert_ne!(b1.batch_id, b2.batch_id);
    // One ack each: neither batch has quorum yet.
    assert!(m.handle_ack(b1.batch_id, PublicKey(2), true).is_none());
    assert!(m.handle_ack(b2.batch_id, PublicKey(2), true).is_none());
    // The second batch completes its quorum first and releases first.
    let d2 = m.handle_ack(b2.batch_id, PublicKey(4), true).expect("second batch releases");
    let d1 = m.handle_ack(b1.batch_id, PublicKey(3), true).expect("first batch releases");
    assert_eq!(d1, compute_digest(&b1.bytes));
    assert_eq!(d2, compute_digest(&b2.bytes));
    // Digests reach the sink in release order, each already stored.
    assert_eq!(m.processor.sink, vec![d2.clone(), d1.clone()]);
    assert_eq!(m.processor.read(&d1), Some(b1.bytes.clone()));
    assert_eq!(m.processor.read(&d2), Some(b2.bytes.clone()));
}

#[test]
fn pipeline_single_member_commits_at_once() {
    let c = committee_of(&[5]);
    let params = Parameters { batch_size: 1_000, max_batch_delay: 200 };
    let mut m = Mempool::new(PublicKey(1), c, params);
    assert!(m.handle_transaction(vec![3u8; 6]).is_none());
    let out = m.handle_timer().expect("the delay trigger flushes the pending batch");
    let d = match out {
        FlushOutcome::Committed(d) => d,
        FlushOutcome::Broadcast(_) => panic!("a single-member committee needs no broadcast"),
    };
    let expected_bytes = bincode::serialize(&vec![vec![3u8; 6]]).unwrap();
    assert_eq!(d, compute_digest(&expected_bytes));
    assert_eq!(m.processor.read(&d), Some(expected_bytes));
}

#[test]
fn pipeline_timer_with_nothing_pending() {
    let c = committee_of(&[1, 1, 1, 1]);
    let mut m = Mempool::new(PublicKey(1), c, Parameters::default());
    assert!(m.handle_timer().is_none());
}
