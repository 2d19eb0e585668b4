//! The quorum gate: for each broadcast batch it accumulates the stake of
//! the peers whose delivery acknowledgements resolve successfully — in
//! arbitrary completion order — and releases the batch downstream exactly
//! once, the moment the accumulated stake (counting the local authority's
//! own stake) first reaches the quorum threshold.
use vstd::prelude::*;

use crate::config::lemma_own_plus_set_le_total;
use crate::config::Authority;
use crate::config::lemma_set_stake_insert;
use crate::config::set_stake;
use crate::config::stake_of;
use crate::config::Committee;
use crate::config::PublicKey;
use crate::config::Stake;

verus! {

/// The shared, read-only configuration of the quorum gate: the committee,
/// the local authority, and the cached threshold and own stake.
pub struct QuorumWaiter {
    pub committee: Committee,
    pub name: PublicKey,
    pub own_stake: Stake,
    pub threshold: Stake,
}

/// The independent accumulation state of one in-flight batch.
pub struct QuorumState {
    /// Accumulated responding stake, the local authority's included.
    pub accumulated: u64,
    /// Peers whose successful acknowledgement has been counted.
    pub counted: Vec<PublicKey>,
    /// Whether the batch has been released downstream.
    pub released: bool,
}

impl QuorumState {
    /// The counted peers as a set: completion order does not matter.
    pub open spec fn counted_set(self) -> Set<PublicKey> {
        self.counted@.to_set()
    }

    /// Accumulation invariant, relative to the waiter's configuration: each
    /// peer is counted at most once, the local authority is never counted
    /// as a peer, the accumulator equals the local stake plus the stake of
    /// the counted peers, and the batch is released exactly when the
    /// accumulator has reached the threshold.
    pub open spec fn wf(self, w: QuorumWaiter) -> bool {
        &&& forall|i: int, j: int|
            0 <= i < j < self.counted@.len() ==> self.counted@[i] != self.counted@[j]
        &&& forall|i: int| 0 <= i < self.counted@.len() ==> self.counted@[i] != w.name
        &&& self.accumulated == stake_of(w.committee.authorities@, w.name) + set_stake(
            w.committee.authorities@,
            self.counted_set(),
        )
        &&& self.released == (self.accumulated >= w.threshold)
    }
}

/// The exact effect of observing one acknowledgement: an already-released
/// batch is left untouched; a successful acknowledgement from an uncounted
/// peer (other than the local authority) adds that peer's stake; any other
/// acknowledgement adds nothing; the batch becomes released — and `release`
/// reports it — exactly when the accumulator first reaches the threshold.
pub open spec fn observe_post(
    w: QuorumWaiter,
    pre: QuorumState,
    post: QuorumState,
    peer: PublicKey,
    success: bool,
    release: bool,
) -> bool {
    &&& release == (!pre.released && post.released)
    &&& post.released == (pre.released || post.accumulated >= w.threshold)
    &&& (pre.released ==> post == pre)
    &&& (!pre.released ==> {
        if success && peer != w.name && !pre.counted_set().contains(peer) {
            &&& post.accumulated == pre.accumulated + stake_of(w.committee.authorities@, peer)
            &&& post.counted_set() == pre.counted_set().insert(peer)
        } else {
            &&& post.accumulated == pre.accumulated
            &&& post.counted_set() == pre.counted_set()
        }
    })
}

/// Whether `v@` holds `k`.
fn contains_key(v: &Vec<PublicKey>, k: &PublicKey) -> (r: bool)
    ensures
        r == v@.contains(*k),
{
    let n = v.len();
    let mut i: usize = 0;
    while i < n
        invariant
            n == v@.len(),
            i <= n,
            forall|j: int| 0 <= j < i ==> v@[j] != *k,
        decreases n - i,
    {
        if v[i] == *k {
            return true;
        }
        i = i + 1;
    }
    false
}

impl QuorumWaiter {
    /// The waiter's configuration is consistent with its committee.
    pub open spec fn wf(self) -> bool {
        &&& self.committee.wf()
        &&& self.own_stake == stake_of(self.committee.authorities@, self.name)
        &&& self.threshold == self.committee.threshold()
    }

    pub fn new(committee: Committee, name: PublicKey) -> (w: QuorumWaiter)
        requires
            committee.wf(),
        ensures
            w.wf(),
            w.committee == committee,
            w.name == name,
    {
        let own_stake = committee.stake(&name);
        let threshold = committee.quorum_threshold();
        QuorumWaiter { committee, name, own_stake, threshold }
    }

    /// Opens the accumulation state for a freshly broadcast batch. The
    /// local authority trivially holds its own batch, so its stake is
    /// counted from the start; a committee small enough that the local
    /// stake alone reaches the threshold releases at once.
    pub fn start_batch(&self) -> (st: QuorumState)
        requires
            self.wf(),
        ensures
            st.wf(*self),
            st.accumulated == stake_of(self.committee.authorities@, self.name),
            st.counted_set() == Set::<PublicKey>::empty(),
            st.released == (st.accumulated >= self.threshold),
    {
        let accumulated = self.own_stake as u64;
        let released = accumulated >= self.threshold as u64;
        let st = QuorumState { accumulated, counted: Vec::new(), released };
        proof {
            assert(st.counted_set() =~= Set::<PublicKey>::empty());
            lemma_set_stake_empty(self.committee.authorities@);
        }
        st
    }

    /// Observes the resolution of one delivery acknowledgement for the
    /// batch whose state is `st`, and reports whether the batch is to be
    /// released now. A failed acknowledgement contributes zero stake and
    /// never blocks progress; later acknowledgements for an already
    /// released batch change nothing.
    pub fn observe_ack(&self, st: &mut QuorumState, peer: PublicKey, success: bool) -> (release:
        bool)
        requires
            self.wf(),
            old(st).wf(*self),
        ensures
            final(st).wf(*self),
            observe_post(*self, *old(st), *final(st), peer, success, release),
    {
        if st.released {
            return false;
        }
        let ghost s = self.committee.authorities@;
        if success && !(peer == self.name) && !contains_key(&st.counted, &peer) {
            proof {
                lemma_set_stake_insert(s, st.counted_set(), peer);
                lemma_own_plus_set_le_total(s, self.name, st.counted_set().insert(peer));
            }
            let stake = self.committee.stake(&peer);
            st.accumulated = st.accumulated + stake as u64;
            st.counted.push(peer);
            proof {
                lemma_to_set_push(old(st).counted@, peer);
            }
        }
        if st.accumulated >= self.threshold as u64 {
            st.released = true;
            return true;
        }
        false
    }
}

/// Appending one name to a sequence inserts it into the induced set.
proof fn lemma_to_set_push(s: Seq<PublicKey>, e: PublicKey)
    ensures
        s.push(e).to_set() == s.to_set().insert(e),
{
    assert forall|x: PublicKey| s.push(e).contains(x) implies s.to_set().insert(e).contains(
        x,
    ) by {
        let i = choose|i: int| 0 <= i < s.push(e).len() && s.push(e)[i] == x;
        if i < s.len() {
            assert(s[i] == x);
        }
    }
    assert forall|x: PublicKey| s.to_set().insert(e).contains(x) implies s.push(e).contains(
        x,
    ) by {
        if x == e {
            assert(s.push(e)[s.len() as int] == x);
        } else {
            let i = choose|i: int| 0 <= i < s.len() && s[i] == x;
            assert(s.push(e)[i] == x);
        }
    }
    assert(s.push(e).to_set() =~= s.to_set().insert(e));
}

/// No members, no stake.
proof fn lemma_set_stake_empty(s: Seq<Authority>)
    ensures
        set_stake(s, Set::<PublicKey>::empty()) == 0,
    decreases s.len(),
{
    if s.len() > 0 {
        lemma_set_stake_empty(s.drop_last());
    }
}

} // verus!
