//! The commit processor: hashes a released batch, records the mapping
//! digest → batch in the durable store, and only then forwards the digest
//! to the consensus sink. The consensus layer thus never sees a digest
//! whose payload is not yet retrievable under it.
use vstd::prelude::*;

use crate::SerializedBatch;
use ed25519_dalek::Digest as _;

verus! {

/// A fixed-size cryptographic digest identifying a batch's contents.
pub type Digest = Vec<u8>;

/// The SHA-512 hash of a byte string. It stands for the hash function's
/// output, which depends on the input bytes alone.
pub uninterp spec fn sha512_of(bytes: Seq<u8>) -> Seq<u8>;

/// The digest of a batch: the SHA-512 hash truncated to its first 32 bytes.
pub open spec fn digest_of(bytes: Seq<u8>) -> Seq<u8> {
    sha512_of(bytes).take(32)
}

/// Relies on ed25519_dalek::Sha512 (SHA-512 of the sha2 crate): the hash
/// depends on the input bytes alone, and its output is 64 bytes long.
#[verifier::external_body]
fn sha512(bytes: &Vec<u8>) -> (r: Vec<u8>)
    ensures
        r@ == sha512_of(bytes@),
        r@.len() == 64,
{
    let h = ed25519_dalek::Sha512::digest(bytes.as_slice());
    h.to_vec()
}

/// Computes the digest of a serialized batch: hashing identical bytes
/// yields an identical digest.
pub fn compute_digest(bytes: &SerializedBatch) -> (d: Digest)
    ensures
        d@ == digest_of(bytes@),
        d@.len() == 32,
{
    let mut h = sha512(bytes);
    h.truncate(32);
    proof {
        assert(h@ == sha512_of(bytes@).take(32));
    }
    h
}

/// Copies a byte string.
pub(crate) fn copy_bytes(v: &Vec<u8>) -> (r: Vec<u8>)
    ensures
        r@ == v@,
{
    let r = v.clone();
    proof {
        assert(r@ =~= v@);
    }
    r
}

/// The durable store's contents: (digest, batch) records in write order.
pub open spec fn store_entries(store: Seq<(Digest, SerializedBatch)>) -> Seq<(Seq<u8>, Seq<u8>)> {
    store.map_values(|e: (Digest, SerializedBatch)| (e.0@, e.1@))
}

/// The batch stored under `key`, if any.
pub open spec fn store_lookup(entries: Seq<(Seq<u8>, Seq<u8>)>, key: Seq<u8>) -> Option<Seq<u8>>
    decreases entries.len(),
{
    if entries.len() == 0 {
        None
    } else if store_lookup(entries.drop_last(), key) is Some {
        store_lookup(entries.drop_last(), key)
    } else if entries.last().0 == key {
        Some(entries.last().1)
    } else {
        None
    }
}

/// Hashes released batches, persists them keyed by digest, and forwards
/// each digest to the consensus sink only once its batch is stored.
pub struct Processor {
    /// The durable store: batches keyed by their digest, in write order.
    pub store: Vec<(Digest, SerializedBatch)>,
    /// The digests forwarded to the consensus sink, in forward order.
    pub sink: Vec<Digest>,
}

impl Processor {
    /// The view of the store as (key, value) byte strings.
    pub open spec fn store_view(self) -> Seq<(Seq<u8>, Seq<u8>)> {
        store_entries(self.store@)
    }

    /// The view of the consensus sink as a sequence of digests.
    pub open spec fn sink_view(self) -> Seq<Seq<u8>> {
        self.sink@.map_values(|d: Digest| d@)
    }

    /// The digest at sink position `i` is the key of some store record.
    pub open spec fn sink_key_stored(self, i: int) -> bool {
        exists|j: int|
            0 <= j < self.store_view().len() && (#[trigger] self.store_view()[j]).0
                == self.sink_view()[i]
    }

    /// Durability-before-forward invariant: every store record is keyed by
    /// the digest of its batch, and every digest on the sink is the key of
    /// some store record.
    pub open spec fn wf(self) -> bool {
        &&& forall|j: int|
            0 <= j < self.store_view().len() ==> (#[trigger] self.store_view()[j]).0 == digest_of(
                self.store_view()[j].1,
            )
        &&& forall|i: int| 0 <= i < self.sink_view().len() ==> #[trigger] self.sink_key_stored(i)
    }

    pub fn new() -> (p: Processor)
        ensures
            p.wf(),
            p.store_view() == Seq::<(Seq<u8>, Seq<u8>)>::empty(),
            p.sink_view() == Seq::<Seq<u8>>::empty(),
    {
        let p = Processor { store: Vec::new(), sink: Vec::new() };
        proof {
            assert(p.store_view() =~= Seq::<(Seq<u8>, Seq<u8>)>::empty());
            assert(p.sink_view() =~= Seq::<Seq<u8>>::empty());
        }
        p
    }

    /// Commits one released batch: computes its digest, persists the
    /// (digest, batch) record, and then — and only then — forwards the
    /// digest to the consensus sink. Returns the digest.
    pub fn process(&mut self, batch: SerializedBatch) -> (d: Digest)
        requires
            old(self).wf(),
        ensures
            final(self).wf(),
            d@ == digest_of(batch@),
            final(self).store_view() == old(self).store_view().push(
                (digest_of(batch@), batch@),
            ),
            final(self).sink_view() == old(self).sink_view().push(digest_of(batch@)),
    {
        let d = compute_digest(&batch);
        let d_store = copy_bytes(&d);
        let d_sink = copy_bytes(&d);
        let ghost batchv = batch@;
        self.store.push((d_store, batch));
        self.sink.push(d_sink);
        proof {
            assert(self.store_view() =~= old(self).store_view().push((digest_of(batchv), batchv)));
            assert(self.sink_view() =~= old(self).sink_view().push(digest_of(batchv)));
            let n = old(self).store_view().len();
            assert forall|j: int|
                0 <= j < self.store_view().len() implies (#[trigger] self.store_view()[j]).0
                == digest_of(self.store_view()[j].1) by {
                if j < n {
                    assert(self.store_view()[j] == old(self).store_view()[j]);
                    assert((old(self).store_view()[j]).0 == digest_of(old(self).store_view()[j].1));
                } else {
                    assert(self.store_view()[j] == (digest_of(batchv), batchv));
                }
            }
            assert forall|i: int| 0 <= i < self.sink_view().len() implies #[trigger] self.sink_key_stored(i) by {
                if i < old(self).sink_view().len() {
                    assert(old(self).sink_key_stored(i));
                    let j = choose|j: int|
                        0 <= j < old(self).store_view().len() && (#[trigger] old(
                            self,
                        ).store_view()[j]).0 == old(self).sink_view()[i];
                    assert(self.store_view()[j].0 == self.sink_view()[i]);
                } else {
                    assert(self.store_view()[n as int].0 == self.sink_view()[i]);
                }
            }
        }
        d
    }

    /// Reads the batch stored under `digest` back from the store, if any.
    pub fn read(&self, digest: &Digest) -> (r: Option<SerializedBatch>)
        ensures
            match r {
                Some(b) => store_lookup(self.store_view(), digest@) == Some(b@),
                None => store_lookup(self.store_view(), digest@) is None,
            },
    {
        let n = self.store.len();
        let mut i: usize = 0;
        while i < n
            invariant
                n == self.store@.len(),
                i <= n,
                store_lookup(self.store_view().take(i as int), digest@) is None,
            decreases n - i,
        {
            proof {
                assert(self.store_view().take(i + 1).drop_last() == self.store_view().take(
                    i as int,
                ));
            }
            if bytes_eq(&self.store[i].0, digest) {
                let b = copy_bytes(&self.store[i].1);
                proof {
                    lemma_store_lookup_extend(self.store_view(), i as int, digest@);
                }
                return Some(b);
            }
            i = i + 1;
        }
        proof {
            assert(self.store_view().take(n as int) == self.store_view());
        }
        None
    }
}

/// Whether two byte strings hold the same bytes.
fn bytes_eq(a: &Vec<u8>, b: &Vec<u8>) -> (r: bool)
    ensures
        r == (a@ == b@),
{
    if a.len() != b.len() {
        return false;
    }
    let n = a.len();
    let mut i: usize = 0;
    while i < n
        invariant
            n == a@.len() == b@.len(),
            i <= n,
            forall|j: int| 0 <= j < i ==> a@[j] == b@[j],
        decreases n - i,
    {
        if a[i] != b[i] {
            return false;
        }
        i = i + 1;
    }
    proof {
        assert(a@ =~= b@);
    }
    true
}

/// Extending an unmatched prefix by a matching record at index `i` makes
/// that record's batch the lookup result for the whole store.
proof fn lemma_store_lookup_extend(entries: Seq<(Seq<u8>, Seq<u8>)>, i: int, key: Seq<u8>)
    requires
        0 <= i < entries.len(),
        store_lookup(entries.take(i), key) is None,
        entries[i].0 == key,
    ensures
        store_lookup(entries, key) == Some(entries[i].1),
{
    assert(entries.take(i + 1).drop_last() == entries.take(i));
    assert(store_lookup(entries.take(i + 1), key) == Some(entries[i].1));
    lemma_store_lookup_found_extends(entries, i + 1, key);
}

/// Once a lookup over a prefix has found a record, every longer prefix
/// (and the whole store) returns the same record.
proof fn lemma_store_lookup_found_extends(entries: Seq<(Seq<u8>, Seq<u8>)>, i: int, key: Seq<u8>)
    requires
        0 <= i <= entries.len(),
        store_lookup(entries.take(i), key) is Some,
    ensures
        store_lookup(entries, key) == store_lookup(entries.take(i), key),
    decreases entries.len() - i,
{
    if i < entries.len() {
        assert(entries.take(i + 1).drop_last() == entries.take(i));
        assert(store_lookup(entries.take(i + 1), key) == store_lookup(entries.take(i), key));
        lemma_store_lookup_found_extends(entries, i + 1, key);
    } else {
        assert(entries.take(i) == entries);
    }
}

/// The digest is deterministic: it is a function of the batch bytes alone,
/// so re-hashing identical batch bytes yields an identical digest.
pub proof fn lemma_digest_deterministic(b1: Seq<u8>, b2: Seq<u8>)
    requires
        b1 == b2,
    ensures
        digest_of(b1) == digest_of(b2),
{
}

/// Every digest forwarded to the consensus sink is retrievable from the
/// durable store, and the stored batch re-hashes to exactly that digest:
/// the durability-before-forward guarantee.
pub proof fn lemma_durability_before_forward(p: Processor, i: int)
    requires
        p.wf(),
        0 <= i < p.sink_view().len(),
    ensures
        store_lookup(p.store_view(), p.sink_view()[i]) is Some,
        digest_of(store_lookup(p.store_view(), p.sink_view()[i]).unwrap()) == p.sink_view()[i],
{
    let key = p.sink_view()[i];
    assert(p.sink_key_stored(i));
    let j = choose|j: int|
        0 <= j < p.store_view().len() && (#[trigger] p.store_view()[j]).0 == p.sink_view()[i];
    lemma_store_lookup_some(p.store_view(), j, key);
    let v = store_lookup(p.store_view(), key).unwrap();
    lemma_store_lookup_in_entries(p.store_view(), key);
    let k = choose|k: int|
        0 <= k < p.store_view().len() && #[trigger] p.store_view()[k] == (key, v);
    assert(digest_of(v) == key);
}

/// If some record at index `j` matches `key`, the lookup finds a record.
proof fn lemma_store_lookup_some(entries: Seq<(Seq<u8>, Seq<u8>)>, j: int, key: Seq<u8>)
    requires
        0 <= j < entries.len(),
        entries[j].0 == key,
    ensures
        store_lookup(entries, key) is Some,
    decreases entries.len(),
{
    if j == entries.len() - 1 {
        if store_lookup(entries.drop_last(), key) is None {
            assert(store_lookup(entries, key) == Some(entries.last().1));
        }
    } else {
        lemma_store_lookup_some(entries.drop_last(), j, key);
    }
}

/// A found record is one of the store's records, under the looked-up key.
proof fn lemma_store_lookup_in_entries(entries: Seq<(Seq<u8>, Seq<u8>)>, key: Seq<u8>)
    requires
        store_lookup(entries, key) is Some,
    ensures
        exists|k: int|
            0 <= k < entries.len() && #[trigger] entries[k] == (
                key,
                store_lookup(entries, key).unwrap(),
            ),
    decreases entries.len(),
{
    if entries.len() > 0 {
        if store_lookup(entries.drop_last(), key) is Some {
            lemma_store_lookup_in_entries(entries.drop_last(), key);
            let k = choose|k: int|
                0 <= k < entries.drop_last().len() && #[trigger] entries.drop_last()[k] == (
                    key,
                    store_lookup(entries.drop_last(), key).unwrap(),
                );
            assert(entries[k] == (key, store_lookup(entries, key).unwrap()));
        } else {
            assert(entries.last() == (key, store_lookup(entries, key).unwrap()));
            assert(entries[entries.len() - 1] == (key, store_lookup(entries, key).unwrap()));
        }
    }
}

} // verus!
