//! The committee model: validator identities, stakes, addresses, and the
//! Byzantine quorum threshold derived from the total stake.
use vstd::prelude::*;

verus! {

/// Integer voting weight of a validator.
pub type Stake = u32;

/// Identifier of the epoch a committee snapshot belongs to.
pub type EpochNumber = u128;

/// A validator identity, modelled as a plain integer key.
#[derive(Clone, Copy, PartialEq, Eq, Structural, Hash, Debug)]
pub struct PublicKey(pub u64);

/// A network endpoint, modelled as plain values: an IP (v4 or v6 packed
/// into an integer) and a port.
#[derive(Clone, Copy, PartialEq, Eq, Structural, Hash, Debug)]
pub struct Address {
    pub ip: u128,
    pub port: u16,
}

/// Tuning knobs of the batch assembler.
pub struct Parameters {
    /// Serialized size (in bytes) that forces a batch flush.
    pub batch_size: usize,
    /// Longest time (in milliseconds) a partial batch may wait before a flush.
    pub max_batch_delay: u64,
}

impl Default for Parameters {
    fn default() -> (p: Self)
        ensures
            p.batch_size == 500_000,
            p.max_batch_delay == 200,
    {
        Self {
            batch_size: 500_000,
            max_batch_delay: 200,
        }
    }
}

/// One committee member: identity, voting weight, endpoint.
#[derive(Clone, Copy, PartialEq, Eq, Structural, Debug)]
pub struct Authority {
    pub name: PublicKey,
    pub stake: Stake,
    pub address: Address,
}

/// Sum of the stakes of every authority in the sequence.
pub open spec fn total_stake_of(s: Seq<Authority>) -> int
    decreases s.len(),
{
    if s.len() == 0 {
        0
    } else {
        total_stake_of(s.drop_last()) + s.last().stake
    }
}

/// Sum of the stakes of the authorities in the sequence whose name is `name`.
/// When names are unique this is the stake of the one matching authority,
/// and 0 when the name is unknown.
pub open spec fn stake_of(s: Seq<Authority>, name: PublicKey) -> int
    decreases s.len(),
{
    if s.len() == 0 {
        0
    } else {
        stake_of(s.drop_last(), name) + if s.last().name == name {
            s.last().stake as int
        } else {
            0
        }
    }
}

/// The address of the first authority in the sequence named `name`, if any.
pub open spec fn address_of(s: Seq<Authority>, name: PublicKey) -> Option<Address>
    decreases s.len(),
{
    if s.len() == 0 {
        None
    } else if address_of(s.drop_last(), name) is Some {
        address_of(s.drop_last(), name)
    } else if s.last().name == name {
        Some(s.last().address)
    } else {
        None
    }
}

/// The broadcast target set: every authority except `myself`, in committee
/// order, as (identity, endpoint) pairs.
pub open spec fn targets_of(s: Seq<Authority>, myself: PublicKey) -> Seq<(PublicKey, Address)>
    decreases s.len(),
{
    if s.len() == 0 {
        Seq::empty()
    } else {
        targets_of(s.drop_last(), myself) + if s.last().name == myself {
            Seq::empty()
        } else {
            seq![(s.last().name, s.last().address)]
        }
    }
}

/// An immutable per-epoch snapshot of the validator set.
pub struct Committee {
    pub authorities: Vec<Authority>,
    pub epoch: EpochNumber,
}

impl Committee {
    /// Committee invariant: identities are unique, the total stake is
    /// positive, and the total stake fits the `Stake` machine type.
    pub open spec fn wf(self) -> bool {
        &&& forall|i: int, j: int|
            0 <= i < j < self.authorities@.len() ==> self.authorities@[i].name
                != self.authorities@[j].name
        &&& 0 < total_stake_of(self.authorities@) <= Stake::MAX
    }

    /// Total stake held by the whole committee.
    pub open spec fn total_stake(self) -> int {
        total_stake_of(self.authorities@)
    }

    /// The Byzantine quorum threshold: floor(2 * total / 3) + 1.
    pub open spec fn threshold(self) -> int {
        2 * self.total_stake() / 3 + 1
    }

    /// Builds the committee from (identity, stake, endpoint) records.
    pub fn new(info: Vec<(PublicKey, Stake, Address)>, epoch: EpochNumber) -> (c: Committee)
        requires
            ({
                let a = auths_of(info@);
                &&& forall|i: int, j: int| 0 <= i < j < a.len() ==> a[i].name != a[j].name
                &&& 0 < total_stake_of(a) <= Stake::MAX
            }),
        ensures
            c.wf(),
            c.authorities@ == auths_of(info@),
            c.epoch == epoch,
    {
        let mut authorities: Vec<Authority> = Vec::new();
        let n = info.len();
        let mut i: usize = 0;
        while i < n
            invariant
                n == info@.len(),
                i <= n,
                authorities@ == auths_of(info@).take(i as int),
            decreases n - i,
        {
            let (name, stake, address) = info[i];
            authorities.push(Authority { name, stake, address });
            proof {
                assert(auths_of(info@).take(i + 1).drop_last() == auths_of(info@).take(i as int));
                assert(authorities@ == auths_of(info@).take(i + 1));
            }
            i = i + 1;
        }
        proof {
            assert(auths_of(info@).take(n as int) == auths_of(info@));
        }
        Committee { authorities, epoch }
    }

    /// The stake of `name`, or 0 for an identity outside the committee.
    pub fn stake(&self, name: &PublicKey) -> (s: Stake)
        requires
            self.wf(),
        ensures
            s == stake_of(self.authorities@, *name),
    {
        proof {
            lemma_stake_of_le_total(self.authorities@, *name);
            lemma_total_stake_nonneg(self.authorities@);
        }
        let mut acc: u64 = 0;
        let n = self.authorities.len();
        let mut i: usize = 0;
        while i < n
            invariant
                self.wf(),
                n == self.authorities@.len(),
                i <= n,
                acc == stake_of(self.authorities@.take(i as int), *name),
                acc <= Stake::MAX,
            decreases n - i,
        {
            proof {
                assert(self.authorities@.take(i + 1).drop_last() == self.authorities@.take(
                    i as int,
                ));
                lemma_stake_of_le_total(self.authorities@.take(i + 1), *name);
                lemma_take_total_le(self.authorities@, i + 1);
            }
            if self.authorities[i].name == *name {
                acc = acc + self.authorities[i].stake as u64;
            }
            i = i + 1;
        }
        proof {
            assert(self.authorities@.take(n as int) == self.authorities@);
        }
        acc as Stake
    }

    /// The quorum threshold over the total stake: floor(2 T / 3) + 1.
    pub fn quorum_threshold(&self) -> (t: Stake)
        requires
            self.wf(),
        ensures
            t == self.threshold(),
    {
        let total = self.total_stake_exec();
        let t: u64 = 2 * (total as u64) / 3 + 1;
        t as Stake
    }

    /// The total stake of the committee.
    pub fn total_stake_exec(&self) -> (t: Stake)
        requires
            self.wf(),
        ensures
            t == self.total_stake(),
    {
        let mut acc: u64 = 0;
        let n = self.authorities.len();
        let mut i: usize = 0;
        while i < n
            invariant
                self.wf(),
                n == self.authorities@.len(),
                i <= n,
                acc == total_stake_of(self.authorities@.take(i as int)),
                acc <= Stake::MAX,
            decreases n - i,
        {
            proof {
                assert(self.authorities@.take(i + 1).drop_last() == self.authorities@.take(
                    i as int,
                ));
                lemma_take_total_le(self.authorities@, i + 1);
                lemma_total_stake_nonneg(self.authorities@.take(i + 1));
            }
            acc = acc + self.authorities[i].stake as u64;
            i = i + 1;
        }
        proof {
            assert(self.authorities@.take(n as int) == self.authorities@);
        }
        acc as Stake
    }

    /// The endpoint registered for `name`, if the identity is a member.
    pub fn address(&self, name: &PublicKey) -> (a: Option<Address>)
        ensures
            a == address_of(self.authorities@, *name),
    {
        let n = self.authorities.len();
        let mut i: usize = 0;
        while i < n
            invariant
                n == self.authorities@.len(),
                i <= n,
                address_of(self.authorities@.take(i as int), *name) is None,
            decreases n - i,
        {
            proof {
                assert(self.authorities@.take(i + 1).drop_last() == self.authorities@.take(
                    i as int,
                ));
            }
            if self.authorities[i].name == *name {
                let r = Some(self.authorities[i].address);
                proof {
                    lemma_address_of_extend(self.authorities@, i as int, *name);
                }
                return r;
            }
            i = i + 1;
        }
        proof {
            assert(self.authorities@.take(n as int) == self.authorities@);
        }
        None
    }

    /// All committee members except `myself`, with their endpoints.
    pub fn broadcast_addresses(&self, myself: &PublicKey) -> (r: Vec<(PublicKey, Address)>)
        ensures
            r@ == targets_of(self.authorities@, *myself),
    {
        let mut r: Vec<(PublicKey, Address)> = Vec::new();
        let n = self.authorities.len();
        let mut i: usize = 0;
        while i < n
            invariant
                n == self.authorities@.len(),
                i <= n,
                r@ == targets_of(self.authorities@.take(i as int), *myself),
            decreases n - i,
        {
            proof {
                assert(self.authorities@.take(i + 1).drop_last() == self.authorities@.take(
                    i as int,
                ));
            }
            if !(self.authorities[i].name == *myself) {
                r.push((self.authorities[i].name, self.authorities[i].address));
            }
            proof {
                assert(r@ == targets_of(self.authorities@.take(i + 1), *myself));
            }
            i = i + 1;
        }
        proof {
            assert(self.authorities@.take(n as int) == self.authorities@);
        }
        r
    }
}

/// The authority records that `Committee::new` builds from its input.
pub open spec fn auths_of(info: Seq<(PublicKey, Stake, Address)>) -> Seq<Authority> {
    info.map_values(
        |t: (PublicKey, Stake, Address)|
            Authority { name: t.0, stake: t.1, address: t.2 },
    )
}

/// Sum of the stakes of the authorities in the sequence whose name belongs
/// to `members`. A name outside the committee contributes nothing.
pub open spec fn set_stake(s: Seq<Authority>, members: Set<PublicKey>) -> int
    decreases s.len(),
{
    if s.len() == 0 {
        0
    } else {
        set_stake(s.drop_last(), members) + if members.contains(s.last().name) {
            s.last().stake as int
        } else {
            0
        }
    }
}

/// The stake of a member set is never negative and never exceeds the total.
pub proof fn lemma_set_stake_bounds(s: Seq<Authority>, members: Set<PublicKey>)
    ensures
        0 <= set_stake(s, members) <= total_stake_of(s),
    decreases s.len(),
{
    if s.len() > 0 {
        lemma_set_stake_bounds(s.drop_last(), members);
    }
}

/// Counting one more member adds exactly that member's stake.
pub proof fn lemma_set_stake_insert(s: Seq<Authority>, members: Set<PublicKey>, name: PublicKey)
    requires
        !members.contains(name),
    ensures
        set_stake(s, members.insert(name)) == set_stake(s, members) + stake_of(s, name),
    decreases s.len(),
{
    if s.len() > 0 {
        lemma_set_stake_insert(s.drop_last(), members, name);
    }
}

/// A member set that excludes `name` and the stake of `name` itself never
/// sum to more than the committee total.
pub proof fn lemma_own_plus_set_le_total(s: Seq<Authority>, name: PublicKey, members: Set<PublicKey>)
    requires
        !members.contains(name),
    ensures
        0 <= stake_of(s, name) + set_stake(s, members) <= total_stake_of(s),
    decreases s.len(),
{
    if s.len() > 0 {
        lemma_own_plus_set_le_total(s.drop_last(), name, members);
    }
}

/// Inclusion–exclusion for stake sums over member sets.
pub proof fn lemma_stake_inclusion_exclusion(
    s: Seq<Authority>,
    a: Set<PublicKey>,
    b: Set<PublicKey>,
)
    ensures
        set_stake(s, a) + set_stake(s, b) == set_stake(s, a.union(b)) + set_stake(
            s,
            a.intersect(b),
        ),
    decreases s.len(),
{
    if s.len() > 0 {
        lemma_stake_inclusion_exclusion(s.drop_last(), a, b);
    }
}

/// A member set with positive stake holds at least one committee member
/// with positive stake.
pub proof fn lemma_positive_stake_witness(s: Seq<Authority>, members: Set<PublicKey>)
    requires
        set_stake(s, members) > 0,
    ensures
        exists|n: PublicKey| members.contains(n) && stake_of(s, n) > 0,
    decreases s.len(),
{
    let last = s.last();
    if members.contains(last.name) && last.stake > 0 {
        lemma_stake_of_le_total(s.drop_last(), last.name);
        assert(members.contains(last.name) && stake_of(s, last.name) > 0);
    } else {
        lemma_positive_stake_witness(s.drop_last(), members);
        let n = choose|n: PublicKey| members.contains(n) && stake_of(s.drop_last(), n) > 0;
        assert(members.contains(n) && stake_of(s, n) > 0);
    }
}

/// The Byzantine quorum-intersection property: any two member sets whose
/// stakes both reach the quorum threshold share at least one committee
/// member of positive stake, so their stake-weighted intersection is
/// non-empty.
pub proof fn lemma_quorum_intersection(c: Committee, a: Set<PublicKey>, b: Set<PublicKey>)
    requires
        c.wf(),
        set_stake(c.authorities@, a) >= c.threshold(),
        set_stake(c.authorities@, b) >= c.threshold(),
    ensures
        set_stake(c.authorities@, a.intersect(b)) > 0,
        exists|n: PublicKey|
            a.contains(n) && b.contains(n) && stake_of(c.authorities@, n) > 0,
{
    let s = c.authorities@;
    let t = total_stake_of(s);
    lemma_stake_inclusion_exclusion(s, a, b);
    lemma_set_stake_bounds(s, a.union(b));
    assert(3 * (2 * t / 3) + (2 * t) % 3 == 2 * t) by {
        vstd::arithmetic::div_mod::lemma_fundamental_div_mod(2 * t, 3);
    }
    assert(set_stake(s, a.intersect(b)) > 0);
    lemma_positive_stake_witness(s, a.intersect(b));
    let n = choose|n: PublicKey| a.intersect(b).contains(n) && stake_of(s, n) > 0;
    assert(a.contains(n) && b.contains(n) && stake_of(s, n) > 0);
}

/// The total stake of a sequence of authorities is never negative.
pub proof fn lemma_total_stake_nonneg(s: Seq<Authority>)
    ensures
        0 <= total_stake_of(s),
    decreases s.len(),
{
    if s.len() > 0 {
        lemma_total_stake_nonneg(s.drop_last());
    }
}

/// The stake of a single name never exceeds the total stake.
pub proof fn lemma_stake_of_le_total(s: Seq<Authority>, name: PublicKey)
    ensures
        0 <= stake_of(s, name) <= total_stake_of(s),
    decreases s.len(),
{
    if s.len() > 0 {
        lemma_stake_of_le_total(s.drop_last(), name);
    }
}

/// The total stake of a prefix never exceeds the total stake of the whole.
pub proof fn lemma_take_total_le(s: Seq<Authority>, i: int)
    requires
        0 <= i <= s.len(),
    ensures
        total_stake_of(s.take(i)) <= total_stake_of(s),
    decreases s.len() - i,
{
    if i < s.len() {
        lemma_take_total_le(s, i + 1);
        assert(s.take(i + 1).drop_last() == s.take(i));
        assert(total_stake_of(s.take(i)) <= total_stake_of(s.take(i + 1)));
    } else {
        assert(s.take(i) == s);
    }
}

/// Extending an unmatched prefix by a matching authority at index `i`
/// makes that authority's address the lookup result for the whole sequence.
proof fn lemma_address_of_extend(s: Seq<Authority>, i: int, name: PublicKey)
    requires
        0 <= i < s.len(),
        address_of(s.take(i), name) is None,
        s[i].name == name,
    ensures
        address_of(s, name) == Some(s[i].address),
    decreases s.len() - i,
{
    assert(s.take(i + 1).drop_last() == s.take(i));
    assert(address_of(s.take(i + 1), name) == Some(s[i].address));
    lemma_address_of_found_extends(s, i + 1, name);
}

/// Once a lookup over a prefix has found an address, every longer prefix
/// (and the whole sequence) returns the same address.
proof fn lemma_address_of_found_extends(s: Seq<Authority>, i: int, name: PublicKey)
    requires
        0 <= i <= s.len(),
        address_of(s.take(i), name) is Some,
    ensures
        address_of(s, name) == address_of(s.take(i), name),
    decreases s.len() - i,
{
    if i < s.len() {
        assert(s.take(i + 1).drop_last() == s.take(i));
        assert(address_of(s.take(i + 1), name) == address_of(s.take(i), name));
        lemma_address_of_found_extends(s, i + 1, name);
    } else {
        assert(s.take(i) == s);
    }
}

} // verus!
