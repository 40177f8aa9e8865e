//! The block proposer's deploy bookkeeping.
//!
//! The proposer keeps the deploys pending inclusion and those already
//! finalized, keyed by deploy hash, and prunes the expired ones by their
//! header's timestamp and time to live.

use vstd::prelude::*;
use vstd::string::StringSliceAdditionalSpecFns;

use crate::transaction::DeployHash;

verus! {

broadcast use vstd::seq_lib::group_seq_properties;

/// What the proposer needs of a deploy's header: when it was created and
/// how long it lives, both in milliseconds.
#[derive(Clone, Copy, PartialEq, Eq, Structural, Debug)]
pub struct DeployHeader {
    pub timestamp: u64,
    pub ttl: u64,
}

/// `true` when the deploy is expired at `now`.
pub open spec fn spec_expired(header: DeployHeader, now: u64) -> bool {
    header.timestamp + header.ttl < now
}

impl DeployHeader {
    /// `true` when the deploy is expired at `current_instant`.
    pub fn expired(&self, current_instant: u64) -> (r: bool)
        ensures
            r == spec_expired(*self, current_instant),
    {
        current_instant > self.timestamp && current_instant - self.timestamp > self.ttl
    }
}

/// The entries of `s` whose header is not expired at `now`, in order.
pub open spec fn keep_unexpired(s: Seq<(DeployHash, DeployHeader)>, now: u64) -> Seq<
    (DeployHash, DeployHeader),
>
    decreases s.len(),
{
    if s.len() == 0 {
        Seq::empty()
    } else {
        let prev = keep_unexpired(s.drop_last(), now);
        if spec_expired(s.last().1, now) {
            prev
        } else {
            prev.push(s.last())
        }
    }
}

/// A collection of deploys pending or finalized, keyed by deploy hash, in
/// insertion order.
#[derive(PartialEq, Eq, Debug, Clone)]
pub struct DeployCollection {
    pub deploys: Vec<(DeployHash, DeployHeader)>,
}

impl View for DeployCollection {
    type V = Seq<(DeployHash, DeployHeader)>;

    open spec fn view(&self) -> Seq<(DeployHash, DeployHeader)> {
        self.deploys@
    }
}

impl DeployCollection {
    /// An empty collection.
    pub fn new() -> (r: Self)
        ensures
            r@ == Seq::<(DeployHash, DeployHeader)>::empty(),
    {
        DeployCollection { deploys: Vec::new() }
    }

    /// The number of deploys held.
    pub fn len(&self) -> (n: usize)
        ensures
            n == self@.len(),
    {
        self.deploys.len()
    }

    /// Appends one deploy.
    pub fn push(&mut self, hash: DeployHash, header: DeployHeader)
        ensures
            final(self)@ == old(self)@.push((hash, header)),
    {
        self.deploys.push((hash, header));
    }
}

/// Prunes expired deploy information from an individual `DeployCollection`;
/// returns the total deploys pruned.
pub fn prune_deploys(deploys: &mut DeployCollection, current_instant: u64) -> (r: usize)
    ensures
        final(deploys)@ == keep_unexpired(old(deploys)@, current_instant),
        r == old(deploys)@.len() - final(deploys)@.len(),
{
    let ghost orig = deploys@;
    let initial_len = deploys.deploys.len();
    let mut kept: Vec<(DeployHash, DeployHeader)> = Vec::new();
    let mut i: usize = 0;
    while i < deploys.deploys.len()
        invariant
            i <= deploys@.len(),
            deploys@ == orig,
            kept@ == keep_unexpired(orig.take(i as int), current_instant),
            kept@.len() <= i,
        decreases deploys@.len() - i,
    {
        let ghost prefix = orig.take(i as int);
        let entry = deploys.deploys[i];
        proof {
            assert(orig.take(i as int + 1).drop_last() =~= prefix);
            assert(orig.take(i as int + 1).last() == entry);
        }
        if !entry.1.expired(current_instant) {
            kept.push(entry);
        }
        i += 1;
    }
    proof {
        assert(orig.take(orig.len() as int) =~= orig);
    }
    deploys.deploys = kept;
    initial_len - deploys.deploys.len()
}

/// Stores the internal state of the block proposer: the deploys pending
/// inclusion in a block, those already included in a finalized block, the
/// next block height expected to be finalized, and the queue of finalized
/// heights awaiting inclusion.
#[derive(PartialEq, Eq, Debug, Clone)]
pub struct BlockProposerDeploySets {
    pub pending: DeployCollection,
    pub finalized_deploys: DeployCollection,
    pub next_finalized: u64,
    pub finalization_queue: Vec<u64>,
}

impl BlockProposerDeploySets {
    /// Prunes expired deploy information from the proposer state; returns
    /// the total deploys pruned.
    pub fn prune(&mut self, current_instant: u64) -> (r: usize)
        requires
            old(self).pending@.len() + old(self).finalized_deploys@.len() <= usize::MAX,
        ensures
            final(self).pending@ == keep_unexpired(old(self).pending@, current_instant),
            final(self).finalized_deploys@ == keep_unexpired(
                old(self).finalized_deploys@,
                current_instant,
            ),
            final(self).next_finalized == old(self).next_finalized,
            final(self).finalization_queue == old(self).finalization_queue,
            r == (old(self).pending@.len() - final(self).pending@.len()) + (
            old(self).finalized_deploys@.len() - final(self).finalized_deploys@.len()),
    {
        proof {
            lemma_keep_unexpired_len(self.pending@, current_instant);
            lemma_keep_unexpired_len(self.finalized_deploys@, current_instant);
        }
        let pending = prune_deploys(&mut self.pending, current_instant);
        let finalized = prune_deploys(&mut self.finalized_deploys, current_instant);
        pending + finalized
    }
}

/// Pruning never grows a collection.
pub proof fn lemma_keep_unexpired_len(s: Seq<(DeployHash, DeployHeader)>, now: u64)
    ensures
        keep_unexpired(s, now).len() <= s.len(),
    decreases s.len(),
{
    if s.len() > 0 {
        lemma_keep_unexpired_len(s.drop_last(), now);
    }
}

/// What `create_storage_key` needs of a chainspec: the protocol version and
/// the chain name, both as printable bytes.
#[derive(PartialEq, Eq, Debug, Clone)]
pub struct Chainspec {
    pub protocol_version: Vec<u8>,
    pub name: Vec<u8>,
}

/// The storage key for the proposer's deploy sets under the given chainspec.
pub open spec fn storage_key_spec(version: Seq<u8>, name: Seq<u8>) -> Seq<u8> {
    "block_proposer_deploy_sets:version=".spec_bytes() + version + ",chain_name=".spec_bytes()
        + name
}

/// Create a state storage key for block proposer deploy sets based on a
/// chainspec.
///
/// The key is namespaced by the chainspec to prevent validators from loading
/// data for a different chain if they forget to clear their state.
pub fn create_storage_key(chainspec: &Chainspec) -> (r: Vec<u8>)
    ensures
        r@ == storage_key_spec(chainspec.protocol_version@, chainspec.name@),
{
    let mut r: Vec<u8> = Vec::new();
    r.extend_from_slice("block_proposer_deploy_sets:version=".as_bytes());
    proof {
        lemma_u8_extend(r@, Seq::empty(), "block_proposer_deploy_sets:version=".spec_bytes());
    }
    r.extend_from_slice(chainspec.protocol_version.as_slice());
    proof {
        lemma_u8_extend(
            r@,
            "block_proposer_deploy_sets:version=".spec_bytes(),
            chainspec.protocol_version@,
        );
    }
    r.extend_from_slice(",chain_name=".as_bytes());
    proof {
        lemma_u8_extend(
            r@,
            "block_proposer_deploy_sets:version=".spec_bytes() + chainspec.protocol_version@,
            ",chain_name=".spec_bytes(),
        );
    }
    r.extend_from_slice(chainspec.name.as_slice());
    proof {
        lemma_u8_extend(
            r@,
            "block_proposer_deploy_sets:version=".spec_bytes() + chainspec.protocol_version@
                + ",chain_name=".spec_bytes(),
            chainspec.name@,
        );
    }
    r
}

/// Extending a byte vector appends exactly the bytes: for `u8`, a clone is
/// the value itself.
proof fn lemma_u8_extend(cur: Seq<u8>, base: Seq<u8>, added: Seq<u8>)
    requires
        cur.len() == base.len() + added.len(),
        forall|i: int|
            #![trigger cur[i]]
            0 <= i < cur.len() ==> if i < base.len() {
                cur[i] == base[i]
            } else {
                vstd::prelude::cloned::<u8>(added[i - base.len()], cur[i])
            },
    ensures
        cur == base + added,
{
    assert forall|i: int| 0 <= i < cur.len() implies cur[i] == (base + added)[i] by {
        if i >= base.len() {
            assert(vstd::prelude::cloned::<u8>(added[i - base.len()], cur[i]));
        }
    }
    assert(cur =~= base + added);
}

} // verus!
