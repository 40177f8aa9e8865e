//! The trie accumulator.
//!
//! Given a target hash and a peer set, the accumulator produces the fully
//! verified encoded trie node, hiding from the synchronizer whether the node
//! came as a single whole-node response or was assembled from proof-carrying
//! chunks fetched from several peers.  It is a pure state machine: peer
//! responses arrive as events, and network requests, deliveries and peer
//! blame leave as effects.
//!
//! A delivered `Ok` always carries bytes whose digest is exactly the target
//! hash: the whole-node path and the assembled-chunks path both end in the
//! same digest check.  When every pool peer has been tried without a
//! verifiable result the fetch fails with `AllPeersFailed`.  An assembly
//! whose concatenated chunks fail the final digest check is discarded and the
//! peer that completed it is treated as tried; the remaining peers are
//! offered a fresh whole-node attempt.
//!
//! Every contract here is a complete case analysis: [`spec_fetch_post`] and
//! [`spec_response_post`] say, for each event and each kind of answer, what
//! leaves the machine and how the assembly changes, and `handle_event`
//! promises exactly those transitions.

use vstd::prelude::*;

use crate::chunks::ChunkInfo;
use crate::digest::{compute_node_digest, node_digest};
use crate::errors::{BlameReason, TrieAccumulatorError};
use crate::ids::{PeerId, TrieBytes, TrieHash};
use crate::sets::{unique_seq, PeerSet};

verus! {

broadcast use vstd::seq_lib::group_seq_properties;

/// What one peer sent back for one target hash.
pub enum PeerResponse {
    /// The full encoded node.
    WholeNode(TrieBytes),
    /// One chunk of a chunked response, read into plain values through
    /// [`crate::chunks::chunk_info_of`].
    Chunk(ChunkInfo),
    /// The peer failed to answer; a transport timeout is reported the same
    /// way.
    Failed,
}

/// The events the accumulator reacts to.
pub enum TrieAccumulatorEvent {
    /// Start (or join) fetching the node named by `trie_hash`.
    Fetch { trie_hash: TrieHash, peers: Vec<PeerId> },
    /// A peer's answer to an earlier request.
    Response { trie_hash: TrieHash, peer: PeerId, response: PeerResponse },
}

/// The effects the accumulator asks the runtime to carry out.
#[derive(PartialEq, Eq, Debug)]
pub enum TrieAccumulatorEffect {
    /// Ask `peer` for the whole node named by `trie_hash`.
    RequestNode { trie_hash: TrieHash, peer: PeerId },
    /// Ask `peer` for chunk `index` of the node named by `trie_hash`.
    RequestChunk { trie_hash: TrieHash, index: u64, peer: PeerId },
    /// Hand the finished fetch back to the synchronizer.
    Deliver { trie_hash: TrieHash, result: Result<TrieBytes, TrieAccumulatorError> },
    /// Report a misbehaving peer on the blocklist side channel.
    AnnounceMisbehavingPeer { peer: PeerId, reason: BlameReason },
}

/// One in-progress fetch.
pub struct AssemblyState {
    pub peers: PeerSet,
    pub tried: PeerSet,
    pub total_chunks: Option<u64>,
    pub chunks: Vec<(u64, TrieBytes)>,
}

/// The chunk indices collected so far, in arrival order.
pub open spec fn chunk_indices(chunks: Seq<(u64, TrieBytes)>) -> Seq<u64> {
    chunks.map_values(|c: (u64, TrieBytes)| c.0)
}

/// Well-formedness of one assembly.
pub open spec fn assembly_wf(a: AssemblyState) -> bool {
    &&& a.peers@.len() > 0
    &&& unique_seq(a.peers@)
    &&& unique_seq(a.tried@)
    &&& unique_seq(chunk_indices(a.chunks@))
    &&& match a.total_chunks {
        Some(t) => t > 0 && forall|i: int|
            0 <= i < a.chunks@.len() ==> a.chunks@[i].0 < t,
        None => a.chunks@.len() == 0,
    }
}

/// The accumulator: one assembly per target hash.
pub struct TrieAccumulator {
    pub assemblies: Vec<(TrieHash, AssemblyState)>,
}

/// The target hashes with an assembly in progress, in creation order.
pub open spec fn assembly_keys(assemblies: Seq<(TrieHash, AssemblyState)>) -> Seq<TrieHash> {
    assemblies.map_values(|p: (TrieHash, AssemblyState)| p.0)
}

/// `true` when, once `peer`'s failed attempt is counted, every pool peer of
/// assembly `a` has been tried.
pub open spec fn peers_exhausted(a: AssemblyState, peer: PeerId) -> bool {
    forall|p: PeerId| a.peers@.contains(p) ==> a.tried@.contains(p) || p == peer
}

/// `true` when a chunk claiming `index` has been collected.
pub open spec fn has_chunk(chunks: Seq<(u64, TrieBytes)>, index: u64) -> bool {
    chunk_indices(chunks).contains(index)
}

/// The data of the collected chunk claiming `index`.
pub open spec fn chunk_data_at(chunks: Seq<(u64, TrieBytes)>, index: u64) -> Seq<u8> {
    chunks[choose|k: int| 0 <= k < chunks.len() && chunks[k].0 == index].1@
}

/// The collected chunks concatenated in index order, over indices below `n`.
pub open spec fn assembled_bytes(chunks: Seq<(u64, TrieBytes)>, n: int) -> Seq<u8>
    decreases n,
{
    if n <= 0 {
        Seq::empty()
    } else {
        assembled_bytes(chunks, n - 1) + chunk_data_at(chunks, (n - 1) as u64)
    }
}

/// `true` when every chunk index below `total` has been collected.
pub open spec fn assembly_complete(chunks: Seq<(u64, TrieBytes)>, total: u64) -> bool {
    forall|idx: u64| idx < total ==> has_chunk(chunks, idx)
}

/// The number of distinct peers tried, once `peer`'s attempt is counted.
pub open spec fn spec_attempts(a: AssemblyState, peer: PeerId) -> int {
    if a.tried@.contains(peer) {
        a.tried@.len() as int
    } else {
        a.tried@.len() as int + 1
    }
}

/// After `peer`'s attempt at the node of `h` failed, with `a` the assembly
/// at the event's entry: either an untried pool peer gets a fresh whole-node
/// request and the assembly survives with its peers and its tried set (now
/// counting `peer`) intact, or every peer has been tried, the assembly is
/// gone, and `AllPeersFailed` is delivered.  `tail` is the effect that
/// follows whatever blame was announced.
pub open spec fn spec_retry_or_fail(
    a: AssemblyState,
    h: TrieHash,
    peer: PeerId,
    post: TrieAccumulator,
    tail: Seq<TrieAccumulatorEffect>,
) -> bool {
    &&& (peers_exhausted(a, peer) ==> !post.has_assembly(h) && tail.len() == 1 && (tail[0]
        matches TrieAccumulatorEffect::Deliver { trie_hash: dh, result } && dh == h && (result
        matches Err(TrieAccumulatorError::AllPeersFailed { attempts }) && attempts as int
        == spec_attempts(a, peer))))
    &&& (!peers_exhausted(a, peer) ==> post.has_assembly(h) && tail.len() == 1 && (tail[0]
        matches TrieAccumulatorEffect::RequestNode { trie_hash: th, peer: next } && th == h
        && a.peers@.contains(next) && !a.tried@.contains(next) && next != peer)
        && post.assembly_view(h).peers@ == a.peers@ && post.assembly_view(h).tried@ == (
    if a.tried@.contains(peer) {
        a.tried@
    } else {
        a.tried@.push(peer)
    }))
}

/// What one peer response does to the accumulator, case by case; `pre` and
/// `post` are the states before and after, `effects` what came out.
pub open spec fn spec_response_post(
    pre: TrieAccumulator,
    post: TrieAccumulator,
    h: TrieHash,
    peer: PeerId,
    response: PeerResponse,
    effects: Seq<TrieAccumulatorEffect>,
) -> bool {
    &&& (!pre.has_assembly(h) ==> post.assemblies@ == pre.assemblies@ && effects.len() == 0)
    &&& (pre.has_assembly(h) ==> ({
        let a = pre.assembly_view(h);
        match response {
            PeerResponse::WholeNode(bytes) => {
                &&& (node_digest(bytes@) == h ==> !post.has_assembly(h) && effects =~= seq![
                    TrieAccumulatorEffect::Deliver { trie_hash: h, result: Ok(bytes) },
                ])
                &&& (node_digest(bytes@) != h ==> effects.len() == 2 && effects[0]
                    == (TrieAccumulatorEffect::AnnounceMisbehavingPeer {
                    peer,
                    reason: BlameReason::DigestMismatch,
                }) && spec_retry_or_fail(a, h, peer, post, effects.skip(1))
                    && spec_chunks_kept(a, h, peer, post))
            },
            PeerResponse::Chunk(info) => {
                if !info.valid || info.root != h || info.index >= info.count {
                    // an unverifiable chunk: blame and move to the next peer
                    effects.len() == 2 && effects[0]
                        == (TrieAccumulatorEffect::AnnounceMisbehavingPeer {
                        peer,
                        reason: BlameReason::ChunkVerificationFailed,
                    }) && spec_retry_or_fail(a, h, peer, post, effects.skip(1))
                        && spec_chunks_kept(a, h, peer, post)
                } else if a.total_chunks matches Some(t) && t != info.count {
                    // a count disagreeing with the recorded one: blame too
                    effects.len() == 2 && effects[0]
                        == (TrieAccumulatorEffect::AnnounceMisbehavingPeer {
                        peer,
                        reason: BlameReason::InconsistentChunkCount,
                    }) && spec_retry_or_fail(a, h, peer, post, effects.skip(1))
                        && spec_chunks_kept(a, h, peer, post)
                } else if has_chunk(a.chunks@, info.index) {
                    // a duplicate chunk response is idempotent
                    post.assemblies@ == pre.assemblies@ && effects.len() == 0
                } else {
                    // the chunk joins the assembly; the first fixes the count
                    let chunks2 = a.chunks@.push(
                        (info.index, TrieBytes { bytes: info.data }),
                    );
                    let full = assembly_complete(chunks2, info.count);
                    let sound = node_digest(assembled_bytes(chunks2, info.count as int)) == h;
                    &&& (full && sound ==> !post.has_assembly(h) && effects.len() == 1 && (
                    effects[0] matches TrieAccumulatorEffect::Deliver { trie_hash: dh, result }
                        && dh == h && (result matches Ok(b) && b@ == assembled_bytes(
                        chunks2,
                        info.count as int,
                    ))))
                    &&& (full && !sound ==> effects.len() == 2 && effects[0]
                        == (TrieAccumulatorEffect::AnnounceMisbehavingPeer {
                        peer,
                        reason: BlameReason::ChunkVerificationFailed,
                    }) && spec_retry_or_fail(a, h, peer, post, effects.skip(1)) && (
                    post.has_assembly(h) ==> post.assembly_view(h).chunks@.len() == 0
                        && post.assembly_view(h).total_chunks matches None))
                    &&& (!full ==> post.has_assembly(h) && post.assembly_view(h).chunks@
                        == chunks2 && post.assembly_view(h).total_chunks == Some(info.count)
                        && post.assembly_view(h).peers@ == a.peers@ && post.assembly_view(
                        h,
                    ).tried@ == a.tried@ && (forall|k: int|
                        0 <= k < effects.len() ==> ((#[trigger] effects[k])
                            matches TrieAccumulatorEffect::RequestChunk {
                                trie_hash: th,
                                index,
                                peer: rp,
                            } && th == h && index < info.count && !has_chunk(chunks2, index)
                            && a.peers@.contains(rp))) && ((a.total_chunks matches Some(_))
                        ==> effects.len() == 0) && ((a.total_chunks matches None) ==> (
                    forall|idx: u64|
                        idx < info.count && !has_chunk(chunks2, idx) ==> exists|k: int|
                            0 <= k < effects.len() && ((#[trigger] effects[k])
                                matches TrieAccumulatorEffect::RequestChunk { index, .. }
                                && index == idx))))
                }
            },
            PeerResponse::Failed => {
                effects.len() == 1 && spec_retry_or_fail(a, h, peer, post, effects)
                    && spec_chunks_kept(a, h, peer, post)
            },
        }
    }))
}

/// When the assembly survives a failed attempt on one of these paths, its
/// collected chunks and recorded count are untouched.
pub open spec fn spec_chunks_kept(
    a: AssemblyState,
    h: TrieHash,
    peer: PeerId,
    post: TrieAccumulator,
) -> bool {
    !peers_exhausted(a, peer) ==> post.assembly_view(h).chunks@ == a.chunks@
        && post.assembly_view(h).total_chunks == a.total_chunks
}

/// What one fetch call does: join an assembly in progress, fail an empty
/// peer set at once, or open a fresh assembly and ask the first peer.
pub open spec fn spec_fetch_post(
    pre: TrieAccumulator,
    post: TrieAccumulator,
    h: TrieHash,
    peers: Seq<PeerId>,
    effects: Seq<TrieAccumulatorEffect>,
) -> bool {
    &&& (pre.has_assembly(h) ==> effects.len() == 0 && post.has_assembly(h)
        && post.assembly_view(h).peers@ == crate::sets::dedup_append(
        pre.assembly_view(h).peers@,
        peers,
    ))
    &&& (!pre.has_assembly(h) && peers.len() == 0 ==> effects =~= seq![
        TrieAccumulatorEffect::Deliver {
            trie_hash: h,
            result: Err(TrieAccumulatorError::NoPeers),
        },
    ] && post.assemblies@ == pre.assemblies@)
    &&& (!pre.has_assembly(h) && peers.len() > 0 ==> effects =~= seq![
        TrieAccumulatorEffect::RequestNode { trie_hash: h, peer: peers[0] },
    ] && post.has_assembly(h) && post.assembly_view(h).peers@ == crate::sets::dedup_append(
        Seq::<PeerId>::empty(),
        peers,
    ) && post.assembly_view(h).tried@.len() == 0 && post.assembly_view(h).chunks@.len() == 0)
}

/// A delivered `Ok` carries bytes whose digest is the delivered hash.
pub open spec fn effect_integrity(e: TrieAccumulatorEffect) -> bool {
    match e {
        TrieAccumulatorEffect::Deliver { trie_hash, result } => match result {
            Ok(bytes) => node_digest(bytes@) == trie_hash,
            Err(_) => true,
        },
        _ => true,
    }
}

/// Integrity of every effect in a batch.
pub open spec fn effects_integrity(effects: Seq<TrieAccumulatorEffect>) -> bool {
    forall|i: int| 0 <= i < effects.len() ==> effect_integrity(#[trigger] effects[i])
}

impl TrieAccumulator {
    /// No assembly hash occurs twice and every assembly is well formed.
    pub open spec fn wf(&self) -> bool {
        &&& unique_seq(assembly_keys(self.assemblies@))
        &&& forall|i: int|
            0 <= i < self.assemblies@.len() ==> assembly_wf(#[trigger] self.assemblies@[i].1)
    }

    /// `true` when an assembly for `h` is in progress.
    pub open spec fn has_assembly(&self, h: TrieHash) -> bool {
        assembly_keys(self.assemblies@).contains(h)
    }

    /// The assembly in progress for `h`.
    pub open spec fn assembly_view(&self, h: TrieHash) -> AssemblyState {
        self.assemblies@[assembly_keys(self.assemblies@).index_of(h)].1
    }

    /// An idle accumulator.
    pub fn new() -> (r: Self)
        ensures
            r.wf(),
            r.assemblies@.len() == 0,
    {
        TrieAccumulator { assemblies: Vec::new() }
    }

    /// The position of the assembly for `h`, if one is in progress.
    fn find(&self, h: &TrieHash) -> (r: Option<usize>)
        ensures
            match r {
                Some(i) => i < self.assemblies@.len() && self.assemblies@[i as int].0 == *h,
                None => !self.has_assembly(*h),
            },
    {
        let mut i: usize = 0;
        while i < self.assemblies.len()
            invariant
                i <= self.assemblies.len(),
                forall|k: int| 0 <= k < i ==> self.assemblies@[k].0 != *h,
            decreases self.assemblies.len() - i,
        {
            if self.assemblies[i].0 == *h {
                return Some(i);
            }
            i += 1;
        }
        proof {
            if self.has_assembly(*h) {
                let j = choose|j: int|
                    0 <= j < assembly_keys(self.assemblies@).len() && assembly_keys(
                        self.assemblies@,
                    )[j] == *h;
                assert(self.assemblies@[j].0 == *h);
            }
        }
        None
    }

    /// Starts fetching `trie_hash` from `peers`, or joins an assembly already
    /// in progress by widening its peer pool.  An empty peer set with nothing
    /// in progress fails immediately with `NoPeers`; a fresh fetch asks the
    /// first peer for the whole node.
    pub fn fetch(&mut self, trie_hash: TrieHash, peers: &Vec<PeerId>) -> (effects: Vec<
        TrieAccumulatorEffect,
    >)
        requires
            old(self).wf(),
        ensures
            final(self).wf(),
            effects_integrity(effects@),
            spec_fetch_post(*old(self), *final(self), trie_hash, peers@, effects@),
    {
        let mut effects: Vec<TrieAccumulatorEffect> = Vec::new();
        match self.find(&trie_hash) {
            Some(i) => {
                proof {
                    assert(assembly_keys(self.assemblies@)[i as int] == trie_hash);
                }
                self.assemblies[i].1.peers.insert_all(peers);
                proof {
                    crate::sets::lemma_dedup_append_unique(
                        old(self).assemblies@[i as int].1.peers@,
                        peers@,
                    );
                    crate::sets::lemma_dedup_append_membership(
                        old(self).assemblies@[i as int].1.peers@,
                        peers@,
                    );
                    assert(assembly_keys(final(self).assemblies@) =~= assembly_keys(
                        old(self).assemblies@,
                    ));
                }
                effects
            },
            None => {
                if peers.len() == 0 {
                    effects.push(
                        TrieAccumulatorEffect::Deliver {
                            trie_hash,
                            result: Err(TrieAccumulatorError::NoPeers),
                        },
                    );
                    return effects;
                }
                let first = peers[0];
                let mut pool = PeerSet::new();
                pool.insert_all(peers);
                proof {
                    crate::sets::lemma_dedup_append_unique(Seq::<PeerId>::empty(), peers@);
                    crate::sets::lemma_dedup_append_membership(Seq::<PeerId>::empty(), peers@);
                    lemma_dedup_append_first(peers@);
                }
                let st = AssemblyState {
                    peers: pool,
                    tried: PeerSet::new(),
                    total_chunks: None,
                    chunks: Vec::new(),
                };
                let ghost ks = assembly_keys(self.assemblies@);
                self.assemblies.push((trie_hash, st));
                proof {
                    assert(assembly_keys(self.assemblies@) =~= ks.push(trie_hash));
                    assert forall|p: int, q: int|
                        0 <= p < q < assembly_keys(self.assemblies@).len() implies assembly_keys(
                        self.assemblies@,
                    )[p] != assembly_keys(self.assemblies@)[q] by {
                        if q == ks.len() {
                            assert(ks.contains(ks[p]));
                        }
                    }
                    assert(assembly_keys(self.assemblies@)[ks.len() as int] == trie_hash);
                }
                effects.push(TrieAccumulatorEffect::RequestNode { trie_hash, peer: first });
                effects
            },
        }
    }

    /// A pool peer of assembly `i` that has not been tried yet.
    fn next_untried(&self, i: usize) -> (r: Option<PeerId>)
        requires
            i < self.assemblies@.len(),
        ensures
            match r {
                Some(p) => self.assemblies@[i as int].1.peers@.contains(p) && !self.assemblies@[
                    i as int
                ].1.tried@.contains(p),
                None => forall|p: PeerId|
                    self.assemblies@[i as int].1.peers@.contains(p) ==> self.assemblies@[
                        i as int
                    ].1.tried@.contains(p),
            },
    {
        let pool = &self.assemblies[i].1.peers;
        let tried = &self.assemblies[i].1.tried;
        let mut k: usize = 0;
        while k < pool.len()
            invariant
                k <= pool@.len(),
                pool == &self.assemblies@[i as int].1.peers,
                tried == &self.assemblies@[i as int].1.tried,
                forall|j: int| 0 <= j < k ==> tried@.contains(#[trigger] pool@[j]),
            decreases pool@.len() - k,
        {
            let p = pool.get(k);
            if !tried.contains(&p) {
                return Some(p);
            }
            k += 1;
        }
        proof {
            assert forall|p: PeerId| pool@.contains(p) implies tried@.contains(p) by {
                let j = choose|j: int| 0 <= j < pool@.len() && pool@[j] == p;
                assert(tried@.contains(pool@[j]));
            }
        }
        None
    }

    /// Marks `peer` tried for assembly `i`; then either offers the next
    /// untried pool peer a fresh whole-node attempt, or, with every peer
    /// tried, ends the fetch with `AllPeersFailed`.
    fn mark_tried_and_continue(&mut self, i: usize, peer: PeerId, effects: &mut Vec<
        TrieAccumulatorEffect,
    >)
        requires
            old(self).wf(),
            i < old(self).assemblies@.len(),
            effects_integrity(old(effects)@),
        ensures
            final(self).wf(),
            effects_integrity(final(effects)@),
            final(effects)@.len() == old(effects)@.len() + 1,
            forall|k: int|
                0 <= k < old(effects)@.len() ==> final(effects)@[k] == old(effects)@[k],
            forall|h: TrieHash| final(self).has_assembly(h) ==> old(self).has_assembly(h),
            forall|h: TrieHash|
                h != old(self).assemblies@[i as int].0 ==> final(self).has_assembly(h) == old(
                    self,
                ).has_assembly(h),
            forall|k: int|
                old(effects)@.len() <= k < final(effects)@.len() ==> match #[trigger] final(effects)@[k] {
                    TrieAccumulatorEffect::Deliver { trie_hash, .. } => trie_hash == old(
                        self,
                    ).assemblies@[i as int].0 && !final(self).has_assembly(trie_hash),
                    _ => true,
                },
            spec_retry_or_fail(
                old(self).assemblies@[i as int].1,
                old(self).assemblies@[i as int].0,
                peer,
                *final(self),
                final(effects)@.skip(old(effects)@.len() as int),
            ),
            !peers_exhausted(old(self).assemblies@[i as int].1, peer) ==> final(self).assembly_view(
                old(self).assemblies@[i as int].0,
            ).chunks@ == old(self).assemblies@[i as int].1.chunks@ && final(self).assembly_view(
                old(self).assemblies@[i as int].0,
            ).total_chunks == old(self).assemblies@[i as int].1.total_chunks,
    {
        let ghost keys0 = assembly_keys(self.assemblies@);
        let ghost a0 = self.assemblies@[i as int].1;
        let ghost e0 = effects@;
        let h = self.assemblies[i].0;
        self.assemblies[i].1.tried.insert(peer);
        proof {
            assert(assembly_keys(self.assemblies@) =~= keys0);
        }
        proof {
            assert(self.assemblies@[i as int].1.peers@ == a0.peers@);
            assert(self.assemblies@[i as int].1.chunks@ == a0.chunks@);
            assert(self.assemblies@[i as int].1.total_chunks == a0.total_chunks);
            assert(self.assemblies@[i as int].1.tried@ == (if a0.tried@.contains(peer) {
                a0.tried@
            } else {
                a0.tried@.push(peer)
            }));
            assert(forall|p: PeerId|
                self.assemblies@[i as int].1.tried@.contains(p) ==> a0.tried@.contains(p) || p
                    == peer);
            assert(forall|p: PeerId|
                a0.tried@.contains(p) || p == peer ==> self.assemblies@[i as int].1.tried@.contains(
                    p,
                ));
        }
        match self.next_untried(i) {
            Some(p) => {
                proof {
                    assert(!peers_exhausted(a0, peer)) by {
                        assert(a0.peers@.contains(p));
                        assert(!a0.tried@.contains(p) && p != peer);
                    }
                }
                effects.push(TrieAccumulatorEffect::RequestNode { trie_hash: h, peer: p });
                proof {
                    assert(assembly_keys(final(self).assemblies@) =~= keys0);
                    assert(keys0[i as int] == h);
                    assert(assembly_keys(final(self).assemblies@).contains(h));
                    let ks = assembly_keys(final(self).assemblies@);
                    let ix = ks.index_of(h);
                    assert(0 <= ix < ks.len() && ks[ix] == h);
                    assert(ix == i as int) by {
                        if ix < i as int {
                            assert(ks[ix] != ks[i as int]);
                        } else if ix > i as int {
                            assert(ks[i as int] != ks[ix]);
                        }
                    }
                    assert(final(self).assembly_view(h) == final(self).assemblies@[i as int].1);
                    assert(final(effects)@.last() == (TrieAccumulatorEffect::RequestNode {
                        trie_hash: h,
                        peer: p,
                    }));
                    assert(final(effects)@.skip(e0.len() as int) =~= seq![
                        TrieAccumulatorEffect::RequestNode { trie_hash: h, peer: p },
                    ]);
                }
            },
            None => {
                proof {
                    assert(peers_exhausted(a0, peer));
                }
                let attempts = self.assemblies[i].1.tried.len() as u64;
                self.remove_assembly(i);
                effects.push(
                    TrieAccumulatorEffect::Deliver {
                        trie_hash: h,
                        result: Err(TrieAccumulatorError::AllPeersFailed { attempts }),
                    },
                );
                proof {
                    assert(final(effects)@.skip(e0.len() as int) =~= seq![
                        TrieAccumulatorEffect::Deliver {
                            trie_hash: h,
                            result: Err(
                                TrieAccumulatorError::AllPeersFailed { attempts },
                            ),
                        },
                    ]);
                }
            },
        }
    }

    /// Drops assembly `i`; the key order of the rest is unchanged.
    fn remove_assembly(&mut self, i: usize)
        requires
            old(self).wf(),
            i < old(self).assemblies@.len(),
        ensures
            final(self).wf(),
            final(self).assemblies@ == old(self).assemblies@.remove(i as int),
            !final(self).has_assembly(old(self).assemblies@[i as int].0),
            forall|h: TrieHash|
                h != old(self).assemblies@[i as int].0 ==> final(self).has_assembly(h) == old(
                    self,
                ).has_assembly(h),
            forall|h: TrieHash| final(self).has_assembly(h) ==> old(self).has_assembly(h),
    {
        let ghost keys0 = assembly_keys(self.assemblies@);
        let ghost h = self.assemblies@[i as int].0;
        self.assemblies.remove(i);
        proof {
            let ks = assembly_keys(self.assemblies@);
            assert(ks =~= keys0.remove(i as int));
            assert forall|p: int, q: int| 0 <= p < q < ks.len() implies ks[p] != ks[q] by {
                if p < i && q < i {
                } else if p < i {
                    assert(keys0[p] == ks[p]);
                    assert(keys0[q + 1] == ks[q]);
                } else {
                    assert(keys0[p + 1] == ks[p]);
                    assert(keys0[q + 1] == ks[q]);
                }
            }
            assert(!ks.contains(h)) by {
                if ks.contains(h) {
                    let j = choose|j: int| 0 <= j < ks.len() && ks[j] == h;
                    if j < i {
                        assert(keys0[j] == h && keys0[i as int] == h);
                    } else {
                        assert(keys0[j + 1] == h && keys0[i as int] == h);
                    }
                }
            }
            assert forall|hh: TrieHash| ks.contains(hh) implies keys0.contains(hh) by {
                let j = choose|j: int| 0 <= j < ks.len() && ks[j] == hh;
                if j < i {
                    assert(keys0[j] == hh);
                } else {
                    assert(keys0[j + 1] == hh);
                }
            }
            assert forall|hh: TrieHash| hh != h && keys0.contains(hh) implies ks.contains(hh) by {
                let j = choose|j: int| 0 <= j < keys0.len() && keys0[j] == hh;
                if j < i {
                    assert(ks[j] == hh);
                } else {
                    assert(keys0[j] == hh && j != i);
                    assert(ks[j - 1] == hh);
                }
            }
        }
    }

    /// The position among the collected chunks of the one claiming `index`.
    fn find_chunk(chunks: &Vec<(u64, TrieBytes)>, index: u64) -> (r: Option<usize>)
        ensures
            match r {
                Some(k) => k < chunks@.len() && chunks@[k as int].0 == index,
                None => forall|k: int| 0 <= k < chunks@.len() ==> (#[trigger] chunks@[k]).0 != index,
            },
    {
        let mut k: usize = 0;
        while k < chunks.len()
            invariant
                k <= chunks@.len(),
                forall|j: int| 0 <= j < k ==> (#[trigger] chunks@[j]).0 != index,
            decreases chunks@.len() - k,
        {
            if chunks[k].0 == index {
                return Some(k);
            }
            k += 1;
        }
        None
    }

    /// Requests, round-robin across the pool, every chunk index of assembly
    /// `i` below `total` that is not yet collected and is not `except`.
    fn request_missing_chunks(&self, i: usize, total: u64, except: u64) -> (effects: Vec<
        TrieAccumulatorEffect,
    >)
        requires
            i < self.assemblies@.len(),
            self.assemblies@[i as int].1.peers@.len() > 0,
        ensures
            forall|k: int|
                0 <= k < effects@.len() ==> ((#[trigger] effects@[k])
                    matches TrieAccumulatorEffect::RequestChunk { trie_hash: th, index, peer: rp }
                    && th == self.assemblies@[i as int].0 && index < total && index != except
                    && !has_chunk(self.assemblies@[i as int].1.chunks@, index)
                    && self.assemblies@[i as int].1.peers@.contains(rp)),
            forall|idx: u64|
                idx < total && idx != except && !has_chunk(
                    self.assemblies@[i as int].1.chunks@,
                    idx,
                ) ==> exists|k: int|
                    0 <= k < effects@.len() && ((#[trigger] effects@[k])
                        matches TrieAccumulatorEffect::RequestChunk { index, .. } && index
                        == idx),
    {
        let ghost chunks = self.assemblies@[i as int].1.chunks@;
        let mut effects: Vec<TrieAccumulatorEffect> = Vec::new();
        let h = self.assemblies[i].0;
        let pool_len = self.assemblies[i].1.peers.len();
        let mut p: usize = 0;
        let mut j: u64 = 0;
        while j < total
            invariant
                i < self.assemblies@.len(),
                chunks == self.assemblies@[i as int].1.chunks@,
                h == self.assemblies@[i as int].0,
                pool_len == self.assemblies@[i as int].1.peers@.len(),
                pool_len > 0,
                p < pool_len,
                j <= total,
                forall|k: int|
                    0 <= k < effects@.len() ==> ((#[trigger] effects@[k])
                        matches TrieAccumulatorEffect::RequestChunk {
                            trie_hash: th,
                            index,
                            peer: rp,
                        } && th == h && index < total && index != except && !has_chunk(
                        chunks,
                        index,
                    ) && self.assemblies@[i as int].1.peers@.contains(rp)),
                forall|idx: u64|
                    idx < j && idx != except && !has_chunk(chunks, idx) ==> exists|k: int|
                        0 <= k < effects@.len() && ((#[trigger] effects@[k])
                            matches TrieAccumulatorEffect::RequestChunk { index, .. } && index
                            == idx),
            decreases total - j,
        {
            let ghost e_start = effects@;
            if j != except && Self::find_chunk(&self.assemblies[i].1.chunks, j).is_none() {
                proof {
                    assert(!has_chunk(chunks, j)) by {
                        if has_chunk(chunks, j) {
                            let k = choose|k: int|
                                0 <= k < chunk_indices(chunks).len() && chunk_indices(chunks)[k]
                                    == j;
                            assert(chunks[k].0 == j);
                        }
                    }
                }
                let peer = self.assemblies[i].1.peers.get(p);
                effects.push(TrieAccumulatorEffect::RequestChunk { trie_hash: h, index: j, peer });
                proof {
                    assert(self.assemblies@[i as int].1.peers@.contains(peer));
                    assert(effects@[e_start.len() as int]
                        == (TrieAccumulatorEffect::RequestChunk {
                        trie_hash: h,
                        index: j,
                        peer,
                    }));
                }
                p += 1;
                if p == pool_len {
                    p = 0;
                }
            } else {
                proof {
                    if j != except {
                        assert(has_chunk(chunks, j)) by {
                            let k = choose|k: int| 0 <= k < chunks.len() && chunks[k].0 == j;
                            assert(chunk_indices(chunks)[k] == j);
                        }
                    }
                }
            }
            proof {
                assert forall|idx: u64|
                    idx < j + 1 && idx != except && !has_chunk(chunks, idx) implies exists|k: int|
                        0 <= k < effects@.len() && ((#[trigger] effects@[k])
                            matches TrieAccumulatorEffect::RequestChunk { index, .. } && index
                            == idx) by {
                    if idx < j {
                        let k = choose|k: int|
                            0 <= k < e_start.len() && ((#[trigger] e_start[k])
                                matches TrieAccumulatorEffect::RequestChunk { index, .. }
                                && index == idx);
                        assert(effects@[k] == e_start[k]);
                    } else {
                        assert(idx == j);
                        assert(effects@[effects@.len() - 1]
                            matches TrieAccumulatorEffect::RequestChunk { index, .. } && index
                            == j);
                    }
                }
            }
            j += 1;
        }
        effects
    }

    /// The chunks of assembly `i` concatenated in index order, if every
    /// index below `total` has been collected; `None` when one is missing.
    fn assemble(&self, i: usize, total: u64) -> (r: Option<Vec<u8>>)
        requires
            i < self.assemblies@.len(),
            unique_seq(chunk_indices(self.assemblies@[i as int].1.chunks@)),
        ensures
            ({
                let chunks = self.assemblies@[i as int].1.chunks@;
                match r {
                    Some(data) => assembly_complete(chunks, total) && data@ == assembled_bytes(
                        chunks,
                        total as int,
                    ),
                    None => !assembly_complete(chunks, total),
                }
            }),
    {
        let ghost chunks = self.assemblies@[i as int].1.chunks@;
        let mut data: Vec<u8> = Vec::new();
        let mut j: u64 = 0;
        while j < total
            invariant
                i < self.assemblies@.len(),
                chunks == self.assemblies@[i as int].1.chunks@,
                unique_seq(chunk_indices(chunks)),
                j <= total,
                data@ == assembled_bytes(chunks, j as int),
                forall|idx: u64| idx < j ==> has_chunk(chunks, idx),
            decreases total - j,
        {
            match Self::find_chunk(&self.assemblies[i].1.chunks, j) {
                Some(k) => {
                    proof {
                        assert(chunks[k as int].0 == j);
                        assert(chunk_indices(chunks)[k as int] == j);
                        assert(has_chunk(chunks, j));
                        assert forall|m: int|
                            0 <= m < chunks.len() && (#[trigger] chunks[m]).0 == j implies m
                            == k as int by {
                            assert(chunk_indices(chunks)[m] == j);
                            assert(chunk_indices(chunks)[k as int] == j);
                            if m < k as int {
                                assert(chunk_indices(chunks)[m] != chunk_indices(
                                    chunks,
                                )[k as int]);
                            } else if m > k as int {
                                assert(chunk_indices(chunks)[k as int] != chunk_indices(
                                    chunks,
                                )[m]);
                            }
                        }
                        assert(chunk_data_at(chunks, j) == chunks[k as int].1@);
                    }
                    let chunk = &self.assemblies[i].1.chunks[k].1;
                    let ghost cb = chunk.bytes@;
                    let ghost pre = data@;
                    let mut m: usize = 0;
                    while m < chunk.bytes.len()
                        invariant
                            m <= cb.len(),
                            chunk.bytes@ == cb,
                            data@ == pre + cb.take(m as int),
                        decreases cb.len() - m,
                    {
                        data.push(chunk.bytes[m]);
                        proof {
                            assert(cb.take(m as int + 1) =~= cb.take(m as int).push(
                                cb[m as int],
                            ));
                            assert(pre + cb.take(m as int + 1) =~= (pre + cb.take(
                                m as int,
                            )).push(cb[m as int]));
                        }
                        m += 1;
                    }
                    proof {
                        assert(cb.take(cb.len() as int) =~= cb);
                        assert(assembled_bytes(chunks, j as int + 1) == assembled_bytes(
                            chunks,
                            j as int,
                        ) + chunk_data_at(chunks, j));
                        assert(data@ == assembled_bytes(chunks, j as int + 1));
                    }
                },
                None => {
                    proof {
                        assert(!has_chunk(chunks, j)) by {
                            if has_chunk(chunks, j) {
                                let k = choose|k: int|
                                    0 <= k < chunk_indices(chunks).len() && chunk_indices(
                                        chunks,
                                    )[k] == j;
                                assert(chunks[k].0 == j);
                            }
                        }
                        assert(!assembly_complete(chunks, total));
                    }
                    return None;
                },
            }
            j += 1;
        }
        Some(data)
    }

    /// If every chunk of assembly `i` is collected, concatenates them and
    /// checks the digest: a match delivers the node; a mismatch discards the
    /// corrupt assembly, counts `peer`'s attempt as failed and moves on.
    fn try_complete(&mut self, i: usize, peer: PeerId, effects: &mut Vec<TrieAccumulatorEffect>)
        requires
            old(self).wf(),
            i < old(self).assemblies@.len(),
            effects_integrity(old(effects)@),
        ensures
            final(self).wf(),
            effects_integrity(final(effects)@),
            final(effects)@.len() >= old(effects)@.len(),
            forall|k: int|
                0 <= k < old(effects)@.len() ==> final(effects)@[k] == old(effects)@[k],
            forall|h: TrieHash| final(self).has_assembly(h) ==> old(self).has_assembly(h),
            forall|h: TrieHash|
                h != old(self).assemblies@[i as int].0 ==> final(self).has_assembly(h) == old(
                    self,
                ).has_assembly(h),
            forall|k: int|
                old(effects)@.len() <= k < final(effects)@.len() ==> match #[trigger] final(effects)@[k] {
                    TrieAccumulatorEffect::Deliver { trie_hash, .. } => trie_hash == old(
                        self,
                    ).assemblies@[i as int].0 && !final(self).has_assembly(trie_hash),
                    _ => true,
                },
            match old(self).assemblies@[i as int].1.total_chunks {
                Some(t) => ({
                    let a = old(self).assemblies@[i as int].1;
                    let h = old(self).assemblies@[i as int].0;
                    let full = assembly_complete(a.chunks@, t);
                    let sound = node_digest(assembled_bytes(a.chunks@, t as int)) == h;
                    &&& (!full ==> final(self).assemblies@ == old(self).assemblies@ && final(effects)@ == old(effects)@)
                    &&& (full && sound ==> !final(self).has_assembly(h) && final(effects)@.len()
                        == old(effects)@.len() + 1 && (final(effects)@.last()
                        matches TrieAccumulatorEffect::Deliver { trie_hash: dh, result } && dh
                        == h && (result matches Ok(b) && b@ == assembled_bytes(
                        a.chunks@,
                        t as int,
                    ))))
                    &&& (full && !sound ==> final(effects)@.len() == old(effects)@.len() + 2
                        && final(effects)@[old(effects)@.len() as int]
                        == (TrieAccumulatorEffect::AnnounceMisbehavingPeer {
                        peer,
                        reason: BlameReason::ChunkVerificationFailed,
                    }) && spec_retry_or_fail(
                        a,
                        h,
                        peer,
                        *final(self),
                        final(effects)@.skip(old(effects)@.len() + 1int),
                    ) && (final(self).has_assembly(h) ==> final(self).assembly_view(
                        h,
                    ).chunks@.len() == 0 && final(self).assembly_view(h).total_chunks
                        matches None))
                }),
                None => final(self).assemblies@ == old(self).assemblies@ && final(effects)@
                    == old(effects)@,
            },
    {
        let h = self.assemblies[i].0;
        let total: u64 = match self.assemblies[i].1.total_chunks {
            Some(t) => t,
            None => {
                return ;
            },
        };
        proof {
            assert(assembly_wf(self.assemblies@[i as int].1));
        }
        match self.assemble(i, total) {
            None => {},
            Some(data) => {
                let ghost a0 = self.assemblies@[i as int].1;
                let d = compute_node_digest(&data);
                if d == h {
                    self.remove_assembly(i);
                    effects.push(
                        TrieAccumulatorEffect::Deliver {
                            trie_hash: h,
                            result: Ok(TrieBytes::new(data)),
                        },
                    );
                } else {
                    let ghost keys0 = assembly_keys(self.assemblies@);
                    let ghost e0 = effects@;
                    self.assemblies[i].1.chunks = Vec::new();
                    self.assemblies[i].1.total_chunks = None;
                    proof {
                        assert(assembly_keys(self.assemblies@) =~= keys0);
                        assert(self.assemblies@[i as int].1.peers@ == a0.peers@);
                        assert(self.assemblies@[i as int].1.tried@ == a0.tried@);
                    }
                    effects.push(
                        TrieAccumulatorEffect::AnnounceMisbehavingPeer {
                            peer,
                            reason: BlameReason::ChunkVerificationFailed,
                        },
                    );
                    self.mark_tried_and_continue(i, peer, effects);
                    proof {
                        assert(final(effects)@.skip(e0.len() + 1int) =~= final(effects)@.skip(
                            e0.len() + 1int,
                        ));
                    }
                }
            },
        }
    }

    /// Reacts to one peer's answer for `trie_hash`; the full case analysis
    /// is [`spec_response_post`].  Responses for a hash with no assembly in
    /// progress are stale and ignored.  A whole-node response is delivered
    /// when its digest matches; otherwise the peer is blamed and the next
    /// peer tried.  A chunk is kept when its proof verified against
    /// `trie_hash` and its declared count agrees with the assembly;
    /// duplicates are ignored; the first chunk fixes the count and triggers
    /// requests for the remaining indices; once the last index lands, the
    /// assembly is concatenated, digest-checked and delivered.
    pub fn handle_response(&mut self, trie_hash: TrieHash, peer: PeerId, response: PeerResponse) -> (effects: Vec<TrieAccumulatorEffect>)
        requires
            old(self).wf(),
        ensures
            final(self).wf(),
            effects_integrity(effects@),
            forall|h: TrieHash| final(self).has_assembly(h) ==> old(self).has_assembly(h),
            forall|h: TrieHash|
                h != trie_hash ==> final(self).has_assembly(h) == old(self).has_assembly(h),
            forall|k: int|
                0 <= k < effects@.len() ==> match #[trigger] effects@[k] {
                    TrieAccumulatorEffect::Deliver { trie_hash: dh, .. } => dh == trie_hash
                        && !final(self).has_assembly(dh),
                    _ => true,
                },
            spec_response_post(*old(self), *final(self), trie_hash, peer, response, effects@),
    {
        let mut effects: Vec<TrieAccumulatorEffect> = Vec::new();
        let i = match self.find(&trie_hash) {
            Some(i) => i,
            None => {
                return effects;
            },
        };
        proof {
            assert(assembly_keys(self.assemblies@)[i as int] == trie_hash);
            assert(self.has_assembly(trie_hash));
            let ks = assembly_keys(self.assemblies@);
            let ix = ks.index_of(trie_hash);
            assert(ks.contains(trie_hash));
            assert(0 <= ix < ks.len() && ks[ix] == trie_hash);
            assert(ix == i as int) by {
                if ix < i as int {
                    assert(ks[ix] != ks[i as int]);
                } else if ix > i as int {
                    assert(ks[i as int] != ks[ix]);
                }
            }
            assert(self.assembly_view(trie_hash) == self.assemblies@[i as int].1);
        }
        let ghost a = self.assemblies@[i as int].1;
        match response {
            PeerResponse::WholeNode(bytes) => {
                let d = compute_node_digest(&bytes.bytes);
                if d == trie_hash {
                    self.remove_assembly(i);
                    effects.push(
                        TrieAccumulatorEffect::Deliver { trie_hash, result: Ok(bytes) },
                    );
                } else {
                    effects.push(
                        TrieAccumulatorEffect::AnnounceMisbehavingPeer {
                            peer,
                            reason: BlameReason::DigestMismatch,
                        },
                    );
                    self.mark_tried_and_continue(i, peer, &mut effects);
                }
            },
            PeerResponse::Chunk(info) => {
                if !info.valid || info.root != trie_hash || info.index >= info.count {
                    effects.push(
                        TrieAccumulatorEffect::AnnounceMisbehavingPeer {
                            peer,
                            reason: BlameReason::ChunkVerificationFailed,
                        },
                    );
                    self.mark_tried_and_continue(i, peer, &mut effects);
                } else {
                    let ghost keys0 = assembly_keys(self.assemblies@);
                    let recorded: Option<u64> = self.assemblies[i].1.total_chunks;
                    let count_disagrees = match recorded {
                        Some(t) => t != info.count,
                        None => false,
                    };
                    if count_disagrees {
                        effects.push(
                            TrieAccumulatorEffect::AnnounceMisbehavingPeer {
                                peer,
                                reason: BlameReason::InconsistentChunkCount,
                            },
                        );
                        self.mark_tried_and_continue(i, peer, &mut effects);
                    } else if Self::find_chunk(&self.assemblies[i].1.chunks, info.index).is_some() {
                        // a duplicate chunk response is idempotent
                        proof {
                            let k = choose|k: int|
                                0 <= k < a.chunks@.len() && a.chunks@[k].0 == info.index;
                            assert(chunk_indices(a.chunks@)[k] == info.index);
                            assert(has_chunk(a.chunks@, info.index));
                        }
                    } else {
                        proof {
                            assert(!has_chunk(a.chunks@, info.index)) by {
                                if has_chunk(a.chunks@, info.index) {
                                    let k = choose|k: int|
                                        0 <= k < chunk_indices(a.chunks@).len() && chunk_indices(
                                            a.chunks@,
                                        )[k] == info.index;
                                    assert(a.chunks@[k].0 == info.index);
                                }
                            }
                        }
                        let first = recorded.is_none();
                        self.assemblies[i].1.total_chunks = Some(info.count);
                        let index = info.index;
                        self.assemblies[i].1.chunks.push((index, TrieBytes { bytes: info.data }));
                        let ghost chunks2 = self.assemblies@[i as int].1.chunks@;
                        proof {
                            assert(assembly_keys(self.assemblies@) =~= keys0);
                            assert(chunks2 == a.chunks@.push(
                                (index, TrieBytes { bytes: info.data }),
                            ));
                            let idxs = chunk_indices(chunks2);
                            assert(idxs =~= chunk_indices(a.chunks@).push(index));
                            assert forall|p: int, q: int|
                                0 <= p < q < idxs.len() implies idxs[p] != idxs[q] by {
                                if q == chunk_indices(a.chunks@).len() {
                                    assert(chunk_indices(a.chunks@).contains(
                                        chunk_indices(a.chunks@)[p],
                                    ));
                                }
                            }
                        }
                        if first {
                            let mut more = self.request_missing_chunks(i, info.count, index);
                            proof {
                                assert(a.chunks@.len() == 0);
                            }
                            effects.append(&mut more);
                        }
                        proof {
                            if info.count > 1 && assembly_complete(chunks2, info.count) {
                                assert(has_chunk(chunks2, 0) && has_chunk(chunks2, 1));
                                if a.chunks@.len() == 0 {
                                    let k0 = choose|k: int|
                                        0 <= k < chunk_indices(chunks2).len() && chunk_indices(
                                            chunks2,
                                        )[k] == 0;
                                    let k1 = choose|k: int|
                                        0 <= k < chunk_indices(chunks2).len() && chunk_indices(
                                            chunks2,
                                        )[k] == 1u64;
                                    if chunks2.len() == 1 {
                                        assert(chunks2[k0].0 == 0 && chunks2[k1].0 == 1);
                                        assert(k0 == 0 && k1 == 0);
                                        assert(false);
                                    }
                                }
                            }
                        }
                        self.try_complete(i, peer, &mut effects);
                    }
                }
            },
            PeerResponse::Failed => {
                self.mark_tried_and_continue(i, peer, &mut effects);
                proof {
                    assert(effects@.skip(0int) =~= effects@);
                }
            },
        }
        effects
    }

    /// Reacts to one accumulator event.
    pub fn handle_event(&mut self, event: TrieAccumulatorEvent) -> (effects: Vec<
        TrieAccumulatorEffect,
    >)
        requires
            old(self).wf(),
        ensures
            final(self).wf(),
            effects_integrity(effects@),
            match event {
                TrieAccumulatorEvent::Fetch { trie_hash, peers } => spec_fetch_post(
                    *old(self),
                    *final(self),
                    trie_hash,
                    peers@,
                    effects@,
                ),
                TrieAccumulatorEvent::Response { trie_hash, peer, response } => spec_response_post(
                    *old(self),
                    *final(self),
                    trie_hash,
                    peer,
                    response,
                    effects@,
                ),
            },
    {
        match event {
            TrieAccumulatorEvent::Fetch { trie_hash, peers } => self.fetch(trie_hash, &peers),
            TrieAccumulatorEvent::Response { trie_hash, peer, response } => self.handle_response(
                trie_hash,
                peer,
                response,
            ),
        }
    }
}

/// Deduplication from the empty set keeps the first element first.
proof fn lemma_dedup_append_first(s: Seq<PeerId>)
    requires
        s.len() > 0,
    ensures
        crate::sets::dedup_append(Seq::<PeerId>::empty(), s).len() > 0,
        crate::sets::dedup_append(Seq::<PeerId>::empty(), s)[0] == s[0],
    decreases s.len(),
{
    if s.len() == 1 {
        assert(s.drop_last().len() == 0);
        assert(crate::sets::dedup_append(Seq::<PeerId>::empty(), s.drop_last())
            == Seq::<PeerId>::empty());
    } else {
        lemma_dedup_append_first(s.drop_last());
        assert(s.drop_last()[0] == s[0]);
    }
}

} // verus!
