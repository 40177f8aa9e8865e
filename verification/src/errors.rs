//! Error taxonomy of the synchronizer and the accumulator.

use vstd::prelude::*;

use crate::ids::PeerId;

verus! {

/// Why a peer was reported on the blocklist side channel.
#[derive(Clone, Copy, PartialEq, Eq, Structural, Debug)]
pub enum BlameReason {
    /// A chunk's Merkle proof did not verify, or its proof named a different
    /// assembly than the one requested.
    ChunkVerificationFailed,
    /// The peer declared a chunk count that disagrees with an earlier
    /// declaration for the same assembly.
    InconsistentChunkCount,
    /// A whole-node response hashed to a different digest than requested.
    DigestMismatch,
}

/// Failure of one accumulator fetch.
#[derive(Clone, Copy, PartialEq, Eq, Structural, Debug)]
pub enum TrieAccumulatorError {
    /// The fetch was submitted with an empty peer set.
    NoPeers,
    /// Every peer was tried without a verifiable result.  Chunk-level
    /// faults are retried against other peers and, when unrecoverable,
    /// collapse into this variant.
    AllPeersFailed { attempts: u64 },
    /// A chunk failed proof verification; kept in the taxonomy for an
    /// embedding that wants to surface the specific fault instead of the
    /// collapsed `AllPeersFailed`.
    ChunkVerificationFailed { peer: PeerId },
    /// The fetch timed out; posted by the surrounding runtime, never by the
    /// accumulator state machine itself.
    Timeout,
    /// A peer returned bytes whose digest, or declared chunk count,
    /// mismatches the request; kept in the taxonomy like
    /// `ChunkVerificationFailed`.
    Inconsistent { peer: PeerId },
}

/// Refusal of the store to insert an encoded trie node.
#[derive(Clone, Copy, PartialEq, Eq, Structural, Debug)]
pub enum StoreError {
    /// The encoded node failed the store's own decoding or digest check.
    CorruptNode,
    /// The store could not persist the node.
    Io,
}

/// What a failed sync request reports to its caller.
#[derive(Clone, Copy, PartialEq, Eq, Structural, Debug)]
pub enum SyncError {
    /// A required node could not be obtained from any peer.
    TrieAccumulator(TrieAccumulatorError),
    /// The store refused an insertion.
    PutTrie(StoreError),
}

} // verus!
