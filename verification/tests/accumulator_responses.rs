//! The accumulator driven with real whole-node responses and real
//! proof-carrying chunks.

use global_state_sync::accumulator::{
    PeerResponse, TrieAccumulator, TrieAccumulatorEffect, TrieAccumulatorEvent,
};
use global_state_sync::chunks::{chunk_info_of, ChunkInfo};
use global_state_sync::errors::{BlameReason, TrieAccumulatorError};
use global_state_sync::ids::{PeerId, TrieBytes, TrieHash};

fn hash_of(bytes: &[u8]) -> TrieHash {
    let d = casper_hashing::Digest::hash(bytes).value();
    TrieHash::from_words(
        u64::from_le_bytes([d[0], d[1], d[2], d[3], d[4], d[5], d[6], d[7]]),
        u64::from_le_bytes([d[8], d[9], d[10], d[11], d[12], d[13], d[14], d[15]]),
        u64::from_le_bytes([d[16], d[17], d[18], d[19], d[20], d[21], d[22], d[23]]),
        u64::from_le_bytes([d[24], d[25], d[26], d[27], d[28], d[29], d[30], d[31]]),
    )
}

fn delivered_ok(effects: &[TrieAccumulatorEffect]) -> Vec<(TrieHash, Vec<u8>)> {
    effects
        .iter()
        .filter_map(|e| match e {
            TrieAccumulatorEffect::Deliver { trie_hash, result: Ok(bytes) } => {
                Some((*trie_hash, bytes.bytes.clone()))
            }
            _ => None,
        })
        .collect()
}

fn delivered_err(effects: &[TrieAccumulatorEffect]) -> Vec<(TrieHash, TrieAccumulatorError)> {
    effects
        .iter()
        .filter_map(|e| match e {
            TrieAccumulatorEffect::Deliver { trie_hash, result: Err(err) } => {
                Some((*trie_hash, *err))
            }
            _ => None,
        })
        .collect()
}

fn blamed(effects: &[TrieAccumulatorEffect]) -> Vec<(PeerId, BlameReason)> {
    effects
        .iter()
        .filter_map(|e| match e {
            TrieAccumulatorEffect::AnnounceMisbehavingPeer { peer, reason } => {
                Some((*peer, *reason))
            }
            _ => None,
        })
        .collect()
}

/// An empty peer set fails immediately with `NoPeers`.
#[test]
fn fetch_with_no_peers() {
    let mut acc = TrieAccumulator::new();
    let h = hash_of(b"whatever");
    let effects = acc.handle_event(TrieAccumulatorEvent::Fetch { trie_hash: h, peers: vec![] });
    assert_eq!(delivered_err(&effects), vec![(h, TrieAccumulatorError::NoPeers)]);
}

/// A whole-node response whose digest matches is delivered as-is.
#[test]
fn whole_node_success() {
    let mut acc = TrieAccumulator::new();
    let node = b"an encoded trie node".to_vec();
    let h = hash_of(&node);
    let p1 = PeerId::new(1);
    let effects =
        acc.handle_event(TrieAccumulatorEvent::Fetch { trie_hash: h, peers: vec![p1] });
    assert_eq!(
        effects,
        vec![TrieAccumulatorEffect::RequestNode { trie_hash: h, peer: p1 }]
    );
    let effects = acc.handle_event(TrieAccumulatorEvent::Response {
        trie_hash: h,
        peer: p1,
        response: PeerResponse::WholeNode(TrieBytes::new(node.clone())),
    });
    assert_eq!(delivered_ok(&effects), vec![(h, node)]);
}

/// A whole-node response with the wrong bytes is rejected — the digest
/// check is real — the peer is blamed, and the next peer is tried; its good
/// answer still completes the fetch.
#[test]
fn whole_node_digest_mismatch_retries_next_peer() {
    let mut acc = TrieAccumulator::new();
    let node = b"the real node".to_vec();
    let h = hash_of(&node);
    let (p1, p2) = (PeerId::new(1), PeerId::new(2));
    acc.handle_event(TrieAccumulatorEvent::Fetch { trie_hash: h, peers: vec![p1, p2] });
    let effects = acc.handle_event(TrieAccumulatorEvent::Response {
        trie_hash: h,
        peer: p1,
        response: PeerResponse::WholeNode(TrieBytes::new(b"corrupt bytes".to_vec())),
    });
    assert_eq!(blamed(&effects), vec![(p1, BlameReason::DigestMismatch)]);
    assert!(effects
        .contains(&TrieAccumulatorEffect::RequestNode { trie_hash: h, peer: p2 }));
    assert_eq!(delivered_ok(&effects).len(), 0);

    let effects = acc.handle_event(TrieAccumulatorEvent::Response {
        trie_hash: h,
        peer: p2,
        response: PeerResponse::WholeNode(TrieBytes::new(node.clone())),
    });
    assert_eq!(delivered_ok(&effects), vec![(h, node)]);
}

/// When every peer has failed, the fetch ends with `AllPeersFailed`.
#[test]
fn all_peers_failed() {
    let mut acc = TrieAccumulator::new();
    let h = hash_of(b"unreachable node");
    let (p1, p2) = (PeerId::new(1), PeerId::new(2));
    acc.handle_event(TrieAccumulatorEvent::Fetch { trie_hash: h, peers: vec![p1, p2] });
    let effects = acc.handle_event(TrieAccumulatorEvent::Response {
        trie_hash: h,
        peer: p1,
        response: PeerResponse::Failed,
    });
    assert_eq!(delivered_err(&effects).len(), 0);
    let effects = acc.handle_event(TrieAccumulatorEvent::Response {
        trie_hash: h,
        peer: p2,
        response: PeerResponse::Failed,
    });
    assert_eq!(
        delivered_err(&effects),
        vec![(h, TrieAccumulatorError::AllPeersFailed { attempts: 2 })]
    );
}

fn chunked_hash_of(bytes: &[u8]) -> TrieHash {
    let d = casper_hashing::Digest::hash_into_chunks_if_necessary(bytes).value();
    TrieHash::from_words(
        u64::from_le_bytes([d[0], d[1], d[2], d[3], d[4], d[5], d[6], d[7]]),
        u64::from_le_bytes([d[8], d[9], d[10], d[11], d[12], d[13], d[14], d[15]]),
        u64::from_le_bytes([d[16], d[17], d[18], d[19], d[20], d[21], d[22], d[23]]),
        u64::from_le_bytes([d[24], d[25], d[26], d[27], d[28], d[29], d[30], d[31]]),
    )
}

/// A large node arrives as two proof-carrying chunks: the first fixes the
/// count and triggers a request for the missing index, a duplicate chunk is
/// ignored, and the completed assembly passes the digest check and is
/// delivered whole.
#[test]
fn two_chunk_assembly() {
    let mut acc = TrieAccumulator::new();
    // over one chunk size, so the node is served chunked
    let node: Vec<u8> = (0..9 * 1024 * 1024u32).map(|i| (i % 251) as u8).collect();
    let c0 = casper_hashing::ChunkWithProof::new(&node, 0).unwrap();
    let c0_again = casper_hashing::ChunkWithProof::new(&node, 0).unwrap();
    let c1 = casper_hashing::ChunkWithProof::new(&node, 1).unwrap();
    let h = chunked_hash_of(&node);
    let p1 = PeerId::new(1);
    acc.handle_event(TrieAccumulatorEvent::Fetch { trie_hash: h, peers: vec![p1] });
    let effects = acc.handle_event(TrieAccumulatorEvent::Response {
        trie_hash: h,
        peer: p1,
        response: PeerResponse::Chunk(chunk_info_of(&c0)),
    });
    assert!(effects.contains(&TrieAccumulatorEffect::RequestChunk {
        trie_hash: h,
        index: 1,
        peer: p1
    }));
    assert_eq!(delivered_ok(&effects).len(), 0);

    // a duplicate chunk response is idempotent
    let effects = acc.handle_event(TrieAccumulatorEvent::Response {
        trie_hash: h,
        peer: p1,
        response: PeerResponse::Chunk(chunk_info_of(&c0_again)),
    });
    assert_eq!(effects.len(), 0);

    let effects = acc.handle_event(TrieAccumulatorEvent::Response {
        trie_hash: h,
        peer: p1,
        response: PeerResponse::Chunk(chunk_info_of(&c1)),
    });
    assert_eq!(delivered_ok(&effects), vec![(h, node)]);
}

/// A chunk whose proof does not verify against the requested hash is
/// discarded, its peer blamed, and the remaining peer retried; the fetch
/// still succeeds.
#[test]
fn peer_misbehavior_on_chunk() {
    let mut acc = TrieAccumulator::new();
    let node = b"the node the peers should serve".to_vec();
    let h = hash_of(&node);
    let (p1, p2) = (PeerId::new(1), PeerId::new(2));
    acc.handle_event(TrieAccumulatorEvent::Fetch { trie_hash: h, peers: vec![p1, p2] });
    // a proof rooted at different data than requested
    let bad_chunk = casper_hashing::ChunkWithProof::new(b"some other data", 0).unwrap();
    let effects = acc.handle_event(TrieAccumulatorEvent::Response {
        trie_hash: h,
        peer: p1,
        response: PeerResponse::Chunk(chunk_info_of(&bad_chunk)),
    });
    assert_eq!(blamed(&effects), vec![(p1, BlameReason::ChunkVerificationFailed)]);
    assert_eq!(delivered_ok(&effects).len(), 0);

    let effects = acc.handle_event(TrieAccumulatorEvent::Response {
        trie_hash: h,
        peer: p2,
        response: PeerResponse::WholeNode(TrieBytes::new(node.clone())),
    });
    assert_eq!(delivered_ok(&effects), vec![(h, node)]);
}

/// A stale response for a hash with no assembly in progress is ignored.
#[test]
fn stale_response_is_ignored() {
    let mut acc = TrieAccumulator::new();
    let node = b"already delivered".to_vec();
    let h = hash_of(&node);
    let p1 = PeerId::new(1);
    acc.handle_event(TrieAccumulatorEvent::Fetch { trie_hash: h, peers: vec![p1] });
    acc.handle_event(TrieAccumulatorEvent::Response {
        trie_hash: h,
        peer: p1,
        response: PeerResponse::WholeNode(TrieBytes::new(node.clone())),
    });
    let effects = acc.handle_event(TrieAccumulatorEvent::Response {
        trie_hash: h,
        peer: p1,
        response: PeerResponse::WholeNode(TrieBytes::new(node)),
    });
    assert_eq!(effects.len(), 0);
}

/// A repeated fetch for a hash already being assembled is absorbed: the
/// in-progress fetch serves both callers.
#[test]
fn concurrent_fetch_is_merged() {
    let mut acc = TrieAccumulator::new();
    let node = b"shared node".to_vec();
    let h = hash_of(&node);
    let (p1, p2) = (PeerId::new(1), PeerId::new(2));
    let effects =
        acc.handle_event(TrieAccumulatorEvent::Fetch { trie_hash: h, peers: vec![p1] });
    assert_eq!(effects.len(), 1);
    let effects =
        acc.handle_event(TrieAccumulatorEvent::Fetch { trie_hash: h, peers: vec![p2] });
    assert_eq!(effects.len(), 0);
    let effects = acc.handle_event(TrieAccumulatorEvent::Response {
        trie_hash: h,
        peer: p1,
        response: PeerResponse::WholeNode(TrieBytes::new(node.clone())),
    });
    assert_eq!(delivered_ok(&effects), vec![(h, node)]);
}

/// Fabricated chunk records exercise the checks that real proofs cannot
/// reach: a declared count disagreeing with the recorded one is blamed, an
/// unverified chunk is blamed, and a complete assembly whose concatenation
/// fails the digest check is discarded with the completing peer blamed.
#[test]
fn fabricated_chunks_exercise_count_and_assembly_checks() {
    let mut acc = TrieAccumulator::new();
    let h = TrieHash::from_words(7, 7, 7, 7);
    let (p1, p2, p3) = (PeerId::new(1), PeerId::new(2), PeerId::new(3));
    acc.handle_event(TrieAccumulatorEvent::Fetch { trie_hash: h, peers: vec![p1, p2, p3] });

    // an unverified chunk is blamed and the next peer is tried
    let effects = acc.handle_event(TrieAccumulatorEvent::Response {
        trie_hash: h,
        peer: p1,
        response: PeerResponse::Chunk(ChunkInfo {
            data: vec![1],
            index: 0,
            count: 2,
            root: h,
            valid: false,
        }),
    });
    assert_eq!(blamed(&effects), vec![(p1, BlameReason::ChunkVerificationFailed)]);

    // the first valid chunk fixes the count at two and requests the rest
    let effects = acc.handle_event(TrieAccumulatorEvent::Response {
        trie_hash: h,
        peer: p2,
        response: PeerResponse::Chunk(ChunkInfo {
            data: vec![1, 2],
            index: 0,
            count: 2,
            root: h,
            valid: true,
        }),
    });
    assert!(effects.iter().any(
        |e| matches!(e, TrieAccumulatorEffect::RequestChunk { trie_hash: th, index: 1, .. } if *th == h)
    ));

    // a chunk declaring a different count is blamed
    let effects = acc.handle_event(TrieAccumulatorEvent::Response {
        trie_hash: h,
        peer: p2,
        response: PeerResponse::Chunk(ChunkInfo {
            data: vec![3],
            index: 1,
            count: 3,
            root: h,
            valid: true,
        }),
    });
    assert_eq!(blamed(&effects), vec![(p2, BlameReason::InconsistentChunkCount)]);

    // the last agreeing chunk completes the assembly, but the fabricated
    // bytes fail the digest check: the completing peer is blamed and, with
    // every peer now tried, the fetch ends with `AllPeersFailed`
    let effects = acc.handle_event(TrieAccumulatorEvent::Response {
        trie_hash: h,
        peer: p3,
        response: PeerResponse::Chunk(ChunkInfo {
            data: vec![3, 4],
            index: 1,
            count: 2,
            root: h,
            valid: true,
        }),
    });
    assert_eq!(blamed(&effects), vec![(p3, BlameReason::ChunkVerificationFailed)]);
    assert_eq!(delivered_ok(&effects).len(), 0);
    assert_eq!(
        delivered_err(&effects),
        vec![(h, TrieAccumulatorError::AllPeersFailed { attempts: 3 })]
    );
}
