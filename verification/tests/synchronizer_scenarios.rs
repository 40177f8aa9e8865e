//! End-to-end scenarios driving the synchronizer state machine.

use global_state_sync::errors::{StoreError, SyncError, TrieAccumulatorError};
use global_state_sync::ids::{BlockKey, PeerId, TrieBytes, TrieHash};
use global_state_sync::synchronizer::{Event, GlobalStateSynchronizer, SyncEffect, SyncRequest};

fn hash_of(bytes: &[u8]) -> TrieHash {
    let d = casper_hashing::Digest::hash(bytes).value();
    TrieHash::from_words(
        u64::from_le_bytes([d[0], d[1], d[2], d[3], d[4], d[5], d[6], d[7]]),
        u64::from_le_bytes([d[8], d[9], d[10], d[11], d[12], d[13], d[14], d[15]]),
        u64::from_le_bytes([d[16], d[17], d[18], d[19], d[20], d[21], d[22], d[23]]),
        u64::from_le_bytes([d[24], d[25], d[26], d[27], d[28], d[29], d[30], d[31]]),
    )
}

fn key(n: u64) -> BlockKey {
    BlockKey::from_words(n, 0, 0, 0)
}

fn opaque_hash(n: u64) -> TrieHash {
    TrieHash::from_words(n, 1, 2, 3)
}

fn fetches(effects: &[SyncEffect]) -> Vec<(TrieHash, Vec<PeerId>)> {
    effects
        .iter()
        .filter_map(|e| match e {
            SyncEffect::FetchTrie { trie_hash, peers } => Some((*trie_hash, peers.clone())),
            _ => None,
        })
        .collect()
}

fn completions(effects: &[SyncEffect]) -> Vec<(BlockKey, Result<(), SyncError>)> {
    effects
        .iter()
        .filter_map(|e| match e {
            SyncEffect::Complete { block_key, result } => Some((*block_key, *result)),
            _ => None,
        })
        .collect()
}

fn puts(effects: &[SyncEffect]) -> Vec<TrieHash> {
    effects
        .iter()
        .filter_map(|e| match e {
            SyncEffect::PutTrie { trie_hash, .. } => Some(*trie_hash),
            _ => None,
        })
        .collect()
}

/// Single-node trie: one fetch, one store insert, callback `Ok(())`.
#[test]
fn single_node_trie() {
    let node = vec![1u8, 2, 3];
    let r0 = hash_of(&node);
    let k = key(1);
    let p1 = PeerId::new(1);
    let mut sync = GlobalStateSynchronizer::new(2);

    let effects = sync.handle_event(Event::Request(SyncRequest {
        block_key: k,
        state_root_hash: r0,
        peers: vec![p1],
    }));
    assert_eq!(fetches(&effects), vec![(r0, vec![p1])]);
    assert_eq!(completions(&effects).len(), 0);

    let effects = sync.handle_event(Event::FetchedTrie {
        trie_hash: r0,
        trie_accumulator_result: Ok(TrieBytes::new(node)),
    });
    assert_eq!(puts(&effects), vec![r0]);

    let effects = sync.handle_event(Event::PutTrieResult {
        trie_hash: r0,
        put_trie_result: Ok(vec![]),
    });
    assert_eq!(fetches(&effects).len(), 0);
    assert_eq!(completions(&effects), vec![(k, Ok(()))]);
}

/// Two-level trie with four children under a parallelism bound of two: the
/// root is fetched alone, then children two at a time; five fetches and one
/// successful completion in all.
#[test]
fn two_level_trie_four_children() {
    let r0 = opaque_hash(100);
    let children: Vec<TrieHash> = (1..=4).map(opaque_hash).collect();
    let k = key(2);
    let p1 = PeerId::new(1);
    let mut sync = GlobalStateSynchronizer::new(2);
    let mut total_fetches = 0;

    let effects = sync.handle_event(Event::Request(SyncRequest {
        block_key: k,
        state_root_hash: r0,
        peers: vec![p1],
    }));
    assert_eq!(fetches(&effects), vec![(r0, vec![p1])]);
    total_fetches += fetches(&effects).len();

    let effects = sync.handle_event(Event::FetchedTrie {
        trie_hash: r0,
        trie_accumulator_result: Ok(TrieBytes::new(vec![0u8])),
    });
    assert_eq!(puts(&effects), vec![r0]);
    let effects = sync.handle_event(Event::PutTrieResult {
        trie_hash: r0,
        put_trie_result: Ok(children.clone()),
    });
    // the parallelism bound caps the next wave at two children
    let wave: Vec<TrieHash> = fetches(&effects).iter().map(|f| f.0).collect();
    assert_eq!(wave, vec![children[0], children[1]]);
    total_fetches += wave.len();

    let mut completed = vec![];
    for c in &children {
        let effects = sync.handle_event(Event::FetchedTrie {
            trie_hash: *c,
            trie_accumulator_result: Ok(TrieBytes::new(vec![9u8])),
        });
        assert_eq!(puts(&effects), vec![*c]);
        let effects = sync.handle_event(Event::PutTrieResult {
            trie_hash: *c,
            put_trie_result: Ok(vec![]),
        });
        let wave = fetches(&effects);
        assert!(wave.len() <= 2, "parallelism bound violated");
        total_fetches += wave.len();
        completed.extend(completions(&effects));
    }
    assert_eq!(total_fetches, 5);
    assert_eq!(completed, vec![(k, Ok(()))]);
}

/// Request coalescing: two requests for the same root with disjoint peer
/// sets cause four fetches, not eight, and every fetch carries the union of
/// the peers.
#[test]
fn request_coalescing() {
    let r0 = opaque_hash(200);
    let children: Vec<TrieHash> = (201..=203).map(opaque_hash).collect();
    let (ka, kb) = (key(10), key(11));
    let (p1, p2) = (PeerId::new(1), PeerId::new(2));
    let mut sync = GlobalStateSynchronizer::new(4);
    let mut total_fetches = 0;

    let effects = sync.handle_event(Event::Request(SyncRequest {
        block_key: ka,
        state_root_hash: r0,
        peers: vec![p1],
    }));
    assert_eq!(fetches(&effects), vec![(r0, vec![p1])]);
    total_fetches += 1;

    // the second request for the same root issues no second fetch
    let effects = sync.handle_event(Event::Request(SyncRequest {
        block_key: kb,
        state_root_hash: r0,
        peers: vec![p2],
    }));
    assert_eq!(fetches(&effects).len(), 0);

    let effects = sync.handle_event(Event::FetchedTrie {
        trie_hash: r0,
        trie_accumulator_result: Ok(TrieBytes::new(vec![0u8])),
    });
    assert_eq!(puts(&effects), vec![r0]);
    let effects = sync.handle_event(Event::PutTrieResult {
        trie_hash: r0,
        put_trie_result: Ok(children.clone()),
    });
    // every child fetch uses the union of both requests' peers
    for (h, peers) in fetches(&effects) {
        assert!(children.contains(&h));
        assert_eq!(peers, vec![p1, p2]);
    }
    total_fetches += fetches(&effects).len();

    let mut completed = vec![];
    for c in &children {
        sync.handle_event(Event::FetchedTrie {
            trie_hash: *c,
            trie_accumulator_result: Ok(TrieBytes::new(vec![9u8])),
        });
        let effects = sync.handle_event(Event::PutTrieResult {
            trie_hash: *c,
            put_trie_result: Ok(vec![]),
        });
        total_fetches += fetches(&effects).len();
        completed.extend(completions(&effects));
    }
    assert_eq!(total_fetches, 4, "coalescing must not refetch shared hashes");
    assert_eq!(completed, vec![(ka, Ok(())), (kb, Ok(()))]);
}

/// Accumulator failure mid-sync: the request fails with the accumulator's
/// error; a still-outstanding sibling fetch may land later and its result is
/// dropped without harm.
#[test]
fn accumulator_failure_mid_sync() {
    let r0 = opaque_hash(300);
    let (c1, c2) = (opaque_hash(301), opaque_hash(302));
    let k = key(20);
    let p1 = PeerId::new(1);
    let mut sync = GlobalStateSynchronizer::new(4);

    sync.handle_event(Event::Request(SyncRequest {
        block_key: k,
        state_root_hash: r0,
        peers: vec![p1],
    }));
    sync.handle_event(Event::FetchedTrie {
        trie_hash: r0,
        trie_accumulator_result: Ok(TrieBytes::new(vec![0u8])),
    });
    let effects = sync.handle_event(Event::PutTrieResult {
        trie_hash: r0,
        put_trie_result: Ok(vec![c1, c2]),
    });
    assert_eq!(fetches(&effects).len(), 2);

    let effects = sync.handle_event(Event::FetchedTrie {
        trie_hash: c1,
        trie_accumulator_result: Err(TrieAccumulatorError::AllPeersFailed { attempts: 1 }),
    });
    assert_eq!(
        completions(&effects),
        vec![(
            k,
            Err(SyncError::TrieAccumulator(TrieAccumulatorError::AllPeersFailed { attempts: 1 }))
        )]
    );

    // the sibling fetch completes; its result goes to the store and the
    // insertion lands on no request
    let effects = sync.handle_event(Event::FetchedTrie {
        trie_hash: c2,
        trie_accumulator_result: Ok(TrieBytes::new(vec![9u8])),
    });
    assert_eq!(puts(&effects), vec![c2]);
    let effects = sync.handle_event(Event::PutTrieResult {
        trie_hash: c2,
        put_trie_result: Ok(vec![]),
    });
    assert_eq!(completions(&effects).len(), 0);
    assert_eq!(fetches(&effects).len(), 0);
}

/// Store error: the request fails with the store's error and no children
/// are ever fetched.
#[test]
fn store_error() {
    let r0 = opaque_hash(400);
    let k = key(30);
    let p1 = PeerId::new(1);
    let mut sync = GlobalStateSynchronizer::new(4);

    sync.handle_event(Event::Request(SyncRequest {
        block_key: k,
        state_root_hash: r0,
        peers: vec![p1],
    }));
    sync.handle_event(Event::FetchedTrie {
        trie_hash: r0,
        trie_accumulator_result: Ok(TrieBytes::new(vec![0u8])),
    });
    let effects = sync.handle_event(Event::PutTrieResult {
        trie_hash: r0,
        put_trie_result: Err(StoreError::CorruptNode),
    });
    assert_eq!(
        completions(&effects),
        vec![(k, Err(SyncError::PutTrie(StoreError::CorruptNode)))]
    );
    assert_eq!(fetches(&effects).len(), 0, "no children may be fetched after a store error");
}

/// A store I/O failure on a child fails the request with the store's error.
#[test]
fn store_io_error_on_child() {
    let r0 = opaque_hash(450);
    let c1 = opaque_hash(451);
    let k = key(35);
    let p1 = PeerId::new(1);
    let mut sync = GlobalStateSynchronizer::new(4);

    sync.handle_event(Event::Request(SyncRequest {
        block_key: k,
        state_root_hash: r0,
        peers: vec![p1],
    }));
    sync.handle_event(Event::FetchedTrie {
        trie_hash: r0,
        trie_accumulator_result: Ok(TrieBytes::new(vec![0u8])),
    });
    sync.handle_event(Event::PutTrieResult { trie_hash: r0, put_trie_result: Ok(vec![c1]) });
    sync.handle_event(Event::FetchedTrie {
        trie_hash: c1,
        trie_accumulator_result: Ok(TrieBytes::new(vec![1u8])),
    });
    let effects = sync.handle_event(Event::PutTrieResult {
        trie_hash: c1,
        put_trie_result: Err(StoreError::Io),
    });
    assert_eq!(completions(&effects), vec![(k, Err(SyncError::PutTrie(StoreError::Io)))]);
}

/// Fault isolation: an error on a hash only one request references leaves a
/// concurrent request over a disjoint subgraph untouched.
#[test]
fn fault_isolation_between_requests() {
    let ra = opaque_hash(500);
    let rb = opaque_hash(600);
    let (ka, kb) = (key(40), key(41));
    let p1 = PeerId::new(1);
    let mut sync = GlobalStateSynchronizer::new(4);

    sync.handle_event(Event::Request(SyncRequest {
        block_key: ka,
        state_root_hash: ra,
        peers: vec![p1],
    }));
    sync.handle_event(Event::Request(SyncRequest {
        block_key: kb,
        state_root_hash: rb,
        peers: vec![p1],
    }));
    let effects = sync.handle_event(Event::FetchedTrie {
        trie_hash: ra,
        trie_accumulator_result: Err(TrieAccumulatorError::Timeout),
    });
    assert_eq!(
        completions(&effects),
        vec![(ka, Err(SyncError::TrieAccumulator(TrieAccumulatorError::Timeout)))]
    );

    // the unaffected request still completes
    sync.handle_event(Event::FetchedTrie {
        trie_hash: rb,
        trie_accumulator_result: Ok(TrieBytes::new(vec![7u8])),
    });
    let effects = sync.handle_event(Event::PutTrieResult {
        trie_hash: rb,
        put_trie_result: Ok(vec![]),
    });
    assert_eq!(completions(&effects), vec![(kb, Ok(()))]);
}

/// A duplicate submission under an already-active key merges the new peers
/// into the existing request and registers no second callback; the single
/// completion per key serves the caller.
#[test]
fn duplicate_submission_merges_peers() {
    let r0 = opaque_hash(700);
    let c1 = opaque_hash(701);
    let k = key(50);
    let (p1, p2) = (PeerId::new(1), PeerId::new(2));
    let mut sync = GlobalStateSynchronizer::new(4);

    let effects = sync.handle_event(Event::Request(SyncRequest {
        block_key: k,
        state_root_hash: r0,
        peers: vec![p1],
    }));
    assert_eq!(fetches(&effects), vec![(r0, vec![p1])]);

    let effects = sync.handle_event(Event::Request(SyncRequest {
        block_key: k,
        state_root_hash: r0,
        peers: vec![p2],
    }));
    assert_eq!(fetches(&effects).len(), 0);

    sync.handle_event(Event::FetchedTrie {
        trie_hash: r0,
        trie_accumulator_result: Ok(TrieBytes::new(vec![0u8])),
    });
    let effects = sync.handle_event(Event::PutTrieResult {
        trie_hash: r0,
        put_trie_result: Ok(vec![c1]),
    });
    // the merged peer set reaches the next fetch
    assert_eq!(fetches(&effects), vec![(c1, vec![p1, p2])]);

    sync.handle_event(Event::FetchedTrie {
        trie_hash: c1,
        trie_accumulator_result: Ok(TrieBytes::new(vec![1u8])),
    });
    let effects = sync.handle_event(Event::PutTrieResult {
        trie_hash: c1,
        put_trie_result: Ok(vec![]),
    });
    // exactly one completion fires for the key
    assert_eq!(completions(&effects), vec![(k, Ok(()))]);
}

/// Resubmitting a completed root under a fresh key completes immediately:
/// the store reports no missing children for the root.
#[test]
fn resubmission_completes_immediately() {
    let r0 = opaque_hash(800);
    let (k1, k2) = (key(60), key(61));
    let p1 = PeerId::new(1);
    let mut sync = GlobalStateSynchronizer::new(4);

    // first run completes the root
    sync.handle_event(Event::Request(SyncRequest {
        block_key: k1,
        state_root_hash: r0,
        peers: vec![p1],
    }));
    sync.handle_event(Event::FetchedTrie {
        trie_hash: r0,
        trie_accumulator_result: Ok(TrieBytes::new(vec![0u8])),
    });
    let effects = sync.handle_event(Event::PutTrieResult {
        trie_hash: r0,
        put_trie_result: Ok(vec![]),
    });
    assert_eq!(completions(&effects), vec![(k1, Ok(()))]);

    // resubmission under a fresh key: one fetch, then the store already has
    // everything and the request settles at once
    sync.handle_event(Event::Request(SyncRequest {
        block_key: k2,
        state_root_hash: r0,
        peers: vec![p1],
    }));
    sync.handle_event(Event::FetchedTrie {
        trie_hash: r0,
        trie_accumulator_result: Ok(TrieBytes::new(vec![0u8])),
    });
    let effects = sync.handle_event(Event::PutTrieResult {
        trie_hash: r0,
        put_trie_result: Ok(vec![]),
    });
    assert_eq!(completions(&effects), vec![(k2, Ok(()))]);
}
