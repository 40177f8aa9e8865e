//! Identifiers and byte containers shared by the whole library.

use vstd::prelude::*;

verus! {

/// A 256-bit content digest naming one trie node, stored as four 64-bit
/// words.  Equality is word-for-word equality, which matches byte equality
/// of the underlying digest.
#[derive(Clone, Copy, PartialEq, Eq, Structural, Hash, Debug)]
pub struct TrieHash {
    pub w0: u64,
    pub w1: u64,
    pub w2: u64,
    pub w3: u64,
}

impl TrieHash {
    /// Builds a digest from its four 64-bit words.
    pub fn from_words(w0: u64, w1: u64, w2: u64, w3: u64) -> (r: Self)
        ensures
            r == (TrieHash { w0, w1, w2, w3 }),
    {
        TrieHash { w0, w1, w2, w3 }
    }
}

/// The opaque 256-bit identifier a caller attaches to one sync request.
/// Distinct requests carry distinct keys.
#[derive(Clone, Copy, PartialEq, Eq, Structural, Hash, Debug)]
pub struct BlockKey {
    pub w0: u64,
    pub w1: u64,
    pub w2: u64,
    pub w3: u64,
}

impl BlockKey {
    /// Builds a key from its four 64-bit words.
    pub fn from_words(w0: u64, w1: u64, w2: u64, w3: u64) -> (r: Self)
        ensures
            r == (BlockKey { w0, w1, w2, w3 }),
    {
        BlockKey { w0, w1, w2, w3 }
    }
}

/// Opaque identifier of a remote peer.
#[derive(Clone, Copy, PartialEq, Eq, Structural, Hash, Debug)]
pub struct PeerId {
    pub id: u64,
}

impl PeerId {
    /// Builds a peer identifier.
    pub fn new(id: u64) -> (r: Self)
        ensures
            r == (PeerId { id }),
    {
        PeerId { id }
    }
}

/// The encoded form of a single trie node.  The synchronizer never interprets
/// it; only the store and the digest function do.
#[derive(Clone, PartialEq, Eq, Debug)]
pub struct TrieBytes {
    pub bytes: Vec<u8>,
}

impl View for TrieBytes {
    type V = Seq<u8>;

    open spec fn view(&self) -> Seq<u8> {
        self.bytes@
    }
}

impl TrieBytes {
    /// Wraps raw encoded node bytes.
    pub fn new(bytes: Vec<u8>) -> (r: Self)
        ensures
            r@ == bytes@,
    {
        TrieBytes { bytes }
    }

    /// The number of encoded bytes.
    pub fn len(&self) -> (n: usize)
        ensures
            n == self@.len(),
    {
        self.bytes.len()
    }
}

} // verus!
