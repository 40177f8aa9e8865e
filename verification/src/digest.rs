//! The content digest of an encoded trie node.
//!
//! The digest function itself lives in an outside crate; the library names
//! its result and trusts one wrapper to compute it.

use vstd::prelude::*;

use crate::ids::TrieHash;

verus! {

/// The digest of an encoded trie node's bytes: the content address under
/// which peers serve the node and the root every chunk proof speaks of.
/// The digest is a pure function of the bytes alone; no short statement
/// pins down its value, so the library only names it and lets
/// [`compute_node_digest`] produce it.
pub uninterp spec fn node_digest(bytes: Seq<u8>) -> TrieHash;

/// Relies on `casper_hashing::Digest::hash_into_chunks_if_necessary`: the
/// 32-byte digest naming a trie node, a pure function of the input bytes —
/// BLAKE2b of the bytes when they fit one chunk, and the Merkle root of the
/// per-chunk digests otherwise, which is also what each chunk's proof is
/// rooted at.  `Digest::value` merely exposes the 32 bytes, which are
/// repacked into the four words of a [`TrieHash`].
#[verifier::external_body]
pub fn compute_node_digest(bytes: &Vec<u8>) -> (r: TrieHash)
    ensures
        r == node_digest(bytes@),
{
    let d = casper_hashing::Digest::hash_into_chunks_if_necessary(bytes).value();
    let mut w = [0u64; 4];
    for i in 0..4 {
        w[i] = u64::from_le_bytes(d[i * 8..i * 8 + 8].try_into().unwrap());
    }
    TrieHash { w0: w[0], w1: w[1], w2: w[2], w3: w[3] }
}

} // verus!
