//! Proof-carrying chunks of a large trie node.
//!
//! A peer may answer a whole-node request with one chunk of a chunked
//! response.  The chunk type, its indexed Merkle proof and their
//! verification live in an outside crate; [`chunk_info_of`] reads a chunk
//! once, through the wrappers here, into a [`ChunkInfo`] of plain values,
//! and the accumulator's logic works on that record alone.  The wrappers
//! promise nothing about the values they expose: whatever a peer sends, the
//! assembled bytes are checked against the requested digest before anything
//! is delivered.

use vstd::prelude::*;

use crate::ids::TrieHash;

verus! {

/// What the accumulator reads of one proof-carrying chunk, as plain values:
/// its data bytes, the position and total count its proof declares, the
/// digest its proof is rooted at, and whether the proof verified.
pub struct ChunkInfo {
    pub data: Vec<u8>,
    pub index: u64,
    pub count: u64,
    pub root: TrieHash,
    pub valid: bool,
}

/// Reads a proof-carrying chunk into a [`ChunkInfo`] through the trusted
/// wrappers below.  Nothing is promised of the values: the peer chose them,
/// and the accumulator checks everything it relies on.
pub fn chunk_info_of(c: &casper_hashing::ChunkWithProof) -> ChunkInfo {
    let data = chunk_bytes(c);
    let proof = chunk_proof(c);
    ChunkInfo {
        data,
        index: proof_index(proof),
        count: proof_count(proof),
        root: proof_root(proof),
        valid: chunk_is_valid(c),
    }
}

#[verifier::external_type_specification]
#[verifier::external_body]
pub struct ExChunkWithProof(casper_hashing::ChunkWithProof);

#[verifier::external_type_specification]
#[verifier::external_body]
pub struct ExIndexedMerkleProof(casper_hashing::IndexedMerkleProof);

/// Relies on `casper_hashing::ChunkWithProof::chunk`: the chunk's data
/// bytes, copied out.
#[verifier::external_body]
pub fn chunk_bytes(c: &casper_hashing::ChunkWithProof) -> (r: Vec<u8>) {
    c.chunk().to_vec()
}

/// Relies on `casper_hashing::ChunkWithProof::proof`: the chunk's indexed
/// Merkle proof.
#[verifier::external_body]
pub fn chunk_proof(c: &casper_hashing::ChunkWithProof) -> (r: &casper_hashing::IndexedMerkleProof) {
    c.proof()
}

/// Relies on `casper_hashing::IndexedMerkleProof::index`: the position this
/// chunk claims within the assembly.
#[verifier::external_body]
pub fn proof_index(p: &casper_hashing::IndexedMerkleProof) -> (r: u64) {
    p.index()
}

/// Relies on `casper_hashing::IndexedMerkleProof::count`: the total chunk
/// count this chunk declares for the assembly.
#[verifier::external_body]
pub fn proof_count(p: &casper_hashing::IndexedMerkleProof) -> (r: u64) {
    p.count()
}

/// Relies on `casper_hashing::IndexedMerkleProof::root_hash`: the digest
/// this chunk's proof is rooted at.  `Digest::value` merely exposes the 32
/// bytes, which are repacked into the four words of a [`TrieHash`].
#[verifier::external_body]
pub fn proof_root(p: &casper_hashing::IndexedMerkleProof) -> (r: TrieHash) {
    let d = p.root_hash().value();
    let mut w = [0u64; 4];
    for i in 0..4 {
        w[i] = u64::from_le_bytes(d[i * 8..i * 8 + 8].try_into().unwrap());
    }
    TrieHash { w0: w[0], w1: w[1], w2: w[2], w3: w[3] }
}

/// Relies on `casper_hashing::ChunkWithProof::verify`: `true` exactly when
/// the chunk's indexed Merkle proof is internally consistent and its first
/// digest matches the hash of the chunk's data.
#[verifier::external_body]
pub fn chunk_is_valid(c: &casper_hashing::ChunkWithProof) -> (r: bool) {
    c.verify().is_ok()
}

} // verus!
