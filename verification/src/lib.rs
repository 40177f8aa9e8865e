//! Global state synchronization for a content-addressed Merkle trie.
//!
//! The library materializes, on a local node, the complete trie rooted at a
//! given state-root hash by pulling missing trie nodes from remote peers,
//! verifying them, handing them to a local store, and walking the set of
//! still-missing descendants that each insertion exposes.  The two central
//! components are pure state machines: the [`synchronizer`] schedules fetches
//! for many concurrent requests under a global parallelism bound, and the
//! [`accumulator`] reassembles a single trie node from whole-node responses
//! or verified chunks.  Both react to events and return the effects that the
//! surrounding runtime must carry out.

pub mod accumulator;
pub mod chunks;
pub mod deploy_sets;
pub mod digest;
pub mod errors;
pub mod ids;
pub mod init;
pub mod laws;
pub mod sets;
pub mod step;
pub mod stored_value;
pub mod synchronizer;
pub mod transaction;

