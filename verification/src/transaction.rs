//! A versioned wrapper for a transaction or deploy.

use vstd::prelude::*;

verus! {

/// The 256-bit identifying hash of a legacy deploy, as four 64-bit words.
#[derive(Clone, Copy, PartialEq, Eq, Structural, Hash, Debug)]
pub struct DeployHash {
    pub w0: u64,
    pub w1: u64,
    pub w2: u64,
    pub w3: u64,
}

/// The 256-bit identifying hash of a version 1 transaction, as four 64-bit
/// words.
#[derive(Clone, Copy, PartialEq, Eq, Structural, Hash, Debug)]
pub struct TransactionV1Hash {
    pub w0: u64,
    pub w1: u64,
    pub w2: u64,
    pub w3: u64,
}

/// The identifying hash of a transaction, versioned like the transaction.
#[derive(Clone, Copy, PartialEq, Eq, Structural, Debug)]
pub enum TransactionHash {
    /// The hash of a deploy.
    Deploy(DeployHash),
    /// The hash of a version 1 transaction.
    V1(TransactionV1Hash),
}

/// A legacy deploy: its identifying hash and its encoded body.
#[derive(PartialEq, Eq, Debug, Clone)]
pub struct Deploy {
    pub hash: DeployHash,
    pub body: Vec<u8>,
}

/// A version 1 transaction: its identifying hash and its encoded body.
#[derive(PartialEq, Eq, Debug, Clone)]
pub struct TransactionV1 {
    pub hash: TransactionV1Hash,
    pub body: Vec<u8>,
}

/// A versioned wrapper for a transaction or deploy.
#[derive(PartialEq, Eq, Debug, Clone)]
pub enum Transaction {
    /// A deploy.
    Deploy(Deploy),
    /// A version 1 transaction.
    V1(TransactionV1),
}

impl Transaction {
    /// Returns the `TransactionHash` identifying this transaction.
    pub fn hash(&self) -> (r: TransactionHash)
        ensures
            match self {
                Transaction::Deploy(deploy) => r == TransactionHash::Deploy(deploy.hash),
                Transaction::V1(txn) => r == TransactionHash::V1(txn.hash),
            },
    {
        match self {
            Transaction::Deploy(deploy) => TransactionHash::Deploy(deploy.hash),
            Transaction::V1(txn) => TransactionHash::V1(txn.hash),
        }
    }
}

impl From<Deploy> for Transaction {
    fn from(deploy: Deploy) -> (r: Self) {
        Transaction::Deploy(deploy)
    }
}

impl vstd::std_specs::convert::FromSpecImpl<Deploy> for Transaction {
    open spec fn obeys_from_spec() -> bool {
        true
    }

    open spec fn from_spec(deploy: Deploy) -> Self {
        Transaction::Deploy(deploy)
    }
}

impl From<TransactionV1> for Transaction {
    fn from(txn: TransactionV1) -> (r: Self) {
        Transaction::V1(txn)
    }
}

impl vstd::std_specs::convert::FromSpecImpl<TransactionV1> for Transaction {
    open spec fn obeys_from_spec() -> bool {
        true
    }

    open spec fn from_spec(txn: TransactionV1) -> Self {
        Transaction::V1(txn)
    }
}

} // verus!
