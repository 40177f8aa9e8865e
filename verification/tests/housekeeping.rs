//! The peripheral helpers: proposer pruning, storage keys, transactions,
//! step requests and start-up decisions.

use global_state_sync::deploy_sets::{
    create_storage_key, prune_deploys, BlockProposerDeploySets, Chainspec, DeployCollection,
    DeployHeader,
};
use global_state_sync::init::{
    initialize_component, maybe_pre_genesis, maybe_upgrade, ActivationPoint, InitOutcome,
    PreGenesisError,
};
use global_state_sync::step::{PublicKey, RewardItem, SlashItem, StepRequest};
use global_state_sync::transaction::{
    Deploy, DeployHash, Transaction, TransactionHash, TransactionV1, TransactionV1Hash,
};

fn deploy_hash(n: u64) -> DeployHash {
    DeployHash { w0: n, w1: 0, w2: 0, w3: 0 }
}

#[test]
fn prune_removes_exactly_the_expired() {
    let mut deploys = DeployCollection::new();
    deploys.push(deploy_hash(1), DeployHeader { timestamp: 100, ttl: 50 });
    deploys.push(deploy_hash(2), DeployHeader { timestamp: 100, ttl: 500 });
    deploys.push(deploy_hash(3), DeployHeader { timestamp: 0, ttl: 10 });
    let pruned = prune_deploys(&mut deploys, 200);
    assert_eq!(pruned, 2);
    assert_eq!(deploys.len(), 1);
    assert_eq!(
        deploys,
        DeployCollection {
            deploys: vec![(deploy_hash(2), DeployHeader { timestamp: 100, ttl: 500 })]
        }
    );
}

#[test]
fn prune_counts_both_collections() {
    let mut pending = DeployCollection::new();
    pending.push(deploy_hash(1), DeployHeader { timestamp: 0, ttl: 1 });
    pending.push(deploy_hash(2), DeployHeader { timestamp: 1000, ttl: 1000 });
    let mut finalized = DeployCollection::new();
    finalized.push(deploy_hash(3), DeployHeader { timestamp: 0, ttl: 2 });
    let mut sets = BlockProposerDeploySets {
        pending,
        finalized_deploys: finalized,
        next_finalized: 7,
        finalization_queue: vec![],
    };
    let pruned = sets.prune(500);
    assert_eq!(pruned, 2);
    assert_eq!(sets.pending.len(), 1);
    assert_eq!(sets.finalized_deploys.len(), 0);
    assert_eq!(sets.next_finalized, 7);
}

#[test]
fn storage_key_is_namespaced_by_chainspec() {
    let chainspec = Chainspec {
        protocol_version: b"1.0.0".to_vec(),
        name: b"casper-test".to_vec(),
    };
    let key = create_storage_key(&chainspec);
    let expected =
        format!("block_proposer_deploy_sets:version={},chain_name={}", "1.0.0", "casper-test");
    assert_eq!(key, expected.into_bytes());
}

#[test]
fn transaction_hash_follows_the_variant() {
    let dh = DeployHash { w0: 1, w1: 2, w2: 3, w3: 4 };
    let deploy = Transaction::from(Deploy { hash: dh, body: vec![1] });
    assert_eq!(deploy.hash(), TransactionHash::Deploy(dh));

    let vh = TransactionV1Hash { w0: 5, w1: 6, w2: 7, w3: 8 };
    let txn = Transaction::from(TransactionV1 { hash: vh, body: vec![2] });
    assert_eq!(txn.hash(), TransactionHash::V1(vh));
}

fn validator(n: u64) -> PublicKey {
    PublicKey { w0: n, w1: 0, w2: 0, w3: 0 }
}

#[test]
fn step_request_reward_factors_take_the_last_value() {
    let request = StepRequest::new(
        global_state_sync::ids::TrieHash::from_words(1, 2, 3, 4),
        global_state_sync::step::ProtocolVersion { major: 1, minor: 4, patch: 5 },
        vec![SlashItem::new(validator(1)), SlashItem::new(validator(2))],
        vec![
            RewardItem::new(validator(1), 10),
            RewardItem::new(validator(2), 20),
            RewardItem::new(validator(1), 30),
        ],
        vec![],
        true,
        9,
        123456,
    );
    assert_eq!(request.slashed_validators(), vec![validator(1), validator(2)]);
    assert_eq!(
        request.reward_factors(),
        vec![(validator(1), 30), (validator(2), 20)]
    );
}

#[test]
fn initialization_decisions() {
    assert_eq!(initialize_component(true, false), InitOutcome::StartInitialization);
    assert_eq!(initialize_component(true, true), InitOutcome::StartInitialization);
    assert_eq!(initialize_component(false, true), InitOutcome::Shutdown);
    assert_eq!(initialize_component(false, false), InitOutcome::AlreadyInitialized);
}

#[test]
fn upgrade_decisions() {
    assert!(maybe_upgrade(ActivationPoint::EraId(5), 5));
    assert!(!maybe_upgrade(ActivationPoint::EraId(5), 6));
    assert!(!maybe_upgrade(ActivationPoint::Genesis(0), 5));
}

#[test]
fn pre_genesis_decisions() {
    assert_eq!(maybe_pre_genesis(ActivationPoint::Genesis(1000), 500), Ok(()));
    assert_eq!(maybe_pre_genesis(ActivationPoint::Genesis(1000), 1000), Ok(()));
    assert_eq!(
        maybe_pre_genesis(ActivationPoint::Genesis(1000), 1001),
        Err(PreGenesisError::NotPreGenesis)
    );
    assert_eq!(
        maybe_pre_genesis(ActivationPoint::EraId(3), 0),
        Err(PreGenesisError::NotGenesisChainspec)
    );
}
