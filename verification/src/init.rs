//! Reactor start-up decisions.
//!
//! The surrounding runtime initializes components, commits genesis and
//! upgrades the contract runtime; the decisions behind those actions are
//! pure and live here, from plain values to plain values, while the runtime
//! performs the effects they call for.

use vstd::prelude::*;

verus! {

/// When the current protocol era becomes active: at genesis, at a timestamp
/// in milliseconds, or at the start of a later era.
#[derive(Clone, Copy, PartialEq, Eq, Structural, Debug)]
pub enum ActivationPoint {
    /// Genesis activation at the given timestamp.
    Genesis(u64),
    /// Activation at the start of the given era.
    EraId(u64),
}

/// What the runtime should do for a component during start-up.
#[derive(Clone, Copy, PartialEq, Eq, Structural, Debug)]
pub enum InitOutcome {
    /// The component is uninitialized: post its initiating event and a
    /// status check.
    StartInitialization,
    /// The component failed to initialize: shut the node down.
    Shutdown,
    /// The component needs nothing.
    AlreadyInitialized,
}

/// Decides what start-up work a component needs: an uninitialized component
/// is started, a fatal one shuts the node down, any other is left alone.
pub fn initialize_component(is_uninitialized: bool, is_fatal: bool) -> (r: InitOutcome)
    ensures
        r == (if is_uninitialized {
            InitOutcome::StartInitialization
        } else if is_fatal {
            InitOutcome::Shutdown
        } else {
            InitOutcome::AlreadyInitialized
        }),
{
    if is_uninitialized {
        InitOutcome::StartInitialization
    } else if is_fatal {
        InitOutcome::Shutdown
    } else {
        InitOutcome::AlreadyInitialized
    }
}

/// Checks if a protocol upgrade is necessary: only when the chainspec
/// activates at an era boundary and the next block starts exactly that era.
pub fn maybe_upgrade(activation_point: ActivationPoint, next_block_era_id: u64) -> (r: bool)
    ensures
        r == (activation_point == ActivationPoint::EraId(next_block_era_id)),
{
    match activation_point {
        ActivationPoint::Genesis(_) => false,
        ActivationPoint::EraId(era_id) => era_id == next_block_era_id,
    }
}

/// Why genesis must not be run now.
#[derive(Clone, Copy, PartialEq, Eq, Structural, Debug)]
pub enum PreGenesisError {
    /// The genesis timestamp has already passed.
    NotPreGenesis,
    /// The chainspec does not activate at genesis at all.
    NotGenesisChainspec,
}

/// Checks if running genesis is necessary: only before the genesis
/// timestamp of a genesis chainspec.
pub fn maybe_pre_genesis(activation_point: ActivationPoint, now: u64) -> (r: Result<
    (),
    PreGenesisError,
>)
    ensures
        r == (match activation_point {
            ActivationPoint::Genesis(timestamp) => if now > timestamp {
                Err::<(), PreGenesisError>(PreGenesisError::NotPreGenesis)
            } else {
                Ok::<(), PreGenesisError>(())
            },
            ActivationPoint::EraId(_) => Err::<(), PreGenesisError>(
                PreGenesisError::NotGenesisChainspec,
            ),
        }),
{
    match activation_point {
        ActivationPoint::Genesis(timestamp) => {
            if now > timestamp {
                Err(PreGenesisError::NotPreGenesis)
            } else {
                Ok(())
            }
        },
        ActivationPoint::EraId(_) => Err(PreGenesisError::NotGenesisChainspec),
    }
}

} // verus!
