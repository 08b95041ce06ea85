//! The lifetime of a multisig key, from activation to retirement.
//!
//! A key's stage is a pure function of the current block height, its own
//! activation height, and (if one exists) its successor's activation height,
//! measured in units of `TEN_MINUTES` blocks.

use vstd::prelude::*;

verus! {

/// How many `TEN_MINUTES` periods a key spends forwarding new deposits to its
/// successor before it stops accepting deposits outright.
pub const USED_TO_FORWARD_PERIODS: u64 = 6;

/// How many `TEN_MINUTES` periods a key spends migrating its existing outputs
/// to its successor, after the forwarding window.
pub const FORWARDING_PERIODS: u64 = 6;

/// The total number of `TEN_MINUTES` periods after a successor's activation
/// until the elder key is merely finishing its outstanding Eventualities.
pub const RETIRING_PERIODS: u64 = 12;

/// Where in its lifetime a multisig key currently is.
///
/// Stages advance monotonically with the block height; a key past
/// `Finishing`, once it has no pending Eventualities, is retired.
#[derive(Clone, Copy, Debug, PartialEq, Eq, Structural)]
pub enum LifetimeStage {
    /// Newly activated: receives all new user deposits.
    Active,
    /// A successor is activated: new deposits are forwarded to the successor.
    UsedToForward,
    /// Existing outputs are being migrated to the successor.
    Forwarding,
    /// No more deposits; only waiting for existing Eventualities to resolve.
    Finishing,
}

/// The stage of a key at `current`, given its activation height and its
/// successor's, or `None` while `current` precedes the key's activation.
pub open spec fn spec_stage(
    activation: int,
    successor_activation: Option<int>,
    current: int,
    ten_minutes: int,
) -> Option<LifetimeStage> {
    if current < activation {
        None
    } else {
        match successor_activation {
            None => Some(LifetimeStage::Active),
            Some(successor) => {
                if current < successor {
                    Some(LifetimeStage::Active)
                } else if current < successor + USED_TO_FORWARD_PERIODS * ten_minutes {
                    Some(LifetimeStage::UsedToForward)
                } else if current < successor + RETIRING_PERIODS * ten_minutes {
                    Some(LifetimeStage::Forwarding)
                } else {
                    Some(LifetimeStage::Finishing)
                }
            },
        }
    }
}

/// Compute the lifetime stage of a key.
///
/// Returns `None` while the key is not yet considered active.
pub fn stage(
    activation: u64,
    successor_activation: Option<u64>,
    current: u64,
    ten_minutes: u64,
) -> (stage: Option<LifetimeStage>)
    requires
        ten_minutes >= 1,
        successor_activation is Some ==> successor_activation.unwrap()
            + RETIRING_PERIODS * ten_minutes <= u64::MAX,
    ensures
        stage == spec_stage(
            activation as int,
            match successor_activation {
                None => None::<int>,
                Some(s) => Some(s as int),
            },
            current as int,
            ten_minutes as int,
        ),
{
    if current < activation {
        return None;
    }
    match successor_activation {
        None => Some(LifetimeStage::Active),
        Some(successor) => {
            if current < successor {
                Some(LifetimeStage::Active)
            } else if current < successor + USED_TO_FORWARD_PERIODS * ten_minutes {
                Some(LifetimeStage::UsedToForward)
            } else if current < successor + RETIRING_PERIODS * ten_minutes {
                Some(LifetimeStage::Forwarding)
            } else {
                Some(LifetimeStage::Finishing)
            }
        },
    }
}

} // verus!
