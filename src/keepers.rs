//! The staking and distribution modules of the chain simulation: stateless
//! handles whose state lives in the store.
use vstd::prelude::*;

verus! {

/// A staking module.
pub trait Staking {}

/// The staking module.
#[derive(Debug, Default)]
pub struct StakingKeeper {}

impl StakingKeeper {
    pub fn new() -> (r: StakingKeeper) {
        StakingKeeper {}
    }
}

impl Staking for StakingKeeper {}

/// A distribution module.
pub trait Distribution {}

/// The distribution module.
#[derive(Debug, Default)]
pub struct DistributionKeeper {}

impl DistributionKeeper {
    pub fn new() -> (r: DistributionKeeper) {
        DistributionKeeper {}
    }
}

impl Distribution for DistributionKeeper {}

} // verus!
