//! The values that a chain is configured with.

use vstd::prelude::*;
use crate::epoch::Hyper;
use crate::types::AccountId;

verus! {

/// The values that the state starts from and that every new subnetwork
/// takes over.
#[derive(Clone, Copy, Debug, PartialEq, Eq, Structural)]
pub struct Config {
    /// The total issuance at the start.
    pub initial_issuance: u64,
    /// The number of blocks per step at the start.
    pub initial_blocks_per_step: u64,
    /// The least number of non-zero weights that a row must have.
    pub initial_min_allowed_weights: u16,
    /// The largest multiple of its smallest non-zero weight that a weight
    /// of a row may be.
    pub initial_max_allowed_max_min_ratio: u16,
    /// The number of blocks between two epochs of a subnetwork.
    pub initial_tempo: u16,
    /// The largest number of slots of a subnetwork.
    pub max_allowed_uids: u16,
    /// The emission of one block, over all subnetworks.
    pub block_emission: u64,
    /// The trust, as a fraction, at which half of a neuron's rank becomes
    /// consensus.
    pub trust_threshold: u16,
    /// How steeply the part of rank that becomes consensus rises with trust.
    pub clip_steepness: u16,
    /// The fraction of a bond that comes from the current weight.
    pub bond_smoothing: u16,
    /// The fraction of the emission that is paid for incentive.
    pub incentive_split: u16,
}

impl Config {
    /// The numbers that steer the epochs of a new subnetwork.
    pub fn hyper_of(&self) -> (h: Hyper)
        ensures
            h == self.hyper(),
    {
        Hyper {
            min_allowed: self.initial_min_allowed_weights,
            ratio: self.initial_max_allowed_max_min_ratio,
            kappa: self.trust_threshold,
            rho: self.clip_steepness,
            alpha: self.bond_smoothing,
            split: self.incentive_split,
        }
    }

    /// The numbers that steer the epochs of a new subnetwork.
    pub open spec fn hyper(self) -> Hyper {
        Hyper {
            min_allowed: self.initial_min_allowed_weights,
            ratio: self.initial_max_allowed_max_min_ratio,
            kappa: self.trust_threshold,
            rho: self.clip_steepness,
            alpha: self.bond_smoothing,
            split: self.incentive_split,
        }
    }
}

/// The total issuance before anything was minted.
#[allow(non_snake_case)]
pub fn DefaultTotalIssuance(config: &Config) -> (r: u64)
    ensures
        r == config.initial_issuance,
{
    config.initial_issuance
}

/// The number of blocks per step before it was set.
#[allow(non_snake_case)]
pub fn DefaultBlocksPerStep(config: &Config) -> (r: u64)
    ensures
        r == config.initial_blocks_per_step,
{
    config.initial_blocks_per_step
}

/// The emission ratio of a subnetwork before it was set.
#[allow(non_snake_case)]
pub fn DefaultEmissionRatio() -> (r: u16)
    ensures
        r == 0,
{
    0
}

/// The coldkey of a hotkey that has no account: none.
#[allow(non_snake_case)]
pub fn DefaultHotkeyAccount() -> (r: Option<AccountId>)
    ensures
        r is None,
{
    None
}

/// The hotkey of a coldkey that owns none: none.
#[allow(non_snake_case)]
pub fn DefaultColdkeyAccount() -> (r: Option<AccountId>)
    ensures
        r is None,
{
    None
}

/// The least number of non-zero weights of a row in a new subnetwork.
#[allow(non_snake_case)]
pub fn DefaultMinAllowedWeights(config: &Config) -> (r: u16)
    ensures
        r == config.initial_min_allowed_weights,
{
    config.initial_min_allowed_weights
}

/// The largest multiple of its smallest non-zero weight that a weight of a
/// row may be in a new subnetwork.
#[allow(non_snake_case)]
pub fn DefaultMaxAllowedMaxMinRatio(config: &Config) -> (r: u16)
    ensures
        r == config.initial_max_allowed_max_min_ratio,
{
    config.initial_max_allowed_max_min_ratio
}

/// The number of blocks between two epochs of a new subnetwork.
#[allow(non_snake_case)]
pub fn DefaultTempo(config: &Config) -> (r: u16)
    ensures
        r == config.initial_tempo,
{
    config.initial_tempo
}

/// The number of seated neurons of a new subnetwork.
#[allow(non_snake_case)]
pub fn DefaultN() -> (r: u16)
    ensures
        r == 0,
{
    0
}

/// The hotkey at a free slot: none.
#[allow(non_snake_case)]
pub fn DefaultKey() -> (r: Option<AccountId>)
    ensures
        r is None,
{
    None
}

/// The uid of a hotkey that is not seated: none.
#[allow(non_snake_case)]
pub fn DefaultUid() -> (r: Option<u16>)
    ensures
        r is None,
{
    None
}

/// The weights of a slot before any were set.
#[allow(non_snake_case)]
pub fn DefaultWeights() -> (r: Vec<(u16, u16)>)
    ensures
        r@.len() == 0,
{
    Vec::new()
}

/// The bonds of a slot before its first epoch.
#[allow(non_snake_case)]
pub fn DefaultBonds() -> (r: Vec<(u16, u16)>)
    ensures
        r@.len() == 0,
{
    Vec::new()
}

/// The activity flags of a subnetwork without slots.
#[allow(non_snake_case)]
pub fn DefaultActive() -> (r: Vec<bool>)
    ensures
        r@.len() == 0,
{
    Vec::new()
}

/// The stake behind the slots of a subnetwork without slots.
#[allow(non_snake_case)]
pub fn DefaultStake() -> (r: Vec<u64>)
    ensures
        r@.len() == 0,
{
    Vec::new()
}

/// The ranks of a subnetwork without slots.
#[allow(non_snake_case)]
pub fn DefaultRank() -> (r: Vec<u16>)
    ensures
        r@.len() == 0,
{
    Vec::new()
}

/// The trust of a subnetwork without slots.
#[allow(non_snake_case)]
pub fn DefaultTrust() -> (r: Vec<u16>)
    ensures
        r@.len() == 0,
{
    Vec::new()
}

/// The incentive of a subnetwork without slots.
#[allow(non_snake_case)]
pub fn DefaultIncentive() -> (r: Vec<u16>)
    ensures
        r@.len() == 0,
{
    Vec::new()
}

/// The consensus of a subnetwork without slots.
#[allow(non_snake_case)]
pub fn DefaultConsensus() -> (r: Vec<u16>)
    ensures
        r@.len() == 0,
{
    Vec::new()
}

/// The dividends of a subnetwork without slots.
#[allow(non_snake_case)]
pub fn DefaultDividends() -> (r: Vec<u16>)
    ensures
        r@.len() == 0,
{
    Vec::new()
}

/// The emission of a subnetwork without slots.
#[allow(non_snake_case)]
pub fn DefaultEmission() -> (r: Vec<u64>)
    ensures
        r@.len() == 0,
{
    Vec::new()
}

} // verus!
