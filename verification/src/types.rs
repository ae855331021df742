//! Accounts, and the named outcomes of the operations.

use vstd::prelude::*;

verus! {

/// A 256-bit account identifier, held as two 128-bit halves.
///
/// A neuron is registered under two of them: the hotkey, which signs its
/// operational calls, and the coldkey, which owns it and alone may move
/// its stake.
#[derive(Clone, Copy, Debug, PartialEq, Eq, Hash, Structural)]
pub struct AccountId {
    pub hi: u128,
    pub lo: u128,
}

/// Why an operation was rejected. A rejected operation changes nothing.
#[derive(Clone, Copy, Debug, PartialEq, Eq, Structural)]
pub enum Error {
    /// A value that was expected is absent.
    NoneValue,
    /// A stored amount would leave the range of its type.
    StorageOverflow,
    /// The hotkey is not registered where the operation needs it to be.
    NotRegistered,
    /// The caller is not the coldkey bound to the hotkey.
    NonAssociatedColdKey,
    /// More stake was to be removed than the hotkey holds.
    NotEnoughStaketoWithdraw,
    /// More stake was to be added than the coldkey's balance covers.
    NotEnoughBalanceToStake,
    /// The amount could not be withdrawn from the coldkey's balance.
    BalanceWithdrawalError,
    /// The target uids and the weight values differ in number.
    WeightVecNotEqualSize,
    /// A target uid occurs more than once.
    DuplicateUids,
    /// The subnetwork does not exist, or a uid names no registered neuron of it.
    InvalidUid,
    /// Fewer weights are non-zero than the subnetwork asks for.
    NotSettingEnoughWeights,
    /// A weight is more than the allowed multiple of the smallest non-zero weight.
    MaxAllowedMaxMinRatioExceeded,
    /// The registration proof was not accepted by admission control.
    InvalidProof,
    /// The hotkey already holds a uid in the subnetwork.
    AlreadyRegistered,
    /// The subnetwork has no free slot and none that could be reclaimed.
    SubnetworkFull,
    /// The emission ratios of all subnetworks together would exceed one.
    EmissionRatioSumExceeded,
    /// A subnetwork with this netuid exists already.
    NetworkExists,
}

/// What a successful operation reports.
#[derive(Clone, Copy, Debug, PartialEq, Eq, Structural)]
pub enum Event {
    /// Stake was moved from a coldkey's balance onto the hotkey named here.
    StakeAdded(AccountId, u64),
    /// Stake was moved from the hotkey named here back to its coldkey.
    StakeRemoved(AccountId, u64),
    /// The neuron with the second number as uid set its weights on the
    /// subnetwork with the first number as netuid.
    WeightsSet(u16, u16),
    /// The number of blocks per step was set.
    BlocksPerStepSet(u64),
    /// The tempo of a subnetwork was set.
    TempoSet(u16),
}

} // verus!
