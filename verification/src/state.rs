use vstd::prelude::*;

verus! {

/// The per-collection staking configuration.
#[derive(Clone, Copy, Debug, PartialEq, Eq, Structural)]
pub struct Config {
    /// Reward rate, in basis points of one whole reward token per staked day.
    pub reward_bps: u16,
    /// Number of full days an asset must stay staked before it can claim.
    pub freeze_period: u16,
    /// Bump seed of the reward mint's program address.
    pub rewards_bump: u8,
    /// Bump seed of the configuration's program address.
    pub bump: u8,
}

} // verus!
