//! The `initialize` instruction: the staking configuration of a collection.

use vstd::prelude::*;
use crate::error::ErrorCode;
use crate::state::Config;

verus! {

/// Bump seeds of the program addresses that `initialize` derives.
#[derive(Clone, Copy, Debug, PartialEq, Eq, Structural)]
pub struct InitializeBumps {
    pub config: u8,
    pub update_authority: u8,
    pub reward_mint: u8,
}

/// The accounts of `initialize`, as far as its logic writes them.
pub struct Initialize {
    /// The collection's configuration account.
    pub config: Config,
}

impl Initialize {
    /// Writes the configuration: the reward rate and freeze period given,
    /// and the bumps of the configuration and reward mint addresses.
    pub fn initialize(&mut self, reward_bps: u16, freeze_period: u16, bumps: InitializeBumps) -> (r: Result<(), ErrorCode>)
        ensures
            r == Ok::<(), ErrorCode>(()),
            final(self).config == (Config {
                reward_bps,
                freeze_period,
                rewards_bump: bumps.reward_mint,
                bump: bumps.config,
            }),
    {
        self.config = Config {
            reward_bps,
            freeze_period,
            rewards_bump: bumps.reward_mint,
            bump: bumps.config,
        };
        Ok(())
    }
}

} // verus!
