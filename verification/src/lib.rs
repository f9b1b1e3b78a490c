//! Reward logic of an NFT staking program: the configuration written by
//! `initialize` and the reward computed by `claim` from the attributes that
//! staking stored on an asset.

pub mod error;
pub mod state;
pub mod decimal;
pub mod asset_layout;
pub mod attributes;
pub mod initialize;
pub mod claim;
pub mod claim_laws;
