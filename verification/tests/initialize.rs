use nft_staking::initialize::{Initialize, InitializeBumps};
use nft_staking::state::Config;

fn empty_config() -> Config {
    Config { reward_bps: 0, freeze_period: 0, rewards_bump: 0, bump: 0 }
}

#[test]
fn initialize_writes_rate_and_freeze_period() {
    let mut accounts = Initialize { config: empty_config() };
    let bumps = InitializeBumps { config: 254, update_authority: 253, reward_mint: 252 };
    let r = accounts.initialize(500, 7, bumps);
    assert!(r.is_ok());
    assert_eq!(accounts.config.reward_bps, 500);
    assert_eq!(accounts.config.freeze_period, 7);
}

#[test]
fn initialize_records_bumps() {
    let mut accounts = Initialize { config: empty_config() };
    let bumps = InitializeBumps { config: 254, update_authority: 253, reward_mint: 252 };
    accounts.initialize(1, 2, bumps).unwrap();
    assert_eq!(
        accounts.config,
        Config { reward_bps: 1, freeze_period: 2, rewards_bump: 252, bump: 254 }
    );
}

#[test]
fn initialize_overwrites_previous_config() {
    let mut accounts = Initialize {
        config: Config { reward_bps: 9, freeze_period: 9, rewards_bump: 9, bump: 9 },
    };
    let bumps = InitializeBumps { config: 1, update_authority: 2, reward_mint: 3 };
    accounts.initialize(0, 0, bumps).unwrap();
    assert_eq!(
        accounts.config,
        Config { reward_bps: 0, freeze_period: 0, rewards_bump: 3, bump: 1 }
    );
}

#[test]
fn test_initialize() {
    let mut accounts = Initialize { config: empty_config() };
    let bumps = InitializeBumps { config: 255, update_authority: 254, reward_mint: 253 };
    accounts.initialize(500, 7, bumps).unwrap();
    assert_eq!(accounts.config.reward_bps, 500);
    assert_eq!(accounts.config.freeze_period, 7);
}
