use nft_staking::attributes::Attribute;
use nft_staking::claim::{Claim, ClaimReward};
use nft_staking::error::ErrorCode;
use nft_staking::state::Config;

const DAY: i64 = 86400;
const NOW: i64 = 1_700_000_000;

fn attr(key: &str, value: &str) -> Attribute {
    Attribute { key: key.to_string(), value: value.to_string() }
}

fn config(reward_bps: u16, freeze_period: u16) -> Config {
    Config { reward_bps, freeze_period, rewards_bump: 255, bump: 254 }
}

fn claim_at(cfg: Config, decimals: u8, attrs: Option<Vec<Attribute>>, now: i64) -> Result<ClaimReward, ErrorCode> {
    Claim { config: cfg, reward_mint_decimals: decimals, asset_attributes: attrs }.claim(now)
}

fn pairs(attrs: &[Attribute]) -> Vec<(String, String)> {
    attrs.iter().map(|a| (a.key.clone(), a.value.clone())).collect()
}

fn staked_since(t: i64) -> Vec<Attribute> {
    vec![attr("staked", "true"), attr("staked_at", &t.to_string())]
}

#[test]
fn claim_without_attribute_plugin_is_refused() {
    assert_eq!(claim_at(config(500, 0), 6, None, NOW).err(), Some(ErrorCode::CustomError));
}

#[test]
fn claim_after_ten_days_pays_rate_times_days() {
    // 10 days * 500 bps * 10^6 / 10000 = 500_000 base units (half a token).
    let r = claim_at(config(500, 7), 6, Some(staked_since(NOW - 10 * DAY)), NOW).unwrap();
    assert_eq!(r.amount, 500_000);
}

#[test]
fn claim_counts_whole_days_only() {
    let r = claim_at(config(10000, 0), 0, Some(staked_since(NOW - 3 * DAY - (DAY - 1))), NOW).unwrap();
    assert_eq!(r.amount, 3);
}

#[test]
fn claim_scales_by_mint_decimals() {
    let r = claim_at(config(10000, 0), 9, Some(staked_since(NOW - 2 * DAY)), NOW).unwrap();
    assert_eq!(r.amount, 2_000_000_000);
    let r = claim_at(config(10000, 0), 0, Some(staked_since(NOW - 2 * DAY)), NOW).unwrap();
    assert_eq!(r.amount, 2);
}

#[test]
fn claim_rounds_reward_down() {
    // 1 day * 1 bps * 10^0 / 10000 = 0
    let r = claim_at(config(1, 0), 0, Some(staked_since(NOW - DAY)), NOW).unwrap();
    assert_eq!(r.amount, 0);
}

#[test]
fn claim_during_freeze_is_refused() {
    let r = claim_at(config(500, 7), 6, Some(staked_since(NOW - 6 * DAY - 5)), NOW);
    assert_eq!(r.err(), Some(ErrorCode::CustomError));
}

#[test]
fn claim_on_last_freeze_day_boundary_is_accepted() {
    let r = claim_at(config(500, 7), 6, Some(staked_since(NOW - 7 * DAY)), NOW).unwrap();
    assert_eq!(r.amount, 350_000);
}

#[test]
fn claim_with_staked_not_true_is_refused() {
    let attrs = vec![attr("staked", "false"), attr("staked_at", &(NOW - 10 * DAY).to_string())];
    assert!(claim_at(config(500, 0), 6, Some(attrs), NOW).is_err());
}

#[test]
fn claim_with_malformed_time_stamp_is_refused() {
    for bad in ["", "abc", "12x", " 12", "-", "+", "99999999999999999999"] {
        let attrs = vec![attr("staked", "true"), attr("staked_at", bad)];
        assert!(claim_at(config(500, 0), 6, Some(attrs), NOW).is_err(), "{:?}", bad);
    }
}

#[test]
fn claim_reads_signed_time_stamps() {
    let plus = format!("+{}", NOW - 4 * DAY);
    let r = claim_at(config(10000, 0), 0, Some(vec![attr("staked_at", &plus)]), NOW).unwrap();
    assert_eq!(r.amount, 4);
    let r = claim_at(config(10000, 0), 0, Some(vec![attr("staked_at", "-86400")]), 0).unwrap();
    assert_eq!(r.amount, 1);
}

#[test]
fn claim_without_stake_time_pays_nothing() {
    let attrs = vec![attr("staked", "true"), attr("color", "red")];
    let r = claim_at(config(500, 30), 6, Some(attrs), NOW).unwrap();
    assert_eq!(r.amount, 0);
    assert_eq!(
        pairs(&r.attributes),
        vec![("color".to_string(), "red".to_string()), ("staked_at".to_string(), NOW.to_string())]
    );
}

#[test]
fn claim_keeps_other_attributes_and_restamps() {
    let attrs = vec![
        attr("level", "3"),
        attr("staked", "true"),
        attr("name", "NFT"),
        attr("staked_at", &(NOW - 8 * DAY).to_string()),
        attr("uri", "uri"),
    ];
    let r = claim_at(config(500, 7), 6, Some(attrs), NOW).unwrap();
    assert_eq!(r.amount, 400_000);
    assert_eq!(
        pairs(&r.attributes),
        vec![
            ("level".to_string(), "3".to_string()),
            ("name".to_string(), "NFT".to_string()),
            ("uri".to_string(), "uri".to_string()),
            ("staked_at".to_string(), NOW.to_string()),
        ]
    );
}

#[test]
fn claim_writes_negative_time_in_decimal() {
    let r = claim_at(config(500, 0), 6, Some(vec![]), -42).unwrap();
    assert_eq!(pairs(&r.attributes), vec![("staked_at".to_string(), "-42".to_string())]);
}

#[test]
fn claim_adds_up_repeated_time_stamps() {
    // Two stamps add up: 10 + (NOW - 10 - 5 days) = NOW - 5 days.
    let attrs = vec![attr("staked_at", "10"), attr("staked_at", &(NOW - 10 - 5 * DAY).to_string())];
    let r = claim_at(config(10000, 0), 0, Some(attrs), NOW).unwrap();
    assert_eq!(r.amount, 5);
}

#[test]
fn claim_time_stamp_sum_overflow_is_refused() {
    let max = i64::MAX.to_string();
    let attrs = vec![attr("staked_at", &max), attr("staked_at", &max)];
    assert!(claim_at(config(500, 0), 6, Some(attrs), NOW).is_err());
}

#[test]
fn claim_elapsed_overflow_is_refused() {
    let attrs = vec![attr("staked_at", &i64::MIN.to_string())];
    assert!(claim_at(config(500, 0), 6, Some(attrs), NOW).is_err());
}

#[test]
fn claim_reward_overflow_is_refused() {
    // about 10^8 days * 65535 bps * 10^19 does not fit in u64
    let attrs = vec![attr("staked_at", &(NOW - 100_000_000 * DAY).to_string())];
    assert!(claim_at(config(65535, 0), 19, Some(attrs), NOW).is_err());
    let attrs = vec![attr("staked_at", &(NOW - 100_000_000 * DAY).to_string())];
    assert!(claim_at(config(65535, 0), 0, Some(attrs), NOW).is_ok());
}

#[test]
fn claim_future_stamp_within_a_day_counts_zero_days() {
    // Elapsed time is negative but less than a day: it rounds toward zero.
    let r = claim_at(config(500, 0), 6, Some(staked_since(NOW + 100)), NOW).unwrap();
    assert_eq!(r.amount, 0);
    let r = claim_at(config(500, 0), 6, Some(staked_since(NOW + DAY)), NOW);
    assert!(r.is_err());
}

#[test]
fn claim_reward_grows_with_time() {
    let stamp = NOW - 20 * DAY;
    let mut last = 0;
    for extra in [0, DAY / 2, DAY, 3 * DAY, 40 * DAY] {
        let r = claim_at(config(500, 7), 6, Some(staked_since(stamp)), NOW + extra).unwrap();
        assert!(r.amount >= last);
        last = r.amount;
    }
}

#[test]
fn reclaim_pays_days_since_claim() {
    let first = claim_at(config(500, 2), 6, Some(staked_since(NOW - 30 * DAY)), NOW).unwrap();
    assert_eq!(first.amount, 1_500_000);
    let again = claim_at(config(500, 2), 6, Some(first.attributes), NOW + 3 * DAY).unwrap();
    assert_eq!(again.amount, 150_000);
    let first = claim_at(config(500, 2), 6, Some(staked_since(NOW - 30 * DAY)), NOW).unwrap();
    let too_soon = claim_at(config(500, 2), 6, Some(first.attributes), NOW + DAY);
    assert!(too_soon.is_err());
}

#[test]
fn claim_reward_grows_with_rate() {
    let mut last = 0;
    for bps in [0u16, 1, 250, 500, 10000, 65535] {
        let r = claim_at(config(bps, 3), 6, Some(staked_since(NOW - 12 * DAY)), NOW).unwrap();
        assert!(r.amount >= last);
        last = r.amount;
    }
}

#[test]
fn claim_ignores_attribute_order() {
    let stamp = (NOW - 9 * DAY).to_string();
    let orders: Vec<Vec<Attribute>> = vec![
        vec![attr("staked", "true"), attr("staked_at", &stamp), attr("color", "red")],
        vec![attr("staked_at", &stamp), attr("color", "red"), attr("staked", "true")],
        vec![attr("color", "red"), attr("staked", "true"), attr("staked_at", &stamp)],
    ];
    for attrs in orders {
        let r = claim_at(config(500, 7), 6, Some(attrs), NOW).unwrap();
        assert_eq!(r.amount, 450_000);
    }
    let refused = vec![
        vec![attr("staked", "false"), attr("staked_at", &stamp)],
        vec![attr("staked_at", &stamp), attr("staked", "false")],
    ];
    for attrs in refused {
        assert!(claim_at(config(500, 7), 6, Some(attrs), NOW).is_err());
    }
}
