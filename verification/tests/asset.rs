use anchor_lang::prelude::Pubkey;
use anchor_lang::AnchorSerialize;
use mpl_core::accounts::{BaseAssetV1, PluginHeaderV1, PluginRegistryV1};
use mpl_core::types::{
    Attribute as CoreAttribute, Attributes, Key, Plugin, PluginAuthority, PluginType, RegistryRecord,
    UpdateAuthority,
};
use nft_staking::asset_layout::asset_plugin_offsets_in_bounds;
use nft_staking::claim::Claim;
use nft_staking::error::ErrorCode;
use nft_staking::state::Config;

const DAY: i64 = 86400;
const NOW: i64 = 1_700_000_000;

fn config(reward_bps: u16, freeze_period: u16) -> Config {
    Config { reward_bps, freeze_period, rewards_bump: 255, bump: 254 }
}

fn core_owner() -> [u8; 32] {
    mpl_core::ID.to_bytes()
}

/// The data of an mpl-core asset account, with an attribute plugin holding
/// `attrs` when it is `Some`.
fn asset_data(attrs: Option<Vec<(&str, &str)>>) -> Vec<u8> {
    asset_data_with_offsets(attrs, None, None)
}

/// Like `asset_data`, with the plugin registry offset in the header or the
/// attribute record's offset replaced when given.
fn asset_data_with_offsets(
    attrs: Option<Vec<(&str, &str)>>,
    registry_offset: Option<u64>,
    record_offset: Option<u64>,
) -> Vec<u8> {
    let asset = BaseAssetV1 {
        key: Key::AssetV1,
        owner: Pubkey::new_from_array([7; 32]),
        update_authority: UpdateAuthority::None,
        name: "NFT".to_string(),
        uri: "uri".to_string(),
        seq: None,
    };
    let mut data = asset.try_to_vec().unwrap();
    let attrs = match attrs {
        None => return data,
        Some(a) => a,
    };
    let plugin = Plugin::Attributes(Attributes {
        attribute_list: attrs
            .into_iter()
            .map(|(k, v)| CoreAttribute { key: k.to_string(), value: v.to_string() })
            .collect(),
    })
    .try_to_vec()
    .unwrap();
    let plugin_offset = (data.len() + 9) as u64;
    let registry_at = plugin_offset + plugin.len() as u64;
    let header = PluginHeaderV1 {
        key: Key::PluginHeaderV1,
        plugin_registry_offset: registry_offset.unwrap_or(registry_at),
    };
    data.extend(header.try_to_vec().unwrap());
    data.extend(plugin);
    let registry = PluginRegistryV1 {
        key: Key::PluginRegistryV1,
        registry: vec![RegistryRecord {
            plugin_type: PluginType::Attributes,
            authority: PluginAuthority::UpdateAuthority,
            offset: record_offset.unwrap_or(plugin_offset),
        }],
        external_registry: vec![],
    };
    data.extend(registry.try_to_vec().unwrap());
    data
}

#[test]
fn claim_asset_reads_attribute_plugin() {
    let stamp = (NOW - 10 * DAY).to_string();
    let data = asset_data(Some(vec![("staked", "true"), ("staked_at", &stamp), ("level", "3")]));
    let r = Claim::claim_asset(config(500, 7), 6, &data, core_owner(), NOW).unwrap();
    assert_eq!(r.amount, 500_000);
    let pairs: Vec<(String, String)> = r.attributes.iter().map(|a| (a.key.clone(), a.value.clone())).collect();
    assert_eq!(
        pairs,
        vec![("level".to_string(), "3".to_string()), ("staked_at".to_string(), NOW.to_string())]
    );
}

#[test]
fn claim_asset_refuses_asset_without_plugin() {
    let data = asset_data(None);
    assert_eq!(
        Claim::claim_asset(config(500, 0), 6, &data, core_owner(), NOW).err(),
        Some(ErrorCode::CustomError)
    );
}

#[test]
fn claim_asset_refuses_account_of_other_owner() {
    let data = asset_data(Some(vec![("staked", "true")]));
    assert!(Claim::claim_asset(config(500, 0), 6, &data, [1; 32], NOW).is_err());
    assert!(Claim::claim_asset(config(500, 0), 6, &data, core_owner(), NOW).is_ok());
}

#[test]
fn claim_asset_refuses_garbage_data() {
    assert!(Claim::claim_asset(config(500, 0), 6, &[], core_owner(), NOW).is_err());
    assert!(Claim::claim_asset(config(500, 0), 6, &[9, 9, 9], core_owner(), NOW).is_err());
}

#[test]
fn claim_asset_during_freeze_is_refused() {
    let stamp = (NOW - 2 * DAY).to_string();
    let data = asset_data(Some(vec![("staked", "true"), ("staked_at", &stamp)]));
    assert!(Claim::claim_asset(config(500, 7), 6, &data, core_owner(), NOW).is_err());
}

#[test]
fn claim_asset_checked_flags_oversized_scaling() {
    let stamp = (NOW - 3 * DAY).to_string();
    let data = asset_data(Some(vec![("staked_at", &stamp)]));
    assert!(Claim::claim_asset_checked(config(500, 0), 20, &data, core_owner(), NOW).is_none());
    let stamp = (NOW - DAY).to_string();
    let data = asset_data(Some(vec![("staked_at", &stamp)]));
    let r = Claim::claim_asset_checked(config(1, 0), 19, &data, core_owner(), NOW).unwrap().unwrap();
    assert_eq!(r.amount, 1_000_000_000_000_000);
}

#[test]
fn claim_asset_checked_refuses_before_scaling() {
    // Refused before the power of ten is reached: an error, whatever the decimals.
    let data = asset_data(None);
    assert_eq!(
        Claim::claim_asset_checked(config(500, 0), 30, &data, core_owner(), NOW).map(|r| r.err()),
        Some(Some(ErrorCode::CustomError))
    );
    let data = asset_data(Some(vec![("staked", "no")]));
    assert_eq!(
        Claim::claim_asset_checked(config(500, 0), 30, &data, core_owner(), NOW).map(|r| r.err()),
        Some(Some(ErrorCode::CustomError))
    );
}

#[test]
fn claim_asset_checked_matches_claim_asset() {
    let stamp = (NOW - 8 * DAY).to_string();
    let data = asset_data(Some(vec![("staked", "true"), ("staked_at", &stamp)]));
    let a = Claim::claim_asset(config(500, 7), 6, &data, core_owner(), NOW).unwrap();
    let b = Claim::claim_asset_checked(config(500, 7), 6, &data, core_owner(), NOW).unwrap().unwrap();
    assert_eq!(a.amount, b.amount);
    assert_eq!(a.amount, 400_000);
}

#[test]
fn plugin_offsets_in_bounds_for_well_formed_asset() {
    assert!(asset_plugin_offsets_in_bounds(&asset_data(Some(vec![("staked", "true")]))));
    assert!(asset_plugin_offsets_in_bounds(&asset_data(None)));
    assert!(asset_plugin_offsets_in_bounds(&[]));
}

#[test]
fn plugin_registry_offset_past_end_is_out_of_bounds() {
    let data = asset_data_with_offsets(Some(vec![("staked", "true")]), Some(1_000_000), None);
    assert!(!asset_plugin_offsets_in_bounds(&data));
    let r = Claim::claim_asset_checked(config(500, 0), 6, &data, core_owner(), NOW);
    assert_eq!(r.map(|r| r.err()), Some(Some(ErrorCode::CustomError)));
}

#[test]
fn attribute_record_offset_past_end_is_out_of_bounds() {
    let data = asset_data_with_offsets(Some(vec![("staked", "true")]), None, Some(u64::MAX));
    assert!(!asset_plugin_offsets_in_bounds(&data));
    let r = Claim::claim_asset_checked(config(500, 0), 6, &data, core_owner(), NOW);
    assert_eq!(r.map(|r| r.err()), Some(Some(ErrorCode::CustomError)));
}

#[test]
fn record_offset_at_end_is_in_bounds_and_refused() {
    // An offset equal to the data length slices to nothing: no panic, and the
    // plugin read fails.
    let probe = asset_data(Some(vec![("staked", "true")]));
    let data = asset_data_with_offsets(Some(vec![("staked", "true")]), None, Some(probe.len() as u64));
    assert!(asset_plugin_offsets_in_bounds(&data));
    assert!(Claim::claim_asset(config(500, 0), 6, &data, core_owner(), NOW).is_err());
}
