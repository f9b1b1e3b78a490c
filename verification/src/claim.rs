//! The `claim` instruction: how many reward tokens a staked asset earns, and
//! the attribute list it is left with.

use vstd::prelude::*;
use vstd::arithmetic::power::{pow, lemma_pow_increases};
use crate::attributes::{Attribute, attributes_view, str_eq, asset_attribute_plugin, spec_asset_attribute_plugin};
use crate::asset_layout::{plugin_offsets_in_bounds, asset_plugin_offsets_in_bounds};
use crate::decimal::{parse_i64, parse_i64_spec, i64_to_decimal, i64_decimal};
use crate::error::ErrorCode;
use crate::state::Config;

verus! {

/// Seconds in one day of the cluster clock.
pub const SECONDS_PER_DAY: i64 = 86400;

/// Basis points in one whole.
pub const BPS_DENOMINATOR: u64 = 10000;

/// The key/value texts of one attribute.
pub type AttributeText = (Seq<char>, Seq<char>);

/// What a scan of the attribute list has gathered so far.
pub struct ScanState {
    /// Sum of the `staked_at` time stamps read.
    pub staked_timestamp: int,
    /// Whole days elapsed since that sum, as of the last `staked_at` read.
    pub staked_time: int,
    /// The attributes other than `staked` and `staked_at`, in order.
    pub kept: Seq<AttributeText>,
}

/// `a / d` rounded toward zero, for `d > 0`.
pub open spec fn trunc_div(a: int, d: int) -> int {
    if a >= 0 {
        a / d
    } else {
        -((-a) / d)
    }
}

/// `v` fits in `i64`.
pub open spec fn in_i64(v: int) -> bool {
    i64::MIN <= v <= i64::MAX
}

/// One attribute read by `claim`: `staked` must hold `true`; `staked_at`
/// adds its time stamp and the freeze period must be over since it; any
/// other attribute is kept.
pub open spec fn scan_step(st: ScanState, attr: AttributeText, now: i64, freeze_period: u16) -> Option<ScanState> {
    if attr.0 == "staked"@ {
        if attr.1 == "true"@ {
            Some(st)
        } else {
            None
        }
    } else if attr.0 == "staked_at"@ {
        match parse_i64_spec(attr.1) {
            None => None,
            Some(t) => {
                let stamp = st.staked_timestamp + t;
                let elapsed = now - stamp;
                if !in_i64(stamp) || !in_i64(elapsed) {
                    None
                } else {
                    let days = trunc_div(elapsed, SECONDS_PER_DAY as int);
                    if days < freeze_period {
                        None
                    } else {
                        Some(ScanState { staked_timestamp: stamp, staked_time: days, kept: st.kept })
                    }
                }
            }
        }
    } else {
        Some(ScanState { staked_timestamp: st.staked_timestamp, staked_time: st.staked_time, kept: st.kept.push(attr) })
    }
}

/// The scan of a whole attribute list, in order; `None` when it is refused.
pub open spec fn scan(attrs: Seq<AttributeText>, now: i64, freeze_period: u16) -> Option<ScanState>
    decreases attrs.len(),
{
    if attrs.len() == 0 {
        Some(ScanState { staked_timestamp: 0, staked_time: 0, kept: Seq::empty() })
    } else {
        match scan(attrs.drop_last(), now, freeze_period) {
            None => None,
            Some(st) => scan_step(st, attrs.last(), now, freeze_period),
        }
    }
}

/// Staked days times the reward rate times one whole token, in base units.
pub open spec fn reward_numerator(staked_days: int, reward_bps: u16, decimals: u8) -> int {
    staked_days * reward_bps * pow(10, decimals as nat)
}

/// What `claim` returns: the reward in base units of the reward mint and the
/// attribute list the claim computes (and does not write back to the asset):
/// the asset's attributes with `staked` and `staked_at` replaced by one
/// `staked_at` holding the claim time; `None` when the claim is refused.
pub open spec fn claim_outcome(
    attributes: Option<Seq<AttributeText>>,
    now: i64,
    config: Config,
    decimals: u8,
) -> Option<(int, Seq<AttributeText>)> {
    match attributes {
        None => None,
        Some(attrs) => match scan(attrs, now, config.freeze_period) {
            None => None,
            Some(st) => {
                let total = reward_numerator(st.staked_time, config.reward_bps, decimals);
                if total > u64::MAX {
                    None
                } else {
                    Some((total / (BPS_DENOMINATOR as int), st.kept.push(("staked_at"@, i64_decimal(now)))))
                }
            }
        },
    }
}

/// `r` is the result that `out` describes: the refusal, or the amount and
/// attribute list.
pub open spec fn outcome_matches(r: Result<ClaimReward, ErrorCode>, out: Option<(int, Seq<AttributeText>)>) -> bool {
    match out {
        None => r == Err::<ClaimReward, ErrorCode>(ErrorCode::CustomError),
        Some(out) => r matches Ok(reward) && reward.amount == out.0
            && attributes_view(reward.attributes@) == out.1,
    }
}

/// The claim reaches the power of ten that scales the reward to the mint's
/// decimals: the attributes were read, and days times rate fits in `u64`.
pub open spec fn claim_reaches_scaling(
    attributes: Option<Seq<AttributeText>>,
    now: i64,
    config: Config,
) -> bool {
    match attributes {
        None => false,
        Some(attrs) => match scan(attrs, now, config.freeze_period) {
            None => false,
            Some(st) => st.staked_time * config.reward_bps <= u64::MAX,
        },
    }
}

/// The accounts of a claim, as far as the reward depends on them.
pub struct Claim {
    /// The collection's staking configuration.
    pub config: Config,
    /// Decimals of the reward mint.
    pub reward_mint_decimals: u8,
    /// The attribute list of the asset's attribute plugin, if it has one.
    pub asset_attributes: Option<Vec<Attribute>>,
}

/// The outcome of an accepted claim.
pub struct ClaimReward {
    /// Reward tokens to mint to the owner, in base units.
    pub amount: u64,
    /// The attribute list the claim computes and discards: it is not written
    /// back to the asset.
    pub attributes: Vec<Attribute>,
}

/// `10` to the power `exp`, for an `exp` whose power fits in `u64`.
fn pow10(exp: u32) -> (r: u64)
    requires
        exp <= 19,
    ensures
        r == pow(10, exp as nat),
{
    proof {
        reveal_with_fuel(pow, 20);
        assert(pow(10, 18) == 1_000_000_000_000_000_000);
    }
    let mut r: u64 = 1;
    let mut i: u32 = 0;
    while i < exp
        invariant
            i <= exp <= 19,
            r == pow(10, i as nat),
            pow(10, 18) == 1_000_000_000_000_000_000,
        decreases exp - i,
    {
        proof {
            reveal(pow);
            lemma_pow_increases(10, i as nat, 18);
            assert(pow(10, (i + 1) as nat) == 10 * pow(10, i as nat));
        }
        r = r * 10;
        i = i + 1;
    }
    r
}

/// A refused prefix of the attribute list refuses the whole list.
pub proof fn lemma_scan_prefix_refused(attrs: Seq<AttributeText>, i: int, now: i64, freeze_period: u16)
    requires
        0 <= i <= attrs.len(),
        scan(attrs.take(i), now, freeze_period) is None,
    ensures
        scan(attrs, now, freeze_period) is None,
    decreases attrs.len() - i,
{
    if i < attrs.len() {
        assert(attrs.take(i + 1).drop_last() =~= attrs.take(i));
        lemma_scan_prefix_refused(attrs, i + 1, now, freeze_period);
    } else {
        assert(attrs.take(i) =~= attrs);
    }
}

/// The days a scan gathers are never negative.
pub proof fn lemma_scan_days_nonnegative(attrs: Seq<AttributeText>, now: i64, freeze_period: u16)
    ensures
        scan(attrs, now, freeze_period) matches Some(st) ==> 0 <= st.staked_time,
    decreases attrs.len(),
{
    if attrs.len() > 0 {
        lemma_scan_days_nonnegative(attrs.drop_last(), now, freeze_period);
    }
}

/// Without the power of ten, a claim is refused exactly when it does not
/// reach the scaling; and a claim that does not reach it is refused whatever
/// the decimals.
proof fn lemma_scaling_outcome(attrs: Option<Seq<AttributeText>>, now: i64, config: Config, decimals: u8)
    ensures
        claim_outcome(attrs, now, config, 0) is None <==> !claim_reaches_scaling(attrs, now, config),
        !claim_reaches_scaling(attrs, now, config) ==> claim_outcome(attrs, now, config, decimals) is None,
{
    if let Some(a) = attrs {
        lemma_scan_days_nonnegative(a, now, config.freeze_period);
        if let Some(st) = scan(a, now, config.freeze_period) {
            let x = st.staked_time * config.reward_bps;
            let p = pow(10, decimals as nat);
            vstd::arithmetic::power::lemma_pow_positive(10, decimals as nat);
            vstd::arithmetic::power::lemma_pow0(10);
            assert(x >= 0) by (nonlinear_arith)
                requires
                    x == st.staked_time * config.reward_bps,
                    st.staked_time >= 0,
                    config.reward_bps >= 0,
            ;
            assert(x * p >= x) by (nonlinear_arith)
                requires
                    x >= 0,
                    p >= 1,
            ;
            assert(x * 1 == x);
        }
    }
}

impl Claim {
    /// The attribute texts of the asset, if it has an attribute plugin.
    pub open spec fn attributes_text(&self) -> Option<Seq<AttributeText>> {
        match self.asset_attributes {
            Some(v) => Some(attributes_view(v@)),
            None => None,
        }
    }

    /// Computes the reward of a staked asset at time `current_timestamp`.
    ///
    /// The claim is refused when the asset has no attribute plugin, when a
    /// `staked` attribute does not hold `true`, when a `staked_at` attribute
    /// is not a decimal `i64`, when the freeze period is not over since it,
    /// or when a sum, a difference or the reward overflows.
    pub fn claim(&self, current_timestamp: i64) -> (r: Result<ClaimReward, ErrorCode>)
        requires
            claim_reaches_scaling(self.attributes_text(), current_timestamp, self.config)
                ==> self.reward_mint_decimals <= 19,
        ensures
            outcome_matches(r, claim_outcome(self.attributes_text(), current_timestamp, self.config, self.reward_mint_decimals)),
    {
        let attributes = match &self.asset_attributes {
            Some(a) => a,
            None => return Err(ErrorCode::CustomError),
        };
        let ghost attrs = attributes_view(attributes@);
        let freeze_period = self.config.freeze_period;
        let mut kept: Vec<Attribute> = Vec::new();
        let mut staked_timestamp: i64 = 0;
        let mut staked_time: i64 = 0;
        let n = attributes.len();
        assert(attrs.take(0) =~= Seq::<AttributeText>::empty());
        assert(attributes_view(kept@) =~= Seq::<AttributeText>::empty());
        for i in 0..n
            invariant
                n == attributes@.len(),
                attrs == attributes_view(attributes@),
                self.attributes_text() == Some(attrs),
                freeze_period == self.config.freeze_period,
                0 <= staked_time,
                scan(attrs.take(i as int), current_timestamp, freeze_period) == Some(
                    ScanState {
                        staked_timestamp: staked_timestamp as int,
                        staked_time: staked_time as int,
                        kept: attributes_view(kept@),
                    },
                ),
        {
            let attr = &attributes[i];
            let ghost prev = ScanState {
                staked_timestamp: staked_timestamp as int,
                staked_time: staked_time as int,
                kept: attributes_view(kept@),
            };
            assert(attrs.take(i + 1).drop_last() =~= attrs.take(i as int));
            assert(attrs.take(i + 1).last() == attr@);
            if str_eq(attr.key.as_str(), "staked") {
                if !str_eq(attr.value.as_str(), "true") {
                    proof { lemma_scan_prefix_refused(attrs, i + 1, current_timestamp, freeze_period); }
                    return Err(ErrorCode::CustomError);
                }
            } else if str_eq(attr.key.as_str(), "staked_at") {
                let parsed = match parse_i64(attr.value.as_str()) {
                    Some(v) => v,
                    None => {
                        proof { lemma_scan_prefix_refused(attrs, i + 1, current_timestamp, freeze_period); }
                        return Err(ErrorCode::CustomError);
                    },
                };
                staked_timestamp = match staked_timestamp.checked_add(parsed) {
                    Some(v) => v,
                    None => {
                        proof { lemma_scan_prefix_refused(attrs, i + 1, current_timestamp, freeze_period); }
                        return Err(ErrorCode::CustomError);
                    },
                };
                let elapsed = match current_timestamp.checked_sub(staked_timestamp) {
                    Some(v) => v,
                    None => {
                        proof { lemma_scan_prefix_refused(attrs, i + 1, current_timestamp, freeze_period); }
                        return Err(ErrorCode::CustomError);
                    },
                };
                let days = match elapsed.checked_div(SECONDS_PER_DAY) {
                    Some(v) => v,
                    None => {
                        proof { lemma_scan_prefix_refused(attrs, i + 1, current_timestamp, freeze_period); }
                        return Err(ErrorCode::CustomError);
                    },
                };
                assert(days == trunc_div(elapsed as int, SECONDS_PER_DAY as int));
                if days < freeze_period as i64 {
                    proof { lemma_scan_prefix_refused(attrs, i + 1, current_timestamp, freeze_period); }
                    return Err(ErrorCode::CustomError);
                }
                staked_time = days;
            } else {
                kept.push(attr.duplicate());
                assert(attributes_view(kept@) =~= prev.kept.push(attr@));
            }
        }
        assert(attrs.take(n as int) =~= attrs);
        let reward_bps = self.config.reward_bps;
        let days = staked_time as u64;
        let scaled = match days.checked_mul(reward_bps as u64) {
            Some(v) => v,
            None => {
                proof {
                    let p = pow(10, self.reward_mint_decimals as nat);
                    vstd::arithmetic::power::lemma_pow_positive(10, self.reward_mint_decimals as nat);
                    let a = staked_time * reward_bps;
                    assert(a * p >= a) by (nonlinear_arith)
                        requires
                            a >= 0,
                            p >= 1,
                    ;
                }
                return Err(ErrorCode::CustomError);
            },
        };
        let unit = pow10(self.reward_mint_decimals as u32);
        let total = match scaled.checked_mul(unit) {
            Some(v) => v,
            None => return Err(ErrorCode::CustomError),
        };
        let amount = total / BPS_DENOMINATOR;
        let stamp = i64_to_decimal(current_timestamp);
        let ghost before = attributes_view(kept@);
        kept.push(Attribute { key: "staked_at".to_string(), value: stamp });
        assert(attributes_view(kept@) =~= before.push(("staked_at"@, i64_decimal(current_timestamp))));
        Ok(ClaimReward { amount, attributes: kept })
    }

    /// Computes the reward of the asset account whose data is `asset_data`
    /// and whose owner program is `asset_owner`: its attribute plugin is read,
    /// then the claim proceeds as `claim` does on that attribute list. The
    /// offsets that the plugin is read at must lie inside the data.
    pub fn claim_asset(
        config: Config,
        reward_mint_decimals: u8,
        asset_data: &[u8],
        asset_owner: [u8; 32],
        current_timestamp: i64,
    ) -> (r: Result<ClaimReward, ErrorCode>)
        requires
            plugin_offsets_in_bounds(asset_data@),
            claim_reaches_scaling(spec_asset_attribute_plugin(asset_data@, asset_owner@), current_timestamp, config)
                ==> reward_mint_decimals <= 19,
        ensures
            outcome_matches(
                r,
                claim_outcome(spec_asset_attribute_plugin(asset_data@, asset_owner@), current_timestamp, config, reward_mint_decimals),
            ),
    {
        let asset_attributes = asset_attribute_plugin(asset_data, asset_owner);
        let accounts = Claim { config, reward_mint_decimals, asset_attributes };
        assert(accounts.attributes_text() == spec_asset_attribute_plugin(asset_data@, asset_owner@));
        accounts.claim(current_timestamp)
    }

    /// Like `claim_asset`, for any asset data and number of mint decimals:
    /// the claim is refused when an offset that the attribute plugin is read
    /// at lies past the end of the data; otherwise the result is `None` where
    /// the claim reaches a power of ten that does not fit in `u64` (more than
    /// 19 decimals), and the result of `claim_asset` everywhere else.
    pub fn claim_asset_checked(
        config: Config,
        reward_mint_decimals: u8,
        asset_data: &[u8],
        asset_owner: [u8; 32],
        current_timestamp: i64,
    ) -> (r: Option<Result<ClaimReward, ErrorCode>>)
        ensures
            !plugin_offsets_in_bounds(asset_data@) ==> r == Some(Err::<ClaimReward, ErrorCode>(ErrorCode::CustomError)),
            plugin_offsets_in_bounds(asset_data@) ==> (r is None <==> (reward_mint_decimals > 19 && claim_reaches_scaling(
                spec_asset_attribute_plugin(asset_data@, asset_owner@),
                current_timestamp,
                config,
            ))),
            plugin_offsets_in_bounds(asset_data@) ==> (r matches Some(res) ==> outcome_matches(
                res,
                claim_outcome(spec_asset_attribute_plugin(asset_data@, asset_owner@), current_timestamp, config, reward_mint_decimals),
            )),
    {
        if !asset_plugin_offsets_in_bounds(asset_data) {
            return Some(Err(ErrorCode::CustomError));
        }
        if reward_mint_decimals <= 19 {
            return Some(Self::claim_asset(config, reward_mint_decimals, asset_data, asset_owner, current_timestamp));
        }
        let ghost attrs = spec_asset_attribute_plugin(asset_data@, asset_owner@);
        let probe = Self::claim_asset(config, 0, asset_data, asset_owner, current_timestamp);
        proof { lemma_scaling_outcome(attrs, current_timestamp, config, reward_mint_decimals); }
        match probe {
            Ok(_) => None,
            Err(e) => Some(Err(e)),
        }
    }
}

} // verus!
