//! Properties of `claim` that hold across inputs and across calls.

use vstd::prelude::*;
use vstd::arithmetic::div_mod::lemma_div_is_ordered;
use vstd::arithmetic::mul::lemma_mul_inequality;
use vstd::multiset::Multiset;
use vstd::arithmetic::power::{pow, lemma_pow_positive};
use crate::claim::{
    AttributeText, ScanState, scan, trunc_div, in_i64, claim_outcome, reward_numerator,
    lemma_scan_days_nonnegative, lemma_scan_prefix_refused, SECONDS_PER_DAY, BPS_DENOMINATOR,
};
use crate::decimal::{i64_decimal, lemma_decimal_round_trip};
use crate::state::Config;

verus! {

/// An attribute that `claim` keeps as it is: neither `staked` nor `staked_at`.
pub open spec fn is_other(a: AttributeText) -> bool {
    a.0 != "staked"@ && a.0 != "staked_at"@
}

/// The attributes of `attrs` that `claim` keeps, in order.
pub open spec fn others(attrs: Seq<AttributeText>) -> Seq<AttributeText> {
    attrs.filter(|a: AttributeText| is_other(a))
}

proof fn lemma_scan_keeps_others(attrs: Seq<AttributeText>, now: i64, freeze_period: u16)
    ensures
        scan(attrs, now, freeze_period) matches Some(st) ==> st.kept == others(attrs),
    decreases attrs.len(),
{
    if attrs.len() == 0 {
        reveal(Seq::filter);
        assert(others(attrs) =~= Seq::<AttributeText>::empty());
    } else {
        let p = attrs.drop_last();
        let x = attrs.last();
        lemma_scan_keeps_others(p, now, freeze_period);
        assert(p.push(x) =~= attrs);
        p.lemma_filter_push(x, |a: AttributeText| is_other(a));
    }
}

proof fn lemma_scan_without_stake_time(attrs: Seq<AttributeText>, now: i64, freeze_period: u16)
    requires
        forall|i: int| 0 <= i < attrs.len() ==> (#[trigger] attrs[i]).0 != "staked_at"@,
        forall|i: int| 0 <= i < attrs.len() ==> (#[trigger] attrs[i]).0 == "staked"@ ==> attrs[i].1 == "true"@,
    ensures
        scan(attrs, now, freeze_period) == Some(ScanState { staked_timestamp: 0, staked_time: 0, kept: others(attrs) }),
    decreases attrs.len(),
{
    lemma_scan_keeps_others(attrs, now, freeze_period);
    if attrs.len() > 0 {
        let p = attrs.drop_last();
        assert forall|i: int| 0 <= i < p.len() implies (#[trigger] p[i]).0 != "staked_at"@
            && (p[i].0 == "staked"@ ==> p[i].1 == "true"@) by {
            assert(p[i] == attrs[i]);
        }
        lemma_scan_without_stake_time(p, now, freeze_period);
        assert(attrs.last() == attrs[attrs.len() - 1]);
    }
}

proof fn lemma_others_are_other(attrs: Seq<AttributeText>)
    ensures
        forall|i: int| 0 <= i < others(attrs).len() ==> is_other(#[trigger] others(attrs)[i]),
{
    assert forall|i: int| 0 <= i < others(attrs).len() implies is_other(#[trigger] others(attrs)[i]) by {
        attrs.lemma_filter_pred(|a: AttributeText| is_other(a), i);
    }
}

proof fn lemma_trunc_div_ordered(a: int, b: int, d: int)
    requires
        a <= b,
        0 < d,
    ensures
        trunc_div(a, d) <= trunc_div(b, d),
{
    if a >= 0 {
        lemma_div_is_ordered(a, b, d);
    } else if b >= 0 {
        lemma_div_is_ordered(0, -a, d);
        lemma_div_is_ordered(0, b, d);
    } else {
        lemma_div_is_ordered(-b, -a, d);
    }
}

proof fn lemma_scan_grows_with_time(attrs: Seq<AttributeText>, now1: i64, now2: i64, freeze_period: u16)
    requires
        now1 <= now2,
        scan(attrs, now1, freeze_period) is Some,
        scan(attrs, now2, freeze_period) is Some,
    ensures
        scan(attrs, now1, freeze_period)->0.staked_timestamp == scan(attrs, now2, freeze_period)->0.staked_timestamp,
        scan(attrs, now1, freeze_period)->0.staked_time <= scan(attrs, now2, freeze_period)->0.staked_time,
    decreases attrs.len(),
{
    if attrs.len() > 0 {
        let p = attrs.drop_last();
        lemma_scan_grows_with_time(p, now1, now2, freeze_period);
        let s1 = scan(p, now1, freeze_period)->0;
        let x = attrs.last();
        if x.0 != "staked"@ && x.0 == "staked_at"@ {
            let t = parse_i64_spec_of(x);
            let stamp = s1.staked_timestamp + t;
            lemma_trunc_div_ordered(now1 - stamp, now2 - stamp, SECONDS_PER_DAY as int);
        }
    }
}

spec fn parse_i64_spec_of(x: AttributeText) -> int {
    crate::decimal::parse_i64_spec(x.1)->0 as int
}

/// A claim accepted later never pays less than one accepted earlier on the
/// same attributes and configuration.
pub proof fn lemma_claim_reward_grows_with_time(
    attrs: Seq<AttributeText>,
    now1: i64,
    now2: i64,
    config: Config,
    decimals: u8,
)
    requires
        now1 <= now2,
        claim_outcome(Some(attrs), now1, config, decimals) is Some,
        claim_outcome(Some(attrs), now2, config, decimals) is Some,
    ensures
        claim_outcome(Some(attrs), now1, config, decimals).unwrap().0 <= claim_outcome(Some(attrs), now2, config, decimals).unwrap().0,
{
    lemma_scan_grows_with_time(attrs, now1, now2, config.freeze_period);
    lemma_scan_days_nonnegative(attrs, now1, config.freeze_period);
    let t1 = scan(attrs, now1, config.freeze_period)->0.staked_time;
    let t2 = scan(attrs, now2, config.freeze_period)->0.staked_time;
    let p = pow(10, decimals as nat);
    lemma_pow_positive(10, decimals as nat);
    lemma_mul_inequality(t1, t2, config.reward_bps as int);
    lemma_mul_inequality(t1 * config.reward_bps, t2 * config.reward_bps, p);
    lemma_div_is_ordered(
        reward_numerator(t1, config.reward_bps, decimals),
        reward_numerator(t2, config.reward_bps, decimals),
        BPS_DENOMINATOR as int,
    );
}

/// The attribute list an accepted claim computes holds the attributes other
/// than `staked` and `staked_at` as they were, in order, followed by one
/// `staked_at` that holds the claim time in decimal.
pub proof fn lemma_claim_keeps_other_attributes(attrs: Seq<AttributeText>, now: i64, config: Config, decimals: u8)
    ensures
        claim_outcome(Some(attrs), now, config, decimals) matches Some(out)
            ==> out.1 == others(attrs).push(("staked_at"@, i64_decimal(now))),
{
    lemma_scan_keeps_others(attrs, now, config.freeze_period);
}

/// An asset with no `staked_at` attribute, whose `staked` attributes all hold
/// `true`, is accepted and earns nothing.
pub proof fn lemma_claim_without_stake_time_pays_nothing(attrs: Seq<AttributeText>, now: i64, config: Config, decimals: u8)
    requires
        forall|i: int| 0 <= i < attrs.len() ==> (#[trigger] attrs[i]).0 != "staked_at"@,
        forall|i: int| 0 <= i < attrs.len() ==> (#[trigger] attrs[i]).0 == "staked"@ ==> attrs[i].1 == "true"@,
    ensures
        claim_outcome(Some(attrs), now, config, decimals)
            == Some((0int, others(attrs).push(("staked_at"@, i64_decimal(now))))),
{
    lemma_scan_without_stake_time(attrs, now, config.freeze_period);
    let p = pow(10, decimals as nat);
    let r = config.reward_bps as int;
    assert(0 * r * p == 0) by (nonlinear_arith);
    assert(reward_numerator(0, config.reward_bps, decimals) == 0);
}

/// A stake record read after other attributes: when `staked_at` holding
/// time `t` follows attributes none of which is `staked_at` and whose
/// `staked` attributes hold `true`, a claim at `now` pays the rate for each
/// whole day since `t`, and is refused exactly when those days fall short of
/// the freeze period or a difference or the reward overflows.
pub proof fn lemma_claim_after_stake_record(
    plain: Seq<AttributeText>,
    t: i64,
    now: i64,
    config: Config,
    decimals: u8,
)
    requires
        forall|i: int| 0 <= i < plain.len() ==> (#[trigger] plain[i]).0 != "staked_at"@,
        forall|i: int| 0 <= i < plain.len() ==> (#[trigger] plain[i]).0 == "staked"@ ==> plain[i].1 == "true"@,
    ensures
        ({
            let attrs = plain.push(("staked_at"@, i64_decimal(t)));
            let elapsed = now - t;
            let days = trunc_div(elapsed, SECONDS_PER_DAY as int);
            let total = reward_numerator(days, config.reward_bps, decimals);
            claim_outcome(Some(attrs), now, config, decimals) == if !in_i64(elapsed)
                || days < config.freeze_period || total > u64::MAX {
                None
            } else {
                Some((total / (BPS_DENOMINATOR as int), others(plain).push(("staked_at"@, i64_decimal(now)))))
            }
        }),
{
    let attrs = plain.push(("staked_at"@, i64_decimal(t)));
    lemma_scan_without_stake_time(plain, now, config.freeze_period);
    assert(attrs.drop_last() =~= plain);
    reveal_strlit("staked");
    reveal_strlit("staked_at");
    assert("staked"@.len() != "staked_at"@.len());
    lemma_decimal_round_trip(t);
}

/// The time stamp in the list a claim computes is read back: claiming again
/// at `now2` on the attribute list that an accepted claim at `now1` computed
/// (a list the claim discards, not one on the asset) pays for the whole
/// days since `now1`, and is refused exactly when those days fall short of
/// the freeze period or a difference or the reward overflows.
pub proof fn lemma_reclaim_pays_days_since_claim(
    attrs: Seq<AttributeText>,
    now1: i64,
    now2: i64,
    config: Config,
    decimals: u8,
)
    requires
        claim_outcome(Some(attrs), now1, config, decimals) is Some,
    ensures
        ({
            let written = claim_outcome(Some(attrs), now1, config, decimals).unwrap().1;
            let elapsed = now2 - now1;
            let days = trunc_div(elapsed, SECONDS_PER_DAY as int);
            let total = reward_numerator(days, config.reward_bps, decimals);
            claim_outcome(Some(written), now2, config, decimals) == if !in_i64(elapsed)
                || days < config.freeze_period || total > u64::MAX {
                None
            } else {
                Some((total / (BPS_DENOMINATOR as int), others(attrs).push(("staked_at"@, i64_decimal(now2)))))
            }
        }),
{
    lemma_scan_keeps_others(attrs, now1, config.freeze_period);
    let kept = others(attrs);
    lemma_others_are_other(attrs);
    lemma_filter_of_others(kept);
    lemma_claim_after_stake_record(kept, now1, now2, config, decimals);
}

proof fn lemma_filter_of_others(s: Seq<AttributeText>)
    requires
        forall|i: int| 0 <= i < s.len() ==> is_other(#[trigger] s[i]),
    ensures
        others(s) == s,
    decreases s.len(),
{
    reveal(Seq::filter);
    if s.len() > 0 {
        let p = s.drop_last();
        assert forall|i: int| 0 <= i < p.len() implies is_other(#[trigger] p[i]) by {
            assert(p[i] == s[i]);
        }
        lemma_filter_of_others(p);
        assert(is_other(s[s.len() - 1]));
        assert(p.push(s.last()) =~= s);
    }
}

/// A claim with a higher reward rate never pays less than one with a lower
/// rate, on the same attributes, time, freeze period and mint decimals.
pub proof fn lemma_claim_reward_grows_with_rate(
    attrs: Seq<AttributeText>,
    now: i64,
    config1: Config,
    config2: Config,
    decimals: u8,
)
    requires
        config1.freeze_period == config2.freeze_period,
        config1.reward_bps <= config2.reward_bps,
        claim_outcome(Some(attrs), now, config1, decimals) is Some,
        claim_outcome(Some(attrs), now, config2, decimals) is Some,
    ensures
        claim_outcome(Some(attrs), now, config1, decimals).unwrap().0 <= claim_outcome(Some(attrs), now, config2, decimals).unwrap().0,
{
    lemma_scan_days_nonnegative(attrs, now, config1.freeze_period);
    let t = scan(attrs, now, config1.freeze_period).unwrap().staked_time;
    let p = pow(10, decimals as nat);
    lemma_pow_positive(10, decimals as nat);
    lemma_mul_left_inequality_nonneg(t, config1.reward_bps as int, config2.reward_bps as int);
    lemma_mul_inequality(t * config1.reward_bps, t * config2.reward_bps, p);
    lemma_div_is_ordered(
        reward_numerator(t, config1.reward_bps, decimals),
        reward_numerator(t, config2.reward_bps, decimals),
        BPS_DENOMINATOR as int,
    );
}

proof fn lemma_mul_left_inequality_nonneg(x: int, y: int, z: int)
    requires
        0 <= x,
        y <= z,
    ensures
        x * y <= x * z,
{
    assert(x * y <= x * z) by (nonlinear_arith)
        requires
            0 <= x,
            y <= z,
    ;
}

/// The `staked_at` attributes among `m` number at most one.
pub open spec fn at_most_one_stake_record(m: Multiset<AttributeText>) -> bool {
    forall|x: AttributeText, y: AttributeText|
        #![trigger m.count(x), m.count(y)]
        m.count(x) > 0 && m.count(y) > 0 && x.0 == "staked_at"@ && y.0 == "staked_at"@
            ==> x == y && m.count(x) == 1
}

/// Every `staked` attribute among `m` holds `true`.
pub open spec fn stakes_hold_true(m: Multiset<AttributeText>) -> bool {
    forall|x: AttributeText| #[trigger] m.count(x) > 0 && x.0 == "staked"@ ==> x.1 == "true"@
}

/// Some attribute among `m` is `staked_at`.
pub open spec fn has_stake_record(m: Multiset<AttributeText>) -> bool {
    exists|x: AttributeText| #[trigger] m.count(x) > 0 && x.0 == "staked_at"@
}

/// A `staked_at` attribute among `m`; the only one when there is at most one.
pub open spec fn stake_record(m: Multiset<AttributeText>) -> AttributeText {
    choose|x: AttributeText| #[trigger] m.count(x) > 0 && x.0 == "staked_at"@
}

/// The whole days of stake that a claim at `now` counts for the attributes
/// `m`, when they hold at most one `staked_at`; `None` when it refuses them.
pub open spec fn stake_days(m: Multiset<AttributeText>, now: i64, freeze_period: u16) -> Option<int> {
    if !stakes_hold_true(m) {
        None
    } else if !has_stake_record(m) {
        Some(0)
    } else {
        match crate::decimal::parse_i64_spec(stake_record(m).1) {
            None => None,
            Some(t) => {
                let elapsed = now - t;
                if !in_i64(elapsed) {
                    None
                } else {
                    let days = trunc_div(elapsed, SECONDS_PER_DAY as int);
                    if days < freeze_period {
                        None
                    } else {
                        Some(days)
                    }
                }
            }
        }
    }
}

proof fn lemma_scan_by_multiset(attrs: Seq<AttributeText>, now: i64, freeze_period: u16)
    requires
        at_most_one_stake_record(attrs.to_multiset()),
    ensures
        ({
            let m = attrs.to_multiset();
            &&& (scan(attrs, now, freeze_period) is Some <==> stake_days(m, now, freeze_period) is Some)
            &&& scan(attrs, now, freeze_period) is Some ==> scan(attrs, now, freeze_period).unwrap().staked_time
                == stake_days(m, now, freeze_period).unwrap()
            &&& (scan(attrs, now, freeze_period) is Some && !has_stake_record(m)) ==> scan(
                attrs,
                now,
                freeze_period,
            ).unwrap().staked_timestamp == 0
        }),
    decreases attrs.len(),
{
    broadcast use vstd::seq_lib::group_to_multiset_ensures;
    reveal_strlit("staked");
    reveal_strlit("staked_at");
    assert("staked"@.len() != "staked_at"@.len());
    let m = attrs.to_multiset();
    if attrs.len() == 0 {
        assert(m =~= Multiset::empty());
        assert(!has_stake_record(m));
        assert(stakes_hold_true(m));
    } else {
        let p = attrs.drop_last();
        let x = attrs.last();
        assert(p.push(x) =~= attrs);
        let mp = p.to_multiset();
        assert(m =~= mp.insert(x));
        assert(at_most_one_stake_record(mp)) by {
            assert forall|a: AttributeText, b: AttributeText|
                #![trigger mp.count(a), mp.count(b)]
                mp.count(a) > 0 && mp.count(b) > 0 && a.0 == "staked_at"@ && b.0 == "staked_at"@
                implies a == b && mp.count(a) == 1 by {
                assert(m.count(a) > 0 && m.count(b) > 0);
            }
        }
        lemma_scan_by_multiset(p, now, freeze_period);
        if x.0 == "staked_at"@ {
            assert(!has_stake_record(mp)) by {
                if has_stake_record(mp) {
                    let y = choose|y: AttributeText| #[trigger] mp.count(y) > 0 && y.0 == "staked_at"@;
                    assert(m.count(y) > 0 && m.count(x) > 0);
                    assert(y == x);
                    assert(m.count(x) >= 2);
                }
            }
            assert(has_stake_record(m)) by {
                assert(m.count(x) > 0);
            }
            let r = stake_record(m);
            assert(m.count(x) > 0);
            assert(r == x);
            assert(stakes_hold_true(m) <==> stakes_hold_true(mp)) by {
                if stakes_hold_true(mp) {
                    assert forall|a: AttributeText| #[trigger] m.count(a) > 0 && a.0 == "staked"@ implies a.1 == "true"@ by {
                        assert(mp.count(a) > 0);
                    }
                }
                if stakes_hold_true(m) {
                    assert forall|a: AttributeText| #[trigger] mp.count(a) > 0 && a.0 == "staked"@ implies a.1 == "true"@ by {
                        assert(m.count(a) > 0);
                    }
                }
            }
        } else {
            assert(has_stake_record(m) <==> has_stake_record(mp)) by {
                if has_stake_record(m) {
                    let y = choose|y: AttributeText| #[trigger] m.count(y) > 0 && y.0 == "staked_at"@;
                    assert(mp.count(y) > 0);
                }
                if has_stake_record(mp) {
                    let y = choose|y: AttributeText| #[trigger] mp.count(y) > 0 && y.0 == "staked_at"@;
                    assert(m.count(y) > 0);
                }
            }
            if has_stake_record(m) {
                let r = stake_record(m);
                let rp = stake_record(mp);
                assert(mp.count(rp) > 0);
                assert(m.count(rp) > 0 && m.count(r) > 0);
                assert(r == rp);
            }
            if x.0 == "staked"@ {
                assert(stakes_hold_true(m) <==> (stakes_hold_true(mp) && x.1 == "true"@)) by {
                    if stakes_hold_true(mp) && x.1 == "true"@ {
                        assert forall|a: AttributeText| #[trigger] m.count(a) > 0 && a.0 == "staked"@ implies a.1 == "true"@ by {
                            if a != x {
                                assert(mp.count(a) > 0);
                            }
                        }
                    }
                    if stakes_hold_true(m) {
                        assert(m.count(x) > 0);
                        assert forall|a: AttributeText| #[trigger] mp.count(a) > 0 && a.0 == "staked"@ implies a.1 == "true"@ by {
                            assert(m.count(a) > 0);
                        }
                    }
                }
            } else {
                assert(stakes_hold_true(m) <==> stakes_hold_true(mp)) by {
                    if stakes_hold_true(mp) {
                        assert forall|a: AttributeText| #[trigger] m.count(a) > 0 && a.0 == "staked"@ implies a.1 == "true"@ by {
                            if a != x {
                                assert(mp.count(a) > 0);
                            }
                        }
                    }
                    if stakes_hold_true(m) {
                        assert forall|a: AttributeText| #[trigger] mp.count(a) > 0 && a.0 == "staked"@ implies a.1 == "true"@ by {
                            assert(m.count(a) > 0);
                        }
                    }
                }
            }
        }
    }
}

/// The order of the attributes does not matter to a claim whose attributes
/// hold at most one `staked_at`: any reordering is accepted or refused alike
/// and, when accepted, pays the same reward.
pub proof fn lemma_claim_ignores_attribute_order(
    attrs1: Seq<AttributeText>,
    attrs2: Seq<AttributeText>,
    now: i64,
    config: Config,
    decimals: u8,
)
    requires
        attrs1.to_multiset() == attrs2.to_multiset(),
        at_most_one_stake_record(attrs1.to_multiset()),
    ensures
        claim_outcome(Some(attrs1), now, config, decimals) is Some <==> claim_outcome(Some(attrs2), now, config, decimals) is Some,
        claim_outcome(Some(attrs1), now, config, decimals) is Some ==> claim_outcome(Some(attrs1), now, config, decimals).unwrap().0
            == claim_outcome(Some(attrs2), now, config, decimals).unwrap().0,
{
    lemma_scan_by_multiset(attrs1, now, config.freeze_period);
    lemma_scan_by_multiset(attrs2, now, config.freeze_period);
}

/// The reward of a claim on a stake record is the rate times the whole days
/// staked: with `staked_at` holding time `t` after attributes none of which
/// is `staked_at` and whose `staked` attributes hold `true`, and `days` the
/// elapsed time `now - t` in whole days rounded toward zero, the claim is
/// accepted exactly when the elapsed time fits in `i64`, `days` reaches the
/// freeze period and `days * reward_bps * 10^decimals` fits in `u64`; and
/// then it pays that product divided by 10000, rounded down.
pub proof fn lemma_claim_reward_is_rate_times_whole_days(
    plain: Seq<AttributeText>,
    t: i64,
    now: i64,
    days: int,
    config: Config,
    decimals: u8,
)
    requires
        forall|i: int| 0 <= i < plain.len() ==> (#[trigger] plain[i]).0 != "staked_at"@,
        forall|i: int| 0 <= i < plain.len() ==> (#[trigger] plain[i]).0 == "staked"@ ==> plain[i].1 == "true"@,
        now - t >= 0 ==> days * 86400 <= now - t < (days + 1) * 86400,
        now - t < 0 ==> (days - 1) * 86400 < now - t <= days * 86400,
    ensures
        ({
            let out = claim_outcome(Some(plain.push(("staked_at"@, i64_decimal(t)))), now, config, decimals);
            let product = days * config.reward_bps * pow(10, decimals as nat);
            &&& (out is Some <==> (i64::MIN <= now - t <= i64::MAX && days >= config.freeze_period
                && product <= u64::MAX))
            &&& out is Some ==> out.unwrap().0 * 10000 <= product < (out.unwrap().0 + 1) * 10000
        }),
{
    lemma_claim_after_stake_record(plain, t, now, config, decimals);
    let e = now - t;
    let q = trunc_div(e, SECONDS_PER_DAY as int);
    if e >= 0 {
        assert(q * 86400 <= e < (q + 1) * 86400);
    } else {
        let m = (-e) / 86400;
        assert(m * 86400 <= -e < (m + 1) * 86400);
    }
    assert(q == days);
    let product = days * config.reward_bps * pow(10, decimals as nat);
    assert(reward_numerator(days, config.reward_bps, decimals) == product);
    if days >= config.freeze_period {
        lemma_pow_positive(10, decimals as nat);
        let p = pow(10, decimals as nat);
        let r = config.reward_bps as int;
        assert(product >= 0) by (nonlinear_arith)
            requires
                product == days * r * p,
                days >= 0,
                r >= 0,
                p >= 1,
        ;
        let a = product / 10000;
        assert(a * 10000 <= product < (a + 1) * 10000);
    }
}

/// A claim on an asset with a `staked` attribute that does not hold `true`
/// is refused, whatever else the attributes hold.
pub proof fn lemma_claim_refuses_stake_not_true(
    attrs: Seq<AttributeText>,
    i: int,
    now: i64,
    config: Config,
    decimals: u8,
)
    requires
        0 <= i < attrs.len(),
        attrs[i].0 == "staked"@,
        attrs[i].1 != "true"@,
    ensures
        claim_outcome(Some(attrs), now, config, decimals) is None,
{
    assert(attrs.take(i + 1).drop_last() =~= attrs.take(i));
    assert(attrs.take(i + 1).last() == attrs[i]);
    lemma_scan_prefix_refused(attrs, i + 1, now, config.freeze_period);
}

/// A claim on an asset with a `staked_at` attribute that is not a decimal
/// `i64` is refused, whatever else the attributes hold.
pub proof fn lemma_claim_refuses_malformed_stake_time(
    attrs: Seq<AttributeText>,
    i: int,
    now: i64,
    config: Config,
    decimals: u8,
)
    requires
        0 <= i < attrs.len(),
        attrs[i].0 == "staked_at"@,
        crate::decimal::parse_i64_spec(attrs[i].1) is None,
    ensures
        claim_outcome(Some(attrs), now, config, decimals) is None,
{
    reveal_strlit("staked");
    reveal_strlit("staked_at");
    assert("staked"@.len() != "staked_at"@.len());
    assert(attrs.take(i + 1).drop_last() =~= attrs.take(i));
    assert(attrs.take(i + 1).last() == attrs[i]);
    lemma_scan_prefix_refused(attrs, i + 1, now, config.freeze_period);
}

} // verus!
