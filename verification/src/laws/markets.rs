//! Which configurations are accepted, and what an accepted one is good for.

use vstd::arithmetic::power2::{lemma2_to64, lemma_pow2_adds, lemma_pow2_pos, pow2};
use vstd::prelude::*;

use crate::binary64::double::lemma_whole_exact;
use crate::binary64::model::{one_in_quanta, overflow_bound, round_mag, significant, Value};
use crate::binary64::order::{
    lemma_quotient_above_one, lemma_results_are_doubles, lemma_round_ge, lemma_round_is_double,
    lemma_round_keeps, lemma_round_le, lemma_significant, lemma_zero_significant, nonneg, positive,
};
use crate::binary64::rounding::lemma_pow2_ordered;
use crate::laws::auction::is_incentive;
use crate::laws::crash::is_playable;
use crate::markets::{
    first_leg_fault, first_market_fault, is_cursor, is_lltv_tier, leg_fault, lltv_tiers,
    market_fault, ConfigModel, Fault,
};
use crate::types::{LegModel, PositionModel};

verus! {

/// An LLTV is one of the nine: 0.385, 0.5, 0.625, 0.77, 0.86, 0.915, 0.945, 0.965 and 0.98.
pub open spec fn is_one_of_nine(lltv: Value) -> bool {
    ||| lltv == Value::ratio(385, 1000)
    ||| lltv == Value::ratio(500, 1000)
    ||| lltv == Value::ratio(625, 1000)
    ||| lltv == Value::ratio(770, 1000)
    ||| lltv == Value::ratio(860, 1000)
    ||| lltv == Value::ratio(915, 1000)
    ||| lltv == Value::ratio(945, 1000)
    ||| lltv == Value::ratio(965, 1000)
    ||| lltv == Value::ratio(980, 1000)
}

proof fn lemma_tiers(lltv: Value)
    ensures
        is_lltv_tier(lltv) <==> is_one_of_nine(lltv),
{
    let tiers = lltv_tiers();
    assert(tiers[0] == 385 && tiers[1] == 500 && tiers[2] == 625);
    assert(tiers[3] == 770 && tiers[4] == 860 && tiers[5] == 915);
    assert(tiers[6] == 945 && tiers[7] == 965 && tiers[8] == 980);
}

/// A leg keeps every rule.
pub open spec fn leg_is_valid(leg: LegModel) -> bool {
    &&& is_one_of_nine(leg.lltv)
    &&& leg.cursor == Value::ratio(1, 4) || leg.cursor == Value::ratio(1, 2)
    &&& Value::zero().lt(leg.amount)
    &&& Value::zero().lt(leg.exchange_rate)
}

/// A market and its legs keep every rule.
pub open spec fn market_is_valid(market: PositionModel) -> bool {
    &&& market.legs.len() > 0
    &&& Value::zero().lt(market.debt)
    &&& !market.rcf_threshold.lt(Value::zero())
    &&& forall|i: int| 0 <= i < market.legs.len() ==> leg_is_valid(#[trigger] market.legs[i])
}

/// A configuration and its markets keep every rule.
pub open spec fn config_is_valid(cfg: ConfigModel) -> bool {
    &&& cfg.markets.len() > 0
    &&& !cfg.sim.crash_top_px.le(cfg.sim.crash_bottom_px)
    &&& !cfg.sim.cycle_secs.le(Value::zero())
    &&& !cfg.gas_cost_usd.lt(Value::zero())
    &&& forall|i: int| 0 <= i < cfg.markets.len() ==> market_is_valid(#[trigger] cfg.markets[i])
}

proof fn lemma_legs_valid(market_id: Seq<char>, legs: Seq<LegModel>)
    ensures
        first_leg_fault(market_id, legs) is None <==> forall|i: int|
            0 <= i < legs.len() ==> leg_is_valid(#[trigger] legs[i]),
    decreases legs.len(),
{
    if legs.len() > 0 {
        let front = legs.drop_last();
        let n = legs.len() - 1;
        lemma_legs_valid(market_id, front);
        lemma_tiers(legs[n].lltv);
        if first_leg_fault(market_id, legs) is None {
            assert forall|i: int| 0 <= i < legs.len() implies leg_is_valid(#[trigger] legs[i]) by {
                if i < n {
                    assert(leg_is_valid(front[i]));
                }
            }
        }
        if forall|i: int| 0 <= i < legs.len() ==> leg_is_valid(#[trigger] legs[i]) {
            assert(leg_is_valid(legs[n]));
            assert forall|i: int| 0 <= i < front.len() implies leg_is_valid(
                #[trigger] front[i],
            ) by {
                assert(leg_is_valid(legs[i]));
            }
        }
    }
}

proof fn lemma_markets_valid(markets: Seq<PositionModel>)
    ensures
        first_market_fault(markets) is None <==> forall|i: int|
            0 <= i < markets.len() ==> market_is_valid(#[trigger] markets[i]),
    decreases markets.len(),
{
    if markets.len() > 0 {
        let front = markets.drop_last();
        let n = markets.len() - 1;
        lemma_markets_valid(front);
        lemma_legs_valid(markets[n].market_id, markets[n].legs);
        if first_market_fault(markets) is None {
            assert forall|i: int| 0 <= i < markets.len() implies market_is_valid(
                #[trigger] markets[i],
            ) by {
                if i < n {
                    assert(market_is_valid(front[i]));
                }
            }
        }
        if forall|i: int| 0 <= i < markets.len() ==> market_is_valid(#[trigger] markets[i]) {
            assert(market_is_valid(markets[n]));
            assert forall|i: int| 0 <= i < front.len() implies market_is_valid(
                #[trigger] front[i],
            ) by {
                assert(market_is_valid(markets[i]));
            }
        }
    }
}

/// A configuration is accepted exactly where every rule holds of it, of each of its markets
/// and of each of their legs.
pub proof fn law_accepted_configurations(cfg: ConfigModel)
    ensures
        cfg.fault() is None <==> config_is_valid(cfg),
{
    lemma_markets_valid(cfg.markets);
}

/// A refusal for a market is that of the first market that breaks a rule.
pub proof fn law_first_market_is_named(markets: Seq<PositionModel>)
    requires
        first_market_fault(markets) is Some,
    ensures
        exists|i: int|
            {
                &&& 0 <= i < markets.len()
                &&& first_market_fault(markets) == market_fault(#[trigger] markets[i])
                &&& forall|j: int| 0 <= j < i ==> market_is_valid(#[trigger] markets[j])
            },
    decreases markets.len(),
{
    let front = markets.drop_last();
    let n = markets.len() - 1;
    if first_market_fault(front) is Some {
        law_first_market_is_named(front);
        let i = choose|i: int|
            {
                &&& 0 <= i < front.len()
                &&& first_market_fault(front) == market_fault(#[trigger] front[i])
                &&& forall|j: int| 0 <= j < i ==> market_is_valid(#[trigger] front[j])
            };
        assert(markets[i] == front[i]);
        assert forall|j: int| 0 <= j < i implies market_is_valid(#[trigger] markets[j]) by {
            assert(market_is_valid(front[j]));
        }
    } else {
        lemma_markets_valid(front);
        assert(first_market_fault(markets) == market_fault(markets[n]));
        assert forall|j: int| 0 <= j < n implies market_is_valid(#[trigger] markets[j]) by {
            assert(market_is_valid(front[j]));
        }
    }
}

/// A refusal for a leg is that of the first leg that breaks a rule.
pub proof fn law_first_leg_is_named(market_id: Seq<char>, legs: Seq<LegModel>)
    requires
        first_leg_fault(market_id, legs) is Some,
    ensures
        exists|i: int|
            {
                &&& 0 <= i < legs.len()
                &&& first_leg_fault(market_id, legs) == leg_fault(market_id, #[trigger] legs[i])
                &&& forall|j: int| 0 <= j < i ==> leg_is_valid(#[trigger] legs[j])
            },
    decreases legs.len(),
{
    let front = legs.drop_last();
    let n = legs.len() - 1;
    if first_leg_fault(market_id, front) is Some {
        law_first_leg_is_named(market_id, front);
        let i = choose|i: int|
            {
                &&& 0 <= i < front.len()
                &&& first_leg_fault(market_id, front) == leg_fault(market_id, #[trigger] front[i])
                &&& forall|j: int| 0 <= j < i ==> leg_is_valid(#[trigger] front[j])
            };
        assert(legs[i] == front[i]);
        assert forall|j: int| 0 <= j < i implies leg_is_valid(#[trigger] legs[j]) by {
            assert(leg_is_valid(front[j]));
        }
    } else {
        lemma_legs_valid(market_id, front);
        assert(first_leg_fault(market_id, legs) == leg_fault(market_id, legs[n]));
        assert forall|j: int| 0 <= j < n implies leg_is_valid(#[trigger] legs[j]) by {
            assert(leg_is_valid(front[j]));
        }
    }
}

/// A leg is refused for its LLTV before all, then for its cursor, its amount and its rate; the
/// refusal names the market, the token and the number at fault.
pub proof fn law_leg_refusals(market_id: Seq<char>, leg: LegModel)
    ensures
        ({
            let token = leg.token;
            let tier = is_one_of_nine(leg.lltv);
            let cursor = leg.cursor == Value::ratio(1, 4) || leg.cursor == Value::ratio(1, 2);
            let amount = Value::zero().lt(leg.amount);
            let rate = Value::zero().lt(leg.exchange_rate);
            let fault = leg_fault(market_id, leg);
            &&& fault == Some(Fault::Lltv { market_id, token, lltv: leg.lltv }) <==> !tier
            &&& fault == Some(Fault::Cursor { market_id, token, cursor: leg.cursor }) <==> {
                tier && !cursor
            }
            &&& fault == Some(Fault::Amount { market_id, token }) <==> tier && cursor && !amount
            &&& fault == Some(Fault::ExchangeRate { market_id, token }) <==> {
                tier && cursor && amount && !rate
            }
            &&& fault is None <==> leg_is_valid(leg)
        }),
{
    lemma_tiers(leg.lltv);
}

/// A market is refused for want of legs before all, then for its debt and its dust floor, then
/// for its legs.
pub proof fn law_market_refusals(market: PositionModel)
    ensures
        ({
            let market_id = market.market_id;
            let some_legs = market.legs.len() > 0;
            let debt = Value::zero().lt(market.debt);
            let floor = !market.rcf_threshold.lt(Value::zero());
            let fault = market_fault(market);
            &&& fault == Some(Fault::NoLegs { market_id }) <==> !some_legs
            &&& fault == Some(Fault::Debt { market_id }) <==> some_legs && !debt
            &&& fault == Some(Fault::RcfThreshold { market_id }) <==> {
                some_legs && debt && !floor
            }
            &&& some_legs && debt && floor ==> fault == first_leg_fault(market_id, market.legs)
            &&& fault is None <==> market_is_valid(market)
        }),
{
    lemma_legs_valid(market.market_id, market.legs);
    if first_leg_fault(market.market_id, market.legs) is Some {
        law_first_leg_is_named(market.market_id, market.legs);
    }
}

/// A configuration is refused for want of markets before all, then for its crash and its gas
/// cost, then for its markets.
pub proof fn law_configuration_refusals(cfg: ConfigModel)
    ensures
        ({
            let some_markets = cfg.markets.len() > 0;
            let falls = !cfg.sim.crash_top_px.le(cfg.sim.crash_bottom_px);
            let cycle = !cfg.sim.cycle_secs.le(Value::zero());
            let gas = !cfg.gas_cost_usd.lt(Value::zero());
            let fault = cfg.fault();
            &&& fault == Some(Fault::NoMarkets) <==> !some_markets
            &&& fault == Some(Fault::CrashRange) <==> some_markets && !falls
            &&& fault == Some(Fault::CycleSecs) <==> some_markets && falls && !cycle
            &&& fault == Some(Fault::GasCost) <==> some_markets && falls && cycle && !gas
            &&& some_markets && falls && cycle && gas ==> fault == first_market_fault(cfg.markets)
        }),
{
    if first_market_fault(cfg.markets) is Some {
        law_first_market_is_named(cfg.markets);
        let i = choose|i: int|
            {
                &&& 0 <= i < cfg.markets.len()
                &&& first_market_fault(cfg.markets) == market_fault(#[trigger] cfg.markets[i])
                &&& forall|j: int| 0 <= j < i ==> market_is_valid(#[trigger] cfg.markets[j])
            };
        let market = cfg.markets[i];
        law_market_refusals(market);
        if first_leg_fault(market.market_id, market.legs) is Some {
            law_first_leg_is_named(market.market_id, market.legs);
        }
    }
}

/// Of an accepted market whose numbers are finite, every amount, LLTV and rate is above zero,
/// the debt too, and the dust floor is not below it.
pub proof fn law_accepted_market_is_positive(market: PositionModel)
    requires
        market_fault(market) is None,
        market.debt is Fin,
        market.rcf_threshold is Fin,
        forall|i: int|
            0 <= i < market.legs.len() ==> {
                &&& (#[trigger] market.legs[i]).amount is Fin
                &&& market.legs[i].exchange_rate is Fin
            },
    ensures
        market.legs.len() > 0,
        market.is_positive(),
        positive(market.debt),
        nonneg(market.rcf_threshold),
{
    lemma_legs_valid(market.market_id, market.legs);
    assert forall|i: int| 0 <= i < market.legs.len() implies (
    #[trigger] market.legs[i]).is_positive() by {
        let leg = market.legs[i];
        assert(leg_is_valid(leg));
        lemma_tiers(leg.lltv);
        lemma_tier_range(leg.lltv);
        lemma_grain(1);
    }
}

/// One is 2048 of these.
spec fn grain() -> nat {
    pow2(1063)
}

proof fn lemma_grain(m: nat)
    requires
        m <= 4096,
    ensures
        grain() > 0,
        one_in_quanta() == 2048 * grain(),
        significant(m * grain()),
        m * grain() < overflow_bound(),
{
    lemma2_to64();
    lemma_pow2_adds(11, 1063);
    lemma_pow2_adds(13, 1063);
    lemma_pow2_pos(1063);
    lemma_pow2_ordered(1076, 2097);
    lemma_pow2_adds(1, 2097);
    lemma_pow2_pos(2097);
    lemma_significant(m, 1063);
    assert(m * grain() <= 8192 * grain()) by (nonlinear_arith)
        requires
            m <= 4096,
    ;
}

/// A tier is above three eighths, and below one.
proof fn lemma_tier_range(lltv: Value)
    requires
        is_lltv_tier(lltv),
    ensures
        lltv is Fin,
        768 * grain() <= lltv.quanta() <= 2016 * grain(),
{
    let g = grain();
    let u = one_in_quanta();
    let i = choose|i: int|
        0 <= i < lltv_tiers().len() && lltv == Value::ratio(
            #[trigger] lltv_tiers()[i] as nat,
            1000,
        );
    let k = lltv_tiers()[i] as nat;
    assert(385 <= k <= 980);
    lemma_grain(768);
    lemma_grain(2016);
    assert((768 * g) * 1000 <= k * u && k * u <= (2016 * g) * 1000) by (nonlinear_arith)
        requires
            385 <= k <= 980,
            u == 2048 * g,
    ;
    lemma_round_ge(k * u, 1000, 768 * g);
    lemma_round_le(k * u, 1000, 2016 * g);
}

/// A cursor is a quarter or a half.
proof fn lemma_cursor_range(cursor: Value)
    requires
        is_cursor(cursor),
    ensures
        cursor is Fin,
        512 * grain() <= cursor.quanta() <= 1024 * grain(),
{
    let g = grain();
    let u = one_in_quanta();
    lemma_grain(512);
    lemma_grain(1024);
    assert(1 * u == (512 * g) * 4 && 1 * u == (1024 * g) * 2);
    lemma_round_keeps(512 * g, 4);
    lemma_round_keeps(1024 * g, 2);
}

/// The highest incentive of an accepted leg is above one, and two at most, so that an
/// auction can reach it.
pub proof fn law_accepted_leg_has_an_incentive(market_id: Seq<char>, leg: LegModel)
    requires
        leg_fault(market_id, leg) is None,
        leg.well_formed(),
    ensures
        is_incentive(leg.lif_max()),
        Value::one().lt(leg.lif_max()),
        leg.lif_max().le(Value::whole(2)),
{
    let g = grain();
    let u = one_in_quanta();
    lemma_zero_significant();
    lemma_tier_range(leg.lltv);
    lemma_cursor_range(leg.cursor);
    lemma_whole_exact(1);
    lemma_whole_exact(2);
    let one = Value::one();
    let l = leg.lltv.quanta();
    let c = leg.cursor.quanta() as nat;
    lemma_grain(28);
    lemma_grain(1284);
    // what is left of one
    let a = (u - l) as nat;
    lemma_round_ge(a, 1, 28 * g);
    lemma_round_le(a, 1, 1284 * g);
    let y = round_mag(a, 1);
    let rest = one.minus(leg.lltv);
    assert(rest == (Value::Fin { neg: false, mag: y }));
    // the part of it that the cursor takes
    lemma_grain(6);
    lemma_grain(645);
    let n = c * y;
    assert((6 * g) * u <= n && n <= (645 * g) * u) by (nonlinear_arith)
        requires
            n == c * y,
            508 * g <= c <= 1028 * g,
            28 * g <= y <= 1284 * g,
            u == 2048 * g,
    ;
    lemma_round_ge(n, u, 6 * g);
    lemma_round_le(n, u, 645 * g);
    let p = round_mag(n, u);
    let part = leg.cursor.times(rest);
    assert(part == (Value::Fin { neg: false, mag: p }));
    // what is left after it
    lemma_grain(1403);
    lemma_grain(2042);
    let b = (u - p) as nat;
    lemma_round_ge(b, 1, 1403 * g);
    lemma_round_le(b, 1, 2042 * g);
    let z = round_mag(b, 1);
    let left = one.minus(part);
    assert(left == (Value::Fin { neg: false, mag: z }));
    lemma_round_is_double(false, b, 1);
    // the incentive
    lemma_grain(4096);
    lemma_quotient_above_one(u, z);
    assert(u * u <= (4096 * g) * z) by (nonlinear_arith)
        requires
            1403 * g <= z,
            u == 2048 * g,
    ;
    lemma_round_le(u * u, z, 4096 * g);
    lemma_results_are_doubles(one, left);
}

/// An accepted crash can be played, where its numbers and the fall are finite.
pub proof fn law_accepted_crash_is_playable(cfg: ConfigModel)
    requires
        cfg.fault() is None,
        cfg.sim.crash_top_px.is_double(),
        cfg.sim.crash_bottom_px.is_double(),
        cfg.sim.cycle_secs.is_double(),
        cfg.sim.crash_top_px is Fin,
        cfg.sim.crash_bottom_px is Fin,
        cfg.sim.cycle_secs is Fin,
        cfg.sim.crash_top_px.minus(cfg.sim.crash_bottom_px) is Fin,
    ensures
        is_playable(cfg.sim),
{
}

} // verus!
