//! Health, bad debt and lag.

use vstd::arithmetic::power2::{lemma2_to64, lemma_pow2_adds, lemma_pow2_pos, pow2};
use vstd::prelude::*;

use crate::binary64::double::lemma_whole_exact;
use crate::binary64::model::{highest, one_in_quanta, Value};
use crate::binary64::order::{
    lemma_decode_is_double, lemma_highest, lemma_order, lemma_quotient_above_one, lemma_round_ge,
    lemma_round_is_double, lemma_round_le, lemma_significant, lemma_sum_is_double, lemma_sum_sign,
    lemma_times_nonneg, lemma_times_ordered, lemma_total_is_double, lemma_total_ordered,
    lemma_zero_significant, nonneg, positive,
};
use crate::shadow::engine::{analysis, chainlink_deviation};
use crate::types::{LegModel, Position, PositionModel};

verus! {

/// Every number of a position is a double, whatever bits it holds.
pub proof fn law_positions_are_well_formed(pos: &Position)
    ensures
        pos@.well_formed(),
{
    lemma_decode_is_double(pos.debt.bits);
    lemma_decode_is_double(pos.rcf_threshold.bits);
    assert forall|i: int| 0 <= i < pos@.legs.len() implies (
    #[trigger] pos@.legs[i]).well_formed() by {
        let leg = pos.legs[i];
        lemma_decode_is_double(leg.amount.bits);
        lemma_decode_is_double(leg.lltv.bits);
        lemma_decode_is_double(leg.cursor.bits);
        lemma_decode_is_double(leg.exchange_rate.bits);
    }
}

/// The health LTV is above one exactly where the debt is above what the position may
/// carry, or where it may carry nothing. Rounding never blurs the line.
pub proof fn law_liquidatable(pos: PositionModel, eth_px: Value)
    requires
        pos.well_formed(),
    ensures
        Value::one().lt(pos.health_ltv(eth_px)) <==> (pos.max_debt(eth_px).le(Value::zero())
            || pos.max_debt(eth_px).lt(pos.debt)),
{
    let md = pos.max_debt(eth_px);
    lemma_total_is_double(pos.legs.map_values(|l: LegModel| l.max_debt(eth_px)));
    lemma_whole_exact(1);
    lemma_zero_significant();
    match (pos.debt, md) {
        (Value::Fin { neg: nx, mag: x }, Value::Fin { neg: ny, mag: y }) => {
            if y > 0 {
                lemma_quotient_above_one(x, y);
            }
        },
        _ => {},
    }
}

/// A position that may carry nothing has no finite health LTV; any other has its debt by what it
/// may carry.
pub proof fn law_health_without_capacity(pos: PositionModel, eth_px: Value)
    ensures
        pos.max_debt(eth_px).le(Value::zero()) ==> pos.health_ltv(eth_px) == Value::infinity(),
        pos.legs.len() == 0 ==> pos.health_ltv(eth_px) == Value::infinity(),
        !pos.max_debt(eth_px).le(Value::zero()) ==> pos.health_ltv(eth_px) == pos.debt.over(
            pos.max_debt(eth_px),
        ),
{
}

/// Bad debt is never negative, and there is some exactly where the collateral is worth
/// less than the debt.
pub proof fn law_bad_debt(pos: PositionModel, shadow_eth: Value)
    ensures
        nonneg(pos.bad_debt(shadow_eth)),
        Value::zero().lt(pos.bad_debt(shadow_eth)) <==> pos.total_collateral(shadow_eth).lt(
            pos.debt,
        ),
{
    let t = pos.total_collateral(shadow_eth);
    match (pos.debt, t) {
        (Value::Fin { .. }, Value::Fin { .. }) => {
            assert(t.negated().quanta() == -t.quanta());
            lemma_sum_sign(pos.debt.quanta() - t.quanta(), true);
            lemma_sum_sign(pos.debt.quanta() - t.quanta(), false);
        },
        _ => {},
    }
}

/// An oracle that lags behind a rally does no harm: where the exchange is at or above it,
/// there is no lag.
pub proof fn law_rally_is_harmless(pos: PositionModel, oracle_eth: Value, shadow_eth: Value)
    requires
        nonneg(oracle_eth),
        oracle_eth.le(shadow_eth),
        forall|i: int| 0 <= i < pos.legs.len() ==> positive((#[trigger] pos.legs[i]).exchange_rate),
    ensures
        pos.worst_lag_pct(oracle_eth, shadow_eth) == Value::zero(),
{
    let terms = pos.legs.map_values(|l: LegModel| l.lag_pct(oracle_eth, shadow_eth));
    assert forall|i: int| 0 <= i < terms.len() implies #[trigger] terms[i] == Value::zero() by {
        let leg = pos.legs[i];
        assert(positive(leg.exchange_rate));
        lemma_times_ordered(oracle_eth, shadow_eth, leg.exchange_rate);
    }
    lemma_highest(terms);
}

/// A lag is a part of the oracle price: between zero and one.
pub proof fn law_lag_is_a_fraction(leg: LegModel, oracle_eth: Value, shadow_eth: Value)
    requires
        leg.price(oracle_eth) is Fin,
        leg.price(shadow_eth) is Fin,
        nonneg(leg.price(shadow_eth)),
    ensures
        nonneg(leg.lag_pct(oracle_eth, shadow_eth)),
        leg.lag_pct(oracle_eth, shadow_eth).le(Value::one()),
{
    let op = leg.price(oracle_eth);
    let sp = leg.price(shadow_eth);
    lemma_whole_exact(1);
    lemma_zero_significant();
    if sp.lt(op) {
        // both prices are finite, so both sides of the product are
        match (oracle_eth, leg.exchange_rate) {
            (Value::Fin { neg: nx, mag: x }, Value::Fin { neg: ny, mag: y }) => {
                lemma_round_is_double(nx != ny, x * y, one_in_quanta());
            },
            _ => {},
        }
        let diff = op.minus(sp);
        assert(sp.negated().quanta() == -sp.quanta());
        let s = op.quanta() - sp.quanta();
        lemma_sum_sign(s, true);
        lemma_sum_sign(s, false);
        lemma_sum_is_double(op, sp.negated());
        match op {
            Value::Fin { mag: o, .. } => {
                lemma_round_le(s as nat, 1, o);
                match diff {
                    Value::Fin { mag: x, .. } => {
                        lemma_quotient_above_one(x, o);
                    },
                    _ => {},
                }
            },
            _ => {},
        }
    }
}

/// No leg lags by more than the worst lag, and some leg lags by it unless there is none.
pub proof fn law_worst_lag(pos: PositionModel, oracle_eth: Value, shadow_eth: Value)
    ensures
        nonneg(pos.worst_lag_pct(oracle_eth, shadow_eth)),
        forall|i: int|
            0 <= i < pos.legs.len() ==> !pos.worst_lag_pct(oracle_eth, shadow_eth).lt(
                (#[trigger] pos.legs[i]).lag_pct(oracle_eth, shadow_eth),
            ),
        pos.worst_lag_pct(oracle_eth, shadow_eth) == Value::zero() || exists|i: int|
            0 <= i < pos.legs.len() && pos.worst_lag_pct(oracle_eth, shadow_eth) == (
            #[trigger] pos.legs[i]).lag_pct(oracle_eth, shadow_eth),
{
    let terms = pos.legs.map_values(|l: LegModel| l.lag_pct(oracle_eth, shadow_eth));
    lemma_highest(terms);
    assert forall|i: int| 0 <= i < pos.legs.len() implies !pos.worst_lag_pct(
        oracle_eth,
        shadow_eth,
    ).lt((#[trigger] pos.legs[i]).lag_pct(oracle_eth, shadow_eth)) by {
        assert(terms[i] == pos.legs[i].lag_pct(oracle_eth, shadow_eth));
    }
    if highest(terms) != Value::zero() {
        let i = choose|i: int| 0 <= i < terms.len() && highest(terms) == #[trigger] terms[i];
        assert(terms[i] == pos.legs[i].lag_pct(oracle_eth, shadow_eth));
    }
}

/// The tier shown for a position is that of a leg, and no leg has a higher one.
pub proof fn law_lltv_tier(pos: PositionModel)
    requires
        pos.legs.len() > 0,
        pos.is_positive(),
    ensures
        exists|i: int| 0 <= i < pos.legs.len() && pos.max_lltv_tier() == (
        #[trigger] pos.legs[i]).lltv,
        forall|i: int|
            0 <= i < pos.legs.len() ==> (#[trigger] pos.legs[i]).lltv.le(pos.max_lltv_tier()),
{
    let terms = pos.legs.map_values(|l: LegModel| l.lltv);
    lemma_highest(terms);
    assert forall|i: int| 0 <= i < pos.legs.len() implies (#[trigger] pos.legs[i]).lltv.le(
        pos.max_lltv_tier(),
    ) by {
        assert(pos.legs[i].is_positive());
        assert(terms[i] == pos.legs[i].lltv);
    }
    assert(pos.legs[0].is_positive());
    assert(terms[0] == pos.legs[0].lltv);
    let i = choose|i: int| 0 <= i < terms.len() && highest(terms) == #[trigger] terms[i];
    assert(pos.legs[i].lltv == terms[i]);
}

/// What a position may carry, and what its collateral is worth, do not fall as the price
/// rises.
pub proof fn law_price_order(pos: PositionModel, low_eth: Value, high_eth: Value)
    requires
        pos.is_positive(),
        nonneg(low_eth),
        low_eth.le(high_eth),
    ensures
        nonneg(pos.max_debt(low_eth)),
        pos.max_debt(low_eth).le(pos.max_debt(high_eth)),
        nonneg(pos.total_collateral(low_eth)),
        pos.total_collateral(low_eth).le(pos.total_collateral(high_eth)),
{
    let low = pos.legs.map_values(|l: LegModel| l.max_debt(low_eth));
    let high = pos.legs.map_values(|l: LegModel| l.max_debt(high_eth));
    let low_c = pos.legs.map_values(|l: LegModel| l.collateral_value(low_eth));
    let high_c = pos.legs.map_values(|l: LegModel| l.collateral_value(high_eth));
    assert forall|i: int| 0 <= i < low.len() implies nonneg(#[trigger] low[i]) && low[i].le(
        high[i],
    ) by {
        lemma_leg_price_order(pos.legs[i], low_eth, high_eth);
    }
    assert forall|i: int| 0 <= i < low_c.len() implies nonneg(#[trigger] low_c[i])
        && low_c[i].le(high_c[i]) by {
        lemma_leg_price_order(pos.legs[i], low_eth, high_eth);
    }
    lemma_total_ordered(low, high);
    lemma_total_ordered(low_c, high_c);
}

proof fn lemma_leg_price_order(leg: LegModel, low_eth: Value, high_eth: Value)
    requires
        leg.is_positive(),
        nonneg(low_eth),
        low_eth.le(high_eth),
    ensures
        nonneg(leg.collateral_value(low_eth)),
        leg.collateral_value(low_eth).le(leg.collateral_value(high_eth)),
        nonneg(leg.max_debt(low_eth)),
        leg.max_debt(low_eth).le(leg.max_debt(high_eth)),
{
    lemma_order(Value::zero(), low_eth, high_eth);
    lemma_times_nonneg(low_eth, leg.exchange_rate);
    lemma_times_nonneg(high_eth, leg.exchange_rate);
    lemma_times_ordered(low_eth, high_eth, leg.exchange_rate);
    let p = leg.price(low_eth);
    let q = leg.price(high_eth);
    assert(p.le(q));
    lemma_times_nonneg(p, leg.amount);
    lemma_times_nonneg(q, leg.amount);
    lemma_times_ordered(p, q, leg.amount);
    let c = leg.collateral_value(low_eth);
    let d = leg.collateral_value(high_eth);
    assert(c.le(d));
    lemma_times_nonneg(c, leg.lltv);
    lemma_times_nonneg(d, leg.lltv);
    lemma_times_ordered(c, d, leg.lltv);
}

/// Where a position is liquidatable in shadow reality and the protocol sees none of it,
/// the exchange is below the oracle, and the debt lies between what the two let it carry.
pub proof fn law_shadow_gap(pos: PositionModel, oracle_eth: Value, cex_eth: Value)
    requires
        pos.well_formed(),
        pos.is_positive(),
        nonneg(oracle_eth),
        nonneg(cex_eth),
        Value::one().lt(pos.health_ltv(cex_eth)),
        pos.health_ltv(oracle_eth).le(Value::one()),
    ensures
        cex_eth.lt(oracle_eth),
        pos.debt.le(pos.max_debt(oracle_eth)),
        pos.max_debt(cex_eth).lt(pos.debt) || pos.max_debt(cex_eth).le(Value::zero()),
{
    law_liquidatable(pos, oracle_eth);
    law_liquidatable(pos, cex_eth);
    if oracle_eth.le(cex_eth) {
        law_price_order(pos, oracle_eth, cex_eth);
    }
}

/// A cliff is imminent exactly where the oracle lags by more than the deviation threshold and the
/// position is liquidatable at the exchange price; then the exchange is below the oracle.
pub proof fn law_cliff(
    pos: PositionModel,
    cex_eth: Value,
    oracle_eth: Value,
    now: u64,
    gas: Value,
)
    requires
        pos.well_formed(),
        pos.is_positive(),
        nonneg(oracle_eth),
        !(cex_eth is Nan),
    ensures
        ({
            let found = analysis(pos, cex_eth, oracle_eth, now, gas);
            &&& found.cliff_imminent <==> {
                &&& chainlink_deviation().lt(pos.worst_lag_pct(oracle_eth, cex_eth))
                &&& (pos.max_debt(cex_eth).lt(pos.debt) || pos.max_debt(cex_eth).le(
                    Value::zero(),
                ))
            }
            &&& found.cliff_imminent ==> cex_eth.lt(oracle_eth)
        }),
{
    law_liquidatable(pos, cex_eth);
    if oracle_eth.le(cex_eth) {
        assert forall|i: int| 0 <= i < pos.legs.len() implies positive(
            (#[trigger] pos.legs[i]).exchange_rate,
        ) by {
            assert(pos.legs[i].is_positive());
        }
        law_rally_is_harmless(pos, oracle_eth, cex_eth);
        lemma_deviation_is_positive();
    }
}

/// The deviation threshold is above zero.
pub proof fn lemma_deviation_is_positive()
    ensures
        positive(chainlink_deviation()),
{
    lemma_zero_significant();
    let one = one_in_quanta();
    lemma_pow2_adds(8, 1066);
    lemma2_to64();
    let lo = pow2(1066);
    assert(1 * lo == lo);
    lemma_significant(1, 1066);
    lemma_pow2_pos(1066);
    lemma_round_ge(5 * one, 1000, lo);
    lemma_round_le(5 * one, 1000, one);
}

} // verus!
