//! What each position is worth in shadow reality: its health at the exchange price, the
//! seizure that would restore it, and what a liquidator would take.

use vstd::prelude::*;

use crate::binary64::double::Double;
use crate::binary64::model::{sum, Value};
use crate::clock::{is_reading, unix_seconds};
use crate::types::{
    lemma_sum_step, value_of, AnalysisModel, AppState, LegModel, Position, PositionModel,
    ShadowAnalysis, StateModel,
};

verus! {

/// How often the engine looks at the state, in milliseconds.
pub const TICK_MS: u64 = 100;

/// How long the auction after maturity takes to reach the highest incentive.
pub const DUTCH_WINDOW_SECS: u64 = 900;

/// The lag at which the oracle is due: half a percent.
pub open spec fn chainlink_deviation() -> Value {
    Value::ratio(5, 1000)
}

impl PositionModel {
    /// What a leg adds to the blended incentive, `total` being all collateral.
    pub open spec fn lif_share(leg: LegModel, shadow_eth: Value, total: Value) -> Value {
        leg.collateral_value(shadow_eth).over(total).times(leg.lif_max())
    }

    /// The incentive of the legs, weighted by what each is worth; one without
    /// collateral.
    pub open spec fn blended_lif(self, shadow_eth: Value) -> Value {
        let total = self.total_collateral(shadow_eth);
        if total.le(Value::zero()) {
            Value::one()
        } else {
            sum(
                self.legs.map_values(
                    |l: LegModel| PositionModel::lif_share(l, shadow_eth, total),
                ),
            )
        }
    }

    /// The debt that is left once the bad debt has been written off.
    pub open spec fn remaining_debt(self, bad_debt: Value) -> Value {
        self.debt.minus(bad_debt)
    }

    /// `1 - L * LIF`, `L` being the blended LLTV: by how much one unit of seizure
    /// improves health.
    pub open spec fn relief(self, shadow_eth: Value, lif: Value) -> Value {
        let blended_lltv = self.max_debt(shadow_eth).over(self.total_collateral(shadow_eth));
        Value::one().minus(blended_lltv.times(lif))
    }

    /// The seizure that makes up for the debt above `maxDebt`.
    pub open spec fn restoring_seizure(
        self,
        shadow_eth: Value,
        bad_debt: Value,
        lif: Value,
    ) -> Value {
        self.remaining_debt(bad_debt).minus(self.max_debt(shadow_eth)).over(
            self.relief(shadow_eth, lif),
        )
    }

    /// The least seizure that restores health, and whether a full liquidation is in
    /// order: because no partial one restores health, or because what it leaves is dust.
    pub open spec fn seizure_params(
        self,
        shadow_eth: Value,
        bad_debt: Value,
        lif: Value,
    ) -> (Value, bool) {
        let remaining = self.remaining_debt(bad_debt);
        let delta = self.restoring_seizure(shadow_eth, bad_debt, lif);
        if remaining.le(self.max_debt(shadow_eth)) {
            (Value::zero(), false)
        } else if self.relief(shadow_eth, lif).le(Value::zero()) || remaining.le(delta) {
            (remaining, true)
        } else {
            let residual = self.total_collateral(shadow_eth).minus(delta.times(lif));
            (delta.max(Value::zero()), residual.lt(self.rcf_threshold))
        }
    }
}

/// The incentive after maturity: it starts at one and grows with time, up to `lif_max`
/// at the end of the window. There is none before maturity.
pub open spec fn auction_lif(now: u64, maturity_ts: u64, lif_max: Value) -> Option<Value> {
    if now <= maturity_ts {
        None
    } else {
        let progress = Value::whole((now - maturity_ts) as nat).over(
            Value::whole(DUTCH_WINDOW_SECS as nat),
        ).min(Value::one());
        Some(Value::one().plus(lif_max.minus(Value::one()).times(progress)))
    }
}

/// What a liquidator takes of a seizure at an incentive, after gas; below zero where gas
/// costs more than the bonus.
pub open spec fn takings(seizure: Value, lif: Value, gas: Value) -> Value {
    seizure.times(lif.minus(Value::one())).minus(gas)
}

/// What a liquidator takes in the auction: no more debt can be repaid than is left, nor
/// than the collateral covers, and nothing is taken where it does not pay.
pub open spec fn auction_takings(
    remaining: Value,
    total: Value,
    lif: Value,
    gas: Value,
) -> Value {
    if lif.le(Value::one()) || total.le(Value::zero()) {
        Value::zero()
    } else {
        takings(remaining.min(total.over(lif)), lif, gas).max(Value::zero())
    }
}

/// What the engine finds of a position at two prices and a time in Unix seconds.
pub open spec fn analysis(
    pos: PositionModel,
    cex_eth: Value,
    oracle_eth: Value,
    now: u64,
    gas: Value,
) -> AnalysisModel {
    let shadow_ltv = pos.health_ltv(cex_eth);
    let worst_lag = pos.worst_lag_pct(oracle_eth, cex_eth);
    let bad_debt = pos.bad_debt(cex_eth);
    let lif = pos.blended_lif(cex_eth);
    let total = pos.total_collateral(cex_eth);
    let (min_seizure, full_liq) = pos.seizure_params(cex_eth, bad_debt, lif);
    let seizure = if full_liq && Value::zero().lt(lif) {
        min_seizure.min(total.over(lif))
    } else {
        min_seizure
    };
    let dutch_lif = auction_lif(now, pos.maturity_ts, lif);
    AnalysisModel {
        market_id: pos.market_id,
        oracle_ltv: pos.health_ltv(oracle_eth),
        shadow_ltv,
        worst_lag_pct: worst_lag,
        latent_bad_debt: bad_debt,
        min_seizure,
        first_touch_mev: takings(seizure, lif, gas),
        blended_lif: lif,
        cliff_imminent: chainlink_deviation().lt(worst_lag) && Value::one().lt(shadow_ltv),
        full_liq_required: full_liq,
        overdue: pos.is_overdue_at(now),
        dutch_lif,
        dutch_mev: match dutch_lif {
            Some(dl) => Some(auction_takings(pos.remaining_debt(bad_debt), total, dl, gas)),
            None => None,
        },
        lltv_tier: pos.max_lltv_tier(),
    }
}

/// The state after a look at it: one analysis for each position, in order, once both
/// prices are there.
pub open spec fn ticked(state: StateModel, now: u64, gas: Value) -> StateModel {
    match (state.cex, state.oracle) {
        (Some(cex), Some(oracle)) => StateModel {
            analyses: state.positions.map_values(
                |p: PositionModel| analysis(p, cex.mid, oracle.price, now, gas),
            ),
            ..state
        },
        _ => state,
    }
}

/// The incentive of the legs, weighted by what each is worth.
pub fn blended_lif(pos: &Position, shadow_eth: Double) -> (r: Double)
    ensures
        r@ == pos@.blended_lif(shadow_eth@),
{
    let total: Double = pos.total_collateral(shadow_eth);
    if total.le(Double::zero()) {
        return Double::one();
    }
    let ghost terms = pos@.legs.map_values(
        |l: LegModel| PositionModel::lif_share(l, shadow_eth@, total@),
    );
    let mut lif: Double = Double::neg_zero();
    let mut i: usize = 0;
    while i < pos.legs.len()
        invariant
            i <= pos.legs.len(),
            terms == pos@.legs.map_values(
                |l: LegModel| PositionModel::lif_share(l, shadow_eth@, total@),
            ),
            lif@ == sum(terms.take(i as int)),
        decreases pos.legs.len() - i,
    {
        proof {
            lemma_sum_step(terms, i as int);
        }
        lif = lif.plus(
            pos.legs[i].collateral_value(shadow_eth).over(total).times(pos.legs[i].lif_max()),
        );
        i = i + 1;
    }
    proof {
        assert(terms.take(i as int) == terms);
    }
    lif
}

/// The least seizure that restores health, and whether a full liquidation is in order.
pub fn seizure_params(pos: &Position, shadow_eth: Double, bad_debt: Double, lif: Double) -> (r: (
    Double,
    bool,
))
    ensures
        (r.0@, r.1) == pos@.seizure_params(shadow_eth@, bad_debt@, lif@),
{
    let max_d: Double = pos.max_debt(shadow_eth);
    let total_c: Double = pos.total_collateral(shadow_eth);
    let d_rem: Double = pos.debt.minus(bad_debt);

    if d_rem.le(max_d) {
        return (Double::zero(), false);
    }
    let blended_lltv: Double = max_d.over(total_c);
    let denom: Double = Double::one().minus(blended_lltv.times(lif));

    if denom.le(Double::zero()) {
        return (d_rem, true);
    }
    let delta: Double = d_rem.minus(max_d).over(denom);

    if d_rem.le(delta) {
        return (d_rem, true);
    }
    let residual_col: Double = total_c.minus(delta.times(lif));
    let dust: bool = residual_col.lt(pos.rcf_threshold);

    (delta.max(Double::zero()), dust)
}

/// The incentive of the auction after maturity, now; none before maturity.
pub fn post_maturity_lif(maturity_ts: u64, lif_max: Double) -> (r: Option<Double>)
    ensures
        exists|now: u64|
            #[trigger] is_reading(now) && value_of(r) == auction_lif(now, maturity_ts, lif_max@),
{
    let now: u64 = unix_seconds();
    post_maturity_lif_at(now, maturity_ts, lif_max)
}

/// The incentive of the auction after maturity at a time in Unix seconds.
pub fn post_maturity_lif_at(now: u64, maturity_ts: u64, lif_max: Double) -> (r: Option<Double>)
    ensures
        value_of(r) == auction_lif(now, maturity_ts, lif_max@),
{
    if now <= maturity_ts {
        return None;
    }
    let elapsed: Double = Double::from_u64(now - maturity_ts);
    let progress: Double = elapsed.over(Double::from_u64(DUTCH_WINDOW_SECS)).min(Double::one());
    Some(Double::one().plus(lif_max.minus(Double::one()).times(progress)))
}

/// Analyses every position against the two prices.
#[derive(Debug, Clone, Copy)]
pub struct ShadowEngine {
    pub gas_cost_usd: Double,
}

impl ShadowEngine {
    pub fn new(gas_cost_usd: Double) -> (r: ShadowEngine)
        ensures
            r.gas_cost_usd == gas_cost_usd,
    {
        ShadowEngine { gas_cost_usd }
    }

    /// Looks at the state now.
    pub fn tick(&self, state: &mut AppState)
        ensures
            exists|now: u64| #[trigger]
                is_reading(now) && final(state)@ == ticked(old(state)@, now, self.gas_cost_usd@),
    {
        let now: u64 = unix_seconds();
        self.tick_at(state, now);
    }

    /// Looks at the state at a time in Unix seconds.
    pub fn tick_at(&self, state: &mut AppState, now: u64)
        ensures
            final(state)@ == ticked(old(state)@, now, self.gas_cost_usd@),
    {
        let (cex_eth, oracle_eth): (Double, Double) = match (&state.cex, &state.oracle) {
            (Some(cex), Some(oracle)) => (cex.mid, oracle.price),
            _ => {
                return;
            },
        };
        let mut analyses: Vec<ShadowAnalysis> = Vec::new();
        let mut i: usize = 0;
        while i < state.positions.len()
            invariant
                i <= state.positions.len(),
                analyses.len() == i,
                *state == *old(state),
                forall|j: int|
                    0 <= j < i ==> (#[trigger] analyses[j])@ == analysis(
                        state.positions[j]@,
                        cex_eth@,
                        oracle_eth@,
                        now,
                        self.gas_cost_usd@,
                    ),
            decreases state.positions.len() - i,
        {
            let found: ShadowAnalysis = self.analyze_at(
                &state.positions[i],
                cex_eth,
                oracle_eth,
                now,
            );
            analyses.push(found);
            i = i + 1;
        }
        state.analyses = analyses;
        proof {
            assert(state@.analyses == ticked(old(state)@, now, self.gas_cost_usd@).analyses);
        }
    }

    /// What the engine finds of a position now.
    pub fn analyze(&self, pos: &Position, cex_eth: Double, oracle_eth: Double) -> (r:
        ShadowAnalysis)
        ensures
            exists|now: u64| #[trigger]
                is_reading(now) && r@ == analysis(
                    pos@,
                    cex_eth@,
                    oracle_eth@,
                    now,
                    self.gas_cost_usd@,
                ),
    {
        let now: u64 = unix_seconds();
        self.analyze_at(pos, cex_eth, oracle_eth, now)
    }

    /// What the engine finds of a position at a time in Unix seconds.
    pub fn analyze_at(&self, pos: &Position, cex_eth: Double, oracle_eth: Double, now: u64) -> (r:
        ShadowAnalysis)
        ensures
            r@ == analysis(pos@, cex_eth@, oracle_eth@, now, self.gas_cost_usd@),
    {
        let oracle_ltv: Double = pos.health_ltv(oracle_eth);
        let shadow_ltv: Double = pos.health_ltv(cex_eth);
        let worst_lag: Double = pos.worst_lag_pct(oracle_eth, cex_eth);
        let bad_debt: Double = pos.bad_debt(cex_eth);
        let lif: Double = blended_lif(pos, cex_eth);
        let total_col: Double = pos.total_collateral(cex_eth);
        let (min_sz, full_liq): (Double, bool) = seizure_params(pos, cex_eth, bad_debt, lif);

        // In a full liquidation no more debt can be repaid than the collateral covers.
        let effective_seizure: Double = if full_liq && Double::zero().lt(lif) {
            min_sz.min(total_col.over(lif))
        } else {
            min_sz
        };

        let dutch_lif: Option<Double> = post_maturity_lif_at(now, pos.maturity_ts, lif);
        let dutch_mev: Option<Double> = match dutch_lif {
            Some(dl) => Some(self.dutch_takings(pos.debt.minus(bad_debt), total_col, dl)),
            None => None,
        };
        let deviation: Double = Double::ratio(5, 1000);

        ShadowAnalysis {
            market_id: pos.market_id.clone(),
            oracle_ltv,
            shadow_ltv,
            worst_lag_pct: worst_lag,
            latent_bad_debt: bad_debt,
            min_seizure: min_sz,
            first_touch_mev: self.mev(effective_seizure, lif),
            blended_lif: lif,
            cliff_imminent: deviation.lt(worst_lag) && Double::one().lt(shadow_ltv),
            full_liq_required: full_liq,
            overdue: pos.is_overdue_at(now),
            dutch_lif,
            dutch_mev,
            lltv_tier: pos.max_lltv_tier(),
        }
    }

    /// What a liquidator takes of a seizure, after gas.
    fn mev(&self, seizure: Double, lif: Double) -> (r: Double)
        ensures
            r@ == takings(seizure@, lif@, self.gas_cost_usd@),
    {
        seizure.times(lif.minus(Double::one())).minus(self.gas_cost_usd)
    }

    /// What a liquidator takes in the auction, after gas.
    fn dutch_takings(&self, remaining: Double, total: Double, lif: Double) -> (r: Double)
        ensures
            r@ == auction_takings(remaining@, total@, lif@, self.gas_cost_usd@),
    {
        if lif.le(Double::one()) || total.le(Double::zero()) {
            return Double::zero();
        }
        self.mev(remaining.min(total.over(lif)), lif).max(Double::zero())
    }
}

} // verus!
