//! Collateral legs, positions, price snapshots, and what is derived from them.

use vstd::prelude::*;

use crate::binary64::double::Double;
use crate::binary64::model::{highest, sum, Value};
use crate::binary64::order::positive;
use crate::clock::{
    as_secs, elapsed, is_reading, span, span_secs, unix_seconds, Clock, SPAN_END,
};

verus! {

/// One collateral of a position.
#[derive(Debug, Clone)]
pub struct CollateralLeg {
    pub token: String,
    pub amount: Double,
    pub lltv: Double,
    /// The liquidation cursor, which sets the highest incentive.
    pub cursor: Double,
    /// What one token is worth in ETH.
    pub exchange_rate: Double,
}

/// What a leg holds.
pub struct LegModel {
    pub token: Seq<char>,
    pub amount: Value,
    pub lltv: Value,
    pub cursor: Value,
    pub exchange_rate: Value,
}

impl LegModel {
    /// Every number of the leg is a double.
    pub open spec fn well_formed(self) -> bool {
        &&& self.amount.is_double()
        &&& self.lltv.is_double()
        &&& self.cursor.is_double()
        &&& self.exchange_rate.is_double()
    }

    /// Every number of the leg is finite and above zero.
    pub open spec fn is_positive(self) -> bool {
        &&& positive(self.amount)
        &&& positive(self.lltv)
        &&& positive(self.exchange_rate)
    }

    /// `LIFmax = 1 / (1 - cursor * (1 - LLTV))`.
    pub open spec fn lif_max(self) -> Value {
        Value::one().over(Value::one().minus(self.cursor.times(Value::one().minus(self.lltv))))
    }

    pub open spec fn price(self, eth_px: Value) -> Value {
        eth_px.times(self.exchange_rate)
    }

    pub open spec fn collateral_value(self, eth_px: Value) -> Value {
        self.amount.times(self.price(eth_px))
    }

    pub open spec fn max_debt(self, eth_px: Value) -> Value {
        self.collateral_value(eth_px).times(self.lltv)
    }

    /// By which part of the oracle price the shadow price lies below it; zero where it
    /// does not.
    pub open spec fn lag_pct(self, oracle_eth: Value, shadow_eth: Value) -> Value {
        let op = self.price(oracle_eth);
        let sp = self.price(shadow_eth);
        if sp.lt(op) {
            op.minus(sp).over(op)
        } else {
            Value::zero()
        }
    }
}

impl View for CollateralLeg {
    type V = LegModel;

    open spec fn view(&self) -> LegModel {
        LegModel {
            token: self.token@,
            amount: self.amount@,
            lltv: self.lltv@,
            cursor: self.cursor@,
            exchange_rate: self.exchange_rate@,
        }
    }
}

impl CollateralLeg {
    /// The highest liquidation incentive: `1 / (1 - cursor * (1 - LLTV))`.
    pub fn lif_max(&self) -> (r: Double)
        ensures
            r@ == self@.lif_max(),
    {
        Double::one().over(
            Double::one().minus(self.cursor.times(Double::one().minus(self.lltv))),
        )
    }

    /// The token's price at an ETH price.
    pub fn price(&self, eth_px: Double) -> (r: Double)
        ensures
            r@ == self@.price(eth_px@),
    {
        eth_px.times(self.exchange_rate)
    }

    /// What the leg adds to the debt that the position may carry.
    pub fn max_debt(&self, eth_px: Double) -> (r: Double)
        ensures
            r@ == self@.max_debt(eth_px@),
    {
        self.amount.times(self.price(eth_px)).times(self.lltv)
    }

    /// What the leg is worth.
    pub fn collateral_value(&self, eth_px: Double) -> (r: Double)
        ensures
            r@ == self@.collateral_value(eth_px@),
    {
        self.amount.times(self.price(eth_px))
    }

    /// The downside lag of the oracle; an upward drift does not hurt lenders.
    pub fn lag_pct(&self, oracle_eth: Double, shadow_eth: Double) -> (r: Double)
        ensures
            r@ == self@.lag_pct(oracle_eth@, shadow_eth@),
    {
        let op: Double = self.price(oracle_eth);
        let sp: Double = self.price(shadow_eth);
        if sp.lt(op) {
            op.minus(sp).over(op)
        } else {
            Double::zero()
        }
    }
}

/// A borrower's position in one market.
#[derive(Debug, Clone)]
pub struct Position {
    pub market_id: String,
    pub loan_token: String,
    pub debt: Double,
    pub legs: Vec<CollateralLeg>,
    pub maturity_ts: u64,
    /// The dust floor, in the loan token.
    pub rcf_threshold: Double,
}

/// What a position holds.
pub struct PositionModel {
    pub market_id: Seq<char>,
    pub loan_token: Seq<char>,
    pub debt: Value,
    pub legs: Seq<LegModel>,
    pub maturity_ts: u64,
    pub rcf_threshold: Value,
}

impl PositionModel {
    /// Every number of the position is a double.
    pub open spec fn well_formed(self) -> bool {
        &&& self.debt.is_double()
        &&& self.rcf_threshold.is_double()
        &&& forall|i: int| 0 <= i < self.legs.len() ==> (#[trigger] self.legs[i]).well_formed()
    }

    /// Every leg holds something.
    pub open spec fn is_positive(self) -> bool {
        forall|i: int| 0 <= i < self.legs.len() ==> (#[trigger] self.legs[i]).is_positive()
    }

    /// `maxDebt`, the sum of amount, price and LLTV over the legs.
    pub open spec fn max_debt(self, eth_px: Value) -> Value {
        sum(self.legs.map_values(|l: LegModel| l.max_debt(eth_px)))
    }

    pub open spec fn total_collateral(self, eth_px: Value) -> Value {
        sum(self.legs.map_values(|l: LegModel| l.collateral_value(eth_px)))
    }

    /// `debt / maxDebt`, without a limit where nothing may be borrowed.
    pub open spec fn health_ltv(self, eth_px: Value) -> Value {
        let md = self.max_debt(eth_px);
        if md.le(Value::zero()) {
            Value::infinity()
        } else {
            self.debt.over(md)
        }
    }

    /// The debt that the collateral does not cover.
    pub open spec fn bad_debt(self, shadow_eth: Value) -> Value {
        self.debt.minus(self.total_collateral(shadow_eth)).max(Value::zero())
    }

    pub open spec fn worst_lag_pct(self, oracle_eth: Value, shadow_eth: Value) -> Value {
        highest(self.legs.map_values(|l: LegModel| l.lag_pct(oracle_eth, shadow_eth)))
    }

    pub open spec fn is_overdue_at(self, now: u64) -> bool {
        now > self.maturity_ts
    }

    pub open spec fn max_lltv_tier(self) -> Value {
        highest(self.legs.map_values(|l: LegModel| l.lltv))
    }
}

impl View for Position {
    type V = PositionModel;

    open spec fn view(&self) -> PositionModel {
        PositionModel {
            market_id: self.market_id@,
            loan_token: self.loan_token@,
            debt: self.debt@,
            legs: self.legs@.map_values(|l: CollateralLeg| l@),
            maturity_ts: self.maturity_ts,
            rcf_threshold: self.rcf_threshold@,
        }
    }
}

/// One more term of a sum.
pub(crate) proof fn lemma_sum_step(terms: Seq<Value>, i: int)
    requires
        0 <= i < terms.len(),
    ensures
        sum(terms.take(i + 1)) == sum(terms.take(i)).plus(terms[i]),
        highest(terms.take(i + 1)) == highest(terms.take(i)).max(terms[i]),
{
    assert(terms.take(i + 1).drop_last() == terms.take(i));
    assert(terms.take(i + 1).last() == terms[i]);
}

impl Position {
    /// The debt that the position may carry at an ETH price.
    pub fn max_debt(&self, eth_px: Double) -> (r: Double)
        ensures
            r@ == self@.max_debt(eth_px@),
    {
        let ghost terms = self@.legs.map_values(|l: LegModel| l.max_debt(eth_px@));
        let mut total: Double = Double::neg_zero();
        let mut i: usize = 0;
        while i < self.legs.len()
            invariant
                i <= self.legs.len(),
                terms == self@.legs.map_values(|l: LegModel| l.max_debt(eth_px@)),
                total@ == sum(terms.take(i as int)),
            decreases self.legs.len() - i,
        {
            proof {
                lemma_sum_step(terms, i as int);
            }
            total = total.plus(self.legs[i].max_debt(eth_px));
            i = i + 1;
        }
        proof {
            assert(terms.take(i as int) == terms);
        }
        total
    }

    /// What all the collateral is worth.
    pub fn total_collateral(&self, eth_px: Double) -> (r: Double)
        ensures
            r@ == self@.total_collateral(eth_px@),
    {
        let ghost terms = self@.legs.map_values(|l: LegModel| l.collateral_value(eth_px@));
        let mut total: Double = Double::neg_zero();
        let mut i: usize = 0;
        while i < self.legs.len()
            invariant
                i <= self.legs.len(),
                terms == self@.legs.map_values(|l: LegModel| l.collateral_value(eth_px@)),
                total@ == sum(terms.take(i as int)),
            decreases self.legs.len() - i,
        {
            proof {
                lemma_sum_step(terms, i as int);
            }
            total = total.plus(self.legs[i].collateral_value(eth_px));
            i = i + 1;
        }
        proof {
            assert(terms.take(i as int) == terms);
        }
        total
    }

    /// The health LTV, `debt / maxDebt`; above one the position is liquidatable.
    pub fn health_ltv(&self, eth_px: Double) -> (r: Double)
        ensures
            r@ == self@.health_ltv(eth_px@),
    {
        let md: Double = self.max_debt(eth_px);
        if md.le(Double::zero()) {
            Double::infinity()
        } else {
            self.debt.over(md)
        }
    }

    /// The debt that the collateral does not cover; none while it is worth more.
    pub fn bad_debt(&self, shadow_eth: Double) -> (r: Double)
        ensures
            r@ == self@.bad_debt(shadow_eth@),
    {
        self.debt.minus(self.total_collateral(shadow_eth)).max(Double::zero())
    }

    /// The worst downside lag of the legs.
    pub fn worst_lag_pct(&self, oracle_eth: Double, shadow_eth: Double) -> (r: Double)
        ensures
            r@ == self@.worst_lag_pct(oracle_eth@, shadow_eth@),
    {
        let ghost terms = self@.legs.map_values(
            |l: LegModel| l.lag_pct(oracle_eth@, shadow_eth@),
        );
        let mut worst: Double = Double::zero();
        let mut i: usize = 0;
        while i < self.legs.len()
            invariant
                i <= self.legs.len(),
                terms == self@.legs.map_values(
                    |l: LegModel| l.lag_pct(oracle_eth@, shadow_eth@),
                ),
                worst@ == highest(terms.take(i as int)),
            decreases self.legs.len() - i,
        {
            proof {
                lemma_sum_step(terms, i as int);
            }
            worst = worst.max(self.legs[i].lag_pct(oracle_eth, shadow_eth));
            i = i + 1;
        }
        proof {
            assert(terms.take(i as int) == terms);
        }
        worst
    }

    /// Whether the position is past its maturity now.
    pub fn is_overdue(&self) -> (r: bool)
        ensures
            exists|now: u64| #[trigger] is_reading(now) && r == self@.is_overdue_at(now),
    {
        let now: u64 = unix_seconds();
        self.is_overdue_at(now)
    }

    /// Whether the position is past its maturity at a time in Unix seconds.
    pub fn is_overdue_at(&self, now: u64) -> (r: bool)
        ensures
            r == self@.is_overdue_at(now),
    {
        now > self.maturity_ts
    }

    /// The highest LLTV of the legs.
    pub fn max_lltv_tier(&self) -> (r: Double)
        ensures
            r@ == self@.max_lltv_tier(),
    {
        let ghost terms = self@.legs.map_values(|l: LegModel| l.lltv);
        let mut top: Double = Double::zero();
        let mut i: usize = 0;
        while i < self.legs.len()
            invariant
                i <= self.legs.len(),
                terms == self@.legs.map_values(|l: LegModel| l.lltv),
                top@ == highest(terms.take(i as int)),
            decreases self.legs.len() - i,
        {
            proof {
                lemma_sum_step(terms, i as int);
            }
            top = top.max(self.legs[i].lltv);
            i = i + 1;
        }
        proof {
            assert(terms.take(i as int) == terms);
        }
        top
    }
}

/// The value of a number that may be missing.
pub open spec fn value_of(number: Option<Double>) -> Option<Value> {
    match number {
        Some(d) => Some(d@),
        None => None,
    }
}

/// The oracle as the protocol sees it. Times are readings of one monotonic clock.
#[derive(Debug, Clone)]
pub struct OracleSnapshot {
    pub price: Double,
    pub updated_at: u128,
    pub round_id: u64,
    /// The countdown to the next update, while one is pending.
    pub eta_secs: Option<Double>,
}

/// What an oracle snapshot holds.
pub struct OracleModel {
    pub price: Value,
    pub updated_at: u128,
    pub round_id: u64,
    pub eta_secs: Option<Value>,
}

impl OracleModel {
    /// How many seconds old the price is.
    pub open spec fn age_secs_at(self, now: u128) -> Value {
        span_secs(span(self.updated_at, now))
    }
}

impl View for OracleSnapshot {
    type V = OracleModel;

    open spec fn view(&self) -> OracleModel {
        OracleModel {
            price: self.price@,
            updated_at: self.updated_at,
            round_id: self.round_id,
            eta_secs: value_of(self.eta_secs),
        }
    }
}

impl OracleSnapshot {
    /// How many seconds old the price is now.
    pub fn age_secs(&self, clock: &Clock) -> (r: Double)
        ensures
            exists|now: u128|
                #[trigger] clock.shows(now) && now < SPAN_END && r@ == self@.age_secs_at(now),
    {
        let now: u128 = clock.read();
        self.age_secs_at(now)
    }

    /// How many seconds old the price is at a reading of the clock.
    pub fn age_secs_at(&self, now: u128) -> (r: Double)
        requires
            span(self.updated_at, now) < SPAN_END,
        ensures
            r@ == self@.age_secs_at(now),
    {
        as_secs(elapsed(self.updated_at, now))
    }
}

/// A quote of the exchange.
#[derive(Debug, Clone)]
pub struct CexSnapshot {
    pub bid: Double,
    pub ask: Double,
    pub mid: Double,
    pub ts: u128,
}

/// What a quote holds.
pub struct CexModel {
    pub bid: Value,
    pub ask: Value,
    pub mid: Value,
    pub ts: u128,
}

impl CexModel {
    /// `(ask - bid) / mid`, in basis points.
    pub open spec fn spread_bps(self) -> Value {
        self.ask.minus(self.bid).over(self.mid).times(Value::whole(10_000))
    }
}

impl View for CexSnapshot {
    type V = CexModel;

    open spec fn view(&self) -> CexModel {
        CexModel { bid: self.bid@, ask: self.ask@, mid: self.mid@, ts: self.ts }
    }
}

impl CexSnapshot {
    /// The spread in basis points.
    pub fn spread_bps(&self) -> (r: Double)
        ensures
            r@ == self@.spread_bps(),
    {
        self.ask.minus(self.bid).over(self.mid).times(Double::from_u64(10_000))
    }
}

/// What the engine finds of one position.
#[derive(Debug, Clone)]
pub struct ShadowAnalysis {
    pub market_id: String,
    /// `debt / maxDebt` at the oracle price.
    pub oracle_ltv: Double,
    /// `debt / maxDebt` at the exchange price.
    pub shadow_ltv: Double,
    /// The worst downside lag of the oracle.
    pub worst_lag_pct: Double,
    /// The debt that the collateral does not cover at the exchange price.
    pub latent_bad_debt: Double,
    /// The least seizure that restores health, or the remaining debt.
    pub min_seizure: Double,
    /// What the first liquidator takes, after gas; below zero where it does not pay.
    pub first_touch_mev: Double,
    /// The incentive, weighted by collateral.
    pub blended_lif: Double,
    /// The oracle lags by more than the deviation threshold, and the position is
    /// liquidatable at the exchange price.
    pub cliff_imminent: bool,
    pub full_liq_required: bool,
    pub overdue: bool,
    /// The incentive of the auction after maturity.
    pub dutch_lif: Option<Double>,
    /// What can be taken at that incentive.
    pub dutch_mev: Option<Double>,
    /// The highest LLTV of the legs.
    pub lltv_tier: Double,
}

/// What an analysis holds.
pub struct AnalysisModel {
    pub market_id: Seq<char>,
    pub oracle_ltv: Value,
    pub shadow_ltv: Value,
    pub worst_lag_pct: Value,
    pub latent_bad_debt: Value,
    pub min_seizure: Value,
    pub first_touch_mev: Value,
    pub blended_lif: Value,
    pub cliff_imminent: bool,
    pub full_liq_required: bool,
    pub overdue: bool,
    pub dutch_lif: Option<Value>,
    pub dutch_mev: Option<Value>,
    pub lltv_tier: Value,
}

impl View for ShadowAnalysis {
    type V = AnalysisModel;

    open spec fn view(&self) -> AnalysisModel {
        AnalysisModel {
            market_id: self.market_id@,
            oracle_ltv: self.oracle_ltv@,
            shadow_ltv: self.shadow_ltv@,
            worst_lag_pct: self.worst_lag_pct@,
            latent_bad_debt: self.latent_bad_debt@,
            min_seizure: self.min_seizure@,
            first_touch_mev: self.first_touch_mev@,
            blended_lif: self.blended_lif@,
            cliff_imminent: self.cliff_imminent,
            full_liq_required: self.full_liq_required,
            overdue: self.overdue,
            dutch_lif: value_of(self.dutch_lif),
            dutch_mev: value_of(self.dutch_mev),
            lltv_tier: self.lltv_tier@,
        }
    }
}

/// What the feeds and the engine share.
#[derive(Debug, Clone)]
pub struct AppState {
    pub cex: Option<CexSnapshot>,
    pub oracle: Option<OracleSnapshot>,
    pub positions: Vec<Position>,
    pub analyses: Vec<ShadowAnalysis>,
}

/// What the shared state holds.
pub struct StateModel {
    pub cex: Option<CexModel>,
    pub oracle: Option<OracleModel>,
    pub positions: Seq<PositionModel>,
    pub analyses: Seq<AnalysisModel>,
}

impl View for AppState {
    type V = StateModel;

    open spec fn view(&self) -> StateModel {
        StateModel {
            cex: match self.cex {
                Some(c) => Some(c@),
                None => None,
            },
            oracle: match self.oracle {
                Some(o) => Some(o@),
                None => None,
            },
            positions: self.positions@.map_values(|p: Position| p@),
            analyses: self.analyses@.map_values(|a: ShadowAnalysis| a@),
        }
    }
}

impl AppState {
    /// The state before any price has come in.
    pub fn new(positions: Vec<Position>) -> (r: AppState)
        ensures
            r.positions == positions,
            r@ == (StateModel {
                cex: None,
                oracle: None,
                positions: positions@.map_values(|p: Position| p@),
                analyses: Seq::empty(),
            }),
    {
        let r: AppState = AppState { cex: None, oracle: None, positions, analyses: Vec::new() };
        proof {
            assert(r@.analyses == Seq::<AnalysisModel>::empty());
        }
        r
    }
}

impl Default for AppState {
    /// The state without any position.
    fn default() -> (r: AppState)
        ensures
            r@ == (StateModel {
                cex: None,
                oracle: None,
                positions: Seq::empty(),
                analyses: Seq::empty(),
            }),
    {
        let r: AppState = AppState::new(Vec::new());
        proof {
            assert(r@.positions == Seq::<PositionModel>::empty());
        }
        r
    }
}

} // verus!
