//! The oracle as a simulation: it stands still until the exchange has fallen far enough
//! below it, waits for a while that varies from round to round, and then catches up.

use vstd::arithmetic::power2::*;
use vstd::prelude::*;

use crate::binary64::double::Double;
use crate::binary64::model::{nearest, one_in_quanta, Value};
use crate::clock::{as_secs, elapsed, span, span_secs, SPAN_END};
use crate::types::{AppState, OracleModel, OracleSnapshot, StateModel};

verus! {

/// How often the simulation looks at the exchange price, in milliseconds.
pub const POLL_MS: u64 = 200;

/// How long the live feed, which has no source yet, sleeps at a time.
pub const LIVE_IDLE_SECS: u64 = 60;

/// The price that the simulation starts from.
pub const SIM_BASE_PRICE: u64 = 3_200;

/// The lag at which an update falls due: half a percent.
pub open spec fn deviation_threshold() -> Value {
    Value::ratio(5, 1000)
}

/// The lag below which a pending update is called off.
pub open spec fn reset_level() -> Value {
    deviation_threshold().times(Value::ratio(8, 10))
}

/// How many seconds an update waits: `lag_secs`, moved by up to four tenths of it either
/// way as the seed has it.
pub open spec fn fire_secs(lag_secs: u64, rng_seed: u64) -> Value {
    let base = Value::whole(lag_secs as nat);
    let jitter = Value::whole((rng_seed % 1000) as nat).over(Value::whole(1000)).minus(
        Value::ratio(1, 2),
    ).times(Value::ratio(8, 10)).times(base);
    base.plus(jitter)
}

/// Whether a wait fits a span of time.
pub open spec fn fire_delay_fits(lag_secs: u64, rng_seed: u64) -> bool {
    let secs = fire_secs(lag_secs, rng_seed);
    secs is Fin && 0 <= secs.quanta() < pow2(64) * one_in_quanta()
}

/// How many nanoseconds an update waits.
pub open spec fn fire_delay(lag_secs: u64, rng_seed: u64) -> nat {
    nearest(fire_secs(lag_secs, rng_seed).quanta() as nat * 1_000_000_000, one_in_quanta())
}

/// By which part of the oracle price the exchange lies below it; zero where it does not.
pub open spec fn downside_lag(oracle_px: Value, cex_px: Value) -> Value {
    if cex_px.lt(oracle_px) {
        oracle_px.minus(cex_px).over(oracle_px)
    } else {
        Value::zero()
    }
}

/// An update that is due: since when, and how long it waits, in nanoseconds.
#[derive(Debug, Clone, Copy)]
pub struct Pending {
    pub since: u128,
    pub delay: u128,
}

/// The simulated oracle between two looks at the exchange.
#[derive(Debug, Clone, Copy)]
pub struct SimOracle {
    pub price: Double,
    pub last_update: u128,
    pub round_id: u64,
    pub pending: Option<Pending>,
}

/// What a simulated oracle holds.
pub struct SimModel {
    pub price: Value,
    pub last_update: u128,
    pub round_id: u64,
    pub pending: Option<Pending>,
}

impl SimModel {
    /// The oracle as it starts.
    pub open spec fn started(now: u128) -> SimModel {
        SimModel {
            price: Value::whole(SIM_BASE_PRICE as nat),
            last_update: now,
            round_id: 1,
            pending: None,
        }
    }

    /// A wait is a span of time.
    pub open spec fn well_formed(self) -> bool {
        self.pending matches Some(p) ==> p.delay < SPAN_END
    }

    /// What the wait of this round is drawn from.
    pub open spec fn seed(self, cex_px: Value) -> u64 {
        self.round_id ^ (self.price.to_u64() as u64) ^ (cex_px.to_u64() as u64)
    }

    /// Whether an update falls due at this price.
    pub open spec fn arms(self, cex_px: Value) -> bool {
        self.pending is None && deviation_threshold().le(downside_lag(self.price, cex_px))
    }

    /// Whether a step can be taken: rounds can still be counted, and the wait, if one is
    /// drawn, fits.
    pub open spec fn can_step(self, lag_secs: u64, cex_px: Value) -> bool {
        &&& self.round_id < u64::MAX
        &&& self.arms(cex_px) ==> fire_delay_fits(lag_secs, self.seed(cex_px))
    }

    /// The update that is due once the price has been looked at.
    pub open spec fn pending_after(
        self,
        lag_secs: u64,
        cex_px: Value,
        now: u128,
    ) -> Option<Pending> {
        if downside_lag(self.price, cex_px).lt(reset_level()) {
            None
        } else if self.arms(cex_px) {
            Some(
                Pending {
                    since: now,
                    delay: fire_delay(lag_secs, self.seed(cex_px)) as u128,
                },
            )
        } else {
            self.pending
        }
    }

    /// Whether the update comes now: it is due, and has waited long enough.
    pub open spec fn fires(self, lag_secs: u64, cex_px: Value, now: u128) -> bool {
        self.pending_after(lag_secs, cex_px, now) matches Some(p) && span(p.since, now) >= p.delay
    }

    /// The oracle after a look at the exchange.
    pub open spec fn step(self, lag_secs: u64, cex_px: Value, now: u128) -> SimModel {
        if self.fires(lag_secs, cex_px, now) {
            SimModel {
                price: cex_px,
                last_update: now,
                round_id: (self.round_id + 1) as u64,
                pending: None,
            }
        } else {
            SimModel { pending: self.pending_after(lag_secs, cex_px, now), ..self }
        }
    }

    /// What the protocol sees: with a countdown while an update is pending.
    pub open spec fn snapshot(self, now: u128) -> OracleModel {
        OracleModel {
            price: self.price,
            updated_at: self.last_update,
            round_id: self.round_id,
            eta_secs: match self.pending {
                Some(p) => Some(span_secs((p.delay - span(p.since, now)) as nat)),
                None => None,
            },
        }
    }
}

impl View for SimOracle {
    type V = SimModel;

    open spec fn view(&self) -> SimModel {
        SimModel {
            price: self.price@,
            last_update: self.last_update,
            round_id: self.round_id,
            pending: self.pending,
        }
    }
}

fn fire_secs_of(lag_secs: u64, rng_seed: u64) -> (r: Double)
    ensures
        r@ == fire_secs(lag_secs, rng_seed),
{
    let base: Double = Double::from_u64(lag_secs);
    let jitter: Double = Double::from_u64(rng_seed % 1000).over(Double::from_u64(1000)).minus(
        Double::ratio(1, 2),
    ).times(Double::ratio(8, 10)).times(base);
    base.plus(jitter)
}

/// How many nanoseconds an update waits: between six and fourteen tenths of `lag_secs`, as
/// the seed has it.
pub fn stochastic_fire_delay(lag_secs: u64, rng_seed: u64) -> (r: u128)
    requires
        fire_delay_fits(lag_secs, rng_seed),
    ensures
        r == fire_delay(lag_secs, rng_seed),
        r < SPAN_END,
{
    fire_secs_of(lag_secs, rng_seed).to_nanos()
}

/// Whether the wait that the seed gives fits a span of time.
pub fn delay_fits(lag_secs: u64, rng_seed: u64) -> (r: bool)
    ensures
        r == fire_delay_fits(lag_secs, rng_seed),
{
    let secs: Double = fire_secs_of(lag_secs, rng_seed);
    // 2 to the power 64
    let end: Double = Double::from_bits(0x43f0_0000_0000_0000);
    proof {
        lemma2_to64();
        lemma2_to64_rest();
        lemma_pow2_adds(52, 1086);
        lemma_pow2_adds(64, 1074);
        assert(end@.quanta() == pow2(64) * one_in_quanta());
    }
    Double::zero().le(secs) && secs.lt(end)
}

/// The oracle feed.
#[derive(Debug, Clone, Copy)]
pub struct OracleFeed {
    pub sim: bool,
    pub lag_secs: u64,
}

impl OracleFeed {
    pub fn new(sim: bool, lag_secs: u64) -> (r: OracleFeed)
        ensures
            r == (OracleFeed { sim, lag_secs }),
    {
        OracleFeed { sim, lag_secs }
    }

    /// Starts the simulation, and seeds the state so that a price is there at once.
    pub fn start(&self, state: &mut AppState, now: u128) -> (sim: SimOracle)
        ensures
            sim@ == SimModel::started(now),
            sim@.well_formed(),
            final(state)@ == (StateModel {
                oracle: Some(SimModel::started(now).snapshot(now)),
                ..old(state)@
            }),
    {
        let price: Double = Double::from_u64(SIM_BASE_PRICE);
        state.oracle = Some(
            OracleSnapshot { price, updated_at: now, round_id: 1, eta_secs: None },
        );
        SimOracle { price, last_update: now, round_id: 1, pending: None }
    }

    /// Whether a step can be taken at this exchange price.
    pub fn can_step(&self, sim: &SimOracle, cex_px: Double) -> (r: bool)
        ensures
            r == sim@.can_step(self.lag_secs, cex_px@),
    {
        if sim.round_id == u64::MAX {
            return false;
        }
        let lag: Double = Self::lag_of(sim.price, cex_px);
        if sim.pending.is_none() && Double::ratio(5, 1000).le(lag) {
            delay_fits(self.lag_secs, Self::seed_of(sim, cex_px))
        } else {
            true
        }
    }

    /// One look at the exchange: nothing happens before it has a price.
    pub fn poll(&self, sim: &mut SimOracle, state: &mut AppState, now: u128)
        requires
            old(sim)@.well_formed(),
            old(state)@.cex matches Some(cex) ==> old(sim)@.can_step(self.lag_secs, cex.mid),
        ensures
            final(sim)@.well_formed(),
            match old(state)@.cex {
                Some(cex) => {
                    &&& final(sim)@ == old(sim)@.step(self.lag_secs, cex.mid, now)
                    &&& final(state)@ == (StateModel {
                        oracle: Some(final(sim)@.snapshot(now)),
                        ..old(state)@
                    })
                },
                None => *final(sim) == *old(sim) && *final(state) == *old(state),
            },
    {
        let cex_px: Double = match &state.cex {
            Some(cex) => cex.mid,
            None => {
                return;
            },
        };
        let seen: OracleSnapshot = self.step(sim, cex_px, now);
        state.oracle = Some(seen);
    }

    /// One look at an exchange price.
    pub fn step(&self, sim: &mut SimOracle, cex_px: Double, now: u128) -> (r: OracleSnapshot)
        requires
            old(sim)@.well_formed(),
            old(sim)@.can_step(self.lag_secs, cex_px@),
        ensures
            final(sim)@ == old(sim)@.step(self.lag_secs, cex_px@, now),
            final(sim)@.well_formed(),
            r@ == final(sim)@.snapshot(now),
    {
        let lag: Double = Self::lag_of(sim.price, cex_px);
        let threshold: Double = Double::ratio(5, 1000);

        // The first breach of the threshold draws a wait.
        if threshold.le(lag) && sim.pending.is_none() {
            let delay: u128 = stochastic_fire_delay(self.lag_secs, Self::seed_of(sim, cex_px));
            sim.pending = Some(Pending { since: now, delay });
        }
        // A recovery calls it off.
        if lag.lt(threshold.times(Double::ratio(8, 10))) {
            sim.pending = None;
        }
        let mut eta: Option<Double> = None;
        if let Some(p) = sim.pending {
            let waited: u128 = elapsed(p.since, now);
            if waited >= p.delay {
                sim.price = cex_px;
                sim.last_update = now;
                sim.round_id = sim.round_id + 1;
                sim.pending = None;
            } else {
                eta = Some(as_secs(p.delay - waited));
            }
        }
        OracleSnapshot {
            price: sim.price,
            updated_at: sim.last_update,
            round_id: sim.round_id,
            eta_secs: eta,
        }
    }

    /// The downside lag: only downward moves hurt lenders.
    fn lag_of(oracle_px: Double, cex_px: Double) -> (r: Double)
        ensures
            r@ == downside_lag(oracle_px@, cex_px@),
    {
        if cex_px.lt(oracle_px) {
            oracle_px.minus(cex_px).over(oracle_px)
        } else {
            Double::zero()
        }
    }

    fn seed_of(sim: &SimOracle, cex_px: Double) -> (r: u64)
        ensures
            r == sim@.seed(cex_px@),
    {
        sim.round_id ^ sim.price.to_u64() ^ cex_px.to_u64()
    }
}

} // verus!
