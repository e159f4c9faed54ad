//! The markets that are watched, as they are configured.

use vstd::arithmetic::power2::{lemma2_to64, lemma_pow2_adds, lemma_pow2_pos, pow2};
use vstd::prelude::*;

use crate::binary64::double::Double;
use crate::binary64::model::{one_in_quanta, Value};
use crate::binary64::order::{
    lemma_round_ge, lemma_round_le, lemma_significant, lemma_zero_significant, positive,
};
use crate::types::{CollateralLeg, LegModel, Position, PositionModel};

verus! {

#[derive(Debug, Clone)]
pub struct Config {
    pub sim: SimConfig,
    pub engine: EngineConfig,
    pub markets: Vec<MarketEntry>,
}

/// The crash that the simulation plays.
#[derive(Debug, Clone, Copy)]
pub struct SimConfig {
    pub crash_top_px: Double,
    pub crash_bottom_px: Double,
    pub cycle_secs: Double,
}

#[derive(Debug, Clone, Copy)]
pub struct EngineConfig {
    pub gas_cost_usd: Double,
}

#[derive(Debug, Clone)]
pub struct MarketEntry {
    pub market_id: String,
    pub loan_token: String,
    pub debt: Double,
    pub maturity_ts: u64,
    pub rcf_threshold: Double,
    pub legs: Vec<LegEntry>,
}

#[derive(Debug, Clone)]
pub struct LegEntry {
    pub token: String,
    pub amount: Double,
    pub lltv: Double,
    pub cursor: Double,
    pub exchange_rate: Double,
}

/// What the crash settings hold.
pub struct SimConfigModel {
    pub crash_top_px: Value,
    pub crash_bottom_px: Value,
    pub cycle_secs: Value,
}

/// What a configuration holds. A market is what its position will be.
pub struct ConfigModel {
    pub sim: SimConfigModel,
    pub gas_cost_usd: Value,
    pub markets: Seq<PositionModel>,
}

impl View for SimConfig {
    type V = SimConfigModel;

    open spec fn view(&self) -> SimConfigModel {
        SimConfigModel {
            crash_top_px: self.crash_top_px@,
            crash_bottom_px: self.crash_bottom_px@,
            cycle_secs: self.cycle_secs@,
        }
    }
}

impl View for LegEntry {
    type V = LegModel;

    open spec fn view(&self) -> LegModel {
        LegModel {
            token: self.token@,
            amount: self.amount@,
            lltv: self.lltv@,
            cursor: self.cursor@,
            exchange_rate: self.exchange_rate@,
        }
    }
}

impl View for MarketEntry {
    type V = PositionModel;

    open spec fn view(&self) -> PositionModel {
        PositionModel {
            market_id: self.market_id@,
            loan_token: self.loan_token@,
            debt: self.debt@,
            legs: self.legs@.map_values(|l: LegEntry| l@),
            maturity_ts: self.maturity_ts,
            rcf_threshold: self.rcf_threshold@,
        }
    }
}

impl View for Config {
    type V = ConfigModel;

    open spec fn view(&self) -> ConfigModel {
        ConfigModel {
            sim: self.sim@,
            gas_cost_usd: self.engine.gas_cost_usd@,
            markets: self.markets@.map_values(|m: MarketEntry| m@),
        }
    }
}

/// The LLTV tiers, in thousandths.
pub open spec fn lltv_tiers() -> Seq<u64> {
    seq![385, 500, 625, 770, 860, 915, 945, 965, 980]
}

/// Whether an LLTV is one of the tiers.
pub open spec fn is_lltv_tier(lltv: Value) -> bool {
    exists|i: int|
        0 <= i < lltv_tiers().len() && lltv == Value::ratio(#[trigger] lltv_tiers()[i] as nat, 1000)
}

/// Whether a cursor is a quarter or a half.
pub open spec fn is_cursor(cursor: Value) -> bool {
    cursor == Value::ratio(1, 4) || cursor == Value::ratio(1, 2)
}

/// Why a configuration is refused.
#[derive(Debug, Clone)]
pub enum ConfigError {
    NoMarkets,
    CrashRange,
    CycleSecs,
    GasCost,
    NoLegs { market_id: String },
    Debt { market_id: String },
    RcfThreshold { market_id: String },
    Lltv { market_id: String, token: String, lltv: Double },
    Cursor { market_id: String, token: String, cursor: Double },
    Amount { market_id: String, token: String },
    ExchangeRate { market_id: String, token: String },
}

/// What a refusal says.
pub enum Fault {
    NoMarkets,
    CrashRange,
    CycleSecs,
    GasCost,
    NoLegs { market_id: Seq<char> },
    Debt { market_id: Seq<char> },
    RcfThreshold { market_id: Seq<char> },
    Lltv { market_id: Seq<char>, token: Seq<char>, lltv: Value },
    Cursor { market_id: Seq<char>, token: Seq<char>, cursor: Value },
    Amount { market_id: Seq<char>, token: Seq<char> },
    ExchangeRate { market_id: Seq<char>, token: Seq<char> },
}

impl View for ConfigError {
    type V = Fault;

    open spec fn view(&self) -> Fault {
        match *self {
            ConfigError::NoMarkets => Fault::NoMarkets,
            ConfigError::CrashRange => Fault::CrashRange,
            ConfigError::CycleSecs => Fault::CycleSecs,
            ConfigError::GasCost => Fault::GasCost,
            ConfigError::NoLegs { market_id } => Fault::NoLegs { market_id: market_id@ },
            ConfigError::Debt { market_id } => Fault::Debt { market_id: market_id@ },
            ConfigError::RcfThreshold { market_id } => Fault::RcfThreshold {
                market_id: market_id@,
            },
            ConfigError::Lltv { market_id, token, lltv } => Fault::Lltv {
                market_id: market_id@,
                token: token@,
                lltv: lltv@,
            },
            ConfigError::Cursor { market_id, token, cursor } => Fault::Cursor {
                market_id: market_id@,
                token: token@,
                cursor: cursor@,
            },
            ConfigError::Amount { market_id, token } => Fault::Amount {
                market_id: market_id@,
                token: token@,
            },
            ConfigError::ExchangeRate { market_id, token } => Fault::ExchangeRate {
                market_id: market_id@,
                token: token@,
            },
        }
    }
}

impl Fault {
    /// What is wrong with a market.
    pub open spec fn of_market(market_id: Seq<char>, what: Seq<char>) -> Seq<char> {
        "market '"@ + market_id + "': "@ + what
    }

    /// What is wrong with a leg.
    pub open spec fn of_leg(market_id: Seq<char>, token: Seq<char>, what: Seq<char>) -> Seq<
        char,
    > {
        "market '"@ + market_id + "', leg '"@ + token + "': "@ + what
    }

    /// What the user is told, `shown` being how the number at fault is written.
    pub open spec fn text(self, shown: Seq<char>) -> Seq<char> {
        match self {
            Fault::NoMarkets => "markets.toml: no markets defined"@,
            Fault::CrashRange => "sim.crash_bottom_px must be less than sim.crash_top_px"@,
            Fault::CycleSecs => "sim.cycle_secs must be positive"@,
            Fault::GasCost => "engine.gas_cost_usd must be non-negative"@,
            Fault::NoLegs { market_id } => Fault::of_market(
                market_id,
                "no collateral legs defined"@,
            ),
            Fault::Debt { market_id } => Fault::of_market(market_id, "debt must be positive"@),
            Fault::RcfThreshold { market_id } => Fault::of_market(
                market_id,
                "rcf_threshold must be non-negative"@,
            ),
            Fault::Lltv { market_id, token, .. } => Fault::of_leg(
                market_id,
                token,
                "LLTV "@ + shown
                    + " is not a valid Morpho Blue tier\nvalid tiers: [0.385, 0.5, 0.625, 0.77, 0.86, 0.915, 0.945, 0.965, 0.98]"@,
            ),
            Fault::Cursor { market_id, token, .. } => Fault::of_leg(
                market_id,
                token,
                "cursor must be 0.25 or 0.50, got "@ + shown,
            ),
            Fault::Amount { market_id, token } => Fault::of_leg(
                market_id,
                token,
                "amount must be positive"@,
            ),
            Fault::ExchangeRate { market_id, token } => Fault::of_leg(
                market_id,
                token,
                "exchange_rate must be positive"@,
            ),
        }
    }
}

fn of_market(market_id: &String, what: &str) -> (r: String)
    ensures
        r@ == Fault::of_market(market_id@, what@),
{
    let mut text: String = "market '".to_owned();
    text.append(market_id.as_str());
    text.append("': ");
    text.append(what);
    text
}

fn of_leg(market_id: &String, token: &String, what: &str) -> (r: String)
    ensures
        r@ == Fault::of_leg(market_id@, token@, what@),
{
    let mut text: String = "market '".to_owned();
    text.append(market_id.as_str());
    text.append("', leg '");
    text.append(token.as_str());
    text.append("': ");
    text.append(what);
    text
}

impl ConfigError {
    /// What the user is told. `shown` is how the LLTV or the cursor at fault is written; the
    /// other messages hold no number.
    pub fn message(&self, shown: &str) -> (r: String)
        ensures
            r@ == self@.text(shown@),
    {
        match self {
            ConfigError::NoMarkets => "markets.toml: no markets defined".to_owned(),
            ConfigError::CrashRange => {
                "sim.crash_bottom_px must be less than sim.crash_top_px".to_owned()
            },
            ConfigError::CycleSecs => "sim.cycle_secs must be positive".to_owned(),
            ConfigError::GasCost => "engine.gas_cost_usd must be non-negative".to_owned(),
            ConfigError::NoLegs { market_id } => of_market(
                market_id,
                "no collateral legs defined",
            ),
            ConfigError::Debt { market_id } => of_market(market_id, "debt must be positive"),
            ConfigError::RcfThreshold { market_id } => of_market(
                market_id,
                "rcf_threshold must be non-negative",
            ),
            ConfigError::Lltv { market_id, token, .. } => {
                let mut what: String = "LLTV ".to_owned();
                what.append(shown);
                what.append(
                    " is not a valid Morpho Blue tier\nvalid tiers: [0.385, 0.5, 0.625, 0.77, 0.86, 0.915, 0.945, 0.965, 0.98]",
                );
                of_leg(market_id, token, what.as_str())
            },
            ConfigError::Cursor { market_id, token, .. } => {
                let mut what: String = "cursor must be 0.25 or 0.50, got ".to_owned();
                what.append(shown);
                of_leg(market_id, token, what.as_str())
            },
            ConfigError::Amount { market_id, token } => of_leg(
                market_id,
                token,
                "amount must be positive",
            ),
            ConfigError::ExchangeRate { market_id, token } => of_leg(
                market_id,
                token,
                "exchange_rate must be positive",
            ),
        }
    }
}

/// The first rule that a leg breaks.
pub open spec fn leg_fault(market_id: Seq<char>, leg: LegModel) -> Option<Fault> {
    if !is_lltv_tier(leg.lltv) {
        Some(Fault::Lltv { market_id, token: leg.token, lltv: leg.lltv })
    } else if !is_cursor(leg.cursor) {
        Some(Fault::Cursor { market_id, token: leg.token, cursor: leg.cursor })
    } else if !Value::zero().lt(leg.amount) {
        Some(Fault::Amount { market_id, token: leg.token })
    } else if !Value::zero().lt(leg.exchange_rate) {
        Some(Fault::ExchangeRate { market_id, token: leg.token })
    } else {
        None
    }
}

/// The fault of the first leg that has one.
pub open spec fn first_leg_fault(market_id: Seq<char>, legs: Seq<LegModel>) -> Option<Fault>
    decreases legs.len(),
{
    if legs.len() == 0 {
        None
    } else {
        match first_leg_fault(market_id, legs.drop_last()) {
            Some(fault) => Some(fault),
            None => leg_fault(market_id, legs.last()),
        }
    }
}

/// The first rule that a market breaks.
pub open spec fn market_fault(market: PositionModel) -> Option<Fault> {
    if market.legs.len() == 0 {
        Some(Fault::NoLegs { market_id: market.market_id })
    } else if !Value::zero().lt(market.debt) {
        Some(Fault::Debt { market_id: market.market_id })
    } else if market.rcf_threshold.lt(Value::zero()) {
        Some(Fault::RcfThreshold { market_id: market.market_id })
    } else {
        first_leg_fault(market.market_id, market.legs)
    }
}

/// The fault of the first market that has one.
pub open spec fn first_market_fault(markets: Seq<PositionModel>) -> Option<Fault>
    decreases markets.len(),
{
    if markets.len() == 0 {
        None
    } else {
        match first_market_fault(markets.drop_last()) {
            Some(fault) => Some(fault),
            None => market_fault(markets.last()),
        }
    }
}

impl ConfigModel {
    /// The first rule that the configuration breaks.
    pub open spec fn fault(self) -> Option<Fault> {
        if self.markets.len() == 0 {
            Some(Fault::NoMarkets)
        } else if self.sim.crash_top_px.le(self.sim.crash_bottom_px) {
            Some(Fault::CrashRange)
        } else if self.sim.cycle_secs.le(Value::zero()) {
            Some(Fault::CycleSecs)
        } else if self.gas_cost_usd.lt(Value::zero()) {
            Some(Fault::GasCost)
        } else {
            first_market_fault(self.markets)
        }
    }
}

/// A part of one is a double above zero.
proof fn lemma_part_of_one(n: nat, d: nat)
    requires
        0 < n <= d <= 1000,
    ensures
        positive(Value::ratio(n, d)),
{
    let u = one_in_quanta();
    lemma_zero_significant();
    lemma2_to64();
    lemma_pow2_adds(10, 1064);
    lemma_pow2_pos(1064);
    let lo = pow2(1064);
    assert(1 * lo == lo);
    lemma_significant(1, 1064);
    assert(lo * d <= n * u && n * u <= u * d) by (nonlinear_arith)
        requires
            0 < n <= d <= 1000,
            u == 1024 * lo,
    ;
    lemma_round_ge(n * u, d, lo);
    lemma_round_le(n * u, d, u);
}

/// Whether a number is the part `n / d` of one.
fn is_part(number: Double, n: u64, d: u64) -> (r: bool)
    requires
        0 < n <= d <= 1000,
    ensures
        r == (number@ == Value::ratio(n as nat, d as nat)),
{
    let part: Double = Double::ratio(n, d);
    proof {
        lemma_part_of_one(n as nat, d as nat);
    }
    number.le(part) && part.le(number)
}

fn lltv_is_tier(lltv: Double) -> (r: bool)
    ensures
        r == is_lltv_tier(lltv@),
{
    let tiers: Vec<u64> = vec![385, 500, 625, 770, 860, 915, 945, 965, 980];
    let mut i: usize = 0;
    proof {
        assert(tiers@ == lltv_tiers());
    }
    while i < tiers.len()
        invariant
            i <= tiers.len(),
            tiers@ == lltv_tiers(),
            forall|j: int|
                0 <= j < i ==> lltv@ != Value::ratio(#[trigger] lltv_tiers()[j] as nat, 1000),
        decreases tiers.len() - i,
    {
        proof {
            assert(tiers[i as int] == lltv_tiers()[i as int]);
        }
        if is_part(lltv, tiers[i], 1000) {
            return true;
        }
        i = i + 1;
    }
    false
}

fn cursor_is_known(cursor: Double) -> (r: bool)
    ensures
        r == is_cursor(cursor@),
{
    is_part(cursor, 1, 4) || is_part(cursor, 1, 2)
}

fn validate_leg(market_id: &String, leg: &LegEntry) -> (r: Result<(), ConfigError>)
    ensures
        match r {
            Ok(_) => leg_fault(market_id@, leg@) is None,
            Err(e) => leg_fault(market_id@, leg@) == Some(e@),
        },
{
    if !lltv_is_tier(leg.lltv) {
        return Err(
            ConfigError::Lltv {
                market_id: market_id.clone(),
                token: leg.token.clone(),
                lltv: leg.lltv,
            },
        );
    }
    if !cursor_is_known(leg.cursor) {
        return Err(
            ConfigError::Cursor {
                market_id: market_id.clone(),
                token: leg.token.clone(),
                cursor: leg.cursor,
            },
        );
    }
    if !Double::zero().lt(leg.amount) {
        return Err(
            ConfigError::Amount { market_id: market_id.clone(), token: leg.token.clone() },
        );
    }
    if !Double::zero().lt(leg.exchange_rate) {
        return Err(
            ConfigError::ExchangeRate { market_id: market_id.clone(), token: leg.token.clone() },
        );
    }
    Ok(())
}

fn validate_market(market: &MarketEntry) -> (r: Result<(), ConfigError>)
    ensures
        match r {
            Ok(_) => market_fault(market@) is None,
            Err(e) => market_fault(market@) == Some(e@),
        },
{
    if market.legs.is_empty() {
        return Err(ConfigError::NoLegs { market_id: market.market_id.clone() });
    }
    if !Double::zero().lt(market.debt) {
        return Err(ConfigError::Debt { market_id: market.market_id.clone() });
    }
    if market.rcf_threshold.lt(Double::zero()) {
        return Err(ConfigError::RcfThreshold { market_id: market.market_id.clone() });
    }
    let ghost legs = market@.legs;
    let mut i: usize = 0;
    while i < market.legs.len()
        invariant
            i <= market.legs.len(),
            legs == market@.legs,
            market@.legs.len() > 0,
            Value::zero().lt(market@.debt),
            !market@.rcf_threshold.lt(Value::zero()),
            first_leg_fault(market.market_id@, legs.take(i as int)) is None,
        decreases market.legs.len() - i,
    {
        proof {
            assert(legs.take(i + 1).drop_last() == legs.take(i as int));
            assert(legs.take(i + 1).last() == market.legs[i as int]@);
        }
        let checked: Result<(), ConfigError> = validate_leg(&market.market_id, &market.legs[i]);
        if checked.is_err() {
            proof {
                lemma_leg_fault_stays(market.market_id@, legs, i + 1);
            }
            return checked;
        }
        i = i + 1;
    }
    proof {
        assert(legs.take(i as int) == legs);
    }
    Ok(())
}

/// The fault of a part of the legs is that of all of them.
proof fn lemma_leg_fault_stays(market_id: Seq<char>, legs: Seq<LegModel>, n: int)
    requires
        0 <= n <= legs.len(),
        first_leg_fault(market_id, legs.take(n)) is Some,
    ensures
        first_leg_fault(market_id, legs) == first_leg_fault(market_id, legs.take(n)),
    decreases legs.len() - n,
{
    if n == legs.len() {
        assert(legs.take(n) == legs);
    } else {
        assert(legs.take(n + 1).drop_last() == legs.take(n));
        lemma_leg_fault_stays(market_id, legs, n + 1);
    }
}

/// The fault of a part of the markets is that of all of them.
proof fn lemma_market_fault_stays(markets: Seq<PositionModel>, n: int)
    requires
        0 <= n <= markets.len(),
        first_market_fault(markets.take(n)) is Some,
    ensures
        first_market_fault(markets) == first_market_fault(markets.take(n)),
    decreases markets.len() - n,
{
    if n == markets.len() {
        assert(markets.take(n) == markets);
    } else {
        assert(markets.take(n + 1).drop_last() == markets.take(n));
        lemma_market_fault_stays(markets, n + 1);
    }
}

/// Refuses a configuration for the first rule that it breaks.
pub fn validate(cfg: &Config) -> (r: Result<(), ConfigError>)
    ensures
        match r {
            Ok(_) => cfg@.fault() is None,
            Err(e) => cfg@.fault() == Some(e@),
        },
{
    if cfg.markets.is_empty() {
        return Err(ConfigError::NoMarkets);
    }
    if cfg.sim.crash_top_px.le(cfg.sim.crash_bottom_px) {
        return Err(ConfigError::CrashRange);
    }
    if cfg.sim.cycle_secs.le(Double::zero()) {
        return Err(ConfigError::CycleSecs);
    }
    if cfg.engine.gas_cost_usd.lt(Double::zero()) {
        return Err(ConfigError::GasCost);
    }
    let ghost markets = cfg@.markets;
    let mut i: usize = 0;
    while i < cfg.markets.len()
        invariant
            i <= cfg.markets.len(),
            markets == cfg@.markets,
            cfg@.markets.len() > 0,
            !cfg@.sim.crash_top_px.le(cfg@.sim.crash_bottom_px),
            !cfg@.sim.cycle_secs.le(Value::zero()),
            !cfg@.gas_cost_usd.lt(Value::zero()),
            first_market_fault(markets.take(i as int)) is None,
        decreases cfg.markets.len() - i,
    {
        proof {
            assert(markets.take(i + 1).drop_last() == markets.take(i as int));
            assert(markets.take(i + 1).last() == cfg.markets[i as int]@);
        }
        let checked: Result<(), ConfigError> = validate_market(&cfg.markets[i]);
        if checked.is_err() {
            proof {
                lemma_market_fault_stays(markets, i + 1);
            }
            return checked;
        }
        i = i + 1;
    }
    proof {
        assert(markets.take(i as int) == markets);
    }
    Ok(())
}

fn into_legs(legs: &Vec<LegEntry>) -> (r: Vec<CollateralLeg>)
    ensures
        r@.map_values(|l: CollateralLeg| l@) == legs@.map_values(|l: LegEntry| l@),
{
    let mut r: Vec<CollateralLeg> = Vec::new();
    let mut i: usize = 0;
    while i < legs.len()
        invariant
            i <= legs.len(),
            r.len() == i,
            forall|j: int| 0 <= j < i ==> (#[trigger] r[j])@ == legs[j]@,
        decreases legs.len() - i,
    {
        let l: &LegEntry = &legs[i];
        r.push(
            CollateralLeg {
                token: l.token.clone(),
                amount: l.amount,
                lltv: l.lltv,
                cursor: l.cursor,
                exchange_rate: l.exchange_rate,
            },
        );
        i = i + 1;
    }
    proof {
        assert(r@.map_values(|l: CollateralLeg| l@) =~= legs@.map_values(|l: LegEntry| l@));
    }
    r
}

/// The positions that a configuration describes, in order.
pub fn into_positions(cfg: &Config) -> (r: Vec<Position>)
    ensures
        r@.map_values(|p: Position| p@) == cfg@.markets,
{
    let mut r: Vec<Position> = Vec::new();
    let mut i: usize = 0;
    while i < cfg.markets.len()
        invariant
            i <= cfg.markets.len(),
            r.len() == i,
            forall|j: int| 0 <= j < i ==> (#[trigger] r[j])@ == cfg.markets[j]@,
        decreases cfg.markets.len() - i,
    {
        let m: &MarketEntry = &cfg.markets[i];
        r.push(
            Position {
                market_id: m.market_id.clone(),
                loan_token: m.loan_token.clone(),
                debt: m.debt,
                legs: into_legs(&m.legs),
                maturity_ts: m.maturity_ts,
                rcf_threshold: m.rcf_threshold,
            },
        );
        i = i + 1;
    }
    proof {
        assert(r@.map_values(|p: Position| p@) =~= cfg@.markets);
    }
    r
}

} // verus!
