use midnight_shadow::binary64::double::Double;
use midnight_shadow::config::Args;
use midnight_shadow::markets::{
    into_positions, validate, Config, ConfigError, EngineConfig, LegEntry, MarketEntry, SimConfig,
};

fn d(x: f64) -> Double {
    Double::from_bits(x.to_bits())
}

fn f(x: Double) -> f64 {
    f64::from_bits(x.to_bits())
}

fn leg() -> LegEntry {
    LegEntry {
        token: "wBTC".into(),
        amount: d(5.0),
        lltv: d(0.77),
        cursor: d(0.50),
        exchange_rate: d(30.0),
    }
}

fn market(id: &str) -> MarketEntry {
    MarketEntry {
        market_id: id.into(),
        loan_token: "USDC".into(),
        debt: d(500_000.0),
        maturity_ts: 1_767_225_600,
        rcf_threshold: d(100.0),
        legs: vec![leg()],
    }
}

fn config() -> Config {
    Config {
        sim: SimConfig {
            crash_top_px: d(3_200.0),
            crash_bottom_px: d(2_650.0),
            cycle_secs: d(300.0),
        },
        engine: EngineConfig { gas_cost_usd: d(18.0) },
        markets: vec![market("wBTC/USDC-Dec26"), market("second")],
    }
}

fn refusal(cfg: &Config) -> ConfigError {
    validate(cfg).expect_err("refused")
}

#[test]
fn a_complete_configuration_is_accepted() {
    assert!(validate(&config()).is_ok());
}

#[test]
fn no_markets() {
    let mut cfg = config();
    cfg.markets.clear();
    let e = refusal(&cfg);
    assert!(matches!(e, ConfigError::NoMarkets));
    assert_eq!(e.message(""), "markets.toml: no markets defined");
}

#[test]
fn the_crash_has_to_fall() {
    let mut cfg = config();
    cfg.sim.crash_bottom_px = d(3_200.0);
    let e = refusal(&cfg);
    assert!(matches!(e, ConfigError::CrashRange));
    assert_eq!(e.message(""), "sim.crash_bottom_px must be less than sim.crash_top_px");
    cfg.sim.crash_bottom_px = d(3_199.0);
    assert!(validate(&cfg).is_ok());
}

#[test]
fn the_cycle_has_to_last() {
    let mut cfg = config();
    for secs in [0.0, -0.0, -1.0] {
        cfg.sim.cycle_secs = d(secs);
        let e = refusal(&cfg);
        assert!(matches!(e, ConfigError::CycleSecs));
        assert_eq!(e.message(""), "sim.cycle_secs must be positive");
    }
}

#[test]
fn gas_is_not_negative() {
    let mut cfg = config();
    cfg.engine.gas_cost_usd = d(-0.01);
    let e = refusal(&cfg);
    assert!(matches!(e, ConfigError::GasCost));
    assert_eq!(e.message(""), "engine.gas_cost_usd must be non-negative");
    cfg.engine.gas_cost_usd = d(0.0);
    assert!(validate(&cfg).is_ok());
}

#[test]
fn a_market_has_legs() {
    let mut cfg = config();
    cfg.markets[1].legs.clear();
    let e = refusal(&cfg);
    assert!(matches!(&e, ConfigError::NoLegs { market_id } if market_id == "second"));
    assert_eq!(e.message(""), "market 'second': no collateral legs defined");
}

#[test]
fn debt_is_positive() {
    let mut cfg = config();
    for debt in [0.0, -1.0, f64::NAN] {
        cfg.markets[0].debt = d(debt);
        let e = refusal(&cfg);
        assert!(matches!(&e, ConfigError::Debt { market_id } if market_id == "wBTC/USDC-Dec26"));
        assert_eq!(e.message(""), "market 'wBTC/USDC-Dec26': debt must be positive");
    }
}

#[test]
fn the_dust_floor_is_not_negative() {
    let mut cfg = config();
    cfg.markets[0].rcf_threshold = d(-1.0);
    let e = refusal(&cfg);
    assert!(matches!(&e, ConfigError::RcfThreshold { market_id } if market_id == "wBTC/USDC-Dec26"));
    assert_eq!(
        e.message(""),
        "market 'wBTC/USDC-Dec26': rcf_threshold must be non-negative"
    );
}

#[test]
fn every_tier_is_accepted() {
    let mut cfg = config();
    for tier in [0.385, 0.5, 0.625, 0.77, 0.86, 0.915, 0.945, 0.965, 0.98] {
        cfg.markets[0].legs[0].lltv = d(tier);
        assert!(validate(&cfg).is_ok(), "{tier}");
        for off in [0.0011, -0.0011, 0.0005, -0.0005, 1e-15, -1e-15] {
            cfg.markets[0].legs[0].lltv = d(tier + off);
            assert!(matches!(refusal(&cfg), ConfigError::Lltv { .. }), "{tier} {off}");
        }
    }
}

#[test]
fn other_tiers_are_refused() {
    let mut cfg = config();
    for lltv in [0.0, 0.80, 0.8605, 1.0, -0.86, f64::NAN, f64::INFINITY] {
        cfg.markets[1].legs[0].lltv = d(lltv);
        let e = refusal(&cfg);
        match &e {
            ConfigError::Lltv { market_id, token, lltv: at } => {
                assert_eq!((market_id.as_str(), token.as_str()), ("second", "wBTC"));
                assert_eq!(at.to_bits(), lltv.to_bits());
            }
            _ => panic!("{e:?}"),
        }
    }
    cfg.markets[1].legs[0].lltv = d(0.80);
    assert_eq!(
        refusal(&cfg).message(&format!("{:.3}", 0.80)),
        "market 'second', leg 'wBTC': LLTV 0.800 is not a valid Morpho Blue tier\n\
         valid tiers: [0.385, 0.5, 0.625, 0.77, 0.86, 0.915, 0.945, 0.965, 0.98]"
    );
}

#[test]
fn cursors_are_a_quarter_or_a_half() {
    let mut cfg = config();
    for cursor in [0.25, 0.50] {
        cfg.markets[0].legs[0].cursor = d(cursor);
        assert!(validate(&cfg).is_ok(), "{cursor}");
    }
    for cursor in [0.0, 0.3, 0.252, 0.2505, 0.4995, 0.498, 1.0, -0.25, f64::NAN, f64::INFINITY] {
        cfg.markets[0].legs[0].cursor = d(cursor);
        assert!(matches!(refusal(&cfg), ConfigError::Cursor { .. }), "{cursor}");
    }
    cfg.markets[0].legs[0].cursor = d(0.3);
    assert_eq!(
        refusal(&cfg).message(&format!("{}", 0.3)),
        "market 'wBTC/USDC-Dec26', leg 'wBTC': cursor must be 0.25 or 0.50, got 0.3"
    );
}

#[test]
fn amounts_and_rates_are_positive() {
    for bad in [0.0, -5.0, f64::NAN] {
        let mut cfg = config();
        cfg.markets[0].legs[0].amount = d(bad);
        let e = refusal(&cfg);
        assert!(matches!(e, ConfigError::Amount { .. }));
        assert_eq!(
            e.message(""),
            "market 'wBTC/USDC-Dec26', leg 'wBTC': amount must be positive"
        );
        let mut cfg = config();
        cfg.markets[0].legs[0].exchange_rate = d(bad);
        let e = refusal(&cfg);
        assert!(matches!(e, ConfigError::ExchangeRate { .. }));
        assert_eq!(
            e.message(""),
            "market 'wBTC/USDC-Dec26', leg 'wBTC': exchange_rate must be positive"
        );
    }
}

#[test]
fn the_first_fault_is_named() {
    let mut cfg = config();
    cfg.markets[1].debt = d(0.0);
    let mut odd = leg();
    odd.token = "odd".into();
    odd.cursor = d(0.3);
    odd.lltv = d(0.80);
    cfg.markets[0].legs.push(odd);
    // The first market comes before the second, and the LLTV before the cursor.
    assert!(matches!(
        refusal(&cfg),
        ConfigError::Lltv { token, .. } if token == "odd"
    ));
    cfg.sim.cycle_secs = d(0.0);
    assert!(matches!(refusal(&cfg), ConfigError::CycleSecs));
}

#[test]
fn accepted_legs_have_an_incentive() {
    let mut cfg = config();
    for tier in [0.385, 0.5, 0.625, 0.77, 0.86, 0.915, 0.945, 0.965, 0.98] {
        for cursor in [0.25, 0.50] {
            cfg.markets[0].legs[0].lltv = d(tier);
            cfg.markets[0].legs[0].cursor = d(cursor);
            assert!(validate(&cfg).is_ok());
            let lif = f(into_positions(&cfg)[0].legs[0].lif_max());
            assert_eq!(lif, 1.0 / (1.0 - cursor * (1.0 - tier)));
            assert!(lif > 1.0 && lif <= 2.0);
        }
    }
}

#[test]
fn positions_are_what_is_configured() {
    let mut cfg = config();
    let mut other = leg();
    other.token = "ETH".into();
    other.exchange_rate = d(1.0);
    cfg.markets[0].legs.push(other);
    let positions = into_positions(&cfg);
    assert_eq!(positions.len(), 2);
    let p = &positions[0];
    assert_eq!(p.market_id, "wBTC/USDC-Dec26");
    assert_eq!(p.loan_token, "USDC");
    assert_eq!(f(p.debt), 500_000.0);
    assert_eq!(p.maturity_ts, 1_767_225_600);
    assert_eq!(f(p.rcf_threshold), 100.0);
    assert_eq!(p.legs.len(), 2);
    assert_eq!(p.legs[0].token, "wBTC");
    assert_eq!(f(p.legs[0].amount), 5.0);
    assert_eq!(f(p.legs[0].lltv), 0.77);
    assert_eq!(f(p.legs[0].cursor), 0.50);
    assert_eq!(f(p.legs[0].exchange_rate), 30.0);
    assert_eq!(p.legs[1].token, "ETH");
    assert_eq!(positions[1].market_id, "second");
    assert_eq!(positions[1].legs.len(), 1);
}

#[test]
fn arguments_that_are_not_given() {
    let args = Args::default();
    assert_eq!(args.markets, "config/markets.toml");
    assert_eq!(args.pair, "ETHUSDC");
    // Live, unless the simulation is asked for.
    assert!(!args.sim);
    assert_eq!(args.oracle_lag_s, 180);
    assert_eq!(args.rpc, "https://eth-mainnet.g.alchemy.com/v2/YOUR_KEY");
}
