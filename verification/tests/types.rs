use std::time::{SystemTime, UNIX_EPOCH};

use midnight_shadow::binary64::double::Double;
use midnight_shadow::clock::{unix_seconds, unix_seconds_of, Clock};
use midnight_shadow::types::{AppState, CexSnapshot, CollateralLeg, OracleSnapshot, Position};

fn d(x: f64) -> Double {
    Double::from_bits(x.to_bits())
}

fn f(x: Double) -> f64 {
    f64::from_bits(x.to_bits())
}

fn leg(lltv: f64, cursor: f64) -> CollateralLeg {
    CollateralLeg {
        token: "ETH".into(),
        amount: d(1.0),
        lltv: d(lltv),
        cursor: d(cursor),
        exchange_rate: d(1.0),
    }
}

fn held(token: &str, amount: f64, lltv: f64, cursor: f64, exchange_rate: f64) -> CollateralLeg {
    CollateralLeg {
        token: token.into(),
        amount: d(amount),
        lltv: d(lltv),
        cursor: d(cursor),
        exchange_rate: d(exchange_rate),
    }
}

fn position(debt: f64, legs: Vec<CollateralLeg>) -> Position {
    Position {
        market_id: "test".into(),
        loan_token: "USDC".into(),
        debt: d(debt),
        legs,
        maturity_ts: 1_759_276_800,
        rcf_threshold: d(100.0),
    }
}

const B: f64 = 3_200.0;

fn weeth_pos() -> Position {
    position(20.0 * B * 1.001 * 0.740, vec![held("weETH", 20.0, 0.86, 0.50, 1.001)])
}

fn wsteth_pos() -> Position {
    position(60.0 * B * 1.07 * 0.703, vec![held("wstETH", 60.0, 0.80, 0.50, 1.07)])
}

fn multi_pos() -> Position {
    position(
        (30.0 * B * 0.86 + 20.0 * B * 1.07 * 0.80) * 0.866,
        vec![held("ETH", 30.0, 0.86, 0.50, 1.0), held("wstETH", 20.0, 0.80, 0.50, 1.07)],
    )
}

#[test]
fn lif_max_086_050() {
    // 1 / (1 - 0.5 * 0.14) = 1 / 0.93
    assert!((f(leg(0.86, 0.50).lif_max()) - 1.075_269).abs() < 1e-4);
}

#[test]
fn lif_max_080_050() {
    // 1 / (1 - 0.5 * 0.20) = 1 / 0.90
    assert!((f(leg(0.80, 0.50).lif_max()) - 1.111_111).abs() < 1e-4);
}

#[test]
fn lif_max_077_025() {
    // 1 / (1 - 0.25 * 0.23) = 1 / 0.9425
    assert!((f(leg(0.77, 0.25).lif_max()) - 1.061_007).abs() < 1e-4);
}

#[test]
fn lag_pct_downside_only() {
    let l = leg(0.80, 0.50);
    // The price has dropped: 550 of 3200.
    assert!((f(l.lag_pct(d(3200.0), d(2650.0))) - 550.0 / 3200.0).abs() < 1e-6);
    // The price has risen.
    assert_eq!(f(l.lag_pct(d(3200.0), d(3400.0))), 0.0);
}

#[test]
fn weeth_healthy_at_oracle_price() {
    assert!(f(weeth_pos().health_ltv(d(3_200.0))) < 1.0);
}

#[test]
fn weeth_liquidatable_at_crash_bottom() {
    assert!(f(weeth_pos().health_ltv(d(2_650.0))) > 1.0);
}

#[test]
fn weeth_no_bad_debt_at_crash() {
    // The collateral still covers the debt: liquidatable, but not under water.
    assert_eq!(f(weeth_pos().bad_debt(d(2_650.0))), 0.0);
}

#[test]
fn wsteth_healthy_at_oracle_price() {
    assert!(f(wsteth_pos().health_ltv(d(3_200.0))) < 1.0);
}

#[test]
fn wsteth_liquidatable_at_crash_bottom() {
    assert!(f(wsteth_pos().health_ltv(d(2_650.0))) > 1.0);
}

#[test]
fn multi_healthy_at_oracle_price() {
    assert!(f(multi_pos().health_ltv(d(3_200.0))) < 1.0);
}

#[test]
fn multi_liquidatable_at_crash_bottom() {
    assert!(f(multi_pos().health_ltv(d(2_650.0))) > 1.0);
}

#[test]
fn leg_values_are_exact() {
    let l = held("wstETH", 20.0, 0.80, 0.50, 1.07);
    assert_eq!(f(l.price(d(2_650.0))), 2_650.0 * 1.07);
    assert_eq!(f(l.collateral_value(d(2_650.0))), 20.0 * (2_650.0 * 1.07));
    assert_eq!(f(l.max_debt(d(2_650.0))), 20.0 * (2_650.0 * 1.07) * 0.80);
    assert_eq!(f(l.lif_max()), 1.0 / (1.0 - 0.50 * (1.0 - 0.80)));
    let op = 3_200.0 * 1.07;
    let sp = 2_650.0 * 1.07;
    assert_eq!(f(l.lag_pct(d(3_200.0), d(2_650.0))), (op - sp) / op);
}

#[test]
fn position_values_are_exact() {
    let pos = multi_pos();
    let px = 2_650.0;
    let max_debt = 30.0 * (px * 1.0) * 0.86 + 20.0 * (px * 1.07) * 0.80;
    let total = 30.0 * (px * 1.0) + 20.0 * (px * 1.07);
    assert_eq!(f(pos.max_debt(d(px))), max_debt);
    assert_eq!(f(pos.total_collateral(d(px))), total);
    assert_eq!(f(pos.health_ltv(d(px))), f(pos.debt) / max_debt);
    assert_eq!(f(pos.max_lltv_tier()), 0.86);
}

#[test]
fn sums_of_no_legs() {
    let pos = position(100.0, vec![]);
    // A sum of no terms is minus zero.
    assert_eq!(pos.max_debt(d(3_200.0)).to_bits(), (-0.0f64).to_bits());
    assert_eq!(pos.total_collateral(d(3_200.0)).to_bits(), (-0.0f64).to_bits());
    assert_eq!(f(pos.health_ltv(d(3_200.0))), f64::INFINITY);
    assert_eq!(f(pos.bad_debt(d(3_200.0))), 100.0);
    assert_eq!(pos.worst_lag_pct(d(3_200.0), d(2_650.0)).to_bits(), 0.0f64.to_bits());
    assert_eq!(pos.max_lltv_tier().to_bits(), 0.0f64.to_bits());
}

#[test]
fn health_ltv_is_infinite_at_a_price_of_zero() {
    assert_eq!(f(weeth_pos().health_ltv(d(0.0))), f64::INFINITY);
    assert_eq!(f(weeth_pos().health_ltv(d(-1.0))), f64::INFINITY);
}

#[test]
fn health_ltv_of_no_number_is_no_number() {
    assert!(f(weeth_pos().health_ltv(d(f64::NAN))).is_nan());
    assert_eq!(f(weeth_pos().bad_debt(d(f64::NAN))), 0.0);
    assert_eq!(f(weeth_pos().worst_lag_pct(d(f64::NAN), d(2_650.0))), 0.0);
}

#[test]
fn bad_debt_is_what_the_collateral_does_not_cover() {
    let pos = position(5_000.0, vec![held("ETH", 1.0, 0.80, 0.50, 1.0)]);
    assert_eq!(f(pos.bad_debt(d(3_200.0))), 1_800.0);
    assert_eq!(f(pos.bad_debt(d(5_000.0))), 0.0);
    assert_eq!(f(pos.bad_debt(d(6_000.0))), 0.0);
}

#[test]
fn liquidatable_exactly_above_max_debt() {
    let at = |debt: f64| position(debt, vec![held("ETH", 1.0, 0.5, 0.50, 1.0)]);
    assert_eq!(f(at(1_600.0).health_ltv(d(3_200.0))), 1.0);
    assert!(f(at(1_600.0 + 1e-9).health_ltv(d(3_200.0))) > 1.0);
    assert!(f(at(1_600.0 - 1e-9).health_ltv(d(3_200.0))) < 1.0);
}

#[test]
fn worst_lag_is_the_lag_of_a_leg() {
    let pos = multi_pos();
    let worst = f(pos.worst_lag_pct(d(3_200.0), d(2_650.0)));
    let lags: Vec<f64> =
        pos.legs.iter().map(|l| f(l.lag_pct(d(3_200.0), d(2_650.0)))).collect();
    assert!(lags.iter().all(|lag| *lag <= worst));
    assert!(lags.iter().any(|lag| *lag == worst));
    assert!(worst > 0.0 && worst <= 1.0);
}

#[test]
fn no_lag_behind_a_rally() {
    assert_eq!(f(multi_pos().worst_lag_pct(d(3_200.0), d(3_200.0))), 0.0);
    assert_eq!(f(multi_pos().worst_lag_pct(d(3_200.0), d(3_400.0))), 0.0);
}

#[test]
fn capacity_rises_with_the_price() {
    let pos = multi_pos();
    let mut last = (0.0, 0.0);
    for px in [0.0, 1.0, 2_650.0, 2_650.000_000_001, 3_200.0, 1e9] {
        let now = (f(pos.max_debt(d(px))), f(pos.total_collateral(d(px))));
        assert!(last.0 <= now.0 && last.1 <= now.1);
        last = now;
    }
}

#[test]
fn overdue_after_maturity_only() {
    let mut pos = weeth_pos();
    pos.maturity_ts = 1_000;
    assert!(!pos.is_overdue_at(999));
    assert!(!pos.is_overdue_at(1_000));
    assert!(pos.is_overdue_at(1_001));
    assert!(pos.is_overdue());
    pos.maturity_ts = SystemTime::now().duration_since(UNIX_EPOCH).unwrap().as_secs() + 3_600;
    assert!(!pos.is_overdue());
}

#[test]
fn spread_in_basis_points() {
    let quote = CexSnapshot { bid: d(2_651.56), ask: d(2_652.08), mid: d(2_651.82), ts: 0 };
    assert_eq!(f(quote.spread_bps()), (2_652.08 - 2_651.56) / 2_651.82 * 10_000.0);
    let even = CexSnapshot { bid: d(99.0), ask: d(101.0), mid: d(100.0), ts: 0 };
    assert_eq!(f(even.spread_bps()), 200.0);
}

#[test]
fn age_of_a_snapshot() {
    let seen =
        OracleSnapshot { price: d(3_200.0), updated_at: 1_500_000_000, round_id: 1, eta_secs: None };
    assert_eq!(f(seen.age_secs_at(4_000_000_000)), 2.5);
    assert_eq!(f(seen.age_secs_at(1_500_000_001)), 1e-9);
    // A reading before the update is no age.
    assert_eq!(f(seen.age_secs_at(0)), 0.0);
}

#[test]
fn age_grows_with_the_clock() {
    let clock = Clock::start();
    let now = clock.read();
    let seen = OracleSnapshot { price: d(3_200.0), updated_at: now, round_id: 1, eta_secs: None };
    let young = f(seen.age_secs(&clock));
    let mut x = 0u64;
    while clock.read() < now + 2_000_000 {
        x = x.wrapping_add(1);
    }
    let old = f(seen.age_secs(&clock));
    assert!(young >= 0.0);
    assert!(old >= 0.002 && old < 60.0, "{x}");
}

#[test]
fn a_new_state_has_positions_alone() {
    let state = AppState::new(vec![weeth_pos(), wsteth_pos()]);
    assert_eq!(state.positions.len(), 2);
    assert_eq!(state.positions[0].legs[0].token, "weETH");
    assert!(state.cex.is_none() && state.oracle.is_none() && state.analyses.is_empty());
    assert!(AppState::default().positions.is_empty());
}

#[test]
fn unix_seconds_follow_the_wall_clock() {
    assert_eq!(unix_seconds_of(Some(0)), 0);
    assert_eq!(unix_seconds_of(Some(1_759_276_800)), 1_759_276_800);
    assert_eq!(unix_seconds_of(Some(u64::MAX)), u64::MAX);
    // A time before the epoch is the epoch.
    assert_eq!(unix_seconds_of(None), 0);
    let before = SystemTime::now().duration_since(UNIX_EPOCH).unwrap().as_secs();
    let now = unix_seconds();
    let after = SystemTime::now().duration_since(UNIX_EPOCH).unwrap().as_secs();
    assert!(before <= now && now <= after);
}

#[test]
fn a_lower_lltv_or_a_higher_cursor_raises_the_incentive() {
    let rates = [0.01, 0.25, 0.385, 0.5, 0.77, 0.86, 0.98];
    for a in rates {
        for b in rates {
            for c in rates {
                let lif = f(leg(a, c).lif_max());
                assert!(lif > 1.0);
                assert!(a * lif < 1.0);
                assert!((lif * (1.0 - c * (1.0 - a)) - 1.0).abs() < 1e-12);
                if a <= b {
                    assert!(lif >= f(leg(b, c).lif_max()));
                    assert!(f(leg(c, a).lif_max()) <= f(leg(c, b).lif_max()));
                }
            }
        }
    }
    // Nothing else of a leg matters.
    let other = held("wBTC", 7.0, 0.86, 0.50, 30.0);
    assert_eq!(other.lif_max().to_bits(), leg(0.86, 0.50).lif_max().to_bits());
}

#[test]
fn a_small_bonus_is_not_rounded_away() {
    let near = 1.0 - 1.0 / 1_073_741_824.0;
    assert!(f(leg(near, 0.50).lif_max()) > 1.0);
    assert_eq!(f(leg(1.0 - f64::EPSILON / 2.0, 0.25).lif_max()), 1.0);
    // The highest incentive that there is.
    let most = f(leg(f64::from_bits(1), 1.0 - f64::EPSILON / 2.0).lif_max());
    assert_eq!(most, 9_007_199_254_740_992.0);
}
