use std::time::{SystemTime, UNIX_EPOCH};

use midnight_shadow::binary64::double::Double;
use midnight_shadow::shadow::engine::{
    blended_lif, post_maturity_lif, post_maturity_lif_at, seizure_params, ShadowEngine,
};
use midnight_shadow::types::{
    AppState, CexSnapshot, CollateralLeg, OracleSnapshot, Position, ShadowAnalysis,
};

fn d(x: f64) -> Double {
    Double::from_bits(x.to_bits())
}

fn f(x: Double) -> f64 {
    f64::from_bits(x.to_bits())
}

fn held(token: &str, amount: f64, lltv: f64, cursor: f64, exchange_rate: f64) -> CollateralLeg {
    CollateralLeg {
        token: token.into(),
        amount: d(amount),
        lltv: d(lltv),
        cursor: d(cursor),
        exchange_rate: d(exchange_rate),
    }
}

fn eth_pos(amount: f64, debt: f64, lltv: f64, cursor: f64) -> Position {
    Position {
        market_id: "test".into(),
        loan_token: "USDC".into(),
        debt: d(debt),
        legs: vec![held("ETH", amount, lltv, cursor, 1.0)],
        maturity_ts: u64::MAX,
        rcf_threshold: d(0.0),
    }
}

fn multi_pos() -> Position {
    Position {
        market_id: "test".into(),
        loan_token: "USDC".into(),
        debt: d(100_000.0),
        legs: vec![held("ETH", 30.0, 0.86, 0.50, 1.0), held("wstETH", 20.0, 0.80, 0.50, 1.07)],
        maturity_ts: u64::MAX,
        rcf_threshold: d(0.0),
    }
}

fn unix_now() -> u64 {
    SystemTime::now().duration_since(UNIX_EPOCH).unwrap().as_secs()
}

#[test]
fn blended_lif_single_leg() {
    let pos = eth_pos(100.0, 50_000.0, 0.86, 0.50);
    assert!((f(blended_lif(&pos, d(3_200.0))) - 1.075_27).abs() < 1e-3);
}

#[test]
fn blended_lif_multi_leg_weighted() {
    // 79,500 at 1.07527 and 56,710 at 1.11111
    assert!((f(blended_lif(&multi_pos(), d(2_650.0))) - 1.090).abs() < 0.001);
}

#[test]
fn seizure_zero_when_healthy() {
    // It may carry 80,000, and owes 50,000.
    let pos = eth_pos(100.0, 50_000.0, 0.80, 0.50);
    let lif = blended_lif(&pos, d(1_000.0));
    let (delta, full_liq) = seizure_params(&pos, d(1_000.0), d(0.0), lif);
    assert_eq!(f(delta), 0.0);
    assert!(!full_liq);
}

#[test]
fn seizure_partial_restores_health() {
    // Debt by collateral is 0.85, between the LLTV of 0.80 and 1 / LIF = 0.90.
    let pos = eth_pos(100.0, 85_000.0, 0.80, 0.50);
    let lif = blended_lif(&pos, d(1_000.0));
    let (delta, full_liq) = seizure_params(&pos, d(1_000.0), d(0.0), lif);
    let (delta, lif) = (f(delta), f(lif));

    assert!(!full_liq);
    assert!(delta > 0.0 && delta < f(pos.debt));

    // Healthy once it has been seized.
    let new_debt = f(pos.debt) - delta;
    let new_col_val = 100.0 * 1_000.0 - delta * lif;
    let new_max_debt = new_col_val * 0.80;
    assert!(new_debt <= new_max_debt + 1.0);
}

#[test]
fn seizure_full_liq_when_infeasible() {
    // Debt by collateral is 0.95, above 1 / LIF: a partial seizure makes it worse.
    let pos = eth_pos(100.0, 95_000.0, 0.80, 0.50);
    let lif = blended_lif(&pos, d(1_000.0));
    let (_delta, full_liq) = seizure_params(&pos, d(1_000.0), d(0.0), lif);
    assert!(full_liq);
}

#[test]
fn post_maturity_none_before_maturity() {
    assert!(post_maturity_lif(u64::MAX, d(1.111)).is_none());
}

#[test]
fn post_maturity_full_window_returns_lif_max() {
    // Twenty minutes after maturity, the window of fifteen is over.
    let lif = f(post_maturity_lif(unix_now() - 1_200, d(1.111)).unwrap());
    assert!((lif - 1.111).abs() < 1e-4);
}

#[test]
fn post_maturity_halfway_linear_ramp() {
    // Half of the window: 1.0 + (1.111 - 1.0) * 0.5
    let lif = f(post_maturity_lif(unix_now() - 450, d(1.111)).unwrap());
    assert!((lif - 1.0555).abs() < 0.005);
}

/// Runs the engine's formulas on machine numbers.
fn expected(pos: &Position, cex: f64, oracle: f64, now: u64, gas: f64) -> Vec<f64> {
    let debt = f(pos.debt);
    let value = |px: f64| -> f64 {
        pos.legs.iter().map(|l| f(l.amount) * (px * f(l.exchange_rate))).sum()
    };
    let capacity = |px: f64| -> f64 {
        pos.legs.iter().map(|l| f(l.amount) * (px * f(l.exchange_rate)) * f(l.lltv)).sum()
    };
    let ltv = |px: f64| if capacity(px) <= 0.0 { f64::INFINITY } else { debt / capacity(px) };
    let lif_max = |l: &CollateralLeg| 1.0 / (1.0 - f(l.cursor) * (1.0 - f(l.lltv)));
    let worst = pos
        .legs
        .iter()
        .map(|l| {
            let op = oracle * f(l.exchange_rate);
            let sp = cex * f(l.exchange_rate);
            if sp < op {
                (op - sp) / op
            } else {
                0.0
            }
        })
        .fold(0.0, f64::max);
    let bad = (debt - value(cex)).max(0.0);
    let total = value(cex);
    let lif: f64 = if total <= 0.0 {
        1.0
    } else {
        pos.legs
            .iter()
            .map(|l| (f(l.amount) * (cex * f(l.exchange_rate)) / total) * lif_max(l))
            .sum()
    };
    let rem = debt - bad;
    let max_d = capacity(cex);
    let (sz, full) = if rem <= max_d {
        (0.0, false)
    } else {
        let denom = 1.0 - max_d / total * lif;
        if denom <= 0.0 {
            (rem, true)
        } else {
            let delta = (rem - max_d) / denom;
            if delta >= rem {
                (rem, true)
            } else {
                (delta.max(0.0), total - delta * lif < f(pos.rcf_threshold))
            }
        }
    };
    let seized = if full && lif > 0.0 { sz.min(total / lif) } else { sz };
    let mev = seized * (lif - 1.0) - gas;
    let overdue = now > pos.maturity_ts;
    let (dutch_lif, dutch_mev) = if overdue {
        let progress = ((now - pos.maturity_ts) as f64 / 900.0).min(1.0);
        let dl = 1.0 + (lif - 1.0) * progress;
        let take = if dl <= 1.0 || total <= 0.0 {
            0.0
        } else {
            (rem.min(total / dl) * (dl - 1.0) - gas).max(0.0)
        };
        (dl, take)
    } else {
        (-1.0, -1.0)
    };
    let flag = |b: bool| if b { 1.0 } else { 0.0 };
    vec![
        ltv(oracle),
        ltv(cex),
        worst,
        bad,
        sz,
        mev,
        lif,
        flag(worst > 0.005 && ltv(cex) > 1.0),
        flag(full),
        flag(overdue),
        dutch_lif,
        dutch_mev,
        pos.legs.iter().map(|l| f(l.lltv)).fold(0.0, f64::max),
    ]
}

fn found(a: &ShadowAnalysis) -> Vec<f64> {
    let flag = |b: bool| if b { 1.0 } else { 0.0 };
    vec![
        f(a.oracle_ltv),
        f(a.shadow_ltv),
        f(a.worst_lag_pct),
        f(a.latent_bad_debt),
        f(a.min_seizure),
        f(a.first_touch_mev),
        f(a.blended_lif),
        flag(a.cliff_imminent),
        flag(a.full_liq_required),
        flag(a.overdue),
        a.dutch_lif.map_or(-1.0, f),
        a.dutch_mev.map_or(-1.0, f),
        f(a.lltv_tier),
    ]
}

fn check(pos: &Position, cex: f64, oracle: f64, now: u64, gas: f64) -> ShadowAnalysis {
    let engine = ShadowEngine::new(d(gas));
    let a = engine.analyze_at(pos, d(cex), d(oracle), now);
    let (want, got) = (expected(pos, cex, oracle, now, gas), found(&a));
    for i in 0..want.len() {
        assert_eq!(want[i].to_bits(), got[i].to_bits(), "field {i}: {} {}", want[i], got[i]);
    }
    a
}

#[test]
fn analysis_agrees_with_machine_numbers() {
    let mut multi = multi_pos();
    for debt in [0.0, 50_000.0, 110_000.0, 112_500.0, 120_000.0, 136_000.0, 150_000.0, 1e9] {
        for floor in [0.0, 100.0, 60_000.0] {
            for (maturity, now) in [(u64::MAX, 5), (1_000, 1_000), (1_000, 1_001), (1_000, 1_450), (1_000, 5_000)] {
                for cex in [0.0, 1.0, 2_650.0, 3_184.0, 3_200.0, 3_400.0] {
                    multi.debt = d(debt);
                    multi.rcf_threshold = d(floor);
                    multi.maturity_ts = maturity;
                    check(&multi, cex, 3_200.0, now, 18.0);
                }
            }
        }
    }
}

#[test]
fn cliff_at_the_crash_bottom() {
    let mut pos = eth_pos(20.0, 20.0 * 3_200.0 * 0.740, 0.86, 0.50);
    let a = check(&pos, 2_650.0, 3_200.0, 5, 18.0);
    assert!(a.cliff_imminent && f(a.shadow_ltv) > 1.0 && f(a.oracle_ltv) <= 1.0);
    assert!(f(a.first_touch_mev) > 0.0);
    // Above the price at which it is liquidatable, there is no cliff.
    assert!(!check(&pos, 3_100.0, 3_200.0, 5, 18.0).cliff_imminent);
    // Nor is there one where the oracle does not lag.
    assert!(!check(&pos, 2_650.0, 2_650.0, 5, 18.0).cliff_imminent);
    // The threshold itself is not enough.
    pos.debt = d(1e9);
    let at = check(&pos, 995.0, 1_000.0, 5, 18.0);
    assert_eq!(f(at.worst_lag_pct), 0.005);
    assert!(f(at.shadow_ltv) > 1.0 && !at.cliff_imminent);
    assert!(check(&pos, 994.9, 1_000.0, 5, 18.0).cliff_imminent);
}

#[test]
fn nothing_is_taken_from_the_healthy() {
    let a = check(&eth_pos(100.0, 50_000.0, 0.80, 0.50), 1_000.0, 1_000.0, 5, 18.0);
    assert_eq!(f(a.min_seizure), 0.0);
    // A first touch would only cost the gas.
    assert_eq!(f(a.first_touch_mev), -18.0);
    assert!(!a.full_liq_required && !a.cliff_imminent);
}

#[test]
fn a_seizure_stays_within_the_remaining_debt() {
    for debt in [80_001.0, 85_000.0, 89_999.0, 90_000.0, 95_000.0, 100_000.0, 200_000.0] {
        let pos = eth_pos(100.0, debt, 0.80, 0.50);
        let bad = pos.bad_debt(d(1_000.0));
        let (delta, _) =
            seizure_params(&pos, d(1_000.0), bad, blended_lif(&pos, d(1_000.0)));
        assert!(f(delta) >= 0.0 && f(delta) <= debt - f(bad));
    }
}

#[test]
fn full_liquidation_where_the_incentive_eats_the_collateral() {
    // LLTV times LIF is above one.
    let pos = eth_pos(100.0, 99_500.0, 0.98, 0.50);
    let (delta, full) = seizure_params(&pos, d(1_000.0), d(0.0), d(1.5));
    assert!(full);
    assert_eq!(f(delta), 99_500.0);
}

#[test]
fn dust_allows_a_full_liquidation() {
    let mut pos = eth_pos(100.0, 85_000.0, 0.80, 0.50);
    let lif = blended_lif(&pos, d(1_000.0));
    let (delta, full) = seizure_params(&pos, d(1_000.0), d(0.0), lif);
    let residual = 100_000.0 - f(delta) * f(lif);
    assert!(!full);
    pos.rcf_threshold = d(residual);
    assert_eq!(seizure_params(&pos, d(1_000.0), d(0.0), lif).1, false);
    pos.rcf_threshold = d(residual + 1.0);
    let (dusty, full) = seizure_params(&pos, d(1_000.0), d(0.0), lif);
    assert!(full);
    assert_eq!(f(dusty), f(delta));
}

#[test]
fn takings_are_what_the_collateral_covers() {
    // In a full liquidation the seizure is limited to collateral by LIF.
    let pos = eth_pos(100.0, 95_000.0, 0.80, 0.50);
    let a = check(&pos, 1_000.0, 1_000.0, 5, 18.0);
    let lif = f(a.blended_lif);
    assert!(a.full_liq_required);
    assert_eq!(f(a.min_seizure), 95_000.0);
    assert_eq!(f(a.first_touch_mev), (100_000.0 / lif) * (lif - 1.0) - 18.0);
    // Gas above the bonus is a loss, of the gas at most.
    let loss = f(check(&pos, 1_000.0, 1_000.0, 5, 1e6).first_touch_mev);
    assert!(-1e6 <= loss && loss < 0.0);
}

#[test]
fn blended_lif_without_collateral_is_one() {
    let pos = eth_pos(100.0, 95_000.0, 0.80, 0.50);
    assert_eq!(f(blended_lif(&pos, d(0.0))), 1.0);
    let mut bare = pos;
    bare.legs = vec![];
    assert_eq!(f(blended_lif(&bare, d(3_200.0))), 1.0);
}

#[test]
fn a_single_leg_sets_the_incentive() {
    let pos = eth_pos(7.3, 50_000.0, 0.86, 0.25);
    assert_eq!(
        blended_lif(&pos, d(2_987.13)).to_bits(),
        pos.legs[0].lif_max().to_bits()
    );
}

#[test]
fn the_auction_ramps_from_one_to_the_top() {
    assert!(post_maturity_lif_at(999, 1_000, d(1.111)).is_none());
    assert!(post_maturity_lif_at(1_000, 1_000, d(1.111)).is_none());
    let mut last = 1.0;
    for now in 1_001..2_000u64 {
        let lif = f(post_maturity_lif_at(now, 1_000, d(1.111)).unwrap());
        assert_eq!(lif, 1.0 + (1.111 - 1.0) * ((now - 1_000) as f64 / 900.0).min(1.0));
        assert!(last <= lif && lif <= 1.111);
        last = lif;
    }
    assert_eq!(f(post_maturity_lif_at(1_900, 1_000, d(1.111)).unwrap()), 1.111);
    assert_eq!(f(post_maturity_lif_at(u64::MAX, 0, d(1.111)).unwrap()), 1.111);
}

#[test]
fn an_overdue_position_is_in_the_auction() {
    let mut pos = eth_pos(100.0, 50_000.0, 0.80, 0.50);
    pos.maturity_ts = 1_000;
    let a = check(&pos, 1_000.0, 1_000.0, 1_450, 18.0);
    assert!(a.overdue);
    let dl = f(a.dutch_lif.unwrap());
    assert_eq!(f(a.dutch_mev.unwrap()), 50_000.0 * (dl - 1.0) - 18.0);
    let before = check(&pos, 1_000.0, 1_000.0, 1_000, 18.0);
    assert!(!before.overdue && before.dutch_lif.is_none() && before.dutch_mev.is_none());
}

#[test]
fn seizure_leaves_debt_equal_to_capacity() {
    let pos = eth_pos(100.0, 85_000.0, 0.80, 0.50);
    let lif = blended_lif(&pos, d(1_000.0));
    let (delta, full) = seizure_params(&pos, d(1_000.0), d(0.0), lif);
    assert!(!full);
    let x = f(delta);
    let gap = (85_000.0 - x) - (80_000.0 - 0.80 * f(lif) * x);
    assert!(gap.abs() < 1e-9);
}

#[test]
fn a_tick_needs_both_prices() {
    let engine = ShadowEngine::new(d(18.0));
    let mut state = AppState::new(vec![multi_pos(), eth_pos(100.0, 85_000.0, 0.80, 0.50)]);
    engine.tick_at(&mut state, 5);
    assert!(state.analyses.is_empty());
    state.cex =
        Some(CexSnapshot { bid: d(2_649.0), ask: d(2_651.0), mid: d(2_650.0), ts: 0 });
    engine.tick(&mut state);
    assert!(state.analyses.is_empty());
    state.oracle =
        Some(OracleSnapshot { price: d(3_200.0), updated_at: 0, round_id: 1, eta_secs: None });
    engine.tick_at(&mut state, 5);
    assert_eq!(state.analyses.len(), 2);
    for (pos, a) in state.positions.iter().zip(state.analyses.iter()) {
        let want = expected(pos, 2_650.0, 3_200.0, 5, 18.0);
        assert_eq!(want, found(a));
        assert_eq!(a.market_id, pos.market_id);
    }
    // A later look replaces what was found.
    state.oracle =
        Some(OracleSnapshot { price: d(2_650.0), updated_at: 0, round_id: 2, eta_secs: None });
    engine.tick(&mut state);
    assert_eq!(state.analyses.len(), 2);
    assert!(state.analyses.iter().all(|a| !a.cliff_imminent));
}

#[test]
fn analyses_use_the_wall_clock() {
    let engine = ShadowEngine::new(d(18.0));
    let mut pos = eth_pos(100.0, 50_000.0, 0.80, 0.50);
    pos.maturity_ts = unix_now() - 10_000;
    let a = engine.analyze(&pos, d(1_000.0), d(1_000.0));
    assert!(a.overdue);
    assert_eq!(f(a.dutch_lif.unwrap()), 1.0 + (f(a.blended_lif) - 1.0));
    pos.maturity_ts = unix_now() + 10_000;
    assert!(!engine.analyze(&pos, d(1_000.0), d(1_000.0)).overdue);
}

#[test]
fn the_blended_incentive_is_an_average() {
    let mut pos = multi_pos();
    pos.legs.push(held("wBTC", 0.3, 0.77, 0.25, 30.0));
    for px in [1.0, 2_650.0, 3_199.99] {
        let lif = f(blended_lif(&pos, d(px)));
        let each: Vec<f64> = pos.legs.iter().map(|l| f(l.lif_max())).collect();
        let lo = each.iter().cloned().fold(f64::INFINITY, f64::min);
        let hi = each.iter().cloned().fold(0.0, f64::max);
        let slack = 20.0 / 9_007_199_254_740_992.0;
        assert!(lo * (1.0 - slack) <= lif && lif <= hi * (1.0 + slack));
    }
}

#[test]
fn written_off_debt_stays_within_the_debt() {
    for debt in [1.0, 99_999.9, 100_000.0, 100_000.1, 1e9] {
        let pos = eth_pos(100.0, debt, 0.80, 0.50);
        let remaining = debt - f(pos.bad_debt(d(1_000.0)));
        assert!(0.0 <= remaining && remaining <= debt);
        if debt <= 100_000.0 {
            assert_eq!(remaining, debt);
        }
    }
}

#[test]
fn the_auction_takes_no_more_than_is_covered() {
    let mut pos = eth_pos(100.0, 95_000.0, 0.80, 0.50);
    pos.maturity_ts = 1_000;
    let a = check(&pos, 1_000.0, 1_000.0, 9_000, 18.0);
    let dl = f(a.dutch_lif.unwrap());
    let covered = (100_000.0 / dl) * (dl - 1.0) - 18.0;
    assert_eq!(f(a.dutch_mev.unwrap()), covered);
    assert!(covered < 95_000.0 * (dl - 1.0) - 18.0);
}

#[test]
fn a_second_look_finds_the_same() {
    let engine = ShadowEngine::new(d(18.0));
    let mut state = AppState::new(vec![multi_pos()]);
    state.cex = Some(CexSnapshot { bid: d(1.0), ask: d(1.0), mid: d(2_650.0), ts: 0 });
    state.oracle =
        Some(OracleSnapshot { price: d(3_200.0), updated_at: 0, round_id: 1, eta_secs: None });
    engine.tick_at(&mut state, 5);
    let once: Vec<Vec<f64>> = state.analyses.iter().map(found).collect();
    engine.tick_at(&mut state, 5);
    let twice: Vec<Vec<f64>> = state.analyses.iter().map(found).collect();
    assert_eq!(once, twice);
}

#[test]
fn the_blended_incentive_ignores_the_price() {
    let pos = multi_pos();
    let at = |px: f64| f(blended_lif(&pos, d(px)));
    for px in [0.01, 1.0, 2_650.0, 3_199.99, 1e12] {
        let slack = 48.0 / 9_007_199_254_740_992.0;
        assert!((at(px) / at(3_200.0) - 1.0).abs() <= slack);
    }
    // What the legs weigh: 30 and 21.4.
    let average = (30.0 / 0.93 + 20.0 * 1.07 / 0.90) / (30.0 + 20.0 * 1.07);
    assert!((at(2_650.0) - average).abs() < 1e-12);
    assert_eq!(at(0.0), 1.0);
}

#[test]
fn a_first_touch_loses_the_gas_at_most() {
    for debt in [50_000.0, 80_001.0, 85_000.0, 95_000.0] {
        let a = check(&eth_pos(100.0, debt, 0.80, 0.50), 1_000.0, 1_000.0, 5, 18.0);
        assert!(f(a.first_touch_mev) >= -18.0);
    }
}

#[test]
fn the_auction_ramps_to_any_incentive() {
    for top in [1.0, 1.5, 1e16, 1e300, f64::MAX, f64::INFINITY] {
        let end = 1.0 + (top - 1.0);
        let mut last = 1.0;
        for now in [1_001u64, 1_002, 1_450, 1_899, 1_900, 9_000] {
            let lif = f(post_maturity_lif_at(now, 1_000, d(top)).unwrap());
            assert!(last <= lif && lif <= end);
            last = lif;
        }
        assert_eq!(last, end);
    }
}

#[test]
fn many_legs_have_an_average_incentive() {
    let mut pos = multi_pos();
    for i in 0..4_000u64 {
        let lltv = if i % 2 == 0 { 0.86 } else { 0.80 };
        pos.legs.push(held("leg", 1.0 + i as f64 * 0.37, lltv, 0.50, 1.0));
    }
    let at = |px: f64| f(blended_lif(&pos, d(px)));
    let slack = (4.0 * 4_002.0 + 16.0) / 9_007_199_254_740_992.0;
    let (lo, hi) = (1.0 / 0.93, 1.0 / 0.90);
    assert!(lo * (1.0 - slack) <= at(2_650.0) && at(2_650.0) <= hi * (1.0 + slack));
    assert!((at(2_650.0) / at(3_200.0) - 1.0).abs() <= 3.0 * slack);
}
