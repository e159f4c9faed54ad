use std::time::Duration;

use midnight_shadow::binary64::double::Double;
use midnight_shadow::feeds::cex::{crash_price, stream_url, take_frame, CexFeed, Frame, Reply};
use midnight_shadow::feeds::oracle::{
    delay_fits, stochastic_fire_delay, OracleFeed, Pending, SimOracle,
};
use midnight_shadow::markets::SimConfig;
use midnight_shadow::types::{AppState, CexSnapshot};

fn d(x: f64) -> Double {
    Double::from_bits(x.to_bits())
}

fn f(x: Double) -> f64 {
    f64::from_bits(x.to_bits())
}

const SEC: u128 = 1_000_000_000;

fn crash() -> SimConfig {
    SimConfig { crash_top_px: d(3_200.0), crash_bottom_px: d(2_650.0), cycle_secs: d(300.0) }
}

fn quote(mid: f64) -> CexSnapshot {
    CexSnapshot { bid: d(mid), ask: d(mid), mid: d(mid), ts: 0 }
}

#[test]
fn the_pair_is_lowercase_in_the_address() {
    let feed = CexFeed::new("ETHUSDC".into(), false, crash());
    assert_eq!(feed.pair, "ethusdc");
    assert!(!feed.sim);
    assert_eq!(feed.url(), "wss://stream.binance.com:9443/ws/ethusdc@bookTicker");
    assert_eq!(stream_url("btcusdt"), "wss://stream.binance.com:9443/ws/btcusdt@bookTicker");
}

#[test]
fn phases_of_the_crash() {
    let cfg = crash();
    let at = |t: f64| f(crash_price(d(t), &cfg));
    assert_eq!(at(0.0), 3_200.0);
    assert_eq!(at(19.999), 3_200.0);
    assert_eq!(at(20.0), 3_200.0);
    assert_eq!(at(50.0), 3_200.0 - 550.0 * 0.5);
    assert_eq!(at(79.5), 3_200.0 - 550.0 * (59.5 / 60.0));
    assert_eq!(at(80.0), 2_650.0);
    assert_eq!(at(160.0), 2_650.0 + 550.0 * 0.12 * 0.5);
    assert_eq!(at(240.0), 2_650.0 + 550.0 * 0.12);
    assert_eq!(at(299.0), 2_650.0 + 550.0 * 0.12);
}

#[test]
fn the_crash_repeats_itself() {
    let cfg = crash();
    for t in [0.0, 12.5, 33.25, 61.0, 100.0, 239.5, 270.0] {
        let once = crash_price(d(t), &cfg).to_bits();
        assert_eq!(once, crash_price(d(t + 300.0), &cfg).to_bits());
        assert_eq!(once, crash_price(d(t + 3_000.0), &cfg).to_bits());
    }
}

#[test]
fn the_crash_stays_in_its_range() {
    let cfg = crash();
    for i in 0..3_000u64 {
        let px = f(crash_price(d(i as f64 * 0.13), &cfg));
        assert!((2_650.0..=3_200.0).contains(&px));
    }
}

#[test]
fn a_sample_of_the_crash_is_a_quote() {
    let feed = CexFeed::new("ETHUSDC".into(), true, crash());
    let mut state = AppState::default();
    feed.crash_step(d(50.0), &mut state, 77);
    let q = state.cex.unwrap();
    assert_eq!(f(q.mid), 2_925.0);
    assert_eq!(f(q.bid), 2_925.0 * (1.0 - 0.00008));
    assert_eq!(f(q.ask), 2_925.0 * (1.0 + 0.00008));
    assert_eq!(q.ts, 77);
    assert!(f(q.bid) <= f(q.mid) && f(q.mid) <= f(q.ask));
}

#[test]
fn a_ticker_sets_the_quote() {
    let mut state = AppState::default();
    let frame = Frame::Ticker { bid: Some(d(2_651.56)), ask: Some(d(2_652.08)) };
    assert_eq!(take_frame(frame, &mut state, 9), Reply::Quoted);
    let q = state.cex.clone().unwrap();
    assert_eq!(f(q.bid), 2_651.56);
    assert_eq!(f(q.ask), 2_652.08);
    assert_eq!(f(q.mid), (2_651.56 + 2_652.08) / 2.0);
    assert_eq!(q.ts, 9);
}

#[test]
fn other_frames_leave_the_quote_alone() {
    let mut state = AppState::default();
    state.cex = Some(quote(3_000.0));
    let one = Some(d(1.0));
    for (frame, reply) in [
        (Frame::Ticker { bid: None, ask: one }, Reply::Skip),
        (Frame::Ticker { bid: one, ask: None }, Reply::Skip),
        (Frame::Ticker { bid: Some(d(0.0)), ask: one }, Reply::Skip),
        (Frame::Ticker { bid: one, ask: Some(d(-1.0)) }, Reply::Skip),
        (Frame::Ticker { bid: one, ask: Some(d(f64::NAN)) }, Reply::Skip),
        (Frame::Noise, Reply::Skip),
        (Frame::Other, Reply::Skip),
        (Frame::Ping, Reply::Pong),
        (Frame::Closed, Reply::Stop),
        (Frame::Failed, Reply::Stop),
    ] {
        assert_eq!(take_frame(frame, &mut state, 9), reply);
        assert_eq!(f(state.cex.clone().unwrap().mid), 3_000.0);
    }
}

#[test]
fn waits_vary_around_the_mean() {
    for lag in [0u64, 5, 10, 17, 25, 180, 3_600, 1_000_000_007] {
        for seed in [0u64, 1, 250, 499, 500, 501, 999, 1_000, u64::MAX] {
            let base = lag as f64;
            let jitter = ((seed % 1000) as f64 / 1000.0 - 0.5) * 0.8 * base;
            let want = Duration::from_secs_f64(base + jitter);
            assert!(delay_fits(lag, seed));
            let got = stochastic_fire_delay(lag, seed);
            assert_eq!(got, want.as_nanos());
            let secs = got as f64 / 1e9;
            assert!(secs >= 0.6 * base * (1.0 - 1e-12));
            assert!(secs <= 1.4 * base * (1.0 + 1e-12));
        }
    }
    assert_eq!(stochastic_fire_delay(180, 500), 180 * SEC);
    assert_eq!(stochastic_fire_delay(180, 0), 108 * SEC);
    assert_eq!(stochastic_fire_delay(5, 500), 5 * SEC);
    assert_eq!(stochastic_fire_delay(5, 0), 3 * SEC);
    assert_eq!(stochastic_fire_delay(0, 999), 0);
}

#[test]
fn waits_that_do_not_fit() {
    assert!(!delay_fits(u64::MAX, 999));
    assert!(delay_fits(u64::MAX, 0));
    let feed = OracleFeed::new(true, u64::MAX);
    let mut state = AppState::default();
    let sim = feed.start(&mut state, 0);
    // The seed of the first round at this price is 1 ^ 3200 ^ 1.
    assert_eq!(feed.can_step(&sim, d(1.0)), delay_fits(u64::MAX, 1 ^ 3_200 ^ 1));
    // Nothing is drawn where nothing falls due.
    assert!(feed.can_step(&sim, d(3_200.0)));
}

#[test]
fn rounds_that_cannot_be_counted() {
    let feed = OracleFeed::new(true, 180);
    let sim =
        SimOracle { price: d(3_200.0), last_update: 0, round_id: u64::MAX, pending: None };
    assert!(!feed.can_step(&sim, d(3_200.0)));
}

#[test]
fn the_oracle_starts_at_once() {
    let feed = OracleFeed::new(true, 180);
    assert!(feed.sim);
    assert_eq!(feed.lag_secs, 180);
    let mut state = AppState::default();
    let sim = feed.start(&mut state, 42);
    let seen = state.oracle.unwrap();
    assert_eq!(f(seen.price), 3_200.0);
    assert_eq!((seen.updated_at, seen.round_id), (42, 1));
    assert!(seen.eta_secs.is_none());
    assert!(sim.pending.is_none());
}

#[test]
fn the_oracle_waits_for_the_exchange() {
    let feed = OracleFeed::new(true, 180);
    let mut state = AppState::default();
    let mut sim = feed.start(&mut state, 0);
    feed.poll(&mut sim, &mut state, 5 * SEC);
    assert!(state.cex.is_none());
    assert_eq!(sim.round_id, 1);
}

#[test]
fn an_update_from_breach_to_fire() {
    let feed = OracleFeed::new(true, 180);
    let mut state = AppState::default();
    let mut sim = feed.start(&mut state, 0);

    // Just short of the threshold nothing falls due.
    state.cex = Some(quote(3_184.5));
    feed.poll(&mut sim, &mut state, SEC);
    assert!(sim.pending.is_none());
    assert!(state.oracle.clone().unwrap().eta_secs.is_none());

    // At it an update falls due.
    state.cex = Some(quote(3_184.0));
    feed.poll(&mut sim, &mut state, 2 * SEC);
    let seed = 1u64 ^ 3_200 ^ 3_184;
    let delay = stochastic_fire_delay(180, seed);
    let p: Pending = sim.pending.unwrap();
    assert_eq!((p.since, p.delay), (2 * SEC, delay));
    let eta = f(state.oracle.clone().unwrap().eta_secs.unwrap());
    assert_eq!(eta, Duration::from_nanos(delay as u64).as_secs_f64());

    // It keeps its wait while the price falls on.
    state.cex = Some(quote(2_650.0));
    feed.poll(&mut sim, &mut state, 3 * SEC);
    assert_eq!(sim.pending.unwrap().delay, delay);
    let eta = f(state.oracle.clone().unwrap().eta_secs.unwrap());
    assert_eq!(eta, Duration::from_nanos((delay - SEC) as u64).as_secs_f64());

    // A nanosecond early it does not come.
    feed.poll(&mut sim, &mut state, 2 * SEC + delay - 1);
    assert_eq!(sim.round_id, 1);
    assert_eq!(f(state.oracle.clone().unwrap().price), 3_200.0);

    // Then it does.
    feed.poll(&mut sim, &mut state, 2 * SEC + delay);
    let seen = state.oracle.clone().unwrap();
    assert_eq!(f(seen.price), 2_650.0);
    assert_eq!((seen.updated_at, seen.round_id), (2 * SEC + delay, 2));
    assert!(seen.eta_secs.is_none() && sim.pending.is_none());
}

#[test]
fn a_recovery_calls_the_update_off() {
    let feed = OracleFeed::new(true, 180);
    let mut state = AppState::default();
    let mut sim = feed.start(&mut state, 0);
    feed.step(&mut sim, d(3_100.0), SEC);
    assert!(sim.pending.is_some());
    // Between the two levels it stays due.
    feed.step(&mut sim, d(3_186.0), 2 * SEC);
    assert!(sim.pending.is_some());
    // Below the lower one it does not.
    let seen = feed.step(&mut sim, d(3_188.0), 3 * SEC);
    assert!(sim.pending.is_none() && seen.eta_secs.is_none());
    assert_eq!(f(seen.price), 3_200.0);
}

#[test]
fn a_rally_never_moves_the_oracle() {
    let feed = OracleFeed::new(true, 180);
    let mut state = AppState::default();
    let mut sim = feed.start(&mut state, 0);
    for i in 1..100u64 {
        let seen = feed.step(&mut sim, d(3_200.0 + i as f64 * 10.0), i as u128 * 1_000 * SEC);
        assert_eq!((f(seen.price), seen.round_id, seen.updated_at), (3_200.0, 1, 0));
        assert!(sim.pending.is_none());
    }
}

#[test]
fn the_crash_falls_and_recovers() {
    let cfg = crash();
    let at = |t: f64| f(crash_price(d(t), &cfg));
    let mut t = 20.0;
    while t + 0.37 < 80.0 {
        assert!(at(t + 0.37) <= at(t));
        t += 0.37;
    }
    assert_eq!(at(80.0), 2_650.0);
    t = 80.0;
    while t + 0.37 < 300.0 {
        assert!(at(t) <= at(t + 0.37));
        t += 0.37;
    }
}

#[test]
fn the_crash_comes_round() {
    let cfg = crash();
    for k in [1.0, 2.0, 1_000.0, 1e6] {
        for t in [0.0, 20.0, 33.25, 80.0, 100.5, 299.75] {
            assert_eq!(
                crash_price(d(t + k * 300.0), &cfg).to_bits(),
                crash_price(d(t), &cfg).to_bits()
            );
        }
    }
}

#[test]
fn a_crash_below_zero() {
    let cfg = SimConfig { crash_top_px: d(-10.0), crash_bottom_px: d(-20.0), cycle_secs: d(300.0) };
    let at = |t: f64| f(crash_price(d(t), &cfg));
    assert_eq!((at(0.0), at(20.0), at(50.0), at(80.0)), (-10.0, -10.0, -15.0, -20.0));
    assert_eq!(at(299.0), -20.0 + 10.0 * 0.12);
    for i in 0..3_000u64 {
        assert!((-20.0..=-10.0).contains(&at(i as f64 * 0.1)));
    }
}

#[test]
fn the_spread_of_the_crash() {
    let feed = CexFeed::new("ETHUSDC".into(), true, crash());
    let mut state = AppState::default();
    for t in [0.0, 31.0, 80.0, 200.0, 299.0] {
        feed.crash_step(d(t), &mut state, 0);
        let q = state.cex.clone().unwrap();
        assert!(f(q.bid) < f(q.mid) && f(q.mid) < f(q.ask));
        assert!((f(q.spread_bps()) - 1.6).abs() < 1e-9);
    }
}

#[test]
fn waits_grow_with_the_seed() {
    for lag in [1u64, 5, 17, 180, 1_000_000] {
        let mut last = stochastic_fire_delay(lag, 0);
        for seed in 1..1_000u64 {
            let next = stochastic_fire_delay(lag, seed);
            assert!(last < next);
            assert_eq!(next, stochastic_fire_delay(lag, seed + 123_000));
            let want = (seed + 750) as f64 / 1_250.0 * lag as f64;
            assert!((next as f64 / 1e9 - want).abs() < 1e-6);
            last = next;
        }
        assert_eq!(stochastic_fire_delay(lag, 500), lag as u128 * SEC);
    }
}
