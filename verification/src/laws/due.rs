//! When the simulated oracle's updates fall due, how long they wait, and when they come.

use vstd::arithmetic::power2::*;
use vstd::prelude::*;

use crate::binary64::double::lemma_whole_exact;
use crate::binary64::model::{nearest, one_in_quanta, round_mag, Value};
use crate::binary64::order::{
    lemma_minus_quanta, lemma_over_error, lemma_plus_error, lemma_plus_quanta, lemma_product_error,
    lemma_round_error, lemma_round_le, lemma_zero_significant, positive,
};
use crate::binary64::rounding::{lemma_nearest, lemma_pow2_ordered};
use crate::clock::{span_secs, SPAN_END};
use crate::feeds::oracle::{fire_delay, fire_delay_fits, fire_secs, Pending, SimModel};
use crate::laws::auction::lemma_whole_ordered;
use crate::laws::oracle::{law_reset_below_threshold, law_wait_is_near_the_mean, lemma_wait_fits};
use crate::laws::wait::law_wait_follows_the_seed;
use crate::laws::worth::is_amount;
use crate::types::OracleModel;

verus! {

/// Whatever the round: with nothing pending, an update falls due exactly where the exchange has
/// fallen by half a percent of the oracle price or more. It then waits from now on, as the round
/// and the two prices have it, or comes at once where there is nothing to wait for. Otherwise
/// nothing changes.
pub proof fn law_update_falls_due(sim: SimModel, lag_secs: u64, cex_px: Value, now: u128)
    requires
        sim.pending is None,
        sim.round_id < u64::MAX,
        fire_delay_fits(
            lag_secs,
            sim.round_id ^ (sim.price.to_u64() as u64) ^ (cex_px.to_u64() as u64),
        ),
    ensures
        ({
            let fallen = cex_px.lt(sim.price) && Value::ratio(5, 1000).le(
                sim.price.minus(cex_px).over(sim.price),
            );
            let delay = fire_delay(
                lag_secs,
                sim.round_id ^ (sim.price.to_u64() as u64) ^ (cex_px.to_u64() as u64),
            );
            let next = sim.step(lag_secs, cex_px, now);
            &&& fallen && delay > 0 ==> {
                &&& next.pending is Some
                &&& next.pending->0.since == now
                &&& next.pending->0.delay == delay
                &&& next.price == sim.price
                &&& next.last_update == sim.last_update
                &&& next.round_id == sim.round_id
            }
            &&& fallen && delay == 0 ==> {
                &&& next.pending is None
                &&& next.price == cex_px
                &&& next.last_update == now
                &&& next.round_id == sim.round_id + 1
            }
            &&& !fallen ==> next == sim
        }),
{
    let seed = sim.round_id ^ (sim.price.to_u64() as u64) ^ (cex_px.to_u64() as u64);
    law_reset_below_threshold();
    lemma_wait_fits(lag_secs, seed);
}

/// While an update is pending: it is called off exactly where the exchange is less than eight
/// tenths of half a percent below the oracle; otherwise it comes exactly once it has waited, and
/// until then nothing changes.
pub proof fn law_update_comes(
    sim: SimModel,
    lag_secs: u64,
    cex_px: Value,
    now: u128,
    due: Pending,
)
    requires
        sim.pending == Some(due),
        sim.round_id < u64::MAX,
    ensures
        ({
            let recovered = !cex_px.lt(sim.price) || sim.price.minus(cex_px).over(sim.price).lt(
                Value::ratio(5, 1000).times(Value::ratio(8, 10)),
            );
            let waited = now >= due.since && now - due.since >= due.delay || due.delay == 0;
            let next = sim.step(lag_secs, cex_px, now);
            &&& recovered ==> next == (SimModel { pending: None, ..sim })
            &&& !recovered && waited ==> {
                &&& next.pending is None
                &&& next.price == cex_px
                &&& next.last_update == now
                &&& next.round_id == sim.round_id + 1
            }
            &&& !recovered && !waited ==> next == sim
        }),
{
    law_reset_below_threshold();
}

/// The oracle starts at 3200, in the first round, with nothing pending, and is seen so.
pub proof fn law_oracle_starts(now: u128)
    ensures
        ({
            let sim = SimModel::started(now);
            &&& sim.price is Fin
            &&& sim.price.quanta() == 3200 * one_in_quanta()
            &&& sim.last_update == now
            &&& sim.round_id == 1
            &&& sim.pending is None
            &&& sim.snapshot(now) == (OracleModel {
                price: sim.price,
                updated_at: now,
                round_id: 1,
                eta_secs: None,
            })
        }),
{
    lemma_whole_exact(3200);
}

/// A wait with a mean of up to 2 to the power 63 seconds fits a span of time, whatever the seed.
/// With such a mean a step can be taken at any price while rounds can be counted.
pub proof fn law_waits_fit(sim: SimModel, lag_secs: u64, rng_seed: u64, cex_px: Value)
    requires
        lag_secs <= 0x8000_0000_0000_0000,
    ensures
        fire_delay_fits(lag_secs, rng_seed),
        sim.can_step(lag_secs, cex_px) <==> sim.round_id < u64::MAX,
{
    lemma_mean_fits(lag_secs, rng_seed);
    lemma_mean_fits(lag_secs, sim.seed(cex_px));
}

proof fn lemma_mean_fits(lag_secs: u64, rng_seed: u64)
    requires
        lag_secs <= 0x8000_0000_0000_0000,
    ensures
        fire_delay_fits(lag_secs, rng_seed),
{
    let c: int = 0x20_0000_0000_0000;
    let u = one_in_quanta() as int;
    let secs = fire_secs(lag_secs, rng_seed);
    let s = secs.quanta();
    let lag = lag_secs as int;
    lemma_zero_significant();
    lemma2_to64();
    lemma2_to64_rest();
    law_wait_is_near_the_mean(lag_secs, rng_seed);
    let mean = lag * u;
    let half: int = 0x8000_0000_0000_0000;
    let hu = half * u;
    assert(0 <= mean <= hu && hu > 0) by (nonlinear_arith)
        requires
            mean == lag * u,
            hu == half * u,
            0 <= lag <= half,
            half > 0,
            u > 0,
    ;
    assert(s < 2 * hu) by (nonlinear_arith)
        requires
            (5 * c) * s <= (7 * (c + 8)) * mean,
            c == 0x20_0000_0000_0000,
            0 <= mean <= hu,
            hu > 0,
    ;
    assert(pow2(64) * u == 2 * hu) by (nonlinear_arith)
        requires
            pow2(64) == 2 * half,
            hu == half * u,
    ;
}

/// A wait with a mean above zero, in nanoseconds.
proof fn lemma_delay(lag_secs: u64, rng_seed: u64)
    requires
        lag_secs > 0,
        fire_delay_fits(lag_secs, rng_seed),
    ensures
        ({
            let delay = fire_delay(lag_secs, rng_seed) as int;
            let off = 1250 * delay - (rng_seed % 1000 + 750) * (lag_secs * 1_000_000_000);
            let slack = 625 * 0x20_0000_0000_0000int + 32_768 * (lag_secs * 1_000_000_000);
            -slack <= 0x20_0000_0000_0000 * off <= slack
        }),
{
    let c: int = 0x20_0000_0000_0000;
    let u = one_in_quanta() as int;
    let secs = fire_secs(lag_secs, rng_seed);
    let s = secs.quanta();
    let g: int = 1_000_000_000;
    lemma_zero_significant();
    law_wait_follows_the_seed(lag_secs, rng_seed);
    let n = (s * g) as nat;
    lemma_nearest(n, u as nat);
    let m = nearest(n, u as nat) as int;
    assert(m == fire_delay(lag_secs, rng_seed));
    let mu = m * u;
    assert((2 * m - 1) * u == 2 * mu - u && (2 * m + 1) * u == 2 * mu + u) by (nonlinear_arith)
        requires
            mu == m * u,
    ;
    let lag = lag_secs as int;
    let mean = lag * u;
    let k = (rng_seed % 1000 + 750) as int;
    let km = k * mean;
    let off = 1250 * m - k * (lag * g);
    let lg = lag * g;
    assert(off * u == 1250 * mu - g * km) by (nonlinear_arith)
        requires
            off == 1250 * m - k * (lag * g),
            mu == m * u,
            km == k * (lag * u),
    ;
    let t = c * off;
    assert(t * u == c * (off * u)) by (nonlinear_arith)
        requires
            t == c * off,
    ;
    let slack = 625 * c + 32_768 * lg;
    assert(slack * u == (625 * c) * u + 32_768 * (g * mean)) by (nonlinear_arith)
        requires
            slack == 625 * c + 32_768 * lg,
            lg == lag * g,
            mean == lag * u,
    ;
    assert(-(slack * u) <= t * u <= slack * u);
    assert(-slack <= t <= slack) by (nonlinear_arith)
        requires
            -(slack * u) <= t * u <= slack * u,
            u > 0,
    ;
}

/// How many nanoseconds an update waits: `(r + 750) / 1250` of the mean, `r` being the last three
/// digits of the seed, up to one part in 2 to the power 38 and half a nanosecond.
pub proof fn law_delay_in_exact_numbers(lag_secs: u64, rng_seed: u64)
    requires
        fire_delay_fits(lag_secs, rng_seed),
    ensures
        ({
            let delay = fire_delay(lag_secs, rng_seed) as int;
            let off = 1250 * delay - (rng_seed % 1000 + 750) * (lag_secs * 1_000_000_000);
            let slack = 625 * 0x20_0000_0000_0000int + 32_768 * (lag_secs * 1_000_000_000);
            -slack <= 0x20_0000_0000_0000 * off <= slack
        }),
{
    if lag_secs > 0 {
        lemma_delay(lag_secs, rng_seed);
    } else {
        let c: int = 0x20_0000_0000_0000;
        let u = one_in_quanta();
        let s = fire_secs(lag_secs, rng_seed).quanta();
        lemma_zero_significant();
        law_wait_is_near_the_mean(lag_secs, rng_seed);
        assert((7 * (c + 8)) * (lag_secs * u) == 0) by (nonlinear_arith)
            requires
                lag_secs == 0,
        ;
        assert(s == 0);
        lemma_nearest(0, u);
        let m = nearest(0, u) as int;
        assert(m == 0) by (nonlinear_arith)
            requires
                (2 * m - 1) * u <= 0,
                m >= 0,
                u > 0,
        ;
        assert((rng_seed % 1000 + 750) * (lag_secs * 1_000_000_000) == 0) by (nonlinear_arith)
            requires
                lag_secs == 0,
        ;
    }
}

/// A span in seconds is its nanoseconds by a thousand million, up to a few roundings.
pub proof fn law_span_in_exact_numbers(nanos: nat)
    requires
        nanos < SPAN_END,
    ensures
        ({
            let c = 0x20_0000_0000_0000int;
            let u = one_in_quanta() as int;
            let secs = span_secs(nanos);
            let slack = 8 * (nanos * u) + 2_000_000_000 * c;
            &&& is_amount(secs)
            &&& -slack <= c * (1_000_000_000 * secs.quanta() - nanos * u) <= slack
        }),
{
    let c: int = 0x20_0000_0000_0000;
    let u = one_in_quanta() as int;
    let g: int = 1_000_000_000;
    let whole = nanos / 1_000_000_000;
    let rest = nanos % 1_000_000_000;
    lemma_zero_significant();
    lemma2_to64();
    lemma2_to64_rest();
    lemma_whole_exact(1_000_000_000);
    lemma_whole_exact(rest);
    lemma_whole_ordered(0, whole);
    lemma_whole_ordered(whole, 0x1_0000_0000_0000_0000);
    lemma_round_error(whole * u as nat, 1);
    let w = Value::whole(whole);
    let wq = w.quanta();
    let wu = (whole * u as nat) as int;
    assert(-wu <= c * (wq - wu) <= wu);
    let billion = Value::whole(1_000_000_000);
    let r = Value::whole(rest);
    let ru = (rest * u as nat) as int;
    assert(positive(billion));
    lemma_over_error(r, billion);
    let f = r.over(billion);
    let x = ru as nat;
    let d = (g * u) as nat;
    let fq = round_mag(x * u as nat, d) as int;
    assert(x * u as nat <= u as nat * d) by (nonlinear_arith)
        requires
            x == rest * u as nat,
            rest < 1_000_000_000,
            d == 1_000_000_000 * u,
            u > 0,
    ;
    lemma_round_le(x * u as nat, d, u as nat);
    lemma_pow2_strictly_increases(1074, 2098);
    assert(f is Fin && f.quanta() == fq);
    let off = (2 * c) * (g * fq - ru);
    let bound = 2 * ru + g * c;
    let gap = g * fq - ru;
    assert(fq * (g * u) - ru * u == gap * u) by (nonlinear_arith)
        requires
            gap == g * fq - ru,
    ;
    assert((2 * c) * (gap * u) == off * u) by (nonlinear_arith)
        requires
            off == (2 * c) * gap,
    ;
    assert(2 * (ru * u) + c * (g * u) == bound * u) by (nonlinear_arith)
        requires
            bound == 2 * ru + g * c,
    ;
    assert(-bound <= off <= bound) by (nonlinear_arith)
        requires
            -(bound * u) <= off * u <= bound * u,
            u > 0,
    ;
    // the sum
    let s = (wq + fq) as nat;
    lemma_pow2_adds(68, 1074);
    lemma_pow2_adds(4, 64);
    lemma_pow2_strictly_increases(1142, 2098);
    assert(wu <= 0x1_0000_0000_0000_0000 * u) by (nonlinear_arith)
        requires
            wu == whole * u as nat,
            whole <= 0x1_0000_0000_0000_0000,
            u > 0,
    ;
    lemma_round_error(s, 1);
    let end: int = 0x10_0000_0000_0000_0000;
    assert(pow2(1142) == end * u) by (nonlinear_arith)
        requires
            pow2(1142) == pow2(68) * u,
            pow2(68) == 16 * pow2(64),
            pow2(64) == 0x1_0000_0000_0000_0000,
            end == 0x10_0000_0000_0000_0000,
    ;
    assert(wq <= 2 * wu && fq <= u);
    assert(round_mag(s, 1) <= 2 * s);
    lemma_plus_quanta(w, f);
    lemma_plus_error(w, f);
    assert(nanos * u == g * wu + ru) by (nonlinear_arith)
        requires
            nanos == 1_000_000_000 * whole + rest,
            wu == whole * u as nat,
            ru == rest * u as nat,
            g == 1_000_000_000,
            u > 0,
    ;
    assert(ru >= 0 && wu >= 0) by (nonlinear_arith)
        requires
            wu == whole * u as nat,
            ru == rest * u as nat,
            u > 0,
    ;
}

/// The age of a snapshot is the time since its update, in seconds.
pub proof fn law_age_in_exact_numbers(seen: OracleModel, now: u128)
    requires
        seen.updated_at <= now,
        now - seen.updated_at < SPAN_END,
    ensures
        ({
            let c = 0x20_0000_0000_0000int;
            let u = one_in_quanta() as int;
            let nanos = now - seen.updated_at;
            let age = seen.age_secs_at(now);
            let slack = 8 * (nanos * u) + 2_000_000_000 * c;
            &&& is_amount(age)
            &&& -slack <= c * (1_000_000_000 * age.quanta() - nanos * u) <= slack
        }),
{
    law_span_in_exact_numbers((now - seen.updated_at) as nat);
}

/// How far the exchange has fallen, against half a percent and against four tenths of a percent.
proof fn lemma_fall(price: Value, cex_px: Value)
    requires
        positive(price),
        price.is_double(),
        is_amount(cex_px),
        cex_px.quanta() < price.quanta(),
    ensures
        ({
            let c = 0x20_0000_0000_0000int;
            let o = price.quanta();
            let f = 1000 * (o - cex_px.quanta());
            let lag = price.minus(cex_px).over(price);
            &&& lag is Fin
            &&& c * (f - 5 * o) >= 8192 * o ==> Value::ratio(5, 1000).le(lag)
            &&& c * (f - 5 * o) <= -8192 * o ==> lag.lt(Value::ratio(5, 1000))
            &&& c * (f - 4 * o) >= 16_384 * o ==> !lag.lt(
                Value::ratio(5, 1000).times(Value::ratio(8, 10)),
            )
            &&& c * (f - 4 * o) <= -16_384 * o ==> lag.lt(
                Value::ratio(5, 1000).times(Value::ratio(8, 10)),
            )
        }),
{
    let c: int = 0x20_0000_0000_0000;
    let u = one_in_quanta() as int;
    let o = price.quanta();
    let s = cex_px.quanta();
    lemma_zero_significant();
    lemma2_to64_rest();
    lemma_pow2_ordered(63, 1074);
    assert(cex_px.negated().quanta() == -s);
    lemma_round_le((o - s) as nat, 1, o as nat);
    lemma_minus_quanta(price, cex_px);
    lemma_plus_error(price, cex_px.negated());
    let diff = price.minus(cex_px);
    let d = diff.quanta();
    lemma_over_error(diff, price);
    let q = round_mag(d as nat * u as nat, o as nat) as int;
    assert(d as nat * u as nat <= u as nat * o as nat) by (nonlinear_arith)
        requires
            0 <= d <= o,
            u > 0,
    ;
    lemma_round_le(d as nat * u as nat, o as nat, u as nat);
    lemma_pow2_strictly_increases(1074, 2098);
    let lag = diff.over(price);
    assert(lag is Fin && lag.quanta() == q);
    // the lag, against the fall
    let qo = q * o;
    let du = d * u;
    let ou = o * u;
    let fu = (o - s) * u;
    let a1 = c * (d - (o - s));
    assert(-ou <= a1 * u <= ou && 0 <= du <= ou && c * o <= ou) by (nonlinear_arith)
        requires
            -(o - s) <= a1 <= o - s,
            o - s <= o,
            0 <= d <= o,
            du == d * u,
            ou == o * u,
            u >= c,
            o > 0,
            c > 0,
    ;
    assert(a1 * u == c * (du - fu)) by (nonlinear_arith)
        requires
            a1 == c * (d - (o - s)),
            du == d * u,
            fu == (o - s) * u,
    ;
    assert(-(3 * ou) <= c * (qo - fu) <= 3 * ou);
    // the threshold
    lemma_round_error((5 * u) as nat, 1000);
    lemma_round_le((5 * u) as nat, 1000, u as nat);
    let tau = Value::ratio(5, 1000);
    let t = tau.quanta();
    assert(tau is Fin && -(5 * u) <= c * (1000 * t - 5 * u) <= 5 * u);
    let ot = o * t;
    let a2 = c * (1000 * t - 5 * u);
    assert(-(5 * ou) <= o * a2 <= 5 * ou) by (nonlinear_arith)
        requires
            -(5 * u) <= a2 <= 5 * u,
            ou == o * u,
            o > 0,
    ;
    assert(o * a2 == c * (1000 * ot - 5 * ou)) by (nonlinear_arith)
        requires
            a2 == c * (1000 * t - 5 * u),
            ot == o * t,
            ou == o * u,
    ;
    lemma_compare(c, u, o, o - s, q, t, 5, 8192);
    // the lower level
    lemma_round_error((8 * u) as nat, 10);
    lemma_round_le((8 * u) as nat, 10, u as nat);
    let eight = Value::ratio(8, 10);
    let e = eight.quanta();
    lemma_product_error(tau, eight);
    let p = round_mag(t as nat * e as nat, u as nat) as int;
    assert(t as nat * e as nat <= t as nat * u as nat) by (nonlinear_arith)
        requires
            0 <= e <= u,
            t >= 0,
    ;
    lemma_level(c, u, t, e, p);
    assert(t * u <= u * u) by (nonlinear_arith)
        requires
            t <= u,
            u > 0,
    ;
    assert(t as nat * e as nat <= u as nat * u as nat);
    lemma_round_le(t as nat * e as nat, u as nat, u as nat);
    let level = tau.times(eight);
    assert(level is Fin && level.quanta() == p);
    let op = o * p;
    let a3 = c * (1000 * p - 4 * u);
    assert(-(5000 * ou) <= o * a3 <= 5000 * ou) by (nonlinear_arith)
        requires
            -(5000 * u) <= a3 <= 5000 * u,
            ou == o * u,
            o > 0,
    ;
    assert(o * a3 == c * (1000 * op - 4 * ou)) by (nonlinear_arith)
        requires
            a3 == c * (1000 * p - 4 * u),
            op == o * p,
            ou == o * u,
    ;
    lemma_compare(c, u, o, o - s, q, p, 4, 16_384);
}

/// The lower level is four tenths of a percent, up to rounding.
proof fn lemma_level(c: int, u: int, t: int, e: int, p: int)
    requires
        c == 0x20_0000_0000_0000,
        u >= 1000 * c,
        0 <= t <= u,
        0 <= e <= u,
        -(5 * u) <= c * (1000 * t - 5 * u) <= 5 * u,
        -(8 * u) <= c * (10 * e - 8 * u) <= 8 * u,
        -(2 * (t * e) + c * u) <= (2 * c) * (u * p - t * e) <= 2 * (t * e) + c * u,
    ensures
        -(5000 * u) <= c * (1000 * p - 4 * u) <= 5000 * u,
{
    let te = t * e;
    let tu = t * u;
    let uu = u * u;
    let up = u * p;
    assert(0 <= te <= uu && 0 <= tu <= uu && c * u <= uu) by (nonlinear_arith)
        requires
            te == t * e,
            tu == t * u,
            uu == u * u,
            0 <= t <= u,
            0 <= e <= u,
            u >= c,
    ;
    let a1 = c * (10 * e - 8 * u);
    assert(-(8 * uu) <= t * a1 <= 8 * uu) by (nonlinear_arith)
        requires
            -(8 * u) <= a1 <= 8 * u,
            0 <= t <= u,
            uu == u * u,
    ;
    assert(t * a1 == c * (10 * te - 8 * tu)) by (nonlinear_arith)
        requires
            a1 == c * (10 * e - 8 * u),
            te == t * e,
            tu == t * u,
    ;
    let a2 = c * (1000 * t - 5 * u);
    assert(-(5 * uu) <= a2 * u <= 5 * uu) by (nonlinear_arith)
        requires
            -(5 * u) <= a2 <= 5 * u,
            uu == u * u,
            u > 0,
    ;
    assert(a2 * u == c * (1000 * tu - 5 * uu)) by (nonlinear_arith)
        requires
            a2 == c * (1000 * t - 5 * u),
            tu == t * u,
            uu == u * u,
    ;
    let a3 = c * (1000 * p - 4 * u);
    assert(a3 * u == c * (1000 * up - 4 * uu)) by (nonlinear_arith)
        requires
            a3 == c * (1000 * p - 4 * u),
            up == u * p,
            uu == u * u,
    ;
    assert(-(5000 * uu) <= a3 * u <= 5000 * uu);
    assert(-(5000 * u) <= a3 <= 5000 * u) by (nonlinear_arith)
        requires
            -(5000 * uu) <= a3 * u <= 5000 * uu,
            uu == u * u,
            u > 0,
    ;
}

/// A lag against a level, where the fall and what the level stands for are far enough apart.
proof fn lemma_compare(c: int, u: int, o: int, fall: int, q: int, t: int, k: int, far: int)
    requires
        c == 0x20_0000_0000_0000,
        u > 0,
        o > 0,
        far == 8192 || far == 16_384,
        -(3 * (o * u)) <= c * (q * o - fall * u) <= 3 * (o * u),
        -(5000 * (o * u)) <= c * (1000 * (o * t) - k * (o * u)) <= 5000 * (o * u),
    ensures
        c * (1000 * fall - k * o) >= far * o ==> t <= q,
        c * (1000 * fall - k * o) <= -far * o ==> q < t,
{
    let ou = o * u;
    let qo = q * o;
    let ot = o * t;
    let fu = fall * u;
    assert(ou > 0) by (nonlinear_arith)
        requires
            ou == o * u,
            o > 0,
            u > 0,
    ;
    let x = c * (1000 * fall - k * o);
    assert(x * u == c * (1000 * fu - k * ou)) by (nonlinear_arith)
        requires
            x == c * (1000 * fall - k * o),
            fu == fall * u,
            ou == o * u,
    ;
    if x >= far * o {
        assert(x * u >= far * ou) by (nonlinear_arith)
            requires
                x >= far * o,
                ou == o * u,
                u > 0,
        ;
        assert(8192 * ou <= far * ou) by (nonlinear_arith)
            requires
                far >= 8192,
                ou > 0,
        ;
        assert(qo >= ot);
        assert(q >= t) by (nonlinear_arith)
            requires
                q * o >= o * t,
                o > 0,
        ;
    }
    if x <= -far * o {
        assert(x * u <= -(far * ou)) by (nonlinear_arith)
            requires
                x <= -far * o,
                ou == o * u,
                u > 0,
        ;
        assert(8192 * ou <= far * ou) by (nonlinear_arith)
            requires
                far >= 8192,
                ou > 0,
        ;
        assert(qo < ot);
        assert(q < t) by (nonlinear_arith)
            requires
                q * o < o * t,
                o > 0,
        ;
    }
}

/// In exact numbers: with nothing pending, an update falls due where the exchange is below the
/// oracle by half a percent of the oracle price, and not where it is by less, up to rounding.
/// While one is pending, it is called off where the exchange is below by less than four tenths
/// of a percent, and not where it is by more.
pub proof fn law_fall_in_exact_numbers(sim: SimModel, lag_secs: u64, cex_px: Value, now: u128)
    requires
        sim.round_id < u64::MAX,
        positive(sim.price),
        sim.price.is_double(),
        is_amount(cex_px),
    ensures
        ({
            let c = 0x20_0000_0000_0000int;
            let o = sim.price.quanta();
            let f = 1000 * (o - cex_px.quanta());
            let next = sim.step(lag_secs, cex_px, now);
            let came = next.round_id == sim.round_id + 1;
            &&& sim.pending is None && c * (f - 5 * o) >= 8192 * o ==> next.pending is Some || came
            &&& sim.pending is None && c * (f - 5 * o) <= -8192 * o ==> next == sim
            &&& sim.pending is Some && c * (f - 4 * o) >= 16_384 * o ==> next == sim || came
            &&& sim.pending is Some && c * (f - 4 * o) <= -16_384 * o ==> next == (SimModel {
                pending: None,
                ..sim
            })
        }),
{
    law_reset_below_threshold();
    let o = sim.price.quanta();
    if cex_px.quanta() < o {
        lemma_fall(sim.price, cex_px);
    } else {
        assert(!cex_px.lt(sim.price));
    }
}

} // verus!
