//! The simulated oracle.

use vstd::arithmetic::power2::*;
use vstd::prelude::*;

use crate::binary64::double::lemma_whole_exact;
use crate::binary64::model::{nearest, one_in_quanta, round_mag, scale, significant, Value};
use crate::binary64::order::{
    lemma_plus_quanta, lemma_round_error, lemma_round_ge, lemma_round_keeps, lemma_round_le,
    lemma_round_significant, lemma_significant, lemma_times_quanta, lemma_zero_significant,
    positive,
};
use crate::binary64::rounding::{
    lemma_nearest_exact, lemma_nearest_ordered, lemma_pow2_ordered, lemma_round_ordered,
    lemma_round_significand, lemma_scale,
};
use crate::clock::{span, span_secs};
use crate::feeds::oracle::{
    deviation_threshold, downside_lag, fire_delay, fire_delay_fits, fire_secs, reset_level,
    Pending, SimModel,
};
use crate::laws::auction::lemma_whole_ordered;

verus! {

/// The level at which an update is called off lies below the one at which it falls due, and
/// both are above zero.
pub proof fn law_reset_below_threshold()
    ensures
        positive(reset_level()),
        positive(deviation_threshold()),
        reset_level().lt(deviation_threshold()),
{
    let u = one_in_quanta();
    lemma_zero_significant();
    lemma2_to64();
    lemma2_to64_rest();
    // the threshold lies between 1/256 and 1/128
    lemma_pow2_adds(8, 1066);
    lemma_pow2_pos(1066);
    assert(1 * pow2(1066) == pow2(1066));
    lemma_significant(1, 1066);
    lemma_round_ge(5 * u, 1000, pow2(1066));
    lemma_round_le(5 * u, 1000, u);
    let t = round_mag(5 * u, 1000);
    assert(deviation_threshold() == (Value::Fin { neg: false, mag: t }));
    // eight tenths lies between 3/4 and 7/8
    lemma_pow2_adds(3, 1071);
    lemma_pow2_pos(1071);
    lemma_significant(7, 1071);
    lemma_significant(6, 1071);
    lemma_round_le(8 * u, 10, 7 * pow2(1071));
    lemma_round_ge(8 * u, 10, 6 * pow2(1071));
    let e = round_mag(8 * u, 10);
    assert(Value::ratio(8, 10) == (Value::Fin { neg: false, mag: e }));
    // the product is below 15/16 of the threshold
    let n = t * e;
    let r = round_mag(n, u);
    lemma_round_error(n, u);
    lemma_pow2_ordered(60, 1066);
    assert(8 * n <= 7 * (t * u)) by (nonlinear_arith)
        requires
            n == t * e,
            e <= 7 * pow2(1071),
            u == 8 * pow2(1071),
    ;
    assert(8 * n >= 6 * (t * u)) by (nonlinear_arith)
        requires
            n == t * e,
            e >= 6 * pow2(1071),
            u == 8 * pow2(1071),
    ;
    assert(r < t && r > 0) by (nonlinear_arith)
        requires
            8 * n <= 7 * (t * u),
            8 * n >= 6 * (t * u),
            n < u * 0x20_0000_0000_0000 ==> -(u as int) <= 2 * (r * u - n) <= u,
            n >= u * 0x20_0000_0000_0000 ==> -(n as int) <= 0x20_0000_0000_0000 * (r * u - n) <= n,
            t >= 0x1000_0000_0000_0000,
            u > 0,
    ;
    lemma_times_quanta(deviation_threshold(), Value::ratio(8, 10));
}

/// An exchange at or above the oracle never moves it: no update comes, and none is left
/// pending.
pub proof fn law_rally_calls_off(sim: SimModel, lag_secs: u64, cex_px: Value, now: u128)
    requires
        sim.price.le(cex_px),
    ensures
        !sim.fires(lag_secs, cex_px, now),
        sim.step(lag_secs, cex_px, now) == (SimModel { pending: None, ..sim }),
{
    law_reset_below_threshold();
}

/// The oracle stands still until an update comes; then it takes the exchange price, counts
/// a round, and nothing is pending.
pub proof fn law_update(sim: SimModel, lag_secs: u64, cex_px: Value, now: u128)
    requires
        sim.round_id < u64::MAX,
    ensures
        ({
            let next = sim.step(lag_secs, cex_px, now);
            if sim.fires(lag_secs, cex_px, now) {
                &&& next.price == cex_px
                &&& next.last_update == now
                &&& next.round_id == sim.round_id + 1
                &&& next.pending is None
                &&& downside_lag(next.price, cex_px) == Value::zero()
            } else {
                &&& next.price == sim.price
                &&& next.last_update == sim.last_update
                &&& next.round_id == sim.round_id
            }
        }),
{
}

/// An update that is pending comes once it has waited long enough, unless the price has
/// recovered; it does not come before, and its wait is not drawn again.
pub proof fn law_pending_update(
    sim: SimModel,
    lag_secs: u64,
    cex_px: Value,
    now: u128,
    due: Pending,
)
    requires
        sim.pending == Some(due),
        !downside_lag(sim.price, cex_px).lt(reset_level()),
    ensures
        sim.fires(lag_secs, cex_px, now) <==> span(due.since, now) >= due.delay,
        span(due.since, now) < due.delay ==> sim.step(lag_secs, cex_px, now) == sim,
{
}

/// The protocol sees a countdown exactly while an update is pending, and it is the rest of
/// the wait.
pub proof fn law_countdown(sim: SimModel, lag_secs: u64, cex_px: Value, now: u128)
    ensures
        ({
            let next = sim.step(lag_secs, cex_px, now);
            let seen = next.snapshot(now);
            &&& seen.eta_secs is Some <==> next.pending is Some
            &&& next.pending matches Some(due) ==> {
                &&& span(due.since, now) < due.delay
                &&& seen.eta_secs == Some(span_secs((due.delay - span(due.since, now)) as nat))
            }
            &&& seen.price == next.price
            &&& seen.updated_at == next.last_update
            &&& seen.round_id == next.round_id
        }),
{
}

/// An update with a mean wait above zero never comes at the look at which it falls due.
pub proof fn law_update_waits(sim: SimModel, lag_secs: u64, cex_px: Value, now: u128)
    requires
        sim.can_step(lag_secs, cex_px),
        sim.arms(cex_px),
        lag_secs > 0,
    ensures
        !sim.fires(lag_secs, cex_px, now),
{
    let u = one_in_quanta();
    let s = fire_secs(lag_secs, sim.seed(cex_px)).quanta() as nat;
    lemma_zero_significant();
    lemma_wait_fits(lag_secs, sim.seed(cex_px));
    law_wait_is_near_the_mean(lag_secs, sim.seed(cex_px));
    let mean = lag_secs as nat * u;
    assert(mean >= u) by (nonlinear_arith)
        requires
            mean == lag_secs as nat * u,
            lag_secs > 0,
    ;
    let c = 0x20_0000_0000_0000int;
    assert(2 * s >= u) by (nonlinear_arith)
        requires
            (5 * c) * s >= (3 * (c - 8)) * mean,
            c == 0x20_0000_0000_0000int,
            mean >= u,
    ;
    let n = s * 1_000_000_000;
    lemma_nearest_exact(1, u);
    assert((1 * u) * u <= n * u) by (nonlinear_arith)
        requires
            n == s * 1_000_000_000,
            2 * s >= u,
            u > 0,
    ;
    lemma_nearest_ordered(1 * u, u, n, u);
}

/// A wait that fits is a span of time.
pub(crate) proof fn lemma_wait_fits(lag_secs: u64, rng_seed: u64)
    requires
        fire_delay_fits(lag_secs, rng_seed),
    ensures
        fire_delay(lag_secs, rng_seed) <= 0x1_0000_0000_0000_0000 * 1_000_000_000,
{
    let u = one_in_quanta();
    lemma_zero_significant();
    lemma2_to64();
    let s = fire_secs(lag_secs, rng_seed).quanta() as nat;
    let n = s * 1_000_000_000;
    let top: nat = 0x1_0000_0000_0000_0000 * 1_000_000_000;
    lemma_nearest_exact(top, u);
    assert(n * u <= (top * u) * u) by (nonlinear_arith)
        requires
            n == s * 1_000_000_000,
            s < 0x1_0000_0000_0000_0000 * u,
            top == 0x1_0000_0000_0000_0000 * 1_000_000_000,
            u > 0,
    ;
    lemma_nearest_ordered(n, u, top * u, u);
}

/// The jitter before it is scaled: between minus four and four tenths, up to rounding.
pub(crate) proof fn lemma_jitter(rng_seed: u64)
    ensures
        ({
            let j = Value::whole((rng_seed % 1000) as nat).over(Value::whole(1000)).minus(
                Value::ratio(1, 2),
            ).times(Value::ratio(8, 10));
            &&& j is Fin
            &&& 2 * j->mag <= round_mag(8 * one_in_quanta(), 10)
        }),
{
    let u = one_in_quanta();
    let r = (rng_seed % 1000) as nat;
    lemma_zero_significant();
    lemma2_to64();
    lemma_whole_exact(r);
    lemma_whole_exact(1000);
    // a fraction of one
    let a = Value::whole(r).over(Value::whole(1000));
    assert((r * u) * u <= u * (1000 * u)) by (nonlinear_arith)
        requires
            r <= 1000,
    ;
    lemma_round_le((r * u) * u, 1000 * u, u);
    let x = round_mag((r * u) * u, 1000 * u);
    assert(a == (Value::Fin { neg: false, mag: x }));
    // less a half
    lemma_pow2_adds(1, 1073);
    let h = pow2(1073);
    assert(1 * h == h);
    lemma_significant(1, 1073);
    lemma_round_keeps(h, 2);
    lemma_pow2_strictly_increases(1073, 2098);
    assert(h * 2 == 1 * u);
    let half = Value::ratio(1, 2);
    assert(half == (Value::Fin { neg: false, mag: h }));
    let b = a.minus(half);
    let s = x - h;
    assert(half.negated().quanta() == -(h as int));
    if s < 0 {
        lemma_round_le((-s) as nat, 1, h);
    } else if s > 0 {
        lemma_round_le(s as nat, 1, h);
    }
    assert(b is Fin && b->mag <= h);
    // times eight tenths
    let t = round_mag(8 * u, 10);
    lemma_round_le(8 * u, 10, u);
    let eight_tenths = Value::ratio(8, 10);
    assert(eight_tenths == (Value::Fin { neg: false, mag: t }));
    lemma_eight_tenths();
    let w = choose|w: nat| significant(w) && t == 2 * w;
    let n = b->mag * t;
    assert(n <= w * u) by (nonlinear_arith)
        requires
            n == b->mag * t,
            b->mag <= h,
            t == 2 * w,
            u == 2 * h,
    ;
    lemma_round_le(n, u, w);
}

/// Half of eight tenths is a double.
proof fn lemma_eight_tenths()
    ensures
        exists|w: nat| significant(w) && round_mag(8 * one_in_quanta(), 10) == 2 * w,
        0x20_0000_0000_0000 * (10 * round_mag(8 * one_in_quanta(), 10)) <= 0x20_0000_0000_0001 * (
        8 * one_in_quanta()),
        2 * round_mag(8 * one_in_quanta(), 10) >= one_in_quanta(),
{
    let u = one_in_quanta();
    let n = 8 * u;
    let t = round_mag(n, 10);
    lemma_zero_significant();
    lemma2_to64();
    lemma2_to64_rest();
    lemma_pow2_ordered(60, 1074);
    lemma_round_error(n, 10);
    assert(n >= 10 * 0x20_0000_0000_0000);
    assert(0x20_0000_0000_0000 * (t * 10 - n) <= n);
    lemma_pow2_adds(1, 1073);
    assert(1 * pow2(1073) == pow2(1073));
    lemma_significant(1, 1073);
    lemma_round_ge(n, 10, pow2(1073));
    // half of it, rounded, is half of what it is rounded to
    lemma_scale(n, 10);
    let k = scale(n, 10);
    assert(k > 0);
    lemma_pow2_unfold(k);
    let m = nearest(n, 10 * pow2(k));
    lemma_round_significand(n, 10);
    let w = m * pow2((k - 1) as nat);
    assert(t == 2 * w) by (nonlinear_arith)
        requires
            t == m * pow2(k),
            pow2(k) == 2 * pow2((k - 1) as nat),
            w == m * pow2((k - 1) as nat),
    ;
    if m == 0x20_0000_0000_0000 {
        assert(w == 0x10_0000_0000_0000 * pow2(k)) by (nonlinear_arith)
            requires
                w == m * pow2((k - 1) as nat),
                m == 0x20_0000_0000_0000,
                pow2(k) == 2 * pow2((k - 1) as nat),
        ;
        lemma_significant(0x10_0000_0000_0000, k);
    } else {
        lemma_significant(m, (k - 1) as nat);
    }
}

/// A wait is between six and fourteen tenths of the mean, up to one part in 2 to the power
/// 50.
pub proof fn law_wait_is_near_the_mean(lag_secs: u64, rng_seed: u64)
    ensures
        ({
            let secs = fire_secs(lag_secs, rng_seed);
            let mean = lag_secs * one_in_quanta();
            let c = 0x20_0000_0000_0000int;
            &&& secs is Fin
            &&& secs.quanta() >= 0
            &&& (5 * c) * secs.quanta() >= (3 * (c - 8)) * mean
            &&& (5 * c) * secs.quanta() <= (7 * (c + 8)) * mean
        }),
{
    let u = one_in_quanta();
    let c: int = 0x20_0000_0000_0000;
    let lag = lag_secs as nat;
    lemma_zero_significant();
    lemma2_to64();
    lemma2_to64_rest();
    lemma_pow2_ordered(60, 1074);
    let base = Value::whole(lag);
    lemma_whole_ordered(0, lag);
    lemma_whole_ordered(lag, 0x1_0000_0000_0000_0000);
    let b = round_mag(lag * u, 1);
    assert(base == (Value::Fin { neg: false, mag: b }));
    lemma_round_error(lag * u, 1);
    lemma_round_significant(lag * u, 1);
    // the jitter
    let small = Value::whole((rng_seed % 1000) as nat).over(Value::whole(1000)).minus(
        Value::ratio(1, 2),
    ).times(Value::ratio(8, 10));
    lemma_jitter(rng_seed);
    lemma_eight_tenths();
    let t = round_mag(8 * u, 10);
    lemma_round_le(8 * u, 10, u);
    let y = small->mag;
    let n = y * b;
    let j = round_mag(n, u);
    assert(n <= b * u) by (nonlinear_arith)
        requires
            n == y * b,
            y <= u,
    ;
    lemma_round_le(n, u, b);
    let jitter = small.times(base);
    assert(jitter is Fin && jitter->mag == j);
    // how large it can be
    let top = t * b;
    let full = round_mag(top, 2 * u);
    assert(n * (2 * u) <= top * u) by (nonlinear_arith)
        requires
            n == y * b,
            top == t * b,
            2 * y <= t,
    ;
    lemma_round_ordered(n, u, top, 2 * u);
    assert(j <= full);
    lemma_round_error(top, 2 * u);
    // the sum
    let s = base.quanta() + jitter.quanta();
    assert(b - j <= s <= b + j);
    lemma_pow2_adds(65, 1074);
    lemma_pow2_adds(1, 64);
    lemma_pow2_strictly_increases(65 + 1074, 2098);
    assert(1 * pow2(65 + 1074) == pow2(65 + 1074));
    lemma_significant(1, 65 + 1074);
    lemma_whole_bound(lag);
    lemma_round_le(s as nat, 1, pow2(65 + 1074));
    lemma_plus_quanta(base, jitter);
    lemma_round_error(s as nat, 1);
    let r = round_mag(s as nat, 1);
    let mean = lag * u;
    if lag == 0 {
        assert(mean == 0);
        lemma_round_keeps(0, 1);
        assert(b == 0);
        assert(r == 0);
    } else {
        assert(mean >= u) by (nonlinear_arith)
            requires
                mean == lag * u,
                lag >= 1,
        ;
        // the mean, rounded
        assert(c * b >= (c - 1) * mean && c * b <= (c + 1) * mean);
        // the largest jitter
        assert(b >= 0x20_0000_0000_0000 * 8);
        assert(top >= (2 * u) * 0x20_0000_0000_0000) by (nonlinear_arith)
            requires
                top == t * b,
                2 * t >= u,
                b >= 0x20_0000_0000_0000 * 8,
        ;
        lemma_full_jitter(u as int, t as int, b as int, full as int);
        lemma_wait_bounds(b as int, full as int, s, r as int, mean as int);
    }
}

/// A whole number of 64 bits, rounded, is not above 2 to the power 64.
proof fn lemma_whole_bound(n: nat)
    requires
        n <= 0x1_0000_0000_0000_0000,
    ensures
        2 * round_mag(n * one_in_quanta(), 1) <= pow2(65 + 1074),
{
    let u = one_in_quanta();
    lemma2_to64();
    lemma_pow2_adds(64, 1074);
    lemma_pow2_unfold(65 + 1074);
    assert(1 * pow2(64 + 1074) == pow2(64 + 1074));
    lemma_significant(1, 64 + 1074);
    assert(n * u <= 0x1_0000_0000_0000_0000 * u) by (nonlinear_arith)
        requires
            n <= 0x1_0000_0000_0000_0000,
    ;
    lemma_round_le(n * u, 1, pow2(64 + 1074));
}

/// The largest jitter is four tenths of the mean, up to two roundings.
proof fn lemma_full_jitter(u: int, t: int, b: int, full: int)
    requires
        u > 0,
        b >= 0,
        0x20_0000_0000_0000 * (full * (2 * u) - t * b) <= t * b,
        0x20_0000_0000_0000 * (10 * t) <= 0x20_0000_0000_0001 * (8 * u),
    ensures
        (5 * 0x400_0000_0000_0000_0000_0000_0000int) * full <= (2
            * 0x400_0000_0000_0040_0000_0000_0001int) * b,
{
    let c: int = 0x20_0000_0000_0000;
    let f = (5 * (c * c)) * full - (2 * ((c + 1) * (c + 1))) * b;
    // full * 2u * c <= t * b * (c + 1), and 10 * t * c <= 8 * u * (c + 1)
    assert((10 * t * c) * b <= (8 * u * (c + 1)) * b) by (nonlinear_arith)
        requires
            10 * t * c <= 8 * u * (c + 1),
            b >= 0,
    ;
    assert((full * (2 * u)) * c <= (t * b) * (c + 1));
    assert(f * (4 * u) <= 0) by (nonlinear_arith)
        requires
            f == (5 * (c * c)) * full - (2 * ((c + 1) * (c + 1))) * b,
            c == 0x20_0000_0000_0000,
            (10 * t * c) * b <= (8 * u * (c + 1)) * b,
            (full * (2 * u)) * c <= (t * b) * (c + 1),
    ;
    assert(f <= 0) by (nonlinear_arith)
        requires
            f * (4 * u) <= 0,
            u > 0,
    ;
}

/// The stages of a wait, together.
proof fn lemma_wait_bounds(b: int, full: int, s: int, r: int, mean: int)
    requires
        mean > 0,
        0x20_0000_0000_0000 * b >= 0x1f_ffff_ffff_ffff * mean,
        0x20_0000_0000_0000 * b <= 0x20_0000_0000_0001 * mean,
        (5 * 0x400_0000_0000_0000_0000_0000_0000int) * full <= (2
            * 0x400_0000_0000_0040_0000_0000_0001int) * b,
        b - full <= s <= b + full,
        s >= 0,
        s < 0x20_0000_0000_0000 ==> r == s,
        s >= 0x20_0000_0000_0000 ==> -s <= 0x20_0000_0000_0000 * (r - s) <= s,
    ensures
        (5 * 0x20_0000_0000_0000int) * r >= (3 * 0x1f_ffff_ffff_fff8int) * mean,
        (5 * 0x20_0000_0000_0000int) * r <= (7 * 0x20_0000_0000_0008int) * mean,
{
}

} // verus!
