//! How the wait of an oracle update follows its seed.

use vstd::arithmetic::power2::*;
use vstd::prelude::*;

use crate::binary64::double::lemma_whole_exact;
use crate::binary64::model::{nearest, one_in_quanta, round_mag, Value};
use crate::binary64::order::{
    lemma_plus_error, lemma_round_error, lemma_round_keeps, lemma_round_le,
    lemma_round_significant, lemma_significant, lemma_times_error, lemma_zero_significant, size,
};
use crate::binary64::rounding::{lemma_nearest, lemma_nearest_exact, lemma_pow2_ordered};
use crate::feeds::oracle::{fire_delay, fire_delay_fits, fire_secs};
use crate::laws::auction::lemma_whole_ordered;
use crate::laws::oracle::{lemma_jitter, law_wait_is_near_the_mean};

verus! {

/// `x` and `y` differ by at most `k` parts in 2 to the power 53.
spec fn near(x: int, y: int, k: int) -> bool {
    -k <= 0x20_0000_0000_0000 * (x - y) <= k
}

/// The jitter as a part of one: `(b / 1000) * (t / 10)`, near `(r - 500) / 1250`.
proof fn lemma_part_stage(r: int, b: int, t: int, e: int, u: int)
    requires
        0 <= r < 1000,
        u >= 0x1_0000_0000_0000_0000_0000_0000_0000_0000,
        near(1000 * b, (r - 500) * u, 1500 * u),
        near(10 * t, 8 * u, 8 * u),
        0 <= t <= u,
        size(b) <= u,
        -(2 * size(b * t) + 0x20_0000_0000_0000 * u) <= 0x40_0000_0000_0000 * (u * e - b * t) <= 2
            * size(b * t) + 0x20_0000_0000_0000 * u,
    ensures
        near(1250 * e, (r - 500) * u, 4096 * u),
{
    let c: int = 0x20_0000_0000_0000;
    let ru = (r - 500) * u;
    assert(-500 * u <= ru <= 500 * u) by (nonlinear_arith)
        requires
            ru == (r - 500) * u,
            0 <= r < 1000,
            u > 0,
    ;
    let uu = u * u;
    assert(uu >= c * (0x10_0000 * u)) by (nonlinear_arith)
        requires
            uu == u * u,
            u >= 0x1_0000_0000_0000_0000_0000_0000_0000_0000,
            c == 0x20_0000_0000_0000,
    ;
    let bt = b * t;
    assert(-uu <= bt <= uu) by (nonlinear_arith)
        requires
            bt == b * t,
            uu == u * u,
            0 <= t <= u,
            -u <= b <= u,
    ;
    // the product of the two parts
    let d = 1000 * b - ru;
    let f = 10 * t - 8 * u;
    let dt = d * (10 * t);
    let fr = ru * f;
    assert(10_000 * bt - 8 * (ru * u) == dt + fr) by (nonlinear_arith)
        requires
            bt == b * t,
            d == 1000 * b - ru,
            f == 10 * t - 8 * u,
            dt == d * (10 * t),
            fr == ru * f,
    ;
    let cd = c * d;
    let cf = c * f;
    assert(-(15_000 * uu) <= cd * (10 * t) <= 15_000 * uu) by (nonlinear_arith)
        requires
            -(1500 * u) <= cd <= 1500 * u,
            0 <= t <= u,
            uu == u * u,
    ;
    assert(-(4_000 * uu) <= ru * cf <= 4_000 * uu) by (nonlinear_arith)
        requires
            -(8 * u) <= cf <= 8 * u,
            -500 * u <= ru <= 500 * u,
            uu == u * u,
    ;
    assert(c * dt == cd * (10 * t)) by (nonlinear_arith)
        requires
            dt == d * (10 * t),
            cd == c * d,
    ;
    assert(c * fr == ru * cf) by (nonlinear_arith)
        requires
            fr == ru * f,
            cf == c * f,
    ;
    let ue = u * e;
    let ruu = ru * u;
    assert(-(32_768 * uu) <= c * (10_000 * ue - 8 * ruu) <= 32_768 * uu);
    let g = c * (1250 * e - ru);
    assert(c * (10_000 * ue - 8 * ruu) == 8 * (g * u)) by (nonlinear_arith)
        requires
            g == c * (1250 * e - ru),
            ue == u * e,
            ruu == ru * u,
    ;
    assert(-(4096 * u) <= g <= 4096 * u) by (nonlinear_arith)
        requires
            -(32_768 * uu) <= 8 * (g * u) <= 32_768 * uu,
            uu == u * u,
            u > 0,
    ;
}

/// The jitter, near `(r - 500) / 1250` of the mean.
proof fn lemma_jitter_stage(r: int, e: int, b: int, j: int, mean: int, u: int)
    requires
        0 <= r < 1000,
        u >= 0x1_0000_0000_0000_0000_0000_0000_0000_0000,
        mean >= u,
        near(1250 * e, (r - 500) * u, 4096 * u),
        near(b, mean, mean),
        size(e) <= u,
        -(2 * size(e * b) + 0x20_0000_0000_0000 * u) <= 0x40_0000_0000_0000 * (u * j - e * b) <= 2
            * size(e * b) + 0x20_0000_0000_0000 * u,
    ensures
        near(1250 * j, (r - 500) * mean, 12_000 * mean),
{
    let c: int = 0x20_0000_0000_0000;
    let ru = (r - 500) * u;
    assert(-500 * u <= ru <= 500 * u) by (nonlinear_arith)
        requires
            ru == (r - 500) * u,
            0 <= r < 1000,
            u > 0,
    ;
    let mu = mean * u;
    assert(mu >= c * (0x10_0000 * u)) by (nonlinear_arith)
        requires
            mu == mean * u,
            mean >= u,
            u >= 0x1_0000_0000_0000_0000_0000_0000_0000_0000,
            c == 0x20_0000_0000_0000,
    ;
    assert(0 <= b <= 2 * mean);
    let eb = e * b;
    assert(-(2 * mu) <= eb <= 2 * mu) by (nonlinear_arith)
        requires
            eb == e * b,
            mu == mean * u,
            0 <= b <= 2 * mean,
            -u <= e <= u,
    ;
    // the product of the part and the mean
    let d = 1250 * e - ru;
    let f = b - mean;
    let db = d * b;
    let fr = ru * f;
    assert(1250 * eb - ru * mean == db + fr) by (nonlinear_arith)
        requires
            eb == e * b,
            d == 1250 * e - ru,
            f == b - mean,
            db == d * b,
            fr == ru * f,
    ;
    let cd = c * d;
    let cf = c * f;
    assert(-(8192 * mu) <= cd * b <= 8192 * mu) by (nonlinear_arith)
        requires
            -(4096 * u) <= cd <= 4096 * u,
            0 <= b <= 2 * mean,
            mu == mean * u,
    ;
    assert(-(500 * mu) <= ru * cf <= 500 * mu) by (nonlinear_arith)
        requires
            -mean <= cf <= mean,
            -500 * u <= ru <= 500 * u,
            mu == mean * u,
    ;
    assert(c * db == cd * b) by (nonlinear_arith)
        requires
            db == d * b,
            cd == c * d,
    ;
    assert(c * fr == ru * cf) by (nonlinear_arith)
        requires
            fr == ru * f,
            cf == c * f,
    ;
    let uj = u * j;
    let rum = ru * mean;
    assert(-(12_000 * mu) <= c * (1250 * uj - rum) <= 12_000 * mu);
    let rm = (r - 500) * mean;
    let g = c * (1250 * j - rm);
    assert(rum == rm * u) by (nonlinear_arith)
        requires
            rum == ru * mean,
            ru == (r - 500) * u,
            rm == (r - 500) * mean,
    ;
    assert(c * (1250 * uj - rum) == g * u) by (nonlinear_arith)
        requires
            g == c * (1250 * j - rm),
            uj == u * j,
            rum == rm * u,
    ;
    assert(-(12_000 * mean) <= g <= 12_000 * mean) by (nonlinear_arith)
        requires
            -(12_000 * mu) <= g * u <= 12_000 * mu,
            mu == mean * u,
            u > 0,
    ;
}

/// The seed's part of one, less a half.
proof fn lemma_seed_part(r: nat)
    requires
        r < 1000,
    ensures
        ({
            let b = Value::whole(r).over(Value::whole(1000)).minus(Value::ratio(1, 2));
            &&& b is Fin
            &&& near(1000 * b.quanta(), (r - 500) * one_in_quanta(), 1500 * one_in_quanta() as int)
            &&& size(b.quanta()) <= one_in_quanta()
            &&& r == 500 ==> b.quanta() == 0
        }),
{
    let u = one_in_quanta();
    let c: int = 0x20_0000_0000_0000;
    lemma_zero_significant();
    lemma2_to64();
    lemma2_to64_rest();
    lemma_pow2_ordered(100, 1074);
    lemma_pow2_adds(50, 50);
    lemma_whole_exact(r);
    lemma_whole_exact(1000);
    let n = (r * u) * u;
    let d = 1000 * u;
    assert(n <= u * d) by (nonlinear_arith)
        requires
            n == (r * u) * u,
            d == 1000 * u,
            r <= 1000,
    ;
    lemma_round_le(n, d, u);
    let a = round_mag(n, d);
    let part = Value::whole(r).over(Value::whole(1000));
    assert(part == (Value::Fin { neg: false, mag: a }));
    let ru = r * u;
    if r == 0 {
        assert(n == 0 * d) by (nonlinear_arith)
            requires
                n == (r * u) * u,
                r == 0,
        ;
        lemma_round_keeps(0, d);
        assert(ru == 0) by (nonlinear_arith)
            requires
                ru == r * u,
                r == 0,
        ;
    } else {
        assert(n >= d * 0x20_0000_0000_0000) by (nonlinear_arith)
            requires
                n == (r * u) * u,
                d == 1000 * u,
                r >= 1,
                u >= 1000 * 0x20_0000_0000_0000,
        ;
        lemma_round_error(n, d);
        let x = c * (1000 * a - ru);
        assert(c * (a * d - n) == x * u) by (nonlinear_arith)
            requires
                x == c * (1000 * a - ru),
                d == 1000 * u,
                n == ru * u,
        ;
        assert(-(ru as int) <= x <= ru) by (nonlinear_arith)
            requires
                -(n as int) <= x * u <= n,
                n == ru * u,
                u > 0,
        ;
    }
    assert(ru <= 1000 * u) by (nonlinear_arith)
        requires
            ru == r * u,
            r < 1000,
    ;
    // less a half
    lemma_pow2_adds(1, 1073);
    let h = pow2(1073);
    assert(1 * h == h);
    lemma_significant(1, 1073);
    lemma_round_keeps(h, 2);
    lemma_pow2_strictly_increases(1073, 2098);
    assert(h * 2 == 1 * u);
    let half = Value::ratio(1, 2);
    assert(half == (Value::Fin { neg: false, mag: h }));
    let b = part.minus(half);
    assert(half.negated().quanta() == -(h as int));
    let s = a - h;
    if s < 0 {
        lemma_round_le((-s) as nat, 1, h);
    } else if s > 0 {
        lemma_round_le(s as nat, 1, h);
    }
    lemma_plus_error(part, half.negated());
    assert((r - 500) * u == ru - 500 * u) by (nonlinear_arith)
        requires
            ru == r * u,
    ;
    if r == 500 {
        assert(n == h * d) by (nonlinear_arith)
            requires
                n == (r * u) * u,
                r == 500,
                d == 1000 * u,
                u == 2 * h,
        ;
        lemma_round_keeps(h, d);
    }
}

/// A wait is `(r + 750) / 1250` of the mean, `r` being the last three digits of the seed, up to
/// one part in 2 to the power 48 of the mean.
pub proof fn law_wait_follows_the_seed(lag_secs: u64, rng_seed: u64)
    requires
        lag_secs > 0,
    ensures
        ({
            let secs = fire_secs(lag_secs, rng_seed);
            let mean = lag_secs * one_in_quanta();
            let off = 1250 * secs.quanta() - (rng_seed % 1000 + 750) * mean;
            &&& secs is Fin
            &&& secs.quanta() >= 0
            &&& -(32_768 * mean) <= 0x20_0000_0000_0000 * off <= 32_768 * mean
        }),
{
    let u = one_in_quanta();
    let r = (rng_seed % 1000) as nat;
    let lag = lag_secs as nat;
    let mean = lag * u;
    lemma_zero_significant();
    lemma2_to64();
    lemma2_to64_rest();
    lemma_pow2_adds(64, 64);
    lemma_pow2_ordered(128, 1074);
    assert(pow2(128) == 0x1_0000_0000_0000_0000_0000_0000_0000_0000) by (nonlinear_arith)
        requires
            pow2(128) == pow2(64) * pow2(64),
            pow2(64) == 0x1_0000_0000_0000_0000,
    ;
    assert(mean >= u) by (nonlinear_arith)
        requires
            mean == lag * u,
            lag >= 1,
    ;
    law_wait_is_near_the_mean(lag_secs, rng_seed);
    // the part
    let b = Value::whole(r).over(Value::whole(1000)).minus(Value::ratio(1, 2));
    let t = Value::ratio(8, 10);
    lemma_seed_part(r);
    lemma_round_le(8 * u, 10, u);
    lemma_round_error(8 * u, 10);
    let e = b.times(t);
    lemma_jitter(rng_seed);
    lemma_times_error(b, t);
    lemma_part_stage(r as int, b.quanta(), t.quanta(), e.quanta(), u as int);
    // the jitter
    let base = Value::whole(lag);
    lemma_whole_ordered(0, lag);
    lemma_whole_ordered(lag, 0x1_0000_0000_0000_0000);
    lemma_round_error(mean, 1);
    let jitter = e.times(base);
    assert(fire_secs(lag_secs, rng_seed) == base.plus(jitter));
    assert(jitter is Fin);
    lemma_times_error(e, base);
    lemma_jitter_stage(
        r as int,
        e.quanta(),
        base.quanta(),
        jitter.quanta(),
        mean as int,
        u as int,
    );
    // the sum
    lemma_plus_error(base, jitter);
    let rm = (r - 500) * mean;
    assert(-(500 * mean) <= rm <= 500 * mean) by (nonlinear_arith)
        requires
            rm == (r - 500) * mean,
            r < 1000,
    ;
    assert((r + 750) * mean == rm + 1250 * mean) by (nonlinear_arith)
        requires
            rm == (r - 500) * mean,
    ;
}

/// The wait depends on the last three digits of the seed alone, and grows with them.
pub proof fn law_wait_grows_with_the_seed(lag_secs: u64, seed: u64, other: u64)
    requires
        lag_secs > 0,
    ensures
        seed % 1000 == other % 1000 ==> fire_secs(lag_secs, seed) == fire_secs(lag_secs, other)
            && fire_delay(lag_secs, seed) == fire_delay(lag_secs, other),
        seed % 1000 < other % 1000 ==> fire_secs(lag_secs, seed).lt(fire_secs(lag_secs, other))
            && fire_delay(lag_secs, seed) < fire_delay(lag_secs, other),
{
    if seed % 1000 < other % 1000 {
        let u = one_in_quanta();
        let mean = lag_secs as nat * u;
        lemma_zero_significant();
        assert(mean >= u) by (nonlinear_arith)
            requires
                mean == lag_secs as nat * u,
                lag_secs >= 1,
        ;
        law_wait_follows_the_seed(lag_secs, seed);
        law_wait_follows_the_seed(lag_secs, other);
        let x = fire_secs(lag_secs, seed).quanta() as nat;
        let y = fire_secs(lag_secs, other).quanta() as nat;
        let p = (seed % 1000 + 750) * mean;
        let q = (other % 1000 + 750) * mean;
        assert(q >= p + mean) by (nonlinear_arith)
            requires
                p == (seed % 1000 + 750) * mean,
                q == (other % 1000 + 750) * mean,
                seed % 1000 < other % 1000,
        ;
        assert(2500 * (y - x) >= mean);
        lemma_nearest(x * 1_000_000_000, u);
        lemma_nearest(y * 1_000_000_000, u);
        let m = nearest(x * 1_000_000_000, u);
        let n = nearest(y * 1_000_000_000, u);
        assert(m < n) by (nonlinear_arith)
            requires
                (2 * m - 1) * u <= 2 * (x * 1_000_000_000),
                2 * (y * 1_000_000_000) <= (2 * n + 1) * u,
                2500 * (y - x) >= u,
                u > 0,
        ;
    }
}

/// Half-way through the seeds the wait is the mean, exactly.
pub proof fn law_wait_is_the_mean_in_the_middle(lag_secs: u64, rng_seed: u64)
    requires
        rng_seed % 1000 == 500,
    ensures
        fire_secs(lag_secs, rng_seed) == Value::whole(lag_secs as nat),
        lag_secs <= 0x20_0000_0000_0000 ==> {
            &&& fire_delay_fits(lag_secs, rng_seed)
            &&& fire_delay(lag_secs, rng_seed) == lag_secs * 1_000_000_000
        },
{
    let u = one_in_quanta();
    let lag = lag_secs as nat;
    let b = Value::whole(500).over(Value::whole(1000)).minus(Value::ratio(1, 2));
    let t = Value::ratio(8, 10);
    let base = Value::whole(lag);
    lemma_zero_significant();
    lemma_seed_part(500);
    lemma_round_le(8 * u, 10, u);
    lemma_whole_ordered(0, lag);
    lemma_whole_ordered(lag, 0x1_0000_0000_0000_0000);
    lemma_round_keeps(0, u);
    assert(0 * u == 0);
    lemma_no_part(b, t);
    lemma_no_part(b.times(t), base);
    let jitter = b.times(t).times(base);
    let m = round_mag(lag * u, 1);
    lemma_round_significant(lag * u, 1);
    lemma_round_keeps(m, 1);
    assert(base.plus(jitter) == base);
    if lag <= 0x20_0000_0000_0000 {
        lemma_whole_exact(lag);
        lemma2_to64();
        let s = lag * u;
        assert(s < pow2(64) * u) by (nonlinear_arith)
            requires
                s == lag * u,
                lag <= 0x20_0000_0000_0000,
                pow2(64) == 0x1_0000_0000_0000_0000,
                u > 0,
        ;
        assert(s * 1_000_000_000 == (lag * 1_000_000_000) * u) by (nonlinear_arith)
            requires
                s == lag * u,
        ;
        lemma_nearest_exact(lag * 1_000_000_000, u);
    }
}

/// No part of anything is nothing.
proof fn lemma_no_part(none: Value, all: Value)
    requires
        none is Fin,
        none.quanta() == 0,
        all is Fin,
    ensures
        none.times(all) is Fin,
        none.times(all).quanta() == 0,
{
    let u = one_in_quanta();
    lemma_zero_significant();
    lemma_round_keeps(0, u);
    assert(0 * u == 0);
    match (none, all) {
        (Value::Fin { mag: x, .. }, Value::Fin { mag: y, .. }) => {
            assert(x * y == 0) by (nonlinear_arith)
                requires
                    x == 0,
            ;
        },
        _ => {},
    }
}

} // verus!
