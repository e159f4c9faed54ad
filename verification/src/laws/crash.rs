//! The crash that the simulation plays.

use vstd::arithmetic::power2::*;
use vstd::prelude::*;

use crate::binary64::double::lemma_whole_exact;
use crate::binary64::model::{
    nearest, one_in_quanta, overflow_bound, round_mag, scale, significant, Value,
};
use crate::binary64::order::{
    lemma_minus_ordered, lemma_minus_quanta, lemma_next_double, lemma_over_ordered,
    lemma_over_quanta, lemma_results_are_doubles, lemma_round_error, lemma_round_ge,
    lemma_round_keeps, lemma_round_le, lemma_round_significant, lemma_rounded_sum_ordered,
    lemma_significant, lemma_times_ordered, lemma_times_quanta, lemma_zero_significant, positive,
};
use crate::binary64::rounding::{
    lemma_nearest, lemma_nearest_unique, lemma_positive_product, lemma_pow2_ordered,
    lemma_round_significand, lemma_scale, lemma_scale_unique,
};
use crate::feeds::cex::crash_price_at;
use crate::markets::SimConfigModel;

verus! {

/// After any number of whole cycles the crash is where it was.
pub proof fn law_crash_comes_round(t: Value, later: Value, cycles: nat, cfg: SimConfigModel)
    requires
        t is Fin,
        later is Fin,
        positive(cfg.cycle_secs),
        t.quanta() >= 0,
        later.quanta() == t.quanta() + cycles * cfg.cycle_secs.quanta(),
    ensures
        crash_price_at(later, cfg) == crash_price_at(t, cfg),
{
    let x = t.quanta();
    let y = cfg.cycle_secs.quanta();
    vstd::arithmetic::div_mod::lemma_mod_multiples_vanish(cycles as int, x, y);
    assert(y * cycles == cycles * y) by (nonlinear_arith);
    assert(cycles * y >= 0) by (nonlinear_arith)
        requires
            y > 0,
    ;
    lemma_zero_significant();
    lemma_whole_exact(20);
    let p = t.modulo(cfg.cycle_secs);
    let q = later.modulo(cfg.cycle_secs);
    let z = later.quanta();
    assert(z == y * cycles + x);
    vstd::arithmetic::div_mod::lemma_mod_bound(x, y);
    vstd::arithmetic::div_mod::lemma_small_mod(0, y as nat);
    match (t, later, cfg.cycle_secs) {
        (
            Value::Fin { mag: a, .. },
            Value::Fin { mag: b, .. },
            Value::Fin { mag: c, .. },
        ) => {
            assert(a == x && b == z && c == y);
            assert(a % c == x % y && b % c == z % y);
        },
        _ => {},
    }
    assert(p.quanta() == x % y);
    assert(q.quanta() == z % y);
    if !p.lt(Value::whole(20)) {
        assert(p == q);
    }
}

/// The crash repeats itself: its price depends on how far the cycle has come alone.
pub proof fn law_crash_repeats(t: Value, cfg: SimConfigModel)
    ensures
        crash_price_at(t.modulo(cfg.cycle_secs), cfg) == crash_price_at(t, cfg),
{
    match (t, cfg.cycle_secs) {
        (Value::Fin { mag: x, .. }, Value::Fin { mag: y, .. }) => {
            if y > 0 {
                vstd::arithmetic::div_mod::lemma_mod_twice(x as int, y as int);
            }
        },
        _ => {},
    }
}

/// Settings that a crash can be played with: the bottom is not above the top, and the fall
/// from one to the other is finite.
pub open spec fn is_playable(cfg: SimConfigModel) -> bool {
    &&& cfg.crash_top_px is Fin
    &&& cfg.crash_top_px.is_double()
    &&& cfg.crash_bottom_px is Fin
    &&& cfg.crash_bottom_px.is_double()
    &&& cfg.crash_bottom_px.le(cfg.crash_top_px)
    &&& cfg.crash_top_px.minus(cfg.crash_bottom_px) is Fin
    &&& positive(cfg.cycle_secs)
    &&& cfg.cycle_secs.is_double()
}

/// The fall, rounded: it is a double, and less than twice what it stands for.
pub(crate) proof fn lemma_fall(cfg: SimConfigModel)
    requires
        is_playable(cfg),
    ensures
        ({
            let e = (cfg.crash_top_px.quanta() - cfg.crash_bottom_px.quanta()) as nat;
            let fall = cfg.crash_top_px.minus(cfg.crash_bottom_px);
            &&& fall is Fin
            &&& fall.quanta() == round_mag(e, 1)
            &&& significant(round_mag(e, 1))
            &&& round_mag(e, 1) <= 2 * e
            &&& round_mag(e, 1) < overflow_bound()
        }),
{
    let e = (cfg.crash_top_px.quanta() - cfg.crash_bottom_px.quanta()) as nat;
    lemma_zero_significant();
    lemma_pow2_pos(2098);
    lemma_round_keeps(0, 1);
    assert(cfg.crash_bottom_px.negated().quanta() == -cfg.crash_bottom_px.quanta());
    lemma_round_significant(e, 1);
    lemma_round_error(e, 1);
}

/// A sum between two doubles is rounded to something between them.
proof fn lemma_sum_between(lo: Value, hi: Value, s: int, both_neg: bool)
    requires
        lo is Fin,
        lo.is_double(),
        hi is Fin,
        hi.is_double(),
        lo.quanta() <= s <= hi.quanta(),
    ensures
        Value::rounded_sum(s, both_neg) is Fin,
        lo.quanta() <= Value::rounded_sum(s, both_neg).quanta() <= hi.quanta(),
{
    if s > 0 {
        lemma_round_le(s as nat, 1, hi.quanta() as nat);
        if lo.quanta() > 0 {
            lemma_round_ge(s as nat, 1, lo.quanta() as nat);
        }
    } else if s < 0 {
        lemma_round_le((-s) as nat, 1, (-lo.quanta()) as nat);
        if hi.quanta() < 0 {
            lemma_round_ge((-s) as nat, 1, (-hi.quanta()) as nat);
        }
    }
}

/// Less than all of a rounded difference does not round above the difference itself.
pub(crate) proof fn lemma_share_of_difference(e: nat, p: nat)
    requires
        p * 0x20_0000_0000_0000 <= 0x1f_ffff_ffff_ffff * one_in_quanta(),
    ensures
        round_mag(round_mag(e, 1) * p, one_in_quanta()) <= e,
        round_mag(round_mag(e, 1) * p, one_in_quanta()) <= round_mag(e, 1),
{
    let u = one_in_quanta();
    let f = round_mag(e, 1);
    let n = f * p;
    lemma_zero_significant();
    lemma_round_significant(e, 1);
    assert(n <= f * u) by (nonlinear_arith)
        requires
            n == f * p,
            p * 0x20_0000_0000_0000 <= 0x1f_ffff_ffff_ffff * u,
    ;
    lemma_round_le(n, u, f);
    if f > e {
        let k = scale(e, 1);
        let g = pow2(k);
        lemma_pow2_pos(k);
        let m = nearest(e, 1 * pow2(k));
        assert(1 * pow2(k) == g);
        lemma_nearest(e, g);
        lemma_round_significand(e, 1);
        lemma_scale(e, 1);
        lemma2_to64();
        lemma2_to64_rest();
        lemma_round_error(e, 1);
        assert(k > 0);
        assert(f == m * g);
        lemma_pow2_adds(52, k);
        lemma_pow2_adds(53, k);
        assert(m > 0x10_0000_0000_0000) by (nonlinear_arith)
            requires
                m * g > e,
                e >= pow2(52 + k),
                pow2(52 + k) == 0x10_0000_0000_0000 * g,
                g > 0,
        ;
        assert((2 * m - 1) * g <= 2 * e);
        let y = ((m - 1) * g) as nat;
        assert(y == (m - 1) as nat * pow2(k));
        lemma_significant((m - 1) as nat, k);
        assert(y <= e) by (nonlinear_arith)
            requires
                (2 * m - 1) * g <= 2 * e,
                y == (m - 1) * g,
                g > 0,
        ;
        // n / u is below the middle of y and f
        assert(2 * n < (2 * m - 1) * (g * u)) by (nonlinear_arith)
            requires
                n == (m * g) * p,
                p * 0x20_0000_0000_0000 <= 0x1f_ffff_ffff_ffff * u,
                m > 0x10_0000_0000_0000,
                g > 0,
                u > 0,
        ;
        if n <= y * u {
            lemma_round_le(n, u, y);
        } else {
            lemma_positive_product(g, u);
            assert(u * pow2(k) == g * u) by (nonlinear_arith)
                requires
                    g == pow2(k),
            ;
            assert(u * pow2(52 + k) <= n) by (nonlinear_arith)
                requires
                    n > y * u,
                    y == (m - 1) * g,
                    m - 1 >= 0x10_0000_0000_0000,
                    pow2(52 + k) == 0x10_0000_0000_0000 * g,
                    u > 0,
                    g > 0,
            ;
            assert(n < u * pow2(53 + k)) by (nonlinear_arith)
                requires
                    2 * n < (2 * m - 1) * (g * u),
                    m <= 0x20_0000_0000_0000,
                    pow2(53 + k) == 0x20_0000_0000_0000 * g,
                    u > 0,
                    g > 0,
            ;
            lemma_scale_unique(n, u, k);
            let gu = g * u;
            let w = (m - 1) as nat;
            assert((2 * w + 1) * gu == (2 * m - 1) * gu);
            assert((2 * w - 1) * gu < 2 * n) by (nonlinear_arith)
                requires
                    n > y * u,
                    y == w * g,
                    gu == g * u,
                    gu > 0,
            ;
            lemma_nearest_unique(n, gu, w);
        }
    }
}

/// How far a fall has come that is not over yet: less than all of it.
pub(crate) proof fn lemma_fall_progress(phase: Value)
    requires
        phase is Fin,
        phase.is_double(),
        20 * one_in_quanta() <= phase.quanta() < 80 * one_in_quanta(),
    ensures
        ({
            let p = phase.minus(Value::whole(20)).over(Value::whole(60));
            &&& p is Fin
            &&& 0 <= p.quanta()
            &&& p.quanta() * 0x20_0000_0000_0000 <= 0x1f_ffff_ffff_ffff * one_in_quanta()
        }),
{
    let u = one_in_quanta();
    let q = phase.quanta() as nat;
    lemma_zero_significant();
    lemma2_to64();
    lemma2_to64_rest();
    lemma_whole_exact(20);
    lemma_whole_exact(60);
    lemma_pow2_adds(47, 1027);
    lemma_pow2_pos(1027);
    let step = pow2(1027);
    assert(u == 0x8000_0000_0000 * step);
    // 60 - 2^-47
    let m: nat = 0x1d_ffff_ffff_ffff;
    let h = m * step;
    assert(h == 60 * u - step) by (nonlinear_arith)
        requires
            m == 0x1d_ffff_ffff_ffff,
            h == m * step,
            u == 0x8000_0000_0000 * step,
    ;
    lemma_significant(m, 1027);
    let d = (q - 20 * u) as nat;
    if q >= 64 * u {
        // the double below eighty is at least 2^-46 below it
        assert((5 * 1) * pow2(1078) == 80 * u) by {
            lemma_pow2_adds(4, 1074);
        }
        lemma_significant(5, 1078);
        assert(5 * pow2(1078) == 80 * u);
        lemma_next_double(80 * u, q);
        assert(80 * u - q > step) by (nonlinear_arith)
            requires
                (80 * u - q) * 0x20_0000_0000_0000 > q,
                q >= 64 * u,
                u == 0x8000_0000_0000 * step,
        ;
    }
    assert(d <= h);
    lemma_round_le(d, 1, h);
    lemma_pow2_adds(6, 1074);
    lemma_pow2_strictly_increases(1080, 2098);
    let v = round_mag(d, 1);
    lemma_minus_quanta(phase, Value::whole(20));
    // at most 1 - 2^-53
    let diff = phase.minus(Value::whole(20));
    lemma_pow2_adds(53, 1021);
    let top = 0x1f_ffff_ffff_ffff * pow2(1021);
    lemma_significant(0x1f_ffff_ffff_ffff, 1021);
    lemma_pow2_adds(6, 1021);
    assert(step == 64 * pow2(1021));
    assert(v * u <= top * (60 * u)) by (nonlinear_arith)
        requires
            v <= h,
            h == 60 * u - step,
            step == 64 * pow2(1021),
            u == 0x20_0000_0000_0000 * pow2(1021),
            top == 0x1f_ffff_ffff_ffff * pow2(1021),
    ;
    lemma_round_le(v * u, 60 * u, top);
    lemma_pow2_ordered(1074, 2098);
    lemma_over_quanta(diff, Value::whole(60));
    let p = round_mag(v * u, 60 * u);
    assert(p * 0x20_0000_0000_0000 <= 0x1f_ffff_ffff_ffff * u) by (nonlinear_arith)
        requires
            p <= top,
            u == 0x20_0000_0000_0000 * pow2(1021),
            top == 0x1f_ffff_ffff_ffff * pow2(1021),
    ;
}

/// How far a rebound has come: at most all of it.
pub(crate) proof fn lemma_rebound_progress(phase: Value)
    requires
        phase is Fin,
        80 * one_in_quanta() <= phase.quanta() < 240 * one_in_quanta(),
    ensures
        ({
            let p = phase.minus(Value::whole(80)).over(Value::whole(160));
            &&& p is Fin
            &&& 0 <= p.quanta() <= one_in_quanta()
        }),
{
    let u = one_in_quanta();
    lemma_zero_significant();
    lemma2_to64();
    lemma_whole_exact(80);
    lemma_whole_exact(160);
    let d = (phase.quanta() - 80 * u) as nat;
    lemma_significant(160, 1074);
    lemma_pow2_adds(8, 1074);
    lemma_pow2_strictly_increases(1082, 2098);
    lemma_round_le(d, 1, 160 * u);
    lemma_minus_quanta(phase, Value::whole(80));
    let v = round_mag(d, 1);
    assert(v * u <= u * (160 * u)) by (nonlinear_arith)
        requires
            v <= 160 * u,
    ;
    lemma_round_le(v * u, 160 * u, u);
    lemma_over_quanta(phase.minus(Value::whole(80)), Value::whole(160));
}

/// The rebound is less than the fall.
pub(crate) proof fn lemma_rebound(cfg: SimConfigModel)
    requires
        is_playable(cfg),
    ensures
        ({
            let e = cfg.crash_top_px.quanta() - cfg.crash_bottom_px.quanta();
            let rebound = cfg.crash_top_px.minus(cfg.crash_bottom_px).times(
                Value::ratio(12, 100),
            );
            &&& rebound is Fin
            &&& 0 <= rebound.quanta() <= e
            &&& rebound.quanta() < overflow_bound()
            &&& significant(rebound.quanta() as nat)
        }),
{
    let u = one_in_quanta();
    let e = (cfg.crash_top_px.quanta() - cfg.crash_bottom_px.quanta()) as nat;
    let fall = cfg.crash_top_px.minus(cfg.crash_bottom_px);
    let f = round_mag(e, 1);
    lemma_fall(cfg);
    lemma_zero_significant();
    lemma2_to64();
    // twelve hundredths is at most an eighth
    lemma_pow2_adds(3, 1071);
    lemma_pow2_pos(1071);
    assert(1 * pow2(1071) == pow2(1071));
    lemma_significant(1, 1071);
    lemma_round_le(12 * u, 100, pow2(1071));
    lemma_pow2_strictly_increases(1071, 2098);
    let share = Value::ratio(12, 100);
    let t = round_mag(12 * u, 100);
    assert(share == (Value::Fin { neg: false, mag: t }));
    let n = f * t;
    assert(8 * n <= f * u) by (nonlinear_arith)
        requires
            n == f * t,
            t <= pow2(1071),
            u == 8 * pow2(1071),
    ;
    assert(4 * n <= e * u) by (nonlinear_arith)
        requires
            8 * n <= f * u,
            f <= 2 * e,
    ;
    assert(n <= f * u) by (nonlinear_arith)
        requires
            8 * n <= f * u,
    ;
    lemma_round_le(n, u, f);
    let r = round_mag(n, u);
    lemma_round_error(n, u);
    lemma_round_significant(n, u);
    if e == 0 {
        assert(n == 0) by (nonlinear_arith)
            requires
                4 * n <= e * u,
                e == 0,
        ;
        assert(0 * u == 0);
        lemma_round_keeps(0, u);
    } else {
        assert(r <= e) by (nonlinear_arith)
            requires
                4 * n <= e * u,
                n < u * 0x20_0000_0000_0000 ==> 2 * (r * u - n) <= u,
                n >= u * 0x20_0000_0000_0000 ==> 0x20_0000_0000_0000 * (r * u - n) <= n,
                e >= 1,
                u > 0,
        ;
    }
    lemma_times_quanta(fall, share);
}

/// The price of the crash never leaves the range between the bottom and the top.
pub proof fn law_crash_within_range(t: Value, cfg: SimConfigModel)
    requires
        is_playable(cfg),
        t is Fin,
        t.is_double(),
    ensures
        cfg.crash_bottom_px.le(crash_price_at(t, cfg)),
        crash_price_at(t, cfg).le(cfg.crash_top_px),
{
    let phase = t.modulo(cfg.cycle_secs);
    let top = cfg.crash_top_px;
    let bot = cfg.crash_bottom_px;
    let e = (top.quanta() - bot.quanta()) as nat;
    let fall = top.minus(bot);
    lemma_zero_significant();
    lemma_whole_exact(20);
    lemma_whole_exact(80);
    lemma_whole_exact(240);
    lemma_results_are_doubles(t, cfg.cycle_secs);
    lemma_fall(cfg);
    lemma_rebound(cfg);
    if phase.lt(Value::whole(20)) {
    } else if phase.lt(Value::whole(80)) {
        lemma_fall_progress(phase);
        let p = phase.minus(Value::whole(20)).over(Value::whole(60));
        lemma_share_of_difference(e, p.quanta() as nat);
        lemma_times_quanta(fall, p);
        let lost = fall.times(p);
        assert(lost.negated().quanta() == -lost.quanta());
        lemma_sum_between(bot, top, top.quanta() - lost.quanta(), true);
        lemma_sum_between(bot, top, top.quanta() - lost.quanta(), false);
    } else {
        let rebound = fall.times(Value::ratio(12, 100));
        let won = won_back(phase, rebound);
        lemma_won_back(phase, rebound);
        lemma_sum_between(bot, top, bot.quanta() + won.quanta(), true);
        lemma_sum_between(bot, top, bot.quanta() + won.quanta(), false);
    }
}

/// The crash opens at the top: for the first twenty seconds of a cycle nothing happens.
pub proof fn law_crash_opens_at_the_top(t: Value, cfg: SimConfigModel)
    requires
        is_playable(cfg),
        t.modulo(cfg.cycle_secs).le(Value::whole(20)),
    ensures
        crash_price_at(t, cfg) is Fin,
        crash_price_at(t, cfg).quanta() == cfg.crash_top_px.quanta(),
{
    let u = one_in_quanta();
    let phase = t.modulo(cfg.cycle_secs);
    let top = cfg.crash_top_px;
    let fall = top.minus(cfg.crash_bottom_px);
    lemma_zero_significant();
    lemma_whole_exact(20);
    lemma_whole_exact(60);
    lemma_whole_exact(80);
    if !phase.lt(Value::whole(20)) {
        assert(phase == Value::whole(20));
        lemma_fall(cfg);
        lemma_round_keeps(0, 1);
        lemma_minus_quanta(phase, phase);
        let start = phase.minus(phase);
        assert(0 * u == 0);
        assert(0 * (60 * u) == 0);
        lemma_round_keeps(0, 60 * u);
        lemma_over_quanta(start, Value::whole(60));
        let p = start.over(Value::whole(60));
        let f = fall.quanta() as nat;
        assert(f * 0 == 0);
        lemma_round_keeps(0, u);
        lemma_times_quanta(fall, p);
        let lost = fall.times(p);
        assert(lost.negated().quanta() == -lost.quanta());
        lemma_sum_between(top, top, top.quanta(), true);
        lemma_sum_between(top, top, top.quanta(), false);
    }
}

/// The price falls until the eightieth second of a cycle: until then it never rises.
pub proof fn law_crash_falls(t: Value, later: Value, cfg: SimConfigModel)
    requires
        is_playable(cfg),
        t is Fin,
        t.is_double(),
        later is Fin,
        later.is_double(),
        t.modulo(cfg.cycle_secs).le(later.modulo(cfg.cycle_secs)),
        later.modulo(cfg.cycle_secs).le(Value::whole(80)),
    ensures
        crash_price_at(later, cfg).le(crash_price_at(t, cfg)),
{
    let p = t.modulo(cfg.cycle_secs);
    let q = later.modulo(cfg.cycle_secs);
    lemma_zero_significant();
    lemma_whole_exact(20);
    lemma_whole_exact(80);
    law_crash_within_range(t, cfg);
    law_crash_within_range(later, cfg);
    if p.lt(Value::whole(20)) {
    } else if !q.lt(Value::whole(80)) {
        assert(q == Value::whole(80));
        law_crash_reaches_the_bottom(later, cfg);
    } else {
        lemma_falling(t, later, cfg);
    }
}

/// While the price falls, it does not rise.
proof fn lemma_falling(t: Value, later: Value, cfg: SimConfigModel)
    requires
        is_playable(cfg),
        t.is_double(),
        later.is_double(),
        Value::whole(20).le(t.modulo(cfg.cycle_secs)),
        t.modulo(cfg.cycle_secs).le(later.modulo(cfg.cycle_secs)),
        later.modulo(cfg.cycle_secs).lt(Value::whole(80)),
    ensures
        crash_price_at(later, cfg).le(crash_price_at(t, cfg)),
{
    let p = t.modulo(cfg.cycle_secs);
    let q = later.modulo(cfg.cycle_secs);
    let top = cfg.crash_top_px;
    let fall = top.minus(cfg.crash_bottom_px);
    let e = (top.quanta() - cfg.crash_bottom_px.quanta()) as nat;
    lemma_zero_significant();
    lemma_whole_exact(20);
    lemma_whole_exact(60);
    lemma_whole_exact(80);
    lemma_results_are_doubles(t, cfg.cycle_secs);
    lemma_results_are_doubles(later, cfg.cycle_secs);
    lemma_fall(cfg);
    lemma_fall_progress(p);
    lemma_fall_progress(q);
    let a = p.minus(Value::whole(20));
    let b = q.minus(Value::whole(20));
    lemma_minus_ordered(Value::whole(20), p, Value::whole(20), Value::whole(20));
    lemma_minus_ordered(p, q, Value::whole(20), Value::whole(20));
    lemma_over_ordered(a, b, Value::whole(60));
    let x = a.over(Value::whole(60));
    let y = b.over(Value::whole(60));
    lemma_share_of_difference(e, x.quanta() as nat);
    lemma_share_of_difference(e, y.quanta() as nat);
    lemma_times_quanta(fall, x);
    lemma_times_quanta(fall, y);
    lemma_times_ordered(x, y, fall);
    lemma_minus_ordered(top, top, fall.times(y), fall.times(x));
}

/// Eighty seconds into a cycle the price is at the bottom.
pub proof fn law_crash_reaches_the_bottom(t: Value, cfg: SimConfigModel)
    requires
        is_playable(cfg),
        t.modulo(cfg.cycle_secs) == Value::whole(80),
    ensures
        crash_price_at(t, cfg) is Fin,
        crash_price_at(t, cfg).quanta() == cfg.crash_bottom_px.quanta(),
{
    let u = one_in_quanta();
    let bot = cfg.crash_bottom_px;
    let rebound = cfg.crash_top_px.minus(bot).times(Value::ratio(12, 100));
    let phase = Value::whole(80);
    lemma_zero_significant();
    lemma_whole_exact(20);
    lemma_whole_exact(80);
    lemma_whole_exact(160);
    lemma_whole_exact(240);
    lemma_rebound(cfg);
    lemma_round_keeps(0, 1);
    lemma_minus_quanta(phase, phase);
    let start = phase.minus(phase);
    assert(0 * u == 0);
    assert(0 * (160 * u) == 0);
    lemma_round_keeps(0, 160 * u);
    lemma_over_quanta(start, Value::whole(160));
    let p = start.over(Value::whole(160));
    let r = rebound.quanta() as nat;
    assert(r * 0 == 0);
    lemma_round_keeps(0, u);
    lemma_times_quanta(rebound, p);
    lemma_sum_between(bot, bot, bot.quanta(), true);
    lemma_sum_between(bot, bot, bot.quanta(), false);
}

/// From the bottom on the price recovers: it never falls between the eightieth second of a
/// cycle and the end, and wins back no more than twelve percent of the fall.
pub proof fn law_crash_recovers(t: Value, later: Value, cfg: SimConfigModel)
    requires
        is_playable(cfg),
        Value::whole(80).le(t.modulo(cfg.cycle_secs)),
        t.modulo(cfg.cycle_secs).le(later.modulo(cfg.cycle_secs)),
    ensures
        crash_price_at(t, cfg).le(crash_price_at(later, cfg)),
        crash_price_at(later, cfg).le(
            cfg.crash_bottom_px.plus(
                cfg.crash_top_px.minus(cfg.crash_bottom_px).times(Value::ratio(12, 100)),
            ),
        ),
{
    let p = t.modulo(cfg.cycle_secs);
    let q = later.modulo(cfg.cycle_secs);
    let bot = cfg.crash_bottom_px;
    let rebound = cfg.crash_top_px.minus(bot).times(Value::ratio(12, 100));
    lemma_zero_significant();
    lemma_whole_exact(20);
    lemma_whole_exact(80);
    lemma_whole_exact(160);
    lemma_whole_exact(240);
    lemma_rebound(cfg);
    let x = won_back(p, rebound);
    let y = won_back(q, rebound);
    lemma_won_back(p, rebound);
    lemma_won_back(q, rebound);
    if q.lt(Value::whole(240)) {
        let a = p.minus(Value::whole(80));
        let b = q.minus(Value::whole(80));
        lemma_minus_ordered(Value::whole(80), p, Value::whole(80), Value::whole(80));
        lemma_minus_ordered(p, q, Value::whole(80), Value::whole(80));
        lemma_over_ordered(a, b, Value::whole(160));
        lemma_times_ordered(
            a.over(Value::whole(160)),
            b.over(Value::whole(160)),
            rebound,
        );
    }
    assert(x.le(y));
    match (bot, x, y, rebound) {
        (
            Value::Fin { neg: nb, .. },
            Value::Fin { neg: nx, .. },
            Value::Fin { neg: ny, .. },
            Value::Fin { neg: nr, .. },
        ) => {
            lemma_rounded_sum_ordered(
                bot.quanta() + x.quanta(),
                bot.quanta() + y.quanta(),
                nb && nx,
                nb && ny,
            );
            lemma_rounded_sum_ordered(
                bot.quanta() + y.quanta(),
                bot.quanta() + rebound.quanta(),
                nb && ny,
                nb && nr,
            );
        },
        _ => {},
    }
}

/// What has been won back of the fall at a phase after the bottom.
pub(crate) open spec fn won_back(phase: Value, rebound: Value) -> Value {
    if phase.lt(Value::whole(240)) {
        rebound.times(phase.minus(Value::whole(80)).over(Value::whole(160)))
    } else {
        rebound
    }
}

/// No more than the rebound is won back.
pub(crate) proof fn lemma_won_back(phase: Value, rebound: Value)
    requires
        phase is Fin,
        Value::whole(80).le(phase),
        rebound is Fin,
        0 <= rebound.quanta() < overflow_bound(),
        significant(rebound.quanta() as nat),
    ensures
        won_back(phase, rebound) is Fin,
        0 <= won_back(phase, rebound).quanta() <= rebound.quanta(),
{
    let u = one_in_quanta();
    lemma_zero_significant();
    lemma_whole_exact(80);
    lemma_whole_exact(240);
    if phase.lt(Value::whole(240)) {
        lemma_rebound_progress(phase);
        let p = phase.minus(Value::whole(80)).over(Value::whole(160));
        let r = rebound.quanta() as nat;
        let w = p.quanta() as nat;
        assert(r * w <= r * u) by (nonlinear_arith)
            requires
                w <= u,
        ;
        lemma_round_le(r * w, u, r);
        lemma_times_quanta(rebound, p);
    }
}

} // verus!
