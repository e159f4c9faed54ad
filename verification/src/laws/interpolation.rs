//! The crash in exact numbers: how far the price has fallen or recovered at each moment.

use vstd::arithmetic::power2::*;
use vstd::prelude::*;

use crate::binary64::double::lemma_whole_exact;
use crate::binary64::model::{one_in_quanta, round_mag, Value};
use crate::binary64::order::{
    lemma_minus_quanta, lemma_over_error, lemma_plus_error, lemma_product_error,
    lemma_results_are_doubles, lemma_round_error, lemma_round_le, lemma_significant,
    lemma_zero_significant, positive, size,
};
use crate::binary64::rounding::lemma_pow2_ordered;
use crate::feeds::cex::crash_price_at;
use crate::laws::crash::{
    is_playable, law_crash_within_range, lemma_fall, lemma_fall_progress, lemma_rebound,
    lemma_rebound_progress, lemma_share_of_difference, lemma_won_back, won_back,
};
use crate::markets::SimConfigModel;

verus! {

/// How far a stretch of a cycle has come, as a part of one: `(q - from) / span`.
proof fn lemma_progress(phase: Value, from: nat, over: nat)
    requires
        phase is Fin,
        from * one_in_quanta() <= phase.quanta() <= (from + over) * one_in_quanta(),
        from <= 1000,
        0 < over <= 1000,
    ensures
        ({
            let c = 0x20_0000_0000_0000int;
            let u = one_in_quanta() as int;
            let w = phase.minus(Value::whole(from)).over(Value::whole(over));
            &&& w is Fin
            &&& w.quanta() >= 0
            &&& -(3 * (over * u)) <= c * (over * w.quanta() - (phase.quanta() - from * u)) <= 3 * (
            over * u)
        }),
{
    let c: int = 0x20_0000_0000_0000;
    let u = one_in_quanta() as int;
    let n = over as int;
    lemma_zero_significant();
    lemma2_to64();
    lemma2_to64_rest();
    lemma_pow2_ordered(60, 1074);
    lemma_whole_exact(from);
    lemma_whole_exact(over);
    let start = Value::whole(from);
    let end = Value::whole(over);
    let fu = (from * one_in_quanta()) as int;
    let nu = (over * one_in_quanta()) as int;
    assert((from + over) * one_in_quanta() == fu + nu) by (nonlinear_arith)
        requires
            fu == from * one_in_quanta(),
            nu == over * one_in_quanta(),
    ;
    let d = phase.quanta() - fu;
    assert(0 <= d <= nu);
    lemma_significant(over, 1074);
    lemma_round_le(d as nat, 1, nu as nat);
    lemma_pow2_adds(10, 1074);
    lemma_pow2_strictly_increases(1084, 2098);
    assert(nu <= 1024 * u) by (nonlinear_arith)
        requires
            nu == over * one_in_quanta(),
            u == one_in_quanta(),
            over <= 1000,
            u > 0,
    ;
    assert(nu > 0) by (nonlinear_arith)
        requires
            nu == over * one_in_quanta(),
            over > 0,
            one_in_quanta() > 0,
    ;
    lemma_minus_quanta(phase, start);
    assert(start.negated().quanta() == -fu);
    lemma_plus_error(phase, start.negated());
    let gone = phase.minus(start);
    let a = gone.quanta();
    assert(positive(end));
    lemma_over_error(gone, end);
    let w = round_mag(a as nat * u as nat, nu as nat) as int;
    assert(a as nat * u as nat <= u as nat * nu as nat) by (nonlinear_arith)
        requires
            0 <= a <= nu,
            u > 0,
    ;
    lemma_round_le(a as nat * u as nat, nu as nat, u as nat);
    lemma_pow2_strictly_increases(1074, 2098);
    assert(gone.over(end) is Fin && gone.over(end).quanta() == w);
    let nw = n * w;
    assert(-(2 * a + c * n) <= (2 * c) * (nw - a) <= 2 * a + c * n) by (nonlinear_arith)
        requires
            -(2 * (a * u) + c * nu) <= (2 * c) * (w * nu - a * u) <= 2 * (a * u) + c * nu,
            nu == n * u,
            nw == n * w,
            u > 0,
    ;
    assert(c * n <= nu) by (nonlinear_arith)
        requires
            nu == n * u,
            c <= u,
            n > 0,
    ;
}

/// A part of the fall, by how far the stretch has come.
proof fn lemma_part(c: int, u: int, n: int, f: int, g: int, w: int, d: int, r: int)
    requires
        c == 0x20_0000_0000_0000,
        u > 0,
        0 < n <= 1000,
        f >= 0,
        0 <= w <= u,
        0 <= d <= n * u,
        -(3 * (n * u)) <= c * (n * w - d) <= 3 * (n * u),
        -(2 * (f * w) + c * u) <= (2 * c) * (u * r - f * w) <= 2 * (f * w) + c * u,
        g == f * d,
    ensures
        -(4 * ((n * u) * f) + c * (n * u)) <= c * (n * (u * r) - g) <= 4 * ((n * u) * f) + c * (n
            * u),
{
    let nu = n * u;
    let nuf = nu * f;
    let fw = f * w;
    let ur = u * r;
    let a1 = c * (n * w - d);
    assert(-(3 * nuf) <= f * a1 <= 3 * nuf) by (nonlinear_arith)
        requires
            -(3 * nu) <= a1 <= 3 * nu,
            nuf == nu * f,
            f >= 0,
    ;
    assert(f * a1 == c * (n * fw - g)) by (nonlinear_arith)
        requires
            a1 == c * (n * w - d),
            fw == f * w,
            g == f * d,
    ;
    let a2 = (2 * c) * (ur - fw);
    assert(-(2 * (n * fw) + c * nu) <= n * a2 <= 2 * (n * fw) + c * nu) by (nonlinear_arith)
        requires
            -(2 * fw + c * u) <= a2 <= 2 * fw + c * u,
            nu == n * u,
            n > 0,
    ;
    assert(n * a2 == (2 * c) * (n * ur - n * fw)) by (nonlinear_arith)
        requires
            a2 == (2 * c) * (ur - fw),
    ;
    assert(0 <= n * fw <= nuf) by (nonlinear_arith)
        requires
            fw == f * w,
            nuf == (n * u) * f,
            0 <= w <= u,
            f >= 0,
            n > 0,
    ;
    assert(c * nu >= 0) by (nonlinear_arith)
        requires
            nu == n * u,
            n > 0,
            u > 0,
            c > 0,
    ;
}

/// From the twentieth second of a cycle to the eightieth the price falls in proportion to time:
/// it has lost as large a part of the fall as the time has come of the minute, up to rounding.
pub proof fn law_fall_is_linear(t: Value, cfg: SimConfigModel)
    requires
        is_playable(cfg),
        t is Fin,
        t.is_double(),
        t.quanta() >= 0,
        20 * one_in_quanta() <= t.quanta() % cfg.cycle_secs.quanta() < 80 * one_in_quanta(),
    ensures
        ({
            let c = 0x20_0000_0000_0000int;
            let u = one_in_quanta() as int;
            let top = cfg.crash_top_px.quanta();
            let bot = cfg.crash_bottom_px.quanta();
            let gone = t.quanta() % cfg.cycle_secs.quanta() - 20 * u;
            let px = crash_price_at(t, cfg);
            let slack = 1000 * (u * (size(top) + size(bot))) + (64 * c) * u;
            &&& px is Fin
            &&& -slack <= c * (60 * (u * (top - px.quanta())) - gone * (top - bot)) <= slack
        }),
{
    let c: int = 0x20_0000_0000_0000;
    let u = one_in_quanta() as int;
    let phase = t.modulo(cfg.cycle_secs);
    let top = cfg.crash_top_px;
    let bot = cfg.crash_bottom_px;
    let q = t.quanta() % cfg.cycle_secs.quanta();
    lemma_phase(t, cfg.cycle_secs);
    lemma_zero_significant();
    lemma_whole_exact(20);
    lemma_whole_exact(60);
    lemma_whole_exact(80);
    lemma_results_are_doubles(t, cfg.cycle_secs);
    law_crash_within_range(t, cfg);
    let e = top.quanta() - bot.quanta();
    let fall = top.minus(bot);
    let f = fall.quanta();
    lemma_fall(cfg);
    lemma_round_error(e as nat, 1);
    assert((20 + 60) * one_in_quanta() == 80 * u);
    lemma_progress(phase, 20, 60);
    lemma_fall_progress(phase);
    let progress = phase.minus(Value::whole(20)).over(Value::whole(60));
    let w = progress.quanta();
    assert(w <= u);
    lemma_product_error(fall, progress);
    lemma_share_of_difference(e as nat, w as nat);
    let lost = fall.times(progress);
    let r = lost.quanta();
    assert(lost is Fin && 0 <= r <= e);
    let d = q - 20 * u;
    assert(0 <= d <= 60 * u);
    lemma_part(c, u, 60, f, f * d, w, d, r);
    // the price
    assert(lost.negated().quanta() == -r);
    let px = crash_price_at(t, cfg);
    assert(px == top.minus(lost));
    lemma_plus_error(top, lost.negated());
    let b = size(top.quanta()) + size(bot.quanta());
    lemma_fall_together(c, u, top.quanta(), px.quanta(), e, f, r, d, b);
}

/// The stages of a fall, together.
proof fn lemma_fall_together(
    c: int,
    u: int,
    top: int,
    px: int,
    e: int,
    f: int,
    r: int,
    d: int,
    b: int,
)
    requires
        c == 0x20_0000_0000_0000,
        u > 0,
        0 <= e <= b,
        0 <= f <= 2 * e,
        0 <= d <= 60 * u,
        -e <= c * (f - e) <= e,
        -(4 * ((60 * u) * f) + c * (60 * u)) <= c * (60 * (u * r) - f * d) <= 4 * ((60 * u) * f) + c
            * (60 * u),
        size(top - r) <= b,
        -size(top - r) <= c * (px - (top - r)) <= size(top - r),
    ensures
        ({
            let slack = 1000 * (u * b) + (64 * c) * u;
            -slack <= c * (60 * (u * (top - px)) - d * e) <= slack
        }),
{
    let ub = u * b;
    let fd = f * d;
    let de = d * e;
    let ur = u * r;
    let uf = u * f;
    assert(0 <= uf <= 2 * ub) by (nonlinear_arith)
        requires
            uf == u * f,
            ub == u * b,
            0 <= f <= 2 * b,
            u > 0,
    ;
    assert((60 * u) * f == 60 * uf) by (nonlinear_arith)
        requires
            uf == u * f,
    ;
    let a1 = c * (f - e);
    assert(-(60 * ub) <= d * a1 <= 60 * ub) by (nonlinear_arith)
        requires
            -e <= a1 <= e,
            e <= b,
            0 <= d <= 60 * u,
            ub == u * b,
            e >= 0,
    ;
    assert(d * a1 == c * (fd - de)) by (nonlinear_arith)
        requires
            a1 == c * (f - e),
            fd == f * d,
            de == d * e,
    ;
    let a2 = c * (px - (top - r));
    assert(-ub <= a2 * u <= ub) by (nonlinear_arith)
        requires
            -b <= a2 <= b,
            ub == u * b,
            u > 0,
    ;
    let i2 = px - (top - r);
    assert(a2 * u == c * (i2 * u)) by (nonlinear_arith)
        requires
            a2 == c * i2,
    ;
    let ut = u * (top - px);
    assert(i2 * u == ur - ut) by (nonlinear_arith)
        requires
            i2 == px - (top - r),
            ur == u * r,
            ut == u * (top - px),
    ;
    assert(c * (60 * u) == 60 * (c * u)) by (nonlinear_arith);
    assert((64 * c) * u == 64 * (c * u)) by (nonlinear_arith);
    assert(c * u >= 0) by (nonlinear_arith)
        requires
            c > 0,
            u > 0,
    ;
}

/// The phase of a time that is not below zero is its remainder.
proof fn lemma_phase(t: Value, cycle: Value)
    requires
        t is Fin,
        t.quanta() >= 0,
        positive(cycle),
    ensures
        t.modulo(cycle) is Fin,
        t.modulo(cycle).quanta() == t.quanta() % cycle.quanta(),
        t.modulo(cycle).quanta() >= 0,
{
    let (x, y) = (t.quanta(), cycle.quanta());
    vstd::arithmetic::div_mod::lemma_mod_bound(x, y);
    vstd::arithmetic::div_mod::lemma_small_mod(0, y as nat);
    match (t, cycle) {
        (Value::Fin { mag: a, .. }, Value::Fin { mag: b, .. }) => {
            assert(a == x && b == y);
            assert(a % b == x % y);
        },
        _ => {},
    }
}

/// The rebound is twelve hundredths of the fall, up to rounding.
proof fn lemma_rebound_size(cfg: SimConfigModel)
    requires
        is_playable(cfg),
    ensures
        ({
            let c = 0x20_0000_0000_0000int;
            let e = cfg.crash_top_px.quanta() - cfg.crash_bottom_px.quanta();
            let rebound = cfg.crash_top_px.minus(cfg.crash_bottom_px).times(
                Value::ratio(12, 100),
            );
            -(236 * e + 50 * c) <= c * (100 * rebound.quanta() - 12 * e) <= 236 * e + 50 * c
        }),
{
    let c: int = 0x20_0000_0000_0000;
    let u = one_in_quanta() as int;
    let e = cfg.crash_top_px.quanta() - cfg.crash_bottom_px.quanta();
    let fall = cfg.crash_top_px.minus(cfg.crash_bottom_px);
    let f = fall.quanta();
    lemma_zero_significant();
    lemma2_to64_rest();
    lemma_pow2_ordered(63, 1074);
    lemma_pow2_strictly_increases(1074, 2098);
    lemma_fall(cfg);
    lemma_round_error(e as nat, 1);
    lemma_rebound(cfg);
    lemma_round_error((12 * u) as nat, 100);
    lemma_round_le((12 * u) as nat, 100, u as nat);
    let share = Value::ratio(12, 100);
    let t = share.quanta();
    assert(share is Fin && -(12 * u) <= c * (100 * t - 12 * u) <= 12 * u);
    lemma_product_error(fall, share);
    let r = fall.times(share).quanta();
    lemma_rebound_together(c, u, e, f, t, r);
}

proof fn lemma_rebound_together(c: int, u: int, e: int, f: int, t: int, r: int)
    requires
        c == 0x20_0000_0000_0000,
        u > 0,
        0 <= e,
        0 <= f <= 2 * e,
        0 <= t <= u,
        -e <= c * (f - e) <= e,
        -(12 * u) <= c * (100 * t - 12 * u) <= 12 * u,
        -(2 * (f * t) + c * u) <= (2 * c) * (u * r - f * t) <= 2 * (f * t) + c * u,
    ensures
        -(236 * e + 50 * c) <= c * (100 * r - 12 * e) <= 236 * e + 50 * c,
{
    let ft = f * t;
    let fu = f * u;
    let eu = e * u;
    let ur = u * r;
    let cu = c * u;
    assert(0 <= ft <= fu && 0 <= fu <= 2 * eu && cu > 0) by (nonlinear_arith)
        requires
            ft == f * t,
            fu == f * u,
            eu == e * u,
            cu == c * u,
            0 <= t <= u,
            0 <= f <= 2 * e,
            c > 0,
            u > 0,
    ;
    let a1 = c * (100 * t - 12 * u);
    assert(-(12 * fu) <= f * a1 <= 12 * fu) by (nonlinear_arith)
        requires
            -(12 * u) <= a1 <= 12 * u,
            fu == f * u,
            f >= 0,
    ;
    assert(f * a1 == c * (100 * ft - 12 * fu)) by (nonlinear_arith)
        requires
            a1 == c * (100 * t - 12 * u),
            ft == f * t,
            fu == f * u,
    ;
    let a2 = c * (f - e);
    assert(-eu <= a2 * u <= eu) by (nonlinear_arith)
        requires
            -e <= a2 <= e,
            eu == e * u,
            u > 0,
    ;
    assert(a2 * u == c * (fu - eu)) by (nonlinear_arith)
        requires
            a2 == c * (f - e),
            fu == f * u,
            eu == e * u,
    ;
    let a3 = c * (100 * r - 12 * e);
    assert(a3 * u == c * (100 * ur - 12 * eu)) by (nonlinear_arith)
        requires
            a3 == c * (100 * r - 12 * e),
            ur == u * r,
            eu == e * u,
    ;
    let slack = 236 * e + 50 * c;
    assert(slack * u == 236 * eu + 50 * cu) by (nonlinear_arith)
        requires
            slack == 236 * e + 50 * c,
            eu == e * u,
            cu == c * u,
    ;
    assert(-(slack * u) <= a3 * u <= slack * u);
    assert(-slack <= a3 <= slack) by (nonlinear_arith)
        requires
            -(slack * u) <= a3 * u <= slack * u,
            u > 0,
    ;
}

/// From the eightieth second of a cycle to the end of the fourth minute the price recovers in
/// proportion to time: of twelve hundredths of the fall, it has won back as large a part as the
/// time has come of the stretch, up to rounding.
pub proof fn law_recovery_is_linear(t: Value, cfg: SimConfigModel)
    requires
        is_playable(cfg),
        t is Fin,
        t.is_double(),
        t.quanta() >= 0,
        80 * one_in_quanta() <= t.quanta() % cfg.cycle_secs.quanta() < 240 * one_in_quanta(),
    ensures
        ({
            let c = 0x20_0000_0000_0000int;
            let u = one_in_quanta() as int;
            let top = cfg.crash_top_px.quanta();
            let bot = cfg.crash_bottom_px.quanta();
            let gone = t.quanta() % cfg.cycle_secs.quanta() - 80 * u;
            let px = crash_price_at(t, cfg);
            let slack = 131_072 * (u * (size(top) + size(bot))) + (32_768 * c) * u;
            &&& px is Fin
            &&& -slack <= c * (16_000 * (u * (px.quanta() - bot)) - 12 * (gone * (top - bot)))
                <= slack
        }),
{
    let c: int = 0x20_0000_0000_0000;
    let u = one_in_quanta() as int;
    let phase = t.modulo(cfg.cycle_secs);
    let top = cfg.crash_top_px;
    let bot = cfg.crash_bottom_px;
    let q = t.quanta() % cfg.cycle_secs.quanta();
    lemma_phase(t, cfg.cycle_secs);
    lemma_zero_significant();
    lemma_whole_exact(20);
    lemma_whole_exact(80);
    lemma_whole_exact(160);
    lemma_whole_exact(240);
    law_crash_within_range(t, cfg);
    let e = top.quanta() - bot.quanta();
    let rebound = top.minus(bot).times(Value::ratio(12, 100));
    let rho = rebound.quanta();
    lemma_rebound(cfg);
    lemma_rebound_size(cfg);
    assert((80 + 160) * one_in_quanta() == 240 * u);
    lemma_progress(phase, 80, 160);
    lemma_rebound_progress(phase);
    lemma_won_back(phase, rebound);
    let progress = phase.minus(Value::whole(80)).over(Value::whole(160));
    let w = progress.quanta();
    lemma_product_error(rebound, progress);
    let won = rebound.times(progress);
    let r = won.quanta();
    assert(won == won_back(phase, rebound));
    assert(won is Fin && 0 <= r <= rho);
    let d = q - 80 * u;
    lemma_part(c, u, 160, rho, rho * d, w, d, r);
    let px = crash_price_at(t, cfg);
    assert(px == bot.plus(won));
    lemma_plus_error(bot, won);
    let b = size(top.quanta()) + size(bot.quanta());
    lemma_recovery_together(c, u, bot.quanta(), px.quanta(), e, rho, r, d, b);
}

/// The stages of a recovery, together.
proof fn lemma_recovery_together(
    c: int,
    u: int,
    bot: int,
    px: int,
    e: int,
    rho: int,
    r: int,
    d: int,
    b: int,
)
    requires
        c == 0x20_0000_0000_0000,
        u > 0,
        0 <= e <= b,
        0 <= rho <= e,
        0 <= d <= 160 * u,
        -(236 * e + 50 * c) <= c * (100 * rho - 12 * e) <= 236 * e + 50 * c,
        -(4 * ((160 * u) * rho) + c * (160 * u)) <= c * (160 * (u * r) - rho * d) <= 4 * ((160 * u)
            * rho) + c * (160 * u),
        size(bot + r) <= b,
        -size(bot + r) <= c * (px - (bot + r)) <= size(bot + r),
    ensures
        ({
            let slack = 131_072 * (u * b) + (32_768 * c) * u;
            -slack <= c * (16_000 * (u * (px - bot)) - 12 * (d * e)) <= slack
        }),
{
    let ub = u * b;
    let cu = c * u;
    let rd = rho * d;
    let de = d * e;
    let ur = u * r;
    let up = u * rho;
    assert(0 <= up <= ub && cu >= 0) by (nonlinear_arith)
        requires
            up == u * rho,
            ub == u * b,
            cu == c * u,
            0 <= rho <= b,
            c > 0,
            u > 0,
    ;
    assert((160 * u) * rho == 160 * up) by (nonlinear_arith)
        requires
            up == u * rho,
    ;
    assert(c * (160 * u) == 160 * cu) by (nonlinear_arith)
        requires
            cu == c * u,
    ;
    let a1 = c * (100 * rho - 12 * e);
    let s1 = 236 * e + 50 * c;
    assert(-(37_760 * ub + 8000 * cu) <= d * a1 <= 37_760 * ub + 8000 * cu) by {
        assert(s1 >= 0);
        assert(-((160 * u) * s1) <= d * a1 <= (160 * u) * s1) by (nonlinear_arith)
            requires
                -s1 <= a1 <= s1,
                0 <= d <= 160 * u,
                s1 >= 0,
        ;
        assert((160 * u) * s1 <= 37_760 * ub + 8000 * cu) by (nonlinear_arith)
            requires
                s1 == 236 * e + 50 * c,
                e <= b,
                ub == u * b,
                cu == c * u,
                u > 0,
        ;
    }
    assert(d * a1 == c * (100 * rd - 12 * de)) by (nonlinear_arith)
        requires
            a1 == c * (100 * rho - 12 * e),
            rd == rho * d,
            de == d * e,
    ;
    let a2 = c * (px - (bot + r));
    let i2 = px - (bot + r);
    assert(-ub <= a2 * u <= ub) by (nonlinear_arith)
        requires
            -b <= a2 <= b,
            ub == u * b,
            u > 0,
    ;
    assert(a2 * u == c * (i2 * u)) by (nonlinear_arith)
        requires
            a2 == c * i2,
    ;
    let ux = u * (px - bot);
    assert(i2 * u == ux - ur) by (nonlinear_arith)
        requires
            i2 == px - (bot + r),
            ur == u * r,
            ux == u * (px - bot),
    ;
    assert((32_768 * c) * u == 32_768 * cu) by (nonlinear_arith)
        requires
            cu == c * u,
    ;
}

/// From the end of the fourth minute to the end of the cycle the price stays twelve hundredths
/// of the fall above the bottom, up to rounding.
pub proof fn law_recovery_stops(t: Value, cfg: SimConfigModel)
    requires
        is_playable(cfg),
        t is Fin,
        t.is_double(),
        t.quanta() >= 0,
        240 * one_in_quanta() <= t.quanta() % cfg.cycle_secs.quanta(),
    ensures
        ({
            let c = 0x20_0000_0000_0000int;
            let top = cfg.crash_top_px.quanta();
            let bot = cfg.crash_bottom_px.quanta();
            let px = crash_price_at(t, cfg);
            let slack = 400 * (size(top) + size(bot)) + 64 * c;
            &&& px is Fin
            &&& -slack <= c * (100 * (px.quanta() - bot) - 12 * (top - bot)) <= slack
        }),
{
    let top = cfg.crash_top_px;
    let bot = cfg.crash_bottom_px;
    lemma_phase(t, cfg.cycle_secs);
    lemma_zero_significant();
    lemma_whole_exact(20);
    lemma_whole_exact(80);
    lemma_whole_exact(240);
    law_crash_within_range(t, cfg);
    let rebound = top.minus(bot).times(Value::ratio(12, 100));
    lemma_rebound(cfg);
    lemma_rebound_size(cfg);
    assert(crash_price_at(t, cfg) == bot.plus(rebound));
    lemma_plus_error(bot, rebound);
}

} // verus!
