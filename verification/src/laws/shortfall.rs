//! Bad debt and lag, in exact numbers.

use vstd::arithmetic::power2::*;
use vstd::prelude::*;

use crate::binary64::double::lemma_whole_exact;
use crate::binary64::model::{one_in_quanta, Value};
use crate::binary64::order::{
    lemma_minus_quanta, lemma_over_error, lemma_plus_error, lemma_round_is_double, lemma_round_le,
    lemma_sum_sign, lemma_times_quanta, lemma_zero_significant, positive,
};
use crate::binary64::rounding::lemma_pow2_ordered;
use crate::laws::health::law_lag_is_a_fraction;
use crate::laws::worth::{is_amount, is_ordinary, lemma_stage};
use crate::types::{LegModel, PositionModel};

verus! {

/// Bad debt is what the debt is above the collateral, up to one rounding, and nothing where it
/// is not above.
pub proof fn law_bad_debt_in_exact_numbers(pos: PositionModel, shadow_eth: Value)
    requires
        is_amount(pos.debt),
        pos.debt.is_double(),
        is_amount(pos.total_collateral(shadow_eth)),
    ensures
        ({
            let c = 0x20_0000_0000_0000int;
            let short = pos.debt.quanta() - pos.total_collateral(shadow_eth).quanta();
            let bad = pos.bad_debt(shadow_eth);
            &&& is_amount(bad)
            &&& short <= 0 ==> bad.quanta() == 0
            &&& short > 0 ==> -short <= c * (bad.quanta() - short) <= short
        }),
{
    let total = pos.total_collateral(shadow_eth);
    let short = pos.debt.quanta() - total.quanta();
    lemma_zero_significant();
    assert(total.negated().quanta() == -total.quanta());
    lemma_sum_sign(short, true);
    lemma_sum_sign(short, false);
    if short > 0 {
        lemma_round_le(short as nat, 1, pos.debt.quanta() as nat);
        lemma_minus_quanta(pos.debt, total);
        lemma_plus_error(pos.debt, total.negated());
    }
}

/// The stages of a lag, together.
proof fn lemma_lag(c: int, u: int, x: int, y: int, op: int, sp: int, d: int, lag: int)
    requires
        c == 0x20_0000_0000_0000,
        u >= c,
        0 <= y <= x,
        c * (u * op) <= (c + 2) * x,
        c * (u * op) >= (c - 2) * x,
        c * (u * sp) <= (c + 2) * y,
        c * (u * sp) >= (c - 2) * y,
        0 <= sp < op,
        -(op - sp) <= c * (d - (op - sp)) <= op - sp,
        0 <= lag <= u,
        -(2 * (d * u) + c * op) <= (2 * c) * (lag * op - d * u) <= 2 * (d * u) + c * op,
    ensures
        -(16 * (u * x)) <= c * (lag * x - u * (x - y)) <= 16 * (u * x),
{
    let uo = u * op;
    let us = u * sp;
    let ud = u * d;
    let ux = u * x;
    assert(0 <= us && us < uo) by (nonlinear_arith)
        requires
            uo == u * op,
            us == u * sp,
            0 <= sp < op,
            u > 0,
    ;
    let a1 = c * (d - (op - sp));
    assert(-(uo - us) <= a1 * u <= uo - us) by (nonlinear_arith)
        requires
            -(op - sp) <= a1 <= op - sp,
            uo == u * op,
            us == u * sp,
            u > 0,
    ;
    assert(a1 * u == c * (ud - (uo - us))) by (nonlinear_arith)
        requires
            a1 == c * (d - (op - sp)),
            ud == u * d,
            uo == u * op,
            us == u * sp,
    ;
    // u * d is near x - y
    let a2 = c * (ud - (x - y));
    assert(-(6 * x) <= a2 <= 6 * x);
    assert(-(6 * ux) <= a2 * u <= 6 * ux) by (nonlinear_arith)
        requires
            -(6 * x) <= a2 <= 6 * x,
            ux == u * x,
            u > 0,
    ;
    // the quotient
    let lo = lag * op;
    let a3 = (2 * c) * (lo - ud);
    assert(d * u == ud) by (nonlinear_arith)
        requires
            ud == u * d,
    ;
    let cuo = c * uo;
    assert(c * (u * op) == cuo);
    assert(-(2 * (ud * u) + cuo) <= a3 * u <= 2 * (ud * u) + cuo) by (nonlinear_arith)
        requires
            -(2 * ud + c * op) <= a3 <= 2 * ud + c * op,
            cuo == c * (u * op),
            u > 0,
    ;
    assert(ud <= 2 * x);
    assert(ud * u <= 2 * ux) by (nonlinear_arith)
        requires
            ud <= 2 * x,
            ux == u * x,
            u > 0,
    ;
    assert(c * x <= ux) by (nonlinear_arith)
        requires
            u >= c,
            x >= 0,
            ux == u * x,
    ;
    assert(cuo <= 2 * ux);
    assert(-(6 * ux) <= a3 * u <= 6 * ux);
    // the oracle price
    let a4 = c * (uo - x);
    assert(-(2 * ux) <= lag * a4 <= 2 * ux) by (nonlinear_arith)
        requires
            -(2 * x) <= a4 <= 2 * x,
            0 <= lag <= u,
            ux == u * x,
            x >= 0,
    ;
    let t0 = lag * x - u * (x - y);
    let (lx, uy, udu, lou) = (lag * x, u * y, ud * u, lo * u);
    assert(t0 == lx - ux + uy) by (nonlinear_arith)
        requires
            t0 == lag * x - u * (x - y),
            lx == lag * x,
            ux == u * x,
            uy == u * y,
    ;
    let i2 = ud - (x - y);
    assert(i2 * u == udu - ux + uy) by (nonlinear_arith)
        requires
            i2 == ud - (x - y),
            udu == ud * u,
            ux == u * x,
            uy == u * y,
    ;
    assert(a2 * u == c * (i2 * u)) by (nonlinear_arith)
        requires
            a2 == c * i2,
    ;
    let i3 = lo - ud;
    assert(i3 * u == lou - udu) by (nonlinear_arith)
        requires
            i3 == lo - ud,
            lou == lo * u,
            udu == ud * u,
    ;
    assert(a3 * u == (2 * c) * (i3 * u)) by (nonlinear_arith)
        requires
            a3 == (2 * c) * i3,
    ;
    let i4 = uo - x;
    assert(lag * i4 == lou - lx) by (nonlinear_arith)
        requires
            i4 == uo - x,
            uo == u * op,
            lou == (lag * op) * u,
            lx == lag * x,
    ;
    assert(lag * a4 == c * (lag * i4)) by (nonlinear_arith)
        requires
            a4 == c * i4,
    ;
}

/// The lag of a leg is by which part of the oracle price the shadow price lies below it,
/// whatever the rate: `(oracle - shadow) / oracle`, up to sixteen parts in 2 to the power 53.
pub proof fn law_lag_in_exact_numbers(leg: LegModel, oracle_eth: Value, shadow_eth: Value)
    requires
        is_amount(oracle_eth),
        is_amount(shadow_eth),
        positive(leg.exchange_rate),
        shadow_eth.quanta() < oracle_eth.quanta(),
        is_ordinary(
            oracle_eth.quanta() * leg.exchange_rate.quanta(),
            one_in_quanta() as int,
        ),
        is_ordinary(
            shadow_eth.quanta() * leg.exchange_rate.quanta(),
            one_in_quanta() as int,
        ),
    ensures
        ({
            let u = one_in_quanta() as int;
            let o = oracle_eth.quanta();
            let s = shadow_eth.quanta();
            let lag = leg.lag_pct(oracle_eth, shadow_eth);
            &&& lag is Fin
            &&& -(16 * (u * o)) <= 0x20_0000_0000_0000 * (lag.quanta() * o - u * (o - s)) <= 16
                * (u * o)
        }),
{
    let c: int = 0x20_0000_0000_0000;
    let u = one_in_quanta() as int;
    let o = oracle_eth.quanta();
    let s = shadow_eth.quanta();
    let r = leg.exchange_rate.quanta();
    lemma_zero_significant();
    lemma2_to64_rest();
    lemma_pow2_ordered(53, 1074);
    assert(1 * u == u && 1 * (o * r) == o * r && 1 * (s * r) == s * r);
    lemma_stage(oracle_eth, leg.exchange_rate, 1, o * r, 0);
    lemma_stage(shadow_eth, leg.exchange_rate, 1, s * r, 0);
    let op = leg.price(oracle_eth);
    let sp = leg.price(shadow_eth);
    let x = o * r;
    let y = s * r;
    assert(0 <= y <= x) by (nonlinear_arith)
        requires
            x == o * r,
            y == s * r,
            0 <= s < o,
            r > 0,
    ;
    law_lag_is_a_fraction(leg, oracle_eth, shadow_eth);
    lemma_whole_exact(1);
    let lag = leg.lag_pct(oracle_eth, shadow_eth);
    let q = lag.quanta();
    let ux = u * x;
    let t = c * (q * x - u * (x - y));
    if sp.lt(op) {
        lemma_round_is_double(false, (o * r) as nat, u as nat);
        let diff = op.minus(sp);
        assert(sp.negated().quanta() == -sp.quanta());
        assert(o as nat * r as nat == o * r);
        lemma_times_quanta(oracle_eth, leg.exchange_rate);
        lemma_round_le((op.quanta() - sp.quanta()) as nat, 1, op.quanta() as nat);
        lemma_minus_quanta(op, sp);
        lemma_plus_error(op, sp.negated());
        lemma_over_error(diff, op);
        lemma_lag(c, u, x, y, op.quanta(), sp.quanta(), diff.quanta(), q);
    } else {
        let uo = u * op.quanta();
        let us = u * sp.quanta();
        assert(uo <= us) by (nonlinear_arith)
            requires
                op.quanta() <= sp.quanta(),
                uo == u * op.quanta(),
                us == u * sp.quanta(),
                u > 0,
        ;
        assert(c * (x - y) <= 4 * x);
        let d = c * (x - y);
        assert(u * d <= 4 * ux && u * d >= 0) by (nonlinear_arith)
            requires
                0 <= d <= 4 * x,
                ux == u * x,
                u > 0,
        ;
        assert(t == -(u * d)) by (nonlinear_arith)
            requires
                t == c * (q * x - u * (x - y)),
                q == 0,
                d == c * (x - y),
        ;
    }
    assert(-(16 * ux) <= t <= 16 * ux);
    // without the rate
    let v = c * (q * o - u * (o - s));
    let uo = u * o;
    let v0 = q * o - u * (o - s);
    assert(q * x - u * (x - y) == v0 * r) by (nonlinear_arith)
        requires
            v0 == q * o - u * (o - s),
            x == o * r,
            y == s * r,
    ;
    assert(t == v * r) by (nonlinear_arith)
        requires
            t == c * (v0 * r),
            v == c * v0,
    ;
    assert(ux == uo * r) by (nonlinear_arith)
        requires
            ux == u * x,
            x == o * r,
            uo == u * o,
    ;
    assert(-(16 * uo) <= v <= 16 * uo) by (nonlinear_arith)
        requires
            -(16 * (uo * r)) <= v * r <= 16 * (uo * r),
            r > 0,
    ;
}

} // verus!
