//! What legs and positions are worth and may carry, in exact numbers of what they hold.

use vstd::arithmetic::power2::*;
use vstd::prelude::*;

use crate::binary64::model::{one_in_quanta, overflow_bound, round_mag, sum, Value};
use crate::binary64::order::{
    lemma_over_quanta, lemma_round_error, lemma_significant, lemma_times_quanta,
    lemma_zero_significant,
};
use crate::laws::incentive::{are_amounts, exact, lemma_total_error};
use crate::laws::weights::{lemma_exact_total, lemma_linear, lemma_nothing, total, weight, weights};
use crate::types::{LegModel, PositionModel};

verus! {

/// `x` is `e` up to `k` parts in 2 to the power 53.
pub open spec fn near(x: int, e: int, k: int) -> bool {
    &&& 0x20_0000_0000_0000 * x <= (0x20_0000_0000_0000 + k) * e
    &&& 0x20_0000_0000_0000 * x >= (0x20_0000_0000_0000 - k) * e
}

/// `n / d` quanta are neither so few that a double has less than 53 bits for them, nor too many
/// for a double.
pub open spec fn is_ordinary(n: int, d: int) -> bool {
    &&& 0x40_0000_0000_0000 * d <= n
    &&& 4 * n < overflow_bound() * d
}

/// A finite value that is not below zero.
pub open spec fn is_amount(v: Value) -> bool {
    v is Fin && v.quanta() >= 0
}

/// What a leg lets the position carry, at a price of one: amount times rate times LLTV.
pub open spec fn capacity(leg: LegModel) -> int {
    weight(leg) * leg.lltv.quanta()
}

/// What all the legs let the position carry, at a price of one.
pub open spec fn capacities(pos: PositionModel) -> int {
    total(pos.legs.map_values(|l: LegModel| capacity(l)))
}

/// Every product that a leg's worth and capacity at a price go through is ordinary.
pub open spec fn leg_is_ordinary(leg: LegModel, eth_px: Value) -> bool {
    let u = one_in_quanta() as int;
    let p = eth_px.quanta();
    &&& is_amount(leg.amount)
    &&& is_amount(leg.lltv)
    &&& is_amount(leg.exchange_rate)
    &&& is_ordinary(p * leg.exchange_rate.quanta(), u)
    &&& is_ordinary(p * weight(leg), u * u)
    &&& is_ordinary(p * capacity(leg), (u * u) * u)
}

proof fn lemma_near_scaled(x: int, e: int, k: int, a: int)
    requires
        near(x, e, k),
        a >= 0,
    ensures
        near(a * x, a * e, k),
{
    let c: int = 0x20_0000_0000_0000;
    assert(c * (a * x) <= (c + k) * (a * e)) by (nonlinear_arith)
        requires
            c * x <= (c + k) * e,
            a >= 0,
    ;
    assert(c * (a * x) >= (c - k) * (a * e)) by (nonlinear_arith)
        requires
            c * x >= (c - k) * e,
            a >= 0,
    ;
}

/// One more product: with `w` times its factors near `e`, its result, scaled, is near `e` too.
pub(crate) proof fn lemma_stage(a: Value, b: Value, w: int, e: int, k: int)
    requires
        is_amount(a),
        is_amount(b),
        w > 0,
        0 <= k <= 8,
        near(w * (a.quanta() * b.quanta()), e, k),
        is_ordinary(e, w * one_in_quanta()),
    ensures
        a.times(b) is Fin,
        a.times(b).quanta() >= 0,
        near((w * one_in_quanta()) * a.times(b).quanta(), e, k + 2),
{
    let c: int = 0x20_0000_0000_0000;
    let u = one_in_quanta() as int;
    let n = a.quanta() * b.quanta();
    let wn = w * n;
    let wu = w * u;
    let big = overflow_bound() as int;
    lemma_zero_significant();
    lemma2_to64_rest();
    lemma_pow2_pos(2098);
    assert(wu > 0) by (nonlinear_arith)
        requires
            wu == w * u,
            w > 0,
            u > 0,
    ;
    assert(e >= 0);
    let ke = k * e;
    assert(0 <= ke <= 8 * e) by (nonlinear_arith)
        requires
            ke == k * e,
            0 <= k <= 8,
            e >= 0,
    ;
    assert((c + k) * e == c * e + ke && (c - k) * e == c * e - ke) by (nonlinear_arith)
        requires
            ke == k * e,
    ;
    assert(wn >= c * wu);
    assert(n >= c * u) by (nonlinear_arith)
        requires
            wn == w * n,
            wu == w * u,
            wn >= c * wu,
            w > 0,
    ;
    assert(n == a.quanta() as nat * b.quanta() as nat);
    assert(1 * pow2(53) == pow2(53));
    lemma_significant(1, 53);
    let r = round_mag(n as nat, u as nat) as int;
    lemma_round_error(n as nat, u as nat);
    assert(u * c == c * u) by (nonlinear_arith);
    let ur = u * r;
    assert(r * u == ur) by (nonlinear_arith)
        requires
            ur == u * r,
    ;
    assert(c * ur <= (c + 1) * n && c * ur >= (c - 1) * n);
    let wr = wu * r;
    assert(c * wr <= (c + 1) * wn && c * wr >= (c - 1) * wn) by (nonlinear_arith)
        requires
            c * ur <= (c + 1) * n,
            c * ur >= (c - 1) * n,
            ur == u * r,
            wr == wu * r,
            wu == w * u,
            wn == w * n,
            w > 0,
    ;
    assert(wr < big * wu);
    assert(r < big) by (nonlinear_arith)
        requires
            wr < big * wu,
            wr == wu * r,
            wu > 0,
    ;
    lemma_times_quanta(a, b);
    assert((c + (k + 2)) * e == c * e + ke + 2 * e) by (nonlinear_arith)
        requires
            ke == k * e,
    ;
    assert((c - (k + 2)) * e == c * e - ke - 2 * e) by (nonlinear_arith)
        requires
            ke == k * e,
    ;
}

/// What a leg is worth, and what it lets the position carry: its price is the ETH price times
/// its rate, its worth that times its amount, and its capacity that times its LLTV, each up to
/// a few roundings.
pub proof fn law_leg_in_exact_numbers(leg: LegModel, eth_px: Value)
    requires
        is_amount(eth_px),
        leg_is_ordinary(leg, eth_px),
    ensures
        ({
            let u = one_in_quanta() as int;
            let p = eth_px.quanta();
            &&& leg.price(eth_px) is Fin
            &&& near(u * leg.price(eth_px).quanta(), p * leg.exchange_rate.quanta(), 2)
            &&& is_amount(leg.collateral_value(eth_px))
            &&& near((u * u) * leg.collateral_value(eth_px).quanta(), p * weight(leg), 4)
            &&& is_amount(leg.max_debt(eth_px))
            &&& near(((u * u) * u) * leg.max_debt(eth_px).quanta(), p * capacity(leg), 6)
        }),
{
    let u = one_in_quanta() as int;
    let p = eth_px.quanta();
    let a = leg.amount.quanta();
    let r = leg.exchange_rate.quanta();
    let l = leg.lltv.quanta();
    lemma_zero_significant();
    assert(1 * u == u);
    assert(1 * (p * r) == p * r);
    assert(u > 0 && u * u > 0) by (nonlinear_arith)
        requires
            u > 0,
    ;
    lemma_stage(eth_px, leg.exchange_rate, 1, p * r, 0);
    let s = leg.price(eth_px).quanta();
    // the worth
    lemma_near_scaled(u * s, p * r, 2, a);
    assert(a * (u * s) == u * (a * s)) by (nonlinear_arith);
    assert(a * (p * r) == p * (a * r)) by (nonlinear_arith);
    lemma_stage(leg.amount, leg.price(eth_px), u, p * weight(leg), 2);
    let worth = leg.collateral_value(eth_px);
    let v = worth.quanta();
    // the capacity
    let uu = u * u;
    lemma_near_scaled(uu * v, p * weight(leg), 4, l);
    assert(l * (uu * v) == uu * (v * l)) by (nonlinear_arith);
    assert(l * (p * weight(leg)) == p * (weight(leg) * l)) by (nonlinear_arith);
    lemma_stage(worth, leg.lltv, uu, p * capacity(leg), 4);
}

/// A leg of nothing, or at a price of nothing, is worth nothing; and one with an LLTV of zero
/// lets nothing be carried.
pub proof fn law_leg_of_nothing(leg: LegModel, eth_px: Value)
    requires
        eth_px is Fin,
        leg.amount is Fin,
        leg.exchange_rate is Fin,
        leg.lltv is Fin,
        leg.price(eth_px) is Fin,
        leg.collateral_value(eth_px) is Fin,
    ensures
        eth_px.quanta() == 0 || leg.exchange_rate.quanta() == 0 || leg.amount.quanta() == 0 ==> {
            &&& leg.collateral_value(eth_px).quanta() == 0
            &&& leg.max_debt(eth_px) is Fin
            &&& leg.max_debt(eth_px).quanta() == 0
        },
        leg.lltv.quanta() == 0 ==> leg.max_debt(eth_px) is Fin && leg.max_debt(eth_px).quanta()
            == 0,
{
    if eth_px.quanta() == 0 || leg.exchange_rate.quanta() == 0 {
        lemma_nothing(eth_px, leg.exchange_rate);
    }
    let price = leg.price(eth_px);
    if price.quanta() == 0 || leg.amount.quanta() == 0 {
        lemma_nothing(leg.amount, price);
    }
    let worth = leg.collateral_value(eth_px);
    if worth.quanta() == 0 || leg.lltv.quanta() == 0 {
        lemma_nothing(worth, leg.lltv);
    }
}

/// A rounded sum of terms that are near what they stand for.
proof fn lemma_sum_near(n: int, s: int, e: int, w: int, t: int, k: int)
    requires
        0 <= n,
        4 * n + 16 < 0x20_0000_0000_0000,
        0 <= k <= 6,
        w > 0,
        e >= 0,
        near(w * e, t, k),
        (3 * 0x20_0000_0000_0000int) * s <= (3 * 0x20_0000_0000_0000int + 4 * n) * e,
        0x20_0000_0000_0000 * s >= (0x20_0000_0000_0000 - n) * e,
    ensures
        near(w * s, t, 2 * n + 8),
        t >= 0,
{
    let c: int = 0x20_0000_0000_0000;
    let we = w * e;
    let ws = w * s;
    assert(we >= 0) by (nonlinear_arith)
        requires
            we == w * e,
            w > 0,
            e >= 0,
    ;
    assert(t >= 0) by (nonlinear_arith)
        requires
            c * we <= (c + k) * t,
            we >= 0,
            c > 0,
            c + k > 0,
    ;
    assert((3 * c) * ws <= (3 * c + 4 * n) * we && c * ws >= (c - n) * we) by (nonlinear_arith)
        requires
            (3 * c) * s <= (3 * c + 4 * n) * e,
            c * s >= (c - n) * e,
            we == w * e,
            ws == w * s,
            w > 0,
    ;
    // above
    let j = 3 * c + 4 * n;
    assert((3 * c) * (c * ws) <= (j * (c + k)) * t) by (nonlinear_arith)
        requires
            (3 * c) * ws <= j * we,
            c * we <= (c + k) * t,
            c > 0,
            j > 0,
    ;
    assert(j * (c + k) <= (3 * c) * (c + (2 * n + 8))) by (nonlinear_arith)
        requires
            j == 3 * c + 4 * n,
            0 <= k <= 6,
            0 <= n,
            4 * n + 16 < c,
            c == 0x20_0000_0000_0000,
    ;
    assert((j * (c + k)) * t <= ((3 * c) * (c + (2 * n + 8))) * t) by (nonlinear_arith)
        requires
            j * (c + k) <= (3 * c) * (c + (2 * n + 8)),
            t >= 0,
    ;
    assert(c * ws <= (c + (2 * n + 8)) * t) by (nonlinear_arith)
        requires
            (3 * c) * (c * ws) <= ((3 * c) * (c + (2 * n + 8))) * t,
            c > 0,
    ;
    // below
    let i = c - n;
    assert(c * (c * ws) >= (i * (c - k)) * t) by (nonlinear_arith)
        requires
            c * ws >= i * we,
            c * we >= (c - k) * t,
            c > 0,
            i > 0,
    ;
    assert(i * (c - k) >= c * (c - (2 * n + 8))) by (nonlinear_arith)
        requires
            i == c - n,
            0 <= k <= 6,
            0 <= n,
            c == 0x20_0000_0000_0000,
    ;
    assert((i * (c - k)) * t >= (c * (c - (2 * n + 8))) * t) by (nonlinear_arith)
        requires
            i * (c - k) >= c * (c - (2 * n + 8)),
            t >= 0,
    ;
    assert(c * ws >= (c - (2 * n + 8)) * t) by (nonlinear_arith)
        requires
            c * (c * ws) >= (c * (c - (2 * n + 8))) * t,
            c > 0,
    ;
}

/// A sum of terms, each near what it weighs times the price.
proof fn lemma_terms_near(terms: Seq<Value>, gs: Seq<int>, w: int, p: int, k: int)
    requires
        terms.len() == gs.len(),
        4 * terms.len() + 16 < 0x20_0000_0000_0000,
        0 <= k <= 6,
        w > 0,
        forall|i: int|
            #![trigger terms[i]]
            0 <= i < terms.len() ==> is_amount(terms[i]) && near(
                w * terms[i].quanta(),
                p * gs[i],
                k,
            ),
        4 * (p * total(gs)) < overflow_bound() * w,
    ensures
        sum(terms) is Fin,
        sum(terms).quanta() >= 0,
        near(w * sum(terms).quanta(), p * total(gs), 2 * terms.len() as int + 8),
        p * total(gs) >= 0,
{
    let c: int = 0x20_0000_0000_0000;
    let n = terms.len() as int;
    let vs = terms.map_values(|v: Value| v.quanta());
    let t = p * total(gs);
    assert(are_amounts(terms)) by {
        assert forall|i: int| 0 <= i < terms.len() implies (#[trigger] terms[i]) is Fin
            && terms[i].quanta() >= 0 by {
            assert(is_amount(terms[i]));
        }
    }
    lemma_exact_total(terms, vs);
    lemma_total_error(terms);
    let e = exact(terms);
    assert forall|i: int|
        #![trigger vs[i]]
        0 <= i < vs.len() implies (c * w) * vs[i] <= ((c + k) * p) * gs[i] + 0 * vs[i] by {
        assert(near(w * terms[i].quanta(), p * gs[i], k));
        let (v, g) = (vs[i], gs[i]);
        assert((c * w) * v == c * (w * v)) by (nonlinear_arith);
        assert(((c + k) * p) * g == (c + k) * (p * g)) by (nonlinear_arith);
    }
    lemma_linear(vs, gs, vs, c * w, (c + k) * p, 0);
    assert forall|i: int|
        #![trigger gs[i]]
        0 <= i < gs.len() implies ((c - k) * p) * gs[i] <= (c * w) * vs[i] + 0 * gs[i] by {
        assert(near(w * terms[i].quanta(), p * gs[i], k));
        let (v, g) = (vs[i], gs[i]);
        assert((c * w) * v == c * (w * v)) by (nonlinear_arith);
        assert(((c - k) * p) * g == (c - k) * (p * g)) by (nonlinear_arith);
    }
    lemma_linear(gs, vs, gs, (c - k) * p, c * w, 0);
    let g = total(gs);
    assert((c * w) * e == c * (w * e)) by (nonlinear_arith);
    assert(((c + k) * p) * g == (c + k) * t && ((c - k) * p) * g == (c - k) * t)
        by (nonlinear_arith)
        requires
            t == p * g,
    ;
    assert(near(w * e, t, k));
    // it is finite
    let we = w * e;
    assert(we >= 0) by (nonlinear_arith)
        requires
            we == w * e,
            w > 0,
            e >= 0,
    ;
    assert(t >= 0) by (nonlinear_arith)
        requires
            c * we <= (c + k) * t,
            we >= 0,
            c > 0,
            c + k > 0,
    ;
    let kt = k * t;
    assert(0 <= kt <= 6 * t) by (nonlinear_arith)
        requires
            kt == k * t,
            0 <= k <= 6,
            t >= 0,
    ;
    assert((c + k) * t == c * t + kt) by (nonlinear_arith)
        requires
            kt == k * t,
    ;
    let big = overflow_bound() as int;
    assert(2 * we < big * w);
    assert(2 * e < big) by (nonlinear_arith)
        requires
            2 * we < big * w,
            we == w * e,
            w > 0,
    ;
    lemma_sum_near(n, sum(terms).quanta(), e, w, t, k);
}

/// What a position may carry is the sum of amount, price, rate and LLTV over the legs, and what
/// its collateral is worth the sum of amount, price and rate, each up to `2 * n + 8` parts in 2
/// to the power 53 for `n` legs.
pub proof fn law_position_in_exact_numbers(pos: PositionModel, eth_px: Value)
    requires
        4 * pos.legs.len() + 16 < 0x20_0000_0000_0000,
        is_amount(eth_px),
        forall|i: int| 0 <= i < pos.legs.len() ==> leg_is_ordinary(#[trigger] pos.legs[i], eth_px),
        4 * (eth_px.quanta() * weights(pos)) < overflow_bound() * (one_in_quanta()
            * one_in_quanta()),
        4 * (eth_px.quanta() * capacities(pos)) < overflow_bound() * ((one_in_quanta()
            * one_in_quanta()) * one_in_quanta()),
    ensures
        ({
            let u = one_in_quanta() as int;
            let p = eth_px.quanta();
            let k = 2 * pos.legs.len() as int + 8;
            &&& is_amount(pos.total_collateral(eth_px))
            &&& near((u * u) * pos.total_collateral(eth_px).quanta(), p * weights(pos), k)
            &&& is_amount(pos.max_debt(eth_px))
            &&& near(((u * u) * u) * pos.max_debt(eth_px).quanta(), p * capacities(pos), k)
            &&& p * weights(pos) >= 0
            &&& p * capacities(pos) >= 0
        }),
{
    let u = one_in_quanta() as int;
    let p = eth_px.quanta();
    lemma_zero_significant();
    assert(u * u > 0) by (nonlinear_arith)
        requires
            u > 0,
    ;
    assert((u * u) * u > 0) by (nonlinear_arith)
        requires
            u > 0,
            u * u > 0,
    ;
    let worths = pos.legs.map_values(|l: LegModel| l.collateral_value(eth_px));
    let gs = pos.legs.map_values(|l: LegModel| weight(l));
    assert forall|i: int|
        #![trigger worths[i]]
        0 <= i < worths.len() implies is_amount(worths[i]) && near(
        (u * u) * worths[i].quanta(),
        p * gs[i],
        4,
    ) by {
        law_leg_in_exact_numbers(pos.legs[i], eth_px);
    }
    lemma_terms_near(worths, gs, u * u, p, 4);
    let caps = pos.legs.map_values(|l: LegModel| l.max_debt(eth_px));
    let ks = pos.legs.map_values(|l: LegModel| capacity(l));
    assert forall|i: int|
        #![trigger caps[i]]
        0 <= i < caps.len() implies is_amount(caps[i]) && near(
        ((u * u) * u) * caps[i].quanta(),
        p * ks[i],
        6,
    ) by {
        law_leg_in_exact_numbers(pos.legs[i], eth_px);
    }
    lemma_terms_near(caps, ks, (u * u) * u, p, 6);
}

/// The health LTV is the debt by the sum of amount, price, rate and LLTV over the legs: with `S`
/// that sum, `LTV * S` is the debt up to `2 * n + 9` parts in 2 to the power 53 for `n` legs.
pub proof fn law_health_in_exact_numbers(pos: PositionModel, eth_px: Value)
    requires
        4 * pos.legs.len() + 64 < 0x20_0000_0000_0000,
        is_amount(eth_px),
        forall|i: int| 0 <= i < pos.legs.len() ==> leg_is_ordinary(#[trigger] pos.legs[i], eth_px),
        4 * (eth_px.quanta() * weights(pos)) < overflow_bound() * (one_in_quanta()
            * one_in_quanta()),
        4 * (eth_px.quanta() * capacities(pos)) < overflow_bound() * ((one_in_quanta()
            * one_in_quanta()) * one_in_quanta()),
        eth_px.quanta() * capacities(pos) > 0,
        is_amount(pos.debt),
        is_ordinary(
            pos.debt.quanta() * (((one_in_quanta() * one_in_quanta()) * one_in_quanta())
                * one_in_quanta()),
            eth_px.quanta() * capacities(pos),
        ),
    ensures
        ({
            let c = 0x20_0000_0000_0000int;
            let u = one_in_quanta() as int;
            let k = 2 * pos.legs.len() as int + 8;
            let h = pos.health_ltv(eth_px).quanta();
            let s = eth_px.quanta() * capacities(pos);
            let d = pos.debt.quanta() * (((u * u) * u) * u);
            &&& pos.health_ltv(eth_px) is Fin
            &&& (c - k) * (h * s) <= (c + 1) * d
            &&& (c + k) * (h * s) >= (c - 1) * d
        }),
{
    let c: int = 0x20_0000_0000_0000;
    let u = one_in_quanta() as int;
    let k = 2 * pos.legs.len() as int + 8;
    let s = eth_px.quanta() * capacities(pos);
    let w = (u * u) * u;
    let big = overflow_bound() as int;
    lemma_zero_significant();
    law_position_in_exact_numbers(pos, eth_px);
    assert(w > 0) by (nonlinear_arith)
        requires
            w == (u * u) * u,
            u > 0,
    ;
    let md = pos.max_debt(eth_px);
    let m = md.quanta();
    let wm = w * m;
    let ks = k * s;
    assert((c - k) * s == c * s - ks && (c + k) * s == c * s + ks) by (nonlinear_arith)
        requires
            ks == k * s,
    ;
    assert(0 <= ks && 3 * ks <= 2 * (c * s)) by (nonlinear_arith)
        requires
            ks == k * s,
            0 <= k,
            3 * k <= 2 * c,
            s > 0,
    ;
    assert(3 * (c * wm) >= c * s);
    assert(3 * wm >= s && wm <= 2 * s);
    assert(m > 0) by (nonlinear_arith)
        requires
            wm == w * m,
            3 * wm >= s,
            s > 0,
            w > 0,
    ;
    // the quotient
    let debt = pos.debt.quanta();
    let n = debt * u;
    let d = debt * (w * u);
    assert(w * n == d) by (nonlinear_arith)
        requires
            n == debt * u,
            d == debt * (w * u),
    ;
    assert(n >= c * m) by (nonlinear_arith)
        requires
            w * n == d,
            d >= (2 * c) * s,
            wm <= 2 * s,
            wm == w * m,
            w > 0,
            c > 0,
    ;
    lemma_round_error(n as nat, m as nat);
    let r = round_mag(n as nat, m as nat) as int;
    let rm = r * m;
    assert(m * c == c * m) by (nonlinear_arith);
    assert(c * rm <= (c + 1) * n && c * rm >= (c - 1) * n);
    assert(rm <= 2 * n);
    // it is finite
    let rwm = r * wm;
    assert(rwm == w * rm) by (nonlinear_arith)
        requires
            rwm == r * wm,
            wm == w * m,
            rm == r * m,
    ;
    assert(c * rwm <= (c + 1) * d && c * rwm >= (c - 1) * d) by (nonlinear_arith)
        requires
            rwm == w * rm,
            w * n == d,
            c * rm <= (c + 1) * n,
            c * rm >= (c - 1) * n,
            w > 0,
    ;
    let rs = r * s;
    assert(rs <= 3 * rwm) by (nonlinear_arith)
        requires
            rs == r * s,
            rwm == r * wm,
            s <= 3 * wm,
            r >= 0,
    ;
    assert(rs < big * s);
    assert(r < big) by (nonlinear_arith)
        requires
            rs < big * s,
            rs == r * s,
            s > 0,
    ;
    lemma_over_quanta(pos.debt, md);
    assert(pos.health_ltv(eth_px).quanta() == r);
    // together
    assert((c - k) * rs <= c * rwm && (c + k) * rs >= c * rwm) by (nonlinear_arith)
        requires
            c * wm >= (c - k) * s,
            c * wm <= (c + k) * s,
            rs == r * s,
            rwm == r * wm,
            r >= 0,
    ;
}

} // verus!
