//! The blended incentive does not depend on the price.

use vstd::arithmetic::power2::*;
use vstd::prelude::*;

use crate::binary64::model::{one_in_quanta, overflow_bound, round_mag, sum, Value};
use crate::binary64::order::{
    lemma_round_error, lemma_round_keeps, lemma_times_quanta, lemma_zero_significant, nonneg,
    positive,
};
use crate::binary64::rounding::lemma_pow2_ordered;
use crate::laws::incentive::{
    are_amounts, exact, is_share, lemma_one_share, lemma_part_of_sum, lemma_total_error,
};
use crate::types::{LegModel, PositionModel};

verus! {

/// The sum of some whole numbers.
pub open spec fn total(xs: Seq<int>) -> int
    decreases xs.len(),
{
    if xs.len() == 0 {
        0
    } else {
        total(xs.drop_last()) + xs.last()
    }
}

/// What a leg weighs: its amount times its rate.
pub open spec fn weight(leg: LegModel) -> int {
    leg.amount.quanta() * leg.exchange_rate.quanta()
}

/// What all the legs weigh.
pub open spec fn weights(pos: PositionModel) -> int {
    total(pos.legs.map_values(|l: LegModel| weight(l)))
}

/// The incentives of the legs, each times what the leg weighs.
pub open spec fn weighted_incentives(pos: PositionModel) -> int {
    total(pos.legs.map_values(|l: LegModel| weight(l) * l.lif_max().quanta()))
}

/// A leg whose value at a price has all its 53 bits, and whose incentive is between one and
/// 2 to the power 53.
pub open spec fn is_weighable(leg: LegModel, eth_px: Value) -> bool {
    &&& leg.amount is Fin
    &&& nonneg(leg.amount)
    &&& leg.exchange_rate is Fin
    &&& nonneg(leg.exchange_rate)
    &&& leg.price(eth_px) is Fin
    &&& leg.price(eth_px).quanta() >= 0x20_0000_0000_0000
    &&& leg.collateral_value(eth_px) is Fin
    &&& leg.collateral_value(eth_px).quanta() >= 0x20_0000_0000_0000
    &&& leg.lif_max() is Fin
    &&& one_in_quanta() <= leg.lif_max().quanta() <= 0x20_0000_0000_0000 * one_in_quanta()
}

/// Sums are compared as their terms are.
pub(crate) proof fn lemma_linear(x: Seq<int>, y: Seq<int>, z: Seq<int>, a: int, b: int, c: int)
    requires
        x.len() == y.len() == z.len(),
        forall|i: int|
            #![trigger x[i]]
            0 <= i < x.len() ==> a * x[i] <= b * y[i] + c * z[i],
    ensures
        a * total(x) <= b * total(y) + c * total(z),
    decreases x.len(),
{
    if x.len() == 0 {
        assert(a * 0 == 0 && b * 0 == 0 && c * 0 == 0) by (nonlinear_arith);
    } else {
        let m = x.len() - 1;
        let xf = x.drop_last();
        let yf = y.drop_last();
        let zf = z.drop_last();
        assert forall|i: int|
            #![trigger xf[i]]
            0 <= i < xf.len() implies a * xf[i] <= b * yf[i] + c * zf[i] by {
            assert(x[i] == xf[i]);
        }
        lemma_linear(xf, yf, zf, a, b, c);
        assert(a * x[m] <= b * y[m] + c * z[m]);
        let (p, q, r) = (total(xf), total(yf), total(zf));
        let (s, t, w) = (x[m], y[m], z[m]);
        assert(a * (p + s) == a * p + a * s) by (nonlinear_arith);
        assert(b * (q + t) == b * q + b * t) by (nonlinear_arith);
        assert(c * (r + w) == c * r + c * w) by (nonlinear_arith);
    }
}

/// The exact sum of some terms is the sum of their quanta.
pub(crate) proof fn lemma_exact_total(terms: Seq<Value>, xs: Seq<int>)
    requires
        terms.len() == xs.len(),
        forall|i: int| 0 <= i < terms.len() ==> (#[trigger] terms[i]).quanta() == xs[i],
    ensures
        exact(terms) == total(xs),
    decreases terms.len(),
{
    if terms.len() > 0 {
        let tf = terms.drop_last();
        let xf = xs.drop_last();
        assert forall|i: int| 0 <= i < tf.len() implies (#[trigger] tf[i]).quanta() == xf[i] by {
            assert(terms[i].quanta() == xs[i]);
        }
        lemma_exact_total(tf, xf);
        assert(terms[terms.len() - 1].quanta() == xs[terms.len() - 1]);
    }
}

/// A rounded product that has all its 53 bits.
proof fn lemma_full_product(a: Value, b: Value)
    requires
        a is Fin,
        a.quanta() >= 0,
        b is Fin,
        b.quanta() >= 0,
        a.times(b) is Fin,
        a.times(b).quanta() >= 0x20_0000_0000_0000,
    ensures
        ({
            let n = a.quanta() * b.quanta();
            let r = one_in_quanta() * a.times(b).quanta();
            &&& 0x20_0000_0000_0000 * r <= 0x20_0000_0000_0001 * n
            &&& 0x20_0000_0000_0000 * r >= 0x1f_ffff_ffff_ffff * n
        }),
{
    let u = one_in_quanta();
    let n = a.quanta() as nat * b.quanta() as nat;
    lemma_zero_significant();
    lemma_times_quanta(a, b);
    lemma_round_error(n, u);
    let r = round_mag(n, u);
    assert(r * u == u * r) by (nonlinear_arith);
    assert(u * r >= 0x20_0000_0000_0000 * u) by (nonlinear_arith)
        requires
            r >= 0x20_0000_0000_0000,
    ;
}

/// What a leg is worth at a price, by what it weighs.
proof fn lemma_worth(leg: LegModel, eth_px: Value)
    requires
        is_weighable(leg, eth_px),
        eth_px is Fin,
        eth_px.quanta() >= 0,
    ensures
        ({
            let uu = one_in_quanta() * one_in_quanta();
            let v = leg.collateral_value(eth_px).quanta();
            let g = weight(leg);
            let p = eth_px.quanta();
            &&& (0x20_0000_0000_0000 * uu) * v <= (0x20_0000_0000_0003 * p) * g
            &&& (0x20_0000_0000_0000 * uu) * v >= (0x1f_ffff_ffff_fffd * p) * g
            &&& g >= 0
        }),
{
    let c: int = 0x20_0000_0000_0000;
    let u = one_in_quanta() as int;
    let a = leg.amount.quanta();
    let r = leg.exchange_rate.quanta();
    let p = eth_px.quanta();
    let price = leg.price(eth_px);
    let s = price.quanta();
    let v = leg.collateral_value(eth_px).quanta();
    let g = weight(leg);
    lemma_zero_significant();
    lemma_full_product(eth_px, leg.exchange_rate);
    lemma_full_product(leg.amount, price);
    let us = u * s;
    let uv = u * v;
    let pr = p * r;
    let rp = a * s;
    assert(g >= 0) by (nonlinear_arith)
        requires
            g == a * r,
            a >= 0,
            r >= 0,
    ;
    let apr = g * p;
    assert(apr >= 0) by (nonlinear_arith)
        requires
            apr == g * p,
            g >= 0,
            p >= 0,
    ;
    // a * (u * s), within one part of a * p * r
    let aus = a * us;
    assert(c * aus <= (c + 1) * apr && c * aus >= (c - 1) * apr) by (nonlinear_arith)
        requires
            c * us <= (c + 1) * pr,
            c * us >= (c - 1) * pr,
            aus == a * us,
            apr == (a * r) * p,
            pr == p * r,
            a >= 0,
    ;
    let uuv = u * uv;
    assert(c * uuv <= (c + 1) * aus && c * uuv >= (c - 1) * aus) by (nonlinear_arith)
        requires
            c * uv <= (c + 1) * rp,
            c * uv >= (c - 1) * rp,
            uuv == u * uv,
            aus == a * us,
            rp == a * s,
            us == u * s,
            u >= 0,
    ;
    assert(c * uuv <= (c + 3) * apr && c * uuv >= (c - 3) * apr);
    assert((0x20_0000_0000_0000 * (u * u)) * v == c * uuv) by (nonlinear_arith)
        requires
            uuv == u * (u * v),
            c == 0x20_0000_0000_0000,
    ;
    assert((0x20_0000_0000_0003 * p) * g == (c + 3) * apr) by (nonlinear_arith)
        requires
            apr == g * p,
            c == 0x20_0000_0000_0000,
    ;
    assert((0x1f_ffff_ffff_fffd * p) * g == (c - 3) * apr) by (nonlinear_arith)
        requires
            apr == g * p,
            c == 0x20_0000_0000_0000,
    ;
}

/// The sums over the legs of a position at a price, in quanta.
spec fn are_sums(
    c: int,
    n: int,
    t: int,
    v: int,
    vl: int,
    wl: int,
    ts: int,
    l: int,
    k: int,
    m: int,
    p: int,
    u: int,
) -> bool {
    &&& c == 0x20_0000_0000_0000
    &&& 0 <= n <= 0x8_0000_0000_0000
    &&& t > 0
    &&& p > 0
    &&& u >= 8 * ((c * c) * (c * c)) * c
    &&& k >= 0
    &&& u * k <= m
    &&& 0 <= l <= n * (c * u)
    // the total, rounded
    &&& (c - n) * v <= c * t
    &&& 3 * (c * t) <= (3 * c + 4 * n) * v
    // what the legs are worth, by what they weigh
    &&& ((c - 3) * p) * k <= (c * (u * u)) * v <= ((c + 3) * p) * k
    &&& ((c - 3) * p) * m <= (c * (u * u)) * vl <= ((c + 3) * p) * m
    // the shares
    &&& ((2 * (c - 1)) * u) * vl - (c * t) * l <= ((2 * c) * t) * wl <= ((2 * (c + 1)) * u) * vl
        + (c * t) * l
    // the terms
    &&& (2 * (c - 1)) * wl - (c * u) * n <= ((2 * c) * u) * ts <= (2 * (c + 1)) * wl + (c * u) * n
}

/// What the terms come to at most, by weight.
proof fn lemma_high(
    c: int,
    n: int,
    t: int,
    v: int,
    vl: int,
    wl: int,
    ts: int,
    l: int,
    k: int,
    m: int,
    p: int,
    u: int,
)
    requires
        are_sums(c, n, t, v, vl, wl, ts, l, k, m, p, u),
    ensures
        ((2 * c) * ((c - n) * (c - 3))) * (k * ts) <= (2 * ((c + 1) * (c + 1)) * (c + 3) + 1)
            * m,
{
    let a = c - n;
    let q = a * (c - 3);
    assert(q > 0 && q <= c * c) by (nonlinear_arith)
        requires
            q == a * (c - 3),
            0 < a <= c,
            c == 0x20_0000_0000_0000,
    ;
    let x = 2 * wl - l;
    let uu = u * u;
    let um = u * m;
    assert(0 < u) by (nonlinear_arith)
        requires
            u >= 8 * ((c * c) * (c * c)) * c,
            c == 0x20_0000_0000_0000,
    ;
    assert(m >= 0) by (nonlinear_arith)
        requires
            u * k <= m,
            u > 0,
            k >= 0,
    ;
    assert(uu > 0 && um >= 0) by (nonlinear_arith)
        requires
            uu == u * u,
            um == u * m,
            u > 0,
            m >= 0,
    ;
    // the shares
    let ct = c * t;
    assert(ct * x <= ((2 * (c + 1)) * u) * vl) by (nonlinear_arith)
        requires
            ((2 * c) * t) * wl <= ((2 * (c + 1)) * u) * vl + (c * t) * l,
            ct == c * t,
            x == 2 * wl - l,
    ;
    let cuu = c * uu;
    assert(cuu * (ct * x) <= ((2 * (c + 1)) * u) * (cuu * vl)) by (nonlinear_arith)
        requires
            ct * x <= ((2 * (c + 1)) * u) * vl,
            cuu > 0,
    ;
    let pm = p * m;
    assert(((2 * (c + 1)) * u) * (cuu * vl) <= ((2 * (c + 1)) * (c + 3)) * (u * pm))
        by (nonlinear_arith)
        requires
            cuu * vl <= ((c + 3) * p) * m,
            pm == p * m,
            u > 0,
            c > 0,
    ;
    assert(cuu * ct >= q * (p * k)) by (nonlinear_arith)
        requires
            a * v <= ct,
            ((c - 3) * p) * k <= cuu * v,
            q == a * (c - 3),
            cuu > 0,
            a > 0,
    ;
    let kx = k * x;
    let y = q * kx;
    let top = ((2 * (c + 1)) * (c + 3)) * um;
    assert(y <= top) by {
        if x >= 0 {
            assert((q * (p * k)) * x <= (cuu * ct) * x) by (nonlinear_arith)
                requires
                    cuu * ct >= q * (p * k),
                    x >= 0,
            ;
            assert((cuu * ct) * x == cuu * (ct * x)) by (nonlinear_arith);
            assert((q * (p * k)) * x == p * y) by (nonlinear_arith)
                requires
                    y == q * kx,
                    kx == k * x,
            ;
            assert(((2 * (c + 1)) * (c + 3)) * (u * pm) == p * top) by (nonlinear_arith)
                requires
                    top == ((2 * (c + 1)) * (c + 3)) * um,
                    um == u * m,
                    pm == p * m,
            ;
            assert(y <= top) by (nonlinear_arith)
                requires
                    p * y <= p * top,
                    p > 0,
            ;
        } else {
            assert(y <= 0) by (nonlinear_arith)
                requires
                    y == q * kx,
                    kx == k * x,
                    x < 0,
                    k >= 0,
                    q > 0,
            ;
            assert(top >= 0) by (nonlinear_arith)
                requires
                    top == ((2 * (c + 1)) * (c + 3)) * um,
                    um >= 0,
                    c > 0,
            ;
        }
    }
    // the terms
    let kt = k * ts;
    let qk = q * k;
    assert(qk >= 0) by (nonlinear_arith)
        requires
            qk == q * k,
            q > 0,
            k >= 0,
    ;
    let r = (c + 1) * (qk * l) + (c * (u * n)) * qk;
    let d = ((2 * c) * u) * ts;
    let e = (2 * (c + 1)) * wl;
    let f = (c * u) * n;
    assert(d * qk <= e * qk + f * qk) by (nonlinear_arith)
        requires
            d <= e + f,
            qk >= 0,
    ;
    assert(d * qk == ((2 * c) * u) * (q * kt)) by (nonlinear_arith)
        requires
            d == ((2 * c) * u) * ts,
            qk == q * k,
            kt == k * ts,
    ;
    assert(e * qk == (c + 1) * y + (c + 1) * (qk * l)) by (nonlinear_arith)
        requires
            e == (2 * (c + 1)) * wl,
            x == 2 * wl - l,
            qk == q * k,
            y == q * (k * x),
    ;
    assert(f * qk == (c * (u * n)) * qk) by (nonlinear_arith)
        requires
            f == (c * u) * n,
    ;
    assert(((2 * c) * u) * (q * kt) <= (c + 1) * y + r);
    lemma_remainder(c, n, l, k, m, u, q, c + 1);
    assert(r <= um);
    let b = (2 * ((c + 1) * (c + 1)) * (c + 3) + 1) * m - (2 * c) * (q * kt);
    assert((c + 1) * y <= (2 * ((c + 1) * (c + 1)) * (c + 3)) * um) by (nonlinear_arith)
        requires
            y <= ((2 * (c + 1)) * (c + 3)) * um,
            c > 0,
    ;
    assert(b * u >= 0) by (nonlinear_arith)
        requires
            b == (2 * ((c + 1) * (c + 1)) * (c + 3) + 1) * m - (2 * c) * (q * kt),
            ((2 * c) * u) * (q * kt) <= (c + 1) * y + r,
            (c + 1) * y <= (2 * ((c + 1) * (c + 1)) * (c + 3)) * um,
            r <= um,
            um == u * m,
    ;
    assert(b >= 0) by (nonlinear_arith)
        requires
            b * u >= 0,
            u > 0,
    ;
    assert(((2 * c) * q) * kt == (2 * c) * (q * kt)) by (nonlinear_arith);
}

/// What the terms come to at least, by weight.
proof fn lemma_low(
    c: int,
    n: int,
    t: int,
    v: int,
    vl: int,
    wl: int,
    ts: int,
    l: int,
    k: int,
    m: int,
    p: int,
    u: int,
)
    requires
        are_sums(c, n, t, v, vl, wl, ts, l, k, m, p, u),
    ensures
        ((2 * c) * ((3 * c + 4 * n) * (c + 3))) * (k * ts) >= (6 * ((c - 1) * (c - 1)) * (c - 3)
            - 1) * m,
{
    let a = 3 * c + 4 * n;
    let q = a * (c + 3);
    assert(q > 0 && q <= 8 * (c * c)) by (nonlinear_arith)
        requires
            q == a * (c + 3),
            0 < a <= 4 * c,
            c == 0x20_0000_0000_0000,
    ;
    let x = 2 * wl + l;
    let uu = u * u;
    let um = u * m;
    assert(0 < u) by (nonlinear_arith)
        requires
            u >= 8 * ((c * c) * (c * c)) * c,
            c == 0x20_0000_0000_0000,
    ;
    assert(m >= 0) by (nonlinear_arith)
        requires
            u * k <= m,
            u > 0,
            k >= 0,
    ;
    assert(uu > 0 && um >= 0) by (nonlinear_arith)
        requires
            uu == u * u,
            um == u * m,
            u > 0,
            m >= 0,
    ;
    // the shares
    let ct = c * t;
    assert(ct * x >= ((2 * (c - 1)) * u) * vl) by (nonlinear_arith)
        requires
            ((2 * c) * t) * wl >= ((2 * (c - 1)) * u) * vl - (c * t) * l,
            ct == c * t,
            x == 2 * wl + l,
    ;
    let cuu = c * uu;
    assert(cuu * (ct * x) >= ((2 * (c - 1)) * u) * (cuu * vl)) by (nonlinear_arith)
        requires
            ct * x >= ((2 * (c - 1)) * u) * vl,
            cuu > 0,
    ;
    let pm = p * m;
    assert(((2 * (c - 1)) * u) * (cuu * vl) >= ((2 * (c - 1)) * (c - 3)) * (u * pm))
        by (nonlinear_arith)
        requires
            cuu * vl >= ((c - 3) * p) * m,
            pm == p * m,
            u > 0,
            c > 3,
    ;
    assert(3 * (cuu * ct) <= q * (p * k)) by (nonlinear_arith)
        requires
            a * v >= 3 * ct,
            ((c + 3) * p) * k >= cuu * v,
            q == a * (c + 3),
            cuu > 0,
            a > 0,
    ;
    let kx = k * x;
    let y = q * kx;
    let top = ((2 * (c - 1)) * (c - 3)) * um;
    let pt = p * top;
    assert(((2 * (c - 1)) * (c - 3)) * (u * pm) == pt) by (nonlinear_arith)
        requires
            pt == p * top,
            top == ((2 * (c - 1)) * (c - 3)) * um,
            um == u * m,
            pm == p * m,
    ;
    assert(pt >= 0) by (nonlinear_arith)
        requires
            pt == p * (((2 * (c - 1)) * (c - 3)) * um),
            um >= 0,
            p > 0,
            c > 3,
    ;
    assert(cuu * (ct * x) >= pt);
    assert(cuu * ct > 0) by (nonlinear_arith)
        requires
            cuu > 0,
            ct == c * t,
            c > 0,
            t > 0,
    ;
    assert((cuu * ct) * x == cuu * (ct * x)) by (nonlinear_arith);
    assert(x >= 0) by (nonlinear_arith)
        requires
            (cuu * ct) * x >= 0,
            cuu * ct > 0,
    ;
    assert((q * (p * k)) * x >= 3 * ((cuu * ct) * x)) by (nonlinear_arith)
        requires
            3 * (cuu * ct) <= q * (p * k),
            x >= 0,
    ;
    assert((q * (p * k)) * x == p * y) by (nonlinear_arith)
        requires
            y == q * kx,
            kx == k * x,
    ;
    assert(y >= 3 * top) by (nonlinear_arith)
        requires
            p * y >= 3 * pt,
            pt == p * top,
            p > 0,
    ;
    // the terms
    let kt = k * ts;
    let qk = q * k;
    assert(qk >= 0) by (nonlinear_arith)
        requires
            qk == q * k,
            q > 0,
            k >= 0,
    ;
    let r = (c - 1) * (qk * l) + (c * (u * n)) * qk;
    let d = ((2 * c) * u) * ts;
    let e = (2 * (c - 1)) * wl;
    let f = (c * u) * n;
    assert(d * qk >= e * qk - f * qk) by (nonlinear_arith)
        requires
            d >= e - f,
            qk >= 0,
    ;
    assert(d * qk == ((2 * c) * u) * (q * kt)) by (nonlinear_arith)
        requires
            d == ((2 * c) * u) * ts,
            qk == q * k,
            kt == k * ts,
    ;
    assert(e * qk == (c - 1) * y - (c - 1) * (qk * l)) by (nonlinear_arith)
        requires
            e == (2 * (c - 1)) * wl,
            x == 2 * wl + l,
            qk == q * k,
            y == q * (k * x),
    ;
    assert(f * qk == (c * (u * n)) * qk) by (nonlinear_arith)
        requires
            f == (c * u) * n,
    ;
    assert(((2 * c) * u) * (q * kt) >= (c - 1) * y - r);
    lemma_remainder(c, n, l, k, m, u, q, c - 1);
    assert(r <= um);
    let b = (2 * c) * (q * kt) - (6 * ((c - 1) * (c - 1)) * (c - 3) - 1) * m;
    assert((c - 1) * y >= (6 * ((c - 1) * (c - 1)) * (c - 3)) * um) by (nonlinear_arith)
        requires
            y >= 3 * (((2 * (c - 1)) * (c - 3)) * um),
            c > 1,
    ;
    assert(b * u >= 0) by (nonlinear_arith)
        requires
            b == (2 * c) * (q * kt) - (6 * ((c - 1) * (c - 1)) * (c - 3) - 1) * m,
            ((2 * c) * u) * (q * kt) >= (c - 1) * y - r,
            (c - 1) * y >= (6 * ((c - 1) * (c - 1)) * (c - 3)) * um,
            r <= um,
            um == u * m,
    ;
    assert(b >= 0) by (nonlinear_arith)
        requires
            b * u >= 0,
            u > 0,
    ;
    assert(((2 * c) * q) * kt == (2 * c) * (q * kt)) by (nonlinear_arith);
}

/// What half quanta come to is next to nothing.
proof fn lemma_remainder(c: int, n: int, l: int, k: int, m: int, u: int, q: int, f: int)
    requires
        c == 0x20_0000_0000_0000,
        0 <= n <= 0x8_0000_0000_0000,
        0 <= l <= n * (c * u),
        k >= 0,
        u * k <= m,
        u >= 8 * ((c * c) * (c * c)) * c,
        0 <= q <= 8 * (c * c),
        0 <= f <= c + 1,
    ensures
        f * ((q * k) * l) + (c * (u * n)) * (q * k) <= u * m,
{
    let cc = c * c;
    let uk = u * k;
    assert(u > 0) by (nonlinear_arith)
        requires
            u >= 8 * ((c * c) * (c * c)) * c,
            c == 0x20_0000_0000_0000,
    ;
    assert(uk >= 0) by (nonlinear_arith)
        requires
            uk == u * k,
            u > 0,
            k >= 0,
    ;
    let qk = q * k;
    assert(qk >= 0) by (nonlinear_arith)
        requires
            qk == q * k,
            q >= 0,
            k >= 0,
    ;
    assert(qk * l <= qk * (n * (c * u))) by (nonlinear_arith)
        requires
            0 <= l <= n * (c * u),
            qk >= 0,
    ;
    let nq = n * q;
    assert(qk * (n * (c * u)) == (c * nq) * uk) by (nonlinear_arith)
        requires
            qk == q * k,
            nq == n * q,
            uk == u * k,
    ;
    assert((c * (u * n)) * qk == (c * nq) * uk) by (nonlinear_arith)
        requires
            qk == q * k,
            nq == n * q,
            uk == u * k,
    ;
    assert(0 <= nq <= 0x8_0000_0000_0000 * (8 * cc)) by (nonlinear_arith)
        requires
            nq == n * q,
            0 <= n <= 0x8_0000_0000_0000,
            0 <= q <= 8 * cc,
    ;
    let g = (f + 1) * (c * nq);
    assert(f * ((c * nq) * uk) + (c * nq) * uk == g * uk) by (nonlinear_arith)
        requires
            g == (f + 1) * (c * nq),
    ;
    assert(f * (qk * l) <= f * ((c * nq) * uk)) by (nonlinear_arith)
        requires
            qk * l <= (c * nq) * uk,
            f >= 0,
    ;
    assert(g <= u) by (nonlinear_arith)
        requires
            g == (f + 1) * (c * nq),
            0 <= nq <= 0x8_0000_0000_0000 * (8 * cc),
            cc == c * c,
            0 <= f <= c + 1,
            c == 0x20_0000_0000_0000,
            u >= 8 * ((c * c) * (c * c)) * c,
    ;
    assert(g * uk <= u * m) by (nonlinear_arith)
        requires
            g <= u,
            0 <= uk <= m,
            u > 0,
    ;
}

/// The sum of the terms, rounded, by weight.
proof fn lemma_by_weight(c: int, n: int, ts: int, b: int, k: int, m: int)
    requires
        c == 0x20_0000_0000_0000,
        0 <= n <= 0x8_0000_0000_0000,
        k >= 0,
        m >= 0,
        (c - n) * ts <= c * b,
        (3 * c) * b <= (3 * c + 4 * n) * ts,
        ((2 * c) * ((c - n) * (c - 3))) * (k * ts) <= (2 * ((c + 1) * (c + 1)) * (c + 3) + 1) * m,
        ((2 * c) * ((3 * c + 4 * n) * (c + 3))) * (k * ts) >= (6 * ((c - 1) * (c - 1)) * (c - 3)
            - 1) * m,
    ensures
        c * (b * k) <= (c + 4 * n + 16) * m,
        c * (b * k) >= (c - 4 * n - 16) * m,
{
    let kt = k * ts;
    let cb = c * (b * k);
    assert(0 <= n * n <= 0x8_0000_0000_0000 * n) by (nonlinear_arith)
        requires
            0 <= n <= 0x8_0000_0000_0000,
    ;
    // above
    let j = 3 * c + 4 * n;
    let a = (2 * c) * ((c - n) * (c - 3));
    let h = 2 * ((c + 1) * (c + 1)) * (c + 3) + 1;
    let x = c + 4 * n + 16;
    assert(3 * cb <= j * kt) by (nonlinear_arith)
        requires
            (3 * c) * b <= j * ts,
            kt == k * ts,
            cb == c * (b * k),
            k >= 0,
    ;
    assert(a > 0) by (nonlinear_arith)
        requires
            a == (2 * c) * ((c - n) * (c - 3)),
            c == 0x20_0000_0000_0000,
            0 <= n <= 0x8_0000_0000_0000,
    ;
    assert(j * h <= a * (3 * x)) by (nonlinear_arith)
        requires
            j == 3 * c + 4 * n,
            h == 2 * ((c + 1) * (c + 1)) * (c + 3) + 1,
            a == (2 * c) * ((c - n) * (c - 3)),
            x == c + 4 * n + 16,
            c == 0x20_0000_0000_0000,
            0 <= n * n <= 0x8_0000_0000_0000 * n,
            0 <= n <= 0x8_0000_0000_0000,
    ;
    assert(a * (3 * cb) <= (j * h) * m) by (nonlinear_arith)
        requires
            3 * cb <= j * kt,
            a * kt <= h * m,
            a > 0,
            j > 0,
    ;
    assert((j * h) * m <= (a * (3 * x)) * m) by (nonlinear_arith)
        requires
            j * h <= a * (3 * x),
            m >= 0,
    ;
    assert(cb <= x * m) by (nonlinear_arith)
        requires
            a * (3 * cb) <= (a * (3 * x)) * m,
            a > 0,
    ;
    // below
    let i = c - n;
    let e = (2 * c) * ((3 * c + 4 * n) * (c + 3));
    let f = 6 * ((c - 1) * (c - 1)) * (c - 3) - 1;
    let y = c - 4 * n - 16;
    assert(cb >= i * kt) by (nonlinear_arith)
        requires
            i * ts <= c * b,
            kt == k * ts,
            cb == c * (b * k),
            k >= 0,
    ;
    assert(e > 0) by (nonlinear_arith)
        requires
            e == (2 * c) * ((3 * c + 4 * n) * (c + 3)),
            c == 0x20_0000_0000_0000,
            0 <= n <= 0x8_0000_0000_0000,
    ;
    assert(i * f >= e * y) by (nonlinear_arith)
        requires
            i == c - n,
            f == 6 * ((c - 1) * (c - 1)) * (c - 3) - 1,
            e == (2 * c) * ((3 * c + 4 * n) * (c + 3)),
            y == c - 4 * n - 16,
            c == 0x20_0000_0000_0000,
            0 <= n * n <= 0x8_0000_0000_0000 * n,
            0 <= n <= 0x8_0000_0000_0000,
    ;
    assert(e * cb >= (i * f) * m) by (nonlinear_arith)
        requires
            cb >= i * kt,
            e * kt >= f * m,
            e > 0,
            i > 0,
    ;
    assert((i * f) * m >= (e * y) * m) by (nonlinear_arith)
        requires
            i * f >= e * y,
            m >= 0,
    ;
    assert(cb >= y * m) by (nonlinear_arith)
        requires
            e * cb >= (e * y) * m,
            e > 0,
    ;
}

/// What is known of one leg, times its incentive where that is asked for.
proof fn lemma_leg_facts(leg: LegModel, eth_px: Value, all: Value)
    requires
        is_weighable(leg, eth_px),
        eth_px is Fin,
        eth_px.quanta() >= 0,
        positive(all),
        leg.collateral_value(eth_px).quanta() <= 2 * all.quanta(),
    ensures
        ({
            let c = 0x20_0000_0000_0000int;
            let u = one_in_quanta() as int;
            let p = eth_px.quanta();
            let t = all.quanta();
            let v = leg.collateral_value(eth_px).quanta();
            let share = leg.collateral_value(eth_px).over(all);
            let w = share.quanta();
            let term = PositionModel::lif_share(leg, eth_px, all);
            let s = term.quanta();
            let l = leg.lif_max().quanta();
            let g = weight(leg);
            &&& share is Fin
            &&& term is Fin
            &&& s >= 0
            &&& g >= 0
            &&& ((c - 3) * p) * g <= (c * (u * u)) * v <= ((c + 3) * p) * g
            &&& ((c - 3) * p) * (g * l) <= (c * (u * u)) * (v * l) <= ((c + 3) * p) * (g * l)
            &&& ((2 * (c - 1)) * u) * (v * l) - (c * t) * l <= ((2 * c) * t) * (w * l) <= ((2 * (c
                + 1)) * u) * (v * l) + (c * t) * l
            &&& (2 * (c - 1)) * (w * l) - c * u <= ((2 * c) * u) * s <= (2 * (c + 1)) * (w * l) + c
                * u
            &&& u * g <= g * l
        }),
{
    let c: int = 0x20_0000_0000_0000;
    let u = one_in_quanta() as int;
    let p = eth_px.quanta();
    let t = all.quanta();
    let worth = leg.collateral_value(eth_px);
    let v = worth.quanta();
    let w = worth.over(all).quanta();
    let s = PositionModel::lif_share(leg, eth_px, all).quanta();
    let l = leg.lif_max().quanta();
    let g = weight(leg);
    lemma_zero_significant();
    lemma_worth(leg, eth_px);
    lemma_one_share(worth, all, leg.lif_max(), l as nat, l as nat);
    assert(is_share(
        worth,
        worth.over(all),
        PositionModel::lif_share(leg, eth_px, all),
        t,
        u,
        l,
        l,
    ));
    let a = ((c - 3) * p) * g;
    let b = (c * (u * u)) * v;
    let d = ((c + 3) * p) * g;
    assert(a <= b <= d);
    assert(((c - 3) * p) * (g * l) == a * l) by (nonlinear_arith)
        requires
            a == ((c - 3) * p) * g,
    ;
    assert((c * (u * u)) * (v * l) == b * l) by (nonlinear_arith)
        requires
            b == (c * (u * u)) * v,
    ;
    assert(((c + 3) * p) * (g * l) == d * l) by (nonlinear_arith)
        requires
            d == ((c + 3) * p) * g,
    ;
    assert(a * l <= b * l && b * l <= d * l) by (nonlinear_arith)
        requires
            a <= b <= d,
            l >= 0,
    ;
    // the share
    let tw = t * w;
    let vu = v * u;
    assert(((2 * c) * t) * (w * l) == ((2 * c) * tw) * l) by (nonlinear_arith)
        requires
            tw == t * w,
    ;
    assert(((2 * (c - 1)) * u) * (v * l) == ((2 * (c - 1)) * vu) * l) by (nonlinear_arith)
        requires
            vu == v * u,
    ;
    assert(((2 * (c + 1)) * u) * (v * l) == ((2 * (c + 1)) * vu) * l) by (nonlinear_arith)
        requires
            vu == v * u,
    ;
    let x = (2 * c) * tw;
    let y = (2 * (c - 1)) * vu;
    let z = (2 * (c + 1)) * vu;
    let ct = c * t;
    assert(y - ct <= x <= z + ct);
    assert(y * l - ct * l <= x * l && x * l <= z * l + ct * l) by (nonlinear_arith)
        requires
            y - ct <= x <= z + ct,
            l >= 0,
    ;
    // the term
    assert(((2 * c) * u) * s == (2 * c) * (u * s)) by (nonlinear_arith);
    assert(u * g <= g * l) by (nonlinear_arith)
        requires
            u <= l,
            g >= 0,
    ;
}

/// A quantum is small: one has room for many roundings.
proof fn lemma_room()
    ensures
        one_in_quanta() >= 8 * ((0x20_0000_0000_0000int * 0x20_0000_0000_0000) * (
        0x20_0000_0000_0000int * 0x20_0000_0000_0000)) * 0x20_0000_0000_0000int,
{
    let c = pow2(53);
    lemma2_to64();
    lemma2_to64_rest();
    lemma_pow2_adds(53, 53);
    lemma_pow2_adds(106, 106);
    lemma_pow2_adds(212, 56);
    lemma_pow2_adds(3, 53);
    lemma_pow2_ordered(268, 1074);
    assert(8 * ((c * c) * (c * c)) * c == pow2(268)) by (nonlinear_arith)
        requires
            pow2(268) == pow2(212) * (8 * c),
            pow2(212) == pow2(106) * pow2(106),
            pow2(106) == c * c,
    ;
}

/// One times as many legs as there are.
proof fn lemma_count(ones: Seq<int>)
    requires
        forall|i: int| 0 <= i < ones.len() ==> #[trigger] ones[i] == 1,
    ensures
        total(ones) == ones.len(),
    decreases ones.len(),
{
    if ones.len() > 0 {
        let front = ones.drop_last();
        assert forall|i: int| 0 <= i < front.len() implies #[trigger] front[i] == 1 by {
            assert(ones[i] == 1);
        }
        lemma_count(front);
        assert(ones[ones.len() - 1] == 1);
    }
}

/// The blended incentive is the average of the legs' incentives by what they weigh, whatever
/// the price: with `K` what all weigh and `M` the incentives times what each weighs, `LIF * K`
/// is `M` up to `4 * n + 16` parts in 2 to the power 53 for `n` legs.
pub proof fn law_blended_incentive_by_weight(pos: PositionModel, eth_px: Value)
    requires
        4 * pos.legs.len() + 16 < 0x20_0000_0000_0000,
        positive(eth_px),
        positive(pos.total_collateral(eth_px)),
        forall|i: int| 0 <= i < pos.legs.len() ==> is_weighable(#[trigger] pos.legs[i], eth_px),
    ensures
        ({
            let c = 0x20_0000_0000_0000int;
            let n = pos.legs.len();
            let lif = pos.blended_lif(eth_px);
            &&& lif is Fin
            &&& c * (lif.quanta() * weights(pos)) <= (c + 4 * n + 16) * weighted_incentives(pos)
            &&& c * (lif.quanta() * weights(pos)) >= (c - 4 * n - 16) * weighted_incentives(pos)
            &&& 0 <= one_in_quanta() * weights(pos) <= weighted_incentives(pos)
            &&& weights(pos) > 0
        }),
{
    let c: int = 0x20_0000_0000_0000;
    let u = one_in_quanta() as int;
    let n = pos.legs.len() as int;
    let p = eth_px.quanta();
    let all = pos.total_collateral(eth_px);
    let t = all.quanta();
    let legs = pos.legs;
    let worths = legs.map_values(|l: LegModel| l.collateral_value(eth_px));
    let terms = legs.map_values(|l: LegModel| PositionModel::lif_share(l, eth_px, all));
    let v = legs.map_values(|l: LegModel| l.collateral_value(eth_px).quanta());
    let vl = legs.map_values(
        |l: LegModel| l.collateral_value(eth_px).quanta() * l.lif_max().quanta(),
    );
    let wl = legs.map_values(
        |l: LegModel| l.collateral_value(eth_px).over(all).quanta() * l.lif_max().quanta(),
    );
    let ts = legs.map_values(|l: LegModel| PositionModel::lif_share(l, eth_px, all).quanta());
    let ls = legs.map_values(|l: LegModel| l.lif_max().quanta());
    let gs = legs.map_values(|l: LegModel| weight(l));
    let gl = legs.map_values(|l: LegModel| weight(l) * l.lif_max().quanta());
    let ones = legs.map_values(|l: LegModel| 1int);
    lemma_zero_significant();
    lemma_room();
    // the total
    assert(are_amounts(worths)) by {
        assert forall|i: int| 0 <= i < worths.len() implies (#[trigger] worths[i]) is Fin
            && worths[i].quanta() >= 0 by {
            assert(is_weighable(legs[i], eth_px));
        }
    }
    lemma_total_error(worths);
    lemma_exact_total(worths, v);
    let sv = total(v);
    assert(sv <= 2 * t) by (nonlinear_arith)
        requires
            c * t >= (c - n) * sv,
            c == 0x20_0000_0000_0000,
            0 <= n <= 0x8_0000_0000_0000,
            sv >= 0,
    ;
    // leg by leg
    assert forall|i: int| 0 <= i < n implies is_known(
        #[trigger] v[i],
        vl[i],
        wl[i],
        ts[i],
        ls[i],
        gs[i],
        gl[i],
        p,
        t,
        u,
    ) && terms[i] is Fin by {
        let leg = legs[i];
        assert(is_weighable(leg, eth_px));
        lemma_part_of_sum(worths, i);
        lemma_leg_facts(leg, eth_px, all);
        let l = leg.lif_max().quanta();
        let w = leg.collateral_value(eth_px).quanta();
        assert(w * l <= (c * u) * w) by (nonlinear_arith)
            requires
                l <= c * u,
                w >= 0,
        ;
    }
    assert(are_amounts(terms)) by {
        assert forall|i: int| 0 <= i < terms.len() implies (#[trigger] terms[i]) is Fin
            && terms[i].quanta() >= 0 by {
            assert(is_known(v[i], vl[i], wl[i], ts[i], ls[i], gs[i], gl[i], p, t, u));
        }
    }
    lemma_known_together(v, vl, wl, ts, ls, gs, gl, ones, p, t, u);
    let st = total(ts);
    lemma_exact_total(terms, ts);
    lemma_total_error(terms);
    let k = total(gs);
    let m = total(gl);
    let sl = total(ls);
    assert(are_sums(c, n, t, sv, total(vl), total(wl), st, sl, k, m, p, u));
    lemma_high(c, n, t, sv, total(vl), total(wl), st, sl, k, m, p, u);
    lemma_low(c, n, t, sv, total(vl), total(wl), st, sl, k, m, p, u);
    // there is some weight
    assert(sv > 0) by (nonlinear_arith)
        requires
            (3 * c) * t <= (3 * c + 4 * n) * sv,
            t > 0,
            n >= 0,
            c > 0,
    ;
    assert(k > 0) by {
        let cuu = c * (u * u);
        assert(cuu * sv > 0) by (nonlinear_arith)
            requires
                cuu == c * (u * u),
                c > 0,
                u > 0,
                sv > 0,
        ;
        if k == 0 {
            assert(((c + 3) * p) * 0 == 0) by (nonlinear_arith);
        }
    }
    // the sum of the terms is finite
    assert(2 * st < overflow_bound()) by {
        lemma_terms_finite(c, n, sl, st, total(wl), total(vl), sv, t, u);
    }
    assert(m >= 0) by (nonlinear_arith)
        requires
            u * k <= m,
            u > 0,
            k > 0,
    ;
    lemma_by_weight(c, n, st, sum(terms).quanta(), k, m);
}

/// What is known of one leg, in quanta.
spec fn is_known(
    v: int,
    vl: int,
    wl: int,
    ts: int,
    l: int,
    g: int,
    gl: int,
    p: int,
    t: int,
    u: int,
) -> bool {
    let c = 0x20_0000_0000_0000int;
    &&& ts >= 0
    &&& g >= 0
    &&& v >= 0
    &&& u <= l <= c * u
    &&& vl <= (c * u) * v
    &&& ((c - 3) * p) * g <= (c * (u * u)) * v <= ((c + 3) * p) * g
    &&& ((c - 3) * p) * gl <= (c * (u * u)) * vl <= ((c + 3) * p) * gl
    &&& ((2 * (c - 1)) * u) * vl - (c * t) * l <= ((2 * c) * t) * wl <= ((2 * (c + 1)) * u) * vl
        + (c * t) * l
    &&& (2 * (c - 1)) * wl - c * u <= ((2 * c) * u) * ts <= (2 * (c + 1)) * wl + c * u
    &&& u * g <= gl
}

/// What is known of all the legs together.
proof fn lemma_known_together(
    v: Seq<int>,
    vl: Seq<int>,
    wl: Seq<int>,
    ts: Seq<int>,
    ls: Seq<int>,
    gs: Seq<int>,
    gl: Seq<int>,
    ones: Seq<int>,
    p: int,
    t: int,
    u: int,
)
    requires
        v.len() == vl.len() == wl.len() == ts.len() == ls.len() == gs.len() == gl.len(),
        ones.len() == v.len(),
        forall|i: int| 0 <= i < ones.len() ==> #[trigger] ones[i] == 1,
        forall|i: int|
            0 <= i < v.len() ==> is_known(
                #[trigger] v[i],
                vl[i],
                wl[i],
                ts[i],
                ls[i],
                gs[i],
                gl[i],
                p,
                t,
                u,
            ),
    ensures
        ({
            let c = 0x20_0000_0000_0000int;
            let n = v.len() as int;
            &&& ((c - 3) * p) * total(gs) <= (c * (u * u)) * total(v) <= ((c + 3) * p) * total(gs)
            &&& ((c - 3) * p) * total(gl) <= (c * (u * u)) * total(vl) <= ((c + 3) * p) * total(gl)
            &&& ((2 * (c - 1)) * u) * total(vl) - (c * t) * total(ls) <= ((2 * c) * t) * total(wl)
            &&& ((2 * c) * t) * total(wl) <= ((2 * (c + 1)) * u) * total(vl) + (c * t) * total(ls)
            &&& (2 * (c - 1)) * total(wl) - (c * u) * n <= ((2 * c) * u) * total(ts)
            &&& ((2 * c) * u) * total(ts) <= (2 * (c + 1)) * total(wl) + (c * u) * n
            &&& u * total(gs) <= total(gl)
            &&& 0 <= total(ls) <= n * (c * u)
            &&& total(gs) >= 0
            &&& total(vl) <= (c * u) * total(v)
            &&& total(ts) >= 0
        }),
{
    let c: int = 0x20_0000_0000_0000;
    let n = v.len() as int;
    lemma_count(ones);
    assert(0 * total(ones) == 0) by (nonlinear_arith);
    assert((c * u) * n == n * (c * u)) by (nonlinear_arith);
    assert forall|i: int|
        #![trigger gs[i]]
        0 <= i < gs.len() implies ((c - 3) * p) * gs[i] <= (c * (u * u)) * v[i] + 0 * ones[i] by {
        assert(is_known(v[i], vl[i], wl[i], ts[i], ls[i], gs[i], gl[i], p, t, u));
        assert(0 * ones[i] == 0 && 0 * gs[i] == 0) by (nonlinear_arith);
    }
    lemma_linear(gs, v, ones, (c - 3) * p, c * (u * u), 0);
    assert forall|i: int|
        #![trigger v[i]]
        0 <= i < v.len() implies (c * (u * u)) * v[i] <= ((c + 3) * p) * gs[i] + 0 * ones[i] by {
        assert(is_known(v[i], vl[i], wl[i], ts[i], ls[i], gs[i], gl[i], p, t, u));
        assert(0 * ones[i] == 0 && 0 * v[i] == 0) by (nonlinear_arith);
    }
    lemma_linear(v, gs, ones, c * (u * u), (c + 3) * p, 0);
    assert forall|i: int|
        #![trigger gl[i]]
        0 <= i < gl.len() implies ((c - 3) * p) * gl[i] <= (c * (u * u)) * vl[i] + 0 * ones[i] by {
        assert(is_known(v[i], vl[i], wl[i], ts[i], ls[i], gs[i], gl[i], p, t, u));
        assert(0 * ones[i] == 0 && 0 * gl[i] == 0) by (nonlinear_arith);
    }
    lemma_linear(gl, vl, ones, (c - 3) * p, c * (u * u), 0);
    assert forall|i: int|
        #![trigger vl[i]]
        0 <= i < vl.len() implies (c * (u * u)) * vl[i] <= ((c + 3) * p) * gl[i] + 0 * ones[i] by {
        assert(is_known(v[i], vl[i], wl[i], ts[i], ls[i], gs[i], gl[i], p, t, u));
        assert(0 * ones[i] == 0 && 0 * vl[i] == 0) by (nonlinear_arith);
    }
    lemma_linear(vl, gl, ones, c * (u * u), (c + 3) * p, 0);
    assert forall|i: int|
        #![trigger wl[i]]
        0 <= i < wl.len() implies ((2 * c) * t) * wl[i]
            <= ((2 * (c + 1)) * u) * vl[i] + (c * t) * ls[i] by {
        assert(is_known(v[i], vl[i], wl[i], ts[i], ls[i], gs[i], gl[i], p, t, u));
        assert(0 * ones[i] == 0 && 0 * wl[i] == 0) by (nonlinear_arith);
    }
    lemma_linear(wl, vl, ls, (2 * c) * t, (2 * (c + 1)) * u, c * t);
    assert forall|i: int|
        #![trigger vl[i]]
        0 <= i < vl.len() implies ((2 * (c - 1)) * u) * vl[i]
            <= ((2 * c) * t) * wl[i] + (c * t) * ls[i] by {
        assert(is_known(v[i], vl[i], wl[i], ts[i], ls[i], gs[i], gl[i], p, t, u));
        assert(0 * ones[i] == 0 && 0 * vl[i] == 0) by (nonlinear_arith);
    }
    lemma_linear(vl, wl, ls, (2 * (c - 1)) * u, (2 * c) * t, c * t);
    assert forall|i: int|
        #![trigger ts[i]]
        0 <= i < ts.len() implies ((2 * c) * u) * ts[i]
            <= (2 * (c + 1)) * wl[i] + (c * u) * ones[i] by {
        assert(is_known(v[i], vl[i], wl[i], ts[i], ls[i], gs[i], gl[i], p, t, u));
        assert(0 * ones[i] == 0 && 0 * ts[i] == 0) by (nonlinear_arith);
    }
    lemma_linear(ts, wl, ones, (2 * c) * u, 2 * (c + 1), c * u);
    assert forall|i: int|
        #![trigger wl[i]]
        0 <= i < wl.len() implies (2 * (c - 1)) * wl[i]
            <= ((2 * c) * u) * ts[i] + (c * u) * ones[i] by {
        assert(is_known(v[i], vl[i], wl[i], ts[i], ls[i], gs[i], gl[i], p, t, u));
        assert(0 * ones[i] == 0 && 0 * wl[i] == 0) by (nonlinear_arith);
    }
    lemma_linear(wl, ts, ones, 2 * (c - 1), (2 * c) * u, c * u);
    assert forall|i: int|
        #![trigger gs[i]]
        0 <= i < gs.len() implies u * gs[i] <= 1 * gl[i] + 0 * ones[i] by {
        assert(is_known(v[i], vl[i], wl[i], ts[i], ls[i], gs[i], gl[i], p, t, u));
        assert(0 * ones[i] == 0 && 0 * gs[i] == 0) by (nonlinear_arith);
    }
    lemma_linear(gs, gl, ones, u, 1, 0);
    assert forall|i: int|
        #![trigger ls[i]]
        0 <= i < ls.len() implies 1 * ls[i] <= (c * u) * ones[i] + 0 * ones[i] by {
        assert(is_known(v[i], vl[i], wl[i], ts[i], ls[i], gs[i], gl[i], p, t, u));
        assert(0 * ones[i] == 0 && 0 * ls[i] == 0) by (nonlinear_arith);
    }
    lemma_linear(ls, ones, ones, 1, c * u, 0);
    assert forall|i: int|
        #![trigger ones[i]]
        0 <= i < ones.len() implies 0 * ones[i] <= 1 * ls[i] + 0 * ones[i] by {
        assert(is_known(v[i], vl[i], wl[i], ts[i], ls[i], gs[i], gl[i], p, t, u));
        assert(0 * ones[i] == 0 && 0 * ones[i] == 0) by (nonlinear_arith);
    }
    lemma_linear(ones, ls, ones, 0, 1, 0);
    assert forall|i: int|
        #![trigger ones[i]]
        0 <= i < ones.len() implies 0 * ones[i] <= 1 * gs[i] + 0 * ones[i] by {
        assert(is_known(v[i], vl[i], wl[i], ts[i], ls[i], gs[i], gl[i], p, t, u));
        assert(0 * ones[i] == 0 && 0 * ones[i] == 0) by (nonlinear_arith);
    }
    lemma_linear(ones, gs, ones, 0, 1, 0);
    assert forall|i: int|
        #![trigger vl[i]]
        0 <= i < vl.len() implies 1 * vl[i] <= (c * u) * v[i] + 0 * ones[i] by {
        assert(is_known(v[i], vl[i], wl[i], ts[i], ls[i], gs[i], gl[i], p, t, u));
        assert(0 * ones[i] == 0 && 0 * vl[i] == 0) by (nonlinear_arith);
    }
    lemma_linear(vl, v, ones, 1, c * u, 0);
    assert forall|i: int|
        #![trigger ones[i]]
        0 <= i < ones.len() implies 0 * ones[i] <= 1 * ts[i] + 0 * ones[i] by {
        assert(is_known(v[i], vl[i], wl[i], ts[i], ls[i], gs[i], gl[i], p, t, u));
        assert(0 * ones[i] == 0 && 0 * ones[i] == 0) by (nonlinear_arith);
    }
    lemma_linear(ones, ts, ones, 0, 1, 0);
}

/// The terms come to much less than what is too large for a double.
proof fn lemma_terms_finite(
    c: int,
    n: int,
    l: int,
    ts: int,
    wl: int,
    vl: int,
    v: int,
    t: int,
    u: int,
)
    requires
        c == 0x20_0000_0000_0000,
        u == one_in_quanta(),
        0 <= n <= 0x8_0000_0000_0000,
        t > 0,
        0 <= v <= 2 * t,
        0 <= l <= n * (c * u),
        vl <= (c * u) * v,
        ((2 * c) * t) * wl <= ((2 * (c + 1)) * u) * vl + (c * t) * l,
        ((2 * c) * u) * ts <= (2 * (c + 1)) * wl + (c * u) * n,
    ensures
        2 * ts < overflow_bound(),
{
    lemma_zero_significant();
    lemma2_to64();
    lemma2_to64_rest();
    lemma_pow2_adds(60, 60);
    lemma_pow2_ordered(120, 1074);
    let uu = u * u;
    let tuu = t * uu;
    let cn = c * n;
    assert(0 <= cn <= u) by (nonlinear_arith)
        requires
            cn == c * n,
            u >= 0x1000_0000_0000_0000 * 0x1000_0000_0000_0000,
            c == 0x20_0000_0000_0000,
            0 <= n <= 0x8_0000_0000_0000,
    ;
    assert(l <= uu) by (nonlinear_arith)
        requires
            l <= n * (c * u),
            cn == c * n,
            cn <= u,
            uu == u * u,
            u > 0,
    ;
    // the shares
    let uv = u * v;
    assert(((2 * (c + 1)) * u) * vl <= ((2 * (c + 1)) * c) * (u * uv)) by (nonlinear_arith)
        requires
            vl <= (c * u) * v,
            uv == u * v,
            u > 0,
            c > 0,
    ;
    assert(u * uv <= 2 * tuu) by (nonlinear_arith)
        requires
            uv == u * v,
            v <= 2 * t,
            tuu == t * uu,
            uu == u * u,
            u > 0,
    ;
    assert((c * t) * l <= c * tuu) by (nonlinear_arith)
        requires
            l <= uu,
            tuu == t * uu,
            c > 0,
            t > 0,
    ;
    let d = (4 * c + 5) * uu - 2 * wl;
    assert(d * (c * t) >= 0) by (nonlinear_arith)
        requires
            d == (4 * c + 5) * uu - 2 * wl,
            ((2 * c) * t) * wl <= ((2 * (c + 1)) * c) * (u * uv) + c * tuu,
            u * uv <= 2 * tuu,
            tuu == t * uu,
            c > 0,
    ;
    assert(d >= 0) by (nonlinear_arith)
        requires
            d * (c * t) >= 0,
            c > 0,
            t > 0,
    ;
    // the terms
    assert((2 * (c + 1)) * wl <= ((c + 1) * (4 * c + 5)) * uu) by (nonlinear_arith)
        requires
            2 * wl <= (4 * c + 5) * uu,
            c > 0,
    ;
    assert((c * u) * n <= uu) by (nonlinear_arith)
        requires
            cn == c * n,
            cn <= u,
            uu == u * u,
            u > 0,
    ;
    let e = ((c + 1) * (4 * c + 5) + 1) * u - (2 * c) * ts;
    assert(e * u >= 0) by (nonlinear_arith)
        requires
            e == ((c + 1) * (4 * c + 5) + 1) * u - (2 * c) * ts,
            ((2 * c) * u) * ts <= ((c + 1) * (4 * c + 5)) * uu + uu,
            uu == u * u,
    ;
    assert(e >= 0) by (nonlinear_arith)
        requires
            e * u >= 0,
            u > 0,
    ;
    assert(ts <= (4 * c) * u) by (nonlinear_arith)
        requires
            (2 * c) * ts <= ((c + 1) * (4 * c + 5) + 1) * u,
            c == 0x20_0000_0000_0000,
            u > 0,
    ;
    lemma_pow2_adds(56, 1074);
    lemma_pow2_strictly_increases(1130, 2098);
}

/// The price does not matter to the blended incentive: at two prices it is the same, up to
/// rounding.
pub proof fn law_blended_incentive_ignores_the_price(pos: PositionModel, p: Value, q: Value)
    requires
        4 * pos.legs.len() + 16 < 0x20_0000_0000_0000,
        positive(p),
        positive(q),
        positive(pos.total_collateral(p)),
        positive(pos.total_collateral(q)),
        forall|i: int|
            0 <= i < pos.legs.len() ==> is_weighable(#[trigger] pos.legs[i], p) && is_weighable(
                pos.legs[i],
                q,
            ),
    ensures
        ({
            let c = 0x20_0000_0000_0000int;
            let n = pos.legs.len();
            let x = pos.blended_lif(p);
            let y = pos.blended_lif(q);
            &&& x is Fin
            &&& y is Fin
            &&& (c - 4 * n - 16) * x.quanta() <= (c + 4 * n + 16) * y.quanta()
            &&& (c - 4 * n - 16) * y.quanta() <= (c + 4 * n + 16) * x.quanta()
        }),
{
    let c: int = 0x20_0000_0000_0000;
    let n = pos.legs.len() as int;
    law_blended_incentive_by_weight(pos, p);
    law_blended_incentive_by_weight(pos, q);
    let x = pos.blended_lif(p).quanta();
    let y = pos.blended_lif(q).quanta();
    let k = weights(pos);
    let m = weighted_incentives(pos);
    lemma_same_average(c, c - 4 * n - 16, c + 4 * n + 16, x, y, k, m);
    lemma_same_average(c, c - 4 * n - 16, c + 4 * n + 16, y, x, k, m);
}

/// Two numbers near the same average are near each other.
proof fn lemma_same_average(c: int, lo: int, hi: int, x: int, y: int, k: int, m: int)
    requires
        c > 0,
        0 <= lo,
        0 <= hi,
        k > 0,
        c * (x * k) <= hi * m,
        c * (y * k) >= lo * m,
    ensures
        lo * x <= hi * y,
{
    let d = hi * y - lo * x;
    assert(lo * (c * (x * k)) <= lo * (hi * m)) by (nonlinear_arith)
        requires
            c * (x * k) <= hi * m,
            lo >= 0,
    ;
    assert(hi * (c * (y * k)) >= hi * (lo * m)) by (nonlinear_arith)
        requires
            c * (y * k) >= lo * m,
            hi >= 0,
    ;
    assert(lo * (hi * m) == hi * (lo * m)) by (nonlinear_arith);
    let ck = c * k;
    let hy = hi * y;
    let lx = lo * x;
    assert(hi * (c * (y * k)) == hy * ck) by (nonlinear_arith)
        requires
            hy == hi * y,
            ck == c * k,
    ;
    assert(lo * (c * (x * k)) == lx * ck) by (nonlinear_arith)
        requires
            lx == lo * x,
            ck == c * k,
    ;
    assert(d * ck == hy * ck - lx * ck) by (nonlinear_arith)
        requires
            d == hy - lx,
    ;
    assert(ck > 0) by (nonlinear_arith)
        requires
            ck == c * k,
            c > 0,
            k > 0,
    ;
    assert(d >= 0) by (nonlinear_arith)
        requires
            d * ck >= 0,
            ck > 0,
    ;
}

/// At a price of zero the collateral is worth nothing, and the incentive is one.
pub proof fn law_worthless_collateral_has_no_incentive(pos: PositionModel)
    requires
        forall|i: int|
            0 <= i < pos.legs.len() ==> (#[trigger] pos.legs[i]).amount is Fin
                && pos.legs[i].exchange_rate is Fin,
    ensures
        pos.blended_lif(Value::zero()) == Value::one(),
{
    let terms = pos.legs.map_values(|l: LegModel| l.collateral_value(Value::zero()));
    assert forall|i: int| 0 <= i < terms.len() implies (#[trigger] terms[i]) is Fin
        && terms[i].quanta() == 0 by {
        let leg = pos.legs[i];
        lemma_nothing(Value::zero(), leg.exchange_rate);
        lemma_nothing(leg.amount, leg.price(Value::zero()));
    }
    lemma_sum_of_nothing(terms);
}

/// A product with zero is zero.
pub(crate) proof fn lemma_nothing(a: Value, b: Value)
    requires
        a is Fin,
        b is Fin,
        a.quanta() == 0 || b.quanta() == 0,
    ensures
        a.times(b) is Fin,
        a.times(b).quanta() == 0,
{
    let u = one_in_quanta();
    lemma_zero_significant();
    lemma_round_keeps(0, u);
    assert(0 * u == 0);
    match (a, b) {
        (Value::Fin { mag: x, .. }, Value::Fin { mag: y, .. }) => {
            assert(x * y == 0) by (nonlinear_arith)
                requires
                    x == 0 || y == 0,
            ;
        },
        _ => {},
    }
}

/// A sum of zeros is zero.
proof fn lemma_sum_of_nothing(terms: Seq<Value>)
    requires
        forall|i: int|
            0 <= i < terms.len() ==> (#[trigger] terms[i]) is Fin && terms[i].quanta() == 0,
    ensures
        sum(terms) is Fin,
        sum(terms).quanta() == 0,
    decreases terms.len(),
{
    if terms.len() > 0 {
        let front = terms.drop_last();
        assert forall|i: int| 0 <= i < front.len() implies (#[trigger] front[i]) is Fin
            && front[i].quanta() == 0 by {
            assert(terms[i] is Fin);
        }
        lemma_sum_of_nothing(front);
        assert(terms[terms.len() - 1] is Fin);
    }
}

} // verus!
