//! When a full liquidation is in order and what a partial one seizes, in exact numbers of debt,
//! capacity, collateral, incentive and dust floor.

use vstd::arithmetic::power2::*;
use vstd::prelude::*;

use crate::binary64::double::lemma_whole_exact;
use crate::binary64::model::{one_in_quanta, overflow_bound, round_mag, Value};
use crate::binary64::order::{
    lemma_minus_quanta, lemma_over_error, lemma_plus_error, lemma_product_error, lemma_round_error,
    lemma_round_ge, lemma_round_le, lemma_significant, lemma_sum_is_double, lemma_sum_sign,
    lemma_times_quanta, lemma_total_is_double, lemma_zero_significant, positive,
};
use crate::binary64::rounding::lemma_pow2_ordered;
use crate::laws::seizure::lemma_relief;
use crate::laws::worth::is_amount;
use crate::types::{LegModel, PositionModel};

verus! {

/// `x` is `g * k / n`, up to one part in 2 to the power 48 of `k / n` times `x` and two quanta.
pub open spec fn is_quotient(x: int, n: int, g: int, k: int) -> bool {
    -((x + 0x2_0000_0000_0000) * k) <= 0x1_0000_0000_0000 * (x * n - g * k) <= (x
        + 0x2_0000_0000_0000) * k
}

/// No partial seizure can restore health, up to rounding: `1 - M / C * LIF` is not above zero,
/// or `(D - M) / (1 - M / C * LIF)` is not below `D`. `k` is `C` and `n` is `C - M * LIF`, both
/// in quanta by quanta.
pub open spec fn may_be_hopeless(d: int, m: int, n: int, k: int) -> bool {
    ||| 0x20_0000_0000_0000 * n <= 8 * k
    ||| 0x1_0000_0000_0000 * (d * n) <= 0x1_0000_0000_0000 * ((d - m) * k) + (d
        + 0x2_0000_0000_0000) * k
}

/// No partial seizure can restore health, by more than rounding.
pub open spec fn is_hopeless(d: int, m: int, n: int, k: int) -> bool {
    ||| 0x20_0000_0000_0000 * n <= -16 * k
    ||| n >= 0 && 0x1_0000_0000_0000 * (d * n) < 0x1_0000_0000_0000 * ((d - m) * k) - (d
        + 0x2_0000_0000_0000) * k
}

/// The product of the blended LLTV and the incentive, against what it stands for.
proof fn lemma_product_stage(c: int, u: int, m: int, k: int, l: int, b: int, p: int)
    requires
        c == 0x20_0000_0000_0000,
        u >= 4 * (c * c),
        0 <= m <= k,
        k > 0,
        u <= l <= c * u,
        0 <= b <= u,
        0 <= p,
        -(2 * (m * u) + c * k) <= (2 * c) * (b * k - m * u) <= 2 * (m * u) + c * k,
        -(2 * (b * l) + c * u) <= (2 * c) * (u * p - b * l) <= 2 * (b * l) + c * u,
    ensures
        p < u ==> -(6 * (u * k)) <= c * (p * k - m * l) <= 6 * (u * k),
        p >= u ==> c * (k * u - m * l) <= 8 * (k * u),
{
    let bl = b * l;
    let up = u * p;
    let uu = u * u;
    let uuk = uu * k;
    let t1 = up * k;
    let t2 = bl * k;
    let t3 = (m * u) * l;
    let kl = k * l;
    let cuk = (c * u) * k;
    assert(bl >= 0 && t2 >= 0 && t3 >= 0 && uuk >= 0) by (nonlinear_arith)
        requires
            bl == b * l,
            t2 == bl * k,
            t3 == (m * u) * l,
            uuk == uu * k,
            uu == u * u,
            b >= 0,
            l >= 0,
            m >= 0,
            u >= 0,
            k >= 0,
    ;
    assert(-(2 * t2 + cuk) <= (2 * c) * (t1 - t2) <= 2 * t2 + cuk) by (nonlinear_arith)
        requires
            -(2 * bl + c * u) <= (2 * c) * (up - bl) <= 2 * bl + c * u,
            t1 == up * k,
            t2 == bl * k,
            cuk == (c * u) * k,
            k > 0,
    ;
    let bk = b * k;
    let mu = m * u;
    assert(t2 == bk * l) by (nonlinear_arith)
        requires
            t2 == (b * l) * k,
            bk == b * k,
    ;
    assert(-(2 * t3 + c * kl) <= (2 * c) * (t2 - t3) <= 2 * t3 + c * kl) by (nonlinear_arith)
        requires
            -(2 * mu + c * k) <= (2 * c) * (bk - mu) <= 2 * mu + c * k,
            t2 == bk * l,
            t3 == mu * l,
            kl == k * l,
            l > 0,
    ;
    assert(c * kl <= uuk && cuk <= uuk) by (nonlinear_arith)
        requires
            kl == k * l,
            l <= c * u,
            cuk == (c * u) * k,
            uuk == (u * u) * k,
            u >= 4 * (c * c),
            c == 0x20_0000_0000_0000,
            k > 0,
    ;
    assert(kl >= 0) by (nonlinear_arith)
        requires
            kl == k * l,
            k > 0,
            l > 0,
    ;
    assert(cuk >= 0) by (nonlinear_arith)
        requires
            cuk == (c * u) * k,
            c > 0,
            u > 0,
            k > 0,
    ;
    let e = p * k - m * l;
    assert(t1 - t3 == e * u) by (nonlinear_arith)
        requires
            t1 == (u * p) * k,
            t3 == (m * u) * l,
            e == p * k - m * l,
    ;
    let uk = u * k;
    assert(uuk == uk * u) by (nonlinear_arith)
        requires
            uuk == (u * u) * k,
            uk == u * k,
    ;
    if p < u {
        assert(t1 <= uuk) by (nonlinear_arith)
            requires
                t1 == (u * p) * k,
                uuk == (u * u) * k,
                0 <= p < u,
                k > 0,
        ;
        assert(t2 <= 2 * uuk);
        assert(t3 <= 3 * uuk);
        let ce = c * e;
        assert(c * (t1 - t3) == ce * u) by (nonlinear_arith)
            requires
                t1 - t3 == e * u,
                ce == c * e,
        ;
        assert(-(6 * uk) <= ce <= 6 * uk) by (nonlinear_arith)
            requires
                -(6 * uuk) <= ce * u <= 6 * uuk,
                uuk == uk * u,
                u > 0,
        ;
    } else {
        assert(t1 >= uuk) by (nonlinear_arith)
            requires
                t1 == (u * p) * k,
                uuk == (u * u) * k,
                p >= u,
                u > 0,
                k > 0,
        ;
        let n = k * u - m * l;
        let cn = c * n;
        assert(c * (uuk - t3) == cn * u) by (nonlinear_arith)
            requires
                cn == c * n,
                n == k * u - m * l,
                uuk == (u * u) * k,
                t3 == (m * u) * l,
        ;
        if t3 < uuk {
            assert(c * (uuk - t3) <= 8 * uuk);
            assert(cn <= 8 * uk) by (nonlinear_arith)
                requires
                    cn * u <= 8 * uuk,
                    uuk == uk * u,
                    u > 0,
            ;
        } else {
            assert(cn <= 0) by (nonlinear_arith)
                requires
                    c * (uuk - t3) == cn * u,
                    t3 >= uuk,
                    c > 0,
                    u > 0,
            ;
            assert(uk >= 0) by (nonlinear_arith)
                requires
                    uk == u * k,
                    u > 0,
                    k > 0,
            ;
        }
        assert(k * u == uk) by (nonlinear_arith)
            requires
                uk == u * k,
        ;
    }
}

/// The seizure by its relief, against what it stands for.
proof fn lemma_quotient_stage(
    c: int,
    u: int,
    k: int,
    n: int,
    z: int,
    g: int,
    gap: int,
    x: int,
)
    requires
        c == 0x20_0000_0000_0000,
        u > 0,
        k > 0,
        0 < z <= u,
        gap > 0,
        g >= 0,
        x >= 0,
        -(10 * (u * k)) <= c * (z * k - n) <= 10 * (u * k),
        -gap <= c * (g - gap) <= gap,
        -(2 * (g * u) + c * z) <= (2 * c) * (x * z - g * u) <= 2 * (g * u) + c * z,
    ensures
        is_quotient(x, n, gap, u * k),
{
    let uk = u * k;
    assert(uk > 0) by (nonlinear_arith)
        requires
            uk == u * k,
            u > 0,
            k > 0,
    ;
    let xk = x * uk;
    let gk = g * uk;
    let ak = gap * uk;
    let xn = x * n;
    let xzk = (x * z) * k;
    let d = c * (z * k - n);
    assert(-(10 * xk) <= x * d <= 10 * xk) by (nonlinear_arith)
        requires
            -(10 * uk) <= d <= 10 * uk,
            xk == x * uk,
            x >= 0,
    ;
    assert(x * d == c * (xzk - xn)) by (nonlinear_arith)
        requires
            d == c * (z * k - n),
            xzk == (x * z) * k,
            xn == x * n,
    ;
    let gu = g * u;
    let xz = x * z;
    let zk = z * k;
    assert(zk <= uk) by (nonlinear_arith)
        requires
            zk == z * k,
            uk == u * k,
            z <= u,
            k > 0,
    ;
    assert(gu * k == gk) by (nonlinear_arith)
        requires
            gu == g * u,
            gk == g * uk,
            uk == u * k,
    ;
    assert(-(2 * gk + c * zk) <= (2 * c) * (xzk - gk) <= 2 * gk + c * zk) by (nonlinear_arith)
        requires
            -(2 * gu + c * z) <= (2 * c) * (xz - gu) <= 2 * gu + c * z,
            xzk == xz * k,
            gu * k == gk,
            zk == z * k,
            k > 0,
    ;
    let e = c * (g - gap);
    assert(-ak <= e * uk <= ak) by (nonlinear_arith)
        requires
            -gap <= e <= gap,
            ak == gap * uk,
            uk > 0,
    ;
    assert(e * uk == c * (gk - ak)) by (nonlinear_arith)
        requires
            e == c * (g - gap),
            gk == g * uk,
            ak == gap * uk,
    ;
    // g is not much above x
    assert(xzk <= xk) by (nonlinear_arith)
        requires
            xzk == (x * z) * k,
            xk == x * (u * k),
            z <= u,
            x >= 0,
            k > 0,
    ;
    assert(gk <= 2 * xk + uk);
    assert(ak <= 2 * gk);
    assert(-(32 * xk + (2 * c) * uk) <= c * (xn - ak) <= 32 * xk + (2 * c) * uk);
    assert((x + 0x2_0000_0000_0000) * uk == xk + 0x2_0000_0000_0000 * uk) by (nonlinear_arith)
        requires
            xk == x * uk,
    ;
}

/// A seizure that is not below the debt shows that no partial one helps.
proof fn lemma_not_below(x: int, d: int, n: int, gap: int, k: int)
    requires
        is_quotient(x, n, gap, k),
        gap >= 0,
        k > 0,
        0 <= d <= x,
    ensures
        0x1_0000_0000_0000 * (d * n) <= 0x1_0000_0000_0000 * (gap * k) + (d + 0x2_0000_0000_0000)
            * k,
{
    let q: int = 0x1_0000_0000_0000;
    let t = q * n - k;
    let gk = gap * k;
    assert(x * t <= q * gk + (2 * q) * k) by (nonlinear_arith)
        requires
            q * (x * n - gk) <= (x + 2 * q) * k,
            t == q * n - k,
    ;
    assert(k * q > 0) by (nonlinear_arith)
        requires
            k > 0,
            q > 0,
    ;
    assert(q * (d * n) == d * t + d * k) by (nonlinear_arith)
        requires
            t == q * n - k,
    ;
    assert((d + 2 * q) * k == d * k + (2 * q) * k) by (nonlinear_arith);
    if t > 0 {
        assert(d * t <= x * t) by (nonlinear_arith)
            requires
                d <= x,
                t > 0,
        ;
    } else {
        assert(d * t <= 0) by (nonlinear_arith)
            requires
                d >= 0,
                t <= 0,
        ;
        assert(gk >= 0) by (nonlinear_arith)
            requires
                gk == gap * k,
                gap >= 0,
                k > 0,
        ;
    }
}

/// A seizure that is below the debt shows that a partial one may help.
proof fn lemma_below(x: int, d: int, n: int, gap: int, k: int)
    requires
        is_quotient(x, n, gap, k),
        k > 0,
        0 <= x < d,
        n >= 0,
    ensures
        0x1_0000_0000_0000 * (d * n) >= 0x1_0000_0000_0000 * (gap * k) - (d + 0x2_0000_0000_0000)
            * k,
{
    let q: int = 0x1_0000_0000_0000;
    assert(x * n <= d * n) by (nonlinear_arith)
        requires
            x < d,
            n >= 0,
    ;
    assert((x + 2 * q) * k <= (d + 2 * q) * k) by (nonlinear_arith)
        requires
            x < d,
            k > 0,
    ;
}

/// What is left of the collateral, against the dust floor.
proof fn lemma_dust(total: Value, delta: Value, lif: Value, floor: Value)
    requires
        positive(total),
        total.is_double(),
        is_amount(delta),
        is_amount(lif),
        is_amount(floor),
        floor.is_double(),
    ensures
        ({
            let c = 0x20_0000_0000_0000int;
            let u = one_in_quanta() as int;
            let xl = delta.quanta() * lif.quanta();
            let left = total.quanta() * u - xl;
            let f = floor.quanta() * u;
            let dust = total.minus(delta.times(lif)).lt(floor);
            &&& dust ==> (2 * c) * left < (2 * c) * f + 2 * xl + c * u
            &&& !dust ==> (2 * c) * left >= (2 * (c - 1)) * f - 2 * xl - c * u
        }),
{
    let c: int = 0x20_0000_0000_0000;
    let u = one_in_quanta() as int;
    let t = total.quanta();
    let fq = floor.quanta();
    let xl = delta.quanta() * lif.quanta();
    lemma_zero_significant();
    lemma_product_error(delta, lif);
    let y = round_mag(delta.quanta() as nat * lif.quanta() as nat, u as nat) as int;
    let spent = delta.times(lif);
    let rest = t - y;
    let dust = total.minus(spent).lt(floor);
    if y >= overflow_bound() {
        assert(dust);
    } else {
        assert(spent.negated().quanta() == -y);
        lemma_sum_sign(rest, true);
        lemma_sum_sign(rest, false);
        if rest > 0 {
            lemma_round_error(rest as nat, 1);
            lemma_round_le(rest as nat, 1, t as nat);
            let r = round_mag(rest as nat, 1) as int;
            assert(total.minus(spent) == (Value::Fin { neg: false, mag: r as nat }));
            if rest >= fq {
                lemma_round_ge(rest as nat, 1, fq as nat);
            }
        }
    }
    lemma_dust_stage(c, u, t, y, xl, fq, dust);
}

/// What is left of the collateral by the roundings on the way.
proof fn lemma_dust_stage(c: int, u: int, t: int, y: int, xl: int, fq: int, dust: bool)
    requires
        c == 0x20_0000_0000_0000,
        u > 0,
        fq >= 0,
        -(2 * xl + c * u) <= (2 * c) * (u * y - xl) <= 2 * xl + c * u,
        dust ==> t - y < fq,
        !dust ==> t - y >= 0 && c * fq <= (c + 1) * (t - y),
    ensures
        dust ==> (2 * c) * (t * u - xl) < (2 * c) * (fq * u) + 2 * xl + c * u,
        !dust ==> (2 * c) * (t * u - xl) >= (2 * (c - 1)) * (fq * u) - 2 * xl - c * u,
{
    let rest = t - y;
    let ru = rest * u;
    let f = fq * u;
    let e = (2 * c) * (u * y - xl);
    assert((2 * c) * (t * u - xl) == (2 * c) * ru + e) by (nonlinear_arith)
        requires
            ru == (t - y) * u,
            e == (2 * c) * (u * y - xl),
    ;
    if dust {
        assert((2 * c) * ru < (2 * c) * f) by (nonlinear_arith)
            requires
                rest < fq,
                ru == rest * u,
                f == fq * u,
                u > 0,
                c > 0,
        ;
    } else {
        assert(c * f <= (c + 1) * ru && ru >= 0 && f >= 0) by (nonlinear_arith)
            requires
                rest >= 0,
                fq >= 0,
                c * fq <= (c + 1) * rest,
                ru == rest * u,
                f == fq * u,
                u > 0,
        ;
        assert((2 * c) * ru >= (2 * (c - 1)) * f) by (nonlinear_arith)
            requires
                c * f <= (c + 1) * ru,
                ru >= 0,
                f >= 0,
                c > 1,
        ;
    }
}

/// The least seizure that restores health, and when a full liquidation is in order, in exact
/// numbers. `D` is what is left of the debt, `M` what the position may carry, `C` what its
/// collateral is worth.
///
/// Where `D` is not above `M`, nothing is seized. Otherwise a full liquidation of all of `D` is
/// in order exactly where `1 - M / C * LIF` is not above zero or `(D - M) / (1 - M / C * LIF)` is
/// not below `D`, up to rounding; elsewhere that quotient is seized, up to rounding, and a full
/// liquidation is allowed exactly where less than the dust floor is left, `C` less the quotient
/// times `LIF`, up to rounding.
pub proof fn law_seizure_in_exact_numbers(
    pos: PositionModel,
    shadow_eth: Value,
    bad_debt: Value,
    lif: Value,
)
    requires
        pos.debt.minus(bad_debt) is Fin,
        is_amount(pos.max_debt(shadow_eth)),
        positive(pos.total_collateral(shadow_eth)),
        lif is Fin,
        one_in_quanta() <= lif.quanta() <= 0x20_0000_0000_0000 * one_in_quanta(),
        is_amount(pos.rcf_threshold),
        pos.rcf_threshold.is_double(),
    ensures
        ({
            let c = 0x20_0000_0000_0000int;
            let u = one_in_quanta() as int;
            let d = pos.debt.minus(bad_debt).quanta();
            let m = pos.max_debt(shadow_eth).quanta();
            let k = u * pos.total_collateral(shadow_eth).quanta();
            let n = k - m * lif.quanta();
            let (seized, full) = pos.seizure_params(shadow_eth, bad_debt, lif);
            let x = seized.quanta();
            let xl = x * lif.quanta();
            let f = pos.rcf_threshold.quanta() * u;
            &&& d <= m ==> seized == Value::zero() && !full
            &&& d > m ==> {
                let all = seized == pos.debt.minus(bad_debt) && full;
                let partial = {
                    &&& seized is Fin
                    &&& 0 <= x < d
                    &&& is_quotient(x, n, d - m, k)
                    &&& full ==> (2 * c) * (k - xl) < (2 * c) * f + 2 * xl + c * u
                    &&& !full ==> (2 * c) * (k - xl) >= (2 * (c - 1)) * f - 2 * xl - c * u
                };
                &&& all || partial
                &&& !may_be_hopeless(d, m, n, k) ==> partial
                &&& is_hopeless(d, m, n, k) ==> all
            }
        }),
{
    let c: int = 0x20_0000_0000_0000;
    let u = one_in_quanta() as int;
    let rem = pos.debt.minus(bad_debt);
    let d = rem.quanta();
    let md = pos.max_debt(shadow_eth);
    let m = md.quanta();
    let total = pos.total_collateral(shadow_eth);
    let t = total.quanta();
    let k = u * t;
    let l = lif.quanta();
    let n = k - m * l;
    lemma_zero_significant();
    lemma_whole_exact(1);
    lemma_sum_is_double(pos.debt, bad_debt.negated());
    lemma_total_is_double(pos.legs.map_values(|l: LegModel| l.max_debt(shadow_eth)));
    lemma_total_is_double(pos.legs.map_values(|l: LegModel| l.collateral_value(shadow_eth)));
    lemma2_to64();
    lemma2_to64_rest();
    lemma_pow2_adds(53, 53);
    lemma_pow2_adds(2, 106);
    lemma_pow2_ordered(108, 1074);
    assert(u >= 4 * (c * c)) by (nonlinear_arith)
        requires
            u >= pow2(108),
            pow2(108) == 4 * pow2(106),
            pow2(106) == pow2(53) * pow2(53),
            pow2(53) == c,
    ;
    assert(k > 0) by (nonlinear_arith)
        requires
            k == u * t,
            u > 0,
            t > 0,
    ;
    let (seized, full) = pos.seizure_params(shadow_eth, bad_debt, lif);
    if d > m {
        let blended = md.over(total);
        let product = blended.times(lif);
        let relief = Value::one().minus(product);
        lemma_over_error(md, total);
        let b = round_mag(m as nat * u as nat, t as nat) as int;
        if m > t {
            // more may be carried than there is
            assert(u * t <= m * u) by (nonlinear_arith)
                requires
                    m > t,
                    u > 0,
            ;
            lemma_round_ge(m as nat * u as nat, t as nat, u as nat);
            if blended is Fin {
                lemma_times_quanta(blended, lif);
                assert(u * u <= b * l) by (nonlinear_arith)
                    requires
                        b >= u,
                        l >= u,
                        u > 0,
                ;
                lemma_round_ge((b * l) as nat, u as nat, u as nat);
            }
            if product is Fin {
                assert(product.negated().quanta() == -product.quanta());
                lemma_sum_sign(u - product.quanta(), true);
                lemma_sum_sign(u - product.quanta(), false);
            }
            assert(relief.le(Value::zero()));
            assert(n <= 0) by (nonlinear_arith)
                requires
                    n == u * t - m * l,
                    m > t,
                    t > 0,
                    l >= u,
                    u > 0,
            ;
            assert(seized == rem && full);
        } else {
            assert(m * u <= u * t) by (nonlinear_arith)
                requires
                    m <= t,
                    u > 0,
            ;
            lemma_round_le(m as nat * u as nat, t as nat, u as nat);
            lemma_pow2_strictly_increases(1074, 2098);
            assert(blended is Fin && blended.quanta() == b);
            lemma_product_error(blended, lif);
            let p = round_mag(b as nat * l as nat, u as nat) as int;
            lemma_pow2_adds(53, 1074);
            lemma_pow2_strictly_increases(1127, 2098);
            assert(1 * pow2(1127) == pow2(1127));
            lemma_significant(1, 1127);
            assert(b * l <= (c * u) * u) by (nonlinear_arith)
                requires
                    0 <= b <= u,
                    0 <= l <= c * u,
            ;
            assert(b as nat * l as nat == b * l);
            lemma_round_le(b as nat * l as nat, u as nat, pow2(1127));
            assert(product is Fin && product.quanta() == p);
            lemma_product_stage(c, u, m, t, l, b, p);
            assert(t * u == k) by (nonlinear_arith)
                requires
                    k == u * t,
            ;
            if p >= u {
                assert(product.negated().quanta() == -p);
                lemma_sum_sign(u - p, true);
                lemma_sum_sign(u - p, false);
                assert(relief.le(Value::zero()));
                assert(c * n <= 8 * k);
                assert(seized == rem && full);
            } else {
                assert(product.negated().quanta() == -p);
                lemma_sum_sign(u - p, true);
                lemma_sum_sign(u - p, false);
                lemma_relief(product);
                lemma_plus_error(Value::one(), product.negated());
                let z = relief.quanta();
                // the relief, against what it stands for
                let zt = z * t;
                let pt = p * t;
                let e = c * (z - (u - p));
                assert(-k <= e * t <= k) by (nonlinear_arith)
                    requires
                        -u <= e <= u,
                        k == u * t,
                        t > 0,
                ;
                assert(e * t == c * (zt - (k - pt))) by (nonlinear_arith)
                    requires
                        e == c * (z - (u - p)),
                        zt == z * t,
                        pt == p * t,
                        k == u * t,
                ;
                assert(-(10 * k) <= c * (zt - n) <= 10 * k);
                // the gap
                let gap = d - m;
                assert(md.negated().quanta() == -m);
                lemma_round_le(gap as nat, 1, d as nat);
                lemma_minus_quanta(rem, md);
                lemma_plus_error(rem, md.negated());
                let short = rem.minus(md);
                let g = short.quanta();
                // the seizure
                lemma_over_error(short, relief);
                let x = round_mag(g as nat * u as nat, z as nat) as int;
                let delta = short.over(relief);
                lemma_quotient_stage(c, u, t, n, z, g, gap, x);
                assert(delta == pos.restoring_seizure(shadow_eth, bad_debt, lif));
                if x >= d {
                    lemma_not_below(x, d, n, gap, k);
                    assert(seized == rem && full);
                } else {
                    assert(delta is Fin && delta.quanta() == x);
                    lemma_dust(total, delta, lif, pos.rcf_threshold);
                    assert(seized == delta);
                    assert(t * u - x * l == k - x * l);
                    if n >= 0 {
                        lemma_below(x, d, n, gap, k);
                    } else {
                        assert(zt > 0) by (nonlinear_arith)
                            requires
                                zt == z * t,
                                z > 0,
                                t > 0,
                        ;
                    }
                    assert(!is_hopeless(d, m, n, k));
                }
            }
        }
    }
}

} // verus!
