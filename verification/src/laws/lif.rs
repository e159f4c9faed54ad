//! The highest incentive of a leg.

use vstd::arithmetic::power2::*;
use vstd::prelude::*;

use crate::binary64::double::lemma_whole_exact;
use crate::binary64::model::{one_in_quanta, round_mag, significant, Value};
use crate::binary64::order::{
    lemma_minus_quanta, lemma_over_quanta, lemma_quotient_above_one, lemma_round_error,
    lemma_round_ge, lemma_round_is_double, lemma_round_le, lemma_round_significant,
    lemma_significant, lemma_times_quanta, lemma_zero_significant,
};
use crate::binary64::rounding::{lemma_pow2_ordered, lemma_round_ordered};
use crate::laws::auction::is_incentive;
use crate::types::LegModel;

verus! {

/// A double between zero and one.
pub open spec fn is_rate(v: Value) -> bool {
    &&& v is Fin
    &&& v.is_double()
    &&& 0 < v.quanta() < one_in_quanta()
}

/// What is left of one once the LLTV has been taken away, in quanta.
spec fn rest(leg: LegModel) -> nat {
    round_mag((one_in_quanta() - leg.lltv.quanta()) as nat, 1)
}

/// The part of it that the cursor takes.
spec fn part(leg: LegModel) -> nat {
    round_mag(leg.cursor.quanta() as nat * rest(leg), one_in_quanta())
}

/// What is left of one after that.
spec fn left(leg: LegModel) -> nat {
    round_mag((one_in_quanta() - part(leg)) as nat, 1)
}

/// The highest incentive by its parts.
proof fn lemma_parts(leg: LegModel)
    requires
        is_rate(leg.lltv),
        is_rate(leg.cursor),
    ensures
        0 < rest(leg) <= one_in_quanta(),
        part(leg) <= leg.cursor.quanta(),
        0 < left(leg) <= one_in_quanta(),
        significant(left(leg)),
        leg.lif_max() is Fin,
        leg.lif_max().quanta() == round_mag(one_in_quanta() * one_in_quanta(), left(leg)),
        is_incentive(leg.lif_max()),
{
    let u = one_in_quanta();
    let l = leg.lltv.quanta();
    let c = leg.cursor.quanta() as nat;
    let one = Value::one();
    lemma_zero_significant();
    lemma2_to64();
    lemma2_to64_rest();
    lemma_whole_exact(1);
    // the rest
    let y = rest(leg);
    lemma_round_le((u - l) as nat, 1, u);
    lemma_round_ge((u - l) as nat, 1, 1);
    lemma_minus_quanta(one, leg.lltv);
    let first = one.minus(leg.lltv);
    // the part
    let p = part(leg);
    assert(c * y <= c * u) by (nonlinear_arith)
        requires
            y <= u,
    ;
    lemma_round_le(c * y, u, c);
    lemma_times_quanta(leg.cursor, first);
    let taken = leg.cursor.times(first);
    // what is left
    let z = left(leg);
    lemma_below_one(c);
    lemma_pow2_pos(1021);
    let lo = pow2(1021);
    assert(1 * lo == lo);
    lemma_significant(1, 1021);
    assert(u - p >= lo);
    lemma_round_ge((u - p) as nat, 1, lo);
    lemma_round_le((u - p) as nat, 1, u);
    lemma_round_significant((u - p) as nat, 1);
    lemma_minus_quanta(one, taken);
    let divisor = one.minus(taken);
    assert(divisor.quanta() == z && divisor is Fin);
    // the incentive
    lemma_pow2_adds(53, 1074);
    lemma_pow2_strictly_increases(1127, 2098);
    assert(1 * pow2(1127) == pow2(1127));
    lemma_significant(1, 1127);
    assert(u * u <= pow2(1127) * z) by (nonlinear_arith)
        requires
            z >= lo,
            u == pow2(53) * lo,
            pow2(1127) == pow2(53) * u,
    ;
    lemma_round_le(u * u, z, pow2(1127));
    lemma_round_is_double(false, u * u, z);
    assert(u * z <= u * u) by (nonlinear_arith)
        requires
            z <= u,
    ;
    lemma_round_ge(u * u, z, u);
    lemma_over_quanta(one, divisor);
}

/// A double below one is below it by at least one part in 2 to the power 53.
proof fn lemma_below_one(x: nat)
    requires
        significant(x),
        x < one_in_quanta(),
    ensures
        x + pow2(1021) <= one_in_quanta(),
        one_in_quanta() == pow2(53) * pow2(1021),
{
    let u = one_in_quanta();
    let step = pow2(1021);
    lemma2_to64_rest();
    lemma_pow2_adds(53, 1021);
    lemma_pow2_pos(1021);
    let (m, k) = choose|m: nat, k: nat|
        m < 0x20_0000_0000_0000 && x == #[trigger] (m * pow2(k));
    if k >= 1021 {
        let f = (k - 1021) as nat;
        lemma_pow2_adds(f, 1021);
        let w = m * pow2(f);
        assert(x == w * step) by (nonlinear_arith)
            requires
                x == m * pow2(k),
                pow2(k) == pow2(f) * step,
                w == m * pow2(f),
        ;
        assert(w + 1 <= 0x20_0000_0000_0000) by (nonlinear_arith)
            requires
                w * step < 0x20_0000_0000_0000 * step,
                step > 0,
        ;
        assert((w + 1) * step <= 0x20_0000_0000_0000 * step) by (nonlinear_arith)
            requires
                w + 1 <= 0x20_0000_0000_0000,
        ;
        assert((w + 1) * step == x + step) by (nonlinear_arith)
            requires
                x == w * step,
        ;
    } else {
        lemma_pow2_ordered(k, 1021);
        assert(x + step <= 0x20_0000_0000_0000 * step) by (nonlinear_arith)
            requires
                x == m * pow2(k),
                pow2(k) <= step,
                m + 1 <= 0x20_0000_0000_0000,
        ;
    }
}

/// A lower LLTV or a higher cursor never lowers the incentive, and nothing else of a leg
/// matters to it.
pub proof fn law_incentive_order(a: LegModel, b: LegModel)
    requires
        is_rate(a.lltv),
        is_rate(a.cursor),
        is_rate(b.lltv),
        is_rate(b.cursor),
        a.lltv.le(b.lltv),
        b.cursor.le(a.cursor),
    ensures
        b.lif_max().le(a.lif_max()),
        a.lltv == b.lltv && a.cursor == b.cursor ==> a.lif_max() == b.lif_max(),
{
    let u = one_in_quanta();
    lemma_zero_significant();
    lemma_parts(a);
    lemma_parts(b);
    lemma_round_ordered((u - b.lltv.quanta()) as nat, 1, (u - a.lltv.quanta()) as nat, 1);
    let m = b.cursor.quanta() as nat * rest(b);
    let n = a.cursor.quanta() as nat * rest(a);
    assert(m * u <= n * u) by (nonlinear_arith)
        requires
            m == b.cursor.quanta() as nat * rest(b),
            n == a.cursor.quanta() as nat * rest(a),
            b.cursor.quanta() as nat <= a.cursor.quanta() as nat,
            rest(b) <= rest(a),
    ;
    lemma_round_ordered(m, u, n, u);
    lemma_round_ordered((u - part(a)) as nat, 1, (u - part(b)) as nat, 1);
    assert((u * u) * left(a) <= (u * u) * left(b)) by (nonlinear_arith)
        requires
            left(a) <= left(b),
    ;
    lemma_round_ordered(u * u, left(b), u * u, left(a));
}

/// The incentive is one that an auction reaches exactly: it is not below one, and not above 2 to
/// the power 53. It is above one where `cursor * (1 - LLTV)` is at least 2 to the power -50; below
/// that, rounding can hide the bonus.
pub proof fn law_incentive_is_a_bonus(leg: LegModel)
    requires
        is_rate(leg.lltv),
        is_rate(leg.cursor),
    ensures
        is_incentive(leg.lif_max()),
        Value::one().le(leg.lif_max()),
        (leg.cursor.quanta() * (one_in_quanta() - leg.lltv.quanta())) * 0x4_0000_0000_0000
            >= one_in_quanta() * one_in_quanta() ==> Value::one().lt(leg.lif_max()),
{
    let u = one_in_quanta();
    let l = leg.lltv.quanta();
    let c = leg.cursor.quanta();
    lemma_zero_significant();
    lemma_whole_exact(1);
    lemma_parts(leg);
    let a = (u - l) as nat;
    if (c * (u - l)) * 0x4_0000_0000_0000 >= u * u {
        lemma2_to64();
        lemma2_to64_rest();
        lemma_pow2_adds(53, 1021);
        lemma_pow2_adds(51, 1023);
        lemma_pow2_adds(2, 1021);
        let y = rest(leg);
        let tiny = pow2(1023);
        assert(1 * tiny == tiny);
        lemma_significant(1, 1023);
        lemma_round_error(a, 1);
        assert(2 * y >= a);
        let n = c as nat * y;
        let b = c as nat * a;
        assert(2 * n >= b) by (nonlinear_arith)
            requires
                n == c as nat * y,
                b == c as nat * a,
                2 * y >= a,
        ;
        assert(tiny * u <= n) by (nonlinear_arith)
            requires
                2 * n >= b,
                b * 0x4_0000_0000_0000 >= u * u,
                u == 0x8_0000_0000_0000 * tiny,
        ;
        lemma_round_ge(n, u, tiny);
        let m: nat = 0x1f_ffff_ffff_fffc;
        lemma_significant(m, 1021);
        lemma_round_le((u - part(leg)) as nat, 1, m * pow2(1021));
        lemma_pow2_pos(1021);
        lemma_quotient_above_one(u, left(leg));
    }
}

/// The incentive undoes what it divides by: with `E = 1 - cursor * (1 - LLTV)`, `LIF * E` is one,
/// up to `1 + 4 * LIF` parts in 2 to the power 53.
pub proof fn law_incentive_formula(leg: LegModel)
    requires
        is_rate(leg.lltv),
        is_rate(leg.cursor),
    ensures
        ({
            let u = one_in_quanta() as int;
            let lif = leg.lif_max().quanta();
            let exact = u * u - leg.cursor.quanta() * (u - leg.lltv.quanta());
            let off = lif * exact - (u * u) * u;
            let slack = (u * u) * u + 4 * ((u * u) * lif);
            -slack <= 0x20_0000_0000_0000 * off <= slack
        }),
{
    let k: int = 0x20_0000_0000_0000;
    let u = one_in_quanta() as int;
    let l = leg.lltv.quanta();
    let c = leg.cursor.quanta();
    let lif = leg.lif_max().quanta();
    let y = rest(leg) as int;
    let p = part(leg) as int;
    let z = left(leg) as int;
    lemma_zero_significant();
    lemma2_to64();
    lemma2_to64_rest();
    lemma_pow2_ordered(60, 1074);
    lemma_parts(leg);
    let uu = u * u;
    assert(uu >= k * (u + u)) by (nonlinear_arith)
        requires
            uu == u * u,
            u >= 0x1000_0000_0000_0000,
            k == 0x20_0000_0000_0000,
    ;
    // the rest
    lemma_round_error((u - l) as nat, 1);
    let d = k * (y - (u - l));
    assert(-u <= d <= u);
    // the part
    lemma_round_error((c * y) as nat, u as nat);
    let cy = c * y;
    assert(0 <= cy <= uu) by (nonlinear_arith)
        requires
            cy == c * y,
            uu == u * u,
            0 <= c <= u,
            0 <= y <= u,
    ;
    let pu = p * u;
    assert(-(2 * uu + k * u) <= (2 * k) * (pu - cy) <= 2 * uu + k * u) by (nonlinear_arith)
        requires
            cy < u * k ==> -u <= 2 * (pu - cy) <= u,
            cy >= u * k ==> -cy <= k * (pu - cy) <= cy,
            0 <= cy <= uu,
            k == 0x20_0000_0000_0000,
            u > 0,
    ;
    let ca = c * (u - l);
    assert(-uu <= c * d <= uu) by (nonlinear_arith)
        requires
            -u <= d <= u,
            0 <= c <= u,
            uu == u * u,
    ;
    assert(c * d == k * (cy - ca)) by (nonlinear_arith)
        requires
            d == k * (y - (u - l)),
            cy == c * y,
            ca == c * (u - l),
    ;
    // what is left
    lemma_round_error((u - p) as nat, 1);
    let f = k * (z - (u - p));
    assert(-u <= f <= u);
    let zu = z * u;
    assert(-uu <= f * u <= uu) by (nonlinear_arith)
        requires
            -u <= f <= u,
            uu == u * u,
            u > 0,
    ;
    assert(f * u == k * (zu - (uu - pu))) by (nonlinear_arith)
        requires
            f == k * (z - (u - p)),
            zu == z * u,
            pu == p * u,
            uu == u * u,
    ;
    let exact = uu - ca;
    let g = k * (exact - zu);
    assert(-(4 * uu) <= g <= 4 * uu);
    // the incentive
    assert(uu >= z * k) by (nonlinear_arith)
        requires
            uu == u * u,
            0 < z <= u,
            u >= k,
    ;
    lemma_round_error((u * u) as nat, z as nat);
    let lz = lif * z;
    let h = k * (lz - uu);
    assert(-uu <= h <= uu);
    let uul = uu * lif;
    assert(-(4 * uul) <= g * lif <= 4 * uul) by (nonlinear_arith)
        requires
            -(4 * uu) <= g <= 4 * uu,
            lif >= 0,
            uul == uu * lif,
    ;
    let uuu = uu * u;
    assert(-uuu <= h * u <= uuu) by (nonlinear_arith)
        requires
            -uu <= h <= uu,
            u > 0,
            uuu == uu * u,
    ;
    assert(k * (lif * exact - uuu) == g * lif + h * u) by (nonlinear_arith)
        requires
            g == k * (exact - zu),
            h == k * (lz - uu),
            lz == lif * z,
            zu == z * u,
            uuu == uu * u,
    ;
}

/// Seizing at the incentive is covered by the LLTV: `LLTV * LIF` stays below one, where
/// `(1 - cursor) * (1 - LLTV)` is at least 2 to the power -50.
pub proof fn law_incentive_within_lltv(leg: LegModel)
    requires
        is_rate(leg.lltv),
        is_rate(leg.cursor),
        ((one_in_quanta() - leg.cursor.quanta()) * (one_in_quanta() - leg.lltv.quanta()))
            * 0x4_0000_0000_0000 >= one_in_quanta() * one_in_quanta(),
    ensures
        leg.lltv.times(leg.lif_max()).lt(Value::one()),
{
    let k: int = 0x20_0000_0000_0000;
    let u = one_in_quanta() as int;
    let l = leg.lltv.quanta();
    let c = leg.cursor.quanta();
    let lif = leg.lif_max().quanta();
    lemma_zero_significant();
    lemma2_to64();
    lemma2_to64_rest();
    lemma_whole_exact(1);
    lemma_parts(leg);
    law_incentive_formula(leg);
    let uu = u * u;
    let uuu = uu * u;
    let uul = uu * lif;
    let exact = uu - c * (u - l);
    let gap = (u - c) * (u - l);
    assert(exact - gap == l * u) by (nonlinear_arith)
        requires
            exact == uu - c * (u - l),
            gap == (u - c) * (u - l),
            uu == u * u,
    ;
    assert(8 * uul <= k * (gap * lif)) by (nonlinear_arith)
        requires
            gap * 0x4_0000_0000_0000 >= uu,
            k == 8 * 0x4_0000_0000_0000,
            uul == uu * lif,
            lif >= 0,
    ;
    assert(uul >= uuu) by (nonlinear_arith)
        requires
            uul == uu * lif,
            uuu == uu * u,
            lif >= u,
            uu >= 0,
    ;
    let ll = l * lif;
    assert(lif * exact == ll * u + gap * lif) by (nonlinear_arith)
        requires
            exact - gap == l * u,
            ll == l * lif,
    ;
    assert(k * (ll * u) <= (k - 3) * uuu);
    assert(k * ll <= (k - 3) * uu) by (nonlinear_arith)
        requires
            k * (ll * u) <= (k - 3) * uuu,
            uuu == uu * u,
            u > 0,
    ;
    // rounded, it stays below one
    lemma_pow2_adds(53, 1021);
    lemma_pow2_pos(1021);
    let step = pow2(1021);
    let m: nat = 0x1f_ffff_ffff_fffd;
    let top = m * step;
    lemma_significant(m, 1021);
    assert(ll <= top * u) by (nonlinear_arith)
        requires
            k * ll <= (k - 3) * uu,
            k == 0x20_0000_0000_0000,
            m == 0x1f_ffff_ffff_fffd,
            top == m * step,
            uu == u * u,
            u == k * step,
    ;
    assert(ll >= 0) by (nonlinear_arith)
        requires
            ll == l * lif,
            l >= 0,
            lif >= 0,
    ;
    lemma_round_le(ll as nat, u as nat, top);
    lemma_times_quanta(leg.lltv, leg.lif_max());
}

} // verus!
