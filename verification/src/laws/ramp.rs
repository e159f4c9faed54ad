//! The auction's incentive grows in proportion to time.

use vstd::arithmetic::power2::{lemma2_to64_rest, pow2};
use vstd::prelude::*;

use crate::binary64::double::lemma_whole_exact;
use crate::binary64::model::{one_in_quanta, overflow_bound, round_mag, Value};
use crate::binary64::order::{
    lemma_minus_quanta, lemma_over_error, lemma_plus_error, lemma_plus_quanta, lemma_product_error,
    lemma_round_error, lemma_round_le, lemma_zero_significant, positive,
};
use crate::binary64::rounding::lemma_pow2_ordered;
use crate::laws::auction::lemma_any_bonus;
use crate::shadow::engine::auction_lif;

verus! {

/// The stages of the ramp, together.
proof fn lemma_ramp(c: int, u: int, e: int, l: int, b: int, w: int, share: int, v: int)
    requires
        c == 0x20_0000_0000_0000,
        u >= c,
        0 < e <= 900,
        l >= u,
        0 <= b <= l,
        0 <= w <= u,
        0 <= share <= b,
        -(l - u) <= c * (b - (l - u)) <= l - u,
        -(2 * (e * u) + 900 * c) <= (2 * c) * (900 * w - e * u) <= 2 * (e * u) + 900 * c,
        -(2 * (b * w) + c * u) <= (2 * c) * (u * share - b * w) <= 2 * (b * w) + c * u,
        -(u + share) <= c * (v - (u + share)) <= u + share,
    ensures
        -(7200 * l) <= c * (900 * (v - u) - e * (l - u)) <= 7200 * l,
{
    let lu = l * u;
    let bw = b * w;
    let us = u * share;
    let eu = e * u;
    assert(0 <= bw <= lu) by (nonlinear_arith)
        requires
            bw == b * w,
            lu == l * u,
            0 <= b <= l,
            0 <= w <= u,
    ;
    assert(0 < eu <= 900 * u) by (nonlinear_arith)
        requires
            eu == e * u,
            0 < e <= 900,
            u > 0,
    ;
    assert(c * u <= lu) by (nonlinear_arith)
        requires
            lu == l * u,
            l >= c,
            u > 0,
    ;
    // the sum
    let a1 = c * (v - (u + share));
    assert(-(2 * lu) <= a1 * u <= 2 * lu) by (nonlinear_arith)
        requires
            -(u + share) <= a1 <= u + share,
            share <= l,
            u <= l,
            lu == l * u,
            u > 0,
    ;
    // the share
    let a2 = (2 * c) * (us - bw);
    assert(-(3 * lu) <= a2 <= 3 * lu);
    // the progress
    let a3 = (2 * c) * (900 * w - eu);
    assert(-(2700 * lu) <= b * a3 <= 2700 * lu) by (nonlinear_arith)
        requires
            -(2 * eu + 900 * c) <= a3 <= 2 * eu + 900 * c,
            eu <= 900 * u,
            c <= u,
            0 <= b <= l,
            lu == l * u,
    ;
    // the bonus
    let a4 = c * (b - (l - u));
    assert(-(900 * lu) <= eu * a4 <= 900 * lu) by (nonlinear_arith)
        requires
            -(l - u) <= a4 <= l - u,
            0 < eu <= 900 * u,
            0 <= l - u <= l,
            lu == l * u,
            u > 0,
    ;
    let t = c * (900 * (v - u) - e * (l - u));
    let i1 = v - (u + share);
    let i4 = b - (l - u);
    let t0 = 900 * (v - u) - e * (l - u);
    let (vu, uu, eb, el, ev) = (v * u, u * u, eu * b, eu * l, eu * u);
    assert(i1 * u == vu - uu - us) by (nonlinear_arith)
        requires
            i1 == v - (u + share),
            vu == v * u,
            uu == u * u,
            us == u * share,
    ;
    assert(b * (900 * w - eu) == 900 * bw - eb) by (nonlinear_arith)
        requires
            bw == b * w,
            eb == eu * b,
    ;
    assert(eu * i4 == eb - el + ev) by (nonlinear_arith)
        requires
            i4 == b - (l - u),
            eb == eu * b,
            el == eu * l,
            ev == eu * u,
    ;
    assert(t0 * u == 900 * vu - 900 * uu - el + ev) by (nonlinear_arith)
        requires
            t0 == 900 * (v - u) - e * (l - u),
            vu == v * u,
            uu == u * u,
            eu == e * u,
            el == eu * l,
            ev == eu * u,
    ;
    assert(a1 * u == c * (i1 * u)) by (nonlinear_arith)
        requires
            a1 == c * i1,
    ;
    assert(b * a3 == (2 * c) * (b * (900 * w - eu))) by (nonlinear_arith)
        requires
            a3 == (2 * c) * (900 * w - eu),
    ;
    assert(eu * a4 == c * (eu * i4)) by (nonlinear_arith)
        requires
            a4 == c * i4,
    ;
    assert((2 * t) * u == (2 * c) * (t0 * u)) by (nonlinear_arith)
        requires
            t == c * t0,
    ;
    assert(-(14_400 * lu) <= (2 * t) * u <= 14_400 * lu);
    assert(-(7200 * l) <= t <= 7200 * l) by (nonlinear_arith)
        requires
            -(14_400 * lu) <= (2 * t) * u <= 14_400 * lu,
            lu == l * u,
            u > 0,
    ;
}

/// The ramp is linear: within the window of 900 seconds, the bonus has grown to as large a part
/// of the highest bonus as the time has come of the window, up to eight parts in 2 to the power
/// 53 of the highest incentive.
pub proof fn law_auction_is_linear(now: u64, maturity_ts: u64, lif_max: Value)
    requires
        maturity_ts < now <= maturity_ts + 900,
        lif_max is Fin,
        lif_max.is_double(),
        Value::one().le(lif_max),
        4 * lif_max.quanta() < overflow_bound(),
    ensures
        auction_lif(now, maturity_ts, lif_max) is Some,
        auction_lif(now, maturity_ts, lif_max)->0 is Fin,
        ({
            let u = one_in_quanta() as int;
            let e = now - maturity_ts;
            let l = lif_max.quanta();
            let v = auction_lif(now, maturity_ts, lif_max)->0.quanta();
            -(7200 * l) <= 0x20_0000_0000_0000 * (900 * (v - u) - e * (l - u)) <= 7200 * l
        }),
{
    let c: int = 0x20_0000_0000_0000;
    let u = one_in_quanta() as int;
    let one = Value::one();
    let e = now - maturity_ts;
    let l = lif_max.quanta();
    lemma_zero_significant();
    lemma2_to64_rest();
    lemma_pow2_ordered(53, 1074);
    lemma_whole_exact(1);
    lemma_whole_exact(900);
    lemma_whole_exact(e as nat);
    // the bonus
    let bonus = lif_max.minus(one);
    lemma_any_bonus(lif_max);
    assert(one.negated().quanta() == -u);
    lemma_plus_error(lif_max, one.negated());
    lemma_round_le((l - u) as nat, 1, l as nat);
    let b = bonus.quanta();
    assert(b <= l) by {
        lemma_minus_quanta(lif_max, one);
    }
    // the progress
    let window = Value::whole(900);
    let elapsed = Value::whole(e as nat);
    let progress = elapsed.over(window);
    assert(positive(window));
    lemma_over_error(elapsed, window);
    let x = (e * u) as nat;
    let w = round_mag(x * u as nat, (900 * u) as nat) as int;
    assert(x * u as nat <= u as nat * ((900 * u) as nat)) by (nonlinear_arith)
        requires
            x == e * u,
            0 < e <= 900,
            u > 0,
    ;
    lemma_round_le(x * u as nat, (900 * u) as nat, u as nat);
    assert(progress is Fin && progress.quanta() == w);
    assert(progress.min(one).quanta() == w && progress.min(one) is Fin);
    let eu = e * u;
    assert(-(2 * eu + 900 * c) <= (2 * c) * (900 * w - eu) <= 2 * eu + 900 * c) by (nonlinear_arith)
        requires
            -(2 * (eu * u) + c * (900 * u)) <= (2 * c) * (w * (900 * u) - eu * u) <= 2 * (eu * u)
                + c * (900 * u),
            u > 0,
    ;
    // the share
    let part = progress.min(one);
    lemma_product_error(bonus, part);
    assert(b as nat * w as nat <= b as nat * u as nat) by (nonlinear_arith)
        requires
            0 <= w <= u,
            b >= 0,
    ;
    lemma_round_le(b as nat * w as nat, u as nat, b as nat);
    let taken = bonus.times(part);
    let share = taken.quanta();
    assert(taken is Fin && 0 <= share <= b);
    // the sum
    lemma_round_error((u + share) as nat, 1);
    lemma_plus_quanta(one, taken);
    lemma_plus_error(one, taken);
    lemma_ramp(c, u, e, l, b, w, share, one.plus(taken).quanta());
}

} // verus!
