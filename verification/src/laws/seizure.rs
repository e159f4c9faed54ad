//! Seizures and what liquidators take.

use vstd::arithmetic::power2::*;
use vstd::prelude::*;

use crate::binary64::double::lemma_whole_exact;
use crate::binary64::model::{one_in_quanta, round_mag, sum, Value};
use crate::binary64::order::{
    lemma_minus_ordered, lemma_minus_quanta, lemma_order, lemma_results_are_doubles,
    lemma_round_error, lemma_round_ge, lemma_round_keeps, lemma_round_le, lemma_significant,
    lemma_sum_is_double, lemma_sum_sign, lemma_times_ordered, lemma_times_quanta,
    lemma_total_is_double, lemma_zero_significant, nonneg, positive,
};
use crate::binary64::rounding::lemma_pow2_ordered;
use crate::shadow::engine::{analysis, auction_takings, takings};
use crate::types::{LegModel, PositionModel};

verus! {

/// Where the remaining debt is within what the position may carry, nothing is seized, and a
/// first touch would only cost the gas.
pub proof fn law_healthy_is_left_alone(
    pos: PositionModel,
    cex_eth: Value,
    oracle_eth: Value,
    now: u64,
    gas: Value,
)
    requires
        pos.remaining_debt(pos.bad_debt(cex_eth)).le(pos.max_debt(cex_eth)),
        pos.blended_lif(cex_eth) is Fin,
        nonneg(pos.blended_lif(cex_eth)),
        gas is Fin,
        gas.is_double(),
    ensures
        ({
            let found = analysis(pos, cex_eth, oracle_eth, now, gas);
            &&& found.min_seizure == Value::zero()
            &&& !found.full_liq_required
            &&& found.first_touch_mev is Fin
            &&& found.first_touch_mev.quanta() == -gas.quanta()
        }),
{
    lemma_blended_lif_is_double(pos, cex_eth);
    lemma_nothing_seized(pos.blended_lif(cex_eth), gas);
}

/// Seizing nothing costs the gas.
proof fn lemma_nothing_seized(lif: Value, gas: Value)
    requires
        lif is Fin,
        lif.is_double(),
        nonneg(lif),
        gas is Fin,
        gas.is_double(),
    ensures
        takings(Value::zero(), lif, gas) is Fin,
        takings(Value::zero(), lif, gas).quanta() == -gas.quanta(),
{
    let bonus = lif.minus(Value::one());
    lemma_zero_significant();
    lemma_bonus_is_finite(lif);
    match bonus {
        Value::Fin { mag, .. } => {
            assert(0 * mag == 0);
            assert(0 * one_in_quanta() == 0);
            lemma_round_keeps(0, one_in_quanta());
        },
        _ => {},
    }
    let product = Value::zero().times(bonus);
    assert(product is Fin && product.quanta() == 0);
    assert(gas.negated().quanta() == -gas.quanta());
    match gas {
        Value::Fin { mag, .. } => {
            lemma_round_keeps(mag, 1);
        },
        _ => {},
    }
}

/// Taking one away from a finite double leaves a finite one.
proof fn lemma_bonus_is_finite(lif: Value)
    requires
        lif is Fin,
        nonneg(lif),
        lif.is_double(),
    ensures
        lif.minus(Value::one()) is Fin,
{
    lemma_whole_exact(1);
    lemma_zero_significant();
    let one = one_in_quanta();
    assert(Value::one().negated().quanta() == -(one as int));
    let s = lif.quanta() - one;
    match lif {
        Value::Fin { mag, .. } => {
            if s < 0 {
                lemma_round_le((-s) as nat, 1, one);
            } else {
                lemma_round_le(s as nat, 1, mag);
            }
        },
        _ => {},
    }
}

/// The blended incentive is a double.
pub proof fn lemma_blended_lif_is_double(pos: PositionModel, shadow_eth: Value)
    ensures
        pos.blended_lif(shadow_eth).is_double(),
{
    lemma_whole_exact(1);
    lemma_zero_significant();
    let total = pos.total_collateral(shadow_eth);
    lemma_total_is_double(
        pos.legs.map_values(|l: LegModel| PositionModel::lif_share(l, shadow_eth, total)),
    );
}

/// Writing off the bad debt leaves something between nothing and the debt; where the
/// collateral covers the debt, it leaves the debt.
pub proof fn law_written_off_debt(pos: PositionModel, shadow_eth: Value)
    requires
        pos.debt is Fin,
        pos.debt.is_double(),
        nonneg(pos.debt),
        nonneg(pos.total_collateral(shadow_eth)),
    ensures
        ({
            let remaining = pos.remaining_debt(pos.bad_debt(shadow_eth));
            &&& remaining is Fin
            &&& nonneg(remaining)
            &&& remaining.le(pos.debt)
            &&& pos.debt.le(pos.total_collateral(shadow_eth)) ==> remaining.quanta()
                == pos.debt.quanta()
        }),
{
    let total = pos.total_collateral(shadow_eth);
    let bad = pos.bad_debt(shadow_eth);
    let d = pos.debt.quanta() as nat;
    lemma_zero_significant();
    match total {
        Value::Fin { .. } => {
            let s = d - total.quanta();
            assert(total.negated().quanta() == -total.quanta());
            lemma_sum_sign(s, true);
            lemma_sum_sign(s, false);
            if s > 0 {
                lemma_round_le(s as nat, 1, d);
            }
        },
        _ => {},
    }
    assert(bad is Fin && 0 <= bad.quanta() <= d);
    let r = (d - bad.quanta()) as nat;
    lemma_round_le(r, 1, d);
    lemma_round_keeps(d, 1);
    lemma_minus_quanta(pos.debt, bad);
}

/// What is seized is not below zero, and not above the remaining debt.
pub proof fn law_seizure_within_debt(
    pos: PositionModel,
    shadow_eth: Value,
    bad_debt: Value,
    lif: Value,
)
    requires
        nonneg(pos.remaining_debt(bad_debt)),
    ensures
        nonneg(pos.seizure_params(shadow_eth, bad_debt, lif).0),
        pos.seizure_params(shadow_eth, bad_debt, lif).0.le(pos.remaining_debt(bad_debt)),
{
    let remaining = pos.remaining_debt(bad_debt);
    let delta = pos.restoring_seizure(shadow_eth, bad_debt, lif);
    lemma_order(Value::zero(), delta, remaining);
    lemma_order(delta, remaining, Value::zero());
}

/// A partial liquidation seizes less than the remaining debt and leaves no dust.
pub proof fn law_partial_leaves_no_dust(
    pos: PositionModel,
    shadow_eth: Value,
    bad_debt: Value,
    lif: Value,
)
    requires
        ({
            let delta = pos.restoring_seizure(shadow_eth, bad_debt, lif);
            &&& !(pos.total_collateral(shadow_eth).minus(delta.times(lif)) is Nan)
            &&& !(pos.rcf_threshold is Nan)
            &&& !(delta is Nan)
            &&& !(pos.remaining_debt(bad_debt) is Nan)
        }),
        !pos.remaining_debt(bad_debt).le(pos.max_debt(shadow_eth)),
        !pos.seizure_params(shadow_eth, bad_debt, lif).1,
    ensures
        ({
            let delta = pos.restoring_seizure(shadow_eth, bad_debt, lif);
            &&& delta.lt(pos.remaining_debt(bad_debt))
            &&& pos.rcf_threshold.le(
                pos.total_collateral(shadow_eth).minus(delta.times(lif)),
            )
        }),
{
}

/// What can be taken in the auction is never negative.
pub proof fn law_auction_takings_are_not_negative(
    pos: PositionModel,
    cex_eth: Value,
    oracle_eth: Value,
    now: u64,
    gas: Value,
)
    ensures
        analysis(pos, cex_eth, oracle_eth, now, gas).dutch_mev matches Some(mev) ==> nonneg(mev),
{
}

/// A first touch never loses more than the gas.
pub proof fn law_first_touch_loses_gas_at_most(seizure: Value, lif: Value, gas: Value)
    requires
        seizure is Fin,
        nonneg(seizure),
        lif is Fin,
        lif.is_double(),
        Value::one().le(lif),
        gas is Fin,
        gas.is_double(),
    ensures
        gas.negated().le(takings(seizure, lif, gas)),
{
    lemma_whole_exact(1);
    lemma_zero_significant();
    lemma_order(Value::zero(), Value::one(), lif);
    lemma_nothing_seized(lif, gas);
    assert(gas.negated().quanta() == -gas.quanta());
    lemma_takings_ordered(Value::zero(), seizure, lif, gas);
}

/// A larger seizure is never worth less.
proof fn lemma_takings_ordered(s: Value, t: Value, lif: Value, gas: Value)
    requires
        nonneg(s),
        s.le(t),
        t is Fin,
        lif is Fin,
        lif.is_double(),
        Value::one().le(lif),
        gas is Fin,
    ensures
        takings(s, lif, gas).le(takings(t, lif, gas)),
{
    let one = Value::one();
    let bonus = lif.minus(one);
    lemma_whole_exact(1);
    lemma_zero_significant();
    lemma_order(Value::zero(), one, lif);
    lemma_bonus_is_finite(lif);
    lemma_minus_ordered(one, lif, one, one);
    lemma_times_ordered(s, t, bonus);
    let a = s.times(bonus);
    let b = t.times(bonus);
    if a is Fin && b is Fin {
        lemma_minus_ordered(a, b, gas, gas);
    }
}

/// In a full liquidation no more can be taken than by repaying all the debt that the
/// collateral covers at the incentive.
pub proof fn law_full_liquidation_is_covered(
    pos: PositionModel,
    cex_eth: Value,
    oracle_eth: Value,
    now: u64,
    gas: Value,
)
    requires
        nonneg(pos.remaining_debt(pos.bad_debt(cex_eth))),
        pos.blended_lif(cex_eth) is Fin,
        Value::one().le(pos.blended_lif(cex_eth)),
        nonneg(pos.total_collateral(cex_eth).over(pos.blended_lif(cex_eth))),
        pos.total_collateral(cex_eth).over(pos.blended_lif(cex_eth)) is Fin,
        gas is Fin,
    ensures
        ({
            let found = analysis(pos, cex_eth, oracle_eth, now, gas);
            let lif = pos.blended_lif(cex_eth);
            found.full_liq_required ==> found.first_touch_mev.le(
                takings(pos.total_collateral(cex_eth).over(lif), lif, gas),
            )
        }),
{
    let lif = pos.blended_lif(cex_eth);
    let bad = pos.bad_debt(cex_eth);
    let (min_seizure, full) = pos.seizure_params(cex_eth, bad, lif);
    let covered = pos.total_collateral(cex_eth).over(lif);
    lemma_whole_exact(1);
    lemma_zero_significant();
    lemma_blended_lif_is_double(pos, cex_eth);
    law_seizure_within_debt(pos, cex_eth, bad, lif);
    lemma_order(Value::zero(), Value::one(), lif);
    lemma_takings_ordered(min_seizure.min(covered), covered, lif, gas);
}

/// In the auction no more can be taken than by repaying what is left of the debt, nor than
/// by repaying what the collateral covers, where that pays.
pub proof fn law_auction_is_covered(remaining: Value, total: Value, lif: Value, gas: Value)
    requires
        lif is Fin,
        lif.is_double(),
        Value::one().le(lif),
        remaining is Fin,
        nonneg(remaining),
        total.over(lif) is Fin,
        nonneg(total.over(lif)),
        gas is Fin,
    ensures
        auction_takings(remaining, total, lif, gas).le(
            takings(remaining, lif, gas).max(Value::zero()),
        ),
        auction_takings(remaining, total, lif, gas).le(
            takings(total.over(lif), lif, gas).max(Value::zero()),
        ),
{
    let covered = total.over(lif);
    let taken = takings(remaining.min(covered), lif, gas);
    lemma_takings_ordered(remaining.min(covered), covered, lif, gas);
    lemma_takings_ordered(remaining.min(covered), remaining, lif, gas);
    lemma_order(taken, takings(covered, lif, gas), Value::zero());
    lemma_order(taken, takings(remaining, lif, gas), Value::zero());
    lemma_order(Value::zero(), taken, takings(covered, lif, gas));
    lemma_order(Value::zero(), taken, takings(remaining, lif, gas));
}

/// With a single leg that is worth something, the blended incentive is that leg's.
pub proof fn law_single_leg_incentive(pos: PositionModel, shadow_eth: Value)
    requires
        pos.legs.len() == 1,
        positive(pos.legs[0].collateral_value(shadow_eth)),
        pos.legs[0].lif_max() is Fin,
        positive(pos.legs[0].lif_max()),
        pos.legs[0].well_formed(),
        shadow_eth.is_double(),
    ensures
        pos.blended_lif(shadow_eth) == pos.legs[0].lif_max(),
{
    let leg = pos.legs[0];
    let worth = leg.collateral_value(shadow_eth);
    let lif = leg.lif_max();
    lemma_whole_exact(1);
    lemma_zero_significant();
    lemma_results_are_doubles(shadow_eth, leg.exchange_rate);
    lemma_results_are_doubles(leg.amount, leg.price(shadow_eth));
    let one = Value::one();
    lemma_results_are_doubles(one, leg.lltv);
    lemma_results_are_doubles(leg.cursor, one.minus(leg.lltv));
    lemma_results_are_doubles(one, leg.cursor.times(one.minus(leg.lltv)));
    lemma_results_are_doubles(one, one.minus(leg.cursor.times(one.minus(leg.lltv))));
    let terms = pos.legs.map_values(|l: LegModel| l.collateral_value(shadow_eth));
    assert(terms.drop_last() == Seq::<Value>::empty());
    assert(terms.last() == worth);
    reveal_with_fuel(sum, 2);
    lemma_from_zero(worth);
    assert(pos.total_collateral(shadow_eth) == worth);
    let shares = pos.legs.map_values(
        |l: LegModel| PositionModel::lif_share(l, shadow_eth, worth),
    );
    assert(shares.drop_last() == Seq::<Value>::empty());
    let share = PositionModel::lif_share(leg, shadow_eth, worth);
    assert(shares.last() == share);
    let u = one_in_quanta();
    match (worth, lif) {
        (Value::Fin { mag: w, .. }, Value::Fin { mag: l, .. }) => {
            assert(w * u == u * w) by (nonlinear_arith);
            lemma_round_keeps(u, w);
            assert(worth.over(worth) == one);
            assert(u * l == l * u) by (nonlinear_arith);
            lemma_round_keeps(l, u);
            assert(share == lif);
        },
        _ => {},
    }
    lemma_from_zero(lif);
}

/// The first term of a sum is kept.
proof fn lemma_from_zero(v: Value)
    requires
        positive(v),
        v.is_double(),
    ensures
        Value::neg_zero().plus(v) == v,
{
    match v {
        Value::Fin { mag, .. } => {
            lemma_round_keeps(mag, 1);
        },
        _ => {},
    }
}

/// By how much the steps that lead to a seizure can be off together.
proof fn lemma_off(c: int, a: int, b: int, v: int, w: int, x: int, z: int)
    requires
        c == 0x20_0000_0000_0000,
        -x <= (c - 1) * (a - w) <= x,
        -w <= c * (v - w) <= w,
        -z <= c * (v - z) <= z,
        -b <= c * (z - b) <= b,
        0 <= v <= x,
        0 <= w,
        0 <= z,
        0 <= b,
    ensures
        -x <= 0x4_0000_0000_0000 * (a - b) <= x,
{
}

/// Seizing the least seizure restores health, and nothing less does: the debt that it
/// leaves is what the collateral that it leaves lets the position carry. In exact numbers,
/// with `D` the remaining debt, `M` what the position may carry, `L` the blended LLTV and
/// `x` the seizure, `D - x` and `M - L * LIF * x` differ by less than one part in 2 to the
/// power 50 of the seizure. Left out are gaps below 2 to the power -1021, where a double
/// has no 53 bits.
pub proof fn law_seizure_restores_health(
    pos: PositionModel,
    shadow_eth: Value,
    bad_debt: Value,
    lif: Value,
)
    requires
        pos.remaining_debt(bad_debt) is Fin,
        pos.max_debt(shadow_eth) is Fin,
        nonneg(pos.max_debt(shadow_eth)),
        pos.remaining_debt(bad_debt).quanta() - pos.max_debt(shadow_eth).quanta()
            >= 0x20_0000_0000_0000,
        pos.max_debt(shadow_eth).over(pos.total_collateral(shadow_eth)) is Fin,
        nonneg(pos.max_debt(shadow_eth).over(pos.total_collateral(shadow_eth))),
        lif is Fin,
        nonneg(lif),
        Value::zero().lt(pos.relief(shadow_eth, lif)),
        pos.restoring_seizure(shadow_eth, bad_debt, lif).lt(pos.remaining_debt(bad_debt)),
    ensures
        ({
            let one = one_in_quanta() as int;
            let x = pos.seizure_params(shadow_eth, bad_debt, lif).0.quanta();
            let gap = pos.remaining_debt(bad_debt).quanta() - pos.max_debt(shadow_eth).quanta();
            let lltv = pos.max_debt(shadow_eth).over(pos.total_collateral(shadow_eth)).quanta();
            let off = x * (one * one - lltv * lif.quanta()) - gap * (one * one);
            &&& x > 0
            &&& -(x * (one * one)) <= 0x4_0000_0000_0000 * off <= x * (one * one)
        }),
{
    let c: int = 0x20_0000_0000_0000;
    let u = one_in_quanta();
    let d_rem = pos.remaining_debt(bad_debt);
    let md = pos.max_debt(shadow_eth);
    let blended = md.over(pos.total_collateral(shadow_eth));
    let delta = pos.restoring_seizure(shadow_eth, bad_debt, lif);
    let relief = pos.relief(shadow_eth, lif);
    lemma_whole_exact(1);
    lemma_zero_significant();
    lemma2_to64_rest();
    lemma_pow2_ordered(53, 1074);
    lemma_sum_is_double(pos.debt, bad_debt.negated());
    // the gap
    let g = (d_rem.quanta() - md.quanta()) as nat;
    let big = round_mag(g, 1);
    assert(md.negated().quanta() == -md.quanta());
    match d_rem {
        Value::Fin { mag, .. } => {
            lemma_round_le(g, 1, mag);
        },
        _ => {},
    }
    assert(d_rem.minus(md) == (Value::Fin { neg: false, mag: big }));
    lemma_significant(1, 53);
    assert(1 * pow2(53) == pow2(53));
    lemma_round_ge(g, 1, pow2(53));
    lemma_round_error(g, 1);
    // the product of the blended LLTV and the incentive
    let b = blended.quanta() as nat;
    let l = lif.quanta() as nat;
    let p = round_mag(b * l, u);
    lemma_round_error(b * l, u);
    lemma_times_quanta(blended, lif);
    let product = blended.times(lif);
    // the relief
    assert(product.negated().quanta() == -product.quanta());
    lemma_relief(product);
    let n = round_mag((u - p) as nat, 1);
    assert(relief == (Value::Fin { neg: false, mag: n }));
    lemma_round_error((u - p) as nat, 1);
    // the seizure
    lemma_round_error(big * u, n);
    assert(big * u >= n * 0x20_0000_0000_0000) by (nonlinear_arith)
        requires
            big >= 0x20_0000_0000_0000,
            u >= n,
    ;
    let x = round_mag(big * u, n);
    lemma_round_ge_one(big, u, n);
    assert(delta == (Value::Fin { neg: false, mag: x }));
    // all together
    let uu = (u * u) as int;
    let va = x * (uu - b * l);
    let vb = g * uu;
    let vv = (x * n) * u;
    let vw = (x * (u - p)) * u;
    let vx = x * uu;
    let vz = (big * u) * u;
    lemma_product_error(b * l, p, u);
    lemma_stages(
        c,
        x as int,
        b as int,
        l as int,
        p as int,
        u as int,
        n as int,
        big as int,
        g as int,
    );
    lemma_off(c, va, vb, vv as int, vw, vx, vz as int);
}

/// The error of the product, in parts of one.
proof fn lemma_product_error(n: nat, p: nat, u: nat)
    requires
        p < u,
        u >= 0x20_0000_0000_0000,
        n < u * 0x20_0000_0000_0000 ==> -(u as int) <= 2 * (p * u - n) <= u,
        n >= u * 0x20_0000_0000_0000 ==> -(n as int) <= 0x20_0000_0000_0000 * (p * u - n) <= n,
    ensures
        -(u * u) <= (0x20_0000_0000_0000 - 1) * (p * u - n) <= u * u,
{
    let pu = (p * u) as int;
    let uu = (u * u) as int;
    assert(pu <= uu) by (nonlinear_arith)
        requires
            pu == p * u,
            uu == u * u,
            p < u,
    ;
    assert(uu >= 0x20_0000_0000_0000 * u) by (nonlinear_arith)
        requires
            uu == u * u,
            u >= 0x20_0000_0000_0000,
    ;
}

/// A relief above zero is the rounded difference of one and a product below one.
pub(crate) proof fn lemma_relief(product: Value)
    requires
        !(product is Nan),
        product is Inf ==> !product->Inf_neg,
        product is Fin ==> product.quanta() >= 0,
        Value::zero().lt(Value::one().minus(product)),
    ensures
        product is Fin,
        product.quanta() < one_in_quanta(),
        Value::one().minus(product) == (Value::Fin {
            neg: false,
            mag: round_mag((one_in_quanta() - product.quanta()) as nat, 1),
        }),
        0 < round_mag((one_in_quanta() - product.quanta()) as nat, 1) <= one_in_quanta(),
{
    lemma_whole_exact(1);
    lemma_zero_significant();
    let u = one_in_quanta();
    if product is Fin {
        assert(product.negated().quanta() == -product.quanta());
        let s = u - product.quanta();
        lemma_sum_sign(s, true);
        lemma_sum_sign(s, false);
        lemma_round_le(s as nat, 1, u);
        lemma_round_ge(s as nat, 1, 1);
    }
}

/// A quotient by at most one is not below its numerator.
proof fn lemma_round_ge_one(big: nat, u: nat, n: nat)
    requires
        big >= 1,
        0 < n <= u,
    ensures
        round_mag(big * u, n) >= 1,
{
    lemma_zero_significant();
    assert(1 * n <= big * u) by (nonlinear_arith)
        requires
            big >= 1,
            n <= u,
    ;
    lemma_round_ge(big * u, n, 1);
}

/// The bounds of each stage, scaled to a common unit.
proof fn lemma_stages(
    c: int,
    x: int,
    b: int,
    l: int,
    p: int,
    u: int,
    n: int,
    big: int,
    g: int,
)
    requires
        c == 0x20_0000_0000_0000,
        x >= 0,
        0 <= p < u,
        0 < n <= u,
        0 <= g,
        0 <= big,
        -(u * u) <= (c - 1) * (p * u - b * l) <= u * u,
        u - p < 1 * c ==> -1 <= 2 * (n * 1 - (u - p)) <= 1,
        u - p >= 1 * c ==> -(u - p) <= c * (n * 1 - (u - p)) <= u - p,
        -(big * u) <= c * (x * n - big * u) <= big * u,
        -g <= c * (big - g) <= g,
    ensures
        ({
            let uu = u * u;
            let a = x * (uu - b * l);
            let w = (x * (u - p)) * u;
            let v = (x * n) * u;
            let z = (big * u) * u;
            &&& -(x * uu) <= (c - 1) * (a - w) <= x * uu
            &&& -w <= c * (v - w) <= w
            &&& -z <= c * (v - z) <= z
            &&& -(g * uu) <= c * (z - g * uu) <= g * uu
            &&& 0 <= v <= x * uu
            &&& 0 <= w
            &&& 0 <= z
            &&& 0 <= g * uu
        }),
{
    let uu = u * u;
    let a = x * (uu - b * l);
    let w = (x * (u - p)) * u;
    let v = (x * n) * u;
    let z = (big * u) * u;
    let e1 = p * u - b * l;
    assert(a - w == x * e1) by (nonlinear_arith)
        requires
            a == x * (uu - b * l),
            w == (x * (u - p)) * u,
            e1 == p * u - b * l,
            uu == u * u,
    ;
    assert(-(x * uu) <= (c - 1) * (x * e1) <= x * uu) by (nonlinear_arith)
        requires
            x >= 0,
            -uu <= (c - 1) * e1 <= uu,
    ;
    let e2 = n - (u - p);
    assert(-(u - p) <= c * e2 <= u - p);
    assert(v - w == (x * e2) * u) by (nonlinear_arith)
        requires
            v == (x * n) * u,
            w == (x * (u - p)) * u,
            e2 == n - (u - p),
    ;
    let xu = x * u;
    assert(xu >= 0) by (nonlinear_arith)
        requires
            x >= 0,
            u >= 0,
            xu == x * u,
    ;
    assert((x * e2) * u == xu * e2) by (nonlinear_arith)
        requires
            xu == x * u,
    ;
    assert(w == xu * (u - p)) by (nonlinear_arith)
        requires
            xu == x * u,
            w == (x * (u - p)) * u,
    ;
    assert(-(xu * (u - p)) <= c * (xu * e2) <= xu * (u - p)) by (nonlinear_arith)
        requires
            xu >= 0,
            -(u - p) <= c * e2 <= u - p,
    ;
    let e3 = x * n - big * u;
    assert(v - z == e3 * u) by (nonlinear_arith)
        requires
            v == (x * n) * u,
            z == (big * u) * u,
            e3 == x * n - big * u,
    ;
    assert(-z <= c * (e3 * u) <= z) by (nonlinear_arith)
        requires
            u >= 0,
            -(big * u) <= c * e3 <= big * u,
            z == (big * u) * u,
    ;
    let e4 = big - g;
    assert(z - g * uu == e4 * uu) by (nonlinear_arith)
        requires
            z == (big * u) * u,
            e4 == big - g,
            uu == u * u,
    ;
    assert(uu >= 0) by (nonlinear_arith)
        requires
            uu == u * u,
    ;
    assert(-(g * uu) <= c * (e4 * uu) <= g * uu) by (nonlinear_arith)
        requires
            uu >= 0,
            -g <= c * e4 <= g,
    ;
    assert(0 <= v <= x * uu) by (nonlinear_arith)
        requires
            v == (x * n) * u,
            uu == u * u,
            0 <= n <= u,
            x >= 0,
            u >= 0,
    ;
    assert(0 <= w) by (nonlinear_arith)
        requires
            w == xu * (u - p),
            xu >= 0,
            u - p >= 0,
    ;
    assert(0 <= z) by (nonlinear_arith)
        requires
            z == (big * u) * u,
            big >= 0,
            u >= 0,
    ;
    assert(0 <= g * uu) by (nonlinear_arith)
        requires
            g >= 0,
            uu >= 0,
    ;
}

/// Without collateral there is nothing to seize.
pub proof fn law_nothing_to_seize(
    pos: PositionModel,
    shadow_eth: Value,
    bad_debt: Value,
    lif: Value,
)
    requires
        pos.max_debt(shadow_eth) is Fin,
        pos.max_debt(shadow_eth).quanta() == 0,
        pos.total_collateral(shadow_eth) is Fin,
        pos.total_collateral(shadow_eth).quanta() == 0,
    ensures
        pos.seizure_params(shadow_eth, bad_debt, lif) == (Value::zero(), false),
{
    lemma_zero_significant();
}

} // verus!
