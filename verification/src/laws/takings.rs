//! What an analysis puts together, and what liquidators take, in exact numbers.

use vstd::arithmetic::power2::{lemma2_to64, lemma_pow2_adds};
use vstd::prelude::*;

use crate::binary64::double::lemma_whole_exact;
use crate::binary64::model::{one_in_quanta, overflow_bound, round_mag, Value};
use crate::binary64::order::{
    lemma_over_error, lemma_plus_error, lemma_product_error, lemma_round_error, lemma_round_le,
    lemma_sum_is_double, lemma_total_is_double, lemma_zero_significant, size,
};
use crate::binary64::rounding::lemma_pow2_ordered;
use crate::laws::auction::lemma_any_bonus;
use crate::laws::seizure::lemma_blended_lif_is_double;
use crate::laws::worth::is_amount;
use crate::shadow::engine::{analysis, auction_lif, takings, DUTCH_WINDOW_SECS};
use crate::types::{LegModel, PositionModel};

verus! {

/// `m` is what a seizure `s` at an incentive `l` leaves after gas `g`, all in quanta:
/// `s * (l - 1) - g`, up to a few roundings.
pub open spec fn is_taken(m: int, s: int, l: int, g: int) -> bool {
    let c = 0x20_0000_0000_0000int;
    let u = one_in_quanta() as int;
    let bonus = s * (l - u);
    let slack = 8 * bonus + size(g) * u + c * u;
    -slack <= c * (u * m - (bonus - g * u)) <= slack
}

/// `s` is what can be repaid of `x` with collateral `t` at an incentive `l`, all in quanta: `x`
/// or `t / l`, whichever is less, up to a rounding.
pub open spec fn is_covered(s: int, x: int, t: int, l: int) -> bool {
    let c = 0x20_0000_0000_0000int;
    let k = t * one_in_quanta();
    &&& 0 <= s <= x
    &&& (2 * c) * (s * l) <= (2 * c + 2) * k + c * l
    &&& s == x || (2 * c) * (s * l) >= (2 * c - 2) * k - c * l
}

/// The stages of the takings, together.
proof fn lemma_taken(c: int, u: int, s: int, l: int, b: int, p: int, g: int, m: int)
    requires
        c == 0x20_0000_0000_0000,
        u == one_in_quanta(),
        s >= 0,
        l >= u,
        0 <= b,
        0 <= p,
        -(l - u) <= c * (b - (l - u)) <= l - u,
        -(2 * (s * b) + c * u) <= (2 * c) * (u * p - s * b) <= 2 * (s * b) + c * u,
        -size(p - g) <= c * (m - (p - g)) <= size(p - g),
    ensures
        is_taken(m, s, l, g),
{
    lemma_zero_significant();
    let bonus = s * (l - u);
    let sb = s * b;
    let up = u * p;
    let gu = g * u;
    let a1 = c * (b - (l - u));
    assert(-bonus <= s * a1 <= bonus && bonus >= 0) by (nonlinear_arith)
        requires
            -(l - u) <= a1 <= l - u,
            bonus == s * (l - u),
            s >= 0,
            l >= u,
    ;
    assert(s * a1 == c * (sb - bonus)) by (nonlinear_arith)
        requires
            a1 == c * (b - (l - u)),
            sb == s * b,
            bonus == s * (l - u),
    ;
    let a3 = c * (m - (p - g));
    let z = size(p - g);
    let zu = z * u;
    assert(-zu <= a3 * u <= zu) by (nonlinear_arith)
        requires
            -z <= a3 <= z,
            zu == z * u,
            u > 0,
    ;
    let um = u * m;
    assert(a3 * u == c * (um - (up - gu))) by (nonlinear_arith)
        requires
            a3 == c * (m - (p - g)),
            um == u * m,
            up == u * p,
            gu == g * u,
    ;
    let sg = size(g) * u;
    assert(zu <= up + sg && up >= 0 && sg >= 0) by (nonlinear_arith)
        requires
            zu == z * u,
            z <= p + size(g),
            up == u * p,
            sg == size(g) * u,
            size(g) >= 0,
            p >= 0,
            u > 0,
    ;
}

/// Takings are `seizure * (LIF - 1) - gas`, up to a few roundings.
proof fn lemma_takings(seizure: Value, lif: Value, gas: Value)
    requires
        is_amount(seizure),
        lif is Fin,
        lif.is_double(),
        one_in_quanta() <= lif.quanta(),
        gas is Fin,
        4 * (seizure.quanta() * (lif.quanta() - one_in_quanta())) < overflow_bound()
            * one_in_quanta(),
        4 * size(gas.quanta()) < overflow_bound(),
    ensures
        takings(seizure, lif, gas) is Fin,
        is_taken(
            takings(seizure, lif, gas).quanta(),
            seizure.quanta(),
            lif.quanta(),
            gas.quanta(),
        ),
{
    let c: int = 0x20_0000_0000_0000;
    let u = one_in_quanta() as int;
    let big = overflow_bound() as int;
    let s = seizure.quanta();
    let l = lif.quanta();
    let g = gas.quanta();
    let one = Value::one();
    lemma_zero_significant();
    lemma_whole_exact(1);
    lemma2_to64();
    lemma_pow2_adds(10, 2088);
    lemma_pow2_ordered(10, 2088);
    lemma_any_bonus(lif);
    assert(one.negated().quanta() == -u);
    lemma_plus_error(lif, one.negated());
    let bonus = lif.minus(one);
    let b = bonus.quanta();
    lemma_product_error(seizure, bonus);
    let p = round_mag(s as nat * b as nat, u as nat) as int;
    assert(s as nat * b as nat == s * b);
    let sb = s * b;
    let sl = s * (l - u);
    let a1 = c * (b - (l - u));
    assert(s * a1 <= sl && sl >= 0) by (nonlinear_arith)
        requires
            a1 <= l - u,
            sl == s * (l - u),
            s >= 0,
            l >= u,
    ;
    assert(s * a1 == c * (sb - sl)) by (nonlinear_arith)
        requires
            a1 == c * (b - (l - u)),
            sb == s * b,
            sl == s * (l - u),
    ;
    let up = u * p;
    let bu = big * u;
    assert(bu >= 1000 * u) by (nonlinear_arith)
        requires
            bu == big * u,
            big >= 1000,
            u > 0,
    ;
    assert(2 * up < bu);
    assert(2 * p < big) by (nonlinear_arith)
        requires
            2 * up < bu,
            up == u * p,
            bu == big * u,
            u > 0,
    ;
    let product = seizure.times(bonus);
    assert(product is Fin && product.quanta() == p);
    assert(gas.negated().quanta() == -g);
    lemma_round_error(size(p - g) as nat, 1);
    assert(product.minus(gas) is Fin);
    lemma_plus_error(product, gas.negated());
    lemma_taken(c, u, s, l, b, p, g, product.minus(gas).quanta());
}

/// What can be repaid with the collateral.
proof fn lemma_cover(x: Value, total: Value, lif: Value)
    requires
        is_amount(x),
        is_amount(total),
        total.is_double(),
        lif is Fin,
        one_in_quanta() <= lif.quanta(),
    ensures
        x.min(total.over(lif)) is Fin,
        is_covered(x.min(total.over(lif)).quanta(), x.quanta(), total.quanta(), lif.quanta()),
{
    let c: int = 0x20_0000_0000_0000;
    let u = one_in_quanta() as int;
    let t = total.quanta();
    let l = lif.quanta();
    lemma_zero_significant();
    lemma_over_error(total, lif);
    let r = round_mag(t as nat * u as nat, l as nat) as int;
    assert(t as nat * u as nat <= t as nat * l as nat) by (nonlinear_arith)
        requires
            0 < u <= l,
            t >= 0,
    ;
    lemma_round_le(t as nat * u as nat, l as nat, t as nat);
    let k = t * u;
    let rl = r * l;
    let s = x.min(total.over(lif)).quanta();
    assert((2 * c + 2) * k == (2 * c) * k + 2 * k && (2 * c - 2) * k == (2 * c) * k - 2 * k)
        by (nonlinear_arith);
    assert((2 * c) * (rl - k) == (2 * c) * rl - (2 * c) * k) by (nonlinear_arith);
    assert((2 * c) * rl <= (2 * c + 2) * k + c * l);
    assert((2 * c) * rl >= (2 * c - 2) * k - c * l);
    if s < r {
        assert((2 * c) * (s * l) <= (2 * c) * rl) by (nonlinear_arith)
            requires
                s < r,
                rl == r * l,
                l > 0,
                c > 0,
        ;
    }
}

/// An analysis holds what the other functions give of the same position, at the same prices
/// and time: the health at either price, the worst lag, the bad debt, the incentive, the
/// seizure, the tier and the auction.
pub proof fn law_analysis_agrees(
    pos: PositionModel,
    cex_eth: Value,
    oracle_eth: Value,
    now: u64,
    gas: Value,
)
    ensures
        ({
            let found = analysis(pos, cex_eth, oracle_eth, now, gas);
            &&& found.market_id == pos.market_id
            &&& found.oracle_ltv == pos.health_ltv(oracle_eth)
            &&& found.shadow_ltv == pos.health_ltv(cex_eth)
            &&& found.worst_lag_pct == pos.worst_lag_pct(oracle_eth, cex_eth)
            &&& found.latent_bad_debt == pos.bad_debt(cex_eth)
            &&& found.blended_lif == pos.blended_lif(cex_eth)
            &&& (found.min_seizure, found.full_liq_required) == pos.seizure_params(
                cex_eth,
                found.latent_bad_debt,
                found.blended_lif,
            )
            &&& found.cliff_imminent <==> Value::ratio(5, 1000).lt(found.worst_lag_pct)
                && Value::one().lt(found.shadow_ltv)
            &&& found.overdue <==> now > pos.maturity_ts
            &&& found.dutch_lif == auction_lif(now, pos.maturity_ts, found.blended_lif)
            &&& found.lltv_tier == pos.max_lltv_tier()
        }),
{
}

/// The first liquidator takes `seizure * (LIF - 1) - gas`, up to rounding: of the least seizure,
/// or, in a full liquidation, of as much of it as the collateral covers at the incentive.
pub proof fn law_first_touch_in_exact_numbers(
    pos: PositionModel,
    cex_eth: Value,
    oracle_eth: Value,
    now: u64,
    gas: Value,
)
    requires
        ({
            let found = analysis(pos, cex_eth, oracle_eth, now, gas);
            let u = one_in_quanta() as int;
            &&& is_amount(found.min_seizure)
            &&& is_amount(pos.total_collateral(cex_eth))
            &&& found.blended_lif is Fin
            &&& u <= found.blended_lif.quanta()
            &&& 4 * (found.min_seizure.quanta() * (found.blended_lif.quanta() - u))
                < overflow_bound() * u
        }),
        gas is Fin,
        4 * size(gas.quanta()) < overflow_bound(),
    ensures
        ({
            let found = analysis(pos, cex_eth, oracle_eth, now, gas);
            let x = found.min_seizure.quanta();
            let l = found.blended_lif.quanta();
            let t = pos.total_collateral(cex_eth).quanta();
            &&& found.first_touch_mev is Fin
            &&& !found.full_liq_required ==> is_taken(
                found.first_touch_mev.quanta(),
                x,
                l,
                gas.quanta(),
            )
            &&& found.full_liq_required ==> exists|s: int|
                is_covered(s, x, t, l) && is_taken(
                    found.first_touch_mev.quanta(),
                    s,
                    l,
                    gas.quanta(),
                )
        }),
{
    let found = analysis(pos, cex_eth, oracle_eth, now, gas);
    let u = one_in_quanta() as int;
    let lif = found.blended_lif;
    let total = pos.total_collateral(cex_eth);
    lemma_zero_significant();
    lemma_blended_lif_is_double(pos, cex_eth);
    lemma_total_is_double(pos.legs.map_values(|l: LegModel| l.collateral_value(cex_eth)));
    if found.full_liq_required {
        let seized = found.min_seizure.min(total.over(lif));
        lemma_cover(found.min_seizure, total, lif);
        let (s, x) = (seized.quanta(), found.min_seizure.quanta());
        assert(s * (lif.quanta() - u) <= x * (lif.quanta() - u)) by (nonlinear_arith)
            requires
                s <= x,
                lif.quanta() >= u,
        ;
        lemma_takings(seized, lif, gas);
        assert(is_covered(s, x, total.quanta(), lif.quanta()));
    } else {
        lemma_takings(found.min_seizure, lif, gas);
    }
}

/// In the auction a liquidator takes `repaid * (LIF - 1) - gas` of what is left of the debt, as
/// far as the collateral covers it, up to rounding; and nothing where that is below zero, where
/// the incentive is still one, or where there is no collateral.
pub proof fn law_auction_takings_in_exact_numbers(
    pos: PositionModel,
    cex_eth: Value,
    oracle_eth: Value,
    now: u64,
    gas: Value,
)
    requires
        now > pos.maturity_ts,
        ({
            let found = analysis(pos, cex_eth, oracle_eth, now, gas);
            let u = one_in_quanta() as int;
            let remaining = pos.debt.minus(found.latent_bad_debt);
            &&& is_amount(remaining)
            &&& is_amount(pos.total_collateral(cex_eth))
            &&& found.dutch_lif is Some
            &&& found.dutch_lif->0 is Fin
            &&& u <= found.dutch_lif->0.quanta()
            &&& 4 * (remaining.quanta() * (found.dutch_lif->0.quanta() - u)) < overflow_bound() * u
        }),
        gas is Fin,
        4 * size(gas.quanta()) < overflow_bound(),
    ensures
        ({
            let found = analysis(pos, cex_eth, oracle_eth, now, gas);
            let d = pos.debt.minus(found.latent_bad_debt).quanta();
            let l = found.dutch_lif->0.quanta();
            let t = pos.total_collateral(cex_eth).quanta();
            &&& found.dutch_mev is Some
            &&& is_amount(found.dutch_mev->0)
            &&& l == one_in_quanta() || t == 0 ==> found.dutch_mev->0.quanta() == 0
            &&& l > one_in_quanta() && t > 0 ==> exists|s: int, m: int|
                {
                    &&& is_covered(s, d, t, l)
                    &&& #[trigger] is_taken(m, s, l, gas.quanta())
                    &&& found.dutch_mev->0.quanta() == if m > 0 {
                        m
                    } else {
                        0
                    }
                }
        }),
{
    let found = analysis(pos, cex_eth, oracle_eth, now, gas);
    let u = one_in_quanta() as int;
    let lif = found.dutch_lif->0;
    let total = pos.total_collateral(cex_eth);
    let remaining = pos.debt.minus(found.latent_bad_debt);
    lemma_zero_significant();
    lemma_whole_exact(1);
    lemma_total_is_double(pos.legs.map_values(|l: LegModel| l.collateral_value(cex_eth)));
    let bonus = pos.blended_lif(cex_eth).minus(Value::one());
    let progress = Value::whole((now - pos.maturity_ts) as nat).over(
        Value::whole(DUTCH_WINDOW_SECS as nat),
    ).min(Value::one());
    lemma_sum_is_double(Value::one(), bonus.times(progress));
    if lif.quanta() > u && total.quanta() > 0 {
        let seized = remaining.min(total.over(lif));
        lemma_cover(remaining, total, lif);
        let (s, x) = (seized.quanta(), remaining.quanta());
        assert(s * (lif.quanta() - u) <= x * (lif.quanta() - u)) by (nonlinear_arith)
            requires
                s <= x,
                lif.quanta() >= u,
        ;
        lemma_takings(seized, lif, gas);
        let m = takings(seized, lif, gas).quanta();
        assert(is_taken(m, s, lif.quanta(), gas.quanta()));
        assert(is_covered(s, x, total.quanta(), lif.quanta()));
    }
}

} // verus!
