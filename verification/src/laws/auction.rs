//! The auction after maturity.

use vstd::arithmetic::power2::*;
use vstd::prelude::*;

use crate::binary64::double::lemma_whole_exact;
use crate::binary64::model::{one_in_quanta, overflow_bound, round_mag, significant, Value};
use crate::binary64::order::{
    lemma_minus_quanta, lemma_order, lemma_over_ordered, lemma_over_quanta, lemma_plus_quanta,
    lemma_round_ge, lemma_round_keeps, lemma_round_le, lemma_round_significant,
    lemma_rounded_sum_ordered, lemma_significant, lemma_times_ordered, lemma_times_quanta,
    lemma_zero_significant, positive,
};
use crate::binary64::rounding::lemma_round_ordered;
use crate::shadow::engine::{analysis, auction_lif, DUTCH_WINDOW_SECS};
use crate::types::PositionModel;

verus! {

/// An incentive that an auction reaches exactly: a double from one to 2 to the power 53.
pub open spec fn is_incentive(lif: Value) -> bool {
    &&& lif is Fin
    &&& lif.is_double()
    &&& one_in_quanta() <= lif.quanta() <= 0x20_0000_0000_0000 * one_in_quanta()
}

/// A position is in the auction exactly while it is overdue.
pub proof fn law_auction_only_when_overdue(
    pos: PositionModel,
    cex_eth: Value,
    oracle_eth: Value,
    now: u64,
    gas: Value,
)
    ensures
        ({
            let found = analysis(pos, cex_eth, oracle_eth, now, gas);
            &&& pos.is_overdue_at(now) <==> now > pos.maturity_ts
            &&& found.overdue <==> now > pos.maturity_ts
            &&& found.dutch_lif is Some <==> found.overdue
            &&& found.dutch_mev is Some <==> found.overdue
        }),
{
}

/// How far the auction has come: between zero and one, one from the end of the window on,
/// and never back.
proof fn lemma_progress(now: u64, later: u64, maturity_ts: u64)
    requires
        maturity_ts < now <= later,
    ensures
        ({
            let window = Value::whole(DUTCH_WINDOW_SECS as nat);
            let p = Value::whole((now - maturity_ts) as nat).over(window).min(Value::one());
            let q = Value::whole((later - maturity_ts) as nat).over(window).min(Value::one());
            &&& p is Fin
            &&& 0 <= p.quanta() <= one_in_quanta()
            &&& q is Fin
            &&& p.quanta() <= q.quanta() <= one_in_quanta()
            &&& now - maturity_ts >= 900 ==> p == Value::one()
        }),
{
    let u = one_in_quanta();
    let window = Value::whole(900);
    lemma_whole_exact(1);
    lemma_whole_exact(900);
    lemma_zero_significant();
    let a = (now - maturity_ts) as nat;
    let b = (later - maturity_ts) as nat;
    lemma_whole_ordered(a, b);
    lemma_whole_ordered(0, a);
    lemma_over_ordered(Value::whole(a), Value::whole(b), window);
    assert(positive(window)) by (nonlinear_arith)
        requires
            window == (Value::Fin { neg: false, mag: 900 * u }),
            u > 0,
    ;
    if a >= 900 {
        lemma_whole_ordered(900, a);
        lemma_over_ordered(window, Value::whole(a), window);
        let w = 900 * u;
        assert(w * u == u * w) by (nonlinear_arith);
        lemma_round_keeps(u, w);
        assert(window.over(window) == Value::one());
        match Value::whole(a) {
            Value::Fin { neg: na, mag: x } => {
                assert(!na);
            },
            _ => {},
        }
    }
    lemma_order(Value::whole(a).over(window), Value::whole(b).over(window), Value::one());
}

/// Whole numbers are rounded in order.
pub proof fn lemma_whole_ordered(a: nat, b: nat)
    requires
        a <= b <= 0x1_0000_0000_0000_0000,
    ensures
        Value::whole(a) is Fin,
        Value::whole(b) is Fin,
        0 <= Value::whole(a).quanta() <= Value::whole(b).quanta(),
        !Value::whole(a)->Fin_neg,
        !Value::whole(b)->Fin_neg,
{
    let u = one_in_quanta();
    lemma_zero_significant();
    lemma2_to64();
    lemma_pow2_adds(64, 1074);
    lemma_pow2_strictly_increases(64 + 1074, 2098);
    assert(1 * pow2(64 + 1074) == pow2(64 + 1074));
    lemma_significant(1, 64 + 1074);
    assert(b * u <= 0x1_0000_0000_0000_0000 * u) by (nonlinear_arith)
        requires
            b <= 0x1_0000_0000_0000_0000,
    ;
    assert(a * u <= b * u) by (nonlinear_arith)
        requires
            a <= b,
    ;
    lemma_round_le(b * u, 1, pow2(64 + 1074));
    lemma_round_ordered(a * u, 1, b * u, 1);
}

/// An incentive is one more than its bonus, exactly.
proof fn lemma_bonus(lif: Value)
    requires
        is_incentive(lif),
    ensures
        significant((lif.quanta() - one_in_quanta()) as nat),
        lif.minus(Value::one()) is Fin,
        lif.minus(Value::one()).quanta() == lif.quanta() - one_in_quanta(),
{
    let u = one_in_quanta();
    lemma_zero_significant();
    lemma_whole_exact(1);
    let x = lif.quanta() as nat;
    let (m, k) = choose|m: nat, k: nat|
        m < 0x20_0000_0000_0000 && x == #[trigger] (m * pow2(k));
    lemma_pow2_pos(k);
    if k <= 1074 {
        let f = (1074 - k) as nat;
        lemma_pow2_adds(f, k);
        lemma_pow2_pos(f);
        assert(m >= pow2(f)) by (nonlinear_arith)
            requires
                m * pow2(k) >= pow2(f) * pow2(k),
                pow2(k) > 0,
        ;
        let w = (m - pow2(f)) as nat;
        assert(w * pow2(k) == x - u) by (nonlinear_arith)
            requires
                w == m - pow2(f),
                x == m * pow2(k),
                u == pow2(f) * pow2(k),
        ;
        lemma_significant(w, k);
    } else {
        let f = (k - 1074) as nat;
        lemma_pow2_adds(f, 1074);
        let v = m * pow2(f);
        assert(x == v * u) by (nonlinear_arith)
            requires
                x == m * pow2(k),
                pow2(k) == pow2(f) * u,
                v == m * pow2(f),
        ;
        assert(1 <= v <= 0x20_0000_0000_0000) by (nonlinear_arith)
            requires
                u <= v * u <= 0x20_0000_0000_0000 * u,
                u > 0,
        ;
        let w = (v - 1) as nat;
        assert(w * u == x - u) by (nonlinear_arith)
            requires
                w == v - 1,
                x == v * u,
        ;
        lemma_significant(w, 1074);
    }
    let bonus = (x - u) as nat;
    lemma_round_keeps(bonus, 1);
    lemma_minus_quanta(lif, Value::one());
}

/// The incentive starts at one and never falls: a later look finds it no lower, and it
/// never passes the highest incentive.
pub proof fn law_auction_ramps_up(now: u64, later: u64, maturity_ts: u64, lif_max: Value)
    requires
        maturity_ts < now <= later,
        is_incentive(lif_max),
    ensures
        auction_lif(now, maturity_ts, lif_max) is Some,
        auction_lif(later, maturity_ts, lif_max) is Some,
        Value::one().le(auction_lif(now, maturity_ts, lif_max)->0),
        auction_lif(now, maturity_ts, lif_max)->0.le(auction_lif(later, maturity_ts, lif_max)->0),
        auction_lif(later, maturity_ts, lif_max)->0.le(lif_max),
{
    let u = one_in_quanta();
    lemma_zero_significant();
    lemma_whole_exact(1);
    lemma_bonus(lif_max);
    lemma_progress(now, later, maturity_ts);
    let window = Value::whole(DUTCH_WINDOW_SECS as nat);
    let p = Value::whole((now - maturity_ts) as nat).over(window).min(Value::one());
    let q = Value::whole((later - maturity_ts) as nat).over(window).min(Value::one());
    let bonus = lif_max.minus(Value::one());
    lemma_share(bonus, p);
    lemma_share(bonus, q);
    lemma_times_ordered(p, q, bonus);
    let x = bonus.times(p);
    let y = bonus.times(q);
    assert(x.quanta() <= y.quanta());
    // one plus a share of the bonus
    lemma_one_plus(lif_max, x);
    lemma_one_plus(lif_max, y);
    lemma_round_ordered((u + x.quanta()) as nat, 1, (u + y.quanta()) as nat, 1);
}

/// A share of a bonus is between zero and the bonus.
proof fn lemma_share(bonus: Value, p: Value)
    requires
        bonus is Fin,
        bonus.quanta() >= 0,
        significant(bonus.quanta() as nat),
        bonus.quanta() < overflow_bound(),
        p is Fin,
        0 <= p.quanta() <= one_in_quanta(),
    ensures
        bonus.times(p) is Fin,
        0 <= bonus.times(p).quanta() <= bonus.quanta(),
        p.quanta() == one_in_quanta() ==> bonus.times(p).quanta() == bonus.quanta(),
{
    let u = one_in_quanta();
    let b = bonus.quanta() as nat;
    let w = p.quanta() as nat;
    lemma_zero_significant();
    assert(b * w <= b * u) by (nonlinear_arith)
        requires
            w <= u,
    ;
    lemma_round_le(b * w, u, b);
    lemma_times_quanta(bonus, p);
    if w == u {
        lemma_round_keeps(b, u);
    }
}

/// One and a share of the bonus.
proof fn lemma_one_plus(lif: Value, share: Value)
    requires
        is_incentive(lif),
        share is Fin,
        0 <= share.quanta() <= lif.quanta() - one_in_quanta(),
    ensures
        Value::one().plus(share) is Fin,
        Value::one().plus(share).quanta() == round_mag(
            (one_in_quanta() + share.quanta()) as nat,
            1,
        ),
        one_in_quanta() <= Value::one().plus(share).quanta() <= lif.quanta(),
        share.quanta() == lif.quanta() - one_in_quanta() ==> Value::one().plus(share).quanta()
            == lif.quanta(),
{
    let u = one_in_quanta();
    lemma_zero_significant();
    lemma_whole_exact(1);
    let s = (u + share.quanta()) as nat;
    lemma_round_le(s, 1, lif.quanta() as nat);
    lemma_round_ge(s, 1, u);
    lemma_plus_quanta(Value::one(), share);
    lemma_round_keeps(lif.quanta() as nat, 1);
}

/// From the end of the window on, the incentive is the highest one, exactly.
pub proof fn law_auction_reaches_the_top(now: u64, maturity_ts: u64, lif_max: Value)
    requires
        now >= maturity_ts + DUTCH_WINDOW_SECS,
        is_incentive(lif_max),
    ensures
        auction_lif(now, maturity_ts, lif_max) == Some(lif_max),
{
    lemma_zero_significant();
    lemma_whole_exact(1);
    lemma_bonus(lif_max);
    lemma_progress(now, now, maturity_ts);
    let bonus = lif_max.minus(Value::one());
    lemma_share(bonus, Value::one());
    lemma_one_plus(lif_max, bonus.times(Value::one()));
}

/// Whatever the highest incentive, from one on and infinity included: the incentive is never
/// below one, never falls, and never passes one plus the bonus, which it is from the end of the
/// window on.
pub proof fn law_auction_ramps_to_any_incentive(
    now: u64,
    later: u64,
    maturity_ts: u64,
    lif_max: Value,
)
    requires
        maturity_ts < now <= later,
        Value::one().le(lif_max),
        lif_max.is_double(),
    ensures
        auction_lif(now, maturity_ts, lif_max) is Some,
        auction_lif(later, maturity_ts, lif_max) is Some,
        Value::one().le(auction_lif(now, maturity_ts, lif_max)->0),
        auction_lif(now, maturity_ts, lif_max)->0.le(auction_lif(later, maturity_ts, lif_max)->0),
        auction_lif(later, maturity_ts, lif_max)->0.le(
            Value::one().plus(lif_max.minus(Value::one())),
        ),
        now - maturity_ts >= DUTCH_WINDOW_SECS ==> auction_lif(now, maturity_ts, lif_max) == Some(
            Value::one().plus(lif_max.minus(Value::one())),
        ),
{
    let u = one_in_quanta();
    let one = Value::one();
    let bonus = lif_max.minus(one);
    let window = Value::whole(DUTCH_WINDOW_SECS as nat);
    let p = Value::whole((now - maturity_ts) as nat).over(window).min(one);
    let q = Value::whole((later - maturity_ts) as nat).over(window).min(one);
    lemma_zero_significant();
    lemma_whole_exact(1);
    lemma_progress(now, later, maturity_ts);
    if lif_max is Fin {
        lemma_any_bonus(lif_max);
        lemma_share(bonus, p);
        lemma_share(bonus, q);
        lemma_times_ordered(p, q, bonus);
        let x = bonus.times(p);
        let y = bonus.times(q);
        lemma_one_plus_ordered(Value::zero(), x);
        lemma_one_plus_ordered(x, y);
        lemma_one_plus_ordered(y, bonus);
        lemma_round_keeps(u, 1);
        if now - maturity_ts >= 900 {
            match bonus {
                Value::Fin { mag, .. } => {
                    lemma_round_keeps(mag, u);
                },
                _ => {},
            }
            assert(x == bonus);
        }
    } else {
        lemma_progress_starts((now - maturity_ts) as nat);
        lemma_progress_starts((later - maturity_ts) as nat);
    }
}

/// One and what is not below zero, in order.
proof fn lemma_one_plus_ordered(x: Value, y: Value)
    requires
        x is Fin,
        y is Fin,
        0 <= x.quanta() <= y.quanta(),
    ensures
        Value::one().plus(x).le(Value::one().plus(y)),
{
    lemma_whole_exact(1);
    lemma_rounded_sum_ordered(
        one_in_quanta() + x.quanta(),
        one_in_quanta() + y.quanta(),
        false,
        false,
    );
}

/// The bonus of any finite incentive.
pub(crate) proof fn lemma_any_bonus(lif: Value)
    requires
        lif is Fin,
        lif.is_double(),
        Value::one().le(lif),
    ensures
        lif.minus(Value::one()) is Fin,
        0 <= lif.minus(Value::one()).quanta() < overflow_bound(),
        significant(lif.minus(Value::one()).quanta() as nat),
{
    let s = (lif.quanta() - one_in_quanta()) as nat;
    lemma_zero_significant();
    lemma_whole_exact(1);
    lemma_round_le(s, 1, lif.quanta() as nat);
    lemma_round_significant(s, 1);
    lemma_minus_quanta(lif, Value::one());
}

/// A second into the auction it has come some of the way.
proof fn lemma_progress_starts(a: nat)
    requires
        1 <= a <= 0x1_0000_0000_0000_0000,
    ensures
        positive(
            Value::whole(a).over(Value::whole(DUTCH_WINDOW_SECS as nat)).min(Value::one()),
        ),
{
    let u = one_in_quanta();
    let window = Value::whole(900);
    lemma_zero_significant();
    lemma_whole_exact(1);
    lemma_whole_exact(900);
    lemma_whole_ordered(1, a);
    lemma2_to64();
    lemma_pow2_adds(10, 1064);
    lemma_pow2_pos(1064);
    let lo = pow2(1064);
    assert(1 * lo == lo);
    lemma_significant(1, 1064);
    let x = Value::whole(a).quanta() as nat;
    assert(lo * (900 * u) <= x * u) by (nonlinear_arith)
        requires
            x >= u,
            u == 1024 * lo,
    ;
    lemma_round_ge(x * u, 900 * u, lo);
    lemma_over_quanta(Value::whole(a), window);
}

} // verus!
