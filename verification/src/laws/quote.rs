//! The quotes.

use vstd::arithmetic::power2::*;
use vstd::prelude::*;

use crate::binary64::double::lemma_whole_exact;
use crate::binary64::model::{one_in_quanta, round_mag, significant, Value};
use crate::binary64::order::{
    lemma_minus_quanta, lemma_over_quanta, lemma_plus_error, lemma_plus_quanta,
    lemma_results_are_doubles, lemma_round_error, lemma_round_ge, lemma_round_le, lemma_significant,
    lemma_sum_is_double, lemma_times_error, lemma_times_quanta, lemma_zero_significant, positive,
};
use crate::binary64::rounding::lemma_pow2_ordered;
use crate::feeds::cex::{book_quote_at, crash_quote_at};
use crate::types::CexModel;

verus! {

/// The middle of a quote lies between its two sides.
pub proof fn law_mid_between_sides(bid: Value, ask: Value, ts: u128)
    requires
        positive(bid),
        bid.is_double(),
        positive(ask),
        ask.is_double(),
        bid.le(ask),
        bid.plus(ask) is Fin,
    ensures
        book_quote_at(bid, ask, ts) is Some,
        bid.le(book_quote_at(bid, ask, ts)->0.mid),
        book_quote_at(bid, ask, ts)->0.mid.le(ask),
{
    let u = one_in_quanta();
    let x = bid.quanta() as nat;
    let y = ask.quanta() as nat;
    lemma_zero_significant();
    lemma_whole_exact(2);
    let s = x + y;
    lemma_twice(x);
    lemma_twice(y);
    lemma_round_ge(s, 1, 2 * x);
    lemma_round_le(s, 1, 2 * y);
    let r = round_mag(s, 1);
    assert(bid.plus(ask).quanta() == r);
    let n = r * u;
    let d = 2 * u;
    assert(x * d <= n) by (nonlinear_arith)
        requires
            2 * x <= r,
            n == r * u,
            d == 2 * u,
    ;
    assert(n <= y * d) by (nonlinear_arith)
        requires
            r <= 2 * y,
            n == r * u,
            d == 2 * u,
    ;
    lemma_round_ge(n, d, x);
    lemma_round_le(n, d, y);
    lemma_over_quanta(bid.plus(ask), Value::whole(2));
}

/// Twice a magnitude of 53 bits has 53 bits.
proof fn lemma_twice(x: nat)
    requires
        significant(x),
    ensures
        significant(2 * x),
{
    let (m, k) = choose|m: nat, k: nat|
        m < 0x20_0000_0000_0000 && x == #[trigger] (m * pow2(k));
    lemma_pow2_unfold(k + 1);
    assert(2 * x == m * pow2(k + 1)) by (nonlinear_arith)
        requires
            x == m * pow2(k),
            pow2(k + 1) == 2 * pow2(k),
    ;
    lemma_significant(m, k + 1);
}

/// The quote around a price of the crash has the price between its two sides.
pub proof fn law_crash_quote_is_a_quote(price: Value, ts: u128)
    requires
        price is Fin,
        price.is_double(),
        price.quanta() >= 0,
    ensures
        crash_quote_at(price, ts).bid.le(price),
        price.le(crash_quote_at(price, ts).ask),
        crash_quote_at(price, ts).mid == price,
{
    let u = one_in_quanta();
    let x = price.quanta() as nat;
    lemma_zero_significant();
    lemma_whole_exact(1);
    lemma2_to64();
    let half = Value::ratio(8, 100_000);
    let h = round_mag(8 * u, 100_000);
    lemma_round_le(8 * u, 100_000, u);
    assert(half == (Value::Fin { neg: false, mag: h }));
    // the bid's factor is at most one, the ask's at least one
    let low = Value::one().minus(half);
    let high = Value::one().plus(half);
    lemma_round_le((u - h) as nat, 1, u);
    lemma_minus_quanta(Value::one(), half);
    lemma_round_ge(u + h, 1, u);
    lemma_pow2_adds(1, 1074);
    lemma_pow2_strictly_increases(1075, 2098);
    assert(1 * pow2(1075) == pow2(1075));
    lemma_significant(1, 1075);
    lemma_round_le(u + h, 1, 2 * u);
    lemma_plus_quanta(Value::one(), half);
    let a = low.quanta() as nat;
    let b = high.quanta() as nat;
    assert(x * a <= x * u) by (nonlinear_arith)
        requires
            a <= u,
    ;
    assert(x * u <= x * b) by (nonlinear_arith)
        requires
            u <= b,
    ;
    lemma_round_le(x * a, u, x);
    lemma_round_ge(x * b, u, x);
    lemma_times_quanta(price, low);
    lemma_times_quanta(price, high);
}

/// Half the spread of a crash quote is near 0.8 basis points.
proof fn lemma_half_spread()
    ensures
        ({
            let u = one_in_quanta();
            let half = Value::ratio(8, 100_000);
            &&& half is Fin
            &&& 7 * u <= 100_000 * half.quanta() <= 9 * u
            &&& -(8 * u) <= 0x20_0000_0000_0000 * (100_000 * half.quanta() - 8 * u) <= 8 * u
        }),
{
    let u = one_in_quanta();
    lemma_zero_significant();
    lemma2_to64_rest();
    lemma_pow2_ordered(64, 1074);
    lemma2_to64();
    lemma_pow2_adds(20, 1054);
    lemma_pow2_ordered(54, 1054);
    lemma_round_le(8 * u, 100_000, u);
    lemma_round_error(8 * u, 100_000);
}

/// One side of a crash quote: the price times a factor near one.
proof fn lemma_side(price: Value, factor: Value, exact: int)
    requires
        price is Fin,
        price.quanta() >= 0x10_0000_0000_0000,
        factor is Fin,
        0 <= factor.quanta() <= 2 * one_in_quanta(),
        0 <= exact <= 2 * one_in_quanta(),
        -(2 * one_in_quanta()) <= 0x20_0000_0000_0000 * (factor.quanta() - exact) <= 2
            * one_in_quanta(),
        price.times(factor) is Fin,
    ensures
        ({
            let xu = price.quanta() * one_in_quanta();
            let side = price.times(factor).quanta();
            -(5 * xu) <= 0x20_0000_0000_0000 * (one_in_quanta() * side - price.quanta() * exact)
                <= 5 * xu
        }),
{
    let c: int = 0x20_0000_0000_0000;
    let u = one_in_quanta() as int;
    let x = price.quanta();
    let f = factor.quanta();
    lemma_zero_significant();
    lemma_times_error(price, factor);
    let xf = x * f;
    let xu = x * u;
    assert(0 <= xf <= 2 * xu) by (nonlinear_arith)
        requires
            xf == x * f,
            xu == x * u,
            0 <= f <= 2 * u,
            x >= 0,
    ;
    let d = c * (f - exact);
    assert(-(2 * xu) <= x * d <= 2 * xu) by (nonlinear_arith)
        requires
            -(2 * u) <= d <= 2 * u,
            xu == x * u,
            x >= 0,
    ;
    assert(x * d == c * (xf - x * exact)) by (nonlinear_arith)
        requires
            d == c * (f - exact),
            xf == x * f,
    ;
    assert(c * u <= 2 * xu) by (nonlinear_arith)
        requires
            c == 0x20_0000_0000_0000,
            x >= 0x10_0000_0000_0000,
            xu == x * u,
            u > 0,
    ;
}

/// How far a side of a crash quote is from the price.
proof fn lemma_off(c: int, u: int, x: int, xh: int, off: int)
    requires
        c == 0x20_0000_0000_0000,
        u > 0,
        -(8 * (x * u)) <= c * (100_000 * xh - 8 * (x * u)) <= 8 * (x * u),
        -(5 * (x * u)) <= c * (u * off - xh) <= 5 * (x * u),
    ensures
        -(0x8_0000 * x) <= c * (100_000 * off - 8 * x) <= 0x8_0000 * x,
{
    let xu = x * u;
    let uo = u * off;
    let k = c * (100_000 * off - 8 * x);
    assert(k * u == c * (100_000 * uo - 8 * xu)) by (nonlinear_arith)
        requires
            k == c * (100_000 * off - 8 * x),
            uo == u * off,
            xu == x * u,
    ;
    let b = 0x8_0000 * x;
    assert(b * u == 0x8_0000 * xu) by (nonlinear_arith)
        requires
            b == 0x8_0000 * x,
            xu == x * u,
    ;
    assert(-b <= k <= b) by (nonlinear_arith)
        requires
            -(b * u) <= k * u <= b * u,
            u > 0,
    ;
}

/// Each side of a crash quote differs from the price, unless the price is so small that a
/// double has fewer than 53 bits for it: each is 0.8 basis points away, and the spread is 1.6
/// basis points, up to rounding.
pub proof fn law_crash_quote_spread(price: Value, ts: u128)
    requires
        price is Fin,
        price.is_double(),
        price.quanta() >= 0x10_0000_0000_0000,
    ensures
        crash_quote_at(price, ts).bid.lt(price),
        price.lt(crash_quote_at(price, ts).ask),
        ({
            let x = price.quanta();
            let off = 100_000 * (x - crash_quote_at(price, ts).bid.quanta()) - 8 * x;
            &&& crash_quote_at(price, ts).bid is Fin
            &&& -(0x8_0000 * x) <= 0x20_0000_0000_0000 * off <= 0x8_0000 * x
        }),
        crash_quote_at(price, ts).ask is Fin ==> {
            let x = price.quanta();
            let off = 100_000 * (crash_quote_at(price, ts).ask.quanta() - x) - 8 * x;
            -(0x8_0000 * x) <= 0x20_0000_0000_0000 * off <= 0x8_0000 * x
        },
        crash_quote_at(price, ts).ts == ts,
        crash_quote_at(price, ts).ask is Fin ==> {
            let spread = crash_quote_at(price, ts).spread_bps();
            let off = 10 * spread.quanta() - 16 * one_in_quanta();
            &&& spread is Fin
            &&& -(one_in_quanta() as int) <= 100_000_000 * off <= one_in_quanta()
        },
{
    let c: int = 0x20_0000_0000_0000;
    let u = one_in_quanta();
    let x = price.quanta();
    let one = Value::one();
    let half = Value::ratio(8, 100_000);
    let h = half.quanta();
    let low = one.minus(half);
    let high = one.plus(half);
    let bid = price.times(low);
    let ask = price.times(high);
    lemma_zero_significant();
    lemma_whole_exact(1);
    lemma_half_spread();
    law_crash_quote_is_a_quote(price, ts);
    // the two factors
    assert(half.negated().quanta() == -h);
    lemma2_to64();
    lemma_pow2_adds(1, 1074);
    lemma_pow2_strictly_increases(1075, 2098);
    assert(1 * pow2(1075) == pow2(1075));
    lemma_significant(1, 1075);
    lemma_round_le((u - h) as nat, 1, u);
    lemma_round_le((u + h) as nat, 1, 2 * u);
    lemma_minus_quanta(one, half);
    lemma_plus_quanta(one, half);
    lemma_plus_error(one, half.negated());
    lemma_plus_error(one, half);
    let xu = x * u;
    let xh = x * h;
    assert(x * (u - h) == xu - xh && x * (u + h) == xu + xh) by (nonlinear_arith)
        requires
            xu == x * u,
            xh == x * h,
    ;
    assert(7 * xu <= 100_000 * xh && 100_000 * xh <= 9 * xu) by (nonlinear_arith)
        requires
            xu == x * u,
            xh == x * h,
            7 * u <= 100_000 * h <= 9 * u,
            x > 0,
    ;
    assert(xu > 0) by (nonlinear_arith)
        requires
            xu == x * u,
            x > 0,
            u > 0,
    ;
    // the bid
    let y = bid.quanta();
    lemma_times_quanta(price, low);
    assert(x as nat * low.quanta() as nat <= x as nat * u) by (nonlinear_arith)
        requires
            0 <= low.quanta() <= u,
            x > 0,
    ;
    lemma_round_le(x as nat * low.quanta() as nat, u, x as nat);
    lemma_side(price, low, u - h);
    assert(u * y < xu);
    assert(y < x) by (nonlinear_arith)
        requires
            u * y < xu,
            xu == x * u,
            u > 0,
    ;
    let d = c * (100_000 * h - 8 * u);
    assert(-(8 * xu) <= x * d <= 8 * xu) by (nonlinear_arith)
        requires
            -(8 * u) <= d <= 8 * u,
            xu == x * u,
            x > 0,
    ;
    assert(x * d == c * (100_000 * xh - 8 * xu)) by (nonlinear_arith)
        requires
            d == c * (100_000 * h - 8 * u),
            xh == x * h,
            xu == x * u,
    ;
    assert(u * (x - y) == xu - u * y) by (nonlinear_arith)
        requires
            xu == x * u,
    ;
    lemma_off(c, u as int, x, xh, x - y);
    // the ask
    lemma_times_quanta(price, high);
    if ask is Fin {
        let z = ask.quanta();
        lemma_side(price, high, u + h);
        assert(u * z > xu);
        assert(z > x) by (nonlinear_arith)
            requires
                u * z > xu,
                xu == x * u,
                u > 0,
        ;
        let g = z - y;
        assert(u * g == u * z - u * y) by (nonlinear_arith)
            requires
                g == z - y,
        ;
        assert(u * (z - x) == u * z - xu) by (nonlinear_arith)
            requires
                xu == x * u,
        ;
        lemma_off(c, u as int, x, xh, z - x);
        let ug = u * g;
        assert(-(1_000_100 * xu) <= c * (100_000 * ug - 16 * xu) <= 1_000_100 * xu);
        let k = c * (100_000 * g - 16 * x);
        assert(c * (100_000 * ug - 16 * xu) == k * u) by (nonlinear_arith)
            requires
                k == c * (100_000 * g - 16 * x),
                ug == u * g,
                xu == x * u,
        ;
        assert(-(1_000_100 * x) <= k <= 1_000_100 * x) by (nonlinear_arith)
            requires
                -(1_000_100 * xu) <= k * u <= 1_000_100 * xu,
                xu == x * u,
                u > 0,
        ;
        lemma_sum_is_double(one, half);
        lemma_results_are_doubles(price, high);
        lemma_spread(crash_quote_at(price, ts));
    }
}

/// The spread of a quote whose sides are 1.6 basis points apart.
proof fn lemma_spread(quote: CexModel)
    requires
        quote.bid is Fin,
        quote.ask is Fin,
        quote.ask.is_double(),
        quote.mid is Fin,
        0 <= quote.bid.quanta() < quote.mid.quanta() < quote.ask.quanta(),
        ({
            let x = quote.mid.quanta();
            let g = quote.ask.quanta() - quote.bid.quanta();
            -(1_000_100 * x) <= 0x20_0000_0000_0000 * (100_000 * g - 16 * x) <= 1_000_100 * x
        }),
    ensures
        ({
            let spread = quote.spread_bps();
            let off = 10 * spread.quanta() - 16 * one_in_quanta();
            &&& spread is Fin
            &&& -(one_in_quanta() as int) <= 100_000_000 * off <= one_in_quanta()
        }),
{
    let c: int = 0x20_0000_0000_0000;
    let u = one_in_quanta();
    let x = quote.mid.quanta();
    let g = quote.ask.quanta() - quote.bid.quanta();
    lemma_zero_significant();
    lemma2_to64();
    lemma2_to64_rest();
    lemma_pow2_adds(50, 50);
    lemma_pow2_ordered(100, 1074);
    // the difference
    let diff = quote.ask.minus(quote.bid);
    assert(quote.bid.negated().quanta() == -quote.bid.quanta());
    lemma_round_le(g as nat, 1, quote.ask.quanta() as nat);
    lemma_minus_quanta(quote.ask, quote.bid);
    lemma_plus_error(quote.ask, quote.bid.negated());
    let d = diff.quanta();
    assert(g <= x);
    assert(0 < d <= 2 * x && 10_000 * d >= x);
    assert(-(1_200_000 * x) <= c * (100_000 * d - 16 * x) <= 1_200_000 * x);
    // as a part of the middle
    let n = (d * u) as nat;
    lemma_pow2_adds(1, 1074);
    lemma_pow2_strictly_increases(1075, 2098);
    assert(1 * pow2(1075) == pow2(1075));
    lemma_significant(1, 1075);
    assert(n <= (2 * u) * x && n >= x * c) by (nonlinear_arith)
        requires
            n == d * u,
            d <= 2 * x,
            10_000 * d >= x,
            u >= 10_000 * c,
            c == 0x20_0000_0000_0000,
            d > 0,
    ;
    lemma_round_le(n, x as nat, 2 * u);
    lemma_round_error(n, x as nat);
    lemma_over_quanta(diff, quote.mid);
    let part = diff.over(quote.mid);
    let q = part.quanta();
    let xu = x * u;
    assert(n <= 2 * xu) by (nonlinear_arith)
        requires
            n == d * u,
            d <= 2 * x,
            xu == x * u,
    ;
    let e = c * (100_000 * d - 16 * x);
    assert(-(1_200_000 * xu) <= e * u <= 1_200_000 * xu) by (nonlinear_arith)
        requires
            -(1_200_000 * x) <= e <= 1_200_000 * x,
            xu == x * u,
    ;
    assert(e * u == c * (100_000 * n - 16 * xu)) by (nonlinear_arith)
        requires
            e == c * (100_000 * d - 16 * x),
            n == d * u,
            xu == x * u,
    ;
    let qx = q * x;
    assert(-(1_400_000 * xu) <= c * (100_000 * qx - 16 * xu) <= 1_400_000 * xu);
    let k = c * (100_000 * q - 16 * u);
    assert(k * x == c * (100_000 * qx - 16 * xu)) by (nonlinear_arith)
        requires
            k == c * (100_000 * q - 16 * u),
            qx == q * x,
            xu == x * u,
    ;
    assert(-(1_400_000 * u) <= k <= 1_400_000 * u) by (nonlinear_arith)
        requires
            -(1_400_000 * xu) <= k * x <= 1_400_000 * xu,
            xu == x * u,
            x > 0,
    ;
    // in basis points
    let scale = Value::whole(10_000);
    lemma_whole_exact(10_000);
    let spread = part.times(scale);
    lemma_pow2_adds(15, 1074);
    lemma_pow2_strictly_increases(1089, 2098);
    assert(1 * pow2(1089) == pow2(1089));
    lemma_significant(1, 1089);
    let m = q as nat * (10_000 * u);
    assert(m <= (32_768 * u) * u) by (nonlinear_arith)
        requires
            m == q as nat * (10_000 * u),
            0 <= q <= 2 * u,
    ;
    lemma_round_le(m, u, 32_768 * u);
    lemma_times_quanta(part, scale);
    lemma_times_error(part, scale);
    let s = spread.quanta();
    let qu = q * u;
    assert(q * (10_000 * u) == 10_000 * qu) by (nonlinear_arith)
        requires
            qu == q * u,
    ;
    let f = s - 10_000 * q;
    assert(u * s - 10_000 * qu == f * u) by (nonlinear_arith)
        requires
            f == s - 10_000 * q,
            qu == q * u,
    ;
    let cf = 0x40_0000_0000_0000 * f;
    assert(0x40_0000_0000_0000 * (f * u) == cf * u) by (nonlinear_arith)
        requires
            cf == 0x40_0000_0000_0000 * f,
    ;
    let bound = 20_000 * q + 0x20_0000_0000_0000;
    assert(2 * (10_000 * qu) + 0x20_0000_0000_0000 * u == bound * u) by (nonlinear_arith)
        requires
            bound == 20_000 * q + 0x20_0000_0000_0000,
            qu == q * u,
    ;
    assert(qu >= 0) by (nonlinear_arith)
        requires
            qu == q * u,
            q >= 0,
    ;
    assert(-bound <= cf <= bound) by (nonlinear_arith)
        requires
            -(bound * u) <= cf * u <= bound * u,
            u > 0,
    ;
}

} // verus!
