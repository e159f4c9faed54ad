//! What a frame of the stream does to the state, and what a quote holds, in exact numbers.

use vstd::arithmetic::power2::*;
use vstd::prelude::*;

use crate::binary64::double::lemma_whole_exact;
use crate::binary64::model::{one_in_quanta, Value};
use crate::binary64::order::{
    lemma_minus_quanta, lemma_over_error, lemma_plus_error, lemma_product_error, lemma_round_le,
    lemma_significant, lemma_zero_significant, positive,
};
use crate::feeds::cex::{book_quote_at, quote_of, quoted, reply_to, stream_address, Frame, Reply};
use crate::types::{CexModel, StateModel};

verus! {

/// A price is a number above zero, the largest of all included.
pub open spec fn is_price(v: Value) -> bool {
    positive(v) || v == Value::infinity()
}

/// A frame is a ticker, and both its prices are prices.
pub open spec fn holds_a_quote(frame: Frame) -> bool {
    frame matches Frame::Ticker { bid: Some(b), ask: Some(a) } && is_price(b@) && is_price(a@)
}

/// A ticker with two prices puts them into the state, with the time; a ping is answered; a
/// stream that is closed or has failed is given up; whatever else comes in is passed over. All
/// but the quote stays as it is.
pub proof fn law_frames(frame: Frame, state: StateModel, ts: u128)
    ensures
        reply_to(frame, ts) == Reply::Quoted <==> holds_a_quote(frame),
        reply_to(frame, ts) == Reply::Pong <==> frame is Ping,
        reply_to(frame, ts) == Reply::Stop <==> frame is Closed || frame is Failed,
        ({
            let after = quoted(state, quote_of(frame, ts));
            &&& after.oracle == state.oracle
            &&& after.positions == state.positions
            &&& after.analyses == state.analyses
            &&& !holds_a_quote(frame) ==> after.cex == state.cex
            &&& holds_a_quote(frame) ==> {
                &&& after.cex is Some
                &&& frame matches Frame::Ticker { bid: Some(b), ask: Some(a) }
                &&& after.cex->0.bid == b@
                &&& after.cex->0.ask == a@
                &&& after.cex->0.ts == ts
            }
        }),
{
    lemma_zero_significant();
}

/// The middle of a quote of the stream is the mean of its sides, up to rounding.
pub proof fn law_mid_is_the_mean(bid: Value, ask: Value, ts: u128)
    requires
        positive(bid),
        positive(ask),
        bid.quanta() + ask.quanta() <= pow2(2097),
    ensures
        ({
            let c = 0x20_0000_0000_0000int;
            let s = bid.quanta() + ask.quanta();
            let quote = book_quote_at(bid, ask, ts);
            &&& quote is Some
            &&& quote->0.mid is Fin
            &&& -(4 * s + c) <= c * (2 * quote->0.mid.quanta() - s) <= 4 * s + c
        }),
{
    let c: int = 0x20_0000_0000_0000;
    let u = one_in_quanta();
    let s = bid.quanta() + ask.quanta();
    lemma_zero_significant();
    lemma_whole_exact(2);
    lemma2_to64();
    let top = pow2(2097);
    assert(1 * top == top);
    lemma_significant(1, 2097);
    lemma_pow2_strictly_increases(2097, 2098);
    lemma_round_le(s as nat, 1, top);
    let total = bid.plus(ask);
    assert(total is Fin && 0 <= total.quanta() <= top);
    lemma_plus_error(bid, ask);
    let t = total.quanta();
    let two = Value::whole(2);
    lemma_over_error(total, two);
    assert(t as nat * u <= top * (2 * u)) by (nonlinear_arith)
        requires
            0 <= t <= top,
    ;
    lemma_round_le(t as nat * u, 2 * u, top);
    let m = total.over(two).quanta();
    let e = 0x40_0000_0000_0000 * (2 * m - t);
    let bound = 2 * t + 2 * c;
    assert(m * (2 * u) - t * u == (2 * m - t) * u) by (nonlinear_arith);
    assert(2 * (t * u) + c * (2 * u) == bound * u) by (nonlinear_arith)
        requires
            bound == 2 * t + 2 * c,
    ;
    assert(0x40_0000_0000_0000 * ((2 * m - t) * u) == e * u) by (nonlinear_arith)
        requires
            e == 0x40_0000_0000_0000 * (2 * m - t),
    ;
    assert(-bound <= e <= bound) by (nonlinear_arith)
        requires
            -(bound * u) <= e * u <= bound * u,
            u > 0,
    ;
}

/// The spread of a quote is the distance of its sides as a part of the middle, in basis points,
/// up to rounding.
pub proof fn law_spread_in_exact_numbers(quote: CexModel)
    requires
        quote.bid is Fin,
        quote.bid.quanta() >= 0,
        quote.ask is Fin,
        quote.ask.is_double(),
        positive(quote.mid),
        0 <= quote.ask.quanta() - quote.bid.quanta() <= quote.mid.quanta(),
    ensures
        ({
            let c = 0x20_0000_0000_0000int;
            let u = one_in_quanta();
            let mid = quote.mid.quanta();
            let apart = (quote.ask.quanta() - quote.bid.quanta()) * u;
            let spread = quote.spread_bps();
            let slack = 131_072 * apart + (8192 * c) * mid;
            &&& spread is Fin
            &&& -slack <= c * (spread.quanta() * mid - 10_000 * apart) <= slack
        }),
{
    let c: int = 0x20_0000_0000_0000;
    let u = one_in_quanta() as int;
    let x = quote.mid.quanta();
    let g = quote.ask.quanta() - quote.bid.quanta();
    lemma_zero_significant();
    lemma2_to64();
    // the difference
    let diff = quote.ask.minus(quote.bid);
    assert(quote.bid.negated().quanta() == -quote.bid.quanta());
    lemma_round_le(g as nat, 1, quote.ask.quanta() as nat);
    lemma_minus_quanta(quote.ask, quote.bid);
    lemma_plus_error(quote.ask, quote.bid.negated());
    let d = diff.quanta();
    assert(0 <= d <= 2 * x);
    // as a part of the middle
    lemma_pow2_adds(1, 1074);
    lemma_pow2_strictly_increases(1075, 2098);
    assert(1 * pow2(1075) == pow2(1075));
    lemma_significant(1, 1075);
    let n = (d * u) as nat;
    assert(0 <= d * u && n <= (2 * u) * x) by (nonlinear_arith)
        requires
            n == (d * u) as nat,
            0 <= d <= 2 * x,
            u > 0,
    ;
    assert(n == d as nat * u as nat);
    lemma_round_le(n, x as nat, (2 * u) as nat);
    lemma_over_error(diff, quote.mid);
    let part = diff.over(quote.mid);
    let q = part.quanta();
    assert(part is Fin && 0 <= q <= 2 * u);
    // in basis points
    let scale = Value::whole(10_000);
    lemma_whole_exact(10_000);
    lemma_pow2_adds(15, 1074);
    lemma_pow2_strictly_increases(1089, 2098);
    assert(1 * pow2(1089) == pow2(1089));
    lemma_significant(1, 1089);
    assert(q * (10_000 * u) <= (32_768 * u) * u) by (nonlinear_arith)
        requires
            0 <= q <= 2 * u,
    ;
    lemma_round_le(q as nat * (10_000 * u) as nat, u as nat, (32_768 * u) as nat);
    lemma_product_error(part, scale);
    let s = part.times(scale).quanta();
    lemma_spread_together(c, u, g, d, q, s, x);
}

/// The stages of a spread, together.
proof fn lemma_spread_together(c: int, u: int, g: int, d: int, q: int, s: int, x: int)
    requires
        c == 0x20_0000_0000_0000,
        u > 0,
        x > 0,
        0 <= g,
        0 <= d,
        0 <= q,
        -g <= c * (d - g) <= g,
        -(2 * (d * u) + c * x) <= (2 * c) * (q * x - d * u) <= 2 * (d * u) + c * x,
        -(2 * (q * (10_000 * u)) + c * u) <= (2 * c) * (u * s - q * (10_000 * u)) <= 2 * (q * (
        10_000 * u)) + c * u,
    ensures
        ({
            let slack = 131_072 * (g * u) + (8192 * c) * x;
            -slack <= c * (s * x - 10_000 * (g * u)) <= slack
        }),
{
    let gu = g * u;
    let du = d * u;
    let qx = q * x;
    let sx = s * x;
    let qu = q * u;
    let cx = c * x;
    assert(q * (10_000 * u) == 10_000 * qu) by (nonlinear_arith)
        requires
            qu == q * u,
    ;
    // the last stage, without its unit
    let f = s - 10_000 * q;
    let e = (2 * c) * f;
    let bound = 20_000 * q + c;
    assert(u * s - 10_000 * qu == f * u) by (nonlinear_arith)
        requires
            f == s - 10_000 * q,
            qu == q * u,
    ;
    assert((2 * c) * (f * u) == e * u) by (nonlinear_arith)
        requires
            e == (2 * c) * f,
    ;
    assert(2 * (10_000 * qu) + c * u == bound * u) by (nonlinear_arith)
        requires
            bound == 20_000 * q + c,
            qu == q * u,
    ;
    assert(-bound <= e <= bound) by (nonlinear_arith)
        requires
            -(bound * u) <= e * u <= bound * u,
            u > 0,
    ;
    // and times the middle
    assert(-(bound * x) <= e * x <= bound * x) by (nonlinear_arith)
        requires
            -bound <= e <= bound,
            x > 0,
    ;
    assert(bound * x == 20_000 * qx + cx) by (nonlinear_arith)
        requires
            bound == 20_000 * q + c,
            qx == q * x,
            cx == c * x,
    ;
    assert(e * x == (2 * c) * (sx - 10_000 * qx)) by (nonlinear_arith)
        requires
            e == (2 * c) * (s - 10_000 * q),
            sx == s * x,
            qx == q * x,
    ;
    // the first stage, in the same unit
    let a = c * (d - g);
    assert(-gu <= a * u <= gu) by (nonlinear_arith)
        requires
            -g <= a <= g,
            gu == g * u,
            u > 0,
    ;
    assert(a * u == c * (du - gu)) by (nonlinear_arith)
        requires
            a == c * (d - g),
            du == d * u,
            gu == g * u,
    ;
    assert(0 <= du <= 2 * gu && qx >= 0 && cx >= x) by (nonlinear_arith)
        requires
            0 <= d <= 2 * g,
            du == d * u,
            gu == g * u,
            qx == q * x,
            cx == c * x,
            c >= 1,
            q >= 0,
            x > 0,
            u > 0,
    ;
    assert((8192 * c) * x == 8192 * cx) by (nonlinear_arith)
        requires
            cx == c * x,
    ;
    assert(0x20_0000_0000_0000 * x == cx);
    assert(qx <= 2 * du + x);
    assert(10_000 * x <= cx);
}

/// The quotes of a pair are streamed from the book ticker of that pair.
pub proof fn law_stream_of_a_pair(pair: Seq<char>)
    ensures
        ({
            let address = stream_address(pair);
            &&& address.len() == 33 + pair.len() + 11
            &&& address.subrange(0, 33) == "wss://stream.binance.com:9443/ws/"@
            &&& address.subrange(33, 33 + pair.len() as int) == pair
            &&& address.subrange(33 + pair.len() as int, address.len() as int) == "@bookTicker"@
        }),
{
    reveal_strlit("wss://stream.binance.com:9443/ws/");
    reveal_strlit("@bookTicker");
}

} // verus!
