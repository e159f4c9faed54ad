//! The blended incentive of several legs.

use vstd::arithmetic::power2::*;
use vstd::prelude::*;

use crate::binary64::model::{one_in_quanta, overflow_bound, round_mag, sum, Value};
use crate::binary64::order::{
    lemma_over_quanta, lemma_plus_quanta, lemma_round_error, lemma_round_keeps, lemma_round_le,
    lemma_significant, lemma_times_quanta, lemma_zero_significant, positive,
};
use crate::binary64::rounding::lemma_pow2_ordered;
use crate::types::{LegModel, PositionModel};

verus! {

/// The exact sum of the terms, in quanta.
pub(crate) open spec fn exact(terms: Seq<Value>) -> int
    decreases terms.len(),
{
    if terms.len() == 0 {
        0
    } else {
        exact(terms.drop_last()) + terms.last().quanta()
    }
}

/// Every term is finite and not below zero.
pub(crate) open spec fn are_amounts(terms: Seq<Value>) -> bool {
    forall|i: int| 0 <= i < terms.len() ==> (#[trigger] terms[i]) is Fin && terms[i].quanta() >= 0
}

/// A sum of whole quanta is rounded by at most one part in 2 to the power 53.
proof fn lemma_sum_rounding(s: nat)
    ensures
        0x20_0000_0000_0000 * round_mag(s, 1) <= 0x20_0000_0000_0001 * s,
        0x20_0000_0000_0000 * round_mag(s, 1) >= 0x1f_ffff_ffff_ffff * s,
{
    lemma_round_error(s, 1);
}

/// One more rounding.
proof fn lemma_one_more(k: int, s: int, e: int, v: int, r: int)
    requires
        0 <= k < 0x8_0000_0000_0000,
        0 <= e,
        0 <= v,
        (3 * 0x20_0000_0000_0000int) * s <= (3 * 0x20_0000_0000_0000int + 4 * k) * e,
        0x20_0000_0000_0000 * s >= (0x20_0000_0000_0000 - k) * e,
        0x20_0000_0000_0000 * r <= 0x20_0000_0000_0001 * (s + v),
        0x20_0000_0000_0000 * r >= 0x1f_ffff_ffff_ffff * (s + v),
    ensures
        (3 * 0x20_0000_0000_0000int) * r <= (3 * 0x20_0000_0000_0000int + 4 * (k + 1)) * (e + v),
        0x20_0000_0000_0000 * r >= (0x20_0000_0000_0000 - (k + 1)) * (e + v),
{
    let c: int = 0x20_0000_0000_0000;
    let ke = k * e;
    let kv = k * v;
    assert(0 <= ke <= 0x8_0000_0000_0000 * e) by (nonlinear_arith)
        requires
            ke == k * e,
            0 <= k < 0x8_0000_0000_0000,
            0 <= e,
    ;
    assert(0 <= kv) by (nonlinear_arith)
        requires
            kv == k * v,
            0 <= k,
            0 <= v,
    ;
    assert((3 * c + 4 * k) * e == (3 * c) * e + 4 * ke) by (nonlinear_arith)
        requires
            ke == k * e,
    ;
    assert((c - k) * e == c * e - ke) by (nonlinear_arith)
        requires
            ke == k * e,
    ;
    assert((3 * c + 4 * (k + 1)) * (e + v) == (3 * c) * (e + v) + 4 * ke + 4 * kv + 4 * (e + v))
        by (nonlinear_arith)
        requires
            ke == k * e,
            kv == k * v,
    ;
    assert((c - (k + 1)) * (e + v) == c * (e + v) - ke - kv - (e + v)) by (nonlinear_arith)
        requires
            ke == k * e,
            kv == k * v,
    ;
}

/// How far a sum can be off, and when it is finite.
pub(crate) proof fn lemma_total_error(terms: Seq<Value>)
    requires
        are_amounts(terms),
        terms.len() <= 0x8_0000_0000_0000,
    ensures
        exact(terms) >= 0,
        sum(terms) is Fin || sum(terms) == Value::infinity(),
        sum(terms) is Fin ==> {
            let c = 0x20_0000_0000_0000int;
            let s = sum(terms).quanta();
            let n = terms.len() as int;
            &&& s >= 0
            &&& (3 * c) * s <= (3 * c + 4 * n) * exact(terms)
            &&& c * s >= (c - n) * exact(terms)
        },
        2 * exact(terms) < overflow_bound() ==> sum(terms) is Fin,
    decreases terms.len(),
{
    if terms.len() > 0 {
        let front = terms.drop_last();
        let last = terms.last();
        assert(last == terms[terms.len() - 1]);
        assert(are_amounts(front)) by {
            assert forall|i: int| 0 <= i < front.len() implies (#[trigger] front[i]) is Fin
                && front[i].quanta() >= 0 by {
                assert(front[i] == terms[i]);
            }
        }
        lemma_total_error(front);
        if sum(front) is Fin {
            let s = sum(front).quanta();
            let v = last.quanta();
            let e = exact(front);
            let k = front.len() as int;
            let r = round_mag((s + v) as nat, 1);
            lemma_sum_rounding((s + v) as nat);
            lemma_one_more(k, s, e, v, r as int);
            assert(2 * (e + v) < overflow_bound() ==> r < overflow_bound()) by {
                let n = k + 1;
                let t = e + v;
                assert((3 * 0x20_0000_0000_0000int + 4 * n) * t <= (6 * 0x20_0000_0000_0000int) * t)
                    by (nonlinear_arith)
                    requires
                        0 <= n <= 0x8_0000_0000_0000,
                        t >= 0,
                ;
            }
            if r < overflow_bound() {
                lemma_plus_quanta(sum(front), last);
            } else {
                lemma_too_large(sum(front), last);
            }
        }
    }
}

/// A sum that is too large is infinite.
proof fn lemma_too_large(a: Value, b: Value)
    requires
        a is Fin,
        b is Fin,
        a.quanta() + b.quanta() >= 0,
        round_mag((a.quanta() + b.quanta()) as nat, 1) >= overflow_bound(),
    ensures
        a.plus(b) == Value::infinity(),
{
    let s = a.quanta() + b.quanta();
    if s == 0 {
        lemma_zero_significant();
        lemma_round_keeps(0, 1);
        lemma_pow2_pos(2098);
    }
}

/// A rounded quotient or product, scaled by its denominator.
proof fn lemma_scaled_error(n: nat, d: nat)
    requires
        d > 0,
    ensures
        0x40_0000_0000_0000 * (d * round_mag(n, d)) <= 0x40_0000_0000_0002 * n
            + 0x20_0000_0000_0000 * d,
        0x40_0000_0000_0000 * (d * round_mag(n, d)) >= 0x3f_ffff_ffff_fffe * n
            - 0x20_0000_0000_0000 * d,
{
    lemma_round_error(n, d);
    let r = round_mag(n, d);
    assert(d * r == r * d) by (nonlinear_arith);
}

/// What is known of the shares and of the terms, one by one.
spec fn are_shares(
    v: Seq<Value>,
    w: Seq<Value>,
    t: Seq<Value>,
    total: int,
    u: int,
    lo: int,
    hi: int,
) -> bool {
    &&& v.len() == w.len() == t.len()
    &&& are_amounts(v)
    &&& are_amounts(w)
    &&& are_amounts(t)
    &&& forall|i: int|
        #![trigger v[i]]
        #![trigger w[i]]
        #![trigger t[i]]
        0 <= i < v.len() ==> is_share(v[i], w[i], t[i], total, u, lo, hi)
}

/// What is known of the share of one leg, and of what it adds.
pub(crate) open spec fn is_share(
    v: Value,
    w: Value,
    t: Value,
    total: int,
    u: int,
    lo: int,
    hi: int,
) -> bool {
    &&& 0x40_0000_0000_0000 * (total * w.quanta()) <= 0x40_0000_0000_0002 * (v.quanta() * u)
        + 0x20_0000_0000_0000 * total
    &&& 0x40_0000_0000_0000 * (total * w.quanta()) >= 0x3f_ffff_ffff_fffe * (v.quanta() * u)
        - 0x20_0000_0000_0000 * total
    &&& 0x40_0000_0000_0000 * (u * t.quanta()) <= 0x40_0000_0000_0002 * (w.quanta() * hi)
        + 0x20_0000_0000_0000 * u
    &&& 0x40_0000_0000_0000 * (u * t.quanta()) >= 0x3f_ffff_ffff_fffe * (w.quanta() * lo)
        - 0x20_0000_0000_0000 * u
}

/// What is known of them together.
proof fn lemma_shares_together(
    v: Seq<Value>,
    w: Seq<Value>,
    t: Seq<Value>,
    total: int,
    u: int,
    lo: int,
    hi: int,
)
    requires
        are_shares(v, w, t, total, u, lo, hi),
    ensures
        ({
            let n = v.len() as int;
            &&& 0x40_0000_0000_0000 * (total * exact(w)) <= 0x40_0000_0000_0002 * (exact(v) * u)
                + 0x20_0000_0000_0000 * (total * n)
            &&& 0x40_0000_0000_0000 * (total * exact(w)) >= 0x3f_ffff_ffff_fffe * (exact(v) * u)
                - 0x20_0000_0000_0000 * (total * n)
            &&& 0x40_0000_0000_0000 * (u * exact(t)) <= 0x40_0000_0000_0002 * (exact(w) * hi)
                + 0x20_0000_0000_0000 * (u * n)
            &&& 0x40_0000_0000_0000 * (u * exact(t)) >= 0x3f_ffff_ffff_fffe * (exact(w) * lo)
                - 0x20_0000_0000_0000 * (u * n)
        }),
    decreases v.len(),
{
    let n = v.len() as int;
    if n == 0 {
        assert(total * 0 == 0 && u * 0 == 0 && 0 * u == 0 && 0 * hi == 0 && 0 * lo == 0)
            by (nonlinear_arith);
    } else {
        let vf = v.drop_last();
        let wf = w.drop_last();
        let tf = t.drop_last();
        let m = n - 1;
        assert(is_share(v[m], w[m], t[m], total, u, lo, hi));
        assert(are_shares(vf, wf, tf, total, u, lo, hi)) by {
            assert forall|i: int|
                #![trigger vf[i]]
                #![trigger wf[i]]
                #![trigger tf[i]]
                0 <= i < vf.len() implies is_share(vf[i], wf[i], tf[i], total, u, lo, hi) by {
                assert(is_share(v[i], w[i], t[i], total, u, lo, hi));
            }
            assert forall|i: int| 0 <= i < vf.len() implies (#[trigger] vf[i]) is Fin
                && vf[i].quanta() >= 0 by {
                assert(v[i] is Fin);
            }
            assert forall|i: int| 0 <= i < wf.len() implies (#[trigger] wf[i]) is Fin
                && wf[i].quanta() >= 0 by {
                assert(w[i] is Fin);
            }
            assert forall|i: int| 0 <= i < tf.len() implies (#[trigger] tf[i]) is Fin
                && tf[i].quanta() >= 0 by {
                assert(t[i] is Fin);
            }
        }
        lemma_shares_together(vf, wf, tf, total, u, lo, hi);
        lemma_distributes(total, exact(wf), w[m].quanta());
        lemma_distributes(u, exact(vf), v[m].quanta());
        lemma_distributes(u, exact(tf), t[m].quanta());
        lemma_distributes(hi, exact(wf), w[m].quanta());
        lemma_distributes(lo, exact(wf), w[m].quanta());
        lemma_distributes(total, m, 1);
        lemma_distributes(u, m, 1);
    }
}

proof fn lemma_distributes(a: int, x: int, y: int)
    ensures
        a * (x + y) == a * x + a * y,
        (x + y) * a == x * a + y * a,
{
    assert(a * (x + y) == a * x + a * y && (x + y) * a == x * a + y * a) by (nonlinear_arith);
}

/// A comparison of sums, scaled by `k`.
proof fn lemma_scaled(a: int, x: int, y: int, b: int, s: int, z: int, d: int, n: int, k: int)
    requires
        k > 0,
    ensures
        a * (x * y) <= b * (s * z) + d * (x * n) ==> a * (x * (y * k)) <= b * ((k * s) * z) + d * (x
            * (n * k)),
        a * (x * y) >= b * (s * z) + d * (x * n) ==> a * (x * (y * k)) >= b * ((k * s) * z) + d * (x
            * (n * k)),
{
    let p = a * (x * y);
    let q = b * (s * z);
    let r = d * (x * n);
    assert(a * (x * (y * k)) == p * k) by (nonlinear_arith)
        requires
            p == a * (x * y),
    ;
    assert(b * ((k * s) * z) == q * k) by (nonlinear_arith)
        requires
            q == b * (s * z),
    ;
    assert(d * (x * (n * k)) == r * k) by (nonlinear_arith)
        requires
            r == d * (x * n),
    ;
    assert(p <= q + r ==> p * k <= q * k + r * k) by (nonlinear_arith)
        requires
            k > 0,
    ;
    assert(p >= q + r ==> p * k >= q * k + r * k) by (nonlinear_arith)
        requires
            k > 0,
    ;
}

/// What the terms come to at most.
proof fn lemma_terms_high(n: int, total: int, s: int, w: int, ts: int, u: int, hi: int)
    requires
        0 <= n <= 0x8_0000_0000_0000,
        total > 0,
        u >= 0x1_0000_0000_0000_0000_0000_0000_0000_0000_0000_0000_0000_0000,
        hi >= u,
        (0x20_0000_0000_0000 - n) * s <= 0x20_0000_0000_0000 * total,
        0x40_0000_0000_0000 * (total * w) <= 0x40_0000_0000_0002 * (s * u) + 0x20_0000_0000_0000
            * (total * n),
        0x40_0000_0000_0000 * (u * ts) <= 0x40_0000_0000_0002 * (w * hi) + 0x20_0000_0000_0000 * (u
            * n),
    ensures
        (0x40_0000_0000_0000 * (0x20_0000_0000_0000 - n)) * ts <= (2 * (0x20_0000_0000_0000int
            * 0x20_0000_0000_0000) + 5 * 0x20_0000_0000_0000 + 4) * hi,
{
    let c: int = 0x20_0000_0000_0000;
    let k = c - n;
    // the shares
    let wk = w * k;
    let sk = k * s;
    let nk = n * k;
    lemma_scaled(2 * c, total, w, 2 * (c + 1), s, u, c, n, k);
    assert(sk * u <= (c * total) * u) by (nonlinear_arith)
        requires
            sk <= c * total,
            u > 0,
    ;
    let a = 2 * wk - (2 * (c + 1)) * u - nk;
    assert(a * (c * total) <= 0) by (nonlinear_arith)
        requires
            a == 2 * wk - (2 * (c + 1)) * u - nk,
            (2 * c) * (total * wk) <= (2 * (c + 1)) * (sk * u) + c * (total * nk),
            sk * u <= (c * total) * u,
            c > 0,
    ;
    assert(a <= 0) by (nonlinear_arith)
        requires
            a * (c * total) <= 0,
            c > 0,
            total > 0,
    ;
    assert(0 <= nk && c * nk <= u) by (nonlinear_arith)
        requires
            nk == n * k,
            0 <= n <= 0x8_0000_0000_0000,
            0 < k <= c,
            c == 0x20_0000_0000_0000,
            u >= 0x1_0000_0000_0000_0000_0000_0000_0000_0000_0000_0000_0000_0000,
    ;
    assert(2 * wk <= (2 * c + 3) * u);
    // the terms
    let tk = ts * k;
    lemma_scaled(2 * c, u, ts, 2 * (c + 1), w, hi, c, n, k);
    assert((c + 1) * ((2 * wk) * hi) == (2 * (c + 1)) * ((k * w) * hi)) by (nonlinear_arith)
        requires
            wk == w * k,
    ;
    assert((2 * wk) * hi <= ((2 * c + 3) * u) * hi) by (nonlinear_arith)
        requires
            2 * wk <= (2 * c + 3) * u,
            hi > 0,
    ;
    assert(c * (u * nk) <= u * hi) by (nonlinear_arith)
        requires
            c * nk <= u,
            u <= hi,
            u > 0,
    ;
    let m = 2 * (c * c) + 5 * c + 4;
    let b = (2 * c) * tk - m * hi;
    assert(b * u <= 0) by (nonlinear_arith)
        requires
            b == (2 * c) * tk - m * hi,
            m == 2 * (c * c) + 5 * c + 4,
            (2 * c) * (u * tk) <= (c + 1) * ((2 * wk) * hi) + c * (u * nk),
            (2 * wk) * hi <= ((2 * c + 3) * u) * hi,
            c * (u * nk) <= u * hi,
            c > 0,
    ;
    assert(b <= 0) by (nonlinear_arith)
        requires
            b * u <= 0,
            u > 0,
    ;
    assert((0x40_0000_0000_0000 * k) * ts == 0x40_0000_0000_0000 * tk) by (nonlinear_arith)
        requires
            tk == ts * k,
    ;
}

/// What the terms come to at least.
proof fn lemma_terms_low(n: int, total: int, s: int, w: int, ts: int, u: int, lo: int)
    requires
        0 <= n <= 0x8_0000_0000_0000,
        total > 0,
        u >= 0x1_0000_0000_0000_0000_0000_0000_0000_0000_0000_0000_0000_0000,
        lo >= u,
        (3 * 0x20_0000_0000_0000int + 4 * n) * s >= (3 * 0x20_0000_0000_0000int) * total,
        0x40_0000_0000_0000 * (total * w) >= 0x3f_ffff_ffff_fffe * (s * u) - 0x20_0000_0000_0000
            * (total * n),
        0x40_0000_0000_0000 * (u * ts) >= 0x3f_ffff_ffff_fffe * (w * lo) - 0x20_0000_0000_0000 * (u
            * n),
    ensures
        (0x40_0000_0000_0000 * (3 * 0x20_0000_0000_0000int + 4 * n)) * ts >= (6 * (
        0x20_0000_0000_0000int * 0x20_0000_0000_0000) - 13 * 0x20_0000_0000_0000 + 6) * lo,
{
    let c: int = 0x20_0000_0000_0000;
    let k = 3 * c + 4 * n;
    // the shares
    let wk = w * k;
    let sk = k * s;
    let nk = n * k;
    lemma_scaled(2 * c, total, w, 2 * (c - 1), s, u, -c, n, k);
    assert((-c) * (total * nk) == -(c * (total * nk))) by (nonlinear_arith);
    assert(sk * u >= ((3 * c) * total) * u) by (nonlinear_arith)
        requires
            sk >= (3 * c) * total,
            u > 0,
    ;
    let a = 2 * wk - (6 * (c - 1)) * u + nk;
    assert(a * (c * total) >= 0) by (nonlinear_arith)
        requires
            a == 2 * wk - (6 * (c - 1)) * u + nk,
            (2 * c) * (total * wk) >= (2 * (c - 1)) * (sk * u) - c * (total * nk),
            sk * u >= ((3 * c) * total) * u,
            c > 1,
    ;
    assert(a >= 0) by (nonlinear_arith)
        requires
            a * (c * total) >= 0,
            c > 0,
            total > 0,
    ;
    assert(0 <= nk && c * nk <= u) by (nonlinear_arith)
        requires
            nk == n * k,
            0 <= n <= 0x8_0000_0000_0000,
            0 < k <= 4 * c,
            c == 0x20_0000_0000_0000,
            u >= 0x1_0000_0000_0000_0000_0000_0000_0000_0000_0000_0000_0000_0000,
    ;
    assert(nk <= u) by (nonlinear_arith)
        requires
            0 <= nk,
            c * nk <= u,
            c >= 1,
    ;
    assert((6 * c - 7) * u == (6 * (c - 1)) * u - u) by (nonlinear_arith);
    assert(2 * wk >= (6 * c - 7) * u);
    // the terms
    let tk = ts * k;
    lemma_scaled(2 * c, u, ts, 2 * (c - 1), w, lo, -c, n, k);
    assert((-c) * (u * nk) == -(c * (u * nk))) by (nonlinear_arith);
    assert((c - 1) * ((2 * wk) * lo) == (2 * (c - 1)) * ((k * w) * lo)) by (nonlinear_arith)
        requires
            wk == w * k,
    ;
    assert((2 * wk) * lo >= ((6 * c - 7) * u) * lo) by (nonlinear_arith)
        requires
            2 * wk >= (6 * c - 7) * u,
            lo > 0,
    ;
    assert(c * (u * nk) <= u * lo) by (nonlinear_arith)
        requires
            c * nk <= u,
            u <= lo,
            u > 0,
    ;
    let m = 6 * (c * c) - 13 * c + 6;
    let b = (2 * c) * tk - m * lo;
    assert(b * u >= 0) by (nonlinear_arith)
        requires
            b == (2 * c) * tk - m * lo,
            m == 6 * (c * c) - 13 * c + 6,
            (2 * c) * (u * tk) >= (c - 1) * ((2 * wk) * lo) - c * (u * nk),
            (2 * wk) * lo >= ((6 * c - 7) * u) * lo,
            c * (u * nk) <= u * lo,
            c > 1,
    ;
    assert(b >= 0) by (nonlinear_arith)
        requires
            b * u >= 0,
            u > 0,
    ;
    assert((0x40_0000_0000_0000 * k) * ts == 0x40_0000_0000_0000 * tk) by (nonlinear_arith)
        requires
            tk == ts * k,
    ;
}

/// The sum of the terms, rounded.
proof fn lemma_average(n: int, ts: int, b: int, lo: int, hi: int)
    requires
        0 <= n <= 0x8_0000_0000_0000,
        0 <= ts,
        0 <= lo,
        0 <= hi,
        (0x40_0000_0000_0000 * (0x20_0000_0000_0000 - n)) * ts <= (2 * (0x20_0000_0000_0000int
            * 0x20_0000_0000_0000) + 5 * 0x20_0000_0000_0000 + 4) * hi,
        (0x40_0000_0000_0000 * (3 * 0x20_0000_0000_0000int + 4 * n)) * ts >= (6 * (
        0x20_0000_0000_0000int * 0x20_0000_0000_0000) - 13 * 0x20_0000_0000_0000 + 6) * lo,
        (3 * 0x20_0000_0000_0000int) * b <= (3 * 0x20_0000_0000_0000int + 4 * n) * ts,
        0x20_0000_0000_0000 * b >= (0x20_0000_0000_0000 - n) * ts,
    ensures
        0x20_0000_0000_0000 * b <= (0x20_0000_0000_0000 + 4 * n + 8) * hi,
        0x20_0000_0000_0000 * b >= (0x20_0000_0000_0000 - 4 * n - 8) * lo,
{
    let c: int = 0x20_0000_0000_0000;
    let j = 3 * c + 4 * n;
    let k = c - n;
    let m = 2 * (c * c) + 5 * c + 4;
    let l = 6 * (c * c) - 13 * c + 6;
    let cb = c * b;
    let kk = (2 * c) * k;
    let jj = (2 * c) * j;
    assert(0 <= n * n <= 0x8_0000_0000_0000 * n) by (nonlinear_arith)
        requires
            0 <= n <= 0x8_0000_0000_0000,
    ;
    // above
    assert(kk * (3 * cb) <= j * (m * hi)) by (nonlinear_arith)
        requires
            3 * cb <= j * ts,
            kk * ts <= m * hi,
            kk > 0,
            j > 0,
    ;
    assert(j * m <= kk * (3 * (c + 4 * n + 8))) by (nonlinear_arith)
        requires
            j == 3 * c + 4 * n,
            kk == (2 * c) * (c - n),
            m == 2 * (c * c) + 5 * c + 4,
            c == 0x20_0000_0000_0000,
            0 <= n * n <= 0x8_0000_0000_0000 * n,
            0 <= n <= 0x8_0000_0000_0000,
    ;
    let x = (c + 4 * n + 8) * hi;
    assert(kk * (3 * cb) <= kk * (3 * x)) by (nonlinear_arith)
        requires
            kk * (3 * cb) <= j * (m * hi),
            j * m <= kk * (3 * (c + 4 * n + 8)),
            x == (c + 4 * n + 8) * hi,
            hi >= 0,
    ;
    assert(cb <= x) by (nonlinear_arith)
        requires
            kk * (3 * cb) <= kk * (3 * x),
            kk > 0,
    ;
    // below
    assert(jj * cb >= k * (l * lo)) by (nonlinear_arith)
        requires
            cb >= k * ts,
            jj * ts >= l * lo,
            jj > 0,
            k > 0,
    ;
    assert(k * l >= jj * (c - 4 * n - 8)) by (nonlinear_arith)
        requires
            k == c - n,
            jj == (2 * c) * (3 * c + 4 * n),
            l == 6 * (c * c) - 13 * c + 6,
            c == 0x20_0000_0000_0000,
            0 <= n * n <= 0x8_0000_0000_0000 * n,
            0 <= n <= 0x8_0000_0000_0000,
    ;
    let y = (c - 4 * n - 8) * lo;
    assert(jj * cb >= jj * y) by (nonlinear_arith)
        requires
            jj * cb >= k * (l * lo),
            k * l >= jj * (c - 4 * n - 8),
            y == (c - 4 * n - 8) * lo,
            lo >= 0,
    ;
    assert(cb >= y) by (nonlinear_arith)
        requires
            jj * cb >= jj * y,
            jj > 0,
    ;
}

/// No amount is above the sum of all.
pub(crate) proof fn lemma_part_of_sum(terms: Seq<Value>, i: int)
    requires
        are_amounts(terms),
        0 <= i < terms.len(),
    ensures
        0 <= terms[i].quanta() <= exact(terms),
        0 <= exact(terms),
    decreases terms.len(),
{
    let front = terms.drop_last();
    let m = terms.len() - 1;
    assert(terms[i] is Fin && terms[m] is Fin);
    assert forall|j: int| 0 <= j < front.len() implies (#[trigger] front[j]) is Fin
        && front[j].quanta() >= 0 by {
        assert(terms[j] is Fin);
    }
    if front.len() > 0 {
        let j = if i < m { i } else { 0 };
        lemma_part_of_sum(front, j);
        assert(front[j] == terms[j]);
    } else {
        assert(exact(front) == 0);
    }
}

/// One leg's share of the collateral, and what it adds.
pub(crate) proof fn lemma_one_share(v: Value, total: Value, lif: Value, lo: nat, hi: nat)
    requires
        v is Fin,
        0 <= v.quanta() <= 2 * total.quanta(),
        positive(total),
        lif is Fin,
        lo <= lif.quanta() <= hi,
        hi <= 0x20_0000_0000_0000 * one_in_quanta(),
    ensures
        ({
            let w = v.over(total);
            let t = w.times(lif);
            &&& w is Fin
            &&& w.quanta() >= 0
            &&& t is Fin
            &&& t.quanta() >= 0
            &&& is_share(
                v,
                w,
                t,
                total.quanta(),
                one_in_quanta() as int,
                lo as int,
                hi as int,
            )
        }),
{
    let u = one_in_quanta();
    let x = v.quanta() as nat;
    let d = total.quanta() as nat;
    let l = lif.quanta() as nat;
    lemma_zero_significant();
    lemma2_to64();
    lemma2_to64_rest();
    lemma_pow2_adds(1, 1074);
    lemma_pow2_adds(54, 1074);
    lemma_pow2_strictly_increases(1075, 2098);
    lemma_pow2_strictly_increases(1128, 2098);
    assert(1 * pow2(1075) == pow2(1075) && 1 * pow2(1128) == pow2(1128));
    lemma_significant(1, 1075);
    lemma_significant(1, 1128);
    // the share
    assert(x * u <= (2 * u) * d) by (nonlinear_arith)
        requires
            x <= 2 * d,
    ;
    lemma_round_le(x * u, d, 2 * u);
    lemma_over_quanta(v, total);
    lemma_scaled_error(x * u, d);
    let w = v.over(total);
    let y = w.quanta() as nat;
    // the term
    let top = 0x40_0000_0000_0000 * u;
    assert(y * l <= top * u) by (nonlinear_arith)
        requires
            y <= 2 * u,
            l <= 0x20_0000_0000_0000 * u,
            top == 0x40_0000_0000_0000 * u,
    ;
    lemma_round_le(y * l, u, top);
    lemma_times_quanta(w, lif);
    lemma_scaled_error(y * l, u);
    assert(y * lo <= y * l && y * l <= y * hi) by (nonlinear_arith)
        requires
            lo <= l <= hi,
    ;
}

/// The blended incentive is an average: it lies between the lowest and the highest incentive
/// of the legs, up to `4 * n + 8` parts in 2 to the power 53 for `n` legs.
pub proof fn law_blended_incentive_is_an_average(
    pos: PositionModel,
    shadow_eth: Value,
    lo: nat,
    hi: nat,
)
    requires
        4 * pos.legs.len() + 16 < 0x20_0000_0000_0000,
        positive(pos.total_collateral(shadow_eth)),
        one_in_quanta() <= lo <= hi <= 0x20_0000_0000_0000 * one_in_quanta(),
        forall|i: int|
            0 <= i < pos.legs.len() ==> {
                let worth = (#[trigger] pos.legs[i]).collateral_value(shadow_eth);
                let lif = pos.legs[i].lif_max();
                &&& worth is Fin
                &&& worth.quanta() >= 0
                &&& lif is Fin
                &&& lo <= lif.quanta() <= hi
            },
    ensures
        ({
            let c = 0x20_0000_0000_0000int;
            let n = pos.legs.len();
            let blended = pos.blended_lif(shadow_eth);
            &&& blended is Fin
            &&& (c - 4 * n - 8) * lo <= c * blended.quanta()
            &&& c * blended.quanta() <= (c + 4 * n + 8) * hi
        }),
{
    let c: int = 0x20_0000_0000_0000;
    let u = one_in_quanta();
    let n = pos.legs.len() as int;
    let total = pos.total_collateral(shadow_eth);
    let v = pos.legs.map_values(|l: LegModel| l.collateral_value(shadow_eth));
    let w = pos.legs.map_values(|l: LegModel| l.collateral_value(shadow_eth).over(total));
    let t = pos.legs.map_values(|l: LegModel| PositionModel::lif_share(l, shadow_eth, total));
    assert(are_amounts(v)) by {
        assert forall|i: int| 0 <= i < v.len() implies (#[trigger] v[i]) is Fin && v[i].quanta()
            >= 0 by {
            assert(v[i] == pos.legs[i].collateral_value(shadow_eth));
        }
    }
    lemma_total_error(v);
    let s = exact(v);
    assert(s <= 2 * total.quanta()) by (nonlinear_arith)
        requires
            c * total.quanta() >= (c - n) * s,
            c == 0x20_0000_0000_0000,
            0 <= n <= 0x8_0000_0000_0000,
            s >= 0,
    ;
    assert forall|i: int| 0 <= i < pos.legs.len() implies ({
        &&& #[trigger] w[i] is Fin
        &&& w[i].quanta() >= 0
        &&& t[i] is Fin
        &&& t[i].quanta() >= 0
        &&& is_share(v[i], w[i], t[i], total.quanta(), u as int, lo as int, hi as int)
    }) by {
        let leg = pos.legs[i];
        lemma_part_of_sum(v, i);
        assert(v[i] == leg.collateral_value(shadow_eth));
        lemma_one_share(v[i], total, leg.lif_max(), lo, hi);
    }
    assert(are_amounts(w));
    assert(are_amounts(t)) by {
        assert forall|i: int| 0 <= i < t.len() implies (#[trigger] t[i]) is Fin && t[i].quanta()
            >= 0 by {
            assert(w[i] is Fin);
        }
    }
    assert(are_shares(v, w, t, total.quanta(), u as int, lo as int, hi as int)) by {
        assert forall|i: int|
            #![trigger v[i]]
            #![trigger w[i]]
            #![trigger t[i]]
            0 <= i < v.len() implies is_share(
            v[i],
            w[i],
            t[i],
            total.quanta(),
            u as int,
            lo as int,
            hi as int,
        ) by {
            assert(w[i] is Fin);
        }
    }
    lemma_shares_together(v, w, t, total.quanta(), u as int, lo as int, hi as int);
    lemma_total_error(t);
    let ts = exact(t);
    lemma2_to64();
    lemma2_to64_rest();
    lemma_pow2_adds(64, 64);
    lemma_pow2_adds(64, 128);
    lemma_pow2_ordered(192, 1074);
    assert(pow2(192) == 0x1_0000_0000_0000_0000_0000_0000_0000_0000_0000_0000_0000_0000)
        by (nonlinear_arith)
        requires
            pow2(192) == pow2(64) * (pow2(64) * pow2(64)),
            pow2(64) == 0x1_0000_0000_0000_0000,
    ;
    lemma_terms_high(n, total.quanta(), s, exact(w), ts, u as int, hi as int);
    lemma_terms_low(n, total.quanta(), s, exact(w), ts, u as int, lo as int);
    assert(ts <= 4 * hi) by (nonlinear_arith)
        requires
            (0x40_0000_0000_0000 * (0x20_0000_0000_0000 - n)) * ts <= (2
                * (0x20_0000_0000_0000int * 0x20_0000_0000_0000) + 5 * 0x20_0000_0000_0000 + 4)
                * hi,
            0 <= n <= 0x8_0000_0000_0000,
            ts >= 0,
            hi >= 0,
    ;
    lemma_pow2_adds(57, 1074);
    lemma_pow2_strictly_increases(1131, 2098);
    lemma_average(n, ts, sum(t).quanta(), lo as int, hi as int);
}

} // verus!
