//! Facts about rounding.

use vstd::arithmetic::mul::*;
use vstd::arithmetic::power2::*;
use vstd::prelude::*;

use crate::binary64::model::{nearest, round_mag, scale};

verus! {

/// `m` is the whole number nearest to `n / d`, and even where it ties.
pub open spec fn is_nearest(n: nat, d: nat, m: nat) -> bool {
    &&& (2 * m - 1) * d <= 2 * n <= (2 * m + 1) * d
    &&& (2 * n == (2 * m - 1) * d || 2 * n == (2 * m + 1) * d) ==> m % 2 == 0
}

pub proof fn lemma_nearest(n: nat, d: nat)
    requires
        d > 0,
    ensures
        is_nearest(n, d, nearest(n, d)),
{
    let q = n / d;
    let r = n % d;
    vstd::arithmetic::div_mod::lemma_fundamental_div_mod(n as int, d as int);
    assert(n == d * q + r);
    assert((2 * q - 1) * d == 2 * (d * q) - d) by (nonlinear_arith);
    assert((2 * q + 1) * d == 2 * (d * q) + d) by (nonlinear_arith);
    assert((2 * (q + 1) - 1) * d == 2 * (d * q) + d) by (nonlinear_arith);
    assert((2 * (q + 1) + 1) * d == 2 * (d * q) + 3 * d) by (nonlinear_arith);
}

pub proof fn lemma_nearest_unique(n: nat, d: nat, m: nat)
    requires
        d > 0,
        is_nearest(n, d, m),
    ensures
        m == nearest(n, d),
{
    lemma_nearest(n, d);
    let w = nearest(n, d);
    if m < w {
        assert((2 * m + 1) * d <= (2 * w - 1) * d) by (nonlinear_arith)
            requires
                m < w,
                d > 0,
        ;
        if m + 1 < w {
            assert((2 * m + 1) * d < (2 * w - 1) * d) by (nonlinear_arith)
                requires
                    m + 1 < w,
                    d > 0,
            ;
        }
    } else if w < m {
        assert((2 * w + 1) * d <= (2 * m - 1) * d) by (nonlinear_arith)
            requires
                w < m,
                d > 0,
        ;
        if w + 1 < m {
            assert((2 * w + 1) * d < (2 * m - 1) * d) by (nonlinear_arith)
                requires
                    w + 1 < m,
                    d > 0,
            ;
        }
    }
}

/// A common factor of both sides does not matter.
pub proof fn lemma_nearest_common(n: nat, d: nat, c: nat)
    requires
        d > 0,
        c > 0,
    ensures
        nearest(n * c, d * c) == nearest(n, d),
{
    lemma_nearest(n, d);
    let m = nearest(n, d);
    assert(d * c > 0) by (nonlinear_arith)
        requires
            d > 0,
            c > 0,
    ;
    assert((2 * m - 1) * (d * c) == ((2 * m - 1) * d) * c) by (nonlinear_arith);
    assert((2 * m + 1) * (d * c) == ((2 * m + 1) * d) * c) by (nonlinear_arith);
    assert(2 * (n * c) == (2 * n) * c) by (nonlinear_arith);
    let lo = (2 * m - 1) * d;
    let hi = (2 * m + 1) * d;
    let x = (2 * n) as int;
    assert(lo * c <= x * c <= hi * c && (x * c == lo * c ==> x == lo) && (x * c == hi * c ==> x
        == hi)) by (nonlinear_arith)
        requires
            lo <= x <= hi,
            c > 0,
    ;
    lemma_nearest_unique(n * c, d * c, m);
}

/// A whole number is its own nearest whole number.
pub proof fn lemma_nearest_exact(m: nat, d: nat)
    requires
        d > 0,
    ensures
        nearest(m * d, d) == m,
{
    assert((2 * m - 1) * d == 2 * (m * d) - d) by (nonlinear_arith);
    assert((2 * m + 1) * d == 2 * (m * d) + d) by (nonlinear_arith);
    lemma_nearest_unique(m * d, d, m);
}

/// Rounding to the nearest whole number keeps the order.
pub proof fn lemma_nearest_ordered(n1: nat, d1: nat, n2: nat, d2: nat)
    requires
        d1 > 0,
        d2 > 0,
        n1 * d2 <= n2 * d1,
    ensures
        nearest(n1, d1) <= nearest(n2, d2),
{
    lemma_nearest(n1, d1);
    lemma_nearest(n2, d2);
    let m1 = nearest(n1, d1);
    let m2 = nearest(n2, d2);
    if m1 > m2 {
        let c: int = (d1 * d2) as int;
        assert(c > 0) by (nonlinear_arith)
            requires
                d1 > 0,
                d2 > 0,
                c == d1 * d2,
        ;
        assert((2 * m1 - 1) * c <= 2 * (n1 * d2)) by (nonlinear_arith)
            requires
                (2 * m1 - 1) * d1 <= 2 * n1,
                c == d1 * d2,
                d2 > 0,
        ;
        assert(2 * (n2 * d1) <= (2 * m2 + 1) * c) by (nonlinear_arith)
            requires
                2 * n2 <= (2 * m2 + 1) * d2,
                c == d1 * d2,
                d1 > 0,
        ;
        assert((2 * m2 + 1) * c <= (2 * m1 - 1) * c) by (nonlinear_arith)
            requires
                m1 > m2,
                c > 0,
        ;
        if m1 > m2 + 1 {
            assert((2 * m2 + 1) * c < (2 * m1 - 1) * c) by (nonlinear_arith)
                requires
                    m1 > m2 + 1,
                    c > 0,
            ;
        }
        assert(2 * (n1 * d2) == (2 * m1 - 1) * c);
        assert((2 * m1 - 1) * d1 == 2 * n1) by (nonlinear_arith)
            requires
                2 * (n1 * d2) == (2 * m1 - 1) * c,
                c == d1 * d2,
                d2 > 0,
        ;
        assert((2 * m2 + 1) * d2 == 2 * n2) by (nonlinear_arith)
            requires
                2 * (n2 * d1) == (2 * m2 + 1) * c,
                c == d1 * d2,
                d1 > 0,
        ;
    }
}

/// The two bounds that a scale keeps.
pub proof fn lemma_scale(n: nat, d: nat)
    requires
        d > 0,
    ensures
        n < d * pow2(53 + scale(n, d)),
        scale(n, d) > 0 ==> d * pow2(52 + scale(n, d)) <= n,
    decreases n - d,
{
    lemma2_to64_rest();
    if n < d * 0x20_0000_0000_0000 {
    } else {
        lemma_scale(n, 2 * d);
        let k = scale(n, 2 * d);
        assert((2 * d) * pow2(53 + k) == d * pow2(53 + (k + 1))) by {
            lemma_pow2_unfold(53 + (k + 1));
            assert((2 * d) * pow2(53 + k) == d * (2 * pow2(53 + k))) by (nonlinear_arith);
        }
        if k > 0 {
            assert((2 * d) * pow2(52 + k) == d * pow2(52 + (k + 1))) by {
                lemma_pow2_unfold(52 + (k + 1));
                assert((2 * d) * pow2(52 + k) == d * (2 * pow2(52 + k))) by (nonlinear_arith);
            }
        } else {
            assert(pow2(53) == 0x20_0000_0000_0000);
            assert(d * pow2(52 + (k + 1)) == d * 0x20_0000_0000_0000);
        }
    }
}

/// Only the scale keeps both bounds.
pub proof fn lemma_scale_unique(n: nat, d: nat, k: nat)
    requires
        d > 0,
        n < d * pow2(53 + k),
        k > 0 ==> d * pow2(52 + k) <= n,
    ensures
        scale(n, d) == k,
{
    lemma_scale(n, d);
    let w = scale(n, d);
    if w < k {
        lemma_pow2_ordered(53 + w, 52 + k);
        lemma_mul_inequality(pow2(53 + w) as int, pow2(52 + k) as int, d as int);
        lemma_mul_is_commutative(pow2(53 + w) as int, d as int);
        lemma_mul_is_commutative(pow2(52 + k) as int, d as int);
    } else if k < w {
        lemma_pow2_ordered(53 + k, 52 + w);
        lemma_mul_inequality(pow2(53 + k) as int, pow2(52 + w) as int, d as int);
        lemma_mul_is_commutative(pow2(53 + k) as int, d as int);
        lemma_mul_is_commutative(pow2(52 + w) as int, d as int);
    }
}

pub proof fn lemma_pow2_ordered(a: nat, b: nat)
    requires
        a <= b,
    ensures
        0 < pow2(a) <= pow2(b),
{
    lemma_pow2_pos(a);
    if a < b {
        lemma_pow2_strictly_increases(a, b);
    }
}

/// A common factor of both sides does not matter to the scale.
pub proof fn lemma_scale_common(n: nat, d: nat, c: nat)
    requires
        d > 0,
        c > 0,
    ensures
        scale(n * c, d * c) == scale(n, d),
{
    lemma_scale(n, d);
    let k = scale(n, d);
    let hi = pow2(53 + k);
    let lo = pow2(52 + k);
    assert(d * c > 0) by (nonlinear_arith)
        requires
            d > 0,
            c > 0,
    ;
    assert(n * c < (d * c) * hi) by (nonlinear_arith)
        requires
            n < d * hi,
            c > 0,
    ;
    if k > 0 {
        assert((d * c) * lo <= n * c) by (nonlinear_arith)
            requires
                d * lo <= n,
                c > 0,
        ;
    }
    lemma_scale_unique(n * c, d * c, k);
}

/// A common factor of both sides does not matter to rounding.
pub proof fn lemma_round_common(n: nat, d: nat, c: nat)
    requires
        d > 0,
        c > 0,
    ensures
        round_mag(n * c, d * c) == round_mag(n, d),
{
    lemma_scale_common(n, d, c);
    let k = scale(n, d);
    lemma_pow2_pos(k);
    lemma_positive_product(d, pow2(k));
    lemma_nearest_common(n, d * pow2(k), c);
    assert((d * c) * pow2(k) == (d * pow2(k)) * c) by (nonlinear_arith);
}

pub proof fn lemma_positive_product(a: nat, b: nat)
    requires
        a > 0,
        b > 0,
    ensures
        a * b > 0,
{
    assert(a * b > 0) by (nonlinear_arith)
        requires
            a > 0,
            b > 0,
    ;
}

/// The significand that rounding keeps: at most 53 bits, or the next power of two,
/// and all 53 of them unless nothing had to be halved.
pub proof fn lemma_round_significand(n: nat, d: nat)
    requires
        d > 0,
    ensures
        nearest(n, d * pow2(scale(n, d))) <= 0x20_0000_0000_0000,
        scale(n, d) > 0 ==> nearest(n, d * pow2(scale(n, d))) >= 0x10_0000_0000_0000,
{
    lemma2_to64_rest();
    lemma_scale(n, d);
    let k = scale(n, d);
    let g = d * pow2(k);
    lemma_pow2_pos(k);
    lemma_positive_product(d, pow2(k));
    lemma_pow2_adds(53, k);
    assert(d * pow2(53 + k) == 0x20_0000_0000_0000 * g) by (nonlinear_arith)
        requires
            pow2(53 + k) == 0x20_0000_0000_0000 * pow2(k),
            g == d * pow2(k),
    ;
    lemma_nearest_exact(0x20_0000_0000_0000, g);
    assert(n * g <= (0x20_0000_0000_0000 * g) * g) by (nonlinear_arith)
        requires
            n <= 0x20_0000_0000_0000 * g,
            g > 0,
    ;
    lemma_nearest_ordered(n, g, 0x20_0000_0000_0000 * g, g);
    if k > 0 {
        lemma_pow2_adds(52, k);
        assert(d * pow2(52 + k) == 0x10_0000_0000_0000 * g) by (nonlinear_arith)
            requires
                pow2(52 + k) == 0x10_0000_0000_0000 * pow2(k),
                g == d * pow2(k),
        ;
        lemma_nearest_exact(0x10_0000_0000_0000, g);
        assert((0x10_0000_0000_0000 * g) * g <= n * g) by (nonlinear_arith)
            requires
                0x10_0000_0000_0000 * g <= n,
                g > 0,
        ;
        lemma_nearest_ordered(0x10_0000_0000_0000 * g, g, n, g);
    }
}

/// Rounding keeps the order.
pub proof fn lemma_round_ordered(n1: nat, d1: nat, n2: nat, d2: nat)
    requires
        d1 > 0,
        d2 > 0,
        n1 * d2 <= n2 * d1,
    ensures
        round_mag(n1, d1) <= round_mag(n2, d2),
{
    let k1 = scale(n1, d1);
    let k2 = scale(n2, d2);
    lemma_scale(n1, d1);
    lemma_scale(n2, d2);
    lemma_pow2_pos(k1);
    lemma_pow2_pos(k2);
    lemma_positive_product(d1, pow2(k1));
    lemma_positive_product(d2, pow2(k2));
    let g1 = d1 * pow2(k1);
    let g2 = d2 * pow2(k2);
    let m1 = nearest(n1, g1);
    let m2 = nearest(n2, g2);
    if k1 == k2 {
        let c = pow2(k1);
        assert(n1 * g2 <= n2 * g1) by (nonlinear_arith)
            requires
                n1 * d2 <= n2 * d1,
                g1 == d1 * c,
                g2 == d2 * c,
                c > 0,
        ;
        lemma_nearest_ordered(n1, g1, n2, g2);
        assert(m1 * c <= m2 * c) by (nonlinear_arith)
            requires
                m1 <= m2,
                c > 0,
        ;
    } else if k1 < k2 {
        lemma_round_significand(n1, d1);
        lemma_round_significand(n2, d2);
        lemma2_to64_rest();
        lemma_pow2_unfold(k1 + 1);
        lemma_pow2_ordered(k1 + 1, k2);
        assert(m1 * pow2(k1) <= m2 * pow2(k2)) by (nonlinear_arith)
            requires
                m1 <= 0x20_0000_0000_0000,
                m2 >= 0x10_0000_0000_0000,
                pow2(k1 + 1) == 2 * pow2(k1),
                pow2(k1 + 1) <= pow2(k2),
                pow2(k1) > 0,
        ;
    } else {
        // n2 / d2 < 2^(53 + k2) <= 2^(52 + k1) <= n1 / d1
        let hi = pow2(53 + k2);
        let lo = pow2(52 + k1);
        lemma_pow2_ordered(53 + k2, 52 + k1);
        assert(false) by (nonlinear_arith)
            requires
                n1 * d2 <= n2 * d1,
                n2 < d2 * hi,
                d1 * lo <= n1,
                hi <= lo,
                d1 > 0,
                d2 > 0,
        ;
    }
}

/// A magnitude of 53 bits and a power of two is left as it is.
pub proof fn lemma_round_exact(m: nat, e: nat, d: nat)
    requires
        m <= 0x20_0000_0000_0000,
        d > 0,
    ensures
        round_mag((m * pow2(e)) * d, d) == m * pow2(e),
{
    let x = m * pow2(e);
    let n = x * d;
    let k = scale(n, d);
    lemma_scale(n, d);
    lemma2_to64_rest();
    lemma_pow2_pos(e);
    lemma_pow2_pos(k);
    lemma_positive_product(d, pow2(k));
    let g = d * pow2(k);
    if k <= e {
        let f = (e - k) as nat;
        lemma_pow2_adds(f, k);
        let w = m * pow2(f);
        assert(n == w * g) by (nonlinear_arith)
            requires
                n == x * d,
                x == m * pow2(e),
                pow2(e) == pow2(f) * pow2(k),
                w == m * pow2(f),
                g == d * pow2(k),
        ;
        lemma_nearest_exact(w, g);
        assert(w * pow2(k) == x) by (nonlinear_arith)
            requires
                x == m * pow2(e),
                pow2(e) == pow2(f) * pow2(k),
                w == m * pow2(f),
        ;
    } else {
        // d * 2^(52 + k) <= m * 2^e * d <= 2^(53 + e) * d, so k == e + 1 and m == 2^53
        lemma_pow2_adds(53, e);
        lemma_pow2_ordered(53 + e, 52 + k);
        let lo = pow2(52 + k);
        let hi = pow2(53 + e);
        assert(x <= hi) by (nonlinear_arith)
            requires
                x == m * pow2(e),
                m <= 0x20_0000_0000_0000,
                hi == 0x20_0000_0000_0000 * pow2(e),
                pow2(e) > 0,
        ;
        assert(lo <= x) by (nonlinear_arith)
            requires
                d * lo <= n,
                n == x * d,
                d > 0,
        ;
        if k > e + 1 {
            lemma_pow2_strictly_increases(53 + e, 52 + k);
        }
        assert(k == e + 1);
        assert(m == 0x20_0000_0000_0000) by (nonlinear_arith)
            requires
                x == m * pow2(e),
                x == 0x20_0000_0000_0000 * pow2(e),
                pow2(e) > 0,
        ;
        lemma_pow2_unfold(k);
        let w: nat = 0x10_0000_0000_0000;
        assert(n == w * g) by (nonlinear_arith)
            requires
                n == x * d,
                x == 0x20_0000_0000_0000 * pow2(e),
                pow2(k) == 2 * pow2(e),
                w == 0x10_0000_0000_0000,
                g == d * pow2(k),
        ;
        lemma_nearest_exact(w, g);
        assert(w * pow2(k) == x) by (nonlinear_arith)
            requires
                x == 0x20_0000_0000_0000 * pow2(e),
                pow2(k) == 2 * pow2(e),
                w == 0x10_0000_0000_0000,
        ;
    }
}

/// Where a value lies strictly between `p - 1` and `p + 1` steps, `p` being odd and of
/// at least 56 bits, it rounds as `p` steps do. A step is `2^up / 2^down` quanta, one
/// of the two exponents being zero.
pub proof fn lemma_round_sticky(n: nat, d: nat, p: nat, up: nat, down: nat)
    requires
        d > 0,
        up == 0 || down == 0,
        p % 2 == 1,
        p >= 0x80_0000_0000_0000,
        ((p - 1) * pow2(up)) * d < n * pow2(down),
        n * pow2(down) < ((p + 1) * pow2(up)) * d,
    ensures
        round_mag(n, d) == round_mag(p * pow2(up), pow2(down)),
{
    let a = pow2(up);
    let b = pow2(down);
    let k = scale(p * a, b);
    lemma_pow2_pos(up);
    lemma_pow2_pos(down);
    lemma_pow2_pos(k);
    lemma2_to64_rest();
    lemma_scale(p * a, b);
    // p * 2^up < 2^(53 + k + down) and p >= 2^55, so 2^55 * 2^up < 2^(53 + k + down)
    lemma_pow2_adds(53 + k, down);
    lemma_pow2_adds(55, up);
    assert(pow2(55 + up) < pow2(53 + k + down)) by (nonlinear_arith)
        requires
            p * a < b * pow2(53 + k),
            p >= 0x80_0000_0000_0000,
            pow2(55 + up) == 0x80_0000_0000_0000 * a,
            pow2(53 + k + down) == pow2(53 + k) * b,
            a > 0,
    ;
    if 55 + up >= 53 + k + down {
        lemma_pow2_ordered(53 + k + down, 55 + up);
    }
    assert(k + down >= up + 3);
    let s = (k + down - up) as nat;
    lemma_pow2_adds(s, up);
    lemma_pow2_adds(k, down);
    lemma_pow2_unfold(s);
    let half = pow2((s - 1) as nat);
    lemma_pow2_unfold((s - 1) as nat);
    lemma_pow2_pos((s - 2) as nat);
    let quarter = pow2((s - 2) as nat);
    assert(half == 2 * quarter);
    // a granule is 2 * half steps
    assert(b * pow2(k) == (2 * half) * a) by (nonlinear_arith)
        requires
            pow2(s + up) == pow2(s) * a,
            pow2(k + down) == pow2(k) * b,
            s + up == k + down,
            pow2(s) == 2 * half,
    ;
    let g = d * pow2(k);
    lemma_positive_product(d, pow2(k));
    lemma_positive_product(b, pow2(k));
    // comparing with a multiple of half a granule
    assert forall|t: int| #![trigger t * half] t * half <= p implies (t * g) < 2 * n by {
        lemma_sticky_below(n, d, p, a, b, k, half, quarter, t);
    }
    assert forall|t: int| #![trigger t * half] p <= t * half implies 2 * n < (t * g) by {
        lemma_sticky_above(n, d, p, a, b, k, half, quarter, t);
    }
    // the scale is the same
    let top = pow2(53 + k);
    lemma_pow2_adds(53, k);
    assert(d * top == 0x20_0000_0000_0000 * g) by (nonlinear_arith)
        requires
            top == 0x20_0000_0000_0000 * pow2(k),
            g == d * pow2(k),
    ;
    assert(p <= (2 * 0x20_0000_0000_0000) * half) by (nonlinear_arith)
        requires
            p * a < b * top,
            top == 0x20_0000_0000_0000 * pow2(k),
            b * pow2(k) == (2 * half) * a,
            a > 0,
    ;
    let t1: int = 0x40_0000_0000_0000;
    assert(p <= t1 * half);
    assert(2 * n < t1 * g);
    assert(n < d * top);
    if k > 0 {
        let low = pow2(52 + k);
        lemma_pow2_adds(52, k);
        assert(d * low == 0x10_0000_0000_0000 * g) by (nonlinear_arith)
            requires
                low == 0x10_0000_0000_0000 * pow2(k),
                g == d * pow2(k),
        ;
        assert((2 * 0x10_0000_0000_0000) * half <= p) by (nonlinear_arith)
            requires
                b * low <= p * a,
                low == 0x10_0000_0000_0000 * pow2(k),
                b * pow2(k) == (2 * half) * a,
                a > 0,
        ;
        let t2: int = 0x20_0000_0000_0000;
        assert(t2 * half <= p);
        assert(t2 * g < 2 * n);
    }
    lemma_scale_unique(n, d, k);
    // and so is the nearest multiple
    let h = b * pow2(k);
    let m = nearest(p * a, h);
    lemma_nearest(p * a, h);
    assert((2 * m - 1) * half <= p) by (nonlinear_arith)
        requires
            (2 * m - 1) * h <= 2 * (p * a),
            h == (2 * half) * a,
            a > 0,
    ;
    assert(p <= (2 * m + 1) * half) by (nonlinear_arith)
        requires
            2 * (p * a) <= (2 * m + 1) * h,
            h == (2 * half) * a,
            a > 0,
    ;
    assert((2 * m - 1) * g < 2 * n);
    assert(2 * n < (2 * m + 1) * g);
    lemma_nearest_unique(n, g, m);
}

proof fn lemma_sticky_below(
    n: nat,
    d: nat,
    p: nat,
    a: nat,
    b: nat,
    k: nat,
    half: nat,
    quarter: nat,
    t: int,
)
    requires
        d > 0,
        a > 0,
        b > 0,
        p % 2 == 1,
        ((p - 1) * a) * d < n * b,
        b * pow2(k) == (2 * half) * a,
        half == 2 * quarter,
        t * half <= p,
    ensures
        t * (d * pow2(k)) < 2 * n,
{
    assert(t * half == 2 * (t * quarter)) by (nonlinear_arith)
        requires
            half == 2 * quarter,
    ;
    assert(t * half <= p - 1);
    let g = d * pow2(k);
    // t * g * b == t * 2 * half * a * d <= 2 * (p - 1) * a * d < 2 * n * b
    assert((t * g) * b == (2 * (t * half)) * (a * d)) by (nonlinear_arith)
        requires
            g == d * pow2(k),
            b * pow2(k) == (2 * half) * a,
    ;
    assert((2 * (t * half)) * (a * d) <= (2 * (p - 1)) * (a * d)) by (nonlinear_arith)
        requires
            t * half <= p - 1,
            a > 0,
            d > 0,
    ;
    assert((2 * (p - 1)) * (a * d) == 2 * (((p - 1) * a) * d)) by (nonlinear_arith);
    assert((t * g) < 2 * n) by (nonlinear_arith)
        requires
            (t * g) * b < 2 * (n * b),
            b > 0,
    ;
}

proof fn lemma_sticky_above(
    n: nat,
    d: nat,
    p: nat,
    a: nat,
    b: nat,
    k: nat,
    half: nat,
    quarter: nat,
    t: int,
)
    requires
        d > 0,
        a > 0,
        b > 0,
        p % 2 == 1,
        n * b < ((p + 1) * a) * d,
        b * pow2(k) == (2 * half) * a,
        half == 2 * quarter,
        p <= t * half,
    ensures
        2 * n < t * (d * pow2(k)),
{
    assert(t * half == 2 * (t * quarter)) by (nonlinear_arith)
        requires
            half == 2 * quarter,
    ;
    assert(p + 1 <= t * half);
    let g = d * pow2(k);
    assert((t * g) * b == (2 * (t * half)) * (a * d)) by (nonlinear_arith)
        requires
            g == d * pow2(k),
            b * pow2(k) == (2 * half) * a,
    ;
    assert((2 * (p + 1)) * (a * d) <= (2 * (t * half)) * (a * d)) by (nonlinear_arith)
        requires
            p + 1 <= t * half,
            a > 0,
            d > 0,
    ;
    assert((2 * (p + 1)) * (a * d) == 2 * (((p + 1) * a) * d)) by (nonlinear_arith);
    assert(2 * n < (t * g)) by (nonlinear_arith)
        requires
            2 * (n * b) < (t * g) * b,
            b > 0,
    ;
}

} // verus!
