//! What the operations keep: order, sign, bounds, and how far a result can be off.

use vstd::arithmetic::div_mod::lemma_fundamental_div_mod;
use vstd::arithmetic::mul::*;
use vstd::arithmetic::power2::*;
use vstd::prelude::*;

use crate::binary64::model::{
    decode, nearest, one_in_quanta, overflow_bound, representable, round_mag, scale, significant,
    highest, sum, Value,
};
use crate::binary64::rounding::{
    lemma_nearest, lemma_positive_product, lemma_pow2_ordered, lemma_round_exact,
    lemma_round_ordered, lemma_round_significand, lemma_scale, lemma_scale_unique,
};

verus! {

/// A magnitude of 53 bits is left as it is.
pub proof fn lemma_round_keeps(x: nat, d: nat)
    requires
        significant(x),
        d > 0,
    ensures
        round_mag(x * d, d) == x,
{
    let (m, k) = choose|m: nat, k: nat|
        m < 0x20_0000_0000_0000 && x == #[trigger] (m * pow2(k));
    lemma_round_exact(m, k, d);
}

/// What is not above a magnitude of 53 bits does not round above it.
pub proof fn lemma_round_le(n: nat, d: nat, hi: nat)
    requires
        d > 0,
        significant(hi),
        n <= hi * d,
    ensures
        round_mag(n, d) <= hi,
{
    lemma_round_keeps(hi, d);
    assert(n * d <= (hi * d) * d) by (nonlinear_arith)
        requires
            n <= hi * d,
            d > 0,
    ;
    lemma_round_ordered(n, d, hi * d, d);
}

/// What is not below a magnitude of 53 bits does not round below it.
pub proof fn lemma_round_ge(n: nat, d: nat, lo: nat)
    requires
        d > 0,
        significant(lo),
        lo * d <= n,
    ensures
        lo <= round_mag(n, d),
{
    lemma_round_keeps(lo, d);
    assert((lo * d) * d <= n * d) by (nonlinear_arith)
        requires
            lo * d <= n,
            d > 0,
    ;
    lemma_round_ordered(lo * d, d, n, d);
}

/// Rounding leaves at most 53 bits.
pub proof fn lemma_round_significant(n: nat, d: nat)
    requires
        d > 0,
    ensures
        significant(round_mag(n, d)),
{
    lemma_round_significand(n, d);
    let k = scale(n, d);
    let m = nearest(n, d * pow2(k));
    if m == 0x20_0000_0000_0000 {
        lemma_pow2_unfold(k + 1);
        assert(m * pow2(k) == 0x10_0000_0000_0000 * pow2(k + 1)) by (nonlinear_arith)
            requires
                m == 0x20_0000_0000_0000,
                pow2(k + 1) == 2 * pow2(k),
        ;
    }
}

/// A small whole number times a power of two has 53 bits.
pub proof fn lemma_significant(m: nat, k: nat)
    requires
        m < 0x20_0000_0000_0000,
    ensures
        significant(m * pow2(k)),
{
}

/// How far rounding can be off: by half a quantum where the value is below 2 to the power
/// 53, and by one part in 2 to the power 53 where it is not.
pub proof fn lemma_round_error(n: nat, d: nat)
    requires
        d > 0,
    ensures
        n < d * 0x20_0000_0000_0000 ==> {
            &&& 2 * (round_mag(n, d) * d - n) <= d
            &&& 2 * (n - round_mag(n, d) * d) <= d
        },
        n >= d * 0x20_0000_0000_0000 ==> {
            &&& 0x20_0000_0000_0000 * (round_mag(n, d) * d - n) <= n
            &&& 0x20_0000_0000_0000 * (n - round_mag(n, d) * d) <= n
        },
{
    let k = scale(n, d);
    let g = d * pow2(k);
    lemma_pow2_pos(k);
    lemma_positive_product(d, pow2(k));
    let m = nearest(n, g);
    lemma_nearest(n, g);
    let r = round_mag(n, d);
    assert(r * d == m * g) by (nonlinear_arith)
        requires
            r == m * pow2(k),
            g == d * pow2(k),
    ;
    assert((2 * m - 1) * g == 2 * (m * g) - g) by (nonlinear_arith);
    assert((2 * m + 1) * g == 2 * (m * g) + g) by (nonlinear_arith);
    lemma2_to64();
    lemma2_to64_rest();
    if n < d * 0x20_0000_0000_0000 {
        assert(k == 0);
        assert(g == d) by (nonlinear_arith)
            requires
                g == d * pow2(k),
                pow2(k) == 1,
        ;
    } else {
        assert(k > 0);
        lemma_scale(n, d);
        lemma_pow2_adds(52, k);
        assert(0x10_0000_0000_0000 * g <= n) by (nonlinear_arith)
            requires
                d * pow2(52 + k) <= n,
                pow2(52 + k) == 0x10_0000_0000_0000 * pow2(k),
                g == d * pow2(k),
        ;
    }
}

/// No double is nearer to `n / d` than the one that it is rounded to.
pub proof fn law_round_is_nearest(n: nat, d: nat, y: nat)
    requires
        d > 0,
        significant(y),
    ensures
        ({
            let r = round_mag(n, d);
            let off = if r * d >= n { r * d - n } else { n - r * d };
            let other = if y * d >= n { y * d - n } else { n - y * d };
            off <= other
        }),
{
    let r = round_mag(n, d);
    let k = scale(n, d);
    let g = d * pow2(k);
    let m = nearest(n, g);
    lemma_pow2_pos(k);
    lemma_positive_product(d, pow2(k));
    lemma_nearest(n, g);
    lemma_round_significand(n, d);
    assert(r * d == m * g) by (nonlinear_arith)
        requires
            r == m * pow2(k),
            g == d * pow2(k),
    ;
    assert((2 * m - 1) * g == 2 * (m * g) - g) by (nonlinear_arith);
    assert((2 * m + 1) * g == 2 * (m * g) + g) by (nonlinear_arith);
    if y * d >= n && r * d < n {
        // m * g < n <= y * d, and 2 * n <= 2 * m * g + g
        lemma_next_multiple_above(n, d, y);
    } else if y * d < n && r * d >= n {
        lemma_next_multiple_below(n, d, y);
    } else if y * d >= n {
        // both above: rounding keeps the order
        lemma_round_le(n, d, y);
        assert(r * d <= y * d) by (nonlinear_arith)
            requires
                r <= y,
        ;
    } else {
        lemma_round_ge(n, d, y);
        assert(y * d <= r * d) by (nonlinear_arith)
            requires
                y <= r,
        ;
    }
}

proof fn lemma_next_multiple_above(n: nat, d: nat, y: nat)
    requires
        d > 0,
        significant(y),
        y * d >= n,
        round_mag(n, d) * d < n,
    ensures
        n - round_mag(n, d) * d <= y * d - n,
{
    let r = round_mag(n, d);
    let k = scale(n, d);
    let g = d * pow2(k);
    let m = nearest(n, g);
    lemma_pow2_pos(k);
    lemma_positive_product(d, pow2(k));
    lemma_nearest(n, g);
    assert(r * d == m * g) by (nonlinear_arith)
        requires
            r == m * pow2(k),
            g == d * pow2(k),
    ;
    assert((2 * m + 1) * g == 2 * (m * g) + g) by (nonlinear_arith);
    // y >= (m + 1) * 2^k
    lemma_scale(n, d);
    lemma2_to64_rest();
    let (my, ky) = choose|my: nat, ky: nat|
        my < 0x20_0000_0000_0000 && y == #[trigger] (my * pow2(ky));
    lemma_pow2_pos(ky);
    assert(y > r) by (nonlinear_arith)
        requires
            y * d >= n,
            r * d < n,
            d > 0,
    ;
    if ky < k {
        // then y < 2^(53 + ky) <= 2^(52 + k) <= n / d
        lemma_pow2_adds(53, ky);
        lemma_pow2_ordered(53 + ky, 52 + k);
        assert(y < pow2(53 + ky)) by (nonlinear_arith)
            requires
                y == my * pow2(ky),
                my < 0x20_0000_0000_0000,
                pow2(53 + ky) == 0x20_0000_0000_0000 * pow2(ky),
                pow2(ky) > 0,
        ;
        assert(y * d < n) by (nonlinear_arith)
            requires
                y < pow2(53 + ky),
                pow2(53 + ky) <= pow2(52 + k),
                d * pow2(52 + k) <= n,
                d > 0,
        ;
        assert(false);
    }
    let f = (ky - k) as nat;
    lemma_pow2_adds(f, k);
    let w = my * pow2(f);
    assert(y == w * pow2(k)) by (nonlinear_arith)
        requires
            y == my * pow2(ky),
            pow2(ky) == pow2(f) * pow2(k),
            w == my * pow2(f),
    ;
    assert(w > m) by (nonlinear_arith)
        requires
            w * pow2(k) > m * pow2(k),
            pow2(k) > 0,
    ;
    assert(y * d >= m * g + g) by (nonlinear_arith)
        requires
            y == w * pow2(k),
            w >= m + 1,
            g == d * pow2(k),
            g > 0,
    ;
}

proof fn lemma_next_multiple_below(n: nat, d: nat, y: nat)
    requires
        d > 0,
        significant(y),
        y * d < n,
        round_mag(n, d) * d >= n,
    ensures
        round_mag(n, d) * d - n <= n - y * d,
{
    let r = round_mag(n, d);
    let k = scale(n, d);
    let g = d * pow2(k);
    let m = nearest(n, g);
    lemma_pow2_pos(k);
    lemma_positive_product(d, pow2(k));
    lemma_nearest(n, g);
    lemma_round_significand(n, d);
    assert(r * d == m * g) by (nonlinear_arith)
        requires
            r == m * pow2(k),
            g == d * pow2(k),
    ;
    assert((2 * m - 1) * g == 2 * (m * g) - g) by (nonlinear_arith);
    lemma2_to64_rest();
    lemma_scale(n, d);
    let (my, ky) = choose|my: nat, ky: nat|
        my < 0x20_0000_0000_0000 && y == #[trigger] (my * pow2(ky));
    lemma_pow2_pos(ky);
    assert(y < r) by (nonlinear_arith)
        requires
            y * d < n,
            n <= r * d,
            d > 0,
    ;
    // y <= (m - 1) * 2^k, or y is below the smallest multiple with 53 bits
    if ky >= k {
        let f = (ky - k) as nat;
        lemma_pow2_adds(f, k);
        let w = my * pow2(f);
        assert(y == w * pow2(k)) by (nonlinear_arith)
            requires
                y == my * pow2(ky),
                pow2(ky) == pow2(f) * pow2(k),
                w == my * pow2(f),
        ;
        assert(w < m) by (nonlinear_arith)
            requires
                w * pow2(k) < m * pow2(k),
                pow2(k) > 0,
        ;
        assert(y * d <= m * g - g) by (nonlinear_arith)
            requires
                y == w * pow2(k),
                w + 1 <= m,
                g == d * pow2(k),
                g > 0,
        ;
    } else {
        // y < 2^(52 + k) <= n / d, so m * g > 2^52 * g or m * g == n
        lemma_pow2_adds(53, ky);
        lemma_pow2_adds(52, k);
        lemma_pow2_ordered(53 + ky, 52 + k);
        assert(y < pow2(52 + k)) by (nonlinear_arith)
            requires
                y == my * pow2(ky),
                my < 0x20_0000_0000_0000,
                pow2(53 + ky) == 0x20_0000_0000_0000 * pow2(ky),
                pow2(53 + ky) <= pow2(52 + k),
                pow2(ky) > 0,
        ;
        if m == 0x10_0000_0000_0000 {
            assert(m * g == d * pow2(52 + k)) by (nonlinear_arith)
                requires
                    m == 0x10_0000_0000_0000,
                    g == d * pow2(k),
                    pow2(52 + k) == 0x10_0000_0000_0000 * pow2(k),
            ;
        } else {
            assert(y * d <= m * g - g) by (nonlinear_arith)
                requires
                    y < pow2(52 + k),
                    pow2(52 + k) == 0x10_0000_0000_0000 * pow2(k),
                    m >= 0x10_0000_0000_0001,
                    g == d * pow2(k),
                    d > 0,
                    pow2(k) > 0,
            ;
        }
    }
}

/// What 64 bits encode is a double.
pub proof fn lemma_decode_is_double(bits: u64)
    ensures
        decode(bits).is_double(),
{
    let exponent = (bits / 0x10_0000_0000_0000) % 0x800;
    let fraction = bits % 0x10_0000_0000_0000;
    lemma2_to64();
    lemma2_to64_rest();
    if exponent == 0x7ff {
    } else if exponent == 0 {
        lemma_pow2_ordered(52, 2098);
        assert(fraction as nat * pow2(0) == fraction) by (nonlinear_arith)
            requires
                pow2(0) == 1,
        ;
        lemma_significant(fraction as nat, 0);
    } else {
        let k = (exponent - 1) as nat;
        let m = (0x10_0000_0000_0000 + fraction) as nat;
        lemma_significant(m, k);
        lemma_pow2_adds(53, k);
        lemma_pow2_ordered(53 + k, 2098);
        lemma_pow2_pos(k);
        assert(m * pow2(k) < 0x20_0000_0000_0000 * pow2(k)) by (nonlinear_arith)
            requires
                m < 0x20_0000_0000_0000,
                pow2(k) > 0,
        ;
    }
}

/// What is rounded is a double.
pub proof fn lemma_round_is_double(neg: bool, n: nat, d: nat)
    requires
        d > 0,
    ensures
        Value::round(neg, n, d).is_double(),
        !(Value::round(neg, n, d) is Nan),
{
    lemma_round_significant(n, d);
}

pub proof fn lemma_zero_significant()
    ensures
        significant(0),
        representable(0),
        significant(1),
        significant(one_in_quanta()),
        representable(one_in_quanta()),
        one_in_quanta() > 0,
{
    lemma2_to64();
    lemma_pow2_pos(1074);
    lemma_pow2_strictly_increases(1074, 2098);
    assert(0 * pow2(0) == 0) by (nonlinear_arith);
    lemma_significant(0, 0);
    assert(1 * pow2(0) == 1) by (nonlinear_arith)
        requires
            pow2(0) == 1,
    ;
    lemma_significant(1, 0);
    assert(1 * pow2(1074) == pow2(1074)) by (nonlinear_arith);
    lemma_significant(1, 1074);
}

/// The operations on doubles give doubles.
pub proof fn lemma_results_are_doubles(a: Value, b: Value)
    requires
        a.is_double(),
        b.is_double(),
    ensures
        a.negated().is_double(),
        a.plus(b).is_double(),
        a.minus(b).is_double(),
        a.times(b).is_double(),
        a.over(b).is_double(),
        a.modulo(b).is_double(),
        a.max(b).is_double(),
        a.min(b).is_double(),
{
    lemma_zero_significant();
    lemma_sum_is_double(a, b);
    lemma_sum_is_double(a, b.negated());
    match (a, b) {
        (Value::Fin { neg: na, mag: x }, Value::Fin { neg: nb, mag: y }) => {
            lemma_round_is_double(na != nb, x * y, one_in_quanta());
            if y > 0 {
                lemma_round_is_double(na != nb, x * one_in_quanta(), y);
                lemma_remainder_significant(x, y);
                assert(x % y <= x) by (nonlinear_arith)
                    requires
                        y > 0,
                ;
            }
        },
        _ => {},
    }
}

/// A sum is a double.
pub proof fn lemma_sum_is_double(a: Value, b: Value)
    ensures
        a.plus(b).is_double(),
{
    lemma_zero_significant();
    if a is Fin && b is Fin {
        let s = a.quanta() + b.quanta();
        if s < 0 {
            lemma_round_is_double(true, (-s) as nat, 1);
        } else {
            lemma_round_is_double(false, s as nat, 1);
        }
    }
}

/// What is left of a double once another has been taken away as often as it fits.
proof fn lemma_remainder_significant(x: nat, y: nat)
    requires
        significant(x),
        significant(y),
        y > 0,
    ensures
        significant(x % y),
{
    let (ma, ka) = choose|ma: nat, ka: nat|
        ma < 0x20_0000_0000_0000 && x == #[trigger] (ma * pow2(ka));
    let (mb, kb) = choose|mb: nat, kb: nat|
        mb < 0x20_0000_0000_0000 && y == #[trigger] (mb * pow2(kb));
    let k = if ka < kb { ka } else { kb };
    let fa = (ka - k) as nat;
    let fb = (kb - k) as nat;
    lemma_pow2_adds(fa, k);
    lemma_pow2_adds(fb, k);
    lemma_pow2_pos(k);
    lemma_pow2_pos(fa);
    lemma_pow2_pos(fb);
    let wa = ma * pow2(fa);
    let wb = mb * pow2(fb);
    assert(x == pow2(k) * wa) by (nonlinear_arith)
        requires
            x == ma * pow2(ka),
            pow2(ka) == pow2(fa) * pow2(k),
            wa == ma * pow2(fa),
    ;
    assert(y == pow2(k) * wb) by (nonlinear_arith)
        requires
            y == mb * pow2(kb),
            pow2(kb) == pow2(fb) * pow2(k),
            wb == mb * pow2(fb),
    ;
    assert(wb > 0) by (nonlinear_arith)
        requires
            y == pow2(k) * wb,
            y > 0,
    ;
    vstd::arithmetic::div_mod::lemma_truncate_middle(wa as int, pow2(k) as int, wb as int);
    let r = wa % wb;
    assert(x % y == r * pow2(k)) by (nonlinear_arith)
        requires
            x % y == pow2(k) * r,
    ;
    lemma2_to64();
    if ka <= kb {
        // wa == ma, so what is left of it is no larger
        assert(wa == ma) by (nonlinear_arith)
            requires
                wa == ma * pow2(fa),
                pow2(fa) == 1,
        ;
        assert(r <= wa) by (nonlinear_arith)
            requires
                r == wa % wb,
                wb > 0,
        ;
    } else {
        assert(wb == mb) by (nonlinear_arith)
            requires
                wb == mb * pow2(fb),
                pow2(fb) == 1,
        ;
    }
    lemma_significant(r, k);
}

/// A quotient of two doubles is above one exactly where the first is the larger.
pub proof fn lemma_quotient_above_one(x: nat, y: nat)
    requires
        significant(x),
        significant(y),
        y > 0,
    ensures
        x <= y ==> round_mag(x * one_in_quanta(), y) <= one_in_quanta(),
        x > y ==> round_mag(x * one_in_quanta(), y) > one_in_quanta(),
{
    let one = one_in_quanta();
    let n = x * one;
    lemma_zero_significant();
    lemma2_to64();
    lemma2_to64_rest();
    if x <= y {
        assert(n <= one * y) by (nonlinear_arith)
            requires
                n == x * one,
                x <= y,
        ;
        lemma_round_le(n, y, one);
    } else {
        lemma_next_double(x, y);
        // n / y is more than half a granule above one
        lemma_pow2_adds(52, 1022);
        lemma_pow2_adds(53, 1022);
        lemma_pow2_pos(1022);
        let g = y * pow2(1022);
        lemma_positive_product(y, pow2(1022));
        let c: nat = 0x20_0000_0000_0000;
        assert(2 * n > (c + 1) * g) by (nonlinear_arith)
            requires
                n == x * one,
                one == 0x10_0000_0000_0000 * pow2(1022),
                g == y * pow2(1022),
                c == 0x20_0000_0000_0000,
                (x - y) * c > y,
                pow2(1022) > 0,
        ;
        if n >= y * pow2(1075) {
            lemma_pow2_strictly_increases(1074, 1075);
            assert(1 * pow2(1075) == pow2(1075)) by (nonlinear_arith);
            lemma_significant(1, 1075);
            assert(pow2(1075) * y == y * pow2(1075)) by (nonlinear_arith);
            lemma_round_ge(n, y, pow2(1075));
        } else {
            assert(y * pow2(1074) <= n) by (nonlinear_arith)
                requires
                    n == x * one,
                    one == pow2(1074),
                    x > y,
            ;
            lemma_scale_unique(n, y, 1022);
            let m = nearest(n, g);
            lemma_nearest(n, g);
            assert(m > 0x10_0000_0000_0000) by (nonlinear_arith)
                requires
                    2 * n <= (2 * m + 1) * g,
                    2 * n > (c + 1) * g,
                    c == 0x20_0000_0000_0000,
                    g > 0,
            ;
            assert(m * pow2(1022) > one) by (nonlinear_arith)
                requires
                    m > 0x10_0000_0000_0000,
                    one == 0x10_0000_0000_0000 * pow2(1022),
                    pow2(1022) > 0,
            ;
        }
    }
}

/// Two doubles that differ are apart by more than one part in 2 to the power 53.
pub proof fn lemma_next_double(x: nat, y: nat)
    requires
        significant(x),
        significant(y),
        x > y,
    ensures
        (x - y) * 0x20_0000_0000_0000 > y,
{
    let (ma, ka) = choose|ma: nat, ka: nat|
        ma < 0x20_0000_0000_0000 && x == #[trigger] (ma * pow2(ka));
    let (mb, kb) = choose|mb: nat, kb: nat|
        mb < 0x20_0000_0000_0000 && y == #[trigger] (mb * pow2(kb));
    let k = if ka < kb { ka } else { kb };
    let fa = (ka - k) as nat;
    let fb = (kb - k) as nat;
    lemma_pow2_adds(fa, k);
    lemma_pow2_adds(fb, k);
    lemma_pow2_pos(k);
    lemma2_to64();
    let wa = ma * pow2(fa);
    let wb = mb * pow2(fb);
    assert(x == wa * pow2(k)) by (nonlinear_arith)
        requires
            x == ma * pow2(ka),
            pow2(ka) == pow2(fa) * pow2(k),
            wa == ma * pow2(fa),
    ;
    assert(y == wb * pow2(k)) by (nonlinear_arith)
        requires
            y == mb * pow2(kb),
            pow2(kb) == pow2(fb) * pow2(k),
            wb == mb * pow2(fb),
    ;
    assert(wa > wb) by (nonlinear_arith)
        requires
            wa * pow2(k) > wb * pow2(k),
            pow2(k) > 0,
    ;
    // the one with the smaller exponent has 53 bits, and the other is the larger or smaller
    assert(wb < 0x20_0000_0000_0000) by {
        if ka <= kb {
            assert(wa == ma) by (nonlinear_arith)
                requires
                    wa == ma * pow2(fa),
                    pow2(fa) == 1,
            ;
        } else {
            assert(wb == mb) by (nonlinear_arith)
                requires
                    wb == mb * pow2(fb),
                    pow2(fb) == 1,
            ;
        }
    }
    assert((x - y) * 0x20_0000_0000_0000 > y) by (nonlinear_arith)
        requires
            x == wa * pow2(k),
            y == wb * pow2(k),
            wa >= wb + 1,
            wb < 0x20_0000_0000_0000,
            pow2(k) > 0,
    ;
}

/// A rounded sum has the sign of the exact one.
pub proof fn lemma_sum_sign(s: int, both_neg: bool)
    ensures
        s > 0 ==> Value::zero().lt(Value::rounded_sum(s, both_neg)),
        s < 0 ==> Value::rounded_sum(s, both_neg).lt(Value::zero()),
        s == 0 ==> Value::rounded_sum(s, both_neg).quanta() == 0 && Value::rounded_sum(
            s,
            both_neg,
        ) is Fin,
        !(Value::rounded_sum(s, both_neg) is Nan),
{
    lemma_zero_significant();
    if s > 0 {
        lemma_round_ge(s as nat, 1, 1);
    } else if s < 0 {
        lemma_round_ge((-s) as nat, 1, 1);
    }
}

/// Where both are numbers, the larger of two is not below either; `le` is a total order.
pub proof fn lemma_order(a: Value, b: Value, c: Value)
    ensures
        a.le(b) && b.le(c) ==> a.le(c),
        a.lt(b) && b.le(c) ==> a.lt(c),
        a.le(b) && b.lt(c) ==> a.lt(c),
        a.lt(b) ==> a.le(b),
        !(a is Nan) && !(b is Nan) ==> a.le(b) || b.lt(a),
        a.lt(b) ==> !b.le(a),
{
}

/// Zero or above.
pub open spec fn nonneg(v: Value) -> bool {
    Value::zero().le(v)
}

/// A finite value above zero.
pub open spec fn positive(v: Value) -> bool {
    v is Fin && v.quanta() > 0
}

/// Multiplying by what is not below zero keeps the order, as far as there is one.
pub proof fn lemma_times_ordered(a: Value, b: Value, r: Value)
    requires
        nonneg(a),
        a.le(b),
        nonneg(r),
    ensures
        !b.times(r).lt(a.times(r)),
        !r.times(b).lt(r.times(a)),
{
    lemma_zero_significant();
    match (a, b, r) {
        (
            Value::Fin { mag: x, .. },
            Value::Fin { mag: y, .. },
            Value::Fin { mag: z, .. },
        ) => {
            let one = one_in_quanta();
            assert(x <= y);
            assert((x * z) * one <= (y * z) * one) by (nonlinear_arith)
                requires
                    x <= y,
            ;
            lemma_round_ordered(x * z, one, y * z, one);
            assert(x * z == z * x && y * z == z * y) by (nonlinear_arith);
            lemma_round_zero(x, z);
            lemma_round_zero(y, z);
        },
        _ => {},
    }
}

/// A product with a zero is zero.
proof fn lemma_round_zero(x: nat, z: nat)
    ensures
        x == 0 || z == 0 ==> round_mag(x * z, one_in_quanta()) == 0,
{
    lemma_zero_significant();
    if x == 0 || z == 0 {
        assert(x * z == 0) by (nonlinear_arith)
            requires
                x == 0 || z == 0,
        ;
        assert(0 * one_in_quanta() == 0);
        lemma_round_keeps(0, one_in_quanta());
    }
}

/// A product of what is above zero, and not a number nowhere, is not below zero.
pub proof fn lemma_times_nonneg(a: Value, r: Value)
    requires
        nonneg(a),
        positive(r),
    ensures
        nonneg(a.times(r)),
        nonneg(r.times(a)),
{
    lemma_zero_significant();
    match (a, r) {
        (Value::Fin { mag: x, .. }, Value::Fin { mag: z, .. }) => {
            lemma_round_zero(x, z);
            lemma_round_zero(z, x);
        },
        _ => {},
    }
}

/// Adding what is not below zero keeps the order.
pub proof fn lemma_plus_ordered(a: Value, b: Value, c: Value, d: Value)
    requires
        nonneg(a),
        nonneg(c),
        a.le(b),
        c.le(d),
    ensures
        nonneg(a.plus(c)),
        a.plus(c).le(b.plus(d)),
{
    lemma_zero_significant();
    match (a, b, c, d) {
        (Value::Fin { .. }, Value::Fin { .. }, Value::Fin { .. }, Value::Fin { .. }) => {
            let s = a.quanta() + c.quanta();
            let t = b.quanta() + d.quanta();
            assert(0 <= s <= t);
            lemma_round_ordered(s as nat, 1, t as nat, 1);
            lemma_round_keeps(0, 1);
        },
        _ => {},
    }
}

/// A quotient by what is above zero keeps the order, as far as there is one.
pub proof fn lemma_over_ordered(a: Value, b: Value, r: Value)
    requires
        nonneg(a),
        a.le(b),
        positive(r),
    ensures
        nonneg(a.over(r)),
        a.over(r).le(b.over(r)),
{
    lemma_zero_significant();
    match (a, b, r) {
        (
            Value::Fin { mag: x, .. },
            Value::Fin { mag: y, .. },
            Value::Fin { mag: z, .. },
        ) => {
            let one = one_in_quanta();
            assert((x * one) * z <= (y * one) * z) by (nonlinear_arith)
                requires
                    x <= y,
            ;
            lemma_round_ordered(x * one, z, y * one, z);
        },
        _ => {},
    }
    match r {
        Value::Fin { mag: z, .. } => {
            lemma_round_keeps(0, z);
            assert(0 * one_in_quanta() == 0);
        },
        _ => {},
    }
}

/// A sum is a double.
pub proof fn lemma_total_is_double(terms: Seq<Value>)
    ensures
        sum(terms).is_double(),
{
    lemma_zero_significant();
    if terms.len() > 0 {
        lemma_sum_is_double(sum(terms.drop_last()), terms.last());
    }
}

/// Sums are ordered as their terms are.
pub proof fn lemma_total_ordered(s: Seq<Value>, t: Seq<Value>)
    requires
        s.len() == t.len(),
        forall|i: int| 0 <= i < s.len() ==> nonneg(#[trigger] s[i]) && s[i].le(t[i]),
    ensures
        nonneg(sum(s)),
        sum(s).le(sum(t)),
    decreases s.len(),
{
    if s.len() > 0 {
        let i = s.len() - 1;
        assert(nonneg(s[i]) && s[i].le(t[i]));
        assert forall|j: int| 0 <= j < s.drop_last().len() implies nonneg(
            #[trigger] s.drop_last()[j],
        ) && s.drop_last()[j].le(t.drop_last()[j]) by {
            assert(nonneg(s[j]) && s[j].le(t[j]));
        }
        lemma_total_ordered(s.drop_last(), t.drop_last());
        lemma_plus_ordered(
            sum(s.drop_last()),
            sum(t.drop_last()),
            s.last(),
            t.last(),
        );
    }
}

/// The highest of the terms is zero or one of them, and none is above it.
pub proof fn lemma_highest(terms: Seq<Value>)
    ensures
        nonneg(highest(terms)),
        forall|i: int| 0 <= i < terms.len() ==> !highest(terms).lt(#[trigger] terms[i]),
        highest(terms) == Value::zero() || exists|i: int|
            0 <= i < terms.len() && highest(terms) == #[trigger] terms[i],
    decreases terms.len(),
{
    if terms.len() > 0 {
        let front = terms.drop_last();
        lemma_highest(front);
        let top = highest(front);
        let last = terms.last();
        assert(last == terms[terms.len() - 1]);
        assert forall|i: int| 0 <= i < terms.len() implies !highest(terms).lt(
            #[trigger] terms[i],
        ) by {
            if i < front.len() {
                assert(front[i] == terms[i]);
                lemma_order(top, last, terms[i]);
                lemma_order(top, terms[i], last);
            }
        }
        if highest(terms) != last && top != Value::zero() {
            let i = choose|i: int| 0 <= i < front.len() && top == #[trigger] front[i];
            assert(terms[i] == top);
        }
        lemma_order(Value::zero(), top, last);
    }
}

/// A sum that is not below zero, in quanta.
pub proof fn lemma_plus_quanta(a: Value, b: Value)
    requires
        a is Fin,
        b is Fin,
        a.quanta() + b.quanta() >= 0,
        round_mag((a.quanta() + b.quanta()) as nat, 1) < overflow_bound(),
    ensures
        a.plus(b) is Fin,
        a.plus(b).quanta() == round_mag((a.quanta() + b.quanta()) as nat, 1),
{
    lemma_zero_significant();
    lemma_round_keeps(0, 1);
}

/// A difference that is not below zero, in quanta.
pub proof fn lemma_minus_quanta(a: Value, b: Value)
    requires
        a is Fin,
        b is Fin,
        a.quanta() - b.quanta() >= 0,
        round_mag((a.quanta() - b.quanta()) as nat, 1) < overflow_bound(),
    ensures
        a.minus(b) is Fin,
        a.minus(b).quanta() == round_mag((a.quanta() - b.quanta()) as nat, 1),
{
    assert(b.negated().quanta() == -b.quanta());
    lemma_plus_quanta(a, b.negated());
}

/// A product of two values that are not below zero, in quanta.
pub proof fn lemma_times_quanta(a: Value, b: Value)
    requires
        a is Fin,
        b is Fin,
        a.quanta() >= 0,
        b.quanta() >= 0,
    ensures
        ({
            let r = round_mag(a.quanta() as nat * b.quanta() as nat, one_in_quanta());
            &&& r < overflow_bound() ==> a.times(b) is Fin && a.times(b).quanta() == r
            &&& r >= overflow_bound() ==> a.times(b) == Value::infinity()
        }),
{
    lemma_zero_significant();
    match (a, b) {
        (Value::Fin { mag: x, .. }, Value::Fin { mag: y, .. }) => {
            lemma_round_zero(x, y);
        },
        _ => {},
    }
}

/// A quotient of two values that are not below zero, in quanta.
pub proof fn lemma_over_quanta(a: Value, b: Value)
    requires
        a is Fin,
        a.quanta() >= 0,
        positive(b),
    ensures
        ({
            let r = round_mag(a.quanta() as nat * one_in_quanta(), b.quanta() as nat);
            &&& r < overflow_bound() ==> a.over(b) is Fin && a.over(b).quanta() == r
            &&& r >= overflow_bound() ==> a.over(b) == Value::infinity()
        }),
{
    lemma_zero_significant();
    lemma_round_keeps(0, b.quanta() as nat);
    assert(0 * one_in_quanta() == 0);
}

/// Rounded sums are ordered as the exact ones are.
pub proof fn lemma_rounded_sum_ordered(s: int, t: int, a: bool, b: bool)
    requires
        s <= t,
    ensures
        Value::rounded_sum(s, a).le(Value::rounded_sum(t, b)),
{
    lemma_sum_sign(s, a);
    lemma_sum_sign(t, b);
    if s > 0 {
        lemma_round_ordered(s as nat, 1, t as nat, 1);
    } else if t < 0 {
        lemma_round_ordered((-t) as nat, 1, (-s) as nat, 1);
    }
}

/// The more is taken away from the less, the less is left.
pub proof fn lemma_minus_ordered(a: Value, b: Value, c: Value, d: Value)
    requires
        a is Fin,
        b is Fin,
        c is Fin,
        d is Fin,
        a.le(b),
        d.le(c),
    ensures
        a.minus(c).le(b.minus(d)),
{
    assert(c.negated().quanta() == -c.quanta());
    assert(d.negated().quanta() == -d.quanta());
    match (a, b, c, d) {
        (
            Value::Fin { neg: na, .. },
            Value::Fin { neg: nb, .. },
            Value::Fin { neg: nc, .. },
            Value::Fin { neg: nd, .. },
        ) => {
            lemma_rounded_sum_ordered(
                a.quanta() - c.quanta(),
                b.quanta() - d.quanta(),
                na && !nc,
                nb && !nd,
            );
        },
        _ => {},
    }
}

/// An integer without its sign.
pub open spec fn size(x: int) -> int {
    if x < 0 {
        -x
    } else {
        x
    }
}

/// How far a sum can be off: by one part in 2 to the power 53.
pub proof fn lemma_plus_error(a: Value, b: Value)
    requires
        a is Fin,
        b is Fin,
        a.plus(b) is Fin,
    ensures
        ({
            let s = a.quanta() + b.quanta();
            let q = a.plus(b).quanta();
            -size(s) <= 0x20_0000_0000_0000 * (q - s) <= size(s)
        }),
{
    let s = a.quanta() + b.quanta();
    lemma_zero_significant();
    lemma_round_error(size(s) as nat, 1);
}

/// How far a product can be off: by one part in 2 to the power 53, or half a quantum.
pub proof fn lemma_times_error(a: Value, b: Value)
    requires
        a is Fin,
        b is Fin,
        a.times(b) is Fin,
    ensures
        ({
            let u = one_in_quanta();
            let x = a.quanta() * b.quanta();
            let q = a.times(b).quanta();
            let e = 0x40_0000_0000_0000 * (u * q - x);
            -(2 * size(x) + 0x20_0000_0000_0000 * u) <= e <= 2 * size(x) + 0x20_0000_0000_0000 * u
        }),
{
    let u = one_in_quanta();
    lemma_zero_significant();
    match (a, b) {
        (Value::Fin { neg: na, mag: x }, Value::Fin { neg: nb, mag: y }) => {
            let n = x * y;
            let r = round_mag(n, u);
            lemma_round_error(n, u);
            assert(r * u == u * r) by (nonlinear_arith);
            let p = a.quanta() * b.quanta();
            assert(p == if na != nb { -(n as int) } else { n as int }) by (nonlinear_arith)
                requires
                    n == x * y,
                    p == (if na { -(x as int) } else { x as int }) * (if nb {
                        -(y as int)
                    } else {
                        y as int
                    }),
            ;
            assert(u * (-(r as int)) == -(u * r)) by (nonlinear_arith);
        },
        _ => {},
    }
}

/// How far a quotient can be off: by one part in 2 to the power 53, or half a quantum.
pub proof fn lemma_over_error(a: Value, b: Value)
    requires
        a is Fin,
        a.quanta() >= 0,
        positive(b),
    ensures
        ({
            let u = one_in_quanta();
            let n = a.quanta() * u;
            let d = b.quanta();
            let r = round_mag(a.quanta() as nat * u, b.quanta() as nat);
            let e = 0x40_0000_0000_0000 * (r * d - n);
            &&& -(2 * n + 0x20_0000_0000_0000 * d) <= e <= 2 * n + 0x20_0000_0000_0000 * d
            &&& r < overflow_bound() ==> a.over(b) is Fin && a.over(b).quanta() == r
            &&& r >= overflow_bound() ==> a.over(b) == Value::infinity()
        }),
{
    lemma_over_quanta(a, b);
    lemma_round_error(a.quanta() as nat * one_in_quanta(), b.quanta() as nat);
}

/// How far a product can be off: by one part in 2 to the power 53, or half a quantum.
pub proof fn lemma_product_error(a: Value, b: Value)
    requires
        a is Fin,
        a.quanta() >= 0,
        b is Fin,
        b.quanta() >= 0,
    ensures
        ({
            let u = one_in_quanta();
            let n = a.quanta() * b.quanta();
            let r = round_mag(a.quanta() as nat * b.quanta() as nat, u);
            let e = 0x40_0000_0000_0000 * (u * r - n);
            &&& -(2 * n + 0x20_0000_0000_0000 * u) <= e <= 2 * n + 0x20_0000_0000_0000 * u
            &&& r < overflow_bound() ==> a.times(b) is Fin && a.times(b).quanta() == r
            &&& r >= overflow_bound() ==> a.times(b) == Value::infinity()
        }),
{
    let u = one_in_quanta();
    let n = a.quanta() as nat * b.quanta() as nat;
    lemma_zero_significant();
    lemma_times_quanta(a, b);
    lemma_round_error(n, u);
    let r = round_mag(n, u);
    assert(r * u == u * r) by (nonlinear_arith);
}

/// A sum, as far as it is finite, is the double nearest to the exact one.
pub proof fn law_sum_is_nearest(a: Value, b: Value, y: Value)
    requires
        a is Fin,
        b is Fin,
        a.plus(b) is Fin,
        y is Fin,
        y.is_double(),
    ensures
        ({
            let s = a.quanta() + b.quanta();
            size(a.plus(b).quanta() - s) <= size(y.quanta() - s)
        }),
        a.plus(b) == b.plus(a),
{
    let s = a.quanta() + b.quanta();
    match y {
        Value::Fin { neg, mag } => {
            lemma_zero_significant();
            law_round_is_nearest(size(s) as nat, 1, mag);
            law_round_is_nearest(size(s) as nat, 1, 0);
        },
        _ => {},
    }
}

/// A product, as far as it is finite, is the double nearest to the exact one.
pub proof fn law_product_is_nearest(a: Value, b: Value, y: Value)
    requires
        a is Fin,
        a.quanta() >= 0,
        b is Fin,
        b.quanta() >= 0,
        a.times(b) is Fin,
        y is Fin,
        y.is_double(),
        y.quanta() >= 0,
    ensures
        ({
            let u = one_in_quanta();
            let n = a.quanta() * b.quanta();
            size(a.times(b).quanta() * u - n) <= size(y.quanta() * u - n)
        }),
{
    let u = one_in_quanta();
    lemma_zero_significant();
    lemma_times_quanta(a, b);
    law_round_is_nearest(a.quanta() as nat * b.quanta() as nat, u, y.quanta() as nat);
}

/// A quotient, as far as it is finite, is the double nearest to the exact one.
pub proof fn law_quotient_is_nearest(a: Value, b: Value, y: Value)
    requires
        a is Fin,
        a.quanta() >= 0,
        positive(b),
        a.over(b) is Fin,
        y is Fin,
        y.is_double(),
        y.quanta() >= 0,
    ensures
        ({
            let n = a.quanta() * one_in_quanta();
            let d = b.quanta();
            size(a.over(b).quanta() * d - n) <= size(y.quanta() * d - n)
        }),
{
    lemma_over_quanta(a, b);
    law_round_is_nearest(
        a.quanta() as nat * one_in_quanta(),
        b.quanta() as nat,
        y.quanta() as nat,
    );
}

/// Finite values are in the order of their quanta, and the larger and the smaller of two are so
/// by that order. Where one of two is not a number, the other is both, and neither is below the
/// other.
pub proof fn law_order_of_values(a: Value, b: Value)
    ensures
        a is Fin && b is Fin ==> {
            &&& a.lt(b) <==> a.quanta() < b.quanta()
            &&& a.le(b) <==> a.quanta() <= b.quanta()
            &&& a.max(b) == a || a.max(b) == b
            &&& a.quanta() <= a.max(b).quanta()
            &&& b.quanta() <= a.max(b).quanta()
            &&& a.min(b) == a || a.min(b) == b
            &&& a.min(b).quanta() <= a.quanta()
            &&& a.min(b).quanta() <= b.quanta()
        },
        a is Nan ==> !a.lt(b) && !b.lt(a) && !a.le(b) && !b.le(a),
        a is Nan ==> a.max(b) == b && b.max(a) == b && a.min(b) == b && b.min(a) == b,
{
}

/// A remainder is below what it is taken by, and differs from what it is taken of by a multiple
/// of that.
pub proof fn law_remainder(a: Value, b: Value)
    requires
        a is Fin,
        a.quanta() >= 0,
        positive(b),
    ensures
        a.modulo(b) is Fin,
        0 <= a.modulo(b).quanta() < b.quanta(),
        exists|k: int| a.quanta() == #[trigger] (k * b.quanta()) + a.modulo(b).quanta(),
{
    let x = a.quanta();
    let y = b.quanta();
    lemma_fundamental_div_mod(x, y);
    assert(x == (x / y) * y + x % y) by (nonlinear_arith)
        requires
            x == y * (x / y) + x % y,
    ;
}

/// The whole part of a value that is not below zero, as far as a `u64` holds it, and zero for
/// what is below zero or not a number.
pub proof fn law_whole_part(v: Value)
    requires
        v is Fin || v is Nan,
    ensures
        v is Nan || v.quanta() < 0 ==> v.to_u64() == 0,
        v is Fin && 0 <= v.quanta() < (u64::MAX + 1) * one_in_quanta() ==> {
            &&& v.to_u64() * one_in_quanta() <= v.quanta()
            &&& v.quanta() < (v.to_u64() + 1) * one_in_quanta()
        },
        v is Fin && v.quanta() >= (u64::MAX + 1) * one_in_quanta() ==> v.to_u64() == u64::MAX,
{
    let u = one_in_quanta() as int;
    lemma_pow2_pos(1074);
    if v is Fin && v.quanta() >= 0 {
        let x = v.quanta();
        lemma_fundamental_div_mod(x, u);
        let w = x / u;
        let top = u64::MAX + 1;
        assert(w * u <= x < (w + 1) * u) by (nonlinear_arith)
            requires
                x == u * w + x % u,
                0 <= x % u < u,
        ;
        if w >= top {
            assert(x >= top * u) by (nonlinear_arith)
                requires
                    w >= top,
                    w * u <= x,
                    u > 0,
            ;
        } else {
            assert(x < top * u) by (nonlinear_arith)
                requires
                    w + 1 <= top,
                    x < (w + 1) * u,
                    u > 0,
            ;
        }
    }
}

} // verus!
