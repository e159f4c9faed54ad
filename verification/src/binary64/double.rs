//! The executable double.

use vstd::arithmetic::power2::*;
use vstd::prelude::*;

use crate::binary64::model::{
    decode, nearest, one_in_quanta, overflow_bound, round_mag, scale, Value,
};
use crate::binary64::rounding::{
    lemma_nearest_common, lemma_nearest_exact, lemma_nearest_unique, lemma_positive_product,
    lemma_pow2_ordered, lemma_round_common, lemma_round_exact, lemma_round_significand,
    lemma_round_sticky, lemma_scale_unique,
};

verus! {

/// A double-precision number in its 64-bit interchange form.
#[derive(Clone, Copy, Debug)]
pub struct Double {
    pub bits: u64,
}

impl View for Double {
    type V = Value;

    open spec fn view(&self) -> Value {
        decode(self.bits)
    }
}

/// A double taken apart: a finite one is `m * 2^k` quanta, with all 53 bits of `m` in
/// use unless `k` is zero.
enum Parts {
    Nan,
    Inf { neg: bool },
    Fin { neg: bool, m: u64, k: u32 },
}

/// What the significand and the exponent of a finite double keep.
spec fn normal_form(m: u64, k: u32) -> bool {
    &&& m < 0x20_0000_0000_0000
    &&& k <= 2045
    &&& k > 0 ==> m >= 0x10_0000_0000_0000
}

impl Parts {
    spec fn value(self) -> Value {
        match self {
            Parts::Nan => Value::Nan,
            Parts::Inf { neg } => Value::Inf { neg },
            Parts::Fin { neg, m, k } => Value::Fin { neg, mag: m as nat * pow2(k as nat) },
        }
    }

    spec fn well_formed(self) -> bool {
        self matches Parts::Fin { m, k, .. } ==> normal_form(m, k)
    }
}

/// An exponent that is above zero, and one that is below, as natural numbers.
spec fn up(e: int) -> nat {
    if e > 0 {
        e as nat
    } else {
        0
    }
}

spec fn down(e: int) -> nat {
    if e < 0 {
        (-e) as nat
    } else {
        0
    }
}

spec fn signed(neg: bool, mag: nat) -> int {
    if neg {
        -(mag as int)
    } else {
        mag as int
    }
}

/// Two to the power `n`.
fn power(n: u32) -> (r: u128)
    requires
        n <= 127,
    ensures
        r == pow2(n as nat),
        r > 0,
{
    proof {
        lemma2_to64();
    }
    let mut r: u128 = 1;
    let mut i: u32 = 0;
    while i < n
        invariant
            i <= n <= 127,
            r == pow2(i as nat),
            r > 0,
        decreases n - i,
    {
        proof {
            lemma_pow2_unfold((i + 1) as nat);
            lemma_pow2_ordered((i + 1) as nat, 127);
            lemma2_to64();
            lemma2_to64_rest();
            lemma_pow2_adds(63, 64);
            assert(0x8000_0000_0000_0000 * 0x1_0000_0000_0000_0000
                == 0x8000_0000_0000_0000_0000_0000_0000_0000nat);
        }
        r = r * 2;
        i = i + 1;
    }
    r
}

/// How many bits `p` takes.
fn bit_length(p: u128) -> (n: u32)
    requires
        p < 0x100_0000_0000_0000_0000_0000_0000_0000,
    ensures
        n <= 120,
        p < pow2(n as nat),
        n > 0 ==> pow2((n - 1) as nat) <= p,
        n == 0 <==> p == 0,
{
    let mut n: u32 = 0;
    let mut bound: u128 = 1;
    proof {
        lemma2_to64();
        lemma2_to64_rest();
        lemma_pow2_adds(56, 64);
        assert(0x100_0000_0000_0000 * 0x1_0000_0000_0000_0000
            == 0x100_0000_0000_0000_0000_0000_0000_0000nat);
    }
    while bound <= p
        invariant
            n <= 120,
            bound == pow2(n as nat),
            n > 0 ==> pow2((n - 1) as nat) <= p,
            p < 0x100_0000_0000_0000_0000_0000_0000_0000,
            pow2(120) == 0x100_0000_0000_0000_0000_0000_0000_0000,
            pow2(0) == 1,
        decreases 120 - n,
    {
        proof {
            if n >= 120 {
                lemma_pow2_ordered(120, n as nat);
            }
            lemma_pow2_unfold((n + 1) as nat);
        }
        bound = bound * 2;
        n = n + 1;
    }
    proof {
        if n > 0 {
            lemma_pow2_pos((n - 1) as nat);
        }
    }
    n
}

/// A finite double put together.
fn pack(neg: bool, m: u64, k: u32) -> (r: Double)
    requires
        normal_form(m, k),
    ensures
        r@ == (Value::Fin { neg, mag: m as nat * pow2(k as nat) }),
{
    let low: u64 = k as u64 * 0x10_0000_0000_0000 + m;
    let bits: u64 = if neg {
        low + 0x8000_0000_0000_0000
    } else {
        low
    };
    proof {
        lemma2_to64();
        let exponent = (bits / 0x10_0000_0000_0000) % 0x800;
        let fraction = bits % 0x10_0000_0000_0000;
        if m < 0x10_0000_0000_0000 {
            assert(exponent == 0 && fraction == m);
            assert(m as nat * pow2(0) == m) by (nonlinear_arith)
                requires
                    pow2(0) == 1,
            ;
        } else {
            assert(exponent == k + 1);
            assert(fraction == m - 0x10_0000_0000_0000);
        }
    }
    Double { bits }
}

/// The scale and the significand that `p * 2^e` quanta round to.
proof fn lemma_pack(p: nat, e: int, length: nat, k: nat, m: nat)
    requires
        length > 0,
        pow2((length - 1) as nat) <= p < pow2(length),
        k == (if length + e > 53 { length + e - 53 } else { 0 }),
        k > e ==> m == nearest(p, pow2((k - e) as nat)),
        k <= e ==> m == p * pow2((e - k) as nat),
    ensures
        round_mag(p * pow2(up(e)), pow2(down(e))) == m * pow2(k),
        m <= 0x20_0000_0000_0000,
        k > 0 ==> m >= 0x10_0000_0000_0000,
{
    let n = p * pow2(up(e));
    let d = pow2(down(e));
    lemma_pow2_pos(up(e));
    lemma_pow2_pos(down(e));
    lemma_pow2_pos(k);
    // the upper bound on the value
    lemma_pow2_adds(length, up(e));
    lemma_pow2_adds(down(e), 53 + k);
    lemma_pow2_ordered(length + up(e), down(e) + (53 + k));
    assert(n < d * pow2(53 + k)) by (nonlinear_arith)
        requires
            n == p * pow2(up(e)),
            p < pow2(length),
            pow2(up(e)) > 0,
            pow2(length + up(e)) == pow2(length) * pow2(up(e)),
            pow2(down(e) + (53 + k)) == d * pow2(53 + k),
            pow2(length + up(e)) <= pow2(down(e) + (53 + k)),
    ;
    if k > 0 {
        let l = (length - 1) as nat;
        lemma_pow2_adds(l, up(e));
        lemma_pow2_adds(down(e), 52 + k);
        assert(l + up(e) == down(e) + (52 + k));
        assert(d * pow2(52 + k) <= n) by (nonlinear_arith)
            requires
                n == p * pow2(up(e)),
                pow2(l) <= p,
                pow2(up(e)) > 0,
                pow2(l + up(e)) == pow2(l) * pow2(up(e)),
                pow2(down(e) + (52 + k)) == d * pow2(52 + k),
                pow2(l + up(e)) == pow2(down(e) + (52 + k)),
        ;
    }
    lemma_scale_unique(n, d, k);
    if k > e {
        let s = (k - e) as nat;
        lemma_pow2_pos(s);
        lemma_nearest_common(p, pow2(s), pow2(up(e)));
        lemma_pow2_adds(s, up(e));
        lemma_pow2_adds(down(e), k);
        assert(s + up(e) == down(e) + k);
    } else {
        let s = (e - k) as nat;
        lemma_pow2_adds(s, k);
        lemma2_to64();
        assert(n == m * pow2(k)) by (nonlinear_arith)
            requires
                n == p * pow2(up(e)),
                pow2(up(e)) == pow2(s) * pow2(k),
                m == p * pow2(s),
        ;
        assert(d == 1);
        lemma_nearest_exact(m, pow2(k));
    }
    lemma_round_significand(n, d);
}

/// The double nearest to `p * 2^e` quanta.
fn round_pack(neg: bool, p: u128, e: i64) -> (r: Double)
    requires
        p < 0x100_0000_0000_0000_0000_0000_0000_0000,
        -4000 <= e <= 4000,
    ensures
        r@ == Value::round(neg, p as nat * pow2(up(e as int)), pow2(down(e as int))),
{
    let length: u32 = bit_length(p);
    if length == 0 {
        proof {
            lemma2_to64();
            lemma_pow2_pos(down(e as int));
            lemma_pow2_pos(2098);
            lemma_round_exact(0, 0, pow2(down(e as int)));
            assert((0 * pow2(0)) * pow2(down(e as int)) == 0) by (nonlinear_arith);
            assert(0 * pow2(up(e as int)) == 0) by (nonlinear_arith);
        }
        return pack(neg, 0, 0);
    }
    let sum: i64 = length as i64 + e;
    let k: i64 = if sum > 53 {
        sum - 53
    } else {
        0
    };
    proof {
        lemma2_to64();
        lemma2_to64_rest();
    }
    let m: u64;
    if k > e {
        let s: i64 = k - e;
        if s > length as i64 {
            // less than half a granule
            proof {
                lemma_pow2_ordered(length as nat + 1, s as nat);
                lemma_pow2_unfold(length as nat + 1);
                let g = pow2(s as nat);
                assert((2 * 0 - 1) * g == -g) by (nonlinear_arith);
                assert((2 * 0 + 1) * g == g) by (nonlinear_arith);
                lemma_nearest_unique(p as nat, g, 0);
            }
            m = 0;
        } else {
            let granule: u128 = power(s as u32);
            let q: u128 = p / granule;
            let r: u128 = p % granule;
            proof {
                lemma_pack(
                    p as nat,
                    e as int,
                    length as nat,
                    k as nat,
                    nearest(p as nat, granule as nat),
                );
                lemma_pow2_ordered(s as nat, 120);
                lemma_pow2_adds(56, 64);
                assert(0x100_0000_0000_0000 * 0x1_0000_0000_0000_0000
                    == 0x100_0000_0000_0000_0000_0000_0000_0000nat);
            }
            if 2 * r < granule || (2 * r == granule && q % 2 == 0) {
                m = q as u64;
            } else {
                m = (q + 1) as u64;
            }
        }
    } else {
        let s: i64 = e - k;
        proof {
            let w = p as nat * pow2(s as nat);
            lemma_pack(p as nat, e as int, length as nat, k as nat, w);
            if s > 53 {
                lemma_pow2_strictly_increases(53, s as nat);
                assert(w >= pow2(s as nat)) by (nonlinear_arith)
                    requires
                        w == p as nat * pow2(s as nat),
                        p >= 1,
                ;
            }
        }
        let factor: u128 = power(s as u32);
        proof {
            assert(p <= p * factor) by (nonlinear_arith)
                requires
                    factor >= 1,
            ;
        }
        m = (p * factor) as u64;
    }
    proof {
        lemma_pack(p as nat, e as int, length as nat, k as nat, m as nat);
    }
    let ghost mag = m as nat * pow2(k as nat);
    proof {
        lemma_pow2_pos(k as nat);
        lemma_pow2_adds(52, k as nat);
        lemma_pow2_adds(53, k as nat);
        lemma_pow2_unfold((k + 1) as nat);
    }
    if m == 0x20_0000_0000_0000 {
        if k >= 2045 {
            proof {
                lemma_pow2_ordered(2098, 53 + k as nat);
            }
            return Double::inf(neg);
        }
        proof {
            lemma_pow2_adds(53, k as nat);
            lemma_pow2_strictly_increases((53 + k) as nat, 2098);
            assert(0x10_0000_0000_0000 * pow2((k + 1) as nat) == mag) by (nonlinear_arith)
                requires
                    pow2((k + 1) as nat) == 2 * pow2(k as nat),
                    mag == 0x20_0000_0000_0000 * pow2(k as nat),
            ;
        }
        return pack(neg, 0x10_0000_0000_0000, k as u32 + 1);
    }
    if k > 2045 {
        proof {
            lemma_pow2_ordered(2098, (52 + k) as nat);
            assert(pow2((52 + k) as nat) <= mag) by (nonlinear_arith)
                requires
                    pow2((52 + k) as nat) == 0x10_0000_0000_0000 * pow2(k as nat),
                    mag == m as nat * pow2(k as nat),
                    m >= 0x10_0000_0000_0000,
            ;
        }
        return Double::inf(neg);
    }
    proof {
        lemma_pow2_ordered((53 + k) as nat, 2098);
        assert(mag < pow2((53 + k) as nat)) by (nonlinear_arith)
            requires
                pow2((53 + k) as nat) == 0x20_0000_0000_0000 * pow2(k as nat),
                mag == m as nat * pow2(k as nat),
                m < 0x20_0000_0000_0000,
                pow2(k as nat) > 0,
        ;
    }
    pack(neg, m, k as u32)
}

impl Double {
    /// The infinity with the sign given.
    fn inf(neg: bool) -> (r: Double)
        ensures
            r@ == (Value::Inf { neg }),
    {
        if neg {
            Double { bits: 0xfff0_0000_0000_0000 }
        } else {
            Double { bits: 0x7ff0_0000_0000_0000 }
        }
    }

    fn nan() -> (r: Double)
        ensures
            r@ == Value::Nan,
    {
        Double { bits: 0x7ff8_0000_0000_0000 }
    }

    fn parts(self) -> (p: Parts)
        ensures
            p.well_formed(),
            p.value() == self@,
    {
        let neg: bool = self.bits >= 0x8000_0000_0000_0000;
        let exponent: u64 = (self.bits / 0x10_0000_0000_0000) % 0x800;
        let fraction: u64 = self.bits % 0x10_0000_0000_0000;
        if exponent == 0x7ff {
            if fraction == 0 {
                Parts::Inf { neg }
            } else {
                Parts::Nan
            }
        } else if exponent == 0 {
            proof {
                lemma2_to64();
                assert(fraction as nat * pow2(0) == fraction) by (nonlinear_arith)
                    requires
                        pow2(0) == 1,
                ;
            }
            Parts::Fin { neg, m: fraction, k: 0 }
        } else {
            Parts::Fin { neg, m: 0x10_0000_0000_0000 + fraction, k: (exponent - 1) as u32 }
        }
    }
}

/// The sum of two finite doubles, the first of the larger exponent.
fn add_finite(na: bool, ma: u64, ka: u32, nb: bool, mb: u64, kb: u32) -> (r: Double)
    requires
        normal_form(ma, ka),
        normal_form(mb, kb),
        ka >= kb,
    ensures
        r@ == Value::rounded_sum(
            signed(na, ma as nat * pow2(ka as nat)) + signed(nb, mb as nat * pow2(kb as nat)),
            na && nb,
        ),
{
    let gap: u32 = ka - kb;
    let ghost x = ma as nat * pow2(ka as nat);
    let ghost y = mb as nat * pow2(kb as nat);
    proof {
        lemma2_to64();
        lemma2_to64_rest();
        lemma_pow2_pos(ka as nat);
        lemma_pow2_pos(kb as nat);
        lemma_pow2_adds(gap as nat, kb as nat);
        lemma_pow2_pos(2098);
    }
    if gap <= 66 {
        let factor: u128 = power(gap);
        proof {
            lemma_pow2_ordered(gap as nat, 66);
            lemma_pow2_adds(2, 64);
            assert(ma * factor <= 0x20_0000_0000_0000 * 0x4_0000_0000_0000_0000) by (
            nonlinear_arith)
                requires
                    ma <= 0x20_0000_0000_0000,
                    factor <= 0x4_0000_0000_0000_0000,
            ;
        }
        let a: u128 = ma as u128 * factor;
        let b: u128 = mb as u128;
        let ghost unit = pow2(kb as nat);
        proof {
            assert(x == a * unit) by (nonlinear_arith)
                requires
                    x == ma as nat * pow2(ka as nat),
                    pow2(ka as nat) == factor * unit,
                    a == ma * factor,
            ;
            assert((a + b) * unit == x + y) by (nonlinear_arith)
                requires
                    x == a * unit,
                    y == b * unit,
            ;
            assert((a - b) * unit == x - y) by (nonlinear_arith)
                requires
                    x == a * unit,
                    y == b * unit,
            ;
            assert((b - a) * unit == y - x) by (nonlinear_arith)
                requires
                    x == a * unit,
                    y == b * unit,
            ;
            assert(a > b ==> (a - b) * unit > 0) by (nonlinear_arith)
                requires
                    unit > 0,
            ;
            assert(b > a ==> (b - a) * unit > 0) by (nonlinear_arith)
                requires
                    unit > 0,
            ;
            assert(a == b ==> (a - b) * unit == 0) by (nonlinear_arith);
            assert(pow2(down(kb as int)) == 1);
            lemma_round_exact(0, 0, 1);
            assert((0 * pow2(0)) * 1 == 0) by (nonlinear_arith);
        }
        if na == nb {
            round_pack(na, a + b, kb as i64)
        } else if a > b {
            round_pack(na, a - b, kb as i64)
        } else if b > a {
            round_pack(nb, b - a, kb as i64)
        } else {
            pack(false, 0, 0)
        }
    } else if mb == 0 {
        proof {
            lemma_round_exact(ma as nat, ka as nat, 1);
            lemma_positive_product(ma as nat, pow2(ka as nat));
            lemma_magnitude(ma, ka);
            assert(0 * pow2(kb as nat) == 0) by (nonlinear_arith);
        }
        pack(na, ma, ka)
    } else {
        // steps of 2^(ka - 66) quanta
        let j: u32 = gap - 66;
        let ghost unit = pow2(kb as nat);
        let ghost part = pow2(j as nat);
        let q: u64;
        let exact: bool;
        if j < 64 {
            let g: u128 = power(j);
            q = (mb as u128 / g) as u64;
            exact = mb as u128 % g == 0;
            proof {
                vstd::arithmetic::div_mod::lemma_fundamental_div_mod(mb as int, g as int);
                assert(mb as int / g as int <= mb) by (nonlinear_arith)
                    requires
                        g >= 1,
                        mb >= 0,
                ;
                assert(g as int * q as int == q * g) by (nonlinear_arith);
            }
        } else {
            q = 0;
            exact = false;
            proof {
                lemma_pow2_ordered(64, j as nat);
            }
        }
        proof {
            assert(q * part <= mb < q * part + part);
            assert(exact <==> mb == q * part);
        }
        let w: u64 = if exact || q % 2 == 1 {
            q
        } else {
            q + 1
        };
        let a: u128 = ma as u128 * 0x4_0000_0000_0000_0000;
        let p: u128 = if na == nb {
            a + w as u128
        } else {
            a - w as u128
        };
        let e: i64 = ka as i64 - 66;
        proof {
            let step = pow2(e as nat);
            lemma_pow2_adds(j as nat, kb as nat);
            assert(step == part * unit);
            lemma_pow2_adds(66, e as nat);
            lemma_pow2_adds(2, 64);
            assert(x == a * step) by (nonlinear_arith)
                requires
                    x == ma as nat * pow2(ka as nat),
                    pow2(ka as nat) == 0x4_0000_0000_0000_0000 * step,
                    a == ma * 0x4_0000_0000_0000_0000,
            ;
            lemma_pow2_pos(e as nat);
            lemma_pow2_pos(j as nat);
            let total: nat = if na == nb {
                x + y
            } else {
                (x - y) as nat
            };
            assert(y < (w + 1) * step && (w - 1) * step < y && (exact ==> y == w * step)) by (
            nonlinear_arith)
                requires
                    y == mb as nat * unit,
                    step == part * unit,
                    unit > 0,
                    q * part <= mb < q * part + part,
                    exact ==> mb == q * part && w == q,
                    !exact ==> mb > q * part,
                    w == q || (w == q + 1 && !exact),
            ;
            assert(x - y > 0) by (nonlinear_arith)
                requires
                    x == a * step,
                    y < (w + 1) * step,
                    a >= w + 1,
                    step > 0,
            ;
            assert(((p - 1) * step < total && total < (p + 1) * step) && (exact ==> total == p
                * step)) by (nonlinear_arith)
                requires
                    x == a * step,
                    y < (w + 1) * step,
                    (w - 1) * step < y,
                    exact ==> y == w * step,
                    (total == x + y && p == a + w) || (total == x - y && p == a - w),
            ;
            assert(pow2(down(e as int)) == 1);
            if !exact {
                lemma_round_sticky(total, 1, p as nat, e as nat, 0);
            }
        }
        round_pack(na, p, e)
    }
}

/// A finite double is below the overflow bound, and only zero has no magnitude.
proof fn lemma_magnitude(m: u64, k: u32)
    requires
        normal_form(m, k),
    ensures
        m as nat * pow2(k as nat) < overflow_bound(),
        m as nat * pow2(k as nat) == 0 <==> m == 0,
{
    lemma2_to64_rest();
    lemma_pow2_pos(k as nat);
    lemma_pow2_adds(53, k as nat);
    lemma_pow2_ordered(53 + k as nat, 2098);
    assert(m as nat * pow2(k as nat) < 0x20_0000_0000_0000 * pow2(k as nat)) by (nonlinear_arith)
        requires
            m < 0x20_0000_0000_0000,
            pow2(k as nat) > 0,
    ;
    assert(m as nat * pow2(k as nat) == 0 <==> m == 0) by (nonlinear_arith)
        requires
            pow2(k as nat) > 0,
    ;
}

impl Double {
    /// The double with these 64 bits.
    pub fn from_bits(bits: u64) -> (r: Double)
        ensures
            r.bits == bits,
            r@ == decode(bits),
    {
        Double { bits }
    }

    /// The 64 bits of the double.
    pub fn to_bits(self) -> (bits: u64)
        ensures
            bits == self.bits,
    {
        self.bits
    }

    /// Zero.
    pub fn zero() -> (r: Double)
        ensures
            r@ == Value::zero(),
    {
        Double { bits: 0 }
    }

    /// Zero with the minus sign.
    pub fn neg_zero() -> (r: Double)
        ensures
            r@ == Value::neg_zero(),
    {
        Double { bits: 0x8000_0000_0000_0000 }
    }

    /// The positive infinity.
    pub fn infinity() -> (r: Double)
        ensures
            r@ == Value::infinity(),
    {
        Double::inf(false)
    }

    /// The double nearest to a whole number.
    pub fn from_u64(n: u64) -> (r: Double)
        ensures
            r@ == Value::whole(n as nat),
    {
        proof {
            lemma2_to64();
        }
        round_pack(false, n as u128, 1074)
    }

    /// One.
    pub fn one() -> (r: Double)
        ensures
            r@ == Value::one(),
    {
        Double::from_u64(1)
    }

    /// `-self`.
    pub fn negated(self) -> (r: Double)
        ensures
            r@ == self@.negated(),
    {
        if self.bits >= 0x8000_0000_0000_0000 {
            Double { bits: self.bits - 0x8000_0000_0000_0000 }
        } else {
            Double { bits: self.bits + 0x8000_0000_0000_0000 }
        }
    }

    /// `self + other`.
    pub fn plus(self, other: Double) -> (r: Double)
        ensures
            r@ == self@.plus(other@),
    {
        match (self.parts(), other.parts()) {
            (Parts::Nan, _) => Double::nan(),
            (_, Parts::Nan) => Double::nan(),
            (Parts::Inf { neg: a }, Parts::Inf { neg: b }) => if a == b {
                self
            } else {
                Double::nan()
            },
            (Parts::Inf { .. }, _) => self,
            (_, Parts::Inf { .. }) => other,
            (Parts::Fin { neg: na, m: ma, k: ka }, Parts::Fin { neg: nb, m: mb, k: kb }) => {
                if ka >= kb {
                    add_finite(na, ma, ka, nb, mb, kb)
                } else {
                    add_finite(nb, mb, kb, na, ma, ka)
                }
            },
        }
    }

    /// `self - other`.
    pub fn minus(self, other: Double) -> (r: Double)
        ensures
            r@ == self@.minus(other@),
    {
        self.plus(other.negated())
    }
}

/// The product of two finite doubles.
fn mul_finite(neg: bool, ma: u64, ka: u32, mb: u64, kb: u32) -> (r: Double)
    requires
        normal_form(ma, ka),
        normal_form(mb, kb),
    ensures
        r@ == Value::round(
            neg,
            (ma as nat * pow2(ka as nat)) * (mb as nat * pow2(kb as nat)),
            one_in_quanta(),
        ),
{
    proof {
        assert(ma * mb < 0x20_0000_0000_0000 * 0x20_0000_0000_0000) by (nonlinear_arith)
            requires
                ma < 0x20_0000_0000_0000,
                mb < 0x20_0000_0000_0000,
        ;
    }
    let p: u128 = ma as u128 * mb as u128;
    let e: i64 = ka as i64 + kb as i64 - 1074;
    proof {
        let x = ma as nat * pow2(ka as nat);
        let y = mb as nat * pow2(kb as nat);
        let k = (ka + kb) as nat;
        lemma2_to64();
        lemma_pow2_adds(ka as nat, kb as nat);
        lemma_pow2_pos(k);
        lemma_pow2_pos(1074);
        assert(x * y == p * pow2(k)) by (nonlinear_arith)
            requires
                x == ma as nat * pow2(ka as nat),
                y == mb as nat * pow2(kb as nat),
                pow2(k) == pow2(ka as nat) * pow2(kb as nat),
                p == ma * mb,
        ;
        if e >= 0 {
            let n = p as nat * pow2(e as nat);
            lemma_pow2_adds(e as nat, 1074);
            assert(p * pow2(k) == n * pow2(1074)) by (nonlinear_arith)
                requires
                    n == p as nat * pow2(e as nat),
                    pow2(k) == pow2(e as nat) * pow2(1074),
            ;
            assert(1 * pow2(1074) == pow2(1074));
            lemma_round_common(n, 1, pow2(1074));
        } else {
            let f = (-e) as nat;
            lemma_pow2_adds(f, k);
            lemma_pow2_pos(f);
            lemma_round_common(p as nat, pow2(f), pow2(k));
            assert(p as nat * pow2(0) == p) by (nonlinear_arith)
                requires
                    pow2(0) == 1,
            ;
        }
    }
    round_pack(neg, p, e)
}

/// `m` shifted up until all 53 bits are in use, and by how much.
fn normalize(m: u64) -> (r: (u64, u32))
    requires
        0 < m < 0x20_0000_0000_0000,
    ensures
        0x10_0000_0000_0000 <= r.0 < 0x20_0000_0000_0000,
        r.1 <= 52,
        r.0 == m * pow2(r.1 as nat),
{
    let mut w: u64 = m;
    let mut j: u32 = 0;
    proof {
        lemma2_to64();
        lemma2_to64_rest();
        assert(m * pow2(0) == m) by (nonlinear_arith)
            requires
                pow2(0) == 1,
        ;
    }
    while w < 0x10_0000_0000_0000
        invariant
            0 < m,
            0 < w < 0x20_0000_0000_0000,
            j <= 52,
            w == m * pow2(j as nat),
            pow2(52) == 0x10_0000_0000_0000,
        decreases 0x20_0000_0000_0000 - w,
    {
        proof {
            lemma_pow2_unfold((j + 1) as nat);
            assert(2 * w == m * pow2((j + 1) as nat)) by (nonlinear_arith)
                requires
                    w == m * pow2(j as nat),
                    pow2((j + 1) as nat) == 2 * pow2(j as nat),
            ;
            if j >= 52 {
                lemma_pow2_ordered(52, j as nat);
                assert(w >= pow2(j as nat)) by (nonlinear_arith)
                    requires
                        w == m * pow2(j as nat),
                        m >= 1,
                ;
            }
        }
        w = w * 2;
        j = j + 1;
    }
    (w, j)
}

/// The quotient of two finite doubles, the second of which is not zero.
fn div_finite(neg: bool, ma: u64, ka: u32, mb: u64, kb: u32) -> (r: Double)
    requires
        normal_form(ma, ka),
        normal_form(mb, kb),
        mb > 0,
    ensures
        r@ == Value::round(
            neg,
            (ma as nat * pow2(ka as nat)) * one_in_quanta(),
            mb as nat * pow2(kb as nat),
        ),
{
    proof {
        lemma2_to64();
        lemma_pow2_pos(kb as nat);
        lemma_pow2_pos(2098);
        lemma_positive_product(mb as nat, pow2(kb as nat));
    }
    if ma == 0 {
        proof {
            let y = mb as nat * pow2(kb as nat);
            lemma_round_exact(0, 0, y);
            assert((0 * pow2(0)) * y == 0) by (nonlinear_arith);
            assert((0 * pow2(ka as nat)) * one_in_quanta() == 0) by (nonlinear_arith);
            assert(0 * pow2(0) == 0) by (nonlinear_arith);
        }
        return pack(neg, 0, 0);
    }
    let (ms, j): (u64, u32) = normalize(ma);
    let top: u128 = ms as u128 * 0x1_0000_0000_0000_0000;
    let q: u128 = top / mb as u128;
    let rest: u128 = top % mb as u128;
    proof {
        vstd::arithmetic::div_mod::lemma_fundamental_div_mod(top as int, mb as int);
        assert(top == q * mb + rest) by (nonlinear_arith)
            requires
                top == mb as int * q as int + rest,
        ;
        assert(q <= top) by (nonlinear_arith)
            requires
                top == q * mb + rest,
                mb >= 1,
        ;
        assert(q >= 0x80_0000_0000_0000) by (nonlinear_arith)
            requires
                top == q * mb + rest,
                rest < mb,
                mb < 0x20_0000_0000_0000,
                top >= 0x10_0000_0000_0000 * 0x1_0000_0000_0000_0000,
        ;
    }
    let p: u128 = if rest == 0 || q % 2 == 1 {
        q
    } else {
        q + 1
    };
    let e: i64 = ka as i64 - j as i64 - 64 + 1074 - kb as i64;
    proof {
        let u = up(e as int);
        let v = down(e as int);
        let x = ma as nat * pow2(ka as nat);
        let y = mb as nat * pow2(kb as nat);
        let n = x * one_in_quanta();
        let c = pow2(kb as nat + u);
        lemma_pow2_pos(kb as nat + u);
        lemma_pow2_pos(u);
        lemma_pow2_pos(v);
        // n * 2^v == top * c
        lemma_pow2_adds(ka as nat, 1074);
        lemma_pow2_adds((ka + 1074) as nat, v);
        lemma_pow2_adds(j as nat, 64);
        lemma_pow2_adds((j + 64) as nat, kb as nat + u);
        assert((ka + 1074) as nat + v == (j + 64) as nat + (kb as nat + u));
        assert(n * pow2(v) == top * c) by (nonlinear_arith)
            requires
                n == x * one_in_quanta(),
                x == ma as nat * pow2(ka as nat),
                pow2((ka + 1074) as nat) == pow2(ka as nat) * one_in_quanta(),
                pow2((ka + 1074) as nat + v) == pow2((ka + 1074) as nat) * pow2(v),
                pow2((ka + 1074) as nat + v) == pow2((j + 64) as nat) * c,
                pow2((j + 64) as nat) == pow2(j as nat) * 0x1_0000_0000_0000_0000,
                ms == ma * pow2(j as nat),
                top == ms * 0x1_0000_0000_0000_0000,
        ;
        // y * 2^u == mb * c
        lemma_pow2_adds(kb as nat, u);
        assert(y * pow2(u) == mb * c) by (nonlinear_arith)
            requires
                y == mb as nat * pow2(kb as nat),
                c == pow2(kb as nat) * pow2(u),
        ;
        if rest == 0 {
            // n * 2^v == (q * 2^u) * y: both sides of the fraction have a common factor
            let a = p as nat * pow2(u);
            assert(n * pow2(v) == a * y) by (nonlinear_arith)
                requires
                    n * pow2(v) == top * c,
                    top == q * mb,
                    p == q,
                    y * pow2(u) == mb * c,
                    a == p as nat * pow2(u),
            ;
            lemma_round_common(n, y, pow2(v));
            lemma_round_common(a, pow2(v), y);
            assert(y * pow2(v) == pow2(v) * y) by (nonlinear_arith);
        } else {
            assert(((p - 1) * mb < top) && (top < (p + 1) * mb)) by (nonlinear_arith)
                requires
                    top == q * mb + rest,
                    0 < rest < mb,
                    p == q || p == q + 1,
            ;
            assert(((p - 1) * pow2(u)) * y < n * pow2(v)) by (nonlinear_arith)
                requires
                    (p - 1) * mb < top,
                    n * pow2(v) == top * c,
                    y * pow2(u) == mb * c,
                    c > 0,
            ;
            assert(n * pow2(v) < ((p + 1) * pow2(u)) * y) by (nonlinear_arith)
                requires
                    top < (p + 1) * mb,
                    n * pow2(v) == top * c,
                    y * pow2(u) == mb * c,
                    c > 0,
            ;
            lemma_round_sticky(n, y, p as nat, u, v);
        }
    }
    round_pack(neg, p, e)
}

/// What is left of `ma * 2^gap` once `mb` has been taken away as often as it fits.
fn mod_shifted(ma: u64, gap: u32, mb: u64) -> (r: u64)
    requires
        0 < mb < 0x20_0000_0000_0000,
    ensures
        r < mb,
        r == (ma as nat * pow2(gap as nat)) % (mb as nat),
{
    let mut r: u64 = ma % mb;
    let mut i: u32 = 0;
    proof {
        lemma2_to64();
        assert(ma as nat * pow2(0) == ma) by (nonlinear_arith)
            requires
                pow2(0) == 1,
        ;
    }
    while i < gap
        invariant
            i <= gap,
            0 < mb < 0x20_0000_0000_0000,
            r < mb,
            r == (ma as nat * pow2(i as nat)) % (mb as nat),
        decreases gap - i,
    {
        proof {
            let x = (ma as nat * pow2(i as nat)) as int;
            lemma_pow2_unfold((i + 1) as nat);
            assert(2 * x == ma as nat * pow2((i + 1) as nat)) by (nonlinear_arith)
                requires
                    x == ma as nat * pow2(i as nat),
                    pow2((i + 1) as nat) == 2 * pow2(i as nat),
            ;
            vstd::arithmetic::div_mod::lemma_mul_mod_noop_right(2, x, mb as int);
        }
        r = (r * 2) % mb;
        i = i + 1;
    }
    r
}

/// Which of two magnitudes is the smaller.
fn mag_lt(ma: u64, ka: u32, mb: u64, kb: u32) -> (r: bool)
    requires
        normal_form(ma, ka),
        normal_form(mb, kb),
    ensures
        r == (ma as nat * pow2(ka as nat) < mb as nat * pow2(kb as nat)),
{
    proof {
        lemma_mag_order(ma, ka, mb, kb);
        lemma_mag_order(mb, kb, ma, ka);
    }
    ka < kb || (ka == kb && ma < mb)
}

proof fn lemma_mag_order(ma: u64, ka: u32, mb: u64, kb: u32)
    requires
        normal_form(ma, ka),
        normal_form(mb, kb),
    ensures
        ka < kb ==> ma as nat * pow2(ka as nat) < mb as nat * pow2(kb as nat),
        ka == kb && ma < mb ==> ma as nat * pow2(ka as nat) < mb as nat * pow2(kb as nat),
{
    lemma_pow2_pos(ka as nat);
    if ka < kb {
        lemma_pow2_unfold((ka + 1) as nat);
        lemma_pow2_ordered((ka + 1) as nat, kb as nat);
        assert(ma as nat * pow2(ka as nat) < mb as nat * pow2(kb as nat)) by (nonlinear_arith)
            requires
                ma < 0x20_0000_0000_0000,
                mb >= 0x10_0000_0000_0000,
                pow2((ka + 1) as nat) == 2 * pow2(ka as nat),
                pow2((ka + 1) as nat) <= pow2(kb as nat),
                pow2(ka as nat) > 0,
        ;
    } else if ka == kb && ma < mb {
        assert(ma as nat * pow2(ka as nat) < mb as nat * pow2(ka as nat)) by (nonlinear_arith)
            requires
                ma < mb,
                pow2(ka as nat) > 0,
        ;
    }
}

/// The nearest double of what is a double already.
fn repack(neg: bool, m: u64, k: u32) -> (r: Double)
    requires
        m < 0x20_0000_0000_0000,
        k <= 2045,
    ensures
        r@ == (Value::Fin { neg, mag: m as nat * pow2(k as nat) }),
{
    proof {
        lemma2_to64();
        lemma2_to64_rest();
        lemma_round_exact(m as nat, k as nat, 1);
        lemma_pow2_adds(53, k as nat);
        lemma_pow2_pos(k as nat);
        lemma_pow2_ordered(53 + k as nat, 2098);
        assert(m as nat * pow2(k as nat) < 0x20_0000_0000_0000 * pow2(k as nat)) by (
        nonlinear_arith)
            requires
                m < 0x20_0000_0000_0000,
                pow2(k as nat) > 0,
        ;
    }
    round_pack(neg, m as u128, k as i64)
}

impl Double {
    /// `self * other`.
    pub fn times(self, other: Double) -> (r: Double)
        ensures
            r@ == self@.times(other@),
    {
        match (self.parts(), other.parts()) {
            (Parts::Nan, _) => Double::nan(),
            (_, Parts::Nan) => Double::nan(),
            (Parts::Inf { neg: a }, Parts::Inf { neg: b }) => Double::inf(a != b),
            (Parts::Inf { neg: a }, Parts::Fin { neg: b, m, k }) => {
                proof {
                    lemma_magnitude(m, k);
                }
                if m == 0 {
                    Double::nan()
                } else {
                    Double::inf(a != b)
                }
            },
            (Parts::Fin { neg: a, m, k }, Parts::Inf { neg: b }) => {
                proof {
                    lemma_magnitude(m, k);
                }
                if m == 0 {
                    Double::nan()
                } else {
                    Double::inf(a != b)
                }
            },
            (Parts::Fin { neg: a, m: ma, k: ka }, Parts::Fin { neg: b, m: mb, k: kb }) => {
                mul_finite(a != b, ma, ka, mb, kb)
            },
        }
    }

    /// `self / other`.
    pub fn over(self, other: Double) -> (r: Double)
        ensures
            r@ == self@.over(other@),
    {
        match (self.parts(), other.parts()) {
            (Parts::Nan, _) => Double::nan(),
            (_, Parts::Nan) => Double::nan(),
            (Parts::Inf { .. }, Parts::Inf { .. }) => Double::nan(),
            (Parts::Inf { neg: a }, Parts::Fin { neg: b, .. }) => Double::inf(a != b),
            (Parts::Fin { neg: a, .. }, Parts::Inf { neg: b }) => {
                if a != b {
                    Double::neg_zero()
                } else {
                    Double::zero()
                }
            },
            (Parts::Fin { neg: a, m: ma, k: ka }, Parts::Fin { neg: b, m: mb, k: kb }) => {
                proof {
                    lemma_magnitude(ma, ka);
                    lemma_magnitude(mb, kb);
                }
                if mb == 0 {
                    if ma == 0 {
                        Double::nan()
                    } else {
                        Double::inf(a != b)
                    }
                } else {
                    div_finite(a != b, ma, ka, mb, kb)
                }
            },
        }
    }

    /// `self % other`.
    pub fn modulo(self, other: Double) -> (r: Double)
        ensures
            r@ == self@.modulo(other@),
    {
        match (self.parts(), other.parts()) {
            (Parts::Nan, _) => Double::nan(),
            (_, Parts::Nan) => Double::nan(),
            (Parts::Inf { .. }, _) => Double::nan(),
            (_, Parts::Inf { .. }) => self,
            (Parts::Fin { neg, m: ma, k: ka }, Parts::Fin { m: mb, k: kb, .. }) => {
                proof {
                    lemma_magnitude(mb, kb);
                }
                if mb == 0 {
                    Double::nan()
                } else if ka < kb {
                    proof {
                        lemma_mag_order(ma, ka, mb, kb);
                        vstd::arithmetic::div_mod::lemma_small_mod(
                            ma as nat * pow2(ka as nat),
                            mb as nat * pow2(kb as nat),
                        );
                    }
                    self
                } else {
                    let gap: u32 = ka - kb;
                    let rest: u64 = mod_shifted(ma, gap, mb);
                    proof {
                        let unit = pow2(kb as nat);
                        let x = ma as nat * pow2(gap as nat);
                        lemma_pow2_pos(kb as nat);
                        lemma_pow2_adds(gap as nat, kb as nat);
                        assert(ma as nat * pow2(ka as nat) == unit * x) by (nonlinear_arith)
                            requires
                                x == ma as nat * pow2(gap as nat),
                                pow2(ka as nat) == pow2(gap as nat) * unit,
                        ;
                        vstd::arithmetic::div_mod::lemma_truncate_middle(
                            x as int,
                            unit as int,
                            mb as int,
                        );
                        assert(unit * (x % mb as nat) == rest as nat * unit) by (nonlinear_arith)
                            requires
                                rest == x % mb as nat,
                        ;
                        assert(unit * mb == mb as nat * unit) by (nonlinear_arith);
                    }
                    repack(neg, rest, kb)
                }
            },
        }
    }

    /// `self < other`.
    pub fn lt(self, other: Double) -> (r: bool)
        ensures
            r == self@.lt(other@),
    {
        match (self.parts(), other.parts()) {
            (Parts::Nan, _) => false,
            (_, Parts::Nan) => false,
            (Parts::Inf { neg: a }, Parts::Inf { neg: b }) => a && !b,
            (Parts::Inf { neg }, Parts::Fin { .. }) => neg,
            (Parts::Fin { .. }, Parts::Inf { neg }) => !neg,
            (Parts::Fin { neg: a, m: ma, k: ka }, Parts::Fin { neg: b, m: mb, k: kb }) => {
                proof {
                    lemma_magnitude(ma, ka);
                    lemma_magnitude(mb, kb);
                }
                if a {
                    if b {
                        mag_lt(mb, kb, ma, ka)
                    } else {
                        ma > 0 || mb > 0
                    }
                } else if b {
                    false
                } else {
                    mag_lt(ma, ka, mb, kb)
                }
            },
        }
    }

    fn is_nan(self) -> (r: bool)
        ensures
            r == (self@ is Nan),
    {
        match self.parts() {
            Parts::Nan => true,
            _ => false,
        }
    }

    /// `self <= other`.
    pub fn le(self, other: Double) -> (r: bool)
        ensures
            r == self@.le(other@),
    {
        !self.is_nan() && !other.is_nan() && !other.lt(self)
    }

    /// The larger of the two; where one is not a number, the other.
    pub fn max(self, other: Double) -> (r: Double)
        ensures
            r@ == self@.max(other@),
    {
        if self.is_nan() || self.lt(other) {
            other
        } else {
            self
        }
    }

    /// The smaller of the two; where one is not a number, the other.
    pub fn min(self, other: Double) -> (r: Double)
        ensures
            r@ == self@.min(other@),
    {
        if self.is_nan() || other.lt(self) {
            other
        } else {
            self
        }
    }

    /// The double without its sign.
    pub fn abs(self) -> (r: Double)
        ensures
            r@ == self@.abs(),
    {
        if self.bits >= 0x8000_0000_0000_0000 {
            Double { bits: self.bits - 0x8000_0000_0000_0000 }
        } else {
            self
        }
    }
}

impl Double {
    /// The double nearest to `n / d`.
    pub fn ratio(n: u64, d: u64) -> (r: Double)
        requires
            n <= 0x20_0000_0000_0000,
            0 < d <= 0x20_0000_0000_0000,
        ensures
            r@ == Value::ratio(n as nat, d as nat),
    {
        proof {
            let one = one_in_quanta();
            lemma2_to64_rest();
            lemma_pow2_pos(1074);
            lemma_pow2_adds(53, 1074);
            lemma_pow2_strictly_increases(53 + 1074, 2098);
            lemma_whole_exact(n as nat);
            lemma_whole_exact(d as nat);
            lemma_positive_product(d as nat, one);
            lemma_round_common(n as nat * one, d as nat, one);
        }
        Double::from_u64(n).over(Double::from_u64(d))
    }

    /// The double without its fraction, moved into the range of a `u64`.
    pub fn to_u64(self) -> (r: u64)
        ensures
            r == self@.to_u64(),
    {
        match self.parts() {
            Parts::Nan => 0,
            Parts::Inf { neg } => if neg {
                0
            } else {
                u64::MAX
            },
            Parts::Fin { neg, m, k } => {
                if neg {
                    return 0;
                }
                proof {
                    lemma2_to64();
                    lemma2_to64_rest();
                    lemma_pow2_pos(1074);
                    lemma_pow2_pos(k as nat);
                }
                let ghost mag = m as nat * pow2(k as nat);
                if k >= 1074 {
                    let s: u32 = k - 1074;
                    proof {
                        lemma_pow2_adds(s as nat, 1074);
                        lemma_pow2_pos(s as nat);
                        let w = m as nat * pow2(s as nat);
                        assert(mag == w * one_in_quanta()) by (nonlinear_arith)
                            requires
                                mag == m as nat * pow2(k as nat),
                                pow2(k as nat) == pow2(s as nat) * one_in_quanta(),
                                w == m as nat * pow2(s as nat),
                        ;
                        vstd::arithmetic::div_mod::lemma_div_by_multiple(
                            w as int,
                            one_in_quanta() as int,
                        );
                        if s >= 12 {
                            lemma_pow2_ordered(12, s as nat);
                            assert(w >= 0x1_0000_0000_0000_0000) by (nonlinear_arith)
                                requires
                                    w == m as nat * pow2(s as nat),
                                    m >= 0x10_0000_0000_0000,
                                    pow2(s as nat) >= 0x1000,
                            ;
                        } else {
                            lemma_pow2_ordered(s as nat, 11);
                            assert(w < 0x1_0000_0000_0000_0000) by (nonlinear_arith)
                                requires
                                    w == m as nat * pow2(s as nat),
                                    m < 0x20_0000_0000_0000,
                                    0 < pow2(s as nat) <= 0x800,
                            ;
                        }
                    }
                    if s >= 12 {
                        u64::MAX
                    } else {
                        let factor: u128 = power(s);
                        (m as u128 * factor) as u64
                    }
                } else {
                    let t: u32 = 1074 - k;
                    proof {
                        lemma_pow2_adds(t as nat, k as nat);
                        lemma_pow2_pos(t as nat);
                        vstd::arithmetic::div_mod::lemma_div_denominator(
                            mag as int,
                            pow2(k as nat) as int,
                            pow2(t as nat) as int,
                        );
                        vstd::arithmetic::div_mod::lemma_div_by_multiple(
                            m as int,
                            pow2(k as nat) as int,
                        );
                        assert(pow2(k as nat) * pow2(t as nat) == one_in_quanta()) by (
                        nonlinear_arith)
                            requires
                                one_in_quanta() == pow2(t as nat) * pow2(k as nat),
                        ;
                        assert(mag / one_in_quanta() == m as nat / pow2(t as nat));
                        if t >= 53 {
                            lemma_pow2_ordered(53, t as nat);
                            vstd::arithmetic::div_mod::lemma_basic_div(
                                m as int,
                                pow2(t as nat) as int,
                            );
                        } else {
                            vstd::arithmetic::div_mod::lemma_div_nonincreasing(
                                m as int,
                                pow2(t as nat) as int,
                            );
                        }
                    }
                    if t >= 53 {
                        0
                    } else {
                        (m as u128 / power(t)) as u64
                    }
                }
            },
        }
    }

    /// A number of seconds in whole nanoseconds, the nearest, ties to even. Seconds
    /// below zero, from 2 to the power 64 on, and what is not finite are left out.
    pub fn to_nanos(self) -> (r: u128)
        requires
            self@ is Fin,
            0 <= self@.quanta() < pow2(64) * one_in_quanta(),
        ensures
            r == nearest(self@.quanta() as nat * 1_000_000_000, one_in_quanta()),
            r < 0x1_0000_0000_0000_0000 * 1_000_000_000,
    {
        match self.parts() {
            Parts::Fin { neg, m, k } => {
                let ghost mag = m as nat * pow2(k as nat);
                let n: u128 = m as u128 * 1_000_000_000;
                proof {
                    lemma2_to64();
                    lemma2_to64_rest();
                    lemma_pow2_pos(1074);
                    lemma_pow2_pos(k as nat);
                    lemma_magnitude(m, k);
                    assert(self@.quanta() == mag);
                    assert(mag * 1_000_000_000 == n * pow2(k as nat)) by (nonlinear_arith)
                        requires
                            mag == m as nat * pow2(k as nat),
                            n == m * 1_000_000_000,
                    ;
                }
                if k >= 1074 {
                    let s: u32 = k - 1074;
                    proof {
                        lemma_pow2_adds(s as nat, 1074);
                        lemma_pow2_pos(s as nat);
                        if s >= 12 {
                            lemma_pow2_ordered(12, s as nat);
                            assert(false) by (nonlinear_arith)
                                requires
                                    mag == m as nat * pow2(k as nat),
                                    pow2(k as nat) == pow2(s as nat) * one_in_quanta(),
                                    m >= 0x10_0000_0000_0000,
                                    pow2(s as nat) >= 0x1000,
                                    mag < 0x1_0000_0000_0000_0000 * one_in_quanta(),
                                    one_in_quanta() > 0,
                            ;
                        }
                        lemma_pow2_ordered(s as nat, 11);
                        let w = n as nat * pow2(s as nat);
                        assert(n * pow2(k as nat) == w * one_in_quanta()) by (nonlinear_arith)
                            requires
                                pow2(k as nat) == pow2(s as nat) * one_in_quanta(),
                                w == n as nat * pow2(s as nat),
                        ;
                        lemma_nearest_exact(w, one_in_quanta());
                        assert(w < 0x20_0000_0000_0000 * 1_000_000_000 * 0x800) by (
                        nonlinear_arith)
                            requires
                                w == n as nat * pow2(s as nat),
                                n < 0x20_0000_0000_0000 * 1_000_000_000,
                                0 < pow2(s as nat) <= 0x800,
                        ;
                    }
                    n * power(s)
                } else {
                    let t: u32 = 1074 - k;
                    proof {
                        lemma_pow2_adds(t as nat, k as nat);
                        lemma_pow2_pos(t as nat);
                        lemma_nearest_common(n as nat, pow2(t as nat), pow2(k as nat));
                    }
                    if t >= 85 {
                        proof {
                            lemma_pow2_ordered(85, t as nat);
                            lemma_pow2_adds(21, 64);
                            let g = pow2(t as nat);
                            assert((2 * 0 - 1) * g == -g) by (nonlinear_arith);
                            assert((2 * 0 + 1) * g == g) by (nonlinear_arith);
                            lemma_nearest_unique(n as nat, g, 0);
                        }
                        0
                    } else {
                        let g: u128 = power(t);
                        let q: u128 = n / g;
                        let r: u128 = n % g;
                        proof {
                            lemma_pow2_ordered(t as nat, 85);
                            lemma_pow2_adds(21, 64);
                            vstd::arithmetic::div_mod::lemma_div_nonincreasing(
                                n as int,
                                g as int,
                            );
                        }
                        if 2 * r < g || (2 * r == g && q % 2 == 0) {
                            q
                        } else {
                            q + 1
                        }
                    }
                }
            },
            _ => 0,
        }
    }
}

/// A whole number of at most 53 bits is a double.
pub proof fn lemma_whole_exact(n: nat)
    requires
        n <= 0x20_0000_0000_0000,
    ensures
        Value::whole(n) == (Value::Fin { neg: false, mag: n * one_in_quanta() }),
{
    lemma2_to64_rest();
    lemma_pow2_pos(1074);
    lemma_pow2_adds(53, 1074);
    lemma_pow2_strictly_increases(53 + 1074, 2098);
    lemma_round_exact(n, 1074, 1);
    assert(n * one_in_quanta() <= 0x20_0000_0000_0000 * one_in_quanta()) by (nonlinear_arith)
        requires
            n <= 0x20_0000_0000_0000,
    ;
}

} // verus!
