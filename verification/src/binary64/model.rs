//! What a double-precision number stands for, and what its operations return.
//!
//! Every finite double is a whole number of quanta, a quantum being 2 to the
//! power -1074. A finite value is therefore a sign and a natural number, and an
//! operation is its exact result, rounded once to the nearest double.

use vstd::arithmetic::power2::pow2;
use vstd::prelude::*;

verus! {

/// The number that a double stands for.
pub enum Value {
    /// Not a number.
    Nan,
    /// An infinity, with its sign.
    Inf { neg: bool },
    /// `mag` quanta, with a sign; zero has one too.
    Fin { neg: bool, mag: nat },
}

/// How many quanta make one.
pub open spec fn one_in_quanta() -> nat {
    pow2(1074)
}

/// The first magnitude that is too large for a double, in quanta.
pub open spec fn overflow_bound() -> nat {
    pow2(2098)
}

/// The whole number nearest to `n / d`; of two equally near, the even one.
pub open spec fn nearest(n: nat, d: nat) -> nat {
    let q = n / d;
    let r = n % d;
    if 2 * r < d || (2 * r == d && q % 2 == 0) {
        q
    } else {
        q + 1
    }
}

/// How many times `n / d` has to be halved until it is below 2 to the power 53.
pub open spec fn scale(n: nat, d: nat) -> nat
    decreases n - d,
{
    if d == 0 || n < d * 0x20_0000_0000_0000 {
        0
    } else {
        1 + scale(n, 2 * d)
    }
}

/// `n / d` rounded to 53 significant bits, ties to even. Nothing below one is kept.
pub open spec fn round_mag(n: nat, d: nat) -> nat {
    let k = scale(n, d);
    nearest(n, d * pow2(k)) * pow2(k)
}

/// Whether a magnitude has at most 53 significant bits.
pub open spec fn significant(x: nat) -> bool {
    exists|m: nat, k: nat| m < 0x20_0000_0000_0000 && x == #[trigger] (m * pow2(k))
}

/// Whether a magnitude is that of a double.
pub open spec fn representable(x: nat) -> bool {
    x < overflow_bound() && significant(x)
}

impl Value {
    /// The double nearest to `n / d` quanta, with the sign given.
    pub open spec fn round(neg: bool, n: nat, d: nat) -> Value {
        let mag = round_mag(n, d);
        if mag >= overflow_bound() {
            Value::Inf { neg }
        } else {
            Value::Fin { neg, mag }
        }
    }

    /// Whether a double stands for this value.
    pub open spec fn is_double(self) -> bool {
        self matches Value::Fin { mag, .. } ==> representable(mag)
    }

    /// A finite value in quanta, with its sign.
    pub open spec fn quanta(self) -> int {
        match self {
            Value::Fin { neg, mag } => if neg {
                -(mag as int)
            } else {
                mag as int
            },
            _ => 0,
        }
    }

    pub open spec fn zero() -> Value {
        Value::Fin { neg: false, mag: 0 }
    }

    /// Zero with the minus sign, the sum of no terms.
    pub open spec fn neg_zero() -> Value {
        Value::Fin { neg: true, mag: 0 }
    }

    pub open spec fn infinity() -> Value {
        Value::Inf { neg: false }
    }

    /// The double nearest to `n / d`.
    pub open spec fn ratio(n: nat, d: nat) -> Value {
        Value::round(false, n * one_in_quanta(), d)
    }

    /// The double nearest to the whole number `n`.
    pub open spec fn whole(n: nat) -> Value {
        Value::ratio(n, 1)
    }

    pub open spec fn one() -> Value {
        Value::whole(1)
    }

    pub open spec fn negated(self) -> Value {
        match self {
            Value::Nan => Value::Nan,
            Value::Inf { neg } => Value::Inf { neg: !neg },
            Value::Fin { neg, mag } => Value::Fin { neg: !neg, mag },
        }
    }

    /// The exact sum `s` of two finite values, rounded; a zero sum is negative only
    /// where both terms are.
    pub open spec fn rounded_sum(s: int, both_neg: bool) -> Value {
        if s == 0 {
            Value::Fin { neg: both_neg, mag: 0 }
        } else if s < 0 {
            Value::round(true, (-s) as nat, 1)
        } else {
            Value::round(false, s as nat, 1)
        }
    }

    /// `self + other`.
    pub open spec fn plus(self, other: Value) -> Value {
        match (self, other) {
            (Value::Nan, _) => Value::Nan,
            (_, Value::Nan) => Value::Nan,
            (Value::Inf { neg: a }, Value::Inf { neg: b }) => if a == b {
                self
            } else {
                Value::Nan
            },
            (Value::Inf { .. }, _) => self,
            (_, Value::Inf { .. }) => other,
            (Value::Fin { neg: a, .. }, Value::Fin { neg: b, .. }) => Value::rounded_sum(
                self.quanta() + other.quanta(),
                a && b,
            ),
        }
    }

    /// `self - other`.
    pub open spec fn minus(self, other: Value) -> Value {
        self.plus(other.negated())
    }

    /// `self * other`.
    pub open spec fn times(self, other: Value) -> Value {
        match (self, other) {
            (Value::Nan, _) => Value::Nan,
            (_, Value::Nan) => Value::Nan,
            (Value::Inf { neg: a }, Value::Inf { neg: b }) => Value::Inf { neg: a != b },
            (Value::Inf { neg: a }, Value::Fin { neg: b, mag }) => if mag == 0 {
                Value::Nan
            } else {
                Value::Inf { neg: a != b }
            },
            (Value::Fin { neg: a, mag }, Value::Inf { neg: b }) => if mag == 0 {
                Value::Nan
            } else {
                Value::Inf { neg: a != b }
            },
            (Value::Fin { neg: a, mag: x }, Value::Fin { neg: b, mag: y }) => Value::round(
                a != b,
                x * y,
                one_in_quanta(),
            ),
        }
    }

    /// `self / other`.
    pub open spec fn over(self, other: Value) -> Value {
        match (self, other) {
            (Value::Nan, _) => Value::Nan,
            (_, Value::Nan) => Value::Nan,
            (Value::Inf { .. }, Value::Inf { .. }) => Value::Nan,
            (Value::Inf { neg: a }, Value::Fin { neg: b, .. }) => Value::Inf { neg: a != b },
            (Value::Fin { neg: a, .. }, Value::Inf { neg: b }) => Value::Fin {
                neg: a != b,
                mag: 0,
            },
            (Value::Fin { neg: a, mag: x }, Value::Fin { neg: b, mag: y }) => if y == 0 {
                if x == 0 {
                    Value::Nan
                } else {
                    Value::Inf { neg: a != b }
                }
            } else {
                Value::round(a != b, x * one_in_quanta(), y)
            },
        }
    }

    /// `self % other`: what is left of `self` once `other` has been taken away as
    /// often as it fits, with the sign of `self`. It is exact.
    pub open spec fn modulo(self, other: Value) -> Value {
        match (self, other) {
            (Value::Nan, _) => Value::Nan,
            (_, Value::Nan) => Value::Nan,
            (Value::Inf { .. }, _) => Value::Nan,
            (_, Value::Inf { .. }) => self,
            (Value::Fin { neg, mag: x }, Value::Fin { mag: y, .. }) => if y == 0 {
                Value::Nan
            } else {
                Value::Fin { neg, mag: x % y }
            },
        }
    }

    /// `self < other`. Nothing is below or above what is not a number.
    pub open spec fn lt(self, other: Value) -> bool {
        match (self, other) {
            (Value::Nan, _) => false,
            (_, Value::Nan) => false,
            (Value::Inf { neg: a }, Value::Inf { neg: b }) => a && !b,
            (Value::Inf { neg }, Value::Fin { .. }) => neg,
            (Value::Fin { .. }, Value::Inf { neg }) => !neg,
            (Value::Fin { .. }, Value::Fin { .. }) => self.quanta() < other.quanta(),
        }
    }

    /// `self <= other`.
    pub open spec fn le(self, other: Value) -> bool {
        !(self is Nan) && !(other is Nan) && !other.lt(self)
    }

    /// The larger of the two; where one is not a number, the other.
    pub open spec fn max(self, other: Value) -> Value {
        if self is Nan || self.lt(other) {
            other
        } else {
            self
        }
    }

    /// The smaller of the two; where one is not a number, the other.
    pub open spec fn min(self, other: Value) -> Value {
        if self is Nan || other.lt(self) {
            other
        } else {
            self
        }
    }

    /// The value without its sign.
    pub open spec fn abs(self) -> Value {
        match self {
            Value::Nan => Value::Nan,
            Value::Inf { .. } => Value::Inf { neg: false },
            Value::Fin { mag, .. } => Value::Fin { neg: false, mag },
        }
    }

    /// The value without its fraction, moved into the range of a `u64`; zero for
    /// what is not a number.
    pub open spec fn to_u64(self) -> nat {
        match self {
            Value::Nan => 0,
            Value::Inf { neg } => if neg {
                0
            } else {
                u64::MAX as nat
            },
            Value::Fin { neg, mag } => if neg {
                0
            } else if mag / one_in_quanta() > u64::MAX {
                u64::MAX as nat
            } else {
                mag / one_in_quanta()
            },
        }
    }
}

/// The sum of the terms, taken from the first to the last.
pub open spec fn sum(terms: Seq<Value>) -> Value
    decreases terms.len(),
{
    if terms.len() == 0 {
        Value::neg_zero()
    } else {
        sum(terms.drop_last()).plus(terms.last())
    }
}

/// The highest of the terms, and zero where none is above it.
pub open spec fn highest(terms: Seq<Value>) -> Value
    decreases terms.len(),
{
    if terms.len() == 0 {
        Value::zero()
    } else {
        highest(terms.drop_last()).max(terms.last())
    }
}

/// The value that 64 bits encode: a sign, eleven bits of exponent, 52 of fraction.
pub open spec fn decode(bits: u64) -> Value {
    let neg = bits >= 0x8000_0000_0000_0000;
    let exponent = (bits / 0x10_0000_0000_0000) % 0x800;
    let fraction = bits % 0x10_0000_0000_0000;
    if exponent == 0x7ff {
        if fraction == 0 {
            Value::Inf { neg }
        } else {
            Value::Nan
        }
    } else if exponent == 0 {
        Value::Fin { neg, mag: fraction as nat }
    } else {
        Value::Fin {
            neg,
            mag: (0x10_0000_0000_0000 + fraction) as nat * pow2((exponent - 1) as nat),
        }
    }
}

} // verus!
