//! A fixed-point decimal with eighteen fractional digits, backed by an
//! `i128`. A value's mathematical meaning is `raw / 10^18`.
//!
//! Arithmetic is exact and truncating: multiplication computes
//! `trunc(a * b / 10^18)` and division `trunc(a * 10^18 / b)`, both toward
//! zero, through full-width intermediates, and reports overflow instead of
//! wrapping. Every operation's contract pins the result raw value exactly.

use crate::errors::EngineError;
use crate::wide::{div256, mul_u128, val256};
use vstd::prelude::*;

verus! {

/// The scale factor: one unit is `10^18` raw steps.
pub const SCALE: i128 = 1_000_000_000_000_000_000;

/// Whether a mathematical integer fits the raw range of a [`Decimal`].
pub open spec fn in_range(x: int) -> bool {
    i128::MIN <= x <= i128::MAX
}

/// Absolute value of a mathematical integer.
pub open spec fn abs_int(a: int) -> int {
    if a >= 0 {
        a
    } else {
        -a
    }
}

/// Division truncated toward zero, the rounding of the fixed-point
/// arithmetic (`b != 0`).
pub open spec fn trunc_div(a: int, b: int) -> int {
    if (a < 0) == (b < 0) {
        abs_int(a) / abs_int(b)
    } else {
        -(abs_int(a) / abs_int(b))
    }
}

/// Raw value of the sum, or the overflow error.
pub open spec fn spec_add(a: int, b: int) -> Result<int, EngineError> {
    if in_range(a + b) {
        Ok(a + b)
    } else {
        Err(EngineError::Overflow)
    }
}

/// Raw value of the difference, or the overflow error.
pub open spec fn spec_sub(a: int, b: int) -> Result<int, EngineError> {
    if in_range(a - b) {
        Ok(a - b)
    } else {
        Err(EngineError::Overflow)
    }
}

/// Raw value of the fixed-point product `trunc(a * b / 10^18)`, or the
/// overflow error.
pub open spec fn spec_mul(a: int, b: int) -> Result<int, EngineError> {
    if in_range(trunc_div(a * b, SCALE as int)) {
        Ok(trunc_div(a * b, SCALE as int))
    } else {
        Err(EngineError::Overflow)
    }
}

/// Raw value of the fixed-point quotient `trunc(a * 10^18 / b)`, or the
/// division-by-zero or overflow error.
pub open spec fn spec_div(a: int, b: int) -> Result<int, EngineError> {
    if b == 0 {
        Err(EngineError::DivisionByZero)
    } else if in_range(trunc_div(a * SCALE as int, b)) {
        Ok(trunc_div(a * SCALE as int, b))
    } else {
        Err(EngineError::Overflow)
    }
}

/// Every decimal's view is the value of its backing `i128`, so it lies in
/// the raw range.
pub broadcast proof fn lemma_decimal_view_range(d: Decimal)
    ensures
        in_range(#[trigger] d@),
{
}

/// Whether an executable decimal result agrees with a specification-level
/// raw result: same error, or a value whose raw is the specified integer.
pub open spec fn res_matches(r: Result<Decimal, EngineError>, s: Result<int, EngineError>) -> bool {
    match r {
        Ok(d) => s == Ok::<int, EngineError>(d@),
        Err(e) => s == Err::<int, EngineError>(e),
    }
}

/// A fixed-point decimal amount with eighteen fractional digits.
#[derive(Clone, Copy, Debug, PartialEq, Eq, Structural)]
pub struct Decimal {
    raw: i128,
}

impl View for Decimal {
    type V = int;

    closed spec fn view(&self) -> int {
        self.raw as int
    }
}

/// The absolute value of `a`, as a `u128`.
fn magnitude(a: i128) -> (r: u128)
    ensures
        r as int == abs_int(a as int),
{
    if a >= 0 {
        a as u128
    } else {
        ((-(a + 1)) as u128) + 1
    }
}

/// Rebuilds a signed raw value from a sign and a magnitude, or reports
/// overflow.
fn from_mag(neg: bool, mag: u128) -> (r: Result<i128, EngineError>)
    ensures
        ({
            let v: int = if neg {
                -(mag as int)
            } else {
                mag as int
            };
            match r {
                Ok(x) => in_range(v) && x as int == v,
                Err(e) => e == EngineError::Overflow && !in_range(v),
            }
        }),
{
    if neg {
        if mag <= 0x8000_0000_0000_0000_0000_0000_0000_0000u128 {
            if mag == 0x8000_0000_0000_0000_0000_0000_0000_0000u128 {
                Ok(i128::MIN)
            } else {
                Ok(-(mag as i128))
            }
        } else {
            Err(EngineError::Overflow)
        }
    } else {
        if mag <= 0x7fff_ffff_ffff_ffff_ffff_ffff_ffff_ffffu128 {
            Ok(mag as i128)
        } else {
            Err(EngineError::Overflow)
        }
    }
}

impl Decimal {
    /// The decimal whose raw value is `raw`; `from_raw(x)` means `x / 10^18`.
    pub fn from_raw(raw: i128) -> (r: Decimal)
        ensures
            r@ == raw as int,
    {
        Decimal { raw }
    }

    /// The raw value backing this decimal.
    pub fn raw(&self) -> (r: i128)
        ensures
            r as int == self@,
    {
        self.raw
    }

    /// Zero.
    pub fn zero() -> (r: Decimal)
        ensures
            r@ == 0,
    {
        Decimal { raw: 0 }
    }

    /// One.
    pub fn one() -> (r: Decimal)
        ensures
            r@ == SCALE as int,
    {
        Decimal { raw: SCALE }
    }

    /// The decimal equal to the integer `i`.
    pub fn from_int(i: i64) -> (r: Decimal)
        ensures
            r@ == i as int * SCALE as int,
    {
        proof {
            assert(in_range(i as int * SCALE as int)) by (nonlinear_arith)
                requires
                    -0x8000_0000_0000_0000 <= i as int <= 0x7fff_ffff_ffff_ffff,
            {
            }
        }
        Decimal { raw: (i as i128) * SCALE }
    }

    pub fn is_zero(&self) -> (r: bool)
        ensures
            r <==> self@ == 0,
    {
        self.raw == 0
    }

    pub fn is_positive(&self) -> (r: bool)
        ensures
            r <==> self@ > 0,
    {
        self.raw > 0
    }

    pub fn is_negative(&self) -> (r: bool)
        ensures
            r <==> self@ < 0,
    {
        self.raw < 0
    }

    pub fn lt(&self, other: &Decimal) -> (r: bool)
        ensures
            r <==> self@ < other@,
    {
        self.raw < other.raw
    }

    pub fn le(&self, other: &Decimal) -> (r: bool)
        ensures
            r <==> self@ <= other@,
    {
        self.raw <= other.raw
    }

    pub fn gt(&self, other: &Decimal) -> (r: bool)
        ensures
            r <==> self@ > other@,
    {
        self.raw > other.raw
    }

    pub fn ge(&self, other: &Decimal) -> (r: bool)
        ensures
            r <==> self@ >= other@,
    {
        self.raw >= other.raw
    }

    /// The absolute value (defined whenever it is representable).
    pub fn abs(&self) -> (r: Decimal)
        requires
            self@ != i128::MIN,
        ensures
            r@ == abs_int(self@),
    {
        if self.raw >= 0 {
            *self
        } else {
            Decimal { raw: -self.raw }
        }
    }

    /// The negation, or the overflow error at the single unrepresentable
    /// point.
    pub fn checked_neg(&self) -> (r: Result<Decimal, EngineError>)
        ensures
            match r {
                Ok(d) => in_range(-self@) && d@ == -self@,
                Err(e) => e == EngineError::Overflow && !in_range(-self@),
            },
    {
        if self.raw == i128::MIN {
            Err(EngineError::Overflow)
        } else {
            Ok(Decimal { raw: -self.raw })
        }
    }

    /// Exact checked addition.
    pub fn checked_add(&self, rhs: &Decimal) -> (r: Result<Decimal, EngineError>)
        ensures
            match r {
                Ok(d) => spec_add(self@, rhs@) == Ok::<int, EngineError>(d@),
                Err(e) => spec_add(self@, rhs@) == Err::<int, EngineError>(e),
            },
    {
        if rhs.raw >= 0 {
            if self.raw <= i128::MAX - rhs.raw {
                Ok(Decimal { raw: self.raw + rhs.raw })
            } else {
                Err(EngineError::Overflow)
            }
        } else {
            if self.raw >= i128::MIN - rhs.raw {
                Ok(Decimal { raw: self.raw + rhs.raw })
            } else {
                Err(EngineError::Overflow)
            }
        }
    }

    /// Exact checked subtraction.
    pub fn checked_sub(&self, rhs: &Decimal) -> (r: Result<Decimal, EngineError>)
        ensures
            match r {
                Ok(d) => spec_sub(self@, rhs@) == Ok::<int, EngineError>(d@),
                Err(e) => spec_sub(self@, rhs@) == Err::<int, EngineError>(e),
            },
    {
        if rhs.raw <= 0 {
            if self.raw <= i128::MAX + rhs.raw {
                Ok(Decimal { raw: self.raw - rhs.raw })
            } else {
                Err(EngineError::Overflow)
            }
        } else {
            if self.raw >= i128::MIN + rhs.raw {
                Ok(Decimal { raw: self.raw - rhs.raw })
            } else {
                Err(EngineError::Overflow)
            }
        }
    }

    /// Fixed-point multiplication `trunc(a * b / 10^18)`, exact through a
    /// 256-bit intermediate product.
    pub fn checked_mul(&self, rhs: &Decimal) -> (r: Result<Decimal, EngineError>)
        ensures
            match r {
                Ok(d) => spec_mul(self@, rhs@) == Ok::<int, EngineError>(d@),
                Err(e) => spec_mul(self@, rhs@) == Err::<int, EngineError>(e),
            },
    {
        let neg = (self.raw < 0) != (rhs.raw < 0);
        let ma = magnitude(self.raw);
        let mb = magnitude(rhs.raw);
        let p = mul_u128(ma, mb);
        proof {
            assert(ma as int * mb as int == abs_int(self@ * rhs@)) by (nonlinear_arith)
                requires
                    ma as int == abs_int(self@),
                    mb as int == abs_int(rhs@),
            {
            }
            if self@ * rhs@ != 0 {
                assert((self@ * rhs@ < 0) == ((self@ < 0) != (rhs@ < 0))) by (nonlinear_arith)
                    requires
                        self@ * rhs@ != 0,
                {
                }
            }
        }
        match div256(p.0, p.1, SCALE as u128) {
            None => {
                proof {
                    lemma_trunc_mag(self@ * rhs@, SCALE as int, val256(p.0, p.1) / (
                    SCALE as int), neg);
                }
                Err(EngineError::Overflow)
            },
            Some(q) => {
                proof {
                    lemma_trunc_mag(self@ * rhs@, SCALE as int, q as int, neg);
                }
                match from_mag(neg, q) {
                    Ok(raw) => Ok(Decimal { raw }),
                    Err(e) => Err(e),
                }
            },
        }
    }

    /// Fixed-point division `trunc(a * 10^18 / b)`, exact through a 256-bit
    /// intermediate.
    pub fn checked_div(&self, rhs: &Decimal) -> (r: Result<Decimal, EngineError>)
        ensures
            match r {
                Ok(d) => spec_div(self@, rhs@) == Ok::<int, EngineError>(d@),
                Err(e) => spec_div(self@, rhs@) == Err::<int, EngineError>(e),
            },
    {
        if rhs.raw == 0 {
            return Err(EngineError::DivisionByZero);
        }
        let neg = (self.raw < 0) != (rhs.raw < 0);
        let ma = magnitude(self.raw);
        let mb = magnitude(rhs.raw);
        let p = mul_u128(ma, SCALE as u128);
        proof {
            assert(ma as int * SCALE as int == abs_int(self@ * SCALE as int)) by (nonlinear_arith)
                requires
                    ma as int == abs_int(self@),
                    SCALE == 1_000_000_000_000_000_000i128,
            {
            }
            if self@ * (SCALE as int) != 0 {
                assert(((self@ * (SCALE as int)) < 0) == (self@ < 0)) by (nonlinear_arith)
                    requires
                        SCALE == 1_000_000_000_000_000_000i128,
                {
                }
                assert(self@ != 0) by (nonlinear_arith)
                    requires
                        self@ * (SCALE as int) != 0,
                {
                }
            }
        }
        match div256(p.0, p.1, mb) {
            None => {
                proof {
                    lemma_trunc_mag(self@ * SCALE as int, rhs@, val256(p.0, p.1) / (mb as int), neg);
                }
                Err(EngineError::Overflow)
            },
            Some(q) => {
                proof {
                    lemma_trunc_mag(self@ * SCALE as int, rhs@, q as int, neg);
                }
                match from_mag(neg, q) {
                    Ok(raw) => Ok(Decimal { raw }),
                    Err(e) => Err(e),
                }
            },
        }
    }

    /// Whether `self * b <= c * d` over non-negative decimals, compared
    /// exactly through 256-bit products.
    pub fn le_product(&self, b: &Decimal, c: &Decimal, d: &Decimal) -> (r: bool)
        requires
            self@ >= 0,
            b@ >= 0,
            c@ >= 0,
            d@ >= 0,
        ensures
            r <==> self@ * b@ <= c@ * d@,
    {
        let p1 = mul_u128(magnitude(self.raw), magnitude(b.raw));
        let p2 = mul_u128(magnitude(c.raw), magnitude(d.raw));
        proof {
            assert(abs_int(self@) * abs_int(b@) == self@ * b@ && abs_int(c@) * abs_int(d@) == c@
                * d@);
        }
        crate::wide::le256(p1.0, p1.1, p2.0, p2.1)
    }

    /// The whole-unit part of a non-negative decimal (its floor as an
    /// integer count of units).
    pub fn floor_units(&self) -> (r: i128)
        requires
            self@ >= 0,
        ensures
            r as int == self@ / SCALE as int,
    {
        ((self.raw as u128) / (SCALE as u128)) as i128
    }
}

/// Truncated division expressed through magnitudes: if `q` is the floor
/// quotient of the magnitudes, the truncated quotient of `a / b` is `q`
/// with the product's sign.
proof fn lemma_trunc_mag(a: int, b: int, q: int, neg: bool)
    requires
        b != 0,
        q == abs_int(a) / abs_int(b),
        a != 0 ==> neg == ((a < 0) != (b < 0)),
    ensures
        trunc_div(a, b) == if neg {
            -q
        } else {
            q
        },
{
    if a == 0 {
        assert(abs_int(a) / abs_int(b) == 0);
    }
}

} // verus!
