//! Whole numbers as the numbers of a sheet: arithmetic that is exact as long
//! as it stays between the least and the greatest `i64`, and that stops at
//! those two where it would go beyond them.

use crate::common_types::{Comparison, Decimal, Numeric};
use vstd::prelude::*;

verus! {

/// A whole number.
#[derive(PartialEq, Eq, Structural, Debug, Clone, Copy)]
pub struct Whole {
    pub value: i64,
}

/// The whole number nearest to `x` that an `i64` holds.
pub open spec fn bounded(x: int) -> i64 {
    if x > i64::MAX {
        i64::MAX
    } else if x < i64::MIN {
        i64::MIN
    } else {
        x as i64
    }
}

/// `m * 10^e` for `e >= 0`, and `m / 10^(-e)` without its fraction for
/// `e < 0`; never more than the greatest `i64`.
pub open spec fn scaled(m: nat, e: int) -> nat
    decreases
            if e >= 0 {
                e
            } else {
                -e
            },
{
    if m >= i64::MAX {
        i64::MAX as nat
    } else if e == 0 || m == 0 {
        m
    } else if e > 0 {
        scaled(m * 10, e - 1)
    } else {
        scaled(m / 10, e + 1)
    }
}

/// `a / b` without its fraction; the greatest or least number where `b` is
/// zero and `a` is not, zero where both are.
pub open spec fn divided(a: int, b: int) -> int {
    let size = if b == 0 {
        if a == 0 {
            0
        } else {
            i64::MAX + 1
        }
    } else {
        (if a < 0 {
            -a
        } else {
            a
        }) / (if b < 0 {
            -b
        } else {
            b
        })
    };
    if (a < 0) != (b < 0) {
        -size
    } else {
        size
    }
}

/// See [`bounded`].
fn bound(x: i128) -> (r: i64)
    ensures
        r == bounded(x as int),
{
    if x > i64::MAX as i128 {
        i64::MAX
    } else if x < i64::MIN as i128 {
        i64::MIN
    } else {
        x as i64
    }
}

/// The size of a number, whatever its sign.
fn size(x: i64) -> (r: u128)
    ensures
        r == if x < 0 {
            -(x as int)
        } else {
            x as int
        },
{
    if x < 0 {
        (-(x as i128)) as u128
    } else {
        x as u128
    }
}

impl Numeric for Whole {
    open spec fn decimal(value: Decimal) -> Self {
        let size = scaled(value.mantissa as nat, value.exponent as int) as int;
        Whole {
            value: if value.negative {
                (-size) as i64
            } else {
                size as i64
            },
        }
    }

    open spec fn sum(self, rhs: Self) -> Self {
        Whole { value: bounded(self.value + rhs.value) }
    }

    open spec fn difference(self, rhs: Self) -> Self {
        Whole { value: bounded(self.value - rhs.value) }
    }

    open spec fn product(self, rhs: Self) -> Self {
        Whole { value: bounded(self.value * rhs.value) }
    }

    open spec fn quotient(self, rhs: Self) -> Self {
        Whole { value: bounded(divided(self.value as int, rhs.value as int)) }
    }

    open spec fn ordering(self, rhs: Self) -> Option<Comparison> {
        Some(
            if self.value < rhs.value {
                Comparison::Less
            } else if self.value > rhs.value {
                Comparison::Greater
            } else {
                Comparison::Equal
            },
        )
    }

    fn from_decimal(value: Decimal) -> (r: Self) {
        let mut m: u128 = value.mantissa;
        let mut e: i32 = value.exponent;
        while m < i64::MAX as u128 && e != 0 && m != 0
            invariant
                scaled(m as nat, e as int) == scaled(value.mantissa as nat, value.exponent as int),
            decreases
                    if e >= 0 {
                        e as int
                    } else {
                        -(e as int)
                    },
        {
            if e > 0 {
                m = m * 10;
                e = e - 1;
            } else {
                m = m / 10;
                e = e + 1;
            }
        }
        let size: i64 = if m >= i64::MAX as u128 {
            i64::MAX
        } else {
            m as i64
        };
        Whole {
            value: if value.negative {
                -size
            } else {
                size
            },
        }
    }

    fn plus(self, rhs: Self) -> (r: Self) {
        Whole { value: bound(self.value as i128 + rhs.value as i128) }
    }

    fn minus(self, rhs: Self) -> (r: Self) {
        Whole { value: bound(self.value as i128 - rhs.value as i128) }
    }

    fn times(self, rhs: Self) -> (r: Self) {
        assert(-0x4000_0000_0000_0000_0000_0000_0000_0000 <= self.value * rhs.value
            <= 0x4000_0000_0000_0000_0000_0000_0000_0000) by (nonlinear_arith)
            requires
                -0x8000_0000_0000_0000 <= self.value <= 0x8000_0000_0000_0000,
                -0x8000_0000_0000_0000 <= rhs.value <= 0x8000_0000_0000_0000,
        ;
        Whole { value: bound(self.value as i128 * rhs.value as i128) }
    }

    fn over(self, rhs: Self) -> (r: Self) {
        let a = size(self.value);
        let b = size(rhs.value);
        let magnitude: u128 = if b == 0 {
            if a == 0 {
                0
            } else {
                i64::MAX as u128 + 1
            }
        } else {
            a / b
        };
        let negative = (self.value < 0) != (rhs.value < 0);
        let signed: i128 = if negative {
            -(magnitude as i128)
        } else {
            magnitude as i128
        };
        Whole { value: bound(signed) }
    }

    fn compare(self, rhs: Self) -> (r: Option<Comparison>) {
        Some(
            if self.value < rhs.value {
                Comparison::Less
            } else if self.value > rhs.value {
                Comparison::Greater
            } else {
                Comparison::Equal
            },
        )
    }
}

} // verus!
