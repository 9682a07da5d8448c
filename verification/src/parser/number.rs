//! The grammar of decimal literals and their exact reading as a [`Decimal`].
//!
//! A literal is an optional sign, one or more digits, an optional `.` with
//! any number of digits after it, and an optional exponent: `e` or `E`, an
//! optional sign and one or more digits.

use crate::common_types::Decimal;
use crate::text::{digit, digit_value, is_digit};
use vstd::prelude::*;

verus! {

/// The largest mantissa that can still take one more digit.
pub open spec fn mantissa_room() -> nat {
    ((u128::MAX - 9) / 10) as nat
}

/// The bound at which an exponent stops growing: no number is told apart
/// from zero or infinity by an exponent beyond it.
pub open spec fn exponent_cap() -> nat {
    1_000_000_000
}

/// The first position at or after `from` that holds no digit.
pub open spec fn digits_end(s: Seq<char>, from: int) -> int
    decreases s.len() - from,
{
    if 0 <= from < s.len() && is_digit(s[from]) {
        digits_end(s, from + 1)
    } else {
        from
    }
}

/// A mantissa in the making: the digits taken so far, and the power of ten
/// that the digits left out or taken after the point amount to.
pub struct Mantissa {
    pub digits: nat,
    pub scale: int,
}

/// Takes one digit into a mantissa.  A digit that no longer fits is left
/// out; before the point that raises the scale, after it nothing changes.
pub open spec fn take_digit(m: Mantissa, c: char, fractional: bool) -> Mantissa {
    if m.digits <= mantissa_room() {
        Mantissa {
            digits: (m.digits * 10 + (c as int - '0' as int)) as nat,
            scale: if fractional {
                m.scale - 1
            } else {
                m.scale
            },
        }
    } else {
        Mantissa {
            digits: m.digits,
            scale: if fractional {
                m.scale
            } else {
                m.scale + 1
            },
        }
    }
}

/// Takes a run of digits into a mantissa, first digit first.
pub open spec fn take_digits(m: Mantissa, digits: Seq<char>, fractional: bool) -> Mantissa
    decreases digits.len(),
{
    if digits.len() == 0 {
        m
    } else {
        take_digit(take_digits(m, digits.drop_last(), fractional), digits.last(), fractional)
    }
}

/// The value of a run of exponent digits, which stops growing at the cap.
pub open spec fn capped_value(digits: Seq<char>) -> nat
    decreases digits.len(),
{
    if digits.len() == 0 {
        0
    } else {
        let v = capped_value(digits.drop_last());
        if v >= exponent_cap() {
            v
        } else {
            (v * 10 + (digits.last() as int - '0' as int)) as nat
        }
    }
}

/// An exponent brought into the range of `i32`.
pub open spec fn clamp_exponent(e: int) -> i32 {
    if e > i32::MAX {
        i32::MAX
    } else if e < i32::MIN {
        i32::MIN
    } else {
        e as i32
    }
}

/// Whether the character is `+` or `-`.
pub open spec fn is_sign(c: char) -> bool {
    c == '+' || c == '-'
}

/// Whether the character is `e` or `E`.
pub open spec fn is_exponent_mark(c: char) -> bool {
    c == 'e' || c == 'E'
}

/// The decimal that a literal denotes; `None` where the text is no literal.
pub open spec fn literal_decimal(s: Seq<char>) -> Option<Decimal> {
    let n = s.len() as int;
    let signed = n > 0 && is_sign(s[0]);
    let negative = signed && s[0] == '-';
    let a = if signed {
        1int
    } else {
        0int
    };
    let b = digits_end(s, a);
    let dotted = b < n && s[b] == '.';
    let c = if dotted {
        digits_end(s, b + 1)
    } else {
        b
    };
    let whole = take_digits(Mantissa { digits: 0, scale: 0 }, s.subrange(a, b), false);
    let m = if dotted {
        take_digits(whole, s.subrange(b + 1, c), true)
    } else {
        whole
    };
    if b == a {
        None
    } else if c == n {
        Some(
            Decimal { negative, mantissa: m.digits as u128, exponent: clamp_exponent(m.scale) },
        )
    } else if !is_exponent_mark(s[c]) {
        None
    } else {
        let exponent_signed = c + 1 < n && is_sign(s[c + 1]);
        let d = if exponent_signed {
            c + 2
        } else {
            c + 1
        };
        let e = digits_end(s, d);
        let magnitude = capped_value(s.subrange(d, e)) as int;
        let exponent = if exponent_signed && s[c + 1] == '-' {
            -magnitude
        } else {
            magnitude
        };
        if e == d || e != n {
            None
        } else {
            Some(
                Decimal {
                    negative,
                    mantissa: m.digits as u128,
                    exponent: clamp_exponent(exponent + m.scale),
                },
            )
        }
    }
}

/// Takes the digits of `chars[from + start..]` into a mantissa and returns it
/// with the position, counted from `from`, of the first character that is no digit.
fn scan_mantissa(
    chars: &Vec<char>,
    from: usize,
    to: usize,
    start: usize,
    digits: u128,
    scale: i128,
    fractional: bool,
) -> (r: (usize, u128, i128))
    requires
        from <= to <= chars.len(),
        start <= to - from,
        -(usize::MAX as int) <= scale <= usize::MAX as int,
    ensures
        ({
            let s = chars@.subrange(from as int, to as int);
            let m = take_digits(
                Mantissa { digits: digits as nat, scale: scale as int },
                s.subrange(start as int, r.0 as int),
                fractional,
            );
            &&& r.0 == digits_end(s, start as int)
            &&& start <= r.0 <= to - from
            &&& r.1 == m.digits
            &&& r.2 == m.scale
            &&& scale - (r.0 - start) <= r.2 <= scale + (r.0 - start)
        }),
{
    let ghost s = chars@.subrange(from as int, to as int);
    let ghost init = Mantissa { digits: digits as nat, scale: scale as int };
    let n = to - from;
    let mut i = start;
    let mut m = digits;
    let mut k = scale;
    assert(s.subrange(start as int, start as int) == Seq::<char>::empty());
    while i < n && digit(chars[from + i])
        invariant
            from <= to <= chars.len(),
            n == to - from,
            s == chars@.subrange(from as int, to as int),
            start <= i <= n,
            digits_end(s, start as int) == digits_end(s, i as int),
            m == take_digits(init, s.subrange(start as int, i as int), fractional).digits,
            k == take_digits(init, s.subrange(start as int, i as int), fractional).scale,
            scale - (i - start) <= k <= scale + (i - start),
            -(usize::MAX as int) <= scale <= usize::MAX as int,
        decreases n - i,
    {
        let c = chars[from + i];
        proof {
            assert(s[i as int] == c);
            let before = s.subrange(start as int, i as int);
            let after = s.subrange(start as int, i as int + 1);
            assert(after.drop_last() == before);
            assert(after.last() == c);
        }
        if m <= (u128::MAX - 9) / 10 {
            m = m * 10 + digit_value(c) as u128;
            if fractional {
                k = k - 1;
            }
        } else if !fractional {
            k = k + 1;
        }
        i = i + 1;
    }
    (i, m, k)
}

/// Reads `chars[from..to]` as a decimal literal.
pub fn parse_decimal(chars: &Vec<char>, from: usize, to: usize) -> (r: Option<Decimal>)
    requires
        from <= to <= chars.len(),
    ensures
        r == literal_decimal(chars@.subrange(from as int, to as int)),
{
    let ghost s = chars@.subrange(from as int, to as int);
    let n = to - from;
    let signed = n > 0 && (chars[from] == '+' || chars[from] == '-');
    let negative = signed && chars[from] == '-';
    let a: usize = if signed {
        1
    } else {
        0
    };
    proof {
        if n > 0 {
            assert(s[0] == chars@[from as int]);
        }
    }
    let (b, whole, whole_scale) = scan_mantissa(chars, from, to, a, 0, 0, false);
    if b == a {
        return None;
    }
    let dotted = b < n && chars[from + b] == '.';
    proof {
        if b < n {
            assert(s[b as int] == chars@[from + b]);
        }
    }
    let (c, mantissa, scale) = if dotted {
        scan_mantissa(chars, from, to, b + 1, whole, whole_scale, true)
    } else {
        (b, whole, whole_scale)
    };
    if c == n {
        return Some(Decimal { negative, mantissa, exponent: clamp(scale) });
    }
    let mark = chars[from + c];
    assert(s[c as int] == mark);
    if !(mark == 'e' || mark == 'E') {
        return None;
    }
    let exponent_signed = c + 1 < n && (chars[from + c + 1] == '+' || chars[from + c + 1] == '-');
    proof {
        if c + 1 < n {
            assert(s[c as int + 1] == chars@[from + c + 1]);
        }
    }
    let exponent_negative = exponent_signed && chars[from + c + 1] == '-';
    let d: usize = if exponent_signed {
        c + 2
    } else {
        c + 1
    };
    let mut e = d;
    let mut magnitude: i128 = 0;
    assert(s.subrange(d as int, d as int) == Seq::<char>::empty());
    while e < n && digit(chars[from + e])
        invariant
            from <= to <= chars.len(),
            n == to - from,
            s == chars@.subrange(from as int, to as int),
            d <= e <= n,
            digits_end(s, d as int) == digits_end(s, e as int),
            magnitude == capped_value(s.subrange(d as int, e as int)),
            0 <= magnitude < 10_000_000_010,
        decreases n - e,
    {
        let ch = chars[from + e];
        proof {
            assert(s[e as int] == ch);
            let before = s.subrange(d as int, e as int);
            let after = s.subrange(d as int, e as int + 1);
            assert(after.drop_last() == before);
            assert(after.last() == ch);
        }
        if magnitude < 1_000_000_000 {
            magnitude = magnitude * 10 + digit_value(ch) as i128;
        }
        e = e + 1;
    }
    if e == d || e != n {
        return None;
    }
    let exponent: i128 = if exponent_negative {
        -magnitude
    } else {
        magnitude
    };
    Some(Decimal { negative, mantissa, exponent: clamp(exponent + scale) })
}

/// See [`clamp_exponent`].
fn clamp(e: i128) -> (r: i32)
    ensures
        r == clamp_exponent(e as int),
{
    if e > i32::MAX as i128 {
        i32::MAX
    } else if e < i32::MIN as i128 {
        i32::MIN
    } else {
        e as i32
    }
}

} // verus!
