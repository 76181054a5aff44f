//! The binary interchange formats and what their encodings stand for.
//!
//! An encoding is a sign bit, an exponent field and a fraction field, read here as one
//! non-negative integer. `decode` gives the number an encoding stands for, `rounded` the
//! encoding of the representable number closest to an exact quotient, and the functions after
//! them say what every operation returns, encoding for encoding.
use vstd::arithmetic::power2::pow2;
use vstd::prelude::*;

verus! {

/// The two formats: 32 bits with 23 fraction bits, and 64 bits with 52.
#[derive(Clone, Copy, PartialEq, Eq, Structural, Debug)]
pub enum Format {
    Single,
    Double,
}

/// What an encoding stands for. A finite number is `mantissa * 2^exponent`, negated where
/// `negative` holds; the zeros have a sign too.
pub enum Number {
    NotANumber,
    Infinite { negative: bool },
    Finite { negative: bool, mantissa: nat, exponent: int },
}

impl Format {
    /// Width of the fraction field.
    pub open spec fn fraction_bits(self) -> int {
        match self {
            Format::Single => 23,
            Format::Double => 52,
        }
    }

    /// Weight of the lowest bit of the exponent field: two to the number of fraction bits.
    pub open spec fn hidden(self) -> int {
        match self {
            Format::Single => 0x80_0000,
            Format::Double => 0x10_0000_0000_0000,
        }
    }

    /// Encoding of positive infinity: every exponent bit set, no fraction bit.
    pub open spec fn infinity(self) -> int {
        match self {
            Format::Single => 0x7f80_0000,
            Format::Double => 0x7ff0_0000_0000_0000,
        }
    }

    /// The encoding that every invalid operation returns.
    pub open spec fn quiet_nan(self) -> int {
        match self {
            Format::Single => 0x7fc0_0000,
            Format::Double => 0x7ff8_0000_0000_0000,
        }
    }

    /// Weight of the sign bit.
    pub open spec fn sign(self) -> int {
        match self {
            Format::Single => 0x8000_0000,
            Format::Double => 0x8000_0000_0000_0000,
        }
    }

    /// Exponent of the least positive number.
    pub open spec fn least_exponent(self) -> int {
        match self {
            Format::Single => -149,
            Format::Double => -1074,
        }
    }

    /// Exponent of the greatest finite number.
    pub open spec fn greatest_exponent(self) -> int {
        match self {
            Format::Single => 104,
            Format::Double => 971,
        }
    }

    /// Whether `bits` is an encoding of this format.
    pub open spec fn holds(self, bits: int) -> bool {
        0 <= bits < 2 * self.sign()
    }

    /// What the encoding `bits` stands for.
    pub open spec fn decode(self, bits: int) -> Number {
        let negative = bits >= self.sign();
        let magnitude = if negative { bits - self.sign() } else { bits };
        let field = magnitude / self.hidden();
        let fraction = magnitude % self.hidden();
        if magnitude > self.infinity() {
            Number::NotANumber
        } else if magnitude == self.infinity() {
            Number::Infinite { negative }
        } else if field == 0 {
            Number::Finite {
                negative,
                mantissa: fraction as nat,
                exponent: self.least_exponent(),
            }
        } else {
            Number::Finite {
                negative,
                mantissa: (self.hidden() + fraction) as nat,
                exponent: self.least_exponent() + field - 1,
            }
        }
    }

    /// Encoding of infinity with the given sign.
    pub open spec fn signed_infinity(self, negative: bool) -> int {
        if negative { self.sign() + self.infinity() } else { self.infinity() }
    }

    /// Encoding of zero with the given sign.
    pub open spec fn signed_zero(self, negative: bool) -> int {
        if negative { self.sign() } else { 0 }
    }
}

/// `2^x` where that is an integer, else 1. The quotient `power(x) / power(-x)` is `2^x` for
/// every integer `x`.
pub open spec fn power(x: int) -> nat {
    if x >= 0 { pow2(x as nat) } else { 1 }
}

/// The integer closest to `num / den`; of two that are equally close, the even one.
pub open spec fn nearest_even(num: nat, den: nat) -> nat {
    let quotient = num / den;
    let remainder = num % den;
    if 2 * remainder > den || (2 * remainder == den && quotient % 2 == 1) {
        quotient + 1
    } else {
        quotient
    }
}

/// Whether `num / den >= 2^l`.
pub open spec fn reaches_power(num: nat, den: nat, l: int) -> bool {
    den * power(l) <= num * power(-l)
}

/// The integer `l` with `2^l <= num / den < 2^(l + 1)`.
pub open spec fn floor_log2(num: nat, den: nat) -> int {
    choose|l: int| #[trigger] reaches_power(num, den, l) && !reaches_power(num, den, l + 1)
}

/// Exponent of the spacing between the representable numbers around `num / den * 2^exp`.
pub open spec fn spacing(format: Format, num: nat, den: nat, exp: int) -> int {
    let natural = floor_log2(num, den) + exp - format.fraction_bits();
    if natural < format.least_exponent() { format.least_exponent() } else { natural }
}

/// Encoding of the representable number closest to `num / den * 2^exp`, ties going to the even
/// fraction. What lies beyond the largest finite number by half a spacing or more is infinity.
///
/// The encodings of the non-negative numbers are in order, so that counting spacings from zero
/// gives the encoding: a fraction that rounds up to the next power of two carries into the
/// exponent field.
pub open spec fn rounded_magnitude(format: Format, num: nat, den: nat, exp: int) -> int {
    if num == 0 {
        0
    } else {
        let q = spacing(format, num, den, exp);
        let count = nearest_even(num * power(exp - q), den * power(q - exp));
        let bits = (q - format.least_exponent()) * format.hidden() + count;
        if bits < format.infinity() { bits } else { format.infinity() }
    }
}

/// `rounded_magnitude` with a sign.
pub open spec fn rounded(format: Format, negative: bool, num: nat, den: nat, exp: int) -> int {
    format.signed_zero(negative) + rounded_magnitude(format, num, den, exp)
}

/// `mantissa`, negated where `negative` holds.
pub open spec fn signed(negative: bool, mantissa: nat) -> int {
    if negative { -(mantissa as int) } else { mantissa as int }
}

pub open spec fn least(a: int, b: int) -> int {
    if a <= b { a } else { b }
}

pub open spec fn magnitude_of(x: int) -> nat {
    if x < 0 { (-x) as nat } else { x as nat }
}

/// Encoding of the sum: the exact sum, rounded once. A sum that is exactly zero is negative
/// zero only where both terms are negative zeros.
pub open spec fn sum(format: Format, a: int, b: int) -> int {
    match (format.decode(a), format.decode(b)) {
        (Number::NotANumber, _) => format.quiet_nan(),
        (_, Number::NotANumber) => format.quiet_nan(),
        (Number::Infinite { negative: na }, Number::Infinite { negative: nb }) => if na == nb {
            a
        } else {
            format.quiet_nan()
        },
        (Number::Infinite { .. }, _) => a,
        (_, Number::Infinite { .. }) => b,
        (
            Number::Finite { negative: na, mantissa: ma, exponent: ea },
            Number::Finite { negative: nb, mantissa: mb, exponent: eb },
        ) => {
            let e = least(ea, eb);
            let exact = signed(na, ma) * power(ea - e) + signed(nb, mb) * power(eb - e);
            if exact == 0 {
                format.signed_zero(na && nb)
            } else {
                rounded(format, exact < 0, magnitude_of(exact), 1, e)
            }
        },
    }
}

/// Encoding with the sign bit flipped.
pub open spec fn negated(format: Format, a: int) -> int {
    if a >= format.sign() { a - format.sign() } else { a + format.sign() }
}

/// Encoding of the product, rounded once.
pub open spec fn product(format: Format, a: int, b: int) -> int {
    match (format.decode(a), format.decode(b)) {
        (Number::NotANumber, _) => format.quiet_nan(),
        (_, Number::NotANumber) => format.quiet_nan(),
        (Number::Infinite { negative: na }, Number::Infinite { negative: nb }) =>
            format.signed_infinity(na != nb),
        (
            Number::Infinite { negative: na },
            Number::Finite { negative: nb, mantissa: mb, exponent: _ },
        ) => if mb == 0 { format.quiet_nan() } else { format.signed_infinity(na != nb) },
        (
            Number::Finite { negative: na, mantissa: ma, exponent: _ },
            Number::Infinite { negative: nb },
        ) => if ma == 0 { format.quiet_nan() } else { format.signed_infinity(na != nb) },
        (
            Number::Finite { negative: na, mantissa: ma, exponent: ea },
            Number::Finite { negative: nb, mantissa: mb, exponent: eb },
        ) => rounded(format, na != nb, ma * mb, 1, ea + eb),
    }
}

/// Encoding of the quotient, rounded once.
pub open spec fn quotient(format: Format, a: int, b: int) -> int {
    match (format.decode(a), format.decode(b)) {
        (Number::NotANumber, _) => format.quiet_nan(),
        (_, Number::NotANumber) => format.quiet_nan(),
        (Number::Infinite { .. }, Number::Infinite { .. }) => format.quiet_nan(),
        (Number::Infinite { negative: na }, Number::Finite { negative: nb, .. }) =>
            format.signed_infinity(na != nb),
        (Number::Finite { negative: na, .. }, Number::Infinite { negative: nb }) =>
            format.signed_zero(na != nb),
        (
            Number::Finite { negative: na, mantissa: ma, exponent: ea },
            Number::Finite { negative: nb, mantissa: mb, exponent: eb },
        ) => if mb == 0 {
            if ma == 0 { format.quiet_nan() } else { format.signed_infinity(na != nb) }
        } else {
            rounded(format, na != nb, ma, mb, ea - eb)
        },
    }
}

/// Encoding of the remainder of the division that truncates: what is left of `a` after taking
/// away `b` as often as it fits, with the sign of `a`. It is exact.
pub open spec fn remainder(format: Format, a: int, b: int) -> int {
    match (format.decode(a), format.decode(b)) {
        (Number::NotANumber, _) => format.quiet_nan(),
        (_, Number::NotANumber) => format.quiet_nan(),
        (Number::Infinite { .. }, _) => format.quiet_nan(),
        (_, Number::Infinite { .. }) => a,
        (
            Number::Finite { negative: na, mantissa: ma, exponent: ea },
            Number::Finite { negative: _, mantissa: mb, exponent: eb },
        ) => if mb == 0 {
            format.quiet_nan()
        } else {
            let e = least(ea, eb);
            let left = (ma * power(ea - e)) % (mb * power(eb - e));
            rounded(format, na, left, 1, e)
        },
    }
}

/// Whether `s` is the greatest integer whose square is at most `n`.
pub open spec fn is_integer_root(n: nat, s: nat) -> bool {
    s * s <= n && n < (s + 1) * (s + 1)
}

/// The greatest integer whose square is at most `n`.
pub open spec fn integer_root(n: nat) -> nat {
    choose|s: nat| is_integer_root(n, s)
}

/// Encoding of the square root, rounded once. The mantissa is first scaled by the power of two
/// `shift` that leaves an even exponent and a root of the full width.
pub open spec fn square_root(format: Format, a: int) -> int {
    match format.decode(a) {
        Number::NotANumber => format.quiet_nan(),
        Number::Infinite { negative } => if negative { format.quiet_nan() } else { a },
        Number::Finite { negative, mantissa, exponent } => if mantissa == 0 {
            a
        } else if negative {
            format.quiet_nan()
        } else {
            let shift = root_shift(format, mantissa, exponent);
            let scaled = mantissa * power(shift);
            let root = integer_root(scaled);
            let count = if scaled > root * root + root { root + 1 } else { root };
            ((exponent - shift) / 2 - format.least_exponent()) * format.hidden() + count
        },
    }
}

/// The shift that brings `mantissa` to `2 * fraction_bits + 1` or `2 * fraction_bits + 2` bits
/// and leaves an even exponent.
pub open spec fn root_shift(format: Format, mantissa: nat, exponent: int) -> int {
    let full = 2 * format.fraction_bits() - floor_log2(mantissa, 1);
    if (exponent - full) % 2 == 0 { full } else { full + 1 }
}

/// Encoding of the greatest integer that is not above the number.
pub open spec fn integer_below(format: Format, a: int) -> int {
    match format.decode(a) {
        Number::NotANumber => format.quiet_nan(),
        Number::Infinite { .. } => a,
        Number::Finite { negative, mantissa, exponent } => if exponent >= 0 {
            a
        } else {
            let unit = power(-exponent);
            let whole = mantissa / unit;
            let count = if negative && mantissa % unit != 0 { whole + 1 } else { whole };
            rounded(format, negative, count, 1, 0)
        },
    }
}

/// Encoding of the integer closest to the number; halfway cases go away from zero.
pub open spec fn integer_nearest(format: Format, a: int) -> int {
    match format.decode(a) {
        Number::NotANumber => format.quiet_nan(),
        Number::Infinite { .. } => a,
        Number::Finite { negative, mantissa, exponent } => if exponent >= 0 {
            a
        } else {
            let unit = power(-exponent);
            let whole = mantissa / unit;
            let count = if 2 * (mantissa % unit) >= unit { whole + 1 } else { whole };
            rounded(format, negative, count, 1, 0)
        },
    }
}

/// Whether the number is below the other one. Nothing is below or above what is not a number.
pub open spec fn less(format: Format, a: int, b: int) -> bool {
    match (format.decode(a), format.decode(b)) {
        (Number::NotANumber, _) => false,
        (_, Number::NotANumber) => false,
        (Number::Infinite { negative: na }, Number::Infinite { negative: nb }) => na && !nb,
        (Number::Infinite { negative: na }, _) => na,
        (_, Number::Infinite { negative: nb }) => !nb,
        (
            Number::Finite { negative: na, mantissa: ma, exponent: ea },
            Number::Finite { negative: nb, mantissa: mb, exponent: eb },
        ) => {
            let e = least(ea, eb);
            signed(na, ma) * power(ea - e) < signed(nb, mb) * power(eb - e)
        },
    }
}

/// The number cut off to an integer between 0 and `limit`; 0 for what is not a number.
pub open spec fn truncated(format: Format, a: int, limit: nat) -> nat {
    match format.decode(a) {
        Number::NotANumber => 0,
        Number::Infinite { negative } => if negative { 0 } else { limit },
        Number::Finite { negative, mantissa, exponent } => if negative {
            0
        } else {
            let whole = (mantissa * power(exponent)) / power(-exponent);
            if whole < limit { whole } else { limit }
        },
    }
}

/// Encoding, in the format `to`, of the number that `a` encodes in the format `from`.
pub open spec fn converted(from: Format, to: Format, a: int) -> int {
    match from.decode(a) {
        Number::NotANumber => to.quiet_nan(),
        Number::Infinite { negative } => to.signed_infinity(negative),
        Number::Finite { negative, mantissa, exponent } =>
            rounded(to, negative, mantissa, 1, exponent),
    }
}

} // verus!
