//! The operations on encodings, in integer arithmetic.
use super::encoding::{
    converted, floor_log2, integer_below, integer_nearest, integer_root, is_integer_root, less,
    magnitude_of, negated, power, product, quotient, remainder, root_shift, rounded, signed,
    square_root, sum, truncated, Format, Number,
};
use super::rounding::{
    highest_bit, lemma_floor_log2, lemma_log_of_quotient, lemma_power_monotone,
    lemma_power_positive, lemma_rounded_same, pack, power_of_two,
};
use vstd::arithmetic::div_mod::{
    lemma_fundamental_div_mod, lemma_fundamental_div_mod_converse, lemma_mul_mod_noop_left,
    lemma_small_mod,
};
use vstd::arithmetic::power2::{lemma2_to64, lemma2_to64_rest, lemma_pow2_adds, pow2};
use vstd::prelude::*;

verus! {

/// A decoded encoding.
#[derive(Clone, Copy)]
pub enum Decoded {
    NotANumber,
    Infinite { negative: bool },
    Finite { negative: bool, mantissa: u64, exponent: i32 },
}

impl View for Decoded {
    type V = Number;

    open spec fn view(&self) -> Number {
        match *self {
            Decoded::NotANumber => Number::NotANumber,
            Decoded::Infinite { negative } => Number::Infinite { negative },
            Decoded::Finite { negative, mantissa, exponent } => Number::Finite {
                negative,
                mantissa: mantissa as nat,
                exponent: exponent as int,
            },
        }
    }
}

/// What holds of the mantissa and the exponent of every finite number of a format.
pub open spec fn in_range(format: Format, number: Number) -> bool {
    match number {
        Number::Finite { negative: _, mantissa, exponent } => {
            &&& mantissa < 2 * format.hidden()
            &&& format.least_exponent() <= exponent <= format.greatest_exponent()
            &&& mantissa < format.hidden() ==> exponent == format.least_exponent()
        },
        _ => true,
    }
}

/// What the encoding `bits` stands for.
pub fn decode(format: Format, bits: u64) -> (r: Decoded)
    requires
        format.holds(bits as int),
    ensures
        r@ == format.decode(bits as int),
        in_range(format, r@),
{
    let (sign, hidden, infinity, bottom): (u64, u64, u64, i32) = match format {
        Format::Single => (0x8000_0000, 0x80_0000, 0x7f80_0000, -149),
        Format::Double => (
            0x8000_0000_0000_0000,
            0x10_0000_0000_0000,
            0x7ff0_0000_0000_0000,
            -1074,
        ),
    };
    let negative = bits >= sign;
    let magnitude: u64 = if negative { bits - sign } else { bits };
    if magnitude > infinity {
        Decoded::NotANumber
    } else if magnitude == infinity {
        Decoded::Infinite { negative }
    } else {
        let field: u64 = magnitude / hidden;
        let fraction: u64 = magnitude % hidden;
        if field == 0 {
            Decoded::Finite { negative, mantissa: fraction, exponent: bottom }
        } else {
            Decoded::Finite {
                negative,
                mantissa: hidden + fraction,
                exponent: bottom + (field as i32) - 1,
            }
        }
    }
}

/// The encoding that every invalid operation returns.
pub fn quiet_nan(format: Format) -> (r: u64)
    ensures
        r == format.quiet_nan(),
        format.holds(r as int),
{
    match format {
        Format::Single => 0x7fc0_0000,
        Format::Double => 0x7ff8_0000_0000_0000,
    }
}

/// Infinity with the given sign.
pub fn signed_infinity(format: Format, negative: bool) -> (r: u64)
    ensures
        r == format.signed_infinity(negative),
        format.holds(r as int),
{
    match format {
        Format::Single => if negative { 0xff80_0000 } else { 0x7f80_0000 },
        Format::Double => if negative { 0xfff0_0000_0000_0000 } else { 0x7ff0_0000_0000_0000 },
    }
}

/// Zero with the given sign.
pub fn signed_zero(format: Format, negative: bool) -> (r: u64)
    ensures
        r == format.signed_zero(negative),
        format.holds(r as int),
{
    match format {
        Format::Single => if negative { 0x8000_0000 } else { 0 },
        Format::Double => if negative { 0x8000_0000_0000_0000 } else { 0 },
    }
}

/// Encoding of the exact number `m * 2^exp`, rounded.
pub fn encode(format: Format, negative: bool, m: u128, exp: i32) -> (r: u64)
    requires
        m < pow2(127),
        -8000 <= exp <= 8000,
    ensures
        r == rounded(format, negative, m as nat, 1, exp as int),
        format.holds(r as int),
{
    pack(format, negative, m, false, exp, Ghost(m as nat), Ghost(1nat))
}

/// Flips the sign.
pub fn negate(format: Format, a: u64) -> (r: u64)
    requires
        format.holds(a as int),
    ensures
        r == negated(format, a as int),
        format.holds(r as int),
{
    let sign: u64 = signed_zero(format, true);
    if a >= sign { a - sign } else { a + sign }
}

/// The product.
pub fn multiply(format: Format, a: u64, b: u64) -> (r: u64)
    requires
        format.holds(a as int),
        format.holds(b as int),
    ensures
        r == product(format, a as int, b as int),
        format.holds(r as int),
{
    match (decode(format, a), decode(format, b)) {
        (Decoded::NotANumber, _) => quiet_nan(format),
        (_, Decoded::NotANumber) => quiet_nan(format),
        (Decoded::Infinite { negative: na }, Decoded::Infinite { negative: nb }) =>
            signed_infinity(format, na != nb),
        (
            Decoded::Infinite { negative: na },
            Decoded::Finite { negative: nb, mantissa: mb, exponent: _ },
        ) => if mb == 0 { quiet_nan(format) } else { signed_infinity(format, na != nb) },
        (
            Decoded::Finite { negative: na, mantissa: ma, exponent: _ },
            Decoded::Infinite { negative: nb },
        ) => if ma == 0 { quiet_nan(format) } else { signed_infinity(format, na != nb) },
        (
            Decoded::Finite { negative: na, mantissa: ma, exponent: ea },
            Decoded::Finite { negative: nb, mantissa: mb, exponent: eb },
        ) => {
            proof {
                lemma_wide_bound();
                assert(ma * mb < 0x20_0000_0000_0000 * 0x20_0000_0000_0000) by (nonlinear_arith)
                    requires
                        ma < 0x20_0000_0000_0000,
                        mb < 0x20_0000_0000_0000,
                ;
            }
            encode(format, na != nb, (ma as u128) * (mb as u128), ea + eb)
        },
    }
}

/// `2^127` as a number.
pub proof fn lemma_wide_bound()
    ensures
        pow2(127) == 0x8000_0000_0000_0000_0000_0000_0000_0000,
        pow2(64) == 0x1_0000_0000_0000_0000,
{
    lemma2_to64();
    lemma2_to64_rest();
    lemma_pow2_adds(64, 63);
}

/// The quotient.
pub fn divide(format: Format, a: u64, b: u64) -> (r: u64)
    requires
        format.holds(a as int),
        format.holds(b as int),
    ensures
        r == quotient(format, a as int, b as int),
        format.holds(r as int),
{
    match (decode(format, a), decode(format, b)) {
        (Decoded::NotANumber, _) => quiet_nan(format),
        (_, Decoded::NotANumber) => quiet_nan(format),
        (Decoded::Infinite { .. }, Decoded::Infinite { .. }) => quiet_nan(format),
        (Decoded::Infinite { negative: na }, Decoded::Finite { negative: nb, .. }) =>
            signed_infinity(format, na != nb),
        (Decoded::Finite { negative: na, .. }, Decoded::Infinite { negative: nb }) => signed_zero(
            format,
            na != nb,
        ),
        (
            Decoded::Finite { negative: na, mantissa: ma, exponent: ea },
            Decoded::Finite { negative: nb, mantissa: mb, exponent: eb },
        ) => if mb == 0 {
            if ma == 0 { quiet_nan(format) } else { signed_infinity(format, na != nb) }
        } else if ma == 0 {
            proof {
                assert(rounded(format, na != nb, 0, mb as nat, ea - eb) == format.signed_zero(
                    na != nb,
                ));
            }
            signed_zero(format, na != nb)
        } else {
            divide_finite(format, na != nb, ma, mb, ea - eb)
        },
    }
}

/// Encoding of `ma / mb * 2^exp`, rounded.
fn divide_finite(format: Format, negative: bool, ma: u64, mb: u64, exp: i32) -> (r: u64)
    requires
        0 < ma < 0x20_0000_0000_0000,
        0 < mb < 0x20_0000_0000_0000,
        -5000 <= exp <= 5000,
    ensures
        r == rounded(format, negative, ma as nat, mb as nat, exp as int),
        format.holds(r as int),
{
    let l: u32 = highest_bit(ma as u128);
    proof {
        lemma2_to64();
        lemma2_to64_rest();
        lemma_wide_bound();
        if l >= 53 {
            lemma_power_monotone(53, l as int);
        }
    }
    let shift: u32 = 110 - l;
    let weight: u128 = power_of_two(shift);
    let ghost num = (ma * weight) as nat;
    proof {
        lemma_pow2_adds(l as nat, shift as nat);
        lemma_pow2_adds((l + 1) as nat, shift as nat);
        lemma_pow2_adds(64, 46);
        lemma_pow2_adds(64, 47);
        assert(pow2(l as nat) * weight <= ma * weight < pow2((l + 1) as nat) * weight)
            by (nonlinear_arith)
            requires
                pow2(l as nat) <= ma < pow2((l + 1) as nat),
                weight > 0,
        ;
    }
    let scaled: u128 = (ma as u128) * weight;
    let m: u128 = scaled / (mb as u128);
    let inexact: bool = scaled % (mb as u128) != 0;
    proof {
        assert(m >= 4 * format.hidden() && m <= scaled) by (nonlinear_arith)
            requires
                m == scaled / (mb as u128),
                0 < mb < 0x20_0000_0000_0000,
                scaled >= 0x4000_0000_0000_0000_0000_0000_0000,
                format.hidden() <= 0x10_0000_0000_0000,
        ;
    }
    let r = pack(
        format,
        negative,
        m,
        inexact,
        exp - shift as i32,
        Ghost(num),
        Ghost(mb as nat),
    );
    proof {
        let e1 = exp - shift;
        assert(power(e1 - exp) == 1);
        assert(num * (mb as nat) * 1 == ma * mb * weight) by (nonlinear_arith)
            requires
                num == ma * weight,
        ;
        assert((ma as nat) * (mb as nat) * power(exp - e1) == ma * mb * weight);
        lemma_rounded_same(
            format,
            negative,
            num,
            mb as nat,
            e1,
            ma as nat,
            mb as nat,
            exp as int,
            floor_log2(num, mb as nat),
        );
    }
    r
}

/// The sum.
pub fn add(format: Format, a: u64, b: u64) -> (r: u64)
    requires
        format.holds(a as int),
        format.holds(b as int),
    ensures
        r == sum(format, a as int, b as int),
        format.holds(r as int),
{
    match (decode(format, a), decode(format, b)) {
        (Decoded::NotANumber, _) => quiet_nan(format),
        (_, Decoded::NotANumber) => quiet_nan(format),
        (Decoded::Infinite { negative: na }, Decoded::Infinite { negative: nb }) => if na == nb {
            a
        } else {
            quiet_nan(format)
        },
        (Decoded::Infinite { .. }, _) => a,
        (_, Decoded::Infinite { .. }) => b,
        (
            Decoded::Finite { negative: na, mantissa: ma, exponent: ea },
            Decoded::Finite { negative: nb, mantissa: mb, exponent: eb },
        ) => {
            proof {
                lemma2_to64();
                assert(power(0) == 1);
                assert(signed(na, ma as nat) * power(0) == signed(na, ma as nat));
                assert(signed(nb, mb as nat) * power(0) == signed(nb, mb as nat));
            }
            if ea >= eb {
                add_finite(format, na, ma, ea, nb, mb, eb)
            } else {
                add_finite(format, nb, mb, eb, na, ma, ea)
            }
        },
    }
}

/// The exact sum of two numbers, in units of `2^eb`.
pub open spec fn exact_sum(na: bool, ma: nat, ea: int, nb: bool, mb: nat, eb: int) -> int {
    signed(na, ma) * power(ea - eb) + signed(nb, mb)
}

/// The sum of two finite numbers, the first of which has the greater exponent.
fn add_finite(
    format: Format,
    na: bool,
    ma: u64,
    ea: i32,
    nb: bool,
    mb: u64,
    eb: i32,
) -> (r: u64)
    requires
        in_range(
            format,
            Number::Finite { negative: na, mantissa: ma as nat, exponent: ea as int },
        ),
        in_range(
            format,
            Number::Finite { negative: nb, mantissa: mb as nat, exponent: eb as int },
        ),
        ea >= eb,
    ensures
        ({
            let exact = exact_sum(na, ma as nat, ea as int, nb, mb as nat, eb as int);
            r == if exact == 0 {
                format.signed_zero(na && nb)
            } else {
                rounded(format, exact < 0, magnitude_of(exact), 1, eb as int)
            }
        }),
        format.holds(r as int),
{
    let d: u32 = (ea - eb) as u32;
    let ghost p = power(d as int) as int;
    proof {
        lemma_power_positive(d as int);
        lemma_wide_bound();
        assert(signed(na, ma as nat) * p == if na { -(ma * p) } else { ma * p })
            by (nonlinear_arith)
            requires
                signed(na, ma as nat) == if na { -(ma as int) } else { ma as int },
        ;
    }
    if d <= 64 {
        let weight: u128 = power_of_two(d);
        proof {
            lemma_power_monotone(d as int, 64);
            assert(ma * weight <= 0x20_0000_0000_0000 * 0x1_0000_0000_0000_0000)
                by (nonlinear_arith)
                requires
                    ma < 0x20_0000_0000_0000,
                    weight <= 0x1_0000_0000_0000_0000,
            ;
        }
        let big: u128 = (ma as u128) * weight;
        let small: u128 = mb as u128;
        assert(big == ma * p);
        if na == nb {
            let r = encode(format, na, big + small, eb);
            if big + small == 0 {
                assert(r == format.signed_zero(na));
            }
            r
        } else if big == small {
            signed_zero(format, false)
        } else if big > small {
            encode(format, na, big - small, eb)
        } else {
            encode(format, nb, small - big, eb)
        }
    } else {
        add_far(format, na, ma, ea, nb, mb, eb)
    }
}

/// The sum of two finite numbers whose exponents are more than 64 apart.
fn add_far(format: Format, na: bool, ma: u64, ea: i32, nb: bool, mb: u64, eb: i32) -> (r: u64)
    requires
        in_range(
            format,
            Number::Finite { negative: na, mantissa: ma as nat, exponent: ea as int },
        ),
        in_range(
            format,
            Number::Finite { negative: nb, mantissa: mb as nat, exponent: eb as int },
        ),
        ea > eb + 64,
    ensures
        ({
            let exact = exact_sum(na, ma as nat, ea as int, nb, mb as nat, eb as int);
            &&& exact != 0
            &&& r == rounded(format, exact < 0, magnitude_of(exact), 1, eb as int)
        }),
        format.holds(r as int),
{
    let k: u32 = (ea - eb) as u32 - 64;
    let ghost den = power(k as int);
    let ghost p = power(ea - eb) as int;
    let ghost w = 0x1_0000_0000_0000_0000int;
    proof {
        lemma_wide_bound();
        lemma_power_positive(k as int);
        lemma_pow2_adds(64, k as nat);
        assert(p == w * den);
        assert(ma > 0);
    }
    let quotient: u64;
    let rest: bool;
    if k >= 64 {
        quotient = 0;
        rest = mb != 0;
        proof {
            lemma_power_monotone(64, k as int);
            lemma_fundamental_div_mod_converse(mb as int, den as int, 0, mb as int);
        }
    } else {
        let unit: u128 = power_of_two(k);
        proof {
            lemma_power_monotone(k as int, 63);
            lemma2_to64_rest();
        }
        quotient = mb / (unit as u64);
        rest = mb % (unit as u64) != 0;
    }
    proof {
        lemma_fundamental_div_mod(mb as int, den as int);
        assert(quotient <= mb) by (nonlinear_arith)
            requires
                mb == den * quotient + (mb as int) % (den as int),
                den > 0,
                (mb as int) % (den as int) >= 0,
                quotient >= 0,
        ;
    }
    let ghost exact = exact_sum(na, ma as nat, ea as int, nb, mb as nat, eb as int);
    let ghost num: nat;
    let high: u128 = (ma as u128) * 0x1_0000_0000_0000_0000;
    let m: u128;
    proof {
        assert(signed(na, ma as nat) * p == if na { -(ma * p) } else { ma * p })
            by (nonlinear_arith)
            requires
                signed(na, ma as nat) == if na { -(ma as int) } else { ma as int },
        ;
        assert(ma * p == (ma * w) * den) by (nonlinear_arith)
            requires
                p == w * den,
        ;
        assert(ma * p > mb) by (nonlinear_arith)
            requires
                p == w * den,
                den > 0,
                ma > 0,
                w == 0x1_0000_0000_0000_0000int,
                mb < w,
        ;
    }
    if na == nb {
        m = high + quotient as u128;
        proof {
            num = (ma * p + mb) as nat;
            let left = (mb as int) % (den as int);
            assert(num == m * den + left) by (nonlinear_arith)
                requires
                    num == (ma * w) * den + mb,
                    mb == den * quotient + left,
                    m == ma * w + quotient,
            ;
            lemma_fundamental_div_mod_converse(num as int, den as int, m as int, left);
        }
    } else {
        m = high - quotient as u128 - (if rest { 1 } else { 0 });
        proof {
            num = (ma * p - mb) as nat;
            let left = (mb as int) % (den as int);
            let borrowed = if rest { den - left } else { 0 };
            assert(num == m * den + borrowed) by (nonlinear_arith)
                requires
                    num == (ma * w) * den - mb,
                    mb == den * quotient + left,
                    m == ma * w - quotient - (if rest { 1int } else { 0 }),
                    borrowed == if rest { den - left } else { 0 },
                    !rest ==> left == 0,
            ;
            lemma_fundamental_div_mod_converse(num as int, den as int, m as int, borrowed);
        }
    }
    let r = pack(format, na, m, rest, ea - 64, Ghost(num), Ghost(den));
    proof {
        assert(magnitude_of(exact) == num);
        assert((exact < 0) == na);
        let e1 = ea - 64;
        assert(e1 - eb == k);
        assert(power(eb - e1) == 1);
        assert(num * 1 * power(e1 - eb) == num * den * power(eb - e1)) by (nonlinear_arith)
            requires
                power(e1 - eb) == den,
                power(eb - e1) == 1,
        ;
        lemma_rounded_same(
            format,
            na,
            num,
            den,
            e1,
            num,
            1,
            eb as int,
            floor_log2(num, den),
        );
    }
    r
}

/// The remainder of the division that truncates.
pub fn remain(format: Format, a: u64, b: u64) -> (r: u64)
    requires
        format.holds(a as int),
        format.holds(b as int),
    ensures
        r == remainder(format, a as int, b as int),
        format.holds(r as int),
{
    match (decode(format, a), decode(format, b)) {
        (Decoded::NotANumber, _) => quiet_nan(format),
        (_, Decoded::NotANumber) => quiet_nan(format),
        (Decoded::Infinite { .. }, _) => quiet_nan(format),
        (_, Decoded::Infinite { .. }) => a,
        (
            Decoded::Finite { negative: na, mantissa: ma, exponent: ea },
            Decoded::Finite { negative: _, mantissa: mb, exponent: eb },
        ) => if mb == 0 {
            quiet_nan(format)
        } else {
            proof {
                lemma2_to64();
                lemma_wide_bound();
                assert(power(0) == 1);
                assert((ma as nat) * power(0) == ma as nat);
                assert((mb as nat) * power(0) == mb as nat);
            }
            if ea >= eb {
                let left = scaled_remainder(ma, mb, (ea - eb) as u32);
                encode(format, na, left as u128, eb)
            } else {
                let d: u32 = (eb - ea) as u32;
                if d > 64 {
                    proof {
                        lemma_power_monotone(64, d as int);
                        assert(ma < mb * power(d as int)) by (nonlinear_arith)
                            requires
                                ma < 0x1_0000_0000_0000_0000,
                                mb > 0,
                                power(d as int) >= 0x1_0000_0000_0000_0000,
                        ;
                        lemma_small_mod(ma as nat, (mb * power(d as int)) as nat);
                    }
                    encode(format, na, ma as u128, ea)
                } else {
                    let weight: u128 = power_of_two(d);
                    proof {
                        lemma_power_monotone(d as int, 64);
                        assert(0 < mb * weight <= 0x20_0000_0000_0000 * 0x1_0000_0000_0000_0000)
                            by (nonlinear_arith)
                            requires
                                0 < mb < 0x20_0000_0000_0000,
                                0 < weight <= 0x1_0000_0000_0000_0000,
                        ;
                    }
                    let unit: u128 = (mb as u128) * weight;
                    encode(format, na, (ma as u128) % unit, ea)
                }
            }
        },
    }
}

/// `(ma * 2^d) % mb`, doubling one step at a time.
fn scaled_remainder(ma: u64, mb: u64, d: u32) -> (r: u64)
    requires
        0 < mb < 0x20_0000_0000_0000,
    ensures
        r == (ma * power(d as int)) % (mb as int),
        r < mb,
{
    let mut r: u64 = ma % mb;
    let mut i: u32 = 0;
    proof {
        lemma2_to64();
        assert(power(0) == 1);
        assert(ma * power(0) == ma);
    }
    while i < d
        invariant
            i <= d,
            0 < mb < 0x20_0000_0000_0000,
            r < mb,
            r == (ma * power(i as int)) % (mb as int),
        decreases d - i,
    {
        proof {
            lemma_pow2_adds(1, i as nat);
            lemma2_to64();
            let before = (ma * power(i as int)) as int;
            assert(ma * power(i + 1) == before * 2) by (nonlinear_arith)
                requires
                    power(i + 1) == 2 * power(i as int),
                    before == ma * power(i as int),
            ;
            lemma_mul_mod_noop_left(before, 2, mb as int);
        }
        let twice: u64 = r * 2;
        r = if twice >= mb { twice - mb } else { twice };
        proof {
            if twice >= mb {
                lemma_fundamental_div_mod_converse(twice as int, mb as int, 1, twice - mb);
            } else {
                lemma_fundamental_div_mod_converse(twice as int, mb as int, 0, twice as int);
            }
        }
        i = i + 1;
    }
    r
}

/// Whether the first number is below the second.
pub fn is_less(format: Format, a: u64, b: u64) -> (r: bool)
    requires
        format.holds(a as int),
        format.holds(b as int),
    ensures
        r == less(format, a as int, b as int),
{
    match (decode(format, a), decode(format, b)) {
        (Decoded::NotANumber, _) => false,
        (_, Decoded::NotANumber) => false,
        (Decoded::Infinite { negative: na }, Decoded::Infinite { negative: nb }) => na && !nb,
        (Decoded::Infinite { negative: na }, _) => na,
        (_, Decoded::Infinite { negative: nb }) => !nb,
        (
            Decoded::Finite { negative: na, mantissa: ma, exponent: ea },
            Decoded::Finite { negative: nb, mantissa: mb, exponent: eb },
        ) => {
            proof {
                lemma2_to64();
                assert(power(0) == 1);
                assert(signed(na, ma as nat) * power(0) == signed(na, ma as nat));
                assert(signed(nb, mb as nat) * power(0) == signed(nb, mb as nat));
            }
            if ea >= eb {
                let x = scaled_signed(format, na, ma, ea, eb);
                match x {
                    Some(v) => v < (if nb { -(mb as i128) } else { mb as i128 }),
                    None => na,
                }
            } else {
                let y = scaled_signed(format, nb, mb, eb, ea);
                match y {
                    Some(v) => (if na { -(ma as i128) } else { ma as i128 }) < v,
                    None => !nb,
                }
            }
        },
    }
}

/// The number in units of `2^unit`, or `None` where that is `2^64` or more in magnitude.
fn scaled_signed(
    format: Format,
    negative: bool,
    mantissa: u64,
    exponent: i32,
    unit: i32,
) -> (r: Option<i128>)
    requires
        in_range(
            format,
            Number::Finite { negative, mantissa: mantissa as nat, exponent: exponent as int },
        ),
        exponent >= unit,
        unit >= format.least_exponent(),
    ensures
        match r {
            Some(v) => v == signed(negative, mantissa as nat) * power(exponent - unit),
            None => ({
                let exact = signed(negative, mantissa as nat) * power(exponent - unit);
                if negative { exact <= -0x1_0000_0000_0000_0000 } else { exact
                    >= 0x1_0000_0000_0000_0000 }
            }),
        },
{
    let d: u32 = (exponent - unit) as u32;
    proof {
        lemma_wide_bound();
        let p = power(d as int) as int;
        assert(signed(negative, mantissa as nat) * p == if negative { -(mantissa * p) } else {
            mantissa * p
        }) by (nonlinear_arith)
            requires
                signed(negative, mantissa as nat) == if negative { -(mantissa as int) } else {
                    mantissa as int
                },
        ;
    }
    if d > 64 {
        proof {
            lemma_power_monotone(64, d as int);
            assert(mantissa * power(d as int) >= 0x1_0000_0000_0000_0000) by (nonlinear_arith)
                requires
                    mantissa > 0,
                    power(d as int) >= 0x1_0000_0000_0000_0000,
            ;
        }
        None
    } else {
        let weight: u128 = power_of_two(d);
        proof {
            lemma_power_monotone(d as int, 64);
            assert(mantissa * weight <= 0x20_0000_0000_0000 * 0x1_0000_0000_0000_0000)
                by (nonlinear_arith)
                requires
                    mantissa < 0x20_0000_0000_0000,
                    weight <= 0x1_0000_0000_0000_0000,
            ;
        }
        let exact: i128 = ((mantissa as u128) * weight) as i128;
        Some(if negative { -exact } else { exact })
    }
}

/// The integer part of `mantissa / 2^k`, and twice the rest compared with the unit.
fn split(mantissa: u64, k: u32) -> (r: (u64, bool, bool))
    requires
        k > 0,
        mantissa < 0x20_0000_0000_0000,
    ensures
        r.0 == (mantissa as nat) / power(k as int),
        r.1 == ((mantissa as nat) % power(k as int) != 0),
        r.2 == (2 * ((mantissa as nat) % power(k as int)) >= power(k as int)),
        r.0 <= mantissa,
{
    proof {
        lemma_wide_bound();
        lemma_power_positive(k as int);
        let p = power(k as int) as int;
        lemma_fundamental_div_mod(mantissa as int, p);
        let whole = mantissa as int / p;
        let rest = mantissa as int % p;
        assert(0 <= whole <= mantissa) by (nonlinear_arith)
            requires
                mantissa == p * whole + rest,
                p > 0,
                0 <= rest < p,
        ;
    }
    if k >= 64 {
        proof {
            lemma_power_monotone(64, k as int);
            lemma_fundamental_div_mod_converse(
                mantissa as int,
                power(k as int) as int,
                0,
                mantissa as int,
            );
        }
        (0, mantissa != 0, false)
    } else {
        let unit: u128 = power_of_two(k);
        proof {
            lemma_power_monotone(k as int, 63);
            lemma2_to64_rest();
        }
        let rest: u128 = (mantissa as u128) % unit;
        ((mantissa as u128 / unit) as u64, rest != 0, 2 * rest >= unit)
    }
}

/// The greatest integer that is not above the number.
pub fn floor(format: Format, a: u64) -> (r: u64)
    requires
        format.holds(a as int),
    ensures
        r == integer_below(format, a as int),
        format.holds(r as int),
{
    match decode(format, a) {
        Decoded::NotANumber => quiet_nan(format),
        Decoded::Infinite { .. } => a,
        Decoded::Finite { negative, mantissa, exponent } => if exponent >= 0 {
            a
        } else {
            let (whole, rest, _) = split(mantissa, (-exponent) as u32);
            proof {
                lemma_wide_bound();
            }
            let count: u64 = if negative && rest { whole + 1 } else { whole };
            encode(format, negative, count as u128, 0)
        },
    }
}

/// The integer closest to the number.
pub fn round_half_away(format: Format, a: u64) -> (r: u64)
    requires
        format.holds(a as int),
    ensures
        r == integer_nearest(format, a as int),
        format.holds(r as int),
{
    match decode(format, a) {
        Decoded::NotANumber => quiet_nan(format),
        Decoded::Infinite { .. } => a,
        Decoded::Finite { negative, mantissa, exponent } => if exponent >= 0 {
            a
        } else {
            let (whole, _, half) = split(mantissa, (-exponent) as u32);
            proof {
                lemma_wide_bound();
            }
            let count: u64 = if half { whole + 1 } else { whole };
            encode(format, negative, count as u128, 0)
        },
    }
}

/// The number cut off to an integer between 0 and `limit`.
pub fn truncate(format: Format, a: u64, limit: usize) -> (r: usize)
    requires
        format.holds(a as int),
    ensures
        r == truncated(format, a as int, limit as nat),
{
    match decode(format, a) {
        Decoded::NotANumber => 0,
        Decoded::Infinite { negative } => if negative { 0 } else { limit },
        Decoded::Finite { negative, mantissa, exponent } => if negative {
            0
        } else if exponent < 0 {
            let (whole, _, _) = split(mantissa, (-exponent) as u32);
            proof {
                assert(power(exponent as int) == 1);
                assert((mantissa as nat) * power(exponent as int) == mantissa as nat);
            }
            if whole < limit as u64 { whole as usize } else { limit }
        } else {
            proof {
                lemma2_to64();
                lemma_wide_bound();
                assert(power(-exponent) == 1);
                let exact = (mantissa as nat) * power(exponent as int);
                assert(exact / 1nat == exact);
            }
            if exponent > 64 {
                proof {
                    lemma_power_monotone(64, exponent as int);
                    assert(mantissa * power(exponent as int) >= 0x1_0000_0000_0000_0000)
                        by (nonlinear_arith)
                        requires
                            mantissa > 0,
                            power(exponent as int) >= 0x1_0000_0000_0000_0000,
                    ;
                }
                limit
            } else {
                let weight: u128 = power_of_two(exponent as u32);
                proof {
                    lemma_power_monotone(exponent as int, 64);
                    assert(mantissa * weight <= 0x20_0000_0000_0000 * 0x1_0000_0000_0000_0000)
                        by (nonlinear_arith)
                        requires
                            mantissa < 0x20_0000_0000_0000,
                            weight <= 0x1_0000_0000_0000_0000,
                    ;
                }
                let whole: u128 = (mantissa as u128) * weight;
                if whole < limit as u128 { whole as usize } else { limit }
            }
        },
    }
}

/// The number in another format.
pub fn convert(from: Format, to: Format, a: u64) -> (r: u64)
    requires
        from.holds(a as int),
    ensures
        r == converted(from, to, a as int),
        to.holds(r as int),
{
    match decode(from, a) {
        Decoded::NotANumber => quiet_nan(to),
        Decoded::Infinite { negative } => signed_infinity(to, negative),
        Decoded::Finite { negative, mantissa, exponent } => {
            proof {
                lemma_wide_bound();
            }
            encode(to, negative, mantissa as u128, exponent)
        },
    }
}

/// There is only one integer root.
proof fn lemma_integer_root(n: nat, s: nat)
    requires
        is_integer_root(n, s),
    ensures
        integer_root(n) == s,
{
    let c = integer_root(n);
    assert(is_integer_root(n, c));
    assert(c == s) by (nonlinear_arith)
        requires
            s * s <= n < (s + 1) * (s + 1),
            c * c <= n < (c + 1) * (c + 1),
    ;
}

/// The greatest integer whose square is at most `n`, found bit by bit.
fn root(n: u128) -> (s: u64)
    requires
        n < 0x1000_0000_0000_0000_0000_0000_0000,
    ensures
        is_integer_root(n as nat, s as nat),
        s < 0x100_0000_0000_0000,
{
    let mut s: u64 = 0;
    let mut k: u32 = 56;
    proof {
        lemma2_to64();
        lemma2_to64_rest();
    }
    while k > 0
        invariant
            k <= 56,
            s + pow2(k as nat) <= 0x100_0000_0000_0000,
            s * s <= n,
            n < (s + pow2(k as nat)) * (s + pow2(k as nat)),
        decreases k,
    {
        k = k - 1;
        let bit: u64 = power_of_two(k) as u64;
        proof {
            lemma_pow2_adds(1, k as nat);
            lemma2_to64();
            assert(bit == pow2(k as nat));
        }
        let t: u64 = s + bit;
        proof {
            assert(t * t <= 0x100_0000_0000_0000 * 0x100_0000_0000_0000) by (nonlinear_arith)
                requires
                    t <= 0x100_0000_0000_0000,
            ;
        }
        if (t as u128) * (t as u128) <= n {
            s = t;
        }
    }
    proof {
        lemma2_to64();
    }
    s
}

/// The square root.
pub fn root_of(format: Format, a: u64) -> (r: u64)
    requires
        format.holds(a as int),
    ensures
        r == square_root(format, a as int),
        format.holds(r as int),
{
    match decode(format, a) {
        Decoded::NotANumber => quiet_nan(format),
        Decoded::Infinite { negative } => if negative { quiet_nan(format) } else { a },
        Decoded::Finite { negative, mantissa, exponent } => if mantissa == 0 {
            a
        } else if negative {
            quiet_nan(format)
        } else {
            root_finite(format, mantissa, exponent)
        },
    }
}

proof fn lemma_hidden_squared(format: Format)
    ensures
        format.hidden() * format.hidden() == power(2 * format.fraction_bits()),
        (2 * format.hidden()) * (2 * format.hidden()) == power(2 * format.fraction_bits() + 2),
{
    lemma2_to64();
    lemma2_to64_rest();
    match format {
        Format::Single => {
            assert(power(46) == 0x80_0000 * 0x80_0000);
            assert(power(48) == 0x100_0000 * 0x100_0000);
        },
        Format::Double => {
            lemma_pow2_adds(52, 52);
            lemma_pow2_adds(53, 53);
            assert(power(104) == pow2(104) && power(106) == pow2(106));
        },
    }
}

/// The square root of a positive number.
fn root_finite(format: Format, mantissa: u64, exponent: i32) -> (r: u64)
    requires
        mantissa > 0,
        in_range(
            format,
            Number::Finite {
                negative: false,
                mantissa: mantissa as nat,
                exponent: exponent as int,
            },
        ),
    ensures
        ({
            let shift = root_shift(format, mantissa as nat, exponent as int);
            let scaled = (mantissa as nat) * power(shift);
            let root = integer_root(scaled);
            let count = if scaled > root * root + root { root + 1 } else { root };
            r == ((exponent - shift) / 2 - format.least_exponent()) * format.hidden() + count
        }),
        format.holds(r as int),
{
    let l: u32 = highest_bit(mantissa as u128);
    let (width, hidden, bottom): (i32, u64, i32) = match format {
        Format::Single => (23, 0x80_0000, -149),
        Format::Double => (52, 0x10_0000_0000_0000, -1074),
    };
    proof {
        lemma2_to64();
        lemma2_to64_rest();
        assert((mantissa as nat) / 1nat == mantissa as nat);
        lemma_log_of_quotient(mantissa as nat, 1, l as nat);
        lemma_floor_log2(mantissa as nat, 1, l as int);
        if l > width {
            lemma_power_monotone(width + 1, l as int);
        }
        if l < width {
            lemma_power_monotone(l + 1, width as int);
            assert(exponent == bottom);
        }
    }
    let full: i32 = 2 * width - l as i32;
    let even: bool = (exponent - full + 100000) % 2 == 0;
    let shift: i32 = if even { full } else { full + 1 };
    assert(shift == root_shift(format, mantissa as nat, exponent as int));
    let weight: u128 = power_of_two(shift as u32);
    proof {
        lemma_pow2_adds(l as nat, shift as nat);
        lemma_pow2_adds((l + 1) as nat, shift as nat);
        lemma_pow2_adds(64, 40);
        lemma_pow2_adds(64, 42);
        lemma_power_monotone(2 * width, l + shift);
        lemma_power_monotone(l + 1 + shift, 2 * width + 2);
        assert(pow2(l as nat) * weight <= mantissa * weight < pow2((l + 1) as nat) * weight)
            by (nonlinear_arith)
            requires
                pow2(l as nat) <= mantissa < pow2((l + 1) as nat),
                weight > 0,
        ;
    }
    let scaled: u128 = (mantissa as u128) * weight;
    let s: u64 = root(scaled);
    proof {
        lemma_integer_root(scaled as nat, s as nat);
        assert(s * s <= 0x100_0000_0000_0000 * 0x100_0000_0000_0000) by (nonlinear_arith)
            requires
                s <= 0x100_0000_0000_0000,
        ;
        lemma_hidden_squared(format);
        assert(hidden <= s < 2 * hidden) by (nonlinear_arith)
            requires
                hidden * hidden <= scaled < (2 * hidden) * (2 * hidden),
                s * s <= scaled < (s + 1) * (s + 1),
        ;
    }
    let square: u128 = (s as u128) * (s as u128);
    let count: u64 = if scaled > square + s as u128 { s + 1 } else { s };
    let q: i32 = (exponent - shift + 100000) / 2 - 50000;
    assert(q == (exponent - shift) / 2);
    let field: u64 = (q - bottom) as u64;
    proof {
        assert(0 <= q - bottom <= 1600 && (format == Format::Single ==> q - bottom <= 200));
        assert(field * hidden <= (if format == Format::Single { 200int } else { 1600 }) * hidden)
            by (nonlinear_arith)
            requires
                field <= if format == Format::Single { 200int } else { 1600 },
        ;
    }
    field * hidden + count
}

} // verus!
