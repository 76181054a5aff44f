//! What the operations make of what is not a number, of the infinities and of the two zeros, and
//! which of two numbers that are equally close a result is rounded to.
use super::encoding::{
    integer_below, integer_nearest, less, nearest_even, negated, power, product, quotient,
    remainder, rounded_magnitude, spacing, square_root, sum, truncated, Format,
};
use vstd::arithmetic::div_mod::{lemma_fundamental_div_mod, lemma_mod_bound};
use vstd::prelude::*;

verus! {

/// The encodings from which on a number is infinite and that of the sign.
pub proof fn law_formats()
    ensures
        Format::Single.infinity() == 0x7f80_0000,
        Format::Single.sign() == 0x8000_0000,
        Format::Single.fraction_bits() == 23,
        Format::Double.infinity() == 0x7ff0_0000_0000_0000,
        Format::Double.sign() == 0x8000_0000_0000_0000,
        Format::Double.fraction_bits() == 52,
{
}

/// An encoding without its sign.
pub open spec fn unsigned(format: Format, a: int) -> int {
    if a >= format.sign() { a - format.sign() } else { a }
}

/// Whether an encoding stands for no number: its exponent is that of infinity and its fraction not
/// zero.
pub open spec fn no_number(format: Format, a: int) -> bool {
    unsigned(format, a) > format.infinity()
}

/// Whether an encoding stands for one of the infinities.
pub open spec fn endless(format: Format, a: int) -> bool {
    unsigned(format, a) == format.infinity()
}

/// Whether an encoding stands for one of the zeros.
pub open spec fn nothing(format: Format, a: int) -> bool {
    unsigned(format, a) == 0
}

/// What is not a number gives what is not a number in every operation, is neither below nor above
/// anything, and is no sample count.
pub proof fn law_no_number_spreads(format: Format, a: int, b: int, limit: nat)
    requires
        format.holds(a),
        format.holds(b),
        no_number(format, a),
    ensures
        no_number(format, sum(format, a, b)) && no_number(format, sum(format, b, a)),
        no_number(format, product(format, a, b)) && no_number(format, product(format, b, a)),
        no_number(format, quotient(format, a, b)) && no_number(format, quotient(format, b, a)),
        no_number(format, remainder(format, a, b)) && no_number(format, remainder(format, b, a)),
        no_number(format, square_root(format, a)),
        no_number(format, integer_below(format, a)),
        no_number(format, integer_nearest(format, a)),
        !less(format, a, b) && !less(format, b, a),
        truncated(format, a, limit) == 0,
{
}

/// Infinity stays infinite with what is finite added to it or where it is multiplied or divided by
/// it, with the signs of both; it is beyond every number; and what has no answer is not a number.
pub proof fn law_endless(format: Format, a: int, b: int, limit: nat)
    requires
        format.holds(a),
        format.holds(b),
        endless(format, a),
        unsigned(format, b) < format.infinity(),
    ensures
        sum(format, a, b) == a && sum(format, b, a) == a,
        sum(format, a, a) == a,
        no_number(format, sum(format, format.infinity(), format.sign() + format.infinity())),
        !nothing(format, b) ==> endless(format, product(format, a, b)) && endless(
            format,
            product(format, b, a),
        ),
        !nothing(format, b) ==> (product(format, a, b) >= format.sign() <==> ((a >= format.sign())
            != (b >= format.sign()))),
        nothing(format, b) ==> no_number(format, product(format, a, b)) && no_number(
            format,
            product(format, b, a),
        ),
        endless(format, quotient(format, a, b)),
        quotient(format, a, b) >= format.sign() <==> ((a >= format.sign()) != (b
            >= format.sign())),
        nothing(format, quotient(format, b, a)),
        no_number(format, quotient(format, a, a)),
        no_number(format, remainder(format, a, b)),
        remainder(format, b, a) == b,
        less(format, a, b) <==> a >= format.sign(),
        less(format, b, a) <==> a < format.sign(),
        !less(format, a, a),
        less(format, format.sign() + format.infinity(), format.infinity()),
        a < format.sign() ==> square_root(format, a) == a && truncated(format, a, limit) == limit,
        a >= format.sign() ==> no_number(format, square_root(format, a)) && truncated(
            format,
            a,
            limit,
        ) == 0,
        integer_below(format, a) == a,
        integer_nearest(format, a) == a,
{
    lemma_mantissas(format, b);
}

/// What the mantissa of a finite number is.
proof fn lemma_mantissas(format: Format, a: int)
    requires
        format.holds(a),
        unsigned(format, a) < format.infinity(),
    ensures
        format.decode(a) is Finite,
        format.decode(a)->Finite_negative == (a >= format.sign()),
        format.decode(a)->mantissa == 0 <==> nothing(format, a),
{
    let m = unsigned(format, a);
    lemma_fundamental_div_mod(m, format.hidden());
}

/// A number over zero is infinite, with the signs of both; zero over zero is not a number, nor is
/// what is left of a number after taking away zero; and the root of a number under zero is not one.
pub proof fn law_over_nothing(format: Format, a: int, b: int)
    requires
        format.holds(a),
        format.holds(b),
        unsigned(format, a) < format.infinity(),
        nothing(format, b),
    ensures
        !nothing(format, a) ==> endless(format, quotient(format, a, b)) && (quotient(format, a, b)
            >= format.sign() <==> ((a >= format.sign()) != (b >= format.sign()))),
        nothing(format, a) ==> no_number(format, quotient(format, a, b)),
        no_number(format, remainder(format, a, b)),
        !nothing(format, a) && a >= format.sign() ==> no_number(format, square_root(format, a)),
        nothing(format, a) ==> square_root(format, a) == a,
{
    lemma_mantissas(format, a);
    lemma_mantissas(format, b);
}

/// The sum of the two zeros is the one without a sign, and so is a number less itself; only two
/// zeros with a sign come to one with a sign.
pub proof fn law_signs_of_nothing(format: Format)
    ensures
        sum(format, 0, 0) == 0,
        sum(format, 0, format.sign()) == 0,
        sum(format, format.sign(), 0) == 0,
        sum(format, format.sign(), format.sign()) == format.sign(),
{
    lemma_mantissas(format, 0);
    lemma_mantissas(format, format.sign());
    let e = format.least_exponent();
    assert(format.decode(0)->exponent == e && format.decode(format.sign())->exponent == e);
    let p = power(0);
    assert(0 * p == 0) by (nonlinear_arith);
}

/// The whole number that a quotient is rounded to is no further from it than a half, and of two
/// that are equally close it is the even one.
pub proof fn law_ties_to_even(num: nat, den: nat)
    requires
        den > 0,
    ensures
        ({
            let q = nearest_even(num, den);
            &&& -den <= 2 * (num - q * den) <= den
            &&& 2 * (num - q * den) == den || 2 * (num - q * den) == -den ==> q % 2 == 0
        }),
{
    lemma_fundamental_div_mod(num as int, den as int);
    lemma_mod_bound(num as int, den as int);
    let (q, d) = (num as int / den as int, den as int);
    assert((q + 1) * d == q * d + d && q * d == d * q) by (nonlinear_arith);
}


/// Rounding to a whole number and taking the other sign can be done in either order.
pub proof fn law_rounding_odd(format: Format, a: int)
    requires
        format.holds(a),
        unsigned(format, a) < format.infinity(),
    ensures
        integer_nearest(format, negated(format, a)) == negated(format, integer_nearest(format, a)),
{
    lemma_mantissas(format, a);
    lemma_mantissas(format, negated(format, a));
    let d = format.decode(a);
    assert(format.decode(negated(format, a))->mantissa == d->mantissa);
    assert(format.decode(negated(format, a))->exponent == d->exponent);
    if d->exponent < 0 {
        let unit = power(-(d->exponent));
        let whole = d->mantissa / unit;
        let count = if 2 * (d->mantissa % unit) >= unit { (whole + 1) as nat } else { whole };
        let m = rounded_magnitude(format, count, 1, 0);
        lemma_rounded_magnitude_holds(format, count);
        assert(0 <= m < format.sign());
    }
}

/// A rounded number has no sign bit.
proof fn lemma_rounded_magnitude_holds(format: Format, count: nat)
    ensures
        0 <= rounded_magnitude(format, count, 1, 0) < format.sign(),
{
    if count > 0 {
        let q = spacing(format, count, 1, 0);
        let k = (q - format.least_exponent()) * format.hidden();
        assert(k >= 0) by (nonlinear_arith)
            requires
                k == (q - format.least_exponent()) * format.hidden(),
                q >= format.least_exponent(),
                format.hidden() > 0,
        ;
    }
}

} // verus!
