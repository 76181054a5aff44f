//! The operations on `Single` keep the order of exact results.
use super::encoding::{
    least, magnitude_of, power, product, quotient, rounded_magnitude, signed, sum, Format,
};
use super::facts::{lemma_add, lemma_unit_positive, lemma_zero_bits, unit};
use super::order::{
    finite, gap, lemma_bits_order, lemma_parts, lemma_rounded_magnitude_order,
    lemma_rounded_monotone, lemma_sign_bit, lemma_term, lemma_zero, units,
};
use super::single::{num, Single};
use vstd::arithmetic::power2::{lemma2_to64, lemma_pow2_adds, lemma_pow2_pos, pow2};
use vstd::prelude::*;

verus! {

/// The encoding of a sign and a magnitude.
pub open spec fn signed_bits(negative: bool, bits: int) -> int {
    Format::Single.signed_zero(negative) + bits
}

/// The magnitude of a sum, by the exact sum alone.
proof fn lemma_sum_magnitude(a: int, b: int)
    requires
        finite(Format::Single, a),
        finite(Format::Single, b),
        units(Format::Single, a) + units(Format::Single, b) != 0,
    ensures
        sum(Format::Single, a, b) == ({
            let total = units(Format::Single, a) + units(Format::Single, b);
            signed_bits(
                total < 0,
                rounded_magnitude(Format::Single, magnitude_of(total), 1, -149),
            )
        }),
{
    let f = Format::Single;
    let total = units(f, a) + units(f, b);
    let (na, ma, ea) = lemma_parts(f, a);
    let (nb, mb, eb) = lemma_parts(f, b);
    let e = least(ea, eb);
    let exact = signed(na, ma) * power(ea - e) + signed(nb, mb) * power(eb - e);
    lemma_term(f, na, ma, ea, e);
    lemma_term(f, nb, mb, eb, e);
    let p = pow2((e + 149) as nat) as int;
    lemma_pow2_pos((e + 149) as nat);
    assert(exact * p == total) by (nonlinear_arith)
        requires
            exact == signed(na, ma) * power(ea - e) + signed(nb, mb) * power(eb - e),
            (signed(na, ma) * power(ea - e)) * p == units(f, a),
            (signed(nb, mb) * power(eb - e)) * p == units(f, b),
            total == units(f, a) + units(f, b),
    ;
    assert((exact < 0) == (total < 0) && exact != 0) by (nonlinear_arith)
        requires
            exact * p == total,
            p > 0,
            total != 0,
    ;
    let (m, t) = (magnitude_of(exact), magnitude_of(total));
    assert(m * p == t) by (nonlinear_arith)
        requires
            exact * p == total,
            (exact < 0) == (total < 0),
            m == magnitude_of(exact),
            t == magnitude_of(total),
    ;
    lemma2_to64();
    assert(power(-149 - e) == 1 && power(0) == 1 && power(e + 149) == p);
    assert(t * 1 == t && 1 * 1 == 1) by (nonlinear_arith);
    lemma_rounded_monotone(f, m, 1, e, t, 1, -149);
    lemma_rounded_monotone(f, t, 1, -149, m, 1, e);
}

/// The magnitude of a product, by the exact product alone.
proof fn lemma_product_magnitude(a: int, b: int) -> (negative: bool)
    requires
        finite(Format::Single, a),
        finite(Format::Single, b),
    ensures
        product(Format::Single, a, b) == ({
            let total = units(Format::Single, a) * units(Format::Single, b);
            signed_bits(
                negative,
                rounded_magnitude(Format::Single, magnitude_of(total), 1, -298),
            )
        }),
        units(Format::Single, a) * units(Format::Single, b) > 0 ==> !negative,
        units(Format::Single, a) * units(Format::Single, b) < 0 ==> negative,
{
    let f = Format::Single;
    let (na, ma, ea) = lemma_parts(f, a);
    let (nb, mb, eb) = lemma_parts(f, b);
    let (x, y) = (units(f, a), units(f, b));
    let total = x * y;
    let (pa, pb) = (pow2((ea + 149) as nat) as int, pow2((eb + 149) as nat) as int);
    lemma_pow2_pos((ea + 149) as nat);
    lemma_pow2_pos((eb + 149) as nat);
    let (m, t) = (ma * mb, magnitude_of(total));
    assert(t == m * (pa * pb) && (total > 0 ==> na == nb) && (total < 0 ==> na != nb))
        by (nonlinear_arith)
        requires
            x == (if na { -(ma * pa) } else { ma * pa }),
            y == (if nb { -(mb * pb) } else { mb * pb }),
            total == x * y,
            t == magnitude_of(total),
            m == ma * mb,
            pa > 0,
            pb > 0,
    ;
    lemma2_to64();
    let e = ea + eb;
    lemma_pow2_adds((ea + 149) as nat, (eb + 149) as nat);
    let (up, down) = (power(e + 149) as int, power(-149 - e) as int);
    assert(power(-149) == 1 && power(149) == pow2(149));
    let one = pow2(149) as int;
    assert(up * one == (pa * pb) * down) by {
        if e + 149 >= 0 {
            lemma_pow2_adds((e + 149) as nat, 149);
            assert(down == 1);
        } else {
            lemma_pow2_adds((e + 298) as nat, (-149 - e) as nat);
            assert(up == 1);
        }
    }
    assert((m * up) * (1 * one) == (t * 1) * (1 * down)) by (nonlinear_arith)
        requires
            up * one == (pa * pb) * down,
            t == m * (pa * pb),
    ;
    lemma_rounded_monotone(f, m, 1, e, t, 1, -298);
    lemma_rounded_monotone(f, t, 1, -298, m, 1, e);
    na != nb
}

/// The magnitude of a quotient, by the exact quotient alone.
proof fn lemma_quotient_magnitude(a: int, b: int) -> (negative: bool)
    requires
        finite(Format::Single, a),
        finite(Format::Single, b),
        units(Format::Single, b) > 0,
    ensures
        quotient(Format::Single, a, b) == signed_bits(
            negative,
            rounded_magnitude(
                Format::Single,
                magnitude_of(units(Format::Single, a)),
                units(Format::Single, b) as nat,
                0,
            ),
        ),
        units(Format::Single, a) > 0 ==> !negative,
        units(Format::Single, a) < 0 ==> negative,
{
    let f = Format::Single;
    let (na, ma, ea) = lemma_parts(f, a);
    let (nb, mb, eb) = lemma_parts(f, b);
    let (x, y) = (units(f, a), units(f, b));
    let (pa, pb) = (pow2((ea + 149) as nat) as int, pow2((eb + 149) as nat) as int);
    lemma_pow2_pos((ea + 149) as nat);
    lemma_pow2_pos((eb + 149) as nat);
    let t = magnitude_of(x);
    assert(t == ma * pa && (x > 0 ==> !na) && (x < 0 ==> na)) by (nonlinear_arith)
        requires
            x == (if na { -(ma * pa) } else { ma * pa }),
            t == magnitude_of(x),
            pa > 0,
    ;
    assert(!nb && mb > 0 && y == mb * pb) by (nonlinear_arith)
        requires
            y == (if nb { -(mb * pb) } else { mb * pb }),
            y > 0,
            pb > 0,
    ;
    lemma2_to64();
    let k = ea - eb;
    let (up, down) = (power(k + 149) as int, power(-149 - k) as int);
    assert(power(-149) == 1 && power(149) == pow2(149));
    let one = pow2(149) as int;
    assert(up * pb == (pa * one) * down) by {
        lemma_pow2_adds((ea + 149) as nat, 149);
        let all = pow2((ea + 298) as nat) as int;
        assert(pa * one == all);
        if k + 149 >= 0 {
            lemma_pow2_adds((k + 149) as nat, (eb + 149) as nat);
            assert((k + 149) as nat + (eb + 149) as nat == (ea + 298) as nat);
            assert(down == 1);
            assert((pa * one) * down == all) by (nonlinear_arith)
                requires
                    pa * one == all,
                    down == 1,
            ;
        } else {
            lemma_pow2_adds((ea + 298) as nat, (-149 - k) as nat);
            assert((ea + 298) as nat + (-149 - k) as nat == (eb + 149) as nat);
            assert(up == 1);
            assert((pa * one) * down == pb && up * pb == pb) by (nonlinear_arith)
                requires
                    pa * one == all,
                    all * down == pb,
                    up == 1,
            ;
        }
    }
    assert((ma * up) * (y * 1) == (t * one) * (mb * down)) by (nonlinear_arith)
        requires
            up * pb == (pa * one) * down,
            t == ma * pa,
            y == mb * pb,
    ;
    lemma_rounded_monotone(f, ma, mb, k, t, y as nat, 0);
    lemma_rounded_monotone(f, t, y as nat, 0, ma, mb, k);
    na
}

/// What a sign and a magnitude stand for.
proof fn lemma_signed_units(negative: bool, bits: int)
    requires
        0 <= bits <= Format::Single.infinity(),
        finite(Format::Single, signed_bits(negative, bits)),
    ensures
        bits < Format::Single.infinity(),
        0 <= units(Format::Single, bits),
        bits == 0 ==> units(Format::Single, bits) == 0,
        units(Format::Single, signed_bits(negative, bits)) == if negative {
            -units(Format::Single, bits)
        } else {
            units(Format::Single, bits)
        },
{
    let f = Format::Single;
    lemma_parts(f, signed_bits(negative, bits));
    lemma_zero(f);
    lemma_bits_order(f, bits, bits);
    lemma_sign_bit(f, bits);
}

/// Two rounded results are in the order of what was rounded.
proof fn lemma_signed_order(s: int, negative: bool, a: int, t: int, other: bool, b: int)
    requires
        0 <= a <= Format::Single.infinity(),
        0 <= b <= Format::Single.infinity(),
        finite(Format::Single, signed_bits(negative, a)),
        finite(Format::Single, signed_bits(other, b)),
        s <= t,
        s > 0 ==> !negative,
        s < 0 ==> negative,
        s == 0 ==> a == 0,
        t > 0 ==> !other,
        t < 0 ==> other,
        t == 0 ==> b == 0,
        0 < s ==> a <= b,
        t < 0 ==> b <= a,
    ensures
        units(Format::Single, signed_bits(negative, a)) <= units(
            Format::Single,
            signed_bits(other, b),
        ),
{
    lemma_signed_units(negative, a);
    lemma_signed_units(other, b);
    lemma_bits_order(Format::Single, a, b);
    lemma_bits_order(Format::Single, b, a);
}

/// Sums are in the order of the exact sums.
pub proof fn lemma_add_monotone(x: Single, y: Single, z: Single, w: Single)
    requires
        x.is_finite(),
        y.is_finite(),
        z.is_finite(),
        w.is_finite(),
        (x + y).is_finite(),
        (z + w).is_finite(),
        x.value() + y.value() <= z.value() + w.value(),
    ensures
        (x + y).value() <= (z + w).value(),
{
    let f = Format::Single;
    let (s, t) = (x.value() + y.value(), z.value() + w.value());
    let (m, n) = (magnitude_of(s), magnitude_of(t));
    let (a, b) = (rounded_magnitude(f, m, 1, -149), rounded_magnitude(f, n, 1, -149));
    lemma2_to64();
    lemma_rounded_magnitude_order(f, m, 1, -149, 0);
    lemma_rounded_magnitude_order(f, n, 1, -149, 0);
    assert(m * 1 == m && n * 1 == n && 1 * 1 == 1int) by (nonlinear_arith);
    if m <= n {
        lemma_rounded_monotone(f, m, 1, -149, n, 1, -149);
    } else {
        lemma_rounded_monotone(f, n, 1, -149, m, 1, -149);
    }
    let negative = lemma_sum_bits(x, y);
    let other = lemma_sum_bits(z, w);
    lemma_signed_order(s, negative, a, t, other, b);
}

/// A sum, by the exact sum alone.
proof fn lemma_sum_bits(x: Single, y: Single) -> (negative: bool)
    requires
        x.is_finite(),
        y.is_finite(),
    ensures
        (x + y).bits == signed_bits(
            negative,
            rounded_magnitude(Format::Single, magnitude_of(x.value() + y.value()), 1, -149),
        ),
        x.value() + y.value() > 0 ==> !negative,
        x.value() + y.value() < 0 ==> negative,
{
    let total = x.value() + y.value();
    lemma_rounded_magnitude_order(Format::Single, magnitude_of(total), 1, -149, 0);
    if total != 0 {
        reveal(Single::spec_add);
        lemma_sum_magnitude(x.bits as int, y.bits as int);
        total < 0
    } else {
        lemma_zero(Format::Single);
        lemma_add(x, y, num(0), num(0));
        lemma_zero_bits(x + y);
        (x + y).bits != 0
    }
}

/// Products are in the order of the exact products.
pub proof fn lemma_mul_monotone(x: Single, y: Single, z: Single, w: Single)
    requires
        x.is_finite(),
        y.is_finite(),
        z.is_finite(),
        w.is_finite(),
        (x * y).is_finite(),
        (z * w).is_finite(),
        x.value() * y.value() <= z.value() * w.value(),
    ensures
        (x * y).value() <= (z * w).value(),
{
    reveal(Single::spec_mul);
    let f = Format::Single;
    let (s, t) = (x.value() * y.value(), z.value() * w.value());
    let (m, n) = (magnitude_of(s), magnitude_of(t));
    let (a, b) = (rounded_magnitude(f, m, 1, -298), rounded_magnitude(f, n, 1, -298));
    lemma_rounded_magnitude_order(f, m, 1, -298, 0);
    lemma_rounded_magnitude_order(f, n, 1, -298, 0);
    let (up, down) = (power(-149) as int, power(149) as int);
    assert(m <= n ==> (m * up) * (1 * down) <= (n * up) * (1 * down)) by (nonlinear_arith)
        requires
            up == 1,
            down >= 0,
    ;
    assert(n <= m ==> (n * up) * (1 * down) <= (m * up) * (1 * down)) by (nonlinear_arith)
        requires
            up == 1,
            down >= 0,
    ;
    if m <= n {
        lemma_rounded_monotone(f, m, 1, -298, n, 1, -298);
    } else {
        lemma_rounded_monotone(f, n, 1, -298, m, 1, -298);
    }
    let negative = lemma_product_magnitude(x.bits as int, y.bits as int);
    let other = lemma_product_magnitude(z.bits as int, w.bits as int);
    lemma_signed_order(s, negative, a, t, other, b);
}

/// Quotients by a positive number are in the order of the dividends.
pub proof fn lemma_div_monotone(x: Single, z: Single, y: Single)
    requires
        x.is_finite(),
        y.is_finite(),
        z.is_finite(),
        (x / y).is_finite(),
        (z / y).is_finite(),
        y.value() > 0,
        x.value() <= z.value(),
    ensures
        (x / y).value() <= (z / y).value(),
{
    reveal(Single::spec_euclidean_or_real_div);
    let f = Format::Single;
    let (s, t, v) = (x.value(), z.value(), y.value() as nat);
    let (m, n) = (magnitude_of(s), magnitude_of(t));
    let (a, b) = (rounded_magnitude(f, m, v, 0), rounded_magnitude(f, n, v, 0));
    lemma_rounded_magnitude_order(f, m, v, 0, 0);
    lemma_rounded_magnitude_order(f, n, v, 0, 0);
    let (up, down) = (power(149) as int, power(-149) as int);
    assert(m <= n ==> (m * up) * (v * down) <= (n * up) * (v * down)) by (nonlinear_arith)
        requires
            down == 1,
            up >= 0,
    ;
    assert(n <= m ==> (n * up) * (v * down) <= (m * up) * (v * down)) by (nonlinear_arith)
        requires
            down == 1,
            up >= 0,
    ;
    if m <= n {
        lemma_rounded_monotone(f, m, v, 0, n, v, 0);
    } else {
        lemma_rounded_monotone(f, n, v, 0, m, v, 0);
    }
    let negative = lemma_quotient_magnitude(x.bits as int, y.bits as int);
    let other = lemma_quotient_magnitude(z.bits as int, y.bits as int);
    lemma_signed_order(s, negative, a, t, other, b);
}

/// A product of two numbers that are not negative, and that is over a number by less than half the
/// distance to the next one, is not rounded above it.
pub proof fn lemma_mul_below(x: Single, y: Single, high: Single)
    requires
        x.is_finite(),
        y.is_finite(),
        x.value() >= 0,
        y.value() >= 0,
        high.bits < 0x7f80_0000,
        2 * (x.value() * y.value()) < (2 * high.value() + gap(Format::Single, high.bits as int))
            * unit(),
    ensures
        (x * y).is_finite(),
        0 <= (x * y).value() <= high.value(),
{
    reveal(Single::spec_mul);
    let f = Format::Single;
    let total = x.value() * y.value();
    assert(total >= 0) by (nonlinear_arith)
        requires
            total == x.value() * y.value(),
            x.value() >= 0,
            y.value() >= 0,
    ;
    let negative = lemma_product_magnitude(x.bits as int, y.bits as int);
    let bits = rounded_magnitude(f, total as nat, 1, -298);
    lemma_unit_positive();
    let n = total as nat;
    assert(power(-149) == 1 && power(149) == unit());
    assert(n * 1 == n && 1 * unit() == unit()) by (nonlinear_arith);
    lemma_rounded_magnitude_order(f, n, 1, -298, high.bits as int);
    lemma_zero(f);
    lemma_bits_order(f, bits, high.bits as int);
    lemma_signed_units(negative, bits);
}

} // verus!
