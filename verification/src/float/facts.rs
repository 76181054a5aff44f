//! What the operations on `Single` do to the numbers that its encodings stand for.
use super::encoding;
use super::encoding::{least, magnitude_of, power, rounded, rounded_magnitude, signed, Format};
use super::order::{
    finite, gap, lemma_bits_order, lemma_fields, lemma_next, lemma_parts, lemma_product_between,
    lemma_product_one, lemma_quotient_between, lemma_rounded_between, lemma_rounded_magnitude_order,
    lemma_sign_bit, lemma_sum_below, lemma_sum_between, lemma_zero, one, units,
};
use super::single::{num, Single};
use vstd::arithmetic::div_mod::{
    lemma_basic_div, lemma_div_is_ordered_by_denominator, lemma_fundamental_div_mod,
    lemma_fundamental_div_mod_converse, lemma_mod_decreases,
};
use vstd::arithmetic::power2::{
    lemma2_to64, lemma_pow2_adds, lemma_pow2_pos, lemma_pow2_strictly_increases, lemma_pow2_unfold,
    pow2,
};
use vstd::prelude::*;

verus! {

impl Single {
    /// Whether this is a finite number.
    pub open spec fn is_finite(self) -> bool {
        finite(Format::Single, self.bits as int)
    }

    /// The number, counted in units of the least positive one.
    pub open spec fn value(self) -> int {
        units(Format::Single, self.bits as int)
    }
}

/// The number 1 in units of the least positive one.
pub open spec fn unit() -> int {
    one(Format::Single) as int
}

/// What is finite is a number.
pub proof fn lemma_finite_number(x: Single)
    requires
        x.is_finite(),
    ensures
        !x.is_nan(),
{
    reveal(Single::is_nan_spec);
}

/// Comparison is comparison of the numbers.
pub proof fn lemma_compare(x: Single, y: Single)
    requires
        x.is_finite(),
        y.is_finite(),
    ensures
        x.lt(y) <==> x.value() < y.value(),
        x.le(y) <==> x.value() <= y.value(),
        x.gt(y) <==> x.value() > y.value(),
        x.ge(y) <==> x.value() >= y.value(),
{
    lemma_finite_number(x);
    lemma_finite_number(y);
    lemma_less(x, y);
    lemma_less(y, x);
}

proof fn lemma_less(x: Single, y: Single)
    requires
        x.is_finite(),
        y.is_finite(),
    ensures
        x.lt(y) <==> x.value() < y.value(),
{
    reveal(Single::lt_spec);
    let f = Format::Single;
    let (na, ma, ea) = lemma_parts(f, x.bits as int);
    let (nb, mb, eb) = lemma_parts(f, y.bits as int);
    let e = least(ea, eb);
    super::order::lemma_term(f, na, ma, ea, e);
    super::order::lemma_term(f, nb, mb, eb, e);
    let p = pow2((e - f.least_exponent()) as nat) as int;
    lemma_pow2_pos((e - f.least_exponent()) as nat);
    let a = signed(na, ma) * power(ea - e);
    let b = signed(nb, mb) * power(eb - e);
    assert(a < b <==> a * p < b * p) by (nonlinear_arith)
        requires
            p > 0,
    ;
}

/// Numbers with the same value and, for zeros, the same sign, are the same.
pub proof fn lemma_same(x: Single, y: Single)
    requires
        x.is_finite(),
        y.is_finite(),
        x.value() == y.value(),
        x.value() != 0 || (x.bits >= 0x8000_0000) == (y.bits >= 0x8000_0000),
    ensures
        x == y,
{
    let f = Format::Single;
    let (nx, _, _) = lemma_parts(f, x.bits as int);
    let (ny, _, _) = lemma_parts(f, y.bits as int);
    let mx = if nx { x.bits - f.sign() } else { x.bits as int };
    let my = if ny { y.bits - f.sign() } else { y.bits as int };
    lemma_sign_bit(f, mx);
    lemma_sign_bit(f, my);
    lemma_bits_order(f, mx, my);
    lemma_bits_order(f, my, mx);
}

/// The other sign.
pub proof fn lemma_negated(x: Single)
    requires
        x.is_finite(),
    ensures
        x.negated().is_finite(),
        x.negated().value() == -x.value(),
{
    reveal(Single::negated_spec);
    let f = Format::Single;
    let (nx, _, _) = lemma_parts(f, x.bits as int);
    let mx = if nx { x.bits - f.sign() } else { x.bits as int };
    lemma_sign_bit(f, mx);
}

/// Without the sign.
pub proof fn lemma_abs(x: Single)
    requires
        x.is_finite(),
    ensures
        x.abs().is_finite(),
        x.abs().value() == if x.value() < 0 { -x.value() } else { x.value() },
{
    reveal(Single::abs_spec);
    let f = Format::Single;
    let (nx, _, _) = lemma_parts(f, x.bits as int);
    let mx = if nx { x.bits - f.sign() } else { x.bits as int };
    lemma_sign_bit(f, mx);
}

/// Sums keep to the numbers around them.
pub proof fn lemma_add(x: Single, y: Single, low: Single, high: Single)
    requires
        x.is_finite(),
        y.is_finite(),
        low.is_finite(),
        high.is_finite(),
        low.value() <= x.value() + y.value() <= high.value(),
    ensures
        (x + y).is_finite(),
        low.value() <= (x + y).value() <= high.value(),
{
    reveal(Single::spec_add);
    lemma_sum_between(
        Format::Single,
        x.bits as int,
        y.bits as int,
        low.bits as int,
        high.bits as int,
    );
}

/// Differences keep to the numbers around them.
pub proof fn lemma_sub(x: Single, y: Single, low: Single, high: Single)
    requires
        x.is_finite(),
        y.is_finite(),
        low.is_finite(),
        high.is_finite(),
        low.value() <= x.value() - y.value() <= high.value(),
    ensures
        (x - y).is_finite(),
        low.value() <= (x - y).value() <= high.value(),
{
    lemma_negated(y);
    lemma_add(x, y.negated(), low, high);
}

/// Products keep to the numbers around them.
pub proof fn lemma_mul(x: Single, y: Single, low: Single, high: Single)
    requires
        x.is_finite(),
        y.is_finite(),
        low.is_finite(),
        high.is_finite(),
        low.value() * unit() <= x.value() * y.value() <= high.value() * unit(),
    ensures
        (x * y).is_finite(),
        low.value() <= (x * y).value() <= high.value(),
{
    reveal(Single::spec_mul);
    lemma_product_between(
        Format::Single,
        x.bits as int,
        y.bits as int,
        low.bits as int,
        high.bits as int,
    );
}

/// Quotients keep to the numbers around them.
pub proof fn lemma_div(x: Single, y: Single, low: Single, high: Single)
    requires
        x.is_finite(),
        y.is_finite(),
        low.is_finite(),
        high.is_finite(),
        y.value() > 0,
        low.value() * y.value() <= x.value() * unit() <= high.value() * y.value(),
    ensures
        (x / y).is_finite(),
        low.value() <= (x / y).value() <= high.value(),
{
    reveal(Single::spec_euclidean_or_real_div);
    lemma_quotient_between(
        Format::Single,
        x.bits as int,
        y.bits as int,
        low.bits as int,
        high.bits as int,
    );
}

/// The number `m * 2^e`, where `m` fits the fraction.
pub proof fn lemma_scaled(m: nat, e: int) -> (r: Single)
    requires
        m < 0x100_0000,
        -149 <= e <= 104,
    ensures
        r.is_finite(),
        r.bits < 0x8000_0000,
        r.value() == m * pow2((e + 149) as nat),
    decreases 0x100_0000 - m,
{
    if m == 0 {
        lemma_zero(Format::Single);
        assert(0 * pow2((e + 149) as nat) == 0) by (nonlinear_arith);
        num(0)
    } else if m >= 0x80_0000 || e == -149 {
        let bits = (e + 149) * 0x80_0000 + m;
        let r = num(bits as u32);
        assert(0 <= bits < 0x7f80_0000);
        if m >= 0x80_0000 {
            lemma_fundamental_div_mod_converse(bits, 0x80_0000, e + 150, m - 0x80_0000);
        } else {
            lemma_fundamental_div_mod_converse(bits, 0x80_0000, 0, m as int);
        }
        r
    } else {
        let r = lemma_scaled(2 * m, e - 1);
        lemma_pow2_unfold((e + 149) as nat);
        let (a, b) = (pow2((e + 149) as nat), pow2((e + 148) as nat));
        assert((2 * m) * b == m * a) by (nonlinear_arith)
            requires
                a == 2 * b,
        ;
        r
    }
}

/// The whole number `n`.
pub proof fn lemma_whole(n: nat) -> (r: Single)
    requires
        n <= 0x100_0000,
    ensures
        r.is_finite(),
        r.bits < 0x8000_0000,
        r.value() == n * unit(),
{
    if n == 0x100_0000 {
        let r = lemma_scaled(0x80_0000, 1);
        lemma_pow2_unfold(150);
        r
    } else {
        lemma_scaled(n, 0)
    }
}

/// An exact result that is a number of the format is kept.
pub proof fn lemma_kept(negative: bool, m: nat, e: int, r: Single)
    requires
        r.is_finite(),
        e >= -149,
        r.value() == signed(negative, m * pow2((e + 149) as nat)),
    ensures
        finite(Format::Single, rounded(Format::Single, negative, m, 1, e)),
        units(Format::Single, rounded(Format::Single, negative, m, 1, e)) == r.value(),
{
    let f = Format::Single;
    lemma2_to64();
    assert(power(e - f.least_exponent()) == pow2((e + 149) as nat));
    assert(power(f.least_exponent() - e) == 1);
    let d = 1nat * power(f.least_exponent() - e);
    assert(d == 1);
    assert(r.value() * d == r.value());
    lemma_rounded_between(f, negative, m, 1, e, r.bits as int, r.bits as int);
}

/// Whole numbers up to the width of the fraction convert exactly.
pub proof fn lemma_from_usize(n: usize)
    requires
        n <= 0x100_0000,
    ensures
        Single::from_usize(n).is_finite(),
        Single::from_usize(n).value() == n * unit(),
{
    reveal(Single::from_usize_spec);
    let r = lemma_whole(n as nat);
    lemma_kept(false, n as nat, 0, r);
}

/// One is one unit.
pub proof fn lemma_unit_positive()
    ensures
        unit() > 0,
        unit() == pow2(149),
{
    lemma_pow2_pos(149);
}

/// How the value of a finite number divides by one.
proof fn lemma_divided(m: nat, e: int) -> (res: (nat, int))
    requires
        -149 <= e,
    ensures
        m * pow2((e + 149) as nat) == res.0 * unit() + res.1,
        0 <= res.1 < unit(),
        e >= 0 ==> res.0 == m * pow2(e as nat) && res.1 == 0,
        e < 0 ==> res.0 == m / pow2((-e) as nat) && (res.1 == 0) == (m % pow2((-e) as nat) == 0),
        e < 0 ==> (2 * res.1 >= unit()) == (2 * (m % pow2((-e) as nat)) >= pow2((-e) as nat)),
{
    lemma_unit_positive();
    if e >= 0 {
        lemma_pow2_adds(e as nat, 149);
        let (a, b, c) = (pow2(e as nat), pow2(149), pow2((e + 149) as nat));
        assert(m * c == (m * a) * b) by (nonlinear_arith)
            requires
                c == a * b,
        ;
        (m * a, 0)
    } else {
        let b = pow2((-e) as nat) as int;
        let a = pow2((e + 149) as nat) as int;
        lemma_pow2_adds((e + 149) as nat, (-e) as nat);
        lemma_pow2_pos((-e) as nat);
        lemma_pow2_pos((e + 149) as nat);
        let q = m as int / b;
        let r = m as int % b;
        lemma_fundamental_div_mod(m as int, b);
        let rest = r * a;
        assert(m * a == q * (a * b) + rest) by (nonlinear_arith)
            requires
                m == b * q + r,
                rest == r * a,
        ;
        assert(0 <= rest < a * b) by (nonlinear_arith)
            requires
                rest == r * a,
                0 <= r < b,
                a > 0,
        ;
        assert((rest == 0) == (r == 0)) by (nonlinear_arith)
            requires
                rest == r * a,
                a > 0,
        ;
        assert((2 * rest >= a * b) == (2 * r >= b)) by (nonlinear_arith)
            requires
                rest == r * a,
                a > 0,
        ;
        (q as nat, rest)
    }
}

/// The integer at or below a number.
pub proof fn lemma_floor(x: Single)
    requires
        x.is_finite(),
    ensures
        x.floor().is_finite(),
        x.floor().value() == (x.value() / unit()) * unit(),
{
    reveal(Single::floor_spec);
    let f = Format::Single;
    let (negative, m, e) = lemma_parts(f, x.bits as int);
    lemma_unit_positive();
    let (q, rest) = lemma_divided(m, e);
    let u = unit();
    let v = x.value();
    if e >= 0 {
        if negative {
            assert(v == u * (-(q as int)) + 0) by (nonlinear_arith)
                requires
                    v == -(q * u),
            ;
            lemma_fundamental_div_mod_converse(v, u, -(q as int), 0);
            assert((-(q as int)) * u == v) by (nonlinear_arith)
                requires
                    v == -(q * u),
            ;
        } else {
            assert(v == u * (q as int) + 0) by (nonlinear_arith)
                requires
                    v == q * u,
            ;
            lemma_fundamental_div_mod_converse(v, u, q as int, 0);
        }
    } else {
        let part = pow2((-e) as nat);
        let count = if negative && m % part != 0 { q + 1 } else { q };
        assert(m < 0x100_0000);
        assert(part >= 2) by {
            lemma_pow2_unfold((-e) as nat);
            lemma_pow2_pos((-e - 1) as nat);
        }
        assert(q <= m / 2) by {
            lemma_div_is_ordered_by_denominator(
                m as int,
                2,
                part as int,
            );
        }
        let r = lemma_whole(count);
        let whole = if negative { r.negated() } else { r };
        lemma_negated(r);
        assert(whole.value() == signed(negative, count * unit() as nat));
        lemma_kept(negative, count, 0, whole);
        if negative {
            if rest == 0 {
                assert(v == u * (-(q as int)) + 0) by (nonlinear_arith)
                    requires
                        v == -(q * u + rest),
                        rest == 0,
                ;
                lemma_fundamental_div_mod_converse(v, u, -(q as int), 0);
            } else {
                assert(v == (-(q as int) - 1) * u + (u - rest)) by (nonlinear_arith)
                    requires
                        v == -(q * u + rest),
                ;
                lemma_fundamental_div_mod_converse(v, u, -(q as int) - 1, u - rest);
            }
            assert((-(count as int)) * u == -(count * u)) by (nonlinear_arith);
        } else {
            assert(v == u * (q as int) + rest) by (nonlinear_arith)
                requires
                    v == q * u + rest,
            ;
            lemma_fundamental_div_mod_converse(v, u, q as int, rest);
        }
    }
}

/// The integer that a number is cut off to.
pub proof fn lemma_to_usize(x: Single)
    requires
        x.is_finite(),
        x.value() >= 0,
    ensures
        x.to_usize() == if x.value() / unit() < usize::MAX {
            x.value() / unit()
        } else {
            usize::MAX as int
        },
{
    reveal(Single::to_usize_spec);
    let f = Format::Single;
    let (negative, m, e) = lemma_parts(f, x.bits as int);
    lemma_unit_positive();
    let (q, rest) = lemma_divided(m, e);
    let u = unit();
    let v = x.value();
    lemma2_to64();
    lemma_pow2_pos((e + 149) as nat);
    if negative {
        assert(m == 0) by (nonlinear_arith)
            requires
                v == -(m * pow2((e + 149) as nat)),
                v >= 0,
                pow2((e + 149) as nat) > 0,
        ;
        assert(v == 0) by (nonlinear_arith)
            requires
                v == -(m * pow2((e + 149) as nat)),
                m == 0,
        ;
        lemma_fundamental_div_mod_converse(0, u, 0, 0);
    } else {
        assert(v == u * (q as int) + rest) by (nonlinear_arith)
            requires
                v == q * u + rest,
        ;
        lemma_fundamental_div_mod_converse(v, u, q as int, rest);
        if e >= 0 {
            assert(power(-e) == 1);
            assert(m * power(e) / 1nat == m * power(e));
        } else {
            assert(power(e) == 1);
            assert(m * 1 == m);
        }
    }
}

/// What is left of a number that is not negative.
pub proof fn lemma_remainder(x: Single, y: Single)
    requires
        x.is_finite(),
        y.is_finite(),
        y.value() > 0,
    ensures
        x.remainder(y).is_finite(),
        x.value() >= 0 ==> x.remainder(y).value() == x.value() % y.value(),
        x.value() <= 0 ==> x.remainder(y).value() == -((-x.value()) % y.value()),
{
    reveal(Single::remainder_spec);
    let f = Format::Single;
    let (na, ma, ea) = lemma_parts(f, x.bits as int);
    let (nb, mb, eb) = lemma_parts(f, y.bits as int);
    let e = least(ea, eb);
    lemma_pow2_pos((ea + 149) as nat);
    lemma_pow2_pos((eb + 149) as nat);
    assert(!nb && mb > 0) by (nonlinear_arith)
        requires
            y.value() > 0,
            y.value() == (if nb {
                -(mb * pow2((eb + 149) as nat))
            } else {
                (mb * pow2((eb + 149) as nat)) as int
            }),
            pow2((eb + 149) as nat) > 0,
    ;
    let a = (ma * power(ea - e)) as int;
    let b = (mb * power(eb - e)) as int;
    let left = a % b;
    lemma_power_pos(eb - e);
    assert(b > 0) by (nonlinear_arith)
        requires
            b == mb * power(eb - e),
            mb > 0,
            power(eb - e) > 0,
    ;
    lemma_fundamental_div_mod(a, b);
    lemma2_to64();
    assert(0 <= left < b);
    assert(left < 0x100_0000) by {
        if e == eb {
            assert(b == mb) by (nonlinear_arith)
                requires
                    b == mb * power(eb - e),
                    power(eb - e) == 1,
            ;
        } else {
            assert(a == ma) by (nonlinear_arith)
                requires
                    a == ma * power(ea - e),
                    power(ea - e) == 1,
            ;
            lemma_mod_decreases(a as nat, b as nat);
        }
    }
    let r = lemma_scaled(left as nat, e);
    let kept = if na { r.negated() } else { r };
    lemma_negated(r);
    lemma_kept(na, left as nat, e, kept);
    super::order::lemma_term(f, false, ma, ea, e);
    super::order::lemma_term(f, false, mb, eb, e);
    let p = pow2((e + 149) as nat) as int;
    lemma_pow2_pos((e + 149) as nat);
    let vx = if na { -x.value() } else { x.value() };
    assert(vx == a * p);
    assert(y.value() == b * p);
    let q = a / b;
    assert(a * p == q * (b * p) + left * p) by (nonlinear_arith)
        requires
            a == b * q + left,
    ;
    assert(0 <= left * p < b * p) by (nonlinear_arith)
        requires
            0 <= left < b,
            p > 0,
    ;
    lemma_fundamental_div_mod_converse(a * p, b * p, q, left * p);
    assert(vx >= 0) by (nonlinear_arith)
        requires
            vx == a * p,
            a >= 0,
            p > 0,
    ;
    if x.value() == 0 {
        lemma_fundamental_div_mod_converse(0, y.value(), 0, 0);
    }
}

proof fn lemma_power_pos(x: int)
    ensures
        power(x) > 0,
{
    super::rounding::lemma_power_positive(x);
}

/// Whether a number lies between two others, which count.
pub open spec fn within(x: Single, low: Single, high: Single) -> bool {
    low.le(x) && x.le(high)
}

/// What lies between finite numbers is finite.
pub proof fn lemma_within(x: Single, low: Single, high: Single)
    requires
        low.is_finite(),
        high.is_finite(),
    ensures
        within(x, low, high) <==> x.is_finite() && low.value() <= x.value() <= high.value(),
{
    if x.is_finite() {
        lemma_compare(low, x);
        lemma_compare(x, high);
    } else {
        reveal(Single::is_nan_spec);
        reveal(Single::lt_spec);
        lemma_finite_number(low);
        lemma_finite_number(high);
    }
}

/// The value of a number whose encoding is given, for exponents around that of one: `weight` of
/// it are as many as its fraction of ones.
pub proof fn lemma_constant(bits: u32, weight: int, fraction: int)
    requires
        0x80_0000 <= bits < 0x7f80_0000,
        bits / 0x80_0000 <= 150,
        weight == pow2((150 - bits / 0x80_0000) as nat),
        fraction == 0x80_0000 + bits % 0x80_0000,
    ensures
        num(bits).is_finite(),
        num(bits).value() * weight == fraction * unit(),
        num(bits).value() > 0,
{
    let field = bits as int / 0x80_0000;
    let m = fraction;
    lemma_pow2_adds((field - 1) as nat, (150 - field) as nat);
    lemma_pow2_pos((field - 1) as nat);
    let (a, b) = (pow2((field - 1) as nat) as int, pow2((150 - field) as nat) as int);
    let v = num(bits).value();
    assert(v == m * a);
    assert(v * b == m * (a * b)) by (nonlinear_arith)
        requires
            v == m * a,
    ;
    assert(v > 0) by (nonlinear_arith)
        requires
            v == m * a,
            m > 0,
            a > 0,
    ;
}

/// The value of a large number whose encoding is given: `weight` times as many ones as its
/// fraction.
pub proof fn lemma_large_constant(bits: u32, weight: int, fraction: int)
    requires
        0x4b00_0000 <= bits < 0x7f80_0000,
        weight == pow2((bits / 0x80_0000 - 150) as nat),
        fraction == 0x80_0000 + bits % 0x80_0000,
    ensures
        num(bits).is_finite(),
        num(bits).value() == (fraction * weight) * unit(),
        gap(Format::Single, bits as int) == weight * unit(),
{
    let field = bits as int / 0x80_0000;
    lemma_pow2_adds(149, (field - 150) as nat);
    let (a, b) = (pow2((field - 1) as nat) as int, pow2(149) as int);
    assert(fraction * a == (fraction * weight) * b && a == weight * b) by (nonlinear_arith)
        requires
            a == b * weight,
    ;
}

/// The numbers that the effects use most.
pub proof fn lemma_constants()
    ensures
        unit() > 0,
        num(0).is_finite(),
        num(0).value() == 0,
        num(0x3e80_0000).is_finite(),
        4 * num(0x3e80_0000).value() == unit(),
        num(0x3f00_0000).is_finite(),
        2 * num(0x3f00_0000).value() == unit(),
        num(0x3f40_0000).is_finite(),
        4 * num(0x3f40_0000).value() == 3 * unit(),
        num(0x3f80_0000).is_finite(),
        num(0x3f80_0000).value() == unit(),
        num(0x3fc0_0000).is_finite(),
        2 * num(0x3fc0_0000).value() == 3 * unit(),
        num(0x4000_0000).is_finite(),
        num(0x4000_0000).value() == 2 * unit(),
        num(0x4040_0000).is_finite(),
        num(0x4040_0000).value() == 3 * unit(),
        num(0xbf80_0000).is_finite(),
        num(0xbf80_0000).value() == -unit(),
        num(0xbf00_0000).is_finite(),
        2 * num(0xbf00_0000).value() == -unit(),
{
    lemma_unit_positive();
    lemma_zero(Format::Single);
    lemma2_to64();
    lemma_constant(0x3e80_0000, 0x2000000, 0x800000);
    lemma_constant(0x3f00_0000, 0x1000000, 0x800000);
    lemma_constant(0x3f40_0000, 0x1000000, 0xc00000);
    lemma_constant(0x3f80_0000, 0x800000, 0x800000);
    lemma_constant(0x3fc0_0000, 0x800000, 0xc00000);
    lemma_constant(0x4000_0000, 0x400000, 0x800000);
    lemma_constant(0x4040_0000, 0x400000, 0xc00000);
    lemma_sign_bit(Format::Single, 0x3f80_0000);
    lemma_sign_bit(Format::Single, 0x3f00_0000);
}

/// A product with a factor between 0 and 1 is no further from zero.
pub proof fn lemma_shrunk(x: Single, factor: Single)
    requires
        x.is_finite(),
        factor.is_finite(),
        0 <= factor.value() <= unit(),
    ensures
        (x * factor).is_finite(),
        (factor * x).is_finite(),
        x.value() >= 0 ==> 0 <= (x * factor).value() <= x.value() && 0 <= (factor * x).value()
            <= x.value(),
        x.value() <= 0 ==> x.value() <= (x * factor).value() <= 0 && x.value() <= (factor
            * x).value() <= 0,
{
    lemma_constants();
    let zero = num(0);
    let (v, w, u) = (x.value(), factor.value(), unit());
    assert(0 * u == 0) by (nonlinear_arith);
    if v >= 0 {
        assert(0 <= v * w <= v * u && w * v == v * w) by (nonlinear_arith)
            requires
                v >= 0,
                0 <= w <= u,
        ;
        lemma_mul(x, factor, zero, x);
        lemma_mul(factor, x, zero, x);
    } else {
        assert(v * u <= v * w <= 0 && w * v == v * w) by (nonlinear_arith)
            requires
                v < 0,
                0 <= w <= u,
        ;
        lemma_mul(x, factor, x, zero);
        lemma_mul(factor, x, x, zero);
    }
}

/// A product with one is the number itself.
pub proof fn lemma_times_one(x: Single)
    requires
        !x.is_nan(),
    ensures
        x * num(0x3f80_0000) == x,
        num(0x3f80_0000) * x == x,
{
    reveal(Single::spec_mul);
    reveal(Single::is_nan_spec);
    lemma_product_one(Format::Single, x.bits as int);
}

/// A sum with zero has the same value.
pub proof fn lemma_plus_zero(x: Single, zero: Single)
    requires
        x.is_finite(),
        zero.is_finite(),
        zero.value() == 0,
    ensures
        (x + zero).is_finite(),
        (x + zero).value() == x.value(),
        (zero + x).is_finite(),
        (zero + x).value() == x.value(),
        (x - zero).is_finite(),
        (x - zero).value() == x.value(),
{
    lemma_add(x, zero, x, x);
    lemma_add(zero, x, x, x);
    lemma_sub(x, zero, x, x);
}

/// A difference between two numbers from 0 to 1 is not rounded up by more than a part in 2^25.
pub proof fn lemma_difference_close(x: Single, y: Single)
    requires
        x.is_finite(),
        y.is_finite(),
        0 <= y.value() <= x.value() <= unit(),
    ensures
        (x - y).is_finite(),
        0 <= (x - y).value() <= unit(),
        0x200_0000 * ((x - y).value() - (x.value() - y.value())) <= unit(),
{
    let f = Format::Single;
    lemma_constants();
    let d = x - y;
    lemma_sub(x, y, num(0), num(0x3f80_0000));
    let exact = x.value() - y.value();
    if d.value() > exact {
        let (negative, _, _) = lemma_parts(f, d.bits as int);
        assert(!negative) by {
            if negative {
                lemma_sign_bit(f, d.bits - f.sign());
            }
        }
        lemma_bits_order(f, d.bits as int, 0);
        lemma_bits_order(f, d.bits as int, 0x3f80_0000);
        let p = d.bits as int - 1;
        super::order::lemma_next(f, p);
        lemma_bits_order(f, p, d.bits as int);
        lemma_negated(y);
        if 2 * exact < 2 * units(f, p) + gap(f, p) {
            reveal(Single::spec_add);
            super::order::lemma_sum_below(f, x.bits as int, y.negated().bits as int, p);
            lemma_bits_order(f, d.bits as int, p);
            assert(d.bits == encoding::sum(f, x.bits as int, y.negated().bits as int));
            assert(false);
        }
        let field = p / 0x80_0000;
        assert(field <= 126);
        lemma2_to64();
        lemma_pow2_adds(125, 24);
        assert(0x100_0000 * gap(f, p) <= unit()) by {
            if 0 < field < 126 {
                lemma_pow2_strictly_increases((field - 1) as nat, 125);
            }
            if field == 0 {
                lemma_pow2_strictly_increases(0, 125);
            }
            let (a, b) = (gap(f, p) as int, pow2(125) as int);
            assert(a <= b);
            assert(0x100_0000 * b == unit());
        }
    }
}

/// The integer closest to a number that is not negative.
pub proof fn lemma_round(x: Single)
    requires
        x.is_finite(),
        x.value() >= 0,
    ensures
        x.round().is_finite(),
        x.round().value() == ((2 * x.value() + unit()) / (2 * unit())) * unit(),
{
    reveal(Single::round_spec);
    let f = Format::Single;
    let (negative, m, e) = lemma_parts(f, x.bits as int);
    lemma_unit_positive();
    let (q, rest) = lemma_divided(m, e);
    let u = unit();
    let v = x.value();
    lemma_pow2_pos((e + 149) as nat);
    if negative {
        assert(m == 0) by (nonlinear_arith)
            requires
                v == -(m * pow2((e + 149) as nat)),
                v >= 0,
                pow2((e + 149) as nat) > 0,
        ;
        assert(m * pow2((e + 149) as nat) == 0) by (nonlinear_arith)
            requires
                m == 0,
        ;
    }
    assert(m * pow2((e + 149) as nat) == v);
    if e >= 0 {
        assert(2 * v + u == q * (2 * u) + u) by (nonlinear_arith)
            requires
                v == q * u,
        ;
        lemma_fundamental_div_mod_converse(2 * v + u, 2 * u, q as int, u);
    } else {
        let part = pow2((-e) as nat);
        let up = 2 * (m % part) >= part;
        let count = if up { q + 1 } else { q };
        assert(m < 0x100_0000);
        assert(part >= 2) by {
            lemma_pow2_unfold((-e) as nat);
            lemma_pow2_pos((-e - 1) as nat);
        }
        assert(q <= m / 2) by {
            lemma_div_is_ordered_by_denominator(
                m as int,
                2,
                part as int,
            );
        }
        let r = lemma_whole(count);
        let whole = if negative { r.negated() } else { r };
        lemma_negated(r);
        if negative {
            lemma_basic_div(0, part as int);
            assert(count == 0);
            assert(0 * u == 0) by (nonlinear_arith);
        }
        assert(whole.value() == signed(negative, count * unit() as nat));
        lemma_kept(negative, count, 0, whole);
        if up {
            assert(2 * v + u == (q + 1) * (2 * u) + (2 * rest - u)) by (nonlinear_arith)
                requires
                    v == q * u + rest,
            ;
            lemma_fundamental_div_mod_converse(2 * v + u, 2 * u, (q + 1) as int, 2 * rest - u);
        } else {
            assert(2 * v + u == q * (2 * u) + (2 * rest + u)) by (nonlinear_arith)
                requires
                    v == q * u + rest,
            ;
            lemma_fundamental_div_mod_converse(2 * v + u, 2 * u, q as int, 2 * rest + u);
        }
    }
}

/// Rounding to an integer does not pass over integers.
pub proof fn lemma_round_between(x: Single, low: nat, high: nat) -> (n: nat)
    requires
        x.is_finite(),
        low * unit() <= x.value() <= high * unit(),
    ensures
        x.round().is_finite(),
        x.round().value() == n * unit(),
        low <= n <= high,
{
    lemma_unit_positive();
    let u = unit();
    let v = x.value();
    assert(v >= 0) by (nonlinear_arith)
        requires
            low * u <= v,
            u > 0,
    ;
    lemma_round(x);
    let n = (2 * v + u) / (2 * u);
    lemma_fundamental_div_mod(2 * v + u, 2 * u);
    assert(low <= n <= high) by (nonlinear_arith)
        requires
            2 * v + u == (2 * u) * n + (2 * v + u) % (2 * u),
            0 <= (2 * v + u) % (2 * u) < 2 * u,
            low * u <= v <= high * u,
            u > 0,
    ;
    n as nat
}

/// Sums do not depend on the order of the terms.
pub proof fn law_add_commutes(x: Single, y: Single)
    ensures
        x + y == y + x,
{
    reveal(Single::spec_add);
    super::order::lemma_sum_commutes(Format::Single, x.bits as int, y.bits as int);
}

/// Products do not depend on the order of the factors.
pub proof fn law_mul_commutes(x: Single, y: Single)
    ensures
        x * y == y * x,
{
    reveal(Single::spec_mul);
    super::order::lemma_product_commutes(Format::Single, x.bits as int, y.bits as int);
}

/// Every number of the 32-bit format comes back from the 64-bit format as it was.
pub proof fn law_narrow_undoes_widen(x: Single)
    requires
        !x.is_nan(),
    ensures
        x.widen().narrow() == x,
{
    reveal(Single::widen_spec);
    reveal(super::double::Double::narrow_spec);
    reveal(Single::is_nan_spec);
    let (s, d) = (Format::Single, Format::Double);
    if x.is_finite() {
        let (negative, m, e) = lemma_parts(s, x.bits as int);
        let r = super::order::lemma_representable(d, m, e);
        super::order::lemma_representable_kept(d, negative, m, e, r);
        let w = x.widen();
        assert(w.bits == d.signed_zero(negative) + r);
        lemma_sign_bit(d, r);
        let (wn, wm, we) = lemma_parts(d, w.bits as int);
        assert(wn == negative);
        // The wide number is the same number, written with another exponent.
        let mx = if negative { x.bits - s.sign() } else { x.bits as int };
        lemma_sign_bit(s, mx);
        let (a, b) = (pow2((e + 1074) as nat) as int, pow2((we + 1074) as nat) as int);
        assert(m * a == wm * b);
        lemma_narrowed_back(m, e, wm, we, mx, negative);
    }
}

/// Rounding to the 32-bit format does not depend on how the number is written.
proof fn lemma_narrowed_back(m: nat, e: int, wm: nat, we: int, r: int, negative: bool)
    requires
        0 <= r < 0x7f80_0000,
        e >= -149,
        we >= -1074,
        units(Format::Single, r) == m * pow2((e + 149) as nat),
        m * pow2((e + 1074) as nat) == wm * pow2((we + 1074) as nat),
    ensures
        rounded(Format::Single, negative, wm, 1, we) == Format::Single.signed_zero(negative) + r,
{
    let f = Format::Single;
    let u = units(f, r);
    let n = wm * power(we + 149);
    let d = 1nat * power(-149 - we);
    lemma_power_pos(we + 149);
    lemma_power_pos(-149 - we);
    lemma2_to64();
    lemma_pow2_adds((e + 149) as nat, 925);
    lemma_pow2_pos(925);
    let (a, b) = (pow2((e + 149) as nat) as int, pow2((we + 1074) as nat) as int);
    let k = pow2(925) as int;
    assert(u * k == wm * b) by (nonlinear_arith)
        requires
            u == m * a,
            m * (a * k) == wm * b,
    ;
    if we >= -149 {
        lemma_pow2_adds((we + 149) as nat, 925);
        let c = pow2((we + 149) as nat) as int;
        assert(u == wm * c) by (nonlinear_arith)
            requires
                u * k == wm * (c * k),
                k > 0,
        ;
        assert(n == u * d);
    } else {
        lemma_pow2_adds((we + 1074) as nat, (-149 - we) as nat);
        let c = pow2((-149 - we) as nat) as int;
        lemma_pow2_pos((we + 1074) as nat);
        assert(u * c == wm) by (nonlinear_arith)
            requires
                u * (b * c) == wm * b,
                b > 0,
        ;
        assert(n == wm);
        assert(d == c);
    }
    super::order::lemma_rounded_magnitude_order(f, wm, 1, we, r);
}

/// A number with 24 bits behind the point, between minus one and one.
proof fn lemma_on_grid(k: int) -> (r: Single)
    requires
        -0x100_0000 <= k <= 0x100_0000,
    ensures
        r.is_finite(),
        r.value() == k * pow2(125),
    decreases if k < 0 { 1nat } else { 0nat },
{
    if k < 0 {
        let r = lemma_on_grid(-k);
        lemma_negated(r);
        assert(-((-k) * pow2(125)) == k * pow2(125)) by (nonlinear_arith);
        r.negated()
    } else if k == 0x100_0000 {
        lemma_pow2_unfold(126);
        lemma_scaled(0x80_0000, -23)
    } else {
        lemma_scaled(k as nat, -24)
    }
}

/// Around every exact value between minus one and one there are two numbers that are no further
/// apart than one part in 2^24.
pub proof fn lemma_around(d: int) -> (r: (Single, Single))
    requires
        -unit() <= d <= unit(),
    ensures
        r.0.is_finite(),
        r.1.is_finite(),
        r.0.value() <= d <= r.1.value(),
        0x100_0000 * (r.1.value() - r.0.value()) <= unit(),
{
    let q = pow2(125) as int;
    lemma_pow2_pos(125);
    lemma2_to64();
    lemma_pow2_adds(125, 24);
    assert(unit() == q * 0x100_0000);
    let k = d / q;
    lemma_fundamental_div_mod(d, q);
    let rest = d % q;
    assert(-0x100_0000 <= k <= 0x100_0000 && (k == 0x100_0000 ==> rest == 0)) by (nonlinear_arith)
        requires
            d == q * k + rest,
            0 <= rest < q,
            -(q * 0x100_0000) <= d <= q * 0x100_0000,
            q > 0,
    ;
    assert(k * q == q * k) by (nonlinear_arith);
    let low = lemma_on_grid(k);
    if rest == 0 {
        (low, low)
    } else {
        assert((k + 1) * q == k * q + q) by (nonlinear_arith);
        (low, lemma_on_grid(k + 1))
    }
}

/// A number of whole parts of 2^24, between minus one and one.
pub proof fn lemma_part(k: int) -> (r: Single)
    requires
        -0x100_0000 <= k <= 0x100_0000,
    ensures
        r.is_finite(),
        r.value() * 0x100_0000 == k * unit(),
{
    let r = lemma_on_grid(k);
    let q = pow2(125) as int;
    lemma2_to64();
    lemma_pow2_adds(125, 24);
    assert((k * q) * 0x100_0000 == k * (q * 0x100_0000)) by (nonlinear_arith);
    r
}

/// A number of whole parts of 2^23, from zero to two.
pub proof fn lemma_even_part(k: int) -> (r: Single)
    requires
        0 <= k <= 0x100_0000,
    ensures
        r.is_finite(),
        0x80_0000 * r.value() == k * unit(),
{
    let q = pow2(126) as int;
    lemma2_to64();
    lemma_pow2_adds(126, 23);
    lemma_pow2_unfold(127);
    assert((k * q) * 0x80_0000 == k * (q * 0x80_0000)) by (nonlinear_arith);
    if k == 0x100_0000 {
        lemma_scaled(0x80_0000, -22)
    } else {
        lemma_scaled(k as nat, -23)
    }
}

/// Whether two numbers are the same, the sign of a zero aside.
pub open spec fn alike(x: Single, y: Single) -> bool {
    x == y || (x.is_finite() && y.is_finite() && x.value() == 0 && y.value() == 0)
}

/// A finite number of no value is a zero.
pub proof fn lemma_zero_bits(x: Single)
    requires
        x.is_finite(),
        x.value() == 0,
    ensures
        x.bits == 0 || x.bits == 0x8000_0000,
{
    lemma_zero(Format::Single);
    if x.bits >= 0x8000_0000 {
        lemma_same(x, num(0x8000_0000));
    } else {
        lemma_same(x, num(0));
    }
}

/// Sums of numbers that are alike are alike.
pub proof fn lemma_alike_add(x: Single, y: Single, z: Single, w: Single)
    requires
        alike(x, z),
        alike(y, w),
    ensures
        alike(x + y, z + w),
{
    lemma_alike_term(x, z, y);
    lemma_alike_term(y, w, z);
    law_add_commutes(y, z);
    law_add_commutes(w, z);
}

proof fn lemma_alike_term(x: Single, z: Single, y: Single)
    requires
        alike(x, z),
    ensures
        alike(x + y, z + y),
{
    if x != z {
        lemma_zero_bits(x);
        lemma_zero_bits(z);
        lemma_zero(Format::Single);
        reveal(Single::spec_add);
    }
}

/// Products of numbers that are alike are alike.
pub proof fn lemma_alike_mul(x: Single, y: Single, z: Single, w: Single)
    requires
        alike(x, z),
        alike(y, w),
    ensures
        alike(x * y, z * w),
{
    lemma_alike_factor(x, z, y);
    lemma_alike_factor(y, w, z);
    law_mul_commutes(y, z);
    law_mul_commutes(w, z);
}

proof fn lemma_alike_factor(x: Single, z: Single, y: Single)
    requires
        alike(x, z),
    ensures
        alike(x * y, z * y),
{
    if x != z {
        lemma_zero_bits(x);
        lemma_zero_bits(z);
        lemma_zero(Format::Single);
        reveal(Single::spec_mul);
        assert forall|m: nat| #[trigger] (0 * m) == 0 by {}
    }
}

/// Differences of numbers that are alike are alike.
pub proof fn lemma_alike_sub(x: Single, y: Single, z: Single, w: Single)
    requires
        alike(x, z),
        alike(y, w),
    ensures
        alike(x - y, z - w),
{
    if y != w {
        lemma_negated(y);
        lemma_negated(w);
    }
    lemma_alike_add(x, y.negated(), z, w.negated());
}

/// Around every exact value that is no further from zero than a number there are two numbers that
/// are no further apart than the value's part in 2^23.
pub proof fn lemma_bracket(d: int, top: Single) -> (r: (Single, Single))
    requires
        top.is_finite(),
        -top.value() <= d <= top.value(),
    ensures
        r.0.is_finite(),
        r.1.is_finite(),
        r.0.value() <= d <= r.1.value(),
        0x80_0000 * (r.1.value() - r.0.value()) <= d || 0x80_0000 * (r.1.value() - r.0.value())
            <= -d,
        d >= 0 ==> r.0.value() >= 0,
        d <= 0 ==> r.1.value() <= 0,
        d >= 0 ==> r.1.bits <= r.0.bits + 1 && r.0.bits < 0x7f80_0000,
    decreases if d < 0 { 1nat } else { 0nat },
{
    let f = Format::Single;
    if d < 0 {
        let (low, high) = lemma_bracket(-d, top);
        lemma_negated(low);
        lemma_negated(high);
        (high.negated(), low.negated())
    } else {
        let (negative, _, _) = lemma_parts(f, top.bits as int);
        let magnitude = if negative { top.bits - f.sign() } else { top.bits as int };
        lemma_sign_bit(f, magnitude);
        let bits = rounded_magnitude(f, d as nat, 1, -149);
        assert(power(0) == 1) by {
            lemma2_to64();
        }
        lemma_rounded_magnitude_order(f, d as nat, 1, -149, magnitude);
        assert(0 <= bits <= magnitude);
        let r = num(bits as u32);
        let (m, e) = lemma_fields(f, bits);
        lemma_pow2_pos(e);
        if r.value() == d {
            (r, r)
        } else if r.value() < d {
            if bits == magnitude {
                assert(false);
            }
            lemma_next(f, bits);
            lemma_rounded_magnitude_order(f, d as nat, 1, -149, bits + 1);
            lemma_fields(f, bits + 1);
            lemma_gap_part(m, e, r.value(), d);
            (r, num((bits + 1) as u32))
        } else {
            if bits == 0 {
                lemma_zero(f);
                assert(false);
            }
            let (m, e) = lemma_fields(f, bits - 1);
            lemma_next(f, bits - 1);
            lemma_rounded_magnitude_order(f, d as nat, 1, -149, bits - 1);
            lemma_gap_part(m, e, num((bits - 1) as u32).value(), d);
            (num((bits - 1) as u32), r)
        }
    }
}

/// The distance to the next number is a part in 2^23, but for the least ones, where it is 1.
proof fn lemma_gap_part(m: nat, e: nat, low: int, d: int)
    requires
        e > 0 ==> m >= 0x80_0000,
        low == m * pow2(e),
        low < d,
        d <= low + pow2(e),
        e == 0 ==> d < low + pow2(e),
    ensures
        0x80_0000 * pow2(e) <= d,
{
    lemma2_to64();
    let p = pow2(e) as int;
    if e > 0 {
        assert(0x80_0000 * p <= m * p) by (nonlinear_arith)
            requires
                m >= 0x80_0000,
                p >= 0,
        ;
    }
}

/// How far a number of units is from zero.
pub open spec fn size(x: int) -> int {
    if x < 0 { -x } else { x }
}

/// A sum is off by no more than its part in 2^23.
pub proof fn lemma_add_error(x: Single, y: Single, top: Single)
    requires
        x.is_finite(),
        y.is_finite(),
        top.is_finite(),
        size(x.value() + y.value()) <= top.value(),
    ensures
        (x + y).is_finite(),
        0x80_0000 * size((x + y).value() - (x.value() + y.value())) <= size(
            x.value() + y.value(),
        ),
{
    let (low, high) = lemma_bracket(x.value() + y.value(), top);
    lemma_add(x, y, low, high);
}

/// A difference is off by no more than its part in 2^23.
pub proof fn lemma_sub_error(x: Single, y: Single, top: Single)
    requires
        x.is_finite(),
        y.is_finite(),
        top.is_finite(),
        size(x.value() - y.value()) <= top.value(),
    ensures
        (x - y).is_finite(),
        0x80_0000 * size((x - y).value() - (x.value() - y.value())) <= size(
            x.value() - y.value(),
        ),
{
    let (low, high) = lemma_bracket(x.value() - y.value(), top);
    lemma_sub(x, y, low, high);
}

/// A product is off by no more than its part in 2^23 and a little more than the least number.
pub proof fn lemma_mul_error(x: Single, y: Single, top: Single)
    requires
        x.is_finite(),
        y.is_finite(),
        top.is_finite(),
        size(x.value() * y.value()) <= top.value() * unit(),
    ensures
        (x * y).is_finite(),
        0x80_0000 * size((x * y).value() * unit() - x.value() * y.value()) <= size(
            x.value() * y.value(),
        ) + 0x80_0002 * unit(),
{
    lemma_unit_positive();
    let (p, u, v) = (x.value() * y.value(), unit(), top.value());
    let d = p / u;
    let rest = p % u;
    lemma_fundamental_div_mod(p, u);
    let up = if rest == 0 { d } else { d + 1 };
    assert(-v <= d <= v && -v <= up <= v && d * u <= p <= up * u && size(d * u) <= size(p) + u
        && size(up * u) <= size(p) + u && p - d * u < u && up * u - p < u) by (nonlinear_arith)
        requires
            p == u * d + rest,
            0 <= rest < u,
            up == (if rest == 0 { d } else { d + 1 }),
            size(p) <= v * u,
            u > 0,
    ;
    let (low, _) = lemma_bracket(d, top);
    let (_, high) = lemma_bracket(up, top);
    let (l, h) = (low.value(), high.value());
    assert(l * u <= d * u && up * u <= h * u) by (nonlinear_arith)
        requires
            l <= d,
            up <= h,
            u > 0,
    ;
    lemma_mul(x, y, low, high);
    let r = (x * y).value();
    assert(0x80_0000 * (d * u - l * u) <= size(d * u)) by (nonlinear_arith)
        requires
            0x80_0000 * (d - l) <= size(d),
            u > 0,
    ;
    assert(0x80_0000 * (h * u - up * u) <= size(up * u)) by (nonlinear_arith)
        requires
            0x80_0000 * (h - up) <= size(up),
            u > 0,
    ;
    assert(l * u <= r * u <= h * u) by (nonlinear_arith)
        requires
            l <= r <= h,
            u > 0,
    ;
}

/// Turning a sign round twice changes nothing.
pub proof fn lemma_twice_negated(x: Single)
    ensures
        x.negated().negated() == x,
{
    reveal(Single::negated_spec);
}

/// With one factor turned round a product is turned round.
pub proof fn lemma_opposite_mul(x: Single, y: Single)
    requires
        x.is_finite(),
        y.is_finite(),
    ensures
        x.negated() * y == (x * y).negated(),
        x * y.negated() == (x * y).negated(),
{
    reveal(Single::negated_spec);
    reveal(Single::spec_mul);
    let f = Format::Single;
    let (nx, mx, ex) = lemma_parts(f, x.bits as int);
    let (ny, my, ey) = lemma_parts(f, y.bits as int);
    lemma_negated(x);
    lemma_negated(y);
    lemma_parts(f, x.negated().bits as int);
    lemma_parts(f, y.negated().bits as int);
    lemma_rounded_at_most_infinity(f, mx * my, 1, ex + ey);
}

/// With both terms turned round a sum is turned round.
pub proof fn lemma_opposite_add(x: Single, y: Single)
    requires
        x.is_finite(),
        y.is_finite(),
    ensures
        alike(x.negated() + y.negated(), (x + y).negated()),
        (x + y).value() != 0 ==> x.negated() + y.negated() == (x + y).negated(),
{
    reveal(Single::negated_spec);
    reveal(Single::spec_add);
    let f = Format::Single;
    lemma_zero(f);
    let (nx, mx, ex) = lemma_parts(f, x.bits as int);
    let (ny, my, ey) = lemma_parts(f, y.bits as int);
    lemma_negated(x);
    lemma_negated(y);
    lemma_parts(f, x.negated().bits as int);
    lemma_parts(f, y.negated().bits as int);
    let e = least(ex, ey);
    let (p, q) = (power(ex - e) as int, power(ey - e) as int);
    assert((-mx) * p == -(mx * p) && (-my) * q == -(my * q)) by (nonlinear_arith);
    let exact = signed(nx, mx) * power(ex - e) + signed(ny, my) * power(ey - e);
    lemma_rounded_at_most_infinity(f, magnitude_of(exact), 1, e);
}

/// Numbers that are alike are the same without their signs.
pub proof fn lemma_alike_abs(x: Single, y: Single)
    requires
        alike(x, y) || alike(x, y.negated()),
    ensures
        x.abs() == y.abs(),
{
    reveal(Single::abs_spec);
    reveal(Single::negated_spec);
    if x != y && x != y.negated() {
        lemma_zero_bits(x);
        if alike(x, y) {
            lemma_zero_bits(y);
        } else {
            lemma_zero_bits(y.negated());
        }
    }
}

/// A sum of two opposite numbers is the positive zero.
pub proof fn lemma_cancelled(x: Single, y: Single)
    requires
        x.is_finite(),
        y.is_finite(),
        y.value() != 0,
        x.value() == -y.value(),
    ensures
        x + y == num(0),
{
    lemma_negated(y);
    lemma_same(x, y.negated());
    reveal(Single::negated_spec);
    reveal(Single::spec_add);
    let f = Format::Single;
    let (nx, mx, ex) = lemma_parts(f, x.bits as int);
    let (ny, my, ey) = lemma_parts(f, y.bits as int);
    let p = power(0) as int;
    assert((-mx) * p == -(mx * p)) by (nonlinear_arith);
}

proof fn lemma_rounded_at_most_infinity(format: Format, n: nat, d: nat, e: int)
    ensures
        rounded_magnitude(format, n, d, e) <= format.infinity(),
{
}


/// A finite number stays finite where no more than 2^65 is added.
pub proof fn lemma_shifted(x: Single, y: Single)
    requires
        x.is_finite(),
        y.is_finite(),
        size(y.value()) <= pow2(214),
    ensures
        (x + y).is_finite(),
    decreases if x.value() + y.value() < 0 { 1nat } else { 0nat },
{
    let f = Format::Single;
    if x.value() + y.value() < 0 {
        lemma_negated(x);
        lemma_negated(y);
        lemma_shifted(x.negated(), y.negated());
        lemma_opposite_add(x, y);
        lemma_negated((x + y).negated());
        lemma_twice_negated(x + y);
    } else {
        let top = 0x7f7f_ffff;
        let (negative, _, _) = lemma_parts(f, x.bits as int);
        let m = if negative { x.bits - f.sign() } else { x.bits as int };
        lemma_sign_bit(f, m);
        lemma_bits_order(f, m, top);
        assert(gap(f, top) == pow2(253));
        lemma_pow2_strictly_increases(215, 253);
        lemma_pow2_unfold(215);
        reveal(Single::spec_add);
        lemma_sum_below(f, x.bits as int, y.bits as int, top);
    }
}


/// A quotient by a positive number is off by no more than its part in 2^23 and a little more than
/// the least number.
pub proof fn lemma_div_error(x: Single, y: Single, top: Single)
    requires
        x.is_finite(),
        y.is_finite(),
        top.is_finite(),
        y.value() > 0,
        size(x.value() * unit()) <= top.value() * y.value(),
    ensures
        (x / y).is_finite(),
        0x80_0000 * size((x / y).value() * y.value() - x.value() * unit()) <= size(
            x.value() * unit(),
        ) + 0x80_0002 * y.value(),
{
    lemma_unit_positive();
    let (p, u, v) = (x.value() * unit(), y.value(), top.value());
    let d = p / u;
    let rest = p % u;
    lemma_fundamental_div_mod(p, u);
    let up = if rest == 0 { d } else { d + 1 };
    assert(-v <= d <= v && -v <= up <= v && d * u <= p <= up * u && size(d * u) <= size(p) + u
        && size(up * u) <= size(p) + u && p - d * u < u && up * u - p < u) by (nonlinear_arith)
        requires
            p == u * d + rest,
            0 <= rest < u,
            up == (if rest == 0 { d } else { d + 1 }),
            size(p) <= v * u,
            u > 0,
    ;
    let (low, _) = lemma_bracket(d, top);
    let (_, high) = lemma_bracket(up, top);
    let (l, h) = (low.value(), high.value());
    assert(l * u <= d * u && up * u <= h * u) by (nonlinear_arith)
        requires
            l <= d,
            up <= h,
            u > 0,
    ;
    lemma_div(x, y, low, high);
    let r = (x / y).value();
    assert(0x80_0000 * (d * u - l * u) <= size(d * u)) by (nonlinear_arith)
        requires
            0x80_0000 * (d - l) <= size(d),
            u > 0,
    ;
    assert(0x80_0000 * (h * u - up * u) <= size(up * u)) by (nonlinear_arith)
        requires
            0x80_0000 * (h - up) <= size(up),
            u > 0,
    ;
    assert(l * u <= r * u <= h * u) by (nonlinear_arith)
        requires
            l <= r <= h,
            u > 0,
    ;
}

} // verus!
