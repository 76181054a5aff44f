//! How far the results of the operations on `Double` are from the exact ones.
use super::double::{wide, Double};
use super::encoding::{power, rounded_magnitude, signed, Format};
use super::facts::{lemma_bracket, size};
use super::order::{
    finite, lemma_fields, lemma_next, lemma_one, lemma_parts, lemma_product_between,
    lemma_quotient_between, lemma_representable, lemma_representable_kept, lemma_rounded_between,
    lemma_rounded_magnitude_order, lemma_sign_bit, lemma_sum_between, lemma_zero, one, units,
};
use super::single::Single;
use vstd::arithmetic::div_mod::lemma_fundamental_div_mod;
use vstd::arithmetic::power2::{
    lemma2_to64, lemma2_to64_rest, lemma_pow2_adds, lemma_pow2_pos, pow2,
};
use vstd::prelude::*;

verus! {

impl Double {
    /// Neither infinite nor not a number.
    pub open spec fn is_finite(self) -> bool {
        finite(Format::Double, self.bits as int)
    }

    /// The number in units of the least positive one.
    pub open spec fn value(self) -> int {
        units(Format::Double, self.bits as int)
    }
}

/// One, in units of the least positive number.
pub open spec fn wide_unit() -> int {
    one(Format::Double) as int
}

/// The other sign.
pub proof fn lemma_wide_negated(x: Double)
    requires
        x.is_finite(),
    ensures
        x.negated().is_finite(),
        x.negated().value() == -x.value(),
{
    reveal(Double::negated_spec);
    let f = Format::Double;
    let (nx, _, _) = lemma_parts(f, x.bits as int);
    let mx = if nx { x.bits - f.sign() } else { x.bits as int };
    lemma_sign_bit(f, mx);
}

/// The numbers that the filters use.
pub proof fn lemma_wide_constants()
    ensures
        wide_unit() == pow2(1074),
        wide_unit() >= 0x8000_0000_0000_0000_0000_0000_0000_0000,
        wide(0).is_finite(),
        wide(0).value() == 0,
        wide(0x3ff0_0000_0000_0000).is_finite(),
        wide(0x3ff0_0000_0000_0000).value() == wide_unit(),
        wide(0xbff0_0000_0000_0000).is_finite(),
        wide(0xbff0_0000_0000_0000).value() == -wide_unit(),
{
    let f = Format::Double;
    lemma_zero(f);
    lemma_one(f);
    lemma_sign_bit(f, 0x3ff0_0000_0000_0000);
    lemma2_to64();
    lemma2_to64_rest();
    lemma_pow2_adds(63, 64);
    lemma_pow2_adds(127, 947);
    lemma_pow2_pos(947);
    let (a, b) = (pow2(127) as int, pow2(947) as int);
    assert(a * b >= a) by (nonlinear_arith)
        requires
            a > 0,
            b >= 1,
    ;
    assert(pow2(63) * pow2(64) == 0x8000_0000_0000_0000_0000_0000_0000_0000) by {
        assert(0x8000_0000_0000_0000 * 0x1_0000_0000_0000_0000
            == 0x8000_0000_0000_0000_0000_0000_0000_0000int);
    }
}

/// A number that is larger than anything the filters meet.
pub proof fn lemma_wide_top() -> (top: Double)
    ensures
        top.is_finite(),
        top.value() == pow2(200) * wide_unit(),
{
    let f = Format::Double;
    let bits = lemma_representable(f, 1, 200);
    lemma_pow2_adds(200, 1074);
    wide(bits as u64)
}

/// Around every exact value that is no further from zero than a number there are two numbers that
/// are no further apart than the value's part in 2^52.
proof fn lemma_wide_bracket(d: int, top: Double) -> (r: (Double, Double))
    requires
        top.is_finite(),
        -top.value() <= d <= top.value(),
    ensures
        r.0.is_finite(),
        r.1.is_finite(),
        r.0.value() <= d <= r.1.value(),
        0x10_0000_0000_0000 * (r.1.value() - r.0.value()) <= size(d),
    decreases if d < 0 { 1nat } else { 0nat },
{
    let f = Format::Double;
    if d < 0 {
        let (low, high) = lemma_wide_bracket(-d, top);
        lemma_wide_negated(low);
        lemma_wide_negated(high);
        (high.negated(), low.negated())
    } else {
        let (negative, _, _) = lemma_parts(f, top.bits as int);
        let magnitude = if negative { top.bits - f.sign() } else { top.bits as int };
        lemma_sign_bit(f, magnitude);
        let bits = rounded_magnitude(f, d as nat, 1, -1074);
        assert(power(0) == 1) by {
            lemma2_to64();
        }
        let n = d as nat;
        assert(n * power(0) == n && 1 * power(0) == 1) by (nonlinear_arith)
            requires
                power(0) == 1,
        ;
        lemma_rounded_magnitude_order(f, n, 1, -1074, magnitude);
        assert(units(f, magnitude) == size(top.value()));
        assert(0 <= bits <= magnitude);
        let r = wide(bits as u64);
        let (m, e) = lemma_fields(f, bits);
        lemma_pow2_pos(e);
        if r.value() == d {
            (r, r)
        } else if r.value() < d {
            if bits == magnitude {
                assert(false);
            }
            lemma_next(f, bits);
            lemma_rounded_magnitude_order(f, d as nat, 1, -1074, bits + 1);
            lemma_fields(f, bits + 1);
            lemma_wide_gap(m, e, r.value(), d);
            (r, wide((bits + 1) as u64))
        } else {
            if bits == 0 {
                lemma_zero(f);
                assert(false);
            }
            let (m, e) = lemma_fields(f, bits - 1);
            lemma_next(f, bits - 1);
            lemma_rounded_magnitude_order(f, d as nat, 1, -1074, bits - 1);
            lemma_wide_gap(m, e, wide((bits - 1) as u64).value(), d);
            (wide((bits - 1) as u64), r)
        }
    }
}

/// The distance to the next number is a part in 2^52, but for the least ones, where it is 1.
proof fn lemma_wide_gap(m: nat, e: nat, low: int, d: int)
    requires
        e > 0 ==> m >= 0x10_0000_0000_0000,
        low == m * pow2(e),
        low < d,
        d <= low + pow2(e),
        e == 0 ==> d < low + pow2(e),
    ensures
        0x10_0000_0000_0000 * pow2(e) <= d,
{
    lemma2_to64();
    let p = pow2(e) as int;
    if e > 0 {
        assert(0x10_0000_0000_0000 * p <= m * p) by (nonlinear_arith)
            requires
                m >= 0x10_0000_0000_0000,
                p >= 0,
        ;
    }
}

/// A sum is off by no more than its part in 2^52.
pub proof fn lemma_wide_add(x: Double, y: Double, top: Double)
    requires
        x.is_finite(),
        y.is_finite(),
        top.is_finite(),
        size(x.value() + y.value()) <= top.value(),
    ensures
        (x + y).is_finite(),
        0x10_0000_0000_0000 * size((x + y).value() - (x.value() + y.value())) <= size(
            x.value() + y.value(),
        ),
{
    reveal(Double::spec_add);
    let (low, high) = lemma_wide_bracket(x.value() + y.value(), top);
    lemma_sum_between(
        Format::Double,
        x.bits as int,
        y.bits as int,
        low.bits as int,
        high.bits as int,
    );
}

/// A difference is off by no more than its part in 2^52.
pub proof fn lemma_wide_sub(x: Double, y: Double, top: Double)
    requires
        x.is_finite(),
        y.is_finite(),
        top.is_finite(),
        size(x.value() - y.value()) <= top.value(),
    ensures
        (x - y).is_finite(),
        0x10_0000_0000_0000 * size((x - y).value() - (x.value() - y.value())) <= size(
            x.value() - y.value(),
        ),
{
    lemma_wide_negated(y);
    lemma_wide_add(x, y.negated(), top);
}

/// A quotient of two integers is off by little from the numbers around it: `r` is one between them.
proof fn lemma_wide_around(n: int, d: int, top: Double) -> (r: (Double, Double))
    requires
        d > 0,
        top.is_finite(),
        size(n) <= top.value() * d,
    ensures
        r.0.is_finite(),
        r.1.is_finite(),
        r.0.value() * d <= n <= r.1.value() * d,
        0x10_0000_0000_0000 * (n - r.0.value() * d) <= size(n) + 0x10_0000_0000_0001 * d,
        0x10_0000_0000_0000 * (r.1.value() * d - n) <= size(n) + 0x10_0000_0000_0001 * d,
{
    let v = top.value();
    let q = n / d;
    let rest = n % d;
    lemma_fundamental_div_mod(n, d);
    let up = if rest == 0 { q } else { q + 1 };
    assert(-v <= q <= v && -v <= up <= v && q * d <= n <= up * d && size(q * d) <= size(n) + d
        && size(up * d) <= size(n) + d && n - q * d < d && up * d - n < d) by (nonlinear_arith)
        requires
            n == d * q + rest,
            0 <= rest < d,
            up == (if rest == 0 { q } else { q + 1 }),
            size(n) <= v * d,
            d > 0,
    ;
    let (low, _) = lemma_wide_bracket(q, top);
    let (_, high) = lemma_wide_bracket(up, top);
    let (l, h) = (low.value(), high.value());
    assert(l * d <= q * d && up * d <= h * d) by (nonlinear_arith)
        requires
            l <= q,
            up <= h,
            d > 0,
    ;
    assert(0x10_0000_0000_0000 * (q * d - l * d) <= size(q * d)) by (nonlinear_arith)
        requires
            0x10_0000_0000_0000 * (q - l) <= size(q),
            d > 0,
    ;
    assert(0x10_0000_0000_0000 * (h * d - up * d) <= size(up * d)) by (nonlinear_arith)
        requires
            0x10_0000_0000_0000 * (h - up) <= size(up),
            d > 0,
    ;
    (low, high)
}

/// A product is off by no more than its part in 2^52 and a little more than the least number.
pub proof fn lemma_wide_mul(x: Double, y: Double, top: Double)
    requires
        x.is_finite(),
        y.is_finite(),
        top.is_finite(),
        size(x.value() * y.value()) <= top.value() * wide_unit(),
    ensures
        (x * y).is_finite(),
        0x10_0000_0000_0000 * size((x * y).value() * wide_unit() - x.value() * y.value()) <= size(
            x.value() * y.value(),
        ) + 0x10_0000_0000_0001 * wide_unit(),
{
    reveal(Double::spec_mul);
    lemma_wide_constants();
    let u = wide_unit();
    let (low, high) = lemma_wide_around(x.value() * y.value(), u, top);
    lemma_product_between(
        Format::Double,
        x.bits as int,
        y.bits as int,
        low.bits as int,
        high.bits as int,
    );
    let (l, h, r) = (low.value(), high.value(), (x * y).value());
    assert(l * u <= r * u <= h * u) by (nonlinear_arith)
        requires
            l <= r <= h,
            u > 0,
    ;
}

/// A quotient by a positive number is off by no more than its part in 2^52 and a little more than
/// the least number.
pub proof fn lemma_wide_div(x: Double, y: Double, top: Double)
    requires
        x.is_finite(),
        y.is_finite(),
        top.is_finite(),
        y.value() > 0,
        size(x.value() * wide_unit()) <= top.value() * y.value(),
    ensures
        (x / y).is_finite(),
        0x10_0000_0000_0000 * size((x / y).value() * y.value() - x.value() * wide_unit()) <= size(
            x.value() * wide_unit(),
        ) + 0x10_0000_0000_0001 * y.value(),
{
    reveal(Double::spec_euclidean_or_real_div);
    let d = y.value();
    let (low, high) = lemma_wide_around(x.value() * wide_unit(), d, top);
    lemma_quotient_between(
        Format::Double,
        x.bits as int,
        y.bits as int,
        low.bits as int,
        high.bits as int,
    );
    let (l, h, r) = (low.value(), high.value(), (x / y).value());
    assert(l * d <= r * d <= h * d) by (nonlinear_arith)
        requires
            l <= r <= h,
            d > 0,
    ;
}


/// How many of the least 64-bit numbers make the least 32-bit one.
pub open spec fn finer() -> int {
    pow2(925) as int
}

/// A number taken over into the 64-bit format stays what it is.
pub proof fn lemma_widened(x: Single)
    requires
        x.is_finite(),
    ensures
        x.widen().is_finite(),
        x.widen().value() == x.value() * finer(),
{
    reveal(Single::widen_spec);
    let (s, d) = (Format::Single, Format::Double);
    let (negative, m, e) = lemma_parts(s, x.bits as int);
    let r = lemma_representable(d, m, e);
    lemma_representable_kept(d, negative, m, e, r);
    lemma_sign_bit(d, r);
    lemma_pow2_adds((e + 149) as nat, 925);
    let (a, k) = (pow2((e + 149) as nat) as int, finer());
    assert(m * (a * k) == (m * a) * k && (-(m * a)) * k == -((m * a) * k)) by (nonlinear_arith);
}

/// A number taken back into the 32-bit format is off by no more than its part in 2^23 and a little
/// more than the least number.
pub proof fn lemma_narrowed(x: Double, top: Single)
    requires
        x.is_finite(),
        top.is_finite(),
        size(x.value()) <= top.value() * finer(),
    ensures
        x.narrow().is_finite(),
        0x80_0000 * size(x.narrow().value() * finer() - x.value()) <= size(x.value()) + 0x80_0001
            * finer(),
{
    reveal(Double::narrow_spec);
    lemma_pow2_pos(925);
    let (n, d, v) = (x.value(), finer(), top.value());
    let q = n / d;
    let rest = n % d;
    lemma_fundamental_div_mod(n, d);
    let up = if rest == 0 { q } else { q + 1 };
    assert(-v <= q <= v && -v <= up <= v && q * d <= n <= up * d && size(q * d) <= size(n) + d
        && size(up * d) <= size(n) + d && n - q * d < d && up * d - n < d) by (nonlinear_arith)
        requires
            n == d * q + rest,
            0 <= rest < d,
            up == (if rest == 0 { q } else { q + 1 }),
            size(n) <= v * d,
            d > 0,
    ;
    let (low, _) = lemma_bracket(q, top);
    let (_, high) = lemma_bracket(up, top);
    let (l, h) = (low.value(), high.value());
    assert(l * d <= q * d && up * d <= h * d) by (nonlinear_arith)
        requires
            l <= q,
            up <= h,
            d > 0,
    ;
    assert(0x80_0000 * (q * d - l * d) <= size(q * d)) by (nonlinear_arith)
        requires
            0x80_0000 * (q - l) <= size(q),
            d > 0,
    ;
    assert(0x80_0000 * (h * d - up * d) <= size(up * d)) by (nonlinear_arith)
        requires
            0x80_0000 * (h - up) <= size(up),
            d > 0,
    ;
    lemma_narrowed_between(x, low, high);
    let r = x.narrow().value();
    assert(l * d <= r * d <= h * d) by (nonlinear_arith)
        requires
            l <= r <= h,
            d > 0,
    ;
}

/// A number between two of the 32-bit format is taken back to one between them.
proof fn lemma_narrowed_between(x: Double, low: Single, high: Single)
    requires
        x.is_finite(),
        low.is_finite(),
        high.is_finite(),
        low.value() * finer() <= x.value() <= high.value() * finer(),
    ensures
        x.narrow().is_finite(),
        low.value() <= x.narrow().value() <= high.value(),
{
    reveal(Double::narrow_spec);
    let f = Format::Single;
    let (negative, m, e) = lemma_parts(Format::Double, x.bits as int);
    let (l, h, v, k) = (low.value(), high.value(), x.value(), finer());
    let b = pow2((e + 1074) as nat) as int;
    lemma2_to64();
    lemma_pow2_pos(925);
    lemma_pow2_pos((e + 1074) as nat);
    let n = signed(negative, m * power(e + 149));
    let d = (1nat * power(-149 - e)) as int;
    if e >= -149 {
        lemma_pow2_adds((e + 149) as nat, 925);
        let c = pow2((e + 149) as nat) as int;
        assert(d == 1);
        assert(l * d <= n <= h * d) by (nonlinear_arith)
            requires
                l * k <= v <= h * k,
                v == (if negative { -(m * (c * k)) } else { m * (c * k) }),
                n == (if negative { -(m * c) } else { m * c }),
                d == 1,
                k > 0,
        ;
    } else {
        lemma_pow2_adds((e + 1074) as nat, (-149 - e) as nat);
        assert(d == pow2((-149 - e) as nat));
        assert(power(e + 149) == 1);
        assert(l * d <= n <= h * d) by (nonlinear_arith)
            requires
                l * k <= v <= h * k,
                k == b * d,
                v == (if negative { -(m * b) } else { m * b }),
                n == (if negative { -(m as int) } else { m as int }),
                b > 0,
        ;
    }
    lemma_rounded_between(f, negative, m, 1, e, low.bits as int, high.bits as int);
}

} // verus!
