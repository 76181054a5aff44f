//! What a square root squares to.
use super::encoding::{
    floor_log2, integer_root, is_integer_root, power, reaches_power, root_shift, square_root,
    Format,
};
use super::facts::size;
use super::order::{finite, lemma_fields, lemma_log_exists, lemma_parts, one, units};
use super::rounding::lemma_power_monotone;
use vstd::arithmetic::power2::{
    lemma2_to64, lemma2_to64_rest, lemma_pow2_adds, lemma_pow2_pos, lemma_pow2_unfold, pow2,
};
use vstd::prelude::*;

verus! {

/// Every number has an integer root.
proof fn lemma_root_exists(n: nat) -> (r: nat)
    ensures
        is_integer_root(n, r),
    decreases n,
{
    if n == 0 {
        assert(is_integer_root(0, 0)) by (nonlinear_arith);
        0
    } else {
        let s = lemma_root_exists((n - 1) as nat);
        let t = s + 1;
        assert(t * t < (t + 1) * (t + 1)) by (nonlinear_arith);
        assert(s * s <= n - 1 < t * t);
        if n < t * t {
            assert(is_integer_root(n, s));
            s
        } else {
            assert(is_integer_root(n, t));
            t
        }
    }
}

/// The root of a scaled mantissa, rounded, squares to nearly that mantissa.
proof fn lemma_count(h: int, scaled: nat) -> (count: nat)
    requires
        h > 0,
        h * h <= scaled < (2 * h) * (2 * h),
    ensures
        count == ({
            let root = integer_root(scaled);
            if scaled > root * root + root { root + 1 } else { root }
        }),
        h <= count <= 2 * h,
        h * size(count * count - scaled) <= scaled,
{
    let witness = lemma_root_exists(scaled);
    let root = integer_root(scaled);
    assert(is_integer_root(scaled, root));
    let n = scaled as int;
    let r = root as int;
    assert(h <= r < 2 * h) by (nonlinear_arith)
        requires
            r * r <= n < (r + 1) * (r + 1),
            h * h <= n < (2 * h) * (2 * h),
            r >= 0,
            h > 0,
    ;
    let count = if scaled > root * root + root { root + 1 } else { root };
    let c = count as int;
    assert((r + 1) * (r + 1) == r * r + 2 * r + 1) by (nonlinear_arith);
    assert(size(c * c - n) <= r);
    assert(h * size(c * c - n) <= h * r && h * r <= r * r) by (nonlinear_arith)
        requires
            size(c * c - n) <= r,
            h <= r,
            h > 0,
    ;
    count
}

/// The square of a root is off by no more than its part in 2 to the number of fraction bits.
pub proof fn lemma_root_units(format: Format, a: int)
    requires
        finite(format, a),
        units(format, a) >= 0,
    ensures
        finite(format, square_root(format, a)),
        units(format, square_root(format, a)) >= 0,
        units(format, a) > 0 ==> units(format, square_root(format, a)) > 0,
        format.hidden() * size(
            units(format, square_root(format, a)) * units(format, square_root(format, a)) - units(
                format,
                a,
            ) * one(format),
        ) <= units(format, a) * one(format),
{
    let (negative, m, e) = lemma_parts(format, a);
    let low = format.least_exponent();
    let v = units(format, a);
    let p = pow2((e - low) as nat) as int;
    lemma_pow2_pos((e - low) as nat);
    if m == 0 {
        assert(v == 0) by (nonlinear_arith)
            requires
                v == (if negative { -(m * p) } else { m * p }),
                m == 0,
        ;
        let o = one(format) as int;
        assert(0 * o == 0 && v * v == 0 && v * o == 0) by (nonlinear_arith)
            requires
                v == 0,
        ;
    } else {
        assert(!negative && v > 0) by (nonlinear_arith)
            requires
                v == (if negative { -(m * p) } else { m * p }),
                m > 0,
                p > 0,
                v >= 0,
        ;
        lemma_root_positive(format, a, m, e);
    }
}

/// The case of a positive number.
proof fn lemma_root_positive(format: Format, a: int, m: nat, e: int)
    requires
        finite(format, a),
        m > 0,
        m < 2 * format.hidden(),
        format.least_exponent() <= e <= format.greatest_exponent(),
        e > format.least_exponent() ==> m >= format.hidden(),
        format.decode(a) == (super::encoding::Number::Finite {
            negative: false,
            mantissa: m,
            exponent: e,
        }),
    ensures
        finite(format, square_root(format, a)),
        units(format, square_root(format, a)) > 0,
        format.hidden() * size(
            units(format, square_root(format, a)) * units(format, square_root(format, a)) - units(
                format,
                a,
            ) * one(format),
        ) <= units(format, a) * one(format),
{
    let low = format.least_exponent();
    let (h, fb) = (format.hidden(), format.fraction_bits());
    let l = floor_log2(m, 1);
    lemma2_to64();
    lemma2_to64_rest();
    lemma_log_exists(m, 1);
    assert(h == power(fb) && 2 * h == power(fb + 1));
    if l < 0 {
        assert(power(l + 1) == 1);
        assert(!reaches_power(m, 1, l + 1));
        assert(1 * power(l + 1) > m * power(-(l + 1)));
        lemma_pow2_pos((-(l + 1)) as nat);
        assert(m * power(-(l + 1)) >= 1) by (nonlinear_arith)
            requires
                m >= 1,
                power(-(l + 1)) >= 1,
        ;
    }
    assert(0 <= l);
    assert(power(-l) == 1 && power(-(l + 1)) == 1);
    assert(power(l) <= m < power(l + 1));
    if l > fb {
        lemma_power_monotone(fb + 1, l);
    }
    if l < fb {
        lemma_power_monotone(l + 1, fb);
    }
    assert(l <= fb && (l < fb ==> e == low));
    let shift = root_shift(format, m, e);
    let full = 2 * fb - l;
    assert(shift == full || shift == full + 1);
    assert((e - shift) % 2 == 0);
    let scaled = m * power(shift);
    let w = power(shift) as int;
    lemma_pow2_pos(shift as nat);
    lemma_pow2_adds(l as nat, shift as nat);
    lemma_pow2_adds((l + 1) as nat, shift as nat);
    lemma_power_monotone(2 * fb, l + shift);
    lemma_power_monotone(l + 1 + shift, 2 * fb + 2);
    let (pl, pn) = (pow2(l as nat) as int, pow2((l + 1) as nat) as int);
    assert(pl * w <= m * w < pn * w) by (nonlinear_arith)
        requires
            pl <= m < pn,
            w > 0,
    ;
    assert(h * h == power(2 * fb) && (2 * h) * (2 * h) == power(2 * fb + 2)) by {
        match format {
            Format::Single => {
                assert(power(46) == 0x80_0000 * 0x80_0000);
                assert(power(48) == 0x100_0000 * 0x100_0000);
            },
            Format::Double => {
                lemma_pow2_adds(52, 52);
                lemma_pow2_adds(53, 53);
                assert(power(104) == pow2(104) && power(106) == pow2(106));
            },
        }
    }
    let count = lemma_count(h, scaled);
    let k = (e - shift) / 2 - low;
    assert(e - shift == 2 * (k + low));
    let bits = k * h + count;
    assert(k >= 0 && bits < format.infinity()) by {
        match format {
            Format::Single => {},
            Format::Double => {},
        }
    }
    assert(square_root(format, a) == bits);
    assert(0 <= bits) by (nonlinear_arith)
        requires
            bits == k * h + count,
            k >= 0,
            h > 0,
    ;
    let (fm, fe) = lemma_fields(format, bits);
    let c = count as int;
    let x = pow2(k as nat) as int;
    lemma_pow2_pos(k as nat);
    let r = units(format, bits);
    assert(r == c * x) by {
        if c < 2 * h {
            assert(fe == k && fm == c) by (nonlinear_arith)
                requires
                    fe * h + fm == k * h + c,
                    0 <= fm < 2 * h,
                    fe > 0 ==> fm >= h,
                    h <= c < 2 * h,
                    k >= 0,
                    fe >= 0,
                    h > 0,
            ;
        } else {
            assert(fe == k + 1 && fm == h) by (nonlinear_arith)
                requires
                    fe * h + fm == k * h + 2 * h,
                    0 <= fm < 2 * h,
                    fe > 0 ==> fm >= h,
                    k >= 0,
                    fe >= 0,
                    h > 0,
            ;
            lemma_pow2_unfold((k + 1) as nat);
            assert(h * (2 * x) == (2 * h) * x) by (nonlinear_arith);
        }
    }
    let xx = x * x;
    lemma_pow2_adds(k as nat, k as nat);
    lemma_pow2_adds(shift as nat, (2 * k) as nat);
    lemma_pow2_adds((e - low) as nat, (-low) as nat);
    assert(shift + 2 * k == e - 2 * low);
    let (p, o) = (pow2((e - low) as nat) as int, one(format) as int);
    assert((m * p) * o == (m * w) * xx) by (nonlinear_arith)
        requires
            p * o == w * xx,
    ;
    let n = scaled as int;
    assert(r * r == (c * c) * xx) by (nonlinear_arith)
        requires
            r == c * x,
            xx == x * x,
    ;
    let d = c * c - n;
    assert(xx > 0 && r > 0) by (nonlinear_arith)
        requires
            xx == x * x,
            r == c * x,
            x > 0,
            c > 0,
    ;
    assert((c * c) * xx - n * xx == d * xx) by (nonlinear_arith)
        requires
            d == c * c - n,
    ;
    assert(h * size(d * xx) <= n * xx) by (nonlinear_arith)
        requires
            h * size(d) <= n,
            xx > 0,
            h > 0,
    ;
}

} // verus!
