//! What the second-order filters are, as real numbers: the angles they are made for, their
//! coefficients, and what they make of a sample.
use crate::{
    chorus, compressor, delay, flanger, follower, panning, parametric_eq, phaser, pingpong, ringmod,
    vibrato, wahwah,
};
use crate::biquad::{filter_angles, gain_exponent, Biquad, FilterTrig, Shape};
use crate::echoes::{law_linear, loud};
use crate::float::double::{wide, Double};
use crate::float::encoding::{least, power, signed, Format};
use crate::float::facts::{lemma_constant, lemma_constants, lemma_unit_positive, unit};
use crate::float::near::{lemma_amount, lemma_ratio, near};
use crate::float::order::{lemma_parts, lemma_sign_bit, lemma_term};
use crate::float::reals::lemma_real_product;
use crate::float::single::{num, Single};
use crate::float::wide::{finer, lemma_wide_constants, lemma_widened, wide_unit};
use crate::float::wide_near::{
    lemma_wide_amount, lemma_wide_amount_order, lemma_wide_near_add, lemma_wide_near_div,
    lemma_wide_near_mul, lemma_wide_near_self, lemma_wide_near_sub, lemma_wide_near_wider,
    lemma_wide_ratio, wide_near,
};
use crate::gains::lemma_wide_numbers;
use crate::parametric_eq::{ParametricEq, ParametricEqParams};
use crate::wahwah::{FilterType, WahWahParams};
use vstd::arithmetic::power2::{
    lemma2_to64, lemma2_to64_rest, lemma_pow2_adds, lemma_pow2_pos, pow2,
};
use vstd::prelude::*;

verus! {

/// Comparison is comparison of the numbers.
proof fn lemma_wide_less(x: Double, y: Double)
    requires
        x.is_finite(),
        y.is_finite(),
    ensures
        !x.is_nan(),
        x.lt(y) <==> x.amount() < y.amount(),
{
    reveal(Double::is_nan_spec);
    reveal(Double::lt_spec);
    let f = Format::Double;
    let (na, ma, ea) = lemma_parts(f, x.bits as int);
    let (nb, mb, eb) = lemma_parts(f, y.bits as int);
    let e = least(ea, eb);
    lemma_term(f, na, ma, ea, e);
    lemma_term(f, nb, mb, eb, e);
    let p = pow2((e - f.least_exponent()) as nat) as int;
    lemma_pow2_pos((e - f.least_exponent()) as nat);
    let a = signed(na, ma) * power(ea - e);
    let b = signed(nb, mb) * power(eb - e);
    assert(a < b <==> a * p < b * p) by (nonlinear_arith)
        requires
            p > 0,
    ;
    lemma_wide_amount_order(y, x);
}

/// The value of a number whose encoding is given, for exponents around that of one: `weight` of
/// it are as many as its fraction of ones.
proof fn lemma_wide_constant(bits: u64, weight: int, fraction: int)
    requires
        0x10_0000_0000_0000 <= bits < 0x7ff0_0000_0000_0000,
        bits / 0x10_0000_0000_0000 <= 1075,
        weight == pow2((1075 - bits / 0x10_0000_0000_0000) as nat),
        fraction == 0x10_0000_0000_0000 + bits % 0x10_0000_0000_0000,
        weight > 0,
    ensures
        wide(bits).is_finite(),
        wide(bits).amount() == fraction as real / weight as real,
{
    lemma_wide_constants();
    lemma2_to64();
    lemma2_to64_rest();
    let field = bits as int / 0x10_0000_0000_0000;
    let m = fraction;
    lemma_pow2_adds((field - 1) as nat, (1075 - field) as nat);
    lemma_pow2_pos((field - 1) as nat);
    let (a, b) = (pow2((field - 1) as nat) as int, pow2((1075 - field) as nat) as int);
    let v = wide(bits).value();
    assert(v == m * a);
    assert(v * b == m * (a * b)) by (nonlinear_arith)
        requires
            v == m * a,
    ;
    lemma_wide_ratio(wide(bits), weight, fraction);
    let (x, w, r) = (wide(bits).amount(), weight as real, fraction as real);
    assert(x == r / w) by (nonlinear_arith)
        requires
            x * w == r,
            w > 0real,
    ;
}

/// The constants of the angles.
proof fn lemma_angles()
    ensures
        ({
            let (turn, low, top) = (
                wide(0x4019_21fb_5444_2d18),
                wide(0x3eb0_c6f7_a0b5_ed8d),
                wide(0x4008_e1a4_55fb_d07c),
            );
            &&& wide_near(turn, 62831853071795864real / 10000000000000000real, 2real, 7real)
            &&& low.is_finite()
            &&& 999999999999999real <= 1000000000000000000000real * low.amount()
                <= 1000000000000001real
            &&& wide_near(top, 31101767270538954real / 10000000000000000real, 2real, 4real)
        }),
{
    lemma2_to64();
    lemma2_to64_rest();
    lemma_pow2_adds(36, 36);
    lemma_wide_constant(0x4019_21fb_5444_2d18, 0x4_0000_0000_0000, 0x19_21fb_5444_2d18);
    lemma_wide_constant(0x3eb0_c6f7_a0b5_ed8d, 0x100_0000_0000_0000_0000, 0x10_c6f7_a0b5_ed8d);
    lemma_wide_constant(0x4008_e1a4_55fb_d07c, 0x8_0000_0000_0000, 0x18_e1a4_55fb_d07c);
}

/// The centre of a filter in radians per sample: a turn times the frequency over the sample rate,
/// and no less than a millionth and no more than 0.99 times half a turn.
pub proof fn law_centre_angle(freq: Double, q: Double, rate: Double)
    requires
        freq.is_finite() && 1real / 1073741824real <= freq.amount() <= 1073741824real,
        rate.is_finite() && 1real <= rate.amount() <= 16777216real,
    ensures
        ({
            let part = freq.amount() / rate.amount();
            let w = 62831853071795864real / 10000000000000000real * part;
            let centre = filter_angles(freq, q, rate).centre;
            let (low, top) = (1real / 1000000real, 31101767270538954real / 10000000000000000real);
            &&& low + 1real / 1000000000real <= w <= top - 1real / 1000000000real ==> wide_near(
                centre,
                w,
                15real,
                7real * part,
            )
            &&& w <= low - 1real / 1000000000real ==> centre.is_finite() && -1real / 1000000000real
                <= centre.amount() - low <= 1real / 1000000000real
            &&& w >= top + 1real / 1000000000real ==> wide_near(centre, top, 2real, 4real)
        }),
{
    lemma_angles();
    let (turn, low, top) = (
        wide(0x4019_21fb_5444_2d18),
        wide(0x3eb0_c6f7_a0b5_ed8d),
        wide(0x4008_e1a4_55fb_d07c),
    );
    let (f, r) = (freq.amount(), rate.amount());
    let e = 62831853071795864real / 10000000000000000real;
    lemma_wide_near_self(freq, f);
    lemma_wide_near_self(rate, r);
    lemma_wide_near_mul(turn, e, 2real, 7real, freq, f, 0real, f);
    let sf = 7real * f;
    let part = f / r;
    assert(0real * r == 0real && sf / r == 7real * part && e * f / r == e * part)
        by (nonlinear_arith)
        requires
            sf == 7real * f,
            part == f / r,
            r >= 1real,
    ;
    assert(1real / 18014398509481984real <= part <= 1073741824real) by (nonlinear_arith)
        requires
            part == f / r,
            1real <= r <= 16777216real,
            1real / 1073741824real <= f <= 1073741824real,
    ;
    lemma_wide_near_div(turn * freq, e * f, 5real, sf, rate, r, 0real, r, r, 0real);
    let x = turn * freq / rate;
    let w = e * part;
    let p7 = 7real * part;
    assert(wide_near(x, w, 13real, p7));
    lemma_wide_near_wider(x, w, 13real, p7, 15real, p7);
    lemma_wide_less(x, low);
    lemma_wide_less(top, x);
}

/// Half of the centre and half of the bandwidth, which is the centre over the quality and no more
/// than 0.99 times half a turn.
pub proof fn law_half_angles(freq: Double, q: Double, rate: Double)
    requires
        ({
            let centre = filter_angles(freq, q, rate).centre;
            centre.is_finite() && 1real / 1048576real <= centre.amount() <= 4real
        }),
        q.is_finite() && 1real / 1024real <= q.amount() <= 1024real,
    ensures
        ({
            let angles = filter_angles(freq, q, rate);
            let c = angles.centre.amount();
            let band = c / q.amount();
            let top = 31101767270538954real / 10000000000000000real;
            &&& wide_near(angles.half_centre, c / 2real, 3real, c / 2real)
            &&& band <= top - 1real / 1000000000real ==> wide_near(
                angles.half_bandwidth,
                band / 2real,
                12real,
                band,
            )
            &&& band >= top + 1real / 1000000000real ==> wide_near(
                angles.half_bandwidth,
                top / 2real,
                12real,
                2real,
            )
        }),
{
    lemma_angles();
    lemma_wide_numbers();
    let centre = filter_angles(freq, q, rate).centre;
    let (two, top) = (wide(0x4000_0000_0000_0000), wide(0x4008_e1a4_55fb_d07c));
    let (c, k) = (centre.amount(), q.amount());
    lemma_wide_near_self(centre, c);
    lemma_wide_near_self(two, 2real);
    lemma_wide_near_self(q, k);
    assert(0real * 2real == 0real && 0real * k == 0real) by (nonlinear_arith);
    lemma_wide_near_div(centre, c, 0real, c, two, 2real, 0real, 2real, 2real, 0real);
    let band = c / k;
    assert(1real / 1073741824real <= band <= 4096real) by (nonlinear_arith)
        requires
            band == c / k,
            1real / 1048576real <= c <= 4real,
            1real / 1024real <= k <= 1024real,
    ;
    lemma_wide_near_div(centre, c, 0real, c, q, k, 0real, k, k, 0real);
    let wanted = centre / q;
    lemma_wide_less(top, wanted);
    lemma_wide_less(wanted, top);
    let angles = filter_angles(freq, q, rate);
    assert(angles.half_centre == centre / two);
    assert(angles.half_bandwidth == wanted.min(top) / two);
    assert(wide_near(wanted, band, 3real, band));
    let e = 31101767270538954real / 10000000000000000real;
    lemma_wide_near_div(wanted, band, 3real, band, two, 2real, 0real, 2real, 2real, 0real);
    lemma_wide_near_wider(wanted / two, band / 2real, 9real, band / 2real, 12real, band);
    lemma_wide_near_div(top, e, 2real, 4real, two, 2real, 0real, 2real, 2real, 0real);
    lemma_wide_near_wider(top / two, e / 2real, 7real, 2real, 12real, 2real);
}

/// A gain in decibels is the power of ten of a twentieth of it.
pub proof fn law_gain_exponent(gain: Double)
    requires
        gain.is_finite() && -1024real <= gain.amount() <= 1024real,
    ensures
        wide_near(gain_exponent(gain), gain.amount() / 20real, 4real, 64real),
{
    lemma2_to64();
    lemma2_to64_rest();
    lemma_wide_constant(0x3fa9_9999_9999_999a, 0x200_0000_0000_0000, 0x19_9999_9999_999a);
    let t = wide(0x3fa9_9999_9999_999a);
    let (g, e) = (gain.amount(), 1real / 20real);
    assert(wide_near(t, e, 1real, 1real / 16real));
    lemma_wide_near_self(gain, 1024real);
    lemma_wide_near_mul(gain, g, 0real, 1024real, t, e, 1real, 1real / 16real);
    assert(g * e == g / 20real) by (nonlinear_arith)
        requires
            e == 1real / 20real,
    ;
}

/// A coefficient over the first one of the feedback.
proof fn lemma_over_first(c: Double, a0: Double, m: real)
    requires
        c.is_finite() && -m <= c.amount() <= m,
        a0.is_finite() && 1real / 33554432real <= a0.amount() <= 33554432real,
        1real / 33554432real <= m <= 33554432real,
    ensures
        wide_near(
            c * (wide(0x3ff0_0000_0000_0000) / a0),
            c.amount() / a0.amount(),
            6real,
            m / a0.amount(),
        ),
{
    lemma_wide_numbers();
    let (one, x, a) = (wide(0x3ff0_0000_0000_0000), c.amount(), a0.amount());
    lemma_wide_near_self(one, 1real);
    lemma_wide_near_self(a0, a);
    lemma_wide_near_self(c, m);
    let i = 1real / a;
    assert(1real / 33554432real <= i <= 33554432real && 0real * a == 0real && x * i == x / a && m
        * i == m / a) by (nonlinear_arith)
        requires
            i == 1real / a,
            1real / 33554432real <= a <= 33554432real,
    ;
    lemma_wide_near_div(one, 1real, 0real, 1real, a0, a, 0real, a, a, 0real);
    let mi = m * i;
    assert(1real / 1125899906842624real <= mi <= 1125899906842624real) by (nonlinear_arith)
        requires
            mi == m * i,
            1real / 33554432real <= i <= 33554432real,
            1real / 33554432real <= m <= 33554432real,
    ;
    lemma_wide_near_mul(c, x, 0real, m, one / a0, i, 3real, i);
}

/// A filter takes the coefficients of a shape over the first one of the feedback, and remembers
/// what it did.
pub proof fn law_shaped(filter: Biquad, shape: Shape, m: real)
    requires
        1real / 33554432real <= m <= 33554432real,
        shape.a0.is_finite() && 1real / 33554432real <= shape.a0.amount() <= 33554432real,
        shape.b0.is_finite() && -m <= shape.b0.amount() <= m,
        shape.b1.is_finite() && -m <= shape.b1.amount() <= m,
        shape.b2.is_finite() && -m <= shape.b2.amount() <= m,
        shape.a1.is_finite() && -m <= shape.a1.amount() <= m,
        shape.a2.is_finite() && -m <= shape.a2.amount() <= m,
    ensures
        ({
            let f = filter.shaped(shape);
            let a = shape.a0.amount();
            &&& wide_near(f.b0, shape.b0.amount() / a, 6real, m / a)
            &&& wide_near(f.b1, shape.b1.amount() / a, 6real, m / a)
            &&& wide_near(f.b2, shape.b2.amount() / a, 6real, m / a)
            &&& wide_near(f.a1, shape.a1.amount() / a, 6real, m / a)
            &&& wide_near(f.a2, shape.a2.amount() / a, 6real, m / a)
            &&& f.x1 == filter.x1 && f.x2 == filter.x2
            &&& f.y1 == filter.y1 && f.y2 == filter.y2
        }),
{
    lemma_over_first(shape.b0, shape.a0, m);
    lemma_over_first(shape.b1, shape.a0, m);
    lemma_over_first(shape.b2, shape.a0, m);
    lemma_over_first(shape.a1, shape.a0, m);
    lemma_over_first(shape.a2, shape.a0, m);
}

/// What a filter makes of a sample.
pub proof fn law_filtered_sample(filter: Biquad, x: Double, c: real, m: real)
    requires
        1real / 1048576real <= c <= 1048576real,
        1real / 1073741824real <= m <= 1073741824real,
        filter.b0.is_finite() && -c <= filter.b0.amount() <= c,
        filter.b1.is_finite() && -c <= filter.b1.amount() <= c,
        filter.b2.is_finite() && -c <= filter.b2.amount() <= c,
        filter.a1.is_finite() && -c <= filter.a1.amount() <= c,
        filter.a2.is_finite() && -c <= filter.a2.amount() <= c,
        x.is_finite() && -m <= x.amount() <= m,
        filter.x1.is_finite() && -m <= filter.x1.amount() <= m,
        filter.x2.is_finite() && -m <= filter.x2.amount() <= m,
        filter.y1.is_finite() && -m <= filter.y1.amount() <= m,
        filter.y2.is_finite() && -m <= filter.y2.amount() <= m,
    ensures
        wide_near(
            filter.response(x),
            filter.b0.amount() * x.amount() + filter.b1.amount() * filter.x1.amount()
                + filter.b2.amount() * filter.x2.amount() - filter.a1.amount() * filter.y1.amount()
                - filter.a2.amount() * filter.y2.amount(),
            11real,
            5real * (c * m),
        ),
{
    let cm = c * m;
    assert(1real / 1125899906842624real <= cm <= 1125899906842624real) by (nonlinear_arith)
        requires
            cm == c * m,
            1real / 1048576real <= c <= 1048576real,
            1real / 1073741824real <= m <= 1073741824real,
    ;
    lemma_part(filter.b0, x, c, m);
    lemma_part(filter.b1, filter.x1, c, m);
    lemma_part(filter.b2, filter.x2, c, m);
    lemma_part(filter.a1, filter.y1, c, m);
    lemma_part(filter.a2, filter.y2, c, m);
    let (p0, p1, p2, q1, q2) = (
        filter.b0 * x,
        filter.b1 * filter.x1,
        filter.b2 * filter.x2,
        filter.a1 * filter.y1,
        filter.a2 * filter.y2,
    );
    let (u0, u1, u2, v1, v2) = (
        filter.b0.amount() * x.amount(),
        filter.b1.amount() * filter.x1.amount(),
        filter.b2.amount() * filter.x2.amount(),
        filter.a1.amount() * filter.y1.amount(),
        filter.a2.amount() * filter.y2.amount(),
    );
    lemma_wide_near_add(p0, u0, cm, p1, u1, cm, 3real);
    lemma_wide_near_wider(p2, u2, 3real, cm, 5real, cm);
    lemma_wide_near_add(p0 + p1, u0 + u1, 2real * cm, p2, u2, cm, 5real);
    lemma_wide_near_wider(q1, v1, 3real, cm, 7real, cm);
    lemma_wide_near_sub(p0 + p1 + p2, u0 + u1 + u2, 3real * cm, q1, v1, cm, 7real);
    lemma_wide_near_wider(q2, v2, 3real, cm, 9real, cm);
    lemma_wide_near_sub(p0 + p1 + p2 - q1, u0 + u1 + u2 - v1, 4real * cm, q2, v2, cm, 9real);
}

/// A coefficient times a sample.
proof fn lemma_part(x: Double, y: Double, c: real, m: real)
    requires
        1real / 1048576real <= c <= 1048576real,
        1real / 1073741824real <= m <= 1073741824real,
        1real / 1125899906842624real <= c * m <= 1125899906842624real,
        x.is_finite() && -c <= x.amount() <= c,
        y.is_finite() && -m <= y.amount() <= m,
    ensures
        wide_near(x * y, x.amount() * y.amount(), 3real, c * m),
{
    lemma_wide_near_self(x, c);
    lemma_wide_near_self(y, m);
    lemma_wide_near_mul(x, x.amount(), 0real, c, y, y.amount(), 0real, m);
}

/// A filter remembers the last two samples on either side and keeps its coefficients.
pub proof fn law_filter_remembers(filter: Biquad, input: Seq<Single>, i: nat, n: nat)
    requires
        i < n,
        input[i as int].is_finite(),
    ensures
        filter.after(input, 0) == filter,
        ({
            let (was, now) = (filter.after(input, i), filter.after(input, i + 1));
            &&& now.x1.is_finite() && now.x1.amount() == input[i as int].amount()
            &&& now.x2 == was.x1
            &&& now.y1 == was.response(now.x1)
            &&& now.y2 == was.y1
            &&& now.b0 == was.b0 && now.b1 == was.b1 && now.b2 == was.b2
            &&& now.a1 == was.a1 && now.a2 == was.a2
            &&& filter.filtered(input, n).len() == n
            &&& filter.filtered(input, n)[i as int] == now.y1.narrow()
        }),
{
    assert((i + 1 - 1) as nat == i);
    lemma_wide_sample(input[i as int]);
}

/// A sample stays the same number in the 64-bit format.
proof fn lemma_wide_sample(x: Single)
    requires
        x.is_finite(),
    ensures
        x.widen().is_finite(),
        x.widen().amount() == x.amount(),
{
    lemma_widened(x);
    lemma_amount(x);
    lemma_wide_amount(x.widen());
    lemma_wide_constants();
    lemma_pow2_adds(149, 925);
    let (v, k) = (x.value(), finer());
    lemma_real_product(v, k);
    lemma_real_product(unit(), k);
    lemma_unit_positive();
    let (a, b, u, f) = (
        x.amount(),
        x.widen().amount(),
        unit() as real,
        k as real,
    );
    assert(wide_unit() as real == u * f);
    lemma_pow2_pos(925);
    assert(a == b) by (nonlinear_arith)
        requires
            b * (u * f) == (a * u) * f,
            u > 0real,
            f > 0real,
    ;
}

/// What the wah-wah makes of a sample: the filter takes the shape of that sample and goes on from
/// where it was; what goes out lies between the sample and what the filter makes of it, as far as
/// the mix says.
pub proof fn law_wah_sample(
    params: WahWahParams,
    trig: Seq<FilterTrig>,
    filter: Biquad,
    input: Seq<Single>,
    i: nat,
    n: nat,
    m: real,
)
    requires
        i < n,
        loud(m),
        input[i as int].is_finite() && -m <= input[i as int].amount() <= m,
        params.mix@[i as int].is_finite() && 0real <= params.mix@[i as int].amount() <= 1real,
        ({
            let now = wahwah::filter_after(params.filter_type, trig, filter, input, i + 1);
            now.y1.narrow().is_finite() && -m <= now.y1.narrow().amount() <= m
        }),
    ensures
        wahwah::filter_after(params.filter_type, trig, filter, input, 0) == filter,
        ({
            let ty = params.filter_type;
            let (was, now) = (
                wahwah::filter_after(ty, trig, filter, input, i),
                wahwah::filter_after(ty, trig, filter, input, i + 1),
            );
            let shaped = was.shaped(wahwah::shape(ty, trig[i as int]));
            let out = wahwah::rendered(params, trig, filter, input, n);
            let (x, wet) = (input[i as int].amount(), now.y1.narrow().amount());
            &&& now.x1.is_finite() && now.x1.amount() == x
            &&& now.x2 == was.x1
            &&& now.y1 == shaped.response(now.x1)
            &&& now.y2 == was.y1
            &&& out.len() == n
            &&& near(
                out[i as int],
                x + params.mix@[i as int].amount() * (wet - x),
                7real,
                3real * m,
            )
        }),
{
    assert((i + 1 - 1) as nat == i);
    lemma_wide_sample(input[i as int]);
    let now = wahwah::filter_after(params.filter_type, trig, filter, input, i + 1);
    law_linear(input[i as int], now.y1.narrow(), params.mix@[i as int], m);
}


/// How large a number is.
proof fn lemma_wide_size(x: Double)
    requires
        x.is_finite(),
    ensures
        x.abs().is_finite(),
        x.abs().amount() == if x.amount() < 0real { -x.amount() } else { x.amount() },
{
    reveal(Double::abs_spec);
    let f = Format::Double;
    let (nx, _, _) = lemma_parts(f, x.bits as int);
    let mx = if nx { x.bits - f.sign() } else { x.bits as int };
    lemma_sign_bit(f, mx);
    assert(x.abs().value() == if x.value() < 0 { -x.value() } else { x.value() });
    lemma_wide_amount(x);
    lemma_wide_amount(x.abs());
    let (u, a, b) = (wide_unit() as real, x.amount(), x.abs().amount());
    assert(b == if a < 0real { -a } else { a }) by (nonlinear_arith)
        requires
            b * u == if a * u < 0real { -(a * u) } else { a * u },
            u > 0real,
    ;
}

/// A control has moved where it is more than a millionth from where it was, or was not there yet.
pub proof fn law_moved(now: Double, last: Double)
    requires
        now.is_finite() && -1048576real <= now.amount() <= 1048576real,
        last.is_nan() || last.is_finite() && -1048576real <= last.amount() <= 1048576real,
    ensures
        last.is_nan() ==> parametric_eq::moved(now, last),
        last.is_finite() ==> {
            let d = 1000000real * (now.amount() - last.amount());
            let (less, more) = (999real / 1000real, 1001real / 1000real);
            &&& -less <= d <= less ==> !parametric_eq::moved(now, last)
            &&& d <= -more || d >= more ==> parametric_eq::moved(now, last)
        },
{
    lemma_angles();
    if last.is_finite() {
        let least = wide(0x3eb0_c6f7_a0b5_ed8d);
        lemma_wide_less(last, last);
        lemma_wide_near_self(now, 1048576real);
        lemma_wide_near_self(last, 1048576real);
        lemma_wide_near_sub(
            now,
            now.amount(),
            1048576real,
            last,
            last.amount(),
            1048576real,
            0real,
        );
        lemma_wide_size(now - last);
        lemma_wide_less(least, (now - last).abs());
    }
}

/// The coefficients are set where a control has moved or the type is another one, and then every
/// filter takes the shape of the type; otherwise it stays as it is.
pub proof fn law_eq_takes_shape(
    eq: ParametricEq,
    params: ParametricEqParams,
    trig: FilterTrig,
    ch: int,
)
    ensures
        ({
            let moved = parametric_eq::moved(params.frequency.widen(), eq.last_freq)
                || parametric_eq::moved(params.q.widen(), eq.last_q) || parametric_eq::moved(
                params.gain.widen(),
                eq.last_gain_db,
            );
            let set = moved || params.filter_type.index() != eq.last_type;
            let found = eq.filter_for(params, trig, ch);
            &&& eq.changed(params) == set
            &&& set ==> found == eq.filters@[ch].shaped(
                parametric_eq::shape(params.filter_type, trig),
            )
            &&& !set ==> found == eq.filters@[ch]
        }),
{
}

/// No two types have the same place in the list of types.
pub proof fn law_types_apart(a: parametric_eq::FilterType, b: parametric_eq::FilterType)
    ensures
        a.index() == b.index() <==> a == b,
        a.index() >= 0,
{
}


/// Before the first reset every effect counts on 44100 samples in a second, and what a follower
/// falls to in its time is one over e.
pub proof fn law_starting_rates()
    ensures
        ({
            let (rate, step) = (num(0x472c_4400), num(0x37be_37c6));
            &&& rate.is_finite() && rate.amount() == 44100real
            &&& near(step, 1real / 44100real, 1real, 1real / 32768real)
            &&& num(chorus::DEFAULT_RATE) == rate && num(delay::DEFAULT_RATE) == rate
            &&& num(flanger::DEFAULT_RATE) == rate && num(panning::DEFAULT_RATE) == rate
            &&& num(phaser::DEFAULT_RATE) == rate && num(pingpong::DEFAULT_RATE) == rate
            &&& num(vibrato::DEFAULT_RATE) == rate
            &&& num(phaser::DEFAULT_STEP) == step && num(compressor::DEFAULT_STEP) == step
            &&& num(ringmod::DEFAULT_STEP) == step && num(wahwah::DEFAULT_STEP) == step
        }),
        wide(parametric_eq::DEFAULT_RATE).is_finite(),
        wide(parametric_eq::DEFAULT_RATE).amount() == 44100real,
        wide(wahwah::DEFAULT_RATE).is_finite(),
        wide(wahwah::DEFAULT_RATE).amount() == 44100real,
        wide(parametric_eq::UNSET).is_nan(),
        near(num(follower::INV_E), 36787944real / 100000000real, 1real, 1real),
        num(wahwah::MIDDLE_HZ).is_finite() && num(wahwah::MIDDLE_HZ).amount() == 750real,
{
    reveal(Double::is_nan_spec);
    lemma_constants();
    lemma2_to64();
    lemma2_to64_rest();
    lemma_constant(0x472c_4400, 0x100, 0xac_4400);
    lemma_constant(0x37be_37c6, 0x80_0000_0000, 0xbe_37c6);
    lemma_constant(0x3ebc_5ab2, 0x200_0000, 0xbc_5ab2);
    lemma_constant(0x443b_8000, 0x4000, 0xbb_8000);
    lemma_ratio(num(0x472c_4400), 0x100, 0xac_4400);
    lemma_ratio(num(0x37be_37c6), 0x80_0000_0000, 0xbe_37c6);
    lemma_ratio(num(0x3ebc_5ab2), 0x200_0000, 0xbc_5ab2);
    lemma_ratio(num(0x443b_8000), 0x4000, 0xbb_8000);
    lemma_wide_constant(0x40e5_8880_0000_0000, 0x20_0000_0000, 0x15_8880_0000_0000);
}

} // verus!
