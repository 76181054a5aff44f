//! What the filters do at given frequencies.
//!
//! A filter with the coefficients `b` and `a` has the gain `(b0 + b1 + b2) / (a0 + a1 + a2)` for
//! what does not move at all and `(b0 - b1 + b2) / (a0 - a1 + a2)` for what changes sign at every
//! sample. Where the cosine of a frequency is `c`, the parts of the gain that lie along and across
//! the input are made of `(b0 + b2) c + b1` and `b0 - b2`, and of the same for `a`. The laws here
//! say what these come to, up to the rounding of the coefficients, which is a few parts in 2^52.
use crate::{parametric_eq, wahwah};
use crate::biquad::{band_pass, peaking, FilterTrig, WIDE_ONE};
use crate::float::double::{wide, Double};
use crate::float::reals::lemma_bounded_product;
use crate::float::wide::{lemma_wide_constants, lemma_wide_negated, wide_unit};
use crate::float::wide_near::{
    lemma_wide_amount, lemma_wide_amount_order, lemma_wide_near_add, lemma_wide_near_div,
    lemma_wide_near_mul, lemma_wide_near_self, lemma_wide_near_sub, lemma_wide_near_wider,
    lemma_wide_ratio, lemma_wide_root, wide_near,
};
use vstd::prelude::*;

verus! {

/// Whether two real numbers are no further apart than `k` parts in 2^52 of a third one.
pub open spec fn about(x: real, y: real, k: real, m: real) -> bool {
    -(k * m) <= 4503599627370496real * (x - y) <= k * m
}

/// Whether a number is finite and lies between 2^-25 and 2^25.
pub open spec fn moderate(x: Double) -> bool {
    x.is_finite() && 1real / 33554432real <= x.amount() <= 33554432real
}

/// One and two, on either side, and zero.
pub proof fn lemma_wide_numbers()
    ensures
        wide(0).is_finite() && wide(0).amount() == 0real,
        wide(0x3ff0_0000_0000_0000).is_finite() && wide(0x3ff0_0000_0000_0000).amount() == 1real,
        wide(0xbff0_0000_0000_0000).is_finite() && wide(0xbff0_0000_0000_0000).amount() == -1real,
        wide(0x4000_0000_0000_0000).is_finite() && wide(0x4000_0000_0000_0000).amount() == 2real,
        wide(0xc000_0000_0000_0000).is_finite() && wide(0xc000_0000_0000_0000).amount() == -2real,
{
    lemma_wide_constants();
    parametric_eq::lemma_twos();
    let u = wide_unit();
    assert(0 * 1 == 0 * u && u * 1 == 1 * u && (-u) * 1 == (-1) * u && (2 * u) * 1 == 2 * u && (-2
        * u) * 1 == (-2) * u) by (nonlinear_arith);
    lemma_wide_ratio(wide(0), 1, 0);
    lemma_wide_ratio(wide(0x3ff0_0000_0000_0000), 1, 1);
    lemma_wide_ratio(wide(0xbff0_0000_0000_0000), 1, -1);
    lemma_wide_ratio(wide(0x4000_0000_0000_0000), 1, 2);
    lemma_wide_ratio(wide(0xc000_0000_0000_0000), 1, -2);
}

/// A product of moderate numbers.
proof fn lemma_moderate_product(x: Double, y: Double)
    requires
        moderate(x),
        moderate(y),
    ensures
        wide_near(x * y, x.amount() * y.amount(), 3real, x.amount() * y.amount()),
        1real / 1125899906842624real <= x.amount() * y.amount() <= 1125899906842624real,
{
    let (a, b) = (x.amount(), y.amount());
    assert(1real / 1125899906842624real <= a * b <= 1125899906842624real) by (nonlinear_arith)
        requires
            1real / 33554432real <= a <= 33554432real,
            1real / 33554432real <= b <= 33554432real,
    ;
    lemma_wide_near_self(x, a);
    lemma_wide_near_self(y, b);
    lemma_wide_near_mul(x, a, 0real, a, y, b, 0real, b);
}

/// The root of a moderate number.
proof fn lemma_moderate_root(x: Double)
    requires
        moderate(x),
    ensures
        moderate(x.sqrt()),
        about(x.sqrt().amount() * x.sqrt().amount(), x.amount(), 1real, x.amount()),
{
    lemma_wide_amount_order(wide(0), x);
    lemma_wide_numbers();
    lemma_wide_constants();
    lemma_wide_root(x);
    let (r, a) = (x.sqrt().amount(), x.amount());
    assert(1real * a == a) by (nonlinear_arith);
    assert(1real / 33554432real <= r <= 33554432real) by (nonlinear_arith)
        requires
            -a <= 4503599627370496real * (r * r - a) <= a,
            1real / 33554432real <= a <= 33554432real,
            r > 0real,
    ;
}

/// A number and its sum with and difference from another one, which is near `b`.
proof fn lemma_two_sums(x: Double, a: real, y: Double, b: real)
    requires
        wide_near(x, a, 3real, a),
        wide_near(y, b, 3real, b),
        a <= 1125899906842624real,
        b <= 1125899906842624real,
    ensures
        wide_near(x + y, a + b, 5real, a + b),
        wide_near(x - y, a - b, 5real, a + b),
        about((x + y).amount() + (x - y).amount(), 2real * a, 10real, a + b),
        about((x + y).amount() - (x - y).amount(), 2real * b, 10real, a + b),
        (x + y).amount() * 2real >= a + b,
{
    lemma_wide_near_add(x, a, a, y, b, b, 3real);
    lemma_wide_near_sub(x, a, a, y, b, b, 3real);
}

/// The low shelf: what does not move is raised by the gain, what changes sign at every sample stays
/// as it is, and in between, where the tangent is that of the centre, the gain is the root of it.
pub proof fn law_low_shelf_gains(trig: FilterTrig)
    requires
        moderate(trig.tan_half_centre),
        moderate(trig.gain),
    ensures
        ({
            let s = parametric_eq::shape(parametric_eq::FilterType::LowShelf, trig);
            let (b0, b1, a0, a1) = (s.b0.amount(), s.b1.amount(), s.a0.amount(), s.a1.amount());
            let (g, t) = (trig.gain.amount(), trig.tan_half_centre.amount());
            let root = (a0 - a1) / 2real;
            &&& s.b2 == wide(0) && s.a2 == wide(0)
            &&& a0 > 0real && b0 > 0real
            &&& about(b0 + b1, g * (a0 + a1), 20real, b0 + g * a0)
            &&& about(b0 - b1, a0 - a1, 20real, b0 + a0)
            &&& about(a0 + a1, 2real * t, 10real, 2real * a0)
            &&& -(100real * (g + a0 * a0)) <= 4503599627370496real * (root * root - g) <= 100real
                * (g + a0 * a0)
        }),
{
    let (t, g) = (trig.tan_half_centre, trig.gain);
    let root = g.sqrt();
    lemma_moderate_root(g);
    lemma_moderate_product(g, t);
    lemma_wide_near_self(t, t.amount());
    lemma_wide_near_self(root, root.amount());
    lemma_wide_near_wider(t, t.amount(), 0real, t.amount(), 3real, t.amount());
    lemma_wide_near_wider(root, root.amount(), 0real, root.amount(), 3real, root.amount());
    let (tv, gv, rv) = (t.amount(), g.amount(), root.amount());
    lemma_two_sums(g * t, gv * tv, root, rv);
    lemma_two_sums(t, tv, root, rv);
    let s = parametric_eq::shape(parametric_eq::FilterType::LowShelf, trig);
    let (b0, b1, a0, a1) = (s.b0.amount(), s.b1.amount(), s.a0.amount(), s.a1.amount());
    let x = gv * tv;
    let h = 4503599627370496real;
    let (ga0, gsum) = (gv * a0, gv * (a0 + a1));
    let (m, n) = (x + rv, tv + rv);
    assert(-(10real * (gv * n)) <= h * (gsum - 2real * x) <= 10real * (gv * n) && gv * n <= 2real
        * ga0) by (nonlinear_arith)
        requires
            gsum == gv * (a0 + a1),
            ga0 == gv * a0,
            x == gv * tv,
            -(10real * n) <= h * (a0 + a1 - 2real * tv) <= 10real * n,
            a0 * 2real >= n,
            gv > 0real,
    ;
    let w = (a0 - a1) / 2real;
    assert(-(100real * (gv + a0 * a0)) <= h * (w * w - gv) <= 100real * (gv + a0 * a0)) by {
        lemma_near_root(w, rv, gv, a0, n);
    }
}

/// The square of what is near a root.
proof fn lemma_near_root(w: real, r: real, g: real, a: real, n: real)
    requires
        r > 0real,
        g > 0real,
        r <= n <= 2real * a,
        -(5real * n) <= 4503599627370496real * (w - r) <= 5real * n,
        -g <= 4503599627370496real * (r * r - g) <= g,
    ensures
        -(100real * (g + a * a)) <= 4503599627370496real * (w * w - g) <= 100real * (g + a * a),
{
    let h = 4503599627370496real;
    let e = w - r;
    let (ea, aa) = (a, a * a);
    assert(w * w - g == (r * r - g) + e * (2real * r + e)) by (nonlinear_arith)
        requires
            e == w - r,
    ;
    let f = 2real * r + e;
    assert(-(5real * a) <= f <= 5real * a);
    lemma_bounded_product(h * e, f, 10real * a, 5real * a);
    assert((10real * a) * (5real * a) == 50real * aa && (h * e) * f == h * (e * f))
        by (nonlinear_arith)
        requires
            aa == a * a,
    ;
    assert(aa >= 0real) by (nonlinear_arith)
        requires
            aa == a * a,
    ;
}

/// The high shelf: what does not move stays as it is, what changes sign at every sample is raised
/// by the gain, and the two meet where the tangent is that of the centre over the root of the gain.
pub proof fn law_high_shelf_gains(trig: FilterTrig)
    requires
        moderate(trig.tan_half_centre),
        moderate(trig.gain),
    ensures
        ({
            let s = parametric_eq::shape(parametric_eq::FilterType::HighShelf, trig);
            let (b0, b1, a0, a1) = (s.b0.amount(), s.b1.amount(), s.a0.amount(), s.a1.amount());
            let (g, t) = (trig.gain.amount(), trig.tan_half_centre.amount());
            let x = (a0 + a1) / 2real;
            &&& s.b2 == wide(0) && s.a2 == wide(0)
            &&& a0 > 0real && b0 > 0real
            &&& about(b0 + b1, a0 + a1, 20real, 2real * (b0 + a0))
            &&& about(b0 - b1, g * (a0 - a1), 20real, b0 + g * a0)
            &&& about(a0 - a1, 2real, 10real, 2real * a0)
            &&& -(200real * (g * (t * t) + a0 * a0)) <= 4503599627370496real * (x * x - g * (t * t))
                <= 200real * (g * (t * t) + a0 * a0)
        }),
{
    lemma_wide_numbers();
    let (t, g) = (trig.tan_half_centre, trig.gain);
    let root = g.sqrt();
    let one = wide(WIDE_ONE);
    lemma_moderate_root(g);
    lemma_moderate_product(root, t);
    lemma_wide_near_self(g, g.amount());
    lemma_wide_near_self(one, 1real);
    lemma_wide_near_wider(g, g.amount(), 0real, g.amount(), 3real, g.amount());
    lemma_wide_near_wider(one, 1real, 0real, 1real, 3real, 1real);
    let (tv, gv, rv) = (t.amount(), g.amount(), root.amount());
    let x = rv * tv;
    lemma_two_sums(root * t, x, g, gv);
    lemma_two_sums(root * t, x, one, 1real);
    let s = parametric_eq::shape(parametric_eq::FilterType::HighShelf, trig);
    let (b0, b1, a0, a1) = (s.b0.amount(), s.b1.amount(), s.a0.amount(), s.a1.amount());
    let h = 4503599627370496real;
    let (ga0, gdiff) = (gv * a0, gv * (a0 - a1));
    let n = x + 1real;
    assert(-(10real * (gv * n)) <= h * (gdiff - 2real * gv) <= 10real * (gv * n) && gv * n <= 2real
        * ga0) by (nonlinear_arith)
        requires
            gdiff == gv * (a0 - a1),
            ga0 == gv * a0,
            -(10real * n) <= h * (a0 - a1 - 2real) <= 10real * n,
            a0 * 2real >= n,
            gv > 0real,
    ;
    let (w, tt) = ((a0 + a1) / 2real, tv * tv);
    let gtt = gv * tt;
    assert(x * x == (rv * rv) * tt) by (nonlinear_arith)
        requires
            x == rv * tv,
            tt == tv * tv,
    ;
    let rr = rv * rv;
    assert(tt > 0real) by (nonlinear_arith)
        requires
            tt == tv * tv,
            tv > 0real,
    ;
    assert(-gtt <= h * (x * x - gtt) <= gtt && gtt > 0real) by (nonlinear_arith)
        requires
            -gv <= h * (rr - gv) <= gv,
            x * x == rr * tt,
            gtt == gv * tt,
            tt > 0real,
            gv > 0real,
    ;
    lemma_near_root(w, x, gtt, a0, n);
}


/// The low pass: what does not move goes through as it is, what changes sign at every sample not at
/// all, and the two parts are the same where the tangent is that of the centre.
pub proof fn law_low_pass_gains(trig: FilterTrig)
    requires
        moderate(trig.tan_half_centre),
    ensures
        ({
            let s = parametric_eq::shape(parametric_eq::FilterType::LowPass, trig);
            let (b0, b1, a0, a1) = (s.b0.amount(), s.b1.amount(), s.a0.amount(), s.a1.amount());
            let t = trig.tan_half_centre.amount();
            &&& s.b2 == wide(0) && s.a2 == wide(0)
            &&& about(b0 + b1, a0 + a1, 20real, a0)
            &&& b0 - b1 == 0real
            &&& about(a0 + a1, 2real * t, 20real, a0)
            &&& about(a0 - a1, 2real, 20real, a0)
        }),
{
    lemma_pass_divisor(trig.tan_half_centre);
}

/// The high pass: what does not move does not go through, what changes sign at every sample goes
/// through as it is, and the two parts are the same where the tangent is that of the centre.
pub proof fn law_high_pass_gains(trig: FilterTrig)
    requires
        moderate(trig.tan_half_centre),
    ensures
        ({
            let s = parametric_eq::shape(parametric_eq::FilterType::HighPass, trig);
            let (b0, b1, a0, a1) = (s.b0.amount(), s.b1.amount(), s.a0.amount(), s.a1.amount());
            let t = trig.tan_half_centre.amount();
            &&& s.b2 == wide(0) && s.a2 == wide(0)
            &&& b0 + b1 == 0real
            &&& about(b0 - b1, a0 - a1, 20real, a0)
            &&& about(a0 + a1, 2real * t, 20real, a0)
            &&& about(a0 - a1, 2real, 20real, a0)
        }),
{
    lemma_wide_numbers();
    lemma_pass_divisor(trig.tan_half_centre);
}

/// What the passes divide by.
proof fn lemma_pass_divisor(t: Double)
    requires
        moderate(t),
    ensures
        ({
            let (a0, a1) = ((t + wide(WIDE_ONE)).amount(), (t - wide(WIDE_ONE)).amount());
            &&& a0 > 0real
            &&& about(a0 + a1, 2real * t.amount(), 20real, a0)
            &&& about(a0 - a1, 2real, 20real, a0)
        }),
{
    lemma_wide_numbers();
    let one = wide(WIDE_ONE);
    lemma_wide_near_self(t, t.amount());
    lemma_wide_near_self(one, 1real);
    lemma_wide_near_wider(t, t.amount(), 0real, t.amount(), 3real, t.amount());
    lemma_wide_near_wider(one, 1real, 0real, 1real, 3real, 1real);
    lemma_two_sums(t, t.amount(), one, 1real);
}

/// Twice a cosine, turned round.
proof fn lemma_turned_cosine(c: Double)
    requires
        c.is_finite(),
        -1real <= c.amount() <= 1real,
    ensures
        wide_near(wide(0xc000_0000_0000_0000) * c, -2real * c.amount(), 3real, 2real),
{
    lemma_wide_numbers();
    let two = wide(0xc000_0000_0000_0000);
    lemma_wide_near_self(two, 2real);
    lemma_wide_near_self(c, 1real);
    lemma_wide_near_mul(two, -2real, 0real, 2real, c, c.amount(), 0real, 1real);
}

/// The band pass: nothing goes through that does not move or that changes sign at every sample;
/// what has the centre frequency, the one with the cosine that was given, goes through as it is;
/// and the band is as wide as the tangent says.
pub proof fn law_band_pass_gains(trig: FilterTrig)
    requires
        moderate(trig.tan_half_bandwidth),
        trig.cos_centre.is_finite(),
        -1real <= trig.cos_centre.amount() <= 1real,
    ensures
        ({
            let s = band_pass(trig);
            let (b0, b1, b2) = (s.b0.amount(), s.b1.amount(), s.b2.amount());
            let (a0, a1, a2) = (s.a0.amount(), s.a1.amount(), s.a2.amount());
            let (c, t) = (trig.cos_centre.amount(), trig.tan_half_bandwidth.amount());
            &&& b0 + b1 + b2 == 0real && b0 - b1 + b2 == 0real
            &&& (b0 + b2) * c + b1 == 0real
            &&& about((a0 + a2) * c + a1, 0real, 40real, a0)
            &&& about(b0 - b2, a0 - a2, 40real, a0)
            &&& about(a0 - a2, 2real * t, 40real, a0)
            &&& about(a0 + a2, 2real, 40real, a0)
        }),
{
    lemma_wide_numbers();
    let t = trig.tan_half_bandwidth;
    lemma_band_divisor(t, trig.cos_centre);
    lemma_wide_negated(t);
    lemma_turned(t);
    let s = band_pass(trig);
    assert(0real * trig.cos_centre.amount() == 0real) by (nonlinear_arith);
}

/// A number turned round.
proof fn lemma_turned(x: Double)
    requires
        x.is_finite(),
    ensures
        x.negated().is_finite(),
        x.negated().amount() == -x.amount(),
{
    lemma_wide_negated(x);
    lemma_wide_amount(x);
    lemma_wide_amount(x.negated());
    let (v, w, u) = (x.amount(), x.negated().amount(), wide_unit() as real);
    assert(w == -v) by (nonlinear_arith)
        requires
            w * u == -(v * u),
            u > 0real,
    ;
}

/// What the band filters divide by.
proof fn lemma_band_divisor(t: Double, c: Double)
    requires
        moderate(t),
        c.is_finite(),
        -1real <= c.amount() <= 1real,
    ensures
        ({
            let one = wide(WIDE_ONE);
            let (a0, a1, a2) = (
                (one + t).amount(),
                (wide(0xc000_0000_0000_0000) * c).amount(),
                (one - t).amount(),
            );
            &&& a0 >= 1real / 2real
            &&& about((a0 + a2) * c.amount() + a1, 0real, 40real, a0)
            &&& about(a1, -2real * c.amount(), 40real, a0)
            &&& about(a0 - a2, 2real * t.amount(), 20real, a0)
            &&& about(a0 + a2, 2real, 20real, a0)
        }),
{
    lemma_wide_numbers();
    let one = wide(WIDE_ONE);
    lemma_wide_near_self(t, t.amount());
    lemma_wide_near_self(one, 1real);
    lemma_wide_near_wider(t, t.amount(), 0real, t.amount(), 3real, t.amount());
    lemma_wide_near_wider(one, 1real, 0real, 1real, 3real, 1real);
    lemma_two_sums(one, 1real, t, t.amount());
    lemma_turned_cosine(c);
    let (a0, a2, cv) = ((one + t).amount(), (one - t).amount(), c.amount());
    let h = 4503599627370496real;
    let d = a0 + a2 - 2real;
    lemma_bounded_product(h * d, cv, 20real * a0, 1real);
    assert((h * d) * cv == h * ((a0 + a2) * cv - 2real * cv)) by (nonlinear_arith)
        requires
            d == a0 + a2 - 2real,
    ;
    assert((20real * a0) * 1real == 20real * a0) by (nonlinear_arith);
}

/// The band stop: nothing goes through that has the centre frequency, the one with the cosine that
/// was given; what does not move and what changes sign at every sample goes through as it is; and
/// the band is as wide as the tangent says.
pub proof fn law_band_stop_gains(trig: FilterTrig)
    requires
        moderate(trig.tan_half_bandwidth),
        trig.cos_centre.is_finite(),
        -1real <= trig.cos_centre.amount() <= 1real,
    ensures
        ({
            let s = parametric_eq::shape(parametric_eq::FilterType::BandStop, trig);
            let (b0, b1, b2) = (s.b0.amount(), s.b1.amount(), s.b2.amount());
            let (a0, a1, a2) = (s.a0.amount(), s.a1.amount(), s.a2.amount());
            let (c, t) = (trig.cos_centre.amount(), trig.tan_half_bandwidth.amount());
            &&& about((b0 + b2) * c + b1, 0real, 40real, a0)
            &&& b0 - b2 == 0real
            &&& about(b0 + b1 + b2, a0 + a1 + a2, 40real, a0)
            &&& about(b0 - b1 + b2, a0 - a1 + a2, 40real, a0)
            &&& about((a0 + a2) * c + a1, 0real, 40real, a0)
            &&& about(a0 - a2, 2real * t, 40real, a0)
            &&& about(a0 + a2, 2real, 40real, a0)
        }),
{
    lemma_wide_numbers();
    lemma_band_divisor(trig.tan_half_bandwidth, trig.cos_centre);
    let c = trig.cos_centre.amount();
    assert((1real + 1real) * c == 2real * c) by (nonlinear_arith);
}

/// The peak: what has the centre frequency, the one with the cosine that was given, is raised by
/// the gain; what does not move and what changes sign at every sample stays as it is; and the band,
/// at whose ends the gain is the root of that in the middle, is as wide as the tangent says.
pub proof fn law_peaking_gains(trig: FilterTrig)
    requires
        moderate(trig.tan_half_bandwidth),
        moderate(trig.gain),
        trig.cos_centre.is_finite(),
        -1real <= trig.cos_centre.amount() <= 1real,
    ensures
        ({
            let s = peaking(trig);
            let (b0, b1, b2) = (s.b0.amount(), s.b1.amount(), s.b2.amount());
            let (a0, a1, a2) = (s.a0.amount(), s.a1.amount(), s.a2.amount());
            let (c, t) = (trig.cos_centre.amount(), trig.tan_half_bandwidth.amount());
            let g = trig.gain.amount();
            let root = (a0 + a2) / 2real;
            &&& about(b0 - b2, g * (a0 - a2), 20real, b0 + g * a0)
            &&& about(b0 + b2, a0 + a2, 20real, b0 + a0)
            &&& b1 == a1
            &&& about((a0 + a2) * c + a1, 0real, 40real, a0)
            &&& about(a0 - a2, 2real * t, 20real, a0)
            &&& -(100real * (g + a0 * a0)) <= 4503599627370496real * (root * root - g) <= 100real
                * (g + a0 * a0)
        }),
{
    lemma_wide_numbers();
    let (t, g, c) = (trig.tan_half_bandwidth, trig.gain, trig.cos_centre);
    let root = g.sqrt();
    lemma_moderate_root(g);
    lemma_moderate_product(g, t);
    lemma_wide_near_self(t, t.amount());
    lemma_wide_near_self(root, root.amount());
    lemma_wide_near_wider(t, t.amount(), 0real, t.amount(), 3real, t.amount());
    lemma_wide_near_wider(root, root.amount(), 0real, root.amount(), 3real, root.amount());
    let (tv, gv, rv, cv) = (t.amount(), g.amount(), root.amount(), c.amount());
    lemma_two_sums(root, rv, g * t, gv * tv);
    lemma_two_sums(root, rv, t, tv);
    let s = peaking(trig);
    let (b0, b2, a0, a1, a2) = (
        s.b0.amount(),
        s.b2.amount(),
        s.a0.amount(),
        s.a1.amount(),
        s.a2.amount(),
    );
    let h = 4503599627370496real;
    let (x, n) = (gv * tv, rv + tv);
    let (ga0, gdiff) = (gv * a0, gv * (a0 - a2));
    assert(-(10real * (gv * n)) <= h * (gdiff - 2real * x) <= 10real * (gv * n) && gv * n <= 2real
        * ga0) by (nonlinear_arith)
        requires
            gdiff == gv * (a0 - a2),
            ga0 == gv * a0,
            x == gv * tv,
            -(10real * n) <= h * (a0 - a2 - 2real * tv) <= 10real * n,
            a0 * 2real >= n,
            gv > 0real,
    ;
    lemma_near_root((a0 + a2) / 2real, rv, gv, a0, n);
    lemma_turned_cosine(c);
    let two_cos = wide(0xc000_0000_0000_0000) * c;
    lemma_wide_near_self(root, rv);
    assert(rv * 2real >= 1real / 33554432real);
    lemma_wide_near_mul(root, rv, 0real, rv, two_cos, -2real * cv, 3real, 2real);
    let (d, rc) = (a0 + a2 - 2real * rv, rv * cv);
    lemma_bounded_product(h * d, cv, 10real * n, 1real);
    assert((h * d) * cv == h * ((a0 + a2) * cv - 2real * rc) && rv * (-2real * cv) == -2real * rc
        && (10real * n) * 1real == 10real * n && 6real * (rv * 2real) == 12real * rv)
        by (nonlinear_arith)
        requires
            d == a0 + a2 - 2real * rv,
            rc == rv * cv,
    ;
}

/// The resonant low pass: what does not move goes through as it is, what changes sign at every
/// sample not at all, and what has the centre frequency, the one with the tangent that was given,
/// is raised by the gain.
pub proof fn law_resonant_low_pass_gains(trig: FilterTrig)
    requires
        moderate(trig.tan_half_centre),
        moderate(trig.gain),
    ensures
        ({
            let s = wahwah::shape(wahwah::FilterType::ResonantLowPass, trig);
            let (b0, b1, b2) = (s.b0.amount(), s.b1.amount(), s.b2.amount());
            let (a0, a1, a2) = (s.a0.amount(), s.a1.amount(), s.a2.amount());
            let (t, g) = (trig.tan_half_centre.amount(), trig.gain.amount());
            &&& about(b0 + b1 + b2, a0 + a1 + a2, 120real, a0)
            &&& about(b0 - b1 + b2, 0real, 80real, a0)
            &&& b0 - b2 == 0real
            &&& about(a0 + a1 + a2, 4real * (t * t), 80real, a0)
            &&& about(a0 - a1 + a2, 4real, 80real, a0)
            &&& about(g * (a0 - a2), 2real * t, 80real, g * a0)
        }),
{
    lemma_wide_numbers();
    let (t, g) = (trig.tan_half_centre, trig.gain);
    let (tv, gv) = (t.amount(), g.amount());
    let (one, two) = (wide(WIDE_ONE), wide(0x4000_0000_0000_0000));
    let (t2, x) = (t * t, tv * tv);
    lemma_moderate_product(t, t);
    lemma_wide_near_self(two, 2real);
    lemma_wide_near_self(one, 1real);
    lemma_wide_near_self(t, tv);
    lemma_wide_near_self(g, gv);
    let q = tv / gv;
    assert(q * gv == tv && 1real / 1125899906842624real <= q <= 1125899906842624real)
        by (nonlinear_arith)
        requires
            q == tv / gv,
            1real / 33554432real <= gv <= 33554432real,
            1real / 33554432real <= tv <= 33554432real,
    ;
    assert(0real * gv == 0real) by (nonlinear_arith);
    lemma_wide_near_div(t, tv, 0real, tv, g, gv, 0real, gv, gv, 0real);
    let slope = t / g;
    lemma_wide_near_mul(two, 2real, 0real, 2real, t2, x, 3real, x);
    let m = x + q + 1real;
    // The two sums of three terms.
    lemma_wide_near_add(t2, x, x, slope, q, q, 3real);
    lemma_wide_near_sub(t2, x, x, slope, q, q, 3real);
    lemma_wide_near_wider(one, 1real, 0real, 1real, 5real, 1real);
    lemma_wide_near_add(t2 + slope, x + q, x + q, one, 1real, 1real, 5real);
    lemma_wide_near_add(t2 - slope, x - q, x + q, one, 1real, 1real, 5real);
    lemma_wide_near_wider(two, 2real, 0real, 2real, 6real, 2real);
    lemma_wide_near_sub(two * t2, 2real * x, 2real * x, two, 2real, 2real, 6real);
    let s = wahwah::shape(wahwah::FilterType::ResonantLowPass, trig);
    let (a0, a2) = (s.a0.amount(), s.a2.amount());
    assert(2real * a0 >= m);
    let h = 4503599627370496real;
    let (ga0, gdiff) = (gv * a0, gv * (a0 - a2));
    assert(-(14real * (gv * m)) <= h * (gdiff - 2real * tv) <= 14real * (gv * m) && gv * m <= 2real
        * ga0) by (nonlinear_arith)
        requires
            gdiff == gv * (a0 - a2),
            ga0 == gv * a0,
            q * gv == tv,
            -(14real * m) <= h * (a0 - a2 - 2real * q) <= 14real * m,
            a0 * 2real >= m,
            gv > 0real,
    ;
    let (b0, b1, b2, a1) = (s.b0.amount(), s.b1.amount(), s.b2.amount(), s.a1.amount());
    assert(b1 == (two * t2).amount());
    assert(about(b0 + b1 + b2, 4real * x, 18real, m));
    assert(about(a0 + a1 + a2, 4real * x, 30real, m));
    assert(about(a0 - a1 + a2, 4real, 30real, m));
    assert(about(b0 - b1 + b2, 0real, 18real, m));
}

/// Both effects have the same band pass and the same peak.
pub proof fn law_effects_share_shapes(trig: FilterTrig)
    ensures
        wahwah::shape(wahwah::FilterType::BandPass, trig) == band_pass(trig),
        wahwah::shape(wahwah::FilterType::Peaking, trig) == peaking(trig),
        parametric_eq::shape(parametric_eq::FilterType::BandPass, trig) == band_pass(trig),
        parametric_eq::shape(parametric_eq::FilterType::Peaking, trig) == peaking(trig),
{
}

} // verus!
