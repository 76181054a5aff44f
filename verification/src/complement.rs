//! Pairs of filters that complement each other: what the two make of a signal adds up to it.
//!
//! Filters work with rounded numbers, so the sum is off a little. The bounds here are in parts of
//! 2^52, the precision of the numbers that the filters work with.
use crate::biquad::{Biquad, Shape, WIDE_ONE};
use crate::float::double::{wide, Double};
use crate::float::encoding::Format;
use crate::float::facts::size;
use crate::float::order::lemma_product_between;
use crate::float::single::Single;
use crate::float::wide::{
    lemma_wide_add, lemma_wide_constants, lemma_wide_div, lemma_wide_mul, lemma_wide_sub,
    lemma_wide_top, wide_unit,
};
use vstd::arithmetic::power2::{lemma2_to64, lemma_pow2_adds, lemma_pow2_strictly_increases, pow2};
use vstd::prelude::*;

verus! {

/// Whether a coefficient is a number of no more than twice `a0`.
pub open spec fn fits(c: Double, a0: Double) -> bool {
    c.is_finite() && size(c.value()) <= 2 * a0.value()
}

/// Whether two shapes divide by the same and add up to it, coefficient by coefficient.
pub open spec fn complement(s: Shape, r: Shape) -> bool {
    &&& s.a0 == r.a0 && s.a1 == r.a1 && s.a2 == r.a2
    &&& s.a0.is_finite() && wide_unit() <= s.a0.value() <= 0x4000_0000 * wide_unit()
    &&& fits(s.b0, s.a0) && fits(s.b1, s.a0) && fits(s.b2, s.a0)
    &&& fits(r.b0, s.a0) && fits(r.b1, s.a0) && fits(r.b2, s.a0)
    &&& fits(s.a1, s.a0) && fits(s.a2, s.a0)
    &&& (s.b0 + r.b0).value() == s.a0.value()
    &&& (s.b1 + r.b1).value() == s.a1.value()
    &&& (s.b2 + r.b2).value() == s.a2.value()
}

/// Products with a factor of bounded size.
proof fn lemma_product_size(c: int, s: int, top: int, m: int)
    requires
        size(c) <= top,
        size(s) <= m,
    ensures
        size(c * s) <= top * m,
{
    assert(size(c * s) == size(c) * size(s)) by (nonlinear_arith);
    let (a, b) = (size(c), size(s));
    assert(a * b <= top * m) by (nonlinear_arith)
        requires
            0 <= a <= top,
            0 <= b <= m,
    ;
}

/// The reciprocal that a shape's coefficients are multiplied with.
pub proof fn lemma_reciprocal(a0: Double) -> (inv: Double)
    requires
        a0.is_finite(),
        wide_unit() <= a0.value() <= 0x4000_0000 * wide_unit(),
    ensures
        inv == wide(WIDE_ONE) / a0,
        inv.is_finite(),
        0x10_0000_0000_0000 * size(inv.value() * a0.value() - wide_unit() * wide_unit()) <= 2 * (
        wide_unit() * wide_unit()),
        size(inv.value() * a0.value()) <= 2 * (wide_unit() * wide_unit()),
{
    lemma_wide_constants();
    let (u, a) = (wide_unit(), a0.value());
    let one = wide(WIDE_ONE);
    assert(size(u * u) <= u * a) by (nonlinear_arith)
        requires
            0 < u <= a,
    ;
    lemma_wide_div(one, a0, one);
    assert(0x10_0000_0000_0001 * a <= u * u) by (nonlinear_arith)
        requires
            a <= 0x4000_0000 * u,
            u >= 0x8000_0000_0000_0000_0000_0000_0000_0000,
    ;
    one / a0
}

/// A coefficient once it is divided by `a0`.
pub proof fn lemma_coefficient(c: Double, a0: Double, inv: Double)
    requires
        a0.is_finite(),
        wide_unit() <= a0.value() <= 0x4000_0000 * wide_unit(),
        inv.is_finite(),
        size(inv.value() * a0.value()) <= 2 * (wide_unit() * wide_unit()),
        0x10_0000_0000_0000 * size(inv.value() * a0.value() - wide_unit() * wide_unit()) <= 2 * (
        wide_unit() * wide_unit()),
        fits(c, a0),
    ensures
        (c * inv).is_finite(),
        size((c * inv).value()) <= 3 * wide_unit(),
        0x10_0000_0000_0000 * size((c * inv).value() * wide_unit() - c.value() * inv.value()) <= 4
            * (wide_unit() * wide_unit()),
{
    lemma_wide_constants();
    let top = lemma_wide_top();
    let (u, a, i, v) = (wide_unit(), a0.value(), inv.value(), c.value());
    let w = u * u;
    assert(size(v * i) <= 2 * size(i * a)) by (nonlinear_arith)
        requires
            size(v) <= 2 * a,
            a > 0,
    ;
    assert(0x10_0000_0000_0001 * u <= w) by (nonlinear_arith)
        requires
            w == u * u,
            u >= 0x8000_0000_0000_0000_0000_0000_0000_0000,
    ;
    // Twice what the reciprocal makes of `a0` is little more than two.
    assert(0x8_0000_0000_0000 * size(v * i) <= 0x10_0000_0000_0002 * w);
    assert(size(v * i) <= top.value() * u) by {
        lemma2_to64();
        lemma_pow2_adds(3, 197);
        lemma_pow2_strictly_increases(0, 197);
        let p = pow2(200) as int;
        assert(4 * w <= (p * u) * u) by (nonlinear_arith)
            requires
                p >= 4,
                w == u * u,
                w >= 0,
        ;
    }
    lemma_wide_mul(c, inv, top);
    let k = (c * inv).value();
    assert(0x10_0000_0000_0000 * size(k * u - v * i) <= 4 * w);
    assert(size(k) <= 3 * u) by (nonlinear_arith)
        requires
            size(k * u) <= 3 * (u * u),
            u > 0,
    ;
}

/// Three coefficients that add up before they are divided add up afterwards, but for rounding.
proof fn lemma_coefficients(b: Double, c: Double, a: Double, a0: Double, inv: Double)
    requires
        a0.is_finite(),
        wide_unit() <= a0.value() <= 0x4000_0000 * wide_unit(),
        inv.is_finite(),
        size(inv.value() * a0.value()) <= 2 * (wide_unit() * wide_unit()),
        0x10_0000_0000_0000 * size(inv.value() * a0.value() - wide_unit() * wide_unit()) <= 2 * (
        wide_unit() * wide_unit()),
        fits(b, a0),
        fits(c, a0),
        fits(a, a0),
        (b + c).value() == a.value(),
    ensures
        0x10_0000_0000_0000 * size(
            (b * inv).value() + (c * inv).value() - (a * inv).value(),
        ) <= 21 * wide_unit(),
        0x10_0000_0000_0000 * size(
            ((b * inv).value() + (c * inv).value()) * wide_unit() - a.value() * inv.value(),
        ) <= 17 * (wide_unit() * wide_unit()),
{
    lemma_wide_constants();
    let top = lemma_wide_top();
    lemma_coefficient(b, a0, inv);
    lemma_coefficient(c, a0, inv);
    lemma_coefficient(a, a0, inv);
    let (u, d, i) = (wide_unit(), a0.value(), inv.value());
    let (x, y, z) = (b.value(), c.value(), a.value());
    let w = u * u;
    assert(size(x + y) <= top.value()) by {
        lemma2_to64();
        lemma_pow2_adds(40, 160);
        lemma_pow2_strictly_increases(33, 200);
        lemma_pow2_adds(1, 32);
        let p = pow2(200) as int;
        assert(0x1_0000_0000 * u <= p * u) by (nonlinear_arith)
            requires
                p >= 0x1_0000_0000,
                u > 0,
        ;
    }
    lemma_wide_add(b, c, top);
    let e = x + y - z;
    assert(0x10_0000_0000_0000 * size(e) <= 4 * d);
    assert(0x10_0000_0000_0000 * size(e * i) <= 4 * size(i * d)) by (nonlinear_arith)
        requires
            0x10_0000_0000_0000 * size(e) <= 4 * d,
            d > 0,
    ;
    assert(x * i + y * i - z * i == e * i) by (nonlinear_arith)
        requires
            e == x + y - z,
    ;
    let (p, q, r) = ((b * inv).value(), (c * inv).value(), (a * inv).value());
    let (xi, yi, zi, ei) = (x * i, y * i, z * i, e * i);
    let (pu, qu, ru) = (p * u, q * u, r * u);
    assert(0x10_0000_0000_0000 * size(ei) <= 5 * w);
    assert((p + q) * u == pu + qu) by (nonlinear_arith)
        requires
            pu == p * u,
            qu == q * u,
    ;
    assert(0x10_0000_0000_0000 * size(pu + qu - zi) <= 13 * w);
    assert(0x10_0000_0000_0000 * size(pu + qu - ru) <= 17 * w);
    assert(0x10_0000_0000_0000 * size(p + q - r) <= 17 * u) by (nonlinear_arith)
        requires
            0x10_0000_0000_0000 * size(p * u + q * u - r * u) <= 17 * (u * u),
            u > 0,
    ;
}

impl Biquad {
    /// Whether the coefficients are numbers of no more than `c`.
    pub open spec fn tame(self, c: int) -> bool {
        &&& self.b0.is_finite() && size(self.b0.value()) <= c * wide_unit()
        &&& self.b1.is_finite() && size(self.b1.value()) <= c * wide_unit()
        &&& self.b2.is_finite() && size(self.b2.value()) <= c * wide_unit()
        &&& self.a1.is_finite() && size(self.a1.value()) <= c * wide_unit()
        &&& self.a2.is_finite() && size(self.a2.value()) <= c * wide_unit()
    }

    /// Whether the samples that the filter has seen are numbers of no more than `m`.
    pub open spec fn bounded(self, m: int) -> bool {
        &&& self.x1.is_finite() && size(self.x1.value()) <= m
        &&& self.x2.is_finite() && size(self.x2.value()) <= m
        &&& self.y1.is_finite() && size(self.y1.value()) <= m
        &&& self.y2.is_finite() && size(self.y2.value()) <= m
    }

    /// What the filter makes of a sample in exact arithmetic, times one.
    pub open spec fn exact_response(self, x: Double) -> int {
        self.b0.value() * x.value() + self.b1.value() * self.x1.value() + self.b2.value()
            * self.x2.value() - self.a1.value() * self.y1.value() - self.a2.value()
            * self.y2.value()
    }
}

/// A bound that is neither so small that the least numbers matter nor so large that a filter runs
/// over.
pub open spec fn audible(m: int) -> bool {
    0x1000_0000_0000_0000 <= m <= 0x1_0000_0000 * wide_unit()
}

/// A coefficient times a sample.
proof fn lemma_term(k: Double, s: Double, c: int, m: int)
    requires
        audible(m),
        0 <= c <= 0x1000,
        k.is_finite(),
        s.is_finite(),
        size(k.value()) <= c * wide_unit(),
        size(s.value()) <= m,
    ensures
        (k * s).is_finite(),
        size((k * s).value()) <= (c + 1) * m,
        0x10_0000_0000_0000 * size((k * s).value() * wide_unit() - k.value() * s.value()) <= (c + 1)
            * m * wide_unit(),
{
    lemma_wide_constants();
    let top = lemma_wide_top();
    let (u, v, w) = (wide_unit(), k.value(), s.value());
    lemma_product_size(v, w, c * u, m);
    let (mu, all) = (m * u, (c + 1) * m * u);
    assert((c * u) * m + mu == all && 0 <= (c * u) * m && all <= 0x2000 * mu) by (nonlinear_arith)
        requires
            mu == m * u,
            all == (c + 1) * m * u,
            0 <= c <= 0x1000,
            m > 0,
            u > 0,
    ;
    lemma_far_top(m);
    let t = top.value();
    assert(0x2000 * mu <= t * u) by (nonlinear_arith)
        requires
            0x1_0000 * m <= t,
            mu == m * u,
            u > 0,
            m > 0,
    ;
    lemma_wide_mul(k, s, top);
    assert(0x10_0000_0000_0001 * u <= mu) by (nonlinear_arith)
        requires
            mu == m * u,
            m >= 0x1000_0000_0000_0000,
            u > 0,
    ;
    let p = (k * s).value();
    let b = (c + 1) * m;
    assert(size(p) <= b) by (nonlinear_arith)
        requires
            size(p * u) <= b * u,
            u > 0,
    ;
}

proof fn lemma_far_top(m: int)
    requires
        audible(m),
    ensures
        0x1_0000 * m <= pow2(200) * wide_unit(),
{
    lemma_wide_constants();
    lemma2_to64();
    lemma_pow2_strictly_increases(64, 200);
    let (p, u) = (pow2(200) as int, wide_unit());
    assert(0x1_0000 * (0x1_0000_0000 * u) <= p * u) by (nonlinear_arith)
        requires
            p >= 0x1_0000_0000_0000_0000,
            u > 0,
    ;
}

/// One more term in a sum.
proof fn lemma_sum_step(s: Double, p: Double, so_far: int, b: int, m: int)
    requires
        audible(m),
        s.is_finite(),
        p.is_finite(),
        size(s.value()) <= so_far,
        size(p.value()) <= b,
        so_far + b <= 0x1_0000 * m,
    ensures
        (s + p).is_finite(),
        size((s + p).value()) <= so_far + b + m,
        0x10_0000_0000_0000 * size((s + p).value() - (s.value() + p.value())) <= so_far + b,
        (s - p).is_finite(),
        size((s - p).value()) <= so_far + b + m,
        0x10_0000_0000_0000 * size((s - p).value() - (s.value() - p.value())) <= so_far + b,
{
    let top = lemma_wide_top();
    lemma_far_top(m);
    lemma_wide_add(s, p, top);
    lemma_wide_sub(s, p, top);
}

/// The sum of the five terms of a response, none of them louder than `k`.
proof fn lemma_sums(
    p0: Double,
    p1: Double,
    p2: Double,
    p3: Double,
    p4: Double,
    k: int,
    m: int,
) -> (r: Double)
    requires
        audible(m),
        k <= 0x2000 * m,
        p0.is_finite() && size(p0.value()) <= k,
        p1.is_finite() && size(p1.value()) <= k,
        p2.is_finite() && size(p2.value()) <= k,
        p3.is_finite() && size(p3.value()) <= k,
        p4.is_finite() && size(p4.value()) <= k,
    ensures
        r == p0 + p1 + p2 - p3 - p4,
        r.is_finite(),
        0x10_0000_0000_0000 * size(
            r.value() - (p0.value() + p1.value() + p2.value() - p3.value() - p4.value()),
        ) <= 14 * k + 6 * m,
{
    lemma_sum_step(p0, p1, k, k, m);
    let s1 = p0 + p1;
    lemma_sum_step(s1, p2, 2 * k + m, k, m);
    let s2 = s1 + p2;
    lemma_sum_step(s2, p3, 3 * k + 2 * m, k, m);
    let s3 = s2 - p3;
    lemma_sum_step(s3, p4, 4 * k + 3 * m, k, m);
    let s4 = s3 - p4;
    let (a, b, c, d, e) = (p0.value(), p1.value(), p2.value(), p3.value(), p4.value());
    let (e1, e2, e3, e4) = (
        s1.value() - (a + b),
        s2.value() - (s1.value() + c),
        s3.value() - (s2.value() - d),
        s4.value() - (s3.value() - e),
    );
    assert(s4.value() - (a + b + c - d - e) == e1 + e2 + e3 + e4);
    assert(0x10_0000_0000_0000 * size(e1 + e2 + e3 + e4) <= 14 * k + 6 * m) by {
        lemma_size_adds(e1, e2);
        lemma_size_adds(e1 + e2, e3);
        lemma_size_adds(e1 + e2 + e3, e4);
    }
    s4
}

/// A sum is no further from zero than its terms together.
pub proof fn lemma_size_adds(x: int, y: int)
    ensures
        size(x + y) <= size(x) + size(y),
{
}

/// What a filter with coefficients of no more than `c` makes of a sample is off from exact
/// arithmetic by no more than `19 c + 25` parts in 2^52 of the loudest sample.
pub proof fn law_response_close(filter: Biquad, x: Double, c: int, m: int)
    requires
        audible(m),
        0 <= c <= 0x1000,
        filter.tame(c),
        filter.bounded(m),
        x.is_finite(),
        size(x.value()) <= m,
    ensures
        filter.response(x).is_finite(),
        0x10_0000_0000_0000 * size(
            filter.response(x).value() * wide_unit() - filter.exact_response(x),
        ) <= (19 * c + 25) * (m * wide_unit()),
{
    lemma_wide_constants();
    let f = filter;
    lemma_term(f.b0, x, c, m);
    lemma_term(f.b1, f.x1, c, m);
    lemma_term(f.b2, f.x2, c, m);
    lemma_term(f.a1, f.y1, c, m);
    lemma_term(f.a2, f.y2, c, m);
    let (p0, p1, p2, p3, p4) = (f.b0 * x, f.b1 * f.x1, f.b2 * f.x2, f.a1 * f.y1, f.a2 * f.y2);
    let u = wide_unit();
    let (k, mu) = ((c + 1) * m, m * u);
    let ku = k * u;
    assert(0 <= k <= 0x2000 * m) by (nonlinear_arith)
        requires
            k == (c + 1) * m,
            0 <= c <= 0x1000,
            m > 0,
    ;
    let r = lemma_sums(p0, p1, p2, p3, p4, k, m);
    let (a, b, g, d, e) = (p0.value(), p1.value(), p2.value(), p3.value(), p4.value());
    let off = r.value() - (a + b + g - d - e);
    assert(0x10_0000_0000_0000 * size(off * u) <= 14 * ku + 6 * mu) by (nonlinear_arith)
        requires
            0x10_0000_0000_0000 * size(off) <= 14 * k + 6 * m,
            mu == m * u,
            ku == k * u,
            u > 0,
    ;
    let v = r.value();
    assert(v * u == off * u + a * u + b * u + g * u - d * u - e * u) by (nonlinear_arith)
        requires
            off == v - (a + b + g - d - e),
    ;
    let (ou, vu) = (off * u, v * u);
    let (au, bu, gu, du, eu) = (a * u, b * u, g * u, d * u, e * u);
    let (q0, q1, q2, q3, q4) = (
        f.b0.value() * x.value(),
        f.b1.value() * f.x1.value(),
        f.b2.value() * f.x2.value(),
        f.a1.value() * f.y1.value(),
        f.a2.value() * f.y2.value(),
    );
    lemma_five(ou, au - q0, bu - q1, gu - q2, q3 - du, q4 - eu, 14 * ku + 6 * mu, ku);
    assert(vu - f.exact_response(x) == ou + (au - q0) + (bu - q1) + (gu - q2) + (q3 - du) + (q4
        - eu));
    assert(19 * ku + 6 * mu == (19 * c + 25) * mu) by (nonlinear_arith)
        requires
            ku == k * u,
            k == (c + 1) * m,
            mu == m * u,
    ;
}

/// A sum of bounded parts.
proof fn lemma_five(o: int, a: int, b: int, c: int, d: int, e: int, first: int, each: int)
    requires
        0x10_0000_0000_0000 * size(o) <= first,
        0x10_0000_0000_0000 * size(a) <= each,
        0x10_0000_0000_0000 * size(b) <= each,
        0x10_0000_0000_0000 * size(c) <= each,
        0x10_0000_0000_0000 * size(d) <= each,
        0x10_0000_0000_0000 * size(e) <= each,
    ensures
        0x10_0000_0000_0000 * size(o + a + b + c + d + e) <= first + 5 * each,
{
    lemma_size_adds(o, a);
    lemma_size_adds(o + a, b);
    lemma_size_adds(o + a + b, c);
    lemma_size_adds(o + a + b + c, d);
    lemma_size_adds(o + a + b + c + d, e);
}

/// How far the coefficients of two complementing filters are from adding up.
proof fn lemma_filters_complement(one: Biquad, other: Biquad, s: Shape, r: Shape)
    requires
        complement(s, r),
        one == one.shaped(s),
        other == other.shaped(r),
    ensures
        one.tame(3),
        other.tame(3),
        one.a1 == other.a1,
        one.a2 == other.a2,
        0x10_0000_0000_0000 * size(one.b0.value() + other.b0.value() - wide_unit()) <= 21
            * wide_unit(),
        0x10_0000_0000_0000 * size(one.b1.value() + other.b1.value() - one.a1.value()) <= 21
            * wide_unit(),
        0x10_0000_0000_0000 * size(one.b2.value() + other.b2.value() - one.a2.value()) <= 21
            * wide_unit(),
{
    lemma_wide_constants();
    let inv = lemma_reciprocal(s.a0);
    let a0 = s.a0;
    lemma_coefficient(s.b0, a0, inv);
    lemma_coefficient(s.b1, a0, inv);
    lemma_coefficient(s.b2, a0, inv);
    lemma_coefficient(r.b0, a0, inv);
    lemma_coefficient(r.b1, a0, inv);
    lemma_coefficient(r.b2, a0, inv);
    lemma_coefficient(s.a1, a0, inv);
    lemma_coefficient(s.a2, a0, inv);
    lemma_coefficients(s.b0, r.b0, a0, a0, inv);
    lemma_coefficients(s.b1, r.b1, s.a1, a0, inv);
    lemma_coefficients(s.b2, r.b2, s.a2, a0, inv);
    let (u, k, d) = (
        wide_unit(),
        one.b0.value() + other.b0.value(),
        inv.value() * a0.value(),
    );
    assert(a0.value() * inv.value() == d) by (nonlinear_arith)
        requires
            d == inv.value() * a0.value(),
    ;
    lemma_size_adds(k * u - d, d - u * u);
    assert(0x10_0000_0000_0000 * size(k - u) <= 21 * u) by (nonlinear_arith)
        requires
            0x10_0000_0000_0000 * size(k * u - u * u) <= 19 * (u * u),
            u > 0,
    ;
}

/// Two complementing filters that have seen the same samples make of one more sample what adds up
/// to it: off by what their last sums were off, as the feedback carries it on, and by no more than
/// 230 parts in 2^52 of the loudest sample.
pub proof fn law_complements_step(
    one: Biquad,
    other: Biquad,
    s: Shape,
    r: Shape,
    x: Double,
    m: int,
)
    requires
        audible(m),
        complement(s, r),
        one == one.shaped(s),
        other == other.shaped(r),
        one.x1 == other.x1,
        one.x2 == other.x2,
        one.bounded(m),
        other.bounded(m),
        x.is_finite(),
        size(x.value()) <= m,
    ensures
        one.response(x).is_finite(),
        other.response(x).is_finite(),
        one.a1 == other.a1,
        one.a2 == other.a2,
        ({
            let off = one.response(x).value() + other.response(x).value() - x.value();
            let off1 = one.y1.value() + other.y1.value() - one.x1.value();
            let off2 = one.y2.value() + other.y2.value() - one.x2.value();
            0x10_0000_0000_0000 * size(
                off * wide_unit() + one.a1.value() * off1 + one.a2.value() * off2,
            ) <= 230 * (m * wide_unit())
        }),
{
    lemma_wide_constants();
    lemma_filters_complement(one, other, s, r);
    law_response_close(one, x, 3, m);
    law_response_close(other, x, 3, m);
    let u = wide_unit();
    let mu = m * u;
    let (y, z, v) = (one.response(x).value(), other.response(x).value(), x.value());
    let (x1, x2) = (one.x1.value(), one.x2.value());
    let (a1, a2) = (one.a1.value(), one.a2.value());
    let (k0, k1, k2) = (
        one.b0.value() + other.b0.value() - u,
        one.b1.value() + other.b1.value() - a1,
        one.b2.value() + other.b2.value() - a2,
    );
    let off = y + z - v;
    let off1 = one.y1.value() + other.y1.value() - x1;
    let off2 = one.y2.value() + other.y2.value() - x2;
    lemma_split(one.b0.value(), other.b0.value(), u, v, v, 0);
    lemma_split(one.b1.value(), other.b1.value(), a1, x1, one.y1.value(), other.y1.value());
    lemma_split(one.b2.value(), other.b2.value(), a2, x2, one.y2.value(), other.y2.value());
    assert(u * 0 == 0) by (nonlinear_arith);
    assert(u * v + u * 0 == u * (v + 0)) by (nonlinear_arith);
    let exact = one.exact_response(x) + other.exact_response(x);
    let (t0, t1, t2) = (k0 * v, k1 * x1, k2 * x2);
    let (f1, f2) = (a1 * off1, a2 * off2);
    assert(u * (v + 0 - v) == 0) by (nonlinear_arith);
    assert(exact - u * v == t0 + t1 - f1 + t2 - f2);
    lemma_part(k0, v, m);
    lemma_part(k1, x1, m);
    lemma_part(k2, x2, m);
    let (ey, ez) = (y * u - one.exact_response(x), z * u - other.exact_response(x));
    assert(off * u == ey + ez + exact - u * v) by (nonlinear_arith)
        requires
            off == y + z - v,
            ey == y * u - one.exact_response(x),
            ez == z * u - other.exact_response(x),
            exact == one.exact_response(x) + other.exact_response(x),
    ;
    assert((19 * 3 + 25) * mu == 82 * mu) by (nonlinear_arith);
    assert(0x10_0000_0000_0000 * size(ey) <= 82 * mu);
    assert(0x10_0000_0000_0000 * size(ez) <= 82 * mu);
    lemma_size_adds(ey, ez);
    lemma_size_adds(ey + ez, t0);
    lemma_size_adds(ey + ez + t0, t1);
    lemma_size_adds(ey + ez + t0 + t1, t2);
    assert(off * u + f1 + f2 == ey + ez + t0 + t1 + t2);
}

/// What two terms of the input and two of the feedback come to.
proof fn lemma_split(b: int, c: int, a: int, x: int, y: int, z: int)
    ensures
        b * x + c * x - a * y - a * z == (b + c - a) * x - a * (y + z - x),
{
    assert(b * x + c * x - a * y - a * z == (b + c - a) * x - a * (y + z - x))
        by (nonlinear_arith);
}

/// A small factor times a sample.
proof fn lemma_part(k: int, x: int, m: int)
    requires
        0x10_0000_0000_0000 * size(k) <= 21 * wide_unit(),
        size(x) <= m,
    ensures
        0x10_0000_0000_0000 * size(k * x) <= 21 * (m * wide_unit()),
{
    let (u, a, b) = (wide_unit(), size(k), size(x));
    assert(size(k * x) == a * b) by (nonlinear_arith)
        requires
            a == size(k),
            b == size(x),
    ;
    assert(0x10_0000_0000_0000 * (a * b) <= 21 * (m * u)) by (nonlinear_arith)
        requires
            0x10_0000_0000_0000 * a <= 21 * u,
            0 <= a,
            0 <= b <= m,
    ;
}

/// Two complementing filters without a second feedback term, whose first one does not amplify, make
/// of a block what adds up to it: sample `i` is off by no more than `230 * (i + 1)` parts in 2^52
/// of the loudest sample.
pub proof fn law_complements_add_up(
    one: Biquad,
    other: Biquad,
    s: Shape,
    r: Shape,
    input: Seq<Single>,
    m: int,
    i: nat,
)
    requires
        audible(m),
        complement(s, r),
        one == one.shaped(s).cleared(),
        other == other.shaped(r).cleared(),
        s.a2 == wide(0),
        size(one.a1.value()) <= wide_unit(),
        forall|k: nat|
            k <= i ==> (#[trigger] one.after(input, k)).bounded(m) && other.after(
                input,
                k,
            ).bounded(m),
        forall|k: int|
            0 <= k <= i ==> (#[trigger] input[k]).widen().is_finite() && size(
                input[k].widen().value(),
            ) <= m,
    ensures
        ({
            let x = input[i as int].widen();
            0x10_0000_0000_0000 * size(
                one.after(input, i).response(x).value() + other.after(input, i).response(x).value()
                    - x.value(),
            ) <= 230 * (m * (i + 1))
        }),
    decreases i,
{
    lemma_wide_constants();
    let (a, b) = (one.after(input, i), other.after(input, i));
    let x = input[i as int].widen();
    lemma_after(one, other, input, i);
    assert(a.bounded(m) && b.bounded(m));
    assert(a == a.shaped(s) && b == b.shaped(r));
    lemma_filters_complement(a, b, s, r);
    law_complements_step(a, b, s, r, x, m);
    let u = wide_unit();
    let inv = lemma_reciprocal(s.a0);
    assert(a.a2.value() == 0) by {
        reveal(Double::spec_mul);
        let v = inv.value();
        assert(0 * v == 0 && 0 * u == 0) by (nonlinear_arith);
        lemma_product_between(Format::Double, 0, inv.bits as int, 0, 0);
    }
    let off = a.response(x).value() + b.response(x).value() - x.value();
    let off1 = a.y1.value() + b.y1.value() - a.x1.value();
    let off2 = a.y2.value() + b.y2.value() - a.x2.value();
    assert(a.a2.value() * off2 == 0) by (nonlinear_arith)
        requires
            a.a2.value() == 0,
    ;
    let last = if i == 0 { 0 } else { 230 * (m * i) };
    if i > 0 {
        let k = (i - 1) as nat;
        law_complements_add_up(one, other, s, r, input, m, k);
        lemma_after(one, other, input, k);
        assert(k + 1 == i);
    } else {
        assert(off1 == 0);
    }
    assert(0x10_0000_0000_0000 * size(off1) <= last);
    let a1 = a.a1.value();
    assert(0x10_0000_0000_0000 * size(a1 * off1) <= last * u) by (nonlinear_arith)
        requires
            0x10_0000_0000_0000 * size(off1) <= last,
            size(a1) <= u,
    ;
    lemma_size_adds(off * u + a1 * off1, -(a1 * off1));
    assert(0x10_0000_0000_0000 * size(off) <= last + 230 * m) by (nonlinear_arith)
        requires
            0x10_0000_0000_0000 * size(off * u) <= last * u + 230 * (m * u),
            u > 0,
    ;
    assert(m * (i + 1) == m * i + m) by (nonlinear_arith);
}

/// What two successive sums of a feedback of second order are worth together, `p` being one more
/// than its second coefficient. Without anything new coming in this never grows.
spec fn energy(p: int, a1: int, x: int, y: int) -> int {
    p * (x * x + y * y) + 2 * (a1 * (x * y))
}

/// One step of a feedback that does not amplify: `z` follows on `x` and `y`, off by `more`.
proof fn lemma_energy_step(
    u: int,
    a1: int,
    a2: int,
    x: int,
    y: int,
    z: int,
    so_far: int,
    more: int,
)
    requires
        u > 0,
        a2 <= u,
        size(a1) <= u + a2,
        so_far >= 0,
        more >= 0,
        0x10_0000_0000_0000 * size(z * u + a1 * x + a2 * y) <= more * u,
        0x100_0000_0000_0000_0000_0000_0000 * energy(u + a2, a1, x, y) <= (u + a2) * (so_far
            * so_far),
    ensures
        0x100_0000_0000_0000_0000_0000_0000 * energy(u + a2, a1, z, x) <= (u + a2) * ((so_far
            + more) * (so_far + more)),
{
    let h = 0x10_0000_0000_0000int;
    let p = u + a2;
    let v = energy(p, a1, x, y);
    let next = energy(p, a1, z, x);
    let x0 = -(a1 * x + a2 * y);
    let e = z * u - x0;
    let (s, q) = (u * x, u * y);
    let w = energy(p, a1, x0, s);
    let b = p * x0 + a1 * s;
    // Nothing is gained on the way from one pair of sums to the next.
    lemma_energy_scaled(u, p, a1, x, y);
    lemma_energy_lost(u, a1, a2, x, y);
    // What comes in meets no more than all that is there.
    lemma_energy_met(p, a1, x0, s);
    assert(p * p >= a1 * a1) by (nonlinear_arith)
        requires
            size(a1) <= p,
    ;
    assert((p * p - a1 * a1) * (s * s) >= 0) by (nonlinear_arith)
        requires
            p * p >= a1 * a1,
    ;
    let uv = (u * u) * v;
    let (hv, n) = ((h * h) * v, so_far);
    let room = p * (u * n);
    assert((h * h) * uv <= (u * u) * (p * (n * n))) by (nonlinear_arith)
        requires
            uv == (u * u) * v,
            hv == (h * h) * v,
            hv <= p * (n * n),
    ;
    assert((h * h) * w <= (h * h) * uv && (h * h) * (b * b) <= (h * h) * (p * w))
        by (nonlinear_arith)
        requires
            w <= uv,
            b * b <= p * w,
    ;
    lemma_squares(h, b, p, w, u, n);
    assert(room >= 0) by (nonlinear_arith)
        requires
            room == p * (u * n),
            p >= 0,
            u > 0,
            n >= 0,
    ;
    lemma_root(h * b, room);
    let (he, hb, mu) = (h * e, h * b, more * u);
    assert(size(he) <= mu);
    assert(he * hb <= mu * room && he * he <= mu * mu) by (nonlinear_arith)
        requires
            size(he) <= mu,
            size(hb) <= room,
    ;
    assert(p * (he * he) <= p * (mu * mu)) by (nonlinear_arith)
        requires
            he * he <= mu * mu,
            p >= 0,
    ;
    lemma_energy_scaled(u, p, a1, z, x);
    assert(u * z == x0 + e) by (nonlinear_arith)
        requires
            e == z * u - x0,
    ;
    lemma_energy_added(p, a1, x0, s, e);
    let un = (u * u) * next;
    assert(un == w + 2 * (e * b) + p * (e * e));
    assert((h * h) * un == (h * h) * w + 2 * (he * hb) + p * (he * he)) by (nonlinear_arith)
        requires
            un == w + 2 * (e * b) + p * (e * e),
            he == h * e,
            hb == h * b,
    ;
    lemma_sum_squared(u, p, n, more);
    assert((h * h) * next <= p * ((n + more) * (n + more))) by (nonlinear_arith)
        requires
            un == (u * u) * next,
            (h * h) * un <= (u * u) * (p * ((n + more) * (n + more))),
            u > 0,
    ;
}

proof fn lemma_energy_scaled(u: int, p: int, a1: int, x: int, y: int)
    ensures
        energy(p, a1, u * x, u * y) == (u * u) * energy(p, a1, x, y),
{
    let (xx, yy, xy, uu) = (x * x, y * y, x * y, u * u);
    assert((u * x) * (u * x) == uu * xx && (u * y) * (u * y) == uu * yy && (u * x) * (u * y) == uu
        * xy) by (nonlinear_arith)
        requires
            xx == x * x,
            yy == y * y,
            xy == x * y,
            uu == u * u,
    ;
    assert(p * (uu * xx + uu * yy) + 2 * (a1 * (uu * xy)) == uu * (p * (xx + yy) + 2 * (a1 * xy)))
        by (nonlinear_arith);
}

/// What two successive sums are worth less than the two before them.
proof fn lemma_energy_lost(u: int, a1: int, a2: int, x: int, y: int)
    requires
        a2 <= u,
    ensures
        energy(u + a2, a1, -(a1 * x + a2 * y), u * x) <= energy(u + a2, a1, u * x, u * y),
{
    let p = u + a2;
    let (a, c) = (a1 * x, a2 * y);
    let (x0, s, q) = (-(a + c), u * x, u * y);
    let ua = u * a;
    let gone = x0 - q;
    let rest = p * (x0 + q) + 2 * ua;
    assert(a1 * s == ua) by (nonlinear_arith)
        requires
            a == a1 * x,
            s == u * x,
            ua == u * a,
    ;
    assert(p * y == q + c) by (nonlinear_arith)
        requires
            p == u + a2,
            q == u * y,
            c == a2 * y,
    ;
    assert(rest == -((u - a2) * gone)) by (nonlinear_arith)
        requires
            rest == p * (x0 + q) + 2 * ua,
            ua == u * a,
            p == u + a2,
            x0 == -(a + c),
            gone == x0 - q,
            q == u * y,
            c == a2 * y,
    ;
    let (x0x0, ss, qq) = (x0 * x0, s * s, q * q);
    assert(a1 * (x0 * s) == ua * x0 && a1 * (s * q) == ua * q) by (nonlinear_arith)
        requires
            a1 * s == ua,
    ;
    assert(p * (x0x0 + ss) == p * x0x0 + p * ss && p * (ss + qq) == p * ss + p * qq)
        by (nonlinear_arith);
    assert(p * x0x0 - p * qq + 2 * (ua * x0) - 2 * (ua * q) == gone * rest) by (nonlinear_arith)
        requires
            x0x0 == x0 * x0,
            qq == q * q,
            gone == x0 - q,
            rest == p * (x0 + q) + 2 * ua,
    ;
    assert(gone * rest <= 0) by (nonlinear_arith)
        requires
            rest == -((u - a2) * gone),
            a2 <= u,
    ;
}

/// How what comes in meets what is there.
proof fn lemma_energy_met(p: int, a1: int, x: int, s: int)
    ensures
        p * energy(p, a1, x, s) == (p * x + a1 * s) * (p * x + a1 * s) + (p * p - a1 * a1) * (s
            * s),
{
    let (px, d) = (p * x, a1 * s);
    assert((px + d) * (px + d) == px * px + 2 * (px * d) + d * d) by (nonlinear_arith);
    let (xx, ss, xs) = (x * x, s * s, x * s);
    assert(px * px == (p * p) * xx && px * d == p * (a1 * xs) && d * d == (a1 * a1) * ss)
        by (nonlinear_arith)
        requires
            px == p * x,
            d == a1 * s,
            xx == x * x,
            ss == s * s,
            xs == x * s,
    ;
    assert(p * (p * (xx + ss) + 2 * (a1 * xs)) == (p * p) * xx + (p * p) * ss + 2 * (p * (a1 * xs)))
        by (nonlinear_arith);
    assert((p * p - a1 * a1) * ss == (p * p) * ss - (a1 * a1) * ss) by (nonlinear_arith);
}

/// What something more makes of it.
proof fn lemma_energy_added(p: int, a1: int, x: int, s: int, e: int)
    ensures
        energy(p, a1, x + e, s) == energy(p, a1, x, s) + 2 * (e * (p * x + a1 * s)) + p * (e * e),
{
    let (xx, ss, xs, ee, xe, es) = (x * x, s * s, x * s, e * e, x * e, e * s);
    assert((x + e) * (x + e) == xx + 2 * xe + ee && (x + e) * s == xs + es) by (nonlinear_arith)
        requires
            xx == x * x,
            xe == x * e,
            ee == e * e,
            xs == x * s,
            es == e * s,
    ;
    assert(p * (xx + 2 * xe + ee + ss) == p * (xx + ss) + 2 * (p * xe) + p * ee)
        by (nonlinear_arith);
    assert(a1 * (xs + es) == a1 * xs + a1 * es) by (nonlinear_arith);
    assert(e * (p * x + a1 * s) == p * xe + a1 * es) by (nonlinear_arith)
        requires
            xe == x * e,
            es == e * s,
    ;
}

proof fn lemma_squares(h: int, b: int, p: int, w: int, u: int, n: int)
    requires
        p >= 0,
        (h * h) * (b * b) <= (h * h) * (p * w),
        (h * h) * w <= (u * u) * (p * (n * n)),
    ensures
        (h * b) * (h * b) <= (p * (u * n)) * (p * (u * n)),
{
    let (hw, all) = ((h * h) * w, (u * u) * (p * (n * n)));
    assert((h * b) * (h * b) == (h * h) * (b * b)) by (nonlinear_arith);
    assert((h * h) * (p * w) == p * hw) by (nonlinear_arith)
        requires
            hw == (h * h) * w,
    ;
    assert(p * hw <= p * all) by (nonlinear_arith)
        requires
            hw <= all,
            p >= 0,
    ;
    let un = u * n;
    assert((u * u) * (n * n) == un * un) by (nonlinear_arith)
        requires
            un == u * n,
    ;
    assert(all == p * (un * un)) by (nonlinear_arith)
        requires
            all == (u * u) * (p * (n * n)),
            (u * u) * (n * n) == un * un,
    ;
    assert(p * (p * (un * un)) == (p * un) * (p * un)) by (nonlinear_arith);
}

proof fn lemma_sum_squared(u: int, p: int, n: int, more: int)
    ensures
        (u * u) * (p * ((n + more) * (n + more))) == (u * u) * (p * (n * n)) + 2 * ((more * u) * (p
            * (u * n))) + p * ((more * u) * (more * u)),
{
    let (nn, nm, mm, uu) = (n * n, n * more, more * more, u * u);
    assert((n + more) * (n + more) == nn + 2 * nm + mm) by (nonlinear_arith)
        requires
            nn == n * n,
            nm == n * more,
            mm == more * more,
    ;
    assert((more * u) * (p * (u * n)) == uu * (p * nm)) by (nonlinear_arith)
        requires
            nm == n * more,
            uu == u * u,
    ;
    assert(p * ((more * u) * (more * u)) == uu * (p * mm)) by (nonlinear_arith)
        requires
            mm == more * more,
            uu == u * u,
    ;
    assert(uu * (p * (nn + 2 * nm + mm)) == uu * (p * nn) + 2 * (uu * (p * nm)) + uu * (p * mm))
        by (nonlinear_arith);
}

/// What squares to no more is no more.
proof fn lemma_root(x: int, y: int)
    requires
        x * x <= y * y,
        y >= 0,
    ensures
        size(x) <= y,
{
    assert(size(x) <= y) by (nonlinear_arith)
        requires
            x * x <= y * y,
            y >= 0,
    ;
}

/// Two complementing filters whose feedback does not amplify make of a block what adds up to it:
/// with `p` one more than the second coefficient of the feedback and `a` the first one, without its
/// sign, the square of what sample `i` is off is no more than `p / (p - a)` times that of `230 * (i
/// + 1)` parts in 2^52 of the loudest sample.
pub proof fn law_second_order_complements_add_up(
    one: Biquad,
    other: Biquad,
    s: Shape,
    r: Shape,
    input: Seq<Single>,
    m: int,
    i: nat,
)
    requires
        audible(m),
        complement(s, r),
        one == one.shaped(s).cleared(),
        other == other.shaped(r).cleared(),
        one.a2.value() <= wide_unit(),
        size(one.a1.value()) < wide_unit() + one.a2.value(),
        forall|k: nat|
            k <= i ==> (#[trigger] one.after(input, k)).bounded(m) && other.after(
                input,
                k,
            ).bounded(m),
        forall|k: int|
            0 <= k <= i ==> (#[trigger] input[k]).widen().is_finite() && size(
                input[k].widen().value(),
            ) <= m,
    ensures
        ({
            let x = input[i as int].widen();
            let off = one.after(input, i).response(x).value() + other.after(input, i).response(
                x,
            ).value() - x.value();
            let p = wide_unit() + one.a2.value();
            (p - size(one.a1.value())) * square(0x10_0000_0000_0000 * off) <= p * square(
                230 * (m * (i + 1)),
            )
        }),
{
    lemma_energy(one, other, s, r, input, m, i);
    lemma_wide_constants();
    let x = input[i as int].widen();
    let (a, b) = (one.after(input, i), other.after(input, i));
    let off = a.response(x).value() + b.response(x).value() - x.value();
    let off1 = a.y1.value() + b.y1.value() - a.x1.value();
    let h = 0x10_0000_0000_0000int;
    let (p, a1) = (wide_unit() + one.a2.value(), one.a1.value());
    let n = 230 * (m * (i + 1));
    let v = energy(p, a1, off, off1);
    let g = size(a1);
    lemma_energy_met(p, a1, off1, off);
    assert(energy(p, a1, off1, off) == v) by (nonlinear_arith)
        requires
            energy(p, a1, off1, off) == p * (off1 * off1 + off * off) + 2 * (a1 * (off1 * off)),
            v == p * (off * off + off1 * off1) + 2 * (a1 * (off * off1)),
    ;
    let met = p * off1 + a1 * off;
    assert(met * met >= 0 && g * g == a1 * a1) by (nonlinear_arith)
        requires
            g == size(a1),
    ;
    let o = off * off;
    assert(o >= 0) by (nonlinear_arith)
        requires
            o == off * off,
    ;
    assert(p * ((p - g) * o) <= (p * p - g * g) * o) by (nonlinear_arith)
        requires
            o >= 0,
            0 <= g < p,
    ;
    assert((p - g) * o <= v) by (nonlinear_arith)
        requires
            p * ((p - g) * o) <= p * v,
            p > 0,
    ;
    assert((h * h) * ((p - g) * o) <= p * (n * n)) by (nonlinear_arith)
        requires
            (p - g) * o <= v,
            (h * h) * v <= p * (n * n),
            h > 0,
    ;
    assert((p - g) * square(h * off) == (h * h) * ((p - g) * o)) by (nonlinear_arith)
        requires
            square(h * off) == (h * off) * (h * off),
            o == off * off,
    ;
}

/// A number times itself.
pub open spec fn square(x: int) -> int {
    x * x
}

/// What the last two sums are off, taken together, after `i + 1` samples.
proof fn lemma_energy(
    one: Biquad,
    other: Biquad,
    s: Shape,
    r: Shape,
    input: Seq<Single>,
    m: int,
    i: nat,
)
    requires
        audible(m),
        complement(s, r),
        one == one.shaped(s).cleared(),
        other == other.shaped(r).cleared(),
        one.a2.value() <= wide_unit(),
        size(one.a1.value()) < wide_unit() + one.a2.value(),
        forall|k: nat|
            k <= i ==> (#[trigger] one.after(input, k)).bounded(m) && other.after(
                input,
                k,
            ).bounded(m),
        forall|k: int|
            0 <= k <= i ==> (#[trigger] input[k]).widen().is_finite() && size(
                input[k].widen().value(),
            ) <= m,
    ensures
        ({
            let x = input[i as int].widen();
            let (a, b) = (one.after(input, i), other.after(input, i));
            let off = a.response(x).value() + b.response(x).value() - x.value();
            let off1 = a.y1.value() + b.y1.value() - a.x1.value();
            let n = 230 * (m * (i + 1));
            0x100_0000_0000_0000_0000_0000_0000 * energy(
                wide_unit() + one.a2.value(),
                one.a1.value(),
                off,
                off1,
            ) <= (wide_unit() + one.a2.value()) * (n * n)
        }),
    decreases i,
{
    lemma_wide_constants();
    let (a, b) = (one.after(input, i), other.after(input, i));
    let x = input[i as int].widen();
    lemma_after(one, other, input, i);
    assert(a.bounded(m) && b.bounded(m));
    assert(a == a.shaped(s) && b == b.shaped(r));
    law_complements_step(a, b, s, r, x, m);
    let u = wide_unit();
    let (a1, a2) = (one.a1.value(), one.a2.value());
    let off = a.response(x).value() + b.response(x).value() - x.value();
    let off1 = a.y1.value() + b.y1.value() - a.x1.value();
    let off2 = a.y2.value() + b.y2.value() - a.x2.value();
    let (so_far, more) = (230 * (m * i), 230 * m);
    assert(so_far >= 0 && 230 * (m * (i + 1)) == so_far + more && more * u == 230 * (m * u))
        by (nonlinear_arith)
        requires
            so_far == 230 * (m * i),
            more == 230 * m,
            m >= 0,
    ;
    let v = energy(u + a2, a1, off1, off2);
    if i > 0 {
        let k = (i - 1) as nat;
        lemma_energy(one, other, s, r, input, m, k);
        lemma_after(one, other, input, k);
        assert(k + 1 == i);
    } else {
        assert(off1 == 0 && off2 == 0);
        assert(v == 0) by (nonlinear_arith)
            requires
                v == (u + a2) * (off1 * off1 + off2 * off2) + 2 * (a1 * (off1 * off2)),
                off1 == 0,
                off2 == 0,
        ;
        assert((u + a2) * (so_far * so_far) >= 0) by (nonlinear_arith)
            requires
                u + a2 > 0,
        ;
    }
    lemma_energy_step(u, a1, a2, off1, off2, off, so_far, more);
}

/// The coefficients stay, and the two filters see the same samples.
proof fn lemma_after(one: Biquad, other: Biquad, input: Seq<Single>, i: nat)
    requires
        one.x1 == other.x1,
        one.x2 == other.x2,
    ensures
        ({
            let (a, b) = (one.after(input, i), other.after(input, i));
            &&& a.x1 == b.x1 && a.x2 == b.x2
            &&& a == (Biquad { x1: a.x1, x2: a.x2, y1: a.y1, y2: a.y2, ..one })
            &&& b == (Biquad { x1: b.x1, x2: b.x2, y1: b.y1, y2: b.y2, ..other })
        }),
    decreases i,
{
    if i > 0 {
        lemma_after(one, other, input, (i - 1) as nat);
    }
}

} // verus!
