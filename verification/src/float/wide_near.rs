//! 64-bit numbers as real numbers: how far the result of an operation is from the exact one.
use super::double::{wide, Double};
use super::encoding::Format;
use super::facts::size;
use super::order::lemma_representable;
use super::reals::{lemma_bounded_product, lemma_real_product};
use super::roots::lemma_root_units;
use super::wide::{
    lemma_wide_add, lemma_wide_constants, lemma_wide_div, lemma_wide_mul, lemma_wide_negated,
    wide_unit,
};
use vstd::arithmetic::power2::{lemma2_to64, lemma2_to64_rest, lemma_pow2_adds};
use vstd::prelude::*;

verus! {

impl Double {
    /// The number itself.
    pub open spec fn amount(self) -> real {
        self.value() as real / wide_unit() as real
    }
}

/// Whether a bound is neither so small that the least numbers matter nor so large that a result
/// runs over.
pub open spec fn wide_sizable(m: real) -> bool {
    1real / 1152921504606846976real <= m <= 1152921504606846976real
}

/// Whether a number is no further from `r` than `k` parts in 2^52 of `m`, and `r` no further from
/// zero than `m`.
pub open spec fn wide_near(x: Double, r: real, k: real, m: real) -> bool {
    &&& x.is_finite()
    &&& -m <= r <= m
    &&& -(k * m) <= 4503599627370496real * (x.amount() - r) <= k * m
}

/// What a number is in units of the least one.
pub proof fn lemma_wide_amount(x: Double)
    ensures
        wide_unit() as real > 0real,
        x.amount() * (wide_unit() as real) == x.value() as real,
{
    lemma_wide_constants();
    let (v, u) = (x.value() as real, wide_unit() as real);
    assert((v / u) * u == v) by (nonlinear_arith)
        requires
            u > 0real,
    ;
}

/// Numbers are ordered as their units.
pub proof fn lemma_wide_amount_order(x: Double, y: Double)
    ensures
        x.value() <= y.value() <==> x.amount() <= y.amount(),
        x.value() == y.value() <==> x.amount() == y.amount(),
{
    lemma_wide_amount(x);
    lemma_wide_amount(y);
    let (a, b, u) = (x.amount(), y.amount(), wide_unit() as real);
    assert(a <= b <==> a * u <= b * u) by (nonlinear_arith)
        requires
            u > 0real,
    ;
    assert(b <= a <==> b * u <= a * u) by (nonlinear_arith)
        requires
            u > 0real,
    ;
}

/// A number that is `fraction` of `weight` parts of one.
pub proof fn lemma_wide_ratio(x: Double, weight: int, fraction: int)
    requires
        weight > 0,
        x.value() * weight == fraction * wide_unit(),
    ensures
        x.amount() * (weight as real) == fraction as real,
{
    lemma_wide_amount(x);
    let (a, u) = (x.amount(), wide_unit() as real);
    let (v, w, f) = (x.value() as real, weight as real, fraction as real);
    lemma_real_product(x.value(), weight);
    lemma_real_product(fraction, wide_unit());
    assert(a * w == f) by (nonlinear_arith)
        requires
            a * u == v,
            v * w == f * u,
            u > 0real,
    ;
}

/// A number is near itself.
pub proof fn lemma_wide_near_self(x: Double, m: real)
    requires
        x.is_finite(),
        -m <= x.amount() <= m,
    ensures
        wide_near(x, x.amount(), 0real, m),
{
    assert(0real * m == 0real) by (nonlinear_arith);
}

/// What is near is as near within wider bounds.
pub proof fn lemma_wide_near_wider(x: Double, r: real, k: real, m: real, l: real, n: real)
    requires
        wide_near(x, r, k, m),
        0real <= k <= l,
        m <= n,
    ensures
        wide_near(x, r, l, n),
{
    assert(k * m <= l * n) by (nonlinear_arith)
        requires
            0real <= k <= l,
            0real <= m <= n,
    ;
}

/// The sum of numbers that are near others.
pub proof fn lemma_wide_near_add(x: Double, a: real, m: real, y: Double, b: real, n: real, k: real)
    requires
        wide_near(x, a, k, m),
        wide_near(y, b, k, n),
        0real <= k <= 4503599627370496real,
        m <= 1152921504606846976real,
        n <= 1152921504606846976real,
    ensures
        wide_near(x + y, a + b, k + 2real, m + n),
{
    lemma_wide_amount(x);
    lemma_wide_amount(y);
    let top = lemma_wide_top();
    let u = wide_unit() as real;
    let (v, w) = (x.amount(), y.amount());
    let s = x.value() + y.value();
    let big = m + n;
    let h = 4503599627370496real;
    assert(k * m <= h * m && k * n <= h * n && k * big == k * m + k * n && (k + 2real) * big == k
        * big + 2real * big) by (nonlinear_arith)
        requires
            0real <= k <= h,
            0real <= m,
            0real <= n,
            big == m + n,
    ;
    assert(-(2real * big) <= v + w <= 2real * big);
    let t = s as real;
    assert(t == (v + w) * u) by (nonlinear_arith)
        requires
            v * u == x.value() as real,
            w * u == y.value() as real,
            t == x.value() as real + y.value() as real,
    ;
    let c = 1180591620717411303424real;
    assert(-(c * u) <= t <= c * u) by (nonlinear_arith)
        requires
            t == (v + w) * u,
            -c <= v + w <= c,
            u > 0real,
    ;
    assert(size(s) <= top.value());
    lemma_wide_add(x, y, top);
    lemma_wide_amount(x + y);
    let r = (x + y).amount();
    let d = ((x + y).value() - s) as real;
    assert(d == (r - (v + w)) * u) by (nonlinear_arith)
        requires
            d == (x + y).value() as real - t,
            r * u == (x + y).value() as real,
            t == (v + w) * u,
    ;
    assert(-(2real * big) <= h * (r - (v + w)) <= 2real * big) by (nonlinear_arith)
        requires
            d == (r - (v + w)) * u,
            t == (v + w) * u,
            h * d <= t || h * d <= -t,
            -(h * d) <= t || -(h * d) <= -t,
            -(2real * big) <= v + w <= 2real * big,
            u > 0real,
    ;
}

/// The difference of numbers that are near others.
pub proof fn lemma_wide_near_sub(x: Double, a: real, m: real, y: Double, b: real, n: real, k: real)
    requires
        wide_near(x, a, k, m),
        wide_near(y, b, k, n),
        0real <= k <= 4503599627370496real,
        m <= 1152921504606846976real,
        n <= 1152921504606846976real,
    ensures
        wide_near(x - y, a - b, k + 2real, m + n),
{
    lemma_wide_negated(y);
    lemma_wide_amount(y);
    lemma_wide_amount(y.negated());
    let (v, w, u) = (y.amount(), y.negated().amount(), wide_unit() as real);
    assert(w == -v) by (nonlinear_arith)
        requires
            w * u == -(v * u),
            u > 0real,
    ;
    lemma_wide_near_add(x, a, m, y.negated(), -b, n, k);
}

/// The product of numbers that are near others.
pub proof fn lemma_wide_near_mul(
    x: Double,
    a: real,
    k: real,
    m: real,
    y: Double,
    b: real,
    l: real,
    n: real,
)
    requires
        wide_near(x, a, k, m),
        wide_near(y, b, l, n),
        0real <= k <= 1024real,
        0real <= l <= 1024real,
        wide_sizable(m * n),
    ensures
        wide_near(x * y, a * b, k + l + 3real, m * n),
{
    lemma_wide_amount(x);
    lemma_wide_amount(y);
    let top = lemma_wide_top();
    let u = wide_unit() as real;
    let (v, w) = (x.amount(), y.amount());
    let (e, g) = (v - a, w - b);
    let h = 4503599627370496real;
    let (big, km, ln) = (m * n, k * m, l * n);
    assert(km <= 1024real * m && ln <= 1024real * n) by (nonlinear_arith)
        requires
            km == k * m,
            ln == l * n,
            k <= 1024real,
            l <= 1024real,
            0real <= m,
            0real <= n,
    ;
    // What the factors are off comes to little.
    let (ag, be, eg) = (a * g, b * e, e * g);
    lemma_bounded_product(a, h * g, m, ln);
    lemma_bounded_product(b, h * e, n, km);
    lemma_bounded_product(h * e, h * g, km, ln);
    let (kbig, lbig) = (k * big, l * big);
    assert(m * ln == lbig && n * km == kbig && km * ln <= (1024real * 1024real) * big)
        by (nonlinear_arith)
        requires
            km == k * m,
            ln == l * n,
            big == m * n,
            lbig == l * big,
            kbig == k * big,
            0real <= k <= 1024real,
            0real <= l <= 1024real,
            0real <= m,
            0real <= n,
    ;
    assert(a * (h * g) == h * ag && b * (h * e) == h * be && (h * e) * (h * g) == (h * h) * eg)
        by (nonlinear_arith)
        requires
            ag == a * g,
            be == b * e,
            eg == e * g,
    ;
    let vw = v * w;
    assert(vw == a * b + ag + be + eg) by (nonlinear_arith)
        requires
            vw == v * w,
            e == v - a,
            g == w - b,
            ag == a * g,
            be == b * e,
            eg == e * g,
    ;
    lemma_bounded_product(a, b, m, n);
    assert(kbig <= 1024real * big && lbig <= 1024real * big) by (nonlinear_arith)
        requires
            kbig == k * big,
            lbig == l * big,
            0real <= k <= 1024real,
            0real <= l <= 1024real,
            big >= 0real,
    ;
    assert(-(big / 4real) <= h * eg <= big / 4real);
    assert(-(2real * big) <= vw <= 2real * big);
    let s = x.value() * y.value();
    lemma_real_product(x.value(), y.value());
    let t = s as real;
    assert(t == (vw * u) * u) by (nonlinear_arith)
        requires
            v * u == x.value() as real,
            w * u == y.value() as real,
            t == (x.value() as real) * (y.value() as real),
            vw == v * w,
    ;
    let c = 1180591620717411303424real;
    lemma_real_product(top.value(), wide_unit());
    assert(-((c * u) * u) <= t <= (c * u) * u) by (nonlinear_arith)
        requires
            t == (vw * u) * u,
            -c <= vw <= c,
            u > 0real,
    ;
    assert((top.value() * wide_unit()) as real == (c * u) * u);
    assert(size(s) <= top.value() * wide_unit());
    lemma_wide_mul(x, y, top);
    lemma_wide_amount(x * y);
    let r = (x * y).amount();
    let z = (x * y).value();
    lemma_real_product(z, wide_unit());
    let d = (z * wide_unit() - s) as real;
    assert(d == ((r - vw) * u) * u) by (nonlinear_arith)
        requires
            d == (z as real) * u - t,
            r * u == z as real,
            t == (vw * u) * u,
    ;
    let few = 4503599627370497real;
    assert(few <= (big / 4real) * u) by (nonlinear_arith)
        requires
            few <= (1real / 4611686018427387904real) * u,
            1real / 4611686018427387904real <= big / 4real,
            u > 0real,
    ;
    assert(-(2real * big + big / 4real) <= h * (r - vw) <= 2real * big + big / 4real)
        by (nonlinear_arith)
        requires
            d == ((r - vw) * u) * u,
            t == (vw * u) * u,
            h * d <= t + few * u || h * d <= -t + few * u,
            -(h * d) <= t + few * u || -(h * d) <= -t + few * u,
            -(2real * big) <= vw <= 2real * big,
            few <= (big / 4real) * u,
            u > 0real,
    ;
    assert((k + l + 3real) * big == kbig + lbig + 3real * big) by (nonlinear_arith)
        requires
            kbig == k * big,
            lbig == l * big,
    ;
}

/// The quotient of numbers that are near others, the divisor being no less than `d`.
pub proof fn lemma_wide_near_div(
    x: Double,
    a: real,
    k: real,
    m: real,
    y: Double,
    b: real,
    l: real,
    n: real,
    d: real,
    c: real,
)
    requires
        wide_near(x, a, k, m),
        wide_near(y, b, l, n),
        0real < d <= b,
        0real <= k <= 1024real,
        0real <= l,
        l * n <= c * d,
        0real <= c <= 1024real,
        wide_sizable(m / d),
    ensures
        wide_near(x / y, a / b, 2real * k + 2real * c + 3real, m / d),
{
    lemma_wide_amount(x);
    lemma_wide_amount(y);
    let top = lemma_wide_top();
    let u = wide_unit() as real;
    let (v, w) = (x.amount(), y.amount());
    let h = 4503599627370496real;
    let q = m / d;
    assert(q * d == m) by (nonlinear_arith)
        requires
            q == m / d,
            d > 0real,
    ;
    let (km, cd) = (k * m, c * d);
    assert(km <= 1024real * m && cd <= 1024real * d && cd >= 0real) by (nonlinear_arith)
        requires
            km == k * m,
            cd == c * d,
            0real <= k <= 1024real,
            0real <= c <= 1024real,
            m >= 0real,
            d > 0real,
    ;
    assert(-cd <= h * (w - b) <= cd);
    assert(8real * w >= 7real * b);
    let (g, z) = (a / b, v / w);
    assert(g * b == a && z * w == v) by (nonlinear_arith)
        requires
            g == a / b,
            z == v / w,
            b > 0real,
            w > 0real,
    ;
    assert(-q <= g <= q) by (nonlinear_arith)
        requires
            g * b == a,
            -m <= a <= m,
            q * d == m,
            0real < d <= b,
    ;
    // How far the exact quotients are apart.
    let (e, f) = (v - a, w - b);
    assert((z - g) * w == e - g * f) by (nonlinear_arith)
        requires
            z * w == v,
            g * b == a,
            e == v - a,
            f == w - b,
    ;
    lemma_bounded_product(g, h * f, q, cd);
    let (kq, cq, gf) = (k * q, c * q, g * f);
    assert(g * (h * f) == h * gf && q * cd == cq * d && km == kq * d) by (nonlinear_arith)
        requires
            gf == g * f,
            cd == c * d,
            cq == c * q,
            kq == k * q,
            km == k * m,
            q * d == m,
    ;
    assert(0real <= kq <= 1024real * q && 0real <= cq <= 1024real * q) by (nonlinear_arith)
        requires
            kq == k * q,
            cq == c * q,
            0real <= k <= 1024real,
            0real <= c <= 1024real,
            q >= 0real,
    ;
    let (o, sum) = (z - g, kq + cq);
    assert(-(sum * d) <= h * (o * w) <= sum * d) by {
        assert(sum * d == kq * d + cq * d) by (nonlinear_arith)
            requires
                sum == kq + cq,
        ;
    }
    assert(-(8real * sum) <= 7real * (h * o) <= 8real * sum) by (nonlinear_arith)
        requires
            -(sum * d) <= h * (o * w) <= sum * d,
            8real * w >= 7real * d,
            d > 0real,
            sum >= 0real,
    ;
    assert(-(2real * q) <= z <= 2real * q);
    // How far rounding takes it.
    let s = x.value() * wide_unit();
    lemma_real_product(x.value(), wide_unit());
    let yv = y.value() as real;
    assert(yv > 0real && s as real == (z * u) * yv) by (nonlinear_arith)
        requires
            yv == w * u,
            w > 0real,
            u > 0real,
            s as real == (x.value() as real) * u,
            v * u == x.value() as real,
            z * w == v,
    ;
    let t = s as real;
    let big = 1180591620717411303424real;
    lemma_real_product(top.value(), y.value());
    let (zu, bu) = (z * u, big * u);
    assert(-bu <= zu <= bu) by (nonlinear_arith)
        requires
            zu == z * u,
            bu == big * u,
            -big <= z <= big,
            u > 0real,
    ;
    assert(-(bu * yv) <= t <= bu * yv) by (nonlinear_arith)
        requires
            t == zu * yv,
            -bu <= zu <= bu,
            yv > 0real,
    ;
    assert(size(s) <= top.value() * y.value());
    lemma_wide_div(x, y, top);
    lemma_wide_amount(x / y);
    let r = (x / y).amount();
    let rv = (x / y).value();
    lemma_real_product(rv, y.value());
    let off = (rv * y.value() - s) as real;
    let ru = r * u;
    assert(off == (ru - zu) * yv) by (nonlinear_arith)
        requires
            off == (rv as real) * yv - t,
            ru == rv as real,
            t == zu * yv,
    ;
    let few = 4503599627370497real;
    assert(few <= (q / 4real) * u) by (nonlinear_arith)
        requires
            few <= (1real / 4611686018427387904real) * u,
            1real / 4611686018427387904real <= q / 4real,
            u > 0real,
    ;
    let size_zu = if zu < 0real { -zu } else { zu };
    assert(-(size_zu + few) <= h * (ru - zu) <= size_zu + few) by (nonlinear_arith)
        requires
            off == (ru - zu) * yv,
            t == zu * yv,
            h * off <= t + few * yv || h * off <= -t + few * yv,
            -(h * off) <= t + few * yv || -(h * off) <= -t + few * yv,
            size_zu == (if zu < 0real { -zu } else { zu }),
            yv > 0real,
    ;
    assert(-(2real * q + q / 4real) <= h * (r - z) <= 2real * q + q / 4real) by (nonlinear_arith)
        requires
            -(size_zu + few) <= h * (ru - zu) <= size_zu + few,
            size_zu == (if zu < 0real { -zu } else { zu }),
            zu == z * u,
            ru == r * u,
            -(2real * q) <= z <= 2real * q,
            few <= (q / 4real) * u,
            u > 0real,
    ;
    assert((2real * k + 2real * c + 3real) * q == 2real * kq + 2real * cq + 3real * q)
        by (nonlinear_arith)
        requires
            kq == k * q,
            cq == c * q,
    ;
}

/// The square root of a number that is not negative.
pub proof fn lemma_wide_root(x: Double)
    requires
        x.is_finite(),
        x.value() >= 0,
    ensures
        x.sqrt().is_finite(),
        x.sqrt().amount() >= 0real,
        x.value() > 0 ==> x.sqrt().amount() > 0real,
        ({
            let (r, a) = (x.sqrt().amount(), x.amount());
            -a <= 4503599627370496real * (r * r - a) <= a
        }),
{
    reveal(Double::sqrt_spec);
    lemma_root_units(Format::Double, x.bits as int);
    lemma_wide_amount(x);
    lemma_wide_amount(x.sqrt());
    let (r, a, u) = (x.sqrt().amount(), x.amount(), wide_unit() as real);
    let (rv, v) = (x.sqrt().value(), x.value());
    lemma_real_product(rv, rv);
    lemma_real_product(v, wide_unit());
    let (s, t) = ((rv * rv) as real, (v * wide_unit()) as real);
    let h = 4503599627370496real;
    assert(-t <= h * (s - t) <= t);
    assert(s == (r * r) * (u * u) && t == a * (u * u)) by (nonlinear_arith)
        requires
            s == (rv as real) * (rv as real),
            t == (v as real) * u,
            r * u == rv as real,
            a * u == v as real,
    ;
    let (rr, uu) = (r * r, u * u);
    assert(uu > 0real) by (nonlinear_arith)
        requires
            uu == u * u,
            u > 0real,
    ;
    assert(-a <= h * (rr - a) <= a) by (nonlinear_arith)
        requires
            -(a * uu) <= h * (rr * uu - a * uu) <= a * uu,
            uu > 0real,
    ;
    assert(r >= 0real && (rv > 0 ==> r > 0real)) by (nonlinear_arith)
        requires
            r * u == rv as real,
            rv >= 0,
            u > 0real,
    ;
}

/// A number that no result gets to.
proof fn lemma_wide_top() -> (top: Double)
    ensures
        top.is_finite(),
        top.value() == 1180591620717411303424 * wide_unit(),
        top.value() as real == 1180591620717411303424real * (wide_unit() as real),
        4503599627370497real <= (1real / 4611686018427387904real) * (wide_unit() as real),
{
    lemma_wide_constants();
    lemma2_to64();
    lemma2_to64_rest();
    lemma_pow2_adds(6, 64);
    lemma_pow2_adds(70, 1074);
    let bits = lemma_representable(Format::Double, 1, 70);
    let top = wide(bits as u64);
    lemma_real_product(1180591620717411303424, wide_unit());
    top
}

} // verus!
