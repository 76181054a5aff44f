//! Filters with nearly the same coefficients: what the two make of a signal is nearly the same.
//!
//! As for filters that complement each other, the bounds are in parts of 2^52.
use crate::biquad::Biquad;
use crate::complement::{audible, law_response_close, lemma_size_adds};
use crate::float::double::Double;
use crate::float::facts::size;
use crate::float::wide::{lemma_wide_constants, wide_unit};
use vstd::arithmetic::div_mod::lemma_fundamental_div_mod;
use vstd::prelude::*;

verus! {

/// Whether two coefficients are no further apart than `e` parts in 2^52 of one.
pub open spec fn near(a: Double, b: Double, e: int) -> bool {
    0x10_0000_0000_0000 * size(a.value() - b.value()) <= e * wide_unit()
}

/// Whether two filters have coefficients that are no further apart than `e` parts in 2^52 of one.
pub open spec fn nearly_tuned(f: Biquad, g: Biquad, e: int) -> bool {
    &&& near(f.b0, g.b0, e)
    &&& near(f.b1, g.b1, e)
    &&& near(f.b2, g.b2, e)
    &&& near(f.a1, g.a1, e)
    &&& near(f.a2, g.a2, e)
}

/// How much comes new at a sample between two filters with coefficients of no more than `c` that
/// are no further apart than `e` parts in 2^52.
pub open spec fn fresh(c: int, e: int) -> int {
    38 * c + 50 + 5 * e
}

/// Two filters that have seen the same samples, their coefficients no further apart than `e` parts
/// in 2^52, make nearly the same of one more sample: off by what their last results were off, as
/// the feedback carries it on, and by no more than `38 c + 50 + 5 e` parts in 2^52 of the loudest
/// sample, `c` being what no coefficient is above.
pub proof fn law_near_filters_step(
    f: Biquad,
    g: Biquad,
    x: Double,
    c: int,
    m: int,
    e: int,
)
    requires
        audible(m),
        e >= 0,
        0 <= c <= 0x1000,
        f.tame(c),
        g.tame(c),
        nearly_tuned(f, g, e),
        f.x1 == g.x1,
        f.x2 == g.x2,
        f.bounded(m),
        g.bounded(m),
        x.is_finite(),
        size(x.value()) <= m,
    ensures
        f.response(x).is_finite(),
        g.response(x).is_finite(),
        ({
            let off = f.response(x).value() - g.response(x).value();
            let off1 = f.y1.value() - g.y1.value();
            let off2 = f.y2.value() - g.y2.value();
            0x10_0000_0000_0000 * size(
                off * wide_unit() + f.a1.value() * off1 + f.a2.value() * off2,
            ) <= fresh(c, e) * (m * wide_unit())
        }),
{
    lemma_wide_constants();
    law_response_close(f, x, c, m);
    law_response_close(g, x, c, m);
    let u = wide_unit();
    let mu = m * u;
    let (y, z, v) = (f.response(x).value(), g.response(x).value(), x.value());
    let (x1, x2, y1, y2, z1, z2) = (
        f.x1.value(),
        f.x2.value(),
        f.y1.value(),
        f.y2.value(),
        g.y1.value(),
        g.y2.value(),
    );
    let (t0, t1, t2) = (
        (f.b0.value() - g.b0.value()) * v,
        (f.b1.value() - g.b1.value()) * x1,
        (f.b2.value() - g.b2.value()) * x2,
    );
    let (t3, t4) = ((f.a1.value() - g.a1.value()) * z1, (f.a2.value() - g.a2.value()) * z2);
    let (off, off1, off2) = (y - z, y1 - z1, y2 - z2);
    let (f1, f2) = (f.a1.value() * off1, f.a2.value() * off2);
    let (r, s) = (f.exact_response(x), g.exact_response(x));
    lemma_exact_apart(f, g, x);
    lemma_small_part(f.b0, g.b0, v, m, e);
    lemma_small_part(f.b1, g.b1, x1, m, e);
    lemma_small_part(f.b2, g.b2, x2, m, e);
    lemma_small_part(f.a1, g.a1, z1, m, e);
    lemma_small_part(f.a2, g.a2, z2, m, e);
    let (ey, ez) = (y * u - r, z * u - s);
    assert(off * u == ey - ez + (r - s)) by (nonlinear_arith)
        requires
            off == y - z,
            ey == y * u - r,
            ez == z * u - s,
    ;
    let em = e * mu;
    let each = (19 * c + 25) * mu;
    lemma_seven(ey, -ez, t0, t1, t2, -t3, -t4, each, em);
    assert(fresh(c, e) * mu == 2 * each + 5 * em) by (nonlinear_arith)
        requires
            em == e * mu,
            each == (19 * c + 25) * mu,
            fresh(c, e) == 38 * c + 50 + 5 * e,
    ;
}

/// How far the exact results of two filters that have seen the same samples are apart.
proof fn lemma_exact_apart(f: Biquad, g: Biquad, x: Double)
    requires
        f.x1 == g.x1,
        f.x2 == g.x2,
    ensures
        f.exact_response(x) - g.exact_response(x) == (f.b0.value() - g.b0.value()) * x.value() + (
        f.b1.value() - g.b1.value()) * f.x1.value() + (f.b2.value() - g.b2.value()) * f.x2.value()
            - (f.a1.value() - g.a1.value()) * g.y1.value() - (f.a2.value() - g.a2.value())
            * g.y2.value() - f.a1.value() * (f.y1.value() - g.y1.value()) - f.a2.value() * (
        f.y2.value() - g.y2.value()),
{
    lemma_parted(f.b0.value(), g.b0.value(), x.value(), x.value());
    lemma_parted(f.b1.value(), g.b1.value(), f.x1.value(), f.x1.value());
    lemma_parted(f.b2.value(), g.b2.value(), f.x2.value(), f.x2.value());
    lemma_parted(f.a1.value(), g.a1.value(), f.y1.value(), g.y1.value());
    lemma_parted(f.a2.value(), g.a2.value(), f.y2.value(), g.y2.value());
}

/// A sum of bounded parts.
proof fn lemma_seven(
    y: int,
    z: int,
    a: int,
    b: int,
    c: int,
    d: int,
    e: int,
    first: int,
    each: int,
)
    requires
        0x10_0000_0000_0000 * size(y) <= first,
        0x10_0000_0000_0000 * size(z) <= first,
        0x10_0000_0000_0000 * size(a) <= each,
        0x10_0000_0000_0000 * size(b) <= each,
        0x10_0000_0000_0000 * size(c) <= each,
        0x10_0000_0000_0000 * size(d) <= each,
        0x10_0000_0000_0000 * size(e) <= each,
    ensures
        0x10_0000_0000_0000 * size(y + z + a + b + c + d + e) <= 2 * first + 5 * each,
{
    lemma_size_adds(y, z);
    lemma_size_adds(y + z, a);
    lemma_size_adds(y + z + a, b);
    lemma_size_adds(y + z + a + b, c);
    lemma_size_adds(y + z + a + b + c, d);
    lemma_size_adds(y + z + a + b + c + d, e);
}

/// The difference of two products.
proof fn lemma_parted(a: int, b: int, x: int, y: int)
    ensures
        a * x - b * y == (a - b) * y + a * (x - y),
{
    assert(a * x - b * y == (a - b) * y + a * (x - y)) by (nonlinear_arith);
    assert(a * (x - x) == 0) by (nonlinear_arith);
}

/// What two coefficients are apart, times a sample.
proof fn lemma_small_part(a: Double, b: Double, x: int, m: int, e: int)
    requires
        near(a, b, e),
        size(x) <= m,
    ensures
        0x10_0000_0000_0000 * size((a.value() - b.value()) * x) <= e * (m * wide_unit()),
{
    let (u, k) = (wide_unit(), a.value() - b.value());
    let (p, q) = (size(k), size(x));
    assert(size(k * x) == p * q) by (nonlinear_arith)
        requires
            p == size(k),
            q == size(x),
    ;
    assert(0x10_0000_0000_0000 * (p * q) <= e * (m * u)) by (nonlinear_arith)
        requires
            0x10_0000_0000_0000 * p <= e * u,
            0 <= p,
            0 <= q <= m,
    ;
}

/// How far the results of two filters can be apart, in parts of 2^52, after one more sample, `off1`
/// and `off2` being how far the last two were: the feedback carries those on, and `more` comes new.
pub open spec fn carried(filter: Biquad, off1: int, off2: int, more: int) -> int {
    (size(filter.a1.value()) * off1 + size(filter.a2.value()) * off2) / wide_unit() + 1 + more
}

/// What is carried on bounds what a step makes of it.
pub proof fn lemma_carried(
    filter: Biquad,
    off: int,
    off1: int,
    off2: int,
    b1: int,
    b2: int,
    more: int,
)
    requires
        0x10_0000_0000_0000 * size(off1) <= b1,
        0x10_0000_0000_0000 * size(off2) <= b2,
        0x10_0000_0000_0000 * size(
            off * wide_unit() + filter.a1.value() * off1 + filter.a2.value() * off2,
        ) <= more * wide_unit(),
    ensures
        0x10_0000_0000_0000 * size(off) <= carried(filter, b1, b2, more),
{
    lemma_wide_constants();
    let u = wide_unit();
    let h = 0x10_0000_0000_0000int;
    let (a1, a2) = (filter.a1.value(), filter.a2.value());
    let (f1, f2) = (a1 * off1, a2 * off2);
    let (g1, g2) = (size(a1) * b1, size(a2) * b2);
    assert(h * size(f1) <= g1 && h * size(f2) <= g2) by (nonlinear_arith)
        requires
            f1 == a1 * off1,
            f2 == a2 * off2,
            g1 == size(a1) * b1,
            g2 == size(a2) * b2,
            h * size(off1) <= b1,
            h * size(off2) <= b2,
            h > 0,
    ;
    let ou = off * u;
    lemma_size_adds(ou + f1 + f2, -f1);
    lemma_size_adds(ou + f2, -f2);
    let all = g1 + g2;
    lemma_fundamental_div_mod(all, u);
    let q = all / u;
    assert(size(ou) == size(off) * u) by (nonlinear_arith)
        requires
            ou == off * u,
            u > 0,
    ;
    assert(h * size(off) <= q + 1 + more) by (nonlinear_arith)
        requires
            h * (size(off) * u) <= all + more * u,
            all == u * q + all % u,
            0 <= all % u < u,
            u > 0,
    ;
}

} // verus!
