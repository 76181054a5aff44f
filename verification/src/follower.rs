//! One-pole followers with a time constant.
use crate::float::encoding::Format;
use crate::float::facts::{
    lemma_constants, lemma_difference_close, lemma_mul, lemma_negated, lemma_opposite_add,
    lemma_opposite_mul, lemma_scaled, lemma_shrunk, lemma_sub, lemma_twice_negated,
    lemma_unit_positive, lemma_within, unit, within,
};
use crate::float::order::{lemma_fields, lemma_parts, lemma_sum_below, lemma_zero};
use crate::float::single::{num, Single};
use crate::modulation::ONE;
use vstd::arithmetic::div_mod::lemma_fundamental_div_mod;
use vstd::arithmetic::power2::{
    lemma2_to64, lemma2_to64_rest, lemma_pow2_adds, lemma_pow2_pos, lemma_pow2_strictly_increases,
    lemma_pow2_unfold, pow2,
};
use vstd::prelude::*;

verus! {

/// The number whose powers are the coefficients, 1/e.
pub const INV_E: u32 = 0x3ebc_5ab2;

pub open spec fn attack_release_coeff_spec(value_s: Single, power: Single) -> Single {
    if value_s.le(num(0)) { num(0) } else { power }
}

/// The coefficient of a follower for a time constant, `power` being `INV_E` to the power of the
/// length of a sample over that time. No time at all means no memory.
#[verifier::when_used_as_spec(attack_release_coeff_spec)]
pub fn attack_release_coeff(value_s: Single, power: Single) -> (r: Single)
    ensures
        r == attack_release_coeff_spec(value_s, power),
{
    if value_s.le(num(0)) { num(0) } else { power }
}

pub open spec fn eased_spec(last: Single, target: Single, co: Single) -> Single {
    co * last + (num(ONE) - co) * target
}

/// The value after a sample: `co` of the last one and the rest of the target.
#[verifier::when_used_as_spec(eased_spec)]
pub fn eased(last: Single, target: Single, co: Single) -> (r: Single)
    ensures
        r == eased_spec(last, target, co),
{
    co * last + (num(ONE) - co) * target
}

/// The exponents of `INV_E` for two lists of time constants, a pair per sample.
pub open spec fn exponent_pairs(
    inv_sr: Single,
    attack: Seq<Single>,
    release: Seq<Single>,
    n: nat,
) -> Seq<(Single, Single)> {
    Seq::new(n, |i: int| (inv_sr / attack[i], inv_sr / release[i]))
}

/// The exponents of `INV_E` for two lists of time constants, a pair per sample.
pub fn exponents(
    inv_sr: Single,
    attack: &Vec<Single>,
    release: &Vec<Single>,
    n: usize,
) -> (r: Vec<(Single, Single)>)
    requires
        attack@.len() >= n,
        release@.len() >= n,
    ensures
        r@ == exponent_pairs(inv_sr, attack@, release@, n as nat),
{
    let mut r: Vec<(Single, Single)> = Vec::new();
    let mut i: usize = 0;
    while i < n
        invariant
            i <= n,
            attack@.len() >= n,
            release@.len() >= n,
            r@ == exponent_pairs(inv_sr, attack@, release@, i as nat),
        decreases n - i,
    {
        r.push((inv_sr / attack[i], inv_sr / release[i]));
        i = i + 1;
    }
    r
}


/// Between two numbers from 0 to a power of two a follower stays between 0 and that power.
pub proof fn law_eased_bounded(last: Single, target: Single, co: Single, k: nat)
    requires
        last.is_finite(),
        target.is_finite(),
        0 <= last.value() <= pow2(k) * unit(),
        0 <= target.value() <= pow2(k) * unit(),
        within(co, num(0), num(ONE)),
        k <= 126,
    ensures
        eased(last, target, co).is_finite(),
        0 <= eased(last, target, co).value() <= pow2(k) * unit(),
{
    lemma_constants();
    lemma_within(co, num(0), num(ONE));
    lemma_sub(num(ONE), co, num(0), num(ONE));
    lemma_shrunk(last, co);
    lemma_shrunk(target, num(ONE) - co);
    lemma_pow2_adds(k, 149);
    lemma_unit_positive();
    lemma_eased_below(last, target, co, k + 149);
}


/// A number from 0 to 1 times a power of two, rounded up where the least number is not fine enough.
proof fn lemma_part_of_power(c: Single, j: nat) -> (r: Single)
    requires
        c.is_finite(),
        0 <= c.value() <= unit(),
        j <= 275,
    ensures
        r.is_finite(),
        c.value() * pow2(j) <= r.value() * unit() <= c.value() * pow2(j) + unit(),
{
    lemma_unit_positive();
    let f = Format::Single;
    let u = unit();
    let (negative, m, e) = lemma_parts(f, c.bits as int);
    let p = pow2((e + 149) as nat) as int;
    lemma_pow2_pos((e + 149) as nat);
    lemma_pow2_pos(j);
    if m == 0 || negative {
        assert(c.value() == 0) by (nonlinear_arith)
            requires
                c.value() == (if negative { -(m * p) } else { m * p }),
                c.value() >= 0,
                m == 0 || negative,
                p > 0,
        ;
        lemma_zero(f);
        assert(0 * pow2(j) == 0 && 0 * u == 0) by (nonlinear_arith);
        num(0)
    } else {
        if e > -23 {
            lemma_pow2_strictly_increases(149, (e + 23 + 149) as nat);
            lemma2_to64();
            lemma_pow2_adds(23, (e + 149) as nat);
            lemma_fields(f, c.bits as int);
            assert(m * p >= 0x80_0000 * p) by (nonlinear_arith)
                requires
                    m >= 0x80_0000,
                    p > 0,
            ;
        }
        let q = pow2(j) as int;
        lemma_pow2_adds((e + 149) as nat, j);
        let a = pow2((e + 149 + j) as nat) as int;
        assert((m * p) * q == m * a) by (nonlinear_arith)
            requires
                p * q == a,
        ;
        if e + j >= 0 {
            let r = lemma_scaled(m, e + j - 149);
            lemma_pow2_adds((e + j) as nat, 149);
            let b = pow2((e + j) as nat) as int;
            assert((m * b) * u == m * a) by (nonlinear_arith)
                requires
                    b * u == a,
            ;
            r
        } else {
            let d = pow2((-(e + j)) as nat) as int;
            lemma_pow2_pos((-(e + j)) as nat);
            lemma_pow2_pos((e + 149 + j) as nat);
            lemma_pow2_adds((e + 149 + j) as nat, (-(e + j)) as nat);
            let (k, rest) = (m as int / d, m as int % d);
            lemma_fundamental_div_mod(m as int, d);
            let n = if rest == 0 { k } else { k + 1 };
            assert(0 <= k && n <= m && m <= n * d < m + d) by (nonlinear_arith)
                requires
                    m == d * k + rest,
                    0 <= rest < d,
                    m >= 0,
                    n == (if rest == 0 { k } else { k + 1 }),
            ;
            let r = lemma_scaled(n as nat, -149);
            lemma2_to64();
            assert(n * u == (n * d) * a && m * a <= (n * d) * a && (n * d) * a <= m * a + u)
                by (nonlinear_arith)
                requires
                    a * d == u,
                    m <= n * d < m + d,
                    a > 0,
            ;
            assert(n * pow2(0) == n) by (nonlinear_arith)
                requires
                    pow2(0) == 1,
            ;
            r
        }
    }
}

/// A follower does not go above a power of two that neither its last value nor its target is above.
proof fn lemma_eased_below(last: Single, target: Single, co: Single, j: nat)
    requires
        last.is_finite(),
        target.is_finite(),
        last.value() <= pow2(j),
        target.value() <= pow2(j),
        within(co, num(0), num(ONE)),
        40 <= j <= 275,
        (co * last).value() + ((num(ONE) - co) * target).value() >= 0,
    ensures
        eased(last, target, co).is_finite(),
        0 <= eased(last, target, co).value() <= pow2(j),
{
    lemma_constants();
    let f = Format::Single;
    lemma_within(co, num(0), num(ONE));
    lemma_difference_close(num(ONE), co);
    let rest = num(ONE) - co;
    let (u, b) = (unit(), pow2(j) as int);
    lemma_pow2_pos(j);
    let (x, y) = (lemma_part_of_power(co, j), lemma_part_of_power(rest, j));
    let (c, w, l, t) = (co.value(), rest.value(), last.value(), target.value());
    let (xv, yv) = (x.value(), y.value());
    assert(c * l <= c * b && w * t <= w * b) by (nonlinear_arith)
        requires
            l <= b,
            t <= b,
            0 <= c,
            0 <= w,
    ;
    lemma_shrunk(last, co);
    lemma_shrunk(target, rest);
    let far = lemma_under(last);
    lemma_under_product(co, last, far, x);
    let far = lemma_under(target);
    lemma_under_product(rest, target, far, y);
    let (p, q) = (co * last, rest * target);
    // Together the parts are more than the power by less than rounding takes off.
    assert(0x200_0000 * (c * b + w * b) <= 0x200_0001 * (u * b)) by (nonlinear_arith)
        requires
            0x200_0000 * (c + w) <= 0x200_0001 * u,
            b > 0,
    ;
    assert(0x200_0000 * ((xv + yv) * u) <= (0x200_0001 * b + 0x400_0000) * u) by (nonlinear_arith)
        requires
            xv * u <= c * b + u,
            yv * u <= w * b + u,
            0x200_0000 * (c * b + w * b) <= 0x200_0001 * (u * b),
    ;
    assert(0x200_0000 * (xv + yv) <= 0x200_0001 * b + 0x400_0000) by (nonlinear_arith)
        requires
            0x200_0000 * ((xv + yv) * u) <= (0x200_0001 * b + 0x400_0000) * u,
            u > 0,
    ;
    lemma2_to64();
    lemma2_to64_rest();
    if j > 40 {
        lemma_pow2_strictly_increases(40, j);
    }
    let top = lemma_scaled(0x80_0000, j - 172);
    lemma_pow2_adds(23, (j - 23) as nat);
    let (m, e) = lemma_fields(f, top.bits as int);
    let g = pow2(e) as int;
    lemma_pow2_pos(e);
    assert(top.value() == b);
    assert(b < 0x100_0000 * g) by (nonlinear_arith)
        requires
            b == m * g,
            m < 0x100_0000,
            g > 0,
    ;
    let step = pow2((j - 23) as nat) as int;
    if e < j - 23 {
        lemma_pow2_unfold((j - 23) as nat);
        if e < j - 24 {
            lemma_pow2_strictly_increases(e, (j - 24) as nat);
        }
        assert(false);
    } else if e > j - 23 {
        lemma_pow2_strictly_increases((j - 23) as nat, e);
    }
    assert(g >= step && b == 0x80_0000 * step);
    reveal(Single::spec_add);
    lemma_sum_below(f, p.bits as int, q.bits as int, top.bits as int);
}

/// A number that another is not below.
proof fn lemma_under(x: Single) -> (r: Single)
    requires
        x.is_finite(),
    ensures
        r.is_finite(),
        r.value() <= 0,
        r.value() <= x.value(),
{
    lemma_negated(x);
    lemma_zero(Format::Single);
    if x.value() <= 0 { x } else { num(0) }
}

/// A product with a factor from 0 to 1 keeps under a number.
proof fn lemma_under_product(c: Single, x: Single, low: Single, high: Single)
    requires
        c.is_finite(),
        x.is_finite(),
        low.is_finite(),
        high.is_finite(),
        0 <= c.value() <= unit(),
        low.value() <= 0,
        low.value() <= x.value(),
        c.value() * x.value() <= high.value() * unit(),
    ensures
        (c * x).is_finite(),
        (c * x).value() <= high.value(),
{
    let (v, w, l, u) = (c.value(), x.value(), low.value(), unit());
    assert(l * u <= v * w) by (nonlinear_arith)
        requires
            0 <= v <= u,
            l <= 0,
            l <= w,
    ;
    lemma_mul(c, x, low, high);
}

/// Between a power of two below zero and one above it a follower stays there.
pub proof fn law_eased_between(last: Single, target: Single, co: Single, j: nat, k: nat)
    requires
        last.is_finite(),
        target.is_finite(),
        -pow2(j) <= last.value() <= pow2(k),
        -pow2(j) <= target.value() <= pow2(k),
        within(co, num(0), num(ONE)),
        40 <= j <= 275,
        40 <= k <= 275,
    ensures
        eased(last, target, co).is_finite(),
        -pow2(j) <= eased(last, target, co).value() <= pow2(k),
{
    lemma_constants();
    lemma_within(co, num(0), num(ONE));
    lemma_sub(num(ONE), co, num(0), num(ONE));
    let rest = num(ONE) - co;
    lemma_pow2_pos(j);
    lemma_pow2_pos(k);
    lemma_shrunk(last, co);
    lemma_shrunk(target, rest);
    let (p, q) = (co * last, rest * target);
    if p.value() + q.value() >= 0 {
        lemma_eased_below(last, target, co, k);
    } else {
        lemma_negated(last);
        lemma_negated(target);
        lemma_opposite_mul(co, last);
        lemma_opposite_mul(rest, target);
        lemma_negated(p);
        lemma_negated(q);
        lemma_eased_below(last.negated(), target.negated(), co, j);
        lemma_opposite_add(p, q);
        lemma_negated((p + q).negated());
        lemma_twice_negated(p + q);
    }
}

} // verus!
