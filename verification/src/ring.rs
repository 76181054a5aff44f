//! Positions in a circular delay line.
use crate::float::encoding;
use crate::float::encoding::Format;
use crate::float::facts::{
    law_add_commutes, lemma_abs, lemma_add, lemma_compare, lemma_constants, lemma_floor,
    lemma_from_usize, lemma_negated, lemma_remainder, lemma_same, lemma_scaled, lemma_shifted,
    lemma_sub, lemma_to_usize, lemma_unit_positive, lemma_whole, unit,
};
use crate::float::order::{
    gap, lemma_bits_order, lemma_fields, lemma_next, lemma_parts, lemma_representable,
    lemma_rounded_magnitude_order, lemma_sign_bit, lemma_sum_not_negative, lemma_zero, units,
};
use crate::float::single::{num, Single};
use vstd::arithmetic::div_mod::{
    lemma_add_mod_noop, lemma_fundamental_div_mod, lemma_fundamental_div_mod_converse,
    lemma_mod_bound, lemma_mod_twice, lemma_small_mod,
};
use vstd::arithmetic::power2::{
    lemma2_to64, lemma_pow2_adds, lemma_pow2_pos, lemma_pow2_strictly_increases, lemma_pow2_unfold,
    pow2,
};
use vstd::prelude::*;

verus! {

/// The longest line that there can be: no allocation holds more samples of four bytes each.
pub const MAX_LINE: usize = usize::MAX / 8;

/// The position `steps` after `pos` on a ring of `len` slots.
pub open spec fn ahead(pos: usize, steps: nat, len: usize) -> int {
    (pos + steps) % (len as int)
}

/// The next position on a ring of `len` slots.
pub fn advance(pos: usize, len: usize) -> (r: usize)
    requires
        pos < len,
    ensures
        r == ahead(pos, 1, len),
        r < len,
{
    proof {
        if pos + 1 == len {
            lemma_fundamental_div_mod_converse(len as int, len as int, 1, 0);
        } else {
            lemma_small_mod((pos + 1) as nat, len as nat);
        }
    }
    let next: usize = pos + 1;
    if next >= len { next - len } else { next }
}

/// Steps on a ring add up.
pub proof fn lemma_ahead_next(pos: usize, steps: nat, len: usize)
    requires
        len > 0,
    ensures
        0 <= ahead(pos, steps, len) < len,
        ahead(ahead(pos, steps, len) as usize, 1, len) == ahead(pos, steps + 1, len),
{
    lemma_mod_bound(pos + steps, len as int);
    lemma_add_mod_noop((pos + steps) as int, 1, len as int);
    lemma_add_mod_noop(
        ((pos + steps) as int) % (len as int),
        1,
        len as int,
    );
    lemma_mod_twice((pos + steps) as int, len as int);
}

/// No step leads nowhere else.
pub proof fn lemma_ahead_none(pos: usize, len: usize)
    requires
        pos < len,
    ensures
        ahead(pos, 0, len) == pos,
{
    lemma_small_mod(pos as nat, len as nat);
}

/// The position `steps` after `pos` on a ring of `len` slots.
pub fn jump(pos: usize, steps: usize, len: usize) -> (r: usize)
    requires
        pos < len,
    ensures
        r == ahead(pos, steps as nat, len),
        r < len,
{
    ((pos as u128 + steps as u128) % (len as u128)) as usize
}

/// Where a delayed sample is read: the slot at or before the position, and how far the position
/// lies beyond it.
#[derive(Clone, Copy, PartialEq, Eq, Structural)]
pub struct Tap {
    pub index: usize,
    pub frac: Single,
}

pub open spec fn behind_spec(write: usize, delay: Single, len: usize) -> Single {
    (Single::from_usize(write) - delay + Single::from_usize(len)).rem_euclid(
        Single::from_usize(len),
    )
}

/// The position `delay` samples before `write`, wrapped onto the ring.
#[verifier::when_used_as_spec(behind_spec)]
pub fn behind(write: usize, delay: Single, len: usize) -> (r: Single)
    ensures
        r == behind_spec(write, delay, len),
{
    let whole = Single::from_usize(len);
    (Single::from_usize(write) - delay + whole).rem_euclid(whole)
}

pub open spec fn tap_spec(position: Single, len: usize) -> Tap {
    Tap { index: position.floor().to_usize() % len, frac: position - position.floor() }
}

/// The tap at a position, its slot taken on the ring.
#[verifier::when_used_as_spec(tap_spec)]
pub fn tap(position: Single, len: usize) -> (r: Tap)
    requires
        len > 0,
    ensures
        r == tap_spec(position, len),
        r.index < len,
{
    let below = position.floor();
    Tap { index: below.to_usize() % len, frac: position - below }
}

/// The longest line whose positions are all whole numbers of the 32-bit format.
pub const EXACT_LINE: usize = 0x80_0000;

/// The length of a line as a number: it may be rounded, but the number before it is short of the
/// line.
pub proof fn lemma_length(len: usize)
    requires
        len > 0,
    ensures
        ({
            let l = Single::from_usize(len);
            &&& l.is_finite()
            &&& 0 < l.bits < 0x8000_0000
            &&& 0 < l.value() <= pow2(213)
            &&& units(Format::Single, l.bits - 1) < len * unit()
        }),
{
    reveal(Single::from_usize_spec);
    let f = Format::Single;
    lemma_constants();
    let u = unit();
    let top = lemma_scaled(0x80_0000, 41);
    lemma2_to64();
    lemma_pow2_adds(23, 190);
    lemma_pow2_adds(64, 149);
    assert(len * u <= top.value()) by (nonlinear_arith)
        requires
            len <= 0xffff_ffff_ffff_ffff,
            top.value() == 0x1_0000_0000_0000_0000 * u,
            u > 0,
    ;
    let n = (len as nat * encoding::power(149)) as int;
    assert(n == len * u);
    assert(encoding::power(-149) == 1);
    let d = 1nat * encoding::power(-149);
    assert(d == 1);
    assert(len * u >= u) by (nonlinear_arith)
        requires
            len >= 1,
            u > 0,
    ;
    let one = 0x3f80_0000;
    lemma_rounded_magnitude_order(f, len as nat, 1, 0, one);
    lemma_rounded_magnitude_order(f, len as nat, 1, 0, top.bits as int);
    assert(units(f, one) * d == units(f, one));
    assert(units(f, top.bits as int) * d == units(f, top.bits as int));
    let l = Single::from_usize(len);
    let bits = encoding::rounded_magnitude(f, len as nat, 1, 0);
    assert(l.bits == bits);
    lemma_bits_order(f, bits, top.bits as int);
    lemma_bits_order(f, one, bits);
    lemma_rounded_magnitude_order(f, len as nat, 1, 0, bits - 1);
    assert(units(f, bits - 1) * d == units(f, bits - 1));
}

/// Whatever the delay, the position is one on the line.
pub proof fn law_position_on_ring(write: usize, delay: Single, len: usize)
    requires
        write < len,
    ensures
        behind(write, delay, len).floor().to_usize() < len,
{
    lemma_constants();
    lemma_length(len);
    let f = Format::Single;
    let (w, l) = (Single::from_usize(write), Single::from_usize(len));
    let t = w - delay;
    let y = t + l;
    let r = y.remainder(l);
    let position = behind(write, delay, len);
    if !y.is_finite() {
        // There is nothing left of what is not finite, and so no number to cut off.
        reveal(Single::remainder_spec);
        reveal(Single::lt_spec);
        reveal(Single::floor_spec);
        reveal(Single::to_usize_spec);
        assert(f.decode(r.bits as int) is NotANumber);
        assert(!r.lt(num(0)));
        assert(position == r);
    } else {
        lemma_remainder(y, l);
        lemma_compare(r, num(0));
        if y.value() >= 0 {
            lemma_mod_bound(y.value(), l.value());
            lemma_before_end(r, len);
        } else {
            lemma_sum_terms_finite(t, l);
            let (kl, ky) = lemma_left_of_line(t, l);
            lemma_mod_bound(-y.value(), l.value());
            if r.value() < 0 {
                lemma_abs(l);
                lemma_same(l.abs(), l);
                lemma_short_of_line(y.value(), r, l, kl, ky);
                lemma_before_end(r + l, len);
            } else {
                lemma_before_end(r, len);
            }
        }
    }
}

/// What lies below the length of a line, as a number, lies in one of its slots.
proof fn lemma_before_end(r: Single, len: usize)
    requires
        len > 0,
        r.is_finite(),
        0 <= r.value() < Single::from_usize(len).value(),
    ensures
        r.floor().to_usize() < len,
{
    let f = Format::Single;
    lemma_length(len);
    let l = Single::from_usize(len);
    let (negative, _, _) = lemma_parts(f, r.bits as int);
    let m = if negative { r.bits - f.sign() } else { r.bits as int };
    lemma_sign_bit(f, m);
    lemma_bits_order(f, l.bits as int, m);
    lemma_bits_order(f, m, l.bits - 1);
    lemma_on_ring(r, len);
}

/// A finite sum has finite terms.
proof fn lemma_sum_terms_finite(x: Single, y: Single)
    requires
        (x + y).is_finite(),
        y.is_finite(),
    ensures
        x.is_finite(),
{
    reveal(Single::spec_add);
}

/// The exponent of a line's length, and the numbers at or above it: they are multiples of the
/// distance between numbers there.
proof fn lemma_multiple(x: Single, l: Single) -> (k: int)
    requires
        x.is_finite(),
        l.is_finite(),
        l.value() > 0,
        x.value() >= l.value() || -x.value() >= l.value(),
    ensures
        x.value() == k * gap(Format::Single, l.bits as int),
{
    let f = Format::Single;
    let (nx, _, _) = lemma_parts(f, x.bits as int);
    let (nl, _, _) = lemma_parts(f, l.bits as int);
    let mx = if nx { x.bits - f.sign() } else { x.bits as int };
    lemma_sign_bit(f, mx);
    assert(!nl) by {
        if nl {
            lemma_sign_bit(f, l.bits - f.sign());
        }
    }
    lemma_bits_order(f, l.bits as int, mx);
    let (m, e) = lemma_fields(f, mx);
    let (ml, el) = lemma_fields(f, l.bits as int);
    assert(el <= e) by (nonlinear_arith)
        requires
            el * f.hidden() + ml <= e * f.hidden() + m,
            m < 2 * f.hidden(),
            el > 0 ==> ml >= f.hidden(),
            f.hidden() == 0x80_0000,
    ;
    lemma_pow2_adds((e - el) as nat, el);
    let (a, b, c) = (pow2((e - el) as nat) as int, pow2(el) as int, pow2(e) as int);
    let k = if nx { -(m * a) } else { (m * a) as int };
    assert(x.value() == k * b) by (nonlinear_arith)
        requires
            c == a * b,
            x.value() == (if nx { -(m * c) } else { (m * c) as int }),
            k == (if nx { -(m * a) } else { (m * a) as int }),
    ;
    k
}

/// A length is a multiple of the distance between numbers around it, and so is a position to the
/// left of the line.
proof fn lemma_left_of_line(t: Single, l: Single) -> (k: (int, int))
    requires
        t.is_finite(),
        l.is_finite(),
        0 < l.value() <= pow2(213),
        (t + l).is_finite(),
        (t + l).value() < 0,
    ensures
        l.value() == k.0 * gap(Format::Single, l.bits as int),
        (t + l).value() == k.1 * gap(Format::Single, l.bits as int),
{
    let f = Format::Single;
    lemma_constants();
    let y = t + l;
    let s = t.value() + l.value();
    if s >= 0 {
        reveal(Single::spec_add);
        lemma_sum_not_negative(f, t.bits as int, l.bits as int);
        assert(false);
    }
    let kl = lemma_multiple(l, l);
    let kt = lemma_multiple(t, l);
    let g = gap(f, l.bits as int) as int;
    let (nl, _, _) = lemma_parts(f, l.bits as int);
    assert(!nl) by {
        if nl {
            lemma_sign_bit(f, l.bits - f.sign());
        }
    }
    let (ml, el) = lemma_fields(f, l.bits as int);
    lemma_pow2_pos(el);
    assert(el <= 213) by {
        if el > 213 {
            lemma_pow2_strictly_increases(213, el);
            assert(ml * pow2(el) > pow2(213)) by (nonlinear_arith)
                requires
                    ml >= 1,
                    pow2(el) > pow2(213),
            ;
        }
    }
    let n = -(kt + kl);
    assert(s == -(n * g)) by (nonlinear_arith)
        requires
            s == kt * g + kl * g,
            n == -(kt + kl),
    ;
    assert(n > 0) by (nonlinear_arith)
        requires
            -(n * g) < 0,
            g > 0,
    ;
    if n < 0x100_0000 {
        // The exact sum is a number of the format.
        let r = lemma_representable(f, n as nat, el as int - 149);
        lemma_sign_bit(f, r);
        let exact = num((r + f.sign()) as u32);
        assert(exact.value() == s);
        lemma_add(t, l, exact, exact);
        assert(-(n * g) == (-n) * g) by (nonlinear_arith);
        (kl, -n)
    } else {
        // It is so far away that every number there is such a multiple.
        let r = lemma_representable(f, 0x80_0000, el as int - 148);
        lemma_pow2_unfold(el + 1);
        lemma_sign_bit(f, r);
        let bound = num((r + f.sign()) as u32);
        assert(bound.value() == -(0x100_0000 * g));
        assert(s <= bound.value()) by (nonlinear_arith)
            requires
                s == -(n * g),
                n >= 0x100_0000,
                bound.value() == -(0x100_0000 * g),
                g > 0,
        ;
        lemma_add(t, l, t, bound);
        assert(l.value() < 0x100_0000 * g) by (nonlinear_arith)
            requires
                l.value() == ml * g,
                ml < 0x100_0000,
                g > 0,
        ;
        let k = lemma_multiple(y, l);
        (kl, k)
    }
}

/// What is left of a position to the left of the line falls short of the line by at least the
/// distance between numbers there, so that adding the line does not reach its end.
proof fn lemma_short_of_line(y: int, r: Single, l: Single, kl: int, ky: int)
    requires
        r.is_finite(),
        l.is_finite(),
        r.value() == -((-y) % l.value()),
        r.value() < 0 < l.value(),
        y < 0,
        l.value() == kl * gap(Format::Single, l.bits as int),
        y == ky * gap(Format::Single, l.bits as int),
    ensures
        (r + l).is_finite(),
        0 <= (r + l).value() < l.value(),
{
    let f = Format::Single;
    lemma_constants();
    let g = gap(f, l.bits as int) as int;
    let (nl, _, _) = lemma_parts(f, l.bits as int);
    assert(!nl) by {
        if nl {
            lemma_sign_bit(f, l.bits - f.sign());
        }
    }
    let (ml, el) = lemma_fields(f, l.bits as int);
    lemma_pow2_pos(el);
    let n = -ky;
    assert(kl > 0 && n > 0 && -y == n * g) by (nonlinear_arith)
        requires
            kl * g > 0,
            ky * g < 0,
            g > 0,
            n == -ky,
            y == ky * g,
    ;
    // What is left is a multiple of that distance too.
    let (q, j) = (n / kl, n % kl);
    lemma_fundamental_div_mod(n, kl);
    assert(n * g == q * (kl * g) + j * g && 0 <= j * g < kl * g) by (nonlinear_arith)
        requires
            n == kl * q + j,
            0 <= j < kl,
            g > 0,
    ;
    lemma_fundamental_div_mod_converse(n * g, kl * g, q, j * g);
    assert(j * g >= g) by (nonlinear_arith)
        requires
            j * g > 0,
            g > 0,
    ;
    let p = l.bits as int - 1;
    lemma_zero(f);
    lemma_bits_order(f, l.bits as int, 0);
    lemma_next(f, p);
    lemma_bits_order(f, p, l.bits as int);
    lemma_bits_order(f, l.bits as int, p);
    assert(gap(f, p) <= g) by {
        let (mp, ep) = lemma_fields(f, p);
        assert(ep <= el) by (nonlinear_arith)
            requires
                ep * f.hidden() + mp + 1 == el * f.hidden() + ml,
                ml < 2 * f.hidden(),
                ep > 0 ==> mp >= f.hidden(),
                f.hidden() == 0x80_0000,
        ;
        if ep < el {
            lemma_pow2_strictly_increases(ep, el);
        }
    }
    lemma_add(r, l, num(0), num(p as u32));
}

/// What lies below the length of a line lies in one of its slots.
proof fn lemma_on_ring(r: Single, len: usize)
    requires
        r.is_finite(),
        0 <= r.value() < len * unit(),
    ensures
        r.floor().is_finite(),
        r.floor().value() == (r.value() / unit()) * unit(),
        r.floor().to_usize() == r.value() / unit(),
        r.floor().to_usize() < len,
{
    lemma_unit_positive();
    let u = unit();
    let q = r.value() / u;
    lemma_fundamental_div_mod(r.value(), u);
    assert(0 <= q < len) by (nonlinear_arith)
        requires
            r.value() == u * q + r.value() % u,
            0 <= r.value() % u < u,
            0 <= r.value() < len * u,
            u > 0,
    ;
    lemma_floor(r);
    let below = r.floor();
    assert(below.value() >= 0) by (nonlinear_arith)
        requires
            below.value() == q * u,
            q >= 0,
            u > 0,
    ;
    lemma_to_usize(below);
    assert(below.value() / u == q) by {
        lemma_fundamental_div_mod_converse(q * u, u, q, 0);
    }
}

/// A delay of a whole number of samples leads to the slot so many before the one that is written,
/// with nothing beyond it.
pub proof fn law_whole_delay(write: usize, delay: Single, whole: usize, len: usize)
    requires
        write < len <= EXACT_LINE,
        whole <= len,
        delay.is_finite(),
        delay.value() == whole * unit(),
    ensures
        behind(write, delay, len).is_finite(),
        behind(write, delay, len).floor().to_usize() == (write + len - whole) % (len as int),
        tap(behind(write, delay, len), len).index == (write + len - whole) % (len as int),
        tap(behind(write, delay, len), len).frac.is_finite(),
        tap(behind(write, delay, len), len).frac.value() == 0,
{
    lemma_constants();
    lemma_from_usize(write);
    lemma_from_usize(len);
    let (w, l) = (Single::from_usize(write), Single::from_usize(len));
    let u = unit();
    let (i, n, d) = (write as int, len as int, whole as int);
    // Each step is exact.
    let first = lemma_signed_whole(i - d);
    assert((i - d) * u == i * u - d * u && (i - d + n) * u == (i - d) * u + n * u)
        by (nonlinear_arith);
    lemma_sub(w, delay, first, first);
    let second = lemma_signed_whole(i - d + n);
    lemma_add(w - delay, l, second, second);
    lemma_wrapped(w - delay + l, (i - d + n) as nat, len);
}

/// The number of either sign with a whole magnitude.
pub proof fn lemma_signed_whole(n: int) -> (r: Single)
    requires
        -0x100_0000 <= n <= 0x100_0000,
    ensures
        r.is_finite(),
        r.value() == n * unit(),
{
    let u = unit();
    if n >= 0 {
        lemma_whole(n as nat)
    } else {
        let r = lemma_whole((-n) as nat);
        lemma_negated(r);
        assert(-((-n) * u) == n * u) by (nonlinear_arith);
        r.negated()
    }
}

/// A whole position between 0 and twice the line, taken onto the line.
pub proof fn lemma_wrapped(y: Single, n: nat, len: usize)
    requires
        0 < len <= EXACT_LINE,
        y.is_finite(),
        y.value() == n * unit(),
    ensures
        ({
            let r = y.rem_euclid(Single::from_usize(len));
            &&& r.is_finite()
            &&& r.floor().to_usize() == n % (len as nat)
            &&& tap(r, len).index == n % (len as nat)
            &&& tap(r, len).frac.is_finite()
            &&& tap(r, len).frac.value() == 0
        }),
{
    lemma_constants();
    lemma_from_usize(len);
    let l = Single::from_usize(len);
    let (u, c) = (unit(), len as int);
    assert(l.value() > 0 && y.value() >= 0) by (nonlinear_arith)
        requires
            l.value() == c * u,
            y.value() == n * u,
            c > 0,
            u > 0,
    ;
    lemma_remainder(y, l);
    let r = y.remainder(l);
    let p = n as int % c;
    let q = n as int / c;
    lemma_fundamental_div_mod(n as int, c);
    assert(y.value() == q * l.value() + p * u) by (nonlinear_arith)
        requires
            y.value() == n * u,
            l.value() == c * u,
            n == c * q + p,
    ;
    assert(0 <= p * u < l.value()) by (nonlinear_arith)
        requires
            0 <= p < c,
            l.value() == c * u,
            u > 0,
    ;
    lemma_fundamental_div_mod_converse(y.value(), l.value(), q, p * u);
    lemma_compare(r, num(0));
    lemma_on_ring(r, len);
    assert(r.value() / u == p) by {
        lemma_fundamental_div_mod_converse(p * u, u, p, 0);
    }
    lemma_sub(r, r.floor(), num(0), num(0));
    lemma_small_mod(p as nat, c as nat);
}

/// Two ways on a ring add up.
pub proof fn lemma_ahead_twice(pos: usize, i: nat, j: nat, len: usize)
    requires
        len > 0,
    ensures
        0 <= ahead(pos, i, len) < len,
        ahead(ahead(pos, i, len) as usize, j, len) == ahead(pos, i + j, len),
{
    let n = len as int;
    lemma_mod_bound(pos + i, n);
    lemma_add_mod_noop((pos + i) as int, j as int, n);
    lemma_add_mod_noop(((pos + i) as int) % n, j as int, n);
    lemma_mod_twice((pos + i) as int, n);
}


/// A finite place wrapped onto a ring.
pub proof fn lemma_wrapped_finite(y: Single, len: usize)
    requires
        len > 0,
        y.is_finite(),
    ensures
        y.rem_euclid(Single::from_usize(len)).is_finite(),
        0 <= y.rem_euclid(Single::from_usize(len)).value() <= Single::from_usize(len).value(),
{
    lemma_constants();
    lemma_length(len);
    let whole = Single::from_usize(len);
    let r = y.remainder(whole);
    lemma_remainder(y, whole);
    lemma_mod_bound(y.value(), whole.value());
    lemma_mod_bound(-y.value(), whole.value());
    lemma_compare(r, num(0));
    if r.value() < 0 {
        lemma_abs(whole);
        lemma_same(whole.abs(), whole);
        lemma_add(r, whole, num(0), whole);
    }
}

/// How far a place lies behind the slot below it.
pub proof fn lemma_fraction(position: Single)
    requires
        position.is_finite(),
        position.value() >= 0,
    ensures
        (position - position.floor()).is_finite(),
        0 <= (position - position.floor()).value() < unit(),
{
    lemma_constants();
    let u = unit();
    lemma_floor(position);
    lemma_remainder(position, num(0x3f80_0000));
    lemma_mod_bound(position.value(), u);
    lemma_fundamental_div_mod(position.value(), u);
    let left = position.remainder(num(0x3f80_0000));
    let q = position.value() / u;
    assert(q * u == u * q) by (nonlinear_arith);
    lemma_sub(position, position.floor(), left, left);
}

/// The place a finite delay before a slot, before it is wrapped, is finite, and so is the one a
/// slot before that.
pub proof fn lemma_place_finite(write: usize, delay: Single, len: usize)
    requires
        write < len,
        delay.is_finite(),
    ensures
        (Single::from_usize(write) - delay + Single::from_usize(len)).is_finite(),
        (Single::from_usize(write) - delay + Single::from_usize(len) - num(
            0x3f80_0000,
        )).is_finite(),
{
    lemma_constants();
    let u = unit();
    lemma_length(len);
    lemma2_to64();
    lemma_pow2_adds(64, 149);
    lemma_pow2_unfold(214);
    lemma_pow2_strictly_increases(149, 213);
    lemma_unit_positive();
    let (start, whole) = (Single::from_usize(write), Single::from_usize(len));
    if write == 0 {
        lemma_from_usize(write);
        assert(0 * u == 0) by (nonlinear_arith);
    } else {
        lemma_length(write);
    }
    lemma_negated(delay);
    law_add_commutes(start, delay.negated());
    lemma_shifted(delay.negated(), start);
    lemma_shifted(start - delay, whole);
    lemma_negated(num(0x3f80_0000));
    lemma_shifted(start - delay + whole, num(0x3f80_0000).negated());
}

} // verus!
