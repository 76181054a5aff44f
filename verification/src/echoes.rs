//! What the effects on delay lines give, as real numbers: how far the lines reach, where they are
//! read, and what is made of a sample.
use crate::{chorus, delay, flanger, pingpong, vibrato};
use crate::audio::AudioBuffer;
use crate::float::double::Double;
use crate::float::facts::{
    lemma_add, lemma_compare, lemma_constant, lemma_constants, lemma_floor, lemma_from_usize,
    lemma_mul, lemma_negated, lemma_remainder, lemma_shrunk, lemma_sub, lemma_to_usize,
    lemma_unit_positive, lemma_whole, lemma_within, unit, within,
};
use crate::float::monotone::lemma_mul_monotone;
use crate::float::near::{
    lemma_amount, lemma_amount_order, lemma_near_add, lemma_near_div, lemma_near_mul,
    lemma_near_self, lemma_near_sub, lemma_near_wider, lemma_ratio, near,
};
use crate::float::reals::{lemma_bounded_product, lemma_real_product};
use crate::float::single::{num, Single};
use crate::modulation::{cubic, lfo, linear, read_line, stereo_phase, Clock, Interpolation};
use crate::oscillators::{lemma_between, lemma_numbers};
use crate::ring::{
    ahead, behind, lemma_ahead_next, lemma_ahead_none, lemma_signed_whole, tap, Tap, MAX_LINE,
};
use crate::transforms::lemma_whole_part;
use vstd::arithmetic::div_mod::{
    lemma_fundamental_div_mod, lemma_fundamental_div_mod_converse, lemma_mod_bound, lemma_small_mod,
};
use vstd::arithmetic::power2::lemma2_to64;
use vstd::prelude::*;

verus! {

/// What is cut off to a whole number is less than one more.
proof fn lemma_cut(x: Single)
    requires
        x.is_finite(),
        x.value() >= 0,
        x.to_usize() < usize::MAX,
    ensures
        x.value() < (x.to_usize() + 1) * unit(),
{
    lemma_unit_positive();
    lemma_to_usize(x);
    let (v, u) = (x.value(), unit());
    lemma_fundamental_div_mod(v, u);
    lemma_mod_bound(v, u);
    let q = v / u;
    assert(v < (q + 1) * u) by (nonlinear_arith)
        requires
            v == u * q + v % u,
            0 <= v % u < u,
    ;
}

/// Whether a sample rate is one that can be met: from 1 to 2^24 samples per second.
pub open spec fn plausible(rate: Single) -> bool {
    rate.is_finite() && 1real <= rate.amount() <= 16777216real
}

/// A time that is no longer than another is no more samples.
proof fn lemma_no_more_samples(seconds: Single, longest: Single, rate: Single)
    requires
        seconds.is_finite(),
        longest.is_finite(),
        plausible(rate),
        0real <= seconds.amount() <= longest.amount() <= 8real,
    ensures
        (seconds * rate).is_finite(),
        (longest * rate).is_finite(),
        0 <= (seconds * rate).value() <= (longest * rate).value(),
{
    lemma_constants();
    lemma_numbers();
    let r = rate.amount();
    lemma_near_self(seconds, 8real);
    lemma_near_self(longest, 8real);
    lemma_near_self(rate, r);
    lemma_near_mul(seconds, seconds.amount(), 0real, 8real, rate, r, 0real, r);
    lemma_near_mul(longest, longest.amount(), 0real, 8real, rate, r, 0real, r);
    lemma_near_self(num(0), 8real);
    lemma_near_mul(num(0), 0real, 0real, 8real, rate, r, 0real, r);
    lemma_amount_order(num(0), seconds);
    lemma_amount_order(seconds, longest);
    lemma_amount_order(num(0), rate);
    let (s, l, v, u) = (seconds.value(), longest.value(), rate.value(), unit());
    assert(0 * v <= s * v <= l * v && 0 * v == 0 && 0 * u == 0) by (nonlinear_arith)
        requires
            0 <= s <= l,
            v >= 0,
    ;
    lemma_mul_monotone(seconds, rate, longest, rate);
    lemma_mul(num(0), rate, num(0), num(0));
    lemma_mul_monotone(num(0), rate, seconds, rate);
}

/// The line of the delay reaches over the whole range of its control: every delay from 0 to 5
/// seconds is fewer samples than the line has slots, and the line is no longer than that takes.
pub proof fn law_delay_line_reaches(seconds: Single, sample_rate: Double)
    requires
        plausible(sample_rate.narrow()),
        delay::line_length(sample_rate) <= MAX_LINE,
        seconds.is_finite(),
        0real <= seconds.amount() <= 5real,
    ensures
        (seconds * sample_rate.narrow()).is_finite(),
        0 <= (seconds * sample_rate.narrow()).value() < delay::line_length(sample_rate) * unit(),
        (delay::line_length(sample_rate) as real) <= 5real * sample_rate.narrow().amount() + 2real
            + sample_rate.narrow().amount() / 100000real,
{
    lemma_five();
    let (five, rate) = (num(0x40a0_0000), sample_rate.narrow());
    lemma_no_more_samples(seconds, five, rate);
    lemma_cut(five * rate);
    lemma_not_longer(five, 5real, rate);
}

/// The lines of the ping-pong delay reach over the whole range of its control: every delay from 0
/// to 5 seconds is fewer samples than the lines have slots, and they are no longer than that takes.
pub proof fn law_pingpong_lines_reach(seconds: Single, sample_rate: Double)
    requires
        plausible(sample_rate.narrow()),
        pingpong::line_length(sample_rate) <= MAX_LINE,
        seconds.is_finite(),
        0real <= seconds.amount() <= 5real,
    ensures
        (seconds * sample_rate.narrow()).is_finite(),
        0 <= (seconds * sample_rate.narrow()).value() < pingpong::line_length(sample_rate)
            * unit(),
        (pingpong::line_length(sample_rate) as real) <= 5real * sample_rate.narrow().amount()
            + 2real + sample_rate.narrow().amount() / 100000real,
{
    lemma_five();
    let (five, rate) = (num(0x40a0_0000), sample_rate.narrow());
    lemma_no_more_samples(seconds, five, rate);
    lemma_cut(five * rate);
    lemma_not_longer(five, 5real, rate);
}

proof fn lemma_five()
    ensures
        num(0x40a0_0000).is_finite(),
        num(0x40a0_0000).amount() == 5real,
{
    lemma2_to64();
    lemma_constant(0x40a0_0000, 0x20_0000, 0xa0_0000);
    lemma_ratio(num(0x40a0_0000), 0x20_0000, 0xa0_0000);
}

/// What is cut off is no more than the number.
proof fn lemma_not_longer(seconds: Single, s: real, rate: Single)
    requires
        seconds.is_finite(),
        plausible(rate),
        seconds.amount() == s,
        0real <= s <= 8real,
    ensures
        ((seconds * rate).to_usize() as real) <= s * rate.amount() + 1real + rate.amount()
            / 100000real,
{
    let r = rate.amount();
    lemma_near_self(seconds, 8real);
    lemma_near_self(rate, r);
    lemma_near_mul(seconds, s, 0real, 8real, rate, r, 0real, r);
    let x = seconds * rate;
    lemma_constants();
    lemma_numbers();
    lemma_no_more_samples(seconds, seconds, rate);
    lemma_to_usize(x);
    lemma_amount(x);
    let (v, u) = (x.value(), unit());
    lemma_fundamental_div_mod(v, u);
    lemma_mod_bound(v, u);
    let q = v / u;
    lemma_real_product(u, q);
    let (qr, ur) = (q as real, u as real);
    assert(qr <= x.amount()) by (nonlinear_arith)
        requires
            x.amount() * ur == v as real,
            (u * q) as real == ur * qr,
            v as real == (u * q) as real + (v % u) as real,
            (v % u) as real >= 0real,
            ur > 0real,
    ;
    assert((x.to_usize() as real) <= qr);
}

/// The sum of a time and of part of another one.
proof fn lemma_swept(time: Single, width: Single, sweep: Single, half: Single, longest: Single)
    requires
        time.is_finite(),
        width.is_finite(),
        half.is_finite(),
        longest.is_finite(),
        0 <= time.value() <= half.value(),
        0 <= width.value() <= half.value(),
        longest.value() == 2 * half.value(),
        within(sweep, num(0), num(0x3f80_0000)),
    ensures
        (time + width * sweep).is_finite(),
        0 <= (time + width * sweep).value() <= longest.value(),
{
    lemma_constants();
    lemma_within(sweep, num(0), num(0x3f80_0000));
    lemma_shrunk(width, sweep);
    lemma_add(time, width * sweep, num(0), longest);
}

/// The lines of the flanger reach over the whole range of its controls: a delay from 0 to 0.02
/// seconds and as wide a sweep lead, wherever the oscillator is, to fewer samples than the lines
/// have slots.
pub proof fn law_flanger_lines_reach(
    time: Single,
    width: Single,
    sweep: Single,
    sample_rate: Double,
)
    requires
        plausible(sample_rate.narrow()),
        flanger::line_length(sample_rate) <= MAX_LINE,
        time.is_finite(),
        width.is_finite(),
        0 <= time.value() <= num(0x3ca3_d70a).value(),
        0 <= width.value() <= num(0x3ca3_d70a).value(),
        within(sweep, num(0), num(0x3f80_0000)),
    ensures
        num(0x3ca3_d70a).amount() * 100000000real >= 1999999real,
        0 <= ((time + width * sweep) * sample_rate.narrow()).value() < flanger::line_length(
            sample_rate,
        ) * unit(),
        flanger::line_length(sample_rate) >= 4,
{
    lemma_numbers();
    lemma_constants();
    lemma2_to64();
    lemma_constant(0x3ca3_d70a, 0x2000_0000, 0xa3_d70a);
    lemma_constant(0x3d23_d70a, 0x1000_0000, 0xa3_d70a);
    let (half, longest, rate) = (num(0x3ca3_d70a), num(0x3d23_d70a), sample_rate.narrow());
    lemma_ratio(half, 0x2000_0000, 0xa3_d70a);
    lemma_ratio(longest, 0x1000_0000, 0xa3_d70a);
    lemma_swept(time, width, sweep, half, longest);
    let seconds = time + width * sweep;
    lemma_amount_order(num(0), seconds);
    lemma_amount_order(seconds, longest);
    lemma_no_more_samples(seconds, longest, rate);
    lemma_cut(longest * rate);
    lemma_longer_yet((longest * rate).to_usize() + 1, flanger::line_length(sample_rate));
}

proof fn lemma_longer_yet(a: int, b: int)
    requires
        a <= b,
    ensures
        a * unit() <= b * unit(),
{
    lemma_unit_positive();
    let u = unit();
    assert(a * u <= b * u) by (nonlinear_arith)
        requires
            a <= b,
            u > 0,
    ;
}

/// The lines of the chorus reach over the whole range of its controls: a delay from 0 to 0.05
/// seconds and as wide a sweep lead, wherever the oscillator is, to fewer samples than the lines
/// have slots.
pub proof fn law_chorus_lines_reach(
    time: Single,
    width: Single,
    sweep: Single,
    sample_rate: Double,
)
    requires
        plausible(sample_rate.narrow()),
        chorus::line_length(sample_rate) <= MAX_LINE,
        time.is_finite(),
        width.is_finite(),
        0 <= time.value() <= num(0x3d4c_cccd).value(),
        0 <= width.value() <= num(0x3d4c_cccd).value(),
        within(sweep, num(0), num(0x3f80_0000)),
    ensures
        num(0x3d4c_cccd).amount() * 100real >= 5real,
        0 <= ((time + width * sweep) * sample_rate.narrow()).value() < chorus::line_length(
            sample_rate,
        ) * unit(),
        chorus::line_length(sample_rate) >= 4,
{
    lemma_numbers();
    lemma_constants();
    lemma2_to64();
    lemma_constant(0x3d4c_cccd, 0x1000_0000, 0xcc_cccd);
    lemma_constant(0x3dcc_cccd, 0x800_0000, 0xcc_cccd);
    let (half, longest, rate) = (num(0x3d4c_cccd), num(0x3dcc_cccd), sample_rate.narrow());
    lemma_ratio(half, 0x1000_0000, 0xcc_cccd);
    lemma_ratio(longest, 0x800_0000, 0xcc_cccd);
    lemma_swept(time, width, sweep, half, longest);
    let seconds = time + width * sweep;
    lemma_amount_order(num(0), seconds);
    lemma_amount_order(seconds, longest);
    lemma_no_more_samples(seconds, longest, rate);
    lemma_cut(longest * rate);
    lemma_longer_yet((longest * rate).to_usize() + 1, chorus::line_length(sample_rate));
}

/// The lines of the vibrato reach over the whole range of its control: a sweep of 0 to 0.05 seconds
/// leads, wherever the oscillator is, to fewer samples than the lines have slots.
pub proof fn law_vibrato_lines_reach(width: Single, sweep: Single, sample_rate: Double)
    requires
        plausible(sample_rate.narrow()),
        vibrato::line_length(sample_rate) <= MAX_LINE,
        width.is_finite(),
        0 <= width.value() <= num(0x3d4c_cccd).value(),
        within(sweep, num(0), num(0x3f80_0000)),
    ensures
        num(0x3d4c_cccd).amount() * 100real >= 5real,
        0 <= (width * sweep * sample_rate.narrow()).value() < vibrato::line_length(sample_rate)
            * unit(),
        vibrato::line_length(sample_rate) >= 4,
{
    lemma_numbers();
    lemma_constants();
    lemma2_to64();
    lemma_constant(0x3d4c_cccd, 0x1000_0000, 0xcc_cccd);
    let (longest, rate) = (num(0x3d4c_cccd), sample_rate.narrow());
    lemma_ratio(longest, 0x1000_0000, 0xcc_cccd);
    lemma_within(sweep, num(0), num(0x3f80_0000));
    lemma_shrunk(width, sweep);
    let seconds = width * sweep;
    lemma_amount_order(num(0), seconds);
    lemma_amount_order(seconds, longest);
    lemma_no_more_samples(seconds, longest, rate);
    lemma_cut(longest * rate);
    lemma_longer_yet((longest * rate).to_usize() + 1, vibrato::line_length(sample_rate));
}

/// A whole number as it is taken for a place on a line.
pub proof fn lemma_count(n: usize)
    requires
        n <= 0x100_0000,
    ensures
        Single::from_usize(n).is_finite(),
        Single::from_usize(n).amount() == n as real,
{
    lemma_from_usize(n);
    let (v, u) = (Single::from_usize(n).value(), unit());
    assert(v * 1 == n * u) by (nonlinear_arith)
        requires
            v == n * u,
    ;
    lemma_ratio(Single::from_usize(n), 1, n as int);
}

/// A line is read so many samples behind the slot that is written as the delay says, on the ring,
/// to within 12 parts in 2^23 of the line.
pub proof fn law_read_behind(write: usize, delay: Single, len: usize)
    requires
        write < len <= 0x40_0000,
        delay.is_finite(),
        0real <= delay.amount() <= len as real,
    ensures
        behind(write, delay, len).is_finite(),
        0real <= behind(write, delay, len).amount() < len as real,
        ({
            let (p, w, l) = (
                behind(write, delay, len).amount(),
                write as real - delay.amount(),
                len as real,
            );
            -(12real * l) <= 8388608real * (p - w) <= 12real * l || -(12real * l) <= 8388608real
                * (p - w - l) <= 12real * l
        }),
{
    lemma_count(write);
    lemma_count(len);
    lemma_numbers();
    lemma_constants();
    let (w, l) = (Single::from_usize(write), Single::from_usize(len));
    let (wr, lr, d) = (write as real, len as real, delay.amount());
    lemma_near_self(w, lr);
    lemma_near_self(l, lr);
    lemma_near_self(delay, lr);
    lemma_near_sub(w, wr, lr, delay, d, lr, 0real);
    let a = w - delay;
    lemma_near_wider(l, lr, 0real, lr, 2real, lr);
    lemma_near_add(a, wr - d, 2real * lr, l, lr, lr, 2real);
    let y = a + l;
    // The sum lies between no turn and two.
    lemma_negated(l);
    lemma_from_usize(write);
    lemma_from_usize(len);
    lemma_amount_order(num(0), delay);
    lemma_amount_order(delay, l);
    let u = unit();
    let (wv, lv) = (w.value(), l.value());
    assert(0 <= wv && wv + u <= lv) by (nonlinear_arith)
        requires
            wv == write * u,
            lv == len * u,
            write < len,
            u > 0,
    ;
    lemma_sub(w, delay, l.negated(), w);
    let twice = lemma_whole((write + len) as nat);
    assert(twice.value() == wv + lv) by (nonlinear_arith)
        requires
            twice.value() == (write + len) * u,
            wv == write * u,
            lv == len * u,
    ;
    lemma_add(a, l, num(0), twice);
    lemma_remainder(y, l);
    lemma_wrapped(y, l);
}

/// A number between no turn and two, wrapped.
pub proof fn lemma_wrapped(y: Single, l: Single)
    requires
        y.is_finite(),
        l.is_finite(),
        0 <= y.value() < 2 * l.value(),
    ensures
        ({
            let p = y.rem_euclid(l);
            &&& p.is_finite()
            &&& p.amount() == y.amount() || p.amount() == y.amount() - l.amount()
            &&& 0real <= p.amount() < l.amount()
        }),
{
    lemma_constants();
    lemma_numbers();
    lemma_remainder(y, l);
    let r = y.remainder(l);
    let (v, n) = (y.value(), l.value());
    assert(v % n == if v < n { v } else { v - n }) by {
        if v < n {
            lemma_small_mod(v as nat, n as nat);
        } else {
            lemma_fundamental_div_mod_converse(v, n, 1, v - n);
        }
    }
    lemma_compare(r, num(0));
    assert(y.rem_euclid(l) == r);
    lemma_amount(y);
    lemma_amount(r);
    lemma_amount(l);
    let (ya, ra, la, u) = (y.amount(), r.amount(), l.amount(), unit() as real);
    assert(v < n ==> ra == ya) by (nonlinear_arith)
        requires
            v < n ==> ra * u == ya * u,
            u > 0real,
    ;
    assert(v >= n ==> ra == ya - la) by (nonlinear_arith)
        requires
            v >= n ==> ra * u == ya * u - la * u,
            u > 0real,
    ;
    lemma_amount_order(num(0), r);
    lemma_amount_order(l, r);
}

/// The slot and the fraction of a place on a line.
pub proof fn lemma_slot(position: Single, k: int)
    requires
        position.is_finite(),
        0 <= k < usize::MAX,
        k as real <= position.amount() < (k + 1) as real,
    ensures
        position.floor().to_usize() == k,
        (position - position.floor()).is_finite(),
        (position - position.floor()).amount() == position.amount() - k as real,
{
    lemma_constants();
    lemma_numbers();
    lemma_floor(position);
    lemma_amount(position);
    let (v, u, p) = (position.value(), unit(), position.amount());
    lemma_real_product(k, u);
    lemma_real_product(k + 1, u);
    let (kr, ur, nr) = (k as real, u as real, (k + 1) as real);
    assert(kr * ur <= v as real && (v as real) < nr * ur) by (nonlinear_arith)
        requires
            p * ur == v as real,
            kr <= p < nr,
            ur > 0real,
    ;
    assert(k * u <= v < (k + 1) * u);
    let rest = v - k * u;
    assert(v == k * u + rest && 0 <= rest < u) by (nonlinear_arith)
        requires
            k * u <= v < (k + 1) * u,
            rest == v - k * u,
    ;
    lemma_fundamental_div_mod_converse(v, u, k, rest);
    let below = position.floor();
    assert(k * u >= 0) by (nonlinear_arith)
        requires
            k >= 0,
            u > 0,
    ;
    lemma_fundamental_div_mod_converse(k * u, u, k, 0);
    lemma_to_usize(below);
    lemma_remainder(position, num(0x3f80_0000));
    let left = position.remainder(num(0x3f80_0000));
    lemma_sub(position, below, left, left);
    lemma_amount(position - below);
    let f = (position - below).amount();
    assert(f == p - kr) by (nonlinear_arith)
        requires
            f * ur == rest as real,
            p * ur == v as real,
            rest as real == v as real - kr * ur,
            ur > 0real,
    ;
}

/// The point on the way from one sample to another.
pub proof fn law_linear(s0: Single, s1: Single, frac: Single, m: real)
    requires
        s0.is_finite(),
        s1.is_finite(),
        frac.is_finite(),
        0real <= frac.amount() <= 1real,
        -m <= s0.amount() <= m,
        -m <= s1.amount() <= m,
        1real / 1099511627776real <= m <= 1099511627776real,
    ensures
        near(
            linear(s0, s1, frac),
            s0.amount() + frac.amount() * (s1.amount() - s0.amount()),
            7real,
            3real * m,
        ),
{
    let (a, b, f) = (s0.amount(), s1.amount(), frac.amount());
    lemma_near_self(s0, m);
    lemma_near_self(s1, m);
    lemma_near_self(frac, 1real);
    lemma_near_sub(s1, b, m, s0, a, m, 0real);
    lemma_near_mul(frac, f, 0real, 1real, s1 - s0, b - a, 2real, m + m);
    assert(1real * (m + m) == 2real * m) by (nonlinear_arith);
    lemma_near_wider(s0, a, 0real, m, 5real, m);
    lemma_near_add(s0, a, m, frac * (s1 - s0), f * (b - a), 2real * m, 5real);
}

/// What is read from a line at a place between two slots is the point so far on the way from one to
/// the other, which is the first one after the last.
pub proof fn law_read_between(line: Seq<Single>, position: Single, k: int, m: real)
    requires
        position.is_finite(),
        0 <= k < line.len() <= MAX_LINE,
        k as real <= position.amount() < (k + 1) as real,
        ({
            let next = if k + 1 == line.len() { 0 } else { k + 1 };
            &&& line[k].is_finite() && -m <= line[k].amount() <= m
            &&& line[next].is_finite() && -m <= line[next].amount() <= m
        }),
        1real / 1099511627776real <= m <= 1099511627776real,
    ensures
        ({
            let next = if k + 1 == line.len() { 0 } else { k + 1 };
            let f = position.amount() - k as real;
            near(
                delay::read_linear(line, position),
                line[k].amount() + f * (line[next].amount() - line[k].amount()),
                7real,
                3real * m,
            )
        }),
{
    lemma_slot(position, k);
    let len = line.len() as int;
    if k + 1 == len {
        lemma_fundamental_div_mod_converse(len, len, 1, 0);
    } else {
        lemma_small_mod((k + 1) as nat, len as nat);
    }
    let next = if k + 1 == line.len() { 0 } else { k + 1 };
    law_linear(line[k], line[next], position - position.floor(), m);
}


/// The curve through four samples between the middle two: it goes through both of them, and in each
/// it goes as the line through the two samples around it.
pub proof fn law_cubic(s0: Single, s1: Single, s2: Single, s3: Single, frac: Single, m: real)
    requires
        s0.is_finite() && -m <= s0.amount() <= m,
        s1.is_finite() && -m <= s1.amount() <= m,
        s2.is_finite() && -m <= s2.amount() <= m,
        s3.is_finite() && -m <= s3.amount() <= m,
        frac.is_finite(),
        0real <= frac.amount() <= 1real,
        1real / 1099511627776real <= m <= 1099511627776real,
    ensures
        ({
            let (a, b, c, d, f) = (
                s0.amount(),
                s1.amount(),
                s2.amount(),
                s3.amount(),
                frac.amount(),
            );
            let bend = 2real * a - 5real * b + 4real * c - d;
            let twist = 3real * (b - c) + d - a;
            near(
                cubic(s0, s1, s2, s3, frac),
                b + (f / 2real) * (c - a + f * (bend + f * twist)),
                24real,
                12real * m,
            )
        }),
{
    lemma_numbers();
    let (a, b, c, d, f) = (s0.amount(), s1.amount(), s2.amount(), s3.amount(), frac.amount());
    let (h, mh, th, fh, two) = (
        num(0x3f00_0000),
        num(0xbf00_0000),
        num(0x3fc0_0000),
        num(0x4020_0000),
        num(0x4000_0000),
    );
    let (hr, tr, fr) = (1real / 2real, 3real / 2real, 5real / 2real);
    lemma_near_self(s0, m);
    lemma_near_self(s1, m);
    lemma_near_self(s2, m);
    lemma_near_self(s3, m);
    lemma_near_self(frac, 1real);
    lemma_near_self(h, hr);
    lemma_near_self(mh, hr);
    lemma_near_self(th, tr);
    lemma_near_self(fh, fr);
    lemma_near_self(two, 2real);
    // The coefficient of the third power.
    lemma_near_mul(mh, -1real / 2real, 0real, hr, s0, a, 0real, m);
    lemma_near_mul(th, tr, 0real, tr, s1, b, 0real, m);
    lemma_near_mul(th, tr, 0real, tr, s2, c, 0real, m);
    lemma_near_mul(h, hr, 0real, hr, s3, d, 0real, m);
    lemma_near_add(mh * s0, (-1real / 2real) * a, hr * m, th * s1, tr * b, tr * m, 3real);
    lemma_near_wider(th * s2, tr * c, 3real, tr * m, 5real, tr * m);
    lemma_near_sub(
        mh * s0 + th * s1,
        (-1real / 2real) * a + tr * b,
        hr * m + tr * m,
        th * s2,
        tr * c,
        tr * m,
        5real,
    );
    lemma_near_wider(h * s3, hr * d, 3real, hr * m, 7real, hr * m);
    let x = (-1real / 2real) * a + tr * b - tr * c;
    lemma_near_add(
        mh * s0 + th * s1 - th * s2,
        x,
        hr * m + tr * m + tr * m,
        h * s3,
        hr * d,
        hr * m,
        7real,
    );
    let a0 = mh * s0 + th * s1 - th * s2 + h * s3;
    let r0 = x + hr * d;
    assert(near(a0, r0, 9real, 4real * m));
    // That of the second one.
    lemma_near_mul(fh, fr, 0real, fr, s1, b, 0real, m);
    lemma_near_mul(two, 2real, 0real, 2real, s2, c, 0real, m);
    lemma_near_wider(s0, a, 0real, m, 3real, m);
    lemma_near_sub(s0, a, m, fh * s1, fr * b, fr * m, 3real);
    lemma_near_wider(two * s2, 2real * c, 3real, 2real * m, 5real, 2real * m);
    lemma_near_add(s0 - fh * s1, a - fr * b, m + fr * m, two * s2, 2real * c, 2real * m, 5real);
    let y = a - fr * b + 2real * c;
    lemma_near_sub(
        s0 - fh * s1 + two * s2,
        y,
        m + fr * m + 2real * m,
        h * s3,
        hr * d,
        hr * m,
        7real,
    );
    let a1 = s0 - fh * s1 + two * s2 - h * s3;
    let r1 = y - hr * d;
    assert(near(a1, r1, 9real, 6real * m));
    // And that of the first.
    lemma_near_mul(h, hr, 0real, hr, s2, c, 0real, m);
    lemma_near_add(mh * s0, (-1real / 2real) * a, hr * m, h * s2, hr * c, hr * m, 3real);
    let a2 = mh * s0 + h * s2;
    let r2 = (-1real / 2real) * a + hr * c;
    assert(near(a2, r2, 5real, 1real * m));
    let f2 = frac * frac;
    let f3 = f2 * frac;
    assert(1real * 1real == 1real) by (nonlinear_arith);
    lemma_near_mul(frac, f, 0real, 1real, frac, f, 0real, 1real);
    lemma_near_mul(f2, f * f, 3real, 1real, frac, f, 0real, 1real);
    let (ff, fff) = (f * f, (f * f) * f);
    assert((4real * m) * 1real == 4real * m && (6real * m) * 1real == 6real * m && (1real * m)
        * 1real == m) by (nonlinear_arith);
    lemma_near_mul(a0, r0, 9real, 4real * m, f3, fff, 6real, 1real);
    lemma_near_mul(a1, r1, 9real, 6real * m, f2, ff, 3real, 1real);
    lemma_near_mul(a2, r2, 5real, 1real * m, frac, f, 0real, 1real);
    lemma_near_wider(a1 * f2, r1 * ff, 15real, 6real * m, 18real, 6real * m);
    lemma_near_add(a0 * f3, r0 * fff, 4real * m, a1 * f2, r1 * ff, 6real * m, 18real);
    lemma_near_wider(a2 * frac, r2 * f, 8real, m, 20real, m);
    lemma_near_add(
        a0 * f3 + a1 * f2,
        r0 * fff + r1 * ff,
        10real * m,
        a2 * frac,
        r2 * f,
        m,
        20real,
    );
    lemma_near_wider(s1, b, 0real, m, 22real, m);
    lemma_near_add(
        a0 * f3 + a1 * f2 + a2 * frac,
        r0 * fff + r1 * ff + r2 * f,
        11real * m,
        s1,
        b,
        m,
        22real,
    );
    let bend = 2real * a - 5real * b + 4real * c - d;
    let twist = 3real * (b - c) + d - a;
    assert(twist == 2real * r0 && bend == 2real * r1 && c - a == 2real * r2);
    assert(b + (f / 2real) * (2real * r2 + f * (2real * r1 + f * (2real * r0))) == r0 * fff + r1
        * ff + r2 * f + b) by (nonlinear_arith)
        requires
            ff == f * f,
            fff == (f * f) * f,
    ;
}

/// Where the modulated delays read: the slot below a place and how far the place is behind it.
pub proof fn law_tap(position: Single, len: usize, k: int)
    requires
        position.is_finite(),
        0 <= k < len,
        k as real <= position.amount() < (k + 1) as real,
    ensures
        tap(position, len).index == k,
        tap(position, len).frac.is_finite(),
        tap(position, len).frac.amount() == position.amount() - k as real,
{
    lemma_slot(position, k);
    lemma_small_mod(k as nat, len as nat);
}

/// The slot so many after another one on a ring.
pub open spec fn slot(k: int, ahead: int, len: int) -> int {
    if k + ahead >= len {
        k + ahead - len
    } else if k + ahead < 0 {
        k + ahead + len
    } else {
        k + ahead
    }
}

/// What is read at a place of a line: with Nearest the slot below it, with Linear the point so far
/// on the way to the next one, and with Cubic the point on the curve through the four around it.
pub proof fn law_read_line(line: Seq<Single>, place: Tap, m: real)
    requires
        4 <= line.len() <= MAX_LINE,
        place.index < line.len(),
        place.frac.is_finite(),
        0real <= place.frac.amount() <= 1real,
        forall|k: int|
            0 <= k < line.len() ==> (#[trigger] line[k]).is_finite() && -m <= line[k].amount() <= m,
        1real / 1099511627776real <= m <= 1099511627776real,
    ensures
        read_line(line, place, Interpolation::Nearest) == line[place.index as int],
        ({
            let (k, len, f) = (place.index as int, line.len() as int, place.frac.amount());
            let (a, b, c, d) = (
                line[slot(k, -1, len)].amount(),
                line[k].amount(),
                line[slot(k, 1, len)].amount(),
                line[slot(k, 2, len)].amount(),
            );
            let bend = 2real * a - 5real * b + 4real * c - d;
            let twist = 3real * (b - c) + d - a;
            &&& near(
                read_line(line, place, Interpolation::Linear),
                b + f * (c - b),
                7real,
                3real * m,
            )
            &&& near(
                read_line(line, place, Interpolation::Cubic),
                b + (f / 2real) * (c - a + f * (bend + f * twist)),
                24real,
                12real * m,
            )
        }),
{
    let (k, len) = (place.index as int, line.len() as int);
    lemma_slot_mod(k, 1, len);
    lemma_slot_mod(k, 2, len);
    if k == 0 {
        lemma_small_mod((len - 1) as nat, len as nat);
    } else {
        lemma_fundamental_div_mod_converse(k + len - 1, len, 1, k - 1);
    }
    assert((k + len - 1) % len == slot(k, -1, len));
    let (s0, s1, s2, s3) = (
        line[slot(k, -1, len)],
        line[k],
        line[slot(k, 1, len)],
        line[slot(k, 2, len)],
    );
    assert(s0.is_finite() && s1.is_finite() && s2.is_finite() && s3.is_finite());
    law_linear(s1, s2, place.frac, m);
    law_cubic(s0, s1, s2, s3, place.frac, m);
}

proof fn lemma_slot_mod(k: int, ahead: int, len: int)
    requires
        0 <= k < len,
        0 <= ahead < len,
    ensures
        (k + ahead) % len == slot(k, ahead, len),
        0 <= slot(k, ahead, len) < len,
{
    if k + ahead >= len {
        lemma_fundamental_div_mod_converse(k + ahead, len, 1, k + ahead - len);
    } else {
        lemma_small_mod((k + ahead) as nat, len as nat);
    }
}

/// Whether every sample of a line is a number of no more than `m`.
pub open spec fn held(line: Seq<Single>, m: real) -> bool {
    forall|k: int|
        0 <= k < line.len() ==> (#[trigger] line[k]).is_finite() && -m <= line[k].amount() <= m
}

/// Whether a bound for samples is one that can be met.
pub open spec fn loud(m: real) -> bool {
    1real / 1073741824real <= m <= 1073741824real
}

/// What a delay reads and what it stores and sends out for it: where the place is in the slot being
/// written the sample goes in and out alone; elsewhere so much of the delayed sample is put in with
/// it as the feedback says, and what goes out lies between the two as far as the mix says. The
/// other slots stay.
pub proof fn law_delay_sample(
    head: delay::Head,
    params: delay::DelayParams,
    line: Seq<Single>,
    input: Seq<Single>,
    i: nat,
    k: int,
    m: real,
)
    requires
        head.wf(),
        ({
            let now = delay::line_after(head, params, line, input, i);
            now.len() == head.len && held(now, m)
        }),
        loud(m),
        input[i as int].is_finite() && -m <= input[i as int].amount() <= m,
        within(params.feedback@[i as int], num(0), num(0x3f80_0000)),
        within(params.mix@[i as int], num(0), num(0x3f80_0000)),
        0 <= k < head.len,
        ({
            let position = head.position_at(params.delay_time@[i as int], i);
            position.is_finite() && k as real <= position.amount() < (k + 1) as real
        }),
    ensures
        ({
            let now = delay::line_after(head, params, line, input, i);
            let then = delay::line_after(head, params, line, input, i + 1);
            let write = head.write_at(i) as int;
            let out = delay::rendered(head, params, line, input, i + 1)[i as int];
            let (x, mix, back) = (
                input[i as int].amount(),
                params.mix@[i as int].amount(),
                params.feedback@[i as int].amount(),
            );
            let f = head.position_at(params.delay_time@[i as int], i).amount() - k as real;
            let next = if k + 1 == head.len { 0 } else { k + 1 };
            let late = now[k].amount() + f * (now[next].amount() - now[k].amount());
            &&& then.len() == head.len
            &&& forall|j: int| 0 <= j < head.len && j != write ==> #[trigger] then[j] == now[j]
            &&& k == write ==> out == input[i as int] && then[write] == input[i as int]
            &&& k != write ==> near(out, x + mix * (late - x), 40real, 12real * m)
            &&& k != write ==> near(then[write], x + late * back, 40real, 12real * m)
        }),
{
    let now = delay::line_after(head, params, line, input, i);
    let then = delay::line_after(head, params, line, input, i + 1);
    assert((i + 1 - 1) as nat == i);
    lemma_ahead_next(head.write, i, head.len);
    let j = i as int;
    let position = head.position_at(params.delay_time@[j], i);
    lemma_slot(position, k);
    let next = if k + 1 == head.len { 0 } else { k + 1 };
    assert(now[k].is_finite() && now[next].is_finite());
    law_read_between(now, position, k, m);
    let f = position.amount() - k as real;
    let (a, b) = (now[k].amount(), now[next].amount());
    let late = a + f * (b - a);
    lemma_way(a, b, f, m);
    lemma_unit_factor(params.feedback@[j]);
    lemma_unit_factor(params.mix@[j]);
    let got = delay::read_linear(now, position);
    lemma_mixed(input[j], got, late, params.mix@[j], m);
    lemma_fed_back(input[j], got, late, params.feedback@[j], m);
}

/// A point on the way between bounded samples is bounded.
pub proof fn lemma_way(a: real, b: real, f: real, m: real)
    requires
        -m <= a <= m,
        -m <= b <= m,
        0real <= f <= 1real,
    ensures
        -m <= a + f * (b - a) <= m,
{
    assert(-m <= a + f * (b - a) <= m) by (nonlinear_arith)
        requires
            -m <= a <= m,
            -m <= b <= m,
            0real <= f <= 1real,
    ;
}

/// A factor from 0 to 1.
pub proof fn lemma_unit_factor(x: Single)
    requires
        within(x, num(0), num(0x3f80_0000)),
    ensures
        x.is_finite(),
        0real <= x.amount() <= 1real,
        near(x, x.amount(), 0real, 1real),
{
    lemma_numbers();
    lemma_between(x, num(0), num(0x3f80_0000));
    lemma_near_self(x, 1real);
}

/// Between a sample and a delayed one, as far as the mix says.
pub proof fn lemma_mixed(x: Single, got: Single, late: real, mix: Single, m: real)
    requires
        loud(m),
        x.is_finite() && -m <= x.amount() <= m,
        near(got, late, 7real, 3real * m),
        -m <= late <= m,
        near(mix, mix.amount(), 0real, 1real),
        0real <= mix.amount() <= 1real,
    ensures
        near(
            linear(x, got, mix),
            x.amount() + mix.amount() * (late - x.amount()),
            40real,
            12real * m,
        ),
{
    let (v, w) = (x.amount(), mix.amount());
    lemma_near_self(x, m);
    lemma_near_wider(x, v, 0real, m, 7real, m);
    lemma_near_sub(got, late, 3real * m, x, v, m, 7real);
    let d = late - v;
    assert(near(got - x, d, 18real, 2real * m)) by {
        assert((7real + 2real) * (3real * m + m) == 36real * m && 18real * (2real * m) == 36real
            * m)
            by (nonlinear_arith);
    }
    lemma_near_mul(mix, w, 0real, 1real, got - x, d, 18real, 2real * m);
    assert(1real * (2real * m) == 2real * m) by (nonlinear_arith);
    lemma_near_wider(x, v, 0real, m, 21real, m);
    lemma_near_add(x, v, m, mix * (got - x), w * d, 2real * m, 21real);
    lemma_near_wider(linear(x, got, mix), v + w * d, 23real, 3real * m, 40real, 12real * m);
}

/// A sample with so much of a delayed one as the feedback says.
proof fn lemma_fed_back(x: Single, got: Single, late: real, back: Single, m: real)
    requires
        loud(m),
        x.is_finite() && -m <= x.amount() <= m,
        near(got, late, 7real, 3real * m),
        near(back, back.amount(), 0real, 1real),
    ensures
        near(x + got * back, x.amount() + late * back.amount(), 40real, 12real * m),
{
    let (v, w) = (x.amount(), back.amount());
    lemma_near_mul(got, late, 7real, 3real * m, back, w, 0real, 1real);
    assert((3real * m) * 1real == 3real * m) by (nonlinear_arith);
    lemma_near_self(x, m);
    lemma_near_wider(x, v, 0real, m, 10real, m);
    lemma_near_add(x, v, m, got * back, late * w, 3real * m, 10real);
    lemma_near_wider(x + got * back, v + late * w, 12real, 4real * m, 40real, 12real * m);
}

/// Where a delay reads: so many samples behind the slot that sample `i` is written to as its time
/// and the sample rate make, on the ring, and the slots are written one after the other.
pub proof fn law_delay_place(head: delay::Head, seconds: Single, i: nat)
    requires
        head.wf(),
        head.len <= 0x40_0000,
        plausible(head.sample_rate),
        seconds.is_finite(),
        0real <= seconds.amount(),
        seconds.amount() * head.sample_rate.amount() <= head.len as real,
        (seconds * head.sample_rate).amount() <= head.len as real,
    ensures
        head.write_at(i) == (head.write + i) % (head.len as int),
        ({
            let (p, l) = (head.position_at(seconds, i).amount(), head.len as real);
            let w = head.write_at(i) as real - seconds.amount() * head.sample_rate.amount();
            &&& head.position_at(seconds, i).is_finite()
            &&& 0real <= p < l
            &&& -(20real * l) <= 8388608real * (p - w) <= 20real * l || -(20real * l) <= 8388608real
                * (p - w - l) <= 20real * l
        }),
{
    lemma_ahead_next(head.write, i, head.len);
    lemma_time(seconds, head.sample_rate, head.len as real);
    law_read_behind(head.write_at(i), seconds * head.sample_rate, head.len);
}

/// A time in samples.
proof fn lemma_time(seconds: Single, rate: Single, l: real)
    requires
        plausible(rate),
        seconds.is_finite(),
        0real <= seconds.amount(),
        seconds.amount() * rate.amount() <= l,
        1real <= l <= 16777216real,
    ensures
        near(seconds * rate, seconds.amount() * rate.amount(), 3real, l),
        (seconds * rate).amount() >= 0real,
{
    lemma_numbers();
    lemma_constants();
    let (s, r) = (seconds.amount(), rate.amount());
    let m = l / r;
    assert(m * r == l && s <= m) by (nonlinear_arith)
        requires
            m == l / r,
            s * r <= l,
            r >= 1real,
    ;
    lemma_near_self(seconds, m);
    lemma_near_self(rate, r);
    lemma_near_mul(seconds, s, 0real, m, rate, r, 0real, r);
    lemma_amount_order(num(0), seconds);
    lemma_amount_order(num(0), rate);
    let (a, b, u) = (seconds.value(), rate.value(), unit());
    assert(0 * b == 0 && a * b >= 0 && 0 * u == 0) by (nonlinear_arith)
        requires
            a >= 0,
            b >= 0,
    ;
    lemma_mul(num(0), rate, num(0), num(0));
    lemma_mul_monotone(num(0), rate, seconds, rate);
    lemma_amount_order(num(0), seconds * rate);
}


/// What a line holds at a place: the sample of the slot, the point on the way to the next one, or
/// the point on the curve through the four around it.
pub open spec fn reading(line: Seq<Single>, k: int, f: real, interp: Interpolation) -> real {
    let len = line.len() as int;
    let (a, b, c, d) = (
        line[slot(k, -1, len)].amount(),
        line[k].amount(),
        line[slot(k, 1, len)].amount(),
        line[slot(k, 2, len)].amount(),
    );
    match interp {
        Interpolation::Nearest => b,
        Interpolation::Linear => b + f * (c - b),
        Interpolation::Cubic => b + (f / 2real) * (c - a + f * (2real * a - 5real * b + 4real * c
            - d + f * (3real * (b - c) + d - a))),
    }
}

/// A line is read as what it holds at the place.
proof fn lemma_reading(line: Seq<Single>, place: Tap, interp: Interpolation, m: real)
    requires
        4 <= line.len() <= MAX_LINE,
        place.index < line.len(),
        place.frac.is_finite(),
        0real <= place.frac.amount() <= 1real,
        held(line, m),
        loud(m),
    ensures
        near(
            read_line(line, place, interp),
            reading(line, place.index as int, place.frac.amount(), interp),
            24real,
            12real * m,
        ),
{
    law_read_line(line, place, m);
    let (k, f) = (place.index as int, place.frac.amount());
    let got = read_line(line, place, interp);
    let r = reading(line, k, f, interp);
    match interp {
        Interpolation::Nearest => {
            assert(line[k].is_finite());
            lemma_near_self(line[k], m);
            lemma_near_wider(got, r, 0real, m, 24real, 12real * m);
        },
        Interpolation::Linear => {
            lemma_near_wider(got, r, 7real, 3real * m, 24real, 12real * m);
        },
        Interpolation::Cubic => {},
    }
}

/// The time of a sweep in samples.
proof fn lemma_swept_time(time: Single, width: Single, sweep: Single, rate: Single)
    requires
        plausible(rate),
        time.is_finite() && 0real <= time.amount() <= 1real / 16real,
        width.is_finite() && 0real <= width.amount() <= 1real / 16real,
        within(sweep, num(0), num(0x3f80_0000)),
    ensures
        near(
            (time + width * sweep) * rate,
            (time.amount() + width.amount() * sweep.amount()) * rate.amount(),
            8real,
            rate.amount() / 8real,
        ),
{
    let (t, w, s, r) = (time.amount(), width.amount(), sweep.amount(), rate.amount());
    let b = 1real / 16real;
    lemma_unit_factor(sweep);
    lemma_near_self(time, b);
    lemma_near_self(width, b);
    lemma_near_self(rate, r);
    lemma_near_mul(width, w, 0real, b, sweep, s, 0real, 1real);
    assert(b * 1real == b) by (nonlinear_arith);
    lemma_near_wider(time, t, 0real, b, 3real, b);
    lemma_near_add(time, t, b, width * sweep, w * s, b, 3real);
    assert((b + b) * r == r / 8real) by (nonlinear_arith)
        requires
            b == 1real / 16real,
    ;
    lemma_near_mul(time + width * sweep, t + w * s, 5real, b + b, rate, r, 0real, r);
}

/// Where the flanger reads: so many samples behind the slot that is written as the delay and, as
/// far as the oscillator stands, the width make, on the ring.
pub proof fn law_flanger_place(
    clock: Clock,
    params: flanger::FlangerParams,
    ch: usize,
    sine: Single,
    i: nat,
)
    requires
        clock.wf(),
        clock.len <= 0x40_0000,
        plausible(clock.sample_rate),
        params.delay@[i as int].is_finite(),
        0real <= params.delay@[i as int].amount() <= 1real / 16real,
        params.width@[i as int].is_finite(),
        0real <= params.width@[i as int].amount() <= 1real / 16real,
        ({
            let sweep = lfo(
                stereo_phase(clock.phase_at(params.rate@, i), params.stereo, ch),
                params.waveform,
                sine,
            );
            let delay = (params.delay@[i as int] + params.width@[i as int] * sweep)
                * clock.sample_rate;
            &&& within(sweep, num(0), num(0x3f80_0000))
            &&& 0real <= delay.amount() <= clock.len as real
        }),
    ensures
        ({
            let sweep = lfo(
                stereo_phase(clock.phase_at(params.rate@, i), params.stereo, ch),
                params.waveform,
                sine,
            );
            let place = flanger::tap_at(clock, params, ch, sine, i);
            let p = place.index as real + place.frac.amount();
            let w = clock.write_at(i) as real - (params.delay@[i as int].amount()
                + params.width@[i as int].amount() * sweep.amount()) * clock.sample_rate.amount();
            let l = clock.len as real;
            let e = 12real * l + clock.sample_rate.amount();
            &&& place.index < clock.len
            &&& place.frac.is_finite()
            &&& 0real <= place.frac.amount() < 1real
            &&& -e <= 8388608real * (p - w) <= e || -e <= 8388608real * (p - w - l) <= e
        }),
{
    let j = i as int;
    let sweep = lfo(
        stereo_phase(clock.phase_at(params.rate@, i), params.stereo, ch),
        params.waveform,
        sine,
    );
    lemma_swept_time(params.delay@[j], params.width@[j], sweep, clock.sample_rate);
    let delay = (params.delay@[j] + params.width@[j] * sweep) * clock.sample_rate;
    lemma_ahead_next(clock.write, i, clock.len);
    law_read_behind(clock.write_at(i), delay, clock.len);
    let position = behind(clock.write_at(i), delay, clock.len);
    let k = lemma_part_of(position, clock.len);
    law_tap(position, clock.len, k);
}

/// The slot that a place on a line is in.
pub proof fn lemma_part_of(position: Single, len: usize) -> (k: int)
    requires
        position.is_finite(),
        0real <= position.amount() < len as real,
        len <= 0x4000_0000,
    ensures
        0 <= k < len,
        k as real <= position.amount() < (k + 1) as real,
{
    lemma_whole_part(position)
}

/// What the flanger makes of a sample: what goes out is the sample and, weighted with the depth and
/// turned round where that is asked for, the delayed one; what goes into the line is the sample and
/// so much of the delayed one as the feedback says. The other slots stay.
pub proof fn law_flanger_sample(
    clock: Clock,
    params: flanger::FlangerParams,
    ch: usize,
    sines: Seq<Single>,
    line: Seq<Single>,
    input: Seq<Single>,
    i: nat,
    m: real,
)
    requires
        clock.wf(),
        clock.len >= 4,
        loud(m),
        ({
            let now = flanger::line_after(clock, params, ch, sines, line, input, i);
            now.len() == clock.len && held(now, m)
        }),
        input[i as int].is_finite() && -m <= input[i as int].amount() <= m,
        within(params.depth@[i as int], num(0), num(0x3f80_0000)),
        within(params.feedback@[i as int], num(0), num(0x3f80_0000)),
        ({
            let place = flanger::tap_at(clock, params, ch, sines[i as int], i);
            place.index < clock.len && place.frac.is_finite() && 0real <= place.frac.amount()
                < 1real
        }),
    ensures
        ({
            let now = flanger::line_after(clock, params, ch, sines, line, input, i);
            let then = flanger::line_after(clock, params, ch, sines, line, input, i + 1);
            let out = flanger::rendered(clock, params, ch, sines, line, input, i + 1)[i as int];
            let place = flanger::tap_at(clock, params, ch, sines[i as int], i);
            let late = reading(now, place.index as int, place.frac.amount(), params.interp);
            let x = input[i as int].amount();
            let wet = late * params.depth@[i as int].amount();
            let write = clock.write_at(i) as int;
            &&& then.len() == clock.len
            &&& forall|j: int| 0 <= j < clock.len && j != write ==> #[trigger] then[j] == now[j]
            &&& near(
                then[write],
                x + late * params.feedback@[i as int].amount(),
                40real,
                16real * m,
            )
            &&& near(out, if params.inverted { x - wet } else { x + wet }, 40real, 16real * m)
        }),
{
    let now = flanger::line_after(clock, params, ch, sines, line, input, i);
    let j = i as int;
    assert((i + 1 - 1) as nat == i);
    lemma_ahead_next(clock.write, i, clock.len);
    let place = flanger::tap_at(clock, params, ch, sines[j], i);
    lemma_reading(now, place, params.interp, m);
    let got = read_line(now, place, params.interp);
    let late = reading(now, place.index as int, place.frac.amount(), params.interp);
    lemma_unit_factor(params.depth@[j]);
    lemma_unit_factor(params.feedback@[j]);
    lemma_weighted(input[j], got, late, params.feedback@[j], m);
    lemma_numbers();
    let pol = params.polarity_spec();
    lemma_near_self(pol, 1real);
    let d = params.depth@[j].amount();
    assert((12real * m) * 1real == 12real * m) by (nonlinear_arith);
    lemma_near_mul(got, late, 24real, 12real * m, params.depth@[j], d, 0real, 1real);
    lemma_near_mul(
        got * params.depth@[j],
        late * d,
        27real,
        12real * m,
        pol,
        pol.amount(),
        0real,
        1real,
    );
    let wet = late * d;
    assert(wet * 1real == wet && wet * (-1real) == -wet) by (nonlinear_arith);
    let x = input[j].amount();
    lemma_near_self(input[j], m);
    lemma_near_wider(input[j], x, 0real, m, 30real, m);
    let term = got * params.depth@[j] * pol;
    lemma_near_add(input[j], x, m, term, wet * pol.amount(), 12real * m, 30real);
    lemma_near_wider(
        input[j] + term,
        x + wet * pol.amount(),
        32real,
        m + 12real * m,
        40real,
        16real * m,
    );
}

/// A sample with so much of a delayed one as a factor says.
proof fn lemma_weighted(x: Single, got: Single, late: real, factor: Single, m: real)
    requires
        loud(m),
        x.is_finite() && -m <= x.amount() <= m,
        near(got, late, 24real, 12real * m),
        near(factor, factor.amount(), 0real, 1real),
    ensures
        near(x + got * factor, x.amount() + late * factor.amount(), 40real, 16real * m),
{
    let (v, w) = (x.amount(), factor.amount());
    lemma_near_mul(got, late, 24real, 12real * m, factor, w, 0real, 1real);
    assert((12real * m) * 1real == 12real * m) by (nonlinear_arith);
    lemma_near_self(x, m);
    lemma_near_wider(x, v, 0real, m, 27real, m);
    lemma_near_add(x, v, m, got * factor, late * w, 12real * m, 27real);
    lemma_near_wider(x + got * factor, v + late * w, 29real, m + 12real * m, 40real, 16real * m);
}

/// What the vibrato makes of a sample: what goes out is what the line holds at the place, and what
/// goes into the line is the sample. The other slots stay.
pub proof fn law_vibrato_sample(
    clock: Clock,
    params: vibrato::VibratoParams,
    sines: Seq<Single>,
    line: Seq<Single>,
    input: Seq<Single>,
    i: nat,
    m: real,
)
    requires
        clock.wf(),
        clock.len >= 4,
        loud(m),
        ({
            let now = vibrato::line_after(clock, line, input, i);
            now.len() == clock.len && held(now, m)
        }),
        ({
            let place = vibrato::tap_at(clock, params, sines[i as int], i);
            place.index < clock.len && place.frac.is_finite() && 0real <= place.frac.amount()
                < 1real
        }),
    ensures
        ({
            let now = vibrato::line_after(clock, line, input, i);
            let then = vibrato::line_after(clock, line, input, i + 1);
            let out = vibrato::rendered(clock, params, sines, line, input, i + 1)[i as int];
            let place = vibrato::tap_at(clock, params, sines[i as int], i);
            let late = reading(now, place.index as int, place.frac.amount(), params.interp);
            &&& then.len() == clock.len
            &&& then[clock.write_at(i) as int] == input[i as int]
            &&& forall|j: int|
                0 <= j < clock.len && j != clock.write_at(i) ==> #[trigger] then[j] == now[j]
            &&& near(out, late, 24real, 12real * m)
        }),
{
    assert((i + 1 - 1) as nat == i);
    lemma_ahead_next(clock.write, i, clock.len);
    let now = vibrato::line_after(clock, line, input, i);
    lemma_reading(now, vibrato::tap_at(clock, params, sines[i as int], i), params.interp, m);
}

/// Where the vibrato reads: so many samples behind the last one written as the width makes, as far
/// as the oscillator stands, on the ring.
pub proof fn law_vibrato_place(
    clock: Clock,
    params: vibrato::VibratoParams,
    sine: Single,
    i: nat,
)
    requires
        clock.wf(),
        4 <= clock.len <= 0x20_0000,
        plausible(clock.sample_rate),
        params.width@[i as int].is_finite(),
        0real <= params.width@[i as int].amount() <= 1real / 16real,
        ({
            let sweep = lfo(clock.phase_at(params.rate@, i), params.waveform, sine);
            let delay = params.width@[i as int] * sweep * clock.sample_rate;
            &&& within(sweep, num(0), num(0x3f80_0000))
            &&& 0real <= delay.amount() <= (clock.len - 1) as real
        }),
    ensures
        ({
            let sweep = lfo(clock.phase_at(params.rate@, i), params.waveform, sine);
            let place = vibrato::tap_at(clock, params, sine, i);
            let p = place.index as real + place.frac.amount();
            let w = clock.write_at(i) as real - 1real - params.width@[i as int].amount()
                * sweep.amount() * clock.sample_rate.amount();
            let l = clock.len as real;
            let e = 30real * l + clock.sample_rate.amount();
            &&& place.index < clock.len
            &&& place.frac.is_finite()
            &&& 0real <= place.frac.amount() < 1real
            &&& -e <= 8388608real * (p - w) <= e || -e <= 8388608real * (p - w - l) <= e
        }),
{
    let j = i as int;
    let sweep = lfo(clock.phase_at(params.rate@, i), params.waveform, sine);
    let (width, rate) = (params.width@[j], clock.sample_rate);
    let (wv, s, r) = (width.amount(), sweep.amount(), rate.amount());
    let b = 1real / 16real;
    lemma_unit_factor(sweep);
    lemma_near_self(width, b);
    lemma_near_self(rate, r);
    lemma_near_mul(width, wv, 0real, b, sweep, s, 0real, 1real);
    assert(b * 1real == b) by (nonlinear_arith);
    lemma_near_mul(width * sweep, wv * s, 3real, b, rate, r, 0real, r);
    assert(b * r == r / 16real) by (nonlinear_arith)
        requires
            b == 1real / 16real,
    ;
    let delay = width * sweep * rate;
    let exact = wv * s * r;
    let br = b * r;
    assert(br == r / 16real);
    assert(near(delay, exact, 6real, br));
    assert(-(r / 2real) <= 8388608real * (delay.amount() - exact) <= r / 2real);
    lemma_ahead_next(clock.write, i, clock.len);
    law_read_before(clock.write_at(i), delay, clock.len);
    let position = vibrato::position(clock.write_at(i), delay, clock.len);
    let k = lemma_part_of(position, clock.len);
    law_tap(position, clock.len, k);
    let place = vibrato::tap_at(clock, params, sine, i);
    assert(place == tap(position, clock.len));
    assert(place.index as real + place.frac.amount() == position.amount());
}

/// A line is read so many samples behind the last one written as the delay says, on the ring.
pub proof fn law_read_before(write: usize, delay: Single, len: usize)
    requires
        write < len,
        4 <= len <= 0x20_0000,
        delay.is_finite(),
        0real <= delay.amount() <= (len - 1) as real,
    ensures
        vibrato::position(write, delay, len).is_finite(),
        0real <= vibrato::position(write, delay, len).amount() < len as real,
        ({
            let (p, w, l) = (
                vibrato::position(write, delay, len).amount(),
                write as real - 1real - delay.amount(),
                len as real,
            );
            -(28real * l) <= 8388608real * (p - w) <= 28real * l || -(28real * l) <= 8388608real
                * (p - w - l) <= 28real * l
        }),
{
    lemma_count(write);
    lemma_count(len);
    lemma_numbers();
    lemma_constants();
    let (w, l, one) = (Single::from_usize(write), Single::from_usize(len), num(0x3f80_0000));
    let (wr, lr, d) = (write as real, len as real, delay.amount());
    lemma_near_self(w, lr);
    lemma_near_self(l, lr);
    lemma_near_self(delay, lr);
    lemma_near_self(one, lr);
    lemma_near_sub(w, wr, lr, delay, d, lr, 0real);
    let a = w - delay;
    lemma_near_wider(l, lr, 0real, lr, 2real, lr);
    lemma_near_add(a, wr - d, 2real * lr, l, lr, lr, 2real);
    lemma_near_wider(one, 1real, 0real, lr, 4real, lr);
    lemma_near_sub(a + l, wr - d + lr, 3real * lr, one, 1real, lr, 4real);
    let y = a + l - one;
    // The sum lies between no turn and two.
    let short = lemma_signed_whole(-(len - 1));
    lemma_from_usize(write);
    lemma_from_usize(len);
    let u = unit();
    let (wv, lv) = (w.value(), l.value());
    lemma_real_order(delay, (len - 1) as int);
    assert(0 <= wv && wv + u <= lv && (-(len - 1)) * u == u - lv && (len - 1) * u == lv - u)
        by (nonlinear_arith)
        requires
            wv == write * u,
            lv == len * u,
            write < len,
            u > 0,
    ;
    lemma_amount_order(num(0), delay);
    lemma_sub(w, delay, short, w);
    let twice = lemma_whole((write + len) as nat);
    assert(twice.value() == wv + lv) by (nonlinear_arith)
        requires
            twice.value() == (write + len) * u,
            wv == write * u,
            lv == len * u,
    ;
    lemma_add(a, l, one, twice);
    lemma_sub(a + l, one, num(0), twice);
    lemma_wrapped(y, l);
}

/// A number that is no more than a whole one.
pub proof fn lemma_real_order(x: Single, n: int)
    requires
        x.is_finite(),
        x.amount() <= n as real,
    ensures
        x.value() <= n * unit(),
{
    lemma_amount(x);
    lemma_real_product(n, unit());
    let (a, u, nr) = (x.amount(), unit() as real, n as real);
    assert(a * u <= nr * u) by (nonlinear_arith)
        requires
            a <= nr,
            u > 0real,
    ;
}


/// What the two inputs of the ping-pong delay feed: at balance 0 the left one alone, at balance 1
/// the right one alone, and in between in proportion.
pub proof fn law_balance(balance: Single, x: Single, m: real)
    requires
        within(balance, num(0), num(0x3f80_0000)),
        x.is_finite() && -m <= x.amount() <= m,
        loud(m),
    ensures
        near(pingpong::left(balance, x), (1real - balance.amount()) * x.amount(), 5real, 2real * m),
        near(pingpong::right(balance, x), balance.amount() * x.amount(), 5real, 2real * m),
        ({
            let (b, v) = (balance.amount(), x.amount());
            &&& -m <= (1real - b) * v <= m
            &&& -m <= b * v <= m
        }),
{
    lemma_numbers();
    lemma_unit_factor(balance);
    let (b, v, one) = (balance.amount(), x.amount(), num(0x3f80_0000));
    lemma_near_self(one, 1real);
    lemma_near_self(x, m);
    lemma_near_sub(one, 1real, 1real, balance, b, 1real, 0real);
    lemma_near_mul(one - balance, 1real - b, 2real, 1real + 1real, x, v, 0real, m);
    lemma_near_mul(balance, b, 0real, 1real, x, v, 0real, m);
    assert((1real + 1real) * m == 2real * m && 1real * m == m) by (nonlinear_arith);
    lemma_near_wider(balance * x, b * v, 3real, m, 5real, 2real * m);
    lemma_bounded_product(1real - b, v, 1real, m);
    lemma_bounded_product(b, v, 1real, m);
}

/// Between what is fed and a delayed sample, as far as the mix says.
proof fn lemma_mixed_feed(x: Single, v: real, got: Single, late: real, mix: Single, m: real)
    requires
        loud(m),
        near(x, v, 5real, 2real * m),
        -m <= v <= m,
        near(got, late, 7real, 3real * m),
        -m <= late <= m,
        near(mix, mix.amount(), 0real, 1real),
        0real <= mix.amount() <= 1real,
    ensures
        near(linear(x, got, mix), v + mix.amount() * (late - v), 40real, 12real * m),
{
    let w = mix.amount();
    lemma_near_wider(x, v, 5real, 2real * m, 7real, 2real * m);
    lemma_near_sub(got, late, 3real * m, x, v, 2real * m, 7real);
    let d = late - v;
    assert(near(got - x, d, 25real, 2real * m)) by {
        assert((7real + 2real) * (3real * m + 2real * m) == 45real * m && 25real * (2real * m)
            == 50real * m) by (nonlinear_arith);
    }
    lemma_near_mul(mix, w, 0real, 1real, got - x, d, 25real, 2real * m);
    assert(1real * (2real * m) == 2real * m) by (nonlinear_arith);
    lemma_near_wider(x, v, 5real, 2real * m, 28real, 2real * m);
    lemma_near_add(x, v, 2real * m, mix * (got - x), w * d, 2real * m, 28real);
    lemma_near_wider(linear(x, got, mix), v + w * d, 30real, 4real * m, 40real, 12real * m);
}

/// What is fed with so much of a delayed sample as the feedback says.
proof fn lemma_feed_back(x: Single, v: real, got: Single, late: real, back: Single, m: real)
    requires
        loud(m),
        near(x, v, 5real, 2real * m),
        near(got, late, 7real, 3real * m),
        near(back, back.amount(), 0real, 1real),
    ensures
        near(x + got * back, v + late * back.amount(), 40real, 12real * m),
{
    let w = back.amount();
    lemma_near_mul(got, late, 7real, 3real * m, back, w, 0real, 1real);
    assert((3real * m) * 1real == 3real * m) by (nonlinear_arith);
    lemma_near_wider(x, v, 5real, 2real * m, 10real, 2real * m);
    lemma_near_add(x, v, 2real * m, got * back, late * w, 3real * m, 10real);
    lemma_near_wider(x + got * back, v + late * w, 12real, 5real * m, 40real, 12real * m);
}

/// What the ping-pong delay makes of a sample on either side: where the place is in the slot being
/// written, what is fed goes out alone and the lines stay; elsewhere what goes out lies between
/// what is fed and what the own line holds, as far as the mix says, and what goes into a line is
/// what is fed and so much of what the other line holds as the feedback says. The other slots stay.
pub proof fn law_pingpong_sample(
    head: delay::Head,
    params: pingpong::PingPongParams,
    lines: (Seq<Single>, Seq<Single>),
    input: (Seq<Single>, Seq<Single>),
    i: nat,
    k: int,
    m: real,
)
    requires
        head.wf(),
        loud(m),
        ({
            let now = pingpong::lines_after(head, params, lines, input, i);
            &&& now.0.len() == head.len && held(now.0, m)
            &&& now.1.len() == head.len && held(now.1, m)
        }),
        input.0[i as int].is_finite() && -m <= input.0[i as int].amount() <= m,
        input.1[i as int].is_finite() && -m <= input.1[i as int].amount() <= m,
        within(params.balance@[i as int], num(0), num(0x3f80_0000)),
        within(params.feedback@[i as int], num(0), num(0x3f80_0000)),
        within(params.mix@[i as int], num(0), num(0x3f80_0000)),
        0 <= k < head.len,
        ({
            let position = head.position_at(params.delay_time@[i as int], i);
            position.is_finite() && k as real <= position.amount() < (k + 1) as real
        }),
    ensures
        ({
            let now = pingpong::lines_after(head, params, lines, input, i);
            let then = pingpong::lines_after(head, params, lines, input, i + 1);
            let out_l = pingpong::rendered_left(head, params, lines, input, i + 1)[i as int];
            let out_r = pingpong::rendered_right(head, params, lines, input, i + 1)[i as int];
            let (b, mix, back) = (
                params.balance@[i as int].amount(),
                params.mix@[i as int].amount(),
                params.feedback@[i as int].amount(),
            );
            let (l, r) = (
                (1real - b) * input.0[i as int].amount(),
                b * input.1[i as int].amount(),
            );
            let write = head.write_at(i) as int;
            let f = head.position_at(params.delay_time@[i as int], i).amount() - k as real;
            let next = if k + 1 == head.len { 0 } else { k + 1 };
            let late_l = now.0[k].amount() + f * (now.0[next].amount() - now.0[k].amount());
            let late_r = now.1[k].amount() + f * (now.1[next].amount() - now.1[k].amount());
            &&& then.0.len() == head.len && then.1.len() == head.len
            &&& forall|j: int| 0 <= j < head.len && j != write ==> #[trigger] then.0[j] == now.0[j]
            &&& forall|j: int| 0 <= j < head.len && j != write ==> #[trigger] then.1[j] == now.1[j]
            &&& k == write ==> then == now && near(out_l, l, 5real, 2real * m) && near(
                out_r,
                r,
                5real,
                2real * m,
            )
            &&& k != write ==> near(out_l, l + mix * (late_l - l), 40real, 12real * m)
            &&& k != write ==> near(out_r, r + mix * (late_r - r), 40real, 12real * m)
            &&& k != write ==> near(then.0[write], l + late_r * back, 40real, 12real * m)
            &&& k != write ==> near(then.1[write], r + late_l * back, 40real, 12real * m)
        }),
{
    let now = pingpong::lines_after(head, params, lines, input, i);
    assert((i + 1 - 1) as nat == i);
    lemma_ahead_next(head.write, i, head.len);
    let j = i as int;
    let position = head.position_at(params.delay_time@[j], i);
    lemma_slot(position, k);
    let next = if k + 1 == head.len { 0 } else { k + 1 };
    assert(now.0[k].is_finite() && now.0[next].is_finite());
    assert(now.1[k].is_finite() && now.1[next].is_finite());
    law_read_between(now.0, position, k, m);
    law_read_between(now.1, position, k, m);
    let f = position.amount() - k as real;
    lemma_way(now.0[k].amount(), now.0[next].amount(), f, m);
    lemma_way(now.1[k].amount(), now.1[next].amount(), f, m);
    let late_l = now.0[k].amount() + f * (now.0[next].amount() - now.0[k].amount());
    let late_r = now.1[k].amount() + f * (now.1[next].amount() - now.1[k].amount());
    let (got_l, got_r) = (
        delay::read_linear(now.0, position),
        delay::read_linear(now.1, position),
    );
    let (mix, back, balance) = (params.mix@[j], params.feedback@[j], params.balance@[j]);
    lemma_unit_factor(mix);
    lemma_unit_factor(back);
    law_balance(balance, input.0[j], m);
    law_balance(balance, input.1[j], m);
    let (fed_l, fed_r) = (
        pingpong::left(balance, input.0[j]),
        pingpong::right(balance, input.1[j]),
    );
    let (l, r) = (
        (1real - balance.amount()) * input.0[j].amount(),
        balance.amount() * input.1[j].amount(),
    );
    lemma_mixed_feed(fed_l, l, got_l, late_l, mix, m);
    lemma_mixed_feed(fed_r, r, got_r, late_r, mix, m);
    lemma_feed_back(fed_l, l, got_r, late_r, back, m);
    lemma_feed_back(fed_r, r, got_l, late_l, back, m);
}

/// What one more wet voice adds in the chorus: what the line holds at the voice's place, times the
/// depth, and in stereo times the weight of the voice on the channel. Two voices in stereo are kept
/// apart: the first channel is dry, the other one wet.
pub proof fn law_chorus_voice(
    clock: Clock,
    params: chorus::ChorusParams,
    ch: usize,
    sines: Seq<Single>,
    line: Seq<Single>,
    dry: Single,
    i: nat,
    v: nat,
    m: real,
)
    requires
        clock.wf(),
        clock.len >= 4,
        line.len() == clock.len,
        loud(m),
        held(line, m),
        v + 1 < params.num_voices_spec(),
        within(params.depth@[ch as int]@[i as int], num(0), num(0x3f80_0000)),
        dry.is_finite() && -m <= dry.amount() <= m,
        ({
            let acc = chorus::mixed(clock, params, ch, sines, line, dry, i, v);
            acc.is_finite() && -(60real * m) <= acc.amount() <= 60real * m
        }),
        ({
            let place = chorus::tap_at(clock, params, ch as int, v, sines[v as int], i);
            place.index < clock.len && place.frac.is_finite() && 0real <= place.frac.amount()
                < 1real
        }),
    ensures
        chorus::mixed(clock, params, ch, sines, line, dry, i, 0) == dry,
        ({
            let acc = chorus::mixed(clock, params, ch, sines, line, dry, i, v);
            let more = chorus::mixed(clock, params, ch, sines, line, dry, i, v + 1);
            let place = chorus::tap_at(clock, params, ch as int, v, sines[v as int], i);
            let late = reading(line, place.index as int, place.frac.amount(), params.interp);
            let wet = late * params.depth@[ch as int]@[i as int].amount();
            let voices = params.num_voices_spec() as real;
            &&& params.stereo && params.num_voices_spec() == 2 && ch == 0 ==> more == dry
            &&& params.stereo && params.num_voices_spec() == 2 && ch != 0 ==> near(
                more,
                wet,
                40real,
                80real * m,
            )
            &&& !params.stereo ==> near(more, acc.amount() + wet, 40real, 80real * m)
            &&& params.stereo && params.num_voices_spec() > 2 && ch == 0 ==> near(
                more,
                acc.amount() + wet * ((v as real) / (voices - 2real)),
                100real,
                80real * m,
            )
            &&& params.stereo && params.num_voices_spec() > 2 && ch != 0 ==> near(
                more,
                acc.amount() + wet * (1real - (v as real) / (voices - 2real)),
                100real,
                80real * m,
            )
        }),
{
    lemma_numbers();
    let j = i as int;
    assert((v + 1 - 1) as nat == v);
    let place = chorus::tap_at(clock, params, ch as int, v, sines[v as int], i);
    lemma_reading(line, place, params.interp, m);
    let got = read_line(line, place, params.interp);
    let late = reading(line, place.index as int, place.frac.amount(), params.interp);
    let depth = params.depth@[ch as int]@[j];
    lemma_unit_factor(depth);
    let d = depth.amount();
    assert((12real * m) * 1real == 12real * m) by (nonlinear_arith);
    lemma_near_mul(got, late, 24real, 12real * m, depth, d, 0real, 1real);
    let (voiced, wet) = (got * depth, late * d);
    lemma_near_wider(voiced, wet, 27real, 12real * m, 40real, 80real * m);
    let acc = chorus::mixed(clock, params, ch, sines, line, dry, i, v);
    lemma_near_self(acc, 60real * m);
    let a = acc.amount();
    let w = chorus::weight(params.stereo, params.num_voices_spec(), v as usize, ch);
    if !(params.stereo && params.num_voices_spec() == 2) {
        let share = if !params.stereo {
            1real
        } else if ch == 0 {
            (v as real) / (params.num_voices_spec() as real - 2real)
        } else {
            1real - (v as real) / (params.num_voices_spec() as real - 2real)
        };
        law_voice_weight(params.stereo, params.num_voices_spec(), v as usize, ch);
        lemma_near_mul(voiced, wet, 27real, 12real * m, w, share, 5real, 2real);
        assert((12real * m) * 2real == 24real * m && wet * 1real == wet) by (nonlinear_arith);
        let term = voiced * w;
        if !params.stereo {
            lemma_near_self(w, 1real);
            lemma_near_mul(voiced, wet, 27real, 12real * m, w, 1real, 0real, 1real);
            lemma_near_wider(acc, a, 0real, 60real * m, 30real, 60real * m);
            lemma_near_add(acc, a, 60real * m, term, wet * 1real, 12real * m, 30real);
            lemma_near_wider(acc + term, a + wet, 32real, 72real * m, 40real, 80real * m);
        } else {
            lemma_near_wider(acc, a, 0real, 60real * m, 35real, 60real * m);
            lemma_near_add(acc, a, 60real * m, term, wet * share, 24real * m, 35real);
            assert(37real * (60real * m + 24real * m) <= 100real * (80real * m))
                by (nonlinear_arith)
                requires
                    m > 0real,
            ;
            lemma_share_bounded(a, wet, share, m);
        }
    }
}

/// A sum of what there is and of part of a wet voice is bounded.
proof fn lemma_share_bounded(a: real, wet: real, share: real, m: real)
    requires
        -(60real * m) <= a <= 60real * m,
        -(12real * m) <= wet <= 12real * m,
        -1real <= share <= 1real,
    ensures
        -(80real * m) <= a + wet * share <= 80real * m,
{
    lemma_bounded_product(wet, share, 12real * m, 1real);
    assert((12real * m) * 1real == 12real * m) by (nonlinear_arith);
}

/// How loud a wet voice is on a channel: in mono as loud as it is, and in stereo the voices are
/// spread evenly from one side to the other.
pub proof fn law_voice_weight(stereo: bool, voices: usize, voice: usize, ch: usize)
    requires
        2 <= voices <= 5,
        voice + 1 < voices,
    ensures
        ({
            let w = chorus::weight(stereo, voices, voice, ch);
            let share = (voice as real) / (voices as real - 2real);
            &&& !stereo || voices == 2 ==> w.is_finite() && w.amount() == 1real && near(
                w,
                1real,
                5real,
                2real,
            )
            &&& stereo && voices > 2 ==> 0real <= share <= 1real
            &&& stereo && voices > 2 && ch == 0 ==> near(w, share, 5real, 2real)
            &&& stereo && voices > 2 && ch != 0 ==> near(w, 1real - share, 5real, 2real)
        }),
{
    lemma_numbers();
    let one = num(0x3f80_0000);
    lemma_near_self(one, 2real);
    lemma_near_wider(one, 1real, 0real, 2real, 5real, 2real);
    if stereo && voices > 2 {
        let last = (voices - 2) as usize;
        lemma_count(voice);
        lemma_count(last);
        let (a, b) = (Single::from_usize(voice), Single::from_usize(last));
        let (x, y) = (voice as real, last as real);
        lemma_near_self(a, y);
        lemma_near_self(b, y);
        assert(y / y == 1real && 0real <= x / y <= 1real && 0real * y == 0real) by (nonlinear_arith)
            requires
                0real <= x <= y,
                y >= 1real,
        ;
        lemma_near_div(a, x, 0real, y, b, y, 0real, y, y, 0real);
        let w = a / b;
        lemma_near_wider(w, x / y, 3real, 1real, 5real, 2real);
        lemma_near_self(one, 1real);
        lemma_near_wider(one, 1real, 0real, 1real, 3real, 1real);
        lemma_near_sub(one, 1real, 1real, w, x / y, 1real, 3real);
    }
}

/// What the chorus puts into a line is the sample; the other slots stay.
pub proof fn law_chorus_stores(
    clock: Clock,
    line: Seq<Single>,
    input: Seq<Single>,
    i: nat,
)
    requires
        clock.wf(),
        chorus::line_after(clock, line, input, i).len() == clock.len,
    ensures
        ({
            let now = chorus::line_after(clock, line, input, i);
            let then = chorus::line_after(clock, line, input, i + 1);
            &&& then.len() == clock.len
            &&& then[clock.write_at(i) as int] == input[i as int]
            &&& forall|j: int|
                0 <= j < clock.len && j != clock.write_at(i) ==> #[trigger] then[j] == now[j]
        }),
{
    assert((i + 1 - 1) as nat == i);
    lemma_ahead_next(clock.write, i, clock.len);
}

/// What goes out of the chorus is the sample with every wet voice in it, one fewer than there are
/// voices, of which there are two to five.
pub proof fn law_chorus_voices(
    clock: Clock,
    params: chorus::ChorusParams,
    ch: usize,
    sines: Seq<Vec<Single>>,
    line: Seq<Single>,
    input: Seq<Single>,
    i: nat,
)
    ensures
        2 <= params.num_voices_spec() <= 5,
        2 <= params.voices <= 5 ==> params.num_voices_spec() == params.voices,
        chorus::rendered(clock, params, ch, sines, line, input, i + 1)[i as int] == chorus::mixed(
            clock,
            params,
            ch,
            sines[i as int]@,
            chorus::line_after(clock, line, input, i),
            input[i as int],
            i,
            (params.num_voices_spec() - 1) as nat,
        ),
{
}

/// The wet voices are spread evenly over the turn: of three voices the second wet one is a quarter
/// of a turn after the first, and of more each one is as far from the next as all of them would be
/// on a turn.
pub proof fn law_voice_offsets(voices: usize, voice: nat)
    requires
        2 <= voices <= 5,
        voice < voices,
    ensures
        ({
            let gap = if voices == 2 {
                0real
            } else if voices == 3 {
                1real / 4real
            } else {
                1real / (voices as real - 1real)
            };
            let x = chorus::offset_of(voices, voice);
            &&& x.is_finite()
            &&& -(40real * (voice as real)) <= 8388608real * (x.amount() - gap * (voice as real))
                <= 40real * (voice as real)
        }),
    decreases voice,
{
    lemma_numbers();
    let gap = if voices == 2 {
        0real
    } else if voices == 3 {
        1real / 4real
    } else {
        1real / (voices as real - 1real)
    };
    let n = voice as real;
    if voice == 0 {
        assert(gap * 0real == 0real) by (nonlinear_arith);
    } else {
        let k = (voice - 1) as nat;
        law_voice_offsets(voices, k);
        let x = chorus::offset_of(voices, k);
        let kr = k as real;
        let gaps = voices as real - 1real;
        assert(voices > 3 ==> 0real <= 1real / gaps <= 1real) by (nonlinear_arith)
            requires
                voices > 3 ==> gaps >= 1real,
        ;
        assert(gap * n == gap * kr + gap && 0real <= gap * kr <= 4real) by (nonlinear_arith)
            requires
                n == kr + 1real,
                0real <= gap <= 1real,
                0real <= kr <= 4real,
        ;
        lemma_near_self(x, 5real);
        if voices == 3 {
            lemma_near_self(num(0x3e80_0000), 1real);
            lemma_near_add(x, x.amount(), 5real, num(0x3e80_0000), 1real / 4real, 1real, 0real);
        } else if voices > 3 {
            let last = (voices - 1) as usize;
            lemma_count(last);
            let (one, b, y) = (num(0x3f80_0000), Single::from_usize(last), last as real);
            lemma_near_self(one, 1real);
            lemma_near_self(b, y);
            assert(1real / 4real <= 1real / y <= 1real && 0real * y == 0real) by (nonlinear_arith)
                requires
                    1real <= y <= 4real,
            ;
            lemma_near_div(
                one,
                1real,
                0real,
                1real,
                b,
                y,
                0real,
                y,
                y,
                0real,
            );
            lemma_near_wider(one / b, 1real / y, 3real, 1real / y, 3real, 1real);
            lemma_near_wider(x, x.amount(), 0real, 5real, 3real, 5real);
            lemma_near_add(x, x.amount(), 5real, one / b, 1real / y, 1real, 3real);
        }
    }
}


/// Where the chorus reads a line for a voice: so long behind the slot being written as the delay
/// and the part of the width that the oscillator gives at the phase of the voice say.
pub proof fn law_chorus_place(
    clock: Clock,
    params: chorus::ChorusParams,
    ch: int,
    voice: nat,
    sine: Single,
    i: nat,
)
    requires
        clock.wf(),
        4 <= clock.len <= 0x40_0000,
        plausible(clock.sample_rate),
        params.delay@[ch]@[i as int].is_finite(),
        0real <= params.delay@[ch]@[i as int].amount() <= 1real / 16real,
        params.width@[ch]@[i as int].is_finite(),
        0real <= params.width@[ch]@[i as int].amount() <= 1real / 16real,
        ({
            let phase = chorus::voice_phase(
                clock.phase_at(params.rate@[ch]@, i),
                chorus::offset_of(params.num_voices_spec(), voice),
            );
            let sweep = lfo(phase, params.waveform, sine);
            let delay = (params.delay@[ch]@[i as int] + params.width@[ch]@[i as int] * sweep)
                * clock.sample_rate;
            &&& within(sweep, num(0), num(0x3f80_0000))
            &&& 0real <= delay.amount() <= clock.len as real
        }),
    ensures
        ({
            let phase = chorus::voice_phase(
                clock.phase_at(params.rate@[ch]@, i),
                chorus::offset_of(params.num_voices_spec(), voice),
            );
            let sweep = lfo(phase, params.waveform, sine);
            let place = chorus::tap_at(clock, params, ch, voice, sine, i);
            let p = place.index as real + place.frac.amount();
            let w = clock.write_at(i) as real - (params.delay@[ch]@[i as int].amount()
                + params.width@[ch]@[i as int].amount() * sweep.amount())
                * clock.sample_rate.amount();
            let l = clock.len as real;
            let e = 12real * l + clock.sample_rate.amount();
            &&& place.index < clock.len
            &&& place.frac.is_finite()
            &&& 0real <= place.frac.amount() < 1real
            &&& -e <= 8388608real * (p - w) <= e || -e <= 8388608real * (p - w - l) <= e
        }),
{
    let j = i as int;
    let phase = chorus::voice_phase(
        clock.phase_at(params.rate@[ch]@, i),
        chorus::offset_of(params.num_voices_spec(), voice),
    );
    let sweep = lfo(phase, params.waveform, sine);
    let (time, width) = (params.delay@[ch]@[j], params.width@[ch]@[j]);
    lemma_swept_time(time, width, sweep, clock.sample_rate);
    let delay = (time + width * sweep) * clock.sample_rate;
    lemma_ahead_next(clock.write, i, clock.len);
    law_read_behind(clock.write_at(i), delay, clock.len);
    let position = behind(clock.write_at(i), delay, clock.len);
    let k = lemma_part_of(position, clock.len);
    law_tap(position, clock.len, k);
}

/// The phase that a voice sees is that of the oscillator with the offset of the voice on it, less a
/// whole turn where it is more than one.
pub proof fn law_voice_phase(phase: Single, offset: Single)
    requires
        phase.is_finite() && 0real <= phase.amount() <= 1real,
        offset.is_finite() && 0real <= offset.amount() <= 15real / 16real,
    ensures
        ({
            let p = chorus::voice_phase(phase, offset);
            let s = phase.amount() + offset.amount();
            &&& p.is_finite()
            &&& 0real <= p.amount() < 1real
            &&& -4real <= 8388608real * (p.amount() - s) <= 4real || -4real <= 8388608real * (
            p.amount() - s + 1real) <= 4real
        }),
{
    lemma_numbers();
    lemma_constants();
    let (one, two) = (num(0x3f80_0000), num(0x4000_0000));
    lemma_near_self(phase, 1real);
    lemma_near_self(offset, 1real);
    lemma_near_add(phase, phase.amount(), 1real, offset, offset.amount(), 1real, 0real);
    let y = phase + offset;
    lemma_amount_order(num(0), phase);
    lemma_amount_order(num(0), offset);
    lemma_amount_order(phase, one);
    lemma_amount_order(offset, one);
    lemma_add(phase, offset, num(0), two);
    lemma_amount_order(two, y);
    lemma_wrapped(y, one);
}


/// A line is written at one slot after the other, round the ring, and the clock and the head of a
/// delay keep their length and their sample rate.
pub proof fn law_writes_in_turn(clock: Clock, head: delay::Head, rate: Seq<Single>, i: nat)
    requires
        clock.wf(),
        head.wf(),
    ensures
        clock.write_at(0) == clock.write,
        clock.write_at(i + 1) == slot(clock.write_at(i) as int, 1, clock.len as int),
        head.write_at(0) == head.write,
        head.write_at(i + 1) == slot(head.write_at(i) as int, 1, head.len as int),
        clock.after(rate, i).write == clock.write_at(i),
        clock.after(rate, i).phase == clock.phase_at(rate, i),
        clock.after(rate, i).len == clock.len,
        clock.after(rate, i).sample_rate == clock.sample_rate,
{
    lemma_ahead_none(clock.write, clock.len);
    lemma_ahead_none(head.write, head.len);
    lemma_ahead_next(clock.write, i, clock.len);
    lemma_ahead_next(head.write, i, head.len);
    lemma_next_slot(clock.write_at(i), clock.len);
    lemma_next_slot(head.write_at(i), head.len);
}

/// The slot after another one.
proof fn lemma_next_slot(k: usize, len: usize)
    requires
        k < len,
    ensures
        ahead(k, 1, len) == slot(k as int, 1, len as int),
{
    let n = len as int;
    if k + 1 == n {
        lemma_fundamental_div_mod_converse(n, n, 1, 0);
    } else {
        lemma_small_mod((k + 1) as nat, n as nat);
    }
}

/// Every channel that has a line is worked on, and no other.
pub proof fn law_channels_worked_on(
    buffer: AudioBuffer,
    delay: delay::DelayDsp,
    flanger: flanger::Flanger,
    chorus: chorus::Chorus,
    vibrato: vibrato::Vibrato,
    ch: int,
)
    requires
        0 <= ch,
        buffer.input@.len() <= usize::MAX,
        delay.buffer@.len() <= usize::MAX,
        flanger.buffer@.len() <= usize::MAX,
        chorus.buffer@.len() <= usize::MAX,
        vibrato.buffer@.len() <= usize::MAX,
    ensures
        ch < delay.active(buffer) <==> ch < buffer.input@.len() && ch < delay.buffer@.len(),
        ch < flanger.active(buffer) <==> ch < buffer.input@.len() && ch < flanger.buffer@.len(),
        ch < chorus.active(buffer) <==> ch < buffer.input@.len() && ch < chorus.buffer@.len(),
        ch < vibrato.active(buffer) <==> ch < buffer.input@.len() && ch < vibrato.buffer@.len(),
{
}


/// Whether a time is that from one sample to the next, at a sample rate that can be met.
pub open spec fn spans(step: Single, rate: Single) -> bool {
    plausible(rate) ==> near(step, 1real / rate.amount(), 3real, 1real / rate.amount())
}

/// From one sample to the next it is one over the sample rate.
pub proof fn lemma_spans(rate: Single)
    ensures
        spans(num(0x3f80_0000) / rate, rate),
{
    lemma_numbers();
    if plausible(rate) {
        let (one, a) = (num(0x3f80_0000), rate.amount());
        lemma_near_self(one, 1real);
        lemma_near_self(rate, a);
        assert(1real / 16777216real <= 1real / a <= 1real && 0real * a == 0real)
            by (nonlinear_arith)
            requires
                1real <= a <= 16777216real,
        ;
        lemma_near_div(one, 1real, 0real, 1real, rate, a, 0real, a, a, 0real);
    }
}


/// Where the chorus stands after a block: where it stood if no channel was worked on, and otherwise
/// so many samples on, with the phase that the rate of the last channel leads to.
pub proof fn law_chorus_goes_on(
    effect: chorus::Chorus,
    params: chorus::ChorusParams,
    buffer: AudioBuffer,
)
    ensures
        ({
            let (now, then) = (effect.clock(), effect.clock_after(params, buffer));
            let active = effect.active(buffer);
            let rate = params.rate@[active - 1]@;
            &&& active == 0 ==> then == now
            &&& active > 0 ==> then.write == now.write_at(buffer.samples as nat)
            &&& active > 0 ==> then.phase == now.phase_at(rate, buffer.samples as nat)
            &&& then.len == now.len && then.sample_rate == now.sample_rate
        }),
{
}

} // verus!
