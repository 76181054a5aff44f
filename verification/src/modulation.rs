//! What the modulated delays share: the low-frequency oscillator and the reading of a line
//! between its slots.
use crate::audio::resumes;
use crate::float::encoding::Format;
use crate::float::facts::{
    alike, law_add_commutes, lemma_add, lemma_add_error, lemma_around, lemma_bracket, lemma_compare,
    lemma_constant, lemma_constants, lemma_difference_close, lemma_finite_number, lemma_mul,
    lemma_mul_error, lemma_negated, lemma_opposite_add, lemma_opposite_mul, lemma_plus_zero,
    lemma_remainder, lemma_same, lemma_shrunk, lemma_sub, lemma_sub_error, lemma_twice_negated,
    lemma_within, size, unit, within,
};
use crate::float::monotone::lemma_mul_below;
use crate::float::order::{
    gap, lemma_bits_order, lemma_next, lemma_parts, lemma_sign_bit, lemma_sum_below,
    lemma_sum_not_negative,
};
use crate::float::single::{num, Single};
use crate::ring::{advance, ahead, lemma_ahead_next, lemma_ahead_twice, Tap, MAX_LINE};
use vstd::arithmetic::div_mod::{lemma_mod_bound, lemma_small_mod};
use vstd::arithmetic::power2::{lemma2_to64, lemma_pow2_adds};
use vstd::prelude::*;

verus! {

/// 0.25
pub const QUARTER: u32 = 0x3e80_0000;

/// 0.5
pub const HALF: u32 = 0x3f00_0000;

/// 0.75
pub const THREE_QUARTERS: u32 = 0x3f40_0000;

/// 1
pub const ONE: u32 = 0x3f80_0000;

/// -1
pub const MINUS_ONE: u32 = 0xbf80_0000;

/// 1.5
pub const THREE_HALVES: u32 = 0x3fc0_0000;

/// 2
pub const TWO: u32 = 0x4000_0000;

/// 2.5
pub const FIVE_HALVES: u32 = 0x4020_0000;

/// -0.5
pub const MINUS_HALF: u32 = 0xbf00_0000;

/// The circle constant, twice pi.
pub const TAU: u32 = 0x40c9_0fdb;

/// Shape of the oscillator.
#[derive(Clone, Copy, PartialEq, Eq, Structural, Debug)]
pub enum Waveform {
    Sine,
    Triangle,
    Sawtooth,
    InverseSawtooth,
}

/// How a line is read between its slots.
#[derive(Clone, Copy, PartialEq, Eq, Structural, Debug)]
pub enum Interpolation {
    Nearest,
    Linear,
    Cubic,
}

pub open spec fn angle_spec(phase: Single) -> Single {
    num(TAU) * phase
}

/// The angle whose sine the sine shape takes at a phase.
#[verifier::when_used_as_spec(angle_spec)]
pub fn angle(phase: Single) -> (r: Single)
    ensures
        r == angle_spec(phase),
{
    num(TAU) * phase
}

pub open spec fn unipolar_spec(sine: Single) -> Single {
    num(HALF) + num(HALF) * sine
}

/// A sine moved from between -1 and 1 to between 0 and 1.
#[verifier::when_used_as_spec(unipolar_spec)]
pub fn unipolar(sine: Single) -> (r: Single)
    ensures
        r == unipolar_spec(sine),
{
    num(HALF) + num(HALF) * sine
}

pub open spec fn triangle_spec(phase: Single) -> Single {
    if phase.lt(num(QUARTER)) {
        num(HALF) + num(TWO) * phase
    } else if phase.lt(num(THREE_QUARTERS)) {
        num(ONE) - num(TWO) * (phase - num(QUARTER))
    } else {
        num(TWO) * (phase - num(THREE_QUARTERS))
    }
}

#[verifier::when_used_as_spec(triangle_spec)]
pub fn triangle(phase: Single) -> (r: Single)
    ensures
        r == triangle_spec(phase),
{
    if phase.lt(num(QUARTER)) {
        num(HALF) + num(TWO) * phase
    } else if phase.lt(num(THREE_QUARTERS)) {
        num(ONE) - num(TWO) * (phase - num(QUARTER))
    } else {
        num(TWO) * (phase - num(THREE_QUARTERS))
    }
}

pub open spec fn sawtooth_spec(phase: Single) -> Single {
    if phase.lt(num(HALF)) { num(HALF) + phase } else { phase - num(HALF) }
}

#[verifier::when_used_as_spec(sawtooth_spec)]
pub fn sawtooth(phase: Single) -> (r: Single)
    ensures
        r == sawtooth_spec(phase),
{
    if phase.lt(num(HALF)) { num(HALF) + phase } else { phase - num(HALF) }
}

pub open spec fn inverse_sawtooth_spec(phase: Single) -> Single {
    if phase.lt(num(HALF)) { num(HALF) - phase } else { num(THREE_HALVES) - phase }
}

#[verifier::when_used_as_spec(inverse_sawtooth_spec)]
pub fn inverse_sawtooth(phase: Single) -> (r: Single)
    ensures
        r == inverse_sawtooth_spec(phase),
{
    if phase.lt(num(HALF)) { num(HALF) - phase } else { num(THREE_HALVES) - phase }
}

pub open spec fn lfo_spec(phase: Single, waveform: Waveform, sine: Single) -> Single {
    match waveform {
        Waveform::Sine => unipolar(sine),
        Waveform::Triangle => triangle(phase),
        Waveform::Sawtooth => sawtooth(phase),
        Waveform::InverseSawtooth => inverse_sawtooth(phase),
    }
}

/// The oscillator at a phase, `sine` being the sine of that phase's angle.
#[verifier::when_used_as_spec(lfo_spec)]
pub fn lfo(phase: Single, waveform: Waveform, sine: Single) -> (r: Single)
    ensures
        r == lfo_spec(phase, waveform, sine),
{
    match waveform {
        Waveform::Sine => unipolar(sine),
        Waveform::Triangle => triangle(phase),
        Waveform::Sawtooth => sawtooth(phase),
        Waveform::InverseSawtooth => inverse_sawtooth(phase),
    }
}

pub open spec fn turned_spec(phase: Single, step: Single) -> Single {
    let next = phase + step;
    if next.ge(num(ONE)) { next - num(ONE) } else { next }
}

/// The phase one sample later, a whole turn taken off where it is reached.
#[verifier::when_used_as_spec(turned_spec)]
pub fn turned(phase: Single, step: Single) -> (r: Single)
    ensures
        r == turned_spec(phase, step),
{
    let next = phase + step;
    if next.ge(num(ONE)) { next - num(ONE) } else { next }
}

/// The phase after `i` samples of an oscillator whose rates are divided by the sample rate.
pub open spec fn phase_after(
    phase: Single,
    rate: Seq<Single>,
    sample_rate: Single,
    i: nat,
) -> Single
    decreases i,
{
    if i == 0 {
        phase
    } else {
        let k = (i - 1) as nat;
        turned(phase_after(phase, rate, sample_rate, k), rate[k as int] / sample_rate)
    }
}

/// The phase after `i` samples of an oscillator whose rates are multiplied by the length of a
/// sample.
pub open spec fn phase_after_scaled(
    phase: Single,
    rate: Seq<Single>,
    inv_sr: Single,
    i: nat,
) -> Single
    decreases i,
{
    if i == 0 {
        phase
    } else {
        let k = (i - 1) as nat;
        turned(phase_after_scaled(phase, rate, inv_sr, k), rate[k as int] * inv_sr)
    }
}

pub open spec fn stereo_phase_spec(phase: Single, stereo: bool, ch: usize) -> Single {
    if stereo && ch != 0 { (phase + num(QUARTER)).rem_euclid(num(ONE)) } else { phase }
}

/// The phase that a channel sees: in stereo the second one is a quarter turn ahead.
#[verifier::when_used_as_spec(stereo_phase_spec)]
pub fn stereo_phase(phase: Single, stereo: bool, ch: usize) -> (r: Single)
    ensures
        r == stereo_phase_spec(phase, stereo, ch),
{
    if stereo && ch != 0 { (phase + num(QUARTER)).rem_euclid(num(ONE)) } else { phase }
}

pub open spec fn linear_spec(s0: Single, s1: Single, frac: Single) -> Single {
    s0 + frac * (s1 - s0)
}

/// The point at `frac` of the way between two samples.
#[verifier::when_used_as_spec(linear_spec)]
pub fn linear(s0: Single, s1: Single, frac: Single) -> (r: Single)
    ensures
        r == linear_spec(s0, s1, frac),
{
    s0 + frac * (s1 - s0)
}

pub open spec fn cubic_spec(
    s0: Single,
    s1: Single,
    s2: Single,
    s3: Single,
    frac: Single,
) -> Single {
    let f2 = frac * frac;
    let f3 = f2 * frac;
    let a0 = num(MINUS_HALF) * s0 + num(THREE_HALVES) * s1 - num(THREE_HALVES) * s2 + num(HALF)
        * s3;
    let a1 = s0 - num(FIVE_HALVES) * s1 + num(TWO) * s2 - num(HALF) * s3;
    let a2 = num(MINUS_HALF) * s0 + num(HALF) * s2;
    a0 * f3 + a1 * f2 + a2 * frac + s1
}

/// The point at `frac` of the way between `s1` and `s2` on the cubic through four samples.
#[verifier::when_used_as_spec(cubic_spec)]
pub fn cubic(s0: Single, s1: Single, s2: Single, s3: Single, frac: Single) -> (r: Single)
    ensures
        r == cubic_spec(s0, s1, s2, s3, frac),
{
    let f2 = frac * frac;
    let f3 = f2 * frac;
    let a0 = num(MINUS_HALF) * s0 + num(THREE_HALVES) * s1 - num(THREE_HALVES) * s2 + num(HALF)
        * s3;
    let a1 = s0 - num(FIVE_HALVES) * s1 + num(TWO) * s2 - num(HALF) * s3;
    let a2 = num(MINUS_HALF) * s0 + num(HALF) * s2;
    a0 * f3 + a1 * f2 + a2 * frac + s1
}

/// The line at a tap: the slot of the tap and, as the interpolation needs them, the ones around
/// it on the ring.
pub open spec fn read_line(line: Seq<Single>, tap: Tap, interp: Interpolation) -> Single {
    let len = line.len() as int;
    let r0 = tap.index as int;
    match interp {
        Interpolation::Nearest => line[r0],
        Interpolation::Linear => linear(line[r0], line[(r0 + 1) % len], tap.frac),
        Interpolation::Cubic => cubic(
            line[(r0 + len - 1) % len],
            line[r0],
            line[(r0 + 1) % len],
            line[(r0 + 2) % len],
            tap.frac,
        ),
    }
}

/// The line at a tap.
pub fn sample_at(line: &Vec<Single>, tap: Tap, interp: Interpolation) -> (r: Single)
    requires
        tap.index < line@.len() <= MAX_LINE,
    ensures
        r == read_line(line@, tap, interp),
{
    let len = line.len();
    let r0 = tap.index;
    match interp {
        Interpolation::Nearest => line[r0],
        Interpolation::Linear => linear(line[r0], line[(r0 + 1) % len], tap.frac),
        Interpolation::Cubic => cubic(
            line[(r0 + len - 1) % len],
            line[r0],
            line[(r0 + 1) % len],
            line[(r0 + 2) % len],
            tap.frac,
        ),
    }
}

/// Where a modulated delay stands: the place it writes at next on lines of `len` slots, and the
/// phase of its oscillator.
#[derive(Clone, Copy, PartialEq, Eq, Structural)]
pub struct Clock {
    pub sample_rate: Single,
    pub len: usize,
    pub write: usize,
    pub phase: Single,
}

impl Clock {
    pub open spec fn wf(self) -> bool {
        self.write < self.len <= MAX_LINE
    }

    /// The slot that sample `i` of a block is written to.
    pub open spec fn write_at(self, i: nat) -> usize {
        ahead(self.write, i, self.len) as usize
    }

    /// The oscillator phase at sample `i` of a block.
    pub open spec fn phase_at(self, rate: Seq<Single>, i: nat) -> Single {
        phase_after(self.phase, rate, self.sample_rate, i)
    }

    /// Where the delay stands `i` samples into a block.
    pub open spec fn after(self, rate: Seq<Single>, i: nat) -> Clock {
        Clock { write: self.write_at(i), phase: self.phase_at(rate, i), ..self }
    }

    /// One sample on, at the given rate.
    pub fn tick(&mut self, rate: Single)
        requires
            old(self).wf(),
        ensures
            final(self).wf(),
            final(self).sample_rate == old(self).sample_rate,
            final(self).len == old(self).len,
            final(self).write == old(self).write_at(1),
            final(self).phase == turned(old(self).phase, rate / old(self).sample_rate),
    {
        self.write = advance(self.write, self.len);
        self.phase = turned(self.phase, rate / self.sample_rate);
    }

    /// A tick leads from one sample of a block to the next.
    pub proof fn lemma_tick(self, rate: Seq<Single>, i: nat)
        requires
            self.wf(),
        ensures
            self.after(rate, i).wf(),
            self.after(rate, i).write_at(1) == self.write_at(i + 1),
            turned(self.phase_at(rate, i), rate[i as int] / self.sample_rate) == self.phase_at(
                rate,
                i + 1,
            ),
    {
        lemma_ahead_next(self.write, i, self.len);
    }

    /// No sample into a block, the delay stands where it stood.
    pub proof fn lemma_start(self, rate: Seq<Single>)
        requires
            self.wf(),
        ensures
            self.after(rate, 0) == self,
    {
        lemma_small_mod(self.write as nat, self.len as nat);
    }

    /// `n` samples on.
    pub fn run(&mut self, rate: &Vec<Single>, n: usize)
        requires
            old(self).wf(),
            rate@.len() >= n,
        ensures
            final(self).wf(),
            *final(self) == old(self).after(rate@, n as nat),
    {
        let ghost start = *self;
        proof {
            start.lemma_start(rate@);
        }
        let mut i: usize = 0;
        while i < n
            invariant
                i <= n,
                rate@.len() >= n,
                start.wf(),
                self.wf(),
                *self == start.after(rate@, i as nat),
            decreases n - i,
        {
            proof {
                start.lemma_tick(rate@, i as nat);
            }
            self.tick(rate[i]);
            i = i + 1;
        }
    }
}

/// Whether a phase lies on the turn: from 0 up to, but not including, 1.
pub open spec fn on_turn(phase: Single) -> bool {
    num(0).le(phase) && phase.lt(num(ONE))
}

/// What a phase on the turn is.
pub proof fn lemma_on_turn(phase: Single)
    ensures
        on_turn(phase) <==> phase.is_finite() && 0 <= phase.value() < unit(),
{
    lemma_constants();
    lemma_within(phase, num(0), num(ONE));
    if phase.is_finite() {
        lemma_compare(num(0), phase);
        lemma_compare(phase, num(ONE));
    } else if on_turn(phase) {
        lemma_finite_number(num(ONE));
        reveal(Single::lt_spec);
        assert(phase.le(num(ONE)));
    }
}

/// An oscillator that moves by at most half a turn per sample stays on the turn.
pub proof fn law_phase_stays_on_turn(phase: Single, step: Single)
    requires
        on_turn(phase),
        within(step, num(0), num(HALF)),
    ensures
        on_turn(turned(phase, step)),
{
    lemma_constants();
    lemma_on_turn(phase);
    lemma_within(step, num(0), num(HALF));
    lemma_add(phase, step, num(0), num(THREE_HALVES));
    let next = phase + step;
    lemma_compare(num(ONE), next);
    if next.ge(num(ONE)) {
        lemma_sub(next, num(ONE), num(0), num(HALF));
        lemma_on_turn(next - num(ONE));
    } else {
        lemma_on_turn(next);
    }
}

/// In stereo the second channel's phase stays on the turn too.
pub proof fn law_stereo_phase_on_turn(phase: Single, stereo: bool, ch: usize)
    requires
        on_turn(phase),
    ensures
        on_turn(stereo_phase(phase, stereo, ch)),
{
    lemma_constants();
    lemma_on_turn(phase);
    lemma_add(phase, num(QUARTER), num(0), num(THREE_HALVES));
    let ahead = phase + num(QUARTER);
    lemma_remainder(ahead, num(ONE));
    let r = ahead.remainder(num(ONE));
    lemma_mod_bound(ahead.value(), unit());
    lemma_compare(r, num(0));
    lemma_on_turn(r);
}

/// A phase on the turn lies between 0 and 1.
pub proof fn lemma_turn_within(phase: Single)
    requires
        on_turn(phase),
    ensures
        within(phase, num(0), num(ONE)),
{
    lemma_constants();
    lemma_on_turn(phase);
    lemma_within(phase, num(0), num(ONE));
}

/// The triangle lies between 0 and 1.
pub proof fn law_triangle_unipolar(phase: Single)
    requires
        within(phase, num(0), num(ONE)),
    ensures
        within(triangle(phase), num(0), num(ONE)),
{
    lemma_constants();
    lemma_within(phase, num(0), num(ONE));
    lemma_compare(phase, num(QUARTER));
    lemma_compare(phase, num(THREE_QUARTERS));
    if phase.lt(num(QUARTER)) {
        lemma_doubled(phase, num(HALF));
        lemma_add(num(HALF), num(TWO) * phase, num(0), num(ONE));
    } else if phase.lt(num(THREE_QUARTERS)) {
        lemma_sub(phase, num(QUARTER), num(0), num(HALF));
        lemma_doubled(phase - num(QUARTER), num(ONE));
        lemma_sub(num(ONE), num(TWO) * (phase - num(QUARTER)), num(0), num(ONE));
    } else {
        lemma_sub(phase, num(THREE_QUARTERS), num(0), num(QUARTER));
        lemma_doubled(phase - num(THREE_QUARTERS), num(ONE));
    }
    lemma_within(triangle(phase), num(0), num(ONE));
}

/// Twice a number that is not negative.
proof fn lemma_doubled(x: Single, high: Single)
    requires
        x.is_finite(),
        high.is_finite(),
        0 <= 2 * x.value() <= high.value(),
    ensures
        (num(TWO) * x).is_finite(),
        0 <= (num(TWO) * x).value() <= high.value(),
{
    lemma_constants();
    let (v, h, u) = (x.value(), high.value(), unit());
    assert(0 * u <= (2 * u) * v <= h * u) by (nonlinear_arith)
        requires
            0 <= 2 * v <= h,
            u > 0,
    ;
    lemma_mul(num(TWO), x, num(0), high);
}

/// The sawtooth lies between 0 and 1.
pub proof fn law_sawtooth_unipolar(phase: Single)
    requires
        within(phase, num(0), num(ONE)),
    ensures
        within(sawtooth(phase), num(0), num(ONE)),
{
    lemma_constants();
    lemma_within(phase, num(0), num(ONE));
    lemma_compare(phase, num(HALF));
    if phase.lt(num(HALF)) {
        lemma_add(num(HALF), phase, num(0), num(ONE));
    } else {
        lemma_sub(phase, num(HALF), num(0), num(ONE));
    }
    lemma_within(sawtooth(phase), num(0), num(ONE));
}

/// The inverse sawtooth lies between 0 and 1.
pub proof fn law_inverse_sawtooth_unipolar(phase: Single)
    requires
        within(phase, num(0), num(ONE)),
    ensures
        within(inverse_sawtooth(phase), num(0), num(ONE)),
{
    lemma_constants();
    lemma_within(phase, num(0), num(ONE));
    lemma_compare(phase, num(HALF));
    if phase.lt(num(HALF)) {
        lemma_sub(num(HALF), phase, num(0), num(ONE));
    } else {
        lemma_sub(num(THREE_HALVES), phase, num(0), num(ONE));
    }
    lemma_within(inverse_sawtooth(phase), num(0), num(ONE));
}

/// At one phase the sawtooth and the inverse sawtooth add up to 1, but for rounding: they are off
/// by no more than two parts in 2^24.
pub proof fn law_sawtooths_add_up(phase: Single)
    requires
        within(phase, num(0), num(ONE)),
    ensures
        sawtooth(phase).is_finite(),
        inverse_sawtooth(phase).is_finite(),
        0x100_0000 * size(sawtooth(phase).value() + inverse_sawtooth(phase).value() - unit()) <= 2
            * unit(),
{
    lemma_constants();
    lemma_within(phase, num(0), num(ONE));
    lemma_compare(phase, num(HALF));
    let (v, h) = (phase.value(), num(HALF).value());
    let (s, i) = if phase.lt(num(HALF)) { (h + v, h - v) } else { (v - h, 3 * h - v) };
    let (low, high) = lemma_around(s);
    let (inverse_low, inverse_high) = lemma_around(i);
    if phase.lt(num(HALF)) {
        lemma_add(num(HALF), phase, low, high);
        lemma_sub(num(HALF), phase, inverse_low, inverse_high);
    } else {
        lemma_sub(phase, num(HALF), low, high);
        lemma_sub(num(THREE_HALVES), phase, inverse_low, inverse_high);
    }
}

/// The sine shape lies between 0 and 1 where the sine lies between -1 and 1.
pub proof fn law_sine_unipolar(sine: Single)
    requires
        within(sine, num(0xbf80_0000), num(ONE)),
    ensures
        within(unipolar(sine), num(0), num(ONE)),
{
    lemma_constants();
    lemma_within(sine, num(0xbf80_0000), num(ONE));
    let (v, h, u) = (sine.value(), num(HALF).value(), unit());
    assert(num(MINUS_HALF).value() == -h);
    assert((-h) * u <= h * v <= h * u) by (nonlinear_arith)
        requires
            -u <= v <= u,
            h > 0,
    ;
    lemma_mul(num(HALF), sine, num(MINUS_HALF), num(HALF));
    lemma_add(num(HALF), num(HALF) * sine, num(0), num(ONE));
    lemma_within(unipolar(sine), num(0), num(ONE));
}

/// Whatever its shape, the oscillator lies between 0 and 1 at every phase from 0 to 1, both
/// included.
pub proof fn law_lfo_unipolar(phase: Single, waveform: Waveform, sine: Single)
    requires
        within(phase, num(0), num(ONE)),
        within(sine, num(0xbf80_0000), num(ONE)),
    ensures
        within(lfo(phase, waveform, sine), num(0), num(ONE)),
{
    match waveform {
        Waveform::Sine => law_sine_unipolar(sine),
        Waveform::Triangle => law_triangle_unipolar(phase),
        Waveform::Sawtooth => law_sawtooth_unipolar(phase),
        Waveform::InverseSawtooth => law_inverse_sawtooth_unipolar(phase),
    }
}

/// The point between two numbers from 0 to 1 lies between 0 and 1.
pub proof fn law_mix_unipolar(a: Single, b: Single, mix: Single)
    requires
        within(a, num(0), num(ONE)),
        within(b, num(0), num(ONE)),
        within(mix, num(0), num(ONE)),
    ensures
        within(linear(a, b, mix), num(0), num(ONE)),
{
    lemma_constants();
    lemma_within(a, num(0), num(ONE));
    lemma_within(b, num(0), num(ONE));
    lemma_within(mix, num(0), num(ONE));
    let u = unit();
    if b.value() <= a.value() {
        lemma_negated(a);
        lemma_sub(b, a, a.negated(), num(0));
        let d = b - a;
        lemma_shrunk(d, mix);
        lemma_add(a, mix * d, num(0), a);
    } else {
        lemma_difference_close(b, a);
        let d = b - a;
        lemma_shrunk(d, mix);
        let f = Format::Single;
        lemma2_to64();
        lemma_pow2_adds(126, 23);
        let g = gap(f, ONE as int) as int;
        assert(0x80_0000 * g == u);
        reveal(Single::spec_add);
        lemma_sum_below(
            f,
            a.bits as int,
            (mix * d).bits as int,
            ONE as int,
        );
    }
    lemma_within(linear(a, b, mix), num(0), num(ONE));
}

/// At no distance between two samples lies the first one.
pub proof fn law_linear_starts_at_first(s0: Single, s1: Single, frac: Single)
    requires
        s0.is_finite(),
        (s1 - s0).is_finite(),
        frac.is_finite(),
        frac.value() == 0,
    ensures
        linear(s0, s1, frac).is_finite(),
        linear(s0, s1, frac).value() == s0.value(),
{
    lemma_constants();
    let u = unit();
    let v = (s1 - s0).value();
    assert(0 * v == 0 && 0 * u == 0) by (nonlinear_arith);
    lemma_mul(frac, s1 - s0, num(0), num(0));
    lemma_plus_zero(s0, frac * (s1 - s0));
}

/// Two blocks turn the oscillator as far as one block of both.
pub proof fn law_phase_joins(
    phase: Single,
    rate: Seq<Single>,
    part: Seq<Single>,
    sample_rate: Single,
    i: nat,
    j: nat,
)
    requires
        resumes(part, rate, i, j),
    ensures
        phase_after(phase, rate, sample_rate, i + j) == phase_after(
            phase_after(phase, rate, sample_rate, i),
            part,
            sample_rate,
            j,
        ),
    decreases j,
{
    if j > 0 {
        let k = (j - 1) as nat;
        assert((i + j - 1) as nat == i + k);
        law_phase_joins(phase, rate, part, sample_rate, i, k);
        assert(part[k as int] == rate[(i + k) as int]);
    }
}

/// Two blocks turn the oscillator as far as one block of both.
pub proof fn law_scaled_phase_joins(
    phase: Single,
    rate: Seq<Single>,
    part: Seq<Single>,
    inv_sr: Single,
    i: nat,
    j: nat,
)
    requires
        resumes(part, rate, i, j),
    ensures
        phase_after_scaled(phase, rate, inv_sr, i + j) == phase_after_scaled(
            phase_after_scaled(phase, rate, inv_sr, i),
            part,
            inv_sr,
            j,
        ),
    decreases j,
{
    if j > 0 {
        let k = (j - 1) as nat;
        assert((i + j - 1) as nat == i + k);
        law_scaled_phase_joins(phase, rate, part, inv_sr, i, k);
        assert(part[k as int] == rate[(i + k) as int]);
    }
}

/// Two blocks lead a modulated delay where one block of both leads it.
pub proof fn law_clock_joins(clock: Clock, rate: Seq<Single>, part: Seq<Single>, i: nat, j: nat)
    requires
        clock.wf(),
        resumes(part, rate, i, j),
    ensures
        clock.after(rate, i).wf(),
        clock.after(rate, i + j) == clock.after(rate, i).after(part, j),
{
    lemma_ahead_twice(clock.write, i, j, clock.len);
    law_phase_joins(clock.phase, rate, part, clock.sample_rate, i, j);
}

/// A point on the way between two samples lies between them, rounding included.
pub proof fn law_linear_between(s0: Single, s1: Single, frac: Single)
    requires
        s0.is_finite(),
        s1.is_finite(),
        frac.is_finite(),
        (s1 - s0).is_finite(),
        0 <= frac.value() < unit(),
    ensures
        linear(s0, s1, frac).is_finite(),
        s0.value() <= s1.value() ==> s0.value() <= linear(s0, s1, frac).value() <= s1.value(),
        s1.value() <= s0.value() ==> s1.value() <= linear(s0, s1, frac).value() <= s0.value(),
{
    lemma_constants();
    lemma_negated(s0);
    lemma_negated(s1);
    let d = s1 - s0;
    if s0.value() < s1.value() {
        lemma_part_way(s0, s1, frac);
        lemma_add(s0, frac * d, s0, s1);
    } else if s1.value() < s0.value() {
        lemma_twice_negated(s1);
        lemma_opposite_add(s1, s0.negated());
        lemma_twice_negated(s0);
        law_add_commutes(s1.negated(), s0);
        let back = s0 - s1;
        if d.value() == 0 {
            lemma_shrunk(d, frac);
            lemma_add(s0, frac * d, s0, s0);
        } else {
            assert(back == d.negated());
            lemma_negated(d);
            lemma_twice_negated(d);
            lemma_part_way(s1, s0, frac);
            lemma_opposite_mul(frac, back);
            lemma_negated(frac * back);
            lemma_add(s0, frac * d, s1, s0);
        }
    } else {
        lemma_sub(s1, s0, num(0), num(0));
        lemma_shrunk(d, frac);
        lemma_add(s0, frac * d, s0, s0);
    }
}

/// Part of the way from a sample up to another one is no more than the whole way.
proof fn lemma_part_way(s0: Single, s1: Single, frac: Single)
    requires
        s0.is_finite(),
        s1.is_finite(),
        s0.value() < s1.value(),
        (s1 - s0).is_finite(),
        frac.is_finite(),
        0 <= frac.value() < unit(),
    ensures
        (frac * (s1 - s0)).is_finite(),
        0 <= (frac * (s1 - s0)).value() <= s1.value() - s0.value(),
{
    lemma_constants();
    let d = s1 - s0;
    let (e, u, v) = (s1.value() - s0.value(), unit(), frac.value());
    reveal(Single::spec_add);
    lemma_negated(s0);
    lemma_sum_not_negative(Format::Single, s1.bits as int, s0.negated().bits as int);
    lemma_shrunk(d, frac);
    if d.value() > e {
        let (low, high) = lemma_bracket(e, d);
        lemma_sub(s1, s0, low, high);
        if low.bits + 1 == high.bits {
            lemma_next(Format::Single, low.bits as int);
        } else {
            lemma_bits_order(Format::Single, high.bits as int, low.bits as int);
        }
        lemma_before_one(frac);
        let (x, l, h) = (d.value(), low.value(), high.value());
        assert(2 * (v * x) < (l + h) * u) by (nonlinear_arith)
            requires
                0x100_0000 * v <= 0xff_ffff * u,
                0 <= x <= h,
                0x80_0000 * (h - l) < h,
                u > 0,
                v >= 0,
        ;
        lemma_mul_below(frac, d, low);
    }
}

/// A number below one is below it by a part in 2^24 or more.
proof fn lemma_before_one(x: Single)
    requires
        x.is_finite(),
        0 <= x.value() < unit(),
    ensures
        0x100_0000 * x.value() <= 0xff_ffff * unit(),
{
    lemma_constants();
    let f = Format::Single;
    let (negative, _, _) = lemma_parts(f, x.bits as int);
    let m = if negative { x.bits - f.sign() } else { x.bits as int };
    lemma_sign_bit(f, m);
    lemma_bits_order(f, 0x3f80_0000, m);
    lemma_bits_order(f, m, 0x3f7f_ffff);
    lemma2_to64();
    lemma_constant(0x3f7f_ffff, 0x100_0000, 0xff_ffff);
}


/// Phases that are the same, the sign of a zero aside, give the same oscillator.
pub proof fn law_lfo_of_like_phases(a: Single, b: Single, waveform: Waveform, sine: Single)
    requires
        alike(a, b),
    ensures
        lfo(a, waveform, sine) == lfo(b, waveform, sine),
{
    if a != b {
        lemma_constants();
        lemma_compare(a, num(QUARTER));
        lemma_compare(b, num(QUARTER));
        lemma_compare(a, num(HALF));
        lemma_compare(b, num(HALF));
        lemma_doubled(a, num(0));
        lemma_doubled(b, num(0));
        lemma_plus_zero(num(HALF), a);
        lemma_plus_zero(num(HALF), b);
        lemma_plus_zero(num(HALF), num(TWO) * a);
        lemma_plus_zero(num(HALF), num(TWO) * b);
        lemma_same(num(HALF) + a, num(HALF));
        lemma_same(num(HALF) + b, num(HALF));
        lemma_same(num(HALF) - a, num(HALF));
        lemma_same(num(HALF) - b, num(HALF));
        lemma_same(num(HALF) + num(TWO) * a, num(HALF));
        lemma_same(num(HALF) + num(TWO) * b, num(HALF));
    }
}


/// A point between two samples, and how far rounding takes it.
pub proof fn lemma_linear_close(s0: Single, s1: Single, frac: Single, b: int, top: Single)
    requires
        s0.is_finite(),
        s1.is_finite(),
        frac.is_finite(),
        0 <= frac.value() <= unit(),
        size(s0.value()) <= b,
        size(s1.value()) <= b,
        b >= 0x100_0000,
        top.is_finite(),
        8 * b <= top.value(),
    ensures
        linear(s0, s1, frac).is_finite(),
        0x80_0000 * size(
            linear(s0, s1, frac).value() * unit() - (s0.value() * unit() + frac.value() * (
            s1.value() - s0.value())),
        ) <= 12 * (b * unit()),
{
    lemma_constants();
    let u = unit();
    let (v, w, f) = (s0.value(), s1.value(), frac.value());
    lemma_sub_error(s1, s0, top);
    let way = s1 - s0;
    let d = way.value();
    lemma_shrunk(way, frac);
    assert(size(d) <= 3 * b);
    let bu = b * u;
    assert(size(f * d) <= 3 * bu && 3 * bu <= top.value() * u) by (nonlinear_arith)
        requires
            0 <= f <= u,
            size(d) <= 3 * b,
            bu == b * u,
            8 * b <= top.value(),
            b > 0,
    ;
    lemma_mul_error(frac, way, top);
    let part = frac * way;
    let q = part.value();
    lemma_add_error(s0, part, top);
    let r = (s0 + part).value();
    // The three errors, the first one taken part of the way.
    let (e1, e2, e3) = (d - (w - v), q * u - f * d, r - (v + q));
    assert(0x80_0000 * size(f * e1) <= 2 * bu) by (nonlinear_arith)
        requires
            0x80_0000 * size(e1) <= 2 * b,
            0 <= f <= u,
            bu == b * u,
    ;
    assert(0x80_0000 * size(e3 * u) <= 4 * bu) by (nonlinear_arith)
        requires
            0x80_0000 * size(e3) <= 4 * b,
            bu == b * u,
            u > 0,
    ;
    assert(0x80_0002 * u <= bu) by (nonlinear_arith)
        requires
            bu == b * u,
            b >= 0x100_0000,
            u > 0,
    ;
    assert(r * u - (v * u + f * (w - v)) == e3 * u + e2 + f * e1) by (nonlinear_arith)
        requires
            e1 == d - (w - v),
            e2 == q * u - f * d,
            e3 == r - (v + q),
    ;
    let (x, z) = (e3 * u, f * e1);
    assert(0x80_0000 * size(e2) <= 4 * bu);
    assert(0x80_0000 * size(x + e2 + z) <= 12 * bu);
}


/// Points on the same part of the way between samples that are near each other.
pub proof fn lemma_way_near(
    a0: Single,
    a1: Single,
    b0: Single,
    b1: Single,
    frac: Single,
    e: int,
    m: int,
    top: Single,
)
    requires
        a0.is_finite() && size(a0.value()) <= m,
        a1.is_finite() && size(a1.value()) <= m,
        b0.is_finite() && size(b0.value()) <= m,
        b1.is_finite() && size(b1.value()) <= m,
        0x80_0000 * size(a0.value() - b0.value()) <= e,
        0x80_0000 * size(a1.value() - b1.value()) <= e,
        frac.is_finite(),
        0 <= frac.value() <= unit(),
        m >= 0x100_0000,
        top.is_finite(),
        8 * m <= top.value(),
    ensures
        linear(a0, a1, frac).is_finite(),
        linear(b0, b1, frac).is_finite(),
        0x80_0000 * size(linear(a0, a1, frac).value() - linear(b0, b1, frac).value()) <= e + 24 * m,
{
    lemma_constants();
    let u = unit();
    lemma_linear_close(a0, a1, frac, m, top);
    lemma_linear_close(b0, b1, frac, m, top);
    let (v0, v1, w0, w1, f) = (a0.value(), a1.value(), b0.value(), b1.value(), frac.value());
    let (x, y) = (v0 * u + f * (v1 - v0), w0 * u + f * (w1 - w0));
    let (d0, d1, g) = (v0 - w0, v1 - w1, u - f);
    assert(x - y == d0 * g + d1 * f) by (nonlinear_arith)
        requires
            x == v0 * u + f * (v1 - v0),
            y == w0 * u + f * (w1 - w0),
            d0 == v0 - w0,
            d1 == v1 - w1,
            g == u - f,
    ;
    assert(0x80_0000 * size(d0 * g) <= e * g && 0x80_0000 * size(d1 * f) <= e * f)
        by (nonlinear_arith)
        requires
            0x80_0000 * size(d0) <= e,
            0x80_0000 * size(d1) <= e,
            g >= 0,
            f >= 0,
    ;
    let eu = e * u;
    assert(e * g + e * f == eu) by (nonlinear_arith)
        requires
            g == u - f,
            eu == e * u,
    ;
    let (r, s) = (linear(a0, a1, frac).value(), linear(b0, b1, frac).value());
    let (ru, su, mu) = (r * u, s * u, m * u);
    let (z0, z1) = (d0 * g, d1 * f);
    assert(0x80_0000 * size(z0 + z1) <= eu);
    assert(0x80_0000 * size(ru - x) <= 12 * mu);
    assert(0x80_0000 * size(su - y) <= 12 * mu);
    assert(0x80_0000 * size(ru - su) <= eu + 24 * mu);
    assert(0x80_0000 * size(r - s) <= e + 24 * m) by (nonlinear_arith)
        requires
            0x80_0000 * size(r * u - s * u) <= e * u + 24 * (m * u),
            u > 0,
    ;
}

} // verus!
