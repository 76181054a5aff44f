//! Panning, in two ways.
//!
//! Panorama and precedence: gains by the tangent law and a delay per side that follows the pan
//! position. Good for loudspeakers.
//!
//! Time and level difference between the ears: a spherical head gives each ear a fractional
//! delay and a first-order shelf. Good for headphones.
use crate::audio::{put, resumes, silence, silent, AudioBuffer};
use crate::delay::lemma_apart;
use crate::float::double::Double;
use crate::float::facts::{
    law_add_commutes, lemma_add, lemma_add_error, lemma_alike_abs, lemma_cancelled, lemma_compare,
    lemma_constant, lemma_constants, lemma_even_part, lemma_finite_number, lemma_floor,
    lemma_from_usize, lemma_mul, lemma_mul_error, lemma_negated, lemma_opposite_add,
    lemma_opposite_mul, lemma_part, lemma_plus_zero, lemma_remainder, lemma_same, lemma_shrunk,
    lemma_sub, lemma_sub_error, lemma_times_one, lemma_to_usize, lemma_twice_negated,
    lemma_unit_positive, lemma_whole, lemma_within, size, unit, within,
};
use crate::float::single::{num, Single};
use crate::modulation::{
    law_linear_between, law_linear_starts_at_first, lemma_linear_close, linear, HALF, ONE, TWO,
};
use crate::ring::{
    advance, ahead, lemma_ahead_next, lemma_ahead_none, lemma_signed_whole, lemma_wrapped, tap,
    EXACT_LINE, MAX_LINE,
};
use vstd::arithmetic::div_mod::{
    lemma_add_mod_noop, lemma_fundamental_div_mod, lemma_fundamental_div_mod_converse,
    lemma_mod_bound, lemma_mod_multiples_vanish, lemma_mod_twice, lemma_small_mod,
};
use vstd::arithmetic::power2::{lemma2_to64, lemma_pow2_strictly_increases};
use vstd::prelude::*;

verus! {

/// Half the circle constant pi.
pub const HALF_PI: u32 = 0x3fc9_0fdb;

/// 30 degrees, in radians.
pub const THETA_PANORAMA: u32 = 0x3f06_0a92;

/// 90 degrees, in radians.
pub const THETA_HEAD: u32 = 0x3fc9_0fdb;

/// The radius of a head, 0.085 metres.
pub const HEAD_RADIUS: u32 = 0x3dae_147b;

/// The speed of sound, 340 metres per second.
pub const SPEED_OF_SOUND: u32 = 0x43aa_0000;

/// The longest panorama delay, a thousandth of a second.
pub const MAX_DELAY_SECS: u32 = 0x3a83_126f;

/// The sample rate before the first reset, 44100.
pub const DEFAULT_RATE: u32 = 0x472c_4400;

#[derive(Clone, Copy, PartialEq, Eq, Structural, Debug)]
pub enum Method {
    PanoramaPrecedence,
    ItdIld,
}

/// What the controls say over one block. The list holds one value per sample.
pub struct PanningParams {
    pub method: Method,
    pub pan: Vec<Single>,
}

/// A delay line that is written and then read a fractional number of samples back.
pub struct Delay {
    pub buf: Vec<Single>,
    pub write: usize,
}

/// The contents of a delay line and the slot that is written next.
pub struct Line {
    pub buf: Seq<Single>,
    pub write: usize,
}

impl Line {
    pub open spec fn wf(self) -> bool {
        self.write < self.buf.len() <= MAX_LINE
    }

    /// The line with one more sample in it.
    pub open spec fn written(self, sample: Single) -> Line {
        Line {
            buf: self.buf.update(self.write as int, sample),
            write: ahead(self.write, 1, self.buf.len() as usize) as usize,
        }
    }

    /// The line with the first `i` samples of `input` in it.
    pub open spec fn fed(self, input: Seq<Single>, i: nat) -> Line
        decreases i,
    {
        if i == 0 {
            self
        } else {
            self.fed(input, (i - 1) as nat).written(input[i - 1])
        }
    }

    /// The line read `delay` samples before the last one written.
    pub open spec fn read(self, delay: Single) -> Single {
        let len = self.buf.len() as usize;
        let place = tap(position(self.write, delay, len), len);
        linear(
            self.buf[place.index as int],
            self.buf[(place.index + 1) % (len as int)],
            place.frac,
        )
    }
}

pub open spec fn position_spec(write: usize, delay: Single, len: usize) -> Single {
    (Single::from_usize(write) - num(ONE) - delay + Single::from_usize(len)).rem_euclid(
        Single::from_usize(len),
    )
}

/// The position `delay` samples before the last one written, wrapped onto the ring.
#[verifier::when_used_as_spec(position_spec)]
pub fn position(write: usize, delay: Single, len: usize) -> (r: Single)
    ensures
        r == position_spec(write, delay, len),
{
    let whole = Single::from_usize(len);
    (Single::from_usize(write) - num(ONE) - delay + whole).rem_euclid(whole)
}

impl View for Delay {
    type V = Line;

    open spec fn view(&self) -> Line {
        Line { buf: self.buf@, write: self.write }
    }
}

impl Delay {
    /// A silent line that can be read `max_samples` back.
    pub fn new(max_samples: usize) -> (r: Delay)
        requires
            max_samples + 2 <= MAX_LINE,
        ensures
            r@.wf(),
            r.buf@ == silent((max_samples + 2) as nat),
            r.write == 0,
    {
        Delay { buf: silence(max_samples + 2), write: 0 }
    }

    /// Puts a sample in.
    pub fn write(&mut self, sample: Single)
        requires
            old(self)@.wf(),
        ensures
            final(self)@.wf(),
            final(self)@.buf.len() == old(self)@.buf.len(),
            final(self)@ == old(self)@.written(sample),
    {
        let len = self.buf.len();
        self.buf[self.write] = sample;
        self.write = advance(self.write, len);
    }

    /// Reads the line `delay_samples` before the last sample put in.
    pub fn read(&self, delay_samples: Single) -> (r: Single)
        requires
            self@.wf(),
        ensures
            r == self@.read(delay_samples),
    {
        let len = self.buf.len();
        let place = tap(position(self.write, delay_samples, len), len);
        linear(self.buf[place.index], self.buf[(place.index + 1) % len], place.frac)
    }
}

/// A first-order shelf and the last sample on each side of it.
#[derive(Clone, Copy, PartialEq, Eq, Structural)]
pub struct ShelfFilter {
    pub b0: Single,
    pub b1: Single,
    pub a1: Single,
    pub x1: Single,
    pub y1: Single,
}

impl ShelfFilter {
    /// The filter with the coefficients for an angle with the cosine `cosine`.
    pub open spec fn updated(self, cosine: Single, head_factor: Single) -> ShelfFilter {
        let alpha = num(ONE) + cosine;
        let inv = num(ONE) / (head_factor + num(ONE));
        ShelfFilter {
            b0: (head_factor + alpha) * inv,
            b1: (head_factor - alpha) * inv,
            a1: (head_factor - num(ONE)) * inv,
            ..self
        }
    }

    /// What the filter makes of a sample.
    pub open spec fn response(self, x: Single) -> Single {
        self.b0 * x + self.b1 * self.x1 - self.a1 * self.y1
    }

    /// The filter after a sample.
    pub open spec fn stepped(self, x: Single) -> ShelfFilter {
        ShelfFilter { x1: x, y1: self.response(x), ..self }
    }

    /// Takes the coefficients for an angle with the cosine `cosine`.
    pub fn update(&mut self, cosine: Single, head_factor: Single)
        ensures
            *final(self) == old(self).updated(cosine, head_factor),
    {
        let alpha = num(ONE) + cosine;
        let a0 = head_factor + num(ONE);
        let inv = num(ONE) / a0;
        self.b0 = (head_factor + alpha) * inv;
        self.b1 = (head_factor - alpha) * inv;
        self.a1 = (head_factor - num(ONE)) * inv;
    }

    /// Filters one sample.
    pub fn process(&mut self, x: Single) -> (y: Single)
        ensures
            y == old(self).response(x),
            *final(self) == old(self).stepped(x),
    {
        let y = self.b0 * x + self.b1 * self.x1 - self.a1 * self.y1;
        self.x1 = x;
        self.y1 = y;
        y
    }

    /// Forgets the last samples and keeps the coefficients.
    pub fn reset(&mut self)
        ensures
            *final(self) == (ShelfFilter { x1: num(0), y1: num(0), ..*old(self) }),
    {
        self.x1 = num(0);
        self.y1 = num(0);
    }
}

impl Default for ShelfFilter {
    fn default() -> (r: ShelfFilter)
        ensures
            r == (ShelfFilter { b0: num(0), b1: num(0), a1: num(0), x1: num(0), y1: num(0) }),
    {
        ShelfFilter { b0: num(0), b1: num(0), a1: num(0), x1: num(0), y1: num(0) }
    }
}

/// The effect; its state is a `PanningDsp`.
pub struct Panning;

pub struct PanningDsp {
    pub sample_rate: Single,
    pub max_delay_samples: usize,
    pub delay_l: Delay,
    pub delay_r: Delay,
    pub filter_l: ShelfFilter,
    pub filter_r: ShelfFilter,
}

/// The sines and cosines of a block. For the panorama they are those of its fixed angle and, per
/// sample, of `panorama_angles`; for the head, the cosines of the two `head_angles`.
pub struct PanningTrig {
    pub theta: (Single, Single),
    pub pairs: Vec<(Single, Single)>,
}

impl Default for PanningDsp {
    fn default() -> (r: PanningDsp)
        ensures
            r.wf(),
            r.sample_rate == num(DEFAULT_RATE),
            r.max_delay_samples == 1,
            r.delay_l.buf@ == silent(3),
            r.delay_l.write == 0,
            r.delay_r.buf@ == silent(3),
            r.delay_r.write == 0,
            r.filter_l == (ShelfFilter {
                b0: num(0),
                b1: num(0),
                a1: num(0),
                x1: num(0),
                y1: num(0),
            }),
            r.filter_r == r.filter_l,
    {
        PanningDsp {
            sample_rate: num(DEFAULT_RATE),
            max_delay_samples: 1,
            delay_l: Delay::new(1),
            delay_r: Delay::new(1),
            filter_l: ShelfFilter::default(),
            filter_r: ShelfFilter::default(),
        }
    }
}

/// The longest panorama delay, in samples, that a reset sets.
pub open spec fn longest_delay(sample_rate: Double) -> int {
    let len = (num(MAX_DELAY_SECS) * sample_rate.narrow()).to_usize() as int;
    if len < 1 { 1 } else { len }
}

/// The panorama angle of a pan position.
pub open spec fn panorama_angle(pan: Single) -> Single {
    pan.negated() * num(THETA_PANORAMA)
}

/// The head angle of a pan position for an ear: a quarter turn to the left or to the right.
pub open spec fn head_angle(pan: Single, left: bool) -> Single {
    let phi = pan * num(THETA_HEAD);
    if left { phi + num(HALF_PI) } else { phi - num(HALF_PI) }
}

pub open spec fn panorama_gains_spec(
    theta: (Single, Single),
    phi: (Single, Single),
) -> (Single, Single, Single) {
    let (st, ct) = theta;
    let (sp, cp) = phi;
    let gain_l = cp * st + sp * ct;
    let gain_r = cp * st - sp * ct;
    (gain_l, gain_r, num(ONE) / (gain_l * gain_l + gain_r * gain_r).sqrt())
}

/// The gain of either side by the tangent law, and the factor that keeps the power constant.
/// The arguments are the sine and the cosine of the two angles.
#[verifier::when_used_as_spec(panorama_gains_spec)]
pub fn panorama_gains(theta: (Single, Single), phi: (Single, Single)) -> (r: (
    Single,
    Single,
    Single,
))
    ensures
        r == panorama_gains_spec(theta, phi),
{
    let (st, ct) = theta;
    let (sp, cp) = phi;
    let gain_l = cp * st + sp * ct;
    let gain_r = cp * st - sp * ct;
    let norm = num(ONE) / (gain_l * gain_l + gain_r * gain_r).sqrt();
    (gain_l, gain_r, norm)
}

pub open spec fn panorama_delays_spec(max_delay_samples: usize, pan: Single) -> (Single, Single) {
    let max_delay = Single::from_usize(max_delay_samples);
    let factor = (pan + num(ONE)) * num(HALF);
    (max_delay * factor, max_delay * (num(ONE) - factor))
}

/// The delay of either side at a pan position.
#[verifier::when_used_as_spec(panorama_delays_spec)]
pub fn panorama_delays(max_delay_samples: usize, pan: Single) -> (r: (Single, Single))
    ensures
        r == panorama_delays_spec(max_delay_samples, pan),
{
    let max_delay = Single::from_usize(max_delay_samples);
    let factor = (pan + num(ONE)) * num(HALF);
    (max_delay * factor, max_delay * (num(ONE) - factor))
}

pub open spec fn head_delay_spec(sample_rate: Single, angle: Single, cosine: Single) -> Single {
    let head_factor = sample_rate * num(HEAD_RADIUS) / num(SPEED_OF_SOUND);
    if angle.abs().lt(num(HALF_PI)) {
        head_factor * (num(ONE) - cosine)
    } else {
        head_factor * (angle.abs() + num(ONE) - num(HALF_PI))
    }
}

/// How long sound takes to an ear at an angle with the given cosine, in samples: straight
/// towards the near side of the head, around it to the far side.
#[verifier::when_used_as_spec(head_delay_spec)]
pub fn head_delay(sample_rate: Single, angle: Single, cosine: Single) -> (r: Single)
    ensures
        r == head_delay_spec(sample_rate, angle, cosine),
{
    let head_factor = sample_rate * num(HEAD_RADIUS) / num(SPEED_OF_SOUND);
    if angle.abs().lt(num(HALF_PI)) {
        head_factor * (num(ONE) - cosine)
    } else {
        head_factor * (angle.abs() + num(ONE) - num(HALF_PI))
    }
}

pub open spec fn shelf_factor_spec() -> Single {
    num(HEAD_RADIUS) / num(SPEED_OF_SOUND)
}

/// The factor of the shelves.
#[verifier::when_used_as_spec(shelf_factor_spec)]
pub fn shelf_factor() -> (r: Single)
    ensures
        r == shelf_factor_spec(),
{
    num(HEAD_RADIUS) / num(SPEED_OF_SOUND)
}

/// The first `n` samples that the panorama sends out on the left or on the right, read from
/// `line`, which is fed with the input.
pub open spec fn panorama_rendered(
    max_delay_samples: usize,
    pan: Seq<Single>,
    trig: PanningTrig,
    line: Line,
    input: Seq<Single>,
    left: bool,
    n: nat,
) -> Seq<Single> {
    Seq::new(
        n,
        |i: int|
            {
                let (gain_l, gain_r, norm) = panorama_gains(trig.theta, trig.pairs@[i]);
                let (delay_l, delay_r) = panorama_delays(max_delay_samples, pan[i]);
                let fed = line.fed(input, i as nat + 1);
                if left {
                    fed.read(delay_l) * gain_l * norm
                } else {
                    fed.read(delay_r) * gain_r * norm
                }
            },
    )
}

/// What an ear's line gives at sample `i`, before its shelf.
pub open spec fn ear_delayed(
    sample_rate: Single,
    pan: Seq<Single>,
    trig: PanningTrig,
    line: Line,
    input: Seq<Single>,
    left: bool,
    i: nat,
) -> Single {
    let cosine = if left { trig.pairs@[i as int].0 } else { trig.pairs@[i as int].1 };
    line.fed(input, i + 1).read(
        head_delay(sample_rate, head_angle(pan[i as int], left), cosine),
    )
}

/// The shelf of an ear with the coefficients for sample `i`, before it has seen that sample.
pub open spec fn ear_shelf(
    sample_rate: Single,
    pan: Seq<Single>,
    trig: PanningTrig,
    line: Line,
    filter: ShelfFilter,
    input: Seq<Single>,
    left: bool,
    i: nat,
) -> ShelfFilter {
    let cosine = if left { trig.pairs@[i as int].0 } else { trig.pairs@[i as int].1 };
    ear_filter(sample_rate, pan, trig, line, filter, input, left, i).updated(
        cosine,
        shelf_factor(),
    )
}

/// The shelf of an ear after `i` samples.
pub open spec fn ear_filter(
    sample_rate: Single,
    pan: Seq<Single>,
    trig: PanningTrig,
    line: Line,
    filter: ShelfFilter,
    input: Seq<Single>,
    left: bool,
    i: nat,
) -> ShelfFilter
    decreases i,
{
    if i == 0 {
        filter
    } else {
        let k = (i - 1) as nat;
        let cosine = if left { trig.pairs@[k as int].0 } else { trig.pairs@[k as int].1 };
        ear_filter(sample_rate, pan, trig, line, filter, input, left, k).updated(
            cosine,
            shelf_factor(),
        ).stepped(ear_delayed(sample_rate, pan, trig, line, input, left, k))
    }
}

/// The first `n` samples that the head model sends out to an ear.
pub open spec fn ear_rendered(
    sample_rate: Single,
    pan: Seq<Single>,
    trig: PanningTrig,
    line: Line,
    filter: ShelfFilter,
    input: Seq<Single>,
    left: bool,
    n: nat,
) -> Seq<Single> {
    Seq::new(
        n,
        |i: int|
            ear_shelf(sample_rate, pan, trig, line, filter, input, left, i as nat).response(
                ear_delayed(sample_rate, pan, trig, line, input, left, i as nat),
            ),
    )
}

/// Takes one side of the panorama through a block.
fn render_panorama(
    max_delay_samples: usize,
    params: &PanningParams,
    trig: &PanningTrig,
    delay: &mut Delay,
    input: &Vec<Single>,
    left: bool,
    out: &mut Vec<Single>,
)
    requires
        old(out)@.len() == input@.len(),
        old(delay)@.wf(),
        params.pan@.len() >= input@.len(),
        trig.pairs@.len() >= input@.len(),
    ensures
        final(delay)@.wf(),
        final(delay)@ == old(delay)@.fed(input@, input@.len()),
        final(out)@ == panorama_rendered(
            max_delay_samples,
            params.pan@,
            *trig,
            old(delay)@,
            input@,
            left,
            input@.len(),
        ),
{
    let ghost line = delay@;
    let n = input.len();
    let mut i: usize = 0;
    while i < n
        invariant
            i <= n,
            n == input@.len(),
            params.pan@.len() >= n,
            trig.pairs@.len() >= n,
            delay@.wf(),
            delay@ == line.fed(input@, i as nat),
            out@.len() == n,
            out@.take(i as int) == panorama_rendered(
                max_delay_samples,
                params.pan@,
                *trig,
                line,
                input@,
                left,
                i as nat,
            ),
        decreases n - i,
    {
        let (gain_l, gain_r, norm) = panorama_gains(trig.theta, trig.pairs[i]);
        let (delay_l, delay_r) = panorama_delays(max_delay_samples, params.pan[i]);
        delay.write(input[i]);
        assert(delay@ == line.fed(input@, (i + 1) as nat));
        if left {
            put(out, i, delay.read(delay_l) * gain_l * norm);
        } else {
            put(out, i, delay.read(delay_r) * gain_r * norm);
        }
        i = i + 1;
    }
    assert(out@.take(n as int) == out@);
}

/// Takes one ear of the head model through a block.
fn render_ear(
    sample_rate: Single,
    params: &PanningParams,
    trig: &PanningTrig,
    delay: &mut Delay,
    filter: &mut ShelfFilter,
    input: &Vec<Single>,
    left: bool,
    out: &mut Vec<Single>,
)
    requires
        old(out)@.len() == input@.len(),
        old(delay)@.wf(),
        params.pan@.len() >= input@.len(),
        trig.pairs@.len() >= input@.len(),
    ensures
        final(delay)@.wf(),
        final(delay)@ == old(delay)@.fed(input@, input@.len()),
        *final(filter) == ear_filter(
            sample_rate,
            params.pan@,
            *trig,
            old(delay)@,
            *old(filter),
            input@,
            left,
            input@.len(),
        ),
        final(out)@ == ear_rendered(
            sample_rate,
            params.pan@,
            *trig,
            old(delay)@,
            *old(filter),
            input@,
            left,
            input@.len(),
        ),
{
    let ghost line = delay@;
    let ghost start = *filter;
    let n = input.len();
    let mut i: usize = 0;
    while i < n
        invariant
            i <= n,
            n == input@.len(),
            params.pan@.len() >= n,
            trig.pairs@.len() >= n,
            delay@.wf(),
            delay@ == line.fed(input@, i as nat),
            *filter == ear_filter(
                sample_rate,
                params.pan@,
                *trig,
                line,
                start,
                input@,
                left,
                i as nat,
            ),
            out@.len() == n,
            out@.take(i as int) == ear_rendered(
                sample_rate,
                params.pan@,
                *trig,
                line,
                start,
                input@,
                left,
                i as nat,
            ),
        decreases n - i,
    {
        let phi = params.pan[i] * num(THETA_HEAD);
        let angle = if left { phi + num(HALF_PI) } else { phi - num(HALF_PI) };
        let cosine = if left { trig.pairs[i].0 } else { trig.pairs[i].1 };
        let time = head_delay(sample_rate, angle, cosine);
        filter.update(cosine, shelf_factor());
        delay.write(input[i]);
        assert(delay@ == line.fed(input@, (i + 1) as nat));
        let delayed = delay.read(time);
        assert(delayed == ear_delayed(
            sample_rate,
            params.pan@,
            *trig,
            line,
            input@,
            left,
            i as nat,
        ));
        put(out, i, filter.process(delayed));
        i = i + 1;
    }
    assert(out@.take(n as int) == out@);
}

impl PanningDsp {
    pub open spec fn wf(self) -> bool {
        self.delay_l@.wf() && self.delay_r@.wf()
    }
}

impl Panning {
    /// Silences both lines, at the length that the sample rate asks for.
    pub fn reset(state: &mut PanningDsp, sample_rate: Double)
        requires
            longest_delay(sample_rate) + 2 <= MAX_LINE,
        ensures
            final(state).wf(),
            final(state).sample_rate == sample_rate.narrow(),
            final(state).max_delay_samples == longest_delay(sample_rate),
            final(state).delay_l.buf@ == silent((longest_delay(sample_rate) + 2) as nat),
            final(state).delay_l.write == 0,
            final(state).delay_r.buf@ == silent((longest_delay(sample_rate) + 2) as nat),
            final(state).delay_r.write == 0,
            final(state).filter_l == (ShelfFilter {
                x1: num(0),
                y1: num(0),
                ..old(state).filter_l
            }),
            final(state).filter_r == (ShelfFilter {
                x1: num(0),
                y1: num(0),
                ..old(state).filter_r
            }),
    {
        let sr = sample_rate.narrow();
        state.sample_rate = sr;
        let len = (num(MAX_DELAY_SECS) * sr).to_usize();
        state.max_delay_samples = if len < 1 { 1 } else { len };
        state.delay_l = Delay::new(state.max_delay_samples);
        state.delay_r = Delay::new(state.max_delay_samples);
        state.filter_l.reset();
        state.filter_r.reset();
    }

    /// The angles whose sines and cosines the panorama needs, one per sample.
    pub fn panorama_angles(params: &PanningParams, n: usize) -> (r: Vec<Single>)
        requires
            params.pan@.len() >= n,
        ensures
            r@ == Seq::new(n as nat, |i: int| panorama_angle(params.pan@[i])),
    {
        let mut r: Vec<Single> = Vec::new();
        let mut i: usize = 0;
        while i < n
            invariant
                i <= n,
                params.pan@.len() >= n,
                r@ == Seq::new(i as nat, |k: int| panorama_angle(params.pan@[k])),
            decreases n - i,
        {
            r.push(params.pan[i].negated() * num(THETA_PANORAMA));
            i = i + 1;
        }
        r
    }

    /// The angles whose cosines the head model needs, those of the left ear and of the right one
    /// for every sample.
    pub fn head_angles(params: &PanningParams, n: usize) -> (r: Vec<(Single, Single)>)
        requires
            params.pan@.len() >= n,
        ensures
            r@ == Seq::new(
                n as nat,
                |i: int| (head_angle(params.pan@[i], true), head_angle(params.pan@[i], false)),
            ),
    {
        let mut r: Vec<(Single, Single)> = Vec::new();
        let mut i: usize = 0;
        while i < n
            invariant
                i <= n,
                params.pan@.len() >= n,
                r@ == Seq::new(
                    i as nat,
                    |k: int| (head_angle(params.pan@[k], true), head_angle(params.pan@[k], false)),
                ),
            decreases n - i,
        {
            let phi = params.pan[i] * num(THETA_HEAD);
            r.push((phi + num(HALF_PI), phi - num(HALF_PI)));
            i = i + 1;
        }
        r
    }

    /// Works on one block. Both sides hear the first channel; fewer than two channels are left
    /// alone.
    pub fn process(
        state: &mut PanningDsp,
        params: &PanningParams,
        trig: &PanningTrig,
        buffer: &mut AudioBuffer,
    )
        requires
            old(state).wf(),
            old(buffer).wf(),
            params.pan@.len() >= old(buffer).samples,
            trig.pairs@.len() >= old(buffer).samples,
        ensures
            final(state).wf(),
            final(state).sample_rate == old(state).sample_rate,
            final(state).max_delay_samples == old(state).max_delay_samples,
            old(buffer).input@.len() < 2 ==> *final(state) == *old(state) && *final(buffer)
                == *old(buffer),
            old(buffer).input@.len() >= 2 ==> {
                let input = old(buffer).incoming(0);
                let n = old(buffer).samples as nat;
                &&& final(state).delay_l@ == old(state).delay_l@.fed(input, n)
                &&& final(state).delay_r@ == old(state).delay_r@.fed(input, n)
                &&& final(buffer).rewritten(*old(buffer), 2)
            },
            old(buffer).input@.len() >= 2 && params.method is PanoramaPrecedence ==> {
                let input = old(buffer).incoming(0);
                let n = old(buffer).samples as nat;
                let longest = old(state).max_delay_samples;
                &&& final(state).filter_l == old(state).filter_l
                &&& final(state).filter_r == old(state).filter_r
                &&& final(buffer).output@[0]@ == panorama_rendered(
                    longest,
                    params.pan@,
                    *trig,
                    old(state).delay_l@,
                    input,
                    true,
                    n,
                )
                &&& final(buffer).output@[1]@ == panorama_rendered(
                    longest,
                    params.pan@,
                    *trig,
                    old(state).delay_r@,
                    input,
                    false,
                    n,
                )
            },
            old(buffer).input@.len() >= 2 && params.method is ItdIld ==> {
                let input = old(buffer).incoming(0);
                let n = old(buffer).samples as nat;
                let sr = old(state).sample_rate;
                &&& final(state).filter_l == ear_filter(
                    sr,
                    params.pan@,
                    *trig,
                    old(state).delay_l@,
                    old(state).filter_l,
                    input,
                    true,
                    n,
                )
                &&& final(state).filter_r == ear_filter(
                    sr,
                    params.pan@,
                    *trig,
                    old(state).delay_r@,
                    old(state).filter_r,
                    input,
                    false,
                    n,
                )
                &&& final(buffer).output@[0]@ == ear_rendered(
                    sr,
                    params.pan@,
                    *trig,
                    old(state).delay_l@,
                    old(state).filter_l,
                    input,
                    true,
                    n,
                )
                &&& final(buffer).output@[1]@ == ear_rendered(
                    sr,
                    params.pan@,
                    *trig,
                    old(state).delay_r@,
                    old(state).filter_r,
                    input,
                    false,
                    n,
                )
            },
    {
        if buffer.channels() < 2 {
            return ;
        }
        let longest = state.max_delay_samples;
        let sr = state.sample_rate;
        match params.method {
            Method::PanoramaPrecedence => {
                let input = &buffer.input[0];
                let (left, right) = (&mut state.delay_l, &mut state.delay_r);
                render_panorama(longest, params, trig, left, input, true, &mut buffer.output[0]);
                render_panorama(longest, params, trig, right, input, false, &mut buffer.output[1]);
            },
            Method::ItdIld => {
                let input = &buffer.input[0];
                render_ear(
                    sr,
                    params,
                    trig,
                    &mut state.delay_l,
                    &mut state.filter_l,
                    input,
                    true,
                    &mut buffer.output[0],
                );
                render_ear(
                    sr,
                    params,
                    trig,
                    &mut state.delay_r,
                    &mut state.filter_r,
                    input,
                    false,
                    &mut buffer.output[1],
                );
            },
        }
    }
}

/// A fed line keeps its length, and the sample put in `back` samples before the last one is in
/// the slot so many before.
pub proof fn lemma_fed(line: Line, input: Seq<Single>, i: nat, back: nat)
    requires
        line.wf(),
        back < line.buf.len(),
        back < i,
    ensures
        line.fed(input, i).buf.len() == line.buf.len(),
        line.fed(input, i).write == ahead(line.write, i, line.buf.len() as usize),
        line.fed(input, i).buf[ahead(
            line.write,
            (i - 1 - back) as nat,
            line.buf.len() as usize,
        )] == input[i - 1 - back],
    decreases i,
{
    let len = line.buf.len() as usize;
    let k = (i - 1) as nat;
    lemma_fed_shape(line, input, k);
    lemma_ahead_next(line.write, k, len);
    if back > 0 {
        lemma_fed(line, input, k, (back - 1) as nat);
        lemma_apart(line.write, (k - back) as nat, k, len);
        lemma_ahead_next(line.write, (k - back) as nat, len);
    }
}

proof fn lemma_fed_shape(line: Line, input: Seq<Single>, i: nat)
    requires
        line.wf(),
    ensures
        line.fed(input, i).buf.len() == line.buf.len(),
        line.fed(input, i).write == ahead(line.write, i, line.buf.len() as usize),
        line.fed(input, i).wf(),
    decreases i,
{
    let len = line.buf.len() as usize;
    if i == 0 {
        lemma_ahead_none(line.write, len);
    } else {
        lemma_fed_shape(line, input, (i - 1) as nat);
        lemma_ahead_next(line.write, (i - 1) as nat, len);
    }
}

/// A line that is read a whole number of samples back gives the sample that was put in then.
pub proof fn law_reads_back(line: Line, input: Seq<Single>, i: nat, delay: Single, back: usize)
    requires
        line.wf(),
        line.buf.len() <= EXACT_LINE,
        back < line.buf.len(),
        back < i,
        delay.is_finite(),
        delay.value() == back * unit(),
        input[i - 1 - back].is_finite(),
        ({
            let fed = line.fed(input, i);
            let len = line.buf.len() as usize;
            let at = ahead(line.write, (i - 1 - back) as nat, len);
            (fed.buf[(at + 1) % (len as int)] - fed.buf[at]).is_finite()
        }),
    ensures
        line.fed(input, i).read(delay).is_finite(),
        line.fed(input, i).read(delay).value() == input[i - 1 - back].value(),
{
    let fed = line.fed(input, i);
    let len = line.buf.len() as usize;
    let n = len as int;
    lemma_fed(line, input, i, back as nat);
    lemma_fed_shape(line, input, i);
    let write = fed.write;
    let k = (i - 1 - back) as nat;
    let at = ahead(line.write, k, len);
    lemma_ahead_next(line.write, k, len);
    lemma_constants();
    lemma_from_usize(write);
    lemma_from_usize(len);
    let u = unit();
    let (w, b) = (write as int, back as int);
    // Each step is exact.
    let first = lemma_signed_whole(w - 1);
    let second = lemma_signed_whole(w - 1 - b);
    let third = lemma_signed_whole(w - 1 - b + n);
    assert((w - 1) * u == w * u - u && (w - 1 - b) * u == (w - 1) * u - b * u && (w - 1 - b + n) * u
        == (w - 1 - b) * u + n * u) by (nonlinear_arith);
    let (fw, fl) = (Single::from_usize(write), Single::from_usize(len));
    lemma_sub(fw, num(ONE), first, first);
    lemma_sub(fw - num(ONE), delay, second, second);
    lemma_add(fw - num(ONE) - delay, fl, third, third);
    let m = (w - 1 - b + n) as nat;
    lemma_wrapped(fw - num(ONE) - delay + fl, m, len);
    assert(m % (n as nat) == at) by {
        let base = (line.write + k) as int;
        lemma_fundamental_div_mod(line.write + i, n);
        let q = (line.write + i) as int / n;
        assert(n * (1 - q) + base == m) by (nonlinear_arith)
            requires
                line.write + i == n * q + w,
                base == line.write + i - 1 - b,
                m == w - 1 - b + n,
        ;
        lemma_mod_multiples_vanish(1 - q, base, n);
    }
    let place = tap(position(write, delay, len), len);
    law_linear_starts_at_first(fed.buf[at], fed.buf[(at + 1) % n], place.frac);
}

/// In the middle both sides of the panorama are delayed alike.
pub proof fn law_centre_delays_alike(max_delay_samples: usize)
    ensures
        panorama_delays(max_delay_samples, num(0)).0 == panorama_delays(
            max_delay_samples,
            num(0),
        ).1,
{
    lemma_constants();
    lemma_plus_zero(num(ONE), num(0));
    lemma_same(num(0) + num(ONE), num(ONE));
    lemma_finite_number(num(HALF));
    lemma_times_one(num(HALF));
    let factor = num(ONE) * num(HALF);
    lemma_sub(num(ONE), factor, num(HALF), num(HALF));
    lemma_same(num(ONE) - factor, num(HALF));
}

/// What one block leaves on a line, its two parts leave one after the other.
pub proof fn law_line_joins(
    line: Line,
    input: Seq<Single>,
    part_input: Seq<Single>,
    i: nat,
    j: nat,
)
    requires
        resumes(part_input, input, i, j),
    ensures
        line.fed(input, i + j) == line.fed(input, i).fed(part_input, j),
    decreases j,
{
    if j > 0 {
        let k = (j - 1) as nat;
        assert((i + j - 1) as nat == i + k);
        law_line_joins(line, input, part_input, i, k);
        assert(part_input[k as int] == input[(i + k) as int]);
    }
}

impl PanningTrig {
    /// Whether this is what `whole` holds from sample `i` on, for `n` samples.
    pub open spec fn resumes(self, whole: PanningTrig, i: nat, n: nat) -> bool {
        self.theta == whole.theta && resumes(self.pairs@, whole.pairs@, i, n)
    }
}

/// What the panorama sends out in one block goes out in its two parts, one after the other.
pub proof fn law_panorama_joins(
    max_delay_samples: usize,
    pan: Seq<Single>,
    part_pan: Seq<Single>,
    trig: PanningTrig,
    part_trig: PanningTrig,
    line: Line,
    input: Seq<Single>,
    part_input: Seq<Single>,
    left: bool,
    i: nat,
    j: nat,
)
    requires
        resumes(part_pan, pan, i, j),
        part_trig.resumes(trig, i, j),
        resumes(part_input, input, i, j),
    ensures
        panorama_rendered(max_delay_samples, pan, trig, line, input, left, i + j)
            == panorama_rendered(max_delay_samples, pan, trig, line, input, left, i)
            + panorama_rendered(
            max_delay_samples,
            part_pan,
            part_trig,
            line.fed(input, i),
            part_input,
            left,
            j,
        ),
{
    let both = panorama_rendered(max_delay_samples, pan, trig, line, input, left, i)
        + panorama_rendered(
        max_delay_samples,
        part_pan,
        part_trig,
        line.fed(input, i),
        part_input,
        left,
        j,
    );
    let all = panorama_rendered(max_delay_samples, pan, trig, line, input, left, i + j);
    assert forall|m: int| 0 <= m < i + j implies #[trigger] all[m] == both[m] by {
        if m >= i {
            let k = (m - i) as nat;
            assert((m as nat + 1) as nat == i + (k + 1));
            law_line_joins(line, input, part_input, i, k + 1);
            assert(part_pan[k as int] == pan[(i + k) as int]);
            assert(part_trig.pairs@[k as int] == trig.pairs@[(i + k) as int]);
        }
    }
    assert(all =~= both);
}

/// An ear hears the same at the same sample of one block and of its second part.
proof fn lemma_ear_delayed_joins(
    sample_rate: Single,
    pan: Seq<Single>,
    part_pan: Seq<Single>,
    trig: PanningTrig,
    part_trig: PanningTrig,
    line: Line,
    input: Seq<Single>,
    part_input: Seq<Single>,
    left: bool,
    i: nat,
    k: nat,
)
    requires
        resumes(part_pan, pan, i, k + 1),
        part_trig.resumes(trig, i, k + 1),
        resumes(part_input, input, i, k + 1),
    ensures
        part_trig.pairs@[k as int] == trig.pairs@[(i + k) as int],
        ear_delayed(sample_rate, pan, trig, line, input, left, i + k) == ear_delayed(
            sample_rate,
            part_pan,
            part_trig,
            line.fed(input, i),
            part_input,
            left,
            k,
        ),
{
    law_line_joins(line, input, part_input, i, k + 1);
    assert(i + k + 1 == i + (k + 1));
    assert(part_pan[k as int] == pan[(i + k) as int]);
}

/// A block leaves the shelf of an ear as its two parts leave it, one after the other.
pub proof fn law_ear_filter_joins(
    sample_rate: Single,
    pan: Seq<Single>,
    part_pan: Seq<Single>,
    trig: PanningTrig,
    part_trig: PanningTrig,
    line: Line,
    filter: ShelfFilter,
    input: Seq<Single>,
    part_input: Seq<Single>,
    left: bool,
    i: nat,
    j: nat,
)
    requires
        resumes(part_pan, pan, i, j),
        part_trig.resumes(trig, i, j),
        resumes(part_input, input, i, j),
    ensures
        ear_filter(sample_rate, pan, trig, line, filter, input, left, i + j) == ear_filter(
            sample_rate,
            part_pan,
            part_trig,
            line.fed(input, i),
            ear_filter(sample_rate, pan, trig, line, filter, input, left, i),
            part_input,
            left,
            j,
        ),
    decreases j,
{
    if j > 0 {
        let k = (j - 1) as nat;
        assert((i + j - 1) as nat == i + k);
        law_ear_filter_joins(
            sample_rate,
            pan,
            part_pan,
            trig,
            part_trig,
            line,
            filter,
            input,
            part_input,
            left,
            i,
            k,
        );
        lemma_ear_delayed_joins(
            sample_rate,
            pan,
            part_pan,
            trig,
            part_trig,
            line,
            input,
            part_input,
            left,
            i,
            k,
        );
    }
}

/// What an ear gets in one block it gets in its two parts, one after the other.
pub proof fn law_ear_joins(
    sample_rate: Single,
    pan: Seq<Single>,
    part_pan: Seq<Single>,
    trig: PanningTrig,
    part_trig: PanningTrig,
    line: Line,
    filter: ShelfFilter,
    input: Seq<Single>,
    part_input: Seq<Single>,
    left: bool,
    i: nat,
    j: nat,
)
    requires
        resumes(part_pan, pan, i, j),
        part_trig.resumes(trig, i, j),
        resumes(part_input, input, i, j),
    ensures
        ear_rendered(sample_rate, pan, trig, line, filter, input, left, i + j) == ear_rendered(
            sample_rate,
            pan,
            trig,
            line,
            filter,
            input,
            left,
            i,
        ) + ear_rendered(
            sample_rate,
            part_pan,
            part_trig,
            line.fed(input, i),
            ear_filter(sample_rate, pan, trig, line, filter, input, left, i),
            part_input,
            left,
            j,
        ),
{
    let both = ear_rendered(sample_rate, pan, trig, line, filter, input, left, i) + ear_rendered(
        sample_rate,
        part_pan,
        part_trig,
        line.fed(input, i),
        ear_filter(sample_rate, pan, trig, line, filter, input, left, i),
        part_input,
        left,
        j,
    );
    let all = ear_rendered(sample_rate, pan, trig, line, filter, input, left, i + j);
    assert forall|m: int| 0 <= m < i + j implies #[trigger] all[m] == both[m] by {
        if m >= i {
            let k = (m - i) as nat;
            assert(m as nat == i + k);
            law_ear_filter_joins(
                sample_rate,
                pan,
                part_pan,
                trig,
                part_trig,
                line,
                filter,
                input,
                part_input,
                left,
                i,
                k,
            );
            lemma_ear_delayed_joins(
                sample_rate,
                pan,
                part_pan,
                trig,
                part_trig,
                line,
                input,
                part_input,
                left,
                i,
                k,
            );
        }
    }
    assert(all =~= both);
}

/// For a pan position between -1 and 1 the panorama delays either side by no more than the longest
/// delay.
pub proof fn law_panorama_delays_in_range(max_delay_samples: usize, pan: Single)
    requires
        within(pan, num(0xbf80_0000), num(ONE)),
        Single::from_usize(max_delay_samples).is_finite(),
        Single::from_usize(max_delay_samples).value() >= 0,
    ensures
        ({
            let (delay_l, delay_r) = panorama_delays(max_delay_samples, pan);
            let longest = Single::from_usize(max_delay_samples);
            &&& within(delay_l, num(0), longest)
            &&& within(delay_r, num(0), longest)
        }),
{
    lemma_constants();
    let longest = Single::from_usize(max_delay_samples);
    lemma_within(pan, num(0xbf80_0000), num(ONE));
    lemma_add(pan, num(ONE), num(0), num(TWO));
    let sum = pan + num(ONE);
    let (v, h, u) = (sum.value(), num(HALF).value(), unit());
    assert(0 * u <= v * h <= u * u) by (nonlinear_arith)
        requires
            0 <= v <= 2 * u,
            2 * h == u,
    ;
    lemma_mul(sum, num(HALF), num(0), num(ONE));
    let factor = sum * num(HALF);
    lemma_sub(num(ONE), factor, num(0), num(ONE));
    lemma_shrunk(longest, factor);
    lemma_shrunk(longest, num(ONE) - factor);
    lemma_within(longest * factor, num(0), longest);
    lemma_within(longest * (num(ONE) - factor), num(0), longest);
}

/// A mirrored pan position turns the panorama angle round.
pub proof fn law_panorama_angle_mirrors(pan: Single)
    requires
        pan.is_finite(),
    ensures
        panorama_angle(pan.negated()) == panorama_angle(pan).negated(),
{
    lemma2_to64();
    lemma_constant(THETA_PANORAMA, 0x100_0000, 0x86_0a92);
    lemma_negated(pan);
    lemma_opposite_mul(pan.negated(), num(THETA_PANORAMA));
}

/// With the panorama angle turned round, so that its sine is turned round and its cosine stays, the
/// gains are exchanged.
pub proof fn law_gains_mirror(theta: (Single, Single), phi: (Single, Single))
    requires
        theta.1.is_finite(),
        phi.0.is_finite(),
    ensures
        ({
            let (gain_l, gain_r, norm) = panorama_gains(theta, phi);
            panorama_gains(theta, (phi.0.negated(), phi.1)) == (gain_r, gain_l, norm)
        }),
{
    let (gain_l, gain_r, norm) = panorama_gains(theta, phi);
    lemma_opposite_mul(phi.0, theta.1);
    lemma_twice_negated(phi.0 * theta.1);
    law_add_commutes(gain_l * gain_l, gain_r * gain_r);
}

/// At a mirrored pan position the delays of the two sides are exchanged, exactly so where the
/// position is a whole number of parts in 2^23.
pub proof fn law_delays_mirror(max_delay_samples: usize, pan: Single, k: int)
    requires
        pan.is_finite(),
        0x80_0000 * pan.value() == k * unit(),
        -0x80_0000 <= k <= 0x80_0000,
    ensures
        ({
            let (delay_l, delay_r) = panorama_delays(max_delay_samples, pan);
            panorama_delays(max_delay_samples, pan.negated()) == (delay_r, delay_l)
        }),
{
    lemma_negated(pan);
    lemma_whole_factor(pan, k);
    assert((-k) * unit() == -(k * unit())) by (nonlinear_arith);
    lemma_whole_factor(pan.negated(), -k);
    let (f, g) = ((pan + num(ONE)) * num(HALF), (pan.negated() + num(ONE)) * num(HALF));
    lemma_constants();
    assert((k + 0x80_0000) * unit() + (-k + 0x80_0000) * unit() == 0x100_0000 * unit())
        by (nonlinear_arith);
    lemma_sub(num(ONE), f, g, g);
    lemma_sub(num(ONE), g, f, f);
    if g.value() == 0 {
        lemma_negated(f);
        law_add_commutes(num(ONE), f.negated());
        lemma_cancelled(f.negated(), num(ONE));
    } else {
        lemma_same(num(ONE) - f, g);
    }
    if f.value() == 0 {
        lemma_negated(g);
        law_add_commutes(num(ONE), g.negated());
        lemma_cancelled(g.negated(), num(ONE));
    } else {
        lemma_same(num(ONE) - g, f);
    }
}

/// At any mirrored pan position the delays of the two sides are exchanged but for rounding: they
/// are off by no more than ten parts in 2^23 of the longest delay.
pub proof fn law_delays_mirror_closely(max_delay_samples: usize, pan: Single)
    requires
        within(pan, num(0xbf80_0000), num(ONE)),
        1 <= max_delay_samples <= EXACT_LINE,
    ensures
        ({
            let (delay_l, delay_r) = panorama_delays(max_delay_samples, pan);
            let (mirrored_l, mirrored_r) = panorama_delays(max_delay_samples, pan.negated());
            let longest = Single::from_usize(max_delay_samples).value();
            &&& 0x80_0000 * size(mirrored_l.value() - delay_r.value()) <= 10 * longest
            &&& 0x80_0000 * size(mirrored_r.value() - delay_l.value()) <= 10 * longest
        }),
{
    lemma_constants();
    lemma_within(pan, num(0xbf80_0000), num(ONE));
    lemma_negated(pan);
    lemma_near_factor(pan);
    lemma_near_factor(pan.negated());
    let (f, g) = ((pan + num(ONE)) * num(HALF), (pan.negated() + num(ONE)) * num(HALF));
    lemma_near_delays(max_delay_samples, f, g);
    lemma_near_delays(max_delay_samples, g, f);
}

/// The factor of the delays, off by little.
proof fn lemma_near_factor(pan: Single)
    requires
        pan.is_finite(),
        -unit() <= pan.value() <= unit(),
    ensures
        ({
            let factor = (pan + num(ONE)) * num(HALF);
            &&& factor.is_finite()
            &&& 0 <= factor.value() <= unit()
            &&& 0x80_0000 * size(2 * factor.value() - (pan.value() + unit())) <= 5 * unit()
        }),
{
    lemma_constants();
    lemma2_to64();
    let u = unit();
    lemma_unit_large();
    lemma_add_error(pan, num(ONE), num(TWO));
    lemma_add(pan, num(ONE), num(0), num(TWO));
    let sum = pan + num(ONE);
    let (s, h) = (sum.value(), num(HALF).value());
    assert(0 * u <= s * h <= u * u && 2 * (s * h) == s * u) by (nonlinear_arith)
        requires
            0 <= s <= 2 * u,
            2 * h == u,
    ;
    lemma_mul(sum, num(HALF), num(0), num(ONE));
    lemma_mul_error(sum, num(HALF), num(ONE));
    let v = (sum * num(HALF)).value();
    assert(0x80_0000 * size(2 * v - s) <= s + 2 * 0x80_0002) by (nonlinear_arith)
        requires
            0x80_0000 * size(v * u - s * h) <= s * h + 0x80_0002 * u,
            2 * (s * h) == s * u,
            u > 0,
    ;
}

/// A delay by one factor and by what another leaves of one, where the two add up to nearly one.
proof fn lemma_near_delays(max_delay_samples: usize, f: Single, g: Single)
    requires
        1 <= max_delay_samples <= EXACT_LINE,
        f.is_finite(),
        g.is_finite(),
        0 <= f.value() <= unit(),
        0 <= g.value() <= unit(),
        0x80_0000 * size(f.value() + g.value() - unit()) <= 5 * unit(),
    ensures
        ({
            let longest = Single::from_usize(max_delay_samples);
            0x80_0000 * size((longest * g).value() - (longest * (num(ONE) - f)).value()) <= 10
                * longest.value()
        }),
{
    lemma_constants();
    lemma_unit_large();
    lemma_from_usize(max_delay_samples);
    let u = unit();
    let longest = Single::from_usize(max_delay_samples);
    let rest = num(ONE) - f;
    lemma_sub(num(ONE), f, num(0), num(ONE));
    lemma_sub_error(num(ONE), f, num(ONE));
    let (m, v, r) = (longest.value(), g.value(), rest.value());
    assert(m >= u) by (nonlinear_arith)
        requires
            m == max_delay_samples * u,
            max_delay_samples >= 1,
            u > 0,
    ;
    assert(0 <= m * v <= m * u && 0 <= m * r <= m * u) by (nonlinear_arith)
        requires
            m > 0,
            0 <= v <= u,
            0 <= r <= u,
    ;
    lemma_mul_error(longest, g, longest);
    lemma_mul_error(longest, rest, longest);
    let (a, b) = ((longest * g).value(), (longest * rest).value());
    assert(0x80_0000 * size(v - r) <= 6 * u);
    assert(0x80_0000 * size(m * v - m * r) <= 6 * u * m) by (nonlinear_arith)
        requires
            0x80_0000 * size(v - r) <= 6 * u,
            m > 0,
    ;
    assert(6 * u * m == 6 * (m * u)) by (nonlinear_arith);
    let (x, y, z) = (m * v, m * r, m * u);
    let (c, d) = (a * u, b * u);
    assert(0x80_0000 * size(c - x) <= z + 0x80_0002 * u);
    assert(0x80_0000 * size(d - y) <= z + 0x80_0002 * u);
    assert(0x80_0000 * size(x - y) <= 6 * z);
    assert(0x80_0000 * size(c - d) <= 8 * z + 0x100_0004 * u);
    assert(0x80_0000 * size(a - b) <= 8 * m + 0x100_0004) by (nonlinear_arith)
        requires
            0x80_0000 * size(a * u - b * u) <= 8 * (m * u) + 0x100_0004 * u,
            u > 0,
    ;
}

/// One is many of the least numbers.
proof fn lemma_unit_large()
    ensures
        unit() >= 0x100_0000_0000,
{
    lemma_unit_positive();
    lemma2_to64();
    lemma_pow2_strictly_increases(64, 149);
}

/// The factor of the delays at a pan position of whole parts in 2^23.
proof fn lemma_whole_factor(pan: Single, k: int)
    requires
        pan.is_finite(),
        0x80_0000 * pan.value() == k * unit(),
        -0x80_0000 <= k <= 0x80_0000,
    ensures
        ({
            let factor = (pan + num(ONE)) * num(HALF);
            &&& factor.is_finite()
            &&& 0x100_0000 * factor.value() == (k + 0x80_0000) * unit()
            &&& factor.value() == 0 ==> factor == num(0)
        }),
{
    lemma_constants();
    let u = unit();
    let half = lemma_part(k + 0x80_0000);
    let twice = lemma_even_part(k + 0x80_0000);
    assert((k + 0x80_0000) * u == k * u + 0x80_0000 * u) by (nonlinear_arith);
    lemma_add(pan, num(ONE), twice, twice);
    let sum = pan + num(ONE);
    let (s, h, v) = (sum.value(), num(HALF).value(), half.value());
    assert(s * h == v * u) by (nonlinear_arith)
        requires
            s == 2 * v,
            2 * h == u,
    ;
    lemma_mul(sum, num(HALF), half, half);
    if v == 0 {
        lemma_cancelled(pan, num(ONE));
        reveal(Single::spec_mul);
    }
}

impl PanningTrig {
    /// Whether these are the sines and cosines of the panorama for the mirrored positions: the
    /// sines are turned round.
    pub open spec fn mirrors_panorama(self, other: PanningTrig, n: nat) -> bool {
        &&& self.theta == other.theta
        &&& forall|i: int|
            0 <= i < n ==> #[trigger] self.pairs@[i] == (
                other.pairs@[i].0.negated(),
                other.pairs@[i].1,
            )
    }

    /// Whether these are the cosines of the head angles for the mirrored positions: the two ears
    /// are exchanged.
    pub open spec fn mirrors_head(self, other: PanningTrig, n: nat) -> bool {
        forall|i: int|
            0 <= i < n ==> #[trigger] self.pairs@[i] == (other.pairs@[i].1, other.pairs@[i].0)
    }
}

/// Whether every position of `pan` is the mirrored one of `other`.
pub open spec fn pan_mirrors(pan: Seq<Single>, other: Seq<Single>, n: nat) -> bool {
    forall|i: int|
        0 <= i < n ==> #[trigger] other[i].is_finite() && pan[i] == other[i].negated()
}

/// At mirrored pan positions of whole parts in 2^23 the panorama sends out on one side what it sent
/// out on the other.
pub proof fn law_panorama_mirrors(
    max_delay_samples: usize,
    pan: Seq<Single>,
    other: Seq<Single>,
    trig: PanningTrig,
    other_trig: PanningTrig,
    line: Line,
    input: Seq<Single>,
    left: bool,
    n: nat,
)
    requires
        pan_mirrors(pan, other, n),
        forall|i: int|
            0 <= i < n ==> exists|k: int|
                -0x80_0000 <= k <= 0x80_0000 && 0x80_0000 * (#[trigger] other[i]).value()
                    == #[trigger] (k * unit()),
        trig.mirrors_panorama(other_trig, n),
        trig.theta.1.is_finite(),
        forall|i: int| 0 <= i < n ==> (#[trigger] other_trig.pairs@[i]).0.is_finite(),
    ensures
        panorama_rendered(max_delay_samples, pan, trig, line, input, left, n) == panorama_rendered(
            max_delay_samples,
            other,
            other_trig,
            line,
            input,
            !left,
            n,
        ),
{
    assert forall|i: int| 0 <= i < n implies #[trigger] panorama_gains(trig.theta, trig.pairs@[i])
        == ({
        let (gain_l, gain_r, norm) = panorama_gains(other_trig.theta, other_trig.pairs@[i]);
        (gain_r, gain_l, norm)
    }) && panorama_delays(max_delay_samples, pan[i]) == ({
        let (delay_l, delay_r) = panorama_delays(max_delay_samples, other[i]);
        (delay_r, delay_l)
    }) by {
        assert(other_trig.pairs@[i].0.is_finite());
        assert(trig.pairs@[i] == (other_trig.pairs@[i].0.negated(), other_trig.pairs@[i].1));
        law_gains_mirror(other_trig.theta, other_trig.pairs@[i]);
        assert(other[i].is_finite());
        let k = choose|k: int|
            -0x80_0000 <= k <= 0x80_0000 && 0x80_0000 * (#[trigger] other[i]).value()
                == #[trigger] (k * unit());
        law_delays_mirror(max_delay_samples, other[i], k);
    }
    assert(panorama_rendered(max_delay_samples, pan, trig, line, input, left, n)
        =~= panorama_rendered(max_delay_samples, other, other_trig, line, input, !left, n));
}

/// At a mirrored pan position an ear is at the angle at which the other was, turned round.
pub proof fn law_head_angle_mirrors(pan: Single, left: bool)
    requires
        within(pan, num(0xbf80_0000), num(ONE)),
    ensures
        head_angle(pan.negated(), left).abs() == head_angle(pan, !left).abs(),
{
    lemma_constants();
    lemma2_to64();
    lemma_constant(HALF_PI, 0x80_0000, 0xc9_0fdb);
    lemma_within(pan, num(0xbf80_0000), num(ONE));
    let quarter = num(HALF_PI);
    lemma_negated(quarter);
    let (v, t, u) = (pan.value(), quarter.value(), unit());
    assert(-t * u <= v * t <= t * u) by (nonlinear_arith)
        requires
            -u <= v <= u,
            t > 0,
    ;
    lemma_mul(pan, num(THETA_HEAD), quarter.negated(), quarter);
    let phi = pan * num(THETA_HEAD);
    lemma_opposite_mul(pan, num(THETA_HEAD));
    lemma_twice_negated(quarter);
    let side = if left { quarter } else { quarter.negated() };
    lemma_negated(side);
    lemma_opposite_add(phi, side.negated());
    lemma_twice_negated(side);
    lemma_alike_abs(phi.negated() + side, phi + side.negated());
}

/// At mirrored pan positions the head model sends to one ear what it sent to the other.
pub proof fn law_ears_mirror(
    sample_rate: Single,
    pan: Seq<Single>,
    other: Seq<Single>,
    trig: PanningTrig,
    other_trig: PanningTrig,
    line: Line,
    filter: ShelfFilter,
    input: Seq<Single>,
    left: bool,
    n: nat,
)
    requires
        pan_mirrors(pan, other, n),
        forall|i: int|
            0 <= i < n ==> within(#[trigger] other[i], num(0xbf80_0000), num(ONE)),
        trig.mirrors_head(other_trig, n),
    ensures
        ear_rendered(sample_rate, pan, trig, line, filter, input, left, n) == ear_rendered(
            sample_rate,
            other,
            other_trig,
            line,
            filter,
            input,
            !left,
            n,
        ),
        ear_filter(sample_rate, pan, trig, line, filter, input, left, n) == ear_filter(
            sample_rate,
            other,
            other_trig,
            line,
            filter,
            input,
            !left,
            n,
        ),
    decreases n,
{
    if n > 0 {
        let k = (n - 1) as nat;
        assert(pan_mirrors(pan, other, k));
        law_ears_mirror(
            sample_rate,
            pan,
            other,
            trig,
            other_trig,
            line,
            filter,
            input,
            left,
            k,
        );
        let pair = other_trig.pairs@[k as int];
        assert(trig.pairs@[k as int] == (pair.1, pair.0));
        assert(other[k as int].is_finite());
        assert(within(other[k as int], num(0xbf80_0000), num(ONE)));
        law_head_angle_mirrors(other[k as int], left);
        let all = ear_rendered(sample_rate, pan, trig, line, filter, input, left, n);
        let them = ear_rendered(
            sample_rate,
            other,
            other_trig,
            line,
            filter,
            input,
            !left,
            n,
        );
        let before = ear_rendered(sample_rate, pan, trig, line, filter, input, left, k);
        let them_before = ear_rendered(
            sample_rate,
            other,
            other_trig,
            line,
            filter,
            input,
            !left,
            k,
        );
        assert(all =~= before.push(all[k as int]));
        assert(them =~= them_before.push(them[k as int]));
        assert(all[k as int] == them[k as int]);
    }
}


/// In the middle, where the sine of the panorama angle is a zero, both sides have the same gain.
pub proof fn law_centre_gains_alike(theta: (Single, Single), phi: (Single, Single))
    requires
        theta.1.is_finite(),
        phi.0.is_finite(),
        phi.0.value() == 0,
        (phi.1 * theta.0).is_finite(),
        (phi.1 * theta.0).value() != 0,
    ensures
        panorama_gains(theta, phi).0 == panorama_gains(theta, phi).1,
{
    lemma_constants();
    let v = theta.1.value();
    assert(0 * v == 0 && 0 * unit() == 0) by (nonlinear_arith);
    lemma_mul(phi.0, theta.1, num(0), num(0));
    let (middle, none) = (phi.1 * theta.0, phi.0 * theta.1);
    lemma_plus_zero(middle, none);
    lemma_same(middle + none, middle);
    lemma_same(middle - none, middle);
}

/// In the middle the panorama sends out the same on both sides, and the head model to both ears.
pub proof fn law_centre_sides_alike(
    max_delay_samples: usize,
    sample_rate: Single,
    pan: Seq<Single>,
    trig: PanningTrig,
    head_trig: PanningTrig,
    line: Line,
    filter: ShelfFilter,
    input: Seq<Single>,
    n: nat,
)
    requires
        forall|i: int| 0 <= i < n ==> #[trigger] pan[i] == num(0),
        trig.theta.1.is_finite(),
        forall|i: int|
            0 <= i < n ==> (#[trigger] trig.pairs@[i]).0.is_finite() && trig.pairs@[i].0.value()
                == 0 && (trig.pairs@[i].1 * trig.theta.0).is_finite() && (trig.pairs@[i].1
                * trig.theta.0).value() != 0,
        forall|i: int|
            0 <= i < n ==> (#[trigger] head_trig.pairs@[i]).0 == head_trig.pairs@[i].1,
    ensures
        panorama_rendered(max_delay_samples, pan, trig, line, input, true, n) == panorama_rendered(
            max_delay_samples,
            pan,
            trig,
            line,
            input,
            false,
            n,
        ),
        ear_rendered(sample_rate, pan, head_trig, line, filter, input, true, n) == ear_rendered(
            sample_rate,
            pan,
            head_trig,
            line,
            filter,
            input,
            false,
            n,
        ),
{
    assert forall|i: int| 0 <= i < n implies (#[trigger] panorama_gains(
        trig.theta,
        trig.pairs@[i],
    )).0 == panorama_gains(trig.theta, trig.pairs@[i]).1 && panorama_delays(
        max_delay_samples,
        pan[i],
    ).0 == panorama_delays(max_delay_samples, pan[i]).1 by {
        assert(pan[i] == num(0));
        assert(trig.pairs@[i].0.is_finite());
        law_centre_gains_alike(trig.theta, trig.pairs@[i]);
        law_centre_delays_alike(max_delay_samples);
    }
    assert(panorama_rendered(max_delay_samples, pan, trig, line, input, true, n)
        =~= panorama_rendered(max_delay_samples, pan, trig, line, input, false, n));
    lemma_centre_ears(sample_rate, pan, head_trig, line, filter, input, n);
}

/// In the middle both ears get the same.
proof fn lemma_centre_ears(
    sample_rate: Single,
    pan: Seq<Single>,
    trig: PanningTrig,
    line: Line,
    filter: ShelfFilter,
    input: Seq<Single>,
    n: nat,
)
    requires
        forall|i: int| 0 <= i < n ==> #[trigger] pan[i] == num(0),
        forall|i: int| 0 <= i < n ==> (#[trigger] trig.pairs@[i]).0 == trig.pairs@[i].1,
    ensures
        ear_rendered(sample_rate, pan, trig, line, filter, input, true, n) == ear_rendered(
            sample_rate,
            pan,
            trig,
            line,
            filter,
            input,
            false,
            n,
        ),
        ear_filter(sample_rate, pan, trig, line, filter, input, true, n) == ear_filter(
            sample_rate,
            pan,
            trig,
            line,
            filter,
            input,
            false,
            n,
        ),
    decreases n,
{
    if n > 0 {
        let k = (n - 1) as nat;
        lemma_centre_ears(sample_rate, pan, trig, line, filter, input, k);
        assert(pan[k as int] == num(0));
        assert(trig.pairs@[k as int].0 == trig.pairs@[k as int].1);
        lemma_centre_angles();
        let left = ear_rendered(sample_rate, pan, trig, line, filter, input, true, n);
        let right = ear_rendered(sample_rate, pan, trig, line, filter, input, false, n);
        let left_before = ear_rendered(sample_rate, pan, trig, line, filter, input, true, k);
        let right_before = ear_rendered(sample_rate, pan, trig, line, filter, input, false, k);
        assert(left =~= left_before.push(left[k as int]));
        assert(right =~= right_before.push(right[k as int]));
        assert(left[k as int] == right[k as int]);
    }
}

/// In the middle both ears are at the same angle, on either side.
proof fn lemma_centre_angles()
    ensures
        head_angle(num(0), true).abs() == head_angle(num(0), false).abs(),
{
    lemma_constants();
    lemma2_to64();
    lemma_constant(HALF_PI, 0x80_0000, 0xc9_0fdb);
    let quarter = num(HALF_PI);
    lemma_negated(quarter);
    let v = quarter.value();
    assert(0 * v == 0 && 0 * unit() == 0) by (nonlinear_arith);
    lemma_mul(num(0), num(THETA_HEAD), num(0), num(0));
    let phi = num(0) * num(THETA_HEAD);
    lemma_plus_zero(quarter, phi);
    lemma_plus_zero(quarter.negated(), phi);
    lemma_same(phi + quarter, quarter);
    lemma_same(phi - quarter, quarter.negated());
    lemma_alike_abs(quarter.negated(), quarter);
}


/// The place `delay` samples before the last one written, counted in slots from a whole turn before
/// the first one, before it is wrapped onto the ring.
spec fn unwrapped(write: usize, delay: Single, len: usize) -> Single {
    Single::from_usize(write) - num(ONE) - delay + Single::from_usize(len)
}

/// Where a delay leads, and how far rounding takes it from there.
proof fn lemma_place(write: usize, delay: Single, len: usize)
    requires
        write < len <= 0x4_0000,
        delay.is_finite(),
        0 <= delay.value() <= (len - 1) * unit(),
    ensures
        ({
            let y = unwrapped(write, delay, len);
            let place = tap(position(write, delay, len), len);
            &&& y.is_finite()
            &&& y.value() >= 0
            &&& place.index == (y.value() / unit()) % (len as int)
            &&& place.frac.is_finite()
            &&& place.frac.value() == y.value() % unit()
            &&& 0x80_0000 * size(y.value() - ((write - 1 + len) * unit() - delay.value())) <= 4 * (
            len * unit())
        }),
{
    lemma_constants();
    lemma_unit_large();
    let u = unit();
    lemma_from_usize(write);
    lemma_from_usize(len);
    let whole = Single::from_usize(len);
    lemma_negated(whole);
    let (w, l, d) = (write * u, len * u, delay.value());
    assert(0 <= w && w + u <= l && l <= 0x4_0000 * u && (len - 1) * u == l - u && (write - 1 + len)
        * u == w - u + l) by (nonlinear_arith)
        requires
            w == write * u,
            l == len * u,
            write < len <= 0x4_0000,
            u > 0,
    ;
    let first = lemma_signed_whole(write - 1);
    assert((write - 1) * u == w - u) by (nonlinear_arith)
        requires
            w == write * u,
    ;
    lemma_sub(Single::from_usize(write), num(ONE), first, first);
    let a = Single::from_usize(write) - num(ONE);
    lemma_sub(a, delay, whole.negated(), whole);
    lemma_sub_error(a, delay, whole);
    let b = a - delay;
    let top = lemma_whole(0x8_0000);
    lemma_add(b, whole, num(0), top);
    lemma_add_error(b, whole, top);
    let y = b + whole;
    let v = y.value();
    assert(0x80_0000 * size(b.value() - (w - u - d)) <= l);
    assert(0x80_0000 * size(v - (b.value() + l)) <= 2 * l);
    // A number that is not negative is wrapped without rounding.
    lemma_remainder(y, whole);
    let r = y.remainder(whole);
    lemma_mod_bound(v, l);
    lemma_compare(r, num(0));
    let pos = position(write, delay, len);
    assert(pos == r);
    lemma_floor(pos);
    lemma_remainder(pos, num(ONE));
    lemma_mod_bound(pos.value(), u);
    let (k, q, m) = (v / l, (v % l) / u, (v % l) % u);
    lemma_fundamental_div_mod(v, l);
    lemma_fundamental_div_mod(v % l, u);
    assert(0 <= q < len) by (nonlinear_arith)
        requires
            v % l == u * q + m,
            0 <= m < u,
            0 <= v % l < l,
            l == len * u,
    ;
    assert(v == u * (len * k + q) + m) by (nonlinear_arith)
        requires
            v == l * k + v % l,
            v % l == u * q + m,
            l == len * u,
    ;
    lemma_fundamental_div_mod_converse(v, u, len * k + q, m);
    lemma_mod_multiples_vanish(k, q, len as int);
    lemma_small_mod(q as nat, len as nat);
    assert(u * q == q * u) by (nonlinear_arith);
    lemma_sub(pos, pos.floor(), pos.remainder(num(ONE)), pos.remainder(num(ONE)));
    lemma_to_usize(pos.floor());
    lemma_whole_quotient(q, u);
}

proof fn lemma_whole_quotient(q: int, u: int)
    requires
        u > 0,
    ensures
        (q * u) / u == q,
{
    assert(q * u == u * q + 0) by (nonlinear_arith);
    lemma_fundamental_div_mod_converse(q * u, u, q, 0);
}

impl Line {
    /// Whether every slot holds a number of no more than `b`.
    pub open spec fn bounded(self, b: int) -> bool {
        forall|k: int|
            0 <= k < self.buf.len() ==> (#[trigger] self.buf[k]).is_finite() && size(
                self.buf[k].value(),
            ) <= b
    }

    /// The point between two slots that an unwrapped place leads to, in exact arithmetic and times
    /// one.
    spec fn exact(self, v: int) -> int {
        let len = self.buf.len() as int;
        let (s0, s1) = (
            self.buf[(v / unit()) % len].value(),
            self.buf[((v / unit()) % len + 1) % len].value(),
        );
        s0 * unit() + (v % unit()) * (s1 - s0)
    }
}

/// Close places lead to close points.
proof fn lemma_exact_close(line: Line, v: int, w: int, b: int)
    requires
        line.buf.len() > 0,
        line.bounded(b),
        0 <= v <= w <= v + unit(),
    ensures
        size(line.exact(w) - line.exact(v)) <= 2 * (b * (w - v)),
{
    lemma_constants();
    let (u, len) = (unit(), line.buf.len() as int);
    let (i, f) = (v / u, v % u);
    let (j, g) = (w / u, w % u);
    lemma_fundamental_div_mod(v, u);
    lemma_fundamental_div_mod(w, u);
    lemma_mod_bound(v, u);
    lemma_mod_bound(w, u);
    assert(j == i || j == i + 1) by (nonlinear_arith)
        requires
            v == u * i + f,
            w == u * j + g,
            0 <= f < u,
            0 <= g < u,
            v <= w <= v + u,
    ;
    lemma_mod_bound(i, len);
    lemma_mod_bound(i % len + 1, len);
    lemma_mod_bound((i % len + 1) % len + 1, len);
    let (s0, s1) = (line.buf[i % len].value(), line.buf[(i % len + 1) % len].value());
    assert(line.buf[i % len].is_finite() && line.buf[(i % len + 1) % len].is_finite());
    if j == i {
        let (d, e) = (g - f, s1 - s0);
        assert(w - v == d) by (nonlinear_arith)
            requires
                v == u * i + f,
                w == u * j + g,
                j == i,
                d == g - f,
        ;
        assert((s0 * u + g * e) - (s0 * u + f * e) == d * e) by (nonlinear_arith)
            requires
                d == g - f,
        ;
        assert(size(d * e) <= 2 * (b * d)) by (nonlinear_arith)
            requires
                d >= 0,
                size(e) <= 2 * b,
        ;
    } else {
        lemma_add_mod_noop(i, 1, len);
        lemma_mod_twice(i, len);
        lemma_small_one(len);
        assert(j % len == (i % len + 1) % len);
        let s2 = line.buf[((i % len + 1) % len + 1) % len].value();
        assert(line.buf[((i % len + 1) % len + 1) % len].is_finite());
        let (d, e, k) = (u - f, s1 - s0, s2 - s1);
        assert(w - v == d + g) by (nonlinear_arith)
            requires
                v == u * i + f,
                w == u * j + g,
                j == i + 1,
                d == u - f,
        ;
        assert((s1 * u + g * k) - (s0 * u + f * e) == d * e + g * k) by (nonlinear_arith)
            requires
                d == u - f,
                e == s1 - s0,
        ;
        assert(size(d * e) <= 2 * (b * d) && size(g * k) <= 2 * (b * g)) by (nonlinear_arith)
            requires
                d >= 0,
                g >= 0,
                size(e) <= 2 * b,
                size(k) <= 2 * b,
        ;
        assert(b * (d + g) == b * d + b * g) by (nonlinear_arith);
    }
}

proof fn lemma_small_one(len: int)
    requires
        len > 0,
    ensures
        len == 1 ==> 1int % len == 0,
        len > 1 ==> 1int % len == 1,
{
    if len > 1 {
        lemma_small_mod(1, len as nat);
    }
}

/// Two close delays read close samples: off by no more than the distance of the delays and eight
/// parts in 2^23 of the line, times the step between two samples, and by the rounding of the
/// samples.
pub proof fn law_close_delays_read_alike(
    line: Line,
    delay: Single,
    other: Single,
    b: int,
    top: Single,
    apart: int,
)
    requires
        line.wf(),
        line.buf.len() <= 0x4_0000,
        line.bounded(b),
        b >= 0x100_0000,
        top.is_finite(),
        8 * b <= top.value(),
        delay.is_finite(),
        other.is_finite(),
        0 <= delay.value() <= (line.buf.len() - 1) * unit(),
        0 <= other.value() <= (line.buf.len() - 1) * unit(),
        0x80_0000 * size(delay.value() - other.value()) <= apart * unit(),
        apart + 8 * line.buf.len() <= 0x80_0000,
    ensures
        0x80_0000 * size(line.read(delay).value() - line.read(other).value()) <= (2 * apart + 16
            * line.buf.len() + 24) * b,
{
    lemma_constants();
    let (u, len) = (unit(), line.buf.len() as usize);
    lemma_place(line.write, delay, len);
    lemma_place(line.write, other, len);
    let (y, z) = (
        unwrapped(line.write, delay, len).value(),
        unwrapped(line.write, other, len).value(),
    );
    let (p, q) = (
        tap(position(line.write, delay, len), len),
        tap(position(line.write, other, len), len),
    );
    lemma_mod_bound(y, u);
    lemma_mod_bound(z, u);
    lemma_mod_bound(y / u, len as int);
    lemma_mod_bound(z / u, len as int);
    lemma_mod_bound(p.index + 1, len as int);
    lemma_mod_bound(q.index + 1, len as int);
    let (s0, s1) = (line.buf[p.index as int], line.buf[(p.index + 1) % (len as int)]);
    let (t0, t1) = (line.buf[q.index as int], line.buf[(q.index + 1) % (len as int)]);
    assert(s0.is_finite() && s1.is_finite() && t0.is_finite() && t1.is_finite());
    lemma_linear_close(s0, s1, p.frac, b, top);
    lemma_linear_close(t0, t1, q.frac, b, top);
    let (r, s) = (line.read(delay).value(), line.read(other).value());
    let (lu, au, bu) = (len * u, apart * u, b * u);
    let far = apart + 8 * len;
    assert(far * u == au + 8 * lu && far * u <= 0x80_0000 * u) by (nonlinear_arith)
        requires
            far == apart + 8 * len,
            lu == len * u,
            au == apart * u,
            far <= 0x80_0000,
            u > 0,
    ;
    assert(0x80_0000 * size(y - z) <= far * u);
    assert(size(y - z) <= u);
    if y <= z {
        lemma_exact_close(line, y, z, b);
    } else {
        lemma_exact_close(line, z, y, b);
    }
    let e = size(y - z);
    let x = line.exact(y) - line.exact(z);
    assert(size(x) <= 2 * (b * e));
    assert(0x80_0000 * size(x) <= 2 * (far * bu)) by (nonlinear_arith)
        requires
            size(x) <= 2 * (b * e),
            0x80_0000 * e <= far * u,
            bu == b * u,
            b > 0,
    ;
    let (ru, su, fb) = (r * u, s * u, far * bu);
    assert(0x80_0000 * size(ru - line.exact(y)) <= 12 * bu);
    assert(0x80_0000 * size(su - line.exact(z)) <= 12 * bu);
    assert(0x80_0000 * size(ru - su) <= 2 * fb + 24 * bu);
    assert(0x80_0000 * size(r - s) <= (2 * far + 24) * b) by (nonlinear_arith)
        requires
            0x80_0000 * size(r * u - s * u) <= 2 * (far * (b * u)) + 24 * (b * u),
            u > 0,
    ;
    assert((2 * far + 24) * b == (2 * apart + 16 * len + 24) * b) by (nonlinear_arith)
        requires
            far == apart + 8 * len,
    ;
}

/// At mirrored pan positions, wherever they are, the panorama exchanges the gains of the two sides
/// and reads for either side what it read for the other, but for rounding: off by no more than
/// `20 m + 16 l + 24` parts in 2^23 of the loudest sample on a line of `l` slots, `m` samples being
/// the longest delay.
pub proof fn law_panorama_mirrors_closely(
    max_delay_samples: usize,
    pan: Single,
    theta: (Single, Single),
    phi: (Single, Single),
    line: Line,
    b: int,
    top: Single,
)
    requires
        within(pan, num(0xbf80_0000), num(ONE)),
        theta.1.is_finite(),
        phi.0.is_finite(),
        line.wf(),
        1 <= max_delay_samples < line.buf.len() <= 0x4_0000,
        line.bounded(b),
        b >= 0x100_0000,
        top.is_finite(),
        8 * b <= top.value(),
    ensures
        ({
            let (delay_l, delay_r) = panorama_delays(max_delay_samples, pan);
            let (mirrored_l, mirrored_r) = panorama_delays(max_delay_samples, pan.negated());
            let (gain_l, gain_r, norm) = panorama_gains(theta, phi);
            let near = (20 * max_delay_samples + 16 * line.buf.len() + 24) * b;
            &&& panorama_gains(theta, (phi.0.negated(), phi.1)) == (gain_r, gain_l, norm)
            &&& 0x80_0000 * size(line.read(mirrored_l).value() - line.read(delay_r).value())
                <= near
            &&& 0x80_0000 * size(line.read(mirrored_r).value() - line.read(delay_l).value())
                <= near
        }),
{
    lemma_constants();
    lemma_within(pan, num(0xbf80_0000), num(ONE));
    lemma_negated(pan);
    lemma_within(pan.negated(), num(0xbf80_0000), num(ONE));
    lemma_from_usize(max_delay_samples);
    let u = unit();
    let longest = Single::from_usize(max_delay_samples);
    let (m, len) = (max_delay_samples as int, line.buf.len() as int);
    assert(0 < m * u <= (len - 1) * u) by (nonlinear_arith)
        requires
            1 <= m < len,
            u > 0,
    ;
    law_gains_mirror(theta, phi);
    law_panorama_delays_in_range(max_delay_samples, pan);
    law_panorama_delays_in_range(max_delay_samples, pan.negated());
    law_delays_mirror_closely(max_delay_samples, pan);
    let (delay_l, delay_r) = panorama_delays(max_delay_samples, pan);
    let (mirrored_l, mirrored_r) = panorama_delays(max_delay_samples, pan.negated());
    lemma_within(delay_l, num(0), longest);
    lemma_within(delay_r, num(0), longest);
    lemma_within(mirrored_l, num(0), longest);
    lemma_within(mirrored_r, num(0), longest);
    assert((10 * m) * u == 10 * (m * u)) by (nonlinear_arith);
    law_close_delays_read_alike(line, mirrored_l, delay_r, b, top, 10 * m);
    law_close_delays_read_alike(line, mirrored_r, delay_l, b, top, 10 * m);
    assert((2 * (10 * m) + 16 * len + 24) * b == (20 * m + 16 * len + 24) * b);
}


/// Samples that are near each other, times the same factor of no more than two.
proof fn lemma_factor_near(r: Single, s: Single, factor: Single, e: int, b: int, top: Single)
    requires
        r.is_finite() && size(r.value()) <= b,
        s.is_finite() && size(s.value()) <= b,
        factor.is_finite() && size(factor.value()) <= 2 * unit(),
        0x80_0000 * size(r.value() - s.value()) <= e,
        b >= 0x100_0000,
        top.is_finite(),
        8 * b <= top.value(),
    ensures
        (r * factor).is_finite() && size((r * factor).value()) <= 3 * b,
        (s * factor).is_finite() && size((s * factor).value()) <= 3 * b,
        0x80_0000 * size((r * factor).value() - (s * factor).value()) <= 2 * e + 6 * b,
{
    lemma_constants();
    let u = unit();
    let (v, w, f) = (r.value(), s.value(), factor.value());
    let bu = b * u;
    assert(size(v * f) <= 2 * bu && size(w * f) <= 2 * bu && 0x80_0002 * u <= bu && 2 * bu
        <= top.value() * u) by (nonlinear_arith)
        requires
            size(v) <= b,
            size(w) <= b,
            size(f) <= 2 * u,
            bu == b * u,
            b >= 0x100_0000,
            8 * b <= top.value(),
            u > 0,
    ;
    lemma_mul_error(r, factor, top);
    lemma_mul_error(s, factor, top);
    let d = v - w;
    assert(0x80_0000 * size(d * f) <= 2 * (e * u)) by (nonlinear_arith)
        requires
            0x80_0000 * size(d) <= e,
            size(f) <= 2 * u,
    ;
    let (vf, wf, df, eu) = (v * f, w * f, d * f, e * u);
    assert(vf - wf == df) by (nonlinear_arith)
        requires
            vf == v * f,
            wf == w * f,
            df == d * f,
            d == v - w,
    ;
    let (p, q) = ((r * factor).value(), (s * factor).value());
    let (pu, qu) = (p * u, q * u);
    assert(0x80_0000 * size(pu - vf) <= 3 * bu);
    assert(0x80_0000 * size(qu - wf) <= 3 * bu);
    assert(0x80_0000 * size(pu - qu) <= 2 * eu + 6 * bu);
    assert(0x80_0000 * size(p - q) <= 2 * e + 6 * b) by (nonlinear_arith)
        requires
            0x80_0000 * size(p * u - q * u) <= 2 * (e * u) + 6 * (b * u),
            u > 0,
    ;
    assert(size(p) <= 3 * b && size(q) <= 3 * b) by (nonlinear_arith)
        requires
            size(p * u) <= 3 * (b * u),
            size(q * u) <= 3 * (b * u),
            u > 0,
    ;
}

/// At mirrored pan positions, wherever they are, the panorama sends out on one side what it sent
/// out on the other, but for rounding: sample `i` is off by no more than `80 m + 64 l + 126` parts
/// in 2^23 of the loudest sample on a line of `l` slots, `m` samples being the longest delay.
pub proof fn law_panorama_outputs_mirror_closely(
    max_delay_samples: usize,
    pan: Seq<Single>,
    other: Seq<Single>,
    trig: PanningTrig,
    other_trig: PanningTrig,
    line: Line,
    input: Seq<Single>,
    left: bool,
    b: int,
    top: Single,
    i: nat,
)
    requires
        pan_mirrors(pan, other, i + 1),
        within(other[i as int], num(0xbf80_0000), num(ONE)),
        trig.mirrors_panorama(other_trig, i + 1),
        other_trig.theta.1.is_finite(),
        other_trig.pairs@[i as int].0.is_finite(),
        ({
            let pair = other_trig.pairs@[i as int];
            let (gain_l, gain_r, norm) = panorama_gains(other_trig.theta, pair);
            &&& gain_l.is_finite() && size(gain_l.value()) <= 2 * unit()
            &&& gain_r.is_finite() && size(gain_r.value()) <= 2 * unit()
            &&& norm.is_finite() && size(norm.value()) <= 2 * unit()
        }),
        line.fed(input, i + 1).wf(),
        1 <= max_delay_samples < line.fed(input, i + 1).buf.len() <= 0x4_0000,
        line.fed(input, i + 1).bounded(b),
        b >= 0x100_0000,
        top.is_finite(),
        24 * b <= top.value(),
    ensures
        ({
            let here = panorama_rendered(
                max_delay_samples,
                pan,
                trig,
                line,
                input,
                left,
                i + 1,
            )[i as int];
            let there = panorama_rendered(
                max_delay_samples,
                other,
                other_trig,
                line,
                input,
                !left,
                i + 1,
            )[i as int];
            let slots = line.fed(input, i + 1).buf.len();
            0x80_0000 * size(here.value() - there.value()) <= (80 * max_delay_samples + 64 * slots
                + 126) * b
        }),
{
    let j = i as int;
    let fed = line.fed(input, i + 1);
    let (p, q) = (trig.pairs@[j], other_trig.pairs@[j]);
    assert(other[j].is_finite());
    assert(p == (q.0.negated(), q.1));
    law_panorama_mirrors_closely(max_delay_samples, other[j], other_trig.theta, q, fed, b, top);
    let (delay_l, delay_r) = panorama_delays(max_delay_samples, other[j]);
    let (mirrored_l, mirrored_r) = panorama_delays(max_delay_samples, pan[j]);
    lemma_delays_finite(max_delay_samples, other[j]);
    lemma_negated(other[j]);
    lemma_mirrored_range(other[j]);
    lemma_delays_finite(max_delay_samples, pan[j]);
    let (gain_l, gain_r, norm) = panorama_gains(other_trig.theta, q);
    let (m, len) = (max_delay_samples as int, fed.buf.len() as int);
    let e = (20 * m + 16 * len + 24) * b;
    let (gain, mine, its) = if left {
        (gain_r, mirrored_l, delay_r)
    } else {
        (gain_l, mirrored_r, delay_l)
    };
    lemma_constants();
    let u = unit();
    assert(m * u <= (len - 1) * u) by (nonlinear_arith)
        requires
            m < len,
            u > 0,
    ;
    lemma_read_bounded(fed, mine, b, top);
    lemma_read_bounded(fed, its, b, top);
    lemma_factor_near(fed.read(mine), fed.read(its), gain, e, b, top);
    lemma_factor_near(
        fed.read(mine) * gain,
        fed.read(its) * gain,
        norm,
        2 * e + 6 * b,
        3 * b,
        top,
    );
    assert(2 * (2 * e + 6 * b) + 6 * (3 * b) == (80 * m + 64 * len + 126) * b) by (nonlinear_arith)
        requires
            e == (20 * m + 16 * len + 24) * b,
    ;
}

/// A mirrored position is in range where the position is.
proof fn lemma_mirrored_range(pan: Single)
    requires
        within(pan, num(0xbf80_0000), num(ONE)),
    ensures
        within(pan.negated(), num(0xbf80_0000), num(ONE)),
{
    lemma_constants();
    lemma_within(pan, num(0xbf80_0000), num(ONE));
    lemma_negated(pan);
    lemma_within(pan.negated(), num(0xbf80_0000), num(ONE));
}

/// The delays of the panorama are numbers of samples up to the longest one.
proof fn lemma_delays_finite(max_delay_samples: usize, pan: Single)
    requires
        within(pan, num(0xbf80_0000), num(ONE)),
        max_delay_samples <= 0x4_0000,
    ensures
        ({
            let (delay_l, delay_r) = panorama_delays(max_delay_samples, pan);
            &&& delay_l.is_finite() && 0 <= delay_l.value() <= max_delay_samples * unit()
            &&& delay_r.is_finite() && 0 <= delay_r.value() <= max_delay_samples * unit()
        }),
{
    lemma_constants();
    lemma_from_usize(max_delay_samples);
    let u = unit();
    assert(max_delay_samples * u >= 0) by (nonlinear_arith)
        requires
            u > 0,
    ;
    law_panorama_delays_in_range(max_delay_samples, pan);
    let (delay_l, delay_r) = panorama_delays(max_delay_samples, pan);
    let longest = Single::from_usize(max_delay_samples);
    lemma_within(delay_l, num(0), longest);
    lemma_within(delay_r, num(0), longest);
}

/// What is read from a line is no louder than it.
proof fn lemma_read_bounded(line: Line, delay: Single, b: int, top: Single)
    requires
        line.wf(),
        line.buf.len() <= 0x4_0000,
        line.bounded(b),
        b >= 0,
        delay.is_finite(),
        0 <= delay.value() <= (line.buf.len() - 1) * unit(),
        top.is_finite(),
        2 * b <= top.value(),
    ensures
        line.read(delay).is_finite(),
        size(line.read(delay).value()) <= b,
{
    lemma_constants();
    let len = line.buf.len() as usize;
    lemma_place(line.write, delay, len);
    let y = unwrapped(line.write, delay, len).value();
    let place = tap(position(line.write, delay, len), len);
    lemma_mod_bound(y, unit());
    lemma_mod_bound(y / unit(), len as int);
    lemma_mod_bound(place.index + 1, len as int);
    let (s0, s1) = (line.buf[place.index as int], line.buf[(place.index + 1) % (len as int)]);
    assert(s0.is_finite() && s1.is_finite());
    lemma_negated(top);
    lemma_sub(s1, s0, top.negated(), top);
    law_linear_between(s0, s1, place.frac);
}

} // verus!
