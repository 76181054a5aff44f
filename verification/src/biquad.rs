//! A second-order filter and the angles that its coefficients come from.
use crate::audio::{put, resumes};
use crate::float::double::{wide, Double};
use crate::float::single::Single;
use vstd::prelude::*;

verus! {

/// 1
pub const WIDE_ONE: u64 = 0x3ff0_0000_0000_0000;

/// 2
pub const WIDE_TWO: u64 = 0x4000_0000_0000_0000;

/// -1
pub const WIDE_MINUS_ONE: u64 = 0xbff0_0000_0000_0000;

/// -2
pub const WIDE_MINUS_TWO: u64 = 0xc000_0000_0000_0000;

/// Twice pi.
pub const WIDE_TAU: u64 = 0x4019_21fb_5444_2d18;

/// The least centre frequency, 0.000001 radians per sample.
pub const LEAST_ANGLE: u64 = 0x3eb0_c6f7_a0b5_ed8d;

/// The greatest centre frequency and bandwidth, 0.99 pi.
pub const GREATEST_ANGLE: u64 = 0x4008_e1a4_55fb_d07c;

/// 0.05
pub const TWENTIETH: u64 = 0x3fa9_9999_9999_999a;

/// Direct-form-I filter of one channel. The coefficients are normalized when they are set, so
/// that a sample costs `b0 x[n] + b1 x[n-1] + b2 x[n-2] - a1 y[n-1] - a2 y[n-2]`.
#[derive(Clone, Copy, PartialEq, Eq, Structural)]
pub struct Biquad {
    pub b0: Double,
    pub b1: Double,
    pub b2: Double,
    pub a1: Double,
    pub a2: Double,
    pub x1: Double,
    pub x2: Double,
    pub y1: Double,
    pub y2: Double,
}

/// The six coefficients of a filter before they are normalized.
#[derive(Clone, Copy, PartialEq, Eq, Structural)]
pub struct Shape {
    pub b0: Double,
    pub b1: Double,
    pub b2: Double,
    pub a0: Double,
    pub a1: Double,
    pub a2: Double,
}

/// The centre frequency and the bandwidth of a filter, in radians per sample, halved where a
/// tangent needs it.
#[derive(Clone, Copy, PartialEq, Eq, Structural)]
pub struct FilterAngles {
    pub centre: Double,
    pub half_bandwidth: Double,
    pub half_centre: Double,
}

/// The cosine of the centre frequency, the tangents of the other two angles, and the linear gain.
#[derive(Clone, Copy, PartialEq, Eq, Structural)]
pub struct FilterTrig {
    pub cos_centre: Double,
    pub tan_half_bandwidth: Double,
    pub tan_half_centre: Double,
    pub gain: Double,
}

pub open spec fn filter_angles_spec(freq_hz: Double, q: Double, sr: Double) -> FilterAngles {
    let centre = (wide(WIDE_TAU) * freq_hz / sr).clamp(wide(LEAST_ANGLE), wide(GREATEST_ANGLE));
    let bandwidth = (centre / q).min(wide(GREATEST_ANGLE));
    FilterAngles {
        centre,
        half_bandwidth: bandwidth / wide(WIDE_TWO),
        half_centre: centre / wide(WIDE_TWO),
    }
}

/// The angles of a filter at a frequency: the centre is kept between the least and the greatest
/// angle, and the bandwidth at or under the greatest.
#[verifier::when_used_as_spec(filter_angles_spec)]
pub fn filter_angles(freq_hz: Double, q: Double, sr: Double) -> (r: FilterAngles)
    ensures
        r == filter_angles_spec(freq_hz, q, sr),
{
    let centre = (wide(WIDE_TAU) * freq_hz / sr).clamp(wide(LEAST_ANGLE), wide(GREATEST_ANGLE));
    let bandwidth = (centre / q).min(wide(GREATEST_ANGLE));
    FilterAngles {
        centre,
        half_bandwidth: bandwidth / wide(WIDE_TWO),
        half_centre: centre / wide(WIDE_TWO),
    }
}

pub open spec fn gain_exponent_spec(gain_db: Double) -> Double {
    gain_db * wide(TWENTIETH)
}

/// The power of ten that a gain in decibels is.
#[verifier::when_used_as_spec(gain_exponent_spec)]
pub fn gain_exponent(gain_db: Double) -> (r: Double)
    ensures
        r == gain_exponent_spec(gain_db),
{
    gain_db * wide(TWENTIETH)
}

pub open spec fn band_pass_spec(trig: FilterTrig) -> Shape {
    Shape {
        b0: trig.tan_half_bandwidth,
        b1: wide(0),
        b2: trig.tan_half_bandwidth.negated(),
        a0: wide(WIDE_ONE) + trig.tan_half_bandwidth,
        a1: wide(WIDE_MINUS_TWO) * trig.cos_centre,
        a2: wide(WIDE_ONE) - trig.tan_half_bandwidth,
    }
}

/// Passes a band around the centre.
#[verifier::when_used_as_spec(band_pass_spec)]
pub fn band_pass(trig: FilterTrig) -> (r: Shape)
    ensures
        r == band_pass_spec(trig),
{
    Shape {
        b0: trig.tan_half_bandwidth,
        b1: wide(0),
        b2: trig.tan_half_bandwidth.negated(),
        a0: wide(WIDE_ONE) + trig.tan_half_bandwidth,
        a1: wide(WIDE_MINUS_TWO) * trig.cos_centre,
        a2: wide(WIDE_ONE) - trig.tan_half_bandwidth,
    }
}

pub open spec fn peaking_spec(trig: FilterTrig) -> Shape {
    let root = trig.gain.sqrt();
    let two_cos = wide(WIDE_MINUS_TWO) * trig.cos_centre;
    Shape {
        b0: root + trig.gain * trig.tan_half_bandwidth,
        b1: root * two_cos,
        b2: root - trig.gain * trig.tan_half_bandwidth,
        a0: root + trig.tan_half_bandwidth,
        a1: root * two_cos,
        a2: root - trig.tan_half_bandwidth,
    }
}

/// Raises or lowers a band around the centre.
#[verifier::when_used_as_spec(peaking_spec)]
pub fn peaking(trig: FilterTrig) -> (r: Shape)
    ensures
        r == peaking_spec(trig),
{
    let root = trig.gain.sqrt();
    let two_cos = wide(WIDE_MINUS_TWO) * trig.cos_centre;
    Shape {
        b0: root + trig.gain * trig.tan_half_bandwidth,
        b1: root * two_cos,
        b2: root - trig.gain * trig.tan_half_bandwidth,
        a0: root + trig.tan_half_bandwidth,
        a1: root * two_cos,
        a2: root - trig.tan_half_bandwidth,
    }
}

impl Biquad {
    /// The filter with the coefficients of a shape, each divided by `a0`.
    pub open spec fn shaped(self, shape: Shape) -> Biquad {
        let inv = wide(WIDE_ONE) / shape.a0;
        Biquad {
            b0: shape.b0 * inv,
            b1: shape.b1 * inv,
            b2: shape.b2 * inv,
            a1: shape.a1 * inv,
            a2: shape.a2 * inv,
            ..self
        }
    }

    /// The filter without the samples it has seen.
    pub open spec fn cleared(self) -> Biquad {
        Biquad { x1: wide(0), x2: wide(0), y1: wide(0), y2: wide(0), ..self }
    }

    /// What the filter makes of a sample.
    pub open spec fn response(self, x: Double) -> Double {
        self.b0 * x + self.b1 * self.x1 + self.b2 * self.x2 - self.a1 * self.y1 - self.a2 * self.y2
    }

    /// The filter after a sample.
    pub open spec fn stepped(self, x: Double) -> Biquad {
        Biquad { x2: self.x1, x1: x, y2: self.y1, y1: self.response(x), ..self }
    }

    /// The filter after the first `i` samples of `input`.
    pub open spec fn after(self, input: Seq<Single>, i: nat) -> Biquad
        decreases i,
    {
        if i == 0 {
            self
        } else {
            self.after(input, (i - 1) as nat).stepped(input[i - 1].widen())
        }
    }

    /// What the filter makes of the first `n` samples of `input`.
    pub open spec fn filtered(self, input: Seq<Single>, n: nat) -> Seq<Single> {
        Seq::new(n, |i: int| self.after(input, i as nat).response(input[i].widen()).narrow())
    }

    /// Takes the coefficients of a shape.
    pub fn set(&mut self, shape: Shape)
        ensures
            *final(self) == old(self).shaped(shape),
    {
        let inv = wide(WIDE_ONE) / shape.a0;
        self.b0 = shape.b0 * inv;
        self.b1 = shape.b1 * inv;
        self.b2 = shape.b2 * inv;
        self.a1 = shape.a1 * inv;
        self.a2 = shape.a2 * inv;
    }

    /// Forgets the samples it has seen and keeps the coefficients.
    pub fn reset(&mut self)
        ensures
            *final(self) == old(self).cleared(),
    {
        self.x1 = wide(0);
        self.x2 = wide(0);
        self.y1 = wide(0);
        self.y2 = wide(0);
    }

    /// Filters one sample.
    pub fn process(&mut self, x: Double) -> (y: Double)
        ensures
            y == old(self).response(x),
            *final(self) == old(self).stepped(x),
    {
        let y = self.b0 * x + self.b1 * self.x1 + self.b2 * self.x2 - self.a1 * self.y1 - self.a2
            * self.y2;
        self.x2 = self.x1;
        self.x1 = x;
        self.y2 = self.y1;
        self.y1 = y;
        y
    }

    /// Filters a block.
    pub fn run(&mut self, input: &Vec<Single>, out: &mut Vec<Single>)
        requires
            old(out)@.len() == input@.len(),
        ensures
            *final(self) == old(self).after(input@, input@.len()),
            final(out)@ == old(self).filtered(input@, input@.len()),
    {
        let ghost start = *self;
        let n = input.len();
        let mut i: usize = 0;
        while i < n
            invariant
                i <= n,
                n == input@.len(),
                *self == start.after(input@, i as nat),
                out@.len() == n,
                out@.take(i as int) == start.filtered(input@, i as nat),
            decreases n - i,
        {
            put(out, i, self.process(input[i].widen()).narrow());
            i = i + 1;
        }
        assert(out@.take(n as int) == out@);
    }
}

/// The filter whose coefficients and samples are all zero.
pub open spec fn flat() -> Biquad {
    Biquad {
        b0: wide(0),
        b1: wide(0),
        b2: wide(0),
        a1: wide(0),
        a2: wide(0),
        x1: wide(0),
        x2: wide(0),
        y1: wide(0),
        y2: wide(0),
    }
}

impl Default for Biquad {
    /// A filter whose coefficients are all zero.
    fn default() -> (r: Biquad)
        ensures
            r == flat(),
    {
        Biquad {
            b0: wide(0),
            b1: wide(0),
            b2: wide(0),
            a1: wide(0),
            a2: wide(0),
            x1: wide(0),
            x2: wide(0),
            y1: wide(0),
            y2: wide(0),
        }
    }
}

/// A block leaves a filter as its two parts leave it, one after the other.
pub proof fn law_filter_joins(
    filter: Biquad,
    input: Seq<Single>,
    part: Seq<Single>,
    i: nat,
    j: nat,
)
    requires
        resumes(part, input, i, j),
    ensures
        filter.after(input, i + j) == filter.after(input, i).after(part, j),
    decreases j,
{
    if j > 0 {
        let k = (j - 1) as nat;
        assert((i + j - 1) as nat == i + k);
        law_filter_joins(filter, input, part, i, k);
        assert(part[k as int] == input[(i + k) as int]);
    }
}

/// What a filter makes of a block it makes of its two parts, one after the other.
pub proof fn law_output_joins(
    filter: Biquad,
    input: Seq<Single>,
    part: Seq<Single>,
    i: nat,
    j: nat,
)
    requires
        resumes(part, input, i, j),
    ensures
        filter.filtered(input, i + j) == filter.filtered(input, i) + filter.after(
            input,
            i,
        ).filtered(part, j),
{
    let both = filter.filtered(input, i) + filter.after(input, i).filtered(part, j);
    let all = filter.filtered(input, i + j);
    assert forall|m: int| 0 <= m < i + j implies #[trigger] all[m] == both[m] by {
        if m >= i {
            let k = (m - i) as nat;
            assert(m as nat == i + k);
            law_filter_joins(filter, input, part, i, k);
            assert(part[k as int] == input[(i + k) as int]);
        }
    }
    assert(all =~= both);
}

} // verus!
