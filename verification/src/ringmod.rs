//! Ring modulation: the input multiplied by a periodic carrier.
use crate::audio::{put, resumes, AudioBuffer};
use crate::echoes::{lemma_spans, spans};
use crate::float::double::Double;
use crate::float::encoding::Format;
use crate::float::facts::{
    lemma_compare, lemma_constant, lemma_constants, lemma_finite_number, lemma_mul, lemma_plus_zero,
    lemma_same, lemma_scaled, lemma_shrunk, lemma_sub, lemma_times_one, lemma_within, size, unit,
    within,
};
use crate::float::order::{lemma_bits_order, lemma_parts, lemma_sign_bit};
use crate::float::single::{num, Single};
use crate::modulation::{
    angle, inverse_sawtooth, law_inverse_sawtooth_unipolar, law_sawtooth_unipolar,
    law_sawtooths_add_up, law_scaled_phase_joins, law_sine_unipolar, law_triangle_unipolar,
    lemma_on_turn, lemma_turn_within, on_turn, phase_after_scaled, sawtooth, triangle, turned,
    unipolar, HALF, ONE, TWO,
};
use vstd::arithmetic::power2::{lemma2_to64, lemma_pow2_adds, pow2};
use vstd::prelude::*;

verus! {

/// The length of a sample before the first reset, 1/44100.
pub const DEFAULT_STEP: u32 = 0x37be_37c6;

/// Where the sloped square starts to fall, 0.48.
pub const FALL: u32 = 0x3ef5_c28f;

/// Where the sloped square starts to rise, 0.98.
pub const RISE: u32 = 0x3f7a_e148;

/// How steeply it does, 50.
pub const SLOPE: u32 = 0x4248_0000;

#[derive(Clone, Copy, PartialEq, Eq, Structural, Debug)]
pub enum Waveform {
    Sine,
    Triangle,
    Sawtooth,
    InverseSawtooth,
    Square,
    SquareSloped,
}

/// What the controls say over one block. The lists hold one value per sample.
pub struct RingModParams {
    pub depth: Vec<Single>,
    pub frequency: Vec<Single>,
    pub waveform: Waveform,
}

impl RingModParams {
    /// Every list reaches over `n` samples.
    pub open spec fn covers(self, n: int) -> bool {
        self.depth@.len() >= n && self.frequency@.len() >= n
    }
}

pub open spec fn sloped_square_spec(phase: Single) -> Single {
    if phase.lt(num(FALL)) {
        num(ONE)
    } else if phase.lt(num(HALF)) {
        num(ONE) - num(SLOPE) * (phase - num(FALL))
    } else if phase.lt(num(RISE)) {
        num(0)
    } else {
        num(SLOPE) * (phase - num(RISE))
    }
}

#[verifier::when_used_as_spec(sloped_square_spec)]
pub fn sloped_square(phase: Single) -> (r: Single)
    ensures
        r == sloped_square_spec(phase),
{
    if phase.lt(num(FALL)) {
        num(ONE)
    } else if phase.lt(num(HALF)) {
        num(ONE) - num(SLOPE) * (phase - num(FALL))
    } else if phase.lt(num(RISE)) {
        num(0)
    } else {
        num(SLOPE) * (phase - num(RISE))
    }
}

pub open spec fn lfo_spec(phase: Single, waveform: Waveform, sine: Single) -> Single {
    match waveform {
        Waveform::Sine => unipolar(sine),
        Waveform::Triangle => triangle(phase),
        Waveform::Sawtooth => sawtooth(phase),
        Waveform::InverseSawtooth => inverse_sawtooth(phase),
        Waveform::Square => if phase.lt(num(HALF)) { num(0) } else { num(ONE) },
        Waveform::SquareSloped => sloped_square(phase),
    }
}

/// The oscillator at a phase, `sine` being the sine of that phase's angle.
#[verifier::when_used_as_spec(lfo_spec)]
pub fn lfo(phase: Single, waveform: Waveform, sine: Single) -> (r: Single)
    ensures
        r == lfo_spec(phase, waveform, sine),
{
    match waveform {
        Waveform::Sine => unipolar(sine),
        Waveform::Triangle => triangle(phase),
        Waveform::Sawtooth => sawtooth(phase),
        Waveform::InverseSawtooth => inverse_sawtooth(phase),
        Waveform::Square => if phase.lt(num(HALF)) { num(0) } else { num(ONE) },
        Waveform::SquareSloped => sloped_square(phase),
    }
}

pub open spec fn carrier_spec(lfo: Single) -> Single {
    num(TWO) * lfo - num(ONE)
}

/// The oscillator moved from between 0 and 1 to between -1 and 1.
#[verifier::when_used_as_spec(carrier_spec)]
pub fn carrier(lfo: Single) -> (r: Single)
    ensures
        r == carrier_spec(lfo),
{
    num(TWO) * lfo - num(ONE)
}

pub open spec fn gain_spec(depth: Single, carrier: Single) -> Single {
    num(ONE) - depth + depth * carrier
}

/// The factor of a sample: at depth 0 it leaves the sample as it is, at depth 1 it is the carrier.
#[verifier::when_used_as_spec(gain_spec)]
pub fn gain(depth: Single, carrier: Single) -> (r: Single)
    ensures
        r == gain_spec(depth, carrier),
{
    num(ONE) - depth + depth * carrier
}

pub struct RingMod {
    pub inv_sr: Single,
    pub lfo_phase: Single,
}

impl RingMod {
    /// The oscillator phase at sample `i` of a block.
    pub open spec fn phase_at(self, params: RingModParams, i: nat) -> Single {
        phase_after_scaled(self.lfo_phase, params.frequency@, self.inv_sr, i)
    }

    /// The factor of sample `i` of a block.
    pub open spec fn gain_at(self, params: RingModParams, sines: Seq<Single>, i: int) -> Single {
        gain(
            params.depth@[i],
            carrier(lfo(self.phase_at(params, i as nat), params.waveform, sines[i])),
        )
    }

    /// The first `n` samples that go out on a channel.
    pub open spec fn rendered(
        self,
        params: RingModParams,
        sines: Seq<Single>,
        input: Seq<Single>,
        n: nat,
    ) -> Seq<Single> {
        Seq::new(n, |i: int| input[i] * self.gain_at(params, sines, i))
    }

    /// At the start of the carrier.
    pub fn new() -> (r: RingMod)
        ensures
            r.inv_sr == num(DEFAULT_STEP),
            r.lfo_phase == num(0),
    {
        RingMod { inv_sr: num(DEFAULT_STEP), lfo_phase: num(0) }
    }

    /// Starts the oscillator over at a sample rate.
    pub fn reset(&mut self, sample_rate: Double)
        ensures
            final(self).inv_sr == num(ONE) / sample_rate.narrow(),
            spans(final(self).inv_sr, sample_rate.narrow()),
            final(self).lfo_phase == num(0),
    {
        self.inv_sr = num(ONE) / sample_rate.narrow();
        self.lfo_phase = num(0);
        proof {
            lemma_spans(sample_rate.narrow());
        }
    }

    /// The angles whose sines the oscillator needs, one per sample.
    pub fn lfo_angles(&self, params: &RingModParams, n: usize) -> (r: Vec<Single>)
        requires
            params.covers(n as int),
        ensures
            r@ == Seq::new(n as nat, |i: int| angle(self.phase_at(*params, i as nat))),
    {
        let mut r: Vec<Single> = Vec::new();
        let mut phase = self.lfo_phase;
        let mut i: usize = 0;
        while i < n
            invariant
                i <= n,
                params.covers(n as int),
                phase == self.phase_at(*params, i as nat),
                r@ == Seq::new(i as nat, |k: int| angle(self.phase_at(*params, k as nat))),
            decreases n - i,
        {
            r.push(angle(phase));
            phase = turned(phase, params.frequency[i] * self.inv_sr);
            i = i + 1;
        }
        r
    }

    /// Works on one channel: writes what goes out.
    fn render(
        &self,
        params: &RingModParams,
        sines: &Vec<Single>,
        input: &Vec<Single>,
        out: &mut Vec<Single>,
    )
        requires
            old(out)@.len() == input@.len(),
            params.covers(input@.len() as int),
            sines@.len() >= input@.len(),
        ensures
            final(out)@ == self.rendered(*params, sines@, input@, input@.len()),
    {
        let n = input.len();
        let mut phase = self.lfo_phase;
        let mut i: usize = 0;
        while i < n
            invariant
                i <= n,
                n == input@.len(),
                params.covers(n as int),
                sines@.len() >= n,
                phase == self.phase_at(*params, i as nat),
                out@.len() == n,
                out@.take(i as int) == self.rendered(*params, sines@, input@, i as nat),
            decreases n - i,
        {
            let factor = gain(params.depth[i], carrier(lfo(phase, params.waveform, sines[i])));
            put(out, i, input[i] * factor);
            phase = turned(phase, params.frequency[i] * self.inv_sr);
            i = i + 1;
        }
        assert(out@.take(n as int) == out@);
    }

    /// Takes the oscillator through a block.
    fn run(&mut self, params: &RingModParams, n: usize)
        requires
            params.covers(n as int),
        ensures
            final(self).inv_sr == old(self).inv_sr,
            final(self).lfo_phase == old(self).phase_at(*params, n as nat),
    {
        let ghost start = *self;
        let mut i: usize = 0;
        while i < n
            invariant
                i <= n,
                params.covers(n as int),
                self.inv_sr == start.inv_sr,
                self.lfo_phase == start.phase_at(*params, i as nat),
            decreases n - i,
        {
            self.lfo_phase = turned(self.lfo_phase, params.frequency[i] * self.inv_sr);
            i = i + 1;
        }
    }

    /// Works on one block, on every channel alike. `sines` holds the sines of `lfo_angles`.
    pub fn process(
        &mut self,
        params: &RingModParams,
        sines: &Vec<Single>,
        buffer: &mut AudioBuffer,
    )
        requires
            old(buffer).wf(),
            params.covers(old(buffer).samples as int),
            sines@.len() >= old(buffer).samples,
        ensures
            final(self).inv_sr == old(self).inv_sr,
            final(self).lfo_phase == old(self).phase_at(*params, old(buffer).samples as nat),
            final(buffer).rewritten(*old(buffer), old(buffer).input@.len() as int),
            forall|ch: int|
                0 <= ch < old(buffer).input@.len() ==> (#[trigger] final(buffer).output@[ch])@
                    == old(self).rendered(
                    *params,
                    sines@,
                    old(buffer).incoming(ch),
                    old(buffer).samples as nat,
                ),
    {
        let ghost start = *self;
        let ghost before = *buffer;
        let n = buffer.num_samples();
        let num_ch = buffer.channels();
        let mut ch: usize = 0;
        while ch < num_ch
            invariant
                ch <= num_ch,
                num_ch == before.input@.len(),
                n == before.samples,
                before.wf(),
                *self == start,
                params.covers(n as int),
                sines@.len() >= n,
                buffer.rewritten(before, num_ch as int),
                forall|c: int|
                    0 <= c < ch ==> (#[trigger] buffer.output@[c])@ == start.rendered(
                        *params,
                        sines@,
                        before.incoming(c),
                        n as nat,
                    ),
            decreases num_ch - ch,
        {
            self.render(params, sines, &buffer.input[ch], &mut buffer.output[ch]);
            ch = ch + 1;
        }
        self.run(params, n);
    }
}

/// At depth 0 every sample goes through as it is.
pub proof fn law_depth_zero_is_dry(x: Single, carrier: Single)
    requires
        !x.is_nan(),
        carrier.is_finite(),
    ensures
        x * gain(num(0), carrier) == x,
{
    lemma_constants();
    lemma_plus_zero(num(ONE), num(0));
    lemma_same(num(ONE) - num(0), num(ONE));
    lemma_shrunk(carrier, num(0));
    let u = unit();
    assert(0 * carrier.value() == 0 && 0 * u == 0) by (nonlinear_arith);
    lemma_mul(num(0), carrier, num(0), num(0));
    lemma_plus_zero(num(ONE), num(0) * carrier);
    lemma_same(num(ONE) + num(0) * carrier, num(ONE));
    lemma_times_one(x);
}

/// At depth 1 the factor is the carrier.
pub proof fn law_depth_one_is_modulated(carrier: Single)
    requires
        carrier.is_finite(),
    ensures
        gain(num(ONE), carrier).is_finite(),
        gain(num(ONE), carrier).value() == carrier.value(),
{
    lemma_constants();
    lemma_finite_number(carrier);
    lemma_sub(num(ONE), num(ONE), num(0), num(0));
    lemma_times_one(carrier);
    lemma_plus_zero(carrier, num(ONE) - num(ONE));
}

/// The sloped square lies between 0 and 1.
pub proof fn law_sloped_square_unipolar(phase: Single)
    requires
        on_turn(phase),
    ensures
        within(sloped_square(phase), num(0), num(ONE)),
{
    lemma_constants();
    lemma_on_turn(phase);
    lemma2_to64();
    lemma_constant(FALL, 0x200_0000, 0xf5_c28f);
    lemma_constant(RISE, 0x100_0000, 0xfa_e148);
    lemma_constant(SLOPE, 0x4_0000, 0xc8_0000);
    // The last numbers before 0.5 and before 1.
    lemma_constant(0x3eff_ffff, 0x200_0000, 0xff_ffff);
    lemma_constant(0x3f7f_ffff, 0x100_0000, 0xff_ffff);
    lemma_compare(phase, num(FALL));
    lemma_compare(phase, num(HALF));
    lemma_compare(phase, num(RISE));
    let u = unit();
    let (slope, v) = (num(SLOPE).value(), phase.value());
    assert(slope == 50 * u);
    if phase.lt(num(FALL)) {
    } else if phase.lt(num(HALF)) {
        lemma_below_next(phase, 0x3eff_ffff, HALF);
        // What is left to 0.5 is 671088 of the least distances there.
        let room = lemma_scaled(671088, -25);
        lemma_room(671088, 0x200_0000, -25, room);
        lemma_sub(phase, num(FALL), num(0), room);
        let d = phase - num(FALL);
        assert(0 * u <= slope * d.value() <= u * u) by (nonlinear_arith)
            requires
                slope == 50 * u,
                0 <= d.value() <= room.value(),
                room.value() * 0x200_0000 == 671088 * u,
                u > 0,
        ;
        lemma_mul(num(SLOPE), d, num(0), num(ONE));
        lemma_sub(num(ONE), num(SLOPE) * d, num(0), num(ONE));
    } else if phase.lt(num(RISE)) {
    } else {
        lemma_below_next(phase, 0x3f7f_ffff, ONE);
        let room = lemma_scaled(335543, -24);
        lemma_room(335543, 0x100_0000, -24, room);
        lemma_sub(phase, num(RISE), num(0), room);
        let d = phase - num(RISE);
        assert(0 * u <= slope * d.value() <= u * u) by (nonlinear_arith)
            requires
                slope == 50 * u,
                0 <= d.value() <= room.value(),
                room.value() * 0x100_0000 == 335543 * u,
                u > 0,
        ;
        lemma_mul(num(SLOPE), d, num(0), num(ONE));
    }
    lemma_within(sloped_square(phase), num(0), num(ONE));
}

/// What is below a number is at or below the one before it.
proof fn lemma_below_next(x: Single, before: u32, bits: u32)
    requires
        x.is_finite(),
        x.value() >= 0,
        0 < bits < 0x7f80_0000,
        before == bits - 1,
        x.value() < num(bits).value(),
    ensures
        x.value() <= num(before).value(),
{
    let f = Format::Single;
    let (negative, _, _) = lemma_parts(f, x.bits as int);
    lemma_bits_order(f, before as int, 0);
    if !negative {
        lemma_bits_order(f, bits as int, x.bits as int);
        lemma_bits_order(f, x.bits as int, before as int);
    } else {
        lemma_sign_bit(f, x.bits - f.sign());
        lemma_bits_order(f, before as int, before as int);
    }
}

/// The value of `m` halvings of one.
proof fn lemma_room(m: nat, weight: int, e: int, room: Single)
    requires
        -25 <= e <= -24,
        weight == pow2((-e) as nat),
        room.value() == m * pow2((e + 149) as nat),
    ensures
        room.value() * weight == m * unit(),
{
    lemma_pow2_adds((e + 149) as nat, (-e) as nat);
    let a = pow2((e + 149) as nat);
    assert((m * a) * weight == m * (a * weight)) by (nonlinear_arith);
}

/// Whatever its shape, the oscillator lies between 0 and 1.
pub proof fn law_lfo_unipolar(phase: Single, waveform: Waveform, sine: Single)
    requires
        on_turn(phase),
        within(sine, num(0xbf80_0000), num(ONE)),
    ensures
        within(lfo(phase, waveform, sine), num(0), num(ONE)),
{
    lemma_turn_within(phase);
    match waveform {
        Waveform::Sine => law_sine_unipolar(sine),
        Waveform::Triangle => law_triangle_unipolar(phase),
        Waveform::Sawtooth => law_sawtooth_unipolar(phase),
        Waveform::InverseSawtooth => law_inverse_sawtooth_unipolar(phase),
        Waveform::Square => {
            lemma_constants();
            lemma_within(num(0), num(0), num(ONE));
            lemma_within(num(ONE), num(0), num(ONE));
        },
        Waveform::SquareSloped => law_sloped_square_unipolar(phase),
    }
}

/// Whatever its shape, the carrier lies between -1 and 1.
pub proof fn law_carrier_bipolar(phase: Single, waveform: Waveform, sine: Single)
    requires
        on_turn(phase),
        within(sine, num(0xbf80_0000), num(ONE)),
    ensures
        within(carrier(lfo(phase, waveform, sine)), num(0xbf80_0000), num(ONE)),
{
    law_lfo_unipolar(phase, waveform, sine);
    lemma_constants();
    let l = lfo(phase, waveform, sine);
    lemma_within(l, num(0), num(ONE));
    let (v, u) = (l.value(), unit());
    assert(0 * u <= (2 * u) * v <= (2 * u) * u) by (nonlinear_arith)
        requires
            0 <= v <= u,
    ;
    lemma_mul(num(TWO), l, num(0), num(TWO));
    lemma_sub(num(TWO) * l, num(ONE), num(0xbf80_0000), num(ONE));
    lemma_within(carrier(l), num(0xbf80_0000), num(ONE));
}

/// What goes out in one block goes out in its two parts, one after the other.
pub proof fn law_output_joins(
    start: RingMod,
    then: RingMod,
    whole: RingModParams,
    part: RingModParams,
    sines: Seq<Single>,
    part_sines: Seq<Single>,
    input: Seq<Single>,
    part_input: Seq<Single>,
    i: nat,
    j: nat,
)
    requires
        then.inv_sr == start.inv_sr,
        then.lfo_phase == start.phase_at(whole, i),
        resumes(part.depth@, whole.depth@, i, j),
        resumes(part.frequency@, whole.frequency@, i, j),
        part.waveform == whole.waveform,
        resumes(part_sines, sines, i, j),
        resumes(part_input, input, i, j),
    ensures
        start.phase_at(whole, i + j) == then.phase_at(part, j),
        start.rendered(whole, sines, input, i + j) == start.rendered(whole, sines, input, i)
            + then.rendered(part, part_sines, part_input, j),
{
    let both = start.rendered(whole, sines, input, i) + then.rendered(
        part,
        part_sines,
        part_input,
        j,
    );
    law_scaled_phase_joins(
        start.lfo_phase,
        whole.frequency@,
        part.frequency@,
        start.inv_sr,
        i,
        j,
    );
    let all = start.rendered(whole, sines, input, i + j);
    assert forall|m: int| 0 <= m < i + j implies #[trigger] all[m] == both[m] by {
        if m >= i {
            let k = (m - i) as nat;
            assert(m as nat == i + k);
            law_scaled_phase_joins(
                start.lfo_phase,
                whole.frequency@,
                part.frequency@,
                start.inv_sr,
                i,
                k,
            );
            assert(part.depth@[k as int] == whole.depth@[(i + k) as int]);
            assert(part_sines[k as int] == sines[(i + k) as int]);
            assert(part_input[k as int] == input[(i + k) as int]);
        }
    }
    assert(all =~= both);
}


/// At one phase the sawtooth and the inverse sawtooth of the oscillator add up to 1, but for
/// rounding.
pub proof fn law_sawtooth_waveforms_add_up(phase: Single, sine: Single)
    requires
        on_turn(phase),
    ensures
        0x100_0000 * size(
            lfo(phase, Waveform::Sawtooth, sine).value() + lfo(
                phase,
                Waveform::InverseSawtooth,
                sine,
            ).value() - unit(),
        ) <= 2 * unit(),
{
    lemma_turn_within(phase);
    law_sawtooths_add_up(phase);
}

} // verus!
