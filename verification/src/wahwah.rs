//! Wah-wah: a resonant filter whose centre frequency is moved by an oscillator, by an envelope
//! follower on the input, or by hand.
use crate::audio::{lesser, put, resumes, AudioBuffer};
use crate::biquad::{
    band_pass, filter_angles, flat, gain_exponent, peaking, Biquad, FilterAngles, FilterTrig, Shape,
    WIDE_ONE, WIDE_TWO,
};
use crate::complement::audible;
use crate::echoes::{lemma_spans, spans};
use crate::float::double::{wide, Double};
use crate::float::facts::{
    alike, lemma_abs, lemma_add, lemma_add_error, lemma_alike_add, lemma_alike_mul, lemma_around,
    lemma_compare, lemma_constant, lemma_constants, lemma_finite_number, lemma_mul, lemma_mul_error,
    lemma_negated, lemma_plus_zero, lemma_same, lemma_sub, lemma_whole, lemma_within, size, unit,
    within,
};
use crate::float::single::{num, Single};
use crate::float::wide::{finer, lemma_narrowed, lemma_widened, wide_unit};
use crate::follower::{attack_release_coeff, eased, exponent_pairs, exponents, law_eased_bounded};
use crate::modulation::{
    angle, law_linear_starts_at_first, law_mix_unipolar, law_scaled_phase_joins, law_sine_unipolar,
    lemma_way_near, linear, phase_after_scaled, turned, unipolar, HALF, MINUS_ONE, ONE, TAU,
};
use crate::nearness::{carried, fresh, law_near_filters_step, lemma_carried, nearly_tuned};
use vstd::arithmetic::power2::{lemma2_to64, lemma_pow2_pos, pow2};
use vstd::prelude::*;

verus! {

/// The sample rate before the first reset, 44100.
pub const DEFAULT_RATE: u64 = 0x40e5_8880_0000_0000;

/// The length of a sample before the first reset, 1/44100.
pub const DEFAULT_STEP: u32 = 0x37be_37c6;

/// The lowest centre frequency in automatic mode, 200.
pub const MIN_HZ: u32 = 0x4348_0000;

/// The highest centre frequency in automatic mode, 1300.
pub const MAX_HZ: u32 = 0x44a2_8000;

/// The middle of the centre frequencies in automatic mode, 750.
pub const MIDDLE_HZ: u32 = 0x443b_8000;

/// The highest centre frequency in automatic mode less the lowest, 1100.
pub const SPAN_HZ: u32 = 0x4489_8000;

#[derive(Clone, Copy, PartialEq, Eq, Structural, Debug)]
pub enum Mode {
    Manual,
    Automatic,
}

#[derive(Clone, Copy, PartialEq, Eq, Structural, Debug)]
pub enum FilterType {
    ResonantLowPass,
    BandPass,
    Peaking,
}

/// What the controls say over one block. The lists hold one value per sample.
pub struct WahWahParams {
    pub mode: Mode,
    pub mix: Vec<Single>,
    pub frequency: Vec<Single>,
    pub q: Vec<Single>,
    pub gain: Vec<Single>,
    pub filter_type: FilterType,
    pub lfo_rate: Vec<Single>,
    pub lfo_env_mix: Vec<Single>,
    pub env_attack: Vec<Single>,
    pub env_release: Vec<Single>,
}

impl WahWahParams {
    pub open spec fn covers(self, n: int) -> bool {
        &&& self.mix@.len() >= n
        &&& self.frequency@.len() >= n
        &&& self.q@.len() >= n
        &&& self.gain@.len() >= n
        &&& self.lfo_rate@.len() >= n
        &&& self.lfo_env_mix@.len() >= n
        &&& self.env_attack@.len() >= n
        &&& self.env_release@.len() >= n
    }
}

/// What moves the filter over one block, a value per sample: the sines of `lfo_angles` and the
/// powers of `INV_E` with the exponents of `coefficient_exponents`.
pub struct Drive {
    pub sines: Vec<Single>,
    pub powers: Vec<(Single, Single)>,
}

impl Drive {
    pub open spec fn covers(self, n: int) -> bool {
        self.sines@.len() >= n && self.powers@.len() >= n
    }
}

pub open spec fn shape_spec(ty: FilterType, trig: FilterTrig) -> Shape {
    let t = trig.tan_half_centre;
    let t2 = t * t;
    match ty {
        FilterType::ResonantLowPass => Shape {
            b0: t2,
            b1: wide(WIDE_TWO) * t2,
            b2: t2,
            a0: t2 + t / trig.gain + wide(WIDE_ONE),
            a1: wide(WIDE_TWO) * t2 - wide(WIDE_TWO),
            a2: t2 - t / trig.gain + wide(WIDE_ONE),
        },
        FilterType::BandPass => band_pass(trig),
        FilterType::Peaking => peaking(trig),
    }
}

/// The shape of each filter type.
#[verifier::when_used_as_spec(shape_spec)]
pub fn shape(ty: FilterType, trig: FilterTrig) -> (r: Shape)
    ensures
        r == shape_spec(ty, trig),
{
    let t = trig.tan_half_centre;
    let t2 = t * t;
    match ty {
        FilterType::ResonantLowPass => Shape {
            b0: t2,
            b1: wide(WIDE_TWO) * t2,
            b2: t2,
            a0: t2 + t / trig.gain + wide(WIDE_ONE),
            a1: wide(WIDE_TWO) * t2 - wide(WIDE_TWO),
            a2: t2 - t / trig.gain + wide(WIDE_ONE),
        },
        FilterType::BandPass => band_pass(trig),
        FilterType::Peaking => peaking(trig),
    }
}

/// Gives a filter the shape of a type.
pub fn update(filter: &mut Biquad, ty: FilterType, trig: FilterTrig)
    ensures
        *final(filter) == old(filter).shaped(shape(ty, trig)),
{
    filter.set(shape(ty, trig));
}

pub open spec fn followed_spec(
    env: Single,
    x: Single,
    attack_co: Single,
    release_co: Single,
) -> Single {
    let co = if x.abs().gt(env) { attack_co } else { release_co };
    eased(env, x.abs(), co)
}

/// The envelope after a sample: it rises with one coefficient and falls with the other.
#[verifier::when_used_as_spec(followed_spec)]
pub fn followed(env: Single, x: Single, attack_co: Single, release_co: Single) -> (r: Single)
    ensures
        r == followed_spec(env, x, attack_co, release_co),
{
    let co = if x.abs().gt(env) { attack_co } else { release_co };
    eased(env, x.abs(), co)
}

pub open spec fn swept_spec(env: Single, lfo_norm: Single, lfo_env_mix: Single) -> Single {
    let mixed = linear(lfo_norm, env.clamp(num(0), num(ONE)), lfo_env_mix);
    num(MIN_HZ) + mixed * num(SPAN_HZ)
}

/// The centre frequency in automatic mode: oscillator and envelope mixed, between the lowest and
/// the highest.
#[verifier::when_used_as_spec(swept_spec)]
pub fn swept(env: Single, lfo_norm: Single, lfo_env_mix: Single) -> (r: Single)
    ensures
        r == swept_spec(env, lfo_norm, lfo_env_mix),
{
    let mixed = linear(lfo_norm, env.clamp(num(0), num(ONE)), lfo_env_mix);
    num(MIN_HZ) + mixed * num(SPAN_HZ)
}

/// The envelope of a channel after `i` samples.
pub open spec fn envelope_after(
    params: WahWahParams,
    drive: Drive,
    env: Single,
    input: Seq<Single>,
    i: nat,
) -> Single
    decreases i,
{
    if i == 0 {
        env
    } else {
        let k = i - 1;
        followed(
            envelope_after(params, drive, env, input, k as nat),
            input[k],
            attack_release_coeff(params.env_attack@[k], drive.powers@[k].0),
            attack_release_coeff(params.env_release@[k], drive.powers@[k].1),
        )
    }
}

/// The centre frequency of a channel at sample `i`.
pub open spec fn centre_at(
    params: WahWahParams,
    drive: Drive,
    env: Single,
    input: Seq<Single>,
    i: int,
) -> Single {
    match params.mode {
        Mode::Automatic => swept(
            envelope_after(params, drive, env, input, (i + 1) as nat),
            unipolar(drive.sines@[i]),
            params.lfo_env_mix@[i],
        ),
        Mode::Manual => params.frequency@[i],
    }
}

/// The filter of a channel after `i` samples; it takes a new shape at every one.
pub open spec fn filter_after(
    ty: FilterType,
    trig: Seq<FilterTrig>,
    filter: Biquad,
    input: Seq<Single>,
    i: nat,
) -> Biquad
    decreases i,
{
    if i == 0 {
        filter
    } else {
        let k = i - 1;
        filter_after(ty, trig, filter, input, k as nat).shaped(shape(ty, trig[k])).stepped(
            input[k].widen(),
        )
    }
}

/// The first `n` samples that go out on a channel.
pub open spec fn rendered(
    params: WahWahParams,
    trig: Seq<FilterTrig>,
    filter: Biquad,
    input: Seq<Single>,
    n: nat,
) -> Seq<Single> {
    let ty = params.filter_type;
    Seq::new(
        n,
        |i: int|
            {
                let wet = filter_after(ty, trig, filter, input, i as nat).shaped(
                    shape(ty, trig[i]),
                ).response(input[i].widen()).narrow();
                linear(input[i], wet, params.mix@[i])
            },
    )
}

/// Takes the envelope of a channel one sample on.
fn follow(params: &WahWahParams, drive: &Drive, env: Single, x: Single, i: usize) -> (r: Single)
    requires
        params.covers(i + 1),
        drive.covers(i + 1),
    ensures
        r == followed(
            env,
            x,
            attack_release_coeff(params.env_attack@[i as int], drive.powers@[i as int].0),
            attack_release_coeff(params.env_release@[i as int], drive.powers@[i as int].1),
        ),
{
    followed(
        env,
        x,
        attack_release_coeff(params.env_attack[i], drive.powers[i].0),
        attack_release_coeff(params.env_release[i], drive.powers[i].1),
    )
}

/// Takes a channel through a block.
fn render(
    params: &WahWahParams,
    drive: &Drive,
    trig: &Vec<FilterTrig>,
    filter: &mut Biquad,
    env: &mut Single,
    input: &Vec<Single>,
    out: &mut Vec<Single>,
)
    requires
        old(out)@.len() == input@.len(),
        params.covers(input@.len() as int),
        drive.covers(input@.len() as int),
        trig@.len() >= input@.len(),
    ensures
        *final(filter) == filter_after(
            params.filter_type,
            trig@,
            *old(filter),
            input@,
            input@.len(),
        ),
        *final(env) == envelope_after(*params, *drive, *old(env), input@, input@.len()),
        final(out)@ == rendered(*params, trig@, *old(filter), input@, input@.len()),
{
    let ghost start = *filter;
    let ghost quiet = *env;
    let n = input.len();
    let mut i: usize = 0;
    while i < n
        invariant
            i <= n,
            n == input@.len(),
            params.covers(n as int),
            drive.covers(n as int),
            trig@.len() >= n,
            *filter == filter_after(params.filter_type, trig@, start, input@, i as nat),
            *env == envelope_after(*params, *drive, quiet, input@, i as nat),
            out@.len() == n,
            out@.take(i as int) == rendered(*params, trig@, start, input@, i as nat),
        decreases n - i,
    {
        let x = input[i];
        *env = follow(params, drive, *env, x, i);
        update(filter, params.filter_type, trig[i]);
        let wet = filter.process(x.widen()).narrow();
        put(out, i, linear(x, wet, params.mix[i]));
        i = i + 1;
    }
    assert(out@.take(n as int) == out@);
}

pub struct WahWah {
    pub sample_rate: Double,
    pub inv_sr: Single,
    pub filters: Vec<Biquad>,
    pub envelopes: Vec<Single>,
    pub lfo_phase: Single,
}

impl WahWah {
    /// There is a filter and an envelope for each of two channels.
    pub open spec fn wf(self) -> bool {
        self.filters@.len() == 2 && self.envelopes@.len() == 2
    }

    /// The oscillator phase at sample `i` of a block. By hand it stands still.
    pub open spec fn phase_at(self, params: WahWahParams, i: nat) -> Single {
        match params.mode {
            Mode::Automatic => phase_after_scaled(
                self.lfo_phase,
                params.lfo_rate@,
                self.inv_sr,
                i,
            ),
            Mode::Manual => self.lfo_phase,
        }
    }

    /// Before the first block.
    pub fn new() -> (r: WahWah)
        ensures
            r.wf(),
            r.sample_rate == wide(DEFAULT_RATE),
            r.inv_sr == num(DEFAULT_STEP),
            r.filters@ == seq![flat(), flat()],
            r.envelopes@ == seq![num(0), num(0)],
            r.lfo_phase == num(0),
    {
        let mut filters: Vec<Biquad> = Vec::new();
        filters.push(Biquad::default());
        filters.push(Biquad::default());
        let mut envelopes: Vec<Single> = Vec::new();
        envelopes.push(num(0));
        envelopes.push(num(0));
        WahWah {
            sample_rate: wide(DEFAULT_RATE),
            inv_sr: num(DEFAULT_STEP),
            filters,
            envelopes,
            lfo_phase: num(0),
        }
    }

    /// Forgets what was heard and starts the oscillator over.
    pub fn reset(&mut self, sample_rate: Double)
        requires
            old(self).wf(),
        ensures
            final(self).wf(),
            final(self).sample_rate == sample_rate,
            final(self).inv_sr == num(ONE) / sample_rate.narrow(),
            spans(final(self).inv_sr, sample_rate.narrow()),
            final(self).filters@ == seq![
                old(self).filters@[0].cleared(),
                old(self).filters@[1].cleared(),
            ],
            final(self).envelopes@ == seq![num(0), num(0)],
            final(self).lfo_phase == num(0),
    {
        self.sample_rate = sample_rate;
        self.inv_sr = num(ONE) / sample_rate.narrow();
        proof {
            lemma_spans(sample_rate.narrow());
        }
        let mut f0 = self.filters[0];
        let mut f1 = self.filters[1];
        f0.reset();
        f1.reset();
        self.filters[0] = f0;
        self.filters[1] = f1;
        self.envelopes[0] = num(0);
        self.envelopes[1] = num(0);
        self.lfo_phase = num(0);
    }

    /// The angles whose sines the oscillator needs, one per sample.
    pub fn lfo_angles(&self, params: &WahWahParams, n: usize) -> (r: Vec<Single>)
        requires
            params.covers(n as int),
        ensures
            r@ == Seq::new(n as nat, |i: int| angle(self.phase_at(*params, i as nat))),
    {
        let mut r: Vec<Single> = Vec::new();
        let mut phase = self.lfo_phase;
        let mut i: usize = 0;
        while i < n
            invariant
                i <= n,
                params.covers(n as int),
                phase == self.phase_at(*params, i as nat),
                r@ == Seq::new(i as nat, |k: int| angle(self.phase_at(*params, k as nat))),
            decreases n - i,
        {
            r.push(angle(phase));
            if let Mode::Automatic = params.mode {
                phase = turned(phase, params.lfo_rate[i] * self.inv_sr);
            }
            i = i + 1;
        }
        r
    }

    /// The exponents of `INV_E` that the follower needs for its attack and its release, a pair
    /// per sample.
    pub fn coefficient_exponents(&self, params: &WahWahParams, n: usize) -> (r: Vec<
        (Single, Single),
    >)
        requires
            params.covers(n as int),
        ensures
            r@ == exponent_pairs(
                self.inv_sr,
                params.env_attack@,
                params.env_release@,
                n as nat,
            ),
    {
        exponents(self.inv_sr, &params.env_attack, &params.env_release, n)
    }

    /// The powers of ten that the gains are, one per sample.
    pub fn gain_exponents(&self, params: &WahWahParams, n: usize) -> (r: Vec<Double>)
        requires
            params.covers(n as int),
        ensures
            r@ == Seq::new(n as nat, |i: int| gain_exponent(params.gain@[i].widen())),
    {
        let mut r: Vec<Double> = Vec::new();
        let mut i: usize = 0;
        while i < n
            invariant
                i <= n,
                params.covers(n as int),
                r@ == Seq::new(i as nat, |k: int| gain_exponent(params.gain@[k].widen())),
            decreases n - i,
        {
            r.push(gain_exponent(params.gain[i].widen()));
            i = i + 1;
        }
        r
    }

    /// The angles whose cosines and tangents the filter of a channel needs, one set per sample.
    pub fn channel_angles(
        &self,
        params: &WahWahParams,
        drive: &Drive,
        buffer: &AudioBuffer,
        ch: usize,
    ) -> (r: Vec<FilterAngles>)
        requires
            self.wf(),
            buffer.wf(),
            ch < 2,
            ch < buffer.input@.len(),
            params.covers(buffer.samples as int),
            drive.covers(buffer.samples as int),
        ensures
            r@ == Seq::new(
                buffer.samples as nat,
                |i: int|
                    filter_angles(
                        centre_at(
                            *params,
                            *drive,
                            self.envelopes@[ch as int],
                            buffer.incoming(ch as int),
                            i,
                        ).widen(),
                        params.q@[i].widen(),
                        self.sample_rate,
                    ),
            ),
    {
        let n = buffer.num_samples();
        let input = &buffer.input[ch];
        let start = self.envelopes[ch];
        let mut env = start;
        let mut r: Vec<FilterAngles> = Vec::new();
        let mut i: usize = 0;
        while i < n
            invariant
                i <= n,
                n == input@.len(),
                params.covers(n as int),
                drive.covers(n as int),
                env == envelope_after(*params, *drive, start, input@, i as nat),
                r@ == Seq::new(
                    i as nat,
                    |k: int|
                        filter_angles(
                            centre_at(*params, *drive, start, input@, k).widen(),
                            params.q@[k].widen(),
                            self.sample_rate,
                        ),
                ),
            decreases n - i,
        {
            env = follow(params, drive, env, input[i], i);
            assert(env == envelope_after(*params, *drive, start, input@, (i + 1) as nat));
            let centre = match params.mode {
                Mode::Automatic => swept(env, unipolar(drive.sines[i]), params.lfo_env_mix[i]),
                Mode::Manual => params.frequency[i],
            };
            r.push(filter_angles(centre.widen(), params.q[i].widen(), self.sample_rate));
            i = i + 1;
        }
        r
    }

    /// Works on one block. `trig` holds for each channel, up to two, the cosines and tangents of
    /// `channel_angles` and the linear gains.
    pub fn process(
        &mut self,
        params: &WahWahParams,
        drive: &Drive,
        trig: &Vec<Vec<FilterTrig>>,
        buffer: &mut AudioBuffer,
    )
        requires
            old(self).wf(),
            old(buffer).wf(),
            params.covers(old(buffer).samples as int),
            drive.covers(old(buffer).samples as int),
            trig@.len() >= lesser(old(buffer).input@.len() as usize, 2),
            forall|ch: int|
                0 <= ch < trig@.len() ==> (#[trigger] trig@[ch])@.len() >= old(buffer).samples,
        ensures
            final(self).wf(),
            final(self).sample_rate == old(self).sample_rate,
            final(self).inv_sr == old(self).inv_sr,
            final(self).lfo_phase == old(self).phase_at(*params, old(buffer).samples as nat),
            final(buffer).rewritten(
                *old(buffer),
                lesser(old(buffer).input@.len() as usize, 2) as int,
            ),
            forall|ch: int|
                0 <= ch < 2 ==> #[trigger] final(self).filters@[ch] == (if ch
                    < old(buffer).input@.len() {
                    filter_after(
                        params.filter_type,
                        trig@[ch]@,
                        old(self).filters@[ch],
                        old(buffer).incoming(ch),
                        old(buffer).samples as nat,
                    )
                } else {
                    old(self).filters@[ch]
                }),
            forall|ch: int|
                0 <= ch < 2 ==> #[trigger] final(self).envelopes@[ch] == (if ch
                    < old(buffer).input@.len() {
                    envelope_after(
                        *params,
                        *drive,
                        old(self).envelopes@[ch],
                        old(buffer).incoming(ch),
                        old(buffer).samples as nat,
                    )
                } else {
                    old(self).envelopes@[ch]
                }),
            forall|ch: int|
                0 <= ch < 2 && ch < old(buffer).input@.len() ==> (
                #[trigger] final(buffer).output@[ch])@ == rendered(
                    *params,
                    trig@[ch]@,
                    old(self).filters@[ch],
                    old(buffer).incoming(ch),
                    old(buffer).samples as nat,
                ),
    {
        let ghost start = *self;
        let ghost before = *buffer;
        let n = buffer.num_samples();
        if let Mode::Automatic = params.mode {
            let mut i: usize = 0;
            while i < n
                invariant
                    i <= n,
                    params.covers(n as int),
                    params.mode is Automatic,
                    *self == (WahWah { lfo_phase: self.lfo_phase, ..start }),
                    self.lfo_phase == start.phase_at(*params, i as nat),
                decreases n - i,
            {
                self.lfo_phase = turned(self.lfo_phase, params.lfo_rate[i] * self.inv_sr);
                i = i + 1;
            }
        }
        let ghost timed = *self;
        let active = lesser(buffer.channels(), 2);
        let mut ch: usize = 0;
        while ch < active
            invariant
                ch <= active,
                active == lesser(before.input@.len() as usize, 2),
                before.input@.len() <= usize::MAX,
                before.wf(),
                start.wf(),
                self.wf(),
                *self == (WahWah { filters: self.filters, envelopes: self.envelopes, ..timed }),
                params.covers(before.samples as int),
                drive.covers(before.samples as int),
                trig@.len() >= active,
                forall|c: int|
                    0 <= c < trig@.len() ==> (#[trigger] trig@[c])@.len() >= before.samples,
                buffer.rewritten(before, active as int),
                forall|c: int|
                    0 <= c < 2 ==> #[trigger] self.filters@[c] == (if c < ch {
                        filter_after(
                            params.filter_type,
                            trig@[c]@,
                            start.filters@[c],
                            before.incoming(c),
                            before.samples as nat,
                        )
                    } else {
                        start.filters@[c]
                    }),
                forall|c: int|
                    0 <= c < 2 ==> #[trigger] self.envelopes@[c] == (if c < ch {
                        envelope_after(
                            *params,
                            *drive,
                            start.envelopes@[c],
                            before.incoming(c),
                            before.samples as nat,
                        )
                    } else {
                        start.envelopes@[c]
                    }),
                forall|c: int|
                    0 <= c < ch ==> (#[trigger] buffer.output@[c])@ == rendered(
                        *params,
                        trig@[c]@,
                        start.filters@[c],
                        before.incoming(c),
                        before.samples as nat,
                    ),
            decreases active - ch,
        {
            let mut filter = self.filters[ch];
            let mut env = self.envelopes[ch];
            render(
                params,
                drive,
                &trig[ch],
                &mut filter,
                &mut env,
                &buffer.input[ch],
                &mut buffer.output[ch],
            );
            self.filters[ch] = filter;
            self.envelopes[ch] = env;
            ch = ch + 1;
        }
    }
}

/// In automatic mode the centre frequency stays between the lowest and the highest.
pub proof fn law_sweep_in_range(env: Single, lfo_norm: Single, lfo_env_mix: Single)
    requires
        !env.is_nan(),
        within(lfo_norm, num(0), num(ONE)),
        within(lfo_env_mix, num(0), num(ONE)),
    ensures
        within(swept(env, lfo_norm, lfo_env_mix), num(MIN_HZ), num(MAX_HZ)),
{
    lemma_constants();
    lemma_finite_number(num(0));
    lemma_finite_number(num(ONE));
    let held = env.clamp(num(0), num(ONE));
    assert(within(held, num(0), num(ONE))) by {
        lemma_within(num(0), num(0), num(ONE));
        lemma_within(num(ONE), num(0), num(ONE));
    }
    law_mix_unipolar(lfo_norm, held, lfo_env_mix);
    let mixed = linear(lfo_norm, held, lfo_env_mix);
    lemma_within(mixed, num(0), num(ONE));
    lemma2_to64();
    lemma_constant(MIN_HZ, 0x1_0000, 0xc8_0000);
    lemma_constant(SPAN_HZ, 0x2000, 0x89_8000);
    lemma_constant(MAX_HZ, 0x2000, 0xa2_8000);
    let (v, s, u) = (mixed.value(), num(SPAN_HZ).value(), unit());
    assert(0 * u <= v * s <= s * u) by (nonlinear_arith)
        requires
            0 <= v <= u,
            s > 0,
    ;
    lemma_mul(mixed, num(SPAN_HZ), num(0), num(SPAN_HZ));
    lemma_add(num(MIN_HZ), mixed * num(SPAN_HZ), num(MIN_HZ), num(MAX_HZ));
    lemma_within(swept(env, lfo_norm, lfo_env_mix), num(MIN_HZ), num(MAX_HZ));
}

/// The envelope held to between 0 and 1.
proof fn lemma_held(env: Single) -> (held: Single)
    requires
        !env.is_nan(),
    ensures
        held == env.clamp(num(0), num(ONE)),
        held.is_finite(),
        0 <= held.value() <= unit(),
{
    lemma_constants();
    lemma_finite_number(num(0));
    lemma_finite_number(num(ONE));
    let held = env.clamp(num(0), num(ONE));
    lemma_within(num(0), num(0), num(ONE));
    lemma_within(num(ONE), num(0), num(ONE));
    assert(within(held, num(0), num(ONE)));
    lemma_within(held, num(0), num(ONE));
    held
}

/// A mix of 0 is the oscillator alone: the centre frequency is that of the oscillator, whatever
/// the envelope.
pub proof fn law_mix_zero_is_oscillator(env: Single, lfo_norm: Single, lfo_env_mix: Single)
    requires
        !env.is_nan(),
        within(lfo_norm, num(0), num(ONE)),
        lfo_env_mix.is_finite(),
        lfo_env_mix.value() == 0,
    ensures
        linear(lfo_norm, env.clamp(num(0), num(ONE)), lfo_env_mix).value() == lfo_norm.value(),
        swept(env, lfo_norm, lfo_env_mix) == num(MIN_HZ) + lfo_norm * num(SPAN_HZ),
{
    lemma_constants();
    let held = lemma_held(env);
    lemma_within(lfo_norm, num(0), num(ONE));
    lemma_negated(num(ONE));
    lemma_sub(held, lfo_norm, num(ONE).negated(), num(ONE));
    law_linear_starts_at_first(lfo_norm, held, lfo_env_mix);
    let mixed = linear(lfo_norm, held, lfo_env_mix);
    if mixed.value() != 0 {
        lemma_same(mixed, lfo_norm);
    }
    assert(alike(mixed, lfo_norm));
    lemma_alike_mul(mixed, num(SPAN_HZ), lfo_norm, num(SPAN_HZ));
    lemma_alike_add(
        num(MIN_HZ),
        mixed * num(SPAN_HZ),
        num(MIN_HZ),
        lfo_norm * num(SPAN_HZ),
    );
    lemma2_to64();
    lemma_constant(MIN_HZ, 0x1_0000, 0xc8_0000);
    lemma_constant(SPAN_HZ, 0x2000, 0x89_8000);
    lemma_constant(MAX_HZ, 0x2000, 0xa2_8000);
    let (v, s, u) = (lfo_norm.value(), num(SPAN_HZ).value(), unit());
    assert(0 * u <= v * s <= s * u) by (nonlinear_arith)
        requires
            0 <= v <= u,
            s > 0,
    ;
    lemma_mul(lfo_norm, num(SPAN_HZ), num(0), num(SPAN_HZ));
    lemma_add(num(MIN_HZ), lfo_norm * num(SPAN_HZ), num(MIN_HZ), num(MAX_HZ));
}

/// A mix of 1 is the envelope alone, up to the rounding of a difference and of a sum: no more than
/// three parts in 2^24.
pub proof fn law_mix_one_is_envelope(env: Single, lfo_norm: Single)
    requires
        !env.is_nan(),
        within(lfo_norm, num(0), num(ONE)),
    ensures
        ({
            let held = env.clamp(num(0), num(ONE));
            let mixed = linear(lfo_norm, held, num(ONE));
            &&& mixed.is_finite()
            &&& 0x100_0000 * (mixed.value() - held.value()) <= 3 * unit()
            &&& 0x100_0000 * (held.value() - mixed.value()) <= 3 * unit()
        }),
{
    lemma_constants();
    let held = lemma_held(env);
    lemma_within(lfo_norm, num(0), num(ONE));
    let u = unit();
    let (low, high) = lemma_around(held.value() - lfo_norm.value());
    lemma_sub(held, lfo_norm, low, high);
    let t = held - lfo_norm;
    let v = t.value();
    assert(v * u == u * v) by (nonlinear_arith);
    lemma_mul(num(ONE), t, t, t);
    let e = lfo_norm.value() + v;
    if e <= u {
        let (below, above) = lemma_around(e);
        lemma_add(lfo_norm, num(ONE) * t, below, above);
    } else {
        let above = num(0x3f80_0001);
        lemma2_to64();
        lemma_constant(above.bits, 0x80_0000, 0x80_0001);
        lemma_add(lfo_norm, num(ONE) * t, num(ONE), above);
    }
}

/// At a mix of 0 attack and release have no effect: with the same oscillator the centre frequency
/// is the same at every sample, and with it what goes out.
pub proof fn law_attack_and_release_without_effect(
    params: WahWahParams,
    other: WahWahParams,
    drive: Drive,
    other_drive: Drive,
    env: Single,
    other_env: Single,
    trig: Seq<FilterTrig>,
    filter: Biquad,
    input: Seq<Single>,
    n: nat,
)
    requires
        params.mode is Automatic,
        other.mode is Automatic,
        params.filter_type == other.filter_type,
        params.mix@ == other.mix@,
        drive.sines@ == other_drive.sines@,
        forall|i: int|
            0 <= i < n ==> #[trigger] params.lfo_env_mix@[i] == num(0) && other.lfo_env_mix@[i]
                == num(0),
        forall|i: int|
            0 <= i < n ==> within(#[trigger] drive.sines@[i], num(MINUS_ONE), num(ONE)),
        forall|i: nat|
            i <= n ==> !(#[trigger] envelope_after(params, drive, env, input, i)).is_nan(),
        forall|i: nat|
            i <= n ==> !(#[trigger] envelope_after(
                other,
                other_drive,
                other_env,
                input,
                i,
            )).is_nan(),
    ensures
        forall|i: int|
            0 <= i < n ==> #[trigger] centre_at(params, drive, env, input, i) == centre_at(
                other,
                other_drive,
                other_env,
                input,
                i,
            ),
        rendered(params, trig, filter, input, n) == rendered(other, trig, filter, input, n),
{
    lemma_constants();
    assert forall|i: int| 0 <= i < n implies #[trigger] centre_at(params, drive, env, input, i)
        == centre_at(other, other_drive, other_env, input, i) by {
        assert(params.lfo_env_mix@[i] == num(0));
        assert(within(drive.sines@[i], num(MINUS_ONE), num(ONE)));
        let norm = unipolar(drive.sines@[i]);
        law_sine_unipolar(drive.sines@[i]);
        law_mix_zero_is_oscillator(
            envelope_after(params, drive, env, input, (i + 1) as nat),
            norm,
            num(0),
        );
        law_mix_zero_is_oscillator(
            envelope_after(other, other_drive, other_env, input, (i + 1) as nat),
            norm,
            num(0),
        );
    }
    assert(rendered(params, trig, filter, input, n) =~= rendered(other, trig, filter, input, n));
}

/// On input between minus one and one the envelope stays between 0 and 1, whatever the
/// coefficients between 0 and 1.
pub proof fn law_envelope_unipolar(env: Single, x: Single, attack_co: Single, release_co: Single)
    requires
        within(env, num(0), num(ONE)),
        within(x, num(MINUS_ONE), num(ONE)),
        within(attack_co, num(0), num(ONE)),
        within(release_co, num(0), num(ONE)),
    ensures
        within(followed(env, x, attack_co, release_co), num(0), num(ONE)),
{
    lemma_constants();
    lemma_within(env, num(0), num(ONE));
    lemma_within(x, num(MINUS_ONE), num(ONE));
    lemma_within(attack_co, num(0), num(ONE));
    lemma_within(release_co, num(0), num(ONE));
    lemma_abs(x);
    let co = if x.abs().gt(env) { attack_co } else { release_co };
    lemma2_to64();
    law_eased_bounded(env, x.abs(), co, 0);
    lemma_within(followed(env, x, attack_co, release_co), num(0), num(ONE));
}

/// Over a whole block the envelope is a number, and no greater than a power of two that neither it
/// nor the input was above at first, whatever the coefficients between 0 and 1.
pub proof fn law_envelope_bounded(
    params: WahWahParams,
    drive: Drive,
    env: Single,
    input: Seq<Single>,
    k: nat,
    n: nat,
)
    requires
        k <= 126,
        env.is_finite(),
        0 <= env.value() <= pow2(k) * unit(),
        forall|i: int|
            0 <= i < n ==> (#[trigger] input[i]).is_finite() && size(input[i].value()) <= pow2(k)
                * unit(),
        forall|i: int|
            0 <= i < n ==> within(
                attack_release_coeff(params.env_attack@[i], (#[trigger] drive.powers@[i]).0),
                num(0),
                num(ONE),
            ) && within(
                attack_release_coeff(params.env_release@[i], drive.powers@[i].1),
                num(0),
                num(ONE),
            ),
    ensures
        forall|i: nat|
            i <= n ==> (#[trigger] envelope_after(params, drive, env, input, i)).is_finite() && 0
                <= envelope_after(params, drive, env, input, i).value() <= pow2(k) * unit(),
        forall|i: nat|
            i <= n ==> !(#[trigger] envelope_after(params, drive, env, input, i)).is_nan(),
    decreases n,
{
    if n > 0 {
        let j = (n - 1) as nat;
        law_envelope_bounded(params, drive, env, input, k, j);
        let last = envelope_after(params, drive, env, input, j);
        let x = input[j as int];
        assert(last.is_finite());
        assert(x.is_finite());
        lemma_abs(x);
        let powers = drive.powers@[j as int];
        let co = if x.abs().gt(last) {
            attack_release_coeff(params.env_attack@[j as int], powers.0)
        } else {
            attack_release_coeff(params.env_release@[j as int], powers.1)
        };
        law_eased_bounded(last, x.abs(), co, k);
    }
    assert forall|i: nat| i <= n implies !(#[trigger] envelope_after(
        params,
        drive,
        env,
        input,
        i,
    )).is_nan() by {
        assert(envelope_after(params, drive, env, input, i).is_finite());
        lemma_finite_number(envelope_after(params, drive, env, input, i));
    }
}

/// How far the centre frequency is, at a mix of 1, from that of the envelope alone.
proof fn lemma_envelope_centre(env: Single, lfo_norm: Single) -> (held: Single)
    requires
        !env.is_nan(),
        within(lfo_norm, num(0), num(ONE)),
    ensures
        held == env.clamp(num(0), num(ONE)),
        0 <= held.value() <= unit(),
        swept(env, lfo_norm, num(ONE)).is_finite(),
        2000 * size(
            swept(env, lfo_norm, num(ONE)).value() - (200 * unit() + 1100 * held.value()),
        ) <= unit(),
{
    lemma_constants();
    let held = lemma_held(env);
    law_mix_one_is_envelope(env, lfo_norm);
    lemma2_to64();
    lemma_constant(MIN_HZ, 0x1_0000, 0xc8_0000);
    lemma_constant(SPAN_HZ, 0x2000, 0x89_8000);
    let (m, u, v) = (linear(lfo_norm, held, num(ONE)), unit(), held.value());
    let s = num(SPAN_HZ).value();
    let x = m.value();
    assert(s == 1100 * u && num(MIN_HZ).value() == 200 * u);
    let top = lemma_whole(2000);
    assert(x * s == 1100 * (x * u)) by (nonlinear_arith)
        requires
            s == 1100 * u,
    ;
    assert(-u <= x && 2 * x <= 3 * u);
    assert(-((2000 * u) * u) <= x * s <= (2000 * u) * u) by (nonlinear_arith)
        requires
            s == 1100 * u,
            -u <= x,
            2 * x <= 3 * u,
            u > 0,
    ;
    lemma_mul_error(m, num(SPAN_HZ), top);
    let y = (m * num(SPAN_HZ)).value();
    assert(0x80_0000 * size(y - 1100 * x) <= 1100 * size(x) + 0x80_0002) by (nonlinear_arith)
        requires
            0x80_0000 * size(y * u - 1100 * (x * u)) <= size(1100 * (x * u)) + 0x80_0002 * u,
            u > 0,
    ;
    lemma_add_error(num(MIN_HZ), m * num(SPAN_HZ), top);
    held
}

/// At a mix of 1 the rate of the oscillator has no effect but for rounding: whatever its sines,
/// the centre frequency is the same within a thousandth of a hertz at every sample.
pub proof fn law_rate_without_effect(
    params: WahWahParams,
    other: WahWahParams,
    drive: Drive,
    other_drive: Drive,
    env: Single,
    input: Seq<Single>,
    i: int,
)
    requires
        i >= 0,
        params.mode is Automatic,
        other.mode is Automatic,
        params.lfo_env_mix@[i] == num(ONE),
        other.lfo_env_mix@[i] == num(ONE),
        envelope_after(params, drive, env, input, (i + 1) as nat) == envelope_after(
            other,
            other_drive,
            env,
            input,
            (i + 1) as nat,
        ),
        !envelope_after(params, drive, env, input, (i + 1) as nat).is_nan(),
        within(drive.sines@[i], num(MINUS_ONE), num(ONE)),
        within(other_drive.sines@[i], num(MINUS_ONE), num(ONE)),
    ensures
        1000 * size(
            centre_at(params, drive, env, input, i).value() - centre_at(
                other,
                other_drive,
                env,
                input,
                i,
            ).value(),
        ) <= unit(),
{
    let e = envelope_after(params, drive, env, input, (i + 1) as nat);
    law_sine_unipolar(drive.sines@[i]);
    law_sine_unipolar(other_drive.sines@[i]);
    lemma_envelope_centre(e, unipolar(drive.sines@[i]));
    lemma_envelope_centre(e, unipolar(other_drive.sines@[i]));
}

/// The filter of a channel as sample `i` finds it.
pub open spec fn tuned(
    ty: FilterType,
    trig: Seq<FilterTrig>,
    filter: Biquad,
    input: Seq<Single>,
    i: nat,
) -> Biquad {
    filter_after(ty, trig, filter, input, i).shaped(shape(ty, trig[i as int]))
}

/// How far what the filter makes of the last one of `i` samples can be, in parts of 2^52, from what
/// a filter makes of it whose coefficients are nearly the same: at every sample `more` comes new,
/// and the feedback of the filter carries on what was there.
pub open spec fn drift(
    ty: FilterType,
    trig: Seq<FilterTrig>,
    filter: Biquad,
    input: Seq<Single>,
    more: int,
    i: nat,
) -> int
    decreases i,
{
    if i == 0 {
        0
    } else {
        carried(
            tuned(ty, trig, filter, input, (i - 1) as nat),
            drift(ty, trig, filter, input, more, (i - 1) as nat),
            if i >= 2 { drift(ty, trig, filter, input, more, (i - 2) as nat) } else { 0 },
            more,
        )
    }
}

/// Whether sample `i` finds two filters whose coefficients are no further apart than `e` parts in
/// 2^52 and no greater than `c`, and that, like the sample, hold nothing louder than `m`.
pub open spec fn found_near(
    ty: FilterType,
    trig: Seq<FilterTrig>,
    other: Seq<FilterTrig>,
    filter: Biquad,
    input: Seq<Single>,
    c: int,
    m: int,
    e: int,
    i: nat,
) -> bool {
    let (f, g) = (tuned(ty, trig, filter, input, i), tuned(ty, other, filter, input, i));
    &&& f.tame(c) && g.tame(c)
    &&& f.bounded(m) && g.bounded(m)
    &&& nearly_tuned(f, g, e)
    &&& input[i as int].is_finite() && size(input[i as int].value()) * finer() <= m
}

/// What two filters with nearly the same coefficients have made of the last two samples.
proof fn lemma_filters_apart(
    ty: FilterType,
    trig: Seq<FilterTrig>,
    other: Seq<FilterTrig>,
    filter: Biquad,
    input: Seq<Single>,
    c: int,
    m: int,
    e: int,
    i: nat,
)
    requires
        audible(m),
        e >= 0,
        0 <= c <= 0x1000,
        forall|k: nat|
            k < i ==> #[trigger] found_near(ty, trig, other, filter, input, c, m, e, k),
    ensures
        ({
            let f = filter_after(ty, trig, filter, input, i);
            let g = filter_after(ty, other, filter, input, i);
            let more = fresh(c, e) * m;
            &&& f.x1 == g.x1 && f.x2 == g.x2
            &&& 0x10_0000_0000_0000 * size(f.y1.value() - g.y1.value()) <= drift(
                ty,
                trig,
                filter,
                input,
                more,
                i,
            )
            &&& 0x10_0000_0000_0000 * size(f.y2.value() - g.y2.value()) <= (if i >= 1 {
                drift(ty, trig, filter, input, more, (i - 1) as nat)
            } else {
                0
            })
        }),
    decreases i,
{
    if i > 0 {
        let k = (i - 1) as nat;
        lemma_filters_apart(ty, trig, other, filter, input, c, m, e, k);
        assert(found_near(ty, trig, other, filter, input, c, m, e, k));
        lemma_response_apart(ty, trig, other, filter, input, c, m, e, k);
    }
}

/// What two filters with nearly the same coefficients make of sample `i`.
proof fn lemma_response_apart(
    ty: FilterType,
    trig: Seq<FilterTrig>,
    other: Seq<FilterTrig>,
    filter: Biquad,
    input: Seq<Single>,
    c: int,
    m: int,
    e: int,
    i: nat,
)
    requires
        audible(m),
        e >= 0,
        0 <= c <= 0x1000,
        found_near(ty, trig, other, filter, input, c, m, e, i),
        ({
            let f = filter_after(ty, trig, filter, input, i);
            let g = filter_after(ty, other, filter, input, i);
            let more = fresh(c, e) * m;
            &&& f.x1 == g.x1 && f.x2 == g.x2
            &&& 0x10_0000_0000_0000 * size(f.y1.value() - g.y1.value()) <= drift(
                ty,
                trig,
                filter,
                input,
                more,
                i,
            )
            &&& 0x10_0000_0000_0000 * size(f.y2.value() - g.y2.value()) <= (if i >= 1 {
                drift(ty, trig, filter, input, more, (i - 1) as nat)
            } else {
                0
            })
        }),
    ensures
        ({
            let x = input[i as int].widen();
            let y = tuned(ty, trig, filter, input, i).response(x);
            let z = tuned(ty, other, filter, input, i).response(x);
            &&& y.is_finite() && z.is_finite()
            &&& 0x10_0000_0000_0000 * size(y.value() - z.value()) <= drift(
                ty,
                trig,
                filter,
                input,
                fresh(c, e) * m,
                i + 1,
            )
        }),
{
    let (f, g) = (tuned(ty, trig, filter, input, i), tuned(ty, other, filter, input, i));
    let x = input[i as int].widen();
    lemma_widened(input[i as int]);
    lemma_pow2_pos(925);
    let v = input[i as int].value();
    assert(size(v * finer()) == size(v) * finer()) by (nonlinear_arith)
        requires
            finer() > 0,
    ;
    law_near_filters_step(f, g, x, c, m, e);
    let more = fresh(c, e) * m;
    let u = wide_unit();
    assert(fresh(c, e) * (m * u) == more * u) by (nonlinear_arith)
        requires
            more == fresh(c, e) * m,
    ;
    let b1 = drift(ty, trig, filter, input, more, i);
    let b2 = if i >= 1 { drift(ty, trig, filter, input, more, (i - 1) as nat) } else { 0 };
    lemma_carried(
        f,
        f.response(x).value() - g.response(x).value(),
        f.y1.value() - g.y1.value(),
        f.y2.value() - g.y2.value(),
        b1,
        b2,
        more,
    );
}

/// At a mix of 1, where the centre frequencies are nearly the same whatever the rate of the
/// oscillator, what goes out is nearly the same too: with the cosines and tangents that are taken
/// there, as long as they lead to coefficients of no more than `c` that are no further apart than
/// `e` parts in 2^52, it is off by no more than the `drift` of the filter and 2^-17 of the loudest
/// sample, `s`.
pub proof fn law_rate_hardly_heard(
    params: WahWahParams,
    other: WahWahParams,
    trig: Seq<FilterTrig>,
    other_trig: Seq<FilterTrig>,
    filter: Biquad,
    input: Seq<Single>,
    c: int,
    s: int,
    e: int,
    top: Single,
    i: nat,
)
    requires
        params.filter_type == other.filter_type,
        params.mix@[i as int] == other.mix@[i as int],
        within(params.mix@[i as int], num(0), num(ONE)),
        e >= 0,
        0 <= c <= 0x1000,
        s >= 0x100_0000,
        audible(s * finer()),
        top.is_finite(),
        16 * s <= top.value(),
        forall|k: nat|
            k <= i ==> #[trigger] found_near(
                params.filter_type,
                trig,
                other_trig,
                filter,
                input,
                c,
                s * finer(),
                e,
                k,
            ),
        ({
            let x = input[i as int].widen();
            let ty = params.filter_type;
            &&& size(tuned(ty, trig, filter, input, i).response(x).value()) <= s * finer()
            &&& size(tuned(ty, other_trig, filter, input, i).response(x).value()) <= s * finer()
        }),
    ensures
        ({
            let out = rendered(params, trig, filter, input, i + 1)[i as int];
            let other_out = rendered(other, other_trig, filter, input, i + 1)[i as int];
            let more = fresh(c, e) * (s * finer());
            0x10_0000_0000_0000 * (size(out.value() - other_out.value()) * finer()) <= drift(
                params.filter_type,
                trig,
                filter,
                input,
                more,
                i + 1,
            ) + 0x8_0000_0000 * (s * finer())
        }),
{
    lemma_constants();
    let ty = params.filter_type;
    let (j, f) = (i as int, finer());
    let m = s * f;
    let x = input[j].widen();
    lemma_filters_apart(ty, trig, other_trig, filter, input, c, m, e, i);
    assert(found_near(ty, trig, other_trig, filter, input, c, m, e, i));
    lemma_response_apart(ty, trig, other_trig, filter, input, c, m, e, i);
    let y = tuned(ty, trig, filter, input, i).response(x);
    let z = tuned(ty, other_trig, filter, input, i).response(x);
    lemma_pow2_pos(925);
    lemma_brought_back(y, s, top);
    lemma_brought_back(z, s, top);
    let (a, b) = (y.narrow(), z.narrow());
    assert(size(input[j].value()) <= s) by (nonlinear_arith)
        requires
            size(input[j].value()) * f <= s * f,
            f > 0,
    ;
    lemma_within(params.mix@[j], num(0), num(ONE));
    let near = 0x80_0000 * size(a.value() - b.value());
    lemma_way_near(input[j], a, input[j], b, params.mix@[j], near, 2 * s, top);
    let (r, q) = (linear(input[j], a, params.mix@[j]), linear(input[j], b, params.mix@[j]));
    let (d, w) = (size(r.value() - q.value()), size(a.value() - b.value()));
    // The 32-bit numbers, counted in the least 64-bit ones.
    let (av, bv) = (a.value(), b.value());
    let (af, bf, wf) = (av * f, bv * f, w * f);
    assert(wf == size(af - bf)) by (nonlinear_arith)
        requires
            af == av * f,
            bf == bv * f,
            wf == w * f,
            w == size(av - bv),
            f > 0,
    ;
    assert(0x10_0000_0000_0000 * wf <= 0x10_0000_0000_0000 * size(y.value() - z.value())
        + 0x8000_0000 * m);
    let df = d * f;
    assert(0x80_0000 * df <= 0x80_0000 * wf + 48 * m) by (nonlinear_arith)
        requires
            0x80_0000 * d <= 0x80_0000 * w + 48 * s,
            df == d * f,
            wf == w * f,
            m == s * f,
            f > 0,
    ;
}

/// A result taken back into the 32-bit format.
proof fn lemma_brought_back(y: Double, s: int, top: Single)
    requires
        y.is_finite(),
        s >= 0x100_0000,
        size(y.value()) <= s * finer(),
        top.is_finite(),
        16 * s <= top.value(),
    ensures
        y.narrow().is_finite(),
        size(y.narrow().value()) <= 2 * s,
        0x80_0000 * size(y.narrow().value() * finer() - y.value()) <= 2 * (s * finer()),
{
    let (f, t) = (finer(), top.value());
    lemma_pow2_pos(925);
    let m = s * f;
    assert(m <= t * f && 0x80_0001 * f <= m) by (nonlinear_arith)
        requires
            m == s * f,
            0x100_0000 <= s,
            16 * s <= t,
            f > 0,
    ;
    lemma_narrowed(y, top);
    let v = y.narrow().value();
    assert(size(v) <= 2 * s) by (nonlinear_arith)
        requires
            size(v * f) <= 2 * (s * f),
            f > 0,
    ;
}

/// The envelope does not depend on the oscillator.
pub proof fn law_envelope_without_oscillator(
    params: WahWahParams,
    other: WahWahParams,
    drive: Drive,
    other_drive: Drive,
    env: Single,
    input: Seq<Single>,
    i: nat,
)
    requires
        params.env_attack@ == other.env_attack@,
        params.env_release@ == other.env_release@,
        drive.powers@ == other_drive.powers@,
    ensures
        envelope_after(params, drive, env, input, i) == envelope_after(
            other,
            other_drive,
            env,
            input,
            i,
        ),
    decreases i,
{
    if i > 0 {
        law_envelope_without_oscillator(
            params,
            other,
            drive,
            other_drive,
            env,
            input,
            (i - 1) as nat,
        );
    }
}

/// An oscillator that rests at the start of its turn stays there.
pub proof fn law_resting_phase(phase: Single, rate: Seq<Single>, inv_sr: Single, i: nat)
    requires
        phase.is_finite(),
        phase.value() == 0,
        inv_sr.is_finite(),
        forall|k: int| 0 <= k < i ==> #[trigger] rate[k] == num(0),
    ensures
        phase_after_scaled(phase, rate, inv_sr, i).is_finite(),
        phase_after_scaled(phase, rate, inv_sr, i).value() == 0,
        angle(phase_after_scaled(phase, rate, inv_sr, i)).value() == 0,
    decreases i,
{
    lemma_constants();
    lemma2_to64();
    lemma_constant(TAU, 0x20_0000, 0xc9_0fdb);
    if i > 0 {
        let k = (i - 1) as nat;
        law_resting_phase(phase, rate, inv_sr, k);
        let before = phase_after_scaled(phase, rate, inv_sr, k);
        let v = inv_sr.value();
        assert(rate[k as int] == num(0));
        assert(0 * v == 0 && 0 * unit() == 0) by (nonlinear_arith);
        lemma_mul(num(0), inv_sr, num(0), num(0));
        lemma_plus_zero(before, num(0) * inv_sr);
        lemma_compare(num(ONE), before + num(0) * inv_sr);
    }
    let here = phase_after_scaled(phase, rate, inv_sr, i);
    let v = num(TAU).value();
    assert(v * 0 == 0 && 0 * unit() == 0) by (nonlinear_arith);
    lemma_mul(num(TAU), here, num(0), num(0));
}

/// A resting oscillator gives, at a mix of 0, the middle of the sweep, 750 Hz: the centre frequency
/// of manual mode there, and so what goes out in it.
pub proof fn law_resting_oscillator_is_manual(
    params: WahWahParams,
    manual: WahWahParams,
    drive: Drive,
    manual_drive: Drive,
    env: Single,
    manual_env: Single,
    trig: Seq<FilterTrig>,
    filter: Biquad,
    input: Seq<Single>,
    n: nat,
)
    requires
        params.mode is Automatic,
        manual.mode is Manual,
        params.filter_type == manual.filter_type,
        params.mix@ == manual.mix@,
        forall|i: int| 0 <= i < n ==> #[trigger] params.lfo_env_mix@[i] == num(0),
        forall|i: int| 0 <= i < n ==> #[trigger] manual.frequency@[i] == num(MIDDLE_HZ),
        forall|i: int| 0 <= i < n ==> #[trigger] drive.sines@[i] == num(0),
        forall|i: nat|
            i <= n ==> !(#[trigger] envelope_after(params, drive, env, input, i)).is_nan(),
    ensures
        forall|i: int|
            0 <= i < n ==> #[trigger] centre_at(params, drive, env, input, i) == centre_at(
                manual,
                manual_drive,
                manual_env,
                input,
                i,
            ),
        rendered(params, trig, filter, input, n) == rendered(manual, trig, filter, input, n),
{
    lemma_constants();
    assert forall|i: int| 0 <= i < n implies #[trigger] centre_at(params, drive, env, input, i)
        == centre_at(manual, manual_drive, manual_env, input, i) by {
        assert(params.lfo_env_mix@[i] == num(0));
        assert(manual.frequency@[i] == num(MIDDLE_HZ));
        assert(drive.sines@[i] == num(0));
        lemma_middle(envelope_after(params, drive, env, input, (i + 1) as nat));
    }
    assert(rendered(params, trig, filter, input, n) =~= rendered(manual, trig, filter, input, n));
}

/// The middle of the sweep.
proof fn lemma_middle(env: Single)
    requires
        !env.is_nan(),
    ensures
        swept(env, unipolar(num(0)), num(0)) == num(MIDDLE_HZ),
{
    lemma_constants();
    let (h, u) = (num(HALF).value(), unit());
    assert(h * 0 == 0 && 0 * u == 0) by (nonlinear_arith);
    lemma_mul(num(HALF), num(0), num(0), num(0));
    lemma_plus_zero(num(HALF), num(HALF) * num(0));
    lemma_same(unipolar(num(0)), num(HALF));
    lemma_within(num(HALF), num(0), num(ONE));
    law_mix_zero_is_oscillator(env, num(HALF), num(0));
    lemma2_to64();
    lemma_constant(MIN_HZ, 0x1_0000, 0xc8_0000);
    lemma_constant(SPAN_HZ, 0x2000, 0x89_8000);
    lemma_constant(MIDDLE_HZ, 0x4000, 0xbb_8000);
    lemma_constant(0x4409_8000, 0x4000, 0x89_8000);
    let s = num(SPAN_HZ).value();
    let half_span = num(0x4409_8000);
    assert(h * s == half_span.value() * u) by (nonlinear_arith)
        requires
            2 * h == u,
            s == 2 * half_span.value(),
    ;
    lemma_mul(num(HALF), num(SPAN_HZ), half_span, half_span);
    lemma_add(num(MIN_HZ), num(HALF) * num(SPAN_HZ), num(MIDDLE_HZ), num(MIDDLE_HZ));
    lemma_same(swept(env, num(HALF), num(0)), num(MIDDLE_HZ));
}

impl WahWahParams {
    /// Whether these are the controls that `whole` holds from sample `i` on, for `n` samples.
    pub open spec fn resumes(self, whole: WahWahParams, i: nat, n: nat) -> bool {
        &&& self.mode == whole.mode
        &&& self.filter_type == whole.filter_type
        &&& resumes(self.mix@, whole.mix@, i, n)
        &&& resumes(self.frequency@, whole.frequency@, i, n)
        &&& resumes(self.q@, whole.q@, i, n)
        &&& resumes(self.gain@, whole.gain@, i, n)
        &&& resumes(self.lfo_rate@, whole.lfo_rate@, i, n)
        &&& resumes(self.lfo_env_mix@, whole.lfo_env_mix@, i, n)
        &&& resumes(self.env_attack@, whole.env_attack@, i, n)
        &&& resumes(self.env_release@, whole.env_release@, i, n)
    }
}

impl Drive {
    /// Whether this is what `whole` holds from sample `i` on, for `n` samples.
    pub open spec fn resumes(self, whole: Drive, i: nat, n: nat) -> bool {
        resumes(self.sines@, whole.sines@, i, n) && resumes(self.powers@, whole.powers@, i, n)
    }
}

/// Two blocks lead the envelope where one block of both leads it.
pub proof fn law_envelope_joins(
    whole: WahWahParams,
    part: WahWahParams,
    drive: Drive,
    part_drive: Drive,
    env: Single,
    input: Seq<Single>,
    part_input: Seq<Single>,
    i: nat,
    j: nat,
)
    requires
        part.resumes(whole, i, j),
        part_drive.resumes(drive, i, j),
        resumes(part_input, input, i, j),
    ensures
        envelope_after(whole, drive, env, input, i + j) == envelope_after(
            part,
            part_drive,
            envelope_after(whole, drive, env, input, i),
            part_input,
            j,
        ),
    decreases j,
{
    if j > 0 {
        let k = j - 1;
        assert((i + j - 1) as nat == i + k as nat);
        law_envelope_joins(
            whole,
            part,
            drive,
            part_drive,
            env,
            input,
            part_input,
            i,
            k as nat,
        );
        assert(part_input[k] == input[i + k]);
        assert(part.env_attack@[k] == whole.env_attack@[i + k]);
        assert(part.env_release@[k] == whole.env_release@[i + k]);
        assert(part_drive.powers@[k] == drive.powers@[i + k]);
    }
}

/// The centre frequency is the same at the same sample of one block and of its second part.
pub proof fn law_centre_joins(
    whole: WahWahParams,
    part: WahWahParams,
    drive: Drive,
    part_drive: Drive,
    env: Single,
    input: Seq<Single>,
    part_input: Seq<Single>,
    i: nat,
    k: nat,
)
    requires
        part.resumes(whole, i, k + 1),
        part_drive.resumes(drive, i, k + 1),
        resumes(part_input, input, i, k + 1),
    ensures
        centre_at(whole, drive, env, input, (i + k) as int) == centre_at(
            part,
            part_drive,
            envelope_after(whole, drive, env, input, i),
            part_input,
            k as int,
        ),
{
    law_envelope_joins(whole, part, drive, part_drive, env, input, part_input, i, k + 1);
    assert((i + k + 1) as nat == i + (k + 1));
    assert(part.frequency@[k as int] == whole.frequency@[(i + k) as int]);
    assert(part.lfo_env_mix@[k as int] == whole.lfo_env_mix@[(i + k) as int]);
    assert(part_drive.sines@[k as int] == drive.sines@[(i + k) as int]);
}

/// A block leaves a filter as its two parts leave it, one after the other.
pub proof fn law_filter_joins(
    ty: FilterType,
    trig: Seq<FilterTrig>,
    part_trig: Seq<FilterTrig>,
    filter: Biquad,
    input: Seq<Single>,
    part_input: Seq<Single>,
    i: nat,
    j: nat,
)
    requires
        resumes(part_trig, trig, i, j),
        resumes(part_input, input, i, j),
    ensures
        filter_after(ty, trig, filter, input, i + j) == filter_after(
            ty,
            part_trig,
            filter_after(ty, trig, filter, input, i),
            part_input,
            j,
        ),
    decreases j,
{
    if j > 0 {
        let k = j - 1;
        assert((i + j - 1) as nat == i + k as nat);
        law_filter_joins(ty, trig, part_trig, filter, input, part_input, i, k as nat);
        assert(part_trig[k] == trig[i + k]);
        assert(part_input[k] == input[i + k]);
    }
}

/// What goes out in one block goes out in its two parts, one after the other.
pub proof fn law_output_joins(
    whole: WahWahParams,
    part: WahWahParams,
    trig: Seq<FilterTrig>,
    part_trig: Seq<FilterTrig>,
    filter: Biquad,
    input: Seq<Single>,
    part_input: Seq<Single>,
    i: nat,
    j: nat,
)
    requires
        part.resumes(whole, i, j),
        resumes(part_trig, trig, i, j),
        resumes(part_input, input, i, j),
    ensures
        rendered(whole, trig, filter, input, i + j) == rendered(whole, trig, filter, input, i)
            + rendered(
            part,
            part_trig,
            filter_after(whole.filter_type, trig, filter, input, i),
            part_input,
            j,
        ),
{
    let ty = whole.filter_type;
    let both = rendered(whole, trig, filter, input, i) + rendered(
        part,
        part_trig,
        filter_after(ty, trig, filter, input, i),
        part_input,
        j,
    );
    let all = rendered(whole, trig, filter, input, i + j);
    assert forall|m: int| 0 <= m < i + j implies #[trigger] all[m] == both[m] by {
        if m >= i {
            let k = (m - i) as nat;
            assert(m as nat == i + k);
            law_filter_joins(ty, trig, part_trig, filter, input, part_input, i, k);
            assert(part_trig[k as int] == trig[(i + k) as int]);
            assert(part_input[k as int] == input[(i + k) as int]);
            assert(part.mix@[k as int] == whole.mix@[(i + k) as int]);
        }
    }
    assert(all =~= both);
}

/// Two blocks turn the oscillator as far as one block of both. By hand it stands still.
pub proof fn law_phase_joins(
    start: WahWah,
    then: WahWah,
    whole: WahWahParams,
    part: WahWahParams,
    i: nat,
    j: nat,
)
    requires
        then.inv_sr == start.inv_sr,
        then.lfo_phase == start.phase_at(whole, i),
        part.resumes(whole, i, j),
    ensures
        start.phase_at(whole, i + j) == then.phase_at(part, j),
{
    law_scaled_phase_joins(
        start.lfo_phase,
        whole.lfo_rate@,
        part.lfo_rate@,
        start.inv_sr,
        i,
        j,
    );
}

} // verus!
