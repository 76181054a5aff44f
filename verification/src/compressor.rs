//! Dynamics: compressor and limiter, or expander and noise gate, by mode and ratio.
use crate::audio::{amplify, copy, resumes, AudioBuffer};
use crate::echoes::{lemma_spans, spans};
use crate::float::double::Double;
use crate::float::facts::{
    lemma_add, lemma_add_error, lemma_bracket, lemma_compare, lemma_constant, lemma_constants,
    lemma_div, lemma_mul, lemma_negated, lemma_plus_zero, lemma_scaled, lemma_shrunk, lemma_sub,
    lemma_sub_error, lemma_unit_positive, size, unit, within,
};
use crate::float::monotone::{lemma_add_monotone, lemma_mul_monotone};
use crate::float::single::{num, Single};
use crate::follower::{
    attack_release_coeff, eased, exponent_pairs, exponents, law_eased_between, law_eased_bounded,
};
use crate::modulation::ONE;
use vstd::arithmetic::power2::{
    lemma2_to64, lemma2_to64_rest, lemma_pow2_adds, lemma_pow2_strictly_increases,
    lemma_pow2_unfold, pow2,
};
use vstd::prelude::*;

verus! {

/// The length of a sample before the first reset, 1/44100.
pub const DEFAULT_STEP: u32 = 0x37be_37c6;

/// How much of the level the expander keeps from sample to sample, 0.9999.
pub const AVERAGE_FACTOR: u32 = 0x3f7f_f972;

/// The level that counts as silence, 0.000001.
pub const FLOOR_LEVEL: u32 = 0x3586_37bd;

/// The level of silence in decibels, -60.
pub const FLOOR_DB: u32 = 0xc270_0000;

/// 10
pub const TEN: u32 = 0x4120_0000;

/// 0.05
pub const TWENTIETH: u32 = 0x3d4c_cccd;

#[derive(Clone, Copy, PartialEq, Eq, Structural, Debug)]
pub enum Mode {
    Compressor,
    Expander,
}

/// What the controls say over one block. The lists hold one value per sample.
pub struct CompressorParams {
    pub mode: Mode,
    pub threshold: Vec<Single>,
    pub ratio: Vec<Single>,
    pub attack: Vec<Single>,
    pub release: Vec<Single>,
    pub makeup: Vec<Single>,
    pub bypass: bool,
}

impl CompressorParams {
    /// Every list reaches over `n` samples.
    pub open spec fn covers(self, n: int) -> bool {
        &&& self.threshold@.len() >= n
        &&& self.ratio@.len() >= n
        &&& self.attack@.len() >= n
        &&& self.release@.len() >= n
        &&& self.makeup@.len() >= n
    }
}

/// What the detector works from, a value per sample: the common logarithms of `levels` and the
/// powers of `INV_E` with the exponents of `coefficient_exponents`.
pub struct Detection {
    pub logs: Vec<Single>,
    pub powers: Vec<(Single, Single)>,
}

impl Detection {
    pub open spec fn covers(self, n: int) -> bool {
        self.logs@.len() >= n && self.powers@.len() >= n
    }
}

/// The effect; its state is a `CompressorDsp`.
pub struct Compressor;

#[derive(Clone, Copy, PartialEq, Eq, Structural)]
pub struct CompressorDsp {
    pub inv_sr: Single,
    pub input_level: Single,
    pub yl_prev: Single,
}

impl Default for CompressorDsp {
    fn default() -> (r: CompressorDsp)
        ensures
            r == (CompressorDsp {
                inv_sr: num(DEFAULT_STEP),
                input_level: num(0),
                yl_prev: num(0),
            }),
    {
        CompressorDsp { inv_sr: num(DEFAULT_STEP), input_level: num(0), yl_prev: num(0) }
    }
}

/// The sum of the first `count` channels at sample `i`.
pub open spec fn channel_sum(input: Seq<Vec<Single>>, i: int, count: nat) -> Single
    decreases count,
{
    if count == 0 {
        num(0)
    } else {
        channel_sum(input, i, (count - 1) as nat) + input[count - 1]@[i]
    }
}

/// The mean of all channels at sample `i`.
pub open spec fn mixdown(input: Seq<Vec<Single>>, i: int) -> Single {
    channel_sum(input, i, input.len()) * (num(ONE) / Single::from_usize(input.len() as usize))
}

pub open spec fn detected_spec(mode: Mode, level: Single, mix: Single) -> Single {
    match mode {
        Mode::Expander => num(AVERAGE_FACTOR) * level + (num(ONE) - num(AVERAGE_FACTOR)) * (mix
            * mix),
        Mode::Compressor => mix * mix,
    }
}

/// The level after a sample: the square of the mean, which the expander averages slowly.
#[verifier::when_used_as_spec(detected_spec)]
pub fn detected(mode: Mode, level: Single, mix: Single) -> (r: Single)
    ensures
        r == detected_spec(mode, level, mix),
{
    match mode {
        Mode::Expander => num(AVERAGE_FACTOR) * level + (num(ONE) - num(AVERAGE_FACTOR)) * (mix
            * mix),
        Mode::Compressor => mix * mix,
    }
}

pub open spec fn decibels_spec(level: Single, log: Single) -> Single {
    if level.le(num(FLOOR_LEVEL)) { num(FLOOR_DB) } else { num(TEN) * log }
}

/// A level in decibels, `log` being its common logarithm.
#[verifier::when_used_as_spec(decibels_spec)]
pub fn decibels(level: Single, log: Single) -> (r: Single)
    ensures
        r == decibels_spec(level, log),
{
    if level.le(num(FLOOR_LEVEL)) { num(FLOOR_DB) } else { num(TEN) * log }
}

pub open spec fn curve_spec(mode: Mode, xg: Single, t: Single, r: Single) -> Single {
    match mode {
        Mode::Expander => if xg.gt(t) { xg } else { t + (xg - t) * r },
        Mode::Compressor => if xg.lt(t) { xg } else { t + (xg - t) / r },
    }
}

/// The level that a level becomes: the compressor divides what is above the threshold by the
/// ratio, the expander multiplies what is below it.
#[verifier::when_used_as_spec(curve_spec)]
pub fn curve(mode: Mode, xg: Single, t: Single, r: Single) -> (yg: Single)
    ensures
        yg == curve_spec(mode, xg, t, r),
{
    match mode {
        Mode::Expander => if xg.gt(t) { xg } else { t + (xg - t) * r },
        Mode::Compressor => if xg.lt(t) { xg } else { t + (xg - t) / r },
    }
}

pub open spec fn smoothed_spec(
    mode: Mode,
    last: Single,
    xl: Single,
    alpha_a: Single,
    alpha_r: Single,
) -> Single {
    let attacks = match mode {
        Mode::Expander => xl.lt(last),
        Mode::Compressor => xl.gt(last),
    };
    eased(last, xl, if attacks { alpha_a } else { alpha_r })
}

/// The gain reduction after a sample. The compressor attacks when it rises and releases when it
/// falls; the expander the other way round.
#[verifier::when_used_as_spec(smoothed_spec)]
pub fn smoothed(
    mode: Mode,
    last: Single,
    xl: Single,
    alpha_a: Single,
    alpha_r: Single,
) -> (yl: Single)
    ensures
        yl == smoothed_spec(mode, last, xl, alpha_a, alpha_r),
{
    let attacks = match mode {
        Mode::Expander => xl.lt(last),
        Mode::Compressor => xl.gt(last),
    };
    eased(last, xl, if attacks { alpha_a } else { alpha_r })
}

/// The level after `i` samples.
pub open spec fn level_after(
    mode: Mode,
    level: Single,
    input: Seq<Vec<Single>>,
    i: nat,
) -> Single
    decreases i,
{
    if i == 0 {
        level
    } else {
        detected(
            mode,
            level_after(mode, level, input, (i - 1) as nat),
            mixdown(input, i - 1),
        )
    }
}

/// The gain reduction after `i` samples.
pub open spec fn reduction_after(
    state: CompressorDsp,
    params: CompressorParams,
    detection: Detection,
    input: Seq<Vec<Single>>,
    i: nat,
) -> Single
    decreases i,
{
    if i == 0 {
        state.yl_prev
    } else {
        let k = i - 1;
        let xg = decibels(
            level_after(params.mode, state.input_level, input, i),
            detection.logs@[k],
        );
        let yg = curve(params.mode, xg, params.threshold@[k], params.ratio@[k]);
        smoothed(
            params.mode,
            reduction_after(state, params, detection, input, k as nat),
            xg - yg,
            attack_release_coeff(params.attack@[k], detection.powers@[k].0),
            attack_release_coeff(params.release@[k], detection.powers@[k].1),
        )
    }
}

/// The power of ten that the gain of sample `i` is.
pub open spec fn control_exponent(
    state: CompressorDsp,
    params: CompressorParams,
    detection: Detection,
    input: Seq<Vec<Single>>,
    i: int,
) -> Single {
    (params.makeup@[i] - reduction_after(state, params, detection, input, (i + 1) as nat)) * num(
        TWENTIETH,
    )
}

/// The mean of all channels at sample `i`.
fn mix_at(buffer: &AudioBuffer, i: usize) -> (r: Single)
    requires
        buffer.wf(),
        i < buffer.samples,
    ensures
        r == mixdown(buffer.input@, i as int),
{
    let num_ch = buffer.channels();
    let mut mix = num(0);
    let mut ch: usize = 0;
    while ch < num_ch
        invariant
            ch <= num_ch,
            num_ch == buffer.input@.len(),
            buffer.wf(),
            i < buffer.samples,
            mix == channel_sum(buffer.input@, i as int, ch as nat),
        decreases num_ch - ch,
    {
        mix = mix + buffer.input[ch][i];
        ch = ch + 1;
    }
    mix * (num(ONE) / Single::from_usize(num_ch))
}

/// Takes the detector one sample on.
fn detect(
    state: &mut CompressorDsp,
    params: &CompressorParams,
    detection: &Detection,
    buffer: &AudioBuffer,
    i: usize,
)
    requires
        buffer.wf(),
        i < buffer.samples,
        params.covers(i + 1),
        detection.covers(i + 1),
    ensures
        final(state).inv_sr == old(state).inv_sr,
        final(state).input_level == detected(
            params.mode,
            old(state).input_level,
            mixdown(buffer.input@, i as int),
        ),
        final(state).yl_prev == ({
            let xg = decibels(final(state).input_level, detection.logs@[i as int]);
            let yg = curve(
                params.mode,
                xg,
                params.threshold@[i as int],
                params.ratio@[i as int],
            );
            smoothed(
                params.mode,
                old(state).yl_prev,
                xg - yg,
                attack_release_coeff(params.attack@[i as int], detection.powers@[i as int].0),
                attack_release_coeff(params.release@[i as int], detection.powers@[i as int].1),
            )
        }),
{
    state.input_level = detected(params.mode, state.input_level, mix_at(buffer, i));
    let xg = decibels(state.input_level, detection.logs[i]);
    let yg = curve(params.mode, xg, params.threshold[i], params.ratio[i]);
    state.yl_prev = smoothed(
        params.mode,
        state.yl_prev,
        xg - yg,
        attack_release_coeff(params.attack[i], detection.powers[i].0),
        attack_release_coeff(params.release[i], detection.powers[i].1),
    );
}

/// Whether a block goes through the detector at all.
pub open spec fn engaged(params: CompressorParams, buffer: AudioBuffer) -> bool {
    !params.bypass && buffer.input@.len() > 0
}

impl Compressor {
    /// Forgets the level and the gain reduction.
    pub fn reset(state: &mut CompressorDsp, sample_rate: Double)
        ensures
            *final(state) == (CompressorDsp {
                inv_sr: num(ONE) / sample_rate.narrow(),
                input_level: num(0),
                yl_prev: num(0),
            }),
            spans(final(state).inv_sr, sample_rate.narrow()),
    {
        state.inv_sr = num(ONE) / sample_rate.narrow();
        proof {
            lemma_spans(sample_rate.narrow());
        }
        state.input_level = num(0);
        state.yl_prev = num(0);
    }

    /// The levels whose common logarithms the detector needs, one per sample.
    pub fn levels(
        state: &CompressorDsp,
        params: &CompressorParams,
        buffer: &AudioBuffer,
    ) -> (r: Vec<Single>)
        requires
            buffer.wf(),
        ensures
            r@ == Seq::new(
                buffer.samples as nat,
                |i: int|
                    level_after(params.mode, state.input_level, buffer.input@, (i + 1) as nat),
            ),
    {
        let n = buffer.num_samples();
        let mut level = state.input_level;
        let mut r: Vec<Single> = Vec::new();
        let mut i: usize = 0;
        while i < n
            invariant
                i <= n,
                n == buffer.samples,
                buffer.wf(),
                level == level_after(params.mode, state.input_level, buffer.input@, i as nat),
                r@ == Seq::new(
                    i as nat,
                    |k: int|
                        level_after(params.mode, state.input_level, buffer.input@, (k + 1) as nat),
                ),
            decreases n - i,
        {
            level = detected(params.mode, level, mix_at(buffer, i));
            assert(level == level_after(
                params.mode,
                state.input_level,
                buffer.input@,
                (i + 1) as nat,
            ));
            r.push(level);
            i = i + 1;
        }
        r
    }

    /// The exponents of `INV_E` that the smoothing needs for attack and release, a pair per
    /// sample.
    pub fn coefficient_exponents(
        state: &CompressorDsp,
        params: &CompressorParams,
        n: usize,
    ) -> (r: Vec<(Single, Single)>)
        requires
            params.covers(n as int),
        ensures
            r@ == exponent_pairs(state.inv_sr, params.attack@, params.release@, n as nat),
    {
        exponents(state.inv_sr, &params.attack, &params.release, n)
    }

    /// The powers of ten that the gains are, one per sample.
    pub fn control_exponents(
        state: &CompressorDsp,
        params: &CompressorParams,
        detection: &Detection,
        buffer: &AudioBuffer,
    ) -> (r: Vec<Single>)
        requires
            buffer.wf(),
            params.covers(buffer.samples as int),
            detection.covers(buffer.samples as int),
        ensures
            r@ == Seq::new(
                buffer.samples as nat,
                |i: int| control_exponent(*state, *params, *detection, buffer.input@, i),
            ),
    {
        let n = buffer.num_samples();
        let start = *state;
        let mut now = *state;
        let mut r: Vec<Single> = Vec::new();
        let mut i: usize = 0;
        while i < n
            invariant
                i <= n,
                n == buffer.samples,
                buffer.wf(),
                params.covers(n as int),
                detection.covers(n as int),
                now.input_level == level_after(
                    params.mode,
                    start.input_level,
                    buffer.input@,
                    i as nat,
                ),
                now.yl_prev == reduction_after(
                    start,
                    *params,
                    *detection,
                    buffer.input@,
                    i as nat,
                ),
                r@ == Seq::new(
                    i as nat,
                    |k: int| control_exponent(start, *params, *detection, buffer.input@, k),
                ),
            decreases n - i,
        {
            detect(&mut now, params, detection, buffer, i);
            assert(now.input_level == level_after(
                params.mode,
                start.input_level,
                buffer.input@,
                (i + 1) as nat,
            ));
            assert(now.yl_prev == reduction_after(
                start,
                *params,
                *detection,
                buffer.input@,
                (i + 1) as nat,
            ));
            r.push((params.makeup[i] - now.yl_prev) * num(TWENTIETH));
            i = i + 1;
        }
        r
    }

    /// Works on one block. `controls` holds the powers of ten of `control_exponents`. A bypassed
    /// block goes through as it is, and the detector waits.
    pub fn process(
        state: &mut CompressorDsp,
        params: &CompressorParams,
        detection: &Detection,
        controls: &Vec<Single>,
        buffer: &mut AudioBuffer,
    )
        requires
            old(buffer).wf(),
            engaged(*params, *old(buffer)) ==> {
                &&& params.covers(old(buffer).samples as int)
                &&& detection.covers(old(buffer).samples as int)
                &&& controls@.len() >= old(buffer).samples
            },
        ensures
            !engaged(*params, *old(buffer)) ==> *final(state) == *old(state),
            engaged(*params, *old(buffer)) ==> *final(state) == (CompressorDsp {
                inv_sr: old(state).inv_sr,
                input_level: level_after(
                    params.mode,
                    old(state).input_level,
                    old(buffer).input@,
                    old(buffer).samples as nat,
                ),
                yl_prev: reduction_after(
                    *old(state),
                    *params,
                    *detection,
                    old(buffer).input@,
                    old(buffer).samples as nat,
                ),
            }),
            final(buffer).rewritten(*old(buffer), old(buffer).input@.len() as int),
            forall|ch: int|
                0 <= ch < old(buffer).input@.len() ==> (#[trigger] final(buffer).output@[ch])@
                    == (if params.bypass {
                    old(buffer).incoming(ch)
                } else {
                    Seq::new(
                        old(buffer).samples as nat,
                        |i: int| old(buffer).incoming(ch)[i] * controls@[i],
                    )
                }),
    {
        let ghost before = *buffer;
        let ghost start = *state;
        let n = buffer.num_samples();
        let num_ch = buffer.channels();
        if !params.bypass && num_ch > 0 {
            let mut i: usize = 0;
            while i < n
                invariant
                    i <= n,
                    n == buffer.samples,
                    *buffer == before,
                    buffer.wf(),
                    params.covers(n as int),
                    detection.covers(n as int),
                    state.inv_sr == start.inv_sr,
                    state.input_level == level_after(
                        params.mode,
                        start.input_level,
                        buffer.input@,
                        i as nat,
                    ),
                    state.yl_prev == reduction_after(
                        start,
                        *params,
                        *detection,
                        buffer.input@,
                        i as nat,
                    ),
                decreases n - i,
            {
                detect(state, params, detection, buffer, i);
                assert(state.input_level == level_after(
                    params.mode,
                    start.input_level,
                    buffer.input@,
                    (i + 1) as nat,
                ));
                i = i + 1;
            }
        }
        let mut ch: usize = 0;
        while ch < num_ch
            invariant
                ch <= num_ch,
                num_ch == before.input@.len(),
                n == before.samples,
                before.wf(),
                engaged(*params, before) ==> controls@.len() >= n,
                buffer.rewritten(before, num_ch as int),
                forall|c: int|
                    0 <= c < ch ==> (#[trigger] buffer.output@[c])@ == (if params.bypass {
                        before.incoming(c)
                    } else {
                        Seq::new(n as nat, |i: int| before.incoming(c)[i] * controls@[i])
                    }),
            decreases num_ch - ch,
        {
            if params.bypass {
                copy(&buffer.input[ch], &mut buffer.output[ch]);
            } else {
                amplify(&buffer.input[ch], controls, &mut buffer.output[ch]);
            }
            assert((buffer.output@[ch as int])@ == (if params.bypass {
                before.incoming(ch as int)
            } else {
                Seq::new(n as nat, |i: int| before.incoming(ch as int)[i] * controls@[i])
            }));
            ch = ch + 1;
        }
    }
}

/// A compressor below its threshold and an expander above it take nothing away: where there was no
/// gain reduction, there is none after the sample.
pub proof fn law_nothing_to_do(
    mode: Mode,
    xg: Single,
    t: Single,
    r: Single,
    last: Single,
    alpha_a: Single,
    alpha_r: Single,
)
    requires
        mode is Compressor ==> xg.lt(t),
        mode is Expander ==> xg.gt(t),
        xg.is_finite(),
        last.is_finite(),
        last.value() == 0,
        alpha_a.is_finite(),
        alpha_r.is_finite(),
        (num(ONE) - alpha_a).is_finite(),
        (num(ONE) - alpha_r).is_finite(),
    ensures
        curve(mode, xg, t, r) == xg,
        smoothed(mode, last, xg - curve(mode, xg, t, r), alpha_a, alpha_r).is_finite(),
        smoothed(mode, last, xg - curve(mode, xg, t, r), alpha_a, alpha_r).value() == 0,
{
    lemma_constants();
    lemma_sub(xg, xg, num(0), num(0));
    lemma_eased_zero(last, xg - xg, alpha_a);
    lemma_eased_zero(last, xg - xg, alpha_r);
}

proof fn lemma_eased_zero(last: Single, target: Single, co: Single)
    requires
        last.is_finite(),
        last.value() == 0,
        target.is_finite(),
        target.value() == 0,
        co.is_finite(),
        (num(ONE) - co).is_finite(),
    ensures
        eased(last, target, co).is_finite(),
        eased(last, target, co).value() == 0,
{
    lemma_constants();
    let u = unit();
    let (a, b) = (co.value(), (num(ONE) - co).value());
    assert(a * 0 == 0 && b * 0 == 0 && 0 * u == 0) by (nonlinear_arith);
    lemma_mul(co, last, num(0), num(0));
    lemma_mul(num(ONE) - co, target, num(0), num(0));
    lemma_plus_zero(co * last, (num(ONE) - co) * target);
}

/// Whether every channel of `part` holds, for `n` samples, what it holds in `whole` from sample `i`
/// on.
pub open spec fn channels_resume(
    part: Seq<Vec<Single>>,
    whole: Seq<Vec<Single>>,
    i: nat,
    n: nat,
) -> bool {
    &&& part.len() == whole.len()
    &&& forall|ch: int|
        0 <= ch < part.len() ==> resumes((#[trigger] part[ch])@, whole[ch]@, i, n)
}

/// The mean is the same at the same sample of one block and of its second part.
proof fn lemma_sum_joins(
    input: Seq<Vec<Single>>,
    part: Seq<Vec<Single>>,
    i: nat,
    k: nat,
    count: nat,
)
    requires
        channels_resume(part, input, i, k + 1),
        count <= part.len(),
    ensures
        channel_sum(input, (i + k) as int, count) == channel_sum(part, k as int, count),
    decreases count,
{
    if count > 0 {
        lemma_sum_joins(input, part, i, k, (count - 1) as nat);
        assert(resumes(part[count - 1]@, input[count - 1]@, i, k + 1));
        assert(part[count - 1]@[k as int] == input[count - 1]@[(i + k) as int]);
    }
}

/// Two blocks lead the level where one block of both leads it.
pub proof fn law_level_joins(
    mode: Mode,
    level: Single,
    input: Seq<Vec<Single>>,
    part: Seq<Vec<Single>>,
    i: nat,
    j: nat,
)
    requires
        channels_resume(part, input, i, j),
    ensures
        level_after(mode, level, input, i + j) == level_after(
            mode,
            level_after(mode, level, input, i),
            part,
            j,
        ),
    decreases j,
{
    if j > 0 {
        let k = (j - 1) as nat;
        assert((i + j - 1) as nat == i + k);
        assert(channels_resume(part, input, i, k)) by {
            assert forall|ch: int| 0 <= ch < part.len() implies resumes(
                (#[trigger] part[ch])@,
                input[ch]@,
                i,
                k,
            ) by {
                assert(resumes(part[ch]@, input[ch]@, i, j));
            }
        }
        law_level_joins(mode, level, input, part, i, k);
        lemma_sum_joins(input, part, i, k, part.len());
    }
}

impl CompressorParams {
    /// Whether these are the controls that `whole` holds from sample `i` on, for `n` samples.
    pub open spec fn resumes(self, whole: CompressorParams, i: nat, n: nat) -> bool {
        &&& self.mode == whole.mode
        &&& resumes(self.threshold@, whole.threshold@, i, n)
        &&& resumes(self.ratio@, whole.ratio@, i, n)
        &&& resumes(self.attack@, whole.attack@, i, n)
        &&& resumes(self.release@, whole.release@, i, n)
        &&& resumes(self.makeup@, whole.makeup@, i, n)
    }
}

impl Detection {
    /// Whether this is what `whole` holds from sample `i` on, for `n` samples.
    pub open spec fn resumes(self, whole: Detection, i: nat, n: nat) -> bool {
        resumes(self.logs@, whole.logs@, i, n) && resumes(self.powers@, whole.powers@, i, n)
    }
}

/// Two blocks lead the gain reduction where one block of both leads it.
pub proof fn law_reduction_joins(
    start: CompressorDsp,
    then: CompressorDsp,
    whole: CompressorParams,
    part: CompressorParams,
    detection: Detection,
    part_detection: Detection,
    input: Seq<Vec<Single>>,
    part_input: Seq<Vec<Single>>,
    i: nat,
    j: nat,
)
    requires
        then.input_level == level_after(whole.mode, start.input_level, input, i),
        then.yl_prev == reduction_after(start, whole, detection, input, i),
        part.resumes(whole, i, j),
        part_detection.resumes(detection, i, j),
        channels_resume(part_input, input, i, j),
    ensures
        reduction_after(start, whole, detection, input, i + j) == reduction_after(
            then,
            part,
            part_detection,
            part_input,
            j,
        ),
    decreases j,
{
    if j > 0 {
        let k = (j - 1) as nat;
        assert((i + j - 1) as nat == i + k);
        law_level_joins(whole.mode, start.input_level, input, part_input, i, j);
        assert(channels_resume(part_input, input, i, k)) by {
            assert forall|ch: int| 0 <= ch < part_input.len() implies resumes(
                (#[trigger] part_input[ch])@,
                input[ch]@,
                i,
                k,
            ) by {
                assert(resumes(part_input[ch]@, input[ch]@, i, j));
            }
        }
        law_reduction_joins(
            start,
            then,
            whole,
            part,
            detection,
            part_detection,
            input,
            part_input,
            i,
            k,
        );
        let (m, p) = (k as int, (i + k) as int);
        assert(part_detection.logs@[m] == detection.logs@[p]);
        assert(part_detection.powers@[m] == detection.powers@[p]);
        assert(part.threshold@[m] == whole.threshold@[p]);
        assert(part.ratio@[m] == whole.ratio@[p]);
        assert(part.attack@[m] == whole.attack@[p]);
        assert(part.release@[m] == whole.release@[p]);
    }
}

/// A power of two.
proof fn lemma_power_of_two(k: nat) -> (r: Single)
    requires
        23 <= k <= 100,
    ensures
        r.is_finite(),
        r.value() == pow2(k) * unit(),
        r.negated().is_finite(),
        r.negated().value() == -(pow2(k) * unit()),
{
    let r = lemma_scaled(0x80_0000, k - 23);
    lemma_unit_positive();
    lemma2_to64();
    lemma_pow2_adds(23, (k - 23) as nat);
    lemma_pow2_adds((k - 23) as nat, 149);
    let (p, q) = (pow2(149) as int, pow2((k - 23) as nat) as int);
    assert(0x80_0000 * (q * p) == (0x80_0000 * q) * p) by (nonlinear_arith);
    lemma_negated(r);
    r
}

/// The curve does not raise a level, the ratio being one or more: exactly so where the distance
/// from the threshold is not rounded up, and otherwise from a ratio of 1 + 2^-22 on.
proof fn lemma_curve_lowers(mode: Mode, xg: Single, t: Single, r: Single)
    requires
        xg.is_finite(),
        t.is_finite(),
        r.is_finite(),
        size(xg.value()) <= 0x100_0000 * unit(),
        size(t.value()) <= 0x100_0000 * unit(),
        unit() <= r.value() <= 0x100_0000 * unit(),
        (xg - t).value() <= xg.value() - t.value() || 0x40_0000 * r.value() >= 0x40_0001 * unit(),
    ensures
        curve(mode, xg, t, r).is_finite(),
        curve(mode, xg, t, r).value() <= xg.value(),
        curve(mode, xg, t, r).value() >= -(0x4_0000_0000_0000 * unit()),
{
    lemma_constants();
    lemma_compare(xg, t);
    lemma_compare(t, xg);
    lemma2_to64();
    lemma2_to64_rest();
    let top = lemma_power_of_two(25);
    let (u, e, s, v) = (unit(), xg.value() - t.value(), r.value(), t.value());
    let (low, high) = lemma_bracket(e, top);
    lemma_sub(xg, t, low, high);
    lemma_sub(xg, t, top.negated(), top);
    let d = (xg - t).value();
    // A number that the quotient or the product does not pass.
    let bound = if d <= e { xg - t } else { low };
    let (a, b, l) = (bound.value(), high.value(), low.value());
    assert(a <= e);
    if mode is Compressor && !xg.lt(t) {
        assert(e >= 0);
        assert(0 * s <= d * u <= a * s) by {
            if d <= e {
                assert(0 <= d * u <= d * s) by (nonlinear_arith)
                    requires
                        0 <= d,
                        u <= s,
                        u > 0,
                ;
            } else {
                assert(0x40_0000 * (b - l) <= l);
                assert(0 <= d * u <= l * s) by (nonlinear_arith)
                    requires
                        0 <= d <= b,
                        0 <= l,
                        0x40_0000 * (b - l) <= l,
                        0x40_0000 * s >= 0x40_0001 * u,
                        u > 0,
                ;
            }
            assert(0 * s == 0) by (nonlinear_arith);
        }
        lemma_div(xg - t, r, num(0), bound);
        lemma_add(t, (xg - t) / r, t, xg);
    } else if mode is Expander && !xg.gt(t) {
        assert(e <= 0);
        assert(d * s <= a * u) by {
            if d <= e {
                assert(d * s <= d * u) by (nonlinear_arith)
                    requires
                        d <= 0,
                        u <= s,
                ;
            } else {
                assert(0x40_0001 * b <= 0x40_0000 * l);
                assert(d * s <= l * u) by (nonlinear_arith)
                    requires
                        d <= b,
                        b <= 0,
                        0x40_0001 * b <= 0x40_0000 * l,
                        0x40_0000 * s >= 0x40_0001 * u,
                        u > 0,
                ;
            }
        }
        let far = lemma_power_of_two(49);
        let f = far.value();
        assert(-f * u <= d * s) by (nonlinear_arith)
            requires
                -(0x200_0000 * u) <= d <= 0,
                0 <= s <= 0x100_0000 * u,
                f == 0x2_0000_0000_0000 * u,
                u > 0,
        ;
        lemma_mul(xg - t, r, far.negated(), bound);
        let farther = lemma_power_of_two(50);
        lemma_add(t, (xg - t) * r, farther.negated(), xg);
    }
}

/// With a ratio of one or more the gain is never raised: the reduction that a level asks for is not
/// negative, exactly so where the distance from the threshold is not rounded up, and otherwise from
/// a ratio of 1 + 2^-22 on.
pub proof fn law_reduction_not_negative(mode: Mode, xg: Single, t: Single, r: Single)
    requires
        xg.is_finite(),
        t.is_finite(),
        r.is_finite(),
        size(xg.value()) <= 0x100_0000 * unit(),
        size(t.value()) <= 0x100_0000 * unit(),
        unit() <= r.value() <= 0x100_0000 * unit(),
        (xg - t).value() <= xg.value() - t.value() || 0x40_0000 * r.value() >= 0x40_0001 * unit(),
    ensures
        (xg - curve(mode, xg, t, r)).is_finite(),
        0 <= (xg - curve(mode, xg, t, r)).value() <= pow2(51) * unit(),
{
    lemma_constants();
    lemma2_to64();
    lemma2_to64_rest();
    lemma_curve_lowers(mode, xg, t, r);
    let top = lemma_power_of_two(51);
    lemma_sub(xg, curve(mode, xg, t, r), num(0), top);
}

/// Smoothing keeps the reduction from going below zero, and from going above a power of two that
/// neither the last one nor the new one is above.
pub proof fn law_smoothing_bounded(
    mode: Mode,
    last: Single,
    xl: Single,
    alpha_a: Single,
    alpha_r: Single,
    k: nat,
)
    requires
        last.is_finite(),
        xl.is_finite(),
        0 <= last.value() <= pow2(k) * unit(),
        0 <= xl.value() <= pow2(k) * unit(),
        k <= 126,
        within(alpha_a, num(0), num(ONE)),
        within(alpha_r, num(0), num(ONE)),
    ensures
        smoothed(mode, last, xl, alpha_a, alpha_r).is_finite(),
        0 <= smoothed(mode, last, xl, alpha_a, alpha_r).value() <= pow2(k) * unit(),
{
    let attacks = match mode {
        Mode::Expander => xl.lt(last),
        Mode::Compressor => xl.gt(last),
    };
    law_eased_bounded(last, xl, if attacks { alpha_a } else { alpha_r }, k);
}

impl CompressorParams {
    /// Whether the controls at sample `i` lower a level `xg` or leave it, as
    /// `law_reduction_not_negative` has it.
    pub open spec fn lowers(self, xg: Single, i: int) -> bool {
        let (t, r) = (self.threshold@[i], self.ratio@[i]);
        &&& xg.is_finite() && t.is_finite() && r.is_finite()
        &&& size(xg.value()) <= 0x100_0000 * unit()
        &&& size(t.value()) <= 0x100_0000 * unit()
        &&& unit() <= r.value() <= 0x100_0000 * unit()
        &&& (xg - t).value() <= xg.value() - t.value() || 0x40_0000 * r.value() >= 0x40_0001
            * unit()
    }
}

/// The level of sample `i` in decibels.
pub open spec fn decibels_at(
    state: CompressorDsp,
    params: CompressorParams,
    detection: Detection,
    input: Seq<Vec<Single>>,
    i: int,
) -> Single {
    decibels(
        level_after(params.mode, state.input_level, input, (i + 1) as nat),
        detection.logs@[i],
    )
}

/// With ratios of one or more the gain reduction is not negative over a whole block, and the gain
/// of no sample is above that of the make-up gain alone.
pub proof fn law_gain_never_raised(
    state: CompressorDsp,
    params: CompressorParams,
    detection: Detection,
    input: Seq<Vec<Single>>,
    n: nat,
)
    requires
        state.yl_prev.is_finite(),
        0 <= state.yl_prev.value() <= pow2(51) * unit(),
        forall|i: int|
            0 <= i < n ==> params.lowers(
                #[trigger] decibels_at(state, params, detection, input, i),
                i,
            ),
        forall|i: int|
            0 <= i < n ==> within(
                attack_release_coeff(params.attack@[i], (#[trigger] detection.powers@[i]).0),
                num(0),
                num(ONE),
            ) && within(
                attack_release_coeff(params.release@[i], detection.powers@[i].1),
                num(0),
                num(ONE),
            ),
    ensures
        forall|i: nat|
            i <= n ==> (#[trigger] reduction_after(state, params, detection, input, i)).is_finite()
                && 0 <= reduction_after(state, params, detection, input, i).value() <= pow2(51)
                * unit(),
        forall|i: int|
            0 <= i < n && params.makeup@[i].is_finite() && size(params.makeup@[i].value()) <= pow2(
                51,
            ) * unit() ==> (#[trigger] control_exponent(
                state,
                params,
                detection,
                input,
                i,
            )).is_finite() && control_exponent(state, params, detection, input, i).value() <= (
            params.makeup@[i] * num(TWENTIETH)).value(),
{
    assert forall|i: nat| i <= n implies (#[trigger] reduction_after(
        state,
        params,
        detection,
        input,
        i,
    )).is_finite() && 0 <= reduction_after(state, params, detection, input, i).value() <= pow2(51)
        * unit() by {
        lemma_reduction(state, params, detection, input, n, i);
    }
    assert forall|i: int|
        0 <= i < n && params.makeup@[i].is_finite() && size(params.makeup@[i].value()) <= pow2(51)
            * unit() implies (#[trigger] control_exponent(
        state,
        params,
        detection,
        input,
        i,
    )).is_finite() && control_exponent(state, params, detection, input, i).value() <= (
    params.makeup@[i] * num(TWENTIETH)).value() by {
        let makeup = params.makeup@[i];
        let red = reduction_after(state, params, detection, input, (i + 1) as nat);
        assert(red.is_finite() && red.value() >= 0);
        lemma_constants();
        lemma2_to64();
        lemma_constant(TWENTIETH, 0x1000_0000, 0xcc_cccd);
        lemma_negated(red);
        lemma_plus_zero(makeup, num(0));
        let far = lemma_power_of_two(52);
        lemma_pow2_unfold(52);
        let (p, q, u) = (pow2(51) as int, pow2(52) as int, unit());
        assert(q * u == 2 * (p * u)) by (nonlinear_arith)
            requires
                q == 2 * p,
        ;
        lemma_sub(makeup, red, far.negated(), far);
        lemma_shrunk(makeup - red, num(TWENTIETH));
        lemma_shrunk(makeup, num(TWENTIETH));
        lemma_add_monotone(makeup, red.negated(), makeup, num(0));
        let (a, b, c) = ((makeup - red).value(), makeup.value(), num(TWENTIETH).value());
        assert(a * c <= b * c) by (nonlinear_arith)
            requires
                a <= b,
                c > 0,
        ;
        lemma_mul_monotone(makeup - red, num(TWENTIETH), makeup, num(TWENTIETH));
    }
}

/// The gain reduction after `i` samples is a number that is not negative.
proof fn lemma_reduction(
    state: CompressorDsp,
    params: CompressorParams,
    detection: Detection,
    input: Seq<Vec<Single>>,
    n: nat,
    i: nat,
)
    requires
        i <= n,
        state.yl_prev.is_finite(),
        0 <= state.yl_prev.value() <= pow2(51) * unit(),
        forall|k: int|
            0 <= k < n ==> params.lowers(
                #[trigger] decibels_at(state, params, detection, input, k),
                k,
            ),
        forall|k: int|
            0 <= k < n ==> within(
                attack_release_coeff(params.attack@[k], (#[trigger] detection.powers@[k]).0),
                num(0),
                num(ONE),
            ) && within(
                attack_release_coeff(params.release@[k], detection.powers@[k].1),
                num(0),
                num(ONE),
            ),
    ensures
        reduction_after(state, params, detection, input, i).is_finite(),
        0 <= reduction_after(state, params, detection, input, i).value() <= pow2(51) * unit(),
    decreases i,
{
    if i > 0 {
        let k = i - 1;
        lemma_reduction(state, params, detection, input, n, k as nat);
        let xg = decibels_at(state, params, detection, input, k);
        assert(params.lowers(xg, k));
        law_reduction_not_negative(params.mode, xg, params.threshold@[k], params.ratio@[k]);
        assert(detection.powers@[k] == detection.powers@[k]);
        law_smoothing_bounded(
            params.mode,
            reduction_after(state, params, detection, input, k as nat),
            xg - curve(params.mode, xg, params.threshold@[k], params.ratio@[k]),
            attack_release_coeff(params.attack@[k], detection.powers@[k].0),
            attack_release_coeff(params.release@[k], detection.powers@[k].1),
            51,
        );
    }
}


/// The curve hardly raises a level, the ratio being one or more.
proof fn lemma_curve_hardly_raises(mode: Mode, xg: Single, t: Single, r: Single)
    requires
        xg.is_finite(),
        t.is_finite(),
        r.is_finite(),
        size(xg.value()) <= 0x100_0000 * unit(),
        size(t.value()) <= 0x100_0000 * unit(),
        unit() <= r.value() <= 0x100_0000 * unit(),
    ensures
        curve(mode, xg, t, r).is_finite(),
        curve(mode, xg, t, r).value() >= -(0x4_0000_0000_0000 * unit()),
        0x80_0000 * (curve(mode, xg, t, r).value() - xg.value()) <= 4 * (size(xg.value()) + size(
            t.value(),
        )),
{
    lemma_constants();
    lemma_compare(xg, t);
    lemma_compare(t, xg);
    lemma2_to64();
    lemma2_to64_rest();
    let top = lemma_power_of_two(25);
    let far = lemma_power_of_two(49);
    let farther = lemma_power_of_two(50);
    let (u, s) = (unit(), r.value());
    lemma_sub(xg, t, top.negated(), top);
    lemma_sub_error(xg, t, top);
    let d = xg - t;
    let v = d.value();
    // No more than what rounding alone makes of the level.
    lemma_add(t, d, far.negated(), far);
    lemma_add_error(t, d, far);
    let back = t + d;
    if mode is Compressor && !xg.lt(t) {
        lemma_sub(xg, t, num(0), top);
        assert(0 * s <= v * u <= v * s) by (nonlinear_arith)
            requires
                0 <= v,
                u <= s,
                u > 0,
        ;
        lemma_div(d, r, num(0), d);
        lemma_add(t, d / r, far.negated(), far);
        lemma_add_monotone(t, d / r, t, d);
    } else if mode is Expander && !xg.gt(t) {
        lemma_sub(xg, t, top.negated(), num(0));
        let f = far.value();
        assert(-f * u <= v * s <= v * u) by (nonlinear_arith)
            requires
                -(0x200_0000 * u) <= v <= 0,
                u <= s <= 0x100_0000 * u,
                f == 0x2_0000_0000_0000 * u,
                u > 0,
        ;
        lemma_mul(d, r, far.negated(), d);
        lemma_add(t, d * r, farther.negated(), farther);
        lemma_add_monotone(t, d * r, t, d);
    }
}

/// With a ratio of one or more, also of just one, the gain is raised by no more than rounding makes
/// of it: the reduction that a level asks for is not below zero by more than eight parts in 2^23 of
/// the level and the threshold.
pub proof fn law_reduction_hardly_negative(mode: Mode, xg: Single, t: Single, r: Single)
    requires
        xg.is_finite(),
        t.is_finite(),
        r.is_finite(),
        size(xg.value()) <= 0x100_0000 * unit(),
        size(t.value()) <= 0x100_0000 * unit(),
        unit() <= r.value() <= 0x100_0000 * unit(),
    ensures
        (xg - curve(mode, xg, t, r)).is_finite(),
        (xg - curve(mode, xg, t, r)).value() <= pow2(51) * unit(),
        0x80_0000 * (xg - curve(mode, xg, t, r)).value() >= -(8 * (size(xg.value()) + size(
            t.value(),
        ))),
{
    lemma_constants();
    lemma2_to64();
    lemma2_to64_rest();
    lemma_curve_hardly_raises(mode, xg, t, r);
    let top = lemma_power_of_two(51);
    let yg = curve(mode, xg, t, r);
    lemma_sub(xg, yg, top.negated(), top);
    lemma_sub_error(xg, yg, top);
    if yg.value() <= xg.value() {
        lemma_sub(xg, yg, num(0), top);
    }
}

impl CompressorParams {
    /// Whether the controls at sample `i`, with a ratio of one or more, hardly raise a level `xg`:
    /// by no more than `2^j` of the least numbers.
    pub open spec fn hardly_raises(self, xg: Single, i: int, j: nat) -> bool {
        let (t, r) = (self.threshold@[i], self.ratio@[i]);
        &&& xg.is_finite() && t.is_finite() && r.is_finite()
        &&& size(xg.value()) <= 0x100_0000 * unit()
        &&& size(t.value()) <= 0x100_0000 * unit()
        &&& unit() <= r.value() <= 0x100_0000 * unit()
        &&& 8 * (size(xg.value()) + size(t.value())) <= 0x80_0000 * pow2(j)
    }
}

/// The gain reduction after `i` samples is hardly below zero.
proof fn lemma_reduction_near(
    state: CompressorDsp,
    params: CompressorParams,
    detection: Detection,
    input: Seq<Vec<Single>>,
    j: nat,
    n: nat,
    i: nat,
)
    requires
        i <= n,
        40 <= j <= 200,
        state.yl_prev.is_finite(),
        -pow2(j) <= state.yl_prev.value() <= pow2(200),
        forall|k: int|
            0 <= k < n ==> params.hardly_raises(
                #[trigger] decibels_at(state, params, detection, input, k),
                k,
                j,
            ),
        forall|k: int|
            0 <= k < n ==> within(
                attack_release_coeff(params.attack@[k], (#[trigger] detection.powers@[k]).0),
                num(0),
                num(ONE),
            ) && within(
                attack_release_coeff(params.release@[k], detection.powers@[k].1),
                num(0),
                num(ONE),
            ),
    ensures
        reduction_after(state, params, detection, input, i).is_finite(),
        -pow2(j) <= reduction_after(state, params, detection, input, i).value() <= pow2(200),
    decreases i,
{
    if i > 0 {
        let k = i - 1;
        lemma_reduction_near(state, params, detection, input, j, n, k as nat);
        let xg = decibels_at(state, params, detection, input, k);
        assert(params.hardly_raises(xg, k, j));
        let (t, r) = (params.threshold@[k], params.ratio@[k]);
        law_reduction_hardly_negative(params.mode, xg, t, r);
        lemma_pow2_adds(51, 149);
        lemma_unit_positive();
        let last = reduction_after(state, params, detection, input, k as nat);
        let xl = xg - curve(params.mode, xg, t, r);
        let powers = detection.powers@[k];
        let attacks = match params.mode {
            Mode::Expander => xl.lt(last),
            Mode::Compressor => xl.gt(last),
        };
        let co = if attacks {
            attack_release_coeff(params.attack@[k], powers.0)
        } else {
            attack_release_coeff(params.release@[k], powers.1)
        };
        law_eased_between(last, xl, co, j, 200);
    }
}

/// With ratios of one or more, also of just one, the gain of no sample of a block is above that of
/// the make-up gain by more than rounding makes of it: by no more than `little` decibels, `2^j` of
/// the least numbers.
pub proof fn law_gain_hardly_raised(
    state: CompressorDsp,
    params: CompressorParams,
    detection: Detection,
    input: Seq<Vec<Single>>,
    little: Single,
    j: nat,
    n: nat,
    i: int,
)
    requires
        0 <= i < n,
        40 <= j <= 200,
        little.is_finite(),
        little.value() == pow2(j),
        state.yl_prev.is_finite(),
        -pow2(j) <= state.yl_prev.value() <= pow2(200),
        forall|k: int|
            0 <= k < n ==> params.hardly_raises(
                #[trigger] decibels_at(state, params, detection, input, k),
                k,
                j,
            ),
        forall|k: int|
            0 <= k < n ==> within(
                attack_release_coeff(params.attack@[k], (#[trigger] detection.powers@[k]).0),
                num(0),
                num(ONE),
            ) && within(
                attack_release_coeff(params.release@[k], detection.powers@[k].1),
                num(0),
                num(ONE),
            ),
        params.makeup@[i].is_finite(),
        size(params.makeup@[i].value()) <= pow2(200),
    ensures
        control_exponent(state, params, detection, input, i).is_finite(),
        control_exponent(state, params, detection, input, i).value() <= ((params.makeup@[i]
            + little) * num(TWENTIETH)).value(),
{
    lemma_constants();
    lemma2_to64();
    lemma_constant(TWENTIETH, 0x1000_0000, 0xcc_cccd);
    lemma_reduction_near(state, params, detection, input, j, n, (i + 1) as nat);
    let makeup = params.makeup@[i];
    let red = reduction_after(state, params, detection, input, (i + 1) as nat);
    lemma_negated(red);
    let far = lemma_power_of_two(52);
    lemma_pow2_adds(52, 149);
    lemma_pow2_unfold(201);
    lemma_unit_positive();
    if j < 200 {
        lemma_pow2_strictly_increases(j, 200);
    }
    lemma_sub(makeup, red, far.negated(), far);
    lemma_add(makeup, little, far.negated(), far);
    lemma_shrunk(makeup - red, num(TWENTIETH));
    lemma_shrunk(makeup + little, num(TWENTIETH));
    lemma_add_monotone(makeup, red.negated(), makeup, little);
    let (a, b, c) = (
        (makeup - red).value(),
        (makeup + little).value(),
        num(TWENTIETH).value(),
    );
    assert(a * c <= b * c) by (nonlinear_arith)
        requires
            a <= b,
            c > 0,
    ;
    lemma_mul_monotone(makeup - red, num(TWENTIETH), makeup + little, num(TWENTIETH));
}

} // verus!
