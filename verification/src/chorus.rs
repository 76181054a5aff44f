//! Chorus: several voices, each read from the line with a delay of its own that an oscillator
//! moves, summed with the dry signal.
//!
//! There are two to five voices. The first is the dry signal; each of the others takes its delay
//! from the oscillator at a phase of its own.
use crate::audio::{lesser, put, resumes, silent, silent_lines, AudioBuffer};
use crate::float::double::Double;
use crate::float::encoding::{nearest_even, power, rounded, signed, sum, Format, Number};
use crate::float::facts::{
    alike, law_mul_commutes, lemma_abs, lemma_add, lemma_add_error, lemma_compare, lemma_constant,
    lemma_constants, lemma_div, lemma_finite_number, lemma_from_usize, lemma_mul_error,
    lemma_remainder, lemma_same, lemma_shrunk, lemma_sub, lemma_times_one, lemma_within, size, unit,
    within,
};
use crate::float::rounding::lemma_floor_log2;
use crate::float::single::{num, Single};
use crate::modulation::{
    angle, law_clock_joins, law_lfo_of_like_phases, law_lfo_unipolar, lfo, read_line, sample_at,
    turned, Clock, HALF, MINUS_ONE, ONE, QUARTER, TWO,
};
use crate::ring::{behind, lemma_ahead_twice, tap, Tap, MAX_LINE};
use vstd::arithmetic::div_mod::{
    lemma_fundamental_div_mod, lemma_fundamental_div_mod_converse, lemma_mod_bound,
    lemma_mod_multiples_vanish,
};
use vstd::arithmetic::power2::lemma2_to64;
use vstd::prelude::*;

pub use crate::modulation::{Interpolation, Waveform};

verus! {

/// The longest delay, 0.1 seconds.
pub const MAX_DELAY_SECS: u32 = 0x3dcc_cccd;

/// The sample rate before the first reset, 44100.
pub const DEFAULT_RATE: u32 = 0x472c_4400;

/// What the controls say over one block. The lists are read anew for every channel and hold,
/// for each, one value per sample.
pub struct ChorusParams {
    pub delay: Vec<Vec<Single>>,
    pub width: Vec<Vec<Single>>,
    pub depth: Vec<Vec<Single>>,
    pub voices: i64,
    pub rate: Vec<Vec<Single>>,
    pub waveform: Waveform,
    pub interp: Interpolation,
    pub stereo: bool,
}

impl ChorusParams {
    /// The lists of a channel reach over `n` samples.
    pub open spec fn covers_channel(self, ch: int, n: int) -> bool {
        &&& self.delay@[ch]@.len() >= n
        &&& self.width@[ch]@.len() >= n
        &&& self.depth@[ch]@.len() >= n
        &&& self.rate@[ch]@.len() >= n
    }

    /// There are lists for every one of `channels` channels, and they reach over `n` samples.
    pub open spec fn covers(self, channels: int, n: int) -> bool {
        &&& self.delay@.len() >= channels
        &&& self.width@.len() >= channels
        &&& self.depth@.len() >= channels
        &&& self.rate@.len() >= channels
        &&& forall|ch: int| 0 <= ch < channels ==> #[trigger] self.covers_channel(ch, n)
    }

    pub open spec fn num_voices_spec(self) -> usize {
        if self.voices < 2 {
            2
        } else if self.voices > 5 {
            5
        } else {
            self.voices as usize
        }
    }

    /// The number of voices, between 2 and 5.
    pub fn num_voices(&self) -> (r: usize)
        ensures
            r == self.num_voices_spec(),
            2 <= r <= 5,
    {
        if self.voices < 2 {
            2
        } else if self.voices > 5 {
            5
        } else {
            self.voices as usize
        }
    }
}

pub struct Chorus {
    pub sample_rate: Single,
    pub buffer: Vec<Vec<Single>>,
    pub buffer_len: usize,
    pub write_pos: usize,
    pub lfo_phase: Single,
}

/// The length that a reset gives the delay lines.
pub open spec fn line_length(sample_rate: Double) -> int {
    let len = (num(MAX_DELAY_SECS) * sample_rate.narrow()).to_usize() + 1;
    if len < 4 { 4 } else { len }
}

pub open spec fn weight_spec(stereo: bool, voices: usize, voice: usize, ch: usize) -> Single {
    if stereo && voices > 2 {
        let w = Single::from_usize(voice) / Single::from_usize((voices - 2) as usize);
        if ch != 0 { num(ONE) - w } else { w }
    } else {
        num(ONE)
    }
}

/// How loud a wet voice is on a channel: in stereo the voices are spread from one side to the
/// other.
#[verifier::when_used_as_spec(weight_spec)]
pub fn weight(stereo: bool, voices: usize, voice: usize, ch: usize) -> (r: Single)
    ensures
        r == weight_spec(stereo, voices, voice, ch),
{
    if stereo && voices > 2 {
        let w = Single::from_usize(voice) / Single::from_usize(voices - 2);
        if ch != 0 { num(ONE) - w } else { w }
    } else {
        num(ONE)
    }
}

pub open spec fn next_offset_spec(offset: Single, voices: usize) -> Single {
    if voices == 3 {
        offset + num(QUARTER)
    } else if voices > 3 {
        offset + num(ONE) / Single::from_usize((voices - 1) as usize)
    } else {
        offset
    }
}

/// The phase offset of the voice after the one with the given offset.
#[verifier::when_used_as_spec(next_offset_spec)]
pub fn next_offset(offset: Single, voices: usize) -> (r: Single)
    ensures
        r == next_offset_spec(offset, voices),
{
    if voices == 3 {
        offset + num(QUARTER)
    } else if voices > 3 {
        offset + num(ONE) / Single::from_usize(voices - 1)
    } else {
        offset
    }
}

/// The phase offset of a wet voice.
pub open spec fn offset_of(voices: usize, voice: nat) -> Single
    decreases voice,
{
    if voice == 0 {
        num(0)
    } else {
        next_offset(offset_of(voices, (voice - 1) as nat), voices)
    }
}

pub open spec fn voice_phase_spec(phase: Single, offset: Single) -> Single {
    (phase + offset).rem_euclid(num(ONE))
}

/// The oscillator phase that a voice sees.
#[verifier::when_used_as_spec(voice_phase_spec)]
pub fn voice_phase(phase: Single, offset: Single) -> (r: Single)
    ensures
        r == voice_phase_spec(phase, offset),
{
    (phase + offset).rem_euclid(num(ONE))
}

/// Where a channel reads its line for a voice at sample `i`, `sine` being the sine of the
/// voice's angle there.
pub open spec fn tap_at(
    clock: Clock,
    params: ChorusParams,
    ch: int,
    voice: nat,
    sine: Single,
    i: nat,
) -> Tap {
    let phase = voice_phase(
        clock.phase_at(params.rate@[ch]@, i),
        offset_of(params.num_voices_spec(), voice),
    );
    let sweep = lfo(phase, params.waveform, sine);
    let delay = (params.delay@[ch]@[i as int] + params.width@[ch]@[i as int] * sweep)
        * clock.sample_rate;
    tap(behind(clock.write_at(i), delay, clock.len), clock.len)
}

pub open spec fn blend_spec(
    params: ChorusParams,
    ch: usize,
    voice: usize,
    acc: Single,
    dry: Single,
    voiced: Single,
    depth: Single,
) -> Single {
    let voices = params.num_voices_spec();
    if params.stereo && voices == 2 {
        if ch == 0 { dry } else { voiced * depth }
    } else {
        acc + voiced * depth * weight(params.stereo, voices, voice, ch)
    }
}

/// What one more wet voice makes of the sum so far. Two voices in stereo are kept apart: the
/// first channel is dry, the other one wet.
fn blend(
    params: &ChorusParams,
    ch: usize,
    voice: usize,
    acc: Single,
    dry: Single,
    voiced: Single,
    depth: Single,
) -> (r: Single)
    ensures
        r == blend_spec(*params, ch, voice, acc, dry, voiced, depth),
{
    let voices = params.num_voices();
    if params.stereo && voices == 2 {
        if ch == 0 { dry } else { voiced * depth }
    } else {
        acc + voiced * depth * weight(params.stereo, voices, voice, ch)
    }
}

/// The dry sample at `i` with the first `voices` wet voices in it, read from `line`.
pub open spec fn mixed(
    clock: Clock,
    params: ChorusParams,
    ch: usize,
    sines: Seq<Single>,
    line: Seq<Single>,
    dry: Single,
    i: nat,
    voices: nat,
) -> Single
    decreases voices,
{
    if voices == 0 {
        dry
    } else {
        let v = (voices - 1) as nat;
        let acc = mixed(clock, params, ch, sines, line, dry, i, v);
        let voiced = read_line(
            line,
            tap_at(clock, params, ch as int, v, sines[v as int], i),
            params.interp,
        );
        blend_spec(params, ch, v as usize, acc, dry, voiced, params.depth@[ch as int]@[i as int])
    }
}

/// A line after `i` samples have been put in.
pub open spec fn line_after(
    clock: Clock,
    line: Seq<Single>,
    input: Seq<Single>,
    i: nat,
) -> Seq<Single>
    decreases i,
{
    if i == 0 {
        line
    } else {
        let k = (i - 1) as nat;
        line_after(clock, line, input, k).update(clock.write_at(k) as int, input[k as int])
    }
}

/// The first `n` samples that go out on a channel.
pub open spec fn rendered(
    clock: Clock,
    params: ChorusParams,
    ch: usize,
    sines: Seq<Vec<Single>>,
    line: Seq<Single>,
    input: Seq<Single>,
    n: nat,
) -> Seq<Single> {
    Seq::new(
        n,
        |i: int|
            mixed(
                clock,
                params,
                ch,
                sines[i]@,
                line_after(clock, line, input, i as nat),
                input[i],
                i as nat,
                (params.num_voices_spec() - 1) as nat,
            ),
    )
}

/// The dry sample with every wet voice in it.
fn mix(
    clock: Clock,
    Ghost(start): Ghost<Clock>,
    params: &ChorusParams,
    ch: usize,
    sines: &Vec<Single>,
    line: &Vec<Single>,
    dry: Single,
    i: usize,
) -> (r: Single)
    requires
        clock.wf(),
        line@.len() == clock.len,
        ch < params.delay@.len(),
        ch < params.width@.len(),
        ch < params.depth@.len(),
        ch < params.rate@.len(),
        params.covers_channel(ch as int, i + 1),
        sines@.len() >= params.num_voices_spec() - 1,
        clock == start.after(params.rate@[ch as int]@, i as nat),
    ensures
        r == mixed(
            start,
            *params,
            ch,
            sines@,
            line@,
            dry,
            i as nat,
            (params.num_voices_spec() - 1) as nat,
        ),
{
    let voices = params.num_voices();
    let mut acc = dry;
    let mut offset = num(0);
    let mut voice: usize = 0;
    while voice < voices - 1
        invariant
            voice <= voices - 1,
            voices == params.num_voices_spec(),
            2 <= voices <= 5,
            clock.wf(),
            line@.len() == clock.len,
            ch < params.delay@.len(),
            ch < params.width@.len(),
            ch < params.depth@.len(),
            params.covers_channel(ch as int, i + 1),
            sines@.len() >= voices - 1,
            clock == start.after(params.rate@[ch as int]@, i as nat),
            offset == offset_of(voices, voice as nat),
            acc == mixed(start, *params, ch, sines@, line@, dry, i as nat, voice as nat),
        decreases voices - voice,
    {
        let phase = voice_phase(clock.phase, offset);
        let sweep = lfo(phase, params.waveform, sines[voice]);
        let delay = (params.delay[ch][i] + params.width[ch][i] * sweep) * clock.sample_rate;
        let place = tap(behind(clock.write, delay, clock.len), clock.len);
        let voiced = sample_at(line, place, params.interp);
        acc = blend(params, ch, voice, acc, dry, voiced, params.depth[ch][i]);
        offset = next_offset(offset, voices);
        voice = voice + 1;
    }
    acc
}

/// Works on one channel: takes the line through the block and writes what goes out.
fn render(
    clock: Clock,
    params: &ChorusParams,
    ch: usize,
    sines: &Vec<Vec<Single>>,
    line: &mut Vec<Single>,
    input: &Vec<Single>,
    out: &mut Vec<Single>,
)
    requires
        old(out)@.len() == input@.len(),
        clock.wf(),
        old(line)@.len() == clock.len,
        params.covers(ch + 1, input@.len() as int),
        sines@.len() >= input@.len(),
        forall|i: int|
            0 <= i < input@.len() ==> (#[trigger] sines@[i])@.len() >= params.num_voices_spec()
                - 1,
    ensures
        final(line)@.len() == clock.len,
        final(line)@ == line_after(clock, old(line)@, input@, input@.len() as nat),
        final(out)@ == rendered(
            clock,
            *params,
            ch,
            sines@,
            old(line)@,
            input@,
            input@.len() as nat,
        ),
{
    let ghost first = line@;
    let ghost rate = params.rate@[ch as int]@;
    let n = input.len();
    let mut now = clock;
    proof {
        clock.lemma_start(rate);
        assert(params.covers_channel(ch as int, n as int));
    }
    let mut i: usize = 0;
    while i < n
        invariant
            i <= n,
            n == input@.len(),
            clock.wf(),
            now.wf(),
            ch < params.delay@.len(),
            ch < params.width@.len(),
            ch < params.depth@.len(),
            ch < params.rate@.len(),
            params.covers_channel(ch as int, n as int),
            sines@.len() >= n,
            forall|k: int|
                0 <= k < n ==> (#[trigger] sines@[k])@.len() >= params.num_voices_spec() - 1,
            rate == params.rate@[ch as int]@,
            now == clock.after(rate, i as nat),
            line@.len() == clock.len,
            line@ == line_after(clock, first, input@, i as nat),
            out@.len() == n,
            out@.take(i as int) == rendered(clock, *params, ch, sines@, first, input@, i as nat),
        decreases n - i,
    {
        put(out, i, mix(now, Ghost(clock), params, ch, &sines[i], line, input[i], i));
        line[now.write] = input[i];
        proof {
            clock.lemma_tick(rate, i as nat);
        }
        now.tick(params.rate[ch][i]);
        i = i + 1;
    }
    assert(out@.take(n as int) == out@);
}

impl Chorus {
    pub open spec fn wf(self) -> bool {
        &&& self.clock().wf()
        &&& self.buffer@.len() <= 2
        &&& forall|ch: int|
            0 <= ch < self.buffer@.len() ==> (#[trigger] self.buffer@[ch])@.len()
                == self.buffer_len
    }

    /// Where the effect stands, its lines aside.
    pub open spec fn clock(self) -> Clock {
        Clock {
            sample_rate: self.sample_rate,
            len: self.buffer_len,
            write: self.write_pos,
            phase: self.lfo_phase,
        }
    }

    /// How many channels of a block are worked on.
    pub open spec fn active(self, buffer: AudioBuffer) -> int {
        lesser(buffer.input@.len() as usize, self.buffer@.len() as usize) as int
    }

    /// Where the effect stands after a block: where the last channel worked on has taken it.
    pub open spec fn clock_after(self, params: ChorusParams, buffer: AudioBuffer) -> Clock {
        let active = self.active(buffer);
        if active == 0 {
            self.clock()
        } else {
            self.clock().after(params.rate@[active - 1]@, buffer.samples as nat)
        }
    }

    /// The sines of a block: for every active channel and sample, one per wet voice.
    pub open spec fn sines_cover(
        self,
        params: ChorusParams,
        sines: Seq<Vec<Vec<Single>>>,
        buffer: AudioBuffer,
    ) -> bool {
        &&& sines.len() >= self.active(buffer)
        &&& forall|ch: int|
            0 <= ch < self.active(buffer) ==> (#[trigger] sines[ch])@.len() >= buffer.samples
        &&& forall|ch: int, i: int|
            0 <= ch < self.active(buffer) && 0 <= i < buffer.samples ==> (
            #[trigger] sines[ch]@[i])@.len() >= params.num_voices_spec() - 1
    }

    /// Without lines, before the first reset.
    pub fn new() -> (r: Chorus)
        ensures
            r.wf(),
            r.sample_rate == num(DEFAULT_RATE),
            r.buffer@.len() == 0,
            r.buffer_len == 1,
            r.write_pos == 0,
            r.lfo_phase == num(0),
    {
        Chorus {
            sample_rate: num(DEFAULT_RATE),
            buffer: Vec::new(),
            buffer_len: 1,
            write_pos: 0,
            lfo_phase: num(0),
        }
    }

    /// Silences two lines of the length that the sample rate asks for, and starts over.
    pub fn reset(&mut self, sample_rate: Double)
        requires
            line_length(sample_rate) <= MAX_LINE,
        ensures
            final(self).wf(),
            final(self).sample_rate == sample_rate.narrow(),
            final(self).buffer_len == line_length(sample_rate),
            final(self).buffer@.len() == 2,
            forall|ch: int|
                0 <= ch < 2 ==> (#[trigger] final(self).buffer@[ch])@ == silent(
                    line_length(sample_rate) as nat,
                ),
            final(self).write_pos == 0,
            final(self).lfo_phase == num(0),
    {
        let sr = sample_rate.narrow();
        self.sample_rate = sr;
        let len: usize = (num(MAX_DELAY_SECS) * sr).to_usize() + 1;
        self.buffer_len = if len < 4 { 4 } else { len };
        self.buffer = silent_lines(2, self.buffer_len);
        self.write_pos = 0;
        self.lfo_phase = num(0);
    }

    /// The angles whose sines `process` needs for a channel: for every sample, one per wet voice.
    pub fn lfo_angles(&self, params: &ChorusParams, ch: usize, n: usize) -> (r: Vec<Vec<Single>>)
        requires
            self.wf(),
            params.covers(ch + 1, n as int),
        ensures
            r@.len() == n,
            forall|i: int|
                0 <= i < n ==> (#[trigger] r@[i])@ == voice_angles(
                    self.clock().phase_at(params.rate@[ch as int]@, i as nat),
                    params.num_voices_spec(),
                    (params.num_voices_spec() - 1) as nat,
                ),
    {
        let mut r: Vec<Vec<Single>> = Vec::new();
        let ghost rate = params.rate@[ch as int]@;
        let voices = params.num_voices();
        let mut phase = self.lfo_phase;
        proof {
            assert(params.covers_channel(ch as int, n as int));
        }
        let mut i: usize = 0;
        while i < n
            invariant
                i <= n,
                ch < params.rate@.len(),
                rate == params.rate@[ch as int]@,
                rate.len() >= n,
                2 <= voices <= 5,
                phase == self.clock().phase_at(rate, i as nat),
                r@.len() == i,
                forall|k: int|
                    0 <= k < i ==> (#[trigger] r@[k])@ == voice_angles(
                        self.clock().phase_at(rate, k as nat),
                        voices,
                        (voices - 1) as nat,
                    ),
            decreases n - i,
        {
            let mut row: Vec<Single> = Vec::new();
            let mut offset = num(0);
            let mut voice: usize = 0;
            while voice < voices - 1
                invariant
                    voice <= voices - 1,
                    2 <= voices <= 5,
                    offset == offset_of(voices, voice as nat),
                    row@ == voice_angles(phase, voices, voice as nat),
                decreases voices - voice,
            {
                row.push(angle(voice_phase(phase, offset)));
                offset = next_offset(offset, voices);
                voice = voice + 1;
            }
            r.push(row);
            phase = turned(phase, params.rate[ch][i] / self.sample_rate);
            i = i + 1;
        }
        r
    }

    /// Works on one block. `sines` holds, for every channel, the sines of `lfo_angles`.
    pub fn process(
        &mut self,
        params: &ChorusParams,
        sines: &Vec<Vec<Vec<Single>>>,
        buffer: &mut AudioBuffer,
    )
        requires
            old(self).wf(),
            old(buffer).wf(),
            params.covers(old(self).active(*old(buffer)), old(buffer).samples as int),
            old(self).sines_cover(*params, sines@, *old(buffer)),
        ensures
            final(self).wf(),
            final(self).clock() == old(self).clock_after(*params, *old(buffer)),
            final(self).buffer@.len() == old(self).buffer@.len(),
            forall|ch: int|
                0 <= ch < old(self).active(*old(buffer)) ==> (#[trigger] final(self).buffer@[ch])@
                    == line_after(
                    old(self).clock(),
                    old(self).buffer@[ch]@,
                    old(buffer).incoming(ch),
                    old(buffer).samples as nat,
                ),
            forall|ch: int|
                old(self).active(*old(buffer)) <= ch < old(self).buffer@.len()
                    ==> #[trigger] final(self).buffer@[ch] == old(self).buffer@[ch],
            final(buffer).rewritten(*old(buffer), old(self).active(*old(buffer))),
            forall|ch: int|
                0 <= ch < old(self).active(*old(buffer)) ==> (#[trigger] final(buffer).output@[ch])@
                    == rendered(
                    old(self).clock(),
                    *params,
                    ch as usize,
                    sines@[ch]@,
                    old(self).buffer@[ch]@,
                    old(buffer).incoming(ch),
                    old(buffer).samples as nat,
                ),
    {
        let num_ch = lesser(buffer.channels(), self.buffer.len());
        let n = buffer.num_samples();
        let mut clock = Clock {
            sample_rate: self.sample_rate,
            len: self.buffer_len,
            write: self.write_pos,
            phase: self.lfo_phase,
        };
        let ghost start = *self;
        let ghost before = *buffer;
        let mut ch: usize = 0;
        while ch < num_ch
            invariant
                num_ch == start.active(before),
                ch <= num_ch,
                n == before.samples,
                start.wf(),
                before.wf(),
                params.covers(num_ch as int, n as int),
                start.sines_cover(*params, sines@, before),
                clock == start.clock(),
                self.clock() == start.clock(),
                self.wf(),
                self.buffer@.len() == start.buffer@.len(),
                forall|c: int|
                    0 <= c < ch ==> (#[trigger] self.buffer@[c])@ == line_after(
                        clock,
                        start.buffer@[c]@,
                        before.incoming(c),
                        n as nat,
                    ),
                forall|c: int|
                    ch <= c < start.buffer@.len() ==> #[trigger] self.buffer@[c]
                        == start.buffer@[c],
                buffer.rewritten(before, ch as int),
                forall|c: int|
                    0 <= c < ch ==> (#[trigger] buffer.output@[c])@ == rendered(
                        clock,
                        *params,
                        c as usize,
                        sines@[c]@,
                        start.buffer@[c]@,
                        before.incoming(c),
                        n as nat,
                    ),
            decreases num_ch - ch,
        {
            render(
                clock,
                params,
                ch,
                &sines[ch],
                &mut self.buffer[ch],
                &buffer.input[ch],
                &mut buffer.output[ch],
            );
            ch = ch + 1;
        }
        if num_ch > 0 {
            proof {
                assert(params.covers_channel(num_ch - 1, n as int));
            }
            clock.run(&params.rate[num_ch - 1], n);
            self.write_pos = clock.write;
            self.lfo_phase = clock.phase;
        }
    }
}

/// The angles of the first `n` wet voices, of `voices` in all, at an oscillator phase.
pub open spec fn voice_angles(phase: Single, voices: usize, n: nat) -> Seq<Single> {
    Seq::new(n, |v: int| angle(voice_phase(phase, offset_of(voices, v as nat))))
}

impl ChorusParams {
    /// Whether these are the controls that `whole` holds for a channel from sample `i` on, for `n`
    /// samples.
    pub open spec fn resumes(self, whole: ChorusParams, ch: int, i: nat, n: nat) -> bool {
        &&& resumes(self.delay@[ch]@, whole.delay@[ch]@, i, n)
        &&& resumes(self.width@[ch]@, whole.width@[ch]@, i, n)
        &&& resumes(self.depth@[ch]@, whole.depth@[ch]@, i, n)
        &&& resumes(self.rate@[ch]@, whole.rate@[ch]@, i, n)
        &&& self.voices == whole.voices
        &&& self.waveform == whole.waveform
        &&& self.interp == whole.interp
        &&& self.stereo == whole.stereo
    }
}

/// The voices sound the same at the same sample of one block and of its second part.
proof fn lemma_mix_joins(
    clock: Clock,
    whole: ChorusParams,
    part: ChorusParams,
    ch: usize,
    sines: Seq<Single>,
    line: Seq<Single>,
    dry: Single,
    i: nat,
    k: nat,
    n: nat,
    voices: nat,
)
    requires
        clock.wf(),
        part.resumes(whole, ch as int, i, n),
        k < n,
    ensures
        mixed(clock, whole, ch, sines, line, dry, i + k, voices) == mixed(
            clock.after(whole.rate@[ch as int]@, i),
            part,
            ch,
            sines,
            line,
            dry,
            k,
            voices,
        ),
    decreases voices,
{
    if voices > 0 {
        let c = ch as int;
        lemma_mix_joins(
            clock,
            whole,
            part,
            ch,
            sines,
            line,
            dry,
            i,
            k,
            n,
            (voices - 1) as nat,
        );
        law_clock_joins(clock, whole.rate@[c]@, part.rate@[c]@, i, k);
        assert(part.delay@[c]@[k as int] == whole.delay@[c]@[(i + k) as int]);
        assert(part.width@[c]@[k as int] == whole.width@[c]@[(i + k) as int]);
        assert(part.depth@[c]@[k as int] == whole.depth@[c]@[(i + k) as int]);
    }
}

/// What one block leaves on a line, its two parts leave one after the other.
pub proof fn law_line_joins(
    clock: Clock,
    rate: Seq<Single>,
    line: Seq<Single>,
    input: Seq<Single>,
    part_input: Seq<Single>,
    i: nat,
    j: nat,
)
    requires
        clock.wf(),
        resumes(part_input, input, i, j),
    ensures
        line_after(clock, line, input, i + j) == line_after(
            clock.after(rate, i),
            line_after(clock, line, input, i),
            part_input,
            j,
        ),
    decreases j,
{
    if j > 0 {
        let k = (j - 1) as nat;
        assert((i + j - 1) as nat == i + k);
        law_line_joins(clock, rate, line, input, part_input, i, k);
        lemma_ahead_twice(clock.write, i, k, clock.len);
        assert(part_input[k as int] == input[(i + k) as int]);
    }
}

/// What goes out in one block goes out in its two parts, one after the other.
pub proof fn law_output_joins(
    clock: Clock,
    whole: ChorusParams,
    part: ChorusParams,
    ch: usize,
    sines: Seq<Vec<Single>>,
    part_sines: Seq<Vec<Single>>,
    line: Seq<Single>,
    input: Seq<Single>,
    part_input: Seq<Single>,
    i: nat,
    j: nat,
)
    requires
        clock.wf(),
        part.resumes(whole, ch as int, i, j),
        resumes(part_sines, sines, i, j),
        resumes(part_input, input, i, j),
    ensures
        rendered(clock, whole, ch, sines, line, input, i + j) == rendered(
            clock,
            whole,
            ch,
            sines,
            line,
            input,
            i,
        ) + rendered(
            clock.after(whole.rate@[ch as int]@, i),
            part,
            ch,
            part_sines,
            line_after(clock, line, input, i),
            part_input,
            j,
        ),
{
    let first = rendered(clock, whole, ch, sines, line, input, i);
    let second = rendered(
        clock.after(whole.rate@[ch as int]@, i),
        part,
        ch,
        part_sines,
        line_after(clock, line, input, i),
        part_input,
        j,
    );
    let all = rendered(clock, whole, ch, sines, line, input, i + j);
    assert forall|m: int| 0 <= m < i + j implies #[trigger] all[m] == (first + second)[m] by {
        if m >= i {
            let k = (m - i) as nat;
            assert(m as nat == i + k);
            law_line_joins(clock, whole.rate@[ch as int]@, line, input, part_input, i, k);
            assert(part_sines[k as int] == sines[(i + k) as int]);
            assert(part_input[k as int] == input[(i + k) as int]);
            lemma_mix_joins(
                clock,
                whole,
                part,
                ch,
                sines[m]@,
                line_after(clock, line, input, m as nat),
                input[m],
                i,
                k,
                j,
                (whole.num_voices_spec() - 1) as nat,
            );
        }
    }
    assert(all =~= first + second);
}

/// Two voices in stereo are kept apart: the first channel goes out as it came in.
pub proof fn law_first_channel_dry(
    clock: Clock,
    params: ChorusParams,
    sines: Seq<Vec<Single>>,
    line: Seq<Single>,
    input: Seq<Single>,
    n: nat,
)
    requires
        params.stereo,
        params.num_voices_spec() == 2,
        n <= input.len(),
    ensures
        rendered(clock, params, 0, sines, line, input, n) == input.take(n as int),
{
    assert forall|i: int| 0 <= i < n implies #[trigger] rendered(
        clock,
        params,
        0,
        sines,
        line,
        input,
        n,
    )[i] == input[i] by {}
    assert(rendered(clock, params, 0, sines, line, input, n) =~= input.take(n as int));
}

/// Whatever the phase and the offset, as long as their sum is finite, a voice sees a phase on the
/// turn.
pub proof fn law_voice_phase_on_turn(phase: Single, offset: Single)
    requires
        (phase + offset).is_finite(),
    ensures
        within(voice_phase(phase, offset), num(0), num(ONE)),
{
    lemma_constants();
    let x = phase + offset;
    let r = x.remainder(num(ONE));
    lemma_remainder(x, num(ONE));
    lemma_compare(r, num(0));
    lemma_mod_bound(x.value(), unit());
    lemma_mod_bound(-x.value(), unit());
    if r.value() < 0 {
        lemma_abs(num(ONE));
        lemma_same(num(ONE).abs(), num(ONE));
        lemma_add(r, num(ONE), num(0), num(ONE));
    }
    lemma_within(voice_phase(phase, offset), num(0), num(ONE));
}

/// Whole turns change nothing: a voice whose phase and offset add up to any number of whole turns
/// more sees the same phase.
pub proof fn law_whole_turns_change_nothing(
    phase: Single,
    offset: Single,
    other_phase: Single,
    other_offset: Single,
    turns: int,
)
    requires
        (phase + offset).is_finite(),
        (other_phase + other_offset).is_finite(),
        (phase + offset).value() - (other_phase + other_offset).value() == turns * unit(),
    ensures
        alike(voice_phase(phase, offset), voice_phase(other_phase, other_offset)),
{
    let (x, y) = (phase + offset, other_phase + other_offset);
    if x.value() >= 0 {
        lemma_turns(x, y, turns);
    } else if y.value() >= 0 {
        assert((-turns) * unit() == -(turns * unit())) by (nonlinear_arith);
        lemma_turns(y, x, -turns);
    } else {
        lemma_constants();
        let (u, v, w) = (unit(), x.value(), y.value());
        assert(-w == u * turns + (-v)) by (nonlinear_arith)
            requires
                v - w == turns * u,
        ;
        lemma_mod_multiples_vanish(turns, -v, u);
        lemma_remainder(x, num(ONE));
        lemma_remainder(y, num(ONE));
        let (r, s) = (x.remainder(num(ONE)), y.remainder(num(ONE)));
        assert(r.value() == s.value());
        if r.value() == 0 {
            lemma_compare(r, num(0));
            lemma_compare(s, num(0));
        } else {
            lemma_same(r, s);
        }
    }
}

/// Whole turns away from a sum that is not negative.
proof fn lemma_turns(x: Single, y: Single, turns: int)
    requires
        x.is_finite(),
        y.is_finite(),
        x.value() >= 0,
        x.value() - y.value() == turns * unit(),
    ensures
        alike(x.rem_euclid(num(ONE)), y.rem_euclid(num(ONE))),
        alike(y.rem_euclid(num(ONE)), x.rem_euclid(num(ONE))),
{
    lemma_constants();
    lemma_remainder(x, num(ONE));
    lemma_remainder(y, num(ONE));
    let (r, s) = (x.remainder(num(ONE)), y.remainder(num(ONE)));
    let (u, v, w) = (unit(), x.value(), y.value());
    assert(v == u * turns + w) by (nonlinear_arith)
        requires
            v - w == turns * u,
    ;
    lemma_mod_multiples_vanish(turns, w, u);
    lemma_mod_bound(v, u);
    lemma_compare(r, num(0));
    lemma_compare(s, num(0));
    if s.value() < 0 {
        lemma_fundamental_div_mod(-w, u);
        let (q, m) = ((-w) / u, (-w) % u);
        assert(w == (-q - 1) * u + (u - m)) by (nonlinear_arith)
            requires
                -w == u * q + m,
        ;
        lemma_mod_bound(-w, u);
        lemma_fundamental_div_mod_converse(w, u, -q - 1, u - m);
        lemma_abs(num(ONE));
        lemma_same(num(ONE).abs(), num(ONE));
        lemma_add(s, num(ONE), r, r);
        lemma_same(s + num(ONE), r);
    } else if r.value() != 0 {
        if w < 0 {
            lemma_mod_bound(-w, u);
            lemma_fundamental_div_mod(-w, u);
            let q = (-w) / u;
            assert(w == (-q) * u + 0) by (nonlinear_arith)
                requires
                    -w == u * q,
            ;
            lemma_fundamental_div_mod_converse(w, u, -q, 0);
        }
        lemma_same(r, s);
    } else if w < 0 {
        lemma_mod_bound(-w, u);
    }
}

/// The weights of a wet voice on the two channels add up to one: exactly so once rounded, and
/// before that to within a part in 2^25.
pub proof fn law_weights_add_up(voices: usize, voice: usize)
    requires
        3 <= voices <= 5,
        voice <= voices - 2,
    ensures
        ({
            let (w, rest) = (weight(true, voices, voice, 0), weight(true, voices, voice, 1));
            &&& within(w, num(0), num(ONE))
            &&& within(rest, num(0), num(ONE))
            &&& w + rest == num(ONE)
            &&& 0x200_0000 * size(w.value() + rest.value() - unit()) <= unit()
        }),
{
    lemma_constants();
    let last = (voices - 2) as usize;
    lemma_from_usize(voice);
    lemma_from_usize(last);
    let (x, y, u) = (Single::from_usize(voice), Single::from_usize(last), unit());
    let w = weight(true, voices, voice, 0);
    let rest = weight(true, voices, voice, 1);
    if voice == 0 || voice == last {
        let whole = if voice == 0 { num(0) } else { num(ONE) };
        let (a, b, c) = (whole.value(), y.value(), x.value());
        assert(0 * u == 0) by (nonlinear_arith);
        assert(a * b == c * u) by (nonlinear_arith)
            requires
                voice == 0 ==> a == 0 && c == 0,
                voice != 0 ==> a == u && c == b,
        ;
        assert(b > 0) by (nonlinear_arith)
            requires
                b == last * u,
                last >= 1,
                u > 0,
        ;
        lemma_div(x, y, whole, whole);
        let other = if voice == 0 { num(ONE) } else { num(0) };
        lemma_sub(num(ONE), w, other, other);
        lemma_add(w, rest, num(ONE), num(ONE));
        lemma_same(w + rest, num(ONE));
    } else if last == 2 {
        assert(x.value() == u) by (nonlinear_arith)
            requires
                voice == 1,
                x.value() == voice * u,
        ;
        lemma_same(x, num(ONE));
        lemma_same(y, num(TWO));
        let h = num(HALF).value();
        assert(h * (2 * u) == u * u) by (nonlinear_arith)
            requires
                2 * h == u,
        ;
        lemma_div(x, y, num(HALF), num(HALF));
        lemma_sub(num(ONE), w, num(HALF), num(HALF));
        lemma_add(w, rest, num(ONE), num(ONE));
        lemma_same(w + rest, num(ONE));
    } else {
        lemma_same(y, num(0x4040_0000));
        if voice == 1 {
            assert(x.value() == u) by (nonlinear_arith)
                requires
                    voice == 1,
                    x.value() == voice * u,
            ;
            lemma_same(x, num(ONE));
        } else {
            lemma_same(x, num(TWO));
        }
        lemma_thirds();
    }
    lemma_within(w, num(0), num(ONE));
    lemma_within(rest, num(0), num(ONE));
}

/// The weights of the middle ones of five voices.
proof fn lemma_thirds()
    ensures
        ({
            let (w, rest) = (num(ONE) / num(0x4040_0000), num(ONE) - num(ONE) / num(0x4040_0000));
            &&& w.is_finite() && rest.is_finite()
            &&& 0 <= w.value() && 0 <= rest.value()
            &&& w.value() <= unit() && rest.value() <= unit()
            &&& w + rest == num(ONE)
            &&& 0x200_0000 * size(w.value() + rest.value() - unit()) <= unit()
        }),
        ({
            let (w, rest) = (num(TWO) / num(0x4040_0000), num(ONE) - num(TWO) / num(0x4040_0000));
            &&& w.is_finite() && rest.is_finite()
            &&& 0 <= w.value() && 0 <= rest.value()
            &&& w.value() <= unit() && rest.value() <= unit()
            &&& w + rest == num(ONE)
            &&& w.value() + rest.value() == unit()
        }),
{
    let f = Format::Single;
    lemma_constants();
    lemma2_to64();
    reveal(Single::spec_euclidean_or_real_div);
    reveal(Single::spec_add);
    reveal(Single::negated_spec);
    lemma_floor_log2(0x80_0000, 0xc0_0000, -1);
    assert(f.decode(0x3f80_0000) == (Number::Finite {
        negative: false,
        mantissa: 0x80_0000,
        exponent: -23,
    }));
    assert(f.decode(0x4040_0000) == (Number::Finite {
        negative: false,
        mantissa: 0xc0_0000,
        exponent: -22,
    }));
    assert(f.decode(0x4000_0000) == (Number::Finite {
        negative: false,
        mantissa: 0x80_0000,
        exponent: -22,
    }));
    assert(power(24) == 0x100_0000 && power(-24) == 1);
    assert(nearest_even(0x8000_0000_0000, 0xc0_0000) == 0xaa_aaab);
    assert(rounded(f, false, 0x80_0000, 0xc0_0000, -1) == 0x3eaa_aaab);
    assert(rounded(f, false, 0x80_0000, 0xc0_0000, 0) == 0x3f2a_aaab);
    assert(num(ONE) / num(0x4040_0000) == num(0x3eaa_aaab));
    lemma_floor_log2(22369621, 1, 24);
    assert(f.decode(0xbeaa_aaab) == (Number::Finite {
        negative: true,
        mantissa: 0xaa_aaab,
        exponent: -25,
    }));
    assert(power(2) == 4 && power(0) == 1 && power(1) == 2);
    assert(nearest_even(22369621, 2) == 11184810);
    assert(rounded(f, false, 22369621, 1, -25) == 0x3f2a_aaaa);
    assert(signed(false, 0x80_0000) * power(-23 - (-25)) + signed(true, 0xaa_aaab) * power(
        -25 - (-25),
    ) == 22369621) by {
        let (a, b) = (signed(true, 0xaa_aaab), power(-25 - (-25)) as int);
        let (c, d) = (signed(false, 0x80_0000), power(-23 - (-25)) as int);
        assert(a * b + c * d == 22369621) by (nonlinear_arith)
            requires
                a == -0xaa_aaab,
                b == 1,
                c == 0x80_0000,
                d == 4,
        ;
    }
    assert(sum(f, 0x3f80_0000, 0xbeaa_aaab) == 0x3f2a_aaaa);
    assert(num(ONE) - num(0x3eaa_aaab) == num(0x3f2a_aaaa));
    lemma_floor_log2(33554431, 1, 24);
    assert(f.decode(0x3eaa_aaab) == (Number::Finite {
        negative: false,
        mantissa: 0xaa_aaab,
        exponent: -25,
    }));
    assert(f.decode(0x3f2a_aaaa) == (Number::Finite {
        negative: false,
        mantissa: 0xaa_aaaa,
        exponent: -24,
    }));
    assert(rounded(f, false, 33554431, 1, -25) == 0x3f80_0000);
    assert(signed(false, 0xaa_aaab) * power(-25 - (-25)) + signed(false, 0xaa_aaaa) * power(
        -24 - (-25),
    ) == 33554431);
    assert(sum(f, 0x3eaa_aaab, 0x3f2a_aaaa) == 0x3f80_0000);
    assert(num(0x3eaa_aaab) + num(0x3f2a_aaaa) == num(ONE));
    assert(num(TWO) / num(0x4040_0000) == num(0x3f2a_aaab));
    lemma_constant(0x3eaa_aaab, 0x200_0000, 0xaa_aaab);
    lemma_constant(0x3f2a_aaaa, 0x100_0000, 0xaa_aaaa);
    lemma_constant(0x3f2a_aaab, 0x100_0000, 0xaa_aaab);
    lemma_constant(0x3eaa_aaaa, 0x200_0000, 0xaa_aaaa);
    lemma_sub(num(ONE), num(0x3f2a_aaab), num(0x3eaa_aaaa), num(0x3eaa_aaaa));
    lemma_add(num(0x3f2a_aaab), num(ONE) - num(0x3f2a_aaab), num(ONE), num(ONE));
    lemma_same(num(0x3f2a_aaab) + (num(ONE) - num(0x3f2a_aaab)), num(ONE));
}

/// What a wet voice reads from the line at sample `i`, at the depth of that sample.
pub open spec fn voiced_at(
    clock: Clock,
    params: ChorusParams,
    ch: usize,
    sines: Seq<Single>,
    line: Seq<Single>,
    i: nat,
    voice: nat,
) -> Single {
    read_line(
        line,
        tap_at(clock, params, ch as int, voice, sines[voice as int], i),
        params.interp,
    ) * params.depth@[ch as int]@[i as int]
}

/// The values that the first `voices` wet voices add to a channel at sample `i`, summed.
pub open spec fn wet_at(
    clock: Clock,
    params: ChorusParams,
    ch: usize,
    sines: Seq<Single>,
    line: Seq<Single>,
    i: nat,
    voices: nat,
) -> int
    decreases voices,
{
    if voices == 0 {
        0
    } else {
        let v = (voices - 1) as nat;
        wet_at(clock, params, ch, sines, line, i, v) + (voiced_at(
            clock,
            params,
            ch,
            sines,
            line,
            i,
            v,
        ) * weight(params.stereo, params.num_voices_spec(), v as usize, ch)).value()
    }
}

/// How loud the first `voices` wet voices are at sample `i`, summed.
pub open spec fn loudness_at(
    clock: Clock,
    params: ChorusParams,
    ch: usize,
    sines: Seq<Single>,
    line: Seq<Single>,
    i: nat,
    voices: nat,
) -> int
    decreases voices,
{
    if voices == 0 {
        0
    } else {
        let v = (voices - 1) as nat;
        loudness_at(clock, params, ch, sines, line, i, v) + size(
            voiced_at(clock, params, ch, sines, line, i, v).value(),
        )
    }
}

impl ChorusParams {
    /// Whether these are the controls that `other` has on its first channel, on a channel of their
    /// own, but for the stereo switch.
    pub open spec fn agrees(self, other: ChorusParams, ch: int) -> bool {
        &&& self.delay@[ch]@ == other.delay@[0]@
        &&& self.width@[ch]@ == other.width@[0]@
        &&& self.depth@[ch]@ == other.depth@[0]@
        &&& self.rate@[ch]@ == other.rate@[0]@
        &&& self.voices == other.voices
        &&& self.waveform == other.waveform
        &&& self.interp == other.interp
    }
}

/// What the wet voices add to the two channels in stereo adds up to what they add in mono, but for
/// rounding: it is off by no more than two parts in 2^23 of the voices, and three of the least
/// numbers for each.
pub proof fn law_stereo_adds_up_to_mono(
    clock: Clock,
    stereo: ChorusParams,
    mono: ChorusParams,
    sines: Seq<Single>,
    line: Seq<Single>,
    i: nat,
    voices: nat,
)
    requires
        stereo.stereo,
        !mono.stereo,
        stereo.num_voices_spec() > 2,
        stereo.agrees(mono, 0),
        stereo.agrees(mono, 1),
        voices < stereo.num_voices_spec(),
        forall|v: nat|
            v < voices ==> (#[trigger] voiced_at(
                clock,
                mono,
                0,
                sines,
                line,
                i,
                v,
            )).is_finite(),
    ensures
        0x80_0000 * size(
            wet_at(clock, stereo, 0, sines, line, i, voices) + wet_at(
                clock,
                stereo,
                1,
                sines,
                line,
                i,
                voices,
            ) - wet_at(clock, mono, 0, sines, line, i, voices),
        ) <= 2 * loudness_at(clock, mono, 0, sines, line, i, voices) + 0x180_0000 * voices,
    decreases voices,
{
    if voices > 0 {
        let v = (voices - 1) as nat;
        law_stereo_adds_up_to_mono(clock, stereo, mono, sines, line, i, v);
        let s = voiced_at(clock, mono, 0, sines, line, i, v);
        assert(s.is_finite());
        assert(voiced_at(clock, stereo, 0, sines, line, i, v) == s);
        assert(voiced_at(clock, stereo, 1, sines, line, i, v) == s);
        law_voice_adds_up(stereo.num_voices_spec(), v as usize, s);
    }
}

/// What a wet voice adds to the two channels in stereo adds up to what it adds in mono, but for
/// rounding.
pub proof fn law_voice_adds_up(voices: usize, voice: usize, voiced: Single)
    requires
        3 <= voices <= 5,
        voice <= voices - 2,
        voiced.is_finite(),
    ensures
        (voiced * weight(false, voices, voice, 0)).value() == voiced.value(),
        0x80_0000 * size(
            (voiced * weight(true, voices, voice, 0)).value() + (voiced * weight(
                true,
                voices,
                voice,
                1,
            )).value() - voiced.value(),
        ) <= 2 * size(voiced.value()) + 0x180_0000,
{
    lemma_constants();
    lemma_finite_number(voiced);
    lemma_times_one(voiced);
    law_mul_commutes(voiced, num(ONE));
    law_weights_add_up(voices, voice);
    let (w, rest) = (weight(true, voices, voice, 0), weight(true, voices, voice, 1));
    lemma_within(w, num(0), num(ONE));
    lemma_within(rest, num(0), num(ONE));
    lemma_abs(voiced);
    let (s, a, b, u) = (voiced.value(), w.value(), rest.value(), unit());
    let t = size(s);
    assert(size(s * a) <= t * u && size(s * b) <= t * u && size(s * a) == t * a && size(s * b) == t
        * b) by (nonlinear_arith)
        requires
            0 <= a <= u,
            0 <= b <= u,
            t == size(s),
    ;
    lemma_mul_error(voiced, w, voiced.abs());
    lemma_mul_error(voiced, rest, voiced.abs());
    let (p, q) = ((voiced * w).value(), (voiced * rest).value());
    let d = a + b - u;
    assert(0x200_0000 * size(s * d) <= t * u) by (nonlinear_arith)
        requires
            0x200_0000 * size(d) <= u,
            t == size(s),
    ;
    assert(s * a + s * b == s * u + s * d && t * a + t * b <= t * u + size(s * d))
        by (nonlinear_arith)
        requires
            d == a + b - u,
            t == size(s),
            0 <= a,
            0 <= b,
    ;
    let (x, y, z, o) = (s * a, s * b, s * u, t * u);
    let (c, e) = (p * u, q * u);
    assert(0x80_0000 * size(c - x) <= t * a + 0x80_0002 * u);
    assert(0x80_0000 * size(e - y) <= t * b + 0x80_0002 * u);
    assert(0x80_0000 * size(x + y - z) <= o);
    assert(0x80_0000 * size(c + e - z) <= 2 * o + 0x180_0000 * u);
    assert(0x80_0000 * size(p + q - s) <= 2 * t + 0x180_0000) by (nonlinear_arith)
        requires
            0x80_0000 * size(p * u + q * u - s * u) <= 2 * (t * u) + 0x180_0000 * u,
            u > 0,
    ;
}


/// In mono the two channels go out alike, where the same goes in.
pub proof fn law_mono_channels_alike(
    clock: Clock,
    params: ChorusParams,
    sines: Seq<Vec<Single>>,
    line: Seq<Single>,
    input: Seq<Single>,
    n: nat,
)
    requires
        !params.stereo,
        params.agrees(params, 1),
    ensures
        rendered(clock, params, 0, sines, line, input, n) == rendered(
            clock,
            params,
            1,
            sines,
            line,
            input,
            n,
        ),
{
    assert forall|i: int| 0 <= i < n implies #[trigger] rendered(
        clock,
        params,
        0,
        sines,
        line,
        input,
        n,
    )[i] == rendered(clock, params, 1, sines, line, input, n)[i] by {
        lemma_mono(
            clock,
            params,
            sines[i]@,
            line_after(clock, line, input, i as nat),
            input[i],
            i as nat,
            (params.num_voices_spec() - 1) as nat,
        );
    }
    assert(rendered(clock, params, 0, sines, line, input, n) =~= rendered(
        clock,
        params,
        1,
        sines,
        line,
        input,
        n,
    ));
}

proof fn lemma_mono(
    clock: Clock,
    params: ChorusParams,
    sines: Seq<Single>,
    line: Seq<Single>,
    dry: Single,
    i: nat,
    voices: nat,
)
    requires
        !params.stereo,
        params.agrees(params, 1),
    ensures
        mixed(clock, params, 0, sines, line, dry, i, voices) == mixed(
            clock,
            params,
            1,
            sines,
            line,
            dry,
            i,
            voices,
        ),
    decreases voices,
{
    if voices > 0 {
        lemma_mono(clock, params, sines, line, dry, i, (voices - 1) as nat);
    }
}

/// The dry sample and the first `voices` wet voices, none of them louder than `m`.
pub open spec fn no_louder(
    clock: Clock,
    params: ChorusParams,
    ch: usize,
    sines: Seq<Single>,
    line: Seq<Single>,
    dry: Single,
    i: nat,
    voices: nat,
    m: int,
) -> bool {
    &&& dry.is_finite() && size(dry.value()) <= m
    &&& forall|v: nat|
        v < voices ==> (#[trigger] voiced_at(clock, params, ch, sines, line, i, v)).is_finite()
            && size(voiced_at(clock, params, ch, sines, line, i, v).value()) <= m
}

/// What goes out is the dry sample and what the wet voices add, but for the rounding of the sums.
proof fn lemma_mixed_close(
    clock: Clock,
    params: ChorusParams,
    ch: usize,
    sines: Seq<Single>,
    line: Seq<Single>,
    dry: Single,
    i: nat,
    voices: nat,
    m: int,
    top: Single,
)
    requires
        params.num_voices_spec() > 2,
        voices < params.num_voices_spec(),
        ch < 2,
        no_louder(clock, params, ch, sines, line, dry, i, voices, m),
        top.is_finite(),
        10 * m <= top.value(),
    ensures
        mixed(clock, params, ch, sines, line, dry, i, voices).is_finite(),
        size(mixed(clock, params, ch, sines, line, dry, i, voices).value()) <= m + 2 * (voices
            * m),
        0x80_0000 * size(
            mixed(clock, params, ch, sines, line, dry, i, voices).value() - dry.value() - wet_at(
                clock,
                params,
                ch,
                sines,
                line,
                i,
                voices,
            ),
        ) <= 8 * (voices * m),
    decreases voices,
{
    assert(m >= 0);
    assert(0 * m == 0) by (nonlinear_arith);
    if voices > 0 {
        let v = (voices - 1) as nat;
        lemma_mixed_close(clock, params, ch, sines, line, dry, i, v, m, top);
        let acc = mixed(clock, params, ch, sines, line, dry, i, v);
        let s = voiced_at(clock, params, ch, sines, line, i, v);
        let w = weight(params.stereo, params.num_voices_spec(), v as usize, ch);
        assert(s.is_finite() && size(s.value()) <= m);
        lemma_constants();
        assert(w.is_finite() && 0 <= w.value() <= unit()) by {
            if params.stereo {
                law_weights_add_up(params.num_voices_spec(), v as usize);
                lemma_within(w, num(0), num(ONE));
            }
        }
        lemma_shrunk(s, w);
        assert(voices * m == v * m + m && v * m <= 3 * m && v * m >= 0) by (nonlinear_arith)
            requires
                voices == v + 1,
                voices <= 4,
                m >= 0,
        ;
        lemma_add_error(acc, s * w, top);
        assert(mixed(clock, params, ch, sines, line, dry, i, voices) == acc + s * w);
    }
}

/// In stereo the two channels go out, the dry sample aside, as two parts of what goes out in mono,
/// but for rounding: they add up to it to within 200 parts in 2^23 of the loudest voice.
pub proof fn law_stereo_outputs_add_up(
    clock: Clock,
    stereo: ChorusParams,
    mono: ChorusParams,
    sines: Seq<Vec<Single>>,
    line: Seq<Single>,
    input: Seq<Single>,
    m: int,
    top: Single,
    i: nat,
)
    requires
        stereo.stereo,
        !mono.stereo,
        stereo.num_voices_spec() > 2,
        stereo.agrees(mono, 0),
        stereo.agrees(mono, 1),
        no_louder(
            clock,
            mono,
            0,
            sines[i as int]@,
            line_after(clock, line, input, i),
            input[i as int],
            i,
            (mono.num_voices_spec() - 1) as nat,
            m,
        ),
        m >= 0x100_0000,
        top.is_finite(),
        10 * m <= top.value(),
    ensures
        ({
            let left = rendered(clock, stereo, 0, sines, line, input, i + 1)[i as int].value();
            let right = rendered(clock, stereo, 1, sines, line, input, i + 1)[i as int].value();
            let both = rendered(clock, mono, 0, sines, line, input, i + 1)[i as int].value();
            let dry = input[i as int].value();
            0x80_0000 * size((left - dry) + (right - dry) - (both - dry)) <= 200 * m
        }),
{
    let n = (mono.num_voices_spec() - 1) as nat;
    let held = line_after(clock, line, input, i);
    let dry = input[i as int];
    let sine = sines[i as int]@;
    assert(stereo.num_voices_spec() == mono.num_voices_spec());
    assert forall|v: nat| v < n implies #[trigger] voiced_at(clock, stereo, 0, sine, held, i, v)
        == voiced_at(clock, mono, 0, sine, held, i, v) by {}
    assert forall|v: nat| v < n implies #[trigger] voiced_at(clock, stereo, 1, sine, held, i, v)
        == voiced_at(clock, mono, 0, sine, held, i, v) by {}
    lemma_mixed_close(clock, stereo, 0, sine, held, dry, i, n, m, top);
    lemma_mixed_close(clock, stereo, 1, sine, held, dry, i, n, m, top);
    lemma_mixed_close(clock, mono, 0, sine, held, dry, i, n, m, top);
    law_stereo_adds_up_to_mono(clock, stereo, mono, sine, held, i, n);
    lemma_loudness(clock, mono, sine, held, dry, i, n, m);
    assert(n * m <= 4 * m && 0x180_0000 * n <= 0x600_0000) by (nonlinear_arith)
        requires
            n <= 4,
            m >= 0,
    ;
    let (a, b, c, d) = (
        mixed(clock, stereo, 0, sine, held, dry, i, n).value(),
        mixed(clock, stereo, 1, sine, held, dry, i, n).value(),
        mixed(clock, mono, 0, sine, held, dry, i, n).value(),
        dry.value(),
    );
    let (x, y, z) = (
        wet_at(clock, stereo, 0, sine, held, i, n),
        wet_at(clock, stereo, 1, sine, held, i, n),
        wet_at(clock, mono, 0, sine, held, i, n),
    );
    assert((a - d) + (b - d) - (c - d) == (a - d - x) + (b - d - y) - (c - d - z) + (x + y - z));
    assert(0x80_0000 * size(a - d - x) <= 32 * m);
    assert(0x80_0000 * size(b - d - y) <= 32 * m);
    assert(0x80_0000 * size(c - d - z) <= 32 * m);
    assert(0x80_0000 * size(x + y - z) <= 8 * m + 0x600_0000);
}

proof fn lemma_loudness(
    clock: Clock,
    params: ChorusParams,
    sines: Seq<Single>,
    line: Seq<Single>,
    dry: Single,
    i: nat,
    voices: nat,
    m: int,
)
    requires
        no_louder(clock, params, 0, sines, line, dry, i, voices, m),
    ensures
        loudness_at(clock, params, 0, sines, line, i, voices) <= voices * m,
    decreases voices,
{
    assert(0 * m == 0) by (nonlinear_arith);
    if voices > 0 {
        let v = (voices - 1) as nat;
        lemma_loudness(clock, params, sines, line, dry, i, v, m);
        assert(size(voiced_at(clock, params, 0, sines, line, i, v).value()) <= m);
        assert(voices * m == v * m + m) by (nonlinear_arith)
            requires
                voices == v + 1,
        ;
    }
}


/// Whatever the phase and the offset, as long as their sum is finite, the oscillator of a voice
/// lies between 0 and 1.
pub proof fn law_voice_unipolar(phase: Single, offset: Single, waveform: Waveform, sine: Single)
    requires
        (phase + offset).is_finite(),
        within(sine, num(MINUS_ONE), num(ONE)),
    ensures
        within(lfo(voice_phase(phase, offset), waveform, sine), num(0), num(ONE)),
{
    law_voice_phase_on_turn(phase, offset);
    law_lfo_unipolar(voice_phase(phase, offset), waveform, sine);
}

/// Whole turns leave the oscillator of a voice as it is.
pub proof fn law_voice_repeats(
    phase: Single,
    offset: Single,
    other_phase: Single,
    other_offset: Single,
    turns: int,
    waveform: Waveform,
    sine: Single,
)
    requires
        (phase + offset).is_finite(),
        (other_phase + other_offset).is_finite(),
        (phase + offset).value() - (other_phase + other_offset).value() == turns * unit(),
    ensures
        lfo(voice_phase(phase, offset), waveform, sine) == lfo(
            voice_phase(other_phase, other_offset),
            waveform,
            sine,
        ),
{
    law_whole_turns_change_nothing(phase, offset, other_phase, other_offset, turns);
    law_lfo_of_like_phases(
        voice_phase(phase, offset),
        voice_phase(other_phase, other_offset),
        waveform,
        sine,
    );
}

} // verus!
