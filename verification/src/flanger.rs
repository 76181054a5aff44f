//! Flanger: a short modulated delay summed with the dry signal.
use crate::audio::{lesser, put, resumes, silent, silent_lines, AudioBuffer};
use crate::float::double::Double;
use crate::float::single::{num, Single};
use crate::modulation::{
    angle, law_clock_joins, lfo, read_line, sample_at, stereo_phase, turned, Clock, MINUS_ONE, ONE,
};
use crate::ring::{behind, tap, Tap, MAX_LINE};
use vstd::prelude::*;

pub use crate::modulation::{Interpolation, Waveform};

verus! {

/// The longest delay, 0.04 seconds.
pub const MAX_DELAY_SECS: u32 = 0x3d23_d70a;

/// The sample rate before the first reset, 44100.
pub const DEFAULT_RATE: u32 = 0x472c_4400;

/// What the controls say over one block. The lists hold one value per sample.
pub struct FlangerParams {
    pub delay: Vec<Single>,
    pub width: Vec<Single>,
    pub depth: Vec<Single>,
    pub feedback: Vec<Single>,
    pub inverted: bool,
    pub rate: Vec<Single>,
    pub waveform: Waveform,
    pub interp: Interpolation,
    pub stereo: bool,
}

impl FlangerParams {
    /// Every list reaches over `n` samples.
    pub open spec fn covers(self, n: int) -> bool {
        &&& self.delay@.len() >= n
        &&& self.width@.len() >= n
        &&& self.depth@.len() >= n
        &&& self.feedback@.len() >= n
        &&& self.rate@.len() >= n
    }

    pub open spec fn polarity_spec(self) -> Single {
        if self.inverted { num(MINUS_ONE) } else { num(ONE) }
    }

    /// The factor that inverts the delayed signal or leaves it.
    fn polarity(&self) -> (r: Single)
        ensures
            r == self.polarity_spec(),
    {
        if self.inverted { num(MINUS_ONE) } else { num(ONE) }
    }
}

pub struct Flanger {
    pub sample_rate: Single,
    pub buffer: Vec<Vec<Single>>,
    pub buffer_len: usize,
    pub write_pos: usize,
    pub lfo_phase: Single,
}

/// The length that a reset gives the delay lines.
pub open spec fn line_length(sample_rate: Double) -> int {
    let len = (num(MAX_DELAY_SECS) * sample_rate.narrow()).to_usize() + 1;
    if len < 4 { 4 } else { len }
}

/// Where a channel reads its line at sample `i`, `sine` being the sine of its angle there.
pub open spec fn tap_at(
    clock: Clock,
    params: FlangerParams,
    ch: usize,
    sine: Single,
    i: nat,
) -> Tap {
    let phase = stereo_phase(clock.phase_at(params.rate@, i), params.stereo, ch);
    let sweep = lfo(phase, params.waveform, sine);
    let delay = (params.delay@[i as int] + params.width@[i as int] * sweep) * clock.sample_rate;
    tap(behind(clock.write_at(i), delay, clock.len), clock.len)
}

/// The line of a channel after `i` samples: every sample is put in with the delayed one fed back
/// into it.
pub open spec fn line_after(
    clock: Clock,
    params: FlangerParams,
    ch: usize,
    sines: Seq<Single>,
    line: Seq<Single>,
    input: Seq<Single>,
    i: nat,
) -> Seq<Single>
    decreases i,
{
    if i == 0 {
        line
    } else {
        let k = (i - 1) as nat;
        let before = line_after(clock, params, ch, sines, line, input, k);
        let place = tap_at(clock, params, ch, sines[k as int], k);
        let delayed = read_line(before, place, params.interp);
        before.update(
            clock.write_at(k) as int,
            input[k as int] + delayed * params.feedback@[k as int],
        )
    }
}

/// The delayed sample of a channel at sample `i`.
pub open spec fn delayed_at(
    clock: Clock,
    params: FlangerParams,
    ch: usize,
    sines: Seq<Single>,
    line: Seq<Single>,
    input: Seq<Single>,
    i: nat,
) -> Single {
    read_line(
        line_after(clock, params, ch, sines, line, input, i),
        tap_at(clock, params, ch, sines[i as int], i),
        params.interp,
    )
}

/// The first `n` samples that go out on a channel: the dry signal and, weighted, the delayed one.
pub open spec fn rendered(
    clock: Clock,
    params: FlangerParams,
    ch: usize,
    sines: Seq<Single>,
    line: Seq<Single>,
    input: Seq<Single>,
    n: nat,
) -> Seq<Single> {
    Seq::new(
        n,
        |i: int|
            input[i] + delayed_at(clock, params, ch, sines, line, input, i as nat)
                * params.depth@[i] * params.polarity_spec(),
    )
}

/// Works on one channel: takes the line through the block and writes what goes out.
fn render(
    clock: Clock,
    params: &FlangerParams,
    ch: usize,
    sines: &Vec<Single>,
    line: &mut Vec<Single>,
    input: &Vec<Single>,
    out: &mut Vec<Single>,
)
    requires
        old(out)@.len() == input@.len(),
        clock.wf(),
        old(line)@.len() == clock.len,
        params.covers(input@.len() as int),
        sines@.len() >= input@.len(),
    ensures
        final(line)@.len() == clock.len,
        final(line)@ == line_after(
            clock,
            *params,
            ch,
            sines@,
            old(line)@,
            input@,
            input@.len() as nat,
        ),
        final(out)@ == rendered(
            clock,
            *params,
            ch,
            sines@,
            old(line)@,
            input@,
            input@.len() as nat,
        ),
{
    let ghost first = line@;
    let n = input.len();
    let polarity = params.polarity();
    let mut now = clock;
    proof {
        clock.lemma_start(params.rate@);
    }
    let mut i: usize = 0;
    while i < n
        invariant
            i <= n,
            n == input@.len(),
            clock.wf(),
            now.wf(),
            params.covers(n as int),
            sines@.len() >= n,
            polarity == params.polarity_spec(),
            now == clock.after(params.rate@, i as nat),
            line@.len() == clock.len,
            line@ == line_after(clock, *params, ch, sines@, first, input@, i as nat),
            out@.len() == n,
            out@.take(i as int) == rendered(clock, *params, ch, sines@, first, input@, i as nat),
        decreases n - i,
    {
        let phase = stereo_phase(now.phase, params.stereo, ch);
        let sweep = lfo(phase, params.waveform, sines[i]);
        let delay = (params.delay[i] + params.width[i] * sweep) * now.sample_rate;
        let place = tap(behind(now.write, delay, now.len), now.len);
        let delayed = sample_at(line, place, params.interp);
        put(out, i, input[i] + delayed * params.depth[i] * polarity);
        line[now.write] = input[i] + delayed * params.feedback[i];
        proof {
            clock.lemma_tick(params.rate@, i as nat);
        }
        now.tick(params.rate[i]);
        i = i + 1;
    }
    assert(out@.take(n as int) == out@);
}

impl Flanger {
    pub open spec fn wf(self) -> bool {
        &&& self.clock().wf()
        &&& self.buffer@.len() <= 2
        &&& forall|ch: int|
            0 <= ch < self.buffer@.len() ==> (#[trigger] self.buffer@[ch])@.len()
                == self.buffer_len
    }

    /// Where the effect stands, its lines aside.
    pub open spec fn clock(self) -> Clock {
        Clock {
            sample_rate: self.sample_rate,
            len: self.buffer_len,
            write: self.write_pos,
            phase: self.lfo_phase,
        }
    }

    /// How many channels of a block are worked on.
    pub open spec fn active(self, buffer: AudioBuffer) -> int {
        lesser(buffer.input@.len() as usize, self.buffer@.len() as usize) as int
    }

    /// Without lines, before the first reset.
    pub fn new() -> (r: Flanger)
        ensures
            r.wf(),
            r.sample_rate == num(DEFAULT_RATE),
            r.buffer@.len() == 0,
            r.buffer_len == 1,
            r.write_pos == 0,
            r.lfo_phase == num(0),
    {
        Flanger {
            sample_rate: num(DEFAULT_RATE),
            buffer: Vec::new(),
            buffer_len: 1,
            write_pos: 0,
            lfo_phase: num(0),
        }
    }

    /// Silences two lines of the length that the sample rate asks for, and starts over.
    pub fn reset(&mut self, sample_rate: Double)
        requires
            line_length(sample_rate) <= MAX_LINE,
        ensures
            final(self).wf(),
            final(self).sample_rate == sample_rate.narrow(),
            final(self).buffer_len == line_length(sample_rate),
            final(self).buffer@.len() == 2,
            forall|ch: int|
                0 <= ch < 2 ==> (#[trigger] final(self).buffer@[ch])@ == silent(
                    line_length(sample_rate) as nat,
                ),
            final(self).write_pos == 0,
            final(self).lfo_phase == num(0),
    {
        let sr = sample_rate.narrow();
        self.sample_rate = sr;
        let len: usize = (num(MAX_DELAY_SECS) * sr).to_usize() + 1;
        self.buffer_len = if len < 4 { 4 } else { len };
        self.buffer = silent_lines(2, self.buffer_len);
        self.write_pos = 0;
        self.lfo_phase = num(0);
    }

    /// The angles, one per sample, whose sines `process` needs for a channel.
    pub fn lfo_angles(&self, params: &FlangerParams, ch: usize, n: usize) -> (r: Vec<Single>)
        requires
            self.wf(),
            params.covers(n as int),
        ensures
            r@ == Seq::new(
                n as nat,
                |i: int|
                    angle(
                        stereo_phase(
                            self.clock().phase_at(params.rate@, i as nat),
                            params.stereo,
                            ch,
                        ),
                    ),
            ),
    {
        let mut r: Vec<Single> = Vec::new();
        let mut phase = self.lfo_phase;
        let mut i: usize = 0;
        while i < n
            invariant
                i <= n,
                params.covers(n as int),
                phase == self.clock().phase_at(params.rate@, i as nat),
                r@ == Seq::new(
                    i as nat,
                    |k: int|
                        angle(
                            stereo_phase(
                                self.clock().phase_at(params.rate@, k as nat),
                                params.stereo,
                                ch,
                            ),
                        ),
                ),
            decreases n - i,
        {
            r.push(angle(stereo_phase(phase, params.stereo, ch)));
            phase = turned(phase, params.rate[i] / self.sample_rate);
            i = i + 1;
        }
        r
    }

    /// Works on one block. `sines` holds, for every channel, the sines of `lfo_angles`.
    pub fn process(
        &mut self,
        params: &FlangerParams,
        sines: &Vec<Vec<Single>>,
        buffer: &mut AudioBuffer,
    )
        requires
            old(self).wf(),
            old(buffer).wf(),
            params.covers(old(buffer).samples as int),
            sines@.len() >= old(self).active(*old(buffer)),
            forall|ch: int|
                0 <= ch < old(self).active(*old(buffer)) ==> (#[trigger] sines@[ch])@.len()
                    >= old(buffer).samples,
        ensures
            final(self).wf(),
            final(self).clock() == old(self).clock().after(
                params.rate@,
                old(buffer).samples as nat,
            ),
            final(self).buffer@.len() == old(self).buffer@.len(),
            forall|ch: int|
                0 <= ch < old(self).active(*old(buffer)) ==> (#[trigger] final(self).buffer@[ch])@
                    == line_after(
                    old(self).clock(),
                    *params,
                    ch as usize,
                    sines@[ch]@,
                    old(self).buffer@[ch]@,
                    old(buffer).incoming(ch),
                    old(buffer).samples as nat,
                ),
            forall|ch: int|
                old(self).active(*old(buffer)) <= ch < old(self).buffer@.len()
                    ==> #[trigger] final(self).buffer@[ch] == old(self).buffer@[ch],
            final(buffer).rewritten(*old(buffer), old(self).active(*old(buffer))),
            forall|ch: int|
                0 <= ch < old(self).active(*old(buffer)) ==> (#[trigger] final(buffer).output@[ch])@
                    == rendered(
                    old(self).clock(),
                    *params,
                    ch as usize,
                    sines@[ch]@,
                    old(self).buffer@[ch]@,
                    old(buffer).incoming(ch),
                    old(buffer).samples as nat,
                ),
    {
        let num_ch = lesser(buffer.channels(), self.buffer.len());
        let n = buffer.num_samples();
        let mut clock = Clock {
            sample_rate: self.sample_rate,
            len: self.buffer_len,
            write: self.write_pos,
            phase: self.lfo_phase,
        };
        let ghost start = *self;
        let ghost before = *buffer;
        let mut ch: usize = 0;
        while ch < num_ch
            invariant
                num_ch == start.active(before),
                ch <= num_ch,
                n == before.samples,
                start.wf(),
                before.wf(),
                params.covers(n as int),
                sines@.len() >= num_ch,
                forall|c: int| 0 <= c < num_ch ==> (#[trigger] sines@[c])@.len() >= n,
                clock == start.clock(),
                self.clock() == start.clock(),
                self.wf(),
                self.buffer@.len() == start.buffer@.len(),
                forall|c: int|
                    0 <= c < ch ==> (#[trigger] self.buffer@[c])@ == line_after(
                        clock,
                        *params,
                        c as usize,
                        sines@[c]@,
                        start.buffer@[c]@,
                        before.incoming(c),
                        n as nat,
                    ),
                forall|c: int|
                    ch <= c < start.buffer@.len() ==> #[trigger] self.buffer@[c]
                        == start.buffer@[c],
                buffer.rewritten(before, ch as int),
                forall|c: int|
                    0 <= c < ch ==> (#[trigger] buffer.output@[c])@ == rendered(
                        clock,
                        *params,
                        c as usize,
                        sines@[c]@,
                        start.buffer@[c]@,
                        before.incoming(c),
                        n as nat,
                    ),
            decreases num_ch - ch,
        {
            render(
                clock,
                params,
                ch,
                &sines[ch],
                &mut self.buffer[ch],
                &buffer.input[ch],
                &mut buffer.output[ch],
            );
            ch = ch + 1;
        }
        clock.run(&params.rate, n);
        self.write_pos = clock.write;
        self.lfo_phase = clock.phase;
    }
}

impl FlangerParams {
    /// Whether these are the controls that `whole` holds from sample `i` on, for `n` samples.
    pub open spec fn resumes(self, whole: FlangerParams, i: nat, n: nat) -> bool {
        &&& resumes(self.delay@, whole.delay@, i, n)
        &&& resumes(self.width@, whole.width@, i, n)
        &&& resumes(self.depth@, whole.depth@, i, n)
        &&& resumes(self.feedback@, whole.feedback@, i, n)
        &&& resumes(self.rate@, whole.rate@, i, n)
        &&& self.inverted == whole.inverted
        &&& self.waveform == whole.waveform
        &&& self.interp == whole.interp
        &&& self.stereo == whole.stereo
    }
}

/// Reading is the same at the same sample of one block and of its second part.
proof fn lemma_tap_joins(
    clock: Clock,
    whole: FlangerParams,
    part: FlangerParams,
    ch: usize,
    sine: Single,
    i: nat,
    k: nat,
    n: nat,
)
    requires
        clock.wf(),
        part.resumes(whole, i, n),
        k < n,
    ensures
        tap_at(clock, whole, ch, sine, i + k) == tap_at(
            clock.after(whole.rate@, i),
            part,
            ch,
            sine,
            k,
        ),
        clock.write_at(i + k) == clock.after(whole.rate@, i).write_at(k),
{
    law_clock_joins(clock, whole.rate@, part.rate@, i, k);
    assert(part.delay@[k as int] == whole.delay@[(i + k) as int]);
    assert(part.width@[k as int] == whole.width@[(i + k) as int]);
}

/// What one block leaves on a line, its two parts leave one after the other.
pub proof fn law_line_joins(
    clock: Clock,
    whole: FlangerParams,
    part: FlangerParams,
    ch: usize,
    sines: Seq<Single>,
    part_sines: Seq<Single>,
    line: Seq<Single>,
    input: Seq<Single>,
    part_input: Seq<Single>,
    i: nat,
    j: nat,
)
    requires
        clock.wf(),
        part.resumes(whole, i, j),
        resumes(part_sines, sines, i, j),
        resumes(part_input, input, i, j),
    ensures
        line_after(clock, whole, ch, sines, line, input, i + j) == line_after(
            clock.after(whole.rate@, i),
            part,
            ch,
            part_sines,
            line_after(clock, whole, ch, sines, line, input, i),
            part_input,
            j,
        ),
    decreases j,
{
    if j > 0 {
        let k = (j - 1) as nat;
        assert((i + j - 1) as nat == i + k);
        law_line_joins(
            clock,
            whole,
            part,
            ch,
            sines,
            part_sines,
            line,
            input,
            part_input,
            i,
            k,
        );
        lemma_tap_joins(clock, whole, part, ch, sines[(i + k) as int], i, k, j);
        assert(part_sines[k as int] == sines[(i + k) as int]);
        assert(part_input[k as int] == input[(i + k) as int]);
        assert(part.feedback@[k as int] == whole.feedback@[(i + k) as int]);
    }
}

/// What goes out in one block goes out in its two parts, one after the other.
pub proof fn law_output_joins(
    clock: Clock,
    whole: FlangerParams,
    part: FlangerParams,
    ch: usize,
    sines: Seq<Single>,
    part_sines: Seq<Single>,
    line: Seq<Single>,
    input: Seq<Single>,
    part_input: Seq<Single>,
    i: nat,
    j: nat,
)
    requires
        clock.wf(),
        part.resumes(whole, i, j),
        resumes(part_sines, sines, i, j),
        resumes(part_input, input, i, j),
    ensures
        rendered(clock, whole, ch, sines, line, input, i + j) == rendered(
            clock,
            whole,
            ch,
            sines,
            line,
            input,
            i,
        ) + rendered(
            clock.after(whole.rate@, i),
            part,
            ch,
            part_sines,
            line_after(clock, whole, ch, sines, line, input, i),
            part_input,
            j,
        ),
{
    let first = rendered(clock, whole, ch, sines, line, input, i);
    let second = rendered(
        clock.after(whole.rate@, i),
        part,
        ch,
        part_sines,
        line_after(clock, whole, ch, sines, line, input, i),
        part_input,
        j,
    );
    let all = rendered(clock, whole, ch, sines, line, input, i + j);
    assert forall|m: int| 0 <= m < i + j implies #[trigger] all[m] == (first + second)[m] by {
        if m >= i {
            let k = (m - i) as nat;
            assert(m as nat == i + k);
            law_line_joins(
                clock,
                whole,
                part,
                ch,
                sines,
                part_sines,
                line,
                input,
                part_input,
                i,
                k,
            );
            lemma_tap_joins(clock, whole, part, ch, sines[m], i, k, j);
            assert(part_sines[k as int] == sines[(i + k) as int]);
            assert(part_input[k as int] == input[(i + k) as int]);
            assert(part.depth@[k as int] == whole.depth@[(i + k) as int]);
        }
    }
    assert(all =~= first + second);
}

} // verus!
