//! Vibrato: a delay moved by an oscillator, which makes the pitch waver.
use crate::audio::{lesser, put, resumes, silent, silent_lines, AudioBuffer};
use crate::float::double::Double;
use crate::float::facts::{lemma_constants, lemma_negated, lemma_sub, unit};
use crate::float::single::{num, Single};
use crate::modulation::{
    angle, law_clock_joins, law_linear_between, lfo, read_line, sample_at, turned, Clock, ONE,
};
use crate::ring::{
    lemma_ahead_next, lemma_ahead_twice, lemma_fraction, lemma_place_finite, lemma_wrapped_finite,
    tap, Tap, MAX_LINE,
};
use vstd::arithmetic::div_mod::lemma_mod_bound;
use vstd::prelude::*;

pub use crate::modulation::{Interpolation, Waveform};

verus! {

/// The widest sweep, 0.05 seconds.
pub const MAX_WIDTH_SECS: u32 = 0x3d4c_cccd;

/// The sample rate before the first reset, 44100.
pub const DEFAULT_RATE: u32 = 0x472c_4400;

/// What the controls say over one block. The lists hold one value per sample.
pub struct VibratoParams {
    pub width: Vec<Single>,
    pub rate: Vec<Single>,
    pub waveform: Waveform,
    pub interp: Interpolation,
}

impl VibratoParams {
    /// Every list reaches over `n` samples.
    pub open spec fn covers(self, n: int) -> bool {
        self.width@.len() >= n && self.rate@.len() >= n
    }
}

pub struct Vibrato {
    pub sample_rate: Single,
    pub buffer: Vec<Vec<Single>>,
    pub buffer_len: usize,
    pub write_pos: usize,
    pub lfo_phase: Single,
}

/// The length that a reset gives the delay lines.
pub open spec fn line_length(sample_rate: Double) -> int {
    let len = (num(MAX_WIDTH_SECS) * sample_rate.narrow()).to_usize() + 1;
    if len < 4 { 4 } else { len }
}

pub open spec fn position_spec(write: usize, delay: Single, len: usize) -> Single {
    (Single::from_usize(write) - delay + Single::from_usize(len) - num(ONE)).rem_euclid(
        Single::from_usize(len),
    )
}

/// The position `delay` samples before the last one written, wrapped onto the ring.
#[verifier::when_used_as_spec(position_spec)]
pub fn position(write: usize, delay: Single, len: usize) -> (r: Single)
    ensures
        r == position_spec(write, delay, len),
{
    let whole = Single::from_usize(len);
    (Single::from_usize(write) - delay + whole - num(ONE)).rem_euclid(whole)
}

/// Where the lines are read at sample `i`, `sine` being the sine of the angle there.
pub open spec fn tap_at(clock: Clock, params: VibratoParams, sine: Single, i: nat) -> Tap {
    let sweep = lfo(clock.phase_at(params.rate@, i), params.waveform, sine);
    let delay = params.width@[i as int] * sweep * clock.sample_rate;
    tap(position(clock.write_at(i), delay, clock.len), clock.len)
}

/// A line after `i` samples have been put in.
pub open spec fn line_after(
    clock: Clock,
    line: Seq<Single>,
    input: Seq<Single>,
    i: nat,
) -> Seq<Single>
    decreases i,
{
    if i == 0 {
        line
    } else {
        let k = (i - 1) as nat;
        line_after(clock, line, input, k).update(clock.write_at(k) as int, input[k as int])
    }
}

/// The first `n` samples that go out on a channel: the delayed signal alone.
pub open spec fn rendered(
    clock: Clock,
    params: VibratoParams,
    sines: Seq<Single>,
    line: Seq<Single>,
    input: Seq<Single>,
    n: nat,
) -> Seq<Single> {
    Seq::new(
        n,
        |i: int|
            read_line(
                line_after(clock, line, input, i as nat),
                tap_at(clock, params, sines[i], i as nat),
                params.interp,
            ),
    )
}

/// Works on one channel: takes the line through the block and writes what goes out.
fn render(
    clock: Clock,
    params: &VibratoParams,
    sines: &Vec<Single>,
    line: &mut Vec<Single>,
    input: &Vec<Single>,
    out: &mut Vec<Single>,
)
    requires
        old(out)@.len() == input@.len(),
        clock.wf(),
        old(line)@.len() == clock.len,
        params.covers(input@.len() as int),
        sines@.len() >= input@.len(),
    ensures
        final(line)@.len() == clock.len,
        final(line)@ == line_after(clock, old(line)@, input@, input@.len() as nat),
        final(out)@ == rendered(clock, *params, sines@, old(line)@, input@, input@.len() as nat),
{
    let ghost first = line@;
    let n = input.len();
    let mut now = clock;
    proof {
        clock.lemma_start(params.rate@);
    }
    let mut i: usize = 0;
    while i < n
        invariant
            i <= n,
            n == input@.len(),
            clock.wf(),
            now.wf(),
            params.covers(n as int),
            sines@.len() >= n,
            now == clock.after(params.rate@, i as nat),
            line@.len() == clock.len,
            line@ == line_after(clock, first, input@, i as nat),
            out@.len() == n,
            out@.take(i as int) == rendered(clock, *params, sines@, first, input@, i as nat),
        decreases n - i,
    {
        let sweep = lfo(now.phase, params.waveform, sines[i]);
        let delay = params.width[i] * sweep * now.sample_rate;
        let place = tap(position(now.write, delay, now.len), now.len);
        put(out, i, sample_at(line, place, params.interp));
        line[now.write] = input[i];
        proof {
            clock.lemma_tick(params.rate@, i as nat);
        }
        now.tick(params.rate[i]);
        i = i + 1;
    }
    assert(out@.take(n as int) == out@);
}

impl Vibrato {
    pub open spec fn wf(self) -> bool {
        &&& self.clock().wf()
        &&& self.buffer@.len() <= 2
        &&& forall|ch: int|
            0 <= ch < self.buffer@.len() ==> (#[trigger] self.buffer@[ch])@.len()
                == self.buffer_len
    }

    /// Where the effect stands, its lines aside.
    pub open spec fn clock(self) -> Clock {
        Clock {
            sample_rate: self.sample_rate,
            len: self.buffer_len,
            write: self.write_pos,
            phase: self.lfo_phase,
        }
    }

    /// How many channels of a block are worked on.
    pub open spec fn active(self, buffer: AudioBuffer) -> int {
        lesser(buffer.input@.len() as usize, self.buffer@.len() as usize) as int
    }

    /// Without lines, before the first reset.
    pub fn new() -> (r: Vibrato)
        ensures
            r.wf(),
            r.sample_rate == num(DEFAULT_RATE),
            r.buffer@.len() == 0,
            r.buffer_len == 1,
            r.write_pos == 0,
            r.lfo_phase == num(0),
    {
        Vibrato {
            sample_rate: num(DEFAULT_RATE),
            buffer: Vec::new(),
            buffer_len: 1,
            write_pos: 0,
            lfo_phase: num(0),
        }
    }

    /// Silences two lines of the length that the sample rate asks for, and starts over.
    pub fn reset(&mut self, sample_rate: Double)
        requires
            line_length(sample_rate) <= MAX_LINE,
        ensures
            final(self).wf(),
            final(self).sample_rate == sample_rate.narrow(),
            final(self).buffer_len == line_length(sample_rate),
            final(self).buffer@.len() == 2,
            forall|ch: int|
                0 <= ch < 2 ==> (#[trigger] final(self).buffer@[ch])@ == silent(
                    line_length(sample_rate) as nat,
                ),
            final(self).write_pos == 0,
            final(self).lfo_phase == num(0),
    {
        let sr = sample_rate.narrow();
        self.sample_rate = sr;
        let len: usize = (num(MAX_WIDTH_SECS) * sr).to_usize() + 1;
        self.buffer_len = if len < 4 { 4 } else { len };
        self.buffer = silent_lines(2, self.buffer_len);
        self.write_pos = 0;
        self.lfo_phase = num(0);
    }

    /// The angles, one per sample, whose sines `process` needs.
    pub fn lfo_angles(&self, params: &VibratoParams, n: usize) -> (r: Vec<Single>)
        requires
            self.wf(),
            params.covers(n as int),
        ensures
            r@ == Seq::new(
                n as nat,
                |i: int| angle(self.clock().phase_at(params.rate@, i as nat)),
            ),
    {
        let mut r: Vec<Single> = Vec::new();
        let mut phase = self.lfo_phase;
        let mut i: usize = 0;
        while i < n
            invariant
                i <= n,
                params.covers(n as int),
                phase == self.clock().phase_at(params.rate@, i as nat),
                r@ == Seq::new(
                    i as nat,
                    |k: int| angle(self.clock().phase_at(params.rate@, k as nat)),
                ),
            decreases n - i,
        {
            r.push(angle(phase));
            phase = turned(phase, params.rate[i] / self.sample_rate);
            i = i + 1;
        }
        r
    }

    /// Works on one block. `sines` holds the sines of `lfo_angles`.
    pub fn process(&mut self, params: &VibratoParams, sines: &Vec<Single>, buffer: &mut AudioBuffer)
        requires
            old(self).wf(),
            old(buffer).wf(),
            params.covers(old(buffer).samples as int),
            sines@.len() >= old(buffer).samples,
        ensures
            final(self).wf(),
            final(self).clock() == old(self).clock().after(
                params.rate@,
                old(buffer).samples as nat,
            ),
            final(self).buffer@.len() == old(self).buffer@.len(),
            forall|ch: int|
                0 <= ch < old(self).active(*old(buffer)) ==> (#[trigger] final(self).buffer@[ch])@
                    == line_after(
                    old(self).clock(),
                    old(self).buffer@[ch]@,
                    old(buffer).incoming(ch),
                    old(buffer).samples as nat,
                ),
            forall|ch: int|
                old(self).active(*old(buffer)) <= ch < old(self).buffer@.len()
                    ==> #[trigger] final(self).buffer@[ch] == old(self).buffer@[ch],
            final(buffer).rewritten(*old(buffer), old(self).active(*old(buffer))),
            forall|ch: int|
                0 <= ch < old(self).active(*old(buffer)) ==> (#[trigger] final(buffer).output@[ch])@
                    == rendered(
                    old(self).clock(),
                    *params,
                    sines@,
                    old(self).buffer@[ch]@,
                    old(buffer).incoming(ch),
                    old(buffer).samples as nat,
                ),
    {
        let num_ch = lesser(buffer.channels(), self.buffer.len());
        let n = buffer.num_samples();
        let mut clock = Clock {
            sample_rate: self.sample_rate,
            len: self.buffer_len,
            write: self.write_pos,
            phase: self.lfo_phase,
        };
        let ghost start = *self;
        let ghost before = *buffer;
        let mut ch: usize = 0;
        while ch < num_ch
            invariant
                num_ch == start.active(before),
                ch <= num_ch,
                n == before.samples,
                start.wf(),
                before.wf(),
                params.covers(n as int),
                sines@.len() >= n,
                clock == start.clock(),
                self.clock() == start.clock(),
                self.wf(),
                self.buffer@.len() == start.buffer@.len(),
                forall|c: int|
                    0 <= c < ch ==> (#[trigger] self.buffer@[c])@ == line_after(
                        clock,
                        start.buffer@[c]@,
                        before.incoming(c),
                        n as nat,
                    ),
                forall|c: int|
                    ch <= c < start.buffer@.len() ==> #[trigger] self.buffer@[c]
                        == start.buffer@[c],
                buffer.rewritten(before, ch as int),
                forall|c: int|
                    0 <= c < ch ==> (#[trigger] buffer.output@[c])@ == rendered(
                        clock,
                        *params,
                        sines@,
                        start.buffer@[c]@,
                        before.incoming(c),
                        n as nat,
                    ),
            decreases num_ch - ch,
        {
            render(
                clock,
                params,
                sines,
                &mut self.buffer[ch],
                &buffer.input[ch],
                &mut buffer.output[ch],
            );
            ch = ch + 1;
        }
        clock.run(&params.rate, n);
        self.write_pos = clock.write;
        self.lfo_phase = clock.phase;
    }
}

impl VibratoParams {
    /// Whether these are the controls that `whole` holds from sample `i` on, for `n` samples.
    pub open spec fn resumes(self, whole: VibratoParams, i: nat, n: nat) -> bool {
        &&& resumes(self.width@, whole.width@, i, n)
        &&& resumes(self.rate@, whole.rate@, i, n)
        &&& self.waveform == whole.waveform
        &&& self.interp == whole.interp
    }
}

/// What one block leaves on a line, its two parts leave one after the other.
pub proof fn law_line_joins(
    clock: Clock,
    rate: Seq<Single>,
    line: Seq<Single>,
    input: Seq<Single>,
    part_input: Seq<Single>,
    i: nat,
    j: nat,
)
    requires
        clock.wf(),
        resumes(part_input, input, i, j),
    ensures
        line_after(clock, line, input, i + j) == line_after(
            clock.after(rate, i),
            line_after(clock, line, input, i),
            part_input,
            j,
        ),
    decreases j,
{
    if j > 0 {
        let k = (j - 1) as nat;
        assert((i + j - 1) as nat == i + k);
        law_line_joins(clock, rate, line, input, part_input, i, k);
        lemma_ahead_twice(clock.write, i, k, clock.len);
        assert(part_input[k as int] == input[(i + k) as int]);
    }
}

/// What goes out in one block goes out in its two parts, one after the other.
pub proof fn law_output_joins(
    clock: Clock,
    whole: VibratoParams,
    part: VibratoParams,
    sines: Seq<Single>,
    part_sines: Seq<Single>,
    line: Seq<Single>,
    input: Seq<Single>,
    part_input: Seq<Single>,
    i: nat,
    j: nat,
)
    requires
        clock.wf(),
        part.resumes(whole, i, j),
        resumes(part_sines, sines, i, j),
        resumes(part_input, input, i, j),
    ensures
        rendered(clock, whole, sines, line, input, i + j) == rendered(
            clock,
            whole,
            sines,
            line,
            input,
            i,
        ) + rendered(
            clock.after(whole.rate@, i),
            part,
            part_sines,
            line_after(clock, line, input, i),
            part_input,
            j,
        ),
{
    let first = rendered(clock, whole, sines, line, input, i);
    let second = rendered(
        clock.after(whole.rate@, i),
        part,
        part_sines,
        line_after(clock, line, input, i),
        part_input,
        j,
    );
    let all = rendered(clock, whole, sines, line, input, i + j);
    assert forall|m: int| 0 <= m < i + j implies #[trigger] all[m] == (first + second)[m] by {
        if m >= i {
            let k = (m - i) as nat;
            assert(m as nat == i + k);
            law_line_joins(clock, whole.rate@, line, input, part_input, i, k);
            law_clock_joins(clock, whole.rate@, part.rate@, i, k);
            assert(part_sines[k as int] == sines[(i + k) as int]);
            assert(part.width@[k as int] == whole.width@[(i + k) as int]);
        }
    }
    assert(all =~= first + second);
}

/// The delay at sample `i` in samples, `sine` being the sine of the angle there.
pub open spec fn delay_at(clock: Clock, params: VibratoParams, sine: Single, i: nat) -> Single {
    params.width@[i as int] * lfo(clock.phase_at(params.rate@, i), params.waveform, sine)
        * clock.sample_rate
}

/// A finite delay leads to a position on the ring, between two slots or on one, however long the
/// line.
pub proof fn law_position_on_ring(write: usize, delay: Single, len: usize)
    requires
        write < len,
        delay.is_finite(),
    ensures
        ({
            let place = tap(position(write, delay, len), len);
            &&& position(write, delay, len).is_finite()
            &&& 0 <= position(write, delay, len).value() <= Single::from_usize(len).value()
            &&& place.index < len
            &&& place.frac.is_finite()
            &&& 0 <= place.frac.value() < unit()
        }),
{
    lemma_place_finite(write, delay, len);
    let whole = Single::from_usize(len);
    lemma_wrapped_finite(Single::from_usize(write) - delay + whole - num(ONE), len);
    lemma_fraction(position(write, delay, len));
}

/// A line that holds samples between two bounds still does so after a block of such samples.
pub proof fn law_line_between(
    clock: Clock,
    line: Seq<Single>,
    input: Seq<Single>,
    low: Single,
    high: Single,
    i: nat,
)
    requires
        clock.wf(),
        line.len() == clock.len,
        forall|k: int|
            0 <= k < line.len() ==> (#[trigger] line[k]).is_finite() && low.value()
                <= line[k].value() <= high.value(),
        forall|k: int|
            0 <= k < i ==> (#[trigger] input[k]).is_finite() && low.value() <= input[k].value()
                <= high.value(),
    ensures
        line_after(clock, line, input, i).len() == clock.len,
        forall|k: int|
            0 <= k < clock.len ==> (#[trigger] line_after(clock, line, input, i)[k]).is_finite()
                && low.value() <= line_after(clock, line, input, i)[k].value() <= high.value(),
    decreases i,
{
    if i > 0 {
        let k = (i - 1) as nat;
        law_line_between(clock, line, input, low, high, k);
        lemma_ahead_next(clock.write, k, clock.len);
        assert(input[k as int].is_finite());
    }
}

/// What goes out lies between the least and the greatest of what the line held and of the past
/// samples, unless it is read with the cubic.
pub proof fn law_output_between(
    clock: Clock,
    params: VibratoParams,
    sines: Seq<Single>,
    line: Seq<Single>,
    input: Seq<Single>,
    low: Single,
    high: Single,
    top: Single,
    i: nat,
)
    requires
        clock.wf(),
        line.len() == clock.len,
        !(params.interp is Cubic),
        params.interp is Linear ==> delay_at(clock, params, sines[i as int], i).is_finite(),
        top.is_finite(),
        high.value() - low.value() <= top.value(),
        forall|k: int|
            0 <= k < line.len() ==> (#[trigger] line[k]).is_finite() && low.value()
                <= line[k].value() <= high.value(),
        forall|k: int|
            0 <= k < i ==> (#[trigger] input[k]).is_finite() && low.value() <= input[k].value()
                <= high.value(),
    ensures
        rendered(clock, params, sines, line, input, i + 1)[i as int].is_finite(),
        low.value() <= rendered(clock, params, sines, line, input, i + 1)[i as int].value()
            <= high.value(),
{
    law_line_between(clock, line, input, low, high, i);
    lemma_ahead_next(clock.write, i, clock.len);
    let held = line_after(clock, line, input, i);
    let place = tap_at(clock, params, sines[i as int], i);
    let slot = position(
        clock.write_at(i),
        delay_at(clock, params, sines[i as int], i),
        clock.len,
    ).floor().to_usize();
    lemma_mod_bound(slot as int, clock.len as int);
    let next = (place.index + 1) % (clock.len as int);
    lemma_mod_bound(place.index + 1, clock.len as int);
    let (s0, s1) = (held[place.index as int], held[next]);
    assert(s0.is_finite() && s1.is_finite());
    if params.interp is Linear {
        law_position_on_ring(
            clock.write_at(i),
            delay_at(clock, params, sines[i as int], i),
            clock.len,
        );
        lemma_negated(top);
        lemma_sub(s1, s0, top.negated(), top);
        law_linear_between(s0, s1, place.frac);
    }
}

/// The current sample has no part in what goes out with it: two inputs that agree before a sample
/// give the same up to and at that sample.
pub proof fn law_current_sample_not_heard(
    clock: Clock,
    params: VibratoParams,
    sines: Seq<Single>,
    line: Seq<Single>,
    input: Seq<Single>,
    other: Seq<Single>,
    i: nat,
)
    requires
        forall|k: int| 0 <= k < i ==> input[k] == #[trigger] other[k],
    ensures
        rendered(clock, params, sines, line, input, i + 1) == rendered(
            clock,
            params,
            sines,
            line,
            other,
            i + 1,
        ),
{
    assert forall|k: int| 0 <= k < i + 1 implies #[trigger] line_after(
        clock,
        line,
        input,
        k as nat,
    ) == line_after(clock, line, other, k as nat) by {
        lemma_same_line(clock, line, input, other, k as nat);
    }
    assert(rendered(clock, params, sines, line, input, i + 1) =~= rendered(
        clock,
        params,
        sines,
        line,
        other,
        i + 1,
    ));
}

proof fn lemma_same_line(
    clock: Clock,
    line: Seq<Single>,
    input: Seq<Single>,
    other: Seq<Single>,
    i: nat,
)
    requires
        forall|k: int| 0 <= k < i ==> input[k] == #[trigger] other[k],
    ensures
        line_after(clock, line, input, i) == line_after(clock, line, other, i),
    decreases i,
{
    if i > 0 {
        lemma_same_line(clock, line, input, other, (i - 1) as nat);
        assert(input[i - 1] == other[i - 1]);
    }
}

/// The first sample after a reset goes out silent.
pub proof fn law_first_sample_silent(
    clock: Clock,
    params: VibratoParams,
    sines: Seq<Single>,
    input: Seq<Single>,
)
    requires
        clock.wf(),
        !(params.interp is Cubic),
        params.interp is Linear ==> delay_at(clock, params, sines[0], 0).is_finite(),
    ensures
        rendered(clock, params, sines, silent(clock.len as nat), input, 1)[0].is_finite(),
        rendered(clock, params, sines, silent(clock.len as nat), input, 1)[0].value() == 0,
{
    lemma_constants();
    law_output_between(
        clock,
        params,
        sines,
        silent(clock.len as nat),
        input,
        num(0),
        num(0),
        num(0),
        0,
    );
}

} // verus!
