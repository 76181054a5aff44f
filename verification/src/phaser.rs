//! Phaser: a cascade of first-order allpass filters whose centre frequency is swept by an
//! oscillator.
use crate::audio::{lesser, put, resumes, AudioBuffer};
use crate::echoes::{lemma_spans, spans};
use crate::float::double::Double;
use crate::float::facts::{lemma_constants, lemma_within, within};
use crate::float::single::{num, Single};
use crate::modulation::{
    angle, law_sawtooth_unipolar, law_scaled_phase_joins, law_sine_unipolar, law_triangle_unipolar,
    lemma_turn_within, on_turn, phase_after_scaled, sawtooth, stereo_phase, triangle, turned,
    unipolar, HALF, ONE, TAU,
};
use vstd::arithmetic::div_mod::{lemma_add_mod_noop, lemma_mod_mod};
use vstd::prelude::*;

verus! {

/// The most filters that a channel has.
pub const MAX_FILTERS_PER_CHANNEL: usize = 10;

/// The filters are retuned once in so many samples.
pub const UPDATE_INTERVAL: u32 = 32;

/// The highest centre frequency, 0.99 pi.
pub const GREATEST_ANGLE: u32 = 0x4047_0d23;

/// The sample rate before the first reset, 44100.
pub const DEFAULT_RATE: u32 = 0x472c_4400;

/// The length of a sample before the first reset, 1/44100.
pub const DEFAULT_STEP: u32 = 0x37be_37c6;

#[derive(Clone, Copy, PartialEq, Eq, Structural, Debug)]
pub enum Waveform {
    Sine,
    Triangle,
    Square,
    Sawtooth,
}

#[derive(Clone, Copy, PartialEq, Eq, Structural, Debug)]
pub enum NumFilters {
    Two,
    Four,
    Six,
    Eight,
    Ten,
}

impl NumFilters {
    pub open spec fn count_spec(self) -> usize {
        match self {
            NumFilters::Two => 2,
            NumFilters::Four => 4,
            NumFilters::Six => 6,
            NumFilters::Eight => 8,
            NumFilters::Ten => 10,
        }
    }

    /// How many filters that is.
    #[verifier::when_used_as_spec(count_spec)]
    pub fn count(self) -> (r: usize)
        ensures
            r == self.count_spec(),
            2 <= r <= MAX_FILTERS_PER_CHANNEL,
    {
        match self {
            NumFilters::Two => 2,
            NumFilters::Four => 4,
            NumFilters::Six => 6,
            NumFilters::Eight => 8,
            NumFilters::Ten => 10,
        }
    }
}

/// What the controls say over one block. The lists hold one value per sample.
pub struct PhaserParams {
    pub depth: Vec<Single>,
    pub feedback: Vec<Single>,
    pub stages: NumFilters,
    pub min_freq: Vec<Single>,
    pub sweep_width: Vec<Single>,
    pub lfo_rate: Vec<Single>,
    pub waveform: Waveform,
    pub stereo: bool,
}

impl PhaserParams {
    /// Every list reaches over `n` samples.
    pub open spec fn covers(self, n: int) -> bool {
        &&& self.depth@.len() >= n
        &&& self.feedback@.len() >= n
        &&& self.min_freq@.len() >= n
        &&& self.sweep_width@.len() >= n
        &&& self.lfo_rate@.len() >= n
    }
}

/// A first-order allpass filter and the last sample on each side of it.
#[derive(Clone, Copy, PartialEq, Eq, Structural)]
pub struct Allpass {
    pub b0: Single,
    pub b1: Single,
    pub a1: Single,
    pub x1: Single,
    pub y1: Single,
}

impl Allpass {
    /// The filter tuned to a frequency, `tan` being the tangent of half of it.
    pub open spec fn tuned(self, tan: Single) -> Allpass {
        let inv = num(ONE) / (tan + num(ONE));
        Allpass {
            b0: (tan - num(ONE)) * inv,
            b1: num(ONE),
            a1: (tan - num(ONE)) * inv,
            ..self
        }
    }

    /// What the filter makes of a sample.
    pub open spec fn response(self, x: Single) -> Single {
        self.b0 * x + self.b1 * self.x1 - self.a1 * self.y1
    }

    /// The filter after a sample.
    pub open spec fn stepped(self, x: Single) -> Allpass {
        Allpass { x1: x, y1: self.response(x), ..self }
    }

    /// Tunes the filter.
    pub fn update(&mut self, tan: Single)
        ensures
            *final(self) == old(self).tuned(tan),
    {
        let a0 = tan + num(ONE);
        let inv = num(ONE) / a0;
        self.b0 = (tan - num(ONE)) * inv;
        self.b1 = num(ONE);
        self.a1 = (tan - num(ONE)) * inv;
    }

    /// Filters one sample.
    pub fn process(&mut self, x: Single) -> (y: Single)
        ensures
            y == old(self).response(x),
            *final(self) == old(self).stepped(x),
    {
        let y = self.b0 * x + self.b1 * self.x1 - self.a1 * self.y1;
        self.x1 = x;
        self.y1 = y;
        y
    }
}

/// The filter whose coefficients and samples are all zero.
pub open spec fn flat() -> Allpass {
    Allpass { b0: num(0), b1: num(0), a1: num(0), x1: num(0), y1: num(0) }
}

impl Default for Allpass {
    fn default() -> (r: Allpass)
        ensures
            r == flat(),
    {
        Allpass { b0: num(0), b1: num(0), a1: num(0), x1: num(0), y1: num(0) }
    }
}

pub open spec fn half_angle_spec(discrete_freq: Single) -> Single {
    discrete_freq.min(num(GREATEST_ANGLE)) * num(HALF)
}

/// The angle whose tangent tunes a filter to a frequency in radians per sample.
#[verifier::when_used_as_spec(half_angle_spec)]
pub fn half_angle(discrete_freq: Single) -> (r: Single)
    ensures
        r == half_angle_spec(discrete_freq),
{
    discrete_freq.min(num(GREATEST_ANGLE)) * num(HALF)
}

pub open spec fn lfo_spec(phase: Single, waveform: Waveform, sine: Single) -> Single {
    match waveform {
        Waveform::Sine => unipolar(sine),
        Waveform::Triangle => triangle(phase),
        Waveform::Square => if phase.lt(num(HALF)) { num(ONE) } else { num(0) },
        Waveform::Sawtooth => sawtooth(phase),
    }
}

/// The oscillator at a phase, `sine` being the sine of that phase's angle.
#[verifier::when_used_as_spec(lfo_spec)]
pub fn lfo(phase: Single, waveform: Waveform, sine: Single) -> (r: Single)
    ensures
        r == lfo_spec(phase, waveform, sine),
{
    match waveform {
        Waveform::Sine => unipolar(sine),
        Waveform::Triangle => triangle(phase),
        Waveform::Square => if phase.lt(num(HALF)) { num(ONE) } else { num(0) },
        Waveform::Sawtooth => sawtooth(phase),
    }
}

/// Where the sweep stands: the phase of the oscillator and the count of samples that decides when
/// the filters are retuned.
#[derive(Clone, Copy, PartialEq, Eq, Structural)]
pub struct Sweep {
    pub inv_sr: Single,
    pub phase: Single,
    pub counter: u32,
}

impl Sweep {
    /// The oscillator phase at sample `i` of a block.
    pub open spec fn phase_at(self, params: PhaserParams, i: nat) -> Single {
        phase_after_scaled(self.phase, params.lfo_rate@, self.inv_sr, i)
    }

    /// The count at sample `i` of a block; it starts over after its last value.
    pub open spec fn counter_at(self, i: nat) -> u32 {
        ((self.counter + i) % 0x1_0000_0000) as u32
    }

    /// Where the sweep stands `i` samples into a block.
    pub open spec fn after(self, params: PhaserParams, i: nat) -> Sweep {
        Sweep { phase: self.phase_at(params, i), counter: self.counter_at(i), ..self }
    }

    /// Whether the filters are due for retuning.
    pub open spec fn due_spec(self) -> bool {
        self.counter % UPDATE_INTERVAL == 0
    }

    /// Whether the filters are due for retuning.
    #[verifier::when_used_as_spec(due_spec)]
    pub fn due(self) -> (r: bool)
        ensures
            r == self.due_spec(),
    {
        self.counter % UPDATE_INTERVAL == 0
    }

    /// The frequency that a channel's filters go to, in radians per sample.
    pub open spec fn frequency(
        self,
        params: PhaserParams,
        ch: usize,
        sine: Single,
        i: int,
    ) -> Single {
        let phase = stereo_phase(self.phase, params.stereo, ch);
        let centre = params.min_freq@[i] + params.sweep_width@[i] * lfo(
            phase,
            params.waveform,
            sine,
        );
        num(TAU) * centre * self.inv_sr
    }

    /// The frequency that a channel's filters go to.
    fn target(self, params: &PhaserParams, ch: usize, sine: Single, i: usize) -> (r: Single)
        requires
            params.covers(i + 1),
        ensures
            r == self.frequency(*params, ch, sine, i as int),
    {
        let phase = stereo_phase(self.phase, params.stereo, ch);
        let centre = params.min_freq[i] + params.sweep_width[i] * lfo(
            phase,
            params.waveform,
            sine,
        );
        num(TAU) * centre * self.inv_sr
    }

    /// Whether sample `i` of a block retunes a channel: the filters are due, and the frequency is
    /// a number.
    pub open spec fn retunes(
        self,
        params: PhaserParams,
        ch: usize,
        sines: Seq<Single>,
        i: nat,
    ) -> bool {
        let now = self.after(params, i);
        now.due() && !now.frequency(params, ch, sines[i as int], i as int).is_nan()
    }

    /// One sample on, at the given rate.
    pub fn tick(&mut self, rate: Single)
        ensures
            final(self).inv_sr == old(self).inv_sr,
            final(self).phase == turned(old(self).phase, rate * old(self).inv_sr),
            final(self).counter == old(self).counter_at(1),
    {
        self.phase = turned(self.phase, rate * self.inv_sr);
        self.counter = if self.counter == u32::MAX { 0 } else { self.counter + 1 };
    }

    /// A tick leads from one sample of a block to the next.
    proof fn lemma_tick(self, params: PhaserParams, i: nat)
        ensures
            self.after(params, 0) == self,
            turned(self.phase_at(params, i), params.lfo_rate@[i as int] * self.inv_sr)
                == self.phase_at(params, i + 1),
            self.after(params, i).counter_at(1) == self.counter_at(i + 1),
    {
    }

    /// `n` samples on.
    pub fn run(&mut self, params: &PhaserParams, n: usize)
        requires
            params.covers(n as int),
        ensures
            *final(self) == old(self).after(*params, n as nat),
    {
        let ghost start = *self;
        proof {
            start.lemma_tick(*params, 0);
        }
        let mut i: usize = 0;
        while i < n
            invariant
                i <= n,
                params.covers(n as int),
                *self == start.after(*params, i as nat),
            decreases n - i,
        {
            proof {
                start.lemma_tick(*params, i as nat);
            }
            self.tick(params.lfo_rate[i]);
            i = i + 1;
        }
    }
}

/// The filters of a channel and what came out of them last.
#[verifier::ext_equal]
pub struct Lane {
    pub filters: Seq<Allpass>,
    pub feedback: Single,
}

/// What the first `count` filters make of a sample, one after the other.
pub open spec fn through(filters: Seq<Allpass>, x: Single, count: nat) -> Single
    decreases count,
{
    if count == 0 {
        x
    } else {
        filters[count - 1].response(through(filters, x, (count - 1) as nat))
    }
}

/// The filters after a sample has gone through the first `count` of them.
pub open spec fn advanced(filters: Seq<Allpass>, x: Single, count: nat) -> Seq<Allpass> {
    Seq::new(
        filters.len(),
        |j: int|
            if j < count {
                filters[j].stepped(through(filters, x, j as nat))
            } else {
                filters[j]
            },
    )
}

/// The filters with the first `count` of them tuned.
pub open spec fn tuned(filters: Seq<Allpass>, tan: Single, count: nat) -> Seq<Allpass> {
    Seq::new(filters.len(), |j: int| if j < count { filters[j].tuned(tan) } else { filters[j] })
}

/// The filters that sample `i` goes through, with `lane` as it stands before that sample.
pub open spec fn filters_at(
    sweep: Sweep,
    params: PhaserParams,
    ch: usize,
    sines: Seq<Single>,
    tans: Seq<Single>,
    lane: Lane,
    i: nat,
) -> Seq<Allpass> {
    if sweep.retunes(params, ch, sines, i) {
        tuned(lane.filters, tans[i as int], params.stages.count() as nat)
    } else {
        lane.filters
    }
}

/// What the filters are given at sample `i`.
pub open spec fn fed(params: PhaserParams, lane: Lane, input: Seq<Single>, i: int) -> Single {
    input[i] + params.feedback@[i] * lane.feedback
}

/// A channel after `i` samples.
pub open spec fn lane_after(
    sweep: Sweep,
    params: PhaserParams,
    ch: usize,
    sines: Seq<Single>,
    tans: Seq<Single>,
    lane: Lane,
    input: Seq<Single>,
    i: nat,
) -> Lane
    decreases i,
{
    if i == 0 {
        lane
    } else {
        let k = (i - 1) as nat;
        let now = lane_after(sweep, params, ch, sines, tans, lane, input, k);
        let filters = filters_at(sweep, params, ch, sines, tans, now, k);
        let x = fed(params, now, input, k as int);
        let count = params.stages.count() as nat;
        Lane { filters: advanced(filters, x, count), feedback: through(filters, x, count) }
    }
}

/// The first `n` samples that go out on a channel.
pub open spec fn rendered(
    sweep: Sweep,
    params: PhaserParams,
    ch: usize,
    sines: Seq<Single>,
    tans: Seq<Single>,
    lane: Lane,
    input: Seq<Single>,
    n: nat,
) -> Seq<Single> {
    Seq::new(
        n,
        |i: int|
            {
                let now = lane_after(sweep, params, ch, sines, tans, lane, input, i as nat);
                let filters = filters_at(sweep, params, ch, sines, tans, now, i as nat);
                let wet = through(
                    filters,
                    fed(params, now, input, i),
                    params.stages.count() as nat,
                );
                input[i] + params.depth@[i] * (wet - input[i]) * num(HALF)
            },
    )
}

/// Tunes the first `count` filters.
fn tune(filters: &mut Vec<Allpass>, tan: Single, count: usize)
    requires
        count <= old(filters)@.len(),
    ensures
        final(filters)@ == tuned(old(filters)@, tan, count as nat),
{
    let ghost start = filters@;
    let mut j: usize = 0;
    while j < count
        invariant
            j <= count,
            count <= start.len(),
            filters@ == tuned(start, tan, j as nat),
        decreases count - j,
    {
        let mut filter = filters[j];
        filter.update(tan);
        filters[j] = filter;
        j = j + 1;
    }
}

/// Sends a sample through the first `count` filters.
fn send(filters: &mut Vec<Allpass>, x: Single, count: usize) -> (y: Single)
    requires
        count <= old(filters)@.len(),
    ensures
        final(filters)@ == advanced(old(filters)@, x, count as nat),
        y == through(old(filters)@, x, count as nat),
{
    let ghost start = filters@;
    let mut y = x;
    let mut j: usize = 0;
    while j < count
        invariant
            j <= count,
            count <= start.len(),
            y == through(start, x, j as nat),
            filters@ == advanced(start, x, j as nat),
        decreases count - j,
    {
        let mut filter = filters[j];
        y = filter.process(y);
        filters[j] = filter;
        j = j + 1;
    }
    y
}

/// Takes a channel through a block.
fn render(
    sweep: Sweep,
    params: &PhaserParams,
    ch: usize,
    sines: &Vec<Single>,
    tans: &Vec<Single>,
    filters: &mut Vec<Allpass>,
    feedback: &mut Single,
    input: &Vec<Single>,
    out: &mut Vec<Single>,
)
    requires
        old(out)@.len() == input@.len(),
        params.covers(input@.len() as int),
        sines@.len() >= input@.len(),
        tans@.len() >= input@.len(),
        old(filters)@.len() == MAX_FILTERS_PER_CHANNEL,
    ensures
        final(filters)@.len() == MAX_FILTERS_PER_CHANNEL,
        (Lane { filters: final(filters)@, feedback: *final(feedback) }) == lane_after(
            sweep,
            *params,
            ch,
            sines@,
            tans@,
            Lane { filters: old(filters)@, feedback: *old(feedback) },
            input@,
            input@.len(),
        ),
        final(out)@ == rendered(
            sweep,
            *params,
            ch,
            sines@,
            tans@,
            Lane { filters: old(filters)@, feedback: *old(feedback) },
            input@,
            input@.len(),
        ),
{
    let ghost lane = Lane { filters: filters@, feedback: *feedback };
    let count = params.stages.count();
    let n = input.len();
    let mut now = sweep;
    proof {
        sweep.lemma_tick(*params, 0);
    }
    let mut i: usize = 0;
    while i < n
        invariant
            i <= n,
            n == input@.len(),
            count == params.stages.count(),
            count <= MAX_FILTERS_PER_CHANNEL,
            params.covers(n as int),
            sines@.len() >= n,
            tans@.len() >= n,
            filters@.len() == MAX_FILTERS_PER_CHANNEL,
            now == sweep.after(*params, i as nat),
            (Lane { filters: filters@, feedback: *feedback }) == lane_after(
                sweep,
                *params,
                ch,
                sines@,
                tans@,
                lane,
                input@,
                i as nat,
            ),
            out@.len() == n,
            out@.take(i as int) == rendered(
                sweep,
                *params,
                ch,
                sines@,
                tans@,
                lane,
                input@,
                i as nat,
            ),
        decreases n - i,
    {
        let ghost here = Lane { filters: filters@, feedback: *feedback };
        let target = now.target(params, ch, sines[i], i);
        if now.due() && !target.is_nan() {
            tune(filters, tans[i], count);
        }
        assert(filters@ == filters_at(sweep, *params, ch, sines@, tans@, here, i as nat));
        let x = input[i];
        let wet = send(filters, x + params.feedback[i] * *feedback, count);
        *feedback = wet;
        put(out, i, x + params.depth[i] * (wet - x) * num(HALF));
        proof {
            sweep.lemma_tick(*params, i as nat);
        }
        now.tick(params.lfo_rate[i]);
        i = i + 1;
    }
    assert(out@.take(n as int) == out@);
}

/// The effect; its state is a `PhaserDsp`.
pub struct Phaser;

pub struct PhaserDsp {
    pub sample_rate: Single,
    pub inv_sr: Single,
    pub filters: Vec<Vec<Allpass>>,
    pub feedback_state: Vec<Single>,
    pub lfo_phase: Single,
    pub sample_counter: u32,
}

impl PhaserDsp {
    /// There is a full set of filters for each of two channels.
    pub open spec fn wf(self) -> bool {
        &&& self.filters@.len() == 2
        &&& self.feedback_state@.len() == 2
        &&& forall|ch: int|
            0 <= ch < 2 ==> (#[trigger] self.filters@[ch])@.len() == MAX_FILTERS_PER_CHANNEL
    }

    pub open spec fn sweep_spec(&self) -> Sweep {
        Sweep { inv_sr: self.inv_sr, phase: self.lfo_phase, counter: self.sample_counter }
    }

    /// Where the sweep stands.
    #[verifier::when_used_as_spec(sweep_spec)]
    pub fn sweep(&self) -> (r: Sweep)
        ensures
            r == self.sweep_spec(),
    {
        Sweep { inv_sr: self.inv_sr, phase: self.lfo_phase, counter: self.sample_counter }
    }

    pub open spec fn lane(self, ch: int) -> Lane {
        Lane { filters: self.filters@[ch]@, feedback: self.feedback_state@[ch] }
    }

    /// Nothing has been heard yet.
    pub open spec fn fresh(self) -> bool {
        &&& forall|ch: int|
            0 <= ch < 2 ==> (#[trigger] self.filters@[ch])@ == Seq::new(
                MAX_FILTERS_PER_CHANNEL as nat,
                |j: int| flat(),
            )
        &&& self.feedback_state@ == seq![num(0), num(0)]
        &&& self.lfo_phase == num(0)
        &&& self.sample_counter == 0
    }
}

fn flat_filters() -> (r: Vec<Allpass>)
    ensures
        r@ == Seq::new(MAX_FILTERS_PER_CHANNEL as nat, |j: int| flat()),
{
    let mut r: Vec<Allpass> = Vec::new();
    let mut j: usize = 0;
    while j < MAX_FILTERS_PER_CHANNEL
        invariant
            j <= MAX_FILTERS_PER_CHANNEL,
            r@ == Seq::new(j as nat, |k: int| flat()),
        decreases MAX_FILTERS_PER_CHANNEL - j,
    {
        r.push(Allpass::default());
        j = j + 1;
    }
    r
}

impl Default for PhaserDsp {
    fn default() -> (r: PhaserDsp)
        ensures
            r.wf(),
            r.fresh(),
            r.sample_rate == num(DEFAULT_RATE),
            r.inv_sr == num(DEFAULT_STEP),
    {
        let mut filters: Vec<Vec<Allpass>> = Vec::new();
        filters.push(flat_filters());
        filters.push(flat_filters());
        let mut feedback_state: Vec<Single> = Vec::new();
        feedback_state.push(num(0));
        feedback_state.push(num(0));
        assert(feedback_state@ == seq![num(0), num(0)]);
        PhaserDsp {
            sample_rate: num(DEFAULT_RATE),
            inv_sr: num(DEFAULT_STEP),
            filters,
            feedback_state,
            lfo_phase: num(0),
            sample_counter: 0,
        }
    }
}

impl Phaser {
    /// Starts over at a sample rate.
    pub fn reset(state: &mut PhaserDsp, sample_rate: Double)
        ensures
            final(state).wf(),
            final(state).fresh(),
            final(state).sample_rate == sample_rate.narrow(),
            final(state).inv_sr == num(ONE) / sample_rate.narrow(),
            spans(final(state).inv_sr, sample_rate.narrow()),
    {
        let mut fresh = PhaserDsp::default();
        fresh.sample_rate = sample_rate.narrow();
        fresh.inv_sr = num(ONE) / fresh.sample_rate;
        *state = fresh;
        proof {
            lemma_spans(sample_rate.narrow());
        }
    }

    /// The angles whose sines the oscillator needs for a channel, one per sample.
    pub fn lfo_angles(state: &PhaserDsp, params: &PhaserParams, ch: usize, n: usize) -> (r: Vec<
        Single,
    >)
        requires
            params.covers(n as int),
        ensures
            r@ == Seq::new(
                n as nat,
                |i: int|
                    angle(
                        stereo_phase(
                            state.sweep().phase_at(*params, i as nat),
                            params.stereo,
                            ch,
                        ),
                    ),
            ),
    {
        let mut r: Vec<Single> = Vec::new();
        let mut now = state.sweep();
        let ghost start = now;
        proof {
            start.lemma_tick(*params, 0);
        }
        let mut i: usize = 0;
        while i < n
            invariant
                i <= n,
                params.covers(n as int),
                start == state.sweep(),
                now == start.after(*params, i as nat),
                r@ == Seq::new(
                    i as nat,
                    |k: int|
                        angle(
                            stereo_phase(start.phase_at(*params, k as nat), params.stereo, ch),
                        ),
                ),
            decreases n - i,
        {
            r.push(angle(stereo_phase(now.phase, params.stereo, ch)));
            proof {
                start.lemma_tick(*params, i as nat);
            }
            now.tick(params.lfo_rate[i]);
            i = i + 1;
        }
        r
    }

    /// The angles whose tangents retune a channel, at the samples at which it is due, and none at
    /// the others. `sines` holds the sines of `lfo_angles`.
    pub fn filter_angles(
        state: &PhaserDsp,
        params: &PhaserParams,
        ch: usize,
        sines: &Vec<Single>,
        n: usize,
    ) -> (r: Vec<Option<Single>>)
        requires
            params.covers(n as int),
            sines@.len() >= n,
        ensures
            r@ == Seq::new(
                n as nat,
                |i: int|
                    {
                        let now = state.sweep().after(*params, i as nat);
                        if state.sweep().retunes(*params, ch, sines@, i as nat) {
                            Some(half_angle(now.frequency(*params, ch, sines@[i], i)))
                        } else {
                            None
                        }
                    },
            ),
    {
        let mut r: Vec<Option<Single>> = Vec::new();
        let mut now = state.sweep();
        let ghost start = now;
        proof {
            start.lemma_tick(*params, 0);
        }
        let mut i: usize = 0;
        while i < n
            invariant
                i <= n,
                params.covers(n as int),
                sines@.len() >= n,
                start == state.sweep(),
                now == start.after(*params, i as nat),
                r@ == Seq::new(
                    i as nat,
                    |k: int|
                        {
                            let then = start.after(*params, k as nat);
                            if start.retunes(*params, ch, sines@, k as nat) {
                                Some(half_angle(then.frequency(*params, ch, sines@[k], k)))
                            } else {
                                None
                            }
                        },
                ),
            decreases n - i,
        {
            let target = now.target(params, ch, sines[i], i);
            if now.due() && !target.is_nan() {
                r.push(Some(half_angle(target)));
            } else {
                r.push(None);
            }
            proof {
                start.lemma_tick(*params, i as nat);
            }
            now.tick(params.lfo_rate[i]);
            i = i + 1;
        }
        r
    }

    /// Works on one block. For every channel, up to two, `sines` holds the sines of `lfo_angles`
    /// and `tans` the tangents of `filter_angles`.
    pub fn process(
        state: &mut PhaserDsp,
        params: &PhaserParams,
        sines: &Vec<Vec<Single>>,
        tans: &Vec<Vec<Single>>,
        buffer: &mut AudioBuffer,
    )
        requires
            old(state).wf(),
            old(buffer).wf(),
            params.covers(old(buffer).samples as int),
            sines@.len() >= lesser(old(buffer).input@.len() as usize, 2),
            tans@.len() >= lesser(old(buffer).input@.len() as usize, 2),
            forall|ch: int|
                0 <= ch < sines@.len() ==> (#[trigger] sines@[ch])@.len() >= old(buffer).samples,
            forall|ch: int|
                0 <= ch < tans@.len() ==> (#[trigger] tans@[ch])@.len() >= old(buffer).samples,
        ensures
            final(state).wf(),
            final(state).sample_rate == old(state).sample_rate,
            final(state).sweep() == old(state).sweep().after(
                *params,
                old(buffer).samples as nat,
            ),
            final(buffer).rewritten(
                *old(buffer),
                lesser(old(buffer).input@.len() as usize, 2) as int,
            ),
            forall|ch: int|
                0 <= ch < 2 ==> #[trigger] final(state).lane(ch) == (if ch
                    < old(buffer).input@.len() {
                    lane_after(
                        old(state).sweep(),
                        *params,
                        ch as usize,
                        sines@[ch]@,
                        tans@[ch]@,
                        old(state).lane(ch),
                        old(buffer).incoming(ch),
                        old(buffer).samples as nat,
                    )
                } else {
                    old(state).lane(ch)
                }),
            forall|ch: int|
                0 <= ch < 2 && ch < old(buffer).input@.len() ==> (
                #[trigger] final(buffer).output@[ch])@ == rendered(
                    old(state).sweep(),
                    *params,
                    ch as usize,
                    sines@[ch]@,
                    tans@[ch]@,
                    old(state).lane(ch),
                    old(buffer).incoming(ch),
                    old(buffer).samples as nat,
                ),
    {
        let ghost start = *state;
        let ghost before = *buffer;
        let mut sweep = state.sweep();
        let n = buffer.num_samples();
        let active = lesser(buffer.channels(), 2);
        let mut ch: usize = 0;
        while ch < active
            invariant
                ch <= active,
                active == lesser(before.input@.len() as usize, 2),
                before.input@.len() <= usize::MAX,
                n == before.samples,
                before.wf(),
                start.wf(),
                state.wf(),
                sweep == start.sweep(),
                state.sweep() == start.sweep(),
                state.sample_rate == start.sample_rate,
                params.covers(n as int),
                sines@.len() >= active,
                tans@.len() >= active,
                forall|c: int| 0 <= c < sines@.len() ==> (#[trigger] sines@[c])@.len() >= n,
                forall|c: int| 0 <= c < tans@.len() ==> (#[trigger] tans@[c])@.len() >= n,
                buffer.rewritten(before, active as int),
                forall|c: int|
                    0 <= c < 2 ==> #[trigger] state.lane(c) == (if c < ch {
                        lane_after(
                            sweep,
                            *params,
                            c as usize,
                            sines@[c]@,
                            tans@[c]@,
                            start.lane(c),
                            before.incoming(c),
                            n as nat,
                        )
                    } else {
                        start.lane(c)
                    }),
                forall|c: int|
                    0 <= c < ch ==> (#[trigger] buffer.output@[c])@ == rendered(
                        sweep,
                        *params,
                        c as usize,
                        sines@[c]@,
                        tans@[c]@,
                        start.lane(c),
                        before.incoming(c),
                        n as nat,
                    ),
            decreases active - ch,
        {
            let ghost here = *state;
            assert(state.lane(ch as int) == start.lane(ch as int));
            let mut feedback = state.feedback_state[ch];
            render(
                sweep,
                params,
                ch,
                &sines[ch],
                &tans[ch],
                &mut state.filters[ch],
                &mut feedback,
                &buffer.input[ch],
                &mut buffer.output[ch],
            );
            state.feedback_state[ch] = feedback;
            assert forall|c: int| 0 <= c < 2 && c != ch implies #[trigger] state.lane(c)
                == here.lane(c) by {}
            ch = ch + 1;
        }
        sweep.run(params, n);
        let ghost done = *state;
        state.lfo_phase = sweep.phase;
        state.sample_counter = sweep.counter;
        assert forall|c: int| 0 <= c < 2 implies #[trigger] state.lane(c) == done.lane(c) by {}
    }
}

/// Whatever its shape, the oscillator lies between 0 and 1.
pub proof fn law_lfo_unipolar(phase: Single, waveform: Waveform, sine: Single)
    requires
        on_turn(phase),
        within(sine, num(0xbf80_0000), num(ONE)),
    ensures
        within(lfo(phase, waveform, sine), num(0), num(ONE)),
{
    lemma_turn_within(phase);
    match waveform {
        Waveform::Sine => law_sine_unipolar(sine),
        Waveform::Triangle => law_triangle_unipolar(phase),
        Waveform::Square => {
            lemma_constants();
            lemma_within(num(0), num(0), num(ONE));
            lemma_within(num(ONE), num(0), num(ONE));
        },
        Waveform::Sawtooth => law_sawtooth_unipolar(phase),
    }
}

/// Between two samples that are due for retuning lie 31 that are not, also where the count starts
/// over.
pub proof fn law_due_once_per_interval(sweep: Sweep, params: PhaserParams, i: nat)
    requires
        sweep.due(),
    ensures
        sweep.after(params, i).due() <==> i % (UPDATE_INTERVAL as nat) == 0,
{
    let c = sweep.counter as int;
    assert(((c + i) % 0x1_0000_0000) % 32 == (i as int) % 32) by {
        lemma_mod_mod(c + i, 32, 0x800_0000);
    }
}

impl PhaserParams {
    /// Whether these are the controls that `whole` holds from sample `i` on, for `n` samples.
    pub open spec fn resumes(self, whole: PhaserParams, i: nat, n: nat) -> bool {
        &&& self.stages == whole.stages
        &&& self.waveform == whole.waveform
        &&& self.stereo == whole.stereo
        &&& resumes(self.depth@, whole.depth@, i, n)
        &&& resumes(self.feedback@, whole.feedback@, i, n)
        &&& resumes(self.min_freq@, whole.min_freq@, i, n)
        &&& resumes(self.sweep_width@, whole.sweep_width@, i, n)
        &&& resumes(self.lfo_rate@, whole.lfo_rate@, i, n)
    }
}

/// Two blocks lead the sweep where one block of both leads it.
pub proof fn law_sweep_joins(
    sweep: Sweep,
    whole: PhaserParams,
    part: PhaserParams,
    i: nat,
    j: nat,
)
    requires
        part.resumes(whole, i, j),
    ensures
        sweep.after(whole, i + j) == sweep.after(whole, i).after(part, j),
{
    law_scaled_phase_joins(
        sweep.phase,
        whole.lfo_rate@,
        part.lfo_rate@,
        sweep.inv_sr,
        i,
        j,
    );
    lemma_add_mod_noop(
        (sweep.counter + i) as int,
        j as int,
        0x1_0000_0000,
    );
    lemma_add_mod_noop(
        (sweep.counter + i) as int % 0x1_0000_0000,
        j as int,
        0x1_0000_0000,
    );
}

/// The filters are the same at the same sample of one block and of its second part.
proof fn lemma_filters_join(
    sweep: Sweep,
    whole: PhaserParams,
    part: PhaserParams,
    ch: usize,
    sines: Seq<Single>,
    part_sines: Seq<Single>,
    tans: Seq<Single>,
    part_tans: Seq<Single>,
    lane: Lane,
    i: nat,
    k: nat,
)
    requires
        part.resumes(whole, i, k + 1),
        resumes(part_sines, sines, i, k + 1),
        resumes(part_tans, tans, i, k + 1),
    ensures
        filters_at(sweep, whole, ch, sines, tans, lane, i + k) == filters_at(
            sweep.after(whole, i),
            part,
            ch,
            part_sines,
            part_tans,
            lane,
            k,
        ),
{
    let m = k as int;
    assert(part.resumes(whole, i, k));
    law_sweep_joins(sweep, whole, part, i, k);
    assert(part_sines[m] == sines[i + m]);
    assert(part_tans[m] == tans[i + m]);
    assert(part.min_freq@[m] == whole.min_freq@[i + m]);
    assert(part.sweep_width@[m] == whole.sweep_width@[i + m]);
}

/// A block leaves a channel as its two parts leave it, one after the other.
pub proof fn law_lane_joins(
    sweep: Sweep,
    whole: PhaserParams,
    part: PhaserParams,
    ch: usize,
    sines: Seq<Single>,
    part_sines: Seq<Single>,
    tans: Seq<Single>,
    part_tans: Seq<Single>,
    lane: Lane,
    input: Seq<Single>,
    part_input: Seq<Single>,
    i: nat,
    j: nat,
)
    requires
        part.resumes(whole, i, j),
        resumes(part_sines, sines, i, j),
        resumes(part_tans, tans, i, j),
        resumes(part_input, input, i, j),
    ensures
        lane_after(sweep, whole, ch, sines, tans, lane, input, i + j) == lane_after(
            sweep.after(whole, i),
            part,
            ch,
            part_sines,
            part_tans,
            lane_after(sweep, whole, ch, sines, tans, lane, input, i),
            part_input,
            j,
        ),
    decreases j,
{
    if j > 0 {
        let k = (j - 1) as nat;
        assert((i + j - 1) as nat == i + k);
        law_lane_joins(
            sweep,
            whole,
            part,
            ch,
            sines,
            part_sines,
            tans,
            part_tans,
            lane,
            input,
            part_input,
            i,
            k,
        );
        let now = lane_after(sweep, whole, ch, sines, tans, lane, input, i + k);
        lemma_filters_join(
            sweep,
            whole,
            part,
            ch,
            sines,
            part_sines,
            tans,
            part_tans,
            now,
            i,
            k,
        );
        assert(part_input[k as int] == input[(i + k) as int]);
        assert(part.feedback@[k as int] == whole.feedback@[(i + k) as int]);
    }
}

/// What goes out in one block goes out in its two parts, one after the other.
pub proof fn law_output_joins(
    sweep: Sweep,
    whole: PhaserParams,
    part: PhaserParams,
    ch: usize,
    sines: Seq<Single>,
    part_sines: Seq<Single>,
    tans: Seq<Single>,
    part_tans: Seq<Single>,
    lane: Lane,
    input: Seq<Single>,
    part_input: Seq<Single>,
    i: nat,
    j: nat,
)
    requires
        part.resumes(whole, i, j),
        resumes(part_sines, sines, i, j),
        resumes(part_tans, tans, i, j),
        resumes(part_input, input, i, j),
    ensures
        rendered(sweep, whole, ch, sines, tans, lane, input, i + j) == rendered(
            sweep,
            whole,
            ch,
            sines,
            tans,
            lane,
            input,
            i,
        ) + rendered(
            sweep.after(whole, i),
            part,
            ch,
            part_sines,
            part_tans,
            lane_after(sweep, whole, ch, sines, tans, lane, input, i),
            part_input,
            j,
        ),
{
    let both = rendered(sweep, whole, ch, sines, tans, lane, input, i) + rendered(
        sweep.after(whole, i),
        part,
        ch,
        part_sines,
        part_tans,
        lane_after(sweep, whole, ch, sines, tans, lane, input, i),
        part_input,
        j,
    );
    let all = rendered(sweep, whole, ch, sines, tans, lane, input, i + j);
    assert forall|m: int| 0 <= m < i + j implies #[trigger] all[m] == both[m] by {
        if m >= i {
            let k = (m - i) as nat;
            assert(m as nat == i + k);
            law_lane_joins(
                sweep,
                whole,
                part,
                ch,
                sines,
                part_sines,
                tans,
                part_tans,
                lane,
                input,
                part_input,
                i,
                k,
            );
            let now = lane_after(sweep, whole, ch, sines, tans, lane, input, i + k);
            lemma_filters_join(
                sweep,
                whole,
                part,
                ch,
                sines,
                part_sines,
                tans,
                part_tans,
                now,
                i,
                k,
            );
            assert(part_input[k as int] == input[(i + k) as int]);
            assert(part.feedback@[k as int] == whole.feedback@[(i + k) as int]);
            assert(part.depth@[k as int] == whole.depth@[(i + k) as int]);
        }
    }
    assert(all =~= both);
}

} // verus!
