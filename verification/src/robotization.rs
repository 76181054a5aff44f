//! Robotization and whisperization: a short-time spectrum whose phases are set to zero, which
//! gives a voice of constant pitch, or to random angles, which gives a voice without pitch.
//!
//! The size of the frames, the hop and the window can change at the start of every block.
use crate::audio::{silent, silent_lines, AudioBuffer};
use crate::float::single::{num, Single};
use crate::modulation::{ONE, TAU};
use crate::ring::MAX_LINE;
use crate::spectral::{
    bartlett, bartlett_window, hamming, hanning, narrow_all, narrowed, rectangle, rectangle_window,
    ring_fed, scale_of, smooth, views, window_scale, Bin, Pieces, Spool,
};
use vstd::prelude::*;

pub use crate::spectral::HopRatio;

verus! {

#[derive(Clone, Copy, PartialEq, Eq, Structural, Debug)]
pub enum Effect {
    PassThrough,
    Robotization,
    Whisperization,
}

#[derive(Clone, Copy, PartialEq, Eq, Structural, Debug)]
pub enum FftSize {
    S32,
    S64,
    S128,
    S256,
    S512,
    S1024,
    S2048,
    S4096,
}

impl FftSize {
    pub open spec fn samples_spec(self) -> usize {
        match self {
            FftSize::S32 => 32,
            FftSize::S64 => 64,
            FftSize::S128 => 128,
            FftSize::S256 => 256,
            FftSize::S512 => 512,
            FftSize::S1024 => 1024,
            FftSize::S2048 => 2048,
            FftSize::S4096 => 4096,
        }
    }

    /// How many samples a frame has.
    #[verifier::when_used_as_spec(samples_spec)]
    pub fn samples(self) -> (r: usize)
        ensures
            r == self.samples_spec(),
            32 <= r <= 4096,
    {
        match self {
            FftSize::S32 => 32,
            FftSize::S64 => 64,
            FftSize::S128 => 128,
            FftSize::S256 => 256,
            FftSize::S512 => 512,
            FftSize::S1024 => 1024,
            FftSize::S2048 => 2048,
            FftSize::S4096 => 4096,
        }
    }
}

#[derive(Clone, Copy, PartialEq, Eq, Structural, Debug)]
pub enum WindowType {
    Rectangular,
    Bartlett,
    Hann,
    Hamming,
}

/// What the controls say at the start of a block.
#[derive(Clone, Copy, PartialEq, Eq, Structural)]
pub struct RobotParams {
    pub effect: Effect,
    pub fft_size: FftSize,
    pub hop: HopRatio,
    pub window: WindowType,
}

/// Whether `w` can be the window of `len` samples. The straight windows are fixed; the smooth ones
/// are coefficients that come from the machine's cosine, of which nothing more is said.
pub open spec fn suits(window: WindowType, len: usize, w: Seq<Single>) -> bool {
    &&& w.len() == len
    &&& window is Rectangular ==> w == rectangle(len as nat)
    &&& window is Bartlett ==> w == bartlett(len)
    &&& window is Hann || window is Hamming ==> smooth(len, w)
}

/// The window of `len` samples, `hann` and `hamming` being the coefficients of the smooth ones.
pub open spec fn chosen(
    window: WindowType,
    len: usize,
    hann: Seq<u64>,
    hamming: Seq<u64>,
) -> Seq<Single> {
    match window {
        WindowType::Rectangular => rectangle(len as nat),
        WindowType::Bartlett => bartlett(len),
        WindowType::Hann => narrowed(hann),
        WindowType::Hamming => narrowed(hamming),
    }
}

/// The window of `len` samples, `hann` and `hamming` being the coefficients of the smooth ones. Of
/// those only the ones of the window that is asked for are read.
pub fn window_of(
    window: WindowType,
    len: usize,
    hann: &Vec<u64>,
    hamming: &Vec<u64>,
) -> (r: Vec<Single>)
    requires
        window is Bartlett ==> 0 < len,
    ensures
        r@ == chosen(window, len, hann@, hamming@),
{
    match window {
        WindowType::Rectangular => rectangle_window(len),
        WindowType::Bartlett => bartlett_window(len),
        WindowType::Hann => narrow_all(hann),
        WindowType::Hamming => narrow_all(hamming),
    }
}

/// Makes a window.
pub fn build_window(window: WindowType, len: usize) -> (r: Vec<Single>)
    requires
        window is Bartlett ==> 0 < len,
        window is Hann || window is Hamming ==> 1 < len,
    ensures
        suits(window, len, r@),
{
    match window {
        WindowType::Rectangular => window_of(window, len, &Vec::new(), &Vec::new()),
        WindowType::Bartlett => window_of(window, len, &Vec::new(), &Vec::new()),
        WindowType::Hann => window_of(window, len, &hanning(len), &Vec::new()),
        WindowType::Hamming => window_of(window, len, &Vec::new(), &hamming(len)),
    }
}

pub open spec fn at_least_one_spec(n: usize) -> usize {
    if n < 1 { 1 } else { n }
}

/// The number, or one where it is less.
#[verifier::when_used_as_spec(at_least_one_spec)]
pub fn at_least_one(n: usize) -> (r: usize)
    ensures
        r == at_least_one_spec(n),
{
    if n < 1 { 1 } else { n }
}

/// The rings of every channel, the window, and where they stand.
pub struct Stft {
    pub fft_size: usize,
    pub overlap: usize,
    pub hop_size: usize,
    pub window_type: WindowType,
    pub window: Vec<Single>,
    pub window_scale: Single,
    pub input_buffer: Vec<Vec<Single>>,
    pub output_buffer: Vec<Vec<Single>>,
    pub input_write_pos: usize,
    pub output_write_pos: usize,
    pub output_read_pos: usize,
    pub samples_since_last_fft: usize,
}

impl Stft {
    pub open spec fn wf(self) -> bool {
        &&& 1 < self.fft_size <= MAX_LINE
        &&& self.hop_size == self.fft_size / at_least_one(self.overlap)
        &&& suits(self.window_type, self.fft_size, self.window@)
        &&& self.window_scale == scale_of(self.window@, self.overlap)
        &&& 1 <= self.input_buffer@.len() == self.output_buffer@.len()
        &&& forall|ch: int|
            0 <= ch < self.input_buffer@.len() ==> (#[trigger] self.input_buffer@[ch])@.len()
                == self.fft_size
        &&& forall|ch: int|
            0 <= ch < self.output_buffer@.len() ==> (#[trigger] self.output_buffer@[ch])@.len()
                == self.fft_size
        &&& self.input_write_pos < self.fft_size
        &&& self.output_write_pos < self.fft_size
        &&& self.output_read_pos < self.fft_size
        &&& self.samples_since_last_fft <= self.fft_size
    }

    pub open spec fn spool_spec(&self) -> Spool {
        Spool {
            in_len: self.fft_size,
            out_len: self.fft_size,
            hop: at_least_one(self.hop_size),
            input_write: self.input_write_pos,
            output_write: self.output_write_pos,
            output_read: self.output_read_pos,
            count: self.samples_since_last_fft,
        }
    }

    /// Where every channel stands.
    #[verifier::when_used_as_spec(spool_spec)]
    pub fn spool(&self) -> (r: Spool)
        ensures
            r == self.spool_spec(),
    {
        Spool {
            in_len: self.fft_size,
            out_len: self.fft_size,
            hop: at_least_one(self.hop_size),
            input_write: self.input_write_pos,
            output_write: self.output_write_pos,
            output_read: self.output_read_pos,
            count: self.samples_since_last_fft,
        }
    }

    /// The places are on the rings.
    pub proof fn lemma_spool(self)
        requires
            self.wf(),
        ensures
            self.spool().wf(),
    {
        let d = at_least_one(self.overlap) as int;
        assert(self.fft_size as int / d <= self.fft_size) by (nonlinear_arith)
            requires
                d >= 1,
        ;
    }

    /// All rings are silent and there are `lanes` of each kind.
    pub open spec fn silenced(self, lanes: usize) -> bool {
        &&& self.input_buffer@.len() == lanes
        &&& self.output_buffer@.len() == lanes
        &&& forall|ch: int|
            0 <= ch < lanes ==> (#[trigger] self.input_buffer@[ch])@ == silent(
                self.fft_size as nat,
            )
        &&& forall|ch: int|
            0 <= ch < lanes ==> (#[trigger] self.output_buffer@[ch])@ == silent(
                self.fft_size as nat,
            )
        &&& self.input_write_pos == 0
        &&& self.output_read_pos == 0
        &&& self.samples_since_last_fft == 0
    }

    /// Silent rings for frames of 512 samples with the Hann window, eight of which overlap.
    pub fn new(num_channels: usize) -> (r: Stft)
        ensures
            r.wf(),
            r.fft_size == 512,
            r.overlap == 8,
            r.hop_size == 64,
            r.window_type is Hann,
            r.silenced(at_least_one(num_channels)),
            r.output_write_pos == 64,
    {
        let lanes = at_least_one(num_channels);
        let window = build_window(WindowType::Hann, 512);
        let scale = window_scale(&window, 8);
        Stft {
            fft_size: 512,
            overlap: 8,
            hop_size: 64,
            window_type: WindowType::Hann,
            window,
            window_scale: scale,
            input_buffer: silent_lines(lanes, 512),
            output_buffer: silent_lines(lanes, 512),
            input_write_pos: 0,
            output_write_pos: 64,
            output_read_pos: 0,
            samples_since_last_fft: 0,
        }
    }

    /// Takes over the size, the overlap and the window. Another size silences the rings; any
    /// change makes the window anew and puts the next piece one hop in.
    pub fn reconfigure(
        &mut self,
        fft_size: usize,
        overlap: usize,
        window_type: WindowType,
        num_channels: usize,
    )
        requires
            old(self).wf(),
            1 < fft_size <= MAX_LINE,
        ensures
            final(self).wf(),
            final(self).fft_size == fft_size,
            final(self).overlap == overlap,
            final(self).window_type == window_type,
            final(self).hop_size == fft_size / at_least_one(overlap),
            fft_size != old(self).fft_size ==> final(self).silenced(at_least_one(num_channels)),
            fft_size == old(self).fft_size ==> final(self).input_buffer == old(self).input_buffer
                && final(self).output_buffer == old(self).output_buffer
                && final(self).input_write_pos == old(self).input_write_pos
                && final(self).output_read_pos == old(self).output_read_pos
                && final(self).samples_since_last_fft == old(self).samples_since_last_fft,
            if fft_size != old(self).fft_size || overlap != old(self).overlap || window_type
                != old(self).window_type {
                final(self).output_write_pos == (if final(self).hop_size < fft_size {
                    final(self).hop_size as int
                } else {
                    fft_size - 1
                })
            } else {
                final(self).window == old(self).window && final(self).output_write_pos
                    == old(self).output_write_pos
            },
    {
        let size_changed = fft_size != self.fft_size;
        let changed = size_changed || overlap != self.overlap || window_type != self.window_type;
        if size_changed {
            let lanes = at_least_one(num_channels);
            self.input_buffer = silent_lines(lanes, fft_size);
            self.output_buffer = silent_lines(lanes, fft_size);
            self.input_write_pos = 0;
            self.output_read_pos = 0;
            self.samples_since_last_fft = 0;
        }
        if changed {
            self.window = build_window(window_type, fft_size);
            self.window_scale = window_scale(&self.window, overlap);
            self.hop_size = fft_size / at_least_one(overlap);
            self.output_write_pos = if self.hop_size < fft_size {
                self.hop_size
            } else {
                fft_size - 1
            };
        }
        self.fft_size = fft_size;
        self.overlap = overlap;
        self.window_type = window_type;
    }

    /// The frames that a block completes on a channel, oldest sample first and with the window
    /// applied.
    pub fn analysis(&self, channel: usize, input: &Vec<Single>) -> (r: Vec<Vec<Single>>)
        requires
            self.wf(),
            channel < self.input_buffer@.len(),
        ensures
            r@.len() == self.spool().hops(input@.len()),
            views(r@) == self.spool().frames(
                self.input_buffer@[channel as int]@,
                self.window@,
                input@,
                input@.len(),
            ),
    {
        proof {
            self.lemma_spool();
        }
        self.spool().collect_frames(&self.input_buffer[channel], &self.window, input)
    }

    /// What is added onto the ring for a frame that has come back from its spectrum: the inverse
    /// transform is `fft_size` times too loud, and the windows overlap.
    pub open spec fn piece(self, wave: Seq<Single>) -> Seq<Single> {
        let inv_n = num(ONE) / Single::from_usize(self.fft_size);
        wave.map_values(|x: Single| x * self.window_scale * inv_n)
    }

    /// The pieces of a list of waves.
    pub open spec fn pieces(self, waves: Seq<Vec<Single>>) -> Seq<Seq<Single>> {
        waves.map_values(|wave: Vec<Single>| self.piece(wave@))
    }
}

/// The frames that have come back, scaled as they are added onto the ring.
struct Scaled<'a> {
    waves: &'a Vec<Vec<Single>>,
    scale: Single,
    inv_n: Single,
}

impl<'a> Pieces for Scaled<'a> {
    closed spec fn contents(&self) -> Seq<Seq<Single>> {
        self.waves@.map_values(
            |wave: Vec<Single>| wave@.map_values(|x: Single| x * self.scale * self.inv_n),
        )
    }

    closed spec fn wf(&self) -> bool {
        true
    }

    fn length(&self, h: usize) -> (r: usize) {
        self.waves[h].len()
    }

    fn sample(&self, h: usize, j: usize) -> (r: Single) {
        self.waves[h][j] * self.scale * self.inv_n
    }
}

pub open spec fn whisper_angle_spec(draw: Single) -> Single {
    num(TAU) * draw
}

/// The angle of a bin for a number drawn between 0 and 1.
#[verifier::when_used_as_spec(whisper_angle_spec)]
pub fn whisper_angle(draw: Single) -> (r: Single)
    ensures
        r == whisper_angle_spec(draw),
{
    num(TAU) * draw
}

/// What an effect makes of bin `k`. Robotization takes the phase away: the first and the middle
/// bin, which are real, keep their sign, and those between become their magnitude. Whisperization
/// turns the bin to the direction whose sine and cosine are given, but for the first and the middle
/// one, which stay real.
pub open spec fn modified(
    effect: Effect,
    bin: Bin,
    k: int,
    fft_size: usize,
    direction: (Single, Single),
) -> Bin {
    match effect {
        Effect::PassThrough => bin,
        Effect::Robotization => if k == 0 || k == fft_size / 2 {
            Bin { re: bin.re, im: num(0) }
        } else {
            Bin { re: bin.magnitude(), im: num(0) }
        },
        Effect::Whisperization => if k == 0 || k == fft_size / 2 {
            Bin { re: bin.magnitude(), im: num(0) }
        } else {
            bin.turned(direction.0, direction.1)
        },
    }
}

/// Applies an effect to a spectrum.
pub fn modify(
    effect: Effect,
    freq: &mut Vec<Bin>,
    fft_size: usize,
    directions: &Vec<(Single, Single)>,
)
    requires
        effect is Whisperization ==> directions@.len() >= old(freq)@.len(),
    ensures
        final(freq)@ == Seq::new(
            old(freq)@.len(),
            |k: int| modified(effect, old(freq)@[k], k, fft_size, directions@[k]),
        ),
{
    let ghost start = freq@;
    let n = freq.len();
    let nyquist = fft_size / 2;
    let mut k: usize = 0;
    while k < n
        invariant
            k <= n,
            n == start.len(),
            freq@.len() == n,
            nyquist == fft_size / 2,
            effect is Whisperization ==> directions@.len() >= n,
            forall|j: int|
                0 <= j < n ==> #[trigger] freq@[j] == (if j < k {
                    modified(effect, start[j], j, fft_size, directions@[j])
                } else {
                    start[j]
                }),
        decreases n - k,
    {
        let bin = freq[k];
        match effect {
            Effect::PassThrough => {},
            Effect::Robotization => {
                if k == 0 || k == nyquist {
                    freq[k] = Bin { re: bin.re, im: num(0) };
                } else {
                    freq[k] = Bin { re: bin.magnitude(), im: num(0) };
                }
            },
            Effect::Whisperization => {
                if k == 0 || k == nyquist {
                    freq[k] = Bin { re: bin.magnitude(), im: num(0) };
                } else {
                    freq[k] = bin.turned(directions[k].0, directions[k].1);
                }
            },
        }
        k = k + 1;
    }
}

/// The effect; its state is a `RobotizationDsp`.
pub struct Robotization;

pub struct RobotizationDsp {
    pub stft: Option<Stft>,
    pub num_channels: usize,
}

impl Default for RobotizationDsp {
    fn default() -> (r: RobotizationDsp)
        ensures
            r.wf(),
            r.stft is None,
            r.num_channels == 2,
    {
        RobotizationDsp { stft: None, num_channels: 2 }
    }
}

impl RobotizationDsp {
    pub open spec fn wf(self) -> bool {
        self.stft is Some ==> self.stft->0.wf()
    }

    /// There are rings for every channel of a block that holds any samples.
    pub open spec fn ready(self, buffer: AudioBuffer) -> bool {
        &&& self.stft is Some
        &&& self.stft->0.wf()
        &&& buffer.wf()
        &&& buffer.samples > 0 ==> buffer.input@.len() <= self.stft->0.input_buffer@.len()
    }
}

/// The frames of every channel have come back.
pub open spec fn returned(stft: Stft, waves: Seq<Vec<Vec<Single>>>, buffer: AudioBuffer) -> bool {
    &&& waves.len() >= buffer.input@.len()
    &&& forall|ch: int|
        0 <= ch < buffer.input@.len() ==> (#[trigger] waves[ch])@.len() >= stft.spool().hops(
            buffer.samples as nat,
        )
}

impl Robotization {
    /// Starts over with silent rings for the channels of the last block.
    pub fn reset(state: &mut RobotizationDsp)
        ensures
            final(state).wf(),
            final(state).num_channels == old(state).num_channels,
            final(state).stft is Some,
            final(state).stft->0.fft_size == 512,
            final(state).stft->0.overlap == 8,
            final(state).stft->0.window_type is Hann,
            final(state).stft->0.silenced(at_least_one(old(state).num_channels)),
            final(state).stft->0.output_write_pos == 64,
    {
        state.stft = Some(Stft::new(state.num_channels));
    }

    /// Takes the controls over at the start of a block of `channels` channels.
    pub fn prepare(state: &mut RobotizationDsp, params: RobotParams, channels: usize)
        requires
            old(state).wf(),
        ensures
            final(state).wf(),
            final(state).num_channels == at_least_one(channels),
            final(state).stft is Some,
            final(state).stft->0.fft_size == params.fft_size.samples(),
            final(state).stft->0.overlap == params.hop.overlap(),
            final(state).stft->0.window_type == params.window,
            ({
                let after = final(state).stft->0;
                let size = params.fft_size.samples();
                let hop = size / params.hop.overlap();
                match old(state).stft {
                    None => after.silenced(at_least_one(channels)) && after.output_write_pos == hop,
                    Some(before) => {
                        &&& size != before.fft_size ==> after.silenced(at_least_one(channels))
                        &&& size == before.fft_size ==> after.input_buffer == before.input_buffer
                            && after.output_buffer == before.output_buffer && after.input_write_pos
                            == before.input_write_pos && after.output_read_pos
                            == before.output_read_pos && after.samples_since_last_fft
                            == before.samples_since_last_fft
                        &&& if size != before.fft_size || params.hop.overlap() != before.overlap
                            || params.window != before.window_type {
                            after.output_write_pos == hop
                        } else {
                            after.window == before.window && after.output_write_pos
                                == before.output_write_pos
                        }
                    },
                }
            }),
    {
        state.num_channels = at_least_one(channels);
        let size = params.fft_size.samples();
        let overlap = params.hop.overlap();
        assert(size / overlap < size) by (nonlinear_arith)
            requires
                size >= 32,
                overlap >= 2,
        ;
        let mut stft = match state.stft.take() {
            Some(stft) => stft,
            None => Stft::new(state.num_channels),
        };
        stft.reconfigure(size, overlap, params.window, state.num_channels);
        state.stft = Some(stft);
    }

    /// The frames that a block completes on a channel, for the forward transform.
    pub fn frames(state: &RobotizationDsp, buffer: &AudioBuffer, ch: usize) -> (r: Vec<
        Vec<Single>,
    >)
        requires
            state.ready(*buffer),
            ch < buffer.input@.len(),
        ensures
            r@.len() == state.stft->0.spool().hops(buffer.samples as nat),
            views(r@) == state.stft->0.spool().frames(
                state.stft->0.input_buffer@[ch as int]@,
                state.stft->0.window@,
                buffer.incoming(ch as int),
                buffer.samples as nat,
            ),
    {
        if buffer.num_samples() == 0 {
            return Vec::new();
        }
        match &state.stft {
            Some(stft) => stft.analysis(ch, &buffer.input[ch]),
            None => Vec::new(),
        }
    }

    /// Works on one block. `waves` holds for every channel what came back from the inverse
    /// transform for each of its `frames`.
    pub fn process(
        state: &mut RobotizationDsp,
        waves: &Vec<Vec<Vec<Single>>>,
        buffer: &mut AudioBuffer,
    )
        requires
            old(state).ready(*old(buffer)),
            returned(old(state).stft->0, waves@, *old(buffer)),
        ensures
            final(state).wf(),
            final(state).num_channels == old(state).num_channels,
            final(state).stft is Some,
            ({
                let before = old(state).stft->0;
                let after = final(state).stft->0;
                let n = old(buffer).samples as nat;
                &&& after.fft_size == before.fft_size
                &&& after.overlap == before.overlap
                &&& after.hop_size == before.hop_size
                &&& after.window_type == before.window_type
                &&& after.window == before.window
                &&& after.window_scale == before.window_scale
                &&& after.spool() == (if old(buffer).input@.len() > 0 {
                    before.spool().after(n)
                } else {
                    before.spool()
                })
                &&& after.input_buffer@.len() == before.input_buffer@.len()
                &&& after.output_buffer@.len() == before.output_buffer@.len()
                &&& forall|ch: int|
                    0 <= ch < old(buffer).input@.len() ==> (#[trigger] after.input_buffer@[ch])@
                        == ring_fed(
                        before.input_buffer@[ch]@,
                        before.input_write_pos,
                        old(buffer).incoming(ch),
                        n,
                    )
                &&& forall|ch: int|
                    0 <= ch < old(buffer).input@.len() ==> (#[trigger] after.output_buffer@[ch])@
                        == before.spool().ring_after(
                        before.output_buffer@[ch]@,
                        before.pieces(waves@[ch]@),
                        n,
                    )
                &&& forall|ch: int|
                    old(buffer).input@.len() <= ch < before.input_buffer@.len()
                        ==> #[trigger] after.input_buffer@[ch] == before.input_buffer@[ch]
                &&& forall|ch: int|
                    old(buffer).input@.len() <= ch < before.output_buffer@.len()
                        ==> #[trigger] after.output_buffer@[ch] == before.output_buffer@[ch]
                &&& forall|ch: int|
                    0 <= ch < old(buffer).input@.len() ==> (#[trigger] final(buffer).output@[ch])@
                        == before.spool().played(
                        before.output_buffer@[ch]@,
                        before.pieces(waves@[ch]@),
                        n,
                    )
            }),
            final(buffer).rewritten(*old(buffer), old(buffer).input@.len() as int),
    {
        let ghost before = *buffer;
        let ghost start = state.stft->0;
        let channels = buffer.channels();
        let n = buffer.num_samples();
        if n == 0 {
            return ;
        }
        if let Some(mut stft) = state.stft.take() {
            proof {
                stft.lemma_spool();
            }
            let mut spool = stft.spool();
            let mut ch: usize = 0;
            while ch < channels
                invariant
                    ch <= channels,
                    channels == before.input@.len(),
                    n == before.samples,
                    before.wf(),
                    start.wf(),
                    spool == start.spool(),
                    spool.wf(),
                    returned(start, waves@, before),
                    channels <= start.input_buffer@.len(),
                    stft.wf(),
                    stft == (Stft {
                        input_buffer: stft.input_buffer,
                        output_buffer: stft.output_buffer,
                        ..start
                    }),
                    stft.input_buffer@.len() == start.input_buffer@.len(),
                    stft.output_buffer@.len() == start.output_buffer@.len(),
                    buffer.rewritten(before, channels as int),
                    forall|c: int|
                        0 <= c < ch ==> (#[trigger] stft.input_buffer@[c])@ == ring_fed(
                            start.input_buffer@[c]@,
                            start.input_write_pos,
                            before.incoming(c),
                            n as nat,
                        ),
                    forall|c: int|
                        0 <= c < ch ==> (#[trigger] stft.output_buffer@[c])@ == spool.ring_after(
                            start.output_buffer@[c]@,
                            start.pieces(waves@[c]@),
                            n as nat,
                        ),
                    forall|c: int|
                        ch <= c < start.input_buffer@.len() ==> #[trigger] stft.input_buffer@[c]
                            == start.input_buffer@[c],
                    forall|c: int|
                        ch <= c < start.output_buffer@.len() ==> #[trigger] stft.output_buffer@[c]
                            == start.output_buffer@[c],
                    forall|c: int|
                        0 <= c < ch ==> (#[trigger] buffer.output@[c])@ == spool.played(
                            start.output_buffer@[c]@,
                            start.pieces(waves@[c]@),
                            n as nat,
                        ),
                decreases channels - ch,
            {
                let pieces = Scaled {
                    waves: &waves[ch],
                    scale: stft.window_scale,
                    inv_n: num(ONE) / Single::from_usize(stft.fft_size),
                };
                assert(pieces.contents() =~= start.pieces(waves@[ch as int]@));
                spool.play(
                    &mut stft.input_buffer[ch],
                    &mut stft.output_buffer[ch],
                    &pieces,
                    &buffer.input[ch],
                    &mut buffer.output[ch],
                );
                ch = ch + 1;
            }
            if channels > 0 {
                spool.run(n);
                proof {
                    start.spool().lemma_after(n as nat);
                }
            }
            stft.input_write_pos = spool.input_write;
            stft.output_write_pos = spool.output_write;
            stft.output_read_pos = spool.output_read;
            stft.samples_since_last_fft = spool.count;
            state.stft = Some(stft);
        }
    }
}

/// Robotization leaves no phase: every bin is real, the first and the middle one are what they
/// were where they were real, and of the bins between only the magnitude counts.
pub proof fn law_robotized_bins_are_real(
    bin: Bin,
    other: Bin,
    k: int,
    fft_size: usize,
    way: (Single, Single),
)
    ensures
        modified(Effect::Robotization, bin, k, fft_size, way).im == num(0),
        (k == 0 || k == fft_size / 2) && bin.im == num(0) ==> modified(
            Effect::Robotization,
            bin,
            k,
            fft_size,
            way,
        ) == bin,
        k != 0 && k != fft_size / 2 && bin.magnitude() == other.magnitude() ==> modified(
            Effect::Robotization,
            bin,
            k,
            fft_size,
            way,
        ) == modified(Effect::Robotization, other, k, fft_size, way),
{
}

/// Both effects leave the first and the middle bin real, whatever direction was drawn, so that
/// nothing of them leaks into the inverse transform.
pub proof fn law_ends_stay_real(
    effect: Effect,
    bin: Bin,
    k: int,
    fft_size: usize,
    way: (Single, Single),
)
    requires
        k == 0 || k == fft_size / 2,
        effect !is PassThrough,
    ensures
        modified(effect, bin, k, fft_size, way).im == num(0),
{
}

} // verus!
