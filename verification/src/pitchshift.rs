//! Pitch shift: a phase vocoder. Every frame is taken apart into magnitudes and phases, the phases
//! are advanced by the shift, and the frame is put together again and resampled.
//!
//! The size of the frames, the hop and the window can change at the start of every block.
use crate::audio::{silence, silent, silent_lines, AudioBuffer};
use crate::float::encoding::Format;
use crate::float::facts::{
    lemma_add, lemma_compare, lemma_constant, lemma_constants, lemma_div, lemma_finite_number,
    lemma_floor, lemma_from_usize, lemma_large_constant, lemma_mul, lemma_negated, lemma_remainder,
    lemma_round_between, lemma_scaled, lemma_sub, lemma_to_usize, lemma_unit_positive, lemma_whole,
    lemma_within, unit, within,
};
use crate::float::order::{gap, lemma_bits_order, lemma_parts, lemma_sum_below};
use crate::float::single::{num, Single};
use crate::modulation::{linear, HALF, ONE, TAU, TWO};
use crate::ring::MAX_LINE;
use crate::robotization::at_least_one;
use crate::spectral::{
    bartlett, bartlett_window, copied, hamming, hanning, narrow_all, narrowed, ring_fed, scale_of,
    smooth, views, window_scale, Bin, Pieces, Spool,
};
use vstd::arithmetic::div_mod::{
    lemma_fundamental_div_mod, lemma_fundamental_div_mod_converse, lemma_mod_bound,
};
use vstd::arithmetic::power2::{
    lemma2_to64, lemma2_to64_rest, lemma_pow2_adds, lemma_pow2_pos, lemma_pow2_strictly_increases,
    lemma_pow2_unfold, pow2,
};
use vstd::prelude::*;

pub use crate::spectral::HopRatio;

verus! {

/// Pi.
pub const PI: u32 = 0x4049_0fdb;

/// The semitones of an octave, 12.
pub const OCTAVE: u32 = 0x4140_0000;

/// The least ratio of a shift, 0.001.
pub const LEAST_RATIO: u32 = 0x3a83_126f;

#[derive(Clone, Copy, PartialEq, Eq, Structural, Debug)]
pub enum FftSize {
    S256,
    S512,
    S1024,
    S2048,
    S4096,
}

impl FftSize {
    pub open spec fn samples_spec(self) -> usize {
        match self {
            FftSize::S256 => 256,
            FftSize::S512 => 512,
            FftSize::S1024 => 1024,
            FftSize::S2048 => 2048,
            FftSize::S4096 => 4096,
        }
    }

    /// How many samples a frame has.
    #[verifier::when_used_as_spec(samples_spec)]
    pub fn samples(self) -> (r: usize)
        ensures
            r == self.samples_spec(),
            256 <= r <= 4096,
    {
        match self {
            FftSize::S256 => 256,
            FftSize::S512 => 512,
            FftSize::S1024 => 1024,
            FftSize::S2048 => 2048,
            FftSize::S4096 => 4096,
        }
    }
}

#[derive(Clone, Copy, PartialEq, Eq, Structural, Debug)]
pub enum WindowType {
    Bartlett,
    Hann,
    Hamming,
}

/// What the controls say at the start of a block. `smoothing` tells that the shift is still on its
/// way to the value that was set.
#[derive(Clone, Copy, PartialEq, Eq, Structural)]
pub struct PitchShiftParams {
    pub shift: Single,
    pub smoothing: bool,
    pub fft_size: FftSize,
    pub hop: HopRatio,
    pub window: WindowType,
}

/// Whether `w` can be the window of `len` samples. The straight window is fixed; the smooth ones
/// are coefficients that come from the machine's cosine, of which nothing more is said.
pub open spec fn suits(window: WindowType, len: usize, w: Seq<Single>) -> bool {
    &&& w.len() == len
    &&& window is Bartlett ==> w == bartlett(len)
    &&& window is Hann || window is Hamming ==> smooth(len, w)
}

/// Whether there is a window of `len` samples.
pub open spec fn fits(window: WindowType, len: usize) -> bool {
    if window is Bartlett { 0 < len } else { 1 < len }
}

/// The window of `len` samples, `hann` and `hamming` being the coefficients of the smooth ones.
pub open spec fn chosen(
    window: WindowType,
    len: usize,
    hann: Seq<u64>,
    hamming: Seq<u64>,
) -> Seq<Single> {
    match window {
        WindowType::Bartlett => bartlett(len),
        WindowType::Hann => narrowed(hann),
        WindowType::Hamming => narrowed(hamming),
    }
}

/// The window of `len` samples, `hann` and `hamming` being the coefficients of the smooth ones. Of
/// those only the ones of the window that is asked for are read.
pub fn window_of(
    window: WindowType,
    len: usize,
    hann: &Vec<u64>,
    hamming: &Vec<u64>,
) -> (r: Vec<Single>)
    requires
        window is Bartlett ==> 0 < len,
    ensures
        r@ == chosen(window, len, hann@, hamming@),
{
    match window {
        WindowType::Bartlett => bartlett_window(len),
        WindowType::Hann => narrow_all(hann),
        WindowType::Hamming => narrow_all(hamming),
    }
}

/// Makes a window.
pub fn build_window(window: WindowType, len: usize) -> (r: Vec<Single>)
    requires
        fits(window, len),
    ensures
        suits(window, len, r@),
{
    match window {
        WindowType::Bartlett => window_of(window, len, &Vec::new(), &Vec::new()),
        WindowType::Hann => window_of(window, len, &hanning(len), &Vec::new()),
        WindowType::Hamming => window_of(window, len, &Vec::new(), &hamming(len)),
    }
}

pub open spec fn princ_arg_spec(phase: Single) -> Single {
    let x = phase + num(PI);
    if x.gt(num(0)) {
        x.remainder(num(TAU)) - num(PI)
    } else {
        x.remainder(num(TAU)) + num(PI)
    }
}

/// The phase taken back to between minus pi and pi. Every deviation that is accumulated goes
/// through this, lest rounding errors spiral.
#[verifier::when_used_as_spec(princ_arg_spec)]
pub fn princ_arg(phase: Single) -> (r: Single)
    ensures
        r == princ_arg_spec(phase),
{
    let x = phase + num(PI);
    if x.gt(num(0)) {
        x.remainder(num(TAU)) - num(PI)
    } else {
        x.remainder(num(TAU)) + num(PI)
    }
}

pub open spec fn shift_exponent_spec(shift: Single) -> Single {
    shift / num(OCTAVE)
}

/// The power of two that a shift in semitones is.
#[verifier::when_used_as_spec(shift_exponent_spec)]
pub fn shift_exponent(shift: Single) -> (r: Single)
    ensures
        r == shift_exponent_spec(shift),
{
    shift / num(OCTAVE)
}

pub open spec fn snapped_ratio_spec(raw_factor: Single, hop: usize) -> Single {
    let hop_f = Single::from_usize(hop);
    ((raw_factor * hop_f).round() / hop_f).max(num(LEAST_RATIO))
}

/// The ratio of a shift, snapped to a whole number of samples per hop so that phases do not drift
/// from hop to hop.
#[verifier::when_used_as_spec(snapped_ratio_spec)]
pub fn snapped_ratio(raw_factor: Single, hop: usize) -> (r: Single)
    ensures
        r == snapped_ratio_spec(raw_factor, hop),
{
    let hop_f = Single::from_usize(hop);
    ((raw_factor * hop_f).round() / hop_f).max(num(LEAST_RATIO))
}

pub open spec fn stretched_spec(fft_size: usize, ratio: Single, output_len: usize) -> usize {
    let len = (Single::from_usize(fft_size) / ratio).floor().to_usize();
    if len < output_len { len } else { output_len }
}

/// The length of a frame after resampling; it never exceeds the ring.
#[verifier::when_used_as_spec(stretched_spec)]
pub fn stretched(fft_size: usize, ratio: Single, output_len: usize) -> (r: usize)
    ensures
        r == stretched_spec(fft_size, ratio, output_len),
        r <= output_len,
{
    let len = (Single::from_usize(fft_size) / ratio).floor().to_usize();
    if len < output_len { len } else { output_len }
}

pub open spec fn omega_at_spec(k: usize, fft_size: usize) -> Single {
    num(TAU) * Single::from_usize(k) / Single::from_usize(fft_size)
}

/// How far the phase of bin `k` advances per sample.
#[verifier::when_used_as_spec(omega_at_spec)]
pub fn omega_at(k: usize, fft_size: usize) -> (r: Single)
    ensures
        r == omega_at_spec(k, fft_size),
{
    num(TAU) * Single::from_usize(k) / Single::from_usize(fft_size)
}

/// The advance of the first `bins` bins.
pub open spec fn omegas(bins: nat, fft_size: usize) -> Seq<Single> {
    Seq::new(bins, |k: int| omega_at(k as usize, fft_size))
}

/// The advance of the first `bins` bins.
fn omega_table(bins: usize, fft_size: usize) -> (r: Vec<Single>)
    ensures
        r@ == omegas(bins as nat, fft_size),
{
    let mut r: Vec<Single> = Vec::new();
    let mut k: usize = 0;
    while k < bins
        invariant
            k <= bins,
            r@ == omegas(k as nat, fft_size),
        decreases bins - k,
    {
        r.push(omega_at(k, fft_size));
        k = k + 1;
    }
    r
}

pub open spec fn next_phase_spec(
    measured: Single,
    last_in: Single,
    last_out: Single,
    advance: Single,
    ratio: Single,
) -> Single {
    let deviation = measured - last_in - advance;
    let delta = advance + princ_arg(deviation);
    princ_arg(last_out + delta * ratio)
}

/// The phase that a bin goes out with: it has advanced since the last hop by what was expected of
/// it and by its deviation from that, times the ratio.
#[verifier::when_used_as_spec(next_phase_spec)]
pub fn next_phase(
    measured: Single,
    last_in: Single,
    last_out: Single,
    advance: Single,
    ratio: Single,
) -> (r: Single)
    ensures
        r == next_phase_spec(measured, last_in, last_out, advance, ratio),
{
    let deviation = measured - last_in - advance;
    let delta = advance + princ_arg(deviation);
    princ_arg(last_out + delta * ratio)
}

/// The square roots of a window.
pub open spec fn rooted(window: Seq<Single>) -> Seq<Single> {
    window.map_values(|w: Single| w.sqrt())
}

/// The square roots of a window.
fn roots(window: &Vec<Single>) -> (r: Vec<Single>)
    ensures
        r@ == rooted(window@),
{
    let n = window.len();
    let mut r: Vec<Single> = Vec::new();
    let mut i: usize = 0;
    while i < n
        invariant
            i <= n,
            n == window@.len(),
            r@ == rooted(window@.take(i as int)),
        decreases n - i,
    {
        r.push(window[i].sqrt());
        assert(window@.take(i + 1) == window@.take(i as int).push(window@[i as int]));
        i = i + 1;
    }
    assert(window@.take(n as int) == window@);
    r
}

/// The phases of a channel: those measured at the last hop and those that went out with it.
#[verifier::ext_equal]
pub struct Phases {
    pub input: Seq<Single>,
    pub output: Seq<Single>,
}

/// Sample `j` of a wave resampled to `len` samples.
pub open spec fn resampled_at(wave: Seq<Single>, j: usize, len: usize) -> Single {
    let size = wave.len() as usize;
    let x = Single::from_usize(j) * Single::from_usize(size) / Single::from_usize(len);
    let low = x.floor().to_usize() % size;
    linear(wave[low as int], wave[(low + 1) % (size as int)], x - x.floor())
}

/// Sample `j` of a wave resampled to `len` samples.
fn resample(wave: &Vec<Single>, j: usize, len: usize) -> (r: Single)
    requires
        0 < wave@.len() <= MAX_LINE,
    ensures
        r == resampled_at(wave@, j, len),
{
    let size = wave.len();
    let x = Single::from_usize(j) * Single::from_usize(size) / Single::from_usize(len);
    let ix = x.floor();
    let low = ix.to_usize() % size;
    linear(wave[low], wave[(low + 1) % size], x - ix)
}

/// The rings and the phases of every channel, the windows, and where they stand.
pub struct PhaseVocoder {
    pub fft_size: usize,
    pub overlap: usize,
    pub hop_size: usize,
    pub window_type: WindowType,
    /// The analysis window; its square root is applied, on either side of the spectrum.
    pub fft_window: Vec<Single>,
    pub window_scale: Single,
    /// Twice a frame: a shift by an octave down stretches it to that.
    pub output_len: usize,
    pub input_buffer: Vec<Vec<Single>>,
    pub output_buffer: Vec<Vec<Single>>,
    /// For every channel the phases that were measured at the last hop.
    pub input_phase: Vec<Vec<Single>>,
    /// For every channel the phases that went out with the last hop.
    pub output_phase: Vec<Vec<Single>>,
    pub omega: Vec<Single>,
    pub input_write_pos: usize,
    pub output_write_pos: usize,
    pub output_read_pos: usize,
    pub samples_since_last_fft: usize,
    /// Set while the shift is on its way, so that the phases are flushed once it has arrived.
    pub need_phase_reset: bool,
    /// The window of the resampled frame.
    pub synthesis_window: Vec<Single>,
}

/// The number of bins of a spectrum.
pub open spec fn bins(fft_size: usize) -> nat {
    (fft_size / 2 + 1) as nat
}

/// Every line of a list has `len` samples.
pub open spec fn even(lines: Seq<Vec<Single>>, len: nat) -> bool {
    forall|ch: int| 0 <= ch < lines.len() ==> (#[trigger] lines[ch])@.len() == len
}

/// There are `lanes` lines of `len` zeros.
pub open spec fn zeroed(lines: Seq<Vec<Single>>, lanes: usize, len: nat) -> bool {
    &&& lines.len() == lanes
    &&& forall|ch: int| 0 <= ch < lanes ==> (#[trigger] lines[ch])@ == silent(len)
}

impl PhaseVocoder {
    pub open spec fn wf(self) -> bool {
        &&& 1 < self.fft_size <= MAX_LINE / 2
        &&& self.output_len == 2 * self.fft_size
        &&& self.hop_size == self.fft_size / at_least_one(self.overlap)
        &&& suits(self.window_type, self.fft_size, self.fft_window@)
        &&& self.window_scale == scale_of(self.fft_window@, self.overlap)
        &&& self.omega@ == omegas(bins(self.fft_size), self.fft_size)
        &&& 1 <= self.input_buffer@.len()
        &&& self.output_buffer@.len() == self.input_buffer@.len()
        &&& self.input_phase@.len() == self.input_buffer@.len()
        &&& self.output_phase@.len() == self.input_buffer@.len()
        &&& even(self.input_buffer@, self.fft_size as nat)
        &&& even(self.output_buffer@, self.output_len as nat)
        &&& even(self.input_phase@, bins(self.fft_size))
        &&& even(self.output_phase@, bins(self.fft_size))
        &&& self.input_write_pos < self.fft_size
        &&& self.output_write_pos < self.output_len
        &&& self.output_read_pos < self.output_len
        &&& self.samples_since_last_fft <= self.fft_size
    }

    pub open spec fn spool_spec(&self) -> Spool {
        Spool {
            in_len: self.fft_size,
            out_len: self.output_len,
            hop: at_least_one(self.hop_size),
            input_write: self.input_write_pos,
            output_write: self.output_write_pos,
            output_read: self.output_read_pos,
            count: self.samples_since_last_fft,
        }
    }

    /// Where every channel stands.
    #[verifier::when_used_as_spec(spool_spec)]
    pub fn spool(&self) -> (r: Spool)
        ensures
            r == self.spool_spec(),
    {
        Spool {
            in_len: self.fft_size,
            out_len: self.output_len,
            hop: at_least_one(self.hop_size),
            input_write: self.input_write_pos,
            output_write: self.output_write_pos,
            output_read: self.output_read_pos,
            count: self.samples_since_last_fft,
        }
    }

    /// The places are on the rings.
    pub proof fn lemma_spool(self)
        requires
            self.wf(),
        ensures
            self.spool().wf(),
    {
        let d = at_least_one(self.overlap) as int;
        assert(self.fft_size as int / d <= self.fft_size) by (nonlinear_arith)
            requires
                d >= 1,
        ;
    }

    pub open spec fn phases(self, ch: int) -> Phases {
        Phases { input: self.input_phase@[ch]@, output: self.output_phase@[ch]@ }
    }

    /// All rings and phases are zero, there are `lanes` of each kind, and the phases are due for a
    /// flush.
    pub open spec fn silenced(self, lanes: usize) -> bool {
        &&& zeroed(self.input_buffer@, lanes, self.fft_size as nat)
        &&& zeroed(self.output_buffer@, lanes, self.output_len as nat)
        &&& zeroed(self.input_phase@, lanes, bins(self.fft_size))
        &&& zeroed(self.output_phase@, lanes, bins(self.fft_size))
        &&& self.input_write_pos == 0
        &&& self.output_read_pos == 0
        &&& self.samples_since_last_fft == 0
        &&& self.need_phase_reset
    }

    /// Whether rings, phases and places are those of `before`.
    pub open spec fn undisturbed(self, before: PhaseVocoder) -> bool {
        &&& self.output_len == before.output_len
        &&& self.input_buffer == before.input_buffer
        &&& self.output_buffer == before.output_buffer
        &&& self.input_phase == before.input_phase
        &&& self.output_phase == before.output_phase
        &&& self.omega == before.omega
        &&& self.input_write_pos == before.input_write_pos
        &&& self.output_read_pos == before.output_read_pos
        &&& self.samples_since_last_fft == before.samples_since_last_fft
        &&& self.need_phase_reset == before.need_phase_reset
    }

    /// Silent rings for frames of 512 samples with the Hann window, eight of which overlap.
    pub fn new(num_channels: usize) -> (r: PhaseVocoder)
        ensures
            r.wf(),
            r.fft_size == 512,
            r.overlap == 8,
            r.hop_size == 64,
            r.window_type is Hann,
            r.silenced(at_least_one(num_channels)),
            r.output_write_pos == 64,
            r.synthesis_window@ == silent(1024),
    {
        let lanes = at_least_one(num_channels);
        let fft_window = build_window(WindowType::Hann, 512);
        let scale = window_scale(&fft_window, 8);
        PhaseVocoder {
            fft_size: 512,
            overlap: 8,
            hop_size: 64,
            window_type: WindowType::Hann,
            fft_window,
            window_scale: scale,
            output_len: 1024,
            input_buffer: silent_lines(lanes, 512),
            output_buffer: silent_lines(lanes, 1024),
            input_phase: silent_lines(lanes, 257),
            output_phase: silent_lines(lanes, 257),
            omega: omega_table(257, 512),
            input_write_pos: 0,
            output_write_pos: 64,
            output_read_pos: 0,
            samples_since_last_fft: 0,
            need_phase_reset: true,
            synthesis_window: silence(1024),
        }
    }

    /// Takes over the size, the overlap and the window. Another size silences the rings; any
    /// change makes the window anew and puts the next piece one hop in.
    pub fn reconfigure(
        &mut self,
        fft_size: usize,
        overlap: usize,
        window_type: WindowType,
        num_channels: usize,
    )
        requires
            old(self).wf(),
            1 < fft_size <= MAX_LINE / 2,
        ensures
            final(self).wf(),
            final(self).fft_size == fft_size,
            final(self).overlap == overlap,
            final(self).window_type == window_type,
            final(self).hop_size == fft_size / at_least_one(overlap),
            fft_size != old(self).fft_size ==> final(self).silenced(at_least_one(num_channels))
                && final(self).synthesis_window@ == silent(2 * fft_size as nat),
            fft_size == old(self).fft_size ==> final(self).undisturbed(*old(self)) && final(
                self).synthesis_window == old(self).synthesis_window,
            if fft_size != old(self).fft_size || overlap != old(self).overlap || window_type
                != old(self).window_type {
                final(self).output_write_pos == final(self).hop_size
            } else {
                final(self).fft_window == old(self).fft_window && final(self).output_write_pos
                    == old(self).output_write_pos
            },
    {
        let size_changed = fft_size != self.fft_size;
        let changed = size_changed || overlap != self.overlap || window_type != self.window_type;
        if size_changed {
            let lanes = at_least_one(num_channels);
            let num_bins = fft_size / 2 + 1;
            self.input_buffer = silent_lines(lanes, fft_size);
            self.output_len = fft_size * 2;
            self.output_buffer = silent_lines(lanes, self.output_len);
            self.input_phase = silent_lines(lanes, num_bins);
            self.output_phase = silent_lines(lanes, num_bins);
            self.omega = omega_table(num_bins, fft_size);
            self.synthesis_window = silence(self.output_len);
            self.input_write_pos = 0;
            self.output_read_pos = 0;
            self.samples_since_last_fft = 0;
            self.need_phase_reset = true;
        }
        if changed {
            self.fft_window = build_window(window_type, fft_size);
            self.window_scale = window_scale(&self.fft_window, overlap);
            self.hop_size = fft_size / at_least_one(overlap);
            proof {
                let d = at_least_one(overlap) as int;
                assert(fft_size as int / d <= fft_size) by (nonlinear_arith)
                    requires
                        d >= 1,
                ;
            }
            self.output_write_pos = if self.hop_size < self.output_len {
                self.hop_size
            } else {
                self.output_len - 1
            };
        }
        self.fft_size = fft_size;
        self.overlap = overlap;
        self.window_type = window_type;
    }

    /// The ratio of a block.
    pub open spec fn ratio_spec(&self, raw_factor: Single) -> Single {
        snapped_ratio(raw_factor, at_least_one(self.hop_size))
    }

    /// The ratio of a block, `raw_factor` being the factor of its shift.
    #[verifier::when_used_as_spec(ratio_spec)]
    pub fn ratio(&self, raw_factor: Single) -> (r: Single)
        ensures
            r == self.ratio_spec(raw_factor),
    {
        snapped_ratio(raw_factor, at_least_one(self.hop_size))
    }

    pub open spec fn resampled_len_spec(&self, raw_factor: Single) -> usize {
        stretched(self.fft_size, self.ratio_spec(raw_factor), self.output_len)
    }

    /// The length of a resampled frame in a block.
    #[verifier::when_used_as_spec(resampled_len_spec)]
    pub fn resampled_len(&self, raw_factor: Single) -> (r: usize)
        ensures
            r == self.resampled_len_spec(raw_factor),
            r <= self.output_len,
    {
        stretched(self.fft_size, self.ratio(raw_factor), self.output_len)
    }

    /// The phases after a hop at which `measured` came in.
    pub open spec fn hopped(
        self,
        ratio: Single,
        phases: Phases,
        measured: Seq<Single>,
    ) -> Phases {
        let hop_f = Single::from_usize(self.hop_size);
        Phases {
            input: Seq::new(bins(self.fft_size), |k: int| measured[k]),
            output: Seq::new(
                bins(self.fft_size),
                |k: int|
                    next_phase(
                        measured[k],
                        phases.input[k],
                        phases.output[k],
                        self.omega@[k] * hop_f,
                        ratio,
                    ),
            ),
        }
    }

    /// All phases at zero.
    pub open spec fn still(self) -> Phases {
        Phases { input: silent(bins(self.fft_size)), output: silent(bins(self.fft_size)) }
    }

    /// Whether the first hop of a block flushes the phases: they are due for it, and the shift has
    /// arrived.
    pub open spec fn flushes_spec(&self, smoothing: bool) -> bool {
        self.need_phase_reset && !smoothing
    }

    /// Whether the first hop of a block flushes the phases.
    #[verifier::when_used_as_spec(flushes_spec)]
    pub fn flushes(&self, smoothing: bool) -> (r: bool)
        ensures
            r == self.flushes_spec(smoothing),
    {
        self.need_phase_reset && !smoothing
    }

    /// The phases of a channel after `h` hops of a block.
    pub open spec fn phases_after(
        self,
        ratio: Single,
        flush: bool,
        phases: Phases,
        measured: Seq<Seq<Single>>,
        h: nat,
    ) -> Phases
        decreases h,
    {
        if h == 0 {
            phases
        } else {
            let last = if h == 1 && flush {
                self.still()
            } else {
                self.phases_after(ratio, flush, phases, measured, (h - 1) as nat)
            };
            self.hopped(ratio, last, measured[h - 1])
        }
    }

    /// Takes the phases of a channel through a hop.
    fn hop_phases(
        &self,
        ratio: Single,
        input: &mut Vec<Single>,
        output: &mut Vec<Single>,
        measured: &Vec<Single>,
    )
        requires
            self.wf(),
            old(input)@.len() == bins(self.fft_size),
            old(output)@.len() == bins(self.fft_size),
            measured@.len() >= bins(self.fft_size),
        ensures
            (Phases { input: final(input)@, output: final(output)@ }) == self.hopped(
                ratio,
                Phases { input: old(input)@, output: old(output)@ },
                measured@,
            ),
    {
        let ghost ins = input@;
        let ghost outs = output@;
        let num_bins = self.fft_size / 2 + 1;
        let hop_f = Single::from_usize(self.hop_size);
        let ghost target = self.hopped(ratio, Phases { input: ins, output: outs }, measured@);
        let mut k: usize = 0;
        while k < num_bins
            invariant
                k <= num_bins,
                num_bins == bins(self.fft_size),
                self.wf(),
                hop_f == Single::from_usize(self.hop_size),
                input@.len() == num_bins,
                output@.len() == num_bins,
                ins.len() == num_bins,
                outs.len() == num_bins,
                measured@.len() >= num_bins,
                target == self.hopped(ratio, Phases { input: ins, output: outs }, measured@),
                forall|j: int|
                    0 <= j < num_bins ==> #[trigger] input@[j] == (if j < k {
                        target.input[j]
                    } else {
                        ins[j]
                    }),
                forall|j: int|
                    0 <= j < num_bins ==> #[trigger] output@[j] == (if j < k {
                        target.output[j]
                    } else {
                        outs[j]
                    }),
            decreases num_bins - k,
        {
            let new_phase = next_phase(
                measured[k],
                input[k],
                output[k],
                self.omega[k] * hop_f,
                ratio,
            );
            input[k] = measured[k];
            output[k] = new_phase;
            k = k + 1;
        }
        assert(input@ =~= target.input);
        assert(output@ =~= target.output);
    }

    /// Takes the phases of a channel through the hops of a block, and returns what each bin goes
    /// out with at each of them.
    fn carry_phases(
        &self,
        ratio: Single,
        flush: bool,
        input: &mut Vec<Single>,
        output: &mut Vec<Single>,
        measured: &Vec<Vec<Single>>,
        hops: usize,
    ) -> (r: Vec<Vec<Single>>)
        requires
            self.wf(),
            old(input)@.len() == bins(self.fft_size),
            old(output)@.len() == bins(self.fft_size),
            measured@.len() >= hops,
            forall|h: int|
                0 <= h < hops ==> (#[trigger] measured@[h])@.len() >= bins(self.fft_size),
        ensures
            final(input)@.len() == bins(self.fft_size),
            final(output)@.len() == bins(self.fft_size),
            (Phases { input: final(input)@, output: final(output)@ }) == self.phases_after(
                ratio,
                flush,
                Phases { input: old(input)@, output: old(output)@ },
                views(measured@),
                hops as nat,
            ),
            r@.len() == hops,
            forall|h: int|
                0 <= h < hops ==> (#[trigger] r@[h])@ == self.phases_after(
                    ratio,
                    flush,
                    Phases { input: old(input)@, output: old(output)@ },
                    views(measured@),
                    (h + 1) as nat,
                ).output,
    {
        let ghost start = Phases { input: input@, output: output@ };
        let num_bins = self.fft_size / 2 + 1;
        let mut r: Vec<Vec<Single>> = Vec::new();
        let mut h: usize = 0;
        while h < hops
            invariant
                h <= hops,
                self.wf(),
                num_bins == bins(self.fft_size),
                input@.len() == num_bins,
                output@.len() == num_bins,
                measured@.len() >= hops,
                forall|g: int|
                    0 <= g < hops ==> (#[trigger] measured@[g])@.len() >= num_bins,
                (Phases { input: input@, output: output@ }) == self.phases_after(
                    ratio,
                    flush,
                    start,
                    views(measured@),
                    h as nat,
                ),
                r@.len() == h,
                forall|g: int|
                    0 <= g < h ==> (#[trigger] r@[g])@ == self.phases_after(
                        ratio,
                        flush,
                        start,
                        views(measured@),
                        (g + 1) as nat,
                    ).output,
            decreases hops - h,
        {
            if h == 0 && flush {
                *input = silence(num_bins);
                *output = silence(num_bins);
            }
            assert(views(measured@)[h as int] == measured@[h as int]@);
            self.hop_phases(ratio, input, output, &measured[h]);
            assert((Phases { input: input@, output: output@ }) == self.phases_after(
                ratio,
                flush,
                start,
                views(measured@),
                (h + 1) as nat,
            ));
            r.push(copied(output));
            h = h + 1;
        }
        r
    }

    /// What is added onto the ring for a frame that has come back from its spectrum: resampled,
    /// with the root of the window on, and scaled.
    pub open spec fn piece(self, wave: Seq<Single>) -> Seq<Single> {
        let inv_n = num(ONE) / Single::from_usize(self.fft_size);
        let len = self.synthesis_window@.len();
        Seq::new(
            len,
            |j: int|
                resampled_at(wave, j as usize, len as usize) * inv_n
                    * self.synthesis_window@[j].sqrt() * self.window_scale,
        )
    }

    /// The pieces of a list of waves.
    pub open spec fn pieces(self, waves: Seq<Vec<Single>>) -> Seq<Seq<Single>> {
        waves.map_values(|wave: Vec<Single>| self.piece(wave@))
    }
}

/// The frames that have come back, stretched and windowed as they are added onto the ring.
struct Stretched<'a> {
    waves: &'a Vec<Vec<Single>>,
    window: &'a Vec<Single>,
    inv_n: Single,
    scale: Single,
}

impl<'a> Pieces for Stretched<'a> {
    closed spec fn contents(&self) -> Seq<Seq<Single>> {
        let len = self.window@.len();
        self.waves@.map_values(
            |wave: Vec<Single>|
                Seq::new(
                    len,
                    |j: int|
                        resampled_at(wave@, j as usize, len as usize) * self.inv_n
                            * self.window@[j].sqrt() * self.scale,
                ),
        )
    }

    closed spec fn wf(&self) -> bool {
        forall|h: int| 0 <= h < self.waves@.len() ==> 0 < (#[trigger] self.waves@[h])@.len()
            <= MAX_LINE
    }

    fn length(&self, h: usize) -> (r: usize) {
        self.window.len()
    }

    fn sample(&self, h: usize, j: usize) -> (r: Single) {
        resample(&self.waves[h], j, self.window.len()) * self.inv_n * self.window[j].sqrt()
            * self.scale
    }
}

/// Puts a spectrum together from the magnitudes of `freq` and from the sines and cosines of the
/// phases that its bins go out with.
pub fn rotate(freq: &mut Vec<Bin>, directions: &Vec<(Single, Single)>)
    requires
        directions@.len() >= old(freq)@.len(),
    ensures
        final(freq)@ == Seq::new(
            old(freq)@.len(),
            |k: int| old(freq)@[k].turned(directions@[k].0, directions@[k].1),
        ),
{
    let ghost start = freq@;
    let n = freq.len();
    let mut k: usize = 0;
    while k < n
        invariant
            k <= n,
            n == start.len(),
            freq@.len() == n,
            directions@.len() >= n,
            forall|j: int|
                0 <= j < n ==> #[trigger] freq@[j] == (if j < k {
                    start[j].turned(directions@[j].0, directions@[j].1)
                } else {
                    start[j]
                }),
        decreases n - k,
    {
        freq[k] = freq[k].turned(directions[k].0, directions[k].1);
        k = k + 1;
    }
}

/// The length of a resampled frame that the controls lead to.
pub open spec fn target_len(params: PitchShiftParams, raw_factor: Single) -> usize {
    let size = params.fft_size.samples();
    let hop = size / params.hop.overlap();
    stretched(size, snapped_ratio(raw_factor, at_least_one(hop)), (2 * size) as usize)
}

pub struct PitchShift {
    pub pv: Option<PhaseVocoder>,
    pub num_channels: usize,
}

impl PitchShift {
    pub open spec fn wf(self) -> bool {
        self.pv is Some ==> self.pv->0.wf()
    }

    /// There are rings for every channel of a block that holds any samples.
    pub open spec fn ready(self, buffer: AudioBuffer) -> bool {
        &&& self.pv is Some
        &&& self.pv->0.wf()
        &&& buffer.wf()
        &&& buffer.samples > 0 ==> buffer.input@.len() <= self.pv->0.input_buffer@.len()
    }

    /// The phases that were measured on a channel reach over the hops of a block.
    pub open spec fn measured_on(
        self,
        measured: Seq<Vec<Single>>,
        buffer: AudioBuffer,
    ) -> bool {
        let hops = self.pv->0.spool().hops(buffer.samples as nat);
        &&& measured.len() >= hops
        &&& forall|h: int|
            0 <= h < hops ==> (#[trigger] measured[h])@.len() >= bins(self.pv->0.fft_size)
    }

    /// The frames that have come back on a channel reach over the hops of a block.
    pub open spec fn returned_on(self, waves: Seq<Vec<Single>>, buffer: AudioBuffer) -> bool {
        &&& waves.len() >= self.pv->0.spool().hops(buffer.samples as nat)
        &&& even(waves, self.pv->0.fft_size as nat)
    }

    /// Without rings, before the first reset.
    pub fn new() -> (r: PitchShift)
        ensures
            r.wf(),
            r.pv is None,
            r.num_channels == 2,
    {
        PitchShift { pv: None, num_channels: 2 }
    }

    /// Starts over with silent rings for the channels of the last block.
    pub fn reset(&mut self)
        ensures
            final(self).wf(),
            final(self).num_channels == old(self).num_channels,
            final(self).pv is Some,
            final(self).pv->0.fft_size == 512,
            final(self).pv->0.overlap == 8,
            final(self).pv->0.window_type is Hann,
            final(self).pv->0.silenced(at_least_one(old(self).num_channels)),
            final(self).pv->0.output_write_pos == 64,
    {
        self.pv = Some(PhaseVocoder::new(self.num_channels));
    }

    /// Whether a resampled frame is long enough for a window.
    pub fn admits(params: PitchShiftParams, raw_factor: Single) -> (r: bool)
        ensures
            r == fits(params.window, target_len(params, raw_factor)),
    {
        let size = params.fft_size.samples();
        let hop = size / params.hop.overlap();
        let len = stretched(size, snapped_ratio(raw_factor, at_least_one(hop)), 2 * size);
        match params.window {
            WindowType::Bartlett => 0 < len,
            WindowType::Hann => 1 < len,
            WindowType::Hamming => 1 < len,
        }
    }

    /// Takes the controls over at the start of a block of `channels` channels, `raw_factor` being
    /// two to the power of the `shift_exponent`.
    pub fn prepare(&mut self, params: PitchShiftParams, raw_factor: Single, channels: usize)
        requires
            old(self).wf(),
            fits(params.window, target_len(params, raw_factor)),
        ensures
            final(self).wf(),
            final(self).num_channels == at_least_one(channels),
            final(self).pv is Some,
            final(self).pv->0.fft_size == params.fft_size.samples(),
            final(self).pv->0.overlap == params.hop.overlap(),
            final(self).pv->0.window_type == params.window,
            final(self).pv->0.resampled_len(raw_factor) == target_len(params, raw_factor),
            suits(
                params.window,
                target_len(params, raw_factor),
                final(self).pv->0.synthesis_window@,
            ),
            ({
                let after = final(self).pv->0;
                let size = params.fft_size.samples();
                let hop = size / params.hop.overlap();
                match old(self).pv {
                    None => (PhaseVocoder { need_phase_reset: true, ..after }).silenced(
                        at_least_one(channels),
                    ) && after.need_phase_reset && after.output_write_pos == hop,
                    Some(before) => {
                        &&& size != before.fft_size ==> after.silenced(at_least_one(channels))
                        &&& size == before.fft_size ==> (PhaseVocoder {
                            need_phase_reset: before.need_phase_reset,
                            ..after
                        }).undisturbed(before) && after.need_phase_reset == (
                        before.need_phase_reset || params.smoothing)
                        &&& if size != before.fft_size || params.hop.overlap() != before.overlap
                            || params.window != before.window_type {
                            after.output_write_pos == hop
                        } else {
                            after.fft_window == before.fft_window && after.output_write_pos
                                == before.output_write_pos
                        }
                    },
                }
            }),
    {
        self.num_channels = at_least_one(channels);
        let size = params.fft_size.samples();
        let overlap = params.hop.overlap();
        let mut pv = match self.pv.take() {
            Some(pv) => pv,
            None => PhaseVocoder::new(self.num_channels),
        };
        pv.reconfigure(size, overlap, params.window, self.num_channels);
        if params.smoothing {
            pv.need_phase_reset = true;
        }
        let len = pv.resampled_len(raw_factor);
        pv.synthesis_window = build_window(params.window, len);
        self.pv = Some(pv);
    }

    /// The frames that a block completes on a channel, oldest sample first and with the root of
    /// the window applied, for the forward transform.
    pub fn frames(&self, buffer: &AudioBuffer, ch: usize) -> (r: Vec<Vec<Single>>)
        requires
            self.ready(*buffer),
            ch < buffer.input@.len(),
        ensures
            r@.len() == self.pv->0.spool().hops(buffer.samples as nat),
            views(r@) == self.pv->0.spool().frames(
                self.pv->0.input_buffer@[ch as int]@,
                rooted(self.pv->0.fft_window@),
                buffer.incoming(ch as int),
                buffer.samples as nat,
            ),
    {
        if buffer.num_samples() == 0 {
            return Vec::new();
        }
        match &self.pv {
            Some(pv) => {
                proof {
                    pv.lemma_spool();
                }
                let window = roots(&pv.fft_window);
                pv.spool().collect_frames(&pv.input_buffer[ch], &window, &buffer.input[ch])
            },
            None => Vec::new(),
        }
    }

    /// The phases that the bins of a channel go out with at each hop of a block, whose sines and
    /// cosines `rotate` needs. `measured` holds the phase of every bin at each hop.
    pub fn new_phases(
        &self,
        params: PitchShiftParams,
        raw_factor: Single,
        measured: &Vec<Vec<Single>>,
        buffer: &AudioBuffer,
        ch: usize,
    ) -> (r: Vec<Vec<Single>>)
        requires
            self.ready(*buffer),
            ch < buffer.input@.len(),
            self.measured_on(measured@, *buffer),
        ensures
            r@.len() == self.pv->0.spool().hops(buffer.samples as nat),
            forall|h: int|
                0 <= h < r@.len() ==> (#[trigger] r@[h])@ == self.pv->0.phases_after(
                    self.pv->0.ratio(raw_factor),
                    self.pv->0.flushes(params.smoothing),
                    self.pv->0.phases(ch as int),
                    views(measured@),
                    (h + 1) as nat,
                ).output,
    {
        if buffer.num_samples() == 0 {
            return Vec::new();
        }
        match &self.pv {
            Some(pv) => {
                proof {
                    pv.lemma_spool();
                }
                let hops = pv.spool().count_hops(buffer.num_samples());
                let mut input = copied(&pv.input_phase[ch]);
                let mut output = copied(&pv.output_phase[ch]);
                pv.carry_phases(
                    pv.ratio(raw_factor),
                    pv.flushes(params.smoothing),
                    &mut input,
                    &mut output,
                    measured,
                    hops,
                )
            },
            None => Vec::new(),
        }
    }

    /// Works on one block. For every channel `measured` holds the phase of every bin at each hop,
    /// and `waves` what came back from the inverse transform.
    pub fn process(
        &mut self,
        params: PitchShiftParams,
        raw_factor: Single,
        measured: &Vec<Vec<Vec<Single>>>,
        waves: &Vec<Vec<Vec<Single>>>,
        buffer: &mut AudioBuffer,
    )
        requires
            old(self).ready(*old(buffer)),
            measured@.len() >= old(buffer).input@.len(),
            waves@.len() >= old(buffer).input@.len(),
            forall|ch: int|
                0 <= ch < old(buffer).input@.len() ==> old(self).measured_on(
                    (#[trigger] measured@[ch])@,
                    *old(buffer),
                ),
            forall|ch: int|
                0 <= ch < old(buffer).input@.len() ==> old(self).returned_on(
                    (#[trigger] waves@[ch])@,
                    *old(buffer),
                ),
        ensures
            final(self).wf(),
            final(self).num_channels == old(self).num_channels,
            final(self).pv is Some,
            ({
                let before = old(self).pv->0;
                let after = final(self).pv->0;
                let channels = old(buffer).input@.len();
                let n = old(buffer).samples as nat;
                let hops = before.spool().hops(n);
                let flush = before.flushes(params.smoothing);
                &&& after == (PhaseVocoder {
                    input_buffer: after.input_buffer,
                    output_buffer: after.output_buffer,
                    input_phase: after.input_phase,
                    output_phase: after.output_phase,
                    input_write_pos: after.input_write_pos,
                    output_write_pos: after.output_write_pos,
                    output_read_pos: after.output_read_pos,
                    samples_since_last_fft: after.samples_since_last_fft,
                    need_phase_reset: after.need_phase_reset,
                    ..before
                })
                &&& after.spool() == (if channels > 0 {
                    before.spool().after(n)
                } else {
                    before.spool()
                })
                &&& after.need_phase_reset == (before.need_phase_reset && !(flush && channels > 0
                    && hops > 0))
                &&& after.input_buffer@.len() == before.input_buffer@.len()
                &&& forall|ch: int|
                    0 <= ch < channels ==> (#[trigger] after.input_buffer@[ch])@ == ring_fed(
                        before.input_buffer@[ch]@,
                        before.input_write_pos,
                        old(buffer).incoming(ch),
                        n,
                    )
                &&& forall|ch: int|
                    0 <= ch < channels ==> (#[trigger] after.output_buffer@[ch])@
                        == before.spool().ring_after(
                        before.output_buffer@[ch]@,
                        before.pieces(waves@[ch]@),
                        n,
                    )
                &&& forall|ch: int|
                    0 <= ch < channels ==> #[trigger] after.phases(ch) == before.phases_after(
                        before.ratio(raw_factor),
                        flush,
                        before.phases(ch),
                        views(measured@[ch]@),
                        hops,
                    )
                &&& forall|ch: int|
                    channels <= ch < before.input_buffer@.len()
                        ==> #[trigger] after.input_buffer@[ch] == before.input_buffer@[ch]
                &&& forall|ch: int|
                    channels <= ch < before.input_buffer@.len()
                        ==> #[trigger] after.output_buffer@[ch] == before.output_buffer@[ch]
                &&& forall|ch: int|
                    channels <= ch < before.input_buffer@.len() ==> #[trigger] after.phases(ch)
                        == before.phases(ch)
                &&& forall|ch: int|
                    0 <= ch < channels ==> (#[trigger] final(buffer).output@[ch])@
                        == before.spool().played(
                        before.output_buffer@[ch]@,
                        before.pieces(waves@[ch]@),
                        n,
                    )
            }),
            final(buffer).rewritten(*old(buffer), old(buffer).input@.len() as int),
    {
        let ghost before = *buffer;
        let ghost whole = *self;
        let ghost start = self.pv->0;
        let channels = buffer.channels();
        let n = buffer.num_samples();
        if n == 0 {
            return ;
        }
        if let Some(mut pv) = self.pv.take() {
            proof {
                pv.lemma_spool();
            }
            let mut spool = pv.spool();
            let hops = spool.count_hops(n);
            let ratio = pv.ratio(raw_factor);
            let flush = pv.flushes(params.smoothing);
            let mut ch: usize = 0;
            while ch < channels
                invariant
                    ch <= channels,
                    channels == before.input@.len(),
                    n == before.samples,
                    before.wf(),
                    start.wf(),
                    whole.pv == Some(start),
                    spool == start.spool(),
                    spool.wf(),
                    hops == spool.hops(n as nat),
                    ratio == start.ratio(raw_factor),
                    flush == start.flushes(params.smoothing),
                    measured@.len() >= channels,
                    waves@.len() >= channels,
                    forall|c: int|
                        0 <= c < channels ==> whole.measured_on((#[trigger] measured@[c])@, before),
                    forall|c: int|
                        0 <= c < channels ==> whole.returned_on((#[trigger] waves@[c])@, before),
                    channels <= start.input_buffer@.len(),
                    pv.wf(),
                    pv == (PhaseVocoder {
                        input_buffer: pv.input_buffer,
                        output_buffer: pv.output_buffer,
                        input_phase: pv.input_phase,
                        output_phase: pv.output_phase,
                        ..start
                    }),
                    pv.input_buffer@.len() == start.input_buffer@.len(),
                    buffer.rewritten(before, channels as int),
                    forall|c: int|
                        0 <= c < ch ==> (#[trigger] pv.input_buffer@[c])@ == ring_fed(
                            start.input_buffer@[c]@,
                            start.input_write_pos,
                            before.incoming(c),
                            n as nat,
                        ),
                    forall|c: int|
                        0 <= c < ch ==> (#[trigger] pv.output_buffer@[c])@ == spool.ring_after(
                            start.output_buffer@[c]@,
                            start.pieces(waves@[c]@),
                            n as nat,
                        ),
                    forall|c: int|
                        0 <= c < ch ==> #[trigger] pv.phases(c) == start.phases_after(
                            ratio,
                            flush,
                            start.phases(c),
                            views(measured@[c]@),
                            hops as nat,
                        ),
                    forall|c: int|
                        ch <= c < start.input_buffer@.len() ==> #[trigger] pv.input_buffer@[c]
                            == start.input_buffer@[c],
                    forall|c: int|
                        ch <= c < start.input_buffer@.len() ==> #[trigger] pv.output_buffer@[c]
                            == start.output_buffer@[c],
                    forall|c: int|
                        ch <= c < start.input_buffer@.len() ==> #[trigger] pv.phases(c)
                            == start.phases(c),
                    forall|c: int|
                        0 <= c < ch ==> (#[trigger] buffer.output@[c])@ == spool.played(
                            start.output_buffer@[c]@,
                            start.pieces(waves@[c]@),
                            n as nat,
                        ),
                decreases channels - ch,
            {
                let ghost here = pv;
                let pieces = Stretched {
                    waves: &waves[ch],
                    window: &pv.synthesis_window,
                    inv_n: num(ONE) / Single::from_usize(pv.fft_size),
                    scale: pv.window_scale,
                };
                proof {
                    assert(pieces.contents() =~= start.pieces(waves@[ch as int]@));
                    lemma_same_phases(
                        pv,
                        start,
                        ratio,
                        flush,
                        start.phases(ch as int),
                        views(measured@[ch as int]@),
                        hops as nat,
                    );
                    assert(pv.phases(ch as int) == start.phases(ch as int));
                }
                spool.play(
                    &mut pv.input_buffer[ch],
                    &mut pv.output_buffer[ch],
                    &pieces,
                    &buffer.input[ch],
                    &mut buffer.output[ch],
                );
                let mut input = copied(&pv.input_phase[ch]);
                let mut output = copied(&pv.output_phase[ch]);
                let _new = pv.carry_phases(
                    ratio,
                    flush,
                    &mut input,
                    &mut output,
                    &measured[ch],
                    hops,
                );
                proof {
                    lemma_same_phases(
                        pv,
                        start,
                        ratio,
                        flush,
                        start.phases(ch as int),
                        views(measured@[ch as int]@),
                        hops as nat,
                    );
                }
                pv.input_phase[ch] = input;
                pv.output_phase[ch] = output;
                assert forall|c: int| 0 <= c < start.input_buffer@.len() && c
                    != ch implies #[trigger] pv.phases(c) == here.phases(c) by {}
                ch = ch + 1;
            }
            let ghost done = pv;
            if channels > 0 {
                spool.run(n);
                proof {
                    start.spool().lemma_after(n as nat);
                }
                if flush && hops > 0 {
                    pv.need_phase_reset = false;
                }
            }
            pv.input_write_pos = spool.input_write;
            pv.output_write_pos = spool.output_write;
            pv.output_read_pos = spool.output_read;
            pv.samples_since_last_fft = spool.count;
            assert forall|c: int| #[trigger] pv.phases(c) == done.phases(c) by {}
            self.pv = Some(pv);
        }
    }
}

/// The pieces depend on the windows alone.
proof fn lemma_same_pieces(a: PhaseVocoder, b: PhaseVocoder, waves: Seq<Vec<Single>>)
    requires
        a.fft_size == b.fft_size,
        a.synthesis_window == b.synthesis_window,
        a.window_scale == b.window_scale,
    ensures
        a.pieces(waves) == b.pieces(waves),
{
    assert forall|wave: Seq<Single>| a.piece(wave) == b.piece(wave) by {
        assert(a.piece(wave) =~= b.piece(wave));
    }
    assert(a.pieces(waves) =~= b.pieces(waves));
}

/// The way of the phases depends on the size and the hop alone.
proof fn lemma_same_phases(
    a: PhaseVocoder,
    b: PhaseVocoder,
    ratio: Single,
    flush: bool,
    phases: Phases,
    measured: Seq<Seq<Single>>,
    h: nat,
)
    requires
        a.fft_size == b.fft_size,
        a.hop_size == b.hop_size,
        a.omega == b.omega,
    ensures
        a.phases_after(ratio, flush, phases, measured, h) == b.phases_after(
            ratio,
            flush,
            phases,
            measured,
            h,
        ),
    decreases h,
{
    if h > 0 {
        lemma_same_phases(a, b, ratio, flush, phases, measured, (h - 1) as nat);
        let last = if h == 1 && flush {
            a.still()
        } else {
            a.phases_after(ratio, flush, phases, measured, (h - 1) as nat)
        };
        assert(a.hopped(ratio, last, measured[h - 1]) =~= b.hopped(ratio, last, measured[h - 1]));
    }
}

/// Half a turn and a whole one.
proof fn lemma_half_turn()
    ensures
        num(PI).is_finite(),
        num(TAU).is_finite(),
        0 < num(PI).value() < 4 * unit(),
        num(TAU).value() == 2 * num(PI).value(),
        num(PI).negated().is_finite(),
        num(PI).negated().value() == -num(PI).value(),
{
    lemma2_to64();
    lemma_unit_positive();
    lemma_constant(PI, 0x40_0000, 0xc9_0fdb);
    lemma_constant(TAU, 0x20_0000, 0xc9_0fdb);
    lemma_negated(num(PI));
}

/// Half a turn more than a finite phase is finite.
proof fn lemma_half_turn_more(phase: Single)
    requires
        phase.is_finite(),
    ensures
        (phase + num(PI)).is_finite(),
{
    let f = Format::Single;
    lemma_half_turn();
    lemma_unit_positive();
    let (negative, m, e) = lemma_parts(f, phase.bits as int);
    if phase.value() <= 0 {
        lemma_add(phase, num(PI), phase, num(PI));
    } else {
        assert(!negative) by {
            lemma_pow2_pos((e + 149) as nat);
            assert(m * pow2((e + 149) as nat) >= 0) by (nonlinear_arith);
        }
        // From here on the distance between two numbers is 16 and more.
        let far = num(0x4d00_0000);
        let farther = num(0x4e00_0000);
        lemma2_to64();
        lemma_large_constant(far.bits, 16, 0x80_0000);
        lemma_large_constant(farther.bits, 64, 0x80_0000);
        assert(far.value() == 0x800_0000 * unit());
        assert(farther.value() == 0x2000_0000 * unit());
        lemma_constants();
        if phase.bits < 0x4d00_0000 {
            lemma_bits_order(f, phase.bits as int, 0x4d00_0000);
            lemma_add(phase, num(PI), num(0), farther);
        } else {
            let field = phase.bits as int / 0x80_0000;
            assert(field >= 154);
            if field > 154 {
                lemma_pow2_strictly_increases(153, (field - 1) as nat);
            }
            assert(gap(f, phase.bits as int) >= 16 * unit());
            reveal(Single::spec_add);
            lemma_sum_below(f, phase.bits as int, num(PI).bits as int, phase.bits as int);
        }
    }
}

/// Every finite phase is taken back to between minus pi and pi.
pub proof fn law_princ_arg_in_range(phase: Single)
    requires
        phase.is_finite(),
    ensures
        within(princ_arg(phase), num(PI).negated(), num(PI)),
{
    lemma_half_turn();
    lemma_constants();
    lemma_half_turn_more(phase);
    let x = phase + num(PI);
    lemma_compare(num(0), x);
    lemma_remainder(x, num(TAU));
    let r = x.remainder(num(TAU));
    let t = num(TAU).value();
    if x.gt(num(0)) {
        lemma_mod_bound(x.value(), t);
        lemma_sub(r, num(PI), num(PI).negated(), num(PI));
    } else {
        lemma_mod_bound(-x.value(), t);
        lemma_add(r, num(PI), num(PI).negated(), num(PI));
    }
    lemma_within(princ_arg(phase), num(PI).negated(), num(PI));
}

/// What is taken from a phase is whole turns, `n` of them, but for the rounding of one sum and one
/// difference: half a turn is added, the turns are taken away exactly, and half a turn is taken
/// back.
pub proof fn law_princ_arg_takes_whole_turns(phase: Single) -> (r: (int, Single))
    requires
        phase.is_finite(),
    ensures
        ({
            let (n, left) = r;
            let x = phase + num(PI);
            &&& left.is_finite()
            &&& -num(TAU).value() < left.value() < num(TAU).value()
            &&& left.value() == x.value() - n * num(TAU).value()
            &&& princ_arg(phase) == (if x.gt(num(0)) {
                left - num(PI)
            } else {
                left + num(PI)
            })
        }),
{
    lemma_half_turn();
    lemma_constants();
    lemma_half_turn_more(phase);
    let x = phase + num(PI);
    lemma_remainder(x, num(TAU));
    let left = x.remainder(num(TAU));
    let t = num(TAU).value();
    lemma_mod_bound(x.value(), t);
    lemma_mod_bound(-x.value(), t);
    if x.value() >= 0 {
        let n = x.value() / t;
        lemma_fundamental_div_mod(x.value(), t);
        assert(t * n == n * t) by (nonlinear_arith);
        (n, left)
    } else {
        let n = -(-x.value() / t);
        lemma_fundamental_div_mod(-x.value(), t);
        assert(t * (-n) == -(n * t)) by (nonlinear_arith);
        (n, left)
    }
}

/// The ratio of a shift within an octave, before it is snapped: a whole number of samples per hop.
proof fn lemma_samples_per_hop(raw_factor: Single, hop: usize) -> (n: nat)
    requires
        0 < hop <= 0x20_0000,
        hop % 2 == 0,
        within(raw_factor, num(HALF), num(TWO)),
    ensures
        (raw_factor * Single::from_usize(hop)).round().is_finite(),
        (raw_factor * Single::from_usize(hop)).round().value() == n * unit(),
        hop as int <= 2 * n,
        n <= 2 * hop,
        Single::from_usize(hop).is_finite(),
        Single::from_usize(hop).value() == hop * unit(),
{
    lemma_constants();
    lemma_from_usize(hop);
    lemma_within(raw_factor, num(HALF), num(TWO));
    let (u, h, v) = (unit(), hop as int, raw_factor.value());
    let low = lemma_whole((h / 2) as nat);
    let high = lemma_whole((2 * h) as nat);
    let c = h / 2;
    assert((c * u) * u <= v * (h * u) <= ((2 * h) * u) * u) by (nonlinear_arith)
        requires
            u <= 2 * v,
            v <= 2 * u,
            h == 2 * c,
            c > 0,
            u > 0,
    ;
    lemma_mul(raw_factor, Single::from_usize(hop), low, high);
    lemma_round_between(
        raw_factor * Single::from_usize(hop),
        (h / 2) as nat,
        (2 * h) as nat,
    )
}

/// The ratio of a shift within an octave lies between a half and two.
proof fn lemma_ratio_in_octave(raw_factor: Single, hop: usize)
    requires
        0 < hop <= 0x20_0000,
        hop % 2 == 0,
        within(raw_factor, num(HALF), num(TWO)),
    ensures
        snapped_ratio(raw_factor, hop) == (raw_factor * Single::from_usize(hop)).round()
            / Single::from_usize(hop),
        snapped_ratio(raw_factor, hop).is_finite(),
        unit() <= 2 * snapped_ratio(raw_factor, hop).value(),
        snapped_ratio(raw_factor, hop).value() <= 2 * unit(),
{
    lemma_constants();
    let n = lemma_samples_per_hop(raw_factor, hop);
    let hop_f = Single::from_usize(hop);
    let count = (raw_factor * hop_f).round();
    let (u, h) = (unit(), hop as int);
    let half = num(HALF).value();
    assert(half * (h * u) <= (n * u) * u <= (2 * u) * (h * u) && h * u > 0) by (nonlinear_arith)
        requires
            h <= 2 * n,
            n <= 2 * h,
            2 * half == u,
            h > 0,
            u > 0,
    ;
    lemma_div(count, hop_f, num(HALF), num(TWO));
    let ratio = count / hop_f;
    lemma2_to64_rest();
    lemma_constant(LEAST_RATIO, 0x2_0000_0000, 0x83_126f);
    lemma_compare(ratio, num(LEAST_RATIO));
    lemma_finite_number(ratio);
}

/// A shift within an octave stretches a frame to no more than the ring and to no less than half
/// of itself, and nothing is cut off.
pub proof fn law_octave_fits(raw_factor: Single, fft_size: usize, hop: usize)
    requires
        0 < hop <= 0x20_0000,
        hop % 2 == 0,
        0 < fft_size <= 0x20_0000,
        fft_size % 2 == 0,
        within(raw_factor, num(HALF), num(TWO)),
    ensures
        ({
            let ratio = snapped_ratio(raw_factor, hop);
            let len = stretched(fft_size, ratio, (2 * fft_size) as usize);
            &&& len == (Single::from_usize(fft_size) / ratio).floor().to_usize()
            &&& fft_size <= 2 * len
            &&& len <= 2 * fft_size
        }),
{
    lemma_constants();
    lemma_ratio_in_octave(raw_factor, hop);
    lemma_from_usize(fft_size);
    let ratio = snapped_ratio(raw_factor, hop);
    let size = Single::from_usize(fft_size);
    let (u, s, r) = (unit(), fft_size as int, ratio.value());
    let c = s / 2;
    let low = lemma_whole(c as nat);
    let high = lemma_whole((2 * s) as nat);
    assert((c * u) * r <= (s * u) * u <= ((2 * s) * u) * r) by (nonlinear_arith)
        requires
            u <= 2 * r,
            r <= 2 * u,
            s == 2 * c,
            c > 0,
            u > 0,
    ;
    lemma_div(size, ratio, low, high);
    let x = size / ratio;
    lemma_floor(x);
    let q = x.value() / u;
    lemma_fundamental_div_mod(x.value(), u);
    assert(c <= q <= 2 * s) by (nonlinear_arith)
        requires
            x.value() == u * q + x.value() % u,
            0 <= x.value() % u < u,
            c * u <= x.value() <= (2 * s) * u,
            u > 0,
    ;
    assert(q * u >= 0) by (nonlinear_arith)
        requires
            q >= 0,
            u > 0,
    ;
    lemma_to_usize(x.floor());
    lemma_fundamental_div_mod_converse(q * u, u, q, 0);
}

/// Whatever the controls, a shift within an octave is admitted.
pub proof fn law_octave_admitted(params: PitchShiftParams, raw_factor: Single)
    requires
        within(raw_factor, num(HALF), num(TWO)),
    ensures
        params.fft_size.samples() <= 2 * target_len(params, raw_factor),
        target_len(params, raw_factor) <= 2 * params.fft_size.samples(),
        fits(params.window, target_len(params, raw_factor)),
{
    let size = params.fft_size.samples();
    let hop = size / params.hop.overlap();
    assert(hop % 2 == 0 && 32 <= hop <= 2048) by {
        let overlap = params.hop.overlap();
        assert(size / 2 == size / overlap || size / 4 == size / overlap || size / 8 == size
            / overlap);
        assert(size == 256 || size == 512 || size == 1024 || size == 2048 || size == 4096);
    }
    law_octave_fits(raw_factor, size, hop);
}

/// A hop that is a power of two moves, at the ratio of a shift within an octave, by a whole number
/// of samples.
pub proof fn law_whole_samples_per_hop(raw_factor: Single, hop: usize, k: nat) -> (n: nat)
    requires
        1 <= k <= 21,
        hop == pow2(k),
        within(raw_factor, num(HALF), num(TWO)),
    ensures
        snapped_ratio(raw_factor, hop).value() * hop == n * unit(),
{
    lemma_even_hop(hop, k);
    lemma_constants();
    lemma_ratio_in_octave(raw_factor, hop);
    let n = lemma_samples_per_hop(raw_factor, hop);
    let hop_f = Single::from_usize(hop);
    let (u, h) = (unit(), hop as int);
    let exact = lemma_scaled(n, -(k as int));
    let p = pow2((149 - k) as nat) as int;
    lemma_pow2_adds((149 - k) as nat, k);
    assert((n * p) * (h * u) == (n * u) * u && h * u > 0 && (n * p) * h == n * u)
        by (nonlinear_arith)
        requires
            p * h == u,
            h > 0,
            u > 0,
    ;
    lemma_div((raw_factor * hop_f).round(), hop_f, exact, exact);
    n
}

/// The powers of two from 2 to 2^21 are even.
proof fn lemma_even_hop(hop: usize, k: nat)
    requires
        1 <= k <= 21,
        hop == pow2(k),
    ensures
        0 < hop <= 0x20_0000,
        hop % 2 == 0,
{
    lemma2_to64();
    lemma_pow2_unfold(k);
    lemma_pow2_pos((k - 1) as nat);
    if k < 21 {
        lemma_pow2_strictly_increases(k, 21);
    }
}

/// Two blocks take the phases where one block of both takes them, once the phases have been
/// flushed or need not be.
pub proof fn law_phases_join(
    pv: PhaseVocoder,
    ratio: Single,
    flush: bool,
    phases: Phases,
    measured: Seq<Seq<Single>>,
    h: nat,
    g: nat,
)
    requires
        h > 0 || !flush,
        h + g <= measured.len(),
    ensures
        pv.phases_after(ratio, flush, phases, measured, h + g) == pv.phases_after(
            ratio,
            false,
            pv.phases_after(ratio, flush, phases, measured, h),
            measured.skip(h as int),
            g,
        ),
    decreases g,
{
    if g > 0 {
        let k = (g - 1) as nat;
        assert((h + g - 1) as nat == h + k);
        law_phases_join(pv, ratio, flush, phases, measured, h, k);
        assert(measured.skip(h as int)[g - 1] == measured[h + g - 1]);
    }
}

/// The phase that a bin goes out with lies between minus pi and pi.
pub proof fn law_next_phase_in_range(
    measured: Single,
    last_in: Single,
    last_out: Single,
    advance: Single,
    ratio: Single,
)
    requires
        (last_out + (advance + princ_arg(measured - last_in - advance)) * ratio).is_finite(),
    ensures
        within(
            next_phase(measured, last_in, last_out, advance, ratio),
            num(PI).negated(),
            num(PI),
        ),
{
    law_princ_arg_in_range(
        last_out + (advance + princ_arg(measured - last_in - advance)) * ratio,
    );
}

/// Two shifts that are snapped to the same ratio act alike: frames are stretched to the same
/// length and phases take the same way, and where the windows are the same, the same samples go
/// out.
pub proof fn law_same_ratio_acts_alike(
    p: PhaseVocoder,
    q: PhaseVocoder,
    a: Single,
    b: Single,
    flush: bool,
    phases: Phases,
    measured: Seq<Seq<Single>>,
    h: nat,
    ring: Seq<Single>,
    waves: Seq<Vec<Single>>,
    n: nat,
)
    requires
        p.fft_size == q.fft_size,
        p.hop_size == q.hop_size,
        p.output_len == q.output_len,
        p.omega == q.omega,
        p.spool() == q.spool(),
        snapped_ratio(a, at_least_one(p.hop_size)) == snapped_ratio(b, at_least_one(p.hop_size)),
    ensures
        p.ratio(a) == q.ratio(b),
        p.resampled_len(a) == q.resampled_len(b),
        p.phases_after(p.ratio(a), flush, phases, measured, h) == q.phases_after(
            q.ratio(b),
            flush,
            phases,
            measured,
            h,
        ),
        p.synthesis_window == q.synthesis_window && p.window_scale == q.window_scale
            ==> p.spool().played(ring, p.pieces(waves), n) == q.spool().played(
            ring,
            q.pieces(waves),
            n,
        ),
{
    lemma_same_phases(p, q, p.ratio(a), flush, phases, measured, h);
    if p.synthesis_window == q.synthesis_window && p.window_scale == q.window_scale {
        lemma_same_pieces(p, q, waves);
    }
}

/// Controls that differ in the shift alone lead to resampled frames of the same length where the
/// shifts are snapped to the same ratio, to the same straight window for them, and to the same
/// smooth one where the same coefficients are handed in.
pub proof fn law_same_ratio_same_window(
    params: PitchShiftParams,
    other: PitchShiftParams,
    a: Single,
    b: Single,
    w: Seq<Single>,
    v: Seq<Single>,
)
    requires
        params.fft_size == other.fft_size,
        params.hop == other.hop,
        params.window == other.window,
        ({
            let hop = params.fft_size.samples() / params.hop.overlap();
            snapped_ratio(a, at_least_one(hop)) == snapped_ratio(b, at_least_one(hop))
        }),
        suits(params.window, target_len(params, a), w),
        suits(other.window, target_len(other, b), v),
    ensures
        target_len(params, a) == target_len(other, b),
        w.len() == v.len(),
        params.window is Bartlett ==> w == v,
        forall|hann: Seq<u64>, hamming: Seq<u64>| #[trigger]
            chosen(params.window, target_len(params, a), hann, hamming) == chosen(
                other.window,
                target_len(other, b),
                hann,
                hamming,
            ),
{
}

} // verus!
