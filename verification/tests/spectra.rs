//! The effects on spectra against floating-point code, sample for sample.
use realfft::num_complex::Complex;
use realfft::RealFftPlanner;
use reiss_mcpherson_effects::audio::AudioBuffer;
use reiss_mcpherson_effects::float::single::Single;
use reiss_mcpherson_effects::pitchshift;
use reiss_mcpherson_effects::pitchshift::{
    princ_arg, rotate, shift_exponent, snapped_ratio, stretched, PitchShift, PitchShiftParams,
    LEAST_RATIO, OCTAVE, PI,
};
use reiss_mcpherson_effects::robotization;
use reiss_mcpherson_effects::robotization::{
    modify, whisper_angle, Effect, RobotParams, Robotization, RobotizationDsp,
};
use reiss_mcpherson_effects::spectral::{
    bartlett_window, narrow_all, rectangle_window, window_scale, Bin, HopRatio,
    Spool,
};

fn s(x: f32) -> Single {
    Single { bits: x.to_bits() }
}

fn f(x: Single) -> f32 {
    f32::from_bits(x.bits)
}

fn all(xs: &[f32]) -> Vec<Single> {
    xs.iter().map(|x| s(*x)).collect()
}

struct Noise(u64);

impl Noise {
    fn next(&mut self) -> f32 {
        self.0 = self.0.wrapping_mul(6364136223846793005).wrapping_add(1442695040888963407);
        ((self.0 >> 40) as f32) / 8388608.0 - 1.0
    }

    fn list(&mut self, n: usize, low: f32, high: f32) -> Vec<f32> {
        (0..n).map(|_| low + (high - low) * (self.next() * 0.5 + 0.5)).collect()
    }
}

fn block(input: &[Vec<f32>]) -> AudioBuffer {
    let samples = input.first().map_or(0, |c| c.len());
    AudioBuffer {
        input: input.iter().map(|c| all(c)).collect(),
        output: input.iter().map(|c| vec![s(0.0); c.len()]).collect(),
        samples,
    }
}

fn plain(xs: &[Single]) -> Vec<f32> {
    xs.iter().map(|x| f(*x)).collect()
}

fn forward(frame: &[Single]) -> Vec<Bin> {
    let mut time = plain(frame);
    let fft = RealFftPlanner::<f32>::new().plan_fft_forward(time.len());
    let mut freq = fft.make_output_vec();
    fft.process(&mut time, &mut freq).unwrap();
    freq.iter().map(|c| Bin { re: s(c.re), im: s(c.im) }).collect()
}

fn inverse(freq: &[Bin], len: usize) -> Vec<Single> {
    let mut freq: Vec<Complex<f32>> =
        freq.iter().map(|b| Complex::new(f(b.re), f(b.im))).collect();
    let mut time = vec![0.0_f32; len];
    let _ = RealFftPlanner::<f32>::new().plan_fft_inverse(len).process(&mut freq, &mut time);
    all(&time)
}

#[test]
fn spectral_constants() {
    assert_eq!(PI, std::f32::consts::PI.to_bits());
    assert_eq!(OCTAVE, 12.0_f32.to_bits());
    assert_eq!(LEAST_RATIO, 1e-3_f32.to_bits());
    let sizes = [
        robotization::FftSize::S32,
        robotization::FftSize::S64,
        robotization::FftSize::S128,
        robotization::FftSize::S256,
        robotization::FftSize::S512,
        robotization::FftSize::S1024,
        robotization::FftSize::S2048,
        robotization::FftSize::S4096,
    ];
    for (k, size) in sizes.iter().enumerate() {
        assert_eq!(size.samples(), 32 << k);
    }
    let sizes = [
        pitchshift::FftSize::S256,
        pitchshift::FftSize::S512,
        pitchshift::FftSize::S1024,
        pitchshift::FftSize::S2048,
        pitchshift::FftSize::S4096,
    ];
    for (k, size) in sizes.iter().enumerate() {
        assert_eq!(size.samples(), 256 << k);
    }
    assert_eq!(HopRatio::Half.overlap(), 2);
    assert_eq!(HopRatio::Quarter.overlap(), 4);
    assert_eq!(HopRatio::Eighth.overlap(), 8);
}

#[test]
fn smooth_windows_come_from_apodize() {
    for len in [2, 7, 512, 1000] {
        let hann: Vec<f32> = apodize::hanning_iter(len).map(|v| v as f32).collect();
        assert_eq!(plain(&robotization::build_window(robotization::WindowType::Hann, len)), hann);
        assert_eq!(plain(&pitchshift::build_window(pitchshift::WindowType::Hann, len)), hann);
        let hamming: Vec<f32> = apodize::hamming_iter(len).map(|v| v as f32).collect();
        assert_eq!(
            plain(&robotization::build_window(robotization::WindowType::Hamming, len)),
            hamming
        );
        assert_eq!(plain(&pitchshift::build_window(pitchshift::WindowType::Hamming, len)), hamming);
    }
    let hann = plain(&pitchshift::build_window(pitchshift::WindowType::Hann, 7));
    let want = [0.0, 0.25, 0.75, 1.0, 0.75, 0.25, 0.0];
    for i in 0..7 {
        assert!((hann[i] - want[i]).abs() < 1e-6);
    }
    assert!((plain(&pitchshift::build_window(pitchshift::WindowType::Hamming, 7))[0] - 0.08).abs() < 1e-6);
}

#[test]
fn windows_are_chosen_by_their_type() {
    let list = |xs: [f64; 3]| xs.iter().map(|x| x.to_bits()).collect::<Vec<u64>>();
    let (hann, hamming) = (list([0.25, 0.1, 1.0]), list([0.5, 0.08, -2.0]));
    assert_eq!(plain(&narrow_all(&hann)), vec![0.25, 0.1_f32, 1.0]);
    let pitched = |ty| plain(&pitchshift::window_of(ty, 3, &hann, &hamming));
    assert_eq!(pitched(pitchshift::WindowType::Bartlett), vec![0.0, 1.0, 0.0]);
    assert_eq!(pitched(pitchshift::WindowType::Hann), vec![0.25, 0.1, 1.0]);
    assert_eq!(pitched(pitchshift::WindowType::Hamming), vec![0.5, 0.08, -2.0]);
    let robot = |ty| plain(&robotization::window_of(ty, 3, &hann, &hamming));
    assert_eq!(robot(robotization::WindowType::Rectangular), vec![1.0, 1.0, 1.0]);
    assert_eq!(robot(robotization::WindowType::Bartlett), vec![0.0, 1.0, 0.0]);
    assert_eq!(robot(robotization::WindowType::Hann), vec![0.25, 0.1, 1.0]);
    assert_eq!(robot(robotization::WindowType::Hamming), vec![0.5, 0.08, -2.0]);
}

#[test]
fn straight_windows() {
    assert_eq!(plain(&rectangle_window(3)), vec![1.0, 1.0, 1.0]);
    assert_eq!(plain(&bartlett_window(5)), vec![0.0, 0.5, 1.0, 0.5, 0.0]);
    assert!(plain(&bartlett_window(1))[0].is_nan());
    for len in [2, 9, 512] {
        let want: Vec<f32> =
            (0..len).map(|i| 1.0 - (2.0 * i as f32 / (len - 1) as f32 - 1.0).abs()).collect();
        assert_eq!(plain(&bartlett_window(len)), want);
    }
    assert_eq!(
        plain(&robotization::build_window(robotization::WindowType::Rectangular, 4)),
        vec![1.0; 4]
    );
}

fn ref_scale(window: &[f32], overlap: usize) -> f32 {
    let sum: f32 = window.iter().copied().sum();
    if overlap == 0 || sum == 0.0 {
        0.0
    } else {
        window.len() as f32 / overlap as f32 / sum
    }
}

#[test]
fn scale_makes_up_for_the_window() {
    assert_eq!(f(window_scale(&rectangle_window(512), 8)), 0.125);
    assert_eq!(f(window_scale(&rectangle_window(512), 0)), 0.0);
    assert_eq!(f(window_scale(&vec![s(0.0); 512], 8)), 0.0);
    assert_eq!(f(window_scale(&vec![s(1.0), s(-1.0)], 8)), 0.0);
    let hann = pitchshift::build_window(pitchshift::WindowType::Hann, 512);
    assert_eq!(f(window_scale(&hann, 4)), ref_scale(&plain(&hann), 4));
}

#[test]
fn frames_come_once_per_hop() {
    let spool = Spool {
        in_len: 64,
        out_len: 64,
        hop: 16,
        input_write: 0,
        output_write: 16,
        output_read: 0,
        count: 5,
    };
    for n in 0..100 {
        assert_eq!(spool.count_hops(n), (5 + n) / 16);
        let mut now = spool;
        now.run(n);
        assert_eq!(now.count, (5 + n) % 16);
        assert_eq!(now.input_write, n % 64);
    }
}

#[derive(Clone)]
struct RefStft {
    size: usize,
    overlap: usize,
    hop: usize,
    window: Vec<f32>,
    scale: f32,
    input: Vec<Vec<f32>>,
    output: Vec<Vec<f32>>,
    at: [usize; 4],
}

fn ref_window(ty: robotization::WindowType, len: usize) -> Vec<f32> {
    match ty {
        robotization::WindowType::Rectangular => vec![1.0; len],
        robotization::WindowType::Bartlett => {
            (0..len).map(|i| 1.0 - (2.0 * i as f32 / (len - 1) as f32 - 1.0).abs()).collect()
        }
        robotization::WindowType::Hann => apodize::hanning_iter(len).map(|v| v as f32).collect(),
        robotization::WindowType::Hamming => {
            apodize::hamming_iter(len).map(|v| v as f32).collect()
        }
    }
}

fn ref_modify(effect: Effect, freq: &mut [Complex<f32>], size: usize, rng: &mut fastrand::Rng) {
    for (k, c) in freq.iter_mut().enumerate() {
        let mag = (c.re * c.re + c.im * c.im).sqrt();
        match effect {
            Effect::PassThrough => {}
            Effect::Robotization => {
                let re = if k == 0 || k == size / 2 { c.re } else { mag };
                *c = Complex::new(re, 0.0);
            }
            Effect::Whisperization => {
                if k == 0 || k == size / 2 {
                    *c = Complex::new(mag, 0.0);
                } else {
                    let (sine, cosine) = (std::f32::consts::TAU * rng.f32()).sin_cos();
                    *c = Complex::new(mag * cosine, mag * sine);
                }
            }
        }
    }
}

impl RefStft {
    fn new(size: usize, overlap: usize, ty: robotization::WindowType, lanes: usize) -> RefStft {
        let window = ref_window(ty, size);
        RefStft {
            size,
            overlap,
            hop: size / overlap,
            scale: ref_scale(&window, overlap),
            window,
            input: vec![vec![0.0; size]; lanes],
            output: vec![vec![0.0; size]; lanes],
            at: [0, 0, size / overlap, 0],
        }
    }

    fn block(
        &mut self,
        effect: Effect,
        input: &[Vec<f32>],
        rng: &mut fastrand::Rng,
    ) -> Vec<Vec<f32>> {
        let saved = self.at;
        let mut planner = RealFftPlanner::<f32>::new();
        let fwd = planner.plan_fft_forward(self.size);
        let inv = planner.plan_fft_inverse(self.size);
        let mut out = Vec::new();
        for (ch, line) in input.iter().enumerate() {
            let [mut write, mut read, mut add, mut count] = saved;
            let mut played = Vec::new();
            for x in line {
                self.input[ch][write] = *x;
                write = (write + 1) % self.size;
                played.push(self.output[ch][read]);
                self.output[ch][read] = 0.0;
                read = (read + 1) % self.size;
                count += 1;
                if count >= self.hop {
                    count = 0;
                    let mut time: Vec<f32> = (0..self.size)
                        .map(|i| self.window[i] * self.input[ch][(write + i) % self.size])
                        .collect();
                    let mut freq = fwd.make_output_vec();
                    let _ = fwd.process(&mut time, &mut freq);
                    ref_modify(effect, &mut freq, self.size, rng);
                    let _ = inv.process(&mut freq, &mut time);
                    for i in 0..self.size {
                        let inv_n = 1.0 / self.size as f32;
                        self.output[ch][(add + i) % self.size] += time[i] * self.scale * inv_n;
                    }
                    add = (add + self.hop) % self.size;
                }
            }
            self.at = [write, read, add, count];
            out.push(played);
        }
        out
    }
}

fn robot_block(
    state: &mut RobotizationDsp,
    params: RobotParams,
    buffer: &mut AudioBuffer,
    rng: &mut fastrand::Rng,
) {
    Robotization::prepare(state, params, buffer.input.len());
    let size = params.fft_size.samples();
    let mut waves = Vec::new();
    for ch in 0..buffer.input.len() {
        let mut back = Vec::new();
        for frame in Robotization::frames(state, buffer, ch) {
            let mut freq = forward(&frame);
            let mut directions = vec![(s(0.0), s(0.0)); freq.len()];
            if params.effect == Effect::Whisperization {
                for way in directions.iter_mut().take(size / 2).skip(1) {
                    let (sine, cosine) = f(whisper_angle(s(rng.f32()))).sin_cos();
                    *way = (s(sine), s(cosine));
                }
            }
            modify(params.effect, &mut freq, size, &directions);
            back.push(inverse(&freq, size));
        }
        waves.push(back);
    }
    Robotization::process(state, &waves, buffer);
}

#[test]
fn robotization_matches() {
    let mut noise = Noise(101);
    let windows = [
        robotization::WindowType::Rectangular,
        robotization::WindowType::Bartlett,
        robotization::WindowType::Hann,
        robotization::WindowType::Hamming,
    ];
    for effect in [Effect::PassThrough, Effect::Robotization, Effect::Whisperization] {
        for (k, window) in windows.iter().enumerate() {
            let hop = [HopRatio::Half, HopRatio::Quarter, HopRatio::Eighth][k % 3];
            let params =
                RobotParams { effect, fft_size: robotization::FftSize::S64, hop, window: *window };
            let mut state = RobotizationDsp::default();
            Robotization::reset(&mut state);
            let mut reference = RefStft::new(64, hop.overlap(), *window, 2);
            let mut ours = fastrand::Rng::with_seed(7);
            let mut theirs = fastrand::Rng::with_seed(7);
            for n in [50, 0, 1, 200, 77] {
                let inputs: Vec<Vec<f32>> = (0..2).map(|_| noise.list(n, -1.0, 1.0)).collect();
                let mut buffer = block(&inputs);
                robot_block(&mut state, params, &mut buffer, &mut ours);
                let want = reference.block(effect, &inputs, &mut theirs);
                for ch in 0..2 {
                    assert_eq!(plain(&buffer.output[ch]), want[ch]);
                }
            }
            let stft = state.stft.as_ref().unwrap();
            assert_eq!(f(stft.window_scale), reference.scale);
            assert_eq!(
                [
                    stft.input_write_pos,
                    stft.output_read_pos,
                    stft.output_write_pos,
                    stft.samples_since_last_fft
                ],
                reference.at
            );
            for ch in 0..2 {
                assert_eq!(plain(&stft.input_buffer[ch]), reference.input[ch]);
                assert_eq!(plain(&stft.output_buffer[ch]), reference.output[ch]);
            }
            assert_eq!(reference.overlap, stft.overlap);
        }
    }
}

#[test]
fn robot_takes_over_controls_between_blocks() {
    let mut noise = Noise(103);
    let mut rng = fastrand::Rng::with_seed(1);
    let mut state = RobotizationDsp::default();
    assert_eq!(state.num_channels, 2);
    assert!(state.stft.is_none());
    Robotization::reset(&mut state);
    {
        let stft = state.stft.as_ref().unwrap();
        assert_eq!((stft.fft_size, stft.overlap, stft.hop_size), (512, 8, 64));
        assert_eq!(stft.output_write_pos, 64);
        assert_eq!(stft.input_buffer.len(), 2);
    }
    let mut params = RobotParams {
        effect: Effect::Robotization,
        fft_size: robotization::FftSize::S512,
        hop: HopRatio::Eighth,
        window: robotization::WindowType::Hann,
    };
    let mut buffer = block(&[noise.list(130, -1.0, 1.0), noise.list(130, -1.0, 1.0)]);
    robot_block(&mut state, params, &mut buffer, &mut rng);
    let kept = state.stft.as_ref().unwrap().output_buffer[0].clone();
    assert_eq!(state.stft.as_ref().unwrap().output_write_pos, 64 * 3);
    // Another hop keeps the rings and puts the next piece one hop in.
    params.hop = HopRatio::Half;
    Robotization::prepare(&mut state, params, 2);
    {
        let stft = state.stft.as_ref().unwrap();
        assert_eq!(stft.output_buffer[0], kept);
        assert_eq!(stft.input_write_pos, 130);
        assert_eq!((stft.hop_size, stft.output_write_pos), (256, 256));
    }
    // Another size silences them, for as many channels as there are now.
    params.fft_size = robotization::FftSize::S32;
    Robotization::prepare(&mut state, params, 5);
    let stft = state.stft.as_ref().unwrap();
    assert_eq!(stft.input_buffer.len(), 5);
    assert_eq!(stft.output_buffer[4], vec![s(0.0); 32]);
    assert_eq!((stft.input_write_pos, stft.samples_since_last_fft), (0, 0));
    assert_eq!(state.num_channels, 5);
}

#[test]
fn first_hop_is_silent() {
    let mut noise = Noise(107);
    let mut rng = fastrand::Rng::with_seed(2);
    let mut state = RobotizationDsp::default();
    Robotization::reset(&mut state);
    let params = RobotParams {
        effect: Effect::Whisperization,
        fft_size: robotization::FftSize::S512,
        hop: HopRatio::Eighth,
        window: robotization::WindowType::Hann,
    };
    let mut buffer = block(&[noise.list(1000, -1.0, 1.0)]);
    robot_block(&mut state, params, &mut buffer, &mut rng);
    assert_eq!(buffer.output[0][..64], vec![s(0.0); 64]);
    assert!(buffer.output[0][64..200].iter().any(|x| *x != s(0.0)));
}

#[test]
fn pass_through_is_the_input_later() {
    let n = 4000;
    let input: Vec<f32> = (0..n).map(|i| (i as f32 * 0.05).sin()).collect();
    let params = RobotParams {
        effect: Effect::PassThrough,
        fft_size: robotization::FftSize::S512,
        hop: HopRatio::Eighth,
        window: robotization::WindowType::Hann,
    };
    let mut state = RobotizationDsp::default();
    Robotization::reset(&mut state);
    let mut buffer = block(&[input.clone()]);
    robot_block(&mut state, params, &mut buffer, &mut fastrand::Rng::with_seed(3));
    for i in 1200..n {
        assert!((f(buffer.output[0][i]) - input[i - 512]).abs() < 1e-2);
    }
}

#[test]
fn effects_on_single_bins() {
    let start = vec![
        Bin { re: s(-3.0), im: s(4.0) },
        Bin { re: s(0.0), im: s(-2.0) },
        Bin { re: s(-1.0), im: s(0.0) },
    ];
    let ways = vec![(s(1.0), s(0.0)), (s(0.0), s(-1.0)), (s(1.0), s(0.0))];
    let mut freq = start.clone();
    modify(Effect::PassThrough, &mut freq, 4, &Vec::new());
    assert_eq!(freq, start);
    modify(Effect::Robotization, &mut freq, 4, &Vec::new());
    let plain: Vec<(f32, f32)> = freq.iter().map(|b| (f(b.re), f(b.im))).collect();
    assert_eq!(plain, vec![(-3.0, 0.0), (2.0, 0.0), (-1.0, 0.0)]);
    let mut freq = vec![
        Bin { re: s(-2.0), im: s(0.0) },
        Bin { re: s(3.0), im: s(4.0) },
        Bin { re: s(-1.0), im: s(0.0) },
    ];
    modify(Effect::Robotization, &mut freq, 4, &Vec::new());
    let plain: Vec<(f32, f32)> = freq.iter().map(|b| (f(b.re), f(b.im))).collect();
    assert_eq!(plain, vec![(-2.0, 0.0), (5.0, 0.0), (-1.0, 0.0)]);
    let mut freq = start.clone();
    modify(Effect::Whisperization, &mut freq, 4, &ways);
    let plain: Vec<(f32, f32)> = freq.iter().map(|b| (f(b.re), f(b.im))).collect();
    assert_eq!(plain, vec![(5.0, 0.0), (-2.0, 0.0), (1.0, 0.0)]);
    assert_eq!(f(whisper_angle(s(0.5))), std::f32::consts::PI);
}

#[test]
fn princ_arg_wraps() {
    let two_pi = std::f32::consts::TAU;
    for x in [0.0_f32, 0.5, 1.0, 3.0, 4.0, -3.5, 7.0] {
        let w = f(princ_arg(s(x)));
        assert!(w >= -std::f32::consts::PI - 1e-5);
        assert!(w <= std::f32::consts::PI + 1e-5);
        // Wrapped value must differ from input by a multiple of 2π.
        let diff = (x - w) / two_pi;
        assert!((diff - diff.round()).abs() < 1e-3);
    }
}

#[test]
fn every_phase_is_taken_back() {
    let pi = std::f32::consts::PI;
    let mut noise = Noise(109);
    let mut phases = noise.list(5000, -40.0, 40.0);
    phases.extend([-1.0, -3.0, -pi, pi, -0.0, 0.0, 1e30, -1e30, f32::MAX, f32::MIN]);
    for x in phases {
        let w = f(princ_arg(s(x)));
        assert!((-pi..=pi).contains(&w));
        if x.abs() < 3.0 {
            assert!((w - x).abs() < 1e-6);
        }
        if x.abs() <= 40.0 {
            let turns = (x - w) / std::f32::consts::TAU;
            assert!((turns - turns.round()).abs() < 1e-3);
        }
    }
}

#[test]
fn ratios_and_lengths_of_octaves() {
    assert_eq!(f(shift_exponent(s(12.0))), 1.0);
    assert_eq!(f(shift_exponent(s(-6.0))), -0.5);
    for (raw, ratio, len) in [(2.0, 2.0, 256), (0.5, 0.5, 1024), (1.0, 1.0, 512)] {
        assert_eq!(f(snapped_ratio(s(raw), 64)), ratio);
        assert_eq!(stretched(512, s(ratio), 1024), len);
    }
    // A fifth up: 96 samples to each 64.
    let fifth = f(snapped_ratio(s(2f32.powf(7.0 / 12.0)), 64));
    assert_eq!(fifth, 96.0 / 64.0);
    assert_eq!(stretched(512, s(fifth), 1024), 341);
    assert_eq!(f(snapped_ratio(s(0.0), 64)), 1e-3);
    assert_eq!(stretched(512, s(1e-3), 1024), 1024);
    for st in -120..=120 {
        let raw = s(2f32.powf(f(shift_exponent(s(st as f32 * 0.1)))));
        for size in [256, 512, 1024, 2048, 4096] {
            for overlap in [2, 4, 8] {
                let hop = size / overlap;
                let ratio = snapped_ratio(raw, hop);
                assert_eq!((f(ratio) * hop as f32).fract(), 0.0);
                let len = stretched(size, ratio, 2 * size);
                assert!(size <= 2 * len && len <= 2 * size);
            }
        }
    }
}

fn pitch(shift: f32, smoothing: bool, hop: HopRatio, window: pitchshift::WindowType) -> PitchShiftParams {
    PitchShiftParams {
        shift: s(shift),
        smoothing,
        fft_size: pitchshift::FftSize::S256,
        hop,
        window,
    }
}

#[test]
fn admitted_shifts() {
    let hann = pitch(0.0, false, HopRatio::Eighth, pitchshift::WindowType::Hann);
    let straight = pitch(0.0, false, HopRatio::Eighth, pitchshift::WindowType::Bartlett);
    for raw in [0.5, 1.0, 2.0, 100.0, f32::NAN] {
        assert!(PitchShift::admits(hann, s(raw)));
        assert!(PitchShift::admits(straight, s(raw)));
    }
    assert!(!PitchShift::admits(hann, s(200.0)));
    assert!(PitchShift::admits(straight, s(200.0)));
    assert!(!PitchShift::admits(straight, s(1000.0)));
}

fn pitch_block(
    shifter: &mut PitchShift,
    params: PitchShiftParams,
    buffer: &mut AudioBuffer,
) {
    let raw = s(2f32.powf(f(shift_exponent(params.shift))));
    assert!(PitchShift::admits(params, raw));
    shifter.prepare(params, raw, buffer.input.len());
    let size = params.fft_size.samples();
    let mut measured = Vec::new();
    let mut waves = Vec::new();
    for ch in 0..buffer.input.len() {
        let mut spectra: Vec<Vec<Bin>> =
            shifter.frames(buffer, ch).iter().map(|frame| forward(frame)).collect();
        let found: Vec<Vec<Single>> = spectra
            .iter()
            .map(|freq| freq.iter().map(|b| s(f(b.im).atan2(f(b.re)))).collect())
            .collect();
        let phases = shifter.new_phases(params, raw, &found, buffer, ch);
        let mut back = Vec::new();
        for (freq, turned) in spectra.iter_mut().zip(&phases) {
            let ways: Vec<(Single, Single)> = turned
                .iter()
                .map(|p| {
                    let (sine, cosine) = f(*p).sin_cos();
                    (s(sine), s(cosine))
                })
                .collect();
            rotate(freq, &ways);
            back.push(inverse(freq, size));
        }
        measured.push(found);
        waves.push(back);
    }
    shifter.process(params, raw, &measured, &waves, buffer);
}

fn ref_princ(phase: f32) -> f32 {
    let tau = std::f32::consts::TAU;
    let pi = std::f32::consts::PI;
    let x = phase + pi;
    if x > 0.0 {
        x % tau - pi
    } else {
        x % -tau + pi
    }
}

struct RefVocoder {
    size: usize,
    hop: usize,
    window: Vec<f32>,
    scale: f32,
    input: Vec<Vec<f32>>,
    output: Vec<Vec<f32>>,
    in_phase: Vec<Vec<f32>>,
    out_phase: Vec<Vec<f32>>,
    at: [usize; 4],
    due: bool,
}

fn ref_straight(ty: pitchshift::WindowType, len: usize) -> Vec<f32> {
    match ty {
        pitchshift::WindowType::Bartlett => ref_window(robotization::WindowType::Bartlett, len),
        pitchshift::WindowType::Hann => ref_window(robotization::WindowType::Hann, len),
        pitchshift::WindowType::Hamming => ref_window(robotization::WindowType::Hamming, len),
    }
}

impl RefVocoder {
    fn new(size: usize, overlap: usize, ty: pitchshift::WindowType, lanes: usize) -> RefVocoder {
        let window = ref_straight(ty, size);
        RefVocoder {
            size,
            hop: size / overlap,
            scale: ref_scale(&window, overlap),
            window,
            input: vec![vec![0.0; size]; lanes],
            output: vec![vec![0.0; 2 * size]; lanes],
            in_phase: vec![vec![0.0; size / 2 + 1]; lanes],
            out_phase: vec![vec![0.0; size / 2 + 1]; lanes],
            at: [0, 0, size / overlap, 0],
            due: true,
        }
    }

    fn hop(&mut self, ch: usize, write: usize, add: usize, ratio: f32, synthesis: &[f32]) {
        let size = self.size;
        let hop_f = self.hop as f32;
        let mut planner = RealFftPlanner::<f32>::new();
        let mut time: Vec<f32> = (0..size)
            .map(|i| self.window[i].sqrt() * self.input[ch][(write + i) % size])
            .collect();
        let fwd = planner.plan_fft_forward(size);
        let mut freq = fwd.make_output_vec();
        let _ = fwd.process(&mut time, &mut freq);
        for k in 0..size / 2 + 1 {
            let c = freq[k];
            let magnitude = (c.re * c.re + c.im * c.im).sqrt();
            let phase = c.im.atan2(c.re);
            let omega = std::f32::consts::TAU * k as f32 / size as f32;
            let deviation = phase - self.in_phase[ch][k] - omega * hop_f;
            let delta = omega * hop_f + ref_princ(deviation);
            let new_phase = ref_princ(self.out_phase[ch][k] + delta * ratio);
            self.in_phase[ch][k] = phase;
            self.out_phase[ch][k] = new_phase;
            let (sine, cosine) = new_phase.sin_cos();
            freq[k] = Complex::new(magnitude * cosine, magnitude * sine);
        }
        let _ = planner.plan_fft_inverse(size).process(&mut freq, &mut time);
        let len = synthesis.len();
        let inv_n = 1.0 / size as f32;
        for j in 0..len {
            let x = j as f32 * size as f32 / len as f32;
            let ix = x.floor();
            let low = ix as usize % size;
            let dx = x - ix;
            let (s0, s1) = (time[low], time[(low + 1) % size]);
            let y = (s0 + dx * (s1 - s0)) * inv_n * synthesis[j].sqrt();
            self.output[ch][(add + j) % (2 * size)] += y * self.scale;
        }
    }

    fn block(
        &mut self,
        params: PitchShiftParams,
        input: &[Vec<f32>],
    ) -> Vec<Vec<f32>> {
        self.due = self.due || params.smoothing;
        let flush = self.due && !params.smoothing;
        let hop_f = self.hop as f32;
        let raw = 2f32.powf(f(params.shift) / 12.0);
        let ratio = ((raw * hop_f).round() / hop_f).max(1e-3);
        let len = ((self.size as f32 / ratio).floor() as usize).min(2 * self.size);
        let synthesis = ref_straight(params.window, len);
        let saved = self.at;
        let mut out = Vec::new();
        for (ch, line) in input.iter().enumerate() {
            let [mut write, mut read, mut add, mut count] = saved;
            let mut flush_now = flush;
            let mut played = Vec::new();
            for x in line {
                played.push(self.output[ch][read]);
                self.output[ch][read] = 0.0;
                read = (read + 1) % (2 * self.size);
                self.input[ch][write] = *x;
                write = (write + 1) % self.size;
                count += 1;
                if count >= self.hop {
                    count = 0;
                    if flush_now {
                        self.in_phase[ch].iter_mut().for_each(|v| *v = 0.0);
                        self.out_phase[ch].iter_mut().for_each(|v| *v = 0.0);
                        flush_now = false;
                        self.due = false;
                    }
                    self.hop(ch, write, add, ratio, &synthesis);
                    add = (add + self.hop) % (2 * self.size);
                }
            }
            self.at = [write, read, add, count];
            out.push(played);
        }
        out
    }
}

#[test]
fn pitch_shift_matches() {
    let mut noise = Noise(113);
    let windows =
        [pitchshift::WindowType::Bartlett, pitchshift::WindowType::Hann, pitchshift::WindowType::Hamming];
    let hops = [HopRatio::Half, HopRatio::Quarter, HopRatio::Eighth];
    for (k, window) in windows.iter().enumerate() {
        let hop = hops[k];
        let mut shifter = PitchShift::new();
        shifter.reset();
        let mut reference = RefVocoder::new(256, hop.overlap(), *window, 2);
        let plan = [
            (100, -12.0, false),
            (300, 5.0, false),
            (0, 5.0, false),
            (129, 6.0, true),
            (130, 7.0, true),
            (20, 7.0, false),
            (200, 7.0, false),
            (256, 12.0, false),
        ];
        for (n, shift, smoothing) in plan {
            let inputs: Vec<Vec<f32>> = (0..2).map(|_| noise.list(n, -1.0, 1.0)).collect();
            let params = pitch(shift, smoothing, hop, *window);
            let mut buffer = block(&inputs);
            pitch_block(&mut shifter, params, &mut buffer);
            let want = reference.block(params, &inputs);
            for ch in 0..2 {
                assert_eq!(plain(&buffer.output[ch]), want[ch]);
            }
            let pv = shifter.pv.as_ref().unwrap();
            assert_eq!(pv.need_phase_reset, reference.due);
            for ch in 0..2 {
                assert_eq!(plain(&pv.input_phase[ch]), reference.in_phase[ch]);
                assert_eq!(plain(&pv.output_phase[ch]), reference.out_phase[ch]);
                assert_eq!(plain(&pv.input_buffer[ch]), reference.input[ch]);
                assert_eq!(plain(&pv.output_buffer[ch]), reference.output[ch]);
            }
            assert_eq!(
                [
                    pv.input_write_pos,
                    pv.output_read_pos,
                    pv.output_write_pos,
                    pv.samples_since_last_fft
                ],
                reference.at
            );
        }
    }
}

#[test]
fn phases_are_flushed_once_the_shift_has_arrived() {
    let mut noise = Noise(127);
    let mut shifter = PitchShift::new();
    shifter.reset();
    let hop = HopRatio::Eighth;
    let window = pitchshift::WindowType::Hann;
    let due = |shifter: &PitchShift| shifter.pv.as_ref().unwrap().need_phase_reset;
    let mut run = |shifter: &mut PitchShift, n: usize, smoothing: bool| {
        let mut buffer = block(&[noise.list(n, -1.0, 1.0)]);
        pitch_block(shifter, pitch(3.0, smoothing, hop, window), &mut buffer);
    };
    run(&mut shifter, 100, false);
    assert!(!due(&shifter));
    run(&mut shifter, 100, true);
    assert!(due(&shifter));
    // No hop is complete within eight samples, so the flush is still to come.
    run(&mut shifter, 8, false);
    assert!(due(&shifter));
    run(&mut shifter, 100, false);
    assert!(!due(&shifter));
}

#[test]
fn shifter_takes_over_controls_between_blocks() {
    let mut noise = Noise(131);
    let mut shifter = PitchShift::new();
    assert_eq!(shifter.num_channels, 2);
    assert!(shifter.pv.is_none());
    shifter.reset();
    {
        let pv = shifter.pv.as_ref().unwrap();
        assert_eq!((pv.fft_size, pv.overlap, pv.hop_size, pv.output_len), (512, 8, 64, 1024));
        assert_eq!(pv.output_write_pos, 64);
        assert_eq!(pv.omega.len(), 257);
        assert_eq!(f(pv.omega[128]), std::f32::consts::TAU * 128.0 / 512.0);
        assert!(pv.need_phase_reset);
    }
    let mut params = pitch(-12.0, false, HopRatio::Quarter, pitchshift::WindowType::Hann);
    let mut buffer = block(&[noise.list(70, -1.0, 1.0), noise.list(70, -1.0, 1.0), noise.list(70, -1.0, 1.0)]);
    pitch_block(&mut shifter, params, &mut buffer);
    {
        let pv = shifter.pv.as_ref().unwrap();
        assert_eq!((pv.fft_size, pv.hop_size, pv.output_len), (256, 64, 512));
        assert_eq!(pv.synthesis_window.len(), 512);
        assert_eq!(pv.input_buffer.len(), 3);
    }
    params.window = pitchshift::WindowType::Bartlett;
    shifter.prepare(params, s(0.5), 3);
    {
        let pv = shifter.pv.as_ref().unwrap();
        assert_eq!((pv.input_write_pos, pv.output_write_pos), (70, 64));
    }
    params.fft_size = pitchshift::FftSize::S1024;
    shifter.prepare(params, s(2.0), 1);
    let pv = shifter.pv.as_ref().unwrap();
    assert_eq!((pv.input_write_pos, pv.output_write_pos), (0, 256));
    assert_eq!(pv.input_buffer.len(), 1);
    assert_eq!(pv.synthesis_window.len(), 512);
    assert!(pv.need_phase_reset);
}

#[test]
fn blocks_of_any_length_give_the_same() {
    let mut noise = Noise(137);
    let input = noise.list(600, -1.0, 1.0);
    let params = pitch(4.0, false, HopRatio::Quarter, pitchshift::WindowType::Hamming);
    let mut whole = PitchShift::new();
    whole.reset();
    let mut buffer = block(&[input.clone()]);
    pitch_block(&mut whole, params, &mut buffer);
    let mut parted = PitchShift::new();
    parted.reset();
    let mut joined = Vec::new();
    for part in [&input[..65], &input[65..66], &input[66..500], &input[500..]] {
        let mut buffer = block(&[part.to_vec()]);
        pitch_block(&mut parted, params, &mut buffer);
        joined.extend(plain(&buffer.output[0]));
    }
    assert_eq!(joined, plain(&buffer.output[0]));
}

#[test]
fn shifts_with_the_same_ratio_act_alike() {
    let mut noise = Noise(139);
    let input = noise.list(900, -1.0, 1.0);
    let hop = HopRatio::Eighth;
    let window = pitchshift::WindowType::Bartlett;
    let run = |shift: f32| {
        let mut shifter = PitchShift::new();
        shifter.reset();
        let mut buffer = block(&[input.clone()]);
        pitch_block(&mut shifter, pitch(shift, false, hop, window), &mut buffer);
        buffer.output[0].clone()
    };
    let ratio = |shift: f32| {
        f(snapped_ratio(s(2f32.powf(f(shift_exponent(s(shift))))), 32))
    };
    assert_eq!((ratio(0.0), ratio(0.1), ratio(3.0)), (1.0, 1.0, 38.0 / 32.0));
    assert_eq!(run(0.0), run(0.1));
    assert_ne!(run(0.0), run(3.0));
}
