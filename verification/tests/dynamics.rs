//! Ring modulation, dynamics and distortion against floating-point code, sample for sample.
use reiss_mcpherson_effects::audio::AudioBuffer;
use reiss_mcpherson_effects::compressor::{
    curve, decibels, Compressor, CompressorDsp, CompressorParams, Detection, Mode, AVERAGE_FACTOR,
    DEFAULT_STEP, FLOOR_DB, FLOOR_LEVEL, TEN, TWENTIETH,
};
use reiss_mcpherson_effects::distortion::{
    gain_exponents, shape, tone_angle, Distortion, DistortionType, Levels, ToneShelf, CUTOFF,
    MAX_BLOCK, THIRD, THREE, TWO_THIRDS,
};
use reiss_mcpherson_effects::float::double::Double;
use reiss_mcpherson_effects::float::single::Single;
use reiss_mcpherson_effects::follower::INV_E;
use reiss_mcpherson_effects::ringmod::{
    carrier, gain, lfo, RingMod, RingModParams, Waveform, FALL, RISE, SLOPE,
};

fn s(x: f32) -> Single {
    Single { bits: x.to_bits() }
}

fn f(x: Single) -> f32 {
    f32::from_bits(x.bits)
}

fn all(xs: &[f32]) -> Vec<Single> {
    xs.iter().map(|x| s(*x)).collect()
}

fn rate(x: f64) -> Double {
    Double { bits: x.to_bits() }
}

struct Noise(u64);

impl Noise {
    fn next(&mut self) -> f32 {
        self.0 = self.0.wrapping_mul(6364136223846793005).wrapping_add(1442695040888963407);
        ((self.0 >> 40) as f32) / 8388608.0 - 1.0
    }

    fn list(&mut self, n: usize, low: f32, high: f32) -> Vec<f32> {
        (0..n).map(|_| low + (high - low) * (self.next() * 0.5 + 0.5)).collect()
    }
}

fn block(input: &[Vec<f32>]) -> AudioBuffer {
    let samples = input.first().map_or(0, |c| c.len());
    AudioBuffer {
        input: input.iter().map(|c| all(c)).collect(),
        output: input.iter().map(|c| vec![s(0.0); c.len()]).collect(),
        samples,
    }
}

#[test]
fn dynamics_constants() {
    assert_eq!(DEFAULT_STEP, (1.0_f32 / 44_100.0).to_bits());
    assert_eq!(AVERAGE_FACTOR, 0.9999_f32.to_bits());
    assert_eq!(FLOOR_LEVEL, 1e-6_f32.to_bits());
    assert_eq!(FLOOR_DB, (-60.0_f32).to_bits());
    assert_eq!(TEN, 10.0_f32.to_bits());
    assert_eq!(TWENTIETH, 0.05_f32.to_bits());
    assert_eq!(CUTOFF, (std::f32::consts::PI * 0.01).to_bits());
    assert_eq!(THIRD, (1.0_f32 / 3.0).to_bits());
    assert_eq!(TWO_THIRDS, (2.0_f32 / 3.0).to_bits());
    assert_eq!(THREE, 3.0_f32.to_bits());
    assert_eq!(FALL, 0.48_f32.to_bits());
    assert_eq!(RISE, 0.98_f32.to_bits());
    assert_eq!(SLOPE, 50.0_f32.to_bits());
    assert_eq!(MAX_BLOCK, 512);
    assert_eq!(f(tone_angle()), std::f32::consts::PI * 0.01 * 0.5);
}

fn ref_lfo(phase: f32, waveform: Waveform) -> f32 {
    match waveform {
        Waveform::Sine => 0.5 + 0.5 * (std::f32::consts::TAU * phase).sin(),
        Waveform::Triangle => {
            if phase < 0.25 {
                0.5 + 2.0 * phase
            } else if phase < 0.75 {
                1.0 - 2.0 * (phase - 0.25)
            } else {
                2.0 * (phase - 0.75)
            }
        }
        Waveform::Sawtooth => {
            if phase < 0.5 {
                0.5 + phase
            } else {
                phase - 0.5
            }
        }
        Waveform::InverseSawtooth => {
            if phase < 0.5 {
                0.5 - phase
            } else {
                1.5 - phase
            }
        }
        Waveform::Square => {
            if phase < 0.5 {
                0.0
            } else {
                1.0
            }
        }
        Waveform::SquareSloped => {
            if phase < 0.48 {
                1.0
            } else if phase < 0.5 {
                1.0 - 50.0 * (phase - 0.48)
            } else if phase < 0.98 {
                0.0
            } else {
                50.0 * (phase - 0.98)
            }
        }
    }
}

const WAVES: [Waveform; 6] = [
    Waveform::Sine,
    Waveform::Triangle,
    Waveform::Sawtooth,
    Waveform::InverseSawtooth,
    Waveform::Square,
    Waveform::SquareSloped,
];

#[test]
fn ringmod_matches() {
    let mut noise = Noise(61);
    for wave in WAVES {
        let n = 400;
        let inputs: Vec<Vec<f32>> = (0..3).map(|_| noise.list(n, -1.0, 1.0)).collect();
        let depth = noise.list(n, 0.0, 1.0);
        let frequency = noise.list(n, 10.0, 1000.0);
        let params =
            RingModParams { depth: all(&depth), frequency: all(&frequency), waveform: wave };
        let mut ring = RingMod::new();
        ring.reset(rate(8000.0));
        let sines: Vec<Single> =
            ring.lfo_angles(&params, n).iter().map(|a| s(f(*a).sin())).collect();
        let mut buffer = block(&inputs);
        ring.process(&params, &sines, &mut buffer);
        let inv_sr = 1.0 / 8000.0_f32;
        let mut phase = 0.0_f32;
        for i in 0..n {
            let carrier = 2.0 * ref_lfo(phase, wave) - 1.0;
            let gain = 1.0 - depth[i] + depth[i] * carrier;
            phase += frequency[i] * inv_sr;
            if phase >= 1.0 {
                phase -= 1.0;
            }
            for ch in 0..3 {
                let want = inputs[ch][i] * gain;
                assert_eq!(f(buffer.output[ch][i]).to_bits(), want.to_bits());
            }
        }
        assert_eq!(f(ring.lfo_phase), phase);
    }
}

#[test]
fn depth_zero_is_dry_and_depth_one_is_the_carrier() {
    for k in 0..1000 {
        let phase = k as f32 / 1000.0;
        for wave in WAVES {
            let sine = (std::f32::consts::TAU * phase).sin();
            let c = carrier(lfo(s(phase), wave, s(sine)));
            assert!((-1.0..=1.0).contains(&f(c)));
            assert_eq!(f(gain(s(0.0), c)), 1.0);
            assert_eq!(f(gain(s(1.0), c)), f(c));
        }
    }
}

#[test]
fn carrier_shapes_at_given_phases() {
    assert_eq!(f(lfo(s(0.25), Waveform::Square, s(0.0))), 0.0);
    assert_eq!(f(lfo(s(0.5), Waveform::Square, s(0.0))), 1.0);
    assert_eq!(f(lfo(s(0.25), Waveform::SquareSloped, s(0.0))), 1.0);
    assert_eq!(f(lfo(s(0.75), Waveform::SquareSloped, s(0.0))), 0.0);
    let falling = f(lfo(s(0.49), Waveform::SquareSloped, s(0.0)));
    assert!((falling - 0.5).abs() < 1e-4);
    let rising = f(lfo(s(0.99), Waveform::SquareSloped, s(0.0)));
    assert!((rising - 0.5).abs() < 1e-4);
}

struct Comp {
    threshold: Vec<f32>,
    ratio: Vec<f32>,
    attack: Vec<f32>,
    release: Vec<f32>,
    makeup: Vec<f32>,
}

fn comp_params(c: &Comp, mode: Mode, bypass: bool) -> CompressorParams {
    CompressorParams {
        mode,
        threshold: all(&c.threshold),
        ratio: all(&c.ratio),
        attack: all(&c.attack),
        release: all(&c.release),
        makeup: all(&c.makeup),
        bypass,
    }
}

fn run_compressor(state: &mut CompressorDsp, params: &CompressorParams, buffer: &mut AudioBuffer) {
    let n = buffer.samples;
    let base = f32::from_bits(INV_E);
    let detection = Detection {
        logs: Compressor::levels(state, params, buffer).iter().map(|l| s(f(*l).log10())).collect(),
        powers: Compressor::coefficient_exponents(state, params, n)
            .iter()
            .map(|(a, r)| (s(base.powf(f(*a))), s(base.powf(f(*r)))))
            .collect(),
    };
    let controls: Vec<Single> = Compressor::control_exponents(state, params, &detection, buffer)
        .iter()
        .map(|e| s(10f32.powf(f(*e))))
        .collect();
    Compressor::process(state, params, &detection, &controls, buffer);
}

#[test]
fn compressor_matches() {
    let mut noise = Noise(67);
    for mode in [Mode::Compressor, Mode::Expander] {
        for channels in [1, 2, 3] {
            let n = 300;
            let inputs: Vec<Vec<f32>> =
                (0..channels).map(|_| noise.list(n, -1.0, 1.0)).collect();
            let c = Comp {
                threshold: noise.list(n, -60.0, 0.0),
                ratio: noise.list(n, 1.0, 100.0),
                attack: noise.list(n, 0.0001, 0.1),
                release: noise.list(n, 0.01, 1.0),
                makeup: noise.list(n, -12.0, 12.0),
            };
            let params = comp_params(&c, mode, false);
            let mut state = CompressorDsp::default();
            Compressor::reset(&mut state, rate(48000.0));
            let mut buffer = block(&inputs);
            run_compressor(&mut state, &params, &mut buffer);

            let expander = mode == Mode::Expander;
            let inv_sr = 1.0 / 48000.0_f32;
            let inv_ch = 1.0 / channels as f32;
            let mut level = 0.0_f32;
            let mut last = 0.0_f32;
            for i in 0..n {
                let aa = 0.367_879_45_f32.powf(inv_sr / c.attack[i]);
                let ar = 0.367_879_45_f32.powf(inv_sr / c.release[i]);
                let mut mix = 0.0_f32;
                for input in &inputs {
                    mix += input[i];
                }
                mix *= inv_ch;
                let sq = mix * mix;
                level = if expander { 0.9999 * level + (1.0 - 0.9999_f32) * sq } else { sq };
                let xg = if level <= 1e-6 { -60.0 } else { 10.0 * level.log10() };
                let (t, r) = (c.threshold[i], c.ratio[i]);
                let yg = if expander {
                    if xg > t {
                        xg
                    } else {
                        t + (xg - t) * r
                    }
                } else if xg < t {
                    xg
                } else {
                    t + (xg - t) / r
                };
                let xl = xg - yg;
                let attacks = if expander { xl < last } else { xl > last };
                let a = if attacks { aa } else { ar };
                last = a * last + (1.0 - a) * xl;
                let control = 10f32.powf((c.makeup[i] - last) * 0.05);
                for ch in 0..channels {
                    let want = inputs[ch][i] * control;
                    assert_eq!(f(buffer.output[ch][i]).to_bits(), want.to_bits());
                }
            }
            assert_eq!(f(state.input_level), level);
            assert_eq!(f(state.yl_prev), last);
        }
    }
}

#[test]
fn bypass_copies_and_waits() {
    let mut noise = Noise(71);
    let n = 64;
    let c = Comp {
        threshold: vec![-24.0; n],
        ratio: vec![50.0; n],
        attack: vec![0.002; n],
        release: vec![0.3; n],
        makeup: vec![6.0; n],
    };
    let input = noise.list(n, -1.0, 1.0);
    let mut state = CompressorDsp::default();
    Compressor::reset(&mut state, rate(48000.0));
    run_compressor(&mut state, &comp_params(&c, Mode::Compressor, false), &mut block(&[input]));
    let kept = state;
    let other = noise.list(n, -1.0, 1.0);
    let mut buffer = block(&[other.clone(), other.clone()]);
    run_compressor(&mut state, &comp_params(&c, Mode::Compressor, true), &mut buffer);
    assert_eq!(buffer.output[0], all(&other));
    assert_eq!(buffer.output[1], all(&other));
    assert!(state == kept);
}

#[test]
fn no_channels_leave_the_detector() {
    let c = Comp {
        threshold: vec![],
        ratio: vec![],
        attack: vec![],
        release: vec![],
        makeup: vec![],
    };
    let mut state = CompressorDsp::default();
    let kept = state;
    run_compressor(&mut state, &comp_params(&c, Mode::Compressor, false), &mut block(&[]));
    assert!(state == kept);
}

#[test]
fn gain_curves_at_given_levels() {
    assert_eq!(f(curve(Mode::Compressor, s(-30.0), s(-20.0), s(4.0))), -30.0);
    assert_eq!(f(curve(Mode::Compressor, s(-12.0), s(-20.0), s(4.0))), -18.0);
    assert_eq!(f(curve(Mode::Expander, s(-12.0), s(-20.0), s(4.0))), -12.0);
    assert_eq!(f(curve(Mode::Expander, s(-22.0), s(-20.0), s(4.0))), -28.0);
    assert_eq!(f(decibels(s(1e-7), s(-7.0))), -60.0);
    assert_eq!(f(decibels(s(0.01), s(-2.0))), -20.0);
}

#[test]
fn quiet_input_is_not_reduced() {
    let n = 500;
    let c = Comp {
        threshold: vec![-6.0; n],
        ratio: vec![50.0; n],
        attack: vec![0.002; n],
        release: vec![0.3; n],
        makeup: vec![0.0; n],
    };
    let input: Vec<f32> = (0..n).map(|i| 0.1 * (i as f32 * 0.1).sin()).collect();
    let mut state = CompressorDsp::default();
    Compressor::reset(&mut state, rate(48000.0));
    let mut buffer = block(&[input.clone()]);
    run_compressor(&mut state, &comp_params(&c, Mode::Compressor, false), &mut buffer);
    assert_eq!(f(state.yl_prev), 0.0);
    assert_eq!(buffer.output[0], all(&input));
}

fn ref_shape(x: f32, ty: DistortionType) -> f32 {
    match ty {
        DistortionType::HardClipping => x.clamp(-0.5, 0.5),
        DistortionType::SoftClipping => {
            let t1 = 1.0 / 3.0;
            let t2 = 2.0 / 3.0;
            let raw = if x > t2 {
                1.0
            } else if x > t1 {
                let inner = 2.0 - 3.0 * x;
                1.0 - (inner * inner) / 3.0
            } else if x < -t2 {
                -1.0
            } else if x < -t1 {
                let inner = 2.0 + 3.0 * x;
                -1.0 + (inner * inner) / 3.0
            } else {
                2.0 * x
            };
            raw * 0.5
        }
        DistortionType::Exponential => {
            if x > 0.0 {
                1.0 - (-x).exp()
            } else {
                -1.0 + x.exp()
            }
        }
        DistortionType::FullWaveRectifier => x.abs(),
        DistortionType::HalfWaveRectifier => x.max(0.0),
    }
}

const TYPES: [DistortionType; 5] = [
    DistortionType::HardClipping,
    DistortionType::SoftClipping,
    DistortionType::Exponential,
    DistortionType::FullWaveRectifier,
    DistortionType::HalfWaveRectifier,
];

#[test]
fn distortion_matches() {
    let mut noise = Noise(73);
    for ty in TYPES {
        for channels in [1, 2] {
            let n = 1100;
            let inputs: Vec<Vec<f32>> =
                (0..channels).map(|_| noise.list(n, -1.0, 1.0)).collect();
            let in_db = noise.list(n, -24.0, 24.0);
            let out_db = noise.list(n, -24.0, 24.0);
            let tone = noise.list(3, -24.0, 24.0);
            let powers = |x: &[f32]| {
                gain_exponents(&all(x)).iter().map(|e| s(10f32.powf(f(*e)))).collect::<Vec<_>>()
            };
            let levels = Levels {
                input: powers(&in_db),
                output: powers(&out_db),
                tone: powers(&tone),
                tan_half: s(f(tone_angle()).tan()),
            };
            let mut distortion = Distortion::new();
            distortion.reset();
            let mut buffer = block(&inputs);
            let exps: Vec<Vec<Single>> = (0..channels)
                .map(|ch| {
                    Distortion::exponents(&levels, &buffer, ch)
                        .iter()
                        .map(|e| s(f(*e).exp()))
                        .collect()
                })
                .collect();
            distortion.process(ty, &levels, &exps, &mut buffer);
            let tan_half = (std::f32::consts::PI * 0.01 * 0.5).tan();
            for ch in 0..2 {
                let mut c = [0.0_f32; 3];
                let mut last = (0.0_f32, 0.0_f32);
                for i in 0..n {
                    if i % 512 == 0 {
                        let g = 10f32.powf(tone[i / 512] * 0.05);
                        let root = g.sqrt();
                        let inv = 1.0 / (root * tan_half + 1.0);
                        c = [
                            (root * tan_half + g) * inv,
                            (root * tan_half - g) * inv,
                            (root * tan_half - 1.0) * inv,
                        ];
                    }
                    if ch < channels {
                        let x = ref_shape(inputs[ch][i] * 10f32.powf(in_db[i] * 0.05), ty);
                        let y = c[0] * x + c[1] * last.0 - c[2] * last.1;
                        last = (x, y);
                        let want = y * 10f32.powf(out_db[i] * 0.05);
                        assert_eq!(f(buffer.output[ch][i]).to_bits(), want.to_bits());
                    }
                }
                let shelf = distortion.shelves[ch];
                assert_eq!([f(shelf.b0), f(shelf.b1), f(shelf.a1)], c);
                assert_eq!((f(shelf.x1), f(shelf.y1)), last);
            }
        }
    }
}

#[test]
fn shapes_keep_their_bounds() {
    let mut noise = Noise(79);
    for x in noise.list(4000, -3.0, 3.0) {
        let exp = s((-x.abs()).exp());
        let shaped = |ty| f(shape(s(x), ty, exp));
        assert!(shaped(DistortionType::HardClipping).abs() <= 0.5);
        assert!(shaped(DistortionType::SoftClipping).abs() <= 0.5);
        assert!(shaped(DistortionType::Exponential).abs() <= 1.0);
        assert!(shaped(DistortionType::FullWaveRectifier) >= 0.0);
        assert!(shaped(DistortionType::HalfWaveRectifier) >= 0.0);
        if x.abs() <= 1.0 / 3.0 {
            assert_eq!(shaped(DistortionType::SoftClipping), x);
        }
        assert_eq!(
            f(shape(s(-x), DistortionType::SoftClipping, exp)),
            -shaped(DistortionType::SoftClipping)
        );
    }
    assert_eq!(f(shape(s(2.0), DistortionType::SoftClipping, s(0.0))), 0.5);
    assert_eq!(f(shape(s(-2.0), DistortionType::HardClipping, s(0.0))), -0.5);
    assert_eq!(f(shape(s(-0.25), DistortionType::FullWaveRectifier, s(0.0))), 0.25);
    assert_eq!(f(shape(s(-0.25), DistortionType::HalfWaveRectifier, s(0.0))), 0.0);
}

#[test]
fn tone_at_zero_decibels_is_flat() {
    let mut shelf = ToneShelf::default();
    let tan_half = s(f(tone_angle()).tan());
    shelf.update(s(1.0), tan_half);
    assert_eq!(shelf.b1, shelf.a1);
    assert!((f(shelf.b0) - 1.0).abs() < 1e-6);
}

#[test]
fn distortion_splits_where_the_tone_is_taken_over() {
    let mut noise = Noise(83);
    let n = 900;
    let input = noise.list(n, -1.0, 1.0);
    let levels = |from: usize, to: usize, tone: &[f32]| Levels {
        input: vec![s(2.0); to - from],
        output: vec![s(0.5); to - from],
        tone: all(tone),
        tan_half: s(0.0157),
    };
    let ty = DistortionType::SoftClipping;
    let mut whole = Distortion::new();
    let mut buffer = block(&[input.clone()]);
    whole.process(ty, &levels(0, n, &[2.0, 0.5]), &vec![vec![s(0.0); n]], &mut buffer);
    let mut parted = Distortion::new();
    let mut first = block(&[input[..512].to_vec()]);
    parted.process(ty, &levels(0, 512, &[2.0]), &vec![vec![s(0.0); 512]], &mut first);
    let mut second = block(&[input[512..].to_vec()]);
    parted.process(ty, &levels(512, n, &[0.5]), &vec![vec![s(0.0); n - 512]], &mut second);
    let mut joined = first.output[0].clone();
    joined.extend(second.output[0].iter());
    assert_eq!(joined, buffer.output[0]);
}
