//! What holds of all blocks, on given values: two blocks give what one block of both gives.
use reiss_mcpherson_effects::audio::AudioBuffer;
use reiss_mcpherson_effects::biquad::FilterTrig;
use reiss_mcpherson_effects::chorus::{Chorus, ChorusParams};
use reiss_mcpherson_effects::compressor;
use reiss_mcpherson_effects::compressor::{Compressor, CompressorDsp, CompressorParams, Detection};
use reiss_mcpherson_effects::delay::{Delay, DelayDsp, DelayParams};
use reiss_mcpherson_effects::float::double::Double;
use reiss_mcpherson_effects::float::single::Single;
use reiss_mcpherson_effects::follower::INV_E;
use reiss_mcpherson_effects::modulation::{linear, Interpolation, Waveform};
use reiss_mcpherson_effects::panning::{Method, Panning, PanningDsp, PanningParams, PanningTrig};
use reiss_mcpherson_effects::parametric_eq;
use reiss_mcpherson_effects::parametric_eq::{ParametricEq, ParametricEqParams};
use reiss_mcpherson_effects::phaser;
use reiss_mcpherson_effects::phaser::{NumFilters, Phaser, PhaserDsp, PhaserParams};
use reiss_mcpherson_effects::pingpong;
use reiss_mcpherson_effects::pingpong::{PingPong, PingPongDsp, PingPongParams};
use reiss_mcpherson_effects::ringmod;
use reiss_mcpherson_effects::ringmod::{RingMod, RingModParams};
use reiss_mcpherson_effects::vibrato::{Vibrato, VibratoParams};
use reiss_mcpherson_effects::wahwah;
use reiss_mcpherson_effects::wahwah::{Drive, WahWah, WahWahParams};

fn s(x: f32) -> Single {
    Single { bits: x.to_bits() }
}

fn f(x: Single) -> f32 {
    f32::from_bits(x.bits)
}

fn all(xs: &[f32]) -> Vec<Single> {
    xs.iter().map(|x| s(*x)).collect()
}

fn rate(x: f64) -> Double {
    Double { bits: x.to_bits() }
}

struct Noise(u64);

impl Noise {
    fn next(&mut self) -> f32 {
        self.0 = self.0.wrapping_mul(6364136223846793005).wrapping_add(1442695040888963407);
        ((self.0 >> 40) as f32) / 8388608.0 - 1.0
    }

    fn list(&mut self, n: usize, low: f32, high: f32) -> Vec<f32> {
        (0..n).map(|_| low + (high - low) * (self.next() * 0.5 + 0.5)).collect()
    }
}

fn block(input: &[Vec<f32>]) -> AudioBuffer {
    let samples = input.first().map_or(0, |c| c.len());
    AudioBuffer {
        input: input.iter().map(|c| all(c)).collect(),
        output: input.iter().map(|c| vec![s(0.0); c.len()]).collect(),
        samples,
    }
}

const N: usize = 700;

/// Controls and input over the whole run, and the part of them that a block sees.
struct Run {
    controls: Vec<Vec<f32>>,
    inputs: Vec<Vec<f32>>,
}

impl Run {
    fn new(seed: u64, ranges: &[(f32, f32)]) -> Run {
        let mut noise = Noise(seed);
        Run {
            controls: ranges.iter().map(|(low, high)| noise.list(N, *low, *high)).collect(),
            inputs: (0..2).map(|_| noise.list(N, -1.0, 1.0)).collect(),
        }
    }

    fn control(&self, k: usize, part: &(usize, usize)) -> Vec<Single> {
        all(&self.controls[k][part.0..part.1])
    }

    fn block(&self, part: &(usize, usize)) -> AudioBuffer {
        let lines: Vec<Vec<f32>> =
            self.inputs.iter().map(|line| line[part.0..part.1].to_vec()).collect();
        block(&lines)
    }
}

/// Runs an effect over parts of a run, a fresh one each time, and compares.
fn joins<T>(run: &Run, fresh: impl Fn() -> T, step: impl Fn(&mut T, &(usize, usize), &mut AudioBuffer)) {
    let over = |parts: &[(usize, usize)]| {
        let mut effect = fresh();
        let mut out = vec![Vec::new(); 2];
        for part in parts {
            let mut buffer = run.block(part);
            step(&mut effect, part, &mut buffer);
            for ch in 0..2 {
                out[ch].extend(buffer.output[ch].iter().copied());
            }
        }
        out
    };
    let whole = over(&[(0, N)]);
    assert_eq!(whole, over(&[(0, 1), (1, 1), (1, 333), (333, N)]));
    assert_eq!(whole, over(&[(0, 512), (512, N)]));
    assert!(whole[0].iter().any(|x| *x != s(0.0)));
}

fn sines(angles: &[Single]) -> Vec<Single> {
    angles.iter().map(|a| s(f(*a).sin())).collect()
}

fn powers(exponents: &[(Single, Single)]) -> Vec<(Single, Single)> {
    let base = f32::from_bits(INV_E);
    exponents.iter().map(|(a, r)| (s(base.powf(f(*a))), s(base.powf(f(*r))))).collect()
}

#[test]
fn vibrato_joins() {
    let run = Run::new(201, &[(0.001, 0.05), (0.0, 10.0)]);
    let fresh = || {
        let mut effect = Vibrato::new();
        effect.reset(rate(8000.0));
        effect
    };
    joins(&run, fresh, |effect, part, buffer| {
        let params = VibratoParams {
            width: run.control(0, part),
            rate: run.control(1, part),
            waveform: Waveform::Sine,
            interp: Interpolation::Cubic,
        };
        let sine = sines(&effect.lfo_angles(&params, part.1 - part.0));
        effect.process(&params, &sine, buffer);
    });
}

#[test]
fn chorus_joins() {
    let run = Run::new(202, &[(0.01, 0.05), (0.01, 0.05), (0.0, 1.0), (0.05, 2.0)]);
    let fresh = || {
        let mut effect = Chorus::new();
        effect.reset(rate(8000.0));
        effect
    };
    joins(&run, fresh, |effect, part, buffer| {
        let both = |k: usize| vec![run.control(k, part); 2];
        let params = ChorusParams {
            delay: both(0),
            width: both(1),
            depth: both(2),
            voices: 5,
            rate: both(3),
            waveform: Waveform::Sine,
            interp: Interpolation::Linear,
            stereo: true,
        };
        let n = part.1 - part.0;
        let sine: Vec<Vec<Vec<Single>>> = (0..2)
            .map(|ch| effect.lfo_angles(&params, ch, n).iter().map(|v| sines(v)).collect())
            .collect();
        effect.process(&params, &sine, buffer);
    });
}

#[test]
fn delay_joins() {
    let run = Run::new(203, &[(0.0, 0.02), (0.0, 0.9), (0.0, 1.0)]);
    let fresh = || {
        let mut state = DelayDsp::default();
        Delay::reset(&mut state, rate(8000.0));
        state
    };
    joins(&run, fresh, |state, part, buffer| {
        let params = DelayParams {
            delay_time: run.control(0, part),
            feedback: run.control(1, part),
            mix: run.control(2, part),
        };
        Delay::process(state, &params, buffer);
    });
}

#[test]
fn pingpong_joins() {
    let run = Run::new(204, &[(0.0, 1.0), (0.0, 0.02), (0.0, 0.9), (0.0, 1.0)]);
    let fresh = || {
        let mut state = PingPongDsp::default();
        PingPong::reset(&mut state, rate(8000.0));
        state
    };
    joins(&run, fresh, |state, part, buffer| {
        let params = PingPongParams {
            balance: run.control(0, part),
            delay_time: run.control(1, part),
            feedback: run.control(2, part),
            mix: run.control(3, part),
        };
        PingPong::process(state, &params, buffer);
    });
}

#[test]
fn balance_picks_a_side() {
    for x in [0.0_f32, 0.5, -0.75, 1e-30] {
        assert_eq!(f(pingpong::left(s(0.0), s(x))), x);
        assert_eq!(f(pingpong::right(s(0.0), s(x))), 0.0);
        assert_eq!(f(pingpong::right(s(1.0), s(x))), x);
        assert_eq!(f(pingpong::left(s(1.0), s(x))), 0.0);
    }
}

#[test]
fn panning_joins() {
    let run = Run::new(205, &[(-1.0, 1.0)]);
    let fresh = || {
        let mut state = PanningDsp::default();
        Panning::reset(&mut state, rate(48000.0));
        state
    };
    let pair = |(a, b): (f32, f32)| (s(a), s(b));
    joins(&run, fresh, |state, part, buffer| {
        let params =
            PanningParams { method: Method::PanoramaPrecedence, pan: run.control(0, part) };
        let angles = Panning::panorama_angles(&params, part.1 - part.0);
        let trig = PanningTrig {
            theta: pair(30.0_f32.to_radians().sin_cos()),
            pairs: angles.iter().map(|a| pair(f(*a).sin_cos())).collect(),
        };
        Panning::process(state, &params, &trig, buffer);
    });
    joins(&run, fresh, |state, part, buffer| {
        let params = PanningParams { method: Method::ItdIld, pan: run.control(0, part) };
        let angles = Panning::head_angles(&params, part.1 - part.0);
        let trig = PanningTrig {
            theta: pair((0.0, 0.0)),
            pairs: angles.iter().map(|(l, r)| pair((f(*l).cos(), f(*r).cos()))).collect(),
        };
        Panning::process(state, &params, &trig, buffer);
    });
}

#[test]
fn phaser_joins() {
    let run =
        Run::new(206, &[(0.0, 1.0), (0.0, 0.9), (50.0, 1000.0), (50.0, 3000.0), (0.0, 2.0)]);
    let fresh = || {
        let mut state = PhaserDsp::default();
        Phaser::reset(&mut state, rate(48000.0));
        state
    };
    joins(&run, fresh, |state, part, buffer| {
        let n = part.1 - part.0;
        let params = PhaserParams {
            depth: run.control(0, part),
            feedback: run.control(1, part),
            stages: NumFilters::Six,
            min_freq: run.control(2, part),
            sweep_width: run.control(3, part),
            lfo_rate: run.control(4, part),
            waveform: phaser::Waveform::Sine,
            stereo: true,
        };
        let mut sine = Vec::new();
        let mut tans = Vec::new();
        for ch in 0..2 {
            sine.push(sines(&Phaser::lfo_angles(state, &params, ch, n)));
            let angles = Phaser::filter_angles(state, &params, ch, &sine[ch], n);
            tans.push(angles.iter().map(|a| a.map_or(s(0.0), |a| s(f(a).tan()))).collect());
        }
        Phaser::process(state, &params, &sine, &tans, buffer);
    });
}

#[test]
fn ringmod_joins() {
    let run = Run::new(207, &[(0.0, 1.0), (10.0, 1000.0)]);
    let fresh = || {
        let mut effect = RingMod::new();
        effect.reset(rate(8000.0));
        effect
    };
    joins(&run, fresh, |effect, part, buffer| {
        let params = RingModParams {
            depth: run.control(0, part),
            frequency: run.control(1, part),
            waveform: ringmod::Waveform::Sine,
        };
        let sine = sines(&effect.lfo_angles(&params, part.1 - part.0));
        effect.process(&params, &sine, buffer);
    });
}

#[test]
fn compressor_joins() {
    let run = Run::new(
        208,
        &[(-60.0, 0.0), (1.0, 100.0), (0.0001, 0.1), (0.01, 1.0), (-12.0, 12.0)],
    );
    let fresh = || {
        let mut state = CompressorDsp::default();
        Compressor::reset(&mut state, rate(48000.0));
        state
    };
    for mode in [compressor::Mode::Compressor, compressor::Mode::Expander] {
        joins(&run, fresh, |state, part, buffer| {
            let params = CompressorParams {
                mode,
                threshold: run.control(0, part),
                ratio: run.control(1, part),
                attack: run.control(2, part),
                release: run.control(3, part),
                makeup: run.control(4, part),
                bypass: false,
            };
            let levels = Compressor::levels(state, &params, buffer);
            let exponents =
                Compressor::coefficient_exponents(state, &params, part.1 - part.0);
            let detection = Detection {
                logs: levels.iter().map(|l| s(f(*l).log10())).collect(),
                powers: powers(&exponents),
            };
            let controls: Vec<Single> =
                Compressor::control_exponents(state, &params, &detection, buffer)
                    .iter()
                    .map(|e| s(10f32.powf(f(*e))))
                    .collect();
            Compressor::process(state, &params, &detection, &controls, buffer);
        });
    }
}

#[test]
fn equaliser_joins() {
    let run = Run::new(209, &[]);
    let fresh = || {
        let mut effect = ParametricEq::new();
        effect.reset(rate(48000.0));
        effect
    };
    joins(&run, fresh, |effect, _part, buffer| {
        let params = ParametricEqParams {
            frequency: s(1500.0),
            q: s(1.4),
            gain: s(6.0),
            filter_type: parametric_eq::FilterType::Peaking,
        };
        let (a, exponent) = effect.arguments(params);
        let w = |x: Double| f64::from_bits(x.bits);
        let trig = FilterTrig {
            cos_centre: rate(w(a.centre).cos()),
            tan_half_bandwidth: rate(w(a.half_bandwidth).tan()),
            tan_half_centre: rate(w(a.half_centre).tan()),
            gain: rate(10f64.powf(w(exponent))),
        };
        effect.process(params, trig, buffer);
    });
}

#[test]
fn wahwah_joins() {
    let run = Run::new(
        210,
        &[
            (0.0, 1.0),
            (200.0, 1300.0),
            (0.1, 20.0),
            (0.0, 20.0),
            (0.0, 5.0),
            (0.0, 1.0),
            (0.0001, 0.1),
            (0.01, 1.0),
        ],
    );
    let fresh = || {
        let mut effect = WahWah::new();
        effect.reset(rate(48000.0));
        effect
    };
    joins(&run, fresh, |effect, part, buffer| {
        let n = part.1 - part.0;
        let params = WahWahParams {
            mode: wahwah::Mode::Automatic,
            mix: run.control(0, part),
            frequency: run.control(1, part),
            q: run.control(2, part),
            gain: run.control(3, part),
            filter_type: wahwah::FilterType::ResonantLowPass,
            lfo_rate: run.control(4, part),
            lfo_env_mix: run.control(5, part),
            env_attack: run.control(6, part),
            env_release: run.control(7, part),
        };
        let drive = Drive {
            sines: sines(&effect.lfo_angles(&params, n)),
            powers: powers(&effect.coefficient_exponents(&params, n)),
        };
        let w = |x: Double| f64::from_bits(x.bits);
        let gains: Vec<f64> =
            effect.gain_exponents(&params, n).iter().map(|e| 10f64.powf(w(*e))).collect();
        let trig: Vec<Vec<FilterTrig>> = (0..2)
            .map(|ch| {
                effect
                    .channel_angles(&params, &drive, buffer, ch)
                    .iter()
                    .zip(&gains)
                    .map(|(a, gain)| FilterTrig {
                        cos_centre: rate(w(a.centre).cos()),
                        tan_half_bandwidth: rate(w(a.half_bandwidth).tan()),
                        tan_half_centre: rate(w(a.half_centre).tan()),
                        gain: rate(*gain),
                    })
                    .collect()
            })
            .collect();
        effect.process(&params, &drive, &trig, buffer);
    });
}

#[test]
fn mix_of_oscillator_and_envelope_at_its_ends() {
    let mut noise = Noise(211);
    for _ in 0..5000 {
        let v = noise.list(2, 0.0, 1.0);
        let held = s(v[1]).clamp(s(0.0), s(1.0));
        assert_eq!(f(linear(s(v[0]), held, s(0.0))), v[0]);
        let mixed = f(linear(s(v[0]), held, s(1.0)));
        assert!((f64::from(mixed) - f64::from(v[1])).abs() <= 3.0 / 16_777_216.0);
    }
}

#[test]
fn sums_and_products_commute_and_narrowing_undoes_widening() {
    let mut noise = Noise(212);
    for _ in 0..2000 {
        let v = noise.list(2, -1e6, 1e6);
        let (x, y) = (s(v[0]), s(v[1]));
        assert_eq!(x + y, y + x);
        assert_eq!(x * y, y * x);
        assert_eq!(x.widen().narrow(), x);
    }
}
