//! What the effects keep, mirror and add up to, on given values.
use reiss_mcpherson_effects::audio::AudioBuffer;
use reiss_mcpherson_effects::biquad::FilterTrig;
use reiss_mcpherson_effects::chorus::{voice_phase, weight, Chorus, ChorusParams};
use reiss_mcpherson_effects::compressor;
use reiss_mcpherson_effects::compressor::{curve, smoothed};
use reiss_mcpherson_effects::distortion::{exponent, shape, DistortionType};
use reiss_mcpherson_effects::float::double::Double;
use reiss_mcpherson_effects::float::single::Single;
use reiss_mcpherson_effects::follower::INV_E;
use reiss_mcpherson_effects::modulation::{
    inverse_sawtooth, lfo, linear, sawtooth, Interpolation, Waveform,
};
use reiss_mcpherson_effects::panning::{
    panorama_delays, Method, Panning, PanningDsp, PanningParams, PanningTrig,
};
use reiss_mcpherson_effects::parametric_eq;
use reiss_mcpherson_effects::parametric_eq::{ParametricEq, ParametricEqParams};
use reiss_mcpherson_effects::pingpong::{PingPong, PingPongDsp, PingPongParams};
use reiss_mcpherson_effects::ringmod;
use reiss_mcpherson_effects::vibrato::{Vibrato, VibratoParams};
use reiss_mcpherson_effects::wahwah;
use reiss_mcpherson_effects::wahwah::{followed, Drive, WahWah, WahWahParams};

fn s(x: f32) -> Single {
    Single { bits: x.to_bits() }
}

fn f(x: Single) -> f32 {
    f32::from_bits(x.bits)
}

fn all(xs: &[f32]) -> Vec<Single> {
    xs.iter().map(|x| s(*x)).collect()
}

fn plain(xs: &[Single]) -> Vec<f32> {
    xs.iter().map(|x| f(*x)).collect()
}

fn rate(x: f64) -> Double {
    Double { bits: x.to_bits() }
}

fn w(x: Double) -> f64 {
    f64::from_bits(x.bits)
}

struct Noise(u64);

impl Noise {
    fn next(&mut self) -> f32 {
        self.0 = self.0.wrapping_mul(6364136223846793005).wrapping_add(1442695040888963407);
        ((self.0 >> 40) as f32) / 8388608.0 - 1.0
    }

    fn list(&mut self, n: usize, low: f32, high: f32) -> Vec<f32> {
        (0..n).map(|_| low + (high - low) * (self.next() * 0.5 + 0.5)).collect()
    }
}

fn block(input: &[Vec<f32>]) -> AudioBuffer {
    let samples = input.first().map_or(0, |c| c.len());
    AudioBuffer {
        input: input.iter().map(|c| all(c)).collect(),
        output: input.iter().map(|c| vec![s(0.0); c.len()]).collect(),
        samples,
    }
}

fn sines(angles: &[Single]) -> Vec<Single> {
    angles.iter().map(|a| s(f(*a).sin())).collect()
}

#[test]
fn clippers_are_odd_and_keep_order() {
    let mut xs = Noise(301).list(4000, -1.0, 1.0);
    for edge in [1.0_f32 / 3.0, 2.0 / 3.0, 0.5, 1.0, 7.0] {
        for bits in [edge.to_bits() - 1, edge.to_bits(), edge.to_bits() + 1] {
            xs.push(f32::from_bits(bits));
            xs.push(-f32::from_bits(bits));
        }
    }
    xs.push(0.0);
    xs.sort_by(|a, b| a.partial_cmp(b).unwrap());
    for ty in
        [DistortionType::HardClipping, DistortionType::SoftClipping, DistortionType::Exponential]
    {
        let at = |x: f32| f(shape(s(x), ty, s(f(exponent(s(x))).exp())));
        for x in &xs {
            assert_eq!(at(-*x), -at(*x));
        }
        for pair in xs.windows(2) {
            assert!(at(pair[0]) <= at(pair[1]));
        }
    }
    // At zero the exponential is one and the shape gives zero.
    for zero in [0.0_f32, -0.0] {
        assert_eq!(f(exponent(s(zero))), 0.0);
        assert_eq!(f(shape(s(zero), DistortionType::Exponential, s(1.0))), 0.0);
    }
    for x in &xs {
        let half = |x: f32| shape(s(x), DistortionType::HalfWaveRectifier, s(0.0));
        let full = shape(s(*x), DistortionType::FullWaveRectifier, s(0.0));
        assert_eq!(f(full), f(half(*x) + half(-*x)));
    }
    let soft = |x: f32| f(shape(s(x), DistortionType::SoftClipping, s(0.0)));
    // The knee is met from both sides without a step down.
    let third = 1.0_f32 / 3.0;
    assert_eq!(soft(third), third);
    assert!(soft(f32::from_bits(third.to_bits() + 1)) > third);
}

#[test]
fn sawtooths_add_up_to_one() {
    let mut phases = Noise(314).list(4000, 0.0, 1.0);
    phases.extend([0.0, 0.5, 1.0, f32::from_bits(0x3eff_ffff), f32::from_bits(0x3f7f_ffff)]);
    for phase in phases {
        let sum = f64::from(f(sawtooth(s(phase)))) + f64::from(f(inverse_sawtooth(s(phase))));
        assert!((sum - 1.0).abs() <= 2.0 / 16_777_216.0);
        let shape = |ty| f64::from(f(ringmod::lfo(s(phase), ty, s(0.0))));
        let sum = shape(ringmod::Waveform::Sawtooth) + shape(ringmod::Waveform::InverseSawtooth);
        assert!((sum - 1.0).abs() <= 2.0 / 16_777_216.0);
    }
    assert_eq!(f(sawtooth(s(0.75))), 0.25);
    assert_eq!(f(inverse_sawtooth(s(0.75))), 0.75);
}

#[test]
fn voices_stay_in_range_and_repeat() {
    let shapes = [
        Waveform::Sine,
        Waveform::Triangle,
        Waveform::Sawtooth,
        Waveform::InverseSawtooth,
    ];
    for ty in shapes {
        for x in [-1e-30_f32, -0.3, 0.0, 0.2, 0.99, 1.0, 7.5, -12.125, 3e8] {
            let y = f(lfo(voice_phase(s(x), s(0.25)), ty, s(-0.5)));
            assert!((0.0..=1.0).contains(&y));
        }
        for x in [0.0_f32, 0.125, 0.625] {
            for turns in [-64.0_f32, -1.0, 1.0, 512.0] {
                let here = lfo(voice_phase(s(x), s(0.0)), ty, s(0.5));
                assert_eq!(here, lfo(voice_phase(s(x + turns), s(0.0)), ty, s(0.5)));
            }
        }
    }
    // A whole turn that rounding makes of a phase just below it.
    let end = voice_phase(s(-1e-30), s(0.0));
    assert_eq!(f(end), 1.0);
    assert_eq!(f(lfo(end, Waveform::Triangle, s(0.0))), 0.5);
}

#[test]
fn voice_weights_add_up_to_one() {
    let expected: [(usize, &[f32]); 3] = [
        (3, &[0.0, 1.0]),
        (4, &[0.0, 0.5, 1.0]),
        (5, &[0.0, 1.0 / 3.0, 2.0 / 3.0, 1.0]),
    ];
    for (voices, weights) in expected {
        for (voice, w) in weights.iter().enumerate() {
            let (left, right) = (weight(true, voices, voice, 0), weight(true, voices, voice, 1));
            assert_eq!(f(left), *w);
            assert_eq!(f(left + right), 1.0);
            assert_eq!(f(weight(false, voices, voice, 0)), 1.0);
            assert_eq!(f(weight(false, voices, voice, 1)), 1.0);
        }
    }
}

fn chorus_run(stereo: bool, voices: i64, input: &[f32]) -> Vec<Vec<f32>> {
    let n = input.len();
    let mut effect = Chorus::new();
    effect.reset(rate(8000.0));
    let both = |x: f32| vec![all(&vec![x; n]); 2];
    let params = ChorusParams {
        delay: both(0.01),
        width: both(0.004),
        depth: both(0.8),
        voices,
        rate: both(3.0),
        waveform: Waveform::Triangle,
        interp: Interpolation::Linear,
        stereo,
    };
    let sine: Vec<Vec<Vec<Single>>> = (0..2)
        .map(|ch| effect.lfo_angles(&params, ch, n).iter().map(|v| sines(v)).collect())
        .collect();
    let mut buffer = block(&[input.to_vec(), input.to_vec()]);
    effect.process(&params, &sine, &mut buffer);
    buffer.output.iter().map(|line| plain(line)).collect()
}

#[test]
fn stereo_voices_add_up_to_mono() {
    let input = Noise(302).list(600, -1.0, 1.0);
    for voices in 3..=5 {
        let (stereo, mono) = (chorus_run(true, voices, &input), chorus_run(false, voices, &input));
        assert_eq!(mono[0], mono[1]);
        for i in 0..input.len() {
            let dry = f64::from(input[i]);
            let wet = |x: f32| f64::from(x) - dry;
            let sum = wet(stereo[0][i]) + wet(stereo[1][i]);
            assert!((sum - wet(mono[0][i])).abs() < 2e-6);
        }
        assert_ne!(stereo[0], stereo[1]);
    }
}

#[test]
fn whole_turns_change_no_voice() {
    for x in [0.0_f32, 0.25, 0.625, 0.875] {
        for turns in [-512.0_f32, -3.0, -1.0, 1.0, 2.0, 4096.0] {
            assert_eq!(f(voice_phase(s(x + turns), s(0.0))), x);
            assert_eq!(f(voice_phase(s(turns), s(x))), x);
        }
    }
    for x in [1e9_f32, -1e9, -1e-30, 0.999, -0.001] {
        let r = f(voice_phase(s(x), s(0.25)));
        assert!((0.0..=1.0).contains(&r));
    }
    assert_eq!(f(voice_phase(s(-1e-30), s(0.0))), 1.0);
}

fn vibrato_run(interp: Interpolation, input: &[f32]) -> Vec<f32> {
    let n = input.len();
    let mut effect = Vibrato::new();
    effect.reset(rate(8000.0));
    let params = VibratoParams {
        width: all(&vec![0.003; n]),
        rate: all(&vec![5.0; n]),
        waveform: Waveform::Sine,
        interp,
    };
    let sine = sines(&effect.lfo_angles(&params, n));
    let mut buffer = block(&[input.to_vec()]);
    effect.process(&params, &sine, &mut buffer);
    plain(&buffer.output[0])
}

#[test]
fn vibrato_stays_between_past_samples() {
    let input = Noise(303).list(2000, 0.25, 0.75);
    for interp in [Interpolation::Nearest, Interpolation::Linear] {
        let out = vibrato_run(interp, &input);
        assert_eq!(out[0], 0.0);
        let mut high = 0.0_f32;
        for i in 0..input.len() {
            assert!((0.0..=high).contains(&out[i]));
            high = high.max(input[i]);
        }
        assert!(out[1500] >= 0.25);
        // The current sample is not heard.
        let mut other = input.clone();
        other[900] = 100.0;
        let changed = vibrato_run(interp, &other);
        assert_eq!(out[..=900], changed[..=900]);
        assert_ne!(out[901..], changed[901..]);
    }
}

#[test]
fn long_lines_are_read_between_past_samples() {
    let input = Noise(315).list(200, 0.25, 0.75);
    let mut effect = Vibrato::new();
    effect.reset(rate(2e8));
    assert!(effect.buffer_len > 0x80_0000);
    let params = VibratoParams {
        width: all(&vec![1e-7; 200]),
        rate: all(&vec![1e6; 200]),
        waveform: Waveform::Triangle,
        interp: Interpolation::Linear,
    };
    let sine = sines(&effect.lfo_angles(&params, 200));
    let mut buffer = block(&[input]);
    effect.process(&params, &sine, &mut buffer);
    let out = plain(&buffer.output[0]);
    assert_eq!(out[0], 0.0);
    assert!(out.iter().all(|y| (0.0..=0.75).contains(y)));
}

#[test]
fn interpolation_stays_between_its_samples() {
    let mut noise = Noise(304);
    for _ in 0..20000 {
        let v = noise.list(2, -1.0, 1.0);
        let frac = f32::from_bits(1.0_f32.to_bits() - 1 - (noise.next().to_bits() & 0xff_ffff));
        let r = f(linear(s(v[0]), s(v[1]), s(frac)));
        assert!(v[0].min(v[1]) <= r && r <= v[0].max(v[1]));
    }
    // Below one all the way up.
    let last = f32::from_bits(1.0_f32.to_bits() - 1);
    assert_eq!(f(linear(s(1.0), s(3.0), s(last))), 3.0);
    assert!(f(linear(s(-1.0), s(f32::from_bits(0x3f80_0001)), s(last))) <= 1.0000001);
}

struct Wah {
    mode: wahwah::Mode,
    lfo_rate: f32,
    lfo_env_mix: f32,
    attack: f32,
    release: f32,
    frequency: f32,
}

/// The centre frequencies in radians, and what goes out.
fn wah_run(wah: &Wah, input: &[f32]) -> (Vec<f64>, Vec<f32>) {
    let n = input.len();
    let mut effect = WahWah::new();
    effect.reset(rate(48000.0));
    let flat = |x: f32| all(&vec![x; n]);
    let params = WahWahParams {
        mode: wah.mode,
        mix: flat(0.9),
        frequency: flat(wah.frequency),
        q: flat(5.0),
        gain: flat(12.0),
        filter_type: wahwah::FilterType::ResonantLowPass,
        lfo_rate: flat(wah.lfo_rate),
        lfo_env_mix: flat(wah.lfo_env_mix),
        env_attack: flat(wah.attack),
        env_release: flat(wah.release),
    };
    let base = f32::from_bits(INV_E);
    let drive = Drive {
        sines: sines(&effect.lfo_angles(&params, n)),
        powers: effect
            .coefficient_exponents(&params, n)
            .iter()
            .map(|(a, r)| (s(base.powf(f(*a))), s(base.powf(f(*r)))))
            .collect(),
    };
    let gains: Vec<f64> =
        effect.gain_exponents(&params, n).iter().map(|e| 10f64.powf(w(*e))).collect();
    let mut buffer = block(&[input.to_vec()]);
    let angles = effect.channel_angles(&params, &drive, &buffer, 0);
    let trig: Vec<Vec<FilterTrig>> = vec![angles
        .iter()
        .zip(&gains)
        .map(|(a, gain)| FilterTrig {
            cos_centre: rate(w(a.centre).cos()),
            tan_half_bandwidth: rate(w(a.half_bandwidth).tan()),
            tan_half_centre: rate(w(a.half_centre).tan()),
            gain: rate(*gain),
        })
        .collect()];
    effect.process(&params, &drive, &trig, &mut buffer);
    (angles.iter().map(|a| w(a.centre)).collect(), plain(&buffer.output[0]))
}

#[test]
fn oscillator_alone_ignores_attack_and_release() {
    let input = Noise(305).list(800, -1.0, 1.0);
    let wah = |attack, release, lfo_env_mix| Wah {
        mode: wahwah::Mode::Automatic,
        lfo_rate: 4.0,
        lfo_env_mix,
        attack,
        release,
        frequency: 300.0,
    };
    assert_eq!(wah_run(&wah(0.001, 0.3, 0.0), &input), wah_run(&wah(0.1, 0.01, 0.0), &input));
    assert_ne!(wah_run(&wah(0.001, 0.3, 0.5), &input), wah_run(&wah(0.1, 0.01, 0.5), &input));
}

#[test]
fn envelope_alone_ignores_the_rate() {
    let input = Noise(306).list(800, -1.0, 1.0);
    let wah = |lfo_rate| Wah {
        mode: wahwah::Mode::Automatic,
        lfo_rate,
        lfo_env_mix: 1.0,
        attack: 0.001,
        release: 0.05,
        frequency: 300.0,
    };
    let ((slow, slow_out), (fast, fast_out)) =
        (wah_run(&wah(0.5), &input), wah_run(&wah(5.0), &input));
    for (a, b) in slow_out.iter().zip(&fast_out) {
        assert!((a - b).abs() < 1e-5);
    }
    for (a, b) in slow.iter().zip(&fast) {
        let hertz = 48000.0 / std::f64::consts::TAU;
        assert!((a - b).abs() * hertz <= 0.001);
    }
    assert!(slow[700] * 48000.0 / std::f64::consts::TAU > 300.0);
}

#[test]
fn resting_oscillator_is_manual_at_750() {
    let input = Noise(307).list(800, -1.0, 1.0);
    let resting = Wah {
        mode: wahwah::Mode::Automatic,
        lfo_rate: 0.0,
        lfo_env_mix: 0.0,
        attack: 0.01,
        release: 0.1,
        frequency: 300.0,
    };
    let manual = Wah { mode: wahwah::Mode::Manual, frequency: 750.0, ..resting };
    assert_eq!(wah_run(&resting, &input), wah_run(&manual, &input));
    let elsewhere = Wah { mode: wahwah::Mode::Manual, frequency: 751.0, ..resting };
    assert_ne!(wah_run(&resting, &input).1, wah_run(&elsewhere, &input).1);
}

#[test]
fn envelope_stays_unipolar() {
    let mut noise = Noise(308);
    let mut env = s(0.0);
    for _ in 0..20000 {
        let co = noise.list(2, 0.0, 1.0);
        env = followed(env, s(noise.next()), s(co[0]), s(co[1]));
        assert!((0.0..=1.0).contains(&f(env)));
    }
    for x in [1.0, -1.0] {
        assert_eq!(f(followed(s(1.0), s(x), s(0.9), s(0.7))), 1.0);
    }
    // So it does below any other power of two.
    let mut env = s(0.0);
    for _ in 0..5000 {
        let co = noise.list(2, 0.0, 1.0);
        env = followed(env, s(noise.next() * 64.0), s(co[0]), s(co[1]));
        assert!((0.0..=64.0).contains(&f(env)));
    }
}

#[test]
fn reduction_is_never_negative() {
    let mut noise = Noise(309);
    for mode in [compressor::Mode::Compressor, compressor::Mode::Expander] {
        let mut last = s(0.0);
        for _ in 0..20000 {
            let v = noise.list(4, 0.0, 1.0);
            let (xg, t) = (s(v[0] * 80.0 - 60.0), s(v[1] * -60.0));
            let ratio = s(1.0 + 1.0 / 4_194_304.0 + v[2] * v[2] * 99.0);
            let xl = xg - curve(mode, xg, t, ratio);
            assert!(f(xl) >= 0.0);
            last = smoothed(mode, last, xl, s(v[3]), s(1.0 - v[3]));
            assert!(f(last) >= 0.0);
        }
    }
    // At a ratio of one it is off by no more than rounding.
    for mode in [compressor::Mode::Compressor, compressor::Mode::Expander] {
        for _ in 0..20000 {
            let v = noise.list(2, 0.0, 1.0);
            let (xg, t) = (v[0] * 80.0 - 60.0, v[1] * -60.0);
            let xl = f(s(xg) - curve(mode, s(xg), s(t), s(1.0)));
            assert!(8_388_608.0 * xl >= -8.0 * (xg.abs() + t.abs()));
        }
    }
    // A distance that is rounded up comes back a little too far.
    let (xg, t) = (s(3.0 / 2_097_152.0), s(-24.0));
    let xl = xg - curve(compressor::Mode::Compressor, xg, t, s(1.0));
    assert_eq!(f(xl), -1.0 / 2_097_152.0);
}

fn panned(method: Method, pan: &[f32], input: &[f32]) -> Vec<Vec<f32>> {
    let mut state = PanningDsp::default();
    Panning::reset(&mut state, rate(48000.0));
    let params = PanningParams { method, pan: all(pan) };
    let pair = |(a, b): (f32, f32)| (s(a), s(b));
    let pairs = match method {
        Method::PanoramaPrecedence => Panning::panorama_angles(&params, pan.len())
            .iter()
            .map(|a| pair(f(*a).sin_cos()))
            .collect(),
        Method::ItdIld => Panning::head_angles(&params, pan.len())
            .iter()
            .map(|(l, r)| pair((f(*l).abs().cos(), f(*r).abs().cos())))
            .collect(),
    };
    let trig = PanningTrig { theta: pair(30.0_f32.to_radians().sin_cos()), pairs };
    let mut buffer = block(&[input.to_vec(), vec![0.0; input.len()]]);
    Panning::process(&mut state, &params, &trig, &mut buffer);
    buffer.output.iter().map(|line| plain(line)).collect()
}

#[test]
fn mirrored_positions_exchange_the_sides() {
    let mut noise = Noise(310);
    let input = noise.list(500, -1.0, 1.0);
    for k in 0..=8 {
        let pan = k as f32 / 8.0;
        for method in [Method::PanoramaPrecedence, Method::ItdIld] {
            let there = panned(method, &vec![pan; 500], &input);
            let back = panned(method, &vec![-pan; 500], &input);
            assert_eq!(there[0], back[1]);
            assert_eq!(there[1], back[0]);
        }
    }
    for method in [Method::PanoramaPrecedence, Method::ItdIld] {
        let middle = panned(method, &vec![0.0; 500], &input);
        assert_eq!(middle[0], middle[1]);
    }
    // The head model mirrors every position, the panorama all but for rounding.
    let pan = noise.list(500, -1.0, 1.0);
    let turned: Vec<f32> = pan.iter().map(|p| -p).collect();
    let (there, back) =
        (panned(Method::ItdIld, &pan, &input), panned(Method::ItdIld, &turned, &input));
    assert_eq!((&there[0], &there[1]), (&back[1], &back[0]));
    for p in pan.iter().take(40) {
        let there = panned(Method::PanoramaPrecedence, &vec![*p; 500], &input);
        let back = panned(Method::PanoramaPrecedence, &vec![-*p; 500], &input);
        for i in 0..500 {
            assert!((there[0][i] - back[1][i]).abs() < 1e-3);
            assert!((there[1][i] - back[0][i]).abs() < 1e-3);
        }
    }
    for p in &pan {
        let (l, r) = panorama_delays(48, s(*p));
        let (ml, mr) = panorama_delays(48, s(-*p));
        assert!((f64::from(f(ml)) - f64::from(f(r))).abs() <= 480.0 / 8_388_608.0);
        assert!((f64::from(f(mr)) - f64::from(f(l))).abs() <= 480.0 / 8_388_608.0);
    }
}

fn equalised(ty: parametric_eq::FilterType, input: &[f32]) -> Vec<f32> {
    let mut effect = ParametricEq::new();
    effect.reset(rate(48000.0));
    let params =
        ParametricEqParams { frequency: s(1500.0), q: s(1.4), gain: s(6.0), filter_type: ty };
    let (a, exponent) = effect.arguments(params);
    let trig = FilterTrig {
        cos_centre: rate(w(a.centre).cos()),
        tan_half_bandwidth: rate(w(a.half_bandwidth).tan()),
        tan_half_centre: rate(w(a.half_centre).tan()),
        gain: rate(10f64.powf(w(exponent))),
    };
    let mut buffer = block(&[input.to_vec()]);
    effect.process(params, trig, &mut buffer);
    plain(&buffer.output[0])
}

#[test]
fn complements_add_up_to_the_input() {
    let input = Noise(311).list(3000, -1.0, 1.0);
    let pairs = [
        (parametric_eq::FilterType::LowPass, parametric_eq::FilterType::HighPass),
        (parametric_eq::FilterType::BandPass, parametric_eq::FilterType::BandStop),
    ];
    for (one, other) in pairs {
        let (y, z) = (equalised(one, &input), equalised(other, &input));
        for i in 0..input.len() {
            let sum = f64::from(y[i]) + f64::from(z[i]);
            assert!((sum - f64::from(input[i])).abs() < 2e-7);
        }
        assert!(y.iter().zip(&input).any(|(y, x)| (y - x).abs() > 0.1));
    }
}

fn pingponged(balance: f32, left: &[f32], right: &[f32]) -> Vec<Vec<f32>> {
    let n = left.len();
    let mut state = PingPongDsp::default();
    PingPong::reset(&mut state, rate(8000.0));
    let params = PingPongParams {
        balance: all(&vec![balance; n]),
        delay_time: all(&vec![0.0101; n]),
        feedback: all(&vec![0.7; n]),
        mix: all(&vec![0.5; n]),
    };
    let mut buffer = block(&[left.to_vec(), right.to_vec()]);
    PingPong::process(&mut state, &params, &mut buffer);
    buffer.output.iter().map(|line| plain(line)).collect()
}

#[test]
fn mirrored_balance_exchanges_the_outputs() {
    let mut noise = Noise(312);
    let (left, right) = (noise.list(700, -1.0, 1.0), noise.list(700, -1.0, 1.0));
    for k in 0..=16 {
        let balance = k as f32 / 16.0;
        let there = pingponged(balance, &left, &right);
        let back = pingponged(1.0 - balance, &right, &left);
        assert_eq!(there[0], back[1]);
        assert_eq!(there[1], back[0]);
    }
}

#[test]
fn any_mirrored_balance_nearly_exchanges_the_outputs() {
    let mut noise = Noise(316);
    let (left, right) = (noise.list(700, -1.0, 1.0), noise.list(700, -1.0, 1.0));
    let mut balances = noise.list(12, 0.0, 1.0);
    balances.push(1e-10);
    for balance in balances {
        let there = pingponged(balance, &left, &right);
        let back = pingponged(1.0 - balance, &right, &left);
        for i in 0..700 {
            let near = (40.0 * i as f32 + 53.0) / 8_388_608.0;
            assert!((there[0][i] - back[1][i]).abs() <= near);
            assert!((there[1][i] - back[0][i]).abs() <= near);
        }
    }
}

#[test]
fn balance_keeps_one_input_out() {
    let mut noise = Noise(313);
    let (left, right) = (noise.list(700, -1.0, 1.0), noise.list(700, -1.0, 1.0));
    let silent = vec![0.0; 700];
    assert_eq!(pingponged(0.0, &left, &right), pingponged(0.0, &left, &silent));
    assert_eq!(pingponged(1.0, &left, &right), pingponged(1.0, &silent, &right));
    assert_ne!(pingponged(0.5, &left, &right), pingponged(0.5, &left, &silent));
}
