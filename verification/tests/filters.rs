//! The filters against floating-point code, sample for sample.
use reiss_mcpherson_effects::audio::AudioBuffer;
use reiss_mcpherson_effects::biquad::{
    filter_angles, gain_exponent, FilterAngles, FilterTrig, GREATEST_ANGLE, LEAST_ANGLE, TWENTIETH,
    WIDE_MINUS_ONE, WIDE_MINUS_TWO, WIDE_ONE, WIDE_TAU, WIDE_TWO,
};
use reiss_mcpherson_effects::float::double::Double;
use reiss_mcpherson_effects::float::single::Single;
use reiss_mcpherson_effects::follower::{attack_release_coeff, INV_E};
use reiss_mcpherson_effects::parametric_eq::{
    FilterType, ParametricEq, ParametricEqParams, DEFAULT_RATE, LEAST_CHANGE,
};
use reiss_mcpherson_effects::phaser;
use reiss_mcpherson_effects::phaser::{Allpass, NumFilters, Phaser, PhaserDsp, PhaserParams};
use reiss_mcpherson_effects::wahwah;
use reiss_mcpherson_effects::wahwah::{swept, Drive, Mode, WahWah, WahWahParams};

fn s(x: f32) -> Single {
    Single { bits: x.to_bits() }
}

fn f(x: Single) -> f32 {
    f32::from_bits(x.bits)
}

fn all(xs: &[f32]) -> Vec<Single> {
    xs.iter().map(|x| s(*x)).collect()
}

fn rate(x: f64) -> Double {
    Double { bits: x.to_bits() }
}

struct Noise(u64);

impl Noise {
    fn next(&mut self) -> f32 {
        self.0 = self.0.wrapping_mul(6364136223846793005).wrapping_add(1442695040888963407);
        ((self.0 >> 40) as f32) / 8388608.0 - 1.0
    }

    fn list(&mut self, n: usize, low: f32, high: f32) -> Vec<f32> {
        (0..n).map(|_| low + (high - low) * (self.next() * 0.5 + 0.5)).collect()
    }
}

fn block(input: &[Vec<f32>]) -> AudioBuffer {
    let samples = input.first().map_or(0, |c| c.len());
    AudioBuffer {
        input: input.iter().map(|c| all(c)).collect(),
        output: input.iter().map(|c| vec![s(0.0); c.len()]).collect(),
        samples,
    }
}

fn d(x: f64) -> Double {
    Double { bits: x.to_bits() }
}

fn w(x: Double) -> f64 {
    f64::from_bits(x.bits)
}

fn trig_of(a: FilterAngles, gain: f64) -> FilterTrig {
    FilterTrig {
        cos_centre: d(w(a.centre).cos()),
        tan_half_bandwidth: d(w(a.half_bandwidth).tan()),
        tan_half_centre: d(w(a.half_centre).tan()),
        gain: d(gain),
    }
}

#[test]
fn filter_constants() {
    assert_eq!(WIDE_ONE, 1.0_f64.to_bits());
    assert_eq!(WIDE_TWO, 2.0_f64.to_bits());
    assert_eq!(WIDE_MINUS_ONE, (-1.0_f64).to_bits());
    assert_eq!(WIDE_MINUS_TWO, (-2.0_f64).to_bits());
    assert_eq!(WIDE_TAU, (2.0 * std::f64::consts::PI).to_bits());
    assert_eq!(LEAST_ANGLE, 1e-6_f64.to_bits());
    assert_eq!(LEAST_CHANGE, 1e-6_f64.to_bits());
    assert_eq!(GREATEST_ANGLE, (std::f64::consts::PI * 0.99).to_bits());
    assert_eq!(TWENTIETH, 0.05_f64.to_bits());
    assert_eq!(DEFAULT_RATE, 44_100.0_f64.to_bits());
    assert_eq!(INV_E, 0.367_879_45_f32.to_bits());
    assert_eq!(wahwah::MIN_HZ, 200.0_f32.to_bits());
    assert_eq!(wahwah::MAX_HZ, 1300.0_f32.to_bits());
    assert_eq!(wahwah::SPAN_HZ, (1300.0_f32 - 200.0).to_bits());
    assert_eq!(wahwah::DEFAULT_STEP, (1.0_f32 / 44_100.0).to_bits());
    assert_eq!(phaser::GREATEST_ANGLE, (std::f32::consts::PI * 0.99).to_bits());
    assert_eq!(phaser::DEFAULT_STEP, (1.0_f32 / 44_100.0).to_bits());
    assert_eq!(phaser::DEFAULT_RATE, 44_100.0_f32.to_bits());
}

#[test]
fn angles_are_held_in_range() {
    let low = filter_angles(d(0.0), d(1.0), d(48000.0));
    assert_eq!(w(low.centre), 1e-6);
    let high = filter_angles(d(1e9), d(0.01), d(48000.0));
    assert_eq!(w(high.centre), std::f64::consts::PI * 0.99);
    assert_eq!(w(high.half_bandwidth), std::f64::consts::PI * 0.99 / 2.0);
    let mid = filter_angles(d(1000.0), d(2.0), d(48000.0));
    let wc = 2.0 * std::f64::consts::PI * 1000.0 / 48000.0;
    assert_eq!(w(mid.centre), wc);
    assert_eq!(w(mid.half_bandwidth), wc / 2.0 / 2.0);
    assert_eq!(w(mid.half_centre), wc / 2.0);
    assert_eq!(w(gain_exponent(d(20.0))), 20.0 * 0.05);
}

#[derive(Clone, Default)]
struct RefBiquad {
    b: [f64; 3],
    a: [f64; 2],
    x: [f64; 2],
    y: [f64; 2],
}

impl RefBiquad {
    fn set(&mut self, b0: f64, b1: f64, b2: f64, a0: f64, a1: f64, a2: f64) {
        let inv = 1.0 / a0;
        self.b = [b0 * inv, b1 * inv, b2 * inv];
        self.a = [a1 * inv, a2 * inv];
    }

    fn step(&mut self, x: f64) -> f64 {
        let y = self.b[0] * x + self.b[1] * self.x[0] + self.b[2] * self.x[1]
            - self.a[0] * self.y[0]
            - self.a[1] * self.y[1];
        self.x = [x, self.x[0]];
        self.y = [y, self.y[0]];
        y
    }
}

fn ref_eq(filter: &mut RefBiquad, freq: f64, q: f64, g: f64, ty: FilterType, sr: f64) {
    let wc = (2.0 * std::f64::consts::PI * freq / sr).clamp(1e-6, std::f64::consts::PI * 0.99);
    let bw = (wc / q).min(std::f64::consts::PI * 0.99);
    let two_cos = -2.0 * wc.cos();
    let tb = (bw / 2.0).tan();
    let tw = (wc / 2.0).tan();
    let root = g.sqrt();
    match ty {
        FilterType::LowPass => filter.set(tw, tw, 0.0, tw + 1.0, tw - 1.0, 0.0),
        FilterType::HighPass => filter.set(1.0, -1.0, 0.0, tw + 1.0, tw - 1.0, 0.0),
        FilterType::LowShelf => {
            filter.set(g * tw + root, g * tw - root, 0.0, tw + root, tw - root, 0.0)
        }
        FilterType::HighShelf => filter.set(
            root * tw + g,
            root * tw - g,
            0.0,
            root * tw + 1.0,
            root * tw - 1.0,
            0.0,
        ),
        FilterType::BandPass => filter.set(tb, 0.0, -tb, 1.0 + tb, two_cos, 1.0 - tb),
        FilterType::BandStop => filter.set(1.0, two_cos, 1.0, 1.0 + tb, two_cos, 1.0 - tb),
        FilterType::Peaking => filter.set(
            root + g * tb,
            root * two_cos,
            root - g * tb,
            root + tb,
            root * two_cos,
            root - tb,
        ),
    }
}

const TYPES: [FilterType; 7] = [
    FilterType::LowPass,
    FilterType::HighPass,
    FilterType::LowShelf,
    FilterType::HighShelf,
    FilterType::BandPass,
    FilterType::BandStop,
    FilterType::Peaking,
];

fn eq_block(eq: &mut ParametricEq, params: ParametricEqParams, buffer: &mut AudioBuffer) {
    let (angles, exponent) = eq.arguments(params);
    let trig = trig_of(angles, 10f64.powf(w(exponent)));
    eq.process(params, trig, buffer);
}

#[test]
fn parametric_eq_matches() {
    let mut noise = Noise(41);
    for (k, ty) in TYPES.iter().enumerate() {
        let n = 300;
        let inputs: Vec<Vec<f32>> = (0..2).map(|_| noise.list(n, -1.0, 1.0)).collect();
        let mut eq = ParametricEq::new();
        eq.reset(d(48000.0));
        let (freq, q, gain) = (300.0 + 700.0 * k as f32, 0.5 + k as f32, -9.0 + 3.0 * k as f32);
        let params = ParametricEqParams {
            frequency: s(freq),
            q: s(q),
            gain: s(gain),
            filter_type: *ty,
        };
        assert!(eq.changed(params));
        let mut buffer = block(&inputs);
        eq_block(&mut eq, params, &mut buffer);
        assert!(!eq.changed(params));
        assert_eq!(eq.last_type, k as i32);
        for ch in 0..2 {
            let mut filter = RefBiquad::default();
            let g = 10f64.powf(f64::from(gain) * 0.05);
            ref_eq(&mut filter, f64::from(freq), f64::from(q), g, *ty, 48000.0);
            for i in 0..n {
                let want = filter.step(f64::from(inputs[ch][i])) as f32;
                assert_eq!(f(buffer.output[ch][i]).to_bits(), want.to_bits());
            }
        }
    }
}

#[test]
fn parametric_eq_follows_changes_only() {
    let mut eq = ParametricEq::new();
    eq.reset(d(48000.0));
    let mut params = ParametricEqParams {
        frequency: s(1000.0),
        q: s(1.0),
        gain: s(6.0),
        filter_type: FilterType::Peaking,
    };
    let mut buffer = block(&[vec![1.0, 0.0], vec![0.0, 1.0]]);
    eq_block(&mut eq, params, &mut buffer);
    assert_eq!(w(eq.last_freq), 1000.0);
    params.gain = s(6.5);
    assert!(eq.changed(params));
    params.gain = s(6.0);
    params.filter_type = FilterType::BandStop;
    assert!(eq.changed(params));
    params.filter_type = FilterType::Peaking;
    assert!(!eq.changed(params));
    // After a reset the coefficients are set anew, though no control has moved.
    eq.reset(d(44100.0));
    assert!(w(eq.last_freq).is_nan());
    assert!(eq.changed(params));
    eq_block(&mut eq, params, &mut buffer);
    assert!(!eq.changed(params));
    params.frequency = s(5000.0);
    assert!(eq.changed(params));
}

#[test]
fn reset_to_another_rate_is_a_fresh_equaliser() {
    let mut noise = Noise(42);
    for ty in TYPES {
        let mut params = ParametricEqParams {
            frequency: s(1000.0),
            q: s(1.0),
            gain: s(6.0),
            filter_type: ty,
        };
        let mut used = ParametricEq::new();
        used.reset(d(44100.0));
        eq_block(&mut used, params, &mut block(&[noise.list(50, -1.0, 1.0)]));
        used.reset(d(96000.0));
        let mut fresh = ParametricEq::new();
        fresh.reset(d(96000.0));
        for _ in 0..2 {
            let input = noise.list(100, -1.0, 1.0);
            let mut a = block(&[input.clone(), input.clone()]);
            let mut b = block(&[input.clone(), input]);
            eq_block(&mut used, params, &mut a);
            eq_block(&mut fresh, params, &mut b);
            assert_eq!(a.output, b.output);
            params.frequency = s(3000.0);
        }
        assert_eq!(w(used.last_freq), 3000.0);
    }
}

#[test]
fn eq_at_zero_decibels_is_flat() {
    let mut noise = Noise(43);
    let trig = trig_of(filter_angles(d(777.0), d(0.9), d(48000.0)), 1.0);
    for ty in [FilterType::LowShelf, FilterType::HighShelf, FilterType::Peaking] {
        let shape = reiss_mcpherson_effects::parametric_eq::shape(ty, trig);
        assert_eq!(shape.b0, shape.a0);
        assert_eq!(shape.b1, shape.a1);
        assert_eq!(shape.b2, shape.a2);
    }
    let input = noise.list(200, -1.0, 1.0);
    let mut eq = ParametricEq::new();
    eq.reset(d(48000.0));
    let params = ParametricEqParams {
        frequency: s(777.0),
        q: s(0.9),
        gain: s(0.0),
        filter_type: FilterType::Peaking,
    };
    let mut buffer = block(&[input.clone()]);
    eq_block(&mut eq, params, &mut buffer);
    for i in 0..200 {
        assert!((f(buffer.output[0][i]) - input[i]).abs() < 1e-6);
    }
}

fn coefficient(value: f32, inv_sr: f32) -> f32 {
    if value <= 0.0 {
        0.0
    } else {
        0.367_879_45_f32.powf(inv_sr / value)
    }
}

#[test]
fn no_time_means_no_memory() {
    assert_eq!(f(attack_release_coeff(s(0.0), s(0.7))), 0.0);
    assert_eq!(f(attack_release_coeff(s(-1.0), s(0.7))), 0.0);
    assert_eq!(f(attack_release_coeff(s(0.1), s(0.7))), 0.7);
}

#[test]
fn wahwah_matches() {
    let mut noise = Noise(47);
    let sr = 48000.0_f64;
    let types = [
        wahwah::FilterType::ResonantLowPass,
        wahwah::FilterType::BandPass,
        wahwah::FilterType::Peaking,
    ];
    for mode in [Mode::Manual, Mode::Automatic] {
        for ty in types {
            let n = 250;
            let inputs: Vec<Vec<f32>> = (0..2).map(|_| noise.list(n, -1.0, 1.0)).collect();
            let mix = noise.list(n, 0.0, 1.0);
            let freq = noise.list(n, 200.0, 1300.0);
            let q = noise.list(n, 0.1, 20.0);
            let gain = noise.list(n, 0.0, 20.0);
            let lfo_rate = noise.list(n, 0.0, 5.0);
            let lfo_env = noise.list(n, 0.0, 1.0);
            let mut attack = noise.list(n, 0.0001, 0.1);
            attack[5] = 0.0;
            let release = noise.list(n, 0.01, 1.0);
            let params = WahWahParams {
                mode,
                mix: all(&mix),
                frequency: all(&freq),
                q: all(&q),
                gain: all(&gain),
                filter_type: ty,
                lfo_rate: all(&lfo_rate),
                lfo_env_mix: all(&lfo_env),
                env_attack: all(&attack),
                env_release: all(&release),
            };
            let mut wah = WahWah::new();
            wah.reset(d(sr));
            let drive = Drive {
                sines: wah.lfo_angles(&params, n).iter().map(|a| s(f(*a).sin())).collect(),
                powers: wah
                    .coefficient_exponents(&params, n)
                    .iter()
                    .map(|(a, r)| {
                        let base = f32::from_bits(INV_E);
                        (s(base.powf(f(*a))), s(base.powf(f(*r))))
                    })
                    .collect(),
            };
            let gains: Vec<f64> =
                wah.gain_exponents(&params, n).iter().map(|e| 10f64.powf(w(*e))).collect();
            let mut buffer = block(&inputs);
            let trig: Vec<Vec<FilterTrig>> = (0..2)
                .map(|ch| {
                    wah.channel_angles(&params, &drive, &buffer, ch)
                        .iter()
                        .zip(&gains)
                        .map(|(a, g)| trig_of(*a, *g))
                        .collect()
                })
                .collect();
            wah.process(&params, &drive, &trig, &mut buffer);

            let inv_sr = 1.0 / sr as f32;
            let automatic = mode == Mode::Automatic;
            let mut end_phase = 0.0;
            for ch in 0..2 {
                let mut env = 0.0_f32;
                let mut phase = 0.0_f32;
                let mut filter = RefBiquad::default();
                for i in 0..n {
                    let mut norm = 0.0;
                    if automatic {
                        norm = 0.5 + 0.5 * (std::f32::consts::TAU * phase).sin();
                        phase += lfo_rate[i] * inv_sr;
                        if phase >= 1.0 {
                            phase -= 1.0;
                        }
                    }
                    let x = inputs[ch][i];
                    let a = coefficient(attack[i], inv_sr);
                    let r = coefficient(release[i], inv_sr);
                    env = if x.abs() > env {
                        a * env + (1.0 - a) * x.abs()
                    } else {
                        r * env + (1.0 - r) * x.abs()
                    };
                    let hz = if automatic {
                        let mixed = norm + lfo_env[i] * (env.clamp(0.0, 1.0) - norm);
                        200.0 + mixed * (1300.0 - 200.0)
                    } else {
                        freq[i]
                    };
                    let g = 10f64.powf(f64::from(gain[i]) * 0.05);
                    let wc = (2.0 * std::f64::consts::PI * f64::from(hz) / sr)
                        .clamp(1e-6, std::f64::consts::PI * 0.99);
                    let bw = (wc / f64::from(q[i])).min(std::f64::consts::PI * 0.99);
                    let two_cos = -2.0 * wc.cos();
                    let tb = (bw / 2.0).tan();
                    let tw = (wc / 2.0).tan();
                    let tw2 = tw * tw;
                    let root = g.sqrt();
                    match ty {
                        wahwah::FilterType::ResonantLowPass => filter.set(
                            tw2,
                            2.0 * tw2,
                            tw2,
                            tw2 + tw / g + 1.0,
                            2.0 * tw2 - 2.0,
                            tw2 - tw / g + 1.0,
                        ),
                        wahwah::FilterType::BandPass => {
                            filter.set(tb, 0.0, -tb, 1.0 + tb, two_cos, 1.0 - tb)
                        }
                        wahwah::FilterType::Peaking => filter.set(
                            root + g * tb,
                            root * two_cos,
                            root - g * tb,
                            root + tb,
                            root * two_cos,
                            root - tb,
                        ),
                    }
                    let wet = filter.step(f64::from(x)) as f32;
                    let want = x + mix[i] * (wet - x);
                    assert_eq!(f(buffer.output[ch][i]).to_bits(), want.to_bits());
                }
                assert_eq!(f(wah.envelopes[ch]), env);
                end_phase = phase;
            }
            assert_eq!(f(wah.lfo_phase), end_phase);
        }
    }
}

#[test]
fn sweep_stays_between_lowest_and_highest() {
    let mut noise = Noise(53);
    assert_eq!(f(swept(s(0.0), s(0.0), s(0.5))), 200.0);
    assert_eq!(f(swept(s(1.0), s(1.0), s(0.5))), 1300.0);
    assert_eq!(f(swept(s(7.0), s(0.0), s(1.0))), 1300.0);
    for _ in 0..5000 {
        let v = noise.list(3, 0.0, 1.0);
        let hz = f(swept(s(v[0] * 2.0), s(v[1]), s(v[2])));
        assert!((200.0..=1300.0).contains(&hz));
    }
}

fn ref_phaser_lfo(phase: f32, waveform: phaser::Waveform) -> f32 {
    match waveform {
        phaser::Waveform::Sine => 0.5 + 0.5 * (std::f32::consts::TAU * phase).sin(),
        phaser::Waveform::Triangle => {
            if phase < 0.25 {
                0.5 + 2.0 * phase
            } else if phase < 0.75 {
                1.0 - 2.0 * (phase - 0.25)
            } else {
                2.0 * (phase - 0.75)
            }
        }
        phaser::Waveform::Square => {
            if phase < 0.5 {
                1.0
            } else {
                0.0
            }
        }
        phaser::Waveform::Sawtooth => {
            if phase < 0.5 {
                0.5 + phase
            } else {
                phase - 0.5
            }
        }
    }
}

#[test]
fn phaser_matches() {
    let mut noise = Noise(59);
    let sr = 48000.0_f32;
    let stages =
        [NumFilters::Two, NumFilters::Four, NumFilters::Six, NumFilters::Eight, NumFilters::Ten];
    let waves = [
        phaser::Waveform::Sine,
        phaser::Waveform::Triangle,
        phaser::Waveform::Square,
        phaser::Waveform::Sawtooth,
    ];
    for (round, wave) in waves.iter().enumerate() {
        for stage in stages {
            let n = 300;
            let inputs: Vec<Vec<f32>> = (0..2).map(|_| noise.list(n, -1.0, 1.0)).collect();
            let depth = noise.list(n, 0.0, 1.0);
            let feedback = noise.list(n, 0.0, 0.9);
            let mut min_freq = noise.list(n, 50.0, 1000.0);
            min_freq[64] = f32::NAN;
            let sweep_width = noise.list(n, 50.0, 3000.0);
            let lfo_rate = noise.list(n, 0.0, 2.0);
            let stereo = round % 2 == 0;
            let params = PhaserParams {
                depth: all(&depth),
                feedback: all(&feedback),
                stages: stage,
                min_freq: all(&min_freq),
                sweep_width: all(&sweep_width),
                lfo_rate: all(&lfo_rate),
                waveform: *wave,
                stereo,
            };
            let mut state = PhaserDsp::default();
            Phaser::reset(&mut state, d(48000.0));
            state.sample_counter = u32::MAX - 40;
            let mut sines = Vec::new();
            let mut tans = Vec::new();
            for ch in 0..2 {
                let sine: Vec<Single> = Phaser::lfo_angles(&state, &params, ch, n)
                    .iter()
                    .map(|a| s(f(*a).sin()))
                    .collect();
                let angles = Phaser::filter_angles(&state, &params, ch, &sine, n);
                tans.push(
                    angles
                        .iter()
                        .map(|a| a.map_or(s(0.0), |a| s(f(a).tan())))
                        .collect::<Vec<Single>>(),
                );
                sines.push(sine);
            }
            let mut buffer = block(&inputs);
            Phaser::process(&mut state, &params, &sines, &tans, &mut buffer);

            let inv_sr = 1.0 / sr;
            let count = stage.count();
            for ch in 0..2 {
                let mut filters = vec![[0.0_f32; 5]; 10];
                let mut fb = 0.0_f32;
                let mut phase = 0.0_f32;
                let mut counter = u32::MAX - 40;
                for i in 0..n {
                    if counter % 32 == 0 {
                        let ph = if stereo && ch != 0 {
                            (phase + 0.25).rem_euclid(1.0)
                        } else {
                            phase
                        };
                        let centre = min_freq[i] + sweep_width[i] * ref_phaser_lfo(ph, *wave);
                        let discrete = std::f32::consts::TAU * centre * inv_sr;
                        if !discrete.is_nan() {
                            let wc = discrete.min(std::f32::consts::PI * 0.99);
                            let t = (wc * 0.5).tan();
                            let inv = 1.0 / (t + 1.0);
                            for filter in filters.iter_mut().take(count) {
                                filter[0] = (t - 1.0) * inv;
                                filter[1] = 1.0;
                                filter[2] = (t - 1.0) * inv;
                            }
                        }
                    }
                    counter = counter.wrapping_add(1);
                    phase += lfo_rate[i] * inv_sr;
                    if phase >= 1.0 {
                        phase -= 1.0;
                    }
                    let x = inputs[ch][i];
                    let mut v = x + feedback[i] * fb;
                    for filter in filters.iter_mut().take(count) {
                        let y = filter[0] * v + filter[1] * filter[3] - filter[2] * filter[4];
                        filter[3] = v;
                        filter[4] = y;
                        v = y;
                    }
                    fb = v;
                    let want = x + depth[i] * (v - x) * 0.5;
                    assert_eq!(f(buffer.output[ch][i]).to_bits(), want.to_bits());
                }
                assert_eq!(f(state.feedback_state[ch]), fb);
                assert_eq!(state.sample_counter, counter);
            }
        }
    }
}

#[test]
fn stages_count() {
    let counts: Vec<usize> =
        [NumFilters::Two, NumFilters::Four, NumFilters::Six, NumFilters::Eight, NumFilters::Ten]
            .iter()
            .map(|x| x.count())
            .collect();
    assert_eq!(counts, vec![2, 4, 6, 8, 10]);
}

#[test]
fn retuning_comes_every_32_samples() {
    let n = 200;
    let params = PhaserParams {
        depth: vec![s(1.0); n],
        feedback: vec![s(0.0); n],
        stages: NumFilters::Four,
        min_freq: vec![s(80.0); n],
        sweep_width: vec![s(1000.0); n],
        lfo_rate: vec![s(0.05); n],
        waveform: phaser::Waveform::Triangle,
        stereo: false,
    };
    let state = PhaserDsp::default();
    let angles = Phaser::filter_angles(&state, &params, 0, &vec![s(0.0); n], n);
    for i in 0..n {
        assert_eq!(angles[i].is_some(), i % 32 == 0);
    }
}

#[test]
fn allpass_at_given_values() {
    let mut filter = Allpass::default();
    filter.update(s(1.0));
    assert_eq!(f(filter.b0), 0.0);
    assert_eq!(f(filter.b1), 1.0);
    assert_eq!(f(filter.process(s(0.5))), 0.0);
    assert_eq!(f(filter.process(s(0.25))), 0.5);
    filter.update(s(3.0));
    assert_eq!(f(filter.b0), 0.5);
    assert_eq!(f(filter.a1), 0.5);
}
