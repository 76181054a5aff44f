//! The modulated delays against plain floating-point code, sample for sample.
use reiss_mcpherson_effects::audio::AudioBuffer;
use reiss_mcpherson_effects::chorus::{Chorus, ChorusParams};
use reiss_mcpherson_effects::flanger::{Flanger, FlangerParams};
use reiss_mcpherson_effects::float::double::Double;
use reiss_mcpherson_effects::float::single::Single;
use reiss_mcpherson_effects::modulation::{
    lfo, stereo_phase, turned, Interpolation, Waveform, FIVE_HALVES, HALF, MINUS_HALF, ONE,
    QUARTER, TAU, THREE_HALVES, THREE_QUARTERS, TWO,
};
use reiss_mcpherson_effects::vibrato::{Vibrato, VibratoParams};

fn s(x: f32) -> Single {
    Single { bits: x.to_bits() }
}

fn f(x: Single) -> f32 {
    f32::from_bits(x.bits)
}

fn all(xs: &[f32]) -> Vec<Single> {
    xs.iter().map(|x| s(*x)).collect()
}

fn sines(angles: &[Single]) -> Vec<Single> {
    angles.iter().map(|a| s(f(*a).sin())).collect()
}

struct Noise(u64);

impl Noise {
    fn next(&mut self) -> f32 {
        self.0 = self.0.wrapping_mul(6364136223846793005).wrapping_add(1442695040888963407);
        ((self.0 >> 40) as f32) / 8388608.0 - 1.0
    }

    fn list(&mut self, n: usize, low: f32, high: f32) -> Vec<f32> {
        (0..n).map(|_| low + (high - low) * (self.next() * 0.5 + 0.5)).collect()
    }
}

fn block(input: &[Vec<f32>]) -> AudioBuffer {
    let samples = input.first().map_or(0, |c| c.len());
    AudioBuffer {
        input: input.iter().map(|c| all(c)).collect(),
        output: input.iter().map(|c| vec![s(0.0); c.len()]).collect(),
        samples,
    }
}

fn ref_lfo(phase: f32, waveform: Waveform) -> f32 {
    match waveform {
        Waveform::Sine => 0.5 + 0.5 * (std::f32::consts::TAU * phase).sin(),
        Waveform::Triangle => {
            if phase < 0.25 {
                0.5 + 2.0 * phase
            } else if phase < 0.75 {
                1.0 - 2.0 * (phase - 0.25)
            } else {
                2.0 * (phase - 0.75)
            }
        }
        Waveform::Sawtooth => {
            if phase < 0.5 {
                0.5 + phase
            } else {
                phase - 0.5
            }
        }
        Waveform::InverseSawtooth => {
            if phase < 0.5 {
                0.5 - phase
            } else {
                1.5 - phase
            }
        }
    }
}

fn ref_read(line: &[f32], pos: f32, interp: Interpolation) -> f32 {
    let len = line.len();
    let r0 = pos.floor() as usize % len;
    let frac = pos - pos.floor();
    match interp {
        Interpolation::Nearest => line[r0],
        Interpolation::Linear => {
            let s0 = line[r0];
            let s1 = line[(r0 + 1) % len];
            s0 + frac * (s1 - s0)
        }
        Interpolation::Cubic => {
            let f2 = frac * frac;
            let f3 = f2 * frac;
            let s0 = line[(r0 + len - 1) % len];
            let s1 = line[r0];
            let s2 = line[(r0 + 1) % len];
            let s3 = line[(r0 + 2) % len];
            let a0 = -0.5 * s0 + 1.5 * s1 - 1.5 * s2 + 0.5 * s3;
            let a1 = s0 - 2.5 * s1 + 2.0 * s2 - 0.5 * s3;
            let a2 = -0.5 * s0 + 0.5 * s2;
            a0 * f3 + a1 * f2 + a2 * frac + s1
        }
    }
}

const WAVES: [Waveform; 4] =
    [Waveform::Sine, Waveform::Triangle, Waveform::Sawtooth, Waveform::InverseSawtooth];

const INTERPS: [Interpolation; 3] =
    [Interpolation::Nearest, Interpolation::Linear, Interpolation::Cubic];

#[test]
fn named_numbers() {
    let pairs = [
        (QUARTER, 0.25),
        (HALF, 0.5),
        (THREE_QUARTERS, 0.75),
        (ONE, 1.0),
        (THREE_HALVES, 1.5),
        (TWO, 2.0),
        (FIVE_HALVES, 2.5),
        (MINUS_HALF, -0.5),
        (TAU, std::f32::consts::TAU),
    ];
    for (bits, value) in pairs {
        assert_eq!(bits, f32::to_bits(value));
    }
}

#[test]
fn oscillator_shapes_match() {
    for k in 0..2000 {
        let phase = k as f32 / 2000.0;
        let sine = (std::f32::consts::TAU * phase).sin();
        for w in WAVES {
            let got = f(lfo(s(phase), w, s(sine)));
            assert_eq!(got.to_bits(), ref_lfo(phase, w).to_bits());
            assert!((0.0..=1.0).contains(&got));
        }
    }
}

#[test]
fn oscillator_values_at_given_phases() {
    assert_eq!(f(lfo(s(0.125), Waveform::Triangle, s(0.0))), 0.75);
    assert_eq!(f(lfo(s(0.5), Waveform::Triangle, s(0.0))), 0.5);
    assert_eq!(f(lfo(s(0.875), Waveform::Triangle, s(0.0))), 0.25);
    assert_eq!(f(lfo(s(0.25), Waveform::Sawtooth, s(0.0))), 0.75);
    assert_eq!(f(lfo(s(0.75), Waveform::Sawtooth, s(0.0))), 0.25);
    assert_eq!(f(lfo(s(0.25), Waveform::InverseSawtooth, s(0.0))), 0.25);
    assert_eq!(f(lfo(s(0.75), Waveform::InverseSawtooth, s(0.0))), 0.75);
    assert_eq!(f(lfo(s(0.25), Waveform::Sine, s(1.0))), 1.0);
}

#[test]
fn phase_wraps_after_a_turn() {
    assert_eq!(f(turned(s(0.75), s(0.5))), 0.25);
    assert_eq!(f(turned(s(0.5), s(0.25))), 0.75);
    let mut phase = s(0.0);
    for _ in 0..10000 {
        phase = turned(phase, s(0.013));
        assert!(f(phase) >= 0.0 && f(phase) < 1.0);
    }
}

#[test]
fn second_channel_is_a_quarter_turn_ahead() {
    assert_eq!(f(stereo_phase(s(0.5), true, 1)), 0.75);
    assert_eq!(f(stereo_phase(s(0.875), true, 1)), 0.125);
    assert_eq!(f(stereo_phase(s(0.875), true, 0)), 0.875);
    assert_eq!(f(stereo_phase(s(0.875), false, 1)), 0.875);
}

#[test]
fn flanger_matches() {
    let mut noise = Noise(7);
    let sr = 8000.0_f32;
    for (round, wave) in WAVES.iter().enumerate() {
        for interp in INTERPS {
            let n = 700;
            let inputs: Vec<Vec<f32>> = (0..2).map(|_| noise.list(n, -1.0, 1.0)).collect();
            let delay = noise.list(n, 0.001, 0.02);
            let width = noise.list(n, 0.001, 0.02);
            let depth = noise.list(n, 0.0, 1.0);
            let feedback = noise.list(n, 0.0, 0.5);
            let rate = noise.list(n, 0.05, 2.0);
            let inverted = round % 2 == 1;
            let stereo = round >= 2;

            let mut flanger = Flanger::new();
            flanger.reset(Double { bits: (sr as f64).to_bits() });
            let params = FlangerParams {
                delay: all(&delay),
                width: all(&width),
                depth: all(&depth),
                feedback: all(&feedback),
                inverted,
                rate: all(&rate),
                waveform: *wave,
                interp,
                stereo,
            };
            let waves: Vec<Vec<Single>> =
                (0..2).map(|ch| sines(&flanger.lfo_angles(&params, ch, n))).collect();
            let mut buffer = block(&inputs);
            flanger.process(&params, &waves, &mut buffer);

            let len = ((0.04_f32 * sr) as usize + 1).max(4);
            assert_eq!(flanger.buffer_len, len);
            let len_f = len as f32;
            let sign = if inverted { -1.0 } else { 1.0 };
            let mut end_phase = 0.0_f32;
            let mut end_write = 0;
            for ch in 0..2 {
                let mut line = vec![0.0_f32; len];
                let mut write = 0usize;
                let mut phase = 0.0_f32;
                for i in 0..n {
                    let ph =
                        if stereo && ch != 0 { (phase + 0.25).rem_euclid(1.0) } else { phase };
                    let samples = (delay[i] + width[i] * ref_lfo(ph, *wave)) * sr;
                    let pos = (write as f32 - samples + len_f).rem_euclid(len_f);
                    let delayed = ref_read(&line, pos, interp);
                    let want = inputs[ch][i] + delayed * depth[i] * sign;
                    assert_eq!(f(buffer.output[ch][i]).to_bits(), want.to_bits());
                    line[write] = inputs[ch][i] + delayed * feedback[i];
                    write = (write + 1) % len;
                    phase += rate[i] / sr;
                    if phase >= 1.0 {
                        phase -= 1.0;
                    }
                }
                for (got, want) in flanger.buffer[ch].iter().zip(&line) {
                    assert_eq!(got.bits, want.to_bits());
                }
                end_phase = phase;
                end_write = write;
            }
            assert_eq!(flanger.write_pos, end_write);
            assert_eq!(f(flanger.lfo_phase), end_phase);
        }
    }
}

#[test]
fn flanger_in_two_blocks_is_flanger_in_one() {
    let mut noise = Noise(99);
    let n = 600;
    let cut = 217;
    let inputs = vec![noise.list(n, -1.0, 1.0)];
    let make = |from: usize, to: usize| FlangerParams {
        delay: vec![s(0.004); to - from],
        width: vec![s(0.003); to - from],
        depth: (from..to).map(|i| s(i as f32 / 600.0)).collect(),
        feedback: vec![s(0.25); to - from],
        inverted: false,
        rate: vec![s(0.9); to - from],
        waveform: Waveform::Triangle,
        interp: Interpolation::Cubic,
        stereo: false,
    };
    let rate = Double { bits: 8000.0_f64.to_bits() };
    let mut whole = Flanger::new();
    whole.reset(rate);
    let mut buffer = block(&inputs);
    whole.process(&make(0, n), &vec![vec![s(0.0); n]], &mut buffer);
    let mut parted = Flanger::new();
    parted.reset(rate);
    let mut first = block(&[inputs[0][..cut].to_vec()]);
    parted.process(&make(0, cut), &vec![vec![s(0.0); cut]], &mut first);
    let mut second = block(&[inputs[0][cut..].to_vec()]);
    parted.process(&make(cut, n), &vec![vec![s(0.0); n - cut]], &mut second);
    let mut joined = first.output[0].clone();
    joined.extend(second.output[0].iter());
    assert_eq!(joined, buffer.output[0]);
    assert_eq!(parted.buffer, whole.buffer);
    assert_eq!(parted.write_pos, whole.write_pos);
    assert_eq!(parted.lfo_phase, whole.lfo_phase);
}

#[test]
fn flanger_that_was_never_reset_leaves_the_block() {
    let mut flanger = Flanger::new();
    let params = FlangerParams {
        delay: vec![s(0.01); 4],
        width: vec![s(0.01); 4],
        depth: vec![s(1.0); 4],
        feedback: vec![s(0.5); 4],
        inverted: false,
        rate: vec![s(1.0); 4],
        waveform: Waveform::Sine,
        interp: Interpolation::Linear,
        stereo: true,
    };
    let mut buffer = block(&[vec![1.0, 2.0, 3.0, 4.0]]);
    flanger.process(&params, &vec![], &mut buffer);
    assert_eq!(buffer.output[0], vec![s(0.0); 4]);
    assert_eq!(flanger.write_pos, 0);
    assert!(f(flanger.lfo_phase) > 0.0);
}

#[test]
fn vibrato_matches() {
    let mut noise = Noise(11);
    let sr = 8000.0_f32;
    for wave in WAVES {
        for interp in INTERPS {
            let n = 600;
            let inputs: Vec<Vec<f32>> = (0..2).map(|_| noise.list(n, -1.0, 1.0)).collect();
            let width = noise.list(n, 0.001, 0.05);
            let rate = noise.list(n, 0.05, 2.0);
            let mut vibrato = Vibrato::new();
            vibrato.reset(Double { bits: (sr as f64).to_bits() });
            let params =
                VibratoParams { width: all(&width), rate: all(&rate), waveform: wave, interp };
            let waves = sines(&vibrato.lfo_angles(&params, n));
            let mut buffer = block(&inputs);
            vibrato.process(&params, &waves, &mut buffer);
            let len = ((0.05_f32 * sr) as usize + 1).max(4);
            assert_eq!(vibrato.buffer_len, len);
            let len_f = len as f32;
            for ch in 0..2 {
                let mut line = vec![0.0_f32; len];
                let mut write = 0usize;
                let mut phase = 0.0_f32;
                for i in 0..n {
                    let samples = width[i] * ref_lfo(phase, wave) * sr;
                    let pos = (write as f32 - samples + len_f - 1.0).rem_euclid(len_f);
                    let want = ref_read(&line, pos, interp);
                    assert_eq!(f(buffer.output[ch][i]).to_bits(), want.to_bits());
                    line[write] = inputs[ch][i];
                    write = (write + 1) % len;
                    phase += rate[i] / sr;
                    if phase >= 1.0 {
                        phase -= 1.0;
                    }
                }
            }
        }
    }
}

#[test]
fn chorus_matches() {
    let mut noise = Noise(13);
    let sr = 8000.0_f32;
    for voices in [1_i64, 2, 3, 4, 5, 9] {
        for stereo in [false, true] {
            let n = 300;
            let wave = WAVES[(voices as usize) % 4];
            let interp = INTERPS[(voices as usize) % 3];
            let inputs: Vec<Vec<f32>> = (0..2).map(|_| noise.list(n, -1.0, 1.0)).collect();
            let delay: Vec<Vec<f32>> = (0..2).map(|_| noise.list(n, 0.01, 0.05)).collect();
            let width: Vec<Vec<f32>> = (0..2).map(|_| noise.list(n, 0.01, 0.05)).collect();
            let depth: Vec<Vec<f32>> = (0..2).map(|_| noise.list(n, 0.0, 1.0)).collect();
            let rate: Vec<Vec<f32>> = (0..2).map(|_| noise.list(n, 0.05, 2.0)).collect();
            let lists = |x: &[Vec<f32>]| x.iter().map(|c| all(c)).collect::<Vec<_>>();
            let mut chorus = Chorus::new();
            chorus.reset(Double { bits: (sr as f64).to_bits() });
            let params = ChorusParams {
                delay: lists(&delay),
                width: lists(&width),
                depth: lists(&depth),
                voices,
                rate: lists(&rate),
                waveform: wave,
                interp,
                stereo,
            };
            let waves: Vec<Vec<Vec<Single>>> = (0..2)
                .map(|ch| {
                    chorus.lfo_angles(&params, ch, n).iter().map(|voice| sines(voice)).collect()
                })
                .collect();
            let mut buffer = block(&inputs);
            chorus.process(&params, &waves, &mut buffer);
            let num = voices.clamp(2, 5) as usize;
            assert_eq!(params.num_voices(), num);
            let len = chorus.buffer_len;
            let len_f = len as f32;
            let mut last = (0, 0.0);
            for ch in 0..2 {
                let mut line = vec![0.0_f32; len];
                let mut write = 0usize;
                let mut ph = 0.0_f32;
                for i in 0..n {
                    let x = inputs[ch][i];
                    let mut acc = x;
                    let mut offset = 0.0_f32;
                    for voice in 0..num - 1 {
                        let weight = if stereo && num > 2 {
                            let w = voice as f32 / (num - 2) as f32;
                            if ch != 0 {
                                1.0 - w
                            } else {
                                w
                            }
                        } else {
                            1.0
                        };
                        let local = (delay[ch][i]
                            + width[ch][i] * ref_lfo((ph + offset).rem_euclid(1.0), wave))
                            * sr;
                        let pos = (write as f32 - local + len_f).rem_euclid(len_f);
                        let voiced = ref_read(&line, pos, interp);
                        if stereo && num == 2 {
                            acc = if ch == 0 { x } else { voiced * depth[ch][i] };
                        } else {
                            acc += voiced * depth[ch][i] * weight;
                        }
                        if num == 3 {
                            offset += 0.25;
                        } else if num > 3 {
                            offset += 1.0 / (num - 1) as f32;
                        }
                    }
                    assert_eq!(f(buffer.output[ch][i]).to_bits(), acc.to_bits());
                    line[write] = x;
                    write = (write + 1) % len;
                    ph += rate[ch][i] / sr;
                    if ph >= 1.0 {
                        ph -= 1.0;
                    }
                }
                last = (write, ph);
            }
            assert_eq!(chorus.write_pos, last.0);
            assert_eq!(f(chorus.lfo_phase), last.1);
        }
    }
}

#[test]
fn two_voices_in_stereo_keep_the_first_channel_dry() {
    let n = 50;
    let input: Vec<f32> = (0..n).map(|i| i as f32 / 50.0).collect();
    let mut chorus = Chorus::new();
    chorus.reset(Double { bits: 8000.0_f64.to_bits() });
    let same = |x: f32| vec![vec![s(x); n]; 2];
    let params = ChorusParams {
        delay: same(0.02),
        width: same(0.01),
        depth: same(0.7),
        voices: 2,
        rate: same(0.5),
        waveform: Waveform::Triangle,
        interp: Interpolation::Linear,
        stereo: true,
    };
    let mut buffer = block(&[input.clone(), input.clone()]);
    chorus.process(&params, &vec![vec![vec![s(0.0); 4]; n]; 2], &mut buffer);
    assert_eq!(buffer.output[0], all(&input));
    assert!(buffer.output[1] != all(&input));
}
