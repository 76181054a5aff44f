//! The plain delays and the panner against floating-point code, sample for sample.
use reiss_mcpherson_effects::audio::AudioBuffer;
use reiss_mcpherson_effects::float::double::Double;
use reiss_mcpherson_effects::float::single::Single;
use reiss_mcpherson_effects::delay::{Delay, DelayDsp, DelayParams};
use reiss_mcpherson_effects::panning::{
    head_delay, panorama_delays, panorama_gains, Method, Panning, PanningDsp, PanningParams,
    PanningTrig, ShelfFilter, DEFAULT_RATE, HALF_PI, HEAD_RADIUS, MAX_DELAY_SECS, SPEED_OF_SOUND,
    THETA_HEAD, THETA_PANORAMA,
};
use reiss_mcpherson_effects::pingpong::{PingPong, PingPongDsp, PingPongParams};
use reiss_mcpherson_effects::ring::{behind, tap};

fn s(x: f32) -> Single {
    Single { bits: x.to_bits() }
}

fn f(x: Single) -> f32 {
    f32::from_bits(x.bits)
}

fn all(xs: &[f32]) -> Vec<Single> {
    xs.iter().map(|x| s(*x)).collect()
}

fn rate(x: f64) -> Double {
    Double { bits: x.to_bits() }
}

struct Noise(u64);

impl Noise {
    fn next(&mut self) -> f32 {
        self.0 = self.0.wrapping_mul(6364136223846793005).wrapping_add(1442695040888963407);
        ((self.0 >> 40) as f32) / 8388608.0 - 1.0
    }

    fn list(&mut self, n: usize, low: f32, high: f32) -> Vec<f32> {
        (0..n).map(|_| low + (high - low) * (self.next() * 0.5 + 0.5)).collect()
    }
}

fn block(input: &[Vec<f32>]) -> AudioBuffer {
    let samples = input.first().map_or(0, |c| c.len());
    AudioBuffer {
        input: input.iter().map(|c| all(c)).collect(),
        output: input.iter().map(|c| vec![s(0.0); c.len()]).collect(),
        samples,
    }
}

#[test]
fn delay_matches() {
    let mut noise = Noise(3);
    let sr = 1000.0_f32;
    let n = 3000;
    let inputs: Vec<Vec<f32>> = (0..2).map(|_| noise.list(n, -1.0, 1.0)).collect();
    let mut time = noise.list(n, 0.0, 5.0);
    time[0] = 0.0;
    time[1] = 5.0;
    time[2] = 0.25;
    let feedback = noise.list(n, 0.0, 0.9);
    let mix = noise.list(n, 0.0, 1.0);
    let mut state = DelayDsp::default();
    Delay::reset(&mut state, rate(1000.0));
    let params =
        DelayParams { delay_time: all(&time), feedback: all(&feedback), mix: all(&mix) };
    let mut buffer = block(&inputs);
    Delay::process(&mut state, &params, &mut buffer);
    let len = (5.0_f32 * sr) as usize + 1;
    assert_eq!(state.buffer_len, len);
    let len_f = len as f32;
    for ch in 0..2 {
        let mut line = vec![0.0_f32; len];
        let mut write = 0usize;
        for i in 0..n {
            let x = inputs[ch][i];
            let pos = (write as f32 - time[i] * sr + len_f).rem_euclid(len_f);
            let r0 = pos.floor() as usize;
            let want;
            if r0 == write {
                want = x;
                line[write] = x;
            } else {
                let frac = pos - pos.floor();
                let (d0, d1) = (line[r0], line[(r0 + 1) % len]);
                let delayed = d0 + frac * (d1 - d0);
                want = x + mix[i] * (delayed - x);
                line[write] = x + delayed * feedback[i];
            }
            assert_eq!(f(buffer.output[ch][i]).to_bits(), want.to_bits());
            write = (write + 1) % len;
        }
        for (got, want) in state.buffer[ch].iter().zip(&line) {
            assert_eq!(got.bits, want.to_bits());
        }
        assert_eq!(state.write_pos, write);
    }
}

#[test]
fn delay_brings_a_sample_back() {
    let n = 40;
    let mut input = vec![0.0_f32; n];
    input[3] = 0.75;
    let mut state = DelayDsp::default();
    Delay::reset(&mut state, rate(1000.0));
    let params = DelayParams {
        delay_time: vec![s(0.0078125); n],
        feedback: vec![s(0.0); n],
        mix: vec![s(1.0); n],
    };
    // 0.0078125 seconds at 1024 samples per second are eight samples.
    state.sample_rate = s(1024.0);
    let mut buffer = block(&[input]);
    Delay::process(&mut state, &params, &mut buffer);
    for i in 0..n {
        assert_eq!(f(buffer.output[0][i]), if i == 11 { 0.75 } else { 0.0 });
    }
}

#[test]
fn mono_leaves_the_second_lane_silent() {
    let mut noise = Noise(5);
    let n = 100;
    let input = noise.list(n, -1.0, 1.0);
    let mut state = DelayDsp::default();
    Delay::reset(&mut state, rate(100.0));
    let params = DelayParams {
        delay_time: vec![s(0.2); n],
        feedback: vec![s(0.5); n],
        mix: vec![s(0.5); n],
    };
    Delay::process(&mut state, &params, &mut block(&[input]));
    assert!(state.buffer[0].iter().any(|x| x.bits != 0));
    assert!(state.buffer[1].iter().all(|x| x.bits == 0));
}

#[test]
fn positions_lie_on_the_ring() {
    let len = 221;
    for write in 0..len {
        for k in 0..=442 {
            let delay = s(k as f32 * 0.5);
            let place = tap(behind(write, delay, len), len);
            assert!(place.index < len);
            if k % 2 == 0 {
                assert_eq!(place.index, (write + len - k / 2) % len);
                assert_eq!(f(place.frac), 0.0);
            } else {
                assert_eq!(f(place.frac), 0.5);
            }
        }
    }
}

#[test]
fn every_delay_is_read_on_the_line() {
    let n = 8;
    let odd = vec![0.0, 5000.0, 5001.5, 1e30, f32::INFINITY, f32::NAN, -7.5, -1e20];
    let mut state = DelayDsp::default();
    Delay::reset(&mut state, rate(1000.0));
    state.sample_rate = s(1.0);
    let params = DelayParams {
        delay_time: all(&odd),
        feedback: vec![s(0.5); n],
        mix: vec![s(1.0); n],
    };
    let mut buffer = block(&[vec![1.0; n]]);
    Delay::process(&mut state, &params, &mut buffer);
    assert_eq!(state.write_pos, n);
}

#[test]
fn pingpong_matches() {
    let mut noise = Noise(21);
    let sr = 1000.0_f32;
    let n = 2500;
    let inputs: Vec<Vec<f32>> = (0..2).map(|_| noise.list(n, -1.0, 1.0)).collect();
    let balance = noise.list(n, 0.0, 1.0);
    let mut time = noise.list(n, 0.0, 0.4);
    time[10] = 0.0;
    let feedback = noise.list(n, 0.0, 0.9);
    let mix = noise.list(n, 0.0, 1.0);
    let mut state = PingPongDsp::default();
    PingPong::reset(&mut state, rate(1000.0));
    let params = PingPongParams {
        balance: all(&balance),
        delay_time: all(&time),
        feedback: all(&feedback),
        mix: all(&mix),
    };
    let mut buffer = block(&inputs);
    PingPong::process(&mut state, &params, &mut buffer);
    let len = state.buffer_len;
    let len_f = len as f32;
    let mut line_l = vec![0.0_f32; len];
    let mut line_r = vec![0.0_f32; len];
    let mut write = 0usize;
    for i in 0..n {
        let pos = (write as f32 - time[i] * sr + len_f).rem_euclid(len_f);
        let r0 = pos.floor() as usize;
        let in_l = (1.0 - balance[i]) * inputs[0][i];
        let in_r = balance[i] * inputs[1][i];
        let (mut want_l, mut want_r) = (in_l, in_r);
        if r0 != write {
            let frac = pos - pos.floor();
            let next = (r0 + 1) % len;
            let del_l = line_l[r0] + frac * (line_l[next] - line_l[r0]);
            let del_r = line_r[r0] + frac * (line_r[next] - line_r[r0]);
            want_l = in_l + mix[i] * (del_l - in_l);
            want_r = in_r + mix[i] * (del_r - in_r);
            line_l[write] = in_l + del_r * feedback[i];
            line_r[write] = in_r + del_l * feedback[i];
        }
        assert_eq!(f(buffer.output[0][i]).to_bits(), want_l.to_bits());
        assert_eq!(f(buffer.output[1][i]).to_bits(), want_r.to_bits());
        write = (write + 1) % len;
    }
    assert_eq!(state.write_pos, write);
}

#[test]
fn pingpong_bounces_between_the_sides() {
    // Only the left input feeds the delay; its repeats alternate.
    let n = 40;
    let mut input = vec![0.0_f32; n];
    input[0] = 1.0;
    let mut state = PingPongDsp::default();
    PingPong::reset(&mut state, rate(1024.0));
    let params = PingPongParams {
        balance: vec![s(0.0); n],
        delay_time: vec![s(0.0078125); n],
        feedback: vec![s(0.5); n],
        mix: vec![s(1.0); n],
    };
    let mut buffer = block(&[input, vec![1.0; n]]);
    PingPong::process(&mut state, &params, &mut buffer);
    for i in 0..n {
        let left = match i {
            8 => 1.0,
            24 => 0.25,
            _ => 0.0,
        };
        let right = match i {
            16 => 0.5,
            32 => 0.125,
            _ => 0.0,
        };
        assert_eq!(f(buffer.output[0][i]), left);
        assert_eq!(f(buffer.output[1][i]), right);
    }
}

#[test]
fn pingpong_leaves_mono_alone() {
    let mut state = PingPongDsp::default();
    PingPong::reset(&mut state, rate(100.0));
    let params = PingPongParams {
        balance: vec![s(0.5); 2],
        delay_time: vec![s(0.1); 2],
        feedback: vec![s(0.5); 2],
        mix: vec![s(0.5); 2],
    };
    let mut buffer = block(&[vec![1.0, 2.0]]);
    PingPong::process(&mut state, &params, &mut buffer);
    assert_eq!(buffer.output[0], vec![s(0.0); 2]);
    assert_eq!(state.write_pos, 0);
}

#[test]
fn panning_constants() {
    assert_eq!(HALF_PI, std::f32::consts::FRAC_PI_2.to_bits());
    assert_eq!(THETA_PANORAMA, 30.0_f32.to_radians().to_bits());
    assert_eq!(THETA_HEAD, 90.0_f32.to_radians().to_bits());
    assert_eq!(HEAD_RADIUS, 8.5e-2_f32.to_bits());
    assert_eq!(SPEED_OF_SOUND, 340.0_f32.to_bits());
    assert_eq!(MAX_DELAY_SECS, 1e-3_f32.to_bits());
    assert_eq!(DEFAULT_RATE, 44_100.0_f32.to_bits());
}

struct RefLine {
    buf: Vec<f32>,
    write: usize,
}

impl RefLine {
    fn put(&mut self, x: f32) {
        self.buf[self.write] = x;
        self.write = (self.write + 1) % self.buf.len();
    }

    fn read(&self, delay: f32) -> f32 {
        let len = self.buf.len();
        let len_f = len as f32;
        let pos = (self.write as f32 - 1.0 - delay + len_f).rem_euclid(len_f);
        let idx = pos.floor() as usize % len;
        let frac = pos - pos.floor();
        let (a, b) = (self.buf[idx], self.buf[(idx + 1) % len]);
        a + frac * (b - a)
    }
}

#[test]
fn panorama_matches() {
    let mut noise = Noise(31);
    let n = 500;
    let inputs: Vec<Vec<f32>> = (0..2).map(|_| noise.list(n, -1.0, 1.0)).collect();
    let pan = noise.list(n, -1.0, 1.0);
    let mut state = PanningDsp::default();
    Panning::reset(&mut state, rate(48000.0));
    assert_eq!(state.max_delay_samples, 48);
    let params = PanningParams { method: Method::PanoramaPrecedence, pan: all(&pan) };
    let theta = f32::from_bits(THETA_PANORAMA).sin_cos();
    let pairs: Vec<(Single, Single)> = Panning::panorama_angles(&params, n)
        .iter()
        .map(|a| {
            let (x, y) = f(*a).sin_cos();
            (s(x), s(y))
        })
        .collect();
    let trig = PanningTrig { theta: (s(theta.0), s(theta.1)), pairs };
    let mut buffer = block(&inputs);
    Panning::process(&mut state, &params, &trig, &mut buffer);
    let mut l = RefLine { buf: vec![0.0; 50], write: 0 };
    let mut r = RefLine { buf: vec![0.0; 50], write: 0 };
    let (st, ct) = 30.0_f32.to_radians().sin_cos();
    for i in 0..n {
        let phi = -pan[i] * 30.0_f32.to_radians();
        let (sp, cp) = phi.sin_cos();
        let gain_l = cp * st + sp * ct;
        let gain_r = cp * st - sp * ct;
        let norm = 1.0 / (gain_l * gain_l + gain_r * gain_r).sqrt();
        let factor = (pan[i] + 1.0) * 0.5;
        l.put(inputs[0][i]);
        r.put(inputs[0][i]);
        let want_l = l.read(48.0 * factor) * gain_l * norm;
        let want_r = r.read(48.0 * (1.0 - factor)) * gain_r * norm;
        assert_eq!(f(buffer.output[0][i]).to_bits(), want_l.to_bits());
        assert_eq!(f(buffer.output[1][i]).to_bits(), want_r.to_bits());
    }
    assert_eq!(state.delay_l.write, l.write);
}

#[test]
fn head_model_matches() {
    let mut noise = Noise(37);
    let n = 500;
    let sr = 48000.0_f32;
    let inputs: Vec<Vec<f32>> = (0..2).map(|_| noise.list(n, -1.0, 1.0)).collect();
    let pan = noise.list(n, -1.0, 1.0);
    let mut state = PanningDsp::default();
    Panning::reset(&mut state, rate(48000.0));
    let params = PanningParams { method: Method::ItdIld, pan: all(&pan) };
    let pairs: Vec<(Single, Single)> = Panning::head_angles(&params, n)
        .iter()
        .map(|(a, b)| (s(f(*a).cos()), s(f(*b).cos())))
        .collect();
    let trig = PanningTrig { theta: (s(0.0), s(0.0)), pairs };
    let mut buffer = block(&inputs);
    Panning::process(&mut state, &params, &trig, &mut buffer);
    let hp = std::f32::consts::FRAC_PI_2;
    let head = sr * 8.5e-2 / 340.0;
    let shelf = 8.5e-2_f32 / 340.0;
    let td = |angle: f32| {
        if angle.abs() < hp {
            head * (1.0 - angle.cos())
        } else {
            head * (angle.abs() + 1.0 - hp)
        }
    };
    let mut lines = [
        RefLine { buf: vec![0.0; 50], write: 0 },
        RefLine { buf: vec![0.0; 50], write: 0 },
    ];
    let mut last = [(0.0_f32, 0.0_f32); 2];
    for i in 0..n {
        let phi = pan[i] * 90.0_f32.to_radians();
        for side in 0..2 {
            let angle = if side == 0 { phi + hp } else { phi - hp };
            let alpha = 1.0 + angle.cos();
            let inv = 1.0 / (shelf + 1.0);
            let b0 = (shelf + alpha) * inv;
            let b1 = (shelf - alpha) * inv;
            let a1 = (shelf - 1.0) * inv;
            lines[side].put(inputs[0][i]);
            let x = lines[side].read(td(angle));
            let y = b0 * x + b1 * last[side].0 - a1 * last[side].1;
            last[side] = (x, y);
            assert_eq!(f(buffer.output[side][i]).to_bits(), y.to_bits());
        }
    }
}

#[test]
fn panner_leaves_mono_alone() {
    let mut state = PanningDsp::default();
    let params = PanningParams { method: Method::ItdIld, pan: vec![s(0.5); 3] };
    let trig = PanningTrig { theta: (s(0.0), s(0.0)), pairs: vec![(s(0.0), s(0.0)); 3] };
    let mut buffer = block(&[vec![1.0, 2.0, 3.0]]);
    Panning::process(&mut state, &params, &trig, &mut buffer);
    assert_eq!(buffer.output[0], vec![s(0.0); 3]);
    assert_eq!(state.delay_l.write, 0);
}

#[test]
fn panorama_in_the_middle() {
    let (l, r) = panorama_delays(44, s(0.0));
    assert_eq!(l, r);
    assert_eq!(f(l), 22.0);
    let theta = 30.0_f32.to_radians().sin_cos();
    let (gl, gr, norm) = panorama_gains((s(theta.0), s(theta.1)), (s(0.0), s(1.0)));
    assert_eq!(gl, gr);
    let power = (f(gl) * f(norm)).powi(2) + (f(gr) * f(norm)).powi(2);
    assert!((power - 1.0).abs() < 1e-6);
}

#[test]
fn line_reads_back_what_was_put_in() {
    let mut line = reiss_mcpherson_effects::panning::Delay::new(10);
    for k in 0..100 {
        line.write(s(k as f32));
        for back in 0..=k.min(11) {
            assert_eq!(f(line.read(s(back as f32))), (k - back) as f32);
        }
    }
}

#[test]
fn shelf_forgets_samples_and_keeps_coefficients() {
    let mut shelf = ShelfFilter::default();
    shelf.update(s(0.5), s(0.25));
    let b0 = shelf.b0;
    assert_eq!(f(b0), (0.25 + 1.5) * (1.0 / 1.25));
    assert_eq!(f(shelf.process(s(1.0))), f(b0));
    shelf.reset();
    assert_eq!(shelf.x1, s(0.0));
    assert_eq!(shelf.y1, s(0.0));
    assert_eq!(shelf.b0, b0);
}

#[test]
fn sound_takes_longer_round_the_head() {
    let near = f(head_delay(s(48000.0), s(0.0), s(1.0)));
    let side = f(head_delay(s(48000.0), s(std::f32::consts::FRAC_PI_2), s(0.0)));
    let far = f(head_delay(s(48000.0), s(std::f32::consts::PI), s(-1.0)));
    assert_eq!(near, 0.0);
    assert!((side - 12.0).abs() < 1e-5);
    assert!(far > side);
}
