//! The arithmetic on encodings against that of the machine.
use reiss_mcpherson_effects::float::double::Double;
use reiss_mcpherson_effects::float::single::Single;

fn s(x: f32) -> Single {
    Single { bits: x.to_bits() }
}

fn d(x: f64) -> Double {
    Double { bits: x.to_bits() }
}

fn same(x: Single, y: f32) {
    let v = f32::from_bits(x.bits);
    assert!(v.to_bits() == y.to_bits() || (v.is_nan() && y.is_nan()), "{v:?} is not {y:?}");
}

fn same_wide(x: Double, y: f64) {
    let v = f64::from_bits(x.bits);
    assert!(v.to_bits() == y.to_bits() || (v.is_nan() && y.is_nan()), "{v:?} is not {y:?}");
}

/// A fixed sequence of words.
struct Words(u64);

impl Words {
    fn next(&mut self) -> u64 {
        self.0 ^= self.0 << 13;
        self.0 ^= self.0 >> 7;
        self.0 ^= self.0 << 17;
        self.0
    }
}

fn narrow_samples() -> Vec<f32> {
    let mut v = vec![
        0.0,
        -0.0,
        1.0,
        -1.0,
        0.5,
        1.5,
        2.5,
        -2.5,
        f32::MIN_POSITIVE,
        f32::from_bits(1),
        f32::from_bits(0x8000_0001),
        f32::from_bits(0x007f_ffff),
        f32::MAX,
        f32::MIN,
        f32::INFINITY,
        f32::NEG_INFINITY,
        f32::NAN,
        16_777_216.0,
        16_777_217.0,
        std::f32::consts::PI,
        std::f32::consts::TAU,
        1e-3,
        44_100.0,
        f32::EPSILON,
        1.0 + f32::EPSILON,
    ];
    let mut w = Words(0x1234_5678_9abc_def1);
    for i in 0..120u32 {
        let x = w.next();
        v.push(f32::from_bits(x as u32));
        // Numbers of like size, where cancellation and ties show.
        v.push(f32::from_bits(0x3f00_0000 + (x as u32 % 0x0100_0000)) * if i % 2 == 0 { 1.0 } else { -1.0 });
        // Few significant bits.
        v.push(((x % 64) as f32) * 0.125);
    }
    v
}

fn wide_samples() -> Vec<f64> {
    let mut v = vec![
        0.0,
        -0.0,
        1.0,
        -1.0,
        0.5,
        1.5,
        f64::MIN_POSITIVE,
        f64::from_bits(1),
        f64::from_bits(0x000f_ffff_ffff_ffff),
        f64::MAX,
        f64::MIN,
        f64::INFINITY,
        f64::NEG_INFINITY,
        f64::NAN,
        std::f64::consts::PI,
        1e-6,
        f64::from(f32::MAX) * 1.000_000_1,
        f64::EPSILON,
        1.0 + f64::EPSILON,
    ];
    let mut w = Words(0x0fed_cba9_8765_4321);
    for i in 0..120u32 {
        let x = w.next();
        v.push(f64::from_bits(x));
        v.push(f64::from_bits(0x3fe0_0000_0000_0000 + (x % 0x0020_0000_0000_0000)) * if i % 2 == 0 { 1.0 } else { -1.0 });
        v.push(f64::from(f32::from_bits(x as u32)));
    }
    v
}

#[test]
fn binary_operations_match_the_machine() {
    let v = narrow_samples();
    for &a in &v {
        for &b in &v {
            same(s(a) + s(b), a + b);
            same(s(a) - s(b), a - b);
            same(s(a) * s(b), a * b);
            same(s(a) / s(b), a / b);
            same(s(a).remainder(s(b)), a % b);
            same(s(a).rem_euclid(s(b)), a.rem_euclid(b));
            assert_eq!(s(a).lt(s(b)), a < b);
            assert_eq!(s(a).le(s(b)), a <= b);
            assert_eq!(s(a).gt(s(b)), a > b);
            assert_eq!(s(a).ge(s(b)), a >= b);
            if a != b {
                same(s(a).min(s(b)), a.min(b));
                same(s(a).max(s(b)), a.max(b));
            }
        }
    }
}

#[test]
fn unary_operations_match_the_machine() {
    for a in narrow_samples() {
        same(s(a).sqrt(), a.sqrt());
        same(s(a).floor(), a.floor());
        same(s(a).round(), a.round());
        same(s(a).abs(), a.abs());
        same(s(a).negated(), -a);
        same_wide(s(a).widen(), f64::from(a));
        assert_eq!(s(a).to_usize(), a as usize);
        assert_eq!(s(a).is_nan(), a.is_nan());
        assert_eq!(s(a).is_zero(), a == 0.0);
        same(s(a).clamp(s(-0.5), s(0.5)), a.clamp(-0.5, 0.5));
    }
    for n in [0usize, 1, 2, 3, 16_777_215, 16_777_217, 16_777_219, 220_501, usize::MAX] {
        same(Single::from_usize(n), n as f32);
    }
}

#[test]
fn wide_operations_match_the_machine() {
    let v = wide_samples();
    for &a in &v {
        for &b in &v {
            same_wide(d(a) + d(b), a + b);
            same_wide(d(a) - d(b), a - b);
            same_wide(d(a) * d(b), a * b);
            same_wide(d(a) / d(b), a / b);
            assert_eq!(d(a).lt(d(b)), a < b);
            assert_eq!(d(a).le(d(b)), a <= b);
            if a != b {
                same_wide(d(a).min(d(b)), a.min(b));
            }
        }
        same_wide(d(a).sqrt(), a.sqrt());
        same_wide(d(a).abs(), a.abs());
        same_wide(d(a).negated(), -a);
        same(d(a).narrow(), a as f32);
        same_wide(d(a).clamp(d(1e-6), d(3.0)), a.clamp(1e-6, 3.0));
    }
}
