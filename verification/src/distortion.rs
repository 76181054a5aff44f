//! Distortion: a waveshaper and a high shelf for the tone.
use crate::audio::{lesser, put, resumes, AudioBuffer};
use crate::compressor::TWENTIETH;
use crate::dynamics::law_decibels_to_power;
use crate::float::encoding::{nearest_even, power, rounded, Format, Number};
use crate::float::facts::{
    alike, lemma_abs, lemma_add, lemma_compare, lemma_constant, lemma_constants, lemma_div,
    lemma_finite_number, lemma_mul, lemma_negated, lemma_opposite_add, lemma_opposite_mul,
    lemma_same, lemma_scaled, lemma_sub, lemma_twice_negated, lemma_within, unit, within,
};
use crate::float::monotone::{lemma_add_monotone, lemma_div_monotone, lemma_mul_monotone};
use crate::float::near::near;
use crate::float::order::{lemma_bits_order, lemma_parts, lemma_product_sign, lemma_sign_bit};
use crate::float::rounding::lemma_floor_log2;
use crate::float::single::{num, Single};
use crate::modulation::{HALF, MINUS_HALF, MINUS_ONE, ONE, TWO};
use vstd::arithmetic::div_mod::{
    lemma_fundamental_div_mod, lemma_fundamental_div_mod_converse, lemma_mod_bound,
};
use vstd::arithmetic::power2::{
    lemma2_to64, lemma2_to64_rest, lemma_pow2_strictly_increases, lemma_pow2_unfold, pow2,
};
use vstd::prelude::*;

verus! {

/// The tone is taken over once in so many samples of a block.
pub const MAX_BLOCK: usize = 512;

/// The cut-off of the shelf, 0.01 pi.
pub const CUTOFF: u32 = 0x3d00_adfd;

/// 1/3
pub const THIRD: u32 = 0x3eaa_aaab;

/// 2/3
pub const TWO_THIRDS: u32 = 0x3f2a_aaab;

/// 3
pub const THREE: u32 = 0x4040_0000;

#[derive(Clone, Copy, PartialEq, Eq, Structural, Debug)]
pub enum DistortionType {
    HardClipping,
    SoftClipping,
    Exponential,
    FullWaveRectifier,
    HalfWaveRectifier,
}

/// What the controls say over one block, in decibels. The gains have one value per sample, the
/// tone one for every `MAX_BLOCK` samples that are begun.
pub struct DistortionParams {
    pub distortion_type: DistortionType,
    pub input_gain: Vec<Single>,
    pub output_gain: Vec<Single>,
    pub tone: Vec<Single>,
}

/// The gains of `DistortionParams` as factors, each ten to the power of its `gain_exponents`, and
/// the tangent of `tone_angle`.
pub struct Levels {
    pub input: Vec<Single>,
    pub output: Vec<Single>,
    pub tone: Vec<Single>,
    pub tan_half: Single,
}

impl Levels {
    /// Every list reaches over `n` samples.
    pub open spec fn covers(self, n: int) -> bool {
        &&& self.input@.len() >= n
        &&& self.output@.len() >= n
        &&& self.tone@.len() * MAX_BLOCK >= n
    }
}

/// A first-order shelf and the last sample on each side of it.
#[derive(Clone, Copy, PartialEq, Eq, Structural)]
pub struct ToneShelf {
    pub b0: Single,
    pub b1: Single,
    pub a1: Single,
    pub x1: Single,
    pub y1: Single,
}

impl ToneShelf {
    /// The shelf with a gain; its cut-off stays where it is.
    pub open spec fn toned(self, gain_lin: Single, tan_half: Single) -> ToneShelf {
        let root = gain_lin.sqrt();
        let inv = num(ONE) / (root * tan_half + num(ONE));
        ToneShelf {
            b0: (root * tan_half + gain_lin) * inv,
            b1: (root * tan_half - gain_lin) * inv,
            a1: (root * tan_half - num(ONE)) * inv,
            ..self
        }
    }

    /// What the shelf makes of a sample.
    pub open spec fn response(self, x: Single) -> Single {
        self.b0 * x + self.b1 * self.x1 - self.a1 * self.y1
    }

    /// The shelf after a sample.
    pub open spec fn stepped(self, x: Single) -> ToneShelf {
        ToneShelf { x1: x, y1: self.response(x), ..self }
    }

    /// The shelf without the samples it has seen.
    pub open spec fn cleared(self) -> ToneShelf {
        ToneShelf { x1: num(0), y1: num(0), ..self }
    }

    /// Gives the shelf a gain.
    pub fn update(&mut self, gain_lin: Single, tan_half: Single)
        ensures
            *final(self) == old(self).toned(gain_lin, tan_half),
    {
        let root = gain_lin.sqrt();
        let a0 = root * tan_half + num(ONE);
        let inv = num(ONE) / a0;
        self.b0 = (root * tan_half + gain_lin) * inv;
        self.b1 = (root * tan_half - gain_lin) * inv;
        self.a1 = (root * tan_half - num(ONE)) * inv;
    }

    /// Filters one sample.
    pub fn process(&mut self, x: Single) -> (y: Single)
        ensures
            y == old(self).response(x),
            *final(self) == old(self).stepped(x),
    {
        let y = self.b0 * x + self.b1 * self.x1 - self.a1 * self.y1;
        self.x1 = x;
        self.y1 = y;
        y
    }

    /// Forgets the samples it has seen and keeps the coefficients.
    pub fn reset(&mut self)
        ensures
            *final(self) == old(self).cleared(),
    {
        self.x1 = num(0);
        self.y1 = num(0);
    }
}

/// The shelf whose coefficients and samples are all zero.
pub open spec fn flat() -> ToneShelf {
    ToneShelf { b0: num(0), b1: num(0), a1: num(0), x1: num(0), y1: num(0) }
}

impl Default for ToneShelf {
    fn default() -> (r: ToneShelf)
        ensures
            r == flat(),
    {
        ToneShelf { b0: num(0), b1: num(0), a1: num(0), x1: num(0), y1: num(0) }
    }
}

pub open spec fn tone_angle_spec() -> Single {
    num(CUTOFF) * num(HALF)
}

/// The angle whose tangent the shelf needs.
#[verifier::when_used_as_spec(tone_angle_spec)]
pub fn tone_angle() -> (r: Single)
    ensures
        r == tone_angle_spec(),
{
    num(CUTOFF) * num(HALF)
}

/// The powers of ten that gains in decibels are.
pub fn gain_exponents(gains_db: &Vec<Single>) -> (r: Vec<Single>)
    ensures
        r@ == gains_db@.map_values(|g: Single| g * num(TWENTIETH)),
        forall|i: int|
            0 <= i < gains_db@.len() && near(gains_db@[i], gains_db@[i].amount(), 0real, 1024real)
                ==> near(#[trigger] r@[i], gains_db@[i].amount() / 20real, 4real, 64real),
{
    let mut r: Vec<Single> = Vec::new();
    let mut i: usize = 0;
    while i < gains_db.len()
        invariant
            i <= gains_db@.len(),
            r@ == gains_db@.take(i as int).map_values(|g: Single| g * num(TWENTIETH)),
        decreases gains_db@.len() - i,
    {
        r.push(gains_db[i] * num(TWENTIETH));
        assert(gains_db@.take(i + 1) == gains_db@.take(i as int).push(gains_db@[i as int]));
        i = i + 1;
    }
    assert(gains_db@.take(i as int) == gains_db@);
    proof {
        assert forall|k: int|
            0 <= k < gains_db@.len() && near(gains_db@[k], gains_db@[k].amount(), 0real, 1024real)
            implies near(#[trigger] r@[k], gains_db@[k].amount() / 20real, 4real, 64real) by {
            law_decibels_to_power(gains_db@[k], gains_db@[k].amount(), 0real, 1024real);
        }
    }
    r
}

pub open spec fn soft_clipped_spec(x: Single) -> Single {
    let raw = if x.gt(num(TWO_THIRDS)) {
        num(ONE)
    } else if x.gt(num(THIRD)) {
        let inner = num(TWO) - num(THREE) * x;
        num(ONE) - (inner * inner) / num(THREE)
    } else if x.lt(num(TWO_THIRDS).negated()) {
        num(MINUS_ONE)
    } else if x.lt(num(THIRD).negated()) {
        let inner = num(TWO) + num(THREE) * x;
        num(MINUS_ONE) + (inner * inner) / num(THREE)
    } else {
        num(TWO) * x
    };
    raw * num(HALF)
}

/// The soft knee: linear up to a third on either side, parabolic up to two thirds, saturated
/// beyond, and halved.
#[verifier::when_used_as_spec(soft_clipped_spec)]
pub fn soft_clipped(x: Single) -> (r: Single)
    ensures
        r == soft_clipped_spec(x),
{
    let raw = if x.gt(num(TWO_THIRDS)) {
        num(ONE)
    } else if x.gt(num(THIRD)) {
        let inner = num(TWO) - num(THREE) * x;
        num(ONE) - (inner * inner) / num(THREE)
    } else if x.lt(num(TWO_THIRDS).negated()) {
        num(MINUS_ONE)
    } else if x.lt(num(THIRD).negated()) {
        let inner = num(TWO) + num(THREE) * x;
        num(MINUS_ONE) + (inner * inner) / num(THREE)
    } else {
        num(TWO) * x
    };
    raw * num(HALF)
}

pub open spec fn exponent_spec(x: Single) -> Single {
    if x.gt(num(0)) { x.negated() } else { x }
}

/// The exponent whose exponential the exponential shape takes at a sample.
#[verifier::when_used_as_spec(exponent_spec)]
pub fn exponent(x: Single) -> (r: Single)
    ensures
        r == exponent_spec(x),
{
    if x.gt(num(0)) { x.negated() } else { x }
}

pub open spec fn shape_spec(x: Single, ty: DistortionType, exp: Single) -> Single {
    match ty {
        DistortionType::HardClipping => x.clamp(num(MINUS_HALF), num(HALF)),
        DistortionType::SoftClipping => soft_clipped(x),
        DistortionType::Exponential => if x.gt(num(0)) {
            num(ONE) - exp
        } else {
            num(MINUS_ONE) + exp
        },
        DistortionType::FullWaveRectifier => x.abs(),
        DistortionType::HalfWaveRectifier => x.max(num(0)),
    }
}

/// The waveshaper, `exp` being the exponential of the sample's `exponent`.
#[verifier::when_used_as_spec(shape_spec)]
pub fn shape(x: Single, ty: DistortionType, exp: Single) -> (r: Single)
    ensures
        r == shape_spec(x, ty, exp),
{
    match ty {
        DistortionType::HardClipping => x.clamp(num(MINUS_HALF), num(HALF)),
        DistortionType::SoftClipping => soft_clipped(x),
        DistortionType::Exponential => if x.gt(num(0)) {
            num(ONE) - exp
        } else {
            num(MINUS_ONE) + exp
        },
        DistortionType::FullWaveRectifier => x.abs(),
        DistortionType::HalfWaveRectifier => x.max(num(0)),
    }
}

/// Sample `i` as the shelf gets it.
pub open spec fn shaped_at(
    ty: DistortionType,
    levels: Levels,
    exps: Seq<Single>,
    input: Seq<Single>,
    i: int,
) -> Single {
    shape(input[i] * levels.input@[i], ty, exps[i])
}

/// The shelf that sample `i` goes through, `shelf` being what it is before that sample.
pub open spec fn shelf_at(levels: Levels, shelf: ToneShelf, i: int) -> ToneShelf {
    if i % (MAX_BLOCK as int) == 0 {
        shelf.toned(levels.tone@[i / (MAX_BLOCK as int)], levels.tan_half)
    } else {
        shelf
    }
}

/// The shelf of a channel after `i` samples.
pub open spec fn shelf_after(
    ty: DistortionType,
    levels: Levels,
    exps: Seq<Single>,
    shelf: ToneShelf,
    input: Seq<Single>,
    i: nat,
) -> ToneShelf
    decreases i,
{
    if i == 0 {
        shelf
    } else {
        let k = i - 1;
        shelf_at(levels, shelf_after(ty, levels, exps, shelf, input, k as nat), k).stepped(
            shaped_at(ty, levels, exps, input, k),
        )
    }
}

/// The shelf of a channel that is not there after a block of `n` samples: only its tone moves.
pub open spec fn shelf_idle(levels: Levels, shelf: ToneShelf, n: int) -> ToneShelf {
    if n == 0 {
        shelf
    } else {
        shelf.toned(levels.tone@[(n - 1) / (MAX_BLOCK as int)], levels.tan_half)
    }
}

/// The first `n` samples that go out on a channel.
pub open spec fn rendered(
    ty: DistortionType,
    levels: Levels,
    exps: Seq<Single>,
    shelf: ToneShelf,
    input: Seq<Single>,
    n: nat,
) -> Seq<Single> {
    Seq::new(
        n,
        |i: int|
            shelf_at(levels, shelf_after(ty, levels, exps, shelf, input, i as nat), i).response(
                shaped_at(ty, levels, exps, input, i),
            ) * levels.output@[i],
    )
}

/// Takes a channel through a block.
fn render(
    ty: DistortionType,
    levels: &Levels,
    exps: &Vec<Single>,
    shelf: &mut ToneShelf,
    input: &Vec<Single>,
    out: &mut Vec<Single>,
)
    requires
        old(out)@.len() == input@.len(),
        levels.covers(input@.len() as int),
        exps@.len() >= input@.len(),
    ensures
        *final(shelf) == shelf_after(ty, *levels, exps@, *old(shelf), input@, input@.len()),
        final(out)@ == rendered(ty, *levels, exps@, *old(shelf), input@, input@.len()),
{
    let ghost start = *shelf;
    let n = input.len();
    let mut i: usize = 0;
    while i < n
        invariant
            i <= n,
            n == input@.len(),
            levels.covers(n as int),
            exps@.len() >= n,
            *shelf == shelf_after(ty, *levels, exps@, start, input@, i as nat),
            out@.len() == n,
            out@.take(i as int) == rendered(ty, *levels, exps@, start, input@, i as nat),
        decreases n - i,
    {
        if i % MAX_BLOCK == 0 {
            shelf.update(levels.tone[i / MAX_BLOCK], levels.tan_half);
        }
        let shaped = shape(input[i] * levels.input[i], ty, exps[i]);
        put(out, i, shelf.process(shaped) * levels.output[i]);
        i = i + 1;
    }
    assert(out@.take(n as int) == out@);
}

pub struct Distortion {
    pub shelves: Vec<ToneShelf>,
}

impl Distortion {
    /// There is a shelf for each of two channels.
    pub open spec fn wf(self) -> bool {
        self.shelves@.len() == 2
    }

    /// Before the first block: the shelves let nothing through yet.
    pub fn new() -> (r: Distortion)
        ensures
            r.wf(),
            r.shelves@ == seq![flat(), flat()],
    {
        let mut shelves: Vec<ToneShelf> = Vec::new();
        shelves.push(ToneShelf::default());
        shelves.push(ToneShelf::default());
        Distortion { shelves }
    }

    /// Forgets the samples that the shelves have seen.
    pub fn reset(&mut self)
        requires
            old(self).wf(),
        ensures
            final(self).wf(),
            final(self).shelves@ == seq![
                old(self).shelves@[0].cleared(),
                old(self).shelves@[1].cleared(),
            ],
    {
        let mut s0 = self.shelves[0];
        let mut s1 = self.shelves[1];
        s0.reset();
        s1.reset();
        self.shelves[0] = s0;
        self.shelves[1] = s1;
    }

    /// The exponents whose exponentials the exponential shape needs on a channel, one per sample.
    pub fn exponents(levels: &Levels, buffer: &AudioBuffer, ch: usize) -> (r: Vec<Single>)
        requires
            buffer.wf(),
            ch < buffer.input@.len(),
            levels.covers(buffer.samples as int),
        ensures
            r@ == Seq::new(
                buffer.samples as nat,
                |i: int| exponent(buffer.incoming(ch as int)[i] * levels.input@[i]),
            ),
    {
        let n = buffer.num_samples();
        let mut r: Vec<Single> = Vec::new();
        let mut i: usize = 0;
        while i < n
            invariant
                i <= n,
                n == buffer.samples,
                buffer.wf(),
                ch < buffer.input@.len(),
                levels.covers(n as int),
                r@ == Seq::new(
                    i as nat,
                    |k: int| exponent(buffer.incoming(ch as int)[k] * levels.input@[k]),
                ),
            decreases n - i,
        {
            r.push(exponent(buffer.input[ch][i] * levels.input[i]));
            i = i + 1;
        }
        r
    }

    /// Works on one block. `exps` holds for each channel, up to two, the exponentials of
    /// `exponents`.
    pub fn process(
        &mut self,
        ty: DistortionType,
        levels: &Levels,
        exps: &Vec<Vec<Single>>,
        buffer: &mut AudioBuffer,
    )
        requires
            old(self).wf(),
            old(buffer).wf(),
            levels.covers(old(buffer).samples as int),
            exps@.len() >= lesser(old(buffer).input@.len() as usize, 2),
            forall|ch: int|
                0 <= ch < exps@.len() ==> (#[trigger] exps@[ch])@.len() >= old(buffer).samples,
        ensures
            final(self).wf(),
            final(buffer).rewritten(
                *old(buffer),
                lesser(old(buffer).input@.len() as usize, 2) as int,
            ),
            forall|ch: int|
                0 <= ch < 2 ==> #[trigger] final(self).shelves@[ch] == (if ch
                    < old(buffer).input@.len() {
                    shelf_after(
                        ty,
                        *levels,
                        exps@[ch]@,
                        old(self).shelves@[ch],
                        old(buffer).incoming(ch),
                        old(buffer).samples as nat,
                    )
                } else {
                    shelf_idle(*levels, old(self).shelves@[ch], old(buffer).samples as int)
                }),
            forall|ch: int|
                0 <= ch < 2 && ch < old(buffer).input@.len() ==> (
                #[trigger] final(buffer).output@[ch])@ == rendered(
                    ty,
                    *levels,
                    exps@[ch]@,
                    old(self).shelves@[ch],
                    old(buffer).incoming(ch),
                    old(buffer).samples as nat,
                ),
    {
        let ghost start = *self;
        let ghost before = *buffer;
        let n = buffer.num_samples();
        let active = lesser(buffer.channels(), 2);
        let mut ch: usize = 0;
        while ch < 2
            invariant
                ch <= 2,
                active == lesser(before.input@.len() as usize, 2),
                before.input@.len() <= usize::MAX,
                n == before.samples,
                before.wf(),
                start.wf(),
                self.wf(),
                levels.covers(n as int),
                exps@.len() >= active,
                forall|c: int| 0 <= c < exps@.len() ==> (#[trigger] exps@[c])@.len() >= n,
                buffer.rewritten(before, active as int),
                forall|c: int|
                    0 <= c < 2 ==> #[trigger] self.shelves@[c] == (if c >= ch {
                        start.shelves@[c]
                    } else if c < active {
                        shelf_after(
                            ty,
                            *levels,
                            exps@[c]@,
                            start.shelves@[c],
                            before.incoming(c),
                            n as nat,
                        )
                    } else {
                        shelf_idle(*levels, start.shelves@[c], n as int)
                    }),
                forall|c: int|
                    0 <= c < ch && c < active ==> (#[trigger] buffer.output@[c])@ == rendered(
                        ty,
                        *levels,
                        exps@[c]@,
                        start.shelves@[c],
                        before.incoming(c),
                        n as nat,
                    ),
            decreases 2 - ch,
        {
            let mut shelf = self.shelves[ch];
            if ch < active {
                render(
                    ty,
                    levels,
                    &exps[ch],
                    &mut shelf,
                    &buffer.input[ch],
                    &mut buffer.output[ch],
                );
            } else if n > 0 {
                shelf.update(levels.tone[(n - 1) / MAX_BLOCK], levels.tan_half);
            }
            self.shelves[ch] = shelf;
            ch = ch + 1;
        }
    }
}

/// Hard clipping keeps every number between -0.5 and 0.5.
pub proof fn law_hard_clip_bounded(x: Single, exp: Single)
    requires
        !x.is_nan(),
    ensures
        within(shape(x, DistortionType::HardClipping, exp), num(MINUS_HALF), num(HALF)),
{
    lemma_constants();
    lemma_finite_number(num(HALF));
    lemma_finite_number(num(MINUS_HALF));
    lemma_within(num(HALF), num(MINUS_HALF), num(HALF));
    lemma_within(num(MINUS_HALF), num(MINUS_HALF), num(HALF));
}

/// The knees of soft clipping.
proof fn lemma_knees()
    ensures
        num(THIRD).is_finite(),
        num(TWO_THIRDS).is_finite(),
        num(THIRD).negated().is_finite(),
        num(TWO_THIRDS).negated().is_finite(),
        num(THIRD).negated().value() == -num(THIRD).value(),
        num(TWO_THIRDS).negated().value() == -num(TWO_THIRDS).value(),
        num(TWO_THIRDS).value() == 2 * num(THIRD).value(),
        0 < 3 * num(THIRD).value() <= 2 * unit(),
        3 * num(THIRD).value() >= unit(),
        2 * num(THIRD).value() <= unit(),
{
    lemma_constants();
    lemma2_to64();
    lemma_constant(THIRD, 0x200_0000, 0xaa_aaab);
    lemma_constant(TWO_THIRDS, 0x100_0000, 0xaa_aaab);
    lemma_negated(num(THIRD));
    lemma_negated(num(TWO_THIRDS));
}

/// The parabola between the knees lies between 0 and 1; `inner` lies between -1 and 1.
proof fn lemma_parabola(inner: Single)
    requires
        inner.is_finite(),
        -unit() <= inner.value() <= unit(),
    ensures
        ((inner * inner) / num(THREE)).is_finite(),
        0 <= ((inner * inner) / num(THREE)).value() <= unit(),
{
    lemma_constants();
    let (v, u) = (inner.value(), unit());
    assert(0 * u <= v * v <= u * u) by (nonlinear_arith)
        requires
            -u <= v <= u,
    ;
    lemma_mul(inner, inner, num(0), num(ONE));
    let w = (inner * inner).value();
    assert(0 * (3 * u) <= w * u <= u * (3 * u)) by (nonlinear_arith)
        requires
            0 <= w <= u,
    ;
    lemma_div(inner * inner, num(THREE), num(0), num(ONE));
}

/// Half of what lies between -1 and 1.
proof fn lemma_halved(raw: Single)
    requires
        raw.is_finite(),
        -unit() <= raw.value() <= unit(),
    ensures
        within(raw * num(HALF), num(MINUS_HALF), num(HALF)),
{
    lemma_constants();
    let (v, u, h) = (raw.value(), unit(), num(HALF).value());
    assert((-h) * u <= v * h <= h * u) by (nonlinear_arith)
        requires
            -u <= v <= u,
            h > 0,
    ;
    assert(num(MINUS_HALF).value() == -h);
    lemma_mul(raw, num(HALF), num(MINUS_HALF), num(HALF));
    lemma_within(raw * num(HALF), num(MINUS_HALF), num(HALF));
}

/// Soft clipping keeps every finite number between -0.5 and 0.5.
pub proof fn law_soft_clip_bounded(x: Single)
    requires
        x.is_finite(),
    ensures
        within(soft_clipped(x), num(MINUS_HALF), num(HALF)),
{
    lemma_constants();
    lemma_knees();
    let u = unit();
    let v = x.value();
    lemma_compare(num(TWO_THIRDS), x);
    lemma_compare(num(THIRD), x);
    lemma_compare(x, num(TWO_THIRDS).negated());
    lemma_compare(x, num(THIRD).negated());
    if x.gt(num(TWO_THIRDS)) {
        lemma_halved(num(ONE));
    } else if x.gt(num(THIRD)) {
        assert(u * u <= (3 * u) * v <= (3 * u) * u) by (nonlinear_arith)
            requires
                u <= 3 * v,
                v <= u,
                u > 0,
        ;
        lemma_mul(num(THREE), x, num(ONE), num(THREE));
        lemma_sub(num(TWO), num(THREE) * x, num(MINUS_ONE), num(ONE));
        let inner = num(TWO) - num(THREE) * x;
        lemma_parabola(inner);
        lemma_sub(num(ONE), (inner * inner) / num(THREE), num(0), num(ONE));
        lemma_halved(num(ONE) - (inner * inner) / num(THREE));
    } else if x.lt(num(TWO_THIRDS).negated()) {
        lemma_halved(num(MINUS_ONE));
    } else if x.lt(num(THIRD).negated()) {
        let low = num(THREE).negated();
        lemma_negated(num(THREE));
        assert((-(3 * u)) * u <= (3 * u) * v <= (-u) * u) by (nonlinear_arith)
            requires
                3 * v <= -u,
                -u <= v,
                u > 0,
        ;
        lemma_mul(num(THREE), x, low, num(MINUS_ONE));
        lemma_add(num(TWO), num(THREE) * x, num(MINUS_ONE), num(ONE));
        let inner = num(TWO) + num(THREE) * x;
        lemma_parabola(inner);
        lemma_add(num(MINUS_ONE), (inner * inner) / num(THREE), num(MINUS_ONE), num(0));
        lemma_halved(num(MINUS_ONE) + (inner * inner) / num(THREE));
    } else {
        assert((-u) * u <= (2 * u) * v <= u * u) by (nonlinear_arith)
            requires
                -u <= 2 * v <= u,
                u > 0,
        ;
        lemma_mul(num(TWO), x, num(MINUS_ONE), num(ONE));
        lemma_halved(num(TWO) * x);
    }
}

/// Up to a third on either side, soft clipping leaves a sample as it is.
pub proof fn law_soft_clip_linear(x: Single)
    requires
        within(x, num(THIRD).negated(), num(THIRD)),
    ensures
        soft_clipped(x) == x,
{
    lemma_constants();
    lemma_knees();
    lemma_within(x, num(THIRD).negated(), num(THIRD));
    lemma_compare(num(TWO_THIRDS), x);
    lemma_compare(num(THIRD), x);
    lemma_compare(x, num(TWO_THIRDS).negated());
    lemma_compare(x, num(THIRD).negated());
    let f = Format::Single;
    let (negative, m, e) = lemma_parts(f, x.bits as int);
    let (u, v, h) = (unit(), x.value(), num(HALF).value());
    // Twice the number is a number of the format.
    assert(e + 1 <= 104) by {
        if e >= 0 {
            let p = pow2((e + 149) as nat);
            assert(p >= u) by {
                if e > 0 {
                    lemma_pow2_strictly_increases(149, (e + 149) as nat);
                }
            }
            if m > 0 {
                assert(m * p >= u) by (nonlinear_arith)
                    requires
                        m >= 1,
                        p >= u,
                        u > 0,
                ;
            }
        }
    }
    let twice = lemma_scaled(m, e + 1);
    lemma_negated(twice);
    let double = if negative { twice.negated() } else { twice };
    lemma_pow2_unfold((e + 150) as nat);
    let p = pow2((e + 149) as nat);
    assert(m * (2 * p) == 2 * (m * p)) by (nonlinear_arith);
    assert(double.value() == 2 * v);
    assert((2 * u) * v == (2 * v) * u) by (nonlinear_arith);
    lemma_mul(num(TWO), x, double, double);
    let y = num(TWO) * x;
    assert((2 * v) * h == v * u) by (nonlinear_arith)
        requires
            2 * h == u,
    ;
    lemma_mul(y, num(HALF), x, x);
    reveal(Single::spec_mul);
    lemma_product_sign(f, num(TWO).bits as int, x.bits as int);
    lemma_product_sign(f, y.bits as int, num(HALF).bits as int);
    lemma_same(y * num(HALF), x);
}

/// The exponential shape lies between -1 and 1, the exponential of a number that is not positive
/// lying between 0 and 1.
pub proof fn law_exponential_bounded(x: Single, exp: Single)
    requires
        within(exp, num(0), num(ONE)),
    ensures
        within(shape(x, DistortionType::Exponential, exp), num(MINUS_ONE), num(ONE)),
{
    lemma_constants();
    lemma_within(exp, num(0), num(ONE));
    if x.gt(num(0)) {
        lemma_sub(num(ONE), exp, num(MINUS_ONE), num(ONE));
    } else {
        lemma_add(num(MINUS_ONE), exp, num(MINUS_ONE), num(ONE));
    }
    lemma_within(shape(x, DistortionType::Exponential, exp), num(MINUS_ONE), num(ONE));
}

/// The rectifiers let nothing below zero through.
pub proof fn law_rectified(x: Single, exp: Single)
    requires
        x.is_finite(),
    ensures
        num(0).le(shape(x, DistortionType::FullWaveRectifier, exp)),
        num(0).le(shape(x, DistortionType::HalfWaveRectifier, exp)),
{
    lemma_constants();
    lemma_abs(x);
    lemma_compare(num(0), x.abs());
    lemma_finite_number(x);
    lemma_compare(x, num(0));
    lemma_compare(num(0), x);
    lemma_compare(num(0), num(0));
}

impl Levels {
    /// Whether these are the levels that `whole` holds from sample `i` on, for `n` samples. The
    /// sample is one at which the tone is taken over.
    pub open spec fn resumes(self, whole: Levels, i: nat, n: nat) -> bool {
        &&& i % (MAX_BLOCK as nat) == 0
        &&& self.tan_half == whole.tan_half
        &&& resumes(self.input@, whole.input@, i, n)
        &&& resumes(self.output@, whole.output@, i, n)
        &&& self.tone@.len() * MAX_BLOCK >= n
        &&& forall|c: int|
            0 <= c < self.tone@.len() ==> #[trigger] self.tone@[c] == whole.tone@[i / (
            MAX_BLOCK as nat) + c]
    }
}

/// The shelf is the same at the same sample of one block and of its second part.
proof fn lemma_shelf_joins(whole: Levels, part: Levels, shelf: ToneShelf, i: nat, k: nat, n: nat)
    requires
        part.resumes(whole, i, n),
        k < n,
    ensures
        shelf_at(whole, shelf, (i + k) as int) == shelf_at(part, shelf, k as int),
{
    let b = MAX_BLOCK as int;
    let (q, c, r) = (i as int / b, k as int / b, k as int % b);
    lemma_fundamental_div_mod(i as int, b);
    lemma_fundamental_div_mod(k as int, b);
    lemma_mod_bound(k as int, b);
    assert(i + k == (q + c) * b + r);
    lemma_fundamental_div_mod_converse((i + k) as int, b, q + c, r);
    if r == 0 {
        assert(part.tone@[c] == whole.tone@[q + c]);
    }
}

/// A block leaves a shelf as its two parts leave it, one after the other, where the second starts
/// at a sample at which the tone is taken over.
pub proof fn law_shelf_joins(
    ty: DistortionType,
    whole: Levels,
    part: Levels,
    exps: Seq<Single>,
    part_exps: Seq<Single>,
    shelf: ToneShelf,
    input: Seq<Single>,
    part_input: Seq<Single>,
    i: nat,
    j: nat,
    n: nat,
)
    requires
        part.resumes(whole, i, n),
        j <= n,
        resumes(part_exps, exps, i, j),
        resumes(part_input, input, i, j),
    ensures
        shelf_after(ty, whole, exps, shelf, input, i + j) == shelf_after(
            ty,
            part,
            part_exps,
            shelf_after(ty, whole, exps, shelf, input, i),
            part_input,
            j,
        ),
    decreases j,
{
    if j > 0 {
        let k = (j - 1) as nat;
        assert((i + j - 1) as nat == i + k);
        law_shelf_joins(
            ty,
            whole,
            part,
            exps,
            part_exps,
            shelf,
            input,
            part_input,
            i,
            k,
            n,
        );
        let now = shelf_after(ty, whole, exps, shelf, input, i + k);
        lemma_shelf_joins(whole, part, now, i, k, n);
        assert(part_exps[k as int] == exps[(i + k) as int]);
        assert(part_input[k as int] == input[(i + k) as int]);
        assert(part.input@[k as int] == whole.input@[(i + k) as int]);
    }
}

/// What goes out in one block goes out in its two parts, one after the other, where the second
/// starts at a sample at which the tone is taken over.
pub proof fn law_output_joins(
    ty: DistortionType,
    whole: Levels,
    part: Levels,
    exps: Seq<Single>,
    part_exps: Seq<Single>,
    shelf: ToneShelf,
    input: Seq<Single>,
    part_input: Seq<Single>,
    i: nat,
    j: nat,
)
    requires
        part.resumes(whole, i, j),
        resumes(part_exps, exps, i, j),
        resumes(part_input, input, i, j),
    ensures
        rendered(ty, whole, exps, shelf, input, i + j) == rendered(
            ty,
            whole,
            exps,
            shelf,
            input,
            i,
        ) + rendered(
            ty,
            part,
            part_exps,
            shelf_after(ty, whole, exps, shelf, input, i),
            part_input,
            j,
        ),
{
    let both = rendered(ty, whole, exps, shelf, input, i) + rendered(
        ty,
        part,
        part_exps,
        shelf_after(ty, whole, exps, shelf, input, i),
        part_input,
        j,
    );
    let all = rendered(ty, whole, exps, shelf, input, i + j);
    assert forall|m: int| 0 <= m < i + j implies #[trigger] all[m] == both[m] by {
        if m >= i {
            let k = (m - i) as nat;
            assert(m as nat == i + k);
            law_shelf_joins(
                ty,
                whole,
                part,
                exps,
                part_exps,
                shelf,
                input,
                part_input,
                i,
                k,
                j,
            );
            let now = shelf_after(ty, whole, exps, shelf, input, i + k);
            lemma_shelf_joins(whole, part, now, i, k, j);
            assert(part_exps[k as int] == exps[(i + k) as int]);
            assert(part_input[k as int] == input[(i + k) as int]);
            assert(part.input@[k as int] == whole.input@[(i + k) as int]);
            assert(part.output@[k as int] == whole.output@[(i + k) as int]);
        }
    }
    assert(all =~= both);
}

/// At a gain of one the tone control is flat: what the shelf adds of the last sample that came in,
/// it takes away of the last one that went out.
pub proof fn law_tone_flat_at_unity(shelf: ToneShelf, tan_half: Single)
    ensures
        ({
            let flat = shelf.toned(num(ONE), tan_half);
            let a0 = num(ONE).sqrt() * tan_half + num(ONE);
            &&& flat.b1 == flat.a1
            &&& flat.b0 == a0 * (num(ONE) / a0)
        }),
{
}

/// Hard clipping is odd.
pub proof fn law_hard_clip_odd(x: Single, exp: Single)
    requires
        x.is_finite(),
    ensures
        shape(x.negated(), DistortionType::HardClipping, exp) == shape(
            x,
            DistortionType::HardClipping,
            exp,
        ).negated(),
{
    lemma_constants();
    lemma_negated(x);
    lemma_compare(x, num(MINUS_HALF));
    lemma_compare(num(HALF), x);
    lemma_compare(x.negated(), num(MINUS_HALF));
    lemma_compare(num(HALF), x.negated());
    lemma_negated(num(HALF));
    lemma_negated(num(MINUS_HALF));
    lemma_same(num(HALF).negated(), num(MINUS_HALF));
    lemma_same(num(MINUS_HALF).negated(), num(HALF));
}

/// Hard clipping keeps the order of samples.
pub proof fn law_hard_clip_monotone(x: Single, y: Single, exp: Single)
    requires
        x.is_finite(),
        y.is_finite(),
        x.value() <= y.value(),
    ensures
        shape(x, DistortionType::HardClipping, exp).value() <= shape(
            y,
            DistortionType::HardClipping,
            exp,
        ).value(),
{
    lemma_constants();
    lemma_compare(x, num(MINUS_HALF));
    lemma_compare(num(HALF), x);
    lemma_compare(y, num(MINUS_HALF));
    lemma_compare(num(HALF), y);
}

/// A sample above a third, soft clipped, before it is halved.
spec fn bent(x: Single) -> Single {
    if x.gt(num(TWO_THIRDS)) {
        num(ONE)
    } else {
        let inner = num(TWO) - num(THREE) * x;
        num(ONE) - (inner * inner) / num(THREE)
    }
}

/// Three times a sample between the knees is no more than two.
proof fn lemma_tripled(x: Single)
    requires
        x.is_finite(),
        num(THIRD).value() < x.value() <= num(TWO_THIRDS).value(),
    ensures
        (num(THREE) * x).is_finite(),
        unit() < (num(THREE) * x).value() <= 2 * unit(),
        (num(TWO) - num(THREE) * x).is_finite(),
        0 <= (num(TWO) - num(THREE) * x).value() <= num(0x3f7f_fffe).value(),
{
    lemma_constants();
    lemma_knees();
    lemma2_to64();
    let f = Format::Single;
    let u = unit();
    // Three times the upper knee is rounded to two.
    assert(num(THREE) * num(TWO_THIRDS) == num(TWO)) by {
        reveal(Single::spec_mul);
        assert(0xc0_0000 * 0xaa_aaab == 0x8000_0040_0000int);
        lemma2_to64_rest();
        lemma_floor_log2(0x8000_0040_0000, 1, 47);
        assert(f.decode(THREE as int) == (Number::Finite {
            negative: false,
            mantissa: 0xc0_0000,
            exponent: -22,
        }));
        assert(f.decode(TWO_THIRDS as int) == (Number::Finite {
            negative: false,
            mantissa: 0xaa_aaab,
            exponent: -24,
        }));
        assert(power(24) == 0x100_0000 && power(-24) == 1);
        assert(nearest_even(0x8000_0040_0000, 0x100_0000) == 0x80_0000);
        assert(rounded(f, false, 0x8000_0040_0000, 1, -46) == 0x4000_0000);
    }
    // Three times the number after the lower knee is a number.
    let next = num(0x3eaa_aaac);
    let over = num(0x3f80_0001);
    lemma_constant(0x3eaa_aaac, 0x200_0000, 0xaa_aaac);
    lemma_constant(0x3f80_0001, 0x80_0000, 0x80_0001);
    lemma_constant(THIRD, 0x200_0000, 0xaa_aaab);
    lemma_constant(TWO_THIRDS, 0x100_0000, 0xaa_aaab);
    lemma_after_knee(x);
    let (v, w, m, n) = (x.value(), next.value(), num(TWO_THIRDS).value(), over.value());
    assert((3 * u) * w == n * u) by (nonlinear_arith)
        requires
            3 * w == n,
    ;
    assert(n * u <= (3 * u) * v <= (3 * u) * u) by (nonlinear_arith)
        requires
            3 * w == n,
            w <= v <= u,
            u > 0,
    ;
    lemma_mul(num(THREE), x, over, num(THREE));
    assert((3 * u) * v <= (3 * u) * m) by (nonlinear_arith)
        requires
            v <= m,
            u > 0,
    ;
    lemma_mul_monotone(num(THREE), x, num(THREE), num(TWO_THIRDS));
    let high = num(0x3f7f_fffe);
    lemma_constant(0x3f7f_fffe, 0x100_0000, 0xff_fffe);
    lemma_sub(num(TWO), num(THREE) * x, num(0), high);
}

/// The number after the lower knee is the least one above it.
proof fn lemma_after_knee(x: Single)
    requires
        x.is_finite(),
        x.value() > num(THIRD).value(),
    ensures
        x.value() >= num(0x3eaa_aaac).value(),
{
    lemma_knees();
    let f = Format::Single;
    let (negative, _, _) = lemma_parts(f, x.bits as int);
    let m = if negative { x.bits - f.sign() } else { x.bits as int };
    lemma_sign_bit(f, m);
    lemma_bits_order(f, m, THIRD as int);
    lemma_bits_order(f, 0x3eaa_aaac, m);
}

/// What a sample above a third becomes.
proof fn lemma_bent(x: Single)
    requires
        x.is_finite(),
        x.value() > num(THIRD).value(),
    ensures
        soft_clipped(x) == bent(x) * num(HALF),
        bent(x).is_finite(),
        num(TWO_THIRDS).value() <= bent(x).value() <= unit(),
        soft_clipped(x).is_finite(),
        num(THIRD).value() <= soft_clipped(x).value(),
{
    lemma_constants();
    lemma_knees();
    lemma_compare(num(TWO_THIRDS), x);
    lemma_compare(num(THIRD), x);
    let u = unit();
    if !x.gt(num(TWO_THIRDS)) {
        lemma_tripled(x);
        lemma2_to64();
        let inner = num(TWO) - num(THREE) * x;
        let top = num(0x3f7f_fffe);
        let squared = num(0x3f7f_fffd);
        let third = num(0x3eaa_aaa9);
        lemma_constant(0x3f7f_fffe, 0x100_0000, 0xff_fffe);
        lemma_constant(0x3f7f_fffd, 0x100_0000, 0xff_fffd);
        lemma_constant(0x3eaa_aaa9, 0x200_0000, 0xaa_aaa9);
        lemma_constant(TWO_THIRDS, 0x100_0000, 0xaa_aaab);
        let (v, t, s, d) = (inner.value(), top.value(), squared.value(), third.value());
        assert(0 * u <= v * v <= s * u) by (nonlinear_arith)
            requires
                0 <= v <= t,
                0x100_0000 * t == 0xff_fffe * u,
                0x100_0000 * s == 0xff_fffd * u,
                u > 0,
        ;
        lemma_mul(inner, inner, num(0), squared);
        let w = (inner * inner).value();
        assert(0 * (3 * u) <= w * u <= d * (3 * u)) by (nonlinear_arith)
            requires
                0 <= w <= s,
                s <= 3 * d,
                u > 0,
        ;
        lemma_div(inner * inner, num(THREE), num(0), third);
        lemma_sub(num(ONE), (inner * inner) / num(THREE), num(TWO_THIRDS), num(ONE));
    }
    let b = bent(x).value();
    let (h, t) = (num(HALF).value(), num(THIRD).value());
    assert(t * u <= b * h <= u * u) by (nonlinear_arith)
        requires
            2 * t <= b <= u,
            2 * h == u,
            u > 0,
    ;
    lemma_mul(bent(x), num(HALF), num(THIRD), num(ONE));
}

/// Above a third soft clipping keeps the order of samples.
proof fn lemma_bent_monotone(x: Single, y: Single)
    requires
        x.is_finite(),
        y.is_finite(),
        num(THIRD).value() < x.value() <= y.value(),
    ensures
        soft_clipped(x).value() <= soft_clipped(y).value(),
{
    lemma_constants();
    lemma_knees();
    lemma_compare(num(TWO_THIRDS), x);
    lemma_compare(num(TWO_THIRDS), y);
    lemma_bent(x);
    lemma_bent(y);
    let u = unit();
    if !y.gt(num(TWO_THIRDS)) {
        lemma_tripled(x);
        lemma_tripled(y);
        let (v, w) = (x.value(), y.value());
        assert((3 * u) * v <= (3 * u) * w) by (nonlinear_arith)
            requires
                v <= w,
                u > 0,
        ;
        lemma_mul_monotone(num(THREE), x, num(THREE), y);
        let (a, b) = (num(THREE) * x, num(THREE) * y);
        lemma_negated(a);
        lemma_negated(b);
        lemma_add_monotone(num(TWO), b.negated(), num(TWO), a.negated());
        let (i, j) = (num(TWO) - a, num(TWO) - b);
        lemma2_to64();
        lemma_constant(0x3f7f_fffe, 0x100_0000, 0xff_fffe);
        lemma_parabola(i);
        lemma_parabola(j);
        let (p, q) = (i.value(), j.value());
        assert(0 * u <= q * q && q * q <= p * p && p * p <= u * u) by (nonlinear_arith)
            requires
                0 <= q <= p <= u,
        ;
        lemma_mul(i, i, num(0), num(ONE));
        lemma_mul(j, j, num(0), num(ONE));
        lemma_mul_monotone(j, j, i, i);
        lemma_div_monotone(j * j, i * i, num(THREE));
        let (c, d) = ((i * i) / num(THREE), (j * j) / num(THREE));
        lemma_negated(c);
        lemma_negated(d);
        lemma_add_monotone(num(ONE), c.negated(), num(ONE), d.negated());
    }
    let (s, t, h) = (bent(x).value(), bent(y).value(), num(HALF).value());
    assert(s * h <= t * h) by (nonlinear_arith)
        requires
            s <= t,
            h > 0,
    ;
    lemma_mul_monotone(bent(x), num(HALF), bent(y), num(HALF));
}

/// Soft clipping is odd.
pub proof fn law_soft_clip_odd(x: Single)
    requires
        x.is_finite(),
    ensures
        soft_clipped(x.negated()) == soft_clipped(x).negated(),
    decreases if x.value() < 0 { 1nat } else { 0nat },
{
    lemma_constants();
    lemma_knees();
    lemma_negated(x);
    lemma_twice_negated(x);
    if x.value() < 0 {
        law_soft_clip_odd(x.negated());
        lemma_twice_negated(soft_clipped(x));
        lemma_twice_negated(soft_clipped(x.negated()));
    } else {
        let y = x.negated();
        lemma_compare(num(TWO_THIRDS), x);
        lemma_compare(num(THIRD), x);
        lemma_compare(x, num(TWO_THIRDS).negated());
        lemma_compare(x, num(THIRD).negated());
        lemma_compare(num(TWO_THIRDS), y);
        lemma_compare(num(THIRD), y);
        lemma_compare(y, num(TWO_THIRDS).negated());
        lemma_compare(y, num(THIRD).negated());
        lemma_negated(num(ONE));
        lemma_same(num(ONE).negated(), num(MINUS_ONE));
        if x.gt(num(TWO_THIRDS)) {
            lemma_opposite_mul(num(ONE), num(HALF));
        } else if x.gt(num(THIRD)) {
            lemma_bent(x);
            lemma_tripled(x);
            lemma_opposite_mul(num(THREE), x);
            let inner = num(TWO) - num(THREE) * x;
            assert(num(TWO) + num(THREE) * y == inner);
            lemma2_to64();
            lemma_constant(0x3f7f_fffe, 0x100_0000, 0xff_fffe);
            lemma_parabola(inner);
            let q = (inner * inner) / num(THREE);
            lemma_negated(q);
            lemma_opposite_add(num(ONE), q.negated());
            lemma_twice_negated(q);
            lemma_opposite_mul(num(ONE) - q, num(HALF));
        } else {
            lemma_within(x, num(THIRD).negated(), num(THIRD));
            lemma_within(y, num(THIRD).negated(), num(THIRD));
            law_soft_clip_linear(x);
            law_soft_clip_linear(y);
        }
    }
}

/// Soft clipping keeps the order of samples.
pub proof fn law_soft_clip_monotone(x: Single, y: Single)
    requires
        x.is_finite(),
        y.is_finite(),
        x.value() <= y.value(),
    ensures
        soft_clipped(x).value() <= soft_clipped(y).value(),
    decreases if x.value() < -num(THIRD).value() { 1nat } else { 0nat },
{
    lemma_constants();
    lemma_knees();
    let t = num(THIRD).value();
    law_soft_clip_bounded(x);
    law_soft_clip_bounded(y);
    lemma_within(soft_clipped(x), num(MINUS_HALF), num(HALF));
    lemma_within(soft_clipped(y), num(MINUS_HALF), num(HALF));
    if x.value() > t {
        lemma_bent_monotone(x, y);
    } else if x.value() >= -t {
        lemma_within(x, num(THIRD).negated(), num(THIRD));
        law_soft_clip_linear(x);
        if y.value() > t {
            lemma_bent(y);
        } else {
            lemma_within(y, num(THIRD).negated(), num(THIRD));
            law_soft_clip_linear(y);
        }
    } else {
        let z = x.negated();
        lemma_negated(x);
        law_soft_clip_odd(x);
        lemma_negated(soft_clipped(x));
        lemma_bent(z);
        if y.value() > t {
            lemma_bent(y);
        } else if y.value() >= -t {
            lemma_within(y, num(THIRD).negated(), num(THIRD));
            law_soft_clip_linear(y);
        } else {
            lemma_negated(y);
            law_soft_clip_odd(y);
            lemma_negated(soft_clipped(y));
            lemma_bent_monotone(y.negated(), z);
        }
    }
}

/// The exponential shape is odd: it takes the same exponential on either side of zero, and at zero
/// itself, where the exponential is one, it gives zero.
pub proof fn law_exponential_odd(x: Single, exp: Single)
    requires
        x.is_finite(),
        exp.is_finite(),
        x.value() == 0 ==> exp == num(ONE),
    ensures
        alike(exponent(x.negated()), exponent(x)),
        alike(
            shape(x.negated(), DistortionType::Exponential, exp),
            shape(x, DistortionType::Exponential, exp).negated(),
        ),
{
    lemma_constants();
    lemma_negated(x);
    lemma_twice_negated(x);
    lemma_compare(num(0), x);
    lemma_compare(num(0), x.negated());
    lemma_negated(num(ONE));
    lemma_negated(num(MINUS_ONE));
    lemma_same(num(ONE).negated(), num(MINUS_ONE));
    lemma_same(num(MINUS_ONE).negated(), num(ONE));
    lemma_negated(exp);
    lemma_twice_negated(exp);
    if x.value() == 0 {
        lemma_add(num(MINUS_ONE), exp, num(0), num(0));
        lemma_negated(num(MINUS_ONE) + exp);
    } else {
        lemma_opposite_add(num(ONE), exp.negated());
        lemma_opposite_add(num(MINUS_ONE), exp);
    }
}

/// The full rectifier is the half one on a sample and on the sample turned round, added up.
pub proof fn law_full_rectifier_is_both_halves(x: Single, exp: Single)
    requires
        x.is_finite(),
    ensures
        alike(
            shape(x, DistortionType::FullWaveRectifier, exp),
            shape(x, DistortionType::HalfWaveRectifier, exp) + shape(
                x.negated(),
                DistortionType::HalfWaveRectifier,
                exp,
            ),
        ),
{
    lemma_constants();
    lemma_abs(x);
    lemma_negated(x);
    lemma_finite_number(x);
    lemma_finite_number(x.negated());
    lemma_compare(x, num(0));
    lemma_compare(x.negated(), num(0));
    let (a, b) = (x.max(num(0)), x.negated().max(num(0)));
    lemma_add(a, b, x.abs(), x.abs());
    if x.value() != 0 {
        lemma_same(a + b, x.abs());
    }
}

/// The exponential shape keeps the order of samples, as long as the exponentials keep that of their
/// exponents.
pub proof fn law_exponential_monotone(x: Single, y: Single, exp_x: Single, exp_y: Single)
    requires
        x.is_finite(),
        y.is_finite(),
        x.value() <= y.value(),
        within(exp_x, num(0), num(ONE)),
        within(exp_y, num(0), num(ONE)),
        exponent(x).value() <= exponent(y).value() ==> exp_x.value() <= exp_y.value(),
        exponent(y).value() <= exponent(x).value() ==> exp_y.value() <= exp_x.value(),
    ensures
        shape(x, DistortionType::Exponential, exp_x).value() <= shape(
            y,
            DistortionType::Exponential,
            exp_y,
        ).value(),
{
    lemma_constants();
    lemma_negated(x);
    lemma_negated(y);
    lemma_compare(num(0), x);
    lemma_compare(num(0), y);
    lemma_within(exp_x, num(0), num(ONE));
    lemma_within(exp_y, num(0), num(ONE));
    lemma_negated(exp_x);
    lemma_negated(exp_y);
    lemma_sub(num(ONE), exp_x, num(0), num(ONE));
    lemma_sub(num(ONE), exp_y, num(0), num(ONE));
    lemma_add(num(MINUS_ONE), exp_x, num(MINUS_ONE), num(0));
    lemma_add(num(MINUS_ONE), exp_y, num(MINUS_ONE), num(0));
    if x.gt(num(0)) {
        lemma_add_monotone(num(ONE), exp_x.negated(), num(ONE), exp_y.negated());
    } else if !y.gt(num(0)) {
        lemma_add_monotone(num(MINUS_ONE), exp_x, num(MINUS_ONE), exp_y);
    }
}

} // verus!
