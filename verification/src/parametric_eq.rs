//! Parametric equalizer: one band of a selectable filter, first-order for the passes and the
//! shelves, second-order for the band filters and the peak.
use crate::audio::{lesser, AudioBuffer};
use crate::biquad::{
    band_pass, filter_angles, flat, gain_exponent, peaking, Biquad, FilterAngles, FilterTrig, Shape,
    WIDE_MINUS_ONE, WIDE_MINUS_TWO, WIDE_ONE, WIDE_TWO,
};
use crate::complement::{
    audible, complement, law_complements_add_up, law_complements_step,
    law_second_order_complements_add_up, lemma_coefficient, lemma_reciprocal, square,
};
use crate::float::double::{law_add_commutes, lemma_times_one, lemma_zero_plus, wide, Double};
use crate::float::encoding::Format;
use crate::float::facts::size;
use crate::float::order::{
    lemma_product_between, lemma_representable, lemma_sign_bit, lemma_sum_between,
};
use crate::float::single::Single;
use crate::float::wide::{
    lemma_wide_add, lemma_wide_constants, lemma_wide_mul, lemma_wide_negated, lemma_wide_sub,
    lemma_wide_top, wide_unit,
};
use vstd::arithmetic::power2::{
    lemma2_to64, lemma2_to64_rest, lemma_pow2_adds, lemma_pow2_strictly_increases, pow2,
};
use vstd::prelude::*;

verus! {

/// The sample rate before the first reset, 44100.
pub const DEFAULT_RATE: u64 = 0x40e5_8880_0000_0000;

/// The least change of a control that the filter follows, 0.000001.
pub const LEAST_CHANGE: u64 = 0x3eb0_c6f7_a0b5_ed8d;

/// Not a number.
pub const UNSET: u64 = 0x7ff8_0000_0000_0000;

#[derive(Clone, Copy, PartialEq, Eq, Structural, Debug)]
pub enum FilterType {
    LowPass,
    HighPass,
    LowShelf,
    HighShelf,
    BandPass,
    BandStop,
    Peaking,
}

impl FilterType {
    pub open spec fn index_spec(self) -> i32 {
        match self {
            FilterType::LowPass => 0,
            FilterType::HighPass => 1,
            FilterType::LowShelf => 2,
            FilterType::HighShelf => 3,
            FilterType::BandPass => 4,
            FilterType::BandStop => 5,
            FilterType::Peaking => 6,
        }
    }

    /// The place of the type in the list of types.
    #[verifier::when_used_as_spec(index_spec)]
    pub fn index(self) -> (r: i32)
        ensures
            r == self.index_spec(),
            0 <= r < 7,
    {
        match self {
            FilterType::LowPass => 0,
            FilterType::HighPass => 1,
            FilterType::LowShelf => 2,
            FilterType::HighShelf => 3,
            FilterType::BandPass => 4,
            FilterType::BandStop => 5,
            FilterType::Peaking => 6,
        }
    }
}

/// What the controls say at the start of a block.
#[derive(Clone, Copy, PartialEq, Eq, Structural)]
pub struct ParametricEqParams {
    pub frequency: Single,
    pub q: Single,
    pub gain: Single,
    pub filter_type: FilterType,
}

pub open spec fn shape_spec(ty: FilterType, trig: FilterTrig) -> Shape {
    let t = trig.tan_half_centre;
    let g = trig.gain;
    let root = g.sqrt();
    let two_cos = wide(WIDE_MINUS_TWO) * trig.cos_centre;
    match ty {
        FilterType::LowPass => Shape {
            b0: t,
            b1: t,
            b2: wide(0),
            a0: t + wide(WIDE_ONE),
            a1: t - wide(WIDE_ONE),
            a2: wide(0),
        },
        FilterType::HighPass => Shape {
            b0: wide(WIDE_ONE),
            b1: wide(WIDE_MINUS_ONE),
            b2: wide(0),
            a0: t + wide(WIDE_ONE),
            a1: t - wide(WIDE_ONE),
            a2: wide(0),
        },
        FilterType::LowShelf => Shape {
            b0: g * t + root,
            b1: g * t - root,
            b2: wide(0),
            a0: t + root,
            a1: t - root,
            a2: wide(0),
        },
        FilterType::HighShelf => Shape {
            b0: root * t + g,
            b1: root * t - g,
            b2: wide(0),
            a0: root * t + wide(WIDE_ONE),
            a1: root * t - wide(WIDE_ONE),
            a2: wide(0),
        },
        FilterType::BandPass => band_pass(trig),
        FilterType::BandStop => Shape {
            b0: wide(WIDE_ONE),
            b1: two_cos,
            b2: wide(WIDE_ONE),
            a0: wide(WIDE_ONE) + trig.tan_half_bandwidth,
            a1: two_cos,
            a2: wide(WIDE_ONE) - trig.tan_half_bandwidth,
        },
        FilterType::Peaking => peaking(trig),
    }
}

/// The shape of each filter type.
#[verifier::when_used_as_spec(shape_spec)]
pub fn shape(ty: FilterType, trig: FilterTrig) -> (r: Shape)
    ensures
        r == shape_spec(ty, trig),
{
    let t = trig.tan_half_centre;
    let g = trig.gain;
    let root = g.sqrt();
    let two_cos = wide(WIDE_MINUS_TWO) * trig.cos_centre;
    match ty {
        FilterType::LowPass => Shape {
            b0: t,
            b1: t,
            b2: wide(0),
            a0: t + wide(WIDE_ONE),
            a1: t - wide(WIDE_ONE),
            a2: wide(0),
        },
        FilterType::HighPass => Shape {
            b0: wide(WIDE_ONE),
            b1: wide(WIDE_MINUS_ONE),
            b2: wide(0),
            a0: t + wide(WIDE_ONE),
            a1: t - wide(WIDE_ONE),
            a2: wide(0),
        },
        FilterType::LowShelf => Shape {
            b0: g * t + root,
            b1: g * t - root,
            b2: wide(0),
            a0: t + root,
            a1: t - root,
            a2: wide(0),
        },
        FilterType::HighShelf => Shape {
            b0: root * t + g,
            b1: root * t - g,
            b2: wide(0),
            a0: root * t + wide(WIDE_ONE),
            a1: root * t - wide(WIDE_ONE),
            a2: wide(0),
        },
        FilterType::BandPass => band_pass(trig),
        FilterType::BandStop => Shape {
            b0: wide(WIDE_ONE),
            b1: two_cos,
            b2: wide(WIDE_ONE),
            a0: wide(WIDE_ONE) + trig.tan_half_bandwidth,
            a1: two_cos,
            a2: wide(WIDE_ONE) - trig.tan_half_bandwidth,
        },
        FilterType::Peaking => peaking(trig),
    }
}

/// Gives a filter the shape of a type.
pub fn update(filter: &mut Biquad, ty: FilterType, trig: FilterTrig)
    ensures
        *final(filter) == old(filter).shaped(shape(ty, trig)),
{
    filter.set(shape(ty, trig));
}

pub open spec fn moved_spec(now: Double, last: Double) -> bool {
    last.is_nan() || (now - last).abs().gt(wide(LEAST_CHANGE))
}

/// Whether a control has moved by more than the least change. Against a last value that is not a
/// number, which stands for none, it always has.
#[verifier::when_used_as_spec(moved_spec)]
pub fn moved(now: Double, last: Double) -> (r: bool)
    ensures
        r == moved_spec(now, last),
{
    last.is_nan() || (now - last).abs().gt(wide(LEAST_CHANGE))
}

pub struct ParametricEq {
    pub sample_rate: Double,
    pub filters: Vec<Biquad>,
    pub last_freq: Double,
    pub last_q: Double,
    pub last_gain_db: Double,
    pub last_type: i32,
}

impl ParametricEq {
    /// There is a filter for each of two channels.
    pub open spec fn wf(self) -> bool {
        self.filters@.len() == 2
    }

    /// Whether the controls ask for other coefficients than those that were last set.
    pub open spec fn changed_spec(&self, params: ParametricEqParams) -> bool {
        moved(params.frequency.widen(), self.last_freq) || moved(params.q.widen(), self.last_q)
            || moved(params.gain.widen(), self.last_gain_db) || params.filter_type.index()
            != self.last_type
    }

    /// The filter that a channel goes through a block with.
    pub open spec fn filter_for(
        self,
        params: ParametricEqParams,
        trig: FilterTrig,
        ch: int,
    ) -> Biquad {
        if self.changed_spec(params) {
            self.filters@[ch].shaped(shape(params.filter_type, trig))
        } else {
            self.filters@[ch]
        }
    }

    /// Before the first block: no control has been seen yet.
    pub fn new() -> (r: ParametricEq)
        ensures
            r.wf(),
            r.sample_rate == wide(DEFAULT_RATE),
            r.filters@ == seq![flat(), flat()],
            r.last_freq == wide(UNSET),
            r.last_q == wide(UNSET),
            r.last_gain_db == wide(UNSET),
            r.last_type == i32::MIN,
    {
        let mut filters: Vec<Biquad> = Vec::new();
        filters.push(Biquad::default());
        filters.push(Biquad::default());
        ParametricEq {
            sample_rate: wide(DEFAULT_RATE),
            filters,
            last_freq: wide(UNSET),
            last_q: wide(UNSET),
            last_gain_db: wide(UNSET),
            last_type: i32::MIN,
        }
    }

    /// Forgets the samples that the filters have seen and the frequency that was last set, so that
    /// the next block sets the coefficients anew, whatever its controls.
    pub fn reset(&mut self, sample_rate: Double)
        requires
            old(self).wf(),
        ensures
            final(self).wf(),
            final(self).sample_rate == sample_rate,
            final(self).filters@ == seq![
                old(self).filters@[0].cleared(),
                old(self).filters@[1].cleared(),
            ],
            final(self).last_freq == wide(UNSET),
            final(self).last_q == old(self).last_q,
            final(self).last_gain_db == old(self).last_gain_db,
            final(self).last_type == old(self).last_type,
            forall|params: ParametricEqParams, trig: FilterTrig, ch: int| #[trigger]
                final(self).filter_for(params, trig, ch) == final(self).filters@[ch].shaped(
                    shape(params.filter_type, trig),
                ),
    {
        proof {
            lemma_unset();
        }
        self.sample_rate = sample_rate;
        let mut f0 = self.filters[0];
        let mut f1 = self.filters[1];
        f0.reset();
        f1.reset();
        self.filters[0] = f0;
        self.filters[1] = f1;
        self.last_freq = wide(UNSET);
    }

    /// Whether the controls ask for other coefficients than those that were last set.
    #[verifier::when_used_as_spec(changed_spec)]
    pub fn changed(&self, params: ParametricEqParams) -> (r: bool)
        ensures
            r == self.changed_spec(params),
    {
        moved(params.frequency.widen(), self.last_freq) || moved(params.q.widen(), self.last_q)
            || moved(params.gain.widen(), self.last_gain_db) || params.filter_type.index()
            != self.last_type
    }

    /// The angles whose cosine and tangents, and the exponent whose power of ten, `process` needs
    /// where the controls have changed.
    pub fn arguments(&self, params: ParametricEqParams) -> (r: (FilterAngles, Double))
        ensures
            r.0 == filter_angles(params.frequency.widen(), params.q.widen(), self.sample_rate),
            r.1 == gain_exponent(params.gain.widen()),
    {
        (
            filter_angles(params.frequency.widen(), params.q.widen(), self.sample_rate),
            gain_exponent(params.gain.widen()),
        )
    }

    /// Works on one block. The coefficients are set once, at its start, where the controls have
    /// changed or nothing was set since the last reset.
    pub fn process(
        &mut self,
        params: ParametricEqParams,
        trig: FilterTrig,
        buffer: &mut AudioBuffer,
    )
        requires
            old(self).wf(),
            old(buffer).wf(),
        ensures
            final(self).wf(),
            final(self).sample_rate == old(self).sample_rate,
            old(self).changed(params) ==> final(self).last_freq == params.frequency.widen()
                && final(self).last_q == params.q.widen() && final(self).last_gain_db
                == params.gain.widen() && final(self).last_type == params.filter_type.index(),
            !old(self).changed(params) ==> {
                &&& final(self).last_freq == old(self).last_freq
                &&& final(self).last_q == old(self).last_q
                &&& final(self).last_gain_db == old(self).last_gain_db
                &&& final(self).last_type == old(self).last_type
            },
            final(buffer).rewritten(
                *old(buffer),
                lesser(old(buffer).input@.len() as usize, 2) as int,
            ),
            forall|ch: int|
                0 <= ch < 2 ==> #[trigger] final(self).filters@[ch] == (if ch < old(
                    buffer).input@.len() {
                    old(self).filter_for(params, trig, ch).after(
                        old(buffer).incoming(ch),
                        old(buffer).samples as nat,
                    )
                } else {
                    old(self).filter_for(params, trig, ch)
                }),
            forall|ch: int|
                0 <= ch < 2 && ch < old(buffer).input@.len() ==> (#[trigger] final(
                    buffer).output@[ch])@ == old(self).filter_for(params, trig, ch).filtered(
                    old(buffer).incoming(ch),
                    old(buffer).samples as nat,
                ),
    {
        let ghost start = *self;
        let ghost before = *buffer;
        if self.changed(params) {
            let mut f0 = self.filters[0];
            let mut f1 = self.filters[1];
            update(&mut f0, params.filter_type, trig);
            update(&mut f1, params.filter_type, trig);
            self.filters[0] = f0;
            self.filters[1] = f1;
            self.last_freq = params.frequency.widen();
            self.last_q = params.q.widen();
            self.last_gain_db = params.gain.widen();
            self.last_type = params.filter_type.index();
        }
        let ghost ready = *self;
        let active = lesser(buffer.channels(), 2);
        let mut ch: usize = 0;
        while ch < active
            invariant
                ch <= active,
                active == lesser(before.input@.len() as usize, 2),
                before.input@.len() <= usize::MAX,
                before.wf(),
                self.filters@.len() == 2,
                *self == (ParametricEq { filters: self.filters, ..ready }),
                forall|c: int|
                    0 <= c < 2 ==> #[trigger] ready.filters@[c] == start.filter_for(
                        params,
                        trig,
                        c,
                    ),
                buffer.rewritten(before, active as int),
                forall|c: int|
                    0 <= c < 2 ==> #[trigger] self.filters@[c] == (if c < ch {
                        ready.filters@[c].after(before.incoming(c), before.samples as nat)
                    } else {
                        ready.filters@[c]
                    }),
                forall|c: int|
                    0 <= c < ch ==> (#[trigger] buffer.output@[c])@
                        == ready.filters@[c].filtered(before.incoming(c), before.samples as nat),
            decreases active - ch,
        {
            let mut filter = self.filters[ch];
            filter.run(&buffer.input[ch], &mut buffer.output[ch]);
            self.filters[ch] = filter;
            ch = ch + 1;
        }
    }
}

/// What stands for no value is not a number.
proof fn lemma_unset()
    ensures
        wide(UNSET).is_nan(),
{
    reveal(Double::is_nan_spec);
}

/// A block after a reset is that of a fresh equaliser: whatever was set before, the coefficients
/// are those of the controls, and no sample from before is left.
pub proof fn law_reset_is_fresh(
    eq: ParametricEq,
    fresh: ParametricEq,
    params: ParametricEqParams,
    trig: FilterTrig,
    ch: int,
    input: Seq<Single>,
    n: nat,
)
    requires
        eq.last_freq == wide(UNSET),
        fresh.last_freq == wide(UNSET),
        eq.filters@[ch] == eq.filters@[ch].cleared(),
        fresh.filters@[ch] == fresh.filters@[ch].cleared(),
    ensures
        eq.changed(params),
        eq.filter_for(params, trig, ch) == fresh.filter_for(params, trig, ch),
        eq.filter_for(params, trig, ch).filtered(input, n) == fresh.filter_for(
            params,
            trig,
            ch,
        ).filtered(input, n),
{
    lemma_unset();
}

/// At 0 dB the shelves and the peak have the same coefficients on both sides, and so leave the
/// signal flat.
pub proof fn law_flat_at_unity(ty: FilterType, trig: FilterTrig)
    requires
        ty is LowShelf || ty is HighShelf || ty is Peaking,
        trig.gain == wide(WIDE_ONE),
        !trig.tan_half_centre.is_nan(),
        !trig.tan_half_bandwidth.is_nan(),
    ensures
        shape(ty, trig).b0 == shape(ty, trig).a0,
        shape(ty, trig).b1 == shape(ty, trig).a1,
        shape(ty, trig).b2 == shape(ty, trig).a2,
{
    lemma_times_one(trig.tan_half_centre);
    lemma_times_one(trig.tan_half_bandwidth);
}

/// The coefficients of the low pass and of the high pass add up to those of the input left as it
/// is: the same on both sides.
pub proof fn law_passes_complement(trig: FilterTrig)
    ensures
        ({
            let (low, high) = (shape(FilterType::LowPass, trig), shape(FilterType::HighPass, trig));
            &&& low.a0 == high.a0 && low.a1 == high.a1 && low.a2 == high.a2
            &&& low.b0 + high.b0 == low.a0
            &&& low.b1 + high.b1 == low.a1
            &&& low.b2 + high.b2 == low.a2
        }),
{
    assert(wide(WIDE_ONE).negated() == wide(WIDE_MINUS_ONE)) by {
        reveal(Double::negated_spec);
    }
    assert(!wide(0).is_nan()) by {
        reveal(Double::is_nan_spec);
    }
    lemma_zero_plus(wide(0));
}

/// The coefficients of the band pass and of the band stop add up to those of the input left as it
/// is: the same on both sides, the sign of a zero aside.
pub proof fn law_bands_complement(trig: FilterTrig)
    requires
        !(wide(WIDE_MINUS_TWO) * trig.cos_centre).is_nan(),
    ensures
        ({
            let (pass, stop) = (
                shape(FilterType::BandPass, trig),
                shape(FilterType::BandStop, trig),
            );
            &&& pass.a0 == stop.a0 && pass.a1 == stop.a1 && pass.a2 == stop.a2
            &&& pass.b0 + stop.b0 == pass.a0
            &&& pass.b1 + stop.b1 == pass.a1 || pass.a1.bits == 0x8000_0000_0000_0000
            &&& pass.b2 + stop.b2 == pass.a2
        }),
{
    let t = trig.tan_half_bandwidth;
    law_add_commutes(wide(WIDE_ONE), t);
    law_add_commutes(wide(WIDE_ONE), t.negated());
    let two_cos = wide(WIDE_MINUS_TWO) * trig.cos_centre;
    if two_cos.bits != 0x8000_0000_0000_0000 {
        lemma_zero_plus(two_cos);
    }
}

/// The low pass and the high pass complement each other at every tangent from 0 to 2^29.
pub proof fn law_passes_are_complements(trig: FilterTrig)
    requires
        trig.tan_half_centre.is_finite(),
        0 <= trig.tan_half_centre.value() <= 0x2000_0000 * wide_unit(),
    ensures
        complement(shape(FilterType::LowPass, trig), shape(FilterType::HighPass, trig)),
{
    lemma_wide_constants();
    law_passes_complement(trig);
    let t = trig.tan_half_centre;
    law_add_commutes(t, wide(WIDE_ONE));
    lemma_divisor(t);
    lemma_rest(t);
    lemma_wide_negated(t - wide(WIDE_ONE));
}

/// The band pass and the band stop complement each other at every tangent from 0 to 2^29.
pub proof fn law_bands_are_complements(trig: FilterTrig)
    requires
        trig.tan_half_bandwidth.is_finite(),
        0 <= trig.tan_half_bandwidth.value() <= 0x2000_0000 * wide_unit(),
        trig.cos_centre.is_finite(),
        size(trig.cos_centre.value()) <= wide_unit(),
    ensures
        complement(shape(FilterType::BandPass, trig), shape(FilterType::BandStop, trig)),
{
    lemma_wide_constants();
    let t = trig.tan_half_bandwidth;
    lemma_divisor(t);
    lemma_rest(t);
    lemma_wide_negated(t);
    law_add_commutes(wide(WIDE_ONE), t);
    law_add_commutes(wide(WIDE_ONE), t.negated());
    lemma_two_cos(trig.cos_centre);
}

/// Twice a cosine, turned round.
proof fn lemma_two_cos(cosine: Double)
    requires
        cosine.is_finite(),
        size(cosine.value()) <= wide_unit(),
    ensures
        (wide(WIDE_MINUS_TWO) * cosine).is_finite(),
        size((wide(WIDE_MINUS_TWO) * cosine).value()) <= 2 * wide_unit(),
        (wide(0) + wide(WIDE_MINUS_TWO) * cosine).value() == (wide(WIDE_MINUS_TWO)
            * cosine).value(),
{
    lemma_wide_constants();
    let (u, c) = (wide_unit(), cosine.value());
    let two_cos = wide(WIDE_MINUS_TWO) * cosine;
    lemma_twos();
    assert((-2 * u) * u <= (-2 * u) * c <= (2 * u) * u) by (nonlinear_arith)
        requires
            -u <= c <= u,
            u > 0,
    ;
    assert(two_cos.is_finite() && size(two_cos.value()) <= 2 * u) by {
        reveal(Double::spec_mul);
        lemma_product_between(
            Format::Double,
            WIDE_MINUS_TWO as int,
            cosine.bits as int,
            WIDE_MINUS_TWO as int,
            WIDE_TWO as int,
        );
    }
    reveal(Double::spec_add);
    let bits = two_cos.bits as int;
    lemma_sum_between(Format::Double, 0, bits, bits, bits);
}

/// What the shapes divide by.
proof fn lemma_divisor(t: Double)
    requires
        t.is_finite(),
        0 <= t.value() <= 0x2000_0000 * wide_unit(),
    ensures
        (wide(WIDE_ONE) + t).is_finite(),
        wide_unit() <= (wide(WIDE_ONE) + t).value() <= 0x4000_0000 * wide_unit(),
        0x10_0000_0000_0000 * size((wide(WIDE_ONE) + t).value() - (wide_unit() + t.value()))
            <= wide_unit() + t.value(),
{
    lemma_wide_constants();
    let f = Format::Double;
    let top = lemma_representable(f, 1, 30);
    lemma2_to64();
    lemma_pow2_adds(30, 1074);
    lemma_wide_add(wide(WIDE_ONE), t, wide(top as u64));
    reveal(Double::spec_add);
    lemma_sum_between(f, WIDE_ONE as int, t.bits as int, WIDE_ONE as int, top);
}

/// How far a tangent is from one.
proof fn lemma_rest(t: Double)
    requires
        t.is_finite(),
        0 <= t.value() <= 0x2000_0000 * wide_unit(),
    ensures
        (wide(WIDE_ONE) - t).is_finite(),
        0x10_0000_0000_0000 * size((wide(WIDE_ONE) - t).value() - (wide_unit() - t.value()))
            <= wide_unit() + t.value(),
        (t - wide(WIDE_ONE)).is_finite(),
        0x10_0000_0000_0000 * size((t - wide(WIDE_ONE)).value() - (t.value() - wide_unit()))
            <= wide_unit() + t.value(),
{
    lemma_wide_constants();
    let top = lemma_representable(Format::Double, 1, 30);
    lemma2_to64();
    lemma_pow2_adds(30, 1074);
    lemma_wide_sub(wide(WIDE_ONE), t, wide(top as u64));
    lemma_wide_sub(t, wide(WIDE_ONE), wide(top as u64));
}

/// Two, on either side.
pub proof fn lemma_twos()
    ensures
        wide(WIDE_TWO).is_finite(),
        wide(WIDE_TWO).value() == 2 * wide_unit(),
        wide(WIDE_MINUS_TWO).is_finite(),
        wide(WIDE_MINUS_TWO).value() == -2 * wide_unit(),
{
    lemma_wide_constants();
    lemma2_to64();
    lemma2_to64_rest();
    lemma_pow2_adds(52, 1023);
    lemma_pow2_adds(1, 1074);
    lemma_sign_bit(Format::Double, 0x4000_0000_0000_0000);
}

/// The feedback of the first-order filters does not amplify.
proof fn lemma_feedback(t: Double)
    requires
        t.is_finite(),
        wide_unit() <= 0x40_0000 * t.value(),
        t.value() <= 0x10_0000 * wide_unit(),
    ensures
        size(((t - wide(WIDE_ONE)) * (wide(WIDE_ONE) / (t + wide(WIDE_ONE)))).value())
            <= wide_unit(),
{
    lemma_wide_constants();
    law_add_commutes(t, wide(WIDE_ONE));
    lemma_divisor(t);
    lemma_rest(t);
    let a0 = t + wide(WIDE_ONE);
    let rest = t - wide(WIDE_ONE);
    let inv = lemma_reciprocal(a0);
    let (u, v) = (wide_unit(), t.value());
    let (a, b, i) = (a0.value(), rest.value(), inv.value());
    // The rest is smaller than the divisor by a part that rounding does not make up for.
    assert(0x40_0000 * (v + u - size(v - u)) >= v + u);
    assert(0x100_0000 * size(b) <= 0xff_ffff * a);
    let (w, p) = (u * u, i * a);
    assert(0x10_0000_0000_0000 * p <= 0x10_0000_0000_0002 * w && p > 0) by {
        assert(w > 0) by (nonlinear_arith)
            requires
                w == u * u,
                u > 0,
        ;
    }
    assert(i > 0) by (nonlinear_arith)
        requires
            i * a > 0,
            a > 0,
    ;
    assert(0x100_0000 * size(b * i) <= 0xff_ffff * (i * a)) by (nonlinear_arith)
        requires
            0x100_0000 * size(b) <= 0xff_ffff * a,
            i > 0,
    ;
    assert(size(b * i) <= w);
    assert((-u) * u == -w) by (nonlinear_arith)
        requires
            w == u * u,
    ;
    reveal(Double::spec_mul);
    lemma_product_between(
        Format::Double,
        rest.bits as int,
        inv.bits as int,
        WIDE_MINUS_ONE as int,
        WIDE_ONE as int,
    );
}

/// What the low pass and the high pass make of a block adds up to it: sample `i` is off by no more
/// than `230 * (i + 1)` parts in 2^52 of the loudest sample. The tangent lies between 2^-22 and
/// 2^20, as it does for every frequency that the filters take.
pub proof fn law_passes_add_up(
    trig: FilterTrig,
    low: Biquad,
    high: Biquad,
    input: Seq<Single>,
    m: int,
    i: nat,
)
    requires
        trig.tan_half_centre.is_finite(),
        wide_unit() <= 0x40_0000 * trig.tan_half_centre.value(),
        trig.tan_half_centre.value() <= 0x10_0000 * wide_unit(),
        low == low.shaped(shape(FilterType::LowPass, trig)).cleared(),
        high == high.shaped(shape(FilterType::HighPass, trig)).cleared(),
        audible(m),
        forall|k: nat|
            k <= i ==> (#[trigger] low.after(input, k)).bounded(m) && high.after(
                input,
                k,
            ).bounded(m),
        forall|k: int|
            0 <= k <= i ==> (#[trigger] input[k]).widen().is_finite() && size(
                input[k].widen().value(),
            ) <= m,
    ensures
        ({
            let x = input[i as int].widen();
            0x10_0000_0000_0000 * size(
                low.after(input, i).response(x).value() + high.after(input, i).response(x).value()
                    - x.value(),
            ) <= 230 * (m * (i + 1))
        }),
{
    lemma_wide_constants();
    law_passes_are_complements(trig);
    lemma_feedback(trig.tan_half_centre);
    law_complements_add_up(
        low,
        high,
        shape(FilterType::LowPass, trig),
        shape(FilterType::HighPass, trig),
        input,
        m,
        i,
    );
}

/// What the band pass and the band stop make of a sample adds up to it: off by what their last sums
/// were off, as the feedback carries it on, and by no more than 230 parts in 2^52 of the loudest
/// sample.
pub proof fn law_bands_step(trig: FilterTrig, pass: Biquad, stop: Biquad, x: Double, m: int)
    requires
        trig.tan_half_bandwidth.is_finite(),
        0 <= trig.tan_half_bandwidth.value() <= 0x2000_0000 * wide_unit(),
        trig.cos_centre.is_finite(),
        size(trig.cos_centre.value()) <= wide_unit(),
        pass == pass.shaped(shape(FilterType::BandPass, trig)),
        stop == stop.shaped(shape(FilterType::BandStop, trig)),
        pass.x1 == stop.x1,
        pass.x2 == stop.x2,
        audible(m),
        pass.bounded(m),
        stop.bounded(m),
        x.is_finite(),
        size(x.value()) <= m,
    ensures
        pass.response(x).is_finite(),
        stop.response(x).is_finite(),
        ({
            let off = pass.response(x).value() + stop.response(x).value() - x.value();
            let off1 = pass.y1.value() + stop.y1.value() - pass.x1.value();
            let off2 = pass.y2.value() + stop.y2.value() - pass.x2.value();
            0x10_0000_0000_0000 * size(
                off * wide_unit() + pass.a1.value() * off1 + pass.a2.value() * off2,
            ) <= 230 * (m * wide_unit())
        }),
{
    law_bands_are_complements(trig);
    law_complements_step(
        pass,
        stop,
        shape(FilterType::BandPass, trig),
        shape(FilterType::BandStop, trig),
        x,
        m,
    );
}


/// The feedback of the band filters before it is rounded a second time: `i` is the reciprocal, `a`
/// the divisor, `b` and `k` the second and the first coefficient of the feedback before they are
/// divided, `t` the tangent and `g` the cosine without its sign.
proof fn lemma_band_margin(u: int, t: int, g: int, a: int, b: int, k: int, i: int)
    requires
        u >= 0x8000_0000_0000_0000_0000_0000_0000_0000,
        t >= 0,
        0 <= g < u,
        0 <= k,
        u <= a <= 0x4000_0000 * u,
        0x10_0000_0000_0000 * size(a - (u + t)) <= u + t,
        0x10_0000_0000_0000 * size(b - (u - t)) <= u + t,
        0x10_0000_0000_0000 * k <= 0x20_0000_0000_0002 * g + 0x10_0000_0000_0001,
        0x10_0000_0000_0000 * t >= 4 * (u + t),
        0x10_0000_0000_0000 * (u - g) >= 64 * (u + t),
        0x10_0000_0000_0000 * size(i * a - u * u) <= 2 * (u * u),
    ensures
        i > 0,
        b * i <= u * u,
        0x10_0000_0000_0000 * (i * (u - g)) + 8 * (u * u) <= 0x10_0000_0000_0000 * (u * u + b * i
            - k * i),
        0x10_0000_0000_0000 * (u * u + b * i) + 4 * (u * u) <= 0x30_0000_0000_0000 * (i * u),
{
    let (w, s, d) = (u * u, u + t, u - g);
    let ia = i * a;
    assert(w > 0) by (nonlinear_arith)
        requires
            w == u * u,
            u > 0,
    ;
    assert(i > 0) by (nonlinear_arith)
        requires
            ia == i * a,
            ia > 0,
            a > 0,
    ;
    let (is, ib, ik, id, iu) = (i * s, i * b, i * k, i * d, i * u);
    assert(b * i == ib && k * i == ik) by (nonlinear_arith)
        requires
            ib == i * b,
            ik == i * k,
    ;
    assert(0x10_0000_0000_0000 * ia <= 0x10_0000_0000_0001 * is) by (nonlinear_arith)
        requires
            0x10_0000_0000_0000 * a <= 0x10_0000_0000_0001 * s,
            ia == i * a,
            is == i * s,
            i > 0,
    ;
    assert(2 * is >= w);
    assert(0x10_0000_0000_0000 * ia - 0x10_0000_0000_0000 * ib >= 6 * is) by (nonlinear_arith)
        requires
            0x10_0000_0000_0000 * a - 0x10_0000_0000_0000 * b >= 6 * s,
            ia == i * a,
            ib == i * b,
            is == i * s,
            i > 0,
    ;
    assert(0x10_0000_0000_0000 * (a + b - k) >= 0x20_0000_0000_0000 * d - 5 * s);
    assert(0x10_0000_0000_0000 * (ia + ib - ik) >= 0x20_0000_0000_0000 * id - 5 * is)
        by (nonlinear_arith)
        requires
            0x10_0000_0000_0000 * (a + b - k) >= 0x20_0000_0000_0000 * d - 5 * s,
            ia == i * a,
            ib == i * b,
            ik == i * k,
            id == i * d,
            is == i * s,
            i > 0,
    ;
    assert(0x10_0000_0000_0000 * id >= 64 * is) by (nonlinear_arith)
        requires
            0x10_0000_0000_0000 * d >= 64 * s,
            id == i * d,
            is == i * s,
            i > 0,
    ;
    assert(0x10_0000_0000_0000 * (ia + ib) <= 0x20_0000_0000_0000 * iu + 2 * is)
        by (nonlinear_arith)
        requires
            0x10_0000_0000_0000 * (a + b) <= 0x20_0000_0000_0000 * u + 2 * s,
            ia == i * a,
            ib == i * b,
            iu == i * u,
            is == i * s,
            i > 0,
    ;
    assert(is <= 0x8000_0000 * iu) by (nonlinear_arith)
        requires
            s <= 0x8000_0000 * u,
            iu == i * u,
            is == i * s,
            i > 0,
    ;
}

/// The feedback of the band filters does not amplify, and by how much it stays below that.
proof fn lemma_band_feedback(trig: FilterTrig, inv: Double)
    requires
        trig.tan_half_bandwidth.is_finite(),
        0 <= trig.tan_half_bandwidth.value() <= 0x2000_0000 * wide_unit(),
        0x10_0000_0000_0000 * trig.tan_half_bandwidth.value() >= 4 * (wide_unit()
            + trig.tan_half_bandwidth.value()),
        trig.cos_centre.is_finite(),
        0x10_0000_0000_0000 * (wide_unit() - size(trig.cos_centre.value())) >= 64 * (wide_unit()
            + trig.tan_half_bandwidth.value()),
        inv == wide(WIDE_ONE) / shape(FilterType::BandPass, trig).a0,
    ensures
        ({
            let s = shape(FilterType::BandPass, trig);
            let (a1, p) = ((s.a1 * inv).value(), wide_unit() + (s.a2 * inv).value());
            &&& inv.value() > 0
            &&& (s.a2 * inv).value() <= wide_unit()
            &&& (wide_unit() - size(trig.cos_centre.value())) * inv.value() <= (p - size(a1))
                * wide_unit()
            &&& p <= 3 * inv.value()
        }),
{
    lemma_wide_constants();
    let u = wide_unit();
    let (t, c) = (trig.tan_half_bandwidth, trig.cos_centre);
    let (a0, a1, a2) = (
        wide(WIDE_ONE) + t,
        wide(WIDE_MINUS_TWO) * c,
        wide(WIDE_ONE) - t,
    );
    lemma_divisor(t);
    lemma_rest(t);
    lemma_two_cos(c);
    lemma_two_cos_close(c);
    lemma_reciprocal(a0);
    let i = inv.value();
    law_bands_are_complements(trig);
    lemma_coefficient(a1, a0, inv);
    lemma_coefficient(a2, a0, inv);
    let (b, k) = (a2.value(), size(a1.value()));
    let g = size(c.value());
    lemma_band_margin(u, t.value(), g, a0.value(), b, k, i);
    let w = u * u;
    let (p1, p2) = ((a1 * inv).value(), (a2 * inv).value());
    assert(p2 <= u) by {
        reveal(Double::spec_mul);
        let top = lemma_wide_top();
        lemma_wide_negated(top);
        let v = top.value();
        let q = pow2(200) as int;
        lemma2_to64();
        lemma_pow2_strictly_increases(2, 200);
        assert(size(p2 * u) <= 3 * w && 4 * w <= v * u && -v * u == -(v * u)) by (nonlinear_arith)
            requires
                size(p2) <= 3 * u,
                w == u * u,
                v == q * u,
                q >= 4,
                u > 0,
        ;
        lemma_product_between(
            Format::Double,
            a2.bits as int,
            inv.bits as int,
            top.negated().bits as int,
            WIDE_ONE as int,
        );
    }
    assert(size(a1.value() * i) == k * i) by (nonlinear_arith)
        requires
            k == size(a1.value()),
            i > 0,
    ;
    let (q1, q2) = (p1 * u, p2 * u);
    assert(size(q1) == size(p1) * u) by (nonlinear_arith)
        requires
            q1 == p1 * u,
            u > 0,
    ;
    let pu = (u + p2) * u;
    assert(pu == w + q2) by (nonlinear_arith)
        requires
            pu == (u + p2) * u,
            w == u * u,
            q2 == p2 * u,
    ;
    assert((u + p2 - size(p1)) * u == pu - size(q1)) by (nonlinear_arith)
        requires
            pu == (u + p2) * u,
            size(q1) == size(p1) * u,
    ;
    assert((u - g) * i == i * (u - g)) by (nonlinear_arith);
    assert(u + p2 <= 3 * i) by (nonlinear_arith)
        requires
            (u + p2) * u <= 3 * (i * u),
            u > 0,
    ;
}

/// Twice a cosine, turned round, and how far rounding takes it.
proof fn lemma_two_cos_close(cosine: Double)
    requires
        cosine.is_finite(),
        size(cosine.value()) <= wide_unit(),
    ensures
        0x10_0000_0000_0000 * size((wide(WIDE_MINUS_TWO) * cosine).value()) <= 0x20_0000_0000_0002
            * size(cosine.value()) + 0x10_0000_0000_0001,
{
    lemma_wide_constants();
    lemma_twos();
    let top = wide(WIDE_TWO);
    let (u, c) = (wide_unit(), cosine.value());
    let g = size(c);
    assert(size((-2 * u) * c) == 2 * (g * u) && 2 * (g * u) <= (2 * u) * u) by (nonlinear_arith)
        requires
            g == size(c),
            g <= u,
            u > 0,
    ;
    lemma_wide_mul(wide(WIDE_MINUS_TWO), cosine, top);
    let k = (wide(WIDE_MINUS_TWO) * cosine).value();
    let (ku, gu) = (k * u, g * u);
    assert(0x10_0000_0000_0000 * size(ku) <= 0x20_0000_0000_0002 * gu + 0x10_0000_0000_0001 * u);
    assert(0x10_0000_0000_0000 * size(k) <= 0x20_0000_0000_0002 * g + 0x10_0000_0000_0001)
        by (nonlinear_arith)
        requires
            0x10_0000_0000_0000 * size(k * u) <= 0x20_0000_0000_0002 * (g * u)
                + 0x10_0000_0000_0001 * u,
            u > 0,
    ;
}

/// What the band pass and the band stop make of a block adds up to it: the square of what sample
/// `i` is off is no more than `3 / (1 - c)` times that of `230 * (i + 1)` parts in 2^52 of the
/// loudest sample, `c` being the cosine of the centre frequency without its sign. Neither `1 - c`
/// nor the tangent is so small that rounding takes hold of it, as they are for no frequency that
/// the filters take.
pub proof fn law_bands_add_up(
    trig: FilterTrig,
    pass: Biquad,
    stop: Biquad,
    input: Seq<Single>,
    m: int,
    i: nat,
)
    requires
        trig.tan_half_bandwidth.is_finite(),
        0 <= trig.tan_half_bandwidth.value() <= 0x2000_0000 * wide_unit(),
        0x10_0000_0000_0000 * trig.tan_half_bandwidth.value() >= 4 * (wide_unit()
            + trig.tan_half_bandwidth.value()),
        trig.cos_centre.is_finite(),
        0x10_0000_0000_0000 * (wide_unit() - size(trig.cos_centre.value())) >= 64 * (wide_unit()
            + trig.tan_half_bandwidth.value()),
        pass == pass.shaped(shape(FilterType::BandPass, trig)).cleared(),
        stop == stop.shaped(shape(FilterType::BandStop, trig)).cleared(),
        audible(m),
        forall|k: nat|
            k <= i ==> (#[trigger] pass.after(input, k)).bounded(m) && stop.after(
                input,
                k,
            ).bounded(m),
        forall|k: int|
            0 <= k <= i ==> (#[trigger] input[k]).widen().is_finite() && size(
                input[k].widen().value(),
            ) <= m,
    ensures
        ({
            let x = input[i as int].widen();
            let off = pass.after(input, i).response(x).value() + stop.after(input, i).response(
                x,
            ).value() - x.value();
            (wide_unit() - size(trig.cos_centre.value())) * square(0x10_0000_0000_0000 * off) <= 3
                * wide_unit() * square(230 * (m * (i + 1)))
        }),
{
    lemma_wide_constants();
    law_bands_are_complements(trig);
    let s = shape(FilterType::BandPass, trig);
    let inv = wide(WIDE_ONE) / s.a0;
    lemma_band_feedback(trig, inv);
    let (u, v) = (wide_unit(), inv.value());
    let d = u - size(trig.cos_centre.value());
    let (p, g) = (u + pass.a2.value(), size(pass.a1.value()));
    assert(p - g > 0) by (nonlinear_arith)
        requires
            d * v <= (p - g) * u,
            d > 0,
            v > 0,
            u > 0,
    ;
    law_second_order_complements_add_up(
        pass,
        stop,
        s,
        shape(FilterType::BandStop, trig),
        input,
        m,
        i,
    );
    let x = input[i as int].widen();
    let off = pass.after(input, i).response(x).value() + stop.after(input, i).response(x).value()
        - x.value();
    let (a, b) = (square(0x10_0000_0000_0000 * off), square(230 * (m * (i + 1))));
    lemma_square(0x10_0000_0000_0000 * off);
    lemma_square(230 * (m * (i + 1)));
    lemma_band_bound(u, v, d, p, g, a, b);
}

proof fn lemma_square(x: int)
    ensures
        square(x) >= 0,
{
    assert(x * x >= 0) by (nonlinear_arith);
}

/// The bound over the cosine from the one over the coefficients.
proof fn lemma_band_bound(u: int, v: int, d: int, p: int, g: int, a: int, b: int)
    requires
        u > 0,
        v > 0,
        d * v <= (p - g) * u,
        p <= 3 * v,
        (p - g) * a <= p * b,
        a >= 0,
        b >= 0,
    ensures
        d * a <= 3 * u * b,
{
    assert((d * v) * a <= ((p - g) * u) * a) by (nonlinear_arith)
        requires
            d * v <= (p - g) * u,
            a >= 0,
    ;
    assert(((p - g) * u) * a == u * ((p - g) * a)) by (nonlinear_arith);
    assert(u * ((p - g) * a) <= u * (p * b)) by (nonlinear_arith)
        requires
            (p - g) * a <= p * b,
            u > 0,
    ;
    assert(u * (p * b) <= u * ((3 * v) * b)) by (nonlinear_arith)
        requires
            p <= 3 * v,
            b >= 0,
            u > 0,
    ;
    assert((d * v) * a == v * (d * a) && u * ((3 * v) * b) == v * (3 * u * b))
        by (nonlinear_arith);
    assert(d * a <= 3 * u * b) by (nonlinear_arith)
        requires
            v * (d * a) <= v * (3 * u * b),
            v > 0,
    ;
}

} // verus!
