//! What the oscillators give, as real numbers.
use crate::{modulation, phaser, ringmod};
use crate::float::facts::{
    lemma_abs, lemma_add, lemma_compare, lemma_constant, lemma_constants, lemma_negated,
    lemma_remainder, lemma_within, unit, within,
};
use crate::float::near::{
    lemma_amount, lemma_amount_order, lemma_near_add, lemma_near_div, lemma_near_mul,
    lemma_near_self, lemma_near_sub, lemma_near_wider, lemma_ratio, near,
};
use crate::float::reals::lemma_bounded_product;
use crate::float::single::{num, Single};
use crate::modulation::{
    angle, inverse_sawtooth, phase_after, phase_after_scaled, sawtooth, stereo_phase, triangle,
    turned, unipolar,
};
use vstd::arithmetic::div_mod::{
    lemma_fundamental_div_mod_converse, lemma_mod_bound, lemma_small_mod,
};
use vstd::arithmetic::power2::lemma2_to64;
use vstd::prelude::*;

verus! {

/// The numbers that the effects use most.
pub proof fn lemma_numbers()
    ensures
        num(0).is_finite() && num(0).amount() == 0real,
        num(0x3e80_0000).is_finite() && num(0x3e80_0000).amount() == 1real / 4real,
        num(0x3f00_0000).is_finite() && num(0x3f00_0000).amount() == 1real / 2real,
        num(0x3f40_0000).is_finite() && num(0x3f40_0000).amount() == 3real / 4real,
        num(0x3f80_0000).is_finite() && num(0x3f80_0000).amount() == 1real,
        num(0x3fc0_0000).is_finite() && num(0x3fc0_0000).amount() == 3real / 2real,
        num(0x4000_0000).is_finite() && num(0x4000_0000).amount() == 2real,
        num(0x4020_0000).is_finite() && num(0x4020_0000).amount() == 5real / 2real,
        num(0x4040_0000).is_finite() && num(0x4040_0000).amount() == 3real,
        num(0xbf00_0000).is_finite() && num(0xbf00_0000).amount() == -1real / 2real,
        num(0xbf80_0000).is_finite() && num(0xbf80_0000).amount() == -1real,
{
    lemma_constants();
    lemma2_to64();
    lemma_constant(0x4020_0000, 0x40_0000, 0xa0_0000);
    let u = unit();
    assert(0 * 1 == 0 * u && u * 1 == 1 * u && (2 * u) * 1 == 2 * u && (3 * u) * 1 == 3 * u && (-u)
        * 1 == (-1) * u) by (nonlinear_arith);
    lemma_ratio(num(0), 1, 0);
    lemma_ratio(num(0x3e80_0000), 4, 1);
    lemma_ratio(num(0x3f00_0000), 2, 1);
    lemma_ratio(num(0x3f40_0000), 4, 3);
    lemma_ratio(num(0x3f80_0000), 1, 1);
    lemma_ratio(num(0x3fc0_0000), 2, 3);
    lemma_ratio(num(0x4000_0000), 1, 2);
    lemma_ratio(num(0x4020_0000), 2, 5);
    lemma_ratio(num(0x4040_0000), 1, 3);
    lemma_ratio(num(0xbf00_0000), 2, -1);
    lemma_ratio(num(0xbf80_0000), 1, -1);
}

/// Comparison is comparison of the numbers.
pub proof fn lemma_ordered(x: Single, y: Single)
    requires
        x.is_finite(),
        y.is_finite(),
    ensures
        x.lt(y) <==> x.amount() < y.amount(),
        x.le(y) <==> x.amount() <= y.amount(),
        x.gt(y) <==> x.amount() > y.amount(),
        x.ge(y) <==> x.amount() >= y.amount(),
{
    lemma_compare(x, y);
    lemma_amount_order(x, y);
    lemma_amount_order(y, x);
}

/// A number between two others.
pub proof fn lemma_between(x: Single, low: Single, high: Single)
    requires
        low.is_finite(),
        high.is_finite(),
    ensures
        within(x, low, high) <==> x.is_finite() && low.amount() <= x.amount() <= high.amount(),
{
    lemma_within(x, low, high);
    lemma_amount_order(low, x);
    lemma_amount_order(x, high);
}

/// The triangle starts in the middle, is at the top after a quarter of a turn and at the bottom
/// after three, and goes in straight lines.
pub proof fn law_triangle(phase: Single)
    requires
        within(phase, num(0), num(0x3f80_0000)),
    ensures
        ({
            let p = phase.amount();
            let height = if p < 1real / 4real {
                1real / 2real + 2real * p
            } else if p < 3real / 4real {
                3real / 2real - 2real * p
            } else {
                2real * p - 3real / 2real
            };
            near(triangle(phase), height, 10real, 3real)
        }),
{
    lemma_numbers();
    let (quarter, half, three, one, two) = (
        num(0x3e80_0000),
        num(0x3f00_0000),
        num(0x3f40_0000),
        num(0x3f80_0000),
        num(0x4000_0000),
    );
    lemma_between(phase, num(0), one);
    lemma_ordered(phase, quarter);
    lemma_ordered(phase, three);
    let p = phase.amount();
    lemma_near_self(phase, 1real);
    lemma_near_self(two, 2real);
    lemma_near_self(half, 1real);
    lemma_near_self(one, 1real);
    lemma_near_self(quarter, 1real);
    lemma_near_self(three, 1real);
    if phase.lt(quarter) {
        lemma_near_mul(two, 2real, 0real, 2real, phase, p, 0real, 1real);
        lemma_near_wider(half, 1real / 2real, 0real, 1real, 3real, 1real);
        lemma_near_add(half, 1real / 2real, 1real, two * phase, 2real * p, 2real, 3real);
        lemma_near_wider(triangle(phase), 1real / 2real + 2real * p, 5real, 3real, 10real, 3real);
    } else if phase.lt(three) {
        let d = phase - quarter;
        lemma_near_sub(phase, p, 1real, quarter, 1real / 4real, 1real, 0real);
        lemma_half_wide(d, p - 1real / 4real);
        lemma_near_mul(two, 2real, 0real, 2real, d, p - 1real / 4real, 4real, 1real);
        lemma_near_wider(two * d, 2real * (p - 1real / 4real), 7real, 2real, 7real, 2real);
        lemma_near_wider(one, 1real, 0real, 1real, 7real, 1real);
        lemma_near_sub(one, 1real, 1real, two * d, 2real * (p - 1real / 4real), 2real, 7real);
        lemma_near_wider(triangle(phase), 3real / 2real - 2real * p, 9real, 3real, 10real, 3real);
    } else {
        let d = phase - three;
        lemma_near_sub(phase, p, 1real, three, 3real / 4real, 1real, 0real);
        lemma_half_wide(d, p - 3real / 4real);
        lemma_near_mul(two, 2real, 0real, 2real, d, p - 3real / 4real, 4real, 1real);
        lemma_near_wider(two * d, 2real * (p - 3real / 4real), 7real, 2real, 10real, 3real);
    }
}

/// What is near something of no more than one, within a bound of two.
proof fn lemma_half_wide(x: Single, r: real)
    requires
        near(x, r, 2real, 2real),
        -1real <= r <= 1real,
    ensures
        near(x, r, 4real, 1real),
{
}

/// The sawtooth starts in the middle, rises by one over a turn and falls back by one half way.
pub proof fn law_sawtooth(phase: Single)
    requires
        within(phase, num(0), num(0x3f80_0000)),
    ensures
        ({
            let p = phase.amount();
            let height = if p < 1real / 2real { p + 1real / 2real } else { p - 1real / 2real };
            near(sawtooth(phase), height, 2real, 2real)
        }),
{
    lemma_numbers();
    let half = num(0x3f00_0000);
    lemma_between(phase, num(0), num(0x3f80_0000));
    lemma_ordered(phase, half);
    let p = phase.amount();
    lemma_near_self(phase, 1real);
    lemma_near_self(half, 1real);
    if phase.lt(half) {
        lemma_near_add(half, 1real / 2real, 1real, phase, p, 1real, 0real);
    } else {
        lemma_near_sub(phase, p, 1real, half, 1real / 2real, 1real, 0real);
    }
}

/// The inverse sawtooth starts in the middle, falls by one over a turn and rises back by one half
/// way.
pub proof fn law_inverse_sawtooth(phase: Single)
    requires
        within(phase, num(0), num(0x3f80_0000)),
    ensures
        ({
            let p = phase.amount();
            let height = if p < 1real / 2real { 1real / 2real - p } else { 3real / 2real - p };
            near(inverse_sawtooth(phase), height, 2real, 3real)
        }),
{
    lemma_numbers();
    let (half, three) = (num(0x3f00_0000), num(0x3fc0_0000));
    lemma_between(phase, num(0), num(0x3f80_0000));
    lemma_ordered(phase, half);
    let p = phase.amount();
    lemma_near_self(phase, 1real);
    lemma_near_self(half, 2real);
    lemma_near_self(three, 2real);
    if phase.lt(half) {
        lemma_near_sub(half, 1real / 2real, 2real, phase, p, 1real, 0real);
    } else {
        lemma_near_sub(three, 3real / 2real, 2real, phase, p, 1real, 0real);
    }
}

/// The sine shape is the sine moved up by one and halved.
pub proof fn law_sine_shape(sine: Single)
    requires
        within(sine, num(0xbf80_0000), num(0x3f80_0000)),
    ensures
        near(unipolar(sine), (1real + sine.amount()) / 2real, 5real, 2real),
{
    lemma_numbers();
    let half = num(0x3f00_0000);
    lemma_between(sine, num(0xbf80_0000), num(0x3f80_0000));
    let v = sine.amount();
    lemma_near_self(sine, 1real);
    lemma_near_self(half, 1real);
    lemma_near_mul(half, 1real / 2real, 0real, 1real, sine, v, 0real, 1real);
    lemma_near_wider(half, 1real / 2real, 0real, 1real, 3real, 1real);
    lemma_near_add(half, 1real / 2real, 1real, half * sine, (1real / 2real) * v, 1real, 3real);
}

/// Each waveform of the modulated delays is its shape.
pub proof fn law_delay_waveforms(phase: Single, sine: Single)
    requires
        within(phase, num(0), num(0x3f80_0000)),
        within(sine, num(0xbf80_0000), num(0x3f80_0000)),
    ensures
        ({
            let p = phase.amount();
            let lfo = |w: modulation::Waveform| modulation::lfo(phase, w, sine);
            &&& near(
                lfo(modulation::Waveform::Sine),
                (1real + sine.amount()) / 2real,
                5real,
                2real,
            )
            &&& p < 1real / 4real ==> near(
                lfo(modulation::Waveform::Triangle),
                1real / 2real + 2real * p,
                10real,
                3real,
            )
            &&& 1real / 4real <= p < 3real / 4real ==> near(
                lfo(modulation::Waveform::Triangle),
                3real / 2real - 2real * p,
                10real,
                3real,
            )
            &&& 3real / 4real <= p ==> near(
                lfo(modulation::Waveform::Triangle),
                2real * p - 3real / 2real,
                10real,
                3real,
            )
            &&& p < 1real / 2real ==> near(
                lfo(modulation::Waveform::Sawtooth),
                p + 1real / 2real,
                2real,
                2real,
            ) && near(
                lfo(modulation::Waveform::InverseSawtooth),
                1real / 2real - p,
                2real,
                3real,
            )
            &&& 1real / 2real <= p ==> near(
                lfo(modulation::Waveform::Sawtooth),
                p - 1real / 2real,
                2real,
                2real,
            ) && near(
                lfo(modulation::Waveform::InverseSawtooth),
                3real / 2real - p,
                2real,
                3real,
            )
        }),
{
    law_sine_shape(sine);
    law_triangle(phase);
    law_sawtooth(phase);
    law_inverse_sawtooth(phase);
}

/// Each waveform of the phaser is its shape; the square one is at the top on the first half of the
/// turn and at the bottom on the second.
pub proof fn law_phaser_waveforms(phase: Single, sine: Single)
    requires
        within(phase, num(0), num(0x3f80_0000)),
        within(sine, num(0xbf80_0000), num(0x3f80_0000)),
    ensures
        ({
            let p = phase.amount();
            let lfo = |w: phaser::Waveform| phaser::lfo(phase, w, sine);
            &&& lfo(phaser::Waveform::Square).is_finite()
            &&& lfo(phaser::Waveform::Square).amount() == if p < 1real / 2real {
                1real
            } else {
                0real
            }
            &&& near(lfo(phaser::Waveform::Sine), (1real + sine.amount()) / 2real, 5real, 2real)
            &&& near(
                lfo(phaser::Waveform::Triangle),
                if p < 1real / 4real {
                    1real / 2real + 2real * p
                } else if p < 3real / 4real {
                    3real / 2real - 2real * p
                } else {
                    2real * p - 3real / 2real
                },
                10real,
                3real,
            )
            &&& near(
                lfo(phaser::Waveform::Sawtooth),
                if p < 1real / 2real { p + 1real / 2real } else { p - 1real / 2real },
                2real,
                2real,
            )
        }),
{
    lemma_numbers();
    lemma_between(phase, num(0), num(0x3f80_0000));
    lemma_ordered(phase, num(0x3f00_0000));
    law_sine_shape(sine);
    law_triangle(phase);
    law_sawtooth(phase);
}

/// Half a turn later every waveform of the phaser is as far from the top as it was from the bottom.
pub proof fn law_phaser_half_turn(
    phase: Single,
    later: Single,
    sine: Single,
    waveform: phaser::Waveform,
)
    requires
        within(phase, num(0), num(0x3f80_0000)),
        within(later, num(0), num(0x3f80_0000)),
        later.amount() == phase.amount() + 1real / 2real,
        later.amount() < 1real,
        within(sine, num(0xbf80_0000), num(0x3f80_0000)),
        !(waveform is Sawtooth),
    ensures
        ({
            let sum = phaser::lfo(phase, waveform, sine).amount() + phaser::lfo(
                later,
                waveform,
                sine.negated(),
            ).amount();
            -100real <= 8388608real * (sum - 1real) <= 100real
        }),
{
    lemma_numbers();
    lemma_between(phase, num(0), num(0x3f80_0000));
    lemma_between(later, num(0), num(0x3f80_0000));
    lemma_between(sine, num(0xbf80_0000), num(0x3f80_0000));
    lemma_turned_round(sine);
    lemma_between(sine.negated(), num(0xbf80_0000), num(0x3f80_0000));
    law_phaser_waveforms(phase, sine);
    law_phaser_waveforms(later, sine.negated());
}

/// A number turned round.
pub proof fn lemma_turned_round(x: Single)
    requires
        x.is_finite(),
    ensures
        x.negated().is_finite(),
        x.negated().amount() == -x.amount(),
{
    lemma_negated(x);
    lemma_amount(x);
    lemma_amount(x.negated());
    let (v, w, u) = (x.amount(), x.negated().amount(), unit() as real);
    assert(w == -v) by (nonlinear_arith)
        requires
            w * u == -(v * u),
            u > 0real,
    ;
}


/// The square with slopes is at the top up to 0.48 of the turn, falls to the bottom by the middle
/// of it, stays there up to 0.98 and rises to the top by its end.
pub proof fn law_sloped_square(phase: Single)
    requires
        within(phase, num(0), num(0x3f80_0000)),
    ensures
        ({
            let p = phase.amount();
            let y = ringmod::sloped_square(phase).amount();
            &&& ringmod::sloped_square(phase).is_finite()
            &&& 100real * p < 47real ==> y == 1real
            &&& 50real <= 100real * p < 97real ==> y == 0real
            &&& 481real <= 1000real * p < 500real ==> -1real / 1000real <= y - (25real - 50real
                * p) <= 1real / 1000real
            &&& 981real <= 1000real * p <= 1000real ==> -1real / 1000real <= y - (50real * p
                - 49real) <= 1real / 1000real
        }),
{
    lemma_numbers();
    lemma2_to64();
    lemma_constant(0x3ef5_c28f, 0x200_0000, 0xf5_c28f);
    lemma_constant(0x3f7a_e148, 0x100_0000, 0xfa_e148);
    lemma_constant(0x4248_0000, 0x4_0000, 0xc8_0000);
    let (fall, rise, slope) = (num(0x3ef5_c28f), num(0x3f7a_e148), num(0x4248_0000));
    lemma_ratio(fall, 0x200_0000, 0xf5_c28f);
    lemma_ratio(rise, 0x100_0000, 0xfa_e148);
    lemma_ratio(slope, 0x4_0000, 0xc8_0000);
    let (half, one) = (num(0x3f00_0000), num(0x3f80_0000));
    lemma_between(phase, num(0), one);
    lemma_ordered(phase, fall);
    lemma_ordered(phase, half);
    lemma_ordered(phase, rise);
    let p = phase.amount();
    lemma_near_self(phase, 1real);
    lemma_near_self(fall, 1real);
    lemma_near_self(rise, 1real);
    lemma_near_self(slope, 50real);
    lemma_near_self(one, 1real);
    if !phase.lt(fall) && phase.lt(half) {
        let d = phase - fall;
        let r = p - fall.amount();
        lemma_near_sub(phase, p, 1real, fall, fall.amount(), 1real, 0real);
        lemma_half_wide(d, r);
        lemma_near_mul(slope, 50real, 0real, 50real, d, r, 4real, 1real);
        lemma_near_wider(one, 1real, 0real, 1real, 7real, 1real);
        lemma_near_sub(one, 1real, 1real, slope * d, 50real * r, 50real, 7real);
    } else if !phase.lt(rise) {
        let d = phase - rise;
        let r = p - rise.amount();
        lemma_near_sub(phase, p, 1real, rise, rise.amount(), 1real, 0real);
        lemma_half_wide(d, r);
        lemma_near_mul(slope, 50real, 0real, 50real, d, r, 4real, 1real);
    }
}

/// Each waveform of the ring modulator is its shape; the square one is at the bottom on the first
/// half of the turn and at the top on the second.
pub proof fn law_ringmod_waveforms(phase: Single, sine: Single)
    requires
        within(phase, num(0), num(0x3f80_0000)),
        within(sine, num(0xbf80_0000), num(0x3f80_0000)),
    ensures
        ({
            let p = phase.amount();
            let lfo = |w: ringmod::Waveform| ringmod::lfo(phase, w, sine);
            &&& lfo(ringmod::Waveform::Square).is_finite()
            &&& lfo(ringmod::Waveform::Square).amount() == if p < 1real / 2real {
                0real
            } else {
                1real
            }
            &&& near(lfo(ringmod::Waveform::Sine), (1real + sine.amount()) / 2real, 5real, 2real)
            &&& near(
                lfo(ringmod::Waveform::Triangle),
                if p < 1real / 4real {
                    1real / 2real + 2real * p
                } else if p < 3real / 4real {
                    3real / 2real - 2real * p
                } else {
                    2real * p - 3real / 2real
                },
                10real,
                3real,
            )
            &&& near(
                lfo(ringmod::Waveform::Sawtooth),
                if p < 1real / 2real { p + 1real / 2real } else { p - 1real / 2real },
                2real,
                2real,
            )
            &&& near(
                lfo(ringmod::Waveform::InverseSawtooth),
                if p < 1real / 2real { 1real / 2real - p } else { 3real / 2real - p },
                2real,
                3real,
            )
            &&& 100real * p < 47real ==> lfo(ringmod::Waveform::SquareSloped).amount() == 1real
            &&& 50real <= 100real * p < 97real ==> lfo(
                ringmod::Waveform::SquareSloped,
            ).amount() == 0real
        }),
{
    lemma_numbers();
    lemma_between(phase, num(0), num(0x3f80_0000));
    lemma_ordered(phase, num(0x3f00_0000));
    law_sine_shape(sine);
    law_triangle(phase);
    law_sawtooth(phase);
    law_inverse_sawtooth(phase);
    law_sloped_square(phase);
}

/// What the ring modulator multiplies a sample with: at a depth of 0 one, at a depth of 1 the
/// carrier, which is the oscillator stretched to between minus one and one, and in between in
/// proportion.
pub proof fn law_modulation_gain(depth: Single, lfo: Single)
    requires
        within(depth, num(0), num(0x3f80_0000)),
        within(lfo, num(0), num(0x3f80_0000)),
    ensures
        near(ringmod::carrier(lfo), 2real * lfo.amount() - 1real, 5real, 3real),
        ({
            let (d, y) = (depth.amount(), lfo.amount());
            near(
                ringmod::gain(depth, ringmod::carrier(lfo)),
                1real - 2real * (d * (1real - y)),
                10real,
                5real,
            )
        }),
{
    lemma_numbers();
    let (one, two) = (num(0x3f80_0000), num(0x4000_0000));
    lemma_between(depth, num(0), one);
    lemma_between(lfo, num(0), one);
    let (d, y) = (depth.amount(), lfo.amount());
    lemma_near_self(depth, 1real);
    lemma_near_self(lfo, 1real);
    lemma_near_self(one, 1real);
    lemma_near_self(two, 2real);
    lemma_near_mul(two, 2real, 0real, 2real, lfo, y, 0real, 1real);
    lemma_near_wider(one, 1real, 0real, 1real, 3real, 1real);
    lemma_near_sub(two * lfo, 2real * y, 2real, one, 1real, 1real, 3real);
    let c = ringmod::carrier(lfo);
    lemma_near_sub(one, 1real, 1real, depth, d, 1real, 0real);
    lemma_near_mul(depth, d, 0real, 1real, c, 2real * y - 1real, 5real, 3real);
    lemma_near_wider(one - depth, 1real - d, 2real, 2real, 8real, 2real);
    lemma_near_add(one - depth, 1real - d, 2real, depth * c, d * (2real * y - 1real), 3real, 8real);
    assert(1real - d + d * (2real * y - 1real) == 1real - 2real * (d * (1real - y)))
        by (nonlinear_arith);
}

/// A step takes a phase on by its length, and a whole turn off where the end of the turn is
/// reached, up to rounding by a part in 2^19 of the longer of the two.
pub proof fn law_step(phase: Single, step: Single, m: real)
    requires
        1real <= m <= 1048576real,
        phase.is_finite(),
        step.is_finite(),
        -m <= phase.amount() <= m,
        -m <= step.amount() <= m,
    ensures
        ({
            let (next, r) = (phase.amount() + step.amount(), turned(phase, step));
            let e = m / 524288real;
            &&& r.is_finite()
            &&& (-e <= r.amount() - next <= e && next <= 1real + e && r.amount() < 1real) || (-e
                <= r.amount() - (next - 1real) <= e && next >= 1real - e)
        }),
{
    lemma_numbers();
    let one = num(0x3f80_0000);
    lemma_near_self(phase, m);
    lemma_near_self(step, m);
    let next = phase.amount() + step.amount();
    lemma_near_add(phase, phase.amount(), m, step, step.amount(), m, 0real);
    lemma_ordered(phase + step, one);
    let x = phase + step;
    lemma_near_self(x, 3real * m);
    lemma_near_self(one, m);
    lemma_near_sub(x, x.amount(), 3real * m, one, 1real, m, 0real);
    assert((0real + 2real) * (3real * m + m) == 8real * m && (0real + 2real) * (m + m) == 4real * m)
        by (nonlinear_arith);
}

/// From one sample to the next the phase of an oscillator on the turn goes on by its rate over the
/// sample rate, whole turns aside.
pub proof fn law_phase_advances(phase: Single, rate: Seq<Single>, sample_rate: Single, i: nat)
    requires
        rate[i as int].is_finite(),
        sample_rate.is_finite(),
        1real <= sample_rate.amount() <= 1000000real,
        0real <= rate[i as int].amount() <= sample_rate.amount() / 2real,
        within(phase_after(phase, rate, sample_rate, i), num(0), num(0x3f80_0000)),
    ensures
        ({
            let (here, next) = (
                phase_after(phase, rate, sample_rate, i).amount(),
                phase_after(phase, rate, sample_rate, i + 1).amount(),
            );
            let gone = here + rate[i as int].amount() / sample_rate.amount() - next;
            -1real / 400000real <= gone <= 1real / 400000real || -1real / 400000real <= gone - 1real
                <= 1real / 400000real
        }),
{
    lemma_numbers();
    let (r, s) = (rate[i as int], sample_rate);
    lemma_between(phase_after(phase, rate, sample_rate, i), num(0), num(0x3f80_0000));
    let (rv, sv) = (r.amount(), s.amount());
    lemma_near_self(r, sv);
    lemma_near_self(s, sv);
    assert(0real * sv == 0real && sv / sv == 1real) by (nonlinear_arith)
        requires
            sv > 0real,
    ;
    lemma_near_div(r, rv, 0real, sv, s, sv, 0real, sv, sv, 0real);
    assert(0real <= rv / sv <= 1real / 2real) by (nonlinear_arith)
        requires
            0real <= rv <= sv / 2real,
            sv > 0real,
    ;
    law_step(phase_after(phase, rate, sample_rate, i), r / s, 1real);
    assert((i + 1 - 1) as nat == i);
}

/// From one sample to the next the phase of an oscillator on the turn goes on by its rate times the
/// length of a sample, whole turns aside.
pub proof fn law_scaled_phase_advances(phase: Single, rate: Seq<Single>, inv_sr: Single, i: nat)
    requires
        rate[i as int].is_finite(),
        inv_sr.is_finite(),
        1real / 1000000real <= inv_sr.amount() <= 1real,
        0real <= rate[i as int].amount() * inv_sr.amount() <= 1real / 2real,
        0real <= rate[i as int].amount() <= 500000real,
        within(phase_after_scaled(phase, rate, inv_sr, i), num(0), num(0x3f80_0000)),
    ensures
        ({
            let (here, next) = (
                phase_after_scaled(phase, rate, inv_sr, i).amount(),
                phase_after_scaled(phase, rate, inv_sr, i + 1).amount(),
            );
            let gone = here + rate[i as int].amount() * inv_sr.amount() - next;
            -1real / 400000real <= gone <= 1real / 400000real || -1real / 400000real <= gone - 1real
                <= 1real / 400000real
        }),
{
    lemma_numbers();
    let (r, s) = (rate[i as int], inv_sr);
    lemma_between(phase_after_scaled(phase, rate, inv_sr, i), num(0), num(0x3f80_0000));
    let (rv, sv) = (r.amount(), s.amount());
    let m = if rv < 1real { 1real } else { rv };
    lemma_near_self(r, m);
    lemma_near_self(s, sv);
    let b = m * sv;
    assert(1real / 1000000real <= b <= 1real) by (nonlinear_arith)
        requires
            b == m * sv,
            m == (if rv < 1real { 1real } else { rv }),
            0real <= rv * sv <= 1real / 2real,
            1real / 1000000real <= sv <= 1real,
    ;
    lemma_near_mul(r, rv, 0real, m, s, sv, 0real, sv);
    law_step(phase_after_scaled(phase, rate, inv_sr, i), r * s, 1real);
    assert((i + 1 - 1) as nat == i);
}

/// In stereo the second channel is a quarter of a turn ahead; otherwise the channels are together.
pub proof fn law_second_channel_ahead(phase: Single, ch: usize)
    requires
        phase.is_finite(),
        0real <= phase.amount() < 1real,
    ensures
        stereo_phase(phase, false, ch) == phase,
        stereo_phase(phase, true, 0) == phase,
        ch != 0 ==> ({
            let (p, r) = (phase.amount(), stereo_phase(phase, true, ch));
            &&& r.is_finite()
            &&& p <= 749real / 1000real ==> -1real / 1000real <= r.amount() - (p + 1real / 4real)
                <= 1real / 1000real
            &&& p >= 3real / 4real ==> -1real / 1000real <= r.amount() - (p - 3real / 4real)
                <= 1real / 1000real
        }),
{
    lemma_numbers();
    let (quarter, one) = (num(0x3e80_0000), num(0x3f80_0000));
    let p = phase.amount();
    if ch != 0 {
        let x = phase + quarter;
        lemma_near_self(phase, 1real);
        lemma_near_self(quarter, 1real);
        lemma_near_add(phase, p, 1real, quarter, 1real / 4real, 1real, 0real);
        lemma_remainder(x, one);
        lemma_constants();
        lemma_amount_order(num(0), phase);
        lemma_amount_order(phase, one);
        lemma_amount_order(num(0), x);
        lemma_amount_order(x, num(0x4000_0000));
        lemma_add(phase, quarter, num(0), num(0x4000_0000));
        if p >= 3real / 4real {
            lemma_amount_order(num(0x3f40_0000), phase);
            lemma_add(phase, quarter, one, num(0x4000_0000));
        }
        let r = x.remainder(one);
        let (v, u) = (x.value(), unit());
        assert(v % u == if v < u { v } else if v < 2 * u { v - u } else { 0 }) by {
            if v < u {
                lemma_small_mod(v as nat, u as nat);
            } else if v < 2 * u {
                lemma_fundamental_div_mod_converse(v, u, 1, v - u);
            } else {
                lemma_fundamental_div_mod_converse(v, u, 2, 0);
            }
        }
        lemma_compare(r, num(0));
        lemma_amount(x);
        lemma_amount(r);
        let (xa, ra, ur) = (x.amount(), r.amount(), u as real);
        lemma_amount_order(x, one);
        assert(v < u ==> ra == xa) by (nonlinear_arith)
            requires
                v < u ==> ra * ur == xa * ur,
                ur > 0real,
        ;
        assert(u <= v < 2 * u ==> ra == xa - 1real) by (nonlinear_arith)
            requires
                u <= v < 2 * u ==> ra * ur == xa * ur - ur,
                ur > 0real,
        ;
        assert(xa < 3real / 2real);
        lemma_amount_order(num(0x4000_0000), x);
    }
}

/// The angle of a phase: a whole turn is twice pi.
pub proof fn law_angle(phase: Single)
    requires
        phase.is_finite(),
        -1000real <= phase.amount() <= 1000real,
    ensures
        angle(phase).is_finite(),
        ({
            let off = angle(phase).amount() - phase.amount() * 3141593real / 500000real;
            -1real / 100real <= off <= 1real / 100real
        }),
        within(phase, num(0), num(0x3f80_0000)) ==> ({
            let off = angle(phase).amount() - phase.amount() * 3141593real / 500000real;
            -1real / 100000real <= off <= 1real / 100000real
        }),
{
    lemma_numbers();
    lemma2_to64();
    lemma_constant(0x40c9_0fdb, 0x20_0000, 0xc9_0fdb);
    let tau = num(0x40c9_0fdb);
    lemma_ratio(tau, 0x20_0000, 0xc9_0fdb);
    let (p, t) = (phase.amount(), tau.amount());
    lemma_near_self(tau, 7real);
    lemma_near_self(phase, 1000real);
    lemma_near_mul(tau, t, 0real, 7real, phase, p, 0real, 1000real);
    lemma_between(phase, num(0), num(0x3f80_0000));
    let d = t - 3141593real / 500000real;
    assert(-1real / 1000000real <= d <= 1real / 1000000real);
    lemma_bounded_product(d, p, 1real / 1000000real, 1000real);
    assert(d * p == t * p - p * 3141593real / 500000real) by (nonlinear_arith)
        requires
            d == t - 3141593real / 500000real,
    ;
    if within(phase, num(0), num(0x3f80_0000)) {
        lemma_near_self(phase, 1real);
        lemma_near_mul(tau, t, 0real, 7real, phase, p, 0real, 1real);
        lemma_bounded_product(d, p, 1real / 1000000real, 1real);
    }
}


/// What is left of a number after whole turns have been taken away or added: for a number over zero
/// exactly what is left of it, for one under zero a turn less what is left of its size.
pub proof fn law_whole_turns_away(x: Single, turn: Single)
    requires
        x.is_finite(),
        turn.is_finite() && 1real / 1048576real <= turn.amount() <= 1048576real,
    ensures
        ({
            let p = x.rem_euclid(turn);
            let left = (-x.value()) % turn.value();
            &&& p.is_finite()
            &&& 0 <= p.value() <= turn.value()
            &&& x.value() >= 0 ==> p.value() == x.value() % turn.value()
            &&& x.value() < 0 && left == 0 ==> p.value() == 0
            &&& x.value() < 0 && left > 0 ==> near(
                p,
                turn.amount() - (left as real) / (unit() as real),
                4real,
                turn.amount(),
            )
        }),
{
    lemma_constants();
    lemma_numbers();
    lemma_amount_order(turn, num(0));
    lemma_remainder(x, turn);
    let r = x.remainder(turn);
    let (v, n) = (x.value(), turn.value());
    lemma_mod_bound(v, n);
    lemma_mod_bound(-v, n);
    lemma_compare(r, num(0));
    if r.value() < 0 {
        lemma_abs(turn);
        let t = turn.abs();
        let left = (-v) % n;
        lemma_amount(r);
        lemma_amount(turn);
        lemma_amount(t);
        let (a, b, u) = (r.amount(), turn.amount(), unit() as real);
        let l = left as real / u;
        assert(l * u == left as real) by (nonlinear_arith)
            requires
                l == left as real / u,
                u > 0real,
        ;
        assert(a == -l && 0real <= l <= b) by (nonlinear_arith)
            requires
                a * u == -(l * u),
                0real <= l * u <= b * u,
                u > 0real,
        ;
        lemma_amount_order(t, turn);
        lemma_near_self(r, b);
        lemma_near_self(t, b);
        lemma_near_add(r, a, b, t, b, b, 0real);
        lemma_add(r, t, num(0), t);
        assert(near(r + t, b - l, 4real, b));
    }
}

} // verus!
