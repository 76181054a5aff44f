//! What the phaser and the ring modulator give, as real numbers: how a filter is tuned, how the
//! filters follow one another, and what is made of a sample.
use crate::{phaser, ringmod};
use crate::echoes::{lemma_unit_factor, loud};
use crate::float::facts::{lemma_constant, lemma_constants, within};
use crate::float::near::{
    lemma_near_add, lemma_near_div, lemma_near_mul, lemma_near_self, lemma_near_sub,
    lemma_near_wider, lemma_ratio, near,
};
use crate::float::single::{num, Single};
use crate::modulation::{phase_after_scaled, stereo_phase};
use crate::oscillators::{law_modulation_gain, lemma_numbers, lemma_ordered};
use crate::phaser::{Allpass, Lane, NumFilters, PhaserParams, Sweep};
use crate::ringmod::{RingMod, RingModParams};
use crate::wahwah::{WahWah, WahWahParams};
use vstd::arithmetic::div_mod::lemma_small_mod;
use vstd::arithmetic::power2::lemma2_to64;
use vstd::prelude::*;

verus! {

/// What a first-order filter makes of a sample.
pub proof fn lemma_first_order(
    b0: Single,
    b1: Single,
    a1: Single,
    x: Single,
    x1: Single,
    y1: Single,
    m: real,
)
    requires
        loud(m),
        b0.is_finite() && -64real <= b0.amount() <= 64real,
        b1.is_finite() && -64real <= b1.amount() <= 64real,
        a1.is_finite() && -64real <= a1.amount() <= 64real,
        x.is_finite() && -m <= x.amount() <= m,
        x1.is_finite() && -m <= x1.amount() <= m,
        y1.is_finite() && -m <= y1.amount() <= m,
    ensures
        near(
            b0 * x + b1 * x1 - a1 * y1,
            b0.amount() * x.amount() + b1.amount() * x1.amount() - a1.amount() * y1.amount(),
            7real,
            192real * m,
        ),
{
    let (v, v1, w1) = (x.amount(), x1.amount(), y1.amount());
    let (c0, c1, d1) = (b0.amount(), b1.amount(), a1.amount());
    lemma_near_self(b0, 64real);
    lemma_near_self(b1, 64real);
    lemma_near_self(a1, 64real);
    lemma_near_self(x, m);
    lemma_near_self(x1, m);
    lemma_near_self(y1, m);
    lemma_near_mul(b0, c0, 0real, 64real, x, v, 0real, m);
    lemma_near_mul(b1, c1, 0real, 64real, x1, v1, 0real, m);
    lemma_near_mul(a1, d1, 0real, 64real, y1, w1, 0real, m);
    let (p, q, r) = (b0 * x, b1 * x1, a1 * y1);
    lemma_near_add(p, c0 * v, 64real * m, q, c1 * v1, 64real * m, 3real);
    lemma_near_wider(r, d1 * w1, 3real, 64real * m, 5real, 64real * m);
    lemma_near_sub(p + q, c0 * v + c1 * v1, 128real * m, r, d1 * w1, 64real * m, 5real);
}

/// A tuned filter of the phaser lets everything through as loud as it is: what it takes of the
/// sample is what it takes of its own last one, and the last sample it takes whole. The more the
/// tangent, the higher the frequency at which it turns a sample by a quarter.
pub proof fn law_allpass_tuned(filter: Allpass, tan: Single)
    requires
        tan.is_finite() && 0real <= tan.amount() <= 1024real,
    ensures
        ({
            let f = filter.tuned(tan);
            let t = tan.amount();
            &&& f.a1 == f.b0
            &&& f.b1.is_finite() && f.b1.amount() == 1real
            &&& near(f.b0, (t - 1real) / (t + 1real), 12real, 1real)
            &&& f.x1 == filter.x1 && f.y1 == filter.y1
        }),
{
    lemma_numbers();
    let (one, t) = (num(0x3f80_0000), tan.amount());
    let n = t + 1real;
    lemma_near_self(one, 1real);
    lemma_near_self(tan, t);
    lemma_near_add(tan, t, t, one, 1real, 1real, 0real);
    lemma_near_sub(tan, t, t, one, 1real, 1real, 0real);
    let i = 1real / n;
    assert(n * i == 1real && 1real / 1025real <= i <= 1real) by (nonlinear_arith)
        requires
            i == 1real / n,
            1real <= n <= 1025real,
    ;
    lemma_near_div(one, 1real, 0real, 1real, tan + one, n, 2real, n, n, 2real);
    lemma_near_mul(tan - one, t - 1real, 2real, n, one / (tan + one), i, 7real, i);
    assert((t - 1real) * i == (t - 1real) / n) by (nonlinear_arith)
        requires
            i == 1real / n,
            n >= 1real,
    ;
}

/// What a filter of the phaser makes of a sample, and what it remembers of it.
pub proof fn law_allpass_sample(filter: Allpass, x: Single, m: real)
    requires
        loud(m),
        filter.b0.is_finite() && -64real <= filter.b0.amount() <= 64real,
        filter.b1.is_finite() && -64real <= filter.b1.amount() <= 64real,
        filter.a1.is_finite() && -64real <= filter.a1.amount() <= 64real,
        x.is_finite() && -m <= x.amount() <= m,
        filter.x1.is_finite() && -m <= filter.x1.amount() <= m,
        filter.y1.is_finite() && -m <= filter.y1.amount() <= m,
    ensures
        filter.stepped(x).x1 == x,
        filter.stepped(x).y1 == filter.response(x),
        filter.stepped(x).b0 == filter.b0,
        filter.stepped(x).b1 == filter.b1,
        filter.stepped(x).a1 == filter.a1,
        near(
            filter.response(x),
            filter.b0.amount() * x.amount() + filter.b1.amount() * filter.x1.amount()
                - filter.a1.amount() * filter.y1.amount(),
            7real,
            192real * m,
        ),
{
    lemma_first_order(filter.b0, filter.b1, filter.a1, x, filter.x1, filter.y1, m);
}

/// The angle whose tangent tunes a filter is half of the frequency, which counts as 0.99 times half
/// a turn where it is more.
pub proof fn law_half_angle(f: Single)
    requires
        f.is_finite() && 0real <= f.amount(),
    ensures
        ({
            let top = 31101767real / 10000000real;
            &&& f.amount() <= top ==> near(phaser::half_angle(f), f.amount() / 2real, 3real, 2real)
            &&& f.amount() > top + 1real / 1000000real ==> near(
                phaser::half_angle(f),
                top / 2real,
                5real,
                2real,
            )
        }),
{
    lemma_numbers();
    lemma_constants();
    lemma2_to64();
    lemma_constant(0x4047_0d23, 0x40_0000, 0xc7_0d23);
    let (top, half) = (num(0x4047_0d23), num(0x3f00_0000));
    lemma_ratio(top, 0x40_0000, 0xc7_0d23);
    lemma_ordered(top, f);
    lemma_ordered(f, f);
    let e = 31101767real / 10000000real;
    lemma_near_self(half, 1real / 2real);
    let k = f.min(top);
    assert(f.amount() <= e ==> k == f);
    assert(f.amount() > e + 1real / 1000000real ==> k == top);
    let v = k.amount();
    lemma_near_self(k, 4real);
    lemma_near_mul(k, v, 0real, 4real, half, 1real / 2real, 0real, 1real / 2real);
    assert(4real * (1real / 2real) == 2real && v * (1real / 2real) == v / 2real)
        by (nonlinear_arith);
}

/// How many filters each setting means.
pub proof fn law_stages()
    ensures
        NumFilters::Two.count() == 2,
        NumFilters::Four.count() == 4,
        NumFilters::Six.count() == 6,
        NumFilters::Eight.count() == 8,
        NumFilters::Ten.count() == 10,
{
}

/// The filters are due for retuning at every 32nd sample.
pub proof fn law_retuned_every_32(sweep: Sweep, params: PhaserParams, i: nat)
    requires
        sweep.counter + i < 0x1_0000_0000,
    ensures
        sweep.after(params, i).due() <==> (sweep.counter + i) % 32 == 0,
        sweep.after(params, i).inv_sr == sweep.inv_sr,
{
    lemma_small_mod((sweep.counter + i) as nat, 0x1_0000_0000);
}

/// The frequency that the filters go to lies as far above the lowest, in the width of the sweep, as
/// the oscillator says, in radians per sample.
pub proof fn law_swept_frequency(
    sweep: Sweep,
    params: PhaserParams,
    ch: usize,
    sine: Single,
    i: int,
)
    requires
        params.min_freq@[i].is_finite() && 0real <= params.min_freq@[i].amount() <= 65536real,
        params.sweep_width@[i].is_finite() && 0real <= params.sweep_width@[i].amount() <= 65536real,
        sweep.inv_sr.is_finite() && 1real / 1000000real <= sweep.inv_sr.amount() <= 1real,
        within(
            phaser::lfo(stereo_phase(sweep.phase, params.stereo, ch), params.waveform, sine),
            num(0),
            num(0x3f80_0000),
        ),
    ensures
        ({
            let l = phaser::lfo(
                stereo_phase(sweep.phase, params.stereo, ch),
                params.waveform,
                sine,
            ).amount();
            let centre = params.min_freq@[i].amount() + params.sweep_width@[i].amount() * l;
            near(
                sweep.frequency(params, ch, sine, i),
                62831853real / 10000000real * centre * sweep.inv_sr.amount(),
                12real,
                1048576real * sweep.inv_sr.amount(),
            )
        }),
{
    lemma_numbers();
    lemma_constants();
    lemma2_to64();
    lemma_constant(0x40c9_0fdb, 0x20_0000, 0xc9_0fdb);
    let turn = num(0x40c9_0fdb);
    lemma_ratio(turn, 0x20_0000, 0xc9_0fdb);
    let osc = phaser::lfo(stereo_phase(sweep.phase, params.stereo, ch), params.waveform, sine);
    lemma_unit_factor(osc);
    let (f, w, s) = (params.min_freq@[i], params.sweep_width@[i], sweep.inv_sr);
    let (fv, wv, l, sv) = (f.amount(), w.amount(), osc.amount(), s.amount());
    let b = 65536real;
    lemma_near_self(f, b);
    lemma_near_self(w, b);
    lemma_near_self(s, sv);
    lemma_near_mul(w, wv, 0real, b, osc, l, 0real, 1real);
    assert(b * 1real == b);
    lemma_near_wider(f, fv, 0real, b, 3real, b);
    lemma_near_add(f, fv, b, w * osc, wv * l, b, 3real);
    let e = 62831853real / 10000000real;
    lemma_near_self(turn, 8real);
    assert(near(turn, e, 1real, 8real));
    let centre = f + w * osc;
    lemma_near_mul(turn, e, 1real, 8real, centre, fv + wv * l, 5real, 131072real);
    lemma_near_mul(
        turn * centre,
        e * (fv + wv * l),
        9real,
        1048576real,
        s,
        sv,
        0real,
        sv,
    );
}

/// A sample goes through one filter after another: each one is given what the one before it makes
/// of the sample, the first one the sample itself, and remembers that. What is behind them stays.
pub proof fn law_filters_in_turn(filters: Seq<Allpass>, x: Single, count: nat, j: int)
    requires
        0 <= j < filters.len(),
        count <= filters.len(),
    ensures
        phaser::through(filters, x, 0) == x,
        phaser::through(filters, x, (j + 1) as nat) == filters[j].response(
            phaser::through(filters, x, j as nat),
        ),
        phaser::advanced(filters, x, count).len() == filters.len(),
        j < count ==> {
            let f = phaser::advanced(filters, x, count)[j];
            &&& f.x1 == phaser::through(filters, x, j as nat)
            &&& f.y1 == phaser::through(filters, x, (j + 1) as nat)
            &&& f.b0 == filters[j].b0 && f.b1 == filters[j].b1 && f.a1 == filters[j].a1
        },
        j >= count ==> phaser::advanced(filters, x, count)[j] == filters[j],
{
    assert((j + 1 - 1) as nat == j);
}

/// Which filters a sample finds: where they are due and the frequency is a number, as many as there
/// are stages are tuned to the tangent of this sample; all others are as the last sample left them.
pub proof fn law_phaser_filters(
    sweep: Sweep,
    params: PhaserParams,
    ch: usize,
    sines: Seq<Single>,
    tans: Seq<Single>,
    lane: Lane,
    i: nat,
    j: int,
)
    requires
        sweep.counter + i < 0x1_0000_0000,
        0 <= j < lane.filters.len(),
    ensures
        ({
            let found = phaser::filters_at(sweep, params, ch, sines, tans, lane, i);
            let goal = sweep.after(params, i).frequency(params, ch, sines[i as int], i as int);
            let retuned = (sweep.counter + i) % 32 == 0 && !goal.is_nan();
            &&& found.len() == lane.filters.len()
            &&& retuned && j < params.stages.count() ==> found[j] == lane.filters[j].tuned(
                tans[i as int],
            )
            &&& !retuned || j >= params.stages.count() ==> found[j] == lane.filters[j]
        }),
{
    law_retuned_every_32(sweep, params, i);
}

/// What the phaser makes of a sample: what goes out is the sample with half of the difference to
/// what the filters make of it, times the depth; what the filters are given is the sample and so
/// much of what they last made as the feedback says.
pub proof fn law_phaser_sample(
    sweep: Sweep,
    params: PhaserParams,
    ch: usize,
    sines: Seq<Single>,
    tans: Seq<Single>,
    lane: Lane,
    input: Seq<Single>,
    i: nat,
    m: real,
)
    requires
        loud(m),
        input[i as int].is_finite() && -m <= input[i as int].amount() <= m,
        within(params.depth@[i as int], num(0), num(0x3f80_0000)),
        within(params.feedback@[i as int], num(0), num(0x3f80_0000)),
        ({
            let now = phaser::lane_after(sweep, params, ch, sines, tans, lane, input, i);
            let then = phaser::lane_after(sweep, params, ch, sines, tans, lane, input, i + 1);
            &&& now.feedback.is_finite() && -m <= now.feedback.amount() <= m
            &&& then.feedback.is_finite() && -m <= then.feedback.amount() <= m
        }),
    ensures
        ({
            let now = phaser::lane_after(sweep, params, ch, sines, tans, lane, input, i);
            let then = phaser::lane_after(sweep, params, ch, sines, tans, lane, input, i + 1);
            let found = phaser::filters_at(sweep, params, ch, sines, tans, now, i);
            let given = phaser::fed(params, now, input, i as int);
            let count = params.stages.count() as nat;
            let all = phaser::rendered(sweep, params, ch, sines, tans, lane, input, i + 1);
            let out = all[i as int];
            let (x, d) = (input[i as int].amount(), params.depth@[i as int].amount());
            &&& then.filters == phaser::advanced(found, given, count)
            &&& then.feedback == phaser::through(found, given, count)
            &&& near(
                given,
                x + params.feedback@[i as int].amount() * now.feedback.amount(),
                5real,
                2real * m,
            )
            &&& near(out, x + d * (then.feedback.amount() - x) / 2real, 10real, 2real * m)
        }),
{
    lemma_numbers();
    let now = phaser::lane_after(sweep, params, ch, sines, tans, lane, input, i);
    let then = phaser::lane_after(sweep, params, ch, sines, tans, lane, input, i + 1);
    let j = i as int;
    assert((i + 1 - 1) as nat == i);
    let (sample, depth, back) = (input[j], params.depth@[j], params.feedback@[j]);
    lemma_unit_factor(depth);
    lemma_unit_factor(back);
    let (x, d, f) = (sample.amount(), depth.amount(), back.amount());
    let (last, wet) = (now.feedback, then.feedback);
    lemma_near_self(sample, m);
    lemma_near_self(last, m);
    lemma_near_self(wet, m);
    lemma_near_mul(back, f, 0real, 1real, last, last.amount(), 0real, m);
    assert(1real * m == m && 1real * (2real * m) == 2real * m && (2real * m) * (1real / 2real) == m)
        by (nonlinear_arith);
    lemma_near_wider(sample, x, 0real, m, 3real, m);
    lemma_near_add(sample, x, m, back * last, f * last.amount(), m, 3real);
    let w = wet.amount() - x;
    lemma_near_sub(wet, wet.amount(), m, sample, x, m, 0real);
    lemma_near_mul(depth, d, 0real, 1real, wet - sample, w, 2real, 2real * m);
    let half = num(0x3f00_0000);
    lemma_near_self(half, 1real / 2real);
    let part = depth * (wet - sample);
    lemma_near_mul(part, d * w, 5real, 2real * m, half, 1real / 2real, 0real, 1real / 2real);
    assert(d * w * (1real / 2real) == d * w / 2real) by (nonlinear_arith);
    lemma_near_wider(sample, x, 0real, m, 8real, m);
    lemma_near_add(sample, x, m, part * half, d * w / 2real, m, 8real);
}

/// What the ring modulator sends out is the sample times the factor of that sample.
pub proof fn law_ringmod_sample(
    state: RingMod,
    params: RingModParams,
    sines: Seq<Single>,
    input: Seq<Single>,
    i: nat,
    n: nat,
    m: real,
)
    requires
        i < n,
        loud(m),
        input[i as int].is_finite() && -m <= input[i as int].amount() <= m,
        ({
            let g = state.gain_at(params, sines, i as int);
            g.is_finite() && -4real <= g.amount() <= 4real
        }),
    ensures
        ({
            let g = state.gain_at(params, sines, i as int);
            let out = state.rendered(params, sines, input, n);
            &&& out.len() == n
            &&& near(out[i as int], input[i as int].amount() * g.amount(), 3real, 4real * m)
        }),
{
    let (x, g) = (input[i as int], state.gain_at(params, sines, i as int));
    lemma_near_self(x, m);
    lemma_near_self(g, 4real);
    lemma_near_mul(x, x.amount(), 0real, m, g, g.amount(), 0real, 4real);
    assert(m * 4real == 4real * m) by (nonlinear_arith);
}


/// The factor of a sample in the ring modulator: one less what the depth takes of how far the
/// oscillator is from its top, both ways.
pub proof fn law_ringmod_gain(state: RingMod, params: RingModParams, sines: Seq<Single>, i: nat)
    requires
        within(params.depth@[i as int], num(0), num(0x3f80_0000)),
        within(
            ringmod::lfo(state.phase_at(params, i), params.waveform, sines[i as int]),
            num(0),
            num(0x3f80_0000),
        ),
    ensures
        state.phase_at(params, 0) == state.lfo_phase,
        state.phase_at(params, i) == phase_after_scaled(
            state.lfo_phase,
            params.frequency@,
            state.inv_sr,
            i,
        ),
        ({
            let l = ringmod::lfo(
                state.phase_at(params, i),
                params.waveform,
                sines[i as int],
            ).amount();
            let d = params.depth@[i as int].amount();
            near(
                state.gain_at(params, sines, i as int),
                1real - 2real * (d * (1real - l)),
                10real,
                5real,
            )
        }),
{
    law_modulation_gain(
        params.depth@[i as int],
        ringmod::lfo(state.phase_at(params, i), params.waveform, sines[i as int]),
    );
}

/// The oscillator of the wah-wah turns in automatic mode and stands still otherwise; that of the
/// phaser always turns.
pub proof fn law_wah_phase(
    state: WahWah,
    params: WahWahParams,
    sweep: Sweep,
    phaser: PhaserParams,
    i: nat,
)
    ensures
        params.mode is Manual ==> state.phase_at(params, i) == state.lfo_phase,
        params.mode is Automatic ==> state.phase_at(params, i) == phase_after_scaled(
            state.lfo_phase,
            params.lfo_rate@,
            state.inv_sr,
            i,
        ),
        sweep.phase_at(phaser, i) == phase_after_scaled(
            sweep.phase,
            phaser.lfo_rate@,
            sweep.inv_sr,
            i,
        ),
        sweep.after(phaser, i).phase == sweep.phase_at(phaser, i),
{
}

} // verus!
