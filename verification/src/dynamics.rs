//! What the compressor and the wah-wah follow, as real numbers: levels, curves, envelopes and the
//! centre of a sweep.
use crate::{compressor, follower, wahwah};
use crate::compressor::{CompressorDsp, CompressorParams, Detection, Mode};
use crate::echoes::{law_linear, lemma_count, lemma_unit_factor, loud};
use crate::float::facts::{lemma_constant, lemma_constants, within};
use crate::float::near::{
    lemma_near_add, lemma_near_div, lemma_near_mul, lemma_near_self, lemma_near_sub,
    lemma_near_wider, lemma_ratio, near,
};
use crate::float::single::{num, Single};
use crate::modulation::{linear, unipolar};
use crate::oscillators::{lemma_numbers, lemma_ordered, lemma_turned_round};
use crate::spatial::lemma_size;
use crate::wahwah::{Drive, WahWahParams};
use vstd::arithmetic::power2::{lemma2_to64, lemma2_to64_rest};
use vstd::prelude::*;

verus! {

/// What a follower comes to: so much of the last value as the coefficient says, and the rest of
/// what it follows.
pub proof fn law_eased(last: Single, target: Single, co: Single, m: real)
    requires
        loud(m),
        last.is_finite() && -m <= last.amount() <= m,
        target.is_finite() && -m <= target.amount() <= m,
        within(co, num(0), num(0x3f80_0000)),
    ensures
        near(
            follower::eased(last, target, co),
            co.amount() * last.amount() + (1real - co.amount()) * target.amount(),
            7real,
            3real * m,
        ),
{
    lemma_numbers();
    lemma_unit_factor(co);
    let (one, c, l, t) = (num(0x3f80_0000), co.amount(), last.amount(), target.amount());
    lemma_near_self(one, 1real);
    lemma_near_self(last, m);
    lemma_near_self(target, m);
    lemma_near_mul(co, c, 0real, 1real, last, l, 0real, m);
    assert(1real * m == m) by (nonlinear_arith);
    lemma_near_sub(one, 1real, 1real, co, c, 1real, 0real);
    lemma_near_mul(one - co, 1real - c, 2real, 2real, target, t, 0real, m);
    lemma_near_wider(co * last, c * l, 3real, m, 5real, m);
    lemma_near_add(co * last, c * l, m, (one - co) * target, (1real - c) * t, 2real * m, 5real);
}

/// A follower with a time to take remembers as much as the power says, and one without nothing.
pub proof fn law_no_time_no_memory(time: Single, power: Single)
    requires
        time.is_finite(),
    ensures
        time.amount() > 0real ==> follower::attack_release_coeff(time, power) == power,
        time.amount() <= 0real ==> follower::attack_release_coeff(time, power).is_finite()
            && follower::attack_release_coeff(time, power).amount() == 0real,
{
    lemma_numbers();
    lemma_ordered(time, num(0));
}

/// The exponent of a follower is how many times its time goes into a sample.
pub proof fn law_follower_exponents(
    inv_sr: Single,
    attack: Seq<Single>,
    release: Seq<Single>,
    n: nat,
    i: int,
)
    requires
        0 <= i < n,
        inv_sr.is_finite() && 1real / 16777216real <= inv_sr.amount() <= 1real,
        attack[i].is_finite() && 1real / 16777216real <= attack[i].amount() <= 1024real,
        release[i].is_finite() && 1real / 16777216real <= release[i].amount() <= 1024real,
    ensures
        ({
            let all = follower::exponent_pairs(inv_sr, attack, release, n);
            let (a, r) = (
                inv_sr.amount() / attack[i].amount(),
                inv_sr.amount() / release[i].amount(),
            );
            &&& all.len() == n
            &&& near(all[i].0, a, 3real, a)
            &&& near(all[i].1, r, 3real, r)
        }),
{
    lemma_quotient(inv_sr, attack[i]);
    lemma_quotient(inv_sr, release[i]);
}

/// A quotient of positive numbers.
proof fn lemma_quotient(x: Single, y: Single)
    requires
        x.is_finite() && 1real / 16777216real <= x.amount() <= 1real,
        y.is_finite() && 1real / 16777216real <= y.amount() <= 1024real,
    ensures
        near(x / y, x.amount() / y.amount(), 3real, x.amount() / y.amount()),
{
    let (a, b) = (x.amount(), y.amount());
    lemma_near_self(x, a);
    lemma_near_self(y, b);
    assert(1real / 17179869184real <= a / b <= 16777216real) by (nonlinear_arith)
        requires
            1real / 16777216real <= a <= 1real,
            1real / 16777216real <= b <= 1024real,
    ;
    assert(0real * b == 0real) by (nonlinear_arith);
    lemma_near_div(x, a, 0real, a, y, b, 0real, b, b, 0real);
}

/// What a level becomes: below the threshold the compressor leaves it, and above it what is over
/// the threshold is divided by the ratio; the expander leaves it above, and below multiplies what
/// is under the threshold by the ratio.
pub proof fn law_curve(mode: Mode, xg: Single, t: Single, r: Single)
    requires
        xg.is_finite() && -1024real <= xg.amount() <= 1024real,
        t.is_finite() && -1024real <= t.amount() <= 1024real,
        r.is_finite() && 1real <= r.amount() <= 1024real,
    ensures
        ({
            let (x, b, q) = (xg.amount(), t.amount(), r.amount());
            let y = compressor::curve(mode, xg, t, r);
            &&& mode is Compressor && x < b ==> y == xg
            &&& mode is Compressor && x >= b ==> near(y, b + (x - b) / q, 9real, 3072real)
            &&& mode is Expander && x > b ==> y == xg
            &&& mode is Expander && x <= b ==> near(y, b + (x - b) * q, 7real, 4096real * q)
        }),
{
    lemma_ordered(xg, t);
    let (x, b, q) = (xg.amount(), t.amount(), r.amount());
    lemma_near_self(xg, 1024real);
    lemma_near_self(t, 1024real);
    lemma_near_self(r, q);
    lemma_near_sub(xg, x, 1024real, t, b, 1024real, 0real);
    let d = x - b;
    let part = 2048real / q;
    assert(2real <= part <= 2048real && 0real * q == 0real) by (nonlinear_arith)
        requires
            part == 2048real / q,
            1real <= q <= 1024real,
    ;
    lemma_near_div(xg - t, d, 2real, 2048real, r, q, 0real, q, q, 0real);
    lemma_near_wider((xg - t) / r, d / q, 7real, part, 7real, 2048real);
    lemma_near_wider(t, b, 0real, 1024real, 7real, 1024real);
    lemma_near_add(t, b, 1024real, (xg - t) / r, d / q, 2048real, 7real);
    let whole = 2048real * q;
    lemma_near_mul(xg - t, d, 2real, 2048real, r, q, 0real, q);
    lemma_near_wider(t, b, 0real, 1024real, 5real, 1024real);
    lemma_near_add(t, b, 1024real, (xg - t) * r, d * q, whole, 5real);
    lemma_near_wider(
        t + (xg - t) * r,
        b + d * q,
        7real,
        1024real + whole,
        7real,
        4096real * q,
    );
}

/// The level that is detected: the square of the mean for the compressor; for the expander 0.9999
/// of the last level and a ten-thousandth of the square.
pub proof fn law_detected(mode: Mode, level: Single, mix: Single, m: real)
    requires
        loud(m),
        level.is_finite() && -(m * m) <= level.amount() <= m * m,
        mix.is_finite() && -m <= mix.amount() <= m,
        1real / 32768real <= m <= 32768real,
    ensures
        ({
            let x = compressor::detected(mode, level, mix);
            let square = mix.amount() * mix.amount();
            &&& mode is Compressor ==> near(x, square, 3real, m * m)
            &&& mode is Expander ==> near(
                x,
                9999real / 10000real * level.amount() + 1real / 10000real * square,
                12real,
                3real * (m * m),
            )
        }),
{
    lemma_numbers();
    lemma_constants();
    lemma2_to64();
    lemma_constant(0x3f7f_f972, 0x100_0000, 0xff_f972);
    let (factor, one) = (num(0x3f7f_f972), num(0x3f80_0000));
    lemma_ratio(factor, 0x100_0000, 0xff_f972);
    let (a, b) = (9999real / 10000real, 1real / 10000real);
    lemma_near_self(factor, 1real);
    lemma_near_self(one, 1real);
    assert(near(factor, a, 1real, 1real));
    lemma_near_wider(one, 1real, 0real, 1real, 1real, 1real);
    lemma_near_sub(one, 1real, 1real, factor, a, 1real, 1real);
    assert(near(one - factor, b, 3real, 2real));
    let (x, l, mm) = (mix.amount(), level.amount(), m * m);
    assert(1real / 1073741824real <= mm <= 1073741824real) by (nonlinear_arith)
        requires
            mm == m * m,
            1real / 32768real <= m <= 32768real,
    ;
    lemma_near_self(mix, m);
    lemma_near_self(level, mm);
    lemma_near_mul(mix, x, 0real, m, mix, x, 0real, m);
    let square = mix * mix;
    lemma_near_mul(factor, a, 1real, 1real, level, l, 0real, mm);
    lemma_near_mul(one - factor, b, 3real, 2real, square, x * x, 3real, mm);
    assert(1real * mm == mm) by (nonlinear_arith);
    lemma_near_wider(factor * level, a * l, 4real, mm, 9real, mm);
    lemma_near_add(
        factor * level,
        a * l,
        mm,
        (one - factor) * square,
        b * (x * x),
        2real * mm,
        9real,
    );
    lemma_near_wider(
        factor * level + (one - factor) * square,
        a * l + b * (x * x),
        11real,
        mm + 2real * mm,
        12real,
        3real * mm,
    );
}

/// A level in decibels is ten times its common logarithm, and no level under a millionth counts as
/// less than -60.
pub proof fn law_decibels(level: Single, log: Single, m: real)
    requires
        loud(m),
        level.is_finite(),
        log.is_finite() && -m <= log.amount() <= m,
    ensures
        ({
            let x = compressor::decibels(level, log);
            &&& level.amount() * 1000000real <= 999999real / 1000000real ==> x.is_finite()
                && x.amount() == -60real
            &&& level.amount() * 1000000real >= 1real ==> near(
                x,
                10real * log.amount(),
                3real,
                10real * m,
            )
        }),
{
    lemma_numbers();
    lemma_constants();
    lemma2_to64();
    lemma2_to64_rest();
    lemma_constant(0x3586_37bd, 0x800_0000_0000, 0x86_37bd);
    lemma_constant(0x4120_0000, 0x10_0000, 0xa0_0000);
    lemma_constant(0x4270_0000, 0x4_0000, 0xf0_0000);
    let (floor, ten, sixty, low) = (
        num(0x3586_37bd),
        num(0x4120_0000),
        num(0x4270_0000),
        num(0xc270_0000),
    );
    lemma_ratio(floor, 0x800_0000_0000, 0x86_37bd);
    lemma_ratio(ten, 0x10_0000, 0xa0_0000);
    lemma_ratio(sixty, 0x4_0000, 0xf0_0000);
    assert(low == sixty.negated()) by {
        reveal(Single::negated_spec);
    }
    lemma_turned_round(sixty);
    lemma_ordered(level, floor);
    lemma_near_self(ten, 10real);
    lemma_near_self(log, m);
    lemma_near_mul(ten, 10real, 0real, 10real, log, log.amount(), 0real, m);
}

/// What the gain reduction comes to: the compressor attacks where it has to rise, the expander
/// where it has to fall, and otherwise they release.
pub proof fn law_smoothed(
    mode: Mode,
    last: Single,
    xl: Single,
    attack: Single,
    release: Single,
    m: real,
)
    requires
        loud(m),
        last.is_finite() && -m <= last.amount() <= m,
        xl.is_finite() && -m <= xl.amount() <= m,
        within(attack, num(0), num(0x3f80_0000)),
        within(release, num(0), num(0x3f80_0000)),
    ensures
        ({
            let attacks = match mode {
                Mode::Compressor => xl.amount() > last.amount(),
                Mode::Expander => xl.amount() < last.amount(),
            };
            let co = if attacks { attack.amount() } else { release.amount() };
            near(
                compressor::smoothed(mode, last, xl, attack, release),
                co * last.amount() + (1real - co) * xl.amount(),
                7real,
                3real * m,
            )
        }),
{
    lemma_ordered(xl, last);
    law_eased(last, xl, attack, m);
    law_eased(last, xl, release, m);
}

/// The first `count` channels at sample `i` added up as real numbers.
pub open spec fn total(input: Seq<Vec<Single>>, i: int, count: nat) -> real
    decreases count,
{
    if count == 0 {
        0real
    } else {
        total(input, i, (count - 1) as nat) + input[count - 1]@[i].amount()
    }
}

/// Whether all channels at sample `i` are no further from zero than `m`.
pub open spec fn bounded_at(input: Seq<Vec<Single>>, i: int, m: real) -> bool {
    forall|ch: int|
        0 <= ch < input.len() ==> (#[trigger] input[ch])@[i].is_finite() && -m
            <= input[ch]@[i].amount() <= m
}

/// Channels added up one by one.
proof fn lemma_added_up(input: Seq<Vec<Single>>, i: int, count: nat, m: real)
    requires
        loud(m),
        count <= input.len(),
        count <= 256,
        bounded_at(input, i, m),
    ensures
        near(
            compressor::channel_sum(input, i, count),
            total(input, i, count),
            2real * (count as real),
            (count as real) * m,
        ),
    decreases count,
{
    lemma_numbers();
    if count == 0 {
        lemma_near_self(num(0), 0real);
        assert(0real * m == 0real) by (nonlinear_arith);
    } else {
        let k = (count - 1) as nat;
        lemma_added_up(input, i, k, m);
        let (c, x) = (k as real, input[count - 1]@[i]);
        let e = 2real * c;
        let most = c * m;
        assert(input[count - 1]@[i].is_finite());
        assert(0real <= most <= 274877906944real && (c + 1real) * m == most + m)
            by (nonlinear_arith)
            requires
                most == c * m,
                0real <= c <= 256real,
                0real < m <= 1073741824real,
        ;
        assert(count as real == c + 1real);
        lemma_near_self(x, m);
        lemma_near_wider(x, x.amount(), 0real, m, e, m);
        let sum = compressor::channel_sum(input, i, k);
        lemma_near_add(sum, total(input, i, k), most, x, x.amount(), m, e);
        assert(2real * (count as real) == e + 2real);
        assert((count as real) * m == most + m);
    }
}

/// What the level is taken from is the mean of the channels.
pub proof fn law_mean(input: Seq<Vec<Single>>, i: int, m: real)
    requires
        loud(m),
        1 <= input.len() <= 256,
        bounded_at(input, i, m),
    ensures
        near(
            compressor::mixdown(input, i),
            total(input, i, input.len()) / (input.len() as real),
            2real * (input.len() as real) + 6real,
            m,
        ),
{
    lemma_numbers();
    let n = input.len() as usize;
    lemma_added_up(input, i, input.len(), m);
    lemma_count(n);
    let (one, count, c) = (num(0x3f80_0000), Single::from_usize(n), n as real);
    lemma_near_self(one, 1real);
    lemma_near_self(count, c);
    let part = 1real / c;
    let most = c * m;
    assert(1real / 256real <= part <= 1real && 0real * c == 0real && most * part == m)
        by (nonlinear_arith)
        requires
            part == 1real / c,
            most == c * m,
            1real <= c <= 256real,
    ;
    lemma_near_div(one, 1real, 0real, 1real, count, c, 0real, c, c, 0real);
    let (sum, all) = (compressor::channel_sum(input, i, input.len()), total(input, i, input.len()));
    lemma_near_mul(sum, all, 2real * c, most, one / count, part, 3real, part);
    assert(all * part == all / c) by (nonlinear_arith)
        requires
            part == 1real / c,
            c >= 1real,
    ;
}

/// From one sample to the next: the level goes on with the mean of the sample, and the gain
/// reduction with what the curve takes off that level in decibels.
pub proof fn law_compressor_goes_on(
    state: CompressorDsp,
    params: CompressorParams,
    detection: Detection,
    input: Seq<Vec<Single>>,
    i: nat,
)
    ensures
        compressor::level_after(params.mode, state.input_level, input, 0) == state.input_level,
        compressor::reduction_after(state, params, detection, input, 0) == state.yl_prev,
        ({
            let j = i as int;
            let level = compressor::level_after(params.mode, state.input_level, input, i);
            let heard = compressor::level_after(params.mode, state.input_level, input, i + 1);
            let last = compressor::reduction_after(state, params, detection, input, i);
            let xg = compressor::decibels(heard, detection.logs@[j]);
            let yg = compressor::curve(params.mode, xg, params.threshold@[j], params.ratio@[j]);
            let attack = follower::attack_release_coeff(
                params.attack@[j],
                detection.powers@[j].0,
            );
            let release = follower::attack_release_coeff(
                params.release@[j],
                detection.powers@[j].1,
            );
            &&& heard == compressor::detected(params.mode, level, compressor::mixdown(input, j))
            &&& compressor::reduction_after(state, params, detection, input, i + 1)
                == compressor::smoothed(params.mode, last, xg - yg, attack, release)
        }),
{
    assert((i + 1 - 1) as nat == i);
}

/// The power of ten that the gain of a sample is: the make-up less the reduction with that sample
/// in it, in decibels, over twenty.
pub proof fn law_control(
    state: CompressorDsp,
    params: CompressorParams,
    detection: Detection,
    input: Seq<Vec<Single>>,
    i: nat,
    m: real,
)
    requires
        loud(m),
        params.makeup@[i as int].is_finite() && -m <= params.makeup@[i as int].amount() <= m,
        ({
            let x = compressor::reduction_after(state, params, detection, input, i + 1);
            x.is_finite() && -m <= x.amount() <= m
        }),
    ensures
        ({
            let x = compressor::reduction_after(state, params, detection, input, i + 1);
            near(
                compressor::control_exponent(state, params, detection, input, i as int),
                (params.makeup@[i as int].amount() - x.amount()) / 20real,
                6real,
                m / 8real,
            )
        }),
{
    let x = compressor::reduction_after(state, params, detection, input, i + 1);
    let y = params.makeup@[i as int];
    lemma_near_self(x, m);
    lemma_near_self(y, m);
    lemma_near_sub(y, y.amount(), m, x, x.amount(), m, 0real);
    law_decibels_to_power(y - x, y.amount() - x.amount(), 2real, 2real * m);
}

/// A gain in decibels is the power of ten of a twentieth of it.
pub proof fn law_decibels_to_power(gain: Single, g: real, k: real, m: real)
    requires
        1real / 1073741824real <= m <= 4294967296real,
        0real <= k <= 1000real,
        near(gain, g, k, m),
    ensures
        near(gain * num(compressor::TWENTIETH), g / 20real, k + 4real, m / 16real),
{
    lemma_constants();
    lemma2_to64();
    lemma_constant(0x3d4c_cccd, 0x1000_0000, 0xcc_cccd);
    let t = num(0x3d4c_cccd);
    lemma_ratio(t, 0x1000_0000, 0xcc_cccd);
    let e = 1real / 20real;
    lemma_near_self(t, 1real / 16real);
    assert(near(t, e, 1real, 1real / 16real));
    lemma_near_mul(gain, g, k, m, t, e, 1real, 1real / 16real);
    assert(m * (1real / 16real) == m / 16real && g * e == g / 20real) by (nonlinear_arith)
        requires
            e == 1real / 20real,
    ;
}

/// What the envelope of the wah-wah comes to: it goes towards the size of the sample, up with the
/// one coefficient and down with the other.
pub proof fn law_followed(env: Single, x: Single, attack: Single, release: Single, m: real)
    requires
        loud(m),
        env.is_finite() && -m <= env.amount() <= m,
        x.is_finite() && -m <= x.amount() <= m,
        within(attack, num(0), num(0x3f80_0000)),
        within(release, num(0), num(0x3f80_0000)),
    ensures
        ({
            let size = if x.amount() < 0real { -x.amount() } else { x.amount() };
            let co = if size > env.amount() { attack.amount() } else { release.amount() };
            near(
                wahwah::followed(env, x, attack, release),
                co * env.amount() + (1real - co) * size,
                7real,
                3real * m,
            )
        }),
{
    lemma_size(x);
    lemma_ordered(x.abs(), env);
    law_eased(env, x.abs(), attack, m);
    law_eased(env, x.abs(), release, m);
}

/// Where the sweep of the wah-wah is: from 200 to 1300 hertz, as far as the oscillator says where
/// the mix is 0, and the envelope, up to 1, where it is 1, and in between in proportion.
pub proof fn law_swept(env: Single, osc: Single, mix: Single)
    requires
        env.is_finite(),
        within(osc, num(0), num(0x3f80_0000)),
        within(mix, num(0), num(0x3f80_0000)),
    ensures
        ({
            let (e, o, f) = (env.amount(), osc.amount(), mix.amount());
            let top = if e < 0real {
                0real
            } else if e > 1real {
                1real
            } else {
                e
            };
            near(
                wahwah::swept(env, osc, mix),
                200real + (o + f * (top - o)) * 1100real,
                12real,
                4096real,
            )
        }),
{
    lemma_numbers();
    lemma_constants();
    lemma2_to64();
    lemma_constant(0x4348_0000, 0x1_0000, 0xc8_0000);
    lemma_constant(0x4489_8000, 0x2000, 0x89_8000);
    let (low, span, zero, one) = (num(0x4348_0000), num(0x4489_8000), num(0), num(0x3f80_0000));
    lemma_ratio(low, 0x1_0000, 0xc8_0000);
    lemma_ratio(span, 0x2000, 0x89_8000);
    lemma_unit_factor(osc);
    lemma_unit_factor(mix);
    lemma_ordered(env, zero);
    lemma_ordered(one, env);
    let top = env.clamp(zero, one);
    law_linear(osc, top, mix, 1real);
    let mixed = linear(osc, top, mix);
    let v = osc.amount() + mix.amount() * (top.amount() - osc.amount());
    lemma_near_self(span, 1100real);
    lemma_near_self(low, 200real);
    lemma_near_mul(mixed, v, 7real, 3real, span, 1100real, 0real, 1100real);
    lemma_near_wider(low, 200real, 0real, 200real, 10real, 200real);
    lemma_near_add(low, 200real, 200real, mixed * span, v * 1100real, 3300real, 10real);
}

/// From one sample to the next the envelope of the wah-wah goes on with the sample, and the centre
/// is the one set by hand or, in automatic mode, that of the sweep with the sample in the envelope.
pub proof fn law_wah_goes_on(
    params: WahWahParams,
    drive: Drive,
    env: Single,
    input: Seq<Single>,
    i: nat,
)
    ensures
        wahwah::envelope_after(params, drive, env, input, 0) == env,
        ({
            let j = i as int;
            let now = wahwah::envelope_after(params, drive, env, input, i);
            let then = wahwah::envelope_after(params, drive, env, input, i + 1);
            &&& then == wahwah::followed(
                now,
                input[j],
                follower::attack_release_coeff(params.env_attack@[j], drive.powers@[j].0),
                follower::attack_release_coeff(params.env_release@[j], drive.powers@[j].1),
            )
            &&& params.mode is Manual ==> wahwah::centre_at(params, drive, env, input, j)
                == params.frequency@[j]
            &&& params.mode is Automatic ==> wahwah::centre_at(params, drive, env, input, j)
                == wahwah::swept(then, unipolar(drive.sines@[j]), params.lfo_env_mix@[j])
        }),
{
    assert((i + 1 - 1) as nat == i);
}

} // verus!
