//! What distortion gives, as real numbers: the shapes, the tone and what is made of a sample.
use crate::distortion;
use crate::distortion::{DistortionType, Levels, ToneShelf};
use crate::echoes::loud;
use crate::float::facts::{lemma_constant, lemma_constants, lemma_finite_number};
use crate::float::near::{
    lemma_amount_order, lemma_near_add, lemma_near_div, lemma_near_mul, lemma_near_self,
    lemma_near_sub, lemma_near_wider, lemma_ratio, lemma_root, near,
};
use crate::float::reals::lemma_bounded_product;
use crate::float::single::{num, Single};
use crate::oscillators::{lemma_numbers, lemma_ordered, lemma_turned_round};
use crate::spatial::lemma_size;
use crate::sweeps::lemma_first_order;
use vstd::arithmetic::power2::lemma2_to64;
use vstd::prelude::*;

verus! {

/// Hard clipping leaves what is no further from zero than a half and takes the rest to a half.
pub proof fn law_hard_clip(x: Single, exp: Single)
    requires
        x.is_finite(),
    ensures
        ({
            let (y, a) = (distortion::shape(x, DistortionType::HardClipping, exp), x.amount());
            &&& y.is_finite()
            &&& y.amount() == if a > 1real / 2real {
                1real / 2real
            } else if a < -1real / 2real {
                -1real / 2real
            } else {
                a
            }
        }),
{
    lemma_numbers();
    lemma_ordered(x, num(0xbf00_0000));
    lemma_ordered(num(0x3f00_0000), x);
}

/// The rectifiers: one turns what is under zero round, the other one takes it to zero.
pub proof fn law_rectifiers(x: Single, exp: Single)
    requires
        x.is_finite(),
    ensures
        ({
            let full = distortion::shape(x, DistortionType::FullWaveRectifier, exp);
            let half = distortion::shape(x, DistortionType::HalfWaveRectifier, exp);
            let a = x.amount();
            &&& full.is_finite() && half.is_finite()
            &&& full.amount() == if a < 0real { -a } else { a }
            &&& half.amount() == if a < 0real { 0real } else { a }
        }),
{
    lemma_numbers();
    lemma_finite_number(x);
    lemma_size(x);
    lemma_ordered(x, num(0));
}

/// The exponential shape: as far from one, on the side of the sample, as the exponential of minus
/// its size.
pub proof fn law_exponential(x: Single, exp: Single)
    requires
        x.is_finite(),
        exp.is_finite() && 0real <= exp.amount() <= 1real,
    ensures
        ({
            let (y, a, e) = (
                distortion::shape(x, DistortionType::Exponential, exp),
                x.amount(),
                exp.amount(),
            );
            &&& near(y, if a > 0real { 1real - e } else { e - 1real }, 2real, 2real)
            &&& distortion::exponent(x).is_finite()
            &&& distortion::exponent(x).amount() == if a < 0real { a } else { -a }
        }),
{
    lemma_numbers();
    lemma_ordered(x, num(0));
    lemma_turned_round(x);
    let (one, less, e) = (num(0x3f80_0000), num(0xbf80_0000), exp.amount());
    lemma_near_self(one, 1real);
    lemma_near_self(less, 1real);
    lemma_near_self(exp, 1real);
    lemma_near_sub(one, 1real, 1real, exp, e, 1real, 0real);
    lemma_near_add(less, -1real, 1real, exp, e, 1real, 0real);
}

/// Where the soft knee bends.
proof fn lemma_thirds()
    ensures
        num(0x3eaa_aaab).is_finite(),
        num(0x3eaa_aaab).amount() == 11184811real / 33554432real,
        num(0x3eaa_aaab).negated().is_finite(),
        num(0x3eaa_aaab).negated().amount() == -11184811real / 33554432real,
        num(0x3f2a_aaab).is_finite(),
        num(0x3f2a_aaab).amount() == 11184811real / 16777216real,
        num(0x3f2a_aaab).negated().is_finite(),
        num(0x3f2a_aaab).negated().amount() == -11184811real / 16777216real,
{
    lemma_constants();
    lemma2_to64();
    lemma_constant(0x3eaa_aaab, 0x200_0000, 0xaa_aaab);
    lemma_constant(0x3f2a_aaab, 0x100_0000, 0xaa_aaab);
    lemma_ratio(num(0x3eaa_aaab), 0x200_0000, 0xaa_aaab);
    lemma_ratio(num(0x3f2a_aaab), 0x100_0000, 0xaa_aaab);
    lemma_turned_round(num(0x3eaa_aaab));
    lemma_turned_round(num(0x3f2a_aaab));
}

/// The bow of the soft knee, from its foot.
proof fn lemma_bow(inner: Single, i: real)
    requires
        near(inner, i, 13real, 2real),
    ensures
        near((inner * inner) / num(0x4040_0000), i * i / 3real, 61real, 4real / 3real),
{
    lemma_numbers();
    let three = num(0x4040_0000);
    lemma_near_mul(inner, i, 13real, 2real, inner, i, 13real, 2real);
    lemma_near_self(three, 3real);
    lemma_near_div(
        inner * inner,
        i * i,
        29real,
        4real,
        three,
        3real,
        0real,
        3real,
        3real,
        0real,
    );
}

/// Soft clipping: up to a third of the way from zero a sample stays what it is; from two thirds on
/// it is a half; and in between it is half of one less a third of the square of two less three
/// times the sample, on either side of zero.
pub proof fn law_soft_clip(x: Single)
    requires
        x.is_finite(),
    ensures
        ({
            let (y, a) = (distortion::soft_clipped(x), x.amount());
            let size = if a < 0real { -a } else { a };
            let bow = (1real - (2real - 3real * size) * (2real - 3real * size) / 3real) / 2real;
            &&& size <= 1real / 3real ==> near(y, a, 6real, 1real)
            &&& 333334real / 1000000real <= size <= 2real / 3real ==> near(
                y,
                if a < 0real { -bow } else { bow },
                66real,
                2real,
            )
            &&& size >= 666667real / 1000000real ==> near(
                y,
                if a < 0real { -1real / 2real } else { 1real / 2real },
                3real,
                1real / 2real,
            )
        }),
{
    lemma_numbers();
    lemma_thirds();
    let (third, two_thirds) = (num(0x3eaa_aaab), num(0x3f2a_aaab));
    lemma_ordered(x, two_thirds);
    lemma_ordered(x, third);
    lemma_ordered(x, two_thirds.negated());
    lemma_ordered(x, third.negated());
    let (half, one, less, two, three) = (
        num(0x3f00_0000),
        num(0x3f80_0000),
        num(0xbf80_0000),
        num(0x4000_0000),
        num(0x4040_0000),
    );
    let a = x.amount();
    lemma_near_self(half, 1real / 2real);
    lemma_near_self(one, 1real);
    lemma_near_self(less, 1real);
    lemma_near_self(two, 2real);
    lemma_near_self(three, 3real);
    lemma_near_mul(one, 1real, 0real, 1real, half, 1real / 2real, 0real, 1real / 2real);
    lemma_near_mul(less, -1real, 0real, 1real, half, 1real / 2real, 0real, 1real / 2real);
    if -1real <= a <= 1real {
        lemma_near_self(x, 1real);
        lemma_near_mul(two, 2real, 0real, 2real, x, a, 0real, 1real);
        lemma_near_mul(two * x, 2real * a, 3real, 2real, half, 1real / 2real, 0real, 1real / 2real);
        assert(2real * a * (1real / 2real) == a) by (nonlinear_arith);
        lemma_near_mul(three, 3real, 0real, 3real, x, a, 0real, 1real);
        lemma_near_wider(two, 2real, 0real, 2real, 3real, 2real);
        lemma_near_sub(two, 2real, 2real, three * x, 3real * a, 3real, 3real);
        lemma_near_add(two, 2real, 2real, three * x, 3real * a, 3real, 3real);
        let (i, j) = (2real - 3real * a, 2real + 3real * a);
        let (down, up) = (two - three * x, two + three * x);
        let (p, q) = (i * i / 3real, j * j / 3real);
        lemma_near_wider(one, 1real, 0real, 1real, 61real, 1real);
        lemma_near_wider(less, -1real, 0real, 1real, 61real, 1real);
        if a > 1real / 4real {
            assert(near(down, i, 13real, 2real));
            lemma_bow(down, i);
            let bow = (down * down) / three;
            lemma_near_sub(one, 1real, 1real, bow, p, 4real / 3real, 61real);
            lemma_near_mul(
                one - bow,
                1real - p,
                63real,
                7real / 3real,
                half,
                1real / 2real,
                0real,
                1real / 2real,
            );
            assert((1real - p) * (1real / 2real) == (1real - p) / 2real) by (nonlinear_arith);
            let v = (1real - p) / 2real;
            lemma_near_wider((one - bow) * half, v, 66real, 7real / 6real, 66real, 2real);
        }
        if a < -1real / 4real {
            assert(near(up, j, 13real, 2real));
            lemma_bow(up, j);
            let bow = (up * up) / three;
            lemma_near_add(less, -1real, 1real, bow, q, 4real / 3real, 61real);
            lemma_near_mul(
                less + bow,
                -1real + q,
                63real,
                7real / 3real,
                half,
                1real / 2real,
                0real,
                1real / 2real,
            );
            assert((-1real + q) * (1real / 2real) == -((1real - q) / 2real)) by (nonlinear_arith);
            assert(q == (2real - 3real * (-a)) * (2real - 3real * (-a)) / 3real)
                by (nonlinear_arith)
                requires
                    q == j * j / 3real,
                    j == 2real + 3real * a,
            ;
            let v = -((1real - q) / 2real);
            lemma_near_wider((less + bow) * half, v, 66real, 7real / 6real, 66real, 2real);
        }
    }
}

/// The tone passes what is slow as it is, and what alternates from sample to sample times the gain.
/// It turns over at the cut-off, at the root of the gain, which is what is returned.
pub proof fn law_tone(shelf: ToneShelf, gain: Single, tan: Single) -> (r: real)
    requires
        gain.is_finite() && 1real / 64real <= gain.amount() <= 64real,
        tan.is_finite() && 1real / 1048576real <= tan.amount() <= 1real,
    ensures
        r > 0real,
        -gain.amount() <= 8388608real * (r * r - gain.amount()) <= gain.amount(),
        ({
            let s = shelf.toned(gain, tan);
            let (b0, b1, a1) = (s.b0.amount(), s.b1.amount(), s.a1.amount());
            let p = r * tan.amount();
            &&& s.b0.is_finite() && s.b1.is_finite() && s.a1.is_finite()
            &&& s.x1 == shelf.x1 && s.y1 == shelf.y1
            &&& -4096real <= 8388608real * (b0 + b1 - (1real + a1)) <= 4096real
            &&& -4096real <= 8388608real * (b0 - b1 - gain.amount() * (1real - a1)) <= 4096real
            &&& -4096real <= 8388608real * (1real + a1 - p * (1real - a1)) <= 4096real
        }),
{
    lemma_numbers();
    lemma_constants();
    let one = num(0x3f80_0000);
    lemma_amount_order(gain, num(0));
    lemma_root(gain);
    let root = gain.sqrt();
    let (g, t, r) = (gain.amount(), tan.amount(), root.amount());
    assert(1real / 9real <= r <= 9real) by (nonlinear_arith)
        requires
            r > 0real,
            -g <= 8388608real * (r * r - g) <= g,
            1real / 64real <= g <= 64real,
    ;
    let p = r * t;
    assert(1real / 16777216real <= p <= 9real) by (nonlinear_arith)
        requires
            p == r * t,
            1real / 9real <= r <= 9real,
            1real / 1048576real <= t <= 1real,
    ;
    lemma_near_self(root, r);
    lemma_near_self(tan, t);
    lemma_near_self(one, 1real);
    lemma_near_self(gain, g);
    lemma_near_mul(root, r, 0real, r, tan, t, 0real, t);
    let rt = root * tan;
    lemma_near_wider(one, 1real, 0real, 1real, 3real, 1real);
    lemma_near_wider(gain, g, 0real, g, 3real, g);
    lemma_near_add(rt, p, p, one, 1real, 1real, 3real);
    lemma_near_sub(rt, p, p, one, 1real, 1real, 3real);
    lemma_near_add(rt, p, p, gain, g, g, 3real);
    lemma_near_sub(rt, p, p, gain, g, g, 3real);
    let n = p + 1real;
    let i = 1real / n;
    assert(n * i == 1real && 1real / 10real <= i <= 1real) by (nonlinear_arith)
        requires
            i == 1real / n,
            1real <= n <= 10real,
    ;
    lemma_near_self(one, 1real);
    lemma_near_div(one, 1real, 0real, 1real, rt + one, n, 5real, n, n, 5real);
    let inv = one / (rt + one);
    let most = (p + g) * i;
    assert(1real / 1024real <= most <= 64real) by (nonlinear_arith)
        requires
            most == (p + g) * i,
            n * i == 1real,
            n == p + 1real,
            1real / 10real <= i,
            0real <= p,
            1real / 64real <= g <= 64real,
    ;
    lemma_near_mul(rt + gain, p + g, 5real, p + g, inv, i, 13real, i);
    lemma_near_mul(rt - gain, p - g, 5real, p + g, inv, i, 13real, i);
    lemma_near_mul(rt - one, p - 1real, 5real, n, inv, i, 13real, i);
    let (b0, b1, a1) = ((p + g) * i, (p - g) * i, (p - 1real) * i);
    assert(b0 + b1 == 1real + a1 && b0 - b1 == g * (1real - a1) && 1real + a1 == p * (1real - a1))
        by (nonlinear_arith)
        requires
            b0 == (p + g) * i,
            b1 == (p - g) * i,
            a1 == (p - 1real) * i,
            (p + 1real) * i == 1real,
    ;
    let s = shelf.toned(gain, tan);
    let e = s.a1.amount() - a1;
    assert(near(s.a1, a1, 21real, 1real));
    lemma_near_wider(s.b0, b0, 21real, most, 21real, 64real);
    lemma_near_wider(s.b1, b1, 21real, most, 21real, 64real);
    lemma_bounded_product(g, 8388608real * e, 64real, 21real);
    lemma_bounded_product(p, 8388608real * e, 9real, 21real);
    assert(g * (1real - s.a1.amount()) == g * (1real - a1) - g * e && p * (1real - s.a1.amount())
        == p * (1real - a1) - p * e && g * (8388608real * e) == 8388608real * (g * e) && p * (
    8388608real * e) == 8388608real * (p * e)) by (nonlinear_arith)
        requires
            e == s.a1.amount() - a1,
    ;
    r
}

/// The angle whose tangent the tone needs: half of a two-hundredth of a turn.
pub proof fn law_tone_angle()
    ensures
        near(distortion::tone_angle(), 15707963real / 1000000000real, 5real, 1real / 32real),
{
    lemma_numbers();
    lemma_constants();
    lemma2_to64();
    lemma_constant(0x3d00_adfd, 0x1000_0000, 0x80_adfd);
    let (cut, half) = (num(0x3d00_adfd), num(0x3f00_0000));
    lemma_ratio(cut, 0x1000_0000, 0x80_adfd);
    let e = 31415926real / 1000000000real;
    lemma_near_self(cut, 1real / 16real);
    assert(near(cut, e, 1real, 1real / 16real));
    lemma_near_self(half, 1real / 2real);
    lemma_near_mul(cut, e, 1real, 1real / 16real, half, 1real / 2real, 0real, 1real / 2real);
}

/// What the tone makes of a sample, and what it remembers of it.
pub proof fn law_tone_sample(shelf: ToneShelf, x: Single, m: real)
    requires
        loud(m),
        shelf.b0.is_finite() && -64real <= shelf.b0.amount() <= 64real,
        shelf.b1.is_finite() && -64real <= shelf.b1.amount() <= 64real,
        shelf.a1.is_finite() && -64real <= shelf.a1.amount() <= 64real,
        x.is_finite() && -m <= x.amount() <= m,
        shelf.x1.is_finite() && -m <= shelf.x1.amount() <= m,
        shelf.y1.is_finite() && -m <= shelf.y1.amount() <= m,
    ensures
        shelf.stepped(x).x1 == x,
        shelf.stepped(x).y1 == shelf.response(x),
        shelf.stepped(x).b0 == shelf.b0,
        shelf.stepped(x).b1 == shelf.b1,
        shelf.stepped(x).a1 == shelf.a1,
        near(
            shelf.response(x),
            shelf.b0.amount() * x.amount() + shelf.b1.amount() * shelf.x1.amount()
                - shelf.a1.amount() * shelf.y1.amount(),
            7real,
            192real * m,
        ),
{
    lemma_first_order(shelf.b0, shelf.b1, shelf.a1, x, shelf.x1, shelf.y1, m);
}

/// What distortion makes of a sample: what goes into the shape is the sample times the input gain,
/// what that gives goes through the tone, which takes a new gain at every 512th sample, and what
/// comes out of it goes out times the output gain.
pub proof fn law_distorted_sample(
    ty: DistortionType,
    levels: Levels,
    exps: Seq<Single>,
    shelf: ToneShelf,
    input: Seq<Single>,
    i: nat,
    n: nat,
    m: real,
)
    requires
        i < n,
        loud(m),
        input[i as int].is_finite() && -m <= input[i as int].amount() <= m,
        levels.input@[i as int].is_finite() && -64real <= levels.input@[i as int].amount()
            <= 64real,
        levels.output@[i as int].is_finite() && -64real <= levels.output@[i as int].amount()
            <= 64real,
        ({
            let now = distortion::shelf_after(ty, levels, exps, shelf, input, i + 1);
            now.y1.is_finite() && -m <= now.y1.amount() <= m
        }),
    ensures
        distortion::shelf_after(ty, levels, exps, shelf, input, 0) == shelf,
        ({
            let j = i as int;
            let was = distortion::shelf_after(ty, levels, exps, shelf, input, i);
            let now = distortion::shelf_after(ty, levels, exps, shelf, input, i + 1);
            let found = distortion::shelf_at(levels, was, j);
            let driven = input[j] * levels.input@[j];
            let out = distortion::rendered(ty, levels, exps, shelf, input, n);
            &&& i % 512 == 0 ==> found == was.toned(levels.tone@[j / 512], levels.tan_half)
            &&& i % 512 != 0 ==> found == was
            &&& near(driven, input[j].amount() * levels.input@[j].amount(), 3real, 64real * m)
            &&& now == found.stepped(distortion::shape(driven, ty, exps[j]))
            &&& out.len() == n
            &&& near(out[j], now.y1.amount() * levels.output@[j].amount(), 3real, 64real * m)
        }),
{
    assert((i + 1 - 1) as nat == i);
    let j = i as int;
    let now = distortion::shelf_after(ty, levels, exps, shelf, input, i + 1);
    let (x, drive, gain) = (input[j], levels.input@[j], levels.output@[j]);
    lemma_near_self(x, m);
    lemma_near_self(drive, 64real);
    lemma_near_self(gain, 64real);
    lemma_near_self(now.y1, m);
    lemma_near_mul(x, x.amount(), 0real, m, drive, drive.amount(), 0real, 64real);
    lemma_near_mul(now.y1, now.y1.amount(), 0real, m, gain, gain.amount(), 0real, 64real);
    assert(m * 64real == 64real * m) by (nonlinear_arith);
}

/// The tone of a channel that is not there takes the gain of the last stretch of 512 samples and
/// remembers what it did.
pub proof fn law_idle_tone(levels: Levels, shelf: ToneShelf, n: nat)
    ensures
        n == 0 ==> distortion::shelf_idle(levels, shelf, n as int) == shelf,
        n > 0 ==> distortion::shelf_idle(levels, shelf, n as int) == shelf.toned(
            levels.tone@[(n - 1) / 512],
            levels.tan_half,
        ),
{
}

} // verus!
