//! What panning gives, as real numbers: the gains and the delays of the two sides, what a line is
//! read as, and the shelf of an ear.
use crate::panning;
use crate::echoes::{
    held, law_linear, law_tap, lemma_count, lemma_part_of, lemma_real_order, lemma_way,
    lemma_wrapped, loud, plausible,
};
use crate::float::double::Double;
use crate::float::facts::{
    lemma_abs, lemma_add, lemma_constant, lemma_constants, lemma_from_usize, lemma_sub,
    lemma_to_usize, lemma_unit_positive, lemma_whole, unit,
};
use crate::float::near::{
    lemma_amount, lemma_amount_order, lemma_near_add, lemma_near_div, lemma_near_mul,
    lemma_near_self, lemma_near_sub, lemma_near_wider, lemma_ratio, lemma_root, near,
};
use crate::float::reals::{lemma_bounded_product, lemma_real_product};
use crate::float::single::{num, Single};
use crate::oscillators::{lemma_numbers, lemma_ordered, lemma_turned_round};
use crate::panning::{Line, PanningTrig, ShelfFilter};
use crate::ring::{lemma_signed_whole, tap};
use crate::sweeps::lemma_first_order;
use crate::transforms::lemma_whole_part;
use vstd::arithmetic::div_mod::{lemma_fundamental_div_mod_converse, lemma_small_mod};
use vstd::arithmetic::power2::{lemma2_to64, lemma2_to64_rest};
use vstd::prelude::*;

verus! {

/// A sample goes into the slot that a line writes next, and the slot after it, round the ring, is
/// the next one to be written. The other slots stay.
pub proof fn law_line_takes(line: Line, x: Single)
    requires
        line.wf(),
    ensures
        ({
            let now = line.written(x);
            &&& now.buf.len() == line.buf.len()
            &&& now.buf[line.write as int] == x
            &&& forall|j: int|
                0 <= j < line.buf.len() && j != line.write ==> #[trigger] now.buf[j] == line.buf[j]
            &&& now.write == if line.write + 1 == line.buf.len() { 0 } else { line.write + 1 }
        }),
{
    let len = line.buf.len() as int;
    if line.write + 1 == len {
        lemma_fundamental_div_mod_converse(len, len, 1, 0);
    } else {
        lemma_small_mod((line.write + 1) as nat, len as nat);
    }
}

/// A place so far before the last slot written, round the ring.
proof fn lemma_place(write: usize, delay: Single, len: usize)
    requires
        write < len,
        3 <= len <= 0x20_0000,
        delay.is_finite(),
        0real <= delay.amount() <= (len - 1) as real,
    ensures
        panning::position(write, delay, len).is_finite(),
        0real <= panning::position(write, delay, len).amount() < len as real,
        ({
            let (p, w, l) = (
                panning::position(write, delay, len).amount(),
                write as real - 1real - delay.amount(),
                len as real,
            );
            -(32real * l) <= 8388608real * (p - w) <= 32real * l || -(32real * l) <= 8388608real
                * (p - w - l) <= 32real * l
        }),
{
    lemma_count(write);
    lemma_count(len);
    lemma_numbers();
    lemma_constants();
    let (w, l, one) = (Single::from_usize(write), Single::from_usize(len), num(0x3f80_0000));
    let (wr, lr, d) = (write as real, len as real, delay.amount());
    lemma_near_self(w, lr);
    lemma_near_self(l, lr);
    lemma_near_self(delay, lr);
    lemma_near_self(one, lr);
    lemma_near_sub(w, wr, lr, one, 1real, lr, 0real);
    let a = w - one;
    lemma_near_wider(delay, d, 0real, lr, 2real, lr);
    lemma_near_sub(a, wr - 1real, 2real * lr, delay, d, lr, 2real);
    let b = a - delay;
    lemma_near_wider(l, lr, 0real, lr, 4real, lr);
    lemma_near_add(b, wr - 1real - d, 3real * lr, l, lr, lr, 4real);
    let y = b + l;
    // The sum lies between no turn and two.
    let below = lemma_signed_whole(-1);
    let short = lemma_signed_whole(-(len as int));
    lemma_from_usize(write);
    lemma_from_usize(len);
    let u = unit();
    let (wv, lv) = (w.value(), l.value());
    lemma_real_order(delay, (len - 1) as int);
    assert(0 <= wv && wv + u <= lv && (-1) * u == -u && (-(len as int)) * u == -lv && (len - 1) * u
        == lv - u) by (nonlinear_arith)
        requires
            wv == write * u,
            lv == len * u,
            write < len,
            u > 0,
    ;
    lemma_amount_order(num(0), delay);
    lemma_sub(w, one, below, w);
    lemma_sub(a, delay, short, w);
    let twice = lemma_whole((write + len) as nat);
    assert(twice.value() == wv + lv) by (nonlinear_arith)
        requires
            twice.value() == (write + len) * u,
            wv == write * u,
            lv == len * u,
    ;
    lemma_add(b, l, num(0), twice);
    lemma_wrapped(y, l);
}

/// What a line reads so many samples back: the point between the two slots around the place that
/// lies so far before the last slot written, round the ring. The slot before the place is what is
/// returned.
pub proof fn law_line_reads(line: Line, delay: Single, m: real) -> (k: int)
    requires
        line.wf(),
        3 <= line.buf.len() <= 0x20_0000,
        loud(m),
        held(line.buf, m),
        delay.is_finite(),
        0real <= delay.amount() <= (line.buf.len() - 1) as real,
    ensures
        0 <= k < line.buf.len(),
        ({
            let len = line.buf.len() as usize;
            let p = panning::position(line.write, delay, len).amount();
            let w = line.write as real - 1real - delay.amount();
            let l = len as real;
            let f = p - k as real;
            let next = if k + 1 == len { 0 } else { k + 1 };
            let late = line.buf[k].amount() + f * (line.buf[next].amount() - line.buf[k].amount());
            &&& 0real <= f < 1real
            &&& -(32real * l) <= 8388608real * (p - w) <= 32real * l || -(32real * l)
                <= 8388608real * (p - w - l) <= 32real * l
            &&& near(line.read(delay), late, 7real, 3real * m)
            &&& -m <= late <= m
        }),
{
    let len = line.buf.len() as usize;
    lemma_place(line.write, delay, len);
    let position = panning::position(line.write, delay, len);
    let k = lemma_part_of(position, len);
    law_tap(position, len, k);
    if k + 1 == len {
        lemma_fundamental_div_mod_converse(len as int, len as int, 1, 0);
    } else {
        lemma_small_mod((k + 1) as nat, len as nat);
    }
    let next = if k + 1 == len { 0 } else { k + 1 };
    assert(line.buf[k].is_finite() && line.buf[next].is_finite());
    law_linear(line.buf[k], line.buf[next], tap(position, len).frac, m);
    lemma_way(
        line.buf[k].amount(),
        line.buf[next].amount(),
        position.amount() - k as real,
        m,
    );
    k
}

/// The gains of the two sides follow the tangent law: their difference is to their sum as the
/// tangent of the angle of the pan position is to that of the panorama. With the factor on them
/// their powers come to one.
pub proof fn law_panorama_gains(theta: (Single, Single), phi: (Single, Single))
    requires
        theta.0.is_finite() && -1real <= theta.0.amount() <= 1real,
        theta.1.is_finite() && -1real <= theta.1.amount() <= 1real,
        phi.0.is_finite() && -1real <= phi.0.amount() <= 1real,
        phi.1.is_finite() && -1real <= phi.1.amount() <= 1real,
        ({
            let (s, d) = (phi.1.amount() * theta.0.amount(), phi.0.amount() * theta.1.amount());
            (s + d) * (s + d) + (s - d) * (s - d) >= 1real / 4real
        }),
    ensures
        ({
            let (l, r, norm) = panning::panorama_gains(theta, phi);
            let (s, d) = (phi.1.amount() * theta.0.amount(), phi.0.amount() * theta.1.amount());
            let power = (s + d) * (s + d) + (s - d) * (s - d);
            let gained = norm.amount() * norm.amount() * power;
            &&& near(l, s + d, 5real, 2real)
            &&& near(r, s - d, 5real, 2real)
            &&& norm.is_finite()
            &&& 0real < norm.amount() <= 3real
            &&& -1024real <= 8388608real * (gained - 1real) <= 1024real
        }),
{
    lemma_numbers();
    let (st, ct, sp, cp) = (theta.0, theta.1, phi.0, phi.1);
    let (s, d) = (cp.amount() * st.amount(), sp.amount() * ct.amount());
    lemma_near_self(st, 1real);
    lemma_near_self(ct, 1real);
    lemma_near_self(sp, 1real);
    lemma_near_self(cp, 1real);
    lemma_near_mul(cp, cp.amount(), 0real, 1real, st, st.amount(), 0real, 1real);
    lemma_near_mul(sp, sp.amount(), 0real, 1real, ct, ct.amount(), 0real, 1real);
    lemma_near_add(cp * st, s, 1real, sp * ct, d, 1real, 3real);
    lemma_near_sub(cp * st, s, 1real, sp * ct, d, 1real, 3real);
    let (l, r) = (cp * st + sp * ct, cp * st - sp * ct);
    lemma_near_mul(l, s + d, 5real, 2real, l, s + d, 5real, 2real);
    lemma_near_mul(r, s - d, 5real, 2real, r, s - d, 5real, 2real);
    let (ll, rr) = ((s + d) * (s + d), (s - d) * (s - d));
    lemma_near_add(l * l, ll, 4real, r * r, rr, 4real, 13real);
    let sum = l * l + r * r;
    let (p, a) = (ll + rr, sum.amount());
    assert(near(sum, p, 15real, 8real));
    assert(-120real <= 8388608real * (a - p) <= 120real);
    lemma_amount_order(sum, num(0));
    lemma_amount_order(num(0), sum);
    lemma_constants();
    assert(sum.value() > 0);
    lemma_root(sum);
    let root = sum.sqrt();
    let q = root.amount();
    assert(-9real <= 8388608real * (q * q - a) <= 9real);
    assert(-129real <= 8388608real * (q * q - p) <= 129real);
    assert(2real / 5real <= q <= 3real) by (nonlinear_arith)
        requires
            q > 0real,
            -129real <= 8388608real * (q * q - p) <= 129real,
            1real / 4real <= p <= 8real,
    ;
    lemma_near_self(num(0x3f80_0000), 1real);
    lemma_near_self(root, q);
    assert(0real * q == 0real);
    assert(1real / 3real <= 1real / q <= 5real / 2real) by (nonlinear_arith)
        requires
            2real / 5real <= q <= 3real,
    ;
    lemma_near_div(num(0x3f80_0000), 1real, 0real, 1real, root, q, 0real, q, q, 0real);
    let norm = num(0x3f80_0000) / root;
    let n = norm.amount();
    let t = n * q;
    let iq = 1real / q;
    assert(-3real <= 8388608real * (t - 1real) <= 3real) by (nonlinear_arith)
        requires
            t == n * q,
            iq == 1real / q,
            q > 0real,
            -(3real * iq) <= (n - iq) * 8388608real <= 3real * iq,
    ;
    let gained = n * n * p;
    lemma_gained(n, q, p, t);
}

/// A square of a root that has been divided by is one.
proof fn lemma_gained(n: real, q: real, p: real, t: real)
    requires
        2real / 5real <= q <= 3real,
        t == n * q,
        -3real <= 8388608real * (t - 1real) <= 3real,
        -129real <= 8388608real * (q * q - p) <= 129real,
    ensures
        -1024real <= 8388608real * (n * n * p - 1real) <= 1024real,
        0real < n <= 3real,
{
    let e = q * q - p;
    assert(n * n * p == t * t - n * n * e) by (nonlinear_arith)
        requires
            t == n * q,
            e == q * q - p,
    ;
    assert(0real < n <= 2real + 51real / 100real) by (nonlinear_arith)
        requires
            2real / 5real <= q,
            t == n * q,
            -3real <= 8388608real * (t - 1real) <= 3real,
    ;
    let nn = n * n;
    assert(0real <= nn <= 7real) by (nonlinear_arith)
        requires
            nn == n * n,
            0real < n <= 2real + 51real / 100real,
    ;
    lemma_bounded_product(nn, 8388608real * e, 7real, 129real);
    assert(nn * (8388608real * e) == 8388608real * (nn * e)) by (nonlinear_arith);
    assert(-7real <= 8388608real * (t * t - 1real) <= 7real) by (nonlinear_arith)
        requires
            -3real <= 8388608real * (t - 1real) <= 3real,
    ;
}

/// The delay of the left side goes from none at pan position -1 to the longest at 1, that of the
/// right side the other way, and together they are the longest.
pub proof fn law_panorama_delays(longest: usize, pan: Single)
    requires
        1 <= longest <= 0x20_0000,
        pan.is_finite() && -1real <= pan.amount() <= 1real,
    ensures
        ({
            let (l, r) = panning::panorama_delays(longest, pan);
            let m = longest as real;
            &&& near(l, m * ((1real + pan.amount()) / 2real), 8real, m)
            &&& near(r, m * ((1real - pan.amount()) / 2real), 20real, 2real * m)
        }),
{
    lemma_numbers();
    lemma_count(longest);
    let (n, m) = (Single::from_usize(longest), longest as real);
    let (one, half, p) = (num(0x3f80_0000), num(0x3f00_0000), pan.amount());
    lemma_near_self(n, m);
    lemma_near_self(one, 1real);
    lemma_near_self(half, 1real / 2real);
    lemma_near_self(pan, 1real);
    lemma_near_add(pan, p, 1real, one, 1real, 1real, 0real);
    lemma_near_mul(pan + one, p + 1real, 2real, 2real, half, 1real / 2real, 0real, 1real / 2real);
    assert(2real * (1real / 2real) == 1real && (p + 1real) * (1real / 2real) == (1real + p) / 2real)
        by (nonlinear_arith);
    let factor = (pan + one) * half;
    let f = (1real + p) / 2real;
    lemma_near_mul(n, m, 0real, m, factor, f, 5real, 1real);
    lemma_near_wider(one, 1real, 0real, 1real, 5real, 1real);
    lemma_near_sub(one, 1real, 1real, factor, f, 1real, 5real);
    lemma_near_mul(n, m, 0real, m, one - factor, 1real - f, 7real, 2real);
    assert(m * 1real == m && m * 2real == 2real * m) by (nonlinear_arith);
    assert(1real - f == (1real - p) / 2real);
    lemma_near_wider(n * (one - factor), m * (1real - f), 10real, 2real * m, 20real, 2real * m);
}

/// The longest delay of the panorama is a thousandth of a second, to a sample.
pub proof fn law_panorama_reach(sample_rate: Double)
    requires
        plausible(sample_rate.narrow()),
    ensures
        ({
            let n = panning::longest_delay(sample_rate);
            let r = sample_rate.narrow().amount();
            &&& n >= 1
            &&& n > 1 ==> n as real <= r / 1000real + 1real / 32real
            &&& r / 1000real - 33real / 32real <= n as real
        }),
{
    lemma_numbers();
    lemma_constants();
    lemma2_to64();
    lemma2_to64_rest();
    lemma_constant(0x3a83_126f, 0x2_0000_0000, 0x83_126f);
    let (t, rate) = (num(0x3a83_126f), sample_rate.narrow());
    lemma_ratio(t, 0x2_0000_0000, 0x83_126f);
    let r = rate.amount();
    lemma_near_self(t, 1real / 500real);
    assert(near(t, 1real / 1000real, 1real, 1real / 500real));
    lemma_near_self(rate, r);
    let b = 1real / 500real;
    let br = b * r;
    assert(br == r / 500real) by (nonlinear_arith)
        requires
            br == b * r,
            b == 1real / 500real,
    ;
    lemma_near_mul(t, 1real / 1000real, 1real, b, rate, r, 0real, r);
    let x = t * rate;
    assert((1real / 1000real) * r == r / 1000real) by (nonlinear_arith);
    assert(near(x, r / 1000real, 4real, br));
    assert(-1real / 32real <= x.amount() - r / 1000real <= 1real / 32real);
    lemma_amount_order(num(0), x);
    lemma_amount_order(x, num(0));
    if x.amount() < 0real {
        assert(false) by {
            assert(8388608real * (x.amount() - r / 1000real) >= -(4real * (r / 500real)));
        }
    }
    let k = lemma_whole_part(x);
    lemma_to_usize(x);
    lemma_amount(x);
    let (v, u) = (x.value(), unit());
    lemma_unit_positive();
    lemma_real_product(k, u);
    lemma_real_product(k + 1, u);
    let (kr, ur, a) = (k as real, u as real, x.amount());
    assert(k * u <= v < (k + 1) * u) by {
        assert(kr * ur <= a * ur && a * ur < (kr + 1real) * ur) by (nonlinear_arith)
            requires
                kr <= a < kr + 1real,
                ur > 0real,
        ;
    }
    assert((k + 1) * u == k * u + u) by (nonlinear_arith);
    lemma_fundamental_div_mod_converse(v, u, k, v - k * u);
}

/// The angle of a pan position in the panorama: 30 degrees to the other side at the far end.
pub proof fn law_panorama_angle(pan: Single)
    requires
        pan.is_finite() && -1real <= pan.amount() <= 1real,
    ensures
        near(
            panning::panorama_angle(pan),
            -(pan.amount() * (5235988real / 10000000real)),
            5real,
            1real,
        ),
{
    lemma_constants();
    lemma2_to64();
    lemma_constant(0x3f06_0a92, 0x100_0000, 0x86_0a92);
    let t = num(0x3f06_0a92);
    lemma_ratio(t, 0x100_0000, 0x86_0a92);
    lemma_near_self(t, 1real);
    let e = 5235988real / 10000000real;
    assert(near(t, e, 1real, 1real));
    let (p, q) = (pan.amount(), pan.negated().amount());
    lemma_turned_round(pan);
    lemma_near_self(pan.negated(), 1real);
    lemma_near_mul(pan.negated(), q, 0real, 1real, t, e, 1real, 1real);
    assert(q * e == -(p * e)) by (nonlinear_arith)
        requires
            q == -p,
    ;
}

/// How large a number is.
pub proof fn lemma_size(x: Single)
    requires
        x.is_finite(),
    ensures
        x.abs().is_finite(),
        x.abs().amount() == if x.amount() < 0real { -x.amount() } else { x.amount() },
{
    lemma_abs(x);
    lemma_amount(x);
    lemma_amount(x.abs());
    let (u, a, b) = (unit() as real, x.amount(), x.abs().amount());
    lemma_unit_positive();
    assert(b == if a < 0real { -a } else { a }) by (nonlinear_arith)
        requires
            b * u == if a * u < 0real { -(a * u) } else { a * u },
            u > 0real,
    ;
}

/// The angle of a pan position for an ear: a quarter turn at the far end, on from the ear.
pub proof fn law_head_angle(pan: Single, left: bool)
    requires
        pan.is_finite() && -1real <= pan.amount() <= 1real,
    ensures
        ({
            let quarter = 15707963real / 10000000real;
            let from = if left { quarter } else { -quarter };
            near(panning::head_angle(pan, left), pan.amount() * quarter + from, 8real, 4real)
        }),
{
    lemma_constants();
    lemma2_to64();
    lemma_constant(0x3fc9_0fdb, 0x80_0000, 0xc9_0fdb);
    let t = num(0x3fc9_0fdb);
    lemma_ratio(t, 0x80_0000, 0xc9_0fdb);
    lemma_near_self(t, 2real);
    let e = 15707963real / 10000000real;
    assert(near(t, e, 1real, 2real));
    lemma_near_self(pan, 1real);
    let p = pan.amount();
    lemma_near_mul(pan, p, 0real, 1real, t, e, 1real, 2real);
    lemma_near_wider(t, e, 1real, 2real, 4real, 2real);
    lemma_near_add(pan * t, p * e, 2real, t, e, 2real, 4real);
    lemma_near_sub(pan * t, p * e, 2real, t, e, 2real, 4real);
}

/// How long sound takes to an ear: 0.085 metres at 340 metres per second, times what the head is in
/// the way, which on the near side grows from none as the cosine falls and on the far side grows by
/// the arc around it.
pub proof fn law_head_delay(sample_rate: Single, angle: Single, cosine: Single)
    requires
        plausible(sample_rate),
        angle.is_finite() && -4real <= angle.amount() <= 4real,
        cosine.is_finite() && -1real <= cosine.amount() <= 1real,
    ensures
        ({
            let r = sample_rate.amount() * (85real / 340000real);
            let quarter = 13176795real / 8388608real;
            let turn = if angle.amount() < 0real { -angle.amount() } else { angle.amount() };
            let x = panning::head_delay(sample_rate, angle, cosine);
            &&& turn < quarter ==> near(x, r * (1real - cosine.amount()), 40real, 10real * r)
            &&& turn >= quarter ==> near(
                x,
                r * (turn + 1real - 15707963real / 10000000real),
                40real,
                10real * r,
            )
        }),
{
    lemma_numbers();
    lemma_constants();
    lemma2_to64();
    lemma_constant(0x3dae_147b, 0x800_0000, 0xae_147b);
    lemma_constant(0x43aa_0000, 0x8000, 0xaa_0000);
    lemma_constant(0x3fc9_0fdb, 0x80_0000, 0xc9_0fdb);
    let (radius, speed, pi2) = (num(0x3dae_147b), num(0x43aa_0000), num(0x3fc9_0fdb));
    lemma_ratio(radius, 0x800_0000, 0xae_147b);
    lemma_ratio(speed, 0x8000, 0xaa_0000);
    lemma_ratio(pi2, 0x80_0000, 0xc9_0fdb);
    let (s, h) = (sample_rate.amount(), 85real / 1000real);
    lemma_near_self(sample_rate, s);
    lemma_near_self(radius, 1real / 8real);
    assert(near(radius, h, 1real, 1real / 8real));
    let eighth = s / 8real;
    assert(s * (1real / 8real) == eighth) by (nonlinear_arith)
        requires
            eighth == s / 8real,
    ;
    lemma_near_mul(sample_rate, s, 0real, s, radius, h, 1real, 1real / 8real);
    lemma_near_self(speed, 340real);
    let part = eighth / 340real;
    lemma_near_div(
        sample_rate * radius,
        s * h,
        4real,
        eighth,
        speed,
        340real,
        0real,
        340real,
        340real,
        0real,
    );
    let factor = sample_rate * radius / speed;
    let r = s * (85real / 340000real);
    assert(s * h / 340real == r) by (nonlinear_arith)
        requires
            h == 85real / 1000real,
            r == s * (85real / 340000real),
    ;
    assert(near(factor, r, 11real, part));
    assert(part <= 3real / 2real * r) by (nonlinear_arith)
        requires
            part == s / 8real / 340real,
            r == s * (85real / 340000real),
            s > 0real,
    ;
    let r2 = 3real / 2real * r;
    lemma_near_wider(factor, r, 11real, part, 11real, r2);
    let one = num(0x3f80_0000);
    lemma_near_self(one, 1real);
    lemma_near_self(cosine, 1real);
    lemma_near_sub(one, 1real, 1real, cosine, cosine.amount(), 1real, 0real);
    lemma_near_mul(factor, r, 11real, r2, one - cosine, 1real - cosine.amount(), 2real, 2real);
    assert(r2 * 2real == 3real * r) by (nonlinear_arith)
        requires
            r2 == 3real / 2real * r,
    ;
    let near_way = r * (1real - cosine.amount());
    lemma_near_wider(factor * (one - cosine), near_way, 16real, 3real * r, 40real, 10real * r);
    lemma_size(angle);
    let size = angle.abs();
    let turn = if angle.amount() < 0real { -angle.amount() } else { angle.amount() };
    lemma_ordered(size, pi2);
    lemma_near_self(size, 4real);
    lemma_near_add(size, turn, 4real, one, 1real, 1real, 0real);
    lemma_near_self(pi2, 2real);
    let e = 15707963real / 10000000real;
    assert(near(pi2, e, 2real, 2real));
    lemma_near_sub(size + one, turn + 1real, 5real, pi2, e, 2real, 2real);
    let arc = size + one - pi2;
    assert(near(arc, turn + 1real - e, 6real, 5real));
    lemma_near_mul(factor, r, 11real, r2, arc, turn + 1real - e, 6real, 5real);
    assert(r2 * 5real == 15real / 2real * r) by (nonlinear_arith)
        requires
            r2 == 3real / 2real * r,
    ;
    let far = r * (turn + 1real - e);
    lemma_near_wider(factor * arc, far, 20real, 15real / 2real * r, 40real, 10real * r);
}

/// The shelf of an ear passes what is slow as it is, and what alternates from sample to sample
/// times one more than the cosine; where it turns over is as the factor says.
pub proof fn law_ear_shelf(filter: ShelfFilter, cosine: Single, factor: Single)
    requires
        cosine.is_finite() && -1real <= cosine.amount() <= 1real,
        factor.is_finite() && 0real <= factor.amount() <= 1real,
    ensures
        ({
            let s = filter.updated(cosine, factor);
            let (b0, b1, a1) = (s.b0.amount(), s.b1.amount(), s.a1.amount());
            let (h, c) = (factor.amount(), cosine.amount());
            &&& s.b0.is_finite() && s.b1.is_finite() && s.a1.is_finite()
            &&& -4real <= b0 <= 4real && -4real <= b1 <= 4real && -4real <= a1 <= 4real
            &&& s.x1 == filter.x1 && s.y1 == filter.y1
            &&& -200real <= 8388608real * (b0 + b1 - (1real + a1)) <= 200real
            &&& -200real <= 8388608real * (b0 - b1 - (1real + c) * (1real - a1)) <= 200real
            &&& -200real <= 8388608real * (a1 * (1real + h) - (h - 1real)) <= 200real
        }),
{
    lemma_numbers();
    let one = num(0x3f80_0000);
    let (h, c) = (factor.amount(), cosine.amount());
    lemma_near_self(one, 1real);
    lemma_near_self(cosine, 1real);
    lemma_near_self(factor, 1real);
    lemma_near_add(one, 1real, 1real, cosine, c, 1real, 0real);
    lemma_near_add(factor, h, 1real, one, 1real, 1real, 0real);
    lemma_near_sub(factor, h, 1real, one, 1real, 1real, 0real);
    let alpha = one + cosine;
    lemma_near_div(one, 1real, 0real, 1real, factor + one, h + 1real, 2real, 2real, 1real, 4real);
    let inv = one / (factor + one);
    let i = 1real / (h + 1real);
    lemma_near_wider(inv, i, 11real, 1real / 1real, 11real, 1real);
    lemma_near_wider(factor, h, 0real, 1real, 2real, 1real);
    lemma_near_add(factor, h, 1real, alpha, 1real + c, 2real, 2real);
    lemma_near_sub(factor, h, 1real, alpha, 1real + c, 2real, 2real);
    lemma_near_mul(factor + alpha, h + (1real + c), 4real, 3real, inv, i, 11real, 1real);
    lemma_near_mul(factor - alpha, h - (1real + c), 4real, 3real, inv, i, 11real, 1real);
    lemma_near_mul(factor - one, h - 1real, 2real, 2real, inv, i, 11real, 1real);
    let (b0, b1, a1) = (
        (h + (1real + c)) * i,
        (h - (1real + c)) * i,
        (h - 1real) * i,
    );
    assert((h + 1real) * i == 1real) by (nonlinear_arith)
        requires
            i == 1real / (h + 1real),
            h >= 0real,
    ;
    assert(b0 + b1 == 1real + a1) by (nonlinear_arith)
        requires
            b0 == (h + (1real + c)) * i,
            b1 == (h - (1real + c)) * i,
            a1 == (h - 1real) * i,
            (h + 1real) * i == 1real,
    ;
    assert(b0 - b1 == (1real + c) * (1real - a1)) by (nonlinear_arith)
        requires
            b0 == (h + (1real + c)) * i,
            b1 == (h - (1real + c)) * i,
            a1 == (h - 1real) * i,
            (h + 1real) * i == 1real,
    ;
    assert(a1 * (1real + h) == h - 1real) by (nonlinear_arith)
        requires
            a1 == (h - 1real) * i,
            (h + 1real) * i == 1real,
    ;
    let s = filter.updated(cosine, factor);
    let e = s.a1.amount() - a1;
    lemma_bounded_product(1real + c, 8388608real * e, 2real, 32real);
    lemma_bounded_product(1real + h, 8388608real * e, 2real, 32real);
    assert((1real + c) * (1real - s.a1.amount()) == (1real + c) * (1real - a1) - (1real + c) * e)
        by (nonlinear_arith)
        requires
            e == s.a1.amount() - a1,
    ;
    assert(s.a1.amount() * (1real + h) == a1 * (1real + h) + (1real + h) * e) by (nonlinear_arith)
        requires
            e == s.a1.amount() - a1,
    ;
    assert((1real + c) * (8388608real * e) == 8388608real * ((1real + c) * e)) by (nonlinear_arith);
    assert((1real + h) * (8388608real * e) == 8388608real * ((1real + h) * e)) by (nonlinear_arith);
}

/// What a first-order filter makes of a sample, and what it remembers of it.
pub proof fn law_shelf_sample(filter: ShelfFilter, x: Single, m: real)
    requires
        loud(m),
        filter.b0.is_finite() && -64real <= filter.b0.amount() <= 64real,
        filter.b1.is_finite() && -64real <= filter.b1.amount() <= 64real,
        filter.a1.is_finite() && -64real <= filter.a1.amount() <= 64real,
        x.is_finite() && -m <= x.amount() <= m,
        filter.x1.is_finite() && -m <= filter.x1.amount() <= m,
        filter.y1.is_finite() && -m <= filter.y1.amount() <= m,
    ensures
        filter.stepped(x).x1 == x,
        filter.stepped(x).y1 == filter.response(x),
        filter.stepped(x).b0 == filter.b0,
        filter.stepped(x).b1 == filter.b1,
        filter.stepped(x).a1 == filter.a1,
        near(
            filter.response(x),
            filter.b0.amount() * x.amount() + filter.b1.amount() * filter.x1.amount()
                - filter.a1.amount() * filter.y1.amount(),
            7real,
            192real * m,
        ),
{
    lemma_first_order(filter.b0, filter.b1, filter.a1, x, filter.x1, filter.y1, m);
}

/// What the panorama sends out on a side: what the line, with the sample in it, holds as far back
/// as the side's delay says, times the gain of the side and the factor.
pub proof fn law_panorama_sample(
    longest: usize,
    pan: Seq<Single>,
    trig: PanningTrig,
    line: Line,
    input: Seq<Single>,
    left: bool,
    i: nat,
    n: nat,
    m: real,
)
    requires
        i < n,
        loud(m),
        ({
            let (l, r, norm) = panning::panorama_gains(trig.theta, trig.pairs@[i as int]);
            &&& near(l, l.amount(), 0real, 4real)
            &&& near(r, r.amount(), 0real, 4real)
            &&& near(norm, norm.amount(), 0real, 4real)
        }),
        ({
            let (l, r) = panning::panorama_delays(longest, pan[i as int]);
            let late = line.fed(input, i + 1).read(if left { l } else { r });
            late.is_finite() && -m <= late.amount() <= m
        }),
    ensures
        ({
            let (l, r, norm) = panning::panorama_gains(trig.theta, trig.pairs@[i as int]);
            let (dl, dr) = panning::panorama_delays(longest, pan[i as int]);
            let fed = line.fed(input, i + 1);
            let out = panning::panorama_rendered(longest, pan, trig, line, input, left, n);
            &&& fed == line.fed(input, i).written(input[i as int])
            &&& out.len() == n
            &&& left ==> near(
                out[i as int],
                fed.read(dl).amount() * l.amount() * norm.amount(),
                6real,
                16real * m,
            )
            &&& !left ==> near(
                out[i as int],
                fed.read(dr).amount() * r.amount() * norm.amount(),
                6real,
                16real * m,
            )
        }),
{
    let (l, r, norm) = panning::panorama_gains(trig.theta, trig.pairs@[i as int]);
    let (dl, dr) = panning::panorama_delays(longest, pan[i as int]);
    let late = line.fed(input, i + 1).read(if left { dl } else { dr });
    let gain = if left { l } else { r };
    assert((i + 1 - 1) as nat == i);
    lemma_near_self(late, m);
    lemma_near_mul(late, late.amount(), 0real, m, gain, gain.amount(), 0real, 4real);
    assert(m * 4real == 4real * m && (4real * m) * 4real == 16real * m) by (nonlinear_arith);
    let first = late * gain;
    lemma_near_mul(
        first,
        late.amount() * gain.amount(),
        3real,
        4real * m,
        norm,
        norm.amount(),
        0real,
        4real,
    );
}

/// What an ear hears: what the line, with the sample in it, holds as far back as the head is in the
/// way, through the shelf for the angle, which goes on from the sample before. Its factor is 0.085
/// metres over 340 metres per second.
pub proof fn law_ear_sample(
    sample_rate: Single,
    pan: Seq<Single>,
    trig: PanningTrig,
    line: Line,
    filter: ShelfFilter,
    input: Seq<Single>,
    left: bool,
    i: nat,
    n: nat,
)
    requires
        i < n,
    ensures
        near(panning::shelf_factor(), 25real / 100000real, 6real, 1real / 2000real),
        ({
            let cosine = if left { trig.pairs@[i as int].0 } else { trig.pairs@[i as int].1 };
            let delay = panning::head_delay(
                sample_rate,
                panning::head_angle(pan[i as int], left),
                cosine,
            );
            let fed = line.fed(input, i).written(input[i as int]);
            let here = panning::ear_filter(sample_rate, pan, trig, line, filter, input, left, i);
            let next = panning::ear_filter(
                sample_rate,
                pan,
                trig,
                line,
                filter,
                input,
                left,
                i + 1,
            );
            let shelf = here.updated(cosine, panning::shelf_factor());
            let out = panning::ear_rendered(
                sample_rate,
                pan,
                trig,
                line,
                filter,
                input,
                left,
                n,
            );
            &&& out.len() == n
            &&& out[i as int] == shelf.response(fed.read(delay))
            &&& next == shelf.stepped(fed.read(delay))
        }),
{
    lemma_numbers();
    lemma_constants();
    lemma2_to64();
    lemma_constant(0x3dae_147b, 0x800_0000, 0xae_147b);
    lemma_constant(0x43aa_0000, 0x8000, 0xaa_0000);
    let (radius, speed) = (num(0x3dae_147b), num(0x43aa_0000));
    lemma_ratio(radius, 0x800_0000, 0xae_147b);
    lemma_ratio(speed, 0x8000, 0xaa_0000);
    assert((i + 1 - 1) as nat == i);
    lemma_near_self(radius, 1real / 8real);
    lemma_near_self(speed, 340real);
    let h = 85real / 1000real;
    assert(near(radius, h, 1real, 1real / 8real));
    lemma_near_div(
        radius,
        h,
        1real,
        1real / 8real,
        speed,
        340real,
        0real,
        340real,
        340real,
        0real,
    );
    lemma_near_wider(
        radius / speed,
        h / 340real,
        5real,
        1real / 8real / 340real,
        6real,
        1real / 2000real,
    );
}

} // verus!
