//! What the effects on spectra do, as real numbers: to a bin, to a frame on its way there and back,
//! to the rings and to phases.
use crate::pitchshift;
use crate::delay::lemma_apart;
use crate::echoes::{law_linear, lemma_count, lemma_slot};
use crate::float::encoding::Format;
use crate::float::facts::{
    lemma_abs, lemma_add, lemma_constant, lemma_constants, lemma_div, lemma_finite_number,
    lemma_from_usize, lemma_mul, lemma_negated, lemma_round, lemma_unit_positive, lemma_whole, unit,
};
use crate::float::monotone::{lemma_add_monotone, lemma_mul_monotone};
use crate::float::near::{
    lemma_amount, lemma_amount_order, lemma_near_add, lemma_near_div, lemma_near_mul,
    lemma_near_self, lemma_near_sub, lemma_near_wider, lemma_ratio, lemma_root, near,
};
use crate::float::order::lemma_zero;
use crate::float::reals::{lemma_bounded_product, lemma_real_product};
use crate::float::single::{num, Single};
use crate::modulation::law_linear_starts_at_first;
use crate::oscillators::{lemma_between, lemma_numbers, lemma_ordered, lemma_turned_round};
use crate::pitchshift::{
    next_phase, omega_at, princ_arg, resampled_at, shift_exponent, snapped_ratio, stretched,
    PhaseVocoder,
};
use crate::ring::{ahead, lemma_ahead_next, lemma_ahead_twice, MAX_LINE};
use crate::robotization::{at_least_one, modified, Effect, Stft};
use crate::spectral::{bartlett, frame, overlapped, rectangle, ring_fed, scale_of, window_sum, Bin};
use vstd::arithmetic::div_mod::{
    lemma_fundamental_div_mod, lemma_fundamental_div_mod_converse, lemma_mod_bound,
    lemma_mod_multiples_vanish, lemma_small_mod,
};
use vstd::arithmetic::power2::{lemma2_to64, lemma2_to64_rest};
use vstd::prelude::*;

verus! {

/// Whether both parts of a bin are numbers of no more than `m`.
pub open spec fn bounded(bin: Bin, m: real) -> bool {
    &&& bin.re.is_finite() && -m <= bin.re.amount() <= m
    &&& bin.im.is_finite() && -m <= bin.im.amount() <= m
}

/// The square of a bin's distance from zero.
pub open spec fn power_of(bin: Bin) -> real {
    bin.re.amount() * bin.re.amount() + bin.im.amount() * bin.im.amount()
}

/// The magnitude of a bin squares to what its two parts square to.
pub proof fn law_magnitude(bin: Bin, m: real)
    requires
        bounded(bin, m),
        1real / 16777216real <= m <= 16777216real,
    ensures
        bin.magnitude().is_finite(),
        0real <= bin.magnitude().amount() <= 2real * m,
        ({
            let r = bin.magnitude().amount();
            -(14real * (m * m)) <= 8388608real * (r * r - power_of(bin)) <= 14real * (m * m)
        }),
{
    lemma_constants();
    lemma_numbers();
    let (a, b, mm) = (bin.re.amount(), bin.im.amount(), m * m);
    assert(1real / 281474976710656real <= mm <= 281474976710656real) by (nonlinear_arith)
        requires
            mm == m * m,
            1real / 16777216real <= m <= 16777216real,
    ;
    lemma_near_self(bin.re, m);
    lemma_near_self(bin.im, m);
    lemma_near_mul(bin.re, a, 0real, m, bin.re, a, 0real, m);
    lemma_near_mul(bin.im, b, 0real, m, bin.im, b, 0real, m);
    let s = bin.re * bin.re + bin.im * bin.im;
    lemma_near_add(bin.re * bin.re, a * a, mm, bin.im * bin.im, b * b, mm, 3real);
    lemma_square_sum(bin);
    lemma_root(s);
    let (r, v) = (s.sqrt().amount(), s.amount());
    assert(r <= 2real * m) by (nonlinear_arith)
        requires
            r * r <= 3real * mm,
            mm == m * m,
            m > 0real,
            r >= 0real,
    ;
}

/// A sum of squares is not negative.
proof fn lemma_square_sum(bin: Bin)
    requires
        bin.re.is_finite(),
        bin.im.is_finite(),
        (bin.re * bin.re).is_finite(),
        (bin.im * bin.im).is_finite(),
        (bin.re * bin.re + bin.im * bin.im).is_finite(),
    ensures
        (bin.re * bin.re + bin.im * bin.im).value() >= 0,
{
    lemma_constants();
    let (x, y, u) = (bin.re.value(), bin.im.value(), unit());
    assert(x * x >= 0 && y * y >= 0 && 0 * 0 == 0 && 0 * u == 0) by (nonlinear_arith);
    lemma_mul(num(0), num(0), num(0), num(0));
    lemma_mul_monotone(num(0), num(0), bin.re, bin.re);
    lemma_mul_monotone(num(0), num(0), bin.im, bin.im);
    lemma_add(num(0), num(0), num(0), num(0));
    lemma_add_monotone(
        num(0),
        num(0),
        bin.re * bin.re,
        bin.im * bin.im,
    );
}

/// Robotization keeps the magnitude of every bin between the first and the middle one and takes its
/// phase away; those two, which are real, it keeps as they are, sign and all. It does so whatever
/// the size of the frame and the place of the bin.
pub proof fn law_robotization_keeps_magnitudes(
    bin: Bin,
    k: int,
    fft_size: usize,
    way: (Single, Single),
    m: real,
)
    requires
        bounded(bin, m),
        1real / 16777216real <= m <= 16777216real,
    ensures
        ({
            let out = modified(Effect::Robotization, bin, k, fft_size, way);
            let r = out.re.amount();
            &&& out.re.is_finite() && out.im.is_finite()
            &&& out.im.amount() == 0real
            &&& k == 0 || 2 * k == fft_size || 2 * k + 1 == fft_size ==> out.re == bin.re
            &&& k != 0 && 2 * k != fft_size && 2 * k + 1 != fft_size ==> r >= 0real && -(14real * (m
                * m)) <= 8388608real * (r * r - power_of(bin)) <= 14real * (m * m)
        }),
{
    lemma_numbers();
    law_magnitude(bin, m);
}

/// Whisperization keeps the magnitude of every bin and turns those between the first and the middle
/// one to the direction that was drawn.
pub proof fn law_whisperization_keeps_magnitudes(
    bin: Bin,
    k: int,
    fft_size: usize,
    way: (Single, Single),
    m: real,
) -> (r: real)
    requires
        bounded(bin, m),
        1real / 16777216real <= m <= 16777216real,
        way.0.is_finite() && -1real <= way.0.amount() <= 1real,
        way.1.is_finite() && -1real <= way.1.amount() <= 1real,
    ensures
        r >= 0real,
        -(14real * (m * m)) <= 8388608real * (r * r - power_of(bin)) <= 14real * (m * m),
        ({
            let out = modified(Effect::Whisperization, bin, k, fft_size, way);
            let ends = k == 0 || 2 * k == fft_size || 2 * k + 1 == fft_size;
            &&& ends ==> out.re.amount() == r && out.im.amount() == 0real
            &&& !ends ==> near(out.re, r * way.1.amount(), 3real, 2real * m) && near(
                out.im,
                r * way.0.amount(),
                3real,
                2real * m,
            )
        }),
{
    lemma_numbers();
    law_magnitude(bin, m);
    lemma_turned_bin(bin, way, m);
    bin.magnitude().amount()
}

/// A bin turned to a direction.
proof fn lemma_turned_bin(bin: Bin, way: (Single, Single), m: real)
    requires
        bounded(bin, m),
        1real / 16777216real <= m <= 16777216real,
        way.0.is_finite() && -1real <= way.0.amount() <= 1real,
        way.1.is_finite() && -1real <= way.1.amount() <= 1real,
    ensures
        ({
            let (out, r) = (bin.turned(way.0, way.1), bin.magnitude().amount());
            &&& near(out.re, r * way.1.amount(), 3real, 2real * m)
            &&& near(out.im, r * way.0.amount(), 3real, 2real * m)
        }),
{
    law_magnitude(bin, m);
    let mag = bin.magnitude();
    let r = mag.amount();
    lemma_near_self(mag, 2real * m);
    lemma_near_self(way.0, 1real);
    lemma_near_self(way.1, 1real);
    assert((2real * m) * 1real == 2real * m) by (nonlinear_arith);
    lemma_near_mul(mag, r, 0real, 2real * m, way.0, way.0.amount(), 0real, 1real);
    lemma_near_mul(mag, r, 0real, 2real * m, way.1, way.1.amount(), 0real, 1real);
}

/// A spectrum that is put together anew keeps the magnitude of every bin and takes the direction
/// that is given.
pub proof fn law_turned_bin(bin: Bin, way: (Single, Single), m: real) -> (r: real)
    requires
        bounded(bin, m),
        1real / 16777216real <= m <= 16777216real,
        way.0.is_finite() && -1real <= way.0.amount() <= 1real,
        way.1.is_finite() && -1real <= way.1.amount() <= 1real,
    ensures
        r >= 0real,
        -(14real * (m * m)) <= 8388608real * (r * r - power_of(bin)) <= 14real * (m * m),
        near(bin.turned(way.0, way.1).re, r * way.1.amount(), 3real, 2real * m),
        near(bin.turned(way.0, way.1).im, r * way.0.amount(), 3real, 2real * m),
{
    law_magnitude(bin, m);
    lemma_turned_bin(bin, way, m);
    bin.magnitude().amount()
}

/// Without an effect a spectrum stays as it is.
pub proof fn law_pass_through(bin: Bin, k: int, fft_size: usize, way: (Single, Single))
    ensures
        modified(Effect::PassThrough, bin, k, fft_size, way) == bin,
{
}

/// One over the size of a frame.
proof fn lemma_share(size: usize)
    requires
        1 <= size <= 0x40_0000,
    ensures
        near(
            num(0x3f80_0000) / Single::from_usize(size),
            1real / (size as real),
            3real,
            1real / (size as real),
        ),
        1real / 4194304real <= 1real / (size as real) <= 1real,
{
    lemma_numbers();
    lemma_count(size);
    let (one, n, r) = (num(0x3f80_0000), Single::from_usize(size), size as real);
    lemma_near_self(one, 1real);
    lemma_near_self(n, r);
    assert(0real * r == 0real && 1real / 4194304real <= 1real / r <= 1real) by (nonlinear_arith)
        requires
            1real <= r <= 4194304real,
    ;
    lemma_near_div(one, 1real, 0real, 1real, n, r, 0real, r, r, 0real);
}

/// A frame that has come back from the transforms, which make it so many times louder as it has
/// samples, is added to the ring as loud as it was, times the scale of the window.
pub proof fn law_robot_round_trip(stft: Stft, wave: Seq<Single>, j: int, w: real, m: real)
    requires
        1 <= stft.fft_size <= 0x40_0000,
        stft.window_scale.is_finite(),
        0real <= stft.window_scale.amount() <= 1024real,
        0 <= j < wave.len(),
        wave[j].is_finite(),
        wave[j].amount() == w * (stft.fft_size as real),
        -m <= w <= m,
        1real / 1048576real <= m <= 1048576real,
    ensures
        stft.piece(wave).len() == wave.len(),
        near(stft.piece(wave)[j], w * stft.window_scale.amount(), 9real, m * 1024real),
{
    let size = stft.fft_size;
    let (n, s, a) = (size as real, stft.window_scale.amount(), wave[j].amount());
    lemma_share(size);
    let big = m * n;
    assert(-big <= a <= big && 1real / 1048576real <= big <= 4398046511104real) by (nonlinear_arith)
        requires
            a == w * n,
            big == m * n,
            -m <= w <= m,
            1real / 1048576real <= m <= 1048576real,
            1real <= n <= 4194304real,
    ;
    lemma_near_self(wave[j], big);
    lemma_near_self(stft.window_scale, 1024real);
    lemma_near_mul(wave[j], a, 0real, big, stft.window_scale, s, 0real, 1024real);
    let (share, q) = (num(0x3f80_0000) / Single::from_usize(size), 1real / n);
    assert(q * n == 1real) by (nonlinear_arith)
        requires
            q == 1real / n,
            n >= 1real,
    ;
    assert((big * 1024real) * q == m * 1024real && (a * s) * q == w * s) by (nonlinear_arith)
        requires
            big == m * n,
            a == w * n,
            q * n == 1real,
    ;
    lemma_near_mul(
        wave[j] * stft.window_scale,
        a * s,
        3real,
        big * 1024real,
        share,
        q,
        3real,
        q,
    );
}

/// Sample `j` of a frame that is stretched to `len` samples lies so far along the frame as `j` lies
/// along the stretched one, between two samples, which are the first one after the last.
pub proof fn law_resampled(wave: Seq<Single>, j: usize, len: usize, m: real) -> (r: (int, real))
    requires
        0 < wave.len() <= 0x1000,
        0 < len <= 0x2000,
        j < len,
        1real / 1099511627776real <= m <= 1099511627776real,
        forall|k: int|
            0 <= k < wave.len() ==> (#[trigger] wave[k]).is_finite() && -m <= wave[k].amount() <= m,
    ensures
        ({
            let (k, f) = r;
            let exact = (j as real) * (wave.len() as real) / (len as real);
            let next = if k + 1 == wave.len() { 0 } else { k + 1 };
            &&& 0 <= k < wave.len()
            &&& 0real <= f < 1real
            &&& -1real / 100real <= (k as real) + f - exact <= 1real / 100real
            &&& near(
                resampled_at(wave, j, len),
                wave[k].amount() + f * (wave[next].amount() - wave[k].amount()),
                7real,
                3real * m,
            )
            &&& len == wave.len() ==> k == j && f == 0real
        }),
{
    let size = wave.len() as usize;
    lemma_count(j);
    lemma_count(size);
    lemma_count(len);
    lemma_numbers();
    lemma_constants();
    let (a, b, c) = (Single::from_usize(j), Single::from_usize(size), Single::from_usize(len));
    let (jr, sr, lr) = (j as real, size as real, len as real);
    lemma_near_self(a, lr);
    lemma_near_self(b, sr);
    lemma_near_self(c, lr);
    let prod = jr * sr;
    let big = lr * sr;
    assert(1real <= big <= 33554432real && 0real <= prod <= big) by (nonlinear_arith)
        requires
            big == lr * sr,
            prod == jr * sr,
            1real <= lr <= 8192real,
            1real <= sr <= 4096real,
            0real <= jr <= lr,
    ;
    lemma_near_mul(a, jr, 0real, lr, b, sr, 0real, sr);
    assert(0real * lr == 0real && big / lr == sr && 0real <= prod / lr <= sr) by (nonlinear_arith)
        requires
            big == lr * sr,
            0real <= prod <= big,
            lr >= 1real,
    ;
    lemma_near_div(a * b, prod, 3real, big, c, lr, 0real, lr, lr, 0real);
    let x = a * b / c;
    // The place is not below zero and not beyond the frame.
    let exact = prod / lr;
    let step = sr / lr;
    assert(exact <= sr - step && step * lr == sr && step >= 0real && (jr >= 1real ==> exact
        >= step)) by (nonlinear_arith)
        requires
            exact == prod / lr,
            step == sr / lr,
            prod == jr * sr,
            0real <= jr <= lr - 1real,
            lr >= 1real,
            sr >= 1real,
    ;
    assert(step * 8192real >= sr) by (nonlinear_arith)
        requires
            step * lr == sr,
            lr <= 8192real,
            step >= 0real,
            sr >= 1real,
            lr >= 1real,
    ;
    assert(-(9real * sr) <= 8388608real * (x.amount() - exact) <= 9real * sr);
    assert(0real <= x.amount() < sr) by {
        if j == 0 {
            lemma_no_part(a, b, c);
        }
    }
    let k = lemma_whole_part(x);
    lemma_slot(x, k);
    let f = x.amount() - k as real;
    assert(k < size);
    let next = if k + 1 >= size { 0 } else { k + 1 };
    lemma_small_mod(k as nat, size as nat);
    if k + 1 == size {
        lemma_fundamental_div_mod_converse(size as int, size as int, 1, 0);
    } else {
        lemma_small_mod((k + 1) as nat, size as nat);
    }
    assert(wave[k].is_finite() && wave[next].is_finite());
    law_linear(wave[k], wave[next], x - x.floor(), m);
    if len == size {
        lemma_same_place(j, len);
    }
    (k, f)
}

/// No part of a frame.
proof fn lemma_no_part(a: Single, b: Single, c: Single)
    requires
        a.is_finite(),
        b.is_finite(),
        c.is_finite(),
        a.amount() == 0real,
        c.amount() >= 1real,
    ensures
        (a * b / c).amount() == 0real,
{
    lemma_constants();
    lemma_numbers();
    lemma_amount_order(a, num(0));
    lemma_amount_order(num(0x3f80_0000), c);
    let (v, w, u) = (b.value(), c.value(), unit());
    assert(0 * v == 0 && 0 * u == 0 && 0 * w == 0) by (nonlinear_arith);
    lemma_mul(a, b, num(0), num(0));
    lemma_div(a * b, c, num(0), num(0));
    lemma_amount_order(a * b / c, num(0));
}

/// The whole part of a number that is not negative.
pub proof fn lemma_whole_part(x: Single) -> (k: int)
    requires
        x.is_finite(),
        0real <= x.amount() <= 1073741824real,
    ensures
        0 <= k <= 1073741824,
        k as real <= x.amount() < (k + 1) as real,
{
    lemma_constants();
    lemma_numbers();
    lemma_amount(x);
    lemma_amount_order(num(0), x);
    let (v, u, a) = (x.value(), unit(), x.amount());
    lemma_fundamental_div_mod(v, u);
    lemma_mod_bound(v, u);
    let k = v / u;
    lemma_real_product(k, u);
    let (kr, ur, rest) = (k as real, u as real, (v % u) as real);
    assert(k * u == u * k) by (nonlinear_arith);
    assert(kr <= a < kr + 1real) by (nonlinear_arith)
        requires
            a * ur == kr * ur + rest,
            0real <= rest < ur,
            ur > 0real,
    ;
    assert(k >= 0) by (nonlinear_arith)
        requires
            v >= 0,
            u > 0,
            k == v / u,
    ;
    k
}

/// A frame that is not stretched is read where it was written.
proof fn lemma_same_place(j: usize, len: usize)
    requires
        j < len <= 0x1000,
    ensures
        (Single::from_usize(j) * Single::from_usize(len) / Single::from_usize(len)).amount()
            == j as real,
{
    lemma_unit_positive();
    lemma_count(j);
    lemma_from_usize(j);
    lemma_from_usize(len);
    let (a, b, u) = (Single::from_usize(j), Single::from_usize(len), unit());
    let (n, l) = (j as int, len as int);
    assert(0 <= n * l <= 0x100_0000) by (nonlinear_arith)
        requires
            0 <= n < l <= 0x1000,
    ;
    let c = lemma_whole((n * l) as nat);
    assert((n * u) * (l * u) == ((n * l) * u) * u && (n * u) * (l * u) == ((n * l) * u) * u && l * u
        > 0) by (nonlinear_arith)
        requires
            l > 0,
            u > 0,
    ;
    lemma_mul(a, b, c, c);
    lemma_div(a * b, b, a, a);
    lemma_amount_order(a * b / b, a);
}

/// A frame that has come back from the transforms, which make it so many times louder as it has
/// samples, is added to the ring, stretched, as loud as it was, times the root of the window and
/// its scale.
pub proof fn law_shift_round_trip(pv: PhaseVocoder, wave: Seq<Single>, j: int, w: real, m: real)
    requires
        1 <= pv.fft_size <= 0x40_0000,
        pv.window_scale.is_finite(),
        0real <= pv.window_scale.amount() <= 1024real,
        0 <= j < pv.synthesis_window@.len() <= usize::MAX,
        pv.synthesis_window@[j].is_finite(),
        0real <= pv.synthesis_window@[j].amount() <= 1real,
        ({
            let x = resampled_at(wave, j as usize, pv.synthesis_window@.len() as usize);
            x.is_finite() && x.amount() == w * (pv.fft_size as real)
        }),
        -m <= w <= m,
        1real / 1048576real <= m <= 1048576real,
    ensures
        pv.piece(wave).len() == pv.synthesis_window@.len(),
        ({
            let root = pv.synthesis_window@[j].sqrt().amount();
            let v = pv.synthesis_window@[j].amount();
            &&& root >= 0real
            &&& -v <= 8388608real * (root * root - v) <= v
            &&& near(
                pv.piece(wave)[j],
                w * root * pv.window_scale.amount(),
                12real,
                (m * 2real) * 1024real,
            )
        }),
{
    lemma_constants();
    lemma_numbers();
    let size = pv.fft_size;
    let (n, s) = (size as real, pv.window_scale.amount());
    let x = resampled_at(wave, j as usize, pv.synthesis_window@.len() as usize);
    let a = x.amount();
    lemma_share(size);
    let big = m * n;
    assert(-big <= a <= big && 1real / 1048576real <= big <= 4398046511104real) by (nonlinear_arith)
        requires
            a == w * n,
            big == m * n,
            -m <= w <= m,
            1real / 1048576real <= m <= 1048576real,
            1real <= n <= 4194304real,
    ;
    lemma_near_self(x, big);
    let (share, q) = (num(0x3f80_0000) / Single::from_usize(size), 1real / n);
    assert(q * n == 1real) by (nonlinear_arith)
        requires
            q == 1real / n,
            n >= 1real,
    ;
    assert(big * q == m && a * q == w) by (nonlinear_arith)
        requires
            big == m * n,
            a == w * n,
            q * n == 1real,
    ;
    lemma_near_mul(x, a, 0real, big, share, q, 3real, q);
    let win = pv.synthesis_window@[j];
    lemma_amount_order(num(0), win);
    lemma_root(win);
    let root = win.sqrt();
    let r = root.amount();
    assert(r <= 2real) by (nonlinear_arith)
        requires
            8388608real * (r * r - win.amount()) <= win.amount(),
            win.amount() <= 1real,
    ;
    lemma_near_self(root, 2real);
    lemma_near_mul(x * share, w, 6real, m, root, r, 0real, 2real);
    lemma_near_self(pv.window_scale, 1024real);
    lemma_near_mul(
        x * share * root,
        w * r,
        9real,
        m * 2real,
        pv.window_scale,
        s,
        0real,
        1024real,
    );
}

/// At a ratio of one, where a frame is as long after resampling as before, the frame that has come
/// back from the transforms is added to the ring sample by sample: what was `w` before them, times
/// the root of the window and its scale, whatever the size of the frame.
pub proof fn law_unshifted_round_trip(pv: PhaseVocoder, wave: Seq<Single>, j: int, w: real, m: real)
    requires
        1 <= pv.fft_size <= 0x1000,
        pv.synthesis_window@.len() == pv.fft_size,
        wave.len() == pv.fft_size,
        pv.window_scale.is_finite(),
        0real <= pv.window_scale.amount() <= 1024real,
        0 <= j < pv.fft_size,
        pv.synthesis_window@[j].is_finite(),
        0real <= pv.synthesis_window@[j].amount() <= 1real,
        forall|k: int|
            0 <= k < wave.len() ==> (#[trigger] wave[k]).is_finite() && -(m * 4096real)
                <= wave[k].amount() <= m * 4096real,
        wave[j].amount() == w * (pv.fft_size as real),
        -m <= w <= m,
        1real / 1048576real <= m <= 1048576real / 64real,
    ensures
        ({
            let root = pv.synthesis_window@[j].sqrt().amount();
            let v = pv.synthesis_window@[j].amount();
            &&& -v <= 8388608real * (root * root - v) <= v
            &&& near(
                pv.piece(wave)[j],
                w * root * pv.window_scale.amount(),
                12real,
                (m * 2real) * 1024real,
            )
        }),
{
    let size = pv.fft_size;
    let (k, f) = law_resampled(wave, j as usize, size, m * 4096real);
    let x = resampled_at(wave, j as usize, size);
    let next = if j + 1 >= size { 0 } else { j + 1 };
    assert(wave[j].is_finite() && wave[next].is_finite());
    lemma_numbers();
    lemma_constants();
    // At no distance from a sample lies the sample itself.
    lemma_same_place(j as usize, size);
    let place = Single::from_usize(j as usize) * Single::from_usize(size) / Single::from_usize(
        size,
    );
    lemma_near_self(wave[j], m * 4096real);
    lemma_near_self(wave[next], m * 4096real);
    lemma_near_sub(
        wave[next],
        wave[next].amount(),
        m * 4096real,
        wave[j],
        wave[j].amount(),
        m * 4096real,
        0real,
    );
    lemma_place_finite(j as usize, size);
    lemma_slot(place, j);
    lemma_small_mod(j as nat, size as nat);
    if j + 1 == size {
        lemma_fundamental_div_mod_converse(size as int, size as int, 1, 0);
    } else {
        lemma_small_mod((j + 1) as nat, size as nat);
    }
    let frac = place - place.floor();
    lemma_amount_order(frac, num(0));
    law_linear_starts_at_first(wave[j], wave[next], frac);
    lemma_amount_order(x, wave[j]);
    law_shift_round_trip(pv, wave, j, w, m);
}

proof fn lemma_place_finite(j: usize, len: usize)
    requires
        j < len <= 0x1000,
    ensures
        (Single::from_usize(j) * Single::from_usize(len) / Single::from_usize(len)).is_finite(),
{
    lemma_count(j);
    lemma_count(len);
    let (a, b) = (Single::from_usize(j), Single::from_usize(len));
    let l = len as real;
    lemma_near_self(a, l);
    lemma_near_self(b, l);
    let big = l * l;
    assert(1real <= big <= 16777216real && big / l == l && 0real * l == 0real) by (nonlinear_arith)
        requires
            big == l * l,
            1real <= l <= 4096real,
    ;
    lemma_near_mul(a, j as real, 0real, l, b, l, 0real, l);
    lemma_near_div(a * b, (j as real) * l, 3real, big, b, l, 0real, l, l, 0real);
}


/// The square window is one throughout; the triangular one rises from nothing to one in the middle
/// and falls back, in straight lines.
pub proof fn law_straight_windows(i: int, len: usize)
    requires
        2 <= len <= 0x1_0000,
        0 <= i < len,
    ensures
        rectangle(len as nat).len() == len,
        rectangle(len as nat)[i].is_finite() && rectangle(len as nat)[i].amount() == 1real,
        bartlett(len).len() == len,
        ({
            let (x, n) = (i as real, (len - 1) as real);
            let height = if 2real * x <= n {
                2real * x / n
            } else {
                2real - 2real * x / n
            };
            &&& bartlett(len)[i].is_finite()
            &&& -80real <= 8388608real * (bartlett(len)[i].amount() - height) <= 80real
        }),
{
    lemma_numbers();
    let (one, two) = (num(0x3f80_0000), num(0x4000_0000));
    lemma_count(i as usize);
    lemma_count((len - 1) as usize);
    let (a, b) = (Single::from_usize(i as usize), Single::from_usize((len - 1) as usize));
    let (x, n) = (i as real, (len - 1) as real);
    lemma_near_self(two, 2real);
    lemma_near_self(one, 1real);
    lemma_near_self(a, n);
    lemma_near_self(b, n);
    lemma_near_mul(two, 2real, 0real, 2real, a, x, 0real, n);
    assert(0real * n == 0real && (2real * n) / n == 2real && 0real <= 2real * x / n <= 2real)
        by (nonlinear_arith)
        requires
            0real <= x <= n,
            n >= 1real,
    ;
    lemma_near_div(two * a, 2real * x, 3real, 2real * n, b, n, 0real, n, n, 0real);
    let q = two * a / b;
    let y = 2real * x / n;
    lemma_near_wider(one, 1real, 0real, 1real, 9real, 1real);
    lemma_near_sub(q, y, 2real, one, 1real, 1real, 9real);
    let d = q - one;
    lemma_abs(d);
    lemma_amount(d);
    lemma_amount(d.abs());
    let (dv, av, u) = (d.amount(), d.abs().amount(), unit() as real);
    assert(av == if dv < 0real { -dv } else { dv }) by (nonlinear_arith)
        requires
            av * u == if d.value() < 0 { -(dv * u) } else { dv * u },
            dv * u == d.value() as real,
            u > 0real,
    ;
    let e = if y - 1real < 0real { 1real - y } else { y - 1real };
    assert(near(d.abs(), e, 33real, 1real));
    lemma_near_wider(one, 1real, 0real, 1real, 33real, 1real);
    lemma_near_sub(one, 1real, 1real, d.abs(), e, 1real, 33real);
    assert(2real * x <= n <==> y <= 1real) by (nonlinear_arith)
        requires
            y == 2real * x / n,
            n >= 1real,
    ;
}

/// The samples of a window added up as real numbers.
pub open spec fn real_sum(window: Seq<Single>, n: nat) -> real
    decreases n,
{
    if n == 0 { 0real } else { real_sum(window, (n - 1) as nat) + window[n - 1].amount() }
}

/// The sum of a window is that of its samples, up to rounding.
pub proof fn law_window_sum(window: Seq<Single>, n: nat)
    requires
        n <= window.len(),
        n <= 0x1_0000,
        forall|k: int|
            0 <= k < window.len() ==> (#[trigger] window[k]).is_finite() && 0real
                <= window[k].amount() <= 1real,
    ensures
        window_sum(window, n).is_finite(),
        0real <= real_sum(window, n) <= n as real,
        -(4real * (n as real) * (n as real)) <= 8388608real * (window_sum(window, n).amount()
            - real_sum(window, n)) <= 4real * (n as real) * (n as real),
    decreases n,
{
    lemma_numbers();
    let r = n as real;
    if n == 0 {
        assert(4real * 0real * 0real == 0real) by (nonlinear_arith);
    } else {
        let k = (n - 1) as nat;
        let s = k as real;
        law_window_sum(window, k);
        let (x, y) = (window_sum(window, k), window[k as int]);
        assert(y.is_finite());
        assert(0real <= 4real * s * s <= 4294967296real * 4real && 4real * r * r == 4real * s * s
            + 8real * s + 4real && 4real * s * s <= 262144real * s) by (nonlinear_arith)
            requires
                0real <= s <= 65536real,
                r == s + 1real,
        ;
        let v = x.amount();
        let m = if v < 0real { -v } else { v };
        lemma_near_self(x, m);
        lemma_near_self(y, 1real);
        lemma_near_add(x, v, m, y, y.amount(), 1real, 0real);
    }
}


/// The scale of a window makes up for it: times the sum of the window and the number of frames that
/// overlap, it gives the length of a frame. A window without a sum has no scale.
pub proof fn law_scale(window: Seq<Single>, overlap: usize)
    requires
        1 <= window.len() <= 0x1_0000,
        1 <= overlap <= 16,
        window_sum(window, window.len()).is_finite(),
        1real / 16real <= window_sum(window, window.len()).amount() <= 131072real,
    ensures
        scale_of(window, overlap).is_finite(),
        ({
            let (n, o) = (window.len() as real, overlap as real);
            let s = window_sum(window, window.len()).amount();
            -(20real * n) <= 8388608real * (scale_of(window, overlap).amount() * s * o - n)
                <= 20real * n
        }),
{
    lemma_constants();
    lemma_numbers();
    let len = window.len() as usize;
    lemma_count(len);
    lemma_count(overlap);
    let (a, b, c) = (
        Single::from_usize(len),
        Single::from_usize(overlap),
        window_sum(window, window.len()),
    );
    let (n, o, s) = (len as real, overlap as real, c.amount());
    lemma_near_self(a, n);
    lemma_near_self(b, o);
    lemma_near_self(c, s);
    let q = n / o;
    assert(q * o == n && 1real / 16real <= q <= 65536real && 0real * o == 0real && 0real * s
        == 0real) by (nonlinear_arith)
        requires
            q == n / o,
            1real <= o <= 16real,
            1real <= n <= 65536real,
    ;
    lemma_near_div(a, n, 0real, n, b, o, 0real, o, o, 0real);
    let z = q / s;
    assert(z * s == q && 1real / 16777216real <= z <= 1048576real) by (nonlinear_arith)
        requires
            z == q / s,
            1real / 16real <= s <= 131072real,
            1real / 16real <= q <= 65536real,
    ;
    lemma_near_div(a / b, q, 3real, q, c, s, 0real, s, s, 0real);
    assert(!c.is_zero()) by {
        lemma_zero(Format::Single);
        lemma_amount_order(c, num(0));
        if c.is_zero() {
            assert(c.value() == 0);
        }
    }
    let r = scale_of(window, overlap).amount();
    let so = s * o;
    assert(so > 0real && z * so == n) by (nonlinear_arith)
        requires
            so == s * o,
            s > 0real,
            o > 0real,
            z * s == q,
            q * o == n,
    ;
    assert(-(9real * n) <= 8388608real * (r * so - n) <= 9real * n) by (nonlinear_arith)
        requires
            -(9real * z) <= 8388608real * (r - z) <= 9real * z,
            z * so == n,
            so > 0real,
    ;
    assert(r * s * o == r * so) by (nonlinear_arith)
        requires
            so == s * o,
    ;
}

/// A piece is added to a ring sample by sample, one slot after the other from the place on, and
/// leaves the other slots as they are.
pub proof fn law_overlap_adds(ring: Seq<Single>, pos: usize, piece: Seq<Single>, n: nat, j: nat)
    requires
        pos < ring.len() <= MAX_LINE,
        n <= piece.len(),
        n <= ring.len(),
        j < ring.len(),
    ensures
        overlapped(ring, pos, piece, n).len() == ring.len(),
        ({
            let slot = (pos + j) % (ring.len() as int);
            overlapped(ring, pos, piece, n)[slot] == if j < n {
                ring[slot] + piece[j as int]
            } else {
                ring[slot]
            }
        }),
    decreases n,
{
    let len = ring.len() as usize;
    if n > 0 {
        let k = (n - 1) as nat;
        law_overlap_adds(ring, pos, piece, k, j);
        law_overlap_adds(ring, pos, piece, k, k);
        lemma_ahead_next(pos, k, len);
        lemma_ahead_next(pos, j, len);
        if j != k {
            if j < k {
                lemma_apart(pos, j, k, len);
            } else {
                lemma_apart(pos, k, j, len);
            }
        }
    }
}

/// A ring that is fed holds, slot by slot, the last samples that came, as many as it has slots.
pub proof fn law_ring_holds_last(
    ring: Seq<Single>,
    pos: usize,
    input: Seq<Single>,
    n: nat,
    back: nat,
)
    requires
        pos < ring.len() <= MAX_LINE,
        back < n,
        back < ring.len(),
    ensures
        ring_fed(ring, pos, input, n).len() == ring.len(),
        ring_fed(ring, pos, input, n)[(pos + n - 1 - back) % (ring.len() as int)] == input[n - 1
            - back],
    decreases n,
{
    let len = ring.len() as usize;
    let k = (n - 1) as nat;
    lemma_fed_len(ring, pos, input, n);
    lemma_fed_len(ring, pos, input, k);
    lemma_ahead_next(pos, k, len);
    assert(ahead(pos, k, len) == (pos + n - 1) % (len as int));
    if back > 0 {
        law_ring_holds_last(ring, pos, input, k, (back - 1) as nat);
        let j = (n - 1 - back) as nat;
        lemma_ahead_next(pos, j, len);
        lemma_apart(pos, j, k, len);
    }
}

proof fn lemma_fed_len(ring: Seq<Single>, pos: usize, input: Seq<Single>, n: nat)
    requires
        pos < ring.len() <= MAX_LINE,
    ensures
        ring_fed(ring, pos, input, n).len() == ring.len(),
    decreases n,
{
    if n > 0 {
        lemma_ahead_next(pos, (n - 1) as nat, ring.len() as usize);
        lemma_fed_len(ring, pos, input, (n - 1) as nat);
    }
}

/// A frame holds the last samples that came, in the order in which they came, each times its sample
/// of the window.
pub proof fn law_frame_holds_last(
    ring: Seq<Single>,
    pos: usize,
    window: Seq<Single>,
    input: Seq<Single>,
    n: nat,
    i: int,
    m: real,
)
    requires
        pos < ring.len() <= MAX_LINE,
        window.len() == ring.len(),
        n >= ring.len(),
        0 <= i < ring.len(),
        window[i].is_finite(),
        0real <= window[i].amount() <= 1real,
        input[n - ring.len() + i].is_finite(),
        -m <= input[n - ring.len() + i].amount() <= m,
        1real / 1099511627776real <= m <= 1099511627776real,
    ensures
        ({
            let len = ring.len() as usize;
            let x = input[n - ring.len() + i];
            let f = frame(
                ring_fed(ring, pos, input, n),
                ahead(pos, n, len) as usize,
                window,
            );
            f.len() == window.len() && near(f[i], window[i].amount() * x.amount(), 3real, m)
        }),
{
    let len = ring.len() as usize;
    let l = len as int;
    lemma_ahead_next(pos, n, len);
    lemma_fed_len(ring, pos, input, n);
    let back = (l - 1 - i) as nat;
    law_ring_holds_last(ring, pos, input, n, back);
    // The slot so many after the oldest one is the one so many before the newest.
    lemma_ahead_twice(pos, n, i as nat, len);
    assert((pos + n + i) % l == (pos + n - 1 - back) % l) by {
        lemma_mod_multiples_vanish(1, pos + n - 1 - back, l);
        assert(l * 1 + (pos + n - 1 - back) == pos + n + i) by (nonlinear_arith)
            requires
                back == l - 1 - i,
        ;
    }
    let x = input[n - ring.len() + i];
    assert(n - 1 - back == n - ring.len() + i);
    lemma_near_self(window[i], 1real);
    lemma_near_self(x, m);
    assert(1real * m == m) by (nonlinear_arith);
    lemma_near_mul(window[i], window[i].amount(), 0real, 1real, x, x.amount(), 0real, m);
}

/// A shift in semitones is so many octaves: twelve to each.
pub proof fn law_semitones(shift: Single)
    requires
        shift.is_finite(),
        -1024real <= shift.amount() <= 1024real,
    ensures
        near(shift_exponent(shift), shift.amount() / 12real, 3real, 1024real),
{
    lemma2_to64();
    lemma_constant(0x4140_0000, 0x10_0000, 0xc0_0000);
    let twelve = num(0x4140_0000);
    lemma_ratio(twelve, 0x10_0000, 0xc0_0000);
    lemma_near_self(shift, 1024real);
    lemma_near_self(twelve, 12real);
    lemma_near_div(
        shift,
        shift.amount(),
        0real,
        1024real,
        twelve,
        12real,
        0real,
        12real,
        12real,
        0real,
    );
    lemma_near_wider(
        shift_exponent(shift),
        shift.amount() / 12real,
        3real,
        1024real / 12real,
        3real,
        1024real,
    );
}

/// From one sample to the next the phase of bin `k` advances by `k` turns over the size of the
/// frame.
pub proof fn law_bin_advance(k: usize, fft_size: usize)
    requires
        1 <= fft_size <= 0x1_0000,
        k <= fft_size,
    ensures
        omega_at(k, fft_size).is_finite(),
        ({
            let exact = (k as real) / (fft_size as real) * 3141593real / 500000real;
            -1real / 50000real <= omega_at(k, fft_size).amount() - exact <= 1real / 50000real
        }),
{
    lemma2_to64();
    lemma_constant(0x40c9_0fdb, 0x20_0000, 0xc9_0fdb);
    let tau = num(0x40c9_0fdb);
    lemma_ratio(tau, 0x20_0000, 0xc9_0fdb);
    lemma_count(k);
    lemma_count(fft_size);
    let (a, b) = (Single::from_usize(k), Single::from_usize(fft_size));
    let (t, x, n) = (tau.amount(), k as real, fft_size as real);
    lemma_near_self(tau, 7real);
    lemma_near_self(a, n);
    lemma_near_self(b, n);
    lemma_near_mul(tau, t, 0real, 7real, a, x, 0real, n);
    assert((7real * n) / n == 7real && 0real * n == 0real) by (nonlinear_arith)
        requires
            n >= 1real,
    ;
    lemma_near_div(tau * a, t * x, 3real, 7real * n, b, n, 0real, n, n, 0real);
    let y = x / n;
    assert((t * x) / n == t * y && 0real <= y <= 1real) by (nonlinear_arith)
        requires
            y == x / n,
            0real <= x <= n,
            n >= 1real,
    ;
    let d = t - 3141593real / 500000real;
    lemma_bounded_product(d, y, 1real / 1000000real, 1real);
    assert(d * y == t * y - y * 3141593real / 500000real) by (nonlinear_arith)
        requires
            d == t - 3141593real / 500000real,
    ;
}


/// Whether two phases are the same, whole turns aside, to within `e`.
pub open spec fn congruent(x: real, y: real, turns: int, e: real) -> bool {
    -e <= x - y - (turns as real) * num(0x40c9_0fdb).amount() <= e
}

/// A turn.
proof fn lemma_turn()
    ensures
        num(0x40c9_0fdb).is_finite(),
        num(0x4049_0fdb).is_finite(),
        num(0x40c9_0fdb).amount() == 2real * num(0x4049_0fdb).amount(),
        6283185real <= num(0x40c9_0fdb).amount() * 1000000real <= 6283186real,
{
    lemma2_to64();
    lemma_constant(0x40c9_0fdb, 0x20_0000, 0xc9_0fdb);
    lemma_constant(0x4049_0fdb, 0x40_0000, 0xc9_0fdb);
    lemma_ratio(num(0x40c9_0fdb), 0x20_0000, 0xc9_0fdb);
    lemma_ratio(num(0x4049_0fdb), 0x40_0000, 0xc9_0fdb);
}

/// A phase taken back to the turn around zero is the same phase, whole turns aside.
pub proof fn law_same_phase(phase: Single, m: real) -> (turns: int)
    requires
        phase.is_finite(),
        -m <= phase.amount() <= m,
        4real <= m <= 1048576real,
    ensures
        princ_arg(phase).is_finite(),
        -(315real / 100real) <= princ_arg(phase).amount() <= 315real / 100real,
        congruent(princ_arg(phase).amount(), phase.amount(), turns, m / 262144real),
{
    lemma_turn();
    lemma_numbers();
    lemma_constants();
    let (pi, tau) = (num(0x4049_0fdb), num(0x40c9_0fdb));
    let p = pi.amount();
    let (n, left) = pitchshift::law_princ_arg_takes_whole_turns(phase);
    pitchshift::law_princ_arg_in_range(phase);
    lemma_near_self(phase, m);
    lemma_near_self(pi, m);
    lemma_near_add(phase, phase.amount(), m, pi, p, m, 0real);
    let x = phase + pi;
    lemma_amount(x);
    lemma_amount(left);
    lemma_amount(tau);
    lemma_real_product(n, tau.value());
    let (la, xa, ta, u, nr) = (left.amount(), x.amount(), tau.amount(), unit() as real, n as real);
    assert(la == xa - nr * ta) by (nonlinear_arith)
        requires
            la * u == xa * u - nr * (ta * u),
            u > 0real,
    ;
    let y = princ_arg(phase);
    let back = x.gt(num(0));
    lemma_negated(tau);
    lemma_turned_round(tau);
    lemma_turned_round(pi);
    lemma_amount_order(tau.negated(), left);
    lemma_amount_order(left, tau);
    lemma_between(y, pi.negated(), pi);
    lemma_near_self(left, 16real);
    lemma_near_self(pi, 16real);
    if back {
        lemma_near_sub(left, la, 16real, pi, p, 16real, 0real);
        assert((-n) as real == -nr);
        assert((-n as int) as real * ta == -(nr * ta)) by (nonlinear_arith)
            requires
                (-n) as real == -nr,
        ;
        -n
    } else {
        lemma_near_add(left, la, 16real, pi, p, 16real, 0real);
        let k = 1 - n;
        assert(k as real == 1real - nr);
        assert((k as real) * ta == ta - nr * ta) by (nonlinear_arith)
            requires
                k as real == 1real - nr,
        ;
        k
    }
}


/// The phase that a bin goes out with has gone on since the last hop by what the bin was expected
/// to and by how far what was measured differs from that, which is less than half a turn, times the
/// ratio; whole turns aside.
pub proof fn law_next_phase(
    measured: Single,
    last_in: Single,
    last_out: Single,
    advance: Single,
    ratio: Single,
    m: real,
) -> (r: (real, int, int))
    requires
        measured.is_finite() && -m <= measured.amount() <= m,
        last_in.is_finite() && -m <= last_in.amount() <= m,
        last_out.is_finite() && -m <= last_out.amount() <= m,
        advance.is_finite() && -m <= advance.amount() <= m,
        ratio.is_finite() && 0real <= ratio.amount() <= 4real,
        4real <= m <= 65536real,
    ensures
        ({
            let (d, n, k) = r;
            let next = next_phase(measured, last_in, last_out, advance, ratio);
            &&& next.is_finite()
            &&& -(315real / 100real) <= d <= 315real / 100real
            &&& congruent(
                d,
                measured.amount() - last_in.amount() - advance.amount(),
                n,
                m / 32768real,
            )
            &&& congruent(
                next.amount(),
                last_out.amount() + (advance.amount() + d) * ratio.amount(),
                k,
                m / 16384real,
            )
        }),
{
    let (mu, la, lo, ad, ra) = (
        measured.amount(),
        last_in.amount(),
        last_out.amount(),
        advance.amount(),
        ratio.amount(),
    );
    lemma_near_self(measured, m);
    lemma_near_self(last_in, m);
    lemma_near_self(last_out, m);
    lemma_near_self(advance, m);
    lemma_near_self(ratio, 4real);
    lemma_near_sub(measured, mu, m, last_in, la, m, 0real);
    lemma_near_wider(advance, ad, 0real, m, 2real, m);
    lemma_near_sub(measured - last_in, mu - la, m + m, advance, ad, m, 2real);
    let dev = measured - last_in - advance;
    let n = law_same_phase(dev, 4real * m);
    let left = princ_arg(dev);
    let d = left.amount();
    lemma_near_self(left, m);
    lemma_near_add(advance, ad, m, left, d, m, 0real);
    lemma_near_mul(advance + left, ad + d, 2real, m + m, ratio, ra, 0real, 4real);
    lemma_near_wider(last_out, lo, 0real, m, 5real, m);
    let all = (ad + d) * ra;
    assert((m + m) * 4real == 8real * m) by (nonlinear_arith);
    lemma_near_add(last_out, lo, m, (advance + left) * ratio, all, 8real * m, 5real);
    let k = law_same_phase(last_out + (advance + left) * ratio, 10real * m);
    (d, n, k)
}

/// At a ratio of one the phase that a bin goes out with goes on as what was measured goes on; whole
/// turns aside. So a bin that went out as it came in goes on doing so.
pub proof fn law_unshifted_phase(
    measured: Single,
    last_in: Single,
    last_out: Single,
    advance: Single,
    ratio: Single,
    m: real,
) -> (turns: int)
    requires
        measured.is_finite() && -m <= measured.amount() <= m,
        last_in.is_finite() && -m <= last_in.amount() <= m,
        last_out.is_finite() && -m <= last_out.amount() <= m,
        advance.is_finite() && -m <= advance.amount() <= m,
        ratio.is_finite() && ratio.amount() == 1real,
        4real <= m <= 65536real,
    ensures
        congruent(
            next_phase(measured, last_in, last_out, advance, ratio).amount(),
            last_out.amount() + measured.amount() - last_in.amount(),
            turns,
            m / 8192real,
        ),
{
    let (d, n, k) = law_next_phase(measured, last_in, last_out, advance, ratio, m);
    let tau = num(0x40c9_0fdb).amount();
    assert((advance.amount() + d) * 1real == advance.amount() + d) by (nonlinear_arith);
    let t = n + k;
    assert((t as real) * tau == (n as real) * tau + (k as real) * tau) by (nonlinear_arith)
        requires
            t as real == n as real + k as real,
    ;
    t
}

/// From one hop to the next every bin takes over what was measured of it and goes out with the
/// phase that this leads to; whole turns aside. The bin is expected to advance by its own frequency
/// times the hop.
pub proof fn law_hop(
    pv: PhaseVocoder,
    ratio: Single,
    phases: pitchshift::Phases,
    measured: Seq<Single>,
    k: int,
    m: real,
) -> (r: (real, int, int))
    requires
        pv.wf(),
        1 < pv.fft_size <= 0x1_0000,
        0 <= k <= pv.fft_size / 2,
        measured[k].is_finite() && -m <= measured[k].amount() <= m,
        phases.input[k].is_finite() && -m <= phases.input[k].amount() <= m,
        phases.output[k].is_finite() && -m <= phases.output[k].amount() <= m,
        ratio.is_finite() && 0real <= ratio.amount() <= 4real,
        4real * (pv.hop_size as real) + 4real <= m <= 65536real,
    ensures
        pv.hopped(ratio, phases, measured).input[k] == measured[k],
        ({
            let (d, n, t) = r;
            let next = pv.hopped(ratio, phases, measured).output[k];
            let expected = (k as real) / (pv.fft_size as real) * (pv.hop_size as real)
                * 3141593real / 500000real;
            &&& next.is_finite()
            &&& -(315real / 100real) <= d <= 315real / 100real
            &&& congruent(
                d,
                measured[k].amount() - phases.input[k].amount() - expected,
                n,
                m / 10000real,
            )
            &&& congruent(
                next.amount(),
                phases.output[k].amount() + (expected + d) * ratio.amount(),
                t,
                m / 5000real,
            )
        }),
{
    let (size, hop) = (pv.fft_size, pv.hop_size);
    assert(hop <= size) by {
        let o = at_least_one(pv.overlap) as int;
        assert(size as int / o <= size) by (nonlinear_arith)
            requires
                o >= 1,
        ;
    }
    lemma_count(hop);
    law_bin_advance(k as usize, size);
    let (omega, h) = (pv.omega@[k], Single::from_usize(hop));
    assert(omega == omega_at(k as usize, size));
    let hr = hop as real;
    let share = (k as real) / (size as real);
    assert(0real <= share <= 1real / 2real) by (nonlinear_arith)
        requires
            share == (k as real) / (size as real),
            0real <= k as real,
            2real * (k as real) <= size as real,
            size as real >= 1real,
    ;
    lemma_near_self(omega, 4real);
    let b = if hr < 1real { 1real } else { hr };
    lemma_near_self(h, b);
    lemma_near_mul(omega, omega.amount(), 0real, 4real, h, hr, 0real, b);
    let advance = omega * h;
    let exact = share * 3141593real / 500000real;
    let expected = share * hr * 3141593real / 500000real;
    let e = omega.amount() - exact;
    lemma_bounded_product(e, hr, 1real / 50000real, b);
    assert(e * hr == omega.amount() * hr - expected) by (nonlinear_arith)
        requires
            e == omega.amount() - exact,
            exact == share * 3141593real / 500000real,
            expected == share * hr * 3141593real / 500000real,
    ;
    lemma_bounded_product(omega.amount(), hr, 16real / 5real, b);
    let (d, n, t) = law_next_phase(
        measured[k],
        phases.input[k],
        phases.output[k],
        advance,
        ratio,
        m,
    );
    let off = advance.amount() - expected;
    assert(-(m / 100000real) <= off <= m / 100000real);
    lemma_bounded_product(off, ratio.amount(), m / 100000real, 4real);
    assert(off * ratio.amount() == (advance.amount() + d) * ratio.amount() - (expected + d)
        * ratio.amount()) by (nonlinear_arith)
        requires
            off == advance.amount() - expected,
    ;
    (d, n, t)
}


/// A number is rounded to the nearest whole one.
proof fn lemma_nearest(x: Single) -> (k: int)
    requires
        x.is_finite(),
        x.amount() >= 0real,
    ensures
        x.round().is_finite(),
        x.round().amount() == k as real,
        k >= 0,
        -1real / 2real <= (k as real) - x.amount() <= 1real / 2real,
{
    lemma_constants();
    lemma_numbers();
    lemma_amount_order(num(0), x);
    lemma_round(x);
    let (v, u) = (x.value(), unit());
    let (a, b) = (2 * v + u, 2 * u);
    lemma_fundamental_div_mod(a, b);
    lemma_mod_bound(a, b);
    let k = a / b;
    lemma_amount(x);
    lemma_amount(x.round());
    lemma_real_product(k, u);
    lemma_real_product(b, k);
    let (kr, ur, xa, ra) = (k as real, u as real, x.amount(), x.round().amount());
    assert(ra == kr) by (nonlinear_arith)
        requires
            ra * ur == kr * ur,
            ur > 0real,
    ;
    let rest = (a % b) as real;
    assert(2real * (xa * ur) + ur == (2real * ur) * kr + rest);
    assert(-1real / 2real <= kr - xa <= 1real / 2real) by (nonlinear_arith)
        requires
            2real * (xa * ur) + ur == (2real * ur) * kr + rest,
            0real <= rest < 2real * ur,
            ur > 0real,
    ;
    assert(k >= 0) by (nonlinear_arith)
        requires
            k == a / b,
            a >= 0,
            b > 0,
    ;
    k
}

/// The ratio that a shift is snapped to is a whole number of samples to a hop, and no further from
/// the shift than half a sample to a hop; where that is too small it is a thousandth.
pub proof fn law_snapped(raw: Single, hop: usize) -> (k: int)
    requires
        1 <= hop <= 0x1_0000,
        raw.is_finite(),
        0real <= raw.amount() <= 64real,
    ensures
        ({
            let (r, n) = (snapped_ratio(raw, hop).amount(), hop as real);
            let slack = n / 5000real;
            &&& snapped_ratio(raw, hop).is_finite()
            &&& r >= 999real / 1000000real
            &&& -(1real / 2real + slack) <= (k as real) - raw.amount() * n <= 1real / 2real + slack
            &&& k as real >= n / 500real ==> -slack <= r * n - (k as real) <= slack
        }),
{
    lemma_numbers();
    lemma_constants();
    lemma2_to64();
    lemma2_to64_rest();
    lemma_constant(0x3a83_126f, 0x2_0000_0000, 0x83_126f);
    let least = num(0x3a83_126f);
    lemma_ratio(least, 0x2_0000_0000, 0x83_126f);
    lemma_count(hop);
    let h = Single::from_usize(hop);
    let (n, v) = (hop as real, raw.amount());
    lemma_near_self(raw, 64real);
    lemma_near_self(h, n);
    lemma_near_mul(raw, v, 0real, 64real, h, n, 0real, n);
    let x = raw * h;
    lemma_amount_order(num(0), raw);
    lemma_amount_order(num(0), h);
    let (a, b, u) = (raw.value(), h.value(), unit());
    assert(0 * b == 0 && a * b >= 0 && 0 * u == 0) by (nonlinear_arith)
        requires
            a >= 0,
            b >= 0,
    ;
    lemma_mul(num(0), h, num(0), num(0));
    lemma_mul_monotone(num(0), h, raw, h);
    lemma_amount_order(num(0), x);
    lemma_bounded_product(v, n, 64real, n);
    let k = lemma_nearest(x);
    let y = x.round();
    let kr = k as real;
    assert(0real <= kr <= 128real * n);
    lemma_near_self(y, 128real * n);
    assert((128real * n) / n == 128real && 0real * n == 0real) by (nonlinear_arith)
        requires
            n >= 1real,
    ;
    lemma_near_div(y, kr, 0real, 128real * n, h, n, 0real, n, n, 0real);
    let (q, z) = (y / h, kr / n);
    assert(z * n == kr) by (nonlinear_arith)
        requires
            z == kr / n,
            n >= 1real,
    ;
    lemma_ordered(q, least);
    lemma_finite_number(q);
    let (e, qa) = (q.amount() - z, q.amount());
    lemma_bounded_product(e, n, 384real / 8388608real, n);
    assert(e * n == qa * n - kr) by (nonlinear_arith)
        requires
            e == qa - z,
            z * n == kr,
    ;
    if kr >= n / 500real {
        assert(z >= 1real / 500real) by (nonlinear_arith)
            requires
                z * n == kr,
                kr >= n / 500real,
                n >= 1real,
        ;
    }
    k
}

/// A frame is as long after resampling as before over the ratio, cut off to a whole number of
/// samples, but never longer than the ring.
pub proof fn law_stretched(fft_size: usize, ratio: Single, output_len: usize)
    requires
        1 <= fft_size <= 0x1_0000,
        ratio.is_finite(),
        1real / 4096real <= ratio.amount() <= 4096real,
    ensures
        ({
            let (n, r) = (stretched(fft_size, ratio, output_len), ratio.amount());
            let size = fft_size as real;
            let slack = size / 1000000real;
            &&& n <= output_len
            &&& n as real * r <= size + slack
            &&& n < output_len ==> (n as real + 1real) * r > size - slack
        }),
{
    lemma_numbers();
    lemma_constants();
    lemma_count(fft_size);
    let a = Single::from_usize(fft_size);
    let (size, r) = (fft_size as real, ratio.amount());
    lemma_near_self(a, size);
    lemma_near_self(ratio, r);
    let q = size / r;
    assert(q * r == size && 1real / 4096real <= q <= 268435456real && 0real * r == 0real)
        by (nonlinear_arith)
        requires
            q == size / r,
            1real / 4096real <= r <= 4096real,
            1real <= size <= 65536real,
    ;
    lemma_near_div(a, size, 0real, size, ratio, r, 0real, r, r, 0real);
    let x = a / ratio;
    let k = lemma_whole_part(x);
    lemma_slot(x, k);
    let (kr, xa) = (k as real, x.amount());
    let xr = xa * r;
    assert(-(3real * size) <= 8388608real * (xr - size) <= 3real * size) by (nonlinear_arith)
        requires
            -(3real * q) <= 8388608real * (xa - q) <= 3real * q,
            xr == xa * r,
            q * r == size,
            r > 0real,
    ;
    let n = stretched(fft_size, ratio, output_len) as real;
    assert(n * r <= kr * r && kr * r <= xr && (kr + 1real) * r > xr) by (nonlinear_arith)
        requires
            n <= kr,
            kr <= xa < kr + 1real,
            xr == xa * r,
            r > 0real,
    ;
}


/// The window that a frame of the pitch shift is taken with, put on twice, is the window itself.
pub proof fn law_rooted_twice(window: Seq<Single>, i: int)
    requires
        0 <= i < window.len(),
        window[i].is_finite(),
        0real <= window[i].amount(),
    ensures
        pitchshift::rooted(window).len() == window.len(),
        ({
            let (w, r) = (window[i].amount(), pitchshift::rooted(window)[i]);
            &&& r.is_finite()
            &&& r.amount() >= 0real
            &&& -w <= 8388608real * (r.amount() * r.amount() - w) <= w
        }),
{
    lemma_numbers();
    lemma_constants();
    lemma_amount_order(num(0), window[i]);
    lemma_root(window[i]);
}

} // verus!
