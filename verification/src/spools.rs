//! What goes through the rings of the effects on spectra: which frames are taken, what a sample
//! that goes out is made of, and how the controls set the frames.
use crate::{pitchshift, robotization};
use crate::delay::lemma_apart;
use crate::float::double::Double;
use crate::float::facts::{lemma_constant, lemma_constants};
use crate::float::near::{lemma_near_mul, lemma_near_self, lemma_ratio, near};
use crate::float::single::{num, Single};
use crate::pitchshift::{PhaseVocoder, Phases};
use crate::ring::{ahead, lemma_ahead_next, lemma_ahead_none, lemma_ahead_twice};
use crate::robotization::Stft;
use crate::spectral::{bartlett, frame, law_one_frame_per_hop, rectangle, ring_fed, HopRatio, Spool};
use crate::transforms::law_overlap_adds;
use vstd::arithmetic::div_mod::{
    lemma_fundamental_div_mod, lemma_fundamental_div_mod_converse, lemma_mod_multiples_vanish,
};
use vstd::arithmetic::power2::lemma2_to64;
use vstd::prelude::*;

verus! {

/// What the first `h` pieces come to at time `t`, the first one starting after one hop, the next
/// one a hop later, and so on.
pub open spec fn gathered(pieces: Seq<Seq<Single>>, hop: int, t: int, h: nat) -> Single
    decreases h,
{
    if h == 0 {
        num(0)
    } else {
        let before = gathered(pieces, hop, t, (h - 1) as nat);
        let j = t - h * hop;
        if 0 <= j < pieces[h - 1].len() {
            before + pieces[h - 1][j]
        } else {
            before
        }
    }
}

/// Pieces that are over by a time come to nothing there.
proof fn lemma_over(pieces: Seq<Seq<Single>>, hop: int, t: int, h: nat, len: int)
    requires
        hop > 0,
        h <= pieces.len(),
        forall|k: int| 0 <= k < h ==> (#[trigger] pieces[k]).len() <= len,
        t >= h * hop + len,
    ensures
        gathered(pieces, hop, t, h) == num(0),
    decreases h,
{
    if h > 0 {
        let k = (h - 1) as nat;
        assert(k * hop + hop == h * hop) by (nonlinear_arith)
            requires
                k == h - 1,
        ;
        lemma_over(pieces, hop, t, k, len);
        assert(pieces[h - 1].len() <= len);
    }
}

/// Where the next piece is added.
proof fn lemma_written(spool: Spool, i: nat)
    requires
        spool.wf(),
    ensures
        spool.after(i).output_write == ahead(
            spool.output_write,
            spool.hops(i) * (spool.hop as nat),
            spool.out_len,
        ),
    decreases i,
{
    if i == 0 {
        lemma_ahead_none(spool.output_write, spool.out_len);
        assert(0 * (spool.hop as nat) == 0) by (nonlinear_arith);
    } else {
        let k = (i - 1) as nat;
        lemma_written(spool, k);
        spool.lemma_after(k);
        let (h, hop) = (spool.hops(k), spool.hop as nat);
        assert((h + 1) * hop == h * hop + hop) by (nonlinear_arith);
        lemma_ahead_twice(spool.output_write, h * hop, hop, spool.out_len);
    }
}

/// What the ring that goes out holds for a time to come: all pieces that have been added for that
/// time, and nothing that is from before it went out last.
proof fn lemma_ring_gathers(
    spool: Spool,
    ring: Seq<Single>,
    pieces: Seq<Seq<Single>>,
    i: nat,
    t: nat,
)
    requires
        spool.wf(),
        spool.count == 0,
        spool.output_write == ahead(spool.output_read, spool.hop as nat, spool.out_len),
        ring == Seq::new(spool.out_len as nat, |k: int| num(0)),
        spool.hops(i) <= pieces.len(),
        forall|k: int| 0 <= k < pieces.len() ==> (#[trigger] pieces[k]).len() <= spool.out_len,
        i <= t < i + spool.out_len,
    ensures
        spool.ring_after(ring, pieces, i).len() == spool.out_len,
        spool.ring_after(ring, pieces, i)[ahead(spool.output_read, t, spool.out_len)] == gathered(
            pieces,
            spool.hop as int,
            t as int,
            spool.hops(i),
        ),
    decreases i,
{
    let (read, len, hop) = (spool.output_read, spool.out_len, spool.hop as int);
    lemma_ahead_next(read, t, len);
    if i > 0 {
        let k = (i - 1) as nat;
        spool.lemma_hops_grow(k, i);
        spool.lemma_after(k);
        law_one_frame_per_hop(spool, k);
        lemma_fundamental_div_mod(k as int, hop);
        let h = spool.hops(k);
        lemma_ring_gathers(spool, ring, pieces, k, k);
        let old = spool.ring_after(ring, pieces, k);
        let now = spool.after(k);
        lemma_ahead_next(read, k, len);
        let taken = old.update(now.output_read as int, num(0));
        let slot = ahead(read, t, len);
        assert(h * hop == hop * h) by (nonlinear_arith);
        if t < k + len {
            lemma_ring_gathers(spool, ring, pieces, k, t);
            lemma_apart(read, k, t, len);
        } else {
            lemma_mod_multiples_vanish(1, read + k, len as int);
            assert(len as int * 1 + (read + k) == read + t);
            assert(h * hop <= k);
            lemma_over(pieces, hop, t as int, h, len as int);
        }
        assert(taken[slot] == gathered(pieces, hop, t as int, h));
        if now.due() {
            lemma_written(spool, k);
            let piece = pieces[h as int];
            assert((h + 1) * hop == h * hop + hop) by (nonlinear_arith);
            assert(i == (h + 1) * hop);
            assert(h * (spool.hop as nat) == h * hop);
            lemma_ahead_twice(read, hop as nat, (h * hop) as nat, len);
            assert(now.output_write == ahead(read, i, len));
            let j = (t - i) as nat;
            lemma_ahead_twice(read, i, j, len);
            assert(piece.len() <= len);
            law_overlap_adds(taken, now.output_write, piece, piece.len(), j);
        }
    }
}

/// What goes out after a reset: at every time all pieces that reach over it, added up, the first of
/// which starts after one hop and each next one a hop later.
pub proof fn law_pieces_overlap(
    spool: Spool,
    ring: Seq<Single>,
    pieces: Seq<Seq<Single>>,
    n: nat,
    t: nat,
)
    requires
        spool.wf(),
        spool.count == 0,
        spool.output_write == ahead(spool.output_read, spool.hop as nat, spool.out_len),
        ring == Seq::new(spool.out_len as nat, |k: int| num(0)),
        t < n,
        spool.hops(n) <= pieces.len(),
        forall|k: int| 0 <= k < pieces.len() ==> (#[trigger] pieces[k]).len() <= spool.out_len,
    ensures
        spool.played(ring, pieces, n).len() == n,
        spool.played(ring, pieces, n)[t as int] == gathered(
            pieces,
            spool.hop as int,
            t as int,
            (t / (spool.hop as nat)) as nat,
        ),
{
    spool.lemma_hops_grow(t, n);
    spool.lemma_after(t);
    law_one_frame_per_hop(spool, t);
    lemma_ring_gathers(spool, ring, pieces, t, t);
}

/// Which frames are taken: at every hop one, of what the ring holds with the sample in it, from the
/// oldest sample on.
pub proof fn law_frames_taken(
    spool: Spool,
    ring: Seq<Single>,
    window: Seq<Single>,
    input: Seq<Single>,
    i: nat,
)
    requires
        spool.wf(),
        spool.count < spool.hop,
    ensures
        spool.frames(ring, window, input, 0).len() == 0,
        ({
            let (was, now) = (
                spool.frames(ring, window, input, i),
                spool.frames(ring, window, input, i + 1),
            );
            let fed = ring_fed(ring, spool.input_write, input, i + 1);
            let oldest = ahead(spool.input_write, i + 1, spool.in_len) as usize;
            &&& (spool.count + i + 1) % (spool.hop as int) == 0 ==> now == was.push(
                frame(fed, oldest, window),
            )
            &&& (spool.count + i + 1) % (spool.hop as int) != 0 ==> now == was
        }),
{
    law_one_frame_per_hop(spool, i);
    spool.lemma_after(i);
    assert((i + 1 - 1) as nat == i);
    let (hop, c) = (spool.hop as int, spool.count + i);
    let (q, r) = (c / hop, c % hop);
    lemma_fundamental_div_mod(c as int, hop);
    if r + 1 == hop {
        assert(c + 1 == (q + 1) * hop + 0) by (nonlinear_arith)
            requires
                c == hop * q + r,
                r + 1 == hop,
        ;
        lemma_fundamental_div_mod_converse(c + 1, hop, q + 1, 0);
    } else {
        assert(c + 1 == q * hop + (r + 1)) by (nonlinear_arith)
            requires
                c == hop * q + r,
        ;
        lemma_fundamental_div_mod_converse(c + 1, hop, q, r + 1);
    }
}

/// The lengths of frames and how far one is from the next: each size is the number in its name, and
/// a half, a quarter or an eighth of it is a hop.
pub proof fn law_frame_sizes()
    ensures
        robotization::FftSize::S32.samples() == 32,
        robotization::FftSize::S64.samples() == 64,
        robotization::FftSize::S128.samples() == 128,
        robotization::FftSize::S256.samples() == 256,
        robotization::FftSize::S512.samples() == 512,
        robotization::FftSize::S1024.samples() == 1024,
        robotization::FftSize::S2048.samples() == 2048,
        robotization::FftSize::S4096.samples() == 4096,
        pitchshift::FftSize::S256.samples() == 256,
        pitchshift::FftSize::S512.samples() == 512,
        pitchshift::FftSize::S1024.samples() == 1024,
        pitchshift::FftSize::S2048.samples() == 2048,
        pitchshift::FftSize::S4096.samples() == 4096,
        HopRatio::Half.overlap() == 2,
        HopRatio::Quarter.overlap() == 4,
        HopRatio::Eighth.overlap() == 8,
{
}

/// The angle of a bin for a number drawn: that part of a turn.
pub proof fn law_whisper_angle(draw: Single)
    requires
        draw.is_finite() && 0real <= draw.amount() <= 1real,
    ensures
        near(
            robotization::whisper_angle(draw),
            62831853real / 10000000real * draw.amount(),
            4real,
            8real,
        ),
{
    lemma_constants();
    lemma2_to64();
    lemma_constant(0x40c9_0fdb, 0x20_0000, 0xc9_0fdb);
    let turn = num(0x40c9_0fdb);
    lemma_ratio(turn, 0x20_0000, 0xc9_0fdb);
    let e = 62831853real / 10000000real;
    lemma_near_self(turn, 8real);
    assert(near(turn, e, 1real, 8real));
    lemma_near_self(draw, 1real);
    lemma_near_mul(turn, e, 1real, 8real, draw, draw.amount(), 0real, 1real);
}

/// The phases of a channel over the hops of a block: they go on from where they were or, where they
/// are flushed, from zero; at every hop the phases measured there are kept, and those that go out
/// go on from the last ones.
pub proof fn law_phases_go_on(
    pv: PhaseVocoder,
    ratio: Single,
    flush: bool,
    phases: Phases,
    measured: Seq<Seq<Single>>,
    h: nat,
    k: int,
)
    requires
        0 <= k <= pv.fft_size / 2,
    ensures
        pv.phases_after(ratio, flush, phases, measured, 0) == phases,
        ({
            let was = pv.phases_after(ratio, flush, phases, measured, h);
            let now = pv.phases_after(ratio, flush, phases, measured, h + 1);
            let flushed = h == 0 && flush;
            let last = (
                if flushed { num(0) } else { was.input[k] },
                if flushed { num(0) } else { was.output[k] },
            );
            &&& now.input.len() == pv.fft_size / 2 + 1
            &&& now.output.len() == pv.fft_size / 2 + 1
            &&& now.input[k] == measured[h as int][k]
            &&& now.output[k] == pitchshift::next_phase(
                measured[h as int][k],
                last.0,
                last.1,
                pv.omega@[k] * Single::from_usize(pv.hop_size),
                ratio,
            )
        }),
        pv.flushes(false) == pv.need_phase_reset,
        !pv.flushes(true),
{
    assert((h + 1 - 1) as nat == h);
}


/// As many hops as frames overlap make up a frame, and what comes back from the spectrum of a pitch
/// shift has two frames' room.
pub proof fn law_hops_tile(stft: Stft, pv: PhaseVocoder)
    requires
        stft.wf(),
        pv.wf(),
        stft.overlap > 0 && stft.fft_size % stft.overlap == 0,
        pv.overlap > 0 && pv.fft_size % pv.overlap == 0,
    ensures
        stft.hop_size * stft.overlap == stft.fft_size,
        pv.hop_size * pv.overlap == pv.fft_size,
        pv.spool().hop == pv.hop_size || pv.hop_size == 0,
        stft.spool().hop == stft.hop_size || stft.hop_size == 0,
        pv.spool().in_len == pv.fft_size,
        pv.spool().out_len == 2 * pv.fft_size,
        stft.spool().in_len == stft.fft_size,
        stft.spool().out_len == stft.fft_size,
{
    let (n, d, size, over) = (
        stft.fft_size as int,
        stft.overlap as int,
        pv.fft_size as int,
        pv.overlap as int,
    );
    lemma_fundamental_div_mod(n, d);
    lemma_fundamental_div_mod(size, over);
    assert(d * (n / d) == (n / d) * d && over * (size / over) == (size / over) * over)
        by (nonlinear_arith);
}

/// The ratio and the length of a resampled frame are those of the hop, for the vocoder as for the
/// controls that lead to it; every bin up to the middle one has its own advance.
pub proof fn law_vocoder_settings(
    pv: PhaseVocoder,
    params: pitchshift::PitchShiftParams,
    raw_factor: Single,
    k: int,
)
    requires
        pv.wf(),
        pv.hop_size > 0,
        0 <= k <= pv.fft_size / 2,
    ensures
        pv.ratio(raw_factor) == pitchshift::snapped_ratio(raw_factor, pv.hop_size),
        pv.resampled_len(raw_factor) == pitchshift::stretched(
            pv.fft_size,
            pv.ratio(raw_factor),
            pv.output_len,
        ),
        pv.omega@.len() == pv.fft_size / 2 + 1,
        pv.omega@[k] == pitchshift::omega_at(k as usize, pv.fft_size),
        pv.fft_size == params.fft_size.samples() && pv.overlap == params.hop.overlap()
            ==> pitchshift::target_len(params, raw_factor) == pv.resampled_len(raw_factor),
{
}

/// Which window is made: the one asked for, and of those made of coefficients the coefficients
/// themselves in the 32-bit format.
pub proof fn law_windows_chosen(len: usize, hann: Seq<u64>, hamming: Seq<u64>, i: int)
    requires
        0 <= i < len,
        hann.len() == len,
        hamming.len() == len,
    ensures
        ({
            let made = |w: robotization::WindowType| robotization::chosen(w, len, hann, hamming);
            let shaped = |w: pitchshift::WindowType| pitchshift::chosen(w, len, hann, hamming);
            &&& made(robotization::WindowType::Rectangular) == rectangle(len as nat)
            &&& made(robotization::WindowType::Bartlett) == bartlett(len)
            &&& made(robotization::WindowType::Hann).len() == len
            &&& made(robotization::WindowType::Hann)[i] == (Double { bits: hann[i] }).narrow()
            &&& made(robotization::WindowType::Hamming).len() == len
            &&& made(robotization::WindowType::Hamming)[i] == (Double {
                bits: hamming[i],
            }).narrow()
            &&& shaped(pitchshift::WindowType::Bartlett) == bartlett(len)
            &&& shaped(pitchshift::WindowType::Hann).len() == len
            &&& shaped(pitchshift::WindowType::Hann)[i] == (Double { bits: hann[i] }).narrow()
            &&& shaped(pitchshift::WindowType::Hamming).len() == len
            &&& shaped(pitchshift::WindowType::Hamming)[i] == (Double {
                bits: hamming[i],
            }).narrow()
        }),
{
}

} // verus!
