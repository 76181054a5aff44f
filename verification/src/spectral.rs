//! What the effects that work on spectra share: windows, the rings that frames are taken from and
//! put back into, and the pace at which that happens.
use crate::audio::{put, silent};
use crate::float::double::Double;
use crate::float::single::{num, Single};
use crate::modulation::{ONE, TWO};
use crate::ring::{
    advance, ahead, jump, lemma_ahead_next, lemma_ahead_none, lemma_ahead_twice, MAX_LINE,
};
use vstd::arithmetic::div_mod::{
    lemma_basic_div, lemma_fundamental_div_mod, lemma_fundamental_div_mod_converse, lemma_small_mod,
};
use vstd::prelude::*;

verus! {

/// The hop as a part of the frame. Half a frame is cheaper and more audibly granular, an eighth
/// sounds smoothest.
#[derive(Clone, Copy, PartialEq, Eq, Structural, Debug)]
pub enum HopRatio {
    Half,
    Quarter,
    Eighth,
}

impl HopRatio {
    pub open spec fn overlap_spec(self) -> usize {
        match self {
            HopRatio::Half => 2,
            HopRatio::Quarter => 4,
            HopRatio::Eighth => 8,
        }
    }

    /// How many frames overlap at every sample.
    #[verifier::when_used_as_spec(overlap_spec)]
    pub fn overlap(self) -> (r: usize)
        ensures
            r == self.overlap_spec(),
            2 <= r <= 8,
    {
        match self {
            HopRatio::Half => 2,
            HopRatio::Quarter => 4,
            HopRatio::Eighth => 8,
        }
    }
}

/// One bin of a spectrum.
#[derive(Clone, Copy, PartialEq, Eq, Structural, Debug)]
pub struct Bin {
    pub re: Single,
    pub im: Single,
}

impl Bin {
    pub open spec fn magnitude_spec(self) -> Single {
        (self.re * self.re + self.im * self.im).sqrt()
    }

    /// The distance from zero.
    #[verifier::when_used_as_spec(magnitude_spec)]
    pub fn magnitude(self) -> (r: Single)
        ensures
            r == self.magnitude_spec(),
    {
        (self.re * self.re + self.im * self.im).sqrt()
    }

    /// The bin of the same magnitude in the direction with the given sine and cosine.
    pub open spec fn turned_spec(self, sine: Single, cosine: Single) -> Bin {
        Bin { re: self.magnitude_spec() * cosine, im: self.magnitude_spec() * sine }
    }

    /// The bin of the same magnitude in the direction with the given sine and cosine.
    #[verifier::when_used_as_spec(turned_spec)]
    pub fn turned(self, sine: Single, cosine: Single) -> (r: Bin)
        ensures
            r == self.turned_spec(sine, cosine),
    {
        let mag = self.magnitude();
        Bin { re: mag * cosine, im: mag * sine }
    }
}

/// The coefficients of `apodize::hanning_iter`, as encodings of 64-bit numbers: one for every
/// index below `len`. It panics where `len` is not above 1. Each coefficient comes from the
/// machine's cosine, whose last digits are not fixed, so nothing is said of the values.
#[verifier::external_body]
pub(crate) fn hanning(len: usize) -> (r: Vec<u64>)
    requires
        1 < len,
    ensures
        r@.len() == len,
{
    apodize::hanning_iter(len).map(|v| v.to_bits()).collect()
}

/// The coefficients of `apodize::hamming_iter`, as encodings of 64-bit numbers: one for every
/// index below `len`. It panics where `len` is not above 1. Each coefficient comes from the
/// machine's cosine, whose last digits are not fixed, so nothing is said of the values.
#[verifier::external_body]
pub(crate) fn hamming(len: usize) -> (r: Vec<u64>)
    requires
        1 < len,
    ensures
        r@.len() == len,
{
    apodize::hamming_iter(len).map(|v| v.to_bits()).collect()
}

/// Coefficients in the 32-bit format.
pub open spec fn narrowed(coefficients: Seq<u64>) -> Seq<Single> {
    coefficients.map_values(|c: u64| (Double { bits: c }).narrow())
}

/// Takes coefficients over into the 32-bit format.
pub fn narrow_all(coefficients: &Vec<u64>) -> (r: Vec<Single>)
    ensures
        r@ == narrowed(coefficients@),
{
    let n = coefficients.len();
    let mut r: Vec<Single> = Vec::new();
    let mut i: usize = 0;
    while i < n
        invariant
            i <= n,
            n == coefficients@.len(),
            r@ == narrowed(coefficients@.take(i as int)),
        decreases n - i,
    {
        r.push((Double { bits: coefficients[i] }).narrow());
        assert(coefficients@.take(i + 1) == coefficients@.take(i as int).push(
            coefficients@[i as int],
        ));
        i = i + 1;
    }
    assert(coefficients@.take(n as int) == coefficients@);
    r
}

/// Whether `w` holds coefficients in the 32-bit format, one for every index below `len`.
pub open spec fn smooth(len: usize, w: Seq<Single>) -> bool {
    exists|coefficients: Seq<u64>| coefficients.len() == len && w == #[trigger] narrowed(
        coefficients,
    )
}

/// The window that is 1 throughout.
pub open spec fn rectangle(len: nat) -> Seq<Single> {
    Seq::new(len, |i: int| num(ONE))
}

/// The window that is 1 throughout.
pub fn rectangle_window(len: usize) -> (r: Vec<Single>)
    ensures
        r@ == rectangle(len as nat),
{
    let mut r: Vec<Single> = Vec::new();
    let mut i: usize = 0;
    while i < len
        invariant
            i <= len,
            r@ == rectangle(i as nat),
        decreases len - i,
    {
        r.push(num(ONE));
        i = i + 1;
    }
    r
}

pub open spec fn bartlett_at_spec(i: usize, len: usize) -> Single {
    num(ONE) - (num(TWO) * Single::from_usize(i) / Single::from_usize((len - 1) as usize) - num(
        ONE,
    )).abs()
}

/// Sample `i` of a triangular window.
#[verifier::when_used_as_spec(bartlett_at_spec)]
pub fn bartlett_at(i: usize, len: usize) -> (r: Single)
    requires
        0 < len,
    ensures
        r == bartlett_at_spec(i, len),
{
    num(ONE) - (num(TWO) * Single::from_usize(i) / Single::from_usize(len - 1) - num(ONE)).abs()
}

/// The window that rises and falls in straight lines.
pub open spec fn bartlett(len: usize) -> Seq<Single> {
    Seq::new(len as nat, |i: int| bartlett_at(i as usize, len))
}

/// The window that rises and falls in straight lines.
pub fn bartlett_window(len: usize) -> (r: Vec<Single>)
    requires
        0 < len,
    ensures
        r@ == bartlett(len),
{
    let mut r: Vec<Single> = Vec::new();
    let mut i: usize = 0;
    while i < len
        invariant
            i <= len,
            0 < len,
            r@ == Seq::new(i as nat, |k: int| bartlett_at(k as usize, len)),
        decreases len - i,
    {
        r.push(bartlett_at(i, len));
        i = i + 1;
    }
    r
}

/// The sum of the first `n` samples of a window.
pub open spec fn window_sum(window: Seq<Single>, n: nat) -> Single
    decreases n,
{
    if n == 0 { num(0) } else { window_sum(window, (n - 1) as nat) + window[n - 1] }
}

/// The gain that makes up for a window: its length over the overlap and over its sum, and none
/// where that sum is zero.
pub open spec fn scale_of(window: Seq<Single>, overlap: usize) -> Single {
    let sum = window_sum(window, window.len());
    if overlap == 0 || sum.is_zero() {
        num(0)
    } else {
        Single::from_usize(window.len() as usize) / Single::from_usize(overlap) / sum
    }
}

/// The gain that makes up for a window.
pub fn window_scale(window: &Vec<Single>, overlap: usize) -> (r: Single)
    ensures
        r == scale_of(window@, overlap),
{
    let n = window.len();
    let mut sum = num(0);
    let mut i: usize = 0;
    while i < n
        invariant
            i <= n,
            n == window@.len(),
            sum == window_sum(window@, i as nat),
        decreases n - i,
    {
        sum = sum + window[i];
        i = i + 1;
    }
    if overlap == 0 || sum.is_zero() {
        num(0)
    } else {
        Single::from_usize(n) / Single::from_usize(overlap) / sum
    }
}

/// The ring with the first `i` samples of `input` written from `pos` on.
pub open spec fn ring_fed(ring: Seq<Single>, pos: usize, input: Seq<Single>, i: nat) -> Seq<Single>
    decreases i,
{
    if i == 0 {
        ring
    } else {
        ring_fed(ring, pos, input, (i - 1) as nat).update(
            ahead(pos, (i - 1) as nat, ring.len() as usize),
            input[i - 1],
        )
    }
}

/// The samples of a ring from `pos` on, each times its sample of the window.
pub open spec fn frame(ring: Seq<Single>, pos: usize, window: Seq<Single>) -> Seq<Single> {
    Seq::new(
        window.len(),
        |i: int| window[i] * ring[ahead(pos, i as nat, ring.len() as usize)],
    )
}

/// Takes a frame off a ring.
pub fn take_frame(ring: &Vec<Single>, pos: usize, window: &Vec<Single>) -> (r: Vec<Single>)
    requires
        pos < ring@.len() <= MAX_LINE,
    ensures
        r@ == frame(ring@, pos, window@),
{
    let n = window.len();
    let len = ring.len();
    let mut idx = pos;
    let mut r: Vec<Single> = Vec::new();
    proof {
        lemma_ahead_none(pos, len);
    }
    let mut i: usize = 0;
    while i < n
        invariant
            i <= n,
            n == window@.len(),
            len == ring@.len(),
            pos < len <= MAX_LINE,
            idx < len,
            idx == ahead(pos, i as nat, len),
            r@ == Seq::new(
                i as nat,
                |k: int| window@[k] * ring@[ahead(pos, k as nat, len)],
            ),
        decreases n - i,
    {
        r.push(window[i] * ring[idx]);
        proof {
            lemma_ahead_next(pos, i as nat, len);
        }
        idx = advance(idx, len);
        i = i + 1;
    }
    r
}

/// The ring with the first `j` samples of `piece` added from `pos` on.
pub open spec fn overlapped(
    ring: Seq<Single>,
    pos: usize,
    piece: Seq<Single>,
    j: nat,
) -> Seq<Single>
    decreases j,
{
    if j == 0 {
        ring
    } else {
        let before = overlapped(ring, pos, piece, (j - 1) as nat);
        let k = ahead(pos, (j - 1) as nat, ring.len() as usize);
        before.update(k, before[k] + piece[j - 1])
    }
}

/// What the frames of a block add onto a ring, sample by sample.
pub trait Pieces {
    /// The samples of every piece.
    spec fn contents(&self) -> Seq<Seq<Single>>;

    /// Whether there is a sample to be had at every place.
    spec fn wf(&self) -> bool;

    /// How long a piece is.
    fn length(&self, h: usize) -> (r: usize)
        requires
            self.wf(),
            h < self.contents().len(),
        ensures
            r == self.contents()[h as int].len(),
    ;

    /// One sample of a piece.
    fn sample(&self, h: usize, j: usize) -> (r: Single)
        requires
            self.wf(),
            h < self.contents().len(),
            j < self.contents()[h as int].len(),
        ensures
            r == self.contents()[h as int][j as int],
    ;
}

/// Adds a piece onto a ring.
pub fn overlap_add<P: Pieces>(ring: &mut Vec<Single>, pos: usize, pieces: &P, h: usize)
    requires
        pos < old(ring)@.len() <= MAX_LINE,
        pieces.wf(),
        h < pieces.contents().len(),
    ensures
        final(ring)@.len() == old(ring)@.len(),
        final(ring)@ == overlapped(
            old(ring)@,
            pos,
            pieces.contents()[h as int],
            pieces.contents()[h as int].len(),
        ),
{
    let ghost start = ring@;
    let ghost piece = pieces.contents()[h as int];
    let n = pieces.length(h);
    let len = ring.len();
    let mut idx = pos;
    proof {
        lemma_ahead_none(pos, len);
    }
    let mut j: usize = 0;
    while j < n
        invariant
            j <= n,
            n == piece.len(),
            pieces.wf(),
            h < pieces.contents().len(),
            piece == pieces.contents()[h as int],
            len == ring@.len(),
            len == start.len(),
            pos < len <= MAX_LINE,
            idx < len,
            idx == ahead(pos, j as nat, len),
            ring@ == overlapped(start, pos, piece, j as nat),
        decreases n - j,
    {
        let sum = ring[idx] + pieces.sample(h, j);
        ring[idx] = sum;
        proof {
            lemma_ahead_next(pos, j as nat, len);
        }
        idx = advance(idx, len);
        j = j + 1;
    }
}

/// Where a channel stands on its rings, and how many samples have come in since the last frame.
#[derive(Clone, Copy, PartialEq, Eq, Structural)]
pub struct Spool {
    pub in_len: usize,
    pub out_len: usize,
    pub hop: usize,
    pub input_write: usize,
    pub output_write: usize,
    pub output_read: usize,
    pub count: usize,
}

impl Spool {
    pub open spec fn wf(self) -> bool {
        &&& self.input_write < self.in_len <= MAX_LINE
        &&& self.output_write < self.out_len <= MAX_LINE
        &&& self.output_read < self.out_len
        &&& 0 < self.hop <= self.in_len
        &&& self.hop <= self.out_len
        &&& self.count <= self.in_len
    }

    /// Whether the next sample completes a hop.
    pub open spec fn due_spec(self) -> bool {
        self.count + 1 >= self.hop
    }

    /// Whether the next sample completes a hop.
    #[verifier::when_used_as_spec(due_spec)]
    pub fn due(self) -> (r: bool)
        requires
            self.count < usize::MAX,
        ensures
            r == self.due_spec(),
    {
        self.count + 1 >= self.hop
    }

    /// One sample on: a place on each ring, and a hop on the written one where that is due.
    pub open spec fn ticked(self) -> Spool {
        Spool {
            input_write: ahead(self.input_write, 1, self.in_len) as usize,
            output_read: ahead(self.output_read, 1, self.out_len) as usize,
            output_write: if self.due() {
                ahead(self.output_write, self.hop as nat, self.out_len) as usize
            } else {
                self.output_write
            },
            count: if self.due() { 0 } else { (self.count + 1) as usize },
            ..self
        }
    }

    /// Where the channel stands after `i` samples.
    pub open spec fn after(self, i: nat) -> Spool
        decreases i,
    {
        if i == 0 { self } else { self.after((i - 1) as nat).ticked() }
    }

    /// How many hops the first `i` samples complete.
    pub open spec fn hops(self, i: nat) -> nat
        decreases i,
    {
        if i == 0 {
            0
        } else {
            let k = (i - 1) as nat;
            self.hops(k) + if self.after(k).due() { 1nat } else { 0nat }
        }
    }

    /// The frames that the first `i` samples complete.
    pub open spec fn frames(
        self,
        ring: Seq<Single>,
        window: Seq<Single>,
        input: Seq<Single>,
        i: nat,
    ) -> Seq<Seq<Single>>
        decreases i,
    {
        if i == 0 {
            Seq::empty()
        } else {
            let k = (i - 1) as nat;
            let before = self.frames(ring, window, input, k);
            if self.after(k).due() {
                before.push(
                    frame(
                        ring_fed(ring, self.input_write, input, i),
                        ahead(self.input_write, i, self.in_len) as usize,
                        window,
                    ),
                )
            } else {
                before
            }
        }
    }

    /// The ring that goes out after `i` samples: each one is taken off and leaves silence, and
    /// each hop adds its piece.
    pub open spec fn ring_after(
        self,
        ring: Seq<Single>,
        pieces: Seq<Seq<Single>>,
        i: nat,
    ) -> Seq<Single>
        decreases i,
    {
        if i == 0 {
            ring
        } else {
            let k = (i - 1) as nat;
            let now = self.after(k);
            let taken = self.ring_after(ring, pieces, k).update(now.output_read as int, num(0));
            if now.due() {
                let piece = pieces[self.hops(k) as int];
                overlapped(taken, now.output_write, piece, piece.len())
            } else {
                taken
            }
        }
    }

    /// The first `n` samples that go out.
    pub open spec fn played(
        self,
        ring: Seq<Single>,
        pieces: Seq<Seq<Single>>,
        n: nat,
    ) -> Seq<Single> {
        Seq::new(
            n,
            |i: int|
                self.ring_after(ring, pieces, i as nat)[self.after(i as nat).output_read as int],
        )
    }

    /// A tick keeps the places on their rings.
    pub proof fn lemma_ticked(self)
        requires
            self.wf(),
        ensures
            self.ticked().wf(),
    {
        lemma_ahead_next(self.input_write, 1, self.in_len);
        lemma_ahead_next(self.output_read, 1, self.out_len);
        lemma_ahead_next(self.output_write, self.hop as nat, self.out_len);
    }

    /// A block keeps the places on their rings.
    pub proof fn lemma_after(self, i: nat)
        requires
            self.wf(),
        ensures
            self.after(i).wf(),
            self.after(i).in_len == self.in_len,
            self.after(i).out_len == self.out_len,
            self.after(i).hop == self.hop,
            self.after(i).input_write == ahead(self.input_write, i, self.in_len),
            self.after(i).output_read == ahead(self.output_read, i, self.out_len),
            self.hops(i) <= i,
        decreases i,
    {
        if i == 0 {
            lemma_ahead_none(self.input_write, self.in_len);
            lemma_ahead_none(self.output_read, self.out_len);
        } else {
            let k = (i - 1) as nat;
            self.lemma_after(k);
            self.after(k).lemma_ticked();
            lemma_ahead_next(self.input_write, k, self.in_len);
            lemma_ahead_next(self.output_read, k, self.out_len);
        }
    }

    /// No block completes fewer hops by being longer.
    pub proof fn lemma_hops_grow(self, i: nat, j: nat)
        requires
            i <= j,
        ensures
            self.hops(i) <= self.hops(j),
        decreases j,
    {
        if i < j {
            self.lemma_hops_grow(i, (j - 1) as nat);
        }
    }

    /// One sample on.
    pub fn tick(&mut self)
        requires
            old(self).wf(),
        ensures
            final(self).wf(),
            *final(self) == old(self).ticked(),
    {
        proof {
            self.lemma_ticked();
        }
        let due = self.due();
        self.input_write = advance(self.input_write, self.in_len);
        self.output_read = advance(self.output_read, self.out_len);
        if due {
            self.output_write = jump(self.output_write, self.hop, self.out_len);
            self.count = 0;
        } else {
            self.count = self.count + 1;
        }
    }

    /// `n` samples on.
    pub fn run(&mut self, n: usize)
        requires
            old(self).wf(),
        ensures
            final(self).wf(),
            *final(self) == old(self).after(n as nat),
    {
        let ghost start = *self;
        let mut i: usize = 0;
        while i < n
            invariant
                i <= n,
                self.wf(),
                *self == start.after(i as nat),
            decreases n - i,
        {
            self.tick();
            i = i + 1;
        }
    }

    /// How many hops `n` samples complete.
    pub fn count_hops(self, n: usize) -> (r: usize)
        requires
            self.wf(),
        ensures
            r == self.hops(n as nat),
    {
        let mut now = self;
        let mut r: usize = 0;
        let mut i: usize = 0;
        while i < n
            invariant
                i <= n,
                now.wf(),
                now == self.after(i as nat),
                r == self.hops(i as nat),
                r <= i,
            decreases n - i,
        {
            if now.due() {
                r = r + 1;
            }
            now.tick();
            i = i + 1;
        }
        r
    }

    /// The frames that a block completes on a channel.
    pub fn collect_frames(
        self,
        ring: &Vec<Single>,
        window: &Vec<Single>,
        input: &Vec<Single>,
    ) -> (r: Vec<Vec<Single>>)
        requires
            self.wf(),
            ring@.len() == self.in_len,
        ensures
            r@.len() == self.hops(input@.len()),
            views(r@) == self.frames(ring@, window@, input@, input@.len()),
    {
        let n = input.len();
        let mut now = self;
        let mut fed: Vec<Single> = copied(ring);
        let mut r: Vec<Vec<Single>> = Vec::new();
        let mut i: usize = 0;
        assert(views(r@) == self.frames(ring@, window@, input@, 0));
        while i < n
            invariant
                i <= n,
                n == input@.len(),
                self.wf(),
                now.wf(),
                ring@.len() == self.in_len,
                fed@.len() == self.in_len,
                now == self.after(i as nat),
                fed@ == ring_fed(ring@, self.input_write, input@, i as nat),
                r@.len() == self.hops(i as nat),
                views(r@) == self.frames(ring@, window@, input@, i as nat),
            decreases n - i,
        {
            proof {
                self.lemma_after(i as nat);
                self.lemma_after((i + 1) as nat);
            }
            let due = now.due();
            fed[now.input_write] = input[i];
            now.tick();
            if due {
                let taken = take_frame(&fed, now.input_write, window);
                let ghost before = r@;
                r.push(taken);
                assert(views(r@) == views(before).push(taken@));
            }
            i = i + 1;
        }
        r
    }

    /// Takes a channel through a block: the ring that comes in is written, the ring that goes out
    /// is played, and each hop adds its piece.
    pub fn play<P: Pieces>(
        self,
        in_ring: &mut Vec<Single>,
        out_ring: &mut Vec<Single>,
        pieces: &P,
        input: &Vec<Single>,
        out: &mut Vec<Single>,
    )
        requires
            old(out)@.len() == input@.len(),
            self.wf(),
            old(in_ring)@.len() == self.in_len,
            old(out_ring)@.len() == self.out_len,
            pieces.wf(),
            pieces.contents().len() >= self.hops(input@.len()),
        ensures
            final(in_ring)@.len() == self.in_len,
            final(out_ring)@.len() == self.out_len,
            final(in_ring)@ == ring_fed(
                old(in_ring)@,
                self.input_write,
                input@,
                input@.len(),
            ),
            final(out_ring)@ == self.ring_after(old(out_ring)@, pieces.contents(), input@.len()),
            final(out)@ == self.played(old(out_ring)@, pieces.contents(), input@.len()),
    {
        let ghost ins = in_ring@;
        let ghost outs = out_ring@;
        let n = input.len();
        let mut now = self;
        let mut h: usize = 0;
        let mut i: usize = 0;
        while i < n
            invariant
                i <= n,
                n == input@.len(),
                self.wf(),
                now.wf(),
                now.in_len == self.in_len,
                now.out_len == self.out_len,
                in_ring@.len() == self.in_len,
                out_ring@.len() == self.out_len,
                ins.len() == self.in_len,
                outs.len() == self.out_len,
                pieces.wf(),
                pieces.contents().len() >= self.hops(n as nat),
                now == self.after(i as nat),
                h == self.hops(i as nat),
                h <= i,
                in_ring@ == ring_fed(ins, self.input_write, input@, i as nat),
                out_ring@ == self.ring_after(outs, pieces.contents(), i as nat),
                out@.len() == n,
                out@.take(i as int) == self.played(outs, pieces.contents(), i as nat),
            decreases n - i,
        {
            proof {
                self.lemma_after(i as nat);
                self.lemma_after((i + 1) as nat);
                self.lemma_hops_grow((i + 1) as nat, n as nat);
            }
            let here = now;
            in_ring[here.input_write] = input[i];
            let sample = out_ring[here.output_read];
            out_ring[here.output_read] = num(0);
            put(out, i, sample);
            if here.due() {
                overlap_add(out_ring, here.output_write, pieces, h);
                h = h + 1;
            }
            now.tick();
            i = i + 1;
        }
        assert(out@.take(n as int) == out@);
    }
}

/// The contents of a list of lists.
pub open spec fn views(lists: Seq<Vec<Single>>) -> Seq<Seq<Single>> {
    lists.map_values(|list: Vec<Single>| list@)
}

/// A copy of a line.
pub fn copied(line: &Vec<Single>) -> (r: Vec<Single>)
    ensures
        r@ == line@,
{
    let n = line.len();
    let mut r: Vec<Single> = Vec::new();
    let mut i: usize = 0;
    while i < n
        invariant
            i <= n,
            n == line@.len(),
            r@ == line@.take(i as int),
        decreases n - i,
    {
        r.push(line[i]);
        i = i + 1;
    }
    assert(line@.take(n as int) == line@);
    r
}

/// From within a hop on, frames come at every `hop`-th sample.
pub proof fn law_one_frame_per_hop(spool: Spool, i: nat)
    requires
        spool.wf(),
        spool.count < spool.hop,
    ensures
        spool.after(i).count == (spool.count + i) % (spool.hop as int),
        spool.hops(i) == (spool.count + i) / (spool.hop as int),
    decreases i,
{
    let hop = spool.hop as int;
    let c = spool.count as int;
    if i == 0 {
        lemma_small_mod(c as nat, hop as nat);
        lemma_basic_div(c, hop);
    } else {
        let k = (i - 1) as nat;
        law_one_frame_per_hop(spool, k);
        spool.lemma_after(k);
        let q = (c + k) / hop;
        let r = (c + k) % hop;
        lemma_fundamental_div_mod(c + k, hop);
        if r + 1 == hop {
            assert(c + i == (q + 1) * hop + 0) by (nonlinear_arith)
                requires
                    c + k == hop * q + r,
                    r + 1 == hop,
                    i == k + 1,
            ;
            lemma_fundamental_div_mod_converse(c + i, hop, q + 1, 0);
        } else {
            assert(c + i == q * hop + (r + 1)) by (nonlinear_arith)
                requires
                    c + k == hop * q + r,
                    i == k + 1,
            ;
            lemma_fundamental_div_mod_converse(c + i, hop, q, r + 1);
        }
    }
}

/// As long as no hop is complete, a silent ring stays silent.
proof fn lemma_silent_until_hop(
    spool: Spool,
    ring: Seq<Single>,
    pieces: Seq<Seq<Single>>,
    i: nat,
)
    requires
        spool.wf(),
        spool.count == 0,
        i < spool.hop,
        ring == silent(spool.out_len as nat),
    ensures
        spool.ring_after(ring, pieces, i) == ring,
    decreases i,
{
    if i > 0 {
        let k = (i - 1) as nat;
        lemma_silent_until_hop(spool, ring, pieces, k);
        spool.lemma_after(k);
        law_one_frame_per_hop(spool, k);
        lemma_small_mod(k, spool.hop as nat);
        assert(!spool.after(k).due());
        assert(ring.update(spool.after(k).output_read as int, num(0)) =~= ring);
    }
}

/// After a reset the first hop goes out silent, whatever comes back for its frames.
pub proof fn law_first_hop_silent(
    spool: Spool,
    ring: Seq<Single>,
    pieces: Seq<Seq<Single>>,
    n: nat,
)
    requires
        spool.wf(),
        spool.count == 0,
        n <= spool.hop,
        ring == silent(spool.out_len as nat),
    ensures
        spool.played(ring, pieces, n) == silent(n),
{
    assert forall|i: int| 0 <= i < n implies #[trigger] spool.played(ring, pieces, n)[i] == num(
        0,
    ) by {
        lemma_silent_until_hop(spool, ring, pieces, i as nat);
        spool.lemma_after(i as nat);
    }
    assert(spool.played(ring, pieces, n) =~= silent(n));
}

/// Two blocks lead where one block of both leads.
pub proof fn law_places_join(spool: Spool, i: nat, j: nat)
    ensures
        spool.after(i + j) == spool.after(i).after(j),
        spool.hops(i + j) == spool.hops(i) + spool.after(i).hops(j),
    decreases j,
{
    if j > 0 {
        law_places_join(spool, i, (j - 1) as nat);
        assert((i + j - 1) as nat == i + (j - 1) as nat);
    }
}

/// What one block leaves on the ring that goes out, two blocks leave, where the second is given
/// the pieces that are left.
pub proof fn law_ring_joins(
    spool: Spool,
    ring: Seq<Single>,
    pieces: Seq<Seq<Single>>,
    i: nat,
    j: nat,
)
    requires
        spool.hops(i + j) <= pieces.len(),
    ensures
        spool.ring_after(ring, pieces, i + j) == spool.after(i).ring_after(
            spool.ring_after(ring, pieces, i),
            pieces.skip(spool.hops(i) as int),
            j,
        ),
    decreases j,
{
    if j > 0 {
        let k = (j - 1) as nat;
        assert((i + j - 1) as nat == i + k);
        spool.lemma_hops_grow(i + k, i + j);
        law_ring_joins(spool, ring, pieces, i, k);
        law_places_join(spool, i, k);
        let now = spool.after(i + k);
        if now.due() {
            let rest = pieces.skip(spool.hops(i) as int);
            assert(rest[spool.after(i).hops(k) as int] == pieces[spool.hops(i + k) as int]);
        }
    }
}

/// What goes out in one block goes out in two.
pub proof fn law_output_joins(
    spool: Spool,
    ring: Seq<Single>,
    pieces: Seq<Seq<Single>>,
    i: nat,
    j: nat,
)
    requires
        spool.hops(i + j) <= pieces.len(),
    ensures
        spool.played(ring, pieces, i + j) == spool.played(ring, pieces, i) + spool.after(i).played(
            spool.ring_after(ring, pieces, i),
            pieces.skip(spool.hops(i) as int),
            j,
        ),
{
    let first = spool.played(ring, pieces, i);
    let second = spool.after(i).played(
        spool.ring_after(ring, pieces, i),
        pieces.skip(spool.hops(i) as int),
        j,
    );
    assert forall|k: int| 0 <= k < i + j implies #[trigger] spool.played(ring, pieces, i + j)[k]
        == (first + second)[k] by {
        if k >= i {
            let m = (k - i) as nat;
            assert(k as nat == i + m);
            spool.lemma_hops_grow(i + m, i + j);
            law_ring_joins(spool, ring, pieces, i, m);
            law_places_join(spool, i, m);
        }
    }
    assert(spool.played(ring, pieces, i + j) =~= first + second);
}

/// What one block writes on the ring that comes in, two blocks write.
pub proof fn law_input_joins(ring: Seq<Single>, pos: usize, input: Seq<Single>, i: nat, j: nat)
    requires
        pos < ring.len() <= MAX_LINE,
        i + j <= input.len(),
    ensures
        ring_fed(ring, pos, input, i).len() == ring.len(),
        ring_fed(ring, pos, input, i + j) == ring_fed(
            ring_fed(ring, pos, input, i),
            ahead(pos, i, ring.len() as usize) as usize,
            input.skip(i as int),
            j,
        ),
    decreases j,
{
    let len = ring.len() as usize;
    lemma_fed_len(ring, pos, input, i);
    if j > 0 {
        let k = (j - 1) as nat;
        assert((i + j - 1) as nat == i + k);
        law_input_joins(ring, pos, input, i, k);
        lemma_ahead_next(pos, i, len);
        lemma_ahead_twice(pos, i, k, len);
        assert(input.skip(i as int)[j - 1] == input[i + j - 1]);
    }
}

proof fn lemma_fed_len(ring: Seq<Single>, pos: usize, input: Seq<Single>, i: nat)
    requires
        pos < ring.len() <= MAX_LINE,
    ensures
        ring_fed(ring, pos, input, i).len() == ring.len(),
    decreases i,
{
    if i > 0 {
        lemma_fed_len(ring, pos, input, (i - 1) as nat);
        lemma_ahead_next(pos, (i - 1) as nat, ring.len() as usize);
    }
}

/// The frames that one block completes are those that its two parts complete.
pub proof fn law_frames_join(
    spool: Spool,
    ring: Seq<Single>,
    window: Seq<Single>,
    input: Seq<Single>,
    i: nat,
    j: nat,
)
    requires
        spool.wf(),
        ring.len() == spool.in_len,
        i + j <= input.len(),
    ensures
        spool.frames(ring, window, input, i + j) == spool.frames(ring, window, input, i)
            + spool.after(i).frames(
            ring_fed(ring, spool.input_write, input, i),
            window,
            input.skip(i as int),
            j,
        ),
    decreases j,
{
    let first = spool.frames(ring, window, input, i);
    let fed = ring_fed(ring, spool.input_write, input, i);
    let rest = input.skip(i as int);
    let then = spool.after(i);
    if j == 0 {
        assert(first + then.frames(fed, window, rest, 0) =~= first);
    } else {
        let k = (j - 1) as nat;
        assert((i + j - 1) as nat == i + k);
        law_frames_join(spool, ring, window, input, i, k);
        law_places_join(spool, i, k);
        spool.lemma_after(i);
        law_input_joins(ring, spool.input_write, input, i, j);
        lemma_ahead_twice(spool.input_write, i, j, spool.in_len);
        let before = then.frames(fed, window, rest, k);
        if then.after(k).due() {
            let last = frame(
                ring_fed(ring, spool.input_write, input, i + j),
                ahead(spool.input_write, i + j, spool.in_len) as usize,
                window,
            );
            assert((first + before).push(last) =~= first + before.push(last));
        }
    }
}

} // verus!
