//! The block of audio that an effect works on.
use crate::float::single::Single;
use vstd::prelude::*;

verus! {

/// One block: for every channel the samples that came in and those that go out.
pub struct AudioBuffer {
    pub input: Vec<Vec<Single>>,
    pub output: Vec<Vec<Single>>,
    pub samples: usize,
}

impl AudioBuffer {
    /// Every channel has the same number of samples on both sides.
    pub open spec fn wf(self) -> bool {
        &&& self.input@.len() == self.output@.len()
        &&& forall|ch: int|
            0 <= ch < self.input@.len() ==> (#[trigger] self.input@[ch])@.len() == self.samples
        &&& forall|ch: int|
            0 <= ch < self.output@.len() ==> (#[trigger] self.output@[ch])@.len() == self.samples
    }

    /// The samples that came in on a channel.
    pub open spec fn incoming(self, ch: int) -> Seq<Single> {
        self.input@[ch]@
    }

    /// Whether `self` is `before` with new samples going out on the first `active` channels and
    /// nothing else changed.
    pub open spec fn rewritten(self, before: AudioBuffer, active: int) -> bool {
        &&& self.wf()
        &&& self.input == before.input
        &&& self.samples == before.samples
        &&& self.output@.len() == before.output@.len()
        &&& forall|ch: int|
            active <= ch < self.output@.len() ==> #[trigger] self.output@[ch] == before.output@[ch]
    }

    /// The number of channels.
    pub fn channels(&self) -> (r: usize)
        ensures
            r == self.input@.len(),
    {
        self.input.len()
    }

    /// The number of samples of every channel.
    pub fn num_samples(&self) -> (r: usize)
        ensures
            r == self.samples,
    {
        self.samples
    }
}

pub open spec fn lesser_spec(a: usize, b: usize) -> usize {
    if a < b { a } else { b }
}

/// The lesser of two counts.
#[verifier::when_used_as_spec(lesser_spec)]
pub fn lesser(a: usize, b: usize) -> (r: usize)
    ensures
        r == lesser_spec(a, b),
{
    if a < b { a } else { b }
}

/// `len` samples of silence.
pub fn silence(len: usize) -> (r: Vec<Single>)
    ensures
        r@ == silent(len as nat),
{
    let mut r: Vec<Single> = Vec::new();
    let mut i: usize = 0;
    while i < len
        invariant
            i <= len,
            r@ == silent(i as nat),
        decreases len - i,
    {
        r.push(Single { bits: 0 });
        i = i + 1;
    }
    r
}

/// `len` zeros.
pub open spec fn silent(len: nat) -> Seq<Single> {
    Seq::new(len, |i: int| Single { bits: 0 })
}

/// `lanes` lines of silence.
pub fn silent_lines(lanes: usize, len: usize) -> (r: Vec<Vec<Single>>)
    ensures
        r@.len() == lanes,
        forall|k: int| 0 <= k < lanes ==> (#[trigger] r@[k])@ == silent(len as nat),
{
    let mut r: Vec<Vec<Single>> = Vec::new();
    let mut i: usize = 0;
    while i < lanes
        invariant
            i <= lanes,
            r@.len() == i,
            forall|k: int| 0 <= k < i ==> (#[trigger] r@[k])@ == silent(len as nat),
        decreases lanes - i,
    {
        r.push(silence(len));
        i = i + 1;
    }
    r
}

/// Puts a sample in its place.
pub fn put(line: &mut Vec<Single>, i: usize, x: Single)
    requires
        i < old(line)@.len(),
    ensures
        final(line)@ == old(line)@.update(i as int, x),
        final(line)@.len() == old(line)@.len(),
        final(line)@.take(i + 1) == old(line)@.take(i as int).push(x),
{
    line[i] = x;
}

/// Sends a channel out as it came in.
pub fn copy(input: &Vec<Single>, out: &mut Vec<Single>)
    requires
        old(out)@.len() == input@.len(),
    ensures
        final(out)@ == input@,
{
    let n = input.len();
    let mut i: usize = 0;
    while i < n
        invariant
            i <= n,
            n == input@.len(),
            out@.len() == n,
            out@.take(i as int) == input@.take(i as int),
        decreases n - i,
    {
        put(out, i, input[i]);
        i = i + 1;
    }
    assert(out@.take(n as int) == out@);
    assert(input@.take(n as int) == input@);
}

/// Sends a channel out with a gain for every sample.
pub fn amplify(input: &Vec<Single>, gains: &Vec<Single>, out: &mut Vec<Single>)
    requires
        old(out)@.len() == input@.len(),
        gains@.len() >= input@.len(),
    ensures
        final(out)@ == Seq::new(input@.len(), |i: int| input@[i] * gains@[i]),
{
    let n = input.len();
    let mut i: usize = 0;
    while i < n
        invariant
            i <= n,
            n == input@.len(),
            gains@.len() >= n,
            out@.len() == n,
            out@.take(i as int) == Seq::new(i as nat, |k: int| input@[k] * gains@[k]),
        decreases n - i,
    {
        put(out, i, input[i] * gains[i]);
        i = i + 1;
    }
    assert(out@.take(n as int) == out@);
}

/// Whether `part` holds, for `n` entries, what `whole` holds from entry `i` on.
pub open spec fn resumes<T>(part: Seq<T>, whole: Seq<T>, i: nat, n: nat) -> bool {
    &&& part.len() >= n
    &&& forall|k: int| 0 <= k < n ==> #[trigger] part[k] == whole[i + k]
}

} // verus!
