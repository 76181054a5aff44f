//! Delay with feedback and mix, on a circular line.
use crate::audio::{lesser, put, resumes, silent, silent_lines, AudioBuffer};
use crate::float::double::Double;
use crate::float::facts::{lemma_constants, lemma_mul, lemma_plus_zero, unit};
use crate::float::single::{num, Single};
use crate::modulation::{law_linear_starts_at_first, linear};
use crate::ring::{
    advance, ahead, behind, jump, law_position_on_ring, law_whole_delay, lemma_ahead_next,
    lemma_ahead_none, lemma_ahead_twice, EXACT_LINE, MAX_LINE,
};
use vstd::arithmetic::div_mod::{lemma_fundamental_div_mod, lemma_mod_multiples_vanish};
use vstd::prelude::*;

verus! {

/// The longest delay, 5 seconds.
pub const MAX_DELAY_SECS: u32 = 0x40a0_0000;

/// The sample rate before the first reset, 44100.
pub const DEFAULT_RATE: u32 = 0x472c_4400;

/// What the controls say over one block. The lists hold one value per sample.
pub struct DelayParams {
    pub delay_time: Vec<Single>,
    pub feedback: Vec<Single>,
    pub mix: Vec<Single>,
}

impl DelayParams {
    /// Every list reaches over `n` samples.
    pub open spec fn covers(self, n: int) -> bool {
        &&& self.delay_time@.len() >= n
        &&& self.feedback@.len() >= n
        &&& self.mix@.len() >= n
    }
}

/// The effect; its state is a `DelayDsp`.
pub struct Delay;

pub struct DelayDsp {
    pub sample_rate: Single,
    pub buffer: Vec<Vec<Single>>,
    pub buffer_len: usize,
    pub write_pos: usize,
}

impl Default for DelayDsp {
    fn default() -> (r: DelayDsp)
        ensures
            r.wf(),
            r.sample_rate == num(DEFAULT_RATE),
            r.buffer@.len() == 0,
            r.buffer_len == 1,
            r.write_pos == 0,
    {
        DelayDsp {
            sample_rate: num(DEFAULT_RATE),
            buffer: Vec::new(),
            buffer_len: 1,
            write_pos: 0,
        }
    }
}

impl DelayDsp {
    pub open spec fn wf(self) -> bool {
        &&& self.write_pos < self.buffer_len <= MAX_LINE
        &&& self.buffer@.len() <= 2
        &&& forall|ch: int|
            0 <= ch < self.buffer@.len() ==> (#[trigger] self.buffer@[ch])@.len()
                == self.buffer_len
    }

    /// How many channels of a block are worked on.
    pub open spec fn active(self, buffer: AudioBuffer) -> int {
        lesser(buffer.input@.len() as usize, self.buffer@.len() as usize) as int
    }

    /// The head of the lines that sample `i` of a block is written at.
    pub open spec fn head(self) -> Head {
        Head { sample_rate: self.sample_rate, len: self.buffer_len, write: self.write_pos }
    }
}

/// The length that a reset gives the delay lines.
pub open spec fn line_length(sample_rate: Double) -> int {
    (num(MAX_DELAY_SECS) * sample_rate.narrow()).to_usize() + 1
}

/// Where a delay stands: the place it writes at next on lines of `len` slots.
#[derive(Clone, Copy, PartialEq, Eq, Structural)]
pub struct Head {
    pub sample_rate: Single,
    pub len: usize,
    pub write: usize,
}

impl Head {
    pub open spec fn wf(self) -> bool {
        self.write < self.len <= MAX_LINE
    }

    /// The slot that sample `i` of a block is written to.
    pub open spec fn write_at(self, i: nat) -> usize {
        ahead(self.write, i, self.len) as usize
    }

    /// The position that sample `i` of a block is read from, with the delay in seconds.
    pub open spec fn position_at(self, seconds: Single, i: nat) -> Single {
        behind(self.write_at(i), seconds * self.sample_rate, self.len)
    }
}

/// The line read between its slots at a position.
pub open spec fn read_linear(line: Seq<Single>, position: Single) -> Single {
    let r0 = position.floor().to_usize() as int;
    linear(line[r0], line[(r0 + 1) % (line.len() as int)], position - position.floor())
}

/// The line read between its slots at a position.
pub fn sample_linear(line: &Vec<Single>, position: Single) -> (r: Single)
    requires
        position.floor().to_usize() < line@.len() <= MAX_LINE,
    ensures
        r == read_linear(line@, position),
{
    let below = position.floor();
    let r0 = below.to_usize();
    linear(line[r0], line[(r0 + 1) % line.len()], position - below)
}

/// A line after `i` samples. Where the position is in the slot being written there is no delay:
/// the sample goes in alone. Elsewhere the delayed one is fed back into it.
pub open spec fn line_after(
    head: Head,
    params: DelayParams,
    line: Seq<Single>,
    input: Seq<Single>,
    i: nat,
) -> Seq<Single>
    decreases i,
{
    if i == 0 {
        line
    } else {
        let k = (i - 1) as nat;
        let before = line_after(head, params, line, input, k);
        let position = head.position_at(params.delay_time@[k as int], k);
        let x = input[k as int];
        let stored = if position.floor().to_usize() == head.write_at(k) {
            x
        } else {
            x + read_linear(before, position) * params.feedback@[k as int]
        };
        before.update(head.write_at(k) as int, stored)
    }
}

/// The first `n` samples that go out on a channel: dry where there is no delay, else between the
/// dry and the delayed sample as far as the mix says.
pub open spec fn rendered(
    head: Head,
    params: DelayParams,
    line: Seq<Single>,
    input: Seq<Single>,
    n: nat,
) -> Seq<Single> {
    Seq::new(
        n,
        |i: int|
            {
                let position = head.position_at(params.delay_time@[i], i as nat);
                if position.floor().to_usize() == head.write_at(i as nat) {
                    input[i]
                } else {
                    linear(
                        input[i],
                        read_linear(line_after(head, params, line, input, i as nat), position),
                        params.mix@[i],
                    )
                }
            },
    )
}

/// Works on one channel: takes the line through the block and writes what goes out.
fn render(head: Head, params: &DelayParams, line: &mut Vec<Single>, input: &Vec<Single>,
    out: &mut Vec<Single>,
)
    requires
        old(out)@.len() == input@.len(),
        head.wf(),
        old(line)@.len() == head.len,
        params.covers(input@.len() as int),
    ensures
        final(line)@.len() == head.len,
        final(line)@ == line_after(head, *params, old(line)@, input@, input@.len()),
        final(out)@ == rendered(head, *params, old(line)@, input@, input@.len()),
{
    let ghost first = line@;
    let n = input.len();
    let mut write: usize = head.write;
    proof {
        lemma_ahead_none(head.write, head.len);
    }
    let mut i: usize = 0;
    while i < n
        invariant
            i <= n,
            n == input@.len(),
            head.wf(),
            params.covers(n as int),
            write == head.write_at(i as nat),
            write < head.len,
            line@.len() == head.len,
            line@ == line_after(head, *params, first, input@, i as nat),
            out@.len() == n,
            out@.take(i as int) == rendered(head, *params, first, input@, i as nat),
        decreases n - i,
    {
        let position = behind(write, params.delay_time[i] * head.sample_rate, head.len);
        proof {
            assert(position == head.position_at(params.delay_time@[i as int], i as nat));
            lemma_ahead_next(head.write, i as nat, head.len);
            law_position_on_ring(write, params.delay_time@[i as int] * head.sample_rate, head.len);
        }
        let x = input[i];
        if position.floor().to_usize() == write {
            put(out, i, x);
            line[write] = x;
        } else {
            let delayed = sample_linear(line, position);
            put(out, i, linear(x, delayed, params.mix[i]));
            line[write] = x + delayed * params.feedback[i];
        }
        write = advance(write, head.len);
        i = i + 1;
    }
    assert(out@.take(n as int) == out@);
}

impl Delay {
    /// Silences two lines of the length that the sample rate asks for, and starts over.
    pub fn reset(state: &mut DelayDsp, sample_rate: Double)
        requires
            line_length(sample_rate) <= MAX_LINE,
        ensures
            final(state).wf(),
            final(state).sample_rate == sample_rate.narrow(),
            final(state).buffer_len == line_length(sample_rate),
            final(state).buffer@.len() == 2,
            forall|ch: int|
                0 <= ch < 2 ==> (#[trigger] final(state).buffer@[ch])@ == silent(
                    line_length(sample_rate) as nat,
                ),
            final(state).write_pos == 0,
    {
        let sr = sample_rate.narrow();
        state.sample_rate = sr;
        state.buffer_len = (num(MAX_DELAY_SECS) * sr).to_usize() + 1;
        state.buffer = silent_lines(2, state.buffer_len);
        state.write_pos = 0;
    }

    /// Works on one block.
    pub fn process(state: &mut DelayDsp, params: &DelayParams, buffer: &mut AudioBuffer)
        requires
            old(state).wf(),
            old(buffer).wf(),
            params.covers(old(buffer).samples as int),
        ensures
            final(state).wf(),
            final(state).sample_rate == old(state).sample_rate,
            final(state).buffer_len == old(state).buffer_len,
            final(state).write_pos == ahead(
                old(state).write_pos,
                old(buffer).samples as nat,
                old(state).buffer_len,
            ),
            final(state).buffer@.len() == old(state).buffer@.len(),
            forall|ch: int|
                0 <= ch < old(state).active(*old(buffer)) ==> (
                #[trigger] final(state).buffer@[ch])@ == line_after(
                    old(state).head(),
                    *params,
                    old(state).buffer@[ch]@,
                    old(buffer).incoming(ch),
                    old(buffer).samples as nat,
                ),
            forall|ch: int|
                old(state).active(*old(buffer)) <= ch < old(state).buffer@.len()
                    ==> #[trigger] final(state).buffer@[ch] == old(state).buffer@[ch],
            final(buffer).rewritten(*old(buffer), old(state).active(*old(buffer))),
            forall|ch: int|
                0 <= ch < old(state).active(*old(buffer)) ==> (
                #[trigger] final(buffer).output@[ch])@ == rendered(
                    old(state).head(),
                    *params,
                    old(state).buffer@[ch]@,
                    old(buffer).incoming(ch),
                    old(buffer).samples as nat,
                ),
    {
        let num_ch = lesser(buffer.channels(), state.buffer.len());
        let n = buffer.num_samples();
        let head = Head {
            sample_rate: state.sample_rate,
            len: state.buffer_len,
            write: state.write_pos,
        };
        let ghost start = *state;
        let ghost before = *buffer;
        let mut ch: usize = 0;
        while ch < num_ch
            invariant
                num_ch == start.active(before),
                ch <= num_ch,
                n == before.samples,
                start.wf(),
                before.wf(),
                params.covers(n as int),
                head == start.head(),
                state.head() == start.head(),
                state.wf(),
                state.buffer@.len() == start.buffer@.len(),
                forall|c: int|
                    0 <= c < ch ==> (#[trigger] state.buffer@[c])@ == line_after(
                        head,
                        *params,
                        start.buffer@[c]@,
                        before.incoming(c),
                        n as nat,
                    ),
                forall|c: int|
                    ch <= c < start.buffer@.len() ==> #[trigger] state.buffer@[c]
                        == start.buffer@[c],
                buffer.rewritten(before, ch as int),
                forall|c: int|
                    0 <= c < ch ==> (#[trigger] buffer.output@[c])@ == rendered(
                        head,
                        *params,
                        start.buffer@[c]@,
                        before.incoming(c),
                        n as nat,
                    ),
            decreases num_ch - ch,
        {
            render(head, params, &mut state.buffer[ch], &buffer.input[ch], &mut buffer.output[ch]);
            ch = ch + 1;
        }
        state.write_pos = jump(state.write_pos, n, state.buffer_len);
    }
}

/// What a sample stores stays in its slot until as many samples have come as the line has slots.
pub proof fn law_slot_kept(
    head: Head,
    params: DelayParams,
    line: Seq<Single>,
    input: Seq<Single>,
    k: nat,
    i: nat,
)
    requires
        head.wf(),
        line.len() == head.len,
        k < i <= k + head.len,
    ensures
        line_after(head, params, line, input, i).len() == head.len,
        line_after(head, params, line, input, i)[head.write_at(k) as int] == line_after(
            head,
            params,
            line,
            input,
            k + 1,
        )[head.write_at(k) as int],
    decreases i,
{
    lemma_ahead_next(head.write, k, head.len);
    lemma_line_len(head, params, line, input, i);
    if i > k + 1 {
        let j = (i - 1) as nat;
        law_slot_kept(head, params, line, input, k, j);
        lemma_ahead_next(head.write, j, head.len);
        lemma_apart(head.write, k, j, head.len);
        lemma_line_len(head, params, line, input, j);
    }
}

proof fn lemma_line_len(
    head: Head,
    params: DelayParams,
    line: Seq<Single>,
    input: Seq<Single>,
    i: nat,
)
    requires
        head.wf(),
        line.len() == head.len,
    ensures
        line_after(head, params, line, input, i).len() == line.len(),
    decreases i,
{
    if i > 0 {
        lemma_ahead_next(head.write, (i - 1) as nat, head.len);
        lemma_line_len(head, params, line, input, (i - 1) as nat);
    }
}

/// Less than a whole turn apart, two places on a ring differ.
pub proof fn lemma_apart(pos: usize, k: nat, j: nat, len: usize)
    requires
        k < j < k + len,
    ensures
        ahead(pos, k, len) != ahead(pos, j, len),
{
    let n = len as int;
    let (a, b) = (pos + k, pos + j);
    if a % n == b % n {
        lemma_fundamental_div_mod(a as int, n);
        lemma_fundamental_div_mod(b as int, n);
        let (qa, qb) = (a as int / n, b as int / n);
        assert(false) by (nonlinear_arith)
            requires
                b - a == n * qb - n * qa,
                0 < b - a < n,
        ;
    }
}

/// A delay of a whole number of samples brings back what was stored so many samples ago.
pub proof fn law_echo(
    head: Head,
    params: DelayParams,
    line: Seq<Single>,
    input: Seq<Single>,
    i: nat,
    whole: usize,
)
    requires
        head.wf(),
        head.len <= EXACT_LINE,
        line.len() == head.len,
        0 < whole < head.len,
        whole <= i,
        (params.delay_time@[i as int] * head.sample_rate).is_finite(),
        (params.delay_time@[i as int] * head.sample_rate).value() == whole * unit(),
        ({
            let now = line_after(head, params, line, input, i);
            let at = head.write_at((i - whole) as nat) as int;
            now[at].is_finite() && (now[(at + 1) % (head.len as int)] - now[at]).is_finite()
        }),
    ensures
        read_linear(
            line_after(head, params, line, input, i),
            head.position_at(params.delay_time@[i as int], i),
        ).value() == line_after(head, params, line, input, (i - whole + 1) as nat)[head.write_at(
            (i - whole) as nat,
        ) as int].value(),
        head.position_at(params.delay_time@[i as int], i).floor().to_usize() != head.write_at(i),
{
    let k = (i - whole) as nat;
    let write = head.write_at(i);
    let len = head.len as int;
    let delay = params.delay_time@[i as int] * head.sample_rate;
    lemma_ahead_next(head.write, i, head.len);
    lemma_ahead_next(head.write, k, head.len);
    law_whole_delay(write, delay, whole, head.len);
    lemma_line_len(head, params, line, input, i);
    law_slot_kept(head, params, line, input, k, i);
    lemma_apart(head.write, k, i, head.len);
    // The slot so many before the one written is the one that was written so many samples ago.
    assert((write + len - whole) % len == head.write_at(k)) by {
        let base = (head.write + k) as int;
        lemma_fundamental_div_mod(base + whole, len);
        lemma_mod_multiples_vanish(
            1 - (base + whole) / len,
            base,
            len,
        );
        assert(len * (1 - (base + whole) / len) + base == write + len - whole)
            by (nonlinear_arith)
            requires
                base + whole == len * ((base + whole) / len) + write,
        ;
    }
    let now = line_after(head, params, line, input, i);
    let at = head.write_at(k) as int;
    let position = head.position_at(params.delay_time@[i as int], i);
    law_linear_starts_at_first(
        now[at],
        now[(at + 1) % len],
        position - position.floor(),
    );
}

/// Without feedback a sample stores the input.
pub proof fn law_stores_input(x: Single, delayed: Single, feedback: Single)
    requires
        x.is_finite(),
        delayed.is_finite(),
        feedback.is_finite(),
        feedback.value() == 0,
    ensures
        (x + delayed * feedback).is_finite(),
        (x + delayed * feedback).value() == x.value(),
{
    lemma_constants();
    let u = unit();
    let v = delayed.value();
    assert(v * 0 == 0 && 0 * u == 0) by (nonlinear_arith);
    lemma_mul(delayed, feedback, num(0), num(0));
    lemma_plus_zero(x, delayed * feedback);
}

impl DelayParams {
    /// Whether these are the controls that `whole` holds from sample `i` on, for `n` samples.
    pub open spec fn resumes(self, whole: DelayParams, i: nat, n: nat) -> bool {
        &&& resumes(self.delay_time@, whole.delay_time@, i, n)
        &&& resumes(self.feedback@, whole.feedback@, i, n)
        &&& resumes(self.mix@, whole.mix@, i, n)
    }
}

impl Head {
    /// Where the delay stands `i` samples into a block.
    pub open spec fn after(self, i: nat) -> Head {
        Head { write: self.write_at(i), ..self }
    }

    /// Two blocks lead where one block of both leads.
    pub proof fn lemma_joins(self, i: nat, k: nat)
        requires
            self.wf(),
        ensures
            self.after(i).wf(),
            self.after(i).write_at(k) == self.write_at(i + k),
            forall|seconds: Single|
                #[trigger] self.after(i).position_at(seconds, k) == self.position_at(
                    seconds,
                    i + k,
                ),
    {
        lemma_ahead_twice(self.write, i, k, self.len);
    }
}

/// What one block leaves on a line, its two parts leave one after the other.
pub proof fn law_line_joins(
    head: Head,
    whole: DelayParams,
    part: DelayParams,
    line: Seq<Single>,
    input: Seq<Single>,
    part_input: Seq<Single>,
    i: nat,
    j: nat,
)
    requires
        head.wf(),
        part.resumes(whole, i, j),
        resumes(part_input, input, i, j),
    ensures
        line_after(head, whole, line, input, i + j) == line_after(
            head.after(i),
            part,
            line_after(head, whole, line, input, i),
            part_input,
            j,
        ),
    decreases j,
{
    if j > 0 {
        let k = (j - 1) as nat;
        assert((i + j - 1) as nat == i + k);
        law_line_joins(head, whole, part, line, input, part_input, i, k);
        head.lemma_joins(i, k);
        assert(part_input[k as int] == input[(i + k) as int]);
        assert(part.delay_time@[k as int] == whole.delay_time@[(i + k) as int]);
        assert(part.feedback@[k as int] == whole.feedback@[(i + k) as int]);
    }
}

/// What goes out in one block goes out in its two parts, one after the other.
pub proof fn law_output_joins(
    head: Head,
    whole: DelayParams,
    part: DelayParams,
    line: Seq<Single>,
    input: Seq<Single>,
    part_input: Seq<Single>,
    i: nat,
    j: nat,
)
    requires
        head.wf(),
        part.resumes(whole, i, j),
        resumes(part_input, input, i, j),
    ensures
        rendered(head, whole, line, input, i + j) == rendered(head, whole, line, input, i)
            + rendered(
            head.after(i),
            part,
            line_after(head, whole, line, input, i),
            part_input,
            j,
        ),
{
    let first = rendered(head, whole, line, input, i);
    let second = rendered(
        head.after(i),
        part,
        line_after(head, whole, line, input, i),
        part_input,
        j,
    );
    let all = rendered(head, whole, line, input, i + j);
    assert forall|m: int| 0 <= m < i + j implies #[trigger] all[m] == (first + second)[m] by {
        if m >= i {
            let k = (m - i) as nat;
            assert(m as nat == i + k);
            law_line_joins(head, whole, part, line, input, part_input, i, k);
            head.lemma_joins(i, k);
            assert(part_input[k as int] == input[(i + k) as int]);
            assert(part.delay_time@[k as int] == whole.delay_time@[(i + k) as int]);
            assert(part.mix@[k as int] == whole.mix@[(i + k) as int]);
        }
    }
    assert(all =~= first + second);
}

} // verus!
