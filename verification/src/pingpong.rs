//! Ping-pong delay: a stereo delay whose feedback crosses the channels, so that every repeat
//! bounces from one side to the other.
use crate::audio::{put, resumes, silence, silent, AudioBuffer};
use crate::delay::{read_linear, sample_linear, Head};
use crate::float::double::Double;
use crate::float::facts::{
    alike, lemma_abs, lemma_add_error, lemma_alike_add, lemma_alike_mul, lemma_alike_sub,
    lemma_around, lemma_constants, lemma_finite_number, lemma_mul, lemma_mul_error, lemma_negated,
    lemma_part, lemma_plus_zero, lemma_same, lemma_shrunk, lemma_sub, lemma_times_one, lemma_within,
    size, unit, within,
};
use crate::float::single::{num, Single};
use crate::modulation::{law_linear_between, lemma_way_near, linear, ONE};
use crate::ring::{
    advance, ahead, behind, jump, law_position_on_ring, lemma_ahead_next, lemma_ahead_none,
    lemma_fraction, lemma_place_finite, lemma_wrapped_finite, MAX_LINE,
};
use vstd::arithmetic::div_mod::lemma_mod_bound;
use vstd::prelude::*;

verus! {

/// The longest delay, 5 seconds.
pub const MAX_DELAY_SECS: u32 = 0x40a0_0000;

/// The sample rate before the first reset, 44100.
pub const DEFAULT_RATE: u32 = 0x472c_4400;

/// What the controls say over one block. The lists hold one value per sample. A balance of 0
/// feeds the delay from the left input alone, one of 1 from the right.
pub struct PingPongParams {
    pub balance: Vec<Single>,
    pub delay_time: Vec<Single>,
    pub feedback: Vec<Single>,
    pub mix: Vec<Single>,
}

impl PingPongParams {
    /// Every list reaches over `n` samples.
    pub open spec fn covers(self, n: int) -> bool {
        &&& self.balance@.len() >= n
        &&& self.delay_time@.len() >= n
        &&& self.feedback@.len() >= n
        &&& self.mix@.len() >= n
    }
}

/// The effect; its state is a `PingPongDsp`.
pub struct PingPong;

pub struct PingPongDsp {
    pub sample_rate: Single,
    pub line_l: Vec<Single>,
    pub line_r: Vec<Single>,
    pub buffer_len: usize,
    pub write_pos: usize,
}

impl Default for PingPongDsp {
    fn default() -> (r: PingPongDsp)
        ensures
            r.wf(),
            r.sample_rate == num(DEFAULT_RATE),
            r.line_l@.len() == 0,
            r.line_r@.len() == 0,
            r.buffer_len == 1,
            r.write_pos == 0,
    {
        PingPongDsp {
            sample_rate: num(DEFAULT_RATE),
            line_l: Vec::new(),
            line_r: Vec::new(),
            buffer_len: 1,
            write_pos: 0,
        }
    }
}

impl PingPongDsp {
    /// Both lines are as long as the ring, or there are none yet.
    pub open spec fn wf(self) -> bool {
        &&& self.head().wf()
        &&& self.line_l@.len() == self.line_r@.len()
        &&& self.line_l@.len() == self.buffer_len || (self.line_l@.len() == 0 && self.buffer_len
            == 1)
    }

    /// Where the effect stands, its lines aside.
    pub open spec fn head(self) -> Head {
        Head { sample_rate: self.sample_rate, len: self.buffer_len, write: self.write_pos }
    }
}

/// The length that a reset gives the delay lines.
pub open spec fn line_length(sample_rate: Double) -> int {
    (num(MAX_DELAY_SECS) * sample_rate.narrow()).to_usize() + 1
}

pub open spec fn left_spec(balance: Single, x: Single) -> Single {
    (num(ONE) - balance) * x
}

/// What the left input feeds into the delay.
#[verifier::when_used_as_spec(left_spec)]
pub fn left(balance: Single, x: Single) -> (r: Single)
    ensures
        r == left_spec(balance, x),
{
    (num(ONE) - balance) * x
}

pub open spec fn right_spec(balance: Single, x: Single) -> Single {
    balance * x
}

/// What the right input feeds into the delay.
#[verifier::when_used_as_spec(right_spec)]
pub fn right(balance: Single, x: Single) -> (r: Single)
    ensures
        r == right_spec(balance, x),
{
    balance * x
}

/// Whether sample `i` is not delayed at all: the position is in the slot being written.
pub open spec fn undelayed(head: Head, params: PingPongParams, i: nat) -> bool {
    head.position_at(params.delay_time@[i as int], i).floor().to_usize() == head.write_at(i)
}

/// Both lines, the left one first, after `i` samples of the two inputs. Each takes the delayed
/// sample of the other one as its feedback.
pub open spec fn lines_after(
    head: Head,
    params: PingPongParams,
    lines: (Seq<Single>, Seq<Single>),
    input: (Seq<Single>, Seq<Single>),
    i: nat,
) -> (Seq<Single>, Seq<Single>)
    decreases i,
{
    if i == 0 {
        lines
    } else {
        let k = (i - 1) as nat;
        let before = lines_after(head, params, lines, input, k);
        let position = head.position_at(params.delay_time@[k as int], k);
        let write = head.write_at(k) as int;
        let balance = params.balance@[k as int];
        let feedback = params.feedback@[k as int];
        if undelayed(head, params, k) {
            before
        } else {
            (
                before.0.update(
                    write,
                    left(balance, input.0[k as int]) + read_linear(before.1, position) * feedback,
                ),
                before.1.update(
                    write,
                    right(balance, input.1[k as int]) + read_linear(before.0, position) * feedback,
                ),
            )
        }
    }
}

/// What goes out on a side at sample `i`, with `dry` fed in on that side and `line` its line.
pub open spec fn mixed(
    head: Head,
    params: PingPongParams,
    line: Seq<Single>,
    dry: Single,
    i: nat,
) -> Single {
    if undelayed(head, params, i) {
        dry
    } else {
        let position = head.position_at(params.delay_time@[i as int], i);
        linear(dry, read_linear(line, position), params.mix@[i as int])
    }
}

/// The first `n` samples that go out on the left.
pub open spec fn rendered_left(
    head: Head,
    params: PingPongParams,
    lines: (Seq<Single>, Seq<Single>),
    input: (Seq<Single>, Seq<Single>),
    n: nat,
) -> Seq<Single> {
    Seq::new(
        n,
        |i: int|
            mixed(
                head,
                params,
                lines_after(head, params, lines, input, i as nat).0,
                left(params.balance@[i], input.0[i]),
                i as nat,
            ),
    )
}

/// The first `n` samples that go out on the right.
pub open spec fn rendered_right(
    head: Head,
    params: PingPongParams,
    lines: (Seq<Single>, Seq<Single>),
    input: (Seq<Single>, Seq<Single>),
    n: nat,
) -> Seq<Single> {
    Seq::new(
        n,
        |i: int|
            mixed(
                head,
                params,
                lines_after(head, params, lines, input, i as nat).1,
                right(params.balance@[i], input.1[i]),
                i as nat,
            ),
    )
}

/// Takes both lines through a block and writes what goes out on the left and on the right.
fn render(
    head: Head,
    params: &PingPongParams,
    line_l: &mut Vec<Single>,
    line_r: &mut Vec<Single>,
    in_l: &Vec<Single>,
    in_r: &Vec<Single>,
    out_l: &mut Vec<Single>,
    out_r: &mut Vec<Single>,
)
    requires
        old(out_l)@.len() == in_l@.len(),
        old(out_r)@.len() == in_l@.len(),
        head.wf(),
        old(line_l)@.len() == old(line_r)@.len(),
        old(line_l)@.len() == head.len || (old(line_l)@.len() == 0 && head.len == 1),
        in_l@.len() == in_r@.len(),
        params.covers(in_l@.len() as int),
    ensures
        final(line_l)@.len() == old(line_l)@.len(),
        final(line_r)@.len() == old(line_r)@.len(),
        (final(line_l)@, final(line_r)@) == lines_after(
            head,
            *params,
            (old(line_l)@, old(line_r)@),
            (in_l@, in_r@),
            in_l@.len(),
        ),
        final(out_l)@ == rendered_left(
            head,
            *params,
            (old(line_l)@, old(line_r)@),
            (in_l@, in_r@),
            in_l@.len(),
        ),
        final(out_r)@ == rendered_right(
            head,
            *params,
            (old(line_l)@, old(line_r)@),
            (in_l@, in_r@),
            in_l@.len(),
        ),
{
    let ghost lines = (line_l@, line_r@);
    let ghost input = (in_l@, in_r@);
    let n = in_l.len();
    let mut write: usize = head.write;
    proof {
        lemma_ahead_none(head.write, head.len);
    }
    let mut i: usize = 0;
    while i < n
        invariant
            i <= n,
            n == in_l@.len(),
            n == in_r@.len(),
            head.wf(),
            params.covers(n as int),
            write == head.write_at(i as nat),
            write < head.len,
            input == (in_l@, in_r@),
            line_l@.len() == lines.0.len(),
            line_r@.len() == lines.0.len(),
            lines.0.len() == head.len || (lines.0.len() == 0 && head.len == 1),
            (line_l@, line_r@) == lines_after(head, *params, lines, input, i as nat),
            out_l@.len() == n,
            out_r@.len() == n,
            out_l@.take(i as int) == rendered_left(head, *params, lines, input, i as nat),
            out_r@.take(i as int) == rendered_right(head, *params, lines, input, i as nat),
        decreases n - i,
    {
        let position = behind(write, params.delay_time[i] * head.sample_rate, head.len);
        let x_l = left(params.balance[i], in_l[i]);
        let x_r = right(params.balance[i], in_r[i]);
        proof {
            assert(position == head.position_at(params.delay_time@[i as int], i as nat));
            lemma_ahead_next(head.write, i as nat, head.len);
            law_position_on_ring(write, params.delay_time@[i as int] * head.sample_rate, head.len);
        }
        if position.floor().to_usize() == write {
            put(out_l, i, x_l);
            put(out_r, i, x_r);
        } else {
            let del_l = sample_linear(line_l, position);
            let del_r = sample_linear(line_r, position);
            put(out_l, i, linear(x_l, del_l, params.mix[i]));
            put(out_r, i, linear(x_r, del_r, params.mix[i]));
            line_l[write] = x_l + del_r * params.feedback[i];
            line_r[write] = x_r + del_l * params.feedback[i];
        }
        write = advance(write, head.len);
        i = i + 1;
    }
    assert(out_l@.take(n as int) == out_l@);
    assert(out_r@.take(n as int) == out_r@);
}

impl PingPong {
    /// Silences both lines, at the length that the sample rate asks for, and starts over.
    pub fn reset(state: &mut PingPongDsp, sample_rate: Double)
        requires
            line_length(sample_rate) <= MAX_LINE,
        ensures
            final(state).wf(),
            final(state).sample_rate == sample_rate.narrow(),
            final(state).buffer_len == line_length(sample_rate),
            final(state).line_l@ == silent(line_length(sample_rate) as nat),
            final(state).line_r@ == silent(line_length(sample_rate) as nat),
            final(state).write_pos == 0,
    {
        let sr = sample_rate.narrow();
        state.sample_rate = sr;
        state.buffer_len = (num(MAX_DELAY_SECS) * sr).to_usize() + 1;
        state.line_l = silence(state.buffer_len);
        state.line_r = silence(state.buffer_len);
        state.write_pos = 0;
    }

    /// Works on one block. Fewer than two channels are left alone.
    pub fn process(state: &mut PingPongDsp, params: &PingPongParams, buffer: &mut AudioBuffer)
        requires
            old(state).wf(),
            old(buffer).wf(),
            params.covers(old(buffer).samples as int),
        ensures
            final(state).wf(),
            old(buffer).input@.len() < 2 ==> *final(state) == *old(state) && *final(buffer)
                == *old(buffer),
            old(buffer).input@.len() >= 2 ==> {
                let head = old(state).head();
                let lines = (old(state).line_l@, old(state).line_r@);
                let input = (old(buffer).incoming(0), old(buffer).incoming(1));
                let n = old(buffer).samples as nat;
                &&& final(state).sample_rate == old(state).sample_rate
                &&& final(state).buffer_len == old(state).buffer_len
                &&& final(state).write_pos == ahead(old(state).write_pos, n, head.len)
                &&& (final(state).line_l@, final(state).line_r@) == lines_after(
                    head,
                    *params,
                    lines,
                    input,
                    n,
                )
                &&& final(buffer).rewritten(*old(buffer), 2)
                &&& final(buffer).output@[0]@ == rendered_left(head, *params, lines, input, n)
                &&& final(buffer).output@[1]@ == rendered_right(head, *params, lines, input, n)
            },
    {
        if buffer.channels() < 2 {
            return ;
        }
        let n = buffer.num_samples();
        let head = Head {
            sample_rate: state.sample_rate,
            len: state.buffer_len,
            write: state.write_pos,
        };
        let mut out_r: Vec<Single> = Vec::new();
        std::mem::swap(&mut out_r, &mut buffer.output[1]);
        render(
            head,
            params,
            &mut state.line_l,
            &mut state.line_r,
            &buffer.input[0],
            &buffer.input[1],
            &mut buffer.output[0],
            &mut out_r,
        );
        buffer.output[1] = out_r;
        state.write_pos = jump(state.write_pos, n, state.buffer_len);
    }
}

/// At balance 0 only the left input feeds the delay.
pub proof fn law_balance_left(x: Single)
    requires
        x.is_finite(),
    ensures
        left(num(0), x) == x,
        right(num(0), x).is_finite(),
        right(num(0), x).value() == 0,
{
    lemma_constants();
    lemma_finite_number(x);
    lemma_plus_zero(num(ONE), num(0));
    lemma_same(num(ONE) - num(0), num(ONE));
    lemma_times_one(x);
    lemma_nothing(num(0), x);
}

/// At balance 1 only the right input feeds the delay.
pub proof fn law_balance_right(x: Single)
    requires
        x.is_finite(),
    ensures
        right(num(ONE), x) == x,
        left(num(ONE), x).is_finite(),
        left(num(ONE), x).value() == 0,
{
    lemma_constants();
    lemma_finite_number(x);
    lemma_times_one(x);
    lemma_sub(num(ONE), num(ONE), num(0), num(0));
    lemma_nothing(num(ONE) - num(ONE), x);
}

/// Nothing of a number is nothing.
proof fn lemma_nothing(zero: Single, x: Single)
    requires
        x.is_finite(),
        zero.is_finite(),
        zero.value() == 0,
    ensures
        (zero * x).is_finite(),
        (zero * x).value() == 0,
{
    lemma_constants();
    let u = unit();
    assert(0 * x.value() == 0 && 0 * u == 0) by (nonlinear_arith);
    lemma_mul(zero, x, num(0), num(0));
}

impl PingPongParams {
    /// Whether these are the controls that `whole` holds from sample `i` on, for `n` samples.
    pub open spec fn resumes(self, whole: PingPongParams, i: nat, n: nat) -> bool {
        &&& resumes(self.balance@, whole.balance@, i, n)
        &&& resumes(self.delay_time@, whole.delay_time@, i, n)
        &&& resumes(self.feedback@, whole.feedback@, i, n)
        &&& resumes(self.mix@, whole.mix@, i, n)
    }
}

/// The controls of one sample in one block and in its second part.
proof fn lemma_sample_joins(
    head: Head,
    whole: PingPongParams,
    part: PingPongParams,
    input: (Seq<Single>, Seq<Single>),
    part_input: (Seq<Single>, Seq<Single>),
    i: nat,
    k: nat,
    n: nat,
)
    requires
        head.wf(),
        part.resumes(whole, i, n),
        resumes(part_input.0, input.0, i, n),
        resumes(part_input.1, input.1, i, n),
        k < n,
    ensures
        part.balance@[k as int] == whole.balance@[(i + k) as int],
        part.feedback@[k as int] == whole.feedback@[(i + k) as int],
        part.mix@[k as int] == whole.mix@[(i + k) as int],
        part_input.0[k as int] == input.0[(i + k) as int],
        part_input.1[k as int] == input.1[(i + k) as int],
        head.after(i).write_at(k) == head.write_at(i + k),
        head.after(i).position_at(part.delay_time@[k as int], k) == head.position_at(
            whole.delay_time@[(i + k) as int],
            i + k,
        ),
        undelayed(head.after(i), part, k) == undelayed(head, whole, i + k),
{
    head.lemma_joins(i, k);
    assert(part.delay_time@[k as int] == whole.delay_time@[(i + k) as int]);
}

/// What one block leaves on the lines, its two parts leave one after the other.
pub proof fn law_lines_join(
    head: Head,
    whole: PingPongParams,
    part: PingPongParams,
    lines: (Seq<Single>, Seq<Single>),
    input: (Seq<Single>, Seq<Single>),
    part_input: (Seq<Single>, Seq<Single>),
    i: nat,
    j: nat,
)
    requires
        head.wf(),
        part.resumes(whole, i, j),
        resumes(part_input.0, input.0, i, j),
        resumes(part_input.1, input.1, i, j),
    ensures
        lines_after(head, whole, lines, input, i + j) == lines_after(
            head.after(i),
            part,
            lines_after(head, whole, lines, input, i),
            part_input,
            j,
        ),
    decreases j,
{
    if j > 0 {
        let k = (j - 1) as nat;
        assert((i + j - 1) as nat == i + k);
        law_lines_join(head, whole, part, lines, input, part_input, i, k);
        lemma_sample_joins(head, whole, part, input, part_input, i, k, j);
    }
}

/// What goes out in one block goes out in its two parts, one after the other.
pub proof fn law_output_joins(
    head: Head,
    whole: PingPongParams,
    part: PingPongParams,
    lines: (Seq<Single>, Seq<Single>),
    input: (Seq<Single>, Seq<Single>),
    part_input: (Seq<Single>, Seq<Single>),
    i: nat,
    j: nat,
)
    requires
        head.wf(),
        part.resumes(whole, i, j),
        resumes(part_input.0, input.0, i, j),
        resumes(part_input.1, input.1, i, j),
    ensures
        ({
            let then = lines_after(head, whole, lines, input, i);
            &&& rendered_left(head, whole, lines, input, i + j) == rendered_left(
                head,
                whole,
                lines,
                input,
                i,
            ) + rendered_left(head.after(i), part, then, part_input, j)
            &&& rendered_right(head, whole, lines, input, i + j) == rendered_right(
                head,
                whole,
                lines,
                input,
                i,
            ) + rendered_right(head.after(i), part, then, part_input, j)
        }),
{
    let then = lines_after(head, whole, lines, input, i);
    let left = rendered_left(head, whole, lines, input, i) + rendered_left(
        head.after(i),
        part,
        then,
        part_input,
        j,
    );
    let right = rendered_right(head, whole, lines, input, i) + rendered_right(
        head.after(i),
        part,
        then,
        part_input,
        j,
    );
    assert forall|m: int| 0 <= m < i + j implies rendered_left(head, whole, lines, input, i + j)[m]
        == #[trigger] left[m] by {
        if m >= i {
            let k = (m - i) as nat;
            assert(m as nat == i + k);
            law_lines_join(head, whole, part, lines, input, part_input, i, k);
            lemma_sample_joins(head, whole, part, input, part_input, i, k, j);
        }
    }
    assert forall|m: int| 0 <= m < i + j implies rendered_right(head, whole, lines, input, i + j)[m]
        == #[trigger] right[m] by {
        if m >= i {
            let k = (m - i) as nat;
            assert(m as nat == i + k);
            law_lines_join(head, whole, part, lines, input, part_input, i, k);
            lemma_sample_joins(head, whole, part, input, part_input, i, k, j);
        }
    }
    assert(rendered_left(head, whole, lines, input, i + j) =~= left);
    assert(rendered_right(head, whole, lines, input, i + j) =~= right);
}

impl PingPongParams {
    /// Whether these are the controls of `other` over `n` samples, but for the balance, which is
    /// mirrored: either one is what the other leaves of 1.
    pub open spec fn mirrors(self, other: PingPongParams, n: nat) -> bool {
        &&& self.delay_time@ == other.delay_time@
        &&& self.feedback@ == other.feedback@
        &&& self.mix@ == other.mix@
        &&& forall|i: int|
            0 <= i < n ==> #[trigger] self.balance@[i] == num(ONE) - other.balance@[i] && num(ONE)
                - self.balance@[i] == other.balance@[i]
    }
}

/// Exchanging the channels and mirroring the balance exchanges the lines.
pub proof fn law_mirrored_lines(
    head: Head,
    params: PingPongParams,
    mirror: PingPongParams,
    lines: (Seq<Single>, Seq<Single>),
    input: (Seq<Single>, Seq<Single>),
    n: nat,
)
    requires
        mirror.mirrors(params, n),
    ensures
        ({
            let there = lines_after(head, params, lines, input, n);
            let here = lines_after(head, mirror, (lines.1, lines.0), (input.1, input.0), n);
            here == (there.1, there.0)
        }),
    decreases n,
{
    if n > 0 {
        let k = (n - 1) as nat;
        law_mirrored_lines(head, params, mirror, lines, input, k);
        assert(mirror.balance@[k as int] == num(ONE) - params.balance@[k as int]);
    }
}

/// Exchanging the channels and mirroring the balance exchanges what goes out.
pub proof fn law_mirrored_outputs(
    head: Head,
    params: PingPongParams,
    mirror: PingPongParams,
    lines: (Seq<Single>, Seq<Single>),
    input: (Seq<Single>, Seq<Single>),
    n: nat,
)
    requires
        mirror.mirrors(params, n),
    ensures
        rendered_left(head, mirror, (lines.1, lines.0), (input.1, input.0), n) == rendered_right(
            head,
            params,
            lines,
            input,
            n,
        ),
        rendered_right(head, mirror, (lines.1, lines.0), (input.1, input.0), n) == rendered_left(
            head,
            params,
            lines,
            input,
            n,
        ),
{
    let (other_lines, other_input) = ((lines.1, lines.0), (input.1, input.0));
    let l = rendered_left(head, mirror, other_lines, other_input, n);
    let r = rendered_right(head, mirror, other_lines, other_input, n);
    assert forall|i: int| 0 <= i < n implies l[i] == #[trigger] rendered_right(
        head,
        params,
        lines,
        input,
        n,
    )[i] by {
        law_mirrored_lines(head, params, mirror, lines, input, i as nat);
        assert(mirror.balance@[i] == num(ONE) - params.balance@[i]);
    }
    assert forall|i: int| 0 <= i < n implies r[i] == #[trigger] rendered_left(
        head,
        params,
        lines,
        input,
        n,
    )[i] by {
        law_mirrored_lines(head, params, mirror, lines, input, i as nat);
        assert(mirror.balance@[i] == num(ONE) - params.balance@[i]);
    }
    assert(l =~= rendered_right(head, params, lines, input, n));
    assert(r =~= rendered_left(head, params, lines, input, n));
}

/// A balance of whole parts of 2^24, other than 0, is mirrored exactly.
pub proof fn law_balance_mirrors(balance: Single, k: int)
    requires
        0 < k <= 0x100_0000,
        balance.is_finite(),
        balance.value() * 0x100_0000 == k * unit(),
    ensures
        num(ONE) - (num(ONE) - balance) == balance,
{
    lemma_constants();
    let left = lemma_part(0x100_0000 - k);
    let u = unit();
    assert((0x100_0000 - k) * u == 0x100_0000 * u - k * u) by (nonlinear_arith);
    lemma_sub(num(ONE), balance, left, left);
    lemma_sub(num(ONE), num(ONE) - balance, balance, balance);
    assert(k * u > 0) by (nonlinear_arith)
        requires
            k > 0,
            u > 0,
    ;
    lemma_same(num(ONE) - (num(ONE) - balance), balance);
}

/// Whether two lines hold the same, the signs of zeros aside.
pub open spec fn lines_alike(a: Seq<Single>, b: Seq<Single>) -> bool {
    a.len() == b.len() && forall|i: int| 0 <= i < a.len() ==> alike(#[trigger] a[i], b[i])
}

/// Whether both sides are fed alike at sample `i`.
spec fn fed_alike(
    params: PingPongParams,
    input: (Seq<Single>, Seq<Single>),
    other: (Seq<Single>, Seq<Single>),
    i: int,
) -> bool {
    &&& alike(left(params.balance@[i], input.0[i]), left(params.balance@[i], other.0[i]))
    &&& alike(right(params.balance@[i], input.1[i]), right(params.balance@[i], other.1[i]))
}

/// The way between samples that are alike.
proof fn lemma_alike_linear(a: Single, b: Single, c: Single, d: Single, frac: Single)
    requires
        alike(a, c),
        alike(b, d),
    ensures
        alike(linear(a, b, frac), linear(c, d, frac)),
{
    lemma_alike_sub(b, a, d, c);
    lemma_alike_mul(frac, b - a, frac, d - c);
    lemma_alike_add(a, frac * (b - a), c, frac * (d - c));
}

/// Lines that are alike are read alike.
proof fn lemma_alike_read(a: Seq<Single>, b: Seq<Single>, position: Single)
    requires
        lines_alike(a, b),
        position.floor().to_usize() < a.len() <= MAX_LINE,
    ensures
        alike(read_linear(a, position), read_linear(b, position)),
{
    let r0 = position.floor().to_usize();
    lemma_mod_bound(r0 + 1, a.len() as int);
    lemma_alike_linear(
        a[r0 as int],
        a[(r0 + 1) % (a.len() as int)],
        b[r0 as int],
        b[(r0 + 1) % (a.len() as int)],
        position - position.floor(),
    );
}

proof fn lemma_alike_lines(
    head: Head,
    params: PingPongParams,
    lines: (Seq<Single>, Seq<Single>),
    input: (Seq<Single>, Seq<Single>),
    other: (Seq<Single>, Seq<Single>),
    n: nat,
)
    requires
        head.wf(),
        lines.0.len() == head.len,
        lines.1.len() == head.len,
        forall|i: int| 0 <= i < n ==> #[trigger] fed_alike(params, input, other, i),
    ensures
        ({
            let a = lines_after(head, params, lines, input, n);
            let b = lines_after(head, params, lines, other, n);
            &&& a.0.len() == head.len
            &&& a.1.len() == head.len
            &&& lines_alike(a.0, b.0)
            &&& lines_alike(a.1, b.1)
        }),
    decreases n,
{
    if n > 0 {
        let k = (n - 1) as nat;
        lemma_alike_lines(head, params, lines, input, other, k);
        let a = lines_after(head, params, lines, input, k);
        let b = lines_after(head, params, lines, other, k);
        lemma_ahead_next(head.write, k, head.len);
        law_position_on_ring(
            head.write_at(k),
            params.delay_time@[k as int] * head.sample_rate,
            head.len,
        );
        let position = head.position_at(params.delay_time@[k as int], k);
        let (fb, bal) = (params.feedback@[k as int], params.balance@[k as int]);
        lemma_alike_read(a.0, b.0, position);
        lemma_alike_read(a.1, b.1, position);
        assert(fed_alike(params, input, other, k as int));
        let (a0, a1) = (read_linear(a.0, position), read_linear(a.1, position));
        let (b0, b1) = (read_linear(b.0, position), read_linear(b.1, position));
        lemma_alike_mul(a1, fb, b1, fb);
        lemma_alike_mul(a0, fb, b0, fb);
        lemma_alike_add(
            left(bal, input.0[k as int]),
            a1 * fb,
            left(bal, other.0[k as int]),
            b1 * fb,
        );
        lemma_alike_add(
            right(bal, input.1[k as int]),
            a0 * fb,
            right(bal, other.1[k as int]),
            b0 * fb,
        );
    }
}

proof fn lemma_alike_outputs(
    head: Head,
    params: PingPongParams,
    lines: (Seq<Single>, Seq<Single>),
    input: (Seq<Single>, Seq<Single>),
    other: (Seq<Single>, Seq<Single>),
    n: nat,
)
    requires
        head.wf(),
        lines.0.len() == head.len,
        lines.1.len() == head.len,
        forall|i: int| 0 <= i < n ==> #[trigger] fed_alike(params, input, other, i),
    ensures
        lines_alike(
            rendered_left(head, params, lines, input, n),
            rendered_left(head, params, lines, other, n),
        ),
        lines_alike(
            rendered_right(head, params, lines, input, n),
            rendered_right(head, params, lines, other, n),
        ),
{
    assert forall|i: int| 0 <= i < n implies {
        &&& alike(
            #[trigger] rendered_left(head, params, lines, input, n)[i],
            rendered_left(head, params, lines, other, n)[i],
        )
        &&& alike(
            rendered_right(head, params, lines, input, n)[i],
            rendered_right(head, params, lines, other, n)[i],
        )
    } by {
        let k = i as nat;
        lemma_alike_lines(head, params, lines, input, other, k);
        let a = lines_after(head, params, lines, input, k);
        let b = lines_after(head, params, lines, other, k);
        lemma_ahead_next(head.write, k, head.len);
        law_position_on_ring(
            head.write_at(k),
            params.delay_time@[i] * head.sample_rate,
            head.len,
        );
        let position = head.position_at(params.delay_time@[i], k);
        let bal = params.balance@[i];
        lemma_alike_read(a.0, b.0, position);
        lemma_alike_read(a.1, b.1, position);
        assert(fed_alike(params, input, other, i));
        lemma_alike_linear(
            left(bal, input.0[i]),
            read_linear(a.0, position),
            left(bal, other.0[i]),
            read_linear(b.0, position),
            params.mix@[i],
        );
        lemma_alike_linear(
            right(bal, input.1[i]),
            read_linear(a.1, position),
            right(bal, other.1[i]),
            read_linear(b.1, position),
            params.mix@[i],
        );
    }
    assert forall|i: int| 0 <= i < n implies alike(
        #[trigger] rendered_right(head, params, lines, input, n)[i],
        rendered_right(head, params, lines, other, n)[i],
    ) by {
        let seen = rendered_left(head, params, lines, input, n)[i];
    }
}

/// At balance 0 the right input has no part in the lines or in what goes out, over whole blocks:
/// another one gives the same, the signs of zeros aside.
pub proof fn law_right_kept_out(
    head: Head,
    params: PingPongParams,
    lines: (Seq<Single>, Seq<Single>),
    left_input: Seq<Single>,
    right_input: Seq<Single>,
    other: Seq<Single>,
    n: nat,
)
    requires
        head.wf(),
        lines.0.len() == head.len,
        lines.1.len() == head.len,
        forall|i: int| 0 <= i < n ==> #[trigger] params.balance@[i] == num(0),
        forall|i: int| 0 <= i < n ==> (#[trigger] right_input[i]).is_finite(),
        forall|i: int| 0 <= i < n ==> (#[trigger] other[i]).is_finite(),
    ensures
        ({
            let a = (left_input, right_input);
            let b = (left_input, other);
            let (p, q) = (
                lines_after(head, params, lines, a, n),
                lines_after(head, params, lines, b, n),
            );
            &&& lines_alike(p.0, q.0)
            &&& lines_alike(p.1, q.1)
            &&& lines_alike(
                rendered_left(head, params, lines, a, n),
                rendered_left(head, params, lines, b, n),
            )
            &&& lines_alike(
                rendered_right(head, params, lines, a, n),
                rendered_right(head, params, lines, b, n),
            )
        }),
{
    let (a, b) = ((left_input, right_input), (left_input, other));
    assert forall|i: int| 0 <= i < n implies #[trigger] fed_alike(params, a, b, i) by {
        assert(params.balance@[i] == num(0));
        law_balance_left(right_input[i]);
        law_balance_left(other[i]);
    }
    lemma_alike_lines(head, params, lines, a, b, n);
    lemma_alike_outputs(head, params, lines, a, b, n);
}

/// At balance 1 the left input has no part in the lines or in what goes out, over whole blocks:
/// another one gives the same, the signs of zeros aside.
pub proof fn law_left_kept_out(
    head: Head,
    params: PingPongParams,
    lines: (Seq<Single>, Seq<Single>),
    left_input: Seq<Single>,
    other: Seq<Single>,
    right_input: Seq<Single>,
    n: nat,
)
    requires
        head.wf(),
        lines.0.len() == head.len,
        lines.1.len() == head.len,
        forall|i: int| 0 <= i < n ==> #[trigger] params.balance@[i] == num(ONE),
        forall|i: int| 0 <= i < n ==> (#[trigger] left_input[i]).is_finite(),
        forall|i: int| 0 <= i < n ==> (#[trigger] other[i]).is_finite(),
    ensures
        ({
            let a = (left_input, right_input);
            let b = (other, right_input);
            let (p, q) = (
                lines_after(head, params, lines, a, n),
                lines_after(head, params, lines, b, n),
            );
            &&& lines_alike(p.0, q.0)
            &&& lines_alike(p.1, q.1)
            &&& lines_alike(
                rendered_left(head, params, lines, a, n),
                rendered_left(head, params, lines, b, n),
            )
            &&& lines_alike(
                rendered_right(head, params, lines, a, n),
                rendered_right(head, params, lines, b, n),
            )
        }),
{
    let (a, b) = ((left_input, right_input), (other, right_input));
    assert forall|i: int| 0 <= i < n implies #[trigger] fed_alike(params, a, b, i) by {
        assert(params.balance@[i] == num(ONE));
        law_balance_right(left_input[i]);
        law_balance_right(other[i]);
    }
    lemma_alike_lines(head, params, lines, a, b, n);
    lemma_alike_outputs(head, params, lines, a, b, n);
}


/// Whether a line holds numbers of no more than `m`.
pub open spec fn line_bounded(line: Seq<Single>, m: int) -> bool {
    forall|k: int|
        0 <= k < line.len() ==> (#[trigger] line[k]).is_finite() && size(line[k].value()) <= m
}

/// Whether two lines hold the same to within `e` parts in 2^23.
pub open spec fn lines_near(a: Seq<Single>, b: Seq<Single>, e: int) -> bool {
    &&& a.len() == b.len()
    &&& forall|k: int|
        0 <= k < a.len() ==> 0x80_0000 * size((#[trigger] a[k]).value() - b[k].value()) <= e
}

impl PingPongParams {
    /// Whether these are the controls of `other` over `n` samples, but for the balance, which is
    /// what the other one leaves of 1.
    pub open spec fn mirrors_nearly(self, other: PingPongParams, n: nat) -> bool {
        &&& self.delay_time@ == other.delay_time@
        &&& self.feedback@ == other.feedback@
        &&& self.mix@ == other.mix@
        &&& forall|i: int|
            0 <= i < n ==> within(#[trigger] other.balance@[i], num(0), num(ONE))
                && self.balance@[i] == num(ONE) - other.balance@[i]
    }

    /// Whether the delay of sample `i` is finite and its feedback and its mix lie between 0 and 1.
    pub open spec fn in_range(self, head: Head, i: int) -> bool {
        &&& (self.delay_time@[i] * head.sample_rate).is_finite()
        &&& within(self.feedback@[i], num(0), num(ONE))
        &&& within(self.mix@[i], num(0), num(ONE))
    }
}

/// What a balance feeds in, and what the one does that is mirrored twice.
proof fn lemma_feed_near(balance: Single, x: Single, m: int)
    requires
        within(balance, num(0), num(ONE)),
        x.is_finite(),
        size(x.value()) <= m,
        m >= 0x100_0000,
    ensures
        ({
            let there = right(balance, x);
            let here = left(num(ONE) - balance, x);
            &&& there.is_finite() && size(there.value()) <= m
            &&& here.is_finite() && size(here.value()) <= m
            &&& 0x80_0000 * size(here.value() - there.value()) <= 5 * m
        }),
{
    lemma_constants();
    lemma_within(balance, num(0), num(ONE));
    let u = unit();
    let (b, v) = (balance.value(), x.value());
    let (low, high) = lemma_around(u - b);
    lemma_sub(num(ONE), balance, low, high);
    lemma_sub(num(ONE), balance, num(0), num(ONE));
    let rest = num(ONE) - balance;
    let (low, high) = lemma_around(u - rest.value());
    lemma_sub(num(ONE), rest, low, high);
    lemma_sub(num(ONE), rest, num(0), num(ONE));
    let back = num(ONE) - rest;
    let c = back.value();
    assert(0x80_0000 * size(c - b) <= u);
    lemma_shrunk(x, balance);
    lemma_shrunk(x, back);
    lemma_abs(x);
    let t = size(v);
    assert(size(b * v) <= t * u && size(c * v) <= t * u && t * u <= m * u) by (nonlinear_arith)
        requires
            0 <= b <= u,
            0 <= c <= u,
            t == size(v),
            t <= m,
            u > 0,
    ;
    lemma_mul_error(balance, x, x.abs());
    lemma_mul_error(back, x, x.abs());
    let (p, q) = ((balance * x).value(), (back * x).value());
    let mu = m * u;
    assert(0x80_0002 * u <= mu) by (nonlinear_arith)
        requires
            mu == m * u,
            m >= 0x100_0000,
            u > 0,
    ;
    let d = c - b;
    assert(0x80_0000 * size(d * v) <= mu) by (nonlinear_arith)
        requires
            0x80_0000 * size(d) <= u,
            size(v) <= m,
            mu == m * u,
    ;
    let (bv, cv, dv) = (b * v, c * v, d * v);
    assert(cv - bv == dv) by (nonlinear_arith)
        requires
            bv == b * v,
            cv == c * v,
            dv == d * v,
            d == c - b,
    ;
    let (pu, qu) = (p * u, q * u);
    assert(0x80_0000 * size(pu - bv) <= 2 * mu);
    assert(0x80_0000 * size(qu - cv) <= 2 * mu);
    assert(0x80_0000 * size(qu - pu) <= 5 * mu);
    assert(0x80_0000 * size(q - p) <= 5 * m) by (nonlinear_arith)
        requires
            0x80_0000 * size(q * u - p * u) <= 5 * (m * u),
            u > 0,
    ;
}

/// Lines that are near each other are read nearly alike, and no louder than they are.
proof fn lemma_read_near(
    head: Head,
    seconds: Single,
    k: nat,
    a: Seq<Single>,
    b: Seq<Single>,
    e: int,
    m: int,
    top: Single,
)
    requires
        head.wf(),
        (seconds * head.sample_rate).is_finite(),
        a.len() == head.len,
        line_bounded(a, m),
        line_bounded(b, m),
        lines_near(a, b, e),
        m >= 0x100_0000,
        top.is_finite(),
        8 * m <= top.value(),
    ensures
        ({
            let position = head.position_at(seconds, k);
            let (r, s) = (read_linear(a, position), read_linear(b, position));
            &&& r.is_finite() && size(r.value()) <= m
            &&& s.is_finite() && size(s.value()) <= m
            &&& 0x80_0000 * size(r.value() - s.value()) <= e + 24 * m
        }),
{
    let delay = seconds * head.sample_rate;
    lemma_ahead_next(head.write, k, head.len);
    let write = head.write_at(k);
    let position = head.position_at(seconds, k);
    law_position_on_ring(write, delay, head.len);
    lemma_place_finite(write, delay, head.len);
    let whole = Single::from_usize(head.len);
    lemma_wrapped_finite(Single::from_usize(write) - delay + whole, head.len);
    lemma_fraction(position);
    let frac = position - position.floor();
    let r0 = position.floor().to_usize() as int;
    let r1 = (r0 + 1) % (head.len as int);
    lemma_mod_bound(r0 + 1, head.len as int);
    assert(a[r0].is_finite() && a[r1].is_finite() && b[r0].is_finite() && b[r1].is_finite());
    lemma_way_near(a[r0], a[r1], b[r0], b[r1], frac, e, m, top);
    lemma_negated(top);
    lemma_sub(a[r1], a[r0], top.negated(), top);
    lemma_sub(b[r1], b[r0], top.negated(), top);
    law_linear_between(a[r0], a[r1], frac);
    law_linear_between(b[r0], b[r1], frac);
}

/// What is fed back of delayed samples that are near each other.
proof fn lemma_fed_back_near(
    r: Single,
    s: Single,
    feedback: Single,
    e: int,
    m: int,
    top: Single,
)
    requires
        r.is_finite() && size(r.value()) <= m,
        s.is_finite() && size(s.value()) <= m,
        within(feedback, num(0), num(ONE)),
        0x80_0000 * size(r.value() - s.value()) <= e + 24 * m,
        m >= 0x100_0000,
        top.is_finite(),
        8 * m <= top.value(),
    ensures
        (r * feedback).is_finite() && size((r * feedback).value()) <= m,
        (s * feedback).is_finite() && size((s * feedback).value()) <= m,
        0x80_0000 * size((r * feedback).value() - (s * feedback).value()) <= e + 28 * m,
{
    lemma_constants();
    lemma_within(feedback, num(0), num(ONE));
    let u = unit();
    let (v, w, f) = (r.value(), s.value(), feedback.value());
    lemma_shrunk(r, feedback);
    lemma_shrunk(s, feedback);
    let (mu, near) = (m * u, e + 24 * m);
    assert(size(v * f) <= mu && size(w * f) <= mu && 0x80_0002 * u <= mu && mu <= top.value() * u)
        by (nonlinear_arith)
        requires
            size(v) <= m,
            size(w) <= m,
            0 <= f <= u,
            mu == m * u,
            m >= 0x100_0000,
            8 * m <= top.value(),
            u > 0,
    ;
    lemma_mul_error(r, feedback, top);
    lemma_mul_error(s, feedback, top);
    let d = v - w;
    assert(0x80_0000 * size(d * f) <= near * u) by (nonlinear_arith)
        requires
            0x80_0000 * size(d) <= near,
            0 <= f <= u,
    ;
    let (vf, wf, df) = (v * f, w * f, d * f);
    assert(vf - wf == df) by (nonlinear_arith)
        requires
            vf == v * f,
            wf == w * f,
            df == d * f,
            d == v - w,
    ;
    let (p, q) = ((r * feedback).value(), (s * feedback).value());
    let (pu, qu, nu) = (p * u, q * u, near * u);
    assert(0x80_0000 * size(pu - vf) <= 2 * mu);
    assert(0x80_0000 * size(qu - wf) <= 2 * mu);
    assert(0x80_0000 * size(pu - qu) <= nu + 4 * mu);
    assert(0x80_0000 * size(p - q) <= near + 4 * m) by (nonlinear_arith)
        requires
            0x80_0000 * size(p * u - q * u) <= near * u + 4 * (m * u),
            u > 0,
    ;
}

/// What is written for feeds and delayed samples that are near each other.
proof fn lemma_written_near(
    x: Single,
    y: Single,
    r: Single,
    s: Single,
    feedback: Single,
    e: int,
    m: int,
    top: Single,
)
    requires
        x.is_finite() && size(x.value()) <= m,
        y.is_finite() && size(y.value()) <= m,
        r.is_finite() && size(r.value()) <= m,
        s.is_finite() && size(s.value()) <= m,
        within(feedback, num(0), num(ONE)),
        0x80_0000 * size(x.value() - y.value()) <= 5 * m,
        0x80_0000 * size(r.value() - s.value()) <= e + 24 * m,
        m >= 0x100_0000,
        top.is_finite(),
        8 * m <= top.value(),
    ensures
        (x + r * feedback).is_finite(),
        (y + s * feedback).is_finite(),
        0x80_0000 * size((x + r * feedback).value() - (y + s * feedback).value()) <= e + 40 * m,
{
    lemma_fed_back_near(r, s, feedback, e, m, top);
    let (p, q) = (r * feedback, s * feedback);
    lemma_add_error(x, p, top);
    lemma_add_error(y, q, top);
    let (a, b) = (
        (x + p).value() - (x.value() + p.value()),
        (y + q).value() - (y.value() + q.value()),
    );
    let (c, d) = (x.value() - y.value(), p.value() - q.value());
    assert(0x80_0000 * size(a) <= 2 * m);
    assert(0x80_0000 * size(b) <= 2 * m);
    assert((x + p).value() - (y + q).value() == a - b + c + d);
}

/// Exchanging the channels and mirroring the balance exchanges the lines, wherever the balance is,
/// but for rounding: after `n` samples they are off by no more than `40 * n` parts in 2^23 of the
/// loudest sample.
pub proof fn law_mirrored_lines_near(
    head: Head,
    params: PingPongParams,
    mirror: PingPongParams,
    lines: (Seq<Single>, Seq<Single>),
    input: (Seq<Single>, Seq<Single>),
    m: int,
    top: Single,
    n: nat,
)
    requires
        head.wf(),
        mirror.mirrors_nearly(params, n),
        lines.0.len() == head.len,
        lines.1.len() == head.len,
        forall|i: int| 0 <= i < n ==> #[trigger] params.in_range(head, i),
        forall|i: int|
            0 <= i < n ==> (#[trigger] input.0[i]).is_finite() && size(input.0[i].value()) <= m,
        forall|i: int|
            0 <= i < n ==> (#[trigger] input.1[i]).is_finite() && size(input.1[i].value()) <= m,
        forall|i: nat|
            i <= n ==> line_bounded(
                (#[trigger] lines_after(head, params, lines, input, i)).0,
                m,
            ) && line_bounded(lines_after(head, params, lines, input, i).1, m),
        forall|i: nat|
            i <= n ==> line_bounded(
                (#[trigger] lines_after(
                    head,
                    mirror,
                    (lines.1, lines.0),
                    (input.1, input.0),
                    i,
                )).0,
                m,
            ) && line_bounded(
                lines_after(head, mirror, (lines.1, lines.0), (input.1, input.0), i).1,
                m,
            ),
        m >= 0x100_0000,
        top.is_finite(),
        8 * m <= top.value(),
    ensures
        ({
            let there = lines_after(head, params, lines, input, n);
            let here = lines_after(head, mirror, (lines.1, lines.0), (input.1, input.0), n);
            &&& there.0.len() == head.len && there.1.len() == head.len
            &&& lines_near(here.0, there.1, 40 * (n * m))
            &&& lines_near(here.1, there.0, 40 * (n * m))
        }),
    decreases n,
{
    let (turned_lines, turned_input) = ((lines.1, lines.0), (input.1, input.0));
    assert(0 * m == 0) by (nonlinear_arith);
    if n > 0 {
        let k = (n - 1) as nat;
        let j = k as int;
        law_mirrored_lines_near(head, params, mirror, lines, input, m, top, k);
        let there = lines_after(head, params, lines, input, k);
        let here = lines_after(head, mirror, turned_lines, turned_input, k);
        assert(line_bounded(there.0, m) && line_bounded(there.1, m));
        assert(line_bounded(here.0, m) && line_bounded(here.1, m));
        assert(params.in_range(head, j));
        assert(within(params.balance@[j], num(0), num(ONE)));
        assert(input.0[j].is_finite() && input.1[j].is_finite());
        let e = 40 * (k * m);
        assert(40 * (n * m) == e + 40 * m && e >= 0) by (nonlinear_arith)
            requires
                e == 40 * (k * m),
                n == k + 1,
                m >= 0,
        ;
        if !undelayed(head, params, k) {
            let seconds = params.delay_time@[j];
            let position = head.position_at(seconds, k);
            lemma_read_near(head, seconds, k, here.1, there.0, e, m, top);
            lemma_read_near(head, seconds, k, here.0, there.1, e, m, top);
            lemma_feed_near(params.balance@[j], input.1[j], m);
            lemma_shrunk_feed(params.balance@[j], input.0[j]);
            lemma_written_near(
                left(mirror.balance@[j], input.1[j]),
                right(params.balance@[j], input.1[j]),
                read_linear(here.1, position),
                read_linear(there.0, position),
                params.feedback@[j],
                e,
                m,
                top,
            );
            lemma_written_near(
                right(mirror.balance@[j], input.0[j]),
                left(params.balance@[j], input.0[j]),
                read_linear(here.0, position),
                read_linear(there.1, position),
                params.feedback@[j],
                e,
                m,
                top,
            );
            lemma_ahead_next(head.write, k, head.len);
        }
    }
}

/// What a balance leaves of a sample is no louder than it.
proof fn lemma_shrunk_feed(balance: Single, x: Single)
    requires
        within(balance, num(0), num(ONE)),
        x.is_finite(),
    ensures
        left(balance, x).is_finite(),
        size(left(balance, x).value()) <= size(x.value()),
{
    lemma_constants();
    lemma_within(balance, num(0), num(ONE));
    lemma_sub(num(ONE), balance, num(0), num(ONE));
    lemma_shrunk(x, num(ONE) - balance);
}

/// Exchanging the channels and mirroring the balance exchanges what goes out, wherever the balance
/// is, but for rounding: sample `i` is off by no more than `40 * i + 53` parts in 2^23 of the
/// loudest sample.
pub proof fn law_mirrored_outputs_near(
    head: Head,
    params: PingPongParams,
    mirror: PingPongParams,
    lines: (Seq<Single>, Seq<Single>),
    input: (Seq<Single>, Seq<Single>),
    m: int,
    top: Single,
    i: nat,
)
    requires
        head.wf(),
        mirror.mirrors_nearly(params, i + 1),
        lines.0.len() == head.len,
        lines.1.len() == head.len,
        forall|k: int| 0 <= k <= i ==> #[trigger] params.in_range(head, k),
        forall|k: int|
            0 <= k <= i ==> (#[trigger] input.0[k]).is_finite() && size(input.0[k].value()) <= m,
        forall|k: int|
            0 <= k <= i ==> (#[trigger] input.1[k]).is_finite() && size(input.1[k].value()) <= m,
        forall|k: nat|
            k <= i ==> line_bounded(
                (#[trigger] lines_after(head, params, lines, input, k)).0,
                m,
            ) && line_bounded(lines_after(head, params, lines, input, k).1, m),
        forall|k: nat|
            k <= i ==> line_bounded(
                (#[trigger] lines_after(
                    head,
                    mirror,
                    (lines.1, lines.0),
                    (input.1, input.0),
                    k,
                )).0,
                m,
            ) && line_bounded(
                lines_after(head, mirror, (lines.1, lines.0), (input.1, input.0), k).1,
                m,
            ),
        m >= 0x100_0000,
        top.is_finite(),
        8 * m <= top.value(),
    ensures
        ({
            let (turned_lines, turned_input) = ((lines.1, lines.0), (input.1, input.0));
            let l = rendered_left(head, mirror, turned_lines, turned_input, i + 1)[i as int];
            let r = rendered_right(head, mirror, turned_lines, turned_input, i + 1)[i as int];
            let near = 40 * (i * m) + 53 * m;
            &&& 0x80_0000 * size(
                l.value() - rendered_right(head, params, lines, input, i + 1)[i as int].value(),
            ) <= near
            &&& 0x80_0000 * size(
                r.value() - rendered_left(head, params, lines, input, i + 1)[i as int].value(),
            ) <= near
        }),
{
    let (turned_lines, turned_input) = ((lines.1, lines.0), (input.1, input.0));
    let j = i as int;
    law_mirrored_lines_near(head, params, mirror, lines, input, m, top, i);
    let there = lines_after(head, params, lines, input, i);
    let here = lines_after(head, mirror, turned_lines, turned_input, i);
    assert(line_bounded(there.0, m) && line_bounded(there.1, m));
    assert(line_bounded(here.0, m) && line_bounded(here.1, m));
    assert(params.in_range(head, j));
    assert(within(params.balance@[j], num(0), num(ONE)));
    assert(input.0[j].is_finite() && input.1[j].is_finite());
    lemma_feed_near(params.balance@[j], input.1[j], m);
    lemma_shrunk_feed(params.balance@[j], input.0[j]);
    let e = 40 * (i * m);
    assert(e >= 0) by (nonlinear_arith)
        requires
            e == 40 * (i * m),
            m >= 0,
    ;
    if !undelayed(head, params, i) {
        let seconds = params.delay_time@[j];
        let position = head.position_at(seconds, i);
        lemma_read_near(head, seconds, i, here.1, there.0, e, m, top);
        lemma_read_near(head, seconds, i, here.0, there.1, e, m, top);
        lemma_constants();
        lemma_within(params.mix@[j], num(0), num(ONE));
        lemma_way_near(
            left(mirror.balance@[j], input.1[j]),
            read_linear(here.0, position),
            right(params.balance@[j], input.1[j]),
            read_linear(there.1, position),
            params.mix@[j],
            e + 29 * m,
            m,
            top,
        );
        lemma_way_near(
            right(mirror.balance@[j], input.0[j]),
            read_linear(here.1, position),
            left(params.balance@[j], input.0[j]),
            read_linear(there.0, position),
            params.mix@[j],
            e + 29 * m,
            m,
            top,
        );
    }
}

} // verus!
