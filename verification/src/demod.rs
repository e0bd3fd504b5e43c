//! FM demodulation and deemphasis over any sample type. What a phase
//! difference or a filter step is, the caller says; which samples meet, and
//! what is carried from chunk to chunk, is settled here.

use vstd::prelude::*;

use crate::seqs::joined;

verus! {

/// Deemphasis time constant common in analog FPV transmitters, in
/// nanoseconds.
pub const DEFAULT_DEEMPHASIS_TAU_NS: u32 = 750;

/// Whether `out` holds the discriminator's value for each sample and the one
/// before it.
pub open spec fn demodulates<C, T, A: Fn(&C, &C) -> T>(arg: A, iq: Seq<C>, out: Seq<T>) -> bool {
    &&& out.len() == if iq.len() < 2 {
        0
    } else {
        iq.len() - 1
    }
    &&& forall|i: int|
        #![trigger out[i]]
        0 <= i < out.len() ==> arg.ensures((&iq[i + 1], &iq[i]), out[i])
}

/// Quadrature discriminator into a buffer of the caller's, which is replaced.
pub fn fm_demod_into<C, T, A: Fn(&C, &C) -> T>(iq_data: &[C], out: &mut Vec<T>, arg: A)
    requires
        forall|a: &C, b: &C| #[trigger] arg.requires((a, b)),
    ensures
        demodulates(arg, iq_data@, final(out)@),
{
    out.clear();
    let n: usize = iq_data.len();
    if n < 2 {
        return ;
    }
    let mut i: usize = 1;
    while i < n
        invariant
            1 <= i <= n,
            n == iq_data.len(),
            out.len() == i - 1,
            forall|a: &C, b: &C| #[trigger] arg.requires((a, b)),
            forall|k: int|
                #![trigger out@[k]]
                0 <= k < out.len() ==> arg.ensures((&iq_data[k + 1], &iq_data[k]), out@[k]),
        decreases n - i,
    {
        let v: T = arg(&iq_data[i], &iq_data[i - 1]);
        out.push(v);
        i += 1;
    }
}

/// Quadrature discriminator: `arg(iq[n], iq[n - 1])` for each sample but the
/// first.
pub fn fm_demod<C, T, A: Fn(&C, &C) -> T>(iq_data: &[C], arg: A) -> (out: Vec<T>)
    requires
        forall|a: &C, b: &C| #[trigger] arg.requires((a, b)),
    ensures
        demodulates(arg, iq_data@, out@),
{
    let mut out: Vec<T> = Vec::new();
    fm_demod_into(iq_data, &mut out, arg);
    out
}

/// Alias of [`fm_demod`].
pub fn fm_demod_simd<C, T, A: Fn(&C, &C) -> T>(iq_data: &[C], arg: A) -> (out: Vec<T>)
    requires
        forall|a: &C, b: &C| #[trigger] arg.requires((a, b)),
    ensures
        demodulates(arg, iq_data@, out@),
{
    fm_demod(iq_data, arg)
}

/// Demodulating two chunks, the second with the last sample of the first in
/// front, gives together what demodulating the undivided stream gives.
pub proof fn law_carry_joins_chunks<C, T, A: Fn(&C, &C) -> T>(
    arg: A,
    first: Seq<C>,
    second: Seq<C>,
    a: Seq<T>,
    b: Seq<T>,
)
    requires
        first.len() >= 1,
        demodulates(arg, first, a),
        demodulates(arg, seq![first.last()] + second, b),
    ensures
        demodulates(arg, first + second, a + b),
{
    let whole = first + second;
    let carried = seq![first.last()] + second;
    let out = a + b;
    assert forall|i: int|
        #![trigger out[i]]
        0 <= i < out.len() implies arg.ensures((&whole[i + 1], &whole[i]), out[i]) by {
        if i < a.len() {
            assert(out[i] == a[i]);
            assert(whole[i + 1] == first[i + 1] && whole[i] == first[i]);
        } else {
            let k = i - a.len();
            assert(out[i] == b[k]);
            assert(whole[i + 1] == carried[k + 1]);
            assert(whole[i] == carried[k]);
        }
    }
}

/// Single-pole deemphasis over samples `T`. The first sample passes as it is
/// and seeds the state, so that a stream that starts on some level does not
/// fade in.
pub struct Deemphasis<T> {
    y: Option<T>,
}

/// Whether a filter that was in state `y` turned `input` into `output`. A
/// step makes an output of a sample and the output before it.
pub open spec fn deemphasized<T, F: Fn(T, T) -> T>(
    step: F,
    y: Option<T>,
    input: Seq<T>,
    output: Seq<T>,
) -> bool {
    &&& output.len() == input.len()
    &&& input.len() > 0 ==> match y {
        None => output[0] == input[0],
        Some(s) => step.ensures((input[0], s), output[0]),
    }
    &&& forall|i: int|
        #![trigger output[i]]
        1 <= i < input.len() ==> step.ensures((input[i], output[i - 1]), output[i])
}

/// The state after some output.
pub open spec fn state_after<T>(y: Option<T>, output: Seq<T>) -> Option<T> {
    if output.len() == 0 {
        y
    } else {
        Some(output.last())
    }
}

impl<T: Copy> Deemphasis<T> {
    /// The output that the next sample is blended with, if there was one.
    pub closed spec fn state(&self) -> Option<T> {
        self.y
    }

    pub fn new() -> (d: Self)
        ensures
            d.state() is None,
    {
        Deemphasis { y: None }
    }

    /// Filter `data` in place, going on from where the last call ended.
    pub fn process_in_place<F: Fn(T, T) -> T>(&mut self, data: &mut [T], step: F)
        requires
            forall|x: T, y: T| #[trigger] step.requires((x, y)),
        ensures
            deemphasized(step, old(self).state(), old(data)@, final(data)@),
            final(self).state() == state_after(old(self).state(), final(data)@),
    {
        let ghost input = data@;
        let ghost start = self.y;
        let n: usize = data.len();
        let mut i: usize = 0;
        while i < n
            invariant
                i <= n,
                n == data.len() == input.len(),
                forall|x: T, y: T| #[trigger] step.requires((x, y)),
                forall|k: int| i <= k < n ==> data@[k] == #[trigger] input[k],
                self.y == state_after(start, data@.take(i as int)),
                i > 0 ==> match start {
                    None => data@[0] == input[0],
                    Some(s) => step.ensures((input[0], s), data@[0]),
                },
                forall|k: int|
                    #![trigger data@[k]]
                    1 <= k < i ==> step.ensures((input[k], data@[k - 1]), data@[k]),
            decreases n - i,
        {
            let x: T = data[i];
            assert(x == input[i as int]);
            let y: T = match self.y {
                None => x,
                Some(s) => step(x, s),
            };
            let ghost held = data@;
            data[i] = y;
            self.y = Some(y);
            assert(forall|k: int| 0 <= k < i ==> data@[k] == held[k]);
            i += 1;
        }
        assert(data@.take(n as int) =~= data@);
    }

    /// Forget the stream so far.
    pub fn reset(&mut self)
        ensures
            final(self).state() is None,
    {
        self.y = None;
    }
}

/// A stream in two chunks is filtered as it would be in one.
pub proof fn law_streaming_matches_one_shot<T, F: Fn(T, T) -> T>(
    step: F,
    y: Option<T>,
    first: Seq<T>,
    second: Seq<T>,
    a: Seq<T>,
    b: Seq<T>,
)
    requires
        deemphasized(step, y, first, a),
        deemphasized(step, state_after(y, a), second, b),
    ensures
        deemphasized(step, y, first + second, a + b),
        state_after(y, a + b) == state_after(state_after(y, a), b),
{
    let input = first + second;
    let output = a + b;
    assert forall|i: int|
        #![trigger output[i]]
        1 <= i < input.len() implies step.ensures((input[i], output[i - 1]), output[i]) by {
        if i < a.len() {
            assert(output[i] == a[i] && output[i - 1] == a[i - 1]);
        } else {
            let k = i - a.len();
            assert(output[i] == b[k]);
            if k > 0 {
                assert(output[i - 1] == b[k - 1]);
            }
        }
    }
    if input.len() > 0 && a.len() == 0 {
        assert(output[0] == b[0]);
        assert(input[0] == second[0]);
    }
}

/// Whether a step has one result.
pub open spec fn steps_one_way<T, F: Fn(T, T) -> T>(step: F) -> bool {
    forall|x: T, y: T, a: T, b: T| #[trigger]
        step.ensures((x, y), a) && #[trigger] step.ensures((x, y), b) ==> a == b
}

proof fn lemma_same_output<T, F: Fn(T, T) -> T>(
    step: F,
    y: Option<T>,
    input: Seq<T>,
    a: Seq<T>,
    b: Seq<T>,
    i: int,
)
    requires
        steps_one_way(step),
        deemphasized(step, y, input, a),
        deemphasized(step, y, input, b),
        0 <= i < input.len(),
    ensures
        a[i] == b[i],
    decreases i,
{
    if i > 0 {
        lemma_same_output(step, y, input, a, b, i - 1);
        assert(step.ensures((input[i], a[i - 1]), a[i]));
        assert(step.ensures((input[i], a[i - 1]), b[i]));
    }
}

/// Equal filters give equal samples, and are equal afterwards, where a step
/// has one result.
pub proof fn law_equal_filters_agree<T, F: Fn(T, T) -> T>(
    step: F,
    y: Option<T>,
    input: Seq<T>,
    a: Seq<T>,
    b: Seq<T>,
)
    requires
        steps_one_way(step),
        deemphasized(step, y, input, a),
        deemphasized(step, y, input, b),
    ensures
        a == b,
        state_after(y, a) == state_after(y, b),
{
    assert forall|i: int| 0 <= i < input.len() implies a[i] == b[i] by {
        lemma_same_output(step, y, input, a, b, i);
    }
    assert(a =~= b);
}

/// Whether a filter that was in state `y` turned chunks into outputs one by
/// one.
pub open spec fn deemphasized_in_chunks<T, F: Fn(T, T) -> T>(
    step: F,
    y: Option<T>,
    chunks: Seq<Seq<T>>,
    outputs: Seq<Seq<T>>,
) -> bool {
    &&& outputs.len() == chunks.len()
    &&& forall|j: int|
        #![trigger chunks[j]]
        0 <= j < chunks.len() ==> deemphasized(
            step,
            state_after(y, joined(outputs.take(j))),
            chunks[j],
            outputs[j],
        )
}

proof fn lemma_chunks_filter_as_one<T, F: Fn(T, T) -> T>(
    step: F,
    y: Option<T>,
    chunks: Seq<Seq<T>>,
    outputs: Seq<Seq<T>>,
)
    requires
        deemphasized_in_chunks(step, y, chunks, outputs),
    ensures
        deemphasized(step, y, joined(chunks), joined(outputs)),
    decreases chunks.len(),
{
    if chunks.len() > 0 {
        let n = chunks.len() - 1;
        let early = chunks.drop_last();
        let front = outputs.drop_last();
        assert(outputs.take(n) =~= front);
        assert forall|j: int| #![trigger early[j]] 0 <= j < early.len() implies deemphasized(
            step,
            state_after(y, joined(front.take(j))),
            early[j],
            front[j],
        ) by {
            assert(early[j] == chunks[j]);
            assert(front.take(j) =~= outputs.take(j));
        }
        lemma_chunks_filter_as_one(step, y, early, front);
        assert(chunks[n] == chunks.last() && outputs[n] == outputs.last());
        law_streaming_matches_one_shot(
            step,
            y,
            joined(early),
            chunks.last(),
            joined(front),
            outputs.last(),
        );
    }
}

/// Two equal filters give equal samples, one on a whole stream and one on the
/// same stream in chunks, however it is divided, where a step has one result.
pub proof fn law_division_changes_no_sample<T, F: Fn(T, T) -> T>(
    step: F,
    y: Option<T>,
    chunks: Seq<Seq<T>>,
    outputs: Seq<Seq<T>>,
    whole: Seq<T>,
)
    requires
        steps_one_way(step),
        deemphasized_in_chunks(step, y, chunks, outputs),
        deemphasized(step, y, joined(chunks), whole),
    ensures
        joined(outputs) == whole,
        state_after(y, joined(outputs)) == state_after(y, whole),
        y is None && whole.len() > 0 ==> whole[0] == joined(chunks)[0],
{
    lemma_chunks_filter_as_one(step, y, chunks, outputs);
    law_equal_filters_agree(step, y, joined(chunks), joined(outputs), whole);
}

/// A filter whose step leaves a level alone that it is already at passes a
/// constant through unchanged: its gain at rest is one.
pub proof fn law_constant_passes_unchanged<T, F: Fn(T, T) -> T>(
    step: F,
    level: T,
    input: Seq<T>,
    output: Seq<T>,
    i: int,
)
    requires
        forall|r: T| #[trigger] step.ensures((level, level), r) ==> r == level,
        forall|k: int| 0 <= k < input.len() ==> #[trigger] input[k] == level,
        deemphasized(step, None, input, output),
        0 <= i < output.len(),
    ensures
        output[i] == level,
    decreases i,
{
    assert(input[i] == level);
    if i > 0 {
        law_constant_passes_unchanged(step, level, input, output, i - 1);
        assert(step.ensures((input[i], output[i - 1]), output[i]));
    }
}

} // verus!
