//! Streaming down-converter: mixer, anti-alias filter and decimator.
//!
//! The arithmetic on samples is the caller's: `mix` turns a sample and the
//! oscillator's state into a mixed sample and the next state, `dot` convolves
//! a window with the taps. What is kept here is which samples a window holds,
//! in which order, and which windows are computed, across any division of the
//! stream into chunks.

use vstd::prelude::*;

use crate::levels::max;
use crate::seqs::{copy_of, joined, repeated};

verus! {

/// Default tap count of the anti-alias filter.
pub const DEFAULT_FIR_TAPS: usize = 63;

/// Fewest taps of a filter: with less, its window is all zeros.
pub const MIN_FIR_TAPS: usize = 3;

/// Streaming mixer, filter and decimator over samples `C`, taps `H` and
/// oscillator state `P`.
///
/// The delay line is twice as long as the filter, and both halves hold the
/// same samples, so the window of the last samples is always contiguous.
pub struct StreamingDDC<C, H, P> {
    phasor: P,
    taps: Vec<H>,
    taps_dup: Vec<H>,
    delay_line: Vec<C>,
    idx: usize,
    decimation_counter: usize,
    zero: C,
}

/// The taps in the order of the window, oldest sample first, each twice: once
/// for the real and once for the imaginary part.
pub open spec fn paired<H>(taps: Seq<H>) -> Seq<H> {
    Seq::new(2 * taps.len(), |i: int| taps[taps.len() - 1 - i / 2])
}

/// The counter after a sample.
pub open spec fn next_phase(phase: int, stride: int) -> int {
    if phase + 1 >= stride {
        0
    } else {
        phase + 1
    }
}

/// The counter after `n` samples.
pub open spec fn phase_after(phase: int, n: int, stride: int) -> int
    decreases n,
{
    if n <= 0 {
        phase
    } else {
        next_phase(phase_after(phase, n - 1, stride), stride)
    }
}

/// Which of `n` samples give an output: those met with the counter at zero.
pub open spec fn taken(phase: int, n: int, stride: int) -> Seq<int>
    decreases n,
{
    if n <= 0 {
        Seq::empty()
    } else if phase_after(phase, n - 1, stride) == 0 {
        taken(phase, n - 1, stride).push(n - 1)
    } else {
        taken(phase, n - 1, stride)
    }
}

/// The last `n` samples of a history followed by new ones.
pub open spec fn last_of<C>(n: int, history: Seq<C>, fresh: Seq<C>) -> Seq<C> {
    (history + fresh).skip(fresh.len() as int + history.len() - n)
}

/// The window that ends with the sample `i` of `fresh`, oldest first.
pub open spec fn window_at<C>(history: Seq<C>, fresh: Seq<C>, i: int) -> Seq<C> {
    (history + fresh).subrange(i + 1, i + 1 + history.len())
}

/// Whether a chain of oscillator states mixed `iq` into `mixed`.
pub open spec fn mixed_by<C, P, M: Fn(C, P) -> (C, P)>(
    mix: M,
    iq: Seq<C>,
    mixed: Seq<C>,
    states: Seq<P>,
) -> bool {
    &&& mixed.len() == iq.len()
    &&& states.len() == iq.len() + 1
    &&& forall|i: int|
        #![trigger mixed[i]]
        0 <= i < iq.len() ==> mix.ensures((iq[i], states[i]), (mixed[i], states[i + 1]))
}

/// Whether `y` is what `dot` made of a window and the taps.
pub open spec fn convolved<C, H, D: Fn(&[C], &[H]) -> C>(
    dot: D,
    window: Seq<C>,
    taps: Seq<H>,
    y: C,
) -> bool {
    exists|w: &[C], h: &[H]| w@ == window && h@ == taps && #[trigger] dot.ensures((w, h), y)
}

/// All that a converter goes on with: its taps, the last samples, as many as
/// taps, the decimation counter and the oscillator.
#[verifier::ext_equal]
pub struct Converter<C, H, P> {
    pub taps: Seq<H>,
    pub recent: Seq<C>,
    pub phase: int,
    pub oscillator: P,
}

/// Whether samples turn a converter `s` into `t` and an output `before` into
/// `after`: every sample is mixed, and every window that is due is convolved
/// and appended.
pub open spec fn streamed<C, H, P, M: Fn(C, P) -> (C, P), D: Fn(&[C], &[H]) -> C>(
    mix: M,
    dot: D,
    s: Converter<C, H, P>,
    iq: Seq<C>,
    stride: int,
    t: Converter<C, H, P>,
    before: Seq<C>,
    after: Seq<C>,
) -> bool {
    &&& t.taps == s.taps
    &&& t.phase == phase_after(s.phase, iq.len() as int, stride)
    &&& exists|mixed: Seq<C>, states: Seq<P>|
        {
            &&& #[trigger] mixed_by(mix, iq, mixed, states)
            &&& states[0] == s.oscillator
            &&& t.oscillator == states[iq.len() as int]
            &&& t.recent == last_of(s.taps.len() as int, s.recent, mixed)
            &&& appended(
                dot,
                s.recent,
                mixed,
                paired(s.taps),
                taken(s.phase, iq.len() as int, stride),
                before,
                after,
            )
        }
}

impl<C, H, P> StreamingDDC<C, H, P> {
    /// All that it goes on with.
    pub open spec fn state(&self) -> Converter<C, H, P> {
        Converter {
            taps: self.response(),
            recent: self.recent(),
            phase: self.phase(),
            oscillator: self.oscillator(),
        }
    }

    /// The impulse response, in natural order.
    pub closed spec fn response(&self) -> Seq<H> {
        self.taps@
    }

    /// The last samples, as many as taps, oldest first.
    pub closed spec fn recent(&self) -> Seq<C> {
        self.delay_line@.subrange(self.idx as int, self.idx + self.taps@.len())
    }

    /// The decimation counter.
    pub closed spec fn phase(&self) -> int {
        self.decimation_counter as int
    }

    /// The oscillator's state.
    pub closed spec fn oscillator(&self) -> P {
        self.phasor
    }

    /// What silence is.
    pub closed spec fn silence(&self) -> C {
        self.zero
    }

    pub closed spec fn wf(&self) -> bool {
        &&& self.taps@.len() >= MIN_FIR_TAPS
        &&& 2 * self.taps@.len() <= usize::MAX
        &&& self.taps_dup@ == paired(self.taps@)
        &&& self.delay_line@.len() == 2 * self.taps@.len()
        &&& self.idx < self.taps@.len()
        &&& self.decimation_counter < usize::MAX
        &&& forall|i: int|
            #![trigger self.delay_line@[i]]
            0 <= i < self.taps@.len() ==> self.delay_line@[i] == self.delay_line@[i
                + self.taps@.len()]
    }

    /// A converter always holds a sample for every tap.
    pub proof fn law_every_tap_has_a_sample(&self)
        requires
            self.wf(),
        ensures
            self.response().len() >= MIN_FIR_TAPS,
            self.recent().len() == self.response().len(),
            0 <= self.phase(),
    {
    }

    /// Number of filter taps.
    pub fn num_taps(&self) -> (n: usize)
        ensures
            n == self.response().len(),
    {
        self.taps.len()
    }
}

impl<C: Copy, H: Copy, P: Copy> StreamingDDC<C, H, P> {
    /// The layout that the convolution reads taps in.
    pub fn derive_conv_taps(taps: &[H]) -> (dup: Vec<H>)
        requires
            2 * taps.len() <= usize::MAX,
        ensures
            dup@ == paired(taps@),
    {
        let n: usize = taps.len();
        let ghost all = paired(taps@);
        let mut dup: Vec<H> = Vec::new();
        let mut k: usize = 0;
        while k < n
            invariant
                k <= n,
                n == taps.len(),
                all == paired(taps@),
                dup@ == all.take(2 * k),
            decreases n - k,
        {
            let t: H = taps[n - 1 - k];
            dup.push(t);
            dup.push(t);
            k += 1;
            assert(dup@ =~= all.take(2 * k));
        }
        assert(dup@ =~= all);
        dup
    }

    /// A converter with an impulse response, an oscillator state and silence
    /// in its delay line.
    pub fn from_designed_taps(taps: Vec<H>, phasor: P, zero: C) -> (s: Self)
        requires
            taps.len() >= MIN_FIR_TAPS,
            2 * taps.len() <= usize::MAX,
        ensures
            s.wf(),
            s.response() == taps@,
            s.recent() == Seq::new(taps@.len(), |i: int| zero),
            s.phase() == 0,
            s.oscillator() == phasor,
            s.silence() == zero,
    {
        let taps_dup: Vec<H> = Self::derive_conv_taps(taps.as_slice());
        let delay_line: Vec<C> = repeated(zero, 2 * taps.len());
        let s: Self = StreamingDDC {
            phasor,
            taps,
            taps_dup,
            delay_line,
            idx: 0,
            decimation_counter: 0,
            zero,
        };
        assert(s.recent() =~= Seq::new(taps@.len(), |i: int| zero));
        s
    }

    /// A converter whose filter has this many taps, three at least: with
    /// fewer the window leaves nothing of the response. `design` computes an
    /// impulse response of a length.
    pub fn with_taps<F: FnOnce(usize) -> Vec<H>>(
        num_taps: usize,
        design: F,
        phasor: P,
        zero: C,
    ) -> (s: Self)
        requires
            2 * num_taps <= usize::MAX,
            forall|n: usize| #[trigger] design.requires((n,)),
            forall|n: usize, taps: Vec<H>| #[trigger]
                design.ensures((n,), taps) ==> taps.len() == n,
        ensures
            s.wf(),
            exists|taps: Vec<H>|
                {
                    &&& #[trigger] design.ensures((max(num_taps as int, 3) as usize,), taps)
                    &&& s.response() == taps@
                },
            s.response().len() == max(num_taps as int, 3),
            s.recent() == Seq::new(s.response().len(), |i: int| zero),
            s.phase() == 0,
            s.oscillator() == phasor,
            s.silence() == zero,
    {
        let n: usize = if num_taps >= MIN_FIR_TAPS {
            num_taps
        } else {
            MIN_FIR_TAPS
        };
        let taps: Vec<H> = design(n);
        assert(n == max(num_taps as int, 3) as usize);
        assert(design.ensures((max(num_taps as int, 3) as usize,), taps));
        Self::from_designed_taps(taps, phasor, zero)
    }

    /// A converter whose filter has the default number of taps.
    pub fn new<F: FnOnce(usize) -> Vec<H>>(design: F, phasor: P, zero: C) -> (s: Self)
        requires
            forall|n: usize| #[trigger] design.requires((n,)),
            forall|n: usize, taps: Vec<H>| #[trigger]
                design.ensures((n,), taps) ==> taps.len() == n,
        ensures
            s.wf(),
            exists|taps: Vec<H>|
                #[trigger] design.ensures((DEFAULT_FIR_TAPS,), taps) && s.response() == taps@,
            s.response().len() == DEFAULT_FIR_TAPS,
            s.recent() == Seq::new(s.response().len(), |i: int| zero),
            s.phase() == 0,
            s.oscillator() == phasor,
            s.silence() == zero,
    {
        Self::with_taps(DEFAULT_FIR_TAPS, design, phasor, zero)
    }

    /// Clear the filter after a break in the signal. The oscillator goes on:
    /// it counts elapsed samples, not continuity.
    pub fn reset(&mut self)
        requires
            old(self).wf(),
        ensures
            final(self).wf(),
            final(self).response() == old(self).response(),
            final(self).oscillator() == old(self).oscillator(),
            final(self).silence() == old(self).silence(),
            final(self).phase() == 0,
            final(self).recent() == Seq::new(old(self).response().len(), |i: int| old(self).silence()),
    {
        self.delay_line = repeated(self.zero, 2 * self.taps.len());
        self.idx = 0;
        self.decimation_counter = 0;
        assert(self.recent() =~= Seq::new(self.taps@.len(), |i: int| self.zero));
    }

    fn advance(&mut self, mixed: C, stride: usize)
        requires
            old(self).wf(),
            stride >= 1,
        ensures
            final(self).wf(),
            final(self).taps == old(self).taps,
            final(self).taps_dup == old(self).taps_dup,
            final(self).phasor == old(self).phasor,
            final(self).zero == old(self).zero,
            final(self).recent() == old(self).recent().drop_first().push(mixed),
            final(self).phase() == next_phase(old(self).phase(), stride as int),
    {
        let n: usize = self.taps.len();
        let ghost before = self.delay_line@;
        let at: usize = self.idx;
        self.delay_line.set(at, mixed);
        self.delay_line.set(at + n, mixed);
        self.idx = if at + 1 == n {
            0
        } else {
            at + 1
        };
        self.decimation_counter = if self.decimation_counter + 1 >= stride {
            0
        } else {
            self.decimation_counter + 1
        };
        proof {
            let d = self.delay_line@;
            assert(d =~= before.update(at as int, mixed).update(at + n, mixed));
            assert forall|i: int|
                #![trigger d[i]]
                0 <= i < n implies d[i] == d[i + n] by {
                assert(before[i] == before[i + n]);
            }
            let fresh = old(self).recent().drop_first().push(mixed);
            assert forall|k: int| 0 <= k < n implies self.recent()[k] == fresh[k] by {
                if at + 1 == n {
                    assert(d[k] == d[k + n]);
                    if k < n - 1 {
                        assert(fresh[k] == before[at + 1 + k]);
                        assert(before[k] == before[k + n]);
                    }
                } else if k < n - 1 {
                    assert(fresh[k] == before[at + 1 + k]);
                }
            }
            assert(self.recent() =~= fresh);
        }
    }

    /// Mix, filter and decimate a chunk, appending to `output`. A factor of
    /// zero counts as one.
    pub fn process_into_decimated<M: Fn(C, P) -> (C, P), D: Fn(&[C], &[H]) -> C>(
        &mut self,
        iq: &[C],
        output: &mut Vec<C>,
        decimation_factor: usize,
        mix: M,
        dot: D,
    )
        requires
            old(self).wf(),
            forall|c: C, p: P| #[trigger] mix.requires((c, p)),
            forall|w: &[C], h: &[H]| #[trigger] dot.requires((w, h)),
        ensures
            final(self).wf(),
            final(self).silence() == old(self).silence(),
            streamed(
                mix,
                dot,
                old(self).state(),
                iq@,
                max(decimation_factor as int, 1),
                final(self).state(),
                old(output)@,
                final(output)@,
            ),
    {
        let stride: usize = if decimation_factor >= 1 {
            decimation_factor
        } else {
            1
        };
        let n: usize = self.taps.len();
        let ghost start = *self;
        let ghost before = output@;
        let ghost taps = paired(self.taps@);
        let mut mixed: Ghost<Seq<C>> = Ghost(Seq::empty());
        let mut states: Ghost<Seq<P>> = Ghost(Seq::empty().push(self.phasor));
        let mut i: usize = 0;
        proof {
            assert(start.recent() + mixed@ =~= start.recent());
            assert(last_of(n as int, start.recent(), mixed@) =~= start.recent());
            assert(output@.take(before.len() as int) =~= before);
        }
        while i < iq.len()
            invariant
                i <= iq.len(),
                stride == max(decimation_factor as int, 1),
                start.wf(),
                self.wf(),
                n == self.taps.len(),
                self.taps == start.taps,
                self.taps_dup == start.taps_dup,
                self.zero == start.zero,
                taps == paired(start.taps@),
                forall|c: C, p: P| #[trigger] mix.requires((c, p)),
                forall|w: &[C], h: &[H]| #[trigger] dot.requires((w, h)),
                self.phase() == phase_after(start.phase(), i as int, stride as int),
                mixed_by(mix, iq@.take(i as int), mixed@, states@),
                states@[0] == start.phasor,
                self.phasor == states@[i as int],
                self.recent() == last_of(n as int, start.recent(), mixed@),
                appended(
                    dot,
                    start.recent(),
                    mixed@,
                    taps,
                    taken(start.phase(), i as int, stride as int),
                    before,
                    output@,
                ),
            decreases iq.len() - i,
        {
            let ghost old_mixed = mixed@;
            let ghost old_states = states@;
            let ghost old_output = output@;
            let due: bool = self.decimation_counter == 0;
            let (m, p) = mix(iq[i], self.phasor);
            self.advance(m, stride);
            self.phasor = p;
            proof {
                mixed@ = mixed@.push(m);
                states@ = states@.push(p);
                assert(mixed_by(mix, iq@.take(i + 1), mixed@, states@)) by {
                    assert forall|k: int|
                        #![trigger mixed@[k]]
                        0 <= k < i + 1 implies mix.ensures(
                        (iq@.take(i + 1)[k], states@[k]),
                        (mixed@[k], states@[k + 1]),
                    ) by {
                        if k < i {
                            assert(old_mixed[k] == mixed@[k]);
                            assert(iq@.take(i as int)[k] == iq@.take(i + 1)[k]);
                        }
                    }
                }
                assert(self.recent() =~= last_of(n as int, start.recent(), mixed@));
                assert(window_at(start.recent(), mixed@, i as int) =~= self.recent());
            }
            if due {
                let window: &[C] = vstd::slice::slice_subrange(
                    self.delay_line.as_slice(),
                    self.idx,
                    self.idx + n,
                );
                let h: &[H] = self.taps_dup.as_slice();
                let y: C = dot(window, h);
                output.push(y);
                proof {
                    assert(window@ == self.recent());
                    assert(output@.drop_last() =~= old_output);
                    assert(dot.ensures((window, h), y));
                    assert(convolved(dot, self.recent(), taps, y));
                }
            }
            proof {
                lemma_appended_step(
                    dot,
                    start.recent(),
                    old_mixed,
                    m,
                    taps,
                    start.phase(),
                    i as int,
                    stride as int,
                    before,
                    old_output,
                    output@,
                );
            }
            i += 1;
        }
        assert(iq@.take(i as int) =~= iq@);
    }

    /// Mix, filter and decimate a chunk.
    pub fn process_decimated<M: Fn(C, P) -> (C, P), D: Fn(&[C], &[H]) -> C>(
        &mut self,
        iq: &[C],
        decimation_factor: usize,
        mix: M,
        dot: D,
    ) -> (output: Vec<C>)
        requires
            old(self).wf(),
            forall|c: C, p: P| #[trigger] mix.requires((c, p)),
            forall|w: &[C], h: &[H]| #[trigger] dot.requires((w, h)),
        ensures
            final(self).wf(),
            final(self).silence() == old(self).silence(),
            streamed(
                mix,
                dot,
                old(self).state(),
                iq@,
                max(decimation_factor as int, 1),
                final(self).state(),
                Seq::empty(),
                output@,
            ),
    {
        let mut output: Vec<C> = Vec::new();
        self.process_into_decimated(iq, &mut output, decimation_factor, mix, dot);
        output
    }

    /// Mix and filter a chunk without decimation, appending to `output`.
    pub fn process_into<M: Fn(C, P) -> (C, P), D: Fn(&[C], &[H]) -> C>(
        &mut self,
        iq: &[C],
        output: &mut Vec<C>,
        mix: M,
        dot: D,
    )
        requires
            old(self).wf(),
            forall|c: C, p: P| #[trigger] mix.requires((c, p)),
            forall|w: &[C], h: &[H]| #[trigger] dot.requires((w, h)),
        ensures
            final(self).wf(),
            final(self).silence() == old(self).silence(),
            streamed(
                mix,
                dot,
                old(self).state(),
                iq@,
                1,
                final(self).state(),
                old(output)@,
                final(output)@,
            ),
    {
        self.process_into_decimated(iq, output, 1, mix, dot);
    }

    /// Mix and filter a chunk without decimation.
    pub fn process<M: Fn(C, P) -> (C, P), D: Fn(&[C], &[H]) -> C>(
        &mut self,
        iq: &[C],
        mix: M,
        dot: D,
    ) -> (output: Vec<C>)
        requires
            old(self).wf(),
            forall|c: C, p: P| #[trigger] mix.requires((c, p)),
            forall|w: &[C], h: &[H]| #[trigger] dot.requires((w, h)),
        ensures
            final(self).wf(),
            final(self).silence() == old(self).silence(),
            streamed(
                mix,
                dot,
                old(self).state(),
                iq@,
                1,
                final(self).state(),
                Seq::empty(),
                output@,
            ),
    {
        self.process_decimated(iq, 1, mix, dot)
    }
}

/// Whether `after` is `before` followed by one output for each window that
/// was due.
pub open spec fn appended<C, H, D: Fn(&[C], &[H]) -> C>(
    dot: D,
    history: Seq<C>,
    mixed: Seq<C>,
    taps: Seq<H>,
    due: Seq<int>,
    before: Seq<C>,
    after: Seq<C>,
) -> bool {
    &&& after.len() == before.len() + due.len()
    &&& after.take(before.len() as int) == before
    &&& forall|j: int|
        #![trigger due[j]]
        0 <= j < due.len() ==> convolved(
            dot,
            window_at(history, mixed, due[j]),
            taps,
            after[before.len() + j],
        )
}

proof fn lemma_taken_bounds(phase: int, n: int, stride: int)
    ensures
        forall|j: int|
            0 <= j < taken(phase, n, stride).len() ==> 0 <= #[trigger] taken(phase, n, stride)[j]
                < n,
    decreases n,
{
    if n > 0 {
        lemma_taken_bounds(phase, n - 1, stride);
        let front = taken(phase, n - 1, stride);
        let all = taken(phase, n, stride);
        assert forall|j: int| 0 <= j < all.len() implies 0 <= #[trigger] all[j] < n by {
            if j < front.len() {
                assert(all[j] == front[j]);
            }
        }
    }
}

proof fn lemma_appended_step<C, H, D: Fn(&[C], &[H]) -> C>(
    dot: D,
    history: Seq<C>,
    mixed: Seq<C>,
    m: C,
    taps: Seq<H>,
    phase: int,
    i: int,
    stride: int,
    before: Seq<C>,
    held: Seq<C>,
    after: Seq<C>,
)
    requires
        0 <= i == mixed.len(),
        appended(dot, history, mixed, taps, taken(phase, i, stride), before, held),
        phase_after(phase, i, stride) == 0 ==> after.len() == held.len() + 1 && after.drop_last()
            == held && convolved(dot, window_at(history, mixed.push(m), i), taps, after.last()),
        phase_after(phase, i, stride) != 0 ==> after == held,
    ensures
        appended(dot, history, mixed.push(m), taps, taken(phase, i + 1, stride), before, after),
{
    let due = taken(phase, i, stride);
    let next = taken(phase, i + 1, stride);
    lemma_taken_bounds(phase, i, stride);
    assert(after.take(before.len() as int) =~= before) by {
        assert(held.take(before.len() as int) == before);
        assert forall|k: int| 0 <= k < before.len() implies after[k] == before[k] by {
            assert(held.take(before.len() as int)[k] == before[k]);
            assert(held[k] == after[k]);
        }
    }
    assert forall|j: int|
        #![trigger next[j]]
        0 <= j < next.len() implies convolved(
        dot,
        window_at(history, mixed.push(m), next[j]),
        taps,
        after[before.len() + j],
    ) by {
        if j < due.len() {
            assert(next[j] == due[j]);
            assert(window_at(history, mixed.push(m), due[j]) =~= window_at(history, mixed, due[j]));
            assert(after[before.len() + j] == held[before.len() + j]);
        }
    }
}

/// The counter carries over from chunk to chunk as if there were none.
pub proof fn law_phase_survives_chunks(phase: int, a: int, b: int, stride: int)
    requires
        0 <= a,
        0 <= b,
    ensures
        phase_after(phase, a + b, stride) == phase_after(phase_after(phase, a, stride), b, stride),
    decreases b,
{
    if b > 0 {
        law_phase_survives_chunks(phase, a, b - 1, stride);
    }
}

/// A stream in two chunks gives outputs for the same samples as in one.
pub proof fn law_chunks_take_the_same_samples(phase: int, a: int, b: int, stride: int)
    requires
        0 <= a,
        0 <= b,
    ensures
        taken(phase, a + b, stride) == taken(phase, a, stride) + taken(
            phase_after(phase, a, stride),
            b,
            stride,
        ).map_values(|i: int| i + a),
    decreases b,
{
    let later = phase_after(phase, a, stride);
    if b > 0 {
        law_chunks_take_the_same_samples(phase, a, b - 1, stride);
        law_phase_survives_chunks(phase, a, b - 1, stride);
    }
    assert(taken(phase, a + b, stride) =~= taken(phase, a, stride) + taken(
        later,
        b,
        stride,
    ).map_values(|i: int| i + a));
}

/// A window in the second of two chunks holds the same samples as in the
/// undivided stream.
pub proof fn law_windows_do_not_see_chunks<C>(history: Seq<C>, first: Seq<C>, second: Seq<C>, i: int)
    requires
        0 <= i < second.len(),
    ensures
        window_at(last_of(history.len() as int, history, first), second, i) == window_at(
            history,
            first + second,
            first.len() + i,
        ),
{
    assert(window_at(last_of(history.len() as int, history, first), second, i) =~= window_at(
        history,
        first + second,
        first.len() + i,
    ));
}

/// The window after two chunks is that after the undivided stream.
pub proof fn law_history_does_not_see_chunks<C>(history: Seq<C>, first: Seq<C>, second: Seq<C>)
    ensures
        last_of(
            history.len() as int,
            last_of(history.len() as int, history, first),
            second,
        ) == last_of(history.len() as int, history, first + second),
{
    assert(last_of(
        history.len() as int,
        last_of(history.len() as int, history, first),
        second,
    ) =~= last_of(history.len() as int, history, first + second));
}

/// A stream in two chunks turns a converter, and an output, into what the
/// undivided stream turns them into.
pub proof fn law_chunks_join<C, H, P, M: Fn(C, P) -> (C, P), D: Fn(&[C], &[H]) -> C>(
    mix: M,
    dot: D,
    stride: int,
    s: Converter<C, H, P>,
    first: Seq<C>,
    m: Converter<C, H, P>,
    second: Seq<C>,
    t: Converter<C, H, P>,
    before: Seq<C>,
    between: Seq<C>,
    after: Seq<C>,
)
    requires
        s.recent.len() == s.taps.len(),
        streamed(mix, dot, s, first, stride, m, before, between),
        streamed(mix, dot, m, second, stride, t, between, after),
    ensures
        streamed(mix, dot, s, first + second, stride, t, before, after),
{
    let (mixed_a, states_a) = choose|mixed: Seq<C>, states: Seq<P>|
        {
            &&& #[trigger] mixed_by(mix, first, mixed, states)
            &&& states[0] == s.oscillator
            &&& m.oscillator == states[first.len() as int]
            &&& m.recent == last_of(s.taps.len() as int, s.recent, mixed)
            &&& appended(
                dot,
                s.recent,
                mixed,
                paired(s.taps),
                taken(s.phase, first.len() as int, stride),
                before,
                between,
            )
        };
    let (mixed_b, states_b) = choose|mixed: Seq<C>, states: Seq<P>|
        {
            &&& #[trigger] mixed_by(mix, second, mixed, states)
            &&& states[0] == m.oscillator
            &&& t.oscillator == states[second.len() as int]
            &&& t.recent == last_of(m.taps.len() as int, m.recent, mixed)
            &&& appended(
                dot,
                m.recent,
                mixed,
                paired(m.taps),
                taken(m.phase, second.len() as int, stride),
                between,
                after,
            )
        };
    let a = first.len() as int;
    let b = second.len() as int;
    let iq = first + second;
    let mixed = mixed_a + mixed_b;
    let states = states_a.drop_last() + states_b;
    assert(mixed_by(mix, iq, mixed, states)) by {
        assert forall|i: int| #![trigger mixed[i]] 0 <= i < iq.len() implies mix.ensures(
            (iq[i], states[i]),
            (mixed[i], states[i + 1]),
        ) by {
            if i < a {
                assert(mixed[i] == mixed_a[i]);
                assert(iq[i] == first[i]);
                assert(states[i] == states_a[i]);
                assert(states[i + 1] == states_a[i + 1]);
            } else {
                let k = i - a;
                assert(mixed[i] == mixed_b[k]);
                assert(iq[i] == second[k]);
                assert(states[i] == states_b[k]);
                assert(states[i + 1] == states_b[k + 1]);
            }
        }
    }
    assert(states[0] == s.oscillator);
    assert(states[iq.len() as int] == states_b[b]);
    law_phase_survives_chunks(s.phase, a, b, stride);
    law_chunks_take_the_same_samples(s.phase, a, b, stride);
    law_history_does_not_see_chunks(s.recent, mixed_a, mixed_b);
    let due_a = taken(s.phase, a, stride);
    let due_b = taken(m.phase, b, stride);
    let due = taken(s.phase, a + b, stride);
    lemma_taken_bounds(s.phase, a, stride);
    lemma_taken_bounds(m.phase, b, stride);
    let taps = paired(s.taps);
    assert(after.take(before.len() as int) =~= before) by {
        assert forall|k: int| 0 <= k < before.len() implies after[k] == before[k] by {
            assert(after.take(between.len() as int)[k] == between[k]);
            assert(between.take(before.len() as int)[k] == before[k]);
        }
    }
    assert forall|j: int| #![trigger due[j]] 0 <= j < due.len() implies convolved(
        dot,
        window_at(s.recent, mixed, due[j]),
        taps,
        after[before.len() + j],
    ) by {
        if j < due_a.len() {
            assert(due[j] == due_a[j]);
            assert(window_at(s.recent, mixed, due_a[j]) =~= window_at(
                s.recent,
                mixed_a,
                due_a[j],
            ));
            assert(after.take(between.len() as int)[before.len() + j] == between[before.len() + j]);
        } else {
            let k = j - due_a.len();
            assert(due[j] == due_b[k] + a);
            law_windows_do_not_see_chunks(s.recent, mixed_a, mixed_b, due_b[k]);
            assert(after[before.len() + j] == after[between.len() + k]);
        }
    }
}

/// Whether mixing a sample has one result.
pub open spec fn mixes_one_way<C, P, M: Fn(C, P) -> (C, P)>(mix: M) -> bool {
    forall|c: C, p: P, x: (C, P), y: (C, P)| #[trigger]
        mix.ensures((c, p), x) && #[trigger] mix.ensures((c, p), y) ==> x == y
}

/// Whether a convolution has one result, by what is in its window and taps.
pub open spec fn convolves_one_way<C, H, D: Fn(&[C], &[H]) -> C>(dot: D) -> bool {
    forall|v: &[C], w: &[C], g: &[H], h: &[H], x: C, y: C|
        v@ == w@ && g@ == h@ && #[trigger] dot.ensures((v, g), x) && #[trigger] dot.ensures(
            (w, h),
            y,
        ) ==> x == y
}

proof fn lemma_mixed_one_way<C, P, M: Fn(C, P) -> (C, P)>(
    mix: M,
    iq: Seq<C>,
    mixed_a: Seq<C>,
    states_a: Seq<P>,
    mixed_b: Seq<C>,
    states_b: Seq<P>,
    n: int,
)
    requires
        mixes_one_way(mix),
        mixed_by(mix, iq, mixed_a, states_a),
        mixed_by(mix, iq, mixed_b, states_b),
        states_a[0] == states_b[0],
        0 <= n <= iq.len(),
    ensures
        states_a[n] == states_b[n],
        forall|i: int| 0 <= i < n ==> mixed_a[i] == mixed_b[i],
    decreases n,
{
    if n > 0 {
        lemma_mixed_one_way(mix, iq, mixed_a, states_a, mixed_b, states_b, n - 1);
        let x = (mixed_a[n - 1], states_a[n - 1 + 1]);
        let y = (mixed_b[n - 1], states_b[n - 1 + 1]);
        assert(mix.ensures((iq[n - 1], states_a[n - 1]), x));
        assert(mix.ensures((iq[n - 1], states_a[n - 1]), y));
    }
}

/// Equal converters give equal outputs for equal samples, and are equal
/// afterwards, where the arithmetic has one result.
pub proof fn law_equal_converters_agree<C, H, P, M: Fn(C, P) -> (C, P), D: Fn(&[C], &[H]) -> C>(
    mix: M,
    dot: D,
    s: Converter<C, H, P>,
    iq: Seq<C>,
    stride: int,
    t: Converter<C, H, P>,
    u: Converter<C, H, P>,
    before: Seq<C>,
    x: Seq<C>,
    y: Seq<C>,
)
    requires
        mixes_one_way(mix),
        convolves_one_way(dot),
        streamed(mix, dot, s, iq, stride, t, before, x),
        streamed(mix, dot, s, iq, stride, u, before, y),
    ensures
        t == u,
        x == y,
{
    let n = iq.len() as int;
    let due = taken(s.phase, n, stride);
    let taps = paired(s.taps);
    let (mixed_a, states_a) = choose|mixed: Seq<C>, states: Seq<P>|
        {
            &&& #[trigger] mixed_by(mix, iq, mixed, states)
            &&& states[0] == s.oscillator
            &&& t.oscillator == states[iq.len() as int]
            &&& t.recent == last_of(s.taps.len() as int, s.recent, mixed)
            &&& appended(dot, s.recent, mixed, taps, due, before, x)
        };
    let (mixed_b, states_b) = choose|mixed: Seq<C>, states: Seq<P>|
        {
            &&& #[trigger] mixed_by(mix, iq, mixed, states)
            &&& states[0] == s.oscillator
            &&& u.oscillator == states[iq.len() as int]
            &&& u.recent == last_of(s.taps.len() as int, s.recent, mixed)
            &&& appended(dot, s.recent, mixed, taps, due, before, y)
        };
    lemma_mixed_one_way(mix, iq, mixed_a, states_a, mixed_b, states_b, n);
    assert(mixed_a =~= mixed_b);
    assert forall|k: int| 0 <= k < x.len() implies x[k] == y[k] by {
        if k < before.len() {
            assert(x.take(before.len() as int)[k] == before[k]);
            assert(y.take(before.len() as int)[k] == before[k]);
        } else {
            let j = k - before.len();
            let window = window_at(s.recent, mixed_a, due[j]);
            assert(convolved(dot, window, taps, x[before.len() + j]));
            assert(convolved(dot, window, taps, y[before.len() + j]));
        }
    }
    assert(x =~= y);
    assert(t =~= u);
}

/// Whether a chain of converters takes in chunks one by one, each appending
/// to the output.
pub open spec fn streamed_in_chunks<C, H, P, M: Fn(C, P) -> (C, P), D: Fn(&[C], &[H]) -> C>(
    mix: M,
    dot: D,
    stride: int,
    converters: Seq<Converter<C, H, P>>,
    chunks: Seq<Seq<C>>,
    outputs: Seq<Seq<C>>,
) -> bool {
    &&& converters.len() == chunks.len() + 1
    &&& outputs.len() == chunks.len() + 1
    &&& forall|j: int|
        #![trigger chunks[j]]
        0 <= j < chunks.len() ==> streamed(
            mix,
            dot,
            converters[j],
            chunks[j],
            stride,
            converters[j + 1],
            outputs[j],
            outputs[j + 1],
        )
}

proof fn lemma_all_chunks_join<C, H, P, M: Fn(C, P) -> (C, P), D: Fn(&[C], &[H]) -> C>(
    mix: M,
    dot: D,
    stride: int,
    converters: Seq<Converter<C, H, P>>,
    chunks: Seq<Seq<C>>,
    outputs: Seq<Seq<C>>,
)
    requires
        streamed_in_chunks(mix, dot, stride, converters, chunks, outputs),
        converters[0].recent.len() == converters[0].taps.len(),
    ensures
        streamed(
            mix,
            dot,
            converters[0],
            joined(chunks),
            stride,
            converters.last(),
            outputs[0],
            outputs.last(),
        ),
    decreases chunks.len(),
{
    let s = converters[0];
    if chunks.len() == 0 {
        let none = Seq::<C>::empty();
        let states = seq![s.oscillator];
        assert(mixed_by(mix, joined(chunks), none, states));
        assert(last_of(s.taps.len() as int, s.recent, none) =~= s.recent);
        assert(outputs[0].take(outputs[0].len() as int) =~= outputs[0]);
    } else {
        let n = chunks.len() - 1;
        let early = chunks.drop_last();
        let front = converters.drop_last();
        let shown = outputs.drop_last();
        assert forall|j: int| #![trigger early[j]] 0 <= j < early.len() implies streamed(
            mix,
            dot,
            front[j],
            early[j],
            stride,
            front[j + 1],
            shown[j],
            shown[j + 1],
        ) by {
            assert(early[j] == chunks[j]);
        }
        lemma_all_chunks_join(mix, dot, stride, front, early, shown);
        assert(front.last() == converters[n] && shown.last() == outputs[n]);
        assert(chunks[n] == chunks.last());
        law_chunks_join(
            mix,
            dot,
            stride,
            s,
            joined(early),
            converters[n],
            chunks[n],
            converters[n + 1],
            outputs[0],
            outputs[n],
            outputs[n + 1],
        );
    }
}

/// A divided stream gives what the undivided one gives, however it is
/// divided, where the arithmetic has one result: the same samples behind what
/// the output held before, and the same converter. From a fresh start one
/// sample comes of every `stride`.
pub proof fn law_divided_stream_gives_the_same<
    C,
    H,
    P,
    M: Fn(C, P) -> (C, P),
    D: Fn(&[C], &[H]) -> C,
>(
    mix: M,
    dot: D,
    stride: int,
    converters: Seq<Converter<C, H, P>>,
    chunks: Seq<Seq<C>>,
    outputs: Seq<Seq<C>>,
    whole: Converter<C, H, P>,
    output: Seq<C>,
)
    requires
        stride >= 1,
        mixes_one_way(mix),
        convolves_one_way(dot),
        streamed_in_chunks(mix, dot, stride, converters, chunks, outputs),
        converters[0].recent.len() == converters[0].taps.len(),
        streamed(
            mix,
            dot,
            converters[0],
            joined(chunks),
            stride,
            whole,
            outputs[0],
            output,
        ),
    ensures
        outputs.last() == output,
        converters.last() == whole,
        output.take(outputs[0].len() as int) == outputs[0],
        converters[0].phase == 0 ==> output.len() == outputs[0].len() + (joined(chunks).len()
            + stride - 1) / stride,
{
    lemma_all_chunks_join(mix, dot, stride, converters, chunks, outputs);
    law_equal_converters_agree(
        mix,
        dot,
        converters[0],
        joined(chunks),
        stride,
        converters.last(),
        whole,
        outputs[0],
        outputs.last(),
        output,
    );
    law_every_stride_gives_one_output(joined(chunks).len() as int, stride);
}

/// From a fresh start the first of every `stride` samples gives an output.
pub proof fn law_every_stride_gives_one_output(n: int, stride: int)
    requires
        0 <= n,
        1 <= stride,
    ensures
        phase_after(0, n, stride) == n % stride,
        taken(0, n, stride).len() == (n + stride - 1) / stride,
        forall|j: int|
            0 <= j < taken(0, n, stride).len() ==> #[trigger] taken(0, n, stride)[j] == j * stride,
    decreases n,
{
    if n > 0 {
        law_every_stride_gives_one_output(n - 1, stride);
        let front = taken(0, n - 1, stride);
        let all = taken(0, n, stride);
        let q = (n - 1) / stride;
        let r = (n - 1) % stride;
        assert(n - 1 == q * stride + r && 0 <= r < stride) by (nonlinear_arith)
            requires
                q == (n - 1) / stride,
                r == (n - 1) % stride,
                1 <= stride,
        ;
        assert(n % stride == if r + 1 >= stride { 0 } else { r + 1 }) by (nonlinear_arith)
            requires
                n == q * stride + r + 1,
                0 <= r < stride,
                1 <= stride,
        ;
        assert((n - 1 + stride - 1) / stride == if r == 0 { q } else { q + 1 })
            by (nonlinear_arith)
            requires
                n - 1 == q * stride + r,
                0 <= r < stride,
                1 <= stride,
        ;
        assert((n + stride - 1) / stride == q + 1) by (nonlinear_arith)
            requires
                n - 1 == q * stride + r,
                0 <= r < stride,
                1 <= stride,
        ;
        assert forall|j: int| 0 <= j < all.len() implies #[trigger] all[j] == j * stride by {
            if j < front.len() {
                assert(all[j] == front[j]);
            }
        }
    } else {
        assert((stride - 1) / stride == 0 && 0int % stride == 0) by (nonlinear_arith)
            requires
                1 <= stride,
        ;
    }
}

/// The response that the probes of a sweep share, kept by the rates that it
/// was designed for.
pub struct SweepTaps<H> {
    rates: Option<(u32, u32)>,
    taps: Vec<H>,
}

impl<H: Copy> SweepTaps<H> {
    /// The rates of the response that is kept, and the response.
    pub closed spec fn held(&self) -> Option<((u32, u32), Seq<H>)> {
        match self.rates {
            Some(r) => Some((r, self.taps@)),
            None => None,
        }
    }

    pub fn new() -> (s: Self)
        ensures
            s.held() is None,
    {
        SweepTaps { rates: None, taps: Vec::new() }
    }

    /// The response for a sample rate and the rate that probes aim for; it is
    /// designed only where another one is kept.
    pub fn cached_sweep_taps<F: FnOnce(u32, u32) -> Vec<H>>(
        &mut self,
        sample_rate: u32,
        target_rate: u32,
        design: F,
    ) -> (taps: Vec<H>)
        requires
            design.requires((sample_rate, target_rate)),
        ensures
            final(self).held() == Some(((sample_rate, target_rate), taps@)),
            match old(self).held() {
                Some((rates, kept)) => if rates == (sample_rate, target_rate) {
                    taps@ == kept
                } else {
                    exists|d: Vec<H>| #[trigger]
                        design.ensures((sample_rate, target_rate), d) && taps@ == d@
                },
                None => exists|d: Vec<H>| #[trigger]
                    design.ensures((sample_rate, target_rate), d) && taps@ == d@,
            },
    {
        if let Some((rate, target)) = self.rates {
            if rate == sample_rate && target == target_rate {
                return copy_of(self.taps.as_slice());
            }
        }
        let d: Vec<H> = design(sample_rate, target_rate);
        assert(design.ensures((sample_rate, target_rate), d));
        self.rates = Some((sample_rate, target_rate));
        self.taps = copy_of(d.as_slice());
        d
    }
}

/// Mix a capture down, filter it and keep one sample out of so many, from
/// silence on.
pub fn ddc_and_decimate<C: Copy, H: Copy, P: Copy, M: Fn(C, P) -> (C, P), D: Fn(&[C], &[H]) -> C>(
    iq: &[C],
    taps: Vec<H>,
    phasor: P,
    zero: C,
    decimation_factor: usize,
    mix: M,
    dot: D,
) -> (output: Vec<C>)
    requires
        taps.len() >= MIN_FIR_TAPS,
        2 * taps.len() <= usize::MAX,
        forall|c: C, p: P| #[trigger] mix.requires((c, p)),
        forall|w: &[C], h: &[H]| #[trigger] dot.requires((w, h)),
    ensures
        exists|mixed: Seq<C>, states: Seq<P>|
            {
                &&& #[trigger] mixed_by(mix, iq@, mixed, states)
                &&& states[0] == phasor
                &&& appended(
                    dot,
                    Seq::new(taps@.len(), |i: int| zero),
                    mixed,
                    paired(taps@),
                    taken(0, iq.len() as int, max(decimation_factor as int, 1)),
                    Seq::empty(),
                    output@,
                )
            },
{
    let mut ddc: StreamingDDC<C, H, P> = StreamingDDC::from_designed_taps(taps, phasor, zero);
    ddc.process_decimated(iq, decimation_factor, mix, dot)
}

/// Each tap stands twice, and the last of the response comes first: the window
/// is read oldest sample first.
pub proof fn law_taps_run_against_the_window<H>(taps: Seq<H>, k: int)
    requires
        0 <= k < taps.len(),
    ensures
        paired(taps).len() == 2 * taps.len(),
        paired(taps)[2 * k] == taps[taps.len() - 1 - k],
        paired(taps)[2 * k + 1] == taps[taps.len() - 1 - k],
{
    assert((2 * k) / 2 == k && (2 * k + 1) / 2 == k);
}

/// A window ends with the sample that it belongs to and holds those right
/// before it: fresh ones as far as there are any, then the last of the
/// history.
pub proof fn law_windows_end_with_their_sample<C>(
    history: Seq<C>,
    fresh: Seq<C>,
    i: int,
    back: int,
)
    requires
        0 <= i < fresh.len(),
        0 <= back < history.len(),
    ensures
        ({
            let w = window_at(history, fresh, i);
            &&& w.len() == history.len()
            &&& back <= i ==> w[w.len() - 1 - back] == fresh[i - back]
            &&& back > i ==> w[w.len() - 1 - back] == history[history.len() + i - back]
        }),
{
}

/// A sample gives an output exactly where the counter stands at zero before
/// it; outputs come in the order of their samples.
pub proof fn law_samples_at_zero_are_taken(phase: int, n: int, stride: int, i: int)
    requires
        0 <= i < n,
    ensures
        taken(phase, n, stride).contains(i) <==> phase_after(phase, i, stride) == 0,
        forall|a: int, b: int|
            0 <= a < b < taken(phase, n, stride).len() ==> 0 <= #[trigger] taken(
                phase,
                n,
                stride,
            )[a] < #[trigger] taken(phase, n, stride)[b] < n,
    decreases n,
{
    lemma_taken_ascends(phase, n, stride);
    let all = taken(phase, n, stride);
    let before = taken(phase, n - 1, stride);
    lemma_taken_ascends(phase, n - 1, stride);
    if i < n - 1 {
        law_samples_at_zero_are_taken(phase, n - 1, stride, i);
        if before.contains(i) {
            let k = choose|k: int| 0 <= k < before.len() && before[k] == i;
            assert(all[k] == i);
        }
        if all.contains(i) {
            let k = choose|k: int| 0 <= k < all.len() && all[k] == i;
            assert(k < before.len());
            assert(before[k] == i);
        }
    } else {
        if phase_after(phase, n - 1, stride) == 0 {
            assert(all[before.len() as int] == n - 1);
        } else if all.contains(i) {
            let k = choose|k: int| 0 <= k < all.len() && all[k] == i;
            assert(before[k] < n - 1);
        }
    }
}

proof fn lemma_taken_ascends(phase: int, n: int, stride: int)
    ensures
        forall|a: int|
            0 <= a < taken(phase, n, stride).len() ==> 0 <= #[trigger] taken(phase, n, stride)[a]
                < n,
        forall|a: int, b: int|
            0 <= a < b < taken(phase, n, stride).len() ==> #[trigger] taken(phase, n, stride)[a]
                < #[trigger] taken(phase, n, stride)[b],
    decreases n,
{
    if n > 0 {
        lemma_taken_ascends(phase, n - 1, stride);
        let before = taken(phase, n - 1, stride);
        let all = taken(phase, n, stride);
        assert(all == before || all == before.push(n - 1));
        assert forall|a: int| 0 <= a < all.len() implies 0 <= #[trigger] all[a] < n by {
            if a < before.len() {
                assert(all[a] == before[a]);
            }
        }
        assert forall|a: int, b: int| 0 <= a < b < all.len() implies #[trigger] all[a]
            < #[trigger] all[b] by {
            assert(all[a] == before[a]);
            if b < before.len() {
                assert(all[b] == before[b]);
            }
        }
    }
}

} // verus!
