//! Impairments of a radio link: where they strike a capture, and in what
//! order noise is drawn for them. What they do to a sample is the caller's.

use vstd::prelude::*;

use crate::levels::min;
use crate::seqs::copy_of;
use crate::synthetic::{deviate, drawn, gaussian_noise, lemma_draw_sum_bounds, lemma_drawn_adds};

verus! {

/// Whether `v` is what the first `k` echoes make of a sample. An echo adds
/// the undisturbed sample that lies its delay back, where there is one.
pub open spec fn echoed<S, E: Fn(S, S, usize, usize) -> S>(
    echo: E,
    original: Seq<S>,
    delays: Seq<usize>,
    k: int,
    i: int,
    v: S,
) -> bool
    decreases k,
{
    if k <= 0 {
        v == original[i]
    } else if i < delays[k - 1] {
        echoed(echo, original, delays, k - 1, i, v)
    } else {
        exists|u: S|
            echoed(echo, original, delays, k - 1, i, u) && #[trigger] echo.ensures(
                (u, original[i - delays[k - 1]], (k - 1) as usize, i as usize),
                v,
            )
    }
}

/// Add echoes, each with a delay in samples. `echo` adds to a sample what an
/// echo brings to it, given which echo and which sample it is.
pub fn add_multipath<S: Copy, E: Fn(S, S, usize, usize) -> S>(
    iq: &mut [S],
    delays: &Vec<usize>,
    echo: E,
)
    requires
        forall|a: S, b: S, k: usize, i: usize| #[trigger] echo.requires((a, b, k, i)),
    ensures
        final(iq).len() == old(iq).len(),
        forall|i: int|
            0 <= i < old(iq).len() ==> echoed(
                echo,
                old(iq)@,
                delays@,
                delays.len() as int,
                i,
                #[trigger] final(iq)@[i],
            ),
{
    let ghost before = iq@;
    let original: Vec<S> = copy_of(iq);
    let n: usize = iq.len();
    let mut k: usize = 0;
    while k < delays.len()
        invariant
            k <= delays.len(),
            n == iq.len(),
            n == before.len(),
            original@ == before,
            forall|a: S, b: S, k: usize, i: usize| #[trigger] echo.requires((a, b, k, i)),
            forall|i: int|
                0 <= i < n ==> echoed(echo, before, delays@, k as int, i, #[trigger] iq@[i]),
        decreases delays.len() - k,
    {
        let delay: usize = delays[k];
        let mut i: usize = delay;
        while i < n
            invariant
                k < delays.len(),
                delay == delays[k as int],
                delay <= i,
                n == iq.len(),
                n == before.len(),
                original@ == before,
                forall|a: S, b: S, k: usize, i: usize| #[trigger] echo.requires((a, b, k, i)),
                forall|j: int|
                    0 <= j < n && (j < delay || j >= i) ==> echoed(
                        echo,
                        before,
                        delays@,
                        k as int,
                        j,
                        #[trigger] iq@[j],
                    ),
                forall|j: int|
                    delay <= j < i && j < n ==> echoed(
                        echo,
                        before,
                        delays@,
                        k + 1,
                        j,
                        #[trigger] iq@[j],
                    ),
            decreases n - i,
        {
            let ghost u = iq@[i as int];
            let v: S = echo(iq[i], original[i - delay], k, i);
            proof {
                assert(echo.ensures((u, before[i - delay], k, i), v));
                assert(echoed(echo, before, delays@, k + 1, i as int, v));
            }
            iq[i] = v;
            i += 1;
        }
        assert forall|j: int| 0 <= j < n implies echoed(
            echo,
            before,
            delays@,
            k + 1,
            j,
            #[trigger] iq@[j],
        ) by {
            if j < delay {
                assert(echoed(echo, before, delays@, k as int, j, iq@[j]));
            }
        }
        k += 1;
    }
}

/// The samples of a capture of `n` that a run of dropout covers, in order.
pub open spec fn run_samples(n: int, run: (usize, usize)) -> Seq<usize> {
    let end = min(run.0 + run.1, n);
    if end <= run.0 {
        Seq::empty()
    } else {
        Seq::new((end - run.0) as nat, |k: int| (run.0 + k) as usize)
    }
}

/// The samples that runs of dropout cover, run by run.
pub open spec fn dropout_samples(n: int, runs: Seq<(usize, usize)>) -> Seq<usize>
    decreases runs.len(),
{
    if runs.len() == 0 {
        Seq::empty()
    } else {
        dropout_samples(n, runs.drop_last()) + run_samples(n, runs.last())
    }
}

/// The samples that are replaced by noise, in the order in which noise is
/// drawn for them. Runs are (start, length) and end with the capture at the
/// latest.
pub fn burst_dropout_samples(n: usize, runs: &Vec<(usize, usize)>) -> (at: Vec<usize>)
    requires
        forall|k: int|
            0 <= k < runs.len() ==> (#[trigger] runs[k]).0 <= n && runs[k].0 + runs[k].1
                <= usize::MAX,
    ensures
        at@ == dropout_samples(n as int, runs@),
        forall|k: int| 0 <= k < at.len() ==> #[trigger] at[k] < n,
{
    let mut at: Vec<usize> = Vec::new();
    let mut r: usize = 0;
    while r < runs.len()
        invariant
            r <= runs.len(),
            forall|k: int|
                0 <= k < runs.len() ==> (#[trigger] runs[k]).0 <= n && runs[k].0 + runs[k].1
                    <= usize::MAX,
            at@ == dropout_samples(n as int, runs@.take(r as int)),
            forall|k: int| 0 <= k < at.len() ==> #[trigger] at[k] < n,
        decreases runs.len() - r,
    {
        let ghost before = at@;
        let (start, len): (usize, usize) = runs[r];
        let end: usize = if start + len <= n {
            start + len
        } else {
            n
        };
        let ghost part = run_samples(n as int, (start, len));
        let mut i: usize = start;
        assert(before + part.take(0) =~= before);
        while i < end
            invariant
                start <= i <= end <= n,
                end == min(start + len, n as int),
                part == run_samples(n as int, (start, len)),
                at@ == before + part.take(i - start),
                forall|k: int| 0 <= k < at.len() ==> #[trigger] at[k] < n,
            decreases end - i,
        {
            at.push(i);
            i += 1;
            assert(at@ =~= before + part.take(i - start));
        }
        proof {
            assert(part.take(i - start) =~= part);
            assert(runs@.take(r + 1).drop_last() =~= runs@.take(r as int));
            assert(runs@.take(r + 1).last() == runs@[r as int]);
        }
        r += 1;
    }
    assert(runs@.take(runs.len() as int) =~= runs@);
    at
}

/// Whether a sample is what the first `m` replacements leave of it: the last
/// of them that covers it, or the sample itself.
pub open spec fn replaced<S, N: Fn(i128, i128) -> S>(
    noise: N,
    original: Seq<S>,
    at: Seq<usize>,
    seed: u64,
    m: int,
    i: int,
    v: S,
) -> bool
    decreases m,
{
    if m <= 0 {
        v == original[i]
    } else if at[m - 1] == i {
        noise.ensures(
            (
                deviate(drawn(seed, (24 * (m - 1)) as nat)) as i128,
                deviate(drawn(seed, (24 * (m - 1) + 12) as nat)) as i128,
            ),
            v,
        )
    } else {
        replaced(noise, original, at, seed, m - 1, i, v)
    }
}

/// Replace runs of samples by noise. `noise` makes a sample of two nearly
/// Gaussian numbers, in units of one over `u64::MAX`.
pub fn add_burst_dropouts<S: Copy, N: Fn(i128, i128) -> S>(
    iq: &mut [S],
    runs: &Vec<(usize, usize)>,
    seed: &mut u64,
    noise: N,
)
    requires
        forall|k: int|
            0 <= k < runs.len() ==> (#[trigger] runs[k]).0 <= old(iq).len() && runs[k].0
                + runs[k].1 <= usize::MAX,
        forall|re: i128, im: i128| #[trigger] noise.requires((re, im)),
    ensures
        final(iq).len() == old(iq).len(),
        ({
            let at = dropout_samples(old(iq).len() as int, runs@);
            &&& *final(seed) == drawn(*old(seed), (24 * at.len()) as nat)
            &&& forall|i: int|
                0 <= i < old(iq).len() ==> replaced(
                    noise,
                    old(iq)@,
                    at,
                    *old(seed),
                    at.len() as int,
                    i,
                    #[trigger] final(iq)@[i],
                )
        }),
{
    let ghost before = iq@;
    let ghost begin = *seed;
    let n: usize = iq.len();
    let at: Vec<usize> = burst_dropout_samples(n, runs);
    let mut m: usize = 0;
    while m < at.len()
        invariant
            m <= at.len(),
            n == iq.len(),
            n == before.len(),
            forall|k: int| 0 <= k < at.len() ==> #[trigger] at[k] < n,
            *seed == drawn(begin, (24 * m) as nat),
            forall|re: i128, im: i128| #[trigger] noise.requires((re, im)),
            forall|i: int|
                0 <= i < n ==> replaced(
                    noise,
                    before,
                    at@,
                    begin,
                    m as int,
                    i,
                    #[trigger] iq@[i],
                ),
        decreases at.len() - m,
    {
        proof {
            lemma_drawn_adds(begin, (24 * m) as nat, 12);
            lemma_drawn_adds(begin, (24 * m + 12) as nat, 12);
        }
        let re: i128 = gaussian_noise(seed);
        let im: i128 = gaussian_noise(seed);
        let ghost held = iq@;
        let v: S = noise(re, im);
        let i: usize = at[m];
        iq[i] = v;
        proof {
            assert forall|j: int| 0 <= j < n implies replaced(
                noise,
                before,
                at@,
                begin,
                m + 1,
                j,
                #[trigger] iq@[j],
            ) by {
                if j != i {
                    assert(iq@[j] == held[j]);
                    assert(replaced(noise, before, at@, begin, m as int, j, held[j]));
                }
            }
        }
        m += 1;
    }
}

/// Scale every sample by an envelope. `scale` gives what becomes of a sample
/// at its place.
pub fn add_slow_fade<S: Copy, F: Fn(S, usize) -> S>(iq: &mut [S], scale: F)
    requires
        forall|s: S, i: usize| #[trigger] scale.requires((s, i)),
    ensures
        final(iq).len() == old(iq).len(),
        forall|i: int|
            0 <= i < old(iq).len() ==> scale.ensures(
                (old(iq)@[i], i as usize),
                #[trigger] final(iq)@[i],
            ),
{
    let ghost before = iq@;
    let n: usize = iq.len();
    let mut i: usize = 0;
    while i < n
        invariant
            i <= n,
            n == iq.len(),
            n == before.len(),
            forall|s: S, i: usize| #[trigger] scale.requires((s, i)),
            forall|k: int|
                0 <= k < i ==> scale.ensures((before[k], k as usize), #[trigger] iq@[k]),
            forall|k: int| i <= k < n ==> #[trigger] iq@[k] == before[k],
        decreases n - i,
    {
        let v: S = scale(iq[i], i);
        iq[i] = v;
        i += 1;
    }
}

/// Whether a sample is struck: a nearly Gaussian number, brought to between
/// zero and one, lies below the probability in billionths.
pub open spec fn struck(state: u64, probability_ppb: int) -> bool {
    (deviate(state) + 6 * u64::MAX) * 1_000_000_000 < probability_ppb * (12 * u64::MAX)
}

/// The state of the noise sequence before sample `i`: a strike draws twice.
pub open spec fn state_before(seed: u64, probability_ppb: int, i: int) -> u64
    decreases i,
{
    if i <= 0 {
        seed
    } else {
        let s = state_before(seed, probability_ppb, i - 1);
        drawn(
            s,
            if struck(s, probability_ppb) {
                24
            } else {
                12
            },
        )
    }
}

/// Strike samples at random, as the sparks of a motor do. `spike` adds to a
/// sample a spike whose phase is a nearly Gaussian number of half-turns, in
/// units of one over `u64::MAX`.
pub fn add_impulsive_noise<S: Copy, K: Fn(S, i128) -> S>(
    iq: &mut [S],
    probability_ppb: u32,
    seed: &mut u64,
    spike: K,
)
    requires
        forall|s: S, d: i128| #[trigger] spike.requires((s, d)),
    ensures
        final(iq).len() == old(iq).len(),
        *final(seed) == state_before(*old(seed), probability_ppb as int, old(iq).len() as int),
        forall|i: int|
            #![trigger final(iq)@[i]]
            0 <= i < old(iq).len() ==> ({
                let s = state_before(*old(seed), probability_ppb as int, i);
                if struck(s, probability_ppb as int) {
                    spike.ensures((old(iq)@[i], deviate(drawn(s, 12)) as i128), final(iq)@[i])
                } else {
                    final(iq)@[i] == old(iq)@[i]
                }
            }),
{
    let ghost before = iq@;
    let ghost begin = *seed;
    let ghost p = probability_ppb as int;
    let n: usize = iq.len();
    let mut i: usize = 0;
    while i < n
        invariant
            i <= n,
            n == iq.len(),
            n == before.len(),
            p == probability_ppb,
            *seed == state_before(begin, p, i as int),
            forall|s: S, d: i128| #[trigger] spike.requires((s, d)),
            forall|k: int| i <= k < n ==> #[trigger] iq@[k] == before[k],
            forall|k: int|
                #![trigger iq@[k]]
                0 <= k < i ==> ({
                    let s = state_before(begin, p, k);
                    if struck(s, p) {
                        spike.ensures((before[k], deviate(drawn(s, 12)) as i128), iq@[k])
                    } else {
                        iq@[k] == before[k]
                    }
                }),
        decreases n - i,
    {
        let ghost s = *seed;
        proof {
            lemma_drawn_adds(s, 12, 12);
        }
        let d: i128 = gaussian_noise(seed);
        let chance: i128 = (d + 6 * (u64::MAX as i128)) * 1_000_000_000;
        if chance < probability_ppb as i128 * (12 * (u64::MAX as i128)) {
            let phase: i128 = gaussian_noise(seed);
            let v: S = spike(iq[i], phase);
            iq[i] = v;
        }
        i += 1;
    }
}

/// At a probability of zero nothing is struck, and every sample draws once.
pub proof fn law_no_probability_strikes_nothing(seed: u64, i: int)
    requires
        0 <= i,
    ensures
        !struck(state_before(seed, 0, i), 0),
        state_before(seed, 0, i) == drawn(seed, (12 * i) as nat),
    decreases i,
{
    lemma_draw_sum_bounds(state_before(seed, 0, i), 12);
    if i > 0 {
        law_no_probability_strikes_nothing(seed, i - 1);
        lemma_drawn_adds(seed, (12 * (i - 1)) as nat, 12);
    }
}

/// A run covers exactly the samples of the capture from its start up to its
/// end.
pub proof fn law_runs_cover_their_samples(n: int, run: (usize, usize), i: usize)
    requires
        run.0 + run.1 <= usize::MAX,
    ensures
        run_samples(n, run).contains(i) <==> run.0 <= i < run.0 + run.1 && i < n,
        run_samples(n, run).no_duplicates(),
{
    if run.0 <= i < run.0 + run.1 && i < n {
        assert(run_samples(n, run)[i - run.0] == i);
    }
}

/// A sample is in a dropout exactly where one of the runs covers it.
pub proof fn law_dropouts_are_the_runs(n: int, runs: Seq<(usize, usize)>, i: usize)
    requires
        forall|k: int| 0 <= k < runs.len() ==> (#[trigger] runs[k]).0 + runs[k].1 <= usize::MAX,
    ensures
        dropout_samples(n, runs).contains(i) <==> i < n && exists|k: int|
            0 <= k < runs.len() && (#[trigger] runs[k]).0 <= i < runs[k].0 + runs[k].1,
    decreases runs.len(),
{
    if runs.len() > 0 {
        let rest = runs.drop_last();
        let last = runs.last();
        assert(runs[runs.len() - 1] == last);
        assert forall|k: int| 0 <= k < rest.len() implies (#[trigger] rest[k]).0 + rest[k].1
            <= usize::MAX by {
            assert(rest[k] == runs[k]);
        }
        law_dropouts_are_the_runs(n, rest, i);
        law_runs_cover_their_samples(n, last, i);
        let a = dropout_samples(n, rest);
        let b = run_samples(n, last);
        if (a + b).contains(i) {
            let j = choose|j: int| 0 <= j < (a + b).len() && (a + b)[j] == i;
            if j < a.len() {
                assert(a.contains(i)) by {
                    assert(a[j] == i);
                }
                let k = choose|k: int|
                    0 <= k < rest.len() && (#[trigger] rest[k]).0 <= i < rest[k].0 + rest[k].1;
                assert(runs[k] == rest[k]);
            } else {
                assert(b[j - a.len()] == i);
                assert(b.contains(i));
            }
        }
        if i < n && exists|k: int|
            0 <= k < runs.len() && (#[trigger] runs[k]).0 <= i < runs[k].0 + runs[k].1 {
            let k = choose|k: int|
                0 <= k < runs.len() && (#[trigger] runs[k]).0 <= i < runs[k].0 + runs[k].1;
            if k < rest.len() {
                assert(rest[k] == runs[k]);
                let j = choose|j: int| 0 <= j < a.len() && a[j] == i;
                assert((a + b)[j] == i);
            } else {
                let j = choose|j: int| 0 <= j < b.len() && b[j] == i;
                assert((a + b)[a.len() + j] == i);
            }
        }
    }
}

/// A sample outside all dropouts stays as it was.
pub proof fn law_other_samples_stay<S, N: Fn(i128, i128) -> S>(
    noise: N,
    original: Seq<S>,
    at: Seq<usize>,
    seed: u64,
    m: int,
    i: int,
    v: S,
)
    requires
        0 <= m <= at.len(),
        replaced(noise, original, at, seed, m, i, v),
        forall|k: int| 0 <= k < m ==> #[trigger] at[k] != i,
    ensures
        v == original[i],
    decreases m,
{
    if m > 0 {
        assert(at[m - 1] != i);
        law_other_samples_stay(noise, original, at, seed, m - 1, i, v);
    }
}

/// A sample that no echo reaches yet stays as it was.
pub proof fn law_echoes_come_after_their_delay<S, E: Fn(S, S, usize, usize) -> S>(
    echo: E,
    original: Seq<S>,
    delays: Seq<usize>,
    k: int,
    i: int,
    v: S,
)
    requires
        0 <= k <= delays.len(),
        echoed(echo, original, delays, k, i, v),
        forall|j: int| 0 <= j < k ==> i < #[trigger] delays[j],
    ensures
        v == original[i],
    decreases k,
{
    if k > 0 {
        assert(i < delays[k - 1]);
        law_echoes_come_after_their_delay(echo, original, delays, k - 1, i, v);
    }
}

/// What is struck at one probability is struck at every higher one.
pub proof fn law_strikes_grow_with_probability(state: u64, lower: int, higher: int)
    requires
        lower <= higher,
        struck(state, lower),
    ensures
        struck(state, higher),
{
    assert(lower * (12 * u64::MAX) <= higher * (12 * u64::MAX)) by (nonlinear_arith)
        requires
            lower <= higher,
    ;
}

/// A deviate in the middle of its range is struck exactly at a probability
/// above one half.
pub proof fn law_middling_deviates_are_struck_above_half(state: u64, probability_ppb: int)
    requires
        deviate(state) == 0,
    ensures
        struck(state, probability_ppb) <==> probability_ppb > 500_000_000,
{
}

} // verus!
