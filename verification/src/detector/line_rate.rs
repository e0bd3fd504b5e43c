//! PAL or NTSC from the spacing of sync pulses.

use vstd::prelude::*;

use crate::levels::{
    as_pairs, averaged, lemma_low_runs_inside, low_runs, max, min, moving_average,
    robust_sync_threshold, run_end, samples_in_tenth_us, scan_low_runs, smoothing_samples,
    smoothing_window, sync_threshold, tenth_us,
};
use crate::offset::{
    can_raise, lemma_averaged_raised, lemma_low_runs_raised, lemma_ranked, lemma_threshold_raised,
    raised,
};
use crate::stats::{abs, law_median_stays_among_the_values, median, median_of};
use crate::types::SignalType;

verus! {

/// The runs that neither end of the scanned slice cuts off.
pub open spec fn whole_runs(runs: Seq<(int, int)>, n: int) -> Seq<(int, int)> {
    runs.filter(|r: (int, int)| 0 < r.0 && r.1 < n)
}

pub open spec fn widths(runs: Seq<(int, int)>) -> Seq<i64> {
    runs.map_values(|r: (int, int)| (r.1 - r.0) as i64)
}

/// Where the pulses are: the middle of each run. Both edges are steep, so
/// the middle is steadier than the lowest sample.
pub open spec fn middles(runs: Seq<(int, int)>) -> Seq<i64> {
    runs.map_values(|r: (int, int)| ((r.0 + r.1) / 2) as i64)
}

/// The distances between neighbours that are from `least` to `most`.
pub open spec fn spacings(s: Seq<i64>, least: int, most: int) -> Seq<i64>
    decreases s.len(),
{
    if s.len() < 2 {
        Seq::empty()
    } else {
        let front = spacings(s.drop_last(), least, most);
        let gap = s[s.len() - 1] - s[s.len() - 2];
        if least <= gap <= most {
            front.push(gap as i64)
        } else {
            front
        }
    }
}

/// The spacings within one percent of the median, or within one sample.
pub open spec fn agreeing(gaps: Seq<i64>) -> Seq<i64> {
    gaps.filter(|g: i64| 100 * abs(g - median_of(gaps)) <= max(median_of(gaps), 100))
}

pub open spec fn total(s: Seq<i64>) -> int
    decreases s.len(),
{
    if s.len() == 0 {
        0
    } else {
        total(s.drop_last()) + s.last()
    }
}

/// The standard whose line rate is nearest to `cycles` lines in `span`
/// samples, which is `sample_rate * cycles / span` Hz. Nothing outside 15.4
/// to 16 kHz, nor within 30 Hz of the midpoint between the two standards.
pub open spec fn nearest_standard(sample_rate: int, cycles: int, span: int) -> Option<SignalType> {
    let rate2 = 2 * (sample_rate * cycles);
    if !(30_800 * span <= rate2 <= 32_000 * span) {
        None
    } else if abs(rate2 - 31_359 * span) < 60 * span {
        None
    } else if rate2 < 31_359 * span {
        Some(SignalType::AnalogVideoPal)
    } else {
        Some(SignalType::AnalogVideoNtsc)
    }
}

/// The standard that the pulses of a slice of `n` samples show. Sync pulses
/// are narrow: the median run takes at most 8 microseconds. Lines last 55 to
/// 75 microseconds; eight must be seen, and two thirds of them must agree.
pub open spec fn standard_of_runs(runs: Seq<(int, int)>, n: int, sample_rate: int) -> Option<
    SignalType,
> {
    let whole = whole_runs(runs, n);
    let gaps = spacings(middles(whole), tenth_us(sample_rate, 550), tenth_us(sample_rate, 750));
    let agreed = agreeing(gaps);
    if whole.len() == 0 || median_of(widths(whole)) > tenth_us(sample_rate, 80) || gaps.len() < 8
        || median_of(gaps) <= 0 || 3 * agreed.len() < 2 * gaps.len() {
        None
    } else {
        nearest_standard(sample_rate, agreed.len() as int, total(agreed))
    }
}

/// How many samples are scanned: 5 ms at most.
pub open spec fn scan_length(n: int, sample_rate: int) -> int {
    min(sample_rate / 200, n)
}

/// The standard that the line spacing of a demodulated slice shows.
pub open spec fn standard_in_time(demod: Seq<i32>, sample_rate: int) -> Option<SignalType> {
    let n = scan_length(demod.len() as int, sample_rate);
    let smoothed = averaged(demod.take(n), smoothing_window(sample_rate));
    if demod.len() < sample_rate / 5_000 {
        None
    } else {
        match sync_threshold(smoothed) {
            None => None,
            Some(t) => standard_of_runs(
                low_runs(smoothed, t, tenth_us(sample_rate, 300), 0),
                n,
                sample_rate,
            ),
        }
    }
}

/// The standard whose line rate is nearest to `cycles` lines in `span`
/// samples.
pub fn standard_at_rate(sample_rate: u32, cycles: u64, span: u64) -> (s: Option<SignalType>)
    ensures
        s == nearest_standard(sample_rate as int, cycles as int, span as int),
{
    assert(0 <= sample_rate * cycles <= u32::MAX * u64::MAX) by (nonlinear_arith);
    let rate2: i128 = 2 * (sample_rate as i128 * cycles as i128);
    let span: i128 = span as i128;
    if !(30_800 * span <= rate2 && rate2 <= 32_000 * span) {
        return None;
    }
    let off: i128 = rate2 - 31_359 * span;
    if -(60 * span) < off && off < 60 * span {
        None
    } else if off < 0 {
        Some(SignalType::AnalogVideoPal)
    } else {
        Some(SignalType::AnalogVideoNtsc)
    }
}

/// Distances between neighbouring positions that are from `least` to `most`.
pub(crate) fn line_spacings(s: &Vec<i64>, least: i64, most: i64) -> (gaps: Vec<i64>)
    requires
        forall|k: int| 0 <= k < s.len() ==> 0 <= #[trigger] s[k],
    ensures
        gaps@ == spacings(s@, least as int, most as int),
        gaps.len() <= s.len(),
        forall|k: int| 0 <= k < gaps.len() ==> least <= #[trigger] gaps[k] <= most,
{
    let mut gaps: Vec<i64> = Vec::new();
    let mut i: usize = 1;
    assert(s@.take(min(1, s.len() as int)).len() < 2);
    while i < s.len()
        invariant
            1 <= i,
            i <= s.len() || s.len() == 0,
            forall|k: int| 0 <= k < s.len() ==> 0 <= #[trigger] s[k],
            gaps@ == spacings(s@.take(min(i as int, s.len() as int)), least as int, most as int),
            gaps.len() < i,
            forall|k: int| 0 <= k < gaps.len() ==> least <= #[trigger] gaps[k] <= most,
        decreases s.len() - i,
    {
        assert(0 <= s[i as int] && 0 <= s[i - 1]);
        let gap: i64 = s[i] - s[i - 1];
        proof {
            let t = s@.take(i + 1);
            assert(t.drop_last() =~= s@.take(i as int));
            assert(t[t.len() - 1] == s[i as int] && t[t.len() - 2] == s[i - 1]);
        }
        if least <= gap && gap <= most {
            gaps.push(gap);
        }
        i += 1;
    }
    assert(s@.take(s.len() as int) =~= s@);
    gaps
}

fn agreed_spacings(gaps: &Vec<i64>, center: i64) -> (r: (u64, u64))
    requires
        center == median_of(gaps@),
        0 <= center < 0x4000_0000,
        gaps.len() <= 0x4000_0000,
        forall|k: int| 0 <= k < gaps.len() ==> 0 <= #[trigger] gaps[k] < 0x4000_0000,
    ensures
        r.0 == agreeing(gaps@).len(),
        r.1 == total(agreeing(gaps@)),
{
    let wide: i64 = if center > 100 {
        center
    } else {
        100
    };
    let ghost keep = |g: i64| 100 * abs(g - median_of(gaps@)) <= max(median_of(gaps@), 100);
    let mut count: u64 = 0;
    let mut span: u64 = 0;
    let mut i: usize = 0;
    proof {
        reveal(Seq::filter);
    }
    while i < gaps.len()
        invariant
            i <= gaps.len() <= 0x4000_0000,
            center == median_of(gaps@),
            0 <= center < 0x4000_0000,
            wide == max(center as int, 100),
            forall|k: int| 0 <= k < gaps.len() ==> 0 <= #[trigger] gaps[k] < 0x4000_0000,
            keep == (|g: i64| 100 * abs(g - median_of(gaps@)) <= max(median_of(gaps@), 100)),
            count == gaps@.take(i as int).filter(keep).len(),
            span == total(gaps@.take(i as int).filter(keep)),
            count <= i,
            span <= i * 0x4000_0000,
        decreases gaps.len() - i,
    {
        let g: i64 = gaps[i];
        assert(0 <= gaps[i as int] < 0x4000_0000);
        let off: i64 = if g >= center {
            g - center
        } else {
            center - g
        };
        let ghost held = gaps@.take(i as int).filter(keep);
        proof {
            reveal(Seq::filter);
            assert(gaps@.take(i + 1).drop_last() =~= gaps@.take(i as int));
            assert(held.push(g).drop_last() =~= held);
        }
        if 100 * off <= wide {
            count += 1;
            span += g as u64;
        }
        i += 1;
    }
    assert(gaps@.take(i as int) =~= gaps@);
    (count, span)
}

/// The standard that the pulses of a slice of `n` samples show.
fn standard_from_runs(runs: &Vec<(usize, usize)>, n: usize, sample_rate: u32) -> (s: Option<
    SignalType,
>)
    requires
        n < 0x2000_0000,
        runs.len() <= 0x4000_0000,
        forall|k: int|
            0 <= k < runs.len() ==> (#[trigger] runs[k]).0 < runs[k].1 && runs[k].1 <= n,
    ensures
        s == standard_of_runs(as_pairs(runs@), n as int, sample_rate as int),
{
    let ghost pairs = as_pairs(runs@);
    let ghost keep = |r: (int, int)| 0 < r.0 && r.1 < n;
    let mut widths_seen: Vec<i64> = Vec::new();
    let mut middles_seen: Vec<i64> = Vec::new();
    let mut i: usize = 0;
    proof {
        reveal(Seq::filter);
        assert(widths_seen@ =~= widths(pairs.take(0).filter(keep)));
        assert(middles_seen@ =~= middles(pairs.take(0).filter(keep)));
    }
    while i < runs.len()
        invariant
            i <= runs.len(),
            n < 0x2000_0000,
            forall|k: int|
                0 <= k < runs.len() ==> (#[trigger] runs[k]).0 < runs[k].1 && runs[k].1 <= n,
            pairs == as_pairs(runs@),
            keep == (|r: (int, int)| 0 < r.0 && r.1 < n),
            widths_seen@ == widths(pairs.take(i as int).filter(keep)),
            middles_seen@ == middles(pairs.take(i as int).filter(keep)),
            widths_seen.len() <= i,
            forall|k: int| 0 <= k < middles_seen.len() ==> 0 <= #[trigger] middles_seen[k] < 0x2000_0000,
        decreases runs.len() - i,
    {
        let (start, end) = runs[i];
        assert(runs[i as int].0 < runs[i as int].1);
        let ghost held = pairs.take(i as int).filter(keep);
        let ghost run = (start as int, end as int);
        proof {
            reveal(Seq::filter);
            assert(pairs.take(i + 1).drop_last() =~= pairs.take(i as int));
            assert(pairs[i as int] == run);
        }
        if start > 0 && end < n {
            widths_seen.push((end - start) as i64);
            middles_seen.push(((start + end) / 2) as i64);
            assert(widths_seen@ =~= widths(held.push(run)));
            assert(middles_seen@ =~= middles(held.push(run)));
        }
        i += 1;
    }
    assert(pairs.take(i as int) =~= pairs);
    let ghost whole = whole_runs(pairs, n as int);
    assert(whole == pairs.filter(keep));
    if widths_seen.len() == 0 {
        return None;
    }
    if median(&widths_seen) > samples_in_tenth_us(sample_rate, 80) as i64 {
        return None;
    }
    let least: i64 = samples_in_tenth_us(sample_rate, 550) as i64;
    let most: i64 = samples_in_tenth_us(sample_rate, 750) as i64;
    let gaps: Vec<i64> = line_spacings(&middles_seen, least, most);
    if gaps.len() < 8 {
        return None;
    }
    let center: i64 = median(&gaps);
    if center <= 0 {
        return None;
    }
    proof {
        lemma_ranked(gaps@, gaps.len() as int / 2);
    }
    let (count, span) = agreed_spacings(&gaps, center);
    if 3 * count < 2 * (gaps.len() as u64) {
        return None;
    }
    standard_at_rate(sample_rate, count, span)
}

/// The standard that the line spacing of a demodulated slice shows.
pub fn classify_pal_ntsc_time_domain(demod: &[i32], sample_rate: u32) -> (s: Option<SignalType>)
    ensures
        s == standard_in_time(demod@, sample_rate as int),
{
    let len: usize = demod.len();
    if len < (sample_rate / 5_000) as usize {
        return None;
    }
    let limit: usize = (sample_rate / 200) as usize;
    let n: usize = if limit <= len {
        limit
    } else {
        len
    };
    let head: &[i32] = vstd::slice::slice_subrange(demod, 0, n);
    assert(head@ =~= demod@.take(n as int));
    let smoothed: Vec<i32> = moving_average(head, smoothing_samples(sample_rate));
    match robust_sync_threshold(smoothed.as_slice()) {
        None => None,
        Some(t) => {
            let gap: usize = samples_in_tenth_us(sample_rate, 300);
            let runs: Vec<(usize, usize)> = scan_low_runs(smoothed.as_slice(), t, gap);
            proof {
                lemma_low_runs_inside(smoothed@, t as int, gap as int, 0);
                assert forall|k: int| 0 <= k < runs.len() implies (#[trigger] runs[k]).0
                    < runs[k].1 && runs[k].1 <= n by {
                    assert(as_pairs(runs@)[k] == (runs[k].0 as int, runs[k].1 as int));
                }
            }
            standard_from_runs(&runs, n, sample_rate)
        },
    }
}

/// A constant offset on every sample changes no classification.
pub proof fn law_classification_ignores_dc_offset(demod: Seq<i32>, sample_rate: u32, c: int)
    requires
        can_raise(demod, c),
    ensures
        standard_in_time(raised(demod, c), sample_rate as int) == standard_in_time(
            demod,
            sample_rate as int,
        ),
{
    let rate = sample_rate as int;
    let n = scan_length(demod.len() as int, rate);
    let head = demod.take(n);
    let win = smoothing_window(rate);
    assert(can_raise(head, c)) by {
        assert forall|i: int| 0 <= i < head.len() implies i32::MIN <= #[trigger] head[i] + c
            <= i32::MAX by {
            assert(i32::MIN <= demod[i] + c <= i32::MAX);
        }
    }
    assert(raised(demod, c).take(n) =~= raised(head, c));
    lemma_averaged_raised(head, c, win);
    let s = averaged(head, win);
    lemma_threshold_raised(s, c);
    if let Some(t) = sync_threshold(s) {
        lemma_low_runs_raised(s, c, t, tenth_us(rate, 300), 0);
    }
}

/// The distances between neighbours.
pub open spec fn steps_between(s: Seq<i64>) -> Seq<i64> {
    Seq::new(
        if s.len() == 0 {
            0
        } else {
            (s.len() - 1) as nat
        },
        |k: int| (s[k + 1] - s[k]) as i64,
    )
}

/// The spacings are the distances between neighbours that are in the range,
/// all of them, in order.
pub proof fn law_spacings_are_the_plausible_steps(s: Seq<i64>, least: int, most: int)
    requires
        forall|k: int| 0 <= k < s.len() ==> 0 <= #[trigger] s[k],
    ensures
        spacings(s, least, most) == steps_between(s).filter(|g: i64| least <= g <= most),
    decreases s.len(),
{
    reveal(Seq::filter);
    if s.len() >= 2 {
        let front = s.drop_last();
        assert forall|k: int| 0 <= k < front.len() implies 0 <= #[trigger] front[k] by {
            assert(front[k] == s[k]);
        }
        law_spacings_are_the_plausible_steps(front, least, most);
        assert(steps_between(s).drop_last() =~= steps_between(front));
        assert(0 <= s[s.len() - 1] && 0 <= s[s.len() - 2]);
    } else {
        assert(steps_between(s) =~= Seq::<i64>::empty());
    }
}

/// What a line rate means: 15.4 to 16 kHz is video, and within that what lies
/// 30 Hz or more below the midpoint of the two standards, 15 679.5 Hz, is PAL
/// and what lies 30 Hz or more above it is NTSC.
pub proof fn law_line_rate_names_the_standard(sample_rate: int, cycles: int, span: int)
    requires
        span > 0,
    ensures
        ({
            let hertz2 = 2 * (sample_rate * cycles);
            let s = nearest_standard(sample_rate, cycles, span);
            &&& s == Some(SignalType::AnalogVideoPal) <==> 30_800 * span <= hertz2 <= 31_299 * span
            &&& s == Some(SignalType::AnalogVideoNtsc) <==> 31_419 * span <= hertz2 <= 32_000 * span
            &&& s is None || s == Some(SignalType::AnalogVideoPal) || s == Some(
                SignalType::AnalogVideoNtsc,
            )
        }),
{
}

/// A line rate does not depend on how fast it was sampled, nor on how many
/// lines were counted.
pub proof fn law_line_rate_is_in_time(sample_rate: int, cycles: int, span: int, k: int, j: int)
    requires
        span > 0,
        k > 0,
        j > 0,
    ensures
        nearest_standard(k * sample_rate, cycles, k * span) == nearest_standard(
            sample_rate,
            cycles,
            span,
        ),
        nearest_standard(sample_rate, j * cycles, j * span) == nearest_standard(
            sample_rate,
            cycles,
            span,
        ),
{
    let x = 2 * (sample_rate * cycles);
    assert(2 * ((k * sample_rate) * cycles) == k * x) by (nonlinear_arith)
        requires
            x == 2 * (sample_rate * cycles),
    ;
    assert(2 * (sample_rate * (j * cycles)) == j * x) by (nonlinear_arith)
        requires
            x == 2 * (sample_rate * cycles),
    ;
    lemma_scaled_comparisons(x, span, k);
    lemma_scaled_comparisons(x, span, j);
}

proof fn lemma_scaled_comparisons(x: int, span: int, k: int)
    requires
        k > 0,
    ensures
        30_800 * (k * span) <= k * x <==> 30_800 * span <= x,
        k * x <= 32_000 * (k * span) <==> x <= 32_000 * span,
        k * x < 31_359 * (k * span) <==> x < 31_359 * span,
        k * x - 31_359 * (k * span) < 60 * (k * span) <==> x - 31_359 * span < 60 * span,
        31_359 * (k * span) - k * x < 60 * (k * span) <==> 31_359 * span - x < 60 * span,
{
    assert(30_800 * (k * span) <= k * x <==> 30_800 * span <= x) by (nonlinear_arith)
        requires
            k > 0,
    ;
    assert(k * x <= 32_000 * (k * span) <==> x <= 32_000 * span) by (nonlinear_arith)
        requires
            k > 0,
    ;
    assert(k * x < 31_359 * (k * span) <==> x < 31_359 * span) by (nonlinear_arith)
        requires
            k > 0,
    ;
    assert(k * x - 31_359 * (k * span) < 60 * (k * span) <==> x - 31_359 * span < 60 * span)
        by (nonlinear_arith)
        requires
            k > 0,
    ;
    assert(31_359 * (k * span) - k * x < 60 * (k * span) <==> 31_359 * span - x < 60 * span)
        by (nonlinear_arith)
        requires
            k > 0,
    ;
}

pub proof fn lemma_filter_everything(s: Seq<i64>, keep: spec_fn(i64) -> bool)
    requires
        forall|k: int| 0 <= k < s.len() ==> keep(#[trigger] s[k]),
    ensures
        s.filter(keep) == s,
    decreases s.len(),
{
    reveal(Seq::filter);
    if s.len() > 0 {
        let front = s.drop_last();
        assert forall|k: int| 0 <= k < front.len() implies keep(#[trigger] front[k]) by {
            assert(front[k] == s[k]);
        }
        lemma_filter_everything(front, keep);
        assert(keep(s[s.len() - 1]));
        assert(front.push(s.last()) =~= s);
    }
}

proof fn lemma_total_of_equal(s: Seq<i64>, v: int)
    requires
        forall|k: int| 0 <= k < s.len() ==> #[trigger] s[k] == v,
    ensures
        total(s) == s.len() * v,
    decreases s.len(),
{
    if s.len() > 0 {
        let front = s.drop_last();
        assert forall|k: int| 0 <= k < front.len() implies #[trigger] front[k] == v by {
            assert(front[k] == s[k]);
        }
        lemma_total_of_equal(front, v);
        assert(s[s.len() - 1] == v);
        let n = s.len() as int;
        assert((n - 1) * v + v == n * v) by (nonlinear_arith);
    } else {
        assert(s.len() * v == 0) by (nonlinear_arith)
            requires
                s.len() == 0,
        ;
    }
}

/// Pulses that come evenly, nine at least, each as narrow as a line's sync
/// pulse, show the standard whose line they space: by their period in time,
/// however fast it was sampled.
pub proof fn law_even_pulses_show_their_standard(
    runs: Seq<(int, int)>,
    n: int,
    sample_rate: int,
    period: int,
)
    requires
        0 <= sample_rate <= u32::MAX,
        n <= 0x7fff_ffff,
        runs.len() >= 9,
        period > 0,
        forall|k: int|
            0 <= k < runs.len() ==> 0 < (#[trigger] runs[k]).0 <= runs[k].1 < n && (runs[k].1
                - runs[k].0) * 125_000 <= sample_rate,
        forall|k: int|
            #![trigger runs[k]]
            0 <= k < runs.len() ==> runs[k].0 == runs[0].0 + k * period && runs[k].1 - runs[k].0
                == runs[0].1 - runs[0].0,
    ensures
        ({
            let s = standard_of_runs(runs, n, sample_rate);
            // From 15.4 kHz up to 15 649.5 Hz, and from 15 709.5 Hz up to
            // 16 kHz.
            &&& s == Some(SignalType::AnalogVideoPal) <==> 30_800 * period <= 2 * sample_rate
                <= 31_299 * period
            &&& s == Some(SignalType::AnalogVideoNtsc) <==> 31_419 * period <= 2 * sample_rate
                <= 32_000 * period
        }),
{
    let keep = |r: (int, int)| 0 < r.0 && r.1 < n;
    lemma_filter_all_runs(runs, keep);
    let whole = whole_runs(runs, n);
    assert(whole == runs);
    let w = widths(whole);
    assert forall|k: int| 0 <= k < w.len() implies 0 <= #[trigger] w[k] <= tenth_us(
        sample_rate,
        80,
    ) by {
        assert(0 < runs[k].0 <= runs[k].1 < n);
    }
    law_median_stays_among_the_values(w, 0, tenth_us(sample_rate, 80));
    let mid = middles(whole);
    let least = tenth_us(sample_rate, 550);
    let most = tenth_us(sample_rate, 750);
    assert forall|k: int| 0 <= k < mid.len() implies 0 <= #[trigger] mid[k] && mid[k] == mid[0] + k
        * period by {
        assert(0 < runs[k].0 <= runs[k].1 < n);
        assert(0 < runs[0].0 <= runs[0].1 < n);
        let a = runs[0].0 + runs[0].1;
        assert(runs[k].0 + runs[k].1 == a + 2 * (k * period));
    }
    law_spacings_are_the_plausible_steps(mid, least, most);
    let steps = steps_between(mid);
    assert forall|k: int| 0 <= k < steps.len() implies #[trigger] steps[k] == period by {
        assert((k + 1) * period == k * period + period) by (nonlinear_arith);
        assert(mid[k + 1] == mid[0] + (k + 1) * period);
        assert(mid[k] == mid[0] + k * period);
        assert(0 < runs[k + 1].0 <= runs[k + 1].1 < n);
        assert(0 < runs[k].0 <= runs[k].1 < n);
    }
    let gaps = spacings(mid, least, most);
    let inside = |g: i64| least <= g <= most;
    if least <= period <= most {
        lemma_filter_everything(steps, inside);
        assert(gaps == steps);
        law_median_stays_among_the_values(gaps, period, period);
        let close = |g: i64| 100 * abs(g - median_of(gaps)) <= max(median_of(gaps), 100);
        lemma_filter_everything(gaps, close);
        assert(agreeing(gaps) == gaps);
        lemma_total_of_equal(gaps, period);
        let c = gaps.len() as int;
        law_line_rate_is_in_time(sample_rate, 1, period, 1, c);
        assert(c * 1 == c && 1 * period == period);
        law_line_rate_names_the_standard(sample_rate, 1, period);
    } else {
        lemma_filter_nothing(steps, inside);
        assert(gaps.len() == 0);
    }
}

proof fn lemma_filter_all_runs(s: Seq<(int, int)>, keep: spec_fn((int, int)) -> bool)
    requires
        forall|k: int| 0 <= k < s.len() ==> keep(#[trigger] s[k]),
    ensures
        s.filter(keep) == s,
    decreases s.len(),
{
    reveal(Seq::filter);
    if s.len() > 0 {
        let front = s.drop_last();
        assert forall|k: int| 0 <= k < front.len() implies keep(#[trigger] front[k]) by {
            assert(front[k] == s[k]);
        }
        lemma_filter_all_runs(front, keep);
        assert(keep(s[s.len() - 1]));
        assert(front.push(s.last()) =~= s);
    }
}

proof fn lemma_filter_nothing(s: Seq<i64>, keep: spec_fn(i64) -> bool)
    requires
        forall|k: int| 0 <= k < s.len() ==> !keep(#[trigger] s[k]),
    ensures
        s.filter(keep).len() == 0,
    decreases s.len(),
{
    reveal(Seq::filter);
    if s.len() > 0 {
        let front = s.drop_last();
        assert forall|k: int| 0 <= k < front.len() implies !keep(#[trigger] front[k]) by {
            assert(front[k] == s[k]);
        }
        lemma_filter_nothing(front, keep);
        assert(!keep(s[s.len() - 1]));
    }
}

/// Fewer than eight plausible lines, lines of which less than two thirds
/// agree, or runs that are wider than a sync pulse in the middle of their
/// order, show nothing.
pub proof fn law_disorder_shows_nothing(runs: Seq<(int, int)>, n: int, sample_rate: int)
    ensures
        ({
            let whole = runs.filter(|r: (int, int)| 0 < r.0 && r.1 < n);
            let gaps = spacings(
                middles(whole),
                sample_rate * 55 / 1_000_000,
                sample_rate * 75 / 1_000_000,
            );
            let near = gaps.filter(
                |g: i64|
                    -1 <= g - median_of(gaps) <= 1 || -median_of(gaps) <= 100 * (g - median_of(
                        gaps,
                    )) <= median_of(gaps),
            );
            &&& gaps.len() < 8 ==> standard_of_runs(runs, n, sample_rate) is None
            &&& median_of(gaps) > 0 && 3 * near.len() < 2 * gaps.len() ==> standard_of_runs(
                runs,
                n,
                sample_rate,
            ) is None
            &&& whole.len() > 0 && median_of(widths(whole)) > sample_rate * 8 / 1_000_000
                ==> standard_of_runs(runs, n, sample_rate) is None
        }),
{
    let whole = runs.filter(|r: (int, int)| 0 < r.0 && r.1 < n);
    assert(whole == whole_runs(runs, n));
    assert(tenth_us(sample_rate, 550) == sample_rate * 55 / 1_000_000);
    assert(tenth_us(sample_rate, 750) == sample_rate * 75 / 1_000_000);
    assert(tenth_us(sample_rate, 80) == sample_rate * 8 / 1_000_000);
    let gaps = spacings(
        middles(whole),
        tenth_us(sample_rate, 550),
        tenth_us(sample_rate, 750),
    );
    let m = median_of(gaps);
    lemma_near_agrees(gaps, m);
}

proof fn lemma_near_agrees(s: Seq<i64>, m: int)
    ensures
        m > 0 ==> s.filter(
            |g: i64| -1 <= g - m <= 1 || -m <= 100 * (g - m) <= m,
        ).len() == s.filter(|g: i64| 100 * abs(g - m) <= max(m, 100)).len(),
    decreases s.len(),
{
    reveal(Seq::filter);
    if s.len() > 0 {
        lemma_near_agrees(s.drop_last(), m);
    }
}

/// Where a level is low once in every period, each time for the same stretch,
/// the runs that are found are exactly those stretches, one per period.
pub proof fn law_even_pulses_are_found(
    s: Seq<i32>,
    threshold4: int,
    gap: int,
    first: int,
    period: int,
    width: int,
    count: int,
    k: int,
)
    requires
        pulses_at(s, threshold4, first, period, width, count),
        0 <= gap <= period,
        0 <= k < count,
    ensures
        low_runs(s, threshold4, gap, 0).len() == count,
        low_runs(s, threshold4, gap, 0)[k] == (first + k * period, first + k * period + width),
{
    lemma_runs_from(s, threshold4, gap, first, period, width, count, 0, 0);
    assert(low_runs(s, threshold4, gap, 0)[k - 0] == (
        first + k * period,
        first + k * period + width,
    ));
}

/// Whether samples are low exactly in `count` stretches of one width, evenly
/// spaced.
pub open spec fn pulses_at(
    s: Seq<i32>,
    threshold4: int,
    first: int,
    period: int,
    width: int,
    count: int,
) -> bool {
    &&& 0 <= first
    &&& 1 <= width < period
    &&& 1 <= count
    &&& first + (count - 1) * period + width <= s.len()
    &&& forall|i: int|
        0 <= i < s.len() ==> (4 * (#[trigger] s[i]) < threshold4 <==> in_pulse(
            i,
            first,
            period,
            width,
            count,
        ))
}

/// Whether a place lies in one of evenly spaced stretches.
pub open spec fn in_pulse(i: int, first: int, period: int, width: int, count: int) -> bool {
    exists|k: int|
        0 <= k < count && first + #[trigger] (k * period) <= i < first + k * period + width
}

pub proof fn lemma_not_in_pulse(i: int, first: int, period: int, width: int, count: int, k: int)
    requires
        0 <= k <= count,
        0 < width < period,
        i < first + k * period,
        k == 0 || first + (k - 1) * period + width <= i,
    ensures
        !in_pulse(i, first, period, width, count),
{
    if in_pulse(i, first, period, width, count) {
        let j = choose|j: int|
            0 <= j < count && first + #[trigger] (j * period) <= i < first + j * period + width;
        if j >= k {
            assert(j * period >= k * period) by (nonlinear_arith)
                requires
                    j >= k,
                    period > 0,
            ;
        } else {
            assert(j * period <= (k - 1) * period) by (nonlinear_arith)
                requires
                    j <= k - 1,
                    period > 0,
            ;
        }
    }
}

/// After the last stretch nothing is low.
pub proof fn lemma_behind_pulses(i: int, first: int, period: int, width: int, count: int)
    requires
        1 <= count,
        0 < width < period,
        first + (count - 1) * period + width <= i,
    ensures
        !in_pulse(i, first, period, width, count),
{
    if in_pulse(i, first, period, width, count) {
        let j = choose|j: int|
            0 <= j < count && first + #[trigger] (j * period) <= i < first + j * period + width;
        assert(j * period <= (count - 1) * period) by (nonlinear_arith)
            requires
                j <= count - 1,
                period > 0,
        ;
    }
}

pub proof fn lemma_pulse_run_end(
    s: Seq<i32>,
    threshold4: int,
    first: int,
    period: int,
    width: int,
    count: int,
    k: int,
    i: int,
)
    requires
        pulses_at(s, threshold4, first, period, width, count),
        0 <= k < count,
        first + k * period <= i <= first + k * period + width,
    ensures
        run_end(s, threshold4, i) == first + k * period + width,
        first + k * period + width <= s.len(),
        0 <= k * period,
    decreases first + k * period + width - i,
{
    assert(k * period <= (count - 1) * period) by (nonlinear_arith)
        requires
            k <= count - 1,
            period > 0,
    ;
    assert(0 <= k * period) by (nonlinear_arith)
        requires
            0 <= k,
            period > 0,
    ;
    let end = first + k * period + width;
    if i < end {
        assert(in_pulse(i, first, period, width, count));
        assert(4 * s[i] < threshold4);
        lemma_pulse_run_end(s, threshold4, first, period, width, count, k, i + 1);
    } else if end < s.len() {
        assert((k + 1) * period == k * period + period) by (nonlinear_arith);
        if k + 1 < count {
            lemma_not_in_pulse(end, first, period, width, count, k + 1);
        } else {
            lemma_behind_pulses(end, first, period, width, count);
        }
        assert(!(4 * s[end] < threshold4));
    }
}

proof fn lemma_runs_from(
    s: Seq<i32>,
    threshold4: int,
    gap: int,
    first: int,
    period: int,
    width: int,
    count: int,
    k: int,
    i: int,
)
    requires
        pulses_at(s, threshold4, first, period, width, count),
        0 <= gap <= period,
        0 <= k <= count,
        0 <= i,
        k == 0 || first + (k - 1) * period + width <= i,
        k < count ==> i <= first + k * period,
    ensures
        low_runs(s, threshold4, gap, i).len() == count - k,
        forall|j: int|
            k <= j < count ==> #[trigger] low_runs(s, threshold4, gap, i)[j - k] == (
                first + j * period,
                first + j * period + width,
            ),
    decreases count - k, s.len() + 1 - i,
{
    if k < count {
        lemma_pulse_run_end(s, threshold4, first, period, width, count, k, first + k * period);
        let start = first + k * period;
        if i < start {
            lemma_not_in_pulse(i, first, period, width, count, k);
            assert(!(4 * s[i] < threshold4));
            lemma_runs_from(s, threshold4, gap, first, period, width, count, k, i + 1);
        } else {
            assert(in_pulse(i, first, period, width, count));
            assert(4 * s[i] < threshold4);
            let next = i + max(gap, width);
            assert((k + 1) * period == k * period + period) by (nonlinear_arith);
            lemma_runs_from(s, threshold4, gap, first, period, width, count, k + 1, next);
            let tail = low_runs(s, threshold4, gap, next);
            let all = low_runs(s, threshold4, gap, i);
            assert(all == seq![(start, start + width)] + tail);
            assert forall|j: int| k <= j < count implies #[trigger] all[j - k] == (
                first + j * period,
                first + j * period + width,
            ) by {
                if j > k {
                    assert(all[j - k] == tail[j - (k + 1)]);
                }
            }
        }
    } else if i < s.len() {
        lemma_behind_pulses(i, first, period, width, count);
        assert(!(4 * s[i] < threshold4));
        lemma_runs_from(s, threshold4, gap, first, period, width, count, k, i + 1);
    }
}

/// A record whose smoothed level dips below its threshold evenly, as narrowly
/// as sync pulses do, is told by the period of the dips.
pub proof fn law_even_record_shows_its_standard(
    demod: Seq<i32>,
    sample_rate: int,
    threshold4: int,
    first: int,
    period: int,
    width: int,
    count: int,
)
    requires
        0 < sample_rate <= u32::MAX,
        5_000 * demod.len() >= sample_rate,
        ({
            let n = min(sample_rate / 200, demod.len() as int);
            let smoothed = averaged(demod.take(n), smoothing_window(sample_rate));
            &&& sync_threshold(smoothed) == Some(threshold4)
            &&& pulses_at(smoothed, threshold4, first, period, width, count)
            &&& first + (count - 1) * period + width < n
        }),
        first > 0,
        count >= 9,
        width * 125_000 <= sample_rate,
        period * 100_000 >= 3 * sample_rate,
    ensures
        ({
            let s = standard_in_time(demod, sample_rate);
            &&& s == Some(SignalType::AnalogVideoPal) <==> 30_800 * period <= 2 * sample_rate
                <= 31_299 * period
            &&& s == Some(SignalType::AnalogVideoNtsc) <==> 31_419 * period <= 2 * sample_rate
                <= 32_000 * period
        }),
{
    let n = scan_length(demod.len() as int, sample_rate);
    let smoothed = averaged(demod.take(n), smoothing_window(sample_rate));
    let gap = tenth_us(sample_rate, 300);
    let runs = low_runs(smoothed, threshold4, gap, 0);
    assert(gap <= period);
    assert forall|k: int| 0 <= k < count implies #[trigger] runs[k] == (
        first + k * period,
        first + k * period + width,
    ) by {
        law_even_pulses_are_found(
            smoothed,
            threshold4,
            gap,
            first,
            period,
            width,
            count,
            k,
        );
    }
    law_even_pulses_are_found(smoothed, threshold4, gap, first, period, width, count, 0);
    assert forall|k: int|
        0 <= k < runs.len() implies 0 < (#[trigger] runs[k]).0 <= runs[k].1 < n && (runs[k].1
        - runs[k].0) * 125_000 <= sample_rate && runs[k].0 == runs[0].0 + k * period && runs[k].1
        - runs[k].0 == runs[0].1 - runs[0].0 by {
        assert(runs[0] == (first + 0 * period, first + 0 * period + width));
        assert(k * period <= (count - 1) * period) by (nonlinear_arith)
            requires
                k <= count - 1,
                period > 0,
        ;
        assert(0 <= k * period) by (nonlinear_arith)
            requires
                0 <= k,
                period > 0,
        ;
    }
    law_even_pulses_show_their_standard(runs, n, sample_rate, period);
}

/// A pulse is where its middle is: one that is wider by as much on either side
/// is no other pulse.
pub proof fn law_widening_moves_no_pulse(
    runs: Seq<(int, int)>,
    wider: Seq<(int, int)>,
    by: Seq<int>,
)
    requires
        runs.len() == wider.len() == by.len(),
        forall|k: int|
            0 <= k < runs.len() ==> #[trigger] wider[k] == (runs[k].0 - by[k], runs[k].1 + by[k]),
    ensures
        middles(wider) == middles(runs),
{
    assert forall|k: int| 0 <= k < runs.len() implies middles(wider)[k] == middles(runs)[k] by {
        assert(wider[k] == (runs[k].0 - by[k], runs[k].1 + by[k]));
    }
    assert(middles(wider) =~= middles(runs));
}

/// Where enough narrow pulses agree, the standard is that of their mean
/// spacing: of the spacings within one percent or one sample of the median,
/// all added up, over how many there are. Spacings farther off do not count.
pub proof fn law_mean_of_agreeing_spacings_decides(
    runs: Seq<(int, int)>,
    n: int,
    sample_rate: int,
)
    requires
        ({
            let whole = runs.filter(|r: (int, int)| 0 < r.0 && r.1 < n);
            let gaps = spacings(
                middles(whole),
                sample_rate * 55 / 1_000_000,
                sample_rate * 75 / 1_000_000,
            );
            let m = median_of(gaps);
            let near = gaps.filter(
                |g: i64| -1 <= g - m <= 1 || -m <= 100 * (g - m) <= m,
            );
            &&& whole.len() > 0
            &&& median_of(widths(whole)) <= sample_rate * 8 / 1_000_000
            &&& gaps.len() >= 8
            &&& m > 0
            &&& 3 * near.len() >= 2 * gaps.len()
            &&& near.fold_left(0int, |a: int, g: i64| a + g) > 0
        }),
    ensures
        ({
            let whole = runs.filter(|r: (int, int)| 0 < r.0 && r.1 < n);
            let gaps = spacings(
                middles(whole),
                sample_rate * 55 / 1_000_000,
                sample_rate * 75 / 1_000_000,
            );
            let m = median_of(gaps);
            let near = gaps.filter(
                |g: i64| -1 <= g - m <= 1 || -m <= 100 * (g - m) <= m,
            );
            let sum = near.fold_left(0int, |a: int, g: i64| a + g);
            let hertz2 = 2 * (sample_rate * near.len());
            let s = standard_of_runs(runs, n, sample_rate);
            &&& s == Some(SignalType::AnalogVideoPal) <==> 30_800 * sum <= hertz2 <= 31_299 * sum
            &&& s == Some(SignalType::AnalogVideoNtsc) <==> 31_419 * sum <= hertz2 <= 32_000 * sum
        }),
{
    let whole = runs.filter(|r: (int, int)| 0 < r.0 && r.1 < n);
    assert(whole == whole_runs(runs, n));
    assert(tenth_us(sample_rate, 550) == sample_rate * 55 / 1_000_000);
    assert(tenth_us(sample_rate, 750) == sample_rate * 75 / 1_000_000);
    assert(tenth_us(sample_rate, 80) == sample_rate * 8 / 1_000_000);
    let gaps = spacings(
        middles(whole),
        tenth_us(sample_rate, 550),
        tenth_us(sample_rate, 750),
    );
    let m = median_of(gaps);
    let near = gaps.filter(|g: i64| -1 <= g - m <= 1 || -m <= 100 * (g - m) <= m);
    lemma_near_are_agreeing(gaps, m);
    assert(agreeing(gaps) == near);
    lemma_total_is_sum(near);
    law_line_rate_names_the_standard(sample_rate, near.len() as int, total(near));
}

proof fn lemma_near_are_agreeing(s: Seq<i64>, m: int)
    requires
        m > 0,
    ensures
        s.filter(|g: i64| -1 <= g - m <= 1 || -m <= 100 * (g - m) <= m) == s.filter(
            |g: i64| 100 * abs(g - m) <= max(m, 100),
        ),
    decreases s.len(),
{
    reveal(Seq::filter);
    if s.len() > 0 {
        lemma_near_are_agreeing(s.drop_last(), m);
    }
}

proof fn lemma_total_is_sum(s: Seq<i64>)
    ensures
        total(s) == s.fold_left(0int, |a: int, g: i64| a + g),
    decreases s.len(),
{
    reveal_with_fuel(Seq::fold_left, 2);
    if s.len() > 0 {
        lemma_total_is_sum(s.drop_last());
    }
}

/// A record of less than a fifth of a millisecond shows nothing, and of a
/// longer one only the first five milliseconds are looked at.
pub proof fn law_records_are_looked_at_in_time(a: Seq<i32>, b: Seq<i32>, sample_rate: int)
    requires
        sample_rate >= 0,
    ensures
        a.len() < sample_rate / 5_000 ==> standard_in_time(a, sample_rate) is None,
        a.len() >= sample_rate / 200 && b.len() >= sample_rate / 200 && a.take(sample_rate / 200)
            == b.take(sample_rate / 200) ==> standard_in_time(a, sample_rate) == standard_in_time(
            b,
            sample_rate,
        ),
{
}

} // verus!
