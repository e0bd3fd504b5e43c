//! Sync-tip and blanking levels, and the FM deviation they imply.
//!
//! Demodulated samples are whole nanoturns: a billionth of a full turn of
//! phase from one sample to the next. Nothing here needs sync lock; it works
//! from order statistics and a width-gated scan for pulses.

use vstd::prelude::*;

use crate::detector::line_rate::{law_even_pulses_are_found, pulses_at};
use crate::offset::lemma_ranked;
use crate::stats::{
    abs, deviations, has_rank, law_counts_tell_the_rank, law_mad_parts_the_distances,
    law_majority_holds_the_median, law_median_parts_the_values, law_median_stays_among_the_values,
    law_ranked_value_occurs, mad, mad_of, median, median_of, order_statistic, ranked,
};

verus! {

/// Sum of the samples from `lo` up to `hi`.
pub open spec fn sum_range(s: Seq<i32>, lo: int, hi: int) -> int
    decreases hi - lo,
{
    if lo >= hi {
        0
    } else {
        sum_range(s, lo, hi - 1) + s[hi - 1]
    }
}

pub open spec fn min(a: int, b: int) -> int {
    if a <= b {
        a
    } else {
        b
    }
}

pub open spec fn max(a: int, b: int) -> int {
    if a >= b {
        a
    } else {
        b
    }
}

/// Trailing moving average, rounded down. The window grows from one sample
/// at the start; a window of one or longer than the data leaves it alone.
pub open spec fn averaged(s: Seq<i32>, win: int) -> Seq<i32> {
    if win <= 1 || s.len() < win {
        s
    } else {
        Seq::new(
            s.len(),
            |i: int| (sum_range(s, max(0, i + 1 - win), i + 1) / min(i + 1, win)) as i32,
        )
    }
}

/// Every sixteenth element, starting with the first.
pub open spec fn decimated(s: Seq<i32>) -> Seq<i64> {
    Seq::new(((s.len() + 15) / 16) as nat, |i: int| s[16 * i] as i64)
}

/// Second percentile and median over every sixteenth sample: the sync tip
/// and the level around the middle, neither moved by a few outliers. Nothing
/// where there are too few samples or the median does not lie above the
/// second percentile.
pub open spec fn tip_and_middle(smoothed: Seq<i32>) -> Option<(int, int)> {
    let d = decimated(smoothed);
    let p2 = ranked(d, d.len() as int / 50);
    let p50 = median_of(d);
    if d.len() < 16 || p50 <= p2 {
        None
    } else {
        Some((p2, p50))
    }
}

/// The level that separates sync pulses from the rest, times four: a quarter
/// of the way from the tip up to the middle level.
pub open spec fn sync_threshold(smoothed: Seq<i32>) -> Option<int> {
    match tip_and_middle(smoothed) {
        Some((p2, p50)) => Some(3 * p2 + p50),
        None => None,
    }
}

/// Whether a sample lies below a threshold that is given times four.
pub open spec fn is_low(v: i32, threshold4: int) -> bool {
    4 * v < threshold4
}

/// Where the run of low samples that covers `i` ends.
pub open spec fn run_end(s: Seq<i32>, threshold4: int, i: int) -> int
    decreases s.len() - i,
{
    if 0 <= i < s.len() && is_low(s[i], threshold4) {
        run_end(s, threshold4, i + 1)
    } else {
        i
    }
}

/// The low runs met from `i` on, as (start, end) pairs. After a run the
/// search goes on at its end, or `gap` samples after its start where that is
/// later.
pub open spec fn low_runs(s: Seq<i32>, threshold4: int, gap: int, i: int) -> Seq<(int, int)>
    decreases max(0, s.len() - i),
    when 0 <= i && 0 <= gap
    via low_runs_terminates
{
    if i >= s.len() {
        Seq::empty()
    } else if is_low(s[i], threshold4) {
        let end = run_end(s, threshold4, i);
        seq![(i, end)] + low_runs(s, threshold4, gap, i + max(gap, end - i))
    } else {
        low_runs(s, threshold4, gap, i + 1)
    }
}

#[via_fn]
proof fn low_runs_terminates(s: Seq<i32>, threshold4: int, gap: int, i: int) {
    lemma_run_end(s, threshold4, i);
}

/// A run holds low samples only and stops at the first that is not.
pub proof fn lemma_run_end(s: Seq<i32>, threshold4: int, i: int)
    requires
        0 <= i,
    ensures
        i <= s.len() ==> i <= run_end(s, threshold4, i) <= s.len(),
        i < s.len() && is_low(s[i], threshold4) ==> i < run_end(s, threshold4, i),
        forall|k: int| i <= k < run_end(s, threshold4, i) ==> is_low(#[trigger] s[k], threshold4),
        run_end(s, threshold4, i) < s.len() ==> !is_low(s[run_end(s, threshold4, i)], threshold4),
    decreases s.len() - i,
{
    if i < s.len() && is_low(s[i], threshold4) {
        lemma_run_end(s, threshold4, i + 1);
    }
}

proof fn lemma_sum_step(s: Seq<i32>, lo: int, hi: int)
    requires
        0 <= lo < hi <= s.len(),
    ensures
        sum_range(s, lo, hi) == s[lo] + sum_range(s, lo + 1, hi),
    decreases hi - lo,
{
    if lo + 1 < hi {
        lemma_sum_step(s, lo, hi - 1);
    } else {
        assert(sum_range(s, lo, lo) == 0);
        assert(sum_range(s, hi, hi) == 0);
    }
}

proof fn lemma_sum_bounds(s: Seq<i32>, lo: int, hi: int)
    requires
        0 <= lo <= hi <= s.len(),
    ensures
        (hi - lo) * i32::MIN <= sum_range(s, lo, hi) <= (hi - lo) * i32::MAX,
    decreases hi - lo,
{
    if lo < hi {
        lemma_sum_bounds(s, lo, hi - 1);
    }
}

/// A quotient rounded down; the divisor is positive.
pub fn floor_div(a: i128, b: i128) -> (q: i128)
    requires
        0 < b,
        a > i128::MIN,
    ensures
        q == a as int / b as int,
{
    if a >= 0 {
        a / b
    } else {
        let up: i128 = (-(a + 1)) / b;
        proof {
            let q = a as int / b as int;
            assert(-up - 1 == q) by (nonlinear_arith)
                requires
                    a < 0,
                    b > 0,
                    up == (-(a + 1)) as int / b as int,
                    q == a as int / b as int,
            ;
            assert(up <= -(a + 1)) by (nonlinear_arith)
                requires
                    a < 0,
                    b > 0,
                    up == (-(a + 1)) as int / b as int,
            ;
        }
        -up - 1
    }
}

/// [`moving_average`] into a buffer of the caller's.
pub fn moving_average_into(data: &[i32], win: usize, out: &mut Vec<i32>)
    ensures
        final(out)@ == averaged(data@, win as int),
{
    out.clear();
    let n: usize = data.len();
    if win <= 1 || n < win {
        let mut i: usize = 0;
        while i < n
            invariant
                i <= n,
                n == data.len(),
                out@ == data@.take(i as int),
            decreases n - i,
        {
            out.push(data[i]);
            i += 1;
            assert(out@ =~= data@.take(i as int));
        }
        assert(out@ =~= data@);
        return ;
    }
    let mut acc: i128 = 0;
    let mut i: usize = 0;
    while i < n
        invariant
            i <= n,
            n == data.len(),
            1 < win <= n,
            acc == sum_range(data@, max(0, i - win), i as int),
            out@ == averaged(data@, win as int).take(i as int),
        decreases n - i,
    {
        proof {
            lemma_sum_bounds(data@, max(0, i - win), i as int);
        }
        acc = acc + data[i] as i128;
        if i >= win {
            proof {
                lemma_sum_step(data@, i - win, i + 1);
            }
            acc = acc - data[i - win] as i128;
        }
        let count: usize = if i + 1 <= win {
            i + 1
        } else {
            win
        };
        proof {
            lemma_sum_bounds(data@, max(0, i + 1 - win), i + 1);
            let q = acc as int / count as int;
            assert(i32::MIN <= q <= i32::MAX) by (nonlinear_arith)
                requires
                    0 < count,
                    count * i32::MIN <= acc <= count * i32::MAX,
                    q == acc as int / count as int,
            ;
        }
        out.push(floor_div(acc, count as i128) as i32);
        i += 1;
        assert(out@ =~= averaged(data@, win as int).take(i as int));
    }
    assert(out@ =~= averaged(data@, win as int));
}

/// Trailing moving average.
pub fn moving_average(data: &[i32], win: usize) -> (out: Vec<i32>)
    ensures
        out@ == averaged(data@, win as int),
{
    let mut out: Vec<i32> = Vec::new();
    moving_average_into(data, win, &mut out);
    out
}

/// Sync tip and middle level of a smoothed slice.
pub fn robust_sync_levels(smoothed: &[i32]) -> (levels: Option<(i64, i64)>)
    ensures
        levels is Some <==> tip_and_middle(smoothed@) is Some,
        levels matches Some((tip, middle)) ==> Some((tip as int, middle as int)) == tip_and_middle(
            smoothed@,
        ) && i32::MIN <= tip < middle <= i32::MAX,
{
    let n: usize = smoothed.len();
    let count: usize = n / 16 + (if n % 16 > 0 {
        1usize
    } else {
        0usize
    });
    let ghost whole = decimated(smoothed@);
    let mut d: Vec<i64> = Vec::new();
    let mut k: usize = 0;
    while k < count
        invariant
            k <= count,
            n == smoothed.len(),
            count == (n + 15) / 16,
            whole == decimated(smoothed@),
            d@ == whole.take(k as int),
        decreases count - k,
    {
        d.push(smoothed[16 * k] as i64);
        k += 1;
        assert(d@ =~= whole.take(k as int));
    }
    assert(d@ =~= whole);
    if d.len() < 16 {
        return None;
    }
    let p2: i64 = order_statistic(&d, d.len() / 50);
    let p50: i64 = median(&d);
    proof {
        law_ranked_value_occurs(d@, d.len() as int / 50, p2 as int);
        law_ranked_value_occurs(d@, d.len() as int / 2, p50 as int);
    }
    if p50 <= p2 {
        return None;
    }
    Some((p2, p50))
}

/// Sync-detection threshold of a smoothed slice, times four.
pub fn robust_sync_threshold(smoothed: &[i32]) -> (threshold4: Option<i64>)
    ensures
        threshold4 is Some <==> sync_threshold(smoothed@) is Some,
        threshold4 matches Some(t) ==> Some(t as int) == sync_threshold(smoothed@),
{
    match robust_sync_levels(smoothed) {
        Some((p2, p50)) => Some(3 * p2 + p50),
        None => None,
    }
}

/// Runs as whole-number pairs.
pub open spec fn as_pairs(runs: Seq<(usize, usize)>) -> Seq<(int, int)> {
    runs.map_values(|r: (usize, usize)| (r.0 as int, r.1 as int))
}

/// The low runs of a slice; see [`low_runs`].
pub fn scan_low_runs(s: &[i32], threshold4: i64, gap: usize) -> (runs: Vec<(usize, usize)>)
    ensures
        as_pairs(runs@) == low_runs(s@, threshold4 as int, gap as int, 0),
{
    let n: usize = s.len();
    let ghost all = low_runs(s@, threshold4 as int, gap as int, 0);
    let mut runs: Vec<(usize, usize)> = Vec::new();
    let mut i: usize = 0;
    assert(as_pairs(runs@) + all =~= all);
    while i < n
        invariant
            n == s.len(),
            i <= n,
            as_pairs(runs@) + low_runs(s@, threshold4 as int, gap as int, i as int) == all,
        decreases n - i,
    {
        let ghost rest = low_runs(s@, threshold4 as int, gap as int, i as int);
        if 4 * (s[i] as i64) < threshold4 {
            let start: usize = i;
            while i < n && 4 * (s[i] as i64) < threshold4
                invariant
                    n == s.len(),
                    start <= i <= n,
                    run_end(s@, threshold4 as int, start as int) == run_end(
                        s@,
                        threshold4 as int,
                        i as int,
                    ),
                decreases n - i,
            {
                i += 1;
            }
            let end: usize = i;
            proof {
                lemma_run_end(s@, threshold4 as int, start as int);
            }
            let ghost before = as_pairs(runs@);
            let ghost next = start + max(gap as int, end - start);
            runs.push((start, end));
            let width: usize = end - start;
            let step: usize = if gap > width {
                gap
            } else {
                width
            };
            i = if step > n - start {
                n
            } else {
                start + step
            };
            proof {
                let tail = low_runs(s@, threshold4 as int, gap as int, next);
                assert(rest == seq![(start as int, end as int)] + tail);
                assert(low_runs(s@, threshold4 as int, gap as int, i as int) == tail);
                assert(as_pairs(runs@) =~= before.push((start as int, end as int)));
                assert(as_pairs(runs@) + tail =~= before + rest);
            }
        } else {
            i += 1;
        }
    }
    assert(as_pairs(runs@) + Seq::<(int, int)>::empty() =~= as_pairs(runs@));
    runs
}

/// Sync tip and blanking level, in nanoturns per sample.
#[derive(Debug, Clone, Copy, PartialEq, Eq, Structural)]
pub struct SyncLevels {
    pub sync_tip: i32,
    pub blanking: i32,
}

impl SyncLevels {
    /// From tip up to blanking; positive for a valid estimate.
    pub fn swing(&self) -> (s: i64)
        ensures
            s == self.blanking - self.sync_tip,
    {
        self.blanking as i64 - self.sync_tip as i64
    }
}

/// An estimate of the peak FM deviation.
#[derive(Debug, Clone, Copy, PartialEq, Eq, Structural)]
pub struct DeviationEstimate {
    /// Peak deviation, rounded down to whole hertz.
    pub deviation_hz: u32,
    pub levels: SyncLevels,
    /// How many pulses contributed.
    pub n_pulses: usize,
}

/// Tip and blanking level of one pulse.
#[derive(Debug, Clone, Copy, PartialEq, Eq, Structural)]
pub struct PulseLevels {
    pub tip: i64,
    pub porch: i64,
}

/// Fewest sync-like pulses that an estimate may rest on. Noise that dips
/// below the threshold by chance delivers a handful at most.
pub const MIN_PULSES: usize = 50;

/// Samples as a list for order statistics.
pub open spec fn widened(s: Seq<i32>) -> Seq<i64> {
    s.map_values(|v: i32| v as i64)
}

/// Whole samples in a number of tenths of a microsecond, rounded down.
pub open spec fn tenth_us(sample_rate: int, tenths: int) -> int {
    sample_rate * tenths / 10_000_000
}

/// Smoothing window of every pulse scan: half a microsecond, at least one
/// sample.
pub open spec fn smoothing_window(sample_rate: int) -> int {
    max(tenth_us(sample_rate, 5), 1)
}

/// Where the blanking level after a run is read: one to three microseconds
/// after its end, clipped to the slice.
pub open spec fn porch_window(n: int, run: (int, int), sample_rate: int) -> (int, int) {
    (
        min(run.1 + tenth_us(sample_rate, 10), n),
        min(run.1 + tenth_us(sample_rate, 30), n),
    )
}

/// Whether a run is as wide as a sync pulse, 1.5 to 32 microseconds, and has
/// room for a blanking level after it.
pub open spec fn is_pulse(n: int, run: (int, int), sample_rate: int) -> bool {
    let porch = porch_window(n, run, sample_rate);
    &&& max(tenth_us(sample_rate, 15), 1) <= run.1 - run.0 <= tenth_us(sample_rate, 320)
    &&& porch.0 < porch.1
}

/// Median level inside a run, and in the blanking after it.
pub open spec fn levels_at(s: Seq<i32>, run: (int, int), sample_rate: int) -> PulseLevels {
    let porch = porch_window(s.len() as int, run, sample_rate);
    PulseLevels {
        tip: median_of(widened(s.subrange(run.0, run.1))) as i64,
        porch: median_of(widened(s.subrange(porch.0, porch.1))) as i64,
    }
}

/// Levels of every run that passes for a pulse.
pub open spec fn pulse_levels(
    s: Seq<i32>,
    runs: Seq<(int, int)>,
    sample_rate: int,
) -> Seq<PulseLevels> {
    runs.filter(|run: (int, int)| is_pulse(s.len() as int, run, sample_rate)).map_values(
        |run: (int, int)| levels_at(s, run, sample_rate),
    )
}

pub open spec fn swings(pulses: Seq<PulseLevels>) -> Seq<i64> {
    pulses.map_values(|p: PulseLevels| (p.porch - p.tip) as i64)
}

pub open spec fn tips(pulses: Seq<PulseLevels>) -> Seq<i64> {
    pulses.map_values(|p: PulseLevels| p.tip)
}

pub open spec fn porches(pulses: Seq<PulseLevels>) -> Seq<i64> {
    pulses.map_values(|p: PulseLevels| p.porch)
}

/// The pulses whose swing lies within three median deviations of the median.
pub open spec fn consistent(pulses: Seq<PulseLevels>) -> Seq<PulseLevels> {
    let m = median_of(swings(pulses));
    let d = mad_of(swings(pulses), m);
    pulses.filter(|p: PulseLevels| abs(p.porch - p.tip - m) <= 3 * d)
}

/// The estimate that a list of pulses supports: enough of them, and enough
/// that agree; a swing that clearly exceeds its own scatter; a deviation
/// from 500 kHz to 25 MHz. Sync takes four tenths of the full swing.
pub open spec fn deviation_from(pulses: Seq<PulseLevels>, sample_rate: int) -> Option<DeviationEstimate> {
    let kept = consistent(pulses);
    let swing = median_of(swings(kept));
    let scatter = mad_of(swings(kept), swing);
    if pulses.len() < MIN_PULSES || kept.len() < MIN_PULSES || swing <= 0 || swing <= 20 * scatter
        || !(1_000_000_000_000_000 <= 5 * (swing * sample_rate) <= 50_000_000_000_000_000) {
        None
    } else {
        Some(
            DeviationEstimate {
                deviation_hz: (5 * (swing * sample_rate) / 2_000_000_000) as u32,
                levels: SyncLevels {
                    sync_tip: median_of(tips(kept)) as i32,
                    blanking: median_of(porches(kept)) as i32,
                },
                n_pulses: kept.len() as usize,
            },
        )
    }
}

/// The deviation that a demodulated slice shows: nothing where it is shorter
/// than 5 ms or 64 samples, or has no sync threshold.
pub open spec fn deviation_of(demod: Seq<i32>, sample_rate: int) -> Option<DeviationEstimate> {
    let smoothed = averaged(demod, smoothing_window(sample_rate));
    if sample_rate == 0 || demod.len() < sample_rate / 200 || demod.len() < 64 {
        None
    } else {
        match sync_threshold(smoothed) {
            None => None,
            Some(t) => deviation_from(
                pulse_levels(smoothed, low_runs(smoothed, t, 0, 0), sample_rate),
                sample_rate,
            ),
        }
    }
}

/// Runs are inside the slice and not empty, so there are no more of them
/// than samples.
pub proof fn lemma_low_runs_inside(s: Seq<i32>, threshold4: int, gap: int, i: int)
    requires
        0 <= i,
        0 <= gap,
    ensures
        low_runs(s, threshold4, gap, i).len() <= max(0, s.len() - i),
        forall|k: int|
            0 <= k < low_runs(s, threshold4, gap, i).len() ==> i <= (#[trigger] low_runs(
                s,
                threshold4,
                gap,
                i,
            )[k]).0 < low_runs(s, threshold4, gap, i)[k].1 <= s.len(),
    decreases max(0, s.len() - i),
{
    let all = low_runs(s, threshold4, gap, i);
    if i < s.len() {
        if is_low(s[i], threshold4) {
            lemma_run_end(s, threshold4, i);
            let end = run_end(s, threshold4, i);
            let next = i + max(gap, end - i);
            lemma_low_runs_inside(s, threshold4, gap, next);
            let tail = low_runs(s, threshold4, gap, next);
            assert(all == seq![(i, end)] + tail);
            assert forall|k: int| 0 <= k < all.len() implies i <= (#[trigger] all[k]).0 < all[k].1
                <= s.len() by {
                if k > 0 {
                    assert(all[k] == tail[k - 1]);
                }
            }
        } else {
            lemma_low_runs_inside(s, threshold4, gap, i + 1);
            assert(all == low_runs(s, threshold4, gap, i + 1));
        }
    }
    assert(forall|k: int|
        0 <= k < all.len() ==> i <= (#[trigger] all[k]).0 < all[k].1 <= s.len());
}

/// Whole samples in a number of tenths of a microsecond, rounded down.
pub fn samples_in_tenth_us(sample_rate: u32, tenths: u32) -> (n: usize)
    requires
        tenths <= 1_000,
    ensures
        n == tenth_us(sample_rate as int, tenths as int),
        n <= 429_497,
{
    assert(sample_rate * tenths <= u32::MAX * 1_000) by (nonlinear_arith)
        requires
            tenths <= 1_000,
    ;
    let span: u64 = sample_rate as u64 * tenths as u64;
    (span / 10_000_000) as usize
}

/// Smoothing window of every pulse scan.
pub fn smoothing_samples(sample_rate: u32) -> (n: usize)
    ensures
        n == smoothing_window(sample_rate as int),
{
    let n: usize = samples_in_tenth_us(sample_rate, 5);
    if n >= 1 {
        n
    } else {
        1
    }
}

fn window_median(s: &[i32], lo: usize, hi: usize) -> (x: i64)
    requires
        lo < hi <= s.len(),
    ensures
        x == median_of(widened(s@.subrange(lo as int, hi as int))),
        i32::MIN <= x <= i32::MAX,
{
    let ghost whole = widened(s@.subrange(lo as int, hi as int));
    let mut v: Vec<i64> = Vec::new();
    let mut i: usize = lo;
    while i < hi
        invariant
            lo <= i <= hi <= s.len(),
            whole == widened(s@.subrange(lo as int, hi as int)),
            v@ == whole.take(i - lo),
        decreases hi - i,
    {
        v.push(s[i] as i64);
        i += 1;
        assert(v@ =~= whole.take(i - lo));
    }
    assert(v@ =~= whole);
    let x: i64 = median(&v);
    proof {
        law_ranked_value_occurs(v@, v.len() as int / 2, x as int);
    }
    x
}

/// Whether a pulse's levels are sample levels.
pub open spec fn in_range(p: PulseLevels) -> bool {
    i32::MIN <= p.tip <= i32::MAX && i32::MIN <= p.porch <= i32::MAX
}

/// Levels of every run that passes for a pulse.
pub fn measure_pulses(s: &[i32], runs: &Vec<(usize, usize)>, sample_rate: u32) -> (out: Vec<
    PulseLevels,
>)
    requires
        forall|k: int|
            0 <= k < runs.len() ==> (#[trigger] runs[k]).0 < runs[k].1 && runs[k].1 <= s.len(),
    ensures
        out@ == pulse_levels(s@, as_pairs(runs@), sample_rate as int),
        forall|k: int| 0 <= k < out.len() ==> in_range(#[trigger] out[k]),
{
    let n: usize = s.len();
    let mut min_width: usize = samples_in_tenth_us(sample_rate, 15);
    if min_width < 1 {
        min_width = 1;
    }
    let max_width: usize = samples_in_tenth_us(sample_rate, 320);
    let porch_lo: usize = samples_in_tenth_us(sample_rate, 10);
    let porch_hi: usize = samples_in_tenth_us(sample_rate, 30);
    let ghost pairs = as_pairs(runs@);
    let ghost keep = |run: (int, int)| is_pulse(s@.len() as int, run, sample_rate as int);
    let ghost measure = |run: (int, int)| levels_at(s@, run, sample_rate as int);
    let mut out: Vec<PulseLevels> = Vec::new();
    let mut i: usize = 0;
    proof {
        reveal(Seq::filter);
        assert(out@ =~= pairs.take(0).filter(keep).map_values(measure));
    }
    while i < runs.len()
        invariant
            i <= runs.len(),
            n == s.len(),
            forall|k: int|
                0 <= k < runs.len() ==> (#[trigger] runs[k]).0 < runs[k].1 && runs[k].1 <= s.len(),
            min_width == max(tenth_us(sample_rate as int, 15), 1),
            max_width == tenth_us(sample_rate as int, 320),
            porch_lo == tenth_us(sample_rate as int, 10),
            porch_hi == tenth_us(sample_rate as int, 30),
            pairs == as_pairs(runs@),
            keep == (|run: (int, int)| is_pulse(s@.len() as int, run, sample_rate as int)),
            measure == (|run: (int, int)| levels_at(s@, run, sample_rate as int)),
            out@ == pairs.take(i as int).filter(keep).map_values(measure),
            forall|k: int| 0 <= k < out.len() ==> in_range(#[trigger] out[k]),
        decreases runs.len() - i,
    {
        let (start, end) = runs[i];
        assert(runs[i as int].0 < runs[i as int].1);
        let ghost run = (start as int, end as int);
        assert(pairs[i as int] == run);
        let width: usize = end - start;
        let lo: usize = if porch_lo > n - end {
            n
        } else {
            end + porch_lo
        };
        let hi: usize = if porch_hi > n - end {
            n
        } else {
            end + porch_hi
        };
        proof {
            reveal(Seq::filter);
            assert(pairs.take(i + 1).drop_last() =~= pairs.take(i as int));
        }
        let ghost held = pairs.take(i as int).filter(keep);
        if min_width <= width && width <= max_width && lo < hi {
            let tip: i64 = window_median(s, start, end);
            let porch: i64 = window_median(s, lo, hi);
            out.push(PulseLevels { tip, porch });
            assert(keep(run));
            assert(out@ =~= held.push(run).map_values(measure));
        } else {
            assert(!keep(run));
        }
        i += 1;
    }
    assert(pairs.take(i as int) =~= pairs);
    out
}

/// The estimate that a list of pulses supports.
pub fn estimate_from_pulses(pulses: &Vec<PulseLevels>, sample_rate: u32) -> (e: Option<
    DeviationEstimate,
>)
    requires
        forall|k: int| 0 <= k < pulses.len() ==> in_range(#[trigger] pulses[k]),
    ensures
        e == deviation_from(pulses@, sample_rate as int),
{
    if pulses.len() < MIN_PULSES {
        return None;
    }
    let all: Vec<i64> = swing_list(pulses);
    let center: i64 = median(&all);
    proof {
        law_ranked_value_occurs(all@, all.len() as int / 2, center as int);
    }
    let spread: i64 = mad(&all, center);
    proof {
        lemma_mad_bound(all@, center as int, 0x3_ffff_ffff);
    }
    let ghost keep = |p: PulseLevels| abs(p.porch - p.tip - center) <= 3 * spread;
    let mut kept: Vec<PulseLevels> = Vec::new();
    let mut i: usize = 0;
    proof {
        reveal(Seq::filter);
    }
    while i < pulses.len()
        invariant
            i <= pulses.len(),
            forall|k: int| 0 <= k < pulses.len() ==> in_range(#[trigger] pulses[k]),
            -0xffff_ffff <= center <= 0xffff_ffff,
            0 <= spread <= 0x3_ffff_ffff,
            keep == (|p: PulseLevels| abs(p.porch - p.tip - center) <= 3 * spread),
            kept@ == pulses@.take(i as int).filter(keep),
            forall|k: int| 0 <= k < kept.len() ==> in_range(#[trigger] kept[k]),
        decreases pulses.len() - i,
    {
        let p: PulseLevels = pulses[i];
        assert(in_range(pulses[i as int]));
        let off: i64 = p.porch - p.tip - center;
        proof {
            reveal(Seq::filter);
            assert(pulses@.take(i + 1).drop_last() =~= pulses@.take(i as int));
        }
        let limit: i64 = 3 * spread;
        if -limit <= off && off <= limit {
            kept.push(p);
        }
        i += 1;
    }
    assert(pulses@.take(i as int) =~= pulses@);
    assert(kept@ == consistent(pulses@));
    if kept.len() < MIN_PULSES {
        return None;
    }
    let kept_swings: Vec<i64> = swing_list(&kept);
    let swing: i64 = median(&kept_swings);
    proof {
        law_ranked_value_occurs(kept_swings@, kept_swings.len() as int / 2, swing as int);
    }
    let scatter: i64 = mad(&kept_swings, swing);
    proof {
        lemma_mad_bound(kept_swings@, swing as int, 0x3_ffff_ffff);
    }
    if swing <= 0 || swing <= 20 * scatter {
        return None;
    }
    assert(swing * sample_rate <= 0xffff_ffff * 0xffff_ffff) by (nonlinear_arith)
        requires
            0 < swing <= 0xffff_ffff,
            sample_rate <= 0xffff_ffff,
    ;
    assert(0 <= swing * sample_rate) by (nonlinear_arith)
        requires
            0 < swing,
    ;
    let scaled: u128 = 5 * (swing as u128 * sample_rate as u128);
    if !(1_000_000_000_000_000 <= scaled && scaled <= 50_000_000_000_000_000) {
        return None;
    }
    let tip_list: Vec<i64> = level_list(&kept, true);
    let sync_tip: i64 = median(&tip_list);
    let porch_list: Vec<i64> = level_list(&kept, false);
    let blanking: i64 = median(&porch_list);
    proof {
        law_ranked_value_occurs(tip_list@, tip_list.len() as int / 2, sync_tip as int);
        law_ranked_value_occurs(porch_list@, porch_list.len() as int / 2, blanking as int);
    }
    Some(
        DeviationEstimate {
            deviation_hz: (scaled / 2_000_000_000) as u32,
            levels: SyncLevels { sync_tip: sync_tip as i32, blanking: blanking as i32 },
            n_pulses: kept.len(),
        },
    )
}

fn swing_list(pulses: &Vec<PulseLevels>) -> (out: Vec<i64>)
    requires
        forall|k: int| 0 <= k < pulses.len() ==> in_range(#[trigger] pulses[k]),
    ensures
        out@ == swings(pulses@),
        forall|k: int| 0 <= k < out.len() ==> -0xffff_ffff <= #[trigger] out[k] <= 0xffff_ffff,
{
    let mut out: Vec<i64> = Vec::new();
    let mut i: usize = 0;
    while i < pulses.len()
        invariant
            i <= pulses.len(),
            forall|k: int| 0 <= k < pulses.len() ==> in_range(#[trigger] pulses[k]),
            out@ == swings(pulses@).take(i as int),
            forall|k: int| 0 <= k < out.len() ==> -0xffff_ffff <= #[trigger] out[k] <= 0xffff_ffff,
        decreases pulses.len() - i,
    {
        assert(in_range(pulses[i as int]));
        out.push(pulses[i].porch - pulses[i].tip);
        i += 1;
        assert(out@ =~= swings(pulses@).take(i as int));
    }
    assert(out@ =~= swings(pulses@));
    out
}

fn level_list(pulses: &Vec<PulseLevels>, tip: bool) -> (out: Vec<i64>)
    requires
        forall|k: int| 0 <= k < pulses.len() ==> in_range(#[trigger] pulses[k]),
    ensures
        out@ == (if tip {
            tips(pulses@)
        } else {
            porches(pulses@)
        }),
        forall|k: int| 0 <= k < out.len() ==> i32::MIN <= #[trigger] out[k] <= i32::MAX,
{
    let ghost whole = if tip {
        tips(pulses@)
    } else {
        porches(pulses@)
    };
    let mut out: Vec<i64> = Vec::new();
    let mut i: usize = 0;
    while i < pulses.len()
        invariant
            i <= pulses.len(),
            forall|k: int| 0 <= k < pulses.len() ==> in_range(#[trigger] pulses[k]),
            whole == (if tip {
                tips(pulses@)
            } else {
                porches(pulses@)
            }),
            out@ == whole.take(i as int),
            forall|k: int| 0 <= k < out.len() ==> i32::MIN <= #[trigger] out[k] <= i32::MAX,
        decreases pulses.len() - i,
    {
        assert(in_range(pulses[i as int]));
        out.push(
            if tip {
                pulses[i].tip
            } else {
                pulses[i].porch
            },
        );
        i += 1;
        assert(out@ =~= whole.take(i as int));
    }
    assert(out@ =~= whole);
    out
}

/// A median deviation is one of the deviations, so it shares their bound.
proof fn lemma_mad_bound(s: Seq<i64>, center: int, bound: int)
    requires
        s.len() > 0,
        forall|k: int| 0 <= k < s.len() ==> abs(#[trigger] s[k] - center) <= bound <= i64::MAX,
        has_rank(deviations(s, center), s.len() as int / 2, mad_of(s, center)),
    ensures
        0 <= mad_of(s, center) <= bound,
{
    let d = deviations(s, center);
    law_ranked_value_occurs(d, s.len() as int / 2, mad_of(s, center));
    let i = choose|i: int| 0 <= i < d.len() && #[trigger] d[i] == mad_of(s, center);
    assert(abs(s[i] - center) <= bound);
}

/// An estimate rests on fifty pulses or more and lies from 500 kHz to 25 MHz.
pub proof fn law_estimates_are_plausible(demod: Seq<i32>, sample_rate: int)
    requires
        0 < sample_rate <= u32::MAX,
        demod.len() <= usize::MAX,
    ensures
        deviation_of(demod, sample_rate) matches Some(e) ==> e.n_pulses >= MIN_PULSES && e.n_pulses
            <= demod.len() && 500_000 <= e.deviation_hz <= 25_000_000,
{
    let smoothed = averaged(demod, smoothing_window(sample_rate));
    match sync_threshold(smoothed) {
        None => {},
        Some(t) => {
            let runs = low_runs(smoothed, t, 0, 0);
            let keep = |run: (int, int)| is_pulse(smoothed.len() as int, run, sample_rate);
            let pulses = pulse_levels(smoothed, runs, sample_rate);
            let m = median_of(swings(pulses));
            let d = mad_of(swings(pulses), m);
            lemma_low_runs_inside(smoothed, t, 0, 0);
            runs.lemma_filter_len(keep);
            pulses.lemma_filter_len(|p: PulseLevels| abs(p.porch - p.tip - m) <= 3 * d);
            assert(consistent(pulses).len() <= pulses.len());
        },
    }
}

proof fn lemma_sum_constant(s: Seq<i32>, v: i32, lo: int, hi: int)
    requires
        0 <= lo <= hi <= s.len(),
        forall|i: int| 0 <= i < s.len() ==> #[trigger] s[i] == v,
    ensures
        sum_range(s, lo, hi) == (hi - lo) * v,
    decreases hi - lo,
{
    if lo < hi {
        lemma_sum_constant(s, v, lo, hi - 1);
        assert((hi - lo) * v == (hi - 1 - lo) * v + v) by (nonlinear_arith);
    } else {
        assert((hi - lo) * v == 0) by (nonlinear_arith)
            requires
                hi == lo,
        ;
    }
}

/// A record of one level throughout shows no sync and no deviation.
pub proof fn law_constant_record_shows_nothing(demod: Seq<i32>, v: i32, sample_rate: int)
    requires
        0 <= sample_rate <= u32::MAX,
        forall|i: int| 0 <= i < demod.len() ==> #[trigger] demod[i] == v,
    ensures
        sync_threshold(averaged(demod, smoothing_window(sample_rate))) is None,
        deviation_of(demod, sample_rate) is None,
{
    let win = smoothing_window(sample_rate);
    let smoothed = averaged(demod, win);
    assert forall|i: int| 0 <= i < smoothed.len() implies #[trigger] smoothed[i] == v by {
        if win > 1 && demod.len() >= win {
            let lo = max(0, i + 1 - win);
            let n = min(i + 1, win);
            lemma_sum_constant(demod, v, lo, i + 1);
            assert((n * v) / n == v) by (nonlinear_arith)
                requires
                    n >= 1,
            ;
        }
    }
    let d = decimated(smoothed);
    if d.len() >= 16 {
        lemma_ranked(d, d.len() as int / 50);
        lemma_ranked(d, d.len() as int / 2);
    }
}

/// Estimate peak FM deviation directly from the demodulated waveform, with
/// no sync lock required.
pub fn estimate_fm_deviation(demod: &[i32], sample_rate: u32) -> (e: Option<DeviationEstimate>)
    ensures
        e == deviation_of(demod@, sample_rate as int),
        sample_rate == 0 || demod.len() < 64 || demod.len() < sample_rate / 200 ==> e is None,
        e matches Some(d) ==> d.n_pulses >= MIN_PULSES && 500_000 <= d.deviation_hz <= 25_000_000,
{
    let n: usize = demod.len();
    proof {
        if sample_rate > 0 {
            law_estimates_are_plausible(demod@, sample_rate as int);
        }
    }
    if sample_rate == 0 {
        return None;
    }
    let min_len: usize = (sample_rate / 200) as usize;
    if n < min_len || n < 64 {
        return None;
    }
    let smoothed: Vec<i32> = moving_average(demod, smoothing_samples(sample_rate));
    match robust_sync_threshold(smoothed.as_slice()) {
        None => None,
        Some(t) => {
            let runs: Vec<(usize, usize)> = scan_low_runs(smoothed.as_slice(), t, 0);
            proof {
                lemma_low_runs_inside(smoothed@, t as int, 0, 0);
                assert forall|k: int| 0 <= k < runs.len() implies (#[trigger] runs[k]).0
                    < runs[k].1 && runs[k].1 <= smoothed.len() by {
                    assert(as_pairs(runs@)[k] == (runs[k].0 as int, runs[k].1 as int));
                }
            }
            let pulses: Vec<PulseLevels> = measure_pulses(smoothed.as_slice(), &runs, sample_rate);
            estimate_from_pulses(&pulses, sample_rate)
        },
    }
}

/// Levels of an estimate, without the deviation.
pub fn estimate_sync_levels(demod: &[i32], sample_rate: u32) -> (l: Option<SyncLevels>)
    ensures
        l == (match deviation_of(demod@, sample_rate as int) {
            Some(e) => Some(e.levels),
            None => None,
        }),
{
    match estimate_fm_deviation(demod, sample_rate) {
        Some(e) => Some(e.levels),
        None => None,
    }
}

/// Sum of an envelope.
pub open spec fn envelope_sum(s: Seq<u32>) -> int
    decreases s.len(),
{
    if s.len() == 0 {
        0
    } else {
        envelope_sum(s.drop_last()) + s.last()
    }
}

/// Sum of the squares of an envelope.
pub open spec fn envelope_squares(s: Seq<u32>) -> int
    decreases s.len(),
{
    if s.len() == 0 {
        0
    } else {
        envelope_squares(s.drop_last()) + s.last() * s.last()
    }
}

/// Fewest samples that a link is judged by.
pub const MIN_ENVELOPE: usize = 256;

/// The ratio that [`estimate_cnr`] gives, as a numerator and a denominator.
pub open spec fn cnr_of(envelope: Seq<u32>) -> Option<(int, int)> {
    let n = envelope.len() as int;
    let sum = envelope_sum(envelope);
    let spread = n * envelope_squares(envelope) - sum * sum;
    if n < MIN_ENVELOPE || sum <= 0 || spread <= 0 {
        None
    } else {
        Some((sum * sum, 2 * spread))
    }
}

/// Carrier-to-noise ratio of a signal of constant envelope, as a numerator
/// and a denominator: the squared mean over twice the variance. A frequency
/// modulated signal has no amplitude of its own, so what varies is noise.
/// None where there is too little to go by, or nothing varies.
pub fn estimate_cnr(envelope: &[u32]) -> (r: Option<(u128, u128)>)
    requires
        envelope.len() <= 0x7fff_ffff,
    ensures
        ({
            let n = envelope.len() as int;
            let sum = envelope_sum(envelope@);
            let spread = n * envelope_squares(envelope@) - sum * sum;
            match r {
                Some((num, den)) => n >= MIN_ENVELOPE && sum > 0 && spread > 0 && num == sum * sum
                    && den == 2 * spread,
                None => n < MIN_ENVELOPE || sum <= 0 || spread <= 0,
            }
        }),
        cnr_of(envelope@) == match r {
            Some((num, den)) => Some((num as int, den as int)),
            None => None,
        },
{
    let n: usize = envelope.len();
    if n < MIN_ENVELOPE {
        return None;
    }
    let mut sum: u128 = 0;
    let mut squares: u128 = 0;
    let mut i: usize = 0;
    assert(envelope@.take(0) =~= Seq::empty());
    while i < n
        invariant
            i <= n,
            n == envelope.len(),
            n <= 0x7fff_ffff,
            sum == envelope_sum(envelope@.take(i as int)),
            squares == envelope_squares(envelope@.take(i as int)),
            0 <= sum <= i * 0xffff_ffff,
            0 <= squares <= i * 0xffff_fffe_0000_0001,
        decreases n - i,
    {
        let v: u128 = envelope[i] as u128;
        assert(v * v <= 0xffff_fffe_0000_0001) by (nonlinear_arith)
            requires
                v <= 0xffff_ffff,
        ;
        proof {
            let part = envelope@.take(i + 1);
            assert(part.drop_last() =~= envelope@.take(i as int));
            assert(part.last() == envelope@[i as int]);
        }
        sum = sum + v;
        squares = squares + v * v;
        i += 1;
    }
    assert(envelope@.take(n as int) =~= envelope@);
    assert(sum * sum <= 0x4000_0000_0000_0000_0000_0000_0000_0000 && n * squares
        <= 0x4000_0000_0000_0000_0000_0000_0000_0000) by (nonlinear_arith)
        requires
            n <= 0x7fff_ffff,
            sum <= n * 0xffff_ffff,
            squares <= n * 0xffff_fffe_0000_0001,
    ;
    let mean: u128 = sum * sum;
    let all: u128 = n as u128 * squares;
    if sum == 0 || all <= mean {
        return None;
    }
    Some((mean, 2 * (all - mean)))
}

/// The ratio does not depend on the gain: an envelope `k` times as large has
/// the same carrier-to-noise ratio.
pub proof fn law_cnr_ignores_gain(s: Seq<u32>, t: Seq<u32>, k: int)
    requires
        s.len() == t.len(),
        forall|i: int| 0 <= i < s.len() ==> #[trigger] t[i] == k * s[i],
    ensures
        envelope_sum(t) == k * envelope_sum(s),
        envelope_squares(t) == k * k * envelope_squares(s),
        ({
            let n = s.len() as int;
            let (a, b) = (envelope_sum(s), envelope_sum(t));
            let spread_s = n * envelope_squares(s) - a * a;
            let spread_t = n * envelope_squares(t) - b * b;
            (b * b) * (2 * spread_s) == (a * a) * (2 * spread_t)
        }),
{
    lemma_envelope_scales(s, t, k);
    let n = s.len() as int;
    let (a, q) = (envelope_sum(s), envelope_squares(s));
    assert(((k * a) * (k * a)) * (2 * (n * q - a * a)) == (a * a) * (2 * (n * (k * k * q) - (k * a)
        * (k * a)))) by (nonlinear_arith);
}

proof fn lemma_envelope_scales(s: Seq<u32>, t: Seq<u32>, k: int)
    requires
        s.len() == t.len(),
        forall|i: int| 0 <= i < s.len() ==> #[trigger] t[i] == k * s[i],
    ensures
        envelope_sum(t) == k * envelope_sum(s),
        envelope_squares(t) == k * k * envelope_squares(s),
    decreases s.len(),
{
    if s.len() > 0 {
        lemma_envelope_scales(s.drop_last(), t.drop_last(), k);
        let (x, y) = (s.last() as int, t.last() as int);
        let (a, q) = (envelope_sum(s.drop_last()), envelope_squares(s.drop_last()));
        assert(y == k * x);
        assert(k * (a + x) == k * a + k * x) by (nonlinear_arith);
        assert(k * k * (q + x * x) == k * k * q + (k * x) * (k * x)) by (nonlinear_arith);
    }
}

/// A sum over a range is the sum of the samples in it, one by one.
pub proof fn law_range_sum_is_the_sum(s: Seq<i32>, lo: int, hi: int)
    requires
        0 <= lo <= hi <= s.len(),
    ensures
        sum_range(s, lo, hi) == s.subrange(lo, hi).fold_left(0int, |a: int, v: i32| a + v),
    decreases hi - lo,
{
    if lo < hi {
        law_range_sum_is_the_sum(s, lo, hi - 1);
        assert(s.subrange(lo, hi).drop_last() =~= s.subrange(lo, hi - 1));
        assert(s.subrange(lo, hi).last() == s[hi - 1]);
        reveal_with_fuel(Seq::fold_left, 2);
    } else {
        assert(s.subrange(lo, hi) =~= Seq::<i32>::empty());
    }
}

/// Where a level stays within bounds over the window that ends at a sample,
/// so does its moving average there: a level that holds for a window's
/// length comes through unchanged, and what lies outside the window has no
/// say.
pub proof fn law_average_stays_within_its_window(
    s: Seq<i32>,
    win: int,
    i: int,
    lo: int,
    hi: int,
)
    requires
        0 <= i < s.len(),
        win >= 1,
        forall|k: int| 0 <= k && i - win < k <= i ==> lo <= #[trigger] s[k] <= hi,
    ensures
        averaged(s, win).len() == s.len(),
        lo <= averaged(s, win)[i] <= hi,
{
    assert(lo <= s[i] <= hi);
    if win > 1 && s.len() >= win {
        let from = max(0, i + 1 - win);
        let n = min(i + 1, win);
        lemma_sum_within(s, from, i + 1, max(lo, i32::MIN as int), min(hi, i32::MAX as int));
        let t = sum_range(s, from, i + 1);
        let a = max(lo, i32::MIN as int);
        let b = min(hi, i32::MAX as int);
        assert(a <= t / n <= b) by (nonlinear_arith)
            requires
                n > 0,
                n * a <= t <= n * b,
        ;
    }
}

proof fn lemma_sum_within(s: Seq<i32>, from: int, to: int, lo: int, hi: int)
    requires
        0 <= from <= to <= s.len(),
        forall|k: int| from <= k < to ==> lo <= #[trigger] s[k] <= hi,
    ensures
        (to - from) * lo <= sum_range(s, from, to) <= (to - from) * hi,
    decreases to - from,
{
    if from < to {
        lemma_sum_within(s, from, to - 1, lo, hi);
        let n = to - from;
        assert((n - 1) * lo + lo == n * lo) by (nonlinear_arith);
        assert((n - 1) * hi + hi == n * hi) by (nonlinear_arith);
        assert(lo <= s[to - 1] <= hi);
    } else {
        assert(0 * lo == 0 && 0 * hi == 0);
    }
}

/// A moving average is the mean of the last `win` samples, or of all so far
/// where there are fewer, rounded down.
pub proof fn law_average_is_the_mean(s: Seq<i32>, win: int, i: int)
    requires
        1 <= win <= s.len(),
        0 <= i < s.len(),
    ensures
        ({
            let from = if i + 1 < win {
                0
            } else {
                i + 1 - win
            };
            let sum = s.subrange(from, i + 1).fold_left(0int, |a: int, v: i32| a + v);
            let n = i + 1 - from;
            let r = averaged(s, win)[i] as int;
            n * r <= sum < n * r + n
        }),
{
    let from = max(0, i + 1 - win);
    let n = i + 1 - from;
    law_range_sum_is_the_sum(s, from, i + 1);
    let t = sum_range(s, from, i + 1);
    if win > 1 {
        lemma_sum_within(s, from, i + 1, i32::MIN as int, i32::MAX as int);
        assert(i32::MIN <= t / n <= i32::MAX) by (nonlinear_arith)
            requires
                n > 0,
                n * i32::MIN <= t <= n * i32::MAX,
        ;
        assert(n * (t / n) <= t < n * (t / n) + n) by (nonlinear_arith)
            requires
                n > 0,
        ;
    } else {
        assert(sum_range(s, i, i) == 0);
        assert(sum_range(s, i, i + 1) == s[i]);
        assert(1 * s[i] == s[i]);
    }
}

/// The threshold lies a quarter of the way up from the tip level to the
/// middle level, and there is one exactly where there are sixteen samples to
/// go by and the middle level is the higher. The samples that count are every
/// sixteenth. No more than one in fifty of them lies below the tip level, and
/// more than that at it or below; no more than half lie below the middle
/// level, and more than that at it or below.
pub proof fn law_threshold_is_a_quarter_up(smoothed: Seq<i32>, tip: int, middle: int)
    requires
        ({
            let d = Seq::new(((smoothed.len() + 15) / 16) as nat, |k: int| smoothed[16 * k] as i64);
            let n = d.len() as int;
            &&& d.filter(|v: i64| v < tip).len() <= n / 50 < d.filter(|v: i64| v <= tip).len()
            &&& d.filter(|v: i64| v < middle).len() <= n / 2 < d.filter(
                |v: i64| v <= middle,
            ).len()
        }),
    ensures
        sync_threshold(smoothed) is Some <==> smoothed.len() > 240 && tip < middle,
        sync_threshold(smoothed) matches Some(t4) ==> t4 - 4 * tip == middle - tip,
{
    let d = decimated(smoothed);
    let n = d.len() as int;
    assert(d =~= Seq::new(((smoothed.len() + 15) / 16) as nat, |k: int| smoothed[16 * k] as i64));
    d.lemma_filter_len(|v: i64| v <= tip);
    law_counts_tell_the_rank(d, n / 50, tip);
    law_counts_tell_the_rank(d, n / 2, middle);
}

/// The low runs are the maximal stretches of samples below the threshold:
/// low throughout, with none low right before or after.
pub proof fn law_low_runs_are_maximal(s: Seq<i32>, threshold4: int, k: int)
    requires
        0 <= k < low_runs(s, threshold4, 0, 0).len(),
    ensures
        ({
            let (start, end) = low_runs(s, threshold4, 0, 0)[k];
            &&& 0 <= start < end <= s.len()
            &&& forall|i: int| start <= i < end ==> 4 * (#[trigger] s[i]) < threshold4
            &&& start > 0 ==> 4 * s[start - 1] >= threshold4
            &&& end < s.len() ==> 4 * s[end] >= threshold4
        }),
{
    lemma_runs_maximal(s, threshold4, 0, k);
}

proof fn lemma_runs_maximal(s: Seq<i32>, threshold4: int, i: int, k: int)
    requires
        0 <= i,
        i == 0 || i > s.len() || !is_low(s[i - 1], threshold4),
        0 <= k < low_runs(s, threshold4, 0, i).len(),
    ensures
        ({
            let (start, end) = low_runs(s, threshold4, 0, i)[k];
            &&& i <= start < end <= s.len()
            &&& forall|j: int| start <= j < end ==> is_low(#[trigger] s[j], threshold4)
            &&& start > 0 ==> !is_low(s[start - 1], threshold4)
            &&& end < s.len() ==> !is_low(s[end], threshold4)
        }),
    decreases s.len() - i,
{
    if i < s.len() {
        lemma_run_end(s, threshold4, i);
        if is_low(s[i], threshold4) {
            let end = run_end(s, threshold4, i);
            let tail = low_runs(s, threshold4, 0, end);
            assert(low_runs(s, threshold4, 0, i) == seq![(i, end)] + tail);
            if k > 0 {
                assert(low_runs(s, threshold4, 0, i)[k] == tail[k - 1]);
                if end < s.len() {
                    assert(low_runs(s, threshold4, 0, end) == low_runs(s, threshold4, 0, end + 1));
                    lemma_runs_maximal(s, threshold4, end + 1, k - 1);
                }
            }
        } else {
            lemma_runs_maximal(s, threshold4, i + 1, k);
        }
    }
}

/// No low sample is missed.
pub proof fn law_every_low_sample_is_in_a_run(s: Seq<i32>, threshold4: int, i: int)
    requires
        0 <= i < s.len(),
        4 * s[i] < threshold4,
    ensures
        exists|k: int|
            0 <= k < low_runs(s, threshold4, 0, 0).len() && (#[trigger] low_runs(
                s,
                threshold4,
                0,
                0,
            )[k]).0 <= i < low_runs(s, threshold4, 0, 0)[k].1,
{
    lemma_in_a_run(s, threshold4, 0, i);
}

proof fn lemma_in_a_run(s: Seq<i32>, threshold4: int, from: int, i: int)
    requires
        0 <= from <= i < s.len(),
        is_low(s[i], threshold4),
    ensures
        exists|k: int|
            0 <= k < low_runs(s, threshold4, 0, from).len() && (#[trigger] low_runs(
                s,
                threshold4,
                0,
                from,
            )[k]).0 <= i < low_runs(s, threshold4, 0, from)[k].1,
    decreases s.len() - from,
{
    lemma_run_end(s, threshold4, from);
    let all = low_runs(s, threshold4, 0, from);
    if is_low(s[from], threshold4) {
        let end = run_end(s, threshold4, from);
        let tail = low_runs(s, threshold4, 0, end);
        assert(all == seq![(from, end)] + tail);
        if i < end {
            assert(all[0] == (from, end));
        } else {
            lemma_in_a_run(s, threshold4, end, i);
            let k = choose|k: int|
                0 <= k < tail.len() && (#[trigger] tail[k]).0 <= i < tail[k].1;
            assert(all[k + 1] == tail[k]);
        }
    } else {
        lemma_in_a_run(s, threshold4, from + 1, i);
    }
}

/// A pulse lasts from 1.5 to 32 microseconds, to whole samples, and has at
/// least one sample of blanking one microsecond or more after its end.
pub proof fn law_pulses_are_as_wide_as_sync(n: int, run: (int, int), sample_rate: int)
    requires
        0 <= run.0 < run.1 <= n,
        sample_rate >= 0,
    ensures
        is_pulse(n, run, sample_rate) <==> {
            &&& 3 * sample_rate / 2_000_000 <= run.1 - run.0 <= 32 * sample_rate / 1_000_000
            &&& run.1 + sample_rate / 1_000_000 < n
            &&& sample_rate / 1_000_000 < 3 * sample_rate / 1_000_000
        },
{
}

/// The tip is read inside the run and the blanking level from one to three
/// microseconds after its end: where a level is flat there, that is what is
/// read, and where it varies, something between the extremes.
pub proof fn law_levels_are_read_at_tip_and_porch(
    s: Seq<i32>,
    run: (int, int),
    sample_rate: int,
    tip: (int, int),
    porch: (int, int),
)
    requires
        0 <= run.0 < run.1 <= s.len(),
        sample_rate >= 0,
        is_pulse(s.len() as int, run, sample_rate),
        forall|i: int| run.0 <= i < run.1 ==> tip.0 <= #[trigger] s[i] <= tip.1,
        forall|i: int|
            run.1 + sample_rate / 1_000_000 <= i < run.1 + 3 * sample_rate / 1_000_000 && i
                < s.len() ==> porch.0 <= #[trigger] s[i] <= porch.1,
    ensures
        tip.0 <= levels_at(s, run, sample_rate).tip <= tip.1,
        porch.0 <= levels_at(s, run, sample_rate).porch <= porch.1,
        in_range(levels_at(s, run, sample_rate)),
{
    let w = porch_window(s.len() as int, run, sample_rate);
    lemma_window_median_within(s, run.0, run.1, tip.0, tip.1);
    lemma_window_median_within(s, w.0, w.1, porch.0, porch.1);
}

proof fn lemma_window_median_within(s: Seq<i32>, from: int, to: int, lo: int, hi: int)
    requires
        0 <= from < to <= s.len(),
        forall|i: int| from <= i < to ==> lo <= #[trigger] s[i] <= hi,
    ensures
        lo <= median_of(widened(s.subrange(from, to))) <= hi,
        i32::MIN <= median_of(widened(s.subrange(from, to))) <= i32::MAX,
{
    let v = widened(s.subrange(from, to));
    assert forall|k: int| 0 <= k < v.len() implies max(lo, i32::MIN as int) <= #[trigger] v[k]
        <= min(hi, i32::MAX as int) by {
        assert(v[k] == s[from + k]);
    }
    law_median_stays_among_the_values(v, max(lo, i32::MIN as int), min(hi, i32::MAX as int));
}

/// The levels are measured once for each run that is a pulse, in order.
pub proof fn law_each_pulse_is_measured(s: Seq<i32>, runs: Seq<(int, int)>, sample_rate: int)
    requires
        forall|k: int| 0 <= k < runs.len() ==> is_pulse(s.len() as int, #[trigger] runs[k], sample_rate),
    ensures
        pulse_levels(s, runs, sample_rate).len() == runs.len(),
        forall|k: int|
            0 <= k < runs.len() ==> #[trigger] pulse_levels(s, runs, sample_rate)[k] == levels_at(
                s,
                runs[k],
                sample_rate,
            ),
{
    let keep = |run: (int, int)| is_pulse(s.len() as int, run, sample_rate);
    lemma_keep_all_runs(runs, keep);
}

proof fn lemma_keep_all_runs(s: Seq<(int, int)>, keep: spec_fn((int, int)) -> bool)
    requires
        forall|k: int| 0 <= k < s.len() ==> keep(#[trigger] s[k]),
    ensures
        s.filter(keep) == s,
    decreases s.len(),
{
    reveal(Seq::filter);
    if s.len() > 0 {
        let front = s.drop_last();
        assert forall|k: int| 0 <= k < front.len() implies keep(#[trigger] front[k]) by {
            assert(front[k] == s[k]);
        }
        lemma_keep_all_runs(front, keep);
        assert(keep(s[s.len() - 1]));
        assert(front.push(s.last()) =~= s);
    }
}

/// A run that is no pulse adds nothing.
pub proof fn law_other_runs_are_not_measured(
    s: Seq<i32>,
    runs: Seq<(int, int)>,
    run: (int, int),
    sample_rate: int,
)
    requires
        !is_pulse(s.len() as int, run, sample_rate),
    ensures
        pulse_levels(s, runs.push(run), sample_rate) == pulse_levels(s, runs, sample_rate),
{
    reveal(Seq::filter);
    assert(runs.push(run).drop_last() =~= runs);
}

proof fn lemma_count_by_image(
    pulses: Seq<PulseLevels>,
    image: spec_fn(PulseLevels) -> i64,
    on: spec_fn(i64) -> bool,
)
    ensures
        pulses.map_values(image).filter(on).len() == pulses.filter(
            |p: PulseLevels| on(image(p)),
        ).len(),
    decreases pulses.len(),
{
    reveal(Seq::filter);
    if pulses.len() > 0 {
        lemma_count_by_image(pulses.drop_last(), image, on);
        assert(pulses.map_values(image).drop_last() =~= pulses.drop_last().map_values(image));
    }
}

proof fn lemma_fewer_pulses(
    pulses: Seq<PulseLevels>,
    a: spec_fn(PulseLevels) -> bool,
    b: spec_fn(PulseLevels) -> bool,
)
    requires
        forall|k: int| 0 <= k < pulses.len() && a(#[trigger] pulses[k]) ==> b(pulses[k]),
    ensures
        pulses.filter(a).len() <= pulses.filter(b).len(),
        pulses.filter(b).filter(a).len() == pulses.filter(a).len(),
    decreases pulses.len(),
{
    reveal(Seq::filter);
    if pulses.len() > 0 {
        let front = pulses.drop_last();
        assert forall|k: int| 0 <= k < front.len() && a(#[trigger] front[k]) implies b(
            front[k],
        ) by {
            assert(front[k] == pulses[k]);
        }
        lemma_fewer_pulses(front, a, b);
        let last = pulses[pulses.len() - 1];
        if b(last) {
            assert(front.filter(b).push(last).drop_last() =~= front.filter(b));
        }
    }
}

/// Where more than half of the measured pulses have tip `t` and blanking
/// level `p`, those are the levels, whatever the rest read. The pulses of
/// that swing count, fifty of which are needed, and the deviation is two and
/// a half times the swing per second, where that is from 500 kHz to 25 MHz.
pub proof fn law_most_pulses_give_the_levels(
    pulses: Seq<PulseLevels>,
    sample_rate: int,
    t: int,
    p: int,
)
    requires
        0 <= sample_rate <= u32::MAX,
        pulses.len() <= usize::MAX,
        i32::MIN <= t <= i32::MAX,
        i32::MIN <= p <= i32::MAX,
        forall|k: int| 0 <= k < pulses.len() ==> in_range(#[trigger] pulses[k]),
        2 * pulses.filter(|q: PulseLevels| q.tip == t && q.porch == p).len() > pulses.len(),
    ensures
        ({
            let n = pulses.filter(|q: PulseLevels| q.porch - q.tip == p - t).len();
            let nanohertz2 = 5 * ((p - t) * sample_rate);
            let e = deviation_from(pulses, sample_rate);
            &&& e is Some <==> n >= 50 && 2 * 500_000 * 1_000_000_000 <= nanohertz2 <= 2
                * 25_000_000 * 1_000_000_000
            &&& e matches Some(d) ==> {
                &&& d.levels.sync_tip == t
                &&& d.levels.blanking == p
                &&& d.n_pulses == n
                &&& 2_000_000_000 * d.deviation_hz <= nanohertz2 < 2_000_000_000 * (d.deviation_hz
                    + 1)
            }
        }),
{
    let exact = |q: PulseLevels| q.tip == t && q.porch == p;
    let same = |q: PulseLevels| q.porch - q.tip == p - t;
    let swing = p - t;
    let all = swings(pulses);
    let measure = |q: PulseLevels| (q.porch - q.tip) as i64;
    let hit = |v: i64| swing <= v <= swing;
    assert(all =~= pulses.map_values(measure));
    lemma_count_by_image(pulses, measure, hit);
    let hits = |q: PulseLevels| hit(measure(q));
    assert forall|k: int| 0 <= k < pulses.len() && exact(#[trigger] pulses[k]) implies hits(
        pulses[k],
    ) by {
        assert(in_range(pulses[k]));
    }
    lemma_fewer_pulses(pulses, exact, hits);
    law_majority_holds_the_median(all, swing, swing);
    let m = median_of(all);
    assert(m == swing);
    lemma_most_equal_mad(all, swing);
    let d = mad_of(all, m);
    let near = |q: PulseLevels| abs(q.porch - q.tip - m) <= 3 * d;
    let kept = consistent(pulses);
    assert(kept == pulses.filter(near));
    assert(near =~= same);
    assert(kept == pulses.filter(same));
    lemma_fewer_pulses(pulses, exact, same);
    pulses.lemma_filter_len(same);
    assert(2 * kept.filter(exact).len() > kept.len());
    assert forall|k: int| 0 <= k < kept.len() implies in_range(#[trigger] kept[k]) && same(
        kept[k],
    ) by {
        pulses.lemma_filter_pred(same, k);
        pulses.lemma_filter_contains_rev(same, kept[k]);
    }
    let ks = swings(kept);
    assert forall|k: int| 0 <= k < ks.len() implies swing <= #[trigger] ks[k] <= swing by {
        assert(in_range(kept[k]) && same(kept[k]));
    }
    law_median_stays_among_the_values(ks, swing, swing);
    lemma_all_equal_mad(ks, swing);
    let tip = |q: PulseLevels| q.tip;
    let at_tip = |v: i64| t <= v <= t;
    lemma_count_by_image(kept, tip, at_tip);
    lemma_fewer_pulses(kept, exact, |q: PulseLevels| at_tip(tip(q)));
    assert(tips(kept) =~= kept.map_values(tip));
    law_majority_holds_the_median(tips(kept), t, t);
    let porch = |q: PulseLevels| q.porch;
    let at_porch = |v: i64| p <= v <= p;
    lemma_count_by_image(kept, porch, at_porch);
    lemma_fewer_pulses(kept, exact, |q: PulseLevels| at_porch(porch(q)));
    assert(porches(kept) =~= kept.map_values(porch));
    law_majority_holds_the_median(porches(kept), p, p);
    assert((p - t) * sample_rate == swing * sample_rate);
    if swing <= 0 {
        assert(swing * sample_rate <= 0) by (nonlinear_arith)
            requires
                swing <= 0,
                sample_rate >= 0,
        ;
    }
}

proof fn lemma_most_equal_mad(s: Seq<i64>, v: int)
    requires
        2 * s.filter(|x: i64| v <= x <= v).len() > s.len(),
        -0x2_0000_0000 <= v <= 0x2_0000_0000,
        forall|k: int| 0 <= k < s.len() ==> -0x2_0000_0000 <= #[trigger] s[k] <= 0x2_0000_0000,
    ensures
        mad_of(s, v) == 0,
{
    let far = deviations(s, v);
    lemma_deviation_count(s, v);
    law_majority_holds_the_median(far, 0, 0);
}

proof fn lemma_deviation_count(s: Seq<i64>, v: int)
    requires
        -0x2_0000_0000 <= v <= 0x2_0000_0000,
        forall|k: int| 0 <= k < s.len() ==> -0x2_0000_0000 <= #[trigger] s[k] <= 0x2_0000_0000,
    ensures
        deviations(s, v).filter(|x: i64| 0 <= x <= 0).len() == s.filter(
            |x: i64| v <= x <= v,
        ).len(),
    decreases s.len(),
{
    reveal(Seq::filter);
    if s.len() > 0 {
        let front = s.drop_last();
        assert forall|k: int| 0 <= k < front.len() implies -0x2_0000_0000 <= #[trigger] front[k]
            <= 0x2_0000_0000 by {
            assert(front[k] == s[k]);
        }
        lemma_deviation_count(front, v);
        assert(deviations(s, v).drop_last() =~= deviations(front, v));
        assert(-0x2_0000_0000 <= s[s.len() - 1] <= 0x2_0000_0000);
    }
}

proof fn lemma_all_equal_mad(s: Seq<i64>, v: int)
    requires
        s.len() > 0,
        forall|k: int| 0 <= k < s.len() ==> v <= #[trigger] s[k] <= v,
    ensures
        mad_of(s, v) == 0,
{
    let far = deviations(s, v);
    assert forall|k: int| 0 <= k < far.len() implies 0 <= #[trigger] far[k] <= 0 by {
        assert(s[k] == v);
    }
    law_median_stays_among_the_values(far, 0, 0);
}

/// The levels are levels of pulses that agree: the tip is the tip of one of
/// them, with at least half of their tips at it or below and half at it or
/// above, and likewise the blanking level and the swing that the deviation
/// is made of. Of the measured pulses at least half agree.
pub proof fn law_levels_part_the_pulses(pulses: Seq<PulseLevels>, sample_rate: int)
    requires
        0 <= sample_rate <= u32::MAX,
        pulses.len() <= usize::MAX,
        forall|k: int| 0 <= k < pulses.len() ==> in_range(#[trigger] pulses[k]),
        deviation_from(pulses, sample_rate) is Some,
    ensures
        ({
            let e = deviation_from(pulses, sample_rate).unwrap();
            let kept = consistent(pulses);
            let tip = e.levels.sync_tip;
            let porch = e.levels.blanking;
            let n = kept.len();
            &&& e.n_pulses == n
            &&& exists|k: int| 0 <= k < n && (#[trigger] kept[k]).tip == tip
            &&& 2 * kept.filter(|q: PulseLevels| q.tip <= tip).len() >= n
            &&& 2 * kept.filter(|q: PulseLevels| q.tip >= tip).len() >= n
            &&& exists|k: int| 0 <= k < n && (#[trigger] kept[k]).porch == porch
            &&& 2 * kept.filter(|q: PulseLevels| q.porch <= porch).len() >= n
            &&& 2 * kept.filter(|q: PulseLevels| q.porch >= porch).len() >= n
            &&& exists|k: int|
                0 <= k < n && {
                    let swing = (#[trigger] kept[k]).porch - kept[k].tip;
                    &&& 2 * kept.filter(
                        |q: PulseLevels| q.porch - q.tip <= swing,
                    ).len() >= n
                    &&& 2 * kept.filter(
                        |q: PulseLevels| q.porch - q.tip >= swing,
                    ).len() >= n
                    &&& 2_000_000_000 * e.deviation_hz <= 5 * (swing * sample_rate) < 2_000_000_000
                        * (e.deviation_hz + 1)
                }
        }),
{
    let kept = consistent(pulses);
    let m0 = median_of(swings(pulses));
    let d0 = mad_of(swings(pulses), m0);
    let near = |q: PulseLevels| abs(q.porch - q.tip - m0) <= 3 * d0;
    assert(kept == pulses.filter(near));
    pulses.lemma_filter_len(near);
    assert forall|k: int| 0 <= k < kept.len() implies in_range(#[trigger] kept[k]) by {
        pulses.lemma_filter_contains_rev(near, kept[k]);
    }
    let tip = median_of(tips(kept));
    let porch = median_of(porches(kept));
    let swing = median_of(swings(kept));
    let to_tip = |q: PulseLevels| q.tip;
    let to_porch = |q: PulseLevels| q.porch;
    let to_swing = |q: PulseLevels| (q.porch - q.tip) as i64;
    lemma_median_of_image(kept, to_tip);
    lemma_median_of_image(kept, to_porch);
    lemma_median_of_image(kept, to_swing);
    let kt = choose|k: int| 0 <= k < kept.len() && tips(kept)[k] == tip;
    assert(kept[kt].tip == tip && in_range(kept[kt]));
    let kp = choose|k: int| 0 <= k < kept.len() && porches(kept)[k] == porch;
    assert(kept[kp].porch == porch && in_range(kept[kp]));
    let ks = choose|k: int| 0 <= k < kept.len() && swings(kept)[k] == swing;
    assert(in_range(kept[ks]));
    assert(kept[ks].porch - kept[ks].tip == swing);
    let e = deviation_from(pulses, sample_rate).unwrap();
    let sync_tip = e.levels.sync_tip;
    let blanking = e.levels.blanking;
    lemma_fewer_pulses(
        kept,
        |q: PulseLevels| to_tip(q) as int <= tip,
        |q: PulseLevels| q.tip <= sync_tip,
    );
    lemma_fewer_pulses(
        kept,
        |q: PulseLevels| to_tip(q) as int >= tip,
        |q: PulseLevels| q.tip >= sync_tip,
    );
    lemma_fewer_pulses(
        kept,
        |q: PulseLevels| to_porch(q) as int <= porch,
        |q: PulseLevels| q.porch <= blanking,
    );
    lemma_fewer_pulses(
        kept,
        |q: PulseLevels| to_porch(q) as int >= porch,
        |q: PulseLevels| q.porch >= blanking,
    );
    lemma_fewer_pulses(
        kept,
        |q: PulseLevels| to_swing(q) as int <= swing,
        |q: PulseLevels| q.porch - q.tip <= swing,
    );
    lemma_fewer_pulses(
        kept,
        |q: PulseLevels| to_swing(q) as int >= swing,
        |q: PulseLevels| q.porch - q.tip >= swing,
    );
}

proof fn lemma_median_of_image(kept: Seq<PulseLevels>, image: spec_fn(PulseLevels) -> i64)
    requires
        kept.len() > 0,
    ensures
        ({
            let v = kept.map_values(image);
            let m = median_of(v);
            &&& exists|k: int| 0 <= k < kept.len() && #[trigger] v[k] == m
            &&& 2 * kept.filter(|q: PulseLevels| image(q) as int <= m).len() >= kept.len()
            &&& 2 * kept.filter(|q: PulseLevels| image(q) as int >= m).len() >= kept.len()
        }),
{
    let v = kept.map_values(image);
    let m = median_of(v);
    law_median_parts_the_values(v);
    lemma_count_by_image(kept, image, |x: i64| x <= m);
    lemma_count_by_image(kept, image, |x: i64| x >= m);
    lemma_fewer_pulses(
        kept,
        |q: PulseLevels| (|x: i64| x <= m)(image(q)),
        |q: PulseLevels| image(q) as int <= m,
    );
    lemma_fewer_pulses(
        kept,
        |q: PulseLevels| (|x: i64| x >= m)(image(q)),
        |q: PulseLevels| image(q) as int >= m,
    );
}

/// A pulse counts exactly where its swing lies within three median deviations
/// of the median swing, and at least half of the pulses do.
pub proof fn law_agreeing_pulses_are_kept(pulses: Seq<PulseLevels>, k: int)
    requires
        0 <= k < pulses.len(),
        forall|j: int| 0 <= j < pulses.len() ==> in_range(#[trigger] pulses[j]),
    ensures
        ({
            let all = pulses.map_values(|q: PulseLevels| (q.porch - q.tip) as i64);
            let m = median_of(all);
            let d = mad_of(all, m);
            let swing = pulses[k].porch - pulses[k].tip;
            &&& consistent(pulses).contains(pulses[k]) <==> m - 3 * d <= swing <= m + 3 * d
            &&& 2 * consistent(pulses).len() > pulses.len()
        }),
{
    let all = swings(pulses);
    let m = median_of(all);
    let d = mad_of(all, m);
    let near = |q: PulseLevels| abs(q.porch - q.tip - m) <= 3 * d;
    let kept = pulses.filter(near);
    assert(kept == consistent(pulses));
    if near(pulses[k]) {
        pulses.lemma_filter_contains(near, k);
    }
    if kept.contains(pulses[k]) {
        let j = choose|j: int| 0 <= j < kept.len() && kept[j] == pulses[k];
        pulses.lemma_filter_pred(near, j);
    }
    assert forall|j: int| 0 <= j < all.len() implies -0x1_0000_0000 <= #[trigger] all[j]
        <= 0x1_0000_0000 by {
        assert(in_range(pulses[j]));
    }
    law_median_stays_among_the_values(all, -0x1_0000_0000, 0x1_0000_0000);
    law_mad_parts_the_distances(all, m);
    lemma_mad_not_negative(all, m);
    let measure = |q: PulseLevels| (q.porch - q.tip) as i64;
    let close = |v: i64| -d <= v - m <= d;
    lemma_count_by_image(pulses, measure, close);
    assert forall|j: int|
        0 <= j < pulses.len() && (|q: PulseLevels| close(measure(q)))(
            #[trigger] pulses[j],
        ) implies near(pulses[j]) by {
        assert(in_range(pulses[j]));
    }
    lemma_fewer_pulses(pulses, |q: PulseLevels| close(measure(q)), near);
}

proof fn lemma_mad_not_negative(s: Seq<i64>, center: int)
    requires
        s.len() > 0,
        -0x1_0000_0000 <= center <= 0x1_0000_0000,
        forall|j: int| 0 <= j < s.len() ==> -0x1_0000_0000 <= #[trigger] s[j] <= 0x1_0000_0000,
    ensures
        mad_of(s, center) >= 0,
{
    let far = deviations(s, center);
    assert forall|j: int| 0 <= j < far.len() implies 0 <= #[trigger] far[j] <= i64::MAX by {
        assert(-0x1_0000_0000 <= s[j] <= 0x1_0000_0000);
    }
    law_median_stays_among_the_values(far, 0, i64::MAX as int);
}

/// There is an estimate exactly where fifty pulses agree, more than half of
/// those keep within a twentieth of their median swing of it, and the
/// deviation is from 500 kHz to 25 MHz.
pub proof fn law_estimate_needs_agreement(pulses: Seq<PulseLevels>, sample_rate: int)
    requires
        0 < sample_rate <= u32::MAX,
        forall|j: int| 0 <= j < pulses.len() ==> in_range(#[trigger] pulses[j]),
    ensures
        ({
            let kept = consistent(pulses);
            let v = kept.map_values(|q: PulseLevels| (q.porch - q.tip) as i64);
            let m = median_of(v);
            deviation_from(pulses, sample_rate) is Some <==> {
                &&& kept.len() >= 50
                &&& 2 * v.filter(|x: i64| -m < 20 * (x - m) < m).len() > kept.len()
                &&& 400_000_000_000_000 <= 2 * m * sample_rate <= 20_000_000_000_000_000
            }
        }),
{
    let all = swings(pulses);
    let m0 = median_of(all);
    let d0 = mad_of(all, m0);
    let near = |q: PulseLevels| abs(q.porch - q.tip - m0) <= 3 * d0;
    let kept = consistent(pulses);
    assert(kept == pulses.filter(near));
    pulses.lemma_filter_len(near);
    let v = swings(kept);
    let m = median_of(v);
    let d = mad_of(v, m);
    assert(v =~= kept.map_values(|q: PulseLevels| (q.porch - q.tip) as i64));
    assert(2 * m * sample_rate == 2 * (m * sample_rate)) by (nonlinear_arith);
    if kept.len() > 0 {
        assert forall|j: int| 0 <= j < v.len() implies -0x1_0000_0000 <= #[trigger] v[j]
            <= 0x1_0000_0000 by {
            pulses.lemma_filter_contains_rev(near, kept[j]);
            assert(in_range(kept[j]));
        }
        law_median_stays_among_the_values(v, -0x1_0000_0000, 0x1_0000_0000);
        lemma_mad_not_negative(v, m);
        law_mad_parts_the_distances(v, m);
        let tight = |x: i64| -m < 20 * (x - m) < m;
        if m > 20 * d {
            lemma_filter_grows(v, |x: i64| -d <= x - m <= d, tight);
        } else {
            lemma_filter_grows(v, tight, |x: i64| -d < x - m < d);
        }
        if m <= 0 {
            assert(m * sample_rate <= 0) by (nonlinear_arith)
                requires
                    m <= 0,
                    sample_rate >= 0,
            ;
        }
    }
}

proof fn lemma_filter_grows(s: Seq<i64>, a: spec_fn(i64) -> bool, b: spec_fn(i64) -> bool)
    requires
        forall|x: i64| #[trigger] a(x) ==> b(x),
    ensures
        s.filter(a).len() <= s.filter(b).len(),
    decreases s.len(),
{
    reveal(Seq::filter);
    if s.len() > 0 {
        lemma_filter_grows(s.drop_last(), a, b);
        assert(a(s.last()) ==> b(s.last()));
    }
}

/// The levels' own swing and the deviation agree: where the tips of the
/// pulses that count lie within `a` of each other and their blanking levels
/// within `b`, the deviation is two and a half times the levels' swing per
/// second, to two and a half times `a + b` per second and a hertz.
pub proof fn law_levels_and_deviation_agree(
    pulses: Seq<PulseLevels>,
    sample_rate: int,
    t: int,
    a: int,
    p: int,
    b: int,
)
    requires
        0 < sample_rate <= u32::MAX,
        pulses.len() <= usize::MAX,
        forall|j: int| 0 <= j < pulses.len() ==> in_range(#[trigger] pulses[j]),
        deviation_from(pulses, sample_rate) is Some,
        forall|j: int|
            0 <= j < consistent(pulses).len() ==> {
                let q = #[trigger] consistent(pulses)[j];
                t <= q.tip <= t + a && p <= q.porch <= p + b
            },
    ensures
        ({
            let e = deviation_from(pulses, sample_rate).unwrap();
            let swing = e.levels.blanking - e.levels.sync_tip;
            let off = 5 * (swing * sample_rate) - 2_000_000_000 * e.deviation_hz;
            &&& off <= 5 * ((a + b) * sample_rate) + 2_000_000_000
            &&& off >= -5 * ((a + b) * sample_rate)
        }),
{
    law_levels_part_the_pulses(pulses, sample_rate);
    let e = deviation_from(pulses, sample_rate).unwrap();
    let kept = consistent(pulses);
    let kt = choose|k: int| 0 <= k < kept.len() && (#[trigger] kept[k]).tip == e.levels.sync_tip;
    let kp = choose|k: int| 0 <= k < kept.len() && (#[trigger] kept[k]).porch == e.levels.blanking;
    let swing = e.levels.blanking - e.levels.sync_tip;
    let ks = choose|k: int|
        0 <= k < kept.len() && {
            let w = (#[trigger] kept[k]).porch - kept[k].tip;
            2_000_000_000 * e.deviation_hz <= 5 * (w * sample_rate) < 2_000_000_000
                * (e.deviation_hz + 1)
        };
    let w = kept[ks].porch - kept[ks].tip;
    assert(-(a + b) <= swing - w <= a + b) by {
        assert(t <= kept[kt].tip <= t + a);
        assert(p <= kept[kp].porch <= p + b);
        assert(t <= kept[ks].tip <= t + a);
        assert(p <= kept[ks].porch <= p + b);
    }
    assert(-((a + b) * sample_rate) <= swing * sample_rate - w * sample_rate <= (a + b)
        * sample_rate) by (nonlinear_arith)
        requires
            -(a + b) <= swing - w <= a + b,
            sample_rate > 0,
    ;
}

/// A record whose smoothed level dips evenly to a flat tip `t`, and is at a
/// flat level `p` from one to three microseconds after each dip, has exactly
/// those levels, and the deviation that their swing stands for.
pub proof fn law_even_record_gives_its_levels(
    demod: Seq<i32>,
    sample_rate: int,
    threshold4: int,
    first: int,
    period: int,
    width: int,
    count: int,
    t: int,
    p: int,
)
    requires
        0 < sample_rate <= u32::MAX,
        200 * demod.len() >= sample_rate,
        64 <= demod.len() <= 0x7fff_ffff,
        ({
            let s = averaged(demod, smoothing_window(sample_rate));
            &&& sync_threshold(s) == Some(threshold4)
            &&& pulses_at(s, threshold4, first, period, width, count)
            &&& first + (count - 1) * period + width + 3 * sample_rate / 1_000_000 <= s.len()
            &&& forall|k: int, d: int|
                #![trigger s[first + k * period + d]]
                0 <= k < count && 0 <= d < width ==> s[first + k * period + d] == t
            &&& forall|k: int, d: int|
                #![trigger s[first + k * period + width + d]]
                0 <= k < count && sample_rate / 1_000_000 <= d < 3 * sample_rate / 1_000_000
                    ==> s[first + k * period + width + d] == p
        }),
        count >= 50,
        3 * sample_rate / 2_000_000 <= width <= 32 * sample_rate / 1_000_000,
        sample_rate / 1_000_000 < 3 * sample_rate / 1_000_000,
    ensures
        ({
            let nanohertz2 = 5 * ((p - t) * sample_rate);
            let e = deviation_of(demod, sample_rate);
            &&& e is Some <==> 1_000_000_000_000_000 <= nanohertz2 <= 50_000_000_000_000_000
            &&& e matches Some(d) ==> {
                &&& d.levels == (SyncLevels { sync_tip: t as i32, blanking: p as i32 })
                &&& d.n_pulses == count
                &&& 2_000_000_000 * d.deviation_hz <= nanohertz2 < 2_000_000_000 * (d.deviation_hz
                    + 1)
            }
        }),
{
    let s = averaged(demod, smoothing_window(sample_rate));
    let runs = low_runs(s, threshold4, 0, 0);
    let n = s.len() as int;
    let near = sample_rate / 1_000_000;
    let far = 3 * sample_rate / 1_000_000;
    assert(n == demod.len());
    law_even_pulses_are_found(s, threshold4, 0, first, period, width, count, 0);
    assert forall|k: int| 0 <= k < count implies is_pulse(n, #[trigger] runs[k], sample_rate)
        && levels_at(s, runs[k], sample_rate) == (PulseLevels {
        tip: t as i64,
        porch: p as i64,
    }) && i32::MIN <= t <= i32::MAX && i32::MIN <= p <= i32::MAX by {
        law_even_pulses_are_found(s, threshold4, 0, first, period, width, count, k);
        assert(k * period <= (count - 1) * period) by (nonlinear_arith)
            requires
                k <= count - 1,
                period > 0,
        ;
        assert(0 <= k * period) by (nonlinear_arith)
            requires
                k >= 0,
                period > 0,
        ;
        let start = first + k * period;
        let end = start + width;
        assert(runs[k] == (start, end));
        law_pulses_are_as_wide_as_sync(n, runs[k], sample_rate);
        assert forall|i: int| start <= i < end implies t <= #[trigger] s[i] <= t by {
            assert(s[first + k * period + (i - start)] == t);
        }
        assert forall|i: int| end + near <= i < end + far && i < n implies p <= #[trigger] s[i]
            <= p by {
            assert(s[first + k * period + width + (i - end)] == p);
        }
        law_levels_are_read_at_tip_and_porch(s, runs[k], sample_rate, (t, t), (p, p));
        assert(t <= s[start] <= t);
        assert(p <= s[end + near] <= p);
    }
    assert(runs.len() == count);
    assert(is_pulse(n, runs[0], sample_rate));
    law_each_pulse_is_measured(s, runs, sample_rate);
    let pulses = pulse_levels(s, runs, sample_rate);
    let exact = |q: PulseLevels| q.tip == t && q.porch == p;
    let same = |q: PulseLevels| q.porch - q.tip == p - t;
    assert forall|k: int| 0 <= k < pulses.len() implies in_range(#[trigger] pulses[k]) && exact(
        pulses[k],
    ) && same(pulses[k]) by {
        assert(is_pulse(n, runs[k], sample_rate));
    }
    lemma_keep_all_pulses(pulses, exact);
    lemma_keep_all_pulses(pulses, same);
    lemma_low_runs_inside(s, threshold4, 0, 0);
    law_most_pulses_give_the_levels(pulses, sample_rate, t, p);
}

proof fn lemma_keep_all_pulses(s: Seq<PulseLevels>, keep: spec_fn(PulseLevels) -> bool)
    requires
        forall|k: int| 0 <= k < s.len() ==> keep(#[trigger] s[k]),
    ensures
        s.filter(keep) == s,
    decreases s.len(),
{
    reveal(Seq::filter);
    if s.len() > 0 {
        let front = s.drop_last();
        assert forall|k: int| 0 <= k < front.len() implies keep(#[trigger] front[k]) by {
            assert(front[k] == s[k]);
        }
        lemma_keep_all_pulses(front, keep);
        assert(keep(s[s.len() - 1]));
        assert(front.push(s.last()) =~= s);
    }
}

/// An envelope that lies `d` above its mean `a` half of the time and `d`
/// below it the other half has the ratio of `a` squared to twice `d` squared.
/// There is a ratio exactly where there are 256 samples and both are positive.
pub proof fn law_cnr_is_mean_over_spread(envelope: Seq<u32>, a: int, d: int)
    requires
        envelope.len() % 2 == 0,
        envelope.len() > 0,
        d >= 0,
        forall|i: int|
            0 <= i < envelope.len() ==> #[trigger] envelope[i] == if i % 2 == 0 {
                a + d
            } else {
                a - d
            },
    ensures
        cnr_of(envelope) is Some <==> envelope.len() >= 256 && a > 0 && d > 0,
        cnr_of(envelope) matches Some((num, den)) ==> num * (2 * (d * d)) == den * (a * a) && den
            > 0,
{
    let n = envelope.len() as int;
    assert(envelope[0] == a + d);
    assert(envelope[1] == a - d);
    lemma_envelope_of_two(envelope, a, d);
    let sum = envelope_sum(envelope);
    let squares = envelope_squares(envelope);
    assert(sum * sum == (n * n) * (a * a)) by (nonlinear_arith)
        requires
            sum == n * a,
    ;
    assert(n * squares == (n * n) * (a * a) + (n * n) * (d * d)) by (nonlinear_arith)
        requires
            squares == n * (a * a + d * d),
    ;
    assert(((n * n) * (a * a)) * (2 * (d * d)) == (2 * ((n * n) * (d * d))) * (a * a))
        by (nonlinear_arith);
    assert(n * a > 0 <==> a > 0) by (nonlinear_arith)
        requires
            n > 0,
    ;
    assert((n * n) * (d * d) > 0 <==> d > 0) by (nonlinear_arith)
        requires
            n > 0,
            d >= 0,
    ;
}

proof fn lemma_envelope_of_two(envelope: Seq<u32>, a: int, d: int)
    requires
        envelope.len() % 2 == 0,
        forall|i: int|
            0 <= i < envelope.len() ==> #[trigger] envelope[i] == if i % 2 == 0 {
                a + d
            } else {
                a - d
            },
    ensures
        envelope_sum(envelope) == envelope.len() * a,
        envelope_squares(envelope) == envelope.len() * (a * a + d * d),
    decreases envelope.len(),
{
    if envelope.len() > 0 {
        let n = envelope.len() as int;
        let one = envelope.drop_last();
        let two = one.drop_last();
        assert forall|i: int| 0 <= i < two.len() implies #[trigger] two[i] == if i % 2 == 0 {
            a + d
        } else {
            a - d
        } by {
            assert(two[i] == envelope[i]);
        }
        lemma_envelope_of_two(two, a, d);
        assert(envelope[n - 1] == a - d);
        assert(envelope[n - 2] == a + d);
        assert(envelope_sum(one) == envelope_sum(two) + (a + d));
        assert(envelope_squares(one) == envelope_squares(two) + (a + d) * (a + d));
        assert((n - 2) * a + (a + d) + (a - d) == n * a) by (nonlinear_arith);
        assert((n - 2) * (a * a + d * d) + (a + d) * (a + d) + (a - d) * (a - d) == n * (a * a + d
            * d)) by (nonlinear_arith);
    }
}

/// Runs are apart by their own length and by the gap at least: what dips again
/// within the gap of a run's start is not taken for another.
pub proof fn law_runs_are_a_gap_apart(s: Seq<i32>, threshold4: int, gap: int, k: int)
    requires
        0 <= gap,
        0 <= k,
        k + 1 < low_runs(s, threshold4, gap, 0).len(),
    ensures
        ({
            let runs = low_runs(s, threshold4, gap, 0);
            runs[k + 1].0 >= runs[k].0 + gap && runs[k + 1].0 >= runs[k].1
        }),
{
    lemma_runs_apart(s, threshold4, gap, 0, k);
}

proof fn lemma_runs_apart(s: Seq<i32>, threshold4: int, gap: int, i: int, k: int)
    requires
        0 <= i,
        0 <= gap,
        0 <= k,
        k + 1 < low_runs(s, threshold4, gap, i).len(),
    ensures
        ({
            let runs = low_runs(s, threshold4, gap, i);
            runs[k + 1].0 >= runs[k].0 + gap && runs[k + 1].0 >= runs[k].1
        }),
    decreases max(0, s.len() - i),
{
    if i < s.len() {
        lemma_run_end(s, threshold4, i);
        if is_low(s[i], threshold4) {
            let end = run_end(s, threshold4, i);
            let next = i + max(gap, end - i);
            let tail = low_runs(s, threshold4, gap, next);
            let all = low_runs(s, threshold4, gap, i);
            assert(all == seq![(i, end)] + tail);
            lemma_low_runs_inside(s, threshold4, gap, next);
            assert(all[k + 1] == tail[k]);
            if k > 0 {
                lemma_runs_apart(s, threshold4, gap, next, k - 1);
                assert(all[k] == tail[k - 1]);
            }
        } else {
            lemma_runs_apart(s, threshold4, gap, i + 1, k);
        }
    }
}

/// The first run begins at the first low sample, whatever the gap.
pub proof fn law_first_run_begins_at_the_first_low_sample(
    s: Seq<i32>,
    threshold4: int,
    gap: int,
    first: int,
)
    requires
        0 <= gap,
        0 <= first < s.len(),
        4 * s[first] < threshold4,
        forall|i: int| 0 <= i < first ==> 4 * (#[trigger] s[i]) >= threshold4,
    ensures
        low_runs(s, threshold4, gap, 0).len() > 0,
        low_runs(s, threshold4, gap, 0)[0].0 == first,
{
    lemma_first_run(s, threshold4, gap, 0, first);
}

proof fn lemma_first_run(s: Seq<i32>, threshold4: int, gap: int, i: int, first: int)
    requires
        0 <= gap,
        0 <= i <= first < s.len(),
        4 * s[first] < threshold4,
        forall|j: int| i <= j < first ==> 4 * (#[trigger] s[j]) >= threshold4,
    ensures
        low_runs(s, threshold4, gap, i).len() > 0,
        low_runs(s, threshold4, gap, i)[0].0 == first,
    decreases first - i,
{
    if i < first {
        assert(4 * s[i] >= threshold4);
        lemma_first_run(s, threshold4, gap, i + 1, first);
    } else {
        let end = run_end(s, threshold4, i);
        let tail = low_runs(s, threshold4, gap, i + max(gap, end - i));
        assert(low_runs(s, threshold4, gap, i) == seq![(i, end)] + tail);
    }
}

/// A slice of less than five milliseconds or 64 samples, or without a rate,
/// gives no estimate, whatever it holds.
pub proof fn law_short_slices_give_no_estimate(demod: Seq<i32>, sample_rate: int)
    requires
        demod.len() < sample_rate / 200 || demod.len() < 64 || sample_rate == 0,
    ensures
        deviation_of(demod, sample_rate) is None,
{
}

} // verus!
