//! Which standard a demodulated slice carries, by its median line spacing.

use vstd::prelude::*;

use crate::detector::line_rate::{
    in_pulse, law_spacings_are_the_plausible_steps, lemma_behind_pulses, lemma_filter_everything,
    lemma_not_in_pulse, lemma_pulse_run_end, line_spacings, pulses_at, scan_length, spacings,
    steps_between,
};
use crate::levels::{
    averaged, decimated, is_low, lemma_run_end, max, moving_average, robust_sync_threshold, run_end,
    samples_in_tenth_us, smoothing_samples, smoothing_window, sync_threshold, tenth_us,
};
use crate::offset::{
    can_raise, lemma_averaged_raised, lemma_low_raised, lemma_ranked, lemma_run_end_raised,
    lemma_threshold_raised, raised,
};
use crate::stats::{
    law_majority_holds_the_median, law_median_stays_among_the_values, median, median_of,
};
use crate::types::SignalType;

verus! {

/// The first lowest sample from `lo` up to `hi`.
pub open spec fn lowest(s: Seq<i32>, lo: int, hi: int) -> int
    decreases hi - lo,
{
    if hi - lo <= 1 {
        lo
    } else {
        let p = lowest(s, lo, hi - 1);
        if s[hi - 1] < s[p] {
            hi - 1
        } else {
            p
        }
    }
}

/// The lowest sample of each low run met from `i` on. After each, the search
/// goes on `gap` samples later.
pub open spec fn dips(s: Seq<i32>, threshold4: int, gap: int, i: int) -> Seq<i64>
    decreases max(0, s.len() - i),
    when 0 <= i && 1 <= gap
    via dips_terminates
{
    if i >= s.len() {
        Seq::empty()
    } else if is_low(s[i], threshold4) {
        let p = lowest(s, i, run_end(s, threshold4, i));
        seq![p as i64] + dips(s, threshold4, gap, p + gap)
    } else {
        dips(s, threshold4, gap, i + 1)
    }
}

#[via_fn]
proof fn dips_terminates(s: Seq<i32>, threshold4: int, gap: int, i: int) {
    lemma_run_end(s, threshold4, i);
    if i < s.len() && is_low(s[i], threshold4) {
        lemma_lowest(s, i, run_end(s, threshold4, i));
    }
}

/// The first lowest sample lies in the range, none there is lower, and those
/// before it are higher.
pub proof fn lemma_lowest(s: Seq<i32>, lo: int, hi: int)
    requires
        0 <= lo < hi <= s.len(),
    ensures
        lo <= lowest(s, lo, hi) < hi,
        forall|k: int| lo <= k < hi ==> s[lowest(s, lo, hi)] <= #[trigger] s[k],
        forall|k: int| lo <= k < lowest(s, lo, hi) ==> s[lowest(s, lo, hi)] < #[trigger] s[k],
    decreases hi - lo,
{
    if hi - lo > 1 {
        lemma_lowest(s, lo, hi - 1);
    }
}

/// The standard of a median line spacing: nothing outside 15.4 to 16 kHz;
/// PAL lines last longer than 63.78 microseconds.
pub open spec fn standard_of_spacing(sample_rate: int, spacing: int) -> SignalType {
    if spacing <= 0 || !(15_400 * spacing <= sample_rate <= 16_000 * spacing) {
        SignalType::Unknown
    } else if 100_000_000 * spacing > 6_378 * sample_rate {
        SignalType::AnalogVideoPal
    } else {
        SignalType::AnalogVideoNtsc
    }
}

/// The standard that a list of dip positions shows: five dips at least, and
/// the median of their spacings from 30 to 100 microseconds.
pub open spec fn standard_of_dips(found: Seq<i64>, sample_rate: int) -> SignalType {
    let gaps = spacings(found, tenth_us(sample_rate, 300), tenth_us(sample_rate, 1000));
    if found.len() < 5 || gaps.len() == 0 {
        SignalType::Unknown
    } else {
        standard_of_spacing(sample_rate, median_of(gaps))
    }
}

/// The standard of a demodulated slice, `Unknown` where it shows no line
/// structure.
pub open spec fn standard_of(demod: Seq<i32>, sample_rate: int) -> SignalType {
    let n = scan_length(demod.len() as int, sample_rate);
    let smoothed = averaged(demod.take(n), smoothing_window(sample_rate));
    if demod.len() < sample_rate / 200 {
        SignalType::Unknown
    } else {
        match sync_threshold(smoothed) {
            None => SignalType::Unknown,
            Some(t) => standard_of_dips(
                dips(smoothed, t, tenth_us(sample_rate, 300), 0),
                sample_rate,
            ),
        }
    }
}

fn scan_dips(s: &[i32], threshold4: i64, gap: usize) -> (found: Vec<i64>)
    requires
        gap >= 1,
        s.len() <= 0x7fff_ffff,
    ensures
        found@ == dips(s@, threshold4 as int, gap as int, 0),
        forall|k: int| 0 <= k < found.len() ==> 0 <= #[trigger] found[k],
{
    let n: usize = s.len();
    let ghost all = dips(s@, threshold4 as int, gap as int, 0);
    let mut found: Vec<i64> = Vec::new();
    let mut i: usize = 0;
    assert(found@ + all =~= all);
    while i < n
        invariant
            n == s.len() <= 0x7fff_ffff,
            gap >= 1,
            i <= n,
            found@ + dips(s@, threshold4 as int, gap as int, i as int) == all,
            forall|k: int| 0 <= k < found.len() ==> 0 <= #[trigger] found[k],
        decreases n - i,
    {
        let ghost rest = dips(s@, threshold4 as int, gap as int, i as int);
        if 4 * (s[i] as i64) < threshold4 {
            let start: usize = i;
            let mut low: usize = i;
            i += 1;
            while i < n && 4 * (s[i] as i64) < threshold4
                invariant
                    n == s.len(),
                    start < i <= n,
                    start <= low < i,
                    low == lowest(s@, start as int, i as int),
                    run_end(s@, threshold4 as int, start as int) == run_end(
                        s@,
                        threshold4 as int,
                        i as int,
                    ),
                decreases n - i,
            {
                if s[i] < s[low] {
                    low = i;
                }
                i += 1;
            }
            let ghost before = found@;
            found.push(low as i64);
            i = if gap > n - low {
                n
            } else {
                low + gap
            };
            proof {
                let tail = dips(s@, threshold4 as int, gap as int, low + gap);
                assert(rest == seq![low as i64] + tail);
                assert(dips(s@, threshold4 as int, gap as int, i as int) == tail);
                assert(found@ + tail =~= before + rest);
            }
        } else {
            i += 1;
        }
    }
    assert(found@ + Seq::<i64>::empty() =~= found@);
    found
}

/// Classify a demodulated slice as PAL or NTSC by the median spacing of its
/// sync tips. `Unknown` where the slice carries no measurable line
/// structure; callers pick their own default then.
pub fn detect_video_standard(demod_data: &[i32], sample_rate: u32) -> (s: SignalType)
    ensures
        s == standard_of(demod_data@, sample_rate as int),
{
    let n: usize = (sample_rate / 200) as usize;
    if demod_data.len() < n {
        return SignalType::Unknown;
    }
    let head: &[i32] = vstd::slice::slice_subrange(demod_data, 0, n);
    assert(head@ =~= demod_data@.take(n as int));
    let smoothed: Vec<i32> = moving_average(head, smoothing_samples(sample_rate));
    let threshold4: i64 = match robust_sync_threshold(smoothed.as_slice()) {
        Some(t) => t,
        None => {
            return SignalType::Unknown;
        },
    };
    let min_gap: usize = samples_in_tenth_us(sample_rate, 300);
    let max_gap: usize = samples_in_tenth_us(sample_rate, 1000);
    assert(decimated(smoothed@).len() >= 16);
    let found: Vec<i64> = scan_dips(smoothed.as_slice(), threshold4, min_gap);
    if found.len() < 5 {
        return SignalType::Unknown;
    }
    let gaps: Vec<i64> = line_spacings(&found, min_gap as i64, max_gap as i64);
    if gaps.len() == 0 {
        return SignalType::Unknown;
    }
    let spacing: i64 = median(&gaps);
    proof {
        lemma_ranked(gaps@, gaps.len() as int / 2);
    }
    let rate: i64 = sample_rate as i64;
    if spacing <= 0 || !(15_400 * spacing <= rate && rate <= 16_000 * spacing) {
        return SignalType::Unknown;
    }
    if 100_000_000 * spacing > 6_378 * rate {
        SignalType::AnalogVideoPal
    } else {
        SignalType::AnalogVideoNtsc
    }
}

proof fn lemma_lowest_raised(s: Seq<i32>, c: int, lo: int, hi: int)
    requires
        can_raise(s, c),
        0 <= lo < hi <= s.len(),
    ensures
        lowest(raised(s, c), lo, hi) == lowest(s, lo, hi),
    decreases hi - lo,
{
    if hi - lo > 1 {
        lemma_lowest_raised(s, c, lo, hi - 1);
        lemma_lowest(s, lo, hi - 1);
        assert(i32::MIN <= s[hi - 1] + c <= i32::MAX);
        assert(i32::MIN <= s[lowest(s, lo, hi - 1)] + c <= i32::MAX);
    }
}

proof fn lemma_dips_raised(s: Seq<i32>, c: int, t: int, gap: int, i: int)
    requires
        can_raise(s, c),
        0 <= i,
        1 <= gap,
    ensures
        dips(raised(s, c), t + 4 * c, gap, i) == dips(s, t, gap, i),
    decreases max(0, s.len() - i),
{
    if i < s.len() {
        lemma_low_raised(s, c, t, i);
        if is_low(s[i], t) {
            let end = run_end(s, t, i);
            lemma_run_end_raised(s, c, t, i);
            lemma_run_end(s, t, i);
            lemma_lowest_raised(s, c, i, end);
            lemma_lowest(s, i, end);
            lemma_dips_raised(s, c, t, gap, lowest(s, i, end) + gap);
        } else {
            lemma_dips_raised(s, c, t, gap, i + 1);
        }
    }
}

/// A constant offset on every sample changes no classification.
pub proof fn law_standard_ignores_dc_offset(demod: Seq<i32>, sample_rate: u32, c: int)
    requires
        can_raise(demod, c),
    ensures
        standard_of(raised(demod, c), sample_rate as int) == standard_of(demod, sample_rate as int),
{
    let rate = sample_rate as int;
    let n = scan_length(demod.len() as int, rate);
    let head = demod.take(n);
    let win = smoothing_window(rate);
    assert(can_raise(head, c)) by {
        assert forall|i: int| 0 <= i < head.len() implies i32::MIN <= #[trigger] head[i] + c
            <= i32::MAX by {
            assert(i32::MIN <= demod[i] + c <= i32::MAX);
        }
    }
    assert(raised(demod, c).take(n) =~= raised(head, c));
    lemma_averaged_raised(head, c, win);
    let s = averaged(head, win);
    lemma_threshold_raised(s, c);
    if let Some(t) = sync_threshold(s) {
        assert(decimated(s).len() >= 16);
        lemma_dips_raised(s, c, t, tenth_us(rate, 300), 0);
    }
}

/// The standard is a matter of time: a line is PAL exactly where its rate is
/// from 15.4 to 16 kHz and it lasts longer than 63.78 microseconds, NTSC
/// where its rate is in that range and it lasts no longer, and nothing
/// elsewhere.
pub proof fn law_line_period_names_the_standard(sample_rate: int, spacing: int)
    requires
        spacing > 0,
    ensures
        ({
            let s = standard_of_spacing(sample_rate, spacing);
            let video = 15_400 * spacing <= sample_rate <= 16_000 * spacing;
            let nanoseconds = 1_000_000_000 * spacing;
            &&& s == SignalType::AnalogVideoPal <==> video && nanoseconds > 63_780 * sample_rate
            &&& s == SignalType::AnalogVideoNtsc <==> video && nanoseconds <= 63_780 * sample_rate
            &&& s == SignalType::Unknown <==> !video
        }),
{
}

/// The same line sampled at a multiple of the rate, or at a fraction of it,
/// is of the same standard.
pub proof fn law_standard_ignores_sampling(sample_rate: int, spacing: int, k: int)
    requires
        k >= 1,
    ensures
        standard_of_spacing(k * sample_rate, k * spacing) == standard_of_spacing(
            sample_rate,
            spacing,
        ),
{
    assert(k * spacing <= 0 <==> spacing <= 0) by (nonlinear_arith)
        requires
            k >= 1,
    ;
    assert(15_400 * (k * spacing) <= k * sample_rate <==> 15_400 * spacing <= sample_rate)
        by (nonlinear_arith)
        requires
            k >= 1,
    ;
    assert(k * sample_rate <= 16_000 * (k * spacing) <==> sample_rate <= 16_000 * spacing)
        by (nonlinear_arith)
        requires
            k >= 1,
    ;
    assert(100_000_000 * (k * spacing) > 6_378 * (k * sample_rate) <==> 100_000_000 * spacing
        > 6_378 * sample_rate) by (nonlinear_arith)
        requires
            k >= 1,
    ;
}

/// A longer line is never taken for NTSC where a shorter one is PAL.
pub proof fn law_longer_lines_are_pal(sample_rate: int, shorter: int, longer: int)
    requires
        shorter <= longer,
        standard_of_spacing(sample_rate, shorter) == SignalType::AnalogVideoPal,
    ensures
        standard_of_spacing(sample_rate, longer) != SignalType::AnalogVideoNtsc,
{
}

/// At every rate at which both are a whole number of samples, lines of 64
/// microseconds are PAL and lines of 63.56 microseconds are NTSC.
pub proof fn law_nominal_lines_are_told_apart(k: int)
    requires
        k >= 1,
    ensures
        standard_of_spacing(25_000_000 * k, 1_600 * k) == SignalType::AnalogVideoPal,
        standard_of_spacing(25_000_000 * k, 1_589 * k) == SignalType::AnalogVideoNtsc,
{
}

/// Where more than half of the plausible spacings, those from 30 to 100
/// microseconds, last more than 63.78 microseconds and come at 15.4 kHz or
/// faster, the dips are PAL lines; where more than half last no longer and
/// come at 16 kHz or slower, they are NTSC lines; where more than half are
/// too long, or more than half too short, they are no video. Missed and
/// spurious dips do not change that.
pub proof fn law_most_spacings_decide(found: Seq<i64>, sample_rate: int)
    requires
        found.len() >= 5,
        sample_rate >= 0,
        forall|k: int| 0 <= k < found.len() ==> 0 <= #[trigger] found[k],
    ensures
        ({
            let plausible = steps_between(found).filter(
                |g: i64| 3 * sample_rate / 100_000 <= g <= sample_rate / 10_000,
            );
            let n = plausible.len();
            let s = standard_of_dips(found, sample_rate);
            &&& n < 2 * plausible.filter(
                |g: i64| 1_000_000_000 * g > 63_780 * sample_rate && 15_400 * g <= sample_rate,
            ).len() ==> s == SignalType::AnalogVideoPal
            &&& n < 2 * plausible.filter(
                |g: i64|
                    0 < g && 1_000_000_000 * g <= 63_780 * sample_rate && sample_rate <= 16_000 * g,
            ).len() ==> s == SignalType::AnalogVideoNtsc
            &&& n < 2 * plausible.filter(|g: i64| 15_400 * g > sample_rate).len() ==> s
                == SignalType::Unknown
            &&& n < 2 * plausible.filter(|g: i64| 16_000 * g < sample_rate).len() ==> s
                == SignalType::Unknown
        }),
{
    let least = tenth_us(sample_rate, 300);
    let most = tenth_us(sample_rate, 1000);
    law_spacings_are_the_plausible_steps(found, least, most);
    let gaps = spacings(found, least, most);
    let plausible = steps_between(found).filter(
        |g: i64| 3 * sample_rate / 100_000 <= g <= sample_rate / 10_000,
    );
    assert(least == 3 * sample_rate / 100_000);
    assert(most == sample_rate / 10_000);
    assert(gaps == plausible) by {
        assert((|g: i64| 3 * sample_rate / 100_000 <= g <= sample_rate / 10_000) =~= (|g: i64|
            least <= g <= most));
    }
    let pal = |g: i64| 1_000_000_000 * g > 63_780 * sample_rate && 15_400 * g <= sample_rate;
    let ntsc = |g: i64|
        0 < g && 1_000_000_000 * g <= 63_780 * sample_rate && sample_rate <= 16_000 * g;
    let long = |g: i64| 15_400 * g > sample_rate;
    let short = |g: i64| 16_000 * g < sample_rate;
    let n = gaps.len();
    gaps.lemma_filter_len(pal);
    gaps.lemma_filter_len(ntsc);
    gaps.lemma_filter_len(long);
    gaps.lemma_filter_len(short);
    if n < 2 * gaps.filter(pal).len() {
        let lo = 63_780 * sample_rate / 1_000_000_000 + 1;
        let hi = sample_rate / 15_400;
        lemma_same_filter(gaps, pal, |g: i64| lo <= g <= hi);
        law_majority_holds_the_median(gaps, lo, hi);
    }
    if n < 2 * gaps.filter(ntsc).len() {
        let lo = max(1, (sample_rate + 15_999) / 16_000);
        let hi = 63_780 * sample_rate / 1_000_000_000;
        lemma_same_filter(gaps, ntsc, |g: i64| lo <= g <= hi);
        law_majority_holds_the_median(gaps, lo, hi);
    }
    if n < 2 * gaps.filter(long).len() {
        let lo = sample_rate / 15_400 + 1;
        let hi = max(lo, i64::MAX as int);
        lemma_same_filter(gaps, long, |g: i64| lo <= g <= hi);
        law_majority_holds_the_median(gaps, lo, hi);
    }
    if n < 2 * gaps.filter(short).len() {
        let hi = (sample_rate - 1) / 16_000;
        if sample_rate == 0 {
            lemma_same_filter(gaps, short, |g: i64| i64::MIN <= g <= -1);
            law_majority_holds_the_median(gaps, i64::MIN as int, -1);
        } else {
            lemma_same_filter(gaps, short, |g: i64| i64::MIN <= g <= hi);
            law_majority_holds_the_median(gaps, i64::MIN as int, hi);
        }
    }
}

proof fn lemma_same_filter(s: Seq<i64>, a: spec_fn(i64) -> bool, b: spec_fn(i64) -> bool)
    requires
        forall|g: i64| #[trigger] a(g) <==> b(g),
    ensures
        s.filter(a) == s.filter(b),
    decreases s.len(),
{
    reveal(Seq::filter);
    if s.len() > 0 {
        lemma_same_filter(s.drop_last(), a, b);
        assert(a(s.last()) <==> b(s.last()));
    }
}

/// Fewer than five dips, and dips of which no two neighbours are 30 to 100
/// microseconds apart, show nothing.
pub proof fn law_few_dips_show_nothing(found: Seq<i64>, sample_rate: int)
    requires
        forall|k: int| 0 <= k < found.len() ==> 0 <= #[trigger] found[k],
        found.len() < 5 || forall|k: int|
            #![trigger found[k]]
            0 <= k < found.len() - 1 ==> !(3 * sample_rate / 100_000 <= found[k + 1] - found[k]
                <= sample_rate / 10_000),
    ensures
        standard_of_dips(found, sample_rate) == SignalType::Unknown,
{
    if found.len() >= 5 {
        let least = tenth_us(sample_rate, 300);
        let most = tenth_us(sample_rate, 1000);
        assert(least == 3 * sample_rate / 100_000);
        assert(most == sample_rate / 10_000);
        law_spacings_are_the_plausible_steps(found, least, most);
        let steps = steps_between(found);
        let keep = |g: i64| least <= g <= most;
        let kept = steps.filter(keep);
        if kept.len() > 0 {
            steps.lemma_filter_pred(keep, 0);
            steps.lemma_filter_contains_rev(keep, kept[0]);
            let k = choose|k: int| 0 <= k < steps.len() && steps[k] == kept[0];
            assert(0 <= found[k] && 0 <= found[k + 1]);
            assert(steps[k] == found[k + 1] - found[k]);
        }
    }
}

/// Where a level dips once in every period, each time in the same way, one
/// dip is found per period, at its lowest sample, a period after the one
/// before.
pub proof fn law_even_dips_are_found(
    s: Seq<i32>,
    threshold4: int,
    gap: int,
    first: int,
    period: int,
    width: int,
    count: int,
    k: int,
)
    requires
        pulses_at(s, threshold4, first, period, width, count),
        s.len() <= i64::MAX,
        width <= gap,
        gap + width <= period,
        forall|j: int, d: int|
            #![trigger s[first + j * period + d]]
            0 <= j < count && 0 <= d < width ==> s[first + j * period + d] == s[first + d],
        0 <= k < count,
    ensures
        dips(s, threshold4, gap, 0).len() == count,
        ({
            let p = dips(s, threshold4, gap, 0)[0];
            &&& first <= p < first + width
            &&& forall|d: int| 0 <= d < width ==> s[p as int] <= #[trigger] s[first + d]
            &&& dips(s, threshold4, gap, 0)[k] == p + k * period
        }),
{
    lemma_dips_from(s, threshold4, gap, first, period, width, count, 0, 0);
    assert(0 * period == 0);
    lemma_pulse_run_end(s, threshold4, first, period, width, count, 0, first);
    lemma_lowest(s, first, first + width);
    let all = dips(s, threshold4, gap, 0);
    assert(all[k - 0] == lowest(s, first, first + width) + k * period);
    assert(all[0 - 0] == lowest(s, first, first + width) + 0 * period);
}

proof fn lemma_lowest_shifted(s: Seq<i32>, first: int, shift: int, width: int, most: int)
    requires
        1 <= width <= most,
        0 <= first,
        0 <= shift,
        first + shift + most <= s.len(),
        forall|d: int| 0 <= d < most ==> #[trigger] s[first + shift + d] == s[first + d],
    ensures
        lowest(s, first + shift, first + shift + width) == lowest(s, first, first + width) + shift,
    decreases width,
{
    if width > 1 {
        lemma_lowest_shifted(s, first, shift, width - 1, most);
        lemma_lowest(s, first, first + width - 1);
        let p = lowest(s, first, first + width - 1);
        assert(s[first + shift + (p - first)] == s[first + (p - first)]);
        assert(s[first + shift + (width - 1)] == s[first + (width - 1)]);
    }
}

proof fn lemma_dips_from(
    s: Seq<i32>,
    threshold4: int,
    gap: int,
    first: int,
    period: int,
    width: int,
    count: int,
    k: int,
    i: int,
)
    requires
        pulses_at(s, threshold4, first, period, width, count),
        s.len() <= i64::MAX,
        width <= gap,
        gap + width <= period,
        forall|j: int, d: int|
            #![trigger s[first + j * period + d]]
            0 <= j < count && 0 <= d < width ==> s[first + j * period + d] == s[first + d],
        0 <= k <= count,
        0 <= i,
        k == 0 || first + (k - 1) * period + width <= i,
        k < count ==> i <= first + k * period,
    ensures
        dips(s, threshold4, gap, i).len() == count - k,
        forall|j: int|
            k <= j < count ==> #[trigger] dips(s, threshold4, gap, i)[j - k] == lowest(
                s,
                first,
                first + width,
            ) + j * period,
    decreases count - k, s.len() + 1 - i,
{
    if k < count {
        lemma_pulse_run_end(s, threshold4, first, period, width, count, k, first + k * period);
        let start = first + k * period;
        if i < start {
            lemma_not_in_pulse(i, first, period, width, count, k);
            assert(!(4 * s[i] < threshold4));
            lemma_dips_from(s, threshold4, gap, first, period, width, count, k, i + 1);
        } else {
            assert(in_pulse(i, first, period, width, count));
            assert(4 * s[i] < threshold4);
            assert forall|d: int| 0 <= d < width implies #[trigger] s[first + k * period + d]
                == s[first + d] by {}
            lemma_lowest_shifted(s, first, k * period, width, width);
            lemma_lowest(s, first, first + width);
            let p = lowest(s, start, start + width);
            let next = p + gap;
            assert((k + 1) * period == k * period + period) by (nonlinear_arith);
            lemma_dips_from(s, threshold4, gap, first, period, width, count, k + 1, next);
            let tail = dips(s, threshold4, gap, next);
            let all = dips(s, threshold4, gap, i);
            assert(all == seq![p as i64] + tail);
            assert forall|j: int| k <= j < count implies #[trigger] all[j - k] == lowest(
                s,
                first,
                first + width,
            ) + j * period by {
                if j > k {
                    assert(all[j - k] == tail[j - (k + 1)]);
                }
            }
        }
    } else if i < s.len() {
        lemma_behind_pulses(i, first, period, width, count);
        assert(!(4 * s[i] < threshold4));
        lemma_dips_from(s, threshold4, gap, first, period, width, count, k, i + 1);
    }
}

/// A slice whose smoothed level dips evenly, in the same way each time, is of
/// the standard that the period of its dips has in time.
pub proof fn law_even_slice_shows_its_standard(
    demod: Seq<i32>,
    sample_rate: int,
    threshold4: int,
    first: int,
    period: int,
    width: int,
    count: int,
)
    requires
        100_000 <= sample_rate <= u32::MAX,
        demod.len() >= sample_rate / 200,
        ({
            let smoothed = averaged(
                demod.take(sample_rate / 200),
                smoothing_window(sample_rate),
            );
            &&& sync_threshold(smoothed) == Some(threshold4)
            &&& pulses_at(smoothed, threshold4, first, period, width, count)
            &&& forall|j: int, d: int|
                #![trigger smoothed[first + j * period + d]]
                0 <= j < count && 0 <= d < width ==> smoothed[first + j * period + d]
                    == smoothed[first + d]
        }),
        count >= 5,
        width <= 3 * sample_rate / 100_000,
        width + 3 * sample_rate / 100_000 <= period,
    ensures
        ({
            let s = standard_of(demod, sample_rate);
            let video = 15_400 * period <= sample_rate <= 16_000 * period;
            let nanoseconds = 1_000_000_000 * period;
            &&& s == SignalType::AnalogVideoPal <==> video && nanoseconds > 63_780 * sample_rate
            &&& s == SignalType::AnalogVideoNtsc <==> video && nanoseconds <= 63_780 * sample_rate
        }),
{
    let n = scan_length(demod.len() as int, sample_rate);
    assert(n == sample_rate / 200);
    let smoothed = averaged(demod.take(n), smoothing_window(sample_rate));
    let gap = tenth_us(sample_rate, 300);
    assert(gap == 3 * sample_rate / 100_000);
    let found = dips(smoothed, threshold4, gap, 0);
    assert forall|k: int| 0 <= k < count implies #[trigger] found[k] == found[0] + k * period
        && 0 <= found[k] && found.len() == count by {
        law_even_dips_are_found(
            smoothed,
            threshold4,
            gap,
            first,
            period,
            width,
            count,
            k,
        );
        assert(0 <= k * period) by (nonlinear_arith)
            requires
                0 <= k,
                0 < period,
        ;
    }
    assert(found.len() == count) by {
        assert(found[0] == found[0] + 0 * period);
    }
    let least = tenth_us(sample_rate, 300);
    let most = tenth_us(sample_rate, 1000);
    law_spacings_are_the_plausible_steps(found, least, most);
    let steps = steps_between(found);
    assert forall|k: int| 0 <= k < steps.len() implies #[trigger] steps[k] == period by {
        assert((k + 1) * period == k * period + period) by (nonlinear_arith);
        assert(found[k + 1] == found[0] + (k + 1) * period);
        assert(found[k] == found[0] + k * period);
    }
    if least <= period <= most {
        lemma_filter_everything(steps, |g: i64| least <= g <= most);
        law_median_stays_among_the_values(steps, period, period);
        law_line_period_names_the_standard(sample_rate, period);
    } else {
        assert forall|k: int| #![trigger found[k]] 0 <= k < found.len() - 1 implies !(3
            * sample_rate / 100_000 <= found[k + 1] - found[k] <= sample_rate / 10_000) by {
            assert(steps[k] == period);
            assert(found[k + 1] == found[0] + (k + 1) * period);
            assert((k + 1) * period == k * period + period) by (nonlinear_arith);
        }
        law_few_dips_show_nothing(found, sample_rate);
    }
}

/// Each dip is a low sample, and the next is a gap away at least.
pub proof fn law_dips_are_a_gap_apart(s: Seq<i32>, threshold4: int, gap: int, k: int)
    requires
        1 <= gap,
        s.len() <= i64::MAX,
        0 <= k < dips(s, threshold4, gap, 0).len(),
    ensures
        ({
            let found = dips(s, threshold4, gap, 0);
            &&& 0 <= found[k] < s.len()
            &&& 4 * s[found[k] as int] < threshold4
            &&& k + 1 < found.len() ==> found[k + 1] >= found[k] + gap
        }),
{
    lemma_dips_apart(s, threshold4, gap, 0, k);
}

proof fn lemma_dips_apart(s: Seq<i32>, threshold4: int, gap: int, i: int, k: int)
    requires
        0 <= i,
        1 <= gap,
        s.len() <= i64::MAX,
        0 <= k < dips(s, threshold4, gap, i).len(),
    ensures
        ({
            let found = dips(s, threshold4, gap, i);
            &&& i <= found[k] < s.len()
            &&& is_low(s[found[k] as int], threshold4)
            &&& k + 1 < found.len() ==> found[k + 1] >= found[k] + gap
        }),
    decreases max(0, s.len() - i),
{
    if i < s.len() {
        lemma_run_end(s, threshold4, i);
        if is_low(s[i], threshold4) {
            let end = run_end(s, threshold4, i);
            lemma_lowest(s, i, end);
            let p = lowest(s, i, end);
            let tail = dips(s, threshold4, gap, p + gap);
            let all = dips(s, threshold4, gap, i);
            assert(all == seq![p as i64] + tail);
            if k > 0 {
                lemma_dips_apart(s, threshold4, gap, p + gap, k - 1);
                assert(all[k] == tail[k - 1]);
                if k + 1 < all.len() {
                    assert(all[k + 1] == tail[k]);
                }
            } else if all.len() > 1 {
                lemma_dips_apart(s, threshold4, gap, p + gap, 0);
                assert(all[1] == tail[0]);
            }
        } else {
            lemma_dips_apart(s, threshold4, gap, i + 1, k);
        }
    }
}

/// A slice of less than five milliseconds shows nothing, and of a longer one
/// only the first five milliseconds are looked at.
pub proof fn law_slices_are_looked_at_in_time(a: Seq<i32>, b: Seq<i32>, sample_rate: int)
    requires
        sample_rate >= 0,
    ensures
        a.len() < sample_rate / 200 ==> standard_of(a, sample_rate) == SignalType::Unknown,
        a.len() >= sample_rate / 200 && b.len() >= sample_rate / 200 && a.take(sample_rate / 200)
            == b.take(sample_rate / 200) ==> standard_of(a, sample_rate) == standard_of(
            b,
            sample_rate,
        ),
{
}

} // verus!
