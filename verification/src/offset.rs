//! A constant added to every sample, as a tuning error adds one, changes no
//! measurement.

use vstd::prelude::*;

use crate::levels::{
    averaged, consistent, decimated, deviation_of, in_range, is_low, is_pulse,
    lemma_low_runs_inside, lemma_run_end, levels_at, low_runs, max, porch_window, porches,
    pulse_levels, run_end, smoothing_window, sum_range, swings, sync_threshold, tip_and_middle, tips,
    widened,
    DeviationEstimate, MIN_PULSES, PulseLevels, SyncLevels,
};
use crate::stats::{
    abs, count_upto, has_rank, law_rank_is_unique, law_ranked_value_occurs, mad_of,
    median_of, ranked,
};

verus! {

/// Every sample raised by `c`.
pub open spec fn raised(s: Seq<i32>, c: int) -> Seq<i32> {
    s.map_values(|v: i32| (v + c) as i32)
}

/// Whether every raised sample is still a sample.
pub open spec fn can_raise(s: Seq<i32>, c: int) -> bool {
    forall|i: int| 0 <= i < s.len() ==> i32::MIN <= #[trigger] s[i] + c <= i32::MAX
}

spec fn lifted(s: Seq<i64>, c: int) -> Seq<i64> {
    s.map_values(|v: i64| (v + c) as i64)
}

spec fn can_lift(s: Seq<i64>, c: int) -> bool {
    forall|i: int| 0 <= i < s.len() ==> i64::MIN <= #[trigger] s[i] + c <= i64::MAX
}

proof fn lemma_count_lifted(s: Seq<i64>, c: int, x: int)
    requires
        can_lift(s, c),
    ensures
        count_upto(lifted(s, c), x + c) == count_upto(s, x),
    decreases s.len(),
{
    if s.len() > 0 {
        assert(lifted(s, c).drop_last() =~= lifted(s.drop_last(), c));
        assert(i64::MIN <= s[s.len() - 1] + c <= i64::MAX);
        lemma_count_lifted(s.drop_last(), c, x);
    }
}

/// Every position below the length has a value.
proof fn lemma_rank_exists_upto(s: Seq<i64>, rank: int, x: int)
    requires
        0 <= rank < count_upto(s, x),
        i64::MIN - 1 <= x,
    ensures
        exists|y: int| has_rank(s, rank, y),
    decreases x - i64::MIN + 1,
{
    if x == i64::MIN - 1 {
        lemma_count_below_all(s, x);
    } else if count_upto(s, x - 1) <= rank {
        assert(has_rank(s, rank, x));
    } else {
        lemma_rank_exists_upto(s, rank, x - 1);
    }
}

proof fn lemma_count_below_all(s: Seq<i64>, x: int)
    requires
        x < i64::MIN,
    ensures
        count_upto(s, x) == 0,
    decreases s.len(),
{
    if s.len() > 0 {
        lemma_count_below_all(s.drop_last(), x);
    }
}

proof fn lemma_count_above_all(s: Seq<i64>, x: int)
    requires
        x >= i64::MAX,
    ensures
        count_upto(s, x) == s.len(),
    decreases s.len(),
{
    if s.len() > 0 {
        lemma_count_above_all(s.drop_last(), x);
    }
}

/// The value at a position is one of the elements.
pub proof fn lemma_ranked(s: Seq<i64>, rank: int)
    requires
        0 <= rank < s.len(),
    ensures
        has_rank(s, rank, ranked(s, rank)),
        exists|i: int| 0 <= i < s.len() && #[trigger] s[i] == ranked(s, rank),
{
    lemma_count_above_all(s, i64::MAX as int);
    lemma_rank_exists_upto(s, rank, i64::MAX as int);
    law_ranked_value_occurs(s, rank, ranked(s, rank));
}

proof fn lemma_ranked_lifted(s: Seq<i64>, c: int, rank: int)
    requires
        can_lift(s, c),
        0 <= rank < s.len(),
    ensures
        ranked(lifted(s, c), rank) == ranked(s, rank) + c,
{
    let x = ranked(s, rank);
    lemma_ranked(s, rank);
    lemma_count_lifted(s, c, x);
    lemma_count_lifted(s, c, x - 1);
    assert(x - 1 + c == x + c - 1);
    assert(has_rank(lifted(s, c), rank, x + c));
    law_rank_is_unique(lifted(s, c), rank, x + c, ranked(lifted(s, c), rank));
}

proof fn lemma_sum_raised(s: Seq<i32>, c: int, lo: int, hi: int)
    requires
        can_raise(s, c),
        0 <= lo <= hi <= s.len(),
    ensures
        sum_range(raised(s, c), lo, hi) == sum_range(s, lo, hi) + (hi - lo) * c,
    decreases hi - lo,
{
    if lo < hi {
        lemma_sum_raised(s, c, lo, hi - 1);
        assert(i32::MIN <= s[hi - 1] + c <= i32::MAX);
        assert((hi - lo) * c == (hi - 1 - lo) * c + c) by (nonlinear_arith);
    } else {
        assert((hi - lo) * c == 0) by (nonlinear_arith)
            requires
                hi == lo,
        ;
    }
}

proof fn lemma_sum_between(s: Seq<i32>, lo: int, hi: int, least: int, most: int)
    requires
        0 <= lo <= hi <= s.len(),
        forall|i: int| lo <= i < hi ==> least <= #[trigger] s[i] <= most,
    ensures
        (hi - lo) * least <= sum_range(s, lo, hi) <= (hi - lo) * most,
    decreases hi - lo,
{
    if lo < hi {
        lemma_sum_between(s, lo, hi - 1, least, most);
        assert((hi - lo) * least == (hi - 1 - lo) * least + least) by (nonlinear_arith);
        assert((hi - lo) * most == (hi - 1 - lo) * most + most) by (nonlinear_arith);
    } else {
        assert((hi - lo) * least == 0 && (hi - lo) * most == 0) by (nonlinear_arith)
            requires
                hi == lo,
        ;
    }
}

proof fn lemma_average_at(s: Seq<i32>, c: int, lo: int, hi: int)
    requires
        can_raise(s, c),
        0 <= lo < hi <= s.len(),
    ensures
        i32::MIN <= sum_range(s, lo, hi) / (hi - lo) <= i32::MAX,
        i32::MIN <= sum_range(s, lo, hi) / (hi - lo) + c <= i32::MAX,
        sum_range(raised(s, c), lo, hi) / (hi - lo) == sum_range(s, lo, hi) / (hi - lo) + c,
{
    let least = if c >= 0 {
        i32::MIN as int
    } else {
        i32::MIN - c
    };
    let most = if c >= 0 {
        i32::MAX - c
    } else {
        i32::MAX as int
    };
    let n = hi - lo;
    let total = sum_range(s, lo, hi);
    assert forall|k: int| lo <= k < hi implies least <= #[trigger] s[k] <= most by {
        assert(i32::MIN <= s[k] + c <= i32::MAX);
    }
    lemma_sum_between(s, lo, hi, least, most);
    lemma_sum_raised(s, c, lo, hi);
    assert(least <= total / n <= most && (total + n * c) / n == total / n + c) by (nonlinear_arith)
        requires
            n > 0,
            n * least <= total <= n * most,
    ;
}

/// The moving average moves with its input, and stays among its values.
pub proof fn lemma_averaged_raised(s: Seq<i32>, c: int, win: int)
    requires
        can_raise(s, c),
    ensures
        averaged(raised(s, c), win) == raised(averaged(s, win), c),
        can_raise(averaged(s, win), c),
{
    if win > 1 && s.len() >= win {
        assert forall|i: int| 0 <= i < s.len() implies i32::MIN <= #[trigger] averaged(s, win)[i]
            + c <= i32::MAX by {
            lemma_average_at(s, c, max(0, i + 1 - win), i + 1);
        }
        assert forall|i: int| 0 <= i < s.len() implies averaged(raised(s, c), win)[i] == raised(
            averaged(s, win),
            c,
        )[i] by {
            lemma_average_at(s, c, max(0, i + 1 - win), i + 1);
        }
    }
    assert(averaged(raised(s, c), win) =~= raised(averaged(s, win), c));
}

pub proof fn lemma_levels_raised(s: Seq<i32>, c: int)
    requires
        can_raise(s, c),
    ensures
        tip_and_middle(raised(s, c)) == (match tip_and_middle(s) {
            Some((tip, middle)) => Some((tip + c, middle + c)),
            None => None::<(int, int)>,
        }),
{
    let d = decimated(s);
    assert forall|i: int| 0 <= i < d.len() implies i64::MIN <= #[trigger] d[i] + c <= i64::MAX by {
        assert(i32::MIN <= s[16 * i] + c <= i32::MAX);
    }
    assert(decimated(raised(s, c)) =~= lifted(d, c)) by {
        assert forall|i: int| 0 <= i < d.len() implies decimated(raised(s, c))[i] == lifted(
            d,
            c,
        )[i] by {
            assert(i32::MIN <= s[16 * i] + c <= i32::MAX);
        }
    }
    if d.len() >= 16 {
        lemma_ranked_lifted(d, c, d.len() as int / 50);
        lemma_ranked_lifted(d, c, d.len() as int / 2);
    }
}

pub proof fn lemma_threshold_raised(s: Seq<i32>, c: int)
    requires
        can_raise(s, c),
    ensures
        sync_threshold(raised(s, c)) == (match sync_threshold(s) {
            Some(t) => Some(t + 4 * c),
            None => None::<int>,
        }),
{
    lemma_levels_raised(s, c);
}

pub proof fn lemma_low_raised(s: Seq<i32>, c: int, t: int, i: int)
    requires
        can_raise(s, c),
        0 <= i < s.len(),
    ensures
        is_low(raised(s, c)[i], t + 4 * c) == is_low(s[i], t),
{
    assert(i32::MIN <= s[i] + c <= i32::MAX);
}

pub proof fn lemma_run_end_raised(s: Seq<i32>, c: int, t: int, i: int)
    requires
        can_raise(s, c),
        0 <= i,
    ensures
        run_end(raised(s, c), t + 4 * c, i) == run_end(s, t, i),
    decreases s.len() - i,
{
    if i < s.len() {
        lemma_low_raised(s, c, t, i);
        if is_low(s[i], t) {
            lemma_run_end_raised(s, c, t, i + 1);
        }
    }
}

/// Raising the samples and the threshold together leaves the runs alone.
pub proof fn lemma_low_runs_raised(s: Seq<i32>, c: int, t: int, gap: int, i: int)
    requires
        can_raise(s, c),
        0 <= i,
        0 <= gap,
    ensures
        low_runs(raised(s, c), t + 4 * c, gap, i) == low_runs(s, t, gap, i),
    decreases max(0, s.len() - i),
{
    if i < s.len() {
        lemma_low_raised(s, c, t, i);
        if is_low(s[i], t) {
            lemma_run_end_raised(s, c, t, i);
            lemma_run_end(s, t, i);
            lemma_low_runs_raised(s, c, t, gap, i + max(gap, run_end(s, t, i) - i));
        } else {
            lemma_low_runs_raised(s, c, t, gap, i + 1);
        }
    }
}

/// Both levels of a pulse raised by `c`.
spec fn raised_pulse(p: PulseLevels, c: int) -> PulseLevels {
    PulseLevels { tip: (p.tip + c) as i64, porch: (p.porch + c) as i64 }
}

spec fn raised_pulses(p: Seq<PulseLevels>, c: int) -> Seq<PulseLevels> {
    p.map_values(|x: PulseLevels| raised_pulse(x, c))
}

/// Whether the levels of pulses, and the same raised by `c`, are sample
/// levels.
spec fn pulses_can_raise(p: Seq<PulseLevels>, c: int) -> bool {
    forall|k: int| 0 <= k < p.len() ==> #[trigger] pulse_can_raise(p[k], c)
}

spec fn pulse_can_raise(p: PulseLevels, c: int) -> bool {
    &&& in_range(p)
    &&& i32::MIN <= p.tip + c <= i32::MAX
    &&& i32::MIN <= p.porch + c <= i32::MAX
}

proof fn lemma_window_median_raised(s: Seq<i32>, c: int, lo: int, hi: int)
    requires
        can_raise(s, c),
        0 <= lo < hi <= s.len(),
    ensures
        median_of(widened(raised(s, c).subrange(lo, hi))) == median_of(
            widened(s.subrange(lo, hi)),
        ) + c,
        i32::MIN <= median_of(widened(s.subrange(lo, hi))) <= i32::MAX,
        i32::MIN <= median_of(widened(s.subrange(lo, hi))) + c <= i32::MAX,
{
    let w = widened(s.subrange(lo, hi));
    assert forall|i: int| 0 <= i < w.len() implies i32::MIN <= #[trigger] w[i] + c
        <= i32::MAX by {
        assert(i32::MIN <= s[lo + i] + c <= i32::MAX);
    }
    assert(widened(raised(s, c).subrange(lo, hi)) =~= lifted(w, c)) by {
        assert forall|i: int| 0 <= i < w.len() implies widened(
            raised(s, c).subrange(lo, hi),
        )[i] == lifted(w, c)[i] by {
            assert(i32::MIN <= s[lo + i] + c <= i32::MAX);
        }
    }
    lemma_ranked_lifted(w, c, w.len() as int / 2);
    lemma_ranked(w, w.len() as int / 2);
}

proof fn lemma_pulse_levels_raised(s: Seq<i32>, c: int, runs: Seq<(int, int)>, rate: int)
    requires
        can_raise(s, c),
        rate >= 0,
        forall|k: int|
            0 <= k < runs.len() ==> 0 <= (#[trigger] runs[k]).0 < runs[k].1 <= s.len(),
    ensures
        pulse_levels(raised(s, c), runs, rate) == raised_pulses(pulse_levels(s, runs, rate), c),
        pulses_can_raise(pulse_levels(s, runs, rate), c),
    decreases runs.len(),
{
    let r = raised(s, c);
    let keep = |run: (int, int)| is_pulse(s.len() as int, run, rate);
    let keep_r = |run: (int, int)| is_pulse(r.len() as int, run, rate);
    assert(keep =~= keep_r);
    reveal(Seq::filter);
    if runs.len() == 0 {
        assert(pulse_levels(r, runs, rate) =~= raised_pulses(pulse_levels(s, runs, rate), c));
    } else {
        let front = runs.drop_last();
        let run = runs.last();
        assert forall|k: int| 0 <= k < front.len() implies 0 <= (#[trigger] front[k]).0
            < front[k].1 <= s.len() by {
            assert(front[k] == runs[k]);
        }
        lemma_pulse_levels_raised(s, c, front, rate);
        assert(runs[runs.len() - 1] == run);
        if keep(run) {
            let porch = porch_window(s.len() as int, run, rate);
            assert(crate::levels::tenth_us(rate, 10) >= 0) by (nonlinear_arith)
                requires
                    rate >= 0,
                    crate::levels::tenth_us(rate, 10) == rate * 10 / 10_000_000,
            ;
            lemma_window_median_raised(s, c, run.0, run.1);
            lemma_window_median_raised(s, c, porch.0, porch.1);
            assert(levels_at(r, run, rate) == raised_pulse(levels_at(s, run, rate), c));
            assert(pulse_levels(s, runs, rate) =~= pulse_levels(s, front, rate).push(
                levels_at(s, run, rate),
            ));
            assert(pulse_levels(r, runs, rate) =~= pulse_levels(r, front, rate).push(
                levels_at(r, run, rate),
            ));
        } else {
            assert(pulse_levels(s, runs, rate) =~= pulse_levels(s, front, rate));
            assert(pulse_levels(r, runs, rate) =~= pulse_levels(r, front, rate));
        }
        assert(pulse_levels(r, runs, rate) =~= raised_pulses(pulse_levels(s, runs, rate), c));
    }
}

proof fn lemma_filter_raised(
    p: Seq<PulseLevels>,
    c: int,
    m: int,
    d: int,
)
    requires
        pulses_can_raise(p, c),
    ensures
        ({
            let keep = |x: PulseLevels| abs(x.porch - x.tip - m) <= 3 * d;
            &&& raised_pulses(p, c).filter(keep) == raised_pulses(p.filter(keep), c)
            &&& pulses_can_raise(p.filter(keep), c)
        }),
    decreases p.len(),
{
    let keep = |x: PulseLevels| abs(x.porch - x.tip - m) <= 3 * d;
    reveal(Seq::filter);
    if p.len() == 0 {
        assert(raised_pulses(p, c) =~= p);
        assert(raised_pulses(p.filter(keep), c) =~= p.filter(keep));
    } else {
        let front = p.drop_last();
        assert forall|k: int| 0 <= k < front.len() implies #[trigger] pulse_can_raise(
            front[k],
            c,
        ) by {
            assert(pulse_can_raise(p[k], c));
        }
        lemma_filter_raised(front, c, m, d);
        assert(raised_pulses(p, c).drop_last() =~= raised_pulses(front, c));
        assert(pulse_can_raise(p[p.len() - 1], c));
        assert(keep(raised_pulse(p.last(), c)) == keep(p.last()));
        assert(raised_pulses(p, c).filter(keep) =~= raised_pulses(p.filter(keep), c));
    }
}

proof fn lemma_swings_raised(p: Seq<PulseLevels>, c: int)
    requires
        pulses_can_raise(p, c),
    ensures
        swings(raised_pulses(p, c)) == swings(p),
        tips(raised_pulses(p, c)) == lifted(tips(p), c),
        porches(raised_pulses(p, c)) == lifted(porches(p), c),
{
    let r = raised_pulses(p, c);
    assert forall|k: int| 0 <= k < p.len() implies swings(r)[k] == swings(p)[k] && tips(r)[k]
        == lifted(tips(p), c)[k] && porches(r)[k] == lifted(porches(p), c)[k] by {
        assert(pulse_can_raise(p[k], c));
    }
    assert(swings(r) =~= swings(p));
    assert(tips(r) =~= lifted(tips(p), c));
    assert(porches(r) =~= lifted(porches(p), c));
}

/// A constant offset on every sample moves the measured levels by as much
/// and leaves the deviation estimate as it was.
pub proof fn law_deviation_ignores_dc_offset(demod: Seq<i32>, sample_rate: u32, c: int)
    requires
        can_raise(demod, c),
    ensures
        deviation_of(raised(demod, c), sample_rate as int) == (match deviation_of(
            demod,
            sample_rate as int,
        ) {
            Some(e) => Some(
                DeviationEstimate {
                    levels: SyncLevels {
                        sync_tip: (e.levels.sync_tip + c) as i32,
                        blanking: (e.levels.blanking + c) as i32,
                    },
                    ..e
                },
            ),
            None => None,
        }),
{
    let rate = sample_rate as int;
    let win = smoothing_window(rate);
    let s = averaged(demod, win);
    lemma_averaged_raised(demod, c, win);
    lemma_threshold_raised(s, c);
    if let Some(t) = sync_threshold(s) {
        let runs = low_runs(s, t, 0, 0);
        lemma_low_runs_raised(s, c, t, 0, 0);
        lemma_low_runs_inside(s, t, 0, 0);
        lemma_pulse_levels_raised(s, c, runs, rate);
        let p = pulse_levels(s, runs, rate);
        let m = median_of(swings(p));
        let d = mad_of(swings(p), m);
        lemma_swings_raised(p, c);
        lemma_filter_raised(p, c, m, d);
        let kept = consistent(p);
        assert(consistent(raised_pulses(p, c)) == raised_pulses(kept, c));
        lemma_swings_raised(kept, c);
        if kept.len() >= MIN_PULSES {
            let half = kept.len() as int / 2;
            assert(can_lift(tips(kept), c)) by {
                assert forall|k: int| 0 <= k < kept.len() implies i64::MIN <= #[trigger] tips(
                    kept,
                )[k] + c <= i64::MAX by {
                    assert(pulse_can_raise(kept[k], c));
                }
            }
            assert(can_lift(porches(kept), c)) by {
                assert forall|k: int| 0 <= k < kept.len() implies i64::MIN <= #[trigger] porches(
                    kept,
                )[k] + c <= i64::MAX by {
                    assert(pulse_can_raise(kept[k], c));
                }
            }
            lemma_ranked_lifted(tips(kept), c, half);
            lemma_ranked_lifted(porches(kept), c, half);
            lemma_ranked(tips(kept), half);
            lemma_ranked(porches(kept), half);
            let i = choose|i: int|
                0 <= i < kept.len() && #[trigger] tips(kept)[i] == ranked(tips(kept), half);
            let j = choose|j: int|
                0 <= j < kept.len() && #[trigger] porches(kept)[j] == ranked(porches(kept), half);
            assert(pulse_can_raise(kept[i], c) && pulse_can_raise(kept[j], c));
        }
    }
}

} // verus!
