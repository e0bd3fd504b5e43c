//! Where sync pulses lie in a demodulated record.
//!
//! Positions are millionths of a sample, samples whole nanoturns. A level is
//! a ratio of nanoturns and is compared by cross multiplication.

use vstd::prelude::*;

use crate::levels::{max, min, sum_range};
use crate::offset::{can_raise, raised};
use crate::timing::Ratio;

verus! {

/// Units of a position in one sample.
pub const SUBSAMPLE: i64 = 1_000_000;

/// A quotient rounded to the nearest whole number, halves up.
pub open spec fn nearest(num: int, den: int) -> int {
    (2 * num + den) / (2 * den)
}

/// The sample nearest to a position; the first one for positions before it.
pub open spec fn sample_at(position: int) -> int {
    max(0, nearest(position, SUBSAMPLE as int))
}

/// The samples searched around a centre. `margin` of them are needed on
/// either side of each.
pub open spec fn search_window(len: int, center: int, radius: int, margin: int) -> (int, int) {
    let c = sample_at(center);
    (max(max(0, c - radius), margin), min(c + radius, max(0, len - margin)))
}

/// Whether a sum over `count` samples is below a level, on average.
pub open spec fn mean_below(sum: int, count: int, level: Ratio) -> bool {
    sum * level.den < level.num * count
}

/// Correlation with a sync pulse of `width` samples between blanking of half
/// that on either side, centred on `i`.
pub open spec fn template(s: Seq<i32>, i: int, width: int) -> int {
    sum_range(s, i - width, i - width + width / 2) - pulse_sum(s, i, width) + sum_range(
        s,
        i + width - width / 2,
        i + width,
    )
}

/// The samples that the template takes for the pulse.
pub open spec fn pulse_sum(s: Seq<i32>, i: int, width: int) -> int {
    sum_range(s, i - width + width / 2, i + width - width / 2)
}

/// The first sample from `lo` up to `hi` with the highest correlation.
pub open spec fn best_template(s: Seq<i32>, width: int, lo: int, hi: int) -> int
    decreases hi - lo,
{
    if hi <= lo + 1 {
        lo
    } else {
        let b = best_template(s, width, lo, hi - 1);
        if template(s, hi - 1, width) > template(s, b, width) {
            hi - 1
        } else {
            b
        }
    }
}

/// Where the matched filter puts a sync pulse near `center`. Nothing where
/// the pulse found is not below `reject_above`.
pub open spec fn matched_center(
    s: Seq<i32>,
    center: int,
    radius: int,
    width: int,
    reject_above: Ratio,
) -> Option<int> {
    let (lo, hi) = search_window(s.len() as int, center, radius, width);
    let b = best_template(s, width, lo, hi);
    if lo >= hi || (width > 0 && !mean_below(pulse_sum(s, b, width), width, reject_above)) {
        None
    } else {
        Some(b * SUBSAMPLE)
    }
}

/// Sum over `half` samples on either side.
pub open spec fn smooth_sum(s: Seq<i32>, i: int, half: int) -> int {
    sum_range(s, i - half, i + half)
}

/// The first sample from `lo` up to `hi` with the lowest smoothed value.
pub open spec fn lowest_at(s: Seq<i32>, half: int, lo: int, hi: int) -> int
    decreases hi - lo,
{
    if hi <= lo + 1 {
        lo
    } else {
        let b = lowest_at(s, half, lo, hi - 1);
        if smooth_sum(s, hi - 1, half) < smooth_sum(s, b, half) {
            hi - 1
        } else {
            b
        }
    }
}

/// The highest smoothed value from `lo` up to `hi`.
pub open spec fn highest_sum(s: Seq<i32>, half: int, lo: int, hi: int) -> int
    decreases hi - lo,
{
    if hi <= lo + 1 {
        smooth_sum(s, lo, half)
    } else {
        max(highest_sum(s, half, lo, hi - 1), smooth_sum(s, hi - 1, half))
    }
}

/// How many samples from `lo` up to `hi` have a smoothed value whose double
/// is below `level2`, and the sum of their indices.
pub open spec fn low_moments(s: Seq<i32>, half: int, level2: int, lo: int, hi: int) -> (int, int)
    decreases hi - lo,
{
    if hi <= lo {
        (0, 0)
    } else {
        let (count, sum) = low_moments(s, half, level2, lo, hi - 1);
        if 2 * smooth_sum(s, hi - 1, half) < level2 {
            (count + 1, sum + hi - 1)
        } else {
            (count, sum)
        }
    }
}

/// Where the sync tip near `center` lies: the centroid of what is below the
/// midpoint between the pulse's lowest value and the highest one around it.
/// Nothing where the lowest value is not below `reject_above`.
pub open spec fn tip_center(
    s: Seq<i32>,
    center: int,
    radius: int,
    porch_radius: int,
    half: int,
    reject_above: Ratio,
) -> Option<int> {
    let (lo, hi) = search_window(s.len() as int, center, radius, half);
    let m = lowest_at(s, half, lo, hi);
    if lo >= hi || !mean_below(smooth_sum(s, m, half), 2 * half, reject_above) {
        None
    } else {
        let plo = max(max(0, m - porch_radius), half);
        let phi = min(m + porch_radius, max(0, s.len() - half));
        if plo >= phi {
            Some(m * SUBSAMPLE)
        } else {
            let level2 = smooth_sum(s, m, half) + highest_sum(s, half, plo, phi);
            let (count, sum) = low_moments(s, half, level2, plo, phi);
            if count == 0 {
                Some(m * SUBSAMPLE)
            } else {
                Some(nearest(sum * SUBSAMPLE, count))
            }
        }
    }
}

/// Longest record that positions can point into.
pub const MAX_RECORD: usize = 0x7fff_ffff;

/// [`nearest`].
pub fn nearest_div(num: i128, den: i128) -> (q: i128)
    requires
        0 < den <= 0x1000_0000_0000_0000_0000_0000_0000_0000,
        -0x1000_0000_0000_0000_0000_0000_0000_0000 <= num
            <= 0x1000_0000_0000_0000_0000_0000_0000_0000,
    ensures
        q == nearest(num as int, den as int),
{
    crate::levels::floor_div(2 * num + den, 2 * den)
}

/// Sum of the samples from `lo` up to `hi`.
fn sum_of(s: &[i32], lo: usize, hi: usize) -> (sum: i128)
    requires
        lo <= hi <= s.len(),
    ensures
        sum == sum_range(s@, lo as int, hi as int),
        (hi - lo) * i32::MIN <= sum <= (hi - lo) * i32::MAX,
{
    let mut sum: i128 = 0;
    let mut i: usize = lo;
    while i < hi
        invariant
            lo <= i <= hi <= s.len(),
            sum == sum_range(s@, lo as int, i as int),
            (i - lo) * i32::MIN <= sum <= (i - lo) * i32::MAX,
        decreases hi - i,
    {
        sum = sum + s[i] as i128;
        i += 1;
    }
    sum
}

/// [`search_window`], as samples of the record.
fn window_of(len: usize, center: i64, radius: usize, margin: usize) -> (w: Option<(usize, usize)>)
    ensures
        ({
            let (lo, hi) = search_window(len as int, center as int, radius as int, margin as int);
            match w {
                None => lo >= hi,
                Some((a, b)) => a == lo && b == hi && margin <= lo < hi && hi + margin <= len,
            }
        }),
{
    let c0: i128 = nearest_div(center as i128, SUBSAMPLE as i128);
    let c: i128 = if c0 >= 0 {
        c0
    } else {
        0
    };
    let lo: i128 = if c - radius as i128 >= margin as i128 {
        c - radius as i128
    } else {
        margin as i128
    };
    let room: i128 = if len >= margin {
        (len - margin) as i128
    } else {
        0
    };
    let hi: i128 = if c + radius as i128 <= room {
        c + radius as i128
    } else {
        room
    };
    if lo >= hi {
        None
    } else {
        Some((lo as usize, hi as usize))
    }
}

/// Locate a horizontal sync pulse near `center` by correlation with a
/// zero-mean template: the best linear detector of a known shape in noise.
pub fn matched_sync_center(
    demod: &[i32],
    center: i64,
    search_radius: usize,
    sync_width: usize,
    reject_above: Ratio,
) -> (r: Option<i64>)
    requires
        demod.len() <= MAX_RECORD,
    ensures
        match r {
            Some(p) => matched_center(
                demod@,
                center as int,
                search_radius as int,
                sync_width as int,
                reject_above,
            ) == Some(p as int) && 0 <= p <= demod.len() * SUBSAMPLE,
            None => matched_center(
                demod@,
                center as int,
                search_radius as int,
                sync_width as int,
                reject_above,
            ) is None,
        },
{
    let (lo, hi): (usize, usize) = match window_of(demod.len(), center, search_radius, sync_width) {
        None => {
            return None;
        },
        Some(w) => w,
    };
    let half: usize = sync_width;
    let quarter: usize = sync_width / 2;
    let mut best: usize = lo;
    let mut best_corr: i128 = 0;
    let mut best_pulse: i128 = 0;
    let mut i: usize = lo;
    while i < hi
        invariant
            half == sync_width,
            quarter == sync_width / 2,
            half <= lo <= i <= hi,
            lo < hi,
            hi + half <= demod.len() <= MAX_RECORD,
            i == lo ==> best == lo,
            i > lo ==> lo <= best < i && best == best_template(
                demod@,
                sync_width as int,
                lo as int,
                i as int,
            ) && best_corr == template(demod@, best as int, sync_width as int) && best_pulse
                == pulse_sum(demod@, best as int, sync_width as int),
            -0x4000_0000_0000_0000 <= best_pulse <= 0x4000_0000_0000_0000,
        decreases hi - i,
    {
        let left: i128 = sum_of(demod, i - half, i - half + quarter);
        let pulse: i128 = sum_of(demod, i - half + quarter, i + half - quarter);
        let right: i128 = sum_of(demod, i + half - quarter, i + half);
        let corr: i128 = left - pulse + right;
        if i == lo || corr > best_corr {
            best = i;
            best_corr = corr;
            best_pulse = pulse;
        }
        i += 1;
    }
    if sync_width > 0 {
        assert(-0x4000_0000_0000_0000_0000_0000_0000_0000 <= best_pulse * reject_above.den
            <= 0x4000_0000_0000_0000_0000_0000_0000_0000) by (nonlinear_arith)
            requires
                -0x4000_0000_0000_0000 <= best_pulse <= 0x4000_0000_0000_0000,
                0 <= reject_above.den <= u64::MAX,
        ;
        assert(-0x8000_0000_0000_0000_0000_0000_0000 <= reject_above.num * sync_width
            <= 0x8000_0000_0000_0000_0000_0000_0000) by (nonlinear_arith)
            requires
                i64::MIN <= reject_above.num <= i64::MAX,
                0 <= sync_width <= 0x7fff_ffff,
        ;
        if best_pulse * reject_above.den as i128 >= reject_above.num as i128 * sync_width as i128 {
            return None;
        }
    }
    Some(best as i64 * SUBSAMPLE)
}

/// Estimate the centre of a sync tip near `center`, whatever the brightness:
/// a shift of the whole signal moves the pulse's lowest value and the level
/// around it together, and so the midpoint between them.
pub fn robust_sync_tip_center(
    demod: &[i32],
    center: i64,
    search_radius: usize,
    porch_radius: usize,
    ma_win: usize,
    reject_above: Ratio,
) -> (r: Option<i64>)
    requires
        demod.len() <= MAX_RECORD,
        1 <= ma_win,
    ensures
        match r {
            Some(p) => tip_center(
                demod@,
                center as int,
                search_radius as int,
                porch_radius as int,
                ma_win as int,
                reject_above,
            ) == Some(p as int) && 0 <= p <= demod.len() * SUBSAMPLE,
            None => tip_center(
                demod@,
                center as int,
                search_radius as int,
                porch_radius as int,
                ma_win as int,
                reject_above,
            ) is None,
        },
{
    let n: usize = demod.len();
    let (lo, hi): (usize, usize) = match window_of(n, center, search_radius, ma_win) {
        None => {
            return None;
        },
        Some(w) => w,
    };
    let ghost half = ma_win as int;
    let mut low: i128 = 0;
    let mut low_idx: usize = lo;
    let mut i: usize = lo;
    while i < hi
        invariant
            half == ma_win,
            n == demod.len() <= MAX_RECORD,
            ma_win <= lo <= i <= hi,
            lo < hi,
            hi + ma_win <= n,
            i == lo ==> low_idx == lo,
            i > lo ==> lo <= low_idx < i && low_idx == lowest_at(demod@, half, lo as int, i as int)
                && low == smooth_sum(demod@, low_idx as int, half),
            -0x4000_0000_0000_0000 <= low <= 0x4000_0000_0000_0000,
        decreases hi - i,
    {
        let v: i128 = sum_of(demod, i - ma_win, i + ma_win);
        if i == lo || v < low {
            low = v;
            low_idx = i;
        }
        i += 1;
    }
    assert(-0x4000_0000_0000_0000_0000_0000_0000_0000 <= low * reject_above.den
        <= 0x4000_0000_0000_0000_0000_0000_0000_0000) by (nonlinear_arith)
        requires
            -0x4000_0000_0000_0000 <= low <= 0x4000_0000_0000_0000,
            0 <= reject_above.den <= u64::MAX,
    ;
    assert(-0x8000_0000_0000_0000_0000_0000_0000 <= reject_above.num * (2 * ma_win)
        <= 0x8000_0000_0000_0000_0000_0000_0000) by (nonlinear_arith)
        requires
            i64::MIN <= reject_above.num <= i64::MAX,
            0 <= ma_win <= 0x7fff_ffff,
    ;
    if low * reject_above.den as i128 >= reject_above.num as i128 * (2 * ma_win as i128) {
        return None;
    }
    let plo: usize = if low_idx >= porch_radius && low_idx - porch_radius >= ma_win {
        low_idx - porch_radius
    } else {
        ma_win
    };
    let phi: usize = if porch_radius <= n - ma_win - low_idx {
        low_idx + porch_radius
    } else {
        n - ma_win
    };
    if plo >= phi {
        return Some(low_idx as i64 * SUBSAMPLE);
    }
    let mut high: i128 = 0;
    let mut i: usize = plo;
    while i < phi
        invariant
            half == ma_win,
            n == demod.len() <= MAX_RECORD,
            ma_win <= plo <= i <= phi,
            plo < phi,
            phi + ma_win <= n,
            i > plo ==> high == highest_sum(demod@, half, plo as int, i as int),
            -0x4000_0000_0000_0000 <= high <= 0x4000_0000_0000_0000,
        decreases phi - i,
    {
        let v: i128 = sum_of(demod, i - ma_win, i + ma_win);
        if i == plo || v > high {
            high = v;
        }
        i += 1;
    }
    let level2: i128 = low + high;
    let mut count: u64 = 0;
    let mut sum: u64 = 0;
    let mut i: usize = plo;
    while i < phi
        invariant
            half == ma_win,
            n == demod.len() <= MAX_RECORD,
            ma_win <= plo <= i <= phi,
            phi + ma_win <= n,
            (count as int, sum as int) == low_moments(
                demod@,
                half,
                level2 as int,
                plo as int,
                i as int,
            ),
            count <= i - plo,
            sum <= count * n,
        decreases phi - i,
    {
        assert(count * n <= 0x7fff_ffff * 0x7fff_ffff) by (nonlinear_arith)
            requires
                count <= 0x7fff_ffff,
                n <= 0x7fff_ffff,
        ;
        assert((count + 1) * n == count * n + n) by (nonlinear_arith);
        let v: i128 = sum_of(demod, i - ma_win, i + ma_win);
        if 2 * v < level2 {
            count = count + 1;
            sum = sum + i as u64;
        }
        i += 1;
    }
    if count == 0 {
        return Some(low_idx as i64 * SUBSAMPLE);
    }
    assert(count * n <= 0x7fff_ffff * 0x7fff_ffff) by (nonlinear_arith)
        requires
            count <= 0x7fff_ffff,
            n <= 0x7fff_ffff,
    ;
    let p: i128 = nearest_div(sum as i128 * SUBSAMPLE as i128, count as i128);
    assert(0 <= p <= n * SUBSAMPLE) by (nonlinear_arith)
        requires
            p == (2 * (sum * SUBSAMPLE) + count) / (2 * count),
            count >= 1,
            0 <= sum <= count * n,
            SUBSAMPLE == 1_000_000,
    ;
    Some(p as i64)
}

/// Whether a sample is below a level.
pub open spec fn below(v: i32, level: Ratio) -> bool {
    v * level.den < level.num
}

/// How many samples from `lo` up to `hi` are below a level.
pub open spec fn count_below(s: Seq<i32>, level: Ratio, lo: int, hi: int) -> int
    decreases hi - lo,
{
    if lo >= hi {
        0
    } else {
        count_below(s, level, lo, hi - 1) + if below(s[hi - 1], level) {
            1int
        } else {
            0int
        }
    }
}

/// Whether more than half of the `window` samples from `start` are below a
/// level, as in vertical sync.
pub open spec fn dense_at(s: Seq<i32>, level: Ratio, window: int, start: int) -> bool {
    count_below(s, level, start, start + window) > window / 2
}

/// Whether `r` is the first window that looks like vertical sync. A record
/// of no more than two windows is not searched.
pub open spec fn first_dense(s: Seq<i32>, level: Ratio, window: int, r: Option<int>) -> bool {
    match r {
        Some(k) => {
            &&& s.len() > 2 * window
            &&& 0 <= k < s.len() - window
            &&& dense_at(s, level, window, k)
            &&& forall|j: int| 0 <= j < k ==> !#[trigger] dense_at(s, level, window, j)
        },
        None => s.len() > 2 * window ==> forall|j: int|
            0 <= j < s.len() - window ==> !#[trigger] dense_at(s, level, window, j),
    }
}

pub proof fn lemma_count_below_bounds(s: Seq<i32>, level: Ratio, lo: int, hi: int)
    ensures
        0 <= count_below(s, level, lo, hi) <= max(0, hi - lo),
    decreases hi - lo,
{
    if lo < hi {
        lemma_count_below_bounds(s, level, lo, hi - 1);
    }
}

proof fn lemma_count_below_step(s: Seq<i32>, level: Ratio, lo: int, hi: int)
    requires
        lo < hi,
    ensures
        count_below(s, level, lo, hi) == count_below(s, level, lo + 1, hi) + if below(
            s[lo],
            level,
        ) {
            1int
        } else {
            0int
        },
    decreases hi - lo,
{
    if lo + 1 < hi {
        lemma_count_below_step(s, level, lo, hi - 1);
    } else {
        assert(count_below(s, level, lo, lo) == 0);
        assert(count_below(s, level, hi, hi) == 0);
    }
}

pub fn is_below(v: i32, level: Ratio) -> (b: bool)
    ensures
        b == below(v, level),
{
    assert(-0x4000_0000_0000_0000_0000_0000_0000 <= v * level.den
        <= 0x4000_0000_0000_0000_0000_0000_0000) by (nonlinear_arith)
        requires
            i32::MIN <= v <= i32::MAX,
            0 <= level.den <= u64::MAX,
    ;
    (v as i128 * level.den as i128) < level.num as i128
}

/// Count the samples from `lo` up to `hi` that are below a level.
fn low_samples(demod: &[i32], level: Ratio, lo: usize, hi: usize) -> (n: usize)
    requires
        lo <= hi <= demod.len(),
    ensures
        n == count_below(demod@, level, lo as int, hi as int),
        n <= hi - lo,
{
    let mut n: usize = 0;
    let mut i: usize = lo;
    while i < hi
        invariant
            lo <= i <= hi <= demod.len(),
            n == count_below(demod@, level, lo as int, i as int),
            n <= i - lo,
        decreases hi - i,
    {
        if is_below(demod[i], level) {
            n = n + 1;
        }
        i += 1;
    }
    n
}

/// The first window that looks like vertical sync.
pub fn find_dense(demod: &[i32], level: Ratio, window: usize) -> (r: Option<usize>)
    requires
        demod.len() <= MAX_RECORD,
    ensures
        first_dense(
            demod@,
            level,
            window as int,
            match r {
                Some(k) => Some(k as int),
                None => None,
            },
        ),
{
    let n: usize = demod.len();
    if window > n / 2 || n == 2 * window {
        return None;
    }
    let ghost w = window as int;
    let mut count: usize = low_samples(demod, level, 0, window);
    let half: usize = window / 2;
    if count > half {
        return Some(0);
    }
    let mut start: usize = 1;
    while start < n - window
        invariant
            n == demod.len() <= MAX_RECORD,
            2 * window < n,
            w == window,
            half == window / 2,
            1 <= start <= n - window,
            count == count_below(demod@, level, start - 1, start - 1 + w),
            count <= half,
            forall|j: int| 0 <= j < start ==> !#[trigger] dense_at(demod@, level, w, j),
        decreases n - start,
    {
        if window > 0 {
            proof {
                lemma_count_below_step(demod@, level, start - 1, start - 1 + w);
                lemma_count_below_bounds(demod@, level, start as int, start - 1 + w);
            }
            if is_below(demod[start - 1], level) {
                count = count - 1;
            }
            if is_below(demod[start + window - 1], level) {
                count = count + 1;
            }
        }
        assert(count == count_below(demod@, level, start as int, start + w));
        if count > half {
            assert(dense_at(demod@, level, w, start as int));
            return Some(start);
        }
        assert(!dense_at(demod@, level, w, start as int));
        start += 1;
    }
    None
}

/// The first of `n` windows, `stride` apart from `lo` on, with the most
/// samples below a level.
pub open spec fn best_window(
    s: Seq<i32>,
    level: Ratio,
    window: int,
    stride: int,
    lo: int,
    n: int,
) -> int
    decreases n,
{
    if n <= 1 {
        lo
    } else {
        let b = best_window(s, level, window, stride, lo, n - 1);
        let p = lo + (n - 1) * stride;
        if count_below(s, level, p, p + window) > count_below(s, level, b, b + window) {
            p
        } else {
            b
        }
    }
}

/// How many windows, `stride` apart from `lo` on, start before `hi`.
pub open spec fn window_count(stride: int, lo: int, hi: int) -> int {
    if lo >= hi {
        0
    } else {
        (hi - lo + stride - 1) / stride
    }
}

/// The strongest window between `lo` and `hi`, where it is low for more than
/// half of its length; `lo` otherwise.
pub open spec fn strongest_window(
    s: Seq<i32>,
    level: Ratio,
    window: int,
    stride: int,
    lo: int,
    hi: int,
) -> int {
    let b = best_window(s, level, window, stride, lo, window_count(stride, lo, hi));
    if lo < hi && dense_at(s, level, window, b) {
        b
    } else {
        lo
    }
}

/// The strongest sync plateau in a stretch of the record.
pub fn find_strongest(
    demod: &[i32],
    level: Ratio,
    window: usize,
    stride: usize,
    lo: usize,
    hi: usize,
) -> (r: usize)
    requires
        demod.len() <= MAX_RECORD,
        1 <= stride <= MAX_RECORD,
        lo < hi ==> hi + window <= demod.len(),
    ensures
        r == strongest_window(
            demod@,
            level,
            window as int,
            stride as int,
            lo as int,
            hi as int,
        ),
{
    let ghost w = window as int;
    let ghost d = stride as int;
    let half: usize = window / 2;
    let mut best: usize = lo;
    let mut best_count: usize = 0;
    let mut p: usize = lo;
    let ghost mut k: int = 0;
    while p < hi
        invariant
            demod.len() <= MAX_RECORD,
            1 <= stride <= MAX_RECORD,
            lo < hi ==> hi + window <= demod.len(),
            w == window,
            d == stride,
            0 <= k,
            p == lo + k * d,
            k > 0 ==> p - d < hi,
            k == 0 ==> best == lo,
            k > 0 ==> lo <= best < hi && best == best_window(demod@, level, w, d, lo as int, k)
                && best_count == count_below(demod@, level, best as int, best + w),
        decreases hi + stride - p,
    {
        let c: usize = low_samples(demod, level, p, p + window);
        proof {
            assert((k + 1) * d == k * d + d) by (nonlinear_arith);
            assert(k >= 1 ==> k * d >= d) by (nonlinear_arith)
                requires
                    d >= 1,
            ;
        }
        if p == lo || c > best_count {
            best = p;
            best_count = c;
        }
        p = p + stride;
        proof {
            k = k + 1;
        }
    }
    proof {
        if lo < hi {
            let n = window_count(d, lo as int, hi as int);
            assert(n == k) by (nonlinear_arith)
                requires
                    d >= 1,
                    k > 0,
                    lo + k * d >= hi,
                    lo + k * d - d < hi,
                    n == (hi - lo + d - 1) / d,
            ;
        }
    }
    if lo < hi && best_count > half {
        best
    } else {
        lo
    }
}

proof fn lemma_sum_raised(s: Seq<i32>, c: int, lo: int, hi: int)
    requires
        can_raise(s, c),
        0 <= lo,
        hi <= s.len(),
    ensures
        lo <= hi ==> sum_range(raised(s, c), lo, hi) == sum_range(s, lo, hi) + c * (hi - lo),
    decreases hi - lo,
{
    if lo < hi {
        lemma_sum_raised(s, c, lo, hi - 1);
        assert(raised(s, c)[hi - 1] == s[hi - 1] + c);
        assert(c * (hi - lo) == c * (hi - 1 - lo) + c) by (nonlinear_arith);
    } else if lo == hi {
        assert(c * (hi - lo) == 0) by (nonlinear_arith)
            requires
                lo == hi,
        ;
    }
}

proof fn lemma_lowest_raised(s: Seq<i32>, c: int, half: int, lo: int, hi: int)
    requires
        can_raise(s, c),
        0 <= half <= lo,
        hi + half <= s.len(),
        lo < hi,
    ensures
        lowest_at(raised(s, c), half, lo, hi) == lowest_at(s, half, lo, hi),
        lo <= lowest_at(s, half, lo, hi) < hi,
    decreases hi - lo,
{
    if hi > lo + 1 {
        lemma_lowest_raised(s, c, half, lo, hi - 1);
        let b = lowest_at(s, half, lo, hi - 1);
        lemma_sum_raised(s, c, b - half, b + half);
        lemma_sum_raised(s, c, hi - 1 - half, hi - 1 + half);
    }
}

proof fn lemma_highest_raised(s: Seq<i32>, c: int, half: int, lo: int, hi: int)
    requires
        can_raise(s, c),
        0 <= half <= lo,
        hi + half <= s.len(),
        lo < hi,
    ensures
        highest_sum(raised(s, c), half, lo, hi) == highest_sum(s, half, lo, hi) + c * (2 * half),
    decreases hi - lo,
{
    lemma_sum_raised(s, c, hi - 1 - half, hi - 1 + half);
    if hi > lo + 1 {
        lemma_highest_raised(s, c, half, lo, hi - 1);
    }
}

proof fn lemma_moments_raised(s: Seq<i32>, c: int, half: int, level2: int, lo: int, hi: int)
    requires
        can_raise(s, c),
        0 <= half <= lo,
        hi + half <= s.len(),
    ensures
        low_moments(raised(s, c), half, level2 + 2 * (c * (2 * half)), lo, hi) == low_moments(
            s,
            half,
            level2,
            lo,
            hi,
        ),
    decreases hi - lo,
{
    if lo < hi {
        lemma_sum_raised(s, c, hi - 1 - half, hi - 1 + half);
        lemma_moments_raised(s, c, half, level2, lo, hi - 1);
    }
}

/// The centre of a sync tip does not depend on brightness: raising the whole
/// signal, and the level that a pulse has to be below, leaves it in place.
pub proof fn law_tip_center_ignores_brightness(
    s: Seq<i32>,
    c: int,
    center: int,
    radius: int,
    porch_radius: int,
    half: int,
    reject_above: Ratio,
    raised_reject: Ratio,
)
    requires
        can_raise(s, c),
        1 <= half,
        0 <= radius,
        0 <= porch_radius,
        raised_reject.den == reject_above.den,
        raised_reject.num == reject_above.num + c * reject_above.den,
    ensures
        tip_center(raised(s, c), center, radius, porch_radius, half, raised_reject) == tip_center(
            s,
            center,
            radius,
            porch_radius,
            half,
            reject_above,
        ),
{
    let t = raised(s, c);
    let (lo, hi) = search_window(s.len() as int, center, radius, half);
    if lo < hi {
        lemma_lowest_raised(s, c, half, lo, hi);
        let m = lowest_at(s, half, lo, hi);
        let low = smooth_sum(s, m, half);
        lemma_sum_raised(s, c, m - half, m + half);
        assert(mean_below(low + c * (2 * half), 2 * half, raised_reject) == mean_below(
            low,
            2 * half,
            reject_above,
        )) by (nonlinear_arith)
            requires
                raised_reject.den == reject_above.den,
                raised_reject.num == reject_above.num + c * reject_above.den,
        ;
        let plo = max(max(0, m - porch_radius), half);
        let phi = min(m + porch_radius, max(0, s.len() - half));
        if plo < phi {
            lemma_highest_raised(s, c, half, plo, phi);
            let level2 = low + highest_sum(s, half, plo, phi);
            lemma_moments_raised(s, c, half, level2, plo, phi);
        }
    }
}

proof fn lemma_template_raised(s: Seq<i32>, c: int, i: int, width: int)
    requires
        can_raise(s, c),
        0 <= width <= i,
        i + width <= s.len(),
    ensures
        template(raised(s, c), i, width) == template(s, i, width) + c * (4 * (width / 2) - 2
            * width),
        pulse_sum(raised(s, c), i, width) == pulse_sum(s, i, width) + c * (2 * width - 2 * (width
            / 2)),
{
    let q = width / 2;
    lemma_sum_raised(s, c, i - width, i - width + q);
    lemma_sum_raised(s, c, i - width + q, i + width - q);
    lemma_sum_raised(s, c, i + width - q, i + width);
    assert(c * q - c * (2 * width - 2 * q) + c * q == c * (4 * q - 2 * width)) by (nonlinear_arith);
    assert(i + width - q - (i - width + q) == 2 * width - 2 * q);
    assert(i + width - (i + width - q) == q);
    assert(i - width + q - (i - width) == q);
}

proof fn lemma_best_template_raised(s: Seq<i32>, c: int, width: int, lo: int, hi: int)
    requires
        can_raise(s, c),
        0 <= width <= lo,
        hi + width <= s.len(),
        lo < hi,
    ensures
        best_template(raised(s, c), width, lo, hi) == best_template(s, width, lo, hi),
        lo <= best_template(s, width, lo, hi) < hi,
    decreases hi - lo,
{
    if hi > lo + 1 {
        lemma_best_template_raised(s, c, width, lo, hi - 1);
        let b = best_template(s, width, lo, hi - 1);
        lemma_template_raised(s, c, b, width);
        lemma_template_raised(s, c, hi - 1, width);
    }
}

/// The matched filter does not depend on brightness either. An odd width is
/// left out: its template takes one sample more for the pulse than the level
/// test divides by.
pub proof fn law_matched_center_ignores_brightness(
    s: Seq<i32>,
    c: int,
    center: int,
    radius: int,
    width: int,
    reject_above: Ratio,
    raised_reject: Ratio,
)
    requires
        can_raise(s, c),
        0 <= radius,
        0 <= width,
        width % 2 == 0,
        raised_reject.den == reject_above.den,
        raised_reject.num == reject_above.num + c * reject_above.den,
    ensures
        matched_center(raised(s, c), center, radius, width, raised_reject) == matched_center(
            s,
            center,
            radius,
            width,
            reject_above,
        ),
{
    let (lo, hi) = search_window(s.len() as int, center, radius, width);
    if lo < hi {
        lemma_best_template_raised(s, c, width, lo, hi);
        let b = best_template(s, width, lo, hi);
        let pulse = pulse_sum(s, b, width);
        lemma_template_raised(s, c, b, width);
        assert(2 * width - 2 * (width / 2) == width);
        assert(mean_below(pulse + c * width, width, raised_reject) == mean_below(
            pulse,
            width,
            reject_above,
        )) by (nonlinear_arith)
            requires
                raised_reject.den == reject_above.den,
                raised_reject.num == reject_above.num + c * reject_above.den,
        ;
    }
}

/// Rounding to the nearest stays within half of the divisor; halves go up.
pub proof fn law_nearest_is_within_half(num: int, den: int)
    requires
        den > 0,
    ensures
        -den < 2 * (den * nearest(num, den) - num) <= den,
{
    let q = nearest(num, den);
    assert(-den < 2 * (den * q - num) <= den) by (nonlinear_arith)
        requires
            den > 0,
            q == (2 * num + den) / (2 * den),
    ;
}

/// How far two stretches overlap.
pub open spec fn overlap(a: int, b: int, p: int, q: int) -> int {
    max(0, min(b, q) - max(a, p))
}

/// Whether a record is at one level inside a stretch and at another outside.
pub open spec fn two_levels(s: Seq<i32>, from: int, to: int, low: int, high: int) -> bool {
    forall|i: int|
        0 <= i < s.len() ==> #[trigger] s[i] == if from <= i < to {
            low
        } else {
            high
        }
}

proof fn lemma_sum_of_two_levels(
    s: Seq<i32>,
    from: int,
    to: int,
    low: int,
    high: int,
    a: int,
    b: int,
)
    requires
        two_levels(s, from, to, low, high),
        0 <= a <= b <= s.len(),
        from <= to,
    ensures
        sum_range(s, a, b) == (b - a) * high - overlap(a, b, from, to) * (high - low),
    decreases b - a,
{
    if a < b {
        lemma_sum_of_two_levels(s, from, to, low, high, a, b - 1);
        let n = b - a;
        let o = overlap(a, b - 1, from, to);
        assert((n - 1) * high + high == n * high) by (nonlinear_arith);
        assert((o + 1) * (high - low) == o * (high - low) + (high - low)) by (nonlinear_arith);
        assert(s[b - 1] == if from <= b - 1 < to {
            low
        } else {
            high
        });
        assert(overlap(a, b, from, to) == if from <= b - 1 < to {
            o + 1
        } else {
            o
        });
    } else {
        assert(0 * high == 0 && 0 * (high - low) == 0);
    }
}

/// A clean pulse of the width that is looked for is found exactly where it
/// is, wherever in the searched stretch it lies.
pub proof fn law_matched_pulse_is_found(
    s: Seq<i32>,
    at: int,
    low: int,
    high: int,
    center: int,
    radius: int,
    width: int,
    reject_above: Ratio,
)
    requires
        width > 0,
        radius >= 0,
        low < high,
        // The pulse, and an edge sample more for an odd width.
        two_levels(s, at - (width + 1) / 2, at + (width + 1) / 2, low, high),
        -radius <= at - sample_at(center) < radius,
        width <= at < s.len() - width,
        (low * (width + width % 2)) * reject_above.den < reject_above.num * width,
    ensures
        matched_center(s, center, radius, width, reject_above) == Some(at * SUBSAMPLE),
{
    let (lo, hi) = search_window(s.len() as int, center, radius, width);
    assert(lo <= at < hi);
    assert forall|i: int| width <= i <= s.len() - width && i != at implies #[trigger] template(
        s,
        i,
        width,
    ) < template(s, at, width) by {
        lemma_template_of_two_levels(s, at, low, high, width, i);
        lemma_template_of_two_levels(s, at, low, high, width, at);
        let x = gain_at(at, width, i);
        let y = gain_at(at, width, at);
        assert(x < y);
        assert(x * (high - low) < y * (high - low)) by (nonlinear_arith)
            requires
                x < y,
                low < high,
        ;
    }
    lemma_best_template_is_best(s, width, lo, hi);
    let b = best_template(s, width, lo, hi);
    assert(b == at);
    lemma_sum_of_two_levels(
        s,
        at - (width + 1) / 2,
        at + (width + 1) / 2,
        low,
        high,
        at - width + width / 2,
        at + width - width / 2,
    );
    let w = 2 * ((width + 1) / 2);
    assert(w == width + width % 2);
    assert(w * high - w * (high - low) == low * w) by (nonlinear_arith);
}

/// How much more of the pulse the template's middle covers than its wings do.
spec fn gain_at(at: int, width: int, i: int) -> int {
    let p = at - (width + 1) / 2;
    let q = at + (width + 1) / 2;
    overlap(i - width + width / 2, i + width - width / 2, p, q) - overlap(
        i - width,
        i - width + width / 2,
        p,
        q,
    ) - overlap(i + width - width / 2, i + width, p, q)
}

proof fn lemma_template_of_two_levels(
    s: Seq<i32>,
    at: int,
    low: int,
    high: int,
    width: int,
    i: int,
)
    requires
        width > 0,
        two_levels(s, at - (width + 1) / 2, at + (width + 1) / 2, low, high),
        width <= i <= s.len() - width,
    ensures
        template(s, i, width) == gain_at(at, width, i) * (high - low) - (2 * (width - width / 2) - 2
            * (width / 2)) * high,
{
    let p = at - (width + 1) / 2;
    let q = at + (width + 1) / 2;
    let h = width / 2;
    let d = high - low;
    lemma_sum_of_two_levels(s, p, q, low, high, i - width, i - width + h);
    lemma_sum_of_two_levels(s, p, q, low, high, i - width + h, i + width - h);
    lemma_sum_of_two_levels(s, p, q, low, high, i + width - h, i + width);
    let a = overlap(i - width, i - width + h, p, q);
    let b = overlap(i - width + h, i + width - h, p, q);
    let c = overlap(i + width - h, i + width, p, q);
    let m = 2 * (width - h);
    assert(h * high - a * d - (m * high - b * d) + (h * high - c * d) == (b - a - c) * d - (m - 2
        * h) * high) by (nonlinear_arith);
}

proof fn lemma_best_template_is_best(s: Seq<i32>, width: int, lo: int, hi: int)
    requires
        lo < hi,
    ensures
        lo <= best_template(s, width, lo, hi) < hi,
        forall|i: int|
            lo <= i < hi ==> #[trigger] template(s, i, width) <= template(
                s,
                best_template(s, width, lo, hi),
                width,
            ),
    decreases hi - lo,
{
    if hi > lo + 1 {
        lemma_best_template_is_best(s, width, lo, hi - 1);
    }
}

/// What the matched filter finds lies within the search radius, and nowhere
/// there is the correlation higher.
pub proof fn law_matched_center_is_the_best_nearby(
    s: Seq<i32>,
    center: int,
    radius: int,
    width: int,
    reject_above: Ratio,
)
    requires
        radius >= 0,
        width >= 0,
        matched_center(s, center, radius, width, reject_above) is Some,
    ensures
        ({
            let found = matched_center(s, center, radius, width, reject_above).unwrap();
            let b = found / SUBSAMPLE as int;
            &&& found == b * SUBSAMPLE
            &&& -radius <= b - sample_at(center) < radius
            &&& width <= b < s.len() - width
            &&& forall|i: int|
                -radius <= i - sample_at(center) < radius && width <= i < s.len() - width
                    ==> #[trigger] template(s, i, width) <= template(s, b, width)
        }),
{
    let (lo, hi) = search_window(s.len() as int, center, radius, width);
    lemma_best_template_is_best(s, width, lo, hi);
}

proof fn lemma_sum_at_least(s: Seq<i32>, a: int, b: int, level: Ratio)
    requires
        0 <= a <= b <= s.len(),
        forall|i: int| a <= i < b ==> !below(#[trigger] s[i], level),
    ensures
        sum_range(s, a, b) * level.den >= level.num * (b - a),
    decreases b - a,
{
    if a < b {
        lemma_sum_at_least(s, a, b - 1, level);
        let (x, v, d, m, n) = (
            sum_range(s, a, b - 1),
            s[b - 1] as int,
            level.den as int,
            level.num as int,
            b - a,
        );
        assert(!below(s[b - 1], level));
        assert((x + v) * d == x * d + v * d) by (nonlinear_arith);
        assert(m * n == m * (n - 1) + m) by (nonlinear_arith);
    } else {
        assert(0 * level.den == 0 && level.num * 0 == 0);
    }
}

/// Where no sample is below the level, no pulse is found, by either way of
/// looking for one.
pub proof fn law_no_low_sample_no_pulse(
    s: Seq<i32>,
    center: int,
    radius: int,
    porch_radius: int,
    width: int,
    reject_above: Ratio,
)
    requires
        radius >= 0,
        width > 0,
        width % 2 == 0,
        forall|i: int| 0 <= i < s.len() ==> !below(#[trigger] s[i], reject_above),
    ensures
        matched_center(s, center, radius, width, reject_above) is None,
        tip_center(s, center, radius, porch_radius, width, reject_above) is None,
{
    let (lo, hi) = search_window(s.len() as int, center, radius, width);
    if lo < hi {
        lemma_best_template_is_best(s, width, lo, hi);
        let b = best_template(s, width, lo, hi);
        lemma_sum_at_least(s, b - width + width / 2, b + width - width / 2, reject_above);
        lemma_lowest_is_lowest(s, width, lo, hi);
        let m = lowest_at(s, width, lo, hi);
        lemma_sum_at_least(s, m - width, m + width, reject_above);
    }
}

proof fn lemma_lowest_is_lowest(s: Seq<i32>, half: int, lo: int, hi: int)
    requires
        lo < hi,
    ensures
        lo <= lowest_at(s, half, lo, hi) < hi,
        forall|i: int|
            lo <= i < hi ==> #[trigger] smooth_sum(s, i, half) >= smooth_sum(
                s,
                lowest_at(s, half, lo, hi),
                half,
            ),
    decreases hi - lo,
{
    if hi > lo + 1 {
        lemma_lowest_is_lowest(s, half, lo, hi - 1);
    }
}

proof fn lemma_highest_is_highest(s: Seq<i32>, half: int, lo: int, hi: int)
    requires
        lo < hi,
    ensures
        forall|i: int|
            lo <= i < hi ==> #[trigger] smooth_sum(s, i, half) <= highest_sum(s, half, lo, hi),
        exists|i: int|
            lo <= i < hi && #[trigger] smooth_sum(s, i, half) == highest_sum(s, half, lo, hi),
    decreases hi - lo,
{
    if hi > lo + 1 {
        lemma_highest_is_highest(s, half, lo, hi - 1);
        assert(smooth_sum(s, hi - 1, half) <= highest_sum(s, half, lo, hi));
        if highest_sum(s, half, lo, hi) != smooth_sum(s, hi - 1, half) {
            let i = choose|i: int|
                lo <= i < hi - 1 && #[trigger] smooth_sum(s, i, half) == highest_sum(
                    s,
                    half,
                    lo,
                    hi - 1,
                );
            assert(smooth_sum(s, i, half) == highest_sum(s, half, lo, hi));
        }
    } else {
        assert(smooth_sum(s, lo, half) == highest_sum(s, half, lo, hi));
    }
}

/// A clean pulse, longer than it is smoothed, is found at its middle exactly,
/// wherever near the centre it lies and however long it is.
pub proof fn law_clean_tip_is_centred(
    s: Seq<i32>,
    at: int,
    reach: int,
    low: int,
    high: int,
    center: int,
    radius: int,
    porch_radius: int,
    half: int,
    reject_above: Ratio,
)
    requires
        1 <= half <= reach,
        low < high,
        two_levels(s, at - reach, at + reach, low, high),
        -radius <= at - sample_at(center) < radius,
        2 * half <= at - reach,
        at + reach + 2 * half <= s.len(),
        2 * reach + half <= porch_radius,
        low * reject_above.den < reject_above.num,
    ensures
        tip_center(s, center, radius, porch_radius, half, reject_above) == Some(at * SUBSAMPLE),
{
    let (lo, hi) = search_window(s.len() as int, center, radius, half);
    let d = high - low;
    let p = at - reach;
    let q = at + reach;
    let all = 2 * half * high;
    assert forall|i: int| half <= i <= s.len() - half implies #[trigger] smooth_sum(s, i, half)
        == all - overlap(i - half, i + half, p, q) * d by {
        lemma_sum_of_two_levels(s, p, q, low, high, i - half, i + half);
        assert((2 * half) * high == all);
    }
    assert(lo <= at < hi);
    lemma_lowest_is_lowest(s, half, lo, hi);
    let m = lowest_at(s, half, lo, hi);
    let om = overlap(m - half, m + half, p, q);
    let oc = overlap(at - half, at + half, p, q);
    assert(oc == 2 * half);
    assert(smooth_sum(s, at, half) >= smooth_sum(s, m, half));
    assert(om >= oc) by (nonlinear_arith)
        requires
            all - oc * d >= all - om * d,
            d > 0,
    ;
    assert(om == 2 * half);
    assert(p <= m - half && m + half <= q);
    let low_sum = smooth_sum(s, m, half);
    assert(low_sum == 2 * half * low) by (nonlinear_arith)
        requires
            low_sum == all - (2 * half) * d,
            all == 2 * half * high,
            d == high - low,
    ;
    assert((2 * half * low) * reject_above.den < reject_above.num * (2 * half)) by (nonlinear_arith)
        requires
            low * reject_above.den < reject_above.num,
            half >= 1,
    ;
    let plo = max(max(0, m - porch_radius), half);
    let phi = min(m + porch_radius, max(0, s.len() - half));
    lemma_highest_is_highest(s, half, plo, phi);
    let top = highest_sum(s, half, plo, phi);
    let clear = at - reach - half;
    assert(plo <= clear < phi);
    assert(overlap(clear - half, clear + half, p, q) == 0);
    assert(0 * d == 0);
    assert(smooth_sum(s, clear, half) == all);
    let t = choose|i: int| plo <= i < phi && #[trigger] smooth_sum(s, i, half) == top;
    let ot = overlap(t - half, t + half, p, q);
    assert(ot * d >= 0) by (nonlinear_arith)
        requires
            ot >= 0,
            d > 0,
    ;
    assert(top == all);
    let level2 = low_sum + top;
    assert forall|i: int| plo <= i < phi implies (2 * #[trigger] smooth_sum(s, i, half) < level2
        <==> p < i < q) by {
        let o = overlap(i - half, i + half, p, q);
        assert(o > half <==> p < i < q);
        assert(2 * (all - o * d) < (all - (2 * half) * d) + all <==> o > half) by (nonlinear_arith)
            requires
                d > 0,
        ;
    }
    lemma_moments_of_stretch(s, half, level2, p + 1, q, plo, phi);
    assert(plo <= p + 1 && q <= phi);
    let count = q - (p + 1);
    let sum = low_moments(s, half, level2, plo, phi).1;
    assert(2 * sum == count * (2 * at)) by (nonlinear_arith)
        requires
            2 * sum == (q - (p + 1)) * (p + 1 + q - 1),
            count == q - (p + 1),
            p + q == 2 * at,
    ;
    assert(sum == count * at) by (nonlinear_arith)
        requires
            2 * sum == count * (2 * at),
    ;
    let x = at * SUBSAMPLE;
    assert(sum * SUBSAMPLE == count * x) by (nonlinear_arith)
        requires
            sum == count * at,
            x == at * SUBSAMPLE,
    ;
    law_nearest_is_within_half(count * x, count);
    let r = nearest(count * x, count);
    assert(r == x) by (nonlinear_arith)
        requires
            count > 0,
            -count < 2 * (count * r - count * x) <= count,
    ;
}

proof fn lemma_moments_of_stretch(
    s: Seq<i32>,
    half: int,
    level2: int,
    from: int,
    to: int,
    lo: int,
    hi: int,
)
    requires
        from <= to,
        lo <= from,
        forall|i: int|
            lo <= i < hi ==> (2 * #[trigger] smooth_sum(s, i, half) < level2 <==> from <= i < to),
    ensures
        ({
            let (count, sum) = low_moments(s, half, level2, lo, hi);
            let end = max(from, min(hi, to));
            &&& count == end - from
            &&& 2 * sum == (end - from) * (from + end - 1)
        }),
    decreases hi - lo,
{
    if hi > lo {
        lemma_moments_of_stretch(s, half, level2, from, to, lo, hi - 1);
        assert(2 * smooth_sum(s, hi - 1, half) < level2 <==> from <= hi - 1 < to);
        let end = max(from, min(hi - 1, to));
        assert((end + 1 - from) * (from + end) == (end - from) * (from + end - 1) + 2 * end)
            by (nonlinear_arith);
    } else {
        assert(0 * (from + from - 1) == 0);
    }
}

/// A count of low samples is how many there are.
pub proof fn law_low_samples_are_counted(s: Seq<i32>, level: Ratio, lo: int, hi: int)
    requires
        0 <= lo <= hi <= s.len(),
    ensures
        count_below(s, level, lo, hi) == s.subrange(lo, hi).filter(
            |v: i32| v * level.den < level.num,
        ).len(),
    decreases hi - lo,
{
    reveal(Seq::filter);
    if lo < hi {
        law_low_samples_are_counted(s, level, lo, hi - 1);
        assert(s.subrange(lo, hi).drop_last() =~= s.subrange(lo, hi - 1));
        assert(s.subrange(lo, hi).last() == s[hi - 1]);
    } else {
        assert(s.subrange(lo, hi) =~= Seq::<i32>::empty());
    }
}

proof fn lemma_count_in_stretch(
    s: Seq<i32>,
    level: Ratio,
    from: int,
    to: int,
    lo: int,
    hi: int,
)
    requires
        from <= to,
        0 <= lo <= hi <= s.len(),
        forall|i: int| 0 <= i < s.len() ==> (below(#[trigger] s[i], level) <==> from <= i < to),
    ensures
        count_below(s, level, lo, hi) == overlap(lo, hi, from, to),
    decreases hi - lo,
{
    if lo < hi {
        lemma_count_in_stretch(s, level, from, to, lo, hi - 1);
        assert(below(s[hi - 1], level) <==> from <= hi - 1 < to);
    }
}

/// Where the record is low in one long stretch, the first window that looks
/// like vertical sync is the first that reaches into it by more than half.
pub proof fn law_plateau_is_met_by_half(
    s: Seq<i32>,
    level: Ratio,
    window: int,
    from: int,
    to: int,
    r: Option<int>,
)
    requires
        1 <= window <= from,
        from + window <= to <= s.len() - window,
        forall|i: int|
            0 <= i < s.len() ==> ((#[trigger] s[i]) * level.den < level.num <==> from <= i < to),
        first_dense(s, level, window, r),
    ensures
        r == Some(from - window + window / 2 + 1),
{
    assert forall|i: int| 0 <= i < s.len() implies (below(#[trigger] s[i], level) <==> from <= i
        < to) by {}
    assert forall|k: int| 0 <= k < s.len() - window implies (#[trigger] dense_at(
        s,
        level,
        window,
        k,
    ) <==> overlap(k, k + window, from, to) > window / 2) by {
        lemma_count_in_stretch(s, level, from, to, k, k + window);
    }
    let k = from - window + window / 2 + 1;
    assert(dense_at(s, level, window, k));
}

/// No window looks like vertical sync where no more than half of any is low,
/// and one is found where more than half of some window is.
pub proof fn law_dense_is_more_than_half(s: Seq<i32>, level: Ratio, window: int, start: int)
    requires
        0 <= window,
        0 <= start <= s.len() - window,
    ensures
        dense_at(s, level, window, start) <==> 2 * s.subrange(start, start + window).filter(
            |v: i32| v * level.den < level.num,
        ).len() > window,
{
    law_low_samples_are_counted(s, level, start, start + window);
}

/// The strongest window is one of those looked at. Where it is not the
/// first, more than half of it is low; and where more than half of some
/// window is, none is lower than the one that is found.
pub proof fn law_strongest_window_is_strongest(
    s: Seq<i32>,
    level: Ratio,
    window: int,
    stride: int,
    lo: int,
    hi: int,
    k: int,
)
    requires
        1 <= stride,
        0 <= k,
        lo + k * stride < hi,
    ensures
        ({
            let r = strongest_window(s, level, window, stride, lo, hi);
            let p = lo + k * stride;
            &&& exists|j: int| 0 <= j && r == lo + #[trigger] (j * stride) && r < hi
            &&& r != lo ==> count_below(s, level, r, r + window) > window / 2
            &&& count_below(s, level, p, p + window) > window / 2 ==> count_below(
                s,
                level,
                p,
                p + window,
            ) <= count_below(s, level, r, r + window)
        }),
{
    let n = window_count(stride, lo, hi);
    assert(0 <= k * stride) by (nonlinear_arith)
        requires
            0 <= k,
            1 <= stride,
    ;
    assert(k < n) by (nonlinear_arith)
        requires
            k * stride < hi - lo,
            n == (hi - lo + stride - 1) / stride,
            1 <= stride,
    ;
    lemma_best_window_is_best(s, level, window, stride, lo, n, k);
    let j = choose|j: int|
        0 <= j < n && best_window(s, level, window, stride, lo, n) == lo + #[trigger] (j * stride);
    assert(j * stride < hi - lo) by (nonlinear_arith)
        requires
            0 <= j < n,
            n == (hi - lo + stride - 1) / stride,
            1 <= stride,
    ;
    assert(0 * stride == 0);
}

proof fn lemma_best_window_is_best(
    s: Seq<i32>,
    level: Ratio,
    window: int,
    stride: int,
    lo: int,
    n: int,
    k: int,
)
    requires
        0 <= k < n,
    ensures
        ({
            let b = best_window(s, level, window, stride, lo, n);
            let p = lo + k * stride;
            &&& exists|j: int| 0 <= j < n && b == lo + #[trigger] (j * stride)
            &&& count_below(s, level, p, p + window) <= count_below(s, level, b, b + window)
        }),
    decreases n,
{
    let b = best_window(s, level, window, stride, lo, n);
    if n > 1 {
        let before = best_window(s, level, window, stride, lo, n - 1);
        lemma_best_window_is_best(
            s,
            level,
            window,
            stride,
            lo,
            n - 1,
            if k < n - 1 {
                k
            } else {
                0
            },
        );
        let j = choose|j: int| 0 <= j < n - 1 && before == lo + #[trigger] (j * stride);
        assert(b == lo + j * stride || b == lo + (n - 1) * stride);
    } else {
        assert(0 * stride == 0);
        assert(b == lo + 0 * stride);
    }
}

} // verus!
