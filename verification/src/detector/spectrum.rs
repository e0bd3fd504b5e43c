//! Line-rate classification of a magnitude spectrum.
//!
//! A spectrum is a list of bin magnitudes in millionths. It belongs to a
//! record of `n` real samples that was padded with zeros to the spectrum's
//! length; padding makes bins finer, not the resolution better, so what asks
//! about resolution goes by `n`.

use vstd::prelude::*;

use crate::detector::line_rate::{classify_pal_ntsc_time_domain, standard_in_time};
use crate::levels::{floor_div, max, min, sum_range};
use crate::stats::{law_median_parts_the_values, median, median_of};
use crate::timing::{law_rounding_is_to_the_nearest, round_div};
use crate::types::SignalType;

verus! {

/// PAL line rate as the spectrum search uses it.
pub const PAL_SEARCH_HZ: u32 = 15_625;

/// NTSC line rate as the spectrum search uses it.
pub const NTSC_SEARCH_HZ: u32 = 15_734;

/// How many samples a record needs to be classified.
pub const MIN_RECORD: usize = 2_047;

/// The bin nearest to a frequency on a grid of `len` bins.
pub open spec fn bin_at(hz: int, len: int, sample_rate: int) -> int {
    round_div(hz * len, sample_rate)
}

/// The largest element from `lo` up to and including `hi`, at least zero.
pub open spec fn largest(s: Seq<i64>, lo: int, hi: int) -> int
    decreases hi - lo + 1,
{
    if hi < lo {
        0
    } else {
        max(largest(s, lo, hi - 1), s[hi] as int)
    }
}

/// The peak within `range` bins of `bin`, kept below the middle of the
/// spectrum.
pub open spec fn peak_near(mags: Seq<i64>, bin: int, range: int) -> int {
    let end = min(bin + range, mags.len() as int / 2);
    let start = min(max(bin - range, 0), end);
    largest(mags, start, end)
}

/// One bin of the unpadded grid, in padded bins.
pub open spec fn search_range(len: int, n: int) -> int {
    max(round_div(len, n), 1)
}

/// How far the search for one line rate may reach without touching the
/// other's bin.
pub open spec fn separate_range(len: int, n: int, sample_rate: int) -> int {
    let apart = bin_at(15_734, len, sample_rate) - bin_at(15_625, len, sample_rate);
    min(search_range(len, n), max(apart - 1, 0))
}

/// Peak at a line rate.
pub open spec fn line_energy(mags: Seq<i64>, hz: int, n: int, sample_rate: int) -> int {
    let len = mags.len() as int;
    peak_near(mags, bin_at(hz, len, sample_rate), separate_range(len, n, sample_rate))
}

/// How many of the harmonics 2 to `k` of a line rate reach a tenth of the
/// fundamental.
pub open spec fn harmonics(
    mags: Seq<i64>,
    hz: int,
    n: int,
    sample_rate: int,
    fundamental: int,
    k: int,
) -> int
    decreases k,
{
    if k < 2 {
        0
    } else {
        let len = mags.len() as int;
        let bin = bin_at(k * hz, len, sample_rate);
        let hit = bin < len / 2 && 10 * peak_near(mags, bin, search_range(len, n)) > fundamental;
        harmonics(mags, hz, n, sample_rate, fundamental, k - 1) + if hit {
            1int
        } else {
            0int
        }
    }
}

/// Median magnitude between 500 Hz and the middle of the spectrum, the first
/// bin left out; one millionth where that is empty.
pub open spec fn noise_floor(mags: Seq<i64>, sample_rate: int) -> int {
    let len = mags.len() as int;
    let start = max(bin_at(500, len, sample_rate), 1);
    if start < len / 2 {
        median_of(mags.subrange(start, len / 2))
    } else {
        1
    }
}

/// Whether a record is long enough to tell the two line rates apart.
pub open spec fn resolves_standards(n: int, sample_rate: int) -> bool {
    bin_at(15_734, n, sample_rate) - bin_at(15_625, n, sample_rate) >= 2
}

/// What a spectrum shows, with its confidence. A line rate counts if its
/// peak exceeds the noise floor 25 times and two of its harmonics are there.
/// Where the record resolves the standards, one must also exceed the other
/// by a fifth; where it does not, the spacing of pulses in time decides.
pub open spec fn spectral_class(
    mags: Seq<i64>,
    n: int,
    sample_rate: int,
    in_time: Option<SignalType>,
) -> (SignalType, u32) {
    let pal = line_energy(mags, 15_625, n, sample_rate);
    let ntsc = line_energy(mags, 15_734, n, sample_rate);
    let strong = 25 * noise_floor(mags, sample_rate);
    let len = mags.len() as int;
    let listed = max(bin_at(15_734, len, sample_rate), bin_at(15_625, len, sample_rate)) > 0;
    let pal_harmonics = if listed {
        harmonics(mags, 15_625, n, sample_rate, pal, 5)
    } else {
        0
    };
    let ntsc_harmonics = if listed {
        harmonics(mags, 15_734, n, sample_rate, ntsc, 5)
    } else {
        0
    };
    if resolves_standards(n, sample_rate) {
        if pal > strong && 5 * pal > 6 * ntsc && pal_harmonics >= 2 {
            (SignalType::AnalogVideoPal, 800)
        } else if ntsc > strong && 5 * ntsc > 6 * pal && ntsc_harmonics >= 2 {
            (SignalType::AnalogVideoNtsc, 800)
        } else {
            (SignalType::Unknown, 0)
        }
    } else if max(pal, ntsc) > strong && max(pal_harmonics, ntsc_harmonics) >= 2 {
        match in_time {
            Some(SignalType::AnalogVideoPal) => (SignalType::AnalogVideoPal, 800),
            Some(SignalType::AnalogVideoNtsc) => (SignalType::AnalogVideoNtsc, 800),
            _ => (SignalType::AnalogVideoUnknown, 600),
        }
    } else {
        (SignalType::Unknown, 0)
    }
}

fn nearest_bin(hz: u32, len: usize, sample_rate: u32) -> (bin: u128)
    requires
        sample_rate > 0,
    ensures
        bin == bin_at(hz as int, len as int, sample_rate as int),
        bin <= 0x1_0000_0000_0000_0000_0000_0000_0000,
{
    let r: u128 = sample_rate as u128;
    assert(0 <= hz * len <= 0xffff_ffff * 0xffff_ffff_ffff_ffff) by (nonlinear_arith)
        requires
            hz <= 0xffff_ffff,
            len <= 0xffff_ffff_ffff_ffff,
    ;
    let p: u128 = hz as u128 * len as u128;
    let q: u128 = (2 * p + r) / (2 * r);
    assert(q <= 2 * p + r) by (nonlinear_arith)
        requires
            r > 0,
            q == (2 * p + r) as int / (2 * r) as int,
    ;
    q
}

pub(crate) fn largest_in(s: &Vec<i64>, lo: usize, hi: usize) -> (x: i64)
    requires
        lo <= hi < s.len(),
    ensures
        x == largest(s@, lo as int, hi as int),
        x >= 0,
{
    let mut best: i64 = 0;
    let mut i: usize = lo;
    assert(largest(s@, lo as int, lo - 1) == 0);
    while i <= hi
        invariant
            lo <= i <= hi + 1,
            hi < s.len(),
            best >= 0,
            best == largest(s@, lo as int, i - 1),
        decreases hi + 1 - i,
    {
        if s[i] > best {
            best = s[i];
        }
        i += 1;
    }
    best
}

/// The peak within `range` bins of `bin`, kept below the middle of the
/// spectrum.
fn get_peak_energy(mags: &Vec<i64>, bin: u128, range: u128) -> (x: i64)
    requires
        mags.len() > 0,
        bin + range <= u128::MAX,
    ensures
        x == peak_near(mags@, bin as int, range as int),
        x >= 0,
{
    let half: u128 = (mags.len() / 2) as u128;
    let end: u128 = if bin + range <= half {
        bin + range
    } else {
        half
    };
    let low: u128 = if bin >= range {
        bin - range
    } else {
        0
    };
    let start: u128 = if low <= end {
        low
    } else {
        end
    };
    largest_in(mags, start as usize, end as usize)
}

fn count_harmonics(mags: &Vec<i64>, hz: u32, range: u128, sample_rate: u32, fundamental: i64, Ghost(
    n,
): Ghost<int>) -> (count: u32)
    requires
        mags.len() > 0,
        sample_rate > 0,
        hz <= 100_000,
        range == search_range(mags.len() as int, n),
        range <= 0x4_0000_0000_0000_0000,
    ensures
        count == harmonics(mags@, hz as int, n, sample_rate as int, fundamental as int, 5),
{
    let len: usize = mags.len();
    let mut count: u32 = 0;
    let mut k: u32 = 2;
    assert(harmonics(mags@, hz as int, n, sample_rate as int, fundamental as int, 1) == 0);
    while k <= 5
        invariant
            2 <= k <= 6,
            len == mags.len(),
            len > 0,
            sample_rate > 0,
            hz <= 100_000,
            count <= k - 2,
            range == search_range(mags.len() as int, n),
            range <= 0x4_0000_0000_0000_0000,
            count == harmonics(
                mags@,
                hz as int,
                n,
                sample_rate as int,
                fundamental as int,
                k - 1,
            ),
        decreases 6 - k,
    {
        assert(k * hz <= 600_000) by (nonlinear_arith)
            requires
                2 <= k <= 5,
                hz <= 100_000,
        ;
        let bin: u128 = nearest_bin(k * hz, len, sample_rate);
        if bin < (len / 2) as u128 {
            let e: i64 = get_peak_energy(mags, bin, range);
            if 10 * (e as i128) > fundamental as i128 {
                count += 1;
            }
        }
        k += 1;
    }
    count
}

fn floor_of(mags: &Vec<i64>, sample_rate: u32) -> (x: i64)
    requires
        sample_rate > 0,
    ensures
        x == noise_floor(mags@, sample_rate as int),
{
    let half: usize = mags.len() / 2;
    let near: u128 = nearest_bin(500, mags.len(), sample_rate);
    let start: u128 = if near >= 1 {
        near
    } else {
        1
    };
    if start >= half as u128 {
        return 1;
    }
    let lo: usize = start as usize;
    let ghost part = mags@.subrange(lo as int, half as int);
    let mut v: Vec<i64> = Vec::new();
    let mut i: usize = lo;
    while i < half
        invariant
            lo <= i <= half <= mags.len(),
            part == mags@.subrange(lo as int, half as int),
            v@ == part.take(i - lo),
        decreases half - i,
    {
        v.push(mags[i]);
        i += 1;
        assert(v@ =~= part.take(i - lo));
    }
    assert(v@ =~= part);
    median(&v)
}

/// What the spectrum of a demodulated record shows, before structural
/// checks.
pub fn classify_spectrum(mags: &Vec<i64>, demod: &[i32], sample_rate: u32) -> (r: (SignalType, u32))
    requires
        0 < demod.len() <= mags.len(),
        sample_rate > 0,
    ensures
        r == spectral_class(
            mags@,
            demod.len() as int,
            sample_rate as int,
            standard_in_time(demod@, sample_rate as int),
        ),
{
    let len: usize = mags.len();
    let n: usize = demod.len();
    let ghost rate = sample_rate as int;
    let bin_pal: u128 = nearest_bin(PAL_SEARCH_HZ, len, sample_rate);
    let bin_ntsc: u128 = nearest_bin(NTSC_SEARCH_HZ, len, sample_rate);
    proof {
        lemma_ntsc_above_pal(len as int, rate);
        lemma_ntsc_above_pal(n as int, rate);
    }
    let near: u128 = (2 * (len as u128) + n as u128) / (2 * (n as u128));
    assert(near <= 2 * len) by (nonlinear_arith)
        requires
            0 < n <= len,
            near == (2 * len + n) as int / (2 * n) as int,
    ;
    let range: u128 = if near >= 1 {
        near
    } else {
        1
    };
    let apart: u128 = bin_ntsc - bin_pal;
    let narrow: u128 = if apart >= 1 {
        apart - 1
    } else {
        0
    };
    let separate: u128 = if range <= narrow {
        range
    } else {
        narrow
    };
    let pal: i64 = get_peak_energy(mags, bin_pal, separate);
    let ntsc: i64 = get_peak_energy(mags, bin_ntsc, separate);
    let strong: i128 = 25 * (floor_of(mags, sample_rate) as i128);
    let mut pal_harmonics: u32 = 0;
    let mut ntsc_harmonics: u32 = 0;
    if bin_ntsc > 0 || bin_pal > 0 {
        pal_harmonics = count_harmonics(mags, PAL_SEARCH_HZ, range, sample_rate, pal, Ghost(n as int));
        ntsc_harmonics = count_harmonics(
            mags,
            NTSC_SEARCH_HZ,
            range,
            sample_rate,
            ntsc,
            Ghost(n as int),
        );
    }
    let p: i128 = pal as i128;
    let q: i128 = ntsc as i128;
    let resolved: bool = nearest_bin(NTSC_SEARCH_HZ, n, sample_rate) - nearest_bin(
        PAL_SEARCH_HZ,
        n,
        sample_rate,
    ) >= 2;
    if resolved {
        if p > strong && 5 * p > 6 * q && pal_harmonics >= 2 {
            (SignalType::AnalogVideoPal, 800)
        } else if q > strong && 5 * q > 6 * p && ntsc_harmonics >= 2 {
            (SignalType::AnalogVideoNtsc, 800)
        } else {
            (SignalType::Unknown, 0)
        }
    } else if (p > strong || q > strong) && (pal_harmonics >= 2 || ntsc_harmonics >= 2) {
        match classify_pal_ntsc_time_domain(demod, sample_rate) {
            Some(SignalType::AnalogVideoPal) => (SignalType::AnalogVideoPal, 800),
            Some(SignalType::AnalogVideoNtsc) => (SignalType::AnalogVideoNtsc, 800),
            _ => (SignalType::AnalogVideoUnknown, 600),
        }
    } else {
        (SignalType::Unknown, 0)
    }
}

proof fn lemma_ntsc_above_pal(len: int, rate: int)
    requires
        len >= 0,
        rate > 0,
    ensures
        0 <= bin_at(15_625, len, rate) <= bin_at(15_734, len, rate),
{
    let a = 2 * (15_625 * len) + rate;
    let b = 2 * (15_734 * len) + rate;
    assert(0 <= a / (2 * rate) <= b / (2 * rate)) by (nonlinear_arith)
        requires
            0 <= a <= b,
            rate > 0,
    ;
}

/// Smallest variance of a record that carries anything, in square nanoturns: a
/// millionth of a square radian.
pub const MIN_VARIANCE: u64 = 25_330_295_911;

/// The mean of a record, rounded.
pub open spec fn record_mean(s: Seq<i32>) -> int {
    (2 * sum_range(s, 0, s.len() as int) + s.len()) / (2 * s.len() as int)
}

/// Sum of the squared distances of the first `k` samples from a level.
pub open spec fn square_sum(s: Seq<i32>, level: int, k: int) -> int
    decreases k,
{
    if k <= 0 {
        0
    } else {
        square_sum(s, level, k - 1) + (s[k - 1] - level) * (s[k - 1] - level)
    }
}

/// Whether a record hardly varies: an unmodulated carrier, or nothing.
pub open spec fn steady(s: Seq<i32>) -> bool {
    square_sum(s, record_mean(s), s.len() as int) < MIN_VARIANCE * s.len()
}

/// Whether a record is long enough, timed, and varies.
pub open spec fn classifiable(s: Seq<i32>, sample_rate: int) -> bool {
    s.len() >= MIN_RECORD && sample_rate > 0 && !steady(s)
}

proof fn lemma_square_sum_grows(s: Seq<i32>, level: int, j: int, k: int)
    requires
        0 <= j <= k,
    ensures
        square_sum(s, level, j) <= square_sum(s, level, k),
    decreases k - j,
{
    if j < k {
        lemma_square_sum_grows(s, level, j, k - 1);
        let d = s[k - 1] - level;
        assert(d * d >= 0) by (nonlinear_arith);
    }
}

/// Whether a record can be classified at all.
pub fn can_classify(demod: &[i32], sample_rate: u32) -> (b: bool)
    ensures
        b == classifiable(demod@, sample_rate as int),
{
    let n: usize = demod.len();
    if n < MIN_RECORD || sample_rate == 0 {
        return false;
    }
    let mut sum: i128 = 0;
    let mut i: usize = 0;
    while i < n
        invariant
            i <= n,
            n == demod.len(),
            sum == sum_range(demod@, 0, i as int),
            i * i32::MIN <= sum <= i * i32::MAX,
        decreases n - i,
    {
        sum = sum + demod[i] as i128;
        i += 1;
    }
    let mean: i128 = floor_div(2 * sum + n as i128, 2 * n as i128);
    assert(i32::MIN <= mean <= i32::MAX + 1) by (nonlinear_arith)
        requires
            mean == (2 * sum + n) / (2 * n as int),
            n > 0,
            n * i32::MIN <= sum <= n * i32::MAX,
    ;
    let limit: i128 = MIN_VARIANCE as i128 * n as i128;
    let mut squares: i128 = 0;
    let mut i: usize = 0;
    while i < n
        invariant
            i <= n,
            n == demod.len() >= MIN_RECORD,
            sample_rate > 0,
            i32::MIN <= mean <= i32::MAX + 1,
            mean == record_mean(demod@),
            limit == MIN_VARIANCE * n,
            squares == square_sum(demod@, mean as int, i as int),
            0 <= squares < limit,
        decreases n - i,
    {
        let d: i128 = demod[i] as i128 - mean;
        assert(0 <= d * d <= 0x2_0000_0000_0000_0000) by (nonlinear_arith)
            requires
                -0x1_0000_0001 <= d <= 0x1_0000_0001,
        ;
        squares = squares + d * d;
        i += 1;
        if squares >= limit {
            proof {
                lemma_square_sum_grows(demod@, mean as int, i as int, n as int);
            }
            return true;
        }
    }
    false
}

/// The search for one line rate never reaches the other's bin, where the two
/// have bins of their own: neither can be mistaken for the other.
pub proof fn law_line_searches_stay_apart(len: int, n: int, sample_rate: int)
    requires
        0 < n <= len,
        sample_rate > 0,
        bin_at(15_625, len, sample_rate) < bin_at(15_734, len, sample_rate),
    ensures
        ({
            let reach = separate_range(len, n, sample_rate);
            &&& bin_at(15_625, len, sample_rate) + reach < bin_at(15_734, len, sample_rate)
            &&& bin_at(15_734, len, sample_rate) - reach > bin_at(15_625, len, sample_rate)
        }),
{
}

/// A line rate without two of its harmonics is not video, however strong.
pub proof fn law_a_bare_tone_is_not_video(
    mags: Seq<i64>,
    n: int,
    sample_rate: int,
    in_time: Option<SignalType>,
)
    requires
        ({
            let pal = line_energy(mags, 15_625, n, sample_rate);
            let ntsc = line_energy(mags, 15_734, n, sample_rate);
            &&& harmonics(mags, 15_625, n, sample_rate, pal, 5) < 2
            &&& harmonics(mags, 15_734, n, sample_rate, ntsc, 5) < 2
        }),
    ensures
        spectral_class(mags, n, sample_rate, in_time).0 == SignalType::Unknown,
{
}

/// A frequency's bin is the one nearest to it.
pub proof fn law_bins_are_nearest(hz: int, len: int, sample_rate: int)
    requires
        sample_rate > 0,
    ensures
        -sample_rate < 2 * (sample_rate * bin_at(hz, len, sample_rate) - hz * len) <= sample_rate,
{
    law_rounding_is_to_the_nearest(hz * len, sample_rate);
}

/// A peak is the tallest of the bins around it, up to the middle of the
/// spectrum, or zero where none of them is above that.
pub proof fn law_peak_is_the_tallest_nearby(mags: Seq<i64>, bin: int, range: int, k: int)
    requires
        mags.len() > 0,
        bin >= 0,
        range >= 0,
    ensures
        ({
            let p = peak_near(mags, bin, range);
            &&& p >= 0
            &&& bin - range <= k <= bin + range && 0 <= k <= mags.len() / 2 ==> mags[k] <= p
            &&& p > 0 ==> exists|j: int|
                0 <= j <= mags.len() / 2 && bin + range >= j && (bin - range <= j || j == mags.len()
                    / 2) && #[trigger] mags[j] == p
        }),
{
    let end = min(bin + range, mags.len() as int / 2);
    let start = min(max(bin - range, 0), end);
    lemma_largest_is_the_tallest(mags, start, end);
}

proof fn lemma_largest_is_the_tallest(s: Seq<i64>, lo: int, hi: int)
    ensures
        largest(s, lo, hi) >= 0,
        forall|k: int| lo <= k <= hi ==> #[trigger] s[k] <= largest(s, lo, hi),
        largest(s, lo, hi) > 0 ==> exists|j: int|
            lo <= j <= hi && #[trigger] s[j] == largest(s, lo, hi),
    decreases hi - lo + 1,
{
    if lo <= hi {
        lemma_largest_is_the_tallest(s, lo, hi - 1);
        if largest(s, lo, hi) > 0 && s[hi] < largest(s, lo, hi) {
            let j = choose|j: int|
                lo <= j <= hi - 1 && #[trigger] s[j] == largest(s, lo, hi - 1);
            assert(s[j] == largest(s, lo, hi));
        }
    }
}

/// The harmonics that count are those of two to five times the line rate
/// that lie below the middle of the spectrum and whose peak, within one bin
/// of the record, exceeds a tenth of the fundamental.
pub proof fn law_harmonics_are_counted(
    mags: Seq<i64>,
    hz: int,
    n: int,
    sample_rate: int,
    fundamental: int,
)
    ensures
        ({
            let len = mags.len() as int;
            harmonics(mags, hz, n, sample_rate, fundamental, 5) == seq![2int, 3, 4, 5].filter(
                |k: int|
                    {
                        let bin = bin_at(k * hz, len, sample_rate);
                        bin < len / 2 && peak_near(mags, bin, search_range(len, n)) * 10
                            > fundamental
                    },
            ).len()
        }),
{
    let len = mags.len() as int;
    let hit = |k: int|
        {
            let bin = bin_at(k * hz, len, sample_rate);
            bin < len / 2 && peak_near(mags, bin, search_range(len, n)) * 10 > fundamental
        };
    reveal(Seq::filter);
    reveal_with_fuel(harmonics, 6);
    let s2 = seq![2int];
    let s3 = seq![2int, 3];
    let s4 = seq![2int, 3, 4];
    let s5 = seq![2int, 3, 4, 5];
    assert(s5.drop_last() =~= s4);
    assert(s4.drop_last() =~= s3);
    assert(s3.drop_last() =~= s2);
    assert(s2.drop_last() =~= Seq::<int>::empty());
    assert(Seq::<int>::empty().filter(hit).len() == 0);
    assert(s2.filter(hit).len() == if hit(2) {
        1int
    } else {
        0
    });
    assert(s3.filter(hit).len() == s2.filter(hit).len() + if hit(3) {
        1int
    } else {
        0
    });
    assert(s4.filter(hit).len() == s3.filter(hit).len() + if hit(4) {
        1int
    } else {
        0
    });
    assert(s5.filter(hit).len() == s4.filter(hit).len() + if hit(5) {
        1int
    } else {
        0
    });
}

/// The noise floor is a level that half of the bins from 500 Hz up to the
/// middle of the spectrum reach and half do not exceed.
pub proof fn law_noise_floor_parts_the_bins(mags: Seq<i64>, sample_rate: int)
    requires
        sample_rate > 0,
        ({
            let first = bin_at(500, mags.len() as int, sample_rate);
            1 <= first < mags.len() / 2
        }),
    ensures
        ({
            let first = bin_at(500, mags.len() as int, sample_rate);
            let bins = mags.subrange(first, mags.len() as int / 2);
            let f = noise_floor(mags, sample_rate);
            &&& 2 * bins.filter(|v: i64| v <= f).len() > bins.len()
            &&& 2 * bins.filter(|v: i64| v >= f).len() >= bins.len()
            &&& bins.contains(f as i64)
        }),
{
    let first = bin_at(500, mags.len() as int, sample_rate);
    let bins = mags.subrange(first, mags.len() as int / 2);
    law_median_parts_the_values(bins);
    let i = choose|i: int| 0 <= i < bins.len() && #[trigger] bins[i] == median_of(bins);
    assert(bins[i] == noise_floor(mags, sample_rate) as i64);
}

/// Line rates that do not exceed the noise floor 25 times show nothing.
pub proof fn law_weak_lines_show_nothing(
    mags: Seq<i64>,
    n: int,
    sample_rate: int,
    in_time: Option<SignalType>,
)
    requires
        line_energy(mags, 15_625, n, sample_rate) <= 25 * noise_floor(mags, sample_rate),
        line_energy(mags, 15_734, n, sample_rate) <= 25 * noise_floor(mags, sample_rate),
    ensures
        spectral_class(mags, n, sample_rate, in_time) == (SignalType::Unknown, 0u32),
{
}

/// Where a record resolves the standards, the spectrum alone decides: a
/// strong line rate with its harmonics names the standard if it exceeds the
/// other by a fifth, and if neither does, nothing is named.
pub proof fn law_resolved_lines_decide(
    mags: Seq<i64>,
    n: int,
    sample_rate: int,
    in_time: Option<SignalType>,
)
    requires
        resolves_standards(n, sample_rate),
        0 < n <= mags.len(),
        0 < sample_rate,
    ensures
        ({
            let pal = line_energy(mags, 15_625, n, sample_rate);
            let ntsc = line_energy(mags, 15_734, n, sample_rate);
            let floor = noise_floor(mags, sample_rate);
            let r = spectral_class(mags, n, sample_rate, in_time);
            &&& r.0 == SignalType::AnalogVideoPal <==> pal > 25 * floor && 10 * pal > 12 * ntsc
                && harmonics(mags, 15_625, n, sample_rate, pal, 5) >= 2
            &&& r.0 == SignalType::AnalogVideoNtsc <==> ntsc > 25 * floor && 10 * ntsc > 12 * pal
                && harmonics(mags, 15_734, n, sample_rate, ntsc, 5) >= 2
            &&& r.0 == SignalType::AnalogVideoPal || r.0 == SignalType::AnalogVideoNtsc ==> r.1
                == 800
            &&& r.0 != SignalType::AnalogVideoPal && r.0 != SignalType::AnalogVideoNtsc ==> r == (
                SignalType::Unknown,
                0u32,
            )
        }),
{
    let len = mags.len() as int;
    lemma_resolved_lines_have_bins(len, n, sample_rate);
    lemma_energy_not_negative(mags, 15_625, n, sample_rate);
    lemma_energy_not_negative(mags, 15_734, n, sample_rate);
}

proof fn lemma_energy_not_negative(mags: Seq<i64>, hz: int, n: int, sample_rate: int)
    ensures
        line_energy(mags, hz, n, sample_rate) >= 0,
{
    let len = mags.len() as int;
    let bin = bin_at(hz, len, sample_rate);
    let range = separate_range(len, n, sample_rate);
    let end = min(bin + range, len / 2);
    let start = min(max(bin - range, 0), end);
    lemma_largest_is_the_tallest(mags, start, end);
}

proof fn lemma_resolved_lines_have_bins(len: int, n: int, sample_rate: int)
    requires
        resolves_standards(n, sample_rate),
        0 < n <= len,
        0 < sample_rate,
    ensures
        bin_at(15_734, len, sample_rate) > 0,
{
    let (a, b) = (bin_at(15_625, n, sample_rate), bin_at(15_734, n, sample_rate));
    let c = bin_at(15_734, len, sample_rate);
    law_bins_are_nearest(15_625, n, sample_rate);
    law_bins_are_nearest(15_734, n, sample_rate);
    law_bins_are_nearest(15_734, len, sample_rate);
    assert(a >= 0) by (nonlinear_arith)
        requires
            -sample_rate < 2 * (sample_rate * a - 15_625 * n) <= sample_rate,
            n > 0,
            sample_rate > 0,
    ;
    assert(2 * (15_734 * n) >= 3 * sample_rate) by (nonlinear_arith)
        requires
            b >= 2,
            2 * (sample_rate * b - 15_734 * n) <= sample_rate,
            sample_rate > 0,
    ;
    assert(c > 0) by (nonlinear_arith)
        requires
            -sample_rate < 2 * (sample_rate * c - 15_734 * len),
            2 * (15_734 * n) >= 3 * sample_rate,
            n <= len,
            sample_rate > 0,
    ;
}

/// Where it does not, a strong line rate with its harmonics is video, and the
/// spacing of pulses in time names the standard, if it can.
pub proof fn law_unresolved_lines_are_told_in_time(
    mags: Seq<i64>,
    n: int,
    sample_rate: int,
    in_time: Option<SignalType>,
)
    requires
        !resolves_standards(n, sample_rate),
        bin_at(15_734, mags.len() as int, sample_rate) > 0,
    ensures
        ({
            let pal = line_energy(mags, 15_625, n, sample_rate);
            let ntsc = line_energy(mags, 15_734, n, sample_rate);
            let floor = noise_floor(mags, sample_rate);
            let strong = pal > 25 * floor || ntsc > 25 * floor;
            let rich = harmonics(mags, 15_625, n, sample_rate, pal, 5) >= 2 || harmonics(
                mags,
                15_734,
                n,
                sample_rate,
                ntsc,
                5,
            ) >= 2;
            let r = spectral_class(mags, n, sample_rate, in_time);
            &&& !(strong && rich) ==> r == (SignalType::Unknown, 0u32)
            &&& strong && rich && in_time == Some(SignalType::AnalogVideoPal) ==> r == (
                SignalType::AnalogVideoPal,
                800u32,
            )
            &&& strong && rich && in_time == Some(SignalType::AnalogVideoNtsc) ==> r == (
                SignalType::AnalogVideoNtsc,
                800u32,
            )
            &&& strong && rich && in_time is None ==> r == (
                SignalType::AnalogVideoUnknown,
                600u32,
            )
        }),
{
}

/// A record resolves the standards where it is long enough for their line
/// rates, 109 Hz apart, to differ by three bins, and does not where they
/// differ by less than one.
pub proof fn law_long_records_resolve_the_standards(n: int, sample_rate: int)
    requires
        n > 0,
        sample_rate > 0,
    ensures
        109 * n >= 3 * sample_rate ==> resolves_standards(n, sample_rate),
        109 * n < sample_rate ==> !resolves_standards(n, sample_rate),
{
    let (a, b) = (bin_at(15_625, n, sample_rate), bin_at(15_734, n, sample_rate));
    law_bins_are_nearest(15_625, n, sample_rate);
    law_bins_are_nearest(15_734, n, sample_rate);
    let d = b - a;
    assert(sample_rate * b - sample_rate * a == sample_rate * d) by (nonlinear_arith)
        requires
            d == b - a,
    ;
    if 109 * n >= 3 * sample_rate {
        assert(d >= 2) by (nonlinear_arith)
            requires
                2 * (sample_rate * d) > 2 * (109 * n) - 2 * sample_rate,
                109 * n >= 3 * sample_rate,
                sample_rate > 0,
        ;
    }
    if 109 * n < sample_rate {
        assert(d < 2) by (nonlinear_arith)
            requires
                2 * (sample_rate * d) < 2 * (109 * n) + 2 * sample_rate,
                109 * n < sample_rate,
                sample_rate > 0,
        ;
    }
}

/// A record that lies `d` nanoturns above its mean half of the time and `d`
/// below it the other half hardly varies exactly where `d` squared is less
/// than a millionth of a square radian.
pub proof fn law_steady_means_little_variance(s: Seq<i32>, a: int, d: int)
    requires
        s.len() > 0,
        s.len() % 2 == 0,
        forall|i: int|
            0 <= i < s.len() ==> #[trigger] s[i] == if i % 2 == 0 {
                a + d
            } else {
                a - d
            },
    ensures
        record_mean(s) == a,
        steady(s) <==> d * d < 25_330_295_911,
{
    let n = s.len() as int;
    lemma_two_level_sums(s, a, d, n);
    let sum = sum_range(s, 0, n);
    assert((2 * (n * a) + n) / (2 * n) == a) by (nonlinear_arith)
        requires
            n > 0,
    ;
    assert(n * (d * d) < 25_330_295_911 * n <==> d * d < 25_330_295_911) by (nonlinear_arith)
        requires
            n > 0,
    ;
}

proof fn lemma_two_level_sums(s: Seq<i32>, a: int, d: int, k: int)
    requires
        0 <= k <= s.len(),
        k % 2 == 0,
        forall|i: int|
            0 <= i < s.len() ==> #[trigger] s[i] == if i % 2 == 0 {
                a + d
            } else {
                a - d
            },
    ensures
        sum_range(s, 0, k) == k * a,
        square_sum(s, a, k) == k * (d * d),
    decreases k,
{
    if k > 0 {
        lemma_two_level_sums(s, a, d, k - 2);
        assert(s[k - 1] == a - d);
        assert(s[k - 2] == a + d);
        assert(sum_range(s, 0, k - 1) == sum_range(s, 0, k - 2) + s[k - 2]);
        assert(square_sum(s, a, k - 1) == square_sum(s, a, k - 2) + d * d);
        assert((-d) * (-d) == d * d) by (nonlinear_arith);
        assert((k - 2) * a + (a + d) + (a - d) == k * a) by (nonlinear_arith);
        assert((k - 2) * (d * d) + d * d + d * d == k * (d * d)) by (nonlinear_arith);
    } else {
        assert(0 * a == 0 && 0 * (d * d) == 0);
    }
}

/// A search for a harmonic reaches one bin of the record: as many padded bins
/// as are nearest to that, at least one. The search for a line rate reaches as
/// far, unless it would touch the other line rate's bin; it then stops right
/// before it.
pub proof fn law_searches_reach_one_bin(len: int, n: int, sample_rate: int)
    requires
        0 < n <= len,
        sample_rate > 0,
        bin_at(15_625, len, sample_rate) < bin_at(15_734, len, sample_rate),
    ensures
        ({
            let one = search_range(len, n);
            let reach = separate_range(len, n, sample_rate);
            let apart = bin_at(15_734, len, sample_rate) - bin_at(15_625, len, sample_rate);
            &&& one >= 1
            &&& -n < 2 * (n * one - len) <= n
            &&& reach <= one
            &&& reach < one ==> reach + 1 == apart
        }),
{
    law_rounding_is_to_the_nearest(len, n);
    let q = round_div(len, n);
    assert(q >= 1) by (nonlinear_arith)
        requires
            -n < 2 * (n * q - len) <= n,
            0 < n <= len,
    ;
}

} // verus!
