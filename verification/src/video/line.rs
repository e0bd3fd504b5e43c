//! One line of a field: resampled onto the output grid, levelled, and marked
//! where it dropped out.
//!
//! Values are nanoturns, as the samples they come from.

use vstd::prelude::*;

use super::grid::MAX_PERIOD;
use super::sync::{law_nearest_is_within_half, nearest, nearest_div, MAX_RECORD, SUBSAMPLE};
use crate::levels::{averaged, max, min, moving_average, sum_range};

verus! {

/// Bound on the values of a resampled line.
pub const MAX_VALUE: i64 = 0x8_0000_0000;

/// Bound on the values of a levelled line.
pub const MAX_LEVELLED: i64 = 0x100_0000_0000;

/// Whether all values are within a bound.
pub open spec fn within(s: Seq<i64>, bound: int) -> bool {
    forall|i: int| 0 <= i < s.len() ==> -bound <= #[trigger] s[i] <= bound
}

/// The cubic through four neighbouring samples, `f` millionths of the way
/// from the second to the third.
pub open spec fn cubic(v0: int, v1: int, v2: int, v3: int, f: int) -> int {
    nearest(
        (3 * v1 - v0 - 3 * v2 + v3) * (f * f * f) + (2 * v0 - 5 * v1 + 4 * v2 - v3) * (f * f
            * 1_000_000) + (v2 - v0) * (f * 1_000_000_000_000) + 2 * v1 * 1_000_000_000_000_000_000,
        2_000_000_000_000_000_000,
    )
}

/// The straight line between two neighbouring samples.
pub open spec fn linear(v0: int, v1: int, f: int) -> int {
    nearest(v0 * (1_000_000 - f) + v1 * f, 1_000_000)
}

/// The value of a line at a position: cubic, linear at the very edges, and
/// the last sample past the end rather than a black pixel.
pub open spec fn value_at(src: Seq<i32>, position: int) -> int {
    let idx = position / 1_000_000;
    let f = position % 1_000_000;
    if 1 <= idx && idx + 2 < src.len() {
        cubic(
            src[idx - 1] as int,
            src[idx] as int,
            src[idx + 1] as int,
            src[idx + 2] as int,
            f,
        )
    } else if idx + 1 < src.len() {
        linear(src[idx] as int, src[idx + 1] as int, f)
    } else if idx < src.len() {
        src[idx] as int
    } else if src.len() > 0 {
        src.last() as int
    } else {
        0
    }
}

/// Samples averaged ahead of resampling, so that what lies above the output
/// rate does not fold into the picture: as many as go into one column, where
/// that is one and a half at least.
pub open spec fn boxcar(period: int, width: int) -> int {
    if 2 * period >= 3 * (width * SUBSAMPLE) {
        nearest(period, width * SUBSAMPLE)
    } else {
        1
    }
}

/// Where a column is read: the line is swept over evenly, from its fractional
/// start on, and the delay of the average is made up for.
pub open spec fn column_position(frac: int, win: int, col: int, period: int, width: int) -> int {
    frac + (win - 1) * 500_000 + col * period / width
}

/// A line resampled to `width` columns.
pub open spec fn resampled(raw: Seq<i32>, frac: int, period: int, width: int) -> Seq<i64> {
    let win = boxcar(period, width);
    let src = averaged(raw, win);
    Seq::new(
        width as nat,
        |col: int| value_at(src, column_position(frac, win, col, period, width)) as i64,
    )
}

fn cubic_of(v0: i32, v1: i32, v2: i32, v3: i32, f: i64) -> (v: i64)
    requires
        0 <= f < 1_000_000,
    ensures
        v == cubic(v0 as int, v1 as int, v2 as int, v3 as int, f as int),
        -MAX_VALUE <= v <= MAX_VALUE,
{
    let v0: i128 = v0 as i128;
    let v1: i128 = v1 as i128;
    let v2: i128 = v2 as i128;
    let v3: i128 = v3 as i128;
    let f: i128 = f as i128;
    assert(0 <= f * f < 1_000_000_000_000) by (nonlinear_arith)
        requires
            0 <= f < 1_000_000,
    ;
    let f2: i128 = f * f;
    assert(0 <= f2 * f < 1_000_000_000_000_000_000) by (nonlinear_arith)
        requires
            0 <= f < 1_000_000,
            0 <= f2 < 1_000_000_000_000,
    ;
    let f3: i128 = f2 * f;
    let a: i128 = 3 * v1 - v0 - 3 * v2 + v3;
    let b: i128 = 2 * v0 - 5 * v1 + 4 * v2 - v3;
    let c: i128 = v2 - v0;
    let m2: i128 = f2 * 1_000_000;
    let m1: i128 = f * 1_000_000_000_000;
    proof {
        let top: int = 1_000_000_000_000_000_000;
        assert(-(0x4_0000_0000 * top) <= a * f3 <= 0x4_0000_0000 * top) by (nonlinear_arith)
            requires
                -0x4_0000_0000 <= a <= 0x4_0000_0000,
                0 <= f3 < top,
        ;
        assert(-(0x6_0000_0000 * top) <= b * m2 <= 0x6_0000_0000 * top) by (nonlinear_arith)
            requires
                -0x6_0000_0000 <= b <= 0x6_0000_0000,
                0 <= m2 < top,
        ;
        assert(-(0x1_0000_0000 * top) <= c * m1 <= 0x1_0000_0000 * top) by (nonlinear_arith)
            requires
                -0x1_0000_0000 <= c <= 0x1_0000_0000,
                0 <= m1 < top,
        ;
    }
    let num: i128 = a * f3 + b * m2 + c * m1 + 2 * v1 * 1_000_000_000_000_000_000;
    let q: i128 = nearest_div(num, 2_000_000_000_000_000_000);
    assert(-0x8_0000_0000 <= q <= 0x8_0000_0000) by (nonlinear_arith)
        requires
            q == (2 * num + 2_000_000_000_000_000_000) / 4_000_000_000_000_000_000int,
            -(0xC_0000_0000 * 1_000_000_000_000_000_000) <= num <= 0xC_0000_0000
                * 1_000_000_000_000_000_000,
    ;
    q as i64
}

fn linear_of(v0: i32, v1: i32, f: i64) -> (v: i64)
    requires
        0 <= f < 1_000_000,
    ensures
        v == linear(v0 as int, v1 as int, f as int),
        -MAX_VALUE <= v <= MAX_VALUE,
{
    let f: i128 = f as i128;
    let a: i128 = v0 as i128;
    let b: i128 = v1 as i128;
    let g: i128 = 1_000_000 - f;
    assert(-2_147_483_648_000_000 <= a * g <= 2_147_483_648_000_000) by (nonlinear_arith)
        requires
            -0x8000_0000 <= a <= 0x8000_0000,
            0 <= g <= 1_000_000,
    ;
    assert(-2_147_483_648_000_000 <= b * f <= 2_147_483_648_000_000) by (nonlinear_arith)
        requires
            -0x8000_0000 <= b <= 0x8000_0000,
            0 <= f <= 1_000_000,
    ;
    let num: i128 = a * g + b * f;
    let q: i128 = nearest_div(num, 1_000_000);
    assert(-0x8_0000_0000 <= q <= 0x8_0000_0000) by {
        assert(q == (2 * num + 1_000_000) / 2_000_000int);
        assert(-4_294_967_296_000_000 <= num <= 4_294_967_296_000_000);
    }
    q as i64
}

fn read_at(src: &Vec<i32>, position: i64) -> (v: i64)
    requires
        0 <= position,
        src.len() <= MAX_RECORD,
    ensures
        v == value_at(src@, position as int),
        -MAX_VALUE <= v <= MAX_VALUE,
{
    let n: i64 = src.len() as i64;
    let idx: i64 = position / 1_000_000;
    let f: i64 = position % 1_000_000;
    if 1 <= idx && idx + 2 < n {
        let k: usize = idx as usize;
        cubic_of(src[k - 1], src[k], src[k + 1], src[k + 2], f)
    } else if idx + 1 < n {
        let k: usize = idx as usize;
        linear_of(src[k], src[k + 1], f)
    } else if idx < n {
        src[idx as usize] as i64
    } else if src.len() > 0 {
        src[src.len() - 1] as i64
    } else {
        0
    }
}

/// Resample one line, which starts `frac` into its first sample.
pub fn resample_line(raw: &[i32], frac: i64, period: i64, width: usize) -> (out: Vec<i64>)
    requires
        raw.len() <= MAX_RECORD,
        0 <= frac < SUBSAMPLE,
        0 <= period <= MAX_PERIOD,
        1 <= width <= 0x1_0000,
    ensures
        out@ == resampled(raw@, frac as int, period as int, width as int),
        within(out@, MAX_VALUE as int),
{
    let span: i64 = width as i64 * SUBSAMPLE;
    let win: i64 = if 2 * period >= 3 * span {
        let w: i128 = nearest_div(period as i128, span as i128);
        assert(1 <= w <= 0x100_0000) by (nonlinear_arith)
            requires
                w == (2 * period + span) / (2 * span),
                2 * period >= 3 * span,
                span >= 1_000_000,
                period <= 0x80_0000_0000,
        ;
        w as i64
    } else {
        1
    };
    let src: Vec<i32> = moving_average(raw, win as usize);
    let ghost whole = resampled(raw@, frac as int, period as int, width as int);
    let mut out: Vec<i64> = Vec::new();
    let mut col: usize = 0;
    while col < width
        invariant
            col <= width <= 0x1_0000,
            1 <= width,
            0 <= frac < SUBSAMPLE,
            0 <= period <= MAX_PERIOD,
            1 <= win <= 0x100_0000,
            win == boxcar(period as int, width as int),
            src@ == averaged(raw@, win as int),
            src.len() <= MAX_RECORD,
            whole == resampled(raw@, frac as int, period as int, width as int),
            out@ == whole.take(col as int),
            within(out@, MAX_VALUE as int),
        decreases width - col,
    {
        assert(0 <= col * period <= 0x80_0000_0000_0000) by (nonlinear_arith)
            requires
                0 <= col <= 0x1_0000,
                0 <= period <= 0x80_0000_0000,
        ;
        let sweep: i64 = (col as i64 * period) / width as i64;
        assert(sweep <= 0x80_0000_0000_0000) by (nonlinear_arith)
            requires
                sweep == (col * period) / width as int,
                0 <= col * period <= 0x80_0000_0000_0000,
                width >= 1,
        ;
        assert(sweep >= 0) by (nonlinear_arith)
            requires
                sweep == (col * period) / width as int,
                0 <= col * period,
                width >= 1,
        ;
        let position: i64 = frac + (win - 1) * 500_000 + sweep;
        let v: i64 = read_at(&src, position);
        out.push(v);
        assert(v == whole[col as int]);
        col += 1;
        assert(out@ =~= whole.take(col as int));
    }
    assert(out@ =~= whole);
    out
}

/// How strongly a signal is modulated: full deviation, and the rate of the
/// samples.
#[derive(Clone, Copy)]
pub struct Modulation {
    pub deviation_hz: u32,
    pub sample_rate: u32,
}

/// Whether a value is outside the rails: above one and a half times full
/// deviation or under four fifths of it below zero.
pub open spec fn off_rails(v: int, m: Modulation) -> bool {
    v * m.sample_rate * 2 > 3 * (m.deviation_hz * 1_000_000_000) || v * m.sample_rate * 5 < -(4 * (
    m.deviation_hz * 1_000_000_000))
}

/// Where a line dropped out.
pub open spec fn dropouts(line: Seq<i64>, m: Modulation) -> Seq<bool> {
    Seq::new(line.len(), |i: int| off_rails(line[i] as int, m))
}

/// A mask widened by two columns either way. The two outermost columns of
/// each side keep their own mark.
pub open spec fn dilated(mask: Seq<bool>) -> Seq<bool> {
    Seq::new(
        mask.len(),
        |i: int|
            mask[i] || (2 <= i < mask.len() - 2 && (mask[i - 2] || mask[i - 1] || mask[i + 1]
                || mask[i + 2])),
    )
}

fn is_off_rails(v: i64, m: &Modulation) -> (b: bool)
    requires
        -MAX_VALUE <= v <= MAX_VALUE,
    ensures
        b == off_rails(v as int, *m),
{
    let rail: i128 = m.deviation_hz as i128 * 1_000_000_000;
    assert(-0x10_0000_0000_0000_0000 <= v * m.sample_rate <= 0x10_0000_0000_0000_0000)
        by (nonlinear_arith)
        requires
            -0x8_0000_0000 <= v <= 0x8_0000_0000,
            0 <= m.sample_rate <= 0xffff_ffff,
    ;
    let scaled: i128 = v as i128 * m.sample_rate as i128;
    scaled * 2 > 3 * rail || scaled * 5 < -(4 * rail)
}

/// Mark where a line dropped out, widened.
pub fn mark_dropouts(line: &Vec<i64>, m: &Modulation) -> (mask: Vec<bool>)
    requires
        within(line@, MAX_VALUE as int),
    ensures
        mask@ == dilated(dropouts(line@, *m)),
{
    let n: usize = line.len();
    let mut own: Vec<bool> = Vec::new();
    let mut i: usize = 0;
    while i < n
        invariant
            n == line.len(),
            i <= n,
            within(line@, MAX_VALUE as int),
            own@ == dropouts(line@, *m).take(i as int),
        decreases n - i,
    {
        own.push(is_off_rails(line[i], m));
        i += 1;
        assert(own@ =~= dropouts(line@, *m).take(i as int));
    }
    assert(own@ =~= dropouts(line@, *m));
    let mut mask: Vec<bool> = Vec::new();
    let mut i: usize = 0;
    while i < n
        invariant
            n == own.len(),
            i <= n,
            mask@ == dilated(own@).take(i as int),
        decreases n - i,
    {
        let near: bool = 2 <= i && i < n && 2 < n - i && (own[i - 2] || own[i - 1] || own[i + 1]
            || own[i + 2]);
        mask.push(own[i] || near);
        i += 1;
        assert(mask@ =~= dilated(own@).take(i as int));
    }
    assert(mask@ =~= dilated(own@));
    mask
}

/// Sum of the values from `lo` up to `hi`.
pub open spec fn value_sum(s: Seq<i64>, lo: int, hi: int) -> int
    decreases hi - lo,
{
    if lo >= hi {
        0
    } else {
        value_sum(s, lo, hi - 1) + s[hi - 1]
    }
}

/// The mean of a stretch of a line, in hundredths of its length.
pub open spec fn stretch_mean(line: Seq<i64>, from: int, to: int) -> int {
    let lo = line.len() * from / 100;
    let hi = line.len() * to / 100;
    nearest(value_sum(line, lo, hi), hi - lo)
}

/// The level of a line's sync tip.
pub open spec fn tip_level(line: Seq<i64>) -> int {
    stretch_mean(line, 1, 4)
}

/// The level of a line's back porch.
pub open spec fn porch_level(line: Seq<i64>) -> int {
    stretch_mean(line, 12, 15)
}

/// Smallest swing from tip to porch that is taken for one: a hundredth of a
/// radian.
pub const MIN_SWING: i64 = 1_591_549;

/// State of the level control: the gain in millionths, the blanking level
/// that it is applied from, and whether a line has set them.
#[derive(Clone, Copy)]
pub struct Agc {
    pub gain: i64,
    pub porch: i64,
    pub primed: bool,
}

impl Agc {
    pub open spec fn wf(self) -> bool {
        &&& 250_000 <= self.gain <= 4_000_000
        &&& -MAX_VALUE <= self.porch <= MAX_VALUE
    }

    /// Unit gain from zero, to be set by the first line with a swing.
    pub open spec fn start() -> Agc {
        Agc { gain: 1_000_000, porch: 0, primed: false }
    }
}

/// The gain that a swing calls for: what makes it two fifths of full
/// deviation, from a quarter up to four.
pub open spec fn gain_for(swing: int, m: Modulation) -> int {
    let den = m.sample_rate * swing;
    if den <= 0 {
        4_000_000
    } else {
        max(250_000, min(4_000_000, nearest(m.deviation_hz * 400_000_000_000_000, den)))
    }
}

/// The state after a line. A negative swing means an inverted signal, which
/// is left to be seen rather than corrected. The first swing sets the state;
/// later ones move it a fifth of the way.
pub open spec fn agc_after(agc: Agc, line: Seq<i64>, m: Modulation) -> Agc {
    let porch = porch_level(line);
    let swing = porch - tip_level(line);
    if swing <= MIN_SWING {
        agc
    } else if agc.primed {
        Agc {
            gain: nearest(4 * agc.gain + gain_for(swing, m), 5) as i64,
            porch: nearest(4 * agc.porch + porch, 5) as i64,
            primed: true,
        }
    } else {
        Agc { gain: gain_for(swing, m) as i64, porch: porch as i64, primed: true }
    }
}

/// A line with the level control applied. It holds for lines without a swing
/// of their own too: the last good gain beats none.
pub open spec fn levelled(line: Seq<i64>, agc: Agc) -> Seq<i64> {
    if agc.primed {
        Seq::new(
            line.len(),
            |i: int| nearest((line[i] - agc.porch) * agc.gain, 1_000_000) as i64,
        )
    } else {
        line
    }
}

/// [`stretch_mean`].
fn mean_of(line: &Vec<i64>, from: usize, to: usize) -> (m: i64)
    requires
        within(line@, MAX_VALUE as int),
        100 <= line.len() <= 0x1_0000,
        from < to <= 100,
    ensures
        m == stretch_mean(line@, from as int, to as int),
        -MAX_VALUE <= m <= MAX_VALUE,
{
    let n: usize = line.len();
    assert(n * from <= 0x1_0000 * 100 && n * to <= 0x1_0000 * 100 && n * from + n <= n * to
        && n * to <= n * 100) by (nonlinear_arith)
        requires
            from < to <= 100,
            n <= 0x1_0000,
    ;
    let lo: usize = n * from / 100;
    let hi: usize = n * to / 100;
    assert(lo < hi <= n);
    let mut sum: i128 = 0;
    let mut i: usize = lo;
    while i < hi
        invariant
            within(line@, MAX_VALUE as int),
            lo <= i <= hi <= line.len(),
            line.len() <= 0x1_0000,
            sum == value_sum(line@, lo as int, i as int),
            -((i - lo) * MAX_VALUE) <= sum <= (i - lo) * MAX_VALUE,
        decreases hi - i,
    {
        sum = sum + line[i] as i128;
        i += 1;
    }
    let count: i128 = (hi - lo) as i128;
    let m: i128 = nearest_div(sum, count);
    assert(-0x8_0000_0000 <= m <= 0x8_0000_0000) by (nonlinear_arith)
        requires
            m == (2 * sum + count) / (2 * count),
            count > 0,
            -(count * 0x8_0000_0000) <= sum <= count * 0x8_0000_0000,
    ;
    m as i64
}

/// Take one line's levels into the state and apply it.
pub fn level_line(agc: &Agc, line: &Vec<i64>, m: &Modulation) -> (r: (Agc, Vec<i64>))
    requires
        agc.wf(),
        within(line@, MAX_VALUE as int),
        100 <= line.len() <= 0x1_0000,
    ensures
        r.0 == agc_after(*agc, line@, *m),
        r.0.wf(),
        r.1@ == levelled(line@, r.0),
        within(r.1@, MAX_LEVELLED as int),
{
    let tip: i64 = mean_of(line, 1, 4);
    let porch: i64 = mean_of(line, 12, 15);
    let swing: i64 = porch - tip;
    let mut next: Agc = *agc;
    if swing > MIN_SWING {
        let target: i64 = target_gain(swing, m);
        if agc.primed {
            next = Agc {
                gain: nearest_div(4 * agc.gain as i128 + target as i128, 5) as i64,
                porch: nearest_div(4 * agc.porch as i128 + porch as i128, 5) as i64,
                primed: true,
            };
        } else {
            next = Agc { gain: target, porch, primed: true };
        }
    }
    let n: usize = line.len();
    let mut out: Vec<i64> = Vec::new();
    let ghost whole = levelled(line@, next);
    let mut i: usize = 0;
    while i < n
        invariant
            n == line.len(),
            i <= n,
            next.wf(),
            within(line@, MAX_VALUE as int),
            whole == levelled(line@, next),
            whole.len() == n,
            out@ == whole.take(i as int),
            within(out@, MAX_LEVELLED as int),
        decreases n - i,
    {
        let mut v: i64 = line[i];
        if next.primed {
            let above: i128 = v as i128 - next.porch as i128;
            let gain: i128 = next.gain as i128;
            assert(-274_877_906_944_000_000 <= above * gain <= 274_877_906_944_000_000)
                by (nonlinear_arith)
                requires
                    -0x10_0000_0000 <= above <= 0x10_0000_0000,
                    250_000 <= gain <= 4_000_000,
            ;
            v = nearest_div(above * gain, 1_000_000) as i64;
        }
        out.push(v);
        assert(v == whole[i as int]);
        i += 1;
        assert(out@ =~= whole.take(i as int));
    }
    assert(out@ =~= whole);
    (next, out)
}

/// [`gain_for`].
fn target_gain(swing: i64, m: &Modulation) -> (g: i64)
    requires
        0 < swing <= 2 * MAX_VALUE,
    ensures
        g == gain_for(swing as int, *m),
        250_000 <= g <= 4_000_000,
{
    assert(0 <= m.sample_rate * swing <= 0x10_0000_0000_0000_0000) by (nonlinear_arith)
        requires
            0 <= m.sample_rate <= 0xffff_ffff,
            0 < swing <= 0x10_0000_0000,
    ;
    let den: i128 = m.sample_rate as i128 * swing as i128;
    if den <= 0 {
        return 4_000_000;
    }
    let g: i128 = nearest_div(m.deviation_hz as i128 * 400_000_000_000_000, den);
    if g < 250_000 {
        250_000
    } else if g > 4_000_000 {
        4_000_000
    } else {
        g as i64
    }
}

/// Every column within two of a dropout is marked, unless it is one of the
/// two outermost of a side.
pub proof fn law_marks_cover_the_neighbours(mask: Seq<bool>, at: int, i: int)
    requires
        0 <= at < mask.len(),
        mask[at],
        at - 2 <= i <= at + 2,
        2 <= i < mask.len() - 2,
    ensures
        dilated(mask)[i],
{
}

/// A line that is as wide as a record has samples in it is read sample for
/// sample: nothing is averaged, and column `col` is the sample `col` after
/// the start.
pub proof fn law_unit_rate_reads_samples(raw: Seq<i32>, width: int, col: int)
    requires
        1 <= width,
        width + 2 < raw.len(),
        0 <= col < width,
    ensures
        resampled(raw, 0, width * SUBSAMPLE, width)[col] == raw[col],
{
    let period = width * SUBSAMPLE;
    assert(col * period / width == col * 1_000_000) by (nonlinear_arith)
        requires
            period == width * 1_000_000,
            width >= 1,
    ;
    assert(2 * period < 3 * (width * SUBSAMPLE)) by (nonlinear_arith)
        requires
            period == width * SUBSAMPLE,
            width >= 1,
            SUBSAMPLE == 1_000_000,
    ;
    let v = raw[col] as int;
    assert((2 * (2 * v * 1_000_000_000_000_000_000) + 2_000_000_000_000_000_000)
        / 4_000_000_000_000_000_000int == v);
    if col >= 1 {
        let v0 = raw[col - 1] as int;
        let v2 = raw[col + 1] as int;
        let v3 = raw[col + 2] as int;
        assert((3 * v - v0 - 3 * v2 + v3) * 0 == 0);
        assert((2 * v0 - 5 * v + 4 * v2 - v3) * 0 == 0);
        assert((v2 - v0) * 0 == 0);
        assert(cubic(v0, v, v2, v3, 0) == v);
    } else {
        let w = raw[1] as int;
        assert(v * (1_000_000 - 0) + w * 0 == v * 1_000_000);
        assert((2 * (v * 1_000_000) + 1_000_000) / 2_000_000int == v);
        assert(linear(v, w, 0) == v);
    }
}

/// The cubic passes through its two middle samples, and through every
/// parabola that its four samples lie on, to rounding. Halfway it is nine
/// sixteenths of the middle samples' sum less a sixteenth of the outer ones'.
pub proof fn law_cubic_follows_the_samples(v0: int, v1: int, v2: int, v3: int)
    ensures
        cubic(v0, v1, v2, v3, 0) == v1,
        cubic(v0, v1, v2, v3, 1_000_000) == v2,
        -16 < 2 * (16 * cubic(v0, v1, v2, v3, 500_000) - (9 * v1 + 9 * v2 - v0 - v3)) <= 16,
{
    lemma_cubic_at_start(v0, v1, v2, v3);
    lemma_cubic_at_end(v0, v1, v2, v3);
    lemma_cubic_halfway(v0, v1, v2, v3);
}

proof fn lemma_cubic_at_start(v0: int, v1: int, v2: int, v3: int)
    ensures
        cubic(v0, v1, v2, v3, 0) == v1,
{
    let e = 1_000_000_000_000_000_000int;
    assert(0 * 0 * 0 == 0int);
    assert((3 * v1 - v0 - 3 * v2 + v3) * 0 == 0);
    assert((2 * v0 - 5 * v1 + 4 * v2 - v3) * 0 == 0);
    assert((v2 - v0) * 0 == 0);
    law_nearest_is_within_half(2 * v1 * e, 2 * e);
}

proof fn lemma_cubic_at_end(v0: int, v1: int, v2: int, v3: int)
    ensures
        cubic(v0, v1, v2, v3, 1_000_000) == v2,
{
    let e = 1_000_000_000_000_000_000int;
    let f = 1_000_000int;
    let (a, b, c) = (3 * v1 - v0 - 3 * v2 + v3, 2 * v0 - 5 * v1 + 4 * v2 - v3, v2 - v0);
    assert(f * f * f == e && f * f * 1_000_000 == e && f * 1_000_000_000_000 == e);
    let n = a * (f * f * f) + b * (f * f * 1_000_000) + c * (f * 1_000_000_000_000) + 2 * v1 * e;
    assert(cubic(v0, v1, v2, v3, f) == nearest(n, 2 * e));
    assert(n == a * e + b * e + c * e + 2 * v1 * e);
    assert(n == 2 * v2 * e) by (nonlinear_arith)
        requires
            n == a * e + b * e + c * e + 2 * v1 * e,
            a + b + c + 2 * v1 == 2 * v2,
    ;
    law_nearest_is_within_half(2 * v2 * e, 2 * e);
}

proof fn lemma_cubic_halfway(v0: int, v1: int, v2: int, v3: int)
    ensures
        -16 < 2 * (16 * cubic(v0, v1, v2, v3, 500_000) - (9 * v1 + 9 * v2 - v0 - v3)) <= 16,
{
    let e = 1_000_000_000_000_000_000int;
    let g = 125_000_000_000_000_000int;
    let f = 500_000int;
    let (a, b, c) = (3 * v1 - v0 - 3 * v2 + v3, 2 * v0 - 5 * v1 + 4 * v2 - v3, v2 - v0);
    assert(f * f * f == g && f * f * 1_000_000 == 2 * g && f * 1_000_000_000_000 == 4 * g && e == 8
        * g);
    let n = a * (f * f * f) + b * (f * f * 1_000_000) + c * (f * 1_000_000_000_000) + 2 * v1 * e;
    assert(cubic(v0, v1, v2, v3, f) == nearest(n, 2 * e));
    let mid = 9 * v1 + 9 * v2 - v0 - v3;
    assert(n == a * g + b * (2 * g) + c * (4 * g) + 2 * v1 * (8 * g));
    assert(n == g * mid) by (nonlinear_arith)
        requires
            n == a * g + b * (2 * g) + c * (4 * g) + 2 * v1 * (8 * g),
            a + 2 * b + 4 * c + 16 * v1 == mid,
    ;
    law_nearest_is_within_half(n, 2 * e);
}

/// Four samples of a parabola are read between as that parabola says.
pub proof fn law_cubic_follows_parabolas(a: int, b: int, c: int, f: int)
    requires
        0 <= f <= 1_000_000,
    ensures
        ({
            let v = cubic(a - b + c, c, a + b + c, 4 * a + 2 * b + c, f);
            let exact = a * (f * f) + b * (f * 1_000_000) + c * 1_000_000_000_000;
            -1_000_000_000_000 < 2 * (1_000_000_000_000 * v - exact) <= 1_000_000_000_000
        }),
{
    let (v0, v1, v2, v3) = (a - b + c, c, a + b + c, 4 * a + 2 * b + c);
    let exact = a * (f * f) + b * (f * 1_000_000) + c * 1_000_000_000_000;
    assert(0 * (f * f * f) == 0);
    assert((2 * a) * (f * f * 1_000_000) == 2_000_000 * (a * (f * f))) by (nonlinear_arith);
    assert((2 * b) * (f * 1_000_000_000_000) == 2_000_000 * (b * (f * 1_000_000)))
        by (nonlinear_arith);
    law_nearest_is_within_half(2_000_000 * exact, 2_000_000_000_000_000_000);
    assert(cubic(v0, v1, v2, v3, f) == nearest(2_000_000 * exact, 2_000_000_000_000_000_000));
}

/// A straight line between two samples.
pub proof fn law_linear_is_in_proportion(v0: int, v1: int, f: int)
    ensures
        -1_000_000 < 2 * (1_000_000 * linear(v0, v1, f) - (1_000_000 * v0 + (v1 - v0) * f))
            <= 1_000_000,
{
    assert(v0 * (1_000_000 - f) + v1 * f == 1_000_000 * v0 + (v1 - v0) * f) by (nonlinear_arith);
    law_nearest_is_within_half(v0 * (1_000_000 - f) + v1 * f, 1_000_000);
}

/// At a sample's own position that sample is read; past the end, the last.
pub proof fn law_samples_are_read_where_they_are(src: Seq<i32>, k: int)
    requires
        src.len() > 0,
        0 <= k,
    ensures
        value_at(src, k * 1_000_000) == src[if k < src.len() {
            k
        } else {
            src.len() - 1
        }],
{
    let position = k * 1_000_000;
    assert(position / 1_000_000 == k && position % 1_000_000 == 0);
    if 1 <= k && k + 2 < src.len() {
        law_cubic_follows_the_samples(
            src[k - 1] as int,
            src[k] as int,
            src[k + 1] as int,
            src[k + 2] as int,
        );
    } else if k + 1 < src.len() {
        law_linear_is_in_proportion(src[k] as int, src[k + 1] as int, 0);
        assert((src[k + 1] - src[k]) * 0 == 0);
    }
}

/// Where the samples around a position lie on a straight line, the value there
/// is on it too, to rounding.
pub proof fn law_ramps_are_read_as_ramps(src: Seq<i32>, position: int, a: int, b: int)
    requires
        0 <= position,
        position / 1_000_000 + 1 < src.len(),
        forall|k: int|
            0 <= k < src.len() && position / 1_000_000 - 1 <= k <= position / 1_000_000 + 2
                ==> #[trigger] src[k] == a + b * k,
    ensures
        -1_000_000 < 2 * (1_000_000 * value_at(src, position) - (1_000_000 * a + b * position))
            <= 1_000_000,
{
    let idx = position / 1_000_000;
    let f = position % 1_000_000;
    let c = a + b * idx;
    assert(b * position == 1_000_000 * (b * idx) + b * f) by (nonlinear_arith)
        requires
            position == 1_000_000 * idx + f,
    ;
    assert(b * (idx + 1) == b * idx + b) by (nonlinear_arith);
    assert(b * (idx - 1) == b * idx - b) by (nonlinear_arith);
    assert(b * (idx + 2) == b * idx + 2 * b) by (nonlinear_arith);
    assert(src[idx] == c);
    assert(src[idx + 1] == b + c);
    if 1 <= idx && idx + 2 < src.len() {
        assert(src[idx - 1] == c - b);
        assert(src[idx + 2] == c + 2 * b);
        law_cubic_follows_parabolas(0, b, c, f);
        assert(0 * (f * f) == 0);
        assert(b * (f * 1_000_000) == 1_000_000 * (b * f)) by (nonlinear_arith);
    } else {
        law_linear_is_in_proportion(c, b + c, f);
    }
}

/// As many samples are averaged as go into one column, to half a sample,
/// where that is at least one and a half; one otherwise.
pub proof fn law_columns_are_averaged_over(period: int, width: int)
    requires
        0 <= period,
        1 <= width,
    ensures
        boxcar(period, width) >= 1,
        2 * period < 3_000_000 * width ==> boxcar(period, width) == 1,
        2 * period >= 3_000_000 * width ==> boxcar(period, width) >= 2 && -(width * 1_000_000) < 2
            * (width * 1_000_000 * boxcar(period, width) - period) <= width * 1_000_000,
{
    let d = width * SUBSAMPLE;
    law_nearest_is_within_half(period, d);
    let n = nearest(period, d);
    if 2 * period >= 3 * d {
        assert(n >= 2) by (nonlinear_arith)
            requires
                -d < 2 * (d * n - period) <= d,
                2 * period >= 3 * d,
                d > 0,
        ;
    }
}

/// Columns are read at even distances: one period lies between a column and
/// the one a whole width later, and each is less than a unit from its exact
/// place.
pub proof fn law_columns_are_evenly_spaced(
    frac: int,
    win: int,
    col: int,
    period: int,
    width: int,
)
    requires
        1 <= width,
    ensures
        ({
            let first = column_position(frac, win, 0, period, width);
            let at = column_position(frac, win, col, period, width);
            &&& 2 * (first - frac) == (win - 1) * 1_000_000
            &&& width * (at - first) <= col * period < width * (at - first) + width
            &&& column_position(frac, win, col + width, period, width) == at + period
        }),
{
    let q = col * period / width;
    assert(0 * period == 0);
    assert(0int / width == 0) by (nonlinear_arith)
        requires
            width >= 1,
    ;
    assert(width * q <= col * period < width * q + width) by (nonlinear_arith)
        requires
            width >= 1,
            q == col * period / width,
    ;
    let far = (col + width) * period;
    assert(far == col * period + width * period) by (nonlinear_arith)
        requires
            far == (col + width) * period,
    ;
    let r = far / width;
    assert(width * r <= far < width * r + width) by (nonlinear_arith)
        requires
            width >= 1,
            r == far / width,
    ;
    assert(r == q + period) by (nonlinear_arith)
        requires
            width >= 1,
            width * r <= far < width * r + width,
            width * q <= far - width * period < width * q + width,
    ;
}

proof fn lemma_ramp_sum(s: Seq<i32>, a: int, b: int, lo: int, hi: int)
    requires
        0 <= lo <= hi <= s.len(),
        forall|k: int| lo <= k < hi ==> #[trigger] s[k] == a + b * k,
    ensures
        2 * sum_range(s, lo, hi) == (hi - lo) * (2 * a + b * (lo + hi - 1)),
    decreases hi - lo,
{
    if lo < hi {
        lemma_ramp_sum(s, a, b, lo, hi - 1);
        let n = hi - lo;
        assert(s[hi - 1] == a + b * (hi - 1));
        assert((n - 1) * (2 * a + b * (lo + hi - 2)) + 2 * (a + b * (hi - 1)) == n * (2 * a + b * (lo
            + hi - 1))) by (nonlinear_arith)
            requires
                n == hi - lo,
        ;
    } else {
        assert(0 * (2 * a + b * (lo + hi - 1)) == 0);
    }
}

/// Averaging moves nothing sideways: on a straight slope each column has the
/// value that the record has at the column's own place, `frac` and
/// `col / width` of a period after the line's first sample. The slope is one
/// whose averages are whole numbers, and the column lies clear of the ends.
pub proof fn law_averaging_does_not_shift_the_line(
    raw: Seq<i32>,
    frac: int,
    period: int,
    width: int,
    col: int,
    a: int,
    b: int,
)
    requires
        1 <= width,
        0 <= period,
        0 <= frac,
        0 <= col < width,
        forall|k: int| 0 <= k < raw.len() ==> #[trigger] raw[k] == a + b * k,
        (b * (boxcar(period, width) - 1)) % 2 == 0,
        ({
            let win = boxcar(period, width);
            let idx = column_position(frac, win, col, period, width) / 1_000_000;
            win <= idx && idx + 2 < raw.len()
        }),
    ensures
        ({
            let at = frac + col * period / width;
            -1_000_000 < 2 * (1_000_000 * value_at(
                averaged(raw, boxcar(period, width)),
                column_position(frac, boxcar(period, width), col, period, width),
            ) - (1_000_000 * a + b * at)) <= 1_000_000
        }),
{
    let win = boxcar(period, width);
    let src = averaged(raw, win);
    let position = column_position(frac, win, col, period, width);
    let at = frac + col * period / width;
    law_columns_are_averaged_over(period, width);
    let half = (b * (win - 1)) / 2;
    let idx = position / 1_000_000;
    assert(col * period / width >= 0) by (nonlinear_arith)
        requires
            0 <= col,
            0 <= period,
            1 <= width,
    ;
    assert forall|k: int|
        0 <= k < src.len() && idx - 1 <= k <= idx + 2 implies #[trigger] src[k] == (a - half) + b
        * k by {
        if win > 1 {
            assert(k + 1 >= win);
            let lo = k + 1 - win;
            assert forall|j: int| lo <= j < k + 1 implies #[trigger] raw[j] == a + b * j by {}
            lemma_ramp_sum(raw, a, b, lo, k + 1);
            let mean = a - half + b * k;
            let sum = sum_range(raw, lo, k + 1);
            assert(b * (lo + k) == 2 * (b * k) - b * (win - 1)) by (nonlinear_arith)
                requires
                    lo + k == 2 * k - (win - 1),
            ;
            assert(win * (2 * mean) == 2 * (win * mean)) by (nonlinear_arith);
            assert(2 * a + b * (lo + k) == 2 * mean);
            assert(sum == win * mean);
            assert((win * mean) / win == mean) by (nonlinear_arith)
                requires
                    win > 0,
            ;
            // The mean of samples is a sample.
            assert(a + b * lo == raw[lo]);
            assert(a + b * k == raw[k]);
            assert(b * lo == b * k - b * (win - 1)) by (nonlinear_arith)
                requires
                    lo == k + 1 - win,
            ;
        } else {
            assert(b * 0 == 0);
            assert(raw[k] == a + b * k);
        }
    }
    law_ramps_are_read_as_ramps(src, position, a - half, b);
    assert(position == at + (win - 1) * 500_000);
    assert(b * position == b * at + 500_000 * (b * (win - 1))) by (nonlinear_arith)
        requires
            position == at + (win - 1) * 500_000,
    ;
}

/// A value is off the rails exactly where the frequency it stands for is more
/// than one and a half times the deviation above the carrier, or more than
/// four fifths of it below.
pub proof fn law_rails_are_set_by_the_deviation(v: int, m: Modulation)
    ensures
        ({
            let nanohertz = v * m.sample_rate;
            let deviation = m.deviation_hz * 1_000_000_000;
            off_rails(v, m) <==> 10 * nanohertz > 15 * deviation || 10 * nanohertz < -8 * deviation
        }),
{
    assert(v * m.sample_rate * 2 == 2 * (v * m.sample_rate)) by (nonlinear_arith);
    assert(v * m.sample_rate * 5 == 5 * (v * m.sample_rate)) by (nonlinear_arith);
}

/// A column is marked only where it or one of the two columns either way of
/// it dropped out; one of the two outermost only for itself.
pub proof fn law_marks_come_from_dropouts(mask: Seq<bool>, i: int)
    requires
        0 <= i < mask.len(),
        dilated(mask)[i],
    ensures
        exists|k: int| i - 2 <= k <= i + 2 && 0 <= k < mask.len() && #[trigger] mask[k],
        i < 2 || i >= mask.len() - 2 ==> mask[i],
{
}

/// What dropped out is marked.
pub proof fn law_dropouts_are_marked(mask: Seq<bool>, i: int)
    requires
        0 <= i < mask.len(),
        mask[i],
    ensures
        dilated(mask).len() == mask.len(),
        dilated(mask)[i],
{
}

proof fn lemma_value_sum_within(s: Seq<i64>, from: int, to: int, lo: int, hi: int)
    requires
        from <= to,
        forall|k: int| from <= k < to ==> lo <= #[trigger] s[k] <= hi,
    ensures
        (to - from) * lo <= value_sum(s, from, to) <= (to - from) * hi,
    decreases to - from,
{
    if from < to {
        lemma_value_sum_within(s, from, to - 1, lo, hi);
        let n = to - from;
        assert((n - 1) * lo + lo == n * lo) by (nonlinear_arith);
        assert((n - 1) * hi + hi == n * hi) by (nonlinear_arith);
        assert(lo <= s[to - 1] <= hi);
    } else {
        assert(0 * lo == 0 && 0 * hi == 0);
    }
}

proof fn lemma_mean_within(line: Seq<i64>, from: int, to: int, lo: int, hi: int)
    requires
        line.len() >= 100,
        0 <= from < to <= 100,
        forall|k: int|
            line.len() * from / 100 <= k < line.len() * to / 100 ==> lo <= #[trigger] line[k] <= hi,
    ensures
        lo <= stretch_mean(line, from, to) <= hi,
{
    let n = line.len() as int;
    let a = n * from / 100;
    let b = n * to / 100;
    assert(n * to >= n * from + 100) by (nonlinear_arith)
        requires
            n >= 100,
            to >= from + 1,
    ;
    assert(a < b);
    lemma_value_sum_within(line, a, b, lo, hi);
    let t = value_sum(line, a, b);
    let c = b - a;
    law_nearest_is_within_half(t, c);
    let q = nearest(t, c);
    assert(lo <= q <= hi) by (nonlinear_arith)
        requires
            c > 0,
            -c < 2 * (c * q - t) <= c,
            c * lo <= t <= c * hi,
    ;
}

/// The tip level is read from one to four hundredths into the line and the
/// porch level from twelve to fifteen: where the line is flat there, those are
/// its levels; where it varies, the levels lie between the extremes there.
pub proof fn law_levels_are_read_in_their_stretches(
    line: Seq<i64>,
    tip: (int, int),
    porch: (int, int),
)
    requires
        line.len() >= 100,
        forall|k: int|
            line.len() / 100 <= k < line.len() * 4 / 100 ==> tip.0 <= #[trigger] line[k] <= tip.1,
        forall|k: int|
            line.len() * 12 / 100 <= k < line.len() * 15 / 100 ==> porch.0 <= #[trigger] line[k]
                <= porch.1,
    ensures
        tip.0 <= tip_level(line) <= tip.1,
        porch.0 <= porch_level(line) <= porch.1,
{
    lemma_mean_within(line, 1, 4, tip.0, tip.1);
    lemma_mean_within(line, 12, 15, porch.0, porch.1);
}

/// The gain makes the swing two fifths of the full deviation, to rounding,
/// where that takes a quarter to four; outside, it is the nearest of those.
pub proof fn law_gain_restores_the_swing(swing: int, m: Modulation)
    requires
        swing > 0,
        m.sample_rate > 0,
    ensures
        ({
            let g = gain_for(swing, m);
            // Both in nanohertz, times a million for the gain.
            let have = swing * m.sample_rate;
            let want = 400_000_000_000_000 * m.deviation_hz;
            &&& 250_000 <= g <= 4_000_000
            &&& 250_000 < g < 4_000_000 ==> -have < 2 * (g * have - want) <= have
            &&& g == 250_000 ==> 2 * want < 500_001 * have
            &&& g == 4_000_000 ==> 2 * want >= 7_999_999 * have
        }),
{
    let have = swing * m.sample_rate;
    let want = 400_000_000_000_000 * m.deviation_hz;
    assert(m.sample_rate * swing == have) by (nonlinear_arith)
        requires
            have == swing * m.sample_rate,
    ;
    assert(have > 0) by (nonlinear_arith)
        requires
            have == swing * m.sample_rate,
            swing > 0,
            m.sample_rate > 0,
    ;
    law_nearest_is_within_half(want, have);
    let n = nearest(want, have);
    assert(n * have == have * n) by (nonlinear_arith);
    if n <= 250_000 {
        assert(have * n <= have * 250_000) by (nonlinear_arith)
            requires
                n <= 250_000,
                have > 0,
        ;
    }
    if n >= 4_000_000 {
        assert(have * n >= have * 4_000_000) by (nonlinear_arith)
            requires
                n >= 4_000_000,
                have > 0,
        ;
    }
}

/// A line without a swing leaves the level control alone. The first line with
/// one sets it; each later one moves gain and blanking level a fifth of the
/// way to its own, to rounding.
pub proof fn law_levels_are_followed(agc: Agc, line: Seq<i64>, m: Modulation)
    requires
        agc.wf(),
        within(line, MAX_VALUE as int),
        line.len() >= 100,
    ensures
        ({
            let next = agc_after(agc, line, m);
            let porch = porch_level(line);
            let swing = porch - tip_level(line);
            let gain = gain_for(swing, m);
            &&& swing <= 1_591_549 ==> next == agc
            &&& swing > 1_591_549 ==> next.primed
            &&& swing > 1_591_549 && !agc.primed ==> next.gain == gain && next.porch == porch
            &&& swing > 1_591_549 && agc.primed ==> {
                &&& -5 < 2 * (5 * (next.gain - agc.gain) - (gain - agc.gain)) <= 5
                &&& -5 < 2 * (5 * (next.porch - agc.porch) - (porch - agc.porch)) <= 5
            }
        }),
{
    let b = MAX_VALUE as int;
    lemma_mean_within(line, 1, 4, -b, b);
    lemma_mean_within(line, 12, 15, -b, b);
    let porch = porch_level(line);
    let gain = gain_for(porch - tip_level(line), m);
    assert(250_000 <= gain <= 4_000_000);
    law_nearest_is_within_half(4 * agc.gain + gain, 5);
    law_nearest_is_within_half(4 * agc.porch + porch, 5);
}

/// Once set, the control takes the blanking level to zero and stretches every
/// distance from it by the gain, to rounding; before that it changes nothing.
pub proof fn law_levelling_is_from_blanking(line: Seq<i64>, agc: Agc, i: int)
    requires
        agc.wf(),
        within(line, MAX_VALUE as int),
        0 <= i < line.len(),
    ensures
        levelled(line, agc).len() == line.len(),
        !agc.primed ==> levelled(line, agc)[i] == line[i],
        agc.primed && line[i] == agc.porch ==> levelled(line, agc)[i] == 0,
        agc.primed ==> -1_000_000 < 2 * (1_000_000 * levelled(line, agc)[i] - (line[i] - agc.porch)
            * agc.gain) <= 1_000_000,
{
    let x = (line[i] - agc.porch) * agc.gain;
    assert(-MAX_VALUE <= line[i] <= MAX_VALUE);
    assert(-0x10_0000_0000 * 4_000_000 <= x <= 0x10_0000_0000 * 4_000_000) by (nonlinear_arith)
        requires
            x == (line[i] - agc.porch) * agc.gain,
            -0x10_0000_0000 <= line[i] - agc.porch <= 0x10_0000_0000,
            0 <= agc.gain <= 4_000_000,
    ;
    law_nearest_is_within_half(x, 1_000_000);
    if line[i] == agc.porch {
        assert(0 * agc.gain == 0);
    }
}

} // verus!
