//! The line grid of a field: which sync tips are there, how far apart lines
//! are, and where each of them starts.
//!
//! Sync is locked to a crystal, so the true line starts lie on a straight
//! line. One pass finds every tip of the field; the rest fits that line
//! without letting single tips bend it.

use vstd::prelude::*;

use super::sync::{
    law_nearest_is_within_half, matched_center, matched_sync_center, nearest, nearest_div, robust_sync_tip_center, sample_at,
    tip_center, MAX_RECORD, SUBSAMPLE,
};
use crate::levels::{max, min};
use crate::stats::{
    abs, law_mad_parts_the_distances, law_majority_holds_the_median,
    law_median_stays_among_the_values, law_ranked_value_occurs, mad, mad_of, median, median_of,
};
use crate::timing::Ratio;

verus! {

/// How a sync tip is looked for.
#[derive(Clone, Copy)]
pub struct TipSearch {
    /// By the matched filter rather than by the centroid.
    pub matched: bool,
    /// Samples on either side of the expected position.
    pub radius: usize,
    /// Width of a sync pulse in samples.
    pub width: usize,
    /// Samples on either side of a pulse in which to find the level around
    /// it.
    pub porch_radius: usize,
    /// Samples on either side to average over.
    pub ma_win: usize,
    /// The level that a pulse has to be below.
    pub reject_above: Ratio,
}

impl TipSearch {
    /// Where the tip near `center` lies.
    pub open spec fn tip(self, s: Seq<i32>, center: int) -> Option<int> {
        if self.matched {
            matched_center(s, center, self.radius as int, self.width as int, self.reject_above)
        } else {
            tip_center(
                s,
                center,
                self.radius as int,
                self.porch_radius as int,
                self.ma_win as int,
                self.reject_above,
            )
        }
    }

    pub fn locate(&self, demod: &[i32], center: i64) -> (r: Option<i64>)
        requires
            demod.len() <= MAX_RECORD,
            1 <= self.ma_win,
        ensures
            match r {
                Some(p) => self.tip(demod@, center as int) == Some(p as int) && 0 <= p
                    <= demod.len() * SUBSAMPLE,
                None => self.tip(demod@, center as int) is None,
            },
    {
        if self.matched {
            matched_sync_center(demod, center, self.radius, self.width, self.reject_above)
        } else {
            robust_sync_tip_center(
                demod,
                center,
                self.radius,
                self.porch_radius,
                self.ma_win,
                self.reject_above,
            )
        }
    }
}

/// Farthest position from the start of a record that is held.
pub const MAX_POSITION: i64 = 0x10_0000_0000_0000;

/// Longest line that is held.
pub const MAX_PERIOD: i64 = 0x80_0000_0000;

/// Most rows that are followed.
pub const MAX_ROWS: usize = 512;

/// Whether positions are close enough to the record to count with. Tracking
/// may walk some lines past its anchor.
pub open spec fn held(raw: Seq<Option<i64>>) -> bool {
    &&& raw.len() <= MAX_ROWS
    &&& forall|i: int|
        0 <= i < raw.len() ==> (#[trigger] raw[i] matches Some(p) ==> -MAX_POSITION <= p
            <= MAX_POSITION)
}

/// Where the last tip lies; rows without one are counted on from the last
/// that has one.
pub open spec fn cursor(raw: Seq<Option<i64>>, period: int) -> int
    decreases raw.len(),
{
    if raw.len() == 0 {
        0
    } else {
        match raw.last() {
            Some(p) => p as int,
            None => cursor(raw.drop_last(), period) + period,
        }
    }
}

/// Whether a row is too close to the end of the record to be searched.
pub open spec fn past_end(len: int, search: TipSearch, expected: int) -> bool {
    sample_at(expected) + search.radius >= max(0, len - search.ma_win)
}

/// The tip of a row that is expected at a position. One that lies a quarter
/// of a line off or more is something else.
pub open spec fn row_tip(s: Seq<i32>, search: TipSearch, expected: int, period: int) -> Option<
    i64,
> {
    match search.tip(s, expected) {
        Some(p) => if 4 * abs(p - expected) < period {
            Some(p as i64)
        } else {
            None
        },
        None => None,
    }
}

/// The tips of up to `rows` rows from an anchor on, nothing for rows without
/// one. It stops where the record ends.
pub open spec fn followed(
    s: Seq<i32>,
    search: TipSearch,
    anchor: i64,
    period: int,
    rows: int,
) -> Seq<Option<i64>>
    decreases rows,
{
    if rows <= 1 {
        seq![Some(anchor)]
    } else {
        let before = followed(s, search, anchor, period, rows - 1);
        let expected = cursor(before, period) + period;
        if before.len() < rows - 1 || past_end(s.len() as int, search, expected) {
            before
        } else {
            before.push(row_tip(s, search, expected, period))
        }
    }
}

proof fn lemma_followed_stops(
    s: Seq<i32>,
    search: TipSearch,
    anchor: i64,
    period: int,
    rows: int,
    more: int,
)
    requires
        1 <= rows <= more,
        followed(s, search, anchor, period, rows).len() < rows,
    ensures
        followed(s, search, anchor, period, more) == followed(s, search, anchor, period, rows),
    decreases more - rows,
{
    if rows < more {
        lemma_followed_stops(s, search, anchor, period, rows, more - 1);
    }
}

/// Find the tips of a field.
pub fn track_tips(demod: &[i32], search: &TipSearch, anchor: i64, period: i64, rows: usize) -> (raw:
    Vec<Option<i64>>)
    requires
        demod.len() <= MAX_RECORD,
        1 <= search.ma_win,
        -MAX_POSITION <= anchor <= MAX_POSITION,
        0 <= period <= MAX_PERIOD,
        1 <= rows <= MAX_ROWS,
    ensures
        raw@ == followed(demod@, *search, anchor, period as int, rows as int),
        held(raw@),
        1 <= raw.len() <= rows,
        raw[0] == Some(anchor),
{
    let n: usize = demod.len();
    let mut raw: Vec<Option<i64>> = Vec::new();
    raw.push(Some(anchor));
    let mut at: i64 = anchor;
    let mut row: usize = 1;
    assert(raw@ =~= seq![Some(anchor)]);
    while row < rows
        invariant
            n == demod.len() <= MAX_RECORD,
            1 <= search.ma_win,
            -MAX_POSITION <= anchor <= MAX_POSITION,
            0 <= period <= MAX_PERIOD,
            1 <= row <= rows <= MAX_ROWS,
            raw.len() == row,
            raw@ == followed(demod@, *search, anchor, period as int, row as int),
            held(raw@),
            raw[0] == Some(anchor),
            at == cursor(raw@, period as int),
            -MAX_POSITION <= at <= MAX_POSITION + (row - 1) * MAX_PERIOD,
        decreases rows - row,
    {
        let expected: i64 = at + period;
        let c0: i128 = nearest_div(expected as i128, SUBSAMPLE as i128);
        let c: i128 = if c0 >= 0 {
            c0
        } else {
            0
        };
        let end: usize = if n >= search.ma_win {
            n - search.ma_win
        } else {
            0
        };
        if c + search.radius as i128 >= end as i128 {
            proof {
                lemma_followed_stops(
                    demod@,
                    *search,
                    anchor,
                    period as int,
                    row + 1,
                    rows as int,
                );
            }
            return raw;
        }
        let ghost before = raw@;
        let found: Option<i64> = search.locate(demod, expected);
        let tip: Option<i64> = match found {
            Some(p) => {
                let off4: i128 = 4 * (p as i128 - expected as i128);
                if off4 < period as i128 && -off4 < period as i128 {
                    Some(p)
                } else {
                    None
                }
            },
            None => None,
        };
        raw.push(tip);
        at = match tip {
            Some(p) => p,
            None => expected,
        };
        assert(raw@.drop_last() =~= before);
        assert(tip == row_tip(demod@, *search, expected as int, period as int));
        row += 1;
    }
    raw
}

/// Sums over the rows that have a tip, by row number `x` and position `y`.
pub struct Sums {
    pub n: int,
    pub sx: int,
    pub sy: int,
    pub sxx: int,
    pub sxy: int,
}

pub open spec fn sums(raw: Seq<Option<i64>>) -> Sums
    decreases raw.len(),
{
    if raw.len() == 0 {
        Sums { n: 0, sx: 0, sy: 0, sxx: 0, sxy: 0 }
    } else {
        let s = sums(raw.drop_last());
        let x = raw.len() - 1;
        match raw.last() {
            Some(y) => Sums {
                n: s.n + 1,
                sx: s.sx + x,
                sy: s.sy + y,
                sxx: s.sxx + x * x,
                sxy: s.sxy + x * y,
            },
            None => s,
        }
    }
}

/// The slope of the line fitted through the tips, as numerator and
/// denominator. Nothing for fewer than two tips.
pub open spec fn slope(s: Sums) -> Option<(int, int)> {
    let den = s.n * s.sxx - s.sx * s.sx;
    if s.n < 2 || den <= 0 {
        None
    } else {
        Some((s.n * s.sxy - s.sx * s.sy, den))
    }
}

/// How far a tip lies from the fitted line.
pub open spec fn residual(s: Sums, line: (int, int), x: int, y: int) -> int {
    let (num, den) = line;
    min(
        nearest(abs(y * (s.n * den) - (s.sy * den - num * s.sx) - s.n * num * x), s.n * den),
        i64::MAX as int,
    )
}

/// The residuals of the rows that have a tip.
pub open spec fn residuals(raw: Seq<Option<i64>>, s: Sums, line: (int, int)) -> Seq<i64>
    decreases raw.len(),
{
    if raw.len() == 0 {
        Seq::empty()
    } else {
        let before = residuals(raw.drop_last(), s, line);
        match raw.last() {
            Some(y) => before.push(residual(s, line, raw.len() - 1, y as int) as i64),
            None => before,
        }
    }
}

/// Whether a residual is within three standard deviations, as the median
/// residual implies them; one sample is always allowed as a deviation.
pub open spec fn close(r: int, middle: int) -> bool {
    10_000 * r <= 3 * max(14_826 * middle, 10_000 * SUBSAMPLE)
}

/// The tips without those that lie off the line fitted through all of them.
pub open spec fn trimmed(raw: Seq<Option<i64>>) -> Seq<Option<i64>> {
    let s = sums(raw);
    match slope(s) {
        None => raw,
        Some(line) => {
            let middle = median_of(residuals(raw, s, line));
            Seq::new(
                raw.len(),
                |i: int|
                    match raw[i] {
                        Some(y) => if close(residual(s, line, i, y as int), middle) {
                            Some(y)
                        } else {
                            None
                        },
                        None => None,
                    },
            )
        },
    }
}

/// The line period of a field: the slope through the trimmed tips, where
/// more than ten are left and it is within a twentieth of the nominal number
/// of samples.
pub open spec fn field_period(raw: Seq<Option<i64>>, nominal_samples: int) -> Option<int> {
    let s = sums(trimmed(raw));
    match slope(s) {
        None => None,
        Some((num, den)) => {
            let nominal = nominal_samples * SUBSAMPLE;
            if s.n > 10 && 20 * num > 19 * (nominal * den) && 20 * num < 21 * (nominal * den) {
                Some(nearest(num, den))
            } else {
                None
            }
        },
    }
}

/// The sums as numbers.
struct Totals {
    n: i128,
    sx: i128,
    sy: i128,
    sxx: i128,
    sxy: i128,
}

impl Totals {
    spec fn is(&self, s: Sums) -> bool {
        self.n == s.n && self.sx == s.sx && self.sy == s.sy && self.sxx == s.sxx && self.sxy
            == s.sxy
    }
}

spec fn small(s: Sums, len: int) -> bool {
    &&& 0 <= s.n <= len
    &&& 0 <= s.sx <= len * 512
    &&& 0 <= s.sxx <= len * 0x4_0000
    &&& -(len * 0x10_0000_0000_0000) <= s.sy <= len * 0x10_0000_0000_0000
    &&& -(len * 0x2000_0000_0000_0000) <= s.sxy <= len * 0x2000_0000_0000_0000
}

proof fn lemma_small(raw: Seq<Option<i64>>)
    requires
        held(raw),
    ensures
        small(sums(raw), raw.len() as int),
    decreases raw.len(),
{
    if raw.len() > 0 {
        let rest = raw.drop_last();
        assert forall|i: int| 0 <= i < rest.len() implies (#[trigger] rest[i] matches Some(p)
            ==> -MAX_POSITION <= p <= MAX_POSITION) by {
            assert(rest[i] == raw[i]);
        }
        lemma_small(rest);
        let x = raw.len() - 1;
        assert(raw.last() == raw[x]);
        if let Some(y) = raw.last() {
            assert(0 <= x * x <= 0x4_0000) by (nonlinear_arith)
                requires
                    0 <= x <= 512,
            ;
            assert(-0x2000_0000_0000_0000 <= x * y <= 0x2000_0000_0000_0000) by (nonlinear_arith)
                requires
                    0 <= x <= 512,
                    -0x10_0000_0000_0000 <= y <= 0x10_0000_0000_0000,
            ;
        }
    }
}

fn total(raw: &Vec<Option<i64>>) -> (t: Totals)
    requires
        held(raw@),
    ensures
        t.is(sums(raw@)),
        small(sums(raw@), raw.len() as int),
{
    let mut t: Totals = Totals { n: 0, sx: 0, sy: 0, sxx: 0, sxy: 0 };
    let mut i: usize = 0;
    assert(raw@.take(0) =~= Seq::empty());
    while i < raw.len()
        invariant
            held(raw@),
            i <= raw.len(),
            t.is(sums(raw@.take(i as int))),
        decreases raw.len() - i,
    {
        proof {
            let part = raw@.take(i + 1);
            assert(part.drop_last() =~= raw@.take(i as int));
            assert(part.last() == raw@[i as int]);
            let before = raw@.take(i as int);
            assert forall|k: int| 0 <= k < before.len() implies (#[trigger] before[k] matches Some(
                p,
            ) ==> -MAX_POSITION <= p <= MAX_POSITION) by {
                assert(before[k] == raw@[k]);
            }
            lemma_small(before);
        }
        match raw[i] {
            Some(y) => {
                let x: i128 = i as i128;
                let y: i128 = y as i128;
                proof {
                    assert(0 <= x * x <= 0x4_0000) by (nonlinear_arith)
                        requires
                            0 <= x <= 512,
                    ;
                    assert(-0x2000_0000_0000_0000 <= x * y <= 0x2000_0000_0000_0000)
                        by (nonlinear_arith)
                        requires
                            0 <= x <= 512,
                            -0x10_0000_0000_0000 <= y <= 0x10_0000_0000_0000,
                    ;
                }
                t = Totals {
                    n: t.n + 1,
                    sx: t.sx + x,
                    sy: t.sy + y,
                    sxx: t.sxx + x * x,
                    sxy: t.sxy + x * y,
                };
            },
            None => {},
        }
        i += 1;
    }
    proof {
        assert(raw@.take(i as int) =~= raw@);
        lemma_small(raw@);
    }
    t
}

/// The fitted slope as numbers; both are bounded.
fn slope_of(t: &Totals, Ghost(s): Ghost<Sums>) -> (line: Option<(i128, i128)>)
    requires
        t.is(s),
        small(s, 512),
    ensures
        match line {
            Some((num, den)) => slope(s) == Some((num as int, den as int)) && 0 < den
                <= 0x1_0000_0000_0000 && -0x8000_0000_0000_0000_0000_0000 <= num
                <= 0x8000_0000_0000_0000_0000_0000,
            None => slope(s) is None,
        },
{
    assert(0 <= t.n * t.sxx <= 0x1000_0000_0000) by (nonlinear_arith)
        requires
            0 <= t.n <= 512,
            0 <= t.sxx <= 0x800_0000,
    ;
    assert(0 <= t.sx * t.sx <= 0x10_0000_0000) by (nonlinear_arith)
        requires
            0 <= t.sx <= 0x4_0000,
    ;
    assert(-0x800_0000_0000_0000_0000_0000 <= t.n * t.sxy <= 0x800_0000_0000_0000_0000_0000)
        by (nonlinear_arith)
        requires
            0 <= t.n <= 512,
            -0x400_0000_0000_0000_0000 <= t.sxy <= 0x400_0000_0000_0000_0000,
    ;
    assert(-0x800_0000_0000_0000_0000_0000 <= t.sx * t.sy <= 0x800_0000_0000_0000_0000_0000)
        by (nonlinear_arith)
        requires
            0 <= t.sx <= 0x4_0000,
            -0x2000_0000_0000_0000 <= t.sy <= 0x2000_0000_0000_0000,
    ;
    let den: i128 = t.n * t.sxx - t.sx * t.sx;
    if t.n < 2 || den <= 0 {
        return None;
    }
    Some((t.n * t.sxy - t.sx * t.sy, den))
}

/// [`residual`], for a row that is followed.
fn residual_of(t: &Totals, Ghost(s): Ghost<Sums>, line: (i128, i128), x: usize, y: i64) -> (r: i64)
    requires
        t.is(s),
        small(s, 512),
        2 <= t.n,
        0 < line.1 <= 0x1_0000_0000_0000,
        -0x8000_0000_0000_0000_0000_0000 <= line.0 <= 0x8000_0000_0000_0000_0000_0000,
        x <= MAX_ROWS,
        -MAX_POSITION <= y <= MAX_POSITION,
    ensures
        r == residual(s, (line.0 as int, line.1 as int), x as int, y as int),
        0 <= r,
{
    let num: i128 = line.0;
    let den: i128 = line.1;
    let n: i128 = t.n;
    let x: i128 = x as i128;
    let y: i128 = y as i128;
    assert(0 < n * den <= 0x200_0000_0000_0000) by (nonlinear_arith)
        requires
            2 <= n <= 512,
            0 < den <= 0x1_0000_0000_0000,
    ;
    let scale: i128 = n * den;
    assert(-0x2000_0000_0000_0000_0000_0000_0000 <= y * scale
        <= 0x2000_0000_0000_0000_0000_0000_0000) by (nonlinear_arith)
        requires
            -0x10_0000_0000_0000 <= y <= 0x10_0000_0000_0000,
            0 < scale <= 0x200_0000_0000_0000,
    ;
    assert(-0x2000_0000_0000_0000_0000_0000_0000 <= t.sy * den
        <= 0x2000_0000_0000_0000_0000_0000_0000) by (nonlinear_arith)
        requires
            -0x2000_0000_0000_0000 <= t.sy <= 0x2000_0000_0000_0000,
            0 < den <= 0x1_0000_0000_0000,
    ;
    assert(-0x2_0000_0000_0000_0000_0000_0000_0000 <= num * t.sx
        <= 0x2_0000_0000_0000_0000_0000_0000_0000) by (nonlinear_arith)
        requires
            -0x8000_0000_0000_0000_0000_0000 <= num <= 0x8000_0000_0000_0000_0000_0000,
            0 <= t.sx <= 0x4_0000,
    ;
    assert(-0x100_0000_0000_0000_0000_0000_0000 <= n * num
        <= 0x100_0000_0000_0000_0000_0000_0000) by (nonlinear_arith)
        requires
            -0x8000_0000_0000_0000_0000_0000 <= num <= 0x8000_0000_0000_0000_0000_0000,
            0 <= n <= 512,
    ;
    let steep: i128 = n * num;
    assert(-0x2_0000_0000_0000_0000_0000_0000_0000 <= steep * x
        <= 0x2_0000_0000_0000_0000_0000_0000_0000) by (nonlinear_arith)
        requires
            -0x100_0000_0000_0000_0000_0000_0000 <= steep <= 0x100_0000_0000_0000_0000_0000_0000,
            0 <= x <= 512,
    ;
    let off: i128 = y * scale - (t.sy * den - num * t.sx) - steep * x;
    let size: i128 = if off < 0 {
        -off
    } else {
        off
    };
    let r: i128 = nearest_div(size, scale);
    assert(r >= 0) by (nonlinear_arith)
        requires
            size >= 0,
            scale > 0,
            r == (2 * size + scale) / (2 * scale),
    ;
    if r <= i64::MAX as i128 {
        r as i64
    } else {
        i64::MAX
    }
}

/// The tips without those that lie off the line through all of them.
///
/// Plain least squares over every tip is not robust: a few corrupted ones
/// tilt the slope and slant the whole field. So fit once, drop what lies off,
/// and fit again on what is left.
pub fn trim_tips(raw: &Vec<Option<i64>>) -> (kept: Vec<Option<i64>>)
    requires
        held(raw@),
    ensures
        kept@ == trimmed(raw@),
        held(kept@),
{
    let n: usize = raw.len();
    let t: Totals = total(raw);
    let ghost s = sums(raw@);
    let line: (i128, i128) = match slope_of(&t, Ghost(s)) {
        None => {
            return crate::seqs::copy_of(raw.as_slice());
        },
        Some(l) => l,
    };
    let ghost gline = (line.0 as int, line.1 as int);
    let mut res: Vec<i64> = Vec::new();
    let mut i: usize = 0;
    assert(raw@.take(0) =~= Seq::empty());
    while i < n
        invariant
            n == raw.len(),
            i <= n,
            held(raw@),
            s == sums(raw@),
            t.is(s),
            small(s, 512),
            2 <= t.n,
            gline == (line.0 as int, line.1 as int),
            0 < line.1 <= 0x1_0000_0000_0000,
            -0x8000_0000_0000_0000_0000_0000 <= line.0 <= 0x8000_0000_0000_0000_0000_0000,
            res@ == residuals(raw@.take(i as int), s, gline),
            forall|k: int| 0 <= k < res.len() ==> 0 <= #[trigger] res[k],
            res.len() <= i,
        decreases n - i,
    {
        proof {
            assert(raw@.take(i + 1).drop_last() =~= raw@.take(i as int));
            assert(raw@.take(i + 1).last() == raw@[i as int]);
        }
        match raw[i] {
            Some(y) => {
                res.push(residual_of(&t, Ghost(s), line, i, y));
            },
            None => {},
        }
        i += 1;
    }
    assert(raw@.take(n as int) =~= raw@);
    let middle: i64 = if res.len() == 0 {
        0
    } else {
        median(&res)
    };
    let mut kept: Vec<Option<i64>> = Vec::new();
    let mut i: usize = 0;
    let ghost whole = trimmed(raw@);
    while i < n
        invariant
            n == raw.len(),
            i <= n,
            held(raw@),
            s == sums(raw@),
            t.is(s),
            small(s, 512),
            2 <= t.n,
            gline == (line.0 as int, line.1 as int),
            slope(s) == Some(gline),
            0 < line.1 <= 0x1_0000_0000_0000,
            -0x8000_0000_0000_0000_0000_0000 <= line.0 <= 0x8000_0000_0000_0000_0000_0000,
            middle == median_of(residuals(raw@, s, gline)),
            whole == trimmed(raw@),
            kept@ == whole.take(i as int),
        decreases n - i,
    {
        let k: Option<i64> = match raw[i] {
            Some(y) => {
                let r: i64 = residual_of(&t, Ghost(s), line, i, y);
                let spread: i128 = 14_826 * middle as i128;
                let floor: i128 = 10_000 * SUBSAMPLE as i128;
                let scale: i128 = if spread >= floor {
                    spread
                } else {
                    floor
                };
                if 10_000 * r as i128 <= 3 * scale {
                    Some(y)
                } else {
                    None
                }
            },
            None => None,
        };
        kept.push(k);
        assert(k == whole[i as int]);
        i += 1;
        assert(kept@ =~= whole.take(i as int));
    }
    assert(kept@ =~= whole);
    assert forall|i: int| 0 <= i < kept@.len() implies (#[trigger] kept@[i] matches Some(p)
        ==> -MAX_POSITION <= p <= MAX_POSITION) by {
        assert(raw@[i] matches Some(p) ==> -MAX_POSITION <= p <= MAX_POSITION);
    }
    kept
}

/// The line period that the tips of a field show.
pub fn measure_period(raw: &Vec<Option<i64>>, nominal_samples: usize) -> (p: Option<i64>)
    requires
        held(raw@),
        nominal_samples <= 0x7_0000,
    ensures
        match p {
            Some(v) => field_period(raw@, nominal_samples as int) == Some(v as int) && 0 <= v
                <= MAX_PERIOD,
            None => field_period(raw@, nominal_samples as int) is None,
        },
{
    let kept: Vec<Option<i64>> = trim_tips(raw);
    let t: Totals = total(&kept);
    let (num, den): (i128, i128) = match slope_of(&t, Ghost(sums(kept@))) {
        None => {
            return None;
        },
        Some(l) => l,
    };
    let nominal: i128 = nominal_samples as i128 * SUBSAMPLE as i128;
    assert(0 <= nominal * den <= 0x70_0000_0000_0000_0000_0000_0000) by (nonlinear_arith)
        requires
            0 <= nominal <= 0x70_0000_0000,
            0 < den <= 0x1_0000_0000_0000,
    ;
    if t.n > 10 && 20 * num > 19 * (nominal * den) && 20 * num < 21 * (nominal * den) {
        let p: i128 = nearest_div(num, den);
        proof {
            let prod = nominal * den;
            assert(0 <= p <= 0x80_0000_0000) by (nonlinear_arith)
                requires
                    p == (2 * num + den) / (2 * den),
                    den > 0,
                    prod == nominal * den,
                    20 * num > 19 * prod,
                    20 * num < 21 * prod,
                    0 <= nominal <= 458_752_000_000,
            ;
        }
        return Some(p as i64);
    }
    None
}

/// The periods that are remembered once another field has shown one.
pub open spec fn remembered(periods: Seq<i64>, p: i64) -> Seq<i64> {
    (if periods.len() >= 8 {
        periods.drop_first()
    } else {
        periods
    }).push(p)
}

/// The line periods of recent fields, eight at most. A transmitter's crystal
/// does not change from field to field, so their median is steady.
pub struct PeriodMemory {
    periods: Vec<i64>,
}

impl PeriodMemory {
    pub closed spec fn view(&self) -> Seq<i64> {
        self.periods@
    }

    /// At most eight periods, none of which is negative or too long.
    pub open spec fn wf(&self) -> bool {
        &&& self@.len() <= 8
        &&& forall|i: int| 0 <= i < self@.len() ==> 0 <= #[trigger] self@[i] <= MAX_PERIOD
    }

    pub fn new() -> (m: Self)
        ensures
            m@ == Seq::<i64>::empty(),
            m.wf(),
    {
        PeriodMemory { periods: Vec::new() }
    }

    /// Remember another field's period and give the steady one.
    pub fn remember(&mut self, p: i64) -> (steady: i64)
        requires
            old(self).wf(),
            0 <= p <= MAX_PERIOD,
        ensures
            final(self).wf(),
            final(self)@ == remembered(old(self)@, p),
            steady == median_of(final(self)@),
            0 <= steady <= MAX_PERIOD,
    {
        if self.periods.len() >= 8 {
            let gone: i64 = self.periods.remove(0);
            assert(self.periods@ =~= old(self)@.drop_first());
        }
        self.periods.push(p);
        let steady: i64 = median(&self.periods);
        proof {
            law_ranked_value_occurs(
                self.periods@,
                self.periods.len() as int / 2,
                steady as int,
            );
        }
        steady
    }
}

/// The distances between tips of neighbouring rows.
pub open spec fn intervals(raw: Seq<Option<i64>>) -> Seq<i64>
    decreases raw.len(),
{
    if raw.len() < 2 {
        Seq::empty()
    } else {
        let before = intervals(raw.drop_last());
        match (raw[raw.len() - 2], raw.last()) {
            (Some(a), Some(b)) => before.push((b - a) as i64),
            _ => before,
        }
    }
}

/// How far an interval may be from the line period: three times the median
/// absolute deviation, but three samples at least; ten where fewer than five
/// intervals were measured.
pub open spec fn tolerance(iv: Seq<i64>) -> int {
    if iv.len() >= 5 {
        max(3 * mad_of(iv, median_of(iv)), 3 * SUBSAMPLE)
    } else {
        10 * SUBSAMPLE
    }
}

/// The tips without those whose distance from the one before is not a line.
pub open spec fn consistent_tips(raw: Seq<Option<i64>>, period: int) -> Seq<Option<i64>> {
    let limit = tolerance(intervals(raw));
    Seq::new(
        raw.len(),
        |i: int|
            if i > 0 && stray(raw[i - 1], raw[i], period, limit) {
                None
            } else {
                raw[i]
            },
    )
}

/// Whether two neighbouring tips are not one line apart.
pub open spec fn stray(a: Option<i64>, b: Option<i64>, period: int, limit: int) -> bool {
    match (a, b) {
        (Some(a), Some(b)) => abs(b - a - period) > limit,
        _ => false,
    }
}

/// Drop the tips that are not one line after the one before them.
pub fn reject_outliers(raw: &Vec<Option<i64>>, period: i64) -> (clean: Vec<Option<i64>>)
    requires
        held(raw@),
        0 <= period <= MAX_PERIOD,
    ensures
        clean@ == consistent_tips(raw@, period as int),
        held(clean@),
{
    let n: usize = raw.len();
    let mut iv: Vec<i64> = Vec::new();
    let mut i: usize = 1;
    assert(intervals(raw@.take(0)) =~= Seq::<i64>::empty());
    assert(n >= 1 ==> intervals(raw@.take(1)) =~= Seq::<i64>::empty());
    while i < n
        invariant
            n == raw.len(),
            1 <= i,
            n >= 1 ==> i <= n,
            held(raw@),
            iv@ == intervals(raw@.take(min(i as int, n as int))),
            forall|k: int|
                0 <= k < iv.len() ==> -0x20_0000_0000_0000 <= #[trigger] iv[k]
                    <= 0x20_0000_0000_0000,
        decreases n - i,
    {
        proof {
            let part = raw@.take(i + 1);
            assert(part.drop_last() =~= raw@.take(i as int));
            assert(part.last() == raw@[i as int]);
            assert(part[part.len() - 2] == raw@[i - 1]);
        }
        match (raw[i - 1], raw[i]) {
            (Some(a), Some(b)) => {
                iv.push(b - a);
            },
            _ => {},
        }
        i += 1;
    }
    assert(raw@.take(n as int) =~= raw@);
    let limit: i64 = if iv.len() >= 5 {
        let middle: i64 = median(&iv);
        proof {
            law_ranked_value_occurs(iv@, iv.len() as int / 2, middle as int);
        }
        let spread: i64 = mad(&iv, middle);
        proof {
            let d = crate::stats::deviations(iv@, middle as int);
            law_ranked_value_occurs(d, d.len() as int / 2, spread as int);
        }
        if spread >= SUBSAMPLE {
            3 * spread
        } else {
            3 * SUBSAMPLE
        }
    } else {
        10 * SUBSAMPLE
    };
    let ghost whole = consistent_tips(raw@, period as int);
    let mut clean: Vec<Option<i64>> = Vec::new();
    let mut i: usize = 0;
    while i < n
        invariant
            n == raw.len(),
            i <= n,
            held(raw@),
            0 <= period <= MAX_PERIOD,
            limit == tolerance(intervals(raw@)),
            whole == consistent_tips(raw@, period as int),
            clean@ == whole.take(i as int),
        decreases n - i,
    {
        let mut tip: Option<i64> = raw[i];
        if i > 0 {
            match (raw[i - 1], raw[i]) {
                (Some(a), Some(b)) => {
                    let off: i64 = b - a - period;
                    if off > limit || -off > limit {
                        tip = None;
                    }
                },
                _ => {},
            }
        }
        clean.push(tip);
        assert(tip == whole[i as int]);
        i += 1;
        assert(clean@ =~= whole.take(i as int));
    }
    assert(clean@ =~= whole);
    assert forall|i: int| 0 <= i < clean@.len() implies (#[trigger] clean@[i] matches Some(p)
        ==> -MAX_POSITION <= p <= MAX_POSITION) by {
        assert(raw@[i] matches Some(p) ==> -MAX_POSITION <= p <= MAX_POSITION);
    }
    clean
}

/// Where the first row would start if each tip were exact.
pub open spec fn row_zero_starts(clean: Seq<Option<i64>>, period: int) -> Seq<i64>
    decreases clean.len(),
{
    if clean.len() == 0 {
        Seq::empty()
    } else {
        let before = row_zero_starts(clean.drop_last(), period);
        match clean.last() {
            Some(p) => before.push((p - (clean.len() - 1) * period) as i64),
            None => before,
        }
    }
}

/// Where the grid starts: the median of what the tips of the first `rows`
/// rows say; the anchor where there are none.
pub open spec fn grid_start(
    clean: Seq<Option<i64>>,
    rows: int,
    period: int,
    anchor: int,
) -> int {
    let starts = row_zero_starts(clean.take(rows), period);
    if starts.len() == 0 {
        anchor
    } else {
        median_of(starts)
    }
}

/// Bound on where a grid starts.
pub const MAX_START: i64 = 0x20_0000_0000_0000;

/// Fit the start of the grid with the line period as its slope. The median
/// locks onto the dense, well followed cluster and ignores a drifting tail,
/// so lines do not wander from row to row.
pub fn fit_start(clean: &Vec<Option<i64>>, rows: usize, period: i64, anchor: i64) -> (start: i64)
    requires
        held(clean@),
        rows <= clean.len(),
        0 <= period <= MAX_PERIOD,
        -MAX_POSITION <= anchor <= MAX_POSITION,
    ensures
        start == grid_start(clean@, rows as int, period as int, anchor as int),
        -MAX_START <= start <= MAX_START,
{
    let mut starts: Vec<i64> = Vec::new();
    let mut i: usize = 0;
    assert(clean@.take(0) =~= Seq::empty());
    while i < rows
        invariant
            i <= rows <= clean.len(),
            held(clean@),
            0 <= period <= MAX_PERIOD,
            starts@ == row_zero_starts(clean@.take(i as int), period as int),
            forall|k: int|
                0 <= k < starts.len() ==> -MAX_START <= #[trigger] starts[k] <= MAX_START,
        decreases rows - i,
    {
        proof {
            let part = clean@.take(i + 1);
            assert(part.drop_last() =~= clean@.take(i as int));
            assert(part.last() == clean@[i as int]);
            assert(0 <= i * period <= 0x1_0000_0000_0000) by (nonlinear_arith)
                requires
                    0 <= i <= 512,
                    0 <= period <= 0x80_0000_0000,
            ;
        }
        match clean[i] {
            Some(p) => {
                starts.push(p - i as i64 * period);
            },
            None => {},
        }
        i += 1;
    }
    if starts.len() == 0 {
        return anchor;
    }
    let start: i64 = median(&starts);
    proof {
        law_ranked_value_occurs(
            starts@,
            starts.len() as int / 2,
            start as int,
        );
    }
    start
}

/// How many rows have a tip.
pub open spec fn tips_found(clean: Seq<Option<i64>>) -> int
    decreases clean.len(),
{
    if clean.len() == 0 {
        0
    } else {
        tips_found(clean.drop_last()) + if clean.last() is Some {
            1int
        } else {
            0int
        }
    }
}

pub fn count_tips(clean: &Vec<Option<i64>>) -> (n: usize)
    ensures
        n == tips_found(clean@),
        n <= clean.len(),
{
    let mut n: usize = 0;
    let mut i: usize = 0;
    assert(clean@.take(0) =~= Seq::empty());
    while i < clean.len()
        invariant
            i <= clean.len(),
            n == tips_found(clean@.take(i as int)),
            n <= i,
        decreases clean.len() - i,
    {
        proof {
            assert(clean@.take(i + 1).drop_last() =~= clean@.take(i as int));
            assert(clean@.take(i + 1).last() == clean@[i as int]);
        }
        if clean[i].is_some() {
            n = n + 1;
        }
        i += 1;
    }
    assert(clean@.take(i as int) =~= clean@);
    n
}

/// Whether a field is in dropout, given whether the one before was: it is
/// entered where less than half of the tips are found, and left where more
/// than three fifths are.
pub open spec fn dropout_next(in_dropout: bool, found: int, rows: int) -> bool {
    if in_dropout {
        5 * found <= 3 * rows
    } else {
        2 * found < rows
    }
}

pub fn next_dropout(in_dropout: bool, found: usize, rows: usize) -> (b: bool)
    requires
        found <= rows <= MAX_ROWS,
    ensures
        b == dropout_next(in_dropout, found as int, rows as int),
{
    if in_dropout {
        5 * found <= 3 * rows
    } else {
        2 * found < rows
    }
}

/// Between half and three fifths, a field keeps the mode of the one before.
pub proof fn law_dropout_does_not_flicker(in_dropout: bool, found: int, rows: int)
    requires
        0 <= found <= rows,
        2 * found >= rows,
        5 * found <= 3 * rows,
    ensures
        dropout_next(in_dropout, found, rows) == in_dropout,
{
}

/// Whether every row has its tip exactly on a grid.
pub open spec fn on_grid(raw: Seq<Option<i64>>, start: int, period: int) -> bool {
    forall|i: int| 0 <= i < raw.len() ==> #[trigger] raw[i] is Some && raw[i].unwrap() == start + i
        * period
}

proof fn lemma_grid_sums(raw: Seq<Option<i64>>, start: int, period: int)
    requires
        on_grid(raw, start, period),
    ensures
        sums(raw).n == raw.len(),
        2 * sums(raw).sx == raw.len() * (raw.len() - 1),
        6 * sums(raw).sxx == raw.len() * ((raw.len() - 1) * (2 * raw.len() - 1)),
        sums(raw).sy == raw.len() * start + period * sums(raw).sx,
        sums(raw).sxy == start * sums(raw).sx + period * sums(raw).sxx,
    decreases raw.len(),
{
    if raw.len() > 0 {
        let rest = raw.drop_last();
        assert forall|i: int| 0 <= i < rest.len() implies #[trigger] rest[i] is Some
            && rest[i].unwrap() == start + i * period by {
            assert(rest[i] == raw[i]);
        }
        lemma_grid_sums(rest, start, period);
        let s = sums(rest);
        let n = raw.len() as int;
        let x = n - 1;
        let y = start + x * period;
        assert(raw.last() == raw[x]);
        assert(n * (n - 1) == x * (x - 1) + 2 * x) by (nonlinear_arith)
            requires
                x == n - 1,
        ;
        assert(n * ((n - 1) * (2 * n - 1)) == x * ((x - 1) * (2 * x - 1)) + 6 * (x * x))
            by (nonlinear_arith)
            requires
                x == n - 1,
        ;
        assert(n * start + period * (s.sx + x) == x * start + period * s.sx + y)
            by (nonlinear_arith)
            requires
                x == n - 1,
                y == start + x * period,
        ;
        assert(start * (s.sx + x) + period * (s.sxx + x * x) == start * s.sx + period * s.sxx + x
            * y) by (nonlinear_arith)
            requires
                y == start + x * period,
        ;
    } else {
        assert(start * 0 == 0 && period * 0 == 0);
    }
}

proof fn lemma_grid_denominator(n: int, sx: int, sxx: int)
    by (nonlinear_arith)
    requires
        2 <= n,
        2 * sx == n * (n - 1),
        6 * sxx == n * ((n - 1) * (2 * n - 1)),
    ensures
        n * sxx - sx * sx > 0,
{
    assert(12 * (n * sxx) == 2 * (n * (n * ((n - 1) * (2 * n - 1)))));
    assert(4 * (sx * sx) == (n * (n - 1)) * (n * (n - 1)));
    let m = n * (n - 1);
    assert(12 * (n * sxx) - 12 * (sx * sx) == m * (2 * (n * (2 * n - 1)) - 3 * m));
    assert(2 * (n * (2 * n - 1)) - 3 * m == n * n + n);
    assert(m > 0 && n * n + n > 0);
    assert(m * (n * n + n) > 0);
}

proof fn lemma_grid_residual(s: Sums, start: int, period: int, den: int, x: int)
    requires
        s.sy == s.n * start + period * s.sx,
        den > 0,
        s.n > 0,
    ensures
        residual(s, (period * den, den), x, start + x * period) == 0,
{
    let y = start + x * period;
    let d = s.n * den;
    let (n, sx) = (s.n, s.sx);
    assert((n * start) * den == d * start) by (nonlinear_arith)
        requires
            d == n * den,
    ;
    assert((n * start + period * sx) * den == (n * start) * den + (period * den) * sx)
        by (nonlinear_arith);
    assert(n * (period * den) * x == d * (x * period)) by (nonlinear_arith)
        requires
            d == n * den,
    ;
    assert((start + x * period) * d == d * start + d * (x * period)) by (nonlinear_arith);
    assert(d > 0) by (nonlinear_arith)
        requires
            d == s.n * den,
            s.n > 0,
            den > 0,
    ;
    assert((2 * 0 + d) / (2 * d) == 0) by (nonlinear_arith)
        requires
            d > 0,
    ;
}

proof fn lemma_zero_residuals(raw: Seq<Option<i64>>, s: Sums, line: (int, int))
    requires
        forall|i: int| #![trigger raw[i]]
            0 <= i < raw.len() ==> raw[i] is Some && residual(
                s,
                line,
                i,
                raw[i].unwrap() as int,
            ) == 0,
    ensures
        residuals(raw, s, line).len() == raw.len(),
        forall|i: int| 0 <= i < raw.len() ==> #[trigger] residuals(raw, s, line)[i] == 0,
    decreases raw.len(),
{
    if raw.len() > 0 {
        let rest = raw.drop_last();
        assert forall|i: int| #![trigger rest[i]] 0 <= i < rest.len() implies rest[i] is Some
            && residual(s, line, i, rest[i].unwrap() as int) == 0 by {
            assert(rest[i] == raw[i]);
        }
        lemma_zero_residuals(rest, s, line);
        assert(raw.last() == raw[raw.len() - 1]);
    }
}

proof fn lemma_grid_starts(raw: Seq<Option<i64>>, start: i64, period: int)
    requires
        on_grid(raw, start as int, period),
    ensures
        row_zero_starts(raw, period).len() == raw.len(),
        forall|i: int| 0 <= i < raw.len() ==> #[trigger] row_zero_starts(raw, period)[i] == start,
    decreases raw.len(),
{
    if raw.len() > 0 {
        let rest = raw.drop_last();
        assert forall|i: int| 0 <= i < rest.len() implies #[trigger] rest[i] is Some
            && rest[i].unwrap() == start + i * period by {
            assert(rest[i] == raw[i]);
        }
        lemma_grid_starts(rest, start, period);
        assert(raw.last() == raw[raw.len() - 1]);
    }
}

/// Tips that lie exactly on a grid, one in each of more than ten rows, are
/// read as exactly that grid, provided its lines are within a twentieth of
/// the nominal length.
pub proof fn law_exact_tips_give_the_exact_grid(
    raw: Seq<Option<i64>>,
    start: i64,
    period: i64,
    nominal_samples: int,
    anchor: int,
)
    requires
        held(raw),
        raw.len() > 10,
        on_grid(raw, start as int, period as int),
        20 * period > 19 * (nominal_samples * SUBSAMPLE),
        20 * period < 21 * (nominal_samples * SUBSAMPLE),
    ensures
        field_period(raw, nominal_samples) == Some(period as int),
        grid_start(raw, raw.len() as int, period as int, anchor) == start,
{
    let s = sums(raw);
    let n = raw.len() as int;
    lemma_grid_sums(raw, start as int, period as int);
    lemma_grid_denominator(n, s.sx, s.sxx);
    let den = s.n * s.sxx - s.sx * s.sx;
    let p = period as int;
    let a = start as int;
    assert(s.n * s.sxy - s.sx * s.sy == p * den) by (nonlinear_arith)
        requires
            s.sy == s.n * a + p * s.sx,
            s.sxy == a * s.sx + p * s.sxx,
            den == s.n * s.sxx - s.sx * s.sx,
    ;
    let line = (p * den, den);
    assert(slope(s) == Some(line));
    assert forall|i: int| #![trigger raw[i]] 0 <= i < raw.len() implies raw[i] is Some && residual(
        s,
        line,
        i,
        raw[i].unwrap() as int,
    ) == 0 by {
        lemma_grid_residual(s, a, p, den, i);
    }
    lemma_zero_residuals(raw, s, line);
    let res = residuals(raw, s, line);
    crate::offset::lemma_ranked(res, res.len() as int / 2);
    law_ranked_value_occurs(res, res.len() as int / 2, median_of(res));
    assert(trimmed(raw) =~= raw);
    let nominal = nominal_samples * SUBSAMPLE;
    assert(20 * (p * den) > 19 * (nominal * den) && 20 * (p * den) < 21 * (nominal * den))
        by (nonlinear_arith)
        requires
            20 * p > 19 * nominal,
            20 * p < 21 * nominal,
            den > 0,
    ;
    assert((2 * (p * den) + den) / (2 * den) == p) by (nonlinear_arith)
        requires
            den > 0,
    ;
    assert(raw.take(n) =~= raw);
    lemma_grid_starts(raw, start, p);
    let starts = row_zero_starts(raw, p);
    crate::offset::lemma_ranked(starts, starts.len() as int / 2);
    law_ranked_value_occurs(starts, starts.len() as int / 2, median_of(starts));
}

/// Whether every tip that was found lies exactly on a grid.
pub open spec fn found_on_grid(raw: Seq<Option<i64>>, start: int, period: int) -> bool {
    forall|i: int|
        0 <= i < raw.len() ==> (#[trigger] raw[i] is Some ==> raw[i].unwrap() == start + i
            * period)
}

proof fn lemma_found_sums(raw: Seq<Option<i64>>, start: int, period: int)
    requires
        found_on_grid(raw, start, period),
    ensures
        ({
            let s = sums(raw);
            &&& s.n == tips_found(raw)
            &&& s.n >= 0
            &&& s.sy == s.n * start + period * s.sx
            &&& s.sxy == start * s.sx + period * s.sxx
        }),
    decreases raw.len(),
{
    if raw.len() > 0 {
        let rest = raw.drop_last();
        assert forall|i: int| 0 <= i < rest.len() && #[trigger] rest[i] is Some implies rest[i].unwrap()
            == start + i * period by {
            assert(rest[i] == raw[i]);
        }
        lemma_found_sums(rest, start, period);
        let s = sums(rest);
        let x = raw.len() - 1;
        assert(raw.last() == raw[raw.len() - 1]);
        if raw.last() is Some {
            let y = start + x * period;
            assert(s.n * start + period * s.sx + y == (s.n + 1) * start + period * (s.sx + x))
                by (nonlinear_arith)
                requires
                    y == start + x * period,
            ;
            assert(start * s.sx + period * s.sxx + x * y == start * (s.sx + x) + period * (s.sxx + x
                * x)) by (nonlinear_arith)
                requires
                    y == start + x * period,
            ;
        }
    } else {
        assert(0 * start == 0 && period * 0 == 0 && start * 0 == 0);
    }
}

/// Squared distances of the rows that have a tip from a later row.
proof fn lemma_rows_apart(raw: Seq<Option<i64>>, x: int)
    requires
        raw.len() <= x,
    ensures
        sums(raw).sxx - 2 * (x * sums(raw).sx) + sums(raw).n * (x * x) >= sums(raw).n >= 0,
    decreases raw.len(),
{
    if raw.len() > 0 {
        lemma_rows_apart(raw.drop_last(), x);
        let s = sums(raw.drop_last());
        let y = raw.len() - 1;
        assert((s.sxx + y * y) - 2 * (x * (s.sx + y)) + (s.n + 1) * (x * x) == s.sxx - 2 * (x * s.sx)
            + s.n * (x * x) + (x - y) * (x - y)) by (nonlinear_arith);
        assert((x - y) * (x - y) >= 1) by (nonlinear_arith)
            requires
                x - y >= 1,
        ;
    } else {
        assert(x * 0 == 0 && 0 * (x * x) == 0);
    }
}

/// Two tips or more always fix a slope.
pub proof fn law_two_tips_fix_a_slope(raw: Seq<Option<i64>>)
    ensures
        slope(sums(raw)) is Some <==> tips_found(raw) >= 2,
{
    lemma_slope_denominator(raw);
}

proof fn lemma_slope_denominator(raw: Seq<Option<i64>>)
    ensures
        ({
            let s = sums(raw);
            &&& s.n == tips_found(raw)
            &&& s.n >= 0
            &&& s.n * s.sxx - s.sx * s.sx >= 0
            &&& s.n >= 2 ==> s.n * s.sxx - s.sx * s.sx > 0
        }),
    decreases raw.len(),
{
    if raw.len() > 0 {
        let rest = raw.drop_last();
        lemma_slope_denominator(rest);
        let s = sums(rest);
        let x = raw.len() - 1;
        lemma_rows_apart(rest, x);
        assert((s.n + 1) * (s.sxx + x * x) - (s.sx + x) * (s.sx + x) == (s.n * s.sxx - s.sx * s.sx)
            + (s.sxx - 2 * (x * s.sx) + s.n * (x * x))) by (nonlinear_arith);
    } else {
        assert(0 * 0 == 0int);
    }
}

proof fn lemma_found_zero_residuals(raw: Seq<Option<i64>>, s: Sums, line: (int, int))
    requires
        forall|i: int|
            #![trigger raw[i]]
            0 <= i < raw.len() && raw[i] is Some ==> residual(
                s,
                line,
                i,
                raw[i].unwrap() as int,
            ) == 0,
    ensures
        residuals(raw, s, line).len() == tips_found(raw),
        forall|i: int|
            0 <= i < residuals(raw, s, line).len() ==> 0 <= #[trigger] residuals(raw, s, line)[i]
                <= 0,
    decreases raw.len(),
{
    if raw.len() > 0 {
        let rest = raw.drop_last();
        assert forall|i: int| #![trigger rest[i]] 0 <= i < rest.len() && rest[i] is Some implies residual(
            s,
            line,
            i,
            rest[i].unwrap() as int,
        ) == 0 by {
            assert(rest[i] == raw[i]);
        }
        lemma_found_zero_residuals(rest, s, line);
        assert(raw.last() == raw[raw.len() - 1]);
    }
}

proof fn lemma_found_slope(raw: Seq<Option<i64>>, start: int, period: int)
    requires
        found_on_grid(raw, start, period),
        tips_found(raw) >= 2,
    ensures
        ({
            let s = sums(raw);
            let den = s.n * s.sxx - s.sx * s.sx;
            den > 0 && slope(s) == Some((period * den, den))
        }),
{
    lemma_slope_denominator(raw);
    lemma_found_sums(raw, start, period);
    let s = sums(raw);
    let den = s.n * s.sxx - s.sx * s.sx;
    assert(s.n * s.sxy - s.sx * s.sy == period * den) by (nonlinear_arith)
        requires
            s.sy == s.n * start + period * s.sx,
            s.sxy == start * s.sx + period * s.sxx,
            den == s.n * s.sxx - s.sx * s.sx,
    ;
}

/// Where the tips that trimming leaves, more than ten, lie exactly on a grid,
/// the line period is that grid's, whatever was trimmed.
pub proof fn law_trimmed_tips_give_the_period(
    raw: Seq<Option<i64>>,
    start: int,
    period: int,
    nominal_samples: int,
)
    requires
        found_on_grid(trimmed(raw), start, period),
        tips_found(trimmed(raw)) > 10,
    ensures
        field_period(raw, nominal_samples) == (if 19 * (nominal_samples * 1_000_000) < 20 * period
            < 21 * (nominal_samples * 1_000_000) {
            Some(period)
        } else {
            None
        }),
{
    let kept = trimmed(raw);
    lemma_found_slope(kept, start, period);
    lemma_slope_denominator(kept);
    let s = sums(kept);
    let den = s.n * s.sxx - s.sx * s.sx;
    let nominal = nominal_samples * SUBSAMPLE;
    assert(20 * (period * den) > 19 * (nominal * den) <==> 20 * period > 19 * nominal)
        by (nonlinear_arith)
        requires
            den > 0,
    ;
    assert(20 * (period * den) < 21 * (nominal * den) <==> 20 * period < 21 * nominal)
        by (nonlinear_arith)
        requires
            den > 0,
    ;
    assert((2 * (period * den) + den) / (2 * den) == period) by (nonlinear_arith)
        requires
            den > 0,
    ;
}

/// Missing tips do not bend the grid: where those that were found lie exactly
/// on one, nothing is trimmed, and more than ten give its period.
pub proof fn law_missing_tips_do_not_bend_the_grid(
    raw: Seq<Option<i64>>,
    start: int,
    period: int,
    nominal_samples: int,
)
    requires
        found_on_grid(raw, start, period),
        tips_found(raw) > 10,
    ensures
        trimmed(raw) == raw,
        field_period(raw, nominal_samples) == (if 19 * (nominal_samples * 1_000_000) < 20 * period
            < 21 * (nominal_samples * 1_000_000) {
            Some(period)
        } else {
            None
        }),
{
    lemma_found_slope(raw, start, period);
    lemma_found_sums(raw, start, period);
    let s = sums(raw);
    let den = s.n * s.sxx - s.sx * s.sx;
    let line = (period * den, den);
    assert forall|i: int| #![trigger raw[i]] 0 <= i < raw.len() && raw[i] is Some implies residual(
        s,
        line,
        i,
        raw[i].unwrap() as int,
    ) == 0 by {
        lemma_grid_residual(s, start, period, den, i);
    }
    lemma_found_zero_residuals(raw, s, line);
    let res = residuals(raw, s, line);
    law_median_stays_among_the_values(res, 0, 0);
    assert(trimmed(raw) =~= raw);
    law_trimmed_tips_give_the_period(raw, start, period, nominal_samples);
}

/// Sum of what weighted tips are off a line, and the sum of that by row.
pub open spec fn misfit(raw: Seq<Option<i64>>, weight: int, base: int, step: int) -> (int, int)
    decreases raw.len(),
{
    if raw.len() == 0 {
        (0, 0)
    } else {
        let (a, b) = misfit(raw.drop_last(), weight, base, step);
        let x = raw.len() - 1;
        match raw.last() {
            Some(y) => (
                a + (weight * y - base - step * x),
                b + x * (weight * y - base - step * x),
            ),
            None => (a, b),
        }
    }
}

proof fn lemma_misfit(raw: Seq<Option<i64>>, weight: int, base: int, step: int)
    ensures
        ({
            let s = sums(raw);
            let (a, b) = misfit(raw, weight, base, step);
            &&& a == weight * s.sy - base * s.n - step * s.sx
            &&& b == weight * s.sxy - base * s.sx - step * s.sxx
        }),
    decreases raw.len(),
{
    if raw.len() > 0 {
        lemma_misfit(raw.drop_last(), weight, base, step);
        let s = sums(raw.drop_last());
        let x = raw.len() - 1;
        if let Some(v) = raw.last() {
            let y = v as int;
            assert(weight * (s.sy + y) == weight * s.sy + weight * y) by (nonlinear_arith);
            assert(base * (s.n + 1) == base * s.n + base) by (nonlinear_arith);
            assert(step * (s.sx + x) == step * s.sx + step * x) by (nonlinear_arith);
            assert(weight * (s.sxy + x * y) == weight * s.sxy + x * (weight * y))
                by (nonlinear_arith);
            assert(base * (s.sx + x) == base * s.sx + x * base) by (nonlinear_arith);
            assert(step * (s.sxx + x * x) == step * s.sxx + x * (step * x)) by (nonlinear_arith);
            let (u, v, w) = (weight * y, base, step * x);
            assert(x * (u - v - w) == x * u - x * v - x * w) by (nonlinear_arith);
        }
    } else {
        assert(weight * 0 == 0 && base * 0 == 0 && step * 0 == 0);
    }
}

/// The line that is fitted is the least-squares line: what the tips are off
/// it adds up to nothing, also when weighted by row. The residual of a tip is
/// how far it is off, to half a unit.
pub proof fn law_fit_is_least_squares(raw: Seq<Option<i64>>, x: int, y: int)
    requires
        slope(sums(raw)) is Some,
    ensures
        ({
            let s = sums(raw);
            let (num, den) = slope(s).unwrap();
            let weight = s.n * den;
            let base = s.sy * den - num * s.sx;
            let step = s.n * num;
            let off = weight * y - base - step * x;
            let r = residual(s, (num, den), x, y);
            &&& weight > 0
            &&& misfit(raw, weight, base, step) == (0int, 0int)
            &&& r < i64::MAX ==> {
                ||| -weight < 2 * (weight * r - off) <= weight
                ||| -weight < 2 * (weight * r + off) <= weight
            }
            &&& r >= 0
        }),
{
    let s = sums(raw);
    let (num, den) = slope(s).unwrap();
    let weight = s.n * den;
    let base = s.sy * den - num * s.sx;
    let step = s.n * num;
    lemma_misfit(raw, weight, base, step);
    assert(weight > 0) by (nonlinear_arith)
        requires
            weight == s.n * den,
            s.n >= 2,
            den > 0,
    ;
    assert((s.n * den) * s.sy - (s.sy * den - num * s.sx) * s.n - (s.n * num) * s.sx == 0)
        by (nonlinear_arith);
    let (n, sx, sy, sxx, sxy) = (s.n, s.sx, s.sy, s.sxx, s.sxy);
    let (a, b, c, d) = (n * sxy, sx * sy, n * sxx, sx * sx);
    assert((n * den) * sxy == den * a) by (nonlinear_arith)
        requires
            a == n * sxy,
    ;
    assert((sy * den - num * sx) * sx == den * b - num * d) by (nonlinear_arith)
        requires
            b == sx * sy,
            d == sx * sx,
    ;
    assert((n * num) * sxx == num * c) by (nonlinear_arith)
        requires
            c == n * sxx,
    ;
    assert(den * (a - b) == den * a - den * b) by (nonlinear_arith);
    assert(num * (c - d) == num * c - num * d) by (nonlinear_arith);
    assert(den * num == num * den) by (nonlinear_arith);
    let off = weight * y - base - step * x;
    assert(y * (s.n * den) == weight * y) by (nonlinear_arith)
        requires
            weight == s.n * den,
    ;
    assert(s.n * num * x == step * x);
    law_nearest_is_within_half(abs(off), weight);
    let q = nearest(abs(off), weight);
    assert(q >= 0) by (nonlinear_arith)
        requires
            -weight < 2 * (weight * q - abs(off)) <= weight,
            abs(off) >= 0,
            weight > 0,
    ;
}

/// Trimming drops a tip exactly where it is off the fitted line by more than
/// three samples and by more than 4.4478 times the median that the tips are
/// off it. It never adds or moves one.
pub proof fn law_trimming_drops_what_is_off(raw: Seq<Option<i64>>, i: int)
    requires
        0 <= i < raw.len(),
    ensures
        trimmed(raw).len() == raw.len(),
        raw[i] is None ==> trimmed(raw)[i] is None,
        raw[i] is Some && slope(sums(raw)) is Some ==> {
            let line = slope(sums(raw)).unwrap();
            let r = residual(sums(raw), line, i, raw[i].unwrap() as int);
            let middle = median_of(residuals(raw, sums(raw), line));
            trimmed(raw)[i] == if r > 3_000_000 && 10_000 * r > 44_478 * middle {
                None
            } else {
                raw[i]
            }
        },
{
    if raw[i] is Some && slope(sums(raw)) is Some {
        let line = slope(sums(raw)).unwrap();
        let r = residual(sums(raw), line, i, raw[i].unwrap() as int);
        let middle = median_of(residuals(raw, sums(raw), line));
        assert(close(r, middle) <==> !(r > 3_000_000 && 10_000 * r > 44_478 * middle));
    }
}

/// The periods that are taken are of more than ten tips and within a
/// twentieth of the nominal line, to half a unit.
pub proof fn law_periods_are_near_nominal(raw: Seq<Option<i64>>, nominal_samples: int)
    requires
        field_period(raw, nominal_samples) is Some,
    ensures
        ({
            let p = field_period(raw, nominal_samples).unwrap();
            &&& tips_found(trimmed(raw)) > 10
            &&& 19 * (nominal_samples * 1_000_000) - 10 < 20 * p < 21 * (nominal_samples * 1_000_000)
                + 11
        }),
{
    let kept = trimmed(raw);
    lemma_slope_denominator(kept);
    let (num, den) = slope(sums(kept)).unwrap();
    law_nearest_is_within_half(num, den);
    let p = nearest(num, den);
    let nominal = nominal_samples * SUBSAMPLE;
    assert(19 * nominal - 10 < 20 * p < 21 * nominal + 11) by (nonlinear_arith)
        requires
            den > 0,
            -den < 2 * (den * p - num) <= den,
            20 * num > 19 * (nominal * den),
            20 * num < 21 * (nominal * den),
    ;
}

/// The last eight periods are remembered, the new one among them.
pub proof fn law_last_eight_periods_are_remembered(periods: Seq<i64>, p: i64)
    requires
        periods.len() <= 8,
    ensures
        ({
            let all = periods.push(p);
            let n = all.len() as int;
            remembered(periods, p) == all.subrange(
                if n > 8 {
                    n - 8
                } else {
                    0
                },
                n,
            )
        }),
{
    let all = periods.push(p);
    let n = all.len() as int;
    assert(remembered(periods, p) =~= all.subrange(
        if n > 8 {
            n - 8
        } else {
            0
        },
        n,
    ));
}

/// A neighbouring pair of tips gives one interval, the distance between them;
/// a missing tip gives none.
pub proof fn law_neighbours_give_intervals(raw: Seq<Option<i64>>, a: i64, b: i64)
    requires
        i64::MIN <= b - a <= i64::MAX,
    ensures
        intervals(raw.push(None)) == intervals(raw),
        intervals(raw.push(None).push(Some(b))) == intervals(raw),
        intervals(raw.push(Some(a)).push(Some(b))).len() == intervals(raw.push(Some(a))).len() + 1,
        intervals(raw.push(Some(a)).push(Some(b))).last() == b - a,
        intervals(raw.push(Some(a)).push(Some(b))).drop_last() == intervals(raw.push(Some(a))),
{
    assert(raw.push(None).drop_last() =~= raw);
    assert(raw.push(None).push(Some(b)).drop_last() =~= raw.push(None));
    assert(raw.push(Some(a)).push(Some(b)).drop_last() =~= raw.push(Some(a)));
    let before = intervals(raw.push(Some(a)));
    assert(before.push((b - a) as i64).drop_last() =~= before);
}

/// A tip stays where the one before it is missing or lies a line before it,
/// to three samples; it is dropped where it is farther off than that and than
/// three times the distance that more than half of the intervals keep to. With
/// fewer than five intervals, ten samples decide.
pub proof fn law_tips_off_the_line_period_are_dropped(
    raw: Seq<Option<i64>>,
    period: int,
    i: int,
    d: int,
)
    requires
        held(raw),
        0 <= i < raw.len(),
    ensures
        ({
            let clean = consistent_tips(raw, period);
            let iv = intervals(raw);
            let m = median_of(iv);
            &&& clean.len() == raw.len()
            &&& clean[i] == raw[i] || clean[i] is None
            &&& i == 0 || raw[i - 1] is None ==> clean[i] == raw[i]
            &&& i > 0 && raw[i - 1] is Some && raw[i] is Some ==> {
                let off = raw[i].unwrap() - raw[i - 1].unwrap() - period;
                &&& -3_000_000 <= off <= 3_000_000 ==> clean[i] == raw[i]
                &&& iv.len() < 5 ==> (clean[i] == raw[i] <==> -10_000_000 <= off <= 10_000_000)
                &&& iv.len() >= 5 && 2 * iv.filter(|v: i64| -d <= v - m <= d).len() > iv.len() && !(
                -3_000_000 <= off <= 3_000_000) && !(-3 * d <= off <= 3 * d) ==> clean[i] is None
                &&& iv.len() >= 5 && 2 * iv.filter(|v: i64| -d < v - m < d).len() <= iv.len() && -3 * d
                    <= off <= 3 * d ==> clean[i] == raw[i]
            }
        }),
{
    let iv = intervals(raw);
    let m = median_of(iv);
    if iv.len() >= 5 {
        lemma_intervals_bounded(raw);
        law_median_stays_among_the_values(iv, -0x40_0000_0000_0000, 0x40_0000_0000_0000);
        law_mad_parts_the_distances(iv, m);
        let mad = mad_of(iv, m);
        if mad > d {
            lemma_more_within(iv, |v: i64| -d <= v - m <= d, |v: i64| -mad < v - m < mad);
        }
        if mad < d {
            lemma_more_within(iv, |v: i64| -mad <= v - m <= mad, |v: i64| -d < v - m < d);
        }
    }
}

proof fn lemma_intervals_bounded(raw: Seq<Option<i64>>)
    requires
        held(raw),
    ensures
        forall|k: int|
            0 <= k < intervals(raw).len() ==> -0x40_0000_0000_0000 <= #[trigger] intervals(raw)[k]
                <= 0x40_0000_0000_0000,
    decreases raw.len(),
{
    if raw.len() >= 2 {
        let rest = raw.drop_last();
        assert forall|i: int| 0 <= i < rest.len() implies (#[trigger] rest[i] matches Some(p)
            ==> -MAX_POSITION <= p <= MAX_POSITION) by {
            assert(rest[i] == raw[i]);
        }
        lemma_intervals_bounded(rest);
        assert(raw[raw.len() - 1] == raw.last());
        let before = intervals(rest);
        let n = raw.len() as int;
        if raw[n - 2] is Some && raw[n - 1] is Some {
            let (a, b) = (raw[n - 2].unwrap(), raw[n - 1].unwrap());
            assert(-MAX_POSITION <= a <= MAX_POSITION);
            assert(-MAX_POSITION <= b <= MAX_POSITION);
            assert(intervals(raw) == before.push((b - a) as i64));
        } else {
            assert(intervals(raw) == before);
        }
    }
}

proof fn lemma_more_within(s: Seq<i64>, a: spec_fn(i64) -> bool, b: spec_fn(i64) -> bool)
    requires
        forall|v: i64| #[trigger] a(v) ==> b(v),
    ensures
        s.filter(a).len() <= s.filter(b).len(),
    decreases s.len(),
{
    reveal(Seq::filter);
    if s.len() > 0 {
        lemma_more_within(s.drop_last(), a, b);
        assert(a(s.last()) ==> b(s.last()));
    }
}

/// The numbers of the rows.
pub open spec fn row_numbers(n: nat) -> Seq<int> {
    Seq::new(n, |i: int| i)
}

proof fn lemma_starts_counted(clean: Seq<Option<i64>>, period: int, lo: int, hi: int)
    requires
        held(clean),
        0 <= period <= MAX_PERIOD,
    ensures
        row_zero_starts(clean, period).len() == tips_found(clean),
        row_zero_starts(clean, period).filter(|v: i64| lo <= v <= hi).len() == row_numbers(
            clean.len(),
        ).filter(
            |i: int| clean[i] is Some && lo <= clean[i].unwrap() - i * period <= hi,
        ).len(),
    decreases clean.len(),
{
    reveal(Seq::filter);
    let at = |i: int| clean[i] is Some && lo <= clean[i].unwrap() - i * period <= hi;
    if clean.len() > 0 {
        let rest = clean.drop_last();
        assert forall|i: int| 0 <= i < rest.len() implies (#[trigger] rest[i] matches Some(p)
            ==> -MAX_POSITION <= p <= MAX_POSITION) by {
            assert(rest[i] == clean[i]);
        }
        lemma_starts_counted(rest, period, lo, hi);
        let rows = row_numbers(clean.len());
        assert(rows.drop_last() =~= row_numbers(rest.len()));
        let before = |i: int| rest[i] is Some && lo <= rest[i].unwrap() - i * period <= hi;
        assert forall|k: int| 0 <= k < rest.len() implies at(#[trigger] row_numbers(rest.len())[k])
            == before(row_numbers(rest.len())[k]) by {
            assert(rest[k] == clean[k]);
        }
        lemma_rows_agree(row_numbers(rest.len()), at, before);
        let x = clean.len() - 1;
        assert(clean[x] == clean.last());
        if clean[x] is Some {
            assert(0 <= x * period <= 512 * MAX_PERIOD) by (nonlinear_arith)
                requires
                    0 <= x <= 512,
                    0 <= period <= MAX_PERIOD,
            ;
            let starts = row_zero_starts(rest, period);
            let v = (clean[x].unwrap() - x * period) as i64;
            assert(row_zero_starts(clean, period) == starts.push(v));
            assert(starts.push(v).drop_last() =~= starts);
        }
    }
}

proof fn lemma_rows_agree(s: Seq<int>, a: spec_fn(int) -> bool, b: spec_fn(int) -> bool)
    requires
        forall|k: int| 0 <= k < s.len() ==> a(#[trigger] s[k]) == b(s[k]),
    ensures
        s.filter(a) == s.filter(b),
    decreases s.len(),
{
    reveal(Seq::filter);
    if s.len() > 0 {
        let rest = s.drop_last();
        assert forall|k: int| 0 <= k < rest.len() implies a(#[trigger] rest[k]) == b(rest[k]) by {
            assert(rest[k] == s[k]);
        }
        lemma_rows_agree(rest, a, b);
        assert(a(s[s.len() - 1]) == b(s[s.len() - 1]));
    }
}

/// The grid locks onto the bulk of the tips: where more than half of those
/// found lie on a grid of the given period, to within a tolerance, it starts
/// where that grid does, to within the same; the others have no pull on it.
/// With none found it starts at the anchor.
pub proof fn law_grid_locks_onto_most_tips(
    clean: Seq<Option<i64>>,
    period: int,
    anchor: int,
    lo: int,
    hi: int,
)
    requires
        held(clean),
        0 <= period <= MAX_PERIOD,
    ensures
        tips_found(clean) == 0 ==> grid_start(clean, clean.len() as int, period, anchor) == anchor,
        2 * row_numbers(clean.len()).filter(
            |i: int| clean[i] is Some && lo <= clean[i].unwrap() - i * period <= hi,
        ).len() > tips_found(clean) ==> lo <= grid_start(
            clean,
            clean.len() as int,
            period,
            anchor,
        ) <= hi,
{
    assert(clean.take(clean.len() as int) =~= clean);
    lemma_starts_counted(clean, period, lo, hi);
    let starts = row_zero_starts(clean, period);
    if 2 * starts.filter(|v: i64| lo <= v <= hi).len() > starts.len() {
        starts.lemma_filter_len(|v: i64| lo <= v <= hi);
        law_majority_holds_the_median(starts, lo, hi);
    }
}

/// Only the rows that are asked for count.
pub proof fn law_later_rows_do_not_move_the_grid(
    clean: Seq<Option<i64>>,
    other: Seq<Option<i64>>,
    rows: int,
    period: int,
    anchor: int,
)
    requires
        0 <= rows <= clean.len(),
        rows <= other.len(),
        forall|i: int| 0 <= i < rows ==> #[trigger] clean[i] == other[i],
    ensures
        grid_start(clean, rows, period, anchor) == grid_start(other, rows, period, anchor),
{
    assert(clean.take(rows) =~= other.take(rows));
}

/// A tip is expected as many lines after the last one found as there are
/// rows between.
pub proof fn law_rows_are_counted_on(raw: Seq<Option<i64>>, period: int, j: int)
    requires
        0 <= j < raw.len(),
        raw[j] is Some,
        forall|k: int| j < k < raw.len() ==> #[trigger] raw[k] is None,
    ensures
        cursor(raw, period) == raw[j].unwrap() + (raw.len() - 1 - j) * period,
    decreases raw.len(),
{
    let n = raw.len() - 1;
    assert(raw.last() == raw[n]);
    if j < n {
        let rest = raw.drop_last();
        assert(rest[j] == raw[j]);
        assert forall|k: int| j < k < rest.len() implies #[trigger] rest[k] is None by {
            assert(rest[k] == raw[k]);
        }
        law_rows_are_counted_on(rest, period, j);
        assert((n - j) * period == (n - 1 - j) * period + period) by (nonlinear_arith);
    } else {
        assert(0 * period == 0);
    }
}

/// Following starts at the anchor and looks for each tip where the rows
/// before say it should be: `j` is the last row before with a tip. What is
/// found there counts if it is less than a quarter of a line off.
pub proof fn law_tips_are_followed(
    s: Seq<i32>,
    search: TipSearch,
    anchor: i64,
    period: int,
    rows: int,
    i: int,
    j: int,
)
    requires
        1 <= rows,
        0 <= j < i < followed(s, search, anchor, period, rows).len(),
        followed(s, search, anchor, period, rows)[j] is Some,
        forall|k: int|
            j < k < i ==> #[trigger] followed(s, search, anchor, period, rows)[k] is None,
    ensures
        followed(s, search, anchor, period, rows).len() <= rows,
        followed(s, search, anchor, period, rows)[0] == Some(anchor),
        ({
            let raw = followed(s, search, anchor, period, rows);
            let expected = raw[j].unwrap() + (i - j) * period;
            match search.tip(s, expected) {
                Some(p) => raw[i] == if -period < 4 * (p - expected) < period {
                    Some(p as i64)
                } else {
                    None
                },
                None => raw[i] is None,
            }
        }),
    decreases rows,
{
    lemma_followed_len(s, search, anchor, period, rows);
    if rows > 1 {
        lemma_followed_len(s, search, anchor, period, rows - 1);
        let before = followed(s, search, anchor, period, rows - 1);
        let raw = followed(s, search, anchor, period, rows);
        assert(before =~= raw.take(before.len() as int));
        assert forall|k: int| 0 <= k < before.len() implies #[trigger] before[k] == raw[k] by {}
        if i < before.len() {
            law_tips_are_followed(s, search, anchor, period, rows - 1, i, j);
        } else {
            law_rows_are_counted_on(before, period, j);
            assert((before.len() - j) * period == (before.len() - 1 - j) * period + period)
                by (nonlinear_arith);
        }
    }
}

pub proof fn lemma_followed_len(
    s: Seq<i32>,
    search: TipSearch,
    anchor: i64,
    period: int,
    rows: int,
)
    requires
        1 <= rows,
    ensures
        1 <= followed(s, search, anchor, period, rows).len() <= rows,
        followed(s, search, anchor, period, rows)[0] == Some(anchor),
    decreases rows,
{
    if rows > 1 {
        lemma_followed_len(s, search, anchor, period, rows - 1);
    }
}

/// Following goes on to the last row unless the next row would be searched
/// past the end of the record.
pub proof fn law_following_stops_at_the_end(
    s: Seq<i32>,
    search: TipSearch,
    anchor: i64,
    period: int,
    rows: int,
)
    requires
        1 <= rows,
        followed(s, search, anchor, period, rows).len() < rows,
    ensures
        ({
            let raw = followed(s, search, anchor, period, rows);
            let next = cursor(raw, period) + period;
            sample_at(next) + search.radius + search.ma_win >= s.len()
        }),
    decreases rows,
{
    lemma_followed_len(s, search, anchor, period, rows - 1);
    let before = followed(s, search, anchor, period, rows - 1);
    if before.len() < rows - 1 {
        law_following_stops_at_the_end(s, search, anchor, period, rows - 1);
    }
}

/// Dropout begins exactly where less than half of the tips are found, and
/// ends exactly where more than three fifths are.
pub proof fn law_dropout_begins_and_ends(found: int, rows: int)
    ensures
        dropout_next(false, found, rows) <==> found + found < rows,
        !dropout_next(true, found, rows) <==> found * 10 > rows * 6,
{
}

} // verus!
