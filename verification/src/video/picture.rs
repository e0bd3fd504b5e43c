//! From the values of a field to pixels: dropouts concealed, noise averaged
//! out over recent fields, edges sharpened, and the field merged with the one
//! before it.

use vstd::prelude::*;

use super::grid::MAX_ROWS;
use super::line::{within, Modulation, MAX_LEVELLED};
use super::scan::{lemma_cell, lemma_cells};
use super::sync::{nearest, nearest_div};
use crate::frame_history::{FieldMeta, FrameHistory};
use crate::levels::{max, min};
use crate::stats::{
    abs, law_majority_holds_the_median, law_median_parts_the_values, law_rank_ignores_order, median,
    median_of,
};

verus! {

/// Bound on the values of a filtered line.
pub const MAX_FILTERED: i64 = 0x1000_0000_0000;

/// Most fields that are averaged over.
pub const MAX_TEMPORAL_WINDOW: usize = 8;

/// How dropouts are concealed: by the value of the field before alone, or
/// mixed with the rows above and below at a weight in thousandths.
#[derive(Clone, Copy)]
pub struct Concealment {
    pub smart: bool,
    pub spatial_weight: u32,
}

/// The value that stands for one that dropped out.
pub open spec fn concealed(
    values: Seq<i64>,
    marks: Seq<bool>,
    before: Seq<i64>,
    width: int,
    rows: int,
    how: Concealment,
    i: int,
) -> int {
    let up = i >= width && !marks[i - width];
    let down = i + width < rows * width && !marks[i + width];
    let sum = (if up {
        values[i - width] as int
    } else {
        0
    }) + (if down {
        values[i + width] as int
    } else {
        0
    });
    let count = (if up {
        1int
    } else {
        0int
    }) + (if down {
        1int
    } else {
        0int
    });
    if !how.smart || count == 0 {
        before[i] as int
    } else {
        nearest(
            sum * how.spatial_weight + count * before[i] * (1000 - how.spatial_weight),
            1000 * count,
        )
    }
}

/// A row with its dropouts concealed, where there is a field before.
pub open spec fn concealed_row(
    values: Seq<i64>,
    marks: Seq<bool>,
    before: Option<Seq<i64>>,
    width: int,
    rows: int,
    how: Concealment,
    row: int,
) -> Seq<i64> {
    Seq::new(
        width as nat,
        |c: int|
            match before {
                Some(b) => if marks[row * width + c] {
                    concealed(values, marks, b, width, rows, how, row * width + c) as i64
                } else {
                    values[row * width + c]
                },
                None => values[row * width + c],
            },
    )
}

/// The values that recent fields have at a place, newest first.
pub open spec fn past_values(history: Seq<(Seq<i64>, FieldMeta)>, i: int) -> Seq<i64> {
    Seq::new(
        min(history.len() as int, MAX_TEMPORAL_WINDOW as int) as nat,
        |n: int| history[history.len() - 1 - n].0[i],
    )
}

/// The largest distance from a value.
pub open spec fn motion(cur: int, past: Seq<i64>) -> int
    decreases past.len(),
{
    if past.len() == 0 {
        0
    } else {
        max(motion(cur, past.drop_last()), abs(cur - past.last()))
    }
}

/// A value with the noise taken out: the median of it and of recent fields
/// where nothing moves, the value itself where it moves by a tenth of full
/// deviation or more, and in between in proportion. During a dropout it is
/// always the median.
pub open spec fn denoised(cur: int, past: Seq<i64>, force_static: bool, m: Modulation) -> int {
    let middle = median_of(seq![cur as i64] + past);
    let moved = motion(cur, past) * m.sample_rate;
    let full = m.deviation_hz * 100_000_000;
    if past.len() == 0 {
        cur
    } else if force_static {
        middle
    } else if moved >= full {
        cur
    } else {
        nearest(moved * cur + (full - moved) * middle, full)
    }
}

/// Five times the sharpened value of a column: it is moved away from its
/// neighbours. The outermost columns stay.
pub open spec fn sharpened5(line: Seq<i64>, col: int) -> int {
    if 1 <= col < line.len() - 1 {
        7 * line[col] - line[col - 1] - line[col + 1]
    } else {
        5 * line[col]
    }
}

/// Brightness of five times a value, from 0 at blanking to 255 at full
/// deviation.
pub open spec fn luma(value5: int, m: Modulation) -> int {
    let num = value5 * m.sample_rate;
    let den = 5 * (m.deviation_hz * 1_000_000_000);
    if num <= 0 {
        0
    } else if num >= den {
        255
    } else {
        nearest(255 * num, den)
    }
}

/// An opaque grey pixel.
pub open spec fn grey(luma: int) -> int {
    0xff00_0000 + 0x1_0101 * luma
}

/// The frame that a field makes together with the one before: its own rows
/// of one parity, the other parity from `before`, and nothing in rows that
/// were not read.
pub open spec fn merged(
    y: Seq<i64>,
    before: Seq<u32>,
    line_width: int,
    crop: int,
    width: int,
    height: int,
    rows: int,
    parity: int,
    m: Modulation,
) -> Seq<u32> {
    Seq::new(
        (height * width) as nat,
        |i: int| merged_pixel(y, before, line_width, crop, width, rows, parity, m, i) as u32,
    )
}

pub open spec fn merged_pixel(
    y: Seq<i64>,
    before: Seq<u32>,
    line_width: int,
    crop: int,
    width: int,
    rows: int,
    parity: int,
    m: Modulation,
    i: int,
) -> int {
    let out_row = i / width;
    let row = out_row / 2;
    if row >= rows {
        0
    } else if out_row % 2 == parity {
        grey(
            luma(
                sharpened5(y.subrange(row * line_width, (row + 1) * line_width), crop + i % width),
                m,
            ),
        )
    } else {
        before[i] as int
    }
}

/// The pixel of a brightness.
pub fn grey_pixel(luma: u8) -> (p: u32)
    ensures
        p == grey(luma as int),
{
    0xff00_0000 + 0x1_0101 * luma as u32
}

/// [`luma`].
pub fn luma_of(value5: i64, m: &Modulation) -> (l: u8)
    requires
        -0x10_0000_0000_0000 <= value5 <= 0x10_0000_0000_0000,
    ensures
        l == luma(value5 as int, *m),
{
    assert(-0x10_0000_0000_0000_0000_0000 <= value5 * m.sample_rate
        <= 0x10_0000_0000_0000_0000_0000) by (nonlinear_arith)
        requires
            -0x10_0000_0000_0000 <= value5 <= 0x10_0000_0000_0000,
            0 <= m.sample_rate <= 0xffff_ffff,
    ;
    let num: i128 = value5 as i128 * m.sample_rate as i128;
    let den: i128 = 5 * (m.deviation_hz as i128 * 1_000_000_000);
    if num <= 0 {
        0
    } else if num >= den {
        255
    } else {
        let l: i128 = nearest_div(255 * num, den);
        assert(0 <= l <= 255) by (nonlinear_arith)
            requires
                l == (2 * (255 * num) + den) / (2 * den),
                0 < num < den,
        ;
        l as u8
    }
}

/// [`denoised`].
pub fn denoise(cur: i64, past: &Vec<i64>, force_static: bool, m: &Modulation) -> (v: i64)
    requires
        -MAX_FILTERED <= cur <= MAX_FILTERED,
        within(past@, MAX_FILTERED as int),
    ensures
        v == denoised(cur as int, past@, force_static, *m),
        -MAX_FILTERED <= v <= MAX_FILTERED,
{
    if past.len() == 0 {
        return cur;
    }
    let mut all: Vec<i64> = Vec::new();
    all.push(cur);
    let mut moved: i64 = 0;
    let mut i: usize = 0;
    assert(all@ =~= seq![cur] + past@.take(0));
    while i < past.len()
        invariant
            i <= past.len(),
            -MAX_FILTERED <= cur <= MAX_FILTERED,
            within(past@, MAX_FILTERED as int),
            all@ == seq![cur] + past@.take(i as int),
            moved == motion(cur as int, past@.take(i as int)),
            0 <= moved <= 2 * MAX_FILTERED,
            within(all@, MAX_FILTERED as int),
        decreases past.len() - i,
    {
        proof {
            assert(past@.take(i + 1).drop_last() =~= past@.take(i as int));
            assert(past@.take(i + 1).last() == past@[i as int]);
        }
        let p: i64 = past[i];
        all.push(p);
        let d: i64 = if cur >= p {
            cur - p
        } else {
            p - cur
        };
        if d > moved {
            moved = d;
        }
        i += 1;
        assert(all@ =~= seq![cur] + past@.take(i as int));
    }
    assert(past@.take(i as int) =~= past@);
    let middle: i64 = median(&all);
    proof {
        crate::stats::law_ranked_value_occurs(all@, all.len() as int / 2, middle as int);
    }
    if force_static {
        return middle;
    }
    assert(0 <= moved * m.sample_rate <= 0x2000_0000_0000_0000_0000_0000) by (nonlinear_arith)
        requires
            0 <= moved <= 0x2000_0000_0000,
            0 <= m.sample_rate <= 0xffff_ffff,
    ;
    let w: i128 = moved as i128 * m.sample_rate as i128;
    let full: i128 = m.deviation_hz as i128 * 100_000_000;
    if w >= full {
        return cur;
    }
    let rest: i128 = full - w;
    let a: i128 = cur as i128;
    let b: i128 = middle as i128;
    proof {
        let top: int = 0x1000_0000_0000;
        assert(-(w * top) <= w * a <= w * top) by (nonlinear_arith)
            requires
                -top <= a <= top,
                0 <= w,
        ;
        assert(-(rest * top) <= rest * b <= rest * top) by (nonlinear_arith)
            requires
                -top <= b <= top,
                0 <= rest,
        ;
        assert(w * top + rest * top == full * top) by (nonlinear_arith)
            requires
                rest == full - w,
        ;
    }
    let v: i128 = nearest_div(w * a + rest * b, full);
    proof {
        let num = w * a + rest * b;
        assert(-0x1000_0000_0000 <= v <= 0x1000_0000_0000) by (nonlinear_arith)
            requires
                v == (2 * num + full) / (2 * full),
                full > 0,
                -(full * 0x1000_0000_0000) <= num <= full * 0x1000_0000_0000,
        ;
    }
    v as i64
}

/// [`concealed_row`].
pub fn conceal_row(
    values: &Vec<i64>,
    marks: &Vec<bool>,
    before: &Vec<i64>,
    has_before: bool,
    width: usize,
    rows: usize,
    how: &Concealment,
    row: usize,
) -> (line: Vec<i64>)
    requires
        1 <= width <= 0x1000,
        row < rows <= MAX_ROWS,
        rows * width <= values.len() == marks.len() == before.len(),
        within(values@, MAX_LEVELLED as int),
        within(before@, MAX_LEVELLED as int),
        how.spatial_weight <= 1000,
    ensures
        line@ == concealed_row(
            values@,
            marks@,
            if has_before {
                Some(before@)
            } else {
                None
            },
            width as int,
            rows as int,
            *how,
            row as int,
        ),
        within(line@, MAX_FILTERED as int),
{
    let ghost w = width as int;
    let ghost b = if has_before {
        Some(before@)
    } else {
        None
    };
    let ghost whole = concealed_row(values@, marks@, b, w, rows as int, *how, row as int);
    proof {
        lemma_cells(w, rows as int, row as int);
        assert(rows * width <= 512 * 0x1000) by (nonlinear_arith)
            requires
                rows <= 512,
                width <= 0x1000,
        ;
    }
    let off: usize = row * width;
    let end: usize = rows * width;
    let mut line: Vec<i64> = Vec::new();
    let mut c: usize = 0;
    while c < width
        invariant
            1 <= width <= 0x1000,
            w == width,
            row < rows <= MAX_ROWS,
            off == row * width,
            end == rows * width,
            off + width <= end <= values.len(),
            values.len() == marks.len() == before.len(),
            within(values@, MAX_LEVELLED as int),
            within(before@, MAX_LEVELLED as int),
            how.spatial_weight <= 1000,
            b == (if has_before {
                Some(before@)
            } else {
                None
            }),
            c <= width,
            end <= 512 * 0x1000,
            whole == concealed_row(values@, marks@, b, w, rows as int, *how, row as int),
            line@ == whole.take(c as int),
            within(line@, MAX_FILTERED as int),
        decreases width - c,
    {
        let i: usize = off + c;
        let mut v: i64 = values[i];
        if has_before && marks[i] {
            let mut sum: i64 = 0;
            let mut count: i64 = 0;
            if i >= width && !marks[i - width] {
                sum = sum + values[i - width];
                count = count + 1;
            }
            if i + width < end && !marks[i + width] {
                sum = sum + values[i + width];
                count = count + 1;
            }
            if !how.smart || count == 0 {
                v = before[i];
            } else {
                let a: i128 = how.spatial_weight as i128;
                let p: i128 = before[i] as i128;
                let s: i128 = sum as i128;
                let n: i128 = count as i128;
                proof {
                    let top: int = 0x100_0000_0000;
                    assert(-(2000 * top) <= s * a <= 2000 * top) by (nonlinear_arith)
                        requires
                            -(2 * top) <= s <= 2 * top,
                            0 <= a <= 1000,
                            top > 0,
                    ;
                    assert(-(2 * top) <= n * p <= 2 * top) by (nonlinear_arith)
                        requires
                            -top <= p <= top,
                            0 <= n <= 2,
                            top > 0,
                    ;
                    let np = n * p;
                    assert(-(2000 * top) <= np * (1000 - a) <= 2000 * top) by (nonlinear_arith)
                        requires
                            -(2 * top) <= np <= 2 * top,
                            0 <= a <= 1000,
                            top > 0,
                    ;
                }
                let num: i128 = s * a + n * p * (1000 - a);
                let q: i128 = nearest_div(num, 1000 * n);
                assert(-0x1000_0000_0000 <= q <= 0x1000_0000_0000) by (nonlinear_arith)
                    requires
                        q == (2 * num + 1000 * n) / (2 * (1000 * n)),
                        1 <= n <= 2,
                        -(4000 * 0x100_0000_0000) <= num <= 4000 * 0x100_0000_0000,
                ;
                v = q as i64;
            }
        }
        line.push(v);
        assert(v == whole[c as int]);
        c += 1;
        assert(line@ =~= whole.take(c as int));
    }
    assert(line@ =~= whole);
    line
}

/// Whether `f` is a line after the notch, where that is enabled.
pub open spec fn notched<N: Fn(&Vec<i64>) -> Vec<i64>>(
    line: Seq<i64>,
    enabled: bool,
    notch: N,
    f: Vec<i64>,
) -> bool {
    if enabled {
        exists|w: Vec<i64>| w@ == line && #[trigger] notch.ensures((&w,), f)
    } else {
        f@ == line
    }
}

/// What goes into the cleaning of a field.
pub struct FieldInput {
    pub values: Seq<i64>,
    pub marks: Seq<bool>,
    pub before: Option<Seq<i64>>,
    pub history: Seq<(Seq<i64>, FieldMeta)>,
    pub width: int,
    pub lines: int,
    pub rows: int,
    pub how: Concealment,
    pub notch_enabled: bool,
    pub force_static: bool,
    pub m: Modulation,
}

/// Whether `y` holds a row of a field, cleaned: dropouts concealed, then
/// notched, then denoised.
pub open spec fn row_cleaned<N: Fn(&Vec<i64>) -> Vec<i64>>(
    f: FieldInput,
    notch: N,
    row: int,
    y: Seq<i64>,
) -> bool {
    exists|line: Vec<i64>|
        {
            &&& #[trigger] notched(
                concealed_row(f.values, f.marks, f.before, f.width, f.rows, f.how, row),
                f.notch_enabled,
                notch,
                line,
            )
            &&& line.len() == f.width
            &&& forall|c: int|
                0 <= c < f.width ==> y[row * f.width + c] == denoised(
                    #[trigger] line@[c] as int,
                    past_values(f.history, row * f.width + c),
                    f.force_static,
                    f.m,
                )
        }
}

/// Whether `y` is a field, cleaned. Rows that were not read are zero.
pub open spec fn field_cleaned<N: Fn(&Vec<i64>) -> Vec<i64>>(
    f: FieldInput,
    notch: N,
    y: Seq<i64>,
) -> bool {
    &&& y.len() == f.lines * f.width
    &&& forall|row: int| 0 <= row < f.rows ==> #[trigger] row_cleaned(f, notch, row, y)
    &&& forall|i: int| f.rows * f.width <= i < y.len() ==> #[trigger] y[i] == 0
}

/// The values that recent fields have at a place.
fn gather_past(history: &FrameHistory<i64>, i: usize) -> (past: Vec<i64>)
    requires
        history.wf(),
        i < history.size(),
        history_within(history@),
    ensures
        past@ == past_values(history@, i as int),
        within(past@, MAX_FILTERED as int),
{
    let mut past: Vec<i64> = Vec::new();
    let count: usize = if history.len() < MAX_TEMPORAL_WINDOW {
        history.len()
    } else {
        MAX_TEMPORAL_WINDOW
    };
    proof {
        history.lemma_wf();
    }
    let mut n: usize = 0;
    while n < count
        invariant
            n <= count <= history@.len(),
            count == min(history@.len() as int, MAX_TEMPORAL_WINDOW as int),
            i < history.size(),
            history_within(history@),
            forall|k: int|
                0 <= k < history@.len() ==> (#[trigger] history@[k]).0.len() == history.size(),
            past@ == past_values(history@, i as int).take(n as int),
            within(past@, MAX_FILTERED as int),
        decreases count - n,
    {
        match history.prev_field(n) {
            Some(f) => {
                let ghost entry = history@[history@.len() - 1 - n];
                assert(entry.0.len() == history.size());
                assert(within(entry.0, MAX_FILTERED as int));
                past.push(f[i]);
            },
            None => {},
        }
        n += 1;
        assert(past@ =~= past_values(history@, i as int).take(n as int));
    }
    assert(past@ =~= past_values(history@, i as int));
    past
}

/// Whether all fields of a history are within the bound on filtered values.
pub open spec fn history_within(history: Seq<(Seq<i64>, FieldMeta)>) -> bool {
    forall|k: int| 0 <= k < history.len() ==> within((#[trigger] history[k]).0, MAX_FILTERED as int)
}

/// Whether a notch keeps the length of a line and stays within the bound on
/// filtered values.
pub open spec fn notch_fits<N: Fn(&Vec<i64>) -> Vec<i64>>(notch: N) -> bool {
    &&& forall|w: &Vec<i64>| #[trigger] notch.requires((w,))
    &&& forall|w: &Vec<i64>, f: Vec<i64>| #[trigger]
        notch.ensures((w,), f) ==> f.len() == w.len() && within(f@, MAX_FILTERED as int)
}

/// Clean one row: conceal, notch, denoise.
fn clean_row<N: Fn(&Vec<i64>) -> Vec<i64>>(
    values: &Vec<i64>,
    marks: &Vec<bool>,
    before: &Vec<i64>,
    has_before: bool,
    history: &FrameHistory<i64>,
    width: usize,
    rows: usize,
    how: &Concealment,
    notch_enabled: bool,
    notch: &N,
    force_static: bool,
    m: &Modulation,
    row: usize,
    Ghost(f): Ghost<FieldInput>,
) -> (out: Vec<i64>)
    requires
        1 <= width <= 0x1000,
        row < rows <= MAX_ROWS,
        rows * width <= values.len(),
        values.len() == marks.len() == before.len() == history.size(),
        within(values@, MAX_LEVELLED as int),
        within(before@, MAX_LEVELLED as int),
        how.spatial_weight <= 1000,
        history.wf(),
        history_within(history@),
        notch_fits(*notch),
        f.values == values@,
        f.marks == marks@,
        f.before == (if has_before {
            Some(before@)
        } else {
            None
        }),
        f.history == history@,
        f.width == width,
        f.rows == rows,
        f.how == *how,
        f.notch_enabled == notch_enabled,
        f.force_static == force_static,
        f.m == *m,
    ensures
        out.len() == width,
        within(out@, MAX_FILTERED as int),
        forall|y: Seq<i64>|
            (forall|c: int| 0 <= c < width ==> y[row * width + c] == #[trigger] out@[c])
                ==> #[trigger] row_cleaned(f, *notch, row as int, y),
{
    let shown: Vec<i64> = conceal_row(values, marks, before, has_before, width, rows, how, row);
    let ghost plain = shown@;
    let line: Vec<i64> = if notch_enabled {
        notch(&shown)
    } else {
        shown
    };
    assert(notched(plain, notch_enabled, *notch, line));
    proof {
        lemma_cells(width as int, rows as int, row as int);
    }
    let off: usize = row * width;
    let mut out: Vec<i64> = Vec::new();
    let mut c: usize = 0;
    while c < width
        invariant
            c <= width,
            line.len() == width,
            within(line@, MAX_FILTERED as int),
            off == row * width,
            off + width <= history.size(),
            history.size() <= usize::MAX,
            history.wf(),
            history_within(history@),
            out.len() == c,
            within(out@, MAX_FILTERED as int),
            forall|k: int|
                0 <= k < c ==> #[trigger] out@[k] == denoised(
                    line@[k] as int,
                    past_values(history@, off + k),
                    force_static,
                    *m,
                ),
        decreases width - c,
    {
        let past: Vec<i64> = gather_past(history, off + c);
        let v: i64 = denoise(line[c], &past, force_static, m);
        out.push(v);
        c += 1;
    }
    proof {
        assert forall|y: Seq<i64>|
            (forall|c: int| 0 <= c < width ==> y[row * width + c] == #[trigger] out@[c])
                implies #[trigger] row_cleaned(f, *notch, row as int, y) by {
            assert(notched(
                concealed_row(f.values, f.marks, f.before, f.width, f.rows, f.how, row as int),
                f.notch_enabled,
                *notch,
                line,
            ));
            assert forall|c: int| 0 <= c < f.width implies y[row * f.width + c] == denoised(
                #[trigger] line@[c] as int,
                past_values(f.history, row * f.width + c),
                f.force_static,
                f.m,
            ) by {
                assert(y[row * width + c] == out@[c]);
            }
        }
    }
    out
}

/// Clean all rows of a field.
pub fn clean_field<N: Fn(&Vec<i64>) -> Vec<i64>>(
    values: &Vec<i64>,
    marks: &Vec<bool>,
    before: &Vec<i64>,
    has_before: bool,
    history: &FrameHistory<i64>,
    width: usize,
    lines: usize,
    rows: usize,
    how: &Concealment,
    notch_enabled: bool,
    notch: &N,
    force_static: bool,
    m: &Modulation,
) -> (y: Vec<i64>)
    requires
        1 <= width <= 0x1000,
        rows <= lines <= MAX_ROWS,
        lines * width == values.len(),
        values.len() == marks.len() == before.len() == history.size(),
        within(values@, MAX_LEVELLED as int),
        within(before@, MAX_LEVELLED as int),
        how.spatial_weight <= 1000,
        history.wf(),
        history_within(history@),
        notch_fits(*notch),
    ensures
        field_cleaned(
            (FieldInput {
                values: values@,
                marks: marks@,
                before: if has_before {
                    Some(before@)
                } else {
                    None
                },
                history: history@,
                width: width as int,
                lines: lines as int,
                rows: rows as int,
                how: *how,
                notch_enabled,
                force_static,
                m: *m,
            }),
            *notch,
            y@,
        ),
        within(y@, MAX_FILTERED as int),
{
    let ghost f = FieldInput {
        values: values@,
        marks: marks@,
        before: if has_before {
            Some(before@)
        } else {
            None
        },
        history: history@,
        width: width as int,
        lines: lines as int,
        rows: rows as int,
        how: *how,
        notch_enabled,
        force_static,
        m: *m,
    };
    let ghost w = width as int;
    let size: usize = values.len();
    let mut y: Vec<i64> = Vec::new();
    let mut row: usize = 0;
    assert(0 * w == 0);
    while row < rows
        invariant
            1 <= width <= 0x1000,
            w == width,
            row <= rows <= lines <= MAX_ROWS,
            lines * width == values.len(),
            values.len() == marks.len() == before.len() == history.size(),
            within(values@, MAX_LEVELLED as int),
            within(before@, MAX_LEVELLED as int),
            how.spatial_weight <= 1000,
            history.wf(),
            history_within(history@),
            notch_fits(*notch),
            f.values == values@,
            f.marks == marks@,
            f.before == (if has_before {
                Some(before@)
            } else {
                None
            }),
            f.history == history@,
            f.width == width,
            f.rows == rows,
            f.how == *how,
            f.notch_enabled == notch_enabled,
            f.force_static == force_static,
            f.m == *m,
            y.len() == row * w,
            within(y@, MAX_FILTERED as int),
            forall|r: int, z: Seq<i64>|
                0 <= r < row && z.len() >= y.len() && z.take(y.len() as int) == y@
                    ==> #[trigger] row_cleaned(f, *notch, r, z),
        decreases rows - row,
    {
        proof {
            lemma_cells(w, lines as int, rows as int);
            lemma_cells(w, rows as int, row as int);
        }
        let out: Vec<i64> = clean_row(
            values,
            marks,
            before,
            has_before,
            history,
            width,
            rows,
            how,
            notch_enabled,
            notch,
            force_static,
            m,
            row,
            Ghost(f),
        );
        let ghost held = y@;
        crate::seqs::append_copies(&mut y, out.as_slice());
        proof {
            assert forall|r: int, z: Seq<i64>|
                0 <= r < row + 1 && z.len() >= y.len() && z.take(y.len() as int)
                    == y@ implies #[trigger] row_cleaned(f, *notch, r, z) by {
                if r < row {
                    assert(z.take(held.len() as int) =~= held) by {
                        assert forall|i: int| 0 <= i < held.len() implies z[i] == held[i] by {
                            assert(z.take(y.len() as int)[i] == y@[i]);
                        }
                    }
                } else {
                    assert forall|c: int| 0 <= c < width implies z[row * width + c]
                        == #[trigger] out@[c] by {
                        assert(z.take(y.len() as int)[row * width + c] == y@[row * width + c]);
                    }
                }
            }
        }
        row += 1;
    }
    proof {
        lemma_cells(w, lines as int, rows as int);
    }
    let ghost read = y@;
    while y.len() < size
        invariant
            size == lines * w,
            read.len() == rows * w <= y.len() <= size,
            y@.take(read.len() as int) == read,
            forall|i: int| rows * w <= i < y.len() ==> #[trigger] y@[i] == 0,
            within(y@, MAX_FILTERED as int),
        decreases size - y.len(),
    {
        y.push(0);
        assert(y@.take(read.len() as int) =~= read);
    }
    y
}

/// Merge a field with the frame before it.
pub fn merge_field(
    y: &Vec<i64>,
    before: &Vec<u32>,
    line_width: usize,
    crop: usize,
    width: usize,
    lines: usize,
    rows: usize,
    parity: u8,
    m: &Modulation,
) -> (frame: Vec<u32>)
    requires
        1 <= width <= 0x1000,
        1 <= line_width <= 0x1000,
        crop + width <= line_width,
        rows <= lines <= MAX_ROWS,
        y.len() == lines * line_width,
        before.len() == 2 * lines * width,
        parity <= 1,
        within(y@, MAX_FILTERED as int),
    ensures
        frame@ == merged(
            y@,
            before@,
            line_width as int,
            crop as int,
            width as int,
            2 * lines as int,
            rows as int,
            parity as int,
            *m,
        ),
{
    let ghost w = width as int;
    let ghost lw = line_width as int;
    let height: usize = 2 * lines;
    let ghost whole = merged(
        y@,
        before@,
        lw,
        crop as int,
        w,
        height as int,
        rows as int,
        parity as int,
        *m,
    );
    let mut frame: Vec<u32> = Vec::new();
    let mut out_row: usize = 0;
    assert(0 * w == 0);
    while out_row < height
        invariant
            1 <= width <= 0x1000,
            1 <= line_width <= 0x1000,
            w == width,
            lw == line_width,
            crop + width <= line_width,
            rows <= lines <= MAX_ROWS,
            height == 2 * lines,
            y.len() == lines * line_width,
            before.len() == height * width,
            parity <= 1,
            within(y@, MAX_FILTERED as int),
            whole == merged(
                y@,
                before@,
                lw,
                crop as int,
                w,
                height as int,
                rows as int,
                parity as int,
                *m,
            ),
            out_row <= height,
            frame.len() == out_row * w,
            frame@ == whole.take(out_row * w),
        decreases height - out_row,
    {
        proof {
            lemma_cells(w, height as int, out_row as int);
        }
        let row: usize = out_row / 2;
        let base: usize = out_row * width;
        let mut col: usize = 0;
        while col < width
            invariant
                1 <= width <= 0x1000,
                1 <= line_width <= 0x1000,
                w == width,
                lw == line_width,
                crop + width <= line_width,
                rows <= lines <= MAX_ROWS,
                height == 2 * lines,
                y.len() == lines * line_width,
                before.len() == height * width,
                parity <= 1,
                within(y@, MAX_FILTERED as int),
                whole == merged(
                    y@,
                    before@,
                    lw,
                    crop as int,
                    w,
                    height as int,
                    rows as int,
                    parity as int,
                    *m,
                ),
                out_row < height,
                row == out_row / 2,
                base == out_row * width,
                base + width <= height * width,
                col <= width,
                frame.len() == base + col,
                frame@ == whole.take(base + col),
            decreases width - col,
        {
            let ghost i = base + col;
            proof {
                lemma_cell(w, out_row as int, col as int);
            }
            let pixel: u32 = if row >= rows {
                0
            } else if out_row % 2 == parity as usize {
                proof {
                    lemma_cells(lw, lines as int, row as int);
                }
                let at: usize = row * line_width;
                let k: usize = crop + col;
                let ghost line = y@.subrange(row * lw, (row + 1) * lw);
                let value5: i64 = if 1 <= k && k < line_width - 1 {
                    assert(line[k as int] == y@[at + k]);
                    assert(line[k - 1] == y@[at + k - 1]);
                    assert(line[k + 1] == y@[at + k + 1]);
                    7 * y[at + k] - y[at + k - 1] - y[at + k + 1]
                } else {
                    assert(line[k as int] == y@[at + k]);
                    5 * y[at + k]
                };
                assert(value5 == sharpened5(line, k as int));
                grey_pixel(luma_of(value5, m))
            } else {
                before[base + col]
            };
            frame.push(pixel);
            assert(pixel == whole[i]);
            col += 1;
            assert(frame@ =~= whole.take(base + col));
        }
        out_row += 1;
    }
    assert(frame@ =~= whole);
    frame
}

/// Both fields of a frame survive: what one merge shows in the rows of its
/// parity, the next one of the other parity still shows, as far down as it
/// was read.
pub proof fn law_both_fields_survive(
    first: Seq<i64>,
    second: Seq<i64>,
    before: Seq<u32>,
    line_width: int,
    crop: int,
    width: int,
    height: int,
    rows: int,
    parity: int,
    m: Modulation,
    i: int,
)
    requires
        1 <= width,
        0 <= parity <= 1,
        0 <= i < height * width,
        (i / width) % 2 == parity,
        (i / width) / 2 < rows,
    ensures
        ({
            let one = merged(
                first,
                before,
                line_width,
                crop,
                width,
                height,
                rows,
                parity,
                m,
            );
            merged(second, one, line_width, crop, width, height, rows, 1 - parity, m)[i] == one[i]
        }),
{
}

proof fn lemma_motion(cur: int, past: Seq<i64>)
    ensures
        0 <= motion(cur, past),
        forall|k: int| 0 <= k < past.len() ==> abs(cur - #[trigger] past[k]) <= motion(cur, past),
        (forall|k: int| 0 <= k < past.len() ==> #[trigger] past[k] == cur) ==> motion(cur, past)
            == 0,
    decreases past.len(),
{
    if past.len() > 0 {
        let rest = past.drop_last();
        lemma_motion(cur, rest);
        assert forall|k: int| 0 <= k < past.len() implies abs(cur - #[trigger] past[k]) <= motion(
            cur,
            past,
        ) by {
            if k < rest.len() {
                assert(rest[k] == past[k]);
            }
        }
        if forall|k: int| 0 <= k < past.len() ==> #[trigger] past[k] == cur {
            assert forall|k: int| 0 <= k < rest.len() implies #[trigger] rest[k] == cur by {
                assert(rest[k] == past[k]);
            }
        }
    }
}

/// Noise reduction never leaves the range that the value and its past span.
pub proof fn law_denoised_stays_in_range(
    cur: i64,
    past: Seq<i64>,
    force_static: bool,
    m: Modulation,
    lo: int,
    hi: int,
)
    requires
        lo <= cur <= hi,
        forall|k: int| 0 <= k < past.len() ==> lo <= #[trigger] past[k] <= hi,
    ensures
        lo <= denoised(cur as int, past, force_static, m) <= hi,
{
    let all = seq![cur] + past;
    let middle = median_of(all);
    crate::offset::lemma_ranked(all, all.len() as int / 2);
    let k = choose|k: int| 0 <= k < all.len() && #[trigger] all[k] == middle;
    if k > 0 {
        assert(all[k] == past[k - 1]);
    }
    assert(lo <= middle <= hi);
    lemma_motion(cur as int, past);
    let moved = motion(cur as int, past) * m.sample_rate;
    let full = m.deviation_hz * 100_000_000;
    assert(0 <= moved) by (nonlinear_arith)
        requires
            moved == motion(cur as int, past) * m.sample_rate,
            0 <= motion(cur as int, past),
            0 <= m.sample_rate,
    ;
    if past.len() > 0 && !force_static && moved < full {
        let num = moved * cur + (full - moved) * middle;
        let q = nearest(num, full);
        assert(full * lo <= num <= full * hi) by (nonlinear_arith)
            requires
                num == moved * cur + (full - moved) * middle,
                0 <= moved < full,
                lo <= cur <= hi,
                lo <= middle <= hi,
        ;
        assert(lo <= q <= hi) by (nonlinear_arith)
            requires
                q == (2 * num + full) / (2 * full),
                full > 0,
                full * lo <= num <= full * hi,
        ;
    }
}

/// What does not change is not changed.
pub proof fn law_still_values_stay(cur: i64, past: Seq<i64>, force_static: bool, m: Modulation)
    requires
        forall|k: int| 0 <= k < past.len() ==> #[trigger] past[k] == cur,
    ensures
        denoised(cur as int, past, force_static, m) == cur,
{
    law_denoised_stays_in_range(cur, past, force_static, m, cur as int, cur as int);
}

/// What moves by a tenth of full deviation or more keeps its current value,
/// unless the field dropped out.
pub proof fn law_moving_values_stay(cur: i64, past: Seq<i64>, m: Modulation)
    requires
        motion(cur as int, past) * m.sample_rate >= m.deviation_hz * 100_000_000,
    ensures
        denoised(cur as int, past, false, m) == cur,
{
}

/// The brightness of a grey pixel can be read back from each of its bytes.
pub proof fn law_brightness_survives_packing(luma: int)
    requires
        0 <= luma <= 255,
    ensures
        0 <= grey(luma) <= u32::MAX,
        grey(luma) % 256 == luma,
        grey(luma) / 256 % 256 == luma,
        grey(luma) / 65536 % 256 == luma,
{
}

/// During a dropout a value comes out as the one in the middle of itself and
/// its past: one of them, with at least half of them on either side.
pub proof fn law_static_value_is_in_the_middle(cur: i64, past: Seq<i64>, m: Modulation)
    requires
        past.len() > 0,
    ensures
        ({
            let all = seq![cur] + past;
            let r = denoised(cur as int, past, true, m);
            &&& 2 * all.filter(|v: i64| v <= r).len() > all.len()
            &&& 2 * all.filter(|v: i64| v >= r).len() >= all.len()
            &&& exists|k: int| 0 <= k < all.len() && #[trigger] all[k] == r
        }),
{
    law_median_parts_the_values(seq![cur] + past);
}

/// During a dropout the majority decides: where more than half of a value and
/// its past lie in a range, so does the result.
pub proof fn law_majority_of_fields_decides(
    cur: i64,
    past: Seq<i64>,
    m: Modulation,
    lo: int,
    hi: int,
)
    requires
        past.len() > 0,
        2 * (seq![cur] + past).filter(|v: i64| lo <= v <= hi).len() > past.len() + 1,
    ensures
        lo <= denoised(cur as int, past, true, m) <= hi,
{
    law_majority_holds_the_median(seq![cur] + past, lo, hi);
}

/// The order in which past fields came does not matter.
pub proof fn law_order_of_past_fields_does_not_matter(
    cur: i64,
    past: Seq<i64>,
    other: Seq<i64>,
    force_static: bool,
    m: Modulation,
)
    requires
        past.to_multiset() == other.to_multiset(),
    ensures
        denoised(cur as int, past, force_static, m) == denoised(
            cur as int,
            other,
            force_static,
            m,
        ),
{
    broadcast use vstd::seq_lib::group_to_multiset_ensures;

    let a = seq![cur] + past;
    let b = seq![cur] + other;
    assert(past.len() == past.to_multiset().len());
    assert(other.len() == other.to_multiset().len());
    vstd::seq_lib::lemma_multiset_commutative(seq![cur], past);
    vstd::seq_lib::lemma_multiset_commutative(seq![cur], other);
    law_rank_ignores_order(a, b, 0);
    lemma_motion_covers(cur as int, past, other);
    lemma_motion_covers(cur as int, other, past);
}

proof fn lemma_motion_covers(cur: int, past: Seq<i64>, other: Seq<i64>)
    requires
        past.to_multiset() == other.to_multiset(),
    ensures
        motion(cur, past) <= motion(cur, other),
{
    broadcast use vstd::seq_lib::group_to_multiset_ensures;

    lemma_motion(cur, other);
    lemma_motion_is_reached(cur, past);
    if past.len() > 0 {
        let k = choose|k: int| 0 <= k < past.len() && abs(cur - #[trigger] past[k]) == motion(
            cur,
            past,
        );
        assert(past.contains(past[k]));
        assert(past.to_multiset().count(past[k]) > 0);
        assert(other.contains(past[k]));
        let j = other.index_of(past[k]);
        assert(other[j] == past[k]);
    } else {
        assert(past.to_multiset().len() == 0);
    }
}

proof fn lemma_motion_is_reached(cur: int, past: Seq<i64>)
    ensures
        past.len() > 0 ==> exists|k: int|
            0 <= k < past.len() && abs(cur - #[trigger] past[k]) == motion(cur, past),
    decreases past.len(),
{
    if past.len() > 0 {
        let rest = past.drop_last();
        lemma_motion_is_reached(cur, rest);
        lemma_motion(cur, rest);
        if abs(cur - past.last()) >= motion(cur, rest) {
            assert(abs(cur - past[past.len() - 1]) == motion(cur, past));
        } else {
            let k = choose|k: int| 0 <= k < rest.len() && abs(cur - #[trigger] rest[k]) == motion(
                cur,
                rest,
            );
            assert(past[k] == rest[k]);
            assert(abs(cur - past[k]) == motion(cur, past));
        }
    }
}

/// A single outlier in the past leaves no trace: where the value and all but
/// one of three or more past values are the same, so is the result, in a
/// dropout or not.
pub proof fn law_single_outlier_is_suppressed(
    cur: i64,
    past: Seq<i64>,
    click: int,
    force_static: bool,
    m: Modulation,
)
    requires
        past.len() >= 3,
        0 <= click < past.len(),
        forall|k: int| 0 <= k < past.len() && k != click ==> #[trigger] past[k] == cur,
    ensures
        denoised(cur as int, past, force_static, m) == cur,
{
    lemma_one_outlier(cur, past, force_static, m, cur as int, click);
}

proof fn lemma_one_outlier(
    cur: i64,
    past: Seq<i64>,
    force_static: bool,
    m: Modulation,
    v: int,
    click: int,
)
    requires
        past.len() >= 3,
        cur == v,
        0 <= click < past.len(),
        forall|k: int| 0 <= k < past.len() && k != click ==> #[trigger] past[k] == v,
    ensures
        denoised(cur as int, past, force_static, m) == v,
{
    let all = seq![cur] + past;
    let keep = |x: i64| v <= x <= v;
    assert forall|k: int| 0 <= k < all.len() && k != click + 1 implies #[trigger] all[k] == v by {
        if k > 0 {
            assert(all[k] == past[k - 1]);
        }
    }
    lemma_all_but_one(all, v, click + 1, all.len() as int);
    assert(all.take(all.len() as int) =~= all);
    law_majority_holds_the_median(all, v, v);
    lemma_blend_leaves_equal_values(cur as int, past, m, v);
}

proof fn lemma_all_but_one(s: Seq<i64>, v: int, j: int, n: int)
    requires
        0 <= n <= s.len(),
        forall|k: int| 0 <= k < s.len() && k != j ==> #[trigger] s[k] == v,
    ensures
        s.take(n).filter(|x: i64| v <= x <= v).len() >= n - 1,
        n <= j ==> s.take(n).filter(|x: i64| v <= x <= v).len() >= n,
    decreases n,
{
    reveal(Seq::filter);
    if n > 0 {
        lemma_all_but_one(s, v, j, n - 1);
        assert(s.take(n).drop_last() =~= s.take(n - 1));
        assert(s.take(n).last() == s[n - 1]);
    }
}

proof fn lemma_blend_leaves_equal_values(cur: int, past: Seq<i64>, m: Modulation, v: int)
    requires
        cur == v,
        i64::MIN <= cur <= i64::MAX,
        past.len() > 0,
        median_of(seq![cur as i64] + past) == v,
    ensures
        denoised(cur, past, false, m) == v,
        denoised(cur, past, true, m) == v,
{
    let moved = motion(cur, past) * m.sample_rate;
    let full = m.deviation_hz * 100_000_000;
    if moved < full {
        lemma_motion(cur, past);
        assert(0 <= moved) by (nonlinear_arith)
            requires
                moved == motion(cur, past) * m.sample_rate,
                0 <= motion(cur, past),
                0 <= m.sample_rate,
        ;
        let num = moved * v + (full - moved) * v;
        assert(num == full * v) by (nonlinear_arith)
            requires
                num == moved * v + (full - moved) * v,
        ;
        assert((2 * (full * v) + full) / (2 * full) == v) by (nonlinear_arith)
            requires
                full > 0,
        ;
    }
}

/// How motion is weighed. `moved` is the largest distance of the value from
/// its past. Outside a dropout the result stands as far from what a dropout
/// would show, on the way to the value itself, as `moved` stands to a tenth of
/// full deviation, to the nearest unit; from there on it is the value.
pub proof fn law_motion_weighs_the_value(cur: i64, past: Seq<i64>, m: Modulation, moved: int, k: int)
    requires
        0 <= k < past.len(),
        moved == cur - past[k] || moved == past[k] - cur,
        forall|j: int| 0 <= j < past.len() ==> -moved <= cur - #[trigger] past[j] <= moved,
    ensures
        ({
            let r = denoised(cur as int, past, false, m);
            let still = denoised(cur as int, past, true, m);
            let full = m.deviation_hz * 100_000_000;
            let w = moved * m.sample_rate;
            &&& w >= full ==> r == cur
            &&& w < full ==> -full <= 2 * (full * (r - still) - w * (cur - still)) <= full
        }),
{
    lemma_motion(cur as int, past);
    lemma_motion_is_reached(cur as int, past);
    assert(abs(cur - past[k]) <= motion(cur as int, past));
    let j = choose|j: int| 0 <= j < past.len() && abs(cur - #[trigger] past[j]) == motion(
        cur as int,
        past,
    );
    assert(-moved <= cur - past[j] <= moved);
    assert(motion(cur as int, past) == moved);
    let still = denoised(cur as int, past, true, m);
    let full = m.deviation_hz * 100_000_000;
    let w = moved * m.sample_rate;
    if w < full {
        let num = w * cur + (full - w) * still;
        let r = nearest(num, full);
        assert(num == full * still + w * (cur - still)) by (nonlinear_arith)
            requires
                num == w * cur + (full - w) * still,
        ;
        assert(-full <= 2 * (full * r - num) <= full) by (nonlinear_arith)
            requires
                r == (2 * num + full) / (2 * full),
                full > 0,
        ;
        assert(full * (r - still) == full * r - full * still) by (nonlinear_arith);
    }
}

/// The past of a place is what the newest fields show there, eight at most.
pub proof fn law_past_is_the_newest_fields(
    history: Seq<(Seq<i64>, FieldMeta)>,
    i: int,
    n: int,
)
    ensures
        past_values(history, i).len() <= 8,
        past_values(history, i).len() <= history.len(),
        history.len() <= 8 ==> past_values(history, i).len() == history.len(),
        history.len() > 8 ==> past_values(history, i).len() == 8,
        0 <= n < past_values(history, i).len() ==> past_values(history, i)[n]
            == history[history.len() - 1 - n].0[i],
{
}

/// Only what dropped out is concealed, and only where a field came before.
pub proof fn law_good_values_are_shown(
    values: Seq<i64>,
    marks: Seq<bool>,
    before: Option<Seq<i64>>,
    width: int,
    rows: int,
    how: Concealment,
    row: int,
    c: int,
)
    requires
        0 <= c < width,
        !marks[row * width + c] || before is None,
    ensures
        concealed_row(values, marks, before, width, rows, how, row)[c] == values[row * width + c],
{
}

/// A dropout shows the field before where its neighbours above and below are
/// no help: they dropped out too, are outside the field, or are not asked.
pub proof fn law_dropout_without_neighbours_shows_the_past(
    values: Seq<i64>,
    marks: Seq<bool>,
    before: Seq<i64>,
    width: int,
    rows: int,
    how: Concealment,
    row: int,
    c: int,
)
    requires
        0 <= c < width,
        0 <= row < rows,
        marks[row * width + c],
        !how.smart || ((row == 0 || marks[(row - 1) * width + c]) && (row + 1 == rows || marks[(row
            + 1) * width + c])),
    ensures
        concealed_row(values, marks, Some(before), width, rows, how, row)[c] == before[row * width
            + c],
{
    lemma_neighbours(width, rows, row, c);
}

proof fn lemma_neighbours(width: int, rows: int, row: int, c: int)
    requires
        0 <= c < width,
        0 <= row < rows,
    ensures
        row * width + c - width == (row - 1) * width + c,
        row * width + c + width == (row + 1) * width + c,
        row * width + c >= width <==> row >= 1,
        row * width + c + width < rows * width <==> row + 1 < rows,
{
    assert((row - 1) * width == row * width - width) by (nonlinear_arith);
    assert((row + 1) * width == row * width + width) by (nonlinear_arith);
    assert(row >= 1 ==> row * width >= width) by (nonlinear_arith)
        requires
            width > 0,
    ;
    assert(row + 1 < rows ==> (row + 2) * width <= rows * width) by (nonlinear_arith)
        requires
            width > 0,
    ;
    assert((row + 2) * width == row * width + 2 * width) by (nonlinear_arith);
    assert(row + 1 == rows ==> rows * width == row * width + width) by (nonlinear_arith);
    assert(row == 0 ==> row * width == 0) by (nonlinear_arith);
}

/// A dropout with good neighbours is mixed of their mean and the field before,
/// at the configured weight, to the nearest unit. With one good neighbour that
/// one is the mean.
pub proof fn law_dropout_is_mixed_of_neighbours_and_past(
    values: Seq<i64>,
    marks: Seq<bool>,
    before: Seq<i64>,
    width: int,
    rows: int,
    how: Concealment,
    row: int,
    c: int,
)
    requires
        0 <= c < width,
        0 <= row < rows,
        how.smart,
        how.spatial_weight <= 1000,
    ensures
        ({
            let r = concealed(values, marks, before, width, rows, how, row * width + c);
            let w = how.spatial_weight as int;
            let past = before[row * width + c];
            let up_good = row > 0 && !marks[(row - 1) * width + c];
            let down_good = row + 1 < rows && !marks[(row + 1) * width + c];
            let up = values[(row - 1) * width + c];
            let down = values[(row + 1) * width + c];
            &&& up_good && down_good ==> -1000 <= 2000 * r - (w * up + w * down + 2 * ((1000 - w)
                * past)) <= 1000
            &&& up_good && !down_good ==> -500 <= 1000 * r - (w * up + (1000 - w) * past) <= 500
            &&& !up_good && down_good ==> -500 <= 1000 * r - (w * down + (1000 - w) * past) <= 500
        }),
{
    lemma_neighbours(width, rows, row, c);
    let w = how.spatial_weight as int;
    let past = before[row * width + c] as int;
    let up = values[(row - 1) * width + c] as int;
    let down = values[(row + 1) * width + c] as int;
    let i = row * width + c;
    let rest = (1000 - w) * past;
    assert(2 * past * (1000 - w) == 2 * rest) by (nonlinear_arith)
        requires
            rest == (1000 - w) * past,
    ;
    assert(1 * past * (1000 - w) == rest) by (nonlinear_arith)
        requires
            rest == (1000 - w) * past,
    ;
    assert((up + down) * w == w * up + w * down) by (nonlinear_arith);
    assert((up + 0) * w == w * up) by (nonlinear_arith);
    assert((0 + down) * w == w * down) by (nonlinear_arith);
    let up_good = row > 0 && !marks[(row - 1) * width + c];
    let down_good = row + 1 < rows && !marks[(row + 1) * width + c];
    let r = concealed(values, marks, before, width, rows, how, i);
    if up_good && down_good {
        let num = w * up + w * down + 2 * rest;
        assert(r == (2 * num + 2000) / 4000int);
    } else if up_good {
        let num = w * up + rest;
        assert(r == (2 * num + 1000) / 2000int);
    } else if down_good {
        let num = w * down + rest;
        assert(r == (2 * num + 1000) / 2000int);
    }
}

/// What dropped out does not count: two fields that differ only in values that
/// are marked, at places other than the one looked at, conceal it alike.
pub proof fn law_marked_values_do_not_count(
    a: Seq<i64>,
    b: Seq<i64>,
    marks: Seq<bool>,
    before: Seq<i64>,
    width: int,
    rows: int,
    how: Concealment,
    i: int,
)
    requires
        forall|j: int| !(#[trigger] marks[j]) ==> a[j] == b[j],
    ensures
        concealed(a, marks, before, width, rows, how, i) == concealed(
            b,
            marks,
            before,
            width,
            rows,
            how,
            i,
        ),
{
}

/// Sharpening moves a value away from each of its neighbours by a fifth of the
/// distance; the outermost columns have none.
pub proof fn law_sharpening_moves_away_from_neighbours(line: Seq<i64>, col: int)
    requires
        0 <= col < line.len(),
    ensures
        0 < col < line.len() - 1 ==> sharpened5(line, col) - 5 * line[col] == (line[col] - line[col
            - 1]) + (line[col] - line[col + 1]),
        col == 0 || col == line.len() - 1 ==> sharpened5(line, col) == 5 * line[col],
{
}

/// Brightness is the nearest of 256 steps from blanking to full deviation, and
/// never leaves them. Five times a value `v` is given, so that full deviation
/// is `v * sample_rate == 1e9 * deviation`.
pub proof fn law_brightness_is_in_proportion(value5: int, m: Modulation)
    ensures
        ({
            let l = luma(value5, m);
            let at = value5 * m.sample_rate;
            let full = 5_000_000_000 * m.deviation_hz;
            &&& 0 <= l <= 255
            &&& at <= 0 ==> l == 0
            &&& at > 0 && at >= full ==> l == 255
            &&& 0 < at < full ==> -full <= 2 * (l * full - 255 * at) <= full
        }),
{
    let num = value5 * m.sample_rate;
    let den = 5 * (m.deviation_hz * 1_000_000_000);
    if 0 < num < den {
        let l = nearest(255 * num, den);
        assert(0 <= l <= 255 && -den <= 2 * (l * den - 255 * num) <= den) by (nonlinear_arith)
            requires
                l == (2 * (255 * num) + den) / (2 * den),
                0 < num < den,
        ;
    }
}

/// A brighter value never shows darker.
pub proof fn law_brightness_keeps_order(a: int, b: int, m: Modulation)
    requires
        a <= b,
    ensures
        luma(a, m) <= luma(b, m),
{
    let x = a * m.sample_rate;
    let y = b * m.sample_rate;
    let den = 5 * (m.deviation_hz * 1_000_000_000);
    assert(x <= y) by (nonlinear_arith)
        requires
            x == a * m.sample_rate,
            y == b * m.sample_rate,
            a <= b,
            m.sample_rate >= 0,
    ;
    law_brightness_is_in_proportion(a, m);
    law_brightness_is_in_proportion(b, m);
    if 0 < x && y < den {
        assert((2 * (255 * x) + den) / (2 * den) <= (2 * (255 * y) + den) / (2 * den))
            by (nonlinear_arith)
            requires
                x <= y,
                den > 0,
        ;
    }
}

/// A grey pixel is opaque, and its three colours are its brightness.
pub proof fn law_grey_is_opaque_and_grey(luma: int)
    requires
        0 <= luma <= 255,
    ensures
        grey(luma) == 0xff00_0000 + luma * 65_536 + luma * 256 + luma,
        grey(luma) / 0x100_0000 == 255,
{
}

/// Where a pixel comes from. Row `2 * row + parity` of a frame shows line
/// `row` of the field, from column `crop` on; the rows of the other parity
/// show what the frame before showed; rows beyond the lines that were read are
/// empty.
pub proof fn law_pixels_come_from_their_line(
    y: Seq<i64>,
    before: Seq<u32>,
    line_width: int,
    crop: int,
    width: int,
    height: int,
    rows: int,
    parity: int,
    m: Modulation,
    row: int,
    half: int,
    col: int,
)
    requires
        0 <= parity <= 1,
        0 <= half <= 1,
        0 <= row,
        0 <= col < width,
        2 * row + half < height,
        0 <= crop,
        crop + width <= line_width,
        rows * line_width <= y.len(),
    ensures
        ({
            let i = (2 * row + half) * width + col;
            let shown = merged(
                y,
                before,
                line_width,
                crop,
                width,
                height,
                rows,
                parity,
                m,
            )[i];
            let at = row * line_width + crop + col;
            &&& 0 <= i < height * width
            &&& row >= rows ==> shown == 0
            &&& row < rows && half != parity ==> shown == before[i]
            &&& row < rows && half == parity && 0 < crop + col < line_width - 1 ==> shown % 256
                == luma(7 * y[at] - y[at - 1] - y[at + 1], m)
            &&& row < rows && half == parity && (crop + col == 0 || crop + col == line_width - 1)
                ==> shown % 256 == luma(5 * y[at], m)
        }),
{
    let out_row = 2 * row + half;
    let i = out_row * width + col;
    assert(i / width == out_row && i % width == col) by (nonlinear_arith)
        requires
            i == out_row * width + col,
            0 <= col < width,
    ;
    assert(0 <= i < height * width) by (nonlinear_arith)
        requires
            i == out_row * width + col,
            0 <= col < width,
            0 <= out_row < height,
    ;
    assert(out_row / 2 == row && out_row % 2 == half);
    if row < rows && half == parity {
        let line = y.subrange(row * line_width, (row + 1) * line_width);
        let c = crop + col;
        assert((row + 1) * line_width == row * line_width + line_width) by (nonlinear_arith);
        assert((row + 1) * line_width <= rows * line_width) by (nonlinear_arith)
            requires
                row + 1 <= rows,
                line_width > 0,
        ;
        assert(0 <= row * line_width) by (nonlinear_arith)
            requires
                0 <= row,
                line_width > 0,
        ;
        let l = luma(sharpened5(line, c), m);
        law_brightness_is_in_proportion(sharpened5(line, c), m);
        law_brightness_survives_packing(l);
    }
}

/// A place of a cleaned field without the notch: its value, concealed where it
/// dropped out and then denoised by what recent fields show there. One that
/// did not drop out is denoised alone.
pub proof fn law_values_are_concealed_then_denoised<N: Fn(&Vec<i64>) -> Vec<i64>>(
    f: FieldInput,
    notch: N,
    y: Seq<i64>,
    row: int,
    c: int,
)
    requires
        field_cleaned(f, notch, y),
        !f.notch_enabled,
        0 <= row < f.rows,
        0 <= c < f.width,
    ensures
        ({
            let i = row * f.width + c;
            let past = past_values(f.history, i);
            &&& !f.marks[i] || f.before is None ==> y[i] == denoised(
                f.values[i] as int,
                past,
                f.force_static,
                f.m,
            )
            &&& f.marks[i] && f.before is Some ==> y[i] == denoised(
                concealed(
                    f.values,
                    f.marks,
                    f.before.unwrap(),
                    f.width,
                    f.rows,
                    f.how,
                    i,
                ) as i64 as int,
                past,
                f.force_static,
                f.m,
            )
        }),
{
    assert(row_cleaned(f, notch, row, y));
    let line = choose|line: Vec<i64>|
        {
            &&& #[trigger] notched(
                concealed_row(f.values, f.marks, f.before, f.width, f.rows, f.how, row),
                f.notch_enabled,
                notch,
                line,
            )
            &&& line.len() == f.width
            &&& forall|c: int|
                0 <= c < f.width ==> y[row * f.width + c] == denoised(
                    #[trigger] line@[c] as int,
                    past_values(f.history, row * f.width + c),
                    f.force_static,
                    f.m,
                )
        };
    assert(y[row * f.width + c] == denoised(
        line@[c] as int,
        past_values(f.history, row * f.width + c),
        f.force_static,
        f.m,
    ));
}

/// With the notch, a row is concealed first, then notched as a whole, and each
/// value of what the notch gives is denoised.
pub proof fn law_rows_are_notched_before_denoising<N: Fn(&Vec<i64>) -> Vec<i64>>(
    f: FieldInput,
    notch: N,
    y: Seq<i64>,
    row: int,
) -> (r: (Vec<i64>, Vec<i64>))
    requires
        field_cleaned(f, notch, y),
        f.notch_enabled,
        0 <= row < f.rows,
    ensures
        r.0@ == concealed_row(f.values, f.marks, f.before, f.width, f.rows, f.how, row),
        notch.ensures((&r.0,), r.1),
        forall|c: int|
            0 <= c < f.width ==> y[row * f.width + c] == denoised(
                #[trigger] r.1@[c] as int,
                past_values(f.history, row * f.width + c),
                f.force_static,
                f.m,
            ),
{
    assert(row_cleaned(f, notch, row, y));
    let line = choose|line: Vec<i64>|
        {
            &&& #[trigger] notched(
                concealed_row(f.values, f.marks, f.before, f.width, f.rows, f.how, row),
                f.notch_enabled,
                notch,
                line,
            )
            &&& line.len() == f.width
            &&& forall|c: int|
                0 <= c < f.width ==> y[row * f.width + c] == denoised(
                    #[trigger] line@[c] as int,
                    past_values(f.history, row * f.width + c),
                    f.force_static,
                    f.m,
                )
        };
    let w = choose|w: Vec<i64>|
        w@ == concealed_row(f.values, f.marks, f.before, f.width, f.rows, f.how, row)
            && #[trigger] notch.ensures((&w,), line);
    (w, line)
}

} // verus!
