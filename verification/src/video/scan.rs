//! Reading the lines of a field off a record, along its grid.

use vstd::prelude::*;

use super::grid::{MAX_PERIOD, MAX_ROWS, MAX_START};
use super::line::{
    agc_after, dilated, dropouts, level_line, levelled, mark_dropouts, resample_line, resampled,
    within, Agc, Modulation, MAX_LEVELLED,
};
use super::sync::{law_nearest_is_within_half, nearest, nearest_div, sample_at, MAX_RECORD, SUBSAMPLE};

verus! {

/// Lines at even distances.
#[derive(Clone, Copy)]
pub struct LineGrid {
    /// Where the sync tip of the first row lies.
    pub start: i64,
    /// From one row to the next.
    pub period: i64,
    pub rows: usize,
}

impl LineGrid {
    pub open spec fn wf(self) -> bool {
        &&& -MAX_START <= self.start <= MAX_START
        &&& 0 <= self.period <= MAX_PERIOD
        &&& self.rows <= MAX_ROWS
    }

    /// Where the sync tip of a row lies.
    pub open spec fn position(self, row: int) -> int {
        self.start + row * self.period
    }

    pub fn position_of(&self, row: usize) -> (p: i64)
        requires
            self.wf(),
            row <= MAX_ROWS,
        ensures
            p == self.position(row as int),
            -MAX_START <= p <= 2 * MAX_START,
    {
        assert(0 <= row * self.period <= 0x1_0000_0000_0000) by (nonlinear_arith)
            requires
                0 <= row <= 512,
                0 <= self.period <= 0x80_0000_0000,
        ;
        self.start + row as i64 * self.period
    }
}

/// How far a line starts ahead of the centre of its sync tip: 2.35 us.
pub open spec fn sync_lead(sample_rate: int) -> int {
    nearest(47 * sample_rate, 20)
}

/// The samples that a row is read from: the first one, how far into it the
/// line starts, and the last one. Nothing where the record does not hold
/// them.
pub open spec fn line_span(len: int, grid: LineGrid, row: int, sample_rate: int) -> Option<
    (int, int, int),
> {
    let lead = sync_lead(sample_rate);
    let from = grid.position(row) - lead;
    let to = grid.position(row) + grid.period - lead;
    let first = from / 1_000_000;
    let last = (to + 999_999) / 1_000_000;
    if sample_at(grid.position(row) + grid.period) >= len || from < 0 || to >= len * SUBSAMPLE
        || last >= len || last == first {
        None
    } else {
        Some((first, from % 1_000_000, last))
    }
}

/// The first row from `row` on that cannot be read, or the number of rows.
pub open spec fn readable_rows(len: int, grid: LineGrid, sample_rate: int, row: int) -> int
    decreases grid.rows - row,
{
    if row >= grid.rows || line_span(len, grid, row, sample_rate) is None {
        row
    } else {
        readable_rows(len, grid, sample_rate, row + 1)
    }
}

/// What a row reads, resampled to `width` columns.
pub open spec fn line_values(
    s: Seq<i32>,
    grid: LineGrid,
    row: int,
    sample_rate: int,
    width: int,
) -> Seq<i64> {
    match line_span(s.len() as int, grid, row, sample_rate) {
        Some((first, frac, last)) => resampled(
            s.subrange(first, last + 1),
            frac,
            grid.period as int,
            width,
        ),
        None => Seq::empty(),
    }
}

/// The level control before a row.
pub open spec fn agc_before(
    s: Seq<i32>,
    grid: LineGrid,
    m: Modulation,
    width: int,
    agc: Agc,
    row: int,
) -> Agc
    decreases row,
{
    if row <= 0 {
        agc
    } else {
        agc_after(
            agc_before(s, grid, m, width, agc, row - 1),
            line_values(s, grid, row - 1, m.sample_rate as int, width),
            m,
        )
    }
}

/// A row, levelled.
pub open spec fn row_values(
    s: Seq<i32>,
    grid: LineGrid,
    m: Modulation,
    width: int,
    agc: Agc,
    row: int,
) -> Seq<i64> {
    levelled(
        line_values(s, grid, row, m.sample_rate as int, width),
        agc_before(s, grid, m, width, agc, row + 1),
    )
}

/// Where a row dropped out.
pub open spec fn row_marks(
    s: Seq<i32>,
    grid: LineGrid,
    m: Modulation,
    width: int,
    row: int,
) -> Seq<bool> {
    dilated(dropouts(line_values(s, grid, row, m.sample_rate as int, width), m))
}

/// A field of `lines` rows, one after the other: the first `rows` of them as
/// read, the rest zero.
pub open spec fn field_values(
    s: Seq<i32>,
    grid: LineGrid,
    m: Modulation,
    width: int,
    agc: Agc,
    lines: int,
    rows: int,
) -> Seq<i64> {
    Seq::new(
        (lines * width) as nat,
        |i: int|
            if i / width < rows {
                row_values(s, grid, m, width, agc, i / width)[i % width]
            } else {
                0
            },
    )
}

/// Where a field dropped out.
pub open spec fn field_marks(
    s: Seq<i32>,
    grid: LineGrid,
    m: Modulation,
    width: int,
    lines: int,
    rows: int,
) -> Seq<bool> {
    Seq::new(
        (lines * width) as nat,
        |i: int|
            if i / width < rows {
                row_marks(s, grid, m, width, i / width)[i % width]
            } else {
                false
            },
    )
}

/// [`line_span`].
fn span_of(len: usize, grid: &LineGrid, row: usize, sample_rate: u32) -> (r: Option<
    (usize, i64, usize),
>)
    requires
        len <= MAX_RECORD,
        grid.wf(),
        row < grid.rows,
    ensures
        match r {
            Some((first, frac, last)) => line_span(
                len as int,
                *grid,
                row as int,
                sample_rate as int,
            ) == Some((first as int, frac as int, last as int)) && first < last < len && 0 <= frac
                < SUBSAMPLE,
            None => line_span(len as int, *grid, row as int, sample_rate as int) is None,
        },
{
    let p: i64 = grid.position_of(row);
    let lead: i64 = nearest_div(47 * sample_rate as i128, 20) as i64;
    let from: i64 = p - lead;
    let to: i64 = p + grid.period - lead;
    let next0: i128 = nearest_div((p + grid.period) as i128, SUBSAMPLE as i128);
    let next: i128 = if next0 >= 0 {
        next0
    } else {
        0
    };
    if next >= len as i128 || from < 0 || to >= len as i64 * SUBSAMPLE {
        return None;
    }
    let first: i64 = from / 1_000_000;
    let last: i64 = (to + 999_999) / 1_000_000;
    if last >= len as i64 || last == first {
        return None;
    }
    Some((first as usize, from % 1_000_000, last as usize))
}

/// A field as it was read.
pub struct FieldScan {
    pub values: Vec<i64>,
    pub marks: Vec<bool>,
    pub rows: usize,
    pub agc: Agc,
}

pub proof fn lemma_cell(width: int, row: int, col: int)
    requires
        0 <= col < width,
        0 <= row,
    ensures
        (row * width + col) / width == row,
        (row * width + col) % width == col,
        0 <= row * width,
{
    assert(0 <= row * width) by (nonlinear_arith)
        requires
            0 <= row,
            0 < width,
    ;
    vstd::arithmetic::div_mod::lemma_fundamental_div_mod_converse(
        row * width + col,
        width,
        row,
        col,
    );
}

pub proof fn lemma_cells(width: int, lines: int, row: int)
    requires
        0 < width,
        0 <= row <= lines,
    ensures
        0 <= row * width <= lines * width,
        (row + 1) * width == row * width + width,
        row < lines ==> row * width + width <= lines * width,
{
    assert(0 <= row * width <= lines * width) by (nonlinear_arith)
        requires
            0 < width,
            0 <= row <= lines,
    ;
    assert((row + 1) * width == row * width + width) by (nonlinear_arith);
    if row < lines {
        assert((row + 1) * width <= lines * width) by (nonlinear_arith)
            requires
                0 < width,
                row + 1 <= lines,
        ;
    }
}

/// Append one row's values to those of the rows before it.
proof fn lemma_append_row<A>(whole: Seq<A>, line: Seq<A>, width: int, lines: int, row: int)
    requires
        0 < width,
        0 <= row < lines,
        whole.len() == lines * width,
        line.len() == width,
        forall|c: int| 0 <= c < width ==> whole[row * width + c] == #[trigger] line[c],
    ensures
        whole.take(row * width) + line == whole.take((row + 1) * width),
{
    lemma_cells(width, lines, row);
    let a = whole.take(row * width) + line;
    let b = whole.take((row + 1) * width);
    assert forall|i: int| 0 <= i < a.len() implies a[i] == b[i] by {
        if i >= row * width {
            let c = i - row * width;
            assert(whole[row * width + c] == line[c]);
        }
    }
    assert(a =~= b);
}

/// Read a field along its grid. It ends at the first row that the record does
/// not hold.
pub fn scan_field(
    demod: &[i32],
    grid: &LineGrid,
    m: &Modulation,
    agc: &Agc,
    width: usize,
    lines: usize,
) -> (r: FieldScan)
    requires
        demod.len() <= MAX_RECORD,
        grid.wf(),
        agc.wf(),
        100 <= width <= 0x1000,
        grid.rows <= lines <= MAX_ROWS,
    ensures
        r.rows == readable_rows(demod.len() as int, *grid, m.sample_rate as int, 0),
        r.rows <= grid.rows,
        r.values@ == field_values(
            demod@,
            *grid,
            *m,
            width as int,
            *agc,
            lines as int,
            r.rows as int,
        ),
        r.marks@ == field_marks(demod@, *grid, *m, width as int, lines as int, r.rows as int),
        r.agc == agc_before(demod@, *grid, *m, width as int, *agc, r.rows as int),
        r.agc.wf(),
        within(r.values@, MAX_LEVELLED as int),
        r.values.len() == lines * width,
        r.marks.len() == lines * width,
{
    let n: usize = demod.len();
    let ghost w = width as int;
    let ghost rows = readable_rows(n as int, *grid, m.sample_rate as int, 0);
    let ghost values = field_values(demod@, *grid, *m, w, *agc, lines as int, rows);
    let ghost marks = field_marks(demod@, *grid, *m, w, lines as int, rows);
    let mut r: FieldScan = FieldScan { values: Vec::new(), marks: Vec::new(), rows: 0, agc: *agc };
    proof {
        lemma_cells(w, lines as int, 0);
        assert(values.take(0) =~= Seq::empty());
        assert(marks.take(0) =~= Seq::empty());
    }
    let mut row: usize = 0;
    let mut more: bool = true;
    while more && row < grid.rows
        invariant
            n == demod.len() <= MAX_RECORD,
            grid.wf(),
            100 <= width <= 0x1000,
            w == width,
            grid.rows <= lines <= MAX_ROWS,
            row <= grid.rows,
            rows == readable_rows(n as int, *grid, m.sample_rate as int, 0),
            rows == readable_rows(n as int, *grid, m.sample_rate as int, row as int),
            more || rows == row,
            values == field_values(demod@, *grid, *m, w, *agc, lines as int, rows),
            marks == field_marks(demod@, *grid, *m, w, lines as int, rows),
            r.values@ == values.take(row * w),
            r.marks@ == marks.take(row * w),
            r.agc == agc_before(demod@, *grid, *m, w, *agc, row as int),
            r.agc.wf(),
            within(r.values@, MAX_LEVELLED as int),
        decreases
                grid.rows - row,
                if more {
                    1int
                } else {
                    0int
                },
    {
        match span_of(n, grid, row, m.sample_rate) {
            None => {
                more = false;
            },
            Some((first, frac, last)) => {
                let raw: &[i32] = vstd::slice::slice_subrange(demod, first, last + 1);
                let line: Vec<i64> = resample_line(raw, frac, grid.period, width);
                let marked: Vec<bool> = mark_dropouts(&line, m);
                let (next, level): (Agc, Vec<i64>) = level_line(&r.agc, &line, m);
                proof {
                    lemma_readable_bound(n as int, *grid, m.sample_rate as int, row + 1);
                    lemma_cells(w, lines as int, row as int);
                    assert(line@ == line_values(demod@, *grid, row as int, m.sample_rate as int, w));
                    assert forall|c: int| 0 <= c < w implies values[row * w + c]
                        == #[trigger] level@[c] by {
                        lemma_cell(w, row as int, c);
                    }
                    assert forall|c: int| 0 <= c < w implies marks[row * w + c]
                        == #[trigger] marked@[c] by {
                        lemma_cell(w, row as int, c);
                    }
                    lemma_append_row(values, level@, w, lines as int, row as int);
                    lemma_append_row(marks, marked@, w, lines as int, row as int);
                }
                crate::seqs::append_copies(&mut r.values, level.as_slice());
                crate::seqs::append_copies(&mut r.marks, marked.as_slice());
                r.agc = next;
                row += 1;
            },
        }
    }
    assert(rows == row);
    r.rows = row;
    proof {
        lemma_cells(w, lines as int, row as int);
        assert(lines * width <= 512 * 0x1000) by (nonlinear_arith)
            requires
                lines <= 512,
                width <= 0x1000,
        ;
    }
    let size: usize = lines * width;
    while r.values.len() < size
        invariant
            size == lines * w,
            0 < w,
            0 <= row,
            rows == row,
            r.rows == row,
            r.agc == agc_before(demod@, *grid, *m, w, *agc, row as int),
            r.agc.wf(),
            values == field_values(demod@, *grid, *m, w, *agc, lines as int, rows),
            marks == field_marks(demod@, *grid, *m, w, lines as int, rows),
            row * w <= r.values.len() <= size,
            r.marks.len() == r.values.len(),
            r.values@ == values.take(r.values.len() as int),
            r.marks@ == marks.take(r.values.len() as int),
            within(r.values@, MAX_LEVELLED as int),
        decreases size - r.values.len(),
    {
        proof {
            let i = r.values.len() as int;
            assert(i / w >= row) by (nonlinear_arith)
                requires
                    i >= row * w,
                    w > 0,
            ;
        }
        r.values.push(0);
        r.marks.push(false);
        assert(r.values@ =~= values.take(r.values.len() as int));
        assert(r.marks@ =~= marks.take(r.values.len() as int));
    }
    assert(r.values@ =~= values);
    assert(r.marks@ =~= marks);
    r
}

proof fn lemma_readable_bound(len: int, grid: LineGrid, sample_rate: int, row: int)
    ensures
        row <= readable_rows(len, grid, sample_rate, row),
        row <= grid.rows ==> readable_rows(len, grid, sample_rate, row) <= grid.rows,
    decreases grid.rows - row,
{
    if row < grid.rows && line_span(len, grid, row, sample_rate) is Some {
        lemma_readable_bound(len, grid, sample_rate, row + 1);
    }
}

/// Neighbouring rows of a field start exactly one line period apart, however
/// their own sync tips wandered.
pub proof fn law_rows_are_evenly_spaced(grid: LineGrid, row: int)
    ensures
        grid.position(row + 1) - grid.position(row) == grid.period,
{
    assert((row + 1) * grid.period == row * grid.period + grid.period) by (nonlinear_arith);
}

/// A line starts 2.35 microseconds ahead of the centre of its sync tip, to
/// half a millionth of a sample.
pub proof fn law_line_leads_its_sync(sample_rate: int)
    ensures
        -20 < 2 * (20 * sync_lead(sample_rate) - 47 * sample_rate) <= 20,
{
    law_nearest_is_within_half(47 * sample_rate, 20);
}

/// The samples of a row hold its line whole and no more than that: the line
/// starts in the first of them, `frac` into it, and ends no later than the
/// last and later than the one before.
pub proof fn law_span_holds_the_line(len: int, grid: LineGrid, row: int, sample_rate: int)
    requires
        line_span(len, grid, row, sample_rate) is Some,
    ensures
        ({
            let (first, frac, last) = line_span(len, grid, row, sample_rate).unwrap();
            let from = grid.start + row * grid.period - sync_lead(sample_rate);
            let to = from + grid.period;
            &&& first * 1_000_000 + frac == from
            &&& 0 <= frac < 1_000_000
            &&& (last - 1) * 1_000_000 < to <= last * 1_000_000
            &&& 0 <= first
            &&& last < len
            &&& first != last
        }),
{
}

/// A row is read exactly where the record holds it: the line starts inside the
/// record and ends at least a sample before its end, the next sync tip lies in
/// the record, and the line is not empty.
pub proof fn law_held_lines_are_read(len: int, grid: LineGrid, row: int, sample_rate: int)
    requires
        grid.position(row) + grid.period >= 0,
        grid.period >= 0,
    ensures
        ({
            let from = grid.start + row * grid.period - sync_lead(sample_rate);
            let to = from + grid.period;
            let next = grid.start + (row + 1) * grid.period;
            line_span(len, grid, row, sample_rate) is Some <==> {
                &&& 0 <= from
                &&& to <= (len - 1) * 1_000_000
                &&& next < len * 1_000_000 - 500_000
                &&& !(from % 1_000_000 == 0 && to == from)
            }
        }),
{
    let next = grid.start + (row + 1) * grid.period;
    assert((row + 1) * grid.period == row * grid.period + grid.period) by (nonlinear_arith);
    assert(next == grid.position(row) + grid.period);
    law_nearest_is_within_half(next, 1_000_000);
}

/// Rows are read up to the first that the record does not hold.
pub proof fn law_rows_are_read_while_held(len: int, grid: LineGrid, sample_rate: int, row: int)
    requires
        0 <= row <= grid.rows,
    ensures
        ({
            let n = readable_rows(len, grid, sample_rate, row);
            &&& row <= n <= grid.rows
            &&& forall|r: int| row <= r < n ==> #[trigger] line_span(len, grid, r, sample_rate) is Some
            &&& n < grid.rows ==> line_span(len, grid, n, sample_rate) is None
        }),
    decreases grid.rows - row,
{
    if row < grid.rows && line_span(len, grid, row, sample_rate) is Some {
        law_rows_are_read_while_held(len, grid, sample_rate, row + 1);
    }
}

/// Each row of a field is its line, levelled by what the level control has
/// made of the lines up to and with its own; the rows that were not read are
/// zero and unmarked.
pub proof fn law_field_is_made_of_its_rows(
    s: Seq<i32>,
    grid: LineGrid,
    m: Modulation,
    width: int,
    agc: Agc,
    lines: int,
    rows: int,
    row: int,
    col: int,
)
    requires
        0 <= row < lines,
        0 <= col < width,
        rows <= lines,
    ensures
        ({
            let at = row * width + col;
            let values = field_values(s, grid, m, width, agc, lines, rows);
            let marks = field_marks(s, grid, m, width, lines, rows);
            let line = line_values(s, grid, row, m.sample_rate as int, width);
            let before = agc_before(s, grid, m, width, agc, row);
            &&& values.len() == marks.len() == lines * width
            &&& row == 0 ==> before == agc
            &&& agc_before(s, grid, m, width, agc, row + 1) == agc_after(before, line, m)
            &&& row < rows ==> values[at] == levelled(line, agc_after(before, line, m))[col]
            &&& row < rows ==> marks[at] == dilated(dropouts(line, m))[col]
            &&& row >= rows ==> values[at] == 0 && !marks[at]
        }),
{
    let at = row * width + col;
    assert(at / width == row && at % width == col && 0 <= at < lines * width) by (nonlinear_arith)
        requires
            at == row * width + col,
            0 <= row < lines,
            0 <= col < width,
    ;
}

} // verus!
