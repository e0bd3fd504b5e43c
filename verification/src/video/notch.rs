//! Whether the colour subcarrier is notched out.
//!
//! Many cameras send no colour burst; for those the notch would delete real
//! detail. So the back porch of each field is searched for a burst, and the
//! notch follows once several fields in a row agree.

use vstd::prelude::*;

use super::grid::MAX_ROWS;
use super::scan::lemma_cells;

verus! {

/// Fields in a row that must disagree with the notch before it flips.
pub const NOTCH_HYSTERESIS_FIELDS: u8 = 3;

/// From one searched row to the next.
pub open spec fn burst_step(rows: int) -> int {
    if rows / 32 >= 1 {
        rows / 32
    } else {
        1
    }
}

/// How many rows are searched.
pub open spec fn burst_rows(rows: int) -> int {
    (rows + burst_step(rows) - 1) / burst_step(rows)
}

/// Where the burst of a row lies among the values of a field: from seven to
/// fourteen hundredths of the line.
pub open spec fn burst_window(values: Seq<i64>, width: int, row: int) -> Seq<i64> {
    values.subrange(row * width + width * 7 / 100, row * width + width * 14 / 100)
}

/// How many marks are set.
pub open spec fn set_marks(marks: Seq<bool>) -> int
    decreases marks.len(),
{
    if marks.len() == 0 {
        0
    } else {
        set_marks(marks.drop_last()) + if marks.last() {
            1int
        } else {
            0int
        }
    }
}

/// Whether a field carries a burst: half of the searched rows show one.
pub open spec fn burst_present(marks: Seq<bool>) -> bool {
    marks.len() > 0 && 2 * set_marks(marks) >= marks.len()
}

/// Whether each mark is what `burst` says of its row.
pub open spec fn bursts_marked<F: Fn(&Vec<i64>) -> bool>(
    values: Seq<i64>,
    width: int,
    rows: int,
    burst: F,
    marks: Seq<bool>,
) -> bool {
    &&& marks.len() == burst_rows(rows)
    &&& forall|k: int|
        0 <= k < marks.len() ==> #[trigger] burst_marked(
            values,
            width,
            k * burst_step(rows),
            burst,
            marks[k],
        )
}

pub open spec fn burst_marked<F: Fn(&Vec<i64>) -> bool>(
    values: Seq<i64>,
    width: int,
    row: int,
    burst: F,
    mark: bool,
) -> bool {
    exists|w: Vec<i64>|
        w@ == burst_window(values, width, row) && #[trigger] burst.ensures((&w,), mark)
}

/// Search the rows of a field for a burst. `burst` says whether a stretch of
/// values is dominated by the subcarrier.
pub fn search_bursts<F: Fn(&Vec<i64>) -> bool>(
    values: &Vec<i64>,
    width: usize,
    rows: usize,
    burst: &F,
) -> (marks: Vec<bool>)
    requires
        1 <= width <= 0x1000,
        1 <= rows <= MAX_ROWS,
        rows * width <= values.len(),
        forall|w: &Vec<i64>| #[trigger] burst.requires((w,)),
    ensures
        bursts_marked(values@, width as int, rows as int, *burst, marks@),
{
    let step: usize = if rows / 32 >= 1 {
        rows / 32
    } else {
        1
    };
    let lo: usize = width * 7 / 100;
    let hi: usize = width * 14 / 100;
    let mut marks: Vec<bool> = Vec::new();
    let mut row: usize = 0;
    let ghost w = width as int;
    assert(0 * step == 0);
    while row < rows
        invariant
            1 <= width <= 0x1000,
            w == width,
            1 <= rows <= MAX_ROWS,
            rows * width <= values.len(),
            step == burst_step(rows as int),
            1 <= step <= rows,
            lo == width * 7 / 100,
            hi == width * 14 / 100,
            row == marks.len() * step,
            row < rows + step,
            forall|w: &Vec<i64>| #[trigger] burst.requires((w,)),
            forall|k: int|
                0 <= k < marks.len() ==> #[trigger] burst_marked(
                    values@,
                    w,
                    k * burst_step(rows as int),
                    *burst,
                    marks[k],
                ),
        decreases rows + step - row,
    {
        proof {
            lemma_cells(w, rows as int, row as int);
        }
        let off: usize = row * width;
        let part: &[i64] = vstd::slice::slice_subrange(values.as_slice(), off + lo, off + hi);
        let window: Vec<i64> = crate::seqs::copy_of(part);
        let mark: bool = burst(&window);
        assert(window@ == burst_window(values@, w, row as int));
        assert(burst_marked(values@, w, row as int, *burst, mark));
        let ghost before = marks@;
        marks.push(mark);
        proof {
            assert(marks.len() * step == before.len() * step + step) by (nonlinear_arith)
                requires
                    marks.len() == before.len() + 1,
            ;
        }
        row += step;
    }
    proof {
        let n = marks.len() as int;
        let d = step as int;
        assert(n == (rows + d - 1) / d) by (nonlinear_arith)
            requires
                d >= 1,
                n * d >= rows,
                n * d < rows + d,
        ;
    }
    marks
}

/// The notch and how many fields in a row have disagreed with it.
#[derive(Clone, Copy)]
pub struct NotchGate {
    pub enabled: bool,
    pub streak: u8,
}

/// The notch after a field with or without a burst.
pub open spec fn gate_after(gate: NotchGate, present: bool) -> NotchGate {
    if present == gate.enabled {
        NotchGate { enabled: gate.enabled, streak: 0 }
    } else if gate.streak + 1 >= NOTCH_HYSTERESIS_FIELDS {
        NotchGate { enabled: present, streak: 0 }
    } else {
        NotchGate { enabled: gate.enabled, streak: (gate.streak + 1) as u8 }
    }
}

impl NotchGate {
    pub open spec fn wf(self) -> bool {
        self.streak < NOTCH_HYSTERESIS_FIELDS
    }

    /// The notch starts enabled, until fields have shown that there is no
    /// burst.
    pub open spec fn start() -> NotchGate {
        NotchGate { enabled: true, streak: 0 }
    }

    /// Take a searched field into account.
    pub fn observe(&mut self, marks: &Vec<bool>)
        requires
            old(self).wf(),
            marks.len() <= MAX_ROWS,
        ensures
            *final(self) == gate_after(*old(self), burst_present(marks@)),
            final(self).wf(),
    {
        let mut hits: usize = 0;
        let mut i: usize = 0;
        assert(marks@.take(0) =~= Seq::empty());
        while i < marks.len()
            invariant
                i <= marks.len() <= MAX_ROWS,
                hits == set_marks(marks@.take(i as int)),
                hits <= i,
            decreases marks.len() - i,
        {
            proof {
                assert(marks@.take(i + 1).drop_last() =~= marks@.take(i as int));
                assert(marks@.take(i + 1).last() == marks@[i as int]);
            }
            if marks[i] {
                hits = hits + 1;
            }
            i += 1;
        }
        assert(marks@.take(i as int) =~= marks@);
        let present: bool = marks.len() > 0 && 2 * hits >= marks.len();
        if present == self.enabled {
            self.streak = 0;
        } else if self.streak + 1 >= NOTCH_HYSTERESIS_FIELDS {
            self.enabled = present;
            self.streak = 0;
        } else {
            self.streak = self.streak + 1;
        }
    }
}

/// From rest, three fields flip the notch exactly when all of them disagree
/// with it.
pub proof fn law_the_notch_flips_on_three_fields(enabled: bool, a: bool, b: bool, c: bool)
    ensures
        ({
            let rest = NotchGate { enabled, streak: 0 };
            let after = gate_after(gate_after(gate_after(rest, a), b), c);
            after.enabled != enabled <==> a != enabled && b != enabled && c != enabled
        }),
{
}

/// Whether a recursive filter makes `output` of `input`. It starts settled on
/// the first value; `step` takes a value and the state to what comes out and
/// the next state.
pub open spec fn filtered<T, B, I: Fn(T) -> B, F: Fn(T, B) -> (T, B)>(
    settle: I,
    step: F,
    input: Seq<T>,
    output: Seq<T>,
) -> bool {
    &&& output.len() == input.len()
    &&& input.len() > 0 ==> exists|states: Seq<B>|
        {
            &&& states.len() == input.len() + 1
            &&& settle.ensures((input[0],), states[0])
            &&& #[trigger] steps_through(step, input, states, output)
        }
}

pub open spec fn steps_through<T, B, F: Fn(T, B) -> (T, B)>(
    step: F,
    input: Seq<T>,
    states: Seq<B>,
    output: Seq<T>,
) -> bool {
    forall|i: int|
        0 <= i < input.len() ==> step.ensures(
            (input[i], states[i]),
            (#[trigger] output[i], states[i + 1]),
        )
}

/// One pass of a recursive filter.
fn filter_pass<T: Copy, B: Copy, I: Fn(T) -> B, F: Fn(T, B) -> (T, B)>(
    data: &Vec<T>,
    backwards: bool,
    settle: &I,
    step: &F,
) -> (out: Vec<T>)
    requires
        forall|x: T| #[trigger] settle.requires((x,)),
        forall|x: T, b: B| #[trigger] step.requires((x, b)),
    ensures
        filtered(
            *settle,
            *step,
            if backwards {
                data@.reverse()
            } else {
                data@
            },
            out@,
        ),
{
    let n: usize = data.len();
    let mut out: Vec<T> = Vec::new();
    let ghost input = if backwards {
        data@.reverse()
    } else {
        data@
    };
    if n == 0 {
        return out;
    }
    let first: T = if backwards {
        data[n - 1]
    } else {
        data[0]
    };
    let mut state: B = settle(first);
    let ghost mut states: Seq<B> = seq![state];
    let mut i: usize = 0;
    while i < n
        invariant
            i <= n,
            n == data.len(),
            n == input.len(),
            input == (if backwards {
                data@.reverse()
            } else {
                data@
            }),
            out.len() == i,
            states.len() == i + 1,
            states[i as int] == state,
            settle.ensures((input[0],), states[0]),
            forall|x: T, b: B| #[trigger] step.requires((x, b)),
            forall|k: int|
                0 <= k < i ==> step.ensures(
                    (input[k], states[k]),
                    (#[trigger] out@[k], states[k + 1]),
                ),
        decreases n - i,
    {
        let x: T = if backwards {
            data[n - 1 - i]
        } else {
            data[i]
        };
        assert(x == input[i as int]);
        let (y, next): (T, B) = step(x, state);
        out.push(y);
        proof {
            states = states.push(next);
        }
        state = next;
        i += 1;
    }
    assert(steps_through(*step, input, states, out@));
    out
}

fn reversed<T: Copy>(data: &Vec<T>) -> (out: Vec<T>)
    ensures
        out@ == data@.reverse(),
{
    let n: usize = data.len();
    let mut out: Vec<T> = Vec::new();
    let mut i: usize = 0;
    while i < n
        invariant
            i <= n,
            n == data.len(),
            out@ == data@.reverse().take(i as int),
        decreases n - i,
    {
        out.push(data[n - 1 - i]);
        i += 1;
        assert(out@ =~= data@.reverse().take(i as int));
    }
    assert(out@ =~= data@.reverse());
    out
}

/// Run a recursive filter over a line forwards and then backwards, so that
/// what the one pass delays the other brings back. Each pass starts settled
/// on the value at its end of the line.
pub fn filtfilt<T: Copy, B: Copy, I: Fn(T) -> B, F: Fn(T, B) -> (T, B)>(
    data: &Vec<T>,
    settle: I,
    step: F,
) -> (out: Vec<T>)
    requires
        forall|x: T| #[trigger] settle.requires((x,)),
        forall|x: T, b: B| #[trigger] step.requires((x, b)),
    ensures
        out.len() == data.len(),
        exists|once: Seq<T>| #[trigger]
            filtered(settle, step, data@, once) && filtered(
                settle,
                step,
                once.reverse(),
                out@.reverse(),
            ),
{
    let once: Vec<T> = filter_pass(data, false, &settle, &step);
    let back: Vec<T> = filter_pass(&once, true, &settle, &step);
    let out: Vec<T> = reversed(&back);
    proof {
        assert(out@.reverse() =~= back@);
        assert(filtered(settle, step, data@, once@));
    }
    out
}

/// A field carries a burst exactly where rows were searched and at least half
/// of them show one.
pub proof fn law_half_of_the_rows_show_a_burst(marks: Seq<bool>)
    ensures
        burst_present(marks) <==> marks.len() > 0 && 2 * marks.filter(|m: bool| m).len()
            >= marks.len(),
{
    lemma_set_marks(marks);
}

proof fn lemma_set_marks(marks: Seq<bool>)
    ensures
        set_marks(marks) == marks.filter(|m: bool| m).len(),
    decreases marks.len(),
{
    reveal(Seq::filter);
    if marks.len() > 0 {
        lemma_set_marks(marks.drop_last());
    }
}

/// The searched rows are spread evenly over the field: the last of them is in
/// it, another step would leave it, and there are no more than 63.
pub proof fn law_searched_rows_span_the_field(rows: int)
    requires
        rows >= 1,
    ensures
        1 <= burst_rows(rows) <= 63,
        (burst_rows(rows) - 1) * burst_step(rows) < rows <= burst_rows(rows) * burst_step(rows),
        rows < 64 ==> burst_rows(rows) == rows,
        rows >= 64 ==> burst_rows(rows) >= 32,
{
    let step = burst_step(rows);
    let n = burst_rows(rows);
    assert((n - 1) * step < rows <= n * step) by (nonlinear_arith)
        requires
            step >= 1,
            n == (rows + step - 1) / step,
            rows >= 1,
    ;
    if rows >= 64 {
        assert(32 * step <= rows < 32 * step + 32);
        assert(32 <= n <= 63) by (nonlinear_arith)
            requires
                (n - 1) * step < rows <= n * step,
                32 * step <= rows < 32 * step + 32,
                step >= 2,
        ;
    } else {
        assert(step == 1);
    }
}

/// The burst is looked for from seven to fourteen hundredths into its row.
pub proof fn law_burst_lies_after_sync(values: Seq<i64>, width: int, row: int, i: int)
    requires
        1 <= width,
        0 <= row,
        (row + 1) * width <= values.len(),
        7 * width / 100 <= i < 14 * width / 100,
    ensures
        burst_window(values, width, row).len() == 14 * width / 100 - 7 * width / 100,
        burst_window(values, width, row)[i - 7 * width / 100] == values[row * width + i],
{
    assert(row * width >= 0) by (nonlinear_arith)
        requires
            row >= 0,
            width >= 1,
    ;
    assert((row + 1) * width == row * width + width) by (nonlinear_arith);
    assert(width * 7 == 7 * width && width * 14 == 14 * width);
}

/// The notch flips exactly with the third field in a row that disagrees with
/// it. A field that agrees starts the count over.
pub proof fn law_streaks_flip_the_notch(gate: NotchGate, present: bool)
    requires
        gate.wf(),
    ensures
        ({
            let next = gate_after(gate, present);
            &&& next.enabled != gate.enabled <==> present != gate.enabled && gate.streak == 2
            &&& present == gate.enabled || next.enabled != gate.enabled ==> next.streak == 0
            &&& present != gate.enabled && next.enabled == gate.enabled ==> next.streak
                == gate.streak + 1
        }),
{
}

} // verus!
