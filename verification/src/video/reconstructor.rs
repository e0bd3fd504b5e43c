//! A stream of fields, rendered one by one.

use vstd::prelude::*;

use super::grid::{
    consistent_tips, count_tips, cursor, dropout_next, field_period, fit_start, followed,
    grid_start, law_following_stops_at_the_end, law_last_eight_periods_are_remembered,
    lemma_followed_len, measure_period, next_dropout, reject_outliers, remembered, tips_found, track_tips,
    PeriodMemory, TipSearch, MAX_PERIOD, MAX_POSITION, MAX_ROWS,
};
use super::line::{within, Agc, Modulation, MAX_LEVELLED};
use super::notch::{
    burst_present, burst_rows, burst_step, bursts_marked, gate_after, search_bursts, NotchGate,
};
use super::picture::{
    clean_field, concealed, denoised, field_cleaned, history_within,
    law_pixels_come_from_their_line, law_values_are_concealed_then_denoised, luma, merge_field,
    merged, merged_pixel, notch_fits, past_values,
    Concealment, FieldInput, MAX_FILTERED, MAX_TEMPORAL_WINDOW,
};
use super::ppm::{ppm, ppm_bytes};
use super::scan::{
    agc_before, field_marks, field_values, readable_rows, scan_field, FieldScan, LineGrid,
};
use super::sync::{
    below, count_below, dense_at, find_dense, find_strongest, first_dense, law_nearest_is_within_half,
    law_plateau_is_met_by_half, law_strongest_window_is_strongest, nearest, nearest_div, sample_at, strongest_window,
    MAX_RECORD, SUBSAMPLE,
};
use crate::frame_history::{kept_after, FieldMeta, FrameHistory};
use crate::levels::{
    deviation_of, estimate_sync_levels, max, min, smoothing_samples, smoothing_window, SyncLevels,
};
use crate::stats::median_of;
use crate::timing::{Ratio, Standard};
use crate::types::SignalType;
use crate::vbi::{FieldParity, VerticalSync};

verus! {

/// Fields kept for noise reduction unless configured otherwise.
pub const DEFAULT_TEMPORAL_WINDOW: usize = 5;

/// Rows skipped after vertical sync where only its density is known.
pub const BLANKING_ROWS: usize = 20;

/// Lines of a field that are shown.
pub open spec fn lines_of(pal: bool) -> int {
    if pal {
        288
    } else {
        240
    }
}

/// Columns of a whole line, blanking and all.
pub open spec fn columns_of(pal: bool) -> int {
    if pal {
        864
    } else {
        858
    }
}

/// Columns of a line that are cropped on the left, as blanking: sixteen
/// hundredths.
pub open spec fn crop_of(pal: bool) -> int {
    columns_of(pal) * 16 / 100
}

/// Columns that are shown.
pub const FRAME_WIDTH: usize = 720;

/// Length of a line in units of a position: numerator and denominator.
pub open spec fn nominal_period(sample_rate: int, pal: bool) -> (int, int) {
    if pal {
        (sample_rate * SUBSAMPLE, 15_625)
    } else {
        (sample_rate * 1001 * SUBSAMPLE, 15_750_000)
    }
}

/// Whole samples in a line, at a line rate in whole hertz.
pub open spec fn nominal_samples(sample_rate: int, pal: bool) -> int {
    nearest(
        sample_rate,
        if pal {
            15_625
        } else {
            15_734
        },
    )
}

proof fn lemma_nominal(sample_rate: u32, pal: bool)
    ensures
        0 <= nominal_samples(sample_rate as int, pal) <= 0x5_0000,
        0 <= nearest(
            nominal_period(sample_rate as int, pal).0,
            nominal_period(sample_rate as int, pal).1,
        ) <= MAX_PERIOD,
{
    let r = sample_rate as int;
    if pal {
        assert(nearest(r * 1_000_000, 15_625) == (2 * (r * 1_000_000) + 15_625) / 31_250int);
    } else {
        assert(r * 1001 * 1_000_000 == r * 1_001_000_000);
        assert(nearest(r * 1_001_000_000, 15_750_000) == (2 * (r * 1_001_000_000) + 15_750_000)
            / 31_500_000int);
    }
}

/// All that a field's rendering depends on and changes.
#[verifier::ext_equal]
pub struct Reconstruction {
    /// Columns and rows of a frame.
    pub width: int,
    pub height: int,
    /// Columns of a line with its blanking, and lines of a field.
    pub line_width: int,
    pub field_lines: int,
    /// Whether the caller wants telemetry.
    pub debug_dump: bool,
    pub pal: bool,
    pub m: Modulation,
    pub samples_per_line: int,
    pub matched: bool,
    pub locked: bool,
    pub how: Concealment,
    /// Which output rows the next field fills, unless its sync says.
    pub parity: int,
    /// The last frame.
    pub buf: Seq<u32>,
    /// The field before, levelled.
    pub prev: Option<Seq<i64>>,
    pub sync_phase: int,
    pub period: int,
    pub periods: Seq<i64>,
    pub gate: NotchGate,
    pub agc: Agc,
    pub history: Seq<(Seq<i64>, FieldMeta)>,
    pub window: int,
    pub counter: int,
    pub in_dropout: bool,
}

/// The level that samples of vertical sync are below: three tenths of full
/// deviation under blanking.
pub open spec fn sync_level(m: Modulation) -> Ratio {
    Ratio { num: (-(300_000_000 * m.deviation_hz)) as i64, den: m.sample_rate as u64 }
}

/// The level that a sync tip has to be below: four fifths of that.
pub open spec fn tip_limit(m: Modulation) -> Ratio {
    Ratio { num: (-(240_000_000 * m.deviation_hz)) as i64, den: m.sample_rate as u64 }
}

/// How tips are looked for, this many samples around where they are expected.
pub open spec fn search_of(st: Reconstruction, radius: int) -> TipSearch {
    TipSearch {
        matched: st.matched,
        radius: radius as usize,
        width: nearest(47 * st.m.sample_rate, 10_000_000) as usize,
        porch_radius: (35 * st.m.sample_rate / 10_000_000) as usize,
        ma_win: smoothing_window(st.m.sample_rate as int) as usize,
        reject_above: tip_limit(st.m),
    }
}

/// Samples on either side of the expected tip of a row: two microseconds.
pub open spec fn row_radius(m: Modulation) -> int {
    m.sample_rate as int / 500_000
}

/// The levels that a modulation implies: the tip two fifths of full deviation
/// below blanking at zero.
pub open spec fn implied_levels(m: Modulation) -> SyncLevels {
    SyncLevels {
        sync_tip: if m.sample_rate == 0 {
            0
        } else {
            max(nearest(-(400_000_000 * m.deviation_hz), m.sample_rate as int), i32::MIN as int)
                as i32
        },
        blanking: 0,
    }
}

/// The levels of a record; those implied by the modulation where too few
/// pulses are in it to measure them.
pub open spec fn record_levels(s: Seq<i32>, m: Modulation) -> SyncLevels {
    match deviation_of(s, m.sample_rate as int) {
        Some(e) => e.levels,
        None => implied_levels(m),
    }
}

/// The parity that a field is rendered with.
pub open spec fn parity_for(st: Reconstruction, sync: Option<VerticalSync>) -> int {
    match sync {
        Some(v) => match v.parity {
            Some(FieldParity::First) => 0,
            Some(FieldParity::Second) => 1,
            None => st.parity,
        },
        None => st.parity,
    }
}

/// Whether `r` is where the sync tip of a field's first row lies: where the
/// vertical sync group says, or else the first tip some lines after the first
/// dense window. Nothing where the record does not hold a whole field after
/// it, or no vertical sync.
pub open spec fn anchor_is(
    st: Reconstruction,
    s: Seq<i32>,
    sync: Option<VerticalSync>,
    r: Option<int>,
) -> bool {
    let spl = st.samples_per_line;
    match sync {
        Some(v) => {
            let required = max(0, v.field_active_start as int) / 1_000_000 + spl * (lines_of(st.pal)
                + 2);
            r == (if s.len() < required {
                None
            } else {
                Some(v.field_active_start as int)
            })
        },
        None => exists|dense: Option<int>|
            {
                &&& #[trigger] first_dense(s, sync_level(st.m), spl, dense)
                &&& r == match dense {
                    None => None,
                    Some(k) => {
                        let expected = (k + (BLANKING_ROWS + 1) * spl) * SUBSAMPLE;
                        if s.len() < k + spl * (BLANKING_ROWS + lines_of(st.pal) + 2) {
                            None
                        } else {
                            match search_of(st, spl).tip(s, expected) {
                                Some(p) => Some(p),
                                None => Some(expected),
                            }
                        }
                    },
                }
            },
    }
}

/// The tips of a field.
pub open spec fn raw_tips(st: Reconstruction, s: Seq<i32>, anchor: int) -> Seq<Option<i64>> {
    followed(
        s,
        search_of(st, row_radius(st.m)),
        anchor as i64,
        st.period,
        lines_of(st.pal) + 4,
    )
}

/// The periods remembered once a field's tips are known.
pub open spec fn periods_after(st: Reconstruction, raw: Seq<Option<i64>>) -> Seq<i64> {
    match field_period(raw, st.samples_per_line) {
        Some(p) => remembered(st.periods, p as i64),
        None => st.periods,
    }
}

/// The line period once a field's tips are known.
pub open spec fn period_after(st: Reconstruction, raw: Seq<Option<i64>>) -> int {
    match field_period(raw, st.samples_per_line) {
        Some(p) => if st.locked {
            median_of(periods_after(st, raw))
        } else {
            p
        },
        None => st.period,
    }
}

/// The tips that are one line after the one before.
pub open spec fn clean_tips(st: Reconstruction, s: Seq<i32>, anchor: int) -> Seq<Option<i64>> {
    let raw = raw_tips(st, s, anchor);
    consistent_tips(raw, period_after(st, raw))
}

/// The grid of a field.
pub open spec fn grid_for(st: Reconstruction, s: Seq<i32>, anchor: int) -> LineGrid {
    let raw = raw_tips(st, s, anchor);
    let period = period_after(st, raw);
    let rows = min(raw.len() as int, lines_of(st.pal));
    LineGrid {
        start: grid_start(clean_tips(st, s, anchor), rows, period, anchor) as i64,
        period: period as i64,
        rows: rows as usize,
    }
}

/// Share of the rows with a tip, in thousandths.
pub open spec fn quality_of(clean: Seq<Option<i64>>) -> int {
    nearest(1000 * tips_found(clean), clean.len() as int)
}

/// Sum of all values.
pub open spec fn total_of(y: Seq<i64>) -> int
    decreases y.len(),
{
    if y.len() == 0 {
        0
    } else {
        total_of(y.drop_last()) + y.last()
    }
}

/// The mean of a field.
pub open spec fn mean_of_field(y: Seq<i64>) -> int {
    nearest(total_of(y), y.len() as int)
}

/// Microseconds from one field to the next.
pub open spec fn field_period_us(pal: bool) -> int {
    if pal {
        20_000
    } else {
        16_667
    }
}

/// What of a record a field used up: up to six lines ahead of the next
/// vertical sync group where this field's was found, or else up to the
/// strongest sync plateau within eight lines after the field.
pub open spec fn used_up(
    st: Reconstruction,
    s: Seq<i32>,
    sync: Option<VerticalSync>,
    grid: LineGrid,
) -> int {
    let spl = st.samples_per_line;
    let half_lines: int = if st.pal {
        613
    } else {
        513
    };
    let end = match sync {
        Some(v) => max(0, nearest(2 * v.broad_start + half_lines * grid.period, 2 * SUBSAMPLE)),
        None => {
            let lo = sample_at(grid.start + grid.period * lines_of(st.pal));
            strongest_window(
                s,
                sync_level(st.m),
                spl,
                max(spl / 4, 1),
                lo,
                min(lo + 8 * spl, max(0, s.len() - spl)),
            )
        },
    };
    min(end, s.len() as int)
}

/// The notch once a field is searched for bursts. Fields of eight rows or
/// fewer say nothing.
pub open spec fn gate_for<B: Fn(&Vec<i64>) -> bool>(
    st: Reconstruction,
    values: Seq<i64>,
    rows: int,
    burst: B,
    gate: NotchGate,
) -> bool {
    if rows > 8 {
        exists|marks: Seq<bool>| #[trigger]
            bursts_marked(values, columns_of(st.pal), rows, burst, marks) && gate == gate_after(
                st.gate,
                burst_present(marks),
            )
    } else {
        gate == st.gate
    }
}

/// Whether a field was rendered: `after` is the state after it, `y` its
/// cleaned values, `frame` the picture and `used` what of the record it used.
#[verifier::opaque]
pub open spec fn field_rendered<B: Fn(&Vec<i64>) -> bool, N: Fn(&Vec<i64>) -> Vec<i64>>(
    st: Reconstruction,
    s: Seq<i32>,
    sync: Option<VerticalSync>,
    anchor: int,
    burst: B,
    notch: N,
    y: Seq<i64>,
    after: Reconstruction,
    frame: Seq<u32>,
    used: int,
) -> bool {
    let width = columns_of(st.pal);
    let lines = lines_of(st.pal);
    let raw = raw_tips(st, s, anchor);
    let clean = clean_tips(st, s, anchor);
    let grid = grid_for(st, s, anchor);
    let rows = readable_rows(s.len() as int, grid, st.m.sample_rate as int, 0);
    let values = field_values(s, grid, st.m, width, st.agc, lines, rows);
    let marks = field_marks(s, grid, st.m, width, lines, rows);
    let parity = parity_for(st, sync);
    let force_static = dropout_next(st.in_dropout, tips_found(clean), clean.len() as int);
    &&& gate_for(st, values, rows, burst, after.gate)
    &&& field_cleaned(
        (FieldInput {
            values,
            marks,
            before: st.prev,
            history: st.history,
            width,
            lines,
            rows,
            how: st.how,
            notch_enabled: after.gate.enabled,
            force_static,
            m: st.m,
        }),
        notch,
        y,
    )
    &&& frame == merged(
        y,
        st.buf,
        width,
        crop_of(st.pal),
        FRAME_WIDTH as int,
        2 * lines,
        rows,
        parity,
        st.m,
    )
    &&& used == used_up(st, s, sync, grid)
    &&& after == (Reconstruction {
        parity: 1 - parity,
        buf: frame,
        prev: Some(values),
        sync_phase: grid.position(min(rows, grid.rows - 1)),
        period: grid.period as int,
        periods: periods_after(st, raw),
        gate: after.gate,
        agc: agc_before(s, grid, st.m, width, st.agc, rows),
        history: kept_after(
            st.history,
            st.window,
            (
                y,
                FieldMeta {
                    timestamp_us: (st.counter as u64).wrapping_mul(
                        field_period_us(st.pal) as u64,
                    ),
                    field_parity: parity as u8,
                    sync_quality: quality_of(clean) as u32,
                    mean_amplitude: mean_of_field(y) as i64,
                },
            ),
        ),
        counter: (st.counter as u64).wrapping_add(1) as int,
        in_dropout: force_static,
        ..st
    })
}

/// Renders fields out of demodulated records: finds the field, corrects its
/// time base, conceals dropouts, reduces noise, and interlaces it with the
/// one before. Luma only.
pub struct FrameReconstructor {
    pub width: usize,
    pub height: usize,
    pub line_width: usize,
    pub field_lines: usize,
    /// Whole samples in a nominal line.
    pub samples_per_line: usize,
    pub pal: bool,
    /// Peak deviation in Hz, which the levels are scaled by.
    pub fm_deviation: u32,
    pub sample_rate: u32,
    /// Whether the caller wants telemetry.
    pub debug_dump: bool,
    /// Look for sync tips with the matched filter.
    pub use_matched_sync: bool,
    /// Use the steady line period of recent fields rather than each field's
    /// own.
    pub use_line_locked_clock: bool,
    /// Mix the rows above and below into concealed dropouts.
    pub use_smart_doc: bool,
    /// At this weight, in thousandths.
    pub smart_doc_spatial_weight: u32,
    /// The last frame.
    pub field_buf: Vec<u32>,
    /// Which output rows the next field fills, unless its sync says.
    pub field_parity: u8,
    /// The field before, levelled.
    pub prev_frame_tbc: Vec<i64>,
    pub has_prev: bool,
    /// Where the last row that was looked at starts.
    pub sync_phase: i64,
    /// Length of a line.
    pub line_period: i64,
    /// Recent fields.
    pub history: FrameHistory<i64>,
    period_history: PeriodMemory,
    notch: NotchGate,
    agc: Agc,
    field_counter: u64,
    in_dropout: bool,
}

impl FrameReconstructor {
    /// All that rendering depends on.
    pub closed spec fn state(&self) -> Reconstruction {
        Reconstruction {
            width: self.width as int,
            height: self.height as int,
            line_width: self.line_width as int,
            field_lines: self.field_lines as int,
            debug_dump: self.debug_dump,
            pal: self.pal,
            m: Modulation { deviation_hz: self.fm_deviation, sample_rate: self.sample_rate },
            samples_per_line: self.samples_per_line as int,
            matched: self.use_matched_sync,
            locked: self.use_line_locked_clock,
            how: Concealment {
                smart: self.use_smart_doc,
                spatial_weight: self.smart_doc_spatial_weight,
            },
            parity: self.field_parity as int,
            buf: self.field_buf@,
            prev: if self.has_prev {
                Some(self.prev_frame_tbc@)
            } else {
                None
            },
            sync_phase: self.sync_phase as int,
            period: self.line_period as int,
            periods: self.period_history@,
            gate: self.notch,
            agc: self.agc,
            history: self.history@,
            window: self.history.limit(),
            counter: self.field_counter as int,
            in_dropout: self.in_dropout,
        }
    }

    /// The dimensions are those of the standard, every buffer has its size,
    /// and all values are within bounds.
    pub closed spec fn wf(&self) -> bool {
        &&& self.width == FRAME_WIDTH
        &&& self.height == 2 * lines_of(self.pal)
        &&& self.line_width == columns_of(self.pal)
        &&& self.field_lines == lines_of(self.pal)
        &&& self.samples_per_line == nominal_samples(self.sample_rate as int, self.pal)
        &&& self.smart_doc_spatial_weight <= 1000
        &&& self.field_buf.len() == self.width * self.height
        &&& self.field_parity <= 1
        &&& self.prev_frame_tbc.len() == self.field_lines * self.line_width
        &&& within(self.prev_frame_tbc@, MAX_LEVELLED as int)
        &&& 0 <= self.line_period <= MAX_PERIOD
        &&& self.history.wf()
        &&& self.history.size() == self.field_lines * self.line_width
        &&& history_within(self.history@)
        &&& self.period_history.wf()
        &&& self.notch.wf()
        &&& self.agc.wf()
    }

    /// A reconstructor for a standard. The refinements for weak signals are
    /// on.
    pub fn new(sample_rate: u32, is_pal: bool, fm_deviation: u32, debug_dump: bool) -> (r: Self)
        ensures
            r.wf(),
            r.state() == (Reconstruction {
                width: 720,
                height: if is_pal {
                    576
                } else {
                    480
                },
                line_width: if is_pal {
                    864
                } else {
                    858
                },
                field_lines: if is_pal {
                    288
                } else {
                    240
                },
                debug_dump,
                pal: is_pal,
                m: Modulation { deviation_hz: fm_deviation, sample_rate },
                samples_per_line: nominal_samples(sample_rate as int, is_pal),
                matched: true,
                locked: true,
                how: Concealment { smart: true, spatial_weight: 500 },
                parity: 0,
                buf: Seq::new((FRAME_WIDTH * (2 * lines_of(is_pal))) as nat, |i: int| 0u32),
                prev: None,
                sync_phase: 0,
                period: nearest(
                    nominal_period(sample_rate as int, is_pal).0,
                    nominal_period(sample_rate as int, is_pal).1,
                ),
                periods: Seq::empty(),
                gate: NotchGate::start(),
                agc: Agc::start(),
                history: Seq::empty(),
                window: DEFAULT_TEMPORAL_WINDOW as int,
                counter: 0,
                in_dropout: false,
            }),
    {
        let field_lines: usize = if is_pal {
            288
        } else {
            240
        };
        let line_width: usize = if is_pal {
            864
        } else {
            858
        };
        let width: usize = FRAME_WIDTH;
        let height: usize = 2 * field_lines;
        let (num, den): (i128, i128) = if is_pal {
            (sample_rate as i128 * SUBSAMPLE as i128, 15_625)
        } else {
            (sample_rate as i128 * 1001 * SUBSAMPLE as i128, 15_750_000)
        };
        proof {
            lemma_nominal(sample_rate, is_pal);
        }
        let line_hz: i128 = if is_pal {
            15_625
        } else {
            15_734
        };
        let samples_per_line: usize = nearest_div(sample_rate as i128, line_hz) as usize;
        let line_period: i64 = nearest_div(num, den) as i64;
        let field_pixels: usize = field_lines * line_width;
        let zero_value: i64 = 0;
        let zero_pixel: u32 = 0;
        let field_buf: Vec<u32> = crate::seqs::repeated(zero_pixel, width * height);
        assert(field_buf@ =~= Seq::new((FRAME_WIDTH * (2 * lines_of(is_pal))) as nat, |i: int| 0u32));
        let r: FrameReconstructor = FrameReconstructor {
            width,
            height,
            line_width,
            field_lines,
            samples_per_line,
            pal: is_pal,
            fm_deviation,
            sample_rate,
            debug_dump,
            use_matched_sync: true,
            use_line_locked_clock: true,
            use_smart_doc: true,
            smart_doc_spatial_weight: 500,
            field_buf,
            field_parity: 0,
            prev_frame_tbc: crate::seqs::repeated(zero_value, field_pixels),
            has_prev: false,
            sync_phase: 0,
            line_period,
            history: FrameHistory::new(DEFAULT_TEMPORAL_WINDOW, field_pixels),
            period_history: PeriodMemory::new(),
            notch: NotchGate { enabled: true, streak: 0 },
            agc: Agc { gain: 1_000_000, porch: 0, primed: false },
            field_counter: 0,
            in_dropout: false,
        };
        assert(r.history@ =~= Seq::<(Seq<i64>, FieldMeta)>::empty());
        assert(r.period_history@ =~= Seq::<i64>::empty());
        r
    }
}

/// Pixels in a frame.
pub open spec fn frame_size(pal: bool) -> int {
    FRAME_WIDTH * (2 * lines_of(pal))
}

/// Whether the positions of a vertical sync group are near enough to a record
/// to count with.
pub open spec fn sync_within(v: VerticalSync) -> bool {
    &&& -MAX_POSITION <= v.field_active_start <= MAX_POSITION
    &&& -MAX_POSITION <= v.broad_start <= MAX_POSITION
}

/// What came of a record: nothing where it holds no whole field, though the
/// parity is taken over; or else a field, rendered.
pub open spec fn field_outcome<B: Fn(&Vec<i64>) -> bool, N: Fn(&Vec<i64>) -> Vec<i64>>(
    st: Reconstruction,
    s: Seq<i32>,
    sync: Option<VerticalSync>,
    burst: B,
    notch: N,
    after: Reconstruction,
    frame_before: Seq<u32>,
    frame: Seq<u32>,
    r: Option<usize>,
) -> bool {
    ||| {
        &&& anchor_is(st, s, sync, None)
        &&& r is None
        &&& after == (Reconstruction { parity: parity_for(st, sync), ..st })
        &&& frame == frame_before
    }
    ||| {
        &&& r is Some
        &&& exists|anchor: int, y: Seq<i64>|
            {
                &&& #[trigger] anchor_is(st, s, sync, Some(anchor))
                &&& #[trigger] field_rendered(
                    st,
                    s,
                    sync,
                    anchor,
                    burst,
                    notch,
                    y,
                    after,
                    frame,
                    r.unwrap() as int,
                )
            }
    }
}

impl FrameReconstructor {
    fn search(&self, radius: usize) -> (t: TipSearch)
        ensures
            t == search_of(self.state(), radius as int),
            1 <= t.ma_win,
    {
        let rate: i128 = self.sample_rate as i128;
        TipSearch {
            matched: self.use_matched_sync,
            radius,
            width: nearest_div(47 * rate, 10_000_000) as usize,
            porch_radius: (35 * self.sample_rate as u64 / 10_000_000) as usize,
            ma_win: smoothing_samples(self.sample_rate),
            reject_above: Ratio {
                num: -(240_000_000 * self.fm_deviation as i64),
                den: self.sample_rate as u64,
            },
        }
    }

    fn vertical_level(&self) -> (l: Ratio)
        ensures
            l == sync_level(self.state().m),
    {
        Ratio { num: -(300_000_000 * self.fm_deviation as i64), den: self.sample_rate as u64 }
    }

    /// The levels that vertical sync is looked for with.
    fn levels(&self, demod: &[i32]) -> (l: SyncLevels)
        ensures
            l == record_levels(demod@, self.state().m),
    {
        match estimate_sync_levels(demod, self.sample_rate) {
            Some(l) => l,
            None => {
                let sync_tip: i32 = if self.sample_rate == 0 {
                    0
                } else {
                    let tip: i128 = nearest_div(
                        -(400_000_000 * self.fm_deviation as i128),
                        self.sample_rate as i128,
                    );
                    assert(tip <= 0) by (nonlinear_arith)
                        requires
                            tip == (2 * (-(400_000_000 * self.fm_deviation)) + self.sample_rate)
                                / (2 * self.sample_rate as int),
                            self.sample_rate > 0,
                    ;
                    if tip >= i32::MIN as i128 {
                        tip as i32
                    } else {
                        i32::MIN
                    }
                };
                SyncLevels { sync_tip, blanking: 0 }
            },
        }
    }

    /// Where the first row of the record's field starts.
    fn find_anchor(&self, demod: &[i32], sync: &Option<VerticalSync>) -> (r: Option<i64>)
        requires
            self.wf(),
            demod.len() <= MAX_RECORD,
            sync matches Some(v) ==> sync_within(*v),
        ensures
            anchor_is(
                self.state(),
                demod@,
                *sync,
                match r {
                    Some(p) => Some(p as int),
                    None => None,
                },
            ),
            r matches Some(p) ==> -MAX_POSITION <= p <= MAX_POSITION,
    {
        proof {
            lemma_nominal(self.sample_rate, self.pal);
        }
        let n: i64 = demod.len() as i64;
        let spl: i64 = self.samples_per_line as i64;
        let lines: i64 = self.field_lines as i64;
        match sync {
            Some(v) => {
                let from: i64 = if v.field_active_start >= 0 {
                    v.field_active_start
                } else {
                    0
                };
                assert(0 <= spl * (lines + 2) <= 0x5_0000 * 300) by (nonlinear_arith)
                    requires
                        0 <= spl <= 0x5_0000,
                        0 <= lines <= 290,
                ;
                if n < from / 1_000_000 + spl * (lines + 2) {
                    return None;
                }
                Some(v.field_active_start)
            },
            None => {
                let dense: Option<usize> = find_dense(
                    demod,
                    self.vertical_level(),
                    self.samples_per_line,
                );
                let ghost gd = match dense {
                    Some(k) => Some(k as int),
                    None => None,
                };
                assert(first_dense(
                    demod@,
                    sync_level(self.state().m),
                    self.state().samples_per_line,
                    gd,
                ));
                match dense {
                    None => None,
                    Some(k) => {
                        let k: i64 = k as i64;
                        let skipped: i64 = BLANKING_ROWS as i64;
                        assert(0 <= spl * (skipped + lines + 2) <= 0x5_0000 * 320)
                            by (nonlinear_arith)
                            requires
                                0 <= spl <= 0x5_0000,
                                0 <= lines <= 290,
                                skipped == 20,
                        ;
                        if n < k + spl * (skipped + lines + 2) {
                            return None;
                        }
                        assert((skipped + 1) * spl == 21 * spl) by (nonlinear_arith)
                            requires
                                skipped == 20,
                        ;
                        let expected: i64 = (k + (skipped + 1) * spl) * SUBSAMPLE;
                        let search: TipSearch = self.search(self.samples_per_line);
                        match search.locate(demod, expected) {
                            Some(p) => Some(p),
                            None => Some(expected),
                        }
                    },
                }
            },
        }
    }

    /// Find the field's tips and fit its grid. Gives the grid, how many tips
    /// were found and how many rows were searched.
    fn lock_lines(&mut self, demod: &[i32], anchor: i64) -> (r: (LineGrid, usize, usize))
        requires
            old(self).wf(),
            demod.len() <= MAX_RECORD,
            -MAX_POSITION <= anchor <= MAX_POSITION,
        ensures
            final(self).wf(),
            ({
                let st = old(self).state();
                let raw = raw_tips(st, demod@, anchor as int);
                let clean = clean_tips(st, demod@, anchor as int);
                &&& r.0 == grid_for(st, demod@, anchor as int)
                &&& r.0.wf()
                &&& 1 <= r.0.rows <= lines_of(st.pal)
                &&& r.1 == tips_found(clean)
                &&& r.2 == clean.len()
                &&& r.1 <= r.2
                &&& 1 <= r.2 <= MAX_ROWS
                &&& final(self).state() == (Reconstruction {
                    period: r.0.period as int,
                    periods: periods_after(st, raw),
                    in_dropout: dropout_next(st.in_dropout, r.1 as int, r.2 as int),
                    ..st
                })
            }),
    {
        proof {
            lemma_nominal(self.sample_rate, self.pal);
        }
        let ghost st = self.state();
        let search: TipSearch = self.search((self.sample_rate / 500_000) as usize);
        let raw: Vec<Option<i64>> = track_tips(
            demod,
            &search,
            anchor,
            self.line_period,
            self.field_lines + 4,
        );
        assert(raw@ == raw_tips(st, demod@, anchor as int));
        match measure_period(&raw, self.samples_per_line) {
            Some(p) => {
                let steady: i64 = self.period_history.remember(p);
                self.line_period = if self.use_line_locked_clock {
                    steady
                } else {
                    p
                };
            },
            None => {},
        }
        assert(self.line_period == period_after(st, raw@));
        assert(self.period_history@ == periods_after(st, raw@));
        let clean: Vec<Option<i64>> = reject_outliers(&raw, self.line_period);
        let rows: usize = if raw.len() <= self.field_lines {
            raw.len()
        } else {
            self.field_lines
        };
        let start: i64 = fit_start(&clean, rows, self.line_period, anchor);
        let found: usize = count_tips(&clean);
        self.in_dropout = next_dropout(self.in_dropout, found, clean.len());
        (LineGrid { start, period: self.line_period, rows }, found, clean.len())
    }

    /// What of the record the field used up.
    fn advance(&self, demod: &[i32], sync: &Option<VerticalSync>, grid: &LineGrid) -> (used: usize)
        requires
            self.wf(),
            demod.len() <= MAX_RECORD,
            grid.wf(),
            sync matches Some(v) ==> sync_within(*v),
        ensures
            used == used_up(self.state(), demod@, *sync, *grid),
            used <= demod.len(),
    {
        proof {
            lemma_nominal(self.sample_rate, self.pal);
        }
        let n: usize = demod.len();
        let end: i128 = match sync {
            Some(v) => {
                let half_lines: i128 = if self.pal {
                    613
                } else {
                    513
                };
                assert(0 <= half_lines * grid.period <= 613 * 0x80_0000_0000) by (nonlinear_arith)
                    requires
                        0 <= half_lines <= 613,
                        0 <= grid.period <= 0x80_0000_0000,
                ;
                let e: i128 = nearest_div(
                    2 * v.broad_start as i128 + half_lines * grid.period as i128,
                    2 * SUBSAMPLE as i128,
                );
                if e >= 0 {
                    e
                } else {
                    0
                }
            },
            None => {
                let lines: i128 = self.field_lines as i128;
                assert(0 <= grid.period * lines <= 288 * 0x80_0000_0000) by (nonlinear_arith)
                    requires
                        0 <= lines <= 288,
                        0 <= grid.period <= 0x80_0000_0000,
                ;
                let lo0: i128 = nearest_div(
                    grid.start as i128 + grid.period as i128 * lines,
                    SUBSAMPLE as i128,
                );
                let lo: i128 = if lo0 >= 0 {
                    lo0
                } else {
                    0
                };
                let spl: usize = self.samples_per_line;
                let room: usize = if n >= spl {
                    n - spl
                } else {
                    0
                };
                assert(lo <= 0x100_0000_0000) by (nonlinear_arith)
                    requires
                        lo0 == (2 * (grid.start + grid.period * lines) + 1_000_000) / 2_000_000int,
                        lo == lo0 || lo == 0,
                        grid.start <= 0x20_0000_0000_0000,
                        grid.period * lines <= 288 * 0x80_0000_0000,
                ;
                let hi: i128 = if lo + 8 * spl as i128 <= room as i128 {
                    lo + 8 * spl as i128
                } else {
                    room as i128
                };
                let stride: usize = if spl / 4 >= 1 {
                    spl / 4
                } else {
                    1
                };
                if lo >= hi {
                    lo
                } else {
                    find_strongest(
                        demod,
                        self.vertical_level(),
                        spl,
                        stride,
                        lo as usize,
                        hi as usize,
                    ) as i128
                }
            },
        };
        if end <= n as i128 {
            end as usize
        } else {
            n
        }
    }
}

/// Copy pixels into a buffer of the same size.
fn copy_pixels(to: &mut [u32], from: &Vec<u32>)
    requires
        old(to).len() == from.len(),
    ensures
        final(to)@ == from@,
{
    let n: usize = from.len();
    let mut i: usize = 0;
    while i < n
        invariant
            i <= n,
            n == from.len(),
            to@.len() == n,
            to@.take(i as int) == from@.take(i as int),
        decreases n - i,
    {
        to[i] = from[i];
        i += 1;
        assert(to@.take(i as int) =~= from@.take(i as int));
    }
    assert(to@ =~= to@.take(n as int));
    assert(from@ =~= from@.take(n as int));
}

/// Sum of all values of a field.
fn sum_field(y: &Vec<i64>) -> (sum: i128)
    requires
        within(y@, MAX_FILTERED as int),
        y.len() <= 0x100_0000,
    ensures
        sum == total_of(y@),
        -(y.len() * MAX_FILTERED) <= sum <= y.len() * MAX_FILTERED,
{
    let mut sum: i128 = 0;
    let mut i: usize = 0;
    assert(y@.take(0) =~= Seq::empty());
    while i < y.len()
        invariant
            within(y@, MAX_FILTERED as int),
            i <= y.len() <= 0x100_0000,
            sum == total_of(y@.take(i as int)),
            -(i * MAX_FILTERED) <= sum <= i * MAX_FILTERED,
        decreases y.len() - i,
    {
        proof {
            assert(y@.take(i + 1).drop_last() =~= y@.take(i as int));
            assert(y@.take(i + 1).last() == y@[i as int]);
        }
        sum = sum + y[i] as i128;
        i += 1;
    }
    assert(y@.take(i as int) =~= y@);
    sum
}

impl FrameReconstructor {
    /// Read a field along its grid, and see to the notch.
    fn scan_rows<B: Fn(&Vec<i64>) -> bool>(
        &mut self,
        demod_data: &[i32],
        grid: &LineGrid,
        burst: &B,
    ) -> (scan: FieldScan)
        requires
            old(self).wf(),
            demod_data.len() <= MAX_RECORD,
            grid.wf(),
            1 <= grid.rows <= lines_of(old(self).state().pal),
            forall|w: &Vec<i64>| #[trigger] burst.requires((w,)),
        ensures
            final(self).wf(),
            ({
                let st = old(self).state();
                let s = demod_data@;
                let after = final(self).state();
                let width = columns_of(st.pal);
                let lines = lines_of(st.pal);
                &&& scan.rows == readable_rows(
                    s.len() as int,
                    *grid,
                    st.m.sample_rate as int,
                    0,
                )
                &&& scan.rows <= grid.rows
                &&& scan.values@ == field_values(
                    s,
                    *grid,
                    st.m,
                    width,
                    st.agc,
                    lines,
                    scan.rows as int,
                )
                &&& scan.marks@ == field_marks(s, *grid, st.m, width, lines, scan.rows as int)
                &&& scan.values.len() == lines * width
                &&& scan.marks.len() == lines * width
                &&& within(scan.values@, MAX_LEVELLED as int)
                &&& gate_for(st, scan.values@, scan.rows as int, *burst, after.gate)
                &&& after == (Reconstruction {
                    sync_phase: grid.position(min(scan.rows as int, grid.rows - 1)),
                    gate: after.gate,
                    agc: agc_before(s, *grid, st.m, width, st.agc, scan.rows as int),
                    ..st
                })
            }),
    {
        let ghost st = self.state();
        let m: Modulation = Modulation {
            deviation_hz: self.fm_deviation,
            sample_rate: self.sample_rate,
        };
        let scan: FieldScan = scan_field(
            demod_data,
            grid,
            &m,
            &self.agc,
            self.line_width,
            self.field_lines,
        );
        let rows: usize = scan.rows;
        let last_row: usize = if rows < grid.rows {
            rows
        } else {
            grid.rows - 1
        };
        self.sync_phase = grid.position_of(last_row);
        self.agc = scan.agc;
        if rows > 8 {
            let width: usize = self.line_width;
            let lines: usize = self.field_lines;
            assert(rows * width <= lines * width) by (nonlinear_arith)
                requires
                    rows <= lines,
            ;
            let marks: Vec<bool> = search_bursts(&scan.values, width, rows, burst);
            proof {
                lemma_burst_rows(rows as int);
            }
            self.notch.observe(&marks);
            assert(bursts_marked(scan.values@, columns_of(st.pal), rows as int, *burst, marks@));
        }
        scan
    }

    /// Clean the values of a field.
    fn clean_scan<N: Fn(&Vec<i64>) -> Vec<i64>>(&self, scan: &FieldScan, notch: &N) -> (y: Vec<i64>)
        requires
            self.wf(),
            scan.rows <= lines_of(self.state().pal),
            scan.values.len() == lines_of(self.state().pal) * columns_of(self.state().pal),
            scan.marks.len() == scan.values.len(),
            within(scan.values@, MAX_LEVELLED as int),
            notch_fits(*notch),
        ensures
            field_cleaned(
                (FieldInput {
                    values: scan.values@,
                    marks: scan.marks@,
                    before: self.state().prev,
                    history: self.state().history,
                    width: columns_of(self.state().pal),
                    lines: lines_of(self.state().pal),
                    rows: scan.rows as int,
                    how: self.state().how,
                    notch_enabled: self.state().gate.enabled,
                    force_static: self.state().in_dropout,
                    m: self.state().m,
                }),
                *notch,
                y@,
            ),
            within(y@, MAX_FILTERED as int),
            y.len() == lines_of(self.state().pal) * columns_of(self.state().pal),
    {
        let m: Modulation = Modulation {
            deviation_hz: self.fm_deviation,
            sample_rate: self.sample_rate,
        };
        let how: Concealment = Concealment {
            smart: self.use_smart_doc,
            spatial_weight: self.smart_doc_spatial_weight,
        };
        clean_field(
            &scan.values,
            &scan.marks,
            &self.prev_frame_tbc,
            self.has_prev,
            &self.history,
            self.line_width,
            self.field_lines,
            scan.rows,
            &how,
            self.notch.enabled,
            notch,
            self.in_dropout,
            &m,
        )
    }

    /// The frame that a cleaned field makes.
    fn merge_rows(&self, y: &Vec<i64>, rows: usize) -> (frame: Vec<u32>)
        requires
            self.wf(),
            rows <= lines_of(self.state().pal),
            y.len() == lines_of(self.state().pal) * columns_of(self.state().pal),
            within(y@, MAX_FILTERED as int),
        ensures
            frame@ == merged(
                y@,
                self.state().buf,
                columns_of(self.state().pal),
                crop_of(self.state().pal),
                FRAME_WIDTH as int,
                2 * lines_of(self.state().pal),
                rows as int,
                self.state().parity,
                self.state().m,
            ),
            frame.len() == frame_size(self.state().pal),
    {
        let m: Modulation = Modulation {
            deviation_hz: self.fm_deviation,
            sample_rate: self.sample_rate,
        };
        let crop: usize = self.line_width * 16 / 100;
        merge_field(
            y,
            &self.field_buf,
            self.line_width,
            crop,
            self.width,
            self.field_lines,
            rows,
            self.field_parity,
            &m,
        )
    }

    /// Keep what the next field needs of this one.
    fn keep_field(
        &mut self,
        frame: Vec<u32>,
        values: Vec<i64>,
        y: Vec<i64>,
        found: usize,
        slots: usize,
    )
        requires
            old(self).wf(),
            frame.len() == frame_size(old(self).state().pal),
            values.len() == lines_of(old(self).state().pal) * columns_of(old(self).state().pal),
            y.len() == values.len(),
            within(values@, MAX_LEVELLED as int),
            within(y@, MAX_FILTERED as int),
            found <= slots <= MAX_ROWS,
            1 <= slots,
        ensures
            final(self).wf(),
            ({
                let st = old(self).state();
                final(self).state() == (Reconstruction {
                    parity: 1 - st.parity,
                    buf: frame@,
                    prev: Some(values@),
                    history: kept_after(
                        st.history,
                        st.window,
                        (
                            y@,
                            FieldMeta {
                                timestamp_us: (st.counter as u64).wrapping_mul(
                                    field_period_us(st.pal) as u64,
                                ),
                                field_parity: st.parity as u8,
                                sync_quality: nearest(1000 * found, slots as int) as u32,
                                mean_amplitude: mean_of_field(y@) as i64,
                            },
                        ),
                    ),
                    counter: (st.counter as u64).wrapping_add(1) as int,
                    ..st
                })
            }),
    {
        let rendered_parity: u8 = self.field_parity;
        let period_us: u64 = if self.pal {
            20_000
        } else {
            16_667
        };
        let sum: i128 = sum_field(&y);
        let count: i128 = y.len() as i128;
        let mean: i128 = nearest_div(sum, count);
        assert(-0x1000_0000_0000 <= mean <= 0x1000_0000_0000) by (nonlinear_arith)
            requires
                mean == (2 * sum + count) / (2 * count),
                count > 0,
                -(count * 0x1000_0000_0000) <= sum <= count * 0x1000_0000_0000,
        ;
        let quality: i128 = nearest_div(1000 * found as i128, slots as i128);
        assert(0 <= quality <= 1000) by (nonlinear_arith)
            requires
                quality == (2 * (1000 * found) + slots) / (2 * slots as int),
                0 <= found <= slots,
                slots > 0,
        ;
        let meta: FieldMeta = FieldMeta {
            timestamp_us: self.field_counter.wrapping_mul(period_us),
            field_parity: rendered_parity,
            sync_quality: quality as u32,
            mean_amplitude: mean as i64,
        };
        let ghost held = self.history@;
        let ghost yv = y@;
        self.field_buf = frame;
        self.field_parity = 1 - rendered_parity;
        self.prev_frame_tbc = values;
        self.history.push(y, meta);
        proof {
            self.history.lemma_wf();
            assert forall|k: int| 0 <= k < self.history@.len() implies within(
                (#[trigger] self.history@[k]).0,
                MAX_FILTERED as int,
            ) by {
                let all = held.push((yv, meta));
                let from = all.len() - self.history@.len();
                assert(self.history@[k] == all[k + from]);
                if k + from < held.len() {
                    assert(all[k + from] == held[k + from]);
                }
            }
        }
        self.field_counter = self.field_counter.wrapping_add(1);
        self.has_prev = true;
    }

    /// Render a field whose first row is known.
    fn render_field<B: Fn(&Vec<i64>) -> bool, N: Fn(&Vec<i64>) -> Vec<i64>>(
        &mut self,
        demod_data: &[i32],
        frame: &mut [u32],
        sync: &Option<VerticalSync>,
        anchor: i64,
        burst: &B,
        notch: &N,
    ) -> (used: usize)
        requires
            old(self).wf(),
            demod_data.len() <= MAX_RECORD,
            old(frame).len() == frame_size(old(self).state().pal),
            -MAX_POSITION <= anchor <= MAX_POSITION,
            sync matches Some(v) ==> sync_within(*v),
            old(self).state().parity == parity_for(old(self).state(), *sync),
            forall|w: &Vec<i64>| #[trigger] burst.requires((w,)),
            notch_fits(*notch),
        ensures
            final(self).wf(),
            used <= demod_data.len(),
            final(frame).len() == old(frame).len(),
            exists|y: Seq<i64>| #[trigger]
                field_rendered(
                    old(self).state(),
                    demod_data@,
                    *sync,
                    anchor as int,
                    *burst,
                    *notch,
                    y,
                    final(self).state(),
                    final(frame)@,
                    used as int,
                ),
    {
        let ghost st = self.state();
        let (grid, found, slots): (LineGrid, usize, usize) = self.lock_lines(demod_data, anchor);
        let used: usize = self.advance(demod_data, sync, &grid);
        let scan: FieldScan = self.scan_rows(demod_data, &grid, burst);
        let y: Vec<i64> = self.clean_scan(&scan, notch);
        let ghost yv = y@;
        let merged_frame: Vec<u32> = self.merge_rows(&y, scan.rows);
        copy_pixels(frame, &merged_frame);
        let FieldScan { values, marks: _, rows: _, agc: _ } = scan;
        self.keep_field(merged_frame, values, y, found, slots);
        reveal(field_rendered);
        assert(field_rendered(
            st,
            demod_data@,
            *sync,
            anchor as int,
            *burst,
            *notch,
            yv,
            self.state(),
            frame@,
            used as int,
        ));
        used
    }
}

proof fn lemma_burst_rows(rows: int)
    requires
        1 <= rows <= MAX_ROWS,
    ensures
        burst_rows(rows) <= MAX_ROWS,
{
    let d = burst_step(rows);
    assert((rows + d - 1) / d <= rows) by (nonlinear_arith)
        requires
            d >= 1,
            rows >= 1,
    ;
}

/// Where a field starts does not depend on parity.
proof fn lemma_anchor_turned(
    st: Reconstruction,
    parity: int,
    s: Seq<i32>,
    sync: Option<VerticalSync>,
    r: Option<int>,
)
    requires
        anchor_is(Reconstruction { parity, ..st }, s, sync, r),
    ensures
        anchor_is(st, s, sync, r),
{
}

/// The parity that sync dictates may be taken over before rendering.
proof fn lemma_turned<B: Fn(&Vec<i64>) -> bool, N: Fn(&Vec<i64>) -> Vec<i64>>(
    st: Reconstruction,
    s: Seq<i32>,
    sync: Option<VerticalSync>,
    anchor: int,
    burst: B,
    notch: N,
    y: Seq<i64>,
    after: Reconstruction,
    frame: Seq<u32>,
    used: usize,
)
    requires
        anchor_is(st, s, sync, Some(anchor)),
        field_rendered(
            (Reconstruction { parity: parity_for(st, sync), ..st }),
            s,
            sync,
            anchor,
            burst,
            notch,
            y,
            after,
            frame,
            used as int,
        ),
    ensures
        forall|frame_before: Seq<u32>| #[trigger]
            field_outcome(st, s, sync, burst, notch, after, frame_before, frame, Some(used)),
{
    reveal(field_rendered);
    let turned = Reconstruction { parity: parity_for(st, sync), ..st };
    assert(parity_for(turned, sync) == parity_for(st, sync));
    assert(raw_tips(turned, s, anchor) == raw_tips(st, s, anchor));
    assert(clean_tips(turned, s, anchor) == clean_tips(st, s, anchor));
    assert(grid_for(turned, s, anchor) == grid_for(st, s, anchor));
    assert(field_rendered(st, s, sync, anchor, burst, notch, y, after, frame, used as int));
    assert forall|frame_before: Seq<u32>| #[trigger] field_outcome(
        st,
        s,
        sync,
        burst,
        notch,
        after,
        frame_before,
        frame,
        Some(used),
    ) by {
        let r = Some(used);
        assert(r.unwrap() == used);
        assert(field_rendered(
            st,
            s,
            sync,
            anchor,
            burst,
            notch,
            y,
            after,
            frame,
            r.unwrap() as int,
        ));
    }
}

impl FrameReconstructor {
    /// Render the field that a record holds into `frame`, which has to be of
    /// the output's size. Gives how much of the record was used up.
    ///
    /// `find_vertical_sync` looks for the vertical sync group of the field,
    /// `burst` tells whether a stretch of a line is dominated by the colour
    /// subcarrier, and `notch` takes the subcarrier out of a line.
    pub fn reconstruct_frame_into<
        V: FnOnce(&[i32], u32, &SyncLevels, bool) -> Option<VerticalSync>,
        B: Fn(&Vec<i64>) -> bool,
        N: Fn(&Vec<i64>) -> Vec<i64>,
    >(
        &mut self,
        demod_data: &[i32],
        frame: &mut [u32],
        find_vertical_sync: V,
        burst: &B,
        notch: &N,
    ) -> (r: Option<usize>)
        requires
            old(self).wf(),
            demod_data.len() <= MAX_RECORD,
            forall|rate: u32, levels: &SyncLevels, pal: bool| #[trigger]
                find_vertical_sync.requires((demod_data, rate, levels, pal)),
            forall|rate: u32, levels: &SyncLevels, pal: bool, v: VerticalSync| #[trigger]
                find_vertical_sync.ensures((demod_data, rate, levels, pal), Some(v))
                    ==> sync_within(v),
            forall|w: &Vec<i64>| #[trigger] burst.requires((w,)),
            notch_fits(*notch),
        ensures
            final(self).wf(),
            demod_data.len() == 0 || old(frame).len() != frame_size(old(self).state().pal)
                ==> r is None && final(self).state() == old(self).state() && final(frame)@
                == old(frame)@,
            demod_data.len() > 0 && old(frame).len() == frame_size(old(self).state().pal)
                ==> exists|sync: Option<VerticalSync>|
                {
                    &&& find_vertical_sync.ensures(
                        (
                            demod_data,
                            old(self).state().m.sample_rate,
                            &record_levels(demod_data@, old(self).state().m),
                            old(self).state().pal,
                        ),
                        sync,
                    )
                    &&& #[trigger] field_outcome(
                        old(self).state(),
                        demod_data@,
                        sync,
                        *burst,
                        *notch,
                        final(self).state(),
                        old(frame)@,
                        final(frame)@,
                        r,
                    )
                },
            r matches Some(used) ==> used <= demod_data.len(),
            final(frame).len() == old(frame).len(),
    {
        let ghost st = self.state();
        let ghost s = demod_data@;
        if demod_data.len() == 0 || frame.len() != self.width * self.height {
            return None;
        }
        let levels: SyncLevels = self.levels(demod_data);
        let sync: Option<VerticalSync> = find_vertical_sync(
            demod_data,
            self.sample_rate,
            &levels,
            self.pal,
        );
        match &sync {
            Some(v) => match v.parity {
                Some(FieldParity::First) => {
                    self.field_parity = 0;
                },
                Some(FieldParity::Second) => {
                    self.field_parity = 1;
                },
                None => {},
            },
            None => {},
        }
        let ghost turned = self.state();
        assert(turned == Reconstruction { parity: parity_for(st, sync), ..st });
        let anchor: i64 = match self.find_anchor(demod_data, &sync) {
            None => {
                proof {
                    lemma_anchor_turned(st, parity_for(st, sync), s, sync, None);
                }
                assert(field_outcome(
                    st,
                    s,
                    sync,
                    *burst,
                    *notch,
                    self.state(),
                    old(frame)@,
                    frame@,
                    None,
                ));
                return None;
            },
            Some(a) => a,
        };
        proof {
            lemma_anchor_turned(st, parity_for(st, sync), s, sync, Some(anchor as int));
        }
        let used: usize = self.render_field(demod_data, frame, &sync, anchor, burst, notch);
        proof {
            let y = choose|y: Seq<i64>| #[trigger]
                field_rendered(
                    turned,
                    s,
                    sync,
                    anchor as int,
                    *burst,
                    *notch,
                    y,
                    self.state(),
                    frame@,
                    used as int,
                );
            lemma_turned(st, s, sync, anchor as int, *burst, *notch, y, self.state(), frame@, used);
            assert(field_outcome(
                st,
                s,
                sync,
                *burst,
                *notch,
                self.state(),
                old(frame)@,
                frame@,
                Some(used),
            ));
        }
        Some(used)
    }
}

impl FrameReconstructor {
    /// [`Self::reconstruct_frame_into`] with a new frame, which is given with
    /// how much of the record was used up.
    pub fn reconstruct_frame<
        V: FnOnce(&[i32], u32, &SyncLevels, bool) -> Option<VerticalSync>,
        B: Fn(&Vec<i64>) -> bool,
        N: Fn(&Vec<i64>) -> Vec<i64>,
    >(&mut self, demod_data: &[i32], find_vertical_sync: V, burst: &B, notch: &N) -> (r: Option<
        (Vec<u32>, usize),
    >)
        requires
            old(self).wf(),
            demod_data.len() <= MAX_RECORD,
            forall|rate: u32, levels: &SyncLevels, pal: bool| #[trigger]
                find_vertical_sync.requires((demod_data, rate, levels, pal)),
            forall|rate: u32, levels: &SyncLevels, pal: bool, v: VerticalSync| #[trigger]
                find_vertical_sync.ensures((demod_data, rate, levels, pal), Some(v))
                    ==> sync_within(v),
            forall|w: &Vec<i64>| #[trigger] burst.requires((w,)),
            notch_fits(*notch),
        ensures
            final(self).wf(),
            demod_data.len() == 0 ==> r is None && final(self).state() == old(self).state(),
            demod_data.len() > 0 ==> exists|
                sync: Option<VerticalSync>,
                blank: Seq<u32>,
                frame: Seq<u32>,
                used: Option<usize>,
            |
                {
                    &&& find_vertical_sync.ensures(
                        (
                            demod_data,
                            old(self).state().m.sample_rate,
                            &record_levels(demod_data@, old(self).state().m),
                            old(self).state().pal,
                        ),
                        sync,
                    )
                    &&& #[trigger] field_outcome(
                        old(self).state(),
                        demod_data@,
                        sync,
                        *burst,
                        *notch,
                        final(self).state(),
                        blank,
                        frame,
                        used,
                    )
                    &&& match r {
                        Some((f, n)) => f@ == frame && used == Some(n),
                        None => used is None,
                    }
                },
            r matches Some((f, n)) ==> f.len() == frame_size(old(self).state().pal) && n
                <= demod_data.len(),
    {
        let zero_pixel: u32 = 0;
        let mut frame: Vec<u32> = crate::seqs::repeated(zero_pixel, self.width * self.height);
        let ghost blank = frame@;
        let used: Option<usize> = self.reconstruct_frame_into(
            demod_data,
            frame.as_mut_slice(),
            find_vertical_sync,
            burst,
            notch,
        );
        match used {
            Some(n) => Some((frame, n)),
            None => None,
        }
    }

    /// Keep this many recent fields, from one up to eight, starting with
    /// none. With one, each field is compared with the one before only.
    pub fn with_temporal_window(self, window: usize) -> (r: Self)
        requires
            self.wf(),
        ensures
            r.wf(),
            r.state() == (Reconstruction {
                history: Seq::empty(),
                window: max(1, min(window as int, MAX_TEMPORAL_WINDOW as int)),
                ..self.state()
            }),
    {
        let window: usize = if window < 1 {
            1
        } else if window > MAX_TEMPORAL_WINDOW {
            MAX_TEMPORAL_WINDOW
        } else {
            window
        };
        let field_pixels: usize = self.field_lines * self.line_width;
        let mut r: FrameReconstructor = self;
        r.history = FrameHistory::new(window, field_pixels);
        assert(r.history@ =~= Seq::<(Seq<i64>, FieldMeta)>::empty());
        r
    }

    /// Look for sync tips with the matched filter, or with the centroid.
    pub fn with_matched_sync(self, enable: bool) -> (r: Self)
        requires
            self.wf(),
        ensures
            r.wf(),
            r.state() == (Reconstruction { matched: enable, ..self.state() }),
    {
        let mut r: FrameReconstructor = self;
        r.use_matched_sync = enable;
        r
    }

    /// Use the steady line period of recent fields, or each field's own.
    pub fn with_line_locked_clock(self, enable: bool) -> (r: Self)
        requires
            self.wf(),
        ensures
            r.wf(),
            r.state() == (Reconstruction { locked: enable, ..self.state() }),
    {
        let mut r: FrameReconstructor = self;
        r.use_line_locked_clock = enable;
        r
    }

    /// Mix neighbouring rows into concealed dropouts, at a weight in
    /// thousandths that is held between none and all.
    pub fn with_smart_doc(self, enable: bool, spatial_weight: i32) -> (r: Self)
        requires
            self.wf(),
        ensures
            r.wf(),
            r.state() == (Reconstruction {
                how: Concealment {
                    smart: enable,
                    spatial_weight: max(0, min(spatial_weight as int, 1000)) as u32,
                },
                ..self.state()
            }),
    {
        let mut r: FrameReconstructor = self;
        r.use_smart_doc = enable;
        r.smart_doc_spatial_weight = if spatial_weight < 0 {
            0
        } else if spatial_weight > 1000 {
            1000
        } else {
            spatial_weight as u32
        };
        r
    }

    /// Set the peak deviation that the levels are scaled by. Every level is
    /// derived anew for each field, so this is safe between fields.
    pub fn set_fm_deviation(&mut self, deviation_hz: u32)
        requires
            old(self).wf(),
        ensures
            final(self).wf(),
            final(self).state() == (Reconstruction {
                m: Modulation { deviation_hz, ..old(self).state().m },
                ..old(self).state()
            }),
    {
        self.fm_deviation = deviation_hz;
    }

    /// Length of a line in millionths of a sample.
    pub fn line_period_samples(&self) -> (p: i64)
        ensures
            p == self.state().period,
    {
        self.line_period
    }

    /// Share of the newest field's lines whose sync tip was found, in
    /// thousandths; none at all before the first field, so that no data does
    /// not look perfect.
    pub fn latest_sync_quality(&self) -> (q: u32)
        requires
            self.wf(),
        ensures
            q == (if self.state().history.len() == 0 {
                0
            } else {
                self.state().history.last().1.sync_quality
            }),
    {
        match self.history.current_meta() {
            Some(meta) => meta.sync_quality,
            None => 0,
        }
    }

    /// Mean value of the newest field, in nanoturns.
    pub fn latest_mean_amplitude(&self) -> (a: i64)
        requires
            self.wf(),
        ensures
            a == (if self.state().history.len() == 0 {
                0
            } else {
                self.state().history.last().1.mean_amplitude
            }),
    {
        match self.history.current_meta() {
            Some(meta) => meta.mean_amplitude,
            None => 0,
        }
    }

    /// Number of recent fields held.
    pub fn history_depth(&self) -> (n: usize)
        ensures
            n == self.state().history.len(),
    {
        self.history.len()
    }

    /// Whether the subcarrier notch is applied.
    pub fn chroma_notch_active(&self) -> (b: bool)
        ensures
            b == self.state().gate.enabled,
    {
        self.notch.enabled
    }

    /// The standard that is rendered.
    pub fn video_standard(&self) -> (s: SignalType)
        ensures
            s == (if self.state().pal {
                SignalType::AnalogVideoPal
            } else {
                SignalType::AnalogVideoNtsc
            }),
    {
        if self.pal {
            SignalType::AnalogVideoPal
        } else {
            SignalType::AnalogVideoNtsc
        }
    }
}

impl FrameReconstructor {
    /// A frame as a portable pixmap. Its dimensions are those of the output,
    /// not of the whole line.
    pub fn ppm_frame(&self, frame: &[u32]) -> (bytes: Vec<u8>)
        requires
            self.wf(),
        ensures
            bytes@ == ppm(
                FRAME_WIDTH as nat,
                (2 * lines_of(self.state().pal)) as nat,
                frame@,
            ),
    {
        ppm_bytes(self.width, self.height, frame)
    }
}

/// After a field, the next one fills the other rows; what its own sync says
/// goes first. So a field that is lost does not leave the rows swapped.
pub proof fn law_parity_follows_sync(
    st: Reconstruction,
    sync: VerticalSync,
    parity: FieldParity,
)
    requires
        sync.parity == Some(parity),
    ensures
        parity_for(st, Some(sync)) == (if parity == FieldParity::First {
            0int
        } else {
            1int
        }),
{
}

/// A rendered field leaves the rows of the other parity as they were in the
/// last frame, as far down as it was read, and blanks the rest.
pub proof fn law_rendering_interlaces<B: Fn(&Vec<i64>) -> bool, N: Fn(&Vec<i64>) -> Vec<i64>>(
    st: Reconstruction,
    s: Seq<i32>,
    sync: Option<VerticalSync>,
    anchor: int,
    burst: B,
    notch: N,
    y: Seq<i64>,
    after: Reconstruction,
    frame: Seq<u32>,
    used: int,
    i: int,
)
    requires
        field_rendered(st, s, sync, anchor, burst, notch, y, after, frame, used),
        0 <= i < frame_size(st.pal),
        0 <= st.parity <= 1,
    ensures
        frame.len() == frame_size(st.pal),
        after.buf == frame,
        after.parity == 1 - parity_for(st, sync),
        ({
            let row = i / FRAME_WIDTH as int;
            let rows = readable_rows(
                s.len() as int,
                grid_for(st, s, anchor),
                st.m.sample_rate as int,
                0,
            );
            &&& row / 2 >= rows ==> frame[i] == 0
            &&& row / 2 < rows && row % 2 != parity_for(st, sync) ==> frame[i] == st.buf[i]
        }),
{
    reveal(field_rendered);
    let lines = lines_of(st.pal);
    let rows = readable_rows(
        s.len() as int,
        grid_for(st, s, anchor),
        st.m.sample_rate as int,
        0,
    );
    assert(frame == merged(
        y,
        st.buf,
        columns_of(st.pal),
        crop_of(st.pal),
        FRAME_WIDTH as int,
        2 * lines,
        rows,
        parity_for(st, sync),
        st.m,
    ));
    assert(frame.len() == (2 * lines) * FRAME_WIDTH);
    assert((2 * lines) * FRAME_WIDTH == FRAME_WIDTH * (2 * lines)) by (nonlinear_arith);
    assert(frame[i] == merged_pixel(
        y,
        st.buf,
        columns_of(st.pal),
        crop_of(st.pal),
        FRAME_WIDTH as int,
        rows,
        parity_for(st, sync),
        st.m,
        i,
    ) as u32);
}

/// The geometry of a frame: lines are sampled at 13.5 MHz, 720 columns of
/// them are shown, from sixteen hundredths of the line on, and two fields make
/// 576 or 480 rows.
pub proof fn law_frames_have_the_studio_geometry(pal: bool)
    ensures
        ({
            let (num, den) = Standard::of(pal).line_rate();
            columns_of(pal) * num == 13_500_000 * den
        }),
        100 * crop_of(pal) <= 16 * columns_of(pal) < 100 * (crop_of(pal) + 1),
        crop_of(pal) + 720 <= columns_of(pal),
        2 * lines_of(pal) == if pal {
            576int
        } else {
            480int
        },
        frame_size(pal) == 720 * (2 * lines_of(pal)),
{
}

/// A nominal line lasts as long as the standard's line rate says, in
/// millionths of a sample, and in whole samples to half a sample of a line
/// rate in whole hertz.
pub proof fn law_nominal_lines_keep_the_line_rate(sample_rate: int, pal: bool)
    ensures
        ({
            let (num, den) = nominal_period(sample_rate, pal);
            let (hertz, per) = Standard::of(pal).line_rate();
            num * hertz == 1_000_000 * (sample_rate * (den * per)) && den > 0
        }),
        ({
            let n = nominal_samples(sample_rate, pal);
            let hertz: int = if pal {
                15_625
            } else {
                15_734
            };
            -hertz < 2 * (hertz * n - sample_rate) <= hertz
        }),
{
    law_nearest_is_within_half(
        sample_rate,
        if pal {
            15_625
        } else {
            15_734
        },
    );
    let (num, den) = nominal_period(sample_rate, pal);
    if pal {
        assert(num == sample_rate * 1_000_000);
        assert(num * 15_625 == 1_000_000 * (sample_rate * 15_625));
    } else {
        assert(num == sample_rate * 1001 * 1_000_000);
        assert(num * 15_750_000 == 1_000_000 * (sample_rate * (15_750_000 * 1001)))
            by (nonlinear_arith)
            requires
                num == sample_rate * 1001 * 1_000_000,
        ;
    }
}

/// A sample is in vertical sync where its frequency is three tenths of the
/// deviation below blanking or more; a sync tip has to be 0.24 of it below.
/// The tip that a modulation implies is four tenths of it below, to rounding.
pub proof fn law_sync_levels_follow_the_deviation(v: i32, m: Modulation)
    requires
        m.sample_rate > 0,
    ensures
        ({
            let nanohertz = v * m.sample_rate;
            let deviation = 1_000_000_000 * m.deviation_hz;
            &&& below(v, sync_level(m)) <==> 100 * nanohertz < -30 * deviation
            &&& below(v, tip_limit(m)) <==> 100 * nanohertz < -24 * deviation
        }),
        implied_levels(m).blanking == 0,
        implied_levels(m).sync_tip > i32::MIN ==> -m.sample_rate < 2 * (m.sample_rate
            * implied_levels(m).sync_tip + 400_000_000 * m.deviation_hz) <= m.sample_rate,
{
    let rate = m.sample_rate as int;
    let want = -(400_000_000 * m.deviation_hz);
    law_nearest_is_within_half(want, rate);
    let q = nearest(want, rate);
    assert(q <= 0) by (nonlinear_arith)
        requires
            -rate < 2 * (rate * q - want) <= rate,
            want <= 0,
            rate > 0,
    ;
}

/// How far around a tip its level is sought, how wide a pulse is taken for
/// and how far a row's tip may be from where it is expected are times: 3.5,
/// 4.7 and 2 microseconds.
pub proof fn law_tips_are_sought_in_time(st: Reconstruction, radius: usize)
    ensures
        ({
            let t = search_of(st, radius as int);
            let rate = st.m.sample_rate as int;
            &&& t.matched == st.matched
            &&& t.radius == radius
            &&& -10_000_000 < 2 * (10_000_000 * t.width - 47 * rate) <= 10_000_000
            &&& 10_000_000 * t.porch_radius <= 35 * rate < 10_000_000 * (t.porch_radius + 1)
            &&& t.ma_win == 1 || 2_000_000 * t.ma_win <= rate
            &&& rate < 2_000_000 * (t.ma_win + 1)
            &&& 500_000 * row_radius(st.m) <= rate < 500_000 * (row_radius(st.m) + 1)
            &&& t.reject_above == tip_limit(st.m)
        }),
{
    let rate = st.m.sample_rate as int;
    law_nearest_is_within_half(47 * rate, 10_000_000);
}

/// Where the vertical sync group was found, the field starts where it says,
/// provided the record holds the whole field and two lines more.
pub proof fn law_field_starts_where_its_sync_says(
    st: Reconstruction,
    s: Seq<i32>,
    v: VerticalSync,
    r: Option<int>,
)
    requires
        anchor_is(st, s, Some(v), r),
        v.field_active_start >= 0,
    ensures
        r is Some ==> r == Some(v.field_active_start as int),
        r is Some <==> v.field_active_start / 1_000_000 + st.samples_per_line * (lines_of(st.pal)
            + 2) <= s.len(),
{
}

/// One record has one anchor.
pub proof fn law_anchor_is_determined(
    st: Reconstruction,
    s: Seq<i32>,
    sync: Option<VerticalSync>,
    a: Option<int>,
    b: Option<int>,
)
    requires
        anchor_is(st, s, sync, a),
        anchor_is(st, s, sync, b),
        st.samples_per_line >= 0,
    ensures
        a == b,
{
    if sync is None {
        let spl = st.samples_per_line;
        let level = sync_level(st.m);
        let x = choose|dense: Option<int>|
            {
                &&& #[trigger] first_dense(s, level, spl, dense)
                &&& a == match dense {
                    None => None,
                    Some(k) => {
                        let expected = (k + (BLANKING_ROWS + 1) * spl) * SUBSAMPLE;
                        if s.len() < k + spl * (BLANKING_ROWS + lines_of(st.pal) + 2) {
                            None
                        } else {
                            match search_of(st, spl).tip(s, expected) {
                                Some(p) => Some(p),
                                None => Some(expected),
                            }
                        }
                    },
                }
            };
        let y = choose|dense: Option<int>|
            {
                &&& #[trigger] first_dense(s, level, spl, dense)
                &&& b == match dense {
                    None => None,
                    Some(k) => {
                        let expected = (k + (BLANKING_ROWS + 1) * spl) * SUBSAMPLE;
                        if s.len() < k + spl * (BLANKING_ROWS + lines_of(st.pal) + 2) {
                            None
                        } else {
                            match search_of(st, spl).tip(s, expected) {
                                Some(p) => Some(p),
                                None => Some(expected),
                            }
                        }
                    },
                }
            };
        assert(x == y) by {
            if x is Some && y is Some {
                assert(dense_at(s, level, spl, x.unwrap()));
                assert(dense_at(s, level, spl, y.unwrap()));
            } else if x is Some {
                assert(dense_at(s, level, spl, x.unwrap()));
            } else if y is Some {
                assert(dense_at(s, level, spl, y.unwrap()));
            }
        }
    }
}

/// Without a group, a field is sought 21 lines after the first window of a
/// line's length that reaches into a long low stretch by more than half.
pub proof fn law_field_starts_after_the_plateau(
    st: Reconstruction,
    s: Seq<i32>,
    from: int,
    to: int,
    r: Option<int>,
)
    requires
        anchor_is(st, s, None, r),
        1 <= st.samples_per_line <= from,
        from + st.samples_per_line <= to <= s.len() - st.samples_per_line,
        forall|i: int|
            0 <= i < s.len() ==> ((#[trigger] s[i]) * sync_level(st.m).den < sync_level(st.m).num
                <==> from <= i < to),
    ensures
        ({
            let spl = st.samples_per_line;
            let k = from - spl + spl / 2 + 1;
            let expected = (k + 21 * spl) * 1_000_000;
            if s.len() < k + spl * (lines_of(st.pal) + 22) {
                r is None
            } else {
                r == Some(match search_of(st, spl).tip(s, expected) {
                    Some(p) => p,
                    None => expected,
                })
            }
        }),
{
    let spl = st.samples_per_line;
    let level = sync_level(st.m);
    let dense = choose|dense: Option<int>|
        {
            &&& #[trigger] first_dense(s, level, spl, dense)
            &&& r == match dense {
                None => None,
                Some(k) => {
                    let expected = (k + (BLANKING_ROWS + 1) * spl) * SUBSAMPLE;
                    if s.len() < k + spl * (BLANKING_ROWS + lines_of(st.pal) + 2) {
                        None
                    } else {
                        match search_of(st, spl).tip(s, expected) {
                            Some(p) => Some(p),
                            None => Some(expected),
                        }
                    }
                },
            }
        };
    law_plateau_is_met_by_half(s, level, spl, from, to, dense);
}

/// A field without a period of its own leaves the line period alone. With one,
/// the period is that field's, or the median of the last eight where the
/// clock is locked to the lines.
pub proof fn law_period_is_steady_when_locked(st: Reconstruction, raw: Seq<Option<i64>>)
    requires
        st.periods.len() <= 8,
    ensures
        ({
            let own = field_period(raw, st.samples_per_line);
            let all = st.periods.push(own.unwrap() as i64);
            let n = all.len() as int;
            let last = all.subrange(
                if n > 8 {
                    n - 8
                } else {
                    0
                },
                n,
            );
            &&& own is None ==> period_after(st, raw) == st.period && periods_after(st, raw)
                == st.periods
            &&& own is Some ==> periods_after(st, raw) == last
            &&& own is Some && !st.locked ==> period_after(st, raw) == own.unwrap()
            &&& own is Some && st.locked ==> period_after(st, raw) == median_of(last)
        }),
{
    if let Some(p) = field_period(raw, st.samples_per_line) {
        law_last_eight_periods_are_remembered(st.periods, p as i64);
    }
}

/// The quality of a field is the share of its rows that have a tip, in
/// thousandths and to rounding.
pub proof fn law_quality_is_the_share_of_tips(clean: Seq<Option<i64>>)
    requires
        clean.len() > 0,
    ensures
        ({
            let n = clean.len() as int;
            let found = clean.filter(|t: Option<i64>| t is Some).len();
            -n < 2 * (n * quality_of(clean) - 1000 * found) <= n
        }),
        (forall|i: int| 0 <= i < clean.len() ==> #[trigger] clean[i] is Some) ==> quality_of(clean)
            == 1000,
        (forall|i: int| 0 <= i < clean.len() ==> #[trigger] clean[i] is None) ==> quality_of(clean)
            == 0,
{
    let n = clean.len() as int;
    let has = |t: Option<i64>| t is Some;
    lemma_tips_counted(clean);
    let found = clean.filter(has).len() as int;
    law_nearest_is_within_half(1000 * found, n);
    let q = quality_of(clean);
    if forall|i: int| 0 <= i < clean.len() ==> #[trigger] clean[i] is Some {
        lemma_all_tips(clean);
        assert(q == 1000) by (nonlinear_arith)
            requires
                n > 0,
                -n < 2 * (n * q - 1000 * n) <= n,
        ;
    }
    if forall|i: int| 0 <= i < clean.len() ==> #[trigger] clean[i] is None {
        lemma_no_tips(clean);
        assert(q == 0) by (nonlinear_arith)
            requires
                n > 0,
                -n < 2 * (n * q) <= n,
        ;
    }
}

proof fn lemma_tips_counted(clean: Seq<Option<i64>>)
    ensures
        tips_found(clean) == clean.filter(|t: Option<i64>| t is Some).len(),
    decreases clean.len(),
{
    reveal(Seq::filter);
    if clean.len() > 0 {
        lemma_tips_counted(clean.drop_last());
    }
}

proof fn lemma_all_tips(clean: Seq<Option<i64>>)
    requires
        forall|i: int| 0 <= i < clean.len() ==> #[trigger] clean[i] is Some,
    ensures
        tips_found(clean) == clean.len(),
    decreases clean.len(),
{
    if clean.len() > 0 {
        let rest = clean.drop_last();
        assert forall|i: int| 0 <= i < rest.len() implies #[trigger] rest[i] is Some by {
            assert(rest[i] == clean[i]);
        }
        lemma_all_tips(rest);
        assert(clean[clean.len() - 1] is Some);
    }
}

proof fn lemma_no_tips(clean: Seq<Option<i64>>)
    requires
        forall|i: int| 0 <= i < clean.len() ==> #[trigger] clean[i] is None,
    ensures
        tips_found(clean) == 0,
    decreases clean.len(),
{
    if clean.len() > 0 {
        let rest = clean.drop_last();
        assert forall|i: int| 0 <= i < rest.len() implies #[trigger] rest[i] is None by {
            assert(rest[i] == clean[i]);
        }
        lemma_no_tips(rest);
        assert(clean[clean.len() - 1] is None);
    }
}

/// The mean of a field lies between its extremes; raising every value by the
/// same amount raises it by that.
pub proof fn law_mean_follows_the_field(y: Seq<i64>, z: Seq<i64>, lo: int, hi: int, c: int)
    requires
        y.len() > 0,
        forall|i: int| 0 <= i < y.len() ==> lo <= #[trigger] y[i] <= hi,
        z.len() == y.len(),
        forall|i: int| 0 <= i < y.len() ==> #[trigger] z[i] == y[i] + c,
    ensures
        lo <= mean_of_field(y) <= hi,
        mean_of_field(z) == mean_of_field(y) + c,
{
    lemma_total_within(y, lo, hi);
    lemma_total_raised(y, z, c);
    let n = y.len() as int;
    let t = total_of(y);
    law_nearest_is_within_half(t, n);
    law_nearest_is_within_half(t + n * c, n);
    let q = nearest(t, n);
    let r = nearest(t + n * c, n);
    assert(lo <= q <= hi) by (nonlinear_arith)
        requires
            n > 0,
            -n < 2 * (n * q - t) <= n,
            n * lo <= t <= n * hi,
    ;
    assert(r == q + c) by (nonlinear_arith)
        requires
            n > 0,
            -n < 2 * (n * q - t) <= n,
            -n < 2 * (n * r - (t + n * c)) <= n,
    ;
}

proof fn lemma_total_within(y: Seq<i64>, lo: int, hi: int)
    requires
        forall|i: int| 0 <= i < y.len() ==> lo <= #[trigger] y[i] <= hi,
    ensures
        y.len() * lo <= total_of(y) <= y.len() * hi,
    decreases y.len(),
{
    if y.len() > 0 {
        let rest = y.drop_last();
        assert forall|i: int| 0 <= i < rest.len() implies lo <= #[trigger] rest[i] <= hi by {
            assert(rest[i] == y[i]);
        }
        lemma_total_within(rest, lo, hi);
        assert(lo <= y[y.len() - 1] <= hi);
        let n = y.len() as int;
        assert((n - 1) * lo + lo == n * lo) by (nonlinear_arith);
        assert((n - 1) * hi + hi == n * hi) by (nonlinear_arith);
    } else {
        assert(0 * lo == 0 && 0 * hi == 0);
    }
}

proof fn lemma_total_raised(y: Seq<i64>, z: Seq<i64>, c: int)
    requires
        z.len() == y.len(),
        forall|i: int| 0 <= i < y.len() ==> #[trigger] z[i] == y[i] + c,
    ensures
        total_of(z) == total_of(y) + y.len() * c,
    decreases y.len(),
{
    if y.len() > 0 {
        let (a, b) = (y.drop_last(), z.drop_last());
        assert forall|i: int| 0 <= i < a.len() implies #[trigger] b[i] == a[i] + c by {
            assert(b[i] == z[i] && a[i] == y[i]);
        }
        lemma_total_raised(a, b, c);
        assert(z[z.len() - 1] == y[y.len() - 1] + c);
        let n = y.len() as int;
        assert((n - 1) * c + c == n * c) by (nonlinear_arith);
    } else {
        assert(0 * c == 0);
    }
}

/// Where the vertical sync group was found, the record is used up to six lines
/// ahead of the next group, a field later, to half a sample; never more than
/// all of it.
pub proof fn law_next_group_is_left_over(
    st: Reconstruction,
    s: Seq<i32>,
    v: VerticalSync,
    grid: LineGrid,
)
    ensures
        ({
            let used = used_up(st, s, Some(v), grid);
            // Twice the position of the next group, less six lines.
            let next2 = 2 * v.broad_start + (Standard::of(st.pal).half_lines() - 12) * grid.period;
            &&& 0 <= used <= s.len()
            &&& 0 < used < s.len() ==> -1_000_000 < 2_000_000 * used - next2 <= 1_000_000
            &&& used == 0 && s.len() > 0 ==> next2 < 1_000_000
            &&& used == s.len() ==> s.len() == 0 || next2 >= 2_000_000 * s.len() - 1_000_000
        }),
{
    let half_lines: int = if st.pal {
        613
    } else {
        513
    };
    let next2 = 2 * v.broad_start + half_lines * grid.period;
    law_nearest_is_within_half(next2, 2_000_000);
}

/// Without a group, the record is used up to the end of the field or, where
/// there is a dense window within eight lines after it, to the densest.
pub proof fn law_search_for_the_next_plateau_is_short(
    st: Reconstruction,
    s: Seq<i32>,
    grid: LineGrid,
)
    requires
        st.samples_per_line >= 1,
        grid.position(lines_of(st.pal)) >= 0,
    ensures
        ({
            let used = used_up(st, s, None, grid);
            let end = sample_at(grid.start + lines_of(st.pal) * grid.period);
            &&& used <= s.len()
            &&& end <= s.len() ==> end <= used
            &&& used == end || used == s.len() || used < end + 8 * st.samples_per_line
        }),
{
    let spl = st.samples_per_line;
    let lo = sample_at(grid.start + grid.period * lines_of(st.pal));
    assert(grid.period * lines_of(st.pal) == lines_of(st.pal) * grid.period) by (nonlinear_arith);
    let hi = min(lo + 8 * spl, max(0, s.len() - spl));
    let stride = max(spl / 4, 1);
    if lo < hi {
        assert(0 * stride == 0);
        law_strongest_window_is_strongest(s, sync_level(st.m), spl, stride, lo, hi, 0);
        let r = strongest_window(s, sync_level(st.m), spl, stride, lo, hi);
        let j = choose|j: int| 0 <= j && r == lo + #[trigger] (j * stride) && r < hi;
        assert(0 <= j * stride) by (nonlinear_arith)
            requires
                0 <= j,
                0 < stride,
        ;
    }
}

/// What rendering a field changes for the next one: the levelled field is the
/// one before, the cleaned one is the newest of the recent fields, with its
/// quality, mean and parity, and the field is counted. What was set up stays.
pub proof fn law_rendering_hands_the_field_on<
    B: Fn(&Vec<i64>) -> bool,
    N: Fn(&Vec<i64>) -> Vec<i64>,
>(
    st: Reconstruction,
    s: Seq<i32>,
    sync: Option<VerticalSync>,
    anchor: int,
    burst: B,
    notch: N,
    y: Seq<i64>,
    after: Reconstruction,
    frame: Seq<u32>,
    used: int,
)
    requires
        field_rendered(st, s, sync, anchor, burst, notch, y, after, frame, used),
        1 <= st.window,
        0 <= st.counter < u64::MAX,
        0 <= parity_for(st, sync) <= 1,
        0 <= quality_of(clean_tips(st, s, anchor)) <= 1000,
        i64::MIN <= mean_of_field(y) <= i64::MAX,
    ensures
        ({
            let grid = grid_for(st, s, anchor);
            let rows = readable_rows(s.len() as int, grid, st.m.sample_rate as int, 0);
            let clean = clean_tips(st, s, anchor);
            &&& after.pal == st.pal && after.m == st.m && after.samples_per_line
                == st.samples_per_line
            &&& after.matched == st.matched && after.locked == st.locked && after.how == st.how
            &&& after.window == st.window && after.width == st.width && after.height == st.height
            &&& after.prev == Some(
                field_values(
                    s,
                    grid,
                    st.m,
                    columns_of(st.pal),
                    st.agc,
                    lines_of(st.pal),
                    rows,
                ),
            )
            &&& after.history.len() > 0
            &&& after.history.last().0 == y
            &&& after.history.last().1.field_parity == parity_for(st, sync)
            &&& after.history.last().1.sync_quality == quality_of(clean)
            &&& after.history.last().1.mean_amplitude == mean_of_field(y)
            &&& after.counter == st.counter + 1
            &&& after.period == grid.period
            &&& after.in_dropout == dropout_next(
                st.in_dropout,
                tips_found(clean),
                clean.len() as int,
            )
            &&& rows <= 8 ==> after.gate == st.gate
        }),
{
    reveal(field_rendered);
}

/// The tips of all visible rows and of four more are sought, unless the record
/// ends before: then the next one would have been too close to its end.
pub proof fn law_four_more_rows_are_followed(st: Reconstruction, s: Seq<i32>, anchor: int)
    ensures
        ({
            let raw = raw_tips(st, s, anchor);
            let search = search_of(st, row_radius(st.m));
            let next = cursor(raw, st.period) + st.period;
            &&& 1 <= raw.len() <= lines_of(st.pal) + 4
            &&& raw.len() < lines_of(st.pal) + 4 ==> sample_at(next) + search.radius
                + search.ma_win >= s.len()
            &&& raw[0] == Some(anchor as i64)
        }),
{
    let search = search_of(st, row_radius(st.m));
    let rows = lines_of(st.pal) + 4;
    lemma_followed_len(s, search, anchor as i64, st.period, rows);
    if raw_tips(st, s, anchor).len() < rows {
        law_following_stops_at_the_end(s, search, anchor as i64, st.period, rows);
    }
}

/// A field's grid has a row for each visible line, as far as tips were sought,
/// and lies on those that are one line after the one before.
pub proof fn law_grid_covers_the_visible_lines(st: Reconstruction, s: Seq<i32>, anchor: int)
    ensures
        ({
            let raw = raw_tips(st, s, anchor);
            let grid = grid_for(st, s, anchor);
            &&& 1 <= grid.rows <= lines_of(st.pal)
            &&& raw.len() >= lines_of(st.pal) ==> grid.rows == lines_of(st.pal)
            &&& raw.len() < lines_of(st.pal) ==> grid.rows == raw.len()
            &&& clean_tips(st, s, anchor).len() == raw.len()
            &&& grid.period == period_after(st, raw) as i64
        }),
{
    law_four_more_rows_are_followed(st, s, anchor);
}

/// Without a group, a dense window within eight lines after the field, on a
/// grid of a quarter of a line, is never passed over for a less dense one.
pub proof fn law_densest_window_ends_the_field(
    st: Reconstruction,
    s: Seq<i32>,
    grid: LineGrid,
    k: int,
)
    requires
        st.samples_per_line >= 4,
        0 <= k,
        ({
            let spl = st.samples_per_line;
            let end = sample_at(grid.start + lines_of(st.pal) * grid.period);
            let p = end + k * (spl / 4);
            &&& p < end + 8 * spl
            &&& p + spl < s.len()
            &&& 2 * count_below(s, sync_level(st.m), p, p + spl) > spl
        }),
    ensures
        ({
            let spl = st.samples_per_line;
            let end = sample_at(grid.start + lines_of(st.pal) * grid.period);
            let p = end + k * (spl / 4);
            let used = used_up(st, s, None, grid);
            count_below(s, sync_level(st.m), used, used + spl) >= count_below(
                s,
                sync_level(st.m),
                p,
                p + spl,
            )
        }),
{
    let spl = st.samples_per_line;
    let lo = sample_at(grid.start + grid.period * lines_of(st.pal));
    assert(grid.period * lines_of(st.pal) == lines_of(st.pal) * grid.period) by (nonlinear_arith);
    let hi = min(lo + 8 * spl, max(0, s.len() - spl));
    let stride = max(spl / 4, 1);
    law_strongest_window_is_strongest(s, sync_level(st.m), spl, stride, lo, hi, k);
    let r = strongest_window(s, sync_level(st.m), spl, stride, lo, hi);
    let j = choose|j: int| 0 <= j && r == lo + #[trigger] (j * stride) && r < hi;
    assert(r <= s.len());
}

/// A record that holds no whole field changes nothing but the parity, and
/// that only where its sync says so; the frame stays as it was.
pub proof fn law_no_field_leaves_the_state<
    B: Fn(&Vec<i64>) -> bool,
    N: Fn(&Vec<i64>) -> Vec<i64>,
>(
    st: Reconstruction,
    s: Seq<i32>,
    sync: Option<VerticalSync>,
    burst: B,
    notch: N,
    after: Reconstruction,
    frame_before: Seq<u32>,
    frame: Seq<u32>,
)
    requires
        field_outcome(st, s, sync, burst, notch, after, frame_before, frame, None),
    ensures
        frame == frame_before,
        after == (Reconstruction { parity: after.parity, ..st }),
        sync is None || sync.unwrap().parity is None ==> after == st,
        sync matches Some(v) ==> v.field_active_start >= 0 ==> s.len() < v.field_active_start
            / 1_000_000 + st.samples_per_line * (lines_of(st.pal) + 2),
{
}

/// The levels of a record are measured where enough pulses are in it, and
/// implied by the modulation otherwise; without a group that tells, the parity
/// is the one whose turn it is.
pub proof fn law_measured_levels_go_first(
    s: Seq<i32>,
    m: Modulation,
    st: Reconstruction,
    v: VerticalSync,
)
    ensures
        deviation_of(s, m.sample_rate as int) matches Some(e) ==> record_levels(s, m) == e.levels,
        deviation_of(s, m.sample_rate as int) is None ==> record_levels(s, m) == implied_levels(m),
        parity_for(st, None) == st.parity,
        v.parity is None ==> parity_for(st, Some(v)) == st.parity,
{
}

/// Where a rendered field's pixels come from. Each row that was read shows its
/// line's cleaned values in the output row of its parity, sharpened, from the
/// crop on. Without the notch a value is denoised by the recent fields, as in
/// dropout or not by what this field's own tips say; where it dropped out it
/// is first concealed by the field before.
pub proof fn law_rendered_pixels_show_cleaned_values<
    B: Fn(&Vec<i64>) -> bool,
    N: Fn(&Vec<i64>) -> Vec<i64>,
>(
    st: Reconstruction,
    s: Seq<i32>,
    sync: Option<VerticalSync>,
    anchor: int,
    burst: B,
    notch: N,
    y: Seq<i64>,
    after: Reconstruction,
    frame: Seq<u32>,
    used: int,
    row: int,
    col: int,
)
    requires
        field_rendered(st, s, sync, anchor, burst, notch, y, after, frame, used),
        0 <= parity_for(st, sync) <= 1,
        0 <= row < readable_rows(
            s.len() as int,
            grid_for(st, s, anchor),
            st.m.sample_rate as int,
            0,
        ),
        row < lines_of(st.pal),
        0 <= col < 720,
    ensures
        ({
            let grid = grid_for(st, s, anchor);
            let rows = readable_rows(s.len() as int, grid, st.m.sample_rate as int, 0);
            let width = columns_of(st.pal);
            let lines = lines_of(st.pal);
            let at = row * width + crop_of(st.pal) + col;
            let values = field_values(s, grid, st.m, width, st.agc, lines, rows);
            let marks = field_marks(s, grid, st.m, width, lines, rows);
            let clean = clean_tips(st, s, anchor);
            let dropout = dropout_next(st.in_dropout, tips_found(clean), clean.len() as int);
            let shown = frame[(2 * row + parity_for(st, sync)) * 720 + col];
            &&& rows <= lines && crop_of(st.pal) + col < width - 1 ==> shown % 256 == luma(
                7 * y[at] - y[at - 1] - y[at + 1],
                st.m,
            )
            &&& !after.gate.enabled && (!marks[at] || st.prev is None) ==> y[at] == denoised(
                values[at] as int,
                past_values(st.history, at),
                dropout,
                st.m,
            )
            &&& !after.gate.enabled && marks[at] && st.prev is Some ==> y[at] == denoised(
                concealed(
                    values,
                    marks,
                    st.prev.unwrap(),
                    width,
                    rows,
                    st.how,
                    at,
                ) as i64 as int,
                past_values(st.history, at),
                dropout,
                st.m,
            )
            &&& after.agc == agc_before(s, grid, st.m, width, st.agc, rows)
            &&& after.periods == periods_after(st, raw_tips(st, s, anchor))
            &&& used == used_up(st, s, sync, grid)
        }),
{
    reveal(field_rendered);
    let grid = grid_for(st, s, anchor);
    let rows = readable_rows(s.len() as int, grid, st.m.sample_rate as int, 0);
    let width = columns_of(st.pal);
    let lines = lines_of(st.pal);
    let clean = clean_tips(st, s, anchor);
    let crop = crop_of(st.pal);
    let parity = parity_for(st, sync);
    let f = FieldInput {
        values: field_values(s, grid, st.m, width, st.agc, lines, rows),
        marks: field_marks(s, grid, st.m, width, lines, rows),
        before: st.prev,
        history: st.history,
        width,
        lines,
        rows,
        how: st.how,
        notch_enabled: after.gate.enabled,
        force_static: dropout_next(st.in_dropout, tips_found(clean), clean.len() as int),
        m: st.m,
    };
    assert(field_cleaned(f, notch, y));
    law_frames_have_the_studio_geometry(st.pal);
    assert(row * width + crop + col == row * width + (crop + col));
    if !after.gate.enabled {
        law_values_are_concealed_then_denoised(f, notch, y, row, crop + col);
    }
    if rows <= lines && crop + col < width - 1 {
        assert(rows * width <= lines * width) by (nonlinear_arith)
            requires
                rows <= lines,
                width > 0,
        ;
        law_pixels_come_from_their_line(
            y,
            st.buf,
            width,
            crop,
            720,
            2 * lines,
            rows,
            parity,
            st.m,
            row,
            parity,
            col,
        );
    }
}

} // verus!
