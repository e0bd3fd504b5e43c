//! Standards-shaped NTSC and PAL fields: pre-equalizing, serrated broad and
//! post-equalizing pulses, blanking, and a test pattern.
//!
//! Time is counted in ticks that divide every duration of a standard, so the
//! layout of a field is exact and no rounding adds up from field to field.
//! Levels are in units of 1/5040 IRE, which divides every step of every
//! pattern.

use vstd::prelude::*;

use crate::levels::{floor_div, max, min, sum_range};
use crate::timing::{round_div, Standard};
use crate::vbi::consts;
use crate::vbi::FieldParity;
use crate::video::sync::{law_nearest_is_within_half, nearest, nearest_div};

verus! {

/// Output width that pattern columns refer to.
pub const OUTPUT_WIDTH: usize = 720;

/// One IRE in level units.
pub const UNITS_PER_IRE: i32 = 5_040;

/// Sync level: 40 IRE below blanking.
pub const SYNC_LEVEL: i32 = -201_600;

/// White level: 100 IRE.
pub const WHITE_LEVEL: i32 = 504_000;

/// A test pattern painted into the visible lines of a field.
#[derive(Debug, Clone, Copy, PartialEq, Eq, Structural)]
pub enum TestPattern {
    /// Constant level.
    Flat(i32),
    /// From 0 to 100 IRE across each line.
    GrayRamp,
    /// Eight steps from 0 to 100 IRE across each line.
    Bars,
    /// A white rectangle on black. Rows count visible lines of the field,
    /// columns are relative to [`OUTPUT_WIDTH`].
    WhiteSquare { row0: usize, col0: usize, h: usize, w: usize },
}

impl TestPattern {
    /// Level at a visible line and column.
    pub open spec fn level(self, line: int, col: int) -> i32 {
        match self {
            TestPattern::Flat(level) => level,
            TestPattern::GrayRamp => (700 * col) as i32,
            TestPattern::Bars => (72_000 * min(col * 8 / 720, 7)) as i32,
            TestPattern::WhiteSquare { row0, col0, h, w } => if row0 <= line < row0 + h && col0
                <= col < col0 + w {
                WHITE_LEVEL
            } else {
                0
            },
        }
    }

    /// Level at a visible line and column.
    pub fn level_at(&self, line: usize, col: usize) -> (level: i32)
        requires
            col < OUTPUT_WIDTH,
        ensures
            level == self.level(line as int, col as int),
    {
        match *self {
            TestPattern::Flat(level) => level,
            TestPattern::GrayRamp => 700 * (col as i32),
            TestPattern::Bars => {
                let bar: usize = col * 8 / 720;
                72_000 * (bar as i32)
            },
            TestPattern::WhiteSquare { row0, col0, h, w } => if row0 <= line && line - row0 < h
                && col0 <= col && col - col0 < w {
                WHITE_LEVEL
            } else {
                0
            },
        }
    }
}

/// How a standard lays out a field, in ticks and half-lines.
#[derive(Debug, Clone, Copy, PartialEq, Eq, Structural)]
pub struct StandardParams {
    pub ticks_per_second: u64,
    pub half_line: u64,
    pub eq_pulses: usize,
    pub broad_pulses: usize,
    pub posteq_pulses: usize,
    pub eq_width: u64,
    pub broad_low: u64,
    pub h_sync: u64,
    pub back_porch: u64,
    /// Half-lines from the first pulse to the picture of a first field.
    pub active_start: usize,
    pub active_lines: usize,
    /// Half-lines in a field.
    pub half_lines: usize,
}

/// How a standard lays out a field.
pub open spec fn layout(is_pal: bool) -> StandardParams {
    if is_pal {
        StandardParams {
            ticks_per_second: 100_000_000,
            half_line: 3_200,
            eq_pulses: 5,
            broad_pulses: 5,
            posteq_pulses: 5,
            eq_width: 235,
            broad_low: 2_730,
            h_sync: 470,
            back_porch: 580,
            active_start: 47,
            active_lines: 288,
            half_lines: 625,
        }
    } else {
        StandardParams {
            ticks_per_second: 630_000_000,
            half_line: 20_020,
            eq_pulses: 6,
            broad_pulses: 6,
            posteq_pulses: 6,
            eq_width: 1_449,
            broad_low: 17_073,
            h_sync: 2_961,
            back_porch: 3_654,
            active_start: 42,
            active_lines: 240,
            half_lines: 525,
        }
    }
}

/// How a standard lays out a field.
pub fn params(is_pal: bool) -> (p: StandardParams)
    ensures
        p == layout(is_pal),
{
    if is_pal {
        StandardParams {
            ticks_per_second: 100_000_000,
            half_line: 3_200,
            eq_pulses: 5,
            broad_pulses: 5,
            posteq_pulses: 5,
            eq_width: 235,
            broad_low: 2_730,
            h_sync: 470,
            back_porch: 580,
            active_start: 47,
            active_lines: 288,
            half_lines: 625,
        }
    } else {
        StandardParams {
            ticks_per_second: 630_000_000,
            half_line: 20_020,
            eq_pulses: 6,
            broad_pulses: 6,
            posteq_pulses: 6,
            eq_width: 1_449,
            broad_low: 17_073,
            h_sync: 2_961,
            back_porch: 3_654,
            active_start: 42,
            active_lines: 240,
            half_lines: 525,
        }
    }
}

/// What a stretch of signal holds.
#[derive(Debug, Clone, Copy, PartialEq, Eq, Structural)]
pub enum SegmentLevel {
    Sync,
    Blank,
    /// A visible line of the pattern.
    Picture(usize),
}

/// A stretch of signal.
#[derive(Debug, Clone, Copy, PartialEq, Eq, Structural)]
pub struct Segment {
    pub ticks: u64,
    pub level: SegmentLevel,
}

/// Pulses that are low for `low` ticks of a slot and blank for the rest.
pub open spec fn pulses(n: int, low: u64, slot: u64) -> Seq<Segment>
    decreases n,
{
    if n <= 0 {
        Seq::empty()
    } else {
        pulses(n - 1, low, slot) + seq![
            Segment { ticks: low, level: SegmentLevel::Sync },
            Segment { ticks: (slot - low) as u64, level: SegmentLevel::Blank },
        ]
    }
}

/// Visible lines: sync pulse, back porch, picture.
pub open spec fn picture_lines(n: int, p: StandardParams) -> Seq<Segment>
    decreases n,
{
    if n <= 0 {
        Seq::empty()
    } else {
        picture_lines(n - 1, p) + seq![
            Segment { ticks: p.h_sync, level: SegmentLevel::Sync },
            Segment { ticks: p.back_porch, level: SegmentLevel::Blank },
            Segment {
                ticks: (2 * p.half_line - p.h_sync - p.back_porch) as u64,
                level: SegmentLevel::Picture((n - 1) as usize),
            },
        ]
    }
}

/// Blanking without a pulse, of no or one half-line.
pub open spec fn half_line_gap(half_lines: int, p: StandardParams) -> Seq<Segment> {
    if half_lines > 0 {
        seq![Segment { ticks: p.half_line, level: SegmentLevel::Blank }]
    } else {
        Seq::empty()
    }
}

/// Half-lines from the first pulse of a field to its picture.
pub open spec fn picture_start(p: StandardParams, parity: FieldParity) -> int {
    p.active_start + if parity == FieldParity::Second {
        1int
    } else {
        0int
    }
}

/// Half-lines of blanking between the vertical sync and the picture.
pub open spec fn lead(p: StandardParams, parity: FieldParity) -> int {
    picture_start(p, parity) - p.eq_pulses - p.broad_pulses - p.posteq_pulses
}

/// Half-lines of blanking after the picture.
pub open spec fn tail(p: StandardParams, parity: FieldParity) -> int {
    p.half_lines - picture_start(p, parity) - 2 * p.active_lines
}

/// The whole signal of one field.
pub open spec fn field_segments(p: StandardParams, parity: FieldParity) -> Seq<Segment> {
    let line = (2 * p.half_line) as u64;
    pulses(p.eq_pulses as int, p.eq_width, p.half_line) + pulses(
        p.broad_pulses as int,
        p.broad_low,
        p.half_line,
    ) + pulses(p.posteq_pulses as int, p.eq_width, p.half_line) + pulses(
        lead(p, parity) / 2,
        p.h_sync,
        line,
    ) + half_line_gap(lead(p, parity) % 2, p) + picture_lines(p.active_lines as int, p) + pulses(
        tail(p, parity) / 2,
        p.h_sync,
        line,
    ) + half_line_gap(tail(p, parity) % 2, p)
}

/// The parity of the field with index `n` in a sequence.
pub open spec fn parity_of(start: FieldParity, n: int) -> FieldParity
    decreases n,
{
    if n <= 0 {
        start
    } else {
        parity_of(start, n - 1).flip()
    }
}

/// The whole signal of a sequence of fields.
pub open spec fn fields_segments(p: StandardParams, start: FieldParity, n: int) -> Seq<Segment>
    decreases n,
{
    if n <= 0 {
        Seq::empty()
    } else {
        fields_segments(p, start, n - 1) + field_segments(p, parity_of(start, n - 1))
    }
}

/// Ticks that a list of segments takes.
pub open spec fn duration(s: Seq<Segment>) -> int
    decreases s.len(),
{
    if s.len() == 0 {
        0
    } else {
        duration(s.drop_last()) + s.last().ticks
    }
}

/// The sample nearest to a time.
pub open spec fn sample_at(ticks: int, sample_rate: int, p: StandardParams) -> int {
    round_div(ticks * sample_rate, p.ticks_per_second as int)
}

/// The column that a sample of a visible line shows.
pub open spec fn column(k: int, n: int) -> int {
    if n > 1 {
        min(k * 720 / (n - 1), 719)
    } else {
        0
    }
}

/// The `n` samples of a segment.
pub open spec fn segment_samples(level: SegmentLevel, pattern: TestPattern, n: int) -> Seq<i32> {
    Seq::new(
        n as nat,
        |k: int|
            match level {
                SegmentLevel::Sync => SYNC_LEVEL,
                SegmentLevel::Blank => 0,
                SegmentLevel::Picture(line) => pattern.level(line as int, column(k, n)),
            },
    )
}

/// The samples of a list of segments. Each segment ends at the sample
/// nearest to its end in absolute time.
pub open spec fn rendered(
    s: Seq<Segment>,
    pattern: TestPattern,
    sample_rate: int,
    p: StandardParams,
) -> Seq<i32>
    decreases s.len(),
{
    if s.len() == 0 {
        Seq::empty()
    } else {
        let n = sample_at(duration(s), sample_rate, p) - sample_at(
            duration(s.drop_last()),
            sample_rate,
            p,
        );
        rendered(s.drop_last(), pattern, sample_rate, p) + segment_samples(
            s.last().level,
            pattern,
            n,
        )
    }
}

proof fn lemma_duration_append(a: Seq<Segment>, b: Seq<Segment>)
    ensures
        duration(a + b) == duration(a) + duration(b),
    decreases b.len(),
{
    if b.len() == 0 {
        assert(a + b =~= a);
    } else {
        assert((a + b).drop_last() =~= a + b.drop_last());
        lemma_duration_append(a, b.drop_last());
    }
}

proof fn lemma_pulses_duration(n: int, low: u64, slot: u64)
    requires
        0 <= n,
        low <= slot,
    ensures
        duration(pulses(n, low, slot)) == n * slot,
    decreases n,
{
    if n > 0 {
        lemma_pulses_duration(n - 1, low, slot);
        let last = seq![
            Segment { ticks: low, level: SegmentLevel::Sync },
            Segment { ticks: (slot - low) as u64, level: SegmentLevel::Blank },
        ];
        lemma_duration_append(pulses(n - 1, low, slot), last);
        assert(last.drop_last().drop_last() =~= Seq::<Segment>::empty());
        assert(duration(last.drop_last().drop_last()) == 0);
        assert(duration(last.drop_last()) == low);
        assert((n - 1) * slot + slot == n * slot) by (nonlinear_arith);
    } else {
        assert(n * slot == 0) by (nonlinear_arith)
            requires
                n == 0,
        ;
    }
}

proof fn lemma_picture_duration(n: int, p: StandardParams)
    requires
        0 <= n,
        p.h_sync + p.back_porch <= 2 * p.half_line <= u64::MAX,
    ensures
        duration(picture_lines(n, p)) == n * (2 * p.half_line),
    decreases n,
{
    if n > 0 {
        lemma_picture_duration(n - 1, p);
        let last = seq![
            Segment { ticks: p.h_sync, level: SegmentLevel::Sync },
            Segment { ticks: p.back_porch, level: SegmentLevel::Blank },
            Segment {
                ticks: (2 * p.half_line - p.h_sync - p.back_porch) as u64,
                level: SegmentLevel::Picture((n - 1) as usize),
            },
        ];
        lemma_duration_append(picture_lines(n - 1, p), last);
        let two = last.drop_last();
        let one = two.drop_last();
        assert(one.drop_last() =~= Seq::<Segment>::empty());
        assert(duration(one.drop_last()) == 0);
        assert(duration(one) == p.h_sync);
        assert(duration(two) == p.h_sync + p.back_porch);
        assert(duration(last) == 2 * p.half_line);
        let line = 2 * p.half_line;
        assert((n - 1) * line + line == n * line) by (nonlinear_arith);
    } else {
        let line = 2 * p.half_line;
        assert(n * line == 0) by (nonlinear_arith)
            requires
                n == 0,
        ;
    }
}

/// Every field lasts exactly its standard's number of half-lines, whichever
/// parity it has.
pub proof fn law_field_duration_is_exact(is_pal: bool, parity: FieldParity)
    ensures
        duration(field_segments(layout(is_pal), parity)) == layout(is_pal).half_lines * layout(
            is_pal,
        ).half_line,
{
    let p = layout(is_pal);
    let line = (2 * p.half_line) as u64;
    let s1 = pulses(p.eq_pulses as int, p.eq_width, p.half_line);
    let s2 = pulses(p.broad_pulses as int, p.broad_low, p.half_line);
    let s3 = pulses(p.posteq_pulses as int, p.eq_width, p.half_line);
    let s4 = pulses(lead(p, parity) / 2, p.h_sync, line);
    let s5 = half_line_gap(lead(p, parity) % 2, p);
    let s6 = picture_lines(p.active_lines as int, p);
    let s7 = pulses(tail(p, parity) / 2, p.h_sync, line);
    let s8 = half_line_gap(tail(p, parity) % 2, p);
    lemma_pulses_duration(p.eq_pulses as int, p.eq_width, p.half_line);
    lemma_pulses_duration(p.broad_pulses as int, p.broad_low, p.half_line);
    lemma_pulses_duration(p.posteq_pulses as int, p.eq_width, p.half_line);
    lemma_pulses_duration(lead(p, parity) / 2, p.h_sync, line);
    lemma_picture_duration(p.active_lines as int, p);
    lemma_pulses_duration(tail(p, parity) / 2, p.h_sync, line);
    lemma_gap_duration(lead(p, parity) % 2, p);
    lemma_gap_duration(tail(p, parity) % 2, p);
    lemma_duration_append(s1, s2);
    lemma_duration_append(s1 + s2, s3);
    lemma_duration_append(s1 + s2 + s3, s4);
    lemma_duration_append(s1 + s2 + s3 + s4, s5);
    lemma_duration_append(s1 + s2 + s3 + s4 + s5, s6);
    lemma_duration_append(s1 + s2 + s3 + s4 + s5 + s6, s7);
    lemma_duration_append(s1 + s2 + s3 + s4 + s5 + s6 + s7, s8);
    let h = p.half_line as int;
    let (e, b, q, a) = (
        p.eq_pulses as int,
        p.broad_pulses as int,
        p.posteq_pulses as int,
        p.active_lines as int,
    );
    let (l2, l1) = (lead(p, parity) / 2, lead(p, parity) % 2);
    let (t2, t1) = (tail(p, parity) / 2, tail(p, parity) % 2);
    assert(e * h + b * h + q * h + l2 * (2 * h) + l1 * h + a * (2 * h) + t2 * (2 * h) + t1 * h == (e
        + b + q + 2 * l2 + l1 + 2 * a + 2 * t2 + t1) * h) by (nonlinear_arith);
    assert(e + b + q + 2 * l2 + l1 + 2 * a + 2 * t2 + t1 == p.half_lines);
}

proof fn lemma_gap_duration(half_lines: int, p: StandardParams)
    requires
        0 <= half_lines <= 1,
    ensures
        duration(half_line_gap(half_lines, p)) == half_lines * p.half_line,
{
    let g = half_line_gap(half_lines, p);
    if half_lines > 0 {
        assert(g.drop_last() =~= Seq::<Segment>::empty());
        assert(duration(g.drop_last()) == 0);
        assert(half_lines * p.half_line == p.half_line) by (nonlinear_arith)
            requires
                half_lines == 1,
        ;
    } else {
        assert(half_lines * p.half_line == 0) by (nonlinear_arith)
            requires
                half_lines == 0,
        ;
    }
}

/// A sequence of fields lasts exactly that many fields: nothing drifts.
pub proof fn law_fields_do_not_drift(is_pal: bool, start: FieldParity, n: int)
    requires
        0 <= n,
    ensures
        duration(fields_segments(layout(is_pal), start, n)) == n * (layout(is_pal).half_lines
            * layout(is_pal).half_line),
    decreases n,
{
    let one = layout(is_pal).half_lines * layout(is_pal).half_line;
    if n > 0 {
        law_fields_do_not_drift(is_pal, start, n - 1);
        law_field_duration_is_exact(is_pal, parity_of(start, n - 1));
        lemma_duration_append(
            fields_segments(layout(is_pal), start, n - 1),
            field_segments(layout(is_pal), parity_of(start, n - 1)),
        );
        assert((n - 1) * one + one == n * one) by (nonlinear_arith);
    } else {
        assert(n * one == 0) by (nonlinear_arith)
            requires
                n == 0,
        ;
    }
}

fn push_pulses(segs: &mut Vec<Segment>, n: usize, low: u64, slot: u64)
    requires
        low <= slot,
    ensures
        final(segs)@ == old(segs)@ + pulses(n as int, low, slot),
{
    let ghost before = segs@;
    let mut i: usize = 0;
    assert(segs@ =~= before + pulses(0, low, slot));
    while i < n
        invariant
            i <= n,
            low <= slot,
            segs@ == before + pulses(i as int, low, slot),
        decreases n - i,
    {
        segs.push(Segment { ticks: low, level: SegmentLevel::Sync });
        segs.push(Segment { ticks: slot - low, level: SegmentLevel::Blank });
        i += 1;
        assert(segs@ =~= before + pulses(i as int, low, slot));
    }
}

fn push_picture_lines(segs: &mut Vec<Segment>, n: usize, p: &StandardParams)
    requires
        p.h_sync + p.back_porch <= 2 * p.half_line <= u64::MAX,
    ensures
        final(segs)@ == old(segs)@ + picture_lines(n as int, *p),
{
    let ghost before = segs@;
    let mut i: usize = 0;
    assert(segs@ =~= before + picture_lines(0, *p));
    while i < n
        invariant
            i <= n,
            p.h_sync + p.back_porch <= 2 * p.half_line <= u64::MAX,
            segs@ == before + picture_lines(i as int, *p),
        decreases n - i,
    {
        segs.push(Segment { ticks: p.h_sync, level: SegmentLevel::Sync });
        segs.push(Segment { ticks: p.back_porch, level: SegmentLevel::Blank });
        segs.push(
            Segment {
                ticks: 2 * p.half_line - p.h_sync - p.back_porch,
                level: SegmentLevel::Picture(i),
            },
        );
        i += 1;
        assert(segs@ =~= before + picture_lines(i as int, *p));
    }
}

fn push_gap(segs: &mut Vec<Segment>, half_lines: usize, p: &StandardParams)
    ensures
        final(segs)@ == old(segs)@ + half_line_gap(half_lines as int, *p),
{
    let ghost before = segs@;
    if half_lines > 0 {
        segs.push(Segment { ticks: p.half_line, level: SegmentLevel::Blank });
    }
    assert(segs@ =~= before + half_line_gap(half_lines as int, *p));
}

/// The whole signal of one field.
pub fn field_layout(is_pal: bool, parity: FieldParity) -> (segs: Vec<Segment>)
    ensures
        segs@ == field_segments(layout(is_pal), parity),
{
    let p: StandardParams = params(is_pal);
    let line: u64 = 2 * p.half_line;
    let start: usize = if parity == FieldParity::Second {
        p.active_start + 1
    } else {
        p.active_start
    };
    let before: usize = start - p.eq_pulses - p.broad_pulses - p.posteq_pulses;
    let after: usize = p.half_lines - start - 2 * p.active_lines;
    let mut segs: Vec<Segment> = Vec::new();
    push_pulses(&mut segs, p.eq_pulses, p.eq_width, p.half_line);
    push_pulses(&mut segs, p.broad_pulses, p.broad_low, p.half_line);
    push_pulses(&mut segs, p.posteq_pulses, p.eq_width, p.half_line);
    push_pulses(&mut segs, before / 2, p.h_sync, line);
    push_gap(&mut segs, before % 2, &p);
    push_picture_lines(&mut segs, p.active_lines, &p);
    push_pulses(&mut segs, after / 2, p.h_sync, line);
    push_gap(&mut segs, after % 2, &p);
    assert(segs@ =~= field_segments(layout(is_pal), parity));
    segs
}

proof fn lemma_sample_at_grows(a: int, b: int, sample_rate: int, p: StandardParams)
    requires
        0 <= a <= b,
        0 <= sample_rate,
        0 < p.ticks_per_second,
    ensures
        0 <= sample_at(a, sample_rate, p) <= sample_at(b, sample_rate, p),
{
    let d = p.ticks_per_second as int;
    assert(0 <= a * sample_rate <= b * sample_rate) by (nonlinear_arith)
        requires
            0 <= a <= b,
            0 <= sample_rate,
    ;
    let x = 2 * (a * sample_rate) + d;
    let y = 2 * (b * sample_rate) + d;
    assert(0 <= x / (2 * d) <= y / (2 * d)) by (nonlinear_arith)
        requires
            0 <= x <= y,
            0 < d,
    ;
}

proof fn lemma_duration_of_prefix(s: Seq<Segment>, n: int)
    requires
        0 <= n <= s.len(),
    ensures
        0 <= duration(s.take(n)) <= duration(s),
    decreases s.len(),
{
    if s.len() == 0 {
        assert(s.take(n) =~= s);
    } else if n < s.len() {
        assert(s.take(n) =~= s.drop_last().take(n));
        lemma_duration_of_prefix(s.drop_last(), n);
    } else {
        assert(s.take(n) =~= s);
        lemma_duration_of_prefix(s.drop_last(), s.len() - 1);
        assert(s.drop_last().take(s.len() - 1) =~= s.drop_last());
    }
}

/// Samples that a sequence of fields takes.
pub open spec fn fields_length(is_pal: bool, sample_rate: int, n: int) -> int {
    let p = layout(is_pal);
    sample_at(n * (p.half_lines * p.half_line), sample_rate, p)
}

proof fn lemma_rendered_length(
    s: Seq<Segment>,
    pattern: TestPattern,
    sample_rate: int,
    p: StandardParams,
)
    requires
        0 <= sample_rate,
        0 < p.ticks_per_second,
    ensures
        rendered(s, pattern, sample_rate, p).len() == sample_at(duration(s), sample_rate, p),
    decreases s.len(),
{
    if s.len() > 0 {
        lemma_rendered_length(s.drop_last(), pattern, sample_rate, p);
        lemma_duration_of_prefix(s, s.len() - 1);
        assert(s.take(s.len() - 1) =~= s.drop_last());
        lemma_sample_at_grows(duration(s.drop_last()), duration(s), sample_rate, p);
    } else {
        let d = p.ticks_per_second as int;
        assert(0 * sample_rate == 0);
        assert(d / (2 * d) == 0) by (nonlinear_arith)
            requires
                0 < d,
        ;
    }
}

/// A generated sequence is as long as its fields last, to the nearest
/// sample.
pub proof fn law_length_is_exact(
    is_pal: bool,
    start: FieldParity,
    n: int,
    pattern: TestPattern,
    sample_rate: u32,
)
    requires
        0 <= n,
    ensures
        rendered(
            fields_segments(layout(is_pal), start, n),
            pattern,
            sample_rate as int,
            layout(is_pal),
        ).len() == fields_length(is_pal, sample_rate as int, n),
{
    law_fields_do_not_drift(is_pal, start, n);
    lemma_rendered_length(
        fields_segments(layout(is_pal), start, n),
        pattern,
        sample_rate as int,
        layout(is_pal),
    );
}

fn push_samples(out: &mut Vec<i32>, level: SegmentLevel, pattern: &TestPattern, n: usize)
    requires
        old(out).len() + n <= usize::MAX,
    ensures
        final(out)@ == old(out)@ + segment_samples(level, *pattern, n as int),
{
    let ghost before = out@;
    let ghost all = segment_samples(level, *pattern, n as int);
    let mut k: usize = 0;
    assert(out@ =~= before + all.take(0));
    while k < n
        invariant
            k <= n,
            before.len() + n <= usize::MAX,
            all == segment_samples(level, *pattern, n as int),
            out@ == before + all.take(k as int),
        decreases n - k,
    {
        let v: i32 = match level {
            SegmentLevel::Sync => SYNC_LEVEL,
            SegmentLevel::Blank => 0,
            SegmentLevel::Picture(line) => {
                let mut col: usize = 0;
                if n > 1 {
                    let wide: u128 = (k as u128) * 720 / ((n - 1) as u128);
                    proof {
                        assert(wide <= 720) by (nonlinear_arith)
                            requires
                                wide == (k * 720) as int / (n - 1),
                                k < n,
                                n > 1,
                        ;
                    }
                    col = if wide < 719 {
                        wide as usize
                    } else {
                        719
                    };
                }
                pattern.level_at(line, col)
            },
        };
        out.push(v);
        k += 1;
        assert(out@ =~= before + all.take(k as int));
    }
    assert(all.take(n as int) =~= all);
}

/// Levels of `n_fields` consecutive fields, parity alternating from `start`.
pub fn field_levels(
    sample_rate: u32,
    is_pal: bool,
    pattern: &TestPattern,
    start: FieldParity,
    n_fields: usize,
) -> (out: Vec<i32>)
    requires
        fields_length(is_pal, sample_rate as int, n_fields as int) <= usize::MAX,
    ensures
        out@ == rendered(
            fields_segments(layout(is_pal), start, n_fields as int),
            *pattern,
            sample_rate as int,
            layout(is_pal),
        ),
        out.len() == fields_length(is_pal, sample_rate as int, n_fields as int),
{
    let p: StandardParams = params(is_pal);
    let rate: u128 = sample_rate as u128;
    let per_second: u128 = p.ticks_per_second as u128;
    let ghost one = p.half_lines * p.half_line;
    let ghost whole = fields_segments(p, start, n_fields as int);
    let mut out: Vec<i32> = Vec::new();
    let mut ticks: u128 = 0;
    let mut parity: FieldParity = start;
    let mut f: usize = 0;
    assert(0 <= one <= 0x100_0000) by (nonlinear_arith)
        requires
            one == p.half_lines * p.half_line,
            p.half_lines <= 625,
            p.half_line <= 20_020,
    ;
    while f < n_fields
        invariant
            f <= n_fields,
            p == layout(is_pal),
            rate == sample_rate,
            per_second == p.ticks_per_second,
            one == p.half_lines * p.half_line,
            0 <= one <= 0x100_0000,
            fields_length(is_pal, sample_rate as int, n_fields as int) <= usize::MAX,
            parity == parity_of(start, f as int),
            ticks == duration(fields_segments(p, start, f as int)),
            out@ == rendered(
                fields_segments(p, start, f as int),
                *pattern,
                sample_rate as int,
                p,
            ),
        decreases n_fields - f,
    {
        let segs: Vec<Segment> = field_layout(is_pal, parity);
        let ghost prior = fields_segments(p, start, f as int);
        let ghost upto = fields_segments(p, start, f + 1);
        proof {
            law_fields_do_not_drift(is_pal, start, f + 1);
            assert(0 <= (f + 1) * one <= n_fields * one) by (nonlinear_arith)
                requires
                    f < n_fields,
                    one >= 0,
            ;
            lemma_sample_at_grows((f + 1) * one, n_fields * one, sample_rate as int, p);
            assert(prior + segs@.take(0) =~= prior);
            assert(upto == prior + segs@);
        }
        let mut j: usize = 0;
        while j < segs.len()
            invariant
                j <= segs.len(),
                f < n_fields,
                p == layout(is_pal),
                rate == sample_rate,
                per_second == p.ticks_per_second,
                0 <= one <= 0x100_0000,
                upto == prior + segs@,
                duration(upto) == (f + 1) * one,
                sample_at((f + 1) * one, sample_rate as int, p) <= usize::MAX,
                ticks == duration(prior + segs@.take(j as int)),
                out@ == rendered(prior + segs@.take(j as int), *pattern, sample_rate as int, p),
            decreases segs.len() - j,
        {
            let ghost done = prior + segs@.take(j as int);
            let ghost next = prior + segs@.take(j + 1);
            proof {
                assert(next.drop_last() =~= done);
                assert(next.last() == segs@[j as int]);
                assert(upto.take(next.len() as int) =~= next);
                lemma_duration_of_prefix(upto, next.len() as int);
                lemma_sample_at_grows(duration(next), duration(upto), sample_rate as int, p);
                lemma_duration_of_prefix(next, done.len() as int);
                assert(next.take(done.len() as int) =~= done);
                lemma_sample_at_grows(duration(done), duration(next), sample_rate as int, p);
                lemma_rendered_length(done, *pattern, sample_rate as int, p);
                assert((f + 1) * one <= 0x100_0000_0000_0000_0000_0000) by (nonlinear_arith)
                    requires
                        f + 1 <= 0x1_0000_0000_0000_0000,
                        0 <= one <= 0x100_0000,
                ;
            }
            ticks = ticks + segs[j].ticks as u128;
            assert(ticks == duration(next));
            assert(ticks * rate <= 0x100_0000_0000_0000_0000_0000 * 0x1_0000_0000)
                by (nonlinear_arith)
                requires
                    0 <= ticks <= 0x100_0000_0000_0000_0000_0000,
                    0 <= rate <= 0x1_0000_0000,
            ;
            assert(ticks * rate >= 0) by (nonlinear_arith)
                requires
                    ticks >= 0,
                    rate >= 0,
            ;
            let target: u128 = (2 * (ticks * rate) + per_second) / (2 * per_second);
            assert(target == sample_at(duration(next), sample_rate as int, p));
            let n: usize = target as usize - out.len();
            push_samples(&mut out, segs[j].level, pattern, n);
            j += 1;
        }
        assert(segs@.take(j as int) =~= segs@);
        parity = parity.next();
        f += 1;
    }
    proof {
        law_length_is_exact(is_pal, start, n_fields as int, *pattern, sample_rate);
    }
    out
}

/// What a generated signal is like.
#[derive(Debug, Clone, Copy, PartialEq, Eq, Structural)]
pub struct SyntheticVideoConfig {
    pub sample_rate: u32,
    pub is_pal: bool,
    /// Peak FM deviation that the signal carries.
    pub deviation_hz: u32,
    pub pattern: TestPattern,
    /// Parity of the first field; parity alternates from there.
    pub start_field: FieldParity,
    /// Standard deviation of the noise that is added to every sample, in
    /// nanoturns.
    pub noise_sigma: u32,
    /// Constant added to every sample, as a tuning error adds one, in
    /// nanoturns.
    pub dc_offset: i32,
}

/// A level as a demodulated sample: 100 IRE is the whole deviation. Rounded
/// down to nanoturns, and kept in the range of samples.
pub open spec fn as_sample(level: i32, cfg: SyntheticVideoConfig) -> i32 {
    let turns = (level * cfg.deviation_hz * 10_000_000) / (5_040 * cfg.sample_rate);
    max(min(turns + cfg.dc_offset, i32::MAX as int), i32::MIN as int) as i32
}

fn sample_of(level: i32, cfg: &SyntheticVideoConfig) -> (v: i32)
    requires
        cfg.sample_rate > 0,
    ensures
        v == as_sample(level, *cfg),
{
    assert(-0x8000_0000 * 0xffff_ffff <= level * cfg.deviation_hz <= 0x7fff_ffff * 0xffff_ffff)
        by (nonlinear_arith)
        requires
            -0x8000_0000 <= level <= 0x7fff_ffff,
            0 <= cfg.deviation_hz <= 0xffff_ffff,
    ;
    let num: i128 = level as i128 * cfg.deviation_hz as i128 * 10_000_000;
    let den: i128 = 5_040 * (cfg.sample_rate as i128);
    let turns: i128 = floor_div(num, den);
    assert(-0x8000_0000_0000_0000_0000_0000 <= turns <= 0x8000_0000_0000_0000_0000_0000)
        by (nonlinear_arith)
        requires
            turns == num as int / den as int,
            den > 0,
            -0x8000_0000_0000_0000_0000_0000 <= num <= 0x8000_0000_0000_0000_0000_0000,
    ;
    let v: i128 = turns + cfg.dc_offset as i128;
    if v > i32::MAX as i128 {
        i32::MAX
    } else if v < i32::MIN as i128 {
        i32::MIN
    } else {
        v as i32
    }
}

/// Next state of the pseudo-random sequence that noise is drawn from.
pub open spec fn shuffled(state: u64) -> u64 {
    let a = state ^ (state << 13);
    let b = a ^ (a >> 7);
    b ^ (b << 17)
}

/// Next state of the pseudo-random sequence that noise is drawn from.
pub fn xorshift(state: u64) -> (next: u64)
    ensures
        next == shuffled(state),
{
    let a: u64 = state ^ (state << 13);
    let b: u64 = a ^ (a >> 7);
    b ^ (b << 17)
}

/// The sequence never gets stuck at zero, and no two states run together.
pub proof fn law_noise_sequence_does_not_collapse(a: u64, b: u64)
    ensures
        a != 0 ==> shuffled(a) != 0,
        a != b ==> shuffled(a) != shuffled(b),
{
    let (p, x) = (a ^ (a << 13), b ^ (b << 13));
    let (q, y) = (p ^ (p >> 7), x ^ (x >> 7));
    assert(a != b ==> (a ^ (a << 13)) != (b ^ (b << 13))) by (bit_vector);
    assert(p != x ==> (p ^ (p >> 7)) != (x ^ (x >> 7))) by (bit_vector);
    assert(q != y ==> (q ^ (q << 17)) != (y ^ (y << 17))) by (bit_vector);
    assert(a != 0 ==> (a ^ (a << 13)) != 0) by (bit_vector);
    assert(p != 0 ==> (p ^ (p >> 7)) != 0) by (bit_vector);
    assert(q != 0 ==> (q ^ (q << 17)) != 0) by (bit_vector);
}

/// Where the noise sequence of a signal of `len` samples starts.
pub open spec fn seed_of(len: usize) -> u64 {
    0x1234_5678_9abc_def0u64 ^ vstd::wrapping::u64_specs::wrapping_mul(
        len as u64,
        0x9E37_79B9_7F4A_7C15u64,
    )
}

/// Where the noise sequence of a signal of `len` samples starts.
pub fn noise_seed(len: usize) -> (seed: u64)
    ensures
        seed == seed_of(len),
{
    0x1234_5678_9abc_def0u64 ^ (len as u64).wrapping_mul(0x9E37_79B9_7F4A_7C15u64)
}

/// The state of the sequence `n` draws on.
pub open spec fn drawn(state: u64, n: nat) -> u64
    decreases n,
{
    if n == 0 {
        state
    } else {
        shuffled(drawn(state, (n - 1) as nat))
    }
}

/// The sum of the next `n` draws.
pub open spec fn draw_sum(state: u64, n: nat) -> int
    decreases n,
{
    if n == 0 {
        0
    } else {
        draw_sum(state, (n - 1) as nat) + drawn(state, n)
    }
}

/// A nearly Gaussian number of unit variance: twelve draws less their mean,
/// in units of one over the largest draw.
pub open spec fn deviate(state: u64) -> int {
    draw_sum(state, 12) - 6 * u64::MAX
}

/// Draw a nearly Gaussian number of unit variance, in units of one over
/// `u64::MAX`.
pub fn gaussian_noise(state: &mut u64) -> (d: i128)
    ensures
        d == deviate(*old(state)),
        *final(state) == drawn(*old(state), 12),
        -6 * u64::MAX <= d <= 6 * u64::MAX,
{
    let ghost begin = *state;
    let mut sum: i128 = 0;
    let mut n: u8 = 0;
    while n < 12
        invariant
            n <= 12,
            *state == drawn(begin, n as nat),
            sum == draw_sum(begin, n as nat),
            0 <= sum <= n * u64::MAX,
        decreases 12 - n,
    {
        *state = xorshift(*state);
        sum = sum + *state as i128;
        n = n + 1;
    }
    sum - 6 * (u64::MAX as i128)
}

/// The noise of a sample: a deviate scaled by the standard deviation, to the
/// nearest nanoturn.
pub open spec fn noise_of(state: u64, sigma: int) -> int {
    nearest(sigma * deviate(state), u64::MAX as int)
}

/// A value kept in the range of samples.
pub open spec fn kept(v: int) -> i32 {
    max(min(v, i32::MAX as int), i32::MIN as int) as i32
}

/// Samples with noise on each. Every sample has draws of its own.
pub open spec fn noisy(s: Seq<i32>, sigma: int, seed: u64) -> Seq<i32> {
    Seq::new(
        s.len(),
        |i: int| kept(s[i] + noise_of(drawn(seed, (12 * i) as nat), sigma)),
    )
}

/// Draws follow each other.
pub proof fn lemma_drawn_adds(state: u64, a: nat, b: nat)
    ensures
        drawn(drawn(state, a), b) == drawn(state, a + b),
    decreases b,
{
    if b > 0 {
        lemma_drawn_adds(state, a, (b - 1) as nat);
    }
}

pub proof fn lemma_draw_sum_bounds(state: u64, n: nat)
    ensures
        0 <= draw_sum(state, n) <= n * u64::MAX,
    decreases n,
{
    if n > 0 {
        lemma_draw_sum_bounds(state, (n - 1) as nat);
        assert(n * u64::MAX == (n - 1) * u64::MAX + u64::MAX) by (nonlinear_arith);
    }
}

/// Noise never exceeds six standard deviations, and without a standard
/// deviation there is none.
pub proof fn law_noise_is_bounded(state: u64, sigma: int)
    requires
        0 <= sigma,
    ensures
        -6 * sigma <= noise_of(state, sigma) <= 6 * sigma,
{
    let top = u64::MAX as int;
    let d = deviate(state);
    let r = noise_of(state, sigma);
    lemma_draw_sum_bounds(state, 12);
    assert(-6 * (sigma * top) <= sigma * d <= 6 * (sigma * top)) by (nonlinear_arith)
        requires
            0 <= sigma,
            -6 * top <= d <= 6 * top,
    ;
    let x = sigma * d;
    assert(r == (2 * x + top) / (2 * top));
    assert(-6 * sigma <= r <= 6 * sigma) by (nonlinear_arith)
        requires
            r == (2 * x + top) / (2 * top),
            -6 * (sigma * top) <= x <= 6 * (sigma * top),
            top > 0,
    ;
}

fn add_noise(out: &mut Vec<i32>, sigma: u32)
    ensures
        final(out)@ == noisy(old(out)@, sigma as int, seed_of(old(out).len())),
{
    let n: usize = out.len();
    let mut state: u64 = noise_seed(n);
    let ghost seed = state;
    let ghost before = out@;
    let ghost whole = noisy(before, sigma as int, seed);
    if sigma == 0 {
        proof {
            assert forall|i: int| 0 <= i < n implies whole[i] == before[i] by {
                law_noise_is_bounded(drawn(seed, (12 * i) as nat), 0);
            }
            assert(out@ =~= whole);
        }
        return ;
    }
    let mut i: usize = 0;
    while i < n
        invariant
            i <= n,
            n == out.len() == before.len(),
            whole == noisy(before, sigma as int, seed),
            state == drawn(seed, (12 * i) as nat),
            forall|k: int| 0 <= k < i ==> #[trigger] out@[k] == whole[k],
            forall|k: int| i <= k < n ==> #[trigger] out@[k] == before[k],
        decreases n - i,
    {
        proof {
            lemma_drawn_adds(seed, (12 * i) as nat, 12);
            law_noise_is_bounded(state, sigma as int);
            assert(whole[i as int] == kept(before[i as int] + noise_of(state, sigma as int)));
        }
        let d: i128 = gaussian_noise(&mut state);
        assert(-0x1_0000_0000 * (6 * u64::MAX) <= sigma * d <= 0x1_0000_0000 * (6 * u64::MAX))
            by (nonlinear_arith)
            requires
                0 <= sigma <= 0xffff_ffff,
                -6 * u64::MAX <= d <= 6 * u64::MAX,
        ;
        let noise: i128 = nearest_div(sigma as i128 * d, u64::MAX as i128);
        let v: i128 = out[i] as i128 + noise;
        let sample: i32 = if v > i32::MAX as i128 {
            i32::MAX
        } else if v < i32::MIN as i128 {
            i32::MIN
        } else {
            v as i32
        };
        out.set(i, sample);
        i += 1;
    }
    assert(out@ =~= whole);
}

/// The fields of a signal before noise is added.
pub open spec fn clean_fields(cfg: SyntheticVideoConfig, n_fields: int) -> Seq<i32> {
    rendered(
        fields_segments(layout(cfg.is_pal), cfg.start_field, n_fields),
        cfg.pattern,
        cfg.sample_rate as int,
        layout(cfg.is_pal),
    ).map_values(|level: i32| as_sample(level, cfg))
}

/// Generate `n_fields` consecutive fields of demodulated baseband, in
/// nanoturns per sample. The same configuration gives the same noise.
pub fn generate_fields(cfg: &SyntheticVideoConfig, n_fields: usize) -> (out: Vec<i32>)
    requires
        fields_length(cfg.is_pal, cfg.sample_rate as int, n_fields as int) <= usize::MAX,
    ensures
        out@ == noisy(
            clean_fields(*cfg, n_fields as int),
            cfg.noise_sigma as int,
            seed_of(out.len()),
        ),
        cfg.sample_rate == 0 ==> out.len() == 0,
{
    let mut out: Vec<i32> = noiseless_fields(cfg, n_fields);
    add_noise(&mut out, cfg.noise_sigma);
    out
}

fn noiseless_fields(cfg: &SyntheticVideoConfig, n_fields: usize) -> (out: Vec<i32>)
    requires
        fields_length(cfg.is_pal, cfg.sample_rate as int, n_fields as int) <= usize::MAX,
    ensures
        out@ == clean_fields(*cfg, n_fields as int),
        cfg.sample_rate == 0 ==> out.len() == 0,
{
    let levels: Vec<i32> = field_levels(
        cfg.sample_rate,
        cfg.is_pal,
        &cfg.pattern,
        cfg.start_field,
        n_fields,
    );
    let ghost all = levels@.map_values(|level: i32| as_sample(level, *cfg));
    assert(all =~= clean_fields(*cfg, n_fields as int));
    let mut out: Vec<i32> = Vec::new();
    if cfg.sample_rate == 0 {
        proof {
            let p = layout(cfg.is_pal);
            let d = p.ticks_per_second as int;
            let t = n_fields * (p.half_lines * p.half_line);
            assert(t * 0 == 0) by (nonlinear_arith);
            assert(d / (2 * d) == 0) by (nonlinear_arith)
                requires
                    0 < d,
            ;
            assert(sample_at(t, 0, p) == 0);
            assert(levels.len() == 0);
            assert(out@ =~= all);
        }
        return out;
    }
    let mut i: usize = 0;
    while i < levels.len()
        invariant
            i <= levels.len(),
            cfg.sample_rate > 0,
            all == levels@.map_values(|level: i32| as_sample(level, *cfg)),
            out@ == all.take(i as int),
        decreases levels.len() - i,
    {
        out.push(sample_of(levels[i], cfg));
        i += 1;
        assert(out@ =~= all.take(i as int));
    }
    assert(out@ =~= all);
    out
}

/// A turn in nanoturns.
pub const TURN: i64 = 1_000_000_000;

/// A phase brought to within half a turn of zero.
pub open spec fn wrapped(phase: int) -> int {
    (phase + 499_999_999) % 1_000_000_000 - 499_999_999
}

/// A phase in nanoturns, brought to within half a turn of zero.
pub fn wrap_phase(phase: i64) -> (w: i32)
    requires
        -0x4000_0000_0000_0000 <= phase <= 0x4000_0000_0000_0000,
    ensures
        w == wrapped(phase as int),
        -500_000_000 < w <= 500_000_000,
{
    let shifted: i64 = phase + 499_999_999;
    let rest: i64 = if shifted >= 0 {
        shifted % TURN
    } else {
        let back: i64 = (-shifted) % TURN;
        if back == 0 {
            0
        } else {
            TURN - back
        }
    };
    proof {
        let x = -(shifted as int);
        if shifted < 0 {
            let q = x / 1_000_000_000;
            let b = x % 1_000_000_000;
            assert(x == 1_000_000_000 * q + b);
            assert(shifted == -(1_000_000_000 * q) - b);
            assert(shifted as int % 1_000_000_000 == rest) by {
                if b == 0 {
                    vstd::arithmetic::div_mod::lemma_fundamental_div_mod_converse(
                        shifted as int,
                        1_000_000_000,
                        -q,
                        0,
                    );
                } else {
                    vstd::arithmetic::div_mod::lemma_fundamental_div_mod_converse(
                        shifted as int,
                        1_000_000_000,
                        -q - 1,
                        1_000_000_000 - b,
                    );
                }
            }
        }
    }
    (rest - 499_999_999) as i32
}

/// How far a carrier at an offset has turned after `n` samples: the fraction
/// of a turn, to the nearest nanoturn. No error builds up along the signal.
pub open spec fn carrier_phase(sample_rate: int, offset_hz: int, n: int) -> int {
    nearest((n * offset_hz) % sample_rate * 1_000_000_000, sample_rate)
}

/// The phase of a sample of a modulated carrier: what the baseband and the
/// carrier have turned it by.
pub open spec fn phase_at(baseband: Seq<i32>, sample_rate: int, offset_hz: int, i: int) -> int {
    wrapped(
        sum_range(baseband, 0, i + 1) + carrier_phase(sample_rate, offset_hz, i + 1),
    )
}

/// Whether samples are a carrier at an offset that follows a baseband.
/// `phasor` makes a sample of a phase.
pub open spec fn modulates<C, F: Fn(i32) -> C>(
    baseband: Seq<i32>,
    sample_rate: int,
    offset_hz: int,
    phasor: F,
    out: Seq<C>,
) -> bool {
    &&& out.len() == baseband.len()
    &&& forall|i: int|
        0 <= i < out.len() ==> phasor.ensures(
            (phase_at(baseband, sample_rate, offset_hz, i) as i32,),
            #[trigger] out[i],
        )
}

proof fn lemma_wrapped_absorbs(a: int, k: int)
    ensures
        wrapped(a + k * 1_000_000_000) == wrapped(a),
{
    let x = a + 499_999_999;
    assert((x + k * 1_000_000_000) % 1_000_000_000 == x % 1_000_000_000) by {
        vstd::arithmetic::div_mod::lemma_mod_multiples_vanish(k, x, 1_000_000_000);
        assert(1_000_000_000 * k + x == x + k * 1_000_000_000);
    }
}

/// A sum with one term wrapped differs by whole turns.
proof fn lemma_wrap_inside(a: int, b: int)
    ensures
        wrapped(wrapped(a) + b) == wrapped(a + b),
{
    let q = (a + 499_999_999) / 1_000_000_000;
    assert(a + 499_999_999 == 1_000_000_000 * q + (a + 499_999_999) % 1_000_000_000);
    assert(wrapped(a) == a - q * 1_000_000_000);
    lemma_wrapped_absorbs(wrapped(a) + b, q);
    assert(wrapped(a) + b + q * 1_000_000_000 == a + b);
}

/// Modulate a carrier at an offset with a baseband in nanoturns per sample.
/// `phasor` makes a sample of a phase in nanoturns.
pub fn modulate<C, F: Fn(i32) -> C>(
    baseband: &Vec<i32>,
    sample_rate: u32,
    offset_hz: i64,
    phasor: F,
) -> (out: Vec<C>)
    requires
        sample_rate > 0,
        forall|p: i32| #[trigger] phasor.requires((p,)),
    ensures
        modulates(baseband@, sample_rate as int, offset_hz as int, phasor, out@),
{
    let ghost rate = sample_rate as int;
    let ghost offset = offset_hz as int;
    let full: i128 = sample_rate as i128;
    let whole: i128 = floor_div(offset_hz as i128, full);
    proof {
        vstd::arithmetic::div_mod::lemma_fundamental_div_mod(offset, rate);
        assert(rate * (offset / rate) == whole * full) by (nonlinear_arith)
            requires
                whole == offset / rate,
                full == rate,
        ;
        assert(0 <= offset % rate < rate);
    }
    let step: i128 = offset_hz as i128 - whole * full;
    assert(step == offset % rate);
    let mut out: Vec<C> = Vec::new();
    let mut turned: i32 = 0;
    let mut carrier: i128 = 0;
    let mut i: usize = 0;
    assert(0 * offset == 0);
    while i < baseband.len()
        invariant
            i <= baseband.len(),
            out.len() == i,
            rate == sample_rate,
            rate > 0,
            offset == offset_hz,
            full == rate,
            step == offset % rate,
            0 <= step < rate,
            turned == wrapped(sum_range(baseband@, 0, i as int)),
            -500_000_000 < turned <= 500_000_000,
            carrier == (i * offset) % rate,
            0 <= carrier < rate,
            forall|p: i32| #[trigger] phasor.requires((p,)),
            forall|k: int|
                0 <= k < i ==> phasor.ensures(
                    (phase_at(baseband@, rate, offset, k) as i32,),
                    #[trigger] out@[k],
                ),
        decreases baseband.len() - i,
    {
        let ghost sum = sum_range(baseband@, 0, i as int);
        proof {
            lemma_wrap_inside(sum, baseband@[i as int] as int);
            assert(sum_range(baseband@, 0, i + 1) == sum + baseband@[i as int]);
            assert((i + 1) * offset == i * offset + offset) by (nonlinear_arith);
            vstd::arithmetic::div_mod::lemma_add_mod_noop(i * offset, offset, rate);
        }
        turned = wrap_phase(turned as i64 + baseband[i] as i64);
        carrier = carrier + step;
        if carrier >= full {
            carrier = carrier - full;
            proof {
                let c = carrier as int;
                assert((c + rate) % rate == c) by {
                    vstd::arithmetic::div_mod::lemma_mod_add_multiples_vanish(c, rate);
                    vstd::arithmetic::div_mod::lemma_small_mod(c as nat, rate as nat);
                }
            }
        } else {
            proof {
                vstd::arithmetic::div_mod::lemma_small_mod(carrier as nat, rate as nat);
            }
        }
        let fraction: i128 = nearest_div(carrier * 1_000_000_000, full);
        assert(0 <= fraction <= 1_000_000_000) by (nonlinear_arith)
            requires
                fraction == (2 * (carrier * 1_000_000_000) + full) / (2 * full),
                0 <= carrier < full,
        ;
        proof {
            lemma_wrap_inside(sum_range(baseband@, 0, i + 1), fraction as int);
        }
        let p: i32 = wrap_phase(turned as i64 + fraction as i64);
        assert(p == phase_at(baseband@, rate, offset, i as int));
        let c: C = phasor(p);
        out.push(c);
        i += 1;
    }
    out
}

/// Generate fields on a carrier at an offset. `phasor` makes a sample of a
/// phase in nanoturns.
pub fn generate_iq<C, F: Fn(i32) -> C>(
    cfg: &SyntheticVideoConfig,
    n_fields: usize,
    carrier_offset_hz: i64,
    phasor: F,
) -> (out: Vec<C>)
    requires
        fields_length(cfg.is_pal, cfg.sample_rate as int, n_fields as int) <= usize::MAX,
        forall|p: i32| #[trigger] phasor.requires((p,)),
    ensures
        modulates(
            noisy(
                clean_fields(*cfg, n_fields as int),
                cfg.noise_sigma as int,
                seed_of(out.len()),
            ),
            cfg.sample_rate as int,
            carrier_offset_hz as int,
            phasor,
            out@,
        ),
{
    let baseband: Vec<i32> = generate_fields(cfg, n_fields);
    if cfg.sample_rate == 0 {
        return Vec::new();
    }
    modulate(&baseband, cfg.sample_rate, carrier_offset_hz, phasor)
}

/// What is modulated onto a centred carrier comes back: from one sample to
/// the next the phase turns by the baseband, as long as that is within half
/// a turn.
pub proof fn law_modulation_round_trips(baseband: Seq<i32>, sample_rate: int, i: int)
    requires
        sample_rate > 0,
        1 <= i < baseband.len(),
        -500_000_000 < baseband[i] <= 500_000_000,
    ensures
        wrapped(
            phase_at(baseband, sample_rate, 0, i) - phase_at(baseband, sample_rate, 0, i - 1),
        ) == baseband[i],
{
    let before = sum_range(baseband, 0, i);
    let after = sum_range(baseband, 0, i + 1);
    assert(after == before + baseband[i]);
    assert((i + 1) * 0 == 0 && i * 0 == 0);
    vstd::arithmetic::div_mod::lemma_small_mod(0, sample_rate as nat);
    assert(nearest(0, sample_rate) == 0) by (nonlinear_arith)
        requires
            nearest(0, sample_rate) == (2 * 0 + sample_rate) / (2 * sample_rate),
            sample_rate > 0,
    ;
    assert(carrier_phase(sample_rate, 0, i + 1) == 0);
    assert(carrier_phase(sample_rate, 0, i) == 0);
    let (p, q) = (phase_at(baseband, sample_rate, 0, i), phase_at(baseband, sample_rate, 0, i - 1));
    lemma_wrap_inside(after, -q);
    let turns = (before + 499_999_999) / 1_000_000_000;
    assert(before + 499_999_999 == 1_000_000_000 * turns + (before + 499_999_999) % 1_000_000_000);
    assert(q == before - turns * 1_000_000_000);
    lemma_wrapped_absorbs(baseband[i] as int, turns);
    assert(after - q == baseband[i] + turns * 1_000_000_000);
    vstd::arithmetic::div_mod::lemma_small_mod(
        (baseband[i] + 499_999_999) as nat,
        1_000_000_000,
    );
}

/// Every duration of a layout is exactly the standard's: ticks lose nothing.
pub proof fn law_ticks_are_exact(is_pal: bool)
    ensures
        ({
            let p = layout(is_pal);
            let rate = Standard::of(is_pal).line_rate();
            &&& 2 * p.half_line * rate.0 == p.ticks_per_second * rate.1
            &&& p.half_lines == Standard::of(is_pal).half_lines()
            &&& p.h_sync * 1_000_000_000 == consts::H_SYNC_WIDTH_NS * p.ticks_per_second
            &&& p.back_porch * 1_000_000_000 == consts::BACK_PORCH_NS * p.ticks_per_second
            &&& is_pal ==> p.eq_width * 1_000_000_000 == consts::PAL_EQ_WIDTH_NS
                * p.ticks_per_second && p.broad_low * 1_000_000_000 == consts::PAL_BROAD_LOW_NS
                * p.ticks_per_second && p.eq_pulses == consts::PAL_EQ_PULSES && p.broad_pulses
                == consts::PAL_BROAD_PULSES && p.posteq_pulses == consts::PAL_POSTEQ_PULSES
                && p.active_start == consts::PAL_BASE_ACTIVE_START_HALF_LINES && p.active_start
                - p.eq_pulses == consts::PAL_BROAD_TO_ACTIVE_HALF_LINES
            &&& !is_pal ==> p.eq_width * 1_000_000_000 == consts::NTSC_EQ_WIDTH_NS
                * p.ticks_per_second && p.broad_low * 1_000_000_000 == consts::NTSC_BROAD_LOW_NS
                * p.ticks_per_second && p.eq_pulses == consts::NTSC_EQ_PULSES && p.broad_pulses
                == consts::NTSC_BROAD_PULSES && p.posteq_pulses == consts::NTSC_POSTEQ_PULSES
                && p.active_start == consts::NTSC_BASE_ACTIVE_START_HALF_LINES && p.active_start
                - p.eq_pulses == consts::NTSC_BROAD_TO_ACTIVE_HALF_LINES
        }),
{
    assert(2 * 20_020 * 15_750_000 == 630_000_000 * 1001int);
    assert(2 * 3_200 * 15_625 == 100_000_000int);
}

/// How many sync pulses of a given length there are.
pub open spec fn sync_count(s: Seq<Segment>, ticks: u64) -> int
    decreases s.len(),
{
    if s.len() == 0 {
        0
    } else {
        sync_count(s.drop_last(), ticks) + if s.last().level == SegmentLevel::Sync
            && s.last().ticks == ticks {
            1int
        } else {
            0int
        }
    }
}

proof fn lemma_count_append(a: Seq<Segment>, b: Seq<Segment>, ticks: u64)
    ensures
        sync_count(a + b, ticks) == sync_count(a, ticks) + sync_count(b, ticks),
    decreases b.len(),
{
    if b.len() == 0 {
        assert(a + b =~= a);
    } else {
        assert((a + b).drop_last() =~= a + b.drop_last());
        lemma_count_append(a, b.drop_last(), ticks);
    }
}

proof fn lemma_pulses_count(n: int, low: u64, slot: u64, ticks: u64)
    requires
        0 <= n,
    ensures
        sync_count(pulses(n, low, slot), ticks) == if low == ticks {
            n
        } else {
            0
        },
    decreases n,
{
    if n > 0 {
        lemma_pulses_count(n - 1, low, slot, ticks);
        let last = seq![
            Segment { ticks: low, level: SegmentLevel::Sync },
            Segment { ticks: (slot - low) as u64, level: SegmentLevel::Blank },
        ];
        lemma_count_append(pulses(n - 1, low, slot), last, ticks);
        let one = last.drop_last();
        assert(one.drop_last() =~= Seq::<Segment>::empty());
        assert(sync_count(one.drop_last(), ticks) == 0);
        assert(sync_count(last, ticks) == sync_count(one, ticks));
    }
}

proof fn lemma_picture_count(n: int, p: StandardParams, ticks: u64)
    requires
        0 <= n,
    ensures
        sync_count(picture_lines(n, p), ticks) == if p.h_sync == ticks {
            n
        } else {
            0
        },
    decreases n,
{
    if n > 0 {
        lemma_picture_count(n - 1, p, ticks);
        let last = seq![
            Segment { ticks: p.h_sync, level: SegmentLevel::Sync },
            Segment { ticks: p.back_porch, level: SegmentLevel::Blank },
            Segment {
                ticks: (2 * p.half_line - p.h_sync - p.back_porch) as u64,
                level: SegmentLevel::Picture((n - 1) as usize),
            },
        ];
        lemma_count_append(picture_lines(n - 1, p), last, ticks);
        let two = last.drop_last();
        let one = two.drop_last();
        assert(one.drop_last() =~= Seq::<Segment>::empty());
        assert(sync_count(one.drop_last(), ticks) == 0);
        assert(sync_count(two, ticks) == sync_count(one, ticks));
        assert(sync_count(last, ticks) == sync_count(two, ticks));
    }
}

proof fn lemma_gap_count(half_lines: int, p: StandardParams, ticks: u64)
    ensures
        sync_count(half_line_gap(half_lines, p), ticks) == 0,
{
    let g = half_line_gap(half_lines, p);
    if half_lines > 0 {
        assert(g.drop_last() =~= Seq::<Segment>::empty());
        assert(sync_count(g.drop_last(), ticks) == 0);
    }
}

/// Every field has its standard's equalizing and broad pulses, and one line
/// pulse for each visible line and each whole line of blanking.
pub proof fn law_fields_have_standard_pulses(is_pal: bool, parity: FieldParity)
    ensures
        ({
            let p = layout(is_pal);
            let s = field_segments(p, parity);
            &&& sync_count(s, p.eq_width) == p.eq_pulses + p.posteq_pulses
            &&& sync_count(s, p.broad_low) == p.broad_pulses
            &&& sync_count(s, p.h_sync) == p.active_lines + lead(p, parity) / 2 + tail(p, parity)
                / 2
        }),
{
    let p = layout(is_pal);
    lemma_field_count(is_pal, parity, p.eq_width);
    lemma_field_count(is_pal, parity, p.broad_low);
    lemma_field_count(is_pal, parity, p.h_sync);
}

proof fn lemma_field_count(is_pal: bool, parity: FieldParity, ticks: u64)
    ensures
        ({
            let p = layout(is_pal);
            sync_count(field_segments(p, parity), ticks) == (if p.eq_width == ticks {
                p.eq_pulses + p.posteq_pulses
            } else {
                0int
            }) + (if p.broad_low == ticks {
                p.broad_pulses as int
            } else {
                0int
            }) + (if p.h_sync == ticks {
                p.active_lines + lead(p, parity) / 2 + tail(p, parity) / 2
            } else {
                0int
            })
        }),
{
    let p = layout(is_pal);
    let line = (2 * p.half_line) as u64;
    let s1 = pulses(p.eq_pulses as int, p.eq_width, p.half_line);
    let s2 = pulses(p.broad_pulses as int, p.broad_low, p.half_line);
    let s3 = pulses(p.posteq_pulses as int, p.eq_width, p.half_line);
    let s4 = pulses(lead(p, parity) / 2, p.h_sync, line);
    let s5 = half_line_gap(lead(p, parity) % 2, p);
    let s6 = picture_lines(p.active_lines as int, p);
    let s7 = pulses(tail(p, parity) / 2, p.h_sync, line);
    let s8 = half_line_gap(tail(p, parity) % 2, p);
    lemma_pulses_count(p.eq_pulses as int, p.eq_width, p.half_line, ticks);
    lemma_pulses_count(p.broad_pulses as int, p.broad_low, p.half_line, ticks);
    lemma_pulses_count(p.posteq_pulses as int, p.eq_width, p.half_line, ticks);
    lemma_pulses_count(lead(p, parity) / 2, p.h_sync, line, ticks);
    lemma_picture_count(p.active_lines as int, p, ticks);
    lemma_pulses_count(tail(p, parity) / 2, p.h_sync, line, ticks);
    lemma_gap_count(lead(p, parity) % 2, p, ticks);
    lemma_gap_count(tail(p, parity) % 2, p, ticks);
    lemma_count_append(s1, s2, ticks);
    lemma_count_append(s1 + s2, s3, ticks);
    lemma_count_append(s1 + s2 + s3, s4, ticks);
    lemma_count_append(s1 + s2 + s3 + s4, s5, ticks);
    lemma_count_append(s1 + s2 + s3 + s4 + s5, s6, ticks);
    lemma_count_append(s1 + s2 + s3 + s4 + s5 + s6, s7, ticks);
    lemma_count_append(s1 + s2 + s3 + s4 + s5 + s6 + s7, s8, ticks);
}

/// A ramp rises in proportion to the column, towards white; bars climb in
/// equal steps from black to white, each ninety columns wide.
pub proof fn law_patterns_span_black_to_white(line: int, col: int)
    requires
        0 <= col < 720,
    ensures
        720 * TestPattern::GrayRamp.level(line, col) == WHITE_LEVEL * col,
        ({
            let bar = TestPattern::Bars.level(line, col);
            &&& bar % 72_000 == 0
            &&& 0 <= bar <= WHITE_LEVEL
            &&& 90 * (bar / 72_000) <= col < 90 * (bar / 72_000 + 1)
        }),
        WHITE_LEVEL == 7 * 72_000,
        WHITE_LEVEL == 100 * UNITS_PER_IRE,
        SYNC_LEVEL == -40 * UNITS_PER_IRE,
{
    let k = col * 8 / 720;
    assert(90 * k <= col < 90 * (k + 1) && 0 <= k <= 7);
    assert(TestPattern::Bars.level(line, col) == 72_000 * k);
}

/// The first sample of a visible line shows the first column, the last one the
/// last, and no sample shows an earlier column than the one before it.
pub proof fn law_columns_sweep_the_line(j: int, k: int, n: int)
    requires
        2 <= n,
        0 <= j <= k < n,
    ensures
        0 <= column(j, n) <= column(k, n) <= 719,
        column(0, n) == 0,
        column(n - 1, n) == 719,
        column(k, n) < 719 ==> (n - 1) * column(k, n) <= 720 * k < (n - 1) * (column(k, n) + 1),
{
    let d = n - 1;
    let (a, b) = (j * 720 / d, k * 720 / d);
    assert(0 <= a <= b) by (nonlinear_arith)
        requires
            0 <= j <= k,
            d >= 1,
            a == j * 720 / d,
            b == k * 720 / d,
    ;
    assert(d * b <= 720 * k < d * (b + 1)) by (nonlinear_arith)
        requires
            d >= 1,
            b == k * 720 / d,
    ;
    assert((0int * 720) / d == 0) by (nonlinear_arith)
        requires
            d >= 1,
    ;
    assert((d * 720) / d == 720) by (nonlinear_arith)
        requires
            d >= 1,
    ;
}

/// A level becomes the frequency that it stands for: 100 IRE are the whole
/// deviation, to a nanoturn below, and the offset is added.
pub proof fn law_white_is_the_whole_deviation(level: i32, cfg: SyntheticVideoConfig)
    requires
        cfg.sample_rate > 0,
        i32::MIN < as_sample(level, cfg) < i32::MAX,
    ensures
        ({
            let nanohertz = (as_sample(level, cfg) - cfg.dc_offset) * cfg.sample_rate;
            let wanted = level * (cfg.deviation_hz * 1_000_000_000);
            504_000 * nanohertz <= wanted < 504_000 * (nanohertz + cfg.sample_rate)
        }),
{
    let rate = cfg.sample_rate as int;
    let num = level * cfg.deviation_hz * 10_000_000;
    let den = 5_040 * rate;
    let t = num / den;
    assert(den * t <= num < den * t + den) by (nonlinear_arith)
        requires
            den > 0,
            t == num / den,
    ;
    assert(as_sample(level, cfg) == t + cfg.dc_offset);
    assert(den * t == 5_040 * (t * rate)) by (nonlinear_arith)
        requires
            den == 5_040 * rate,
    ;
    let nanohertz = t * rate;
    assert(504_000 * nanohertz <= 100 * num < 504_000 * (nanohertz + rate));
    assert((as_sample(level, cfg) - cfg.dc_offset) * cfg.sample_rate == nanohertz);
    assert(level * (cfg.deviation_hz * 1_000_000_000) == 100 * num) by (nonlinear_arith)
        requires
            num == level * cfg.deviation_hz * 10_000_000,
    ;
}

/// A segment's samples lie where its time is: from the sample nearest to its
/// start up to the one nearest to its end, counted from the start of all.
pub proof fn law_segments_lie_in_their_time(
    s: Seq<Segment>,
    pattern: TestPattern,
    sample_rate: int,
    p: StandardParams,
    j: int,
    i: int,
)
    requires
        0 <= sample_rate,
        0 < p.ticks_per_second,
        0 <= j < s.len(),
        sample_at(duration(s.take(j)), sample_rate, p) <= i < sample_at(
            duration(s.take(j + 1)),
            sample_rate,
            p,
        ),
    ensures
        i < rendered(s, pattern, sample_rate, p).len(),
        s[j].level == SegmentLevel::Sync ==> rendered(s, pattern, sample_rate, p)[i] == SYNC_LEVEL,
        s[j].level == SegmentLevel::Blank ==> rendered(s, pattern, sample_rate, p)[i] == 0,
        s[j].level matches SegmentLevel::Picture(line) ==> {
            let from = sample_at(duration(s.take(j)), sample_rate, p);
            let to = sample_at(duration(s.take(j + 1)), sample_rate, p);
            rendered(s, pattern, sample_rate, p)[i] == pattern.level(
                line as int,
                column(i - from, to - from),
            )
        },
    decreases s.len(),
{
    let front = s.drop_last();
    lemma_rendered_length(front, pattern, sample_rate, p);
    lemma_rendered_length(s, pattern, sample_rate, p);
    lemma_duration_of_prefix(s, j);
    lemma_duration_of_prefix(s, j + 1);
    lemma_sample_at_grows(duration(s.take(j + 1)), duration(s), sample_rate, p);
    lemma_sample_at_grows(0, duration(s.take(j)), sample_rate, p);
    if j < front.len() {
        assert(front.take(j) =~= s.take(j));
        assert(front.take(j + 1) =~= s.take(j + 1));
        lemma_duration_of_prefix(front, j + 1);
        lemma_sample_at_grows(duration(front.take(j + 1)), duration(front), sample_rate, p);
        law_segments_lie_in_their_time(front, pattern, sample_rate, p, j, i);
        assert(front[j] == s[j]);
        assert(rendered(s, pattern, sample_rate, p)[i] == rendered(
            front,
            pattern,
            sample_rate,
            p,
        )[i]);
    } else {
        assert(s.take(j) =~= front);
        assert(s.take(j + 1) =~= s);
    }
}

/// A pulse is low first, for its own length, and blank for the rest of its
/// slot.
pub proof fn law_pulses_are_low_first(n: int, low: u64, slot: u64, k: int)
    requires
        low <= slot,
        0 <= k < n,
    ensures
        pulses(n, low, slot).len() == 2 * n,
        pulses(n, low, slot)[2 * k] == (Segment { ticks: low, level: SegmentLevel::Sync }),
        pulses(n, low, slot)[2 * k + 1].level == SegmentLevel::Blank,
        pulses(n, low, slot)[2 * k].ticks + pulses(n, low, slot)[2 * k + 1].ticks == slot,
    decreases n,
{
    lemma_pulses_len(n - 1, low, slot);
    if k < n - 1 {
        law_pulses_are_low_first(n - 1, low, slot, k);
    }
}

proof fn lemma_pulses_len(n: int, low: u64, slot: u64)
    ensures
        pulses(n, low, slot).len() == if n <= 0 {
            0
        } else {
            2 * n
        },
    decreases n,
{
    if n > 0 {
        lemma_pulses_len(n - 1, low, slot);
    }
}

proof fn lemma_picture_len(n: int, p: StandardParams)
    ensures
        picture_lines(n, p).len() == if n <= 0 {
            0
        } else {
            3 * n
        },
    decreases n,
{
    if n > 0 {
        lemma_picture_len(n - 1, p);
    }
}

/// A visible line is its sync pulse, its back porch and then the pattern's
/// line, and lasts two half-lines.
pub proof fn law_lines_are_sync_porch_picture(n: int, p: StandardParams, k: int)
    requires
        0 <= k < n <= 0x1_0000,
        p.h_sync + p.back_porch <= 2 * p.half_line <= u64::MAX,
    ensures
        ({
            let s = picture_lines(n, p);
            &&& s.len() == 3 * n
            &&& s[3 * k] == (Segment { ticks: p.h_sync, level: SegmentLevel::Sync })
            &&& s[3 * k + 1] == (Segment { ticks: p.back_porch, level: SegmentLevel::Blank })
            &&& s[3 * k + 2].level == SegmentLevel::Picture(k as usize)
            &&& s[3 * k].ticks + s[3 * k + 1].ticks + s[3 * k + 2].ticks == 2 * p.half_line
        }),
    decreases n,
{
    lemma_picture_len(n - 1, p);
    if k < n - 1 {
        law_lines_are_sync_porch_picture(n - 1, p, k);
    }
}

/// The picture of a second field starts half a line later than that of a first
/// one, so that the two interlace; what comes before and after it fills the
/// field, and parities alternate.
pub proof fn law_second_fields_start_half_a_line_later(is_pal: bool, start: FieldParity, n: int)
    requires
        0 <= n,
    ensures
        ({
            let p = layout(is_pal);
            &&& picture_start(p, FieldParity::Second) == picture_start(p, FieldParity::First) + 1
            &&& forall|parity: FieldParity|
                #![trigger lead(p, parity)]
                p.eq_pulses + p.broad_pulses + p.posteq_pulses + lead(p, parity) + 2
                    * p.active_lines + tail(p, parity) == p.half_lines && lead(p, parity) >= 0
                    && tail(p, parity) >= 0
            &&& parity_of(start, n + 1) != parity_of(start, n)
            &&& parity_of(start, n + 2) == parity_of(start, n)
        }),
{
    assert(parity_of(start, n + 1) == parity_of(start, n).flip());
    assert(parity_of(start, n + 2) == parity_of(start, n + 1).flip());
}

/// A carrier has turned by its offset times the time, to half a nanoturn.
pub proof fn law_carrier_turns_by_its_offset(sample_rate: int, offset_hz: int, n: int) -> (turns:
    int)
    requires
        sample_rate > 0,
    ensures
        -sample_rate < 2 * (sample_rate * (carrier_phase(sample_rate, offset_hz, n) + 1_000_000_000
            * turns) - 1_000_000_000 * (n * offset_hz)) <= sample_rate,
{
    let x = n * offset_hz;
    let q = x / sample_rate;
    let r = x % sample_rate;
    assert(x == sample_rate * q + r) by (nonlinear_arith)
        requires
            sample_rate > 0,
            q == x / sample_rate,
            r == x % sample_rate,
    ;
    law_nearest_is_within_half(r * 1_000_000_000, sample_rate);
    let c = carrier_phase(sample_rate, offset_hz, n);
    assert(sample_rate * (c + 1_000_000_000 * q) == sample_rate * c + 1_000_000_000 * (sample_rate
        * q)) by (nonlinear_arith);
    q
}

/// A wrapped phase differs from the phase by whole turns, and is within half a
/// turn of zero.
pub proof fn law_wrapping_takes_whole_turns(phase: int)
    ensures
        -500_000_000 < wrapped(phase) <= 500_000_000,
        (phase - wrapped(phase)) % 1_000_000_000 == 0,
{
}

/// Noise is added to each sample by itself: a sample deviates by a multiple of
/// its own draws, and a signal without noise is left alone.
pub proof fn law_noise_is_added_sample_by_sample(s: Seq<i32>, sigma: int, seed: u64, i: int)
    requires
        0 <= i < s.len(),
        0 <= sigma,
    ensures
        noisy(s, sigma, seed).len() == s.len(),
        sigma == 0 ==> noisy(s, sigma, seed)[i] == s[i],
        ({
            let d = deviate(drawn(seed, (12 * i) as nat));
            let moved = noisy(s, sigma, seed)[i] - s[i];
            i32::MIN < noisy(s, sigma, seed)[i] < i32::MAX ==> -u64::MAX < 2 * (u64::MAX * moved
                - sigma * d) <= u64::MAX
        }),
{
    let state = drawn(seed, (12 * i) as nat);
    law_nearest_is_within_half(sigma * deviate(state), u64::MAX as int);
    if sigma == 0 {
        law_noise_is_bounded(state, 0);
    }
}

/// A field's visible lines follow each other from where its picture starts,
/// which is as many half-lines after its first pulse as its standard and its
/// parity say. The segment that they start with is given back.
pub proof fn law_picture_starts_on_time(is_pal: bool, parity: FieldParity) -> (m: int)
    ensures
        ({
            let p = layout(is_pal);
            let s = field_segments(p, parity);
            &&& 0 <= m
            &&& m + 3 * p.active_lines <= s.len()
            &&& duration(s.take(m)) == picture_start(p, parity) * p.half_line
            &&& s.subrange(m, m + 3 * p.active_lines) == picture_lines(p.active_lines as int, p)
        }),
{
    let p = layout(is_pal);
    let line = (2 * p.half_line) as u64;
    let s1 = pulses(p.eq_pulses as int, p.eq_width, p.half_line);
    let s2 = pulses(p.broad_pulses as int, p.broad_low, p.half_line);
    let s3 = pulses(p.posteq_pulses as int, p.eq_width, p.half_line);
    let s4 = pulses(lead(p, parity) / 2, p.h_sync, line);
    let s5 = half_line_gap(lead(p, parity) % 2, p);
    let s6 = picture_lines(p.active_lines as int, p);
    let s7 = pulses(tail(p, parity) / 2, p.h_sync, line);
    let s8 = half_line_gap(tail(p, parity) % 2, p);
    let before = s1 + s2 + s3 + s4 + s5;
    let s = field_segments(p, parity);
    let m = before.len() as int;
    lemma_pulses_duration(p.eq_pulses as int, p.eq_width, p.half_line);
    lemma_pulses_duration(p.broad_pulses as int, p.broad_low, p.half_line);
    lemma_pulses_duration(p.posteq_pulses as int, p.eq_width, p.half_line);
    lemma_pulses_duration(lead(p, parity) / 2, p.h_sync, line);
    lemma_gap_duration(lead(p, parity) % 2, p);
    lemma_duration_append(s1, s2);
    lemma_duration_append(s1 + s2, s3);
    lemma_duration_append(s1 + s2 + s3, s4);
    lemma_duration_append(s1 + s2 + s3 + s4, s5);
    lemma_picture_len(p.active_lines as int, p);
    assert(s == before + s6 + s7 + s8);
    assert(s.take(m) =~= before);
    assert(s.subrange(m, m + s6.len()) =~= s6);
    let h = p.half_line as int;
    let (e, b, q) = (p.eq_pulses as int, p.broad_pulses as int, p.posteq_pulses as int);
    let (l2, l1) = (lead(p, parity) / 2, lead(p, parity) % 2);
    assert(e * h + b * h + q * h + l2 * (2 * h) + l1 * h == (e + b + q + 2 * l2 + l1) * h)
        by (nonlinear_arith);
    assert(e + b + q + 2 * l2 + l1 == picture_start(p, parity));
    m
}

/// The broad pulses of a field, which name its start, follow its equalizing
/// pulses at once, one in each half-line.
pub proof fn law_broad_pulses_follow_equalizing_ones(is_pal: bool, parity: FieldParity, k: int)
    requires
        0 <= k < layout(is_pal).broad_pulses,
    ensures
        ({
            let p = layout(is_pal);
            let s = field_segments(p, parity);
            let at = 2 * (p.eq_pulses + k);
            &&& s[at] == (Segment { ticks: p.broad_low, level: SegmentLevel::Sync })
            &&& duration(s.take(at)) == (p.eq_pulses + k) * p.half_line
        }),
{
    let p = layout(is_pal);
    let line = (2 * p.half_line) as u64;
    let s1 = pulses(p.eq_pulses as int, p.eq_width, p.half_line);
    let s2 = pulses(p.broad_pulses as int, p.broad_low, p.half_line);
    let s = field_segments(p, parity);
    let at = 2 * (p.eq_pulses + k);
    lemma_pulses_len(p.eq_pulses as int, p.eq_width, p.half_line);
    law_pulses_are_low_first(p.broad_pulses as int, p.broad_low, p.half_line, k);
    let head = pulses(k, p.broad_low, p.half_line);
    lemma_pulses_prefix(p.broad_pulses as int, p.broad_low, p.half_line, k);
    lemma_pulses_len(k, p.broad_low, p.half_line);
    assert(s[at] == s2[2 * k]);
    assert(s.take(at) =~= s1 + head) by {
        assert(s2.take(2 * k) == head);
        assert forall|i: int| s1.len() <= i < at implies s.take(at)[i] == (s1 + head)[i] by {
            assert(s[i] == s2[i - s1.len()]);
            assert(s2.take(2 * k)[i - s1.len()] == s2[i - s1.len()]);
        }
    }
    lemma_duration_append(s1, head);
    lemma_pulses_duration(p.eq_pulses as int, p.eq_width, p.half_line);
    lemma_pulses_duration(k, p.broad_low, p.half_line);
    let (e, h) = (p.eq_pulses as int, p.half_line as int);
    assert(e * h + k * h == (e + k) * h) by (nonlinear_arith);
}

proof fn lemma_pulses_prefix(n: int, low: u64, slot: u64, k: int)
    requires
        0 <= k <= n,
    ensures
        pulses(n, low, slot).take(2 * k) == pulses(k, low, slot),
    decreases n,
{
    lemma_pulses_len(n, low, slot);
    lemma_pulses_len(k, low, slot);
    if k < n {
        lemma_pulses_len(n - 1, low, slot);
        lemma_pulses_prefix(n - 1, low, slot, k);
        assert(pulses(n, low, slot).take(2 * k) =~= pulses(n - 1, low, slot).take(2 * k));
    } else {
        assert(pulses(n, low, slot).take(2 * k) =~= pulses(n, low, slot));
    }
}

} // verus!
