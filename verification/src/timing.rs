//! Television line and field timing, exact.
//!
//! Rates and periods are ratios of whole numbers: the NTSC line rate is
//! 15 750 000 / 1001 Hz and no decimal fraction of it is used anywhere.
//! Figures follow ITU-R BT.470, tables 1 and 2.

use vstd::prelude::*;

use crate::vbi::consts::{
    BACK_PORCH_NS, H_SYNC_WIDTH_NS, NTSC_BROAD_TO_ACTIVE_HALF_LINES, PAL_BROAD_TO_ACTIVE_HALF_LINES,
};

verus! {

/// Numerator of the NTSC line rate in Hz.
pub const NTSC_LINE_HZ_NUM: u64 = 15_750_000;

/// Denominator of the NTSC line rate.
pub const NTSC_LINE_HZ_DEN: u64 = 1001;

/// PAL line rate in Hz.
pub const PAL_LINE_HZ_NUM: u64 = 15_625;

/// Half-lines per NTSC field: 262.5 lines.
pub const NTSC_HALF_LINES_PER_FIELD: usize = 525;

/// Half-lines per PAL field: 312.5 lines.
pub const PAL_HALF_LINES_PER_FIELD: usize = 625;

/// Fields in an NTSC colour sequence.
pub const NTSC_COLOUR_SEQUENCE_FIELDS: usize = 4;

/// Fields in a PAL colour sequence.
pub const PAL_COLOUR_SEQUENCE_FIELDS: usize = 8;

/// Visible picture lines per NTSC field.
pub const NTSC_ACTIVE_LINES: usize = 240;

/// Visible picture lines per PAL field.
pub const PAL_ACTIVE_LINES: usize = 288;

/// A quantity as a quotient of whole numbers.
#[derive(Debug, Clone, Copy, PartialEq, Eq, Structural)]
pub struct Ratio {
    pub num: i64,
    pub den: u64,
}

impl Ratio {
    /// A ratio has a value.
    pub open spec fn wf(self) -> bool {
        self.den > 0
    }

    /// Whether two ratios have the same value.
    pub open spec fn same(self, other: Ratio) -> bool {
        self.num * other.den == other.num * self.den
    }
}

/// A quotient of whole numbers, halves rounded away from zero.
pub open spec fn round_div(num: int, den: int) -> int
    recommends
        num >= 0,
        den > 0,
{
    (2 * num + den) / (2 * den)
}

/// Television standard.
#[derive(Debug, Clone, Copy, PartialEq, Eq, Structural)]
pub enum Standard {
    Ntsc,
    Pal,
}

impl Standard {
    /// Line rate in Hz, as numerator and denominator.
    pub open spec fn line_rate(self) -> (int, int) {
        match self {
            Standard::Ntsc => (15_750_000, 1001),
            Standard::Pal => (15_625, 1),
        }
    }

    /// Half-lines in one field.
    pub open spec fn half_lines(self) -> int {
        match self {
            Standard::Ntsc => 525,
            Standard::Pal => 625,
        }
    }

    pub open spec fn of(is_pal: bool) -> Standard {
        if is_pal {
            Standard::Pal
        } else {
            Standard::Ntsc
        }
    }

    pub fn from_is_pal(is_pal: bool) -> (s: Self)
        ensures
            s == Standard::of(is_pal),
    {
        if is_pal {
            Standard::Pal
        } else {
            Standard::Ntsc
        }
    }

    pub fn is_pal(&self) -> (b: bool)
        ensures
            b == (*self == Standard::Pal),
    {
        matches!(self, Standard::Pal)
    }

    /// Line rate in Hz.
    pub fn nominal_line_hz(&self) -> (r: Ratio)
        ensures
            r.num == self.line_rate().0,
            r.den == self.line_rate().1,
    {
        match self {
            Standard::Ntsc => Ratio { num: NTSC_LINE_HZ_NUM as i64, den: NTSC_LINE_HZ_DEN },
            Standard::Pal => Ratio { num: PAL_LINE_HZ_NUM as i64, den: 1 },
        }
    }

    pub fn half_lines_per_field(&self) -> (n: usize)
        ensures
            n == self.half_lines(),
    {
        match self {
            Standard::Ntsc => NTSC_HALF_LINES_PER_FIELD,
            Standard::Pal => PAL_HALF_LINES_PER_FIELD,
        }
    }

    /// Field duration in lines; always half of an odd number.
    pub fn field_total_lines(&self) -> (r: Ratio)
        ensures
            r.num == self.half_lines(),
            r.den == 2,
    {
        match self {
            Standard::Ntsc => Ratio { num: 525, den: 2 },
            Standard::Pal => Ratio { num: 625, den: 2 },
        }
    }

    /// Visible picture lines per field.
    pub fn active_lines(&self) -> (n: usize)
        ensures
            *self == Standard::Ntsc ==> n == 240,
            *self == Standard::Pal ==> n == 288,
    {
        match self {
            Standard::Ntsc => NTSC_ACTIVE_LINES,
            Standard::Pal => PAL_ACTIVE_LINES,
        }
    }

    /// Colour subcarrier cycles per line: 455/2, or 1135/4 + 1/625.
    pub fn subcarrier_cycles_per_line(&self) -> (r: Ratio)
        ensures
            *self == Standard::Ntsc ==> r == (Ratio { num: 455, den: 2 }),
            *self == Standard::Pal ==> r.num == 1135 * 625 + 4 && r.den == 4 * 625,
    {
        match self {
            Standard::Ntsc => Ratio { num: 455, den: 2 },
            Standard::Pal => Ratio { num: 709_379, den: 2_500 },
        }
    }

    /// Fields after which the colour phase repeats.
    pub fn colour_sequence_fields(&self) -> (n: usize)
        ensures
            *self == Standard::Ntsc ==> n == 4,
            *self == Standard::Pal ==> n == 8,
    {
        match self {
            Standard::Ntsc => NTSC_COLOUR_SEQUENCE_FIELDS,
            Standard::Pal => PAL_COLOUR_SEQUENCE_FIELDS,
        }
    }
}

/// A line in samples, as a numerator and a denominator.
pub open spec fn line_samples(sample_rate: int, is_pal: bool) -> (int, int) {
    let (hertz, per) = Standard::of(is_pal).line_rate();
    (sample_rate * per, hertz)
}

/// A half-line in samples, as a numerator and a denominator.
pub open spec fn half_line_samples(sample_rate: int, is_pal: bool) -> (int, int) {
    let (hertz, per) = Standard::of(is_pal).line_rate();
    (sample_rate * per, 2 * hertz)
}

/// A field in samples, as a numerator and a denominator.
pub open spec fn field_samples(sample_rate: int, is_pal: bool) -> (int, int) {
    let (hertz, per) = Standard::of(is_pal).line_rate();
    (Standard::of(is_pal).half_lines() * (sample_rate * per), 2 * hertz)
}

/// Nominal line period in samples.
pub fn nominal_line_period_samples(sample_rate: u32, is_pal: bool) -> (r: Ratio)
    ensures
        r.num == sample_rate * Standard::of(is_pal).line_rate().1,
        r.den == Standard::of(is_pal).line_rate().0,
        (r.num as int, r.den as int) == line_samples(sample_rate as int, is_pal),
{
    match Standard::from_is_pal(is_pal) {
        Standard::Ntsc => Ratio { num: sample_rate as i64 * 1001, den: NTSC_LINE_HZ_NUM },
        Standard::Pal => Ratio { num: sample_rate as i64, den: PAL_LINE_HZ_NUM },
    }
}

/// Nominal half-line period in samples.
pub fn nominal_half_line_period_samples(sample_rate: u32, is_pal: bool) -> (r: Ratio)
    ensures
        r.num == sample_rate * Standard::of(is_pal).line_rate().1,
        r.den == 2 * Standard::of(is_pal).line_rate().0,
        (r.num as int, r.den as int) == half_line_samples(sample_rate as int, is_pal),
{
    let line: Ratio = nominal_line_period_samples(sample_rate, is_pal);
    Ratio { num: line.num, den: 2 * line.den }
}

/// Nominal field period in samples.
pub fn nominal_field_period_samples(sample_rate: u32, is_pal: bool) -> (r: Ratio)
    ensures
        r.num == Standard::of(is_pal).half_lines() * (sample_rate * Standard::of(
            is_pal,
        ).line_rate().1),
        r.den == 2 * Standard::of(is_pal).line_rate().0,
        (r.num as int, r.den as int) == field_samples(sample_rate as int, is_pal),
{
    let half: Ratio = nominal_half_line_period_samples(sample_rate, is_pal);
    match Standard::from_is_pal(is_pal) {
        Standard::Ntsc => Ratio { num: 525 * half.num, den: half.den },
        Standard::Pal => Ratio { num: 625 * half.num, den: half.den },
    }
}

/// Two field periods are a whole, odd number of line periods: one field
/// alone ends half a line in, and that interlaces the two.
pub proof fn law_two_fields_make_a_frame(
    sample_rate: u32,
    standard: Standard,
    line: Ratio,
    field: Ratio,
)
    requires
        line.num == sample_rate * standard.line_rate().1,
        line.den == standard.line_rate().0,
        field.num == standard.half_lines() * (sample_rate * standard.line_rate().1),
        field.den == 2 * standard.line_rate().0,
    ensures
        (2 * field.num) * line.den == (standard.half_lines() * line.num) * field.den,
        standard.half_lines() % 2 == 1,
{
    let n = line.num as int;
    let d = line.den as int;
    let h = standard.half_lines();
    assert((2 * (h * n)) * d == (h * n) * (2 * d)) by (nonlinear_arith);
}

/// The line period in samples, times the line rate, is the sample rate.
pub proof fn law_line_period_times_rate(
    sample_rate: u32,
    standard: Standard,
    line: Ratio,
    rate: Ratio,
)
    requires
        line.num == sample_rate * standard.line_rate().1,
        line.den == standard.line_rate().0,
        rate.num == standard.line_rate().0,
        rate.den == standard.line_rate().1,
    ensures
        line.num * rate.num == sample_rate * (line.den * rate.den),
{
    let s = sample_rate as int;
    let p = standard.line_rate().0;
    let q = standard.line_rate().1;
    assert((s * q) * p == s * (p * q)) by (nonlinear_arith);
}

/// Timing conventions that turn one sync event into another.
///
/// The centre of a horizontal sync pulse, the leading edge of a broad pulse
/// and the start of active video are distinct events; these are the delays
/// between them.
#[derive(Debug, Clone, Copy, PartialEq, Eq, Structural)]
pub struct CalibratedCoordinateMap {
    pub is_pal: bool,
    pub sample_rate: u32,
    /// Half-lines from a broad pulse's leading edge to the first active line.
    pub broad_to_active_half_lines: u32,
    /// Horizontal sync pulse duration.
    pub h_sync_width_ns: u32,
    /// Back porch duration.
    pub back_porch_ns: u32,
}

impl CalibratedCoordinateMap {
    pub fn new(sample_rate: u32, is_pal: bool) -> (m: Self)
        ensures
            m.is_pal == is_pal,
            m.sample_rate == sample_rate,
            m.broad_to_active_half_lines == (if is_pal {
                42int
            } else {
                36int
            }),
            m.h_sync_width_ns == 4_700,
            m.back_porch_ns == 5_800,
    {
        CalibratedCoordinateMap {
            is_pal,
            sample_rate,
            broad_to_active_half_lines: if is_pal {
                PAL_BROAD_TO_ACTIVE_HALF_LINES
            } else {
                NTSC_BROAD_TO_ACTIVE_HALF_LINES
            },
            h_sync_width_ns: H_SYNC_WIDTH_NS,
            back_porch_ns: BACK_PORCH_NS,
        }
    }

    /// Samples from a broad pulse's leading edge to active video, as a numerator
    /// and a denominator.
    pub open spec fn active_after_broad(
        &self,
        line_period_samples: Ratio,
        is_second_parity: bool,
    ) -> (int, int) {
        (
            (self.broad_to_active_half_lines + (if is_second_parity {
                1int
            } else {
                0
            })) * line_period_samples.num,
            2 * line_period_samples.den as int,
        )
    }

    /// Offset from broad pulse leading edge to active video start, in
    /// samples. The second field starts half a line later.
    pub fn broad_to_active_start_samples(
        &self,
        line_period_samples: Ratio,
        is_second_parity: bool,
    ) -> (r: Ratio)
        requires
            line_period_samples.den <= u64::MAX / 2,
            i64::MIN <= (self.broad_to_active_half_lines + 1) * line_period_samples.num
                <= i64::MAX,
        ensures
            r.num == (self.broad_to_active_half_lines + (if is_second_parity {
                1int
            } else {
                0
            })) * line_period_samples.num,
            r.den == 2 * line_period_samples.den,
            (r.num as int, r.den as int) == self.active_after_broad(
                line_period_samples,
                is_second_parity,
            ),
    {
        let extra: i64 = if is_second_parity {
            1
        } else {
            0
        };
        let half_lines: i64 = self.broad_to_active_half_lines as i64 + extra;
        proof {
            let n = line_period_samples.num as int;
            let h = self.broad_to_active_half_lines as int;
            assert(i64::MIN <= half_lines * n <= i64::MAX) by (nonlinear_arith)
                requires
                    i64::MIN <= (h + 1) * n <= i64::MAX,
                    0 <= half_lines <= h + 1,
                    i64::MIN <= n <= i64::MAX,
            {
                if n >= 0 {
                    assert(half_lines * n <= (h + 1) * n);
                    assert(0 <= half_lines * n);
                } else {
                    assert(half_lines * n >= (h + 1) * n);
                    assert(0 >= half_lines * n);
                }
            }
        }
        Ratio { num: half_lines * line_period_samples.num, den: 2 * line_period_samples.den }
    }

    /// Offset from the centre of a horizontal sync pulse to its leading
    /// edge, in samples.
    pub fn h_sync_center_to_leading_edge(&self) -> (r: Ratio)
        requires
            self.h_sync_width_ns * self.sample_rate <= i64::MAX,
        ensures
            r.num == -(self.h_sync_width_ns * self.sample_rate),
            r.den == 2_000_000_000,
    {
        let forward: Ratio = self.h_sync_leading_edge_to_center();
        Ratio { num: -forward.num, den: forward.den }
    }

    /// Offset from the leading edge of a horizontal sync pulse to its
    /// centre, in samples.
    pub fn h_sync_leading_edge_to_center(&self) -> (r: Ratio)
        requires
            self.h_sync_width_ns * self.sample_rate <= i64::MAX,
        ensures
            r.num == self.h_sync_width_ns * self.sample_rate,
            r.den == 2_000_000_000,
    {
        let width: u64 = self.h_sync_width_ns as u64;
        let rate: u64 = self.sample_rate as u64;
        Ratio { num: (width * rate) as i64, den: 2_000_000_000 }
    }

    /// Horizontal sync pulse width in whole samples.
    pub fn h_sync_width_samples(&self) -> (n: u64)
        ensures
            n == round_div(self.h_sync_width_ns * self.sample_rate, 1_000_000_000),
    {
        samples_in(self.h_sync_width_ns, self.sample_rate)
    }

    /// Back porch duration in whole samples.
    pub fn back_porch_samples(&self) -> (n: u64)
        ensures
            n == round_div(self.back_porch_ns * self.sample_rate, 1_000_000_000),
    {
        samples_in(self.back_porch_ns, self.sample_rate)
    }
}

/// A duration in whole samples, halves rounded up.
pub fn samples_in(duration_ns: u32, sample_rate: u32) -> (n: u64)
    ensures
        n == round_div(duration_ns * sample_rate, 1_000_000_000),
{
    assert(duration_ns * sample_rate <= u32::MAX * u32::MAX) by (nonlinear_arith);
    let span: u128 = duration_ns as u128 * sample_rate as u128;
    ((2 * span + 1_000_000_000) / 2_000_000_000) as u64
}

/// Going from the centre of a sync pulse to its edge and back is no move.
pub proof fn law_sync_edge_and_center_are_inverse(map: CalibratedCoordinateMap, to: Ratio, back: Ratio)
    requires
        to.num == -(map.h_sync_width_ns * map.sample_rate),
        back.num == map.h_sync_width_ns * map.sample_rate,
        to.den == back.den == 2_000_000_000,
    ensures
        to.num + back.num == 0,
{
}

/// The rates that the standards are built around: a PAL line lasts 64
/// microseconds and PAL has 50 fields a second; NTSC has 60 000 fields in
/// 1001 seconds.
pub proof fn law_standards_keep_their_rates()
    ensures
        ({
            let (num, den) = Standard::Pal.line_rate();
            &&& num * 64 == 1_000_000 * den
            &&& 2 * num == 50 * den * Standard::Pal.half_lines()
        }),
        ({
            let (num, den) = Standard::Ntsc.line_rate();
            2 * num * 1001 == 60_000 * den * Standard::Ntsc.half_lines()
        }),
        Standard::of(true) == Standard::Pal,
        Standard::of(false) == Standard::Ntsc,
{
}

/// Rounding a quotient stays within half of the divisor, and halves go up.
pub proof fn law_rounding_is_to_the_nearest(num: int, den: int)
    requires
        den > 0,
    ensures
        -den < 2 * (den * round_div(num, den) - num) <= den,
{
    let q = round_div(num, den);
    assert(-den < 2 * (den * q - num) <= den) by (nonlinear_arith)
        requires
            den > 0,
            q == (2 * num + den) / (2 * den),
    ;
}

/// What the periods are: a second holds as many lines as the line rate says,
/// a line two half-lines, and a field its standard's number of half-lines.
pub proof fn law_periods_fit_together(sample_rate: int, is_pal: bool)
    ensures
        ({
            let line = line_samples(sample_rate, is_pal);
            let half = half_line_samples(sample_rate, is_pal);
            let field = field_samples(sample_rate, is_pal);
            let (hertz, per) = Standard::of(is_pal).line_rate();
            // Compared as quotients.
            &&& line.0 * hertz == sample_rate * (per * line.1)
            &&& 2 * half.0 * line.1 == line.0 * half.1
            &&& field.0 * half.1 == Standard::of(is_pal).half_lines() * half.0 * field.1
            &&& line.1 > 0 && half.1 > 0 && field.1 > 0
        }),
{
    let (hertz, per) = Standard::of(is_pal).line_rate();
    let n = sample_rate * per;
    let h = Standard::of(is_pal).half_lines();
    assert(n * hertz == sample_rate * (per * hertz)) by (nonlinear_arith)
        requires
            n == sample_rate * per,
    ;
    assert(2 * n * hertz == n * (2 * hertz)) by (nonlinear_arith);
    assert((h * n) * (2 * hertz) == h * n * (2 * hertz));
}

/// Active video of a second field starts exactly half a line later than that
/// of a first one, which starts its map's half-lines after the broad pulse.
pub proof fn law_second_parity_is_half_a_line_later(
    map: CalibratedCoordinateMap,
    line: Ratio,
)
    ensures
        ({
            let first = map.active_after_broad(line, false);
            let second = map.active_after_broad(line, true);
            &&& first.1 == second.1 == 2 * line.den
            &&& second.0 - first.0 == line.num
            &&& first.0 == map.broad_to_active_half_lines * line.num
        }),
{
    let (h, n) = (map.broad_to_active_half_lines as int, line.num as int);
    assert((h + 1) * n == h * n + n) by (nonlinear_arith);
    assert((h + 0) * n == h * n);
}

} // verus!
