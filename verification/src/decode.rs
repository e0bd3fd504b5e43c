//! Decoder configuration and the bookkeeping of a decoded stream.

use vstd::prelude::*;
use vstd::string::StringExecFns;

use crate::ddc::DEFAULT_FIR_TAPS;
use crate::demod::{demodulates, law_carry_joins_chunks};
use crate::levels::{max, min};
use crate::seqs::append_copies;
use crate::timing::{Ratio, Standard};
use crate::video::reconstructor::{frame_size, lines_of};

verus! {

/// Luma bandwidth kept above the deviation.
pub const LUMA_HEADROOM_HZ: u32 = 2_000_000;

/// Taps of the filter in front of a decimating decoder.
pub const DECODE_FIR_TAPS: usize = 127;

/// Widest loop of the phase-locked demodulator.
pub const PLL_LOOP_BW_HZ: u32 = 1_000_000;

/// Lowest rate at which the phase-locked demodulator is chosen by itself.
pub const PLL_AUTO_MIN_SAMPLE_RATE_HZ: u32 = 25_000_000;

/// A request that no decoder can be built for.
#[derive(Debug, Clone, Copy, PartialEq, Eq)]
pub struct DecodeConfigError(pub &'static str);

impl DecodeConfigError {
    /// What is wrong, in words.
    pub fn message(&self) -> (s: String)
        ensures
            s@ == self.0@,
    {
        String::from_str(self.0)
    }
}

/// Which demodulator is asked for; resolved once the working rate is known.
#[derive(Debug, Clone, Copy, PartialEq, Eq, Structural)]
pub enum DemodulationMode {
    Auto,
    Discriminator,
    Pll,
}

impl Default for DemodulationMode {
    fn default() -> (m: Self)
        ensures
            m == DemodulationMode::Auto,
    {
        DemodulationMode::Auto
    }
}

/// Whether a mode comes to the phase-locked demodulator. By itself it is
/// chosen only at 25 MHz or more, for a deviation that its loop can follow.
/// The loop is as wide as the rate over 4 pi, which is above its limit at
/// such rates.
pub open spec fn picks_pll(
    mode: DemodulationMode,
    decode_rate_hz: int,
    fm_deviation_hz: Option<i64>,
) -> bool {
    match mode {
        DemodulationMode::Discriminator => false,
        DemodulationMode::Pll => true,
        DemodulationMode::Auto => match fm_deviation_hz {
            Some(d) => decode_rate_hz >= PLL_AUTO_MIN_SAMPLE_RATE_HZ && 0 < d <= PLL_LOOP_BW_HZ,
            None => false,
        },
    }
}

impl DemodulationMode {
    /// Whether this mode comes to the phase-locked demodulator. No deviation
    /// stands for one that is not a number.
    pub fn use_pll(self, decode_rate_hz: u32, fm_deviation_hz: Option<i64>) -> (b: bool)
        ensures
            b == picks_pll(self, decode_rate_hz as int, fm_deviation_hz),
    {
        match self {
            DemodulationMode::Discriminator => false,
            DemodulationMode::Pll => true,
            DemodulationMode::Auto => match fm_deviation_hz {
                Some(d) => decode_rate_hz >= PLL_AUTO_MIN_SAMPLE_RATE_HZ && 0 < d && d
                    <= PLL_LOOP_BW_HZ as i64,
                None => false,
            },
        }
    }
}

/// Whether decimating by `d` leaves a channel clear of the filter's
/// transition band, which is 2.33 / 127 of the sample rate wide. The channel
/// is `band_hz` wide, twice the cutoff.
pub open spec fn clears_transition(sample_rate: int, band_hz: int, d: int) -> bool {
    d * (12_700 * band_hz + 233 * sample_rate) <= 12_700 * sample_rate
}

/// Largest decimation that leaves a channel clear of the filter's transition
/// band, at least one.
pub open spec fn largest_decimation(sample_rate: int, band_hz: int) -> int {
    max((12_700 * sample_rate) / (12_700 * band_hz + 233 * sample_rate), 1)
}

fn band_decimation(sample_rate: u32, band_hz: i128) -> (d: usize)
    requires
        sample_rate > 0,
        0 < band_hz <= 0x1_0000_0000_0000_0000,
    ensures
        d == largest_decimation(sample_rate as int, band_hz as int),
        1 <= d <= 54,
{
    let num: i128 = 12_700 * (sample_rate as i128);
    let den: i128 = 12_700 * band_hz + 233 * (sample_rate as i128);
    assert(num as int / den as int <= 54) by (nonlinear_arith)
        requires
            num == 12_700 * sample_rate,
            den >= 233 * sample_rate + 12_700,
            sample_rate > 0,
    ;
    assert(0 <= num as int / den as int) by (nonlinear_arith)
        requires
            num >= 0,
            den > 0,
    ;
    let d: i128 = num / den;
    if d >= 1 {
        d as usize
    } else {
        1
    }
}

/// Maximum decimation whose output clears the filter's transition band; one
/// where there is no rate or no cutoff. None stands for a cutoff that is not
/// a number.
pub fn decode_decimation(sample_rate: u32, ddc_cutoff_hz: Option<i64>) -> (d: usize)
    ensures
        d == (match ddc_cutoff_hz {
            Some(c) => if sample_rate > 0 && c > 0 {
                largest_decimation(sample_rate as int, 2 * c)
            } else {
                1
            },
            None => 1,
        }),
{
    match ddc_cutoff_hz {
        None => 1,
        Some(c) => {
            if sample_rate == 0 || c <= 0 {
                1
            } else {
                band_decimation(sample_rate, 2 * (c as i128))
            }
        },
    }
}

/// The chosen decimation never folds a channel onto itself, and the next
/// larger one would.
pub proof fn law_decimation_is_the_largest_safe_one(sample_rate: u32, band_hz: int)
    requires
        sample_rate > 0,
        band_hz > 0,
    ensures
        ({
            let d = largest_decimation(sample_rate as int, band_hz);
            &&& d > 1 ==> clears_transition(sample_rate as int, band_hz, d)
            &&& !clears_transition(sample_rate as int, band_hz, d + 1)
        }),
{
    let num = 12_700 * sample_rate;
    let den = 12_700 * band_hz + 233 * sample_rate;
    let q = num / den;
    assert(0 <= q && q * den <= num < (q + 1) * den) by (nonlinear_arith)
        requires
            q == num / den,
            den > 0,
            num >= 0,
    ;
    if q < 1 {
        assert(num < 2 * den) by (nonlinear_arith)
            requires
                num < (q + 1) * den,
                q < 1,
                den > 0,
        ;
    }
}

/// Least capture rate for a deviation and a usable span, as a numerator and a
/// denominator.
pub open spec fn capture_rate_for(fm_deviation_hz: Option<i64>, usable_span: Option<u32>) -> Option<
    (int, int),
> {
    match (fm_deviation_hz, usable_span) {
        (Some(d), Some(n)) => if d > 0 && 0 < n <= 1_000 {
            Some((2_000 * (d + LUMA_HEADROOM_HZ), n as int))
        } else {
            None
        },
        _ => None,
    }
}

/// Least capture rate that holds the widest planned channel inside a
/// device's usable span, which is given in thousandths of the rate: numerator
/// and denominator. None stands for what is not a number.
pub fn required_capture_rate(fm_deviation_hz: Option<i64>, usable_span: Option<u32>) -> (r: Option<
    (i128, u32),
>)
    ensures
        match (fm_deviation_hz, usable_span) {
            (Some(d), Some(n)) => if d > 0 && 0 < n <= 1_000 {
                r matches Some(x) && x.0 == 2_000 * (d + LUMA_HEADROOM_HZ) && x.1 == n
            } else {
                r is None
            },
            _ => r is None,
        },
        capture_rate_for(fm_deviation_hz, usable_span) == match r {
            Some(x) => Some((x.0 as int, x.1 as int)),
            None => None,
        },
{
    match (fm_deviation_hz, usable_span) {
        (Some(d), Some(n)) => {
            if d <= 0 || n == 0 || n > 1_000 {
                None
            } else {
                Some((2_000 * (d as i128 + LUMA_HEADROOM_HZ as i128), n))
            }
        },
        _ => None,
    }
}

/// A consistent choice of filter, rate and demodulator.
#[derive(Debug, Clone, Copy, PartialEq, Eq, Structural)]
pub struct DecodePlan {
    sample_rate: u32,
    fm_deviation: i64,
    cutoff: Ratio,
    decimation: usize,
    work_rate: u32,
    use_pll: bool,
}

/// Width of the channel that is kept: the requested bandwidth, but no more
/// than the deviation and its headroom on both sides, and no less than the
/// deviation on both sides.
pub open spec fn kept_band(fm_deviation: int, bandwidth_hz: int) -> int {
    max(min(bandwidth_hz, 2 * (fm_deviation + LUMA_HEADROOM_HZ)), 2 * fm_deviation)
}

/// Decimation of a plan. A forced phase-locked demodulator keeps the rate at
/// 25 MHz or above, where the capture has that.
pub open spec fn planned_decimation(
    sample_rate: int,
    fm_deviation: int,
    bandwidth_hz: int,
    mode: DemodulationMode,
) -> int {
    let d = largest_decimation(sample_rate, kept_band(fm_deviation, bandwidth_hz));
    if mode == DemodulationMode::Pll {
        min(d, max(sample_rate / PLL_AUTO_MIN_SAMPLE_RATE_HZ as int, 1))
    } else {
        d
    }
}

impl DecodePlan {
    pub closed spec fn rate(&self) -> int {
        self.sample_rate as int
    }

    pub closed spec fn deviation(&self) -> int {
        self.fm_deviation as int
    }

    /// Cutoff of the channel filter.
    pub closed spec fn cutoff_hz(&self) -> Ratio {
        self.cutoff
    }

    /// Width of the kept channel, twice the cutoff.
    pub open spec fn band(&self) -> int {
        if self.cutoff_hz().den == 2 {
            self.cutoff_hz().num as int
        } else {
            2 * self.cutoff_hz().num
        }
    }

    pub closed spec fn stride(&self) -> int {
        self.decimation as int
    }

    pub closed spec fn working_rate(&self) -> int {
        self.work_rate as int
    }

    pub closed spec fn phase_locked(&self) -> bool {
        self.use_pll
    }

    /// Plan the decoding of a channel. None stands for what is not a number.
    pub fn new(
        sample_rate: u32,
        fm_deviation: Option<i64>,
        bandwidth_hz: Option<i64>,
        mode: DemodulationMode,
    ) -> (r: Result<Self, DecodeConfigError>)
        ensures
            match r {
                Err(e) => {
                    ||| sample_rate == 0 && e.0@ == "sample rate must be positive"@
                    ||| sample_rate > 0 && !(fm_deviation is Some && fm_deviation->0 > 0) && e.0@
                        == "FM deviation must be finite and positive"@
                    ||| sample_rate > 0 && fm_deviation is Some && fm_deviation->0 > 0 && !(
                    bandwidth_hz is Some && bandwidth_hz->0 > 0) && e.0@
                        == "channel bandwidth must be finite and positive"@
                },
                Ok(p) => {
                    &&& sample_rate > 0
                    &&& fm_deviation is Some && fm_deviation->0 > 0
                    &&& bandwidth_hz is Some && bandwidth_hz->0 > 0
                    &&& p.rate() == sample_rate
                    &&& p.deviation() == fm_deviation->0
                    &&& p.band() == kept_band(fm_deviation->0 as int, bandwidth_hz->0 as int)
                    &&& p.cutoff_hz().den == 1 || p.cutoff_hz().den == 2
                    &&& fm_deviation->0 * p.cutoff_hz().den <= p.cutoff_hz().num <= (fm_deviation->0
                        + LUMA_HEADROOM_HZ) * p.cutoff_hz().den
                    &&& p.stride() == planned_decimation(
                        sample_rate as int,
                        fm_deviation->0 as int,
                        bandwidth_hz->0 as int,
                        mode,
                    )
                    &&& 1 <= p.stride() <= 54
                    &&& p.working_rate() == sample_rate as int / p.stride()
                    &&& p.phase_locked() == picks_pll(mode, p.working_rate(), fm_deviation)
                },
            },
    {
        if sample_rate == 0 {
            return Err(DecodeConfigError("sample rate must be positive"));
        }
        let dev: i64 = match fm_deviation {
            Some(d) => d,
            None => 0,
        };
        if dev <= 0 {
            return Err(DecodeConfigError("FM deviation must be finite and positive"));
        }
        let bandwidth: i64 = match bandwidth_hz {
            Some(b) => b,
            None => 0,
        };
        if bandwidth <= 0 {
            return Err(DecodeConfigError("channel bandwidth must be finite and positive"));
        }
        let least: i128 = 2 * (dev as i128);
        let widest: i128 = least + 2 * (LUMA_HEADROOM_HZ as i128);
        let inner: i128 = if bandwidth as i128 <= widest {
            bandwidth as i128
        } else {
            widest
        };
        let band: i128 = if inner >= least {
            inner
        } else {
            least
        };
        let cutoff: Ratio = if band % 2 == 0 {
            Ratio { num: (band / 2) as i64, den: 1 }
        } else {
            Ratio { num: band as i64, den: 2 }
        };
        let mut decimation: usize = band_decimation(sample_rate, band);
        if mode == DemodulationMode::Pll {
            let slow: usize = (sample_rate / PLL_AUTO_MIN_SAMPLE_RATE_HZ) as usize;
            let limit: usize = if slow >= 1 {
                slow
            } else {
                1
            };
            if limit < decimation {
                decimation = limit;
            }
        }
        let work_rate: u32 = sample_rate / decimation as u32;
        Ok(
            DecodePlan {
                sample_rate,
                fm_deviation: dev,
                cutoff,
                decimation,
                work_rate,
                use_pll: mode.use_pll(work_rate, fm_deviation),
            },
        )
    }

    pub fn sample_rate(&self) -> (r: u32)
        ensures
            r == self.rate(),
    {
        self.sample_rate
    }

    pub fn fm_deviation(&self) -> (r: i64)
        ensures
            r == self.deviation(),
    {
        self.fm_deviation
    }

    /// Cutoff of the channel filter: half the kept band.
    pub fn ddc_cutoff_hz(&self) -> (r: Ratio)
        ensures
            r == self.cutoff_hz(),
    {
        self.cutoff
    }

    pub fn decimation(&self) -> (d: usize)
        ensures
            d == self.stride(),
    {
        self.decimation
    }

    pub fn work_rate(&self) -> (r: u32)
        ensures
            r == self.working_rate(),
    {
        self.work_rate
    }

    pub fn use_pll(&self) -> (b: bool)
        ensures
            b == self.phase_locked(),
    {
        self.use_pll
    }
}

/// Forcing the phase-locked demodulator never takes a capture below the rate
/// that its loop needs, nor one that is below it already any further down.
pub proof fn law_forced_pll_keeps_its_rate(
    sample_rate: u32,
    fm_deviation: int,
    bandwidth_hz: int,
)
    requires
        sample_rate > 0,
        fm_deviation > 0,
    ensures
        ({
            let d = planned_decimation(
                sample_rate as int,
                fm_deviation,
                bandwidth_hz,
                DemodulationMode::Pll,
            );
            sample_rate as int / d >= min(sample_rate as int, PLL_AUTO_MIN_SAMPLE_RATE_HZ as int)
        }),
{
    let s = sample_rate as int;
    let limit = s / 25_000_000;
    let d = planned_decimation(s, fm_deviation, bandwidth_hz, DemodulationMode::Pll);
    if s >= 25_000_000 {
        assert(1 <= d <= limit);
        assert(s / d >= 25_000_000) by (nonlinear_arith)
            requires
                1 <= d <= limit,
                limit == s / 25_000_000,
                s >= 25_000_000,
        ;
    } else {
        assert(d == 1);
    }
}

/// A plan that chooses its demodulator by itself, for a channel with its
/// whole headroom, comes to the discriminator at every capture rate up to
/// 100 MHz: what its loop could follow is decimated below the rate it needs.
pub proof fn law_auto_comes_to_the_discriminator(sample_rate: u32, fm_deviation: i64)
    requires
        0 < sample_rate <= 100_000_000,
        fm_deviation > 0,
    ensures
        ({
            let d = planned_decimation(
                sample_rate as int,
                fm_deviation as int,
                2 * (fm_deviation + LUMA_HEADROOM_HZ),
                DemodulationMode::Auto,
            );
            !picks_pll(DemodulationMode::Auto, sample_rate as int / d, Some(fm_deviation))
        }),
{
    let s = sample_rate as int;
    let band = kept_band(fm_deviation as int, 2 * (fm_deviation + LUMA_HEADROOM_HZ));
    let num = 12_700 * s;
    let den = 12_700 * band + 233 * s;
    let d = largest_decimation(s, band);
    if s >= 25_000_000 && fm_deviation <= 1_000_000 {
        let q = num / den;
        assert(num < (q + 1) * den && q >= 0) by (nonlinear_arith)
            requires
                q == num / den,
                den > 0,
                num >= 0,
        ;
        assert(band <= 6_000_000);
        assert(q >= 1) by (nonlinear_arith)
            requires
                num < (q + 1) * den,
                num == 12_700 * s,
                den <= 12_700 * 6_000_000 + 233 * s,
                den > 0,
                s >= 25_000_000,
                q >= 0,
        ;
        assert(s / q < 25_000_000) by (nonlinear_arith)
            requires
                num < (q + 1) * den,
                num == 12_700 * s,
                0 < den <= 12_700 * 6_000_000 + 233 * s,
                25_000_000 <= s <= 100_000_000,
                q >= 1,
        ;
    } else {
        assert(s / d <= s) by (nonlinear_arith)
            requires
                d >= 1,
                s >= 0,
        ;
    }
}

/// What a streaming decoder is built from.
#[derive(Debug, Clone, Copy, PartialEq, Eq, Structural)]
pub struct DecoderConfig {
    pub plan: DecodePlan,
    /// None stands for what is not a number.
    pub frequency_offset_hz: Option<i64>,
    pub standard: Standard,
    /// Deemphasis time constant in nanoseconds; zero disables it, none
    /// stands for what is not a number.
    pub deemphasis_tau_ns: Option<i64>,
    pub temporal_window: usize,
    pub debug: bool,
}

/// Elapsed time in each decoding stage, in nanoseconds.
#[derive(Debug, Clone, Copy, PartialEq, Eq, Structural)]
pub struct DecodeStageTimings {
    pub ddc: u64,
    pub demod: u64,
    pub deemphasis: u64,
    pub buffering: u64,
    pub reconstruct: u64,
}

impl Default for DecodeStageTimings {
    fn default() -> (t: Self)
        ensures
            t == (DecodeStageTimings {
                ddc: 0,
                demod: 0,
                deemphasis: 0,
                buffering: 0,
                reconstruct: 0,
            }),
    {
        DecodeStageTimings { ddc: 0, demod: 0, deemphasis: 0, buffering: 0, reconstruct: 0 }
    }
}

impl DecodeStageTimings {
    /// Time in all stages together.
    pub fn total(&self) -> (t: u128)
        ensures
            t == self.ddc + self.demod + self.deemphasis + self.buffering + self.reconstruct,
    {
        self.ddc as u128 + self.demod as u128 + self.deemphasis as u128 + self.buffering as u128
            + self.reconstruct as u128
    }
}

/// What one attempt at a field came to.
#[derive(Debug, PartialEq, Eq)]
pub enum DecodeStep<F> {
    /// The samples do not hold a whole field.
    NeedMoreData { consumed_samples: usize },
    /// This many samples are done with; a field may have come out.
    Advance { consumed_samples: usize, field: Option<F> },
}

/// Why no field was attempted or an attempt failed.
#[derive(Debug, PartialEq, Eq)]
pub enum DecodeValidationError<E> {
    /// The output buffer does not hold exactly one frame.
    FrameBufferTooSmall { required: usize, actual: usize },
    /// The reconstruction refused its input.
    Reconstruction(E),
}

/// The stream side of a decoder: samples `C` before demodulation, `S` after.
///
/// It owns the demodulated samples that no field has consumed yet, their
/// absolute position, and the sample that joins one chunk to the next.
pub struct StreamingFpvDecoder<C, S> {
    plan: DecodePlan,
    frame_len: usize,
    shifted_iq: Vec<C>,
    iq_carry: Option<C>,
    demod_scratch: Vec<S>,
    demod_buffer: Vec<S>,
    demod_start: usize,
    current_sample_coordinate: u64,
    compact_after: usize,
    min_samples_per_field: usize,
    profiling: bool,
    timings: DecodeStageTimings,
    ddc_taps: usize,
    deemphasis: bool,
}

/// Lines that an attempt at a field needs: the visible ones and 22 more.
pub open spec fn lines_needed(standard: Standard) -> int {
    match standard {
        Standard::Ntsc => 262,
        Standard::Pal => 310,
    }
}

/// Samples that an attempt at a field needs, at least one.
pub open spec fn samples_needed(work_rate: int, standard: Standard) -> int {
    let rate = standard.line_rate();
    max((work_rate * rate.1 * lines_needed(standard)) / rate.0, 1)
}

/// Pixels of a frame: 720 columns of 480 or 576 rows.
pub open spec fn frame_pixels(standard: Standard) -> int {
    match standard {
        Standard::Ntsc => 345_600,
        Standard::Pal => 414_720,
    }
}

/// Whether a decoder can be built: offset and time constant are numbers, the
/// latter not negative, and the working rate gives every line a sample.
pub open spec fn can_decode(c: DecoderConfig) -> bool {
    &&& c.frequency_offset_hz is Some
    &&& c.deemphasis_tau_ns is Some && c.deemphasis_tau_ns->0 >= 0
    &&& c.plan.working_rate() * c.standard.line_rate().1 >= c.standard.line_rate().0
}

/// What came of draining a decoder: attempts on the samples that were there,
/// until one yields a field, asks for more, fails, or too few are left.
pub open spec fn drained<S, F, E, R: Fn(&[S], u64, u32) -> Result<DecodeStep<F>, E>>(
    reconstruct: R,
    rate: u32,
    need: int,
    pending: Seq<S>,
    at: int,
    left: Seq<S>,
    end: int,
    r: Result<Option<F>, DecodeValidationError<E>>,
) -> bool
    decreases pending.len(),
{
    if pending.len() < need {
        left == pending && end == at && r == Ok::<Option<F>, DecodeValidationError<E>>(None)
    } else {
        exists|slice: &[S], step: Result<DecodeStep<F>, E>|
            {
                &&& slice@ == pending
                &&& #[trigger] reconstruct.ensures((slice, at as u64, rate), step)
                &&& match step {
                    Err(e) => left == pending && end == at && r == Err::<
                        Option<F>,
                        DecodeValidationError<E>,
                    >(DecodeValidationError::Reconstruction(e)),
                    Ok(DecodeStep::NeedMoreData { .. }) => left == pending && end == at && r == Ok::<
                        Option<F>,
                        DecodeValidationError<E>,
                    >(None),
                    Ok(DecodeStep::Advance { consumed_samples, field }) => match field {
                        Some(f) => left == pending.skip(consumed_samples as int) && end == at
                            + consumed_samples && r == Ok::<Option<F>, DecodeValidationError<E>>(
                            Some(f),
                        ),
                        None => 1 <= consumed_samples <= pending.len() && drained(
                            reconstruct,
                            rate,
                            need,
                            pending.skip(consumed_samples as int),
                            at + consumed_samples,
                            left,
                            end,
                            r,
                        ),
                    },
                }
            }
    }
}

/// Where a stream stands: the position of the first pending sample since the
/// start, and the demodulated samples that no field has consumed.
#[verifier::ext_equal]
pub struct StreamPosition<S> {
    pub at: int,
    pub pending: Seq<S>,
}

impl<S> StreamPosition<S> {
    /// The position behind the last pending sample.
    pub open spec fn end(self) -> int {
        self.at + self.pending.len()
    }
}

/// What can happen to a stream.
pub enum StreamStep<S> {
    /// A chunk came and was demodulated, as part of the stream or after a
    /// gap.
    Pushed { chunk: Seq<S>, discontinuous: bool },
    /// The stream was forgotten at a gap.
    Forgotten,
    /// So many pending samples were consumed or dropped.
    Passed { count: int },
}

/// Whether a stream holds what a step takes from it.
pub open spec fn can_step<S>(p: StreamPosition<S>, step: StreamStep<S>) -> bool {
    step matches StreamStep::Passed { count } ==> 0 <= count <= p.pending.len()
}

/// A stream after a step. Samples before a gap count as passed.
pub open spec fn stepped<S>(p: StreamPosition<S>, step: StreamStep<S>) -> StreamPosition<S> {
    match step {
        StreamStep::Pushed { chunk, discontinuous } => if discontinuous {
            StreamPosition { at: p.end(), pending: chunk }
        } else {
            StreamPosition { at: p.at, pending: p.pending + chunk }
        },
        StreamStep::Forgotten => StreamPosition { at: p.end(), pending: Seq::empty() },
        StreamStep::Passed { count } => StreamPosition {
            at: p.at + count,
            pending: p.pending.skip(count),
        },
    }
}

/// Whether `q` is `p` with some of its pending samples passed.
pub open spec fn has_passed<S>(p: StreamPosition<S>, q: StreamPosition<S>) -> bool {
    let step = StreamStep::Passed { count: q.at - p.at };
    can_step(p, step) && q == stepped(p, step)
}

/// A stream after steps.
pub open spec fn stepped_through<S>(
    p: StreamPosition<S>,
    steps: Seq<StreamStep<S>>,
) -> StreamPosition<S>
    decreases steps.len(),
{
    if steps.len() == 0 {
        p
    } else {
        stepped(stepped_through(p, steps.drop_last()), steps.last())
    }
}

/// Whether every step finds in the stream what it takes.
pub open spec fn can_step_through<S>(p: StreamPosition<S>, steps: Seq<StreamStep<S>>) -> bool {
    forall|j: int|
        #![trigger steps[j]]
        0 <= j < steps.len() ==> can_step(stepped_through(p, steps.take(j)), steps[j])
}

/// How many samples came in by steps.
pub open spec fn pushed_by<S>(steps: Seq<StreamStep<S>>) -> int
    decreases steps.len(),
{
    if steps.len() == 0 {
        0
    } else {
        pushed_by(steps.drop_last()) + match steps.last() {
            StreamStep::Pushed { chunk, .. } => chunk.len() as int,
            _ => 0,
        }
    }
}

/// Position and pending samples together grow only by what was demodulated,
/// whatever happens to the stream in between, and the position never goes
/// back. From a fresh decoder they are the number of all samples so far.
pub proof fn law_only_demodulated_samples_count<S>(
    p: StreamPosition<S>,
    steps: Seq<StreamStep<S>>,
)
    requires
        can_step_through(p, steps),
    ensures
        stepped_through(p, steps).end() == p.end() + pushed_by(steps),
        stepped_through(p, steps).at >= p.at,
    decreases steps.len(),
{
    if steps.len() > 0 {
        let n = steps.len() - 1;
        let front = steps.drop_last();
        assert(steps.take(n) =~= front);
        assert(can_step(stepped_through(p, front), steps[n]));
        assert forall|j: int| #![trigger front[j]] 0 <= j < front.len() implies can_step(
            stepped_through(p, front.take(j)),
            front[j],
        ) by {
            assert(front[j] == steps[j]);
            assert(front.take(j) =~= steps.take(j));
        }
        law_only_demodulated_samples_count(p, front);
    }
}

impl<C: Copy, S: Copy> StreamingFpvDecoder<C, S> {
    /// The demodulated samples that no field has consumed.
    pub closed spec fn pending(&self) -> Seq<S> {
        self.demod_buffer@.skip(self.demod_start as int)
    }

    /// Position of the first pending sample since the start.
    pub closed spec fn coordinate(&self) -> int {
        self.current_sample_coordinate as int
    }

    /// Where the stream stands.
    pub open spec fn position(&self) -> StreamPosition<S> {
        StreamPosition { at: self.coordinate(), pending: self.pending() }
    }

    /// The sample that the next chunk starts from.
    pub closed spec fn carry(&self) -> Option<C> {
        self.iq_carry
    }

    /// The samples that the last chunk was demodulated from.
    pub closed spec fn shifted(&self) -> Seq<C> {
        self.shifted_iq@
    }

    /// What the last chunk was demodulated to.
    pub closed spec fn last_chunk(&self) -> Seq<S> {
        self.demod_scratch@
    }

    pub closed spec fn config(&self) -> DecodePlan {
        self.plan
    }

    /// Samples that an attempt at a field needs.
    pub closed spec fn need(&self) -> int {
        self.min_samples_per_field as int
    }

    /// Pixels of a frame.
    pub closed spec fn pixels(&self) -> int {
        self.frame_len as int
    }

    /// Elapsed time since it was last taken.
    pub closed spec fn elapsed(&self) -> DecodeStageTimings {
        self.timings
    }

    pub closed spec fn timed(&self) -> bool {
        self.profiling
    }

    /// Taps of the channel filter.
    pub closed spec fn taps(&self) -> int {
        self.ddc_taps as int
    }

    pub closed spec fn deemphasized(&self) -> bool {
        self.deemphasis
    }

    /// Whether two decoders were built alike, and count the same time.
    pub open spec fn same_setup(&self, other: &Self) -> bool {
        &&& self.config() == other.config()
        &&& self.pixels() == other.pixels()
        &&& self.need() == other.need()
        &&& self.taps() == other.taps()
        &&& self.deemphasized() == other.deemphasized()
        &&& self.timed() == other.timed()
        &&& self.elapsed() == other.elapsed()
    }

    /// Whether two decoders were built alike, and hold the same stream.
    pub open spec fn same_stream(&self, other: &Self) -> bool {
        &&& self.config() == other.config()
        &&& self.pixels() == other.pixels()
        &&& self.need() == other.need()
        &&& self.taps() == other.taps()
        &&& self.deemphasized() == other.deemphasized()
        &&& self.shifted() == other.shifted()
        &&& self.carry() == other.carry()
        &&& self.last_chunk() == other.last_chunk()
        &&& self.position() == other.position()
    }

    pub closed spec fn wf(&self) -> bool {
        &&& self.demod_start <= self.demod_buffer@.len()
        &&& self.min_samples_per_field >= 1
    }

    pub fn new(config: DecoderConfig) -> (r: Result<Self, DecodeConfigError>)
        ensures
            match r {
                Ok(d) => {
                    &&& can_decode(config)
                    &&& d.wf()
                    &&& d.pending() == Seq::<S>::empty()
                    &&& d.coordinate() == 0
                    &&& d.position().end() == 0
                    &&& d.carry() is None
                    &&& d.shifted() == Seq::<C>::empty()
                    &&& d.last_chunk() == Seq::<S>::empty()
                    &&& d.config() == config.plan
                    &&& d.need() == samples_needed(config.plan.working_rate(), config.standard)
                    &&& d.pixels() == frame_pixels(config.standard)
                    &&& d.taps() == (if config.plan.stride() > 1 {
                        127int
                    } else {
                        63
                    })
                    &&& d.deemphasized() == (config.deemphasis_tau_ns->0 > 0)
                    &&& !d.timed()
                    &&& d.elapsed().ddc == 0 && d.elapsed().demod == 0 && d.elapsed().deemphasis
                        == 0 && d.elapsed().buffering == 0 && d.elapsed().reconstruct == 0
                },
                Err(e) => {
                    ||| config.frequency_offset_hz is None && e.0@
                        == "frequency offset must be finite"@
                    ||| config.frequency_offset_hz is Some && !(config.deemphasis_tau_ns is Some
                        && config.deemphasis_tau_ns->0 >= 0) && e.0@
                        == "deemphasis must be finite and nonnegative"@
                    ||| config.frequency_offset_hz is Some && config.deemphasis_tau_ns is Some
                        && config.deemphasis_tau_ns->0 >= 0 && !can_decode(config) && e.0@
                        == "decode rate must provide at least one sample per video line"@
                },
            },
    {
        if config.frequency_offset_hz.is_none() {
            return Err(DecodeConfigError("frequency offset must be finite"));
        }
        let tau: i64 = match config.deemphasis_tau_ns {
            Some(t) => t,
            None => -1,
        };
        if tau < 0 {
            return Err(DecodeConfigError("deemphasis must be finite and nonnegative"));
        }
        let plan: DecodePlan = config.plan;
        let (num, den, lines, pixels) = match config.standard {
            Standard::Ntsc => (15_750_000u64, 1_001u64, 262u64, 345_600usize),
            Standard::Pal => (15_625u64, 1u64, 310u64, 414_720usize),
        };
        let rate: u64 = plan.work_rate as u64;
        assert(rate * den <= 0xffff_ffff * 1_001) by (nonlinear_arith)
            requires
                rate <= 0xffff_ffff,
                den <= 1_001,
        ;
        if rate * den < num {
            return Err(
                DecodeConfigError("decode rate must provide at least one sample per video line"),
            );
        }
        assert(rate * den * lines <= 0xffff_ffff * 1_001 * 310) by (nonlinear_arith)
            requires
                0 <= rate * den <= 0xffff_ffff * 1_001,
                0 <= lines <= 310,
        ;
        let span: u64 = rate * den * lines / num;
        assert(span <= 0xffff_ffff) by (nonlinear_arith)
            requires
                span == (rate * den * lines) as int / num as int,
                rate <= 0xffff_ffff,
                (num == 15_750_000 && den == 1_001 && lines == 262) || (num == 15_625 && den == 1
                    && lines == 310),
        ;
        let min_samples_per_field: usize = if span >= 1 {
            span as usize
        } else {
            1
        };
        let d: Self = StreamingFpvDecoder {
            plan,
            frame_len: pixels,
            shifted_iq: Vec::new(),
            iq_carry: None,
            demod_scratch: Vec::new(),
            demod_buffer: Vec::new(),
            demod_start: 0,
            current_sample_coordinate: 0,
            compact_after: (plan.work_rate / 30) as usize,
            min_samples_per_field,
            profiling: false,
            timings: DecodeStageTimings::default(),
            ddc_taps: if plan.decimation > 1 {
                DECODE_FIR_TAPS
            } else {
                DEFAULT_FIR_TAPS
            },
            deemphasis: tau > 0,
        };
        assert(d.pending() =~= Seq::<S>::empty());
        Ok(d)
    }

    pub fn plan(&self) -> (p: &DecodePlan)
        ensures
            *p == self.config(),
    {
        &self.plan
    }

    /// Position of the first unconsumed demodulated sample.
    pub fn sample_coordinate(&self) -> (c: u64)
        ensures
            c == self.coordinate(),
    {
        self.current_sample_coordinate
    }

    pub fn buffered_samples(&self) -> (n: usize)
        requires
            self.wf(),
        ensures
            n == self.pending().len(),
    {
        self.demod_buffer.len() - self.demod_start
    }

    /// Taps of the channel filter: more where the decoder decimates.
    pub fn filter_taps(&self) -> (n: usize)
        ensures
            n == self.taps(),
    {
        self.ddc_taps
    }

    /// Whether the stream is deemphasized.
    pub fn deemphasizes(&self) -> (b: bool)
        ensures
            b == self.deemphasized(),
    {
        self.deemphasis
    }

    pub fn set_profiling(&mut self, enabled: bool)
        requires
            old(self).wf(),
        ensures
            final(self).wf(),
            final(self).timed() == enabled,
            final(self).same_stream(old(self)),
            final(self).elapsed() == old(self).elapsed(),
    {
        self.profiling = enabled;
    }

    /// Hand out the elapsed time, and start over.
    pub fn take_stage_timings(&mut self) -> (t: DecodeStageTimings)
        requires
            old(self).wf(),
        ensures
            final(self).wf(),
            t == old(self).elapsed(),
            final(self).elapsed() == (DecodeStageTimings {
                ddc: 0,
                demod: 0,
                deemphasis: 0,
                buffering: 0,
                reconstruct: 0,
            }),
            final(self).same_stream(old(self)),
            final(self).timed() == old(self).timed(),
    {
        let t: DecodeStageTimings = self.timings;
        self.timings = DecodeStageTimings::default();
        t
    }

    /// Count time into the stages, where profiling is on.
    pub fn record_timings(&mut self, spent: &DecodeStageTimings)
        requires
            old(self).wf(),
        ensures
            final(self).wf(),
            final(self).same_stream(old(self)),
            final(self).timed() == old(self).timed(),
            final(self).elapsed() == (if old(self).timed() {
                sum_of_timings(old(self).elapsed(), *spent)
            } else {
                old(self).elapsed()
            }),
    {
        if self.profiling {
            let t: DecodeStageTimings = self.timings;
            self.timings = DecodeStageTimings {
                ddc: t.ddc.saturating_add(spent.ddc),
                demod: t.demod.saturating_add(spent.demod),
                deemphasis: t.deemphasis.saturating_add(spent.deemphasis),
                buffering: t.buffering.saturating_add(spent.buffering),
                reconstruct: t.reconstruct.saturating_add(spent.reconstruct),
            };
        }
    }

    /// What the last chunk was demodulated to.
    pub fn demodulated_chunk(&self) -> (s: &[S])
        ensures
            s@ == self.last_chunk(),
    {
        self.demod_scratch.as_slice()
    }

    /// The samples that the last chunk was demodulated from.
    pub fn shifted_chunk(&self) -> (s: &[C])
        ensures
            s@ == self.shifted(),
    {
        self.shifted_iq.as_slice()
    }

    /// Forget the stream at a gap in the source. The position counts the
    /// known samples; what is unknown was never counted.
    pub fn reset_discontinuity(&mut self)
        requires
            old(self).wf(),
            old(self).coordinate() + old(self).pending().len() <= u64::MAX,
        ensures
            final(self).wf(),
            final(self).same_setup(old(self)),
            final(self).position() == stepped(old(self).position(), StreamStep::Forgotten),
            final(self).carry() is None,
            final(self).shifted() == Seq::<C>::empty(),
            final(self).last_chunk() == Seq::<S>::empty(),
    {
        let held: usize = self.buffered_samples();
        self.iq_carry = None;
        self.shifted_iq.clear();
        self.demod_scratch.clear();
        self.current_sample_coordinate = self.current_sample_coordinate + held as u64;
        self.demod_buffer.clear();
        self.demod_start = 0;
        assert(self.pending() =~= Seq::<S>::empty());
    }

    /// Append a chunk, or start anew when it is not continuous.
    ///
    /// `convert` mixes a chunk down, filters it and keeps one sample out of so
    /// many; `demodulate` demodulates, by a phase-locked loop if told so; and
    /// `deemphasize` takes out the preemphasis, where the decoder is to. The
    /// discriminator needs the last sample of the chunk before, and gets it; a
    /// phase-locked loop keeps its own state.
    pub fn push_iq<
        D: FnOnce(&[C], usize) -> Vec<C>,
        M: FnOnce(&Vec<C>, bool) -> Vec<S>,
        P: FnOnce(Vec<S>) -> Vec<S>,
    >(
        &mut self,
        samples: &[C],
        discontinuous: bool,
        convert: D,
        demodulate: M,
        deemphasize: P,
    )
        requires
            old(self).wf(),
            old(self).coordinate() + old(self).pending().len() <= u64::MAX,
            forall|n: usize| #[trigger] convert.requires((samples, n)),
            forall|v: &Vec<C>, pll: bool| #[trigger] demodulate.requires((v, pll)),
            forall|v: Vec<S>| #[trigger] deemphasize.requires((v,)),
        ensures
            final(self).wf(),
            final(self).same_setup(old(self)),
            exists|chunk: Vec<C>, joined: &Vec<C>, flat: Vec<S>, out: Vec<S>|
                {
                    &&& #[trigger] convert.ensures(
                        (samples, old(self).config().stride() as usize),
                        chunk,
                    )
                    &&& #[trigger] demodulate.ensures(
                        (joined, old(self).config().phase_locked()),
                        flat,
                    )
                    &&& #[trigger] deemphasized_by(
                        deemphasize,
                        old(self).deemphasized(),
                        flat,
                        out,
                    )
                    &&& joined@ == joined_chunk(
                        old(self).config().phase_locked(),
                        if discontinuous {
                            None
                        } else {
                            old(self).carry()
                        },
                        chunk@,
                    )
                    &&& final(self).shifted() == joined@
                    &&& final(self).carry() == (if joined@.len() == 0 {
                        None
                    } else {
                        Some(joined@.last())
                    })
                    &&& final(self).last_chunk() == out@
                },
            final(self).position() == stepped(
                old(self).position(),
                (StreamStep::Pushed { chunk: final(self).last_chunk(), discontinuous }),
            ),
    {
        if discontinuous {
            self.reset_discontinuity();
        }
        let ghost base = *self;
        let chunk: Vec<C> = convert(samples, self.plan.decimation);
        let mut joined: Vec<C> = Vec::new();
        if !self.plan.use_pll {
            if let Some(prev) = self.iq_carry {
                joined.push(prev);
            }
        }
        append_copies(&mut joined, chunk.as_slice());
        assert(joined@ =~= joined_chunk(base.plan.use_pll, base.iq_carry, chunk@));
        self.iq_carry = if joined.len() == 0 {
            None
        } else {
            Some(joined[joined.len() - 1])
        };
        let flat: Vec<S> = demodulate(&joined, self.plan.use_pll);
        let ghost flat_out = flat;
        let out: Vec<S> = if self.deemphasis {
            deemphasize(flat)
        } else {
            flat
        };
        let ghost kept = self.demod_buffer@.skip(self.demod_start as int);
        if self.demod_start > self.compact_after {
            let rest: Vec<S> = self.demod_buffer.split_off(self.demod_start);
            self.demod_buffer = rest;
            self.demod_start = 0;
            assert(self.demod_buffer@.skip(0) =~= kept);
        }
        append_copies(&mut self.demod_buffer, out.as_slice());
        assert(self.demod_buffer@.skip(self.demod_start as int) =~= kept + out@);
        proof {
            let stride = old(self).config().stride() as usize;
            assert(stride == base.plan.decimation);
            assert(convert.ensures((samples, stride), chunk));
            assert(demodulate.ensures((&joined, old(self).config().phase_locked()), flat_out));
            assert(deemphasized_by(deemphasize, old(self).deemphasized(), flat_out, out));
            assert(Seq::<S>::empty() + out@ =~= out@);
        }
        self.shifted_iq = joined;
        self.demod_scratch = out;
    }

    /// Try for the next field. `reconstruct` makes an attempt on pending
    /// samples, their position and their rate; attempts that yield nothing consume
    /// samples, and another follows while enough are left. `None` asks for
    /// more samples. A wrong frame length consumes nothing.
    pub fn next_field_into<F, E, R: Fn(&[S], u64, u32) -> Result<DecodeStep<F>, E>>(
        &mut self,
        frame_len: usize,
        reconstruct: R,
    ) -> (r: Result<Option<F>, DecodeValidationError<E>>)
        requires
            old(self).wf(),
            old(self).coordinate() + old(self).pending().len() <= u64::MAX,
            forall|s: &[S], at: u64, rate: u32| #[trigger] reconstruct.requires((s, at, rate)),
            forall|s: &[S], at: u64, rate: u32, n: usize, f: Option<F>|
                #[trigger] reconstruct.ensures(
                    (s, at, rate),
                    Ok(DecodeStep::Advance { consumed_samples: n, field: f }),
                ) ==> n <= s@.len() && (f is None ==> n >= 1),
        ensures
            final(self).wf(),
            final(self).same_setup(old(self)),
            final(self).carry() == old(self).carry(),
            final(self).shifted() == old(self).shifted(),
            final(self).last_chunk() == old(self).last_chunk(),
            has_passed(old(self).position(), final(self).position()),
            if frame_len != old(self).pixels() {
                &&& r == Err::<Option<F>, DecodeValidationError<E>>(
                    DecodeValidationError::FrameBufferTooSmall {
                        required: old(self).pixels() as usize,
                        actual: frame_len,
                    },
                )
                &&& final(self).pending() == old(self).pending()
                &&& final(self).coordinate() == old(self).coordinate()
            } else {
                drained(
                    reconstruct,
                    old(self).config().working_rate() as u32,
                    old(self).need(),
                    old(self).pending(),
                    old(self).coordinate(),
                    final(self).pending(),
                    final(self).coordinate(),
                    r,
                )
            },
    {
        assert(self.pending().skip(0) =~= self.pending());
        if frame_len != self.frame_len {
            return Err(
                DecodeValidationError::FrameBufferTooSmall {
                    required: self.frame_len,
                    actual: frame_len,
                },
            );
        }
        let ghost begin = *self;
        let need: usize = self.min_samples_per_field;
        let rate: u32 = self.plan.work_rate;
        while self.demod_buffer.len() - self.demod_start >= need
            invariant
                begin == *old(self),
                frame_len == begin.frame_len,
                self.wf(),
                need == self.min_samples_per_field,
                rate == begin.config().working_rate(),
                self.demod_buffer == begin.demod_buffer,
                self.same_setup(&begin),
                self.iq_carry == begin.iq_carry,
                self.shifted_iq == begin.shifted_iq,
                self.demod_scratch == begin.demod_scratch,
                has_passed(begin.position(), self.position()),
                begin.coordinate() + begin.pending().len() <= u64::MAX,
                forall|s: &[S], at: u64, rate: u32| #[trigger]
                    reconstruct.requires((s, at, rate)),
                forall|s: &[S], at: u64, rate: u32, n: usize, f: Option<F>|
                    #[trigger] reconstruct.ensures(
                        (s, at, rate),
                        Ok(DecodeStep::Advance { consumed_samples: n, field: f }),
                    ) ==> n <= s@.len() && (f is None ==> n >= 1),
                forall|left: Seq<S>, end: int, r: Result<Option<F>, DecodeValidationError<E>>|
                    #[trigger] drained(
                        reconstruct,
                        rate,
                        need as int,
                        self.pending(),
                        self.coordinate(),
                        left,
                        end,
                        r,
                    ) ==> drained(
                        reconstruct,
                        rate,
                        need as int,
                        begin.pending(),
                        begin.coordinate(),
                        left,
                        end,
                        r,
                    ),
            decreases self.demod_buffer.len() - self.demod_start,
        {
            let ghost before = *self;
            let slice: &[S] = vstd::slice::slice_subrange(
                self.demod_buffer.as_slice(),
                self.demod_start,
                self.demod_buffer.len(),
            );
            assert(slice@ =~= self.pending());
            let step: Result<DecodeStep<F>, E> = reconstruct(
                slice,
                self.current_sample_coordinate,
                rate,
            );
            assert(reconstruct.ensures((slice, before.coordinate() as u64, rate), step));
            match step {
                Err(e) => {
                    let r: Result<Option<F>, DecodeValidationError<E>> = Err(
                        DecodeValidationError::Reconstruction(e),
                    );
                    assert(drained(
                        reconstruct,
                        rate,
                        need as int,
                        self.pending(),
                        self.coordinate(),
                        self.pending(),
                        self.coordinate(),
                        r,
                    ));
                    return r;
                },
                Ok(DecodeStep::NeedMoreData { consumed_samples }) => {
                    let r: Result<Option<F>, DecodeValidationError<E>> = Ok(None);
                    assert(drained(
                        reconstruct,
                        rate,
                        need as int,
                        self.pending(),
                        self.coordinate(),
                        self.pending(),
                        self.coordinate(),
                        r,
                    ));
                    return r;
                },
                Ok(DecodeStep::Advance { consumed_samples, field }) => {
                    assert(reconstruct.ensures(
                        (slice, before.current_sample_coordinate, rate),
                        Ok(DecodeStep::Advance { consumed_samples, field }),
                    ));
                    self.demod_start = self.demod_start + consumed_samples;
                    self.current_sample_coordinate = self.current_sample_coordinate
                        + consumed_samples as u64;
                    assert(self.pending() =~= before.pending().skip(consumed_samples as int));
                    assert(self.pending() =~= begin.pending().skip(
                        self.coordinate() - begin.coordinate(),
                    ));
                    if field.is_some() {
                        let r: Result<Option<F>, DecodeValidationError<E>> = Ok(field);
                        assert(drained(
                            reconstruct,
                            rate,
                            need as int,
                            before.pending(),
                            before.coordinate(),
                            self.pending(),
                            self.coordinate(),
                            r,
                        ));
                        return r;
                    }
                    assert forall|
                        left: Seq<S>,
                        end: int,
                        r: Result<Option<F>, DecodeValidationError<E>>,
                    | #[trigger]
                        drained(
                            reconstruct,
                            rate,
                            need as int,
                            self.pending(),
                            self.coordinate(),
                            left,
                            end,
                            r,
                        ) implies drained(
                        reconstruct,
                        rate,
                        need as int,
                        begin.pending(),
                        begin.coordinate(),
                        left,
                        end,
                        r,
                    ) by {
                        assert(drained(
                            reconstruct,
                            rate,
                            need as int,
                            before.pending(),
                            before.coordinate(),
                            left,
                            end,
                            r,
                        ));
                    }
                },
            }
        }
        let r: Result<Option<F>, DecodeValidationError<E>> = Ok(None);
        assert(drained(
            reconstruct,
            rate,
            need as int,
            self.pending(),
            self.coordinate(),
            self.pending(),
            self.coordinate(),
            r,
        ));
        r
    }

    /// Drop the oldest pending samples but for `keep_samples`, and say how
    /// many went. Picture history is void where any did.
    pub fn discard_pending_except(&mut self, keep_samples: usize) -> (skipped: usize)
        requires
            old(self).wf(),
            old(self).coordinate() + old(self).pending().len() <= u64::MAX,
        ensures
            final(self).wf(),
            final(self).same_setup(old(self)),
            final(self).carry() == old(self).carry(),
            final(self).shifted() == old(self).shifted(),
            final(self).last_chunk() == old(self).last_chunk(),
            skipped == max(old(self).pending().len() - keep_samples, 0),
            can_step(old(self).position(), (StreamStep::Passed { count: skipped as int })),
            final(self).position() == stepped(
                old(self).position(),
                (StreamStep::Passed { count: skipped as int }),
            ),
    {
        let ghost before = self.pending();
        let held: usize = self.buffered_samples();
        let skipped: usize = if held > keep_samples {
            held - keep_samples
        } else {
            0
        };
        assert(held == self.demod_buffer.len() - self.demod_start);
        if skipped > 0 {
            self.demod_start = self.demod_start + skipped;
            self.current_sample_coordinate = self.current_sample_coordinate + skipped as u64;
        }
        assert(self.pending() =~= before.skip(skipped as int));
        skipped
    }
}

/// The samples of a chunk with the one before them in front, where the
/// demodulator needs that.
pub open spec fn joined_chunk<C>(phase_locked: bool, carry: Option<C>, chunk: Seq<C>) -> Seq<C> {
    match carry {
        Some(c) => if phase_locked {
            chunk
        } else {
            seq![c] + chunk
        },
        None => chunk,
    }
}

/// Whether samples are what deemphasis leaves of others: the same where there
/// is none.
pub open spec fn deemphasized_by<S, P: FnOnce(Vec<S>) -> Vec<S>>(
    deemphasize: P,
    enabled: bool,
    flat: Vec<S>,
    out: Vec<S>,
) -> bool {
    if enabled {
        deemphasize.ensures((flat,), out)
    } else {
        out == flat
    }
}

/// Two sets of timings added stage by stage, each at most what fits.
pub open spec fn sum_of_timings(a: DecodeStageTimings, b: DecodeStageTimings) -> DecodeStageTimings {
    DecodeStageTimings {
        ddc: min(a.ddc + b.ddc, u64::MAX as int) as u64,
        demod: min(a.demod + b.demod, u64::MAX as int) as u64,
        deemphasis: min(a.deemphasis + b.deemphasis, u64::MAX as int) as u64,
        buffering: min(a.buffering + b.buffering, u64::MAX as int) as u64,
        reconstruct: min(a.reconstruct + b.reconstruct, u64::MAX as int) as u64,
    }
}

/// The stream does not depend on how it was cut into chunks: demodulating one
/// chunk and then the next, each joined to the sample before it, gives
/// together what the two chunks give as one.
pub proof fn law_stream_does_not_see_chunks<C, T, A: Fn(&C, &C) -> T>(
    arg: A,
    carry: Option<C>,
    first: Seq<C>,
    second: Seq<C>,
    a: Seq<T>,
    b: Seq<T>,
)
    requires
        demodulates(arg, joined_chunk(false, carry, first), a),
        ({
            let joined = joined_chunk(false, carry, first);
            let next = if joined.len() == 0 {
                None
            } else {
                Some(joined.last())
            };
            demodulates(arg, joined_chunk(false, next, second), b)
        }),
    ensures
        demodulates(arg, joined_chunk(false, carry, first + second), a + b),
{
    let joined = joined_chunk(false, carry, first);
    assert(joined_chunk(false, carry, first + second) =~= joined + second);
    if joined.len() == 0 {
        assert(joined + second =~= second);
        assert(a + b =~= b);
    } else {
        law_carry_joins_chunks(arg, joined, second, a, b);
    }
}

/// The kept band holds the deviation on both sides, and never more than two
/// megahertz beyond it on either; in between, it is what was asked for.
pub proof fn law_band_holds_the_deviation(fm_deviation: int, bandwidth_hz: int)
    requires
        fm_deviation > 0,
    ensures
        ({
            let b = kept_band(fm_deviation, bandwidth_hz);
            &&& 2 * fm_deviation <= b <= 2 * fm_deviation + 4_000_000
            &&& 2 * fm_deviation <= bandwidth_hz <= 2 * fm_deviation + 4_000_000 ==> b
                == bandwidth_hz
            &&& bandwidth_hz <= 2 * fm_deviation ==> b == 2 * fm_deviation
            &&& bandwidth_hz >= 2 * fm_deviation + 4_000_000 ==> b == 2 * fm_deviation + 4_000_000
        }),
{
}

/// A mode that names a demodulator gets it. Left to itself the choice is the
/// phase-locked one exactly at 25 MHz or more, for a positive deviation of no
/// more than a megahertz.
pub proof fn law_named_demodulators_are_used(decode_rate_hz: int, fm_deviation_hz: Option<i64>)
    ensures
        picks_pll(DemodulationMode::Pll, decode_rate_hz, fm_deviation_hz),
        !picks_pll(DemodulationMode::Discriminator, decode_rate_hz, fm_deviation_hz),
        picks_pll(DemodulationMode::Auto, decode_rate_hz, fm_deviation_hz) <==> decode_rate_hz
            >= 25_000_000 && fm_deviation_hz is Some && 1 <= fm_deviation_hz.unwrap() <= 1_000_000,
{
}

/// Decimation by `d` is clear where the rate that it leaves exceeds the band
/// by the filter's transition, 2.33 of 127 parts of the undecimated rate.
pub proof fn law_transition_is_left_clear(sample_rate: int, band_hz: int, d: int)
    requires
        d > 0,
    ensures
        clears_transition(sample_rate, band_hz, d) <==> 12_700 * (sample_rate - d * band_hz) >= 233
            * (d * sample_rate),
{
    assert(d * (12_700 * band_hz + 233 * sample_rate) == 12_700 * (d * band_hz) + 233 * (d
        * sample_rate)) by (nonlinear_arith);
}

/// Only a forced phase-locked demodulator takes less than the largest
/// decimation that the band allows, and never more.
pub proof fn law_plans_decimate_as_far_as_they_can(
    sample_rate: int,
    fm_deviation: int,
    bandwidth_hz: int,
    mode: DemodulationMode,
)
    ensures
        ({
            let most = largest_decimation(sample_rate, kept_band(fm_deviation, bandwidth_hz));
            let d = planned_decimation(sample_rate, fm_deviation, bandwidth_hz, mode);
            &&& d <= most
            &&& mode != DemodulationMode::Pll ==> d == most
            &&& mode == DemodulationMode::Pll && d < most ==> d == 1 || d == sample_rate
                / 25_000_000
        }),
{
}

/// An attempt waits for the field's visible lines and 22 more, to the sample
/// below, and a frame holds the pixels of both fields.
pub proof fn law_attempts_wait_for_a_field(work_rate: int, standard: Standard)
    requires
        work_rate >= 0,
    ensures
        ({
            let pal = standard == Standard::Pal;
            let lines = lines_of(pal) + 22;
            let (num, den) = standard.line_rate();
            let n = samples_needed(work_rate, standard);
            &&& n >= 1
            &&& n == 1 || num * n <= work_rate * den * lines
            &&& work_rate * den * lines < num * (n + 1)
            &&& frame_pixels(standard) == frame_size(pal)
        }),
{
    let (num, den) = standard.line_rate();
    let t = work_rate * den * lines_needed(standard);
    let q = t / num;
    assert(num * q <= t < num * (q + 1)) by (nonlinear_arith)
        requires
            num > 0,
            q == t / num,
    ;
    let n = samples_needed(work_rate, standard);
    if q < 1 {
        assert(num * (q + 1) <= num * (n + 1)) by (nonlinear_arith)
            requires
                num > 0,
                q < n,
        ;
    }
}

/// The usable span of the least capture rate is exactly the widest band that
/// is kept, whatever bandwidth is asked for.
pub proof fn law_usable_span_holds_the_channel(d: i64, n: u32, bandwidth_hz: int)
    requires
        d > 0,
        0 < n <= 1_000,
    ensures
        ({
            let (num, den) = capture_rate_for(Some(d), Some(n)).unwrap();
            let usable = num * n;
            &&& capture_rate_for(Some(d), Some(n)) is Some
            &&& 1_000 * den * kept_band(d as int, bandwidth_hz) <= usable
            &&& bandwidth_hz >= 2 * (d + 2_000_000) ==> 1_000 * den * kept_band(
                d as int,
                bandwidth_hz,
            ) == usable
        }),
{
    law_band_holds_the_deviation(d as int, bandwidth_hz);
    let b = kept_band(d as int, bandwidth_hz);
    let most = 2 * (d + 2_000_000);
    let k = n as int;
    assert(1_000 * k * b <= 1_000 * k * most) by (nonlinear_arith)
        requires
            b <= most,
            k > 0,
    ;
    assert((1_000 * most) * k == 1_000 * k * most) by (nonlinear_arith);
}

} // verus!
