//! Where a carrier lies, and the report of a candidate.
//!
//! Carrier offsets are in billionths of a hertz: a level of one nanoturn per
//! sample at a sample rate of one hertz.

use vstd::prelude::*;

use crate::detector::confirm::{confirm_on_wide_cut, tier_on_wide_cut};
use crate::detector::sweep::{SweepCluster, WIDEBAND_TARGET_RATE_HZ};
use crate::detector::AnalogFpvDetector;
use crate::levels::{
    averaged, decimated, min, moving_average, robust_sync_levels, smoothing_samples, smoothing_window,
    tip_and_middle,
};
use crate::offset::{can_raise, lemma_averaged_raised, lemma_levels_raised, raised};
use crate::stats::law_counts_tell_the_rank;
use crate::timing::{law_rounding_is_to_the_nearest, round_div};
use crate::types::{DetectionResult, SignalType};
use crate::vbi::FieldSyncEvidence;

verus! {

/// Cutoff of the cut that holds a whole swing, in twentieths of a hertz: the
/// reach plus 1.3 deviations, at most 0.45 of the sample rate.
pub open spec fn wide_cutoff(sample_rate: int, deviation_hz: int, reach_half_hz: int) -> int {
    min(10 * reach_half_hz + 26 * deviation_hz, 9 * sample_rate)
}

/// The carrier's offset that a sync tip level implies: the tip lies four
/// tenths of the deviation below the carrier.
pub open spec fn carrier_at_tip(tip: int, sample_rate: int, deviation_hz: int) -> int {
    tip * sample_rate + 400_000_000 * deviation_hz
}

/// Whether the whole swing of a carrier at an offset sat inside the cut.
pub open spec fn swing_inside(offset: int, cutoff: int, deviation_hz: int) -> bool {
    &&& 20 * offset >= -1_000_000_000 * (cutoff - 8 * deviation_hz)
    &&& 20 * offset <= 1_000_000_000 * (cutoff - 20 * deviation_hz)
}

/// Where the carrier of a demodulated cut lies relative to its centre: from
/// the sync tip level of the smoothed cut, where one can be read and trusted.
pub open spec fn carrier_on_cut(
    demod: Seq<i32>,
    sample_rate: int,
    deviation_hz: int,
    cutoff: int,
) -> Option<int> {
    match tip_and_middle(averaged(demod, smoothing_window(sample_rate))) {
        None => None,
        Some((tip, _)) => {
            let c = carrier_at_tip(tip, sample_rate, deviation_hz);
            if swing_inside(c, cutoff, deviation_hz) {
                Some(c)
            } else {
                None
            }
        },
    }
}

/// A frequency in whole hertz: the tuned centre, an offset in half-hertz and
/// one in billionths of a hertz. Nothing below zero or beyond the range.
pub open spec fn located(center_hz: int, offset_half_hz: int, offset_nhz: int) -> int {
    let total = 1_000_000_000 * center_hz + 500_000_000 * offset_half_hz + offset_nhz;
    if total <= 0 {
        0
    } else {
        min(round_div(total, 1_000_000_000), u64::MAX as int)
    }
}

/// The frequency at which an offset from the tuned centre lies.
pub fn locate(center_hz: u64, offset_half_hz: i64, offset_nhz: Option<i64>) -> (f: u64)
    ensures
        f == located(
            center_hz as int,
            offset_half_hz as int,
            (match offset_nhz {
                Some(x) => x as int,
                None => 0,
            }),
        ),
{
    let extra: i128 = match offset_nhz {
        Some(x) => x as i128,
        None => 0,
    };
    let total: i128 = 1_000_000_000 * (center_hz as i128) + 500_000_000 * (offset_half_hz as i128)
        + extra;
    if total <= 0 {
        return 0;
    }
    let f: i128 = (2 * total + 1_000_000_000) / 2_000_000_000;
    if f > u64::MAX as i128 {
        u64::MAX
    } else {
        f as u64
    }
}

impl AnalogFpvDetector {
    /// Cutoff of the cut that holds a whole swing, in twentieths of a hertz;
    /// nothing without a deviation or a sample rate.
    pub fn wide_cut(&self, sample_rate: u32, reach_half_hz: u32) -> (cutoff: Option<u64>)
        ensures
            cutoff is Some <==> self.assumed_deviation_hz > 0 && sample_rate > 0,
            cutoff matches Some(c) ==> c == wide_cutoff(
                sample_rate as int,
                self.assumed_deviation_hz as int,
                reach_half_hz as int,
            ),
    {
        if self.assumed_deviation_hz == 0 || sample_rate == 0 {
            return None;
        }
        let whole: u64 = 10 * (reach_half_hz as u64) + 26 * (self.assumed_deviation_hz as u64);
        let edge: u64 = 9 * (sample_rate as u64);
        if whole <= edge {
            Some(whole)
        } else {
            Some(edge)
        }
    }

    /// Where the carrier sits relative to the centre of a wide cut, in
    /// billionths of a hertz, from the sync tip level of the cut. Nothing
    /// where part of the swing would have been outside the cut.
    pub fn carrier_from_wide_cut(&self, tip: i32, sample_rate: u32, cutoff: u64) -> (offset: Option<
        i64,
    >)
        requires
            cutoff <= 9 * 0xffff_ffff,
        ensures
            ({
                let c = carrier_at_tip(
                    tip as int,
                    sample_rate as int,
                    self.assumed_deviation_hz as int,
                );
                offset == (if swing_inside(c, cutoff as int, self.assumed_deviation_hz as int) {
                    Some(c as i64)
                } else {
                    None
                })
            }),
    {
        let dev: i128 = self.assumed_deviation_hz as i128;
        assert(-0x8000_0000 * 0xffff_ffff <= tip * sample_rate <= 0x7fff_ffff * 0xffff_ffff)
            by (nonlinear_arith)
            requires
                -0x8000_0000 <= tip <= 0x7fff_ffff,
                0 <= sample_rate <= 0xffff_ffff,
        ;
        let offset: i128 = tip as i128 * sample_rate as i128 + 400_000_000 * dev;
        let cut: i128 = cutoff as i128;
        if 20 * offset >= -1_000_000_000 * (cut - 8 * dev) && 20 * offset <= 1_000_000_000 * (cut
            - 20 * dev) {
            Some(offset as i64)
        } else {
            None
        }
    }

    /// The carrier's offset from the centre of a demodulated wide cut, in
    /// billionths of a hertz.
    pub fn localize_carrier(&self, demod: &[i32], sample_rate: u32, cutoff: u64) -> (offset: Option<
        i64,
    >)
        requires
            cutoff <= 9 * 0xffff_ffff,
        ensures
            match offset {
                Some(x) => carrier_on_cut(
                    demod@,
                    sample_rate as int,
                    self.assumed_deviation_hz as int,
                    cutoff as int,
                ) == Some(x as int),
                None => carrier_on_cut(
                    demod@,
                    sample_rate as int,
                    self.assumed_deviation_hz as int,
                    cutoff as int,
                ) is None,
            },
    {
        let smoothed: Vec<i32> = moving_average(demod, smoothing_samples(sample_rate));
        match robust_sync_levels(smoothed.as_slice()) {
            None => None,
            Some((tip, _)) => {
                let offset: Option<i64> = self.carrier_from_wide_cut(
                    tip as i32,
                    sample_rate,
                    cutoff,
                );
                offset
            },
        }
    }

    /// The report of a cluster, refined on its wide cut.
    pub fn report_cluster(
        &self,
        center_hz: u64,
        cluster: &SweepCluster,
        carrier_nhz: Option<i64>,
        evidence: Option<FieldSyncEvidence>,
        rssi_mdbm: Option<i32>,
    ) -> (r: DetectionResult)
        ensures
            r.channel is None,
            r.frequency_hz == located(
                center_hz as int,
                cluster.anchor_half_hz as int,
                (match carrier_nhz {
                    Some(x) => x as int,
                    None => 0,
                }),
            ),
            r.confidence == tier_on_wide_cut(
                cluster.kind,
                cluster.confidence,
                evidence,
                self.demote_unconfirmed_video,
            ),
            r.rssi_mdbm == rssi_mdbm,
            r.bandwidth_hz == WIDEBAND_TARGET_RATE_HZ,
            r.signal_type == cluster.kind,
    {
        DetectionResult {
            channel: None,
            frequency_hz: locate(center_hz, cluster.anchor_half_hz, carrier_nhz),
            confidence: confirm_on_wide_cut(
                cluster.kind,
                cluster.confidence,
                evidence,
                self.demote_unconfirmed_video,
            ),
            rssi_mdbm,
            bandwidth_hz: WIDEBAND_TARGET_RATE_HZ,
            signal_type: cluster.kind,
        }
    }

    /// The report of a capture that was classified as one slice: one result
    /// at the carrier, if the slice shows something and the result is inside
    /// the configured limits.
    pub fn report_slice(
        &self,
        center_hz: u64,
        sample_rate: u32,
        kind: SignalType,
        confidence: u32,
        carrier_nhz: Option<i64>,
        rssi_mdbm: Option<i32>,
    ) -> (out: Vec<DetectionResult>)
        ensures
            ({
                let r = DetectionResult {
                    channel: None,
                    frequency_hz: located(
                        center_hz as int,
                        0,
                        (match carrier_nhz {
                            Some(x) => x as int,
                            None => 0,
                        }),
                    ) as u64,
                    confidence,
                    rssi_mdbm,
                    bandwidth_hz: sample_rate,
                    signal_type: kind,
                };
                out@ == (if kind != SignalType::Unknown && self.reports(r) {
                    seq![r]
                } else {
                    Seq::empty()
                })
            }),
    {
        let mut out: Vec<DetectionResult> = Vec::new();
        if kind != SignalType::Unknown {
            let r: DetectionResult = DetectionResult {
                channel: None,
                frequency_hz: locate(center_hz, 0, carrier_nhz),
                confidence,
                rssi_mdbm,
                bandwidth_hz: sample_rate,
                signal_type: kind,
            };
            if self.min_bandwidth <= r.bandwidth_hz && r.bandwidth_hz <= self.max_bandwidth
                && r.confidence >= self.min_confidence {
                out.push(r);
            }
        }
        out
    }
}

/// Highest tuned centre under which spectra can be averaged: beyond it the
/// sum with an offset might not fit.
pub const MAX_KEY_CENTER: u64 = 0x7fff_ffff_0000_0000;

/// The absolute frequency under which a probe's spectra are averaged, its
/// offset rounded towards zero.
pub open spec fn averaging_key(center_hz: int, offset_half_hz: int) -> int {
    if offset_half_hz >= 0 {
        center_hz + offset_half_hz / 2
    } else {
        center_hz - (-offset_half_hz) / 2
    }
}

/// The absolute frequency under which a probe's spectra are averaged.
pub fn integration_key(center_hz: u64, offset_half_hz: i64) -> (key: i64)
    requires
        center_hz <= MAX_KEY_CENTER,
        -0x1_0000_0000 <= offset_half_hz <= 0x1_0000_0000,
    ensures
        key == averaging_key(center_hz as int, offset_half_hz as int),
{
    let offset: i64 = if offset_half_hz >= 0 {
        offset_half_hz / 2
    } else {
        -((-offset_half_hz) / 2)
    };
    center_hz as i64 + offset
}

/// A carrier whose tip level was read without error is reported where it is:
/// the tip of a carrier `f` above the centre lies at `f` less four tenths of
/// the deviation.
pub proof fn law_localization_recovers_the_carrier(
    center_hz: u64,
    offset_half_hz: int,
    carrier_hz: int,
    tip: int,
    sample_rate: u32,
    deviation_hz: int,
)
    requires
        tip * sample_rate == 1_000_000_000 * carrier_hz - 400_000_000 * deviation_hz,
        offset_half_hz % 2 == 0,
        0 <= center_hz + offset_half_hz / 2 + carrier_hz <= u64::MAX,
    ensures
        located(
            center_hz as int,
            offset_half_hz,
            carrier_at_tip(tip, sample_rate as int, deviation_hz),
        ) == center_hz + offset_half_hz / 2 + carrier_hz,
{
    let f = center_hz + offset_half_hz / 2 + carrier_hz;
    let total = 1_000_000_000 * center_hz + 500_000_000 * offset_half_hz + carrier_at_tip(
        tip,
        sample_rate as int,
        deviation_hz,
    );
    assert(total == 1_000_000_000 * f);
    assert((2_000_000_000 * f + 1_000_000_000) / 2_000_000_000 == f);
    assert(round_div(total, 1_000_000_000) == f);
}

/// The cut reaches as far as was asked and 1.3 deviations beyond, unless that
/// is more than 0.45 of the sample rate, which it never exceeds. In twentieths
/// of a hertz, a reach of half-hertz counts tenfold.
pub proof fn law_cut_holds_reach_and_swing(
    sample_rate: int,
    deviation_hz: int,
    reach_half_hz: int,
)
    ensures
        ({
            let c = wide_cutoff(sample_rate, deviation_hz, reach_half_hz);
            let wanted = 20 * reach_half_hz + 52 * deviation_hz;
            &&& 100 * c <= 20 * (45 * sample_rate)
            &&& 2 * c <= wanted
            &&& 2 * c == wanted || 100 * c == 20 * (45 * sample_rate)
        }),
{
}

/// A swing sits inside the cut exactly where its lower end, four tenths of the
/// deviation below the carrier, and its upper end, a whole one above, both do.
pub proof fn law_swing_is_inside_with_both_ends(offset: int, cutoff: int, deviation_hz: int)
    ensures
        ({
            let lowest = offset - 400_000_000 * deviation_hz;
            let highest = offset + 1_000_000_000 * deviation_hz;
            // A twentieth of a hertz is 50 million billionths.
            swing_inside(offset, cutoff, deviation_hz) <==> -50_000_000 * cutoff <= lowest && highest
                <= 50_000_000 * cutoff
        }),
{
}

/// A carrier is read where its tip level says, so a cut that is tuned `c`
/// nanoturns lower reads the same carrier that much higher.
pub proof fn law_carrier_moves_with_tuning(
    demod: Seq<i32>,
    c: int,
    sample_rate: int,
    deviation_hz: int,
    cutoff: int,
)
    requires
        can_raise(demod, c),
        0 <= sample_rate,
        carrier_on_cut(demod, sample_rate, deviation_hz, cutoff) is Some,
        carrier_on_cut(raised(demod, c), sample_rate, deviation_hz, cutoff) is Some,
    ensures
        carrier_on_cut(raised(demod, c), sample_rate, deviation_hz, cutoff).unwrap()
            == carrier_on_cut(demod, sample_rate, deviation_hz, cutoff).unwrap() + c * sample_rate,
{
    let win = smoothing_window(sample_rate);
    lemma_averaged_raised(demod, c, win);
    let s = averaged(demod, win);
    lemma_levels_raised(s, c);
    let tip = tip_and_middle(s).unwrap().0;
    assert((tip + c) * sample_rate == tip * sample_rate + c * sample_rate) by (nonlinear_arith);
}

/// The carrier lies four tenths of the deviation above the tip level of the
/// smoothed cut, which one in fifty of every sixteenth sample is below.
pub proof fn law_carrier_is_above_the_tip(
    demod: Seq<i32>,
    sample_rate: int,
    deviation_hz: int,
    cutoff: int,
    tip: int,
)
    requires
        carrier_on_cut(demod, sample_rate, deviation_hz, cutoff) is Some,
        ({
            let smoothed = averaged(demod, smoothing_window(sample_rate));
            let d = Seq::new(((smoothed.len() + 15) / 16) as nat, |k: int| smoothed[16 * k] as i64);
            let n = d.len() as int;
            d.filter(|v: i64| v < tip).len() <= n / 50 < d.filter(|v: i64| v <= tip).len()
        }),
    ensures
        5 * (carrier_on_cut(demod, sample_rate, deviation_hz, cutoff).unwrap() - tip * sample_rate)
            == 2 * (1_000_000_000 * deviation_hz),
{
    let smoothed = averaged(demod, smoothing_window(sample_rate));
    let d = decimated(smoothed);
    assert(d =~= Seq::new(((smoothed.len() + 15) / 16) as nat, |k: int| smoothed[16 * k] as i64));
    law_counts_tell_the_rank(d, d.len() as int / 50, tip);
}

/// A located frequency is the sum of the centre and both offsets, to the
/// nearest hertz, as far as that is a frequency at all.
pub proof fn law_located_to_the_nearest_hertz(
    center_hz: int,
    offset_half_hz: int,
    offset_nhz: int,
)
    ensures
        ({
            let f = located(center_hz, offset_half_hz, offset_nhz);
            let total = 1_000_000_000 * center_hz + 500_000_000 * offset_half_hz + offset_nhz;
            &&& 0 <= f <= u64::MAX
            &&& total <= 0 ==> f == 0
            &&& total >= 0 && f < u64::MAX ==> -1_000_000_000 < 2 * (1_000_000_000 * f - total)
                <= 1_000_000_000
        }),
{
    let total = 1_000_000_000 * center_hz + 500_000_000 * offset_half_hz + offset_nhz;
    law_rounding_is_to_the_nearest(total, 1_000_000_000);
}

/// The frequency that spectra are averaged under is off the probe's by less
/// than a hertz, towards the centre; probes on either side are treated alike.
pub proof fn law_averaging_key_is_rounded_inwards(center_hz: int, offset_half_hz: int)
    ensures
        ({
            let d = averaging_key(center_hz, offset_half_hz) - center_hz;
            &&& offset_half_hz >= 0 ==> offset_half_hz - 1 <= 2 * d <= offset_half_hz
            &&& averaging_key(center_hz, -offset_half_hz) - center_hz == -d
        }),
{
}

} // verus!
