//! Scanning: which frequencies to tune, how long to stay, and which hit to
//! pick.

use std::collections::HashSet;
use std::time::Duration;

use vstd::prelude::*;

use crate::bands::{
    carriers, catalog, get_all_channels, get_candidate_fpv_channels, law_snapping_is_unique,
    lemma_carrier_bounds, off, ranked_candidates, snap_to_nearest_fpv_channel, snaps_to,
    FpvChannel, CHANNEL_SNAP_TOLERANCE_MHZ,
};
use crate::detector::{AnalogFpvDetector, FpvDetector};
use crate::levels::{max, min};
use crate::seqs::lemma_filter_keeps_members;
use crate::stats::{ascending, same_counts, sorted};
use crate::types::{DetectionResult, SignalType};

verus! {

broadcast use vstd::std_specs::hash::group_hash_axioms;

/// Scanner over a channel table: tune to each channel in turn and run the
/// detector on one capture per channel.
///
/// Neighbouring channels overlap, so one transmitter can show on several
/// entries; results carry their channel and are not merged across channels.
pub struct FpvScanner<D> {
    detector: D,
    channels: Vec<FpvChannel>,
}

/// Results with the channel that they were scanned on.
pub open spec fn on_channel(found: Seq<DetectionResult>, channel: FpvChannel) -> Seq<DetectionResult> {
    found.map_values(|r: DetectionResult| DetectionResult { channel: Some(channel), ..r })
}

/// The results of a scan, channel by channel.
pub open spec fn scan_results(
    channels: Seq<FpvChannel>,
    found: Seq<Seq<DetectionResult>>,
) -> Seq<DetectionResult>
    decreases channels.len(),
{
    if channels.len() == 0 {
        Seq::empty()
    } else {
        let n = channels.len() - 1;
        scan_results(channels.drop_last(), found) + on_channel(found[n], channels[n])
    }
}

/// Whether a list of detections is what a channel's capture led to; an empty
/// capture leads to none.
pub open spec fn scanned<S, D: FpvDetector<S>, F: FnMut(u64) -> Vec<S>>(
    detector: D,
    get_iq: F,
    frequency_hz: u64,
    sample_rate: u32,
    found: Seq<DetectionResult>,
) -> bool {
    exists|iq: Vec<S>|
        {
            &&& #[trigger] get_iq.ensures((frequency_hz,), iq)
            &&& if iq@.len() == 0 {
                found == Seq::<DetectionResult>::empty()
            } else {
                detector.detects(iq@, frequency_hz, sample_rate, found)
            }
        }
}

impl<D> FpvScanner<D> {
    pub closed spec fn table(&self) -> Seq<FpvChannel> {
        self.channels@
    }

    pub closed spec fn uses(&self) -> D {
        self.detector
    }

    /// A scanner over the whole channel plan.
    pub fn new(detector: D) -> (s: Self)
        ensures
            s.uses() == detector,
            s.table() == catalog(),
    {
        FpvScanner { detector, channels: get_all_channels() }
    }

    pub fn with_channels(detector: D, channels: Vec<FpvChannel>) -> (s: Self)
        ensures
            s.uses() == detector,
            s.table() == channels@,
    {
        FpvScanner { detector, channels }
    }

    /// Scan all channels. `get_iq` tunes to a frequency and captures.
    pub fn scan<S, F: FnMut(u64) -> Vec<S>>(&self, mut get_iq: F, sample_rate: u32) -> (out: Vec<
        DetectionResult,
    >) where D: FpvDetector<S>
        requires
            FpvDetector::<S>::ready(&self.uses()),
            forall|f: u64| #[trigger] get_iq.requires((f,)),
        ensures
            exists|found: Seq<Seq<DetectionResult>>|
                {
                    &&& found.len() == self.table().len()
                    &&& forall|i: int|
                        0 <= i < found.len() ==> scanned::<S, D, F>(
                            self.uses(),
                            get_iq,
                            self.table()[i].frequency_hz,
                            sample_rate,
                            #[trigger] found[i],
                        )
                    &&& out@ == #[trigger] scan_results(self.table(), found)
                },
    {
        let ghost tuner = get_iq;
        let mut out: Vec<DetectionResult> = Vec::new();
        let mut found: Ghost<Seq<Seq<DetectionResult>>> = Ghost(Seq::empty());
        let mut i: usize = 0;
        while i < self.channels.len()
            invariant
                i <= self.channels.len(),
                get_iq == tuner,
                found@.len() == i,
                FpvDetector::<S>::ready(&self.detector),
                forall|f: u64| #[trigger] get_iq.requires((f,)),
                forall|k: int|
                    0 <= k < i ==> scanned::<S, D, F>(
                        self.detector,
                        get_iq,
                        self.channels@[k].frequency_hz,
                        sample_rate,
                        #[trigger] found@[k],
                    ),
                out@ == scan_results(self.channels@.take(i as int), found@),
            decreases self.channels.len() - i,
        {
            let channel: FpvChannel = self.channels[i];
            let iq: Vec<S> = get_iq(channel.frequency_hz);
            let ghost before = found@;
            let ghost held = out@;
            assert(get_iq.ensures((channel.frequency_hz,), iq));
            assert(self.channels@.take(i + 1).drop_last() =~= self.channels@.take(i as int));
            if iq.len() > 0 {
                let results: Vec<DetectionResult> = self.detector.detect_from_iq(
                    iq.as_slice(),
                    channel.frequency_hz,
                    sample_rate,
                );
                let ghost tagged = on_channel(results@, channel);
                let mut k: usize = 0;
                assert(out@ =~= held + tagged.take(0));
                while k < results.len()
                    invariant
                        k <= results.len(),
                        tagged == on_channel(results@, channel),
                        out@ == held + tagged.take(k as int),
                    decreases results.len() - k,
                {
                    let r: DetectionResult = results[k];
                    out.push(DetectionResult { channel: Some(channel), ..r });
                    k += 1;
                    assert(out@ =~= held + tagged.take(k as int));
                }
                assert(tagged.take(k as int) =~= tagged);
                proof {
                    found@ = before.push(results@);
                }
            } else {
                proof {
                    found@ = before.push(Seq::empty());
                    assert(on_channel(Seq::empty(), channel) =~= Seq::empty());
                    assert(held + Seq::<DetectionResult>::empty() =~= held);
                }
            }
            proof {
                lemma_results_of_prefix(self.channels@.take(i as int), before, found@);
                assert(scanned::<S, D, F>(
                    self.detector,
                    get_iq,
                    channel.frequency_hz,
                    sample_rate,
                    found@[i as int],
                ));
                assert forall|k: int| 0 <= k < i + 1 implies scanned::<S, D, F>(
                    self.detector,
                    get_iq,
                    self.channels@[k].frequency_hz,
                    sample_rate,
                    #[trigger] found@[k],
                ) by {
                    if k < i {
                        assert(found@[k] == before[k]);
                    }
                }
            }
            i += 1;
        }
        assert(self.channels@.take(i as int) =~= self.channels@);
        assert(out@ == scan_results(self.table(), found@));
        out
    }
}

proof fn lemma_results_of_prefix(
    channels: Seq<FpvChannel>,
    a: Seq<Seq<DetectionResult>>,
    b: Seq<Seq<DetectionResult>>,
)
    requires
        channels.len() <= a.len(),
        channels.len() <= b.len(),
        forall|k: int| 0 <= k < channels.len() ==> a[k] == #[trigger] b[k],
    ensures
        scan_results(channels, a) == scan_results(channels, b),
    decreases channels.len(),
{
    if channels.len() > 0 {
        lemma_results_of_prefix(channels.drop_last(), a, b);
        assert(a[channels.len() - 1] == b[channels.len() - 1]);
    }
}

/// Packets per hop that are fed to the detector at a wide capture rate.
pub const DETECT_PACKETS_PER_HOP: usize = 2;

/// Packets per hop that are fed to the detector at a narrow capture rate,
/// where each holds more signal and costs less.
pub const DETECT_PACKETS_NARROW: usize = 6;

/// Highest rate that counts as narrow.
pub const NARROW_CAPTURE_MAX_RATE_HZ: i64 = 30_720_000;

/// How many packets a rate feeds the detector per hop.
pub open spec fn packets_at(sample_rate_hz: Option<i64>) -> int {
    match sample_rate_hz {
        Some(r) => if 0 < r <= NARROW_CAPTURE_MAX_RATE_HZ {
            6
        } else {
            2
        },
        None => 2,
    }
}

/// How many packets one hop feeds the detector. None stands for a rate that
/// is not a number.
pub fn detect_packets_per_hop(sample_rate_hz: Option<i64>) -> (n: usize)
    ensures
        n == (match sample_rate_hz {
            Some(r) => if 0 < r <= NARROW_CAPTURE_MAX_RATE_HZ {
                6int
            } else {
                2
            },
            None => 2,
        }),
        n == packets_at(sample_rate_hz),
{
    match sample_rate_hz {
        Some(r) => if 0 < r && r <= NARROW_CAPTURE_MAX_RATE_HZ {
            DETECT_PACKETS_NARROW
        } else {
            DETECT_PACKETS_PER_HOP
        },
        None => DETECT_PACKETS_PER_HOP,
    }
}

/// What one sweep may spend per hop: packets cost detector time, and the
/// dwell has to pay for them.
#[derive(Clone, Copy)]
pub struct SweepBudget {
    pub dwell: Duration,
    pub packets_per_hop: usize,
}

impl SweepBudget {
    /// The same budget for every hop, at least one packet.
    pub fn flat(dwell: Duration, packets_per_hop: usize) -> (b: Self)
        ensures
            b.dwell == dwell,
            b.packets_per_hop == max(packets_per_hop as int, 1),
    {
        SweepBudget {
            dwell,
            packets_per_hop: if packets_per_hop >= 1 {
                packets_per_hop
            } else {
                1
            },
        }
    }
}

/// Cadence of fast and sensitive sweeps. Sweeps count from zero.
pub struct SweepPolicy {
    pub fast: SweepBudget,
    pub sensitive: SweepBudget,
    /// Every how many sweeps one is sensitive; zero disables that.
    pub sensitive_every: u32,
    pub narrow_capture_max_rate_hz: i64,
}

impl SweepPolicy {
    /// What sweep `n` may spend at a rate.
    pub open spec fn spends(&self, n: int, sample_rate_hz: Option<i64>) -> SweepBudget {
        let narrow = match sample_rate_hz {
            Some(r) => 0 < r <= self.narrow_capture_max_rate_hz,
            None => false,
        };
        if narrow {
            SweepBudget {
                dwell: self.fast.dwell,
                packets_per_hop: max(self.sensitive.packets_per_hop as int, 1) as usize,
            }
        } else if self.sensitive_every > 0 && n % self.sensitive_every as int
            == self.sensitive_every - 1 {
            self.sensitive
        } else {
            self.fast
        }
    }

    /// The budget of sweep `n`. A narrow capture always integrates as the
    /// sensitive sweep does, within the fast dwell.
    pub fn budget(&self, n: u32, sample_rate_hz: Option<i64>) -> (b: SweepBudget)
        ensures
            ({
                let narrow = match sample_rate_hz {
                    Some(r) => 0 < r <= self.narrow_capture_max_rate_hz,
                    None => false,
                };
                if narrow {
                    b.dwell == self.fast.dwell && b.packets_per_hop == max(
                        self.sensitive.packets_per_hop as int,
                        1,
                    )
                } else if self.sensitive_every > 0 && n % self.sensitive_every
                    == self.sensitive_every - 1 {
                    b == self.sensitive
                } else {
                    b == self.fast
                }
            }),
            b == self.spends(n as int, sample_rate_hz),
    {
        let narrow: bool = match sample_rate_hz {
            Some(r) => 0 < r && r <= self.narrow_capture_max_rate_hz,
            None => false,
        };
        if narrow {
            SweepBudget::flat(self.fast.dwell, self.sensitive.packets_per_hop)
        } else if self.sensitive_every > 0 && n % self.sensitive_every == self.sensitive_every - 1 {
            self.sensitive
        } else {
            self.fast
        }
    }
}

/// Where the group that starts at `i` ends: before the first channel that is
/// more than `reach` above its first.
pub open spec fn group_end(s: Seq<i64>, reach: int, i: int, j: int) -> int
    decreases s.len() - j,
{
    if j < s.len() && s[j] - s[i] <= reach {
        group_end(s, reach, i, j + 1)
    } else {
        j
    }
}

/// Tune centres of sorted channels from index `i` on, in half-hertz: each
/// group's first and last channel added up.
pub open spec fn greedy_centers(s: Seq<i64>, reach: int, i: int) -> Seq<int>
    decreases max(0, s.len() - i),
    via greedy_centers_terminates
{
    if i < 0 || i >= s.len() {
        Seq::empty()
    } else {
        let j = group_end(s, reach, i, i + 1);
        seq![s[i] + s[j - 1]] + greedy_centers(s, reach, j)
    }
}

#[via_fn]
proof fn greedy_centers_terminates(s: Seq<i64>, reach: int, i: int) {
    if 0 <= i < s.len() {
        lemma_group_end(s, reach, i, i + 1);
    }
}

/// A group holds what is within reach of its first channel and ends where
/// that stops.
pub proof fn lemma_group_end(s: Seq<i64>, reach: int, i: int, j: int)
    requires
        0 <= i < j <= s.len(),
    ensures
        j <= group_end(s, reach, i, j) <= s.len(),
        forall|k: int| j <= k < group_end(s, reach, i, j) ==> #[trigger] s[k] - s[i] <= reach,
        group_end(s, reach, i, j) < s.len() ==> s[group_end(s, reach, i, j)] - s[i] > reach,
    decreases s.len() - j,
{
    if j < s.len() && s[j] - s[i] <= reach {
        lemma_group_end(s, reach, i, j + 1);
    }
}

/// Plan the fewest tune centres that put every channel inside some capture
/// window of width `span_hz`. Centres are in half-hertz, so that the middle
/// of a group is exact.
///
/// Walk the sorted channels, take the lowest that is not covered, absorb all
/// within `span_hz` of it, and tune to the middle of what was absorbed.
pub fn plan_tune_centers(channels_hz: &Vec<i64>, span_hz: i64) -> (centers: Vec<i64>)
    requires
        forall|k: int|
            0 <= k < channels_hz.len() ==> -0x3fff_ffff_ffff_ffff <= #[trigger] channels_hz[k]
                <= 0x3fff_ffff_ffff_ffff,
    ensures
        exists|s: Seq<i64>|
            {
                &&& ascending(s)
                &&& #[trigger] same_counts(s, channels_hz@)
                &&& centers@.map_values(|c: i64| c as int) == greedy_centers(
                    s,
                    max(span_hz as int, 0),
                    0,
                )
            },
{
    let s: Vec<i64> = sorted(channels_hz);
    let reach: i64 = if span_hz > 0 {
        span_hz
    } else {
        0
    };
    proof {
        lemma_bounds_survive_sorting(channels_hz@, s@, 0x3fff_ffff_ffff_ffff);
    }
    let ghost as_int = |c: i64| c as int;
    let ghost all = greedy_centers(s@, reach as int, 0);
    let mut centers: Vec<i64> = Vec::new();
    let mut i: usize = 0;
    assert(centers@.map_values(as_int) + all =~= all);
    while i < s.len()
        invariant
            i <= s.len(),
            reach >= 0,
            as_int == (|c: i64| c as int),
            ascending(s@),
            forall|k: int|
                0 <= k < s.len() ==> -0x3fff_ffff_ffff_ffff <= #[trigger] s[k]
                    <= 0x3fff_ffff_ffff_ffff,
            centers@.map_values(as_int) + greedy_centers(s@, reach as int, i as int) == all,
        decreases s.len() - i,
    {
        let first: i64 = s[i];
        let mut j: usize = i + 1;
        while j < s.len() && s[j] as i128 - first as i128 <= reach as i128
            invariant
                i < j <= s.len(),
                first == s[i as int],
                group_end(s@, reach as int, i as int, i + 1) == group_end(
                    s@,
                    reach as int,
                    i as int,
                    j as int,
                ),
            decreases s.len() - j,
        {
            j += 1;
        }
        let ghost before = centers@.map_values(as_int);
        let last: i64 = s[j - 1];
        assert(-0x3fff_ffff_ffff_ffff <= s[i as int] <= 0x3fff_ffff_ffff_ffff);
        assert(-0x3fff_ffff_ffff_ffff <= s[j - 1] <= 0x3fff_ffff_ffff_ffff);
        centers.push(first + last);
        proof {
            let rest = greedy_centers(s@, reach as int, j as int);
            assert(greedy_centers(s@, reach as int, i as int) == seq![first + last] + rest);
            assert(centers@.map_values(as_int) =~= before.push(first + last));
            assert(centers@.map_values(as_int) + rest =~= before + (seq![first + last] + rest));
        }
        i = j;
    }
    assert(centers@.map_values(as_int) + Seq::<int>::empty() =~= centers@.map_values(as_int));
    assert(same_counts(s@, channels_hz@));
    centers
}

proof fn lemma_bounds_survive_sorting(a: Seq<i64>, s: Seq<i64>, bound: int)
    requires
        ascending(s),
        same_counts(s, a),
        forall|k: int| 0 <= k < a.len() ==> -bound <= #[trigger] a[k] <= bound,
    ensures
        forall|k: int| 0 <= k < s.len() ==> -bound <= #[trigger] s[k] <= bound,
{
    assert forall|k: int| 0 <= k < s.len() implies -bound <= #[trigger] s[k] <= bound by {
        lemma_sorted_values_occur(a, s, k);
        let i = choose|i: int| 0 <= i < a.len() && #[trigger] a[i] == s[k];
        assert(-bound <= a[i] <= bound);
    }
}

/// What sorting puts at a position was in the list.
pub proof fn lemma_sorted_values_occur(a: Seq<i64>, s: Seq<i64>, k: int)
    requires
        ascending(s),
        same_counts(s, a),
        0 <= k < s.len(),
    ensures
        exists|i: int| 0 <= i < a.len() && #[trigger] a[i] == s[k],
{
    crate::stats::lemma_sorted_rank(a, s, k);
    crate::stats::law_ranked_value_occurs(a, k, s[k] as int);
}

/// Whether a window of width `span`, around a centre in half-hertz, holds a
/// channel.
pub open spec fn window_holds(center: int, channel: int, span: int) -> bool {
    -span <= 2 * channel - center <= span
}

/// Every channel is inside the window of some planned centre.
pub proof fn law_plan_covers_every_channel(s: Seq<i64>, reach: int, k: int)
    requires
        ascending(s),
        0 <= reach,
        0 <= k < s.len(),
    ensures
        exists|c: int|
            0 <= c < greedy_centers(s, reach, 0).len() && window_holds(
                #[trigger] greedy_centers(s, reach, 0)[c],
                s[k] as int,
                reach,
            ),
{
    let c = lemma_covered(s, reach, 0, k);
    assert(window_holds(greedy_centers(s, reach, 0)[c], s[k] as int, reach));
}

proof fn lemma_covered(s: Seq<i64>, reach: int, i: int, k: int) -> (c: int)
    requires
        ascending(s),
        0 <= reach,
        0 <= i <= k < s.len(),
    ensures
        0 <= c < greedy_centers(s, reach, i).len(),
        window_holds(greedy_centers(s, reach, i)[c], s[k] as int, reach),
    decreases s.len() - i,
{
    let j = group_end(s, reach, i, i + 1);
    lemma_group_end(s, reach, i, i + 1);
    let rest = greedy_centers(s, reach, j);
    let all = greedy_centers(s, reach, i);
    assert(all == seq![s[i] + s[j - 1]] + rest);
    if k < j {
        assert(s[i] <= s[k] <= s[j - 1]);
        if j - 1 > i {
            assert(s[j - 1] - s[i] <= reach);
        }
        0
    } else {
        let c = lemma_covered(s, reach, j, k);
        assert(all[c + 1] == rest[c]);
        c + 1
    }
}

proof fn lemma_centers_bounded(s: Seq<i64>, reach: int, i: int)
    requires
        ascending(s),
        0 <= reach,
        0 <= i <= s.len(),
    ensures
        forall|c: int|
            0 <= c < greedy_centers(s, reach, i).len() ==> 2 * s[i] <= #[trigger] greedy_centers(
                s,
                reach,
                i,
            )[c] <= 2 * s[s.len() - 1],
        i < s.len() ==> greedy_centers(s, reach, i).len() > 0,
        forall|b: int, c: int|
            0 <= b < c < greedy_centers(s, reach, i).len() ==> #[trigger] greedy_centers(
                s,
                reach,
                i,
            )[b] < #[trigger] greedy_centers(s, reach, i)[c],
    decreases s.len() - i,
{
    if i < s.len() {
        let j = group_end(s, reach, i, i + 1);
        lemma_group_end(s, reach, i, i + 1);
        lemma_centers_bounded(s, reach, j);
        let rest = greedy_centers(s, reach, j);
        let all = greedy_centers(s, reach, i);
        assert(all == seq![s[i] + s[j - 1]] + rest);
        assert(s[i] <= s[j - 1] <= s[s.len() - 1]);
        assert forall|c: int| 0 <= c < all.len() implies 2 * s[i] <= #[trigger] all[c] <= 2
            * s[s.len() - 1] by {
            if c > 0 {
                assert(all[c] == rest[c - 1]);
                assert(s[i] <= s[j]);
            }
        }
        assert forall|b: int, c: int| 0 <= b < c < all.len() implies #[trigger] all[b]
            < #[trigger] all[c] by {
            assert(all[c] == rest[c - 1]);
            if b > 0 {
                assert(all[b] == rest[b - 1]);
            } else {
                assert(s[j] - s[i] > reach);
                assert(s[j - 1] <= s[j]);
                assert(2 * s[j] <= rest[c - 1]);
            }
        }
    }
}

/// The planned centres strictly ascend, and none lies outside the range of
/// the channels.
pub proof fn law_plan_ascends_within_the_channels(s: Seq<i64>, reach: int)
    requires
        ascending(s),
        0 <= reach,
    ensures
        forall|b: int, c: int|
            0 <= b < c < greedy_centers(s, reach, 0).len() ==> #[trigger] greedy_centers(
                s,
                reach,
                0,
            )[b] < #[trigger] greedy_centers(s, reach, 0)[c],
        forall|c: int|
            0 <= c < greedy_centers(s, reach, 0).len() ==> 2 * s[0] <= #[trigger] greedy_centers(
                s,
                reach,
                0,
            )[c] <= 2 * s[s.len() - 1],
{
    lemma_centers_bounded(s, reach, 0);
}

/// The channels that a plan's groups start with.
pub open spec fn anchors(s: Seq<i64>, reach: int, i: int) -> Seq<i64>
    decreases max(0, s.len() - i),
    via anchors_terminates
{
    if i < 0 || i >= s.len() {
        Seq::empty()
    } else {
        seq![s[i]] + anchors(s, reach, group_end(s, reach, i, i + 1))
    }
}

#[via_fn]
proof fn anchors_terminates(s: Seq<i64>, reach: int, i: int) {
    if 0 <= i < s.len() {
        lemma_group_end(s, reach, i, i + 1);
    }
}

proof fn lemma_anchors(s: Seq<i64>, reach: int, i: int)
    requires
        ascending(s),
        0 <= reach,
        0 <= i <= s.len(),
    ensures
        anchors(s, reach, i).len() == greedy_centers(s, reach, i).len(),
        forall|a: int|
            0 <= a < anchors(s, reach, i).len() ==> s.contains(#[trigger] anchors(s, reach, i)[a])
                && s[i] <= anchors(s, reach, i)[a],
        forall|a: int, b: int|
            0 <= a < b < anchors(s, reach, i).len() ==> (#[trigger] anchors(s, reach, i)[b]) - (
            #[trigger] anchors(s, reach, i)[a]) > reach,
    decreases s.len() - i,
{
    if i < s.len() {
        let j = group_end(s, reach, i, i + 1);
        lemma_group_end(s, reach, i, i + 1);
        lemma_anchors(s, reach, j);
        let rest = anchors(s, reach, j);
        let all = anchors(s, reach, i);
        assert(all == seq![s[i]] + rest);
        assert(greedy_centers(s, reach, i) == seq![s[i] + s[j - 1]] + greedy_centers(s, reach, j));
        assert forall|a: int| 0 <= a < all.len() implies s.contains(#[trigger] all[a]) && s[i]
            <= all[a] by {
            if a > 0 {
                assert(all[a] == rest[a - 1]);
                assert(s[i] <= s[j]);
            } else {
                assert(s[i] == all[0]);
            }
        }
        assert forall|a: int, b: int| 0 <= a < b < all.len() implies (#[trigger] all[b]) - (
        #[trigger] all[a]) > reach by {
            assert(all[b] == rest[b - 1]);
            if a > 0 {
                assert(all[a] == rest[a - 1]);
            } else {
                assert(s[j] <= rest[b - 1]);
            }
        }
    }
}

/// No plan with fewer windows of the same width covers all channels.
pub proof fn law_plan_is_the_shortest(s: Seq<i64>, reach: int, other: Seq<int>)
    requires
        ascending(s),
        0 <= reach,
        forall|k: int|
            0 <= k < s.len() ==> exists|c: int|
                0 <= c < other.len() && window_holds(#[trigger] other[c], #[trigger] s[k] as int, reach),
    ensures
        greedy_centers(s, reach, 0).len() <= other.len(),
{
    lemma_anchors(s, reach, 0);
    let a = anchors(s, reach, 0);
    let pick = Seq::new(
        a.len(),
        |i: int|
            choose|c: int| 0 <= c < other.len() && window_holds(#[trigger] other[c], a[i] as int, reach),
    );
    assert forall|i: int| 0 <= i < a.len() implies 0 <= #[trigger] pick[i] < other.len()
        && window_holds(other[pick[i]], a[i] as int, reach) by {
        assert(s.contains(a[i]));
        let k = s.index_of(a[i]);
        assert(s[k] == a[i]);
        assert(exists|c: int|
            0 <= c < other.len() && window_holds(#[trigger] other[c], a[i] as int, reach));
    }
    assert(pick.no_duplicates()) by {
        assert forall|i: int, j: int|
            0 <= i < pick.len() && 0 <= j < pick.len() && i != j implies pick[i] != pick[j] by {
            if pick[i] == pick[j] {
                assert(window_holds(other[pick[i]], a[i] as int, reach));
                assert(window_holds(other[pick[j]], a[j] as int, reach));
                if i < j {
                    assert(a[j] - a[i] > reach);
                } else {
                    assert(a[i] - a[j] > reach);
                }
            }
        }
    }
    lemma_distinct_below(pick, other.len() as int);
}

/// Distinct numbers from zero up to `n` are at most `n`.
proof fn lemma_distinct_below(s: Seq<int>, n: int)
    requires
        0 <= n,
        s.no_duplicates(),
        forall|i: int| 0 <= i < s.len() ==> 0 <= #[trigger] s[i] < n,
    ensures
        s.len() <= n,
{
    let range = vstd::set_lib::set_int_range(0, n);
    vstd::set_lib::lemma_int_range(0, n);
    s.unique_seq_to_set();
    assert(s.to_set().subset_of(range)) by {
        assert forall|x: int| s.to_set().contains(x) implies range.contains(x) by {
            let i = s.index_of(x);
            assert(s[i] == x);
        }
    }
    vstd::set_lib::lemma_len_subset(s.to_set(), range);
}

/// What a packet meant for the sweep.
#[derive(Debug, Clone, Copy, PartialEq, Eq, Structural)]
pub struct HopObservation {
    pub first_packet: bool,
    pub sweep_complete: bool,
}

/// Packet budget and completion of a tune plan. Packets from other centres
/// do not count, and every hop must receive its full budget.
pub struct ScanProgress {
    expected: HashSet<u64>,
    completed: HashSet<u64>,
    last: Option<u64>,
    packets: usize,
    budget: usize,
}

/// Where a sweep stands: the hops of the plan, those that are done, the hop
/// that was last counted at, the packets counted there since tuning to it,
/// and the packets that a hop is owed.
#[verifier::ext_equal]
pub struct SweepState {
    pub hops: Set<u64>,
    pub done: Set<u64>,
    pub at: Option<u64>,
    pub seen: int,
    pub owed: int,
}

/// Packets counted at a centre if it is the one last tuned to.
pub open spec fn seen_at(s: SweepState, center_hz: u64) -> int {
    if s.at == Some(center_hz) {
        s.seen
    } else {
        0
    }
}

/// A sweep after a packet.
pub open spec fn after_packet(s: SweepState, center_hz: u64) -> SweepState {
    if !s.hops.contains(center_hz) || seen_at(s, center_hz) >= s.owed {
        s
    } else {
        let seen = seen_at(s, center_hz) + 1;
        SweepState {
            at: Some(center_hz),
            seen,
            done: if seen == s.owed {
                s.done.insert(center_hz)
            } else {
                s.done
            },
            ..s
        }
    }
}

/// What is said of a packet: nothing of one from another centre, or beyond
/// the budget of its hop.
pub open spec fn packet_report(s: SweepState, center_hz: u64) -> Option<HopObservation> {
    if s.hops.contains(center_hz) && seen_at(s, center_hz) < s.owed {
        Some(
            HopObservation {
                first_packet: seen_at(s, center_hz) == 0,
                sweep_complete: after_packet(s, center_hz).done == s.hops,
            },
        )
    } else {
        None
    }
}

/// A sweep that starts over. The last hop stays drained until a retune; a
/// plan with one hop has none.
pub open spec fn after_reset(s: SweepState) -> SweepState {
    if s.hops.len() == 1 {
        SweepState { done: Set::empty(), at: None, seen: 0, ..s }
    } else {
        SweepState { done: Set::empty(), ..s }
    }
}

/// What can happen to a sweep: a packet comes from a centre, or the next sweep
/// starts.
pub enum SweepEvent {
    Packet(u64),
    Reset,
}

/// A sweep after an event.
pub open spec fn after_event(s: SweepState, event: SweepEvent) -> SweepState {
    match event {
        SweepEvent::Packet(center_hz) => after_packet(s, center_hz),
        SweepEvent::Reset => after_reset(s),
    }
}

/// A sweep after events.
pub open spec fn after_events(s: SweepState, events: Seq<SweepEvent>) -> SweepState
    decreases events.len(),
{
    if events.len() == 0 {
        s
    } else {
        after_event(after_events(s, events.drop_last()), events.last())
    }
}

/// A plan before its first packet.
pub open spec fn untouched(s: SweepState) -> bool {
    &&& 1 <= s.owed
    &&& s.hops.finite()
    &&& s.done == Set::<u64>::empty()
    &&& s.at is None
    &&& s.seen == 0
}

/// How many packets of the current dwell on a hop have come: those from it
/// since another hop was last heard. Centres outside the plan do not break a
/// dwell. A new sweep does only where the plan has no other hop.
pub open spec fn dwell_on(hops: Set<u64>, events: Seq<SweepEvent>, hop: u64) -> int
    decreases events.len(),
{
    if events.len() == 0 {
        0
    } else {
        let before = dwell_on(hops, events.drop_last(), hop);
        match events.last() {
            SweepEvent::Packet(center_hz) => if center_hz == hop {
                before + 1
            } else if hops.contains(center_hz) {
                0
            } else {
                before
            },
            SweepEvent::Reset => if hops.len() == 1 {
                0
            } else {
                before
            },
        }
    }
}

/// Whether the event `j` is the packet that fills a dwell on a hop.
pub open spec fn fills(
    hops: Set<u64>,
    owed: int,
    events: Seq<SweepEvent>,
    hop: u64,
    j: int,
) -> bool {
    &&& 0 <= j < events.len()
    &&& events[j] == SweepEvent::Packet(hop)
    &&& dwell_on(hops, events.take(j), hop) + 1 == owed
}

/// Whether a dwell on a hop was filled since the sweep last started.
pub open spec fn filled(hops: Set<u64>, owed: int, events: Seq<SweepEvent>, hop: u64) -> bool {
    exists|j: int| #[trigger]
        fills(hops, owed, events, hop, j) && forall|i: int|
            j < i < events.len() ==> !(#[trigger] events[i] is Reset)
}

proof fn lemma_sweep(start: SweepState, events: Seq<SweepEvent>)
    requires
        untouched(start),
    ensures
        ({
            let s = after_events(start, events);
            &&& s.hops == start.hops
            &&& s.owed == start.owed
            &&& s.at matches Some(c) ==> s.hops.contains(c)
            &&& forall|hop: u64|
                start.hops.contains(hop) ==> #[trigger] seen_at(s, hop) == min(
                    dwell_on(start.hops, events, hop),
                    start.owed,
                ) && dwell_on(start.hops, events, hop) >= 0
            &&& forall|hop: u64| #[trigger]
                s.done.contains(hop) <==> start.hops.contains(hop) && filled(
                    start.hops,
                    start.owed,
                    events,
                    hop,
                )
        }),
    decreases events.len(),
{
    let s = after_events(start, events);
    let (hops, owed) = (start.hops, start.owed);
    if events.len() > 0 {
        let n = events.len() - 1;
        let front = events.drop_last();
        let b = after_events(start, front);
        lemma_sweep(start, front);
        assert(events.take(n) =~= front);
        assert(events[n] == events.last());
        assert forall|hop: u64| hops.contains(hop) implies #[trigger] seen_at(s, hop) == min(
            dwell_on(hops, events, hop),
            owed,
        ) && dwell_on(hops, events, hop) >= 0 by {
            assert(seen_at(b, hop) == min(dwell_on(hops, front, hop), owed));
            match events.last() {
                SweepEvent::Packet(c) => {
                    if hops.contains(c) {
                        assert(seen_at(b, c) == min(dwell_on(hops, front, c), owed));
                        if c != hop && seen_at(b, c) >= owed {
                            assert(b.at == Some(c));
                        }
                    }
                },
                SweepEvent::Reset => {},
            }
        }
        assert forall|hop: u64| #[trigger] s.done.contains(hop) <==> hops.contains(hop) && filled(
            hops,
            owed,
            events,
            hop,
        ) by {
            assert forall|j: int| 0 <= j < n implies #[trigger] fills(hops, owed, events, hop, j)
                == fills(hops, owed, front, hop, j) by {
                assert(events[j] == front[j]);
                assert(events.take(j) =~= front.take(j));
            }
            let last_fills = fills(hops, owed, events, hop, n);
            if filled(hops, owed, events, hop) {
                let j = choose|j: int| #[trigger]
                    fills(hops, owed, events, hop, j) && forall|i: int|
                        j < i < events.len() ==> !(#[trigger] events[i] is Reset);
                if j < n {
                    assert(!(events[n] is Reset));
                    assert(fills(hops, owed, front, hop, j));
                    assert forall|i: int| j < i < front.len() implies !(
                    #[trigger] front[i] is Reset) by {
                        assert(front[i] == events[i]);
                    }
                    assert(filled(hops, owed, front, hop));
                }
            }
            if filled(hops, owed, front, hop) && !(events[n] is Reset) {
                let j = choose|j: int| #[trigger]
                    fills(hops, owed, front, hop, j) && forall|i: int|
                        j < i < front.len() ==> !(#[trigger] front[i] is Reset);
                assert(fills(hops, owed, events, hop, j));
                assert forall|i: int| j < i < events.len() implies !(
                #[trigger] events[i] is Reset) by {
                    if i < n {
                        assert(front[i] == events[i]);
                    }
                }
            }
            if hops.contains(hop) {
                assert(seen_at(b, hop) == min(dwell_on(hops, front, hop), owed));
            }
            match events.last() {
                SweepEvent::Packet(c) => {
                    assert(b.done.contains(hop) <==> hops.contains(hop) && filled(
                        hops,
                        owed,
                        front,
                        hop,
                    ));
                },
                SweepEvent::Reset => {},
            }
        }
    } else {
        assert forall|hop: u64| !filled(hops, owed, events, hop) by {
            if filled(hops, owed, events, hop) {
                let j = choose|j: int| #[trigger] fills(hops, owed, events, hop, j);
            }
        }
    }
}

/// After any events, a packet counts exactly if it comes from a hop of the
/// plan whose current dwell has not had its budget yet; one that does not
/// count changes nothing. It is a first packet exactly if it is the first of
/// its dwell.
pub proof fn law_packets_count_by_dwell(
    start: SweepState,
    events: Seq<SweepEvent>,
    center_hz: u64,
)
    requires
        untouched(start),
    ensures
        ({
            let s = after_events(start, events);
            let dwell = dwell_on(start.hops, events, center_hz);
            &&& packet_report(s, center_hz) is None <==> !start.hops.contains(center_hz) || dwell
                >= start.owed
            &&& packet_report(s, center_hz) is None ==> after_packet(s, center_hz) == s
            &&& packet_report(s, center_hz) matches Some(o) ==> (o.first_packet <==> dwell == 0)
        }),
{
    lemma_sweep(start, events);
    let s = after_events(start, events);
    if start.hops.contains(center_hz) {
        assert(seen_at(s, center_hz) == min(
            dwell_on(start.hops, events, center_hz),
            start.owed,
        ));
    }
}

/// After any events, a packet that counts says that the sweep is complete
/// exactly if every hop of the plan has had a whole budget in one dwell, the
/// last packet of it since the sweep last started, this packet included.
/// Packets of an interrupted dwell never add up.
pub proof fn law_complete_means_every_hop_got_its_budget(
    start: SweepState,
    events: Seq<SweepEvent>,
    center_hz: u64,
)
    requires
        untouched(start),
    ensures
        packet_report(after_events(start, events), center_hz) matches Some(o) ==> (
        o.sweep_complete <==> forall|hop: u64| #[trigger]
            start.hops.contains(hop) ==> filled(
                start.hops,
                start.owed,
                events.push(SweepEvent::Packet(center_hz)),
                hop,
            )),
{
    let all = events.push(SweepEvent::Packet(center_hz));
    assert(all.drop_last() =~= events);
    lemma_sweep(start, events);
    lemma_sweep(start, all);
    let s = after_events(start, all);
    assert(s == after_packet(after_events(start, events), center_hz));
    if forall|hop: u64| #[trigger]
        start.hops.contains(hop) ==> filled(start.hops, start.owed, all, hop) {
        assert forall|hop: u64| s.done.contains(hop) <==> start.hops.contains(hop) by {}
        assert(s.done =~= start.hops);
    }
    if s.done == start.hops {
        assert forall|hop: u64| #[trigger] start.hops.contains(hop) implies filled(
            start.hops,
            start.owed,
            all,
            hop,
        ) by {
            assert(s.done.contains(hop));
        }
    }
}

/// A sweep that is complete stays so until the next one starts.
pub proof fn law_completion_lasts(start: SweepState, events: Seq<SweepEvent>, later: Seq<u64>)
    requires
        untouched(start),
        after_events(start, events).done == start.hops,
    ensures
        after_events(
            start,
            events + later.map_values(|c: u64| SweepEvent::Packet(c)),
        ).done == start.hops,
    decreases later.len(),
{
    let packets = later.map_values(|c: u64| SweepEvent::Packet(c));
    let all = events + packets;
    if later.len() == 0 {
        assert(all =~= events);
    } else {
        let earlier = later.drop_last();
        let front = events + earlier.map_values(|c: u64| SweepEvent::Packet(c));
        law_completion_lasts(start, events, earlier);
        assert(all.drop_last() =~= front);
        lemma_sweep(start, front);
        assert(after_events(start, all).done =~= start.hops);
    }
}

/// Packets from centres that are not in the plan change nothing.
pub proof fn law_foreign_packets_do_not_count(s: SweepState, center_hz: u64)
    requires
        !s.hops.contains(center_hz),
    ensures
        after_packet(s, center_hz) == s,
        packet_report(s, center_hz) is None,
{
}

/// The whole-hertz centres of a plan that can be tuned.
pub open spec fn tunable(centers_half_hz: Seq<i64>) -> Set<u64> {
    Set::new(
        |hz: u64|
            exists|k: int|
                0 <= k < centers_half_hz.len() && #[trigger] centers_half_hz[k] >= 0 && hz
                    == centers_half_hz[k] as int / 2,
    )
}

impl ScanProgress {
    /// The centres of the plan.
    pub closed spec fn hops(&self) -> Set<u64> {
        self.expected@
    }

    /// The centres that have received their budget in this sweep.
    pub closed spec fn done(&self) -> Set<u64> {
        self.completed@
    }

    /// The centre of the last packet that counted.
    pub closed spec fn at(&self) -> Option<u64> {
        self.last
    }

    /// Packets counted there since tuning to it.
    pub closed spec fn seen(&self) -> int {
        self.packets as int
    }

    /// Packets that a hop is owed.
    pub closed spec fn owed(&self) -> int {
        self.budget as int
    }

    pub closed spec fn wf(&self) -> bool {
        &&& self.expected@.finite()
        &&& self.completed@.subset_of(self.expected@)
        &&& 1 <= self.budget
        &&& self.packets <= self.budget
    }

    /// Only hops of the plan count as done, and a hop is never owed less than
    /// it got.
    pub proof fn law_done_hops_are_planned(&self)
        requires
            self.wf(),
        ensures
            self.hops().finite(),
            self.done().subset_of(self.hops()),
            1 <= self.owed(),
            0 <= self.seen() <= self.owed(),
    {
    }

    /// Track a plan, whose centres are in half-hertz. A budget of zero counts
    /// as one.
    pub fn new(centers_half_hz: &Vec<i64>, packets_per_hop: usize) -> (p: Self)
        ensures
            p.wf(),
            p.hops() == tunable(centers_half_hz@),
            p.done() == Set::<u64>::empty(),
            p.at() is None,
            p.seen() == 0,
            p.owed() == max(packets_per_hop as int, 1),
            untouched(p.state()),
    {
        let mut expected: HashSet<u64> = HashSet::new();
        let mut i: usize = 0;
        assert(expected@ =~= tunable(centers_half_hz@.take(0)));
        while i < centers_half_hz.len()
            invariant
                i <= centers_half_hz.len(),
                expected@ == tunable(centers_half_hz@.take(i as int)),
                expected@.finite(),
            decreases centers_half_hz.len() - i,
        {
            let c: i64 = centers_half_hz[i];
            let ghost before = expected@;
            if c >= 0 {
                expected.insert((c / 2) as u64);
            }
            proof {
                let a = centers_half_hz@.take(i as int);
                let b = centers_half_hz@.take(i + 1);
                assert(b[i as int] == c);
                assert forall|hz: u64| expected@.contains(hz) <==> tunable(b).contains(hz) by {
                    if tunable(a).contains(hz) {
                        let k = choose|k: int|
                            0 <= k < a.len() && #[trigger] a[k] >= 0 && hz == a[k] as int / 2;
                        assert(b[k] == a[k]);
                    }
                    if tunable(b).contains(hz) {
                        let k = choose|k: int|
                            0 <= k < b.len() && #[trigger] b[k] >= 0 && hz == b[k] as int / 2;
                        if k < i {
                            assert(a[k] == b[k]);
                        }
                    }
                }
                assert(expected@ =~= tunable(b));
            }
            i += 1;
        }
        assert(centers_half_hz@.take(i as int) =~= centers_half_hz@);
        ScanProgress {
            expected,
            completed: HashSet::new(),
            last: None,
            packets: 0,
            budget: if packets_per_hop >= 1 {
                packets_per_hop
            } else {
                1
            },
        }
    }

    /// All of the above.
    pub open spec fn state(&self) -> SweepState {
        SweepState {
            hops: self.hops(),
            done: self.done(),
            at: self.at(),
            seen: self.seen(),
            owed: self.owed(),
        }
    }

    /// Count a packet. Nothing for one from another centre, or beyond the
    /// budget of its hop.
    pub fn observe(&mut self, center_hz: u64) -> (r: Option<HopObservation>)
        requires
            old(self).wf(),
        ensures
            final(self).wf(),
            final(self).state() == after_packet(old(self).state(), center_hz),
            r == packet_report(old(self).state(), center_hz),
    {
        if !self.expected.contains(&center_hz) {
            return None;
        }
        let fresh: bool = match self.last {
            Some(c) => c != center_hz,
            None => true,
        };
        if fresh {
            self.last = Some(center_hz);
            self.packets = 0;
        }
        if self.packets >= self.budget {
            return None;
        }
        self.packets = self.packets + 1;
        if self.packets == self.budget {
            self.completed.insert(center_hz);
        }
        let sweep_complete: bool = self.completed.len() == self.expected.len();
        proof {
            if self.completed@.len() == self.expected@.len() {
                vstd::set_lib::lemma_subset_equality(self.completed@, self.expected@);
            }
        }
        Some(HopObservation { first_packet: self.packets == 1, sweep_complete })
    }

    /// Start the next sweep. The last hop stays drained until a retune; a
    /// plan with one hop has none, so it may go on at once.
    pub fn reset_sweep(&mut self)
        requires
            old(self).wf(),
        ensures
            final(self).wf(),
            final(self).state() == after_reset(old(self).state()),
    {
        self.completed.clear();
        if self.expected.len() == 1 {
            self.last = None;
            self.packets = 0;
        }
    }
}

/// Which reading of an off-grid hit is selectable.
#[derive(Debug, Clone, Copy, PartialEq, Eq, Structural)]
pub enum CandidatePolicy {
    /// Only the nearest channel, unless that is skipped.
    NearestChannel,
    /// The nearest channel that is not skipped.
    AnyUnskippedChannel,
}

/// Strongest selectable coarse hit. Skipped frequencies are tuned ones, in
/// Hz.
pub struct ScanSelector {
    skipped: HashSet<u64>,
    policy: CandidatePolicy,
    best: Option<(i64, i32, SignalType)>,
}

/// Snap tolerance in Hz.
pub open spec fn snap_tolerance() -> int {
    CHANNEL_SNAP_TOLERANCE_MHZ * 1_000_000
}

/// The candidates that are not skipped, in order.
pub open spec fn unskipped(found: Seq<u64>, skipped: Set<u64>) -> Seq<u64> {
    found.filter(|f: u64| !skipped.contains(f))
}

impl ScanSelector {
    pub closed spec fn skips(&self) -> Set<u64> {
        self.skipped@
    }

    pub closed spec fn choice(&self) -> CandidatePolicy {
        self.policy
    }

    pub closed spec fn chosen(&self) -> Option<(i64, i32, SignalType)> {
        self.best
    }

    /// What the policy makes of a coarse frequency with these channels near
    /// it.
    pub open spec fn falls_back_among(
        &self,
        found: Seq<u64>,
        frequency_hz: i64,
        r: Option<i64>,
    ) -> bool {
        if found.len() == 0 {
            r == (if exists|s: u64|
                #![trigger self.skips().contains(s)]
                self.skips().contains(s) && off(s, frequency_hz) <= snap_tolerance() {
                None
            } else {
                Some(frequency_hz)
            })
        } else {
            match self.choice() {
                CandidatePolicy::NearestChannel => exists|snapped: i64|
                    {
                        &&& #[trigger] snaps_to(frequency_hz, snapped)
                        &&& r == (if snapped >= 0 && self.skips().contains(snapped as u64) {
                            None
                        } else {
                            Some(snapped)
                        })
                    },
                CandidatePolicy::AnyUnskippedChannel => {
                    let open = unskipped(found, self.skips());
                    r == (if open.len() == 0 {
                        None
                    } else {
                        Some(open[0] as i64)
                    })
                },
            }
        }
    }

    /// Whether `r` is what a coarse frequency falls back to: itself where no
    /// channel is near and none near it is skipped; otherwise what the policy
    /// allows of the channels near it.
    pub open spec fn falls_back(&self, frequency_hz: i64, r: Option<i64>) -> bool {
        exists|found: Seq<u64>| #[trigger]
            ranked_candidates(carriers(), frequency_hz, snap_tolerance(), found)
                && self.falls_back_among(found, frequency_hz, r)
    }

    pub fn new(skipped: &HashSet<u64>, policy: CandidatePolicy) -> (s: Self)
        ensures
            s.skips() == skipped@,
            s.choice() == policy,
            s.chosen() is None,
    {
        let mut held: HashSet<u64> = HashSet::new();
        let ghost all = vstd::std_specs::iter::IteratorSpec::remaining(&skipped.iter()).unref();
        for f in it: skipped.iter()
            invariant
                it.seq().unref() == all,
                held@ == all.take(it.index() as int).to_set(),
        {
            proof {
                let k = it.index() as int;
                assert(all.take(k + 1) =~= all.take(k).push(*f));
                all.take(k).lemma_push_to_set_commute(*f);
            }
            held.insert(*f);
        }
        assert(all.take(all.len() as int) =~= all);
        ScanSelector { skipped: held, policy, best: None }
    }

    /// Known channels worth testing, ordered by distance and without skips.
    pub fn refinement_candidates(&self, frequency_hz: i64) -> (out: Vec<u64>)
        ensures
            exists|found: Seq<u64>| #[trigger]
                ranked_candidates(carriers(), frequency_hz, snap_tolerance(), found) && out@
                    == unskipped(found, self.skips()),
    {
        let found: Vec<u64> = get_candidate_fpv_channels(frequency_hz);
        let out: Vec<u64> = self.without_skips(&found);
        assert(ranked_candidates(carriers(), frequency_hz, snap_tolerance(), found@));
        out
    }

    fn without_skips(&self, found: &Vec<u64>) -> (out: Vec<u64>)
        ensures
            out@ == unskipped(found@, self.skips()),
    {
        let ghost keep = |f: u64| !self.skips().contains(f);
        let mut out: Vec<u64> = Vec::new();
        let mut i: usize = 0;
        proof {
            reveal(Seq::filter);
        }
        while i < found.len()
            invariant
                i <= found.len(),
                keep == (|f: u64| !self.skips().contains(f)),
                out@ == found@.take(i as int).filter(keep),
            decreases found.len() - i,
        {
            proof {
                reveal(Seq::filter);
                assert(found@.take(i + 1).drop_last() =~= found@.take(i as int));
            }
            if !self.skipped.contains(&found[i]) {
                out.push(found[i]);
            }
            i += 1;
        }
        assert(found@.take(i as int) =~= found@);
        out
    }

    /// Whether a skipped frequency lies within the snap tolerance.
    fn near_skip(&self, frequency_hz: i64) -> (b: bool)
        ensures
            b == exists|s: u64|
                #![trigger self.skips().contains(s)]
                self.skips().contains(s) && off(s, frequency_hz) <= snap_tolerance(),
    {
        let tolerance: i128 = CHANNEL_SNAP_TOLERANCE_MHZ as i128 * 1_000_000;
        let mut near: bool = false;
        let ghost all = vstd::std_specs::iter::IteratorSpec::remaining(
            &self.skipped.iter(),
        ).unref();
        for s in it: self.skipped.iter()
            invariant
                tolerance == snap_tolerance(),
                it.seq().unref() == all,
                near == exists|k: int|
                    0 <= k < it.index() && off(#[trigger] all[k], frequency_hz)
                        <= snap_tolerance(),
        {
            let d: i128 = *s as i128 - frequency_hz as i128;
            assert(all[it.index() as int] == *s);
            if d <= tolerance && -d <= tolerance {
                near = true;
            }
        }
        proof {
            assert(all.to_set() == self.skips());
            if near {
                let k = choose|k: int|
                    0 <= k < all.len() && off(#[trigger] all[k], frequency_hz) <= snap_tolerance();
                assert(all.to_set().contains(all[k]));
            }
            if exists|s: u64|
                #![trigger self.skips().contains(s)]
                self.skips().contains(s) && off(s, frequency_hz) <= snap_tolerance() {
                let s = choose|s: u64|
                    #![trigger self.skips().contains(s)]
                    self.skips().contains(s) && off(s, frequency_hz) <= snap_tolerance();
                assert(all.contains(s));
                let k = all.index_of(s);
                assert(all[k] == s);
            }
        }
        near
    }

    /// Safe coarse choice, also for when a fine-tune probe is inconclusive. A
    /// skipped nearest channel is never returned merely because refinement
    /// failed.
    pub fn fallback_frequency(&self, frequency_hz: Option<i64>) -> (r: Option<i64>)
        ensures
            match frequency_hz {
                None => r is None,
                Some(f) => self.falls_back(f, r),
            },
    {
        let frequency_hz: i64 = match frequency_hz {
            None => {
                return None;
            },
            Some(f) => f,
        };
        let found: Vec<u64> = get_candidate_fpv_channels(frequency_hz);
        assert(ranked_candidates(carriers(), frequency_hz, snap_tolerance(), found@));
        if found.len() == 0 {
            if self.near_skip(frequency_hz) {
                return None;
            }
            return Some(frequency_hz);
        }
        match self.policy {
            CandidatePolicy::NearestChannel => {
                let snapped: i64 = snap_to_nearest_fpv_channel(frequency_hz);
                if snapped >= 0 && self.skipped.contains(&(snapped as u64)) {
                    return None;
                }
                Some(snapped)
            },
            CandidatePolicy::AnyUnskippedChannel => {
                let open: Vec<u64> = self.without_skips(&found);
                if open.len() == 0 {
                    return None;
                }
                Some(open[0] as i64)
            },
        }
    }

    /// Take a detection into account; true when it becomes the best hit. It
    /// has to be selectable, and stronger than the best one so far.
    pub fn consider(&mut self, hit: &DetectionResult) -> (b: bool)
        requires
            hit.frequency_hz <= i64::MAX,
        ensures
            considered(*old(self), *hit, *final(self), b),
    {
        let frequency_hz: i64 = hit.frequency_hz as i64;
        let fallback: Option<i64> = self.fallback_frequency(Some(frequency_hz));
        let rssi: i32 = match hit.rssi_mdbm {
            None => {
                return false;
            },
            Some(r) => r,
        };
        let stronger: bool = match self.best {
            None => true,
            Some(best) => rssi > best.1,
        };
        if fallback.is_some() && stronger {
            self.best = Some((frequency_hz, rssi, hit.signal_type));
            return true;
        }
        false
    }

    /// The best hit: frequency, power and kind.
    pub fn best(&self) -> (r: Option<(i64, i32, SignalType)>)
        ensures
            r == self.chosen(),
    {
        self.best
    }
}

/// Whether `b` is whether a hit becomes the best one, and `after` the selector
/// then: it has to be selectable, and stronger than the best one so far.
pub open spec fn considered(
    before: ScanSelector,
    hit: DetectionResult,
    after: ScanSelector,
    b: bool,
) -> bool {
    &&& after.skips() == before.skips()
    &&& after.choice() == before.choice()
    &&& b ==> hit.rssi_mdbm is Some && after.chosen() == Some(
        (hit.frequency_hz as i64, hit.rssi_mdbm.unwrap(), hit.signal_type),
    )
    &&& !b ==> after.chosen() == before.chosen()
    &&& exists|fallback: Option<i64>|
        {
            &&& #[trigger] before.falls_back(hit.frequency_hz as i64, fallback)
            &&& b <==> {
                &&& fallback is Some
                &&& hit.rssi_mdbm is Some
                &&& before.chosen() is None || before.chosen().unwrap().1 < hit.rssi_mdbm.unwrap()
            }
        }
}

/// Whether a hit is selectable at all: its power is known, and there is
/// something to fall back to.
pub open spec fn admitted(selector: ScanSelector, hit: DetectionResult) -> bool {
    hit.rssi_mdbm is Some && exists|r: i64| #[trigger]
        selector.falls_back(hit.frequency_hz as i64, Some(r))
}

/// The candidates near a frequency are the same however they were found.
proof fn lemma_candidates_have_the_same_members(
    frequency_hz: i64,
    a: Seq<u64>,
    b: Seq<u64>,
    skipped: Set<u64>,
)
    requires
        ranked_candidates(carriers(), frequency_hz, snap_tolerance(), a),
        ranked_candidates(carriers(), frequency_hz, snap_tolerance(), b),
    ensures
        a.len() > 0 ==> b.len() > 0,
        unskipped(a, skipped).len() > 0 ==> unskipped(b, skipped).len() > 0,
{
    if a.len() > 0 {
        assert(a.contains(a[0]));
        assert(b.contains(a[0]));
    }
    if unskipped(a, skipped).len() > 0 {
        let keep = |f: u64| !skipped.contains(f);
        let f = unskipped(a, skipped)[0];
        lemma_filter_keeps_members(a, keep, 0);
        a.lemma_filter_pred(keep, 0);
        assert(b.contains(f));
        b.lemma_filter_contains(keep, b.index_of(f));
        assert(unskipped(b, skipped).contains(f));
    }
}

/// A coarse frequency has something to fall back to, or it has not.
pub proof fn law_fallback_is_decided(selector: ScanSelector, frequency_hz: i64, r: i64)
    requires
        selector.falls_back(frequency_hz, Some(r)),
    ensures
        !selector.falls_back(frequency_hz, None),
{
    let a = choose|found: Seq<u64>| #[trigger]
        ranked_candidates(carriers(), frequency_hz, snap_tolerance(), found)
            && selector.falls_back_among(found, frequency_hz, Some(r));
    if selector.falls_back(frequency_hz, None) {
        let b = choose|found: Seq<u64>| #[trigger]
            ranked_candidates(carriers(), frequency_hz, snap_tolerance(), found)
                && selector.falls_back_among(found, frequency_hz, None);
        lemma_candidates_have_the_same_members(frequency_hz, a, b, selector.skips());
        lemma_candidates_have_the_same_members(frequency_hz, b, a, selector.skips());
        if a.len() > 0 && selector.choice() == CandidatePolicy::NearestChannel {
            let x = choose|snapped: i64|
                {
                    &&& #[trigger] snaps_to(frequency_hz, snapped)
                    &&& Some(r) == (if snapped >= 0 && selector.skips().contains(snapped as u64) {
                        None
                    } else {
                        Some(snapped)
                    })
                };
            let y = choose|snapped: i64|
                {
                    &&& #[trigger] snaps_to(frequency_hz, snapped)
                    &&& None::<i64> == (if snapped >= 0 && selector.skips().contains(
                        snapped as u64,
                    ) {
                        None
                    } else {
                        Some(snapped)
                    })
                };
            law_snapping_is_unique(frequency_hz, x, y);
        }
    }
}

/// Whether a chain of selectors takes hits into account one by one.
pub open spec fn considers_all(
    states: Seq<ScanSelector>,
    hits: Seq<DetectionResult>,
    taken: Seq<bool>,
) -> bool {
    &&& states.len() == hits.len() + 1
    &&& taken.len() == hits.len()
    &&& forall|j: int|
        #![trigger hits[j]]
        0 <= j < hits.len() ==> considered(states[j], hits[j], states[j + 1], taken[j])
}

/// Whether a hit is the first of the strongest that a selector admits.
pub open spec fn first_strongest(
    selector: ScanSelector,
    hits: Seq<DetectionResult>,
    i: int,
) -> bool {
    &&& 0 <= i < hits.len()
    &&& admitted(selector, hits[i])
    &&& forall|k: int|
        0 <= k < hits.len() && admitted(selector, #[trigger] hits[k]) ==> hits[k].rssi_mdbm.unwrap()
            <= hits[i].rssi_mdbm.unwrap()
    &&& forall|k: int|
        0 <= k < i && admitted(selector, #[trigger] hits[k]) ==> hits[k].rssi_mdbm.unwrap()
            < hits[i].rssi_mdbm.unwrap()
}

/// Over a series of hits, the best is the first with the greatest power among
/// those that are selectable, and there is none if none is.
pub proof fn law_best_is_the_first_strongest(
    states: Seq<ScanSelector>,
    hits: Seq<DetectionResult>,
    taken: Seq<bool>,
)
    requires
        considers_all(states, hits, taken),
        states[0].chosen() is None,
    ensures
        states.last().skips() == states[0].skips(),
        states.last().choice() == states[0].choice(),
        match states.last().chosen() {
            None => forall|k: int|
                0 <= k < hits.len() ==> !admitted(states[0], #[trigger] hits[k]),
            Some(best) => exists|i: int| #[trigger]
                first_strongest(states[0], hits, i) && best == (
                    hits[i].frequency_hz as i64,
                    hits[i].rssi_mdbm.unwrap(),
                    hits[i].signal_type,
                ),
        },
    decreases hits.len(),
{
    if hits.len() > 0 {
        let n = hits.len() - 1;
        let early = hits.drop_last();
        let front = states.drop_last();
        assert(considers_all(front, early, taken.drop_last())) by {
            assert forall|j: int| #![trigger early[j]] 0 <= j < early.len() implies considered(
                front[j],
                early[j],
                front[j + 1],
                taken.drop_last()[j],
            ) by {
                assert(early[j] == hits[j]);
            }
        }
        law_best_is_the_first_strongest(front, early, taken.drop_last());
        let s = states[0];
        let b = states[n];
        let hit = hits[n];
        assert(front.last() == b && front[0] == s);
        assert(considered(b, hit, states[n + 1], taken[n]));
        assert(states.last() == states[n + 1]);
        let fallback = choose|fallback: Option<i64>|
            {
                &&& #[trigger] b.falls_back(hit.frequency_hz as i64, fallback)
                &&& taken[n] <==> {
                    &&& fallback is Some
                    &&& hit.rssi_mdbm is Some
                    &&& b.chosen() is None || b.chosen().unwrap().1 < hit.rssi_mdbm.unwrap()
                }
            };
        lemma_same_fallbacks(b, s, hit.frequency_hz as i64, fallback);
        match fallback {
            Some(r) => {
                assert(s.falls_back(hit.frequency_hz as i64, Some(r)));
            },
            None => {
                if admitted(s, hit) {
                    let r = choose|r: i64| #[trigger]
                        s.falls_back(hit.frequency_hz as i64, Some(r));
                    law_fallback_is_decided(s, hit.frequency_hz as i64, r);
                }
            },
        }
        if taken[n] {
            assert forall|k: int| 0 <= k < n && admitted(s, #[trigger] hits[k]) implies
                hits[k].rssi_mdbm.unwrap() < hit.rssi_mdbm.unwrap() by {
                assert(early[k] == hits[k]);
                match b.chosen() {
                    None => {},
                    Some(best) => {
                        let i = choose|i: int| #[trigger]
                            first_strongest(s, early, i) && best == (
                                early[i].frequency_hz as i64,
                                early[i].rssi_mdbm.unwrap(),
                                early[i].signal_type,
                            );
                        assert(early[k].rssi_mdbm.unwrap() <= early[i].rssi_mdbm.unwrap());
                    },
                }
            }
            assert(first_strongest(s, hits, n));
        } else {
            match b.chosen() {
                None => {
                    assert forall|k: int| 0 <= k < hits.len() implies !admitted(
                        s,
                        #[trigger] hits[k],
                    ) by {
                        if k < n {
                            assert(early[k] == hits[k]);
                        }
                    }
                },
                Some(best) => {
                    let i = choose|i: int| #[trigger]
                        first_strongest(s, early, i) && best == (
                            early[i].frequency_hz as i64,
                            early[i].rssi_mdbm.unwrap(),
                            early[i].signal_type,
                        );
                    assert(early[i] == hits[i]);
                    assert forall|k: int| 0 <= k < hits.len() && admitted(
                        s,
                        #[trigger] hits[k],
                    ) implies hits[k].rssi_mdbm.unwrap() <= hits[i].rssi_mdbm.unwrap() by {
                        if k < n {
                            assert(early[k] == hits[k]);
                        }
                    }
                    assert forall|k: int| 0 <= k < i && admitted(s, #[trigger] hits[k]) implies
                        hits[k].rssi_mdbm.unwrap() < hits[i].rssi_mdbm.unwrap() by {
                        assert(early[k] == hits[k]);
                    }
                    assert(first_strongest(s, hits, i));
                },
            }
        }
    }
}

proof fn lemma_same_fallbacks(
    a: ScanSelector,
    b: ScanSelector,
    frequency_hz: i64,
    r: Option<i64>,
)
    requires
        a.skips() == b.skips(),
        a.choice() == b.choice(),
        a.falls_back(frequency_hz, r),
    ensures
        b.falls_back(frequency_hz, r),
{
    let found = choose|found: Seq<u64>| #[trigger]
        ranked_candidates(carriers(), frequency_hz, snap_tolerance(), found)
            && a.falls_back_among(found, frequency_hz, r);
    assert(b.falls_back_among(found, frequency_hz, r));
}

/// Nothing that a coarse frequency falls back to is skipped.
pub proof fn law_fallback_is_not_skipped(selector: ScanSelector, frequency_hz: i64, r: i64)
    requires
        selector.falls_back(frequency_hz, Some(r)),
        r >= 0,
    ensures
        !selector.skips().contains(r as u64),
{
    let found = choose|found: Seq<u64>| #[trigger]
        ranked_candidates(carriers(), frequency_hz, snap_tolerance(), found)
            && selector.falls_back_among(found, frequency_hz, Some(r));
    if found.len() == 0 {
        if selector.skips().contains(r as u64) {
            assert(off(r as u64, frequency_hz) == 0);
        }
    } else if selector.choice() == CandidatePolicy::AnyUnskippedChannel {
        let keep = |f: u64| !selector.skips().contains(f);
        let open = unskipped(found, selector.skips());
        assert(open == found.filter(keep));
        lemma_filter_keeps_members(found, keep, 0);
        assert(keep(open[0])) by {
            broadcast use vstd::seq_lib::group_filter_ensures;

        }
        lemma_carrier_bounds(open[0]);
    }
}

/// Ranks fine-tune evidence by confidence, and by power where two confidences
/// are nearly equal. Weak sync remains a failed refinement.
pub struct FineTuneSelector {
    best: Option<(i64, u32, i32)>,
}

impl Default for FineTuneSelector {
    fn default() -> (s: Self)
        ensures
            s.kept() is None,
    {
        FineTuneSelector { best: None }
    }
}

impl FineTuneSelector {
    /// The strongest evidence so far: frequency in Hz, confidence in
    /// thousandths, power in thousandths of a decibel-milliwatt.
    pub closed spec fn kept(&self) -> Option<(i64, u32, i32)> {
        self.best
    }

    /// Whether evidence beats what is kept.
    pub open spec fn beats(&self, confidence: u32, rssi_mdbm: i32) -> bool {
        match self.kept() {
            None => true,
            Some(k) => confidence > k.1 + 50 || (confidence > k.1 - 50 && rssi_mdbm > k.2),
        }
    }

    /// Take a measurement into account. One that is not a number counts for
    /// nothing.
    pub fn consider(
        &mut self,
        frequency_hz: Option<i64>,
        confidence: Option<u32>,
        rssi_mdbm: Option<i32>,
    )
        ensures
            final(self).kept() == match (frequency_hz, confidence, rssi_mdbm) {
                (Some(f), Some(c), Some(r)) => if old(self).beats(c, r) {
                    Some((f, c, r))
                } else {
                    old(self).kept()
                },
                _ => old(self).kept(),
            },
    {
        match (frequency_hz, confidence, rssi_mdbm) {
            (Some(f), Some(c), Some(r)) => {
                let beats: bool = match self.best {
                    None => true,
                    Some(k) => c as u64 > k.1 as u64 + 50 || (c as u64 + 50 > k.1 as u64 && r
                        > k.2),
                };
                if beats {
                    self.best = Some((f, c, r));
                }
            },
            _ => {},
        }
    }

    /// The evidence that a refinement rests on, if any is strong enough.
    pub open spec fn settled(&self) -> Option<(i64, u32, i32)> {
        match self.kept() {
            Some(k) => if k.1 > 100 {
                Some(k)
            } else {
                None
            },
            None => None,
        }
    }

    /// The strongest evidence, where its confidence is above a tenth.
    pub fn best(&self) -> (r: Option<(i64, u32, i32)>)
        ensures
            r == match self.kept() {
                Some(k) => if k.1 > 100 {
                    Some(k)
                } else {
                    None
                },
                None => None,
            },
            r == self.settled(),
    {
        match self.best {
            Some(k) => if k.1 > 100 {
                Some(k)
            } else {
                None
            },
            None => None,
        }
    }
}

/// Receiver acquisition accepts unresolved analog video evidence, which has a
/// confidence of six tenths; the standard is told apart later on a contiguous
/// record. In thousandths.
pub const RECEIVER_MIN_CONFIDENCE: u32 = 550;

/// The detector of a receiver: the default one with a lower floor.
pub fn receiver_detector() -> (d: AnalogFpvDetector)
    ensures
        d == (AnalogFpvDetector {
            energy_ratio: 1_995_262,
            min_bandwidth: 1_000_000,
            max_bandwidth: 30_000_000,
            min_confidence: RECEIVER_MIN_CONFIDENCE,
            demote_unconfirmed_video: false,
            assumed_deviation_hz: 5_000_000,
        }),
{
    let base: AnalogFpvDetector = AnalogFpvDetector::default();
    AnalogFpvDetector { min_confidence: RECEIVER_MIN_CONFIDENCE, ..base }
}

/// The results of a channel follow those of the channels before it, in the
/// order they were found, and differ from what was found only in naming the
/// channel.
pub proof fn law_results_name_their_channel(
    channels: Seq<FpvChannel>,
    found: Seq<Seq<DetectionResult>>,
    n: int,
    k: int,
)
    requires
        0 <= n < channels.len(),
        channels.len() <= found.len(),
        0 <= k < found[n].len(),
    ensures
        ({
            let before = scan_results(channels.take(n), found).len();
            let r = scan_results(channels.take(n + 1), found)[before + k];
            &&& scan_results(channels.take(n + 1), found).len() == before + found[n].len()
            &&& r.channel == Some(channels[n])
            &&& r.frequency_hz == found[n][k].frequency_hz
            &&& r.confidence == found[n][k].confidence
            &&& r.rssi_mdbm == found[n][k].rssi_mdbm
            &&& r.bandwidth_hz == found[n][k].bandwidth_hz
            &&& r.signal_type == found[n][k].signal_type
        }),
{
    assert(channels.take(n + 1).drop_last() =~= channels.take(n));
    assert(channels.take(n + 1)[n] == channels[n]);
}

/// Evidence that is more than fifty thousandths more confident than what is
/// kept always wins, and evidence that is fifty thousandths less confident or
/// more never does; in between, power decides.
pub proof fn law_fine_tuning_goes_by_confidence_first(
    s: FineTuneSelector,
    confidence: u32,
    rssi_mdbm: i32,
)
    ensures
        s.kept() is None ==> s.beats(confidence, rssi_mdbm),
        s.kept() matches Some(k) ==> {
            &&& confidence >= k.1 + 51 ==> s.beats(confidence, rssi_mdbm)
            &&& confidence + 50 <= k.1 ==> !s.beats(confidence, rssi_mdbm)
            &&& k.1 < confidence + 50 && confidence <= k.1 + 50 ==> (s.beats(confidence, rssi_mdbm)
                <==> k.2 < rssi_mdbm)
        },
{
}

/// A channel is snapped to from 15 MHz away at most.
pub proof fn law_snapping_reaches_fifteen_megahertz()
    ensures
        snap_tolerance() == 15 * 1_000_000,
{
}

/// At a rate that is not narrow, exactly every so many sweeps one is
/// sensitive: the last of each round, so that the first ones are fast. With
/// none to come, all are fast.
pub proof fn law_last_sweep_of_a_round_is_sensitive(
    policy: SweepPolicy,
    n: int,
    sample_rate_hz: Option<i64>,
)
    requires
        0 <= n,
        sample_rate_hz is None || sample_rate_hz.unwrap() <= 0 || sample_rate_hz.unwrap()
            > policy.narrow_capture_max_rate_hz,
    ensures
        policy.sensitive_every == 0 ==> policy.spends(n, sample_rate_hz) == policy.fast,
        policy.sensitive_every > 0 && (n + 1) % policy.sensitive_every as int == 0
            ==> policy.spends(n, sample_rate_hz) == policy.sensitive,
        policy.sensitive_every > 0 && (n + 1) % policy.sensitive_every as int != 0
            ==> policy.spends(n, sample_rate_hz) == policy.fast,
{
    if policy.sensitive_every > 0 {
        let e = policy.sensitive_every as int;
        assert(n % e == e - 1 <==> (n + 1) % e == 0) by {
            let q = n / e;
            let r = n % e;
            assert(n == e * q + r && 0 <= r < e) by (nonlinear_arith)
                requires
                    e > 0,
                    q == n / e,
                    r == n % e,
            ;
            if r == e - 1 {
                assert(n + 1 == e * (q + 1)) by (nonlinear_arith)
                    requires
                        n == e * q + r,
                        r == e - 1,
                ;
                vstd::arithmetic::div_mod::lemma_fundamental_div_mod_converse(
                    n + 1,
                    e,
                    q + 1,
                    0,
                );
            } else {
                vstd::arithmetic::div_mod::lemma_fundamental_div_mod_converse(
                    n + 1,
                    e,
                    q,
                    r + 1,
                );
            }
        }
    }
}

/// At a narrow rate every sweep has the sensitive one's packets, at least one,
/// within the fast one's dwell.
pub proof fn law_narrow_captures_integrate_always(
    policy: SweepPolicy,
    n: int,
    sample_rate_hz: i64,
)
    requires
        0 < sample_rate_hz <= policy.narrow_capture_max_rate_hz,
    ensures
        policy.spends(n, Some(sample_rate_hz)).dwell == policy.fast.dwell,
        policy.spends(n, Some(sample_rate_hz)).packets_per_hop >= 1,
        policy.sensitive.packets_per_hop >= 1 ==> policy.spends(
            n,
            Some(sample_rate_hz),
        ).packets_per_hop == policy.sensitive.packets_per_hop,
{
}

/// Rates up to 30.72 MHz are fed three times the packets of faster ones.
pub proof fn law_narrow_rates_are_fed_more(narrow: i64, wide: i64)
    requires
        0 < narrow <= 30_720_000,
        30_720_000 < wide,
    ensures
        packets_at(Some(narrow)) == 3 * packets_at(Some(wide)),
        packets_at(Some(wide)) == 2,
        packets_at(None) == packets_at(Some(wide)),
{
}

/// Evidence counts from more than a tenth of full confidence on.
pub proof fn law_weak_evidence_settles_nothing(s: FineTuneSelector)
    ensures
        s.settled() is Some <==> s.kept() is Some && 10 * s.kept().unwrap().1 > 1_000,
        s.settled() is Some ==> s.settled() == s.kept(),
{
}

} // verus!
