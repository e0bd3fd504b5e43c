use orecchiette_fpv_analog::bands::get_all_channels;
use orecchiette_fpv_analog::detector::{AnalogFpvDetector, FpvDetector};
use orecchiette_fpv_analog::scanner::{
    detect_packets_per_hop, plan_tune_centers, receiver_detector, CandidatePolicy,
    FineTuneSelector, FpvScanner, ScanProgress, ScanSelector, SweepBudget, SweepPolicy,
    DETECT_PACKETS_NARROW, DETECT_PACKETS_PER_HOP, RECEIVER_MIN_CONFIDENCE,
};
use orecchiette_fpv_analog::types::{DetectionResult, SignalType};
use std::collections::HashSet;
use std::time::Duration;

const MHZ: i64 = 1_000_000;

/// Centres come in half-hertz.
fn hz(centers: Vec<i64>) -> Vec<i64> {
    centers.into_iter().map(|c| c / 2).collect()
}

/// A span too narrow to group anything must degrade to one tune per channel
/// rather than silently dropping channels.
#[test]
fn tune_planner_degrades_to_one_tune_per_channel_when_span_is_zero() {
    let channels = vec![5_658 * MHZ, 5_695 * MHZ, 5_732 * MHZ];
    let hops = plan_tune_centers(&channels, 0);
    assert_eq!(hz(hops), channels);
}

#[test]
fn tune_planner_handles_degenerate_input() {
    assert!(plan_tune_centers(&vec![], 50 * MHZ).is_empty());
    // Duplicates collapse rather than each claiming a tune.
    assert_eq!(
        plan_tune_centers(&vec![5_800 * MHZ, 5_800 * MHZ, 5_800 * MHZ], 0).len(),
        1
    );
    let hops = plan_tune_centers(&vec![5_800 * MHZ, 5_810 * MHZ], 50 * MHZ);
    assert_eq!(hops.len(), 1);
}

#[test]
fn a_plan_covers_every_channel_with_few_tunes() {
    let channels: Vec<i64> = get_all_channels()
        .iter()
        .map(|c| c.frequency_hz as i64)
        .collect();
    let hops = plan_tune_centers(&channels, 40 * MHZ);
    for c in &channels {
        assert!(hops.iter().any(|h| (h - 2 * c).abs() <= 40 * MHZ), "{c}");
    }
    assert!(hops.len() < channels.len());
}

/// A packet is a fixed number of samples, so its worth depends on the rate.
#[test]
fn a_narrow_capture_gets_the_integration_budget() {
    assert_eq!(detect_packets_per_hop(Some(15_360_000)), DETECT_PACKETS_NARROW);
    assert_eq!(detect_packets_per_hop(Some(30_720_000)), DETECT_PACKETS_NARROW);
}

#[test]
fn a_wide_capture_keeps_the_fast_pass() {
    assert_eq!(detect_packets_per_hop(Some(61_440_000)), DETECT_PACKETS_PER_HOP);
    assert!(
        detect_packets_per_hop(Some(61_440_000)) < detect_packets_per_hop(Some(15_360_000)),
        "a wide capture must spend fewer passes than a narrow one"
    );
}

/// A nonsense rate must not silently pick the expensive branch.
#[test]
fn a_degenerate_rate_keeps_the_fast_pass() {
    assert_eq!(detect_packets_per_hop(Some(0)), DETECT_PACKETS_PER_HOP);
    assert_eq!(detect_packets_per_hop(Some(-1)), DETECT_PACKETS_PER_HOP);
    assert_eq!(detect_packets_per_hop(None), DETECT_PACKETS_PER_HOP);
}

#[test]
fn sweep_requires_a_full_budget_for_every_hop_and_ignores_foreign_headers() {
    let mut progress = ScanProgress::new(&vec![2 * 1_000 * MHZ, 2 * 2_000 * MHZ], 2);
    assert!(progress.observe(3_000_000_000).is_none());
    assert!(!progress.observe(1_000_000_000).unwrap().sweep_complete);
    assert!(!progress.observe(2_000_000_000).unwrap().sweep_complete);
    assert!(!progress.observe(2_000_000_000).unwrap().sweep_complete);
    assert!(progress.observe(2_000_000_000).is_none());
    assert!(!progress.observe(1_000_000_000).unwrap().sweep_complete);
    assert!(progress.observe(1_000_000_000).unwrap().sweep_complete);
    progress.reset_sweep();
    assert!(progress.observe(1_000_000_000).is_none()); // drain final dwell
    assert!(progress.observe(2_000_000_000).unwrap().first_packet);
}

#[test]
fn a_single_tune_continues_after_each_sweep() {
    let mut progress = ScanProgress::new(&vec![2 * 5_865 * MHZ], 2);
    for _ in 0..3 {
        assert!(!progress.observe(5_865_000_000).unwrap().sweep_complete);
        assert!(progress.observe(5_865_000_000).unwrap().sweep_complete);
        progress.reset_sweep();
    }
}

#[test]
fn a_budget_of_zero_counts_as_one() {
    let mut progress = ScanProgress::new(&vec![-10, 2 * 5_865 * MHZ], 0);
    let o = progress.observe(5_865_000_000).unwrap();
    assert!(o.first_packet && o.sweep_complete);
}

fn hit(frequency_hz: u64, rssi_mdbm: Option<i32>) -> DetectionResult {
    DetectionResult {
        channel: None,
        frequency_hz,
        rssi_mdbm,
        confidence: 800,
        bandwidth_hz: 14_000_000,
        signal_type: SignalType::AnalogVideoUnknown,
    }
}

#[test]
fn scan_selection_preserves_skips_and_off_grid_skip_tolerance() {
    let skipped = HashSet::from([5_865_000_000, 6_100_000_000]);
    let mut nearest = ScanSelector::new(&skipped, CandidatePolicy::NearestChannel);
    assert!(!nearest.consider(&hit(5_865_000_000, Some(-10_000))));
    assert!(!nearest.consider(&hit(6_102_000_000, Some(-10_000))));
    assert!(nearest.consider(&hit(5_800_000_000, Some(-50_000))));
    assert!(!nearest.consider(&hit(5_845_000_000, Some(-60_000))));
    assert!(!nearest.consider(&hit(5_845_000_000, None)));
    assert_eq!(nearest.best().unwrap().0, 5_800_000_000);
    let mut any = ScanSelector::new(&skipped, CandidatePolicy::AnyUnskippedChannel);
    assert!(any.consider(&hit(5_865_000_000, Some(-10_000))));
    assert_eq!(any.fallback_frequency(Some(5_865_000_000)), Some(5_866_000_000)); // other nearby channels still allowed
}

#[test]
fn fallbacks_are_never_skipped() {
    let skipped: HashSet<u64> = HashSet::from([5_865_000_000, 5_866_000_000, 7_000_000_000]);
    for policy in [
        CandidatePolicy::NearestChannel,
        CandidatePolicy::AnyUnskippedChannel,
    ] {
        let s = ScanSelector::new(&skipped, policy);
        for f in (5_850..5_880).chain(6_980..7_020) {
            if let Some(r) = s.fallback_frequency(Some(f * MHZ)) {
                assert!(!skipped.contains(&(r as u64)), "{f}");
            }
        }
        assert_eq!(s.fallback_frequency(None), None);
        assert_eq!(s.fallback_frequency(Some(8_000 * MHZ)), Some(8_000 * MHZ));
        assert!(!s.refinement_candidates(5_865 * MHZ).contains(&5_865_000_000));
    }
}

#[test]
fn sensitive_cadence_is_configured_by_backend_costs() {
    let policy = SweepPolicy {
        fast: SweepBudget::flat(Duration::from_millis(10), 2),
        sensitive: SweepBudget::flat(Duration::from_millis(50), 6),
        sensitive_every: 4,
        narrow_capture_max_rate_hz: 30_720_000,
    };
    assert_eq!(
        (0..8)
            .map(|n| policy.budget(n, Some(61_440_000)).packets_per_hop)
            .collect::<Vec<_>>(),
        [2, 2, 2, 6, 2, 2, 2, 6]
    );
    assert_eq!(policy.budget(3, Some(15_360_000)).dwell, Duration::from_millis(10));
    let disabled = SweepPolicy {
        sensitive_every: 0,
        ..policy
    };
    assert_eq!(disabled.budget(3, Some(61_440_000)).packets_per_hop, 2);
}

#[test]
fn fine_tuning_rejects_weak_sync_and_uses_rssi_only_near_equal_confidence() {
    let mut selector = FineTuneSelector::default();
    selector.consider(Some(5_865 * MHZ), Some(50), Some(-40_000));
    assert!(selector.best().is_none());
    selector.consider(Some(5_866 * MHZ), Some(800), Some(-60_000));
    selector.consider(Some(5_860 * MHZ), Some(600), Some(-20_000));
    assert_eq!(selector.best().unwrap().0, 5_866 * MHZ);
    selector.consider(Some(5_865 * MHZ), Some(790), Some(-40_000));
    assert_eq!(selector.best().unwrap().0, 5_865 * MHZ);
    selector.consider(None, Some(1000), Some(0));
    selector.consider(Some(1), None, Some(0));
    selector.consider(Some(1), Some(1000), None);
    assert_eq!(selector.best().unwrap().0, 5_865 * MHZ);
}

#[test]
fn a_receiver_accepts_unresolved_video() {
    let d = receiver_detector();
    assert_eq!(d.min_confidence, RECEIVER_MIN_CONFIDENCE);
    assert_eq!(d.energy_ratio, AnalogFpvDetector::default().energy_ratio);
    assert!(d.min_confidence < 600);
}

/// Reports one hit wherever the capture is not silent.
struct Loud;

impl FpvDetector<i32> for Loud {
    fn detect_from_iq(&self, iq: &[i32], center_freq: u64, _sample_rate: u32) -> Vec<DetectionResult> {
        if iq.iter().any(|&x| x != 0) {
            vec![hit(center_freq, Some(-30_000))]
        } else {
            Vec::new()
        }
    }
}

#[test]
fn a_scan_tags_hits_with_the_scanned_channel() {
    let channels = get_all_channels();
    let wanted = channels[3];
    let scanner = FpvScanner::with_channels(Loud, vec![channels[2], wanted]);
    let mut tuned = Vec::new();
    let found = scanner.scan(
        |f| {
            tuned.push(f);
            if f == wanted.frequency_hz { vec![0, 1] } else { vec![0, 0] }
        },
        20_000_000,
    );
    assert_eq!(tuned, vec![channels[2].frequency_hz, wanted.frequency_hz]);
    assert_eq!(found.len(), 1);
    assert_eq!(found[0].channel, Some(wanted));
}

#[test]
fn planned_centres_ascend_within_the_channels() {
    let channels = vec![5_900 * MHZ, 5_658 * MHZ, 5_695 * MHZ, 5_732 * MHZ, 5_658 * MHZ];
    let centers = plan_tune_centers(&channels, 40 * MHZ);
    // The first two channels share a tune; centres are in half-hertz.
    assert_eq!(centers, vec![11_353 * MHZ, 11_464 * MHZ, 11_800 * MHZ]);
    assert!(centers.windows(2).all(|w| w[0] < w[1]));
    assert!(centers.iter().all(|c| (2 * 5_658 * MHZ..=2 * 5_900 * MHZ).contains(c)));
}

#[test]
fn foreign_packets_do_not_break_a_dwell() {
    let mut progress = ScanProgress::new(&vec![2 * 1_000 * MHZ, 2 * 2_000 * MHZ], 2);
    assert!(progress.observe(1_000_000_000).unwrap().first_packet);
    assert!(progress.observe(7).is_none());
    assert!(!progress.observe(1_000_000_000).unwrap().first_packet);
    assert!(progress.observe(1_000_000_000).is_none());
    progress.observe(2_000_000_000);
    assert!(progress.observe(2_000_000_000).unwrap().sweep_complete);
    // Complete it stays, until the next sweep.
    assert!(progress.observe(1_000_000_000).unwrap().sweep_complete);
}

#[test]
fn the_best_hit_is_the_first_of_the_strongest() {
    let skipped = HashSet::from([5_865_000_000]);
    let mut s = ScanSelector::new(&skipped, CandidatePolicy::NearestChannel);
    let series = [
        (5_800_000_000, Some(-60_000), true),
        (5_865_000_000, Some(-10_000), false),
        (5_740_000_000, Some(-40_000), true),
        (5_760_000_000, Some(-40_000), false),
        (5_780_000_000, None, false),
        (5_780_000_000, Some(-50_000), false),
    ];
    for (frequency_hz, rssi, becomes_best) in series {
        assert_eq!(s.consider(&hit(frequency_hz, rssi)), becomes_best, "{frequency_hz}");
    }
    let kind = SignalType::AnalogVideoUnknown;
    assert_eq!(s.best(), Some((5_740_000_000, -40_000, kind)));
    let mut none = ScanSelector::new(&skipped, CandidatePolicy::NearestChannel);
    assert!(!none.consider(&hit(5_865_000_000, Some(0))));
    assert_eq!(none.best(), None);
}

#[test]
fn a_sweep_that_starts_over_counts_from_the_retune() {
    let mut progress = ScanProgress::new(&vec![2 * 1_000 * MHZ, 2 * 2_000 * MHZ], 2);
    let mut counted = |f: u64| progress.observe(f).map(|o| o.sweep_complete);
    for f in [1_000_000_000, 1_000_000_000, 2_000_000_000] {
        assert_eq!(counted(f), Some(false));
    }
    assert_eq!(counted(2_000_000_000), Some(true));
    progress.reset_sweep();
    let mut counted = |f: u64| progress.observe(f).map(|o| o.sweep_complete);
    assert_eq!(counted(2_000_000_000), None);
    assert_eq!(counted(3_000_000_000), None);
    assert_eq!(counted(1_000_000_000), Some(false));
    // Half a dwell is gone with the retune.
    assert_eq!(counted(2_000_000_000), Some(false));
    assert_eq!(counted(1_000_000_000), Some(false));
    assert_eq!(counted(1_000_000_000), Some(false));
    assert_eq!(counted(2_000_000_000), Some(false));
    // In the middle of a dwell it goes on with that.
    progress.reset_sweep();
    let mut counted = |f: u64| progress.observe(f).map(|o| o.sweep_complete);
    assert_eq!(counted(2_000_000_000), Some(false));
    assert_eq!(counted(1_000_000_000), Some(false));
    assert_eq!(counted(1_000_000_000), Some(true));
}
