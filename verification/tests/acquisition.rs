use num_complex::Complex;
use orecchiette_fpv_analog::acquisition::{
    analyze_channel_standard, analyze_tuned_channel, carrier_for_decoded_channel, resolve_standard,
    validate_probe, AcquisitionRecord, LockState, StandardEvidence, LOCK_EMPTY_CHECKS,
    LOCK_PROVISIONAL_CHECKS,
};
use orecchiette_fpv_analog::bands::snap_to_nearest_fpv_channel;
use orecchiette_fpv_analog::types::{DetectionResult, SignalType};

/// A healthy decode must never be released.
#[test]
fn a_decoding_carrier_holds_lock_indefinitely() {
    let mut lock = LockState::default();
    for i in 0..1000 {
        assert!(
            !lock.observe(true, true),
            "released a decoding carrier at check {i}"
        );
    }
}

/// A horizontal-sync train with no vertical sync is detected forever and
/// reconstructs no frame.
#[test]
fn a_detected_but_undecodable_carrier_is_eventually_released() {
    let mut lock = LockState::default();
    let mut checks = 0;
    while !lock.observe(true, false) {
        checks += 1;
        assert!(checks < 100, "never released an undecodable carrier");
    }
    assert_eq!(checks + 1, LOCK_PROVISIONAL_CHECKS);
}

/// A hit that is not ours must not keep this channel alive.
#[test]
fn a_hit_elsewhere_does_not_hold_our_channel() {
    let mut lock = LockState::default();
    // Someone else's strong, decodable signal.
    for _ in 0..LOCK_EMPTY_CHECKS - 1 {
        assert!(!lock.observe(false, true));
    }
    assert!(
        lock.observe(false, true),
        "another channel's detection kept ours locked"
    );
}

/// A miss, then the carrier returns without a field, then another miss: the
/// two misses are not consecutive.
#[test]
fn non_consecutive_misses_do_not_release_the_channel() {
    let mut lock = LockState::default();
    assert!(!lock.observe(false, true), "a single miss released");
    assert!(!lock.observe(true, false), "a provisional check released");
    assert!(
        !lock.observe(false, true),
        "two non-consecutive misses released the channel"
    );

    // A decoded field clears both counters, so an isolated miss between
    // good checks can repeat indefinitely.
    for _ in 0..50 {
        assert!(!lock.observe(true, true));
        assert!(!lock.observe(false, true), "an isolated miss released");
    }
}

/// Strictly consecutive misses still release, on the documented count.
#[test]
fn consecutive_misses_still_release() {
    let mut lock = LockState::default();
    for _ in 0..LOCK_EMPTY_CHECKS - 1 {
        assert!(!lock.observe(false, false));
    }
    assert!(lock.observe(false, false));
}

/// An undecodable carrier still runs out its own budget even though it keeps
/// clearing the miss counter.
#[test]
fn a_provisional_carrier_still_times_out() {
    let mut lock = LockState::default();
    for _ in 0..LOCK_PROVISIONAL_CHECKS - 1 {
        assert!(!lock.observe(true, false));
    }
    assert!(lock.observe(true, false));
}

/// A check that sees both clears the provisional count.
#[test]
fn a_field_arriving_clears_the_provisional_count() {
    let mut lock = LockState::default();
    for _ in 0..LOCK_PROVISIONAL_CHECKS - 1 {
        assert!(!lock.observe(true, false));
    }
    assert!(!lock.observe(true, true), "a good check should recover");
    // Full budget available again.
    for _ in 0..LOCK_PROVISIONAL_CHECKS - 1 {
        assert!(!lock.observe(true, false));
    }
}

/// Two transmitters, 5800 and 5820 MHz, captured at 5800: the picture is
/// labelled after the one that the converter passes.
#[test]
fn refinement_labels_the_carrier_being_decoded_not_the_loudest() {
    let tuned = 5_800_000_000;
    let passband = 7_000_000; // 5 MHz deviation + luma headroom
    assert_eq!(
        carrier_for_decoded_channel(&[5_800_000_000, 5_820_000_000], tuned, passband),
        Some(5_800_000_000)
    );
}

/// Order must not decide it either.
#[test]
fn refinement_is_independent_of_detection_order() {
    let tuned = 5_800_000_000;
    assert_eq!(
        carrier_for_decoded_channel(&[5_820_000_000, 5_800_000_000], tuned, 7_000_000),
        carrier_for_decoded_channel(&[5_800_000_000, 5_820_000_000], tuned, 7_000_000)
    );
}

/// A real offset inside the passband is still adopted.
#[test]
fn refinement_adopts_a_carrier_offset_inside_the_passband() {
    // Tuned to F7 (5860) with the carrier really near A1 (5865).
    let got = carrier_for_decoded_channel(&[5_863_980_000], 5_860_000_000, 7_000_000);
    assert_eq!(got, Some(5_863_980_000));
    assert_eq!(snap_to_nearest_fpv_channel(got.unwrap()), 5_865_000_000);
}

/// Nothing the decoder can see means no refinement, not a guess.
#[test]
fn refinement_declines_when_every_candidate_is_out_of_band() {
    assert_eq!(
        carrier_for_decoded_channel(&[5_820_000_000, 5_780_000_000], 5_800_000_000, 7_000_000),
        None
    );
    assert_eq!(
        carrier_for_decoded_channel(&[], 5_800_000_000, 7_000_000),
        None
    );
}

/// Holdover frames must not count as observed timing: the channel is still
/// released after the provisional timeout.
#[test]
fn holdover_fields_do_not_prevent_undecodable_carrier_timeout() {
    let mut lock = LockState::default();
    let mut checks = 0;
    let observed_timing_fields = 0u64;
    let mut frames_at_last_check = 0u64;

    while checks < 100 {
        let decoding = observed_timing_fields > frames_at_last_check;
        frames_at_last_check = observed_timing_fields;
        if lock.observe(true, decoding) {
            break;
        }
        checks += 1;
    }
    assert_eq!(
        checks + 1,
        LOCK_PROVISIONAL_CHECKS,
        "holdover fields kept the channel locked"
    );
}

#[test]
fn acquisition_discards_a_gap_and_bounds_record_memory() {
    let mut record = AcquisitionRecord::new(1000);
    record.push(&[Complex::new(1.0f32, 0.0); 20], false);
    assert!(!record.is_ready());
    record.push(&[Complex::new(2.0, 0.0); 30], true);
    assert!(record.is_ready());
    assert_eq!(record.samples(), &[Complex::new(2.0, 0.0); 25]);
    record.push(&[Complex::new(3.0, 0.0); 30], false);
    assert_eq!(record.samples().len(), 25);
}

fn hit(frequency_hz: u64) -> DetectionResult {
    DetectionResult {
        channel: None,
        frequency_hz,
        confidence: 800,
        rssi_mdbm: Some(-40_000),
        bandwidth_hz: 14_000_000,
        signal_type: SignalType::AnalogVideoNtsc,
    }
}

#[test]
fn detections_count_only_near_the_tuned_carrier() {
    let mut lock = LockState::default();
    let far = [hit(5_820_000_000)];
    let near = [hit(5_820_000_000), hit(5_810_000_000)];
    for _ in 0..100 {
        assert!(!lock.observe_detections(&near, 5_800_000_000, true));
    }
    assert!(!lock.observe_detections(&far, 5_800_000_000, true));
    assert!(lock.observe_detections(&far, 5_800_000_000, true));
}

#[test]
fn a_named_standard_is_not_measured_again() {
    let lines: Vec<i32> = ntsc_lines(25_000_000);
    let resolve = |tagged, demod: &[i32]| {
        resolve_standard(
            tagged,
            demod,
            25_000_000,
            SignalType::AnalogVideoPal,
            |s: &[i32]| s.to_vec(),
        )
    };
    let named = resolve(SignalType::AnalogVideoPal, &lines);
    assert_eq!(named.standard, SignalType::AnalogVideoPal);
    assert_eq!(named.evidence, StandardEvidence::Classifier);
    let timed = resolve(SignalType::AnalogVideoUnknown, &lines);
    assert_eq!(timed.standard, SignalType::AnalogVideoNtsc);
    assert_eq!(timed.evidence, StandardEvidence::LineTiming);
    let fallen = resolve(SignalType::AnalogVideoUnknown, &[]);
    assert_eq!(fallen.standard, SignalType::AnalogVideoPal);
    assert_eq!(fallen.evidence, StandardEvidence::Fallback);
}

#[test]
fn probes_are_validated_before_anything_runs() {
    assert!(validate_probe(30_720_000, Some(3_000_000), Some(0)).is_ok());
    assert!(validate_probe(0, Some(3_000_000), Some(0)).is_err());
    assert!(validate_probe(30_720_000, None, Some(0)).is_err());
    assert!(validate_probe(30_720_000, Some(3_000_000), None).is_err());
    let r = analyze_tuned_channel(
        &[0i32],
        Some(5_865_000_000),
        0,
        Some(3_000_000),
        SignalType::Unknown,
        |_, _, _| panic!("detected"),
        |_, _| panic!("classified"),
        |_, _, _| panic!("filtered"),
        |_| panic!("demodulated"),
    );
    assert!(r.is_err());
}

/// Demodulated lines at the NTSC rate.
fn ntsc_lines(rate: u32) -> Vec<i32> {
    let period = rate as f64 / 15_734.0;
    (0..(80.0 * period) as usize)
        .map(|i| {
            let at = i as f64 % period / rate as f64;
            if at < 4.7e-6 {
                -100_000_000
            } else {
                0
            }
        })
        .collect()
}

#[test]
fn a_tuned_channel_is_labelled_by_its_own_carrier() {
    let lines = ntsc_lines(25_000_000);
    let total = lines.len();
    let r = analyze_tuned_channel(
        &lines,
        Some(5_865_000_000),
        25_000_000,
        Some(3_000_000),
        SignalType::AnalogVideoPal,
        |head, center, rate| {
            // Only the head is searched, around the tuned frequency.
            assert_eq!((head.len(), center, rate), (65_536, 5_865_000_000, 25_000_000));
            vec![5_880_000_000, 5_866_000_000]
        },
        |record, rate| {
            assert_eq!((record.len(), rate), (total, 25_000_000));
            (SignalType::AnalogVideoUnknown, 600)
        },
        |record, offset, passband| {
            assert_eq!((offset, passband), (0, 5_000_000));
            record.to_vec()
        },
        |baseband| baseband.to_vec(),
    )
    .unwrap();
    assert_eq!(r.measured_carrier_hz, Some(5_866_000_000));
    assert_eq!(r.standard.standard, SignalType::AnalogVideoNtsc);
    assert_eq!(r.standard.evidence, StandardEvidence::LineTiming);
    assert_eq!(r.classifier_confidence, 600);
    let (s, c) = analyze_channel_standard(
        &lines,
        Some(7),
        25_000_000,
        Some(3_000_000),
        SignalType::AnalogVideoPal,
        |_, _| (SignalType::AnalogVideoNtsc, 950),
        |record, offset, passband| {
            assert_eq!((offset, passband), (7, 5_000_000));
            record.to_vec()
        },
        |_| panic!("demodulated"),
    )
    .unwrap();
    assert_eq!((s.standard, c), (SignalType::AnalogVideoNtsc, 950));
    let (s, c) = analyze_channel_standard(
        &lines,
        Some(7),
        25_000_000,
        Some(3_000_000),
        SignalType::AnalogVideoPal,
        |_, _| (SignalType::Unknown, 0),
        |record, _, _| record.to_vec(),
        |_| panic!("demodulated"),
    )
    .unwrap();
    assert_eq!(s.evidence, StandardEvidence::Fallback);
    assert_eq!((s.standard, c), (SignalType::AnalogVideoPal, 0));
}

#[test]
fn a_series_of_checks_releases_by_its_counts() {
    // Whether our carrier was there, whether it decoded, and the release.
    let mut lock = LockState::default();
    let mut checks = vec![(true, false, false); 4];
    checks.push((false, true, false));
    checks.extend(vec![(true, false, false); 3]);
    checks.push((false, false, false));
    // The eighth sighting without a field, misses in between or not.
    checks.push((true, false, true));
    checks.push((true, false, true));
    checks.push((true, true, false));
    checks.push((true, false, false));
    checks.push((false, true, false));
    checks.push((false, true, true));
    checks.push((false, false, true));
    for (i, (on_carrier, decoding, release)) in checks.into_iter().enumerate() {
        assert_eq!(lock.observe(on_carrier, decoding), release, "check {i}");
    }
}
