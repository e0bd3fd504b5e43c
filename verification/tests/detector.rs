use orecchiette_fpv_analog::detector::carrier::{integration_key, locate};
use orecchiette_fpv_analog::detector::confirm::{
    apply_vbi_confidence_tier, cepstral_window, confirm_on_wide_cut, needs_wide_confirmation,
    verify_cepstrum,
};
use orecchiette_fpv_analog::detector::integrator::{fold, SpectralIntegrator};
use orecchiette_fpv_analog::detector::line_rate::{classify_pal_ntsc_time_domain, standard_at_rate};
use orecchiette_fpv_analog::detector::results::{dedup_by_frequency, sort_by_frequency};
use orecchiette_fpv_analog::detector::search::{CaptureDetector, Cut};
use orecchiette_fpv_analog::detector::spectrum::{can_classify, classify_spectrum};
use orecchiette_fpv_analog::detector::sweep::{
    cluster_hits, decimated_rate, decimation_factor, probe_offsets, probe_target_rate,
    sweep_strategy, ProbeEnergy, SweepHit, SweepStrategy,
};
use orecchiette_fpv_analog::detector::{AnalogFpvDetector, FpvDetector};
use orecchiette_fpv_analog::levels::SyncLevels;
use orecchiette_fpv_analog::types::{DetectionResult, SignalType};
use orecchiette_fpv_analog::vbi::FieldSyncEvidence;
use rustfft::num_complex::Complex;
use rustfft::FftPlanner;
use std::f64::consts::TAU;

fn nanoturns(rad: f64) -> i32 {
    (rad / TAU * 1e9).round() as i32
}

fn det(frequency_hz: u64, confidence: u32, rssi_dbm: i32) -> DetectionResult {
    DetectionResult {
        channel: None,
        frequency_hz,
        confidence,
        rssi_mdbm: Some(1_000 * rssi_dbm),
        bandwidth_hz: 10_000_000,
        signal_type: SignalType::AnalogVideoPal,
    }
}

#[test]
fn dedup_does_not_chain_a_whole_band_into_one_detection() {
    let out = dedup_by_frequency(&vec![
        det(5_740_000_000, 800, -50),
        det(5_760_000_000, 900, -40),
        det(5_780_000_000, 950, -30),
        det(5_800_000_000, 850, -35),
    ]);
    assert_eq!(out.len(), 4);
    assert_eq!(
        out.iter().map(|r| r.frequency_hz).collect::<Vec<_>>(),
        vec![5_740_000_000, 5_760_000_000, 5_780_000_000, 5_800_000_000]
    );
    assert_eq!(
        out.iter().map(|r| r.confidence).collect::<Vec<_>>(),
        vec![800, 900, 950, 850]
    );
}

#[test]
fn dedup_group_width_is_bounded_by_the_window_not_the_input_span() {
    let hits: Vec<DetectionResult> = (0..8)
        .map(|i| det(5_700_000_000 + i * 20_000_000, 800, -50))
        .collect();
    let out = dedup_by_frequency(&hits);
    assert!(out.len() >= 4, "collapsed to {} group(s)", out.len());
    assert_eq!(out.len(), 8);
}

#[test]
fn dedup_still_merges_genuine_duplicates_and_keeps_the_strongest() {
    let out = dedup_by_frequency(&vec![
        det(5_800_000_000, 800, -50),
        det(5_800_500_000, 950, -30),
    ]);
    assert_eq!(out.len(), 1);
    assert_eq!(out[0].frequency_hz, 5_800_500_000);
    assert_eq!(out[0].confidence, 950);

    let out = dedup_by_frequency(&vec![
        det(5_800_000_000, 800, -50),
        det(5_801_000_000, 800, -20),
    ]);
    assert_eq!(out.len(), 1);
    assert_eq!(out[0].rssi_mdbm, Some(-20_000));
}

#[test]
fn a_chain_of_close_results_is_cut_at_its_anchor() {
    // Each a megahertz from the last: the third is too far from the first.
    let out = dedup_by_frequency(&vec![
        det(5_800_000_000, 800, -50),
        det(5_801_000_000, 900, -50),
        det(5_802_000_000, 850, -50),
    ]);
    assert_eq!(
        out.iter().map(|r| r.frequency_hz).collect::<Vec<_>>(),
        vec![5_801_000_000, 5_802_000_000]
    );
}

#[test]
fn results_are_sorted_and_filtered() {
    let mut narrow = det(5_760_000_000, 900, -40);
    narrow.bandwidth_hz = 999_999;
    let all = vec![
        det(5_800_000_000, 800, -50),
        det(5_740_000_000, 699, -50),
        narrow,
        det(5_780_000_000, 700, -50),
    ];
    let sorted: Vec<u64> = sort_by_frequency(&all).iter().map(|r| r.frequency_hz).collect();
    assert_eq!(
        sorted,
        vec![5_740_000_000, 5_760_000_000, 5_780_000_000, 5_800_000_000]
    );
    let kept: Vec<u64> = AnalogFpvDetector::default()
        .finish(&all)
        .iter()
        .map(|r| r.frequency_hz)
        .collect();
    assert_eq!(kept, vec![5_780_000_000, 5_800_000_000]);
}

/// Leading cepstral magnitudes of a spectrum.
fn cepstrum(mags: &[i64], half: usize) -> Vec<i64> {
    let mut log_power: Vec<Complex<f64>> = mags
        .iter()
        .map(|&m| {
            let m = m as f64 * 1e-6;
            Complex::new((m * m + 1e-12).ln(), 0.0)
        })
        .collect();
    FftPlanner::new()
        .plan_fft_inverse(mags.len())
        .process(&mut log_power);
    log_power
        .iter()
        .take(half)
        .map(|c| (c.re.abs() / mags.len() as f64 * 1e12).round() as i64)
        .collect()
}

#[test]
fn verify_cepstrum_unit_test() {
    let sr = 10_000_000u32;
    let line_hz = 15625.0f32;
    let fft_len = 8192;
    let bin_hz = sr as f32 / fft_len as f32;
    let mut mags = vec![1_000i64; fft_len];
    for k in 1..=10 {
        let bin = (k as f32 * line_hz / bin_hz).round() as usize;
        if bin < fft_len / 2 {
            mags[bin] = 100_000_000;
            mags[fft_len - bin] = 100_000_000;
        }
    }
    let w = cepstral_window(SignalType::AnalogVideoPal, fft_len, fft_len, sr).unwrap();
    assert!(
        verify_cepstrum(&cepstrum(&mags, w.half), w),
        "harmonic comb should pass cepstrum check"
    );
    let flat = vec![1_000_000i64; fft_len];
    assert!(
        !verify_cepstrum(&cepstrum(&flat, w.half), w),
        "flat spectrum should fail cepstrum check"
    );
}

#[test]
fn the_cepstral_window_surrounds_the_line() {
    // A PAL line is 640 samples, give or take two percent.
    let w = cepstral_window(SignalType::AnalogVideoPal, 8192, 8192, 10_000_000).unwrap();
    assert_eq!((w.half, w.start, w.end), (4096, 627, 653));
    // An NTSC line is 636 samples; a standard not told apart is taken as PAL.
    let w = cepstral_window(SignalType::AnalogVideoNtsc, 8192, 8192, 10_000_000).unwrap();
    assert_eq!((w.start, w.end), (623, 649));
    let w = cepstral_window(SignalType::AnalogVideoUnknown, 8192, 8192, 10_000_000).unwrap();
    assert_eq!((w.start, w.end), (627, 653));
    // Too short to hold a line, or to tell anything.
    assert!(cepstral_window(SignalType::AnalogVideoPal, 1024, 1024, 10_000_000).is_none());
    assert!(cepstral_window(SignalType::AnalogVideoPal, 32, 32, 100_000).is_none());
}

fn make_synthetic_demod(sample_rate: u32, line_hz: f32, num_lines: usize) -> Vec<f64> {
    let spl = (sample_rate as f32 / line_hz).round() as usize;
    let sync_tip = (sample_rate as f32 * 4.7e-6) as usize;
    let total = spl * num_lines;
    let mut bb = vec![1.0f64; total];
    for line in 0..num_lines {
        let s = line * spl;
        for i in 0..sync_tip.min(total.saturating_sub(s)) {
            bb[s + i] = -1.0;
        }
    }
    bb
}

fn turned(radians: &[f64]) -> Vec<i32> {
    radians.iter().map(|&v| nanoturns(v)).collect()
}

fn classify_train(sample_rate: u32, line_hz: f32, num_lines: usize) -> Option<SignalType> {
    classify_pal_ntsc_time_domain(
        &turned(&make_synthetic_demod(sample_rate, line_hz, num_lines)),
        sample_rate,
    )
}

#[test]
fn time_domain_disambig_picks_pal_at_15625_hz() {
    assert_eq!(
        classify_train(25_000_000, 15625.0, 80),
        Some(SignalType::AnalogVideoPal)
    );
}

#[test]
fn time_domain_disambig_picks_ntsc_at_15734_hz() {
    assert_eq!(
        classify_train(25_000_000, 15734.0, 80),
        Some(SignalType::AnalogVideoNtsc)
    );
}

#[test]
fn time_domain_disambig_survives_click_outliers() {
    let sr = 25_000_000u32;
    let mut demod: Vec<f64> = make_synthetic_demod(sr, 15625.0, 80)
        .into_iter()
        .map(|v| (v - 1.0) * 0.25)
        .collect();
    let mut k = 917usize;
    while k < demod.len() {
        demod[k] = -std::f64::consts::PI;
        k += 917 + (k % 131);
    }
    assert_eq!(
        classify_pal_ntsc_time_domain(&turned(&demod), sr),
        Some(SignalType::AnalogVideoPal)
    );
}

#[test]
fn time_domain_disambig_is_dc_invariant() {
    let sr = 25_000_000u32;
    let demod: Vec<f64> = make_synthetic_demod(sr, 15734.0, 80)
        .into_iter()
        .map(|v| v + 1.5)
        .collect();
    assert_eq!(
        classify_pal_ntsc_time_domain(&turned(&demod), sr),
        Some(SignalType::AnalogVideoNtsc)
    );
}

#[test]
fn time_domain_disambig_returns_none_on_too_few_tips() {
    assert_eq!(classify_train(25_000_000, 15625.0, 3), None);
}

#[test]
fn time_domain_disambig_returns_none_on_midpoint_rate() {
    assert_eq!(classify_train(25_000_000, 15679.5, 80), None);
}

#[test]
fn time_domain_disambig_rejects_rates_far_from_both_standards() {
    assert_eq!(classify_train(25_000_000, 28_600.0, 200), None);
}

#[test]
fn time_domain_classifier_terminates_at_absurd_sample_rates() {
    let mut demod = vec![nanoturns(0.5); 300];
    for chunk in demod.chunks_mut(20) {
        chunk[0] = nanoturns(-0.4);
        chunk[1] = nanoturns(-0.4);
    }
    assert!(classify_pal_ntsc_time_domain(&demod, 20_000).is_none());
}

#[test]
fn a_rate_is_named_by_the_nearer_standard() {
    assert_eq!(
        standard_at_rate(15_625, 1, 1),
        Some(SignalType::AnalogVideoPal)
    );
    assert_eq!(
        standard_at_rate(15_734, 1, 1),
        Some(SignalType::AnalogVideoNtsc)
    );
    // Halfway between the two, and outside of what video can be.
    assert_eq!(standard_at_rate(15_680, 1, 1), None);
    assert_eq!(standard_at_rate(15_399, 1, 1), None);
    assert_eq!(standard_at_rate(16_001, 1, 1), None);
}

fn evidence(groups: usize, spacing_ok: bool, slice_field_periods: u64) -> FieldSyncEvidence {
    FieldSyncEvidence {
        groups,
        spacing_ok,
        slice_field_periods,
    }
}

#[test]
fn tier_boosts_strong_confirmed_hit() {
    let e = evidence(2, true, 4_000);
    assert_eq!(
        apply_vbi_confidence_tier(SignalType::AnalogVideoNtsc, 800, &e, false),
        950
    );
}

#[test]
fn tier_boosts_single_group_on_a_short_slice() {
    let e = evidence(1, false, 1_500);
    assert_eq!(
        apply_vbi_confidence_tier(SignalType::AnalogVideoPal, 800, &e, false),
        950
    );
}

#[test]
fn tier_does_not_boost_a_single_group_on_a_long_slice() {
    let e = evidence(1, false, 4_000);
    assert_eq!(
        apply_vbi_confidence_tier(SignalType::AnalogVideoNtsc, 800, &e, false),
        800
    );
}

#[test]
fn tier_promotes_standard_ambiguous_hit_when_confirmed() {
    let e = evidence(2, true, 4_000);
    assert_eq!(
        apply_vbi_confidence_tier(SignalType::AnalogVideoUnknown, 600, &e, false),
        750
    );
}

#[test]
fn tier_leaves_standard_ambiguous_hit_alone_when_unconfirmed() {
    let e = evidence(0, false, 4_000);
    assert_eq!(
        apply_vbi_confidence_tier(SignalType::AnalogVideoUnknown, 600, &e, false),
        600
    );
}

#[test]
fn tier_demotes_unconfirmed_strong_hit_only_when_flag_is_set() {
    let e = evidence(0, false, 3_000);
    assert_eq!(
        apply_vbi_confidence_tier(SignalType::AnalogVideoNtsc, 800, &e, false),
        800
    );
    assert_eq!(
        apply_vbi_confidence_tier(SignalType::AnalogVideoNtsc, 800, &e, true),
        600
    );
}

#[test]
fn tier_does_not_demote_a_short_slice_even_with_the_flag_set() {
    let e = evidence(0, false, 1_500);
    assert_eq!(
        apply_vbi_confidence_tier(SignalType::AnalogVideoNtsc, 800, &e, true),
        800
    );
}

#[test]
fn only_unconfirmed_video_is_confirmed_on_the_wide_cut() {
    assert!(needs_wide_confirmation(SignalType::AnalogVideoPal, 949));
    assert!(!needs_wide_confirmation(SignalType::AnalogVideoPal, 950));
    assert!(!needs_wide_confirmation(SignalType::WidebandDigital, 0));
    // A demoted hit is judged anew, and demoted again where it shows nothing.
    let nothing = evidence(0, false, 3_000);
    let ntsc = SignalType::AnalogVideoNtsc;
    assert_eq!(confirm_on_wide_cut(ntsc, 600, Some(nothing), true), 600);
    assert_eq!(confirm_on_wide_cut(ntsc, 600, Some(nothing), false), 800);
    assert_eq!(confirm_on_wide_cut(ntsc, 600, None, false), 600);
}

#[test]
fn integrator_resets_bucket_on_length_change_and_caps_bucket_count() {
    let mut integ = SpectralIntegrator::new(4);
    let a = vec![1_000_000i64; 64];
    let b = vec![3_000_000i64; 64];
    integ.accumulate(5_800_000_000, &a);
    let avg = integ.accumulate(5_800_000_000, &b);
    assert_eq!(avg[0], 2_000_000);

    let c = vec![7_000_000i64; 32];
    let after = integ.accumulate(5_800_000_000, &c);
    assert_eq!(after.len(), 32);
    assert_eq!(after[0], 7_000_000);

    let tiny = vec![0i64; 8];
    for k in 0..300i64 {
        integ.accumulate(k * 1_000_000, &tiny);
    }
    assert!(integ.bucket_count() <= 256);

    integ.reset();
    assert_eq!(integ.bucket_count(), 0);
}

#[test]
fn the_average_moves_on_once_the_window_is_full() {
    let mut integ = SpectralIntegrator::new(2);
    let mut last = Vec::new();
    for v in [8i64, 16, 32] {
        last = integ.accumulate(0, &[v]);
    }
    assert_eq!(last, vec![22]);
}

#[test]
fn the_average_is_the_plain_mean_at_first() {
    let mut integ = SpectralIntegrator::new(4);
    let mut averages = Vec::new();
    for v in [10i64, 13, 1, 1] {
        averages.push(integ.accumulate(-1, &[v, -v])[0]);
    }
    // 10, 23 / 2, 24 / 3 and 25 / 4, each to the nearest.
    assert_eq!(averages, vec![10, 12, 8, 6]);
    // Then a quarter of the total makes room for the next: 25 - 6 + 2.
    assert_eq!(integ.accumulate(-1_000_000, &[2, 2])[0], 5);
    // One hertz up is another megahertz.
    assert_eq!(integ.accumulate(0, &[7, 7])[0], 7);
    assert_eq!(integ.bucket_count(), 2);
    assert_eq!(fold(24, 3, 1, 4), 25);
    assert_eq!(fold(25, 4, 2, 4), 21);
}

#[test]
fn is_analog_video_accepts_only_video_variants() {
    assert!(SignalType::AnalogVideoNtsc.is_analog_video());
    assert!(SignalType::AnalogVideoPal.is_analog_video());
    assert!(SignalType::AnalogVideoUnknown.is_analog_video());
    assert!(!SignalType::Unknown.is_analog_video());
    assert!(!SignalType::WidebandDigital.is_analog_video());
    assert!(!SignalType::NarrowbandInterference.is_analog_video());
}

#[test]
fn default_min_confidence_excludes_the_weak_fallback_paths_only() {
    let d = AnalogFpvDetector::default();
    assert!(d.min_confidence > 600 && d.min_confidence < 800);
}

#[test]
fn probes_lie_on_a_five_megahertz_grid() {
    assert_eq!(sweep_strategy(2_047, 50_000_000), SweepStrategy::Nothing);
    assert_eq!(sweep_strategy(2_048, 10_000_000), SweepStrategy::Slice);
    assert_eq!(sweep_strategy(2_048, 15_360_000), SweepStrategy::Slice);
    assert_eq!(
        sweep_strategy(2_048, 25_000_000),
        SweepStrategy::Sweep(4)
    );
    // From five megahertz above the lower edge, in half-hertz.
    assert_eq!(
        probe_offsets(25_000_000, 4),
        vec![-15_000_000, -5_000_000, 5_000_000, 15_000_000]
    );
    assert_eq!(probe_target_rate(20_000_000), 20_000_000);
    assert_eq!(probe_target_rate(25_000_000), 10_000_000);
    assert_eq!(decimation_factor(25_000_000, 10_000_000), 2);
    assert_eq!(decimated_rate(25_000_000, 10_000_000), 12_500_000);
    assert_eq!(decimation_factor(4_000_000, 10_000_000), 1);
}

#[test]
fn probes_are_gated_by_the_quietest_quarter() {
    let d = AnalogFpvDetector::default();
    // The floor is 100; a probe must lie above 199.5.
    let gated = d.probes_to_classify(&vec![90, 100, 199, 200, 1_000], false);
    assert_eq!(gated, vec![false, false, false, true, true]);
    assert_eq!(
        d.probes_to_classify(&vec![90, 100, 199, 200, 1_000], true),
        vec![true; 5]
    );
    // Three decibels are a ratio of 1.995262.
    let fine = vec![1_000_000, 1_000_000, 1_000_000, 1_995_262, 1_995_263];
    assert_eq!(d.probes_to_classify(&fine, false)[3..], [false, true]);
    // Over digital silence only what exceeds half the maximum is looked at.
    assert_eq!(
        d.probes_to_classify(&vec![0, 0, 400, 500, 1_000], false),
        vec![false, false, false, false, true]
    );
}

fn hit(offset_mhz: i64, energy: i64, kind: SignalType, confidence: u32) -> SweepHit {
    SweepHit {
        offset_half_hz: 2_000_000 * offset_mhz,
        energy,
        kind,
        confidence,
    }
}

#[test]
fn a_cluster_takes_its_place_from_the_strongest_and_its_kind_from_the_surest() {
    let clusters = cluster_hits(&vec![
        hit(-5, 700, SignalType::AnalogVideoPal, 800),
        hit(0, 1_000, SignalType::AnalogVideoUnknown, 600),
    ]);
    assert_eq!(clusters.len(), 1);
    assert_eq!(clusters[0].anchor_half_hz, 0);
    assert_eq!(clusters[0].kind, SignalType::AnalogVideoPal);
    assert_eq!(clusters[0].confidence, 800);
}

#[test]
fn comparable_hits_far_apart_stay_apart() {
    let clusters = cluster_hits(&vec![
        hit(-10, 1_000, SignalType::AnalogVideoNtsc, 800),
        hit(10, 900, SignalType::AnalogVideoNtsc, 800),
    ]);
    assert_eq!(clusters.len(), 2);
}

#[test]
fn frequencies_are_located_to_the_hertz() {
    assert_eq!(locate(5_800_000_000, -10_000_000, None), 5_795_000_000);
    assert_eq!(
        locate(5_800_000_000, 1, Some(499_999_999)),
        5_800_000_001
    );
    assert_eq!(locate(5, -20, None), 0);
    assert_eq!(integration_key(5_800_000_000, -3), 5_799_999_999);
    assert_eq!(integration_key(5_800_000_000, 3), 5_800_000_001);
}

#[test]
fn a_tip_level_tells_where_the_carrier_is() {
    let d = AnalogFpvDetector::default();
    let cutoff = d.wide_cut(61_440_000, 5_000_000).unwrap();
    // Two and a half megahertz of reach and 1.3 deviations.
    assert_eq!(cutoff, 20 * 9_000_000);
    // A carrier at the centre has its tip two megahertz below.
    let tip = -(2.0e15f64 / 61_440_000.0).round() as i32;
    let offset = d.carrier_from_wide_cut(tip, 61_440_000, cutoff).unwrap();
    assert!(offset.abs() < 61_440_000, "{offset}");
    // White would lie outside the cut.
    let high = (3.0e15f64 / 61_440_000.0).round() as i32;
    assert_eq!(d.carrier_from_wide_cut(high, 61_440_000, cutoff), None);
    let blind = AnalogFpvDetector { assumed_deviation_hz: 0, ..d };
    assert_eq!(blind.wide_cut(61_440_000, 5_000_000), None);
    assert_eq!(d.wide_cut(0, 5_000_000), None);
}

#[test]
fn a_steady_record_is_not_classified() {
    assert!(!can_classify(&[0; 4_096], 10_000_000));
    let mut record = vec![0i32; 4_096];
    for v in record.iter_mut().step_by(2) {
        *v = 1_000_000;
    }
    assert!(can_classify(&record, 10_000_000));
    assert!(!can_classify(&record, 0));
    assert!(!can_classify(&record[..2_046], 10_000_000));
    // A variance of less than a millionth of a square radian.
    let faint: Vec<i32> = record.iter().map(|&v| v / 10).collect();
    assert!(!can_classify(&faint, 10_000_000));
}

struct Deaf;

impl FpvDetector<Complex<f32>> for Deaf {
    fn detect_from_iq(&self, _: &[Complex<f32>], _: u64, _: u32) -> Vec<DetectionResult> {
        Vec::new()
    }
}

#[test]
fn other_detectors_can_stand_behind_the_trait() {
    let detectors: Vec<Box<dyn FpvDetector<Complex<f32>>>> = vec![Box::new(Deaf)];
    assert!(detectors[0]
        .detect_from_iq(&[Complex::new(1.0, 0.0)], 5_800_000_000, 1_000_000)
        .is_empty());
}

/// A capture of so many samples, every one worth its own power. Its probes
/// are demodulated to a steady record, which shows nothing.
fn search_flat(det: &AnalogFpvDetector, power: i64, rate: u32) -> (usize, Vec<i64>, usize) {
    let mut probes = vec![ProbeEnergy { offset_half_hz: 1, energy: 1, confidence: 1 }];
    let mut integ = SpectralIntegrator::new(4);
    let iq = vec![power; 20_480];
    let found = det.detect_from_iq_integrated_with_probes(
        &iq,
        5_800_000_000,
        rate,
        &mut integ,
        &|iq: &[i64], cut| {
            assert_eq!((cut.target_rate, cut.decimation), (10_000_000, rate / 10_000_000));
            iq.iter().step_by(cut.decimation as usize).copied().collect()
        },
        &|iq: &[i64]| iq[0],
        // Averaged spectra are classified whatever their energy.
        &|iq: &[i64]| vec![0; iq.len()],
        &|_: &Vec<i32>| panic!("nothing to transform"),
        &|_: &Vec<i64>, _| panic!("nothing to check"),
        &|_: &[i64], _, _| panic!("nothing to refine"),
        &|_: &Vec<i32>, _, _, _| panic!("nothing to confirm"),
        &|_| None,
        &mut probes,
    );
    (found.len(), probes.iter().map(|p| p.energy).collect(), integ.bucket_count())
}

#[test]
fn probes_are_handed_back_though_nothing_was_found() {
    let det = AnalogFpvDetector::default();
    assert_eq!(search_flat(&det, 7, 50_000_000), (0, vec![7; 9], 0));
    // A capture that is one slice has none.
    assert_eq!(search_flat(&det, 7, 15_360_000), (0, vec![], 0));
    assert_eq!(search_flat(&det, 7, 0), (0, vec![], 0));
}

#[test]
fn a_flat_band_is_not_even_classified() {
    let det = AnalogFpvDetector::default();
    let iq = vec![7i64; 20_480];
    let mut none = SpectralIntegrator::new(1);
    let (found, probes) = det.detect_from_iq_impl(
        &iq,
        5_800_000_000,
        50_000_000,
        false,
        &mut none,
        &|iq: &[i64], _| iq.to_vec(),
        &|iq: &[i64]| iq[0],
        &|_: &[i64]| panic!("classified"),
        &|_: &Vec<i32>| panic!("classified"),
        &|_: &Vec<i64>, _| panic!("classified"),
        &|_: &[i64], _, _| panic!("nothing to refine"),
        &|_: &Vec<i32>, _, _, _| panic!("nothing to confirm"),
        &|_| None,
    );
    assert!(found.is_empty());
    assert_eq!(probes.len(), 9);
    assert_eq!(none.bucket_count(), 0);
}

/// Samples of a record in which lines are ten hertz wide at 15.36 MHz.
const RECORD: usize = 1_536_000;

/// A record that varies but has no pulses.
fn restless(_: &[i64]) -> Vec<i32> {
    (0..RECORD).map(|i| if i % 2 == 0 { 1_000_000 } else { -1_000_000 }).collect()
}

/// A spectrum with the PAL line rate and two of its harmonics.
fn pal_comb(demod: &Vec<i32>) -> Vec<i64> {
    let mut mags = vec![1i64; demod.len()];
    mags[1_563] = 1_000;
    mags[3_125] = 500;
    mags[6_250] = 500;
    mags
}

/// A cepstrum that peaks at the PAL line, 983 samples.
fn peaked(_: &Vec<i64>, half: usize) -> Vec<i64> {
    let mut c = vec![1i64; half];
    c[983] = 100_000;
    c
}

#[test]
fn a_slice_is_reported_at_its_tuned_centre() {
    let search = |min_confidence: u32, spectrum: &dyn Fn(&Vec<i32>) -> Vec<i64>| {
        let det = AnalogFpvDetector {
            assumed_deviation_hz: 0,
            min_confidence,
            ..AnalogFpvDetector::default()
        };
        let mut none = SpectralIntegrator::new(1);
        det.detect_from_iq_impl(
            &[3i64; 2_048],
            5_800_000_000,
            15_360_000,
            false,
            &mut none,
            &|_: &[i64], _| panic!("cut"),
            &|iq: &[i64]| iq[0],
            &|iq: &[i64]| {
                assert_eq!(iq.len(), 2_048);
                restless(iq)
            },
            &|demod: &Vec<i32>| spectrum(demod),
            &peaked,
            &|_: &[i64], _, _| panic!("no deviation to cut by"),
            &|_: &Vec<i32>, _, _, _| panic!("nothing to confirm"),
            &|e| Some(-e as i32),
        )
    };
    let (found, probes) = search(700, &pal_comb);
    assert_eq!(found.len(), 1);
    assert_eq!(found[0].frequency_hz, 5_800_000_000);
    assert_eq!((found[0].signal_type, found[0].confidence), (SignalType::AnalogVideoPal, 800));
    assert_eq!((found[0].rssi_mdbm, found[0].bandwidth_hz), (Some(-3), 15_360_000));
    assert!(probes.is_empty());
    // Below the least confidence it is not reported.
    let (found, _) = search(801, &pal_comb);
    assert!(found.is_empty());
    let (found, _) = search(0, &|demod: &Vec<i32>| vec![1; demod.len()]);
    assert!(found.is_empty());
}

#[test]
fn a_capture_is_averaged_in_once() {
    let det = AnalogFpvDetector { assumed_deviation_hz: 0, ..AnalogFpvDetector::default() };
    let mut integ = SpectralIntegrator::new(4);
    let mut batch = |scale: i64| {
        det.detect_from_iq_integrated(
            &[3i64; 2_048],
            5_800_000_000,
            15_360_000,
            &mut integ,
            &|_: &[i64], _| panic!("cut"),
            &|iq: &[i64]| iq[0],
            &restless,
            &|demod: &Vec<i32>| pal_comb(demod).iter().map(|m| scale * m).collect(),
            &peaked,
            &|_: &[i64], _, _| panic!("no deviation to cut by"),
            &|_: &Vec<i32>, _, _, _| panic!("nothing to confirm"),
            &|e| Some(-e as i32),
        )
    };
    assert_eq!(batch(2).len(), 1);
    assert_eq!(batch(4).len(), 1);
    // Two batches and silence: (2 + 4 + 0) / 3 of the comb.
    let average = integ.accumulate(5_800_000_000, &vec![0; RECORD]);
    assert_eq!((average[1_563], average[0]), (2_000, 2));
    assert_eq!(integ.bucket_count(), 1);
}

#[test]
fn every_probe_is_averaged_under_its_key() {
    let det = AnalogFpvDetector { assumed_deviation_hz: 0, ..AnalogFpvDetector::default() };
    let mut integ = SpectralIntegrator::new(4);
    let found = det.detect_from_iq_integrated(
        &vec![1i64; 8_192],
        5_800_000_000,
        30_000_000,
        &mut integ,
        &|iq: &[i64], cut| vec![cut.offset_half_hz; iq.len()],
        // Strongest at the tuned centre.
        &|iq: &[i64]| if iq[0] == 0 { 1_000_000 } else { 1 },
        &|iq: &[i64]| {
            let swing = 3_000_000 + (iq[0] / 10) as i32;
            (0..4_096).map(|i| if i % 2 == 0 { swing } else { -swing }).collect()
        },
        &|demod: &Vec<i32>| vec![demod[0] as i64; demod.len()],
        &|_: &Vec<i64>, half| vec![1; half],
        &|_: &[i64], _, _| panic!("nothing to refine"),
        &|_: &Vec<i32>, _, _, _| panic!("nothing to confirm"),
        &|_| None,
    );
    assert!(found.is_empty());
    // Five probes, each five megahertz apart, hold what they saw.
    assert_eq!(integ.bucket_count(), 5);
    for k in -2i64..=2 {
        let held = integ.accumulate(5_800_000_000 + 5_000_000 * k, &vec![0; 4_096]);
        assert_eq!(held[0], 1_500_000 + 500_000 * k);
    }
}

#[test]
fn a_detector_with_its_measurements_stands_behind_the_trait() {
    let detector = CaptureDetector {
        config: AnalogFpvDetector { assumed_deviation_hz: 0, ..AnalogFpvDetector::default() },
        ddc: |iq: &[i64], _: Cut| iq.to_vec(),
        energy: |iq: &[i64]| iq[0],
        demodulate: restless,
        spectrum: pal_comb,
        cepstrum: peaked,
        wide: |_: &[i64], _: i64, _: u64| Vec::new(),
        confirm: |_: &Vec<i32>, _: u32, _: SyncLevels, _: Option<bool>| evidence(0, false, 0),
        level: |_: i64| Some(-40_000),
    };
    let found = detector.detect_from_iq(&[1i64; 4_096], 5_800_000_000, 15_360_000);
    assert_eq!(found.len(), 1);
    assert_eq!(found[0].signal_type, SignalType::AnalogVideoPal);
    assert_eq!((found[0].frequency_hz, found[0].confidence), (5_800_000_000, 800));
    assert!(detector.detect_from_iq(&[1i64; 2_047], 5_800_000_000, 15_360_000).is_empty());
    assert!(detector.detect_from_iq(&[1i64; 4_096], 5_800_000_000, 0).is_empty());
}

#[test]
fn a_skirt_is_folded_into_its_signal() {
    // Fifteen megahertz off and 25 dB down, but surer of what it shows.
    let clusters = cluster_hits(&vec![
        hit(-8, 3, SignalType::AnalogVideoNtsc, 800),
        hit(7, 1_000, SignalType::AnalogVideoUnknown, 600),
    ]);
    assert_eq!(clusters.len(), 1);
    assert_eq!((clusters[0].anchor_half_hz, clusters[0].energy), (14_000_000, 1_000));
    assert_eq!(clusters[0].kind, SignalType::AnalogVideoNtsc);
    // Only 20 dB down it is a signal of its own.
    let clusters = cluster_hits(&vec![
        hit(-8, 10, SignalType::AnalogVideoNtsc, 800),
        hit(7, 1_000, SignalType::AnalogVideoUnknown, 600),
    ]);
    assert_eq!(clusters.len(), 2);
}

#[test]
fn a_line_rate_needs_two_of_its_harmonics() {
    // Bins of 10 Hz: the line rates lie in bins 1563 and 1573.
    let rate = 1_000_000;
    let demod = vec![0i32; 100_000];
    let mut mags = vec![1i64; 100_000];
    mags[1_563] = 1_000;
    assert_eq!(classify_spectrum(&mags, &demod, rate), (SignalType::Unknown, 0));
    mags[3_125] = 101;
    assert_eq!(classify_spectrum(&mags, &demod, rate), (SignalType::Unknown, 0));
    mags[6_250] = 100;
    assert_eq!(classify_spectrum(&mags, &demod, rate), (SignalType::Unknown, 0));
    mags[6_250] = 101;
    assert_eq!(classify_spectrum(&mags, &demod, rate), (SignalType::AnalogVideoPal, 800));
    // One line rate must exceed the other by a fifth.
    mags[1_573] = 833;
    assert_eq!(classify_spectrum(&mags, &demod, rate), (SignalType::AnalogVideoPal, 800));
    mags[1_573] = 834;
    assert_eq!(classify_spectrum(&mags, &demod, rate), (SignalType::Unknown, 0));
    // A record of 200 Hz bins does not tell the line rates apart.
    assert_eq!(
        classify_spectrum(&mags, &demod[..5_000], rate),
        (SignalType::AnalogVideoUnknown, 600)
    );
}
