use orecchiette_fpv_analog::levels::{
    estimate_cnr, estimate_fm_deviation, estimate_sync_levels, moving_average, robust_sync_levels,
    robust_sync_threshold, scan_low_runs, MIN_PULSES,
};
use orecchiette_fpv_analog::synthetic::{
    generate_fields, xorshift, SyntheticVideoConfig, TestPattern,
};
use orecchiette_fpv_analog::vbi::FieldParity;

/// Radians as whole nanoturns.
fn nanoturns(rad: f64) -> i32 {
    (rad / std::f64::consts::TAU * 1e9).round() as i32
}

#[test]
fn empty_and_short_input_returns_none() {
    assert!(estimate_fm_deviation(&[], 15_360_000).is_none());
    assert!(estimate_fm_deviation(&[0; 100], 15_360_000).is_none());
}

#[test]
fn zero_sample_rate_returns_none() {
    assert!(estimate_fm_deviation(&[0; 100_000], 0).is_none());
}

#[test]
fn flat_signal_returns_none() {
    let data = vec![nanoturns(0.1); 400_000];
    assert!(estimate_fm_deviation(&data, 15_360_000).is_none());
}

#[test]
fn pure_noise_returns_none() {
    let sr = 15_360_000u32;
    let n = 400_000;
    let mut seed = 12345u64;
    let data: Vec<i32> = (0..n)
        .map(|_| {
            seed ^= seed << 13;
            seed ^= seed >> 7;
            seed ^= seed << 17;
            nanoturns(((seed as f32 / u64::MAX as f32) * 2.0 - 1.0) as f64)
        })
        .collect();
    assert!(estimate_fm_deviation(&data, sr).is_none());
}

fn synth_config(deviation_hz: u32, sample_rate: u32) -> SyntheticVideoConfig {
    SyntheticVideoConfig {
        sample_rate,
        is_pal: false,
        deviation_hz,
        pattern: TestPattern::Bars,
        start_field: FieldParity::First,
        noise_sigma: 0,
        dc_offset: 0,
    }
}

/// Kept well inside the modulation's margin.
const ACCURACY_CASES: &[(u32, u32)] = &[
    (1_000_000, 10_000_000),
    (1_000_000, 15_360_000),
    (2_500_000, 15_360_000),
    (1_000_000, 20_000_000),
    (3_000_000, 20_000_000),
    (3_000_000, 50_000_000),
    (8_000_000, 50_000_000),
    (5_000_000, 100_000_000),
    (17_000_000, 100_000_000),
];

#[test]
fn estimator_recovers_deviation_within_5_percent() {
    for &(dev, fs) in ACCURACY_CASES {
        let cfg = synth_config(dev, fs);
        let data = generate_fields(&cfg, 3);
        let est = estimate_fm_deviation(&data, fs)
            .unwrap_or_else(|| panic!("dev={dev} fs={fs}: expected an estimate"));
        let err = (est.deviation_hz as f64 - dev as f64).abs() / dev as f64;
        assert!(
            err < 0.05,
            "dev={dev} fs={fs}: estimated {} ({}% error)",
            est.deviation_hz,
            err * 100.0
        );
        assert!(est.n_pulses >= MIN_PULSES);
    }
}

#[test]
fn estimator_is_invariant_to_dc_offset() {
    let mut cfg = synth_config(5_000_000, 15_360_000);
    let plain = estimate_fm_deviation(&generate_fields(&cfg, 3), cfg.sample_rate).unwrap();
    cfg.dc_offset = nanoturns(0.6);
    let data = generate_fields(&cfg, 3);
    let est = estimate_fm_deviation(&data, cfg.sample_rate).expect("expected an estimate");
    let err = (est.deviation_hz as f64 - cfg.deviation_hz as f64).abs() / cfg.deviation_hz as f64;
    assert!(
        err < 0.05,
        "estimated {} with dc_offset applied",
        est.deviation_hz
    );
    assert_eq!(est.deviation_hz, plain.deviation_hz);
}

fn gaussian(state: &mut u64) -> f64 {
    let mut sum = 0.0;
    for _ in 0..12 {
        *state = xorshift(*state);
        sum += (*state >> 11) as f64 / (1u64 << 53) as f64;
    }
    sum - 6.0
}

#[test]
fn estimator_tolerates_realistic_noise() {
    let mut cfg = synth_config(5_000_000, 15_360_000);
    // ~15% of the sync-to-blank swing.
    let radians_per_volt =
        std::f64::consts::TAU * cfg.deviation_hz as f64 / cfg.sample_rate as f64;
    cfg.noise_sigma = nanoturns(0.15 * 0.4 * radians_per_volt) as u32;
    let data = generate_fields(&cfg, 4);
    let est =
        estimate_fm_deviation(&data, cfg.sample_rate).expect("expected an estimate under noise");
    let err = (est.deviation_hz as f64 - cfg.deviation_hz as f64).abs() / cfg.deviation_hz as f64;
    assert!(
        err < 0.10,
        "estimated {} under noise ({}% error)",
        est.deviation_hz,
        err * 100.0
    );
}

#[test]
fn estimate_sync_levels_matches_deviation_estimate_levels() {
    let cfg = synth_config(5_000_000, 15_360_000);
    let data = generate_fields(&cfg, 3);
    let levels = estimate_sync_levels(&data, cfg.sample_rate).expect("expected levels");
    let full = estimate_fm_deviation(&data, cfg.sample_rate).expect("expected estimate");
    assert_eq!(levels, full.levels);
    assert!(levels.swing() > 0);
}

#[test]
fn the_moving_average_grows_its_window() {
    assert_eq!(moving_average(&[2, 4, 6, 8], 2), vec![2, 3, 5, 7]);
    assert_eq!(moving_average(&[2, 4], 3), vec![2, 4]);
    assert_eq!(moving_average(&[-1, -2], 2), vec![-1, -2]);
}

#[test]
fn levels_are_percentiles_of_every_sixteenth_sample() {
    // A hundred decimated samples: twenty low, the rest high.
    let mut s = vec![100; 1600];
    for v in s.iter_mut().take(320) {
        *v = -60;
    }
    assert_eq!(robust_sync_levels(&s), Some((-60, 100)));
    assert_eq!(robust_sync_threshold(&s), Some(-80));
    assert_eq!(robust_sync_levels(&s[..100]), None);
    assert_eq!(robust_sync_levels(&vec![5; 1600]), None);
}

#[test]
fn low_runs_are_found_with_a_gap() {
    let s = [0, -9, -9, 0, 0, -9, 0, 0, -9];
    assert_eq!(scan_low_runs(&s, -4, 1), vec![(1, 3), (5, 6), (8, 9)]);
    assert_eq!(scan_low_runs(&s, -4, 6), vec![(1, 3), (8, 9)]);
}

#[test]
fn envelope_cnr_estimate_tracks_true_cnr() {
    // A unit carrier with complex noise of a known deviation per part: the
    // true ratio is one over twice its square.
    let mut seed = 0xFEEDu64;
    for &(sigma, true_db) in &[(0.1f64, 16.99f64), (0.2, 10.97), (0.35, 6.1)] {
        let envelope: Vec<u32> = (0..200_000)
            .map(|i| {
                let phase = 0.37 * i as f64;
                let re = phase.cos() + sigma * gaussian(&mut seed);
                let im = phase.sin() + sigma * gaussian(&mut seed);
                (re.hypot(im) * 1e6).round() as u32
            })
            .collect();
        let (num, den) = estimate_cnr(&envelope).expect("estimate expected");
        let est = 10.0 * (num as f64 / den as f64).log10();
        assert!(
            (est - true_db).abs() < 1.5,
            "sigma={sigma}: estimated {est:.1} dB vs true {true_db:.1} dB"
        );
        // The gain does not matter.
        let louder: Vec<u32> = envelope.iter().map(|v| 3 * v).collect();
        let (n3, d3) = estimate_cnr(&louder).unwrap();
        assert_eq!((n3, d3), (9 * num, 9 * den));
    }
    assert!(estimate_cnr(&[]).is_none());
    assert!(estimate_cnr(&[1_000; 300]).is_none());
    let mut two = vec![1u32; 256];
    two[0] = 3;
    // A sum of 258 and squares of 264.
    assert_eq!(estimate_cnr(&two), Some((66_564, 2 * (256 * 264 - 66_564))));
    assert!(estimate_cnr(&two[..255]).is_none());
}

#[test]
fn a_gain_moves_no_pulse() {
    let mut s = vec![100i32; 2_000];
    for line in 0..20 {
        for i in 0..8 {
            s[100 * line + 40 + i] = -300;
        }
    }
    let louder: Vec<i32> = s.iter().map(|v| 7 * v).collect();
    let t = robust_sync_threshold(&s).unwrap();
    // Three times the tip and the middle level.
    assert_eq!(t, -800);
    assert_eq!(robust_sync_threshold(&louder), Some(7 * t));
    let runs = scan_low_runs(&s, t, 10);
    assert_eq!(runs.len(), 20);
    assert_eq!(runs[0], (40, 48));
    assert_eq!(scan_low_runs(&louder, 7 * t, 10), runs);
    assert_eq!(robust_sync_levels(&louder), Some((-2_100, 700)));
}

#[test]
fn a_constant_record_shows_nothing() {
    for v in [-500_000_000, -7, 0, 3, 500_000_000] {
        let record = vec![v; 200_000];
        assert!(estimate_fm_deviation(&record, 15_360_000).is_none());
        assert!(estimate_sync_levels(&record, 15_360_000).is_none());
        assert!(robust_sync_threshold(&record).is_none());
    }
}
