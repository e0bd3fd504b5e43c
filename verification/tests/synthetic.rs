use num_complex::Complex;
use orecchiette_fpv_analog::demod::fm_demod;
use orecchiette_fpv_analog::synthetic::{
    field_layout, gaussian_noise, generate_fields, generate_iq, modulate, noise_seed, params,
    wrap_phase, xorshift, SYNC_LEVEL, SyntheticVideoConfig, TestPattern, UNITS_PER_IRE,
    WHITE_LEVEL,
};
use orecchiette_fpv_analog::vbi::FieldParity;
use std::f64::consts::TAU;

const NTSC_LINE_HZ: f64 = 15_750_000.0 / 1001.0;
const PAL_LINE_HZ: f64 = 15_625.0;

fn base_config(is_pal: bool, deviation_hz: u32, sample_rate: u32) -> SyntheticVideoConfig {
    SyntheticVideoConfig {
        sample_rate,
        is_pal,
        deviation_hz,
        pattern: TestPattern::Flat(0),
        start_field: FieldParity::First,
        noise_sigma: 0,
        dc_offset: 0,
    }
}

/// Halfway between sync tip and blanking, in nanoturns.
fn threshold(cfg: &SyntheticVideoConfig) -> f64 {
    -0.2 * cfg.deviation_hz as f64 / cfg.sample_rate as f64 * 1e9
}

fn count_pulses(data: &[i32], fs: f64, min_us: f64, max_us: f64, threshold: f64) -> usize {
    let min_w = (fs * min_us * 1e-6) as usize;
    let max_w = (fs * max_us * 1e-6) as usize;
    let mut count = 0;
    let mut i = 0;
    while i < data.len() {
        if (data[i] as f64) < threshold {
            let start = i;
            while i < data.len() && (data[i] as f64) < threshold {
                i += 1;
            }
            let w = i - start;
            if w >= min_w.max(1) && w <= max_w {
                count += 1;
            }
        } else {
            i += 1;
        }
    }
    count
}

#[test]
fn ntsc_field_has_expected_pulse_counts() {
    let cfg = base_config(false, 5_000_000, 15_360_000);
    let data = generate_fields(&cfg, 1);
    let fs = cfg.sample_rate as f64;
    let eq_or_h = count_pulses(&data, fs, 1.5, 5.0, threshold(&cfg));
    let broad = count_pulses(&data, fs, 20.0, 32.0, threshold(&cfg));
    // 6 + 6 equalizing pulses, 12 plain blanking lines, 240 active lines and
    // one trailing blanking line.
    assert_eq!(eq_or_h, 12 + 12 + 240 + 1, "narrow (eq/H-sync) pulse count");
    assert_eq!(broad, 6, "broad (vsync) pulse count");
}

#[test]
fn pal_field_has_expected_pulse_counts() {
    let cfg = base_config(true, 5_000_000, 15_360_000);
    let data = generate_fields(&cfg, 1);
    let fs = cfg.sample_rate as f64;
    let eq_or_h = count_pulses(&data, fs, 1.5, 5.0, threshold(&cfg));
    let broad = count_pulses(&data, fs, 20.0, 32.0, threshold(&cfg));
    // 5 + 5 equalizing pulses, 16 plain blanking lines, 288 active lines and
    // one trailing blanking line.
    assert_eq!(eq_or_h, 10 + 16 + 288 + 1, "narrow (eq/H-sync) pulse count");
    assert_eq!(broad, 5, "broad (vsync) pulse count");
}

#[test]
fn broad_pulse_width_matches_standard() {
    for (is_pal, expected_us) in [(false, 27.1f64), (true, 27.3f64)] {
        let cfg = base_config(is_pal, 5_000_000, 15_360_000);
        let data = generate_fields(&cfg, 1);
        let t = threshold(&cfg);
        // Find the first broad-width run and measure it directly.
        let fs = cfg.sample_rate as f64;
        let min_w = (fs * 20e-6) as usize;
        let mut i = 0;
        let mut found = None;
        while i < data.len() {
            if (data[i] as f64) < t {
                let start = i;
                while i < data.len() && (data[i] as f64) < t {
                    i += 1;
                }
                if i - start >= min_w {
                    found = Some(i - start);
                    break;
                }
            } else {
                i += 1;
            }
        }
        let width_us = found.expect("expected a broad pulse") as f64 / fs * 1e6;
        assert!(
            (width_us - expected_us).abs() < 1.0,
            "is_pal={is_pal}: broad width {width_us} vs expected {expected_us}"
        );
    }
}

#[test]
fn consecutive_fields_alternate_parity_via_half_line_offset() {
    let cfg = base_config(false, 5_000_000, 15_360_000);
    let one_field = generate_fields(&cfg, 1).len();
    let two_fields = generate_fields(&cfg, 2).len();
    let field2_len = two_fields - one_field;
    let line_period_samples = cfg.sample_rate as f64 / NTSC_LINE_HZ;
    let field1_lines = one_field as f64 / line_period_samples;
    let field2_lines = field2_len as f64 / line_period_samples;
    assert!(
        (field1_lines - 262.5).abs() < 0.6,
        "field 1 length {field1_lines} lines, expected ~262.5"
    );
    assert!(
        (field2_lines - 262.5).abs() < 0.6,
        "field 2 length {field2_lines} lines, expected ~262.5"
    );
}

#[test]
fn field_duration_matches_standard_line_count() {
    for (is_pal, expected_lines, line_hz) in
        [(false, 262.5, NTSC_LINE_HZ), (true, 312.5, PAL_LINE_HZ)]
    {
        let cfg = base_config(is_pal, 5_000_000, 15_360_000);
        let n = generate_fields(&cfg, 4).len();
        let avg_field_lines = (n as f64 / 4.0) / (cfg.sample_rate as f64 / line_hz);
        assert!(
            (avg_field_lines - expected_lines).abs() < 0.05,
            "is_pal={is_pal}: avg field length {avg_field_lines} lines, expected {expected_lines}"
        );
    }
}

#[test]
fn generate_iq_round_trips_through_fm_demod() {
    let cfg = base_config(false, 2_000_000, 20_000_000);
    let baseband = generate_fields(&cfg, 1);
    let iq: Vec<Complex<f64>> =
        generate_iq(&cfg, 1, 0, |p| Complex::from_polar(1.0, p as f64 * 1e-9 * TAU));
    let recovered: Vec<f64> = fm_demod(&iq, |cur, prev| (cur * prev.conj()).arg());
    assert_eq!(recovered.len(), baseband.len() - 1);
    let mut max_err = 0.0f64;
    for i in 0..recovered.len() {
        let err = (recovered[i] - baseband[i + 1] as f64 * 1e-9 * TAU).abs();
        max_err = max_err.max(err);
    }
    assert!(max_err < 1e-2, "max round-trip error {max_err}");
}

#[test]
fn levels_stand_in_the_standard_ratio() {
    assert_eq!(SYNC_LEVEL, -40 * UNITS_PER_IRE);
    assert_eq!(WHITE_LEVEL, 100 * UNITS_PER_IRE);
    let cfg = base_config(false, 5_000_000, 20_000_000);
    let data = generate_fields(&cfg, 1);
    // Forty IRE below blanking is two fifths of the deviation: a tenth of a
    // turn a sample here.
    assert_eq!(data.iter().min(), Some(&-100_000_000));
    assert_eq!(data.iter().max(), Some(&0));
}

#[test]
fn a_dc_offset_moves_every_sample() {
    let mut cfg = base_config(true, 5_000_000, 20_000_000);
    let plain = generate_fields(&cfg, 1);
    cfg.dc_offset = 12_345;
    let moved = generate_fields(&cfg, 1);
    assert!(plain.iter().zip(&moved).all(|(a, b)| b - a == 12_345));
}

#[test]
fn patterns_have_their_levels() {
    assert_eq!(TestPattern::Flat(7).level_at(0, 0), 7);
    assert_eq!(TestPattern::Bars.level_at(0, 0), 0);
    assert_eq!(TestPattern::Bars.level_at(0, 719), WHITE_LEVEL);
    let square = TestPattern::WhiteSquare {
        row0: 2,
        col0: 10,
        h: 3,
        w: 5,
    };
    assert_eq!(square.level_at(2, 10), WHITE_LEVEL);
    assert_eq!(square.level_at(4, 14), WHITE_LEVEL);
    assert_eq!(square.level_at(5, 10), 0);
    assert_eq!(square.level_at(2, 15), 0);
}

#[test]
fn fields_fill_whole_half_lines() {
    for (is_pal, half_lines) in [(false, 525u64), (true, 625)] {
        let p = params(is_pal);
        for parity in [FieldParity::First, FieldParity::Second] {
            let ticks: u64 = field_layout(is_pal, parity).iter().map(|s| s.ticks).sum();
            assert_eq!(ticks, half_lines * p.half_line);
        }
    }
}

#[test]
fn the_noise_sequence_is_fixed() {
    let mut s = noise_seed(1000);
    assert_ne!(s, 0);
    for _ in 0..1000 {
        s = xorshift(s);
        assert_ne!(s, 0);
    }
    assert_eq!(xorshift(1), 0x40822041);
}

#[test]
fn phases_are_wrapped_to_half_a_turn() {
    assert_eq!(wrap_phase(0), 0);
    assert_eq!(wrap_phase(500_000_000), 500_000_000);
    assert_eq!(wrap_phase(500_000_001), -499_999_999);
    assert_eq!(wrap_phase(-500_000_000), 500_000_000);
    assert_eq!(wrap_phase(-1_000_000_007), -7);
    assert_eq!(wrap_phase(3_000_000_007), 7);
}

#[test]
fn a_carrier_turns_with_its_offset() {
    // A quarter of the rate: a quarter turn more with every sample.
    let phases = modulate(&vec![0, 0, 0, 0, 10], 8, 2, |p| p);
    assert_eq!(phases, vec![250_000_000, 500_000_000, -250_000_000, 0, 250_000_010]);
    // No error builds up over whole turns of a third of the rate.
    let phases = modulate(&vec![0; 3_000_000], 3, -1, |p| p);
    assert_eq!(phases[2_999_999], 0);
    assert_eq!(phases[2_999_997], -333_333_333);
    // What comes from one sample to the next is the baseband.
    let baseband = vec![100, -499_999_999, 500_000_000, -3];
    let phases = modulate(&baseband, 1, 0, |p| p);
    for i in 1..4 {
        assert_eq!(wrap_phase(phases[i] as i64 - phases[i - 1] as i64), baseband[i]);
    }
    let none = generate_iq(&base_config(false, 1_000_000, 0), 3, 5, |p| p);
    assert_eq!(none, Vec::<i32>::new());
}

#[test]
fn noise_is_drawn_anew_for_every_sample() {
    let clean = base_config(false, 5_000_000, 1_000_000);
    let noisy = SyntheticVideoConfig { noise_sigma: 1_000_000, ..clean };
    let (a, b) = (generate_fields(&clean, 1), generate_fields(&noisy, 1));
    assert_eq!(a.len(), b.len());
    assert_eq!(b, generate_fields(&noisy, 1));
    let mut state = noise_seed(a.len());
    for i in 0..100 {
        let d = gaussian_noise(&mut state) as f64 / u64::MAX as f64;
        assert!(((b[i] - a[i]) as f64 - 1e6 * d).abs() < 1.0, "sample {i}");
    }
    let n = a.len() as f64;
    let mean = a.iter().zip(&b).map(|(x, y)| (y - x) as f64).sum::<f64>() / n;
    let var = a.iter().zip(&b).map(|(x, y)| ((y - x) as f64).powi(2)).sum::<f64>() / n;
    assert!(mean.abs() < 3e4, "{mean}");
    assert!((var.sqrt() - 1e6).abs() < 3e4, "{}", var.sqrt());
}
