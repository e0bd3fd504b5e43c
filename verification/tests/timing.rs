use orecchiette_fpv_analog::timing::{
    nominal_field_period_samples, nominal_half_line_period_samples, nominal_line_period_samples,
    samples_in, CalibratedCoordinateMap, Ratio, Standard, NTSC_HALF_LINES_PER_FIELD,
    NTSC_LINE_HZ_DEN, NTSC_LINE_HZ_NUM, PAL_HALF_LINES_PER_FIELD, PAL_LINE_HZ_NUM,
};
use orecchiette_fpv_analog::video::FrameReconstructor;

fn value(r: Ratio) -> f64 {
    r.num as f64 / r.den as f64
}

#[test]
fn independent_ntsc_pal_rational_frequencies() {
    // NTSC line frequency = 15,750,000 / 1001 Hz
    let ntsc_line_hz: f64 = 15_750_000.0 / 1001.0;
    assert!((ntsc_line_hz - 15_734.265734265735f64).abs() < 1e-9);

    // PAL line frequency = 15,625 Hz exactly
    let pal_line_hz: f64 = 15_625.0;

    assert_eq!(NTSC_LINE_HZ_NUM as f64 / NTSC_LINE_HZ_DEN as f64, ntsc_line_hz);
    assert_eq!(PAL_LINE_HZ_NUM as f64, pal_line_hz);
    assert_eq!(value(Standard::Ntsc.nominal_line_hz()), ntsc_line_hz);
    assert_eq!(value(Standard::Pal.nominal_line_hz()), pal_line_hz);

    // Half-lines per field (525 / 2 = 262.5 for NTSC; 625 / 2 = 312.5 for PAL)
    let ntsc_field_lines: f64 = 525.0 * 0.5;
    let pal_field_lines: f64 = 625.0 * 0.5;
    assert_eq!(ntsc_field_lines, 262.5);
    assert_eq!(pal_field_lines, 312.5);
    assert_eq!(value(Standard::Ntsc.field_total_lines()), ntsc_field_lines);
    assert_eq!(value(Standard::Pal.field_total_lines()), pal_field_lines);
    assert_eq!(Standard::Ntsc.half_lines_per_field(), 525);
    assert_eq!(Standard::Pal.half_lines_per_field(), 625);
    assert_eq!(NTSC_HALF_LINES_PER_FIELD, 525);
    assert_eq!(PAL_HALF_LINES_PER_FIELD, 625);

    // Subcarrier cycles per line
    assert_eq!(value(Standard::Ntsc.subcarrier_cycles_per_line()), 227.5);
    let ntsc_fsc_hz: f64 = ntsc_line_hz * 227.5;
    assert!((ntsc_fsc_hz - 3579545.4545f64).abs() < 0.1);
    assert_eq!(value(Standard::Pal.subcarrier_cycles_per_line()), 283.7516);
    let pal_fsc_hz: f64 = pal_line_hz * 283.7516;
    assert!((pal_fsc_hz - 4_433_618.75f64).abs() < 1e-6);
}

#[test]
fn integer_rounding_error_accumulation() {
    // At 15.36 MSPS, exact nominal NTSC line period is:
    let fs: f64 = 15_360_000.0;
    let ntsc_line_hz: f64 = 15_750_000.0 / 1001.0;
    let exact_period: f64 = fs / ntsc_line_hz;
    assert!((exact_period - 976.2133333333334f64).abs() < 1e-9);

    // The line period starts at the exact unrounded one.
    let recon = FrameReconstructor::new(15_360_000, false, 3_000_000, false);
    assert_eq!(recon.line_period, (exact_period * 1e6).round() as i64);
    assert_ne!(recon.line_period, 976_000_000);

    // If it started at the rounded 976:
    let per_line_error: f64 = exact_period - 976.0;
    assert!((per_line_error - 0.2133333333334f64).abs() < 1e-9);

    // Over 240 active lines in a field it would drift by:
    let drift_samples: f64 = per_line_error * 240.0;
    let drift_us: f64 = (drift_samples / fs) * 1e6;
    assert!((drift_samples - 51.2f64).abs() < 0.1);
    assert!((drift_us - 3.3333333333333335f64).abs() < 1e-6);
}

#[test]
fn nominal_sample_periods_across_standard_sdr_rates() {
    let rates = [
        15_360_000.0f64,
        20_000_000.0,
        25_000_000.0,
        30_720_000.0,
        61_440_000.0,
    ];
    let ntsc_line_hz: f64 = 15_750_000.0 / 1001.0;
    let pal_line_hz: f64 = 15_625.0;

    for &fs in &rates {
        let ntsc_period: f64 = fs / ntsc_line_hz;
        let pal_period: f64 = fs / pal_line_hz;

        let ntsc_time_us: f64 = (ntsc_period / fs) * 1e6;
        let pal_time_us: f64 = (pal_period / fs) * 1e6;
        assert!((ntsc_time_us - 63.55555555555556f64).abs() < 1e-9);
        assert!((pal_time_us - 64.0f64).abs() < 1e-9);

        let lib_ntsc = nominal_line_period_samples(fs as u32, false);
        let lib_pal = nominal_line_period_samples(fs as u32, true);
        assert!((value(lib_ntsc) - ntsc_period).abs() < 1e-9);
        assert_eq!(value(lib_pal), pal_period);

        let recon_ntsc = FrameReconstructor::new(fs as u32, false, 3_000_000, false);
        assert_eq!(recon_ntsc.line_period, (ntsc_period * 1e6).round() as i64);
        let recon_pal = FrameReconstructor::new(fs as u32, true, 3_000_000, false);
        assert_eq!(recon_pal.line_period, (pal_period * 1e6).round() as i64);
    }
}

#[test]
fn two_fields_make_a_frame() {
    for (pal, lines) in [(false, 525.0), (true, 625.0)] {
        let line = value(nominal_line_period_samples(20_000_000, pal));
        let field = value(nominal_field_period_samples(20_000_000, pal));
        let half = value(nominal_half_line_period_samples(20_000_000, pal));
        assert!((2.0 * field - lines * line).abs() < 1e-6);
        assert!((2.0 * half - line).abs() < 1e-9);
    }
}

#[test]
fn sync_edge_and_centre_are_inverse() {
    let map = CalibratedCoordinateMap::new(15_360_000, false);
    let there = value(map.h_sync_center_to_leading_edge());
    let back = value(map.h_sync_leading_edge_to_center());
    assert_eq!(there + back, 0.0);
    assert_eq!(map.h_sync_width_samples(), 72);
    assert_eq!(samples_in(4_700, 15_360_000), 72);
}

#[test]
fn standards_know_their_kind() {
    for pal in [false, true] {
        let s = Standard::from_is_pal(pal);
        assert_eq!(s.is_pal(), pal);
        assert_eq!(s.active_lines(), if pal { 288 } else { 240 });
        assert_eq!(s.colour_sequence_fields(), if pal { 8 } else { 4 });
    }
}

#[test]
fn durations_become_samples() {
    let pal = CalibratedCoordinateMap::new(20_000_000, true);
    // 4.7 and 5.8 microseconds.
    assert_eq!((pal.h_sync_width_samples(), pal.back_porch_samples()), (94, 116));
    let line = Ratio { num: 1_280, den: 1 };
    let first = pal.broad_to_active_start_samples(line, false);
    let second = pal.broad_to_active_start_samples(line, true);
    assert_eq!(value(second) - value(first), 640.0);
    assert_eq!(value(first), 42.0 * 640.0);
}
