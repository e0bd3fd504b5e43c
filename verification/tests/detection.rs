use num_complex::Complex;
use orecchiette_fpv_analog::acquisition::{
    analyze_tuned_channel, AcquisitionRecord, StandardEvidence,
};
use orecchiette_fpv_analog::detector::confirm::confirm_on_wide_cut;
use orecchiette_fpv_analog::detector::integrator::SpectralIntegrator;
use orecchiette_fpv_analog::detector::search::{CaptureDetector, Cut};
use orecchiette_fpv_analog::detector::{AnalogFpvDetector, FpvDetector};
use orecchiette_fpv_analog::levels::{
    estimate_sync_levels, moving_average, scan_low_runs, SyncLevels,
};
use orecchiette_fpv_analog::synthetic::{
    generate_fields, xorshift, SyntheticVideoConfig, TestPattern,
};
use orecchiette_fpv_analog::types::{DetectionResult, SignalType};
use orecchiette_fpv_analog::vbi::{FieldParity, FieldSyncEvidence};
use rustfft::FftPlanner;
use std::f32::consts::PI;
use std::f64::consts::TAU;

type C = Complex<f32>;

const CENTER: u64 = 5_800_000_000;

fn nanoturns(rad: f32) -> i32 {
    (rad as f64 / TAU * 1e9).round() as i32
}

/// Instantaneous frequency in nanoturns per sample.
fn demodulated(iq: &[C]) -> Vec<i32> {
    iq.windows(2)
        .map(|w| nanoturns((w[1] * w[0].conj()).arg()))
        .collect()
}

/// Magnitude spectrum of a windowed record, in millionths of a radian.
fn spectrum(demod: &[i32]) -> Vec<i64> {
    let n = demod.len();
    let mean = demod.iter().map(|&v| v as f64).sum::<f64>() / n as f64;
    let mut buffer = vec![C::new(0.0, 0.0); n.next_power_of_two()];
    for (i, (b, &v)) in buffer.iter_mut().zip(demod).enumerate() {
        let hann = 0.5 * (1.0 - (2.0 * PI * i as f32 / (n - 1) as f32).cos());
        b.re = ((v as f64 - mean) * 1e-9 * TAU) as f32 * hann;
    }
    FftPlanner::new()
        .plan_fft_forward(buffer.len())
        .process(&mut buffer);
    buffer.iter().map(|c| (c.norm() as f64 * 1e6) as i64).collect()
}

/// Leading cepstral magnitudes of a spectrum, in units of 10^-12.
fn cepstrum(mags: &Vec<i64>, half: usize) -> Vec<i64> {
    let mut log_power: Vec<C> = mags
        .iter()
        .map(|&m| {
            let m = m as f32 * 1e-6;
            C::new((m * m + 1e-12).ln(), 0.0)
        })
        .collect();
    FftPlanner::new()
        .plan_fft_inverse(mags.len())
        .process(&mut log_power);
    log_power
        .iter()
        .take(half)
        .map(|c| (c.re.abs() as f64 / mags.len() as f64 * 1e12) as i64)
        .collect()
}

/// Groups of broad pulses half a line apart, and whether they come a field
/// apart.
fn field_sync(demod: &Vec<i32>, rate: u32, levels: SyncLevels, pal: Option<bool>) -> FieldSyncEvidence {
    let fs = rate as f64;
    let smoothed = moving_average(demod, ((fs * 1e-6) as usize).max(1));
    let threshold4 = 2 * (levels.sync_tip as i64 + levels.blanking as i64);
    let gap = (fs * 1e-6) as usize;
    let runs = scan_low_runs(&smoothed, threshold4, gap);
    let broad: Vec<f64> = runs
        .iter()
        .filter(|r| {
            let us = (r.1 - r.0) as f64 / fs * 1e6;
            (18.0..32.0).contains(&us)
        })
        .map(|r| r.0 as f64 / fs * 1e6)
        .collect();
    let mut groups: Vec<(f64, usize)> = Vec::new();
    let mut last = f64::NEG_INFINITY;
    for &at in &broad {
        match groups.last_mut() {
            Some(g) if (26.0..38.0).contains(&(at - last)) => g.1 += 1,
            _ => groups.push((at, 1)),
        }
        last = at;
    }
    groups.retain(|g| g.1 >= 4);
    let field_us = if pal == Some(true) { 20_000.0 } else { 16_683.3 };
    let spacing_ok = groups.len() >= 2
        && groups
            .windows(2)
            .all(|w| (w[1].0 - w[0].0 - field_us).abs() < 0.05 * field_us);
    FieldSyncEvidence {
        groups: groups.len(),
        spacing_ok,
        slice_field_periods: (demod.len() as f64 / fs * 1e9 / field_us) as u64,
    }
}

fn taps(cutoff_hz: f32, rate: u32) -> Vec<f32> {
    let n = 63;
    let cutoff = cutoff_hz / rate as f32;
    let mut h: Vec<f32> = (0..n)
        .map(|i| {
            let m = i as f32 - 31.0;
            let sinc = if m == 0.0 {
                2.0 * cutoff
            } else {
                (2.0 * PI * cutoff * m).sin() / (PI * m)
            };
            let x = i as f32 / 62.0;
            sinc * (0.42 - 0.5 * (2.0 * PI * x).cos() + 0.08 * (4.0 * PI * x).cos())
        })
        .collect();
    let sum: f32 = h.iter().sum();
    h.iter_mut().for_each(|t| *t /= sum);
    h
}

/// Mix an offset down, filter, and keep every `step`-th sample.
fn ddc(iq: &[C], rate: u32, offset_hz: f64, cutoff_hz: f32, step: usize) -> Vec<C> {
    let h = taps(cutoff_hz, rate);
    let turn = -offset_hz / rate as f64;
    let shifted: Vec<C> = (0..h.len())
        .map(|k| {
            let p = (k as f64 * turn).fract() * TAU;
            C::new((h[k] as f64 * p.cos()) as f32, (h[k] as f64 * p.sin()) as f32)
        })
        .collect();
    let padded: Vec<C> = std::iter::repeat(C::new(0.0, 0.0))
        .take(h.len() - 1)
        .chain(iq.iter().copied())
        .collect();
    let mut out = Vec::with_capacity(iq.len() / step + 1);
    let mut at = step - 1;
    while at < iq.len() {
        let (mut re, mut im) = (0.0f32, 0.0f32);
        for (x, t) in padded[at..at + h.len()].iter().zip(&shifted) {
            re += x.re * t.re - x.im * t.im;
            im += x.re * t.im + x.im * t.re;
        }
        let p = (at as f64 * turn).fract() * TAU;
        out.push(C::new(re, im) * C::new(p.cos() as f32, p.sin() as f32));
        at += step;
    }
    out
}

fn mean_power(iq: &[C]) -> f64 {
    iq.iter().map(|s| s.norm_sqr() as f64).sum::<f64>() / iq.len() as f64
}

fn sync_pulses(det: &AnalogFpvDetector, iq: &[C], rate: u32) -> (SignalType, u32) {
    det.detect_sync_pulses(
        iq,
        rate,
        &|iq: &[C]| demodulated(iq),
        &|demod: &Vec<i32>| spectrum(demod),
        &cepstrum,
        &field_sync,
    )
}

fn sync_pulses_integrated(
    det: &AnalogFpvDetector,
    iq: &[C],
    rate: u32,
    key: i64,
    integ: &mut SpectralIntegrator,
) -> (SignalType, u32) {
    det.detect_sync_pulses_integrated(
        iq,
        rate,
        key,
        integ,
        &|iq: &[C]| demodulated(iq),
        &|demod: &Vec<i32>| spectrum(demod),
        &cepstrum,
        &field_sync,
    )
}

/// Demodulated cut around an offset in half-hertz, its cutoff in twentieths
/// of a hertz.
fn wide_cut(iq: &[C], rate: u32, offset_half_hz: i64, cutoff: u64) -> Vec<i32> {
    demodulated(&ddc(iq, rate, offset_half_hz as f64 / 2.0, cutoff as f32 / 20.0, 1))
}

fn probe(iq: &[C], rate: u32, cut: Cut) -> Vec<C> {
    ddc(
        iq,
        rate,
        cut.offset_half_hz as f64 / 2.0,
        cut.target_rate as f32 / 3.0,
        cut.decimation as usize,
    )
}

fn energy(iq: &[C]) -> i64 {
    (mean_power(iq) * 1e12) as i64
}

fn level(e: i64) -> Option<i32> {
    Some((10_000.0 * (e as f64 * 1e-12 + 1e-12).log10()).round() as i32)
}

fn detect(det: &AnalogFpvDetector, iq: &[C], center: u64, rate: u32) -> Vec<DetectionResult> {
    CaptureDetector {
        config: *det,
        ddc: |iq: &[C], cut: Cut| probe(iq, rate, cut),
        energy,
        demodulate: demodulated,
        spectrum: |demod: &Vec<i32>| spectrum(demod),
        cepstrum,
        wide: |iq: &[C], offset: i64, cutoff: u64| wide_cut(iq, rate, offset, cutoff),
        confirm: field_sync,
        level,
    }
    .detect_from_iq(iq, center, rate)
}

fn detect_integrated(
    det: &AnalogFpvDetector,
    iq: &[C],
    center: u64,
    rate: u32,
    integ: &mut SpectralIntegrator,
) -> Vec<DetectionResult> {
    det.detect_from_iq_integrated(
        iq,
        center,
        rate,
        integ,
        &|iq: &[C], cut| probe(iq, rate, cut),
        &energy,
        &demodulated,
        &|demod: &Vec<i32>| spectrum(demod),
        &cepstrum,
        &|iq: &[C], offset, cutoff| wide_cut(iq, rate, offset, cutoff),
        &field_sync,
        &level,
    )
}

fn config(is_pal: bool, sample_rate: u32, deviation_hz: u32) -> SyntheticVideoConfig {
    SyntheticVideoConfig {
        sample_rate,
        is_pal,
        deviation_hz,
        pattern: TestPattern::Bars,
        start_field: FieldParity::First,
        noise_sigma: 0,
        dc_offset: 0,
    }
}

/// A unit carrier at an offset that follows a baseband.
fn modulated(baseband: &[i32], sample_rate: u32, offset_hz: f64) -> Vec<C> {
    let step = offset_hz / sample_rate as f64;
    let mut phase = 0.0f64;
    baseband
        .iter()
        .map(|&v| {
            phase = (phase + v as f64 * 1e-9 + step) % 1.0;
            let p = (phase * TAU) as f32;
            C::new(p.cos(), p.sin())
        })
        .collect()
}

fn video_iq(cfg: &SyntheticVideoConfig, n_fields: usize, offset_hz: f64) -> Vec<C> {
    modulated(&generate_fields(cfg, n_fields), cfg.sample_rate, offset_hz)
}

/// A bare sync train: -0.4 of the deviation for 7 % of a line, +0.5 for the
/// rest.
fn make_fm_sync_iq(
    sample_rate: u32,
    n_samples: usize,
    line_rate: f64,
    deviation: f64,
    carrier_offset: f64,
) -> Vec<C> {
    let baseband: Vec<i32> = (0..n_samples)
        .map(|i| {
            let t = i as f64 / sample_rate as f64;
            let level = if (t * line_rate).fract() < 0.07 { -0.4 } else { 0.5 };
            (level * deviation / sample_rate as f64 * 1e9).round() as i32
        })
        .collect();
    modulated(&baseband, sample_rate, carrier_offset)
}

fn make_fm_sinusoidal_iq(
    sample_rate: u32,
    n_samples: usize,
    modulation_hz: f64,
    deviation: f64,
    carrier_offset: f64,
) -> Vec<C> {
    let baseband: Vec<i32> = (0..n_samples)
        .map(|i| {
            let t = i as f64 / sample_rate as f64;
            let level = (TAU * modulation_hz * t).sin();
            (level * deviation / sample_rate as f64 * 1e9).round() as i32
        })
        .collect();
    modulated(&baseband, sample_rate, carrier_offset)
}

/// Lines at the PAL rate with blanking at the carrier and tips two megahertz
/// below it.
fn make_pal_pulse_train(sample_rate: u32, num_lines: usize) -> Vec<C> {
    let spl = (sample_rate as f64 / 15625.0).round() as usize;
    let sync_tip = (sample_rate as f64 * 4.7e-6) as usize;
    let tip = (-0.4 * 5.0e6 / sample_rate as f64 * 1e9).round() as i32;
    let baseband: Vec<i32> = (0..spl * num_lines + 1)
        .map(|i| if i % spl < sync_tip && i < spl * num_lines { tip } else { 0 })
        .collect();
    modulated(&baseband, sample_rate, 0.0)
}

fn uniform(seed: &mut u64) -> f32 {
    *seed = xorshift(*seed);
    (*seed as f64 / u64::MAX as f64) as f32 * 2.0 - 1.0
}

fn uniform_noise(n: usize, amplitude: f32, mut seed: u64) -> Vec<C> {
    (0..n)
        .map(|_| {
            let re = uniform(&mut seed);
            let im = uniform(&mut seed);
            C::new(re * amplitude, im * amplitude)
        })
        .collect()
}

fn gauss(seed: &mut u64) -> f32 {
    let mut acc = 0.0f32;
    for _ in 0..12 {
        *seed = xorshift(*seed);
        acc += (*seed >> 11) as f32 / (1u64 << 53) as f32;
    }
    acc - 6.0
}

fn awgn(iq: &mut [C], sigma: f32, seed: &mut u64) {
    for z in iq.iter_mut() {
        z.re += sigma * gauss(seed);
        z.im += sigma * gauss(seed);
    }
}

fn summed(a: &[C], b: &[C]) -> Vec<C> {
    a.iter().zip(b).map(|(a, b)| a + b).collect()
}

fn videos(found: &[DetectionResult]) -> usize {
    found.iter().filter(|r| r.signal_type.is_analog_video()).count()
}

#[test]
fn cepstrum_passes_real_pal_pulse_train() {
    let sr = 10_000_000u32;
    let iq = make_pal_pulse_train(sr, 500);
    let (sig, conf) = sync_pulses(&AnalogFpvDetector::new(10), &iq, sr);
    assert!(sig != SignalType::Unknown, "rejected; {sig:?}, {conf}");
    assert!(conf > 0);
}

#[test]
fn zero_sample_rate_does_not_panic() {
    let iq = vec![C::new(0.5, -0.5); 4096];
    let det = AnalogFpvDetector::new(10);
    assert_eq!(sync_pulses(&det, &iq, 0).0, SignalType::Unknown);
    assert!(detect(&det, &iq, CENTER, 0).is_empty());
}

#[test]
fn cepstrum_rejects_pure_noise() {
    let iq = uniform_noise(200_000, 1.0, 42);
    let (sig, _) = sync_pulses(&AnalogFpvDetector::new(10), &iq, 10_000_000);
    assert_eq!(sig, SignalType::Unknown, "noise should be Unknown");
}

#[test]
fn a_second_transmitter_does_not_unclassify_an_ntsc_line_of_non_integer_probe_samples() {
    let rate = 80_000_000u32;
    let n = 524_288;
    let iq = summed(
        &make_fm_sync_iq(rate, n, 15625.0, 4e6, -20e6),
        &make_fm_sync_iq(rate, n, 15734.0, 4e6, 20e6),
    );
    let found = detect(&AnalogFpvDetector::default(), &iq, CENTER, rate);
    for (off_hz, want) in [
        (-20e6f64, SignalType::AnalogVideoPal),
        (20e6, SignalType::AnalogVideoNtsc),
    ] {
        let at = 5_800e6 + off_hz;
        let hit = found
            .iter()
            .find(|d| (d.frequency_hz as f64 - at).abs() < 3e6)
            .unwrap_or_else(|| panic!("{want:?} at {off_hz:+e} Hz not reported: {found:?}"));
        assert_eq!(hit.signal_type, want, "at {off_hz:+e} Hz: {hit:?}");
    }
}

#[test]
fn detects_video_under_awgn() {
    let rate = 15_360_000u32;
    let mut iq = video_iq(&config(false, rate, 5_000_000), 2, 0.0);
    awgn(&mut iq, 0.35, &mut 0xC0FFEE42u64);
    let (kind, conf) = sync_pulses(&AnalogFpvDetector::default(), &iq, rate);
    assert!(kind.is_analog_video(), "got {kind:?} (conf {conf})");
}

#[test]
fn narrow_wideband_capture_reports_center_frequency() {
    let sr = 15_360_000u32;
    let iq = make_pal_pulse_train(sr, 64);
    let results = detect(&AnalogFpvDetector::new(1_995_262), &iq, CENTER, sr);
    assert_eq!(results.len(), 1, "expected exactly one detection");
    assert!(
        (results[0].frequency_hz as i64 - 5_800_000_000).abs() < 100_000,
        "reported {} Hz",
        results[0].frequency_hz
    );
    assert_eq!(results[0].signal_type, SignalType::AnalogVideoPal);
}

#[test]
fn flat_noise_band_at_narrow_wideband_rate_yields_nothing() {
    let iq = uniform_noise(150_000, 1e-3, 0xDEADBEEF);
    let results = detect(&AnalogFpvDetector::default(), &iq, 3_650_000_000, 15_360_000);
    assert!(results.is_empty(), "empty band produced {results:?}");
}

#[test]
fn full_field_ntsc_signal_boosts_to_0_95_via_detect_sync_pulses() {
    let rate = 15_360_000u32;
    let iq = video_iq(&config(false, rate, 5_000_000), 2, 0.0);
    let (kind, conf) = sync_pulses(&AnalogFpvDetector::default(), &iq, rate);
    assert_eq!(kind, SignalType::AnalogVideoNtsc);
    assert_eq!(conf, 950);
}

#[test]
fn line_rate_comb_without_vbi_structure_stays_at_0_8_by_default() {
    let sr = 15_360_000u32;
    let iq = make_pal_pulse_train(sr, 800);
    let (kind, conf) = sync_pulses(&AnalogFpvDetector::default(), &iq, sr);
    assert_eq!(kind, SignalType::AnalogVideoPal);
    assert_eq!(conf, 800);
}

#[test]
fn line_rate_comb_demotes_below_the_floor_when_flag_enabled() {
    let sr = 15_360_000u32;
    let iq = make_pal_pulse_train(sr, 800);
    let det = AnalogFpvDetector {
        demote_unconfirmed_video: true,
        ..AnalogFpvDetector::default()
    };
    let (kind, conf) = sync_pulses(&det, &iq, sr);
    assert_eq!(kind, SignalType::AnalogVideoPal);
    assert_eq!(conf, 600);
    assert!(det.min_confidence > conf);
}

#[test]
fn integration_detects_where_single_batches_cannot() {
    let rate = 15_360_000u32;
    // Lines at 15734 Hz sharp, as a clock that is 17 millionths slow has them.
    let clean = video_iq(&config(false, 15_360_259, 5_000_000), 2, 0.0);
    let det = AnalogFpvDetector::default();
    let batch = |b: u64| {
        let mut iq = clean.clone();
        let mut seed = 0x1111u64.wrapping_add(b.wrapping_mul(0x9E3779B97F4A7C15));
        awgn(&mut iq, 1.2, &mut seed);
        iq
    };
    for b in 0..4u64 {
        let (kind, conf) = sync_pulses(&det, &batch(b), rate);
        assert!(!kind.is_analog_video(), "batch {b}: {kind:?} (conf {conf})");
    }
    let mut integ = SpectralIntegrator::new(4);
    let mut last = (SignalType::Unknown, 0);
    for b in 0..4u64 {
        last = sync_pulses_integrated(&det, &batch(b), rate, 5_800_000_000, &mut integ);
    }
    assert!(last.0.is_analog_video() && last.1 >= 700, "got {last:?}");
}

#[test]
fn colliding_line_rate_windows_do_not_discard_a_strong_signal() {
    let rate = 25_000_000u32;
    let full = video_iq(&config(false, rate, 5_000_000), 8, 0.0);
    let det = AnalogFpvDetector::default();
    for len in [196_608usize, 262_144, 327_680] {
        assert!(len <= full.len(), "test signal too short for len={len}");
        let found = detect(&det, &full[..len], CENTER, rate);
        assert!(!found.is_empty(), "clean NTSC carrier discarded at len={len}");
        assert!(
            !found.iter().any(|d| d.signal_type == SignalType::AnalogVideoPal),
            "NTSC signal reported as PAL at len={len}"
        );
    }
}

#[test]
fn short_pal_record_resolves_as_pal_not_ntsc() {
    let rate = 40_000_000u32;
    let full = video_iq(&config(true, rate, 5_000_000), 6, 0.0);
    let found = detect(&AnalogFpvDetector::default(), &full[..131_072], CENTER, rate);
    assert!(
        !found.iter().any(|d| d.signal_type == SignalType::AnalogVideoNtsc),
        "clean PAL classified as NTSC: {found:?}"
    );
    let hit = found
        .iter()
        .find(|d| d.signal_type == SignalType::AnalogVideoPal)
        .unwrap_or_else(|| panic!("clean PAL not resolved as PAL: {found:?}"));
    assert!(
        (hit.frequency_hz as f64 - 5_800e6).abs() < 3e6,
        "localised to {} Hz",
        hit.frequency_hz
    );
}

/// The strongest hit of the first packet that shows any.
fn first_hit(baseband: &[i32], sample_rate: u32, off_mhz: f64) -> Option<DetectionResult> {
    let iq = modulated(&baseband[..8 * 65_536], sample_rate, off_mhz * 1e6);
    let det = AnalogFpvDetector::default();
    let mut integ = SpectralIntegrator::new(4);
    iq.chunks(65_536).find_map(|packet| {
        detect_integrated(&det, packet, CENTER, sample_rate, &mut integ)
            .into_iter()
            .max_by_key(|r| r.rssi_mdbm)
    })
}

#[test]
fn sweep_hits_are_localized_to_the_carrier_not_the_probe() {
    for (rate, offsets_mhz) in [
        (61_440_000u32, &[0.0f64, 3.0, 5.0, 7.5, 10.0, 12.0, 15.0, 18.0][..]),
        (25_000_000u32, &[0.0f64, 2.0, 6.0][..]),
    ] {
        let baseband = generate_fields(&config(false, rate, 5_000_000), 6);
        for &off in offsets_mhz {
            let hit = first_hit(&baseband, rate, off)
                .unwrap_or_else(|| panic!("no detection at {rate} Hz, offset {off:+.1} MHz"));
            let reported = (hit.frequency_hz as f64 - 5_800e6) / 1e6;
            let err = reported - off;
            assert!(
                err.abs() < 0.4,
                "{rate} Hz, carrier at {off:+.1} MHz: reported {reported:+.2} MHz"
            );
        }
    }
}

#[test]
fn carrier_localization_degrades_gracefully_with_wrong_deviation() {
    let baseband = generate_fields(&config(false, 61_440_000, 4_000_000), 6);
    let hit = first_hit(&baseband, 61_440_000, 12.0).expect("no detection at 4 MHz deviation");
    let err = (hit.frequency_hz as f64 - 5_800e6) / 1e6 - 12.0;
    assert!(err.abs() < 0.8, "got {err:+.2} MHz");
}

#[test]
fn wideband_sweep_confirms_at_dead_grid_phases() {
    let rate = 30_720_000u32;
    let off_mhz = 7.0f64;
    let mut iq = video_iq(&config(false, rate, 4_000_000), 2, off_mhz * 1e6);
    for z in iq.iter_mut() {
        *z = *z * 4.0;
    }
    awgn(&mut iq, 1.0, &mut 0x5eed_0000);
    let hits = detect(&AnalogFpvDetector::default(), &iq, CENTER, rate);
    let true_hz = 5_800e6 + off_mhz * 1e6;
    let hit = hits
        .iter()
        .filter(|h| (h.frequency_hz as f64 - true_hz).abs() < 2.5e6)
        .max_by_key(|h| h.confidence)
        .unwrap_or_else(|| panic!("no detection at +{off_mhz} MHz: {hits:?}"));
    assert_eq!(hit.signal_type, SignalType::AnalogVideoNtsc);
    assert!(hit.confidence >= 950, "stuck at {}", hit.confidence);
}

#[test]
fn wide_cut_confirmation_overrules_a_narrow_probe_demotion() {
    let rate = 30_720_000u32;
    let clean = video_iq(&config(false, rate, 4_000_000), 2, 7.0e6);
    let det = AnalogFpvDetector {
        demote_unconfirmed_video: true,
        ..AnalogFpvDetector::default()
    };
    let cutoff = det
        .wide_cut(rate, 5_000_000)
        .expect("a valid deviation defines a cut");
    let demod = wide_cut(&clean, rate, 2 * 9_640_000, cutoff);
    assert!(
        det.localize_carrier(&demod, rate, cutoff).is_some(),
        "the tip should be readable on the wide cut"
    );
    let judged = |kind: SignalType, conf: u32| {
        let evidence = estimate_sync_levels(&demod, rate)
            .map(|levels| field_sync(&demod, rate, levels, Some(false)));
        confirm_on_wide_cut(kind, conf, evidence, det.demote_unconfirmed_video)
    };
    assert_eq!(judged(SignalType::AnalogVideoNtsc, 600), 950);
    assert_eq!(judged(SignalType::AnalogVideoNtsc, 800), 950);
    assert_eq!(judged(SignalType::Unknown, 0), 0);
    assert_eq!(judged(SignalType::AnalogVideoNtsc, 950), 950);
}

#[test]
fn two_transmitters_one_channel_apart_are_not_merged() {
    let rate = 61_440_000u32;
    let baseband = generate_fields(&config(false, rate, 5_000_000), 3);
    let left = modulated(&baseband, rate, -10e6);
    let right = modulated(&baseband, rate, 10e6);
    let d = AnalogFpvDetector {
        min_confidence: 550,
        ..AnalogFpvDetector::default()
    };
    assert!(
        !detect(&d, &left, CENTER, rate).is_empty()
            && !detect(&d, &right, CENTER, rate).is_empty(),
        "each transmitter must be detectable on its own"
    );
    let together = detect(&d, &summed(&left, &right), CENTER, rate);
    assert!(together.len() >= 2, "collapsed to {together:?}");
}

#[test]
fn detect_sync_pulses_pal_narrowband() {
    let iq = make_fm_sync_iq(1_000_000, 65536, 15625.0, 75_000.0, 0.0);
    let (kind, conf) = sync_pulses(&AnalogFpvDetector::default(), &iq, 1_000_000);
    assert_eq!(kind, SignalType::AnalogVideoPal);
    assert!(conf >= 500, "got {conf}");
}

#[test]
fn detect_sync_pulses_ntsc_narrowband() {
    let iq = make_fm_sync_iq(1_000_000, 65536, 15734.0, 75_000.0, 0.0);
    let (kind, conf) = sync_pulses(&AnalogFpvDetector::default(), &iq, 1_000_000);
    assert_eq!(kind, SignalType::AnalogVideoNtsc);
    assert!(conf >= 500, "got {conf}");
}

#[test]
fn detect_sync_pulses_noise_only_returns_unknown() {
    let iq = uniform_noise(16384, 0.1, 0x5EED_1234);
    let (kind, _) = sync_pulses(&AnalogFpvDetector::default(), &iq, 1_000_000);
    assert_eq!(kind, SignalType::Unknown);
}

#[test]
fn detect_from_iq_single_ntsc_narrowband() {
    let iq = make_fm_sync_iq(1_000_000, 65536, 15734.0, 75_000.0, 0.0);
    let results = detect(&AnalogFpvDetector::default(), &iq, CENTER, 1_000_000);
    assert!(!results.is_empty());
    assert_eq!(results[0].signal_type, SignalType::AnalogVideoNtsc);
    assert_eq!(results[0].frequency_hz, 5_800_000_000);
}

#[test]
fn detect_from_iq_single_pal_narrowband() {
    let iq = make_fm_sync_iq(1_000_000, 65536, 15625.0, 75_000.0, 0.0);
    let results = detect(&AnalogFpvDetector::default(), &iq, CENTER, 1_000_000);
    assert!(!results.is_empty());
    assert_eq!(results[0].signal_type, SignalType::AnalogVideoPal);
}

#[test]
fn detect_from_iq_wideband_sliding_ddc_finds_offset_signal() {
    let rate = 50_000_000u32;
    let iq = make_fm_sync_iq(rate, 262_144, 15734.0, 5e6, -15e6);
    let results = detect(&AnalogFpvDetector::default(), &iq, CENTER, rate);
    assert!(!results.is_empty());
    let diff = (results[0].frequency_hz as f64 - 5_785e6).abs();
    assert!(diff < 10e6, "{results:?}");
}

#[test]
fn detect_from_iq_wideband_sweep_handles_non_exact_decimation_ratio() {
    let rate = 25_000_000u32;
    let iq = make_fm_sync_iq(rate, 400_000, 15734.0, 4e6, -7.5e6);
    let results = detect(&AnalogFpvDetector::default(), &iq, CENTER, rate);
    assert!(!results.is_empty());
    let diff = (results[0].frequency_hz as f64 - 5_792.5e6).abs();
    assert!(diff < 10e6, "{results:?}");
}

#[test]
fn detect_from_iq_wideband_two_signals_found() {
    let rate = 100_000_000u32;
    let n = 262_144;
    let iq = summed(
        &make_fm_sync_iq(rate, n, 15734.0, 5e6, -25e6),
        &make_fm_sync_iq(rate, n, 15625.0, 5e6, 25e6),
    );
    let results = detect(&AnalogFpvDetector::default(), &iq, CENTER, rate);
    assert!(results.len() >= 2, "{results:?}");
    for want in [5_775e6, 5_825e6] {
        assert!(
            results.iter().any(|r| (r.frequency_hz as f64 - want).abs() < 15e6),
            "nothing near {want}: {results:?}"
        );
    }
}

#[test]
fn detect_from_iq_empty_signal_returns_nothing() {
    let iq = uniform_noise(262_144, 0.001, 0xFEED_F00D);
    let results = detect(&AnalogFpvDetector::default(), &iq, CENTER, 20_000_000);
    assert!(results.is_empty(), "{results:?}");
}

#[test]
fn detect_from_iq_cw_tone_not_classified_as_video() {
    let rate = 20_000_000u32;
    let iq: Vec<C> = (0..262_144)
        .map(|i| {
            let t = i as f32 / rate as f32;
            let p = 2.0 * PI * 3_000_000.0f32 * t;
            C::new(p.cos(), p.sin())
        })
        .collect();
    let results = detect(&AnalogFpvDetector::default(), &iq, CENTER, rate);
    assert_eq!(videos(&results), 0, "{results:?}");
}

#[test]
fn results_are_clustered_within_25mhz() {
    let rate = 100_000_000u32;
    let n = 262_144;
    let iq = summed(
        &make_fm_sync_iq(rate, n, 15734.0, 5e6, -25e6),
        &make_fm_sync_iq(rate, n, 15734.0, 5e6, 25e6),
    );
    let results = detect(&AnalogFpvDetector::default(), &iq, CENTER, rate);
    assert_eq!(results.len(), 2, "{results:?}");
}

#[test]
fn wideband_sweep_time_domain_fallback_identifies_ntsc_when_bins_collide() {
    let rate = 50_000_000u32;
    let iq = make_fm_sync_iq(rate, 262_144, 15734.0, 5e6, -15e6);
    let results = detect(&AnalogFpvDetector::default(), &iq, CENTER, rate);
    assert!(!results.is_empty());
    assert_eq!(results[0].signal_type, SignalType::AnalogVideoNtsc);
    assert!(results[0].signal_type.is_analog_video());
}

#[test]
fn harmonic_check_rejects_pure_tone_at_line_rate() {
    let iq = make_fm_sinusoidal_iq(1_000_000, 65536, 15734.0, 50_000.0, 0.0);
    let results = detect(&AnalogFpvDetector::default(), &iq, CENTER, 1_000_000);
    assert_eq!(videos(&results), 0, "{results:?}");
}

#[test]
fn harmonic_check_rejects_pure_tone_via_wideband_sweep() {
    let rate = 50_000_000u32;
    let iq = make_fm_sinusoidal_iq(rate, 262_144, 15734.0, 50_000.0, -15e6);
    let results = detect(&AnalogFpvDetector::default(), &iq, CENTER, rate);
    assert_eq!(videos(&results), 0, "{results:?}");
}

#[test]
fn test_bandwidth_and_energy_threshold_filtering() {
    let mut det = AnalogFpvDetector::default();
    det.min_bandwidth = 5_000_000;
    let iq = make_fm_sync_iq(1_000_000, 65536, 15625.0, 75_000.0, 0.0);
    assert!(detect(&det, &iq, CENTER, 1_000_000).is_empty());
    det.min_bandwidth = 500_000;
    assert!(!detect(&det, &iq, CENTER, 1_000_000).is_empty());
}

#[test]
fn detect_from_iq_filters_results_below_min_confidence() {
    let iq = make_fm_sync_iq(1_000_000, 65536, 15625.0, 75_000.0, 0.0);
    assert!(!detect(&AnalogFpvDetector::default(), &iq, CENTER, 1_000_000).is_empty());
    let mut strict = AnalogFpvDetector::default();
    strict.min_confidence = 850;
    assert!(detect(&strict, &iq, CENTER, 1_000_000).is_empty());
}

#[test]
fn wideband_sweep_confirms_vbi_structure_at_an_offset() {
    let rate = 50_000_000u32;
    let iq = video_iq(&config(false, rate, 5_000_000), 2, -15e6);
    let results = detect(&AnalogFpvDetector::default(), &iq, CENTER, rate);
    assert!(!results.is_empty());
    assert!(results.iter().any(|r| r.confidence >= 900), "{results:?}");
}

#[test]
fn acquisition_resolves_both_standards_from_the_contiguous_record() {
    let rate = 30_720_000u32;
    for (is_pal, expected, fallback) in [
        (false, SignalType::AnalogVideoNtsc, SignalType::AnalogVideoPal),
        (true, SignalType::AnalogVideoPal, SignalType::AnalogVideoNtsc),
    ] {
        let mut record = AcquisitionRecord::new(rate);
        for chunk in video_iq(&config(is_pal, rate, 3_000_000), 4, 0.0).chunks(65_536) {
            record.push(chunk, false);
        }
        let det = AnalogFpvDetector::default();
        let result = analyze_tuned_channel(
            record.samples(),
            Some(5_865_000_000),
            rate,
            Some(3_000_000),
            fallback,
            |iq: &[C], center, rate| {
                detect(&det, iq, center as u64, rate)
                    .iter()
                    .map(|r| r.frequency_hz as i64)
                    .collect()
            },
            |iq: &[C], rate| sync_pulses(&det, iq, rate),
            |iq: &[C], offset, passband| ddc(iq, rate, offset as f64, passband as f32, 1),
            |iq: &[C]| demodulated(iq),
        )
        .unwrap();
        assert_eq!(result.standard.standard, expected);
        assert_ne!(result.standard.evidence, StandardEvidence::Fallback);
        if let Some(carrier) = result.measured_carrier_hz {
            assert!((carrier - 5_865_000_000).abs() <= 5_000_000);
        }
    }
    let none: &[C] = &[];
    assert!(analyze_tuned_channel(
        none,
        Some(5_865_000_000),
        0,
        Some(3_000_000),
        SignalType::Unknown,
        |_: &[C], _, _| Vec::new(),
        |_: &[C], _| (SignalType::Unknown, 0),
        |iq: &[C], _, _| iq.to_vec(),
        |iq: &[C]| demodulated(iq),
    )
    .is_err());
}
