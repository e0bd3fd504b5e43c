use num_complex::Complex;
use orecchiette_fpv_analog::ddc::{ddc_and_decimate, StreamingDDC, SweepTaps, DEFAULT_FIR_TAPS};
use orecchiette_fpv_analog::gpu::sweep_layout;
use std::f32::consts::PI;

type C = Complex<f32>;
/// Oscillator: where it is, and what a sample turns it by.
type Lo = (C, C);
type Ddc = StreamingDDC<C, f32, Lo>;

fn design(cutoff_hz: f32, sample_rate: u32, num_taps: usize) -> Vec<f32> {
    let cutoff = cutoff_hz / sample_rate.max(1) as f32;
    let m = (num_taps - 1) as f32 / 2.0;
    let mut taps: Vec<f32> = (0..num_taps)
        .map(|i| {
            let n = i as f32 - m;
            let sinc = if n.abs() < 1e-6 {
                2.0 * cutoff
            } else {
                (2.0 * PI * cutoff * n).sin() / (PI * n)
            };
            let x = i as f32 / (num_taps - 1) as f32;
            sinc * (0.42 - 0.5 * (2.0 * PI * x).cos() + 0.08 * (4.0 * PI * x).cos())
        })
        .collect();
    let sum: f32 = taps.iter().sum();
    if sum.is_finite() && sum.abs() > 1e-20 {
        taps.iter_mut().for_each(|t| *t /= sum);
    } else {
        taps.iter_mut().for_each(|t| *t = 0.0);
        taps[num_taps / 2] = 1.0;
    }
    taps
}

fn step_phasor(offset_hz: f32, sample_rate: u32) -> C {
    let advance = -2.0 * PI * offset_hz / sample_rate.max(1) as f32;
    Complex::new(advance.cos(), advance.sin())
}

fn with_taps(offset_hz: f32, sample_rate: u32, cutoff_hz: f32, taps: usize) -> Ddc {
    StreamingDDC::with_taps(
        taps,
        |n| design(cutoff_hz, sample_rate, n),
        (Complex::new(1.0, 0.0), step_phasor(offset_hz, sample_rate)),
        Complex::new(0.0, 0.0),
    )
}

fn ddc(offset_hz: f32, sample_rate: u32, cutoff_hz: f32) -> Ddc {
    StreamingDDC::new(
        |n| design(cutoff_hz, sample_rate, n),
        (Complex::new(1.0, 0.0), step_phasor(offset_hz, sample_rate)),
        Complex::new(0.0, 0.0),
    )
}

fn mix(x: C, lo: Lo) -> (C, Lo) {
    let mut next = lo.0 * lo.1;
    let inv = 0.5 * (3.0 - next.norm_sqr());
    next.re *= inv;
    next.im *= inv;
    (x * lo.0, (next, lo.1))
}

fn dot(window: &[C], taps: &[f32]) -> C {
    let mut sum = Complex::new(0.0f32, 0.0);
    for (i, w) in window.iter().enumerate() {
        sum.re += w.re * taps[2 * i];
        sum.im += w.im * taps[2 * i + 1];
    }
    sum
}

/// Direct convolution checks the taps' order, short tap counts, the
/// oscillator's state and what a reset leaves.
#[test]
fn streaming_kernel_matches_direct_convolution_across_gaps() {
    let iq: Vec<C> = (0..701)
        .map(|i| Complex::new((i as f32 * 0.731).sin(), (i as f32 * 0.317).cos()))
        .collect();
    for taps in [3, 4, 7, 16, 31, 63, 127, 128] {
        for offset in [0.0, 0.1, -850_000.0] {
            for factor in [0usize, 1, 3, 4] {
                let response = design(3e6, 15_360_000, taps);
                let mut ddc = with_taps(offset, 15_360_000, 3e6, taps);
                let mut lo: Lo = (Complex::new(1.0, 0.0), step_phasor(offset, 15_360_000));
                for segment in [&iq[..173], &iq[173..]] {
                    ddc.reset();
                    let mixed: Vec<C> = segment
                        .iter()
                        .map(|&x| {
                            let (y, next) = mix(x, lo);
                            lo = next;
                            y
                        })
                        .collect();
                    let expected: Vec<C> = (0..mixed.len())
                        .step_by(factor.max(1))
                        .map(|i| {
                            let mut sum = Complex::new(0.0f64, 0.0);
                            for k in 0..taps.min(i + 1) {
                                sum.re += f64::from(mixed[i - k].re) * f64::from(response[k]);
                                sum.im += f64::from(mixed[i - k].im) * f64::from(response[k]);
                            }
                            Complex::new(sum.re as f32, sum.im as f32)
                        })
                        .collect();
                    let sentinel = Complex::new(42.0, -42.0);
                    let mut actual = vec![sentinel];
                    for part in segment.chunks(17) {
                        ddc.process_into_decimated(&[], &mut actual, factor, mix, dot);
                        ddc.process_into_decimated(part, &mut actual, factor, mix, dot);
                    }
                    assert_eq!(actual[0], sentinel, "output must append");
                    assert_eq!(actual.len() - 1, expected.len());
                    for (i, (a, b)) in actual[1..].iter().zip(expected).enumerate() {
                        assert!(
                            (*a - b).norm() < 2e-6,
                            "taps={taps} offset={offset} factor={factor} sample={i}: {a:?} != {b:?}"
                        );
                    }
                }
            }
        }
    }
}

/// A tone at DC passes through.
#[test]
fn ddc_passes_dc() {
    let mut ddc = ddc(0.0, 1_000_000, 100_000.0);
    let iq = vec![Complex::new(1.0, 0.0); 1024];
    let out = ddc.process(&iq, mix, dot);
    let tail = &out[200..];
    let mean: f32 = tail.iter().map(|c| c.re).sum::<f32>() / tail.len() as f32;
    assert!((mean - 1.0).abs() < 0.01, "DC gain drifted: {}", mean);
}

/// A tone at the oscillator's frequency is brought down to DC.
#[test]
fn ddc_mixes_tone_to_dc() {
    let fs = 1_000_000u32;
    let f_tone = 200_000.0f32;
    let iq: Vec<C> = (0..4096)
        .map(|i| Complex::from_polar(1.0, 2.0 * PI * f_tone * (i as f32 / fs as f32)))
        .collect();
    let mut ddc = ddc(f_tone, fs, 50_000.0);
    let out = ddc.process(&iq, mix, dot);
    let tail = &out[200..];
    let mean_mag: f32 = tail.iter().map(|c| c.norm()).sum::<f32>() / tail.len() as f32;
    assert!(
        (mean_mag - 1.0).abs() < 0.05,
        "tone-to-DC magnitude drift: {}",
        mean_mag,
    );
}

fn with_response(taps: Vec<f32>) -> Ddc {
    let zero = Complex::new(0.0, 0.0);
    StreamingDDC::from_designed_taps(
        taps,
        (Complex::new(1.0, 0.0), step_phasor(0.0, 1_000_000)),
        zero,
    )
}

/// An asymmetric response tells the direction of the convolution.
#[test]
fn convolution_handles_asymmetric_taps() {
    let n = DEFAULT_FIR_TAPS;
    let mut taps = vec![0.0; n];
    taps[0] = 1.0;
    let mut ddc = with_response(taps);
    let iq: Vec<C> = (0..200).map(|i| Complex::new(i as f32, 0.0)).collect();
    let out = ddc.process(&iq, mix, dot);
    for (i, c) in out.iter().enumerate() {
        assert!(
            (c.re - i as f32).abs() < 1e-3 && c.im.abs() < 1e-3,
            "impulse-at-tap-0 should pass input through unchanged: out[{}] = {:?}",
            i,
            c,
        );
    }
    let mut taps = vec![0.0; n];
    taps[n - 1] = 1.0;
    let mut ddc = with_response(taps);
    let out = ddc.process(&iq, mix, dot);
    for (i, c) in out.iter().enumerate().take(n - 1) {
        assert!(
            c.re.abs() < 1e-3 && c.im.abs() < 1e-3,
            "during warmup the oldest sample is silence: out[{}] = {:?}",
            i,
            c,
        );
    }
    for (i, c) in out.iter().enumerate().skip(n - 1) {
        let expected = (i - (n - 1)) as f32;
        assert!(
            (c.re - expected).abs() < 1e-3,
            "impulse-at-tap-{} should delay by {}: out[{}] = {:?}, expected ({}, 0)",
            n - 1,
            n - 1,
            i,
            c,
            expected,
        );
    }
}

/// A stream fed in chunks gives exactly what it gives in one call.
#[test]
fn decimation_phase_survives_chunk_boundaries() {
    let sample_rate = 4_000_000;
    let iq: Vec<C> = (0..8_192)
        .map(|i| {
            let t = i as f32 / sample_rate as f32;
            let ph = 2.0 * PI * 250_000.0 * t;
            Complex::new(ph.cos(), ph.sin())
        })
        .collect();
    let lo = 137_000.0;
    for factor in [2usize, 3, 4, 5] {
        let mut whole = ddc(lo, sample_rate, 400_000.0);
        let mut one_shot = Vec::new();
        whole.process_into_decimated(&iq, &mut one_shot, factor, mix, dot);
        for chunk in [100usize, 333, 1024, 4096] {
            let mut streamed_ddc = ddc(lo, sample_rate, 400_000.0);
            let mut streamed = Vec::new();
            for part in iq.chunks(chunk) {
                streamed_ddc.process_into_decimated(part, &mut streamed, factor, mix, dot);
            }
            assert_eq!(
                streamed.len(),
                one_shot.len(),
                "factor {factor}, chunk {chunk}: sample count diverged"
            );
            for (i, (a, b)) in one_shot.iter().zip(&streamed).enumerate() {
                assert!(
                    (a - b).norm() < 1e-6,
                    "factor {factor}, chunk {chunk}: sample {i} diverged, {a:?} vs {b:?}"
                );
            }
        }
    }
}

/// A factor of 0 behaves like 1.
#[test]
fn decimation_factor_zero_does_not_panic() {
    let mut ddc = ddc(0.0, 1_000_000, 100_000.0);
    let iq = vec![Complex::new(1.0, 0.0); 256];
    let out = ddc.process_decimated(&iq, 0, mix, dot);
    assert_eq!(out.len(), iq.len(), "factor 0 should behave like factor 1");
}

/// Fewer than three taps are three.
#[test]
fn degenerate_tap_counts_are_clamped_not_nan() {
    for n in [0usize, 1, 2, 3] {
        let mut ddc = with_taps(0.0, 1_000_000, 100_000.0, n);
        assert!(ddc.num_taps() >= 3, "tap count {n} not clamped");
        let out = ddc.process(&vec![Complex::new(1.0, 0.0); 16], mix, dot);
        let dc_gain = out[15].re;
        assert!(
            dc_gain.is_finite() && (dc_gain - 1.0).abs() < 1e-4,
            "taps for n={n} not unity-gain/finite: {dc_gain}"
        );
    }
}

/// The oscillator stays on the unit circle over long runs.
#[test]
fn phasor_magnitude_remains_unity() {
    let mut ddc = ddc(123_456.7, 1_000_000, 100_000.0);
    let iq = vec![Complex::new(0.0, 0.0); 200_000];
    let _ = ddc.process_decimated(&iq, 1000, mix, dot);
    let out = ddc.process(&vec![Complex::new(1.0, 0.0); 1], mix, |w, _| w[w.len() - 1]);
    let mag = out[0].norm();
    assert!((mag - 1.0).abs() < 1e-3, "phasor magnitude drifted: {mag}");
}

/// Reset must leave nothing of the old signal.
#[test]
fn reset_leaves_no_tail_of_the_previous_signal() {
    let mut ddc = ddc(0.0, 1_000_000, 200_000.0);
    let loud: Vec<C> = (0..512).map(|_| Complex::new(10.0, -10.0)).collect();
    let mut out = Vec::new();
    ddc.process_into(&loud, &mut out, mix, dot);

    // Silence straight after the burst still rings.
    let mut ringing = Vec::new();
    ddc.process_into(&vec![Complex::new(0.0, 0.0); 128], &mut ringing, mix, dot);
    let rung: f32 = ringing.iter().map(|c| c.norm()).sum();
    assert!(rung > 0.0, "a continuous stream should carry its tail");

    // After a reset it must not.
    ddc.reset();
    let mut clean = Vec::new();
    ddc.process_into(&vec![Complex::new(0.0, 0.0); 128], &mut clean, mix, dot);
    let leaked: f32 = clean.iter().map(|c| c.norm()).sum();
    assert!(
        leaked < 1e-6,
        "reset still leaked {leaked} of the previous signal"
    );
}

#[test]
fn taps_are_laid_out_in_reversed_pairs() {
    assert_eq!(Ddc::derive_conv_taps(&[1.0, 2.0, 3.0]), vec![3.0, 3.0, 2.0, 2.0, 1.0, 1.0]);
}

#[test]
fn a_sweep_designs_its_taps_once() {
    let mut shared: SweepTaps<f32> = SweepTaps::new();
    let taps = shared.cached_sweep_taps(50_000_000, 10_000_000, |rate, target| {
        design(target as f32 / 3.0, rate, DEFAULT_FIR_TAPS)
    });
    assert_eq!(taps.len(), DEFAULT_FIR_TAPS);
    let again = shared.cached_sweep_taps(50_000_000, 10_000_000, |_, _| panic!("designed again"));
    assert_eq!(again, taps);
    let other = shared.cached_sweep_taps(25_000_000, 10_000_000, |_, _| vec![1.0; 3]);
    assert_eq!(other, vec![1.0; 3]);
}

#[test]
fn a_probe_is_cut_as_a_fresh_converter_cuts_it() {
    let iq: Vec<C> = (0..1_000)
        .map(|i| Complex::from_polar(1.0, 0.3 * i as f32))
        .collect();
    let taps = design(3e6, 50_000_000, DEFAULT_FIR_TAPS);
    let lo = (Complex::new(1.0, 0.0), step_phasor(2e6, 50_000_000));
    let cut = ddc_and_decimate(&iq, taps, lo, Complex::new(0.0, 0.0), 5, mix, dot);
    assert_eq!(cut.len(), 200);
    let whole = ddc(2e6, 50_000_000, 3e6).process_decimated(&iq, 5, mix, dot);
    assert_eq!(cut, whole);
}

#[test]
fn a_batched_sweep_has_as_many_outputs() {
    for (n, stride) in [(1usize, 1usize), (100, 7), (64, 64), (65, 64), (1_000, 3)] {
        let iq = vec![Complex::new(1.0, 0.0); n];
        let outputs = ddc(0.0, 1_000_000, 1e5).process_decimated(&iq, stride, mix, dot).len();
        assert_eq!(outputs, sweep_layout(n, 1, stride).unwrap().out_len as usize);
    }
}
