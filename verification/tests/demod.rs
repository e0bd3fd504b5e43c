use num_complex::Complex;
use orecchiette_fpv_analog::demod::{
    fm_demod, fm_demod_into, fm_demod_simd, Deemphasis, DEFAULT_DEEMPHASIS_TAU_NS,
};
use std::f32::consts::PI;

const TAU: f32 = DEFAULT_DEEMPHASIS_TAU_NS as f32 * 1e-9;

fn arg(cur: &Complex<f32>, prev: &Complex<f32>) -> f32 {
    let p = cur * prev.conj();
    p.im.atan2(p.re)
}

fn alpha(sample_rate: u32, tau: f32) -> f32 {
    1.0 - (-1.0 / (sample_rate as f32 * tau)).exp()
}

fn run(d: &mut Deemphasis<f32>, data: &mut [f32], a: f32) {
    d.process_in_place(data, |x, y| a * x + (1.0 - a) * y);
}

#[test]
fn fm_demod_matches_scalar_reference() {
    // In-band rotation, near-pi wraps, and a chirp to cover quadrants.
    let n = 4096;
    let iq: Vec<Complex<f32>> = (0..n)
        .map(|i| {
            let t = i as f32;
            Complex::from_polar(1.0, 0.0123 * t + 0.000_001 * t * t)
        })
        .collect();
    let out = fm_demod(&iq, arg);
    assert_eq!(out.len(), n - 1);
    for i in 0..(n - 1) {
        let prod = iq[i + 1] * iq[i].conj();
        let expected = prod.im.atan2(prod.re);
        assert!(
            (out[i] - expected).abs() < 1e-5,
            "mismatch at i={i}: got {}, expected {}",
            out[i],
            expected
        );
    }
}

#[test]
fn fm_demod_handles_pi_boundary() {
    let iq = vec![
        Complex::from_polar(1.0, 0.0),
        Complex::from_polar(1.0, PI - 0.001),
    ];
    let out = fm_demod(&iq, arg);
    assert_eq!(out.len(), 1);
    assert!((out[0].abs() - (PI - 0.001)).abs() < 1e-4, "got {}", out[0]);
}

#[test]
fn fm_demod_short_input() {
    assert!(fm_demod(&[], arg).is_empty());
    assert!(fm_demod(&[Complex::new(1.0, 0.0)], arg).is_empty());
}

#[test]
fn fm_demod_simd_alias_matches() {
    let iq: Vec<Complex<f32>> = (0..128)
        .map(|i| Complex::from_polar(1.0, 0.013 * i as f32))
        .collect();
    assert_eq!(fm_demod(&iq, arg), fm_demod_simd(&iq, arg));
}

#[test]
fn fm_demod_into_refills_its_buffer() {
    let mut out = vec![1, 2, 3];
    fm_demod_into(&[5, 7, 4], &mut out, |c: &i32, p: &i32| c - p);
    assert_eq!(out, vec![2, -3]);
}

#[test]
fn a_carried_sample_joins_chunks() {
    let data = [3, 1, 4, 1, 5, 9, 2, 6];
    let diff = |c: &i32, p: &i32| c - p;
    let whole = fm_demod(&data, diff);
    let mut parts = fm_demod(&data[..4], diff);
    parts.extend(fm_demod(&data[3..], diff));
    assert_eq!(whole, parts);
}

#[test]
fn deemphasis_has_unity_dc_gain() {
    let mut d = Deemphasis::new();
    let mut data = vec![0.37f32; 1000];
    run(&mut d, &mut data, alpha(10_000_000, TAU));
    for &v in &data[500..] {
        assert!(
            (v - 0.37).abs() < 1e-6,
            "expected steady state 0.37, got {v}"
        );
    }
}

#[test]
fn deemphasis_minus_3db_point_matches_raw_time_constant() {
    let sample_rate = 20_000_000u32;
    let f_c = 1.0 / (2.0 * PI * TAU);
    let measure_gain = |freq: f32| -> f32 {
        let n = 20_000;
        let mut d = Deemphasis::new();
        let mut data: Vec<f32> = (0..n)
            .map(|i| (2.0 * PI * freq * i as f32 / sample_rate as f32).sin())
            .collect();
        run(&mut d, &mut data, alpha(sample_rate, TAU));
        let tail = &data[n / 2..];
        (tail.iter().map(|v| v * v).sum::<f32>() / tail.len() as f32).sqrt()
    };
    let ratio = measure_gain(f_c) / measure_gain(1_000.0);
    assert!(
        (ratio - std::f32::consts::FRAC_1_SQRT_2).abs() < 0.05,
        "gain ratio at f_c={f_c:.0} Hz was {ratio}"
    );
}

#[test]
fn deemphasis_streaming_matches_one_shot() {
    let a = alpha(15_360_000, TAU);
    let signal: Vec<f32> = (0..2000).map(|i| (0.01 * i as f32).sin() * 0.5).collect();

    let mut one_shot = signal.clone();
    run(&mut Deemphasis::new(), &mut one_shot, a);

    let mut streamed = signal.clone();
    let mut d = Deemphasis::new();
    let (x, y) = streamed.split_at_mut(700);
    run(&mut d, x, a);
    run(&mut d, y, a);

    for i in 0..signal.len() {
        assert!(
            (one_shot[i] - streamed[i]).abs() < 1e-6,
            "mismatch at i={i}: one_shot={} streamed={}",
            one_shot[i],
            streamed[i]
        );
    }
}

#[test]
fn deemphasis_reset_clears_state_like_a_fresh_instance() {
    let a = alpha(15_360_000, TAU);
    let mut d = Deemphasis::new();
    let mut warm_up = vec![0.9f32; 200];
    run(&mut d, &mut warm_up, a);

    d.reset();
    let mut after_reset = vec![0.2f32; 50];
    run(&mut d, &mut after_reset, a);

    let mut fresh_data = vec![0.2f32; 50];
    run(&mut Deemphasis::new(), &mut fresh_data, a);
    assert_eq!(
        after_reset, fresh_data,
        "reset should behave like a fresh instance"
    );
}
