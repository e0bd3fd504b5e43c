use orecchiette_fpv_analog::levels::SyncLevels;
use orecchiette_fpv_analog::metrics::gradients;
use orecchiette_fpv_analog::synthetic::{
    generate_fields, xorshift, SyntheticVideoConfig, TestPattern, OUTPUT_WIDTH,
};
use orecchiette_fpv_analog::timing::Ratio;
use orecchiette_fpv_analog::types::SignalType;
use orecchiette_fpv_analog::vbi::{FieldParity, VerticalSync};
use orecchiette_fpv_analog::video::{
    detect_video_standard, matched_sync_center, robust_sync_tip_center, FrameReconstructor,
};
use std::f64::consts::TAU;

const SUB: f64 = 1e6;

fn nanoturns(rad: f64) -> i32 {
    (rad / TAU * 1e9).round() as i32
}

/// A field that starts at a sample, with its first equalizing pulse.
#[derive(Clone, Copy)]
struct Start {
    at: f64,
    parity: FieldParity,
}

fn line_period(rate: u32, is_pal: bool) -> f64 {
    if is_pal {
        rate as f64 / 15_625.0
    } else {
        rate as f64 * 1001.0 / 15_750_000.0
    }
}

/// Where the fields of a generated record start.
fn starts(cfg: &SyntheticVideoConfig, n: usize) -> Vec<Start> {
    let half_lines = if cfg.is_pal { 625.0 } else { 525.0 };
    let mut parity = cfg.start_field;
    (0..n)
        .map(|k| {
            let s = Start {
                at: k as f64 * half_lines / 2.0 * line_period(cfg.sample_rate, cfg.is_pal),
                parity,
            };
            parity = parity.next();
            s
        })
        .collect()
}

/// The first vertical sync group at or after a sample, where the generator
/// put it.
fn truth(fields: &[Start], cursor: usize, rate: u32, is_pal: bool) -> Option<VerticalSync> {
    let period = line_period(rate, is_pal);
    let (eq, active) = if is_pal { (2.5, 23.5) } else { (3.0, 21.0) };
    fields.iter().find_map(|f| {
        let broad = f.at + eq * period - cursor as f64;
        let half = if f.parity == FieldParity::Second { 0.5 } else { 0.0 };
        let tip = f.at + (active + half) * period + 2.35e-6 * rate as f64 - cursor as f64;
        (broad >= 0.0).then(|| VerticalSync {
            n_broad: 6,
            n_eq_pre: 6,
            n_eq_post: 6,
            parity: Some(f.parity),
            broad_start: (broad * SUB).round() as i64,
            field_active_start: (tip * SUB).round() as i64,
        })
    })
}

/// Whether a stretch is dominated by the colour subcarrier.
fn burst(window: &Vec<i64>) -> bool {
    let n = window.len() as f64;
    let mean = window.iter().sum::<i64>() as f64 / n;
    let x: Vec<f64> = window.iter().map(|&v| (v as f64 - mean) * 1e-9 * TAU).collect();
    let var = x.iter().map(|v| v * v).sum::<f64>() / n;
    let w0 = TAU * 3.579545e6 / (858.0 / 63.5555e-6);
    let coeff = 2.0 * w0.cos();
    let (mut s1, mut s2) = (0.0, 0.0);
    for v in &x {
        let s0 = v + coeff * s1 - s2;
        s2 = s1;
        s1 = s0;
    }
    let power: f64 = s1 * s1 + s2 * s2 - coeff * s1 * s2;
    var > 1e-12 && 4.0 * power.max(0.0) / (n * n) > var
}

/// A zero-phase notch at the subcarrier.
fn notch(line: &Vec<i64>) -> Vec<i64> {
    let w0 = TAU * 3.579545e6 / (858.0 / 63.5555e-6);
    let alpha = w0.sin() / 16.0;
    let a0 = 1.0 + alpha;
    let (b0, b1, a2) = (1.0 / a0, -2.0 * w0.cos() / a0, (1.0 - alpha) / a0);
    let pass = |data: &mut Vec<f64>| {
        let first = data[0];
        let (mut x1, mut x2, mut y1, mut y2) = (first, first, first, first);
        for v in data.iter_mut() {
            let x = *v;
            let y = b0 * x + b1 * x1 + b0 * x2 - b1 * y1 - a2 * y2;
            x2 = x1;
            x1 = x;
            y2 = y1;
            y1 = y;
            *v = y;
        }
    };
    let mut data: Vec<f64> = line.iter().map(|&v| v as f64).collect();
    pass(&mut data);
    data.reverse();
    pass(&mut data);
    data.reverse();
    data.into_iter()
        .map(|v| v.round().clamp(-1e13, 1e13) as i64)
        .collect()
}

fn no_sync(_: &[i32], _: u32, _: &SyncLevels, _: bool) -> Option<VerticalSync> {
    None
}

/// Render the field from a cursor on, with the vertical sync that the
/// generator put there.
fn render(
    recon: &mut FrameReconstructor,
    data: &[i32],
    cursor: usize,
    fields: &[Start],
    frame: &mut [u32],
) -> Option<usize> {
    let fields = fields.to_vec();
    recon.reconstruct_frame_into(
        &data[cursor..],
        frame,
        |_: &[i32], rate: u32, _: &SyncLevels, pal: bool| truth(&fields, cursor, rate, pal),
        &burst,
        &notch,
    )
}

#[test]
fn detect_video_standard_rejects_noise_instead_of_claiming_ntsc() {
    let sr = 15_360_000u32;
    let mut seed = 0x2545F491_4F6CDD1Du64;
    let noise: Vec<i32> = (0..sr as usize / 20)
        .map(|_| {
            seed ^= seed << 13;
            seed ^= seed >> 7;
            seed ^= seed << 17;
            nanoturns(((seed as f32 / u64::MAX as f32) * 2.0 - 1.0) as f64)
        })
        .collect();
    assert_eq!(
        detect_video_standard(&noise, sr),
        SignalType::Unknown,
        "noise must not be classified as a video standard"
    );
}

#[test]
fn detect_video_standard_returns_unknown_on_degenerate_input() {
    let sr = 15_360_000u32;
    // Too short to contain a single line.
    assert_eq!(detect_video_standard(&[0; 100], sr), SignalType::Unknown);
    // All-positive waveform: no sync tips, so no standard can be claimed.
    let positive = vec![nanoturns(0.5); sr as usize / 10];
    assert_eq!(detect_video_standard(&positive, sr), SignalType::Unknown);
}

#[test]
fn detect_video_standard_still_identifies_real_pal_and_ntsc() {
    for is_pal in [false, true] {
        let cfg = base_synth_config(is_pal, 5_000_000);
        let data = generate_fields(&cfg, 2);
        let want = if is_pal {
            SignalType::AnalogVideoPal
        } else {
            SignalType::AnalogVideoNtsc
        };
        assert_eq!(
            detect_video_standard(&data, cfg.sample_rate),
            want,
            "is_pal={is_pal}: real synthetic video must still classify"
        );
        // A tuning error does not change the answer.
        let shifted: Vec<i32> = data.iter().map(|v| v + 40_000_000).collect();
        assert_eq!(detect_video_standard(&shifted, cfg.sample_rate), want);
    }
}

#[test]
fn reconstruct_frame_into_rejects_mismatched_frame_buffer() {
    let mut fr = FrameReconstructor::new(20_000_000, false, 200_000, false);
    let demod_data = vec![0; 10_000];
    // Deliberately not width * height.
    let mut wrong_size_frame = vec![0u32; 10];
    assert!(fr
        .reconstruct_frame_into(&demod_data, &mut wrong_size_frame, no_sync, &burst, &notch)
        .is_none());
}

#[test]
fn reconstruct_frame_into_rejects_empty_demod_data() {
    let mut fr = FrameReconstructor::new(20_000_000, false, 200_000, false);
    let mut frame = vec![0u32; fr.width * fr.height];
    assert!(fr
        .reconstruct_frame_into(&[], &mut frame, no_sync, &burst, &notch)
        .is_none());
}

#[test]
fn reconstruct_frame_handles_short_noise_without_panicking() {
    let mut fr = FrameReconstructor::new(20_000_000, false, 200_000, false);
    let demod_data = vec![nanoturns(0.01); 500];
    assert!(fr
        .reconstruct_frame(&demod_data, no_sync, &burst, &notch)
        .is_none());
}

#[test]
fn reconstruct_frame_handles_degenerate_zero_sample_rate_without_panicking() {
    let mut fr = FrameReconstructor::new(0, false, 200_000, false);
    let demod_data = vec![0; 1000];
    assert!(fr
        .reconstruct_frame(&demod_data, no_sync, &burst, &notch)
        .is_none());
}

fn base_synth_config(is_pal: bool, deviation_hz: u32) -> SyntheticVideoConfig {
    SyntheticVideoConfig {
        sample_rate: 15_360_000,
        is_pal,
        deviation_hz,
        pattern: TestPattern::Flat(0),
        start_field: FieldParity::First,
        noise_sigma: 0,
        dc_offset: 0,
    }
}

/// Average luma of an output row.
fn row_avg_luma(frame: &[u32], width: usize, row: usize) -> f32 {
    let off = row * width;
    let sum: u32 = frame[off..off + width].iter().map(|&px| px & 0xFF).sum();
    sum as f32 / width as f32
}

/// A full-width bright band proves row placement.
#[test]
fn white_band_lands_on_the_correct_row_for_ntsc_and_pal() {
    for is_pal in [false, true] {
        let deviation_hz = 5_000_000;
        let mut cfg = base_synth_config(is_pal, deviation_hz);
        let row0 = 100;
        let band_h = 20;
        cfg.pattern = TestPattern::WhiteSquare {
            row0,
            col0: 0,
            h: band_h,
            w: OUTPUT_WIDTH,
        };
        let data = generate_fields(&cfg, 3);

        let mut recon = FrameReconstructor::new(cfg.sample_rate, is_pal, deviation_hz, false);
        let mut frame = vec![0u32; recon.width * recon.height];
        render(&mut recon, &data, 0, &starts(&cfg, 3), &mut frame)
            .unwrap_or_else(|| panic!("is_pal={is_pal}: expected a reconstructed field"));

        let parity = recon.field_parity as usize ^ 1; // this call's parity, before the end-of-call toggle
        let bright_row = row0 * 2 + parity;
        let dark_row_above = (row0 - 10) * 2 + parity;
        let dark_row_below = (row0 + band_h + 10) * 2 + parity;

        let bright = row_avg_luma(&frame, recon.width, bright_row);
        let dark_above = row_avg_luma(&frame, recon.width, dark_row_above);
        let dark_below = row_avg_luma(&frame, recon.width, dark_row_below);
        assert!(
            bright > 180.0,
            "is_pal={is_pal}: row {bright_row} luma {bright}, expected bright"
        );
        assert!(
            dark_above < 60.0,
            "is_pal={is_pal}: row {dark_row_above} luma {dark_above}, expected dark"
        );
        assert!(
            dark_below < 60.0,
            "is_pal={is_pal}: row {dark_row_below} luma {dark_below}, expected dark"
        );
    }
}

/// Video without a burst must disable the subcarrier notch after the
/// hysteresis window, and the notch must start enabled.
#[test]
fn notch_disables_after_hysteresis_on_burst_free_video() {
    let deviation_hz = 5_000_000;
    let cfg = base_synth_config(false, deviation_hz);
    let data = generate_fields(&cfg, 6);
    let fields = starts(&cfg, 6);
    let mut recon = FrameReconstructor::new(cfg.sample_rate, false, deviation_hz, false);
    assert!(recon.chroma_notch_active(), "notch must start enabled");
    let mut frame = vec![0u32; recon.width * recon.height];
    let mut cursor = 0usize;
    for _ in 0..4 {
        let consumed = render(&mut recon, &data, cursor, &fields, &mut frame)
            .expect("field should reconstruct");
        cursor += consumed;
    }
    assert!(
        !recon.chroma_notch_active(),
        "burst-free fields should disable the notch after hysteresis"
    );
}

#[test]
fn consecutive_fields_interlace_onto_correct_row_parities() {
    let deviation_hz = 5_000_000;
    let mut cfg = base_synth_config(false, deviation_hz);
    // Field 1 paints rows 50..70; field 2 a different band at rows 150..170.
    cfg.pattern = TestPattern::WhiteSquare {
        row0: 50,
        col0: 0,
        h: 20,
        w: OUTPUT_WIDTH,
    };
    let field1 = generate_fields(&cfg, 1);
    cfg.start_field = FieldParity::Second;
    cfg.pattern = TestPattern::WhiteSquare {
        row0: 150,
        col0: 0,
        h: 20,
        w: OUTPUT_WIDTH,
    };
    let field2_alone = generate_fields(&cfg, 1);

    let mut data = field1.clone();
    data.extend_from_slice(&field2_alone);
    // Padding, as a live buffer always has more than one field queued.
    data.extend_from_slice(&field2_alone);
    let fields = [
        Start { at: 0.0, parity: FieldParity::First },
        Start { at: field1.len() as f64, parity: FieldParity::Second },
        Start {
            at: (field1.len() + field2_alone.len()) as f64,
            parity: FieldParity::Second,
        },
    ];

    let mut recon = FrameReconstructor::new(cfg.sample_rate, false, deviation_hz, false);
    let mut frame = vec![0u32; recon.width * recon.height];
    let consumed1 =
        render(&mut recon, &data, 0, &fields, &mut frame).expect("expected field 1 to reconstruct");
    assert!(
        row_avg_luma(&frame, recon.width, 100) > 180.0,
        "field 1's band (row 50 -> output row 100)"
    );

    render(&mut recon, &data, consumed1, &fields, &mut frame)
        .expect("expected field 2 to reconstruct");
    assert!(
        row_avg_luma(&frame, recon.width, 301) > 180.0,
        "field 2's band (row 150 -> output row 301)"
    );
    assert!(
        row_avg_luma(&frame, recon.width, 100) > 180.0,
        "field 1's band must survive the merge into field 2's output frame"
    );
}

/// A stream that lost one field entirely: the parity of each field's own
/// sync corrects the rows.
#[test]
fn dropped_field_is_corrected_by_vbi_parity_override_not_left_inverted() {
    let deviation_hz = 5_000_000;
    let cfg = base_synth_config(false, deviation_hz); // First, Second, First, Second, ...
    let f1_len = generate_fields(&cfg, 1).len();
    let f2_len = generate_fields(&cfg, 2).len() - f1_len;
    let all_four = generate_fields(&cfg, 4);
    let f3_start = f1_len + f2_len;
    let f3_len = generate_fields(&cfg, 3).len() - f3_start;

    let mut spliced = Vec::new();
    spliced.extend_from_slice(&all_four[0..f1_len]); // field 1 (First)
    spliced.extend_from_slice(&all_four[f3_start..f3_start + f3_len]); // field 3 (First) -- field 2 dropped
    spliced.extend_from_slice(&all_four[f3_start..f3_start + f3_len]); // padding so call 2 has enough trailing data
    let fields = [
        Start { at: 0.0, parity: FieldParity::First },
        Start { at: f1_len as f64, parity: FieldParity::First },
        Start { at: (f1_len + f3_len) as f64, parity: FieldParity::First },
    ];

    let mut recon = FrameReconstructor::new(cfg.sample_rate, false, deviation_hz, false);
    let mut frame = vec![0u32; recon.width * recon.height];
    let consumed1 = render(&mut recon, &spliced, 0, &fields, &mut frame)
        .expect("expected field 1 to reconstruct");
    render(&mut recon, &spliced, consumed1, &fields, &mut frame)
        .expect("expected field 3 to reconstruct despite the dropped field 2");

    assert_eq!(
        recon.field_parity, 1,
        "sync should re-detect First parity for the post-drop field, not blindly toggle"
    );
}

/// The refinements are on by default; the builders flip each flag and clamp
/// the weight.
#[test]
fn phase2_dsp_defaults_on_and_builders_override() {
    let r = FrameReconstructor::new(15_360_000, false, 5_000_000, false);
    assert!(r.use_matched_sync && r.use_line_locked_clock && r.use_smart_doc);

    let r = r
        .with_matched_sync(false)
        .with_line_locked_clock(false)
        .with_smart_doc(false, 1_700);
    assert!(!r.use_matched_sync && !r.use_line_locked_clock && !r.use_smart_doc);
    assert_eq!(
        r.smart_doc_spatial_weight, 1000,
        "spatial weight must clamp to [0,1]"
    );
    assert_eq!(r.with_smart_doc(true, -5).smart_doc_spatial_weight, 0);
}

/// The matched filter must locate a sync dip to within a sample.
#[test]
fn phase2_matched_sync_locates_pulse_within_one_sample() {
    let fs = 15_360_000f64;
    let w = (fs * 4.7e-6).round() as usize; // ~72-sample H-sync
    let mut demod = vec![0i32; 4000]; // blanking
    let center = 2000usize;
    for s in &mut demod[center - w / 2..center + w / 2] {
        *s = -1_000_000; // sync tip below blanking
    }
    let reject = Ratio { num: -100_000, den: 1 };
    let got = matched_sync_center(&demod, (center as i64 + 5) * 1_000_000, 150, w, reject)
        .expect("should find the sync pulse");
    assert!(
        (got as f64 / SUB - center as f64).abs() <= 1.5,
        "matched sync located {got}, expected ~{center}"
    );
    let got = robust_sync_tip_center(&demod, (center as i64 + 5) * 1_000_000, 150, 120, 4, reject)
        .expect("should find the sync pulse");
    assert!((got as f64 / SUB - center as f64).abs() <= 1.5, "{got}");
    // Without a pulse below the level there is none.
    let flat = vec![0i32; 4000];
    assert_eq!(matched_sync_center(&flat, 2_000_000_000, 150, w, reject), None);
    assert_eq!(robust_sync_tip_center(&flat, 2_000_000_000, 150, 60, 4, reject), None);
}

/// The line period must lock to the crystal's on a clean capture.
#[test]
fn phase2_ols_locks_line_period_on_clean_signal() {
    let cfg = SyntheticVideoConfig {
        pattern: TestPattern::Bars,
        ..base_synth_config(false, 5_000_000)
    };
    let data = generate_fields(&cfg, 2);
    let mut recon =
        FrameReconstructor::new(cfg.sample_rate, false, 5_000_000, false).with_temporal_window(1);
    let mut frame = vec![0u32; recon.width * recon.height];
    render(&mut recon, &data, 0, &starts(&cfg, 2), &mut frame)
        .expect("clean field should reconstruct");
    let nominal = recon.samples_per_line as f64;
    let period = recon.line_period_samples() as f64 / SUB;
    assert!(
        (period - nominal).abs() < 1.0,
        "line period {period} drifted from nominal {nominal}"
    );
    // Much closer than that, in fact, to what the generator used.
    let exact = line_period(cfg.sample_rate, false);
    assert!((period - exact).abs() < 0.01, "{period} {exact}");
}

/// A clean field must be rendered as a faithful picture.
#[test]
fn phase2_smart_doc_reconstructs_clean_field_faithfully() {
    let cfg = SyntheticVideoConfig {
        pattern: TestPattern::Bars,
        ..base_synth_config(false, 5_000_000)
    };
    let data = generate_fields(&cfg, 3);
    let fields = starts(&cfg, 3);
    let mut a =
        FrameReconstructor::new(cfg.sample_rate, false, 5_000_000, false).with_temporal_window(1);
    let mut fa = vec![0u32; a.width * a.height];
    // Two fields so the second is a full interlaced frame.
    let c1 = render(&mut a, &data, 0, &fields, &mut fa).unwrap();
    render(&mut a, &data, c1, &fields, &mut fa).unwrap();

    let g: Vec<f64> = gradients(&fa, a.width, a.height)
        .into_iter()
        .map(|v| (v as f64).sqrt())
        .collect();
    let mean = g.iter().sum::<f64>() / g.len() as f64;
    let var: f64 = g.iter().map(|v| (v - mean) * (v - mean)).sum();
    let gcor = var / (var * var).sqrt();
    assert!(
        (gcor - 1.0).abs() < 1e-6,
        "identical-frame gradient correlation must be 1.0, got {gcor}"
    );
    // The bars climb from black to white.
    let row = &fa[100 * a.width..101 * a.width];
    assert!((row[40] & 0xff) < 20);
    assert!((row[650] & 0xff) > 230, "{}", row[650] & 0xff);
}

#[test]
fn baseline_clean_ntsc_and_pal_decode() {
    for is_pal in [false, true] {
        let cfg = SyntheticVideoConfig {
            sample_rate: 15_360_000,
            is_pal,
            deviation_hz: 3_000_000,
            pattern: TestPattern::Flat(50 * 5_040),
            start_field: FieldParity::First,
            noise_sigma: 0,
        dc_offset: 0,
        };
        let data = generate_fields(&cfg, 3);
        let mut recon = FrameReconstructor::new(cfg.sample_rate, is_pal, 3_000_000, false);
        assert_eq!(recon.latest_sync_quality(), 0);
        let mut frame = vec![0u32; recon.width * recon.height];
        let consumed = render(&mut recon, &data, 0, &starts(&cfg, 3), &mut frame);
        assert!(consumed.is_some(), "clean signal must decode");
        assert!(
            recon.latest_sync_quality() >= 900,
            "clean sync quality must be >= 0.90, got {}",
            recon.latest_sync_quality()
        );
        // Half of white.
        let avg = row_avg_luma(&frame, recon.width, 200);
        assert!((avg - 127.5).abs() < 4.0, "{avg}");
    }
}

#[test]
fn baseline_fails_when_vbi_is_erased() {
    let cfg = SyntheticVideoConfig {
        deviation_hz: 3_000_000,
        pattern: TestPattern::Flat(50 * 5_040),
        ..base_synth_config(false, 3_000_000)
    };
    let mut data = generate_fields(&cfg, 2);
    // The first field has no vertical sync.
    let erased = (9.0 * line_period(cfg.sample_rate, false)) as usize;
    data[..erased].fill(0);
    let mut recon = FrameReconstructor::new(cfg.sample_rate, false, 3_000_000, false);
    let mut frame = vec![0u32; recon.width * recon.height];
    // Only present field 0's samples
    let field0_samples = (cfg.sample_rate as f64 / 15734.2657 * 262.0) as usize;
    let res = recon.reconstruct_frame_into(
        &data[..field0_samples],
        &mut frame,
        no_sync,
        &burst,
        &notch,
    );
    assert!(res.is_none(), "missing vertical sync returns None");
}

fn gaussian(state: &mut u64) -> f64 {
    let mut sum = 0.0;
    for _ in 0..12 {
        *state = xorshift(*state);
        sum += (*state >> 11) as f64 / (1u64 << 53) as f64;
    }
    sum - 6.0
}

#[test]
fn baseline_pure_noise_rejection() {
    let sample_rate = 15_360_000;
    let mut recon = FrameReconstructor::new(sample_rate, false, 3_000_000, false);
    let mut frame = vec![0u32; recon.width * recon.height];
    let mut rng = 0x1234_5678_9abc_def0u64;
    let noise: Vec<i32> = (0..sample_rate as usize / 10)
        .map(|_| nanoturns(gaussian(&mut rng) * 0.5))
        .collect();
    let res = recon.reconstruct_frame_into(&noise, &mut frame, no_sync, &burst, &notch);
    assert!(res.is_none(), "Pure noise must never achieve field lock");
}

/// Without the sync search the density of low samples finds the field too.
#[test]
fn density_alone_locks_a_field() {
    let cfg = SyntheticVideoConfig {
        pattern: TestPattern::Bars,
        ..base_synth_config(false, 5_000_000)
    };
    let data = generate_fields(&cfg, 3);
    for matched in [true, false] {
        let mut recon = FrameReconstructor::new(cfg.sample_rate, false, 5_000_000, false)
            .with_matched_sync(matched);
        let (frame, used) = recon
            .reconstruct_frame(&data, no_sync, &burst, &notch)
            .expect("a field");
        assert!(recon.latest_sync_quality() > 900);
        assert!(used <= data.len());
        let row = &frame[200 * recon.width..201 * recon.width];
        assert!((row[40] & 0xff) < 20);
        assert!((row[650] & 0xff) > 230);
        // About a field is used up.
        let lines = used as f64 / line_period(cfg.sample_rate, false);
        assert!((255.0..270.0).contains(&lines), "{lines}");
    }
}

#[test]
fn need_more_data_does_not_change_the_picture() {
    let cfg = base_synth_config(false, 5_000_000);
    let data = generate_fields(&cfg, 1);
    let mut recon = FrameReconstructor::new(cfg.sample_rate, false, 5_000_000, false);
    let mut frame = vec![7u32; recon.width * recon.height];
    let r = render(&mut recon, &data[..100_000], 0, &starts(&cfg, 1), &mut frame);
    assert!(r.is_none());
    assert!(frame.iter().all(|&p| p == 7));
    assert_eq!(recon.history_depth(), 0);
    assert_eq!(recon.latest_mean_amplitude(), 0);
}

#[test]
fn history_fills_up_to_its_window() {
    let cfg = base_synth_config(true, 5_000_000);
    let data = generate_fields(&cfg, 5);
    let fields = starts(&cfg, 5);
    let mut recon =
        FrameReconstructor::new(cfg.sample_rate, true, 5_000_000, false).with_temporal_window(2);
    let mut frame = vec![0u32; recon.width * recon.height];
    let mut cursor = 0;
    for depth in [1, 2, 2, 2] {
        cursor += render(&mut recon, &data, cursor, &fields, &mut frame).expect("a field");
        assert_eq!(recon.history_depth(), depth);
    }
    let stamps: Vec<u64> = (0..2)
        .map(|n| recon.history.prev_meta(n).unwrap().timestamp_us)
        .collect();
    assert_eq!(stamps, vec![60_000, 40_000]);
    assert_eq!(recon.video_standard(), SignalType::AnalogVideoPal);
    assert_eq!(FrameReconstructor::new(1, true, 1, false).with_temporal_window(99).history.capacity(), 8);
    assert_eq!(FrameReconstructor::new(1, true, 1, false).with_temporal_window(0).history.capacity(), 1);
}

#[test]
fn a_frame_becomes_a_pixmap() {
    let recon = FrameReconstructor::new(15_360_000, false, 5_000_000, false);
    let frame = vec![0xff12_3456u32; recon.width * recon.height];
    let bytes = recon.ppm_frame(&frame);
    assert!(bytes.starts_with(b"P6\n720 480\n255\n"));
    assert_eq!(bytes.len(), 15 + 3 * frame.len());
    assert_eq!(&bytes[15..18], &[0x12, 0x34, 0x56]);
}

#[test]
fn the_deviation_can_be_changed_between_fields() {
    let mut recon = FrameReconstructor::new(15_360_000, false, 5_000_000, false);
    recon.set_fm_deviation(3_000_000);
    assert_eq!(recon.fm_deviation, 3_000_000);
}

#[test]
fn brightness_does_not_move_a_tip() {
    let mut demod = vec![300_000i32; 4000];
    for s in &mut demod[1980..2021] {
        *s = -700_000;
    }
    let raised: Vec<i32> = demod.iter().map(|v| v + 250_000).collect();
    let low = Ratio { num: -100_000, den: 1 };
    let high = Ratio { num: 150_000, den: 1 };
    assert_eq!(
        robust_sync_tip_center(&demod, 1_995_000_000, 100, 80, 4, low),
        robust_sync_tip_center(&raised, 1_995_000_000, 100, 80, 4, high)
    );
    assert_eq!(
        matched_sync_center(&demod, 1_995_000_000, 100, 40, low),
        matched_sync_center(&raised, 1_995_000_000, 100, 40, high)
    );
}

#[test]
fn whole_lines_are_counted_at_whole_hertz() {
    let line = |rate, pal| FrameReconstructor::new(rate, pal, 5_000_000, false).samples_per_line;
    // 976.505 samples at 15 734 Hz, though 976.488 at the exact rate.
    assert_eq!(line(15_364_330, false), 977);
    assert_eq!(line(15_360_000, false), 976);
    assert_eq!(line(15_360_000, true), 983);
    assert_eq!(line(0, true), 0);
}
