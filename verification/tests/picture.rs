use orecchiette_fpv_analog::frame_history::FrameHistory;
use orecchiette_fpv_analog::timing::Ratio;
use orecchiette_fpv_analog::video::grid::{
    count_tips, fit_start, measure_period, next_dropout, reject_outliers, track_tips, trim_tips,
    PeriodMemory, TipSearch,
};
use orecchiette_fpv_analog::video::line::{
    level_line, mark_dropouts, resample_line, Agc, Modulation,
};
use orecchiette_fpv_analog::video::notch::{filtfilt, search_bursts, NotchGate};
use orecchiette_fpv_analog::video::picture::{
    clean_field, conceal_row, denoise, grey_pixel, luma_of, merge_field, Concealment,
};
use orecchiette_fpv_analog::video::ppm::ppm_bytes;
use orecchiette_fpv_analog::video::scan::{scan_field, LineGrid};
use orecchiette_fpv_analog::video::sync::{find_dense, find_strongest, is_below, nearest_div};

/// Full deviation is a hundred million nanoturns per sample.
const M: Modulation = Modulation {
    deviation_hz: 1_000_000,
    sample_rate: 10_000_000,
};

/// Tips every `period` samples from `start`.
fn tips(start: i64, period: i64, n: i64) -> Vec<Option<i64>> {
    (0..n)
        .map(|i| Some((start + i * period) * 1_000_000))
        .collect()
}

#[test]
fn rounding_goes_up_at_the_middle() {
    assert_eq!(nearest_div(5, 2), 3);
    assert_eq!(nearest_div(-5, 2), -2);
    assert_eq!(nearest_div(7, 5), 1);
    assert_eq!(nearest_div(8, 5), 2);
}

#[test]
fn samples_are_found_by_their_density() {
    let level = Ratio { num: -1, den: 2 };
    assert!(is_below(-1, level) && !is_below(0, level));
    let mut record = vec![0i32; 100];
    for v in &mut record[60..80] {
        *v = -5;
    }
    // More than half of the window is low for the first time here.
    assert_eq!(find_dense(&record, level, 10), Some(56));
    assert_eq!(find_dense(&record, Ratio { num: -6, den: 1 }, 10), None);
    assert_eq!(find_dense(&record[..5], level, 10), None);
    assert_eq!(find_strongest(&record, level, 10, 3, 50, 80), 62);
    // Nothing is low there: the stretch starts where it started.
    assert_eq!(find_strongest(&record, level, 10, 3, 10, 30), 10);
}

#[test]
fn an_outlier_does_not_tilt_the_line() {
    let mut raw = tips(100, 640, 40);
    raw[7] = Some(900_000_000_000);
    let kept = trim_tips(&raw);
    assert_eq!(kept[7], None);
    assert_eq!(count_tips(&kept), 39);
    assert_eq!(measure_period(&raw, 640), Some(640_000_000));
    // Five percent off what it should be is not a line period.
    assert_eq!(measure_period(&tips(100, 680, 40), 640), None);
    // Nor is one measured on ten tips.
    assert_eq!(measure_period(&tips(100, 640, 10), 640), None);
}

#[test]
fn a_grid_starts_where_its_tips_say() {
    let raw = tips(100, 640, 40);
    let clean = reject_outliers(&raw, 640_000_000);
    assert_eq!(clean, raw);
    assert_eq!(fit_start(&clean, 40, 640_000_000, 0), 100_000_000);
    // Without tips it starts at the anchor.
    let none: Vec<Option<i64>> = vec![None; 40];
    assert_eq!(fit_start(&none, 40, 640_000_000, 77_000_000), 77_000_000);
    let mut jumped = tips(100, 640, 40);
    jumped[20] = Some(20 * 640_000_000 + 400_000_000);
    let clean = reject_outliers(&jumped, 640_000_000);
    assert_eq!((clean[20], clean[21]), (None, None));
    assert_eq!(count_tips(&clean), 38);
}

#[test]
fn tips_are_tracked_line_by_line() {
    let mut demod = vec![0i32; 640 * 12];
    for line in 0..12 {
        for v in &mut demod[640 * line + 80..640 * line + 127] {
            *v = -100_000_000;
        }
    }
    let search = TipSearch {
        matched: true,
        radius: 60,
        width: 47,
        porch_radius: 120,
        ma_win: 5,
        reject_above: Ratio { num: -50_000_000, den: 1 },
    };
    let raw = track_tips(&demod, &search, 103_000_000, 640_000_000, 10);
    assert_eq!(raw.len(), 10);
    for (i, tip) in raw.iter().enumerate() {
        let at = tip.unwrap() as f64 / 1e6;
        let want = 640.0 * i as f64 + 103.0;
        assert!((at - want).abs() < 1.0, "line {i}: {at} rather than {want}");
    }
}

#[test]
fn the_period_is_the_median_of_recent_fields() {
    let mut memory = PeriodMemory::new();
    assert_eq!(memory.remember(640_000_000), 640_000_000);
    memory.remember(641_000_000);
    assert_eq!(memory.remember(900_000_000), 641_000_000);
    for _ in 0..8 {
        memory.remember(639_000_000);
    }
    assert_eq!(memory.remember(700_000_000), 639_000_000);
}

#[test]
fn a_dropout_starts_under_half_and_ends_over_three_fifths() {
    assert!(!next_dropout(false, 50, 100));
    assert!(next_dropout(false, 49, 100));
    assert!(next_dropout(true, 60, 100));
    assert!(!next_dropout(true, 61, 100));
}

#[test]
fn a_line_at_the_output_rate_is_read_as_it_is() {
    let raw: Vec<i32> = (0..20).map(|i| i * i * 1_000).collect();
    let out = resample_line(&raw, 0, 16_000_000, 16);
    let want: Vec<i64> = raw[..16].iter().map(|&v| v as i64).collect();
    assert_eq!(out, want);
    // Halfway between samples of a straight line lies the middle.
    let slope: Vec<i32> = (0..20).map(|i| i * 1_000).collect();
    let out = resample_line(&slope, 500_000, 8_000_000, 8);
    assert_eq!(out, vec![500, 1_500, 2_500, 3_500, 4_500, 5_500, 6_500, 7_500]);
    // Past the end the last sample stands.
    let out = resample_line(&slope[..4], 0, 8_000_000, 8);
    assert_eq!(&out[4..], &[3_000, 3_000, 3_000, 3_000]);
    // Three samples into one column: an average of three.
    let steps: Vec<i32> = [0, 300, 600].repeat(8);
    let out = resample_line(&steps, 0, 24_000_000, 8);
    assert!(out[1..7].iter().all(|&v| v == 300), "{out:?}");
}

#[test]
fn values_off_the_rails_are_marked_with_their_neighbours() {
    let mut line = vec![0i64; 20];
    line[10] = 151_000_000;
    let mask = mark_dropouts(&line, &M);
    let marked: Vec<usize> = (0..20).filter(|&i| mask[i]).collect();
    assert!(marked.contains(&9) && marked.contains(&10) && marked.contains(&11));
    assert!(!marked.contains(&4) && !marked.contains(&16));
    line[10] = 149_000_000;
    assert!(mark_dropouts(&line, &M).iter().all(|&m| !m));
    line[10] = -81_000_000;
    assert!(mark_dropouts(&line, &M)[10]);
}

#[test]
fn levels_are_pulled_to_the_standard_swing() {
    // A swing of half what it should be from a porch at ten million.
    let mut line = vec![10_000_000i64; 1_000];
    for v in &mut line[..70] {
        *v = -10_000_000;
    }
    let start = Agc { gain: 1_000_000, porch: 0, primed: false };
    let (agc, out) = level_line(&start, &line, &M);
    assert!(agc.primed);
    assert_eq!((agc.gain, agc.porch), (2_000_000, 10_000_000));
    assert_eq!((out[0], out[500]), (-40_000_000, 0));
    // A flat line moves nothing, and is levelled by what was there before.
    let (same, out) = level_line(&agc, &vec![20_000_000i64; 1_000], &M);
    assert_eq!((same.gain, same.porch), (2_000_000, 10_000_000));
    assert_eq!(out[0], 20_000_000);
    // The next swing moves the gain a fifth of the way.
    let doubled: Vec<i64> = line.iter().map(|v| 2 * v).collect();
    let (moved, _) = level_line(&agc, &doubled, &M);
    assert_eq!((moved.gain, moved.porch), (1_800_000, 12_000_000));
}

#[test]
fn a_field_is_read_row_by_row() {
    let demod: Vec<i32> = (0..1_000).map(|i| (i % 100) * 1_000).collect();
    let grid = LineGrid { start: 100_000_000, period: 100_000_000, rows: 8 };
    assert_eq!(grid.position_of(3), 400_000_000);
    let agc = Agc { gain: 1_000_000, porch: 0, primed: false };
    let scan = scan_field(&demod, &grid, &M, &agc, 100, 8);
    assert_eq!(scan.values.len(), 800);
    assert!(scan.rows >= 7, "{} rows", scan.rows);
    assert!(scan.marks.iter().all(|&m| !m));
    // Too short a record holds no row at all.
    let scan = scan_field(&demod[..50], &grid, &M, &agc, 100, 8);
    assert_eq!(scan.rows, 0);
    assert!(scan.values.iter().all(|&v| v == 0));
}

#[test]
fn bursts_are_searched_in_some_thirty_rows() {
    let width = 100;
    let mut values = vec![0i64; width * 64];
    for row in 0..64 {
        values[row * width + 7] = row as i64 + 1;
    }
    // Every second row, from the start of the burst on.
    let marks = search_bursts(&values, width, 64, &|w: &Vec<i64>| {
        assert_eq!(w.len(), 7);
        w[0] % 4 == 1
    });
    assert_eq!(marks.len(), 32);
    assert!(marks[0] && !marks[1] && marks[2]);
    let mut gate = NotchGate { enabled: true, streak: 0 };
    for expected in [true, true, false] {
        gate.observe(&vec![false; 32]);
        assert_eq!(gate.enabled, expected);
    }
    // Half of the rows are enough to keep it.
    let mut gate = NotchGate { enabled: true, streak: 0 };
    for _ in 0..5 {
        gate.observe(&marks);
    }
    assert!(gate.enabled);
}

#[test]
fn dropouts_are_filled_from_the_rows_and_the_field_before() {
    let values = vec![10i64, 0, 30, 0, 50, 0];
    let marks = vec![false, false, true, false, false, false];
    let before = vec![0i64, 0, 100, 0, 0, 0];
    let plain = Concealment { smart: false, spatial_weight: 500 };
    assert_eq!(
        conceal_row(&values, &marks, &before, true, 2, 3, &plain, 1),
        vec![100, 0]
    );
    // The mean of the rows above and below is 30, mixed half and half.
    let smart = Concealment { smart: true, spatial_weight: 500 };
    assert_eq!(
        conceal_row(&values, &marks, &before, true, 2, 3, &smart, 1),
        vec![65, 0]
    );
    // Without a field before nothing is filled.
    assert_eq!(
        conceal_row(&values, &marks, &before, false, 2, 3, &smart, 1),
        vec![30, 0]
    );
}

#[test]
fn still_values_are_averaged_and_moving_ones_kept() {
    assert_eq!(denoise(7, &vec![], false, &M), 7);
    assert_eq!(denoise(5, &vec![5, 5], false, &M), 5);
    // A tenth of full deviation is motion.
    assert_eq!(denoise(10_000_000, &vec![0, 0], false, &M), 10_000_000);
    assert_eq!(denoise(10_000_000, &vec![0, 0], true, &M), 0);
    // Half of that is half of each.
    assert_eq!(denoise(5_000_000, &vec![0, 0], false, &M), 2_500_000);
}

#[test]
fn brightness_runs_from_blanking_to_full_deviation() {
    assert_eq!(luma_of(-1, &M), 0);
    assert_eq!(luma_of(0, &M), 0);
    assert_eq!(luma_of(5 * 50_000_000, &M), 128);
    assert_eq!(luma_of(5 * 100_000_000, &M), 255);
    assert_eq!(luma_of(5 * 200_000_000, &M), 255);
    assert_eq!(grey_pixel(0x80), 0xff80_8080);
}

#[test]
fn a_field_is_cleaned_and_woven_into_the_frame() {
    let (width, lines) = (4usize, 2usize);
    let values = vec![50_000_000i64; width * lines];
    let marks = vec![false; width * lines];
    let history: FrameHistory<i64> = FrameHistory::new(3, width * lines);
    let how = Concealment { smart: true, spatial_weight: 500 };
    let y = clean_field(
        &values,
        &marks,
        &values,
        false,
        &history,
        width,
        lines,
        lines,
        &how,
        false,
        &|line: &Vec<i64>| line.clone(),
        false,
        &M,
    );
    assert_eq!(y, values);
    // Two columns, the first cropped; one row was read.
    let before = vec![7u32; 2 * 2 * lines];
    let frame = merge_field(&y, &before, width, 1, 2, lines, 1, 1, &M);
    assert_eq!(
        frame,
        vec![7, 7, 0xff80_8080, 0xff80_8080, 0, 0, 0, 0]
    );
}

#[test]
fn pixmaps_have_a_header_and_three_bytes_a_pixel() {
    let bytes = ppm_bytes(2, 1, &[0xff01_0203, 0xff0a_0b0c]);
    assert_eq!(bytes, b"P6\n2 1\n255\n\x01\x02\x03\x0a\x0b\x0c".to_vec());
}

#[test]
fn a_filter_runs_forwards_and_backwards() {
    // A running sum that starts from nothing: 1 3 6 forwards, then 6 9 10
    // from the end.
    let sums = filtfilt(&vec![1i64, 2, 3], |_| 0i64, |x, b| (x + b, x + b));
    assert_eq!(sums, vec![10, 9, 6]);
    // Settled on the first value, a constant stays what it is.
    let flat = filtfilt(&vec![4i64; 5], |x| x, |x, b| ((x + b) / 2, (x + b) / 2));
    assert_eq!(flat, vec![4; 5]);
    let none = filtfilt(&Vec::<i64>::new(), |x| x, |x, b| (x, b));
    assert_eq!(none, Vec::<i64>::new());
}
