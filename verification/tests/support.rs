use orecchiette_fpv_analog::gpu::{
    buffer_capacity, build_phase_table, split_outputs, sweep, sweep_layout, BufferSlot,
};
use orecchiette_fpv_analog::impairments::{
    add_burst_dropouts, add_impulsive_noise, add_multipath, add_slow_fade, burst_dropout_samples,
};
use orecchiette_fpv_analog::metrics::{gradients, sum_squared_error};
use orecchiette_fpv_analog::neural::{
    frame_luma, pack_luma, process_frame_luma, read_interface, ModelInput, ModelInterface,
    RestoreError, RestorerSlot, RunInputs, RunOutputs,
};
use orecchiette_fpv_analog::synthetic::gaussian_noise;
use orecchiette_fpv_analog::stats::{mad, median, order_statistic};
use orecchiette_fpv_analog::text::{
    characters, parse_byte, push_decimal, same_text, trim_bounds, upper_case,
};

#[test]
fn buffers_grow_to_powers_of_two() {
    assert_eq!(buffer_capacity(0), 256);
    assert_eq!(buffer_capacity(256), 256);
    assert_eq!(buffer_capacity(257), 512);
    assert_eq!(buffer_capacity(3_000_000), 4_194_304);
    let mut slot = BufferSlot { capacity: None };
    assert!(slot.reserve(300));
    assert_eq!(slot.capacity, Some(512));
    assert!(!slot.reserve(512));
    assert!(!slot.reserve(1));
    assert!(slot.reserve(513));
    assert_eq!(slot.capacity, Some(1_024));
}

#[test]
fn a_sweep_is_laid_out_by_probe() {
    let l = sweep_layout(100, 3, 7).unwrap();
    assert_eq!((l.out_len, l.n_probes, l.decimation_factor), (15, 3, 7));
    assert_eq!((l.num_taps, l.taps_bytes), (63, 252));
    assert_eq!((l.phase_bytes, l.output_bytes), (360, 360));
    assert_eq!((l.input_bytes, l.offsets_bytes), (800, 12));
    assert_eq!((l.total_iq_len, l.workgroups), (100, 1));
    assert_eq!(sweep_layout(100, 3, 0).unwrap().out_len, 100);
    assert!(sweep_layout(0, 3, 7).is_none());
    assert!(sweep_layout(100, 0, 7).is_none());
}

#[test]
fn phasors_are_anchored_on_the_samples_that_are_kept() {
    let table = build_phase_table(&vec![5, -6], 10, 3, |offset, at| (offset, at));
    assert_eq!(
        table,
        vec![(5, 0), (5, 10), (5, 20), (-6, 0), (-6, 10), (-6, 20)]
    );
}

#[test]
fn outputs_come_back_by_probe() {
    assert_eq!(
        split_outputs(&vec![1, 2, 3, 4, 5, 6, 7, 8], 2, 2),
        vec![vec![(1, 2), (3, 4)], vec![(5, 6), (7, 8)]]
    );
    let out = sweep(
        5,
        &vec![1, 2],
        2,
        |offset, at| (offset, at),
        |l, table| {
            assert_eq!((l.n_probes, l.out_len), (2, 3));
            assert_eq!(table[5], (2, 4));
            (0..12).collect::<Vec<i32>>()
        },
    );
    assert_eq!(out[0], vec![(0, 1), (2, 3), (4, 5)]);
    assert_eq!(out[1], vec![(6, 7), (8, 9), (10, 11)]);
    let none = sweep(
        0,
        &vec![1, 2],
        2,
        |_, _| 0,
        |_, _| -> Vec<i32> { panic!("dispatched") },
    );
    assert_eq!(none, vec![vec![], vec![]]);
}

#[test]
fn errors_are_summed_over_the_luma() {
    assert_eq!(sum_squared_error(&[0xff00_0003, 5], &[0x0000_0001, 5]), 4);
    assert_eq!(sum_squared_error(&[0, 0], &[255, 255]), 2 * 65_025);
    assert_eq!(sum_squared_error(&[], &[]), 0);
    // Only the lowest byte counts.
    assert_eq!(sum_squared_error(&[0x1234_5600], &[0]), 0);
}

#[test]
fn gradients_are_taken_to_the_right_and_down() {
    let frame = [0u32, 3, 0, 4, 0, 0];
    assert_eq!(gradients(&frame, 3, 2), vec![9 + 16, 9 + 9]);
    assert_eq!(gradients(&frame, 1, 6), Vec::<u32>::new());
    assert_eq!(gradients(&frame, 6, 1), Vec::<u32>::new());
}

#[test]
fn dropouts_end_with_the_capture() {
    assert_eq!(
        burst_dropout_samples(10, &vec![(1, 2), (8, 5), (10, 3)]),
        vec![1, 2, 8, 9]
    );
    assert_eq!(burst_dropout_samples(10, &vec![]), Vec::<usize>::new());
}

fn input(name: &str, shape: Option<Vec<i64>>) -> ModelInput {
    ModelInput { name: name.to_string(), shape }
}

#[test]
fn a_model_says_what_it_takes() {
    let m = read_interface(&vec![
        input("input", Some(vec![1, 1, -1, -1])),
        input("hidden_in", Some(vec![1, 24, -1, -1])),
        input("noise", None),
    ]);
    assert!(m.has_noise_input);
    assert_eq!(m.hidden_channels, 24);
    let m = read_interface(&vec![input("hidden_in", Some(vec![1, -1, -1, -1]))]);
    assert!(!m.has_noise_input);
    assert_eq!(m.hidden_channels, 16);
    assert_eq!(read_interface(&vec![]).hidden_channels, 16);
}

const INTERFACE: ModelInterface = ModelInterface {
    has_noise_input: true,
    hidden_channels: 2,
};

fn clamp(v: i32) -> i32 {
    v.clamp(0, 1_000)
}

fn restore(
    hidden: Option<&Vec<i32>>,
    luma_out: &mut Vec<i32>,
    run: impl FnOnce(&RunInputs<i32>) -> Result<RunOutputs<i32>, &'static str>,
) -> Result<Vec<i32>, RestoreError<&'static str>> {
    process_frame_luma(
        &INTERFACE,
        2,
        1,
        &vec![100, 200],
        2_000,
        hidden,
        luma_out,
        0,
        run,
        clamp,
    )
}

fn outputs(output_shape: Vec<i64>, hidden_shape: Vec<i64>) -> RunOutputs<i32> {
    RunOutputs {
        output_shape,
        output: vec![-5, 1_500],
        hidden_shape,
        hidden: vec![1, 2, 3, 4],
    }
}

#[test]
fn a_frame_is_restored_with_its_hidden_state() {
    let mut out = vec![7, 7];
    let hidden = restore(None, &mut out, |i| {
        assert_eq!(i.luma, vec![100, 200]);
        assert_eq!(i.noise, Some(vec![1_000, 1_000]));
        assert_eq!(i.hidden, vec![0; 4]);
        Ok(outputs(vec![1, 1, 1, 2], vec![1, 2, 1, 2]))
    })
    .unwrap();
    assert_eq!(out, vec![0, 1_000]);
    assert_eq!(hidden, vec![1, 2, 3, 4]);
    restore(Some(&hidden), &mut out, |i| {
        assert_eq!(i.hidden, vec![1, 2, 3, 4]);
        Ok(outputs(vec![1, 1, 1, 2], vec![1, 2, 1, 2]))
    })
    .unwrap();
}

#[test]
fn what_a_model_gives_is_checked() {
    let mut out = vec![7, 7];
    assert!(matches!(
        restore(None, &mut out, |_| Err("no device")),
        Err(RestoreError::Run("no device"))
    ));
    assert!(matches!(
        restore(None, &mut out, |_| Ok(outputs(vec![1, 1, 2, 1], vec![1, 2, 1, 2]))),
        Err(RestoreError::OutputShape)
    ));
    assert_eq!(out, vec![7, 7]);
    assert!(matches!(
        restore(None, &mut out, |_| Ok(outputs(vec![1, 1, 1, 2], vec![2, 1, 2]))),
        Err(RestoreError::HiddenShape)
    ));
}

#[test]
fn a_restorer_can_be_switched_off_and_on() {
    let mut slot: RestorerSlot<u8, i32> = RestorerSlot::new();
    slot.set_restoration_enabled(true);
    assert_eq!(slot.take(), None);
    slot.load(3);
    assert_eq!(slot.take(), Some((3, None)));
    slot.put_back(3, Some(-1));
    slot.set_restoration_enabled(true);
    assert_eq!(slot.take(), Some((3, Some(-1))));
    slot.put_back(3, Some(-2));
    slot.set_restoration_enabled(false);
    assert_eq!(slot.take(), None);
    // Back on, its state is gone.
    slot.set_restoration_enabled(true);
    assert_eq!(slot.take(), Some((3, None)));
}

#[test]
fn packed_luma_reads_back() {
    let luma: Vec<u8> = (0..=255).collect();
    let frame = pack_luma(&luma);
    assert_eq!(frame[0x12], 0xff12_1212);
    assert_eq!(frame_luma(&frame), luma);
}

#[test]
fn ranks_are_counted_from_the_smallest() {
    let v = vec![5i64, -1, 3, 3, 9];
    assert_eq!(order_statistic(&v, 0), -1);
    assert_eq!(order_statistic(&v, 2), 3);
    assert_eq!(order_statistic(&v, 4), 9);
    assert_eq!(median(&v), 3);
    // Distances from three are 2, 4, 0, 0 and 6.
    assert_eq!(mad(&v, 3), 2);
}

#[test]
fn text_is_read_and_written() {
    let mut s = String::from("R");
    push_decimal(&mut s, 0);
    push_decimal(&mut s, 25);
    push_decimal(&mut s, 255);
    assert_eq!(s, "R025255");
    assert_eq!(characters("a b"), vec!['a', ' ', 'b']);
    assert_eq!((upper_case('f'), upper_case('F'), upper_case('1')), ('F', 'F', '1'));
    assert_eq!(trim_bounds(&characters("  a b ")), (2, 5));
    assert_eq!(parse_byte(&characters("x255"), 1, 4), Some(255));
    assert_eq!(parse_byte(&characters("256"), 0, 3), None);
    assert_eq!(parse_byte(&characters(""), 0, 0), None);
    assert_eq!(parse_byte(&characters("1a"), 0, 2), None);
    assert!(same_text("noise", "noise"));
    assert!(!same_text("noise", "nois"));
    assert!(!same_text("noise", "noisy"));
}

#[test]
fn echoes_add_what_lay_before() {
    let mut iq = vec![1i64, 10, 100, 1_000];
    add_multipath(&mut iq, &vec![1, 3, 9], |sample, echo, k, i| {
        assert!(k < 2 && i >= 1);
        sample + 2 * echo
    });
    // An echo repeats the undisturbed signal, not other echoes.
    assert_eq!(iq, vec![1, 12, 120, 1_202]);
}

#[test]
fn dropouts_are_filled_with_noise_in_order() {
    let mut iq = vec![(7i128, 7i128); 6];
    let mut seed = 99u64;
    add_burst_dropouts(&mut iq, &vec![(1, 2), (2, 1), (5, 9)], &mut seed, |re, im| (re, im));
    let mut state = 99u64;
    let mut next = || {
        let re = gaussian_noise(&mut state);
        (re, gaussian_noise(&mut state))
    };
    let (first, _overwritten, third, last) = (next(), next(), next(), next());
    assert_eq!(iq, vec![(7, 7), first, third, (7, 7), (7, 7), last]);
    assert_eq!(seed, state);
}

#[test]
fn a_fade_scales_by_place() {
    let mut iq = vec![1i64, 1, 1];
    add_slow_fade(&mut iq, |s, i| s + i as i64);
    assert_eq!(iq, vec![1, 2, 3]);
}

#[test]
fn sparks_strike_as_often_as_told() {
    let mut seed = 12_345u64;
    let mut iq = vec![0i64; 2_000];
    add_impulsive_noise(&mut iq, 0, &mut seed, |_, _| 1);
    assert!(iq.iter().all(|&s| s == 0));
    // The number compared with is nearly Gaussian around a half.
    add_impulsive_noise(&mut iq, 500_000_000, &mut seed, |s, _| s + 1);
    let struck: i64 = iq.iter().sum();
    assert!((900..1_100).contains(&struck), "{struck}");
    add_impulsive_noise(&mut iq, 1_000_000_000, &mut seed, |_, _| 5);
    assert!(iq.iter().all(|&s| s == 5));
}
