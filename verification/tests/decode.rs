use orecchiette_fpv_analog::decode::{
    decode_decimation, required_capture_rate, DecodePlan, DecodeStageTimings, DecodeStep,
    DecodeValidationError, DecoderConfig, DemodulationMode, StreamingFpvDecoder, DECODE_FIR_TAPS,
    LUMA_HEADROOM_HZ, PLL_AUTO_MIN_SAMPLE_RATE_HZ,
};
use orecchiette_fpv_analog::timing::Standard;

const FIR_TRANSITION_K: f32 = 2.33;

fn select_decode(rate: u32, deviation: i64, mode: DemodulationMode) -> (u32, bool) {
    let plan = DecodePlan::new(
        rate,
        Some(deviation),
        Some(2 * (deviation + LUMA_HEADROOM_HZ as i64)),
        mode,
    )
    .unwrap();
    (plan.work_rate(), plan.use_pll())
}

/// The decode path may only shed bandwidth it has already filtered away.
/// Energy at `work_rate - cutoff` folds onto the passband edge, so that
/// frequency has to clear the filter's stopband edge.
#[test]
fn decode_decimation_never_folds_a_channel_onto_itself() {
    // A live channel (5 MHz deviation) and a file one (17 MHz).
    for cutoff in [
        5_000_000 + LUMA_HEADROOM_HZ as i64,
        17_000_000 + LUMA_HEADROOM_HZ as i64,
    ] {
        for rate in [
            7_680_000u32,
            15_360_000,
            20_000_000,
            25_000_000,
            30_720_000,
            40_000_000,
            50_000_000,
            61_440_000,
            100_000_000,
        ] {
            let decim = decode_decimation(rate, Some(cutoff));
            assert!(decim >= 1, "{rate} at {cutoff}: factor must be positive");
            if decim == 1 {
                // Declining to decimate is always safe.
                continue;
            }
            let work_rate = (rate / decim as u32) as f32;
            let stopband_edge =
                cutoff as f32 + FIR_TRANSITION_K * rate as f32 / DECODE_FIR_TAPS as f32;
            assert!(
                work_rate - cutoff as f32 >= stopband_edge,
                "{rate} at a cutoff of {cutoff} decimated by {decim}"
            );
        }
    }

    // The live defaults: both wide spans land on the same working rate, and
    // every rate a decoder already kept up with is left alone.
    let live = Some(5_000_000 + LUMA_HEADROOM_HZ as i64);
    assert_eq!(decode_decimation(61_440_000, live), 4);
    assert_eq!(decode_decimation(30_720_000, live), 2);
    for unchanged in [25_000_000u32, 20_000_000, 15_360_000, 7_680_000] {
        assert_eq!(
            decode_decimation(unchanged, live),
            1,
            "{unchanged} has nothing to shed at a 7 MHz cutoff"
        );
    }

    // A 19 MHz-wide file channel needs ~38 MSPS of working rate, so it must
    // not decimate below that.
    let file = Some(17_000_000 + LUMA_HEADROOM_HZ as i64);
    assert_eq!(decode_decimation(61_440_000, file), 1);
    assert!(100_000_000 / decode_decimation(100_000_000, file) as u32 >= 38_000_000);

    // Degenerate input must not divide by zero or panic.
    assert_eq!(decode_decimation(0, live), 1);
    assert_eq!(decode_decimation(61_440_000, Some(0)), 1);
    assert_eq!(decode_decimation(61_440_000, None), 1);
}

/// The loop cannot track a 5 MHz excursion.
#[test]
fn auto_does_not_pick_the_pll_at_an_fpv_deviation() {
    for rate in [25_000_000u32, 30_720_000, 61_440_000] {
        assert!(
            !DemodulationMode::Auto.use_pll(rate, Some(5_000_000)),
            "auto chose the PLL at {rate} Hz for a 5 MHz deviation"
        );
    }
}

/// Decimate, then choose: `Auto` resolves to the discriminator everywhere.
#[test]
fn auto_resolves_to_the_discriminator_through_the_real_ordering() {
    for capture in [15_360_000u32, 25_000_000, 30_720_000, 61_440_000] {
        for dev in [200_000, 500_000, 1_000_000, 5_000_000] {
            let (work, pll) = select_decode(capture, dev, DemodulationMode::Auto);
            assert!(
                !pll,
                "auto chose the PLL at capture {capture} dev {dev} (work rate {work})"
            );
        }
    }
}

/// Forcing the loop gets it, at a rate that it can use.
#[test]
fn forcing_the_pll_holds_the_decode_rate_up() {
    let (work, pll) = select_decode(25_000_000, 500_000, DemodulationMode::Pll);
    assert!(pll, "--demod pll must force it");
    assert!(
        work >= PLL_AUTO_MIN_SAMPLE_RATE_HZ,
        "forced PLL decoded at {work}, below the rate its loop needs"
    );
}

/// Below the rate threshold the deviation is irrelevant.
#[test]
fn auto_keeps_the_discriminator_below_the_rate_threshold() {
    assert!(!DemodulationMode::Auto.use_pll(15_360_000, Some(500_000)));
}

#[test]
fn the_loop_bandwidth_clamp_is_respected() {
    assert!(!DemodulationMode::Auto.use_pll(25_000_000, Some(1_500_000)));
}

/// Explicit flags keep meaning what they say.
#[test]
fn explicit_demod_choices_ignore_the_heuristic() {
    assert!(DemodulationMode::Pll.use_pll(15_360_000, Some(5_000_000)));
    assert!(!DemodulationMode::Discriminator.use_pll(61_440_000, Some(100_000)));
}

/// A degenerate deviation must not select the PLL by accident.
#[test]
fn a_degenerate_deviation_keeps_the_discriminator() {
    assert!(!DemodulationMode::Auto.use_pll(25_000_000, Some(0)));
    assert!(!DemodulationMode::Auto.use_pll(25_000_000, Some(-1)));
    assert!(!DemodulationMode::Auto.use_pll(25_000_000, None));
}

fn config(standard: Standard) -> DecoderConfig {
    DecoderConfig {
        plan: DecodePlan::new(
            30_720_000,
            Some(3_000_000),
            Some(10_000_000),
            DemodulationMode::Auto,
        )
        .unwrap(),
        frequency_offset_hz: Some(0),
        standard,
        deemphasis_tau_ns: Some(750),
        temporal_window: 3,
        debug: false,
    }
}

#[test]
fn invalid_decode_configuration_is_rejected_before_dsp_construction() {
    for (rate, dev, bandwidth) in [
        (0, Some(5_000_000), Some(14_000_000)),
        (30_720_000, None, Some(14_000_000)),
        (30_720_000, Some(5_000_000), None),
    ] {
        assert!(DecodePlan::new(rate, dev, bandwidth, DemodulationMode::Auto).is_err());
    }
    let mut cfg = config(Standard::Pal);
    cfg.frequency_offset_hz = None;
    assert!(StreamingFpvDecoder::<i32, i32>::new(cfg).is_err());
    let mut cfg = config(Standard::Pal);
    cfg.plan = DecodePlan::new(1, Some(5_000_000), Some(14_000_000), DemodulationMode::Auto).unwrap();
    assert!(StreamingFpvDecoder::<i32, i32>::new(cfg).is_err());
    let (num, den) = required_capture_rate(Some(5_000_000), Some(800)).unwrap();
    assert_eq!(num as f64 / den as f64, 17_500_000.0);
    assert_eq!(required_capture_rate(Some(5_000_000), Some(0)), None);
}

#[test]
fn errors_say_why() {
    let e = DecodePlan::new(0, Some(5_000_000), Some(14_000_000), DemodulationMode::Auto)
        .err()
        .unwrap();
    assert!(!e.message().is_empty());
}

/// Samples pass through unchanged; the discriminator gives the difference.
fn push(decoder: &mut StreamingFpvDecoder<i32, i32>, chunk: &[i32], gap: bool) {
    decoder.push_iq(
        chunk,
        gap,
        |samples, _| samples.to_vec(),
        |joined, _| joined.windows(2).map(|w| w[1] - w[0]).collect(),
        |flat| flat,
    );
}

#[test]
fn invalid_output_does_not_consume_input_and_gaps_advance_one_epoch() {
    let mut decoder = StreamingFpvDecoder::<i32, i32>::new(config(Standard::Ntsc)).unwrap();
    push(&mut decoder, &vec![7; 2_000_000], false);
    let before = decoder.buffered_samples();
    assert_eq!(before, 1_999_999);
    let r = decoder.next_field_into(0, |_, _, _| -> Result<DecodeStep<u8>, u8> { panic!("tried") });
    assert!(matches!(
        r,
        Err(DecodeValidationError::FrameBufferTooSmall { .. })
    ));
    assert_eq!(decoder.buffered_samples(), before);
    assert_eq!(decoder.sample_coordinate(), 0);
    let r = decoder.next_field_into(720 * 480, |s, at, _| -> Result<DecodeStep<u64>, u8> {
        assert_eq!(s.len(), before);
        Ok(DecodeStep::Advance {
            consumed_samples: 500,
            field: Some(at),
        })
    });
    assert_eq!(r.unwrap(), Some(0));
    assert_eq!(decoder.sample_coordinate(), 500);
    let end = decoder.sample_coordinate() + decoder.buffered_samples() as u64;
    decoder.reset_discontinuity();
    assert_eq!(decoder.sample_coordinate(), end);
    assert_eq!(decoder.buffered_samples(), 0);
}

#[test]
fn latency_discard_counts_known_samples_and_releases_history_once() {
    let mut decoder = StreamingFpvDecoder::<i32, i32>::new(config(Standard::Ntsc)).unwrap();
    push(&mut decoder, &vec![7; 2_000_000], false);
    let count = decoder.buffered_samples();
    assert_eq!(decoder.discard_pending_except(100), count - 100);
    assert_eq!(decoder.sample_coordinate(), (count - 100) as u64);
    assert_eq!(decoder.buffered_samples(), 100);
    assert_eq!(decoder.discard_pending_except(100), 0);
}

#[test]
fn chunks_join_without_losing_a_sample() {
    let samples: Vec<i32> = (0..10_000).map(|i| i * i % 977).collect();
    let mut whole = StreamingFpvDecoder::<i32, i32>::new(config(Standard::Ntsc)).unwrap();
    push(&mut whole, &samples, false);
    let mut parts = StreamingFpvDecoder::<i32, i32>::new(config(Standard::Ntsc)).unwrap();
    for chunk in samples.chunks(313) {
        push(&mut parts, chunk, false);
    }
    assert_eq!(whole.buffered_samples(), parts.buffered_samples());
    assert_eq!(whole.buffered_samples(), samples.len() - 1);
}

#[test]
fn failed_reconstruction_is_passed_on() {
    let mut decoder = StreamingFpvDecoder::<i32, i32>::new(config(Standard::Ntsc)).unwrap();
    push(&mut decoder, &vec![7; 2_000_000], false);
    let r = decoder.next_field_into(720 * 480, |_, _, _| -> Result<DecodeStep<u8>, u8> { Err(9) });
    assert_eq!(r, Err(DecodeValidationError::Reconstruction(9)));
    let r = decoder.next_field_into(720 * 480, |_, _, _| -> Result<DecodeStep<u8>, u8> {
        Ok(DecodeStep::NeedMoreData {
            consumed_samples: 0,
        })
    });
    assert_eq!(r, Ok(None));
}

#[test]
fn stage_timings_add_up_and_are_taken_once() {
    let mut decoder = StreamingFpvDecoder::<i32, i32>::new(config(Standard::Ntsc)).unwrap();
    decoder.set_profiling(true);
    let spent = DecodeStageTimings {
        ddc: 5,
        demod: 7,
        deemphasis: 11,
        buffering: 17,
        reconstruct: 13,
    };
    decoder.record_timings(&spent);
    let taken = decoder.take_stage_timings();
    assert_eq!(taken.total(), 53);
    assert_eq!(decoder.take_stage_timings().total(), 0);
}

#[test]
fn a_plan_keeps_its_inputs() {
    let plan = config(Standard::Pal).plan;
    assert_eq!(plan.sample_rate(), 30_720_000);
    assert_eq!(plan.fm_deviation(), 3_000_000);
    assert_eq!(plan.work_rate(), 30_720_000 / plan.decimation() as u32);
    let cutoff = plan.ddc_cutoff_hz();
    assert_eq!(cutoff.num as f64 / cutoff.den as f64, 5_000_000.0);
    assert!(!plan.use_pll());
}

#[test]
fn a_decoder_tells_how_it_is_fed() {
    let mut decoder = StreamingFpvDecoder::<i32, i32>::new(config(Standard::Ntsc)).unwrap();
    assert_eq!(decoder.filter_taps(), DECODE_FIR_TAPS);
    assert!(decoder.deemphasizes());
    let decimation = decoder.plan().decimation();
    decoder.push_iq(
        &[5, 7, 10],
        false,
        |samples, keep| {
            assert_eq!(keep, decimation);
            samples.to_vec()
        },
        |joined, locked| {
            assert!(!locked);
            joined.windows(2).map(|w| w[1] - w[0]).collect()
        },
        |flat| flat.into_iter().map(|v| 10 * v).collect(),
    );
    assert_eq!(decoder.shifted_chunk(), &[5, 7, 10]);
    assert_eq!(decoder.demodulated_chunk(), &[20, 30]);
    // The last sample joins the next chunk to this one.
    push(&mut decoder, &[11], false);
    assert_eq!(decoder.shifted_chunk(), &[10, 11]);
    assert_eq!(decoder.demodulated_chunk(), &[1]);
    assert_eq!(decoder.buffered_samples(), 3);
    let plain = DecoderConfig { deemphasis_tau_ns: Some(0), ..config(Standard::Pal) };
    let mut decoder = StreamingFpvDecoder::<i32, i32>::new(plain).unwrap();
    assert!(!decoder.deemphasizes());
    decoder.push_iq(
        &[1, 2],
        false,
        |samples, _| samples.to_vec(),
        |joined, _| joined.clone(),
        |_| panic!("deemphasized"),
    );
    assert_eq!(decoder.demodulated_chunk(), &[1, 2]);
}

#[test]
fn the_stream_does_not_depend_on_its_chunks() {
    let samples: Vec<i32> = (0..1_000).map(|i| i * i % 977).collect();
    let mut whole = StreamingFpvDecoder::<i32, i32>::new(config(Standard::Ntsc)).unwrap();
    push(&mut whole, &samples, false);
    let mut cut = StreamingFpvDecoder::<i32, i32>::new(config(Standard::Ntsc)).unwrap();
    let mut heard = Vec::new();
    for chunk in samples.chunks(7) {
        push(&mut cut, chunk, false);
        heard.extend_from_slice(cut.demodulated_chunk());
        push(&mut cut, &[], false);
    }
    assert_eq!(heard, whole.demodulated_chunk());
    assert_eq!(cut.buffered_samples(), whole.buffered_samples());
}

#[test]
fn a_plan_takes_any_deviation() {
    let far = 5_000_000_000;
    let plan = DecodePlan::new(1_000_000_000, Some(far), Some(1), DemodulationMode::Auto).unwrap();
    assert_eq!((plan.fm_deviation(), plan.decimation(), plan.use_pll()), (far, 1, false));
    assert_eq!((plan.ddc_cutoff_hz().num, plan.ddc_cutoff_hz().den), (far, 1));
    let most = DecodePlan::new(1, Some(i64::MAX), Some(i64::MAX), DemodulationMode::Pll).unwrap();
    assert_eq!((most.fm_deviation(), most.work_rate(), most.use_pll()), (i64::MAX, 1, true));
    assert_eq!((most.ddc_cutoff_hz().num, most.ddc_cutoff_hz().den), (i64::MAX, 1));
    // An odd bandwidth has its cutoff at half a hertz.
    let odd = DecodePlan::new(1_000, Some(3), Some(7), DemodulationMode::Discriminator).unwrap();
    assert_eq!((odd.ddc_cutoff_hz().num, odd.ddc_cutoff_hz().den), (7, 2));
    // Below the rate of its loop, the phase-locked demodulator decimates nothing.
    let slow = DecodePlan::new(20_000_000, Some(1), Some(2), DemodulationMode::Pll).unwrap();
    assert_eq!((slow.decimation(), slow.work_rate()), (1, 20_000_000));
}

#[test]
fn only_demodulated_samples_count() {
    let mut decoder = StreamingFpvDecoder::<i32, i32>::new(config(Standard::Ntsc)).unwrap();
    let end = |d: &StreamingFpvDecoder<i32, i32>| {
        d.sample_coordinate() + d.buffered_samples() as u64
    };
    assert_eq!(end(&decoder), 0);
    let mut came = 0;
    for (k, gap) in [(100, false), (50, false), (70, true), (30, false)] {
        let before = end(&decoder);
        push(&mut decoder, &vec![1; k], gap);
        came += decoder.demodulated_chunk().len() as u64;
        assert_eq!(end(&decoder), came);
        if gap {
            assert_eq!(decoder.sample_coordinate(), before);
        }
        decoder.discard_pending_except(20);
        assert_eq!(end(&decoder), came);
    }
    decoder.reset_discontinuity();
    assert_eq!((end(&decoder), decoder.sample_coordinate()), (came, came));
    // The first of a stream has none before it, nor has the first after a gap.
    assert_eq!(came, 99 + 50 + 69 + 30);
}
