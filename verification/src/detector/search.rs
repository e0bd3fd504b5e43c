//! The search of one capture, from its samples and rate to what is reported.

use vstd::prelude::*;

use crate::detector::carrier::{
    averaging_key, carrier_on_cut, integration_key, law_located_to_the_nearest_hertz, located,
    wide_cutoff, MAX_KEY_CENTER,
};
use crate::detector::confirm::{
    confirms, hint, needs_wide_confirmation, standard_hint, tier_on_wide_cut, unconfirmed,
};
use crate::detector::integrator::{accumulated, bucket_of, SpectralIntegrator};
use crate::detector::line_rate::standard_in_time;
use crate::detector::results::{
    by_frequency, law_reports_are_ordered, law_reports_were_detected, merged, ordered,
    place_of,
};
use crate::detector::spectrum::{classifiable, largest, spectral_class};
use crate::detector::sweep::{
    beyond, cluster_around, cluster_hits, clears_gate, clustered, collect_probes,
    decimation_factor, has_class, hits_of, is_skirt, law_transmitters_have_probed_classes,
    probe_count, probe_offset, probe_offsets, probe_report,
    probe_target_rate, rank_of, skirts_absorbed, strategy_for, strongest_first, sweep_strategy,
    with_skirts, ProbeEnergy, SweepCluster, SweepHit, SweepStrategy, MIN_CAPTURE,
    WIDEBAND_TARGET_RATE_HZ,
};
use crate::detector::{
    confirmed_by, law_confidence_levels_mean_what_they_say, record_class, record_judged,
    samples_integrated, samples_judged, AnalogFpvDetector, FpvDetector,
};
use crate::levels::{deviation_of, estimate_sync_levels, max, SyncLevels};
use crate::stats::{lemma_sorted_rank, ranked};
use crate::types::{DetectionResult, SignalType};
use crate::vbi::FieldSyncEvidence;

verus! {

/// How a probe is cut out of a capture: mixed down from its offset, filtered
/// to a third of the rate it aims for, and decimated.
#[derive(Debug, Clone, Copy, PartialEq, Eq, Structural)]
pub struct Cut {
    pub offset_half_hz: i64,
    pub target_rate: u32,
    /// One sample out of this many is kept.
    pub decimation: u32,
}

/// The cut of a probe. Captures of up to twice the target rate keep theirs.
pub open spec fn probe_cut(sample_rate: u32, offset_half_hz: i64) -> Cut {
    let target_rate = if sample_rate > 20_000_000 {
        10_000_000u32
    } else {
        sample_rate
    };
    Cut {
        offset_half_hz,
        target_rate,
        decimation: max(sample_rate as int / target_rate as int, 1) as u32,
    }
}

/// The rate of a cut probe.
pub open spec fn cut_rate(sample_rate: u32) -> u32 {
    sample_rate / probe_cut(sample_rate, 0).decimation
}

/// What a wide cut around a candidate shows.
#[derive(Debug, Clone, Copy, PartialEq, Eq, Structural)]
pub struct Refinement {
    /// The carrier's offset from the centre of the cut, in billionths of a
    /// hertz, where its level can be trusted.
    pub carrier_nhz: Option<i64>,
    /// Vertical sync on the cut, where it was looked for and the cut shows
    /// levels to search by.
    pub evidence: Option<FieldSyncEvidence>,
    pub rssi_mdbm: Option<i32>,
}

/// How far a cut reaches around a probe: half a grid step, in half-hertz.
pub const PROBE_REACH: u32 = 5_000_000;

/// The report of a refined cluster.
pub open spec fn cluster_report(
    d: AnalogFpvDetector,
    center_hz: u64,
    c: SweepCluster,
    r: Refinement,
) -> DetectionResult {
    DetectionResult {
        channel: None,
        frequency_hz: located(
            center_hz as int,
            c.anchor_half_hz as int,
            (match r.carrier_nhz {
                Some(x) => x as int,
                None => 0,
            }),
        ) as u64,
        confidence: tier_on_wide_cut(c.kind, c.confidence, r.evidence, d.demote_unconfirmed_video),
        rssi_mdbm: r.rssi_mdbm,
        bandwidth_hz: WIDEBAND_TARGET_RATE_HZ,
        signal_type: c.kind,
    }
}

/// The reports of refined clusters.
pub open spec fn cluster_reports(
    d: AnalogFpvDetector,
    center_hz: u64,
    cs: Seq<SweepCluster>,
    refined: Seq<Refinement>,
) -> Seq<DetectionResult> {
    Seq::new(cs.len(), |i: int| cluster_report(d, center_hz, cs[i], refined[i]))
}

/// The report of a capture that is one slice.
pub open spec fn slice_report(
    d: AnalogFpvDetector,
    center_hz: u64,
    sample_rate: u32,
    class: (SignalType, u32),
    carrier_nhz: Option<i64>,
    rssi_mdbm: Option<i32>,
) -> Seq<DetectionResult> {
    let r = DetectionResult {
        channel: None,
        frequency_hz: located(
            center_hz as int,
            0,
            (match carrier_nhz {
                Some(x) => x as int,
                None => 0,
            }),
        ) as u64,
        confidence: class.1,
        rssi_mdbm,
        bandwidth_hz: sample_rate,
        signal_type: class.0,
    };
    if class.0 != SignalType::Unknown && d.reports(r) {
        seq![r]
    } else {
        Seq::empty()
    }
}

/// The offsets of a grid of probes.
pub open spec fn grid(sample_rate: u32, n_steps: int) -> Seq<i64> {
    Seq::new(n_steps as nat, |k: int| probe_offset(sample_rate as int, k) as i64)
}

/// The transmitters that the classes of a grid of probes show.
pub open spec fn transmitters(
    offsets: Seq<i64>,
    energies: Seq<i64>,
    classes: Seq<(SignalType, u32)>,
) -> Seq<SweepCluster> {
    skirts_absorbed(clustered(strongest_first(hits_of(offsets, energies, classes))))
}

/// Whether samples are what a probe's cut of a capture holds.
pub open spec fn is_cut<S, D: Fn(&[S], Cut) -> Vec<S>>(
    ddc: D,
    iq: &[S],
    cut: Cut,
    samples: Seq<S>,
) -> bool {
    exists|v: Vec<S>| #[trigger] ddc.ensures((iq, cut), v) && v@ == samples
}

/// Whether a number is the mean power of samples.
pub open spec fn is_energy<S, E: Fn(&[S]) -> i64>(energy: E, samples: Seq<S>, e: i64) -> bool {
    exists|s: &[S]| #[trigger] energy.ensures((s,), e) && s@ == samples
}

/// Whether samples at a rate were classified so: by their own spectrum, or
/// where there is a key by the average under it, into which it was folded.
pub open spec fn is_class<
    S,
    M: Fn(&[S]) -> Vec<i32>,
    X: Fn(&Vec<i32>) -> Vec<i64>,
    F: Fn(&Vec<i64>, usize) -> Vec<i64>,
    V: Fn(&Vec<i32>, u32, SyncLevels, Option<bool>) -> FieldSyncEvidence,
>(
    d: AnalogFpvDetector,
    samples: Seq<S>,
    rate: u32,
    key: Option<i64>,
    before: SpectralIntegrator,
    demodulate: M,
    spectrum: X,
    cepstrum: F,
    confirm: V,
    after: SpectralIntegrator,
    class: (SignalType, u32),
) -> bool {
    match key {
        None => after == before && exists|s: &[S]|
            s@ == samples && #[trigger] samples_judged(
                d,
                s,
                rate,
                demodulate,
                spectrum,
                cepstrum,
                confirm,
                class,
            ),
        Some(k) => exists|s: &[S]|
            s@ == samples && #[trigger] samples_integrated(
                d,
                s,
                rate,
                k,
                before,
                demodulate,
                spectrum,
                cepstrum,
                confirm,
                after,
                class,
            ),
    }
}

/// The key under which spectra at an offset are averaged, if they are.
pub open spec fn key_at(center_hz: u64, offset_half_hz: i64, integrated: bool) -> Option<i64> {
    if integrated {
        Some(averaging_key(center_hz as int, offset_half_hz as int) as i64)
    } else {
        None
    }
}

/// Whether a list of energies is what the cuts of a grid of probes measure.
pub open spec fn measured<S, D: Fn(&[S], Cut) -> Vec<S>, E: Fn(&[S]) -> i64>(
    iq: &[S],
    sample_rate: u32,
    ddc: D,
    energy: E,
    offsets: Seq<i64>,
    cuts: Seq<Seq<S>>,
    energies: Seq<i64>,
) -> bool {
    &&& cuts.len() == offsets.len()
    &&& energies.len() == offsets.len()
    &&& forall|i: int|
        0 <= i < offsets.len() ==> is_cut(
            ddc,
            iq,
            probe_cut(sample_rate, offsets[i]),
            #[trigger] cuts[i],
        )
    &&& forall|i: int|
        0 <= i < offsets.len() ==> is_energy(energy, cuts[i], #[trigger] energies[i])
}

/// Whether a class is what a cut shows if it is chosen; one that is not
/// shows nothing and changes nothing.
pub open spec fn is_class_if_chosen<
    S,
    M: Fn(&[S]) -> Vec<i32>,
    X: Fn(&Vec<i32>) -> Vec<i64>,
    F: Fn(&Vec<i64>, usize) -> Vec<i64>,
    V: Fn(&Vec<i32>, u32, SyncLevels, Option<bool>) -> FieldSyncEvidence,
>(
    d: AnalogFpvDetector,
    samples: Seq<S>,
    rate: u32,
    key: Option<i64>,
    chosen: bool,
    before: SpectralIntegrator,
    demodulate: M,
    spectrum: X,
    cepstrum: F,
    confirm: V,
    after: SpectralIntegrator,
    class: (SignalType, u32),
) -> bool {
    if chosen {
        is_class(
            d,
            samples,
            rate,
            key,
            before,
            demodulate,
            spectrum,
            cepstrum,
            confirm,
            after,
            class,
        )
    } else {
        class == (SignalType::Unknown, 0u32) && after == before
    }
}

/// Whether a list of classes is what the chosen cuts show, one after the
/// other, and `states` what becomes of the averages from one to the next;
/// those that were not chosen show nothing and change nothing.
pub open spec fn classified<
    S,
    M: Fn(&[S]) -> Vec<i32>,
    X: Fn(&Vec<i32>) -> Vec<i64>,
    F: Fn(&Vec<i64>, usize) -> Vec<i64>,
    V: Fn(&Vec<i32>, u32, SyncLevels, Option<bool>) -> FieldSyncEvidence,
>(
    d: AnalogFpvDetector,
    rate: u32,
    keys: Seq<Option<i64>>,
    cuts: Seq<Seq<S>>,
    chosen: Seq<bool>,
    demodulate: M,
    spectrum: X,
    cepstrum: F,
    confirm: V,
    states: Seq<SpectralIntegrator>,
    classes: Seq<(SignalType, u32)>,
) -> bool {
    &&& classes.len() == cuts.len()
    &&& states.len() == cuts.len() + 1
    &&& forall|i: int|
        0 <= i < cuts.len() ==> is_class_if_chosen(
            d,
            cuts[i],
            rate,
            keys[i],
            chosen[i],
            states[i],
            demodulate,
            spectrum,
            cepstrum,
            confirm,
            states[i + 1],
            #[trigger] classes[i],
        )
}

/// The keys of a grid of probes.
pub open spec fn keys_of(center_hz: u64, offsets: Seq<i64>, integrated: bool) -> Seq<Option<i64>> {
    offsets.map_values(|o: i64| key_at(center_hz, o, integrated))
}

/// Whether an offset is what localizing a carrier on a demodulated cut comes
/// to.
pub open spec fn is_carrier(
    d: AnalogFpvDetector,
    demod: Seq<i32>,
    sample_rate: u32,
    cutoff: int,
    carrier_nhz: Option<i64>,
) -> bool {
    let c = carrier_on_cut(demod, sample_rate as int, d.assumed_deviation_hz as int, cutoff);
    match carrier_nhz {
        Some(x) => c == Some(x as int),
        None => c is None,
    }
}

/// Whether a cut that holds a whole swing can be made at all.
pub open spec fn can_cut_wide(d: AnalogFpvDetector, sample_rate: u32) -> bool {
    d.assumed_deviation_hz > 0 && sample_rate > 0
}

/// Whether a carrier offset is what the wide cut around the tuned centre
/// shows: nothing where no cut can be made.
pub open spec fn slice_carrier<S, W: Fn(&[S], i64, u64) -> Vec<i32>>(
    d: AnalogFpvDetector,
    iq: &[S],
    sample_rate: u32,
    wide: W,
    carrier_nhz: Option<i64>,
) -> bool {
    if !can_cut_wide(d, sample_rate) {
        carrier_nhz is None
    } else {
        let cutoff = wide_cutoff(
            sample_rate as int,
            d.assumed_deviation_hz as int,
            sample_rate as int,
        );
        exists|cut: Vec<i32>| #[trigger]
            wide.ensures((iq, 0, cutoff as u64), cut) && is_carrier(
                d,
                cut@,
                sample_rate,
                cutoff,
                carrier_nhz,
            )
    }
}

/// Whether evidence is what looking for vertical sync on a cluster's wide
/// cut comes to. Only an unconfirmed cluster is looked at, and only by the
/// levels that its cut shows.
pub open spec fn is_evidence<
    V: Fn(&Vec<i32>, u32, SyncLevels, Option<bool>) -> FieldSyncEvidence,
>(
    confirm: V,
    cut: &Vec<i32>,
    sample_rate: u32,
    kind: SignalType,
    confidence: u32,
    evidence: Option<FieldSyncEvidence>,
) -> bool {
    let levels = deviation_of(cut@, sample_rate as int);
    if unconfirmed(kind, confidence) && levels is Some {
        &&& evidence is Some
        &&& confirm.ensures((cut, sample_rate, levels->0.levels, hint(kind)), evidence->0)
    } else {
        evidence is None
    }
}

/// Whether a refinement is what the wide cut around a cluster shows.
pub open spec fn is_refinement<
    S,
    W: Fn(&[S], i64, u64) -> Vec<i32>,
    V: Fn(&Vec<i32>, u32, SyncLevels, Option<bool>) -> FieldSyncEvidence,
    L: Fn(i64) -> Option<i32>,
>(
    d: AnalogFpvDetector,
    iq: &[S],
    sample_rate: u32,
    wide: W,
    confirm: V,
    level: L,
    c: SweepCluster,
    r: Refinement,
) -> bool {
    &&& level.ensures((c.energy,), r.rssi_mdbm)
    &&& if !can_cut_wide(d, sample_rate) {
        r.carrier_nhz is None && r.evidence is None
    } else {
        let cutoff = wide_cutoff(
            sample_rate as int,
            d.assumed_deviation_hz as int,
            PROBE_REACH as int,
        );
        exists|cut: Vec<i32>| #[trigger]
            wide.ensures((iq, c.anchor_half_hz, cutoff as u64), cut) && is_carrier(
                d,
                cut@,
                sample_rate,
                cutoff,
                r.carrier_nhz,
            ) && is_evidence(confirm, &cut, sample_rate, c.kind, c.confidence, r.evidence)
    }
}

/// Whether a list of refinements is what the wide cuts around clusters show.
pub open spec fn refined_by<
    S,
    W: Fn(&[S], i64, u64) -> Vec<i32>,
    V: Fn(&Vec<i32>, u32, SyncLevels, Option<bool>) -> FieldSyncEvidence,
    L: Fn(i64) -> Option<i32>,
>(
    d: AnalogFpvDetector,
    iq: &[S],
    sample_rate: u32,
    wide: W,
    confirm: V,
    level: L,
    cs: Seq<SweepCluster>,
    refined: Seq<Refinement>,
) -> bool {
    &&& refined.len() == cs.len()
    &&& forall|i: int|
        0 <= i < cs.len() ==> is_refinement(
            d,
            iq,
            sample_rate,
            wide,
            confirm,
            level,
            cs[i],
            #[trigger] refined[i],
        )
}

/// Which probes are classified.
pub open spec fn chosen_probes(d: AnalogFpvDetector, energies: Seq<i64>, integrated: bool) -> Seq<bool> {
    Seq::new(
        energies.len(),
        |i: int| integrated || clears_gate(energies, d.energy_ratio as int, i),
    )
}

/// What a sweep comes to, given what was measured.
pub open spec fn sweep_outcome(
    d: AnalogFpvDetector,
    center_hz: u64,
    offsets: Seq<i64>,
    energies: Seq<i64>,
    classes: Seq<(SignalType, u32)>,
    refined: Seq<Refinement>,
) -> (Seq<DetectionResult>, Seq<ProbeEnergy>) {
    (
        merged(
            ordered(
                cluster_reports(d, center_hz, transmitters(offsets, energies, classes), refined),
            ),
        ).0.filter(|r: DetectionResult| d.reports(r)),
        probe_report(offsets, energies, classes),
    )
}

/// Whether results are what a capture that is one slice comes to.
pub open spec fn slice_searched<
    S,
    E: Fn(&[S]) -> i64,
    W: Fn(&[S], i64, u64) -> Vec<i32>,
    L: Fn(i64) -> Option<i32>,
>(
    d: AnalogFpvDetector,
    iq: &[S],
    center_hz: u64,
    sample_rate: u32,
    energy: E,
    wide: W,
    level: L,
    class: (SignalType, u32),
    results: Seq<DetectionResult>,
) -> bool {
    if class.0 == SignalType::Unknown {
        results.len() == 0
    } else {
        exists|carrier_nhz: Option<i64>, e: i64, rssi_mdbm: Option<i32>|
            {
                &&& slice_carrier(d, iq, sample_rate, wide, carrier_nhz)
                &&& #[trigger] is_energy(energy, iq@, e)
                &&& level.ensures((e,), rssi_mdbm)
                &&& results == #[trigger] slice_report(
                    d,
                    center_hz,
                    sample_rate,
                    class,
                    carrier_nhz,
                    rssi_mdbm,
                )
            }
    }
}

/// Whether results and probes are what a grid of probes comes to, and `after`
/// what becomes of the averages: every classified probe is folded in once,
/// under its key.
pub open spec fn grid_searched<
    S,
    D: Fn(&[S], Cut) -> Vec<S>,
    E: Fn(&[S]) -> i64,
    M: Fn(&[S]) -> Vec<i32>,
    X: Fn(&Vec<i32>) -> Vec<i64>,
    F: Fn(&Vec<i64>, usize) -> Vec<i64>,
    W: Fn(&[S], i64, u64) -> Vec<i32>,
    V: Fn(&Vec<i32>, u32, SyncLevels, Option<bool>) -> FieldSyncEvidence,
    L: Fn(i64) -> Option<i32>,
>(
    d: AnalogFpvDetector,
    iq: &[S],
    center_hz: u64,
    sample_rate: u32,
    integrated: bool,
    before: SpectralIntegrator,
    offsets: Seq<i64>,
    ddc: D,
    energy: E,
    demodulate: M,
    spectrum: X,
    cepstrum: F,
    wide: W,
    confirm: V,
    level: L,
    after: SpectralIntegrator,
    results: Seq<DetectionResult>,
    probes: Seq<ProbeEnergy>,
) -> bool {
    exists|
        cuts: Seq<Seq<S>>,
        energies: Seq<i64>,
        states: Seq<SpectralIntegrator>,
        classes: Seq<(SignalType, u32)>,
        refined: Seq<Refinement>,
    |
        {
            &&& #[trigger] measured(iq, sample_rate, ddc, energy, offsets, cuts, energies)
            &&& #[trigger] classified(
                d,
                cut_rate(sample_rate),
                keys_of(center_hz, offsets, integrated),
                cuts,
                chosen_probes(d, energies, integrated),
                demodulate,
                spectrum,
                cepstrum,
                confirm,
                states,
                classes,
            )
            &&& states[0] == before
            &&& states.last() == after
            &&& refined_by(
                d,
                iq,
                sample_rate,
                wide,
                confirm,
                level,
                transmitters(offsets, energies, classes),
                refined,
            )
            &&& (results, probes) == #[trigger] sweep_outcome(
                d,
                center_hz,
                offsets,
                energies,
                classes,
                refined,
            )
        }
}

/// Whether a search of a capture gives these results and these probes, and
/// turns the averages `before` it into those `after`.
pub open spec fn searched<
    S,
    D: Fn(&[S], Cut) -> Vec<S>,
    E: Fn(&[S]) -> i64,
    M: Fn(&[S]) -> Vec<i32>,
    X: Fn(&Vec<i32>) -> Vec<i64>,
    F: Fn(&Vec<i64>, usize) -> Vec<i64>,
    W: Fn(&[S], i64, u64) -> Vec<i32>,
    V: Fn(&Vec<i32>, u32, SyncLevels, Option<bool>) -> FieldSyncEvidence,
    L: Fn(i64) -> Option<i32>,
>(
    d: AnalogFpvDetector,
    iq: &[S],
    center_hz: u64,
    sample_rate: u32,
    integrated: bool,
    before: SpectralIntegrator,
    ddc: D,
    energy: E,
    demodulate: M,
    spectrum: X,
    cepstrum: F,
    wide: W,
    confirm: V,
    level: L,
    after: SpectralIntegrator,
    results: Seq<DetectionResult>,
    probes: Seq<ProbeEnergy>,
) -> bool {
    match strategy_for(iq@.len() as int, sample_rate as int) {
        SweepStrategy::Nothing => results.len() == 0 && probes.len() == 0 && after == before,
        SweepStrategy::Slice => probes.len() == 0 && exists|class: (SignalType, u32)|
            {
                &&& #[trigger] is_class(
                    d,
                    iq@,
                    sample_rate,
                    key_at(center_hz, 0, integrated),
                    before,
                    demodulate,
                    spectrum,
                    cepstrum,
                    confirm,
                    after,
                    class,
                )
                &&& slice_searched(
                    d,
                    iq,
                    center_hz,
                    sample_rate,
                    energy,
                    wide,
                    level,
                    class,
                    results,
                )
            },
        SweepStrategy::Sweep(k) => grid_searched(
            d,
            iq,
            center_hz,
            sample_rate,
            integrated,
            before,
            grid(sample_rate, k as int),
            ddc,
            energy,
            demodulate,
            spectrum,
            cepstrum,
            wide,
            confirm,
            level,
            after,
            results,
            probes,
        ),
    }
}

/// Whether evidence is what some search for vertical sync found.
pub open spec fn was_found<
    V: Fn(&Vec<i32>, u32, SyncLevels, Option<bool>) -> FieldSyncEvidence,
>(confirm: V, e: FieldSyncEvidence) -> bool {
    exists|v: &Vec<i32>, rate: u32, l: SyncLevels, p: Option<bool>| #[trigger]
        confirm.ensures((v, rate, l, p), e)
}

/// Whether a kind and a confidence are a row of the table of confidences, for
/// the reason that the row gives. Unresolved video has 600, or 750 where
/// vertical sync was confirmed. Video of a known standard has 800, or 950
/// where vertical sync was confirmed; or 600, if unconfirmed video is
/// demoted, where two and a half fields showed no vertical sync.
pub open spec fn tabled<
    V: Fn(&Vec<i32>, u32, SyncLevels, Option<bool>) -> FieldSyncEvidence,
>(confirm: V, demote: bool, kind: SignalType, conf: u32) -> bool {
    match kind {
        SignalType::AnalogVideoUnknown => {
            ||| conf == 600
            ||| conf == 750 && exists|e: FieldSyncEvidence| #[trigger]
                was_found(confirm, e) && confirms(e)
        },
        SignalType::AnalogVideoPal | SignalType::AnalogVideoNtsc => {
            ||| conf == 800
            ||| conf == 950 && exists|e: FieldSyncEvidence| #[trigger]
                was_found(confirm, e) && confirms(e)
            ||| conf == 600 && demote && exists|e: FieldSyncEvidence| #[trigger]
                was_found(confirm, e) && e.groups == 0 && e.slice_field_periods >= 2_500
        },
        _ => false,
    }
}

/// How a probe is cut out of a capture.
pub fn cut_at(sample_rate: u32, offset_half_hz: i64) -> (c: Cut)
    requires
        sample_rate > 0,
    ensures
        c == probe_cut(sample_rate, offset_half_hz),
        1 <= c.decimation <= sample_rate,
{
    let target_rate: u32 = probe_target_rate(sample_rate);
    let decimation: u32 = decimation_factor(sample_rate, target_rate);
    assert(1 <= decimation <= sample_rate) by (nonlinear_arith)
        requires
            decimation == (if sample_rate as int / target_rate as int >= 1 {
                sample_rate as int / target_rate as int
            } else {
                1
            }),
            sample_rate > 0,
            target_rate > 0,
    ;
    Cut { offset_half_hz, target_rate, decimation }
}

fn key_for(center_hz: u64, offset_half_hz: i64, integrated: bool) -> (key: Option<i64>)
    requires
        integrated ==> center_hz <= MAX_KEY_CENTER,
        -0x1_0000_0000 <= offset_half_hz <= 0x1_0000_0000,
    ensures
        key == key_at(center_hz, offset_half_hz, integrated),
{
    if integrated {
        Some(integration_key(center_hz, offset_half_hz))
    } else {
        None
    }
}

impl AnalogFpvDetector {
    fn classify<
        S,
        M: Fn(&[S]) -> Vec<i32>,
        X: Fn(&Vec<i32>) -> Vec<i64>,
        F: Fn(&Vec<i64>, usize) -> Vec<i64>,
        V: Fn(&Vec<i32>, u32, SyncLevels, Option<bool>) -> FieldSyncEvidence,
    >(
        &self,
        iq: &[S],
        sample_rate: u32,
        key: Option<i64>,
        integrator: &mut SpectralIntegrator,
        demodulate: &M,
        spectrum: &X,
        cepstrum: &F,
        confirm: &V,
    ) -> (class: (SignalType, u32))
        requires
            old(integrator).wf(),
            forall|s: &[S]| #[trigger] demodulate.requires((s,)),
            forall|v: &Vec<i32>| #[trigger] spectrum.requires((v,)),
            forall|v: &Vec<i32>, m: Vec<i64>| #[trigger]
                spectrum.ensures((v,), m) ==> v.len() <= m.len(),
            forall|m: &Vec<i64>, h: usize| #[trigger] cepstrum.requires((m, h)),
            forall|m: &Vec<i64>, h: usize, c: Vec<i64>| #[trigger]
                cepstrum.ensures((m, h), c) ==> c.len() == h,
            forall|v: &Vec<i32>, rate: u32, l: SyncLevels, p: Option<bool>| #[trigger]
                confirm.requires((v, rate, l, p)),
        ensures
            final(integrator).wf(),
            is_class(
                *self,
                iq@,
                sample_rate,
                key,
                *old(integrator),
                *demodulate,
                *spectrum,
                *cepstrum,
                *confirm,
                *final(integrator),
                class,
            ),
    {
        match key {
            None => {
                let class: (SignalType, u32) = self.detect_sync_pulses(
                    iq,
                    sample_rate,
                    demodulate,
                    spectrum,
                    cepstrum,
                    confirm,
                );
                class
            },
            Some(k) => {
                let class: (SignalType, u32) = self.detect_sync_pulses_integrated(
                    iq,
                    sample_rate,
                    k,
                    integrator,
                    demodulate,
                    spectrum,
                    cepstrum,
                    confirm,
                );
                class
            },
        }
    }

    /// Search a capture. The measurements are made by `ddc`, which cuts a
    /// probe out of it; `energy`, the mean power of samples; `demodulate`,
    /// `spectrum` and `cepstrum`, by which samples are classified; `wide`,
    /// which cuts and demodulates around an offset in half-hertz, with a
    /// cutoff in twentieths of a hertz; `confirm`, which looks for vertical
    /// sync; and `level`, a power in thousandths of a decibel.
    ///
    /// With `integrated`, spectra are averaged in `integrator`; otherwise it
    /// is left alone. Returns what is reported, and what each probe saw.
    pub fn detect_from_iq_impl<
        S,
        D: Fn(&[S], Cut) -> Vec<S>,
        E: Fn(&[S]) -> i64,
        M: Fn(&[S]) -> Vec<i32>,
        X: Fn(&Vec<i32>) -> Vec<i64>,
        F: Fn(&Vec<i64>, usize) -> Vec<i64>,
        W: Fn(&[S], i64, u64) -> Vec<i32>,
        V: Fn(&Vec<i32>, u32, SyncLevels, Option<bool>) -> FieldSyncEvidence,
        L: Fn(i64) -> Option<i32>,
    >(
        &self,
        iq: &[S],
        center_hz: u64,
        sample_rate: u32,
        integrated: bool,
        integrator: &mut SpectralIntegrator,
        ddc: &D,
        energy: &E,
        demodulate: &M,
        spectrum: &X,
        cepstrum: &F,
        wide: &W,
        confirm: &V,
        level: &L,
    ) -> (r: (Vec<DetectionResult>, Vec<ProbeEnergy>))
        requires
            old(integrator).wf(),
            integrated ==> center_hz <= MAX_KEY_CENTER,
            forall|c: Cut| #[trigger] ddc.requires((iq, c)),
            forall|s: &[S]| #[trigger] energy.requires((s,)),
            forall|s: &[S]| #[trigger] demodulate.requires((s,)),
            forall|v: &Vec<i32>| #[trigger] spectrum.requires((v,)),
            forall|v: &Vec<i32>, m: Vec<i64>| #[trigger]
                spectrum.ensures((v,), m) ==> v.len() <= m.len(),
            forall|m: &Vec<i64>, h: usize| #[trigger] cepstrum.requires((m, h)),
            forall|m: &Vec<i64>, h: usize, c: Vec<i64>| #[trigger]
                cepstrum.ensures((m, h), c) ==> c.len() == h,
            forall|o: i64, cutoff: u64| #[trigger] wide.requires((iq, o, cutoff)),
            forall|v: &Vec<i32>, rate: u32, l: SyncLevels, p: Option<bool>| #[trigger]
                confirm.requires((v, rate, l, p)),
            forall|e: i64| #[trigger] level.requires((e,)),
        ensures
            final(integrator).wf(),
            !integrated ==> *final(integrator) == *old(integrator),
            searched(
                *self,
                iq,
                center_hz,
                sample_rate,
                integrated,
                *old(integrator),
                *ddc,
                *energy,
                *demodulate,
                *spectrum,
                *cepstrum,
                *wide,
                *confirm,
                *level,
                *final(integrator),
                r.0@,
                r.1@,
            ),
            iq.len() < MIN_CAPTURE || sample_rate == 0 ==> r.0.len() == 0,
            by_frequency(r.0@),
            forall|i: int|
                0 <= i < r.0.len() ==> self.reports(#[trigger] r.0[i]) && r.0[i].channel is None,
            forall|i: int|
                0 <= i < r.0.len() ==> (#[trigger] r.0[i]).signal_type.analog() && 600
                    <= r.0[i].confidence <= 950,
            forall|i: int|
                0 <= i < r.0.len() ==> tabled(
                    *confirm,
                    self.demote_unconfirmed_video,
                    (#[trigger] r.0[i]).signal_type,
                    r.0[i].confidence,
                ),
    {
        let ghost before = *integrator;
        let r: (Vec<DetectionResult>, Vec<ProbeEnergy>) = match sweep_strategy(
            iq.len(),
            sample_rate,
        ) {
            SweepStrategy::Nothing => (Vec::new(), Vec::new()),
            SweepStrategy::Slice => {
                let key: Option<i64> = key_for(center_hz, 0, integrated);
                let class: (SignalType, u32) = self.classify(
                    iq,
                    sample_rate,
                    key,
                    integrator,
                    demodulate,
                    spectrum,
                    cepstrum,
                    confirm,
                );
                let out: Vec<DetectionResult> = self.search_slice(
                    iq,
                    center_hz,
                    sample_rate,
                    class,
                    energy,
                    wide,
                    level,
                );
                proof {
                    assert(is_class(
                        *self,
                        iq@,
                        sample_rate,
                        key_at(center_hz, 0, integrated),
                        before,
                        *demodulate,
                        *spectrum,
                        *cepstrum,
                        *confirm,
                        *integrator,
                        class,
                    ));
                }
                (out, Vec::new())
            },
            SweepStrategy::Sweep(k) => self.search_grid(
                iq,
                center_hz,
                sample_rate,
                k,
                integrated,
                integrator,
                ddc,
                energy,
                demodulate,
                spectrum,
                cepstrum,
                wide,
                confirm,
                level,
            ),
        };
        proof {
            law_reports_are_within_limits(
                *self,
                iq,
                center_hz,
                sample_rate,
                integrated,
                before,
                *ddc,
                *energy,
                *demodulate,
                *spectrum,
                *cepstrum,
                *wide,
                *confirm,
                *level,
                *integrator,
                r.0@,
                r.1@,
            );
            law_every_report_is_in_the_table(
                *self,
                iq,
                center_hz,
                sample_rate,
                integrated,
                before,
                *ddc,
                *energy,
                *demodulate,
                *spectrum,
                *cepstrum,
                *wide,
                *confirm,
                *level,
                *integrator,
                r.0@,
                r.1@,
            );
        }
        r
    }

    fn search_slice<
        S,
        E: Fn(&[S]) -> i64,
        W: Fn(&[S], i64, u64) -> Vec<i32>,
        L: Fn(i64) -> Option<i32>,
    >(
        &self,
        iq: &[S],
        center_hz: u64,
        sample_rate: u32,
        class: (SignalType, u32),
        energy: &E,
        wide: &W,
        level: &L,
    ) -> (out: Vec<DetectionResult>)
        requires
            forall|s: &[S]| #[trigger] energy.requires((s,)),
            forall|o: i64, cutoff: u64| #[trigger] wide.requires((iq, o, cutoff)),
            forall|e: i64| #[trigger] level.requires((e,)),
        ensures
            slice_searched(
                *self,
                iq,
                center_hz,
                sample_rate,
                *energy,
                *wide,
                *level,
                class,
                out@,
            ),
    {
        if class.0 == SignalType::Unknown {
            return Vec::new();
        }
        let carrier_nhz: Option<i64> = match self.wide_cut(sample_rate, sample_rate) {
            None => None,
            Some(cutoff) => {
                let cut: Vec<i32> = wide(iq, 0, cutoff);
                let c: Option<i64> = self.localize_carrier(cut.as_slice(), sample_rate, cutoff);
                assert(wide.ensures((iq, 0, cutoff), cut));
                assert(slice_carrier(*self, iq, sample_rate, *wide, c));
                c
            },
        };
        let e: i64 = energy(iq);
        let rssi_mdbm: Option<i32> = level(e);
        let out: Vec<DetectionResult> = self.report_slice(
            center_hz,
            sample_rate,
            class.0,
            class.1,
            carrier_nhz,
            rssi_mdbm,
        );
        proof {
            assert(energy.ensures((iq,), e));
            assert(is_energy(*energy, iq@, e));
            assert(out@ == slice_report(
                *self,
                center_hz,
                sample_rate,
                class,
                carrier_nhz,
                rssi_mdbm,
            ));
        }
        out
    }

    fn refine<
        S,
        W: Fn(&[S], i64, u64) -> Vec<i32>,
        V: Fn(&Vec<i32>, u32, SyncLevels, Option<bool>) -> FieldSyncEvidence,
        L: Fn(i64) -> Option<i32>,
    >(
        &self,
        iq: &[S],
        sample_rate: u32,
        wide: &W,
        confirm: &V,
        level: &L,
        c: &SweepCluster,
    ) -> (r: Refinement)
        requires
            forall|o: i64, cutoff: u64| #[trigger] wide.requires((iq, o, cutoff)),
            forall|v: &Vec<i32>, rate: u32, l: SyncLevels, p: Option<bool>| #[trigger]
                confirm.requires((v, rate, l, p)),
            forall|e: i64| #[trigger] level.requires((e,)),
        ensures
            is_refinement(*self, iq, sample_rate, *wide, *confirm, *level, *c, r),
    {
        let rssi_mdbm: Option<i32> = level(c.energy);
        match self.wide_cut(sample_rate, PROBE_REACH) {
            None => Refinement { carrier_nhz: None, evidence: None, rssi_mdbm },
            Some(cutoff) => {
                let cut: Vec<i32> = wide(iq, c.anchor_half_hz, cutoff);
                let carrier_nhz: Option<i64> = self.localize_carrier(
                    cut.as_slice(),
                    sample_rate,
                    cutoff,
                );
                let evidence: Option<FieldSyncEvidence> = if needs_wide_confirmation(
                    c.kind,
                    c.confidence,
                ) {
                    match estimate_sync_levels(cut.as_slice(), sample_rate) {
                        None => None,
                        Some(levels) => Some(
                            confirm(&cut, sample_rate, levels, standard_hint(c.kind)),
                        ),
                    }
                } else {
                    None
                };
                let r: Refinement = Refinement { carrier_nhz, evidence, rssi_mdbm };
                assert(wide.ensures((iq, c.anchor_half_hz, cutoff), cut));
                assert(is_carrier(*self, cut@, sample_rate, cutoff as int, r.carrier_nhz));
                assert(is_evidence(
                    *confirm,
                    &cut,
                    sample_rate,
                    c.kind,
                    c.confidence,
                    r.evidence,
                ));
                r
            },
        }
    }

    fn search_grid<
        S,
        D: Fn(&[S], Cut) -> Vec<S>,
        E: Fn(&[S]) -> i64,
        M: Fn(&[S]) -> Vec<i32>,
        X: Fn(&Vec<i32>) -> Vec<i64>,
        F: Fn(&Vec<i64>, usize) -> Vec<i64>,
        W: Fn(&[S], i64, u64) -> Vec<i32>,
        V: Fn(&Vec<i32>, u32, SyncLevels, Option<bool>) -> FieldSyncEvidence,
        L: Fn(i64) -> Option<i32>,
    >(
        &self,
        iq: &[S],
        center_hz: u64,
        sample_rate: u32,
        n_steps: usize,
        integrated: bool,
        integrator: &mut SpectralIntegrator,
        ddc: &D,
        energy: &E,
        demodulate: &M,
        spectrum: &X,
        cepstrum: &F,
        wide: &W,
        confirm: &V,
        level: &L,
    ) -> (r: (Vec<DetectionResult>, Vec<ProbeEnergy>))
        requires
            sample_rate > 0,
            n_steps == probe_count(sample_rate as int),
            0 < n_steps <= 1_000,
            old(integrator).wf(),
            integrated ==> center_hz <= MAX_KEY_CENTER,
            forall|c: Cut| #[trigger] ddc.requires((iq, c)),
            forall|s: &[S]| #[trigger] energy.requires((s,)),
            forall|s: &[S]| #[trigger] demodulate.requires((s,)),
            forall|v: &Vec<i32>| #[trigger] spectrum.requires((v,)),
            forall|v: &Vec<i32>, m: Vec<i64>| #[trigger]
                spectrum.ensures((v,), m) ==> v.len() <= m.len(),
            forall|m: &Vec<i64>, h: usize| #[trigger] cepstrum.requires((m, h)),
            forall|m: &Vec<i64>, h: usize, c: Vec<i64>| #[trigger]
                cepstrum.ensures((m, h), c) ==> c.len() == h,
            forall|o: i64, cutoff: u64| #[trigger] wide.requires((iq, o, cutoff)),
            forall|v: &Vec<i32>, rate: u32, l: SyncLevels, p: Option<bool>| #[trigger]
                confirm.requires((v, rate, l, p)),
            forall|e: i64| #[trigger] level.requires((e,)),
        ensures
            final(integrator).wf(),
            grid_searched(
                *self,
                iq,
                center_hz,
                sample_rate,
                integrated,
                *old(integrator),
                grid(sample_rate, n_steps as int),
                *ddc,
                *energy,
                *demodulate,
                *spectrum,
                *cepstrum,
                *wide,
                *confirm,
                *level,
                *final(integrator),
                r.0@,
                r.1@,
            ),
    {
        let offsets: Vec<i64> = probe_offsets(sample_rate, n_steps);
        let ghost offs = grid(sample_rate, n_steps as int);
        assert(offsets@ =~= offs);
        let mut cuts: Vec<Vec<S>> = Vec::new();
        let mut energies: Vec<i64> = Vec::new();
        let mut i: usize = 0;
        while i < offsets.len()
            invariant
                i <= offsets.len(),
                offsets@ == offs,
                cuts.len() == i,
                energies.len() == i,
                sample_rate > 0,
                forall|c: Cut| #[trigger] ddc.requires((iq, c)),
                forall|s: &[S]| #[trigger] energy.requires((s,)),
                forall|k: int|
                    0 <= k < i ==> is_cut(
                        *ddc,
                        iq,
                        probe_cut(sample_rate, offs[k]),
                        (#[trigger] cuts[k])@,
                    ),
                forall|k: int|
                    0 <= k < i ==> is_energy(*energy, cuts[k]@, #[trigger] energies[k]),
            decreases offsets.len() - i,
        {
            let c: Cut = cut_at(sample_rate, offsets[i]);
            let cut: Vec<S> = ddc(iq, c);
            let s: &[S] = cut.as_slice();
            let e: i64 = energy(s);
            proof {
                assert(ddc.ensures((iq, c), cut));
                assert(is_cut(*ddc, iq, probe_cut(sample_rate, offs[i as int]), cut@));
                assert(energy.ensures((s,), e));
                assert(is_energy(*energy, cut@, e));
            }
            cuts.push(cut);
            energies.push(e);
            i += 1;
        }
        let chosen: Vec<bool> = self.probes_to_classify(&energies, integrated);
        assert(chosen@ =~= chosen_probes(*self, energies@, integrated));
        let rate: u32 = sample_rate / cut_at(sample_rate, 0).decimation;
        let ghost keys = keys_of(center_hz, offs, integrated);
        let ghost before = *integrator;
        let ghost mut states: Seq<SpectralIntegrator> = seq![*integrator];
        let mut classes: Vec<(SignalType, u32)> = Vec::new();
        let mut j: usize = 0;
        while j < offsets.len()
            invariant
                j <= offsets.len() == chosen.len(),
                offsets@ == offs,
                offs == grid(sample_rate, n_steps as int),
                n_steps == probe_count(sample_rate as int),
                cuts.len() == offsets.len(),
                classes.len() == j,
                keys == keys_of(center_hz, offs, integrated),
                integrated ==> center_hz <= MAX_KEY_CENTER,
                integrator.wf(),
                states.len() == j + 1,
                states[0] == before,
                states[j as int] == *integrator,
                forall|s: &[S]| #[trigger] demodulate.requires((s,)),
                forall|v: &Vec<i32>| #[trigger] spectrum.requires((v,)),
                forall|v: &Vec<i32>, m: Vec<i64>| #[trigger]
                    spectrum.ensures((v,), m) ==> v.len() <= m.len(),
                forall|m: &Vec<i64>, h: usize| #[trigger] cepstrum.requires((m, h)),
                forall|m: &Vec<i64>, h: usize, c: Vec<i64>| #[trigger]
                    cepstrum.ensures((m, h), c) ==> c.len() == h,
                forall|v: &Vec<i32>, rate: u32, l: SyncLevels, p: Option<bool>| #[trigger]
                    confirm.requires((v, rate, l, p)),
                forall|k: int|
                    0 <= k < j ==> is_class_if_chosen(
                        *self,
                        cuts[k]@,
                        rate,
                        keys[k],
                        chosen[k],
                        states[k],
                        *demodulate,
                        *spectrum,
                        *cepstrum,
                        *confirm,
                        states[k + 1],
                        #[trigger] classes[k],
                    ),
            decreases offsets.len() - j,
        {
            let class: (SignalType, u32) = if chosen[j] {
                proof {
                    lemma_offset_bounds(sample_rate, j as int);
                }
                let key: Option<i64> = key_for(center_hz, offsets[j], integrated);
                self.classify(
                    cuts[j].as_slice(),
                    rate,
                    key,
                    integrator,
                    demodulate,
                    spectrum,
                    cepstrum,
                    confirm,
                )
            } else {
                (SignalType::Unknown, 0)
            };
            let ghost earlier = classes@;
            let ghost passed = states;
            classes.push(class);
            proof {
                states = states.push(*integrator);
                assert forall|k: int| 0 <= k < j + 1 implies is_class_if_chosen(
                    *self,
                    cuts[k]@,
                    rate,
                    keys[k],
                    chosen[k],
                    states[k],
                    *demodulate,
                    *spectrum,
                    *cepstrum,
                    *confirm,
                    states[k + 1],
                    #[trigger] classes[k],
                ) by {
                    if k < j {
                        assert(classes[k] == earlier[k]);
                        assert(states[k] == passed[k] && states[k + 1] == passed[k + 1]);
                    } else {
                        assert(states[k] == passed[j as int]);
                        assert(states[k + 1] == *integrator);
                        assert(keys[k] == key_at(center_hz, offsets[k], integrated));
                    }
                }
            }
            j += 1;
        }
        let (probes, hits): (Vec<ProbeEnergy>, Vec<SweepHit>) = collect_probes(
            &offsets,
            &energies,
            &classes,
        );
        let cs: Vec<SweepCluster> = cluster_hits(&hits);
        let mut refined: Ghost<Seq<Refinement>> = Ghost(Seq::empty());
        let mut results: Vec<DetectionResult> = Vec::new();
        let mut m: usize = 0;
        while m < cs.len()
            invariant
                m <= cs.len(),
                refined@.len() == m,
                results.len() == m,
                forall|o: i64, cutoff: u64| #[trigger] wide.requires((iq, o, cutoff)),
                forall|v: &Vec<i32>, rate: u32, l: SyncLevels, p: Option<bool>| #[trigger]
                    confirm.requires((v, rate, l, p)),
                forall|e: i64| #[trigger] level.requires((e,)),
                forall|k: int|
                    0 <= k < m ==> is_refinement(
                        *self,
                        iq,
                        sample_rate,
                        *wide,
                        *confirm,
                        *level,
                        cs[k],
                        #[trigger] refined@[k],
                    ),
                forall|k: int|
                    0 <= k < m ==> #[trigger] results[k] == cluster_report(
                        *self,
                        center_hz,
                        cs[k],
                        refined@[k],
                    ),
            decreases cs.len() - m,
        {
            let c: SweepCluster = cs[m];
            let r: Refinement = self.refine(iq, sample_rate, wide, confirm, level, &c);
            let report: DetectionResult = self.report_cluster(
                center_hz,
                &c,
                r.carrier_nhz,
                r.evidence,
                r.rssi_mdbm,
            );
            results.push(report);
            proof {
                refined@ = refined@.push(r);
            }
            m += 1;
        }
        let out: Vec<DetectionResult> = self.finish(&results);
        proof {
            let samples = Seq::new(cuts@.len(), |k: int| cuts@[k]@);
            assert(results@ =~= cluster_reports(
                *self,
                center_hz,
                transmitters(offs, energies@, classes@),
                refined@,
            ));
            assert(measured(iq, sample_rate, *ddc, *energy, offs, samples, energies@));
            assert(classified(
                *self,
                cut_rate(sample_rate),
                keys,
                samples,
                chosen_probes(*self, energies@, integrated),
                *demodulate,
                *spectrum,
                *cepstrum,
                *confirm,
                states,
                classes@,
            ));
            assert(states.last() == *integrator);
            assert(refined_by(
                *self,
                iq,
                sample_rate,
                *wide,
                *confirm,
                *level,
                transmitters(offs, energies@, classes@),
                refined@,
            ));
            assert((out@, probes@) == sweep_outcome(
                *self,
                center_hz,
                offs,
                energies@,
                classes@,
                refined@,
            ));
        }
        (out, probes)
    }
}

proof fn lemma_offset_bounds(sample_rate: u32, k: int)
    requires
        0 <= k < probe_count(sample_rate as int),
    ensures
        -0x1_0000_0000 <= probe_offset(sample_rate as int, k) <= 0x1_0000_0000,
{
    let span = sample_rate - 10_000_000;
    assert(probe_count(sample_rate as int) == (2 * span + 5_000_000) / 10_000_000 + 1);
    assert(10_000_000 * k <= 2 * span + 5_000_000);
    assert(probe_offset(sample_rate as int, k) == 10_000_000 * k - span);
}

impl AnalogFpvDetector {
    /// Search a capture with spectra that are averaged over batches. Every
    /// probe is classified, whatever its energy, and folded into the average
    /// at its frequency: a signal below this batch's floor is the one that
    /// averaging is for.
    pub fn detect_from_iq_integrated<
        S,
        D: Fn(&[S], Cut) -> Vec<S>,
        E: Fn(&[S]) -> i64,
        M: Fn(&[S]) -> Vec<i32>,
        X: Fn(&Vec<i32>) -> Vec<i64>,
        F: Fn(&Vec<i64>, usize) -> Vec<i64>,
        W: Fn(&[S], i64, u64) -> Vec<i32>,
        V: Fn(&Vec<i32>, u32, SyncLevels, Option<bool>) -> FieldSyncEvidence,
        L: Fn(i64) -> Option<i32>,
    >(
        &self,
        iq: &[S],
        center_hz: u64,
        sample_rate: u32,
        integrator: &mut SpectralIntegrator,
        ddc: &D,
        energy: &E,
        demodulate: &M,
        spectrum: &X,
        cepstrum: &F,
        wide: &W,
        confirm: &V,
        level: &L,
    ) -> (results: Vec<DetectionResult>)
        requires
            old(integrator).wf(),
            center_hz <= MAX_KEY_CENTER,
            forall|c: Cut| #[trigger] ddc.requires((iq, c)),
            forall|s: &[S]| #[trigger] energy.requires((s,)),
            forall|s: &[S]| #[trigger] demodulate.requires((s,)),
            forall|v: &Vec<i32>| #[trigger] spectrum.requires((v,)),
            forall|v: &Vec<i32>, m: Vec<i64>| #[trigger]
                spectrum.ensures((v,), m) ==> v.len() <= m.len(),
            forall|m: &Vec<i64>, h: usize| #[trigger] cepstrum.requires((m, h)),
            forall|m: &Vec<i64>, h: usize, c: Vec<i64>| #[trigger]
                cepstrum.ensures((m, h), c) ==> c.len() == h,
            forall|o: i64, cutoff: u64| #[trigger] wide.requires((iq, o, cutoff)),
            forall|v: &Vec<i32>, rate: u32, l: SyncLevels, p: Option<bool>| #[trigger]
                confirm.requires((v, rate, l, p)),
            forall|e: i64| #[trigger] level.requires((e,)),
        ensures
            final(integrator).wf(),
            exists|probes: Seq<ProbeEnergy>| #[trigger]
                searched(
                    *self,
                    iq,
                    center_hz,
                    sample_rate,
                    true,
                    *old(integrator),
                    *ddc,
                    *energy,
                    *demodulate,
                    *spectrum,
                    *cepstrum,
                    *wide,
                    *confirm,
                    *level,
                    *final(integrator),
                    results@,
                    probes,
                ),
            iq.len() < MIN_CAPTURE || sample_rate == 0 ==> results.len() == 0,
            by_frequency(results@),
            forall|i: int|
                0 <= i < results.len() ==> self.reports(#[trigger] results[i])
                    && results[i].channel is None,
            forall|i: int|
                0 <= i < results.len() ==> (#[trigger] results[i]).signal_type.analog() && 600
                    <= results[i].confidence <= 950,
            forall|i: int|
                0 <= i < results.len() ==> tabled(
                    *confirm,
                    self.demote_unconfirmed_video,
                    (#[trigger] results[i]).signal_type,
                    results[i].confidence,
                ),
    {
        let (results, _probes): (Vec<DetectionResult>, Vec<ProbeEnergy>) = self.detect_from_iq_impl(
            iq,
            center_hz,
            sample_rate,
            true,
            integrator,
            ddc,
            energy,
            demodulate,
            spectrum,
            cepstrum,
            wide,
            confirm,
            level,
        );
        results
    }

    /// [`Self::detect_from_iq_integrated`], with what each probe saw handed
    /// back, in ascending order. A capture that is one slice has no probes.
    pub fn detect_from_iq_integrated_with_probes<
        S,
        D: Fn(&[S], Cut) -> Vec<S>,
        E: Fn(&[S]) -> i64,
        M: Fn(&[S]) -> Vec<i32>,
        X: Fn(&Vec<i32>) -> Vec<i64>,
        F: Fn(&Vec<i64>, usize) -> Vec<i64>,
        W: Fn(&[S], i64, u64) -> Vec<i32>,
        V: Fn(&Vec<i32>, u32, SyncLevels, Option<bool>) -> FieldSyncEvidence,
        L: Fn(i64) -> Option<i32>,
    >(
        &self,
        iq: &[S],
        center_hz: u64,
        sample_rate: u32,
        integrator: &mut SpectralIntegrator,
        ddc: &D,
        energy: &E,
        demodulate: &M,
        spectrum: &X,
        cepstrum: &F,
        wide: &W,
        confirm: &V,
        level: &L,
        probes_out: &mut Vec<ProbeEnergy>,
    ) -> (results: Vec<DetectionResult>)
        requires
            old(integrator).wf(),
            center_hz <= MAX_KEY_CENTER,
            forall|c: Cut| #[trigger] ddc.requires((iq, c)),
            forall|s: &[S]| #[trigger] energy.requires((s,)),
            forall|s: &[S]| #[trigger] demodulate.requires((s,)),
            forall|v: &Vec<i32>| #[trigger] spectrum.requires((v,)),
            forall|v: &Vec<i32>, m: Vec<i64>| #[trigger]
                spectrum.ensures((v,), m) ==> v.len() <= m.len(),
            forall|m: &Vec<i64>, h: usize| #[trigger] cepstrum.requires((m, h)),
            forall|m: &Vec<i64>, h: usize, c: Vec<i64>| #[trigger]
                cepstrum.ensures((m, h), c) ==> c.len() == h,
            forall|o: i64, cutoff: u64| #[trigger] wide.requires((iq, o, cutoff)),
            forall|v: &Vec<i32>, rate: u32, l: SyncLevels, p: Option<bool>| #[trigger]
                confirm.requires((v, rate, l, p)),
            forall|e: i64| #[trigger] level.requires((e,)),
        ensures
            final(integrator).wf(),
            searched(
                *self,
                iq,
                center_hz,
                sample_rate,
                true,
                *old(integrator),
                *ddc,
                *energy,
                *demodulate,
                *spectrum,
                *cepstrum,
                *wide,
                *confirm,
                *level,
                *final(integrator),
                results@,
                final(probes_out)@,
            ),
            iq.len() < MIN_CAPTURE || sample_rate == 0 ==> results.len() == 0,
            by_frequency(results@),
            forall|i: int|
                0 <= i < results.len() ==> self.reports(#[trigger] results[i])
                    && results[i].channel is None,
            forall|i: int|
                0 <= i < results.len() ==> (#[trigger] results[i]).signal_type.analog() && 600
                    <= results[i].confidence <= 950,
            forall|i: int|
                0 <= i < results.len() ==> tabled(
                    *confirm,
                    self.demote_unconfirmed_video,
                    (#[trigger] results[i]).signal_type,
                    results[i].confidence,
                ),
            strategy_for(iq.len() as int, sample_rate as int) is Slice ==> final(probes_out).len()
                == 0,
    {
        let (results, probes): (Vec<DetectionResult>, Vec<ProbeEnergy>) = self.detect_from_iq_impl(
            iq,
            center_hz,
            sample_rate,
            true,
            integrator,
            ddc,
            energy,
            demodulate,
            spectrum,
            cepstrum,
            wide,
            confirm,
            level,
        );
        *probes_out = probes;
        results
    }
}

/// A detector with the measurements that it searches captures by.
pub struct CaptureDetector<D, E, M, X, F, W, V, L> {
    pub config: AnalogFpvDetector,
    pub ddc: D,
    pub energy: E,
    pub demodulate: M,
    pub spectrum: X,
    pub cepstrum: F,
    pub wide: W,
    pub confirm: V,
    pub level: L,
}

impl<
    S,
    D: Fn(&[S], Cut) -> Vec<S>,
    E: Fn(&[S]) -> i64,
    M: Fn(&[S]) -> Vec<i32>,
    X: Fn(&Vec<i32>) -> Vec<i64>,
    F: Fn(&Vec<i64>, usize) -> Vec<i64>,
    W: Fn(&[S], i64, u64) -> Vec<i32>,
    V: Fn(&Vec<i32>, u32, SyncLevels, Option<bool>) -> FieldSyncEvidence,
    L: Fn(i64) -> Option<i32>,
> FpvDetector<S> for CaptureDetector<D, E, M, X, F, W, V, L> {
    /// Its measurements can be made on anything; a spectrum is no shorter
    /// than the record, and a cepstrum has the length that was asked for.
    open spec fn ready(&self) -> bool {
        &&& forall|s: &[S], c: Cut| #[trigger] self.ddc.requires((s, c))
        &&& forall|s: &[S]| #[trigger] self.energy.requires((s,))
        &&& forall|s: &[S]| #[trigger] self.demodulate.requires((s,))
        &&& forall|v: &Vec<i32>| #[trigger] self.spectrum.requires((v,))
        &&& forall|v: &Vec<i32>, m: Vec<i64>| #[trigger]
            self.spectrum.ensures((v,), m) ==> v.len() <= m.len()
        &&& forall|m: &Vec<i64>, h: usize| #[trigger] self.cepstrum.requires((m, h))
        &&& forall|m: &Vec<i64>, h: usize, c: Vec<i64>| #[trigger]
            self.cepstrum.ensures((m, h), c) ==> c.len() == h
        &&& forall|s: &[S], o: i64, cutoff: u64| #[trigger] self.wide.requires((s, o, cutoff))
        &&& forall|v: &Vec<i32>, rate: u32, l: SyncLevels, p: Option<bool>| #[trigger]
            self.confirm.requires((v, rate, l, p))
        &&& forall|e: i64| #[trigger] self.level.requires((e,))
    }

    /// It finds what a search of the capture comes to, without averaging.
    open spec fn detects(
        &self,
        iq_data: Seq<S>,
        center_freq: u64,
        sample_rate: u32,
        found: Seq<DetectionResult>,
    ) -> bool {
        exists|s: &[S], none: SpectralIntegrator, probes: Seq<ProbeEnergy>|
            s@ == iq_data && #[trigger] searched(
                self.config,
                s,
                center_freq,
                sample_rate,
                false,
                none,
                self.ddc,
                self.energy,
                self.demodulate,
                self.spectrum,
                self.cepstrum,
                self.wide,
                self.confirm,
                self.level,
                none,
                found,
                probes,
            )
    }

    fn detect_from_iq(&self, iq_data: &[S], center_freq: u64, sample_rate: u32) -> (found: Vec<
        DetectionResult,
    >)
        ensures
            iq_data.len() < MIN_CAPTURE || sample_rate == 0 ==> found.len() == 0,
            by_frequency(found@),
            forall|i: int|
                0 <= i < found.len() ==> self.config.reports(#[trigger] found[i])
                    && found[i].channel is None,
            forall|i: int|
                0 <= i < found.len() ==> (#[trigger] found[i]).signal_type.analog() && 600
                    <= found[i].confidence <= 950,
            forall|i: int|
                0 <= i < found.len() ==> tabled(
                    self.confirm,
                    self.config.demote_unconfirmed_video,
                    (#[trigger] found[i]).signal_type,
                    found[i].confidence,
                ),
    {
        let mut none: SpectralIntegrator = SpectralIntegrator::new(1);
        let (found, _probes): (Vec<DetectionResult>, Vec<ProbeEnergy>) =
            self.config.detect_from_iq_impl(
            iq_data,
            center_freq,
            sample_rate,
            false,
            &mut none,
            &self.ddc,
            &self.energy,
            &self.demodulate,
            &self.spectrum,
            &self.cepstrum,
            &self.wide,
            &self.confirm,
            &self.level,
        );
        found
    }
}

/// The judgement of a record is a row of the table, or nothing.
proof fn lemma_judged_is_tabled<
    F: Fn(&Vec<i64>, usize) -> Vec<i64>,
    V: Fn(&Vec<i32>, u32, SyncLevels, Option<bool>) -> FieldSyncEvidence,
>(
    d: AnalogFpvDetector,
    demod: &Vec<i32>,
    mags: &Vec<i64>,
    sample_rate: u32,
    cepstrum: F,
    confirm: V,
    r: (SignalType, u32),
)
    requires
        record_judged(d, demod, mags, sample_rate, cepstrum, confirm, r),
    ensures
        r == (SignalType::Unknown, 0u32) || tabled(confirm, d.demote_unconfirmed_video, r.0, r.1),
{
    let rate = sample_rate as int;
    let demote = d.demote_unconfirmed_video;
    let (pulse_train, evidence) = choose|pulse_train: bool, evidence: FieldSyncEvidence|
        {
            &&& r == #[trigger] record_class(
                demod@,
                mags@,
                rate,
                demote,
                pulse_train,
                evidence,
            )
            &&& ({
                let kind = spectral_class(
                    mags@,
                    demod@.len() as int,
                    rate,
                    standard_in_time(demod@, rate),
                ).0;
                kind != SignalType::Unknown ==> confirmed_by(
                    kind,
                    mags,
                    demod@.len() as int,
                    rate,
                    cepstrum,
                    pulse_train,
                )
            })
            &&& r.0.analog() && deviation_of(demod@, rate) is Some ==> confirm.ensures(
                (demod, sample_rate, deviation_of(demod@, rate)->0.levels, hint(r.0)),
                evidence,
            )
        };
    law_confidence_levels_mean_what_they_say(demod@, mags@, rate, demote, pulse_train, evidence);
    if r.0.analog() && deviation_of(demod@, rate) is Some {
        assert(was_found(confirm, evidence));
    }
}

proof fn lemma_class_is_tabled<
    S,
    M: Fn(&[S]) -> Vec<i32>,
    X: Fn(&Vec<i32>) -> Vec<i64>,
    F: Fn(&Vec<i64>, usize) -> Vec<i64>,
    V: Fn(&Vec<i32>, u32, SyncLevels, Option<bool>) -> FieldSyncEvidence,
>(
    d: AnalogFpvDetector,
    samples: Seq<S>,
    rate: u32,
    key: Option<i64>,
    before: SpectralIntegrator,
    demodulate: M,
    spectrum: X,
    cepstrum: F,
    confirm: V,
    after: SpectralIntegrator,
    class: (SignalType, u32),
)
    requires
        is_class(
            d,
            samples,
            rate,
            key,
            before,
            demodulate,
            spectrum,
            cepstrum,
            confirm,
            after,
            class,
        ),
    ensures
        class == (SignalType::Unknown, 0u32) || tabled(
            confirm,
            d.demote_unconfirmed_video,
            class.0,
            class.1,
        ),
        rate == 0 ==> class == (SignalType::Unknown, 0u32),
{
    match key {
        None => {
            let s = choose|s: &[S]|
                s@ == samples && #[trigger] samples_judged(
                    d,
                    s,
                    rate,
                    demodulate,
                    spectrum,
                    cepstrum,
                    confirm,
                    class,
                );
            if class != (SignalType::Unknown, 0u32) {
                let demod = choose|demod: Vec<i32>|
                    {
                        &&& #[trigger] demodulate.ensures((s,), demod)
                        &&& if classifiable(demod@, rate as int) {
                            exists|mags: Vec<i64>| #[trigger]
                                spectrum.ensures((&demod,), mags) && record_judged(
                                    d,
                                    &demod,
                                    &mags,
                                    rate,
                                    cepstrum,
                                    confirm,
                                    class,
                                )
                        } else {
                            class == (SignalType::Unknown, 0u32)
                        }
                    };
                let mags = choose|mags: Vec<i64>| #[trigger]
                    spectrum.ensures((&demod,), mags) && record_judged(
                        d,
                        &demod,
                        &mags,
                        rate,
                        cepstrum,
                        confirm,
                        class,
                    );
                lemma_judged_is_tabled(d, &demod, &mags, rate, cepstrum, confirm, class);
            }
        },
        Some(k) => {
            let s = choose|s: &[S]|
                s@ == samples && #[trigger] samples_integrated(
                    d,
                    s,
                    rate,
                    k,
                    before,
                    demodulate,
                    spectrum,
                    cepstrum,
                    confirm,
                    after,
                    class,
                );
            if class != (SignalType::Unknown, 0u32) {
                let demod = choose|demod: Vec<i32>|
                    {
                        &&& #[trigger] demodulate.ensures((s,), demod)
                        &&& if classifiable(demod@, rate as int) {
                            exists|fresh: Vec<i64>, avg: &Vec<i64>|
                                {
                                    &&& #[trigger] spectrum.ensures((&demod,), fresh)
                                    &&& accumulated(before, k, fresh@, after)
                                    &&& avg@ == after.average(bucket_of(k))
                                    &&& #[trigger] record_judged(
                                        d,
                                        &demod,
                                        avg,
                                        rate,
                                        cepstrum,
                                        confirm,
                                        class,
                                    )
                                }
                        } else {
                            class == (SignalType::Unknown, 0u32) && after == before
                        }
                    };
                let (fresh, avg) = choose|fresh: Vec<i64>, avg: &Vec<i64>|
                    {
                        &&& #[trigger] spectrum.ensures((&demod,), fresh)
                        &&& accumulated(before, k, fresh@, after)
                        &&& avg@ == after.average(bucket_of(k))
                        &&& #[trigger] record_judged(
                            d,
                            &demod,
                            avg,
                            rate,
                            cepstrum,
                            confirm,
                            class,
                        )
                    };
                lemma_judged_is_tabled(d, &demod, avg, rate, cepstrum, confirm, class);
            }
        },
    }
}

/// A refined cluster of a tabled class has a tabled report.
proof fn lemma_report_is_tabled<
    S,
    W: Fn(&[S], i64, u64) -> Vec<i32>,
    V: Fn(&Vec<i32>, u32, SyncLevels, Option<bool>) -> FieldSyncEvidence,
    L: Fn(i64) -> Option<i32>,
>(
    d: AnalogFpvDetector,
    iq: &[S],
    center_hz: u64,
    sample_rate: u32,
    wide: W,
    confirm: V,
    level: L,
    c: SweepCluster,
    r: Refinement,
)
    requires
        tabled(confirm, d.demote_unconfirmed_video, c.kind, c.confidence),
        is_refinement(d, iq, sample_rate, wide, confirm, level, c, r),
    ensures
        ({
            let report = cluster_report(d, center_hz, c, r);
            tabled(confirm, d.demote_unconfirmed_video, report.signal_type, report.confidence)
        }),
{
    if can_cut_wide(d, sample_rate) {
        let cutoff = wide_cutoff(
            sample_rate as int,
            d.assumed_deviation_hz as int,
            PROBE_REACH as int,
        );
        let cut = choose|cut: Vec<i32>| #[trigger]
            wide.ensures((iq, c.anchor_half_hz, cutoff as u64), cut) && is_carrier(
                d,
                cut@,
                sample_rate,
                cutoff,
                r.carrier_nhz,
            ) && is_evidence(confirm, &cut, sample_rate, c.kind, c.confidence, r.evidence);
        match r.evidence {
            None => {},
            Some(e) => {
                let levels = deviation_of(cut@, sample_rate as int);
                assert(confirm.ensures((&cut, sample_rate, levels->0.levels, hint(c.kind)), e));
                assert(was_found(confirm, e));
            },
        }
    }
}

/// What a search reports is inside the configured limits and names no
/// channel, in ascending order of frequency. Without a rate, or from too
/// short a capture, there is nothing.
pub proof fn law_reports_are_within_limits<
    S,
    D: Fn(&[S], Cut) -> Vec<S>,
    E: Fn(&[S]) -> i64,
    M: Fn(&[S]) -> Vec<i32>,
    X: Fn(&Vec<i32>) -> Vec<i64>,
    F: Fn(&Vec<i64>, usize) -> Vec<i64>,
    W: Fn(&[S], i64, u64) -> Vec<i32>,
    V: Fn(&Vec<i32>, u32, SyncLevels, Option<bool>) -> FieldSyncEvidence,
    L: Fn(i64) -> Option<i32>,
>(
    d: AnalogFpvDetector,
    iq: &[S],
    center_hz: u64,
    sample_rate: u32,
    integrated: bool,
    before: SpectralIntegrator,
    ddc: D,
    energy: E,
    demodulate: M,
    spectrum: X,
    cepstrum: F,
    wide: W,
    confirm: V,
    level: L,
    after: SpectralIntegrator,
    results: Seq<DetectionResult>,
    probes: Seq<ProbeEnergy>,
)
    requires
        searched(
            d,
            iq,
            center_hz,
            sample_rate,
            integrated,
            before,
            ddc,
            energy,
            demodulate,
            spectrum,
            cepstrum,
            wide,
            confirm,
            level,
            after,
            results,
            probes,
        ),
    ensures
        iq@.len() < MIN_CAPTURE || sample_rate == 0 ==> results.len() == 0,
        by_frequency(results),
        forall|i: int| 0 <= i < results.len() ==> d.reports(#[trigger] results[i]),
        forall|i: int| 0 <= i < results.len() ==> (#[trigger] results[i]).channel is None,
        !integrated ==> after == before,
{
    match strategy_for(iq@.len() as int, sample_rate as int) {
        SweepStrategy::Nothing => {},
        SweepStrategy::Slice => {
            let class = choose|class: (SignalType, u32)|
                {
                    &&& #[trigger] is_class(
                        d,
                        iq@,
                        sample_rate,
                        key_at(center_hz, 0, integrated),
                        before,
                        demodulate,
                        spectrum,
                        cepstrum,
                        confirm,
                        after,
                        class,
                    )
                    &&& slice_searched(
                        d,
                        iq,
                        center_hz,
                        sample_rate,
                        energy,
                        wide,
                        level,
                        class,
                        results,
                    )
                };
            lemma_class_is_tabled(
                d,
                iq@,
                sample_rate,
                key_at(center_hz, 0, integrated),
                before,
                demodulate,
                spectrum,
                cepstrum,
                confirm,
                after,
                class,
            );
        },
        SweepStrategy::Sweep(k) => {
            let offsets = grid(sample_rate, k as int);
            let (cuts, energies, states, classes, refined) = choose|
                cuts: Seq<Seq<S>>,
                energies: Seq<i64>,
                states: Seq<SpectralIntegrator>,
                classes: Seq<(SignalType, u32)>,
                refined: Seq<Refinement>,
            |
                {
                    &&& #[trigger] measured(iq, sample_rate, ddc, energy, offsets, cuts, energies)
                    &&& #[trigger] classified(
                        d,
                        cut_rate(sample_rate),
                        keys_of(center_hz, offsets, integrated),
                        cuts,
                        chosen_probes(d, energies, integrated),
                        demodulate,
                        spectrum,
                        cepstrum,
                        confirm,
                        states,
                        classes,
                    )
                    &&& states[0] == before
                    &&& states.last() == after
                    &&& refined_by(
                        d,
                        iq,
                        sample_rate,
                        wide,
                        confirm,
                        level,
                        transmitters(offsets, energies, classes),
                        refined,
                    )
                    &&& (results, probes) == #[trigger] sweep_outcome(
                        d,
                        center_hz,
                        offsets,
                        energies,
                        classes,
                        refined,
                    )
                };
            let cs = transmitters(offsets, energies, classes);
            let reports = cluster_reports(d, center_hz, cs, refined);
            let keep = |r: DetectionResult| d.reports(r);
            law_reports_are_ordered(reports, keep);
            assert forall|i: int| 0 <= i < results.len() implies d.reports(#[trigger] results[i])
                && results[i].channel is None by {
                law_reports_were_detected(reports, keep, i);
                let at = reports.index_of(results[i]);
                assert(reports[at] == cluster_report(d, center_hz, cs[at], refined[at]));
            }
            if !integrated {
                lemma_averages_stay(
                    d,
                    cut_rate(sample_rate),
                    keys_of(center_hz, offsets, integrated),
                    cuts,
                    chosen_probes(d, energies, integrated),
                    demodulate,
                    spectrum,
                    cepstrum,
                    confirm,
                    states,
                    classes,
                    cuts.len() as int,
                );
            }
        },
    }
}

proof fn lemma_averages_stay<
    S,
    M: Fn(&[S]) -> Vec<i32>,
    X: Fn(&Vec<i32>) -> Vec<i64>,
    F: Fn(&Vec<i64>, usize) -> Vec<i64>,
    V: Fn(&Vec<i32>, u32, SyncLevels, Option<bool>) -> FieldSyncEvidence,
>(
    d: AnalogFpvDetector,
    rate: u32,
    keys: Seq<Option<i64>>,
    cuts: Seq<Seq<S>>,
    chosen: Seq<bool>,
    demodulate: M,
    spectrum: X,
    cepstrum: F,
    confirm: V,
    states: Seq<SpectralIntegrator>,
    classes: Seq<(SignalType, u32)>,
    n: int,
)
    requires
        classified(
            d,
            rate,
            keys,
            cuts,
            chosen,
            demodulate,
            spectrum,
            cepstrum,
            confirm,
            states,
            classes,
        ),
        keys.len() == cuts.len(),
        forall|i: int| 0 <= i < keys.len() ==> #[trigger] keys[i] is None,
        0 <= n <= cuts.len(),
    ensures
        states[n] == states[0],
    decreases n,
{
    if n > 0 {
        lemma_averages_stay(
            d,
            rate,
            keys,
            cuts,
            chosen,
            demodulate,
            spectrum,
            cepstrum,
            confirm,
            states,
            classes,
            n - 1,
        );
        assert(keys[n - 1] is None);
        let class = classes[n - 1];
        assert(states[n - 1 + 1] == states[n - 1]);
    }
}

/// Every report is a row of the table of confidences, for the reason that
/// the row gives: analog video, from 600 to 950.
pub proof fn law_every_report_is_in_the_table<
    S,
    D: Fn(&[S], Cut) -> Vec<S>,
    E: Fn(&[S]) -> i64,
    M: Fn(&[S]) -> Vec<i32>,
    X: Fn(&Vec<i32>) -> Vec<i64>,
    F: Fn(&Vec<i64>, usize) -> Vec<i64>,
    W: Fn(&[S], i64, u64) -> Vec<i32>,
    V: Fn(&Vec<i32>, u32, SyncLevels, Option<bool>) -> FieldSyncEvidence,
    L: Fn(i64) -> Option<i32>,
>(
    d: AnalogFpvDetector,
    iq: &[S],
    center_hz: u64,
    sample_rate: u32,
    integrated: bool,
    before: SpectralIntegrator,
    ddc: D,
    energy: E,
    demodulate: M,
    spectrum: X,
    cepstrum: F,
    wide: W,
    confirm: V,
    level: L,
    after: SpectralIntegrator,
    results: Seq<DetectionResult>,
    probes: Seq<ProbeEnergy>,
)
    requires
        searched(
            d,
            iq,
            center_hz,
            sample_rate,
            integrated,
            before,
            ddc,
            energy,
            demodulate,
            spectrum,
            cepstrum,
            wide,
            confirm,
            level,
            after,
            results,
            probes,
        ),
    ensures
        forall|i: int|
            0 <= i < results.len() ==> tabled(
                confirm,
                d.demote_unconfirmed_video,
                (#[trigger] results[i]).signal_type,
                results[i].confidence,
            ),
        forall|i: int|
            0 <= i < results.len() ==> (#[trigger] results[i]).signal_type.analog() && 600
                <= results[i].confidence <= 950,
{
    let demote = d.demote_unconfirmed_video;
    match strategy_for(iq@.len() as int, sample_rate as int) {
        SweepStrategy::Nothing => {},
        SweepStrategy::Slice => {
            let class = choose|class: (SignalType, u32)|
                {
                    &&& #[trigger] is_class(
                        d,
                        iq@,
                        sample_rate,
                        key_at(center_hz, 0, integrated),
                        before,
                        demodulate,
                        spectrum,
                        cepstrum,
                        confirm,
                        after,
                        class,
                    )
                    &&& slice_searched(
                        d,
                        iq,
                        center_hz,
                        sample_rate,
                        energy,
                        wide,
                        level,
                        class,
                        results,
                    )
                };
            lemma_class_is_tabled(
                d,
                iq@,
                sample_rate,
                key_at(center_hz, 0, integrated),
                before,
                demodulate,
                spectrum,
                cepstrum,
                confirm,
                after,
                class,
            );
        },
        SweepStrategy::Sweep(k) => {
            let offsets = grid(sample_rate, k as int);
            let (cuts, energies, states, classes, refined) = choose|
                cuts: Seq<Seq<S>>,
                energies: Seq<i64>,
                states: Seq<SpectralIntegrator>,
                classes: Seq<(SignalType, u32)>,
                refined: Seq<Refinement>,
            |
                {
                    &&& #[trigger] measured(iq, sample_rate, ddc, energy, offsets, cuts, energies)
                    &&& #[trigger] classified(
                        d,
                        cut_rate(sample_rate),
                        keys_of(center_hz, offsets, integrated),
                        cuts,
                        chosen_probes(d, energies, integrated),
                        demodulate,
                        spectrum,
                        cepstrum,
                        confirm,
                        states,
                        classes,
                    )
                    &&& states[0] == before
                    &&& states.last() == after
                    &&& refined_by(
                        d,
                        iq,
                        sample_rate,
                        wide,
                        confirm,
                        level,
                        transmitters(offsets, energies, classes),
                        refined,
                    )
                    &&& (results, probes) == #[trigger] sweep_outcome(
                        d,
                        center_hz,
                        offsets,
                        energies,
                        classes,
                        refined,
                    )
                };
            let cs = transmitters(offsets, energies, classes);
            let reports = cluster_reports(d, center_hz, cs, refined);
            let keep = |r: DetectionResult| d.reports(r);
            let p = |kind: SignalType, conf: u32| tabled(confirm, demote, kind, conf);
            let rate = cut_rate(sample_rate);
            let keys = keys_of(center_hz, offsets, integrated);
            let chosen = chosen_probes(d, energies, integrated);
            assert forall|i: int|
                0 <= i < classes.len() && (#[trigger] classes[i]).0
                    != SignalType::Unknown implies p(classes[i].0, classes[i].1) by {
                if chosen[i] {
                    lemma_class_is_tabled(
                        d,
                        cuts[i],
                        rate,
                        keys[i],
                        states[i],
                        demodulate,
                        spectrum,
                        cepstrum,
                        confirm,
                        states[i + 1],
                        classes[i],
                    );
                }
            }
            law_transmitters_have_probed_classes(offsets, energies, classes, p);
            assert forall|i: int| 0 <= i < results.len() implies tabled(
                confirm,
                demote,
                (#[trigger] results[i]).signal_type,
                results[i].confidence,
            ) by {
                law_reports_were_detected(reports, keep, i);
                let at = reports.index_of(results[i]);
                assert(reports[at] == cluster_report(d, center_hz, cs[at], refined[at]));
                assert(has_class(cs[at], p));
                assert(is_refinement(
                    d,
                    iq,
                    sample_rate,
                    wide,
                    confirm,
                    level,
                    cs[at],
                    refined[at],
                ));
                lemma_report_is_tabled(
                    d,
                    iq,
                    center_hz,
                    sample_rate,
                    wide,
                    confirm,
                    level,
                    cs[at],
                    refined[at],
                );
            }
        },
    }
}
proof fn lemma_no_hits(offsets: Seq<i64>, energies: Seq<i64>, classes: Seq<(SignalType, u32)>)
    requires
        offsets.len() <= classes.len(),
        forall|i: int| 0 <= i < offsets.len() ==> (#[trigger] classes[i]).0 == SignalType::Unknown,
    ensures
        hits_of(offsets, energies, classes).len() == 0,
    decreases offsets.len(),
{
    if offsets.len() > 0 {
        lemma_no_hits(offsets.drop_last(), energies, classes);
    }
}

/// A flat band is empty: where every probe measures the same energy, none is
/// classified and nothing is reported, as long as the threshold is not below
/// the floor. Averaged spectra are classified whatever their energy.
pub proof fn law_flat_band_reports_nothing<
    S,
    M: Fn(&[S]) -> Vec<i32>,
    X: Fn(&Vec<i32>) -> Vec<i64>,
    F: Fn(&Vec<i64>, usize) -> Vec<i64>,
    V: Fn(&Vec<i32>, u32, SyncLevels, Option<bool>) -> FieldSyncEvidence,
>(
    d: AnalogFpvDetector,
    center_hz: u64,
    offsets: Seq<i64>,
    energies: Seq<i64>,
    demodulate: M,
    spectrum: X,
    cepstrum: F,
    confirm: V,
    rate: u32,
    keys: Seq<Option<i64>>,
    cuts: Seq<Seq<S>>,
    states: Seq<SpectralIntegrator>,
    classes: Seq<(SignalType, u32)>,
    refined: Seq<Refinement>,
    e: i64,
)
    requires
        0 <= e,
        offsets.len() > 0,
        energies.len() == offsets.len(),
        cuts.len() == offsets.len(),
        forall|i: int| 0 <= i < energies.len() ==> #[trigger] energies[i] == e,
        d.energy_ratio >= 1_000_000,
        classified(
            d,
            rate,
            keys,
            cuts,
            chosen_probes(d, energies, false),
            demodulate,
            spectrum,
            cepstrum,
            confirm,
            states,
            classes,
        ),
    ensures
        sweep_outcome(d, center_hz, offsets, energies, classes, refined).0.len() == 0,
{
    let n = energies.len() as int;
    let floor = ranked(energies, n / 4);
    lemma_sorted_rank(energies, energies, n / 4);
    assert(floor == e);
    assert forall|i: int| 0 <= i < offsets.len() implies (#[trigger] classes[i]).0
        == SignalType::Unknown by {
        assert(e * d.energy_ratio >= 1_000_000 * e) by (nonlinear_arith)
            requires
                0 <= e,
                d.energy_ratio >= 1_000_000,
        ;
        if e == 0 {
            lemma_largest_is_not_negative(energies, n - 1);
        }
        assert(!clears_gate(energies, d.energy_ratio as int, i));
        assert(!chosen_probes(d, energies, false)[i]);
    }
    lemma_no_hits(offsets, energies, classes);
    let cs = transmitters(offsets, energies, classes);
    assert(strongest_first(hits_of(offsets, energies, classes)).len() == 0);
    assert(cs.len() == 0);
    assert(cluster_reports(d, center_hz, cs, refined).len() == 0);
    assert(ordered(cluster_reports(d, center_hz, cs, refined)).len() == 0);
    reveal(Seq::filter);
}

proof fn lemma_largest_is_not_negative(s: Seq<i64>, hi: int)
    ensures
        largest(s, 0, hi) >= 0,
    decreases hi + 1,
{
    if hi >= 0 {
        lemma_largest_is_not_negative(s, hi - 1);
    }
}

/// A probe of a capture above 20 MHz is decimated to a rate from 10 MHz up to
/// less than 20; one of a slower capture keeps every sample.
pub proof fn law_probes_are_cut_down(sample_rate: u32, offset_half_hz: i64)
    requires
        sample_rate > 0,
    ensures
        ({
            let cut = probe_cut(sample_rate, offset_half_hz);
            &&& cut.offset_half_hz == offset_half_hz
            &&& sample_rate <= 20_000_000 ==> cut.target_rate == sample_rate && cut.decimation == 1
                && cut_rate(sample_rate) == sample_rate
            &&& sample_rate > 20_000_000 ==> cut.target_rate == 10_000_000 && 10_000_000
                * cut.decimation <= sample_rate < 10_000_000 * (cut.decimation + 1) && 10_000_000
                <= cut_rate(sample_rate) < 20_000_000
        }),
{
    let rate = sample_rate as int;
    if sample_rate > 20_000_000 {
        let f = rate / 10_000_000;
        assert(f >= 2);
        let q = rate / f;
        assert(10_000_000 <= q < 20_000_000) by (nonlinear_arith)
            requires
                10_000_000 * f <= rate < 10_000_000 * (f + 1),
                f >= 2,
                q == rate / f,
        ;
        assert(probe_cut(sample_rate, 0).decimation == f);
        assert(cut_rate(sample_rate) == q);
    } else {
        assert(rate / rate == 1) by (nonlinear_arith)
            requires
                rate > 0,
        ;
        assert(probe_cut(sample_rate, 0).decimation == 1);
        assert(rate / 1 == rate);
    }
}

proof fn lemma_lone_hit(
    offsets: Seq<i64>,
    energies: Seq<i64>,
    classes: Seq<(SignalType, u32)>,
    k: int,
)
    requires
        offsets.len() <= classes.len(),
        forall|i: int|
            0 <= i < offsets.len() ==> ((#[trigger] classes[i]).0 == SignalType::Unknown <==> i != k),
    ensures
        hits_of(offsets, energies, classes) == (if 0 <= k < offsets.len() {
            seq![
                SweepHit {
                    offset_half_hz: offsets[k],
                    energy: energies[k],
                    kind: classes[k].0,
                    confidence: classes[k].1,
                },
            ]
        } else {
            Seq::empty()
        }),
    decreases offsets.len(),
{
    if offsets.len() > 0 {
        let n = offsets.len() - 1;
        let rest = offsets.drop_last();
        lemma_lone_hit(rest, energies, classes, k);
        assert(classes[n].0 == SignalType::Unknown <==> n != k);
        let hits = hits_of(offsets, energies, classes);
        if 0 <= k < offsets.len() {
            assert(hits =~= seq![
                SweepHit {
                    offset_half_hz: offsets[k],
                    energy: energies[k],
                    kind: classes[k].0,
                    confidence: classes[k].1,
                },
            ]);
        }
    }
}

/// A transmitter that only one probe shows is reported once, at that probe's
/// offset from the centre and its carrier's from there, with the probe's kind
/// and the confidence that the wide cut leaves it; not at all where that is
/// outside the limits.
pub proof fn law_lone_probe_is_reported(
    d: AnalogFpvDetector,
    center_hz: u64,
    offsets: Seq<i64>,
    energies: Seq<i64>,
    classes: Seq<(SignalType, u32)>,
    refined: Seq<Refinement>,
    k: int,
)
    requires
        offsets.len() == energies.len() == classes.len(),
        0 <= k < offsets.len(),
        forall|i: int|
            0 <= i < offsets.len() ==> ((#[trigger] classes[i]).0 == SignalType::Unknown <==> i != k),
        refined.len() == 1,
    ensures
        ({
            let found = sweep_outcome(d, center_hz, offsets, energies, classes, refined).0;
            let confidence = tier_on_wide_cut(
                classes[k].0,
                classes[k].1,
                refined[0].evidence,
                d.demote_unconfirmed_video,
            );
            let fits = d.min_bandwidth <= 10_000_000 <= d.max_bandwidth && confidence
                >= d.min_confidence;
            &&& !fits ==> found.len() == 0
            &&& fits ==> found.len() == 1 && found[0].signal_type == classes[k].0
                && found[0].confidence == confidence && found[0].rssi_mdbm == refined[0].rssi_mdbm
                && found[0].channel is None && found[0].frequency_hz == located(
                center_hz as int,
                offsets[k] as int,
                match refined[0].carrier_nhz {
                    Some(x) => x as int,
                    None => 0,
                },
            )
        }),
{
    let hit = SweepHit {
        offset_half_hz: offsets[k],
        energy: energies[k],
        kind: classes[k].0,
        confidence: classes[k].1,
    };
    let c = SweepCluster {
        anchor_half_hz: offsets[k],
        energy: energies[k],
        kind: classes[k].0,
        confidence: classes[k].1,
    };
    lemma_lone_hit(offsets, energies, classes, k);
    let hits = seq![hit];
    let no_hits: Seq<SweepHit> = Seq::empty();
    assert(hits.drop_last() =~= no_hits);
    assert(strongest_first(no_hits) =~= no_hits);
    reveal_with_fuel(rank_of, 2);
    assert(strongest_first(hits) =~= hits);
    reveal_with_fuel(clustered, 2);
    reveal_with_fuel(cluster_around, 2);
    let no_clusters: Seq<SweepCluster> = Seq::empty();
    assert(clustered(no_hits) =~= no_clusters);
    assert(clustered(hits) =~= seq![c]);
    let cs = seq![c];
    assert(cs.drop_first() =~= no_clusters);
    assert(with_skirts(c, no_clusters) == c);
    no_clusters.lemma_filter_len(|x: SweepCluster| !is_skirt(x, c));
    assert(beyond(c, no_clusters) =~= no_clusters);
    assert(skirts_absorbed(no_clusters) =~= no_clusters);
    assert(skirts_absorbed(cs) =~= cs);
    assert(transmitters(offsets, energies, classes) == cs);
    let r = cluster_report(d, center_hz, c, refined[0]);
    let reports = cluster_reports(d, center_hz, cs, refined);
    assert(reports =~= seq![r]);
    let none: Seq<DetectionResult> = Seq::empty();
    let one = seq![r];
    assert(one.drop_last() =~= none);
    assert(ordered(none) =~= none);
    reveal_with_fuel(place_of, 2);
    assert(ordered(one) =~= one);
    reveal_with_fuel(merged, 2);
    assert(merged(one).0 =~= one);
    let keep = |x: DetectionResult| d.reports(x);
    reveal(Seq::filter);
    none.lemma_filter_len(keep);
    assert(one.last() == r);
    assert(one.filter(keep) == if keep(r) {
        none.filter(keep).push(r)
    } else {
        none.filter(keep)
    });
    law_located_to_the_nearest_hertz(
        center_hz as int,
        offsets[k] as int,
        match refined[0].carrier_nhz {
            Some(x) => x as int,
            None => 0,
        },
    );
}

/// A slice that shows something inside the limits is reported once, where its
/// carrier lies, and nothing else ever is.
pub proof fn law_slices_are_reported_at_their_carrier(
    d: AnalogFpvDetector,
    center_hz: u64,
    sample_rate: u32,
    class: (SignalType, u32),
    carrier_nhz: Option<i64>,
    rssi_mdbm: Option<i32>,
)
    ensures
        ({
            let found = slice_report(d, center_hz, sample_rate, class, carrier_nhz, rssi_mdbm);
            let fits = class.0 != SignalType::Unknown && d.min_bandwidth <= sample_rate
                <= d.max_bandwidth && class.1 >= d.min_confidence;
            &&& !fits ==> found.len() == 0
            &&& fits ==> found.len() == 1 && found[0].signal_type == class.0 && found[0].confidence
                == class.1 && found[0].rssi_mdbm == rssi_mdbm && found[0].bandwidth_hz
                == sample_rate && found[0].frequency_hz == located(
                center_hz as int,
                0,
                match carrier_nhz {
                    Some(x) => x as int,
                    None => 0,
                },
            )
        }),
{
    law_located_to_the_nearest_hertz(
        center_hz as int,
        0,
        match carrier_nhz {
            Some(x) => x as int,
            None => 0,
        },
    );
}

/// Only probes that clear the energy gate are classified, unless spectra are
/// averaged; then every probe is.
pub proof fn law_averaging_classifies_every_probe(d: AnalogFpvDetector, energies: Seq<i64>, i: int)
    requires
        0 <= i < energies.len(),
    ensures
        chosen_probes(d, energies, true)[i],
        chosen_probes(d, energies, false)[i] <==> clears_gate(
            energies,
            d.energy_ratio as int,
            i,
        ),
        chosen_probes(d, energies, true).len() == energies.len(),
        chosen_probes(d, energies, false).len() == energies.len(),
{
}

/// A probe's cut reaches half of the way to the next probe.
pub proof fn law_probes_reach_halfway(sample_rate: int, k: int)
    ensures
        2 * PROBE_REACH == probe_offset(sample_rate, k + 1) - probe_offset(sample_rate, k),
{
}

} // verus!
