//! Decisions of the detector: which standard a slice shows, which probes
//! belong to one transmitter, and what is reported.

pub mod carrier;
pub mod confirm;
pub mod integrator;
pub mod line_rate;
pub mod results;
pub mod search;
pub mod spectrum;
pub mod sweep;

use vstd::prelude::*;

use crate::detector::confirm::{
    apply_vbi_confidence_tier, can_check, cepstral_window, confirms, hint, peaks_sharply,
    standard_hint, supported, tier, tier_on_wide_cut, verify_cepstrum, CepstralWindow,
};
use crate::detector::integrator::{accumulated, bucket_of, SpectralIntegrator};
use crate::detector::line_rate::standard_in_time;
use crate::detector::spectrum::{can_classify, classifiable, classify_spectrum, spectral_class};
use crate::detector::sweep::MIN_CAPTURE;
use crate::levels::{deviation_of, estimate_sync_levels, SyncLevels};
use crate::types::{DetectionResult, SignalType};
use crate::vbi::FieldSyncEvidence;

verus! {

/// A detector of transmissions in raw samples `S`.
pub trait FpvDetector<S> {
    /// Whether the detector can be asked. One that always can leaves this as
    /// it is.
    open spec fn ready(&self) -> bool {
        true
    }

    /// Whether a list of detections is one that a capture can lead to. A
    /// detector that promises nothing leaves this as it is.
    open spec fn detects(
        &self,
        iq_data: Seq<S>,
        center_freq: u64,
        sample_rate: u32,
        found: Seq<DetectionResult>,
    ) -> bool {
        true
    }

    /// Detect transmissions in a capture.
    fn detect_from_iq(&self, iq_data: &[S], center_freq: u64, sample_rate: u32) -> (found: Vec<
        DetectionResult,
    >)
        requires
            self.ready(),
        ensures
            self.detects(iq_data@, center_freq, sample_rate, found@),
    ;
}

/// What the detector looks for and what it reports.
#[derive(Debug, Clone, Copy, PartialEq, Eq, Structural)]
pub struct AnalogFpvDetector {
    /// How far above the noise floor a probe must lie to be classified, as a
    /// power ratio in millionths.
    pub energy_ratio: u64,
    pub min_bandwidth: u32,
    pub max_bandwidth: u32,
    /// Least confidence that is reported, in thousandths.
    pub min_confidence: u32,
    /// Whether a strong candidate that shows no vertical sync over two and a
    /// half fields is demoted.
    pub demote_unconfirmed_video: bool,
    /// Peak FM deviation assumed when a sync-tip level is turned into a
    /// carrier offset.
    pub assumed_deviation_hz: u32,
}

impl Default for AnalogFpvDetector {
    /// 3 dB above the floor, 1 to 30 MHz wide, confidence 700 or more, 5 MHz
    /// deviation, no demotion.
    fn default() -> (d: Self)
        ensures
            d == (AnalogFpvDetector {
                energy_ratio: 1_995_262,
                min_bandwidth: 1_000_000,
                max_bandwidth: 30_000_000,
                min_confidence: 700,
                demote_unconfirmed_video: false,
                assumed_deviation_hz: 5_000_000,
            }),
    {
        AnalogFpvDetector {
            energy_ratio: 1_995_262,
            min_bandwidth: 1_000_000,
            max_bandwidth: 30_000_000,
            min_confidence: 700,
            demote_unconfirmed_video: false,
            assumed_deviation_hz: 5_000_000,
        }
    }
}

/// A record's class once it is known whether its cepstrum peaks and what the
/// search for vertical sync found. A candidate whose record could be checked
/// and shows no pulse train is dropped; the rest are tiered where the record
/// shows sync levels.
pub open spec fn record_class(
    demod: Seq<i32>,
    mags: Seq<i64>,
    sample_rate: int,
    demote: bool,
    pulse_train: bool,
    evidence: FieldSyncEvidence,
) -> (SignalType, u32) {
    if !classifiable(demod, sample_rate) {
        (SignalType::Unknown, 0)
    } else {
        let n = demod.len() as int;
        let (kind, conf) = spectral_class(
            mags,
            n,
            sample_rate,
            standard_in_time(demod, sample_rate),
        );
        if kind == SignalType::Unknown || (can_check(kind, mags.len() as int, n, sample_rate)
            && !pulse_train) {
            (SignalType::Unknown, 0)
        } else if deviation_of(demod, sample_rate) is Some {
            (kind, tier(kind, conf, evidence, demote))
        } else {
            (kind, conf)
        }
    }
}

/// Whether a cepstrum that was asked for confirms a candidate.
pub open spec fn confirmed_by<F: Fn(&Vec<i64>, usize) -> Vec<i64>>(
    kind: SignalType,
    mags: &Vec<i64>,
    n: int,
    sample_rate: int,
    cepstrum: F,
    pulse_train: bool,
) -> bool {
    can_check(kind, mags.len() as int, n, sample_rate) ==> exists|c: Vec<i64>, w: CepstralWindow|
        {
            &&& #[trigger] cepstrum.ensures((mags, w.half), c)
            &&& w.half == supported(mags.len() as int, n)
            &&& crate::detector::confirm::is_window(w, kind, sample_rate)
            &&& pulse_train == peaks_sharply(c@, w)
        }
}

/// Whether a class is what a demodulated record and its spectrum come to: by
/// the cepstrum of the spectrum, where a candidate can be checked by it, and
/// by the vertical sync of the record, where it shows levels to search by.
pub open spec fn record_judged<
    F: Fn(&Vec<i64>, usize) -> Vec<i64>,
    V: Fn(&Vec<i32>, u32, SyncLevels, Option<bool>) -> FieldSyncEvidence,
>(
    d: AnalogFpvDetector,
    demod: &Vec<i32>,
    mags: &Vec<i64>,
    sample_rate: u32,
    cepstrum: F,
    confirm: V,
    r: (SignalType, u32),
) -> bool {
    let rate = sample_rate as int;
    exists|pulse_train: bool, evidence: FieldSyncEvidence|
        {
            &&& r == #[trigger] record_class(
                demod@,
                mags@,
                rate,
                d.demote_unconfirmed_video,
                pulse_train,
                evidence,
            )
            &&& ({
                let kind = spectral_class(
                    mags@,
                    demod@.len() as int,
                    rate,
                    standard_in_time(demod@, rate),
                ).0;
                kind != SignalType::Unknown ==> confirmed_by(
                    kind,
                    mags,
                    demod@.len() as int,
                    rate,
                    cepstrum,
                    pulse_train,
                )
            })
            &&& r.0.analog() && deviation_of(demod@, rate) is Some ==> confirm.ensures(
                (demod, sample_rate, deviation_of(demod@, rate)->0.levels, hint(r.0)),
                evidence,
            )
        }
}

/// Whether a class is what samples come to: demodulated, and the record
/// judged by its spectrum. Too few samples, no rate or a record that hardly
/// varies show nothing.
pub open spec fn samples_judged<
    S,
    M: Fn(&[S]) -> Vec<i32>,
    X: Fn(&Vec<i32>) -> Vec<i64>,
    F: Fn(&Vec<i64>, usize) -> Vec<i64>,
    V: Fn(&Vec<i32>, u32, SyncLevels, Option<bool>) -> FieldSyncEvidence,
>(
    d: AnalogFpvDetector,
    iq: &[S],
    sample_rate: u32,
    demodulate: M,
    spectrum: X,
    cepstrum: F,
    confirm: V,
    r: (SignalType, u32),
) -> bool {
    if iq@.len() < MIN_CAPTURE || sample_rate == 0 {
        r == (SignalType::Unknown, 0u32)
    } else {
        exists|demod: Vec<i32>|
            {
                &&& #[trigger] demodulate.ensures((iq,), demod)
                &&& if classifiable(demod@, sample_rate as int) {
                    exists|mags: Vec<i64>| #[trigger]
                        spectrum.ensures((&demod,), mags) && record_judged(
                            d,
                            &demod,
                            &mags,
                            sample_rate,
                            cepstrum,
                            confirm,
                            r,
                        )
                } else {
                    r == (SignalType::Unknown, 0u32)
                }
            }
    }
}

/// Whether a class is what samples come to on a spectrum that is averaged
/// under a key, and `after` what becomes of the averages: the spectrum is
/// folded in once, or not at all where the samples show nothing to judge.
pub open spec fn samples_integrated<
    S,
    M: Fn(&[S]) -> Vec<i32>,
    X: Fn(&Vec<i32>) -> Vec<i64>,
    F: Fn(&Vec<i64>, usize) -> Vec<i64>,
    V: Fn(&Vec<i32>, u32, SyncLevels, Option<bool>) -> FieldSyncEvidence,
>(
    d: AnalogFpvDetector,
    iq: &[S],
    sample_rate: u32,
    key_hz: i64,
    before: SpectralIntegrator,
    demodulate: M,
    spectrum: X,
    cepstrum: F,
    confirm: V,
    after: SpectralIntegrator,
    r: (SignalType, u32),
) -> bool {
    if iq@.len() < MIN_CAPTURE || sample_rate == 0 {
        r == (SignalType::Unknown, 0u32) && after == before
    } else {
        exists|demod: Vec<i32>|
            {
                &&& #[trigger] demodulate.ensures((iq,), demod)
                &&& if classifiable(demod@, sample_rate as int) {
                    exists|fresh: Vec<i64>, avg: &Vec<i64>|
                        {
                            &&& #[trigger] spectrum.ensures((&demod,), fresh)
                            &&& accumulated(before, key_hz, fresh@, after)
                            &&& avg@ == after.average(bucket_of(key_hz))
                            &&& #[trigger] record_judged(
                                d,
                                &demod,
                                avg,
                                sample_rate,
                                cepstrum,
                                confirm,
                                r,
                            )
                        }
                } else {
                    r == (SignalType::Unknown, 0u32) && after == before
                }
            }
    }
}

impl AnalogFpvDetector {
    /// The default configuration with another energy ratio, in millionths.
    pub fn new(energy_ratio: u64) -> (d: Self)
        ensures
            d.energy_ratio == energy_ratio,
            d.min_bandwidth == 1_000_000,
            d.max_bandwidth == 30_000_000,
            d.min_confidence == 700,
            !d.demote_unconfirmed_video,
            d.assumed_deviation_hz == 5_000_000,
    {
        AnalogFpvDetector { energy_ratio, ..AnalogFpvDetector::default() }
    }

    /// Classify a demodulated record by its spectrum, fresh or averaged:
    /// harmonic comb at a line rate, then a cepstral check, then vertical
    /// sync.
    ///
    /// `cepstrum` computes that many leading cepstral magnitudes of a
    /// spectrum; `confirm` searches the record for vertical sync.
    pub fn classify_record<
        F: Fn(&Vec<i64>, usize) -> Vec<i64>,
        V: Fn(&Vec<i32>, u32, SyncLevels, Option<bool>) -> FieldSyncEvidence,
    >(
        &self,
        demod: &Vec<i32>,
        mags: &Vec<i64>,
        sample_rate: u32,
        cepstrum: &F,
        confirm: &V,
    ) -> (r: (SignalType, u32))
        requires
            classifiable(demod@, sample_rate as int),
            demod.len() <= mags.len(),
            forall|h: usize| #[trigger] cepstrum.requires((mags, h)),
            forall|h: usize, c: Vec<i64>| #[trigger]
                cepstrum.ensures((mags, h), c) ==> c.len() == h,
            forall|l: SyncLevels, p: Option<bool>| #[trigger]
                confirm.requires((demod, sample_rate, l, p)),
        ensures
            record_judged(*self, demod, mags, sample_rate, *cepstrum, *confirm, r),
    {
        let ghost nothing = FieldSyncEvidence {
            groups: 0,
            spacing_ok: false,
            slice_field_periods: 0,
        };
        let (kind, conf) = classify_spectrum(mags, demod.as_slice(), sample_rate);
        if kind == SignalType::Unknown {
            proof {
                assert(record_class(
                    demod@,
                    mags@,
                    sample_rate as int,
                    self.demote_unconfirmed_video,
                    false,
                    nothing,
                ) == (SignalType::Unknown, 0u32));
            }
            return (SignalType::Unknown, 0);
        }
        let ghost mut pulse_train = true;
        match cepstral_window(kind, mags.len(), demod.len(), sample_rate) {
            None => {},
            Some(w) => {
                let c: Vec<i64> = cepstrum(mags, w.half);
                let passed: bool = verify_cepstrum(&c, w);
                proof {
                    pulse_train = passed;
                    assert(cepstrum.ensures((mags, w.half), c));
                }
                if !passed {
                    proof {
                        assert(record_class(
                            demod@,
                            mags@,
                            sample_rate as int,
                            self.demote_unconfirmed_video,
                            false,
                            nothing,
                        ) == (SignalType::Unknown, 0u32));
                    }
                    return (SignalType::Unknown, 0);
                }
            },
        }
        match estimate_sync_levels(demod.as_slice(), sample_rate) {
            None => {
                proof {
                    assert(record_class(
                        demod@,
                        mags@,
                        sample_rate as int,
                        self.demote_unconfirmed_video,
                        pulse_train,
                        nothing,
                    ) == (kind, conf));
                }
                (kind, conf)
            },
            Some(levels) => {
                let evidence: FieldSyncEvidence = confirm(
                    demod,
                    sample_rate,
                    levels,
                    standard_hint(kind),
                );
                let tiered: u32 = apply_vbi_confidence_tier(
                    kind,
                    conf,
                    &evidence,
                    self.demote_unconfirmed_video,
                );
                proof {
                    assert(record_class(
                        demod@,
                        mags@,
                        sample_rate as int,
                        self.demote_unconfirmed_video,
                        pulse_train,
                        evidence,
                    ) == (kind, tiered));
                }
                (kind, tiered)
            },
        }
    }

    /// Classify samples: demodulate them, and judge the record by its
    /// spectrum. Too few samples, no rate or a record that hardly varies show
    /// nothing.
    pub fn detect_sync_pulses<
        S,
        M: Fn(&[S]) -> Vec<i32>,
        X: Fn(&Vec<i32>) -> Vec<i64>,
        F: Fn(&Vec<i64>, usize) -> Vec<i64>,
        V: Fn(&Vec<i32>, u32, SyncLevels, Option<bool>) -> FieldSyncEvidence,
    >(
        &self,
        iq: &[S],
        sample_rate: u32,
        demodulate: &M,
        spectrum: &X,
        cepstrum: &F,
        confirm: &V,
    ) -> (r: (SignalType, u32))
        requires
            demodulate.requires((iq,)),
            forall|d: &Vec<i32>| #[trigger] spectrum.requires((d,)),
            forall|d: &Vec<i32>, m: Vec<i64>| #[trigger]
                spectrum.ensures((d,), m) ==> d.len() <= m.len(),
            forall|m: &Vec<i64>, h: usize| #[trigger] cepstrum.requires((m, h)),
            forall|m: &Vec<i64>, h: usize, c: Vec<i64>| #[trigger]
                cepstrum.ensures((m, h), c) ==> c.len() == h,
            forall|d: &Vec<i32>, l: SyncLevels, p: Option<bool>| #[trigger]
                confirm.requires((d, sample_rate, l, p)),
        ensures
            samples_judged(
                *self,
                iq,
                sample_rate,
                *demodulate,
                *spectrum,
                *cepstrum,
                *confirm,
                r,
            ),
    {
        if iq.len() < MIN_CAPTURE || sample_rate == 0 {
            return (SignalType::Unknown, 0);
        }
        let demod: Vec<i32> = demodulate(iq);
        assert(demodulate.ensures((iq,), demod));
        if !can_classify(demod.as_slice(), sample_rate) {
            return (SignalType::Unknown, 0);
        }
        let mags: Vec<i64> = spectrum(&demod);
        assert(spectrum.ensures((&demod,), mags));
        self.classify_record(&demod, &mags, sample_rate, cepstrum, confirm)
    }

    /// [`Self::detect_sync_pulses`] on a spectrum that is averaged over
    /// batches under `key_hz`: the comb adds up while noise averages out. A
    /// record that cannot be classified is not averaged in.
    pub fn detect_sync_pulses_integrated<
        S,
        M: Fn(&[S]) -> Vec<i32>,
        X: Fn(&Vec<i32>) -> Vec<i64>,
        F: Fn(&Vec<i64>, usize) -> Vec<i64>,
        V: Fn(&Vec<i32>, u32, SyncLevels, Option<bool>) -> FieldSyncEvidence,
    >(
        &self,
        iq: &[S],
        sample_rate: u32,
        key_hz: i64,
        integrator: &mut SpectralIntegrator,
        demodulate: &M,
        spectrum: &X,
        cepstrum: &F,
        confirm: &V,
    ) -> (r: (SignalType, u32))
        requires
            old(integrator).wf(),
            demodulate.requires((iq,)),
            forall|d: &Vec<i32>| #[trigger] spectrum.requires((d,)),
            forall|d: &Vec<i32>, m: Vec<i64>| #[trigger]
                spectrum.ensures((d,), m) ==> d.len() <= m.len(),
            forall|m: &Vec<i64>, h: usize| #[trigger] cepstrum.requires((m, h)),
            forall|m: &Vec<i64>, h: usize, c: Vec<i64>| #[trigger]
                cepstrum.ensures((m, h), c) ==> c.len() == h,
            forall|d: &Vec<i32>, l: SyncLevels, p: Option<bool>| #[trigger]
                confirm.requires((d, sample_rate, l, p)),
        ensures
            final(integrator).wf(),
            samples_integrated(
                *self,
                iq,
                sample_rate,
                key_hz,
                *old(integrator),
                *demodulate,
                *spectrum,
                *cepstrum,
                *confirm,
                *final(integrator),
                r,
            ),
    {
        if iq.len() < MIN_CAPTURE || sample_rate == 0 {
            return (SignalType::Unknown, 0);
        }
        let demod: Vec<i32> = demodulate(iq);
        assert(demodulate.ensures((iq,), demod));
        if !can_classify(demod.as_slice(), sample_rate) {
            return (SignalType::Unknown, 0);
        }
        let fresh: Vec<i64> = spectrum(&demod);
        assert(spectrum.ensures((&demod,), fresh));
        let avg: Vec<i64> = integrator.accumulate(key_hz, fresh.as_slice());
        let r: (SignalType, u32) = self.classify_record(
            &demod,
            &avg,
            sample_rate,
            cepstrum,
            confirm,
        );
        assert(record_judged(*self, &demod, &avg, sample_rate, *cepstrum, *confirm, r));
        r
    }
}

/// Whether a confidence is one that a kind can have, with what it rests on:
/// 600 or, confirmed by vertical sync, 750 where the standard is not told;
/// 800 or, confirmed, 950 where it is, and 600 where that was demoted for
/// want of vertical sync over two and a half fields.
pub open spec fn in_table(kind: SignalType, conf: u32, e: FieldSyncEvidence, demote: bool) -> bool {
    match kind {
        SignalType::Unknown => conf == 0,
        SignalType::AnalogVideoUnknown => conf == 600 || (conf == 750 && confirms(e)),
        SignalType::AnalogVideoPal | SignalType::AnalogVideoNtsc => {
            ||| conf == 800
            ||| conf == 950 && confirms(e)
            ||| conf == 600 && demote && e.groups == 0 && e.slice_field_periods >= 2_500
        },
        _ => false,
    }
}

/// A record has one of the confidences of the table, for the reason that the
/// table gives.
pub proof fn law_confidence_levels_mean_what_they_say(
    demod: Seq<i32>,
    mags: Seq<i64>,
    sample_rate: int,
    demote: bool,
    pulse_train: bool,
    evidence: FieldSyncEvidence,
)
    ensures
        ({
            let (kind, conf) = record_class(
                demod,
                mags,
                sample_rate,
                demote,
                pulse_train,
                evidence,
            );
            in_table(kind, conf, evidence, demote)
        }),
{
}

/// The wide cut moves a confidence only within the table: what it leaves is
/// what the cut's evidence stands for, or what the probe said.
pub proof fn law_wide_cut_keeps_to_the_table(
    kind: SignalType,
    conf: u32,
    probe: FieldSyncEvidence,
    cut: FieldSyncEvidence,
    demote: bool,
)
    requires
        in_table(kind, conf, probe, demote),
    ensures
        ({
            let c = tier_on_wide_cut(kind, conf, Some(cut), demote);
            c == conf || in_table(kind, c, cut, demote)
        }),
        tier_on_wide_cut(kind, conf, None, demote) == conf,
{
}

/// What a record shows is what its spectrum shows, or nothing: a record that
/// cannot be classified shows nothing, and neither does one that could be
/// checked for a pulse train and has none. Vertical sync moves the confidence
/// only, and only where the record has levels to search by.
pub proof fn law_kind_comes_from_the_spectrum(
    demod: Seq<i32>,
    mags: Seq<i64>,
    sample_rate: int,
    demote: bool,
    pulse_train: bool,
    evidence: FieldSyncEvidence,
)
    ensures
        ({
            let r = record_class(demod, mags, sample_rate, demote, pulse_train, evidence);
            let n = demod.len() as int;
            let spectral = spectral_class(
                mags,
                n,
                sample_rate,
                standard_in_time(demod, sample_rate),
            );
            let refuted = can_check(spectral.0, mags.len() as int, n, sample_rate) && !pulse_train;
            &&& !classifiable(demod, sample_rate) ==> r == (SignalType::Unknown, 0u32)
            &&& classifiable(demod, sample_rate) && refuted ==> r == (SignalType::Unknown, 0u32)
            &&& classifiable(demod, sample_rate) && !refuted ==> r.0 == spectral.0
            &&& classifiable(demod, sample_rate) && !refuted && deviation_of(demod, sample_rate)
                is None ==> r.1 == if spectral.0 == SignalType::Unknown {
                0
            } else {
                spectral.1
            }
        }),
{
}

/// A pulse train never makes a candidate; it only keeps one from being
/// dropped.
pub proof fn law_pulse_trains_only_confirm(
    demod: Seq<i32>,
    mags: Seq<i64>,
    sample_rate: int,
    demote: bool,
    evidence: FieldSyncEvidence,
)
    ensures
        ({
            let with = record_class(demod, mags, sample_rate, demote, true, evidence);
            let without = record_class(demod, mags, sample_rate, demote, false, evidence);
            without == with || without == (SignalType::Unknown, 0u32)
        }),
{
}

} // verus!
