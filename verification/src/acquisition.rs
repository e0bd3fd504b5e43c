//! Channel acquisition, standard resolution and the receiver's lock policy.
//! Source deadlines, hardware tuning and display belong to the caller.

use vstd::prelude::*;

use crate::decode::{DecodeConfigError, LUMA_HEADROOM_HZ};
use crate::levels::{max, min};
use crate::seqs::append_copies;
use crate::types::{DetectionResult, SignalType};
use crate::video::detect_video_standard;
use crate::video::standard::standard_of;

verus! {

/// How long a contiguous record must be to tell the line rates apart.
pub const STANDARD_DETECT_RECORD_MS: u32 = 25;

/// What a record that needs `goal` samples holds once more have come.
pub open spec fn record_after<C>(held: Seq<C>, goal: int, iq: Seq<C>, discontinuous: bool) -> Seq<C> {
    let before = if discontinuous {
        Seq::<C>::empty()
    } else {
        held
    };
    before + iq.take(min(iq.len() as int, goal - before.len()))
}

/// Bounded contiguous input of an acquisition, over samples `C`. A gap in the
/// source discards what came before it.
pub struct AcquisitionRecord<C> {
    samples: Vec<C>,
    target: usize,
}

impl<C: Copy> AcquisitionRecord<C> {
    /// The samples so far.
    pub closed spec fn held(&self) -> Seq<C> {
        self.samples@
    }

    /// How many samples make the record complete.
    pub closed spec fn goal(&self) -> int {
        self.target as int
    }

    /// A record never holds more than it needs.
    pub closed spec fn wf(&self) -> bool {
        1 <= self.target && self.samples@.len() <= self.target
    }

    /// A record never holds more than it is meant to.
    pub proof fn law_record_is_bounded(&self)
        requires
            self.wf(),
        ensures
            self.held().len() <= self.goal(),
    {
    }

    /// An empty record of 25 ms at a rate, at least one sample.
    pub fn new(sample_rate: u32) -> (r: Self)
        ensures
            r.wf(),
            r.held() == Seq::<C>::empty(),
            r.goal() == max(STANDARD_DETECT_RECORD_MS * sample_rate / 1_000, 1),
    {
        assert(STANDARD_DETECT_RECORD_MS * sample_rate == 25 * sample_rate) by (nonlinear_arith)
            requires
                STANDARD_DETECT_RECORD_MS == 25,
        ;
        let n: u64 = STANDARD_DETECT_RECORD_MS as u64 * sample_rate as u64 / 1_000;
        AcquisitionRecord {
            samples: Vec::new(),
            target: if n >= 1 {
                n as usize
            } else {
                1
            },
        }
    }

    /// Add samples until the record is complete.
    pub fn push(&mut self, iq: &[C], discontinuous: bool)
        requires
            old(self).wf(),
        ensures
            final(self).wf(),
            final(self).goal() == old(self).goal(),
            ({
                let before = if discontinuous {
                    Seq::<C>::empty()
                } else {
                    old(self).held()
                };
                final(self).held() == before + iq@.take(
                    min(iq.len() as int, old(self).goal() - before.len()),
                )
            }),
            final(self).held() == record_after(
                old(self).held(),
                old(self).goal(),
                iq@,
                discontinuous,
            ),
    {
        if discontinuous {
            self.samples.clear();
        }
        let room: usize = self.target - self.samples.len();
        let take: usize = if iq.len() <= room {
            iq.len()
        } else {
            room
        };
        let part: &[C] = vstd::slice::slice_subrange(iq, 0, take);
        append_copies(&mut self.samples, part);
        assert(part@ =~= iq@.take(take as int));
    }

    pub fn is_ready(&self) -> (b: bool)
        ensures
            b == (self.held().len() >= self.goal()),
    {
        self.samples.len() >= self.target
    }

    pub fn samples(&self) -> (s: &[C])
        ensures
            s@ == self.held(),
    {
        self.samples.as_slice()
    }
}

/// What a standard was resolved from.
#[derive(Debug, Clone, Copy, PartialEq, Eq, Structural)]
pub enum StandardEvidence {
    Classifier,
    LineTiming,
    Fallback,
}

#[derive(Debug, Clone, Copy, PartialEq, Eq, Structural)]
pub struct StandardResolution {
    pub standard: SignalType,
    pub evidence: StandardEvidence,
}

/// Whether a classification names a standard.
pub open spec fn names_standard(s: SignalType) -> bool {
    s == SignalType::AnalogVideoPal || s == SignalType::AnalogVideoNtsc
}

/// The resolution of a classification, given what line timing measures: the
/// first of the two that names a standard, else the fallback.
pub open spec fn resolution(
    tagged: SignalType,
    measured: SignalType,
    fallback: SignalType,
) -> StandardResolution {
    if names_standard(tagged) {
        StandardResolution { standard: tagged, evidence: StandardEvidence::Classifier }
    } else if names_standard(measured) {
        StandardResolution { standard: measured, evidence: StandardEvidence::LineTiming }
    } else {
        StandardResolution { standard: fallback, evidence: StandardEvidence::Fallback }
    }
}

fn is_standard(s: SignalType) -> (b: bool)
    ensures
        b == names_standard(s),
{
    matches!(s, SignalType::AnalogVideoPal | SignalType::AnalogVideoNtsc)
}

/// Resolve a classification of samples at baseband. Where it names no
/// standard, the samples are demodulated and the spacing of their lines
/// decides.
pub fn resolve_standard<S, M: FnOnce(&[S]) -> Vec<i32>>(
    tagged: SignalType,
    baseband: &[S],
    sample_rate: u32,
    fallback: SignalType,
    demodulate: M,
) -> (r: StandardResolution)
    requires
        demodulate.requires((baseband,)),
    ensures
        names_standard(tagged) ==> r == resolution(tagged, tagged, fallback),
        !names_standard(tagged) ==> exists|d: Vec<i32>| #[trigger]
            demodulate.ensures((baseband,), d) && r == resolution(
                tagged,
                standard_of(d@, sample_rate as int),
                fallback,
            ),
{
    if is_standard(tagged) {
        return StandardResolution { standard: tagged, evidence: StandardEvidence::Classifier };
    }
    let d: Vec<i32> = demodulate(baseband);
    assert(demodulate.ensures((baseband,), d));
    let measured: SignalType = detect_video_standard(d.as_slice(), sample_rate);
    if is_standard(measured) {
        StandardResolution { standard: measured, evidence: StandardEvidence::LineTiming }
    } else {
        StandardResolution { standard: fallback, evidence: StandardEvidence::Fallback }
    }
}

/// Distance of two frequencies.
pub open spec fn apart(a: int, b: int) -> int {
    if a >= b {
        a - b
    } else {
        b - a
    }
}

fn apart_hz(a: i64, b: i64) -> (d: i128)
    ensures
        d == apart(a as int, b as int),
{
    if a >= b {
        a as i128 - b as i128
    } else {
        b as i128 - a as i128
    }
}

/// Whether `k` is the hit that describes the decoded carrier: inside the
/// passband, nearest to the tuned frequency, and the first of those.
pub open spec fn is_decoded_carrier(hits: Seq<i64>, tuned_hz: i64, passband_hz: int, k: int) -> bool {
    &&& 0 <= k < hits.len()
    &&& apart(hits[k] as int, tuned_hz as int) <= passband_hz
    &&& forall|j: int|
        #![trigger hits[j]]
        0 <= j < hits.len() ==> if j < k {
            apart(hits[k] as int, tuned_hz as int) < apart(hits[j] as int, tuned_hz as int)
        } else {
            apart(hits[k] as int, tuned_hz as int) <= apart(hits[j] as int, tuned_hz as int)
        }
}

/// Which detection describes the carrier being decoded. Not the strongest
/// one: what lies outside the passband is filtered out before anything is
/// drawn, and among the rest the nearest to the tuned frequency is what the
/// decoder is centred on.
pub fn carrier_for_decoded_channel(hits: &[i64], tuned_hz: i64, passband_hz: i128) -> (r: Option<i64>)
    ensures
        match r {
            None => forall|j: int|
                #![trigger hits[j]]
                0 <= j < hits.len() ==> apart(hits[j] as int, tuned_hz as int) > passband_hz,
            Some(hz) => exists|k: int| #[trigger]
                is_decoded_carrier(hits@, tuned_hz, passband_hz as int, k) && hits[k] == hz,
        },
{
    let mut best: Option<usize> = None;
    let mut i: usize = 0;
    while i < hits.len()
        invariant
            i <= hits.len(),
            match best {
                None => forall|j: int|
                    #![trigger hits[j]]
                    0 <= j < i ==> apart(hits[j] as int, tuned_hz as int) > passband_hz,
                Some(k) => {
                    &&& k < i
                    &&& apart(hits[k as int] as int, tuned_hz as int) <= passband_hz
                    &&& forall|j: int|
                        #![trigger hits[j]]
                        0 <= j < i ==> if j < k {
                            apart(hits[k as int] as int, tuned_hz as int) < apart(
                                hits[j] as int,
                                tuned_hz as int,
                            )
                        } else {
                            apart(hits[k as int] as int, tuned_hz as int) <= apart(
                                hits[j] as int,
                                tuned_hz as int,
                            )
                        }
                },
            },
        decreases hits.len() - i,
    {
        let d: i128 = apart_hz(hits[i], tuned_hz);
        match best {
            None => {
                if d <= passband_hz {
                    best = Some(i);
                }
            },
            Some(k) => {
                if d < apart_hz(hits[k], tuned_hz) {
                    best = Some(i);
                }
            },
        }
        i += 1;
    }
    match best {
        None => None,
        Some(k) => {
            assert(is_decoded_carrier(hits@, tuned_hz, passband_hz as int, k as int));
            Some(hits[k])
        },
    }
}

/// Whichever order the hits come in, the carrier that is named lies equally
/// far from the tuned frequency.
pub proof fn law_order_does_not_move_the_carrier(
    a: Seq<i64>,
    b: Seq<i64>,
    tuned_hz: i64,
    passband_hz: int,
    j: int,
    k: int,
)
    requires
        a.to_multiset() == b.to_multiset(),
        is_decoded_carrier(a, tuned_hz, passband_hz, j),
        is_decoded_carrier(b, tuned_hz, passband_hz, k),
    ensures
        apart(a[j] as int, tuned_hz as int) == apart(b[k] as int, tuned_hz as int),
{
    broadcast use vstd::seq_lib::group_to_multiset_ensures;

    assert(a.contains(a[j]) && b.contains(b[k]));
    assert(a.to_multiset().count(a[j]) > 0);
    assert(b.to_multiset().count(b[k]) > 0);
    assert(b.contains(a[j]));
    assert(a.contains(b[k]));
    let x = b.index_of(a[j]);
    let y = a.index_of(b[k]);
    assert(b[x] == a[j] && a[y] == b[k]);
}

/// Fail where a probe has no rate, no positive deviation, or no frequency;
/// none stands for what is not a number.
pub fn validate_probe(
    sample_rate: u32,
    deviation_hz: Option<i64>,
    frequency_hz: Option<i64>,
) -> (r: Result<(), DecodeConfigError>)
    ensures
        r is Ok <==> sample_rate > 0 && deviation_hz is Some && deviation_hz->0 > 0
            && frequency_hz is Some,
        r matches Err(e) ==> e.0@
            == "probe requires a positive sample rate/deviation and finite frequency"@,
{
    let positive: bool = match deviation_hz {
        Some(d) => d > 0,
        None => false,
    };
    if sample_rate == 0 || !positive || frequency_hz.is_none() {
        return Err(
            DecodeConfigError(
                "probe requires a positive sample rate/deviation and finite frequency",
            ),
        );
    }
    Ok(())
}

/// What an acquisition found out about a channel.
#[derive(Debug, Clone, Copy, PartialEq, Eq, Structural)]
pub struct AcquisitionResult {
    pub standard: StandardResolution,
    /// Confidence of the classifier, in thousandths.
    pub classifier_confidence: u32,
    /// Where the carrier seems to be. An identification, not a correction.
    pub measured_carrier_hz: Option<i64>,
}

/// How much of a record is searched for carriers.
pub const LOCALIZE_SAMPLES: usize = 65_536;

/// Whether a carrier is the decoded one of those that were found in samples.
pub open spec fn identified<S, D: FnOnce(&[S], i64, u32) -> Vec<i64>>(
    detect: D,
    samples: Seq<S>,
    center_hz: i64,
    sample_rate: u32,
    passband_hz: int,
    carrier: Option<i64>,
) -> bool {
    exists|s: &[S], hits: Vec<i64>|
        {
            &&& #[trigger] detect.ensures((s, center_hz, sample_rate), hits)
            &&& s@ == samples
            &&& match carrier {
                None => forall|j: int|
                    #![trigger hits[j]]
                    0 <= j < hits.len() ==> apart(hits[j] as int, center_hz as int) > passband_hz,
                Some(hz) => exists|k: int| #[trigger]
                    is_decoded_carrier(hits@, center_hz, passband_hz, k) && hits[k] == hz,
            }
        }
}

/// Whether samples are what a filter leaves of a record, around an offset.
pub open spec fn is_filtered<S, F: FnOnce(&[S], i64, i128) -> Vec<S>>(
    filter: F,
    iq: &[S],
    offset_hz: i64,
    passband_hz: int,
    samples: Seq<S>,
) -> bool {
    exists|v: Vec<S>| #[trigger]
        filter.ensures((iq, offset_hz, passband_hz as i128), v) && v@ == samples
}

/// Whether samples were demodulated so.
pub open spec fn is_demodulated<S, M: FnOnce(&[S]) -> Vec<i32>>(
    demodulate: M,
    samples: Seq<S>,
    demod: Seq<i32>,
) -> bool {
    exists|s: &[S], d: Vec<i32>| #[trigger]
        demodulate.ensures((s,), d) && s@ == samples && d@ == demod
}

/// Classify a channel that is tuned to the centre, and identify its carrier
/// on the head of the same record.
///
/// `detect` finds carriers around a centre; `classify` classifies samples;
/// `filter` keeps a passband around an offset and `demodulate` demodulates
/// it, where the classification names no standard.
pub fn analyze_tuned_channel<
    S,
    D: FnOnce(&[S], i64, u32) -> Vec<i64>,
    C: FnOnce(&[S], u32) -> (SignalType, u32),
    F: FnOnce(&[S], i64, i128) -> Vec<S>,
    M: FnOnce(&[S]) -> Vec<i32>,
>(
    iq: &[S],
    center_hz: Option<i64>,
    sample_rate: u32,
    fm_deviation_hz: Option<i64>,
    fallback: SignalType,
    detect: D,
    classify: C,
    filter: F,
    demodulate: M,
) -> (r: Result<AcquisitionResult, DecodeConfigError>)
    requires
        forall|s: &[S], c: i64| #[trigger] detect.requires((s, c, sample_rate)),
        classify.requires((iq, sample_rate)),
        forall|p: i128| #[trigger] filter.requires((iq, 0, p)),
        forall|s: &[S]| #[trigger] demodulate.requires((s,)),
    ensures
        r is Ok <==> sample_rate > 0 && fm_deviation_hz is Some && fm_deviation_hz->0 > 0
            && center_hz is Some,
        r matches Err(e) ==> e.0@
            == "probe requires a positive sample rate/deviation and finite frequency"@,
        r matches Ok(a) ==> identified(
            detect,
            iq@.take(min(iq.len() as int, LOCALIZE_SAMPLES as int)),
            center_hz->0,
            sample_rate,
            fm_deviation_hz->0 + LUMA_HEADROOM_HZ,
            a.measured_carrier_hz,
        ),
        r matches Ok(a) ==> exists|tag: (SignalType, u32)|
            {
                &&& #[trigger] classify.ensures((iq, sample_rate), tag)
                &&& a.classifier_confidence == tag.1
                &&& tag.0 == SignalType::Unknown ==> a.standard == (StandardResolution {
                    standard: fallback,
                    evidence: StandardEvidence::Fallback,
                })
                &&& names_standard(tag.0) ==> a.standard == resolution(tag.0, tag.0, fallback)
                &&& tag.0 != SignalType::Unknown && !names_standard(tag.0) ==> exists|
                    baseband: Seq<S>,
                    demod: Seq<i32>,
                |
                    {
                        &&& #[trigger] is_filtered(
                            filter,
                            iq,
                            0,
                            fm_deviation_hz->0 + LUMA_HEADROOM_HZ,
                            baseband,
                        )
                        &&& #[trigger] is_demodulated(demodulate, baseband, demod)
                        &&& a.standard == resolution(
                            tag.0,
                            standard_of(demod, sample_rate as int),
                            fallback,
                        )
                    }
            },
{
    match validate_probe(sample_rate, fm_deviation_hz, center_hz) {
        Err(e) => {
            return Err(e);
        },
        Ok(_) => {},
    }
    let (center, deviation): (i64, i64) = match (center_hz, fm_deviation_hz) {
        (Some(c), Some(d)) => (c, d),
        _ => (0i64, 0i64),
    };
    let passband: i128 = deviation as i128 + LUMA_HEADROOM_HZ as i128;
    let n: usize = if iq.len() < LOCALIZE_SAMPLES {
        iq.len()
    } else {
        LOCALIZE_SAMPLES
    };
    let head: &[S] = vstd::slice::slice_subrange(iq, 0, n);
    assert(head@ =~= iq@.take(n as int));
    let hits: Vec<i64> = detect(head, center, sample_rate);
    let measured_carrier_hz: Option<i64> = carrier_for_decoded_channel(
        hits.as_slice(),
        center,
        passband,
    );
    proof {
        assert(detect.ensures((head, center, sample_rate), hits));
        assert(identified(
            detect,
            iq@.take(n as int),
            center,
            sample_rate,
            passband as int,
            measured_carrier_hz,
        ));
    }
    let tag: (SignalType, u32) = classify(iq, sample_rate);
    assert(classify.ensures((iq, sample_rate), tag));
    let standard: StandardResolution = if tag.0 == SignalType::Unknown {
        StandardResolution { standard: fallback, evidence: StandardEvidence::Fallback }
    } else if is_standard(tag.0) {
        StandardResolution { standard: tag.0, evidence: StandardEvidence::Classifier }
    } else {
        let baseband: Vec<S> = filter(iq, 0, passband);
        let s: &[S] = baseband.as_slice();
        let r: StandardResolution = resolve_standard(
            tag.0,
            s,
            sample_rate,
            fallback,
            demodulate,
        );
        proof {
            assert(filter.ensures((iq, 0, passband), baseband));
            assert(is_filtered(filter, iq, 0, passband as int, baseband@));
            let d = choose|d: Vec<i32>| #[trigger]
                demodulate.ensures((s,), d) && r == resolution(
                    tag.0,
                    standard_of(d@, sample_rate as int),
                    fallback,
                );
            assert(demodulate.ensures((s,), d));
            assert(is_demodulated(demodulate, baseband@, d@));
        }
        r
    };
    Ok(AcquisitionResult { standard, classifier_confidence: tag.1, measured_carrier_hz })
}

/// Filter a channel at an offset and classify it: like
/// [`analyze_tuned_channel`], without a carrier to identify.
pub fn analyze_channel_standard<
    S,
    C: FnOnce(&[S], u32) -> (SignalType, u32),
    F: FnOnce(&[S], i64, i128) -> Vec<S>,
    M: FnOnce(&[S]) -> Vec<i32>,
>(
    iq: &[S],
    offset_hz: Option<i64>,
    sample_rate: u32,
    deviation_hz: Option<i64>,
    fallback: SignalType,
    classify: C,
    filter: F,
    demodulate: M,
) -> (r: Result<(StandardResolution, u32), DecodeConfigError>)
    requires
        forall|s: &[S]| #[trigger] classify.requires((s, sample_rate)),
        forall|o: i64, p: i128| #[trigger] filter.requires((iq, o, p)),
        forall|s: &[S]| #[trigger] demodulate.requires((s,)),
    ensures
        r is Ok <==> sample_rate > 0 && deviation_hz is Some && deviation_hz->0 > 0 && offset_hz
            is Some,
        r matches Err(e) ==> e.0@
            == "probe requires a positive sample rate/deviation and finite frequency"@,
        r matches Ok(a) ==> exists|baseband: Seq<S>, s: &[S], tag: (SignalType, u32)|
            {
                &&& #[trigger] is_filtered(
                    filter,
                    iq,
                    offset_hz->0,
                    deviation_hz->0 + LUMA_HEADROOM_HZ,
                    baseband,
                )
                &&& #[trigger] classify.ensures((s, sample_rate), tag)
                &&& s@ == baseband
                &&& a.1 == tag.1
                &&& tag.0 == SignalType::Unknown ==> a.0 == (StandardResolution {
                    standard: fallback,
                    evidence: StandardEvidence::Fallback,
                })
                &&& names_standard(tag.0) ==> a.0 == resolution(tag.0, tag.0, fallback)
                &&& tag.0 != SignalType::Unknown && !names_standard(tag.0) ==> exists|
                    demod: Seq<i32>,
                |
                    {
                        &&& #[trigger] is_demodulated(demodulate, baseband, demod)
                        &&& a.0 == resolution(
                            tag.0,
                            standard_of(demod, sample_rate as int),
                            fallback,
                        )
                    }
            },
{
    match validate_probe(sample_rate, deviation_hz, offset_hz) {
        Err(e) => {
            return Err(e);
        },
        Ok(_) => {},
    }
    let (offset, deviation): (i64, i64) = match (offset_hz, deviation_hz) {
        (Some(o), Some(d)) => (o, d),
        _ => (0i64, 0i64),
    };
    let passband: i128 = deviation as i128 + LUMA_HEADROOM_HZ as i128;
    let baseband: Vec<S> = filter(iq, offset, passband);
    let s: &[S] = baseband.as_slice();
    let tag: (SignalType, u32) = classify(s, sample_rate);
    proof {
        assert(filter.ensures((iq, offset, passband), baseband));
        assert(is_filtered(filter, iq, offset, passband as int, baseband@));
        assert(classify.ensures((s, sample_rate), tag));
    }
    if tag.0 == SignalType::Unknown {
        return Ok(
            (
                StandardResolution { standard: fallback, evidence: StandardEvidence::Fallback },
                tag.1,
            ),
        );
    }
    let standard: StandardResolution = resolve_standard(
        tag.0,
        s,
        sample_rate,
        fallback,
        demodulate,
    );
    proof {
        if !names_standard(tag.0) {
            let d = choose|d: Vec<i32>| #[trigger]
                demodulate.ensures((s,), d) && standard == resolution(
                    tag.0,
                    standard_of(d@, sample_rate as int),
                    fallback,
                );
            assert(demodulate.ensures((s,), d));
            assert(is_demodulated(demodulate, baseband@, d@));
        }
    }
    Ok((standard, tag.1))
}

/// Consecutive checks that find nothing of ours before the channel is
/// released.
pub const LOCK_EMPTY_CHECKS: u32 = 2;

/// How far a detection may lie from the tuned frequency and still count as
/// ours.
pub const LOCK_CARRIER_TOLERANCE_HZ: i64 = 10_000_000;

/// Checks that a carrier may go on being detected without a field coming out
/// before the channel is released.
pub const LOCK_PROVISIONAL_CHECKS: u32 = 8;

/// The running state of the lock check. A carrier that is there and decodes
/// is held; one that is there and does not is held for a while; one that is
/// gone is released sooner.
#[derive(Debug, Clone, Copy, PartialEq, Eq, Structural)]
pub struct LockState {
    empty_checks: u32,
    provisional_checks: u32,
}

/// Whether one of the hits is the carrier that is tuned to.
pub open spec fn sees_ours(hits: Seq<DetectionResult>, tuned_hz: i64) -> bool {
    exists|k: int|
        0 <= k < hits.len() && apart((#[trigger] hits[k]).frequency_hz as int, tuned_hz as int)
            <= LOCK_CARRIER_TOLERANCE_HZ
}

/// One more, as far as that fits.
pub open spec fn counted(n: u32) -> u32 {
    if n < u32::MAX {
        (n + 1) as u32
    } else {
        n
    }
}

impl Default for LockState {
    fn default() -> (s: Self)
        ensures
            s.misses() == 0,
            s.provisional() == 0,
    {
        LockState { empty_checks: 0, provisional_checks: 0 }
    }
}

impl LockState {
    /// Consecutive checks that found nothing of ours.
    pub closed spec fn misses(&self) -> u32 {
        self.empty_checks
    }

    /// Checks that found our carrier but no field since one last came out.
    pub closed spec fn provisional(&self) -> u32 {
        self.provisional_checks
    }

    /// The counters after a check.
    pub open spec fn counters_after(&self, on_carrier: bool, decoding: bool) -> (u32, u32) {
        if on_carrier && decoding {
            (0, 0)
        } else if on_carrier {
            (0, counted(self.provisional()))
        } else {
            (counted(self.misses()), self.provisional())
        }
    }

    /// Whether a check releases the channel: the second miss in a row, or the
    /// eighth sighting of a carrier that has not decoded in between.
    pub open spec fn releases(&self, on_carrier: bool, decoding: bool) -> bool {
        let (misses, provisional) = self.counters_after(on_carrier, decoding);
        if on_carrier {
            !decoding && provisional >= LOCK_PROVISIONAL_CHECKS
        } else {
            misses >= LOCK_EMPTY_CHECKS
        }
    }

    /// Fold one check in. `true` means release the channel.
    pub fn observe(&mut self, on_carrier: bool, decoding: bool) -> (release: bool)
        ensures
            (final(self).misses(), final(self).provisional()) == old(self).counters_after(
                on_carrier,
                decoding,
            ),
            release == old(self).releases(on_carrier, decoding),
    {
        if on_carrier && decoding {
            self.empty_checks = 0;
            self.provisional_checks = 0;
            false
        } else if on_carrier {
            self.empty_checks = 0;
            self.provisional_checks = self.provisional_checks.saturating_add(1);
            self.provisional_checks >= LOCK_PROVISIONAL_CHECKS
        } else {
            self.empty_checks = self.empty_checks.saturating_add(1);
            self.empty_checks >= LOCK_EMPTY_CHECKS
        }
    }

    /// Fold one check's detections in. Only freshly observed timing counts
    /// as decoding.
    pub fn observe_detections(
        &mut self,
        hits: &[DetectionResult],
        tuned_hz: i64,
        observed_timing: bool,
    ) -> (release: bool)
        ensures
            ({
                let ours = exists|k: int|
                    0 <= k < hits.len() && apart(
                        (#[trigger] hits[k]).frequency_hz as int,
                        tuned_hz as int,
                    ) <= LOCK_CARRIER_TOLERANCE_HZ;
                &&& (final(self).misses(), final(self).provisional()) == old(self).counters_after(
                    ours,
                    observed_timing,
                )
                &&& release == old(self).releases(ours, observed_timing)
            }),
            (final(self).misses(), final(self).provisional()) == old(self).counters_after(
                sees_ours(hits@, tuned_hz),
                observed_timing,
            ),
            release == old(self).releases(sees_ours(hits@, tuned_hz), observed_timing),
    {
        let mut ours: bool = false;
        let mut i: usize = 0;
        while i < hits.len()
            invariant
                i <= hits.len(),
                ours <==> exists|k: int|
                    0 <= k < i && apart(
                        (#[trigger] hits[k]).frequency_hz as int,
                        tuned_hz as int,
                    ) <= LOCK_CARRIER_TOLERANCE_HZ,
            decreases hits.len() - i,
        {
            let f: i128 = hits[i].frequency_hz as i128;
            let t: i128 = tuned_hz as i128;
            let d: i128 = if f >= t {
                f - t
            } else {
                t - f
            };
            if d <= LOCK_CARRIER_TOLERANCE_HZ as i128 {
                ours = true;
                assert(apart(hits[i as int].frequency_hz as int, tuned_hz as int)
                    <= LOCK_CARRIER_TOLERANCE_HZ);
            }
            i += 1;
        }
        self.observe(ours, observed_timing)
    }
}

/// How many of the last checks found nothing of ours. A check is a pair:
/// whether our carrier was there, and whether it decoded.
pub open spec fn trailing_misses(checks: Seq<(bool, bool)>) -> int
    decreases checks.len(),
{
    if checks.len() == 0 || checks.last().0 {
        0
    } else {
        trailing_misses(checks.drop_last()) + 1
    }
}

/// How many checks found our carrier undecoded since it last decoded.
pub open spec fn undecoded_checks(checks: Seq<(bool, bool)>) -> int
    decreases checks.len(),
{
    if checks.len() == 0 {
        0
    } else if checks.last().0 && checks.last().1 {
        0
    } else {
        undecoded_checks(checks.drop_last()) + if checks.last().0 {
            1int
        } else {
            0
        }
    }
}

/// Whether a chain of lock states folded checks in one after the other, from
/// a fresh state.
pub open spec fn folded(states: Seq<LockState>, checks: Seq<(bool, bool)>) -> bool {
    &&& states.len() == checks.len() + 1
    &&& states[0].misses() == 0 && states[0].provisional() == 0
    &&& forall|i: int|
        #![trigger checks[i]]
        0 <= i < checks.len() ==> (states[i + 1].misses(), states[i + 1].provisional())
            == states[i].counters_after(checks[i].0, checks[i].1)
}

/// What the counters mean, as far as they count: misses are strictly
/// consecutive, and a carrier that does not decode keeps its own count, which
/// only a decoded field clears.
pub proof fn law_counters_mean_what_they_say(states: Seq<LockState>, checks: Seq<(bool, bool)>)
    requires
        folded(states, checks),
    ensures
        states.last().misses() == min(trailing_misses(checks), u32::MAX as int),
        states.last().provisional() == min(undecoded_checks(checks), u32::MAX as int),
        0 <= trailing_misses(checks) <= checks.len(),
        0 <= undecoded_checks(checks) <= checks.len(),
    decreases checks.len(),
{
    if checks.len() > 0 {
        let n = checks.len() - 1;
        lemma_front_folds(states, checks);
        law_counters_mean_what_they_say(states.drop_last(), checks.drop_last());
        assert(states.drop_last().last() == states[n]);
        assert(checks[n] == checks.last());
    }
}

proof fn lemma_front_folds(states: Seq<LockState>, checks: Seq<(bool, bool)>)
    requires
        folded(states, checks),
        checks.len() > 0,
    ensures
        folded(states.drop_last(), checks.drop_last()),
{
    let front = checks.drop_last();
    let before = states.drop_last();
    assert forall|i: int|
        #![trigger front[i]]
        0 <= i < front.len() implies (before[i + 1].misses(), before[i + 1].provisional())
        == before[i].counters_after(front[i].0, front[i].1) by {
        assert(front[i] == checks[i]);
    }
}

/// Which check of a series releases the channel. A decoding one never does. A
/// sighting without a field does if it is at least the eighth since the last
/// field, misses in between or not. A miss does exactly if the check before it
/// was one too, whether anything decoded elsewhere or not.
pub proof fn law_release_follows_from_the_series(
    states: Seq<LockState>,
    checks: Seq<(bool, bool)>,
)
    requires
        folded(states, checks),
        checks.len() > 0,
    ensures
        ({
            let n = checks.len() as int;
            let (on_carrier, decoding) = checks.last();
            states[n - 1].releases(on_carrier, decoding) == if on_carrier && decoding {
                false
            } else if on_carrier {
                undecoded_checks(checks) >= 8
            } else {
                n >= 2 && !checks[n - 2].0
            }
        }),
{
    let n = checks.len() as int;
    law_counters_mean_what_they_say(states, checks);
    assert(checks[n - 1] == checks.last());
    assert(states.last() == states[n - 1 + 1]);
    if !checks.last().0 {
        law_isolated_misses_do_not_release(states, checks);
    }
}

/// A miss releases the channel only if the check before it was one too.
pub proof fn law_isolated_misses_do_not_release(states: Seq<LockState>, checks: Seq<(bool, bool)>)
    requires
        folded(states, checks),
        0 < checks.len(),
        !checks.last().0,
    ensures
        states.last().misses() >= LOCK_EMPTY_CHECKS <==> checks.len() >= 2 && !checks[checks.len()
            - 2].0,
{
    law_counters_mean_what_they_say(states, checks);
    let front = checks.drop_last();
    if front.len() > 0 {
        lemma_trailing_misses(front);
    }
}

proof fn lemma_trailing_misses(checks: Seq<(bool, bool)>)
    ensures
        0 <= trailing_misses(checks),
        checks.len() > 0 ==> (trailing_misses(checks) == 0 <==> checks.last().0),
    decreases checks.len(),
{
    if checks.len() > 0 {
        lemma_trailing_misses(checks.drop_last());
    }
}

/// A carrier that is always there and never decodes is released at the eighth
/// check, and not before.
pub proof fn law_undecodable_carrier_times_out(states: Seq<LockState>, checks: Seq<(bool, bool)>)
    requires
        folded(states, checks),
        checks.len() > 0,
        forall|i: int| 0 <= i < checks.len() ==> #[trigger] checks[i] == (true, false),
    ensures
        states[checks.len() - 1].releases(true, false) <==> checks.len() >= 8,
{
    law_release_follows_from_the_series(states, checks);
    lemma_always_undecoded(checks);
    assert(checks[checks.len() - 1] == (true, false));
}

proof fn lemma_always_undecoded(checks: Seq<(bool, bool)>)
    requires
        forall|i: int| 0 <= i < checks.len() ==> #[trigger] checks[i] == (true, false),
    ensures
        undecoded_checks(checks) == checks.len(),
        trailing_misses(checks) == 0,
    decreases checks.len(),
{
    if checks.len() > 0 {
        let front = checks.drop_last();
        assert forall|i: int| 0 <= i < front.len() implies #[trigger] front[i] == (true, false) by {
            assert(front[i] == checks[i]);
        }
        lemma_always_undecoded(front);
        assert(checks[checks.len() - 1] == (true, false));
    }
}

/// The classifier goes before line timing, and line timing before the
/// fallback; neither counts unless it names a standard.
pub proof fn law_classifier_goes_first(
    tagged: SignalType,
    measured: SignalType,
    fallback: SignalType,
)
    ensures
        ({
            let r = resolution(tagged, measured, fallback);
            let tag = tagged == SignalType::AnalogVideoPal || tagged
                == SignalType::AnalogVideoNtsc;
            let timing = measured == SignalType::AnalogVideoPal || measured
                == SignalType::AnalogVideoNtsc;
            &&& r.evidence == StandardEvidence::Classifier <==> tag
            &&& r.evidence == StandardEvidence::LineTiming <==> !tag && timing
            &&& tag ==> r.standard == tagged
            &&& !tag && timing ==> r.standard == measured
            &&& !tag && !timing ==> r.standard == fallback
        }),
{
}

/// The carrier that is named is inside the passband, and no hit lies nearer.
pub proof fn law_named_carrier_is_nearest(
    hits: Seq<i64>,
    tuned_hz: i64,
    passband_hz: int,
    k: int,
    j: int,
)
    requires
        is_decoded_carrier(hits, tuned_hz, passband_hz, k),
        0 <= j < hits.len(),
    ensures
        -passband_hz <= hits[k] - tuned_hz <= passband_hz,
        hits[j] >= tuned_hz ==> hits[k] - tuned_hz <= hits[j] - tuned_hz && tuned_hz - hits[k]
            <= hits[j] - tuned_hz,
        hits[j] <= tuned_hz ==> hits[k] - tuned_hz <= tuned_hz - hits[j] && tuned_hz - hits[k]
            <= tuned_hz - hits[j],
{
    assert(hits[j] == hits[j]);
}

/// A record does not depend on how its samples were divided: two chunks give
/// what both give in one. It holds the samples since the last gap, from the
/// first of them on, and never more than it needs.
pub proof fn law_record_holds_what_came_since_the_gap<C>(
    held: Seq<C>,
    goal: int,
    a: Seq<C>,
    b: Seq<C>,
    discontinuous: bool,
)
    requires
        held.len() <= goal,
    ensures
        record_after(record_after(held, goal, a, discontinuous), goal, b, false) == record_after(
            held,
            goal,
            a + b,
            discontinuous,
        ),
        record_after(held, goal, a, true) == a.take(min(a.len() as int, goal)),
        record_after(held, goal, a, false).take(held.len() as int) == held,
        record_after(held, goal, a, false).len() == min((held.len() + a.len()) as int, goal),
{
    let before = if discontinuous {
        Seq::<C>::empty()
    } else {
        held
    };
    let once = record_after(held, goal, a, discontinuous);
    assert(record_after(once, goal, b, false) =~= record_after(held, goal, a + b, discontinuous));
    assert(record_after(held, goal, a, true) =~= a.take(min(a.len() as int, goal)));
    assert(record_after(held, goal, a, false).take(held.len() as int) =~= held);
}

/// Our carrier is seen exactly where some hit lies within 10 MHz of the tuned
/// frequency; more hits never hide it.
pub proof fn law_our_carrier_is_within_ten_megahertz(
    hits: Seq<DetectionResult>,
    hit: DetectionResult,
    tuned_hz: i64,
)
    ensures
        sees_ours(hits.push(hit), tuned_hz) <==> sees_ours(hits, tuned_hz) || -10_000_000
            <= hit.frequency_hz - tuned_hz <= 10_000_000,
        !sees_ours(Seq::empty(), tuned_hz),
{
    let all = hits.push(hit);
    assert(all[hits.len() as int] == hit);
    if sees_ours(hits, tuned_hz) {
        let k = choose|k: int|
            0 <= k < hits.len() && apart((#[trigger] hits[k]).frequency_hz as int, tuned_hz as int)
                <= LOCK_CARRIER_TOLERANCE_HZ;
        assert(all[k] == hits[k]);
    }
    if sees_ours(all, tuned_hz) {
        let k = choose|k: int|
            0 <= k < all.len() && apart((#[trigger] all[k]).frequency_hz as int, tuned_hz as int)
                <= LOCK_CARRIER_TOLERANCE_HZ;
        if k < hits.len() {
            assert(hits[k] == all[k]);
        }
    }
}

} // verus!
