//! Structural checks on a candidate: the cepstral peak of a pulse train, and
//! the vertical sync of a field.

use vstd::prelude::*;

use crate::detector::spectrum::{largest, largest_in};
use crate::levels::{max, min};
use crate::stats::{law_rank_counts_what_is_below, median, median_of};
use crate::timing::round_div;
use crate::types::SignalType;
use crate::vbi::FieldSyncEvidence;

verus! {

/// The line rate at which a candidate is checked. A candidate of either
/// standard is checked as PAL.
pub open spec fn checked_line_hz(sig_type: SignalType) -> int {
    if sig_type == SignalType::AnalogVideoNtsc {
        15_734
    } else {
        15_625
    }
}

/// Where the cepstral peak of a line rate lies.
#[derive(Debug, Clone, Copy, PartialEq, Eq, Structural)]
pub struct CepstralWindow {
    /// How many quefrencies the record supports.
    pub half: usize,
    /// First quefrency of the search.
    pub start: usize,
    /// Last quefrency of the search.
    pub end: usize,
}

/// The quefrency of a candidate's line, in samples.
pub open spec fn line_quefrency(sig_type: SignalType, sample_rate: int) -> int {
    round_div(sample_rate, checked_line_hz(sig_type))
}

/// How many quefrencies a padded record supports.
pub open spec fn supported(len: int, record_len: int) -> int {
    min(record_len / 2, len / 2)
}

/// Whether a record is long enough for the check to mean anything.
pub open spec fn can_check(sig_type: SignalType, len: int, record_len: int, sample_rate: int) -> bool {
    len >= 64 && 2 <= line_quefrency(sig_type, sample_rate) < supported(len, record_len)
}

/// Two percent of a quefrency, rounded up, at least two.
pub open spec fn quefrency_tolerance(q: int) -> int {
    max((q + 49) / 50, 2)
}

/// Whether a window lies where a candidate's cepstral peak should.
pub open spec fn is_window(w: CepstralWindow, sig_type: SignalType, sample_rate: int) -> bool {
    let q = line_quefrency(sig_type, sample_rate);
    &&& w.start == max(q - quefrency_tolerance(q), 0)
    &&& w.end == min(q + quefrency_tolerance(q), w.half - 1)
    &&& w.start <= w.end < w.half
}

/// Where to look for the cepstral peak of a candidate; nothing where the
/// record is too short to tell, and the candidate passes unchecked.
pub fn cepstral_window(sig_type: SignalType, len: usize, record_len: usize, sample_rate: u32) -> (w:
    Option<CepstralWindow>)
    ensures
        w is Some <==> can_check(sig_type, len as int, record_len as int, sample_rate as int),
        w matches Some(w) ==> w.half == supported(len as int, record_len as int) && is_window(
            w,
            sig_type,
            sample_rate as int,
        ),
{
    if len < 64 {
        return None;
    }
    let half: usize = if record_len / 2 <= len / 2 {
        record_len / 2
    } else {
        len / 2
    };
    let line: u64 = if sig_type == SignalType::AnalogVideoNtsc {
        15_734
    } else {
        15_625
    };
    let q: u64 = (2 * (sample_rate as u64) + line) / (2 * line);
    assert(q == line_quefrency(sig_type, sample_rate as int));
    if q < 2 || q >= half as u64 {
        return None;
    }
    let tolerance: u64 = if (q + 49) / 50 >= 2 {
        (q + 49) / 50
    } else {
        2
    };
    let start: u64 = if q >= tolerance {
        q - tolerance
    } else {
        0
    };
    let end: u64 = if q + tolerance <= half as u64 - 1 {
        q + tolerance
    } else {
        half as u64 - 1
    };
    Some(CepstralWindow { half, start: start as usize, end: end as usize })
}

/// Whether a cepstrum, in units of 10^-12, peaks in the window at seven
/// times its median or more. A median of at most 10^-10 counts as that.
pub open spec fn peaks_sharply(cepstrum: Seq<i64>, w: CepstralWindow) -> bool {
    let peak = largest(cepstrum, w.start as int, w.end as int);
    peak >= 7 * max(median_of(cepstrum), 100)
}

/// Whether a cepstrum peaks where a candidate's line should put a peak.
pub fn verify_cepstrum(cepstrum: &Vec<i64>, w: CepstralWindow) -> (b: bool)
    requires
        w.start <= w.end < w.half,
        cepstrum.len() == w.half,
    ensures
        b == peaks_sharply(cepstrum@, w),
{
    let peak: i64 = largest_in(cepstrum, w.start, w.end);
    let middle: i64 = median(cepstrum);
    let floor: i64 = if middle > 100 {
        middle
    } else {
        100
    };
    peak as i128 >= 7 * (floor as i128)
}

/// Whether vertical sync was confirmed: two groups a field apart, or one in
/// a slice too short to hold a second.
pub open spec fn confirms(e: FieldSyncEvidence) -> bool {
    (e.groups >= 2 && e.spacing_ok) || (e.groups >= 1 && e.slice_field_periods < 2_200)
}

/// A candidate's confidence in the light of its vertical sync. A strong one
/// that is confirmed rises to 950; one of unknown standard rises to 750. A
/// strong one without any vertical sync over 2.5 fields falls to 600, if
/// that is asked for.
pub open spec fn tier(sig_type: SignalType, conf: u32, e: FieldSyncEvidence, demote: bool) -> u32 {
    if conf >= 800 && confirms(e) {
        950
    } else if sig_type == SignalType::AnalogVideoUnknown && confirms(e) {
        750
    } else if demote && conf >= 800 && e.slice_field_periods >= 2_500 && e.groups == 0 {
        600
    } else {
        conf
    }
}

/// A candidate's confidence in the light of its vertical sync.
pub fn apply_vbi_confidence_tier(
    sig_type: SignalType,
    conf: u32,
    evidence: &FieldSyncEvidence,
    demote_unconfirmed: bool,
) -> (c: u32)
    ensures
        c == tier(sig_type, conf, *evidence, demote_unconfirmed),
{
    let short_slice: bool = evidence.slice_field_periods < 2_200;
    let confirmed: bool = (evidence.groups >= 2 && evidence.spacing_ok) || (evidence.groups >= 1
        && short_slice);
    if conf >= 800 && confirmed {
        950
    } else if sig_type == SignalType::AnalogVideoUnknown && confirmed {
        750
    } else if demote_unconfirmed && conf >= 800 && evidence.slice_field_periods >= 2_500
        && evidence.groups == 0 {
        600
    } else {
        conf
    }
}

/// Whether a cluster is worth confirming on the wide cut: analog video that
/// is not confirmed yet.
pub open spec fn unconfirmed(sig_type: SignalType, conf: u32) -> bool {
    sig_type.analog() && conf < 950
}

/// A cluster's confidence after the wide cut. Only unconfirmed clusters are
/// judged again, and one of a known standard that the narrow probe demoted
/// is judged from 800. Without a level to work from nothing changes.
pub open spec fn tier_on_wide_cut(
    sig_type: SignalType,
    conf: u32,
    evidence: Option<FieldSyncEvidence>,
    demote: bool,
) -> u32 {
    if !unconfirmed(sig_type, conf) {
        conf
    } else {
        match evidence {
            None => conf,
            Some(e) => {
                let base = if conf < 800 && sig_type != SignalType::AnalogVideoUnknown {
                    800u32
                } else {
                    conf
                };
                tier(sig_type, base, e, demote)
            },
        }
    }
}

/// Whether a cluster is worth confirming on the wide cut.
pub fn needs_wide_confirmation(sig_type: SignalType, conf: u32) -> (b: bool)
    ensures
        b == unconfirmed(sig_type, conf),
{
    sig_type.is_analog_video() && conf < 950
}

/// A cluster's confidence after the wide cut.
pub fn confirm_on_wide_cut(
    sig_type: SignalType,
    conf: u32,
    evidence: Option<FieldSyncEvidence>,
    demote_unconfirmed: bool,
) -> (c: u32)
    ensures
        c == tier_on_wide_cut(sig_type, conf, evidence, demote_unconfirmed),
{
    if !needs_wide_confirmation(sig_type, conf) {
        return conf;
    }
    match evidence {
        None => conf,
        Some(e) => {
            let base: u32 = if conf < 800 && sig_type != SignalType::AnalogVideoUnknown {
                800
            } else {
                conf
            };
            apply_vbi_confidence_tier(sig_type, base, &e, demote_unconfirmed)
        },
    }
}

/// What the standard of a candidate says to the search for vertical sync:
/// whether it is PAL, where that is known.
pub open spec fn hint(sig_type: SignalType) -> Option<bool> {
    match sig_type {
        SignalType::AnalogVideoPal => Some(true),
        SignalType::AnalogVideoNtsc => Some(false),
        _ => None,
    }
}

/// What the standard of a candidate says to the search for vertical sync.
pub fn standard_hint(sig_type: SignalType) -> (is_pal: Option<bool>)
    ensures
        is_pal == hint(sig_type),
{
    match sig_type {
        SignalType::AnalogVideoPal => Some(true),
        SignalType::AnalogVideoNtsc => Some(false),
        _ => None,
    }
}

/// Evidence of vertical sync never lowers a confidence, and without the
/// demotion nothing does. Only a candidate of unknown standard between 750
/// and 800, which no stage produces, is left out.
pub proof fn law_confirmation_never_lowers(
    sig_type: SignalType,
    conf: u32,
    e: FieldSyncEvidence,
    demote: bool,
)
    requires
        conf <= 950,
        conf <= 750 || 800 <= conf || sig_type != SignalType::AnalogVideoUnknown,
    ensures
        confirms(e) || !demote ==> tier(sig_type, conf, e, demote) >= conf,
        tier(sig_type, conf, e, demote) <= 950,
{
}

/// A confirmed cluster keeps its answer whatever the wide cut shows.
pub proof fn law_confirmed_clusters_stay_confirmed(
    sig_type: SignalType,
    conf: u32,
    evidence: Option<FieldSyncEvidence>,
    demote: bool,
)
    requires
        conf >= 950,
    ensures
        tier_on_wide_cut(sig_type, conf, evidence, demote) == conf,
{
}

/// The wide cut overrules a demotion: a cluster of known standard that the
/// probe demoted ends where an undemoted one would.
pub proof fn law_wide_cut_overrules_probe_demotion(
    sig_type: SignalType,
    conf: u32,
    e: FieldSyncEvidence,
    demote: bool,
)
    requires
        conf < 800,
        sig_type == SignalType::AnalogVideoPal || sig_type == SignalType::AnalogVideoNtsc,
    ensures
        tier_on_wide_cut(sig_type, conf, Some(e), demote) == tier_on_wide_cut(
            sig_type,
            800,
            Some(e),
            demote,
        ),
{
}

/// Only the structure of fields raises a confidence: two groups or more, a
/// field period apart, or one in a slice too short for a second. In particular
/// groups that are not a field period apart raise nothing in a slice of 2.2
/// field periods or more, and neither does the absence of any group.
pub proof fn law_only_field_structure_raises(
    sig_type: SignalType,
    conf: u32,
    e: FieldSyncEvidence,
    demote: bool,
)
    requires
        tier(sig_type, conf, e, demote) > conf,
    ensures
        e.groups >= 1,
        e.slice_field_periods >= 2_200 ==> e.groups >= 2 && e.spacing_ok,
        sig_type == SignalType::AnalogVideoUnknown || conf >= 800,
{
}

/// Evidence without field spacing never raises a confidence in a slice that
/// would hold two fields.
pub proof fn law_no_field_spacing_never_raises(
    sig_type: SignalType,
    conf: u32,
    e: FieldSyncEvidence,
    demote: bool,
)
    requires
        !e.spacing_ok || e.groups < 2,
        e.slice_field_periods >= 2_200,
    ensures
        tier(sig_type, conf, e, demote) <= conf,
        tier_on_wide_cut(sig_type, conf, Some(e), demote) <= max(conf as int, 800),
{
}

/// The structure of fields is enough: it lifts a strong candidate to 950 and
/// one of unresolved standard to 750, whatever else was asked for.
pub proof fn law_field_structure_raises(
    sig_type: SignalType,
    conf: u32,
    e: FieldSyncEvidence,
    demote: bool,
)
    requires
        e.groups >= 2 && e.spacing_ok || e.groups >= 1 && e.slice_field_periods < 2_200,
    ensures
        conf >= 800 ==> tier(sig_type, conf, e, demote) == 950,
        conf < 800 && sig_type == SignalType::AnalogVideoUnknown ==> tier(
            sig_type,
            conf,
            e,
            demote,
        ) == 750,
        conf < 800 && sig_type != SignalType::AnalogVideoUnknown ==> tier(
            sig_type,
            conf,
            e,
            demote,
        ) == conf,
{
}

/// Without that structure a confidence stays as it is, but for one case: a
/// strong candidate is demoted to 600 if that is asked for and two and a half
/// field periods show not a single group.
pub proof fn law_only_empty_fields_demote(
    sig_type: SignalType,
    conf: u32,
    e: FieldSyncEvidence,
    demote: bool,
)
    requires
        !(e.groups >= 2 && e.spacing_ok),
        !(e.groups >= 1 && e.slice_field_periods < 2_200),
    ensures
        tier(sig_type, conf, e, demote) == conf || tier(sig_type, conf, e, demote) == 600,
        demote && conf >= 800 && e.groups == 0 && e.slice_field_periods >= 2_500 ==> tier(
            sig_type,
            conf,
            e,
            demote,
        ) == 600,
        !demote || conf < 800 || e.groups > 0 || e.slice_field_periods < 2_500 ==> tier(
            sig_type,
            conf,
            e,
            demote,
        ) == conf,
{
}

/// A candidate that lacks vertical sync, or whose cut shows no levels, is not
/// made less certain by the wide cut than the probe left it, unless demotion
/// is asked for; what is not analog video it leaves alone.
pub proof fn law_wide_cut_only_adds(
    sig_type: SignalType,
    conf: u32,
    evidence: Option<FieldSyncEvidence>,
)
    requires
        conf <= 750 || conf >= 800 || sig_type != SignalType::AnalogVideoUnknown,
    ensures
        tier_on_wide_cut(sig_type, conf, evidence, false) >= conf,
        evidence is None ==> tier_on_wide_cut(sig_type, conf, evidence, false) == conf,
        !(sig_type == SignalType::AnalogVideoPal || sig_type == SignalType::AnalogVideoNtsc
            || sig_type == SignalType::AnalogVideoUnknown) ==> tier_on_wide_cut(
            sig_type,
            conf,
            evidence,
            false,
        ) == conf,
{
}

/// The search for vertical sync is told the standard that the candidate has,
/// and nothing where it has none.
pub proof fn law_hint_names_the_standard(sig_type: SignalType)
    ensures
        hint(sig_type) == Some(true) <==> sig_type == SignalType::AnalogVideoPal,
        hint(sig_type) == Some(false) <==> sig_type == SignalType::AnalogVideoNtsc,
{
}

/// A cepstrum passes exactly if some quefrency of the window stands out: it is
/// at least seven times more than half of all quefrencies, and at least seven
/// times the smallest floor.
pub proof fn law_a_peak_stands_out(cepstrum: Seq<i64>, w: CepstralWindow)
    requires
        w.start <= w.end < cepstrum.len(),
    ensures
        peaks_sharply(cepstrum, w) <==> exists|k: int|
            w.start <= k <= w.end && #[trigger] cepstrum[k] >= 700 && 2 * cepstrum.filter(
                |v: i64| 7 * v <= cepstrum[k],
            ).len() > cepstrum.len(),
{
    let m = median_of(cepstrum);
    let n = cepstrum.len() as int;
    law_rank_counts_what_is_below(cepstrum, n / 2);
    lemma_largest_is_reached(cepstrum, w.start as int, w.end as int);
    let peak = largest(cepstrum, w.start as int, w.end as int);
    if peaks_sharply(cepstrum, w) {
        let k = choose|k: int| w.start <= k <= w.end && #[trigger] cepstrum[k] == peak;
        lemma_sevenths(cepstrum, m, cepstrum[k] as int);
    }
    if exists|k: int|
        w.start <= k <= w.end && #[trigger] cepstrum[k] >= 700 && 2 * cepstrum.filter(
            |v: i64| 7 * v <= cepstrum[k],
        ).len() > cepstrum.len() {
        let k = choose|k: int|
            w.start <= k <= w.end && #[trigger] cepstrum[k] >= 700 && 2 * cepstrum.filter(
                |v: i64| 7 * v <= cepstrum[k],
            ).len() > cepstrum.len();
        if 7 * m > cepstrum[k] {
            lemma_sevenths_below(cepstrum, m, cepstrum[k] as int);
        }
    }
}

proof fn lemma_largest_is_reached(s: Seq<i64>, lo: int, hi: int)
    requires
        0 <= lo,
        hi < s.len(),
        lo <= hi + 1,
    ensures
        largest(s, lo, hi) >= 0,
        forall|k: int| lo <= k <= hi ==> #[trigger] s[k] <= largest(s, lo, hi),
        largest(s, lo, hi) > 0 ==> exists|k: int|
            lo <= k <= hi && #[trigger] s[k] == largest(s, lo, hi),
    decreases hi - lo + 1,
{
    if lo <= hi {
        lemma_largest_is_reached(s, lo, hi - 1);
        if largest(s, lo, hi) > 0 {
            if s[hi] != largest(s, lo, hi) {
                let k = choose|k: int|
                    lo <= k <= hi - 1 && #[trigger] s[k] == largest(s, lo, hi - 1);
                assert(s[k] == largest(s, lo, hi));
            }
        }
    }
}

proof fn lemma_sevenths(s: Seq<i64>, m: int, top: int)
    requires
        7 * m <= top,
    ensures
        s.filter(|v: i64| v <= m).len() <= s.filter(|v: i64| 7 * v <= top).len(),
    decreases s.len(),
{
    reveal(Seq::filter);
    if s.len() > 0 {
        lemma_sevenths(s.drop_last(), m, top);
    }
}

proof fn lemma_sevenths_below(s: Seq<i64>, m: int, top: int)
    requires
        7 * m > top,
    ensures
        s.filter(|v: i64| 7 * v <= top).len() <= s.filter(|v: i64| v < m).len(),
    decreases s.len(),
{
    reveal(Seq::filter);
    if s.len() > 0 {
        lemma_sevenths_below(s.drop_last(), m, top);
    }
}

/// A candidate is checked exactly if its period is two samples or more and
/// fits twice, with room to spare, into both the record and its spectrum.
pub proof fn law_checked_records_hold_the_period(
    sig_type: SignalType,
    len: int,
    record_len: int,
    sample_rate: int,
    period: int,
)
    requires
        sample_rate > 0,
        ({
            let line_hz: int = if sig_type == SignalType::AnalogVideoNtsc {
                15_734
            } else {
                15_625
            };
            -line_hz < 2 * (period * line_hz - sample_rate) <= line_hz
        }),
    ensures
        can_check(sig_type, len, record_len, sample_rate) <==> len >= 64 && period >= 2 && period
            < len / 2 && period < record_len / 2,
        supported(len, record_len) <= len / 2,
        supported(len, record_len) <= record_len / 2,
        supported(len, record_len) == len / 2 || supported(len, record_len) == record_len / 2,
{
    if sig_type == SignalType::AnalogVideoNtsc {
        assert(line_quefrency(sig_type, sample_rate) == (2 * sample_rate + 15_734) / 31_468int);
    } else {
        assert(line_quefrency(sig_type, sample_rate) == (2 * sample_rate + 15_625) / 31_250int);
    }
}

/// The window of a candidate lies around the period of its line: NTSC lines
/// come at 15 734 Hz, all others at 15 625 Hz. It holds exactly the supported
/// quefrencies within two samples, or two percent rounded up, of the period.
pub proof fn law_window_surrounds_the_period(
    w: CepstralWindow,
    sig_type: SignalType,
    sample_rate: int,
    period: int,
    k: int,
)
    requires
        sample_rate > 0,
        is_window(w, sig_type, sample_rate),
        ({
            let line_hz: int = if sig_type == SignalType::AnalogVideoNtsc {
                15_734
            } else {
                15_625
            };
            -line_hz < 2 * (period * line_hz - sample_rate) <= line_hz
        }),
        0 <= k < w.half,
    ensures
        w.start <= k <= w.end <==> -2 <= k - period <= 2 || (50 * (k - period) < period + 50 && 50
            * (period - k) < period + 50),
{
    let q = line_quefrency(sig_type, sample_rate);
    if sig_type == SignalType::AnalogVideoNtsc {
        assert(q == (2 * sample_rate + 15_734) / 31_468int);
    } else {
        assert(q == (2 * sample_rate + 15_625) / 31_250int);
    }
    assert(q == period);
}

} // verus!
