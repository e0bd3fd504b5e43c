//! The wideband sweep: where probes sit, which of them are classified, and
//! how their hits become transmitters.
//!
//! Offsets from the tuned centre are in half-hertz, so that a grid centred on
//! an odd sample rate is exact. Energies are mean powers in units of 10^-12
//! of the capture's own.

use vstd::prelude::*;

use crate::detector::spectrum::{largest, largest_in};
use crate::detector::AnalogFpvDetector;
use crate::levels::max;
use crate::stats::{law_counts_tell_the_rank, order_statistic, ranked};
use crate::timing::round_div;
use crate::types::SignalType;

verus! {

/// Rate that each probe is decimated to, and the rate up to which a capture
/// is one slice.
pub const WIDEBAND_TARGET_RATE_HZ: u32 = 10_000_000;

/// Shortest capture that is looked at.
pub const MIN_CAPTURE: usize = 2_048;

/// How a capture is searched.
#[derive(Debug, Clone, Copy, PartialEq, Eq, Structural)]
pub enum SweepStrategy {
    /// Too short to say anything.
    Nothing,
    /// One slice at the tuned centre, without probes.
    Slice,
    /// A grid of this many probes.
    Sweep(usize),
}

/// Number of probes on a 5 MHz grid that keeps 5 MHz from either edge.
pub open spec fn probe_count(sample_rate: int) -> int {
    round_div(sample_rate - 10_000_000, 5_000_000) + 1
}

/// Offset of a probe from the tuned centre, in half-hertz.
pub open spec fn probe_offset(sample_rate: int, k: int) -> int {
    10_000_000 - sample_rate + 10_000_000 * k
}

/// How a capture of `n` samples is searched: a grid needs four probes for
/// its noise floor to mean anything.
pub open spec fn strategy_for(n: int, sample_rate: int) -> SweepStrategy {
    if n < MIN_CAPTURE {
        SweepStrategy::Nothing
    } else if sample_rate <= WIDEBAND_TARGET_RATE_HZ || probe_count(sample_rate) < 4 {
        SweepStrategy::Slice
    } else {
        SweepStrategy::Sweep(probe_count(sample_rate) as usize)
    }
}

/// How a capture of `n` samples is searched.
pub fn sweep_strategy(n: usize, sample_rate: u32) -> (s: SweepStrategy)
    ensures
        s == strategy_for(n as int, sample_rate as int),
{
    if n < MIN_CAPTURE {
        return SweepStrategy::Nothing;
    }
    if sample_rate <= WIDEBAND_TARGET_RATE_HZ {
        return SweepStrategy::Slice;
    }
    let span: u64 = sample_rate as u64 - 10_000_000;
    let steps: u64 = (2 * span + 5_000_000) / 10_000_000 + 1;
    if steps < 4 {
        SweepStrategy::Slice
    } else {
        SweepStrategy::Sweep(steps as usize)
    }
}

/// The offsets of all probes, ascending.
pub fn probe_offsets(sample_rate: u32, n_steps: usize) -> (offsets: Vec<i64>)
    requires
        n_steps <= 1_000,
    ensures
        offsets.len() == n_steps,
        forall|k: int|
            0 <= k < n_steps ==> #[trigger] offsets[k] == probe_offset(sample_rate as int, k),
{
    let mut offsets: Vec<i64> = Vec::new();
    let mut k: usize = 0;
    while k < n_steps
        invariant
            k <= n_steps <= 1_000,
            offsets.len() == k,
            forall|i: int|
                0 <= i < k ==> #[trigger] offsets[i] == probe_offset(sample_rate as int, i),
        decreases n_steps - k,
    {
        offsets.push(10_000_000 - sample_rate as i64 + 10_000_000 * (k as i64));
        k += 1;
    }
    offsets
}

/// Every frequency that keeps 5 MHz from the edges of a swept capture is
/// within 2.5 MHz of a probe.
pub proof fn law_probes_cover_the_capture(sample_rate: u32, offset: int) -> (k: int)
    requires
        sample_rate > WIDEBAND_TARGET_RATE_HZ,
        10_000_000 - sample_rate <= offset <= sample_rate - 10_000_000,
    ensures
        0 <= k < probe_count(sample_rate as int),
        -5_000_000 <= offset - probe_offset(sample_rate as int, k) <= 5_000_000,
{
    let from_start = offset - probe_offset(sample_rate as int, 0);
    let span = sample_rate - 10_000_000;
    assert(probe_count(sample_rate as int) == (2 * span + 5_000_000) / 10_000_000 + 1);
    assert(from_start <= 2 * span);
    (from_start + 5_000_000) / 10_000_000
}

/// Whole-number decimation from one rate towards another.
pub fn decimation_factor(sample_rate: u32, target_rate: u32) -> (f: u32)
    requires
        target_rate > 0,
    ensures
        f == max(sample_rate as int / target_rate as int, 1),
{
    let f: u32 = sample_rate / target_rate;
    if f >= 1 {
        f
    } else {
        1
    }
}

/// The rate that decimation really leaves, which is the target only where
/// that divides the sample rate.
pub fn decimated_rate(sample_rate: u32, target_rate: u32) -> (r: u32)
    requires
        target_rate > 0,
    ensures
        r == sample_rate as int / max(sample_rate as int / target_rate as int, 1),
{
    sample_rate / decimation_factor(sample_rate, target_rate)
}

/// The rate that probes of a capture aim for: captures of up to twice the
/// target are not decimated.
pub fn probe_target_rate(sample_rate: u32) -> (r: u32)
    ensures
        r == (if sample_rate > 20_000_000 {
            10_000_000
        } else {
            sample_rate
        }),
{
    if sample_rate > 2 * WIDEBAND_TARGET_RATE_HZ {
        WIDEBAND_TARGET_RATE_HZ
    } else {
        sample_rate
    }
}

/// Decimation never leaves less than the target where it divides at all, and
/// always less than twice the target.
pub proof fn law_decimated_rate_brackets_target(sample_rate: u32, target_rate: u32)
    requires
        0 < target_rate <= sample_rate,
    ensures
        ({
            let f = max(sample_rate as int / target_rate as int, 1);
            target_rate <= sample_rate as int / f < 2 * target_rate
        }),
{
    let s = sample_rate as int;
    let t = target_rate as int;
    let f = s / t;
    assert(f >= 1 && f * t <= s < (f + 1) * t) by (nonlinear_arith)
        requires
            f == s / t,
            0 < t <= s,
    ;
    assert(t <= s / f < 2 * t) by (nonlinear_arith)
        requires
            f >= 1,
            f * t <= s < (f + 1) * t,
            t > 0,
    ;
}

/// Whether a probe has energy enough: above the 25th percentile of all
/// probes times the configured ratio, or half of the strongest where that
/// percentile is silence.
pub open spec fn clears_gate(energies: Seq<i64>, energy_ratio: int, i: int) -> bool {
    let floor = ranked(energies, energies.len() as int / 4);
    if floor > 0 {
        1_000_000 * energies[i] > floor * energy_ratio
    } else {
        2 * energies[i] > largest(energies, 0, energies.len() - 1)
    }
}

impl AnalogFpvDetector {
    /// Which probes are classified: all when spectra are averaged across
    /// batches, otherwise those that clear the energy gate.
    pub fn probes_to_classify(&self, energies: &Vec<i64>, integrated: bool) -> (chosen: Vec<bool>)
        requires
            energies.len() > 0,
        ensures
            chosen.len() == energies.len(),
            forall|i: int|
                0 <= i < chosen.len() ==> #[trigger] chosen[i] == (integrated || clears_gate(
                    energies@,
                    self.energy_ratio as int,
                    i,
                )),
    {
        let floor: i64 = order_statistic(energies, energies.len() / 4);
        let most: i64 = largest_in(energies, 0, energies.len() - 1);
        let mut chosen: Vec<bool> = Vec::new();
        let mut i: usize = 0;
        while i < energies.len()
            invariant
                i <= energies.len(),
                chosen.len() == i,
                floor == ranked(energies@, energies.len() as int / 4),
                most == largest(energies@, 0, energies.len() - 1),
                forall|k: int|
                    0 <= k < i ==> #[trigger] chosen[k] == (integrated || clears_gate(
                        energies@,
                        self.energy_ratio as int,
                        k,
                    )),
            decreases energies.len() - i,
        {
            let e: i128 = energies[i] as i128;
            assert(floor * self.energy_ratio <= i64::MAX * u64::MAX) by (nonlinear_arith)
                requires
                    floor <= i64::MAX,
                    floor > 0 || floor <= 0,
            ;
            assert(floor * self.energy_ratio >= i64::MIN * u64::MAX) by (nonlinear_arith)
                requires
                    floor >= i64::MIN,
            ;
            let pass: bool = if floor > 0 {
                1_000_000 * e > floor as i128 * self.energy_ratio as i128
            } else {
                2 * e > most as i128
            };
            chosen.push(integrated || pass);
            i += 1;
        }
        chosen
    }
}

/// One sweep probe as a caller sees it.
#[derive(Debug, Clone, Copy, PartialEq, Eq, Structural)]
pub struct ProbeEnergy {
    pub offset_half_hz: i64,
    /// Mean power over the probe's block.
    pub energy: i64,
    /// Confidence that the probe reached, reported or not; zero where it was
    /// not classified or showed nothing.
    pub confidence: u32,
}

/// A probe that showed something.
#[derive(Debug, Clone, Copy, PartialEq, Eq, Structural)]
pub struct SweepHit {
    pub offset_half_hz: i64,
    pub energy: i64,
    pub kind: SignalType,
    pub confidence: u32,
}

/// What each probe saw, for a caller that wants to see the band.
pub open spec fn probe_report(
    offsets: Seq<i64>,
    energies: Seq<i64>,
    classes: Seq<(SignalType, u32)>,
) -> Seq<ProbeEnergy> {
    Seq::new(
        offsets.len(),
        |i: int|
            ProbeEnergy {
                offset_half_hz: offsets[i],
                energy: energies[i],
                confidence: if classes[i].0 == SignalType::Unknown {
                    0
                } else {
                    classes[i].1
                },
            },
    )
}

/// The probes that showed something, in grid order.
pub open spec fn hits_of(
    offsets: Seq<i64>,
    energies: Seq<i64>,
    classes: Seq<(SignalType, u32)>,
) -> Seq<SweepHit>
    decreases offsets.len(),
{
    if offsets.len() == 0 {
        Seq::empty()
    } else {
        let n = offsets.len() - 1;
        let front = hits_of(offsets.drop_last(), energies, classes);
        if classes[n].0 == SignalType::Unknown {
            front
        } else {
            front.push(
                SweepHit {
                    offset_half_hz: offsets[n],
                    energy: energies[n],
                    kind: classes[n].0,
                    confidence: classes[n].1,
                },
            )
        }
    }
}

/// What each probe saw, and the probes that showed something.
pub fn collect_probes(
    offsets: &Vec<i64>,
    energies: &Vec<i64>,
    classes: &Vec<(SignalType, u32)>,
) -> (r: (Vec<ProbeEnergy>, Vec<SweepHit>))
    requires
        offsets.len() == energies.len() == classes.len(),
    ensures
        r.0@ == probe_report(offsets@, energies@, classes@),
        r.1@ == hits_of(offsets@, energies@, classes@),
{
    let mut probes: Vec<ProbeEnergy> = Vec::new();
    let mut hits: Vec<SweepHit> = Vec::new();
    let ghost report = probe_report(offsets@, energies@, classes@);
    let mut i: usize = 0;
    while i < offsets.len()
        invariant
            i <= offsets.len() == energies.len() == classes.len(),
            report == probe_report(offsets@, energies@, classes@),
            probes@ == report.take(i as int),
            hits@ == hits_of(offsets@.take(i as int), energies@, classes@),
        decreases offsets.len() - i,
    {
        let (kind, conf) = classes[i];
        let unknown: bool = kind == SignalType::Unknown;
        probes.push(
            ProbeEnergy {
                offset_half_hz: offsets[i],
                energy: energies[i],
                confidence: if unknown {
                    0
                } else {
                    conf
                },
            },
        );
        assert(offsets@.take(i + 1).drop_last() =~= offsets@.take(i as int));
        if !unknown {
            hits.push(
                SweepHit {
                    offset_half_hz: offsets[i],
                    energy: energies[i],
                    kind,
                    confidence: conf,
                },
            );
        }
        i += 1;
        assert(probes@ =~= report.take(i as int));
    }
    assert(offsets@.take(i as int) =~= offsets@);
    assert(probes@ =~= report);
    (probes, hits)
}

/// Hits that belong to one transmitter.
#[derive(Debug, Clone, Copy, PartialEq, Eq, Structural)]
pub struct SweepCluster {
    /// Offset of the strongest hit, which stays the centre of the cluster.
    pub anchor_half_hz: i64,
    /// Energy of the strongest hit.
    pub energy: i64,
    /// What the most confident hit showed.
    pub kind: SignalType,
    pub confidence: u32,
}

/// Half the width of a cluster, 12.5 MHz, in half-hertz.
pub const CLUSTER_REACH: i64 = 25_000_000;

/// How far a signal's skirt reaches, 25 MHz, in half-hertz.
pub const SKIRT_REACH: i64 = 50_000_000;

/// Whether two offsets are less than `reach` apart.
pub open spec fn within(a: i64, b: i64, reach: i64) -> bool {
    -reach < a - b < reach
}

fn is_within(a: i64, b: i64, reach: i64) -> (r: bool)
    requires
        0 <= reach <= 0x7fff_ffff,
    ensures
        r == within(a, b, reach),
{
    let d: i128 = a as i128 - b as i128;
    -(reach as i128) < d && d < reach as i128
}

/// Where a hit belongs in a descending list: after all that are not weaker.
pub open spec fn rank_of(s: Seq<SweepHit>, energy: i64) -> int
    decreases s.len(),
{
    if s.len() > 0 && s.last().energy < energy {
        rank_of(s.drop_last(), energy)
    } else {
        s.len() as int
    }
}

/// The hits, strongest first; equal ones keep their order.
pub open spec fn strongest_first(s: Seq<SweepHit>) -> Seq<SweepHit>
    decreases s.len(),
{
    if s.len() == 0 {
        Seq::empty()
    } else {
        let front = strongest_first(s.drop_last());
        front.insert(rank_of(front, s.last().energy), s.last())
    }
}

/// The first cluster around an offset.
pub open spec fn cluster_around(cs: Seq<SweepCluster>, offset: i64) -> Option<int>
    decreases cs.len(),
{
    if cs.len() == 0 {
        None
    } else {
        match cluster_around(cs.drop_last(), offset) {
            Some(i) => Some(i),
            None => if within(offset, cs.last().anchor_half_hz, CLUSTER_REACH) {
                Some(cs.len() - 1)
            } else {
                None
            },
        }
    }
}

/// The clusters that hits form, taken one after the other. A hit joins the
/// first cluster around it, and its classification counts there if it is
/// more confident; otherwise it starts a cluster.
pub open spec fn clustered(hits: Seq<SweepHit>) -> Seq<SweepCluster>
    decreases hits.len(),
{
    if hits.len() == 0 {
        Seq::empty()
    } else {
        let cs = clustered(hits.drop_last());
        let h = hits.last();
        match cluster_around(cs, h.offset_half_hz) {
            Some(i) => if h.confidence > cs[i].confidence {
                cs.update(i, SweepCluster { kind: h.kind, confidence: h.confidence, ..cs[i] })
            } else {
                cs
            },
            None => cs.push(
                SweepCluster {
                    anchor_half_hz: h.offset_half_hz,
                    energy: h.energy,
                    kind: h.kind,
                    confidence: h.confidence,
                },
            ),
        }
    }
}

/// Whether a cluster is the skirt of another: within the video bandwidth of
/// it, and 20 dB weaker.
pub open spec fn is_skirt(d: SweepCluster, c: SweepCluster) -> bool {
    within(d.anchor_half_hz, c.anchor_half_hz, SKIRT_REACH) && 100 * d.energy < c.energy
}

/// A cluster with the classification of its most confident skirt, if that is
/// more confident.
pub open spec fn with_skirts(c: SweepCluster, rest: Seq<SweepCluster>) -> SweepCluster
    decreases rest.len(),
{
    if rest.len() == 0 {
        c
    } else {
        let own = with_skirts(c, rest.drop_last());
        let d = rest.last();
        if is_skirt(d, c) && d.confidence > own.confidence {
            SweepCluster { kind: d.kind, confidence: d.confidence, ..own }
        } else {
            own
        }
    }
}

/// The clusters that are not skirts of `c`.
pub open spec fn beyond(c: SweepCluster, rest: Seq<SweepCluster>) -> Seq<SweepCluster> {
    rest.filter(|d: SweepCluster| !is_skirt(d, c))
}

/// The clusters after each, strongest first, has taken in its skirts.
pub open spec fn skirts_absorbed(cs: Seq<SweepCluster>) -> Seq<SweepCluster>
    decreases cs.len(),
    via skirts_absorbed_terminates
{
    if cs.len() == 0 {
        Seq::empty()
    } else {
        let rest = cs.drop_first();
        seq![with_skirts(cs[0], rest)] + skirts_absorbed(beyond(cs[0], rest))
    }
}

#[via_fn]
proof fn skirts_absorbed_terminates(cs: Seq<SweepCluster>) {
    if cs.len() > 0 {
        cs.drop_first().lemma_filter_len(|d: SweepCluster| !is_skirt(d, cs[0]));
    }
}

fn sort_strongest_first(hits: &Vec<SweepHit>) -> (out: Vec<SweepHit>)
    ensures
        out@ == strongest_first(hits@),
{
    let mut out: Vec<SweepHit> = Vec::new();
    let mut i: usize = 0;
    while i < hits.len()
        invariant
            i <= hits.len(),
            out@ == strongest_first(hits@.take(i as int)),
        decreases hits.len() - i,
    {
        let h: SweepHit = hits[i];
        let mut at: usize = out.len();
        assert(out@.take(at as int) =~= out@);
        while at > 0 && out[at - 1].energy < h.energy
            invariant
                at <= out.len(),
                rank_of(out@, h.energy) == rank_of(out@.take(at as int), h.energy),
            decreases at,
        {
            assert(out@.take(at as int).drop_last() =~= out@.take(at - 1));
            at -= 1;
        }
        assert(hits@.take(i + 1).drop_last() =~= hits@.take(i as int));
        out.insert(at, h);
        i += 1;
    }
    assert(hits@.take(i as int) =~= hits@);
    out
}

fn find_cluster(cs: &Vec<SweepCluster>, offset: i64) -> (at: Option<usize>)
    ensures
        at is Some <==> cluster_around(cs@, offset) is Some,
        at matches Some(i) ==> Some(i as int) == cluster_around(cs@, offset) && i < cs.len(),
{
    let mut i: usize = 0;
    while i < cs.len()
        invariant
            i <= cs.len(),
            cluster_around(cs@.take(i as int), offset) is None,
        decreases cs.len() - i,
    {
        assert(cs@.take(i + 1).drop_last() =~= cs@.take(i as int));
        if is_within(offset, cs[i].anchor_half_hz, CLUSTER_REACH) {
            proof {
                lemma_first_stays(cs@, offset, i + 1);
            }
            return Some(i);
        }
        i += 1;
    }
    assert(cs@.take(i as int) =~= cs@);
    None
}

proof fn lemma_first_stays(cs: Seq<SweepCluster>, offset: i64, n: int)
    requires
        0 <= n <= cs.len(),
        cluster_around(cs.take(n), offset) is Some,
    ensures
        cluster_around(cs, offset) == cluster_around(cs.take(n), offset),
    decreases cs.len() - n,
{
    if n < cs.len() {
        assert(cs.take(n + 1).drop_last() =~= cs.take(n));
        lemma_first_stays(cs, offset, n + 1);
    } else {
        assert(cs.take(n) =~= cs);
    }
}

fn form_clusters(hits: &Vec<SweepHit>) -> (cs: Vec<SweepCluster>)
    ensures
        cs@ == clustered(hits@),
{
    let mut cs: Vec<SweepCluster> = Vec::new();
    let mut i: usize = 0;
    while i < hits.len()
        invariant
            i <= hits.len(),
            cs@ == clustered(hits@.take(i as int)),
        decreases hits.len() - i,
    {
        let h: SweepHit = hits[i];
        assert(hits@.take(i + 1).drop_last() =~= hits@.take(i as int));
        match find_cluster(&cs, h.offset_half_hz) {
            Some(at) => {
                if h.confidence > cs[at].confidence {
                    let c: SweepCluster = cs[at];
                    cs.set(at, SweepCluster { kind: h.kind, confidence: h.confidence, ..c });
                }
            },
            None => {
                cs.push(
                    SweepCluster {
                        anchor_half_hz: h.offset_half_hz,
                        energy: h.energy,
                        kind: h.kind,
                        confidence: h.confidence,
                    },
                );
            },
        }
        i += 1;
    }
    assert(hits@.take(i as int) =~= hits@);
    cs
}

fn absorb_skirts(cs: &Vec<SweepCluster>) -> (out: Vec<SweepCluster>)
    ensures
        out@ == skirts_absorbed(cs@),
{
    let mut out: Vec<SweepCluster> = Vec::new();
    let mut rest: Vec<SweepCluster> = Vec::new();
    let mut k: usize = 0;
    while k < cs.len()
        invariant
            k <= cs.len(),
            rest@ == cs@.take(k as int),
        decreases cs.len() - k,
    {
        rest.push(cs[k]);
        k += 1;
        assert(rest@ =~= cs@.take(k as int));
    }
    assert(rest@ =~= cs@);
    assert(out@ + skirts_absorbed(cs@) =~= skirts_absorbed(cs@));
    while rest.len() > 0
        invariant
            out@ + skirts_absorbed(rest@) == skirts_absorbed(cs@),
        decreases rest.len(),
    {
        let c: SweepCluster = rest[0];
        let ghost tail = rest@.drop_first();
        let ghost keep = |d: SweepCluster| !is_skirt(d, c);
        let mut own: SweepCluster = c;
        let mut left: Vec<SweepCluster> = Vec::new();
        let mut j: usize = 1;
        proof {
            reveal(Seq::filter);
        }
        while j < rest.len()
            invariant
                1 <= j <= rest.len(),
                c == rest@[0],
                tail == rest@.drop_first(),
                keep == (|d: SweepCluster| !is_skirt(d, c)),
                own == with_skirts(c, tail.take(j - 1)),
                left@ == tail.take(j - 1).filter(keep),
                left.len() < j,
            decreases rest.len() - j,
        {
            let d: SweepCluster = rest[j];
            assert(tail.take(j as int).drop_last() =~= tail.take(j - 1));
            assert(tail.take(j as int).last() == d);
            proof {
                reveal(Seq::filter);
            }
            let scaled: i128 = 100 * (d.energy as i128);
            if is_within(d.anchor_half_hz, c.anchor_half_hz, SKIRT_REACH) && scaled
                < c.energy as i128 {
                if d.confidence > own.confidence {
                    own = SweepCluster { kind: d.kind, confidence: d.confidence, ..own };
                }
            } else {
                left.push(d);
            }
            j += 1;
        }
        assert(tail.take(j - 1) =~= tail);
        let ghost before = out@;
        out.push(own);
        proof {
            assert(left@ == beyond(c, tail));
            assert(skirts_absorbed(rest@) == seq![own] + skirts_absorbed(left@));
            assert(out@ + skirts_absorbed(left@) =~= before + skirts_absorbed(rest@));
        }
        rest = left;
    }
    assert(out@ + Seq::<SweepCluster>::empty() =~= out@);
    out
}

/// The transmitters that the hits of a sweep belong to.
pub fn cluster_hits(hits: &Vec<SweepHit>) -> (cs: Vec<SweepCluster>)
    ensures
        cs@ == skirts_absorbed(clustered(strongest_first(hits@))),
{
    let ranked_hits: Vec<SweepHit> = sort_strongest_first(hits);
    let formed: Vec<SweepCluster> = form_clusters(&ranked_hits);
    absorb_skirts(&formed)
}

/// Strongest first.
pub open spec fn descending(s: Seq<SweepHit>) -> bool {
    forall|i: int, j: int|
        0 <= i <= j < s.len() ==> (#[trigger] s[i]).energy >= (#[trigger] s[j]).energy
}

proof fn lemma_rank_bounds(s: Seq<SweepHit>, e: i64)
    requires
        descending(s),
    ensures
        0 <= rank_of(s, e) <= s.len(),
        forall|k: int| 0 <= k < rank_of(s, e) ==> (#[trigger] s[k]).energy >= e,
        forall|k: int| rank_of(s, e) <= k < s.len() ==> (#[trigger] s[k]).energy < e,
    decreases s.len(),
{
    if s.len() > 0 && s.last().energy < e {
        let front = s.drop_last();
        assert forall|i: int, j: int| 0 <= i <= j < front.len() implies (#[trigger] front[i]).energy
            >= (#[trigger] front[j]).energy by {
            assert(s[i].energy >= s[j].energy);
        }
        lemma_rank_bounds(front, e);
        assert forall|k: int| rank_of(s, e) <= k < s.len() implies (#[trigger] s[k]).energy < e by {
            if k < front.len() {
                assert(front[k].energy < e);
            }
        }
        assert forall|k: int| 0 <= k < rank_of(s, e) implies (#[trigger] s[k]).energy >= e by {
            assert(front[k].energy >= e);
        }
    } else if s.len() > 0 {
        assert forall|k: int| 0 <= k < s.len() implies (#[trigger] s[k]).energy >= e by {
            assert(s[k].energy >= s[s.len() - 1].energy);
        }
    }
}

/// Ranking puts the hits in descending order and keeps every one.
pub proof fn law_ranking_orders_hits(s: Seq<SweepHit>)
    ensures
        descending(strongest_first(s)),
        strongest_first(s).to_multiset() == s.to_multiset(),
    decreases s.len(),
{
    broadcast use vstd::seq_lib::group_to_multiset_ensures;

    if s.len() > 0 {
        let front = s.drop_last();
        law_ranking_orders_hits(front);
        let t = strongest_first(front);
        let h = s.last();
        let at = rank_of(t, h.energy);
        lemma_rank_bounds(t, h.energy);
        let out = t.insert(at, h);
        assert forall|i: int, j: int| 0 <= i <= j < out.len() implies (#[trigger] out[i]).energy
            >= (#[trigger] out[j]).energy by {
            let a = if i < at {
                t[i]
            } else if i == at {
                h
            } else {
                t[i - 1]
            };
            let b = if j < at {
                t[j]
            } else if j == at {
                h
            } else {
                t[j - 1]
            };
            assert(out[i] == a && out[j] == b);
        }
        assert(out.to_multiset() =~= t.to_multiset().insert(h));
        assert(s =~= front.push(h));
    } else {
        assert(strongest_first(s) =~= s);
    }
}

proof fn lemma_cluster_around(cs: Seq<SweepCluster>, offset: i64)
    ensures
        cluster_around(cs, offset) matches Some(i) ==> 0 <= i < cs.len() && within(
            offset,
            cs[i].anchor_half_hz,
            CLUSTER_REACH,
        ),
        cluster_around(cs, offset) is None ==> forall|k: int|
            0 <= k < cs.len() ==> !within(offset, (#[trigger] cs[k]).anchor_half_hz, CLUSTER_REACH),
    decreases cs.len(),
{
    if cs.len() > 0 {
        let front = cs.drop_last();
        lemma_cluster_around(front, offset);
        if cluster_around(cs, offset) is None {
            assert forall|k: int| 0 <= k < cs.len() implies !within(
                offset,
                (#[trigger] cs[k]).anchor_half_hz,
                CLUSTER_REACH,
            ) by {
                if k < front.len() {
                    assert(!within(offset, front[k].anchor_half_hz, CLUSTER_REACH));
                }
            }
        }
    }
}

/// Clusters are centred at least 12.5 MHz apart: hits along a band never
/// chain into one.
pub proof fn law_clusters_are_apart(hits: Seq<SweepHit>)
    ensures
        forall|i: int, j: int|
            0 <= i < j < clustered(hits).len() ==> !within(
                (#[trigger] clustered(hits)[j]).anchor_half_hz,
                (#[trigger] clustered(hits)[i]).anchor_half_hz,
                CLUSTER_REACH,
            ),
    decreases hits.len(),
{
    if hits.len() > 0 {
        let cs = clustered(hits.drop_last());
        let out = clustered(hits);
        let h = hits.last();
        law_clusters_are_apart(hits.drop_last());
        lemma_cluster_around(cs, h.offset_half_hz);
        assert forall|i: int, j: int| 0 <= i < j < out.len() implies !within(
            (#[trigger] out[j]).anchor_half_hz,
            (#[trigger] out[i]).anchor_half_hz,
            CLUSTER_REACH,
        ) by {
            if j < cs.len() {
                assert(out[i].anchor_half_hz == cs[i].anchor_half_hz);
                assert(out[j].anchor_half_hz == cs[j].anchor_half_hz);
                assert(!within(cs[j].anchor_half_hz, cs[i].anchor_half_hz, CLUSTER_REACH));
            } else {
                assert(out[j].anchor_half_hz == h.offset_half_hz);
                assert(out[i] == cs[i]);
                assert(!within(h.offset_half_hz, cs[i].anchor_half_hz, CLUSTER_REACH));
            }
        }
    }
}

/// Whether a cluster takes a hit in: the hit lies around it, and is neither
/// more confident nor stronger.
pub open spec fn takes_in(c: SweepCluster, h: SweepHit) -> bool {
    &&& within(h.offset_half_hz, c.anchor_half_hz, CLUSTER_REACH)
    &&& c.confidence >= h.confidence
    &&& c.energy >= h.energy
}

/// Of hits taken strongest first, each ends in a cluster around it whose
/// energy and confidence are at least its own.
pub proof fn law_every_hit_is_in_a_cluster(hits: Seq<SweepHit>, i: int)
    requires
        descending(hits),
        0 <= i < hits.len(),
    ensures
        exists|k: int| 0 <= k < clustered(hits).len() && takes_in(#[trigger] clustered(hits)[k], hits[i]),
{
    let k = lemma_cluster_of_hit(hits, i);
    assert(takes_in(clustered(hits)[k], hits[i]));
}

proof fn lemma_cluster_of_hit(hits: Seq<SweepHit>, i: int) -> (k: int)
    requires
        descending(hits),
        0 <= i < hits.len(),
    ensures
        0 <= k < clustered(hits).len(),
        takes_in(clustered(hits)[k], hits[i]),
    decreases hits.len(),
{
    let front = hits.drop_last();
    let cs = clustered(front);
    let h = hits.last();
    assert forall|a: int, b: int| 0 <= a <= b < front.len() implies (#[trigger] front[a]).energy
        >= (#[trigger] front[b]).energy by {
        assert(hits[a].energy >= hits[b].energy);
    }
    lemma_cluster_around(cs, h.offset_half_hz);
    if i < front.len() {
        let k = lemma_cluster_of_hit(front, i);
        assert(front[i] == hits[i]);
        k
    } else {
        match cluster_around(cs, h.offset_half_hz) {
            Some(at) => {
                lemma_cluster_energy(front, at);
                let first = choose|m: int|
                    0 <= m < front.len() && (#[trigger] front[m]).energy == cs[at].energy;
                assert(hits[first].energy >= hits[hits.len() - 1].energy);
                at
            },
            None => cs.len() as int,
        }
    }
}

/// A cluster's energy is that of one of the hits.
proof fn lemma_cluster_energy(hits: Seq<SweepHit>, k: int)
    requires
        0 <= k < clustered(hits).len(),
    ensures
        exists|m: int| 0 <= m < hits.len() && (#[trigger] hits[m]).energy == clustered(hits)[k].energy,
    decreases hits.len(),
{
    let front = hits.drop_last();
    let cs = clustered(front);
    lemma_cluster_around(cs, hits.last().offset_half_hz);
    if k < cs.len() {
        lemma_cluster_energy(front, k);
        let m = choose|m: int| 0 <= m < front.len() && (#[trigger] front[m]).energy == cs[k].energy;
        assert(hits[m].energy == clustered(hits)[k].energy);
    } else {
        assert(hits[hits.len() - 1].energy == clustered(hits)[k].energy);
    }
}

proof fn lemma_no_skirts(c: SweepCluster, rest: Seq<SweepCluster>)
    requires
        forall|k: int| 0 <= k < rest.len() ==> !is_skirt(#[trigger] rest[k], c),
    ensures
        with_skirts(c, rest) == c,
        beyond(c, rest) == rest,
    decreases rest.len(),
{
    reveal(Seq::filter);
    if rest.len() > 0 {
        let front = rest.drop_last();
        assert forall|k: int| 0 <= k < front.len() implies !is_skirt(#[trigger] front[k], c) by {
            assert(!is_skirt(rest[k], c));
        }
        lemma_no_skirts(c, front);
        assert(!is_skirt(rest[rest.len() - 1], c));
        assert(beyond(c, rest) =~= rest);
    } else {
        assert(beyond(c, rest) =~= rest);
    }
}

/// Transmitters that are further apart than the video bandwidth, or less
/// than 20 dB apart in strength, all stay.
pub proof fn law_comparable_transmitters_stay_apart(cs: Seq<SweepCluster>)
    requires
        forall|i: int, j: int|
            0 <= i < j < cs.len() ==> !is_skirt(#[trigger] cs[j], #[trigger] cs[i]),
    ensures
        skirts_absorbed(cs) == cs,
    decreases cs.len(),
{
    if cs.len() > 0 {
        let rest = cs.drop_first();
        assert forall|k: int| 0 <= k < rest.len() implies !is_skirt(#[trigger] rest[k], cs[0]) by {
            assert(!is_skirt(cs[k + 1], cs[0]));
        }
        lemma_no_skirts(cs[0], rest);
        assert forall|i: int, j: int| 0 <= i < j < rest.len() implies !is_skirt(
            #[trigger] rest[j],
            #[trigger] rest[i],
        ) by {
            assert(!is_skirt(cs[j + 1], cs[i + 1]));
        }
        law_comparable_transmitters_stay_apart(rest);
        assert(skirts_absorbed(cs) == seq![cs[0]] + rest);
        lemma_first_and_rest(cs);
    } else {
        assert(skirts_absorbed(cs) =~= cs);
    }
}

proof fn lemma_first_and_rest(cs: Seq<SweepCluster>)
    requires
        cs.len() > 0,
    ensures
        seq![cs[0]] + cs.drop_first() == cs,
{
    assert(seq![cs[0]] + cs.drop_first() =~= cs);
}

proof fn lemma_with_skirts_keeps(c: SweepCluster, rest: Seq<SweepCluster>)
    ensures
        with_skirts(c, rest).anchor_half_hz == c.anchor_half_hz,
        with_skirts(c, rest).energy == c.energy,
        with_skirts(c, rest).confidence >= c.confidence,
        forall|k: int|
            0 <= k < rest.len() && is_skirt(#[trigger] rest[k], c) ==> with_skirts(
                c,
                rest,
            ).confidence >= rest[k].confidence,
    decreases rest.len(),
{
    if rest.len() > 0 {
        let front = rest.drop_last();
        lemma_with_skirts_keeps(c, front);
        assert forall|k: int| 0 <= k < rest.len() && is_skirt(#[trigger] rest[k], c) implies
            with_skirts(c, rest).confidence >= rest[k].confidence by {
            if k < front.len() {
                assert(is_skirt(front[k], c));
            }
        }
    }
}

/// Whether `d` is `c` itself or a skirt of it, and `c` is as confident.
pub open spec fn stands_for(c: SweepCluster, d: SweepCluster) -> bool {
    &&& c.confidence >= d.confidence
    &&& (c.anchor_half_hz == d.anchor_half_hz && c.energy == d.energy) || is_skirt(d, c)
}

/// No confidence is lost with a skirt: each cluster is still there, or is the
/// skirt of one that is, which is then at least as confident.
pub proof fn law_skirts_are_folded_in(cs: Seq<SweepCluster>, i: int)
    requires
        0 <= i < cs.len(),
    ensures
        exists|k: int|
            0 <= k < skirts_absorbed(cs).len() && stands_for(
                #[trigger] skirts_absorbed(cs)[k],
                cs[i],
            ),
    decreases cs.len(),
{
    let c = cs[0];
    let rest = cs.drop_first();
    let out = skirts_absorbed(cs);
    let keep = |d: SweepCluster| !is_skirt(d, c);
    lemma_with_skirts_keeps(c, rest);
    let tail = skirts_absorbed(beyond(c, rest));
    assert(out[0] == with_skirts(c, rest));
    if i == 0 {
        assert(stands_for(out[0], cs[i]));
    } else if is_skirt(cs[i], c) {
        assert(rest[i - 1] == cs[i]);
        assert(stands_for(out[0], cs[i]));
    } else {
        assert(rest[i - 1] == cs[i]);
        rest.lemma_filter_contains(keep, i - 1);
        rest.lemma_filter_len(keep);
        let m = beyond(c, rest).index_of(cs[i]);
        law_skirts_are_folded_in(beyond(c, rest), m);
        let k = choose|k: int| 0 <= k < tail.len() && stands_for(#[trigger] tail[k], cs[i]);
        assert(out[k + 1] == tail[k]);
    }
}

/// Whether what holds of every class that probes show holds of a cluster's.
pub open spec fn has_class(c: SweepCluster, p: spec_fn(SignalType, u32) -> bool) -> bool {
    p(c.kind, c.confidence)
}

proof fn lemma_hits_have_class(
    offsets: Seq<i64>,
    energies: Seq<i64>,
    classes: Seq<(SignalType, u32)>,
    p: spec_fn(SignalType, u32) -> bool,
)
    requires
        offsets.len() <= classes.len(),
        forall|i: int|
            0 <= i < classes.len() && (#[trigger] classes[i]).0 != SignalType::Unknown ==> p(
                classes[i].0,
                classes[i].1,
            ),
    ensures
        ({
            let hits = hits_of(offsets, energies, classes);
            forall|k: int|
                0 <= k < hits.len() ==> p((#[trigger] hits[k]).kind, hits[k].confidence)
        }),
    decreases offsets.len(),
{
    if offsets.len() > 0 {
        lemma_hits_have_class(offsets.drop_last(), energies, classes, p);
        assert(classes[offsets.len() - 1].0 != SignalType::Unknown ==> p(
            classes[offsets.len() - 1].0,
            classes[offsets.len() - 1].1,
        ));
    }
}

proof fn lemma_ranked_hits_have_class(s: Seq<SweepHit>, p: spec_fn(SignalType, u32) -> bool)
    requires
        forall|k: int| 0 <= k < s.len() ==> p((#[trigger] s[k]).kind, s[k].confidence),
    ensures
        ({
            let out = strongest_first(s);
            forall|k: int| 0 <= k < out.len() ==> p((#[trigger] out[k]).kind, out[k].confidence)
        }),
    decreases s.len(),
{
    if s.len() > 0 {
        let front = s.drop_last();
        assert forall|k: int| 0 <= k < front.len() implies p(
            (#[trigger] front[k]).kind,
            front[k].confidence,
        ) by {
            assert(front[k] == s[k]);
        }
        lemma_ranked_hits_have_class(front, p);
        law_ranking_orders_hits(front);
        let t = strongest_first(front);
        let h = s[s.len() - 1];
        let at = rank_of(t, h.energy);
        lemma_rank_bounds(t, h.energy);
        let out = strongest_first(s);
        assert(out == t.insert(at, h));
        assert forall|k: int| 0 <= k < out.len() implies p(
            (#[trigger] out[k]).kind,
            out[k].confidence,
        ) by {
            let from = if k < at {
                t[k]
            } else if k == at {
                h
            } else {
                t[k - 1]
            };
            assert(out[k] == from);
        }
    }
}

proof fn lemma_clusters_have_class(hits: Seq<SweepHit>, p: spec_fn(SignalType, u32) -> bool)
    requires
        forall|k: int| 0 <= k < hits.len() ==> p((#[trigger] hits[k]).kind, hits[k].confidence),
    ensures
        forall|k: int| 0 <= k < clustered(hits).len() ==> has_class(#[trigger] clustered(hits)[k], p),
    decreases hits.len(),
{
    if hits.len() > 0 {
        let front = hits.drop_last();
        assert forall|k: int| 0 <= k < front.len() implies p(
            (#[trigger] front[k]).kind,
            front[k].confidence,
        ) by {
            assert(front[k] == hits[k]);
        }
        lemma_clusters_have_class(front, p);
        let h = hits[hits.len() - 1];
        lemma_cluster_around(clustered(front), h.offset_half_hz);
        assert(p(h.kind, h.confidence));
    }
}

proof fn lemma_skirted_has_class(
    c: SweepCluster,
    rest: Seq<SweepCluster>,
    p: spec_fn(SignalType, u32) -> bool,
)
    requires
        has_class(c, p),
        forall|k: int| 0 <= k < rest.len() ==> has_class(#[trigger] rest[k], p),
    ensures
        has_class(with_skirts(c, rest), p),
    decreases rest.len(),
{
    if rest.len() > 0 {
        let front = rest.drop_last();
        assert forall|k: int| 0 <= k < front.len() implies has_class(#[trigger] front[k], p) by {
            assert(front[k] == rest[k]);
        }
        lemma_skirted_has_class(c, front, p);
        assert(has_class(rest[rest.len() - 1], p));
    }
}

proof fn lemma_absorbed_have_class(cs: Seq<SweepCluster>, p: spec_fn(SignalType, u32) -> bool)
    requires
        forall|k: int| 0 <= k < cs.len() ==> has_class(#[trigger] cs[k], p),
    ensures
        ({
            let out = skirts_absorbed(cs);
            forall|k: int| 0 <= k < out.len() ==> has_class(#[trigger] out[k], p)
        }),
    decreases cs.len(),
{
    if cs.len() > 0 {
        let c = cs[0];
        let rest = cs.drop_first();
        let keep = |d: SweepCluster| !is_skirt(d, c);
        assert forall|k: int| 0 <= k < rest.len() implies has_class(#[trigger] rest[k], p) by {
            assert(rest[k] == cs[k + 1]);
        }
        lemma_skirted_has_class(c, rest, p);
        let others = beyond(c, rest);
        rest.lemma_filter_len(keep);
        assert forall|k: int| 0 <= k < others.len() implies has_class(#[trigger] others[k], p) by {
            rest.lemma_filter_contains_rev(keep, others[k]);
            let i = rest.index_of(others[k]);
            assert(rest[i] == others[k]);
        }
        lemma_absorbed_have_class(others, p);
        let tail = skirts_absorbed(others);
        let out = skirts_absorbed(cs);
        assert(out == seq![with_skirts(c, rest)] + tail);
        assert forall|k: int| 0 <= k < out.len() implies has_class(#[trigger] out[k], p) by {
            if k > 0 {
                assert(out[k] == tail[k - 1]);
            }
        }
    }
}

/// A transmitter's class is one that a probe showed: what holds of all of
/// those holds of it.
pub proof fn law_transmitters_have_probed_classes(
    offsets: Seq<i64>,
    energies: Seq<i64>,
    classes: Seq<(SignalType, u32)>,
    p: spec_fn(SignalType, u32) -> bool,
)
    requires
        offsets.len() <= classes.len(),
        forall|i: int|
            0 <= i < classes.len() && (#[trigger] classes[i]).0 != SignalType::Unknown ==> p(
                classes[i].0,
                classes[i].1,
            ),
    ensures
        ({
            let hits = hits_of(offsets, energies, classes);
            let cs = skirts_absorbed(clustered(strongest_first(hits)));
            forall|k: int| 0 <= k < cs.len() ==> has_class(#[trigger] cs[k], p)
        }),
{
    let hits = hits_of(offsets, energies, classes);
    lemma_hits_have_class(offsets, energies, classes, p);
    lemma_ranked_hits_have_class(hits, p);
    lemma_clusters_have_class(strongest_first(hits), p);
    lemma_absorbed_have_class(clustered(strongest_first(hits)), p);
}

/// A capture of fewer than 2048 samples is not searched. One at 22.5 MHz or
/// more is searched by a grid, the others as one slice.
pub proof fn law_wide_captures_are_swept(n: int, sample_rate: int)
    requires
        0 <= sample_rate <= u32::MAX,
    ensures
        strategy_for(n, sample_rate) == SweepStrategy::Nothing <==> n < 2_048,
        strategy_for(n, sample_rate) is Sweep <==> n >= 2_048 && sample_rate >= 22_500_000,
        strategy_for(n, sample_rate) matches SweepStrategy::Sweep(k) ==> k == probe_count(
            sample_rate,
        ),
{
    let num = sample_rate - 10_000_000;
    let q = (2 * num + 5_000_000) / 10_000_000;
    assert(probe_count(sample_rate) == q + 1);
    assert(q >= 3 <==> sample_rate >= 22_500_000);
}

/// Probes are 5 MHz apart, the first is 5 MHz above the lower edge of the
/// capture, and the last lies within 2.5 MHz of 5 MHz below the upper edge.
pub proof fn law_probes_are_evenly_spaced(sample_rate: int, k: int)
    requires
        sample_rate >= 10_000_000,
    ensures
        probe_offset(sample_rate, k + 1) - probe_offset(sample_rate, k) == 2 * 5_000_000,
        probe_offset(sample_rate, 0) == -sample_rate + 2 * 5_000_000,
        ({
            let last = probe_offset(sample_rate, probe_count(sample_rate) - 1);
            -5_000_000 <= last - (sample_rate - 2 * 5_000_000) <= 5_000_000
        }),
{
}

/// The energy gate is set by the power that no more than a quarter of the probes lie
/// below and more than a quarter reach at most: where that is positive, a
/// probe must exceed it by the configured ratio; where it is not, a probe
/// must have more than half of the strongest one's power.
pub proof fn law_gate_is_set_by_the_quiet_probes(
    energies: Seq<i64>,
    energy_ratio: int,
    floor: int,
    i: int,
)
    requires
        energies.len() > 0,
        0 <= i < energies.len(),
        energies.filter(|e: i64| e < floor).len() <= energies.len() / 4,
        energies.filter(|e: i64| e <= floor).len() > energies.len() / 4,
    ensures
        floor > 0 ==> (clears_gate(energies, energy_ratio, i) <==> energies[i] * 1_000_000 > floor
            * energy_ratio),
        floor <= 0 && clears_gate(energies, energy_ratio, i) ==> forall|k: int|
            0 <= k < energies.len() ==> 2 * energies[i] > #[trigger] energies[k],
        floor <= 0 && energies[i] > 0 && (forall|k: int|
            0 <= k < energies.len() ==> 2 * energies[i] > #[trigger] energies[k]) ==> clears_gate(
            energies,
            energy_ratio,
            i,
        ),
{
    law_counts_tell_the_rank(energies, energies.len() as int / 4, floor);
    lemma_largest_bounds(energies, energies.len() - 1);
}

proof fn lemma_largest_bounds(s: Seq<i64>, hi: int)
    requires
        hi < s.len(),
    ensures
        largest(s, 0, hi) >= 0,
        forall|k: int| 0 <= k <= hi ==> #[trigger] s[k] <= largest(s, 0, hi),
        largest(s, 0, hi) > 0 ==> exists|k: int|
            0 <= k <= hi && #[trigger] s[k] == largest(s, 0, hi),
    decreases hi + 1,
{
    if hi >= 0 {
        lemma_largest_bounds(s, hi - 1);
        if largest(s, 0, hi) > 0 && s[hi] < largest(s, 0, hi) {
            let k = choose|k: int| 0 <= k <= hi - 1 && #[trigger] s[k] == largest(s, 0, hi - 1);
            assert(s[k] == largest(s, 0, hi));
        }
    }
}

/// A probe that shows nothing gives no hit; any other gives one, with its own
/// offset, power and class, after those of the probes before it.
pub proof fn law_probes_give_hits(
    offsets: Seq<i64>,
    energies: Seq<i64>,
    classes: Seq<(SignalType, u32)>,
    n: int,
)
    requires
        0 <= n < offsets.len(),
        offsets.len() == energies.len() == classes.len(),
    ensures
        ({
            let before = hits_of(offsets.take(n), energies, classes);
            let with = hits_of(offsets.take(n + 1), energies, classes);
            let report = probe_report(offsets, energies, classes)[n];
            &&& classes[n].0 == SignalType::Unknown ==> with == before && report.confidence == 0
            &&& classes[n].0 != SignalType::Unknown ==> with.len() == before.len() + 1
                && with.drop_last() == before && with.last() == (SweepHit {
                offset_half_hz: offsets[n],
                energy: energies[n],
                kind: classes[n].0,
                confidence: classes[n].1,
            }) && report.confidence == classes[n].1
            &&& report.offset_half_hz == offsets[n] && report.energy == energies[n]
        }),
{
    assert(offsets.take(n + 1).drop_last() =~= offsets.take(n));
    let before = hits_of(offsets.take(n), energies, classes);
    let hit = SweepHit {
        offset_half_hz: offsets[n],
        energy: energies[n],
        kind: classes[n].0,
        confidence: classes[n].1,
    };
    assert(before.push(hit).drop_last() =~= before);
}

/// Hits of one power keep their order when they are ranked.
pub proof fn law_ranking_keeps_the_order_of_equals(s: Seq<SweepHit>, energy: i64)
    ensures
        strongest_first(s).filter(|h: SweepHit| h.energy == energy) == s.filter(
            |h: SweepHit| h.energy == energy,
        ),
    decreases s.len(),
{
    reveal(Seq::filter);
    let same = |h: SweepHit| h.energy == energy;
    if s.len() > 0 {
        let rest = s.drop_last();
        let x = s.last();
        law_ranking_keeps_the_order_of_equals(rest, energy);
        law_ranking_orders_hits(rest);
        let front = strongest_first(rest);
        let r = rank_of(front, x.energy);
        lemma_rank_bounds(front, x.energy);
        lemma_filter_inserted(front, r, x, same);
        if same(x) {
            lemma_none_after(front, r, same);
        }
    }
}

proof fn lemma_filter_inserted(
    s: Seq<SweepHit>,
    at: int,
    x: SweepHit,
    keep: spec_fn(SweepHit) -> bool,
)
    requires
        0 <= at <= s.len(),
    ensures
        s.insert(at, x).filter(keep) == s.take(at).filter(keep) + (if keep(x) {
            seq![x]
        } else {
            Seq::empty()
        }) + s.skip(at).filter(keep),
        s.filter(keep) == s.take(at).filter(keep) + s.skip(at).filter(keep),
{
    let a = s.take(at);
    let b = s.skip(at);
    assert(s.insert(at, x) =~= a + seq![x] + b);
    assert(s =~= a + b);
    Seq::filter_distributes_over_add(a + seq![x], b, keep);
    Seq::filter_distributes_over_add(a, seq![x], keep);
    Seq::filter_distributes_over_add(a, b, keep);
    reveal(Seq::filter);
    let one = seq![x];
    let none = Seq::<SweepHit>::empty();
    assert(one.drop_last() =~= none);
    none.lemma_filter_len(keep);
    assert(one.last() == x);
    assert(one.filter(keep) == if keep(x) {
        none.filter(keep).push(x)
    } else {
        none.filter(keep)
    });
    assert(one.filter(keep) =~= if keep(x) {
        seq![x]
    } else {
        Seq::<SweepHit>::empty()
    });
}

proof fn lemma_none_after(s: Seq<SweepHit>, at: int, keep: spec_fn(SweepHit) -> bool)
    requires
        0 <= at <= s.len(),
        forall|k: int| at <= k < s.len() ==> !keep(#[trigger] s[k]),
    ensures
        s.skip(at).filter(keep).len() == 0,
{
    let tail = s.skip(at);
    if tail.filter(keep).len() > 0 {
        tail.lemma_filter_pred(keep, 0);
        tail.lemma_filter_contains_rev(keep, tail.filter(keep)[0]);
        let k = choose|k: int| 0 <= k < tail.len() && tail[k] == tail.filter(keep)[0];
        assert(tail[k] == s[at + k]);
    }
}

/// A cluster is 12.5 MHz in reach. A skirt lies less than 25 MHz off and has
/// less than a hundredth of the power.
pub proof fn law_reaches_of_a_transmitter(a: i64, b: i64, d: SweepCluster, c: SweepCluster)
    ensures
        within(a, b, CLUSTER_REACH) <==> -2 * 12_500_000 < a - b < 2 * 12_500_000,
        is_skirt(d, c) ==> d.energy * 100 < c.energy && -50_000_000 < d.anchor_half_hz
            - c.anchor_half_hz < 50_000_000,
        d.energy * 100 < c.energy && -50_000_000 < d.anchor_half_hz - c.anchor_half_hz < 50_000_000
            ==> is_skirt(d, c),
{
}

/// A cluster is centred on a hit and has its power: that of the first, and so
/// the strongest, hit in it.
pub proof fn law_clusters_are_centred_on_hits(hits: Seq<SweepHit>, k: int)
    requires
        0 <= k < clustered(hits).len(),
    ensures
        exists|i: int|
            0 <= i < hits.len() && (#[trigger] hits[i]).offset_half_hz == clustered(
                hits,
            )[k].anchor_half_hz && hits[i].energy == clustered(hits)[k].energy,
    decreases hits.len(),
{
    if hits.len() > 0 {
        let rest = hits.drop_last();
        let cs = clustered(rest);
        let h = hits.last();
        lemma_cluster_around(cs, h.offset_half_hz);
        if k < cs.len() {
            law_clusters_are_centred_on_hits(rest, k);
            let i = choose|i: int|
                0 <= i < rest.len() && (#[trigger] rest[i]).offset_half_hz == cs[k].anchor_half_hz
                    && rest[i].energy == cs[k].energy;
            assert(hits[i] == rest[i]);
        } else {
            assert(hits[hits.len() - 1] == h);
        }
    }
}

/// A cluster's class is that of one of the hits in its reach.
pub proof fn law_clusters_have_the_class_of_a_hit(hits: Seq<SweepHit>, k: int)
    requires
        0 <= k < clustered(hits).len(),
    ensures
        exists|i: int|
            0 <= i < hits.len() && (#[trigger] hits[i]).kind == clustered(hits)[k].kind
                && hits[i].confidence == clustered(hits)[k].confidence && within(
                hits[i].offset_half_hz,
                clustered(hits)[k].anchor_half_hz,
                CLUSTER_REACH,
            ),
    decreases hits.len(),
{
    if hits.len() > 0 {
        let rest = hits.drop_last();
        let cs = clustered(rest);
        let h = hits.last();
        let all = clustered(hits);
        lemma_cluster_around(cs, h.offset_half_hz);
        assert(hits[hits.len() - 1] == h);
        if k < cs.len() {
            law_clusters_have_the_class_of_a_hit(rest, k);
            let i = choose|i: int|
                0 <= i < rest.len() && (#[trigger] rest[i]).kind == cs[k].kind
                    && rest[i].confidence == cs[k].confidence && within(
                    rest[i].offset_half_hz,
                    cs[k].anchor_half_hz,
                    CLUSTER_REACH,
                );
            assert(hits[i] == rest[i]);
        }
    }
}

/// No skirt is left over: of the clusters that stay, none is the skirt of one
/// before it.
pub proof fn law_no_skirt_is_left_over(cs: Seq<SweepCluster>, i: int, j: int)
    requires
        0 <= i < j < skirts_absorbed(cs).len(),
    ensures
        !is_skirt(skirts_absorbed(cs)[j], skirts_absorbed(cs)[i]),
    decreases cs.len(),
{
    if cs.len() > 0 {
        let rest = cs.drop_first();
        let tail = skirts_absorbed(beyond(cs[0], rest));
        let all = skirts_absorbed(cs);
        rest.lemma_filter_len(|d: SweepCluster| !is_skirt(d, cs[0]));
        assert(all[j] == tail[j - 1]);
        if i > 0 {
            assert(all[i] == tail[i - 1]);
            law_no_skirt_is_left_over(beyond(cs[0], rest), i - 1, j - 1);
        } else {
            lemma_with_skirts_keeps(cs[0], rest);
            lemma_absorbed_from(beyond(cs[0], rest), j - 1);
            let b = beyond(cs[0], rest);
            let m = choose|m: int|
                0 <= m < b.len() && (#[trigger] b[m]).anchor_half_hz == tail[j - 1].anchor_half_hz
                    && b[m].energy == tail[j - 1].energy;
            rest.lemma_filter_pred(|d: SweepCluster| !is_skirt(d, cs[0]), m);
        }
    }
}

proof fn lemma_absorbed_from(cs: Seq<SweepCluster>, k: int)
    requires
        0 <= k < skirts_absorbed(cs).len(),
    ensures
        exists|m: int|
            0 <= m < cs.len() && (#[trigger] cs[m]).anchor_half_hz == skirts_absorbed(
                cs,
            )[k].anchor_half_hz && cs[m].energy == skirts_absorbed(cs)[k].energy,
    decreases cs.len(),
{
    if cs.len() > 0 {
        let rest = cs.drop_first();
        let keep = |d: SweepCluster| !is_skirt(d, cs[0]);
        let b = beyond(cs[0], rest);
        let tail = skirts_absorbed(b);
        rest.lemma_filter_len(keep);
        lemma_with_skirts_keeps(cs[0], rest);
        if k == 0 {
            assert(cs[0].anchor_half_hz == skirts_absorbed(cs)[0].anchor_half_hz);
        } else {
            assert(skirts_absorbed(cs)[k] == tail[k - 1]);
            lemma_absorbed_from(b, k - 1);
            let m = choose|m: int|
                0 <= m < b.len() && (#[trigger] b[m]).anchor_half_hz == tail[k - 1].anchor_half_hz
                    && b[m].energy == tail[k - 1].energy;
            rest.lemma_filter_contains_rev(keep, b[m]);
            let j = choose|j: int| 0 <= j < rest.len() && rest[j] == b[m];
            assert(cs[j + 1] == rest[j]);
        }
    }
}

/// Two hits are of one transmitter where they are less than 12.5 MHz apart.
/// The first is then its centre, and the class is the first one's too unless
/// the second is more confident; otherwise both are transmitters.
pub proof fn law_near_hits_are_one_transmitter(a: SweepHit, b: SweepHit)
    ensures
        ({
            let cs = clustered(seq![a, b]);
            let near = -25_000_000 < b.offset_half_hz - a.offset_half_hz < 25_000_000;
            let class = if b.confidence > a.confidence {
                b
            } else {
                a
            };
            &&& near ==> cs == seq![
                SweepCluster {
                    anchor_half_hz: a.offset_half_hz,
                    energy: a.energy,
                    kind: class.kind,
                    confidence: class.confidence,
                },
            ]
            &&& !near ==> cs.len() == 2 && cs[0].anchor_half_hz == a.offset_half_hz
                && cs[1].anchor_half_hz == b.offset_half_hz && cs[0].kind == a.kind && cs[1].kind
                == b.kind
        }),
{
    let two = seq![a, b];
    let one = two.drop_last();
    let c = SweepCluster {
        anchor_half_hz: a.offset_half_hz,
        energy: a.energy,
        kind: a.kind,
        confidence: a.confidence,
    };
    reveal_with_fuel(clustered, 3);
    reveal_with_fuel(cluster_around, 3);
    assert(one.drop_last() =~= Seq::<SweepHit>::empty());
    assert(clustered(one) =~= seq![c]);
    assert(seq![c].drop_last() =~= Seq::<SweepCluster>::empty());
    let cs = clustered(two);
    if -25_000_000 < b.offset_half_hz - a.offset_half_hz < 25_000_000 {
        assert(cluster_around(seq![c], b.offset_half_hz) == Some(0int));
        assert(cs =~= seq![
            SweepCluster {
                kind: if b.confidence > a.confidence {
                    b.kind
                } else {
                    a.kind
                },
                confidence: if b.confidence > a.confidence {
                    b.confidence
                } else {
                    a.confidence
                },
                ..c
            },
        ]);
    } else {
        assert(cluster_around(seq![c], b.offset_half_hz) is None);
    }
}

/// A transmitter takes over the class of a skirt only where that is more
/// confident; its place and power stay its own.
pub proof fn law_skirts_lend_only_more_confidence(c: SweepCluster, rest: Seq<SweepCluster>)
    ensures
        with_skirts(c, rest).anchor_half_hz == c.anchor_half_hz,
        with_skirts(c, rest).energy == c.energy,
        with_skirts(c, rest).confidence >= c.confidence,
        (forall|k: int|
            0 <= k < rest.len() && is_skirt(#[trigger] rest[k], c) ==> rest[k].confidence
                <= c.confidence) ==> with_skirts(c, rest) == c,
        with_skirts(c, rest).confidence > c.confidence ==> exists|k: int|
            0 <= k < rest.len() && is_skirt(#[trigger] rest[k], c) && rest[k].kind == with_skirts(
                c,
                rest,
            ).kind && rest[k].confidence == with_skirts(c, rest).confidence,
    decreases rest.len(),
{
    lemma_with_skirts_keeps(c, rest);
    if rest.len() > 0 {
        let front = rest.drop_last();
        law_skirts_lend_only_more_confidence(c, front);
        let d = rest.last();
        assert(rest[rest.len() - 1] == d);
        let own = with_skirts(c, front);
        if forall|k: int|
            0 <= k < rest.len() && is_skirt(#[trigger] rest[k], c) ==> rest[k].confidence
                <= c.confidence {
            assert forall|k: int| 0 <= k < front.len() && is_skirt(#[trigger] front[k], c) implies
                front[k].confidence <= c.confidence by {
                assert(front[k] == rest[k]);
            }
            assert(own == c);
        }
        if with_skirts(c, rest).confidence > c.confidence && with_skirts(c, rest) == own {
            let k = choose|k: int|
                0 <= k < front.len() && is_skirt(#[trigger] front[k], c) && front[k].kind
                    == own.kind && front[k].confidence == own.confidence;
            assert(rest[k] == front[k]);
        }
    }
}

} // verus!
