//! From refined candidates to the list that is reported.

use vstd::prelude::*;

use crate::detector::AnalogFpvDetector;
use crate::types::DetectionResult;

verus! {

/// Radius within which two localized carriers are the same transmitter. It
/// covers the uncertainty of localization, not the width of a channel.
pub const DEDUP_RADIUS_HZ: u64 = 2_000_000;

/// Whether one result beats another: more confident, or as confident and
/// received more strongly.
pub open spec fn beats(a: DetectionResult, b: DetectionResult) -> bool {
    a.confidence > b.confidence || (a.confidence == b.confidence && stronger(
        a.rssi_mdbm,
        b.rssi_mdbm,
    ))
}

/// Whether one received power exceeds another; what is not a number neither
/// exceeds nor is exceeded.
pub open spec fn stronger(a: Option<i32>, b: Option<i32>) -> bool {
    match (a, b) {
        (Some(x), Some(y)) => x > y,
        _ => false,
    }
}

fn is_stronger(a: Option<i32>, b: Option<i32>) -> (r: bool)
    ensures
        r == stronger(a, b),
{
    match (a, b) {
        (Some(x), Some(y)) => x > y,
        _ => false,
    }
}

/// Whether a frequency lies within the radius of an anchor.
pub open spec fn near(frequency_hz: u64, anchor_hz: u64) -> bool {
    -DEDUP_RADIUS_HZ < frequency_hz - anchor_hz < DEDUP_RADIUS_HZ
}

/// The results that stay, and the anchor of the last group. The first result
/// of a group is its anchor and remains so; results near it join the group,
/// which keeps the one that beats the others.
pub open spec fn merged(s: Seq<DetectionResult>) -> (Seq<DetectionResult>, u64)
    decreases s.len(),
{
    if s.len() == 0 {
        (Seq::empty(), 0)
    } else {
        let (kept, anchor) = merged(s.drop_last());
        let r = s.last();
        if kept.len() > 0 && near(r.frequency_hz, anchor) {
            (
                if beats(r, kept.last()) {
                    kept.update(kept.len() - 1, r)
                } else {
                    kept
                },
                anchor,
            )
        } else {
            (kept.push(r), r.frequency_hz)
        }
    }
}

/// Ascending by frequency.
pub open spec fn by_frequency(s: Seq<DetectionResult>) -> bool {
    forall|i: int, j: int|
        0 <= i <= j < s.len() ==> (#[trigger] s[i]).frequency_hz <= (#[trigger] s[j]).frequency_hz
}

/// Where a result belongs in an ascending list: after all that are not
/// higher.
pub open spec fn place_of(s: Seq<DetectionResult>, frequency_hz: u64) -> int
    decreases s.len(),
{
    if s.len() > 0 && s.last().frequency_hz > frequency_hz {
        place_of(s.drop_last(), frequency_hz)
    } else {
        s.len() as int
    }
}

/// The results in ascending order of frequency; equal ones keep their order.
pub open spec fn ordered(s: Seq<DetectionResult>) -> Seq<DetectionResult>
    decreases s.len(),
{
    if s.len() == 0 {
        Seq::empty()
    } else {
        let front = ordered(s.drop_last());
        front.insert(place_of(front, s.last().frequency_hz), s.last())
    }
}

impl AnalogFpvDetector {
    /// Whether a result is inside the configured limits.
    pub open spec fn reports(&self, r: DetectionResult) -> bool {
        self.min_bandwidth <= r.bandwidth_hz <= self.max_bandwidth && r.confidence
            >= self.min_confidence
    }

    /// The results inside the configured limits.
    pub fn retain_reportable(&self, results: &Vec<DetectionResult>) -> (out: Vec<DetectionResult>)
        ensures
            out@ == results@.filter(|r: DetectionResult| self.reports(r)),
    {
        let ghost keep = |r: DetectionResult| self.reports(r);
        let mut out: Vec<DetectionResult> = Vec::new();
        let mut i: usize = 0;
        proof {
            reveal(Seq::filter);
        }
        while i < results.len()
            invariant
                i <= results.len(),
                keep == (|r: DetectionResult| self.reports(r)),
                out@ == results@.take(i as int).filter(keep),
            decreases results.len() - i,
        {
            let r: DetectionResult = results[i];
            proof {
                reveal(Seq::filter);
                assert(results@.take(i + 1).drop_last() =~= results@.take(i as int));
            }
            if self.min_bandwidth <= r.bandwidth_hz && r.bandwidth_hz <= self.max_bandwidth
                && r.confidence >= self.min_confidence {
                out.push(r);
            }
            i += 1;
        }
        assert(results@.take(i as int) =~= results@);
        out
    }

    /// The list that is reported: in ascending order, one per transmitter,
    /// inside the configured limits.
    pub fn finish(&self, results: &Vec<DetectionResult>) -> (out: Vec<DetectionResult>)
        ensures
            out@ == merged(ordered(results@)).0.filter(|r: DetectionResult| self.reports(r)),
    {
        let sorted: Vec<DetectionResult> = sort_by_frequency(results);
        let kept: Vec<DetectionResult> = dedup_by_frequency(&sorted);
        self.retain_reportable(&kept)
    }
}

/// The results in ascending order of frequency.
pub fn sort_by_frequency(results: &Vec<DetectionResult>) -> (out: Vec<DetectionResult>)
    ensures
        out@ == ordered(results@),
{
    let mut out: Vec<DetectionResult> = Vec::new();
    let mut i: usize = 0;
    while i < results.len()
        invariant
            i <= results.len(),
            out@ == ordered(results@.take(i as int)),
        decreases results.len() - i,
    {
        let r: DetectionResult = results[i];
        let mut at: usize = out.len();
        assert(out@.take(at as int) =~= out@);
        while at > 0 && out[at - 1].frequency_hz > r.frequency_hz
            invariant
                at <= out.len(),
                place_of(out@, r.frequency_hz) == place_of(out@.take(at as int), r.frequency_hz),
            decreases at,
        {
            assert(out@.take(at as int).drop_last() =~= out@.take(at - 1));
            at -= 1;
        }
        assert(results@.take(i + 1).drop_last() =~= results@.take(i as int));
        out.insert(at, r);
        i += 1;
    }
    assert(results@.take(i as int) =~= results@);
    out
}

/// Merge results that belong to one transmitter; `results` ascend by
/// frequency.
pub fn dedup_by_frequency(results: &Vec<DetectionResult>) -> (out: Vec<DetectionResult>)
    ensures
        out@ == merged(results@).0,
{
    let mut out: Vec<DetectionResult> = Vec::new();
    let mut anchor: u64 = 0;
    let mut i: usize = 0;
    while i < results.len()
        invariant
            i <= results.len(),
            (out@, anchor) == merged(results@.take(i as int)),
        decreases results.len() - i,
    {
        let r: DetectionResult = results[i];
        assert(results@.take(i + 1).drop_last() =~= results@.take(i as int));
        let apart: u64 = if r.frequency_hz >= anchor {
            r.frequency_hz - anchor
        } else {
            anchor - r.frequency_hz
        };
        if out.len() > 0 && apart < DEDUP_RADIUS_HZ {
            let last: DetectionResult = out[out.len() - 1];
            if r.confidence > last.confidence || (r.confidence == last.confidence && is_stronger(
                r.rssi_mdbm,
                last.rssi_mdbm,
            )) {
                let end: usize = out.len() - 1;
                out.set(end, r);
            }
        } else {
            anchor = r.frequency_hz;
            out.push(r);
        }
        i += 1;
    }
    assert(results@.take(i as int) =~= results@);
    out
}

proof fn lemma_place_bounds(s: Seq<DetectionResult>, f: u64)
    requires
        by_frequency(s),
    ensures
        0 <= place_of(s, f) <= s.len(),
        forall|k: int| 0 <= k < place_of(s, f) ==> (#[trigger] s[k]).frequency_hz <= f,
        forall|k: int| place_of(s, f) <= k < s.len() ==> (#[trigger] s[k]).frequency_hz > f,
    decreases s.len(),
{
    if s.len() > 0 && s.last().frequency_hz > f {
        let front = s.drop_last();
        assert forall|i: int, j: int| 0 <= i <= j < front.len() implies (
        #[trigger] front[i]).frequency_hz <= (#[trigger] front[j]).frequency_hz by {
            assert(s[i].frequency_hz <= s[j].frequency_hz);
        }
        lemma_place_bounds(front, f);
        assert forall|k: int| place_of(s, f) <= k < s.len() implies (#[trigger] s[k]).frequency_hz
            > f by {
            if k < front.len() {
                assert(front[k].frequency_hz > f);
            }
        }
        assert forall|k: int| 0 <= k < place_of(s, f) implies (#[trigger] s[k]).frequency_hz
            <= f by {
            assert(front[k].frequency_hz <= f);
        }
    } else if s.len() > 0 {
        assert forall|k: int| 0 <= k < s.len() implies (#[trigger] s[k]).frequency_hz <= f by {
            assert(s[k].frequency_hz <= s[s.len() - 1].frequency_hz);
        }
    }
}

/// Sorting puts the results in ascending order and keeps every one.
pub proof fn law_sorting_orders(s: Seq<DetectionResult>)
    ensures
        by_frequency(ordered(s)),
        ordered(s).to_multiset() == s.to_multiset(),
    decreases s.len(),
{
    broadcast use vstd::seq_lib::group_to_multiset_ensures;

    if s.len() > 0 {
        let front = s.drop_last();
        law_sorting_orders(front);
        let t = ordered(front);
        let r = s.last();
        let at = place_of(t, r.frequency_hz);
        lemma_place_bounds(t, r.frequency_hz);
        let out = t.insert(at, r);
        assert forall|i: int, j: int| 0 <= i <= j < out.len() implies (#[trigger] out[i]).frequency_hz
            <= (#[trigger] out[j]).frequency_hz by {
            let a = if i < at {
                t[i]
            } else if i == at {
                r
            } else {
                t[i - 1]
            };
            let b = if j < at {
                t[j]
            } else if j == at {
                r
            } else {
                t[j - 1]
            };
            assert(out[i] == a && out[j] == b);
        }
        assert(out.to_multiset() =~= t.to_multiset().insert(r));
        assert(s =~= front.push(r));
    } else {
        assert(ordered(s) =~= s);
    }
}

/// The anchors of the groups that merging makes.
pub open spec fn anchors_of(s: Seq<DetectionResult>) -> Seq<u64>
    decreases s.len(),
{
    if s.len() == 0 {
        Seq::empty()
    } else {
        let (kept, anchor) = merged(s.drop_last());
        let r = s.last();
        if kept.len() > 0 && near(r.frequency_hz, anchor) {
            anchors_of(s.drop_last())
        } else {
            anchors_of(s.drop_last()).push(r.frequency_hz)
        }
    }
}

proof fn lemma_front_by_frequency(s: Seq<DetectionResult>)
    requires
        by_frequency(s),
        s.len() > 0,
    ensures
        by_frequency(s.drop_last()),
        s.len() > 1 ==> s.drop_last().last().frequency_hz <= s.last().frequency_hz,
{
    let front = s.drop_last();
    assert forall|i: int, j: int| 0 <= i <= j < front.len() implies (#[trigger] front[i]).frequency_hz
        <= (#[trigger] front[j]).frequency_hz by {
        assert(s[i].frequency_hz <= s[j].frequency_hz);
    }
    if s.len() > 1 {
        assert(s[s.len() - 2].frequency_hz <= s[s.len() - 1].frequency_hz);
    }
}

/// Merging an ascending list makes one group per anchor, and the anchors are
/// at least the radius apart, so a group never chains on.
pub proof fn law_groups_do_not_chain(s: Seq<DetectionResult>)
    requires
        by_frequency(s),
    ensures
        anchors_of(s).len() == merged(s).0.len(),
        s.len() > 0 ==> anchors_of(s).len() > 0 && anchors_of(s).last() == merged(s).1
            && anchors_of(s).last() <= s.last().frequency_hz,
        forall|j: int, k: int|
            0 <= j < k < anchors_of(s).len() ==> #[trigger] anchors_of(s)[j] + DEDUP_RADIUS_HZ
                <= #[trigger] anchors_of(s)[k],
    decreases s.len(),
{
    if s.len() > 0 {
        lemma_front_by_frequency(s);
        let front = s.drop_last();
        law_groups_do_not_chain(front);
        let a = anchors_of(front);
        let all = anchors_of(s);
        assert forall|j: int, k: int| 0 <= j < k < all.len() implies #[trigger] all[j]
            + DEDUP_RADIUS_HZ <= #[trigger] all[k] by {
            if k == a.len() {
                assert(a[a.len() - 1] == a.last());
                if j < a.len() - 1 {
                    assert(a[j] + DEDUP_RADIUS_HZ <= a[a.len() - 1]);
                }
            } else {
                assert(a[j] + DEDUP_RADIUS_HZ <= a[k]);
            }
        }
    }
}

/// Every survivor of merging was in the list, and lies less than the radius
/// above its group's anchor.
pub proof fn law_survivors_were_detected(s: Seq<DetectionResult>, k: int)
    requires
        by_frequency(s),
        0 <= k < merged(s).0.len(),
    ensures
        s.contains(merged(s).0[k]),
        anchors_of(s)[k] <= merged(s).0[k].frequency_hz < anchors_of(s)[k] + DEDUP_RADIUS_HZ,
    decreases s.len(),
{
    let front = s.drop_last();
    let kept = merged(front).0;
    let out = merged(s).0;
    lemma_front_by_frequency(s);
    law_groups_do_not_chain(front);
    assert(s[s.len() - 1] == s.last());
    if k < kept.len() {
        law_survivors_were_detected(front, k);
        let i = front.index_of(kept[k]);
        assert(s[i] == kept[k]);
    }
}

/// Whether a result fell into a group whose survivor it does not beat.
spec fn represented(s: Seq<DetectionResult>, x: DetectionResult, k: int) -> bool {
    &&& 0 <= k < merged(s).0.len()
    &&& anchors_of(s)[k] <= x.frequency_hz < anchors_of(s)[k] + DEDUP_RADIUS_HZ
    &&& !beats(x, merged(s).0[k])
}

proof fn lemma_represented(s: Seq<DetectionResult>, i: int) -> (k: int)
    requires
        by_frequency(s),
        0 <= i < s.len(),
    ensures
        represented(s, s[i], k),
    decreases s.len(),
{
    let front = s.drop_last();
    lemma_front_by_frequency(s);
    law_groups_do_not_chain(front);
    law_groups_do_not_chain(s);
    if i < front.len() {
        let k = lemma_represented(front, i);
        assert(front[i] == s[i]);
        k
    } else {
        merged(s).0.len() - 1
    }
}

/// Every result is either a survivor's equal or worse, and lies within the
/// radius of that survivor.
pub proof fn law_merged_results_are_represented(s: Seq<DetectionResult>, i: int)
    requires
        by_frequency(s),
        0 <= i < s.len(),
    ensures
        exists|k: int|
            0 <= k < merged(s).0.len() && !beats(s[i], #[trigger] merged(s).0[k]) && near(
                s[i].frequency_hz,
                merged(s).0[k].frequency_hz,
            ),
{
    let k = lemma_represented(s, i);
    law_survivors_were_detected(s, k);
    assert(!beats(s[i], merged(s).0[k]));
}

/// Results at least the radius apart all survive: a band of neighbouring
/// channels never chains into one.
pub proof fn law_distant_results_survive(s: Seq<DetectionResult>)
    requires
        forall|i: int, j: int|
            0 <= i < j < s.len() ==> (#[trigger] s[i]).frequency_hz + DEDUP_RADIUS_HZ <= (
            #[trigger] s[j]).frequency_hz,
    ensures
        merged(s).0 == s,
    decreases s.len(),
{
    if s.len() > 0 {
        let front = s.drop_last();
        assert forall|i: int, j: int| 0 <= i < j < front.len() implies (
        #[trigger] front[i]).frequency_hz + DEDUP_RADIUS_HZ <= (#[trigger] front[j]).frequency_hz by {
            assert(s[i].frequency_hz + DEDUP_RADIUS_HZ <= s[j].frequency_hz);
        }
        law_distant_results_survive(front);
        lemma_last_anchor(front);
        if front.len() > 0 {
            assert(s[front.len() - 1].frequency_hz + DEDUP_RADIUS_HZ <= s[s.len() - 1].frequency_hz);
        }
        assert(merged(s).0 =~= s);
    } else {
        assert(merged(s).0 =~= s);
    }
}

proof fn lemma_last_anchor(s: Seq<DetectionResult>)
    requires
        merged(s).0 == s,
    ensures
        s.len() > 0 ==> merged(s).1 == s.last().frequency_hz,
{
    if s.len() > 0 {
        lemma_merged_not_longer(s.drop_last());
    }
}

proof fn lemma_merged_not_longer(s: Seq<DetectionResult>)
    ensures
        merged(s).0.len() <= s.len(),
    decreases s.len(),
{
    if s.len() > 0 {
        lemma_merged_not_longer(s.drop_last());
    }
}

proof fn lemma_filtered_by_frequency(
    s: Seq<DetectionResult>,
    keep: spec_fn(DetectionResult) -> bool,
)
    requires
        by_frequency(s),
    ensures
        by_frequency(s.filter(keep)),
    decreases s.len(),
{
    reveal(Seq::filter);
    if s.len() > 0 {
        let front = s.drop_last();
        lemma_front_by_frequency(s);
        lemma_filtered_by_frequency(front, keep);
        let t = front.filter(keep);
        let out = s.filter(keep);
        let r = s[s.len() - 1];
        assert forall|i: int, j: int| 0 <= i <= j < out.len() implies (#[trigger] out[i]).frequency_hz
            <= (#[trigger] out[j]).frequency_hz by {
            if j < t.len() {
                assert(out[i] == t[i] && out[j] == t[j]);
            } else if i < t.len() {
                assert(t.contains(t[i]));
                front.lemma_filter_contains_rev(keep, t[i]);
                let at = front.index_of(t[i]);
                assert(s[at] == t[i]);
                assert(s[at].frequency_hz <= s[s.len() - 1].frequency_hz);
            }
        }
    }
}

/// What is reported is in ascending order of frequency.
pub proof fn law_reports_are_ordered(
    results: Seq<DetectionResult>,
    keep: spec_fn(DetectionResult) -> bool,
)
    ensures
        by_frequency(merged(ordered(results)).0.filter(keep)),
{
    let s = ordered(results);
    law_sorting_orders(results);
    law_groups_do_not_chain(s);
    let kept = merged(s).0;
    assert forall|i: int, j: int| 0 <= i <= j < kept.len() implies (#[trigger] kept[i]).frequency_hz
        <= (#[trigger] kept[j]).frequency_hz by {
        law_survivors_were_detected(s, i);
        law_survivors_were_detected(s, j);
        if i < j {
            assert(anchors_of(s)[i] + DEDUP_RADIUS_HZ <= anchors_of(s)[j]);
        }
    }
    lemma_filtered_by_frequency(kept, keep);
}

/// What is reported was detected, and is one of those to keep.
pub proof fn law_reports_were_detected(
    results: Seq<DetectionResult>,
    keep: spec_fn(DetectionResult) -> bool,
    i: int,
)
    requires
        0 <= i < merged(ordered(results)).0.filter(keep).len(),
    ensures
        keep(merged(ordered(results)).0.filter(keep)[i]),
        results.contains(merged(ordered(results)).0.filter(keep)[i]),
{
    broadcast use vstd::seq_lib::group_to_multiset_ensures;

    let s = ordered(results);
    let kept = merged(s).0;
    let out = kept.filter(keep);
    let r = out[i];
    kept.lemma_filter_pred(keep, i);
    assert(out.contains(r));
    kept.lemma_filter_contains_rev(keep, r);
    law_sorting_orders(results);
    let k = kept.index_of(r);
    law_survivors_were_detected(s, k);
    assert(s.to_multiset().count(r) > 0);
    assert(results.to_multiset().count(r) > 0);
}

/// Two results are of one transmitter where they are less than 2 MHz apart.
pub proof fn law_one_transmitter_is_within_two_megahertz(a: u64, b: u64)
    ensures
        near(a, b) <==> a < b + 2_000_000 && b < a + 2_000_000,
{
}

/// More confidence always wins; power decides between equal confidences only,
/// and only where both were measured. No two results beat each other, and
/// what beats a winner beats those that it won over.
pub proof fn law_confidence_goes_before_power(
    a: DetectionResult,
    b: DetectionResult,
    c: DetectionResult,
)
    ensures
        a.confidence > b.confidence ==> beats(a, b),
        a.confidence < b.confidence ==> !beats(a, b),
        a.confidence == b.confidence && a.rssi_mdbm is Some && b.rssi_mdbm is Some ==> (beats(a, b)
            <==> a.rssi_mdbm.unwrap() > b.rssi_mdbm.unwrap()),
        a.confidence == b.confidence && (a.rssi_mdbm is None || b.rssi_mdbm is None) ==> !beats(
            a,
            b,
        ),
        !(beats(a, b) && beats(b, a)),
        beats(a, b) && beats(b, c) ==> beats(a, c),
{
}

/// Of two results in ascending order, both stay where they are 2 MHz apart or
/// more; nearer than that one stays, the second only if it beats the first.
pub proof fn law_two_results_merge_when_near(a: DetectionResult, b: DetectionResult)
    requires
        a.frequency_hz <= b.frequency_hz,
    ensures
        b.frequency_hz - a.frequency_hz >= 2_000_000 ==> merged(seq![a, b]).0 == seq![a, b],
        b.frequency_hz - a.frequency_hz < 2_000_000 ==> merged(seq![a, b]).0 == seq![
            if beats(b, a) {
                b
            } else {
                a
            },
        ],
{
    reveal_with_fuel(merged, 3);
    let two = seq![a, b];
    let one = two.drop_last();
    assert(one.drop_last() =~= Seq::<DetectionResult>::empty());
    let none: Seq<DetectionResult> = Seq::empty();
    assert(one.len() == 1 && one.last() == a);
    assert(merged(one).0 =~= seq![a]);
    assert(merged(one).1 == a.frequency_hz);
    assert(merged(two).0 =~= if b.frequency_hz - a.frequency_hz >= 2_000_000 {
        seq![a, b]
    } else if beats(b, a) {
        seq![b]
    } else {
        seq![a]
    });
}

/// Results of one frequency keep their order when they are sorted.
pub proof fn law_sorting_keeps_the_order_of_equals(s: Seq<DetectionResult>, frequency_hz: u64)
    ensures
        ordered(s).filter(|r: DetectionResult| r.frequency_hz == frequency_hz) == s.filter(
            |r: DetectionResult| r.frequency_hz == frequency_hz,
        ),
    decreases s.len(),
{
    reveal(Seq::filter);
    let same = |r: DetectionResult| r.frequency_hz == frequency_hz;
    if s.len() > 0 {
        let rest = s.drop_last();
        let x = s.last();
        law_sorting_keeps_the_order_of_equals(rest, frequency_hz);
        law_sorting_orders(rest);
        let front = ordered(rest);
        let at = place_of(front, x.frequency_hz);
        lemma_place_bounds(front, x.frequency_hz);
        let a = front.take(at);
        let b = front.skip(at);
        let one = seq![x];
        assert(front.insert(at, x) =~= a + one + b);
        assert(front =~= a + b);
        Seq::filter_distributes_over_add(a + one, b, same);
        Seq::filter_distributes_over_add(a, one, same);
        Seq::filter_distributes_over_add(a, b, same);
        let none = Seq::<DetectionResult>::empty();
        assert(one.drop_last() =~= none);
        none.lemma_filter_len(same);
        assert(one.last() == x);
        assert(one.filter(same) == if same(x) {
            none.filter(same).push(x)
        } else {
            none.filter(same)
        });
        if same(x) {
            assert(one.filter(same) =~= one);
            if b.filter(same).len() > 0 {
                b.lemma_filter_pred(same, 0);
                b.lemma_filter_contains_rev(same, b.filter(same)[0]);
                let k = choose|k: int| 0 <= k < b.len() && b[k] == b.filter(same)[0];
                assert(b[k] == front[at + k]);
            }
            assert(a.filter(same) + one + b.filter(same) =~= front.filter(same).push(x));
        } else {
            assert(one.filter(same) =~= Seq::<DetectionResult>::empty());
            assert(a.filter(same) + one.filter(same) + b.filter(same) =~= front.filter(same));
        }
    }
}

/// What is reported is exactly what is wide enough, not too wide, and
/// confident enough; both limits of the width count as inside.
pub proof fn law_limits_are_inclusive(d: AnalogFpvDetector, r: DetectionResult)
    ensures
        !d.reports(r) <==> r.bandwidth_hz < d.min_bandwidth || r.bandwidth_hz > d.max_bandwidth
            || r.confidence < d.min_confidence,
{
}

} // verus!
