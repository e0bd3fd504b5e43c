//! A gain applied to every sample, as a filter or an amplifier applies one,
//! moves no sync pulse: the threshold that separates the pulses follows the
//! samples.

use vstd::prelude::*;

use crate::levels::{
    decimated, is_low, lemma_run_end, low_runs, max, run_end, sync_threshold, tip_and_middle,
};
use crate::offset::lemma_ranked;
use crate::stats::{count_upto, has_rank, law_rank_is_unique, ranked};

verus! {

/// Every sample times `k`.
pub open spec fn amplified(s: Seq<i32>, k: int) -> Seq<i32> {
    s.map_values(|v: i32| (k * v) as i32)
}

/// Whether every amplified sample is still a sample.
pub open spec fn can_amplify(s: Seq<i32>, k: int) -> bool {
    forall|i: int| 0 <= i < s.len() ==> i32::MIN <= k * (#[trigger] s[i]) <= i32::MAX
}

/// Whether the elements of `t` are those of `s` times `k`.
spec fn multiples(s: Seq<i64>, t: Seq<i64>, k: int) -> bool {
    &&& s.len() == t.len()
    &&& forall|i: int| 0 <= i < s.len() ==> #[trigger] t[i] == k * s[i]
}

proof fn lemma_count_amplified(s: Seq<i64>, t: Seq<i64>, k: int, x: int, y: int)
    requires
        multiples(s, t, k),
        k > 0,
        k * x <= y < k * (x + 1),
    ensures
        count_upto(t, y) == count_upto(s, x),
    decreases s.len(),
{
    if s.len() > 0 {
        let v = s.last() as int;
        assert(multiples(s.drop_last(), t.drop_last(), k)) by {
            assert forall|i: int| 0 <= i < s.len() - 1 implies #[trigger] t.drop_last()[i] == k
                * s.drop_last()[i] by {
                assert(t[i] == k * s[i]);
            }
        }
        assert(t[s.len() - 1] == k * s[s.len() - 1]);
        assert((k * v <= y) == (v <= x)) by (nonlinear_arith)
            requires
                k > 0,
                k * x <= y < k * (x + 1),
        ;
        lemma_count_amplified(s.drop_last(), t.drop_last(), k, x, y);
    }
}

proof fn lemma_ranked_amplified(s: Seq<i64>, t: Seq<i64>, k: int, rank: int)
    requires
        multiples(s, t, k),
        k > 0,
        0 <= rank < s.len(),
    ensures
        ranked(t, rank) == k * ranked(s, rank),
{
    let x = ranked(s, rank);
    lemma_ranked(s, rank);
    assert(k * x < k * (x + 1) && k * (x - 1) <= k * x - 1 < k * (x - 1 + 1)) by (nonlinear_arith)
        requires
            k > 0,
    ;
    lemma_count_amplified(s, t, k, x, k * x);
    lemma_count_amplified(s, t, k, x - 1, k * x - 1);
    assert(has_rank(t, rank, k * x));
    law_rank_is_unique(t, rank, k * x, ranked(t, rank));
}

/// The sync tip, the middle level and the threshold between them are
/// amplified with the samples.
pub proof fn law_threshold_follows_gain(s: Seq<i32>, k: int)
    requires
        k > 0,
        can_amplify(s, k),
    ensures
        tip_and_middle(amplified(s, k)) == (match tip_and_middle(s) {
            Some((tip, middle)) => Some((k * tip, k * middle)),
            None => None::<(int, int)>,
        }),
        sync_threshold(amplified(s, k)) == (match sync_threshold(s) {
            Some(t) => Some(k * t),
            None => None::<int>,
        }),
{
    let d = decimated(s);
    let e = decimated(amplified(s, k));
    assert forall|i: int| 0 <= i < d.len() implies #[trigger] e[i] == k * d[i] by {
        assert(i32::MIN <= k * s[16 * i] <= i32::MAX);
    }
    if d.len() >= 16 {
        lemma_ranked_amplified(d, e, k, d.len() as int / 50);
        lemma_ranked_amplified(d, e, k, d.len() as int / 2);
        let p2 = ranked(d, d.len() as int / 50);
        let p50 = ranked(d, d.len() as int / 2);
        assert((k * p50 <= k * p2) == (p50 <= p2)) by (nonlinear_arith)
            requires
                k > 0,
        ;
        assert(3 * (k * p2) + k * p50 == k * (3 * p2 + p50)) by (nonlinear_arith);
    }
}

proof fn lemma_low_amplified(s: Seq<i32>, k: int, t: int, i: int)
    requires
        k > 0,
        can_amplify(s, k),
        0 <= i < s.len(),
    ensures
        is_low(amplified(s, k)[i], k * t) == is_low(s[i], t),
{
    let v = s[i] as int;
    assert(i32::MIN <= k * s[i] <= i32::MAX);
    assert((4 * (k * v) < k * t) == (4 * v < t)) by (nonlinear_arith)
        requires
            k > 0,
    ;
}

proof fn lemma_run_end_amplified(s: Seq<i32>, k: int, t: int, i: int)
    requires
        k > 0,
        can_amplify(s, k),
        0 <= i,
    ensures
        run_end(amplified(s, k), k * t, i) == run_end(s, t, i),
    decreases s.len() - i,
{
    if i < s.len() {
        lemma_low_amplified(s, k, t, i);
        if is_low(s[i], t) {
            lemma_run_end_amplified(s, k, t, i + 1);
        }
    }
}

proof fn lemma_low_runs_amplified(s: Seq<i32>, k: int, t: int, gap: int, i: int)
    requires
        k > 0,
        can_amplify(s, k),
        0 <= i,
        0 <= gap,
    ensures
        low_runs(amplified(s, k), k * t, gap, i) == low_runs(s, t, gap, i),
    decreases max(0, s.len() - i),
{
    if i < s.len() {
        lemma_low_amplified(s, k, t, i);
        if is_low(s[i], t) {
            lemma_run_end_amplified(s, k, t, i);
            lemma_run_end(s, t, i);
            lemma_low_runs_amplified(s, k, t, gap, i + max(gap, run_end(s, t, i) - i));
        } else {
            lemma_low_runs_amplified(s, k, t, gap, i + 1);
        }
    }
}

/// The sync pulses of smoothed samples lie where they lay before a gain.
pub proof fn law_gain_moves_no_pulse(s: Seq<i32>, k: int, gap: int)
    requires
        k > 0,
        can_amplify(s, k),
        gap >= 0,
        sync_threshold(s) is Some,
    ensures
        sync_threshold(amplified(s, k)) is Some,
        low_runs(amplified(s, k), sync_threshold(amplified(s, k))->0, gap, 0) == low_runs(
            s,
            sync_threshold(s)->0,
            gap,
            0,
        ),
{
    law_threshold_follows_gain(s, k);
    lemma_low_runs_amplified(s, k, sync_threshold(s)->0, gap, 0);
}

} // verus!
