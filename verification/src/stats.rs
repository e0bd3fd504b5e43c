//! Order statistics over whole numbers.

use vstd::prelude::*;

verus! {

/// How many elements are at most `x`.
pub open spec fn count_upto(s: Seq<i64>, x: int) -> int
    decreases s.len(),
{
    if s.len() == 0 {
        0
    } else {
        count_upto(s.drop_last(), x) + if s.last() <= x {
            1int
        } else {
            0int
        }
    }
}

/// Whether `x` is the element that ascending order puts at position `rank`,
/// counted from zero.
pub open spec fn has_rank(s: Seq<i64>, rank: int, x: int) -> bool {
    count_upto(s, x - 1) <= rank < count_upto(s, x)
}

/// The element that ascending order puts at position `rank`.
pub open spec fn ranked(s: Seq<i64>, rank: int) -> int {
    choose|x: int| has_rank(s, rank, x)
}

/// The upper median; zero of nothing.
pub open spec fn median_of(s: Seq<i64>) -> int {
    if s.len() == 0 {
        0
    } else {
        ranked(s, s.len() as int / 2)
    }
}

pub open spec fn abs(x: int) -> int {
    if x < 0 {
        -x
    } else {
        x
    }
}

/// Distances from a centre.
pub open spec fn deviations(s: Seq<i64>, center: int) -> Seq<i64> {
    Seq::new(s.len(), |i: int| abs(s[i] - center) as i64)
}

/// Median absolute deviation around a centre.
pub open spec fn mad_of(s: Seq<i64>, center: int) -> int {
    median_of(deviations(s, center))
}

pub open spec fn ascending(s: Seq<i64>) -> bool {
    forall|i: int, j: int| 0 <= i <= j < s.len() ==> s[i] <= s[j]
}

/// Whether two lists hold the same elements, however often each, in any
/// order.
pub open spec fn same_counts(s: Seq<i64>, t: Seq<i64>) -> bool {
    &&& s.len() == t.len()
    &&& forall|x: int| #[trigger] count_upto(s, x) == count_upto(t, x)
}

proof fn lemma_count_bounds(s: Seq<i64>, x: int)
    ensures
        0 <= count_upto(s, x) <= s.len(),
    decreases s.len(),
{
    if s.len() > 0 {
        lemma_count_bounds(s.drop_last(), x);
    }
}

proof fn lemma_count_monotone(s: Seq<i64>, x: int, y: int)
    requires
        x <= y,
    ensures
        count_upto(s, x) <= count_upto(s, y),
    decreases s.len(),
{
    if s.len() > 0 {
        lemma_count_monotone(s.drop_last(), x, y);
    }
}

pub proof fn lemma_count_append(s: Seq<i64>, t: Seq<i64>, x: int)
    ensures
        count_upto(s + t, x) == count_upto(s, x) + count_upto(t, x),
    decreases t.len(),
{
    if t.len() == 0 {
        assert(s + t =~= s);
    } else {
        assert((s + t).drop_last() =~= s + t.drop_last());
        lemma_count_append(s, t.drop_last(), x);
    }
}

/// A leading stretch of elements at most `x` is counted; a trailing stretch
/// of larger ones is not.
proof fn lemma_count_split(s: Seq<i64>, n: int, x: int)
    requires
        0 <= n <= s.len(),
    ensures
        (forall|i: int| 0 <= i < n ==> s[i] <= x) ==> count_upto(s, x) >= n,
        (forall|i: int| n <= i < s.len() ==> s[i] > x) ==> count_upto(s, x) <= n,
    decreases s.len(),
{
    let a = s.take(n);
    let b = s.skip(n);
    assert(s =~= a + b);
    lemma_count_append(a, b, x);
    lemma_count_bounds(a, x);
    lemma_count_bounds(b, x);
    if forall|i: int| 0 <= i < n ==> s[i] <= x {
        lemma_count_all(a, x);
    }
    if forall|i: int| n <= i < s.len() ==> s[i] > x {
        lemma_count_none(b, x);
    }
}

proof fn lemma_count_all(s: Seq<i64>, x: int)
    requires
        forall|i: int| 0 <= i < s.len() ==> s[i] <= x,
    ensures
        count_upto(s, x) == s.len(),
    decreases s.len(),
{
    if s.len() > 0 {
        lemma_count_all(s.drop_last(), x);
    }
}

proof fn lemma_count_none(s: Seq<i64>, x: int)
    requires
        forall|i: int| 0 <= i < s.len() ==> s[i] > x,
    ensures
        count_upto(s, x) == 0,
    decreases s.len(),
{
    if s.len() > 0 {
        lemma_count_none(s.drop_last(), x);
    }
}

/// An element counted at `x` but not at `x - 1` occurs.
proof fn lemma_count_step_occurs(s: Seq<i64>, x: int)
    requires
        count_upto(s, x - 1) < count_upto(s, x),
    ensures
        exists|i: int| 0 <= i < s.len() && #[trigger] s[i] == x,
    decreases s.len(),
{
    if s.len() > 0 {
        if s.last() == x {
            assert(s[s.len() - 1] == x);
        } else {
            lemma_count_step_occurs(s.drop_last(), x);
            let i = choose|i: int| 0 <= i < s.len() - 1 && #[trigger] s.drop_last()[i] == x;
            assert(s[i] == x);
        }
    }
}

/// At most one value has a given rank.
pub proof fn law_rank_is_unique(s: Seq<i64>, rank: int, x: int, y: int)
    requires
        has_rank(s, rank, x),
        has_rank(s, rank, y),
    ensures
        x == y,
{
    if x < y {
        lemma_count_monotone(s, x, y - 1);
    } else if y < x {
        lemma_count_monotone(s, y, x - 1);
    }
}

/// What has a rank is one of the elements.
pub proof fn law_ranked_value_occurs(s: Seq<i64>, rank: int, x: int)
    requires
        has_rank(s, rank, x),
    ensures
        exists|i: int| 0 <= i < s.len() && #[trigger] s[i] == x,
{
    lemma_count_step_occurs(s, x);
}

/// In ascending order, position and rank agree.
pub proof fn lemma_sorted_rank(s: Seq<i64>, t: Seq<i64>, k: int)
    requires
        same_counts(s, t),
        ascending(t),
        0 <= k < t.len(),
    ensures
        has_rank(s, k, t[k] as int),
        ranked(s, k) == t[k],
{
    lemma_count_split(t, k, t[k] - 1);
    lemma_count_split(t, k + 1, t[k] as int);
    assert(count_upto(s, t[k] - 1) == count_upto(t, t[k] - 1));
    assert(count_upto(s, t[k] as int) == count_upto(t, t[k] as int));
    law_rank_is_unique(s, k, t[k] as int, ranked(s, k));
}

fn merge(a: &Vec<i64>, b: &Vec<i64>) -> (out: Vec<i64>)
    requires
        ascending(a@),
        ascending(b@),
        a.len() + b.len() <= usize::MAX,
    ensures
        ascending(out@),
        out.len() == a.len() + b.len(),
        forall|x: int| #[trigger] count_upto(out@, x) == count_upto(a@, x) + count_upto(b@, x),
{
    let mut out: Vec<i64> = Vec::with_capacity(a.len() + b.len());
    let mut i: usize = 0;
    let mut j: usize = 0;
    while i < a.len() || j < b.len()
        invariant
            i <= a.len(),
            j <= b.len(),
            ascending(a@),
            ascending(b@),
            ascending(out@),
            out.len() == i + j,
            a.len() + b.len() <= usize::MAX,
            forall|k: int| 0 <= k < out.len() && i < a.len() ==> out[k] <= a[i as int],
            forall|k: int| 0 <= k < out.len() && j < b.len() ==> out[k] <= b[j as int],
            forall|x: int| #[trigger]
                count_upto(out@, x) == count_upto(a@.take(i as int), x) + count_upto(
                    b@.take(j as int),
                    x,
                ),
        decreases a.len() - i + b.len() - j,
    {
        let ghost before = out@;
        let ghost (i0, j0) = (i as int, j as int);
        if j >= b.len() || (i < a.len() && a[i] <= b[j]) {
            out.push(a[i]);
            i += 1;
            assert(a@.take(i as int).drop_last() =~= a@.take(i - 1));
        } else {
            out.push(b[j]);
            j += 1;
            assert(b@.take(j as int).drop_last() =~= b@.take(j - 1));
        }
        assert(out@.drop_last() =~= before);
        assert forall|x: int| #[trigger]
            count_upto(out@, x) == count_upto(a@.take(i as int), x) + count_upto(
                b@.take(j as int),
                x,
            ) by {
            assert(count_upto(before, x) == count_upto(a@.take(i0), x) + count_upto(
                b@.take(j0),
                x,
            ));
        }
    }
    assert(a@.take(i as int) =~= a@);
    assert(b@.take(j as int) =~= b@);
    out
}

fn sort_range(v: &Vec<i64>, lo: usize, hi: usize) -> (out: Vec<i64>)
    requires
        lo <= hi <= v.len(),
    ensures
        ascending(out@),
        same_counts(out@, v@.subrange(lo as int, hi as int)),
    decreases hi - lo,
{
    if hi - lo <= 1 {
        let mut out: Vec<i64> = Vec::new();
        if lo < hi {
            out.push(v[lo]);
        }
        assert(out@ =~= v@.subrange(lo as int, hi as int));
        return out;
    }
    let mid: usize = lo + (hi - lo) / 2;
    let a: Vec<i64> = sort_range(v, lo, mid);
    let b: Vec<i64> = sort_range(v, mid, hi);
    let out: Vec<i64> = merge(&a, &b);
    proof {
        let left = v@.subrange(lo as int, mid as int);
        let right = v@.subrange(mid as int, hi as int);
        let whole = v@.subrange(lo as int, hi as int);
        assert(whole =~= left + right);
        assert forall|x: int| #[trigger] count_upto(out@, x) == count_upto(whole, x) by {
            lemma_count_append(left, right, x);
            assert(count_upto(a@, x) == count_upto(left, x));
            assert(count_upto(b@, x) == count_upto(right, x));
        }
    }
    out
}

/// The elements in ascending order.
pub fn sorted(v: &Vec<i64>) -> (out: Vec<i64>)
    ensures
        ascending(out@),
        same_counts(out@, v@),
{
    assert(v@.subrange(0, v.len() as int) =~= v@);
    sort_range(v, 0, v.len())
}

/// The element that ascending order puts at position `rank`.
pub fn order_statistic(v: &Vec<i64>, rank: usize) -> (x: i64)
    requires
        rank < v.len(),
    ensures
        has_rank(v@, rank as int, x as int),
        x == ranked(v@, rank as int),
{
    let t: Vec<i64> = sorted(v);
    proof {
        lemma_sorted_rank(v@, t@, rank as int);
    }
    t[rank]
}

/// The upper median; zero of nothing.
pub fn median(v: &Vec<i64>) -> (x: i64)
    ensures
        x == median_of(v@),
        v.len() > 0 ==> has_rank(v@, v.len() as int / 2, x as int),
{
    if v.len() == 0 {
        return 0;
    }
    order_statistic(v, v.len() / 2)
}

/// Median absolute deviation around `center`; zero of nothing.
pub fn mad(v: &Vec<i64>, center: i64) -> (x: i64)
    requires
        forall|i: int| 0 <= i < v.len() ==> abs(#[trigger] v[i] - center) <= i64::MAX,
    ensures
        x == mad_of(v@, center as int),
        v.len() > 0 ==> has_rank(deviations(v@, center as int), v.len() as int / 2, x as int),
{
    let mut far: Vec<i64> = Vec::new();
    let mut i: usize = 0;
    while i < v.len()
        invariant
            i <= v.len(),
            forall|k: int| 0 <= k < v.len() ==> abs(#[trigger] v[k] - center) <= i64::MAX,
            far@ == deviations(v@, center as int).take(i as int),
        decreases v.len() - i,
    {
        assert(abs(v[i as int] - center) <= i64::MAX);
        let d: i64 = if v[i] >= center {
            v[i] - center
        } else {
            center - v[i]
        };
        far.push(d);
        i += 1;
        assert(far@ =~= deviations(v@, center as int).take(i as int));
    }
    assert(far@ =~= deviations(v@, center as int));
    median(&far)
}

proof fn lemma_count_is_filter(s: Seq<i64>, x: int)
    ensures
        count_upto(s, x) == s.filter(|v: i64| v <= x).len(),
    decreases s.len(),
{
    reveal(Seq::filter);
    if s.len() > 0 {
        lemma_count_is_filter(s.drop_last(), x);
    }
}

proof fn lemma_filters_agree(s: Seq<i64>, x: int)
    ensures
        s.filter(|v: i64| v < x).len() == s.filter(|v: i64| v <= x - 1).len(),
        s.filter(|v: i64| v >= x).len() + s.filter(|v: i64| v < x).len() == s.len(),
    decreases s.len(),
{
    reveal(Seq::filter);
    if s.len() > 0 {
        lemma_filters_agree(s.drop_last(), x);
    }
}

/// What stands at a position of the ascending order: one of the elements, with
/// no more elements below it than the position says, and more than that up to
/// and including it.
pub proof fn law_rank_counts_what_is_below(s: Seq<i64>, rank: int)
    requires
        0 <= rank < s.len(),
    ensures
        s.filter(|v: i64| v < ranked(s, rank)).len() <= rank,
        rank < s.filter(|v: i64| v <= ranked(s, rank)).len(),
        exists|i: int| 0 <= i < s.len() && #[trigger] s[i] == ranked(s, rank),
{
    let x = ranked(s, rank);
    crate::offset::lemma_ranked(s, rank);
    lemma_count_is_filter(s, x);
    lemma_count_is_filter(s, x - 1);
    lemma_filters_agree(s, x);
}

/// A median is one of the values, with at least half of them on either side,
/// itself included. Of two middle values it is the larger.
pub proof fn law_median_parts_the_values(s: Seq<i64>)
    requires
        s.len() > 0,
    ensures
        2 * s.filter(|v: i64| v <= median_of(s)).len() > s.len(),
        2 * s.filter(|v: i64| v >= median_of(s)).len() >= s.len(),
        2 * s.filter(|v: i64| v < median_of(s)).len() <= s.len(),
        exists|i: int| 0 <= i < s.len() && #[trigger] s[i] == median_of(s),
{
    law_rank_counts_what_is_below(s, s.len() as int / 2);
    lemma_filters_agree(s, median_of(s));
}

proof fn lemma_counts_ignore_order(s: Seq<i64>, t: Seq<i64>, x: int)
    requires
        s.to_multiset() == t.to_multiset(),
    ensures
        count_upto(s, x) == count_upto(t, x),
        s.len() == t.len(),
    decreases s.len(),
{
    broadcast use vstd::seq_lib::group_to_multiset_ensures;

    assert(s.len() == s.to_multiset().len());
    assert(t.len() == t.to_multiset().len());
    if s.len() > 0 {
        let v = s.last();
        assert(s.to_multiset().count(v) > 0) by {
            assert(s.contains(s[s.len() - 1]));
        }
        assert(t.contains(v));
        let k = t.index_of(v);
        let rest = t.remove(k);
        assert(s =~= s.drop_last().push(v));
        assert(s.drop_last().to_multiset() =~= s.to_multiset().remove(v));
        assert(rest.to_multiset() =~= t.to_multiset().remove(v));
        lemma_counts_ignore_order(s.drop_last(), rest, x);
        let a = t.take(k);
        let b = t.skip(k + 1);
        assert(t =~= a + seq![v] + b);
        assert(rest =~= a + b);
        lemma_count_append(a + seq![v], b, x);
        lemma_count_append(a, seq![v], x);
        lemma_count_append(a, b, x);
        assert(seq![v].drop_last() =~= Seq::<i64>::empty());
        assert(count_upto(seq![v].drop_last(), x) == 0);
    }
}

/// Order statistics do not depend on the order in which the values come.
pub proof fn law_rank_ignores_order(s: Seq<i64>, t: Seq<i64>, rank: int)
    requires
        s.to_multiset() == t.to_multiset(),
        0 <= rank < s.len(),
    ensures
        ranked(s, rank) == ranked(t, rank),
        median_of(s) == median_of(t),
{
    lemma_counts_ignore_order(s, t, 0);
    crate::offset::lemma_ranked(s, rank);
    crate::offset::lemma_ranked(t, rank);
    lemma_counts_ignore_order(s, t, ranked(s, rank));
    lemma_counts_ignore_order(s, t, ranked(s, rank) - 1);
    law_rank_is_unique(t, rank, ranked(s, rank), ranked(t, rank));
    let h = s.len() as int / 2;
    crate::offset::lemma_ranked(s, h);
    crate::offset::lemma_ranked(t, h);
    lemma_counts_ignore_order(s, t, ranked(s, h));
    lemma_counts_ignore_order(s, t, ranked(s, h) - 1);
    law_rank_is_unique(t, h, ranked(s, h), ranked(t, h));
}

/// Where more than half of the values lie in a range, so does the median.
pub proof fn law_majority_holds_the_median(s: Seq<i64>, lo: int, hi: int)
    requires
        2 * s.filter(|v: i64| lo <= v <= hi).len() > s.len(),
    ensures
        lo <= median_of(s) <= hi,
{
    lemma_inside_and_outside(s, lo, hi);
    s.lemma_filter_len(|v: i64| lo <= v <= hi);
    law_rank_counts_what_is_below(s, s.len() as int / 2);
    let m = median_of(s);
    if m > hi {
        lemma_fewer_below(s, hi, m);
    }
    if m < lo {
        lemma_fewer_below(s, m, lo);
        lemma_filters_agree(s, lo);
        lemma_fewer_upto(s, m, lo - 1);
    }
}

proof fn lemma_inside_and_outside(s: Seq<i64>, lo: int, hi: int)
    ensures
        s.filter(|v: i64| lo <= v <= hi).len() + s.filter(|v: i64| v < lo).len() <= s.len(),
        s.filter(|v: i64| lo <= v <= hi).len() <= s.filter(|v: i64| v <= hi).len(),
    decreases s.len(),
{
    reveal(Seq::filter);
    if s.len() > 0 {
        lemma_inside_and_outside(s.drop_last(), lo, hi);
    }
}

proof fn lemma_fewer_below(s: Seq<i64>, x: int, y: int)
    requires
        x < y,
    ensures
        s.filter(|v: i64| v <= x).len() <= s.filter(|v: i64| v < y).len(),
    decreases s.len(),
{
    reveal(Seq::filter);
    if s.len() > 0 {
        lemma_fewer_below(s.drop_last(), x, y);
    }
}

proof fn lemma_fewer_upto(s: Seq<i64>, x: int, y: int)
    requires
        x <= y,
    ensures
        s.filter(|v: i64| v <= x).len() <= s.filter(|v: i64| v <= y).len(),
    decreases s.len(),
{
    reveal(Seq::filter);
    if s.len() > 0 {
        lemma_fewer_upto(s.drop_last(), x, y);
    }
}

/// Where all values lie in a range, so does the median.
pub proof fn law_median_stays_among_the_values(s: Seq<i64>, lo: int, hi: int)
    requires
        s.len() > 0,
        forall|i: int| 0 <= i < s.len() ==> lo <= #[trigger] s[i] <= hi,
    ensures
        lo <= median_of(s) <= hi,
{
    law_rank_counts_what_is_below(s, s.len() as int / 2);
}

/// The median deviation from a centre is a distance that at least half of the
/// values keep to, and at least half reach.
pub proof fn law_mad_parts_the_distances(s: Seq<i64>, center: int)
    requires
        s.len() > 0,
        forall|i: int| 0 <= i < s.len() ==> -i64::MAX <= #[trigger] s[i] - center <= i64::MAX,
    ensures
        ({
            let d = mad_of(s, center);
            &&& 2 * s.filter(|v: i64| -d <= v - center <= d).len() > s.len()
            &&& 2 * s.filter(|v: i64| -d < v - center < d).len() <= s.len()
        }),
{
    let d = mad_of(s, center);
    law_rank_counts_what_is_below(deviations(s, center), s.len() as int / 2);
    lemma_near_as_deviations(s, center, d);
}

proof fn lemma_near_as_deviations(s: Seq<i64>, center: int, d: int)
    requires
        forall|i: int| 0 <= i < s.len() ==> -i64::MAX <= #[trigger] s[i] - center <= i64::MAX,
    ensures
        s.filter(|v: i64| -d <= v - center <= d).len() == deviations(s, center).filter(
            |v: i64| v <= d,
        ).len(),
        s.filter(|v: i64| -d < v - center < d).len() == deviations(s, center).filter(
            |v: i64| v < d,
        ).len(),
    decreases s.len(),
{
    reveal(Seq::filter);
    let t = deviations(s, center);
    if s.len() > 0 {
        assert(-i64::MAX <= s[s.len() - 1] - center <= i64::MAX);
        assert(t.drop_last() =~= deviations(s.drop_last(), center));
        lemma_near_as_deviations(s.drop_last(), center, d);
    }
}

/// A value of higher rank is no lower.
pub proof fn law_higher_rank_is_no_lower(s: Seq<i64>, a: int, b: int)
    requires
        0 <= a <= b < s.len(),
    ensures
        ranked(s, a) <= ranked(s, b),
{
    law_rank_counts_what_is_below(s, a);
    law_rank_counts_what_is_below(s, b);
    let x = ranked(s, a);
    let y = ranked(s, b);
    if y < x {
        lemma_fewer_below(s, y, x);
    }
}

/// A value with no more elements below it than a position says, and more than
/// that up to and including it, is the one at that position.
pub proof fn law_counts_tell_the_rank(s: Seq<i64>, rank: int, x: int)
    requires
        0 <= rank < s.len(),
        s.filter(|v: i64| v < x).len() <= rank,
        rank < s.filter(|v: i64| v <= x).len(),
    ensures
        ranked(s, rank) == x,
{
    law_rank_counts_what_is_below(s, rank);
    let y = ranked(s, rank);
    if y < x {
        lemma_fewer_below(s, y, x);
    }
    if x < y {
        lemma_fewer_below(s, x, y);
    }
}

} // verus!
