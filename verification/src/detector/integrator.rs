//! Averaging of magnitude spectra across batches.

use std::collections::{HashMap, VecDeque};

use vstd::prelude::*;

use crate::levels::min;
use crate::video::sync::{law_nearest_is_within_half, nearest, nearest_div};

verus! {

broadcast use {vstd::std_specs::hash::group_hash_axioms, vstd::std_specs::vecdeque::group_vec_dequeue_axioms};

/// Most frequencies that are averaged at a time.
pub const MAX_BUCKETS: usize = 256;

struct SpectralBucket {
    totals: Vec<i128>,
    count: u32,
}

/// Running averages of magnitude spectra, one per megahertz of absolute
/// frequency: a mean over the first batches, then one that forgets. The
/// frequency that has been there longest makes room for a new one.
///
/// A bucket holds its average times the number of batches it counts as, so
/// that the mean over the first batches is exact.
pub struct SpectralIntegrator {
    window: u32,
    buckets: HashMap<i64, SpectralBucket>,
    insertion_order: VecDeque<i64>,
}

spec fn totals_in_range(b: SpectralBucket) -> bool {
    forall|i: int|
        0 <= i < b.totals@.len() ==> is_total(#[trigger] b.totals@[i] as int, b.count as int)
}

/// The megahertz that a frequency falls into.
pub open spec fn bucket_of(key_hz: i64) -> i64 {
    (key_hz / 1_000_000) as i64
}

fn bucket_key(key_hz: i64) -> (key: i64)
    ensures
        key == bucket_of(key_hz),
{
    if key_hz >= 0 {
        key_hz / 1_000_000
    } else {
        -((-(key_hz + 1)) / 1_000_000) - 1
    }
}

/// Whether a total can be that of so many magnitudes.
pub open spec fn is_total(total: int, count: int) -> bool {
    count * i64::MIN <= total <= count * i64::MAX
}

/// A total once another magnitude is folded in. A bucket that counts as
/// fewer batches than the depth takes it in beside the others; in a full one
/// it takes the place of a batch's share.
pub open spec fn folded(total: int, count: int, fresh: int, depth: int) -> int {
    if count < depth {
        total + fresh
    } else {
        total - nearest(total, depth) + fresh
    }
}

impl SpectralIntegrator {
    /// Effective averaging depth in batches.
    pub closed spec fn depth(&self) -> u32 {
        self.window
    }

    /// The buckets in the order in which they came.
    pub closed spec fn order(&self) -> Seq<i64> {
        self.insertion_order@
    }

    /// The average that a bucket holds, times the batches it counts as.
    pub closed spec fn totals(&self, key: i64) -> Seq<i128> {
        self.buckets@[key].totals@
    }

    /// The average that a bucket holds, each magnitude rounded to the nearest.
    pub open spec fn average(&self, key: i64) -> Seq<i64> {
        Seq::new(
            self.totals(key).len(),
            |i: int| nearest(self.totals(key)[i] as int, self.batches(key) as int) as i64,
        )
    }

    /// How many batches a bucket's average counts as.
    pub closed spec fn batches(&self, key: i64) -> u32 {
        self.buckets@[key].count
    }

    /// The order lists each bucket once, there are no more than
    /// [`MAX_BUCKETS`], and each counts from one to the depth.
    pub closed spec fn wf(&self) -> bool {
        &&& self.window >= 1
        &&& self.insertion_order@.len() <= MAX_BUCKETS
        &&& self.insertion_order@.no_duplicates()
        &&& forall|k: i64| #[trigger]
            self.buckets@.contains_key(k) <==> self.insertion_order@.contains(k)
        &&& forall|k: i64|
            self.buckets@.contains_key(k) ==> 1 <= (#[trigger] self.buckets@[k]).count
                <= self.window && totals_in_range(self.buckets@[k])
    }

    /// There are never more buckets than the limit, and none counts as more
    /// batches than the depth.
    pub proof fn law_buckets_are_bounded(&self)
        requires
            self.wf(),
        ensures
            self.depth() >= 1,
            self.order().len() <= MAX_BUCKETS,
            self.order().no_duplicates(),
            forall|k: i64|
                #![trigger self.batches(k)]
                self.order().contains(k) ==> 1 <= self.batches(k) <= self.depth(),
    {
        assert forall|k: i64|
            #![trigger self.batches(k)]
            self.order().contains(k) implies 1 <= self.batches(k) <= self.depth() by {
            assert(self.buckets@.contains_key(k));
        }
    }

    /// An empty integrator; a depth of zero counts as one.
    pub fn new(window: u32) -> (s: Self)
        ensures
            s.wf(),
            s.depth() == (if window >= 1 {
                window
            } else {
                1
            }),
            s.order() == Seq::<i64>::empty(),
    {
        SpectralIntegrator {
            window: if window >= 1 {
                window
            } else {
                1
            },
            buckets: HashMap::new(),
            insertion_order: VecDeque::new(),
        }
    }

    /// Drop all accumulated state.
    pub fn reset(&mut self)
        requires
            old(self).wf(),
        ensures
            final(self).wf(),
            final(self).depth() == old(self).depth(),
            final(self).order() == Seq::<i64>::empty(),
    {
        self.buckets.clear();
        self.insertion_order.clear();
    }

    /// How many frequencies are being averaged.
    pub fn bucket_count(&self) -> (n: usize)
        ensures
            n == self.order().len(),
    {
        self.insertion_order.len()
    }
}

/// The order after a bucket was touched: a known one stays where it is; a
/// new one comes last, and the first leaves if there is no room.
pub open spec fn order_after(order: Seq<i64>, key: i64) -> Seq<i64> {
    if order.contains(key) {
        order
    } else if order.len() >= MAX_BUCKETS {
        order.drop_first().push(key)
    } else {
        order.push(key)
    }
}

/// Whether `after` is what becomes of the averages once `fresh` is folded
/// into the bucket of `key_hz`: a new bucket, or one whose spectra had
/// another length, starts over; the others stay as they are.
pub open spec fn accumulated(
    before: SpectralIntegrator,
    key_hz: i64,
    fresh: Seq<i64>,
    after: SpectralIntegrator,
) -> bool {
    let k = bucket_of(key_hz);
    &&& after.depth() == before.depth()
    &&& after.order() == order_after(before.order(), k)
    &&& after.order().contains(k)
    &&& after.totals(k).len() == fresh.len()
    &&& if before.order().contains(k) && before.totals(k).len() == fresh.len() {
        &&& after.batches(k) == min(before.batches(k) + 1, before.depth() as int)
        &&& forall|i: int|
            0 <= i < fresh.len() ==> #[trigger] after.totals(k)[i] == folded(
                before.totals(k)[i] as int,
                before.batches(k) as int,
                fresh[i] as int,
                before.depth() as int,
            )
    } else {
        &&& after.batches(k) == 1
        &&& forall|i: int| 0 <= i < fresh.len() ==> #[trigger] after.totals(k)[i] == fresh[i]
    }
    &&& forall|j: i64|
        #![trigger after.totals(j)]
        j != k && after.order().contains(j) ==> after.totals(j) == before.totals(j)
            && after.batches(j) == before.batches(j)
}

proof fn lemma_share(total: int, count: int, least: int, most: int)
    requires
        count >= 1,
        count * least <= total <= count * most,
    ensures
        least <= nearest(total, count) <= most,
        (count - 1) * least <= total - nearest(total, count) <= (count - 1) * most,
{
    let q = nearest(total, count);
    let below = total - count * least;
    let above = count * most - total;
    assert(2 * count * q <= 2 * total + count < 2 * count * (q + 1)) by (nonlinear_arith)
        requires
            q == (2 * total + count) / (2 * count),
            count >= 1,
    ;
    assert(least <= q <= most && q - least <= below && most - q <= above) by (nonlinear_arith)
        requires
            2 * count * q <= 2 * total + count < 2 * count * (q + 1),
            count >= 1,
            below == total - count * least,
            above == count * most - total,
            below >= 0,
            above >= 0,
    ;
    assert((count - 1) * least == count * least - least) by (nonlinear_arith);
    assert((count - 1) * most == count * most - most) by (nonlinear_arith);
}

/// Fold a magnitude into a total; see [`folded`].
pub fn fold(total: i128, count: u32, fresh: i64, depth: u32) -> (r: i128)
    requires
        1 <= count <= depth,
        is_total(total as int, count as int),
    ensures
        r == folded(total as int, count as int, fresh as int, depth as int),
        is_total(r as int, min(count + 1, depth as int)),
{
    assert(-0x8000_0000_0000_0000_0000_0000 <= total <= 0x8000_0000_0000_0000_0000_0000)
        by (nonlinear_arith)
        requires
            count <= 0xffff_ffff,
            count * i64::MIN <= total <= count * i64::MAX,
    ;
    assert((count + 1) * i64::MIN == count * i64::MIN + i64::MIN) by (nonlinear_arith);
    assert((count + 1) * i64::MAX == count * i64::MAX + i64::MAX) by (nonlinear_arith);
    if count < depth {
        total + fresh as i128
    } else {
        let share: i128 = nearest_div(total, depth as i128);
        proof {
            lemma_share(total as int, count as int, i64::MIN as int, i64::MAX as int);
            assert((count - 1) * i64::MIN + i64::MIN == count * i64::MIN) by (nonlinear_arith);
            assert((count - 1) * i64::MAX + i64::MAX == count * i64::MAX) by (nonlinear_arith);
        }
        total - share + fresh as i128
    }
}

fn averages(totals: &Vec<i128>, count: u32) -> (avg: Vec<i64>)
    requires
        count >= 1,
        forall|i: int|
            0 <= i < totals.len() ==> is_total(#[trigger] totals[i] as int, count as int),
    ensures
        avg@ == Seq::new(
            totals@.len(),
            |i: int| nearest(totals@[i] as int, count as int) as i64,
        ),
{
    let mut avg: Vec<i64> = Vec::new();
    let mut i: usize = 0;
    while i < totals.len()
        invariant
            i <= totals.len(),
            avg.len() == i,
            count >= 1,
            forall|k: int|
                0 <= k < totals.len() ==> is_total(#[trigger] totals[k] as int, count as int),
            forall|k: int|
                0 <= k < i ==> #[trigger] avg[k] == nearest(totals[k] as int, count as int) as i64,
        decreases totals.len() - i,
    {
        let t: i128 = totals[i];
        assert(is_total(t as int, count as int));
        assert(-0x8000_0000_0000_0000_0000_0000 <= t <= 0x8000_0000_0000_0000_0000_0000)
            by (nonlinear_arith)
            requires
                count <= 0xffff_ffff,
                count * i64::MIN <= t <= count * i64::MAX,
        ;
        proof {
            lemma_share(t as int, count as int, i64::MIN as int, i64::MAX as int);
        }
        avg.push(nearest_div(t, count as i128) as i64);
        i += 1;
    }
    assert(avg@ =~= Seq::new(
        totals@.len(),
        |i: int| nearest(totals@[i] as int, count as int) as i64,
    ));
    avg
}

fn widened(fresh: &[i64]) -> (totals: Vec<i128>)
    ensures
        totals.len() == fresh.len(),
        forall|i: int| 0 <= i < fresh.len() ==> #[trigger] totals[i] == fresh[i],
{
    let mut totals: Vec<i128> = Vec::new();
    let mut i: usize = 0;
    while i < fresh.len()
        invariant
            i <= fresh.len(),
            totals.len() == i,
            forall|k: int| 0 <= k < i ==> #[trigger] totals[k] == fresh[k],
        decreases fresh.len() - i,
    {
        totals.push(fresh[i] as i128);
        i += 1;
    }
    totals
}

impl SpectralIntegrator {
    /// Fold `fresh` into the bucket of `key_hz` and return the average. A
    /// new bucket, or one whose spectra had another length, starts over from
    /// `fresh`.
    pub fn accumulate(&mut self, key_hz: i64, fresh: &[i64]) -> (avg: Vec<i64>)
        requires
            old(self).wf(),
        ensures
            final(self).wf(),
            accumulated(*old(self), key_hz, fresh@, *final(self)),
            avg@ == final(self).average(bucket_of(key_hz)),
            avg.len() == fresh.len(),
    {
        let key: i64 = bucket_key(key_hz);
        let ghost before = *self;
        if !self.buckets.contains_key(&key) {
            if self.insertion_order.len() >= MAX_BUCKETS {
                let oldest: i64 = match self.insertion_order.pop_front() {
                    Some(k) => k,
                    None => key,
                };
                self.buckets.remove(&oldest);
                proof {
                    assert(before.insertion_order@.contains(oldest));
                    assert(self.insertion_order@ =~= before.insertion_order@.drop_first());
                    assert forall|k: i64| #[trigger]
                        self.insertion_order@.contains(k) <==> before.insertion_order@.contains(k)
                            && k != oldest by {
                        if before.insertion_order@.contains(k) && k != oldest {
                            let i = before.insertion_order@.index_of(k);
                            assert(self.insertion_order@[i - 1] == k);
                        }
                        if self.insertion_order@.contains(k) {
                            let i = self.insertion_order@.index_of(k);
                            assert(before.insertion_order@[i + 1] == k);
                        }
                    }
                }
            }
            let ghost kept = self.insertion_order@;
            self.insertion_order.push_back(key);
            let totals: Vec<i128> = widened(fresh);
            let avg: Vec<i64> = averages(&totals, 1);
            self.buckets.insert(key, SpectralBucket { totals, count: 1 });
            proof {
                assert(self.insertion_order@ =~= order_after(before.insertion_order@, key));
                assert forall|k: i64| #[trigger]
                    self.insertion_order@.contains(k) <==> kept.contains(k) || k == key by {
                    if kept.contains(k) {
                        let i = kept.index_of(k);
                        assert(self.insertion_order@[i] == k);
                    }
                    assert(self.insertion_order@[kept.len() as int] == key);
                }
                assert(!kept.contains(key));
            }
            return avg;
        }
        assert(before.insertion_order@.contains(key));
        let bucket: SpectralBucket = match self.buckets.remove(&key) {
            Some(b) => b,
            None => SpectralBucket { totals: Vec::new(), count: 1 },
        };
        let totals: Vec<i128>;
        let count: u32;
        if bucket.totals.len() != fresh.len() {
            totals = widened(fresh);
            count = 1;
        } else {
            count = if bucket.count < self.window {
                bucket.count + 1
            } else {
                self.window
            };
            let depth: u32 = self.window;
            let mut out: Vec<i128> = Vec::new();
            let mut i: usize = 0;
            while i < fresh.len()
                invariant
                    i <= fresh.len(),
                    bucket.totals.len() == fresh.len(),
                    out.len() == i,
                    1 <= bucket.count <= depth,
                    count == min(bucket.count + 1, depth as int),
                    totals_in_range(bucket),
                    forall|k: int|
                        0 <= k < i ==> #[trigger] out[k] == folded(
                            bucket.totals[k] as int,
                            bucket.count as int,
                            fresh[k] as int,
                            depth as int,
                        ),
                    forall|k: int|
                        0 <= k < i ==> is_total(#[trigger] out[k] as int, count as int),
                decreases fresh.len() - i,
            {
                let t: i128 = bucket.totals[i];
                assert(is_total(t as int, bucket.count as int));
                out.push(fold(t, bucket.count, fresh[i], depth));
                i += 1;
            }
            totals = out;
        }
        let avg: Vec<i64> = averages(&totals, count);
        self.buckets.insert(key, SpectralBucket { totals, count });
        avg
    }
}

/// Folding in a magnitude moves the average towards it by the share of one
/// batch out of those that it now counts as: exactly so where the average is
/// a whole number, and otherwise to within one unit of rounding.
pub proof fn law_average_moves_by_one_share(total: int, count: int, fresh: int, depth: int)
    requires
        1 <= count <= depth,
    ensures
        ({
            let n = min(count + 1, depth);
            let average = nearest(total, count);
            let moved = nearest(folded(total, count, fresh, depth), n);
            let share = nearest(fresh - average, n);
            &&& average + share - 1 <= moved <= average + share + 1
            &&& total == count * average ==> moved == average + share
        }),
{
    let n = min(count + 1, depth);
    let a = nearest(total, count);
    let rest = total - count * a;
    let x = fresh - a;
    assert(-count <= 2 * rest < count) by (nonlinear_arith)
        requires
            a == (2 * total + count) / (2 * count),
            rest == total - count * a,
            count >= 1,
    ;
    assert(folded(total, count, fresh, depth) == n * a + x + rest) by {
        if count < depth {
            assert((count + 1) * a == count * a + a) by (nonlinear_arith);
        }
    }
    let q = nearest(x, n);
    let r = nearest(n * a + x + rest, n);
    assert(q + a - 1 <= r <= q + a + 1 && (rest == 0 ==> r == q + a)) by (nonlinear_arith)
        requires
            q == (2 * x + n) / (2 * n),
            r == (2 * (n * a + x + rest) + n) / (2 * n),
            n >= 1,
            -n <= 2 * rest <= n,
    ;
}

/// Each magnitude of an average that goes on moves by its share, as
/// [`law_average_moves_by_one_share`] says; no other frequency's average
/// moves at all.
pub proof fn law_accumulating_moves_one_average(
    before: SpectralIntegrator,
    key_hz: i64,
    fresh: Seq<i64>,
    after: SpectralIntegrator,
)
    requires
        before.wf(),
        after.wf(),
        accumulated(before, key_hz, fresh, after),
    ensures
        ({
            let k = bucket_of(key_hz);
            &&& before.order().contains(k) && before.average(k).len() == fresh.len()
                ==> forall|i: int|
                #![trigger after.average(k)[i]]
                0 <= i < fresh.len() ==> -1 <= after.average(k)[i] - before.average(k)[i] - nearest(
                    fresh[i] - before.average(k)[i],
                    after.batches(k) as int,
                ) <= 1
            &&& !(before.order().contains(k) && before.average(k).len() == fresh.len())
                ==> after.average(k) == fresh
            &&& forall|j: i64|
                #![trigger after.average(j)]
                j != k && after.order().contains(j) ==> after.average(j) == before.average(j)
        }),
{
    let k = bucket_of(key_hz);
    assert(after.buckets@.contains_key(k));
    if before.order().contains(k) && before.average(k).len() == fresh.len() {
        assert(before.buckets@.contains_key(k));
        assert forall|i: int| #![trigger after.average(k)[i]] 0 <= i < fresh.len() implies -1
            <= after.average(k)[i] - before.average(k)[i] - nearest(
            fresh[i] - before.average(k)[i],
            after.batches(k) as int,
        ) <= 1 by {
            let t = before.totals(k)[i] as int;
            let u = after.totals(k)[i] as int;
            let c = before.batches(k) as int;
            let n = after.batches(k) as int;
            assert(is_total(before.buckets@[k].totals@[i] as int, c));
            assert(is_total(after.buckets@[k].totals@[i] as int, n));
            lemma_share(t, c, i64::MIN as int, i64::MAX as int);
            lemma_share(u, n, i64::MIN as int, i64::MAX as int);
            law_average_moves_by_one_share(t, c, fresh[i] as int, before.depth() as int);
        }
    } else {
        assert(after.average(k) =~= fresh);
    }
    assert forall|j: i64|
        #![trigger after.average(j)]
        j != k && after.order().contains(j) implies after.average(j) == before.average(j) by {
        assert(after.totals(j) == before.totals(j));
    }
}

/// Sum of one magnitude over batches.
pub open spec fn sum_over(batches: Seq<Seq<i64>>, i: int) -> int
    decreases batches.len(),
{
    if batches.len() == 0 {
        0
    } else {
        sum_over(batches.drop_last(), i) + batches.last()[i]
    }
}

/// Whether a chain of integrators folds batches in one by one under a key.
pub open spec fn folds(
    states: Seq<SpectralIntegrator>,
    key_hz: i64,
    batches: Seq<Seq<i64>>,
) -> bool {
    &&& states.len() == batches.len() + 1
    &&& forall|j: int|
        #![trigger batches[j]]
        0 <= j < batches.len() ==> accumulated(states[j], key_hz, batches[j], states[j + 1])
}

/// Up to the depth, the average of a frequency is the plain mean of the
/// batches that came since it was new, or since their length changed.
pub proof fn law_average_is_the_mean(
    states: Seq<SpectralIntegrator>,
    key_hz: i64,
    batches: Seq<Seq<i64>>,
    len: nat,
)
    requires
        states.len() > 0,
        states[0].wf(),
        folds(states, key_hz, batches),
        !states[0].order().contains(bucket_of(key_hz)) || states[0].totals(
            bucket_of(key_hz),
        ).len() != len,
        1 <= batches.len() <= states[0].depth(),
        forall|j: int| 0 <= j < batches.len() ==> (#[trigger] batches[j]).len() == len,
    ensures
        ({
            let k = bucket_of(key_hz);
            let last = states.last();
            &&& last.order().contains(k)
            &&& last.depth() == states[0].depth()
            &&& last.batches(k) == batches.len()
            &&& last.average(k) == Seq::new(
                len,
                |i: int| nearest(sum_over(batches, i), batches.len() as int) as i64,
            )
        }),
{
    let k = bucket_of(key_hz);
    lemma_totals_add_up(states, key_hz, batches, len);
    assert(states.last().average(k) =~= Seq::new(
        len,
        |i: int| nearest(sum_over(batches, i), batches.len() as int) as i64,
    ));
}

proof fn lemma_totals_add_up(
    states: Seq<SpectralIntegrator>,
    key_hz: i64,
    batches: Seq<Seq<i64>>,
    len: nat,
)
    requires
        states.len() > 0,
        folds(states, key_hz, batches),
        !states[0].order().contains(bucket_of(key_hz)) || states[0].totals(
            bucket_of(key_hz),
        ).len() != len,
        1 <= batches.len() <= states[0].depth(),
        forall|j: int| 0 <= j < batches.len() ==> (#[trigger] batches[j]).len() == len,
    ensures
        ({
            let k = bucket_of(key_hz);
            let last = states.last();
            &&& last.order().contains(k)
            &&& last.depth() == states[0].depth()
            &&& last.batches(k) == batches.len()
            &&& last.totals(k).len() == len
            &&& forall|i: int|
                0 <= i < len ==> #[trigger] last.totals(k)[i] == sum_over(batches, i)
        }),
    decreases batches.len(),
{
    let k = bucket_of(key_hz);
    let n = batches.len() - 1;
    assert(accumulated(states[n], key_hz, batches[n], states[n + 1]));
    assert(states.last() == states[n + 1]);
    if n == 0 {
        assert forall|i: int| 0 <= i < len implies #[trigger] states.last().totals(k)[i]
            == sum_over(batches, i) by {
            assert(sum_over(batches.drop_last(), i) == 0);
        }
    } else {
        let front = states.drop_last();
        let early = batches.drop_last();
        assert(folds(front, key_hz, early)) by {
            assert forall|j: int| #![trigger early[j]] 0 <= j < early.len() implies accumulated(
                front[j],
                key_hz,
                early[j],
                front[j + 1],
            ) by {
                assert(early[j] == batches[j]);
            }
        }
        assert forall|j: int| 0 <= j < early.len() implies (#[trigger] early[j]).len() == len by {
            assert(early[j] == batches[j]);
        }
        lemma_totals_add_up(front, key_hz, early, len);
        assert(front.last() == states[n]);
    }
}

/// Frequencies share a bucket exactly where they lie in the same megahertz.
pub proof fn law_buckets_are_a_megahertz_wide(a: i64, b: i64)
    ensures
        1_000_000 * bucket_of(a) <= a < 1_000_000 * (bucket_of(a) + 1),
        bucket_of(a) == bucket_of(b) ==> -1_000_000 < a - b < 1_000_000,
{
}

/// A known frequency keeps its place. A new one comes last; the one that has
/// been there longest leaves only where there are 256 already.
pub proof fn law_oldest_frequency_makes_room(order: Seq<i64>, key: i64)
    requires
        order.len() <= 256,
    ensures
        ({
            let after = order_after(order, key);
            &&& order.contains(key) ==> after == order
            &&& !order.contains(key) ==> after.len() > 0 && after.last() == key
            &&& !order.contains(key) && order.len() < 256 ==> after.drop_last() == order
            &&& !order.contains(key) && order.len() == 256 ==> after.len() == 256 && forall|i: int|
                0 <= i < 255 ==> #[trigger] after[i] == order[i + 1]
        }),
{
    if !order.contains(key) && order.len() < 256 {
        assert(order.push(key).drop_last() =~= order);
    }
}

/// A magnitude that does not change stays as it is, however many batches have
/// been folded in.
pub proof fn law_steady_magnitudes_stay(value: int, count: int, depth: int)
    requires
        1 <= count <= depth,
    ensures
        folded(count * value, count, value, depth) == min(count + 1, depth) * value,
{
    if count < depth {
        assert(count * value + value == (count + 1) * value) by (nonlinear_arith);
    } else {
        let x = depth * value;
        law_nearest_is_within_half(x, depth);
        let q = nearest(x, depth);
        assert(q == value) by (nonlinear_arith)
            requires
                depth > 0,
                -depth < 2 * (depth * q - depth * value) <= depth,
        ;
    }
}

} // verus!
