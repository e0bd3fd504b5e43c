//! Layout of the batched sweep: all probes of a capture mixed, filtered and
//! decimated in one dispatch.
//!
//! Each output of each probe needs the mixer's phasor at the sample it is
//! anchored on. The phasors are computed one by one ahead of the dispatch,
//! so that no error builds up along the capture.

use vstd::arithmetic::power2::{lemma2_to64, lemma_pow2_unfold, pow2};
use vstd::prelude::*;

use crate::ddc::{
    appended, convolved, law_every_stride_gives_one_output, taken, window_at, DEFAULT_FIR_TAPS,
};
use crate::levels::max;
use crate::video::scan::lemma_cells;

verus! {

/// Threads in a workgroup.
pub const WORKGROUP_SIZE: u32 = 64;

/// Smallest capacity of a buffer, in bytes.
pub const MIN_BUFFER: u64 = 256;

/// The first of `cap` and its doubles that is large enough.
pub open spec fn doubled_to(cap: int, size: int) -> int
    decreases max(0, size - cap),
    when cap >= 1
{
    if cap >= size {
        cap
    } else {
        doubled_to(2 * cap, size)
    }
}

/// The capacity that a buffer is made with: a power of two that is at least
/// the size, with a floor.
pub fn buffer_capacity(size: u64) -> (cap: u64)
    requires
        size <= 0x8000_0000_0000_0000,
    ensures
        cap == doubled_to(256, size as int),
        size <= cap,
        cap >= 256,
{
    let mut cap: u64 = MIN_BUFFER;
    while cap < size
        invariant
            256 <= cap,
            size <= 0x8000_0000_0000_0000,
            doubled_to(256, size as int) == doubled_to(cap as int, size as int),
        decreases 0x1_0000_0000_0000_0000 - cap,
    {
        cap = cap * 2;
    }
    cap
}

/// A buffer that is kept from sweep to sweep and only ever grows.
#[derive(Clone, Copy)]
pub struct BufferSlot {
    pub capacity: Option<u64>,
}

/// The capacity once a size is needed, and whether the buffer is made anew.
pub open spec fn reserved(capacity: Option<u64>, size: int) -> (int, bool) {
    match capacity {
        Some(cap) => if cap >= size {
            (cap as int, false)
        } else {
            (doubled_to(256, size), true)
        },
        None => (doubled_to(256, size), true),
    }
}

impl BufferSlot {
    /// Make room for a size; says whether the buffer has to be made anew.
    pub fn reserve(&mut self, size: u64) -> (anew: bool)
        requires
            size <= 0x8000_0000_0000_0000,
        ensures
            final(self).capacity is Some,
            final(self).capacity.unwrap() == reserved(old(self).capacity, size as int).0,
            anew == reserved(old(self).capacity, size as int).1,
            size <= final(self).capacity.unwrap(),
            old(self).capacity matches Some(cap) ==> cap <= final(self).capacity.unwrap(),
    {
        match self.capacity {
            Some(cap) => if cap >= size {
                return false;
            },
            None => {},
        }
        let cap: u64 = buffer_capacity(size);
        self.capacity = Some(cap);
        true
    }
}

/// Sizes of a sweep.
#[derive(Debug, Clone, Copy, PartialEq, Eq, Structural)]
pub struct SweepLayout {
    pub decimation_factor: u32,
    pub num_taps: u32,
    pub total_iq_len: u32,
    pub out_len: u32,
    pub n_probes: u32,
    /// Live bytes of each buffer.
    pub offsets_bytes: u64,
    pub taps_bytes: u64,
    pub phase_bytes: u64,
    pub input_bytes: u64,
    pub output_bytes: u64,
    pub workgroups: u32,
}

/// Outputs of each probe.
pub open spec fn outputs_per_probe(n: int, decimation: int) -> int {
    let d = max(decimation, 1);
    (n + d - 1) / d
}

/// The sizes of a sweep over `n` samples.
pub open spec fn layout_of(n: int, n_probes: int, decimation: int) -> SweepLayout {
    let out_len = outputs_per_probe(n, decimation);
    SweepLayout {
        decimation_factor: max(decimation, 1) as u32,
        num_taps: DEFAULT_FIR_TAPS as u32,
        total_iq_len: n as u32,
        out_len: out_len as u32,
        n_probes: n_probes as u32,
        offsets_bytes: (4 * n_probes) as u64,
        taps_bytes: (4 * DEFAULT_FIR_TAPS) as u64,
        phase_bytes: (8 * (n_probes * out_len)) as u64,
        input_bytes: (8 * n) as u64,
        output_bytes: (8 * (n_probes * out_len)) as u64,
        workgroups: ((n_probes * out_len + 63) / 64) as u32,
    }
}

/// Whether a sweep is within what 32-bit indices reach.
pub open spec fn sweep_fits(n: int, n_probes: int, decimation: int) -> bool {
    &&& n <= u32::MAX
    &&& decimation <= u32::MAX
    &&& n_probes <= u32::MAX
    &&& n_probes * outputs_per_probe(n, decimation) <= u32::MAX
}

/// Lay out a sweep. Nothing for a capture without samples or probes.
pub fn sweep_layout(n: usize, n_probes: usize, decimation: usize) -> (l: Option<SweepLayout>)
    requires
        sweep_fits(n as int, n_probes as int, decimation as int),
    ensures
        l == (if n == 0 || n_probes == 0 {
            None
        } else {
            Some(layout_of(n as int, n_probes as int, decimation as int))
        }),
{
    if n == 0 || n_probes == 0 {
        return None;
    }
    let d: u64 = if decimation >= 1 {
        decimation as u64
    } else {
        1
    };
    let out_len: u64 = (n as u64 + d - 1) / d;
    let cells: u64 = n_probes as u64 * out_len;
    assert(out_len <= cells) by (nonlinear_arith)
        requires
            n_probes >= 1,
            cells == n_probes * out_len,
    ;
    Some(
        SweepLayout {
            decimation_factor: d as u32,
            num_taps: DEFAULT_FIR_TAPS as u32,
            total_iq_len: n as u32,
            out_len: out_len as u32,
            n_probes: n_probes as u32,
            offsets_bytes: 4 * n_probes as u64,
            taps_bytes: 4 * DEFAULT_FIR_TAPS as u64,
            phase_bytes: 8 * cells,
            input_bytes: 8 * n as u64,
            output_bytes: 8 * cells,
            workgroups: ((cells + 63) / 64) as u32,
        },
    )
}

/// Whether a table holds the phasor of every output of every probe, probe by
/// probe.
pub open spec fn is_phase_table<P, F: Fn(i64, u64) -> P>(
    offsets: Seq<i64>,
    decimation: int,
    out_len: int,
    phasor: F,
    table: Seq<P>,
) -> bool {
    &&& table.len() == offsets.len() * out_len
    &&& forall|p: int, k: int|
        0 <= p < offsets.len() && 0 <= k < out_len ==> phasor.ensures(
            (offsets[p], (k * decimation) as u64),
            #[trigger] table[p * out_len + k],
        )
}

/// The phasors of a sweep. `phasor` gives that of an offset at a sample.
pub fn build_phase_table<P, F: Fn(i64, u64) -> P>(
    offsets: &Vec<i64>,
    decimation: u32,
    out_len: u32,
    phasor: F,
) -> (table: Vec<P>)
    requires
        forall|o: i64, i: u64| #[trigger] phasor.requires((o, i)),
    ensures
        is_phase_table(offsets@, decimation as int, out_len as int, phasor, table@),
{
    let ghost w = out_len as int;
    let mut table: Vec<P> = Vec::new();
    let mut p: usize = 0;
    assert(0 * w == 0);
    while p < offsets.len()
        invariant
            p <= offsets.len(),
            w == out_len,
            forall|o: i64, i: u64| #[trigger] phasor.requires((o, i)),
            table.len() == p * w,
            forall|q: int, k: int|
                0 <= q < p && 0 <= k < w ==> phasor.ensures(
                    (offsets[q], (k * decimation) as u64),
                    #[trigger] table@[q * w + k],
                ),
        decreases offsets.len() - p,
    {
        let mut k: u32 = 0;
        while k < out_len
            invariant
                p < offsets.len(),
                w == out_len,
                k <= out_len,
                forall|o: i64, i: u64| #[trigger] phasor.requires((o, i)),
                table.len() == p * w + k,
                forall|q: int, j: int|
                    0 <= q <= p && 0 <= j < w && (q < p || j < k) ==> phasor.ensures(
                        (offsets[q], (j * decimation) as u64),
                        #[trigger] table@[q * w + j],
                    ),
            decreases out_len - k,
        {
            assert(0 <= k * decimation <= u64::MAX) by (nonlinear_arith)
                requires
                    0 <= k <= u32::MAX,
                    0 <= decimation <= u32::MAX,
            ;
            let ghost before = table@;
            let v: P = phasor(offsets[p], k as u64 * decimation as u64);
            table.push(v);
            proof {
                assert forall|q: int, j: int|
                    0 <= q <= p && 0 <= j < w && (q < p || j < k + 1) implies phasor.ensures(
                    (offsets[q], (j * decimation) as u64),
                    #[trigger] table@[q * w + j],
                ) by {
                    if q < p {
                        lemma_cells(w, p as int, q);
                        assert(table@[q * w + j] == before[q * w + j]);
                    } else if j < k {
                        assert(table@[q * w + j] == before[q * w + j]);
                    }
                }
            }
            k += 1;
        }
        proof {
            assert((p + 1) * w == p * w + w) by (nonlinear_arith);
        }
        p += 1;
    }
    table
}

/// The outputs of each probe, out of one list of real and imaginary parts.
pub open spec fn split<T>(parts: Seq<T>, n_probes: int, out_len: int) -> Seq<Seq<(T, T)>> {
    Seq::new(
        n_probes as nat,
        |p: int|
            Seq::new(
                out_len as nat,
                |k: int| (parts[2 * (p * out_len + k)], parts[2 * (p * out_len + k) + 1]),
            ),
    )
}

/// Hand out the outputs of each probe.
pub fn split_outputs<T: Copy>(parts: &Vec<T>, n_probes: usize, out_len: usize) -> (out: Vec<
    Vec<(T, T)>,
>)
    requires
        parts.len() == 2 * (n_probes * out_len),
    ensures
        out.len() == n_probes,
        forall|p: int|
            0 <= p < n_probes ==> (#[trigger] out[p])@ == split(
                parts@,
                n_probes as int,
                out_len as int,
            )[p],
{
    let ghost w = out_len as int;
    let ghost all = split(parts@, n_probes as int, w);
    let mut out: Vec<Vec<(T, T)>> = Vec::new();
    let mut p: usize = 0;
    while p < n_probes
        invariant
            p <= n_probes,
            w == out_len,
            parts.len() == 2 * (n_probes * out_len),
            all == split(parts@, n_probes as int, w),
            out.len() == p,
            forall|q: int| 0 <= q < p ==> (#[trigger] out[q])@ == all[q],
        decreases n_probes - p,
    {
        let mut one: Vec<(T, T)> = Vec::new();
        proof {
            if out_len > 0 {
                lemma_cells(w, n_probes as int, p as int);
            }
        }
        let mut k: usize = 0;
        while k < out_len
            invariant
                p < n_probes,
                k <= out_len,
                w == out_len,
                parts.len() == 2 * (n_probes * out_len),
                out_len > 0 ==> 0 <= p * w && p * w + w <= n_probes * w,
                all == split(parts@, n_probes as int, w),
                one@ == all[p as int].take(k as int),
            decreases out_len - k,
        {
            assert(p * out_len + k < n_probes * out_len);
            let at: usize = 2 * (p * out_len + k);
            one.push((parts[at], parts[at + 1]));
            k += 1;
            assert(one@ =~= all[p as int].take(k as int));
        }
        assert(one@ =~= all[p as int]);
        out.push(one);
        p += 1;
    }
    out
}

/// Sweep a capture of `n` samples in one dispatch. `phasor` gives the mixer's
/// phasor of an offset at a sample; `dispatch` runs the kernel and reads the
/// outputs of all probes back, as real and imaginary parts in turn.
///
/// A capture without samples or probes is not dispatched: each probe then has
/// no output.
pub fn sweep<
    P,
    T: Copy,
    F: Fn(i64, u64) -> P,
    G: FnOnce(&SweepLayout, &Vec<P>) -> Vec<T>,
>(n: usize, offsets: &Vec<i64>, decimation: usize, phasor: F, dispatch: G) -> (out: Vec<
    Vec<(T, T)>,
>)
    requires
        sweep_fits(n as int, offsets.len() as int, decimation as int),
        2 * (offsets.len() * outputs_per_probe(n as int, decimation as int)) <= usize::MAX,
        forall|o: i64, i: u64| #[trigger] phasor.requires((o, i)),
        forall|l: &SweepLayout, t: &Vec<P>| #[trigger] dispatch.requires((l, t)),
        forall|l: &SweepLayout, t: &Vec<P>, parts: Vec<T>| #[trigger]
            dispatch.ensures((l, t), parts) ==> parts.len() == 2 * (l.n_probes * l.out_len),
    ensures
        out.len() == offsets.len(),
        forall|p: int|
            0 <= p < out.len() ==> (#[trigger] out[p]).len() == outputs_per_probe(
                n as int,
                decimation as int,
            ),
        n > 0 && offsets.len() > 0 ==> {
            let l = layout_of(n as int, offsets.len() as int, decimation as int);
            exists|table: Vec<P>, parts: Vec<T>|
                {
                    &&& is_phase_table(
                        offsets@,
                        l.decimation_factor as int,
                        l.out_len as int,
                        phasor,
                        table@,
                    )
                    &&& #[trigger] dispatch.ensures((&l, &table), parts)
                    &&& forall|p: int|
                        0 <= p < out.len() ==> (#[trigger] out[p])@ == split(
                            parts@,
                            offsets.len() as int,
                            l.out_len as int,
                        )[p]
                }
        },
{
    match sweep_layout(n, offsets.len(), decimation) {
        None => {
            let mut out: Vec<Vec<(T, T)>> = Vec::new();
            while out.len() < offsets.len()
                invariant
                    out.len() <= offsets.len(),
                    forall|p: int| 0 <= p < out.len() ==> (#[trigger] out[p]).len() == 0,
                decreases offsets.len() - out.len(),
            {
                out.push(Vec::new());
            }
            proof {
                let d = max(decimation as int, 1);
                assert((d - 1) / d == 0) by (nonlinear_arith)
                    requires
                        d >= 1,
                ;
            }
            out
        },
        Some(l) => {
            let table: Vec<P> = build_phase_table(
                offsets,
                l.decimation_factor,
                l.out_len,
                phasor,
            );
            proof {
                let d = max(decimation as int, 1);
                assert(outputs_per_probe(n as int, decimation as int) <= n) by (nonlinear_arith)
                    requires
                        outputs_per_probe(n as int, decimation as int) == (n + d - 1) / d,
                        d >= 1,
                        n >= 1,
                ;
                assert(0 <= outputs_per_probe(n as int, decimation as int)) by (nonlinear_arith)
                    requires
                        outputs_per_probe(n as int, decimation as int) == (n + d - 1) / d,
                        d >= 1,
                        n >= 1,
                ;
            }
            let parts: Vec<T> = dispatch(&l, &table);
            let out: Vec<Vec<(T, T)>> = split_outputs(&parts, offsets.len(), l.out_len as usize);
            proof {
                let w = outputs_per_probe(n as int, decimation as int);
                assert(l.out_len == w);
                assert forall|p: int| 0 <= p < out.len() implies (#[trigger] out[p]).len() == w by {
                    assert(out[p]@ == split(parts@, offsets.len() as int, w)[p]);
                }
            }
            out
        },
    }
}

/// A probe of the batched sweep has as many outputs as the converter gives
/// for the same capture, anchored on the same samples.
pub proof fn law_sweep_takes_the_same_samples(n: int, decimation: int, k: int)
    requires
        0 <= n,
        1 <= decimation,
        0 <= k < outputs_per_probe(n, decimation),
    ensures
        taken(0, n, decimation).len() == outputs_per_probe(n, decimation),
        taken(0, n, decimation)[k] == k * decimation,
{
    law_every_stride_gives_one_output(n, decimation);
}

/// Whether a cell is close to what the convolution of a window comes to.
pub open spec fn cell_is_close<C, H, T, D: Fn(&[C], &[H]) -> C>(
    dot: D,
    window: Seq<C>,
    taps: Seq<H>,
    close: spec_fn(C, (T, T)) -> bool,
    cell: (T, T),
) -> bool {
    forall|y: C| #[trigger] convolved(dot, window, taps, y) ==> close(y, cell)
}

/// However close a kernel's outputs are to the convolutions at their cells,
/// that close are a probe's outputs to those of a fresh converter on the same
/// capture, one by one.
pub proof fn law_sweep_is_as_close_as_its_kernel<C, H, T, D: Fn(&[C], &[H]) -> C>(
    dot: D,
    history: Seq<C>,
    mixed: Seq<C>,
    taps: Seq<H>,
    decimation: int,
    converted: Seq<C>,
    parts: Seq<T>,
    n_probes: int,
    p: int,
    close: spec_fn(C, (T, T)) -> bool,
)
    requires
        1 <= decimation,
        0 <= p < n_probes,
        appended(
            dot,
            history,
            mixed,
            taps,
            taken(0, mixed.len() as int, decimation),
            Seq::empty(),
            converted,
        ),
        ({
            let out_len = outputs_per_probe(mixed.len() as int, decimation);
            forall|k: int|
                0 <= k < out_len ==> cell_is_close(
                    dot,
                    window_at(history, mixed, k * decimation),
                    taps,
                    close,
                    #[trigger] split(parts, n_probes, out_len)[p][k],
                )
        }),
    ensures
        ({
            let out_len = outputs_per_probe(mixed.len() as int, decimation);
            let swept = split(parts, n_probes, out_len)[p];
            &&& swept.len() == converted.len()
            &&& forall|k: int| 0 <= k < swept.len() ==> close(converted[k], #[trigger] swept[k])
        }),
{
    let n = mixed.len() as int;
    let out_len = outputs_per_probe(n, decimation);
    let due = taken(0, n, decimation);
    let swept = split(parts, n_probes, out_len)[p];
    law_every_stride_gives_one_output(n, decimation);
    assert forall|k: int| 0 <= k < swept.len() implies close(converted[k], #[trigger] swept[k]) by {
        assert(due[k] == k * decimation);
        assert(convolved(dot, window_at(history, mixed, due[k]), taps, converted[0 + k]));
    }
}

/// A capacity is large enough, and no larger than it has to be: 256 doubled
/// some number of times, which is given back, and half of it would not do.
pub proof fn law_capacity_is_the_next_power_of_two(cap: int, size: int) -> (k: nat)
    requires
        cap >= 1,
    ensures
        doubled_to(cap, size) >= size,
        doubled_to(cap, size) == cap * pow2(k),
        k > 0 ==> doubled_to(cap, size) < 2 * size,
        k == 0 ==> doubled_to(cap, size) == cap,
    decreases max(0, size - cap),
{
    if cap >= size {
        lemma2_to64();
        0
    } else {
        let j = law_capacity_is_the_next_power_of_two(2 * cap, size);
        lemma_pow2_unfold((j + 1) as nat);
        assert(pow2((j + 1) as nat) == 2 * pow2(j));
        let x = pow2(j) as int;
        assert((2 * cap) * x == cap * (2 * x)) by (nonlinear_arith);
        (j + 1) as nat
    }
}

/// A buffer that is large enough is kept as it is; one that is not, or is not
/// there yet, is made anew with the capacity that the size calls for.
pub proof fn law_buffers_only_grow(capacity: Option<u64>, size: int)
    ensures
        ({
            let (cap, anew) = reserved(capacity, size);
            &&& !anew <==> capacity is Some && size <= capacity.unwrap()
            &&& !anew ==> cap == capacity.unwrap()
            &&& anew ==> cap == doubled_to(256, size)
        }),
{
}

/// A probe has an output for each started stride, and the workgroups of 64
/// hold all outputs of all probes with none to spare.
pub proof fn law_workgroups_cover_all_outputs(n: int, n_probes: int, decimation: int)
    requires
        0 <= n,
        0 <= n_probes,
        1 <= decimation,
        sweep_fits(n, n_probes, decimation),
        n_probes * outputs_per_probe(n, decimation) <= u32::MAX - 63,
    ensures
        ({
            let l = layout_of(n, n_probes, decimation);
            let out = outputs_per_probe(n, decimation);
            &&& decimation * (out - 1) < n <= decimation * out
            &&& 64 * l.workgroups - 64 < n_probes * out <= 64 * l.workgroups
            &&& l.input_bytes == 8 * n
            &&& l.phase_bytes == 8 * (n_probes * out)
            &&& l.output_bytes == 8 * (n_probes * out)
            &&& l.offsets_bytes == 4 * n_probes
        }),
{
    let out = outputs_per_probe(n, decimation);
    assert(decimation * (out - 1) < n <= decimation * out) by (nonlinear_arith)
        requires
            decimation >= 1,
            out == (n + decimation - 1) / decimation,
    ;
    assert(out >= 0) by (nonlinear_arith)
        requires
            decimation >= 1,
            n <= decimation * out,
            n >= 0,
    ;
    assert(n_probes * out >= 0) by (nonlinear_arith)
        requires
            n_probes >= 0,
            out >= 0,
    ;
}

/// The outputs of a probe are next to each other, real part first.
pub proof fn law_outputs_are_split_by_probe<T>(
    parts: Seq<T>,
    n_probes: int,
    out_len: int,
    p: int,
    k: int,
)
    requires
        0 <= p < n_probes,
        0 <= k < out_len,
    ensures
        split(parts, n_probes, out_len).len() == n_probes,
        split(parts, n_probes, out_len)[p].len() == out_len,
        split(parts, n_probes, out_len)[p][k].0 == parts[2 * out_len * p + 2 * k],
        split(parts, n_probes, out_len)[p][k].1 == parts[2 * out_len * p + 2 * k + 1],
{
    assert(2 * (p * out_len + k) == 2 * out_len * p + 2 * k) by (nonlinear_arith);
}

} // verus!
