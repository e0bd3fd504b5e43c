//! Facts about sequences that several modules share.

use vstd::prelude::*;

verus! {

/// What a filter keeps was there before.
pub proof fn lemma_filter_keeps_members<A>(s: Seq<A>, pred: spec_fn(A) -> bool, i: int)
    requires
        0 <= i < s.filter(pred).len(),
    ensures
        s.contains(s.filter(pred)[i]),
    decreases s.len(),
{
    reveal(Seq::filter);
    let rest = s.drop_last();
    let x = s.filter(pred)[i];
    if i < rest.filter(pred).len() {
        lemma_filter_keeps_members(rest, pred, i);
        let k = rest.index_of(x);
        assert(s[k] == x);
    } else {
        assert(s[s.len() - 1] == x);
    }
}

/// Chunks put together.
pub open spec fn joined<A>(chunks: Seq<Seq<A>>) -> Seq<A>
    decreases chunks.len(),
{
    if chunks.len() == 0 {
        Seq::empty()
    } else {
        joined(chunks.drop_last()) + chunks.last()
    }
}

/// Append copies of all elements of a slice.
pub fn append_copies<T: Copy>(dst: &mut Vec<T>, src: &[T])
    ensures
        final(dst)@ == old(dst)@ + src@,
{
    let ghost before = dst@;
    let mut i: usize = 0;
    assert(dst@ =~= before + src@.take(0));
    while i < src.len()
        invariant
            i <= src.len(),
            dst@ == before + src@.take(i as int),
        decreases src.len() - i,
    {
        dst.push(src[i]);
        i += 1;
        assert(dst@ =~= before + src@.take(i as int));
    }
    assert(src@.take(i as int) =~= src@);
}

/// A list of copies of all elements of a slice.
pub fn copy_of<T: Copy>(src: &[T]) -> (v: Vec<T>)
    ensures
        v@ == src@,
{
    let mut v: Vec<T> = Vec::new();
    append_copies(&mut v, src);
    assert(v@ =~= src@);
    v
}

/// A list of `n` copies of a value.
pub fn repeated<T: Copy>(value: T, n: usize) -> (v: Vec<T>)
    ensures
        v@ == Seq::new(n as nat, |i: int| value),
{
    let mut v: Vec<T> = Vec::new();
    let mut i: usize = 0;
    while i < n
        invariant
            i <= n,
            v@ == Seq::new(i as nat, |k: int| value),
        decreases n - i,
    {
        v.push(value);
        i += 1;
        assert(v@ =~= Seq::new(i as nat, |k: int| value));
    }
    v
}

} // verus!
