//! Moving values between per-particle and per-cell columns.
use vstd::prelude::*;
use crate::op::UnaryOp;
use crate::algorithm::counting::{
    count_of, lemma_values_with_key_all, lemma_values_with_key_len, lemma_values_with_key_step, values_with_key,
};

verus! {

/// Reads `src` at each index of `idx`: `out[i] = src[idx[i]]`. This takes a
/// per-cell column to the particles, given the cell index of each particle.
pub fn gather<T: Copy>(src: &Vec<T>, idx: &Vec<u32>) -> (out: Vec<T>)
    requires
        forall|i: int| 0 <= i < idx.len() ==> idx@[i] < src.len(),
    ensures
        out.len() == idx.len(),
        forall|i: int| 0 <= i < idx.len() ==> out@[i] == src@[idx@[i] as int],
{
    let n = idx.len();
    let mut out: Vec<T> = Vec::new();
    let mut i: usize = 0;
    while i < n
        invariant
            n == idx.len(),
            forall|t: int| 0 <= t < idx.len() ==> idx@[t] < src.len(),
            i <= n,
            out.len() == i,
            forall|t: int| 0 <= t < i ==> out@[t] == src@[idx@[t] as int],
        decreases n - i,
    {
        out.push(src[idx[i] as usize]);
        i += 1;
    }
    out
}

/// Like [`gather`], but only where `stencil` is non-zero:
/// `out[i] = src[idx[i]]` where `stencil[i] != 0`, and `out[i]` is left as
/// it was elsewhere.
pub fn gather_where<T: Copy>(src: &Vec<T>, idx: &Vec<u32>, stencil: &Vec<u32>, out: &mut Vec<T>)
    requires
        idx.len() == stencil.len(),
        idx.len() <= old(out).len(),
        forall|i: int| 0 <= i < idx.len() && stencil@[i] != 0 ==> idx@[i] < src.len(),
    ensures
        final(out).len() == old(out).len(),
        forall|i: int|
            0 <= i < final(out).len() ==> #[trigger] final(out)@[i] == (if i < idx.len() && stencil@[i] != 0 {
                src@[idx@[i] as int]
            } else {
                old(out)@[i]
            }),
{
    let n = idx.len();
    let ghost old_out = out@;
    let mut i: usize = 0;
    while i < n
        invariant
            n == idx.len(),
            n == stencil.len(),
            n <= out.len(),
            out.len() == old_out.len(),
            forall|t: int| 0 <= t < idx.len() && stencil@[t] != 0 ==> idx@[t] < src.len(),
            i <= n,
            forall|t: int|
                0 <= t < out.len() ==> #[trigger] out@[t] == (if t < i && stencil@[t] != 0 {
                    src@[idx@[t] as int]
                } else {
                    old_out[t]
                }),
        decreases n - i,
    {
        if stencil[i] != 0 {
            out.set(i, src[idx[i] as usize]);
        }
        i += 1;
    }
}

/// Like a transform, but only where `stencil` is non-zero:
/// `out[i] = op(input[i])` where `stencil[i] != 0`, and `out[i]` is left as
/// it was elsewhere.
pub fn transform_where<I: Copy, Op: UnaryOp<I>>(
    input: &Vec<I>,
    op: Op,
    stencil: &Vec<u32>,
    out: &mut Vec<Op::Output>,
)
    requires
        input.len() == stencil.len(),
        input.len() <= old(out).len(),
    ensures
        final(out).len() == old(out).len(),
        forall|i: int|
            0 <= i < final(out).len() ==> #[trigger] final(out)@[i] == (if i < input.len() && stencil@[i] != 0 {
                Op::spec_apply(input@[i])
            } else {
                old(out)@[i]
            }),
{
    let n = input.len();
    let ghost old_out = out@;
    let mut i: usize = 0;
    while i < n
        invariant
            n == input.len(),
            n == stencil.len(),
            n <= out.len(),
            out.len() == old_out.len(),
            i <= n,
            forall|t: int|
                0 <= t < out.len() ==> #[trigger] out@[t] == (if t < i && stencil@[t] != 0 {
                    Op::spec_apply(input@[t])
                } else {
                    old_out[t]
                }),
        decreases n - i,
    {
        if stencil[i] != 0 {
            let y = Op::apply(input[i]);
            out.set(i, y);
        }
        i += 1;
    }
}

/// The elements of `values` whose `stencil` entry is zero, in order.
pub open spec fn kept<T>(values: Seq<T>, stencil: Seq<u32>) -> Seq<T>
    decreases values.len(),
{
    if values.len() == 0 {
        Seq::empty()
    } else {
        let n = values.len() - 1;
        let rest = kept(values.take(n), stencil);
        if stencil[n] != 0 {
            rest
        } else {
            rest.push(values[n])
        }
    }
}

/// Removes the elements of `values` whose `stencil` entry is non-zero,
/// keeping the order of the others.
pub fn remove_where<T: Copy>(values: &Vec<T>, stencil: &Vec<u32>) -> (out: Vec<T>)
    requires
        values.len() == stencil.len(),
    ensures
        out@ == kept(values@, stencil@),
        out@ == values_with_key(values@, stencil@, 0, values.len() as nat),
        out.len() == count_of(stencil@, 0),
{
    let n = values.len();
    let mut out: Vec<T> = Vec::new();
    let mut i: usize = 0;
    while i < n
        invariant
            n == values.len(),
            n == stencil.len(),
            i <= n,
            out@ == kept(values@.take(i as int), stencil@),
        decreases n - i,
    {
        assert(values@.take(i + 1).take(i as int) =~= values@.take(i as int));
        if stencil[i] == 0 {
            out.push(values[i]);
        }
        i += 1;
    }
    assert(values@.take(n as int) =~= values@);
    proof {
        lemma_kept_is_values_with_zero_stencil(values@, stencil@);
        lemma_values_with_key_len(values@, stencil@, 0, n as nat);
        assert(stencil@.take(n as int) =~= stencil@);
    }
    out
}

/// Removing keeps exactly the values at the positions whose stencil entry is
/// zero, in position order.
pub proof fn lemma_kept_is_values_with_zero_stencil<T>(values: Seq<T>, stencil: Seq<u32>)
    ensures
        kept(values, stencil) == values_with_key(values, stencil, 0, values.len()),
    decreases values.len(),
{
    reveal(Seq::filter);
    if values.len() == 0 {
        assert(values_with_key(values, stencil, 0, 0) =~= Seq::<T>::empty());
    } else {
        let n = (values.len() - 1) as nat;
        let front = values.take(n as int);
        lemma_kept_is_values_with_zero_stencil(front, stencil);
        lemma_values_with_key_step(values, stencil, 0, n);
        lemma_values_with_key_prefix(values, stencil, n);
    }
}

proof fn lemma_values_with_key_prefix<T>(values: Seq<T>, stencil: Seq<u32>, n: nat)
    requires
        n <= values.len(),
    ensures
        values_with_key(values.take(n as int), stencil, 0, n) == values_with_key(values, stencil, 0, n),
    decreases n,
{
    reveal(Seq::filter);
    if n == 0 {
        assert(values_with_key(values, stencil, 0, 0) =~= Seq::<T>::empty());
        assert(values_with_key(values.take(0), stencil, 0, 0) =~= Seq::<T>::empty());
    } else {
        let m = (n - 1) as nat;
        lemma_values_with_key_prefix(values, stencil, m);
        lemma_values_with_key_prefix(values.take(n as int), stencil, m);
        assert(values.take(n as int).take(m as int) =~= values.take(m as int));
        lemma_values_with_key_step(values, stencil, 0, m);
        lemma_values_with_key_step(values.take(n as int), stencil, 0, m);
    }
}

/// With no particle flagged, removing keeps every value, in order, for any
/// number of values.
pub proof fn lemma_remove_nothing_keeps_all<T>(values: Seq<T>, stencil: Seq<u32>)
    requires
        stencil.len() == values.len(),
        forall|t: int| 0 <= t < stencil.len() ==> stencil[t] == 0,
    ensures
        kept(values, stencil) == values,
{
    lemma_kept_is_values_with_zero_stencil(values, stencil);
    lemma_values_with_key_all(values, stencil, 0, values.len());
    assert(values.take(values.len() as int) =~= values);
}

} // verus!
