//! Reducing the values of the particles of each cell.
use vstd::prelude::*;
use crate::op::{BinaryPredicateOp, ReductionOp};
use crate::algorithm::counting::{
    bucket_counting, count_of, is_sorted, lemma_values_with_key_len, lemma_values_with_key_step, values_with_key,
};

verus! {

/// `x == y` on cell keys.
pub struct Equal;

impl BinaryPredicateOp<u32> for Equal {
    open spec fn spec_apply(x: u32, y: u32) -> bool {
        x == y
    }

    fn apply(x: u32, y: u32) -> (r: bool) {
        x == y
    }
}

/// The fold with `S`, starting from `zero`, of the values among the first
/// `n` particles whose cell key is `c`, in particle order.
pub open spec fn fold_prefix<V, S: ReductionOp<V>>(idx: Seq<u32>, v: Seq<V>, zero: V, c: int, n: nat) -> V
    decreases n,
{
    if n == 0 {
        zero
    } else {
        let acc = fold_prefix::<V, S>(idx, v, zero, c, (n - 1) as nat);
        if idx[n - 1] == c {
            S::spec_apply(acc, v[n - 1])
        } else {
            acc
        }
    }
}

/// The fold with `S`, starting from `zero`, of the values of all the
/// particles whose cell key is `c`, in particle order.
pub open spec fn bucket_fold<V, S: ReductionOp<V>>(idx: Seq<u32>, v: Seq<V>, zero: V, c: int) -> V {
    fold_prefix::<V, S>(idx, v, zero, c, idx.len())
}

/// The reduction `S` as a spec function of the running value and the next
/// value.
pub open spec fn reducer<V, S: ReductionOp<V>>() -> spec_fn(V, V) -> V {
    |a: V, x: V| S::spec_apply(a, x)
}

/// The fold of a cell is the left fold with `S`, from `zero`, of the values
/// of the particles in that cell taken in particle order: the value of each
/// further particle of the cell is combined into the running value.
pub proof fn lemma_fold_prefix_is_fold_of_cell_values<V, S: ReductionOp<V>>(
    idx: Seq<u32>,
    v: Seq<V>,
    zero: V,
    c: int,
    n: nat,
)
    ensures
        fold_prefix::<V, S>(idx, v, zero, c, n) == values_with_key(v, idx, c, n).fold_left(zero, reducer::<V, S>()),
    decreases n,
{
    if n == 0 {
        reveal(Seq::filter);
        assert(values_with_key(v, idx, c, 0) =~= Seq::<V>::empty());
    } else {
        let m = (n - 1) as nat;
        lemma_fold_prefix_is_fold_of_cell_values::<V, S>(idx, v, zero, c, m);
        lemma_values_with_key_step(v, idx, c, m);
        let s = values_with_key(v, idx, c, m);
        if idx[m as int] == c {
            assert(s.push(v[m as int]).drop_last() =~= s);
        }
    }
}

/// Reducing cell `c` folds as many values as the cell holds particles.
pub proof fn lemma_cell_values_len<V>(idx: Seq<u32>, v: Seq<V>, c: int)
    ensures
        values_with_key(v, idx, c, idx.len()).len() == count_of(idx, c),
{
    lemma_values_with_key_len(v, idx, c, idx.len());
    assert(idx.take(idx.len() as int) =~= idx);
}

/// Adding one element to a prefix adds one to the count of its value.
proof fn lemma_count_of_take_step(s: Seq<u32>, c: int, n: int)
    requires
        0 <= n < s.len(),
    ensures
        count_of(s.take(n + 1), c) == count_of(s.take(n), c) + (if s[n] == c { 1nat } else { 0nat }),
{
    assert(s.take(n + 1).drop_last() =~= s.take(n));
}

/// Values outside the range `[i, j)` decide the fold of a key absent from
/// that range.
proof fn lemma_fold_skips<V, S: ReductionOp<V>>(idx: Seq<u32>, v: Seq<V>, zero: V, c: int, i: nat, j: nat)
    requires
        i <= j <= idx.len(),
        forall|t: int| i <= t < j ==> idx[t] != c,
    ensures
        fold_prefix::<V, S>(idx, v, zero, c, j) == fold_prefix::<V, S>(idx, v, zero, c, i),
        count_of(idx.take(j as int), c) == count_of(idx.take(i as int), c),
    decreases j - i,
{
    if j > i {
        lemma_fold_skips::<V, S>(idx, v, zero, c, i, (j - 1) as nat);
        lemma_count_of_take_step(idx, c, j - 1);
    }
}

/// A key that does not occur among the first `n` particles folds to `zero`.
proof fn lemma_fold_absent<V, S: ReductionOp<V>>(idx: Seq<u32>, v: Seq<V>, zero: V, c: int, n: nat)
    requires
        n <= idx.len(),
        forall|t: int| 0 <= t < n ==> idx[t] != c,
    ensures
        fold_prefix::<V, S>(idx, v, zero, c, n) == zero,
        count_of(idx.take(n as int), c) == 0,
    decreases n,
{
    lemma_fold_skips::<V, S>(idx, v, zero, c, 0, n);
    assert(idx.take(0) =~= Seq::<u32>::empty());
}

/// Reduces the values of the particles of each cell and counts them.
///
/// `idx` holds the cell index of each particle in ascending order and `v`
/// its value. For each cell `c` that holds a particle, `out[c]` becomes the
/// fold with `sum`, starting from `zero`, of the values of its particles in
/// particle order; the entries of empty cells are left as they were, and
/// particles whose key is not below `out.len()` reach no entry.
/// `counts[c]` becomes the number of particles in cell `c`. For
/// `v = [1, 2, 3, 4, 5]`, `idx = [0, 0, 2, 2, 2]`, addition and three
/// cells, the sums are `[3, _, 12]` and the counts `[2, 0, 3]`.
pub fn reduce_by_bucket<V: Copy, S: ReductionOp<V>>(
    idx: &Vec<u32>,
    v: &Vec<V>,
    zero: V,
    sum: S,
    out: &mut Vec<V>,
    counts: &mut Vec<u32>,
)
    requires
        is_sorted(idx@),
        v.len() == idx.len(),
        idx.len() <= u32::MAX,
        old(counts).len() <= 0x1_0000_0000,
    ensures
        final(out).len() == old(out).len(),
        forall|c: int|
            0 <= c < final(out).len() ==> #[trigger] final(out)@[c] == (if count_of(idx@, c) > 0 {
                bucket_fold::<V, S>(idx@, v@, zero, c)
            } else {
                old(out)@[c]
            }),
        forall|c: int|
            0 <= c < final(out).len() && count_of(idx@, c) > 0 ==> #[trigger] final(out)@[c] == values_with_key(
                v@,
                idx@,
                c,
                idx@.len(),
            ).fold_left(zero, reducer::<V, S>()),
        final(counts).len() == old(counts).len(),
        forall|c: int| 0 <= c < final(counts).len() ==> #[trigger] final(counts)@[c] == count_of(idx@, c),
{
    let n = idx.len();
    let k = out.len();
    let ghost old_out = out@;
    let mut i: usize = 0;
    while i < n
        invariant
            n == idx.len(),
            n == v.len(),
            k == out.len(),
            old_out.len() == k,
            i <= n,
            is_sorted(idx@),
            i == 0 || i == n || idx@[i - 1] < idx@[i as int],
            forall|c: int|
                0 <= c < k ==> out@[c] == (if count_of(idx@.take(i as int), c) > 0 {
                    fold_prefix::<V, S>(idx@, v@, zero, c, i as nat)
                } else {
                    old_out[c]
                }),
        decreases n - i,
    {
        let key = idx[i];
        proof {
            assert forall|t: int| 0 <= t < i implies idx@[t] != key by {
                if i > 0 {
                    assert(idx@[t] <= idx@[i - 1]);
                }
            }
            lemma_fold_absent::<V, S>(idx@, v@, zero, key as int, i as nat);
            lemma_count_of_take_step(idx@, key as int, i as int);
        }
        let mut acc = S::apply(zero, v[i]);
        let mut j: usize = i + 1;
        while j < n && Equal::apply(idx[j], key)
            invariant
                n == idx.len(),
                n == v.len(),
                i < j <= n,
                forall|t: int| i <= t < j ==> idx@[t] == key,
                acc == fold_prefix::<V, S>(idx@, v@, zero, key as int, j as nat),
                count_of(idx@.take(j as int), key as int) > 0,
            decreases n - j,
        {
            proof {
                lemma_count_of_take_step(idx@, key as int, j as int);
            }
            acc = S::apply(acc, v[j]);
            j += 1;
        }
        if (key as usize) < k {
            out.set(key as usize, acc);
        }
        proof {
            assert forall|c: int| 0 <= c < k implies out@[c] == (if count_of(idx@.take(j as int), c) > 0 {
                fold_prefix::<V, S>(idx@, v@, zero, c, j as nat)
            } else {
                old_out[c]
            }) by {
                if c != key {
                    lemma_fold_skips::<V, S>(idx@, v@, zero, c, i as nat, j as nat);
                }
            }
            if j < n {
                assert(idx@[j - 1] <= idx@[j as int]);
            }
        }
        i = j;
    }
    proof {
        assert(idx@.take(n as int) =~= idx@);
        assert forall|c: int| 0 <= c < k && count_of(idx@, c) > 0 implies #[trigger] out@[c] == values_with_key(
            v@,
            idx@,
            c,
            idx@.len(),
        ).fold_left(zero, reducer::<V, S>()) by {
            lemma_fold_prefix_is_fold_of_cell_values::<V, S>(idx@, v@, zero, c, n as nat);
        }
    }
    bucket_counting(idx, counts);
}

} // verus!
