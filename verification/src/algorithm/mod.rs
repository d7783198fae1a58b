//! Data-parallel algorithms over particle columns keyed by cell index.
pub mod counting;
pub mod reduce;
pub mod movement;

pub use counting::bucket_counting;
pub use reduce::reduce_by_bucket;

use vstd::prelude::*;
use vstd::set_lib::{lemma_int_range, lemma_map_size, lemma_subset_equality, set_int_range};
use vstd::relations::injective_on;
use crate::algorithm::counting::{count_of, is_sorted, OrderingU32};
use crate::op::{BinaryPredicateOp, UnaryOp};

verus! {

/// `less` is a strict total order on keys.
pub open spec fn is_strict_total_order<L: BinaryPredicateOp<u32>>() -> bool {
    &&& forall|x: u32| !#[trigger] L::spec_apply(x, x)
    &&& forall|x: u32, y: u32, z: u32|
        #[trigger] L::spec_apply(x, y) && #[trigger] L::spec_apply(y, z) ==> L::spec_apply(x, z)
    &&& forall|x: u32, y: u32| #![trigger L::spec_apply(x, y)] x != y ==> L::spec_apply(x, y) || L::spec_apply(y, x)
}

/// In a stable sort by key, the particle at position `a` comes before the one
/// at position `b`: its key is less, or the keys are equal and `a < b`.
pub open spec fn precedes<L: BinaryPredicateOp<u32>>(keys: Seq<u32>, a: int, b: int) -> bool {
    L::spec_apply(keys[a], keys[b]) || (keys[a] == keys[b] && a < b)
}

/// Every two positions of `p` are in the order of `precedes`.
pub open spec fn is_ordered_by<L: BinaryPredicateOp<u32>>(keys: Seq<u32>, p: Seq<usize>) -> bool {
    forall|i: int, j: int| 0 <= i < j < p.len() ==> precedes::<L>(keys, p[i] as int, p[j] as int)
}

/// `p` lists positions of `keys` in the order of a stable sort by key: as
/// many as there are keys, each a valid position, every two in the order of
/// [`precedes`] (so no position occurs twice, and every position occurs).
pub open spec fn is_stable_sort_order<L: BinaryPredicateOp<u32>>(keys: Seq<u32>, p: Seq<usize>) -> bool {
    &&& p.len() == keys.len()
    &&& forall|t: int| 0 <= t < p.len() ==> p[t] < keys.len()
    &&& is_ordered_by::<L>(keys, p)
}

proof fn lemma_precedes_transitive<L: BinaryPredicateOp<u32>>(keys: Seq<u32>, a: int, b: int, c: int)
    requires
        is_strict_total_order::<L>(),
        precedes::<L>(keys, a, b),
        precedes::<L>(keys, b, c),
    ensures
        precedes::<L>(keys, a, c),
{
    if L::spec_apply(keys[a], keys[b]) && L::spec_apply(keys[b], keys[c]) {
        assert(L::spec_apply(keys[a], keys[c]));
    }
}

/// Merges two runs of positions, each ordered by `precedes`, taken from
/// `[lo, mid)` and `[mid, hi)`.
fn merge<L: BinaryPredicateOp<u32>>(
    keys: &Vec<u32>,
    a: &Vec<usize>,
    b: &Vec<usize>,
    lo: usize,
    mid: usize,
    hi: usize,
) -> (r: Vec<usize>)
    requires
        is_strict_total_order::<L>(),
        lo <= mid <= hi <= keys.len(),
        forall|t: int| 0 <= t < a.len() ==> lo <= #[trigger] a@[t] < mid,
        forall|t: int| 0 <= t < b.len() ==> mid <= #[trigger] b@[t] < hi,
        is_ordered_by::<L>(keys@, a@),
        is_ordered_by::<L>(keys@, b@),
    ensures
        r.len() == a.len() + b.len(),
        forall|t: int| 0 <= t < r.len() ==> lo <= #[trigger] r@[t] < hi,
        is_ordered_by::<L>(keys@, r@),
{
    let mut r: Vec<usize> = Vec::new();
    let mut ia: usize = 0;
    let mut ib: usize = 0;
    while ia < a.len() || ib < b.len()
        invariant
            is_strict_total_order::<L>(),
            lo <= mid <= hi <= keys.len(),
            forall|t: int| 0 <= t < a.len() ==> lo <= #[trigger] a@[t] < mid,
            forall|t: int| 0 <= t < b.len() ==> mid <= #[trigger] b@[t] < hi,
            is_ordered_by::<L>(keys@, a@),
            is_ordered_by::<L>(keys@, b@),
            ia <= a.len(),
            ib <= b.len(),
            r.len() == ia + ib,
            forall|t: int| 0 <= t < r.len() ==> lo <= #[trigger] r@[t] < hi,
            is_ordered_by::<L>(keys@, r@),
            forall|t: int, i: int|
                0 <= t < r.len() && ia <= i < a.len() ==> precedes::<L>(keys@, r@[t] as int, a@[i] as int),
            forall|t: int, j: int|
                0 <= t < r.len() && ib <= j < b.len() ==> precedes::<L>(keys@, r@[t] as int, b@[j] as int),
        decreases a.len() + b.len() - ia - ib,
    {
        let take_a = if ia >= a.len() {
            false
        } else if ib >= b.len() {
            true
        } else {
            !L::apply(keys[b[ib]], keys[a[ia]])
        };
        let ghost r0 = r@;
        if take_a {
            let e = a[ia];
            proof {
                if ib < b.len() {
                    let ka = keys@[e as int];
                    let kb = keys@[b@[ib as int] as int];
                    if ka != kb {
                        assert(L::spec_apply(ka, kb) || L::spec_apply(kb, ka));
                    }
                    assert(precedes::<L>(keys@, e as int, b@[ib as int] as int));
                    assert forall|j: int| ib <= j < b.len() implies precedes::<L>(keys@, e as int, b@[j] as int) by {
                        if j > ib {
                            lemma_precedes_transitive::<L>(keys@, e as int, b@[ib as int] as int, b@[j] as int);
                        }
                    }
                }
            }
            r.push(e);
            ia += 1;
            proof {
                assert forall|i: int, j: int| 0 <= i < j < r.len() implies precedes::<L>(keys@, r@[i] as int, r@[j] as int) by {
                    if j < r0.len() {
                        assert(r@[i] == r0[i] && r@[j] == r0[j]);
                    } else {
                        assert(r@[i] == r0[i]);
                    }
                }
            }
        } else {
            let e = b[ib];
            proof {
                if ia < a.len() {
                    assert(L::spec_apply(keys@[e as int], keys@[a@[ia as int] as int]));
                    assert(precedes::<L>(keys@, e as int, a@[ia as int] as int));
                    assert forall|i: int| ia <= i < a.len() implies precedes::<L>(keys@, e as int, a@[i] as int) by {
                        if i > ia {
                            lemma_precedes_transitive::<L>(keys@, e as int, a@[ia as int] as int, a@[i] as int);
                        }
                    }
                }
            }
            r.push(e);
            ib += 1;
            proof {
                assert forall|i: int, j: int| 0 <= i < j < r.len() implies precedes::<L>(keys@, r@[i] as int, r@[j] as int) by {
                    if j < r0.len() {
                        assert(r@[i] == r0[i] && r@[j] == r0[j]);
                    } else {
                        assert(r@[i] == r0[i]);
                    }
                }
            }
        }
    }
    r
}

/// The positions `[lo, hi)` in the order of a stable sort by key.
fn merge_sort<L: BinaryPredicateOp<u32>>(keys: &Vec<u32>, lo: usize, hi: usize) -> (r: Vec<usize>)
    requires
        is_strict_total_order::<L>(),
        lo <= hi <= keys.len(),
    ensures
        r.len() == hi - lo,
        forall|t: int| 0 <= t < r.len() ==> lo <= #[trigger] r@[t] < hi,
        is_ordered_by::<L>(keys@, r@),
    decreases hi - lo,
{
    if hi - lo <= 1 {
        let mut r: Vec<usize> = Vec::new();
        if hi > lo {
            r.push(lo);
        }
        r
    } else {
        let mid = lo + (hi - lo) / 2;
        let a = merge_sort::<L>(keys, lo, mid);
        let b = merge_sort::<L>(keys, mid, hi);
        merge::<L>(keys, &a, &b, lo, mid, hi)
    }
}

/// Sorts particle values by `u32` cell key and returns the sorted keys as
/// well.
///
/// The sort is stable: particles with equal keys keep their order. Keys and
/// values move together, so the columns of `values` stay aligned with their
/// keys. For keys `[2, 0, 2, 1]` and values `[20, 0, 21, 10]` the sorted keys
/// are `[0, 1, 2, 2]` and the sorted values `[0, 10, 20, 21]`.
pub fn sort_by_key_with_keys<V: Copy, Less: BinaryPredicateOp<u32>>(
    keys: &Vec<u32>,
    values: &Vec<V>,
    less: Less,
) -> (r: (Vec<u32>, Vec<V>))
    requires
        is_strict_total_order::<Less>(),
        values.len() == keys.len(),
    ensures
        r.0.len() == keys.len(),
        r.1.len() == keys.len(),
        forall|i: int, j: int| 0 <= i < j < keys.len() ==> !Less::spec_apply(r.0@[j], r.0@[i]),
        forall|c: int| #[trigger] count_of(r.0@, c) == count_of(keys@, c),
        exists|p: Seq<usize>|
            {
                &&& is_stable_sort_order::<Less>(keys@, p)
                &&& forall|t: int| 0 <= t < p.len() ==> r.0@[t] == keys@[p[t] as int] && r.1@[t] == values@[p[t] as int]
            },
{
    let n = keys.len();
    let perm = merge_sort::<Less>(keys, 0, n);
    let mut sorted_keys: Vec<u32> = Vec::new();
    let mut sorted_values: Vec<V> = Vec::new();
    let mut t: usize = 0;
    while t < n
        invariant
            n == keys.len(),
            n == values.len(),
            perm.len() == n,
            forall|s: int| 0 <= s < perm.len() ==> 0 <= #[trigger] perm@[s] < n,
            t <= n,
            sorted_keys.len() == t,
            sorted_values.len() == t,
            forall|s: int| 0 <= s < t ==> sorted_keys@[s] == keys@[perm@[s] as int] && sorted_values@[s] == values@[perm@[s] as int],
        decreases n - t,
    {
        let q = perm[t];
        sorted_keys.push(keys[q]);
        sorted_values.push(values[q]);
        t += 1;
    }
    assert(is_stable_sort_order::<Less>(keys@, perm@));
    assert forall|i: int, j: int| 0 <= i < j < n implies !Less::spec_apply(sorted_keys@[j], sorted_keys@[i]) by {
        lemma_precedes_not_reversed::<Less>(keys@, perm@[i] as int, perm@[j] as int);
    }
    assert forall|c: int| #[trigger] count_of(sorted_keys@, c) == count_of(keys@, c) by {
        lemma_sort_keeps_counts::<Less>(keys@, perm@, sorted_keys@, c);
    }
    (sorted_keys, sorted_values)
}

/// The positions of `s` that hold `c`.
spec fn positions_of(s: Seq<u32>, c: int) -> Set<int> {
    Set::new(|t: int| 0 <= t < s.len() && s[t] == c)
}

proof fn lemma_count_of_is_positions(s: Seq<u32>, c: int)
    ensures
        positions_of(s, c).finite(),
        count_of(s, c) == positions_of(s, c).len(),
    decreases s.len(),
{
    if s.len() == 0 {
        assert(positions_of(s, c) =~= Set::<int>::empty());
    } else {
        let t = s.drop_last();
        let n = s.len() - 1;
        lemma_count_of_is_positions(t, c);
        if s.last() == c {
            assert(positions_of(s, c) =~= positions_of(t, c).insert(n));
            assert(!positions_of(t, c).contains(n));
        } else {
            assert(positions_of(s, c) =~= positions_of(t, c));
        }
    }
}

/// Sorting by key keeps the number of particles of every cell: the keys in
/// a stable sort order hold each value exactly as often as the keys do.
pub proof fn lemma_sort_keeps_counts<L: BinaryPredicateOp<u32>>(keys: Seq<u32>, p: Seq<usize>, sorted: Seq<u32>, c: int)
    requires
        is_strict_total_order::<L>(),
        is_stable_sort_order::<L>(keys, p),
        keys.len() <= usize::MAX,
        sorted.len() == p.len(),
        forall|t: int| 0 <= t < p.len() ==> sorted[t] == keys[p[t] as int],
    ensures
        count_of(sorted, c) == count_of(keys, c),
{
    lemma_stable_sort_order_is_permutation::<L>(keys, p);
    lemma_count_of_is_positions(sorted, c);
    lemma_count_of_is_positions(keys, c);
    let a = positions_of(sorted, c);
    let b = positions_of(keys, c);
    let f = |t: int| p[t] as int;
    assert(injective_on(f, a));
    assert(a.map(f) =~= b) by {
        assert forall|x: int| a.map(f).contains(x) implies b.contains(x) by {
            let t = choose|t: int| a.contains(t) && x == f(t);
        }
        assert forall|x: int| b.contains(x) implies a.map(f).contains(x) by {
            let y = x as usize;
            assert(y as int == x);
            assert(p.contains(y));
            let t = choose|t: int| 0 <= t < p.len() && p[t] == y;
            assert(sorted[t] == keys[x]);
            assert(a.contains(t) && x == f(t));
        }
    }
    lemma_map_size(a, b, f);
}

proof fn lemma_precedes_not_reversed<L: BinaryPredicateOp<u32>>(keys: Seq<u32>, a: int, b: int)
    requires
        is_strict_total_order::<L>(),
        precedes::<L>(keys, a, b),
    ensures
        !L::spec_apply(keys[b], keys[a]),
        a != b,
{
    if L::spec_apply(keys[a], keys[b]) && L::spec_apply(keys[b], keys[a]) {
        assert(L::spec_apply(keys[a], keys[a]));
    }
}

/// `x < y` is a strict total order on keys.
pub proof fn lemma_ordering_u32_is_strict_total_order()
    ensures
        is_strict_total_order::<counting::OrderingU32>(),
{
}

/// A stable sort order is a permutation of the positions: no position occurs
/// twice, and every position occurs.
pub proof fn lemma_stable_sort_order_is_permutation<L: BinaryPredicateOp<u32>>(keys: Seq<u32>, p: Seq<usize>)
    requires
        is_strict_total_order::<L>(),
        is_stable_sort_order::<L>(keys, p),
    ensures
        forall|i: int, j: int| 0 <= i < p.len() && 0 <= j < p.len() && i != j ==> p[i] != p[j],
        forall|x: usize| x < keys.len() ==> #[trigger] p.contains(x),
{
    let n = keys.len() as int;
    assert forall|i: int, j: int| 0 <= i < p.len() && 0 <= j < p.len() && i != j implies p[i] != p[j] by {
        if i < j {
            lemma_precedes_not_reversed::<L>(keys, p[i] as int, p[j] as int);
        } else {
            lemma_precedes_not_reversed::<L>(keys, p[j] as int, p[i] as int);
        }
    }
    let q = p.map_values(|x: usize| x as int);
    assert(q.no_duplicates());
    q.unique_seq_to_set();
    lemma_int_range(0, n);
    assert(q.to_set().subset_of(set_int_range(0, n))) by {
        assert forall|x: int| q.to_set().contains(x) implies set_int_range(0, n).contains(x) by {
            let t = choose|t: int| 0 <= t < q.len() && q[t] == x;
        }
    }
    vstd::seq_lib::seq_to_set_is_finite(q);
    lemma_subset_equality(q.to_set(), set_int_range(0, n));
    assert forall|x: usize| x < keys.len() implies #[trigger] p.contains(x) by {
        assert(set_int_range(0, n).contains(x as int));
        assert(q.to_set().contains(x as int));
        let t = choose|t: int| 0 <= t < q.len() && q[t] == x as int;
        assert(p[t] == x);
    }
}

/// Applies `op` to every element of `input`, writing the results into the
/// first `input.len()` entries of `output`; the other entries are left as
/// they were.
pub fn transform_into<I: Copy, Op: UnaryOp<I>>(input: &Vec<I>, op: Op, output: &mut Vec<Op::Output>)
    requires
        input.len() <= old(output).len(),
    ensures
        final(output).len() == old(output).len(),
        forall|t: int| 0 <= t < input.len() ==> final(output)@[t] == Op::spec_apply(input@[t]),
        forall|t: int| input.len() <= t < final(output).len() ==> final(output)@[t] == old(output)@[t],
{
    let n = input.len();
    let ghost old_output = output@;
    let mut t: usize = 0;
    while t < n
        invariant
            n == input.len(),
            n <= output.len(),
            output.len() == old_output.len(),
            t <= n,
            forall|s: int| 0 <= s < t ==> output@[s] == Op::spec_apply(input@[s]),
            forall|s: int| t <= s < output.len() ==> output@[s] == old_output[s],
        decreases n - t,
    {
        let y = Op::apply(input[t]);
        output.set(t, y);
        t += 1;
    }
}

/// The number of particles in each of `n_cell` cells, from the cell index
/// of each particle in any order: the indices are sorted, then counted.
pub fn count_cells(idx: &Vec<u32>, n_cell: u32) -> (counts: Vec<u32>)
    requires
        idx.len() <= u32::MAX,
    ensures
        counts.len() == n_cell,
        forall|c: int| 0 <= c < n_cell ==> #[trigger] counts@[c] == count_of(idx@, c),
{
    proof {
        lemma_ordering_u32_is_strict_total_order();
    }
    let (sorted, _) = sort_by_key_with_keys(idx, idx, OrderingU32);
    assert(is_sorted(sorted@)) by {
        assert forall|i: int, j: int| 0 <= i <= j < sorted.len() implies sorted@[i] <= sorted@[j] by {
            if i < j {
                assert(!OrderingU32::spec_apply(sorted@[j], sorted@[i]));
            }
        }
    }
    let mut counts: Vec<u32> = Vec::new();
    let mut c: u32 = 0;
    while c < n_cell
        invariant
            c <= n_cell,
            counts.len() == c,
        decreases n_cell - c,
    {
        counts.push(0);
        c += 1;
    }
    bucket_counting(&sorted, &mut counts);
    assert forall|c: int| 0 <= c < n_cell implies #[trigger] counts@[c] == count_of(idx@, c) by {
        assert(count_of(sorted@, c) == count_of(idx@, c));
    }
    counts
}

} // verus!
