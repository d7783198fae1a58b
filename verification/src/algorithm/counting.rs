//! Counting the particles of each cell.
use vstd::prelude::*;
use vstd::wrapping::u32_specs;
use crate::op::{BinaryPredicateOp, UnaryOp};

verus! {

/// `s` is in ascending order.
pub open spec fn is_sorted(s: Seq<u32>) -> bool {
    forall|i: int, j: int| 0 <= i <= j < s.len() ==> s[i] <= s[j]
}

/// The number of elements of `s` equal to `c`.
pub open spec fn count_of(s: Seq<u32>, c: int) -> nat
    decreases s.len(),
{
    if s.len() == 0 {
        0
    } else {
        count_of(s.drop_last(), c) + (if s.last() == c { 1nat } else { 0nat })
    }
}

/// `x < y` on cell keys.
pub struct OrderingU32;

impl BinaryPredicateOp<u32> for OrderingU32 {
    open spec fn spec_apply(x: u32, y: u32) -> bool {
        x < y
    }

    fn apply(x: u32, y: u32) -> (r: bool) {
        x < y
    }
}

/// The length of a bucket from its end and begin positions: `end - begin`,
/// in wrapping `u32` arithmetic.
pub struct CalcDiff;

impl UnaryOp<(u32, u32)> for CalcDiff {
    type Output = u32;

    open spec fn spec_apply(x: (u32, u32)) -> u32 {
        u32_specs::wrapping_sub(x.0, x.1)
    }

    fn apply(x: (u32, u32)) -> (r: u32) {
        let (end, begin) = x;
        end.wrapping_sub(begin)
    }
}

/// The first position of the ascending `sorted` whose element is not less
/// than `value`.
pub fn lower_bound(sorted: &Vec<u32>, value: u32) -> (r: usize)
    requires
        is_sorted(sorted@),
    ensures
        r <= sorted.len(),
        forall|i: int| 0 <= i < r ==> sorted@[i] < value,
        forall|i: int| r <= i < sorted.len() ==> sorted@[i] >= value,
{
    let mut lo: usize = 0;
    let mut hi: usize = sorted.len();
    while lo < hi
        invariant
            lo <= hi <= sorted.len(),
            is_sorted(sorted@),
            forall|i: int| 0 <= i < lo ==> sorted@[i] < value,
            forall|i: int| hi <= i < sorted.len() ==> sorted@[i] >= value,
        decreases hi - lo,
    {
        let mid = lo + (hi - lo) / 2;
        if OrderingU32::apply(sorted[mid], value) {
            lo = mid + 1;
        } else {
            hi = mid;
        }
    }
    lo
}

/// The first position of the ascending `sorted` whose element is greater
/// than `value`.
pub fn upper_bound(sorted: &Vec<u32>, value: u32) -> (r: usize)
    requires
        is_sorted(sorted@),
    ensures
        r <= sorted.len(),
        forall|i: int| 0 <= i < r ==> sorted@[i] <= value,
        forall|i: int| r <= i < sorted.len() ==> sorted@[i] > value,
{
    let mut lo: usize = 0;
    let mut hi: usize = sorted.len();
    while lo < hi
        invariant
            lo <= hi <= sorted.len(),
            is_sorted(sorted@),
            forall|i: int| 0 <= i < lo ==> sorted@[i] <= value,
            forall|i: int| hi <= i < sorted.len() ==> sorted@[i] > value,
        decreases hi - lo,
    {
        let mid = lo + (hi - lo) / 2;
        if OrderingU32::apply(value, sorted[mid]) {
            hi = mid;
        } else {
            lo = mid + 1;
        }
    }
    lo
}

/// In a sequence whose elements below `lb` are less than `c`, whose elements
/// from `lb` to `ub` equal `c` and whose elements from `ub` on are greater,
/// `c` occurs `ub - lb` times.
proof fn lemma_count_of_partitioned(s: Seq<u32>, c: int, lb: int, ub: int)
    requires
        0 <= lb <= ub <= s.len(),
        forall|i: int| 0 <= i < lb ==> s[i] < c,
        forall|i: int| lb <= i < ub ==> s[i] == c,
        forall|i: int| ub <= i < s.len() ==> s[i] > c,
    ensures
        count_of(s, c) == ub - lb,
    decreases s.len(),
{
    if s.len() > 0 {
        let n = s.len() - 1;
        let t = s.drop_last();
        if n >= ub {
            lemma_count_of_partitioned(t, c, lb, ub);
        } else if n >= lb {
            lemma_count_of_partitioned(t, c, lb, n);
        } else {
            lemma_count_of_partitioned(t, c, n, n);
        }
    }
}

/// Counts the particles of each cell.
///
/// `idx` holds the cell index of each particle, in ascending order; `out` has
/// one entry per cell. Afterwards `out[c]` is the number of particles whose
/// cell index is `c`. For `idx = [0, 0, 2, 2, 2, 2]` and three cells the
/// counts are `[2, 0, 4]`.
pub fn bucket_counting(idx: &Vec<u32>, out: &mut Vec<u32>)
    requires
        is_sorted(idx@),
        idx.len() <= u32::MAX,
        old(out).len() <= 0x1_0000_0000,
    ensures
        final(out).len() == old(out).len(),
        forall|c: int| 0 <= c < final(out).len() ==> #[trigger] final(out)@[c] == count_of(idx@, c),
{
    let k = out.len();
    let mut c: usize = 0;
    while c < k
        invariant
            out.len() == k,
            k <= 0x1_0000_0000,
            c <= k,
            is_sorted(idx@),
            idx.len() <= u32::MAX,
            forall|d: int| 0 <= d < c ==> out@[d] == count_of(idx@, d),
        decreases k - c,
    {
        let key = c as u32;
        let begin = lower_bound(idx, key);
        let end = upper_bound(idx, key);
        proof {
            if end < begin {
                assert(idx@[end as int] < key && idx@[end as int] > key);
            }
            lemma_count_of_partitioned(idx@, c as int, begin as int, end as int);
        }
        let n = CalcDiff::apply((end as u32, begin as u32));
        out.set(c, n);
        c += 1;
    }
}

/// The sum of the entries of `s`.
pub open spec fn seq_sum(s: Seq<u32>) -> int
    decreases s.len(),
{
    if s.len() == 0 {
        0
    } else {
        seq_sum(s.drop_last()) + s.last()
    }
}

/// The number of elements of `idx` equal to each of `0, 1, .., k - 1`,
/// summed.
spec fn sum_counts(idx: Seq<u32>, k: nat) -> int
    decreases k,
{
    if k == 0 {
        0
    } else {
        sum_counts(idx, (k - 1) as nat) + count_of(idx, k - 1)
    }
}

proof fn lemma_sum_counts_drop_last(idx: Seq<u32>, k: nat)
    requires
        idx.len() > 0,
    ensures
        sum_counts(idx, k) == sum_counts(idx.drop_last(), k) + (if idx.last() < k { 1int } else { 0int }),
    decreases k,
{
    if k > 0 {
        lemma_sum_counts_drop_last(idx, (k - 1) as nat);
    }
}

proof fn lemma_sum_counts_all(idx: Seq<u32>, k: nat)
    requires
        forall|i: int| 0 <= i < idx.len() ==> idx[i] < k,
    ensures
        sum_counts(idx, k) == idx.len(),
    decreases idx.len(),
{
    if idx.len() == 0 {
        lemma_sum_counts_empty(idx, k);
    } else {
        lemma_sum_counts_drop_last(idx, k);
        lemma_sum_counts_all(idx.drop_last(), k);
    }
}

proof fn lemma_sum_counts_empty(idx: Seq<u32>, k: nat)
    requires
        idx.len() == 0,
    ensures
        sum_counts(idx, k) == 0,
    decreases k,
{
    if k > 0 {
        lemma_sum_counts_empty(idx, (k - 1) as nat);
    }
}

proof fn lemma_seq_sum_is_sum_counts(idx: Seq<u32>, counts: Seq<u32>)
    requires
        forall|c: int| 0 <= c < counts.len() ==> counts[c] == count_of(idx, c),
    ensures
        seq_sum(counts) == sum_counts(idx, counts.len()),
    decreases counts.len(),
{
    if counts.len() > 0 {
        lemma_seq_sum_is_sum_counts(idx, counts.drop_last());
    }
}

/// Counting loses no particle: when every cell index is below the number of
/// cells, the per-cell counts add up to the number of particles.
pub proof fn lemma_bucket_counts_cover_all_particles(idx: Seq<u32>, counts: Seq<u32>)
    requires
        forall|c: int| 0 <= c < counts.len() ==> counts[c] == count_of(idx, c),
        forall|i: int| 0 <= i < idx.len() ==> idx[i] < counts.len(),
    ensures
        seq_sum(counts) == idx.len(),
{
    lemma_seq_sum_is_sum_counts(idx, counts);
    lemma_sum_counts_all(idx, counts.len());
}

/// The positions `0, 1, .., n - 1`.
pub open spec fn positions(n: nat) -> Seq<int> {
    Seq::new(n, |t: int| t)
}

/// Whether the key at a position is `c`.
pub open spec fn key_is(keys: Seq<u32>, c: int) -> spec_fn(int) -> bool {
    |t: int| keys[t] == c
}

/// The value at a position.
pub open spec fn value_at<T>(values: Seq<T>) -> spec_fn(int) -> T {
    |t: int| values[t]
}

/// The entries of `values` at the positions among the first `n` whose key
/// in `keys` is `c`, in position order.
pub open spec fn values_with_key<T>(values: Seq<T>, keys: Seq<u32>, c: int, n: nat) -> Seq<T> {
    positions(n).filter(key_is(keys, c)).map_values(value_at(values))
}

/// Taking one more position appends its value exactly when its key is `c`.
pub proof fn lemma_values_with_key_step<T>(values: Seq<T>, keys: Seq<u32>, c: int, n: nat)
    ensures
        values_with_key(values, keys, c, n + 1) == (if keys[n as int] == c {
            values_with_key(values, keys, c, n).push(values[n as int])
        } else {
            values_with_key(values, keys, c, n)
        }),
{
    reveal(Seq::filter);
    let pos = positions(n + 1);
    assert(pos.drop_last() =~= positions(n));
    assert(pos.last() == n);
    let sub = positions(n).filter(key_is(keys, c));
    assert(pos.filter(key_is(keys, c)) == (if key_is(keys, c)(pos.last()) {
        pos.drop_last().filter(key_is(keys, c)).push(pos.last())
    } else {
        pos.drop_last().filter(key_is(keys, c))
    }));
    if keys[n as int] == c {
        assert(sub.push(n as int).map_values(value_at(values)) =~= sub.map_values(value_at(values)).push(values[n as int]));
    }
}

/// As many values have key `c` as `c` occurs among the keys.
pub proof fn lemma_values_with_key_len<T>(values: Seq<T>, keys: Seq<u32>, c: int, n: nat)
    requires
        n <= keys.len(),
    ensures
        values_with_key(values, keys, c, n).len() == count_of(keys.take(n as int), c),
    decreases n,
{
    reveal(Seq::filter);
    if n == 0 {
        assert(keys.take(0) =~= Seq::<u32>::empty());
        assert(positions(0).filter(key_is(keys, c)) =~= Seq::<int>::empty());
    } else {
        let m = (n - 1) as nat;
        lemma_values_with_key_len(values, keys, c, m);
        lemma_values_with_key_step(values, keys, c, m);
        assert(keys.take(n as int).drop_last() =~= keys.take(m as int));
    }
}

/// When every one of the first `n` keys is `c`, the values with key `c` are
/// the first `n` values.
pub proof fn lemma_values_with_key_all<T>(values: Seq<T>, keys: Seq<u32>, c: int, n: nat)
    requires
        n <= keys.len(),
        n <= values.len(),
        forall|t: int| 0 <= t < n ==> keys[t] == c,
    ensures
        values_with_key(values, keys, c, n) == values.take(n as int),
    decreases n,
{
    reveal(Seq::filter);
    if n == 0 {
        assert(positions(0).filter(key_is(keys, c)) =~= Seq::<int>::empty());
        assert(values_with_key(values, keys, c, 0) =~= values.take(0));
    } else {
        let m = (n - 1) as nat;
        lemma_values_with_key_all(values, keys, c, m);
        lemma_values_with_key_step(values, keys, c, m);
        assert(values.take(m as int).push(values[m as int]) =~= values.take(n as int));
    }
}

} // verus!
