use bph_gpu::algorithm::counting::{lower_bound, upper_bound, CalcDiff, OrderingU32};
use bph_gpu::algorithm::movement::{gather, gather_where, remove_where, transform_where};
use bph_gpu::algorithm::reduce::Equal;
use bph_gpu::algorithm::{bucket_counting, count_cells, reduce_by_bucket, sort_by_key_with_keys, transform_into};
use bph_gpu::op::{BinaryPredicateOp, ReductionOp, UnaryOp};

struct SumU32;

impl ReductionOp<u32> for SumU32 {
    fn spec_apply(x: u32, y: u32) -> u32 {
        x + y
    }

    fn apply(x: u32, y: u32) -> u32 {
        x + y
    }
}

struct LessU32;

impl BinaryPredicateOp<u32> for LessU32 {
    fn spec_apply(lhs: u32, rhs: u32) -> bool {
        lhs < rhs
    }

    fn apply(lhs: u32, rhs: u32) -> bool {
        lhs < rhs
    }
}

/// Keeps the first of two values: a reduction that is not commutative, to
/// show the order in which a cell's values are folded.
struct First;

impl ReductionOp<(u32, u32)> for First {
    fn spec_apply(x: (u32, u32), y: (u32, u32)) -> (u32, u32) {
        if x.1 == 0 { y } else { x }
    }

    fn apply(x: (u32, u32), y: (u32, u32)) -> (u32, u32) {
        if x.1 == 0 { y } else { x }
    }
}

struct Double;

impl UnaryOp<u32> for Double {
    type Output = u64;

    fn spec_apply(x: u32) -> u64 {
        2 * x as u64
    }

    fn apply(x: u32) -> u64 {
        2 * x as u64
    }
}

#[test]
fn test_bucket_counting() {
    let idx = vec![0_u32, 0, 2, 2, 2, 2];
    let mut counts = vec![0_u32; 3];
    bucket_counting(&idx, &mut counts);
    assert_eq!(counts, vec![2, 0, 4]);
}

#[test]
fn bucket_counting_overwrites_every_cell() {
    let idx = vec![1_u32, 1, 3];
    let mut counts = vec![9_u32; 5];
    bucket_counting(&idx, &mut counts);
    assert_eq!(counts, vec![0, 2, 0, 1, 0]);
}

#[test]
fn bucket_counting_of_no_particles() {
    let idx: Vec<u32> = vec![];
    let mut counts = vec![5_u32; 2];
    bucket_counting(&idx, &mut counts);
    assert_eq!(counts, vec![0, 0]);
}

#[test]
fn bucket_counts_add_up_to_the_particles() {
    let idx = vec![0_u32, 0, 1, 4, 4, 4, 4, 6];
    let mut counts = vec![0_u32; 7];
    bucket_counting(&idx, &mut counts);
    assert_eq!(counts.iter().sum::<u32>() as usize, idx.len());
    assert_eq!(counts, vec![2, 1, 0, 0, 4, 0, 1]);
}

#[test]
fn bucket_counting_ignores_keys_beyond_the_cells() {
    let idx = vec![0_u32, 2, 2, 7];
    let mut counts = vec![0_u32; 2];
    bucket_counting(&idx, &mut counts);
    assert_eq!(counts, vec![1, 0]);
}

#[test]
fn lower_and_upper_bounds() {
    let v = vec![1_u32, 3, 3, 3, 8];
    assert_eq!(lower_bound(&v, 0), 0);
    assert_eq!(upper_bound(&v, 0), 0);
    assert_eq!(lower_bound(&v, 3), 1);
    assert_eq!(upper_bound(&v, 3), 4);
    assert_eq!(lower_bound(&v, 5), 4);
    assert_eq!(upper_bound(&v, 5), 4);
    assert_eq!(lower_bound(&v, 9), 5);
    assert_eq!(upper_bound(&v, 8), 5);
}

#[test]
fn sort_by_key_keeps_all_columns_aligned() {
    let keys = vec![2_u32, 0, 2, 1];
    let first = vec![20_u32, 0, 21, 10];
    let second = vec![200_u32, 0, 210, 100];
    let values: Vec<(u32, u32)> = first.iter().copied().zip(second.iter().copied()).collect();

    let (sorted_keys, sorted_values) = sort_by_key_with_keys(&keys, &values, LessU32);
    let sorted_first: Vec<u32> = sorted_values.iter().map(|p| p.0).collect();
    let sorted_second: Vec<u32> = sorted_values.iter().map(|p| p.1).collect();

    assert_eq!(sorted_keys, vec![0, 1, 2, 2]);
    assert_eq!(sorted_first, vec![0, 10, 20, 21]);
    assert_eq!(sorted_second, vec![0, 100, 200, 210]);
}

#[test]
fn sort_by_key_is_stable() {
    let keys = vec![3_u32, 1, 3, 1, 0, 3, 1];
    let values: Vec<u32> = (0..7).collect();
    let (sorted_keys, sorted_values) = sort_by_key_with_keys(&keys, &values, OrderingU32);
    assert_eq!(sorted_keys, vec![0, 1, 1, 1, 3, 3, 3]);
    assert_eq!(sorted_values, vec![4, 1, 3, 6, 0, 2, 5]);
}

#[test]
fn sort_by_key_of_many_keys_is_a_sorted_permutation() {
    let n = 1000_u32;
    let keys: Vec<u32> = (0..n).map(|i| (i * 7919) % 97).collect();
    let values: Vec<u32> = (0..n).collect();
    let (sorted_keys, sorted_values) = sort_by_key_with_keys(&keys, &values, OrderingU32);
    for t in 1..n as usize {
        assert!(sorted_keys[t - 1] <= sorted_keys[t]);
        if sorted_keys[t - 1] == sorted_keys[t] {
            assert!(sorted_values[t - 1] < sorted_values[t]);
        }
    }
    let mut seen = sorted_values.clone();
    seen.sort();
    assert_eq!(seen, values);
    for t in 0..n as usize {
        assert_eq!(sorted_keys[t], keys[sorted_values[t] as usize]);
    }
}

#[test]
fn sort_by_key_of_nothing() {
    let keys: Vec<u32> = vec![];
    let values: Vec<u32> = vec![];
    let (sorted_keys, sorted_values) = sort_by_key_with_keys(&keys, &values, OrderingU32);
    assert!(sorted_keys.is_empty());
    assert!(sorted_values.is_empty());
}

#[test]
fn test_reduce_by_bucket() {
    let idx = vec![0_u32, 0, 2, 2, 2];
    let v = vec![1_u32, 2, 3, 4, 5];
    let mut sum = vec![0_u32; 3];
    let mut counts = vec![0_u32; 3];

    reduce_by_bucket(&idx, &v, 0, SumU32, &mut sum, &mut counts);

    assert_eq!(sum, vec![3, 0, 12]);
    assert_eq!(counts, vec![2, 0, 3]);
}

#[test]
fn reduce_by_bucket_leaves_empty_cells_alone() {
    let idx = vec![1_u32, 1, 3];
    let v = vec![10_u32, 20, 30];
    let mut sum = vec![7_u32; 5];
    let mut counts = vec![9_u32; 5];

    reduce_by_bucket(&idx, &v, 0, SumU32, &mut sum, &mut counts);

    assert_eq!(sum, vec![7, 30, 7, 30, 7]);
    assert_eq!(counts, vec![0, 2, 0, 1, 0]);
}

#[test]
fn reduce_by_bucket_folds_in_particle_order() {
    let idx = vec![0_u32, 0, 0, 1];
    let v = vec![(5_u32, 1_u32), (6, 1), (7, 1), (8, 1)];
    let mut out = vec![(0_u32, 0_u32); 2];
    let mut counts = vec![0_u32; 2];

    reduce_by_bucket(&idx, &v, (0, 0), First, &mut out, &mut counts);

    assert_eq!(out, vec![(5, 1), (8, 1)]);
    assert_eq!(counts, vec![3, 1]);
}

#[test]
fn transform_into_writes_a_prefix() {
    let input = vec![1_u32, 2, 3];
    let mut output = vec![100_u64; 5];
    transform_into(&input, Double, &mut output);
    assert_eq!(output, vec![2, 4, 6, 100, 100]);
}

#[test]
fn calc_diff_is_end_minus_begin() {
    assert_eq!(<CalcDiff as UnaryOp<(u32, u32)>>::apply((7, 3)), 4);
    assert_eq!(<CalcDiff as UnaryOp<(u32, u32)>>::apply((3, 3)), 0);
    assert_eq!(<CalcDiff as UnaryOp<(u32, u32)>>::apply((3, 4)), u32::MAX);
}

#[test]
fn key_predicates() {
    assert!(<OrderingU32 as BinaryPredicateOp<u32>>::apply(1, 2));
    assert!(!<OrderingU32 as BinaryPredicateOp<u32>>::apply(2, 2));
    assert!(!<OrderingU32 as BinaryPredicateOp<u32>>::apply(3, 2));
    assert!(<Equal as BinaryPredicateOp<u32>>::apply(4, 4));
    assert!(!<Equal as BinaryPredicateOp<u32>>::apply(4, 5));
}

#[test]
fn gather_reads_cells_for_particles() {
    let cell_values = vec![10_u32, 20, 30];
    let idx = vec![2_u32, 0, 0, 1];
    assert_eq!(gather(&cell_values, &idx), vec![30, 10, 10, 20]);
}

#[test]
fn gather_where_skips_masked_particles() {
    let cell_values = vec![10_u32, 20, 30];
    let idx = vec![2_u32, 0, 1];
    let stencil = vec![1_u32, 0, 5];
    let mut out = vec![1_u32, 2, 3, 4];
    gather_where(&cell_values, &idx, &stencil, &mut out);
    assert_eq!(out, vec![30, 2, 20, 4]);
}

#[test]
fn transform_where_only_touches_the_stencil() {
    let input = vec![1_u32, 2, 3];
    let stencil = vec![0_u32, 1, 0];
    let mut out = vec![9_u64, 9, 9];
    transform_where(&input, Double, &stencil, &mut out);
    assert_eq!(out, vec![9, 4, 9]);
}

#[test]
fn remove_where_keeps_order_of_the_rest() {
    let values = vec![1_u32, 2, 3, 4, 5];
    let stencil = vec![0_u32, 1, 0, 2, 1];
    assert_eq!(remove_where(&values, &stencil), vec![1, 3]);
    assert_eq!(remove_where(&values, &vec![0; 5]), values);
    assert!(remove_where(&values, &vec![1; 5]).is_empty());
}

#[test]
fn count_cells_counts_unsorted_indices() {
    let idx = vec![3_u32, 0, 3, 1, 3, 0];
    assert_eq!(count_cells(&idx, 5), vec![2, 1, 0, 3, 0]);
    assert_eq!(count_cells(&idx, 2), vec![2, 1]);
    assert_eq!(count_cells(&vec![], 3), vec![0, 0, 0]);
}

#[test]
fn sorting_keeps_the_count_of_every_key() {
    let keys = vec![5_u32, 2, 5, 5, 0, 2];
    let values = vec![(); 6];
    let (sorted, _) = sort_by_key_with_keys(&keys, &values, OrderingU32);
    for c in 0..7_u32 {
        let before = keys.iter().filter(|&&k| k == c).count();
        let after = sorted.iter().filter(|&&k| k == c).count();
        assert_eq!(before, after);
    }
}
