use bph_gpu::algorithm::movement::gather_where;
use bph_gpu::relax::{collision_stencil, IsCollidable};
use bph_gpu::op::UnaryOp;
use bph_gpu::tool::force::NoForce;
use bph_gpu::tool::space::cell_index_1d;
use bph_gpu::tool::streaming::RungeKutta1;

#[test]
fn cell_index_is_row_major_from_x() {
    let dim = (4_u32, 3_u32, 2_u32);
    assert_eq!(cell_index_1d(0, 0, 0, dim), 0);
    assert_eq!(cell_index_1d(1, 0, 0, dim), 1);
    assert_eq!(cell_index_1d(0, 1, 0, dim), 4);
    assert_eq!(cell_index_1d(0, 0, 1, dim), 12);
    assert_eq!(cell_index_1d(3, 2, 1, dim), 23);
}

#[test]
fn cell_indices_of_a_grid_are_distinct_and_dense() {
    let dim = (5_u32, 3_u32, 2_u32);
    let mut seen = vec![false; 30];
    for k in 0..dim.2 {
        for j in 0..dim.1 {
            for i in 0..dim.0 {
                let c = cell_index_1d(i, j, k, dim) as usize;
                assert!(c < 30);
                assert!(!seen[c]);
                seen[c] = true;
            }
        }
    }
    assert!(seen.iter().all(|&b| b));
}

#[test]
fn cell_index_wraps_like_u32() {
    let dim = (0x1_0000_u32, 0x1_0000_u32, 4_u32);
    assert_eq!(cell_index_1d(5, 0, 1, dim), 5);
    assert_eq!(cell_index_1d(0, 0x1_0000 - 1, 0, dim), 0xffff_0000);
}

#[test]
fn is_collidable_needs_two_particles() {
    assert_eq!(<IsCollidable as UnaryOp<u32>>::apply(0), 0);
    assert_eq!(<IsCollidable as UnaryOp<u32>>::apply(1), 0);
    assert_eq!(<IsCollidable as UnaryOp<u32>>::apply(2), 1);
    assert_eq!(<IsCollidable as UnaryOp<u32>>::apply(1000), 1);
}

#[test]
fn collision_stencil_follows_each_particles_cell() {
    let cell_cnt = vec![2_u32, 1, 0, 3];
    let idx = vec![0_u32, 0, 1, 3, 3, 3];
    assert_eq!(collision_stencil(&cell_cnt, &idx), vec![1, 1, 0, 1, 1, 1]);
}

#[test]
fn runge_kutta_1_can_be_built_for_a_force() {
    let _step: RungeKutta1<NoForce> = RungeKutta1::new();
}

#[test]
fn relaxation_spares_particles_alone_in_their_cell() {
    let idx = vec![0_u32, 1, 1, 2];
    let cell_cnt = vec![1_u32, 2, 1];
    let stencil = collision_stencil(&cell_cnt, &idx);
    let cell_in_e = vec![10_u32, 20, 30];
    let mut in_e = vec![1_u32, 2, 3, 4];
    gather_where(&cell_in_e, &idx, &stencil, &mut in_e);
    assert_eq!(in_e, vec![1, 20, 20, 4]);
}
