//! The simulation space: a box divided into a grid of equal cells, and the
//! linear index of each cell.
use vstd::prelude::*;
use vstd::arithmetic::div_mod::{lemma_add_mod_noop, lemma_mul_mod_noop_left};
use vstd::arithmetic::mul::{lemma_mul_inequality, lemma_mul_is_associative};
use vstd::wrapping::u32_specs;

verus! {

/// Computes the linear cell index of a particle from its position in a
/// space: the position is turned into per-axis cell coordinates, which
/// [`cell_index_1d`] combines.
pub struct CalcCellIndex1d;

/// The linear index of the cell at coordinates `(i, j, k)` in a grid of
/// `dim` cells: `i + dim.0 * j + dim.0 * dim.1 * k`.
pub open spec fn linear_index(i: int, j: int, k: int, dim: (u32, u32, u32)) -> int {
    i + dim.0 * j + dim.0 * dim.1 * k
}

/// The number of cells in a grid of `dim` cells.
pub open spec fn num_cells(dim: (u32, u32, u32)) -> int {
    dim.0 * dim.1 * dim.2
}

/// Cell coordinates `(i, j, k)` lie inside a grid of `dim` cells.
pub open spec fn in_grid(i: int, j: int, k: int, dim: (u32, u32, u32)) -> bool {
    0 <= i < dim.0 && 0 <= j < dim.1 && 0 <= k < dim.2
}

/// The linear index of the cell at `(i, j, k)` in a grid of `dim` cells,
/// computed in wrapping `u32` arithmetic.
pub fn cell_index_1d(i: u32, j: u32, k: u32, dim: (u32, u32, u32)) -> (r: u32)
    ensures
        r as int == linear_index(i as int, j as int, k as int, dim) % 0x1_0000_0000,
        r as int == (i + dim.0 * j + dim.0 * dim.1 * k) % 0x1_0000_0000,
{
    let ghost m: int = 0x1_0000_0000;
    let a = dim.0.wrapping_mul(j);
    let d01 = dim.0.wrapping_mul(dim.1);
    let b = d01.wrapping_mul(k);
    let s = i.wrapping_add(a);
    let r = s.wrapping_add(b);
    proof {
        let x = dim.0 as int;
        let y = dim.1 as int;
        assert(a as int == (x * j) % m);
        assert(d01 as int == (x * y) % m);
        assert(b as int == ((d01 as int) * k) % m);
        lemma_mul_mod_noop_left(x * y, k as int, m);
        assert(b as int == (x * y * k) % m);
        assert(s as int == (i + a) % m);
        lemma_add_mod_noop(i as int, x * j, m);
        assert(s as int == (i + x * j) % m);
        assert(r as int == (s + b) % m);
        lemma_add_mod_noop(i + x * j, x * y * k, m);
        assert(r as int == (i + x * j + x * y * k) % m);
    }
    r
}

/// Inside a grid whose cell count fits in `u32`, the linear index of a cell
/// is computed without wrapping, lies below the number of cells, and
/// different cells have different indices.
pub proof fn lemma_cell_index_in_grid(i1: int, j1: int, k1: int, i2: int, j2: int, k2: int, dim: (u32, u32, u32))
    requires
        in_grid(i1, j1, k1, dim),
        in_grid(i2, j2, k2, dim),
        num_cells(dim) <= 0x1_0000_0000,
    ensures
        0 <= linear_index(i1, j1, k1, dim) < num_cells(dim),
        linear_index(i1, j1, k1, dim) % 0x1_0000_0000 == linear_index(i1, j1, k1, dim),
        linear_index(i1, j1, k1, dim) == linear_index(i2, j2, k2, dim) ==> (i1 == i2 && j1 == j2 && k1 == k2),
{
    lemma_linear_index_bounds(i1, j1, k1, dim);
    lemma_linear_index_bounds(i2, j2, k2, dim);
    if linear_index(i1, j1, k1, dim) == linear_index(i2, j2, k2, dim) {
        lemma_linear_index_unique(i1, j1, k1, i2, j2, k2, dim);
    }
}

proof fn lemma_linear_index_bounds(i: int, j: int, k: int, dim: (u32, u32, u32))
    requires
        in_grid(i, j, k, dim),
    ensures
        0 <= linear_index(i, j, k, dim) < num_cells(dim),
{
    let x = dim.0 as int;
    let y = dim.1 as int;
    let z = dim.2 as int;
    assert(0 <= x * j) by (nonlinear_arith)
        requires
            0 <= x,
            0 <= j,
    ;
    assert(0 <= x * y * k) by (nonlinear_arith)
        requires
            0 <= x,
            0 <= y,
            0 <= k,
    ;
    // i + x j < x (j + 1) <= x y
    assert(i + x * j < x * y) by (nonlinear_arith)
        requires
            0 <= i < x,
            0 <= j < y,
    {
        assert(x * (j + 1) <= x * y);
    }
    assert(x * y * k + x * y <= x * y * z) by (nonlinear_arith)
        requires
            0 <= k < z,
            0 <= x,
            0 <= y,
    {
        assert(x * y * (k + 1) <= x * y * z);
    }
}

proof fn lemma_linear_index_unique(i1: int, j1: int, k1: int, i2: int, j2: int, k2: int, dim: (u32, u32, u32))
    requires
        in_grid(i1, j1, k1, dim),
        in_grid(i2, j2, k2, dim),
        linear_index(i1, j1, k1, dim) == linear_index(i2, j2, k2, dim),
    ensures
        i1 == i2 && j1 == j2 && k1 == k2,
{
    let x = dim.0 as int;
    let y = dim.1 as int;
    let p1 = i1 + x * j1;
    let p2 = i2 + x * j2;
    lemma_linear_index_bounds(i1, j1, 0, (dim.0, dim.1, 1));
    lemma_linear_index_bounds(i2, j2, 0, (dim.0, dim.1, 1));
    assert(0 <= p1 < x * y && 0 <= p2 < x * y);
    assert(p1 + x * y * k1 == p2 + x * y * k2);
    assert(k1 == k2) by (nonlinear_arith)
        requires
            0 <= p1 < x * y,
            0 <= p2 < x * y,
            p1 + x * y * k1 == p2 + x * y * k2,
            0 <= k1,
            0 <= k2,
    {
        if k1 < k2 {
            assert(x * y * k1 + x * y <= x * y * k2);
        } else if k2 < k1 {
            assert(x * y * k2 + x * y <= x * y * k1);
        }
    }
    assert(j1 == j2) by (nonlinear_arith)
        requires
            0 <= i1 < x,
            0 <= i2 < x,
            i1 + x * j1 == i2 + x * j2,
            0 <= j1,
            0 <= j2,
    {
        if j1 < j2 {
            assert(x * j1 + x <= x * j2);
        } else if j2 < j1 {
            assert(x * j2 + x <= x * j1);
        }
    }
}

/// The linear index numbers the cells along x first, then y, then z: the
/// first cell has index 0, and inside the grid one step along x adds 1, one
/// step along y adds `dim.0`, and one step along z adds `dim.0 * dim.1`.
pub proof fn lemma_linear_index_strides(i: int, j: int, k: int, dim: (u32, u32, u32))
    ensures
        linear_index(0, 0, 0, dim) == 0,
        linear_index(i + 1, j, k, dim) == linear_index(i, j, k, dim) + 1,
        linear_index(i, j + 1, k, dim) == linear_index(i, j, k, dim) + dim.0,
        linear_index(i, j, k + 1, dim) == linear_index(i, j, k, dim) + dim.0 * dim.1,
{
    let x = dim.0 as int;
    let y = dim.1 as int;
    assert(x * (j + 1) == x * j + x) by (nonlinear_arith);
    assert(x * y * (k + 1) == x * y * k + x * y) by (nonlinear_arith);
    assert(x * 0 == 0 && x * y * 0 == 0) by (nonlinear_arith);
}

} // verus!
