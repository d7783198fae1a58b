//! Relaxation: collisions redistribute the total energy of each cell between
//! kinetic and internal energy.
//!
//! The energies are `f32` and are computed outside this crate; here stands
//! the integer part, which decides which particles take part.
use vstd::prelude::*;
use crate::op::UnaryOp;

verus! {

/// A cell whose particle count is at least two can hold a collision: `1` if
/// `n >= 2`, else `0`.
pub struct IsCollidable;

impl UnaryOp<u32> for IsCollidable {
    type Output = u32;

    open spec fn spec_apply(n: u32) -> u32 {
        if n >= 2 {
            1
        } else {
            0
        }
    }

    fn apply(n: u32) -> (r: u32) {
        if n >= 2 {
            1u32
        } else {
            0u32
        }
    }
}

/// For each particle, whether its cell can hold a collision: `1` if the
/// cell `idx[i]` holds at least two particles (by `cell_cnt`), else `0`.
/// Cells with fewer than two particles cannot collide; redistributing their
/// energy would lose energy, so their particles keep their internal energy.
pub fn collision_stencil(cell_cnt: &Vec<u32>, idx: &Vec<u32>) -> (r: Vec<u32>)
    requires
        forall|i: int| 0 <= i < idx.len() ==> idx@[i] < cell_cnt.len(),
    ensures
        r.len() == idx.len(),
        forall|i: int| 0 <= i < idx.len() ==> #[trigger] r@[i] == IsCollidable::spec_apply(cell_cnt@[idx@[i] as int]),
        forall|i: int| 0 <= i < idx.len() ==> (r@[i] != 0 <==> cell_cnt@[idx@[i] as int] >= 2),
{
    let n = idx.len();
    let mut r: Vec<u32> = Vec::new();
    let mut i: usize = 0;
    while i < n
        invariant
            n == idx.len(),
            forall|t: int| 0 <= t < idx.len() ==> idx@[t] < cell_cnt.len(),
            i <= n,
            r.len() == i,
            forall|t: int| 0 <= t < i ==> #[trigger] r@[t] == IsCollidable::spec_apply(cell_cnt@[idx@[t] as int]),
        decreases n - i,
    {
        let c = IsCollidable::apply(cell_cnt[idx[i] as usize]);
        r.push(c);
        i += 1;
    }
    r
}

/// Relaxation leaves alone the particles of cells that cannot collide: when
/// the new per-cell values are gathered through the collision stencil, a
/// particle whose cell holds fewer than two particles keeps its old value,
/// and every other particle takes its cell's new value.
pub proof fn lemma_relax_spares_lone_particles<T>(
    cell_cnt: Seq<u32>,
    idx: Seq<u32>,
    stencil: Seq<u32>,
    cell_values: Seq<T>,
    before: Seq<T>,
    after: Seq<T>,
)
    requires
        stencil.len() == idx.len(),
        forall|i: int| 0 <= i < idx.len() ==> idx[i] < cell_cnt.len(),
        forall|i: int| 0 <= i < idx.len() ==> #[trigger] stencil[i] == IsCollidable::spec_apply(cell_cnt[idx[i] as int]),
        after.len() == before.len(),
        forall|i: int|
            0 <= i < after.len() ==> #[trigger] after[i] == (if i < idx.len() && stencil[i] != 0 {
                cell_values[idx[i] as int]
            } else {
                before[i]
            }),
    ensures
        forall|i: int| 0 <= i < idx.len() && i < after.len() && cell_cnt[idx[i] as int] < 2 ==> after[i] == before[i],
        forall|i: int| 0 <= i < idx.len() && i < after.len() && cell_cnt[idx[i] as int] >= 2 ==> after[i] == cell_values[idx[i] as int],
{
    assert forall|i: int| 0 <= i < idx.len() && i < after.len() implies (if cell_cnt[idx[i] as int] < 2 {
        after[i] == before[i]
    } else {
        after[i] == cell_values[idx[i] as int]
    }) by {
        assert(stencil[i] == IsCollidable::spec_apply(cell_cnt[idx[i] as int]));
        assert(after[i] == (if i < idx.len() && stencil[i] != 0 {
            cell_values[idx[i] as int]
        } else {
            before[i]
        }));
    }
}

} // verus!
