//! Which lattices can be had.

use vstd::prelude::*;

use crate::gpu::sim;
use crate::gpu::sim::FitError;

verus! {

/// A lattice can be had exactly if it has eight cells along every axis and sixteen bytes for
/// each of its cells fit a storage binding.
pub proof fn law_lattices_are_accepted_by_their_size(grid: [u32; 3], max_storage_binding: u64)
    ensures
        sim::fit_fault(grid, max_storage_binding) is None <==> {
            &&& grid[0] >= 8 && grid[1] >= 8 && grid[2] >= 8
            &&& sim::cells(grid) * 16 <= max_storage_binding
        },
        ({
            let short = grid[0] < 8 || grid[1] < 8 || grid[2] < 8;
            &&& short ==> (sim::fit_fault(grid, max_storage_binding) matches Some(
                FitError::AxisTooSmall { axis, n },
            ) && axis < 3 && n == grid[axis as int] && n < 8)
            &&& !short && sim::fit_fault(grid, max_storage_binding) is Some ==> (sim::fit_fault(
                grid,
                max_storage_binding,
            ) matches Some(FitError::BindingTooSmall { cells, limit }) && limit
                == max_storage_binding)
        }),
{
}

/// Memory is what limits the lattice wherever there is a cube that the binding would hold and
/// the budget would not, and without a budget it never is.
pub proof fn law_memory_limits_where_the_binding_would_not(
    max_storage_binding: u64,
    budget: u64,
    side: nat,
)
    requires
        sim::cube(side) <= (max_storage_binding / 16) as nat,
        sim::cube(side) > (budget / 96) as nat,
    ensures
        sim::cap_of(max_storage_binding, Some(budget)).limited_by_memory,
        !sim::cap_of(max_storage_binding, None).limited_by_memory,
{
    let (a, b) = ((max_storage_binding / 16) as nat, (budget / 96) as nat);
    let (p, q) = (sim::cube_side(a), sim::cube_side(b));
    sim::lemma_side_exists(a);
    sim::lemma_side_exists(b);
    sim::lemma_side_bounded(a);
    if side > p {
        sim::lemma_cube_order(p + 1, side);
    }
    if side <= q {
        sim::lemma_cube_order(side, q);
    }
}

} // verus!
