//! Dispatch arithmetic for the compute pass that slices a tetrahedral mesh.

use vstd::prelude::*;

verus! {

/// Number of simplices that one work group of the slicing pass handles.
pub const WORK_GROUP_SIZE: u32 = 256;

/// The arguments of an indirect draw call, in the layout in which the
/// slicing pass writes them for the renderer.
#[derive(Clone, Copy, Debug)]
pub struct DrawIndirectCommand {
    pub vertex_count: u32,
    pub instance_count: u32,
    pub first_vertex: u32,
    pub first_instance: u32,
}

impl Default for DrawIndirectCommand {
    /// A draw of one instance that has no vertices yet.
    fn default() -> (command: Self)
        ensures
            command.vertex_count == 0,
            command.instance_count == 1,
            command.first_vertex == 0,
            command.first_instance == 0,
    {
        DrawIndirectCommand { vertex_count: 0, instance_count: 1, first_vertex: 0, first_instance: 0 }
    }
}

/// The number of work groups that the slicing pass needs for
/// `simplex_count` simplices.
pub fn work_groups(simplex_count: u32) -> (groups: u32)
    ensures
        groups == spec_ceil_div(simplex_count as int, WORK_GROUP_SIZE as int),
{
    ceil_div(simplex_count, WORK_GROUP_SIZE)
}

/// The quotient `x / y`, rounded up.
pub open spec fn spec_ceil_div(x: int, y: int) -> int {
    if x % y == 0 {
        x / y
    } else {
        x / y + 1
    }
}

/// Rounds the quotient of `x` by `y` up to the next whole number: the count
/// of groups of `y` needed to cover `x` items.
pub fn ceil_div(x: u32, y: u32) -> (q: u32)
    requires
        y != 0,
    ensures
        q == spec_ceil_div(x as int, y as int),
        q as int * y as int >= x as int,
        (q as int - 1) * (y as int) < x as int || x == 0,
{
    let extra: u32 = if x % y != 0 { 1 } else { 0 };
    proof {
        lemma_ceil_div_bounds(x as int, y as int);
    }
    x / y + extra
}

/// The rounded-up quotient is the least `q` with `q * y >= x`, and it never
/// exceeds `x` itself.
pub proof fn lemma_ceil_div_bounds(x: int, y: int)
    requires
        x >= 0,
        y > 0,
    ensures
        spec_ceil_div(x, y) * y >= x,
        (spec_ceil_div(x, y) - 1) * y < x || x == 0,
        0 <= spec_ceil_div(x, y) <= x,
{
    assert(x == (x / y) * y + x % y) by (nonlinear_arith)
        requires y > 0;
    assert(0 <= x % y < y);
    assert(x / y >= 0) by (nonlinear_arith)
        requires x >= 0, y > 0;
    assert((x / y + 1) * y == (x / y) * y + y) by (nonlinear_arith);
    assert((x / y - 1) * y == (x / y) * y - y) by (nonlinear_arith);
    assert((x / y) * y >= x / y) by (nonlinear_arith)
        requires x / y >= 0, y >= 1;
    if x % y != 0 {
        assert(x / y + 1 <= x) by {
            if x / y == 0 {
                assert(x == x % y);
            }
        }
    }
}

} // verus!
