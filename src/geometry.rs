//! Fixed-point coordinates, triangle bounding boxes and the cells of the octree grid.
//!
//! A coordinate is an `i64` counting units of 2^-32, so the unit domain
//! [-0.5, 0.5] is [-HALF_EXTENT, HALF_EXTENT] and the domain's edge is `UNIT` long.
//! Every cell boundary down to level `MAX_DEPTH`, and the center of every cell
//! above that level, is a whole number of units, so comparisons against them
//! are exact.
use vstd::prelude::*;

verus! {

/// Length of the unit domain's edge, in coordinate units (2^32).
pub const UNIT: i64 = 4294967296;

/// Half the domain's edge: the domain is [-HALF_EXTENT, HALF_EXTENT] on each axis.
pub const HALF_EXTENT: i64 = 2147483648;

/// Deepest level a tree may reach: every node above it has a center on the unit grid.
pub const MAX_DEPTH: u32 = 32;

/// Axis-aligned bounding box of one triangle, in fixed-point units.
#[derive(Clone, Copy, Debug, PartialEq, Eq, Structural)]
pub struct Aabb {
    pub min_x: i64,
    pub max_x: i64,
    pub min_y: i64,
    pub max_y: i64,
    pub min_z: i64,
    pub max_z: i64,
}

/// A point in fixed-point units (a node's center).
#[derive(Clone, Copy, Debug, PartialEq, Eq, Structural)]
pub struct Point3 {
    pub x: i64,
    pub y: i64,
    pub z: i64,
}

/// Edge length of a cell at `level`: UNIT / 2^level (exact for level <= 32).
pub open spec fn cell_size(level: nat) -> int
    decreases 32 - level,
{
    if level >= 32 {
        1
    } else {
        2 * cell_size(level + 1)
    }
}

/// Lower bound, on one axis, of the cell with grid coordinate `coord` at `level`.
pub open spec fn cell_lo(coord: nat, level: nat) -> int {
    coord * cell_size(level) - HALF_EXTENT
}

/// Upper bound, on one axis, of the cell with grid coordinate `coord` at `level`.
pub open spec fn cell_hi(coord: nat, level: nat) -> int {
    (coord + 1) * cell_size(level) - HALF_EXTENT
}

/// Center, on one axis, of the cell: (coord + 0.5) * size - 0.5 in domain terms.
pub open spec fn cell_center(coord: nat, level: nat) -> int {
    cell_lo(coord, level) + cell_size(level) / 2
}

/// The center of the node at `level` with grid coordinates (x, y, z).
pub open spec fn node_center(level: nat, x: nat, y: nat, z: nat) -> Point3 {
    Point3 {
        x: cell_center(x, level) as i64,
        y: cell_center(y, level) as i64,
        z: cell_center(z, level) as i64,
    }
}

/// The grid coordinate `coord` is a cell of `level` (it lies inside the domain).
pub open spec fn coord_in_grid(coord: nat, level: nat) -> bool {
    (coord + 1) * cell_size(level) <= UNIT
}

/// Closed intervals [lo, hi] and [a, b] share a point.
pub open spec fn spans_meet(lo: int, hi: int, a: int, b: int) -> bool {
    lo <= b && a <= hi
}

/// The box meets the closed cube of the node at `level` with coordinates (x, y, z).
pub open spec fn box_meets_cell(b: Aabb, level: nat, x: nat, y: nat, z: nat) -> bool {
    &&& spans_meet(b.min_x as int, b.max_x as int, cell_lo(x, level), cell_hi(x, level))
    &&& spans_meet(b.min_y as int, b.max_y as int, cell_lo(y, level), cell_hi(y, level))
    &&& spans_meet(b.min_z as int, b.max_z as int, cell_lo(z, level), cell_hi(z, level))
}

/// The box meets the closed unit domain.
pub open spec fn box_meets_domain(b: Aabb) -> bool {
    box_meets_cell(b, 0, 0, 0, 0)
}

/// Each minimum is at most the matching maximum.
pub open spec fn box_well_formed(b: Aabb) -> bool {
    b.min_x <= b.max_x && b.min_y <= b.max_y && b.min_z <= b.max_z
}

/// Halving a cell: the size at the next level is half, and sizes above the last
/// level are even.
pub proof fn lemma_cell_size_halves(level: nat)
    requires
        level < 32,
    ensures
        cell_size(level) == 2 * cell_size(level + 1),
        cell_size(level + 1) >= 1,
        cell_size(level) >= 2,
{
    lemma_cell_size_positive(level + 1);
}

/// Every cell has a positive size.
pub proof fn lemma_cell_size_positive(level: nat)
    ensures
        cell_size(level) >= 1,
    decreases 32 - level,
{
    if level < 32 {
        lemma_cell_size_positive(level + 1);
    }
}

/// The root cell is the whole domain.
pub proof fn lemma_root_cell()
    ensures
        cell_size(0) == UNIT,
{
    reveal_with_fuel(cell_size, 33);
}

/// A cell's sub-cells: the low child of `coord` is `2 * coord`, the high child
/// `2 * coord + 1`; both lie inside the parent and split it at its center.
pub proof fn lemma_child_cell(coord: nat, level: nat, bit: nat)
    requires
        level < 32,
        bit <= 1,
    ensures
        cell_lo(coord, level) <= cell_lo(2 * coord + bit, level + 1),
        cell_hi(2 * coord + bit, level + 1) <= cell_hi(coord, level),
        bit == 0 ==> cell_hi(2 * coord + bit, level + 1) == cell_center(coord, level),
        bit == 1 ==> cell_lo(2 * coord + bit, level + 1) == cell_center(coord, level),
        bit == 0 ==> cell_lo(2 * coord + bit, level + 1) == cell_lo(coord, level),
        bit == 1 ==> cell_hi(2 * coord + bit, level + 1) == cell_hi(coord, level),
        coord_in_grid(coord, level) ==> coord_in_grid(2 * coord + bit, level + 1),
{
    lemma_cell_size_halves(level);
    let s = cell_size(level + 1);
    assert(cell_size(level) == 2 * s);
    assert(cell_size(level) / 2 == s);
    assert((2 * coord + bit) * s == 2 * coord * s + bit * s) by (nonlinear_arith);
    assert(coord * (2 * s) == 2 * coord * s) by (nonlinear_arith);
    assert((2 * coord + bit + 1) * s == 2 * coord * s + bit * s + s) by (nonlinear_arith);
    assert((coord + 1) * (2 * s) == 2 * coord * s + 2 * s) by (nonlinear_arith);
    assert(bit * s <= s) by (nonlinear_arith)
        requires
            bit <= 1,
            s >= 1,
    ;
}

} // verus!
