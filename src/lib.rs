//! An octree over the bounding boxes of a mesh's triangles, built by octant
//! classification and handed over as a flat buffer.
use vstd::prelude::*;

pub mod aabb_set;
pub mod classify;
pub mod coverage;
pub mod decode;
pub mod flatten;
pub mod geometry;
pub mod octree;

use crate::aabb_set::{AabbSet, BuildError, all_outside, boxes_of};
use crate::flatten::{flat_tree, flatten, lemma_built_slots_ok};
use crate::geometry::MAX_DEPTH;
use crate::octree::{Octree, all_indices, build, is_build_of};

verus! {

/// Depth bound used when the caller names none.
pub const DEFAULT_MAX_DEPTH: u32 = 8;

/// Leaf capacity used when the caller names none.
pub const DEFAULT_LEAF_CAPACITY: usize = 16;

/// Sum of two 32-bit integers.
pub fn add(x: i32, y: i32) -> (r: i32)
    requires
        i32::MIN <= x + y <= i32::MAX,
    ensures
        r == x + y,
{
    x + y
}

/// Builds the octree over a flat buffer of six fixed-point bounds per triangle
/// and returns its flat buffer. Fails, before building anything, with
/// `InvalidInput` when the length is not a multiple of six and with
/// `DegenerateDomain` when there are boxes and none meets the unit domain.
pub fn create_octree(values: &Vec<i64>, max_depth: u32, leaf_capacity: usize) -> (r: Result<
    Vec<u64>,
    BuildError,
>)
    requires
        max_depth <= MAX_DEPTH,
    ensures
        values@.len() % 6 != 0 <==> r == Err::<Vec<u64>, BuildError>(BuildError::InvalidInput),
        values@.len() % 6 == 0 && all_outside(values@) <==> r == Err::<Vec<u64>, BuildError>(
            BuildError::DegenerateDomain,
        ),
        r is Ok ==> exists|t: Octree|
            is_build_of(t, boxes_of(values@), max_depth as nat, leaf_capacity as nat) && r->Ok_0@
                == flat_tree(t),
{
    let set = match AabbSet::from_flat(values) {
        Ok(s) => s,
        Err(e) => {
            return Err(e);
        },
    };
    let tree = build(&set, max_depth, leaf_capacity);
    proof {
        lemma_built_slots_ok(
            tree.root,
            set@,
            all_indices(set@.len()),
            0,
            0,
            0,
            0,
            max_depth as nat,
            leaf_capacity as nat,
        );
    }
    let buf = flatten(&tree);
    Ok(buf)
}

} // verus!
