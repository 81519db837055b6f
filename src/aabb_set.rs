//! The immutable set of triangle bounding boxes an octree is built over.
use vstd::prelude::*;
use crate::geometry::{Aabb, HALF_EXTENT, box_meets_domain, lemma_root_cell};

verus! {

/// Why a buffer of bounds was refused.
#[derive(Clone, Copy, Debug, PartialEq, Eq, Structural)]
pub enum BuildError {
    /// The buffer's length is not a multiple of six.
    InvalidInput,
    /// There is at least one box, and none of them meets the unit domain.
    DegenerateDomain,
}

/// Box `i` of a flat buffer laid out as (min_x, max_x, min_y, max_y, min_z, max_z)
/// per triangle.
pub open spec fn box_at(v: Seq<i64>, i: int) -> Aabb {
    Aabb {
        min_x: v[6 * i],
        max_x: v[6 * i + 1],
        min_y: v[6 * i + 2],
        max_y: v[6 * i + 3],
        min_z: v[6 * i + 4],
        max_z: v[6 * i + 5],
    }
}

/// All the boxes of a flat buffer, triangle `i` at offset `6 * i`.
pub open spec fn boxes_of(v: Seq<i64>) -> Seq<Aabb> {
    Seq::new((v.len() / 6) as nat, |i: int| box_at(v, i))
}

/// The buffer holds boxes and every one of them lies wholly outside the domain.
pub open spec fn all_outside(v: Seq<i64>) -> bool {
    v.len() >= 6 && forall|i: int| 0 <= i < v.len() / 6 ==> !box_meets_domain(#[trigger] box_at(v, i))
}

/// Triangle bounding boxes, indexed by triangle number.
pub struct AabbSet {
    boxes: Vec<Aabb>,
}

impl AabbSet {
    pub closed spec fn view(&self) -> Seq<Aabb> {
        self.boxes@
    }

    /// Reads a flat buffer of six bounds per triangle. Fails with `InvalidInput`
    /// when its length is not a multiple of six, and with `DegenerateDomain` when
    /// it holds boxes but none of them meets the unit domain.
    pub fn from_flat(values: &Vec<i64>) -> (r: Result<AabbSet, BuildError>)
        ensures
            values@.len() % 6 != 0 <==> r == Err::<AabbSet, BuildError>(BuildError::InvalidInput),
            values@.len() % 6 == 0 && all_outside(values@) <==> r == Err::<AabbSet, BuildError>(
                BuildError::DegenerateDomain,
            ),
            r is Ok ==> r->Ok_0@ == boxes_of(values@),
    {
        if values.len() % 6 != 0 {
            return Err(BuildError::InvalidInput);
        }
        let len = values.len();
        let n = len / 6;
        let mut boxes: Vec<Aabb> = Vec::new();
        let mut any_inside = false;
        let mut i: usize = 0;
        while i < n
            invariant
                len == values@.len(),
                n == values@.len() / 6,
                values@.len() % 6 == 0,
                i <= n,
                boxes@ == Seq::new(i as nat, |k: int| box_at(values@, k)),
                any_inside <==> exists|k: int| 0 <= k < i && box_meets_domain(#[trigger] box_at(values@, k)),
            decreases n - i,
        {
            assert(6 * i + 5 < values@.len()) by (nonlinear_arith)
                requires
                    i < n,
                    n == len / 6,
                    len == values@.len(),
                    values@.len() % 6 == 0,
            ;
            let base: usize = 6 * i;
            let b = Aabb {
                min_x: values[base],
                max_x: values[base + 1],
                min_y: values[base + 2],
                max_y: values[base + 3],
                min_z: values[base + 4],
                max_z: values[base + 5],
            };
            assert(b == box_at(values@, i as int));
            if meets_domain(&b) {
                any_inside = true;
            }
            boxes.push(b);
            i = i + 1;
            assert(boxes@ =~= Seq::new(i as nat, |k: int| box_at(values@, k)));
        }
        if n > 0 && !any_inside {
            return Err(BuildError::DegenerateDomain);
        }
        assert(boxes@ =~= boxes_of(values@));
        Ok(AabbSet { boxes })
    }

    /// Number of triangles.
    pub fn len(&self) -> (r: usize)
        ensures
            r == self@.len(),
    {
        self.boxes.len()
    }

    /// The box of triangle `i`.
    pub fn get(&self, i: usize) -> (r: Aabb)
        requires
            i < self@.len(),
        ensures
            r == self@[i as int],
    {
        self.boxes[i]
    }

    /// All the boxes, by triangle number.
    pub fn boxes(&self) -> (r: &Vec<Aabb>)
        ensures
            r@ == self@,
    {
        &self.boxes
    }
}

/// Whether the box meets the closed unit domain.
fn meets_domain(b: &Aabb) -> (r: bool)
    ensures
        r == box_meets_domain(*b),
{
    proof {
        lemma_root_cell();
    }
    b.min_x <= HALF_EXTENT && -HALF_EXTENT <= b.max_x && b.min_y <= HALF_EXTENT && -HALF_EXTENT
        <= b.max_y && b.min_z <= HALF_EXTENT && -HALF_EXTENT <= b.max_z
}

} // verus!
