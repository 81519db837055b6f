//! What the leaves of a built tree hold, measured against the leaves' cells.
use vstd::prelude::*;
use crate::classify::{axis_admits, octant_hit};
use crate::geometry::{
    Aabb,
    box_meets_cell,
    box_well_formed,
    cell_center,
    cell_hi,
    cell_lo,
    cell_size,
    coord_in_grid,
    lemma_cell_size_halves,
    lemma_cell_size_positive,
    lemma_child_cell,
    lemma_root_cell,
    node_center,
    spans_meet,
};
use crate::octree::{Octree, OctreeNode, all_indices, assigned, built_from, child_coord, is_build_of};

verus! {

broadcast use vstd::std_specs::vec::axiom_vec_index_decreases;

/// Every leaf of the subtree `n` satisfies `p`.
pub open spec fn every_leaf(n: OctreeNode, p: spec_fn(OctreeNode) -> bool) -> bool
    decreases n,
{
    if n.children@.len() == 0 {
        p(n)
    } else {
        forall|i: int|
            0 <= i < n.children@.len() ==> match #[trigger] n.children@[i] {
                None => true,
                Some(c) => every_leaf(c, p),
            }
    }
}

/// The cell of `l` lies inside the cell at `level` and (x, y, z).
pub open spec fn cell_inside(l: OctreeNode, level: nat, x: nat, y: nat, z: nat) -> bool {
    &&& cell_lo(x, level) <= cell_lo(l.x as nat, l.level as nat)
    &&& cell_hi(l.x as nat, l.level as nat) <= cell_hi(x, level)
    &&& cell_lo(y, level) <= cell_lo(l.y as nat, l.level as nat)
    &&& cell_hi(l.y as nat, l.level as nat) <= cell_hi(y, level)
    &&& cell_lo(z, level) <= cell_lo(l.z as nat, l.level as nat)
    &&& cell_hi(l.z as nat, l.level as nat) <= cell_hi(z, level)
}

/// The box of `t` meets the cell of node `l`.
pub open spec fn meets_node(boxes: Seq<Aabb>, t: usize, l: OctreeNode) -> bool {
    box_meets_cell(boxes[t as int], l.level as nat, l.x as nat, l.y as nat, l.z as nat)
}

/// No false negatives: in a tree built over `boxes`, every leaf lists every
/// triangle whose box meets the leaf's closed cell.
pub proof fn lemma_leaves_hold_every_meeting_triangle(t: Octree, boxes: Seq<Aabb>)
    requires
        is_build_of(t, boxes, t.max_depth as nat, t.leaf_capacity as nat),
    ensures
        every_leaf(
            t.root,
            |l: OctreeNode|
                forall|k: usize|
                    k < boxes.len() && #[trigger] meets_node(boxes, k, l) ==> l.triangles@.contains(k),
        ),
{
    let tris = all_indices(boxes.len());
    lemma_root_cell();
    lemma_complete(t.root, boxes, tris, 0, 0, 0, 0, t.max_depth as nat, t.leaf_capacity as nat);
    let p = |l: OctreeNode|
        cell_inside(l, 0, 0, 0, 0) && forall|k: usize|
            tris.contains(k) && #[trigger] meets_node(boxes, k, l) ==> l.triangles@.contains(k);
    let q = |l: OctreeNode|
        forall|k: usize|
            k < boxes.len() && #[trigger] meets_node(boxes, k, l) ==> l.triangles@.contains(k);
    assert forall|l: OctreeNode| #[trigger] p(l) implies q(l) by {
        assert forall|k: usize| k < boxes.len() && #[trigger] meets_node(boxes, k, l) implies l.triangles@.contains(k) by {
            assert(tris[k as int] == k);
        }
    }
    lemma_every_leaf_weaken(t.root, p, q);
}

/// No triangle wholly outside a leaf: in a tree built over `boxes`, every
/// triangle a leaf lists is one of the input's, and when its box is well formed
/// and meets the unit domain it also meets the leaf's closed cell.
pub proof fn lemma_leaves_hold_only_meeting_triangles(t: Octree, boxes: Seq<Aabb>)
    requires
        is_build_of(t, boxes, t.max_depth as nat, t.leaf_capacity as nat),
    ensures
        every_leaf(
            t.root,
            |l: OctreeNode|
                forall|k: usize|
                    #[trigger] l.triangles@.contains(k) ==> k < boxes.len() && (box_well_formed(
                        boxes[k as int],
                    ) && box_meets_cell(boxes[k as int], 0, 0, 0, 0) ==> meets_node(boxes, k, l)),
        ),
{
    let tris = all_indices(boxes.len());
    lemma_root_cell();
    lemma_sound(t.root, boxes, tris, 0, 0, 0, 0, t.max_depth as nat, t.leaf_capacity as nat);
    let p = |l: OctreeNode|
        forall|k: usize|
            #[trigger] l.triangles@.contains(k) ==> tris.contains(k) && (box_well_formed(
                boxes[k as int],
            ) && box_meets_cell(boxes[k as int], 0, 0, 0, 0) ==> meets_node(boxes, k, l));
    let q = |l: OctreeNode|
        forall|k: usize|
            #[trigger] l.triangles@.contains(k) ==> k < boxes.len() && (box_well_formed(
                boxes[k as int],
            ) && box_meets_cell(boxes[k as int], 0, 0, 0, 0) ==> meets_node(boxes, k, l));
    assert forall|l: OctreeNode| #[trigger] p(l) implies q(l) by {
        assert forall|k: usize| #[trigger] l.triangles@.contains(k) implies k < boxes.len() && (
        box_well_formed(boxes[k as int]) && box_meets_cell(boxes[k as int], 0, 0, 0, 0)
            ==> meets_node(boxes, k, l)) by {
            assert(tris.contains(k));
            let j = choose|j: int| 0 <= j < tris.len() && tris[j] == k;
            assert(tris[j] == k);
        }
    }
    lemma_every_leaf_weaken(t.root, p, q);
}

/// A property that follows from another holds at every leaf where the other does.
proof fn lemma_every_leaf_weaken(
    n: OctreeNode,
    p: spec_fn(OctreeNode) -> bool,
    q: spec_fn(OctreeNode) -> bool,
)
    requires
        every_leaf(n, p),
        forall|l: OctreeNode| #[trigger] p(l) ==> q(l),
    ensures
        every_leaf(n, q),
    decreases n,
{
    if n.children@.len() != 0 {
        assert forall|i: int| 0 <= i < n.children@.len() implies match #[trigger] n.children@[i] {
            None => true,
            Some(c) => every_leaf(c, q),
        } by {
            if let Some(c) = n.children@[i] {
                lemma_every_leaf_weaken(c, p, q);
            }
        }
    }
}

/// Membership in an octant's list: a triangle is there exactly when it is in
/// the node's list and its box reaches the octant.
proof fn lemma_assigned_members(boxes: Seq<Aabb>, tris: Seq<usize>, c: crate::geometry::Point3, o: u8)
    ensures
        forall|k: usize|
            #[trigger] assigned(boxes, tris, c, o).contains(k) <==> (tris.contains(k) && octant_hit(
                c,
                boxes[k as int],
                o,
            )),
    decreases tris.len(),
{
    if tris.len() > 0 {
        let init = tris.drop_last();
        lemma_assigned_members(boxes, init, c, o);
        assert(tris =~= init.push(tris.last()));
        assert forall|k: usize| tris.contains(k) <==> (init.contains(k) || k == tris.last()) by {
            if tris.contains(k) {
                let j = choose|j: int| 0 <= j < tris.len() && tris[j] == k;
                if j < tris.len() - 1 {
                    assert(init[j] == k);
                }
            }
            if init.contains(k) {
                let j = choose|j: int| 0 <= j < init.len() && init[j] == k;
                assert(tris[j] == k);
            }
            if k == tris.last() {
                assert(tris[tris.len() - 1] == k);
            }
        }
        let rest = assigned(boxes, init, c, o);
        assert forall|k: usize| rest.push(tris.last()).contains(k) <==> (rest.contains(k) || k == tris.last()) by {
            let s = rest.push(tris.last());
            if s.contains(k) {
                let j = choose|j: int| 0 <= j < s.len() && s[j] == k;
                if j < rest.len() {
                    assert(rest[j] == k);
                }
            }
            if rest.contains(k) {
                let j = choose|j: int| 0 <= j < rest.len() && rest[j] == k;
                assert(s[j] == k);
            }
            if k == tris.last() {
                assert(s[rest.len() as int] == k);
            }
        }
        assert forall|k: usize| #[trigger] assigned(boxes, tris, c, o).contains(k) <==> (tris.contains(
            k,
        ) && octant_hit(c, boxes[k as int], o)) by {
            assert(tris.drop_last() == init);
            let full = assigned(boxes, tris, c, o);
            let s = rest.push(tris.last());
            assert(rest.contains(k) <==> (init.contains(k) && octant_hit(c, boxes[k as int], o)));
            assert(s.contains(k) <==> (rest.contains(k) || k == tris.last()));
            assert(tris.contains(k) <==> (init.contains(k) || k == tris.last()));
            if octant_hit(c, boxes[tris.last() as int], o) {
                assert(full == s);
            } else {
                assert(full == rest);
            }
        }
    }
}

/// The center of a cell inside the grid fits the fixed-point type unchanged.
proof fn lemma_center_fits(coord: nat, level: nat)
    requires
        level < 32,
        coord_in_grid(coord, level),
    ensures
        (cell_center(coord, level) as i64) as int == cell_center(coord, level),
        cell_lo(coord, level) <= cell_center(coord, level) <= cell_hi(coord, level),
{
    lemma_cell_size_halves(level);
    let s = cell_size(level);
    assert(coord * s >= 0) by (nonlinear_arith)
        requires
            s >= 0,
    ;
    assert((coord + 1) * s == coord * s + s) by (nonlinear_arith);
}

/// A box that meets the cell of octant `o` of a node is sent to that octant.
proof fn lemma_meeting_child_is_hit(b: Aabb, level: nat, x: nat, y: nat, z: nat, o: u8)
    requires
        level < 32,
        o < 8,
        coord_in_grid(x, level),
        coord_in_grid(y, level),
        coord_in_grid(z, level),
        box_meets_cell(
            b,
            level + 1,
            child_coord(x, o & 4 != 0),
            child_coord(y, o & 2 != 0),
            child_coord(z, o & 1 != 0),
        ),
    ensures
        octant_hit(node_center(level, x, y, z), b, o),
{
    lemma_center_fits(x, level);
    lemma_center_fits(y, level);
    lemma_center_fits(z, level);
    lemma_child_cell(x, level, if o & 4 != 0 { 1 } else { 0 });
    lemma_child_cell(y, level, if o & 2 != 0 { 1 } else { 0 });
    lemma_child_cell(z, level, if o & 1 != 0 { 1 } else { 0 });
}

/// On one axis: a well-formed span that meets a cell and is admitted to one
/// half of it meets that half's sub-cell.
proof fn lemma_admitted_span_meets_child(lo: int, hi: int, coord: nat, level: nat, high: bool)
    requires
        level < 32,
        lo <= hi,
        spans_meet(lo, hi, cell_lo(coord, level), cell_hi(coord, level)),
        axis_admits(lo, hi, cell_center(coord, level), high),
    ensures
        spans_meet(
            lo,
            hi,
            cell_lo(child_coord(coord, high), level + 1),
            cell_hi(child_coord(coord, high), level + 1),
        ),
{
    if high {
        lemma_child_cell(coord, level, 1);
        assert(child_coord(coord, high) == 2 * coord + 1);
    } else {
        lemma_child_cell(coord, level, 0);
        assert(child_coord(coord, high) == 2 * coord + 0);
    }
}

/// A well-formed box that meets a node's cell and is sent to octant `o` meets
/// that octant's cell.
proof fn lemma_hit_meets_child(b: Aabb, level: nat, x: nat, y: nat, z: nat, o: u8)
    requires
        level < 32,
        o < 8,
        coord_in_grid(x, level),
        coord_in_grid(y, level),
        coord_in_grid(z, level),
        box_well_formed(b),
        box_meets_cell(b, level, x, y, z),
        octant_hit(node_center(level, x, y, z), b, o),
    ensures
        box_meets_cell(
            b,
            level + 1,
            child_coord(x, o & 4 != 0),
            child_coord(y, o & 2 != 0),
            child_coord(z, o & 1 != 0),
        ),
{
    lemma_center_fits(x, level);
    lemma_center_fits(y, level);
    lemma_center_fits(z, level);
    lemma_admitted_span_meets_child(b.min_x as int, b.max_x as int, x, level, o & 4 != 0);
    lemma_admitted_span_meets_child(b.min_y as int, b.max_y as int, y, level, o & 2 != 0);
    lemma_admitted_span_meets_child(b.min_z as int, b.max_z as int, z, level, o & 1 != 0);
}

/// Completeness below one node: each leaf under `n` lies inside `n`'s cell and
/// lists every triangle of `tris` whose box meets the leaf's cell.
proof fn lemma_complete(
    n: OctreeNode,
    boxes: Seq<Aabb>,
    tris: Seq<usize>,
    level: nat,
    x: nat,
    y: nat,
    z: nat,
    max_depth: nat,
    leaf_capacity: nat,
)
    requires
        built_from(n, boxes, tris, level, x, y, z, max_depth, leaf_capacity),
        max_depth <= 32,
        coord_in_grid(x, level),
        coord_in_grid(y, level),
        coord_in_grid(z, level),
    ensures
        every_leaf(
            n,
            |l: OctreeNode|
                cell_inside(l, level, x, y, z) && forall|k: usize|
                    tris.contains(k) && #[trigger] meets_node(boxes, k, l) ==> l.triangles@.contains(
                        k,
                    ),
        ),
    decreases n,
{
    let p = |l: OctreeNode|
        cell_inside(l, level, x, y, z) && forall|k: usize|
            tris.contains(k) && #[trigger] meets_node(boxes, k, l) ==> l.triangles@.contains(k);
    if n.children@.len() != 0 {
        assert(level < max_depth);
        let center = node_center(level, x, y, z);
        assert forall|i: int| 0 <= i < n.children@.len() implies match #[trigger] n.children@[i] {
            None => true,
            Some(c) => every_leaf(c, p),
        } by {
            let o = i as u8;
            assert(o as int == i);
            if let Some(c) = n.children@[i] {
                let sub = assigned(boxes, tris, center, o);
                let cx = child_coord(x, o & 4 != 0);
                let cy = child_coord(y, o & 2 != 0);
                let cz = child_coord(z, o & 1 != 0);
                lemma_child_cell(x, level, if o & 4 != 0 { 1 } else { 0 });
                lemma_child_cell(y, level, if o & 2 != 0 { 1 } else { 0 });
                lemma_child_cell(z, level, if o & 1 != 0 { 1 } else { 0 });
                lemma_complete(c, boxes, sub, level + 1, cx, cy, cz, max_depth, leaf_capacity);
                lemma_assigned_members(boxes, tris, center, o);
                let pc = |l: OctreeNode|
                    cell_inside(l, level + 1, cx, cy, cz) && forall|k: usize|
                        sub.contains(k) && #[trigger] meets_node(boxes, k, l)
                            ==> l.triangles@.contains(k);
                assert forall|l: OctreeNode| #[trigger] pc(l) implies p(l) by {
                    assert forall|k: usize|
                        tris.contains(k) && #[trigger] meets_node(boxes, k, l) implies l.triangles@.contains(k) by {
                        lemma_meeting_child_is_hit(boxes[k as int], level, x, y, z, o);
                    }
                }
                lemma_every_leaf_weaken(c, pc, p);
            }
        }
    } else {
        lemma_cell_size_positive(level);
    }
}

/// Soundness below one node: each leaf under `n` lists only triangles of
/// `tris`, and those whose boxes are well formed and meet `n`'s cell also meet
/// the leaf's cell.
proof fn lemma_sound(
    n: OctreeNode,
    boxes: Seq<Aabb>,
    tris: Seq<usize>,
    level: nat,
    x: nat,
    y: nat,
    z: nat,
    max_depth: nat,
    leaf_capacity: nat,
)
    requires
        built_from(n, boxes, tris, level, x, y, z, max_depth, leaf_capacity),
        max_depth <= 32,
        coord_in_grid(x, level),
        coord_in_grid(y, level),
        coord_in_grid(z, level),
    ensures
        every_leaf(
            n,
            |l: OctreeNode|
                forall|k: usize|
                    #[trigger] l.triangles@.contains(k) ==> tris.contains(k) && (box_well_formed(
                        boxes[k as int],
                    ) && box_meets_cell(boxes[k as int], level, x, y, z) ==> meets_node(
                        boxes,
                        k,
                        l,
                    )),
        ),
    decreases n,
{
    let p = |l: OctreeNode|
        forall|k: usize|
            #[trigger] l.triangles@.contains(k) ==> tris.contains(k) && (box_well_formed(
                boxes[k as int],
            ) && box_meets_cell(boxes[k as int], level, x, y, z) ==> meets_node(boxes, k, l));
    if n.children@.len() != 0 {
        assert(level < max_depth);
        let center = node_center(level, x, y, z);
        assert forall|i: int| 0 <= i < n.children@.len() implies match #[trigger] n.children@[i] {
            None => true,
            Some(c) => every_leaf(c, p),
        } by {
            let o = i as u8;
            assert(o as int == i);
            if let Some(c) = n.children@[i] {
                let sub = assigned(boxes, tris, center, o);
                let cx = child_coord(x, o & 4 != 0);
                let cy = child_coord(y, o & 2 != 0);
                let cz = child_coord(z, o & 1 != 0);
                lemma_child_cell(x, level, if o & 4 != 0 { 1 } else { 0 });
                lemma_child_cell(y, level, if o & 2 != 0 { 1 } else { 0 });
                lemma_child_cell(z, level, if o & 1 != 0 { 1 } else { 0 });
                lemma_sound(c, boxes, sub, level + 1, cx, cy, cz, max_depth, leaf_capacity);
                lemma_assigned_members(boxes, tris, center, o);
                let pc = |l: OctreeNode|
                    forall|k: usize|
                        #[trigger] l.triangles@.contains(k) ==> sub.contains(k) && (box_well_formed(
                            boxes[k as int],
                        ) && box_meets_cell(boxes[k as int], level + 1, cx, cy, cz)
                            ==> meets_node(boxes, k, l));
                assert forall|l: OctreeNode| #[trigger] pc(l) implies p(l) by {
                    assert forall|k: usize| #[trigger] l.triangles@.contains(k) implies tris.contains(k) && (
                    box_well_formed(boxes[k as int]) && box_meets_cell(boxes[k as int], level, x, y, z)
                        ==> meets_node(boxes, k, l)) by {
                        if box_well_formed(boxes[k as int]) && box_meets_cell(boxes[k as int], level, x, y, z) {
                            lemma_hit_meets_child(boxes[k as int], level, x, y, z, o);
                        }
                    }
                }
                lemma_every_leaf_weaken(c, pc, p);
            }
        }
    } else {
        assert forall|k: usize| #[trigger] n.triangles@.contains(k) implies tris.contains(k) by {}
    }
}

} // verus!
