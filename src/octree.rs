//! The octree and its construction by recursive octant subdivision.
use vstd::prelude::*;
use crate::aabb_set::AabbSet;
use crate::classify::{get_overlap, has_octant, mask_matches, octant_hit};
use crate::geometry::{
    Aabb,
    HALF_EXTENT,
    MAX_DEPTH,
    Point3,
    UNIT,
    cell_size,
    coord_in_grid,
    lemma_cell_size_halves,
    lemma_child_cell,
    lemma_root_cell,
    node_center,
};

verus! {

broadcast use vstd::std_specs::vec::axiom_vec_index_decreases;

/// One node of the tree: its level (root = 0), its grid coordinates, the
/// triangles assigned to it in input order, and its children. A leaf has no
/// child slots; an internal node has eight, indexed by octant code, and a slot
/// holds a child exactly when that octant received a triangle.
pub struct OctreeNode {
    pub level: u32,
    pub x: u32,
    pub y: u32,
    pub z: u32,
    pub triangles: Vec<usize>,
    pub children: Vec<Option<OctreeNode>>,
}

/// A built tree with the parameters it was built with.
pub struct Octree {
    pub root: OctreeNode,
    pub max_depth: u32,
    pub leaf_capacity: usize,
}

/// The triangles among `tris` that reach octant `o` of the node centered at `c`,
/// in the order they appear in `tris`.
pub open spec fn assigned(boxes: Seq<Aabb>, tris: Seq<usize>, c: Point3, o: u8) -> Seq<usize>
    decreases tris.len(),
{
    if tris.len() == 0 {
        seq![]
    } else {
        let rest = assigned(boxes, tris.drop_last(), c, o);
        if octant_hit(c, boxes[tris.last() as int], o) {
            rest.push(tris.last())
        } else {
            rest
        }
    }
}

/// Subdivision stops at the depth bound or once a node holds at most
/// `leaf_capacity` triangles.
pub open spec fn halts(level: nat, count: nat, max_depth: nat, leaf_capacity: nat) -> bool {
    level >= max_depth || count <= leaf_capacity
}

/// Grid coordinate of a child on one axis: twice the parent's, plus one on the
/// high half.
pub open spec fn child_coord(coord: nat, high: bool) -> nat {
    2 * coord + if high {
        1nat
    } else {
        0nat
    }
}

/// `n` is the subtree that building from `tris` at this node produces.
pub open spec fn built_from(
    n: OctreeNode,
    boxes: Seq<Aabb>,
    tris: Seq<usize>,
    level: nat,
    x: nat,
    y: nat,
    z: nat,
    max_depth: nat,
    leaf_capacity: nat,
) -> bool
    decreases n,
{
    &&& n.level == level
    &&& n.x == x
    &&& n.y == y
    &&& n.z == z
    &&& n.triangles@ == tris
    &&& if halts(level, tris.len(), max_depth, leaf_capacity) {
        n.children@.len() == 0
    } else {
        &&& n.children@.len() == 8
        &&& forall|o: u8|
            o < 8 ==> {
                let sub = assigned(boxes, tris, node_center(level, x, y, z), o);
                match #[trigger] n.children@[o as int] {
                    None => sub.len() == 0,
                    Some(ch) => {
                        &&& sub.len() > 0
                        &&& built_from(
                            ch,
                            boxes,
                            sub,
                            level + 1,
                            child_coord(x, o & 4 != 0),
                            child_coord(y, o & 2 != 0),
                            child_coord(z, o & 1 != 0),
                            max_depth,
                            leaf_capacity,
                        )
                    },
                }
            }
    }
}

/// The indices 0, 1, ..., n - 1.
pub open spec fn all_indices(n: nat) -> Seq<usize> {
    Seq::new(n, |i: int| i as usize)
}

/// `t` is the tree built over `boxes` with the given parameters.
pub open spec fn is_build_of(t: Octree, boxes: Seq<Aabb>, max_depth: nat, leaf_capacity: nat) -> bool {
    &&& t.max_depth == max_depth
    &&& max_depth <= MAX_DEPTH
    &&& t.leaf_capacity == leaf_capacity
    &&& built_from(t.root, boxes, all_indices(boxes.len()), 0, 0, 0, 0, max_depth, leaf_capacity)
}

/// Builds the octree over `set`: the root holds every triangle, and each node
/// that does not halt hands each of its triangles to every octant its box
/// reaches, keeping the order in which the triangles came.
pub fn build(set: &AabbSet, max_depth: u32, leaf_capacity: usize) -> (r: Octree)
    requires
        max_depth <= MAX_DEPTH,
    ensures
        is_build_of(r, set@, max_depth as nat, leaf_capacity as nat),
{
    let boxes = set.boxes();
    let n = boxes.len();
    let mut tris: Vec<usize> = Vec::new();
    let mut i: usize = 0;
    while i < n
        invariant
            n == boxes@.len(),
            i <= n,
            tris@ == all_indices(i as nat),
        decreases n - i,
    {
        tris.push(i);
        i = i + 1;
        assert(tris@ =~= all_indices(i as nat));
    }
    proof {
        lemma_root_cell();
        assert(coord_in_grid(0, 0));
    }
    let root = build_node(boxes, tris, 0, 0, 0, 0, UNIT, max_depth, leaf_capacity);
    Octree { root, max_depth, leaf_capacity }
}

/// Center, on one axis, of cell `coord` whose edge is `size` units.
fn axis_center(coord: u32, size: i64, level: Ghost<nat>) -> (r: i64)
    requires
        level@ < 32,
        size == cell_size(level@),
        coord_in_grid(coord as nat, level@),
    ensures
        r == node_center(level@, coord as nat, 0, 0).x,
{
    proof {
        lemma_cell_size_halves(level@);
        assert(coord * size + size <= UNIT) by (nonlinear_arith)
            requires
                (coord + 1) * size <= UNIT,
        ;
        assert(coord * size >= 0) by (nonlinear_arith)
            requires
                size >= 0,
        ;
    }
    coord as i64 * size - HALF_EXTENT + size / 2
}

/// Builds the subtree of the node at `level` and (x, y, z), whose cell has edge
/// `size`, from the triangles `tris` that reached it.
fn build_node(
    boxes: &Vec<Aabb>,
    tris: Vec<usize>,
    level: u32,
    x: u32,
    y: u32,
    z: u32,
    size: i64,
    max_depth: u32,
    leaf_capacity: usize,
) -> (r: OctreeNode)
    requires
        level <= max_depth <= MAX_DEPTH,
        size == cell_size(level as nat),
        coord_in_grid(x as nat, level as nat),
        coord_in_grid(y as nat, level as nat),
        coord_in_grid(z as nat, level as nat),
        forall|k: int| 0 <= k < tris@.len() ==> tris@[k] < boxes@.len(),
    ensures
        built_from(
            r,
            boxes@,
            tris@,
            level as nat,
            x as nat,
            y as nat,
            z as nat,
            max_depth as nat,
            leaf_capacity as nat,
        ),
    decreases max_depth - level,
{
    if level >= max_depth || tris.len() <= leaf_capacity {
        return OctreeNode { level, x, y, z, triangles: tris, children: Vec::new() };
    }
    let ghost lv = level as nat;
    let center = Point3 {
        x: axis_center(x, size, Ghost(lv)),
        y: axis_center(y, size, Ghost(lv)),
        z: axis_center(z, size, Ghost(lv)),
    };
    assert(center == node_center(lv, x as nat, y as nat, z as nat));
    let mut lists: Vec<Vec<usize>> = Vec::new();
    let mut o: u8 = 0;
    while o < 8
        invariant
            o <= 8,
            lists@.len() == o,
            forall|q: int| 0 <= q < o ==> (#[trigger] lists@[q])@ == Seq::<usize>::empty(),
        decreases 8 - o,
    {
        lists.push(Vec::new());
        o = o + 1;
    }
    let mut i: usize = 0;
    while i < tris.len()
        invariant
            i <= tris@.len(),
            lists@.len() == 8,
            forall|q: u8|
                q < 8 ==> (#[trigger] lists@[q as int])@ == assigned(
                    boxes@,
                    tris@.take(i as int),
                    center,
                    q,
                ),
            forall|k: int| 0 <= k < tris@.len() ==> tris@[k] < boxes@.len(),
        decreases tris@.len() - i,
    {
        let t = tris[i];
        let (_, mask) = get_overlap(center, &boxes[t]);
        let ghost prev = tris@.take(i as int);
        let ghost next = tris@.take(i as int + 1);
        assert(next.drop_last() =~= prev);
        assert(next.last() == t);
        let mut q: u8 = 0;
        while q < 8
            invariant
                q <= 8,
                lists@.len() == 8,
                t < boxes@.len(),
                mask_matches(mask, center, boxes@[t as int]),
                next.drop_last() == prev,
                next.len() > 0,
                next.last() == t,
                forall|p: u8|
                    p < 8 ==> (#[trigger] lists@[p as int])@ == if p < q {
                        assigned(boxes@, next, center, p)
                    } else {
                        assigned(boxes@, prev, center, p)
                    },
            decreases 8 - q,
        {
            assert(has_octant(mask, q) <==> octant_hit(center, boxes@[t as int], q));
            if (mask >> q) & 1 == 1 {
                lists[q as usize].push(t);
            }
            q = q + 1;
        }
        i = i + 1;
    }
    assert(tris@.take(tris@.len() as int) =~= tris@);
    proof {
        lemma_cell_size_halves(lv);
    }
    let half = size / 2;
    let mut children: Vec<Option<OctreeNode>> = Vec::new();
    let mut q: u8 = 0;
    while q < 8
        invariant
            q <= 8,
            lists@.len() == 8,
            children@.len() == q,
            level < max_depth <= MAX_DEPTH,
            half == cell_size(lv + 1),
            lv == level,
            center == node_center(lv, x as nat, y as nat, z as nat),
            coord_in_grid(x as nat, lv),
            coord_in_grid(y as nat, lv),
            coord_in_grid(z as nat, lv),
            forall|k: int| 0 <= k < tris@.len() ==> tris@[k] < boxes@.len(),
            forall|p: u8| q <= p < 8 ==> (#[trigger] lists@[p as int])@ == assigned(boxes@, tris@, center, p),
            forall|p: u8|
                p < q ==> {
                    let sub = assigned(boxes@, tris@, center, p);
                    match #[trigger] children@[p as int] {
                        None => sub.len() == 0,
                        Some(ch) => {
                            &&& sub.len() > 0
                            &&& built_from(
                                ch,
                                boxes@,
                                sub,
                                lv + 1,
                                child_coord(x as nat, p & 4 != 0),
                                child_coord(y as nat, p & 2 != 0),
                                child_coord(z as nat, p & 1 != 0),
                                max_depth as nat,
                                leaf_capacity as nat,
                            )
                        },
                    }
                },
        decreases 8 - q,
    {
        let mut sub: Vec<usize> = Vec::new();
        std::mem::swap(&mut sub, &mut lists[q as usize]);
        if sub.len() == 0 {
            children.push(None);
        } else {
            let bx: u32 = if q & 4 != 0 { 1 } else { 0 };
            let by: u32 = if q & 2 != 0 { 1 } else { 0 };
            let bz: u32 = if q & 1 != 0 { 1 } else { 0 };
            proof {
                lemma_child_cell(x as nat, lv, bx as nat);
                lemma_child_cell(y as nat, lv, by as nat);
                lemma_child_cell(z as nat, lv, bz as nat);
                lemma_coord_fits(x as nat, lv);
                lemma_coord_fits(y as nat, lv);
                lemma_coord_fits(z as nat, lv);
                lemma_assigned_within(boxes@, tris@, center, q);
            }
            let child = build_node(
                boxes,
                sub,
                level + 1,
                2 * x + bx,
                2 * y + by,
                2 * z + bz,
                half,
                max_depth,
                leaf_capacity,
            );
            children.push(Some(child));
        }
        q = q + 1;
    }
    let r = OctreeNode { level, x, y, z, triangles: tris, children };
    assert(forall|p: u8| p < 8 ==> #[trigger] r.children@[p as int] == children@[p as int]);
    r
}

/// Below the last level a grid coordinate is below 2^31, so its children's
/// coordinates fit in 32 bits.
proof fn lemma_coord_fits(coord: nat, level: nat)
    requires
        level < 32,
        coord_in_grid(coord, level),
    ensures
        2 * coord + 1 <= u32::MAX,
{
    lemma_cell_size_halves(level);
    let s = cell_size(level);
    assert(coord + 1 <= 2147483648) by (nonlinear_arith)
        requires
            (coord + 1) * s <= 4294967296,
            s >= 2,
    ;
}

/// Every triangle assigned to an octant came from the node's own list.
proof fn lemma_assigned_within(boxes: Seq<Aabb>, tris: Seq<usize>, c: Point3, o: u8)
    ensures
        forall|k: int|
            0 <= k < assigned(boxes, tris, c, o).len() ==> tris.contains(
                #[trigger] assigned(boxes, tris, c, o)[k],
            ),
    decreases tris.len(),
{
    if tris.len() > 0 {
        lemma_assigned_within(boxes, tris.drop_last(), c, o);
        let rest = assigned(boxes, tris.drop_last(), c, o);
        assert forall|k: int| 0 <= k < assigned(boxes, tris, c, o).len() implies tris.contains(
            #[trigger] assigned(boxes, tris, c, o)[k],
        ) by {
            if k < rest.len() {
                let j = choose|j: int| 0 <= j < tris.drop_last().len() && tris.drop_last()[j] == rest[k];
                assert(tris[j] == rest[k]);
            } else {
                assert(tris[tris.len() - 1] == tris.last());
            }
        }
    }
}

} // verus!
