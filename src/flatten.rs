//! The flat buffer a tree is handed over in.
//!
//! Nodes are written depth first, each before its children, children in
//! ascending octant order. A leaf is `[LEAF_TAG, count, t_0, ..., t_{count-1}]`.
//! An internal node is `[INTERNAL_TAG, count, mask, offset_0, ..., offset_{k-1}]`
//! followed by its `k` present children, where bit `o` of `mask` marks a child
//! in octant `o` and `offset_j` is the absolute position of the `j`-th child's
//! record. Empty octants are never written.
use vstd::prelude::*;
use crate::geometry::{Aabb, node_center};
use crate::octree::{Octree, OctreeNode, assigned, built_from, child_coord, is_build_of};

verus! {

broadcast use vstd::std_specs::vec::axiom_vec_index_decreases;

/// First word of a leaf's record.
pub const LEAF_TAG: u64 = 0;

/// First word of an internal node's record.
pub const INTERNAL_TAG: u64 = 1;

/// Child slot `o` of `n` holds a child.
pub open spec fn slot_filled(n: OctreeNode, o: int) -> bool {
    0 <= o < n.children@.len() && n.children@[o] is Some
}

/// The mask of filled slots among the first `o` octants.
pub open spec fn mask_below(n: OctreeNode, o: nat) -> u8
    decreases o,
{
    if o == 0 {
        0
    } else {
        mask_below(n, (o - 1) as nat) | if slot_filled(n, o - 1) {
            1u8 << ((o - 1) as u8)
        } else {
            0u8
        }
    }
}

/// The mask of `n`'s present children.
pub open spec fn child_mask(n: OctreeNode) -> u8 {
    mask_below(n, 8)
}

/// Number of filled slots from `o` on.
pub open spec fn filled_from(n: OctreeNode, o: nat) -> nat
    decreases n.children@.len() - o,
{
    if o >= n.children@.len() {
        0
    } else {
        filled_from(n, o + 1) + if slot_filled(n, o as int) {
            1nat
        } else {
            0nat
        }
    }
}

/// The indices of a list as buffer words.
pub open spec fn words(s: Seq<usize>) -> Seq<u64> {
    s.map_values(|t: usize| t as u64)
}

/// The record of `n` and its subtree when it starts at position `base`.
pub open spec fn flat(n: OctreeNode, base: nat) -> Seq<u64>
    decreases n, 9nat,
{
    if n.children@.len() == 0 {
        seq![LEAF_TAG, n.triangles@.len() as u64] + words(n.triangles@)
    } else {
        let start = base + 3 + filled_from(n, 0);
        seq![INTERNAL_TAG, n.triangles@.len() as u64, child_mask(n) as u64] + child_offsets(
            n,
            0,
            start,
        ) + child_records(n, 0, start)
    }
}

/// Positions of the records of the children in slots `o..`, the first of them
/// starting at `pos`.
pub open spec fn child_offsets(n: OctreeNode, o: nat, pos: nat) -> Seq<u64>
    decreases n, 8 - o,
{
    if o >= n.children@.len() || o >= 8 {
        seq![]
    } else {
        match n.children@[o as int] {
            None => child_offsets(n, o + 1, pos),
            Some(c) => seq![pos as u64] + child_offsets(n, o + 1, pos + flat(c, pos).len()),
        }
    }
}

/// The records of the children in slots `o..`, the first of them starting at
/// `pos`.
pub open spec fn child_records(n: OctreeNode, o: nat, pos: nat) -> Seq<u64>
    decreases n, 8 - o,
{
    if o >= n.children@.len() || o >= 8 {
        seq![]
    } else {
        match n.children@[o as int] {
            None => child_records(n, o + 1, pos),
            Some(c) => flat(c, pos) + child_records(n, o + 1, pos + flat(c, pos).len()),
        }
    }
}

/// The flat buffer of a whole tree.
pub open spec fn flat_tree(t: Octree) -> Seq<u64> {
    flat(t.root, 0)
}

/// A node's slots: none for a leaf, one per octant for an internal node.
pub open spec fn slots_ok(n: OctreeNode) -> bool
    decreases n,
{
    &&& (n.children@.len() == 0 || n.children@.len() == 8)
    &&& forall|i: int|
        0 <= i < n.children@.len() ==> match #[trigger] n.children@[i] {
            None => true,
            Some(c) => slots_ok(c),
        }
}

/// Flattens the tree into its buffer.
pub fn flatten(t: &Octree) -> (r: Vec<u64>)
    requires
        slots_ok(t.root),
    ensures
        r@ == flat_tree(*t),
{
    let mut out: Vec<u64> = Vec::new();
    flatten_into(&t.root, &mut out);
    assert(out@ =~= flat(t.root, 0));
    out
}

/// One offset per filled slot.
pub(crate) proof fn lemma_offsets_len(n: OctreeNode, o: nat, pos: nat)
    requires
        n.children@.len() <= 8,
    ensures
        child_offsets(n, o, pos).len() == filled_from(n, o),
    decreases 8 - o,
{
    if o < n.children@.len() {
        match n.children@[o as int] {
            None => lemma_offsets_len(n, o + 1, pos),
            Some(c) => lemma_offsets_len(n, o + 1, pos + flat(c, pos).len()),
        }
    }
}

/// Appends the record of `n` and its subtree to `out`.
fn flatten_into(n: &OctreeNode, out: &mut Vec<u64>)
    requires
        slots_ok(*n),
    ensures
        final(out)@ == old(out)@ + flat(*n, old(out)@.len()),
    decreases n,
{
    let ghost prefix = out@;
    if n.children.len() == 0 {
        out.push(LEAF_TAG);
        out.push(n.triangles.len() as u64);
        let mut i: usize = 0;
        while i < n.triangles.len()
            invariant
                i <= n.triangles@.len(),
                out@ == prefix + seq![LEAF_TAG, n.triangles@.len() as u64] + words(
                    n.triangles@.take(i as int),
                ),
            decreases n.triangles@.len() - i,
        {
            out.push(n.triangles[i] as u64);
            i = i + 1;
            assert(words(n.triangles@.take(i as int)) =~= words(n.triangles@.take(i - 1)).push(
                n.triangles@[i - 1] as u64,
            ));
        }
        assert(n.triangles@.take(i as int) =~= n.triangles@);
        assert(out@ =~= prefix + flat(*n, prefix.len()));
        return;
    }
    let mut mask: u8 = 0;
    let mut k: usize = 0;
    let mut o: usize = 0;
    while o < 8
        invariant
            o <= 8,
            n.children@.len() == 8,
            mask == mask_below(*n, o as nat),
            k + filled_from(*n, o as nat) == filled_from(*n, 0),
            k <= o,
        decreases 8 - o,
    {
        if n.children[o].is_some() {
            mask = mask | (1u8 << (o as u8));
            k = k + 1;
        } else {
            assert(mask | 0u8 == mask) by (bit_vector);
        }
        o = o + 1;
    }
    out.push(INTERNAL_TAG);
    out.push(n.triangles.len() as u64);
    out.push(mask as u64);
    let slots = out.len();
    let ghost header = seq![INTERNAL_TAG, n.triangles@.len() as u64, child_mask(*n) as u64];
    assert(out@ =~= prefix + header);
    let mut j: usize = 0;
    while j < k
        invariant
            j <= k,
            slots == prefix.len() + 3,
            header == seq![INTERNAL_TAG, n.triangles@.len() as u64, child_mask(*n) as u64],
            out@ == prefix + header + Seq::new(j as nat, |i: int| 0u64),
        decreases k - j,
    {
        out.push(0);
        j = j + 1;
        assert(out@ =~= prefix + header + Seq::new(j as nat, |i: int| 0u64));
    }
    let ghost start: nat = (prefix.len() + 3 + k) as nat;
    let ghost done_offsets: Seq<u64> = seq![];
    let ghost done_records: Seq<u64> = seq![];
    proof {
        lemma_offsets_len(*n, 0, start);
    }
    j = 0;
    o = 0;
    while o < 8
        invariant
            o <= 8,
            n.children@.len() == 8,
            slots_ok(*n),
            slots == prefix.len() + 3,
            header == seq![INTERNAL_TAG, n.triangles@.len() as u64, child_mask(*n) as u64],
            start == prefix.len() + 3 + k,
            k == filled_from(*n, 0),
            j + filled_from(*n, o as nat) == k,
            done_offsets.len() == j,
            out@ == prefix + header + done_offsets + Seq::new((k - j) as nat, |i: int| 0u64)
                + done_records,
            done_offsets + child_offsets(*n, o as nat, start + done_records.len()) == child_offsets(
                *n,
                0,
                start,
            ),
            done_records + child_records(*n, o as nat, start + done_records.len()) == child_records(
                *n,
                0,
                start,
            ),
        decreases 8 - o,
    {
        let ghost pos: nat = start + done_records.len();
        match &n.children[o] {
            None => {},
            Some(c) => {
                proof {
                    assert(n.children@[o as int] == Some(*c));
                    lemma_offsets_len(*n, o as nat + 1, pos + flat(*c, pos).len());
                    lemma_offsets_len(*n, o as nat, pos);
                }
                let here = out.len();
                assert(out@.len() == prefix.len() + 3 + j + (k - j) + done_records.len());
                out[slots + j] = here as u64;
                let ghost before = out@;
                assert(before =~= prefix + header + done_offsets.push(here as u64) + Seq::new(
                    (k - j - 1) as nat,
                    |i: int| 0u64,
                ) + done_records);
                flatten_into(c, out);
                proof {
                    assert(seq![pos as u64] + child_offsets(*n, o as nat + 1, pos + flat(*c, pos).len())
                        == child_offsets(*n, o as nat, pos));
                    assert(done_offsets.push(here as u64) + child_offsets(
                        *n,
                        o as nat + 1,
                        pos + flat(*c, pos).len(),
                    ) =~= done_offsets + child_offsets(*n, o as nat, pos));
                    assert(done_records + flat(*c, pos) + child_records(
                        *n,
                        o as nat + 1,
                        pos + flat(*c, pos).len(),
                    ) =~= done_records + child_records(*n, o as nat, pos));
                    done_offsets = done_offsets.push(here as u64);
                    done_records = done_records + flat(*c, pos);
                }
                j = j + 1;
                assert(out@ =~= prefix + header + done_offsets + Seq::new(
                    (k - j) as nat,
                    |i: int| 0u64,
                ) + done_records);
            },
        }
        o = o + 1;
    }
    assert(done_offsets =~= child_offsets(*n, 0, start));
    assert(done_records =~= child_records(*n, 0, start));
    assert(out@ =~= prefix + flat(*n, prefix.len()));
}

/// A built subtree has no child slots at a leaf and eight at an internal node.
pub proof fn lemma_built_slots_ok(
    n: OctreeNode,
    boxes: Seq<Aabb>,
    tris: Seq<usize>,
    level: nat,
    x: nat,
    y: nat,
    z: nat,
    max_depth: nat,
    leaf_capacity: nat,
)
    requires
        built_from(n, boxes, tris, level, x, y, z, max_depth, leaf_capacity),
    ensures
        slots_ok(n),
    decreases n,
{
    if n.children@.len() != 0 {
        let center = node_center(level, x, y, z);
        assert forall|i: int| 0 <= i < n.children@.len() implies match #[trigger] n.children@[i] {
            None => true,
            Some(c) => slots_ok(c),
        } by {
            let o = i as u8;
            assert(o as int == i);
            if let Some(c) = n.children@[i] {
                lemma_built_slots_ok(
                    c,
                    boxes,
                    assigned(boxes, tris, center, o),
                    level + 1,
                    child_coord(x, o & 4 != 0),
                    child_coord(y, o & 2 != 0),
                    child_coord(z, o & 1 != 0),
                    max_depth,
                    leaf_capacity,
                );
            }
        }
    }
}

/// Building is deterministic down to the buffer: two trees built over the same
/// boxes with the same parameters flatten to the same words.
pub proof fn lemma_build_flattens_identically(
    t1: Octree,
    t2: Octree,
    boxes: Seq<Aabb>,
    max_depth: nat,
    leaf_capacity: nat,
)
    requires
        is_build_of(t1, boxes, max_depth, leaf_capacity),
        is_build_of(t2, boxes, max_depth, leaf_capacity),
    ensures
        flat_tree(t1) == flat_tree(t2),
{
    lemma_same_flat(
        t1.root,
        t2.root,
        boxes,
        crate::octree::all_indices(boxes.len()),
        0,
        0,
        0,
        0,
        max_depth,
        leaf_capacity,
        0,
    );
}

/// Two nodes with the same filled slots have the same mask.
proof fn lemma_same_slots(a: OctreeNode, b: OctreeNode, o: nat)
    requires
        forall|i: int| slot_filled(a, i) == slot_filled(b, i),
    ensures
        mask_below(a, o) == mask_below(b, o),
    decreases o,
{
    if o > 0 {
        lemma_same_slots(a, b, (o - 1) as nat);
    }
}

/// Two nodes with the same filled slots have the same count from `o` on.
proof fn lemma_same_slots_from(a: OctreeNode, b: OctreeNode, o: nat)
    requires
        a.children@.len() == b.children@.len(),
        forall|i: int| slot_filled(a, i) == slot_filled(b, i),
    ensures
        filled_from(a, o) == filled_from(b, o),
    decreases a.children@.len() - o,
{
    if o < a.children@.len() {
        lemma_same_slots_from(a, b, o + 1);
    }
}

/// Two subtrees built from the same arguments have the same record.
proof fn lemma_same_flat(
    a: OctreeNode,
    b: OctreeNode,
    boxes: Seq<Aabb>,
    tris: Seq<usize>,
    level: nat,
    x: nat,
    y: nat,
    z: nat,
    max_depth: nat,
    leaf_capacity: nat,
    base: nat,
)
    requires
        built_from(a, boxes, tris, level, x, y, z, max_depth, leaf_capacity),
        built_from(b, boxes, tris, level, x, y, z, max_depth, leaf_capacity),
    ensures
        flat(a, base) == flat(b, base),
    decreases a, 9nat,
{
    if a.children@.len() != 0 {
        let center = node_center(level, x, y, z);
        assert forall|i: int| slot_filled(a, i) == slot_filled(b, i) by {
            if 0 <= i < 8 {
                let o = i as u8;
                assert(o as int == i);
                assert(a.children@[o as int] is Some <==> assigned(boxes, tris, center, o).len() > 0);
                assert(b.children@[o as int] is Some <==> assigned(boxes, tris, center, o).len() > 0);
            }
        }
        lemma_same_slots(a, b, 8);
        lemma_same_slots_from(a, b, 0);
        let start = base + 3 + filled_from(a, 0);
        lemma_same_children(a, b, boxes, tris, level, x, y, z, max_depth, leaf_capacity, 0, start);
    }
}

/// Two subtrees built from the same arguments have the same children's
/// offsets and records from slot `o` on.
proof fn lemma_same_children(
    a: OctreeNode,
    b: OctreeNode,
    boxes: Seq<Aabb>,
    tris: Seq<usize>,
    level: nat,
    x: nat,
    y: nat,
    z: nat,
    max_depth: nat,
    leaf_capacity: nat,
    o: nat,
    pos: nat,
)
    requires
        built_from(a, boxes, tris, level, x, y, z, max_depth, leaf_capacity),
        built_from(b, boxes, tris, level, x, y, z, max_depth, leaf_capacity),
        a.children@.len() != 0,
    ensures
        child_offsets(a, o, pos) == child_offsets(b, o, pos),
        child_records(a, o, pos) == child_records(b, o, pos),
    decreases a, 8 - o,
{
    if o < 8 {
        let oc = o as u8;
        assert(oc as nat == o);
        let center = node_center(level, x, y, z);
        let sub = assigned(boxes, tris, center, oc);
        match a.children@[o as int] {
            None => {
                assert(b.children@[oc as int] is None);
                lemma_same_children(a, b, boxes, tris, level, x, y, z, max_depth, leaf_capacity, o + 1, pos);
            },
            Some(ca) => {
                let cb = b.children@[oc as int]->Some_0;
                lemma_same_flat(
                    ca,
                    cb,
                    boxes,
                    sub,
                    level + 1,
                    child_coord(x, oc & 4 != 0),
                    child_coord(y, oc & 2 != 0),
                    child_coord(z, oc & 1 != 0),
                    max_depth,
                    leaf_capacity,
                    pos,
                );
                lemma_same_children(
                    a,
                    b,
                    boxes,
                    tris,
                    level,
                    x,
                    y,
                    z,
                    max_depth,
                    leaf_capacity,
                    o + 1,
                    pos + flat(ca, pos).len(),
                );
            },
        }
    }
}

} // verus!
