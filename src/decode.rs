//! Reading a flat buffer back into a tree.
use vstd::prelude::*;
use crate::classify::{bits_below, count_bits, has_octant};
use crate::flatten::{
    INTERNAL_TAG,
    LEAF_TAG,
    child_mask,
    child_offsets,
    child_records,
    filled_from,
    flat,
    flat_tree,
    lemma_offsets_len,
    mask_below,
    slot_filled,
    words,
};
use crate::octree::{Octree, OctreeNode, all_indices, assigned, built_from, child_coord, is_build_of};
use crate::geometry::{Aabb, cell_size, coord_in_grid, lemma_cell_size_halves, lemma_root_cell, node_center};

verus! {

broadcast use vstd::std_specs::vec::axiom_vec_index_decreases;

/// Largest grid coordinate whose children's coordinates fit in 32 bits, plus one.
pub const COORD_LIMIT: u32 = 0x8000_0000;

/// A subtree whose record can be read back: no child slots at a leaf, eight at
/// an internal node, internal nodes above the last level with coordinates below
/// `COORD_LIMIT`, and each child one level down at its octant's coordinates.
pub open spec fn shape_ok(n: OctreeNode) -> bool
    decreases n,
{
    &&& (n.children@.len() == 0 || n.children@.len() == 8)
    &&& (n.children@.len() == 8 ==> n.level < 32 && n.x < COORD_LIMIT && n.y < COORD_LIMIT && n.z
        < COORD_LIMIT)
    &&& forall|o: u8|
        o < n.children@.len() ==> match #[trigger] n.children@[o as int] {
            None => true,
            Some(c) => {
                &&& c.level == n.level + 1
                &&& c.x == child_coord(n.x as nat, o & 4 != 0)
                &&& c.y == child_coord(n.y as nat, o & 2 != 0)
                &&& c.z == child_coord(n.z as nat, o & 1 != 0)
                &&& shape_ok(c)
            },
        }
}

/// `p` has the nodes of `n`, at the same levels and coordinates and in the same
/// slots, and each of its leaves lists the triangles of `n`'s matching leaf.
pub open spec fn agrees(p: OctreeNode, n: OctreeNode) -> bool
    decreases n,
{
    &&& p.level == n.level
    &&& p.x == n.x
    &&& p.y == n.y
    &&& p.z == n.z
    &&& p.children@.len() == n.children@.len()
    &&& (n.children@.len() == 0 ==> p.triangles@ == n.triangles@)
    &&& forall|i: int|
        0 <= i < n.children@.len() ==> match #[trigger] n.children@[i] {
            None => p.children@[i] is None,
            Some(c) => p.children@[i] is Some && agrees(p.children@[i]->Some_0, c),
        }
}

/// The record of `n`, a readable subtree at `level` and (x, y, z), stands in
/// `buf` at `pos`.
pub open spec fn record_at(
    buf: Seq<u64>,
    pos: nat,
    n: OctreeNode,
    level: nat,
    x: nat,
    y: nat,
    z: nat,
) -> bool {
    &&& shape_ok(n)
    &&& n.level == level
    &&& n.x == x
    &&& n.y == y
    &&& n.z == z
    &&& pos + flat(n, pos).len() <= buf.len()
    &&& buf.subrange(pos as int, pos + flat(n, pos).len() as int) == flat(n, pos)
}

/// Reads a whole buffer back into a tree. Whenever the buffer is the flat
/// buffer of a readable tree, the result has that tree's nodes, slots and leaf
/// lists.
pub fn parse(buf: &Vec<u64>) -> (r: Option<OctreeNode>)
    ensures
        forall|n: OctreeNode|
            shape_ok(n) && n.level == 0 && n.x == 0 && n.y == 0 && n.z == 0 && buf@ == flat(n, 0)
                ==> #[trigger] agrees_some(r, n),
{
    let res = parse_node(buf, 0, 0, 0, 0, 0);
    let r = match res {
        Some((p, end)) => if end == buf.len() {
            Some(p)
        } else {
            None
        },
        None => None,
    };
    proof {
        assert forall|n: OctreeNode|
            shape_ok(n) && n.level == 0 && n.x == 0 && n.y == 0 && n.z == 0 && buf@ == flat(n, 0)
                implies #[trigger] agrees_some(r, n) by {
            assert(buf@.subrange(0, flat(n, 0).len() as int) =~= buf@);
            assert(record_at(buf@, 0, n, 0, 0, 0, 0));
        }
    }
    r
}

/// The parse gave a tree, and it agrees with `n`.
pub open spec fn agrees_some(r: Option<OctreeNode>, n: OctreeNode) -> bool {
    r is Some && agrees(r->Some_0, n)
}

/// Bit `o` of the mask of `n`'s first `m` slots is set exactly for a filled slot below `m`.
proof fn lemma_mask_bits(n: OctreeNode, m: nat)
    requires
        m <= 8,
    ensures
        forall|o: u8| o < 8 ==> (#[trigger] has_octant(mask_below(n, m), o) <==> (o < m && slot_filled(n, o as int))),
    decreases m,
{
    if m > 0 {
        lemma_mask_bits(n, (m - 1) as nat);
        let prev = mask_below(n, (m - 1) as nat);
        let b = (m - 1) as u8;
        assert(b < 8);
        assert(mask_below(n, m) == prev | if slot_filled(n, m - 1) {
            1u8 << b
        } else {
            0u8
        });
        assert forall|o: u8| o < 8 implies (#[trigger] has_octant(mask_below(n, m), o) <==> (o < m
            && slot_filled(n, o as int))) by {
            assert(has_octant(prev, o) <==> (o < m - 1 && slot_filled(n, o as int)));
            assert(b < 8 ==> (((prev | (1u8 << b)) >> o) & 1 == 1 <==> (((prev >> o) & 1 == 1) || o
                == b))) by (bit_vector);
            assert(((prev | 0u8) >> o) & 1 == 1 <==> ((prev >> o) & 1 == 1)) by (bit_vector);
        }
    } else {
        assert forall|o: u8| o < 8 implies !#[trigger] has_octant(mask_below(n, m), o) by {
            assert((0u8 >> o) & 1 != 1) by (bit_vector);
        }
    }
}

/// The set bits of a node's mask count its filled slots.
proof fn lemma_mask_count(n: OctreeNode, mask: u8, m: nat)
    requires
        m <= 8,
        n.children@.len() == 8,
        forall|o: u8| o < 8 ==> (#[trigger] has_octant(mask, o) <==> slot_filled(n, o as int)),
    ensures
        bits_below(mask, m) + filled_from(n, m) == filled_from(n, 0),
    decreases m,
{
    if m > 0 {
        lemma_mask_count(n, mask, (m - 1) as nat);
        assert(has_octant(mask, (m - 1) as u8) <==> slot_filled(n, m - 1));
    }
}

/// Reads the record of the node at `level` and (x, y, z) that starts at `pos`;
/// returns the node and the position just past its subtree's records.
fn parse_node(buf: &Vec<u64>, pos: usize, level: u32, x: u32, y: u32, z: u32) -> (r: Option<
    (OctreeNode, usize),
>)
    ensures
        forall|n: OctreeNode|
            #[trigger] record_at(buf@, pos as nat, n, level as nat, x as nat, y as nat, z as nat)
                ==> r is Some && r->Some_0.1 == pos + flat(n, pos as nat).len() && agrees(
                r->Some_0.0,
                n,
            ),
    decreases buf@.len() - pos,
{
    let len = buf.len();
    if pos >= len || len - pos < 2 {
        return None;
    }
    let tag = buf[pos];
    let count = buf[pos + 1];
    if tag == LEAF_TAG {
        if count > (len - pos - 2) as u64 {
            proof {
                assert forall|n: OctreeNode| !#[trigger] record_at(buf@, pos as nat, n, level as nat, x as nat, y as nat, z as nat) by {
                    if record_at(buf@, pos as nat, n, level as nat, x as nat, y as nat, z as nat) {
                        lemma_record_header(buf@, pos as nat, n);

                    }
                }
            }
            return None;
        }
        let c = count as usize;
        let mut tris: Vec<usize> = Vec::new();
        let mut i: usize = 0;
        while i < c
            invariant
                len == buf@.len(),
                pos + 2 + c <= len,
                i <= c,
                tris@.len() == i,
                forall|q: int| 0 <= q < i ==> tris@[q] == buf@[pos + 2 + q] as usize,
            decreases c - i,
        {
            tris.push(buf[pos + 2 + i] as usize);
            i = i + 1;
        }
        let node = OctreeNode { level, x, y, z, triangles: tris, children: Vec::new() };
        proof {
            assert forall|n: OctreeNode|
                #[trigger] record_at(buf@, pos as nat, n, level as nat, x as nat, y as nat, z as nat)
                    implies pos + 2 + c == pos + flat(n, pos as nat).len() && agrees(node, n) by {
                let f = flat(n, pos as nat);
                assert(buf@[pos as int] == f[0]);
                if n.children@.len() != 0 {
                    assert(f[0] == INTERNAL_TAG);
                }
                assert(buf@[pos + 1] == f[1]);
                assert(f =~= seq![LEAF_TAG, n.triangles@.len() as u64] + words(n.triangles@));
                assert(n.triangles@.len() == c);
                assert forall|q: int| 0 <= q < c implies node.triangles@[q] == n.triangles@[q] by {
                    assert(buf@[pos + 2 + q] == f[2 + q]);
                    assert(f[2 + q] == n.triangles@[q] as u64);
                }
                assert(node.triangles@ =~= n.triangles@);
            }
        }
        return Some((node, pos + 2 + c));
    }
    if tag != INTERNAL_TAG || len - pos < 3 || level >= 32 || x >= COORD_LIMIT || y >= COORD_LIMIT
        || z >= COORD_LIMIT || buf[pos + 2] > 255 {
            proof {
                assert forall|n: OctreeNode| !#[trigger] record_at(buf@, pos as nat, n, level as nat, x as nat, y as nat, z as nat) by {
                    if record_at(buf@, pos as nat, n, level as nat, x as nat, y as nat, z as nat) {
                        lemma_record_header(buf@, pos as nat, n);

                    }
                }
            }
        return None;
    }
    let mask_word = buf[pos + 2];
    let mask = mask_word as u8;
    let k = count_bits(mask) as usize;
    if k > len - pos - 3 {
            proof {
                assert forall|n: OctreeNode| !#[trigger] record_at(buf@, pos as nat, n, level as nat, x as nat, y as nat, z as nat) by {
                    if record_at(buf@, pos as nat, n, level as nat, x as nat, y as nat, z as nat) {
                        lemma_record_header(buf@, pos as nat, n);
                        lemma_mask_bits(n, 8);
                        lemma_mask_count(n, mask, 8);
                        lemma_offsets_len(n, 0, (pos + 3 + filled_from(n, 0)) as nat);
                    }
                }
            }
        return None;
    }
    let start = pos + 3 + k;
    proof {
        assert forall|n: OctreeNode|
            #[trigger] record_at(buf@, pos as nat, n, level as nat, x as nat, y as nat, z as nat)
                implies n.children@.len() == 8 && mask == child_mask(n) && k == filled_from(n, 0)
                && child_offsets(n, 0, start as nat) == buf@.subrange(pos + 3, start as int)
                && buf@.subrange(start as int, pos + flat(n, pos as nat).len())
                == child_records(n, 0, start as nat) by {
            let f = flat(n, pos as nat);
            assert(buf@[pos as int] == f[0]);
            assert(n.children@.len() == 8);
            assert(buf@[pos + 2] == f[2]);
            lemma_mask_bits(n, 8);
            lemma_mask_count(n, mask, 8);
            lemma_offsets_len(n, 0, (pos + 3 + filled_from(n, 0)) as nat);
            let hdr = seq![INTERNAL_TAG, n.triangles@.len() as u64, child_mask(n) as u64];
            let offs = child_offsets(n, 0, start as nat);
            let recs = child_records(n, 0, start as nat);
            assert(f == hdr + offs + recs);
            assert(buf@.subrange(pos + 3, start as int) =~= f.subrange(3, 3 + k as int));
            assert(f.subrange(3, 3 + k as int) =~= offs);
            assert(buf@.subrange(start as int, pos + f.len()) =~= f.subrange(3 + k as int, f.len() as int));
            assert(f.subrange(3 + k as int, f.len() as int) =~= recs);
        }
    }
    let mut children: Vec<Option<OctreeNode>> = Vec::new();
    let mut cur: usize = start;
    let mut j: usize = 0;
    let mut o: u8 = 0;
    while o < 8
        invariant
            len == buf@.len(),
            o <= 8,
            start == pos + 3 + k,
            start <= len,
            j <= k,
            children@.len() == o,
            level < 32,
            x < COORD_LIMIT,
            y < COORD_LIMIT,
            z < COORD_LIMIT,
            forall|n: OctreeNode|
                #[trigger] record_at(buf@, pos as nat, n, level as nat, x as nat, y as nat, z as nat)
                    ==> {
                    &&& n.children@.len() == 8
                    &&& mask == child_mask(n)
                    &&& k == filled_from(n, 0)
                    &&& j + filled_from(n, o as nat) == k
                    &&& start <= cur
                    &&& cur <= pos + flat(n, pos as nat).len()
                    &&& buf@.subrange(start as int, pos + flat(n, pos as nat).len()) == child_records(
                        n,
                        0,
                        start as nat,
                    )
                    &&& buf@.subrange(start as int, cur as int) + child_records(n, o as nat, cur as nat)
                        == child_records(n, 0, start as nat)
                    &&& child_offsets(n, o as nat, cur as nat) == buf@.subrange(
                        pos + 3 + j,
                        start as int,
                    )
                    &&& forall|q: int|
                        0 <= q < o ==> match #[trigger] n.children@[q] {
                            None => children@[q] is None,
                            Some(c) => children@[q] is Some && agrees(children@[q]->Some_0, c),
                        }
                },
        decreases 8 - o,
    {
        proof {
            assert forall|n: OctreeNode|
                #[trigger] record_at(buf@, pos as nat, n, level as nat, x as nat, y as nat, z as nat)
                    implies (has_octant(mask, o) <==> slot_filled(n, o as int)) by {
                lemma_mask_bits(n, 8);
            }
        }
        if (mask >> o) & 1 == 1 {
            if j >= k || cur >= len || cur <= pos {
            proof {
                assert forall|n: OctreeNode| !#[trigger] record_at(buf@, pos as nat, n, level as nat, x as nat, y as nat, z as nat) by {
                    if record_at(buf@, pos as nat, n, level as nat, x as nat, y as nat, z as nat) {
                        lemma_record_header(buf@, pos as nat, n);
                        lemma_mask_bits(n, 8);
                        lemma_child_record(buf@, pos as nat, n, start as nat, cur as nat, o);
                        let c = n.children@[o as int]->Some_0;
                        lemma_flat_nonempty(c, cur as nat);
                        assert(filled_from(n, o as nat) == filled_from(n, o as nat + 1) + 1);
                    }
                }
            }
                return None;
            }
            let off = buf[pos + 3 + j];
            if off != cur as u64 {
            proof {
                assert forall|n: OctreeNode| !#[trigger] record_at(buf@, pos as nat, n, level as nat, x as nat, y as nat, z as nat) by {
                    if record_at(buf@, pos as nat, n, level as nat, x as nat, y as nat, z as nat) {
                        lemma_record_header(buf@, pos as nat, n);
                        lemma_mask_bits(n, 8);
                        let c = n.children@[o as int]->Some_0;
                        assert(child_offsets(n, o as nat, cur as nat)[0] == cur as u64);
                        assert(buf@.subrange(pos + 3 + j, start as int)[0] == buf@[pos + 3 + j]);
                    }
                }
            }
                return None;
            }
            let bx: u32 = if o & 4 != 0 { 1 } else { 0 };
            let by: u32 = if o & 2 != 0 { 1 } else { 0 };
            let bz: u32 = if o & 1 != 0 { 1 } else { 0 };
            let cx = 2 * x + bx;
            let cy = 2 * y + by;
            let cz = 2 * z + bz;
            let res = parse_node(buf, cur, level + 1, cx, cy, cz);
            match res {
                None => {
                    proof {
                        assert forall|n: OctreeNode|
                            !#[trigger] record_at(buf@, pos as nat, n, level as nat, x as nat, y as nat, z as nat) by {
                            if record_at(buf@, pos as nat, n, level as nat, x as nat, y as nat, z as nat) {
                                let c = n.children@[o as int]->Some_0;
                                lemma_child_record(buf@, pos as nat, n, start as nat, cur as nat, o);
                                assert(record_at(buf@, cur as nat, c, (level + 1) as nat, cx as nat, cy as nat, cz as nat));
                            }
                        }
                    }
                    return None;
                },
                Some((child, end)) => {
                    let ghost old_children = children@;
                    let ghost old_cur = cur;
                    let ghost old_j = j;
                    children.push(Some(child));
                    proof {
                        assert forall|n: OctreeNode|
                            #[trigger] record_at(buf@, pos as nat, n, level as nat, x as nat, y as nat, z as nat)
                                implies {
                                &&& start <= end
                                &&& end <= pos + flat(n, pos as nat).len()
                                &&& buf@.subrange(start as int, end as int) + child_records(n, o as nat + 1, end as nat)
                                    == child_records(n, 0, start as nat)
                                &&& child_offsets(n, o as nat + 1, end as nat) == buf@.subrange(
                                    pos + 3 + old_j + 1,
                                    start as int,
                                )
                                &&& old_j + 1 + filled_from(n, o as nat + 1) == k
                                &&& forall|q: int|
                                    0 <= q < o + 1 ==> match #[trigger] n.children@[q] {
                                        None => children@[q] is None,
                                        Some(c) => children@[q] is Some && agrees(children@[q]->Some_0, c),
                                    }
                            } by {
                            let c = n.children@[o as int]->Some_0;
                            lemma_child_record(buf@, pos as nat, n, start as nat, old_cur as nat, o);
                            assert(record_at(buf@, old_cur as nat, c, (level + 1) as nat, cx as nat, cy as nat, cz as nat));
                            let fc = flat(c, old_cur as nat);
                            assert(end == old_cur + fc.len());
                            let rest = child_records(n, o as nat + 1, end as nat);
                            assert(child_records(n, o as nat, old_cur as nat) == fc + rest);
                            assert(buf@.subrange(start as int, end as int) =~= buf@.subrange(start as int, old_cur as int) + fc) by {
                                assert(buf@.subrange(old_cur as int, end as int) == fc);
                            }
                            assert(buf@.subrange(start as int, end as int) + rest =~= buf@.subrange(start as int, old_cur as int) + (fc + rest));
                            assert(child_offsets(n, o as nat, old_cur as nat) == seq![old_cur as u64] + child_offsets(n, o as nat + 1, end as nat));
                            assert(child_offsets(n, o as nat + 1, end as nat) =~= buf@.subrange(pos + 3 + old_j, start as int).subrange(1, (start - pos - 3 - old_j) as int));
                            assert(buf@.subrange(pos + 3 + old_j, start as int).subrange(1, (start - pos - 3 - old_j) as int) =~= buf@.subrange(pos + 3 + old_j + 1, start as int));
                            assert(filled_from(n, o as nat) == filled_from(n, o as nat + 1) + 1);
                            lemma_records_fit(n, 0, start as nat, o as nat + 1, end as nat, buf@.subrange(start as int, end as int));
                            assert forall|q: int| 0 <= q < o + 1 implies match #[trigger] n.children@[q] {
                                None => children@[q] is None,
                                Some(c) => children@[q] is Some && agrees(children@[q]->Some_0, c),
                            } by {
                                if q < o {
                                    assert(children@[q] == old_children[q]);
                                }
                            }
                        }
                    }
                    cur = end;
                    j = j + 1;
                },
            }
        } else {
            let ghost old_children = children@;
            children.push(None);
            proof {
                assert forall|n: OctreeNode|
                    #[trigger] record_at(buf@, pos as nat, n, level as nat, x as nat, y as nat, z as nat)
                        implies {
                        &&& j + filled_from(n, o as nat + 1) == k
                        &&& buf@.subrange(start as int, cur as int) + child_records(n, o as nat + 1, cur as nat)
                            == child_records(n, 0, start as nat)
                        &&& child_offsets(n, o as nat + 1, cur as nat) == buf@.subrange(pos + 3 + j, start as int)
                        &&& forall|q: int|
                            0 <= q < o + 1 ==> match #[trigger] n.children@[q] {
                                None => children@[q] is None,
                                Some(c) => children@[q] is Some && agrees(children@[q]->Some_0, c),
                            }
                    } by {
                    assert(n.children@[o as int] is None);
                    assert forall|q: int| 0 <= q < o + 1 implies match #[trigger] n.children@[q] {
                        None => children@[q] is None,
                        Some(c) => children@[q] is Some && agrees(children@[q]->Some_0, c),
                    } by {
                        if q < o {
                            assert(children@[q] == old_children[q]);
                        }
                    }
                }
            }
        }
        o = o + 1;
    }
    let node = OctreeNode { level, x, y, z, triangles: Vec::new(), children };
    proof {
        assert forall|n: OctreeNode|
            #[trigger] record_at(buf@, pos as nat, n, level as nat, x as nat, y as nat, z as nat)
                implies cur == pos + flat(n, pos as nat).len() && agrees(node, n) by {
            assert(child_records(n, 8, cur as nat) == Seq::<u64>::empty());
            assert(buf@.subrange(start as int, cur as int) =~= buf@.subrange(start as int, cur as int) + child_records(n, 8, cur as nat));
            assert(buf@.subrange(start as int, pos + flat(n, pos as nat).len()).len() == buf@.subrange(start as int, cur as int).len());
            assert forall|i: int| 0 <= i < n.children@.len() implies match #[trigger] n.children@[i] {
                None => node.children@[i] is None,
                Some(c) => node.children@[i] is Some && agrees(node.children@[i]->Some_0, c),
            } by {
                assert(node.children@[i] == children@[i]);
            }
        }
    }
    Some((node, cur))
}

/// Inside a readable record, the child in filled slot `o` has its own record
/// where the children's records reached so far end.
proof fn lemma_child_record(buf: Seq<u64>, pos: nat, n: OctreeNode, start: nat, cur: nat, o: u8)
    requires
        o < 8,
        n.children@.len() == 8,
        shape_ok(n),
        slot_filled(n, o as int),
        start <= cur,
        cur <= pos + flat(n, pos).len(),
        buf.subrange(start as int, (pos + flat(n, pos).len()) as int) == child_records(n, 0, start),
        buf.subrange(start as int, cur as int) + child_records(n, o as nat, cur) == child_records(n, 0, start),
        pos + flat(n, pos).len() <= buf.len(),
    ensures
        ({
            let c = n.children@[o as int]->Some_0;
            &&& shape_ok(c)
            &&& c.level == n.level + 1
            &&& c.x == child_coord(n.x as nat, o & 4 != 0)
            &&& c.y == child_coord(n.y as nat, o & 2 != 0)
            &&& c.z == child_coord(n.z as nat, o & 1 != 0)
            &&& cur + flat(c, cur).len() <= buf.len()
            &&& buf.subrange(cur as int, (cur + flat(c, cur).len()) as int) == flat(c, cur)
        }),
{
    let c = n.children@[o as int]->Some_0;
    let fc = flat(c, cur);
    let all = child_records(n, 0, start);
    let done = buf.subrange(start as int, cur as int);
    assert(child_records(n, o as nat, cur) == fc + child_records(n, o as nat + 1, cur + fc.len()));
    assert(all.len() == (pos + flat(n, pos).len()) - start);
    assert forall|i: int| 0 <= i < fc.len() implies buf.subrange(cur as int, (cur + fc.len()) as int)[i] == fc[i] by {
        assert(all[done.len() + i] == fc[i]);
        assert(buf.subrange(start as int, (pos + flat(n, pos).len()) as int)[cur - start + i] == buf[cur + i]);
    }
    assert(buf.subrange(cur as int, (cur + fc.len()) as int) =~= fc);
}

/// What the first words of a readable record say about its node.
proof fn lemma_record_header(buf: Seq<u64>, pos: nat, n: OctreeNode)
    requires
        shape_ok(n),
        pos + flat(n, pos).len() <= buf.len(),
        buf.subrange(pos as int, pos + flat(n, pos).len() as int) == flat(n, pos),
    ensures
        n.children@.len() == 0 ==> {
            &&& buf[pos as int] == LEAF_TAG
            &&& buf[pos + 1 as int] == n.triangles@.len() as u64
            &&& flat(n, pos).len() == 2 + n.triangles@.len()
        },
        n.children@.len() != 0 ==> {
            &&& n.children@.len() == 8
            &&& buf[pos as int] == INTERNAL_TAG
            &&& buf[pos + 2 as int] == child_mask(n) as u64
            &&& n.level < 32 && n.x < COORD_LIMIT && n.y < COORD_LIMIT && n.z < COORD_LIMIT
            &&& flat(n, pos).len() >= 3 + filled_from(n, 0)
        },
{
    let f = flat(n, pos);
    assert(buf[pos as int] == f[0]);
    assert(f.len() >= 2);
    assert(buf[pos + 1 as int] == f[1]);
    if n.children@.len() != 0 {
        assert(buf[pos + 2 as int] == f[2]);
        lemma_offsets_len(n, 0, (pos + 3 + filled_from(n, 0)) as nat);
    }
}

/// Every record has at least its tag and count.
proof fn lemma_flat_nonempty(n: OctreeNode, pos: nat)
    ensures
        flat(n, pos).len() >= 2,
{
}

/// The records reached so far never run past the node's own record.
proof fn lemma_records_fit(n: OctreeNode, o0: nat, start: nat, o: nat, cur: nat, done: Seq<u64>)
    requires
        done.len() == cur - start,
        start <= cur,
        done + child_records(n, o, cur) == child_records(n, o0, start),
    ensures
        cur <= start + child_records(n, o0, start).len(),
{
}

/// A built tree can be read back: its shape is the one `parse` reads.
pub proof fn lemma_built_shape_ok(
    n: OctreeNode,
    boxes: Seq<Aabb>,
    tris: Seq<usize>,
    level: nat,
    x: nat,
    y: nat,
    z: nat,
    max_depth: nat,
    leaf_capacity: nat,
)
    requires
        built_from(n, boxes, tris, level, x, y, z, max_depth, leaf_capacity),
        max_depth <= 32,
        coord_in_grid(x, level),
        coord_in_grid(y, level),
        coord_in_grid(z, level),
    ensures
        shape_ok(n),
    decreases n,
{
    if n.children@.len() != 0 {
        assert(level < max_depth);
        lemma_cell_size_halves(level);
        let s = cell_size(level);
        assert(x < 0x8000_0000 && y < 0x8000_0000 && z < 0x8000_0000) by (nonlinear_arith)
            requires
                (x + 1) * s <= 4294967296,
                (y + 1) * s <= 4294967296,
                (z + 1) * s <= 4294967296,
                s >= 2,
        ;
        let center = node_center(level, x, y, z);
        assert forall|o: u8| o < n.children@.len() implies match #[trigger] n.children@[o as int] {
            None => true,
            Some(c) => {
                &&& c.level == n.level + 1
                &&& c.x == child_coord(n.x as nat, o & 4 != 0)
                &&& c.y == child_coord(n.y as nat, o & 2 != 0)
                &&& c.z == child_coord(n.z as nat, o & 1 != 0)
                &&& shape_ok(c)
            },
        } by {
            assert(o < 8);
            if let Some(c) = n.children@[o as int] {
                crate::geometry::lemma_child_cell(x, level, if o & 4 != 0 { 1 } else { 0 });
                crate::geometry::lemma_child_cell(y, level, if o & 2 != 0 { 1 } else { 0 });
                crate::geometry::lemma_child_cell(z, level, if o & 1 != 0 { 1 } else { 0 });
                lemma_built_shape_ok(
                    c,
                    boxes,
                    assigned(boxes, tris, center, o),
                    level + 1,
                    child_coord(x, o & 4 != 0),
                    child_coord(y, o & 2 != 0),
                    child_coord(z, o & 1 != 0),
                    max_depth,
                    leaf_capacity,
                );
            }
        }
    }
}

/// Round trip: reading back the flat buffer of a built tree gives a tree with
/// the same nodes, the same slots and the same leaf lists. `r` is any result
/// that the contract of `parse` allows on that buffer.
pub proof fn lemma_round_trip(t: Octree, boxes: Seq<Aabb>, r: Option<OctreeNode>)
    requires
        is_build_of(t, boxes, t.max_depth as nat, t.leaf_capacity as nat),
        forall|n: OctreeNode|
            shape_ok(n) && n.level == 0 && n.x == 0 && n.y == 0 && n.z == 0 && flat_tree(t) == flat(n, 0)
                ==> #[trigger] agrees_some(r, n),
    ensures
        agrees_some(r, t.root),
{
    lemma_root_cell();
    lemma_built_shape_ok(t.root, boxes, all_indices(boxes.len()), 0, 0, 0, 0, t.max_depth as nat, t.leaf_capacity as nat);
    assert(agrees_some(r, t.root));
}

} // verus!
