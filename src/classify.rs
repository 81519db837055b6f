//! Octant classification: which of a node's eight children a box reaches.
//!
//! An octant code is three bits: bit 2 is the x half, bit 1 the y half, bit 0 the
//! z half (1 = high side). A mask has bit `o` set when the box reaches octant `o`.
use vstd::prelude::*;
use crate::geometry::{Aabb, Point3};

verus! {

/// Octants on the low x side (codes 0..3).
pub const X_LOW: u8 = 0x0F;
/// Octants on the high x side (codes 4..7).
pub const X_HIGH: u8 = 0xF0;
/// Octants on the low y side (codes 0, 1, 4, 5).
pub const Y_LOW: u8 = 0x33;
/// Octants on the high y side (codes 2, 3, 6, 7).
pub const Y_HIGH: u8 = 0xCC;
/// Octants on the low z side (even codes).
pub const Z_LOW: u8 = 0x55;
/// Octants on the high z side (odd codes).
pub const Z_HIGH: u8 = 0xAA;
/// Every octant.
pub const ALL_OCTANTS: u8 = 0xFF;

/// Whether a box spanning [lo, hi] on one axis may go to the given half of a
/// node split at `c`: wholly below keeps the low half, wholly above the high
/// half, and a box touching or crossing the plane keeps both.
pub open spec fn axis_admits(lo: int, hi: int, c: int, high: bool) -> bool {
    if hi < c {
        !high
    } else if lo > c {
        high
    } else {
        true
    }
}

/// The box reaches octant `o` of the node centered at `c`.
pub open spec fn octant_hit(c: Point3, b: Aabb, o: u8) -> bool {
    &&& axis_admits(b.min_x as int, b.max_x as int, c.x as int, o & 4 != 0)
    &&& axis_admits(b.min_y as int, b.max_y as int, c.y as int, o & 2 != 0)
    &&& axis_admits(b.min_z as int, b.max_z as int, c.z as int, o & 1 != 0)
}

/// Bit `o` of `mask` is set.
pub open spec fn has_octant(mask: u8, o: u8) -> bool {
    (mask >> o) & 1 == 1
}

/// Number of set bits among the lowest `n` bits of `mask`.
pub open spec fn bits_below(mask: u8, n: nat) -> nat
    decreases n,
{
    if n == 0 {
        0
    } else {
        bits_below(mask, (n - 1) as nat) + if has_octant(mask, (n - 1) as u8) {
            1nat
        } else {
            0nat
        }
    }
}

/// Number of set bits of `mask`.
pub open spec fn bit_count(mask: u8) -> nat {
    bits_below(mask, 8)
}

/// The octant mask of the box for the node centered at `c`.
pub open spec fn mask_matches(mask: u8, c: Point3, b: Aabb) -> bool {
    forall|o: u8| o < 8 ==> (#[trigger] has_octant(mask, o) <==> octant_hit(c, b, o))
}

/// The halves one axis allows, as a mask: `low` when the box lies below `c`,
/// `high` when above, every octant when it touches or crosses `c`.
fn axis_mask(lo: i64, hi: i64, c: i64, low: u8, high: u8) -> (r: u8)
    ensures
        r == if hi < c {
            low
        } else if lo > c {
            high
        } else {
            ALL_OCTANTS
        },
{
    if hi < c {
        low
    } else if lo > c {
        high
    } else {
        ALL_OCTANTS
    }
}

/// Counts the set bits of `mask`.
pub(crate) fn count_bits(mask: u8) -> (r: u8)
    ensures
        r as nat == bit_count(mask),
{
    let mut n: u8 = 0;
    let mut i: u8 = 0;
    while i < 8
        invariant
            i <= 8,
            n as nat == bits_below(mask, i as nat),
            n <= i,
        decreases 8 - i,
    {
        if (mask >> i) & 1 == 1 {
            n = n + 1;
        }
        i = i + 1;
    }
    n
}

/// Classifies a box against the node centered at `center`: returns the fan-out
/// (number of octants reached) and the octant mask.
pub fn get_overlap(center: Point3, aabb: &Aabb) -> (r: (u8, u8))
    ensures
        mask_matches(r.1, center, *aabb),
        r.0 as nat == bit_count(r.1),
{
    let mx = axis_mask(aabb.min_x, aabb.max_x, center.x, X_LOW, X_HIGH);
    let my = axis_mask(aabb.min_y, aabb.max_y, center.y, Y_LOW, Y_HIGH);
    let mz = axis_mask(aabb.min_z, aabb.max_z, center.z, Z_LOW, Z_HIGH);
    let mask = ALL_OCTANTS & mx & my & mz;
    proof {
        assert forall|o: u8| o < 8 implies (#[trigger] has_octant(mask, o) <==> octant_hit(
            center,
            *aabb,
            o,
        )) by {
            assert(((0xFFu8 & mx & my & mz) >> o) & 1 == 1 <==> (((mx >> o) & 1 == 1) && ((my
                >> o) & 1 == 1) && ((mz >> o) & 1 == 1))) by (bit_vector);
            assert(o < 8 ==> ((0xFFu8 >> o) & 1 == 1)) by (bit_vector);
            assert(o < 8 ==> (((0x0Fu8 >> o) & 1 == 1) <==> (o & 4 == 0))) by (bit_vector);
            assert(o < 8 ==> (((0xF0u8 >> o) & 1 == 1) <==> (o & 4 != 0))) by (bit_vector);
            assert(o < 8 ==> (((0x33u8 >> o) & 1 == 1) <==> (o & 2 == 0))) by (bit_vector);
            assert(o < 8 ==> (((0xCCu8 >> o) & 1 == 1) <==> (o & 2 != 0))) by (bit_vector);
            assert(o < 8 ==> (((0x55u8 >> o) & 1 == 1) <==> (o & 1 == 0))) by (bit_vector);
            assert(o < 8 ==> (((0xAAu8 >> o) & 1 == 1) <==> (o & 1 != 0))) by (bit_vector);
        }
    }
    let count = count_bits(mask);
    (count, mask)
}

/// A box whose bounds on one axis both equal the node's center on that axis is
/// sent to both halves on that axis: flipping that axis's bit of an octant code
/// does not change whether the box reaches it.
pub proof fn lemma_boundary_box_reaches_both_halves(c: Point3, b: Aabb, o: u8)
    requires
        o < 8,
    ensures
        b.min_x == c.x && b.max_x == c.x ==> (octant_hit(c, b, o) <==> octant_hit(c, b, o ^ 4)),
        b.min_y == c.y && b.max_y == c.y ==> (octant_hit(c, b, o) <==> octant_hit(c, b, o ^ 2)),
        b.min_z == c.z && b.max_z == c.z ==> (octant_hit(c, b, o) <==> octant_hit(c, b, o ^ 1)),
{
    assert((o ^ 4) & 2 == o & 2 && (o ^ 4) & 1 == o & 1) by (bit_vector);
    assert((o ^ 2) & 4 == o & 4 && (o ^ 2) & 1 == o & 1) by (bit_vector);
    assert((o ^ 1) & 4 == o & 4 && (o ^ 1) & 2 == o & 2) by (bit_vector);
}

} // verus!
