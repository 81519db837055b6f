use rust_wasm_octree::aabb_set::{AabbSet, BuildError};
use rust_wasm_octree::classify::get_overlap;
use rust_wasm_octree::create_octree;
use rust_wasm_octree::decode::parse;
use rust_wasm_octree::flatten::{flatten, INTERNAL_TAG, LEAF_TAG};
use rust_wasm_octree::geometry::{Aabb, Point3, HALF_EXTENT};
use rust_wasm_octree::octree::{build, OctreeNode};

const H: i64 = HALF_EXTENT;

fn whole_domain() -> Vec<i64> {
    vec![-H, H, -H, H, -H, H]
}

// -0.4 and -0.1 of the unit domain, in units of 2^-32 (rounded to nearest).
const MINUS_0_4: i64 = -1717986918;
const MINUS_0_1: i64 = -429496730;

fn low_corner_box() -> Vec<i64> {
    vec![MINUS_0_4, MINUS_0_1, MINUS_0_4, MINUS_0_1, MINUS_0_4, MINUS_0_1]
}

#[test]
fn whole_domain_triangle_reaches_all_eight_children() {
    let buf = create_octree(&whole_domain(), 1, 0).unwrap();
    let mut expected: Vec<u64> = vec![INTERNAL_TAG, 1, 0xFF];
    for j in 0..8u64 {
        expected.push(11 + 3 * j);
    }
    for _ in 0..8 {
        expected.extend_from_slice(&[LEAF_TAG, 1, 0]);
    }
    assert_eq!(buf, expected);
}

#[test]
fn whole_domain_triangle_is_in_every_child_leaf() {
    let set = AabbSet::from_flat(&whole_domain()).unwrap();
    let tree = build(&set, 1, 0);
    assert_eq!(tree.root.children.len(), 8);
    for slot in &tree.root.children {
        let child = slot.as_ref().unwrap();
        assert_eq!(child.level, 1);
        assert_eq!(child.triangles, vec![0usize]);
        assert!(child.children.is_empty());
    }
    let (count, mask) = get_overlap(Point3 { x: 0, y: 0, z: 0 }, &set.get(0));
    assert_eq!((count, mask), (8, 0b1111_1111));
}

#[test]
fn low_corner_triangle_reaches_exactly_one_child() {
    let values = low_corner_box();
    let set = AabbSet::from_flat(&values).unwrap();
    let (count, mask) = get_overlap(Point3 { x: 0, y: 0, z: 0 }, &set.get(0));
    assert_eq!((count, mask), (1, 0b0000_0001));
    let tree = build(&set, 1, 0);
    let present: Vec<usize> = (0..8).filter(|&o| tree.root.children[o].is_some()).collect();
    assert_eq!(present, vec![0]);
    let child = tree.root.children[0].as_ref().unwrap();
    assert_eq!((child.x, child.y, child.z), (0, 0, 0));
    assert_eq!(child.triangles, vec![0usize]);
    let buf = create_octree(&values, 1, 0).unwrap();
    assert_eq!(buf, vec![INTERNAL_TAG, 1, 1, 4, LEAF_TAG, 1, 0]);
}

#[test]
fn box_on_the_center_plane_goes_to_both_halves() {
    // Flat on x = 0, below the center on y and z: octants 0 (low x) and 4 (high x).
    let b = Aabb { min_x: 0, max_x: 0, min_y: -10, max_y: -5, min_z: -10, max_z: -5 };
    let (count, mask) = get_overlap(Point3 { x: 0, y: 0, z: 0 }, &b);
    assert_eq!((count, mask), (2, 0b0001_0001));
    // Flat on z = center, above on x and y: octants 6 and 7.
    let b = Aabb { min_x: 5, max_x: 9, min_y: 5, max_y: 9, min_z: 3, max_z: 3 };
    let (count, mask) = get_overlap(Point3 { x: 0, y: 0, z: 3 }, &b);
    assert_eq!((count, mask), (2, 0b1100_0000));
}

#[test]
fn octant_bits_follow_x_y_z_halves() {
    let c = Point3 { x: 0, y: 0, z: 0 };
    // High x only, low y, low z: octant 4.
    let b = Aabb { min_x: 1, max_x: 2, min_y: -2, max_y: -1, min_z: -2, max_z: -1 };
    assert_eq!(get_overlap(c, &b), (1, 0b0001_0000));
    // Low x, high y, low z: octant 2.
    let b = Aabb { min_x: -2, max_x: -1, min_y: 1, max_y: 2, min_z: -2, max_z: -1 };
    assert_eq!(get_overlap(c, &b), (1, 0b0000_0100));
    // Low x, low y, high z: octant 1.
    let b = Aabb { min_x: -2, max_x: -1, min_y: -2, max_y: -1, min_z: 1, max_z: 2 };
    assert_eq!(get_overlap(c, &b), (1, 0b0000_0010));
    // Crossing y only, high x, high z: octants 5 and 7.
    let b = Aabb { min_x: 1, max_x: 2, min_y: -1, max_y: 1, min_z: 1, max_z: 2 };
    assert_eq!(get_overlap(c, &b), (2, 0b1010_0000));
}

#[test]
fn length_not_a_multiple_of_six_is_invalid_input() {
    let values: Vec<i64> = vec![0, 1, 2, 3, 4];
    assert_eq!(create_octree(&values, 8, 16), Err(BuildError::InvalidInput));
    assert!(matches!(AabbSet::from_flat(&values), Err(BuildError::InvalidInput)));
}

#[test]
fn boxes_all_outside_the_domain_are_degenerate() {
    let values: Vec<i64> = vec![H + 1, H + 5, 0, 1, 0, 1, -H - 9, -H - 2, 0, 1, 0, 1];
    assert_eq!(create_octree(&values, 8, 16), Err(BuildError::DegenerateDomain));
}

#[test]
fn one_box_inside_keeps_the_others() {
    let mut values: Vec<i64> = vec![H + 1, H + 5, 0, 1, 0, 1];
    values.extend_from_slice(&low_corner_box());
    let set = AabbSet::from_flat(&values).unwrap();
    assert_eq!(set.len(), 2);
    let buf = create_octree(&values, 8, 16).unwrap();
    assert_eq!(buf, vec![LEAF_TAG, 2, 0, 1]);
}

#[test]
fn box_touching_the_domain_edge_is_inside() {
    let values: Vec<i64> = vec![H, H + 4, 0, 1, 0, 1];
    assert!(create_octree(&values, 8, 16).is_ok());
}

#[test]
fn empty_input_is_a_single_empty_leaf() {
    let values: Vec<i64> = Vec::new();
    assert_eq!(create_octree(&values, 8, 16), Ok(vec![LEAF_TAG, 0]));
}

#[test]
fn node_at_capacity_stays_a_leaf() {
    let mut values = whole_domain();
    values.extend_from_slice(&low_corner_box());
    assert_eq!(create_octree(&values, 8, 2), Ok(vec![LEAF_TAG, 2, 0, 1]));
    // One over capacity subdivides.
    let buf = create_octree(&values, 1, 1).unwrap();
    assert_eq!(&buf[0..3], &[INTERNAL_TAG, 2, 0xFF]);
    assert_eq!(buf[3], 11);
    assert_eq!(&buf[11..15], &[LEAF_TAG, 2, 0, 1]);
}

#[test]
fn zero_depth_keeps_everything_at_the_root() {
    let mut values = whole_domain();
    values.extend_from_slice(&low_corner_box());
    assert_eq!(create_octree(&values, 0, 0), Ok(vec![LEAF_TAG, 2, 0, 1]));
}

#[test]
fn second_level_splits_at_the_quarter_planes() {
    // A box in (-0.5, -0.25) on every axis, away from the -0.25 planes.
    let lo = -H + 10;
    let hi = -H / 2 - 10;
    let values: Vec<i64> = vec![lo, hi, lo, hi, lo, hi];
    let set = AabbSet::from_flat(&values).unwrap();
    let tree = build(&set, 2, 0);
    let child = tree.root.children[0].as_ref().unwrap();
    let grandchild = child.children[0].as_ref().unwrap();
    assert_eq!((grandchild.level, grandchild.x, grandchild.y, grandchild.z), (2, 0, 0, 0));
    assert_eq!(grandchild.triangles, vec![0usize]);
    assert_eq!(child.children.iter().filter(|c| c.is_some()).count(), 1);
    // Exactly on the -0.25 plane: both quarter cells on that axis.
    let values: Vec<i64> = vec![-H / 2, -H / 2, lo, hi, lo, hi];
    let set = AabbSet::from_flat(&values).unwrap();
    let tree = build(&set, 2, 0);
    let child = tree.root.children[0].as_ref().unwrap();
    assert!(child.children[0].is_some());
    assert!(child.children[4].is_some());
    assert_eq!(child.children.iter().filter(|c| c.is_some()).count(), 2);
}

#[test]
fn leaves_hold_exactly_the_meeting_triangles() {
    // Triangle 0 in the low corner, triangle 1 in the high corner, triangle 2 everywhere.
    let mut values = low_corner_box();
    values.extend_from_slice(&[H / 4, H / 2, H / 4, H / 2, H / 4, H / 2]);
    values.extend_from_slice(&whole_domain());
    let set = AabbSet::from_flat(&values).unwrap();
    let tree = build(&set, 1, 0);
    for (o, slot) in tree.root.children.iter().enumerate() {
        let leaf = slot.as_ref().unwrap();
        let expected: Vec<usize> = match o {
            0 => vec![0, 2],
            7 => vec![1, 2],
            _ => vec![2],
        };
        assert_eq!(leaf.triangles, expected);
    }
}

#[test]
fn building_twice_gives_the_same_buffer() {
    let mut values = low_corner_box();
    values.extend_from_slice(&whole_domain());
    values.extend_from_slice(&[0, 0, 0, 0, 0, 0]);
    let a = create_octree(&values, 3, 1).unwrap();
    let b = create_octree(&values, 3, 1).unwrap();
    assert_eq!(a, b);
    let set = AabbSet::from_flat(&values).unwrap();
    assert_eq!(flatten(&build(&set, 3, 1)), a);
}

#[test]
fn boxes_are_read_six_bounds_at_a_time() {
    let values: Vec<i64> = vec![1, 2, 3, 4, 5, 6, 7, 8, 9, 10, 11, 12];
    let set = AabbSet::from_flat(&values).unwrap();
    assert_eq!(set.len(), 2);
    assert_eq!(
        set.get(1),
        Aabb { min_x: 7, max_x: 8, min_y: 9, max_y: 10, min_z: 11, max_z: 12 }
    );
    assert_eq!(set.boxes().len(), 2);
}

#[test]
fn add_sums() {
    assert_eq!(rust_wasm_octree::add(2, 3), 5);
    assert_eq!(rust_wasm_octree::add(-7, 3), -4);
}

fn same_nodes(p: &OctreeNode, n: &OctreeNode) -> bool {
    if (p.level, p.x, p.y, p.z) != (n.level, n.x, n.y, n.z) || p.children.len() != n.children.len() {
        return false;
    }
    if n.children.is_empty() {
        return p.triangles == n.triangles;
    }
    p.children.iter().zip(n.children.iter()).all(|(a, b)| match (a, b) {
        (None, None) => true,
        (Some(a), Some(b)) => same_nodes(a, b),
        _ => false,
    })
}

#[test]
fn reading_back_the_buffer_gives_the_same_tree() {
    let mut values = low_corner_box();
    values.extend_from_slice(&whole_domain());
    values.extend_from_slice(&[H / 4, H / 2, -H / 2, H / 8, 0, 0]);
    values.extend_from_slice(&[0, 0, 0, 0, 0, 0]);
    let set = AabbSet::from_flat(&values).unwrap();
    let tree = build(&set, 3, 1);
    let buf = flatten(&tree);
    let back = parse(&buf).unwrap();
    assert!(same_nodes(&back, &tree.root));
    assert_eq!(flatten(&build(&set, 3, 1)), buf);
}

#[test]
fn reading_back_a_single_leaf() {
    let back = parse(&vec![LEAF_TAG, 3, 4, 5, 6]).unwrap();
    assert_eq!(back.triangles, vec![4usize, 5, 6]);
    assert!(back.children.is_empty());
    assert_eq!((back.level, back.x, back.y, back.z), (0, 0, 0, 0));
}

#[test]
fn reading_back_rejects_broken_buffers() {
    // Trailing word.
    assert!(parse(&vec![LEAF_TAG, 1, 0, 9]).is_none());
    // Count past the end.
    assert!(parse(&vec![LEAF_TAG, 4, 0]).is_none());
    // Unknown tag.
    assert!(parse(&vec![7, 0]).is_none());
    // Offset that does not point at the child's record.
    assert!(parse(&vec![INTERNAL_TAG, 1, 1, 5, LEAF_TAG, 1, 0]).is_none());
    // The same with the right offset reads back.
    let back = parse(&vec![INTERNAL_TAG, 1, 1, 4, LEAF_TAG, 1, 0]).unwrap();
    assert_eq!(back.children.len(), 8);
    assert_eq!(back.children[0].as_ref().unwrap().triangles, vec![0usize]);
}
