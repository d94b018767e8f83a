use octree_bitmap::Index;
use octree_bitmap::Node;
use octree_bitmap::OctreeBitmap;
use octree_bitmap::OctreeError;

/// The number of nodes of the tree below and including `node`.
fn count_nodes(node: &Node) -> usize {
    match node {
        Node::Branch(children) => 1 + children.iter().map(count_nodes).sum::<usize>(),
        _ => 1,
    }
}

/// Whether no branch below and including `node` has eight children that are
/// the same terminal, and no branch stands at height 0.
fn is_compressed(node: &Node, height: u32) -> bool {
    match node {
        Node::Branch(children) => {
            height > 0
                && !children.iter().all(|c| *c == Node::Empty)
                && !children.iter().all(|c| *c == Node::Full)
                && children.iter().all(|c| is_compressed(c, height - 1))
        }
        _ => true,
    }
}

/// A copy of the tree below and including `node`.
fn copy_of(node: &Node) -> Node {
    match node {
        Node::Empty => Node::Empty,
        Node::Full => Node::Full,
        Node::Branch(c) => Node::Branch(Box::new([
            copy_of(&c[0]),
            copy_of(&c[1]),
            copy_of(&c[2]),
            copy_of(&c[3]),
            copy_of(&c[4]),
            copy_of(&c[5]),
            copy_of(&c[6]),
            copy_of(&c[7]),
        ])),
    }
}

/// A small generator of numbers that looks random and is the same on every
/// run.
fn next(state: &mut u64) -> u32 {
    *state = state.wrapping_mul(6364136223846793005).wrapping_add(1442695040888963407);
    (*state >> 33) as u32
}

#[test]
fn it_works() {
    let mut octree = OctreeBitmap::new(5);
    assert!(octree.width() >= 5);

    let a = Index::new(1, 2, 3);
    let b = Index::new(0, 3, 4);

    octree.set(&a, true);
    assert!(octree.get(&a));
    assert!(!octree.get(&b));

    octree.set(&b, true);
    assert!(octree.get(&a));
    assert!(octree.get(&b));

    octree.set(&a, false);
    assert!(!octree.get(&a));
    assert!(octree.get(&b));

    octree.set(&b, false);
    assert!(!octree.get(&a));
    assert!(!octree.get(&a));
}

#[test]
fn concrete_scenario() {
    let mut octree = OctreeBitmap::new(5);
    assert_eq!(octree.width(), 8);
    assert_eq!(octree.height(), 3);
    assert_eq!(count_nodes(octree.root()), 1);

    let a = Index::new(1, 2, 3);
    let b = Index::new(0, 3, 4);

    assert!(octree.insert(&a));
    assert!(octree.contains(&a));
    assert!(!octree.contains(&b));

    assert!(octree.insert(&b));
    assert!(octree.contains(&a));
    assert!(octree.contains(&b));

    assert!(octree.remove(&a));
    assert!(!octree.contains(&a));
    assert!(octree.contains(&b));

    assert!(octree.remove(&b));
    assert!(!octree.contains(&a));
    assert!(!octree.contains(&b));
    assert_eq!(*octree.root(), Node::Empty);
    assert_eq!(count_nodes(octree.root()), 1);
}

#[test]
fn one_point_makes_one_branch_per_level() {
    let mut octree = OctreeBitmap::new(8);
    octree.set(&Index::new(1, 2, 3), true);
    // Three branches, each with seven terminal children, and the leaf.
    assert_eq!(count_nodes(octree.root()), 3 * 8 + 1);
    assert!(is_compressed(octree.root(), octree.height()));
}

#[test]
fn the_child_of_a_point_is_numbered_by_its_bits() {
    let mut octree = OctreeBitmap::new(2);
    // x = 1, y = 0, z = 1: child 4 * 1 + 2 * 0 + 1.
    octree.set(&Index::new(1, 0, 1), true);
    match octree.root() {
        Node::Branch(children) => {
            for i in 0..8 {
                let expected = if i == 5 { Node::Full } else { Node::Empty };
                assert_eq!(children[i], expected);
            }
        }
        _ => panic!("the root must have been split"),
    }
}

#[test]
fn round_trip_against_a_dense_bitmap() {
    let width = 8u32;
    let mut octree = OctreeBitmap::new(width);
    let mut dense = vec![false; (width * width * width) as usize];
    let mut state = 7u64;
    for _ in 0..3000 {
        let x = next(&mut state) % width;
        let y = next(&mut state) % width;
        let z = next(&mut state) % width;
        let value = next(&mut state) % 3 != 0;
        let at = ((z * width + y) * width + x) as usize;
        let changed = octree.set(&Index::new(x, y, z), value);
        assert_eq!(changed, dense[at] != value);
        dense[at] = value;
        assert_eq!(octree.get(&Index::new(x, y, z)), value);
    }
    for z in 0..width {
        for y in 0..width {
            for x in 0..width {
                let at = ((z * width + y) * width + x) as usize;
                assert_eq!(octree.get(&Index::new(x, y, z)), dense[at]);
            }
        }
    }
}

#[test]
fn a_write_leaves_other_points_alone() {
    let mut octree = OctreeBitmap::new(4);
    let a = Index::new(3, 0, 2);
    octree.set(&a, true);
    for z in 0..4 {
        for y in 0..4 {
            for x in 0..4 {
                let p = Index::new(x, y, z);
                assert_eq!(octree.get(&p), p == a);
            }
        }
    }
    octree.set(&Index::new(3, 0, 3), true);
    octree.set(&Index::new(3, 0, 3), false);
    for z in 0..4 {
        for y in 0..4 {
            for x in 0..4 {
                let p = Index::new(x, y, z);
                assert_eq!(octree.get(&p), p == a);
            }
        }
    }
}

#[test]
fn writing_the_same_value_twice_changes_nothing() {
    let mut octree = OctreeBitmap::new(16);
    octree.set(&Index::new(9, 4, 1), true);
    octree.set(&Index::new(2, 2, 2), true);
    let idx = Index::new(5, 6, 7);

    assert!(octree.set(&idx, true));
    let before = copy_of(octree.root());
    let nodes = count_nodes(octree.root());
    assert!(!octree.set(&idx, true));
    assert_eq!(*octree.root(), before);
    assert_eq!(count_nodes(octree.root()), nodes);

    assert!(octree.set(&idx, false));
    let before = copy_of(octree.root());
    let nodes = count_nodes(octree.root());
    assert!(!octree.set(&idx, false));
    assert_eq!(*octree.root(), before);
    assert_eq!(count_nodes(octree.root()), nodes);
}

#[test]
fn clear_unsets_every_point() {
    let mut octree = OctreeBitmap::new(4);
    let mut state = 99u64;
    for _ in 0..40 {
        let p = Index::new(next(&mut state) % 4, next(&mut state) % 4, next(&mut state) % 4);
        octree.set(&p, true);
    }
    octree.clear();
    assert_eq!(octree.width(), 4);
    assert_eq!(*octree.root(), Node::Empty);
    for z in 0..4 {
        for y in 0..4 {
            for x in 0..4 {
                assert!(!octree.get(&Index::new(x, y, z)));
            }
        }
    }
    // The bitmap can be written again after it was cleared.
    assert!(octree.set(&Index::new(3, 3, 3), true));
    assert!(octree.get(&Index::new(3, 3, 3)));
}

#[test]
fn the_tree_stays_compressed() {
    let mut octree = OctreeBitmap::new(8);
    assert!(is_compressed(octree.root(), octree.height()));
    let mut state = 2024u64;
    for _ in 0..4000 {
        let p = Index::new(next(&mut state) % 8, next(&mut state) % 8, next(&mut state) % 8);
        // Mostly set, so that whole octants fill up and merge.
        let value = next(&mut state) % 8 != 0;
        octree.set(&p, value);
        assert!(is_compressed(octree.root(), octree.height()));
    }
    octree.clear();
    assert!(is_compressed(octree.root(), octree.height()));
}

#[test]
fn width_is_the_next_power_of_two() {
    let cases: [(u32, u32, u32); 12] = [
        (0, 1, 0),
        (1, 1, 0),
        (2, 2, 1),
        (3, 4, 2),
        (4, 4, 2),
        (5, 8, 3),
        (8, 8, 3),
        (9, 16, 4),
        (1000, 1024, 10),
        (0x4000_0000, 0x4000_0000, 30),
        (0x4000_0001, 0x8000_0000, 31),
        (0x8000_0000, 0x8000_0000, 31),
    ];
    for (asked, width, height) in cases {
        let octree = OctreeBitmap::new(asked);
        assert_eq!(octree.width(), width);
        assert_eq!(octree.height(), height);
        assert!(octree.width().is_power_of_two());
        assert!(octree.width() >= asked);
    }
}

#[test]
fn width_does_not_change_with_writes() {
    let mut octree = OctreeBitmap::new(5);
    octree.set(&Index::new(7, 7, 7), true);
    assert_eq!(octree.width(), 8);
    octree.set(&Index::new(7, 7, 7), false);
    assert_eq!(octree.width(), 8);
    octree.clear();
    assert_eq!(octree.width(), 8);
}

#[test]
fn a_bitmap_of_width_one_is_a_single_terminal() {
    let mut octree = OctreeBitmap::new(1);
    assert_eq!(octree.height(), 0);
    assert_eq!(octree.width(), 1);
    let origin = Index::new(0, 0, 0);
    assert_eq!(*octree.root(), Node::Empty);
    assert!(!octree.get(&origin));

    assert!(octree.set(&origin, true));
    assert_eq!(*octree.root(), Node::Full);
    assert!(octree.get(&origin));
    assert!(!octree.set(&origin, true));

    assert!(octree.set(&origin, false));
    assert_eq!(*octree.root(), Node::Empty);
    assert!(!octree.get(&origin));
    assert!(!octree.set(&origin, false));
}

#[test]
fn filling_an_octant_merges_it() {
    let mut octree = OctreeBitmap::new(4);
    // A point in another octant of the root keeps the root a branch.
    octree.set(&Index::new(3, 3, 3), true);
    let nodes = count_nodes(octree.root());
    // The eight points of the octant at the origin.
    let mut merged_at = 0;
    for z in 0..2 {
        for y in 0..2 {
            for x in 0..2 {
                octree.set(&Index::new(x, y, z), true);
                merged_at += 1;
                if merged_at < 8 {
                    match octree.root() {
                        Node::Branch(children) => assert!(matches!(children[0], Node::Branch(_))),
                        _ => panic!("the root must be a branch"),
                    }
                }
            }
        }
    }
    match octree.root() {
        Node::Branch(children) => {
            assert_eq!(children[0], Node::Full);
            assert!(matches!(children[7], Node::Branch(_)));
        }
        _ => panic!("the root must be a branch"),
    }
    // The octant took one node before it was written and takes one now.
    assert_eq!(count_nodes(octree.root()), nodes);
    assert!(is_compressed(octree.root(), octree.height()));
}

#[test]
fn eight_equal_branches_are_not_merged() {
    let mut octree = OctreeBitmap::new(4);
    // The first point of each octant of the root.
    for z in [0, 2] {
        for y in [0, 2] {
            for x in [0, 2] {
                assert!(octree.set(&Index::new(x, y, z), true));
            }
        }
    }
    match octree.root() {
        Node::Branch(children) => {
            for i in 1..8 {
                assert_eq!(children[i], children[0]);
            }
            assert!(matches!(children[0], Node::Branch(_)));
        }
        _ => panic!("the root must be a branch"),
    }
    assert_eq!(count_nodes(octree.root()), 1 + 8 + 8 * 8);
    assert!(is_compressed(octree.root(), octree.height()));
    assert!(octree.get(&Index::new(2, 0, 2)));
    assert!(!octree.get(&Index::new(3, 0, 2)));
}

#[test]
fn equal_sets_make_equal_trees() {
    let points = [
        Index::new(0, 0, 0),
        Index::new(5, 1, 7),
        Index::new(5, 1, 6),
        Index::new(2, 2, 2),
        Index::new(7, 7, 7),
    ];
    let mut forward = OctreeBitmap::new(8);
    for p in points.iter() {
        forward.set(p, true);
    }
    // The same points, written in the other order and between writes that
    // are undone.
    let mut backward = OctreeBitmap::new(8);
    for p in points.iter().rev() {
        backward.set(&Index::new(p.z, p.x, p.y), true);
        backward.set(p, true);
        if Index::new(p.z, p.x, p.y) != *p {
            backward.set(&Index::new(p.z, p.x, p.y), false);
        }
    }
    for p in points.iter() {
        backward.set(p, true);
    }
    assert_eq!(*forward.root(), *backward.root());
}

#[test]
fn filling_everything_merges_up_to_the_root() {
    let mut octree = OctreeBitmap::new(4);
    for z in 0..4 {
        for y in 0..4 {
            for x in 0..4 {
                assert!(octree.set(&Index::new(x, y, z), true));
            }
        }
    }
    assert_eq!(*octree.root(), Node::Full);
    assert!(octree.get(&Index::new(2, 1, 3)));

    // One point taken out splits the path to it again.
    assert!(octree.set(&Index::new(2, 1, 3), false));
    assert_eq!(count_nodes(octree.root()), 2 * 8 + 1);
    assert!(!octree.get(&Index::new(2, 1, 3)));
    assert!(octree.get(&Index::new(2, 1, 2)));

    // Put back, the tree is one node again.
    assert!(octree.set(&Index::new(2, 1, 3), true));
    assert_eq!(*octree.root(), Node::Full);
}

#[test]
fn removing_the_last_point_merges_to_empty() {
    let mut octree = OctreeBitmap::new(0x8000_0000);
    let far = Index::new(0x7fff_ffff, 0, 0x1234_5678);
    assert!(octree.set(&far, true));
    assert!(octree.get(&far));
    assert!(!octree.get(&Index::new(0x7fff_fffe, 0, 0x1234_5678)));
    assert_eq!(count_nodes(octree.root()), 31 * 8 + 1);
    assert!(octree.set(&far, false));
    assert_eq!(*octree.root(), Node::Empty);
}

#[test]
fn an_index_outside_the_cube_is_reported() {
    let mut octree = OctreeBitmap::new(5);
    let inside = Index::new(7, 7, 7);
    assert!(octree.covers(&inside));
    assert_eq!(octree.try_set(&inside, true), Ok(true));
    assert_eq!(octree.try_set(&inside, true), Ok(false));
    assert_eq!(octree.try_get(&inside), Ok(true));
    assert_eq!(octree.try_get(&Index::new(0, 0, 0)), Ok(false));

    let before = copy_of(octree.root());
    for outside in [Index::new(8, 0, 0), Index::new(0, 8, 0), Index::new(0, 0, 8), Index::new(15, 7, 7)] {
        assert!(!octree.covers(&outside));
        assert_eq!(octree.try_get(&outside), Err(OctreeError::IndexOutOfRange));
        assert_eq!(octree.try_set(&outside, true), Err(OctreeError::IndexOutOfRange));
        assert_eq!(octree.try_set(&outside, false), Err(OctreeError::IndexOutOfRange));
        assert_eq!(*octree.root(), before);
    }
    assert_eq!(octree.try_set(&inside, false), Ok(true));
    assert_eq!(*octree.root(), Node::Empty);
}
