use generational_arena::Arena;
use simd_tree::are_points_same;
use simd_tree::are_points_same_simd;
use simd_tree::insert;
use simd_tree::node_left;
use simd_tree::node_point;
use simd_tree::node_right;
use simd_tree::search;
use simd_tree::search_simd;
use simd_tree::Node;
use simd_tree::Point;

/// Order-preserving key of an `f64` coordinate: flips the sign bit of a
/// non-negative float and all bits of a negative one, so that `u64` order
/// and equality match IEEE order and bitwise equality on ordinary floats.
fn key(c: f64) -> u64 {
    let b = c.to_bits();
    if b & (1u64 << 63) == 0 {
        b | (1u64 << 63)
    } else {
        !b
    }
}

fn pt(x: f64, y: f64) -> Point {
    Point { x: key(x), y: key(y) }
}

#[test]
fn search_on_empty_tree_returns_false() {
    let arena: Arena<Node> = Arena::new();
    for p in [pt(0.0, 0.0), pt(1.0, 1.0), pt(-3.5, 7.25), pt(100.0, -100.0)] {
        assert!(!search(&arena, None, p));
        assert!(!search_simd(&arena, None, p));
    }
}

#[test]
fn insert_three_points_scenario() {
    let mut arena = Arena::new();
    let root = insert(&mut arena, None, pt(1.0, 1.0));
    let root2 = insert(&mut arena, Some(root), pt(2.0, 2.0));
    let root3 = insert(&mut arena, Some(root2), pt(0.0, 0.0));
    assert_eq!(root, root2);
    assert_eq!(root, root3);
    assert_eq!(node_point(&arena, root), Some(pt(1.0, 1.0)));
    assert!(search(&arena, Some(root), pt(0.0, 0.0)));
    assert!(search(&arena, Some(root), pt(2.0, 2.0)));
    assert!(!search(&arena, Some(root), pt(5.0, 5.0)));
    let left = node_left(&arena, root).unwrap().unwrap();
    let right = node_right(&arena, root).unwrap().unwrap();
    assert_eq!(node_point(&arena, left), Some(pt(0.0, 0.0)));
    assert_eq!(node_point(&arena, right), Some(pt(2.0, 2.0)));
}

#[test]
fn duplicate_point_makes_two_nodes() {
    let mut arena = Arena::new();
    let root = insert(&mut arena, None, pt(3.0, 3.0));
    let root2 = insert(&mut arena, Some(root), pt(3.0, 3.0));
    assert_eq!(root, root2);
    assert!(search(&arena, Some(root), pt(3.0, 3.0)));
    // a duplicate compares greater-or-equal on the discriminator, so the
    // second node hangs off the right-child path of the first
    assert_eq!(node_left(&arena, root), Some(None));
    let right = node_right(&arena, root).unwrap().unwrap();
    assert_ne!(root, right);
    assert_eq!(node_point(&arena, right), Some(pt(3.0, 3.0)));
}

#[test]
fn round_trip_all_inserted_points_found() {
    let coords = [
        (12.5, 3.0),
        (0.0, 0.0),
        (-4.0, 9.75),
        (7.0, 7.0),
        (7.0, 7.0), // duplicate
        (-4.0, -4.0),
        (99.9, -0.5),
        (3.0, 12.5),
        (0.5, 0.25),
        (-0.25, 18.0),
    ];
    let mut arena = Arena::new();
    let mut root = None;
    for &(x, y) in coords.iter() {
        root = Some(insert(&mut arena, root, pt(x, y)));
    }
    for &(x, y) in coords.iter() {
        assert!(search(&arena, root, pt(x, y)));
        assert!(search_simd(&arena, root, pt(x, y)));
    }
    for &(x, y) in [(12.5, 3.1), (1.0, 1.0), (-99.0, 0.0), (7.0, 7.5), (3.0, 12.4)].iter() {
        assert!(!search(&arena, root, pt(x, y)));
        assert!(!search_simd(&arena, root, pt(x, y)));
    }
}

#[test]
fn scalar_and_simd_point_equality_agree() {
    let pairs = [
        (pt(1.0, 2.0), pt(1.0, 2.0)),
        (pt(1.0, 2.0), pt(1.0, 2.5)),
        (pt(1.0, 2.0), pt(1.5, 2.0)),
        (pt(1.0, 2.0), pt(2.0, 1.0)),
        (pt(0.1 + 0.2, 0.0), pt(0.3, 0.0)),
        (pt(-0.0f64.abs(), 5.0), pt(0.0, 5.0)),
        (Point { x: 7, y: 0 }, Point { x: 0, y: 7 }),
        (Point { x: u64::MAX, y: 0 }, Point { x: u64::MAX, y: 0 }),
    ];
    for &(a, b) in pairs.iter() {
        assert_eq!(are_points_same(a, b), are_points_same_simd(a, b));
    }
    assert!(are_points_same(pt(4.0, -8.0), pt(4.0, -8.0)));
    assert!(!are_points_same(pt(4.0, -8.0), pt(4.0, 8.0)));
    assert!(are_points_same_simd(pt(4.0, -8.0), pt(4.0, -8.0)));
    assert!(!are_points_same_simd(pt(4.0, -8.0), pt(4.0, 8.0)));
}

#[test]
fn scalar_and_simd_search_agree() {
    let coords = [
        (50.0, 50.0),
        (25.0, 75.0),
        (75.0, 25.0),
        (50.0, 49.999999999999),
        (50.000000000001, 50.0),
        (-1.0, 1.0),
        (1.0, -1.0),
        (0.0, 0.0),
    ];
    let mut arena = Arena::new();
    let mut root = None;
    for &(x, y) in coords.iter() {
        root = Some(insert(&mut arena, root, pt(x, y)));
    }
    let queries = [
        (50.0, 50.0),
        (50.0, 50.000000000001),
        (50.0, 49.999999999999),
        (25.0, 75.0),
        (75.0, 25.0),
        (-1.0, 1.0),
        (1.0, -1.0),
        (0.0, -0.0),
        (33.3, 66.6),
    ];
    for &(x, y) in queries.iter() {
        assert_eq!(search(&arena, root, pt(x, y)), search_simd(&arena, root, pt(x, y)));
    }
}

#[test]
fn membership_is_order_independent() {
    let base = [
        (10.0, 20.0),
        (20.0, 10.0),
        (15.0, 15.0),
        (15.0, 15.0), // duplicate kept in every order
        (-5.0, 30.0),
        (30.0, -5.0),
        (0.0, 0.0),
    ];
    let orders: [Vec<usize>; 3] = [
        vec![0, 1, 2, 3, 4, 5, 6],
        vec![6, 5, 4, 3, 2, 1, 0],
        vec![3, 0, 6, 1, 5, 2, 4],
    ];
    let mut trees = Vec::new();
    for order in orders.iter() {
        let mut arena = Arena::new();
        let mut root = None;
        for &i in order.iter() {
            root = Some(insert(&mut arena, root, pt(base[i].0, base[i].1)));
        }
        trees.push((arena, root));
    }
    let queries = [
        (10.0, 20.0),
        (20.0, 10.0),
        (15.0, 15.0),
        (-5.0, 30.0),
        (30.0, -5.0),
        (0.0, 0.0),
        (10.0, 10.0),
        (20.0, 20.0),
        (-5.0, -5.0),
        (42.0, 42.0),
    ];
    for &(x, y) in queries.iter() {
        let expected = search(&trees[0].0, trees[0].1, pt(x, y));
        for (arena, root) in trees.iter() {
            assert_eq!(search(arena, *root, pt(x, y)), expected);
            assert_eq!(search_simd(arena, *root, pt(x, y)), expected);
        }
    }
}

#[test]
fn repeated_search_gives_same_answer() {
    let mut arena = Arena::new();
    let mut root = None;
    for &(x, y) in [(8.0, 1.0), (2.0, 9.0), (5.0, 5.0)].iter() {
        root = Some(insert(&mut arena, root, pt(x, y)));
    }
    let hit = pt(2.0, 9.0);
    let miss = pt(9.0, 2.0);
    let first_hit = search(&arena, root, hit);
    let first_miss = search(&arena, root, miss);
    for _ in 0..5 {
        assert_eq!(search(&arena, root, hit), first_hit);
        assert_eq!(search(&arena, root, miss), first_miss);
        assert_eq!(search_simd(&arena, root, hit), first_hit);
        assert_eq!(search_simd(&arena, root, miss), first_miss);
    }
    assert!(first_hit);
    assert!(!first_miss);
}

#[test]
fn node_new_has_no_children() {
    let n = Node::new(pt(6.0, 6.0));
    assert_eq!(n.point, pt(6.0, 6.0));
    assert!(n.left.is_none());
    assert!(n.right.is_none());
}
