use ncollide::bounding_volume::Aabb;
use ncollide::bvt::{median_partitioner, BVTNode, BVT};
use ncollide::dbvt::DBVT;
use ncollide::procedural::Vec3;

fn cube(x: i64, y: i64, z: i64, size: i64) -> Aabb {
    Aabb::new(Vec3::new(x, y, z), Vec3::new(x + size, y + size, z + size))
}

fn sorted<T: Ord>(mut v: Vec<T>) -> Vec<T> {
    v.sort();
    v
}

/// Every internal box is the merge of its children's, and the node's leaf count.
fn check_tight<T>(n: &BVTNode<T>) -> usize {
    match n {
        BVTNode::Leaf(_, _) => 1,
        BVTNode::Internal(bv, l, r) => {
            assert_eq!(*bv, l.bounding_volume().merged(&r.bounding_volume()));
            check_tight(l) + check_tight(r)
        }
    }
}

#[test]
fn box_intersection_is_closed() {
    let a = cube(0, 0, 0, 2);
    assert!(a.intersects(&cube(2, 2, 2, 1)));
    assert!(!a.intersects(&cube(3, 0, 0, 1)));
    assert!(a.contains(&cube(1, 1, 1, 1)));
    assert!(!a.contains(&cube(1, 1, 1, 2)));
    assert_eq!(a.merged(&cube(5, -1, 0, 1)), Aabb::new(Vec3::new(0, -1, 0), Vec3::new(6, 2, 2)));
}

#[test]
fn partition_splits_along_the_widest_axis_at_the_median() {
    // centers spread 40 along y, 3 along x
    let leaves: Vec<(u32, Aabb)> =
        vec![(0, cube(0, 30, 0, 1)), (1, cube(1, 0, 0, 1)), (2, cube(2, 40, 0, 1)), (3, cube(3, 10, 0, 1)), (4, cube(0, 20, 0, 1))];
    let (left, right) = median_partitioner(leaves);
    assert_eq!(sorted(left.iter().map(|l| l.0).collect()), vec![1, 3, 4]);
    assert_eq!(sorted(right.iter().map(|l| l.0).collect()), vec![0, 2]);
}

#[test]
fn bvt_root_volume_query_returns_every_leaf() {
    let leaves: Vec<(u32, Aabb)> = (0..7).map(|i| (i as u32, cube(3 * i, -i, 2 * i, 1 + i % 3))).collect();
    let t = BVT::new_balanced(leaves);
    assert_eq!(check_tight(&t.tree), 7);
    let root = t.root_bounding_volume();
    assert_eq!(sorted(t.interferences_with_volume(&root)), (0..7).collect::<Vec<u32>>());
    assert!(t.interferences_with_volume(&cube(1000, 1000, 1000, 5)).is_empty());
}

#[test]
fn bvt_volume_query_returns_the_overlapping_leaves() {
    let leaves: Vec<(u32, Aabb)> = (0..10).map(|i| (i as u32, cube(10 * i, 0, 0, 2))).collect();
    let t = BVT::new_balanced(leaves);
    let hits = sorted(t.interferences_with_volume(&Aabb::new(Vec3::new(19, 0, 0), Vec3::new(41, 1, 1))));
    assert_eq!(hits, vec![2, 3, 4]);
}

#[test]
fn bvt_of_one_leaf() {
    let t = BVT::new_balanced(vec![(7u32, cube(0, 0, 0, 1))]);
    assert_eq!(t.root_bounding_volume(), cube(0, 0, 0, 1));
    assert_eq!(t.interferences_with_volume(&cube(1, 1, 1, 1)), vec![7]);
    assert!(t.self_interferences().is_empty());
}

#[test]
fn self_pairs_are_reported_once() {
    // 0 meets 1, 1 meets 2, 0 misses 2; 3 is far away; 4 overlaps 0 and 1
    let leaves: Vec<(u32, Aabb)> = vec![
        (0, cube(0, 0, 0, 2)),
        (1, cube(2, 0, 0, 2)),
        (2, cube(4, 0, 0, 2)),
        (3, cube(100, 100, 100, 1)),
        (4, cube(1, 1, 1, 1)),
    ];
    let t = BVT::new_balanced(leaves);
    let pairs: Vec<(u32, u32)> = t.self_interferences().into_iter().map(|(a, b)| if a < b { (a, b) } else { (b, a) }).collect();
    assert_eq!(sorted(pairs), vec![(0, 1), (0, 4), (1, 2), (1, 4)]);
}

#[test]
fn cross_tree_pairs() {
    let a = BVT::new_balanced(vec![(0u32, cube(0, 0, 0, 1)), (1, cube(10, 0, 0, 1)), (2, cube(20, 0, 0, 1))]);
    let b = BVT::new_balanced(vec![(7u32, cube(1, 1, 1, 9)), (8, cube(50, 0, 0, 1))]);
    assert_eq!(sorted(a.interferences_with_tree(&b)), vec![(0, 7), (1, 7)]);
    assert!(a.interferences_with_tree(&BVT::new_balanced(vec![(9u32, cube(-5, -5, -5, 1))])).is_empty());
}

#[test]
fn dbvt_insert_then_remove_all_in_any_order() {
    let mut t: DBVT<u32> = DBVT::new();
    assert!(t.is_empty());
    let mut handles = Vec::new();
    for i in 0..9i64 {
        handles.push(t.insert(cube(7 * i % 23, -3 * i, i * i, 1 + i % 4), i as u32));
    }
    assert_eq!(handles, (0..9).collect::<Vec<u64>>());
    assert_eq!(check_tight(t.root.as_ref().unwrap()), 9);
    let order = [4u64, 0, 8, 2, 7, 1, 6, 3, 5];
    for (k, h) in order.iter().enumerate() {
        t.remove(*h);
        match &t.root {
            Some(n) => assert_eq!(check_tight(n), 8 - k),
            None => assert_eq!(k, 8),
        }
    }
    assert!(t.is_empty());
}

#[test]
fn dbvt_root_box_shrinks_after_removal() {
    let mut t: DBVT<u32> = DBVT::new();
    let a = t.insert(cube(0, 0, 0, 1), 0);
    let b = t.insert(cube(10, 10, 10, 1), 1);
    assert_eq!(t.root.as_ref().unwrap().bounding_volume(), Aabb::new(Vec3::new(0, 0, 0), Vec3::new(11, 11, 11)));
    t.remove(b);
    assert_eq!(t.root.as_ref().unwrap().bounding_volume(), cube(0, 0, 0, 1));
    t.remove(a);
    assert!(t.is_empty());
}
