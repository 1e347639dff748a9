use kdtree::geometry::{
    cmp_on_axis, cmp_x, cmp_y, cmp_z, completely_enclosed, cube_high, cube_low,
    point_in_search_space, search_area_intersects,
};
use kdtree::sorting::{cmp_size_t, sort_indices, sort_points_on_axis};
use kdtree::{
    Boundaries, DataPoint, KDTREE_END, Kdtree, KdtreeIterator, Space, TreeNode, kdtree_build,
    kdtree_delete, kdtree_iterator_delete, kdtree_iterator_get_next, kdtree_iterator_rewind,
    kdtree_iterator_sort, kdtree_search, kdtree_search_space,
};

/// The eleven points of the reference scenario, with coordinates scaled by
/// 1000: three at the centre of the unit cube and one at each corner.
fn reference_points() -> (Vec<i64>, Vec<i64>, Vec<i64>) {
    let pts: [(i64, i64, i64); 11] = [
        (500, 500, 500),
        (500, 500, 500),
        (500, 500, 500),
        (0, 0, 0),
        (1000, 0, 0),
        (1000, 1000, 0),
        (0, 1000, 0),
        (0, 0, 1000),
        (1000, 0, 1000),
        (1000, 1000, 1000),
        (0, 1000, 1000),
    ];
    let x = pts.iter().map(|p| p.0).collect();
    let y = pts.iter().map(|p| p.1).collect();
    let z = pts.iter().map(|p| p.2).collect();
    (x, y, z)
}

fn reference_tree() -> Option<Kdtree> {
    let (x, y, z) = reference_points();
    let mut tree = None;
    kdtree_build(&x, &y, &z, 11, &mut tree);
    tree
}

/// Reads every entry, checks that the end marker follows, and compares the
/// sorted entries with `expected`.
fn validate(iter: &mut Option<KdtreeIterator>, expected: &[u64]) {
    let it = iter.as_mut().expect("iterator");
    assert_eq!(it.size(), expected.len());
    let mut content = Vec::new();
    for _ in 0..expected.len() {
        content.push(kdtree_iterator_get_next(it));
    }
    assert_eq!(kdtree_iterator_get_next(it), KDTREE_END);
    content.sort();
    assert_eq!(content, expected);
}

#[test]
fn reference_scenario() {
    let tree = reference_tree();
    let t = tree.as_ref().unwrap();
    let mut iter = None;
    kdtree_search(t, &mut iter, -10000, 0, 0, 9999);
    validate(&mut iter, &[]);
    kdtree_search(t, &mut iter, 0, 0, 0, 499);
    validate(&mut iter, &[3]);
    kdtree_search(t, &mut iter, 500, 500, 500, 500);
    validate(&mut iter, &[0, 1, 2, 3, 4, 5, 6, 7, 8, 9, 10]);
    kdtree_search(t, &mut iter, 500, 500, 500, 100000);
    validate(&mut iter, &[0, 1, 2, 3, 4, 5, 6, 7, 8, 9, 10]);
    kdtree_search(t, &mut iter, 500, 500, 0, 500);
    validate(&mut iter, &[0, 1, 2, 3, 4, 5, 6]);
    kdtree_search(t, &mut iter, 500, 500, 1000, 500);
    validate(&mut iter, &[0, 1, 2, 7, 8, 9, 10]);
    kdtree_search_space(t, &mut iter, 0, 1000, 500, 1000, 0, 1000);
    validate(&mut iter, &[0, 1, 2, 5, 6, 9, 10]);
    kdtree_iterator_delete(&mut iter);
    assert!(iter.is_none());
}

#[test]
fn build_keeps_count_and_delete_clears() {
    let mut tree = reference_tree();
    assert_eq!(tree.as_ref().unwrap().count(), 11);
    kdtree_delete(&mut tree);
    assert!(tree.is_none());
}

#[test]
fn rebuild_with_same_count_reuses_and_reports_new_points() {
    let (x, y, z) = reference_points();
    let mut tree = None;
    kdtree_build(&x, &y, &z, 11, &mut tree);
    // Move every point by 5000 on x and rebuild into the same tree.
    let moved: Vec<i64> = x.iter().map(|v| v + 5000).collect();
    kdtree_build(&moved, &y, &z, 11, &mut tree);
    let mut iter = None;
    kdtree_search(tree.as_ref().unwrap(), &mut iter, 0, 0, 0, 499);
    validate(&mut iter, &[]);
    kdtree_search(tree.as_ref().unwrap(), &mut iter, 5000, 0, 0, 499);
    validate(&mut iter, &[3]);
}

#[test]
fn rebuild_with_other_count_replaces_tree() {
    let (x, y, z) = reference_points();
    let mut tree = None;
    kdtree_build(&x, &y, &z, 11, &mut tree);
    kdtree_build(&x, &y, &z, 4, &mut tree);
    assert_eq!(tree.as_ref().unwrap().count(), 4);
    let mut iter = None;
    kdtree_search(tree.as_ref().unwrap(), &mut iter, 500, 500, 500, 100000);
    validate(&mut iter, &[0, 1, 2, 3]);
}

#[test]
fn two_points_tree() {
    let x = vec![-7, 7];
    let y = vec![0, 0];
    let z = vec![3, -3];
    let mut tree = None;
    kdtree_build(&x, &y, &z, 2, &mut tree);
    let t = tree.as_ref().unwrap();
    let mut iter = None;
    kdtree_search_space(t, &mut iter, -7, -7, 0, 0, 3, 3);
    validate(&mut iter, &[0]);
    kdtree_search_space(t, &mut iter, 7, 7, 0, 0, -3, -3);
    validate(&mut iter, &[1]);
    kdtree_search_space(t, &mut iter, -7, 7, 0, 0, -3, 3);
    validate(&mut iter, &[0, 1]);
}

#[test]
fn empty_box_reports_nothing() {
    let tree = reference_tree();
    let mut iter = None;
    // A box whose lower end lies above its upper end holds no point.
    kdtree_search_space(tree.as_ref().unwrap(), &mut iter, 1000, 0, 0, 1000, 0, 1000);
    validate(&mut iter, &[]);
}

#[test]
fn cube_at_the_ends_of_the_coordinates() {
    let x = vec![i64::MIN, i64::MAX, 0];
    let y = vec![i64::MIN, i64::MAX, 0];
    let z = vec![i64::MIN, i64::MAX, 0];
    let mut tree = None;
    kdtree_build(&x, &y, &z, 3, &mut tree);
    let t = tree.as_ref().unwrap();
    let mut iter = None;
    kdtree_search(t, &mut iter, i64::MIN, i64::MIN, i64::MIN, 10);
    validate(&mut iter, &[0]);
    kdtree_search(t, &mut iter, i64::MAX, i64::MAX, i64::MAX, 10);
    validate(&mut iter, &[1]);
    kdtree_search(t, &mut iter, 0, 0, 0, i64::MAX);
    validate(&mut iter, &[1, 2]);
    kdtree_search_space(t, &mut iter, i64::MIN, i64::MAX, i64::MIN, i64::MAX, i64::MIN, i64::MAX);
    validate(&mut iter, &[0, 1, 2]);
}

#[test]
fn many_points_on_a_grid() {
    let mut x = Vec::new();
    let mut y = Vec::new();
    let mut z = Vec::new();
    for i in 0..5i64 {
        for j in 0..5i64 {
            for k in 0..5i64 {
                x.push(i);
                y.push(j);
                z.push(k);
            }
        }
    }
    let mut tree = None;
    kdtree_build(&x, &y, &z, 125, &mut tree);
    let t = tree.as_ref().unwrap();
    let mut iter = None;
    kdtree_search_space(t, &mut iter, 1, 2, 0, 0, 3, 4);
    // Index of (i, j, k) is 25 i + 5 j + k.
    validate(&mut iter, &[28, 29, 53, 54]);
    kdtree_search(t, &mut iter, 2, 2, 2, 1);
    let mut expected = Vec::new();
    for i in 1..4u64 {
        for j in 1..4u64 {
            for k in 1..4u64 {
                expected.push(25 * i + 5 * j + k);
            }
        }
    }
    validate(&mut iter, &expected);
}

#[test]
fn iterator_get_next_rewind_and_sort() {
    let tree = reference_tree();
    let mut iter = None;
    kdtree_search(tree.as_ref().unwrap(), &mut iter, 500, 500, 1000, 500);
    let it = iter.as_mut().unwrap();
    kdtree_iterator_sort(it);
    let mut first = Vec::new();
    loop {
        let v = kdtree_iterator_get_next(it);
        if v == KDTREE_END {
            break;
        }
        first.push(v);
    }
    assert_eq!(first, vec![0, 1, 2, 7, 8, 9, 10]);
    assert_eq!(kdtree_iterator_get_next(it), KDTREE_END);
    assert_eq!(it.current(), 7);
    kdtree_iterator_rewind(it);
    assert_eq!(it.current(), 0);
    assert_eq!(kdtree_iterator_get_next(it), 0);
    assert_eq!(kdtree_iterator_get_next(it), 1);
}

#[test]
fn sort_keeps_read_position() {
    let tree = reference_tree();
    let mut iter = None;
    kdtree_search(tree.as_ref().unwrap(), &mut iter, 500, 500, 500, 500);
    let it = iter.as_mut().unwrap();
    kdtree_iterator_get_next(it);
    kdtree_iterator_get_next(it);
    kdtree_iterator_sort(it);
    assert_eq!(it.current(), 2);
    assert_eq!(kdtree_iterator_get_next(it), 2);
}

#[test]
fn iterator_push_and_reset() {
    let mut it = KdtreeIterator::iterator_new();
    assert_eq!(it.size(), 0);
    assert_eq!(kdtree_iterator_get_next(&mut it), KDTREE_END);
    it.iterator_push(9);
    it.iterator_push(4);
    assert_eq!(it.size(), 2);
    assert_eq!(kdtree_iterator_get_next(&mut it), 9);
    it.iterator_reset();
    assert_eq!(it.size(), 0);
    assert_eq!(it.current(), 0);
}

#[test]
fn search_reuses_given_iterator() {
    let tree = reference_tree();
    let mut it = KdtreeIterator::iterator_new();
    it.iterator_push(77);
    kdtree_iterator_get_next(&mut it);
    let mut iter = Some(it);
    kdtree_search(tree.as_ref().unwrap(), &mut iter, 0, 0, 0, 499);
    assert_eq!(iter.as_ref().unwrap().current(), 0);
    validate(&mut iter, &[3]);
}

#[test]
fn comparisons_by_axis() {
    let a = DataPoint { x: 1, y: 5, z: 3, idx: 0 };
    let b = DataPoint { x: 2, y: 5, z: -3, idx: 1 };
    assert_eq!(cmp_x(&a, &b), -1);
    assert_eq!(cmp_y(&a, &b), 0);
    assert_eq!(cmp_z(&a, &b), 1);
    assert_eq!(cmp_on_axis(&a, &b, 0), -1);
    assert_eq!(cmp_on_axis(&a, &b, 1), 0);
    assert_eq!(cmp_on_axis(&a, &b, 2), 1);
    assert_eq!(cmp_size_t(&3, &9), -1);
    assert_eq!(cmp_size_t(&9, &3), 1);
    assert_eq!(cmp_size_t(&4, &4), 0);
}

fn unit_box() -> Space {
    Space::from_bounds(0, 10, 0, 10, 0, 10)
}

#[test]
fn point_and_box_tests() {
    let s = unit_box();
    assert!(point_in_search_space(&DataPoint { x: 0, y: 10, z: 5, idx: 0 }, &s));
    assert!(!point_in_search_space(&DataPoint { x: 0, y: 11, z: 5, idx: 0 }, &s));
    assert!(!point_in_search_space(&DataPoint { x: -1, y: 1, z: 5, idx: 0 }, &s));
    let inner = Space::from_bounds(2, 3, 2, 3, 2, 3);
    let overlapping = Space::from_bounds(5, 20, 5, 20, 5, 20);
    let apart = Space::from_bounds(11, 20, 0, 10, 0, 10);
    let touching = Space::from_bounds(10, 20, 10, 20, 10, 20);
    assert!(search_area_intersects(&s, &inner));
    assert!(search_area_intersects(&s, &overlapping));
    assert!(!search_area_intersects(&s, &apart));
    assert!(search_area_intersects(&s, &touching));
    assert!(completely_enclosed(&s, &inner));
    assert!(completely_enclosed(&s, &s));
    assert!(!completely_enclosed(&s, &overlapping));
    assert!(!completely_enclosed(&s, &apart));
}

#[test]
fn space_bounds_by_axis() {
    let mut s = unit_box();
    s.set_min(1, -4);
    s.set_max(2, 40);
    assert_eq!(s.min_at(1), -4);
    assert_eq!(s.max_at(2), 40);
    assert_eq!(s.x, Boundaries { min: 0, max: 10 });
    let full = Space::full();
    assert_eq!(full.min_at(0), i64::MIN);
    assert_eq!(full.max_at(2), i64::MAX);
}

#[test]
fn cube_bounds_are_cut() {
    assert_eq!(cube_low(5, 3), 2);
    assert_eq!(cube_high(5, 3), 8);
    assert_eq!(cube_low(i64::MIN + 1, 3), i64::MIN);
    assert_eq!(cube_high(i64::MAX - 1, 3), i64::MAX);
}

#[test]
fn sorting_a_range_of_points() {
    let mut pts: Vec<DataPoint> = (0..6)
        .map(|i| DataPoint { x: 10 - i, y: i % 3, z: 0, idx: i as u64 })
        .collect();
    sort_points_on_axis(&mut pts, 1, 4, 0);
    let xs: Vec<i64> = pts.iter().map(|p| p.x).collect();
    assert_eq!(xs, vec![10, 6, 7, 8, 9, 5]);
    let idxs: Vec<u64> = pts.iter().map(|p| p.idx).collect();
    assert_eq!(idxs, vec![0, 4, 3, 2, 1, 5]);
    sort_points_on_axis(&mut pts, 0, 5, 1);
    let ys: Vec<i64> = pts.iter().map(|p| p.y).collect();
    assert_eq!(ys, vec![0, 0, 1, 1, 2, 2]);
}

#[test]
fn sorting_indices() {
    let mut v = vec![5u64, 1, 4, 1, 9, 0];
    sort_indices(&mut v);
    assert_eq!(v, vec![0, 1, 1, 4, 5, 9]);
    let mut e: Vec<u64> = Vec::new();
    sort_indices(&mut e);
    assert!(e.is_empty());
}

#[test]
fn point_coordinates_by_axis() {
    let p = DataPoint { x: 1, y: 2, z: 3, idx: 4 };
    assert_eq!(p.coord_at(0), 1);
    assert_eq!(p.coord_at(1), 2);
    assert_eq!(p.coord_at(2), 3);
}

#[test]
fn two_point_rebuild_layout() {
    let mut tree = None;
    kdtree_build(&[0, 1000], &[0, 0], &[0, 0], 2, &mut tree);
    kdtree_build(&[1000, 0], &[0, 0], &[0, 0], 2, &mut tree);
    let t = tree.as_ref().unwrap();
    assert_eq!(t.count(), 2);
    assert_eq!(t.max_nodes(), 3);
    assert_eq!(t.node_count(), 3);
    assert_eq!(t.root(), 0);
    assert_eq!(t.node(0), TreeNode::Branch { split: 0, left: 1, right: 2 });
    assert_eq!(t.node(1), TreeNode::Leaf { idx: 0 });
    assert_eq!(t.node(2), TreeNode::Leaf { idx: 1 });
    assert_eq!(t.point(0), DataPoint { x: 0, y: 0, z: 0, idx: 1 });
    assert_eq!(t.point(1), DataPoint { x: 1000, y: 0, z: 0, idx: 0 });
}

/// Walks the subtree at `node`, checking the k-d ordering and the median
/// split, and returns the positions of its leaves from left to right.
fn check_subtree(t: &Kdtree, node: usize, depth: usize) -> Vec<usize> {
    match t.node(node) {
        TreeNode::Leaf { idx } => vec![idx],
        TreeNode::Branch { split, left, right } => {
            assert!(left > node && right > node);
            let axis = (depth % 3) as u64;
            let l = check_subtree(t, left, depth + 1);
            let r = check_subtree(t, right, depth + 1);
            let n = l.len() + r.len();
            assert_eq!(l.len(), (n + 1) / 2);
            assert!(l.iter().all(|&i| t.point(i).coord_at(axis) <= split));
            assert!(r.iter().all(|&i| t.point(i).coord_at(axis) >= split));
            assert!(l.iter().any(|&i| t.point(i).coord_at(axis) == split));
            let mut keys: Vec<i64> = l.iter().chain(r.iter()).map(|&i| t.point(i).coord_at(axis)).collect();
            keys.sort();
            assert_eq!(keys[(n - 1) / 2], split);
            let mut all = l;
            all.extend(r);
            all
        }
    }
}

#[test]
fn reference_tree_shape() {
    let tree = reference_tree();
    let t = tree.as_ref().unwrap();
    assert_eq!(t.node_count(), 21);
    assert_eq!(t.max_nodes(), 21);
    assert_eq!(t.root(), 0);
    let leaves = check_subtree(t, 0, 0);
    assert_eq!(leaves, (0..11).collect::<Vec<usize>>());
    let mut idx: Vec<u64> = (0..11).map(|i| t.point(i).idx).collect();
    idx.sort();
    assert_eq!(idx, (0..11).collect::<Vec<u64>>());
}

#[test]
fn reused_tree_matches_fresh_tree() {
    let (x, y, z) = reference_points();
    let other: Vec<i64> = (0..11).map(|i| 37 * i % 11).collect();
    let mut reused = None;
    kdtree_build(&other, &other, &other, 11, &mut reused);
    kdtree_build(&x, &y, &z, 11, &mut reused);
    let fresh = reference_tree();
    let (a, b) = (reused.as_ref().unwrap(), fresh.as_ref().unwrap());
    assert_eq!(a.node_count(), b.node_count());
    for i in 0..a.node_count() {
        assert_eq!(a.node(i), b.node(i));
    }
    for i in 0..11 {
        assert_eq!(a.point(i), b.point(i));
    }
}

#[test]
fn reading_past_the_end_keeps_returning_end() {
    let tree = reference_tree();
    let mut iter = None;
    kdtree_search(tree.as_ref().unwrap(), &mut iter, 500, 500, 0, 500);
    let it = iter.as_mut().unwrap();
    let m = it.size();
    let mut seen = Vec::new();
    for _ in 0..m {
        seen.push(kdtree_iterator_get_next(it));
    }
    assert_eq!(kdtree_iterator_get_next(it), KDTREE_END);
    assert_eq!(kdtree_iterator_get_next(it), KDTREE_END);
    assert_eq!(it.current(), m);
    let mut distinct = seen.clone();
    distinct.sort();
    distinct.dedup();
    assert_eq!(distinct.len(), seen.len());
}
