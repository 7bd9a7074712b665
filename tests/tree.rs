use orthtree::point::Point;
use orthtree::region::Rectangle;
use orthtree::tree::{InsertError, Tree};

fn sorted(found: Vec<&Point>) -> Vec<[u64; 2]> {
    let mut v: Vec<[u64; 2]> = found.iter().map(|p| p.0).collect();
    v.sort();
    v
}

#[test]
fn it_can_add_items() {
    let mut tree: Tree<Point> = Tree::new(Point::from(100));

    assert_eq!(tree.add(Point::new([70, 70])), Ok(()));
    assert_eq!(tree.add(Point::new([30, 30])), Ok(()));
    assert_eq!(tree.add(Point::new([70, 30])), Ok(()));
    assert_eq!(tree.add(Point::new([30, 70])), Ok(()));

    assert!(tree.contains(Point::new([70, 70])));
    assert!(tree.contains(Point::new([30, 30])));
    assert!(tree.contains(Point::new([70, 30])));
    assert!(tree.contains(Point::new([30, 70])));
}

#[test]
fn contains_only_inserted_positions() {
    let mut tree: Tree<Point> = Tree::new(Point::from(100));
    let inserted = [[5, 5], [6, 5], [99, 0], [0, 99], [50, 50], [49, 50]];
    for c in inserted.iter() {
        assert_eq!(tree.add(Point::new(*c)), Ok(()));
    }
    for c in inserted.iter() {
        assert!(tree.contains(Point::new(*c)));
    }
    for c in [[5, 6], [0, 0], [99, 99], [50, 49], [100, 100], [500, 1]].iter() {
        assert!(!tree.contains(Point::new(*c)));
    }
}

#[test]
fn duplicate_position_is_rejected() {
    let mut tree: Tree<Point> = Tree::new(Point::from(100));
    assert_eq!(tree.add(Point::new([30, 30])), Ok(()));
    assert_eq!(tree.add(Point::new([30, 30])), Err(InsertError::DuplicatePosition));
    let all = tree.query_intersecting(&Rectangle::new(Point::zero(), Point::from(100)));
    assert_eq!(sorted(all), vec![[30, 30]]);
}

#[test]
fn duplicate_below_a_subdivided_node_is_rejected() {
    let mut tree: Tree<Point> = Tree::new(Point::from(100));
    assert_eq!(tree.add(Point::new([10, 10])), Ok(()));
    assert_eq!(tree.add(Point::new([11, 10])), Ok(()));
    assert_eq!(tree.add(Point::new([11, 10])), Err(InsertError::DuplicatePosition));
    let all = tree.query_intersecting(&Rectangle::new(Point::zero(), Point::from(100)));
    assert_eq!(sorted(all), vec![[10, 10], [11, 10]]);
}

#[test]
fn query_over_lower_quadrant() {
    let mut tree: Tree<Point> = Tree::new(Point::from(100));
    for c in [[70, 70], [30, 30], [70, 30], [30, 70]].iter() {
        assert_eq!(tree.add(Point::new(*c)), Ok(()));
    }
    let found = tree.query_intersecting(&Rectangle::new(Point::new([0, 0]), Point::new([50, 50])));
    assert_eq!(sorted(found), vec![[30, 30]]);
    let upper = tree.query_intersecting(&Rectangle::new(Point::new([50, 50]), Point::new([100, 100])));
    assert_eq!(sorted(upper), vec![[70, 70]]);
}

#[test]
fn query_returns_in_child_order() {
    let mut tree: Tree<Point> = Tree::new(Point::from(100));
    for c in [[70, 70], [30, 30], [70, 30], [30, 70]].iter() {
        assert_eq!(tree.add(Point::new(*c)), Ok(()));
    }
    let found = tree.query_intersecting(&Rectangle::new(Point::zero(), Point::from(100)));
    let order: Vec<[u64; 2]> = found.iter().map(|p| p.0).collect();
    assert_eq!(order, vec![[30, 30], [70, 30], [30, 70], [70, 70]]);
}

#[test]
fn repeated_queries_agree() {
    let mut tree: Tree<Point> = Tree::new(Point::from(64));
    for c in [[1, 2], [40, 3], [40, 60], [7, 33], [8, 33]].iter() {
        assert_eq!(tree.add(Point::new(*c)), Ok(()));
    }
    let rect = Rectangle::new(Point::new([0, 0]), Point::new([41, 40]));
    let first: Vec<[u64; 2]> = tree.query_intersecting(&rect).iter().map(|p| p.0).collect();
    let second: Vec<[u64; 2]> = tree.query_intersecting(&rect).iter().map(|p| p.0).collect();
    assert_eq!(first, second);
    assert_eq!(tree.contains(Point::new([7, 33])), tree.contains(Point::new([7, 33])));
    assert_eq!(tree.contains(Point::new([9, 33])), tree.contains(Point::new([9, 33])));
}

#[test]
fn query_finds_exactly_the_points_inside() {
    let mut tree: Tree<Point> = Tree::new(Point::new([1000, 700]));
    let mut state: u64 = 12345;
    let mut points: Vec<[u64; 2]> = Vec::new();
    while points.len() < 200 {
        state = state.wrapping_mul(6364136223846793005).wrapping_add(1442695040888963407);
        let x = (state >> 33) % 1000;
        state = state.wrapping_mul(6364136223846793005).wrapping_add(1442695040888963407);
        let y = (state >> 33) % 700;
        if !points.contains(&[x, y]) {
            assert_eq!(tree.add(Point::new([x, y])), Ok(()));
            points.push([x, y]);
        }
    }
    let all = tree.query_intersecting(&Rectangle::new(Point::zero(), Point::new([1000, 700])));
    let mut expected = points.clone();
    expected.sort();
    assert_eq!(sorted(all), expected);

    let rect = Rectangle::new(Point::new([120, 300]), Point::new([640, 555]));
    let inside = sorted(tree.query_intersecting(&rect));
    let mut want: Vec<[u64; 2]> = points
        .iter()
        .filter(|p| 120 <= p[0] && p[0] < 640 && 300 <= p[1] && p[1] < 555)
        .cloned()
        .collect();
    want.sort();
    assert_eq!(inside, want);
}

#[test]
fn empty_query_rectangle_finds_nothing() {
    let mut tree: Tree<Point> = Tree::new(Point::from(100));
    assert_eq!(tree.add(Point::new([10, 10])), Ok(()));
    let found = tree.query_intersecting(&Rectangle::new(Point::new([10, 10]), Point::new([10, 20])));
    assert!(found.is_empty());
}

#[test]
fn zero_size_domain_rejects_everything() {
    let mut tree: Tree<Point> = Tree::new(Point::zero());
    assert_eq!(tree.add(Point::zero()), Err(InsertError::OutOfDomain));
    assert!(!tree.contains(Point::zero()));
    let mut flat: Tree<Point> = Tree::new(Point::new([10, 0]));
    assert_eq!(flat.add(Point::new([3, 0])), Err(InsertError::OutOfDomain));
}

#[test]
fn domain_is_lower_inclusive_upper_exclusive() {
    let mut tree: Tree<Point> = Tree::new(Point::from(100));
    assert_eq!(tree.add(Point::new([0, 0])), Ok(()));
    assert_eq!(tree.add(Point::new([99, 99])), Ok(()));
    assert_eq!(tree.add(Point::new([100, 5])), Err(InsertError::OutOfDomain));
    assert_eq!(tree.add(Point::new([5, 100])), Err(InsertError::OutOfDomain));
    assert!(tree.contains(Point::new([0, 0])));
    assert!(tree.contains(Point::new([99, 99])));
    assert!(!tree.contains(Point::new([100, 5])));
}

#[test]
fn midpoint_goes_to_upper_half() {
    let mut tree: Tree<Point> = Tree::new(Point::from(100));
    assert_eq!(tree.add(Point::new([50, 50])), Ok(()));
    assert_eq!(tree.add(Point::new([49, 49])), Ok(()));
    let upper = tree.query_intersecting(&Rectangle::new(Point::new([50, 50]), Point::from(100)));
    assert_eq!(sorted(upper), vec![[50, 50]]);
    let order: Vec<[u64; 2]> = tree
        .query_intersecting(&Rectangle::new(Point::zero(), Point::from(100)))
        .iter()
        .map(|p| p.0)
        .collect();
    assert_eq!(order, vec![[49, 49], [50, 50]]);
}

#[test]
fn neighbours_in_a_large_domain_separate() {
    let big = 1u64 << 62;
    let mut tree: Tree<Point> = Tree::new(Point::from(big));
    assert_eq!(tree.add(Point::new([big - 1, big - 1])), Ok(()));
    assert_eq!(tree.add(Point::new([big - 2, big - 1])), Ok(()));
    assert_eq!(tree.add(Point::new([0, 0])), Ok(()));
    assert!(tree.contains(Point::new([big - 1, big - 1])));
    assert!(tree.contains(Point::new([big - 2, big - 1])));
    assert!(!tree.contains(Point::new([big - 2, big - 2])));
}

#[test]
fn odd_sizes_cover_every_position() {
    let mut tree: Tree<Point> = Tree::new(Point::new([5, 3]));
    for x in 0..5u64 {
        for y in 0..3u64 {
            assert_eq!(tree.add(Point::new([x, y])), Ok(()));
        }
    }
    for x in 0..5u64 {
        for y in 0..3u64 {
            assert!(tree.contains(Point::new([x, y])));
        }
    }
    let all = tree.query_intersecting(&Rectangle::new(Point::zero(), Point::new([5, 3])));
    assert_eq!(all.len(), 15);
}

#[test]
fn each_quadrant_item_has_its_own_leaf() {
    let mut tree: Tree<Point> = Tree::new(Point::from(100));
    for c in [[70, 70], [30, 30], [70, 30], [30, 70]].iter() {
        assert_eq!(tree.add(Point::new(*c)), Ok(()));
    }
    let leaves: Vec<(Vec<usize>, [u64; 2])> = tree.leaves().into_iter().map(|(path, p)| (path, p.0)).collect();
    assert_eq!(
        leaves,
        vec![
            (vec![0], [30, 30]),
            (vec![1], [70, 30]),
            (vec![2], [30, 70]),
            (vec![3], [70, 70]),
        ]
    );
}

#[test]
fn close_items_subdivide_several_levels() {
    let mut tree: Tree<Point> = Tree::new(Point::from(8));
    assert_eq!(tree.add(Point::new([0, 0])), Ok(()));
    assert_eq!(tree.add(Point::new([1, 0])), Ok(()));
    let leaves: Vec<(Vec<usize>, [u64; 2])> = tree.leaves().into_iter().map(|(path, p)| (path, p.0)).collect();
    assert_eq!(leaves, vec![(vec![0, 0, 0], [0, 0]), (vec![0, 0, 1], [1, 0])]);
}

#[test]
fn empty_tree_has_no_leaves() {
    let tree: Tree<Point> = Tree::new(Point::from(8));
    assert!(tree.leaves().is_empty());
    assert!(!tree.contains(Point::new([1, 1])));
}

#[test]
fn midpoint_item_takes_the_upper_leaf() {
    let mut tree: Tree<Point> = Tree::new(Point::from(100));
    assert_eq!(tree.add(Point::new([50, 50])), Ok(()));
    assert_eq!(tree.add(Point::new([30, 30])), Ok(()));
    let leaves: Vec<(Vec<usize>, [u64; 2])> = tree.leaves().into_iter().map(|(path, p)| (path, p.0)).collect();
    assert_eq!(leaves, vec![(vec![0], [30, 30]), (vec![3], [50, 50])]);
}

#[test]
fn insertion_order_does_not_change_the_shape() {
    let items = [[70, 70], [30, 30], [71, 70], [30, 70], [5, 90]];
    let mut forward: Tree<Point> = Tree::new(Point::from(100));
    let mut backward: Tree<Point> = Tree::new(Point::from(100));
    for c in items.iter() {
        assert_eq!(forward.add(Point::new(*c)), Ok(()));
    }
    for c in items.iter().rev() {
        assert_eq!(backward.add(Point::new(*c)), Ok(()));
    }
    let a: Vec<(Vec<usize>, [u64; 2])> = forward.leaves().into_iter().map(|(path, p)| (path, p.0)).collect();
    let b: Vec<(Vec<usize>, [u64; 2])> = backward.leaves().into_iter().map(|(path, p)| (path, p.0)).collect();
    assert_eq!(a, b);
}

#[test]
fn duplicate_keeps_the_tree_as_it_was() {
    let mut tree: Tree<Point> = Tree::new(Point::from(100));
    assert_eq!(tree.add(Point::new([10, 10])), Ok(()));
    assert_eq!(tree.add(Point::new([90, 10])), Ok(()));
    let before: Vec<(Vec<usize>, [u64; 2])> = tree.leaves().into_iter().map(|(path, p)| (path, p.0)).collect();
    assert_eq!(tree.add(Point::new([10, 10])), Err(InsertError::DuplicatePosition));
    let after: Vec<(Vec<usize>, [u64; 2])> = tree.leaves().into_iter().map(|(path, p)| (path, p.0)).collect();
    assert_eq!(before, after);
}
