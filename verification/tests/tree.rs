use quadtree::Cardinal;
use quadtree::QuadTree;
use quadtree::AABB;

type Tree = QuadTree<i64, (i64, i64)>;

fn leaf(x: i64, y: i64, w: i64, pts: Vec<(i64, i64)>, cutoff: usize) -> Tree {
    QuadTree::leaf(AABB::new(x, y, w), pts, cutoff)
}

fn node(x: i64, y: i64, w: i64, kids: [Tree; 4], cutoff: usize) -> Tree {
    let [nw, ne, sw, se] = kids;
    QuadTree::node(AABB::new(x, y, w), Box::new(Cardinal::new(nw, ne, sw, se)), cutoff)
}

fn count(t: &Tree) -> usize {
    match t {
        QuadTree::Leaf { contents, .. } => contents.len(),
        QuadTree::Node { children, .. } => {
            count(&children.nw) + count(&children.ne) + count(&children.sw) + count(&children.se)
        }
    }
}

/// Every leaf holds at most `cutoff` points, all of them in its region, and
/// the children of every node span the quadrants of its region.
fn well_formed(t: &Tree) -> bool {
    match t {
        QuadTree::Leaf { bounding, contents, cutoff } => {
            contents.len() <= *cutoff && contents.iter().all(|p| bounding.contains(p))
        }
        QuadTree::Node { bounding, children, cutoff } => {
            let s = bounding.split();
            let kids = [&children.nw, &children.ne, &children.sw, &children.se];
            let regions = [s.nw, s.ne, s.sw, s.se];
            (0..4).all(|i| {
                let (b, c) = match kids[i] {
                    QuadTree::Leaf { bounding, cutoff, .. } => (bounding, cutoff),
                    QuadTree::Node { bounding, cutoff, .. } => (bounding, cutoff),
                };
                *b == regions[i] && c == cutoff && well_formed(kids[i])
            })
        }
    }
}

#[test]
fn new_is_a_node_of_four_empty_leaves() {
    let t: Tree = QuadTree::new(AABB::new(0, 0, 100), 4);
    assert_eq!(
        t,
        node(
            0,
            0,
            100,
            [
                leaf(0, 50, 50, vec![], 4),
                leaf(50, 50, 50, vec![], 4),
                leaf(0, 0, 50, vec![], 4),
                leaf(50, 0, 50, vec![], 4),
            ],
            4
        )
    );
    assert_eq!(count(&t), 0);
    assert!(well_formed(&t));
}

#[test]
fn new_over_an_odd_side() {
    let t: Tree = QuadTree::new(AABB::new(-3, 7, 5), 1);
    assert_eq!(
        t,
        node(
            -3,
            7,
            5,
            [
                leaf(-3, 9, 2, vec![], 1),
                leaf(-1, 9, 2, vec![], 1),
                leaf(-3, 7, 2, vec![], 1),
                leaf(-1, 7, 2, vec![], 1),
            ],
            1
        )
    );
}

#[test]
fn constructors_keep_what_they_are_given() {
    let empty: Tree = QuadTree::leaf_empty(AABB::new(1, 2, 3), 7);
    assert_eq!(empty, leaf(1, 2, 3, vec![], 7));
    match QuadTree::leaf(AABB::new(1, 2, 3), vec![(1i64, 2i64), (4, 5)], 7) {
        QuadTree::Leaf { bounding, contents, cutoff } => {
            assert_eq!(bounding, AABB::new(1, 2, 3));
            assert_eq!(contents, vec![(1, 2), (4, 5)]);
            assert_eq!(cutoff, 7);
        }
        QuadTree::Node { .. } => panic!("a leaf was asked for"),
    }
    let kids = Cardinal::new(
        leaf(0, 1, 1, vec![], 2),
        leaf(1, 1, 1, vec![], 2),
        leaf(0, 0, 1, vec![], 2),
        leaf(1, 0, 1, vec![], 2),
    );
    match QuadTree::node(AABB::new(0, 0, 2), Box::new(kids), 2) {
        QuadTree::Node { bounding, children, cutoff } => {
            assert_eq!(bounding, AABB::new(0, 0, 2));
            assert_eq!(children.nw, leaf(0, 1, 1, vec![], 2));
            assert_eq!(children.se, leaf(1, 0, 1, vec![], 2));
            assert_eq!(cutoff, 2);
        }
        QuadTree::Leaf { .. } => panic!("a node was asked for"),
    }
}

#[test]
fn tree_contains_what_its_region_contains() {
    let t: Tree = QuadTree::new(AABB::new(0, 0, 100), 4);
    assert!(t.contains(&(0, 0)));
    assert!(t.contains(&(100, 100)));
    assert!(t.contains(&(0, 100)));
    assert!(!t.contains(&(101, 100)));
    assert!(!t.contains(&(-1, 50)));
    let l = leaf(10, 10, 5, vec![], 4);
    assert!(l.contains(&(15, 15)));
    assert!(!l.contains(&(16, 15)));
}

#[test]
fn only_a_leaf_with_cutoff_points_is_full() {
    assert!(!leaf(0, 0, 10, vec![], 2).is_full());
    assert!(!leaf(0, 0, 10, vec![(1, 1)], 2).is_full());
    assert!(leaf(0, 0, 10, vec![(1, 1), (2, 2)], 2).is_full());
    assert!(leaf(0, 0, 10, vec![], 0).is_full());
    let mut t: Tree = QuadTree::new(AABB::new(0, 0, 10), 1);
    assert!(!t.is_full());
    assert!(t.insert((1, 1)));
    assert!(t.insert((9, 9)));
    assert!(t.insert((1, 9)));
    assert!(t.insert((9, 1)));
    assert!(!t.is_full());
}

#[test]
fn leaf_appends_in_order() {
    let mut l = leaf(0, 0, 10, vec![(5, 5)], 4);
    assert!(l.insert((1, 2)));
    assert!(l.insert((10, 10)));
    assert_eq!(l, leaf(0, 0, 10, vec![(5, 5), (1, 2), (10, 10)], 4));
}

#[test]
fn point_outside_is_turned_away() {
    let mut t: Tree = QuadTree::new(AABB::new(0, 0, 100), 4);
    assert!(t.insert((10, 10)));
    let before = format!("{:?}", t);
    assert!(!t.insert((101, 50)));
    assert!(!t.insert((50, -1)));
    assert!(!t.insert((-1, -1)));
    assert_eq!(t.try_insert((200, 200)), Some(false));
    assert_eq!(format!("{:?}", t), before);
    assert_eq!(count(&t), 1);
    let mut l = leaf(0, 0, 10, vec![], 4);
    assert!(!l.insert((11, 0)));
    assert_eq!(l, leaf(0, 0, 10, vec![], 4));
}

#[test]
fn each_quadrant_takes_its_own_points() {
    let mut t: Tree = QuadTree::new(AABB::new(0, 0, 100), 4);
    assert!(t.insert((10, 90)));
    assert!(t.insert((90, 90)));
    assert!(t.insert((10, 10)));
    assert!(t.insert((90, 10)));
    assert_eq!(
        t,
        node(
            0,
            0,
            100,
            [
                leaf(0, 50, 50, vec![(10, 90)], 4),
                leaf(50, 50, 50, vec![(90, 90)], 4),
                leaf(0, 0, 50, vec![(10, 10)], 4),
                leaf(50, 0, 50, vec![(90, 10)], 4),
            ],
            4
        )
    );
}

#[test]
fn point_on_a_shared_edge_goes_to_the_first_quadrant_that_contains_it() {
    let mut t: Tree = QuadTree::new(AABB::new(0, 0, 100), 8);
    // the centre is in all four: northwest comes first
    assert!(t.insert((50, 50)));
    // between northwest and northeast
    assert!(t.insert((50, 80)));
    // between northeast and southeast
    assert!(t.insert((80, 50)));
    // between northwest and southwest
    assert!(t.insert((20, 50)));
    // between southwest and southeast
    assert!(t.insert((50, 20)));
    // in the southeast alone
    assert!(t.insert((51, 49)));
    assert_eq!(
        t,
        node(
            0,
            0,
            100,
            [
                leaf(0, 50, 50, vec![(50, 50), (50, 80), (20, 50)], 8),
                leaf(50, 50, 50, vec![(80, 50)], 8),
                leaf(0, 0, 50, vec![(50, 20)], 8),
                leaf(50, 0, 50, vec![(51, 49)], 8),
            ],
            8
        )
    );
}

#[test]
fn breakup_deals_the_points_out_in_order() {
    let pts = vec![(1, 1), (60, 60), (2, 2), (10, 70), (70, 10), (50, 50), (3, 3)];
    let mut l = leaf(0, 0, 100, pts.clone(), 7);
    let n = l.breakup();
    assert_eq!(l, leaf(0, 0, 100, pts, 7));
    assert_eq!(
        n,
        node(
            0,
            0,
            100,
            [
                leaf(0, 50, 50, vec![(10, 70), (50, 50)], 7),
                leaf(50, 50, 50, vec![(60, 60)], 7),
                leaf(0, 0, 50, vec![(1, 1), (2, 2), (3, 3)], 7),
                leaf(50, 0, 50, vec![(70, 10)], 7),
            ],
            7
        )
    );
    assert_eq!(count(&n), 7);
}

#[test]
fn breakup_of_an_empty_leaf() {
    let mut l = leaf(0, 0, 9, vec![], 3);
    assert_eq!(
        l.breakup(),
        node(
            0,
            0,
            9,
            [
                leaf(0, 4, 4, vec![], 3),
                leaf(4, 4, 4, vec![], 3),
                leaf(0, 0, 4, vec![], 3),
                leaf(4, 0, 4, vec![], 3),
            ],
            3
        )
    );
}

#[test]
fn breakup_of_a_single_point_region() {
    let mut l = leaf(5, 5, 0, vec![(5, 5), (5, 5)], 2);
    assert_eq!(
        l.breakup(),
        node(
            5,
            5,
            0,
            [
                leaf(5, 5, 0, vec![(5, 5), (5, 5)], 2),
                leaf(5, 5, 0, vec![], 2),
                leaf(5, 5, 0, vec![], 2),
                leaf(5, 5, 0, vec![], 2),
            ],
            2
        )
    );
}

#[test]
fn insertion_that_breaks_a_leaf_up_adds_one_point() {
    let mut t: Tree = QuadTree::new(AABB::new(0, 0, 64), 2);
    assert!(t.insert((1, 1)));
    assert!(t.insert((30, 30)));
    assert_eq!(count(&t), 2);
    // the southwest leaf is full: this insertion breaks it up
    assert!(t.insert((17, 1)));
    assert_eq!(count(&t), 3);
    assert_eq!(
        t,
        node(
            0,
            0,
            64,
            [
                leaf(0, 32, 32, vec![], 2),
                leaf(32, 32, 32, vec![], 2),
                node(
                    0,
                    0,
                    32,
                    [
                        leaf(0, 16, 16, vec![], 2),
                        leaf(16, 16, 16, vec![(30, 30)], 2),
                        leaf(0, 0, 16, vec![(1, 1)], 2),
                        leaf(16, 0, 16, vec![(17, 1)], 2),
                    ],
                    2
                ),
                leaf(32, 0, 32, vec![], 2),
            ],
            2
        )
    );
}

#[test]
fn no_leaf_ever_holds_more_than_cutoff_points() {
    let mut t: Tree = QuadTree::new(AABB::new(0, 0, 64), 3);
    let mut inserted = 0;
    for i in 0..200i64 {
        let p = ((i * 37) % 65, (i * 91 + 5) % 65);
        match t.try_insert(p) {
            Some(ok) => {
                assert!(ok);
                inserted += 1;
            }
            None => {}
        }
        assert!(well_formed(&t));
        assert_eq!(count(&t), inserted);
    }
    assert!(inserted > 100);
}

#[test]
fn order_between_quadrants_does_not_matter() {
    let a = [(1, 1), (3, 3), (5, 5), (40, 40), (41, 41), (60, 3), (2, 60), (7, 7)];
    let b = [(2, 60), (1, 1), (60, 3), (3, 3), (40, 40), (5, 5), (41, 41), (7, 7)];
    let mut ta: Tree = QuadTree::new(AABB::new(0, 0, 64), 2);
    let mut tb: Tree = QuadTree::new(AABB::new(0, 0, 64), 2);
    for p in a {
        assert_eq!(ta.try_insert(p), Some(true));
    }
    for p in b {
        assert_eq!(tb.try_insert(p), Some(true));
    }
    assert_eq!(ta, tb);
    assert_eq!(count(&ta), 8);
}

#[test]
fn point_in_the_gap_of_an_odd_side_is_not_admitted() {
    let mut t: Tree = QuadTree::new(AABB::new(0, 0, 5), 4);
    assert!(t.contains(&(5, 5)));
    assert!(!t.admits(&(5, 5)));
    assert!(!t.admits(&(5, 0)));
    assert!(!t.admits(&(0, 5)));
    assert!(t.admits(&(4, 4)));
    let before = format!("{:?}", t);
    assert_eq!(t.try_insert((5, 5)), None);
    assert_eq!(format!("{:?}", t), before);
    assert_eq!(t.try_insert((4, 4)), Some(true));
    assert_eq!(count(&t), 1);
}

#[test]
fn one_copy_too_many_of_a_point_is_not_admitted() {
    let mut t: Tree = QuadTree::new(AABB::new(0, 0, 100), 4);
    for _ in 0..4 {
        assert_eq!(t.try_insert((7, 7)), Some(true));
    }
    assert!(!t.admits(&(7, 7)));
    assert_eq!(t.try_insert((7, 7)), None);
    assert_eq!(count(&t), 4);
    // a point elsewhere in the same leaf can still be told apart
    assert!(t.admits(&(8, 8)));
    // a point outside is turned away whatever the tree holds
    assert!(t.admits(&(500, 500)));
}

#[test]
fn with_cutoff_zero_no_point_of_the_region_is_admitted() {
    let mut t: Tree = QuadTree::new(AABB::new(0, 0, 16), 0);
    assert!(!t.admits(&(3, 3)));
    assert_eq!(t.try_insert((3, 3)), None);
    assert_eq!(t.try_insert((17, 3)), Some(false));
    assert_eq!(count(&t), 0);
}

#[test]
fn points_are_separable_while_splitting_tells_them_apart() {
    let r = AABB::new(0i64, 0, 16);
    assert!(Tree::separable(&r, 1, &vec![]));
    assert!(Tree::separable(&r, 1, &vec![(3, 3)]));
    assert!(Tree::separable(&r, 1, &vec![(3, 3), (12, 12)]));
    // told apart only at side 1
    assert!(Tree::separable(&r, 1, &vec![(0, 0), (0, 1)]));
    // never told apart
    assert!(!Tree::separable(&r, 1, &vec![(3, 3), (3, 3)]));
    assert!(Tree::separable(&r, 2, &vec![(3, 3), (3, 3)]));
    // a point outside the region
    assert!(!Tree::separable(&r, 4, &vec![(3, 3), (17, 3)]));
    // more than fit, and no side left to halve
    assert!(!Tree::separable(&AABB::new(0i64, 0, 0), 1, &vec![(0, 0), (0, 0)]));
    // the far edge of an odd side falls in the gap
    assert!(!Tree::separable(&AABB::new(0i64, 0, 5), 1, &vec![(0, 0), (5, 5)]));
    assert!(Tree::separable(&AABB::new(0i64, 0, 5), 2, &vec![(0, 0), (5, 5)]));
}

#[test]
fn unsigned_coordinates() {
    let mut t: QuadTree<u32, (u32, u32)> = QuadTree::new(AABB::new(0, 0, 8), 1);
    assert!(t.insert((1, 1)));
    assert!(t.insert((3, 3)));
    assert!(!t.insert((9, 9)));
    match &t {
        QuadTree::Node { children, .. } => match &children.sw {
            QuadTree::Node { bounding, children, .. } => {
                assert_eq!(*bounding, AABB::new(0, 0, 4));
                assert_eq!(
                    children.sw,
                    QuadTree::leaf(AABB::new(0, 0, 2), vec![(1, 1)], 1)
                );
                assert_eq!(
                    children.ne,
                    QuadTree::leaf(AABB::new(2, 2, 2), vec![(3, 3)], 1)
                );
            }
            QuadTree::Leaf { .. } => panic!("the southwest leaf was broken up"),
        },
        QuadTree::Leaf { .. } => panic!("the root is a node"),
    }
}
