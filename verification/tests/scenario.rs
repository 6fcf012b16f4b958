use quadtree::Cardinal;
use quadtree::Point;
use quadtree::QuadTree;
use quadtree::AABB;

#[derive(Clone, Copy, Debug, PartialEq, Eq)]
struct Pt {
    x: i64,
    y: i64,
}

impl Pt {
    fn new(x: i64, y: i64) -> Pt {
        Pt { x, y }
    }
}

impl Point<i64> for Pt {
    fn spec_x(&self) -> i64 {
        self.x
    }

    fn spec_y(&self) -> i64 {
        self.y
    }

    fn x(&self) -> i64 {
        self.x
    }

    fn y(&self) -> i64 {
        self.y
    }
}

type T = QuadTree<i64, Pt>;

fn leaf_of(x: i64, y: i64, w: i64, pts: Vec<Pt>) -> T {
    QuadTree::leaf(AABB::new(x, y, w), pts, 4)
}

fn node_of(x: i64, y: i64, w: i64, nw: T, ne: T, sw: T, se: T) -> T {
    QuadTree::node(AABB::new(x, y, w), Box::new(Cardinal::new(nw, ne, sw, se)), 4)
}

/// The tree over `(0, 0)` with side 100 whose southwest child is `sw`.
fn root_with(sw: T) -> T {
    node_of(
        0,
        0,
        100,
        leaf_of(0, 50, 50, vec![]),
        leaf_of(50, 50, 50, vec![]),
        sw,
        leaf_of(50, 0, 50, vec![]),
    )
}

fn diagonal(n: i64) -> Vec<Pt> {
    let mut v = Vec::new();
    for i in 0..n {
        v.push(Pt::new(i, i));
    }
    v
}

/// What the southwest child of the root has become once the points
/// `(0, 0)` to `(3, 3)` and then `last` are in: halved four times over, down
/// to side 3, where the points at last fall into different quadrants.
fn broken_up(last: Vec<Pt>) -> T {
    let side6 = node_of(
        0,
        0,
        6,
        leaf_of(0, 3, 3, vec![Pt::new(3, 3)]),
        leaf_of(3, 3, 3, last),
        leaf_of(0, 0, 3, diagonal(3)),
        leaf_of(3, 0, 3, vec![]),
    );
    let side12 = node_of(
        0,
        0,
        12,
        leaf_of(0, 6, 6, vec![]),
        leaf_of(6, 6, 6, vec![]),
        side6,
        leaf_of(6, 0, 6, vec![]),
    );
    let side25 = node_of(
        0,
        0,
        25,
        leaf_of(0, 12, 12, vec![]),
        leaf_of(12, 12, 12, vec![]),
        side12,
        leaf_of(12, 0, 12, vec![]),
    );
    node_of(
        0,
        0,
        50,
        leaf_of(0, 25, 25, vec![]),
        leaf_of(25, 25, 25, vec![]),
        side25,
        leaf_of(25, 0, 25, vec![]),
    )
}

#[test]
#[allow(non_snake_case)]
fn testBasic() {
    let mut tree: QuadTree<i64, Pt> = QuadTree::new(AABB::new(0, 0, 100), 4);

    assert!(tree.insert(Pt::new(0, 0)));
    assert!(tree.insert(Pt::new(1, 1)));
    assert!(tree.insert(Pt::new(2, 2)));
    assert!(tree.insert(Pt::new(3, 3)));
    assert!(tree.insert(Pt::new(4, 4)));
    assert!(tree.insert(Pt::new(5, 5)));

    println!("{:?}", tree);
    assert_eq!(tree, root_with(broken_up(vec![Pt::new(4, 4), Pt::new(5, 5)])));
}

#[test]
fn four_points_share_the_southwest_leaf() {
    let mut tree: T = QuadTree::new(AABB::new(0, 0, 100), 4);
    for p in diagonal(4) {
        assert!(tree.insert(p));
    }
    assert_eq!(tree, root_with(leaf_of(0, 0, 50, diagonal(4))));
    match &tree {
        QuadTree::Node { children, .. } => {
            assert!(children.sw.is_full());
            assert!(!children.nw.is_full());
        }
        QuadTree::Leaf { .. } => panic!("the root is a node"),
    }
}

#[test]
fn fifth_point_breaks_the_leaf_up() {
    let mut tree: T = QuadTree::new(AABB::new(0, 0, 100), 4);
    for p in diagonal(4) {
        assert!(tree.insert(p));
    }
    assert!(tree.admits(&Pt::new(4, 4)));
    assert!(tree.insert(Pt::new(4, 4)));
    assert_eq!(tree, root_with(broken_up(vec![Pt::new(4, 4)])));
}

#[test]
fn full_leaf_splits_into_quadrants_of_side_25() {
    let mut full = leaf_of(0, 0, 50, diagonal(4));
    let node = full.breakup();
    assert_eq!(full, leaf_of(0, 0, 50, diagonal(4)));
    assert_eq!(
        node,
        node_of(
            0,
            0,
            50,
            leaf_of(0, 25, 25, vec![]),
            leaf_of(25, 25, 25, vec![]),
            leaf_of(0, 0, 25, diagonal(4)),
            leaf_of(25, 0, 25, vec![]),
        )
    );
}

#[test]
fn try_insert_runs_the_same_scenario() {
    let mut tree: T = QuadTree::new(AABB::new(0, 0, 100), 4);
    for p in diagonal(6) {
        assert_eq!(tree.try_insert(p), Some(true));
    }
    assert_eq!(tree, root_with(broken_up(vec![Pt::new(4, 4), Pt::new(5, 5)])));
}
