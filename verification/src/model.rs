//! The tree as a mathematical value, and what insertion does to it.

use vstd::prelude::*;
use crate::aabb::Region;
use crate::cardinal::Cardinal;
use crate::cardinal::Quadrant;
use crate::point::Placed;

verus! {

/// A quadtree over the integer plane: a leaf that buffers points, or a node
/// with one subtree for each quadrant of its region.
pub enum Tree<P> {
    Leaf { region: Region, points: Seq<Placed<P>>, cutoff: nat },
    Node { region: Region, children: Box<Cardinal<Tree<P>>>, cutoff: nat },
}

/// The predicate that selects, among the points of `r`, those handed to its
/// quadrant `d`.
pub open spec fn routes_to<P>(r: Region, d: Quadrant) -> spec_fn(Placed<P>) -> bool {
    |q: Placed<P>| r.holds(q) && r.quadrant_of(q.x, q.y) == d
}

/// The points of `pts` that a node over `r` hands to its quadrant `d`, in
/// the order in which they come.
pub open spec fn routed<P>(r: Region, pts: Seq<Placed<P>>, d: Quadrant) -> Seq<Placed<P>> {
    pts.filter(routes_to(r, d))
}

/// What a leaf over `r` has become once it has received the points `pts`
/// one after the other: still a leaf while they fit, else a node whose
/// quadrants have each received their share in the same way.
pub open spec fn grow<P>(r: Region, cutoff: nat, pts: Seq<Placed<P>>) -> Tree<P>
    decreases r.w,
{
    if pts.len() <= cutoff || r.w < 1 {
        Tree::Leaf { region: r, points: pts, cutoff }
    } else {
        let s = r.split();
        Tree::Node {
            region: r,
            children: Box::new(
                Cardinal {
                    nw: grow(s.nw, cutoff, routed(r, pts, Quadrant::Northwest)),
                    ne: grow(s.ne, cutoff, routed(r, pts, Quadrant::Northeast)),
                    sw: grow(s.sw, cutoff, routed(r, pts, Quadrant::Southwest)),
                    se: grow(s.se, cutoff, routed(r, pts, Quadrant::Southeast)),
                },
            ),
            cutoff,
        }
    }
}

/// The node over `r` whose four subtrees have each grown from their share of
/// `pts`.
pub open spec fn subdivide<P>(r: Region, cutoff: nat, pts: Seq<Placed<P>>) -> Tree<P> {
    let s = r.split();
    Tree::Node {
        region: r,
        children: Box::new(
            Cardinal {
                nw: grow(s.nw, cutoff, routed(r, pts, Quadrant::Northwest)),
                ne: grow(s.ne, cutoff, routed(r, pts, Quadrant::Northeast)),
                sw: grow(s.sw, cutoff, routed(r, pts, Quadrant::Southwest)),
                se: grow(s.se, cutoff, routed(r, pts, Quadrant::Southeast)),
            },
        ),
        cutoff,
    }
}

/// Whether the points `pts`, all in `r`, can be told apart by splitting:
/// they fit in one leaf, or `r` can still be halved and the share of each
/// quadrant lies in that quadrant and can be told apart there.
pub open spec fn separable<P>(r: Region, cutoff: nat, pts: Seq<Placed<P>>) -> bool
    decreases r.w,
{
    &&& r.holds_all(pts)
    &&& pts.len() > cutoff ==> {
        let s = r.split();
        &&& r.w >= 1
        &&& separable(s.nw, cutoff, routed(r, pts, Quadrant::Northwest))
        &&& separable(s.ne, cutoff, routed(r, pts, Quadrant::Northeast))
        &&& separable(s.sw, cutoff, routed(r, pts, Quadrant::Southwest))
        &&& separable(s.se, cutoff, routed(r, pts, Quadrant::Southeast))
    }
}

/// Whether a node over `r` can take the points `pts`: they lie in `r`, and
/// the share of each quadrant can be told apart in that quadrant.
pub open spec fn divisible<P>(r: Region, cutoff: nat, pts: Seq<Placed<P>>) -> bool {
    let s = r.split();
    &&& r.holds_all(pts)
    &&& separable(s.nw, cutoff, routed(r, pts, Quadrant::Northwest))
    &&& separable(s.ne, cutoff, routed(r, pts, Quadrant::Northeast))
    &&& separable(s.sw, cutoff, routed(r, pts, Quadrant::Southwest))
    &&& separable(s.se, cutoff, routed(r, pts, Quadrant::Southeast))
}

impl<P> Tree<P> {
    /// The region that the tree spans.
    pub open spec fn region(self) -> Region {
        match self {
            Tree::Leaf { region, .. } => region,
            Tree::Node { region, .. } => region,
        }
    }

    /// The number of points a leaf of the tree may hold.
    pub open spec fn cutoff(self) -> nat {
        match self {
            Tree::Leaf { cutoff, .. } => cutoff,
            Tree::Node { cutoff, .. } => cutoff,
        }
    }

    /// The points buffered in the tree itself: those of a leaf, none for a
    /// node.
    pub open spec fn points(self) -> Seq<Placed<P>> {
        match self {
            Tree::Leaf { points, .. } => points,
            Tree::Node { .. } => Seq::empty(),
        }
    }

    /// A leaf is full when it holds exactly `cutoff` points; a node never is.
    pub open spec fn is_full(self) -> bool {
        self is Leaf && self.points().len() == self.cutoff()
    }

    /// The number of points in all the leaves.
    pub open spec fn count(self) -> nat
        decreases self,
    {
        match self {
            Tree::Leaf { points, .. } => points.len(),
            Tree::Node { children, .. } => children.nw.count() + children.ne.count()
                + children.sw.count() + children.se.count(),
        }
    }

    /// The number of nodes on the longest way down to a leaf.
    pub open spec fn height(self) -> nat
        decreases self,
    {
        match self {
            Tree::Leaf { .. } => 0,
            Tree::Node { children, .. } => {
                let a = children.nw.height();
                let b = children.ne.height();
                let c = children.sw.height();
                let d = children.se.height();
                let ab = if a >= b {
                    a
                } else {
                    b
                };
                let cd = if c >= d {
                    c
                } else {
                    d
                };
                1 + if ab >= cd {
                    ab
                } else {
                    cd
                }
            },
        }
    }

    /// Every leaf holds at most `cutoff` points.
    pub open spec fn within_capacity(self) -> bool
        decreases self,
    {
        match self {
            Tree::Leaf { points, cutoff, .. } => points.len() <= cutoff,
            Tree::Node { children, .. } => {
                &&& children.nw.within_capacity()
                &&& children.ne.within_capacity()
                &&& children.sw.within_capacity()
                &&& children.se.within_capacity()
            },
        }
    }

    /// The shape that construction sets up and insertion keeps: the children
    /// of a node span the four quadrants of its region and share its cutoff,
    /// and a leaf holds at most `cutoff` points, all of them in its region.
    pub open spec fn wf(self) -> bool
        decreases self,
    {
        match self {
            Tree::Leaf { region, points, cutoff } => {
                &&& points.len() <= cutoff
                &&& region.holds_all(points)
            },
            Tree::Node { region, children, cutoff } => {
                let s = region.split();
                &&& children.nw.region() == s.nw && children.nw.cutoff() == cutoff
                &&& children.ne.region() == s.ne && children.ne.cutoff() == cutoff
                &&& children.sw.region() == s.sw && children.sw.cutoff() == cutoff
                &&& children.se.region() == s.se && children.se.cutoff() == cutoff
                &&& children.nw.wf()
                &&& children.ne.wf()
                &&& children.sw.wf()
                &&& children.se.wf()
            },
        }
    }

    /// The leaf over `r` that holds nothing yet.
    pub open spec fn empty(r: Region, cutoff: nat) -> Tree<P> {
        Tree::Leaf { region: r, points: Seq::empty(), cutoff }
    }

    /// The node over `r` whose children are four leaves, one over each
    /// quadrant, with the points of `shares`.
    pub open spec fn quartered(
        r: Region,
        cutoff: nat,
        shares: Cardinal<Seq<Placed<P>>>,
    ) -> Tree<P> {
        let s = r.split();
        Tree::Node {
            region: r,
            children: Box::new(
                Cardinal {
                    nw: Tree::Leaf { region: s.nw, points: shares.nw, cutoff },
                    ne: Tree::Leaf { region: s.ne, points: shares.ne, cutoff },
                    sw: Tree::Leaf { region: s.sw, points: shares.sw, cutoff },
                    se: Tree::Leaf { region: s.se, points: shares.se, cutoff },
                },
            ),
            cutoff,
        }
    }

    /// The node of four empty leaves over the quadrants of `r`.
    pub open spec fn fresh(r: Region, cutoff: nat) -> Tree<P> {
        Self::quartered(
            r,
            cutoff,
            Cardinal { nw: Seq::empty(), ne: Seq::empty(), sw: Seq::empty(), se: Seq::empty() },
        )
    }

    /// The node that takes the place of a leaf: four leaves over the
    /// quadrants of its region, each with its share of the points of the
    /// leaf, in the order in which the leaf held them.
    pub open spec fn breakup(self) -> Tree<P> {
        let r = self.region();
        Self::quartered(
            r,
            self.cutoff(),
            Cardinal {
                nw: routed(r, self.points(), Quadrant::Northwest),
                ne: routed(r, self.points(), Quadrant::Northeast),
                sw: routed(r, self.points(), Quadrant::Southwest),
                se: routed(r, self.points(), Quadrant::Southeast),
            },
        )
    }

    /// The child of a node that receives `q`: the first of northwest,
    /// northeast and southwest whose region contains `q`, else southeast.
    pub open spec fn target(children: Cardinal<Tree<P>>, q: Placed<P>) -> Quadrant {
        if children.nw.region().holds(q) {
            Quadrant::Northwest
        } else if children.ne.region().holds(q) {
            Quadrant::Northeast
        } else if children.sw.region().holds(q) {
            Quadrant::Southwest
        } else {
            Quadrant::Southeast
        }
    }

    /// The tree after `q` has been inserted.
    ///
    /// A point outside the region changes nothing. A leaf appends it. A node
    /// hands it to one child: a child with room receives it in turn, and a
    /// full leaf gives way to what its points and `q` grow into.
    pub open spec fn insert(self, q: Placed<P>) -> Tree<P>
        decreases self,
    {
        if !self.region().holds(q) {
            self
        } else {
            match self {
                Tree::Leaf { region, points, cutoff } => Tree::Leaf {
                    region,
                    points: points.push(q),
                    cutoff,
                },
                Tree::Node { region, children, cutoff } => {
                    let d = Self::target(*children, q);
                    let c = children.at(d);
                    let grown = if c.is_full() {
                        grow(c.region(), c.cutoff(), c.points().push(q))
                    } else {
                        c.insert(q)
                    };
                    Tree::Node { region, children: Box::new(children.with(d, grown)), cutoff }
                },
            }
        }
    }

    /// Whether `q` can be inserted: on its way down, the child it is handed
    /// to contains it, and where it meets a full leaf, the points of that
    /// leaf and `q` can be told apart by splitting.
    pub open spec fn admits(self, q: Placed<P>) -> bool
        decreases self,
    {
        self.region().holds(q) ==> match self {
            Tree::Leaf { .. } => true,
            Tree::Node { children, .. } => {
                let c = children.at(Self::target(*children, q));
                &&& c.region().holds(q)
                &&& if c.is_full() {
                    separable(c.region(), c.cutoff(), c.points().push(q))
                } else {
                    c.admits(q)
                }
            },
        }
    }

    /// The tree after the points of `pts` have been inserted one after the
    /// other.
    pub open spec fn insert_all(self, pts: Seq<Placed<P>>) -> Tree<P>
        decreases pts.len(),
    {
        if pts.len() == 0 {
            self
        } else {
            self.insert_all(pts.drop_last()).insert(pts.last())
        }
    }

    /// Whether the points of `pts` can be inserted one after the other: each
    /// is admitted by the tree that those before it have left.
    pub open spec fn admits_all(self, pts: Seq<Placed<P>>) -> bool
        decreases pts.len(),
    {
        pts.len() > 0 ==> {
            &&& self.admits_all(pts.drop_last())
            &&& self.insert_all(pts.drop_last()).admits(pts.last())
        }
    }
}

} // verus!
