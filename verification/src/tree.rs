//! The quadtree itself: construction and insertion.

use vstd::prelude::*;
use crate::aabb::AABB;
use crate::aabb::lemma_quadrants_within;
use crate::cardinal::Cardinal;
use crate::cardinal::Quadrant;
use crate::laws::breakup_then_insert;
use crate::laws::insert_keeps_region;
use crate::laws::insert_keeps_shape;
use crate::laws::leaves_within_capacity;
use crate::lemmas::lemma_covered_are_divisible;
use crate::lemmas::lemma_routed_empty;
use crate::lemmas::lemma_routed_push;
use crate::lemmas::lemma_subdivide;
use crate::lemmas::lemma_subdivide_few;
use crate::lemmas::lemma_subdivide_insert;
use crate::lemmas::lemma_subdivide_none;
use crate::model::routed;
use crate::model::separable;
use crate::model::subdivide;
use crate::model::Tree;
use crate::number::QTNumber;
use crate::point::place;
use crate::point::place_all;
use crate::point::Point;

verus! {

/// A quadtree of points of type `P` with coordinates of type `N`.
///
/// A leaf buffers points; a node has handed its region out to four
/// children and holds no point itself.
#[derive(Debug, PartialEq, Eq)]
pub enum QuadTree<N, P> {
    Leaf { bounding: AABB<N>, contents: Vec<P>, cutoff: usize },
    Node { bounding: AABB<N>, children: Box<Cardinal<QuadTree<N, P>>>, cutoff: usize },
}

impl<N: QTNumber, P: Point<N>> View for QuadTree<N, P> {
    type V = Tree<P>;

    open spec fn view(&self) -> Tree<P>
        decreases self,
    {
        match self {
            QuadTree::Leaf { bounding, contents, cutoff } => Tree::Leaf {
                region: bounding@,
                points: place_all::<N, P>(contents@),
                cutoff: *cutoff as nat,
            },
            QuadTree::Node { bounding, children, cutoff } => Tree::Node {
                region: bounding@,
                children: Box::new(
                    Cardinal {
                        nw: children.nw@,
                        ne: children.ne@,
                        sw: children.sw@,
                        se: children.se@,
                    },
                ),
                cutoff: *cutoff as nat,
            },
        }
    }
}

impl<N: QTNumber, P: Point<N>> QuadTree<N, P> {
    /// The region that the tree was given.
    pub open spec fn bounding(&self) -> AABB<N> {
        match self {
            QuadTree::Leaf { bounding, .. } => *bounding,
            QuadTree::Node { bounding, .. } => *bounding,
        }
    }

    /// The tree has the shape that insertion keeps, and the far edges of its
    /// region can be computed.
    pub open spec fn wf(&self) -> bool {
        &&& self@.wf()
        &&& self.bounding().wf()
    }

    /// The children of a well-formed node are well formed, and the model of
    /// each spans the region that the child was given.
    proof fn lemma_children(self)
        requires
            self.wf(),
            self is Node,
        ensures
            self->Node_children.nw.wf() && self->Node_children.nw@ == self@->Node_children.nw,
            self->Node_children.ne.wf() && self->Node_children.ne@ == self@->Node_children.ne,
            self->Node_children.sw.wf() && self->Node_children.sw@ == self@->Node_children.sw,
            self->Node_children.se.wf() && self->Node_children.se@ == self@->Node_children.se,
    {
        let kids = self->Node_children;
        self.bounding().x.bounded();
        self.bounding().y.bounded();
        lemma_quadrants_within(self.bounding()@, N::lowest(), N::highest());
        assert(kids.nw@.region() == kids.nw.bounding()@);
        assert(kids.ne@.region() == kids.ne.bounding()@);
        assert(kids.sw@.region() == kids.sw.bounding()@);
        assert(kids.se@.region() == kids.se.bounding()@);
    }

    /// A leaf over `bounding` that holds nothing yet.
    pub fn leaf_empty(bounding: AABB<N>, cutoff: usize) -> (t: Self)
        ensures
            t matches QuadTree::Leaf { bounding: b, contents, cutoff: c } && b == bounding
                && contents@.len() == 0 && c == cutoff,
            t@ == Tree::<P>::empty(bounding@, cutoff as nat),
    {
        let contents: Vec<P> = Vec::with_capacity(cutoff);
        assert(place_all::<N, P>(contents@) =~= Seq::empty());
        QuadTree::Leaf { bounding, contents, cutoff }
    }

    /// A leaf over `bounding` that holds `contents`.
    pub fn leaf(bounding: AABB<N>, contents: Vec<P>, cutoff: usize) -> (t: Self)
        ensures
            t == (QuadTree::Leaf { bounding, contents, cutoff }),
    {
        QuadTree::Leaf { bounding, contents, cutoff }
    }

    /// A node over `bounding` with the given children.
    pub fn node(
        bounding: AABB<N>,
        children: Box<Cardinal<QuadTree<N, P>>>,
        cutoff: usize,
    ) -> (t: Self)
        ensures
            t == (QuadTree::Node { bounding, children, cutoff }),
    {
        QuadTree::Node { bounding, children, cutoff }
    }

    /// A tree over `bounding` whose leaves hold up to `cutoff` points: a node
    /// of four empty leaves, one for each quadrant.
    ///
    /// With a `cutoff` of zero every leaf is full from the start, and the
    /// tree admits no point of its region.
    pub fn new(bounding: AABB<N>, cutoff: usize) -> (t: Self)
        requires
            bounding.wf(),
        ensures
            t@ == Tree::<P>::fresh(bounding@, cutoff as nat),
            t.bounding() == bounding,
            t.wf(),
            t@.within_capacity(),
            t@.count() == 0,
    {
        let split = bounding.split();
        proof {
            lemma_subdivide_none::<P>(bounding@, cutoff as nat);
            leaves_within_capacity(Tree::<P>::fresh(bounding@, cutoff as nat));
        }
        QuadTree::node(
            bounding,
            Box::new(
                Cardinal::new(
                    QuadTree::leaf_empty(split.nw, cutoff),
                    QuadTree::leaf_empty(split.ne, cutoff),
                    QuadTree::leaf_empty(split.sw, cutoff),
                    QuadTree::leaf_empty(split.se, cutoff),
                ),
            ),
            cutoff,
        )
    }

}

impl<N: QTNumber, P: Point<N> + Copy> QuadTree<N, P> {
    /// Whether the point lies in the region of the tree.
    pub fn contains(&self, p: &P) -> (b: bool)
        requires
            self.bounding().wf(),
        ensures
            b == self@.region().holds(place::<N, P>(*p)),
    {
        match self {
            QuadTree::Leaf { bounding, .. } => bounding.contains(p),
            QuadTree::Node { bounding, .. } => bounding.contains(p),
        }
    }

    /// Whether the tree is a leaf that holds exactly `cutoff` points.
    pub fn is_full(&self) -> (b: bool)
        ensures
            b == self@.is_full(),
    {
        match self {
            QuadTree::Node { .. } => false,
            QuadTree::Leaf { contents, cutoff, .. } => contents.len() == *cutoff,
        }
    }

    /// The node that takes the place of a leaf: four empty leaves over the
    /// quadrants of its region, into which every point of the leaf is then
    /// inserted, in the order of the buffer. The leaf itself is left as it
    /// is.
    ///
    /// Only a leaf can be broken up, and each of its points must lie in the
    /// quadrant that it is handed to.
    pub fn breakup(&mut self) -> (node: Self)
        requires
            old(self)@ is Leaf,
            old(self).wf(),
            old(self)@.region().covers_all(old(self)@.points()),
        ensures
            *final(self) == *old(self),
            node@ == old(self)@.breakup(),
            node.bounding() == old(self).bounding(),
            node.wf(),
            node@.count() == old(self)@.count(),
        decreases old(self)@.region().w, 2nat,
    {
        match &*self {
            QuadTree::Node { .. } => vstd::pervasive::unreached(),
            QuadTree::Leaf { bounding, contents, cutoff } => {
                let ghost r = bounding@;
                let ghost c = *cutoff as nat;
                let ghost pts = place_all::<N, P>(contents@);
                let mut node = QuadTree::new(*bounding, *cutoff);
                proof {
                    lemma_subdivide_none::<P>(r, c);
                    assert(pts.take(0) =~= Seq::empty());
                }
                let n = contents.len();
                let mut i: usize = 0;
                while i < n
                    invariant
                        i <= n,
                        n == contents@.len(),
                        pts == place_all::<N, P>(contents@),
                        pts.len() <= c,
                        r.holds_all(pts),
                        r.covers_all(pts),
                        r == old(self)@.region(),
                        node@ == subdivide(r, c, pts.take(i as int)),
                        node.bounding() == *bounding,
                        node.wf(),
                    decreases n - i,
                {
                    let ghost seen = pts.take(i as int);
                    let ghost q = place::<N, P>(contents@[i as int]);
                    proof {
                        assert(pts[i as int] == q);
                        assert(seen.push(q) =~= pts.take(i + 1));
                        lemma_covered_are_divisible(r, c, pts.take(i + 1));
                        lemma_subdivide_insert(r, c, seen, q);
                        lemma_subdivide_few(r, c, seen);
                    }
                    node.insert(contents[i]);
                    i += 1;
                }
                proof {
                    assert(pts.take(n as int) =~= pts);
                    lemma_covered_are_divisible(r, c, pts);
                    lemma_subdivide(r, c, pts);
                    lemma_subdivide_few(r, c, pts);
                }
                node
            },
        }
    }

    /// Inserts `p`, and says whether it lies in the region of the tree.
    ///
    /// A point outside the region is turned away and the tree stays as it
    /// is. A leaf appends the point. A node hands it to the first of its
    /// northwest, northeast and southwest children whose region contains it,
    /// else to the southeast child; a child that is a full leaf is first
    /// replaced by what `breakup` makes of it.
    ///
    /// The tree must admit the point: a point that falls between the
    /// quadrants of an odd side has no child to go to, and points that no
    /// splitting tells apart would be split for ever.
    pub fn insert(&mut self, p: P) -> (ok: bool)
        requires
            old(self).wf(),
            old(self)@.admits(place::<N, P>(p)),
        ensures
            ok == old(self)@.region().holds(place::<N, P>(p)),
            !ok ==> *final(self) == *old(self),
            final(self)@ == old(self)@.insert(place::<N, P>(p)),
            final(self).bounding() == old(self).bounding(),
            !old(self)@.is_full() ==> final(self).wf() && final(self)@.within_capacity(),
            ok ==> final(self)@.count() == old(self)@.count() + 1,
        decreases old(self)@.region().w, old(self)@.height(),
    {
        let ghost q = place::<N, P>(p);
        let ghost before = self@;
        proof {
            insert_keeps_region(before, q);
            insert_keeps_shape(before, q);
            if !before.is_full() {
                leaves_within_capacity(before.insert(q));
            }
            if *self is Node {
                (*self).lemma_children();
            }
        }
        if !self.contains(&p) {
            return false;
        }
        match self {
            QuadTree::Leaf { contents, .. } => {
                assert(place_all::<N, P>(contents@.push(p)) =~= place_all::<N, P>(contents@).push(
                    q,
                ));
                contents.push(p);
            },
            QuadTree::Node { children, .. } => {
                let ghost kids = *before->Node_children;
                let ghost d = Tree::target(kids, q);
                let rep = if children.nw.contains(&p) {
                    &mut children.nw
                } else if children.ne.contains(&p) {
                    &mut children.ne
                } else if children.sw.contains(&p) {
                    &mut children.sw
                } else {
                    &mut children.se
                };
                assert(rep@ == kids.at(d) && rep@.region().holds(q));
                if !rep.is_full() {
                    rep.insert(p);
                } else {
                    proof {
                        breakup_then_insert(rep@, q);
                    }
                    *rep = rep.breakup();
                    rep.insert(p);
                }
            },
        }
        true
    }

    /// Whether the points of `pts` can be told apart by splitting `bounding`,
    /// with leaves of up to `cutoff` points.
    pub fn separable(bounding: &AABB<N>, cutoff: usize, pts: &Vec<P>) -> (b: bool)
        requires
            bounding.wf(),
        ensures
            b == separable(bounding@, cutoff as nat, place_all::<N, P>(pts@)),
        decreases bounding@.w,
    {
        let ghost r = bounding@;
        let ghost all = place_all::<N, P>(pts@);
        let n = pts.len();
        let mut i: usize = 0;
        while i < n
            invariant
                i <= n,
                n == pts@.len(),
                all == place_all::<N, P>(pts@),
                r == bounding@,
                bounding.wf(),
                forall|j: int| 0 <= j < i ==> r.holds(#[trigger] all[j]),
            decreases n - i,
        {
            if !bounding.contains(&pts[i]) {
                assert(!r.holds(all[i as int]));
                return false;
            }
            i += 1;
        }
        if n <= cutoff {
            return true;
        }
        if !bounding.w.halved().less(bounding.w) {
            return false;
        }
        let s = bounding.split();
        let mut nw: Vec<P> = Vec::new();
        let mut ne: Vec<P> = Vec::new();
        let mut sw: Vec<P> = Vec::new();
        let mut se: Vec<P> = Vec::new();
        proof {
            assert(all.take(0) =~= Seq::empty());
            lemma_routed_empty::<P>(r, Quadrant::Northwest);
            lemma_routed_empty::<P>(r, Quadrant::Northeast);
            lemma_routed_empty::<P>(r, Quadrant::Southwest);
            lemma_routed_empty::<P>(r, Quadrant::Southeast);
            assert(place_all::<N, P>(nw@) =~= Seq::empty());
            assert(place_all::<N, P>(ne@) =~= Seq::empty());
            assert(place_all::<N, P>(sw@) =~= Seq::empty());
            assert(place_all::<N, P>(se@) =~= Seq::empty());
        }
        let mut i: usize = 0;
        while i < n
            invariant
                i <= n,
                n == pts@.len(),
                all == place_all::<N, P>(pts@),
                r == bounding@,
                r.holds_all(all),
                s.nw@ == r.split().nw && s.nw.wf(),
                s.ne@ == r.split().ne && s.ne.wf(),
                s.sw@ == r.split().sw && s.sw.wf(),
                s.se@ == r.split().se && s.se.wf(),
                place_all::<N, P>(nw@) == routed(r, all.take(i as int), Quadrant::Northwest),
                place_all::<N, P>(ne@) == routed(r, all.take(i as int), Quadrant::Northeast),
                place_all::<N, P>(sw@) == routed(r, all.take(i as int), Quadrant::Southwest),
                place_all::<N, P>(se@) == routed(r, all.take(i as int), Quadrant::Southeast),
            decreases n - i,
        {
            let p = pts[i];
            let ghost q = place::<N, P>(p);
            let ghost seen = all.take(i as int);
            proof {
                assert(all[i as int] == q);
                assert(seen.push(q) =~= all.take(i + 1));
                lemma_routed_push(r, seen, q, Quadrant::Northwest);
                lemma_routed_push(r, seen, q, Quadrant::Northeast);
                lemma_routed_push(r, seen, q, Quadrant::Southwest);
                lemma_routed_push(r, seen, q, Quadrant::Southeast);
                assert(place_all::<N, P>(nw@.push(p)) =~= place_all::<N, P>(nw@).push(q));
                assert(place_all::<N, P>(ne@.push(p)) =~= place_all::<N, P>(ne@).push(q));
                assert(place_all::<N, P>(sw@.push(p)) =~= place_all::<N, P>(sw@).push(q));
                assert(place_all::<N, P>(se@.push(p)) =~= place_all::<N, P>(se@).push(q));
            }
            if s.nw.contains(&p) {
                nw.push(p);
            } else if s.ne.contains(&p) {
                ne.push(p);
            } else if s.sw.contains(&p) {
                sw.push(p);
            } else {
                se.push(p);
            }
            i += 1;
        }
        assert(all.take(n as int) =~= all);
        Self::separable(&s.nw, cutoff, &nw) && Self::separable(&s.ne, cutoff, &ne)
            && Self::separable(&s.sw, cutoff, &sw) && Self::separable(&s.se, cutoff, &se)
    }

    /// Whether `insert` can take `p`: the child that `p` is handed to contains
    /// it at each step of the way down, and a full leaf in its way can be
    /// split until its points and `p` fit.
    pub fn admits(&self, p: &P) -> (b: bool)
        requires
            self.wf(),
        ensures
            b == self@.admits(place::<N, P>(*p)),
        decreases self,
    {
        if !self.contains(p) {
            return true;
        }
        match self {
            QuadTree::Leaf { .. } => true,
            QuadTree::Node { children, .. } => {
                proof {
                    self.lemma_children();
                }
                let rep = if children.nw.contains(p) {
                    &children.nw
                } else if children.ne.contains(p) {
                    &children.ne
                } else if children.sw.contains(p) {
                    &children.sw
                } else {
                    &children.se
                };
                if !rep.contains(p) {
                    return false;
                }
                match rep {
                    QuadTree::Node { .. } => rep.admits(p),
                    QuadTree::Leaf { bounding, contents, cutoff } => {
                        if contents.len() != *cutoff {
                            assert(rep@.admits(place::<N, P>(*p)));
                            return true;
                        }
                        let mut all: Vec<P> = Vec::new();
                        let mut i: usize = 0;
                        while i < contents.len()
                            invariant
                                i <= contents@.len(),
                                all@ == contents@.take(i as int),
                            decreases contents@.len() - i,
                        {
                            all.push(contents[i]);
                            assert(contents@.take(i as int).push(contents@[i as int])
                                =~= contents@.take(i + 1));
                            i += 1;
                        }
                        all.push(*p);
                        assert(contents@.take(contents@.len() as int) =~= contents@);
                        assert(place_all::<N, P>(all@) =~= place_all::<N, P>(contents@).push(
                            place::<N, P>(*p),
                        ));
                        Self::separable(bounding, *cutoff, &all)
                    },
                }
            },
        }
    }

    /// Inserts `p` where the tree admits it, and then says whether `p` lies
    /// in the region of the tree. Where the tree does not admit `p`, nothing
    /// is changed and nothing is returned.
    pub fn try_insert(&mut self, p: P) -> (outcome: Option<bool>)
        requires
            old(self).wf(),
        ensures
            outcome is Some <==> old(self)@.admits(place::<N, P>(p)),
            outcome is None ==> *final(self) == *old(self),
            outcome matches Some(ok) ==> {
                &&& ok == old(self)@.region().holds(place::<N, P>(p))
                &&& !ok ==> *final(self) == *old(self)
                &&& final(self)@ == old(self)@.insert(place::<N, P>(p))
                &&& final(self).bounding() == old(self).bounding()
                &&& !old(self)@.is_full() ==> final(self).wf() && final(self)@.within_capacity()
                &&& ok ==> final(self)@.count() == old(self)@.count() + 1
            },
    {
        if self.admits(&p) {
            Some(self.insert(p))
        } else {
            None
        }
    }
}

} // verus!
