//! Axis-aligned squares: containment and the split into four quadrants.

use vstd::prelude::*;
use crate::cardinal::Cardinal;
use crate::cardinal::Quadrant;
use crate::number::half;
use crate::number::QTNumber;
use crate::point::Placed;
use crate::point::Point;

verus! {

/// The square `[x, x + w] × [y, y + w]` in the integer plane.
pub struct Region {
    pub x: int,
    pub y: int,
    pub w: int,
}

impl Region {
    /// Whether `(px, py)` lies in the square, its four edges included.
    pub open spec fn contains(self, px: int, py: int) -> bool {
        &&& self.x <= px <= self.x + self.w
        &&& self.y <= py <= self.y + self.w
    }

    /// Whether the square contains the position of `q`.
    pub open spec fn holds<P>(self, q: Placed<P>) -> bool {
        self.contains(q.x, q.y)
    }

    /// Whether the square contains every point of `pts`.
    pub open spec fn holds_all<P>(self, pts: Seq<Placed<P>>) -> bool {
        forall|i: int| 0 <= i < pts.len() ==> self.holds(#[trigger] pts[i])
    }

    /// The four quadrants, each of side `half(w)`.
    ///
    /// Where `w` is odd, the quadrants stop one unit short of the far edges
    /// of the square: halving rounds down, and nothing makes up for it.
    pub open spec fn split(self) -> Cardinal<Region> {
        let h = half(self.w);
        Cardinal {
            nw: Region { x: self.x, y: self.y + h, w: h },
            ne: Region { x: self.x + h, y: self.y + h, w: h },
            sw: Region { x: self.x, y: self.y, w: h },
            se: Region { x: self.x + h, y: self.y, w: h },
        }
    }

    /// The quadrant that a point of the square is handed to: the first of
    /// northwest, northeast and southwest that contains it, else southeast.
    pub open spec fn quadrant_of(self, px: int, py: int) -> Quadrant {
        let s = self.split();
        if s.nw.contains(px, py) {
            Quadrant::Northwest
        } else if s.ne.contains(px, py) {
            Quadrant::Northeast
        } else if s.sw.contains(px, py) {
            Quadrant::Southwest
        } else {
            Quadrant::Southeast
        }
    }

    /// Whether the quadrant that `(px, py)` is handed to contains it, which
    /// is to say whether any quadrant does.
    pub open spec fn covers(self, px: int, py: int) -> bool {
        self.split().at(self.quadrant_of(px, py)).contains(px, py)
    }

    /// Whether each point of `pts` lies in the quadrant that it is handed to.
    pub open spec fn covers_all<P>(self, pts: Seq<Placed<P>>) -> bool {
        forall|i: int| 0 <= i < pts.len() ==> self.covers((#[trigger] pts[i]).x, pts[i].y)
    }

    /// Whether the far edges `x + w` and `y + w` lie between `lo` and `hi`.
    pub open spec fn far_edges_within(self, lo: int, hi: int) -> bool {
        &&& lo <= self.x + self.w <= hi
        &&& lo <= self.y + self.w <= hi
    }
}

/// A square region, given by its lower-left corner and its side.
#[derive(Copy, Debug, PartialEq, Eq)]
pub struct AABB<N> {
    pub x: N,
    pub y: N,
    pub w: N,
}

impl<N: Copy> Clone for AABB<N> {
    fn clone(&self) -> (r: Self)
        ensures
            r == *self,
    {
        *self
    }
}

impl<N: QTNumber> View for AABB<N> {
    type V = Region;

    open spec fn view(&self) -> Region {
        Region { x: self.x.value(), y: self.y.value(), w: self.w.value() }
    }
}

impl<N: QTNumber> AABB<N> {
    /// The far edges can be written in `N`, so that they can be computed.
    pub open spec fn wf(&self) -> bool {
        self@.far_edges_within(N::lowest(), N::highest())
    }

    /// The square with lower-left corner `(x, y)` and side `w`.
    pub fn new(x: N, y: N, w: N) -> (r: Self)
        ensures
            r == (AABB { x, y, w }),
    {
        AABB { x, y, w }
    }

    /// Splits the square into its four quadrants, each of half its side.
    ///
    /// Half of an odd side is rounded down, so the quadrants of such a square
    /// do not reach its far edges.
    pub fn split(&self) -> (c: Cardinal<AABB<N>>)
        requires
            self.wf(),
        ensures
            c.nw@ == self@.split().nw,
            c.ne@ == self@.split().ne,
            c.sw@ == self@.split().sw,
            c.se@ == self@.split().se,
            c.nw.wf() && c.ne.wf() && c.sw.wf() && c.se.wf(),
    {
        proof {
            self.x.bounded();
            self.y.bounded();
            lemma_quadrants_within(self@, N::lowest(), N::highest());
        }
        let wot = self.w.halved();
        let sw = AABB::new(self.x, self.y, wot);
        let nw = AABB::new(self.x, self.y.plus(wot), wot);
        let se = AABB::new(self.x.plus(wot), self.y, wot);
        let ne = AABB::new(self.x.plus(wot), self.y.plus(wot), wot);
        Cardinal::new(nw, ne, sw, se)
    }

    /// Whether the point lies in the square, edges included.
    pub fn contains<P: Point<N>>(&self, pt: &P) -> (b: bool)
        requires
            self.wf(),
        ensures
            b == self@.contains(pt.spec_x().value(), pt.spec_y().value()),
    {
        let px = pt.x();
        let py = pt.y();
        if px.less(self.x) {
            return false;
        }
        if py.less(self.y) {
            return false;
        }
        if self.x.plus(self.w).less(px) {
            return false;
        }
        if self.y.plus(self.w).less(py) {
            return false;
        }
        true
    }
}

/// The far edges of the quadrants lie between the corner and the far edges
/// of the square they are cut from.
pub proof fn lemma_quadrants_within(r: Region, lo: int, hi: int)
    requires
        lo <= r.x <= hi,
        lo <= r.y <= hi,
        r.far_edges_within(lo, hi),
    ensures
        r.split().nw.far_edges_within(lo, hi),
        r.split().ne.far_edges_within(lo, hi),
        r.split().sw.far_edges_within(lo, hi),
        r.split().se.far_edges_within(lo, hi),
{
}

/// A square contains every point of its four edges, and no point that lies
/// one unit beyond an edge.
pub proof fn edges_are_inside(r: Region, px: int, py: int)
    ensures
        r.y <= py <= r.y + r.w ==> r.contains(r.x, py) && r.contains(r.x + r.w, py),
        r.x <= px <= r.x + r.w ==> r.contains(px, r.y) && r.contains(px, r.y + r.w),
        !r.contains(r.x - 1, py),
        !r.contains(r.x + r.w + 1, py),
        !r.contains(px, r.y - 1),
        !r.contains(px, r.y + r.w + 1),
{
}

/// The quadrants of a square lie inside it. Where the side is even they
/// leave no gap: every point of the square is in one of them. Two quadrants
/// meet only along the lines through the centre.
pub proof fn quadrants_tile(r: Region, px: int, py: int)
    requires
        r.w >= 0,
    ensures
        r.covers(px, py) ==> r.contains(px, py),
        r.w % 2 == 0 && r.contains(px, py) ==> r.covers(px, py),
        forall|d: Quadrant, e: Quadrant|
            d != e && r.split().at(d).contains(px, py) && r.split().at(e).contains(px, py) ==> px
                == r.x + half(r.w) || py == r.y + half(r.w),
{
}

/// Where the side is odd, the far corner of the square is in none of its
/// quadrants.
pub proof fn odd_side_leaves_a_gap(r: Region)
    requires
        r.w >= 0,
        r.w % 2 == 1,
    ensures
        r.contains(r.x + r.w, r.y + r.w),
        !r.covers(r.x + r.w, r.y + r.w),
{
}

} // verus!
