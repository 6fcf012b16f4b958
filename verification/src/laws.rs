//! What insertion keeps, and what a run of insertions builds.

use vstd::prelude::*;
use crate::aabb::Region;
use crate::cardinal::Quadrant;
use crate::lemmas::lemma_covered_are_divisible;
use crate::lemmas::lemma_divisible_covers;
use crate::lemmas::lemma_divisible_prefix;
use crate::lemmas::lemma_grow;
use crate::lemmas::lemma_many_are_divisible;
use crate::lemmas::lemma_subdivide;
use crate::lemmas::lemma_subdivide_few;
use crate::lemmas::lemma_subdivide_insert;
use crate::lemmas::lemma_subdivide_none;
use crate::model::divisible;
use crate::model::grow;
use crate::model::routed;
use crate::model::separable;
use crate::model::subdivide;
use crate::model::Tree;
use crate::point::Placed;

verus! {

/// Insertion keeps the region and the cutoff of a tree, and a point outside
/// the region changes nothing.
pub proof fn insert_keeps_region<P>(t: Tree<P>, q: Placed<P>)
    ensures
        t.insert(q).region() == t.region(),
        t.insert(q).cutoff() == t.cutoff(),
        !t.region().holds(q) ==> t.insert(q) == t,
{
}

/// What insertion keeps of a well-formed tree that admits the point: the
/// tree stays well formed, unless it is itself a full leaf, and it holds one
/// point more where the point lies in its region.
pub proof fn insert_keeps_shape<P>(t: Tree<P>, q: Placed<P>)
    requires
        t.wf(),
        t.admits(q),
    ensures
        !t.is_full() ==> t.insert(q).wf(),
        t.region().holds(q) ==> t.insert(q).count() == t.count() + 1,
    decreases t,
{
    if t.region().holds(q) {
        match t {
            Tree::Leaf { .. } => {},
            Tree::Node { region, children, cutoff } => {
                let d = Tree::target(*children, q);
                let c = children.at(d);
                let grown = if c.is_full() {
                    lemma_grow(c.region(), c.cutoff(), c.points().push(q));
                    grow(c.region(), c.cutoff(), c.points().push(q))
                } else {
                    insert_keeps_shape(c, q);
                    c.insert(q)
                };
                // the child that took `q` holds one point more, the others as before
                assert(grown.count() == c.count() + 1);
                let kids = children.with(d, grown);
                assert(t.insert(q) == Tree::Node { region, children: Box::new(kids), cutoff });
                assert(t.insert(q).count() == kids.nw.count() + kids.ne.count() + kids.sw.count()
                    + kids.se.count());
            },
        }
    }
}

/// Breaking up a well-formed leaf whose points each lie in the quadrant they
/// are handed to gives a well-formed node of four leaves that holds as many
/// points as the leaf did.
pub proof fn breakup_keeps_points<P>(t: Tree<P>)
    requires
        t is Leaf,
        t.wf(),
        t.region().covers_all(t.points()),
    ensures
        t.breakup().wf(),
        t.breakup().region() == t.region(),
        t.breakup().cutoff() == t.cutoff(),
        t.breakup().height() == 1,
        t.breakup().count() == t.count(),
{
    lemma_covered_are_divisible(t.region(), t.cutoff(), t.points());
    lemma_subdivide(t.region(), t.cutoff(), t.points());
    lemma_subdivide_few(t.region(), t.cutoff(), t.points());
}

/// Breaking a full leaf up and then inserting one more point gives what the
/// points of the leaf and that point grow into, where they can be told
/// apart.
pub proof fn breakup_then_insert<P>(t: Tree<P>, q: Placed<P>)
    requires
        t.wf(),
        t.is_full(),
        separable(t.region(), t.cutoff(), t.points().push(q)),
    ensures
        t.region().covers_all(t.points()),
        t.breakup().admits(q),
        t.breakup().insert(q) == grow(t.region(), t.cutoff(), t.points().push(q)),
{
    let r = t.region();
    let c = t.cutoff();
    let pts = t.points();
    lemma_many_are_divisible(r, c, pts.push(q));
    lemma_divisible_covers(r, c, pts.push(q));
    assert forall|i: int| 0 <= i < pts.len() implies r.covers((#[trigger] pts[i]).x, pts[i].y) by {
        assert(pts.push(q)[i] == pts[i]);
    }
    lemma_subdivide_few(r, c, pts);
    lemma_subdivide_insert(r, c, pts, q);
}

/// In a well-formed tree every leaf holds at most `cutoff` points.
pub proof fn leaves_within_capacity<P>(t: Tree<P>)
    requires
        t.wf(),
    ensures
        t.within_capacity(),
    decreases t,
{
    match t {
        Tree::Leaf { .. } => {},
        Tree::Node { children, .. } => {
            leaves_within_capacity(children.nw);
            leaves_within_capacity(children.ne);
            leaves_within_capacity(children.sw);
            leaves_within_capacity(children.se);
        },
    }
}

/// After any run of insertions into a well-formed node the tree is well
/// formed, so that every leaf holds at most `cutoff` points, and the number
/// of points in its leaves has gone up by one for each inserted point that
/// lies in its region.
pub proof fn insertions_keep_capacity<P>(t: Tree<P>, pts: Seq<Placed<P>>)
    requires
        t.wf(),
        t is Node,
        t.admits_all(pts),
    ensures
        t.insert_all(pts) is Node,
        t.insert_all(pts).region() == t.region(),
        t.insert_all(pts).cutoff() == t.cutoff(),
        t.insert_all(pts).wf(),
        t.insert_all(pts).within_capacity(),
        t.region().holds_all(pts) ==> t.insert_all(pts).count() == t.count() + pts.len(),
    decreases pts.len(),
{
    if pts.len() > 0 {
        let rest = pts.drop_last();
        insertions_keep_capacity(t, rest);
        insert_keeps_shape(t.insert_all(rest), pts.last());
        if t.region().holds_all(pts) {
            assert forall|i: int| 0 <= i < rest.len() implies t.region().holds(
                #[trigger] rest[i],
            ) by {
                assert(rest[i] == pts[i]);
            }
        }
    }
    leaves_within_capacity(t.insert_all(pts));
}

/// Points that a node can take can be inserted one after the other into the
/// node of four empty leaves, and what they leave is the node that has taken
/// them: the tree is settled by the share of each quadrant.
pub proof fn insertions_subdivide<P>(r: Region, cutoff: nat, pts: Seq<Placed<P>>)
    requires
        divisible(r, cutoff, pts),
    ensures
        Tree::<P>::fresh(r, cutoff).admits_all(pts),
        Tree::<P>::fresh(r, cutoff).insert_all(pts) == subdivide(r, cutoff, pts),
    decreases pts.len(),
{
    if pts.len() == 0 {
        lemma_subdivide_none::<P>(r, cutoff);
        assert(pts =~= Seq::empty());
    } else {
        let rest = pts.drop_last();
        let q = pts.last();
        assert(rest.push(q) =~= pts);
        lemma_divisible_prefix(r, cutoff, rest, q);
        insertions_subdivide(r, cutoff, rest);
        lemma_subdivide_insert(r, cutoff, rest, q);
    }
}

/// Two runs of insertions into the node of four empty leaves leave the same
/// tree if they hand the same share to each quadrant: in what order points of
/// different quadrants come makes no difference.
pub proof fn order_between_quadrants<P>(
    r: Region,
    cutoff: nat,
    a: Seq<Placed<P>>,
    b: Seq<Placed<P>>,
)
    requires
        divisible(r, cutoff, a),
        r.holds_all(b),
        routed(r, a, Quadrant::Northwest) == routed(r, b, Quadrant::Northwest),
        routed(r, a, Quadrant::Northeast) == routed(r, b, Quadrant::Northeast),
        routed(r, a, Quadrant::Southwest) == routed(r, b, Quadrant::Southwest),
        routed(r, a, Quadrant::Southeast) == routed(r, b, Quadrant::Southeast),
    ensures
        Tree::<P>::fresh(r, cutoff).admits_all(b),
        Tree::<P>::fresh(r, cutoff).insert_all(b) == Tree::<P>::fresh(r, cutoff).insert_all(a),
{
    insertions_subdivide(r, cutoff, a);
    insertions_subdivide(r, cutoff, b);
}

} // verus!
